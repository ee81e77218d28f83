//! Stored records.

use embeddenator_io::to_bincode;
use pattern_classifier::codec::{
    kv_err, load_drift_history, load_f32, load_u64, load_vec, save_drift_history,
    save_f32, save_u64, save_vec, StoreError,
};
use pattern_classifier::single::Single;
use pattern_classifier::vsa::SparseVec;

fn single(x: f32) -> Single {
    Single::from_bits(x.to_bits())
}

fn refused() -> StoreError {
    StoreError::Other("down".to_string())
}

#[test]
fn store_errors_have_texts() {
    assert_eq!(kv_err(StoreError::NoSuchStore), "keyvalue: no such store");
    assert_eq!(kv_err(StoreError::AccessDenied), "keyvalue: access denied");
    assert_eq!(kv_err(StoreError::Other("disk full".to_string())), "keyvalue: disk full");
}

#[test]
fn counters_are_little_endian() {
    for n in [0u64, 1, 255, 256, 0x0102_0304_0506_0708, u64::MAX] {
        assert_eq!(save_u64(n), n.to_le_bytes().to_vec());
        assert_eq!(load_u64(Ok(Some(save_u64(n)))), n);
    }
}

#[test]
fn missing_and_malformed_counters_are_zero() {
    assert_eq!(load_u64(Ok(None)), 0);
    assert_eq!(load_u64(Err(refused())), 0);
    assert_eq!(load_u64(Ok(Some(vec![1; 7]))), 0);
    assert_eq!(load_u64(Ok(Some(vec![1; 9]))), 0);
}

#[test]
fn numbers_are_little_endian() {
    for x in [0.0f32, -0.0, 1.5, -3.25e-12, f32::MAX, f32::INFINITY] {
        assert_eq!(save_f32(single(x)), x.to_le_bytes().to_vec());
        assert_eq!(load_f32(Ok(Some(save_f32(single(x))))), single(x));
    }
}

#[test]
fn missing_and_malformed_numbers_are_zero() {
    assert_eq!(load_f32(Ok(None)).bits, 0);
    assert_eq!(load_f32(Err(refused())).bits, 0);
    assert_eq!(load_f32(Ok(Some(vec![1; 3]))).bits, 0);
    assert_eq!(load_f32(Ok(Some(vec![1; 8]))).bits, 0);
}

#[test]
fn vectors_are_two_lists() {
    let v = SparseVec { pos: vec![1, 300], neg: vec![70_000] };
    let mut bytes = Vec::new();
    for n in [2u64, 1, 300, 1, 70_000] {
        bytes.extend(n.to_le_bytes());
    }
    assert_eq!(save_vec(&v), bytes);
    let back = load_vec(Ok(Some(bytes))).unwrap();
    assert_eq!((back.pos, back.neg), (v.pos, v.neg));
}

#[test]
fn bytes_behind_a_vector_are_ignored() {
    let v = SparseVec { pos: vec![], neg: vec![5] };
    let mut bytes = save_vec(&v);
    bytes.push(9);
    let back = load_vec(Ok(Some(bytes))).unwrap();
    assert_eq!((back.pos, back.neg), (vec![], vec![5]));
}

#[test]
fn missing_and_malformed_vectors_are_none() {
    assert!(load_vec(Ok(None)).is_none());
    assert!(load_vec(Err(refused())).is_none());
    assert!(load_vec(Ok(Some(vec![]))).is_none());
    let mut bytes = save_vec(&SparseVec { pos: vec![1], neg: vec![2] });
    bytes.pop();
    assert!(load_vec(Ok(Some(bytes))).is_none());
    assert!(load_vec(Ok(Some(u64::MAX.to_le_bytes().to_vec()))).is_none());
}

#[test]
fn histories_are_lists_of_numbers() {
    let values = vec![0.25f32, -1.0, 3.5e-3, 0.0];
    let history: Vec<Single> = values.iter().map(|x| single(*x)).collect();
    let bytes = save_drift_history(&history);
    assert_eq!(bytes, to_bincode(&values).unwrap());
    assert_eq!(load_drift_history(Ok(Some(bytes))), history);
}

#[test]
fn missing_and_malformed_histories_are_empty() {
    assert!(load_drift_history(Ok(None)).is_empty());
    assert!(load_drift_history(Err(refused())).is_empty());
    assert!(load_drift_history(Ok(Some(vec![1, 2, 3]))).is_empty());
    let mut bytes = save_drift_history(&vec![single(1.0), single(2.0)]);
    bytes.pop();
    assert!(load_drift_history(Ok(Some(bytes))).is_empty());
}
