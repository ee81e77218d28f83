//! Encoding, statistics, hypotheses and drift.

use pattern_classifier::codec::save_vec;
use pattern_classifier::encode::{
    build_master_bundle, encode_json_fields, update_running_bundle, Fields,
};
use pattern_classifier::single::Single;
use pattern_classifier::solutions::{build_solutions, MAX_SOLUTIONS};
use pattern_classifier::stats::{
    classify_drift, combined_confidence, compute_z_score, linear_slope, welford_update,
    z_to_confidence, z_to_exponent, WINDOW_N,
};
use pattern_classifier::vsa::SparseVec;

fn single(x: f32) -> Single {
    Single::from_bits(x.to_bits())
}

fn float(x: Single) -> f32 {
    f32::from_bits(x.bits)
}

fn confidence_of(z: f32) -> f32 {
    let exponent = z_to_exponent(single(z));
    float(z_to_confidence(single(float(exponent).exp())))
}

fn slope_of(values: &[f32]) -> f32 {
    let values: Vec<Single> = values.iter().map(|x| single(*x)).collect();
    float(linear_slope(&values))
}

fn drift_class_of(drift: f32, rate: f32) -> (&'static str, f32) {
    let (label, confidence) = classify_drift(single(drift), single(rate));
    (label, float(confidence))
}

fn results(list: &[(&str, f32, bool)]) -> Vec<(String, Single, bool)> {
    list.iter().map(|(name, score, a)| (name.to_string(), single(*score), *a)).collect()
}

// Encoding.

#[test]
fn test_encode_json_fields_parses_object() {
    let body = br#"{"event":"quake","magnitude":"6.2"}"#;
    let fields = encode_json_fields(body).expect("should parse");
    assert_eq!(fields.len(), 2);
    assert!(fields.get("event").is_some());
    assert!(fields.get("magnitude").is_some());
}

#[test]
fn test_encode_json_fields_rejects_array() {
    assert!(encode_json_fields(b"[1,2,3]").is_err());
}

#[test]
fn test_encode_json_fields_rejects_invalid_json() {
    let err = encode_json_fields(b"not json").unwrap_err();
    assert!(err.contains("JSON parse error"), "got: {err}");
}

#[test]
fn test_encode_json_fields_rejects_non_object() {
    assert!(encode_json_fields(br#""just a string""#).is_err());
}

#[test]
fn test_encode_json_fields_deterministic() {
    let body = br#"{"sensor":"temperature","value":"42.5"}"#;
    let a = encode_json_fields(body).unwrap();
    let b = encode_json_fields(body).unwrap();
    for (key, _) in &a.entries {
        let av = save_vec(a.get(key).unwrap());
        let bv = save_vec(b.get(key).unwrap());
        assert_eq!(av, bv, "field '{key}' must be deterministic");
    }
}

#[test]
fn encoding_errors_have_exact_texts() {
    assert_eq!(encode_json_fields(b"[1,2,3]").unwrap_err(), "body is not a JSON object");
    assert_eq!(encode_json_fields(b"null").unwrap_err(), "body is not a JSON object");
    let parse = serde_json::from_slice::<serde_json::Value>(b"not json").unwrap_err();
    assert_eq!(
        encode_json_fields(b"not json").unwrap_err(),
        format!("JSON parse error: {parse}")
    );
}

#[test]
fn fields_are_bound_vectors_of_name_and_value_text() {
    let fields = encode_json_fields(br#"{"b":[1, 2],"a":"x","n":1.50}"#).unwrap();
    let config = embeddenator_vsa::ReversibleVSAConfig::default();
    let names: Vec<&str> = fields.entries.iter().map(|(name, _)| name.as_str()).collect();
    assert_eq!(names, vec!["a", "b", "n"]);
    for (name, text) in [("a", "\"x\""), ("b", "[1,2]"), ("n", "1.5")] {
        let key = embeddenator_vsa::SparseVec::encode_data(name.as_bytes(), &config, None);
        let val = embeddenator_vsa::SparseVec::encode_data(text.as_bytes(), &config, None);
        let bound = key.bind(&val);
        let field = fields.get(name).unwrap();
        assert_eq!(field.pos, bound.pos);
        assert_eq!(field.neg, bound.neg);
    }
    assert!(fields.get("c").is_none());
}

#[test]
fn bytes_set_the_dimensions_they_point_at() {
    // 'a' is 97 at position 0; in the text the backtick is 96 at position 1.
    let fields = encode_json_fields(br#"{"a":"`"}"#).unwrap();
    let v = fields.get("a").unwrap();
    assert_eq!((v.pos.clone(), v.neg.clone()), (vec![97], vec![]));
    // 'D' is 68 at position 0; the first byte of the letter is 0xc3 at position 1.
    let fields = encode_json_fields("{\"D\":\"\u{e9}\"}".as_bytes()).unwrap();
    let v = fields.get("D").unwrap();
    assert_eq!((v.pos.clone(), v.neg.clone()), (vec![], vec![68]));
    // Nothing in common.
    let fields = encode_json_fields(br#"{"k":"v"}"#).unwrap();
    let v = fields.get("k").unwrap();
    assert!(v.pos.is_empty() && v.neg.is_empty());
    assert_eq!(float(v.similarity(v)), 0.0);
}

#[test]
fn one_block_is_encoded_byte_by_byte() {
    let config = embeddenator_vsa::ReversibleVSAConfig::default();
    let mut data: Vec<u8> = Vec::new();
    let mut state: u32 = 7;
    for len in (0..=256usize).step_by(32) {
        while data.len() < len {
            state = state.wrapping_mul(1664525).wrapping_add(1013904223);
            data.push((state >> 24) as u8);
        }
        let v = embeddenator_vsa::SparseVec::encode_data(&data, &config, None);
        let points = |high: bool, d: usize| {
            let hits = |(i, b): (usize, &u8)| (*b >= 128) == high && i + (*b & 127) as usize == d;
            data.iter().enumerate().any(hits)
        };
        let only = |high: bool| {
            (0..500).filter(|d| points(high, *d) && !points(!high, *d)).collect::<Vec<usize>>()
        };
        let (pos, neg) = (only(false), only(true));
        assert_eq!((v.pos, v.neg), (pos, neg), "{len}");
    }
}

#[test]
fn repeated_member_keeps_the_last_value() {
    let fields = encode_json_fields(br#"{"a":"first","a":"second"}"#).unwrap();
    let other = encode_json_fields(br#"{"a":"second"}"#).unwrap();
    assert_eq!(fields.len(), 1);
    assert_eq!(save_vec(fields.get("a").unwrap()), save_vec(other.get("a").unwrap()));
}

#[test]
fn vectors_are_well_formed() {
    let body = br#"{"sensor":"temperature","value":"a somewhat longer value text"}"#;
    let fields = encode_json_fields(body).unwrap();
    let bundle = build_master_bundle(&fields).unwrap();
    for v in fields.entries.iter().map(|(_, v)| v).chain([&bundle]) {
        for list in [&v.pos, &v.neg] {
            assert!(list.windows(2).all(|w| w[0] < w[1]));
            assert!(list.iter().all(|d| *d < pattern_classifier::vsa::DIMENSIONS));
        }
        assert!(v.pos.iter().all(|d| !v.neg.contains(d)));
    }
}

// Bundles.

#[test]
fn test_build_master_bundle_multi_field() {
    let fields = encode_json_fields(br#"{"a":"1","b":"2","c":"3"}"#).unwrap();
    assert!(build_master_bundle(&fields).is_some());
}

#[test]
fn test_build_master_bundle_single_field() {
    let fields = encode_json_fields(br#"{"only":"field"}"#).unwrap();
    assert!(build_master_bundle(&fields).is_some());
}

#[test]
fn test_build_master_bundle_empty() {
    let empty = Fields::new();
    assert!(build_master_bundle(&empty).is_none());
}

#[test]
fn master_bundle_superposes_from_the_first_field_on() {
    let body = br#"{"alpha":"a first value","beta":"another value","gamma":"the last value"}"#;
    let fields = encode_json_fields(body).unwrap();
    let bundle = build_master_bundle(&fields).unwrap();
    let outside: Vec<embeddenator_vsa::SparseVec> = fields
        .entries
        .iter()
        .map(|(_, v)| embeddenator_vsa::SparseVec { pos: v.pos.clone(), neg: v.neg.clone() })
        .collect();
    let expected = outside[0].bundle(&outside[1]).bundle(&outside[2]);
    assert_eq!(bundle.pos, expected.pos);
    assert_eq!(bundle.neg, expected.neg);
    assert!(!bundle.pos.is_empty());
}

#[test]
fn superposition_cancels_opposite_signs() {
    let a = pattern_classifier::vsa::SparseVec { pos: vec![1, 2], neg: vec![3, 4] };
    let b = pattern_classifier::vsa::SparseVec { pos: vec![2, 3, 7], neg: vec![4, 8] };
    let r = update_running_bundle(Some(&a), &b);
    assert_eq!(r.pos, vec![1, 2, 7]);
    assert_eq!(r.neg, vec![4, 8]);
}

#[test]
fn test_update_running_bundle_cold_start() {
    let fields = encode_json_fields(br#"{"k":"v"}"#).unwrap();
    let vec = &fields.entries[0].1;
    let result = update_running_bundle(None, vec);
    let a = save_vec(&result);
    let b = save_vec(vec);
    assert_eq!(a, b, "cold-start must equal input vector");
}

#[test]
fn running_bundle_of_one_vector_stays() {
    let fields = encode_json_fields(br#"{"sensor":"temperature","val":"42"}"#).unwrap();
    let bundle = build_master_bundle(&fields).unwrap();
    let again = update_running_bundle(Some(&bundle), &bundle);
    assert_eq!(save_vec(&again), save_vec(&bundle));
}

// Running statistics.

#[test]
fn test_welford_single_sample() {
    let (mean, m2) = welford_update(1, single(0.0), single(0.0), single(0.8));
    let (mean, m2) = (float(mean), float(m2));
    assert!((mean - 0.8).abs() < 1e-5, "mean={mean}");
    assert!(m2.abs() < 1e-5, "m2={m2}");
}

#[test]
fn test_welford_two_samples() {
    // n=1: value=0.8 → mean=0.8, m2=0
    let (m1, m2_1) = welford_update(1, single(0.0), single(0.0), single(0.8));
    // n=2: value=0.6 → mean=0.7, m2=0.02
    let (m2, m2_2) = welford_update(2, m1, m2_1, single(0.6));
    let (m2, m2_2) = (float(m2), float(m2_2));
    assert!((m2 - 0.7).abs() < 1e-5, "mean={m2}");
    assert!((m2_2 - 0.02).abs() < 1e-5, "m2={m2_2}");
}

#[test]
fn welford_step_is_exact() {
    let (mean, m2) = welford_update(4, single(1.0), single(2.0), single(3.0));
    assert_eq!(float(mean), 1.5);
    assert_eq!(float(m2), 5.0);
}

/// Mean and sum of squared deviations accumulated over samples.
fn accumulate(samples: &[f32]) -> (f32, f32) {
    let mut state = (single(0.0), single(0.0));
    for (i, x) in samples.iter().enumerate() {
        state = welford_update(i as u64 + 1, state.0, state.1, single(*x));
    }
    (float(state.0), float(state.1))
}

/// Samples spread over the range from minus one to one.
fn spread_samples(count: usize) -> Vec<f32> {
    (0..count).map(|i| ((i * 7919) % 2001) as f32 / 1000.0 - 1.0).collect()
}

#[test]
fn accumulation_is_mean_and_spread_up_to_rounding() {
    for exponent in [-40i32, 0, 30, 50] {
        let scale = (2.0f64).powi(exponent);
        for count in [1usize, 2, 3, 10, 100, 1000] {
            let samples: Vec<f32> =
                spread_samples(count).iter().map(|x| x * scale as f32).collect();
            let (mean, m2) = accumulate(&samples);
            let k = count as f64;
            let total: f64 = samples.iter().map(|x| *x as f64).sum();
            let unit = scale * (2.0f64).powi(-23);
            assert!((k * mean as f64 - total).abs() <= k * (k + 13.0) * unit, "{count}");
            let squares: f64 = samples.iter().map(|x| (*x as f64 - mean as f64).powi(2)).sum();
            let unit = scale * scale * (2.0f64).powi(-23);
            assert!((m2 as f64 - squares).abs() <= k * (4.0 * k + 44.0) * unit, "{count}");
        }
    }
    assert_eq!(accumulate(&[1.0, 0.0, 1.0, 0.0]), (0.5, 1.0));
}

#[test]
fn accumulation_hardly_depends_on_the_order() {
    let samples = spread_samples(500);
    let mut turned = samples.clone();
    turned.reverse();
    turned.swap(3, 77);
    let (a, b) = (accumulate(&samples), accumulate(&turned));
    let k = samples.len() as f64;
    let unit = (2.0f64).powi(-23);
    assert!((k * a.0 as f64 - k * b.0 as f64).abs() <= 2.0 * k * (k + 13.0) * unit);
    assert!((a.1 as f64 - b.1 as f64).abs() <= k * (16.0 * k + 192.0) * unit);
    assert!((a.0 - b.0).abs() < 1e-5 && (a.1 - b.1).abs() < 1e-2);
}

#[test]
fn accumulated_mean_stays_among_the_samples_and_spread_is_never_negative() {
    let lists: [&[f32]; 5] = [
        &[0.1; 50],
        &[-0.3, -0.30000001, -0.3, -0.29999998],
        &[1e-45, 1e-44, 3e-45],
        &[1.0e37, -1.0e37, 1.0e37],
        &[3.0e38, 2.9e38, 3.4e38],
    ];
    for samples in lists {
        for k in 1..=samples.len() {
            let (mean, m2) = accumulate(&samples[..k]);
            let low = samples[..k].iter().cloned().fold(f32::MAX, f32::min);
            let high = samples[..k].iter().cloned().fold(f32::MIN, f32::max);
            assert!(low <= mean && mean <= high, "{mean}");
            assert!(m2 >= 0.0, "{m2}");
        }
    }
}

#[test]
fn test_compute_z_score_insufficient_data() {
    assert_eq!(float(compute_z_score(single(0.5), single(0.8), single(0.02), 1)), 0.0);
}

#[test]
fn test_compute_z_score_at_mean() {
    // score == mean → z = 0
    let z = float(compute_z_score(single(0.7), single(0.7), single(0.02), 10));
    assert!(z.abs() < 1e-5, "z={z}");
}

#[test]
fn z_score_is_exact() {
    let z = compute_z_score(single(1.0), single(4.0), single(9.0), 5);
    assert_eq!(float(z), 2.0);
    let steep = compute_z_score(single(1.0), single(0.0), single(0.0), 5);
    assert_eq!(float(steep), 1.0 / 1e-6_f32);
    let negative_spread = compute_z_score(single(1.0), single(0.0), single(-1.0), 5);
    assert_eq!(float(negative_spread), 1.0 / 1e-6_f32);
}

#[test]
fn test_z_to_confidence_at_zero() {
    let c = confidence_of(0.0);
    assert!(c.abs() < 1e-5, "c={c}");
}

#[test]
fn test_z_to_confidence_large_z() {
    let c = confidence_of(5.0);
    assert!(c > 0.99, "c={c}");
}

#[test]
fn confidence_curve_is_exact() {
    assert_eq!(float(z_to_exponent(single(3.0))), -4.5);
    assert_eq!(float(z_to_exponent(single(-3.0))), -4.5);
    assert_eq!(float(z_to_confidence(single(0.25))), 0.75);
    assert_eq!(confidence_of(2.0), 1.0 - (-2.0_f32).exp());
    assert_eq!(confidence_of(1e30), 1.0);
}

#[test]
fn confidence_grows_with_the_distance_on_both_sides() {
    assert_eq!(confidence_of(0.0), 0.0);
    let mut before = 0.0;
    for i in 0..200 {
        let z = i as f32 * 0.05;
        let c = confidence_of(z);
        assert_eq!(c, confidence_of(-z));
        assert!(c >= before, "z={z}");
        assert!(z < 5.0 || c > 0.99, "z={z}");
        before = c;
    }
    assert_eq!(float(z_to_exponent(single(5.0))), -12.5);
    assert!((-12.5f32).exp() <= 1.0 / 128.0);
}

// Confidences.

#[test]
fn test_combined_confidence_msg_only() {
    let c = float(combined_confidence(single(0.9), single(0.0)));
    let expected = 0.6 * 0.9;
    assert!((c - expected).abs() < 1e-5, "c={c}");
}

#[test]
fn test_combined_confidence_field_only() {
    let c = float(combined_confidence(single(0.0), single(1.0)));
    let expected = 0.4;
    assert!((c - expected).abs() < 1e-5, "c={c}");
}

#[test]
fn combined_confidence_is_clamped() {
    assert_eq!(float(combined_confidence(single(7.0), single(1.0))), 1.0);
    assert_eq!(float(combined_confidence(single(-7.0), single(0.0))), 0.0);
    assert!(combined_confidence(single(f32::NAN), single(0.0)).is_nan());
    let c: f32 = 0.60 * 0.25 + (1.0 - 0.60) * 0.5;
    assert_eq!(float(combined_confidence(single(0.25), single(0.5))), c);
}

#[test]
fn combined_confidence_grows_with_both_signals() {
    let steps: Vec<f32> = (0..=40).map(|i| i as f32 / 40.0).collect();
    for m in &steps {
        for f in &steps {
            let c = float(combined_confidence(single(*m), single(*f)));
            let more = float(combined_confidence(single(*m + 0.025), single(*f)));
            let fields = float(combined_confidence(single(*m), single(*f + 0.025)));
            assert!(c <= more && c <= fields, "{m} {f}");
            let exact = 3.0 * *m as f64 + 2.0 * *f as f64;
            assert!((5.0 * c as f64 - exact).abs() <= (2.0f64).powi(-19), "{m} {f}");
        }
    }
}

// Hypotheses.

#[test]
fn test_build_solutions_anomaly() {
    let field_results = results(&[("magnitude", 0.3, true), ("location", 0.85, false)]);
    let solutions = build_solutions(true, single(0.9), &field_results);
    let labels: Vec<&str> = solutions.iter().map(|s| s.label.as_str()).collect();
    assert!(labels.contains(&"field_spike:magnitude"));
    assert!(labels.contains(&"message_level_anomaly"));
    assert!(labels.contains(&"normal"));
}

#[test]
fn test_build_solutions_normal() {
    let field_results = results(&[("a", 0.95, false), ("b", 0.90, false)]);
    let solutions = build_solutions(false, single(0.1), &field_results);
    assert_eq!(solutions[0].label, "normal");
}

#[test]
fn test_build_solutions_capped_at_max() {
    let field_results: Vec<_> = (0..10).map(|i| (format!("f{i}"), single(0.2), true)).collect();
    let solutions = build_solutions(true, single(0.9), &field_results);
    assert!(solutions.len() <= MAX_SOLUTIONS);
}

#[test]
fn solutions_are_ranked_and_equal_ones_keep_their_order() {
    let field_results = results(&[
        ("low", 0.75, true),
        ("calm", 0.95, false),
        ("high", 0.25, true),
        ("even", 0.25, true),
        ("wild", -3.0, true),
    ]);
    let solutions = build_solutions(true, single(0.75), &field_results);
    let list: Vec<(&str, f32, &str)> = solutions
        .iter()
        .map(|s| (s.label.as_str(), float(s.confidence), s.source.as_str()))
        .collect();
    assert_eq!(
        list,
        vec![
            ("field_spike:wild", 1.0, "phase1"),
            ("field_spike:high", 0.75, "phase1"),
            ("field_spike:even", 0.75, "phase1"),
            ("message_level_anomaly", 0.75, "phase1"),
            ("field_spike:low", 0.25, "phase1"),
        ]
    );
}

#[test]
fn incomparable_confidences_stay_where_they_are() {
    let nan = f32::NAN;
    let field_results = results(&[("a", 0.5, true), ("b", nan, true), ("c", 0.25, true)]);
    let solutions = build_solutions(false, single(0.1), &field_results);
    let labels: Vec<&str> = solutions.iter().map(|s| s.label.as_str()).collect();
    let mut expected = vec![("a", 0.5f32), ("b", nan), ("c", 0.75), ("normal", 0.9)];
    expected.sort_by(|x, y| y.1.partial_cmp(&x.1).unwrap_or(std::cmp::Ordering::Equal));
    let expected: Vec<String> = expected
        .iter()
        .map(|(n, _)| if *n == "normal" { n.to_string() } else { format!("field_spike:{n}") })
        .collect();
    assert_eq!(labels, expected);
}

#[test]
fn ranking_agrees_with_a_stable_sort() {
    let scores = [0.3, 0.1, 0.3, 0.9, 0.1, 0.5, 0.9, 0.2, 0.3];
    let field_results: Vec<_> =
        scores.iter().enumerate().map(|(i, x)| (format!("f{i}"), single(*x), true)).collect();
    let mut expected: Vec<(String, f32)> = scores
        .iter()
        .enumerate()
        .map(|(i, x)| (format!("field_spike:f{i}"), 1.0 - x))
        .collect();
    expected.push(("normal".to_string(), 1.0 - 0.4));
    expected.sort_by(|a, b| b.1.partial_cmp(&a.1).unwrap());
    expected.truncate(MAX_SOLUTIONS);
    let solutions = build_solutions(false, single(0.4), &field_results);
    let list: Vec<(String, f32)> =
        solutions.iter().map(|s| (s.label.clone(), float(s.confidence))).collect();
    assert_eq!(list, expected);
}

// Similarity.

#[test]
fn test_cosine_self_similarity() {
    let fields = encode_json_fields(br#"{"sensor":"temperature","val":"42"}"#).unwrap();
    let vec = &fields.entries[0].1;
    let sim = float(vec.similarity(vec));
    assert!(sim > 0.99, "self-cosine should be ~1.0, got {sim}");
}

#[test]
fn test_cosine_different_fields_lower_than_self() {
    let f1 = encode_json_fields(br#"{"sensor":"temperature"}"#).unwrap();
    let f2 = encode_json_fields(br#"{"event":"earthquake"}"#).unwrap();
    let v1 = &f1.entries[0].1;
    let v2 = &f2.entries[0].1;
    let cross = float(v1.similarity(v2));
    let self_sim = float(v1.similarity(v1));
    assert!(cross < self_sim, "cross={cross} self_sim={self_sim}");
}

#[test]
fn similarity_is_the_narrowed_cosine() {
    let a = pattern_classifier::vsa::SparseVec { pos: vec![1, 2, 3], neg: vec![4, 5, 6, 7] };
    let b = pattern_classifier::vsa::SparseVec { pos: vec![2, 3, 4], neg: vec![5, 9] };
    let x = embeddenator_vsa::SparseVec { pos: a.pos.clone(), neg: a.neg.clone() };
    let y = embeddenator_vsa::SparseVec { pos: b.pos.clone(), neg: b.neg.clone() };
    assert_eq!(float(a.similarity(&b)), x.cosine(&y) as f32);
    assert_ne!(float(a.similarity(&b)), 0.0);
    let nothing = pattern_classifier::vsa::SparseVec { pos: vec![], neg: vec![] };
    assert_eq!(float(a.similarity(&nothing)), 0.0);
}

#[test]
fn similarity_lies_between_minus_one_and_one() {
    let vectors: Vec<SparseVec> = (1..60usize)
        .map(|n| SparseVec {
            pos: (0..n * 7).filter(|d| d % 3 != 0).collect(),
            neg: (0..n * 5).filter(|d| d % 3 == 0).collect(),
        })
        .collect();
    for a in &vectors {
        let turned = SparseVec { pos: a.neg.clone(), neg: a.pos.clone() };
        assert_eq!(float(a.similarity(&turned)), -1.0);
        for b in &vectors {
            assert!(float(a.similarity(b)).abs() <= 1.0);
        }
    }
}

#[test]
fn similarity_of_a_vector_with_itself_is_one() {
    for n in [1usize, 2, 3, 7, 10, 49, 200, 701, 5000] {
        let v = pattern_classifier::vsa::SparseVec {
            pos: (0..n).step_by(2).collect(),
            neg: (1..n).step_by(2).collect(),
        };
        assert_eq!(float(v.similarity(&v)), 1.0, "{n}");
        let x = embeddenator_vsa::SparseVec { pos: v.pos.clone(), neg: v.neg.clone() };
        let bits = x.cosine(&x).to_bits();
        let one = 1.0f64.to_bits();
        assert!(bits >= one - 8 && bits <= one + 8, "{n}");
    }
}

#[test]
fn similarity_is_symmetric_and_vanishes_without_common_dimensions() {
    let a = pattern_classifier::vsa::SparseVec { pos: vec![1, 2, 3], neg: vec![9] };
    let b = pattern_classifier::vsa::SparseVec { pos: vec![2, 9], neg: vec![3, 4] };
    let c = pattern_classifier::vsa::SparseVec { pos: vec![20], neg: vec![30] };
    assert_eq!(a.similarity(&b), b.similarity(&a));
    assert!(float(a.similarity(&b)) < 0.0);
    assert_eq!(float(a.similarity(&c)), 0.0);
}

// Regression and drift.

#[test]
fn test_linear_slope_increasing() {
    // Monotonically increasing drift history → positive slope
    let history = vec![0.0, 0.1, 0.2, 0.3, 0.4];
    let slope = slope_of(&history);
    assert!(slope > 0.09, "slope should be ~0.1, got {slope}");
}

#[test]
fn test_linear_slope_flat() {
    // Flat drift history → slope ≈ 0
    let history = vec![0.5, 0.5, 0.5, 0.5, 0.5];
    let slope = slope_of(&history);
    assert!(slope.abs() < 1e-5, "slope should be ~0, got {slope}");
}

#[test]
fn test_linear_slope_single_point() {
    // Fewer than 2 points → 0.0
    let history = vec![0.3];
    let slope = slope_of(&history);
    assert_eq!(slope, 0.0);
}

#[test]
fn test_linear_slope_empty() {
    let slope = slope_of(&[]);
    assert_eq!(slope, 0.0);
}

#[test]
fn slope_is_exact_on_a_line() {
    assert_eq!(slope_of(&[1.0, 3.0, 5.0, 7.0]), 2.0);
    assert_eq!(slope_of(&[1.0, 0.0]), -1.0);
}

#[test]
fn slope_of_a_line_is_its_rise_up_to_rounding() {
    let tolerance = (2.0f64).powi(-17);
    for (start, rise, n) in [(0.1f32, 0.0f32, 10usize), (-2.0, 0.0625, 64), (1.5, -0.125, 10)] {
        let values: Vec<f32> = (0..n).map(|i| start + rise * i as f32).collect();
        let slope = slope_of(&values) as f64;
        assert!((slope - rise as f64).abs() <= tolerance, "{slope} {rise}");
    }
}

#[test]
fn slope_is_that_of_the_least_squares_line() {
    let values: Vec<f32> = vec![0.1, 0.7, 0.3, 1.9, 0.0, 1.2, 0.4, 0.45, 2.0, 0.9];
    let n = values.len() as f64;
    let total: f64 = values.iter().map(|v| *v as f64).sum();
    let moment: f64 = values.iter().enumerate().map(|(i, v)| i as f64 * *v as f64).sum();
    let exact = 12.0 * moment - 6.0 * (n - 1.0) * total;
    let slope = slope_of(&values) as f64;
    let tolerance = 96.0 * n * n * n * (2.0f64).powi(-24);
    assert!((slope * n * (n * n - 1.0) - exact).abs() <= tolerance, "{slope}");
    assert!(slope > 0.05);
}

#[test]
fn test_classify_temporal_regime_change() {
    let (label, conf) = drift_class_of(0.40, 0.05);
    assert_eq!(label, "regime_change");
    assert!((conf - 0.88).abs() < 1e-5, "conf={conf}");
}

#[test]
fn test_classify_temporal_gradual() {
    let (label, conf) = drift_class_of(0.35, 0.01);
    assert_eq!(label, "gradual_trend_shift");
    assert!((conf - 0.75).abs() < 1e-5, "conf={conf}");
}

#[test]
fn test_classify_temporal_emerging() {
    let (label, conf) = drift_class_of(0.10, 0.05);
    assert_eq!(label, "emerging_trend");
    assert!((conf - 0.60).abs() < 1e-5, "conf={conf}");
}

#[test]
fn test_classify_temporal_normal() {
    let (label, conf) = drift_class_of(0.10, 0.01);
    assert_eq!(label, "temporal_normal");
    assert!((conf - 0.95).abs() < 1e-5, "conf={conf}");
}

#[test]
fn drift_is_high_only_above_its_threshold() {
    assert_eq!(drift_class_of(0.30, 0.02), ("temporal_normal", 0.95));
    assert_eq!(drift_class_of(0.3001, 0.02), ("gradual_trend_shift", 0.75));
    assert_eq!(drift_class_of(0.30, 0.0201), ("emerging_trend", 0.60));
    assert_eq!(drift_class_of(0.3001, 0.0201), ("regime_change", 0.88));
    assert_eq!(drift_class_of(f32::NAN, f32::NAN), ("temporal_normal", 0.95));
}

#[test]
fn test_ring_buffer_wrap_around() {
    // Verify that head % WINDOW_N wraps correctly
    for head in 0..(3 * WINDOW_N) {
        let slot = head % WINDOW_N;
        assert!(slot < WINDOW_N, "slot={slot} must be < WINDOW_N={WINDOW_N}");
    }
    // Specific wrap boundary
    assert_eq!(WINDOW_N % WINDOW_N, 0);
    assert_eq!((WINDOW_N + 1) % WINDOW_N, 1);
    assert_eq!((2 * WINDOW_N - 1) % WINDOW_N, WINDOW_N - 1);
}

#[test]
fn test_drift_zero_for_identical_windows() {
    // Two identical bundles → cosine ≈ 1.0, drift ≈ 0.0
    let fields = encode_json_fields(br#"{"sensor":"temperature","value":"42"}"#).unwrap();
    let bundle = build_master_bundle(&fields).unwrap();
    let drift = 1.0 - float(bundle.similarity(&bundle));
    assert!(drift.abs() < 0.05, "identical bundles should have drift ≈ 0, got {drift}");
}

#[test]
fn test_drift_high_for_different_windows() {
    // Two very different bundles → lower cosine, higher drift
    let f1 = encode_json_fields(br#"{"sensor":"temperature","value":"42"}"#).unwrap();
    let f2 = encode_json_fields(br#"{"event":"earthquake","magnitude":"9.9"}"#).unwrap();
    let b1 = build_master_bundle(&f1).unwrap();
    let b2 = build_master_bundle(&f2).unwrap();
    let cosine = float(b1.similarity(&b2));
    let drift = (1.0 - cosine).max(0.0);
    // Different bundles should have higher drift than identical ones
    let self_drift = 1.0 - float(b1.similarity(&b1));
    assert!(
        drift > self_drift,
        "different bundles drift={drift} should exceed self drift={self_drift}"
    );
}

#[test]
fn test_window_bundle_warming_up_size() {
    // Phase 2 requires 2 × WINDOW_N messages before producing temporal results.
    // Before that, size < 2*WINDOW_N indicates warming up.
    let required = 2 * WINDOW_N as u64;
    assert_eq!(required, 40, "need 40 messages for Phase 2 warm-up");

    // Simulate size counter growth
    for msg in 1..=50u64 {
        let size = msg.min(required);
        if msg < required {
            assert!(size < required, "msg={msg}: should still be warming up");
        } else {
            assert_eq!(size, required, "msg={msg}: should be at capacity");
        }
    }
}
