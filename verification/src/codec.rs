//! How values are stored: little-endian integers and `bincode` records.

use crate::rounding::lemma_pow2_increases;
use crate::single::Single;
use crate::text::prefixed;
use crate::vsa::{optional, SparseVec};
use vstd::arithmetic::power2::{lemma_pow2_adds, pow2};
use vstd::prelude::*;
use vstd::string::*;

verus! {

/// Why the key-value store refused an operation.
#[derive(Clone, Debug)]
pub enum StoreError {
    NoSuchStore,
    AccessDenied,
    Other(String),
}

/// Text of a store error.
pub open spec fn store_error_text(e: StoreError) -> Seq<char> {
    match e {
        StoreError::NoSuchStore => "keyvalue: no such store"@,
        StoreError::AccessDenied => "keyvalue: access denied"@,
        StoreError::Other(message) => "keyvalue: "@ + message@,
    }
}

/// Text of a store error.
pub fn kv_err(e: StoreError) -> (text: String)
    ensures
        text@ == store_error_text(e),
{
    match e {
        StoreError::NoSuchStore => "keyvalue: no such store".to_owned(),
        StoreError::AccessDenied => "keyvalue: access denied".to_owned(),
        StoreError::Other(message) => prefixed("keyvalue: ", message.as_str()),
    }
}

/// What the store answers to a read.
pub type Fetched = Result<Option<Vec<u8>>, StoreError>;

/// The bytes that a read brought, if any; a failed read brings none.
pub open spec fn fetched(got: Fetched) -> Option<Seq<u8>> {
    match got {
        Ok(Some(bytes)) => Some(bytes@),
        _ => None,
    }
}

/// How a write went: a failed one brings the text of the error.
pub open spec fn written(done: Result<(), StoreError>) -> Result<(), Seq<char>> {
    match done {
        Ok(_) => Ok(()),
        Err(e) => Err(store_error_text(e)),
    }
}

/// The last `width` base-256 digits of `x`, least significant first.
pub open spec fn le_bytes(x: nat, width: nat) -> Seq<u8>
    decreases width,
{
    if width == 0 {
        Seq::empty()
    } else {
        seq![(x % 256) as u8] + le_bytes(x / 256, (width - 1) as nat)
    }
}

/// The number whose base-256 digits are `s`, least significant first.
pub open spec fn le_value(s: Seq<u8>) -> nat
    decreases s.len(),
{
    if s.len() == 0 {
        0
    } else {
        s[0] as nat + 256 * le_value(s.skip(1))
    }
}

pub proof fn lemma_le_bytes_len(x: nat, width: nat)
    ensures
        le_bytes(x, width).len() == width,
    decreases width,
{
    if width > 0 {
        lemma_le_bytes_len(x / 256, (width - 1) as nat);
    }
}

pub proof fn lemma_le_bound(s: Seq<u8>)
    ensures
        le_value(s) < pow2(8 * s.len()),
    decreases s.len(),
{
    vstd::arithmetic::power2::lemma2_to64();
    if s.len() > 0 {
        lemma_le_bound(s.skip(1));
        lemma_pow2_adds(8, 8 * s.skip(1).len());
        assert(8 + 8 * s.skip(1).len() == 8 * s.len());
    }
}

/// Reading the digits of a number back gives the number.
pub proof fn lemma_le_round_trip(x: nat, width: nat)
    requires
        x < pow2(8 * width),
    ensures
        le_value(le_bytes(x, width)) == x,
    decreases width,
{
    vstd::arithmetic::power2::lemma2_to64();
    if width > 0 {
        lemma_pow2_adds(8, (8 * width - 8) as nat);
        assert(x / 256 < pow2((8 * (width - 1)) as nat)) by (nonlinear_arith)
            requires
                x < pow2(8 * width),
                pow2(8 * width) == 256 * pow2((8 * (width - 1)) as nat),
        ;
        lemma_le_round_trip(x / 256, (width - 1) as nat);
        let s = le_bytes(x, width);
        assert(s.skip(1) =~= le_bytes(x / 256, (width - 1) as nat));
    }
}

/// The last `width` base-256 digits of `x`, least significant first.
fn to_le(x: u64, width: usize) -> (out: Vec<u8>)
    ensures
        out@ == le_bytes(x as nat, width as nat),
{
    let mut out: Vec<u8> = Vec::new();
    let mut rest: u64 = x;
    let mut i: usize = 0;
    while i < width
        invariant
            i <= width,
            out@ + le_bytes(rest as nat, (width - i) as nat) == le_bytes(x as nat, width as nat),
        decreases width - i,
    {
        let ghost before = out@;
        out.push((rest % 256) as u8);
        assert(out@ + le_bytes((rest / 256) as nat, (width - i - 1) as nat) =~= before + le_bytes(
            rest as nat,
            (width - i) as nat,
        ));
        rest = rest / 256;
        i = i + 1;
    }
    assert(out@ + le_bytes(rest as nat, 0) =~= out@);
    out
}

/// The number whose base-256 digits are `bytes`, least significant first.
fn from_le(bytes: &Vec<u8>) -> (x: u64)
    requires
        bytes@.len() <= 8,
    ensures
        x == le_value(bytes@),
{
    let mut x: u64 = 0;
    let mut i: usize = bytes.len();
    assert(bytes@.skip(i as int) =~= Seq::empty());
    while i > 0
        invariant
            i <= bytes@.len() <= 8,
            x == le_value(bytes@.skip(i as int)),
        decreases i,
    {
        let ghost tail = bytes@.skip(i as int);
        i = i - 1;
        let ghost now = bytes@.skip(i as int);
        proof {
            assert(now.skip(1) =~= tail);
            lemma_le_bound(now);
            lemma_pow2_increases(8 * now.len(), 64);
            vstd::arithmetic::power2::lemma2_to64();
        }
        x = bytes[i] as u64 + 256 * x;
    }
    assert(bytes@.skip(0) =~= bytes@);
    x
}

/// The stored counter: eight bytes, or zero when there are not eight.
pub open spec fn counter(bytes: Option<Seq<u8>>) -> u64 {
    match bytes {
        Some(s) if s.len() == 8 => le_value(s) as u64,
        _ => 0,
    }
}

/// Reads a counter out of what the store answered.
pub fn load_u64(got: Fetched) -> (n: u64)
    ensures
        n == counter(fetched(got)),
{
    match got {
        Ok(Some(bytes)) => {
            if bytes.len() == 8 {
                from_le(&bytes)
            } else {
                0
            }
        },
        _ => 0,
    }
}

/// The bytes to store for a counter.
pub fn save_u64(val: u64) -> (bytes: Vec<u8>)
    ensures
        bytes@ == le_bytes(val as nat, 8),
{
    to_le(val, 8)
}

/// The stored number: the four bytes of its bit pattern, or zero when there are
/// not four.
pub open spec fn number(bytes: Option<Seq<u8>>) -> Single {
    match bytes {
        Some(s) if s.len() == 4 => Single { bits: le_value(s) as u32 },
        _ => Single { bits: 0 },
    }
}

/// Reads a single-precision number out of what the store answered.
pub fn load_f32(got: Fetched) -> (x: Single)
    ensures
        x == number(fetched(got)),
{
    match got {
        Ok(Some(bytes)) => {
            if bytes.len() == 4 {
                proof {
                    lemma_le_bound(bytes@);
                    vstd::arithmetic::power2::lemma2_to64();
                }
                Single { bits: from_le(&bytes) as u32 }
            } else {
                Single { bits: 0 }
            }
        },
        _ => Single { bits: 0 },
    }
}

/// The bytes to store for a single-precision number.
pub fn save_f32(val: Single) -> (bytes: Vec<u8>)
    ensures
        bytes@ == le_bytes(val.bits as nat, 4),
{
    to_le(val.bits as u64, 4)
}

/// Numbers of `width` bytes each, one after another.
pub open spec fn flat(items: Seq<nat>, width: nat) -> Seq<u8>
    decreases items.len(),
{
    if items.len() == 0 {
        Seq::empty()
    } else {
        flat(items.drop_last(), width) + le_bytes(items.last(), width)
    }
}

/// A list as `bincode` writes it: the length in eight bytes, then the items.
pub open spec fn list_record(items: Seq<nat>, width: nat) -> Seq<u8> {
    le_bytes(items.len(), 8) + flat(items, width)
}

/// Reads a list record: the items and the bytes behind it.
pub open spec fn read_list(s: Seq<u8>, width: nat) -> Option<(Seq<nat>, Seq<u8>)> {
    if s.len() < 8 {
        None
    } else {
        let n = le_value(s.subrange(0, 8));
        if s.len() < 8 + n * width {
            None
        } else {
            Some(
                (
                    Seq::new(
                        n,
                        |i: int|
                            le_value(s.subrange(8 + i * width, 8 + i * width + width)),
                    ),
                    s.subrange((8 + n * width) as int, s.len() as int),
                ),
            )
        }
    }
}

/// The dimensions as plain numbers.
pub open spec fn numbers(s: Seq<usize>) -> Seq<nat> {
    Seq::new(s.len(), |i: int| s[i] as nat)
}

/// Plain numbers as dimensions.
pub open spec fn dimensions(s: Seq<nat>) -> Seq<usize> {
    Seq::new(s.len(), |i: int| s[i] as usize)
}

pub open spec fn fits(s: Seq<nat>) -> bool {
    forall|i: int| 0 <= i < s.len() ==> s[i] <= usize::MAX
}

/// The record of a vector: its two lists.
pub open spec fn vector_record(v: (Seq<usize>, Seq<usize>)) -> Seq<u8> {
    list_record(numbers(v.0), 8) + list_record(numbers(v.1), 8)
}

/// The vector that a record holds; bytes behind it are ignored.
pub open spec fn recorded_vector(s: Seq<u8>) -> Option<(Seq<usize>, Seq<usize>)> {
    match read_list(s, 8) {
        Some((pos, rest)) => match read_list(rest, 8) {
            Some((neg, _)) => if fits(pos) && fits(neg) {
                Some((dimensions(pos), dimensions(neg)))
            } else {
                None
            },
            None => None,
        },
        None => None,
    }
}

/// The record of a list of bit patterns.
pub open spec fn history_record(h: Seq<u32>) -> Seq<u8> {
    list_record(Seq::new(h.len(), |i: int| h[i] as nat), 4)
}

/// The bit patterns that a record holds; bytes behind it are ignored.
pub open spec fn recorded_history(s: Seq<u8>) -> Option<Seq<u32>> {
    match read_list(s, 4) {
        Some((items, _)) => Some(Seq::new(items.len(), |i: int| items[i] as u32)),
        None => None,
    }
}

/// Calls `embeddenator_io::to_bincode` on a vector.  Trusted: `bincode` writes a
/// list as its length and its items, each as a little-endian integer of eight
/// bytes, and writing to memory does not fail.
#[verifier::external_body]
fn vector_to_bincode(vec: &SparseVec) -> (r: Result<Vec<u8>, String>)
    ensures
        r is Ok,
        r->Ok_0@ == vector_record(vec@),
{
    let v = embeddenator_vsa::SparseVec { pos: vec.pos.clone(), neg: vec.neg.clone() };
    match embeddenator_io::to_bincode(&v) {
        Ok(bytes) => Ok(bytes),
        Err(e) => Err(e.to_string()),
    }
}

/// Calls `embeddenator_io::from_bincode` for a vector.  Trusted: `bincode` reads
/// the two lists back, fails when the bytes run out or an index does not fit, and
/// ignores what follows.
#[verifier::external_body]
fn vector_from_bincode(bytes: &Vec<u8>) -> (r: Option<SparseVec>)
    ensures
        optional(r) == recorded_vector(bytes@),
{
    match embeddenator_io::from_bincode::<embeddenator_vsa::SparseVec>(bytes) {
        Ok(v) => Some(SparseVec { pos: v.pos, neg: v.neg }),
        Err(_) => None,
    }
}

/// Calls `embeddenator_io::to_bincode` on a list of bit patterns.  Trusted:
/// `bincode` writes the length in eight bytes and each pattern in four, as it
/// does for the numbers that the patterns encode, and does not fail.
#[verifier::external_body]
fn history_to_bincode(history: &Vec<u32>) -> (r: Result<Vec<u8>, String>)
    ensures
        r is Ok,
        r->Ok_0@ == history_record(history@),
{
    match embeddenator_io::to_bincode(history) {
        Ok(bytes) => Ok(bytes),
        Err(e) => Err(e.to_string()),
    }
}

/// Calls `embeddenator_io::from_bincode` for a list of bit patterns.  Trusted:
/// `bincode` reads the list back, fails when the bytes run out, and ignores what
/// follows.
#[verifier::external_body]
fn history_from_bincode(bytes: &Vec<u8>) -> (r: Option<Vec<u32>>)
    ensures
        r is Some <==> recorded_history(bytes@) is Some,
        r matches Some(h) ==> recorded_history(bytes@) == Some(h@),
{
    match embeddenator_io::from_bincode::<Vec<u32>>(bytes) {
        Ok(h) => Some(h),
        Err(_) => None,
    }
}

/// The stored vector, if the bytes hold one.
pub open spec fn vector(bytes: Option<Seq<u8>>) -> Option<(Seq<usize>, Seq<usize>)> {
    match bytes {
        Some(s) => recorded_vector(s),
        None => None,
    }
}

/// Reads a vector out of what the store answered.
pub fn load_vec(got: Fetched) -> (r: Option<SparseVec>)
    ensures
        optional(r) == vector(fetched(got)),
{
    match got {
        Ok(Some(bytes)) => vector_from_bincode(&bytes),
        _ => None,
    }
}

/// The bytes to store for a vector.
pub fn save_vec(vec: &SparseVec) -> (bytes: Vec<u8>)
    ensures
        bytes@ == vector_record(vec@),
{
    vector_to_bincode(vec).unwrap()
}

/// The stored drift values; none when the bytes hold no list.
pub open spec fn history(bytes: Option<Seq<u8>>) -> Seq<Single> {
    match bytes {
        Some(s) => match recorded_history(s) {
            Some(h) => Seq::new(h.len(), |i: int| Single { bits: h[i] }),
            None => Seq::empty(),
        },
        None => Seq::empty(),
    }
}

/// The record of drift values.
pub open spec fn drift_record(h: Seq<Single>) -> Seq<u8> {
    history_record(Seq::new(h.len(), |i: int| h[i].bits))
}

/// Reads the drift history out of what the store answered.
pub fn load_drift_history(got: Fetched) -> (h: Vec<Single>)
    ensures
        h@ == history(fetched(got)),
{
    let mut h: Vec<Single> = Vec::new();
    if let Ok(Some(bytes)) = got {
        if let Some(patterns) = history_from_bincode(&bytes) {
            let mut i: usize = 0;
            while i < patterns.len()
                invariant
                    i <= patterns@.len(),
                    h@ == Seq::new(i as nat, |j: int| Single { bits: patterns@[j] }),
                decreases patterns.len() - i,
            {
                h.push(Single { bits: patterns[i] });
                i = i + 1;
                assert(h@ =~= Seq::new(i as nat, |j: int| Single { bits: patterns@[j] }));
            }
        }
    }
    h
}

/// The bytes to store for a drift history.
pub fn save_drift_history(history: &Vec<Single>) -> (bytes: Vec<u8>)
    ensures
        bytes@ == drift_record(history@),
{
    let mut patterns: Vec<u32> = Vec::new();
    let mut i: usize = 0;
    while i < history.len()
        invariant
            i <= history@.len(),
            patterns@ == Seq::new(i as nat, |j: int| history@[j].bits),
        decreases history.len() - i,
    {
        patterns.push(history[i].bits);
        i = i + 1;
        assert(patterns@ =~= Seq::new(i as nat, |j: int| history@[j].bits));
    }
    history_to_bincode(&patterns).unwrap()
}

proof fn lemma_flat_len(items: Seq<nat>, width: nat)
    ensures
        flat(items, width).len() == items.len() * width,
    decreases items.len(),
{
    if items.len() > 0 {
        let n = items.drop_last().len();
        lemma_flat_len(items.drop_last(), width);
        lemma_le_bytes_len(items.last(), width);
        assert(items.len() * width == n * width + width) by (nonlinear_arith)
            requires items.len() == n + 1;
    } else {
        assert(0 * width == 0) by (nonlinear_arith);
    }
}

proof fn lemma_flat_at(items: Seq<nat>, width: nat, i: int)
    requires
        0 <= i < items.len(),
    ensures
        0 <= i * width,
        i * width + width <= flat(items, width).len(),
        flat(items, width).subrange(i * width, i * width + width) == le_bytes(items[i], width),
    decreases items.len(),
{
    let init = items.drop_last();
    let n = init.len();
    lemma_flat_len(items, width);
    lemma_flat_len(init, width);
    lemma_le_bytes_len(items.last(), width);
    assert(0 <= i * width) by (nonlinear_arith)
        requires 0 <= i;
    assert(items.len() * width == n * width + width) by (nonlinear_arith)
        requires items.len() == n + 1;
    let piece = flat(items, width).subrange(i * width, i * width + width);
    if i < n {
        lemma_flat_at(init, width, i);
        assert(piece =~= flat(init, width).subrange(i * width, i * width + width));
    } else {
        assert(piece =~= le_bytes(items.last(), width));
    }
}

proof fn lemma_list_round_trip(items: Seq<nat>, width: nat, rest: Seq<u8>)
    requires
        items.len() <= u64::MAX,
        forall|i: int| 0 <= i < items.len() ==> items[i] < pow2(8 * width),
    ensures
        read_list(list_record(items, width) + rest, width) == Some((items, rest)),
{
    let s = list_record(items, width) + rest;
    let n = items.len();
    vstd::arithmetic::power2::lemma2_to64();
    lemma_le_bytes_len(n, 8);
    lemma_le_round_trip(n, 8);
    lemma_flat_len(items, width);
    assert(s.subrange(0, 8) =~= le_bytes(n, 8));
    let read = Seq::new(n, |i: int| le_value(s.subrange(8 + i * width, 8 + i * width + width)));
    assert forall|i: int| 0 <= i < n implies read[i] == items[i] by {
        lemma_flat_at(items, width, i);
        assert(s.subrange(8 + i * width, 8 + i * width + width) =~= flat(items, width).subrange(
            i * width,
            i * width + width,
        ));
        lemma_le_round_trip(items[i], width);
    }
    assert(read =~= items);
    assert(s.subrange((8 + n * width) as int, s.len() as int) =~= rest);
}

/// A stored counter is read back.
pub proof fn lemma_counter_round_trip(val: u64)
    ensures
        counter(Some(le_bytes(val as nat, 8))) == val,
{
    vstd::arithmetic::power2::lemma2_to64();
    lemma_le_bytes_len(val as nat, 8);
    lemma_le_round_trip(val as nat, 8);
}

/// A stored number is read back.
pub proof fn lemma_number_round_trip(val: Single)
    ensures
        number(Some(le_bytes(val.bits as nat, 4))) == val,
{
    vstd::arithmetic::power2::lemma2_to64();
    lemma_le_bytes_len(val.bits as nat, 4);
    lemma_le_round_trip(val.bits as nat, 4);
}

/// A stored vector is read back.
pub proof fn lemma_vector_round_trip(v: (Seq<usize>, Seq<usize>))
    requires
        v.0.len() <= u64::MAX,
        v.1.len() <= u64::MAX,
    ensures
        vector(Some(vector_record(v))) == Some(v),
{
    vstd::arithmetic::power2::lemma2_to64();
    let pos = numbers(v.0);
    let neg = numbers(v.1);
    lemma_list_round_trip(pos, 8, list_record(neg, 8));
    assert(list_record(neg, 8) + Seq::<u8>::empty() =~= list_record(neg, 8));
    lemma_list_round_trip(neg, 8, Seq::empty());
    assert(dimensions(pos) =~= v.0);
    assert(dimensions(neg) =~= v.1);
}

/// A stored drift history is read back.
pub proof fn lemma_history_round_trip(h: Seq<Single>)
    requires
        h.len() <= usize::MAX,
    ensures
        history(Some(drift_record(h))) == h,
{
    vstd::arithmetic::power2::lemma2_to64();
    let patterns = Seq::new(h.len(), |i: int| h[i].bits);
    let items = Seq::new(patterns.len(), |i: int| patterns[i] as nat);
    assert(list_record(items, 4) + Seq::<u8>::empty() =~= list_record(items, 4));
    lemma_list_round_trip(items, 4, Seq::empty());
    assert(history(Some(drift_record(h))) =~= h);
}

/// Digit `i` of a stored integer counts for 256 to the power `i`.
pub proof fn lemma_le_digit(x: nat, width: nat, i: int)
    requires
        0 <= i < width,
    ensures
        le_bytes(x, width).len() == width,
        le_bytes(x, width)[i] == (x / pow2((8 * i) as nat)) % 256,
    decreases width,
{
    vstd::arithmetic::power2::lemma2_to64();
    lemma_le_bytes_len(x, width);
    lemma_le_bytes_len(x / 256, (width - 1) as nat);
    if i > 0 {
        lemma_le_digit(x / 256, (width - 1) as nat, i - 1);
        let p = pow2((8 * (i - 1)) as nat);
        lemma_pow2_adds(8, (8 * (i - 1)) as nat);
        vstd::arithmetic::power2::lemma_pow2_pos((8 * (i - 1)) as nat);
        vstd::arithmetic::div_mod::lemma_div_denominator(x as int, 256, p as int);
        assert(8 + (8 * (i - 1)) as nat == (8 * i) as nat);
        assert(le_bytes(x, width)[i] == le_bytes(x / 256, (width - 1) as nat)[i - 1]);
    } else {
        assert(x / 1 == x);
    }
}

/// What does not have the size of a counter or a number counts as zero, and without a
/// record there is no vector and no history.
pub proof fn lemma_unreadable(bytes: Seq<u8>)
    ensures
        counter(None) == 0 && number(None).bits == 0,
        vector(None) is None && history(None).len() == 0,
        bytes.len() != 8 ==> counter(Some(bytes)) == 0,
        bytes.len() != 4 ==> number(Some(bytes)).bits == 0,
        bytes.len() < 16 ==> vector(Some(bytes)) is None,
        bytes.len() < 8 ==> history(Some(bytes)).len() == 0,
{
}

}
