//! Sparse ternary hypervectors.
//!
//! Encoding, binding, bundling and similarity are those of `embeddenator_vsa`.

use crate::single::{
    lemma_one_narrowed, lemma_unit_narrowed, lemma_zero_narrowed, narrowed, Single, DOUBLE_ONE, ONE,
};
use vstd::prelude::*;

verus! {

/// Number of dimensions of a hypervector.
pub const DIMENSIONS: usize = 10_000;

/// A ternary vector: the dimensions that hold `+1` and those that hold `-1`.
#[derive(Debug)]
pub struct SparseVec {
    pub pos: Vec<usize>,
    pub neg: Vec<usize>,
}

impl View for SparseVec {
    type V = (Seq<usize>, Seq<usize>);

    open spec fn view(&self) -> (Seq<usize>, Seq<usize>) {
        (self.pos@, self.neg@)
    }
}

/// An optional vector by its view.
pub open spec fn optional(v: Option<SparseVec>) -> Option<(Seq<usize>, Seq<usize>)> {
    match v {
        Some(v) => Some(v@),
        None => None,
    }
}

pub open spec fn ascending(s: Seq<usize>) -> bool {
    &&& forall|i: int, j: int| 0 <= i < j < s.len() ==> s[i] < s[j]
    &&& forall|i: int| 0 <= i < s.len() ==> s[i] < DIMENSIONS
}

/// Both lists ascend within the dimensions and no dimension is in both.
pub open spec fn well_formed(v: (Seq<usize>, Seq<usize>)) -> bool {
    &&& ascending(v.0)
    &&& ascending(v.1)
    &&& forall|d: usize| v.0.contains(d) ==> !v.1.contains(d)
}

/// What a vector holds in dimension `d`.
pub open spec fn entry(v: (Seq<usize>, Seq<usize>), d: usize) -> int {
    if v.0.contains(d) {
        1
    } else if v.1.contains(d) {
        -1
    } else {
        0
    }
}

/// No dimension at all.
pub open spec fn empty(v: (Seq<usize>, Seq<usize>)) -> bool {
    v.0.len() == 0 && v.1.len() == 0
}

/// No dimension that both vectors hold an entry in.
pub open spec fn orthogonal(
    a: (Seq<usize>, Seq<usize>),
    b: (Seq<usize>, Seq<usize>),
) -> bool {
    forall|d: usize| #[trigger] entry(a, d) == 0 || entry(b, d) == 0
}

/// Superposition of two entries: opposite signs cancel, otherwise a sign is kept.
pub open spec fn superposed(a: int, b: int) -> int {
    if a == 0 || a == b {
        b
    } else if b == 0 {
        a
    } else {
        0
    }
}

/// Longest byte string that is encoded in one block.
pub const BLOCK: usize = 256;

/// Whether a byte with or without its high bit points at dimension `d`: the low
/// seven bits count from the byte's own position.
pub open spec fn points_at(block: Seq<u8>, high: bool, d: usize) -> bool {
    exists|i: int|
        0 <= i < block.len() && (block[i] >= 128) == high && i + (#[trigger] block[i]) % 128 == d
}

/// The entry of a block in dimension `d`: positive for bytes without their high
/// bit, negative for bytes with it, none where both kinds point.
pub open spec fn block_entry(block: Seq<u8>, d: usize) -> int {
    (if points_at(block, false, d) {
        1int
    } else {
        0
    }) - (if points_at(block, true, d) {
        1int
    } else {
        0
    })
}

/// What `embeddenator_vsa` encodes a byte string to, under its default
/// reversible configuration and without a path.
pub uninterp spec fn encoded(data: Seq<u8>) -> (Seq<usize>, Seq<usize>);

/// What `embeddenator_vsa` binds two vectors to.
pub uninterp spec fn bound(
    a: (Seq<usize>, Seq<usize>),
    b: (Seq<usize>, Seq<usize>),
) -> (Seq<usize>, Seq<usize>);

/// What `embeddenator_vsa` bundles two vectors to.
pub uninterp spec fn bundled(
    a: (Seq<usize>, Seq<usize>),
    b: (Seq<usize>, Seq<usize>),
) -> (Seq<usize>, Seq<usize>);

/// Bit pattern of the double-precision cosine that `embeddenator_vsa` computes.
pub uninterp spec fn cosine_bits(
    a: (Seq<usize>, Seq<usize>),
    b: (Seq<usize>, Seq<usize>),
) -> u64;

/// Similarity of two vectors, in single precision.
pub open spec fn similarity_of(
    a: (Seq<usize>, Seq<usize>),
    b: (Seq<usize>, Seq<usize>),
) -> Single {
    narrowed(cosine_bits(a, b))
}

impl Clone for SparseVec {
    fn clone(&self) -> (r: SparseVec)
        ensures
            r@ == self@,
    {
        SparseVec { pos: self.pos.clone(), neg: self.neg.clone() }
    }
}

impl SparseVec {
    /// Calls `embeddenator_vsa::SparseVec::encode_data` with the default
    /// `ReversibleVSAConfig` and no path.  Trusted: the result depends on the
    /// bytes alone and is well formed, and up to `BLOCK` bytes make one block,
    /// whose bytes set the entries that they point at.  Nothing is said of how the
    /// blocks of a longer string are shifted and bundled.
    #[verifier::external_body]
    pub(crate) fn encode_data(data: &[u8]) -> (r: SparseVec)
        ensures
            r@ == encoded(data@),
            well_formed(r@),
            data@.len() <= BLOCK ==> forall|d: usize| #[trigger]
                entry(r@, d) == block_entry(data@, d),
    {
        let config = embeddenator_vsa::ReversibleVSAConfig::default();
        let v = embeddenator_vsa::SparseVec::encode_data(data, &config, None);
        SparseVec { pos: v.pos, neg: v.neg }
    }

    /// Calls `embeddenator_vsa::SparseVec::bind`.  Trusted: the result depends on
    /// the two vectors alone, and well-formed vectors are multiplied entry by entry.
    #[verifier::external_body]
    pub(crate) fn bind(&self, other: &SparseVec) -> (r: SparseVec)
        ensures
            r@ == bound(self@, other@),
            well_formed(self@) && well_formed(other@) ==> well_formed(r@) && forall|d: usize|
                entry(r@, d) == #[trigger] entry(self@, d) * entry(other@, d),
    {
        let a = embeddenator_vsa::SparseVec { pos: self.pos.clone(), neg: self.neg.clone() };
        let b = embeddenator_vsa::SparseVec { pos: other.pos.clone(), neg: other.neg.clone() };
        let v = a.bind(&b);
        SparseVec { pos: v.pos, neg: v.neg }
    }

    /// Calls `embeddenator_vsa::SparseVec::bundle`.  Trusted: the result depends
    /// on the two vectors alone, and well-formed vectors are superposed entry by
    /// entry.
    #[verifier::external_body]
    pub(crate) fn bundle(&self, other: &SparseVec) -> (r: SparseVec)
        ensures
            r@ == bundled(self@, other@),
            well_formed(self@) && well_formed(other@) ==> well_formed(r@) && forall|d: usize|
                entry(r@, d) == superposed(#[trigger] entry(self@, d), entry(other@, d)),
    {
        let a = embeddenator_vsa::SparseVec { pos: self.pos.clone(), neg: self.neg.clone() };
        let b = embeddenator_vsa::SparseVec { pos: other.pos.clone(), neg: other.neg.clone() };
        let v = a.bundle(&b);
        SparseVec { pos: v.pos, neg: v.neg }
    }

    /// Calls `embeddenator_vsa::SparseVec::cosine` and takes the bit pattern of
    /// what it returns.  Trusted: the result depends on the two vectors alone and
    /// not on which comes first; it is zero for an empty vector and for well-formed
    /// vectors that share no dimension.  It divides the number of equal signs less that
    /// of opposite ones by the root of the product of the two numbers of entries, so for
    /// well-formed vectors it lies between minus one and one, and for one of them with
    /// itself it is one, but for the rounding of two square roots, a product and a
    /// quotient, which stays within eight bit patterns of one.
    #[verifier::external_body]
    fn cosine(&self, other: &SparseVec) -> (bits: u64)
        ensures
            bits == cosine_bits(self@, other@),
            bits == cosine_bits(other@, self@),
            empty(self@) || empty(other@) ==> bits == 0,
            well_formed(self@) && well_formed(other@) && orthogonal(self@, other@) ==> bits == 0,
            well_formed(self@) && well_formed(other@) ==> bits % 0x8000_0000_0000_0000
                <= DOUBLE_ONE + 8,
            well_formed(self@) && self@ == other@ && !empty(self@) ==> DOUBLE_ONE - 8 <= bits
                <= DOUBLE_ONE + 8,
    {
        let a = embeddenator_vsa::SparseVec { pos: self.pos.clone(), neg: self.neg.clone() };
        let b = embeddenator_vsa::SparseVec { pos: other.pos.clone(), neg: other.neg.clone() };
        a.cosine(&b).to_bits()
    }

    /// Cosine similarity in single precision: the same from either side, between minus
    /// one and one, zero for vectors that share no dimension, and one for a vector with
    /// itself.
    pub fn similarity(&self, other: &SparseVec) -> (r: Single)
        ensures
            r == similarity_of(self@, other@),
            r == similarity_of(other@, self@),
            empty(self@) || empty(other@) ==> r.bits == 0,
            well_formed(self@) && well_formed(other@) && orthogonal(self@, other@) ==> r.bits == 0,
            well_formed(self@) && well_formed(other@) ==> r.magnitude() <= ONE,
            well_formed(self@) && self@ == other@ && !empty(self@) ==> r.bits == ONE,
    {
        let bits = self.cosine(other);
        proof {
            if bits == 0 {
                lemma_zero_narrowed();
            }
            if bits % 0x8000_0000_0000_0000 <= DOUBLE_ONE + 8 {
                lemma_unit_narrowed(bits);
            }
            if DOUBLE_ONE - 8 <= bits <= DOUBLE_ONE + 8 {
                lemma_one_narrowed(bits);
            }
        }
        Single::from_double(bits)
    }
}

proof fn lemma_ascending_determined(a: Seq<usize>, b: Seq<usize>)
    requires
        ascending(a),
        ascending(b),
        forall|d: usize| a.contains(d) <==> b.contains(d),
    ensures
        a == b,
    decreases a.len(),
{
    if a.len() == 0 {
        if b.len() > 0 {
            assert(b.contains(b[0]));
        }
        assert(a =~= b);
    } else {
        assert(a.contains(a.last()));
        let k = choose|k: int| 0 <= k < b.len() && b[k] == a.last();
        assert(b.contains(b.last()));
        let h = choose|h: int| 0 <= h < a.len() && a[h] == b.last();
        assert(a.last() == b.last());
        let x = a.drop_last();
        let y = b.drop_last();
        assert forall|d: usize| x.contains(d) <==> y.contains(d) by {
            if x.contains(d) {
                let i = choose|i: int| 0 <= i < x.len() && x[i] == d;
                assert(a[i] == d);
                assert(a.contains(d));
                let j = choose|j: int| 0 <= j < b.len() && b[j] == d;
                assert(y[j] == d);
            }
            if y.contains(d) {
                let i = choose|i: int| 0 <= i < y.len() && y[i] == d;
                assert(b[i] == d);
                assert(b.contains(d));
                let j = choose|j: int| 0 <= j < a.len() && a[j] == d;
                assert(x[j] == d);
            }
        }
        lemma_ascending_determined(x, y);
        assert(a =~= x.push(a.last()));
        assert(b =~= y.push(b.last()));
    }
}

/// A well-formed vector is determined by its entries.
pub proof fn lemma_entries_determine(
    a: (Seq<usize>, Seq<usize>),
    b: (Seq<usize>, Seq<usize>),
)
    requires
        well_formed(a),
        well_formed(b),
        forall|d: usize| entry(a, d) == entry(b, d),
    ensures
        a == b,
{
    assert forall|d: usize| (a.0.contains(d) <==> b.0.contains(d)) && (a.1.contains(d)
        <==> b.1.contains(d)) by {
        assert(entry(a, d) == entry(b, d));
    }
    lemma_ascending_determined(a.0, b.0);
    lemma_ascending_determined(a.1, b.1);
}

}
