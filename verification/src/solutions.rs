//! The ranked list of hypotheses that a classification returns.

use crate::single::{difference, less, Single, ONE};
use crate::stats::unit_clamped;
use crate::text::prefixed;
use vstd::prelude::*;
use vstd::string::*;

verus! {

/// Most hypotheses in a classification.
pub const MAX_SOLUTIONS: usize = 5;

/// A hypothesis about a message.
#[derive(Debug)]
pub struct Solution {
    pub label: String,
    pub confidence: Single,
    pub source: String,
}

/// A hypothesis with its texts as sequences.
pub struct SolutionView {
    pub label: Seq<char>,
    pub confidence: Single,
    pub source: Seq<char>,
}

impl View for Solution {
    type V = SolutionView;

    open spec fn view(&self) -> SolutionView {
        SolutionView {
            label: self.label@,
            confidence: self.confidence,
            source: self.source@,
        }
    }
}

impl Clone for Solution {
    fn clone(&self) -> (r: Solution)
        ensures
            r@ == self@,
    {
        Solution {
            label: self.label.clone(),
            confidence: self.confidence,
            source: self.source.clone(),
        }
    }
}

/// A list of hypotheses by their views.
pub open spec fn solutions_view(s: Seq<Solution>) -> Seq<SolutionView> {
    Seq::new(s.len(), |i: int| s[i]@)
}

/// The outcome of comparing one field: name, similarity, whether anomalous.
pub type FieldResult = (String, Single, bool);

pub open spec fn field_results_view(s: Seq<FieldResult>) -> Seq<(Seq<char>, Single, bool)> {
    Seq::new(s.len(), |i: int| (s[i].0@, s[i].1, s[i].2))
}

/// One less the given number, clamped to the range from zero to one.
pub open spec fn complement(x: Single) -> Single {
    unit_clamped(difference(Single { bits: ONE }, x))
}

pub open spec fn phase1(label: Seq<char>, confidence: Single) -> SolutionView {
    SolutionView { label, confidence, source: "phase1"@ }
}

/// One hypothesis for each anomalous field, in order.
pub open spec fn spikes(results: Seq<(Seq<char>, Single, bool)>) -> Seq<SolutionView>
    decreases results.len(),
{
    if results.len() == 0 {
        Seq::empty()
    } else {
        let before = spikes(results.drop_last());
        let last = results.last();
        if last.2 {
            before.push(phase1("field_spike:"@ + last.0, complement(last.1)))
        } else {
            before
        }
    }
}

/// All hypotheses before ranking.
pub open spec fn candidates(
    is_msg_anomaly: bool,
    msg_confidence: Single,
    results: Seq<(Seq<char>, Single, bool)>,
) -> Seq<SolutionView> {
    let fields = spikes(results);
    let all = if is_msg_anomaly {
        fields.push(phase1("message_level_anomaly"@, msg_confidence))
    } else {
        fields
    };
    all.push(phase1("normal"@, complement(msg_confidence)))
}

/// `x` placed behind everything that is not less confident.
pub open spec fn placed(s: Seq<SolutionView>, x: SolutionView) -> Seq<SolutionView>
    decreases s.len(),
{
    if s.len() > 0 && less(s.last().confidence, x.confidence) {
        placed(s.drop_last(), x).push(s.last())
    } else {
        s.push(x)
    }
}

/// The hypotheses by falling confidence; equally confident ones keep their order.
pub open spec fn ranked(s: Seq<SolutionView>) -> Seq<SolutionView>
    decreases s.len(),
{
    if s.len() == 0 {
        s
    } else {
        placed(ranked(s.drop_last()), s.last())
    }
}

/// The most confident hypotheses, at most `MAX_SOLUTIONS` of them.
pub open spec fn best(s: Seq<SolutionView>) -> Seq<SolutionView> {
    if s.len() > MAX_SOLUTIONS {
        ranked(s).take(MAX_SOLUTIONS as int)
    } else {
        ranked(s)
    }
}

proof fn lemma_placed_at(s: Seq<SolutionView>, x: SolutionView, p: int)
    requires
        0 <= p <= s.len(),
        p > 0 ==> !less(s[p - 1].confidence, x.confidence),
        forall|i: int| p <= i < s.len() ==> less((#[trigger] s[i]).confidence, x.confidence),
    ensures
        placed(s, x) == s.insert(p, x),
    decreases s.len(),
{
    if p < s.len() {
        let init = s.drop_last();
        assert(less(s[s.len() - 1].confidence, x.confidence));
        assert forall|i: int| p <= i < init.len() implies less(
            (#[trigger] init[i]).confidence,
            x.confidence,
        ) by {
            assert(init[i] == s[i]);
        }
        lemma_placed_at(init, x, p);
        assert(init.insert(p, x).push(s.last()) =~= s.insert(p, x));
    } else {
        if s.len() > 0 {
            assert(s.last() == s[p - 1]);
        }
        assert(s.push(x) =~= s.insert(p, x));
    }
}

pub proof fn lemma_placed_len(s: Seq<SolutionView>, x: SolutionView)
    ensures
        placed(s, x).len() == s.len() + 1,
    decreases s.len(),
{
    if s.len() > 0 {
        lemma_placed_len(s.drop_last(), x);
    }
}

pub proof fn lemma_ranked_len(s: Seq<SolutionView>)
    ensures
        ranked(s).len() == s.len(),
    decreases s.len(),
{
    if s.len() > 0 {
        lemma_ranked_len(s.drop_last());
        lemma_placed_len(ranked(s.drop_last()), s.last());
    }
}

/// Sorts by falling confidence and keeps the first `MAX_SOLUTIONS`.
pub(crate) fn rank(solutions: Vec<Solution>) -> (r: Vec<Solution>)
    ensures
        solutions_view(r@) == best(solutions_view(solutions@)),
{
    let ghost all = solutions_view(solutions@);
    let mut r: Vec<Solution> = Vec::new();
    let mut i: usize = 0;
    assert(solutions_view(r@) =~= ranked(all.take(0)));
    while i < solutions.len()
        invariant
            i <= solutions@.len(),
            all == solutions_view(solutions@),
            solutions_view(r@) == ranked(all.take(i as int)),
            r@.len() == i,
        decreases solutions.len() - i,
    {
        let x = solutions[i].clone();
        let ghost so_far = solutions_view(r@);
        let mut p: usize = r.len();
        while p > 0 && r[p - 1].confidence.is_less(x.confidence)
            invariant
                p <= r@.len(),
                so_far == solutions_view(r@),
                forall|j: int|
                    p <= j < so_far.len() ==> less((#[trigger] so_far[j]).confidence, x.confidence),
            decreases p,
        {
            p = p - 1;
        }
        proof {
            if p > 0 {
                assert(so_far[p - 1] == r@[p - 1]@);
            }
            lemma_placed_at(so_far, x@, p as int);
            assert(all.take(i + 1).drop_last() =~= all.take(i as int));
        }
        r.insert(p, x);
        assert(solutions_view(r@) =~= so_far.insert(p as int, x@));
        i = i + 1;
    }
    assert(all.take(i as int) =~= all);
    if r.len() > MAX_SOLUTIONS {
        let ghost full = solutions_view(r@);
        r.truncate(MAX_SOLUTIONS);
        assert(solutions_view(r@) =~= full.take(MAX_SOLUTIONS as int));
    }
    r
}

/// Builds the ranked hypotheses from the message signal and the field results.
pub fn build_solutions(
    is_msg_anomaly: bool,
    msg_confidence: Single,
    field_results: &[FieldResult],
) -> (r: Vec<Solution>)
    ensures
        solutions_view(r@) == best(
            candidates(is_msg_anomaly, msg_confidence, field_results_view(field_results@)),
        ),
{
    let one = Single { bits: ONE };
    let zero = Single { bits: 0 };
    let ghost results = field_results_view(field_results@);
    let mut solutions: Vec<Solution> = Vec::new();
    let mut i: usize = 0;
    assert(solutions_view(solutions@) =~= spikes(results.take(0)));
    while i < field_results.len()
        invariant
            i <= field_results@.len(),
            one.bits == ONE,
            zero.bits == 0,
            results == field_results_view(field_results@),
            solutions_view(solutions@) == spikes(results.take(i as int)),
        decreases field_results.len() - i,
    {
        let (field_name, score, is_anomaly) = &field_results[i];
        let ghost before = solutions_view(solutions@);
        assert(results.take(i + 1).drop_last() =~= results.take(i as int));
        if *is_anomaly {
            let spike = Solution {
                label: prefixed("field_spike:", field_name.as_str()),
                confidence: one.minus(*score).clamp(zero, one),
                source: "phase1".to_owned(),
            };
            solutions.push(spike);
            assert(solutions_view(solutions@) =~= before.push(spike@));
        }
        i = i + 1;
    }
    assert(results.take(i as int) =~= results);
    let ghost fields = solutions_view(solutions@);
    if is_msg_anomaly {
        let message = Solution {
            label: "message_level_anomaly".to_owned(),
            confidence: msg_confidence,
            source: "phase1".to_owned(),
        };
        solutions.push(message);
        assert(solutions_view(solutions@) =~= fields.push(message@));
    }
    let ghost most = solutions_view(solutions@);
    let normal = Solution {
        label: "normal".to_owned(),
        confidence: one.minus(msg_confidence).clamp(zero, one),
        source: "phase1".to_owned(),
    };
    solutions.push(normal);
    assert(solutions_view(solutions@) =~= most.push(normal@));
    rank(solutions)
}

/// No confidence is NaN.
pub open spec fn comparable(s: Seq<SolutionView>) -> bool {
    forall|i: int| 0 <= i < s.len() ==> !(#[trigger] s[i]).confidence.nan()
}

/// No hypothesis is more confident than one before it.
pub open spec fn descending(s: Seq<SolutionView>) -> bool {
    forall|i: int, j: int|
        0 <= i < j < s.len() ==> !less(#[trigger] s[i].confidence, #[trigger] s[j].confidence)
}

proof fn lemma_placed_permutes(s: Seq<SolutionView>, x: SolutionView)
    ensures
        placed(s, x).to_multiset() == s.to_multiset().insert(x),
    decreases s.len(),
{
    broadcast use vstd::seq_lib::group_to_multiset_ensures;

    if s.len() > 0 && less(s.last().confidence, x.confidence) {
        let init = s.drop_last();
        lemma_placed_permutes(init, x);
        assert(s =~= init.push(s.last()));
        assert(init.to_multiset().insert(x).insert(s.last()) =~= init.to_multiset().insert(
            s.last(),
        ).insert(x));
    }
}

/// Ranking loses no hypothesis and makes none up.
pub proof fn lemma_ranked_permutes(s: Seq<SolutionView>)
    ensures
        ranked(s).to_multiset() == s.to_multiset(),
    decreases s.len(),
{
    broadcast use vstd::seq_lib::group_to_multiset_ensures;

    if s.len() > 0 {
        lemma_ranked_permutes(s.drop_last());
        lemma_placed_permutes(ranked(s.drop_last()), s.last());
        assert(s =~= s.drop_last().push(s.last()));
    }
}

proof fn lemma_placed_descends(s: Seq<SolutionView>, x: SolutionView)
    requires
        comparable(s),
        descending(s),
        !x.confidence.nan(),
    ensures
        comparable(placed(s, x)),
        descending(placed(s, x)),
        placed(s, x).len() == s.len() + 1,
        forall|i: int|
            #![trigger placed(s, x)[i]]
            0 <= i <= s.len() ==> placed(s, x)[i] == x || exists|j: int|
                0 <= j < s.len() && placed(s, x)[i] == s[j],
    decreases s.len(),
{
    let r = placed(s, x);
    if s.len() > 0 && less(s.last().confidence, x.confidence) {
        let init = s.drop_last();
        lemma_placed_descends(init, x);
        let p = placed(init, x);
        assert(r == p.push(s.last()));
        assert forall|i: int| #![trigger r[i]] 0 <= i <= s.len() implies r[i] == x || exists|j: int|
            0 <= j < s.len() && r[i] == s[j] by {
            if i < p.len() {
                assert(r[i] == p[i]);
                if p[i] != x {
                    let j = choose|j: int| 0 <= j < init.len() && p[i] == init[j];
                    assert(s[j] == r[i]);
                }
            } else {
                assert(r[i] == s[s.len() - 1]);
            }
        }
        assert forall|i: int, j: int| 0 <= i < j < r.len() implies !less(
            #[trigger] r[i].confidence,
            #[trigger] r[j].confidence,
        ) by {
            if j < p.len() {
                assert(r[i] == p[i] && r[j] == p[j]);
            } else {
                assert(r[j] == s.last() && r[i] == p[i]);
                if p[i] != x {
                    let k = choose|k: int| 0 <= k < init.len() && p[i] == init[k];
                    assert(s[k] == p[i]);
                    assert(!less(s[k].confidence, s[s.len() - 1].confidence));
                }
            }
        }
    } else {
        assert forall|i: int, j: int| 0 <= i < j < r.len() implies !less(
            #[trigger] r[i].confidence,
            #[trigger] r[j].confidence,
        ) by {
            if j == s.len() {
                assert(r[i] == s[i]);
                if i < s.len() - 1 {
                    assert(!less(s[i].confidence, s[s.len() - 1].confidence));
                }
            } else {
                assert(r[i] == s[i] && r[j] == s[j]);
            }
        }
        assert forall|i: int| #![trigger r[i]] 0 <= i <= s.len() implies r[i] == x || exists|j: int|
            0 <= j < s.len() && r[i] == s[j] by {
            if i < s.len() {
                assert(r[i] == s[i]);
            }
        }
    }
}

/// Ranked hypotheses never rise in confidence.
pub proof fn lemma_ranked_descends(s: Seq<SolutionView>)
    requires
        comparable(s),
    ensures
        comparable(ranked(s)),
        descending(ranked(s)),
    decreases s.len(),
{
    if s.len() > 0 {
        lemma_ranked_descends(s.drop_last());
        lemma_placed_descends(ranked(s.drop_last()), s.last());
    }
}

proof fn lemma_placed_keeps_order(s: Seq<SolutionView>, x: SolutionView, order: int)
    ensures
        ({
            let equal = |y: SolutionView| y.confidence.order() == order;
            placed(s, x).filter(equal) == s.push(x).filter(equal)
        }),
    decreases s.len(),
{
    broadcast use Seq::lemma_filter_push;

    let equal = |y: SolutionView| y.confidence.order() == order;
    if s.len() > 0 && less(s.last().confidence, x.confidence) {
        let init = s.drop_last();
        lemma_placed_keeps_order(init, x, order);
        assert(s =~= init.push(s.last()));
    }
}

/// Equally confident hypotheses keep their order.
pub proof fn lemma_ranked_keeps_order(s: Seq<SolutionView>, order: int)
    ensures
        ({
            let equal = |y: SolutionView| y.confidence.order() == order;
            ranked(s).filter(equal) == s.filter(equal)
        }),
    decreases s.len(),
{
    broadcast use Seq::lemma_filter_push;

    let equal = |y: SolutionView| y.confidence.order() == order;
    if s.len() > 0 {
        lemma_ranked_keeps_order(s.drop_last(), order);
        lemma_placed_keeps_order(ranked(s.drop_last()), s.last(), order);
        assert(s =~= s.drop_last().push(s.last()));
    }
}

/// The best hypotheses are at most `MAX_SOLUTIONS` of the given ones, in falling
/// order, and none that is left out is more confident than one that is kept.
pub proof fn lemma_best(s: Seq<SolutionView>)
    requires
        comparable(s),
    ensures
        best(s).len() == if s.len() < MAX_SOLUTIONS {
            s.len()
        } else {
            MAX_SOLUTIONS as nat
        },
        best(s) == ranked(s).take(best(s).len() as int),
        descending(best(s)),
        forall|i: int, j: int|
            0 <= i < best(s).len() <= j < s.len() ==> !less(
                #[trigger] best(s)[i].confidence,
                #[trigger] ranked(s)[j].confidence,
            ),
{
    lemma_ranked_len(s);
    lemma_ranked_descends(s);
    let r = ranked(s);
    let b = best(s);
    assert(b =~= r.take(b.len() as int));
    assert forall|i: int, j: int| 0 <= i < j < b.len() implies !less(
        #[trigger] b[i].confidence,
        #[trigger] b[j].confidence,
    ) by {
        assert(b[i] == r[i] && b[j] == r[j]);
    }
    assert forall|i: int, j: int| 0 <= i < b.len() <= j < s.len() implies !less(
        #[trigger] b[i].confidence,
        #[trigger] r[j].confidence,
    ) by {
        assert(b[i] == r[i]);
    }
}

}
