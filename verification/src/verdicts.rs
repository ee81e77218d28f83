//! What verdicts, hypotheses and reviews come to, in terms of what is measured.

use crate::accuracy::{
    distance, lemma_combined_value, lemma_quotient_whole, lemma_rounding_error, lemma_sum_error,
    lemma_whole_exact,
};
use crate::bounds::{
    in_unit, lemma_anomaly_count_bound, lemma_drift_result_is_warm, lemma_first_phase,
    lemma_fraction_range, lemma_one, lemma_unit_difference,
};
use crate::classify::{
    anomalous_names, anomaly_count, anomaly_fraction, conclusion, count_key, ema_key, field_result,
    incremented, score_against, signal_of, skipped_result, warm_up_result, warming, Signal,
};
use crate::codec::{counter, vector};
use crate::effects::{
    field_outcomes, message_outcome, message_scores, temporal_outcome, with_fields,
    with_statistics, Store,
};
use crate::encode::distinct_names;
use crate::rounding::{lemma_rounded_exact, lemma_rounded_monotone, rounded};
use crate::single::{
    greater_of, lemma_decoded, lemma_less_is_value_order, lemma_magnitude_order, lemma_opposite,
    less, opposite, quotient, whole, Single, ONE,
};
use crate::solutions::{
    best, candidates, comparable, complement, descending, lemma_best, lemma_ranked_descends,
    lemma_ranked_keeps_order, lemma_ranked_len, lemma_ranked_permutes, ranked, spikes, SolutionView,
};
use crate::stats::{
    combined, decay_exponent, drift_class, DRIFT_WARN, EMERGING_CONFIDENCE, FIELD_THRESHOLD, HALF,
    HITL_THRESHOLD, MIN_SAMPLES, REGIME_CHANGE_CONFIDENCE, SLOPE_WARN, STABLE_CONFIDENCE,
    TREND_SHIFT_CONFIDENCE, Z_THRESHOLD,
};
use crate::streams::{lemma_field_outcomes, lemma_keys};
use crate::temporal::{warming_result, TemporalResultView};
use vstd::arithmetic::power2::{lemma_pow2_adds, lemma_pow2_pos, pow2};
use vstd::prelude::*;

verus! {

broadcast use crate::rounding::lemma_rounded_limit;

/// The four classes of drift: drift above its threshold is a change, and it is abrupt
/// only while it rises faster than the threshold of the rate; drift below it is a trend
/// only while it rises that fast.  Signs count: a rate that is zero or negative is never
/// a rise, however steep the fall.
pub proof fn lemma_drift_classes(drift: Single, rate: Single)
    requires
        !drift.nan(),
        !rate.nan(),
    ensures
        ({
            let (label, confidence) = drift_class(drift, rate);
            let high = drift.order() > DRIFT_WARN;
            let rising = rate.order() > SLOPE_WARN;
            &&& label == "regime_change"@ <==> high && rising
            &&& label == "gradual_trend_shift"@ <==> high && !rising
            &&& label == "emerging_trend"@ <==> !high && rising
            &&& label == "temporal_normal"@ <==> !high && !rising
            &&& high && rising ==> confidence.bits == REGIME_CHANGE_CONFIDENCE
            &&& high && !rising ==> confidence.bits == TREND_SHIFT_CONFIDENCE
            &&& !high && rising ==> confidence.bits == EMERGING_CONFIDENCE
            &&& !high && !rising ==> confidence.bits == STABLE_CONFIDENCE
            &&& rate.order() <= 0 ==> label == (if high {
                "gradual_trend_shift"@
            } else {
                "temporal_normal"@
            })
            &&& drift.order() <= 0 ==> label == (if rising {
                "emerging_trend"@
            } else {
                "temporal_normal"@
            })
        }),
{
    lemma_labels_differ();
}

/// A drift or a rate that is no number counts as low.
pub proof fn lemma_drift_without_number(drift: Single, rate: Single)
    ensures
        drift.nan() ==> drift_class(drift, rate) == drift_class(Single { bits: 0 }, rate),
        rate.nan() ==> drift_class(drift, rate) == drift_class(drift, Single { bits: 0 }),
{
}

/// Two drifts on the same side of the threshold with two rates on the same side of
/// theirs are of the same class, and no others are.
pub proof fn lemma_same_drift_class(a: Single, b: Single, x: Single, y: Single)
    requires
        !a.nan() && !b.nan() && !x.nan() && !y.nan(),
    ensures
        drift_class(a, x).0 == drift_class(b, y).0 <==> ((a.order() > DRIFT_WARN) == (b.order()
            > DRIFT_WARN) && (x.order() > SLOPE_WARN) == (y.order() > SLOPE_WARN)),
{
    lemma_labels_differ();
}

pub(crate) proof fn lemma_labels_differ()
    ensures
        "regime_change"@ != "gradual_trend_shift"@,
        "regime_change"@ != "emerging_trend"@,
        "regime_change"@ != "temporal_normal"@,
        "gradual_trend_shift"@ != "emerging_trend"@,
        "gradual_trend_shift"@ != "temporal_normal"@,
        "emerging_trend"@ != "temporal_normal"@,
        "ANOMALY"@ != "NORMAL"@,
        "ANOMALY"@ != "WARMING_UP"@,
        "NORMAL"@ != "WARMING_UP"@,
{
    reveal_strlit("regime_change");
    reveal_strlit("gradual_trend_shift");
    reveal_strlit("emerging_trend");
    reveal_strlit("temporal_normal");
    reveal_strlit("ANOMALY");
    reveal_strlit("NORMAL");
    reveal_strlit("WARMING_UP");
    assert("regime_change"@.len() == 13);
    assert("gradual_trend_shift"@.len() == 19);
    assert("emerging_trend"@.len() == 14);
    assert("temporal_normal"@.len() == 15);
    assert("ANOMALY"@.len() == 7);
    assert("NORMAL"@.len() == 6);
    assert("WARMING_UP"@.len() == 10);
}

/// A message is anomalous exactly if its Z-score exceeds 2.5.
pub proof fn lemma_message_anomaly(z: Single, decay: Single)
    ensures
        z.finite() ==> (signal_of(z, decay).is_anomaly <==> 2 * z.value() > 5 * pow2(149)),
        z.infinite() ==> signal_of(z, decay).is_anomaly == !z.negative(),
        z.nan() ==> !signal_of(z, decay).is_anomaly,
{
    let threshold = Single { bits: Z_THRESHOLD };
    reveal(signal_of);
    vstd::arithmetic::power2::lemma2_to64();
    lemma_pow2_adds(21, 128);
    lemma_pow2_adds(1, 127);
    assert(threshold.place() == 127);
    assert(threshold.units() == 0xa0_0000 * pow2(127));
    if z.finite() {
        lemma_less_is_value_order(threshold, z);
    }
}

/// The confidence of a message is one less the exponential, up to rounding.
pub proof fn lemma_message_confidence_value(z: Single, decay: Single)
    requires
        in_unit(decay),
    ensures
        ({
            let c = signal_of(z, decay).confidence;
            &&& in_unit(c)
            &&& distance(c.value(), pow2(149) - decay.value()) <= pow2(125)
        }),
{
    let one = Single { bits: ONE };
    let y = opposite(decay);
    reveal(signal_of);
    lemma_one();
    lemma_unit_difference(decay);
    lemma_magnitude_order(decay, one);
    lemma_decoded(decay);
    lemma_opposite(decay);
    vstd::arithmetic::power2::lemma2_to64();
    lemma_pow2_adds(24, 125);
    lemma_pow2_pos(125);
    lemma_sum_error(one, y);
}

/// A field is anomalous exactly if its similarity is below 0.70.
pub proof fn lemma_field_anomaly(name: Seq<char>, score: Single)
    ensures
        field_result(name, score).0 == name,
        field_result(name, score).1 == score,
        !score.nan() ==> (field_result(name, score).2 <==> score.order() < FIELD_THRESHOLD),
        score.nan() ==> !field_result(name, score).2,
{
}

/// The anomalous ones of field results.
pub open spec fn anomalous(results: Seq<(Seq<char>, Single, bool)>) -> Seq<
    (Seq<char>, Single, bool),
> {
    results.filter(|r: (Seq<char>, Single, bool)| r.2)
}

/// The anomalous fields are counted and named, each of them once and in order.
pub proof fn lemma_anomalous_fields(results: Seq<(Seq<char>, Single, bool)>)
    ensures
        anomaly_count(results) == anomalous(results).len(),
        anomalous_names(results) == anomalous(results).map_values(
            |r: (Seq<char>, Single, bool)| r.0,
        ),
        spikes(results) == anomalous(results).map_values(
            |r: (Seq<char>, Single, bool)|
                SolutionView {
                    label: "field_spike:"@ + r.0,
                    confidence: complement(r.1),
                    source: "phase1"@,
                },
        ),
    decreases results.len(),
{
    reveal(Seq::filter);
    let name = |r: (Seq<char>, Single, bool)| r.0;
    let spike = |r: (Seq<char>, Single, bool)|
        SolutionView {
            label: "field_spike:"@ + r.0,
            confidence: complement(r.1),
            source: "phase1"@,
        };
    if results.len() > 0 {
        let init = results.drop_last();
        let last = results.last();
        lemma_anomalous_fields(init);
        if last.2 {
            assert(anomalous(results) == anomalous(init).push(last));
            assert(anomalous(results).map_values(name) =~= anomalous(init).map_values(name).push(
                last.0,
            ));
            assert(anomalous(results).map_values(spike) =~= anomalous(init).map_values(spike).push(
                spike(last),
            ));
        } else {
            assert(anomalous(results) == anomalous(init));
        }
    } else {
        assert(anomalous(results) =~= Seq::empty());
        assert(anomalous(results).map_values(name) =~= Seq::empty());
        assert(anomalous(results).map_values(spike) =~= Seq::empty());
    }
}

/// A share exceeds one half exactly if twice the part exceeds the whole.
proof fn lemma_majority(c: nat, n: nat)
    requires
        c <= n,
        1 <= n < 0xff_ffff,
    ensures
        less(Single { bits: HALF }, quotient(whole(c), whole(n))) <==> 2 * c > n,
{
    let half = Single { bits: HALF };
    let u = pow2(149);
    let q = pow2(125);
    lemma_pow2_pos(149);
    lemma_whole_exact(c);
    lemma_whole_exact(n);
    lemma_decoded(whole(n));
    vstd::arithmetic::power2::lemma2_to64();
    lemma_pow2_adds(24, 125);
    lemma_pow2_pos(125);
    assert(n * u > 0) by (nonlinear_arith)
        requires n >= 1, u > 0;
    let a = (c * u) * u;
    let b = n * u;
    lemma_rounded_exact(125, 0x80_0000);
    lemma_rounded_exact(125, 0x80_0001);
    assert(rounded(a, b) <= 0x7f80_0000);
    if 2 * c > n {
        // The share is above one half by at least half of a last place.
        lemma_majority_above(c, n, q, u);
    } else {
        assert(a * 1 <= (0x80_0000 * q) * b) by (nonlinear_arith)
            requires
                a == (c * u) * u,
                b == n * u,
                u == 0x100_0000 * q,
                2 * c <= n,
                q > 0,
        ;
        lemma_rounded_monotone(a, b, 0x80_0000 * q, 1);
    }
}

proof fn lemma_majority_above(c: nat, n: nat, q: nat, u: nat)
    requires
        2 * c > n,
        1 <= n < 0xff_ffff,
        q == pow2(125),
        u == 0x100_0000 * q,
        q > 0,
    ensures
        rounded((c * u) * u, n * u) > HALF,
{
    let a = (c * u) * u;
    let b = n * u;
    let p = rounded(a, b);
    assert(b > 0) by (nonlinear_arith)
        requires b == n * u, n >= 1, u > 0;
    lemma_rounded_exact(125, 0x80_0000);
    lemma_pow2_adds(24, 125);
    vstd::arithmetic::power2::lemma2_to64();
    // Were it rounded down to one half, it would be off by more than half a place.
    if p <= HALF {
        assert((0x80_0000 * q) * b <= a * 1) by (nonlinear_arith)
            requires
                a == (c * u) * u,
                b == n * u,
                u == 0x100_0000 * q,
                2 * c > n,
                q > 0,
        ;
        lemma_rounded_monotone(0x80_0000 * q, 1, a, b);
        assert(p == HALF);
        lemma_rounding_error(a, b);
        let half = Single { bits: HALF };
        assert(half.place() == 125);
        assert(half.units() == 0x80_0000 * q);
        assert(0x100_0000 * (a - (0x80_0000 * q) * b) <= a + 0x80_0000 * b);
        lemma_pow2_adds(64, 61);
        lemma_pow2_pos(61);
        lemma_majority_gap(c, n, q);
    }
}

proof fn lemma_majority_gap(c: nat, n: nat, q: nat)
    requires
        2 * c > n,
        1 <= n < 0xff_ffff,
        q > 0x100_0000,
    ensures
        ({
            let u = 0x100_0000 * q;
            let a = (c * u) * u;
            let b = n * u;
            0x100_0000 * (a - (0x80_0000 * q) * b) > a + 0x80_0000 * b
        }),
{
    let u = 0x100_0000 * q;
    let a = (c * u) * u;
    let b = n * u;
    let qq = q * q;
    assert(a == 0x1_0000_0000_0000 * (c * qq)) by (nonlinear_arith)
        requires a == (c * u) * u, u == 0x100_0000 * q, qq == q * q;
    assert((0x80_0000 * q) * b == 0x8000_0000_0000 * (n * qq)) by (nonlinear_arith)
        requires b == n * u, u == 0x100_0000 * q, qq == q * q;
    assert(0x80_0000 * b == 0x8000_0000_0000 * (n * q)) by (nonlinear_arith)
        requires b == n * u, u == 0x100_0000 * q;
    assert(n * q < qq && qq >= 1) by (nonlinear_arith)
        requires n < q, qq == q * q, q > 1;
    let d = 2 * c - n;
    assert(2 * (c * qq) == n * qq + d * qq) by (nonlinear_arith)
        requires 2 * c == n + d;
    assert(0x100_0000 * (d * qq) > n * qq + d * qq + n * q) by (nonlinear_arith)
        requires
            d >= 1,
            n < 0xff_ffff,
            n * q < qq,
            qq >= 1,
    ;
}

/// A result after the warm-up is `ANOMALY` if and only if the message is anomalous or
/// more than half of its fields are, whatever the other signals say; otherwise it is
/// `NORMAL`.  It tells the anomalous fields and the number of the message.
pub proof fn lemma_verdict(
    subject: Seq<char>,
    n: u64,
    signal: Signal,
    results: Seq<(Seq<char>, Single, bool)>,
    t: TemporalResultView,
)
    requires
        results.len() < 0xff_ffff,
    ensures
        ({
            let r = conclusion(subject, n, signal, results, t);
            let most = 2 * anomalous(results).len() > results.len();
            &&& r.classification == "ANOMALY"@ <==> signal.is_anomaly || most
            &&& r.classification == "NORMAL"@ <==> !signal.is_anomaly && !most
            &&& r.anomalous_fields == anomalous(results).map_values(
                |f: (Seq<char>, Single, bool)| f.0,
            )
            &&& r.subject == subject
            &&& r.message_count == n
        }),
{
    let r = conclusion(subject, n, signal, results, t);
    let most = 2 * anomalous(results).len() > results.len();
    lemma_share_exceeds(results);
    assert(r.classification == if signal.is_anomaly || most {
        "ANOMALY"@
    } else {
        "NORMAL"@
    });
    assert(r.anomalous_fields == anomalous(results).map_values(
        |f: (Seq<char>, Single, bool)| f.0,
    )) by {
        lemma_anomalous_fields(results);
    }
    lemma_labels_differ();
}

/// The share of anomalous fields exceeds one half exactly if most fields are anomalous.
proof fn lemma_share_exceeds(results: Seq<(Seq<char>, Single, bool)>)
    requires
        results.len() < 0xff_ffff,
    ensures
        less(Single { bits: HALF }, anomaly_fraction(results)) <==> 2 * anomalous(results).len()
            > results.len(),
{
    lemma_anomalous_fields(results);
    lemma_anomaly_count_bound(results);
    if results.len() > 0 {
        lemma_majority(anomaly_count(results), results.len());
    }
}

/// Whether `kept` are the most confident of `all`, at most five: some order of all of
/// them falls in confidence, keeps equally confident ones in their order, and begins
/// with those that are kept.
pub open spec fn most_confident(kept: Seq<SolutionView>, all: Seq<SolutionView>) -> bool {
    &&& kept.len() == if all.len() < 5 {
        all.len()
    } else {
        5
    }
    &&& exists|rest: Seq<SolutionView>| #[trigger] falls_from(kept + rest, all)
}

/// Whether `sorted` holds what `all` holds, by falling confidence, equally confident
/// ones in their order.
pub open spec fn falls_from(sorted: Seq<SolutionView>, all: Seq<SolutionView>) -> bool {
    &&& sorted.to_multiset() == all.to_multiset()
    &&& descending(sorted)
    &&& forall|o: int| #[trigger] as_confident(sorted, o) == as_confident(all, o)
}

/// The hypotheses at place `o` in the order of confidences.
pub open spec fn as_confident(s: Seq<SolutionView>, o: int) -> Seq<SolutionView> {
    s.filter(|y: SolutionView| y.confidence.order() == o)
}

proof fn lemma_best_kept(s: Seq<SolutionView>)
    requires
        comparable(s),
    ensures
        most_confident(best(s), s),
        comparable(best(s)),
{
    let r = ranked(s);
    let b = best(s);
    let rest = r.skip(b.len() as int);
    lemma_best(s);
    lemma_ranked_len(s);
    lemma_ranked_permutes(s);
    lemma_ranked_descends(s);
    assert(b + rest =~= r);
    assert forall|o: int| #[trigger] as_confident(r, o) == as_confident(s, o) by {
        lemma_ranked_keeps_order(s, o);
    }
    assert(falls_from(b + rest, s));
    assert forall|i: int| 0 <= i < b.len() implies !(#[trigger] b[i]).confidence.nan() by {
        assert(b[i] == r[i]);
    }
}

/// A hypothesis that is left out is no more confident than one that is kept.
pub proof fn lemma_left_out(
    kept: Seq<SolutionView>,
    all: Seq<SolutionView>,
    x: SolutionView,
    y: SolutionView,
)
    requires
        most_confident(kept, all),
        kept.contains(x),
        all.contains(y),
        !kept.contains(y),
    ensures
        !less(x.confidence, y.confidence),
        all.contains(x),
{
    let rest = choose|rest: Seq<SolutionView>| #[trigger] falls_from(kept + rest, all);
    let sorted = kept + rest;
    sorted.to_multiset_ensures();
    all.to_multiset_ensures();
    let i = choose|i: int| 0 <= i < kept.len() && kept[i] == x;
    assert(sorted[i] == x);
    assert(sorted.contains(x));
    assert(sorted.to_multiset().count(x) > 0);
    assert(all.to_multiset().count(y) > 0);
    assert(sorted.contains(y));
    let j = choose|j: int| 0 <= j < sorted.len() && sorted[j] == y;
    assert(j >= kept.len()) by {
        if j < kept.len() {
            assert(kept[j] == y);
        }
    }
    assert(!less(sorted[i].confidence, sorted[j].confidence));
}

/// The hypotheses of the first phase: a spike for each anomalous field, as confident as
/// its similarity is low, the message-level anomaly if there is one, and that all is
/// normal, as confident as the message signal is not.
pub open spec fn hypotheses(signal: Signal, results: Seq<(Seq<char>, Single, bool)>) -> Seq<
    SolutionView,
> {
    let normal = SolutionView {
        label: "normal"@,
        confidence: complement(signal.confidence),
        source: "phase1"@,
    };
    let message = SolutionView {
        label: "message_level_anomaly"@,
        confidence: signal.confidence,
        source: "phase1"@,
    };
    let spikes = anomalous(results).map_values(
        |f: (Seq<char>, Single, bool)|
            SolutionView {
                label: "field_spike:"@ + f.0,
                confidence: complement(f.1),
                source: "phase1"@,
            },
    );
    if signal.is_anomaly {
        spikes + seq![message, normal]
    } else {
        spikes + seq![normal]
    }
}

/// One less a number: exact up to rounding between zero and one, and clamped to that
/// range outside.
pub proof fn lemma_complement_value(x: Single)
    requires
        !x.nan(),
    ensures
        in_unit(complement(x)),
        in_unit(x) ==> distance(complement(x).value(), pow2(149) - x.value()) <= pow2(125),
        x.order() <= 0 ==> complement(x).bits == ONE,
        x.order() >= ONE ==> complement(x).zero(),
{
    let one = Single { bits: ONE };
    let y = opposite(x);
    lemma_one();
    vstd::arithmetic::power2::lemma2_to64();
    lemma_pow2_adds(24, 125);
    lemma_pow2_pos(125);
    if x.finite() {
        lemma_opposite(x);
        lemma_decoded(x);
        lemma_magnitude_order(x, one);
        lemma_magnitude_order(one, x);
        let total = one.value() + y.value();
        if total > 0 {
            if x.order() <= 0 {
                lemma_rounded_monotone(pow2(149), 1, total as nat, 1);
            } else {
                lemma_rounded_monotone(total as nat, 1, pow2(149), 1);
            }
        }
        if in_unit(x) {
            lemma_unit_difference(x);
            lemma_sum_error(one, y);
        }
    }
}

/// No confidence and no anomalous similarity is NaN.
pub open spec fn measured(signal: Signal, results: Seq<(Seq<char>, Single, bool)>) -> bool {
    &&& !signal.confidence.nan()
    &&& forall|i: int| 0 <= i < results.len() ==> !(#[trigger] results[i]).1.nan()
}

proof fn lemma_spikes_comparable(results: Seq<(Seq<char>, Single, bool)>)
    requires
        forall|i: int| 0 <= i < results.len() ==> !(#[trigger] results[i]).1.nan(),
    ensures
        comparable(spikes(results)),
    decreases results.len(),
{
    if results.len() > 0 {
        let init = results.drop_last();
        assert forall|i: int| 0 <= i < init.len() implies !(#[trigger] init[i]).1.nan() by {
            assert(init[i] == results[i]);
        }
        lemma_spikes_comparable(init);
        assert(results.last() == results[results.len() - 1]);
        lemma_complement_value(results.last().1);
    }
}

/// While the temporal layer warms up, the solutions are the most confident hypotheses of
/// the first phase, at most five.
pub proof fn lemma_first_solutions(
    subject: Seq<char>,
    n: u64,
    signal: Signal,
    results: Seq<(Seq<char>, Single, bool)>,
)
    requires
        measured(signal, results),
    ensures
        ({
            let r = conclusion(subject, n, signal, results, warming_result());
            &&& most_confident(r.solutions, hypotheses(signal, results))
            &&& comparable(r.solutions)
        }),
{
    let all = candidates(signal.is_anomaly, signal.confidence, results);
    lemma_drift_result_is_warm(Single { bits: 0 }, Seq::empty());
    lemma_anomalous_fields(results);
    lemma_spikes_comparable(results);
    lemma_complement_value(signal.confidence);
    assert(all =~= hypotheses(signal, results));
    lemma_best_kept(all);
}

/// Once both windows are full, the solutions are the most confident ones, at most five,
/// of those of the first phase together with the temporal one.
pub proof fn lemma_merged_solutions(
    subject: Seq<char>,
    n: u64,
    signal: Signal,
    results: Seq<(Seq<char>, Single, bool)>,
    t: TemporalResultView,
)
    requires
        measured(signal, results),
        t.label != "temporal_warming_up"@,
        !t.confidence.nan(),
    ensures
        ({
            let first = conclusion(subject, n, signal, results, warming_result()).solutions;
            let r = conclusion(subject, n, signal, results, t);
            let extra = SolutionView {
                label: t.label,
                confidence: t.confidence,
                source: "phase2"@,
            };
            &&& most_confident(r.solutions, first.push(extra))
            &&& r.solutions.len() == if first.len() < 5 {
                first.len() + 1
            } else {
                5
            }
            &&& forall|x: SolutionView, y: SolutionView|
                r.solutions.contains(x) && first.push(extra).contains(y) && !r.solutions.contains(y)
                    ==> !less(#[trigger] x.confidence, #[trigger] y.confidence)
        }),
{
    let first = conclusion(subject, n, signal, results, warming_result()).solutions;
    let r = conclusion(subject, n, signal, results, t);
    let extra = SolutionView { label: t.label, confidence: t.confidence, source: "phase2"@ };
    let all = first.push(extra);
    lemma_drift_result_is_warm(Single { bits: 0 }, Seq::empty());
    lemma_first_solutions(subject, n, signal, results);
    assert(comparable(all));
    lemma_best_kept(all);
    assert(r.solutions == best(all));
    assert forall|x: SolutionView, y: SolutionView|
        r.solutions.contains(x) && all.contains(y) && !r.solutions.contains(y) implies !less(
        #[trigger] x.confidence,
        #[trigger] y.confidence,
    ) by {
        lemma_left_out(r.solutions, all, x, y);
    }
}

/// Whatever the confidences, the solutions with a temporal one are as many as there were
/// before and one more, at most five, and each of them was there before or is the
/// temporal one.
pub proof fn lemma_merged_count(
    subject: Seq<char>,
    n: u64,
    signal: Signal,
    results: Seq<(Seq<char>, Single, bool)>,
    t: TemporalResultView,
)
    requires
        t.label != "temporal_warming_up"@,
    ensures
        ({
            let first = conclusion(subject, n, signal, results, warming_result()).solutions;
            let r = conclusion(subject, n, signal, results, t);
            let extra = SolutionView {
                label: t.label,
                confidence: t.confidence,
                source: "phase2"@,
            };
            &&& 1 <= first.len() <= 5
            &&& r.solutions.len() == if first.len() < 5 {
                first.len() + 1
            } else {
                5
            }
            &&& forall|x: SolutionView| #[trigger]
                r.solutions.contains(x) ==> x == extra || first.contains(x)
        }),
{
    let first = conclusion(subject, n, signal, results, warming_result()).solutions;
    let r = conclusion(subject, n, signal, results, t).solutions;
    let extra = SolutionView { label: t.label, confidence: t.confidence, source: "phase2"@ };
    let all = first.push(extra);
    lemma_drift_result_is_warm(Single { bits: 0 }, Seq::empty());
    lemma_ranked_len(candidates(signal.is_anomaly, signal.confidence, results));
    lemma_ranked_len(all);
    lemma_ranked_permutes(all);
    assert(r == best(all));
    assert forall|x: SolutionView| #[trigger] r.contains(x) implies x == extra || first.contains(
        x,
    ) by {
        let i = choose|i: int| 0 <= i < r.len() && r[i] == x;
        assert(ranked(all)[i] == x);
        ranked(all).to_multiset_ensures();
        all.to_multiset_ensures();
        assert(ranked(all).contains(x));
        assert(all.to_multiset().count(x) > 0);
        assert(all.contains(x));
        let j = choose|j: int| 0 <= j < all.len() && all[j] == x;
        if j < first.len() {
            assert(first[j] == x);
        }
    }
}

/// While the temporal layer warms up, a review is wanted exactly if the confidence is
/// below 0.70, and the confidence is three fifths of that of the message and two fifths
/// of the share of anomalous fields up to rounding.
pub proof fn lemma_first_review(
    subject: Seq<char>,
    n: u64,
    signal: Signal,
    results: Seq<(Seq<char>, Single, bool)>,
)
    requires
        in_unit(signal.confidence),
        1 <= results.len() < 0x100_0000,
    ensures
        ({
            let r = conclusion(subject, n, signal, results, warming_result());
            let m = results.len() as int;
            let k = anomalous(results).len() as int;
            &&& in_unit(r.confidence)
            &&& r.hitl_required <==> r.confidence.order() < HITL_THRESHOLD
            &&& r.phase == 1
            &&& r.temporal_label is None && r.temporal_confidence is None
            &&& distance(
                5 * (m * r.confidence.value()),
                3 * (m * signal.confidence.value()) + 2 * (k * pow2(149)),
            ) <= m * pow2(131)
        }),
{
    lemma_anomalous_fields(results);
    lemma_first_value(signal.confidence, results);
    lemma_first_phase(subject, n, signal, results);
}

/// The combined confidence in terms of the number of anomalous fields.
proof fn lemma_first_value(confidence: Single, results: Seq<(Seq<char>, Single, bool)>)
    requires
        in_unit(confidence),
        1 <= results.len() < 0x100_0000,
    ensures
        ({
            let c = combined(confidence, anomaly_fraction(results));
            let m = results.len() as int;
            let k = anomaly_count(results) as int;
            distance(
                5 * (m * c.value()),
                3 * (m * confidence.value()) + 2 * (k * pow2(149)),
            ) <= m * pow2(131)
        }),
{
    let m = results.len();
    let k = anomaly_count(results);
    let f = quotient(whole(k), whole(m));
    lemma_anomaly_count_bound(results);
    lemma_fraction_range(results);
    assert(anomaly_fraction(results) == f);
    lemma_combined_value(confidence, f);
    lemma_whole_exact(k);
    lemma_quotient_whole(whole(k), m);
    lemma_review_algebra(
        m as int,
        k as int,
        combined(confidence, f).value(),
        confidence.value(),
        f.value(),
    );
}

proof fn lemma_review_algebra(m: int, k: int, c: int, s: int, f: int)
    requires
        1 <= m < 0x100_0000,
        0 <= k <= m,
        distance(5 * c, 3 * s + 2 * f) <= pow2(130),
        0x100_0000 * distance(f * m, k * pow2(149)) <= k * pow2(149) + 0x80_0000 * m,
    ensures
        distance(5 * (m * c), 3 * (m * s) + 2 * (k * pow2(149))) <= m * pow2(131),
{
    let q = pow2(125) as int;
    let u = pow2(149) as int;
    vstd::arithmetic::power2::lemma2_to64();
    lemma_pow2_adds(24, 125);
    lemma_pow2_adds(5, 125);
    lemma_pow2_adds(6, 125);
    lemma_pow2_pos(125);
    let e = 5 * c - (3 * s + 2 * f);
    assert(m * e == 5 * (m * c) - (3 * (m * s) + 2 * (f * m))) by (nonlinear_arith)
        requires e == 5 * c - (3 * s + 2 * f);
    assert(distance(m * e, 0) <= 32 * (m * q)) by (nonlinear_arith)
        requires -32 * q <= e <= 32 * q, m >= 1, q >= 0;
    assert(k * u <= 0x100_0000 * (m * q)) by (nonlinear_arith)
        requires k <= m, u == 0x100_0000 * q, q >= 0;
    assert(m <= m * q) by (nonlinear_arith)
        requires q >= 1, m >= 1;
    assert(distance(f * m, k * u) <= 2 * (m * q));
    assert(m * (64 * q) == 64 * (m * q)) by (nonlinear_arith);
}

/// Once both windows are full, the confidence is the greater one of the first phase's and
/// the temporal one, and a review is wanted exactly if one of the two is below 0.70.
pub proof fn lemma_second_review(
    subject: Seq<char>,
    n: u64,
    signal: Signal,
    results: Seq<(Seq<char>, Single, bool)>,
    t: TemporalResultView,
)
    requires
        in_unit(signal.confidence),
        results.len() <= u64::MAX,
        t.label != "temporal_warming_up"@,
        !t.confidence.nan(),
    ensures
        ({
            let first = conclusion(subject, n, signal, results, warming_result());
            let r = conclusion(subject, n, signal, results, t);
            &&& r.confidence == first.confidence || r.confidence == t.confidence
            &&& r.confidence.order() >= first.confidence.order()
            &&& r.confidence.order() >= t.confidence.order()
            &&& r.hitl_required <==> first.hitl_required || t.confidence.order() < HITL_THRESHOLD
            &&& r.classification == first.classification
            &&& r.anomalous_fields == first.anomalous_fields
            &&& r.phase == 2
            &&& r.temporal_label == Some(t.label)
            &&& r.temporal_confidence == Some(t.confidence)
        }),
{
    lemma_drift_result_is_warm(Single { bits: 0 }, Seq::empty());
    lemma_first_phase(subject, n, signal, results);
}

/// Mapping and keeping some of what came out is keeping the right ones and mapping them.
proof fn lemma_filter_mapped<A, B>(s: Seq<A>, f: spec_fn(A) -> B, p: spec_fn(B) -> bool)
    ensures
        s.map_values(f).filter(p) == s.filter(|x: A| p(f(x))).map_values(f),
    decreases s.len(),
{
    reveal(Seq::filter);
    let own = |x: A| p(f(x));
    let mapped = s.map_values(f);
    if s.len() > 0 {
        let init = s.drop_last();
        lemma_filter_mapped(init, f, p);
        assert(mapped.drop_last() =~= init.map_values(f));
        assert(mapped.last() == f(s.last()));
        if p(f(s.last())) {
            assert(s.filter(own).map_values(f) =~= init.filter(own).map_values(f).push(
                f(s.last()),
            ));
        }
    } else {
        assert(s.filter(own).map_values(f) =~= Seq::empty());
        assert(mapped.filter(p) =~= Seq::empty());
    }
}

/// The fields of a message that are less similar to their running vectors than 0.70.
pub open spec fn spiking(
    store: Store,
    subject: Seq<char>,
    fields: Seq<(Seq<char>, (Seq<usize>, Seq<usize>))>,
) -> Seq<(Seq<char>, (Seq<usize>, Seq<usize>))> {
    fields.filter(
        |f: (Seq<char>, (Seq<usize>, Seq<usize>))|
            {
                let similarity = score_against(f.1, vector(store.get(ema_key(subject, f.0))));
                !similarity.nan() && similarity.order() < FIELD_THRESHOLD
            },
    )
}

/// The outcomes of the fields of a message after the warm-up.
proof fn lemma_spiking(
    store: Store,
    subject: Seq<char>,
    fields: Seq<(Seq<char>, (Seq<usize>, Seq<usize>))>,
    bundle: (Seq<usize>, Seq<usize>),
    n: u64,
)
    requires
        distinct_names(fields),
    ensures
        ({
            let counted = with_statistics(store, subject, bundle, n);
            let results = field_outcomes(counted, subject, fields, fields.len());
            let low = spiking(store, subject, fields);
            &&& results.len() == fields.len()
            &&& anomalous(results).len() == low.len()
            &&& anomalous(results).map_values(|r: (Seq<char>, Single, bool)| r.0)
                == low.map_values(|f: (Seq<char>, (Seq<usize>, Seq<usize>))| f.0)
        }),
{
    let counted = with_statistics(store, subject, bundle, n);
    let results = field_outcomes(counted, subject, fields, fields.len());
    let outcome = |f: (Seq<char>, (Seq<usize>, Seq<usize>))|
        field_result(f.0, score_against(f.1, vector(store.get(ema_key(subject, f.0)))));
    let flagged = |r: (Seq<char>, Single, bool)| r.2;
    let own = |f: (Seq<char>, (Seq<usize>, Seq<usize>))| flagged(outcome(f));
    let low = |f: (Seq<char>, (Seq<usize>, Seq<usize>))|
        {
            let similarity = score_against(f.1, vector(store.get(ema_key(subject, f.0))));
            !similarity.nan() && similarity.order() < FIELD_THRESHOLD
        };
    lemma_keys(subject);
    lemma_field_outcomes(counted, subject, fields, fields.len());
    assert forall|i: int| 0 <= i < fields.len() implies results[i] == outcome(
        #[trigger] fields[i],
    ) by {
        assert(ema_key(subject, fields[i].0)[0] == 'e');
        assert(counted.get(ema_key(subject, fields[i].0)) == store.get(
            ema_key(subject, fields[i].0),
        ));
    }
    assert(results =~= fields.map_values(outcome));
    lemma_filter_mapped(fields, outcome, flagged);
    assert(own =~= low);
    assert(anomalous(results).map_values(|r: (Seq<char>, Single, bool)| r.0) =~= spiking(
        store,
        subject,
        fields,
    ).map_values(|f: (Seq<char>, (Seq<usize>, Seq<usize>))| f.0));
}

/// After the warm-up, a message is an anomaly if and only if its Z-score exceeds 2.5 or
/// more than half of its fields are less similar to their running vectors than 0.70;
/// otherwise it is normal.  Just those fields are named.
pub proof fn lemma_message_verdict(
    store: Store,
    subject: Seq<char>,
    fields: Seq<(Seq<char>, (Seq<usize>, Seq<usize>))>,
    bundle: (Seq<usize>, Seq<usize>),
    exponential: spec_fn(Single) -> Single,
)
    requires
        counter(store.get(count_key(subject))) >= MIN_SAMPLES,
        distinct_names(fields),
        fields.len() < 0xff_ffff,
        message_scores(
            store,
            subject,
            bundle,
            incremented(counter(store.get(count_key(subject)))),
        ).2.finite(),
    ensures
        ({
            let n = incremented(counter(store.get(count_key(subject))));
            let z = message_scores(store, subject, bundle, n).2;
            let low = spiking(store, subject, fields);
            let anomaly = 2 * z.value() > 5 * pow2(149) || 2 * low.len() > fields.len();
            let r = message_outcome(store, subject, fields, bundle, exponential).0;
            &&& r.classification == "ANOMALY"@ <==> anomaly
            &&& r.classification == "NORMAL"@ <==> !anomaly
            &&& r.anomalous_fields == low.map_values(
                |f: (Seq<char>, (Seq<usize>, Seq<usize>))| f.0,
            )
        }),
{
    reveal(message_outcome);
    let n = incremented(counter(store.get(count_key(subject))));
    let z = message_scores(store, subject, bundle, n).2;
    let signal = signal_of(z, exponential(decay_exponent(z)));
    let counted = with_statistics(store, subject, bundle, n);
    let results = field_outcomes(counted, subject, fields, fields.len());
    let learned = with_fields(counted, subject, fields, fields.len());
    let t = temporal_outcome(learned, subject, bundle).0;
    lemma_message_anomaly(z, exponential(decay_exponent(z)));
    lemma_spiking(store, subject, fields, bundle, n);
    lemma_verdict(subject, n, signal, results, t);
}

/// A result whose confidence or whose temporal confidence is below 0.70 is marked for
/// review; in the first phase no other result is.
pub proof fn lemma_low_confidence(
    subject: Seq<char>,
    n: u64,
    signal: Signal,
    results: Seq<(Seq<char>, Single, bool)>,
    t: TemporalResultView,
)
    ensures
        ({
            let r = conclusion(subject, n, signal, results, t);
            let threshold = Single { bits: HITL_THRESHOLD };
            &&& less(r.confidence, threshold) ==> r.hitl_required
            &&& r.temporal_confidence matches Some(c) ==> less(c, threshold) ==> r.hitl_required
            &&& r.phase == 1 ==> (r.hitl_required <==> less(r.confidence, threshold))
            &&& r.phase == 1 || r.phase == 2
            &&& r.phase == 2 <==> r.temporal_confidence is Some
            &&& r.phase == 2 <==> r.temporal_label is Some
        }),
{
    let own = combined(signal.confidence, anomaly_fraction(results));
    let r = conclusion(subject, n, signal, results, t);
    assert(r.confidence == if warming(t) {
        own
    } else {
        greater_of(own, t.confidence)
    });
}

/// After the warm-up, the result of a message is marked for review if its confidence or
/// its temporal confidence is below 0.70, and in the first phase only then.
pub proof fn lemma_message_review(
    store: Store,
    subject: Seq<char>,
    fields: Seq<(Seq<char>, (Seq<usize>, Seq<usize>))>,
    bundle: (Seq<usize>, Seq<usize>),
    exponential: spec_fn(Single) -> Single,
)
    requires
        counter(store.get(count_key(subject))) >= MIN_SAMPLES,
    ensures
        ({
            let r = message_outcome(store, subject, fields, bundle, exponential).0;
            let threshold = Single { bits: HITL_THRESHOLD };
            &&& less(r.confidence, threshold) ==> r.hitl_required
            &&& r.temporal_confidence matches Some(c) ==> less(c, threshold) ==> r.hitl_required
            &&& r.temporal_confidence is None ==> (r.hitl_required <==> less(
                r.confidence,
                threshold,
            ))
        }),
{
    reveal(message_outcome);
    let n = incremented(counter(store.get(count_key(subject))));
    let z = message_scores(store, subject, bundle, n).2;
    let signal = signal_of(z, exponential(decay_exponent(z)));
    let counted = with_statistics(store, subject, bundle, n);
    let results = field_outcomes(counted, subject, fields, fields.len());
    let learned = with_fields(counted, subject, fields, fields.len());
    let t = temporal_outcome(learned, subject, bundle).0;
    lemma_low_confidence(subject, n, signal, results, t);
}

/// What is reported of a message without fields and of one of the warm-up.
pub proof fn lemma_reports(subject: Seq<char>, n: u64, t: TemporalResultView)
    ensures
        ({
            let r = skipped_result(subject);
            &&& r.subject == subject
            &&& r.classification == "SKIPPED"@
            &&& r.confidence.value() == 0
            &&& r.solutions.len() == 0 && r.anomalous_fields.len() == 0
            &&& r.message_count == 0
            &&& !r.hitl_required
            &&& r.phase == 1
            &&& r.temporal_label is None && r.temporal_confidence is None
        }),
        ({
            let r = warm_up_result(subject, n, t);
            &&& r.subject == subject
            &&& r.classification == "WARMING_UP"@
            &&& 2 * r.confidence.value() == pow2(149)
            &&& r.solutions.len() == 1
            &&& r.solutions[0].label == "warming_up"@ && r.solutions[0].source == "phase1"@
            &&& r.solutions[0].confidence == r.confidence
            &&& r.anomalous_fields.len() == 0
            &&& r.message_count == n
            &&& !r.hitl_required
            &&& r.phase == 1
            &&& t == warming_result() ==> r.temporal_label is None && r.temporal_confidence is None
            &&& t.label != "temporal_warming_up"@ ==> r.temporal_label == Some(t.label)
                && r.temporal_confidence == Some(t.confidence)
        }),
{
    let half = Single { bits: HALF };
    lemma_decoded(Single { bits: 0 });
    vstd::arithmetic::power2::lemma2_to64();
    lemma_pow2_adds(24, 125);
    assert(half.place() == 125);
    assert(half.units() == 0x80_0000 * pow2(125));
}

}
