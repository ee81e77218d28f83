//! What the scores and drifts of a stream come to.

use crate::accumulation::{
    accumulated, between, counted, in_power, lemma_accumulated_mean, lemma_accumulated_spread,
    lemma_unit_mean, lemma_zero_sample, samples_in_power, spread_fits, squares, total,
};
use crate::accuracy::{distance, lemma_room};
use crate::bounds::{
    in_unit, lemma_first_phase, lemma_one, lemma_second_phase, lemma_unit_distance,
    lemma_z_score_finite,
};
use crate::classify::{
    count_key, incremented, m2_key, mean_score_key, mean_vec_key, score_against, scored, signal_of,
    Signal,
};
use crate::codec::{counter, history, number, vector};
use crate::effects::{
    field_outcomes, message_outcome, message_scores, temporal_outcome, with_fields,
    with_statistics, Store,
};
use crate::order::{exponential_like, lemma_confidence_curve};
use crate::regression::{bounded_values, lemma_history_bounded, lemma_slope, moment};
use crate::single::{lemma_magnitude_order, opposite, Single, ONE};
use crate::stats::{decay_exponent, slope, welford, HISTORY_LEN, MIN_SAMPLES};
use crate::streams::{
    after_messages, all_of_machine_size, bundle_of, bundles_of, fresh_ring, lemma_history_waits,
    lemma_message_counts, lemma_message_statistics, lemma_messages_ring, lemma_stream_drift,
    lemma_warm_up, of_machine_size, windows_drift,
};
use crate::temporal::{drift_result, history_key, warming_result, WARM_SIZE};
use vstd::arithmetic::power2::{lemma_pow2_adds, lemma_pow2_pos, pow2};
use vstd::prelude::*;

verus! {

/// What the statistics of a stream take in: the score of each message, and zero for
/// those of the warm-up.
pub open spec fn scores_of(
    store: Store,
    subject: Seq<char>,
    messages: Seq<Seq<(Seq<char>, (Seq<usize>, Seq<usize>))>>,
    exponential: spec_fn(Single) -> Single,
) -> Seq<Single>
    decreases messages.len(),
{
    if messages.len() == 0 {
        Seq::empty()
    } else {
        let init = messages.drop_last();
        let before = after_messages(store, subject, init, exponential);
        let score = if messages.len() <= MIN_SAMPLES {
            Single { bits: 0 }
        } else {
            score_against(
                bundle_of(messages.last()),
                vector(before.get(mean_vec_key(subject))),
            )
        };
        scores_of(store, subject, init, exponential).push(score)
    }
}

/// One more score in the accumulation.
proof fn lemma_next_score(scores: Seq<Single>, score: Single)
    requires
        scores.len() < u64::MAX,
    ensures
        ({
            let n = (scores.len() + 1) as u64;
            let (mean, m2) = accumulated(scores);
            let s = scored(n, mean, m2, score);
            &&& accumulated(scores.push(score)) == welford(n, mean, m2, score)
            &&& accumulated(scores.push(score)) == (s.0, s.1)
        }),
{
    let all = scores.push(score);
    assert(all.drop_last() =~= scores);
    assert(all.last() == score);
    reveal(scored);
}

/// On a fresh subject, the stored mean and spread are those that the accumulation
/// over the scores comes to, with a zero for each message of the warm-up.
pub proof fn lemma_stream_statistics(
    store: Store,
    subject: Seq<char>,
    messages: Seq<Seq<(Seq<char>, (Seq<usize>, Seq<usize>))>>,
    exponential: spec_fn(Single) -> Single,
)
    requires
        messages.len() <= u64::MAX,
        !store.contains_key(count_key(subject)),
        !store.contains_key(mean_score_key(subject)),
        !store.contains_key(m2_key(subject)),
    ensures
        ({
            let after = after_messages(store, subject, messages, exponential);
            let scores = scores_of(store, subject, messages, exponential);
            &&& counter(after.get(count_key(subject))) == messages.len()
            &&& scores.len() == messages.len()
            &&& (
                number(after.get(mean_score_key(subject))),
                number(after.get(m2_key(subject))),
            ) == accumulated(scores)
            &&& messages.len() <= MIN_SAMPLES ==> accumulated(scores) == (
                Single { bits: 0 },
                Single { bits: 0 },
            )
        }),
    decreases messages.len(),
{
    if messages.len() > 0 {
        let init = messages.drop_last();
        let last = messages.last();
        let bundle = bundle_of(last);
        let n = messages.len() as u64;
        lemma_stream_statistics(store, subject, init, exponential);
        let before = after_messages(store, subject, init, exponential);
        lemma_message_counts(before, subject, last, bundle, exponential);
        lemma_message_statistics(before, subject, last, bundle, exponential);
        let earlier_scores = scores_of(store, subject, init, exponential);
        if n <= MIN_SAMPLES {
            lemma_next_score(earlier_scores, Single { bits: 0 });
            lemma_zero_sample(n);
        } else {
            let score = score_against(bundle, vector(before.get(mean_vec_key(subject))));
            lemma_next_score(earlier_scores, score);
        }
    }
}

/// Scores between minus one and one.
pub open spec fn unit_scores(scores: Seq<Single>) -> bool {
    forall|i: int| 0 <= i < scores.len() ==> (#[trigger] scores[i]).magnitude() <= ONE
}

/// On a fresh subject whose scores lie between minus one and one, the stored mean and
/// spread are those of the scores up to rounding, with a zero for each message of the
/// warm-up: `k` times the mean is off the sum of `k` scores by at most `k (k + 13)` times
/// two to the power -23, and the spread is off the sum of their squared distances from
/// the mean by at most `k (4 k + 44)` times two to the power -23.
pub proof fn lemma_stream_accuracy(
    store: Store,
    subject: Seq<char>,
    messages: Seq<Seq<(Seq<char>, (Seq<usize>, Seq<usize>))>>,
    exponential: spec_fn(Single) -> Single,
)
    requires
        messages.len() <= u64::MAX,
        !store.contains_key(count_key(subject)),
        !store.contains_key(mean_score_key(subject)),
        !store.contains_key(m2_key(subject)),
        unit_scores(scores_of(store, subject, messages, exponential)),
    ensures
        ({
            let after = after_messages(store, subject, messages, exponential);
            let scores = scores_of(store, subject, messages, exponential);
            let k = messages.len() as int;
            let mean = number(after.get(mean_score_key(subject)));
            let m2 = number(after.get(m2_key(subject)));
            &&& mean.magnitude() <= ONE
            &&& m2.finite()
            &&& m2.value() >= 0
            &&& distance(k * mean.value(), total(scores)) <= k * (k + 13) * pow2(126)
            &&& distance(m2.value() * pow2(149), squares(scores, mean.value())) <= k * (4 * k
                + 44) * pow2(275)
        }),
{
    lemma_stream_statistics(store, subject, messages, exponential);
    lemma_unit_accumulated(scores_of(store, subject, messages, exponential));
}

/// Accumulation over scores between minus one and one.
proof fn lemma_unit_accumulated(scores: Seq<Single>)
    requires
        unit_scores(scores),
        scores.len() <= u64::MAX,
    ensures
        ({
            let k = scores.len() as int;
            let (mean, m2) = accumulated(scores);
            &&& mean.magnitude() <= ONE
            &&& m2.finite()
            &&& m2.value() >= 0
            &&& distance(k * mean.value(), total(scores)) <= k * (k + 13) * pow2(126)
            &&& distance(m2.value() * pow2(149), squares(scores, mean.value())) <= k * (4 * k
                + 44) * pow2(275)
        }),
{
    let one = Single { bits: ONE };
    let low = opposite(one);
    let mean = accumulated(scores).0;
    lemma_unit_fits(scores.len());
    lemma_unit_bounds(scores);
    lemma_accumulated_mean(scores, low, one, 149);
    lemma_accumulated_spread(scores, low, one, 149);
    assert(mean.magnitude() <= ONE) by {
        lemma_one();
        lemma_magnitude_order(mean, one);
    }
}

proof fn lemma_unit_bounds(scores: Seq<Single>)
    requires
        unit_scores(scores),
    ensures
        samples_in_power(scores, 149),
        between(scores, opposite(Single { bits: ONE }), Single { bits: ONE }),
{
    let one = Single { bits: ONE };
    lemma_one();
    lemma_unit_distance(one, opposite(one));
    assert forall|i: int| 0 <= i < scores.len() implies in_power(#[trigger] scores[i], 149) by {
        lemma_magnitude_order(scores[i], one);
    }
}

proof fn lemma_unit_fits(k: nat)
    ensures
        spread_fits(k, 149),
{
    lemma_room(counted(k), 252);
    lemma_pow2_adds(252, 46);
    lemma_pow2_adds(276, 146);
    lemma_pow2_adds(46, 100);
    lemma_pow2_pos(100);
    let (n, x, y) = (counted(k), pow2(252), pow2(46));
    let (z, p) = (pow2(100), pow2(276));
    assert(n * (x * y) <= p * (y * z)) by (nonlinear_arith)
        requires n * x <= p, y >= 0, z >= 1, p >= 0;
}

/// The confidence of a message is a number between zero and one if the stored mean of
/// the scores and its own score lie between minus one and one; the mean that it leaves
/// behind lies there too.
pub proof fn lemma_message_confidence(
    store: Store,
    subject: Seq<char>,
    fields: Seq<(Seq<char>, (Seq<usize>, Seq<usize>))>,
    bundle: (Seq<usize>, Seq<usize>),
    exponential: spec_fn(Single) -> Single,
)
    requires
        exponential_like(exponential),
        fields.len() <= u64::MAX,
        number(store.get(mean_score_key(subject))).magnitude() <= ONE,
        score_against(bundle, vector(store.get(mean_vec_key(subject)))).magnitude() <= ONE,
    ensures
        ({
            let outcome = message_outcome(store, subject, fields, bundle, exponential);
            &&& in_unit(outcome.0.confidence)
            &&& number(outcome.1.get(mean_score_key(subject))).magnitude() <= ONE
        }),
{
    let n = incremented(counter(store.get(count_key(subject))));
    let mean = number(store.get(mean_score_key(subject)));
    let m2 = number(store.get(m2_key(subject)));
    let score = score_against(bundle, vector(store.get(mean_vec_key(subject))));
    lemma_message_statistics(store, subject, fields, bundle, exponential);
    if n > MIN_SAMPLES {
        let s = message_scores(store, subject, bundle, n);
        lemma_scored_range(n, mean, m2, score);
        let signal = signal_of(s.2, exponential(decay_exponent(s.2)));
        assert(in_unit(signal.confidence)) by {
            lemma_confidence_curve(s.2, s.2, exponential);
        }
        lemma_message_concludes(store, subject, fields, bundle, exponential, signal);
    } else {
        lemma_warm_up(store, subject, fields, bundle, exponential);
    }
}

/// The Z-score and the new mean of a score between minus one and one.
proof fn lemma_scored_range(n: u64, mean: Single, m2: Single, score: Single)
    requires
        n > MIN_SAMPLES,
        mean.magnitude() <= ONE,
        score.magnitude() <= ONE,
    ensures
        scored(n, mean, m2, score).0.magnitude() <= ONE,
        scored(n, mean, m2, score).2.finite(),
{
    reveal(scored);
    lemma_unit_mean(n, mean, m2, score);
    let w = welford(n, mean, m2, score);
    lemma_z_score_finite(score, w.0, w.1, n);
}

/// A confident signal makes a confident result.
proof fn lemma_message_concludes(
    store: Store,
    subject: Seq<char>,
    fields: Seq<(Seq<char>, (Seq<usize>, Seq<usize>))>,
    bundle: (Seq<usize>, Seq<usize>),
    exponential: spec_fn(Single) -> Single,
    signal: Signal,
)
    requires
        ({
            let n = incremented(counter(store.get(count_key(subject))));
            let z = message_scores(store, subject, bundle, n).2;
            &&& n > MIN_SAMPLES
            &&& signal == signal_of(z, exponential(decay_exponent(z)))
        }),
        fields.len() <= u64::MAX,
        in_unit(signal.confidence),
    ensures
        in_unit(message_outcome(store, subject, fields, bundle, exponential).0.confidence),
{
    reveal(message_outcome);
    let n = incremented(counter(store.get(count_key(subject))));
    let counted = with_statistics(store, subject, bundle, n);
    let results = field_outcomes(counted, subject, fields, fields.len());
    let learned = with_fields(counted, subject, fields, fields.len());
    lemma_outcomes_len(counted, subject, fields, fields.len());
    lemma_temporal_kinds(learned, subject, bundle);
    let t = temporal_outcome(learned, subject, bundle).0;
    if t == warming_result() {
        lemma_first_phase(subject, n, signal, results);
    } else {
        let (drift, values) = choose|d: Single, h: Seq<Single>| t == #[trigger] drift_result(d, h);
        lemma_second_phase(subject, n, signal, results, drift, values);
    }
}

/// The two kinds of results of the temporal layer.
proof fn lemma_temporal_kinds(
    store: Store,
    subject: Seq<char>,
    bundle: (Seq<usize>, Seq<usize>),
)
    ensures
        ({
            let t = temporal_outcome(store, subject, bundle).0;
            t == warming_result() || exists|d: Single, h: Seq<Single>|
                t == #[trigger] drift_result(d, h)
        }),
{
    reveal(temporal_outcome);
}

/// Each field has an outcome.
proof fn lemma_outcomes_len(
    store: Store,
    subject: Seq<char>,
    fields: Seq<(Seq<char>, (Seq<usize>, Seq<usize>))>,
    k: nat,
)
    ensures
        field_outcomes(store, subject, fields, k).len() == k,
    decreases k,
{
    if k > 0 {
        lemma_outcomes_len(store, subject, fields, (k - 1) as nat);
    }
}

/// On a fresh subject whose scores lie between minus one and one, every result tells a
/// confidence between zero and one.
pub proof fn lemma_stream_confidence(
    store: Store,
    subject: Seq<char>,
    messages: Seq<Seq<(Seq<char>, (Seq<usize>, Seq<usize>))>>,
    next: Seq<(Seq<char>, (Seq<usize>, Seq<usize>))>,
    exponential: spec_fn(Single) -> Single,
)
    requires
        exponential_like(exponential),
        messages.len() < u64::MAX,
        next.len() <= u64::MAX,
        !store.contains_key(count_key(subject)),
        !store.contains_key(mean_score_key(subject)),
        !store.contains_key(m2_key(subject)),
        unit_scores(scores_of(store, subject, messages.push(next), exponential)),
    ensures
        in_unit(
            message_outcome(
                after_messages(store, subject, messages, exponential),
                subject,
                next,
                bundle_of(next),
                exponential,
            ).0.confidence,
        ),
{
    let before = after_messages(store, subject, messages, exponential);
    let bundle = bundle_of(next);
    lemma_scores_before(store, subject, messages, next, exponential);
    if messages.len() + 1 <= MIN_SAMPLES {
        lemma_warm_up(before, subject, next, bundle, exponential);
    } else {
        lemma_message_confidence(before, subject, next, bundle, exponential);
    }
}

/// What a message finds of scores between minus one and one.
proof fn lemma_scores_before(
    store: Store,
    subject: Seq<char>,
    messages: Seq<Seq<(Seq<char>, (Seq<usize>, Seq<usize>))>>,
    next: Seq<(Seq<char>, (Seq<usize>, Seq<usize>))>,
    exponential: spec_fn(Single) -> Single,
)
    requires
        messages.len() < u64::MAX,
        !store.contains_key(count_key(subject)),
        !store.contains_key(mean_score_key(subject)),
        !store.contains_key(m2_key(subject)),
        unit_scores(scores_of(store, subject, messages.push(next), exponential)),
    ensures
        ({
            let before = after_messages(store, subject, messages, exponential);
            let base = vector(before.get(mean_vec_key(subject)));
            &&& incremented(counter(before.get(count_key(subject)))) == messages.len() + 1
            &&& number(before.get(mean_score_key(subject))).magnitude() <= ONE
            &&& messages.len() + 1 > MIN_SAMPLES ==> score_against(
                bundle_of(next),
                base,
            ).magnitude() <= ONE
        }),
{
    let all = messages.push(next);
    let scores = scores_of(store, subject, messages, exponential);
    let more = scores_of(store, subject, all, exponential);
    assert(all.drop_last() =~= messages);
    assert(all.last() == next);
    assert(more.drop_last() =~= scores);
    assert(more.last() == more[more.len() - 1]);
    assert(unit_scores(scores)) by {
        assert forall|i: int| 0 <= i < scores.len() implies (#[trigger] scores[i]).magnitude()
            <= ONE by {
            assert(more[i] == scores[i]);
        }
    }
    lemma_stream_statistics(store, subject, messages, exponential);
    lemma_unit_accumulated(scores);
}

/// Whether each drift of a stream that is classified is at most two.
pub open spec fn drifts_bounded(
    messages: Seq<Seq<(Seq<char>, (Seq<usize>, Seq<usize>))>>,
) -> bool {
    forall|k: int|
        WARM_SIZE <= k <= messages.len() ==> (#[trigger] windows_drift(
            bundles_of(messages.take(k)),
        )).magnitude() <= 0x4000_0000
}

/// On a fresh subject whose drifts are at most two, the drift rate that is classified is
/// the slope of the least-squares line through the drift history up to rounding.
pub proof fn lemma_stream_rate(
    store: Store,
    subject: Seq<char>,
    messages: Seq<Seq<(Seq<char>, (Seq<usize>, Seq<usize>))>>,
    exponential: spec_fn(Single) -> Single,
)
    requires
        fresh_ring(store, subject),
        !store.contains_key(history_key(subject)),
        all_of_machine_size(messages),
        messages.len() <= usize::MAX,
        messages.len() <= u64::MAX,
        drifts_bounded(messages),
    ensures
        ({
            let after = after_messages(store, subject, messages, exponential);
            let h = history(after.get(history_key(subject)));
            let n = h.len() as int;
            &&& h.len() <= HISTORY_LEN
            &&& bounded_values(h)
            &&& n >= 2 ==> slope(h).finite() && distance(
                slope(h).value() * (n * (n * n - 1)),
                12 * moment(h) - 6 * (n - 1) * total(h),
            ) <= 96 * (n * n * n) * pow2(125)
        }),
{
    let after = after_messages(store, subject, messages, exponential);
    let h = history(after.get(history_key(subject)));
    lemma_history_kept(store, subject, messages, exponential);
    if h.len() >= 2 {
        lemma_slope(h);
    }
}

proof fn lemma_history_kept(
    store: Store,
    subject: Seq<char>,
    messages: Seq<Seq<(Seq<char>, (Seq<usize>, Seq<usize>))>>,
    exponential: spec_fn(Single) -> Single,
)
    requires
        fresh_ring(store, subject),
        !store.contains_key(history_key(subject)),
        all_of_machine_size(messages),
        messages.len() <= usize::MAX,
        messages.len() <= u64::MAX,
        drifts_bounded(messages),
    ensures
        ({
            let after = after_messages(store, subject, messages, exponential);
            let h = history(after.get(history_key(subject)));
            h.len() <= HISTORY_LEN && bounded_values(h)
        }),
    decreases messages.len(),
{
    if messages.len() > 0 {
        let init = messages.drop_last();
        let last = messages.last();
        let before = after_messages(store, subject, init, exponential);
        assert(of_machine_size(bundle_of(messages[messages.len() - 1])));
        assert(all_of_machine_size(init)) by {
            assert forall|i: int| 0 <= i < init.len() implies of_machine_size(
                bundle_of(#[trigger] init[i]),
            ) by {
                assert(init[i] == messages[i]);
            }
        }
        assert(drifts_bounded(init)) by {
            assert forall|k: int| WARM_SIZE <= k <= init.len() implies (#[trigger] windows_drift(
                bundles_of(init.take(k)),
            )).magnitude() <= 0x4000_0000 by {
                assert(init.take(k) =~= messages.take(k));
            }
        }
        lemma_history_kept(store, subject, init, exponential);
        lemma_messages_ring(store, subject, init, exponential);
        if messages.len() >= WARM_SIZE {
            assert(init.push(last) =~= messages);
            assert(messages.take(messages.len() as int) =~= messages);
            lemma_stream_drift(store, subject, init, last, exponential);
            lemma_history_bounded(
                history(before.get(history_key(subject))),
                windows_drift(bundles_of(messages)),
            );
        } else {
            lemma_history_waits(before, subject, last, bundle_of(last), exponential);
        }
    }
}

}
