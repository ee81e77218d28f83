//! Which subjects messages go to, and when people are asked to look at one.

use crate::accuracy::distance;
use crate::classify::{count_key, incremented, skipped_result};
use crate::codec::{counter, lemma_counter_round_trip};
use crate::effects::message_outcome;
use crate::encode::{fields_of, json_members};
use crate::handler::{is_reply, leaf, lossy_text, reply_base, HitlAlertView, OutgoingView};
use crate::notation::{hundredths, two_decimals};
use crate::rounding::{lemma_nearest_even_nearest, lemma_nearest_even_scaled, nearest_even};
use crate::service::{handling_outcome, Surroundings, World};
use crate::single::{less, Single};
use crate::stats::{HITL_THRESHOLD, MIN_SAMPLES};
use crate::streams::{bundle_of, lemma_warm_up};
use crate::text::{decimal, digit};
use crate::verdicts::{lemma_labels_differ, lemma_message_review};
use crate::vsa::{bound, encoded};
use vstd::arithmetic::power2::{lemma_pow2_adds, lemma_pow2_pos, pow2};
use vstd::prelude::*;
use vstd::utf8::encode_utf8;

verus! {

/// Replies come on the subjects that end in `.reply`, and on no others.
pub proof fn lemma_reply_subjects(subject: Seq<char>)
    ensures
        is_reply(subject) <==> exists|base: Seq<char>| subject == #[trigger] (base + ".reply"@),
{
    let suffix = ".reply"@;
    if is_reply(subject) {
        let base = subject.subrange(0, subject.len() - suffix.len());
        assert(subject =~= base + suffix);
    }
    if exists|base: Seq<char>| subject == #[trigger] (base + suffix) {
        let base = choose|base: Seq<char>| subject == #[trigger] (base + suffix);
        assert(subject.subrange(subject.len() - suffix.len(), subject.len() as int) =~= suffix);
    }
}

/// The reply subject of a review request.
pub open spec fn answering(base: Seq<char>) -> Seq<char> {
    "pattern.alert.human."@ + base + ".reply"@
}

/// A reply to a review request counts for the stream between prefix and suffix; any other
/// subject counts for itself.
pub proof fn lemma_reply_bases(subject: Seq<char>, base: Seq<char>)
    ensures
        reply_base(answering(base)) == base,
        is_reply(answering(base)),
        reply_base(subject) == subject || subject == answering(reply_base(subject)),
{
    let prefix = "pattern.alert.human."@;
    let suffix = ".reply"@;
    let whole = answering(base);
    let cut = prefix + base;
    assert(whole.subrange(whole.len() - suffix.len(), whole.len() as int) =~= suffix);
    assert(whole.subrange(0, whole.len() - suffix.len()) =~= cut);
    assert(cut.subrange(0, prefix.len() as int) =~= prefix);
    assert(cut.subrange(prefix.len() as int, cut.len() as int) =~= base);
    if reply_base(subject) != subject {
        let rest = subject.subrange(0, subject.len() - suffix.len());
        assert(subject =~= rest + suffix);
        assert(rest =~= prefix + reply_base(subject));
    }
}

/// A monitored stream is known by what follows `pattern.monitor.`, any other by its whole
/// subject.
pub proof fn lemma_leaves(subject: Seq<char>, rest: Seq<char>)
    ensures
        leaf("pattern.monitor."@ + rest) == rest,
        subject == "pattern.monitor."@ + leaf(subject) || subject == leaf(subject),
        leaf(subject) == subject ==> forall|r: Seq<char>|
            subject != #[trigger] ("pattern.monitor."@ + r),
{
    let prefix = "pattern.monitor."@;
    let whole = prefix + rest;
    reveal_strlit("pattern.monitor.");
    assert(prefix.len() == 16);
    assert(whole.subrange(0, prefix.len() as int) =~= prefix);
    assert(whole.subrange(prefix.len() as int, whole.len() as int) =~= rest);
    if leaf(subject) != subject {
        assert(subject =~= prefix + leaf(subject));
    } else {
        assert forall|r: Seq<char>| subject != #[trigger] (prefix + r) by {
            if subject == prefix + r {
                assert(subject.subrange(0, prefix.len() as int) =~= prefix);
                assert(leaf(subject).len() == subject.len() - prefix.len());
            }
        }
    }
}

/// A finite number is written with the hundredths that are nearest to it, any other by its
/// name.
pub proof fn lemma_two_decimals(x: Single)
    ensures
        x.nan() ==> two_decimals(x) == "NaN"@,
        x.infinite() && !x.negative() ==> two_decimals(x) == "inf"@,
        x.infinite() && x.negative() ==> two_decimals(x) == "-inf"@,
        x.finite() ==> {
            let h = hundredths(x);
            let sign = if x.negative() {
                "-"@
            } else {
                ""@
            };
            &&& 2 * distance((100 * x.units()) as int, (h * pow2(149)) as int) <= pow2(149)
            &&& two_decimals(x) == sign + decimal(h / 100) + "."@ + seq![
                digit((h % 100) / 10),
                digit(h % 10),
            ]
        },
{
    let a = 100 * x.units();
    let b = pow2(149);
    let h = hundredths(x);
    reveal_strlit("");
    reveal_strlit("-");
    reveal_strlit("inf");
    reveal_strlit("-inf");
    assert(""@ + "inf"@ =~= "inf"@);
    assert("-"@ + "inf"@ =~= "-inf"@);
    if x.finite() {
        reveal(hundredths);
        lemma_pow2_pos(149);
        lemma_nearest_even_nearest(a, b);
        assert((2 * h + 1) * b == 2 * (h * b) + b) by (nonlinear_arith);
        assert((2 * h - 1) * b == 2 * (h * b) - b) by (nonlinear_arith);
        assert(h / 10 % 10 == (h % 100) / 10);
        let sign = if x.negative() {
            "-"@
        } else {
            ""@
        };
        let last = seq![digit((h % 100) / 10), digit(h % 10)];
        assert(two_decimals(x) =~= sign + decimal(h / 100) + "."@ + last);
    }
}

/// The threshold of reviews as text.
proof fn lemma_threshold_text()
    ensures
        two_decimals(Single { bits: HITL_THRESHOLD }) == "0.70"@,
{
    let x = Single { bits: HITL_THRESHOLD };
    let p = pow2(125);
    vstd::arithmetic::power2::lemma2_to64();
    lemma_pow2_adds(24, 125);
    lemma_pow2_pos(125);
    assert(x.place() == 125);
    assert(x.units() == 0xb3_3333 * p);
    let h: nat = 0x45ff_ffec;
    assert(100 * (0xb3_3333 * p) == h * p) by (nonlinear_arith)
        requires h == 0x45ff_ffec;
    assert(pow2(149) == 0x100_0000 * p);
    lemma_nearest_even_scaled(h, 0x100_0000, p);
    assert(nearest_even(h, 0x100_0000) == 70);
    assert(hundredths(x) == 70) by {
        reveal(hundredths);
    }
    reveal_strlit("0.70");
    reveal_strlit("");
    reveal_strlit(".");
    assert(decimal(0) =~= seq!['0']);
    assert(two_decimals(x) =~= "0.70"@);
}

/// What is published about a message of `subject`: its classification.
pub open spec fn told(subject: Seq<char>, json: Seq<char>) -> OutgoingView {
    OutgoingView { subject: "pattern.classified."@ + subject, body: json, reply_to: None }
}

/// What is published to ask people about a message of the stream `base`.
pub open spec fn asked(base: Seq<char>, json: Seq<char>) -> OutgoingView {
    OutgoingView {
        subject: "pattern.alert.human."@ + base,
        body: json,
        reply_to: Some(answering(base)),
    }
}

/// Every message with fields is announced, and behind that a review is asked for exactly
/// if the warm-up is over and the result is marked for review, whether it is normal or an
/// anomaly.  The request tells the message, the hypotheses, the confidence and the
/// threshold.  Nothing else is published.
pub proof fn lemma_review_requests(
    subject: Seq<char>,
    body: Seq<u8>,
    world: World,
    around: Surroundings,
)
    requires
        !is_reply(subject),
        fields_of(body).len() > 0,
    ensures
        ({
            let fields = fields_of(body);
            let before = counter(world.store.get(count_key(subject)));
            let r = message_outcome(
                world.store,
                subject,
                fields,
                bundle_of(fields),
                around.exponential,
            ).0;
            let after = handling_outcome(world, subject, body, around).1.published;
            let first = world.published.push(told(subject, (around.result_json)(r)));
            let alert = HitlAlertView {
                subject,
                payload: lossy_text(body),
                candidates: r.solutions,
                message: "Classifier confidence "@ + two_decimals(r.confidence)
                    + " is below threshold 0.70; human review requested."@,
            };
            &&& before >= MIN_SAMPLES && r.hitl_required ==> after == first.push(
                asked(leaf(subject), (around.alert_json)(alert)),
            )
            &&& !(before >= MIN_SAMPLES && r.hitl_required) ==> after == first
            &&& before < MIN_SAMPLES ==> !r.hitl_required
        }),
{
    let fields = fields_of(body);
    let bundle = bundle_of(fields);
    let r = message_outcome(world.store, subject, fields, bundle, around.exponential).0;
    lemma_warm_up(world.store, subject, fields, bundle, around.exponential);
    lemma_labels_differ();
    lemma_threshold_text();
    reveal_strlit(" is below threshold ");
    reveal_strlit("0.70");
    reveal_strlit("; human review requested.");
    reveal_strlit(" is below threshold 0.70; human review requested.");
    let tail = " is below threshold "@ + "0.70"@ + "; human review requested."@;
    assert(tail =~= " is below threshold 0.70; human review requested."@);
    assert("pattern.alert.human."@ + leaf(subject) + ".reply"@ == answering(leaf(subject)));
}

/// After the warm-up, a confidence or a temporal confidence below 0.70 always leads to two
/// publications, whatever the classification; while the temporal layer warms up, nothing
/// else does.
pub proof fn lemma_doubtful_messages(
    subject: Seq<char>,
    body: Seq<u8>,
    world: World,
    around: Surroundings,
)
    requires
        !is_reply(subject),
        fields_of(body).len() > 0,
        counter(world.store.get(count_key(subject))) >= MIN_SAMPLES,
    ensures
        ({
            let fields = fields_of(body);
            let r = message_outcome(
                world.store,
                subject,
                fields,
                bundle_of(fields),
                around.exponential,
            ).0;
            let threshold = Single { bits: HITL_THRESHOLD };
            let after = handling_outcome(world, subject, body, around).1.published.len();
            let before = world.published.len();
            &&& after == before + 1 || after == before + 2
            &&& less(r.confidence, threshold) ==> after == before + 2
            &&& r.temporal_confidence matches Some(c) ==> less(c, threshold) ==> after == before + 2
            &&& r.temporal_confidence is None ==> (after == before + 2 <==> less(
                r.confidence,
                threshold,
            ))
        }),
{
    let fields = fields_of(body);
    lemma_review_requests(subject, body, world, around);
    lemma_message_review(
        world.store,
        subject,
        fields,
        bundle_of(fields),
        around.exponential,
    );
}

/// A message without fields is announced as skipped, and nobody is asked about it; a body
/// that is refused is not announced.
pub proof fn lemma_skipped_messages(
    subject: Seq<char>,
    body: Seq<u8>,
    world: World,
    around: Surroundings,
)
    requires
        !is_reply(subject),
        fields_of(body).len() == 0,
    ensures
        ({
            let outcome = handling_outcome(world, subject, body, around);
            match json_members(body) {
                Ok(Some(_)) => outcome.0 is Ok && outcome.1.store == world.store
                    && outcome.1.published == world.published.push(
                    told(subject, (around.result_json)(skipped_result(subject))),
                ),
                Ok(None) => outcome == (
                    Err::<(), Seq<char>>("body is not a JSON object"@),
                    world,
                ),
                Err(text) => outcome == (Err::<(), Seq<char>>("JSON parse error: "@ + text), world),
            }
        }),
{
}

/// The fields of a message are its members, in order and under their names, each the vector
/// of its name bound to that of its text.
pub proof fn lemma_field_names(body: Seq<u8>)
    ensures
        match json_members(body) {
            Ok(Some(m)) => {
                &&& fields_of(body).len() == m.len()
                &&& forall|i: int|
                    0 <= i < m.len() ==> (#[trigger] fields_of(body)[i]) == (
                        m[i].0,
                        bound(encoded(encode_utf8(m[i].0)), encoded(encode_utf8(m[i].1))),
                    )
            },
            _ => fields_of(body).len() == 0,
        },
{
}

/// A reply is never announced.  One that can be read adds one to the message counter of
/// the stream that it belongs to; one that cannot changes nothing.
pub proof fn lemma_replies(subject: Seq<char>, body: Seq<u8>, world: World, around: Surroundings)
    requires
        is_reply(subject),
    ensures
        ({
            let key = count_key(reply_base(subject));
            let outcome = handling_outcome(world, subject, body, around);
            &&& outcome.0 is Ok
            &&& outcome.1.published == world.published
            &&& !(around.readable)(body) ==> outcome.1 == world
            &&& (around.readable)(body) ==> outcome.1.store.remove(key) == world.store.remove(key)
            &&& (around.readable)(body) && counter(world.store.get(key)) < u64::MAX ==> counter(
                outcome.1.store.get(key),
            ) == counter(world.store.get(key)) + 1
        }),
{
    let key = count_key(reply_base(subject));
    let n = incremented(counter(world.store.get(key)));
    let outcome = handling_outcome(world, subject, body, around);
    lemma_counter_round_trip(n);
    if (around.readable)(body) {
        assert(outcome.1.store.remove(key) =~= world.store.remove(key));
    }
}

}
