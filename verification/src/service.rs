//! What handling a message comes to in reliable surroundings.
//!
//! The store answers faithfully, what is to be published is published, and values
//! are written as JSON by given functions.

use crate::classify::{
    count_key, incremented, skipped_result, ClassifyResultView, MessageRunView, MessageStageView,
};
use crate::codec::{counter, le_bytes, lemma_counter_round_trip};
use crate::effects::{
    lemma_message_done, lemma_message_outcome, message_length, message_outcome, message_steps,
    performed, Store,
};
use crate::encode::{encoding_outcome, field_vectors, fields_of, json_members, superposition};
use crate::handler::{
    alert_for, alert_subject, classified_subject, is_reply, leaf, lemma_reply_returns, needs_review,
    reply_base, reply_subject, HandlerRunView, HandlerStageView, HitlAlertView,
    OutgoingView, ReplyRunView, RequestView, ResponseView,
};
use crate::single::Single;
use crate::stats::MIN_SAMPLES;
use crate::streams::{
    lemma_message_counts, lemma_subject_keys, lemma_subjects_apart, lemma_warm_up,
};
use vstd::prelude::*;

verus! {

/// What the surroundings compute.
pub struct Surroundings {
    /// Exponentials.
    pub exponential: spec_fn(Single) -> Single,
    /// JSON texts of classifications.
    pub result_json: spec_fn(ClassifyResultView) -> Seq<char>,
    /// JSON texts of review requests.
    pub alert_json: spec_fn(HitlAlertView) -> Seq<char>,
    /// Which bodies can be read as replies.
    pub readable: spec_fn(Seq<u8>) -> bool,
}

/// What handling a message changes: the store and the published messages.
pub struct World {
    pub store: Store,
    pub published: Seq<OutgoingView>,
}

impl World {
    pub open spec fn publish(self, message: OutgoingView) -> World {
        World { published: self.published.push(message), ..self }
    }

    pub open spec fn with_store(self, store: Store) -> World {
        World { store, ..self }
    }
}

/// Serves a request for the message `body`: the response and the world after it.
pub open spec fn served(
    request: RequestView,
    body: Seq<u8>,
    world: World,
    around: Surroundings,
) -> (ResponseView, World) {
    match request {
        RequestView::Open(_) => (ResponseView::Opened(Ok(())), world),
        RequestView::ReadReply => (ResponseView::Reply((around.readable)(body)), world),
        RequestView::Step(action) => {
            let p = performed(action, world.store, around.exponential);
            (ResponseView::Step(p.0), world.with_store(p.1))
        },
        RequestView::EncodeResult(result) => (
            ResponseView::Encoded(Ok((around.result_json)(result))),
            world,
        ),
        RequestView::EncodeAlert(alert) => (
            ResponseView::Encoded(Ok((around.alert_json)(alert))),
            world,
        ),
        RequestView::Publish(message) => (ResponseView::Published(Ok(())), world.publish(message)),
        RequestView::Finish => (ResponseView::Published(Ok(())), world),
    }
}

/// A handler run and the world after `k` steps.
#[verifier::opaque]
pub open spec fn handler_steps(
    run: HandlerRunView,
    world: World,
    around: Surroundings,
    k: nat,
) -> (HandlerRunView, World)
    decreases k,
{
    if k == 0 {
        (run, world)
    } else {
        let p = served(run.request(), run.body, world, around);
        handler_steps(run.next(p.0), p.1, around, (k - 1) as nat)
    }
}

/// The world once a classification is published, and with it the review request
/// when a person has to look at the message.
pub open spec fn announced(
    world: World,
    subject: Seq<char>,
    body: Seq<u8>,
    result: ClassifyResultView,
    around: Surroundings,
) -> World {
    let told = world.publish(
        OutgoingView {
            subject: classified_subject(subject),
            body: (around.result_json)(result),
            reply_to: None,
        },
    );
    if needs_review(result) {
        told.publish(
            OutgoingView {
                subject: alert_subject(subject),
                body: (around.alert_json)(alert_for(subject, body, result)),
                reply_to: Some(reply_subject(subject)),
            },
        )
    } else {
        told
    }
}

/// The store once a confirmed reply counts as one more message of `base`.
pub open spec fn with_reply(store: Store, base: Seq<char>) -> Store {
    let n = incremented(counter(store.get(count_key(base))));
    store.insert(count_key(base), le_bytes(n as nat, 8))
}

/// What handling a message comes to: its outcome and the world.
pub open spec fn handling_outcome(
    world: World,
    subject: Seq<char>,
    body: Seq<u8>,
    around: Surroundings,
) -> (Result<(), Seq<char>>, World) {
    if is_reply(subject) {
        if (around.readable)(body) {
            (Ok(()), world.with_store(with_reply(world.store, reply_base(subject))))
        } else {
            (Ok(()), world)
        }
    } else {
        match encoding_outcome(json_members(body)) {
            Err(text) => (Err(text), world),
            Ok(fields) => if fields.len() == 0 {
                (Ok(()), announced(world, subject, body, skipped_result(subject), around))
            } else {
                let m = message_outcome(
                    world.store,
                    subject,
                    fields,
                    superposition(field_vectors(fields))->Some_0,
                    around.exponential,
                );
                (Ok(()), announced(world.with_store(m.1), subject, body, m.0, around))
            },
        }
    }
}

/// Number of steps within which the handling of a message with `fields` fields is
/// over.
pub open spec fn handling_length(fields: nat) -> nat {
    5 + message_length(fields)
}

proof fn lemma_handler_steps_add(
    run: HandlerRunView,
    world: World,
    around: Surroundings,
    a: nat,
    b: nat,
)
    ensures
        ({
            let p = handler_steps(run, world, around, a);
            handler_steps(run, world, around, a + b) == handler_steps(p.0, p.1, around, b)
        }),
    decreases a,
{
    reveal_with_fuel(handler_steps, 2);
    if a > 0 {
        let p = served(run.request(), run.body, world, around);
        lemma_handler_steps_add(run.next(p.0), p.1, around, (a - 1) as nat, b);
    }
}

proof fn lemma_handler_done(run: HandlerRunView, world: World, around: Surroundings, k: nat)
    requires
        run.stage is Done,
    ensures
        handler_steps(run, world, around, k) == (run, world),
    decreases k,
{
    reveal_with_fuel(handler_steps, 2);
    if k > 0 {
        lemma_handler_done(run, world, around, (k - 1) as nat);
    }
}

/// Announcing a result takes at most four steps.
proof fn lemma_announced(
    run: HandlerRunView,
    world: World,
    around: Surroundings,
    result: ClassifyResultView,
    k: nat,
)
    requires
        run.stage == (HandlerStageView::Encode { result }),
        k >= 4,
    ensures
        handler_steps(run, world, around, k) == (
            run.done(Ok(())),
            announced(world, run.subject, run.body, result, around),
        ),
{
    let four = handler_steps(run, world, around, 4);
    assert(four == (
        run.done(Ok(())),
        announced(world, run.subject, run.body, result, around),
    )) by {
        reveal_with_fuel(handler_steps, 5);
    }
    lemma_handler_steps_add(run, world, around, 4, (k - 4) as nat);
    lemma_handler_done(four.0, four.1, around, (k - 4) as nat);
}

/// While its classification goes on, a handler run goes along; once that is over,
/// it announces the result.
proof fn lemma_handler_classifies(
    run: HandlerRunView,
    message: MessageRunView,
    world: World,
    around: Surroundings,
    result: ClassifyResultView,
    k: nat,
)
    requires
        message_steps(message, world.store, around.exponential, k).0.stage
            == (MessageStageView::Done { outcome: Ok(result) }),
    ensures
        handler_steps(run.classified(message), world, around, k + 4) == (
            run.done(Ok(())),
            announced(
                world.with_store(message_steps(message, world.store, around.exponential, k).1),
                run.subject,
                run.body,
                result,
                around,
            ),
        ),
    decreases k,
{
    reveal_with_fuel(handler_steps, 2);
    reveal_with_fuel(message_steps, 2);
    let now = run.classified(message);
    if message.stage is Done {
        lemma_message_done(message, world.store, around.exponential, k);
        lemma_announced(now, world, around, result, k + 4);
    } else {
        let p = performed(message.action(), world.store, around.exponential);
        let further = message.next(p.0);
        let after = world.with_store(p.1);
        lemma_handler_classifies(run, further, after, around, result, (k - 1) as nat);
        assert(now.next(ResponseView::Step(p.0)) == run.classified(further));
    }
}

proof fn lemma_reply_outcome(
    subject: Seq<char>,
    body: Seq<u8>,
    world: World,
    around: Surroundings,
    k: nat,
)
    requires
        is_reply(subject),
        k >= 4,
    ensures
        ({
            let run = HandlerRunView::start(subject, body);
            let outcome = handling_outcome(world, subject, body, around);
            handler_steps(run, world, around, k) == (run.done(outcome.0), outcome.1)
        }),
{
    let run = HandlerRunView::start(subject, body);
    let base = reply_base(subject);
    let readable = (around.readable)(body);
    let second = run.replied(ReplyRunView::start(base, readable));
    let outcome = handling_outcome(world, subject, body, around);
    assert(handler_steps(run, world, around, 2) == (second, world)) by {
        reveal_with_fuel(handler_steps, 3);
    }
    lemma_handler_steps_add(run, world, around, 2, (k - 2) as nat);
    if readable {
        assert(handler_steps(second, world, around, 2) == (run.done(Ok(())), outcome.1)) by {
            reveal_with_fuel(handler_steps, 3);
        }
        lemma_handler_steps_add(second, world, around, 2, (k - 4) as nat);
        lemma_handler_done(run.done(Ok(())), outcome.1, around, (k - 4) as nat);
    } else {
        lemma_handler_done(second, world, around, (k - 2) as nat);
    }
}

proof fn lemma_stream_outcome(
    subject: Seq<char>,
    body: Seq<u8>,
    world: World,
    around: Surroundings,
    k: nat,
)
    requires
        !is_reply(subject),
        k == handling_length(fields_of(body).len()),
    ensures
        ({
            let run = HandlerRunView::start(subject, body);
            let outcome = handling_outcome(world, subject, body, around);
            handler_steps(run, world, around, k) == (run.done(outcome.0), outcome.1)
        }),
{
    let run = HandlerRunView::start(subject, body);
    let encoded = encoding_outcome(json_members(body));
    let message = MessageRunView::begin(subject, encoded);
    let first = run.classified(message);
    assert(handler_steps(run, world, around, 1) == (first, world)) by {
        reveal_with_fuel(handler_steps, 2);
    }
    lemma_handler_steps_add(run, world, around, 1, (k - 1) as nat);
    match encoded {
        Err(_) => {
            lemma_handler_done(first, world, around, (k - 1) as nat);
        },
        Ok(f) => {
            if f.len() == 0 {
                lemma_announced(first, world, around, skipped_result(subject), (k - 1) as nat);
            } else {
                let length = message_length(f.len());
                lemma_message_outcome(subject, f, world.store, around.exponential);
                let m = message_outcome(
                    world.store,
                    subject,
                    f,
                    superposition(field_vectors(f))->Some_0,
                    around.exponential,
                );
                lemma_handler_classifies(run, message, world, around, m.0, length);
            }
        },
    }
}

/// A handler run ends with the outcome and the world of [`handling_outcome`].
pub proof fn lemma_handling_outcome(
    subject: Seq<char>,
    body: Seq<u8>,
    world: World,
    around: Surroundings,
)
    ensures
        ({
            let outcome = handling_outcome(world, subject, body, around);
            handler_steps(
                HandlerRunView::start(subject, body),
                world,
                around,
                handling_length(fields_of(body).len()),
            ) == (
                HandlerRunView {
                    subject,
                    body,
                    stage: HandlerStageView::Done { outcome: outcome.0 },
                },
                outcome.1,
            )
        }),
{
    let k = handling_length(fields_of(body).len());
    if is_reply(subject) {
        lemma_reply_outcome(subject, body, world, around, k);
    } else {
        lemma_stream_outcome(subject, body, world, around, k);
    }
}

/// A readable reply to a review request counts as one more message of the stream
/// that the request named, and changes nothing else.
pub proof fn lemma_reply_counts(
    subject: Seq<char>,
    body: Seq<u8>,
    world: World,
    around: Surroundings,
)
    requires
        (around.readable)(body),
    ensures
        ({
            let key = count_key(leaf(subject));
            let outcome = handling_outcome(world, reply_subject(subject), body, around);
            &&& outcome.0 is Ok
            &&& counter(outcome.1.store.get(key)) == incremented(counter(world.store.get(key)))
            &&& outcome.1.store.remove(key) == world.store.remove(key)
            &&& outcome.1.published == world.published
        }),
{
    let key = count_key(leaf(subject));
    lemma_reply_returns(subject);
    lemma_counter_round_trip(incremented(counter(world.store.get(key))));
    let outcome = handling_outcome(world, reply_subject(subject), body, around);
    assert(outcome.1.store.remove(key) =~= world.store.remove(key));
}

/// Whether an input is a message of `subject` that has fields.
pub open spec fn is_message_of(input: (Seq<char>, Seq<u8>), subject: Seq<char>) -> bool {
    !is_reply(input.0) && input.0 == subject && fields_of(input.1).len() > 0
}

/// Whether an input is a confirmed reply for `subject`.
pub open spec fn is_reply_for(
    input: (Seq<char>, Seq<u8>),
    subject: Seq<char>,
    around: Surroundings,
) -> bool {
    is_reply(input.0) && reply_base(input.0) == subject && (around.readable)(input.1)
}

/// Number of messages of `subject` with fields.
pub open spec fn messages_in(inputs: Seq<(Seq<char>, Seq<u8>)>, subject: Seq<char>) -> nat
    decreases inputs.len(),
{
    if inputs.len() == 0 {
        0
    } else {
        messages_in(inputs.drop_last(), subject) + if is_message_of(inputs.last(), subject) {
            1nat
        } else {
            0
        }
    }
}

/// Number of confirmed replies for `subject`.
pub open spec fn replies_in(
    inputs: Seq<(Seq<char>, Seq<u8>)>,
    subject: Seq<char>,
    around: Surroundings,
) -> nat
    decreases inputs.len(),
{
    if inputs.len() == 0 {
        0
    } else {
        replies_in(inputs.drop_last(), subject, around) + if is_reply_for(
            inputs.last(),
            subject,
            around,
        ) {
            1nat
        } else {
            0
        }
    }
}

/// The world after inputs, each a subject and a body, have been handled in turn.
pub open spec fn after_inputs(
    world: World,
    inputs: Seq<(Seq<char>, Seq<u8>)>,
    around: Surroundings,
) -> World
    decreases inputs.len(),
{
    if inputs.len() == 0 {
        world
    } else {
        let before = after_inputs(world, inputs.drop_last(), around);
        handling_outcome(before, inputs.last().0, inputs.last().1, around).1
    }
}

/// What one input does to the counter of a subject.
proof fn lemma_input_counts(
    world: World,
    input: (Seq<char>, Seq<u8>),
    subject: Seq<char>,
    around: Surroundings,
)
    ensures
        ({
            let before = counter(world.store.get(count_key(subject)));
            let after = handling_outcome(world, input.0, input.1, around).1;
            counter(after.store.get(count_key(subject))) == if is_message_of(input, subject)
                || is_reply_for(input, subject, around) {
                incremented(before)
            } else {
                before
            }
        }),
{
    let store = world.store;
    if is_reply(input.0) {
        let base = reply_base(input.0);
        lemma_counter_round_trip(incremented(counter(store.get(count_key(base)))));
        if base != subject {
            lemma_subject_keys(base, subject);
        }
    } else {
        let fields = fields_of(input.1);
        if fields.len() > 0 {
            let bundle = superposition(field_vectors(fields))->Some_0;
            if input.0 == subject {
                lemma_message_counts(store, subject, fields, bundle, around.exponential);
            } else {
                lemma_subjects_apart(
                    store,
                    input.0,
                    fields,
                    bundle,
                    around.exponential,
                    subject,
                    count_key(subject),
                );
            }
        }
    }
}

/// Whatever inputs are handled, the counter of a subject goes up by one with each of
/// its messages that has fields and each confirmed reply for it, and with nothing
/// else: refused and empty bodies, unreadable replies and other subjects do not
/// count.
pub proof fn lemma_inputs_count(
    world: World,
    inputs: Seq<(Seq<char>, Seq<u8>)>,
    subject: Seq<char>,
    around: Surroundings,
)
    requires
        counter(world.store.get(count_key(subject))) + messages_in(inputs, subject) + replies_in(
            inputs,
            subject,
            around,
        ) <= u64::MAX,
    ensures
        counter(after_inputs(world, inputs, around).store.get(count_key(subject))) == counter(
            world.store.get(count_key(subject)),
        ) + messages_in(inputs, subject) + replies_in(inputs, subject, around),
    decreases inputs.len(),
{
    if inputs.len() > 0 {
        let init = inputs.drop_last();
        lemma_inputs_count(world, init, subject, around);
        lemma_input_counts(after_inputs(world, init, around), inputs.last(), subject, around);
    }
}

/// On a fresh subject, a message with fields is reported with the number of earlier
/// messages and confirmed replies and itself, and the counter tells the same.
pub proof fn lemma_message_number(
    world: World,
    inputs: Seq<(Seq<char>, Seq<u8>)>,
    subject: Seq<char>,
    body: Seq<u8>,
    around: Surroundings,
)
    requires
        !world.store.contains_key(count_key(subject)),
        messages_in(inputs, subject) + replies_in(inputs, subject, around) < u64::MAX,
        is_message_of((subject, body), subject),
    ensures
        ({
            let number = messages_in(inputs, subject) + replies_in(inputs, subject, around) + 1;
            let before = after_inputs(world, inputs, around);
            let fields = fields_of(body);
            let result = message_outcome(
                before.store,
                subject,
                fields,
                superposition(field_vectors(fields))->Some_0,
                around.exponential,
            ).0;
            let outcome = handling_outcome(before, subject, body, around);
            &&& outcome.0 is Ok
            &&& result.message_count == number
            &&& result.classification == "WARMING_UP"@ <==> number <= MIN_SAMPLES
            &&& outcome.1.published[before.published.len() as int].body == (around.result_json)(
                result,
            )
            &&& counter(outcome.1.store.get(count_key(subject))) == number
        }),
{
    let before = after_inputs(world, inputs, around);
    let fields = fields_of(body);
    let bundle = superposition(field_vectors(fields))->Some_0;
    lemma_inputs_count(world, inputs, subject, around);
    lemma_message_counts(before.store, subject, fields, bundle, around.exponential);
    lemma_warm_up(before.store, subject, fields, bundle, around.exponential);
}

/// A message that is no reply and has fields is announced exactly once, and a
/// review is asked for exactly when its result wants one, never during the warm-up.
pub proof fn lemma_announcement(
    subject: Seq<char>,
    body: Seq<u8>,
    world: World,
    around: Surroundings,
)
    requires
        !is_reply(subject),
        fields_of(body).len() > 0,
    ensures
        ({
            let fields = fields_of(body);
            let result = message_outcome(
                world.store,
                subject,
                fields,
                superposition(field_vectors(fields))->Some_0,
                around.exponential,
            ).0;
            let n = incremented(counter(world.store.get(count_key(subject))));
            let after = handling_outcome(world, subject, body, around).1.published;
            let start = world.published.len() as int;
            &&& after.take(start) == world.published
            &&& after.len() == start + if needs_review(result) {
                2int
            } else {
                1
            }
            &&& after[start].subject == classified_subject(subject)
            &&& after[start].body == (around.result_json)(result)
            &&& needs_review(result) ==> after[start + 1].subject == alert_subject(subject)
                && after[start + 1].reply_to == Some(reply_subject(subject))
            &&& n <= MIN_SAMPLES ==> !needs_review(result)
        }),
{
    let fields = fields_of(body);
    let bundle = superposition(field_vectors(fields))->Some_0;
    lemma_warm_up(world.store, subject, fields, bundle, around.exponential);
    let after = handling_outcome(world, subject, body, around).1.published;
    assert(after.take(world.published.len() as int) =~= world.published);
}

/// A message without fields is announced as skipped and changes nothing in the
/// store; a body that is no JSON object is refused with the text of the error, and
/// nothing is changed or announced.
pub proof fn lemma_refusals(subject: Seq<char>, body: Seq<u8>, world: World, around: Surroundings)
    requires
        !is_reply(subject),
    ensures
        ({
            let outcome = handling_outcome(world, subject, body, around);
            match encoding_outcome(json_members(body)) {
                Err(text) => outcome == (Err::<(), Seq<char>>(text), world),
                Ok(fields) => fields.len() == 0 ==> outcome.0 is Ok && outcome.1.store
                    == world.store && outcome.1.published.len() == world.published.len() + 1
                    && outcome.1.published.last().body == (around.result_json)(
                    skipped_result(subject),
                ),
            }
        }),
{
}

}
