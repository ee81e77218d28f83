//! What runs come to against a reliable store.
//!
//! A run goes step by step: it asks for an action and goes on with the answer.
//! Here the surroundings answer faithfully out of a map of keys to bytes, and each
//! run is shown to end with the result and the store that a direct description
//! gives.

use crate::classify::{
    conclusion, count_key, ema_key, field_result, incremented, m2_key, mean_score_key,
    mean_vec_key, score_against, scored, signal_of, warm_up_result, ClassifyResultView,
    MessageRunView, MessageStageView, Signal,
};
use crate::codec::{
    counter, drift_record, history, le_bytes, number, vector, vector_record,
};
use crate::encode::{field_vectors, running, superposition};
use crate::protocol::{ActionView, AnswerView};
use crate::single::Single;
use crate::stats::{decay_exponent, MIN_SAMPLES, WINDOW_N};
use crate::temporal::{
    advanced, displaced_slot, drift_between, drift_result, extended, grown, head_key, history_key,
    read_slot, ring_slot, size_key, slot_key, warming_result, window_slot, with_vector,
    TemporalResultView, TemporalRunView, TemporalStageView, WARM_SIZE,
};
use vstd::prelude::*;

verus! {

/// Contents of the key-value store.
pub type Store = Map<Seq<char>, Seq<u8>>;

/// Performs an action: the answer and the store after it.  `exponential` computes
/// exponentials.
pub open spec fn performed(
    action: ActionView,
    store: Store,
    exponential: spec_fn(Single) -> Single,
) -> (AnswerView, Store) {
    match action {
        ActionView::Load(key) => (AnswerView::Loaded(store.get(key)), store),
        ActionView::Save(key, bytes) => (AnswerView::Saved(Ok(())), store.insert(key, bytes)),
        ActionView::Exponential(x) => (AnswerView::Exponential(exponential(x)), store),
        ActionView::Done => (AnswerView::Saved(Ok(())), store),
    }
}

/// A temporal run and the store after `k` steps.
#[verifier::opaque]
pub open spec fn temporal_steps(
    run: TemporalRunView,
    store: Store,
    exponential: spec_fn(Single) -> Single,
    k: nat,
) -> (TemporalRunView, Store)
    decreases k,
{
    if k == 0 {
        (run, store)
    } else {
        let p = performed(run.action(), store, exponential);
        temporal_steps(run.next(p.0), p.1, exponential, (k - 1) as nat)
    }
}

/// The store once what ring slot `slot` holds, if anything, has moved on.
pub open spec fn with_displaced(store: Store, subject: Seq<char>, slot: nat) -> Store {
    match store.get(slot_key(subject, slot)) {
        Some(bytes) => store.insert(slot_key(subject, displaced_slot(slot)), bytes),
        None => store,
    }
}

/// The store once a new bundle is in its ring slot.
pub open spec fn with_bundle(
    store: Store,
    subject: Seq<char>,
    bundle: (Seq<usize>, Seq<usize>),
) -> Store {
    let head = counter(store.get(head_key(subject)));
    let size = counter(store.get(size_key(subject)));
    let slot = ring_slot(head);
    with_displaced(store, subject, slot).insert(
        slot_key(subject, slot),
        vector_record(bundle),
    ).insert(head_key(subject), le_bytes(advanced(head) as nat, 8)).insert(
        size_key(subject),
        le_bytes(grown(size) as nat, 8),
    )
}

/// The vectors of the first `k` slots of the newest window, from the oldest on.
pub open spec fn window_now(store: Store, subject: Seq<char>, head: u64, k: nat) -> Seq<
    (Seq<usize>, Seq<usize>),
>
    decreases k,
{
    if k == 0 {
        Seq::empty()
    } else {
        with_vector(
            window_now(store, subject, head, (k - 1) as nat),
            vector(store.get(slot_key(subject, window_slot(head, (k - 1) as nat)))),
        )
    }
}

/// The vectors of the first `k` slots of the window before, from the oldest on.
pub open spec fn window_prev(store: Store, subject: Seq<char>, head: u64, k: nat) -> Seq<
    (Seq<usize>, Seq<usize>),
>
    decreases k,
{
    if k == 0 {
        Seq::empty()
    } else {
        with_vector(
            window_prev(store, subject, head, (k - 1) as nat),
            vector(
                store.get(
                    slot_key(subject, displaced_slot(window_slot(head, (k - 1) as nat))),
                ),
            ),
        )
    }
}

/// Drift between the two windows before the write pointer `head`.
pub open spec fn stored_drift(store: Store, subject: Seq<char>, head: u64) -> Single {
    drift_between(
        window_now(store, subject, head, WINDOW_N as nat),
        window_prev(store, subject, head, WINDOW_N as nat),
    )
}

/// What the temporal layer comes to upon a new bundle: its result and the store.
#[verifier::opaque]
pub open spec fn temporal_outcome(
    store: Store,
    subject: Seq<char>,
    bundle: (Seq<usize>, Seq<usize>),
) -> (TemporalResultView, Store) {
    let head = counter(store.get(head_key(subject)));
    let size = counter(store.get(size_key(subject)));
    let after = with_bundle(store, subject, bundle);
    if grown(size) < WARM_SIZE {
        (warming_result(), after)
    } else {
        let drift = stored_drift(after, subject, advanced(head));
        let values = extended(history(after.get(history_key(subject))), drift);
        (
            drift_result(drift, values),
            after.insert(history_key(subject), drift_record(values)),
        )
    }
}

/// Number of steps within which a temporal run is over.
pub open spec fn temporal_length() -> nat {
    (9 + 2 * WINDOW_N) as nat
}

proof fn lemma_temporal_steps_add(
    run: TemporalRunView,
    store: Store,
    exponential: spec_fn(Single) -> Single,
    a: nat,
    b: nat,
)
    ensures
        ({
            let p = temporal_steps(run, store, exponential, a);
            temporal_steps(run, store, exponential, a + b) == temporal_steps(
                p.0,
                p.1,
                exponential,
                b,
            )
        }),
    decreases a,
{
    reveal_with_fuel(temporal_steps, 2);
    if a > 0 {
        let p = performed(run.action(), store, exponential);
        lemma_temporal_steps_add(run.next(p.0), p.1, exponential, (a - 1) as nat, b);
    }
}

proof fn lemma_temporal_done(
    run: TemporalRunView,
    store: Store,
    exponential: spec_fn(Single) -> Single,
    k: nat,
)
    requires
        run.stage is Done,
    ensures
        temporal_steps(run, store, exponential, k) == (run, store),
    decreases k,
{
    reveal_with_fuel(temporal_steps, 2);
    if k > 0 {
        lemma_temporal_done(run, store, exponential, (k - 1) as nat);
    }
}

/// How many of the first `i` slots that are read belong to the newest window.
spec fn read_now(i: nat) -> nat {
    if i < WINDOW_N {
        i
    } else {
        WINDOW_N as nat
    }
}

/// How many of the first `i` slots that are read belong to the window before.
spec fn read_prev(i: nat) -> nat {
    if i < WINDOW_N {
        0
    } else {
        (i - WINDOW_N) as nat
    }
}

/// Reading the windows from slot `i` on.
proof fn lemma_temporal_windows(
    run: TemporalRunView,
    store: Store,
    exponential: spec_fn(Single) -> Single,
    head: u64,
    i: nat,
)
    requires
        i < 2 * WINDOW_N,
        run.stage == (TemporalStageView::Window {
            head,
            index: i,
            now: window_now(store, run.subject, head, read_now(i)),
            prev: window_prev(store, run.subject, head, read_prev(i)),
        }),
    ensures
        temporal_steps(run, store, exponential, (2 * WINDOW_N - i) as nat) == (
            run.at(TemporalStageView::History { drift: stored_drift(store, run.subject, head) }),
            store,
        ),
    decreases 2 * WINDOW_N - i,
{
    let one = run.next(AnswerView::Loaded(store.get(slot_key(run.subject, read_slot(head, i)))));
    reveal_with_fuel(temporal_steps, 2);
    assert(temporal_steps(run, store, exponential, 1) == (one, store));
    lemma_temporal_steps_add(run, store, exponential, 1, (2 * WINDOW_N - i - 1) as nat);
    if i + 1 < 2 * WINDOW_N {
        lemma_temporal_windows(one, store, exponential, head, i + 1);
    }
}

/// A temporal run ends with the result and the store of [`temporal_outcome`].
pub proof fn lemma_temporal_outcome(
    subject: Seq<char>,
    bundle: (Seq<usize>, Seq<usize>),
    store: Store,
    exponential: spec_fn(Single) -> Single,
)
    ensures
        ({
            let outcome = temporal_outcome(store, subject, bundle);
            temporal_steps(
                TemporalRunView::start(subject, bundle),
                store,
                exponential,
                temporal_length(),
            ) == (
                TemporalRunView {
                    subject,
                    bundle,
                    stage: TemporalStageView::Done { result: outcome.0 },
                },
                outcome.1,
            )
        }),
{
    reveal(temporal_outcome);
    let run = TemporalRunView::start(subject, bundle);
    let head = counter(store.get(head_key(subject)));
    let size = counter(store.get(size_key(subject)));
    let after = with_bundle(store, subject, bundle);
    let fed = lemma_temporal_fed(subject, bundle, store, exponential);
    let r = temporal_steps(run, store, exponential, fed).0;
    lemma_temporal_steps_add(run, store, exponential, fed, (temporal_length() - fed) as nat);
    if grown(size) < WARM_SIZE {
        lemma_temporal_done(r, after, exponential, (temporal_length() - fed) as nat);
    } else {
        let h = advanced(head);
        let windows = 2 * WINDOW_N as nat;
        let end = temporal_outcome(store, subject, bundle);
        lemma_temporal_windows(r, after, exponential, h, 0);
        let drift = stored_drift(after, subject, h);
        let read = r.at(TemporalStageView::History { drift });
        reveal_with_fuel(temporal_steps, 3);
        let done = temporal_steps(read, after, exponential, 2);
        assert(done.0.stage == (TemporalStageView::Done { result: end.0 }));
        assert(done.1 == end.1);
        lemma_temporal_steps_add(
            r,
            after,
            exponential,
            windows,
            (temporal_length() - fed - windows) as nat,
        );
        lemma_temporal_steps_add(
            read,
            after,
            exponential,
            2,
            (temporal_length() - fed - windows - 2) as nat,
        );
        lemma_temporal_done(
            done.0,
            done.1,
            exponential,
            (temporal_length() - fed - windows - 2) as nat,
        );
    }
}

/// A temporal run has taken in its bundle within seven steps.
proof fn lemma_temporal_fed(
    subject: Seq<char>,
    bundle: (Seq<usize>, Seq<usize>),
    store: Store,
    exponential: spec_fn(Single) -> Single,
) -> (k: nat)
    ensures
        k <= 7,
        ({
            let head = counter(store.get(head_key(subject)));
            let size = counter(store.get(size_key(subject)));
            let run = TemporalRunView::start(subject, bundle);
            temporal_steps(run, store, exponential, k) == (
                run.at(
                    if grown(size) < WARM_SIZE {
                        TemporalStageView::Done { result: warming_result() }
                    } else {
                        TemporalStageView::Window {
                            head: advanced(head),
                            index: 0,
                            now: Seq::empty(),
                            prev: Seq::empty(),
                        }
                    },
                ),
                with_bundle(store, subject, bundle),
            )
        }),
{
    let head = counter(store.get(head_key(subject)));
    reveal_with_fuel(temporal_steps, 8);
    if store.get(slot_key(subject, ring_slot(head))) is Some {
        7
    } else {
        6
    }
}

/// A message run and the store after `k` steps.
#[verifier::opaque]
pub open spec fn message_steps(
    run: MessageRunView,
    store: Store,
    exponential: spec_fn(Single) -> Single,
    k: nat,
) -> (MessageRunView, Store)
    decreases k,
{
    if k == 0 {
        (run, store)
    } else {
        let p = performed(run.action(), store, exponential);
        message_steps(run.next(p.0), p.1, exponential, (k - 1) as nat)
    }
}

/// The store once the running vector of the mean bundle has taken in a bundle.
pub open spec fn with_mean(
    store: Store,
    subject: Seq<char>,
    bundle: (Seq<usize>, Seq<usize>),
) -> Store {
    let key = mean_vec_key(subject);
    store.insert(key, vector_record(running(vector(store.get(key)), bundle)))
}

/// The store once the running vectors of the first `k` fields have taken in a
/// message.
pub open spec fn with_fields(
    store: Store,
    subject: Seq<char>,
    fields: Seq<(Seq<char>, (Seq<usize>, Seq<usize>))>,
    k: nat,
) -> Store
    decreases k,
{
    if k == 0 {
        store
    } else {
        let before = with_fields(store, subject, fields, (k - 1) as nat);
        let field = fields[k - 1];
        let key = ema_key(subject, field.0);
        before.insert(key, vector_record(running(vector(before.get(key)), field.1)))
    }
}

/// The outcomes of the first `k` fields, each compared with its running vector
/// just before that takes in the message.
pub open spec fn field_outcomes(
    store: Store,
    subject: Seq<char>,
    fields: Seq<(Seq<char>, (Seq<usize>, Seq<usize>))>,
    k: nat,
) -> Seq<(Seq<char>, Single, bool)>
    decreases k,
{
    if k == 0 {
        Seq::empty()
    } else {
        let before = with_fields(store, subject, fields, (k - 1) as nat);
        let field = fields[k - 1];
        field_outcomes(store, subject, fields, (k - 1) as nat).push(
            field_result(
                field.0,
                score_against(field.1, vector(before.get(ema_key(subject, field.0)))),
            ),
        )
    }
}

/// Mean and spread of the scores and the Z-score that a message leads to.
pub open spec fn message_scores(
    store: Store,
    subject: Seq<char>,
    bundle: (Seq<usize>, Seq<usize>),
    n: u64,
) -> (Single, Single, Single) {
    scored(
        n,
        number(store.get(mean_score_key(subject))),
        number(store.get(m2_key(subject))),
        score_against(bundle, vector(store.get(mean_vec_key(subject)))),
    )
}

/// The store once the message-level statistics have taken in a message.
pub open spec fn with_statistics(
    store: Store,
    subject: Seq<char>,
    bundle: (Seq<usize>, Seq<usize>),
    n: u64,
) -> Store {
    let s = message_scores(store, subject, bundle, n);
    with_mean(store, subject, bundle).insert(
        mean_score_key(subject),
        le_bytes(s.0.bits as nat, 4),
    ).insert(m2_key(subject), le_bytes(s.1.bits as nat, 4)).insert(
        count_key(subject),
        le_bytes(n as nat, 8),
    )
}

/// What a message with fields comes to: its result and the store.
#[verifier::opaque]
pub open spec fn message_outcome(
    store: Store,
    subject: Seq<char>,
    fields: Seq<(Seq<char>, (Seq<usize>, Seq<usize>))>,
    bundle: (Seq<usize>, Seq<usize>),
    exponential: spec_fn(Single) -> Single,
) -> (ClassifyResultView, Store) {
    let n = incremented(counter(store.get(count_key(subject))));
    if n <= MIN_SAMPLES {
        let learned = with_fields(
            with_mean(store, subject, bundle),
            subject,
            fields,
            fields.len(),
        ).insert(count_key(subject), le_bytes(n as nat, 8));
        let t = temporal_outcome(learned, subject, bundle);
        (warm_up_result(subject, n, t.0), t.1)
    } else {
        let z = message_scores(store, subject, bundle, n).2;
        let signal = signal_of(z, exponential(decay_exponent(z)));
        let counted = with_statistics(store, subject, bundle, n);
        let results = field_outcomes(counted, subject, fields, fields.len());
        let learned = with_fields(counted, subject, fields, fields.len());
        let t = temporal_outcome(learned, subject, bundle);
        (conclusion(subject, n, signal, results, t.0), t.1)
    }
}

/// Number of steps within which a run for a message with `fields` fields is over.
pub open spec fn message_length(fields: nat) -> nat {
    9 + 2 * fields + temporal_length()
}

proof fn lemma_message_steps_add(
    run: MessageRunView,
    store: Store,
    exponential: spec_fn(Single) -> Single,
    a: nat,
    b: nat,
)
    ensures
        ({
            let p = message_steps(run, store, exponential, a);
            message_steps(run, store, exponential, a + b) == message_steps(
                p.0,
                p.1,
                exponential,
                b,
            )
        }),
    decreases a,
{
    reveal_with_fuel(message_steps, 2);
    if a > 0 {
        let p = performed(run.action(), store, exponential);
        lemma_message_steps_add(run.next(p.0), p.1, exponential, (a - 1) as nat, b);
    }
}

pub(crate) proof fn lemma_message_done(
    run: MessageRunView,
    store: Store,
    exponential: spec_fn(Single) -> Single,
    k: nat,
)
    requires
        run.stage is Done,
    ensures
        message_steps(run, store, exponential, k) == (run, store),
    decreases k,
{
    reveal_with_fuel(message_steps, 2);
    if k > 0 {
        lemma_message_done(run, store, exponential, (k - 1) as nat);
    }
}

/// While its temporal run goes on, a message run goes along.
#[verifier::rlimit(30)]
proof fn lemma_message_temporal(
    run: MessageRunView,
    temporal: TemporalRunView,
    store: Store,
    exponential: spec_fn(Single) -> Single,
    k: nat,
)
    requires
        match run.stage {
            MessageStageView::WarmTemporal { run: t, .. } => t == temporal,
            MessageStageView::Temporal { run: t, .. } => t == temporal,
            _ => false,
        },
        !(temporal.stage is Done),
    ensures
        ({
            let p = temporal_steps(temporal, store, exponential, k);
            message_steps(run, store, exponential, k) == (run.continued(p.0), p.1)
        }),
    decreases k,
{
    reveal_with_fuel(temporal_steps, 2);
    reveal_with_fuel(message_steps, 2);
    if k > 0 {
        let p = performed(temporal.action(), store, exponential);
        let further = temporal.next(p.0);
        assert(run.next(p.0) == run.continued(further));
        if further.stage is Done {
            lemma_temporal_done(further, p.1, exponential, (k - 1) as nat);
            lemma_message_done(run.continued(further), p.1, exponential, (k - 1) as nat);
        } else {
            lemma_message_temporal(
                run.continued(further),
                further,
                p.1,
                exponential,
                (k - 1) as nat,
            );
        }
    }
}

/// Taking in the fields from number `i` on, during the warm-up.
proof fn lemma_warm_fields(
    run: MessageRunView,
    store: Store,
    exponential: spec_fn(Single) -> Single,
    n: u64,
    i: nat,
)
    requires
        i < run.fields.len(),
        run.stage == (MessageStageView::WarmField { n, index: i }),
    ensures
        message_steps(
            run,
            with_fields(store, run.subject, run.fields, i),
            exponential,
            (2 * (run.fields.len() - i)) as nat,
        ) == (
            run.at(MessageStageView::WarmSaveCount { n }),
            with_fields(store, run.subject, run.fields, run.fields.len()),
        ),
    decreases run.fields.len() - i,
{
    let before = with_fields(store, run.subject, run.fields, i);
    let after = with_fields(store, run.subject, run.fields, i + 1);
    let count = run.fields.len();
    reveal_with_fuel(message_steps, 3);
    let two = message_steps(run, before, exponential, 2);
    assert(two.1 == after);
    lemma_message_steps_add(run, before, exponential, 2, (2 * (count - i) - 2) as nat);
    if i + 1 < count {
        lemma_warm_fields(two.0, store, exponential, n, i + 1);
    }
}

/// Comparing and taking in the fields from number `i` on.
proof fn lemma_scored_fields(
    run: MessageRunView,
    store: Store,
    exponential: spec_fn(Single) -> Single,
    n: u64,
    signal: Signal,
    i: nat,
)
    requires
        i < run.fields.len(),
        run.stage == (MessageStageView::Field {
            n,
            signal,
            index: i,
            results: field_outcomes(store, run.subject, run.fields, i),
        }),
    ensures
        message_steps(
            run,
            with_fields(store, run.subject, run.fields, i),
            exponential,
            (2 * (run.fields.len() - i)) as nat,
        ) == (
            run.at(
                MessageStageView::Temporal {
                    n,
                    signal,
                    results: field_outcomes(store, run.subject, run.fields, run.fields.len()),
                    run: TemporalRunView::start(run.subject, run.bundle),
                },
            ),
            with_fields(store, run.subject, run.fields, run.fields.len()),
        ),
    decreases run.fields.len() - i,
{
    let before = with_fields(store, run.subject, run.fields, i);
    let after = with_fields(store, run.subject, run.fields, i + 1);
    let count = run.fields.len();
    reveal_with_fuel(message_steps, 3);
    let two = message_steps(run, before, exponential, 2);
    assert(two.1 == after);
    assert(field_outcomes(store, run.subject, run.fields, i + 1) == field_outcomes(
        store,
        run.subject,
        run.fields,
        i,
    ).push(
        field_result(
            run.fields[i as int].0,
            score_against(
                run.fields[i as int].1,
                vector(before.get(ema_key(run.subject, run.fields[i as int].0))),
            ),
        ),
    ));
    lemma_message_steps_add(run, before, exponential, 2, (2 * (count - i) - 2) as nat);
    if i + 1 < count {
        lemma_scored_fields(two.0, store, exponential, n, signal, i + 1);
    }
}

/// Taking in the message-level statistics after the warm-up.
#[verifier::rlimit(30)]
proof fn lemma_statistics(
    run: MessageRunView,
    store: Store,
    exponential: spec_fn(Single) -> Single,
    n: u64,
)
    requires
        run.stage is Count,
        n == incremented(counter(store.get(count_key(run.subject)))),
        n > MIN_SAMPLES,
    ensures
        ({
            let z = message_scores(store, run.subject, run.bundle, n).2;
            message_steps(run, store, exponential, 9) == (
                run.at(
                    MessageStageView::Field {
                        n,
                        signal: signal_of(z, exponential(decay_exponent(z))),
                        index: 0,
                        results: Seq::empty(),
                    },
                ),
                with_statistics(store, run.subject, run.bundle, n),
            )
        }),
{
    let s = message_scores(store, run.subject, run.bundle, n);
    let signal = signal_of(s.2, exponential(decay_exponent(s.2)));
    let base = vector(store.get(mean_vec_key(run.subject)));
    let decay = run.at(
        MessageStageView::Decay { n, base, mean_score: s.0, m2: s.1, z: s.2 },
    );
    assert(message_steps(run, store, exponential, 4) == (decay, store)) by {
        reveal_with_fuel(message_steps, 5);
    }
    lemma_message_steps_add(run, store, exponential, 4, 5);
    let field = run.at(MessageStageView::Field { n, signal, index: 0, results: Seq::empty() });
    assert(message_steps(decay, store, exponential, 5) == (
        field,
        with_statistics(store, run.subject, run.bundle, n),
    )) by {
        reveal_with_fuel(message_steps, 6);
    }
}

/// The temporal layer at the end of a run.
#[verifier::rlimit(30)]
proof fn lemma_message_ends(
    run: MessageRunView,
    store: Store,
    exponential: spec_fn(Single) -> Single,
    rest: nat,
)
    requires
        match run.stage {
            MessageStageView::WarmTemporal { run: t, .. } => t == TemporalRunView::start(
                run.subject,
                run.bundle,
            ),
            MessageStageView::Temporal { run: t, .. } => t == TemporalRunView::start(
                run.subject,
                run.bundle,
            ),
            _ => false,
        },
    ensures
        ({
            let t = temporal_outcome(store, run.subject, run.bundle);
            message_steps(run, store, exponential, temporal_length() + rest) == (
                run.at(
                    MessageStageView::Done {
                        outcome: Ok(
                            match run.stage {
                                MessageStageView::WarmTemporal { n, .. } => warm_up_result(
                                    run.subject,
                                    n,
                                    t.0,
                                ),
                                _ => conclusion(
                                    run.subject,
                                    run.stage->Temporal_n,
                                    run.stage->Temporal_signal,
                                    run.stage->Temporal_results,
                                    t.0,
                                ),
                            },
                        ),
                    },
                ),
                t.1,
            )
        }),
{
    let temporal = TemporalRunView::start(run.subject, run.bundle);
    let length = temporal_length();
    lemma_message_temporal(run, temporal, store, exponential, length);
    lemma_temporal_outcome(run.subject, run.bundle, store, exponential);
    lemma_message_steps_add(run, store, exponential, length, rest);
    let last = message_steps(run, store, exponential, length);
    lemma_message_done(last.0, last.1, exponential, rest);
}

#[verifier::rlimit(30)]
proof fn lemma_warm_outcome(
    run: MessageRunView,
    store: Store,
    exponential: spec_fn(Single) -> Single,
)
    requires
        run.stage is Count,
        run.fields.len() > 0,
        incremented(counter(store.get(count_key(run.subject)))) <= MIN_SAMPLES,
    ensures
        ({
            let outcome = message_outcome(
                store,
                run.subject,
                run.fields,
                run.bundle,
                exponential,
            );
            message_steps(run, store, exponential, message_length(run.fields.len())) == (
                run.at(MessageStageView::Done { outcome: Ok(outcome.0) }),
                outcome.1,
            )
        }),
{
    reveal(message_outcome);
    let subject = run.subject;
    let count = run.fields.len();
    let n = incremented(counter(store.get(count_key(subject))));
    let t = temporal_length();
    let a = with_mean(store, subject, run.bundle);
    let b = with_fields(a, subject, run.fields, count);
    let c = b.insert(count_key(subject), le_bytes(n as nat, 8));
    let first = run.at(MessageStageView::WarmField { n, index: 0 });
    let second = run.at(MessageStageView::WarmSaveCount { n });
    let third = run.at(
        MessageStageView::WarmTemporal { n, run: TemporalRunView::start(subject, run.bundle) },
    );
    assert(message_steps(run, store, exponential, 3 + (6 + 2 * count + t)) == message_steps(
        first,
        a,
        exponential,
        6 + 2 * count + t,
    )) by {
        assert(message_steps(run, store, exponential, 3) == (first, a)) by {
            reveal_with_fuel(message_steps, 4);
        }
        lemma_message_steps_add(run, store, exponential, 3, 6 + 2 * count + t);
    }
    assert(message_steps(first, a, exponential, 2 * count + (6 + t)) == message_steps(
        second,
        b,
        exponential,
        6 + t,
    )) by {
        lemma_warm_fields(first, a, exponential, n, 0);
        lemma_message_steps_add(first, a, exponential, 2 * count, 6 + t);
    }
    assert(message_steps(second, b, exponential, 1 + (5 + t)) == message_steps(
        third,
        c,
        exponential,
        5 + t,
    )) by {
        assert(message_steps(second, b, exponential, 1) == (third, c)) by {
            reveal_with_fuel(message_steps, 2);
        }
        lemma_message_steps_add(second, b, exponential, 1, 5 + t);
    }
    lemma_message_ends(third, c, exponential, 5);
}

#[verifier::rlimit(30)]
proof fn lemma_scored_outcome(
    run: MessageRunView,
    store: Store,
    exponential: spec_fn(Single) -> Single,
)
    requires
        run.stage is Count,
        run.fields.len() > 0,
        incremented(counter(store.get(count_key(run.subject)))) > MIN_SAMPLES,
    ensures
        ({
            let outcome = message_outcome(
                store,
                run.subject,
                run.fields,
                run.bundle,
                exponential,
            );
            message_steps(run, store, exponential, message_length(run.fields.len())) == (
                run.at(MessageStageView::Done { outcome: Ok(outcome.0) }),
                outcome.1,
            )
        }),
{
    reveal(message_outcome);
    let subject = run.subject;
    let count = run.fields.len();
    let n = incremented(counter(store.get(count_key(subject))));
    let t = temporal_length();
    let z = message_scores(store, subject, run.bundle, n).2;
    let signal = signal_of(z, exponential(decay_exponent(z)));
    let a = with_statistics(store, subject, run.bundle, n);
    let b = with_fields(a, subject, run.fields, count);
    let first = run.at(MessageStageView::Field { n, signal, index: 0, results: Seq::empty() });
    let second = run.at(
        MessageStageView::Temporal {
            n,
            signal,
            results: field_outcomes(a, subject, run.fields, count),
            run: TemporalRunView::start(subject, run.bundle),
        },
    );
    assert(message_steps(run, store, exponential, 9 + (2 * count + t)) == message_steps(
        first,
        a,
        exponential,
        2 * count + t,
    )) by {
        lemma_statistics(run, store, exponential, n);
        lemma_message_steps_add(run, store, exponential, 9, 2 * count + t);
    }
    assert(message_steps(first, a, exponential, 2 * count + t) == message_steps(
        second,
        b,
        exponential,
        t,
    )) by {
        lemma_scored_fields(first, a, exponential, n, signal, 0);
        lemma_message_steps_add(first, a, exponential, 2 * count, t);
    }
    lemma_message_ends(second, b, exponential, 0);
}

/// A run for a message with fields ends with the result and the store of
/// [`message_outcome`].
pub proof fn lemma_message_outcome(
    subject: Seq<char>,
    fields: Seq<(Seq<char>, (Seq<usize>, Seq<usize>))>,
    store: Store,
    exponential: spec_fn(Single) -> Single,
)
    requires
        fields.len() > 0,
    ensures
        ({
            let bundle = superposition(field_vectors(fields))->Some_0;
            let outcome = message_outcome(store, subject, fields, bundle, exponential);
            message_steps(
                MessageRunView::begin(subject, Ok(fields)),
                store,
                exponential,
                message_length(fields.len()),
            ) == (
                MessageRunView {
                    subject,
                    fields,
                    bundle,
                    stage: MessageStageView::Done { outcome: Ok(outcome.0) },
                },
                outcome.1,
            )
        }),
{
    let run = MessageRunView::begin(subject, Ok(fields));
    if incremented(counter(store.get(count_key(subject)))) <= MIN_SAMPLES {
        lemma_warm_outcome(run, store, exponential);
    } else {
        lemma_scored_outcome(run, store, exponential);
    }
}

}
