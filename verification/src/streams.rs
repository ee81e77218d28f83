//! Laws of whole streams of messages.

use crate::accumulation::counted;
use crate::bounds::lemma_drift_result_is_warm;
use crate::classify::{
    count_key, ema_key, field_result, incremented, m2_key, mean_score_key, mean_vec_key,
    score_against, warming,
};
use crate::codec::{
    counter, history, le_bytes, lemma_counter_round_trip, lemma_history_round_trip,
    lemma_number_round_trip, lemma_vector_round_trip, number, vector, vector_record,
};
use crate::effects::{
    field_outcomes, message_outcome, message_scores, stored_drift, temporal_outcome, window_now,
    window_prev, with_bundle, with_fields, with_mean, with_statistics, Store,
};
use crate::encode::{distinct_names, field_vectors, running, superposition};
use crate::handler::needs_review;
use crate::single::Single;
use crate::stats::{drift_class, slope, HALF, HISTORY_LEN, MIN_SAMPLES, WINDOW_N};
use crate::temporal::{
    advanced, displaced_slot, drift_between, drift_result, extended, grown, head_key, history_key,
    ring_slot, size_key, slot_key, window_slot, WARM_SIZE,
};
use crate::text::{decimal, lemma_decimal_digits, lemma_decimal_distinct, starts_with};
use vstd::prelude::*;

verus! {

/// Bundle of a message's fields.
pub open spec fn bundle_of(fields: Seq<(Seq<char>, (Seq<usize>, Seq<usize>))>) -> (
    Seq<usize>,
    Seq<usize>,
) {
    superposition(field_vectors(fields))->Some_0
}

/// A vector whose lists a record can hold.
pub open spec fn of_machine_size(v: (Seq<usize>, Seq<usize>)) -> bool {
    v.0.len() <= u64::MAX && v.1.len() <= u64::MAX
}

/// The characters by which the keys of a subject differ.
pub(crate) proof fn lemma_keys(subject: Seq<char>)
    ensures
        count_key(subject)[0] == 's' && count_key(subject).last() == 'n',
        mean_vec_key(subject)[0] == 's' && mean_vec_key(subject).last() == 'c',
        mean_score_key(subject)[0] == 's' && mean_score_key(subject).last() == 'e',
        m2_key(subject)[0] == 's' && m2_key(subject).last() == '2',
        head_key(subject)[0] == 'w' && head_key(subject)[7] == 'r' && head_key(subject).last()
            == 'd',
        size_key(subject)[0] == 'w' && size_key(subject)[7] == 'r' && size_key(subject).last()
            == 'e',
        history_key(subject)[0] == 'w' && history_key(subject)[7] == 'd',
        forall|slot: nat|
            (#[trigger] slot_key(subject, slot))[0] == 'w' && slot_key(subject, slot)[7] == 's',
        forall|field: Seq<char>| (#[trigger] ema_key(subject, field))[0] == 'e',
{
    reveal_strlit("stats:v1:");
    reveal_strlit(":n");
    reveal_strlit(":mean_vec");
    reveal_strlit(":mean_score");
    reveal_strlit(":m2");
    reveal_strlit("ema:v1:");
    reveal_strlit("window:ring:");
    reveal_strlit("window:slot:");
    reveal_strlit("window:drift:");
    reveal_strlit(":head");
    reveal_strlit(":size");
    reveal_strlit(":history");
    assert("stats:v1:"@[0] == 's');
    assert(":n"@[1] == 'n');
    assert(":mean_vec"@[8] == 'c');
    assert(":mean_score"@[10] == 'e');
    assert(":m2"@[2] == '2');
    assert("ema:v1:"@[0] == 'e');
    assert("window:ring:"@[0] == 'w' && "window:ring:"@[7] == 'r');
    assert("window:slot:"@[0] == 'w' && "window:slot:"@[7] == 's');
    assert("window:drift:"@[0] == 'w' && "window:drift:"@[7] == 'd');
    assert(":head"@[4] == 'd');
    assert(":size"@[4] == 'e');
}

/// A text between two others determines and is determined by the whole.
proof fn lemma_between(prefix: Seq<char>, a: Seq<char>, b: Seq<char>, suffix: Seq<char>)
    requires
        prefix + a + suffix == prefix + b + suffix,
    ensures
        a == b,
{
    let whole = prefix + a + suffix;
    assert(whole.len() == (prefix + b + suffix).len());
    assert(a =~= whole.subrange(prefix.len() as int, (prefix.len() + a.len()) as int));
    assert(b =~= whole.subrange(prefix.len() as int, (prefix.len() + b.len()) as int));
}

/// A slot key tells the subject and the slot.
proof fn lemma_slot_keys(a: Seq<char>, i: nat, b: Seq<char>, j: nat)
    requires
        slot_key(a, i) == slot_key(b, j),
    ensures
        a == b,
        i == j,
{
    let p = "window:slot:"@;
    let x = decimal(i);
    let y = decimal(j);
    let key = slot_key(a, i);
    reveal_strlit(":");
    lemma_decimal_digits(i);
    lemma_decimal_digits(j);
    assert(":"@.len() == 1 && ":"@[0] == ':');
    assert(key[key.len() - x.len() - 1] == ':');
    assert(key[key.len() - y.len() - 1] == ':') by {
        assert(slot_key(b, j)[key.len() - y.len() - 1] == ':');
    }
    if x.len() < y.len() {
        assert(slot_key(b, j)[key.len() - x.len() - 1] == y[y.len() - x.len() - 1]);
    } else if y.len() < x.len() {
        assert(slot_key(a, i)[key.len() - y.len() - 1] == x[x.len() - y.len() - 1]);
    }
    assert(x =~= key.subrange(key.len() - x.len(), key.len() as int));
    assert(y =~= key.subrange(key.len() - y.len(), key.len() as int));
    lemma_decimal_distinct(i, j);
    assert(slot_key(a, i) =~= p + a + (":"@ + x));
    assert(slot_key(b, j) =~= p + b + (":"@ + x));
    lemma_between(p, a, b, ":"@ + x);
}

/// The keys of the temporal layer begin alike.
proof fn lemma_window_keys(subject: Seq<char>)
    ensures
        starts_with(head_key(subject), "window:"@),
        starts_with(size_key(subject), "window:"@),
        starts_with(history_key(subject), "window:"@),
        forall|slot: nat| starts_with(#[trigger] slot_key(subject, slot), "window:"@),
{
    reveal_strlit("window:");
    reveal_strlit("window:ring:");
    reveal_strlit("window:slot:");
    reveal_strlit("window:drift:");
    assert(head_key(subject).subrange(0, 7) =~= "window:"@);
    assert(size_key(subject).subrange(0, 7) =~= "window:"@);
    assert(history_key(subject).subrange(0, 7) =~= "window:"@);
    assert forall|slot: nat| starts_with(#[trigger] slot_key(subject, slot), "window:"@) by {
        assert(slot_key(subject, slot).subrange(0, 7) =~= "window:"@);
    }
}

/// The temporal layer changes only keys that begin with `window:`; in particular
/// it leaves the statistics and the field vectors alone.
pub proof fn lemma_temporal_frame(
    store: Store,
    subject: Seq<char>,
    bundle: (Seq<usize>, Seq<usize>),
    key: Seq<char>,
)
    requires
        !starts_with(key, "window:"@),
    ensures
        temporal_outcome(store, subject, bundle).1.get(key) == store.get(key),
{
    reveal(temporal_outcome);
    lemma_window_keys(subject);
}

/// Whether a ring has moved on: the pointer is advanced, the fill count has grown,
/// the bundle is in its slot, what it displaced is in the slot a window further, and the
/// other slots are unchanged.
pub open spec fn ring_moved(
    before: Store,
    after: Store,
    subject: Seq<char>,
    bundle: (Seq<usize>, Seq<usize>),
) -> bool {
    let head = counter(before.get(head_key(subject)));
    let size = counter(before.get(size_key(subject)));
    let own = ring_slot(head);
    &&& counter(after.get(head_key(subject))) == advanced(head)
    &&& counter(after.get(size_key(subject))) == grown(size)
    &&& after.get(slot_key(subject, own)) == Some(vector_record(bundle))
    &&& vector(after.get(slot_key(subject, own))) == Some(bundle)
    &&& before.contains_key(slot_key(subject, own)) ==> after.get(
        slot_key(subject, displaced_slot(own)),
    ) == before.get(slot_key(subject, own))
    &&& forall|slot: nat|
        slot != own && slot != displaced_slot(own) ==> after.get(
            #[trigger] slot_key(subject, slot),
        ) == before.get(slot_key(subject, slot))
}

proof fn lemma_with_bundle_ring(
    store: Store,
    subject: Seq<char>,
    bundle: (Seq<usize>, Seq<usize>),
)
    requires
        of_machine_size(bundle),
    ensures
        ring_moved(store, with_bundle(store, subject, bundle), subject, bundle),
{
    let head = counter(store.get(head_key(subject)));
    let size = counter(store.get(size_key(subject)));
    lemma_keys(subject);
    lemma_counter_round_trip(advanced(head));
    lemma_counter_round_trip(grown(size));
    let own = ring_slot(head);
    let next = displaced_slot(own);
    lemma_vector_round_trip(bundle);
    let after = with_bundle(store, subject, bundle);
    if slot_key(subject, own) == slot_key(subject, next) {
        lemma_slot_keys(subject, own, subject, next);
    }
    assert forall|slot: nat| slot != own && slot != next implies after.get(
        #[trigger] slot_key(subject, slot),
    ) == store.get(slot_key(subject, slot)) by {
        if slot_key(subject, slot) == slot_key(subject, own) {
            lemma_slot_keys(subject, slot, subject, own);
        }
        if slot_key(subject, slot) == slot_key(subject, next) {
            lemma_slot_keys(subject, slot, subject, next);
        }
    }
}

/// A temporal run moves the ring of its subject on.
pub proof fn lemma_temporal_ring(
    store: Store,
    subject: Seq<char>,
    bundle: (Seq<usize>, Seq<usize>),
)
    requires
        of_machine_size(bundle),
    ensures
        ring_moved(store, temporal_outcome(store, subject, bundle).1, subject, bundle),
{
    reveal(temporal_outcome);
    lemma_with_bundle_ring(store, subject, bundle);
    lemma_keys(subject);
}

/// Once warm, a temporal run leaves a history that ends with the drift it found
/// and holds at most `HISTORY_LEN` values; before, it leaves the history alone.
pub proof fn lemma_temporal_history(
    store: Store,
    subject: Seq<char>,
    bundle: (Seq<usize>, Seq<usize>),
)
    requires
        history(store.get(history_key(subject))).len() <= HISTORY_LEN,
    ensures
        ({
            let size = counter(store.get(size_key(subject)));
            let before = history(store.get(history_key(subject)));
            let outcome = temporal_outcome(store, subject, bundle);
            let after = history(outcome.1.get(history_key(subject)));
            &&& after.len() <= HISTORY_LEN
            &&& grown(size) < WARM_SIZE ==> after == before
            &&& grown(size) >= WARM_SIZE ==> after == extended(before, outcome.0.drift)
                && after.last() == outcome.0.drift
        }),
{
    reveal(temporal_outcome);
    let before = history(store.get(history_key(subject)));
    let size = counter(store.get(size_key(subject)));
    let drift = temporal_outcome(store, subject, bundle).0.drift;
    lemma_keys(subject);
    if grown(size) >= WARM_SIZE {
        let mid = with_bundle(store, subject, bundle);
        assert(mid.get(history_key(subject)) == store.get(history_key(subject)));
        lemma_history_round_trip(extended(before, drift));
    }
}

/// Taking in fields changes field vectors only.
proof fn lemma_fields_frame(
    store: Store,
    subject: Seq<char>,
    fields: Seq<(Seq<char>, (Seq<usize>, Seq<usize>))>,
    k: nat,
    key: Seq<char>,
)
    requires
        forall|i: int| 0 <= i < k ==> key != ema_key(subject, (#[trigger] fields[i]).0),
    ensures
        with_fields(store, subject, fields, k).get(key) == store.get(key),
    decreases k,
{
    if k > 0 {
        lemma_fields_frame(store, subject, fields, (k - 1) as nat, key);
        assert(key != ema_key(subject, fields[k - 1].0));
    }
}

proof fn lemma_ema_keys(subject: Seq<char>, a: Seq<char>, b: Seq<char>)
    requires
        ema_key(subject, a) == ema_key(subject, b),
    ensures
        a == b,
{
    let p = "ema:v1:"@ + subject + ":"@;
    assert(ema_key(subject, a).len() == p.len() + a.len());
    assert(ema_key(subject, b).len() == p.len() + b.len());
    assert(ema_key(subject, a).subrange(p.len() as int, (p.len() + a.len()) as int) =~= a);
    assert(ema_key(subject, b).subrange(p.len() as int, (p.len() + b.len()) as int) =~= b);
}

/// Each field is compared with the running vector that the store held for it
/// before the message, whatever the order of the fields.
pub proof fn lemma_field_outcomes(
    store: Store,
    subject: Seq<char>,
    fields: Seq<(Seq<char>, (Seq<usize>, Seq<usize>))>,
    k: nat,
)
    requires
        k <= fields.len(),
        distinct_names(fields),
    ensures
        field_outcomes(store, subject, fields, k) == Seq::new(
            k,
            |i: int|
                field_result(
                    fields[i].0,
                    score_against(
                        fields[i].1,
                        vector(store.get(ema_key(subject, fields[i].0))),
                    ),
                ),
        ),
    decreases k,
{
    if k > 0 {
        lemma_field_outcomes(store, subject, fields, (k - 1) as nat);
        let key = ema_key(subject, fields[k - 1].0);
        assert forall|i: int| 0 <= i < k - 1 implies key != ema_key(
            subject,
            (#[trigger] fields[i]).0,
        ) by {
            if key == ema_key(subject, fields[i].0) {
                lemma_ema_keys(subject, fields[k - 1].0, fields[i].0);
            }
        }
        lemma_fields_frame(store, subject, fields, (k - 1) as nat, key);
    }
}

/// A message is counted: the store and the result tell one more than before.
pub proof fn lemma_message_counts(
    store: Store,
    subject: Seq<char>,
    fields: Seq<(Seq<char>, (Seq<usize>, Seq<usize>))>,
    bundle: (Seq<usize>, Seq<usize>),
    exponential: spec_fn(Single) -> Single,
)
    ensures
        ({
            let n = incremented(counter(store.get(count_key(subject))));
            let outcome = message_outcome(store, subject, fields, bundle, exponential);
            outcome.0.message_count == n && counter(outcome.1.get(count_key(subject))) == n
        }),
{
    reveal(message_outcome);
    let n = incremented(counter(store.get(count_key(subject))));
    let key = count_key(subject);
    lemma_keys(subject);
    lemma_window_prefix(key);
    lemma_counter_round_trip(n);
    if n <= MIN_SAMPLES {
        let learned = with_fields(
            with_mean(store, subject, bundle),
            subject,
            fields,
            fields.len(),
        ).insert(key, le_bytes(n as nat, 8));
        lemma_temporal_frame(learned, subject, bundle, key);
    } else {
        let counted = with_statistics(store, subject, bundle, n);
        let learned = with_fields(counted, subject, fields, fields.len());
        lemma_fields_frame(counted, subject, fields, fields.len(), key);
        lemma_temporal_frame(learned, subject, bundle, key);
    }
}

/// What begins with `window:` begins with a `w`.
proof fn lemma_window_prefix(key: Seq<char>)
    ensures
        starts_with(key, "window:"@) ==> key[0] == 'w',
{
    reveal_strlit("window:");
    if starts_with(key, "window:"@) {
        assert(key.subrange(0, "window:"@.len() as int)[0] == "window:"@[0]);
    }
}

/// A message moves the ring of its subject on, as the temporal layer does.
pub proof fn lemma_message_ring(
    store: Store,
    subject: Seq<char>,
    fields: Seq<(Seq<char>, (Seq<usize>, Seq<usize>))>,
    bundle: (Seq<usize>, Seq<usize>),
    exponential: spec_fn(Single) -> Single,
)
    requires
        of_machine_size(bundle),
    ensures
        ring_moved(
            store,
            message_outcome(store, subject, fields, bundle, exponential).1,
            subject,
            bundle,
        ),
{
    reveal(message_outcome);
    let learned = learned_store(store, subject, fields, bundle);
    let after = message_outcome(store, subject, fields, bundle, exponential).1;
    assert(ring_moved(learned, after, subject, bundle)) by {
        lemma_temporal_ring(learned, subject, bundle);
        assert(after == temporal_outcome(learned, subject, bundle).1);
    }
    lemma_learned_ring(store, subject, fields, bundle);
    lemma_same_ring(store, learned, after, subject, bundle);
}

/// Whether two stores hold the same ring of a subject.
spec fn same_ring(a: Store, b: Store, subject: Seq<char>) -> bool {
    &&& a.get(head_key(subject)) == b.get(head_key(subject))
    &&& a.get(size_key(subject)) == b.get(size_key(subject))
    &&& forall|slot: nat|
        a.get(#[trigger] slot_key(subject, slot)) == b.get(slot_key(subject, slot))
}

proof fn lemma_same_ring(
    store: Store,
    learned: Store,
    after: Store,
    subject: Seq<char>,
    bundle: (Seq<usize>, Seq<usize>),
)
    requires
        same_ring(store, learned, subject),
        ring_moved(learned, after, subject, bundle),
    ensures
        ring_moved(store, after, subject, bundle),
{
}

proof fn lemma_learned_ring(
    store: Store,
    subject: Seq<char>,
    fields: Seq<(Seq<char>, (Seq<usize>, Seq<usize>))>,
    bundle: (Seq<usize>, Seq<usize>),
)
    ensures
        same_ring(store, learned_store(store, subject, fields, bundle), subject),
{
    lemma_keys(subject);
    lemma_learned_window(store, subject, fields, bundle, head_key(subject));
    lemma_learned_window(store, subject, fields, bundle, size_key(subject));
    let learned = learned_store(store, subject, fields, bundle);
    assert forall|slot: nat|
        store.get(#[trigger] slot_key(subject, slot)) == learned.get(slot_key(subject, slot)) by {
        lemma_learned_window(store, subject, fields, bundle, slot_key(subject, slot));
    }
}

/// The store when a message reaches the temporal layer.
spec fn learned_store(
    store: Store,
    subject: Seq<char>,
    fields: Seq<(Seq<char>, (Seq<usize>, Seq<usize>))>,
    bundle: (Seq<usize>, Seq<usize>),
) -> Store {
    let n = incremented(counter(store.get(count_key(subject))));
    if n <= MIN_SAMPLES {
        with_fields(with_mean(store, subject, bundle), subject, fields, fields.len()).insert(
            count_key(subject),
            le_bytes(n as nat, 8),
        )
    } else {
        with_fields(with_statistics(store, subject, bundle, n), subject, fields, fields.len())
    }
}

proof fn lemma_learned_window(
    store: Store,
    subject: Seq<char>,
    fields: Seq<(Seq<char>, (Seq<usize>, Seq<usize>))>,
    bundle: (Seq<usize>, Seq<usize>),
    key: Seq<char>,
)
    requires
        key[0] == 'w',
    ensures
        learned_store(store, subject, fields, bundle).get(key) == store.get(key),
{
    lemma_keys(subject);
    let n = incremented(counter(store.get(count_key(subject))));
    let base = if n <= MIN_SAMPLES {
        with_mean(store, subject, bundle)
    } else {
        with_statistics(store, subject, bundle, n)
    };
    lemma_fields_frame(base, subject, fields, fields.len(), key);
}

/// The first `MIN_SAMPLES` messages of a subject, and no others, are reported as
/// warming up: with even odds, in the first phase, and without a review.
pub proof fn lemma_warm_up(
    store: Store,
    subject: Seq<char>,
    fields: Seq<(Seq<char>, (Seq<usize>, Seq<usize>))>,
    bundle: (Seq<usize>, Seq<usize>),
    exponential: spec_fn(Single) -> Single,
)
    ensures
        ({
            let n = incremented(counter(store.get(count_key(subject))));
            let r = message_outcome(store, subject, fields, bundle, exponential).0;
            &&& r.classification == "WARMING_UP"@ <==> n <= MIN_SAMPLES
            &&& n <= MIN_SAMPLES ==> r.confidence == (Single { bits: HALF }) && !r.hitl_required
                && !needs_review(r) && r.anomalous_fields.len() == 0 && r.phase == 1
            &&& n > MIN_SAMPLES ==> r.classification == "ANOMALY"@ || r.classification
                == "NORMAL"@
        }),
{
    reveal(message_outcome);
    reveal_strlit("WARMING_UP");
    reveal_strlit("ANOMALY");
    reveal_strlit("NORMAL");
    assert("WARMING_UP"@.len() == 10);
    assert("ANOMALY"@.len() == 7);
    assert("NORMAL"@.len() == 6);
}

/// A result tells of the temporal layer from two windows of bundles on, and only
/// then is it of the second phase.
pub proof fn lemma_temporal_warm_up(
    store: Store,
    subject: Seq<char>,
    fields: Seq<(Seq<char>, (Seq<usize>, Seq<usize>))>,
    bundle: (Seq<usize>, Seq<usize>),
    exponential: spec_fn(Single) -> Single,
)
    ensures
        ({
            let n = incremented(counter(store.get(count_key(subject))));
            let warm = grown(counter(store.get(size_key(subject)))) >= WARM_SIZE;
            let r = message_outcome(store, subject, fields, bundle, exponential).0;
            &&& r.temporal_label is Some <==> warm
            &&& r.temporal_confidence is Some <==> warm
            &&& r.phase == if warm && n > MIN_SAMPLES {
                2u8
            } else {
                1u8
            }
        }),
{
    reveal(message_outcome);
    reveal(temporal_outcome);
    let learned = learned_store(store, subject, fields, bundle);
    lemma_keys(subject);
    lemma_learned_window(store, subject, fields, bundle, size_key(subject));
    let t = temporal_outcome(learned, subject, bundle).0;
    let mid = with_bundle(learned, subject, bundle);
    let head = counter(learned.get(head_key(subject)));
    let drift = stored_drift(mid, subject, advanced(head));
    let values = extended(history(mid.get(history_key(subject))), drift);
    lemma_drift_result_is_warm(drift, values);
}

/// The store after messages of one subject.
pub open spec fn after_messages(
    store: Store,
    subject: Seq<char>,
    messages: Seq<Seq<(Seq<char>, (Seq<usize>, Seq<usize>))>>,
    exponential: spec_fn(Single) -> Single,
) -> Store
    decreases messages.len(),
{
    if messages.len() == 0 {
        store
    } else {
        let before = after_messages(store, subject, messages.drop_last(), exponential);
        let last = messages.last();
        message_outcome(before, subject, last, bundle_of(last), exponential).1
    }
}

/// Each message's bundle fits a machine.
pub open spec fn all_of_machine_size(
    messages: Seq<Seq<(Seq<char>, (Seq<usize>, Seq<usize>))>>,
) -> bool {
    forall|i: int| 0 <= i < messages.len() ==> of_machine_size(bundle_of(#[trigger] messages[i]))
}

/// A stream counts its messages: the message counter and the write pointer go up
/// with each, the fill count until it has reached two windows.
pub proof fn lemma_stream_counters(
    store: Store,
    subject: Seq<char>,
    messages: Seq<Seq<(Seq<char>, (Seq<usize>, Seq<usize>))>>,
    exponential: spec_fn(Single) -> Single,
)
    requires
        all_of_machine_size(messages),
        counter(store.get(count_key(subject))) + messages.len() <= u64::MAX,
        counter(store.get(head_key(subject))) + messages.len() <= u64::MAX,
        counter(store.get(size_key(subject))) <= WARM_SIZE,
    ensures
        ({
            let after = after_messages(store, subject, messages, exponential);
            let full = counter(store.get(size_key(subject))) + messages.len();
            &&& counter(after.get(count_key(subject))) == counter(store.get(count_key(subject)))
                + messages.len()
            &&& counter(after.get(head_key(subject))) == counter(store.get(head_key(subject)))
                + messages.len()
            &&& counter(after.get(size_key(subject))) == if full < WARM_SIZE {
                full
            } else {
                WARM_SIZE as int
            }
        }),
    decreases messages.len(),
{
    if messages.len() > 0 {
        let init = messages.drop_last();
        let last = messages.last();
        assert(of_machine_size(bundle_of(messages[messages.len() - 1])));
        assert(all_of_machine_size(init)) by {
            assert forall|i: int| 0 <= i < init.len() implies of_machine_size(
                bundle_of(#[trigger] init[i]),
            ) by {
                assert(init[i] == messages[i]);
            }
        }
        lemma_stream_counters(store, subject, init, exponential);
        let before = after_messages(store, subject, init, exponential);
        lemma_message_counts(before, subject, last, bundle_of(last), exponential);
        lemma_message_ring(before, subject, last, bundle_of(last), exponential);
    }
}

/// On a fresh subject, the message after `messages` is reported as warming up up
/// to number `MIN_SAMPLES`, and tells of the temporal layer from number
/// `WARM_SIZE` on.
pub proof fn lemma_fresh_stream(
    store: Store,
    subject: Seq<char>,
    messages: Seq<Seq<(Seq<char>, (Seq<usize>, Seq<usize>))>>,
    next: Seq<(Seq<char>, (Seq<usize>, Seq<usize>))>,
    exponential: spec_fn(Single) -> Single,
)
    requires
        all_of_machine_size(messages),
        messages.len() < u64::MAX,
        !store.contains_key(count_key(subject)),
        !store.contains_key(head_key(subject)),
        !store.contains_key(size_key(subject)),
    ensures
        ({
            let number = messages.len() + 1;
            let before = after_messages(store, subject, messages, exponential);
            let r = message_outcome(before, subject, next, bundle_of(next), exponential).0;
            &&& r.message_count == number
            &&& r.classification == "WARMING_UP"@ <==> number <= MIN_SAMPLES
            &&& r.temporal_label is Some <==> number >= WARM_SIZE
            &&& r.phase == if number >= WARM_SIZE {
                2u8
            } else {
                1u8
            }
        }),
{
    let before = after_messages(store, subject, messages, exponential);
    lemma_stream_counters(store, subject, messages, exponential);
    lemma_message_counts(before, subject, next, bundle_of(next), exponential);
    lemma_warm_up(before, subject, next, bundle_of(next), exponential);
    lemma_temporal_warm_up(before, subject, next, bundle_of(next), exponential);
}

/// The slot that holds bundle `j` of `count`: a ring slot for the newest window, the
/// slot a window further for the window before.
pub open spec fn slot_of(count: nat, j: int) -> nat {
    let slot = (j % WINDOW_N as int) as nat;
    if count - WINDOW_N <= j {
        slot
    } else {
        displaced_slot(slot)
    }
}

/// Whether bundle `j` of `bundles` is in its slot.
pub open spec fn held(
    store: Store,
    subject: Seq<char>,
    bundles: Seq<(Seq<usize>, Seq<usize>)>,
    j: int,
) -> bool {
    vector(store.get(slot_key(subject, slot_of(bundles.len(), j)))) == Some(bundles[j])
}

/// Whether the slots of a subject hold the last two windows of `bundles`.
pub open spec fn ring_of(
    store: Store,
    subject: Seq<char>,
    bundles: Seq<(Seq<usize>, Seq<usize>)>,
) -> bool {
    &&& counter(store.get(head_key(subject))) == bundles.len()
    &&& counter(store.get(size_key(subject))) == if bundles.len() < WARM_SIZE {
        bundles.len()
    } else {
        WARM_SIZE as nat
    }
    &&& forall|j: int|
        0 <= j < bundles.len() && bundles.len() - 2 * WINDOW_N <= j ==> #[trigger] held(
            store,
            subject,
            bundles,
            j,
        )
}

/// One more bundle in the ring.
proof fn lemma_ring_step(
    before: Store,
    after: Store,
    subject: Seq<char>,
    bundles: Seq<(Seq<usize>, Seq<usize>)>,
    bundle: (Seq<usize>, Seq<usize>),
)
    requires
        ring_of(before, subject, bundles),
        ring_moved(before, after, subject, bundle),
        bundles.len() < usize::MAX,
        bundles.len() < u64::MAX,
    ensures
        ring_of(after, subject, bundles.push(bundle)),
{
    let n = bundles.len();
    let all = bundles.push(bundle);
    assert(ring_slot(n as u64) == n % WINDOW_N as nat);
    assert forall|j: int|
        0 <= j < all.len() && all.len() - 2 * WINDOW_N <= j implies #[trigger] held(
        after,
        subject,
        all,
        j,
    ) by {
        if j < n {
            assert(held(before, subject, bundles, j));
            lemma_slot_moves(n, j);
        }
    }
}

/// Where a bundle is before and after one more.
proof fn lemma_slot_moves(n: nat, j: int)
    requires
        0 <= j < n,
        n + 1 - 2 * WINDOW_N <= j,
    ensures
        ({
            let own = n % WINDOW_N as nat;
            let before = slot_of(n, j);
            let after = slot_of(n + 1, j);
            if before == own {
                after == displaced_slot(own)
            } else {
                after == before && before != displaced_slot(own)
            }
        }),
{
    if n - 20 <= j {
        assert(j == n - 20 <==> j % 20 == n as int % 20);
    } else {
        assert(j % 20 != n as int % 20);
    }
}

/// Stores that hold the same ring hold the same bundles.
proof fn lemma_same_ring_of(
    a: Store,
    b: Store,
    subject: Seq<char>,
    bundles: Seq<(Seq<usize>, Seq<usize>)>,
)
    requires
        same_ring(a, b, subject),
        ring_of(a, subject, bundles),
    ensures
        ring_of(b, subject, bundles),
{
    assert forall|j: int|
        0 <= j < bundles.len() && bundles.len() - 2 * WINDOW_N <= j implies #[trigger] held(
        b,
        subject,
        bundles,
        j,
    ) by {
        assert(held(a, subject, bundles, j));
    }
}

/// What the slots of a full ring hold.
proof fn lemma_ring_slot(
    store: Store,
    subject: Seq<char>,
    bundles: Seq<(Seq<usize>, Seq<usize>)>,
    i: nat,
)
    requires
        ring_of(store, subject, bundles),
        2 * WINDOW_N <= bundles.len() <= usize::MAX,
        bundles.len() <= u64::MAX,
        i < WINDOW_N,
    ensures
        ({
            let j = bundles.len() - WINDOW_N + i;
            let slot = window_slot(bundles.len() as u64, i);
            &&& vector(store.get(slot_key(subject, slot))) == Some(bundles[j])
            &&& vector(store.get(slot_key(subject, displaced_slot(slot)))) == Some(
                bundles[j - WINDOW_N],
            )
        }),
{
    let k = bundles.len();
    let j = k - 20 + i;
    lemma_window_places(k, i);
    assert(ring_slot(k as u64) == k % 20);
    assert(window_slot(k as u64, i) == slot_of(k, j));
    assert(displaced_slot(window_slot(k as u64, i)) == slot_of(k, j - 20));
    assert(held(store, subject, bundles, j));
    assert(held(store, subject, bundles, j - 20));
}

/// The places of window entry `i` in a ring of `k` bundles.
proof fn lemma_window_places(k: nat, i: nat)
    requires
        k >= 40,
        i < 20,
    ensures
        (k % 20 + i) % 20 == (k - 20 + i) % 20,
        (k - 40 + i) % 20 == (k - 20 + i) % 20,
{
}

/// The windows that a ring of `bundles` holds.
proof fn lemma_ring_windows(
    store: Store,
    subject: Seq<char>,
    bundles: Seq<(Seq<usize>, Seq<usize>)>,
    i: nat,
)
    requires
        ring_of(store, subject, bundles),
        2 * WINDOW_N <= bundles.len() <= usize::MAX,
        bundles.len() <= u64::MAX,
        i <= WINDOW_N,
    ensures
        ({
            let k = bundles.len() as int;
            let head = bundles.len() as u64;
            &&& window_now(store, subject, head, i) == bundles.subrange(
                k - WINDOW_N,
                k - WINDOW_N + i,
            )
            &&& window_prev(store, subject, head, i) == bundles.subrange(
                k - 2 * WINDOW_N,
                k - 2 * WINDOW_N + i,
            )
        }),
    decreases i,
{
    let k = bundles.len() as int;
    let head = bundles.len() as u64;
    if i == 0 {
        assert(bundles.subrange(k - 20, k - 20) =~= Seq::empty());
        assert(bundles.subrange(k - 40, k - 40) =~= Seq::empty());
    } else {
        lemma_ring_windows(store, subject, bundles, (i - 1) as nat);
        let j = k - 20 + (i - 1);
        lemma_ring_slot(store, subject, bundles, (i - 1) as nat);
        assert(bundles.subrange(k - 20, k - 20 + i) =~= bundles.subrange(
            k - 20,
            k - 20 + i - 1,
        ).push(bundles[j]));
        assert(bundles.subrange(k - 40, k - 40 + i) =~= bundles.subrange(
            k - 40,
            k - 40 + i - 1,
        ).push(bundles[j - 20]));
    }
}

/// The drift between the last window of `bundles` and the window before it.
pub open spec fn windows_drift(bundles: Seq<(Seq<usize>, Seq<usize>)>) -> Single {
    let k = bundles.len() as int;
    drift_between(
        bundles.subrange(k - WINDOW_N, k),
        bundles.subrange(k - 2 * WINDOW_N, k - WINDOW_N),
    )
}

/// With two windows in the ring, the temporal layer finds the drift between the
/// last window, the new bundle in it, and the window before it.
pub proof fn lemma_ring_drift(
    store: Store,
    subject: Seq<char>,
    bundles: Seq<(Seq<usize>, Seq<usize>)>,
    bundle: (Seq<usize>, Seq<usize>),
)
    requires
        ring_of(store, subject, bundles),
        of_machine_size(bundle),
        2 * WINDOW_N <= bundles.len() + 1 <= usize::MAX,
        bundles.len() < u64::MAX,
    ensures
        temporal_outcome(store, subject, bundle).0.drift == windows_drift(bundles.push(bundle)),
{
    let all = bundles.push(bundle);
    let after = with_bundle(store, subject, bundle);
    let head = advanced(counter(store.get(head_key(subject))));
    let size = grown(counter(store.get(size_key(subject))));
    assert(head == all.len() && size >= WARM_SIZE);
    assert(ring_of(after, subject, all)) by {
        lemma_with_bundle_ring(store, subject, bundle);
        lemma_ring_step(store, after, subject, bundles, bundle);
    }
    assert(stored_drift(after, subject, head) == windows_drift(all)) by {
        lemma_ring_windows(after, subject, all, WINDOW_N as nat);
    }
    assert(temporal_outcome(store, subject, bundle).0.drift == stored_drift(
        after,
        subject,
        head,
    )) by {
        reveal(temporal_outcome);
    }
}

/// The store after bundles of one subject have gone through the temporal layer.
pub open spec fn after_bundles(
    store: Store,
    subject: Seq<char>,
    bundles: Seq<(Seq<usize>, Seq<usize>)>,
) -> Store
    decreases bundles.len(),
{
    if bundles.len() == 0 {
        store
    } else {
        let before = after_bundles(store, subject, bundles.drop_last());
        temporal_outcome(before, subject, bundles.last()).1
    }
}

/// A subject whose ring nothing has been written to.
pub open spec fn fresh_ring(store: Store, subject: Seq<char>) -> bool {
    !store.contains_key(head_key(subject)) && !store.contains_key(size_key(subject))
}

/// The temporal layer keeps the last two windows of bundles.
pub proof fn lemma_bundles_ring(
    store: Store,
    subject: Seq<char>,
    bundles: Seq<(Seq<usize>, Seq<usize>)>,
)
    requires
        fresh_ring(store, subject),
        bundles.len() <= usize::MAX,
        bundles.len() <= u64::MAX,
        forall|i: int| 0 <= i < bundles.len() ==> of_machine_size(#[trigger] bundles[i]),
    ensures
        ring_of(after_bundles(store, subject, bundles), subject, bundles),
    decreases bundles.len(),
{
    if bundles.len() > 0 {
        let init = bundles.drop_last();
        let last = bundles.last();
        assert(of_machine_size(bundles[bundles.len() - 1]));
        assert forall|i: int| 0 <= i < init.len() implies of_machine_size(
            #[trigger] init[i],
        ) by {
            assert(init[i] == bundles[i]);
        }
        lemma_bundles_ring(store, subject, init);
        let before = after_bundles(store, subject, init);
        lemma_temporal_ring(before, subject, last);
        lemma_ring_step(
            before,
            temporal_outcome(before, subject, last).1,
            subject,
            init,
            last,
        );
        assert(init.push(last) =~= bundles);
    }
}

/// From the bundle that fills the second window on, a temporal run on a fresh
/// subject finds the drift between the last window of bundles and the one before.
pub proof fn lemma_temporal_drift(
    store: Store,
    subject: Seq<char>,
    bundles: Seq<(Seq<usize>, Seq<usize>)>,
    bundle: (Seq<usize>, Seq<usize>),
)
    requires
        fresh_ring(store, subject),
        2 * WINDOW_N <= bundles.len() + 1 <= usize::MAX,
        bundles.len() < u64::MAX,
        of_machine_size(bundle),
        forall|i: int| 0 <= i < bundles.len() ==> of_machine_size(#[trigger] bundles[i]),
    ensures
        temporal_outcome(after_bundles(store, subject, bundles), subject, bundle).0.drift
            == windows_drift(bundles.push(bundle)),
{
    lemma_bundles_ring(store, subject, bundles);
    lemma_ring_drift(after_bundles(store, subject, bundles), subject, bundles, bundle);
}

/// The bundles of messages.
pub open spec fn bundles_of(
    messages: Seq<Seq<(Seq<char>, (Seq<usize>, Seq<usize>))>>,
) -> Seq<(Seq<usize>, Seq<usize>)> {
    Seq::new(messages.len(), |i: int| bundle_of(messages[i]))
}

/// What the temporal layer keeps of `bundles`.
#[verifier::opaque]
spec fn kept(
    store: Store,
    subject: Seq<char>,
    bundles: Seq<(Seq<usize>, Seq<usize>)>,
) -> bool {
    ring_of(store, subject, bundles) && history(store.get(history_key(subject))).len()
        <= HISTORY_LEN
}

/// One more message in the slots and in the drift history.
proof fn lemma_message_kept(
    store: Store,
    subject: Seq<char>,
    fields: Seq<(Seq<char>, (Seq<usize>, Seq<usize>))>,
    bundles: Seq<(Seq<usize>, Seq<usize>)>,
    exponential: spec_fn(Single) -> Single,
)
    requires
        kept(store, subject, bundles),
        of_machine_size(bundle_of(fields)),
        bundles.len() < usize::MAX,
        bundles.len() < u64::MAX,
    ensures
        kept(
            message_outcome(store, subject, fields, bundle_of(fields), exponential).1,
            subject,
            bundles.push(bundle_of(fields)),
        ),
{
    let bundle = bundle_of(fields);
    let after = message_outcome(store, subject, fields, bundle, exponential).1;
    reveal(kept);
    assert(ring_of(after, subject, bundles.push(bundle))) by {
        lemma_message_ring(store, subject, fields, bundle, exponential);
        lemma_ring_step(store, after, subject, bundles, bundle);
    }
    assert(history(after.get(history_key(subject))).len() <= HISTORY_LEN) by {
        lemma_message_temporal_history(store, subject, fields, bundle, exponential);
    }
}

proof fn lemma_messages_kept(
    store: Store,
    subject: Seq<char>,
    messages: Seq<Seq<(Seq<char>, (Seq<usize>, Seq<usize>))>>,
    exponential: spec_fn(Single) -> Single,
)
    requires
        kept(store, subject, Seq::empty()),
        all_of_machine_size(messages),
        messages.len() <= usize::MAX,
        messages.len() <= u64::MAX,
    ensures
        kept(
            after_messages(store, subject, messages, exponential),
            subject,
            bundles_of(messages),
        ),
    decreases messages.len(),
{
    if messages.len() > 0 {
        let init = messages.drop_last();
        let last = messages.last();
        assert(of_machine_size(bundle_of(messages[messages.len() - 1])));
        assert(all_of_machine_size(init)) by {
            assert forall|i: int| 0 <= i < init.len() implies of_machine_size(
                bundle_of(#[trigger] init[i]),
            ) by {
                assert(init[i] == messages[i]);
            }
        }
        lemma_messages_kept(store, subject, init, exponential);
        let before = after_messages(store, subject, init, exponential);
        lemma_message_kept(before, subject, last, bundles_of(init), exponential);
        assert(bundles_of(init).push(bundle_of(last)) =~= bundles_of(messages));
    } else {
        assert(bundles_of(messages) =~= Seq::empty());
    }
}

/// The slots keep the bundles of the last two windows of messages of a fresh
/// subject, and the drift history stays within its length.
pub proof fn lemma_messages_ring(
    store: Store,
    subject: Seq<char>,
    messages: Seq<Seq<(Seq<char>, (Seq<usize>, Seq<usize>))>>,
    exponential: spec_fn(Single) -> Single,
)
    requires
        fresh_ring(store, subject),
        history(store.get(history_key(subject))).len() <= HISTORY_LEN,
        all_of_machine_size(messages),
        messages.len() <= usize::MAX,
        messages.len() <= u64::MAX,
    ensures
        ({
            let after = after_messages(store, subject, messages, exponential);
            &&& ring_of(after, subject, bundles_of(messages))
            &&& history(after.get(history_key(subject))).len() <= HISTORY_LEN
        }),
{
    reveal(kept);
    lemma_messages_kept(store, subject, messages, exponential);
}

/// What a message does to the drift history and how its result tells of it.
proof fn lemma_message_temporal_history(
    store: Store,
    subject: Seq<char>,
    fields: Seq<(Seq<char>, (Seq<usize>, Seq<usize>))>,
    bundle: (Seq<usize>, Seq<usize>),
    exponential: spec_fn(Single) -> Single,
)
    requires
        history(store.get(history_key(subject))).len() <= HISTORY_LEN,
    ensures
        ({
            let size = counter(store.get(size_key(subject)));
            let outcome = message_outcome(store, subject, fields, bundle, exponential);
            let drift = temporal_outcome(
                learned_store(store, subject, fields, bundle),
                subject,
                bundle,
            ).0.drift;
            let old = history(store.get(history_key(subject)));
            let h = history(outcome.1.get(history_key(subject)));
            &&& h.len() <= HISTORY_LEN
            &&& grown(size) < WARM_SIZE ==> h == old
            &&& grown(size) >= WARM_SIZE ==> h == extended(old, drift) && h.len() > 0 && h.last()
                == drift
                && outcome.0.temporal_label == Some(drift_class(drift, slope(h)).0)
                && outcome.0.temporal_confidence == Some(drift_class(drift, slope(h)).1)
        }),
{
    reveal(message_outcome);
    let learned = learned_store(store, subject, fields, bundle);
    let outcome = message_outcome(store, subject, fields, bundle, exponential);
    let t = temporal_outcome(learned, subject, bundle);
    lemma_keys(subject);
    lemma_learned_window(store, subject, fields, bundle, size_key(subject));
    lemma_learned_window(store, subject, fields, bundle, history_key(subject));
    assert(outcome.1 == t.1);
    lemma_temporal_history(learned, subject, bundle);
    if grown(counter(store.get(size_key(subject)))) >= WARM_SIZE {
        let h = history(t.1.get(history_key(subject)));
        lemma_warm_result(learned, subject, bundle, h);
        lemma_drift_result_is_warm(t.0.drift, h);
    }
}

/// A message leaves the drift history alone before two windows are full.
pub(crate) proof fn lemma_history_waits(
    store: Store,
    subject: Seq<char>,
    fields: Seq<(Seq<char>, (Seq<usize>, Seq<usize>))>,
    bundle: (Seq<usize>, Seq<usize>),
    exponential: spec_fn(Single) -> Single,
)
    requires
        history(store.get(history_key(subject))).len() <= HISTORY_LEN,
        grown(counter(store.get(size_key(subject)))) < WARM_SIZE,
    ensures
        ({
            let after = message_outcome(store, subject, fields, bundle, exponential).1;
            history(after.get(history_key(subject))) == history(store.get(history_key(subject)))
        }),
{
    lemma_message_temporal_history(store, subject, fields, bundle, exponential);
}

proof fn lemma_warm_result(
    store: Store,
    subject: Seq<char>,
    bundle: (Seq<usize>, Seq<usize>),
    h: Seq<Single>,
)
    requires
        grown(counter(store.get(size_key(subject)))) >= WARM_SIZE,
        h == extended(
            history(store.get(history_key(subject))),
            temporal_outcome(store, subject, bundle).0.drift,
        ),
    ensures
        ({
            let t = temporal_outcome(store, subject, bundle).0;
            t == drift_result(t.drift, h)
        }),
{
    reveal(temporal_outcome);
    lemma_keys(subject);
    let mid = with_bundle(store, subject, bundle);
    assert(mid.get(history_key(subject)) == store.get(history_key(subject)));
}

/// From the message that fills the second window on, a fresh subject's drift history
/// ends with the drift between the bundles of the last window of messages and those
/// of the window before, and the result tells the class of that drift.
pub proof fn lemma_stream_drift(
    store: Store,
    subject: Seq<char>,
    messages: Seq<Seq<(Seq<char>, (Seq<usize>, Seq<usize>))>>,
    next: Seq<(Seq<char>, (Seq<usize>, Seq<usize>))>,
    exponential: spec_fn(Single) -> Single,
)
    requires
        fresh_ring(store, subject),
        history(store.get(history_key(subject))).len() <= HISTORY_LEN,
        all_of_machine_size(messages),
        of_machine_size(bundle_of(next)),
        2 * WINDOW_N <= messages.len() + 1 <= usize::MAX,
        messages.len() < u64::MAX,
    ensures
        ({
            let before = after_messages(store, subject, messages, exponential);
            let outcome = message_outcome(before, subject, next, bundle_of(next), exponential);
            let drift = windows_drift(bundles_of(messages.push(next)));
            let h = history(outcome.1.get(history_key(subject)));
            &&& h == extended(history(before.get(history_key(subject))), drift)
            &&& h.len() > 0
            &&& h.last() == drift
            &&& outcome.0.temporal_label == Some(drift_class(drift, slope(h)).0)
            &&& outcome.0.temporal_confidence == Some(drift_class(drift, slope(h)).1)
        }),
{
    let before = after_messages(store, subject, messages, exponential);
    let bundle = bundle_of(next);
    let learned = learned_store(before, subject, next, bundle);
    lemma_messages_ring(store, subject, messages, exponential);
    assert(temporal_outcome(learned, subject, bundle).0.drift == windows_drift(
        bundles_of(messages).push(bundle),
    )) by {
        lemma_learned_ring(before, subject, next, bundle);
        lemma_same_ring_of(before, learned, subject, bundles_of(messages));
        lemma_ring_drift(learned, subject, bundles_of(messages), bundle);
    }
    assert(bundles_of(messages).push(bundle) =~= bundles_of(messages.push(next)));
    assert(grown(counter(before.get(size_key(subject)))) >= WARM_SIZE);
    lemma_message_temporal_history(before, subject, next, bundle, exponential);
}

/// Whether a key is one that a message of `subject` may write.
pub open spec fn written_by(
    key: Seq<char>,
    subject: Seq<char>,
    fields: Seq<(Seq<char>, (Seq<usize>, Seq<usize>))>,
) -> bool {
    ||| key == count_key(subject)
    ||| key == mean_vec_key(subject)
    ||| key == mean_score_key(subject)
    ||| key == m2_key(subject)
    ||| key == head_key(subject)
    ||| key == size_key(subject)
    ||| key == history_key(subject)
    ||| exists|slot: nat| slot < 2 * WINDOW_N && key == #[trigger] slot_key(subject, slot)
    ||| exists|i: int| 0 <= i < fields.len() && key == ema_key(subject, (#[trigger] fields[i]).0)
}

/// A message changes nothing but the counters, statistics, field vectors, ring and
/// history of its own subject.
pub proof fn lemma_message_frame(
    store: Store,
    subject: Seq<char>,
    fields: Seq<(Seq<char>, (Seq<usize>, Seq<usize>))>,
    bundle: (Seq<usize>, Seq<usize>),
    exponential: spec_fn(Single) -> Single,
    key: Seq<char>,
)
    requires
        !written_by(key, subject, fields),
    ensures
        message_outcome(store, subject, fields, bundle, exponential).1.get(key) == store.get(key),
{
    reveal(message_outcome);
    reveal(temporal_outcome);
    let n = incremented(counter(store.get(count_key(subject))));
    let base = if n <= MIN_SAMPLES {
        with_mean(store, subject, bundle)
    } else {
        with_statistics(store, subject, bundle, n)
    };
    let learned = learned_store(store, subject, fields, bundle);
    assert forall|i: int| 0 <= i < fields.len() implies key != ema_key(
        subject,
        (#[trigger] fields[i]).0,
    ) by {}
    lemma_fields_frame(base, subject, fields, fields.len(), key);
    assert(learned.get(key) == store.get(key));
    let head = counter(learned.get(head_key(subject)));
    assert(ring_slot(head) < WINDOW_N);
    assert(key != slot_key(subject, ring_slot(head)));
    assert(key != slot_key(subject, displaced_slot(ring_slot(head))));
    assert(temporal_outcome(learned, subject, bundle).1.get(key) == learned.get(key));
}

/// Keys of the same kind tell their subjects apart.
pub(crate) proof fn lemma_subject_keys(a: Seq<char>, b: Seq<char>)
    requires
        a != b,
    ensures
        count_key(a) != count_key(b),
        mean_vec_key(a) != mean_vec_key(b),
        mean_score_key(a) != mean_score_key(b),
        m2_key(a) != m2_key(b),
        head_key(a) != head_key(b),
        size_key(a) != size_key(b),
        history_key(a) != history_key(b),
{
    if count_key(a) == count_key(b) {
        lemma_between("stats:v1:"@, a, b, ":n"@);
    }
    if mean_vec_key(a) == mean_vec_key(b) {
        lemma_between("stats:v1:"@, a, b, ":mean_vec"@);
    }
    if mean_score_key(a) == mean_score_key(b) {
        lemma_between("stats:v1:"@, a, b, ":mean_score"@);
    }
    if m2_key(a) == m2_key(b) {
        lemma_between("stats:v1:"@, a, b, ":m2"@);
    }
    if head_key(a) == head_key(b) {
        lemma_between("window:ring:"@, a, b, ":head"@);
    }
    if size_key(a) == size_key(b) {
        lemma_between("window:ring:"@, a, b, ":size"@);
    }
    if history_key(a) == history_key(b) {
        lemma_between("window:drift:"@, a, b, ":history"@);
    }
}

/// Whether a key belongs to the counters, statistics, ring or history of `subject`.
pub open spec fn kept_for(key: Seq<char>, subject: Seq<char>) -> bool {
    ||| key == count_key(subject)
    ||| key == mean_vec_key(subject)
    ||| key == mean_score_key(subject)
    ||| key == m2_key(subject)
    ||| key == head_key(subject)
    ||| key == size_key(subject)
    ||| key == history_key(subject)
    ||| exists|slot: nat| key == #[trigger] slot_key(subject, slot)
}

/// A key kept for one subject is never written by a message of another.
#[verifier::rlimit(30)]
proof fn lemma_foreign_key(
    subject: Seq<char>,
    fields: Seq<(Seq<char>, (Seq<usize>, Seq<usize>))>,
    other: Seq<char>,
    key: Seq<char>,
)
    requires
        subject != other,
        kept_for(key, other),
    ensures
        !written_by(key, subject, fields),
{
    lemma_keys(subject);
    lemma_keys(other);
    lemma_subject_keys(subject, other);
    let slotted = exists|slot: nat| key == #[trigger] slot_key(other, slot);
    if slotted {
        let own = choose|own: nat| key == #[trigger] slot_key(other, own);
        assert forall|slot: nat| slot < 2 * WINDOW_N implies key != #[trigger] slot_key(
            subject,
            slot,
        ) by {
            if key == slot_key(subject, slot) {
                lemma_slot_keys(subject, slot, other, own);
            }
        }
        assert(key[0] == 'w' && key[7] == 's');
    } else {
        assert(key[0] == 's' || (key[0] == 'w' && key[7] != 's'));
        assert forall|slot: nat| slot < 2 * WINDOW_N implies key != #[trigger] slot_key(
            subject,
            slot,
        ) by {
            assert(slot_key(subject, slot)[7] == 's');
        }
    }
    assert forall|i: int| 0 <= i < fields.len() implies key != ema_key(
        subject,
        (#[trigger] fields[i]).0,
    ) by {
        assert(ema_key(subject, fields[i].0)[0] == 'e');
    }
}

/// Messages of one subject leave the counters, statistics, ring and history of
/// every other subject alone.
pub proof fn lemma_subjects_apart(
    store: Store,
    subject: Seq<char>,
    fields: Seq<(Seq<char>, (Seq<usize>, Seq<usize>))>,
    bundle: (Seq<usize>, Seq<usize>),
    exponential: spec_fn(Single) -> Single,
    other: Seq<char>,
    key: Seq<char>,
)
    requires
        subject != other,
        kept_for(key, other),
    ensures
        message_outcome(store, subject, fields, bundle, exponential).1.get(key) == store.get(key),
{
    lemma_foreign_key(subject, fields, other, key);
    lemma_message_frame(store, subject, fields, bundle, exponential, key);
}

/// The running vector of field `i` once the first `k` fields are taken in.
proof fn lemma_field_stored(
    store: Store,
    subject: Seq<char>,
    fields: Seq<(Seq<char>, (Seq<usize>, Seq<usize>))>,
    k: nat,
    i: int,
)
    requires
        0 <= i < k <= fields.len(),
        distinct_names(fields),
    ensures
        ({
            let key = ema_key(subject, fields[i].0);
            with_fields(store, subject, fields, k).get(key) == Some(
                vector_record(running(vector(store.get(key)), fields[i].1)),
            )
        }),
    decreases k,
{
    let key = ema_key(subject, fields[i].0);
    if i == k - 1 {
        assert forall|j: int| 0 <= j < k - 1 implies key != ema_key(
            subject,
            (#[trigger] fields[j]).0,
        ) by {
            if key == ema_key(subject, fields[j].0) {
                lemma_ema_keys(subject, fields[i].0, fields[j].0);
            }
        }
        lemma_fields_frame(store, subject, fields, (k - 1) as nat, key);
    } else {
        lemma_field_stored(store, subject, fields, (k - 1) as nat, i);
        if key == ema_key(subject, fields[k - 1].0) {
            lemma_ema_keys(subject, fields[i].0, fields[k - 1].0);
        }
    }
}

/// What a message leaves under keys outside the temporal layer.
proof fn lemma_learned(
    store: Store,
    subject: Seq<char>,
    fields: Seq<(Seq<char>, (Seq<usize>, Seq<usize>))>,
    bundle: (Seq<usize>, Seq<usize>),
    exponential: spec_fn(Single) -> Single,
    key: Seq<char>,
)
    requires
        key[0] != 'w',
    ensures
        message_outcome(store, subject, fields, bundle, exponential).1.get(key) == learned_store(
            store,
            subject,
            fields,
            bundle,
        ).get(key),
{
    reveal(message_outcome);
    lemma_window_prefix(key);
    lemma_temporal_frame(learned_store(store, subject, fields, bundle), subject, bundle, key);
}

/// A message leaves behind what the next one is compared with: the mean bundle and
/// each field's vector have taken it in, and after the warm-up so have the mean and
/// the spread of the scores, which the warm-up leaves alone.
pub proof fn lemma_message_learns(
    store: Store,
    subject: Seq<char>,
    fields: Seq<(Seq<char>, (Seq<usize>, Seq<usize>))>,
    bundle: (Seq<usize>, Seq<usize>),
    exponential: spec_fn(Single) -> Single,
    i: int,
)
    requires
        0 <= i < fields.len(),
        distinct_names(fields),
        of_machine_size(running(vector(store.get(mean_vec_key(subject))), bundle)),
        of_machine_size(
            running(vector(store.get(ema_key(subject, fields[i].0))), fields[i].1),
        ),
    ensures
        ({
            let n = incremented(counter(store.get(count_key(subject))));
            let after = message_outcome(store, subject, fields, bundle, exponential).1;
            let s = message_scores(store, subject, bundle, n);
            let mean = mean_vec_key(subject);
            let ema = ema_key(subject, fields[i].0);
            &&& vector(after.get(mean)) == Some(running(vector(store.get(mean)), bundle))
            &&& vector(after.get(ema)) == Some(running(vector(store.get(ema)), fields[i].1))
            &&& n > MIN_SAMPLES ==> number(after.get(mean_score_key(subject))) == s.0 && number(
                after.get(m2_key(subject)),
            ) == s.1
            &&& n <= MIN_SAMPLES ==> after.get(mean_score_key(subject)) == store.get(
                mean_score_key(subject),
            ) && after.get(m2_key(subject)) == store.get(m2_key(subject))
        }),
{
    let n = incremented(counter(store.get(count_key(subject))));
    let mean = mean_vec_key(subject);
    let ema = ema_key(subject, fields[i].0);
    let base = if n <= MIN_SAMPLES {
        with_mean(store, subject, bundle)
    } else {
        with_statistics(store, subject, bundle, n)
    };
    lemma_keys(subject);
    lemma_message_statistics(store, subject, fields, bundle, exponential);
    lemma_vector_round_trip(running(vector(store.get(mean)), bundle));
    lemma_vector_round_trip(running(vector(store.get(ema)), fields[i].1));
    lemma_learned(store, subject, fields, bundle, exponential, mean);
    lemma_learned(store, subject, fields, bundle, exponential, ema);
    lemma_field_stored(base, subject, fields, fields.len(), i);
    lemma_fields_frame(base, subject, fields, fields.len(), mean);
    assert(base.get(ema) == store.get(ema));
}

/// What a message leaves of the mean and the spread of the scores.
pub(crate) proof fn lemma_message_statistics(
    store: Store,
    subject: Seq<char>,
    fields: Seq<(Seq<char>, (Seq<usize>, Seq<usize>))>,
    bundle: (Seq<usize>, Seq<usize>),
    exponential: spec_fn(Single) -> Single,
)
    ensures
        ({
            let n = incremented(counter(store.get(count_key(subject))));
            let after = message_outcome(store, subject, fields, bundle, exponential).1;
            let s = message_scores(store, subject, bundle, n);
            &&& n > MIN_SAMPLES ==> number(after.get(mean_score_key(subject))) == s.0 && number(
                after.get(m2_key(subject)),
            ) == s.1
            &&& n <= MIN_SAMPLES ==> after.get(mean_score_key(subject)) == store.get(
                mean_score_key(subject),
            ) && after.get(m2_key(subject)) == store.get(m2_key(subject))
        }),
{
    let n = incremented(counter(store.get(count_key(subject))));
    let s = message_scores(store, subject, bundle, n);
    let base = if n <= MIN_SAMPLES {
        with_mean(store, subject, bundle)
    } else {
        with_statistics(store, subject, bundle, n)
    };
    lemma_keys(subject);
    lemma_number_round_trip(s.0);
    lemma_number_round_trip(s.1);
    lemma_learned(store, subject, fields, bundle, exponential, mean_score_key(subject));
    lemma_learned(store, subject, fields, bundle, exponential, m2_key(subject));
    lemma_fields_frame(base, subject, fields, fields.len(), mean_score_key(subject));
    lemma_fields_frame(base, subject, fields, fields.len(), m2_key(subject));
}

}
