//! Temporal layer: drift between sliding windows of message bundles.
//!
//! A [`TemporalRun`] keeps the last two windows of `WINDOW_N` bundles of a subject in
//! slots of the store, compares them, and classifies the drift.  The first `WINDOW_N`
//! slots are a ring of the newest bundles; what a new bundle displaces moves on to the
//! slot `WINDOW_N` further.

use crate::bounds::lemma_drift_range;
use crate::codec::{
    counter, drift_record, history, le_bytes, load_drift_history, load_u64, load_vec,
    save_drift_history, save_u64, save_vec, vector, vector_record,
};
use crate::encode::{bundle_list, superposition, vectors, vectors_well_formed};
use crate::protocol::{Action, ActionView, Answer, AnswerView};
use crate::single::{difference, greater_of, lemma_one_less, Single, ONE};
use crate::stats::{classify_drift, drift_class, linear_slope, slope, HALF, HISTORY_LEN, WINDOW_N};
use crate::text::{decimal, decimal_text, join, prefixed};
use crate::vsa::{empty, optional, orthogonal, similarity_of, well_formed, SparseVec};
use vstd::prelude::*;
use vstd::string::*;

verus! {

/// Bundles that must have been seen before drift is classified: two windows.
pub const WARM_SIZE: u64 = 40;

/// Result of the temporal drift analysis.
#[derive(Debug)]
pub struct TemporalResult {
    pub label: String,
    pub confidence: Single,
    pub drift: Single,
    pub drift_rate: Single,
}

pub struct TemporalResultView {
    pub label: Seq<char>,
    pub confidence: Single,
    pub drift: Single,
    pub drift_rate: Single,
}

impl View for TemporalResult {
    type V = TemporalResultView;

    open spec fn view(&self) -> TemporalResultView {
        TemporalResultView {
            label: self.label@,
            confidence: self.confidence,
            drift: self.drift,
            drift_rate: self.drift_rate,
        }
    }
}

pub open spec fn head_key(subject: Seq<char>) -> Seq<char> {
    "window:ring:"@ + subject + ":head"@
}

pub open spec fn size_key(subject: Seq<char>) -> Seq<char> {
    "window:ring:"@ + subject + ":size"@
}

pub open spec fn slot_key(subject: Seq<char>, slot: nat) -> Seq<char> {
    "window:slot:"@ + subject + ":"@ + decimal(slot)
}

pub open spec fn history_key(subject: Seq<char>) -> Seq<char> {
    "window:drift:"@ + subject + ":history"@
}

/// The slot that the write pointer `head` points to.
pub open spec fn ring_slot(head: u64) -> nat {
    (head as usize) as nat % WINDOW_N as nat
}

/// The write pointer after one more bundle.
pub open spec fn advanced(head: u64) -> u64 {
    if head == u64::MAX {
        0
    } else {
        (head + 1) as u64
    }
}

/// The fill count after one more bundle; it stays at two windows.
pub open spec fn grown(size: u64) -> u64 {
    if advanced(size) < WARM_SIZE {
        advanced(size)
    } else {
        WARM_SIZE
    }
}

/// Slot `i` of the newest window, with the write pointer already advanced: the slot
/// that is written next holds the oldest bundle.
pub open spec fn window_slot(head: u64, i: nat) -> nat {
    (ring_slot(head) + i) % WINDOW_N as nat
}

/// The slot that takes what is displaced from ring slot `slot`.
pub open spec fn displaced_slot(slot: nat) -> nat {
    WINDOW_N as nat + slot
}

/// The slot that is read as number `i` of both windows, the newest first.
pub open spec fn read_slot(head: u64, i: nat) -> nat {
    if i < WINDOW_N {
        window_slot(head, i)
    } else {
        displaced_slot(window_slot(head, (i - WINDOW_N) as nat))
    }
}

/// How far the two windows have drifted apart; zero when one of them is empty.
pub open spec fn drift_between(
    now: Seq<(Seq<usize>, Seq<usize>)>,
    prev: Seq<(Seq<usize>, Seq<usize>)>,
) -> Single {
    match (superposition(now), superposition(prev)) {
        (Some(a), Some(b)) => greater_of(
            difference(Single { bits: ONE }, similarity_of(a, b)),
            Single { bits: 0 },
        ),
        _ => Single { bits: 0 },
    }
}

/// The drift history with one more value; beyond `HISTORY_LEN` the oldest goes.
pub open spec fn extended(old: Seq<Single>, drift: Single) -> Seq<Single> {
    let all = old.push(drift);
    if all.len() > HISTORY_LEN {
        all.skip(1)
    } else {
        all
    }
}

/// The result while fewer than two windows of bundles have been seen.
pub open spec fn warming_result() -> TemporalResultView {
    TemporalResultView {
        label: "temporal_warming_up"@,
        confidence: Single { bits: HALF },
        drift: Single { bits: 0 },
        drift_rate: Single { bits: 0 },
    }
}

/// The result for a drift and the history that ends with it.
pub open spec fn drift_result(drift: Single, values: Seq<Single>) -> TemporalResultView {
    let rate = slope(values);
    let class = drift_class(drift, rate);
    TemporalResultView { label: class.0, confidence: class.1, drift, drift_rate: rate }
}

/// How far a temporal run has come.
#[derive(Debug)]
pub enum TemporalStage {
    /// Reading the write pointer.
    Head,
    /// Reading the fill count.
    Size { head: u64 },
    /// Reading the slot of the new bundle.
    Slot { head: u64, size: u64 },
    /// Writing what the new bundle displaces to a slot further on.
    Displace { head: u64, size: u64, displaced: Vec<u8> },
    /// Writing the new bundle to its slot.
    SaveSlot { head: u64, size: u64 },
    /// Writing the advanced pointer.
    SaveHead { head: u64, size: u64 },
    /// Writing the grown fill count.
    SaveSize { head: u64, size: u64 },
    /// Reading slot `index` of the two windows.
    Window { head: u64, index: usize, now: Vec<SparseVec>, prev: Vec<SparseVec> },
    /// Reading the drift history.
    History { drift: Single },
    /// Writing the extended drift history.
    SaveHistory { drift: Single, values: Vec<Single> },
    /// Over.
    Done { result: TemporalResult },
}

pub enum TemporalStageView {
    Head,
    Size { head: u64 },
    Slot { head: u64, size: u64 },
    Displace { head: u64, size: u64, displaced: Seq<u8> },
    SaveSlot { head: u64, size: u64 },
    SaveHead { head: u64, size: u64 },
    SaveSize { head: u64, size: u64 },
    Window {
        head: u64,
        index: nat,
        now: Seq<(Seq<usize>, Seq<usize>)>,
        prev: Seq<(Seq<usize>, Seq<usize>)>,
    },
    History { drift: Single },
    SaveHistory { drift: Single, values: Seq<Single> },
    Done { result: TemporalResultView },
}

impl View for TemporalStage {
    type V = TemporalStageView;

    open spec fn view(&self) -> TemporalStageView {
        match *self {
            TemporalStage::Head => TemporalStageView::Head,
            TemporalStage::Size { head } => TemporalStageView::Size { head },
            TemporalStage::Slot { head, size } => TemporalStageView::Slot { head, size },
            TemporalStage::Displace { head, size, displaced } => TemporalStageView::Displace {
                head,
                size,
                displaced: displaced@,
            },
            TemporalStage::SaveSlot { head, size } => TemporalStageView::SaveSlot { head, size },
            TemporalStage::SaveHead { head, size } => TemporalStageView::SaveHead { head, size },
            TemporalStage::SaveSize { head, size } => TemporalStageView::SaveSize { head, size },
            TemporalStage::Window { head, index, now, prev } => TemporalStageView::Window {
                head,
                index: index as nat,
                now: vectors(now@),
                prev: vectors(prev@),
            },
            TemporalStage::History { drift } => TemporalStageView::History { drift },
            TemporalStage::SaveHistory { drift, values } => TemporalStageView::SaveHistory {
                drift,
                values: values@,
            },
            TemporalStage::Done { result } => TemporalStageView::Done { result: result@ },
        }
    }
}

/// Classification of the drift of one subject, upon one new bundle.
#[derive(Debug)]
pub struct TemporalRun {
    pub subject: String,
    pub bundle: SparseVec,
    pub stage: TemporalStage,
}

pub struct TemporalRunView {
    pub subject: Seq<char>,
    pub bundle: (Seq<usize>, Seq<usize>),
    pub stage: TemporalStageView,
}

impl View for TemporalRun {
    type V = TemporalRunView;

    open spec fn view(&self) -> TemporalRunView {
        TemporalRunView {
            subject: self.subject@,
            bundle: self.bundle@,
            stage: self.stage@,
        }
    }
}

/// `s` with one more vector, if there is one.
pub open spec fn with_vector(
    s: Seq<(Seq<usize>, Seq<usize>)>,
    v: Option<(Seq<usize>, Seq<usize>)>,
) -> Seq<(Seq<usize>, Seq<usize>)> {
    match v {
        Some(v) => s.push(v),
        None => s,
    }
}

impl TemporalRunView {
    /// A run that has not done anything yet.
    pub open spec fn start(subject: Seq<char>, bundle: (Seq<usize>, Seq<usize>)) -> Self {
        TemporalRunView { subject, bundle, stage: TemporalStageView::Head }
    }

    /// The windows are read slot by slot.
    pub open spec fn sound(self) -> bool {
        match self.stage {
            TemporalStageView::Window { index, .. } => index < 2 * WINDOW_N,
            _ => true,
        }
    }

    pub open spec fn at(self, stage: TemporalStageView) -> Self {
        TemporalRunView { stage, ..self }
    }

    /// What the run wants done next.
    pub open spec fn action(self) -> ActionView {
        match self.stage {
            TemporalStageView::Head => ActionView::Load(head_key(self.subject)),
            TemporalStageView::Size { .. } => ActionView::Load(size_key(self.subject)),
            TemporalStageView::Slot { head, .. } => ActionView::Load(
                slot_key(self.subject, ring_slot(head)),
            ),
            TemporalStageView::Displace { head, displaced, .. } => ActionView::Save(
                slot_key(self.subject, displaced_slot(ring_slot(head))),
                displaced,
            ),
            TemporalStageView::SaveSlot { head, .. } => ActionView::Save(
                slot_key(self.subject, ring_slot(head)),
                vector_record(self.bundle),
            ),
            TemporalStageView::SaveHead { head, .. } => ActionView::Save(
                head_key(self.subject),
                le_bytes(advanced(head) as nat, 8),
            ),
            TemporalStageView::SaveSize { size, .. } => ActionView::Save(
                size_key(self.subject),
                le_bytes(grown(size) as nat, 8),
            ),
            TemporalStageView::Window { head, index, .. } => ActionView::Load(
                slot_key(self.subject, read_slot(head, index)),
            ),
            TemporalStageView::History { .. } => ActionView::Load(history_key(self.subject)),
            TemporalStageView::SaveHistory { values, .. } => ActionView::Save(
                history_key(self.subject),
                drift_record(values),
            ),
            TemporalStageView::Done { .. } => ActionView::Done,
        }
    }

    /// The run once it knows how its action went.  An answer of another kind
    /// than was asked for changes nothing.
    pub open spec fn next(self, answer: AnswerView) -> Self {
        match (self.stage, answer) {
            (TemporalStageView::Head, AnswerView::Loaded(got)) => self.at(
                TemporalStageView::Size { head: counter(got) },
            ),
            (TemporalStageView::Size { head }, AnswerView::Loaded(got)) => self.at(
                TemporalStageView::Slot { head, size: counter(got) },
            ),
            (TemporalStageView::Slot { head, size }, AnswerView::Loaded(got)) => match got {
                Some(displaced) => self.at(TemporalStageView::Displace { head, size, displaced }),
                None => self.at(TemporalStageView::SaveSlot { head, size }),
            },
            (TemporalStageView::Displace { head, size, .. }, AnswerView::Saved(_)) => self.at(
                TemporalStageView::SaveSlot { head, size },
            ),
            (TemporalStageView::SaveSlot { head, size }, AnswerView::Saved(_)) => self.at(
                TemporalStageView::SaveHead { head, size },
            ),
            (TemporalStageView::SaveHead { head, size }, AnswerView::Saved(_)) => self.at(
                TemporalStageView::SaveSize { head, size },
            ),
            (TemporalStageView::SaveSize { head, size }, AnswerView::Saved(_)) => if grown(size)
                < WARM_SIZE {
                self.at(TemporalStageView::Done { result: warming_result() })
            } else {
                self.at(
                    TemporalStageView::Window {
                        head: advanced(head),
                        index: 0,
                        now: Seq::empty(),
                        prev: Seq::empty(),
                    },
                )
            },
            (TemporalStageView::Window { head, index, now, prev }, AnswerView::Loaded(got)) => {
                let now = if index < WINDOW_N {
                    with_vector(now, vector(got))
                } else {
                    now
                };
                let prev = if index < WINDOW_N {
                    prev
                } else {
                    with_vector(prev, vector(got))
                };
                if index + 1 < 2 * WINDOW_N {
                    self.at(TemporalStageView::Window { head, index: index + 1, now, prev })
                } else {
                    self.at(TemporalStageView::History { drift: drift_between(now, prev) })
                }
            },
            (TemporalStageView::History { drift }, AnswerView::Loaded(got)) => self.at(
                TemporalStageView::SaveHistory { drift, values: extended(history(got), drift) },
            ),
            (TemporalStageView::SaveHistory { drift, values }, AnswerView::Saved(_)) => self.at(
                TemporalStageView::Done { result: drift_result(drift, values) },
            ),
            _ => self,
        }
    }
}

/// Adds a vector to a list, if there is one.
fn add_vector(list: Vec<SparseVec>, v: Option<SparseVec>) -> (r: Vec<SparseVec>)
    ensures
        vectors(r@) == with_vector(vectors(list@), optional(v)),
{
    let mut r = list;
    match v {
        Some(v) => {
            r.push(v);
            assert(vectors(r@) =~= vectors(list@).push(v@));
        },
        None => {},
    }
    r
}

/// How far two windows have drifted apart: not at all when they bundle to the same
/// vector, by one when their bundles share no dimension, and by two at most.
pub fn window_drift(now: &Vec<SparseVec>, prev: &Vec<SparseVec>) -> (drift: Single)
    ensures
        drift == drift_between(vectors(now@), vectors(prev@)),
        match (superposition(vectors(now@)), superposition(vectors(prev@))) {
            (Some(a), Some(b)) => {
                &&& well_formed(a) && a == b && !empty(a) ==> drift.bits == 0
                &&& well_formed(a) && well_formed(b) && orthogonal(a, b) ==> drift.bits == ONE
            },
            _ => drift.bits == 0,
        },
        vectors_well_formed(vectors(now@)) && vectors_well_formed(vectors(prev@))
            ==> 0 <= drift.order() <= 0x4000_0000,
{
    let one = Single { bits: ONE };
    match (bundle_list(now), bundle_list(prev)) {
        (Some(a), Some(b)) => {
            let similarity = a.similarity(&b);
            proof {
                lemma_one_less();
                lemma_drift_range(vectors(now@), vectors(prev@));
            }
            one.minus(similarity).max(Single { bits: 0 })
        },
        _ => Single { bits: 0 },
    }
}

/// Adds a drift value to the history.
pub fn extend_history(old: Vec<Single>, drift: Single) -> (values: Vec<Single>)
    ensures
        values@ == extended(old@, drift),
{
    let mut values = old;
    values.push(drift);
    if values.len() > HISTORY_LEN {
        values.remove(0);
        assert(values@ =~= old@.push(drift).skip(1));
    }
    values
}

/// Starts the classification of the drift upon a new bundle of `subject`.
pub fn classify_temporal(subject: &str, new_bundle: SparseVec) -> (run: TemporalRun)
    ensures
        run@.sound(),
        run@ == TemporalRunView::start(subject@, new_bundle@),
{
    TemporalRun { subject: subject.to_owned(), bundle: new_bundle, stage: TemporalStage::Head }
}

impl TemporalRun {
    fn slot_name(&self, slot: usize) -> (key: String)
        ensures
            key@ == slot_key(self.subject@, slot as nat),
    {
        let number = decimal_text(slot as u128);
        prefixed(join("window:slot:", self.subject.as_str(), ":").as_str(), number.as_str())
    }

    /// What the run wants done next.
    pub fn action(&self) -> (action: Action)
        requires
            self@.sound(),
        ensures
            action@ == self@.action(),
    {
        let subject = self.subject.as_str();
        match &self.stage {
            TemporalStage::Head => Action::Load(join("window:ring:", subject, ":head")),
            TemporalStage::Size { .. } => Action::Load(join("window:ring:", subject, ":size")),
            TemporalStage::Slot { head, .. } => {
                let slot = (*head as usize) % WINDOW_N;
                Action::Load(self.slot_name(slot))
            },
            TemporalStage::Displace { head, displaced, .. } => {
                let slot = (*head as usize) % WINDOW_N;
                Action::Save(self.slot_name(WINDOW_N + slot), displaced.clone())
            },
            TemporalStage::SaveSlot { head, .. } => {
                let slot = (*head as usize) % WINDOW_N;
                Action::Save(self.slot_name(slot), save_vec(&self.bundle))
            },
            TemporalStage::SaveHead { head, .. } => Action::Save(
                join("window:ring:", subject, ":head"),
                save_u64(head.wrapping_add(1)),
            ),
            TemporalStage::SaveSize { size, .. } => Action::Save(
                join("window:ring:", subject, ":size"),
                save_u64(grow(*size)),
            ),
            TemporalStage::Window { head, index, .. } => {
                let slot = ((*head as usize) % WINDOW_N + *index % WINDOW_N) % WINDOW_N;
                let first = if *index < WINDOW_N {
                    0
                } else {
                    WINDOW_N
                };
                Action::Load(self.slot_name(first + slot))
            },
            TemporalStage::History { .. } => Action::Load(
                join("window:drift:", subject, ":history"),
            ),
            TemporalStage::SaveHistory { values, .. } => Action::Save(
                join("window:drift:", subject, ":history"),
                save_drift_history(values),
            ),
            TemporalStage::Done { .. } => Action::Done,
        }
    }

    /// The run once it knows how its action went.
    pub fn resume(self, answer: Answer) -> (run: TemporalRun)
        requires
            self@.sound(),
        ensures
            run@.sound(),
            run@ == self@.next(answer@),
    {
        let TemporalRun { subject, bundle, stage } = self;
        let stage = match (stage, answer) {
            (TemporalStage::Head, Answer::Loaded(got)) => TemporalStage::Size {
                head: load_u64(got),
            },
            (TemporalStage::Size { head }, Answer::Loaded(got)) => TemporalStage::Slot {
                head,
                size: load_u64(got),
            },
            (TemporalStage::Slot { head, size }, Answer::Loaded(got)) => match got {
                Ok(Some(displaced)) => TemporalStage::Displace { head, size, displaced },
                _ => TemporalStage::SaveSlot { head, size },
            },
            (TemporalStage::Displace { head, size, .. }, Answer::Saved(_)) =>
                TemporalStage::SaveSlot { head, size },
            (TemporalStage::SaveSlot { head, size }, Answer::Saved(_)) => TemporalStage::SaveHead {
                head,
                size,
            },
            (TemporalStage::SaveHead { head, size }, Answer::Saved(_)) => TemporalStage::SaveSize {
                head,
                size,
            },
            (TemporalStage::SaveSize { head, size }, Answer::Saved(_)) => {
                if grow(size) < WARM_SIZE {
                    TemporalStage::Done {
                        result: TemporalResult {
                            label: "temporal_warming_up".to_owned(),
                            confidence: Single { bits: HALF },
                            drift: Single { bits: 0 },
                            drift_rate: Single { bits: 0 },
                        },
                    }
                } else {
                    let now: Vec<SparseVec> = Vec::new();
                    let prev: Vec<SparseVec> = Vec::new();
                    assert(vectors(now@) =~= Seq::empty());
                    TemporalStage::Window { head: head.wrapping_add(1), index: 0, now, prev }
                }
            },
            (TemporalStage::Window { head, index, now, prev }, Answer::Loaded(got)) => {
                let v = load_vec(got);
                let (now, prev) = if index < WINDOW_N {
                    (add_vector(now, v), prev)
                } else {
                    (now, add_vector(prev, v))
                };
                if index + 1 < 2 * WINDOW_N {
                    TemporalStage::Window { head, index: index + 1, now, prev }
                } else {
                    TemporalStage::History { drift: window_drift(&now, &prev) }
                }
            },
            (TemporalStage::History { drift }, Answer::Loaded(got)) => TemporalStage::SaveHistory {
                drift,
                values: extend_history(load_drift_history(got), drift),
            },
            (TemporalStage::SaveHistory { drift, values }, Answer::Saved(_)) => {
                let drift_rate = linear_slope(values.as_slice());
                let (label, confidence) = classify_drift(drift, drift_rate);
                TemporalStage::Done {
                    result: TemporalResult {
                        label: label.to_owned(),
                        confidence,
                        drift,
                        drift_rate,
                    },
                }
            },
            (stage, _) => stage,
        };
        TemporalRun { subject, bundle, stage }
    }
}

/// The fill count after one more bundle.
fn grow(size: u64) -> (r: u64)
    ensures
        r == grown(size),
{
    let next = size.wrapping_add(1);
    if next < WARM_SIZE {
        next
    } else {
        WARM_SIZE
    }
}

/// Slots lie in the ring, those that are read lie in two windows, and the fill count
/// never exceeds two windows.
pub proof fn lemma_ring_bounds(head: u64, size: u64, i: nat)
    ensures
        ring_slot(head) < WINDOW_N,
        window_slot(head, i) < WINDOW_N,
        read_slot(head, i) < 2 * WINDOW_N,
        grown(size) <= WARM_SIZE,
{
}

/// A drift history never exceeds `HISTORY_LEN` values and ends with the newest.
pub proof fn lemma_history_bound(old: Seq<Single>, drift: Single)
    requires
        old.len() <= HISTORY_LEN,
    ensures
        extended(old, drift).len() <= HISTORY_LEN,
        extended(old, drift).last() == drift,
{
}

}
