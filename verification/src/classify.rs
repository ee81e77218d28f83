//! Classification of one message.
//!
//! A [`MessageRun`] compares the message's bundle with the running mean bundle of
//! its subject and each field with the running bundle of that field, feeds the
//! temporal layer, and concludes with a [`ClassifyResult`].

use crate::codec::{
    counter, fetched, kv_err, le_bytes, load_f32, load_u64, load_vec, number, save_f32, save_u64,
    save_vec, vector, vector_record, written, Fetched, StoreError,
};
use crate::encode::{
    build_master_bundle, encode_json_fields, encoding_outcome, field_vectors, fields_view,
    json_members, running, superposition, update_running_bundle, Fields,
};
use crate::protocol::{Action, ActionView, Answer, AnswerView};
use crate::single::{difference, greater_of, less, quotient, whole, Single, ONE};
use crate::solutions::{
    best, build_solutions, candidates, field_results_view, phase1, rank, solutions_view,
    FieldResult, Solution, SolutionView,
};
use crate::stats::{
    combined, combined_confidence, compute_z_score, decay_exponent, welford, welford_update,
    z_score, z_to_confidence, z_to_exponent, FIELD_THRESHOLD, HALF, HITL_THRESHOLD, MIN_SAMPLES,
    Z_THRESHOLD,
};
use crate::temporal::{
    classify_temporal, TemporalResult, TemporalResultView, TemporalRun, TemporalRunView,
    TemporalStage, TemporalStageView,
};
use crate::text::{join, prefixed};
use crate::vsa::{optional, similarity_of, SparseVec};
use vstd::prelude::*;
use vstd::string::*;

verus! {

/// What is published about a message.
#[derive(Debug)]
pub struct ClassifyResult {
    pub subject: String,
    pub classification: String,
    pub confidence: Single,
    pub solutions: Vec<Solution>,
    pub anomalous_fields: Vec<String>,
    pub message_count: u64,
    pub hitl_required: bool,
    pub phase: u8,
    pub temporal_label: Option<String>,
    pub temporal_confidence: Option<Single>,
}

pub struct ClassifyResultView {
    pub subject: Seq<char>,
    pub classification: Seq<char>,
    pub confidence: Single,
    pub solutions: Seq<SolutionView>,
    pub anomalous_fields: Seq<Seq<char>>,
    pub message_count: u64,
    pub hitl_required: bool,
    pub phase: u8,
    pub temporal_label: Option<Seq<char>>,
    pub temporal_confidence: Option<Single>,
}

pub open spec fn texts(s: Seq<String>) -> Seq<Seq<char>> {
    Seq::new(s.len(), |i: int| s[i]@)
}

pub open spec fn optional_text(s: Option<String>) -> Option<Seq<char>> {
    match s {
        Some(s) => Some(s@),
        None => None,
    }
}

impl View for ClassifyResult {
    type V = ClassifyResultView;

    open spec fn view(&self) -> ClassifyResultView {
        ClassifyResultView {
            subject: self.subject@,
            classification: self.classification@,
            confidence: self.confidence,
            solutions: solutions_view(self.solutions@),
            anomalous_fields: texts(self.anomalous_fields@),
            message_count: self.message_count,
            hitl_required: self.hitl_required,
            phase: self.phase,
            temporal_label: optional_text(self.temporal_label),
            temporal_confidence: self.temporal_confidence,
        }
    }
}

pub open spec fn count_key(subject: Seq<char>) -> Seq<char> {
    "stats:v1:"@ + subject + ":n"@
}

pub open spec fn mean_vec_key(subject: Seq<char>) -> Seq<char> {
    "stats:v1:"@ + subject + ":mean_vec"@
}

pub open spec fn mean_score_key(subject: Seq<char>) -> Seq<char> {
    "stats:v1:"@ + subject + ":mean_score"@
}

pub open spec fn m2_key(subject: Seq<char>) -> Seq<char> {
    "stats:v1:"@ + subject + ":m2"@
}

pub open spec fn ema_key(subject: Seq<char>, field: Seq<char>) -> Seq<char> {
    "ema:v1:"@ + subject + ":"@ + field
}

/// One more than `n`, at most the greatest counter value.
pub open spec fn incremented(n: u64) -> u64 {
    if n == u64::MAX {
        n
    } else {
        (n + 1) as u64
    }
}

/// Similarity to a running vector; one on cold start.
pub open spec fn score_against(
    v: (Seq<usize>, Seq<usize>),
    base: Option<(Seq<usize>, Seq<usize>)>,
) -> Single {
    match base {
        Some(b) => similarity_of(v, b),
        None => Single { bits: ONE },
    }
}

/// Message-level outcome: its confidence and whether it is an anomaly.
#[derive(Clone, Copy, Debug)]
pub struct Signal {
    pub confidence: Single,
    pub is_anomaly: bool,
}

/// The outcome of comparing a field with its running vector.
pub open spec fn field_result(name: Seq<char>, score: Single) -> (Seq<char>, Single, bool) {
    (name, score, less(score, Single { bits: FIELD_THRESHOLD }))
}

/// Number of anomalous fields.
pub open spec fn anomaly_count(results: Seq<(Seq<char>, Single, bool)>) -> nat
    decreases results.len(),
{
    if results.len() == 0 {
        0
    } else {
        anomaly_count(results.drop_last()) + if results.last().2 {
            1nat
        } else {
            0
        }
    }
}

/// Names of the anomalous fields, in order.
pub open spec fn anomalous_names(results: Seq<(Seq<char>, Single, bool)>) -> Seq<Seq<char>>
    decreases results.len(),
{
    if results.len() == 0 {
        Seq::empty()
    } else if results.last().2 {
        anomalous_names(results.drop_last()).push(results.last().0)
    } else {
        anomalous_names(results.drop_last())
    }
}

/// Share of the anomalous fields among all.
pub open spec fn anomaly_fraction(results: Seq<(Seq<char>, Single, bool)>) -> Single {
    if results.len() == 0 {
        Single { bits: 0 }
    } else {
        quotient(whole(anomaly_count(results)), whole(results.len()))
    }
}

/// Whether the temporal layer has not seen enough bundles yet.
pub open spec fn warming(t: TemporalResultView) -> bool {
    t.label == "temporal_warming_up"@
}

pub open spec fn temporal_label(t: TemporalResultView) -> Option<Seq<char>> {
    if warming(t) {
        None
    } else {
        Some(t.label)
    }
}

pub open spec fn temporal_confidence(t: TemporalResultView) -> Option<Single> {
    if warming(t) {
        None
    } else {
        Some(t.confidence)
    }
}

/// The result for a message without fields.
pub open spec fn skipped_result(subject: Seq<char>) -> ClassifyResultView {
    ClassifyResultView {
        subject,
        classification: "SKIPPED"@,
        confidence: Single { bits: 0 },
        solutions: Seq::empty(),
        anomalous_fields: Seq::empty(),
        message_count: 0,
        hitl_required: false,
        phase: 1,
        temporal_label: None,
        temporal_confidence: None,
    }
}

/// The result for one of the first `MIN_SAMPLES` messages.
pub open spec fn warm_up_result(
    subject: Seq<char>,
    n: u64,
    t: TemporalResultView,
) -> ClassifyResultView {
    ClassifyResultView {
        subject,
        classification: "WARMING_UP"@,
        confidence: Single { bits: HALF },
        solutions: seq![phase1("warming_up"@, Single { bits: HALF })],
        anomalous_fields: Seq::empty(),
        message_count: n,
        hitl_required: false,
        phase: 1,
        temporal_label: temporal_label(t),
        temporal_confidence: temporal_confidence(t),
    }
}

/// The result for a message after the warm-up.
pub open spec fn conclusion(
    subject: Seq<char>,
    n: u64,
    signal: Signal,
    results: Seq<(Seq<char>, Single, bool)>,
    t: TemporalResultView,
) -> ClassifyResultView {
    let fraction = anomaly_fraction(results);
    let confidence = combined(signal.confidence, fraction);
    let own = best(candidates(signal.is_anomaly, signal.confidence, results));
    ClassifyResultView {
        subject,
        classification: if signal.is_anomaly || less(Single { bits: HALF }, fraction) {
            "ANOMALY"@
        } else {
            "NORMAL"@
        },
        confidence: if warming(t) {
            confidence
        } else {
            greater_of(confidence, t.confidence)
        },
        solutions: if warming(t) {
            own
        } else {
            best(
                own.push(
                    SolutionView {
                        label: t.label,
                        confidence: t.confidence,
                        source: "phase2"@,
                    },
                ),
            )
        },
        anomalous_fields: anomalous_names(results),
        message_count: n,
        hitl_required: less(confidence, Single { bits: HITL_THRESHOLD }) || (!warming(t) && less(
            t.confidence,
            Single { bits: HITL_THRESHOLD },
        )),
        phase: if warming(t) {
            1
        } else {
            2
        },
        temporal_label: temporal_label(t),
        temporal_confidence: temporal_confidence(t),
    }
}

/// Counts the anomalous fields and collects their names.
fn collect_anomalies(results: &Vec<FieldResult>) -> (r: (u64, Vec<String>))
    ensures
        r.0 == anomaly_count(field_results_view(results@)),
        texts(r.1@) == anomalous_names(field_results_view(results@)),
{
    let ghost all = field_results_view(results@);
    let mut count: u64 = 0;
    let mut names: Vec<String> = Vec::new();
    let mut i: usize = 0;
    assert(texts(names@) =~= anomalous_names(all.take(0)));
    while i < results.len()
        invariant
            i <= results@.len(),
            all == field_results_view(results@),
            count == anomaly_count(all.take(i as int)),
            count <= i,
            texts(names@) == anomalous_names(all.take(i as int)),
        decreases results.len() - i,
    {
        assert(all.take(i + 1).drop_last() =~= all.take(i as int));
        let (name, _, is_anomaly) = &results[i];
        if *is_anomaly {
            let ghost before = texts(names@);
            count = count + 1;
            names.push(name.clone());
            assert(texts(names@) =~= before.push(name@));
        }
        i = i + 1;
    }
    assert(all.take(i as int) =~= all);
    (count, names)
}

/// Whether the temporal layer has not seen enough bundles yet.
fn is_warming(t: &TemporalResult) -> (r: bool)
    ensures
        r == warming(t@),
{
    t.label == "temporal_warming_up".to_owned()
}

/// Draws the conclusion for a message after the warm-up.
pub fn conclude(
    subject: &str,
    n: u64,
    signal: Signal,
    results: &Vec<FieldResult>,
    temporal: TemporalResult,
) -> (r: ClassifyResult)
    ensures
        r@ == conclusion(subject@, n, signal, field_results_view(results@), temporal@),
{
    let (count, anomalous_fields) = collect_anomalies(results);
    let fraction = if results.len() == 0 {
        Single { bits: 0 }
    } else {
        Single::from_whole(count).over(Single::from_whole(results.len() as u64))
    };
    let confidence = combined_confidence(signal.confidence, fraction);
    let half = Single { bits: HALF };
    let classification = if signal.is_anomaly || half.is_less(fraction) {
        "ANOMALY"
    } else {
        "NORMAL"
    };
    let threshold = Single { bits: HITL_THRESHOLD };
    let mut solutions = build_solutions(signal.is_anomaly, signal.confidence, results.as_slice());
    if is_warming(&temporal) {
        return ClassifyResult {
            subject: subject.to_owned(),
            classification: classification.to_owned(),
            confidence,
            solutions,
            anomalous_fields,
            message_count: n,
            hitl_required: confidence.is_less(threshold),
            phase: 1,
            temporal_label: None,
            temporal_confidence: None,
        };
    }
    let ghost own = solutions_view(solutions@);
    let extra = Solution {
        label: temporal.label.clone(),
        confidence: temporal.confidence,
        source: "phase2".to_owned(),
    };
    solutions.push(extra);
    assert(solutions_view(solutions@) =~= own.push(extra@));
    ClassifyResult {
        subject: subject.to_owned(),
        classification: classification.to_owned(),
        confidence: confidence.max(temporal.confidence),
        solutions: rank(solutions),
        anomalous_fields,
        message_count: n,
        hitl_required: confidence.is_less(threshold) || temporal.confidence.is_less(threshold),
        phase: 2,
        temporal_label: Some(temporal.label),
        temporal_confidence: Some(temporal.confidence),
    }
}

/// Reports on one of the first `MIN_SAMPLES` messages.
pub fn report_warm_up(subject: &str, n: u64, temporal: TemporalResult) -> (r: ClassifyResult)
    ensures
        r@ == warm_up_result(subject@, n, temporal@),
{
    let mut solutions: Vec<Solution> = Vec::new();
    let only = Solution {
        label: "warming_up".to_owned(),
        confidence: Single { bits: HALF },
        source: "phase1".to_owned(),
    };
    solutions.push(only);
    let anomalous_fields: Vec<String> = Vec::new();
    assert(solutions_view(solutions@) =~= seq![phase1("warming_up"@, Single { bits: HALF })]);
    assert(texts(anomalous_fields@) =~= Seq::empty());
    let known = !is_warming(&temporal);
    ClassifyResult {
        subject: subject.to_owned(),
        classification: "WARMING_UP".to_owned(),
        confidence: Single { bits: HALF },
        solutions,
        anomalous_fields,
        message_count: n,
        hitl_required: false,
        phase: 1,
        temporal_confidence: if known {
            Some(temporal.confidence)
        } else {
            None
        },
        temporal_label: if known {
            Some(temporal.label)
        } else {
            None
        },
    }
}

/// Reports on a message without fields.
pub fn report_skipped(subject: &str) -> (r: ClassifyResult)
    ensures
        r@ == skipped_result(subject@),
{
    let solutions: Vec<Solution> = Vec::new();
    let anomalous_fields: Vec<String> = Vec::new();
    assert(solutions_view(solutions@) =~= Seq::empty());
    assert(texts(anomalous_fields@) =~= Seq::empty());
    ClassifyResult {
        subject: subject.to_owned(),
        classification: "SKIPPED".to_owned(),
        confidence: Single { bits: 0 },
        solutions,
        anomalous_fields,
        message_count: 0,
        hitl_required: false,
        phase: 1,
        temporal_label: None,
        temporal_confidence: None,
    }
}

/// How far the classification of a message has come.
#[derive(Debug)]
pub enum MessageStage {
    /// Reading the message counter.
    Count,
    /// Warm-up: reading the running mean bundle.
    WarmMean { n: u64 },
    /// Warm-up: writing the running mean bundle.
    WarmSaveMean { n: u64, mean: SparseVec },
    /// Warm-up: reading the running bundle of field `index`.
    WarmField { n: u64, index: usize },
    /// Warm-up: writing the running bundle of field `index`.
    WarmSaveField { n: u64, index: usize, ema: SparseVec },
    /// Warm-up: writing the counter.
    WarmSaveCount { n: u64 },
    /// Warm-up: feeding the temporal layer.
    WarmTemporal { n: u64, run: TemporalRun },
    /// Reading the running mean bundle.
    Mean { n: u64 },
    /// Reading the mean of the scores.
    MeanScore { n: u64, base: Option<SparseVec> },
    /// Reading the sum of squared deviations of the scores.
    Spread { n: u64, base: Option<SparseVec>, mean_score: Single },
    /// Waiting for the exponential of the confidence curve.
    Decay { n: u64, base: Option<SparseVec>, mean_score: Single, m2: Single, z: Single },
    /// Writing the running mean bundle.
    SaveMean { n: u64, mean: SparseVec, mean_score: Single, m2: Single, signal: Signal },
    /// Writing the mean of the scores.
    SaveMeanScore { n: u64, mean_score: Single, m2: Single, signal: Signal },
    /// Writing the sum of squared deviations.
    SaveSpread { n: u64, m2: Single, signal: Signal },
    /// Writing the counter.
    SaveCount { n: u64, signal: Signal },
    /// Reading the running bundle of field `index`.
    Field { n: u64, signal: Signal, index: usize, results: Vec<FieldResult> },
    /// Writing the running bundle of field `index`.
    SaveField {
        n: u64,
        signal: Signal,
        index: usize,
        results: Vec<FieldResult>,
        ema: SparseVec,
    },
    /// Running the temporal layer.
    Temporal { n: u64, signal: Signal, results: Vec<FieldResult>, run: TemporalRun },
    /// Over.
    Done { outcome: Result<ClassifyResult, String> },
}

pub enum MessageStageView {
    Count,
    WarmMean { n: u64 },
    WarmSaveMean { n: u64, mean: (Seq<usize>, Seq<usize>) },
    WarmField { n: u64, index: nat },
    WarmSaveField { n: u64, index: nat, ema: (Seq<usize>, Seq<usize>) },
    WarmSaveCount { n: u64 },
    WarmTemporal { n: u64, run: TemporalRunView },
    Mean { n: u64 },
    MeanScore { n: u64, base: Option<(Seq<usize>, Seq<usize>)> },
    Spread { n: u64, base: Option<(Seq<usize>, Seq<usize>)>, mean_score: Single },
    Decay {
        n: u64,
        base: Option<(Seq<usize>, Seq<usize>)>,
        mean_score: Single,
        m2: Single,
        z: Single,
    },
    SaveMean {
        n: u64,
        mean: (Seq<usize>, Seq<usize>),
        mean_score: Single,
        m2: Single,
        signal: Signal,
    },
    SaveMeanScore { n: u64, mean_score: Single, m2: Single, signal: Signal },
    SaveSpread { n: u64, m2: Single, signal: Signal },
    SaveCount { n: u64, signal: Signal },
    Field { n: u64, signal: Signal, index: nat, results: Seq<(Seq<char>, Single, bool)> },
    SaveField {
        n: u64,
        signal: Signal,
        index: nat,
        results: Seq<(Seq<char>, Single, bool)>,
        ema: (Seq<usize>, Seq<usize>),
    },
    Temporal {
        n: u64,
        signal: Signal,
        results: Seq<(Seq<char>, Single, bool)>,
        run: TemporalRunView,
    },
    Done { outcome: Result<ClassifyResultView, Seq<char>> },
}

pub open spec fn outcome_view(r: Result<ClassifyResult, String>) -> Result<
    ClassifyResultView,
    Seq<char>,
> {
    match r {
        Ok(c) => Ok(c@),
        Err(text) => Err(text@),
    }
}

impl View for MessageStage {
    type V = MessageStageView;

    open spec fn view(&self) -> MessageStageView {
        match *self {
            MessageStage::Count => MessageStageView::Count,
            MessageStage::WarmMean { n } => MessageStageView::WarmMean { n },
            MessageStage::WarmSaveMean { n, mean } => MessageStageView::WarmSaveMean {
                n,
                mean: mean@,
            },
            MessageStage::WarmField { n, index } => MessageStageView::WarmField {
                n,
                index: index as nat,
            },
            MessageStage::WarmSaveField { n, index, ema } => MessageStageView::WarmSaveField {
                n,
                index: index as nat,
                ema: ema@,
            },
            MessageStage::WarmSaveCount { n } => MessageStageView::WarmSaveCount { n },
            MessageStage::WarmTemporal { n, run } => MessageStageView::WarmTemporal {
                n,
                run: run@,
            },
            MessageStage::Mean { n } => MessageStageView::Mean { n },
            MessageStage::MeanScore { n, base } => MessageStageView::MeanScore {
                n,
                base: optional(base),
            },
            MessageStage::Spread { n, base, mean_score } => MessageStageView::Spread {
                n,
                base: optional(base),
                mean_score,
            },
            MessageStage::Decay { n, base, mean_score, m2, z } => MessageStageView::Decay {
                n,
                base: optional(base),
                mean_score,
                m2,
                z,
            },
            MessageStage::SaveMean { n, mean, mean_score, m2, signal } =>
                MessageStageView::SaveMean { n, mean: mean@, mean_score, m2, signal },
            MessageStage::SaveMeanScore { n, mean_score, m2, signal } =>
                MessageStageView::SaveMeanScore { n, mean_score, m2, signal },
            MessageStage::SaveSpread { n, m2, signal } => MessageStageView::SaveSpread {
                n,
                m2,
                signal,
            },
            MessageStage::SaveCount { n, signal } => MessageStageView::SaveCount { n, signal },
            MessageStage::Field { n, signal, index, results } => MessageStageView::Field {
                n,
                signal,
                index: index as nat,
                results: field_results_view(results@),
            },
            MessageStage::SaveField { n, signal, index, results, ema } =>
                MessageStageView::SaveField {
                n,
                signal,
                index: index as nat,
                results: field_results_view(results@),
                ema: ema@,
            },
            MessageStage::Temporal { n, signal, results, run } => MessageStageView::Temporal {
                n,
                signal,
                results: field_results_view(results@),
                run: run@,
            },
            MessageStage::Done { outcome } => MessageStageView::Done {
                outcome: outcome_view(outcome),
            },
        }
    }
}

/// Classification of one message of a subject.
#[derive(Debug)]
pub struct MessageRun {
    pub subject: String,
    pub fields: Fields,
    pub bundle: SparseVec,
    pub stage: MessageStage,
}

pub struct MessageRunView {
    pub subject: Seq<char>,
    pub fields: Seq<(Seq<char>, (Seq<usize>, Seq<usize>))>,
    pub bundle: (Seq<usize>, Seq<usize>),
    pub stage: MessageStageView,
}

impl View for MessageRun {
    type V = MessageRunView;

    open spec fn view(&self) -> MessageRunView {
        MessageRunView {
            subject: self.subject@,
            fields: self.fields@,
            bundle: self.bundle@,
            stage: self.stage@,
        }
    }
}

/// Mean and spread of the scores, and the Z-score, with one more score.
#[verifier::opaque]
pub open spec fn scored(n: u64, mean_score: Single, m2: Single, score: Single) -> (
    Single,
    Single,
    Single,
) {
    let w = welford(n, mean_score, m2, score);
    (w.0, w.1, z_score(score, w.0, w.1, n))
}

/// The message signal of a Z-score, given the exponential of the confidence curve.
#[verifier::opaque]
pub open spec fn signal_of(z: Single, decay: Single) -> Signal {
    Signal {
        confidence: difference(Single { bits: ONE }, decay),
        is_anomaly: less(Single { bits: Z_THRESHOLD }, z),
    }
}

impl MessageRunView {
    /// A run for a message whose fields have been encoded.
    pub open spec fn begin(
        subject: Seq<char>,
        encoded: Result<Seq<(Seq<char>, (Seq<usize>, Seq<usize>))>, Seq<char>>,
    ) -> Self {
        let nothing = (Seq::<usize>::empty(), Seq::<usize>::empty());
        match encoded {
            Err(text) => MessageRunView {
                subject,
                fields: Seq::empty(),
                bundle: nothing,
                stage: MessageStageView::Done { outcome: Err(text) },
            },
            Ok(fields) => match superposition(field_vectors(fields)) {
                None => MessageRunView {
                    subject,
                    fields,
                    bundle: nothing,
                    stage: MessageStageView::Done { outcome: Ok(skipped_result(subject)) },
                },
                Some(bundle) => MessageRunView {
                    subject,
                    fields,
                    bundle,
                    stage: MessageStageView::Count,
                },
            },
        }
    }

    /// A run has fields until it is over, an index points at one of them, and a
    /// temporal run is followed until it is over.
    pub open spec fn sound(self) -> bool {
        match self.stage {
            MessageStageView::WarmField { index, .. } => index < self.fields.len(),
            MessageStageView::WarmSaveField { index, .. } => index < self.fields.len(),
            MessageStageView::Field { index, .. } => index < self.fields.len(),
            MessageStageView::SaveField { index, .. } => index < self.fields.len(),
            MessageStageView::WarmTemporal { run, .. } => run.sound() && !(run.stage is Done),
            MessageStageView::Temporal { run, .. } => run.sound() && !(run.stage is Done),
            MessageStageView::Done { .. } => true,
            _ => self.fields.len() > 0,
        }
    }

    pub open spec fn at(self, stage: MessageStageView) -> Self {
        MessageRunView { stage, ..self }
    }

    /// What the run wants done next.
    pub open spec fn action(self) -> ActionView {
        let subject = self.subject;
        match self.stage {
            MessageStageView::Count => ActionView::Load(count_key(subject)),
            MessageStageView::WarmMean { .. } => ActionView::Load(mean_vec_key(subject)),
            MessageStageView::WarmSaveMean { mean, .. } => ActionView::Save(
                mean_vec_key(subject),
                vector_record(mean),
            ),
            MessageStageView::WarmField { index, .. } => ActionView::Load(
                ema_key(subject, self.fields[index as int].0),
            ),
            MessageStageView::WarmSaveField { index, ema, .. } => ActionView::Save(
                ema_key(subject, self.fields[index as int].0),
                vector_record(ema),
            ),
            MessageStageView::WarmSaveCount { n } => ActionView::Save(
                count_key(subject),
                le_bytes(n as nat, 8),
            ),
            MessageStageView::WarmTemporal { run, .. } => run.action(),
            MessageStageView::Mean { .. } => ActionView::Load(mean_vec_key(subject)),
            MessageStageView::MeanScore { .. } => ActionView::Load(mean_score_key(subject)),
            MessageStageView::Spread { .. } => ActionView::Load(m2_key(subject)),
            MessageStageView::Decay { z, .. } => ActionView::Exponential(decay_exponent(z)),
            MessageStageView::SaveMean { mean, .. } => ActionView::Save(
                mean_vec_key(subject),
                vector_record(mean),
            ),
            MessageStageView::SaveMeanScore { mean_score, .. } => ActionView::Save(
                mean_score_key(subject),
                le_bytes(mean_score.bits as nat, 4),
            ),
            MessageStageView::SaveSpread { m2, .. } => ActionView::Save(
                m2_key(subject),
                le_bytes(m2.bits as nat, 4),
            ),
            MessageStageView::SaveCount { n, .. } => ActionView::Save(
                count_key(subject),
                le_bytes(n as nat, 8),
            ),
            MessageStageView::Field { index, .. } => ActionView::Load(
                ema_key(subject, self.fields[index as int].0),
            ),
            MessageStageView::SaveField { index, ema, .. } => ActionView::Save(
                ema_key(subject, self.fields[index as int].0),
                vector_record(ema),
            ),
            MessageStageView::Temporal { run, .. } => run.action(),
            MessageStageView::Done { .. } => ActionView::Done,
        }
    }

    /// The run once a read is answered.
    pub open spec fn loaded(self, got: Option<Seq<u8>>) -> Self {
        match self.stage {
            MessageStageView::Count => {
                let n = incremented(counter(got));
                if n <= MIN_SAMPLES {
                    self.at(MessageStageView::WarmMean { n })
                } else {
                    self.at(MessageStageView::Mean { n })
                }
            },
            MessageStageView::WarmMean { n } => self.at(
                MessageStageView::WarmSaveMean { n, mean: running(vector(got), self.bundle) },
            ),
            MessageStageView::WarmField { n, index } => self.at(
                MessageStageView::WarmSaveField {
                    n,
                    index,
                    ema: running(vector(got), self.fields[index as int].1),
                },
            ),
            MessageStageView::Mean { n } => self.at(
                MessageStageView::MeanScore { n, base: vector(got) },
            ),
            MessageStageView::MeanScore { n, base } => self.at(
                MessageStageView::Spread { n, base, mean_score: number(got) },
            ),
            MessageStageView::Spread { n, base, mean_score } => {
                let s = scored(n, mean_score, number(got), score_against(self.bundle, base));
                self.at(MessageStageView::Decay { n, base, mean_score: s.0, m2: s.1, z: s.2 })
            },
            MessageStageView::Field { n, signal, index, results } => {
                let field = self.fields[index as int];
                self.at(
                    MessageStageView::SaveField {
                        n,
                        signal,
                        index,
                        results: results.push(
                            field_result(field.0, score_against(field.1, vector(got))),
                        ),
                        ema: running(vector(got), field.1),
                    },
                )
            },
            _ => self,
        }
    }

    /// The run once a write is answered.  Only the failure to write the mean
    /// bundle after the warm-up ends it.
    pub open spec fn saved(self, done: Result<(), Seq<char>>) -> Self {
        match self.stage {
            MessageStageView::WarmSaveMean { n, .. } => self.at(
                MessageStageView::WarmField { n, index: 0 },
            ),
            MessageStageView::WarmSaveField { n, index, .. } => if index + 1 < self.fields.len() {
                self.at(MessageStageView::WarmField { n, index: index + 1 })
            } else {
                self.at(MessageStageView::WarmSaveCount { n })
            },
            MessageStageView::WarmSaveCount { n } => self.at(
                MessageStageView::WarmTemporal {
                    n,
                    run: TemporalRunView::start(self.subject, self.bundle),
                },
            ),
            MessageStageView::SaveMean { n, mean_score, m2, signal, .. } => match done {
                Ok(_) => self.at(MessageStageView::SaveMeanScore { n, mean_score, m2, signal }),
                Err(text) => self.at(MessageStageView::Done { outcome: Err(text) }),
            },
            MessageStageView::SaveMeanScore { n, m2, signal, .. } => self.at(
                MessageStageView::SaveSpread { n, m2, signal },
            ),
            MessageStageView::SaveSpread { n, signal, .. } => self.at(
                MessageStageView::SaveCount { n, signal },
            ),
            MessageStageView::SaveCount { n, signal } => self.at(
                MessageStageView::Field { n, signal, index: 0, results: Seq::empty() },
            ),
            MessageStageView::SaveField { n, signal, index, results, .. } => if index + 1
                < self.fields.len() {
                self.at(MessageStageView::Field { n, signal, index: index + 1, results })
            } else {
                self.at(
                    MessageStageView::Temporal {
                        n,
                        signal,
                        results,
                        run: TemporalRunView::start(self.subject, self.bundle),
                    },
                )
            },
            _ => self,
        }
    }

    /// The run once it has the exponential of the confidence curve.
    pub open spec fn decayed(self, decay: Single) -> Self {
        match self.stage {
            MessageStageView::Decay { n, base, mean_score, m2, z } => self.at(
                MessageStageView::SaveMean {
                    n,
                    mean: running(base, self.bundle),
                    mean_score,
                    m2,
                    signal: signal_of(z, decay),
                },
            ),
            _ => self,
        }
    }

    /// The run once its temporal run has gone one step further.
    pub open spec fn continued(self, run: TemporalRunView) -> Self {
        match (self.stage, run.stage) {
            (
                MessageStageView::WarmTemporal { n, .. },
                TemporalStageView::Done { result },
            ) => self.at(
                MessageStageView::Done { outcome: Ok(warm_up_result(self.subject, n, result)) },
            ),
            (MessageStageView::WarmTemporal { n, .. }, _) => self.at(
                MessageStageView::WarmTemporal { n, run },
            ),
            (
                MessageStageView::Temporal { n, signal, results, .. },
                TemporalStageView::Done { result },
            ) => self.at(
                MessageStageView::Done {
                    outcome: Ok(conclusion(self.subject, n, signal, results, result)),
                },
            ),
            (MessageStageView::Temporal { n, signal, results, .. }, _) => self.at(
                MessageStageView::Temporal { n, signal, results, run },
            ),
            _ => self,
        }
    }

    /// The run once it knows how its action went.  An answer of another kind
    /// than was asked for changes nothing.
    pub open spec fn next(self, answer: AnswerView) -> Self {
        match self.stage {
            MessageStageView::WarmTemporal { run, .. } => self.continued(run.next(answer)),
            MessageStageView::Temporal { run, .. } => self.continued(run.next(answer)),
            _ => match answer {
                AnswerView::Loaded(got) => self.loaded(got),
                AnswerView::Saved(done) => self.saved(done),
                AnswerView::Exponential(decay) => self.decayed(decay),
            },
        }
    }
}

/// Similarity to a running vector.
fn compare(v: &SparseVec, base: &Option<SparseVec>) -> (score: Single)
    ensures
        score == score_against(v@, optional(*base)),
{
    match base {
        Some(b) => v.similarity(b),
        None => Single { bits: ONE },
    }
}

/// Starts the classification of a message.
pub fn classify_message(subject: &str, body: &[u8]) -> (run: MessageRun)
    ensures
        run@.sound(),
        run@ == MessageRunView::begin(subject@, encoding_outcome(json_members(body@))),
{
    MessageRun::begin(subject, encode_json_fields(body))
}

impl MessageRun {
    /// Starts the classification of a message whose fields have been encoded.
    pub fn begin(subject: &str, encoded: Result<Fields, String>) -> (run: MessageRun)
        ensures
            run@.sound(),
            run@ == MessageRunView::begin(subject@, fields_view(encoded)),
    {
        let nothing = SparseVec { pos: Vec::new(), neg: Vec::new() };
        match encoded {
            Err(text) => MessageRun {
                subject: subject.to_owned(),
                fields: Fields::new(),
                bundle: nothing,
                stage: MessageStage::Done { outcome: Err(text) },
            },
            Ok(fields) => match build_master_bundle(&fields) {
                None => MessageRun {
                    subject: subject.to_owned(),
                    fields,
                    bundle: nothing,
                    stage: MessageStage::Done { outcome: Ok(report_skipped(subject)) },
                },
                Some(bundle) => MessageRun {
                    subject: subject.to_owned(),
                    fields,
                    bundle,
                    stage: MessageStage::Count,
                },
            },
        }
    }

    fn ema_name(&self, index: usize) -> (key: String)
        requires
            index < self.fields@.len(),
        ensures
            key@ == ema_key(self.subject@, self.fields@[index as int].0),
    {
        let field = self.fields.entries[index].0.as_str();
        prefixed(join("ema:v1:", self.subject.as_str(), ":").as_str(), field)
    }

    /// What the run wants done next.
    #[verifier::rlimit(30)]
    pub fn action(&self) -> (action: Action)
        requires
            self@.sound(),
        ensures
            action@ == self@.action(),
    {
        let subject = self.subject.as_str();
        match &self.stage {
            MessageStage::Count => Action::Load(join("stats:v1:", subject, ":n")),
            MessageStage::WarmMean { .. } => Action::Load(join("stats:v1:", subject, ":mean_vec")),
            MessageStage::WarmSaveMean { mean, .. } => Action::Save(
                join("stats:v1:", subject, ":mean_vec"),
                save_vec(mean),
            ),
            MessageStage::WarmField { index, .. } => Action::Load(self.ema_name(*index)),
            MessageStage::WarmSaveField { index, ema, .. } => Action::Save(
                self.ema_name(*index),
                save_vec(ema),
            ),
            MessageStage::WarmSaveCount { n } => Action::Save(
                join("stats:v1:", subject, ":n"),
                save_u64(*n),
            ),
            MessageStage::WarmTemporal { run, .. } => run.action(),
            MessageStage::Mean { .. } => Action::Load(join("stats:v1:", subject, ":mean_vec")),
            MessageStage::MeanScore { .. } => Action::Load(
                join("stats:v1:", subject, ":mean_score"),
            ),
            MessageStage::Spread { .. } => Action::Load(join("stats:v1:", subject, ":m2")),
            MessageStage::Decay { z, .. } => Action::Exponential(z_to_exponent(*z)),
            MessageStage::SaveMean { mean, .. } => Action::Save(
                join("stats:v1:", subject, ":mean_vec"),
                save_vec(mean),
            ),
            MessageStage::SaveMeanScore { mean_score, .. } => Action::Save(
                join("stats:v1:", subject, ":mean_score"),
                save_f32(*mean_score),
            ),
            MessageStage::SaveSpread { m2, .. } => Action::Save(
                join("stats:v1:", subject, ":m2"),
                save_f32(*m2),
            ),
            MessageStage::SaveCount { n, .. } => Action::Save(
                join("stats:v1:", subject, ":n"),
                save_u64(*n),
            ),
            MessageStage::Field { index, .. } => Action::Load(self.ema_name(*index)),
            MessageStage::SaveField { index, ema, .. } => Action::Save(
                self.ema_name(*index),
                save_vec(ema),
            ),
            MessageStage::Temporal { run, .. } => run.action(),
            MessageStage::Done { .. } => Action::Done,
        }
    }

    #[verifier::rlimit(30)]
    fn loaded(self, got: Fetched) -> (run: MessageRun)
        requires
            self@.sound(),
        ensures
            run@.sound(),
            run@ == self@.loaded(fetched(got)),
    {
        let MessageRun { subject, fields, bundle, stage } = self;
        let stage = match stage {
            MessageStage::Count => {
                let n = load_u64(got).saturating_add(1);
                if n <= MIN_SAMPLES {
                    MessageStage::WarmMean { n }
                } else {
                    MessageStage::Mean { n }
                }
            },
            MessageStage::WarmMean { n } => {
                let old_mean = load_vec(got);
                let mean = update_running_bundle(old_mean.as_ref(), &bundle);
                MessageStage::WarmSaveMean { n, mean }
            },
            MessageStage::WarmField { n, index } => {
                let old_ema = load_vec(got);
                let ema = update_running_bundle(old_ema.as_ref(), &fields.entries[index].1);
                MessageStage::WarmSaveField { n, index, ema }
            },
            MessageStage::Mean { n } => MessageStage::MeanScore { n, base: load_vec(got) },
            MessageStage::MeanScore { n, base } => MessageStage::Spread {
                n,
                base,
                mean_score: load_f32(got),
            },
            MessageStage::Spread { n, base, mean_score } => {
                let score = compare(&bundle, &base);
                let (mean_score, m2) = welford_update(n, mean_score, load_f32(got), score);
                let z = compute_z_score(score, mean_score, m2, n);
                proof {
                    reveal(scored);
                }
                MessageStage::Decay { n, base, mean_score, m2, z }
            },
            MessageStage::Field { n, signal, index, results } => {
                let old_ema = load_vec(got);
                let (name, field_vec) = &fields.entries[index];
                let score = compare(field_vec, &old_ema);
                let threshold = Single { bits: FIELD_THRESHOLD };
                let mut results = results;
                let ghost before = field_results_view(results@);
                results.push((name.clone(), score, score.is_less(threshold)));
                assert(field_results_view(results@) =~= before.push(field_result(name@, score)));
                let ema = update_running_bundle(old_ema.as_ref(), field_vec);
                MessageStage::SaveField { n, signal, index, results, ema }
            },
            stage => stage,
        };
        MessageRun { subject, fields, bundle, stage }
    }

    #[verifier::rlimit(30)]
    fn saved(self, done: Result<(), StoreError>) -> (run: MessageRun)
        requires
            self@.sound(),
        ensures
            run@.sound(),
            run@ == self@.saved(written(done)),
    {
        let MessageRun { subject, fields, bundle, stage } = self;
        let count = fields.len();
        let stage = match stage {
            MessageStage::WarmSaveMean { n, .. } => MessageStage::WarmField { n, index: 0 },
            MessageStage::WarmSaveField { n, index, .. } => {
                if index + 1 < count {
                    MessageStage::WarmField { n, index: index + 1 }
                } else {
                    MessageStage::WarmSaveCount { n }
                }
            },
            MessageStage::WarmSaveCount { n } => {
                let run = classify_temporal(subject.as_str(), bundle.clone());
                MessageStage::WarmTemporal { n, run }
            },
            MessageStage::SaveMean { n, mean_score, m2, signal, .. } => match done {
                Ok(_) => MessageStage::SaveMeanScore { n, mean_score, m2, signal },
                Err(e) => MessageStage::Done { outcome: Err(kv_err(e)) },
            },
            MessageStage::SaveMeanScore { n, m2, signal, .. } => MessageStage::SaveSpread {
                n,
                m2,
                signal,
            },
            MessageStage::SaveSpread { n, signal, .. } => MessageStage::SaveCount { n, signal },
            MessageStage::SaveCount { n, signal } => {
                let results: Vec<FieldResult> = Vec::new();
                assert(field_results_view(results@) =~= Seq::empty());
                MessageStage::Field { n, signal, index: 0, results }
            },
            MessageStage::SaveField { n, signal, index, results, .. } => {
                if index + 1 < count {
                    MessageStage::Field { n, signal, index: index + 1, results }
                } else {
                    let run = classify_temporal(subject.as_str(), bundle.clone());
                    MessageStage::Temporal { n, signal, results, run }
                }
            },
            stage => stage,
        };
        MessageRun { subject, fields, bundle, stage }
    }

    fn decayed(self, decay: Single) -> (run: MessageRun)
        requires
            self@.sound(),
        ensures
            run@.sound(),
            run@ == self@.decayed(decay),
    {
        let MessageRun { subject, fields, bundle, stage } = self;
        let stage = match stage {
            MessageStage::Decay { n, base, mean_score, m2, z } => {
                let threshold = Single { bits: Z_THRESHOLD };
                let signal = Signal {
                    confidence: z_to_confidence(decay),
                    is_anomaly: threshold.is_less(z),
                };
                let mean = update_running_bundle(base.as_ref(), &bundle);
                proof {
                    reveal(signal_of);
                }
                MessageStage::SaveMean { n, mean, mean_score, m2, signal }
            },
            stage => stage,
        };
        MessageRun { subject, fields, bundle, stage }
    }

    /// The run once it knows how its action went.
    #[verifier::rlimit(30)]
    pub fn resume(self, answer: Answer) -> (run: MessageRun)
        requires
            self@.sound(),
        ensures
            run@.sound(),
            run@ == self@.next(answer@),
    {
        let MessageRun { subject, fields, bundle, stage } = self;
        let stage = match stage {
            MessageStage::WarmTemporal { n, run } => {
                let TemporalRun { subject: s, bundle: b, stage } = run.resume(answer);
                match stage {
                    TemporalStage::Done { result } => MessageStage::Done {
                        outcome: Ok(report_warm_up(subject.as_str(), n, result)),
                    },
                    stage => MessageStage::WarmTemporal {
                        n,
                        run: TemporalRun { subject: s, bundle: b, stage },
                    },
                }
            },
            MessageStage::Temporal { n, signal, results, run } => {
                let TemporalRun { subject: s, bundle: b, stage } = run.resume(answer);
                match stage {
                    TemporalStage::Done { result } => MessageStage::Done {
                        outcome: Ok(conclude(subject.as_str(), n, signal, &results, result)),
                    },
                    stage => MessageStage::Temporal {
                        n,
                        signal,
                        results,
                        run: TemporalRun { subject: s, bundle: b, stage },
                    },
                }
            },
            stage => {
                let run = MessageRun { subject, fields, bundle, stage };
                return match answer {
                    Answer::Loaded(got) => run.loaded(got),
                    Answer::Saved(done) => run.saved(done),
                    Answer::Exponential(decay) => run.decayed(decay),
                };
            },
        };
        MessageRun { subject, fields, bundle, stage }
    }
}

}
