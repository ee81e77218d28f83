//! Whole runs against a store in memory.

use pattern_classifier::classify::{classify_message, MessageRun, MessageStage};
use pattern_classifier::codec::{
    load_drift_history, load_f32, load_u64, load_vec, save_drift_history, save_f32,
    save_u64, save_vec, StoreError,
};
use pattern_classifier::encode::{build_master_bundle, encode_json_fields};
use pattern_classifier::handler::{
    alert_subject_of, base_of, handle_human_reply, handle_message, HandlerStage, HumanReply,
    Request, Response,
};
use pattern_classifier::protocol::{Action, Answer};
use pattern_classifier::single::Single;
use pattern_classifier::stats::welford_update;
use pattern_classifier::temporal::{
    classify_temporal, extend_history, window_drift, TemporalResult, TemporalStage,
};
use pattern_classifier::vsa::SparseVec;
use std::collections::HashMap;

fn single(x: f32) -> Single {
    Single::from_bits(x.to_bits())
}

fn float(x: Single) -> f32 {
    f32::from_bits(x.bits)
}

/// A store in memory; writes to `broken` keys fail.
struct Memory {
    entries: HashMap<String, Vec<u8>>,
    broken: Vec<String>,
}

impl Memory {
    fn new() -> Memory {
        Memory { entries: HashMap::new(), broken: Vec::new() }
    }

    fn perform(&mut self, action: Action) -> Answer {
        match action {
            Action::Load(key) => Answer::Loaded(Ok(self.entries.get(&key).cloned())),
            Action::Save(key, bytes) => {
                if self.broken.contains(&key) {
                    return Answer::Saved(Err(StoreError::AccessDenied));
                }
                self.entries.insert(key, bytes);
                Answer::Saved(Ok(()))
            }
            Action::Exponential(x) => Answer::Exponential(single(float(x).exp())),
            Action::Done => unreachable!(),
        }
    }

    fn counter(&self, key: &str) -> u64 {
        load_u64(Ok(self.entries.get(key).cloned()))
    }
}

fn run_temporal(memory: &mut Memory, subject: &str, bundle: &SparseVec) -> TemporalResult {
    let mut run = classify_temporal(subject, bundle.clone());
    loop {
        if let TemporalStage::Done { result } = run.stage {
            return result;
        }
        let answer = memory.perform(run.action());
        run = run.resume(answer);
    }
}

fn finish(memory: &mut Memory, run: MessageRun) -> MessageRun {
    let mut run = run;
    while !matches!(run.stage, MessageStage::Done { .. }) {
        let answer = memory.perform(run.action());
        run = run.resume(answer);
    }
    run
}

/// What a classification came to, in plain values.
#[derive(Debug, PartialEq)]
struct Seen {
    classification: String,
    confidence: f32,
    solutions: Vec<(String, f32, String)>,
    anomalous_fields: Vec<String>,
    message_count: u64,
    hitl_required: bool,
    phase: u8,
    temporal: Option<(String, f32)>,
}

fn classify(memory: &mut Memory, subject: &str, body: &str) -> Result<Seen, String> {
    let run = finish(memory, classify_message(subject, body.as_bytes()));
    let result = match run.stage {
        MessageStage::Done { outcome } => outcome?,
        _ => unreachable!(),
    };
    assert_eq!(result.subject, subject);
    assert_eq!(result.temporal_label.is_some(), result.temporal_confidence.is_some());
    Ok(Seen {
        classification: result.classification,
        confidence: float(result.confidence),
        solutions: result
            .solutions
            .into_iter()
            .map(|s| (s.label, float(s.confidence), s.source))
            .collect(),
        anomalous_fields: result.anomalous_fields,
        message_count: result.message_count,
        hitl_required: result.hitl_required,
        phase: result.phase,
        temporal: result.temporal_label.zip(result.temporal_confidence.map(float)),
    })
}

#[derive(Debug, PartialEq)]
struct Sent {
    subject: String,
    body: String,
    reply_to: Option<String>,
}

/// Handles a message; JSON texts are stood for by short summaries.
fn handle(memory: &mut Memory, subject: &str, body: &str) -> (Result<(), String>, Vec<Sent>) {
    let mut sent = Vec::new();
    let mut run = handle_message(subject, body.as_bytes().to_vec());
    loop {
        let response = match run.request() {
            Request::Open(bucket) => {
                assert_eq!(bucket, "pattern-monitor-vectors");
                Response::Opened(Ok(()))
            }
            Request::ReadReply => Response::Reply(if body.starts_with('{') {
                Some(HumanReply { classification: "NORMAL".to_string(), label: "x".to_string() })
            } else {
                None
            }),
            Request::Step(action) => Response::Step(memory.perform(action)),
            Request::EncodeResult(result) => Response::Encoded(Ok(format!(
                "{} {}",
                result.classification, result.message_count
            ))),
            Request::EncodeAlert(alert) => Response::Encoded(Ok(format!(
                "{}|{}|{}|{}",
                alert.subject,
                alert.payload,
                alert.candidates.len(),
                alert.message
            ))),
            Request::Publish(message) => {
                sent.push(Sent {
                    subject: message.subject,
                    body: message.body,
                    reply_to: message.reply_to,
                });
                Response::Published(Ok(()))
            }
            Request::Finish => break,
        };
        run = run.resume(response);
    }
    match run.stage {
        HandlerStage::Done { outcome } => (outcome, sent),
        _ => unreachable!(),
    }
}

fn bundle(text: &str) -> SparseVec {
    build_master_bundle(&encode_json_fields(text.as_bytes()).unwrap()).unwrap()
}

const QUAKE: &str =
    r#"{"depth_km":"10","event":"earthquake","location":"Mid-Atlantic","magnitude":"6.2"}"#;

// The temporal layer.

#[test]
fn temporal_layer_warms_up_for_two_windows() {
    let mut memory = Memory::new();
    let v = bundle(r#"{"sensor":"temperature","value":"42"}"#);
    for message in 1..=45u64 {
        let result = run_temporal(&mut memory, "s", &v);
        assert_eq!(memory.counter("window:ring:s:head"), message);
        assert_eq!(memory.counter("window:ring:s:size"), message.min(40));
        if message < 40 {
            assert_eq!(result.label, "temporal_warming_up");
            assert_eq!(float(result.confidence), 0.5);
            assert!(!memory.entries.contains_key("window:drift:s:history"));
        } else {
            assert_eq!(result.label, "temporal_normal");
            assert_eq!(float(result.confidence), 0.95);
            assert!(float(result.drift).abs() < 1e-6);
        }
    }
    assert!(memory.entries.keys().all(|key| key.starts_with("window:")));
    assert_eq!(memory.entries.keys().filter(|key| key.starts_with("window:slot:s:")).count(), 40);
}

#[test]
fn ring_keeps_the_last_window() {
    let mut memory = Memory::new();
    let vectors: Vec<SparseVec> =
        (0..27).map(|i| SparseVec { pos: vec![i], neg: vec![i + 100] }).collect();
    for v in &vectors {
        run_temporal(&mut memory, "s", v);
    }
    for j in 7..27usize {
        let key = format!("window:slot:s:{}", j % 20);
        let stored = load_vec(Ok(memory.entries.get(&key).cloned())).unwrap();
        assert_eq!(stored.pos, vectors[j].pos);
    }
}

#[test]
fn drift_history_is_bounded() {
    let mut memory = Memory::new();
    let old: Vec<Single> = (0..10).map(|i| single(i as f32)).collect();
    memory.entries.insert("window:drift:s:history".to_string(), save_drift_history(&old));
    memory.entries.insert("window:ring:s:size".to_string(), save_u64(40));
    memory.entries.insert("window:ring:s:head".to_string(), save_u64(40));
    let result = run_temporal(&mut memory, "s", &SparseVec { pos: vec![1], neg: vec![] });
    let history =
        load_drift_history(Ok(memory.entries.get("window:drift:s:history").cloned()));
    assert_eq!(history.len(), 10);
    assert_eq!(history[0], old[1]);
    assert_eq!(history[8], old[9]);
    assert_eq!(history[9], result.drift);
    let one = extend_history(vec![], single(0.5));
    assert_eq!(one, vec![single(0.5)]);
}

#[test]
fn rising_history_is_an_emerging_trend() {
    let mut memory = Memory::new();
    let old: Vec<Single> = (0..5).map(|i| single(-1.0 + 0.2 * i as f32)).collect();
    memory.entries.insert("window:drift:s:history".to_string(), save_drift_history(&old));
    memory.entries.insert("window:ring:s:size".to_string(), save_u64(40));
    memory.entries.insert("window:ring:s:head".to_string(), save_u64(100));
    let result = run_temporal(&mut memory, "s", &SparseVec { pos: vec![1], neg: vec![] });
    assert_eq!(float(result.drift), 0.0);
    assert!((float(result.drift_rate) - 0.2).abs() < 1e-5);
    assert_eq!(result.label, "emerging_trend");
    assert_eq!(float(result.confidence), 0.60);
}

#[test]
fn write_pointer_and_fill_count_wrap_around() {
    let mut memory = Memory::new();
    memory.entries.insert("window:ring:s:head".to_string(), save_u64(u64::MAX));
    memory.entries.insert("window:ring:s:size".to_string(), save_u64(39));
    let result = run_temporal(&mut memory, "s", &SparseVec { pos: vec![1], neg: vec![] });
    assert_eq!(memory.counter("window:ring:s:head"), 0);
    assert_eq!(memory.counter("window:ring:s:size"), 40);
    assert_ne!(result.label, "temporal_warming_up");
    let slot = usize::MAX % 20;
    assert!(memory.entries.contains_key(&format!("window:slot:s:{slot}")));
}

#[test]
fn drift_of_windows() {
    let a = vec![SparseVec { pos: vec![1, 2], neg: vec![] }];
    let b = vec![SparseVec { pos: vec![], neg: vec![1, 2] }];
    let c = vec![SparseVec { pos: vec![7, 8], neg: vec![] }];
    assert_eq!(float(window_drift(&a, &a)), 0.0);
    assert_eq!(float(window_drift(&a, &b)), 2.0);
    assert_eq!(float(window_drift(&a, &c)), 1.0);
    assert_eq!(float(window_drift(&a, &vec![])), 0.0);
    assert_eq!(float(window_drift(&vec![], &vec![])), 0.0);
}

#[test]
fn answers_of_another_kind_change_nothing() {
    let run = classify_temporal("s", SparseVec { pos: vec![1], neg: vec![] });
    let run = run.resume(Answer::Saved(Ok(())));
    assert!(matches!(run.stage, TemporalStage::Head));
    let run = run.resume(Answer::Exponential(single(1.0)));
    assert!(matches!(run.stage, TemporalStage::Head));
    let run = classify_message("s", br#"{"k":"v"}"#);
    let run = run.resume(Answer::Saved(Ok(())));
    assert!(matches!(run.stage, MessageStage::Count));
    let run = handle_message("s", vec![]);
    let run = run.resume(Response::Published(Ok(())));
    assert!(matches!(run.stage, HandlerStage::Open));
}

// Messages.

#[test]
fn stream_warms_up_and_then_classifies() {
    let mut memory = Memory::new();
    for message in 1..=30u64 {
        let seen = classify(&mut memory, "pattern.monitor.integration", QUAKE).unwrap();
        assert_eq!(
            seen,
            Seen {
                classification: "WARMING_UP".to_string(),
                confidence: 0.5,
                solutions: vec![("warming_up".to_string(), 0.5, "phase1".to_string())],
                anomalous_fields: vec![],
                message_count: message,
                hitl_required: false,
                phase: 1,
                temporal: None,
            }
        );
    }
    let subject = "pattern.monitor.integration";
    assert_eq!(memory.counter(&format!("stats:v1:{subject}:n")), 30);
    assert!(!memory.entries.contains_key(&format!("stats:v1:{subject}:mean_score")));
    for message in 31..=39u64 {
        let seen = classify(&mut memory, subject, QUAKE).unwrap();
        assert_eq!(seen.message_count, message);
        assert_eq!(seen.phase, 1);
        assert_eq!(seen.temporal, None);
        if message == 31 {
            // The spread was nil, so the first score is far off.
            assert_eq!(seen.classification, "ANOMALY");
            let spike = seen.solutions.iter().find(|s| s.0 == "message_level_anomaly").unwrap();
            assert!((spike.1 - 0.9999995).abs() < 1e-6);
        }
    }
    for message in 40..=42u64 {
        let seen = classify(&mut memory, subject, QUAKE).unwrap();
        assert_eq!(seen.message_count, message);
        assert_eq!(seen.phase, 2);
        assert_eq!(seen.temporal, Some(("temporal_normal".to_string(), 0.95)));
        assert!(seen.confidence >= 0.95);
        assert!(seen.solutions.contains(&(
            "temporal_normal".to_string(),
            0.95,
            "phase2".to_string()
        )));
    }
    for key in ["n", "mean_vec", "mean_score", "m2"] {
        assert!(memory.entries.contains_key(&format!("stats:v1:{subject}:{key}")));
    }
    for field in ["event", "magnitude", "location", "depth_km"] {
        assert!(memory.entries.contains_key(&format!("ema:v1:{subject}:{field}")));
    }
}

#[test]
fn first_scored_message_follows_the_formulas() {
    let mut memory = Memory::new();
    let body = r#"{"sensor":"temperature"}"#;
    for _ in 0..30 {
        classify(&mut memory, "s", body).unwrap();
    }
    let seen = classify(&mut memory, "s", body).unwrap();
    // The same bundle every time: its similarity to the mean bundle is one.
    let v = bundle(body);
    let score = float(v.similarity(&v));
    let mean = score / 31.0;
    let m2 = score * (score - mean);
    let z = (score - mean).abs() / (m2 / 30.0).sqrt().max(1e-6);
    let confidence = 1.0 - (-0.5 * z * z).exp();
    let combined = 0.60 * confidence + (1.0 - 0.60) * 0.0;
    assert_eq!(seen.classification, "ANOMALY");
    assert_eq!(seen.confidence, combined);
    assert!(seen.hitl_required);
    assert_eq!(seen.anomalous_fields, Vec::<String>::new());
    assert_eq!(
        seen.solutions,
        vec![
            ("message_level_anomaly".to_string(), confidence, "phase1".to_string()),
            ("normal".to_string(), 1.0 - confidence, "phase1".to_string()),
        ]
    );
    let stored = memory.entries.get("stats:v1:s:mean_score").unwrap();
    assert_eq!(stored, &mean.to_le_bytes().to_vec());
    let stored = memory.entries.get("stats:v1:s:m2").unwrap();
    assert_eq!(stored, &m2.to_le_bytes().to_vec());
    // The bundle itself is what its repetition comes to.
    assert_eq!(memory.entries.get("stats:v1:s:mean_vec").unwrap(), &save_vec(&v));
}

#[test]
fn deviating_field_is_anomalous() {
    let mut memory = Memory::new();
    for _ in 0..30 {
        classify(&mut memory, "s", r#"{"event":"earthquake","sensor":"temperature"}"#).unwrap();
    }
    let seen =
        classify(&mut memory, "s", r#"{"event":"volcano eruption","sensor":"temperature"}"#)
            .unwrap();
    assert_eq!(seen.anomalous_fields, vec!["event".to_string()]);
    let fields =
        encode_json_fields(br#"{"event":"volcano eruption","sensor":"temperature"}"#).unwrap();
    let before = encode_json_fields(br#"{"event":"earthquake"}"#).unwrap();
    let score = float(fields.get("event").unwrap().similarity(before.get("event").unwrap()));
    let spike = seen.solutions.iter().find(|s| s.0 == "field_spike:event").unwrap();
    assert_eq!(spike.1, (1.0 - score).clamp(0.0, 1.0));
}

#[test]
fn new_field_is_no_anomaly() {
    let mut memory = Memory::new();
    memory.entries.insert("stats:v1:s:n".to_string(), save_u64(50));
    let seen = classify(&mut memory, "s", r#"{"sensor":"temperature"}"#).unwrap();
    assert_eq!(seen.message_count, 51);
    assert_eq!(seen.anomalous_fields, Vec::<String>::new());
    assert!(memory.entries.contains_key("ema:v1:s:sensor"));
}

#[test]
fn typical_score_is_normal_and_reviewed() {
    let mut memory = Memory::new();
    let body = r#"{"sensor":"temperature"}"#;
    let v = bundle(body);
    memory.entries.insert("stats:v1:s:n".to_string(), save_u64(99));
    memory.entries.insert("stats:v1:s:mean_vec".to_string(), save_vec(&v));
    memory.entries.insert("stats:v1:s:mean_score".to_string(), save_f32(v.similarity(&v)));
    memory.entries.insert("stats:v1:s:m2".to_string(), save_f32(single(1.0)));
    let seen = classify(&mut memory, "s", body).unwrap();
    assert_eq!(seen.classification, "NORMAL");
    assert_eq!(seen.message_count, 100);
    assert_eq!(seen.confidence, 0.0);
    assert!(seen.hitl_required);
    assert_eq!(seen.solutions[0], ("normal".to_string(), 1.0, "phase1".to_string()));
}

#[test]
fn counter_saturates() {
    let mut memory = Memory::new();
    memory.entries.insert("stats:v1:s:n".to_string(), save_u64(u64::MAX));
    let seen = classify(&mut memory, "s", r#"{"sensor":"temperature"}"#).unwrap();
    assert_eq!(seen.message_count, u64::MAX);
    assert_eq!(memory.counter("stats:v1:s:n"), u64::MAX);
}

#[test]
fn message_without_fields_is_skipped() {
    let mut memory = Memory::new();
    let seen = classify(&mut memory, "s", "{}").unwrap();
    assert_eq!(
        seen,
        Seen {
            classification: "SKIPPED".to_string(),
            confidence: 0.0,
            solutions: vec![],
            anomalous_fields: vec![],
            message_count: 0,
            hitl_required: false,
            phase: 1,
            temporal: None,
        }
    );
    assert!(memory.entries.is_empty());
}

#[test]
fn bad_body_is_refused() {
    let mut memory = Memory::new();
    assert_eq!(
        classify(&mut memory, "s", "[1]").unwrap_err(),
        "body is not a JSON object"
    );
    assert!(classify(&mut memory, "s", "{").unwrap_err().starts_with("JSON parse error: "));
    assert!(memory.entries.is_empty());
}

#[test]
fn failed_writes_matter_for_the_mean_bundle_only() {
    let mut memory = Memory::new();
    memory.broken = vec!["stats:v1:s:mean_vec".to_string(), "ema:v1:s:sensor".to_string()];
    let body = r#"{"sensor":"temperature"}"#;
    let seen = classify(&mut memory, "s", body).unwrap();
    assert_eq!(seen.classification, "WARMING_UP");
    memory.entries.insert("stats:v1:s:n".to_string(), save_u64(30));
    assert_eq!(classify(&mut memory, "s", body).unwrap_err(), "keyvalue: access denied");
    assert_eq!(memory.counter("stats:v1:s:n"), 30);
    memory.broken = vec![
        "ema:v1:s:sensor".to_string(),
        "stats:v1:s:mean_score".to_string(),
        "stats:v1:s:m2".to_string(),
        "stats:v1:s:n".to_string(),
    ];
    assert_eq!(classify(&mut memory, "s", body).unwrap().message_count, 31);
}

#[test]
fn failed_reads_count_as_missing() {
    let run = classify_message("s", br#"{"sensor":"temperature"}"#);
    let run = run.resume(Answer::Loaded(Err(StoreError::NoSuchStore)));
    assert!(matches!(run.stage, MessageStage::WarmMean { n: 1 }));
}

#[test]
fn subjects_are_kept_apart() {
    let mut memory = Memory::new();
    classify(&mut memory, "a", r#"{"sensor":"temperature"}"#).unwrap();
    let before = memory.entries.clone();
    classify(&mut memory, "b", r#"{"sensor":"pressure"}"#).unwrap();
    for (key, bytes) in &before {
        assert_eq!(memory.entries.get(key), Some(bytes));
    }
    assert_eq!(memory.counter("stats:v1:b:n"), 1);
}

// Handling.

#[test]
fn result_is_published() {
    let mut memory = Memory::new();
    let (outcome, sent) = handle(&mut memory, "pattern.monitor.sensors", QUAKE);
    assert_eq!(outcome, Ok(()));
    assert_eq!(
        sent,
        vec![Sent {
            subject: "pattern.classified.pattern.monitor.sensors".to_string(),
            body: "WARMING_UP 1".to_string(),
            reply_to: None,
        }]
    );
}

#[test]
fn doubtful_result_is_reviewed() {
    let mut memory = Memory::new();
    let body = "{\"sensor\":\"temp\u{e9}rature\"}";
    memory.entries.insert("stats:v1:pattern.monitor.sensors:n".to_string(), save_u64(30));
    let (outcome, sent) = handle(&mut memory, "pattern.monitor.sensors", body);
    assert_eq!(outcome, Ok(()));
    assert_eq!(sent.len(), 2);
    assert_eq!(sent[0].subject, "pattern.classified.pattern.monitor.sensors");
    assert_eq!(sent[0].body, "ANOMALY 31");
    assert_eq!(sent[1].subject, "pattern.alert.human.sensors");
    assert_eq!(sent[1].reply_to, Some("pattern.alert.human.sensors.reply".to_string()));
    assert_eq!(
        sent[1].body,
        format!(
            "pattern.monitor.sensors|{body}|2|Classifier confidence 0.60 is below threshold 0.70; \
             human review requested."
        )
    );
}

#[test]
fn skipped_message_is_published_without_review() {
    let mut memory = Memory::new();
    let (outcome, sent) = handle(&mut memory, "s", "{}");
    assert_eq!(outcome, Ok(()));
    assert_eq!(sent.len(), 1);
    assert_eq!(sent[0].body, "SKIPPED 0");
}

#[test]
fn refused_body_is_an_error_and_not_published() {
    let mut memory = Memory::new();
    let (outcome, sent) = handle(&mut memory, "s", "[]");
    assert_eq!(outcome, Err("body is not a JSON object".to_string()));
    assert!(sent.is_empty());
    assert!(memory.entries.is_empty());
}

#[test]
fn reply_counts_as_a_message() {
    let mut memory = Memory::new();
    let reply = r#"{"classification":"ANOMALY","label":"field_spike:magnitude"}"#;
    let (outcome, sent) = handle(&mut memory, "pattern.alert.human.sensors.reply", reply);
    assert_eq!(outcome, Ok(()));
    assert!(sent.is_empty());
    assert_eq!(memory.entries.len(), 1);
    assert_eq!(memory.counter("stats:v1:sensors:n"), 1);
    handle(&mut memory, "pattern.alert.human.sensors.reply", reply).0.unwrap();
    assert_eq!(memory.counter("stats:v1:sensors:n"), 2);
}

#[test]
fn unreadable_reply_is_ignored() {
    let mut memory = Memory::new();
    let (outcome, sent) = handle(&mut memory, "pattern.alert.human.sensors.reply", "yes");
    assert_eq!(outcome, Ok(()));
    assert!(sent.is_empty());
    assert!(memory.entries.is_empty());
}

#[test]
fn reply_to_another_subject_counts_for_it_as_a_whole() {
    assert_eq!(base_of("pattern.alert.human.sensors.reply"), "sensors");
    assert_eq!(base_of("pattern.alert.human.a.b.reply"), "a.b");
    assert_eq!(base_of("other.reply"), "other.reply");
    assert_eq!(base_of("pattern.alert.human..reply"), "");
    assert_eq!(base_of("sensors"), "sensors");
    let run = handle_human_reply("sensors", &None);
    assert!(matches!(run.action(), Action::Done));
}

#[test]
fn alerts_drop_the_monitoring_prefix() {
    assert_eq!(alert_subject_of("pattern.monitor.sensors"), "pattern.alert.human.sensors");
    assert_eq!(alert_subject_of("sensors"), "pattern.alert.human.sensors");
    for subject in ["pattern.monitor.sensors", "sensors", "a.b", "\u{e9}t\u{e9}"] {
        let leaf = subject.strip_prefix("pattern.monitor.").unwrap_or(subject);
        assert_eq!(base_of(&format!("{}.reply", alert_subject_of(subject))), leaf);
    }
}

#[test]
fn failures_end_the_handling_with_their_texts() {
    let body = br#"{"sensor":"temperature"}"#.to_vec();
    let end = |run: pattern_classifier::handler::HandlerRun| match run.stage {
        HandlerStage::Done { outcome } => outcome.unwrap_err(),
        _ => unreachable!(),
    };
    let run = handle_message("s", body.clone()).resume(Response::Opened(Err(
        StoreError::NoSuchStore,
    )));
    assert_eq!(end(run), "keyvalue: no such store");

    // Stops where the named request is due, and fails it.
    let fail = |stop: &str, response: Response| {
        let mut memory = Memory::new();
        memory.entries.insert("stats:v1:s:n".to_string(), save_u64(30));
        let mut run = handle_message("s", body.clone());
        let mut published = 0;
        loop {
            let (due, next) = match run.request() {
                Request::Open(_) => ("open", Response::Opened(Ok(()))),
                Request::Step(action) => ("step", Response::Step(memory.perform(action))),
                Request::EncodeResult(_) => ("result", Response::Encoded(Ok("r".to_string()))),
                Request::EncodeAlert(_) => ("alert", Response::Encoded(Ok("a".to_string()))),
                Request::Publish(_) => {
                    published += 1;
                    let due = if published == 1 { "publish result" } else { "publish alert" };
                    (due, Response::Published(Ok(())))
                }
                Request::ReadReply | Request::Finish => unreachable!(),
            };
            if due == stop {
                return end(run.resume(response));
            }
            run = run.resume(next);
        }
    };
    let text = || "why".to_string();
    assert_eq!(fail("result", Response::Encoded(Err(text()))), "serialise result: why");
    assert_eq!(fail("publish result", Response::Published(Err(text()))), "publish classified: why");
    assert_eq!(fail("alert", Response::Encoded(Err(text()))), "serialise alert: why");
    assert_eq!(fail("publish alert", Response::Published(Err(text()))), "publish alert: why");
}

#[test]
fn payload_of_an_alert_replaces_what_is_not_text() {
    let result = match finish(
        &mut Memory::new(),
        classify_message("s", br#"{"sensor":"temperature"}"#),
    )
    .stage
    {
        MessageStage::Done { outcome } => outcome.unwrap(),
        _ => unreachable!(),
    };
    let bytes = vec![b'a', 0xff, b'b'];
    let alert = pattern_classifier::handler::build_alert("s", &bytes, result);
    assert_eq!(alert.payload, "a\u{fffd}b");
    assert_eq!(
        alert.message,
        "Classifier confidence 0.50 is below threshold 0.70; human review requested."
    );
}

// Laws on concrete values.

#[test]
fn runs_end_within_their_lengths() {
    let count = |n: u64, size: u64, body: &str| {
        let mut memory = Memory::new();
        memory.entries.insert("stats:v1:s:n".to_string(), save_u64(n));
        memory.entries.insert("window:ring:s:size".to_string(), save_u64(size));
        let mut run = classify_message("s", body.as_bytes());
        let mut steps = 0;
        while !matches!(run.stage, MessageStage::Done { .. }) {
            let answer = memory.perform(run.action());
            run = run.resume(answer);
            steps += 1;
        }
        steps
    };
    let two = r#"{"event":"earthquake","sensor":"temperature"}"#;
    assert_eq!(count(0, 0, two), 3 + 2 * 2 + 1 + 6);
    assert_eq!(count(0, 40, two), 3 + 2 * 2 + 1 + 48);
    assert_eq!(count(30, 0, two), 9 + 2 * 2 + 6);
    assert_eq!(count(30, 40, two), 9 + 2 * 2 + 48);
    assert_eq!(count(30, 40, "{}"), 0);
}

#[test]
fn failing_store_still_lets_runs_end() {
    let mut run = classify_message("s", br#"{"sensor":"temperature"}"#);
    let mut steps = 0;
    while !matches!(run.stage, MessageStage::Done { .. }) {
        let answer = match run.action() {
            Action::Load(_) => Answer::Loaded(Err(StoreError::AccessDenied)),
            Action::Save(_, _) => Answer::Saved(Err(StoreError::AccessDenied)),
            Action::Exponential(x) => Answer::Exponential(x),
            Action::Done => unreachable!(),
        };
        run = run.resume(answer);
        steps += 1;
        assert!(steps <= 9 + 2 + 49);
    }
}

#[test]
fn drift_compares_the_last_window_with_the_one_before() {
    let mut memory = Memory::new();
    let vectors: Vec<SparseVec> =
        (0..63).map(|i| SparseVec { pos: vec![i / 4, 100 + i], neg: vec![200 + i % 7] }).collect();
    for (k, v) in vectors.iter().enumerate() {
        let result = run_temporal(&mut memory, "s", v);
        if k + 1 < 40 {
            assert_eq!(result.label, "temporal_warming_up");
            continue;
        }
        let superpose = |list: &[SparseVec]| {
            let outside: Vec<embeddenator_vsa::SparseVec> = list
                .iter()
                .map(|v| embeddenator_vsa::SparseVec { pos: v.pos.clone(), neg: v.neg.clone() })
                .collect();
            outside[1..].iter().fold(outside[0].clone(), |acc, v| acc.bundle(v))
        };
        let now = superpose(&vectors[k + 1 - 20..k + 1]);
        let prev = superpose(&vectors[k + 1 - 40..k + 1 - 20]);
        let drift = (1.0 - now.cosine(&prev) as f32).max(0.0);
        assert_eq!(float(result.drift), drift, "{k}");
        assert!(drift > 0.0);
    }
}

#[test]
fn change_of_regime_is_seen() {
    let mut memory = Memory::new();
    let day = SparseVec { pos: vec![1, 2, 3], neg: vec![4] };
    let night = SparseVec { pos: vec![10, 20, 30], neg: vec![40] };
    for _ in 0..40 {
        let result = run_temporal(&mut memory, "s", &day);
        assert_eq!(float(result.drift), 0.0);
    }
    let mut labels = Vec::new();
    for message in 1..=40 {
        let result = run_temporal(&mut memory, "s", &night);
        if message == 20 {
            // Twenty messages unlike the twenty before them.
            assert_eq!(float(result.drift), 1.0);
        }
        if message == 40 {
            assert_eq!(float(result.drift), 0.0);
            assert_eq!(result.label, "temporal_normal");
        }
        labels.push(result.label);
    }
    assert!(labels.contains(&"regime_change".to_string()));
}

#[test]
fn slots_hold_one_bundle_each_and_what_is_displaced_moves_on() {
    let mut memory = Memory::new();
    let vectors: Vec<SparseVec> =
        (0..67).map(|i| SparseVec { pos: vec![i], neg: vec![i + 100] }).collect();
    for (k, v) in vectors.iter().enumerate() {
        run_temporal(&mut memory, "s", v);
        let bytes = memory.entries.get(&format!("window:slot:s:{}", k % 20));
        assert_eq!(bytes, Some(&save_vec(v)));
        let moved = memory.entries.get(&format!("window:slot:s:{}", 20 + k % 20));
        assert_eq!(moved.cloned(), k.checked_sub(20).map(|j| save_vec(&vectors[j])));
    }
    for j in 27..67usize {
        let slot = if j >= 47 { j % 20 } else { 20 + j % 20 };
        let bytes = memory.entries.get(&format!("window:slot:s:{slot}")).cloned();
        assert_eq!(load_vec(Ok(bytes)).unwrap().pos, vectors[j].pos);
    }
}

#[test]
fn messages_and_replies_count_and_other_inputs_do_not() {
    let mut memory = Memory::new();
    let reply = r#"{"classification":"NORMAL","label":"x"}"#;
    let inputs = [
        ("sensors", r#"{"sensor":"temperature"}"#),
        ("sensors", "{}"),
        ("sensors", "[1]"),
        ("pattern.alert.human.sensors.reply", reply),
        ("pattern.alert.human.sensors.reply", "unreadable"),
        ("pattern.alert.human.others.reply", reply),
        ("others", r#"{"sensor":"temperature"}"#),
        ("sensors", "no json"),
        ("sensors", r#"{"sensor":"pressure"}"#),
        ("pattern.alert.human.sensors.reply", reply),
    ];
    for (subject, body) in inputs {
        let _ = handle(&mut memory, subject, body);
    }
    assert_eq!(memory.counter("stats:v1:sensors:n"), 4);
    assert_eq!(memory.counter("stats:v1:others:n"), 2);
    let (outcome, sent) = handle(&mut memory, "sensors", r#"{"sensor":"temperature"}"#);
    assert_eq!(outcome, Ok(()));
    assert_eq!(sent[0].body, "WARMING_UP 5");
    assert_eq!(memory.counter("stats:v1:sensors:n"), 5);
}

#[test]
fn emerging_trend_asks_for_a_review() {
    let mut memory = Memory::new();
    let body = r#"{"sensor":"temperature"}"#;
    let old: Vec<Single> = (0..5).map(|i| single(-1.0 + 0.2 * i as f32)).collect();
    memory.entries.insert("window:drift:s:history".to_string(), save_drift_history(&old));
    memory.entries.insert("window:ring:s:size".to_string(), save_u64(40));
    memory.entries.insert("window:ring:s:head".to_string(), save_u64(100));
    memory.entries.insert("stats:v1:s:n".to_string(), save_u64(99));
    let seen = classify(&mut memory, "s", body).unwrap();
    assert_eq!(seen.phase, 2);
    assert_eq!(seen.temporal, Some(("emerging_trend".to_string(), 0.60)));
    assert!(seen.hitl_required);
    assert!(seen.confidence >= 0.60 && seen.confidence <= 1.0);
    assert!(seen.solutions.len() <= 5);
    assert!(seen.solutions.windows(2).all(|w| w[0].1 >= w[1].1));
}

#[test]
fn statistics_are_read_back_by_the_next_message() {
    let mut memory = Memory::new();
    let body = r#"{"event":"earthquake","sensor":"temperature"}"#;
    let other = r#"{"event":"volcano","sensor":"temperature"}"#;
    classify(&mut memory, "s", body).unwrap();
    classify(&mut memory, "s", other).unwrap();
    let first = encode_json_fields(body.as_bytes()).unwrap();
    let second = encode_json_fields(other.as_bytes()).unwrap();
    let expected = pattern_classifier::encode::update_running_bundle(
        Some(first.get("event").unwrap()),
        second.get("event").unwrap(),
    );
    assert_eq!(memory.entries.get("ema:v1:s:event").unwrap(), &save_vec(&expected));
    let mean = pattern_classifier::encode::update_running_bundle(
        Some(&bundle(body)),
        &bundle(other),
    );
    assert_eq!(memory.entries.get("stats:v1:s:mean_vec").unwrap(), &save_vec(&mean));
}

#[test]
fn stored_statistics_accumulate_the_scores_behind_a_zero_for_each_warm_up_message() {
    let mut memory = Memory::new();
    let mut expected = (single(0.0), single(0.0));
    for i in 0..45u64 {
        let body = if i == 37 { QUAKE.replace("6.2", "7.0") } else { QUAKE.to_string() };
        let vector = bundle(&body);
        let mean_vec = load_vec(Ok(memory.entries.get("stats:v1:s:mean_vec").cloned()));
        let score = match mean_vec {
            Some(mean) if i >= 30 => vector.similarity(&mean),
            _ => single(0.0),
        };
        expected = welford_update(i + 1, expected.0, expected.1, score);
        classify(&mut memory, "s", &body).unwrap();
        let stored = |key: &str| load_f32(Ok(memory.entries.get(key).cloned()));
        assert_eq!(stored("stats:v1:s:mean_score").bits, expected.0.bits, "{i}");
        assert_eq!(stored("stats:v1:s:m2").bits, expected.1.bits, "{i}");
    }
    assert!(float(expected.0) != 0.0 && float(expected.1) > 0.0);
}
