//! Handling of incoming messages: routing, publication, and human review.

use crate::classify::{
    classify_message, count_key, incremented, optional_text, ClassifyResult, ClassifyResultView,
    MessageRun, MessageRunView, MessageStage, MessageStageView,
};
use crate::codec::{counter, kv_err, le_bytes, load_u64, save_u64, written, StoreError};
use crate::encode::{encoding_outcome, json_members};
use crate::notation::{to_two_decimals, two_decimals};
use crate::protocol::{Action, ActionView, Answer, AnswerView};
use crate::single::Single;
use crate::solutions::{solutions_view, Solution, SolutionView};
use crate::stats::HITL_THRESHOLD;
use crate::text::{
    ends_with, join, prefixed, strip_prefix, strip_suffix, without_prefix, without_suffix,
};
use vstd::prelude::*;
use vstd::string::*;
use vstd::utf8::{decode_utf8, valid_utf8};

verus! {

/// A person's answer to a review request.
#[derive(Debug)]
pub struct HumanReply {
    pub classification: String,
    pub label: String,
}

/// A request for human review.
#[derive(Debug)]
pub struct HitlAlert {
    pub subject: String,
    pub payload: String,
    pub candidates: Vec<Solution>,
    pub message: String,
}

pub struct HitlAlertView {
    pub subject: Seq<char>,
    pub payload: Seq<char>,
    pub candidates: Seq<SolutionView>,
    pub message: Seq<char>,
}

impl View for HitlAlert {
    type V = HitlAlertView;

    open spec fn view(&self) -> HitlAlertView {
        HitlAlertView {
            subject: self.subject@,
            payload: self.payload@,
            candidates: solutions_view(self.candidates@),
            message: self.message@,
        }
    }
}

/// A message to publish.
#[derive(Debug)]
pub struct Outgoing {
    pub subject: String,
    pub body: String,
    pub reply_to: Option<String>,
}

pub struct OutgoingView {
    pub subject: Seq<char>,
    pub body: Seq<char>,
    pub reply_to: Option<Seq<char>>,
}

impl View for Outgoing {
    type V = OutgoingView;

    open spec fn view(&self) -> OutgoingView {
        OutgoingView {
            subject: self.subject@,
            body: self.body@,
            reply_to: optional_text(self.reply_to),
        }
    }
}

/// Whether a subject is one that people reply on.
pub open spec fn is_reply(subject: Seq<char>) -> bool {
    ends_with(subject, ".reply"@)
}

/// The stream that a reply subject belongs to: what stands between the alert
/// prefix and the reply suffix, or the subject itself.
pub open spec fn reply_base(subject: Seq<char>) -> Seq<char> {
    match without_suffix(subject, ".reply"@) {
        Some(s) => match without_prefix(s, "pattern.alert.human."@) {
            Some(base) => base,
            None => subject,
        },
        None => subject,
    }
}

/// The subject under which a message's classification is published.
pub open spec fn classified_subject(subject: Seq<char>) -> Seq<char> {
    "pattern.classified."@ + subject
}

/// A subject without the prefix of the monitored streams.
pub open spec fn leaf(subject: Seq<char>) -> Seq<char> {
    match without_prefix(subject, "pattern.monitor."@) {
        Some(rest) => rest,
        None => subject,
    }
}

/// The subject of the review requests for a stream.
pub open spec fn alert_subject(subject: Seq<char>) -> Seq<char> {
    "pattern.alert.human."@ + leaf(subject)
}

/// The subject on which a review request is answered.
pub open spec fn reply_subject(subject: Seq<char>) -> Seq<char> {
    alert_subject(subject) + ".reply"@
}

/// Whether a person has to look at a classified message.
pub open spec fn needs_review(result: ClassifyResultView) -> bool {
    result.hitl_required && result.classification != "WARMING_UP"@
}

/// The text that `String::from_utf8_lossy` makes of bytes.
pub uninterp spec fn lossy_text(bytes: Seq<u8>) -> Seq<char>;

/// Calls `String::from_utf8_lossy`.  Trusted: the text depends on the bytes alone,
/// and valid UTF-8 is decoded.  Where the bytes are not valid UTF-8, nothing is
/// said of the replacement characters.
#[verifier::external_body]
fn lossy(bytes: &[u8]) -> (text: String)
    ensures
        text@ == lossy_text(bytes@),
        valid_utf8(bytes@) ==> text@ == decode_utf8(bytes@),
{
    String::from_utf8_lossy(bytes).to_string()
}

/// The sentence of a review request.
pub open spec fn review_message(confidence: Single) -> Seq<char> {
    "Classifier confidence "@ + two_decimals(confidence) + (" is below threshold "@ + two_decimals(
        Single { bits: HITL_THRESHOLD },
    ) + "; human review requested."@)
}

/// The review request for a classified message.
pub open spec fn alert_for(
    subject: Seq<char>,
    body: Seq<u8>,
    result: ClassifyResultView,
) -> HitlAlertView {
    HitlAlertView {
        subject,
        payload: lossy_text(body),
        candidates: result.solutions,
        message: review_message(result.confidence),
    }
}

/// The stream that a reply subject belongs to.
pub fn base_of(subject: &str) -> (base: String)
    ensures
        base@ == reply_base(subject@),
{
    match strip_suffix(subject, ".reply") {
        Some(s) => match strip_prefix(s.as_str(), "pattern.alert.human.") {
            Some(base) => base,
            None => subject.to_owned(),
        },
        None => subject.to_owned(),
    }
}

/// The subject of the review requests for a stream.
pub fn alert_subject_of(subject: &str) -> (r: String)
    ensures
        r@ == alert_subject(subject@),
{
    match strip_prefix(subject, "pattern.monitor.") {
        Some(rest) => prefixed("pattern.alert.human.", rest.as_str()),
        None => prefixed("pattern.alert.human.", subject),
    }
}

/// Whether a person has to look at a classified message.
pub fn wants_review(result: &ClassifyResult) -> (r: bool)
    ensures
        r == needs_review(result@),
{
    result.hitl_required && result.classification != "WARMING_UP".to_owned()
}

/// The review request for a classified message.
pub fn build_alert(subject: &str, body: &Vec<u8>, result: ClassifyResult) -> (alert: HitlAlert)
    ensures
        alert@ == alert_for(subject@, body@, result@),
{
    let confidence = to_two_decimals(result.confidence);
    let threshold = to_two_decimals(Single { bits: HITL_THRESHOLD });
    let tail = join(" is below threshold ", threshold.as_str(), "; human review requested.");
    HitlAlert {
        subject: subject.to_owned(),
        payload: lossy(body.as_slice()),
        candidates: result.solutions,
        message: join("Classifier confidence ", confidence.as_str(), tail.as_str()),
    }
}

/// How far the ingestion of a reply has come.
#[derive(Debug)]
pub enum ReplyStage {
    /// Reading the message counter.
    Count,
    /// Writing the counter.
    SaveCount { n: u64 },
    /// Over.
    Done,
}

/// Ingestion of a confirmed human classification: it counts as one more message
/// of its stream.
#[derive(Debug)]
pub struct ReplyRun {
    pub subject: String,
    pub stage: ReplyStage,
}

pub struct ReplyRunView {
    pub subject: Seq<char>,
    pub stage: ReplyStage,
}

impl View for ReplyRun {
    type V = ReplyRunView;

    open spec fn view(&self) -> ReplyRunView {
        ReplyRunView { subject: self.subject@, stage: self.stage }
    }
}

impl ReplyRunView {
    /// A run for a reply, which is over at once when the reply could not be read.
    pub open spec fn start(subject: Seq<char>, readable: bool) -> Self {
        ReplyRunView {
            subject,
            stage: if readable {
                ReplyStage::Count
            } else {
                ReplyStage::Done
            },
        }
    }

    /// What the run wants done next.
    pub open spec fn action(self) -> ActionView {
        match self.stage {
            ReplyStage::Count => ActionView::Load(count_key(self.subject)),
            ReplyStage::SaveCount { n } => ActionView::Save(
                count_key(self.subject),
                le_bytes(n as nat, 8),
            ),
            ReplyStage::Done => ActionView::Done,
        }
    }

    /// The run once it knows how its action went.  An answer of another kind
    /// than was asked for changes nothing.
    pub open spec fn next(self, answer: AnswerView) -> Self {
        match (self.stage, answer) {
            (ReplyStage::Count, AnswerView::Loaded(got)) => ReplyRunView {
                stage: ReplyStage::SaveCount { n: incremented(counter(got)) },
                ..self
            },
            (ReplyStage::SaveCount { .. }, AnswerView::Saved(_)) => ReplyRunView {
                stage: ReplyStage::Done,
                ..self
            },
            _ => self,
        }
    }
}

/// Starts the ingestion of a reply; `None` stands for one that could not be read.
pub fn handle_human_reply(subject: &str, reply: &Option<HumanReply>) -> (run: ReplyRun)
    ensures
        run@ == ReplyRunView::start(subject@, reply is Some),
{
    let stage = match reply {
        Some(_) => ReplyStage::Count,
        None => ReplyStage::Done,
    };
    ReplyRun { subject: subject.to_owned(), stage }
}

impl ReplyRun {
    /// What the run wants done next.
    pub fn action(&self) -> (action: Action)
        ensures
            action@ == self@.action(),
    {
        let subject = self.subject.as_str();
        match self.stage {
            ReplyStage::Count => Action::Load(join("stats:v1:", subject, ":n")),
            ReplyStage::SaveCount { n } => Action::Save(
                join("stats:v1:", subject, ":n"),
                save_u64(n),
            ),
            ReplyStage::Done => Action::Done,
        }
    }

    /// The run once it knows how its action went.
    pub fn resume(self, answer: Answer) -> (run: ReplyRun)
        ensures
            run@ == self@.next(answer@),
    {
        let ReplyRun { subject, stage } = self;
        let stage = match (stage, answer) {
            (ReplyStage::Count, Answer::Loaded(got)) => ReplyStage::SaveCount {
                n: load_u64(got).saturating_add(1),
            },
            (ReplyStage::SaveCount { .. }, Answer::Saved(_)) => ReplyStage::Done,
            (stage, _) => stage,
        };
        ReplyRun { subject, stage }
    }
}

/// What handling a message wants done next.
#[derive(Debug)]
pub enum Request<'a> {
    /// Open the bucket of this name.
    Open(&'a str),
    /// Read the message body as a [`HumanReply`].
    ReadReply,
    /// Take a step of a run.
    Step(Action),
    /// Write a classification as JSON.
    EncodeResult(&'a ClassifyResult),
    /// Write a review request as JSON.
    EncodeAlert(&'a HitlAlert),
    /// Publish a message.
    Publish(Outgoing),
    /// Nothing: the message is handled.
    Finish,
}

pub enum RequestView {
    Open(Seq<char>),
    ReadReply,
    Step(ActionView),
    EncodeResult(ClassifyResultView),
    EncodeAlert(HitlAlertView),
    Publish(OutgoingView),
    Finish,
}

impl<'a> View for Request<'a> {
    type V = RequestView;

    open spec fn view(&self) -> RequestView {
        match *self {
            Request::Open(name) => RequestView::Open(name@),
            Request::ReadReply => RequestView::ReadReply,
            Request::Step(action) => RequestView::Step(action@),
            Request::EncodeResult(result) => RequestView::EncodeResult(result@),
            Request::EncodeAlert(alert) => RequestView::EncodeAlert(alert@),
            Request::Publish(message) => RequestView::Publish(message@),
            Request::Finish => RequestView::Finish,
        }
    }
}

/// How a request went.
#[derive(Debug)]
pub enum Response {
    Opened(Result<(), StoreError>),
    /// The reply, if the body could be read as one.
    Reply(Option<HumanReply>),
    Step(Answer),
    /// The JSON text, or the text of the error.
    Encoded(Result<String, String>),
    /// Whether the message was published, or the text of the error.
    Published(Result<(), String>),
}

pub enum ResponseView {
    Opened(Result<(), Seq<char>>),
    Reply(bool),
    Step(AnswerView),
    Encoded(Result<Seq<char>, Seq<char>>),
    Published(Result<(), Seq<char>>),
}

impl View for Response {
    type V = ResponseView;

    open spec fn view(&self) -> ResponseView {
        match *self {
            Response::Opened(done) => ResponseView::Opened(written(done)),
            Response::Reply(reply) => ResponseView::Reply(reply is Some),
            Response::Step(answer) => ResponseView::Step(answer@),
            Response::Encoded(Ok(json)) => ResponseView::Encoded(Ok(json@)),
            Response::Encoded(Err(text)) => ResponseView::Encoded(Err(text@)),
            Response::Published(Ok(_)) => ResponseView::Published(Ok(())),
            Response::Published(Err(text)) => ResponseView::Published(Err(text@)),
        }
    }
}

/// How far the handling of a message has come.
#[derive(Debug)]
pub enum HandlerStage {
    /// Opening the bucket.
    Open,
    /// Reading the body as a reply.
    ReadReply,
    /// Ingesting a reply.
    Reply { reply: ReplyRun },
    /// Classifying the message.
    Classify { run: MessageRun },
    /// Writing the classification.
    Encode { result: ClassifyResult },
    /// Publishing the classification.
    Publish { result: ClassifyResult, json: String },
    /// Writing the review request.
    EncodeAlert { alert: HitlAlert },
    /// Publishing the review request.
    PublishAlert { json: String },
    /// Over.
    Done { outcome: Result<(), String> },
}

pub enum HandlerStageView {
    Open,
    ReadReply,
    Reply { reply: ReplyRunView },
    Classify { run: MessageRunView },
    Encode { result: ClassifyResultView },
    Publish { result: ClassifyResultView, json: Seq<char> },
    EncodeAlert { alert: HitlAlertView },
    PublishAlert { json: Seq<char> },
    Done { outcome: Result<(), Seq<char>> },
}

pub open spec fn end_view(outcome: Result<(), String>) -> Result<(), Seq<char>> {
    match outcome {
        Ok(_) => Ok(()),
        Err(text) => Err(text@),
    }
}

impl View for HandlerStage {
    type V = HandlerStageView;

    open spec fn view(&self) -> HandlerStageView {
        match *self {
            HandlerStage::Open => HandlerStageView::Open,
            HandlerStage::ReadReply => HandlerStageView::ReadReply,
            HandlerStage::Reply { reply } => HandlerStageView::Reply { reply: reply@ },
            HandlerStage::Classify { run } => HandlerStageView::Classify { run: run@ },
            HandlerStage::Encode { result } => HandlerStageView::Encode { result: result@ },
            HandlerStage::Publish { result, json } => HandlerStageView::Publish {
                result: result@,
                json: json@,
            },
            HandlerStage::EncodeAlert { alert } => HandlerStageView::EncodeAlert { alert: alert@ },
            HandlerStage::PublishAlert { json } => HandlerStageView::PublishAlert { json: json@ },
            HandlerStage::Done { outcome } => HandlerStageView::Done { outcome: end_view(outcome) },
        }
    }
}

/// Handling of one message.
#[derive(Debug)]
pub struct HandlerRun {
    pub subject: String,
    pub body: Vec<u8>,
    pub stage: HandlerStage,
}

pub struct HandlerRunView {
    pub subject: Seq<char>,
    pub body: Seq<u8>,
    pub stage: HandlerStageView,
}

impl View for HandlerRun {
    type V = HandlerRunView;

    open spec fn view(&self) -> HandlerRunView {
        HandlerRunView { subject: self.subject@, body: self.body@, stage: self.stage@ }
    }
}

impl HandlerRunView {
    /// A run that has not done anything yet.
    pub open spec fn start(subject: Seq<char>, body: Seq<u8>) -> Self {
        HandlerRunView { subject, body, stage: HandlerStageView::Open }
    }

    /// Runs within the run are followed until they are over.
    pub open spec fn sound(self) -> bool {
        match self.stage {
            HandlerStageView::Reply { reply } => !(reply.stage is Done),
            HandlerStageView::Classify { run } => run.sound() && !(run.stage is Done),
            _ => true,
        }
    }

    pub open spec fn at(self, stage: HandlerStageView) -> Self {
        HandlerRunView { stage, ..self }
    }

    pub open spec fn done(self, outcome: Result<(), Seq<char>>) -> Self {
        self.at(HandlerStageView::Done { outcome })
    }

    /// Goes on once the reply's run has gone one step further.
    pub open spec fn replied(self, run: ReplyRunView) -> Self {
        match run.stage {
            ReplyStage::Done => self.done(Ok(())),
            _ => self.at(HandlerStageView::Reply { reply: run }),
        }
    }

    /// Goes on once the classification has gone one step further.
    pub open spec fn classified(self, run: MessageRunView) -> Self {
        match run.stage {
            MessageStageView::Done { outcome } => match outcome {
                Ok(result) => self.at(HandlerStageView::Encode { result }),
                Err(text) => self.done(Err(text)),
            },
            _ => self.at(HandlerStageView::Classify { run }),
        }
    }

    /// What the run wants done next.
    pub open spec fn request(self) -> RequestView {
        match self.stage {
            HandlerStageView::Open => RequestView::Open("pattern-monitor-vectors"@),
            HandlerStageView::ReadReply => RequestView::ReadReply,
            HandlerStageView::Reply { reply } => RequestView::Step(reply.action()),
            HandlerStageView::Classify { run } => RequestView::Step(run.action()),
            HandlerStageView::Encode { result } => RequestView::EncodeResult(result),
            HandlerStageView::Publish { json, .. } => RequestView::Publish(
                OutgoingView {
                    subject: classified_subject(self.subject),
                    body: json,
                    reply_to: None,
                },
            ),
            HandlerStageView::EncodeAlert { alert } => RequestView::EncodeAlert(alert),
            HandlerStageView::PublishAlert { json } => RequestView::Publish(
                OutgoingView {
                    subject: alert_subject(self.subject),
                    body: json,
                    reply_to: Some(reply_subject(self.subject)),
                },
            ),
            HandlerStageView::Done { .. } => RequestView::Finish,
        }
    }

    /// The run once it knows how its request went.  A response of another kind
    /// than was asked for changes nothing.
    pub open spec fn next(self, response: ResponseView) -> Self {
        match (self.stage, response) {
            (HandlerStageView::Open, ResponseView::Opened(done)) => match done {
                Err(text) => self.done(Err(text)),
                Ok(_) => if is_reply(self.subject) {
                    self.at(HandlerStageView::ReadReply)
                } else {
                    self.classified(
                        MessageRunView::begin(
                            self.subject,
                            encoding_outcome(json_members(self.body)),
                        ),
                    )
                },
            },
            (HandlerStageView::ReadReply, ResponseView::Reply(readable)) => self.replied(
                ReplyRunView::start(reply_base(self.subject), readable),
            ),
            (HandlerStageView::Reply { reply }, ResponseView::Step(answer)) => self.replied(
                reply.next(answer),
            ),
            (HandlerStageView::Classify { run }, ResponseView::Step(answer)) => self.classified(
                run.next(answer),
            ),
            (HandlerStageView::Encode { result }, ResponseView::Encoded(done)) => match done {
                Ok(json) => self.at(HandlerStageView::Publish { result, json }),
                Err(text) => self.done(Err("serialise result: "@ + text)),
            },
            (HandlerStageView::Publish { result, .. }, ResponseView::Published(done)) =>
                match done {
                Ok(_) => if needs_review(result) {
                    self.at(
                        HandlerStageView::EncodeAlert {
                            alert: alert_for(self.subject, self.body, result),
                        },
                    )
                } else {
                    self.done(Ok(()))
                },
                Err(text) => self.done(Err("publish classified: "@ + text)),
            },
            (HandlerStageView::EncodeAlert { .. }, ResponseView::Encoded(done)) => match done {
                Ok(json) => self.at(HandlerStageView::PublishAlert { json }),
                Err(text) => self.done(Err("serialise alert: "@ + text)),
            },
            (HandlerStageView::PublishAlert { .. }, ResponseView::Published(done)) => match done {
                Ok(_) => self.done(Ok(())),
                Err(text) => self.done(Err("publish alert: "@ + text)),
            },
            _ => self,
        }
    }
}

/// Starts the handling of a message.
pub fn handle_message(subject: &str, body: Vec<u8>) -> (run: HandlerRun)
    ensures
        run@.sound(),
        run@ == HandlerRunView::start(subject@, body@),
{
    HandlerRun { subject: subject.to_owned(), body, stage: HandlerStage::Open }
}

fn after_reply(run: ReplyRun) -> (stage: HandlerStage)
    ensures
        forall|h: HandlerRunView|
            #![trigger h.replied(run@)]
            h.at(stage@) == h.replied(run@),
        stage@ matches HandlerStageView::Reply { reply } ==> !(reply.stage is Done),
{
    match run.stage {
        ReplyStage::Done => HandlerStage::Done { outcome: Ok(()) },
        _ => HandlerStage::Reply { reply: run },
    }
}

fn after_step(run: MessageRun) -> (stage: HandlerStage)
    requires
        run@.sound(),
    ensures
        forall|h: HandlerRunView|
            #![trigger h.classified(run@)]
            h.at(stage@) == h.classified(run@),
        stage@ matches HandlerStageView::Classify { run: r } ==> r.sound() && !(r.stage is Done),
{
    let MessageRun { subject, fields, bundle, stage } = run;
    match stage {
        MessageStage::Done { outcome } => match outcome {
            Ok(result) => HandlerStage::Encode { result },
            Err(text) => HandlerStage::Done { outcome: Err(text) },
        },
        stage => HandlerStage::Classify { run: MessageRun { subject, fields, bundle, stage } },
    }
}

impl HandlerRun {
    /// What the run wants done next.
    pub fn request(&self) -> (request: Request<'_>)
        requires
            self@.sound(),
        ensures
            request@ == self@.request(),
    {
        match &self.stage {
            HandlerStage::Open => Request::Open("pattern-monitor-vectors"),
            HandlerStage::ReadReply => Request::ReadReply,
            HandlerStage::Reply { reply } => Request::Step(reply.action()),
            HandlerStage::Classify { run } => Request::Step(run.action()),
            HandlerStage::Encode { result } => Request::EncodeResult(result),
            HandlerStage::Publish { json, .. } => Request::Publish(
                Outgoing {
                    subject: prefixed("pattern.classified.", self.subject.as_str()),
                    body: json.clone(),
                    reply_to: None,
                },
            ),
            HandlerStage::EncodeAlert { alert } => Request::EncodeAlert(alert),
            HandlerStage::PublishAlert { json } => {
                let subject = alert_subject_of(self.subject.as_str());
                let reply = prefixed(subject.as_str(), ".reply");
                Request::Publish(Outgoing { subject, body: json.clone(), reply_to: Some(reply) })
            },
            HandlerStage::Done { .. } => Request::Finish,
        }
    }

    /// The run once it knows how its request went.
    #[verifier::rlimit(30)]
    pub fn resume(self, response: Response) -> (run: HandlerRun)
        requires
            self@.sound(),
        ensures
            run@.sound(),
            run@ == self@.next(response@),
    {
        let HandlerRun { subject, body, stage } = self;
        let stage = match (stage, response) {
            (HandlerStage::Open, Response::Opened(done)) => match done {
                Err(e) => HandlerStage::Done { outcome: Err(kv_err(e)) },
                Ok(_) => {
                    if strip_suffix(subject.as_str(), ".reply").is_some() {
                        HandlerStage::ReadReply
                    } else {
                        after_step(classify_message(subject.as_str(), body.as_slice()))
                    }
                },
            },
            (HandlerStage::ReadReply, Response::Reply(reply)) => {
                let base = base_of(subject.as_str());
                after_reply(handle_human_reply(base.as_str(), &reply))
            },
            (HandlerStage::Reply { reply }, Response::Step(answer)) => after_reply(
                reply.resume(answer),
            ),
            (HandlerStage::Classify { run }, Response::Step(answer)) => after_step(
                run.resume(answer),
            ),
            (HandlerStage::Encode { result }, Response::Encoded(done)) => match done {
                Ok(json) => HandlerStage::Publish { result, json },
                Err(text) => HandlerStage::Done {
                    outcome: Err(prefixed("serialise result: ", text.as_str())),
                },
            },
            (HandlerStage::Publish { result, .. }, Response::Published(done)) => match done {
                Ok(_) => {
                    if wants_review(&result) {
                        HandlerStage::EncodeAlert {
                            alert: build_alert(subject.as_str(), &body, result),
                        }
                    } else {
                        HandlerStage::Done { outcome: Ok(()) }
                    }
                },
                Err(text) => HandlerStage::Done {
                    outcome: Err(prefixed("publish classified: ", text.as_str())),
                },
            },
            (HandlerStage::EncodeAlert { .. }, Response::Encoded(done)) => match done {
                Ok(json) => HandlerStage::PublishAlert { json },
                Err(text) => HandlerStage::Done {
                    outcome: Err(prefixed("serialise alert: ", text.as_str())),
                },
            },
            (HandlerStage::PublishAlert { .. }, Response::Published(done)) => match done {
                Ok(_) => HandlerStage::Done { outcome: Ok(()) },
                Err(text) => HandlerStage::Done {
                    outcome: Err(prefixed("publish alert: ", text.as_str())),
                },
            },
            (stage, _) => stage,
        };
        HandlerRun { subject, body, stage }
    }
}

/// A review request is answered on a reply subject, and the answer finds its way
/// back to the stream without the prefix of the monitored ones.
pub proof fn lemma_reply_returns(subject: Seq<char>)
    ensures
        is_reply(reply_subject(subject)),
        reply_base(reply_subject(subject)) == leaf(subject),
{
    let reply = reply_subject(subject);
    let alert = alert_subject(subject);
    let prefix = "pattern.alert.human."@;
    let suffix = ".reply"@;
    assert(reply.subrange(reply.len() - suffix.len(), reply.len() as int) =~= suffix);
    assert(reply.subrange(0, reply.len() - suffix.len()) =~= alert);
    assert(alert.subrange(0, prefix.len() as int) =~= prefix);
    assert(alert.subrange(prefix.len() as int, alert.len() as int) =~= leaf(subject));
}

}
