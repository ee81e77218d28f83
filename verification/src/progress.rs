//! Every run ends, however its actions go.
//!
//! An answer of the kind that was asked for brings a run closer to its end; any
//! other answer leaves it where it is.

use crate::classify::{MessageRunView, MessageStageView};
use crate::effects::{message_length, temporal_length};
use crate::encode::{encoding_outcome, fields_of, json_members};
use crate::handler::{
    HandlerRunView, HandlerStageView, ReplyRunView, ReplyStage, RequestView, ResponseView,
};
use crate::protocol::{ActionView, AnswerView};
use crate::service::handling_length;
use crate::stats::WINDOW_N;
use crate::temporal::{TemporalRunView, TemporalStageView};
use vstd::prelude::*;

verus! {

/// Whether an answer is of the kind that an action asks for.
pub open spec fn answers(answer: AnswerView, action: ActionView) -> bool {
    match action {
        ActionView::Load(_) => answer is Loaded,
        ActionView::Save(_, _) => answer is Saved,
        ActionView::Exponential(_) => answer is Exponential,
        ActionView::Done => false,
    }
}

/// Steps that a temporal run still takes at most.
pub open spec fn temporal_rank(run: TemporalRunView) -> nat {
    match run.stage {
        TemporalStageView::Head => 9 + 2 * WINDOW_N as nat,
        TemporalStageView::Size { .. } => 8 + 2 * WINDOW_N as nat,
        TemporalStageView::Slot { .. } => 7 + 2 * WINDOW_N as nat,
        TemporalStageView::Displace { .. } => 6 + 2 * WINDOW_N as nat,
        TemporalStageView::SaveSlot { .. } => 5 + 2 * WINDOW_N as nat,
        TemporalStageView::SaveHead { .. } => 4 + 2 * WINDOW_N as nat,
        TemporalStageView::SaveSize { .. } => 3 + 2 * WINDOW_N as nat,
        TemporalStageView::Window { index, .. } => (2 + (2 * WINDOW_N - index)) as nat,
        TemporalStageView::History { .. } => 2,
        TemporalStageView::SaveHistory { .. } => 1,
        TemporalStageView::Done { .. } => 0,
    }
}

/// A temporal run gets closer to its end with every fitting answer and stays as it
/// is upon any other.
pub proof fn lemma_temporal_progress(run: TemporalRunView, answer: AnswerView)
    requires
        run.sound(),
    ensures
        run.next(answer).sound(),
        answers(answer, run.action()) ==> temporal_rank(run.next(answer)) < temporal_rank(run),
        !answers(answer, run.action()) ==> run.next(answer) == run,
        temporal_rank(run) == 0 <==> run.stage is Done,
        temporal_rank(run) <= temporal_length(),
{
}

/// Steps that a message run still takes at most.
pub open spec fn message_rank(run: MessageRunView) -> nat {
    let count = run.fields.len();
    let rest = temporal_length();
    match run.stage {
        MessageStageView::Count => rest + 2 * count + 9,
        MessageStageView::WarmMean { .. } => rest + 2 * count + 3,
        MessageStageView::WarmSaveMean { .. } => rest + 2 * count + 2,
        MessageStageView::WarmField { index, .. } => (rest + 2 * (count - index) + 1) as nat,
        MessageStageView::WarmSaveField { index, .. } => (rest + 2 * (count - index)) as nat,
        MessageStageView::WarmSaveCount { .. } => rest + 1,
        MessageStageView::WarmTemporal { run, .. } => temporal_rank(run),
        MessageStageView::Mean { .. } => rest + 2 * count + 8,
        MessageStageView::MeanScore { .. } => rest + 2 * count + 7,
        MessageStageView::Spread { .. } => rest + 2 * count + 6,
        MessageStageView::Decay { .. } => rest + 2 * count + 5,
        MessageStageView::SaveMean { .. } => rest + 2 * count + 4,
        MessageStageView::SaveMeanScore { .. } => rest + 2 * count + 3,
        MessageStageView::SaveSpread { .. } => rest + 2 * count + 2,
        MessageStageView::SaveCount { .. } => rest + 2 * count + 1,
        MessageStageView::Field { index, .. } => (rest + 2 * (count - index)) as nat,
        MessageStageView::SaveField { index, .. } => (rest + 2 * (count - index) - 1) as nat,
        MessageStageView::Temporal { run, .. } => temporal_rank(run),
        MessageStageView::Done { .. } => 0,
    }
}

/// A message run gets closer to its end with every fitting answer and stays as it
/// is upon any other.
pub proof fn lemma_message_progress(run: MessageRunView, answer: AnswerView)
    requires
        run.sound(),
    ensures
        run.next(answer).sound(),
        answers(answer, run.action()) ==> message_rank(run.next(answer)) < message_rank(run),
        !answers(answer, run.action()) ==> run.next(answer) == run,
        message_rank(run) == 0 <==> run.stage is Done,
        message_rank(run) <= message_length(run.fields.len()),
{
    match run.stage {
        MessageStageView::WarmTemporal { run: t, .. } => {
            lemma_temporal_progress(t, answer);
        },
        MessageStageView::Temporal { run: t, .. } => {
            lemma_temporal_progress(t, answer);
        },
        _ => {},
    }
}

/// Whether a response is of the kind that a request asks for.
pub open spec fn responds(response: ResponseView, request: RequestView) -> bool {
    match request {
        RequestView::Open(_) => response is Opened,
        RequestView::ReadReply => response is Reply,
        RequestView::Step(action) => response matches ResponseView::Step(answer) && answers(
            answer,
            action,
        ),
        RequestView::EncodeResult(_) => response is Encoded,
        RequestView::EncodeAlert(_) => response is Encoded,
        RequestView::Publish(_) => response is Published,
        RequestView::Finish => false,
    }
}

/// Steps that a reply's run still takes.
pub open spec fn reply_rank(run: ReplyRunView) -> nat {
    match run.stage {
        ReplyStage::Count => 2,
        ReplyStage::SaveCount { .. } => 1,
        ReplyStage::Done => 0,
    }
}

/// Steps that a handler run still takes at most.
pub open spec fn handler_rank(run: HandlerRunView) -> nat {
    match run.stage {
        HandlerStageView::Open => 5 + message_length(fields_of(run.body).len()),
        HandlerStageView::ReadReply => 3,
        HandlerStageView::Reply { reply } => reply_rank(reply),
        HandlerStageView::Classify { run } => 4 + message_rank(run),
        HandlerStageView::Encode { .. } => 4,
        HandlerStageView::Publish { .. } => 3,
        HandlerStageView::EncodeAlert { .. } => 2,
        HandlerStageView::PublishAlert { .. } => 1,
        HandlerStageView::Done { .. } => 0,
    }
}

/// A handler run gets closer to its end with every fitting response and stays as
/// it is upon any other.
pub proof fn lemma_handler_progress(run: HandlerRunView, response: ResponseView)
    requires
        run.sound(),
    ensures
        run.next(response).sound(),
        responds(response, run.request()) ==> handler_rank(run.next(response)) < handler_rank(run),
        !responds(response, run.request()) ==> run.next(response) == run,
        handler_rank(run) == 0 <==> run.stage is Done,
        run.stage is Open ==> handler_rank(run) == handling_length(fields_of(run.body).len()),
{
    match run.stage {
        HandlerStageView::Classify { run: m } => {
            if let ResponseView::Step(answer) = response {
                lemma_message_progress(m, answer);
            }
        },
        HandlerStageView::Open => {
            let begun = MessageRunView::begin(
                run.subject,
                encoding_outcome(json_members(run.body)),
            );
            assert(begun.sound());
            assert(message_rank(begun) <= message_length(fields_of(run.body).len()));
        },
        _ => {},
    }
}

/// A failed write is passed over by the temporal layer and by replies.
pub proof fn lemma_failed_writes(temporal: TemporalRunView, reply: ReplyRunView, text: Seq<char>)
    ensures
        ({
            let good = AnswerView::Saved(Ok(()));
            let bad = AnswerView::Saved(Err(text));
            temporal.next(bad) == temporal.next(good) && reply.next(bad) == reply.next(good)
        }),
{
}

/// A message whose mean bundle cannot be written after the warm-up fails with the text of
/// the error.
pub proof fn lemma_failed_mean_write(message: MessageRunView, text: Seq<char>)
    requires
        message.stage is SaveMean,
    ensures
        message.next(AnswerView::Saved(Err(text))).stage == (MessageStageView::Done {
            outcome: Err(text),
        }),
{
}

/// Any other failed write of a message is passed over.
pub proof fn lemma_failed_message_writes(message: MessageRunView, text: Seq<char>)
    requires
        !(message.stage is SaveMean),
    ensures
        message.next(AnswerView::Saved(Err(text))) == message.next(AnswerView::Saved(Ok(()))),
{
    match message.stage {
        MessageStageView::WarmTemporal { run, .. } => {
            lemma_failed_writes(run, ReplyRunView::start(Seq::empty(), true), text);
        },
        MessageStageView::Temporal { run, .. } => {
            lemma_failed_writes(run, ReplyRunView::start(Seq::empty(), true), text);
        },
        _ => {
            assert(message.next(AnswerView::Saved(Err(text))) == message.saved(Err(text)));
            assert(message.next(AnswerView::Saved(Ok(()))) == message.saved(Ok(())));
        },
    }
}

/// When the store cannot be opened, or a text cannot be written or published, handling a
/// message ends there with an error that says so.
pub proof fn lemma_failed_requests(run: HandlerRunView, text: Seq<char>)
    ensures
        run.stage is Open ==> run.next(ResponseView::Opened(Err(text))).stage == (
        HandlerStageView::Done { outcome: Err(text) }),
        run.stage is Encode ==> run.next(ResponseView::Encoded(Err(text))).stage == (
        HandlerStageView::Done { outcome: Err("serialise result: "@ + text) }),
        run.stage is Publish ==> run.next(ResponseView::Published(Err(text))).stage == (
        HandlerStageView::Done { outcome: Err("publish classified: "@ + text) }),
        run.stage is EncodeAlert ==> run.next(ResponseView::Encoded(Err(text))).stage == (
        HandlerStageView::Done { outcome: Err("serialise alert: "@ + text) }),
        run.stage is PublishAlert ==> run.next(ResponseView::Published(Err(text))).stage == (
        HandlerStageView::Done { outcome: Err("publish alert: "@ + text) }),
{
}

}
