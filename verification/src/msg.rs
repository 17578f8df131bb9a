//! The message variants of the inter-process wire protocol.

use vstd::prelude::*;

verus! {

/// Severity of a log line relayed from a worker to the master.
#[derive(Debug, Clone, Copy, PartialEq, Eq, Structural)]
pub enum LogLevel {
    Error,
    Warn,
    Info,
    Debug,
    Trace,
}

/// One protocol message, exchanged between a worker and the master over a
/// framed byte stream.
///
/// `Greeting` opens the handshake; `BatchRequest`/`Batch`/`EndRequest` drive
/// batch distribution; `Log` relays a worker log line; `JSON` carries an
/// opaque structured status payload; `DownloadStart`/`DownloadEnd` are
/// informational hints for the progress display.
#[derive(Debug, PartialEq, Eq)]
pub enum Message {
    Greeting(usize),
    Log { thr_id: usize, level: LogLevel, target: String, msg: String },
    BatchRequest,
    Batch(Vec<String>),
    JSON(String),
    DownloadStart,
    DownloadEnd,
    EndRequest,
}

/// The mathematical model of a [`Message`]: strings become character
/// sequences, a batch becomes a sequence of such sequences.
pub enum MsgAbs {
    Greeting(usize),
    Log { thr_id: usize, level: LogLevel, target: Seq<char>, msg: Seq<char> },
    BatchRequest,
    Batch(Seq<Seq<char>>),
    JSON(Seq<char>),
    DownloadStart,
    DownloadEnd,
    EndRequest,
}

impl View for Message {
    type V = MsgAbs;

    open spec fn view(&self) -> MsgAbs {
        match self {
            Message::Greeting(id) => MsgAbs::Greeting(*id),
            Message::Log { thr_id, level, target, msg } => MsgAbs::Log {
                thr_id: *thr_id,
                level: *level,
                target: target@,
                msg: msg@,
            },
            Message::BatchRequest => MsgAbs::BatchRequest,
            Message::Batch(jobs) => MsgAbs::Batch(jobs.deep_view()),
            Message::JSON(payload) => MsgAbs::JSON(payload@),
            Message::DownloadStart => MsgAbs::DownloadStart,
            Message::DownloadEnd => MsgAbs::DownloadEnd,
            Message::EndRequest => MsgAbs::EndRequest,
        }
    }
}

/// The variant tag of a message, used to report protocol violations with
/// enough context to diagnose a role or version mismatch.
#[derive(Debug, Clone, Copy, PartialEq, Eq, Structural)]
pub enum MsgTag {
    Greeting,
    Log,
    BatchRequest,
    Batch,
    JSON,
    DownloadStart,
    DownloadEnd,
    EndRequest,
}

/// The tag of an abstract message.
pub open spec fn tag_of(m: MsgAbs) -> MsgTag {
    match m {
        MsgAbs::Greeting(..) => MsgTag::Greeting,
        MsgAbs::Log { .. } => MsgTag::Log,
        MsgAbs::BatchRequest => MsgTag::BatchRequest,
        MsgAbs::Batch(..) => MsgTag::Batch,
        MsgAbs::JSON(..) => MsgTag::JSON,
        MsgAbs::DownloadStart => MsgTag::DownloadStart,
        MsgAbs::DownloadEnd => MsgTag::DownloadEnd,
        MsgAbs::EndRequest => MsgTag::EndRequest,
    }
}

impl Message {
    /// The variant tag of this message.
    pub fn tag(&self) -> (t: MsgTag)
        ensures
            t == tag_of(self@),
    {
        match self {
            Message::Greeting(..) => MsgTag::Greeting,
            Message::Log { .. } => MsgTag::Log,
            Message::BatchRequest => MsgTag::BatchRequest,
            Message::Batch(..) => MsgTag::Batch,
            Message::JSON(..) => MsgTag::JSON,
            Message::DownloadStart => MsgTag::DownloadStart,
            Message::DownloadEnd => MsgTag::DownloadEnd,
            Message::EndRequest => MsgTag::EndRequest,
        }
    }
}

} // verus!
