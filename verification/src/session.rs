//! The per-connection session state machine: the identity handshake followed
//! by the serving loop, with every protocol violation turned into an error
//! that is fatal to this session alone.

use vstd::prelude::*;
use crate::msg::{tag_of, LogLevel, Message, MsgAbs, MsgTag};
use crate::queue::{chunks_of, BatchQueue};

verus! {

/// The phases of one worker connection.
#[derive(Debug, Clone, Copy, PartialEq, Eq, Structural)]
pub enum SessionState {
    /// Nothing received yet; only a `Greeting` is acceptable.
    AwaitingGreeting,
    /// Handshake done; the serving loop has not started.
    Ready,
    /// Inside the serving loop.
    Serving,
    /// The queue was exhausted and `EndRequest` was sent; terminal.
    Done,
    /// A protocol violation ended the session; terminal.
    Failed,
}

/// What the caller must do in reaction to one received message: send a reply
/// frame, forward a log line, forward a status payload to the progress sink,
/// or pass a download hint on to the progress display.
#[derive(Debug, PartialEq, Eq)]
pub enum SessionEffect {
    Reply(Message),
    ForwardLog { thr_id: usize, level: LogLevel, target: String, msg: String },
    ForwardStatus(String),
    DownloadStarted,
    DownloadEnded,
}

/// A message that violates the protocol in the session's current state,
/// with enough context to diagnose a role or version mismatch.
#[derive(Debug, Clone, Copy, PartialEq, Eq)]
pub struct ProtocolError {
    /// The tag of the offending message.
    pub received: MsgTag,
    /// The state the session was in when it arrived.
    pub state: SessionState,
    /// The worker identity, where the handshake had established one.
    pub worker_id: Option<usize>,
}

/// Which messages violate the protocol in which states: anything but a
/// `Greeting` before the handshake, and any message that only the master side
/// may send (`Greeting`, `Batch`, `EndRequest`) during the serving loop.
pub open spec fn protocol_violation(state: SessionState, m: MsgAbs) -> bool {
    match state {
        SessionState::AwaitingGreeting => !(m is Greeting),
        SessionState::Ready | SessionState::Serving => m is Greeting || m is Batch
            || m is EndRequest,
        SessionState::Done | SessionState::Failed => false,
    }
}

/// One worker session: its protocol state and the identity confirmed by the
/// handshake.
pub struct Session {
    pub state: SessionState,
    pub worker_id: Option<usize>,
}

impl Session {
    /// Well-formedness: an identity is known exactly from the handshake on.
    pub open spec fn wf(&self) -> bool {
        match self.state {
            SessionState::AwaitingGreeting => self.worker_id is None,
            SessionState::Ready | SessionState::Serving | SessionState::Done => self.worker_id
                is Some,
            SessionState::Failed => true,
        }
    }

    /// A terminal session receives no further messages.
    pub open spec fn is_terminal(&self) -> bool {
        self.state is Done || self.state is Failed
    }

    /// A fresh session for a newly accepted connection.
    pub fn new() -> (s: Session)
        ensures
            s.wf(),
            s.state is AwaitingGreeting,
            s.worker_id is None,
    {
        Session { state: SessionState::AwaitingGreeting, worker_id: None }
    }

    /// Advances the session by one received message.
    ///
    /// The first message must be a `Greeting`, which is echoed back; any other
    /// first message fails the session with a protocol error and produces no
    /// reply. In the serving loop a `BatchRequest` draws from the shared
    /// queue (replying `Batch`, or `EndRequest` once the queue is exhausted),
    /// `Log` and `JSON` are forwarded, the download hints are passed on, and
    /// a master-side message fails the session.
    pub fn on_message(&mut self, msg: Message, queue: &mut BatchQueue) -> (r: Result<
        SessionEffect,
        ProtocolError,
    >)
        requires
            old(self).wf(),
            !old(self).is_terminal(),
            old(queue).wf(),
        ensures
            final(self).wf(),
            final(queue).wf(),
            final(queue).jobs_view() == old(queue).jobs_view(),
            final(queue).batch_size == old(queue).batch_size,
            final(queue).cursor >= old(queue).cursor,
            // a violation, and only a violation, fails the session
            r is Err <==> protocol_violation(old(self).state, msg@),
            r matches Err(pe) ==> ({
                &&& final(self).state is Failed
                &&& final(self).worker_id == old(self).worker_id
                &&& *final(queue) == *old(queue)
                &&& pe.received == tag_of(msg@)
                &&& pe.state == old(self).state
                &&& pe.worker_id == old(self).worker_id
            }),
            // handshake: the greeting is echoed with the worker's own identity
            old(self).state is AwaitingGreeting ==> (msg@ matches MsgAbs::Greeting(id) ==> ({
                &&& r matches Ok(e) && e matches SessionEffect::Reply(rm) && rm@
                    == MsgAbs::Greeting(id)
                &&& final(self).state is Ready
                &&& final(self).worker_id == Some(id)
                &&& *final(queue) == *old(queue)
            })),
            // serving loop
            (old(self).state is Ready || old(self).state is Serving) ==> ({
                &&& final(self).worker_id == old(self).worker_id
                &&& (msg@ is BatchRequest && !old(queue).spec_exhausted()) ==> (r matches Ok(e)
                    && e matches SessionEffect::Reply(rm) && rm@ matches MsgAbs::Batch(items) && {
                    let jobs = old(queue).jobs_view();
                    let b = old(queue).batch_size as int;
                    let c = old(queue).cursor as int;
                    let end = if c + b <= jobs.len() { c + b } else { jobs.len() as int };
                    &&& items == jobs.subrange(c, end)
                    &&& items == chunks_of(jobs, b as nat)[c / b]
                    &&& 1 <= items.len() <= b
                    &&& final(queue).cursor == end
                    &&& final(self).state is Serving
                })
                &&& (msg@ is BatchRequest && old(queue).spec_exhausted()) ==> (r matches Ok(e)
                    && e matches SessionEffect::Reply(rm) && rm@ is EndRequest && *final(queue)
                    == *old(queue) && final(self).state is Done)
                &&& msg@ matches MsgAbs::Log { thr_id, level, target, msg: text } ==> (r matches Ok(
                    e,
                ) && e matches SessionEffect::ForwardLog {
                    thr_id: e_id,
                    level: e_level,
                    target: e_target,
                    msg: e_text,
                } && e_id == thr_id && e_level == level && e_target@ == target && e_text@ == text
                    && *final(queue) == *old(queue) && final(self).state is Serving)
                &&& msg@ matches MsgAbs::JSON(payload) ==> (r matches Ok(e)
                    && e matches SessionEffect::ForwardStatus(p) && p@ == payload && *final(queue)
                    == *old(queue) && final(self).state is Serving)
                &&& msg@ is DownloadStart ==> (r == Ok::<SessionEffect, ProtocolError>(
                    SessionEffect::DownloadStarted,
                ) && *final(queue) == *old(queue) && final(self).state is Serving)
                &&& msg@ is DownloadEnd ==> (r == Ok::<SessionEffect, ProtocolError>(
                    SessionEffect::DownloadEnded,
                ) && *final(queue) == *old(queue) && final(self).state is Serving)
            }),
    {
        let tag = msg.tag();
        match self.state {
            SessionState::AwaitingGreeting => {
                match msg {
                    Message::Greeting(id) => {
                        self.state = SessionState::Ready;
                        self.worker_id = Some(id);
                        Ok(SessionEffect::Reply(Message::Greeting(id)))
                    },
                    _ => {
                        let err = ProtocolError {
                            received: tag,
                            state: self.state,
                            worker_id: self.worker_id,
                        };
                        self.state = SessionState::Failed;
                        Err(err)
                    },
                }
            },
            SessionState::Ready | SessionState::Serving => {
                match msg {
                    Message::BatchRequest => {
                        match queue.draw_next() {
                            Some(batch) => {
                                self.state = SessionState::Serving;
                                Ok(SessionEffect::Reply(Message::Batch(batch)))
                            },
                            None => {
                                self.state = SessionState::Done;
                                Ok(SessionEffect::Reply(Message::EndRequest))
                            },
                        }
                    },
                    Message::Log { thr_id, level, target, msg: text } => {
                        self.state = SessionState::Serving;
                        Ok(SessionEffect::ForwardLog { thr_id, level, target, msg: text })
                    },
                    Message::JSON(payload) => {
                        self.state = SessionState::Serving;
                        Ok(SessionEffect::ForwardStatus(payload))
                    },
                    Message::DownloadStart => {
                        self.state = SessionState::Serving;
                        Ok(SessionEffect::DownloadStarted)
                    },
                    Message::DownloadEnd => {
                        self.state = SessionState::Serving;
                        Ok(SessionEffect::DownloadEnded)
                    },
                    _ => {
                        let err = ProtocolError {
                            received: tag,
                            state: self.state,
                            worker_id: self.worker_id,
                        };
                        self.state = SessionState::Failed;
                        Err(err)
                    },
                }
            },
            SessionState::Done | SessionState::Failed => {
                proof {
                    assert(false);
                }
                let err = ProtocolError {
                    received: tag,
                    state: self.state,
                    worker_id: self.worker_id,
                };
                Err(err)
            },
        }
    }
}

} // verus!
