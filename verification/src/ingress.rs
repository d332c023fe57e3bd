//! What the relay does with each event on an accepted socket before routing it:
//! the idle timeout, the per-socket message rate limit and the frame size limit.

use vstd::prelude::*;
use vstd::utf8::encode_utf8;
use crate::config::RelayLimitsConfig;
use crate::session::{close_message, FrameView, MessageView, OutboundMessage, RelayFrame};

verus! {

/// A message read from a socket.
#[derive(Debug)]
pub enum InboundMessage {
    Text(String),
    Binary(Vec<u8>),
    Ping(Vec<u8>),
    Pong,
    Close,
    /// The socket failed to deliver a message.
    Error,
}

/// What happened on a socket.
#[derive(Debug)]
pub enum InboundEvent {
    Message(InboundMessage),
    /// Nothing arrived within the idle timeout.
    IdleTimeout,
    /// The socket's stream ended.
    Ended,
}

pub enum InboundView {
    Message(InboundMessageView),
    IdleTimeout,
    Ended,
}

pub enum InboundMessageView {
    Text(Seq<char>),
    Binary(Seq<u8>),
    Ping(Seq<u8>),
    Pong,
    Close,
    Error,
}

impl View for InboundEvent {
    type V = InboundView;

    open spec fn view(&self) -> InboundView {
        match self {
            InboundEvent::Message(m) => InboundView::Message(
                match m {
                    InboundMessage::Text(s) => InboundMessageView::Text(s@),
                    InboundMessage::Binary(b) => InboundMessageView::Binary(b@),
                    InboundMessage::Ping(b) => InboundMessageView::Ping(b@),
                    InboundMessage::Pong => InboundMessageView::Pong,
                    InboundMessage::Close => InboundMessageView::Close,
                    InboundMessage::Error => InboundMessageView::Error,
                },
            ),
            InboundEvent::IdleTimeout => InboundView::IdleTimeout,
            InboundEvent::Ended => InboundView::Ended,
        }
    }
}

/// What to do about an event.
#[derive(Debug)]
pub enum IngressAction {
    /// Route the frame through the session.
    Forward(RelayFrame),
    /// Answer a ping with this payload through the session.
    AnswerPing(Vec<u8>),
    /// Nothing to do.
    Ignore,
    /// Queue this close on the socket and stop reading it.
    Reject(OutboundMessage),
    /// Stop reading the socket.
    Stop,
}

pub enum ActionView {
    Forward(FrameView),
    AnswerPing(Seq<u8>),
    Ignore,
    Reject(MessageView),
    Stop,
}

impl View for IngressAction {
    type V = ActionView;

    open spec fn view(&self) -> ActionView {
        match self {
            IngressAction::Forward(f) => ActionView::Forward(f@),
            IngressAction::AnswerPing(p) => ActionView::AnswerPing(p@),
            IngressAction::Ignore => ActionView::Ignore,
            IngressAction::Reject(m) => ActionView::Reject(m@),
            IngressAction::Stop => ActionView::Stop,
        }
    }
}

/// The message count of a socket's current rate window. Times are milliseconds on
/// a clock that does not go back.
#[derive(Debug, Clone, Copy)]
pub struct RateWindow {
    pub window_started_ms: u64,
    pub messages_in_window: usize,
}

/// Milliseconds from `start` to `now`; none if `now` is earlier.
pub open spec fn elapsed_ms(start: u64, now: u64) -> nat {
    if now >= start {
        (now - start) as nat
    } else {
        0
    }
}

/// The window after one more message at `now`: a window that has lasted
/// `rate_limit_window_ms` starts afresh at `now`; the message is counted (the count
/// stops at `usize::MAX`).
pub open spec fn window_after(w: RateWindow, now: u64, limits: RelayLimitsConfig) -> RateWindow {
    let reset = elapsed_ms(w.window_started_ms, now) >= limits.rate_limit_window_ms;
    let before = if reset { 0usize } else { w.messages_in_window };
    RateWindow {
        window_started_ms: if reset { now } else { w.window_started_ms },
        messages_in_window: if before < usize::MAX { (before + 1) as usize } else { before },
    }
}

/// The close of a socket that stayed silent too long.
pub open spec fn idle_close() -> MessageView {
    MessageView::Close(1001, "Idle timeout"@)
}

/// The close of a socket that sent too many messages in a window.
pub open spec fn rate_close() -> MessageView {
    MessageView::Close(1008, "Rate limit exceeded"@)
}

/// The close of a socket that sent a frame above the size limit.
pub open spec fn size_close() -> MessageView {
    MessageView::Close(1009, "Frame too large"@)
}

/// What an event on a socket does: the rate window after it and the action.
pub open spec fn ingress_step(w: RateWindow, now: u64, e: InboundView, limits: RelayLimitsConfig) -> (RateWindow, ActionView) {
    match e {
        InboundView::IdleTimeout => (w, ActionView::Reject(idle_close())),
        InboundView::Ended => (w, ActionView::Stop),
        InboundView::Message(m) => {
            let w2 = window_after(w, now, limits);
            if w2.messages_in_window > limits.max_messages_per_window {
                (w2, ActionView::Reject(rate_close()))
            } else {
                (
                    w2,
                    match m {
                        InboundMessageView::Text(t) => if (encode_utf8(t).len() as usize) > limits.max_frame_bytes {
                            ActionView::Reject(size_close())
                        } else {
                            ActionView::Forward(FrameView::Text(t))
                        },
                        InboundMessageView::Binary(b) => if b.len() > limits.max_frame_bytes {
                            ActionView::Reject(size_close())
                        } else {
                            ActionView::Forward(FrameView::Binary(b))
                        },
                        InboundMessageView::Ping(p) => ActionView::AnswerPing(p),
                        InboundMessageView::Pong => ActionView::Ignore,
                        InboundMessageView::Close => ActionView::Stop,
                        InboundMessageView::Error => ActionView::Stop,
                    },
                )
            }
        },
    }
}

impl RateWindow {
    /// A window that starts at `now_ms` with no message in it.
    pub fn new(now_ms: u64) -> (res: RateWindow)
        ensures
            res.window_started_ms == now_ms,
            res.messages_in_window == 0,
    {
        RateWindow { window_started_ms: now_ms, messages_in_window: 0 }
    }

    /// Decides what to do about an event on a socket that arrived at `now_ms`: an
    /// idle timeout closes the socket; each message counts against the rate limit,
    /// and one over it closes the socket; a text or binary frame above the size
    /// limit closes the socket, any other is routed; a ping is answered, a pong
    /// ignored; a close, an error or the end of the stream stop the reading.
    pub fn on_event(&mut self, now_ms: u64, event: InboundEvent, limits: &RelayLimitsConfig) -> (res: IngressAction)
        ensures
            (*final(self), res@) == ingress_step(*old(self), now_ms, event@, *limits),
    {
        let message = match event {
            InboundEvent::IdleTimeout => {
                return IngressAction::Reject(close_message(1001, "Idle timeout"));
            },
            InboundEvent::Ended => {
                return IngressAction::Stop;
            },
            InboundEvent::Message(m) => m,
        };
        let elapsed: u64 = if now_ms >= self.window_started_ms {
            now_ms - self.window_started_ms
        } else {
            0
        };
        if elapsed >= limits.rate_limit_window_ms {
            self.window_started_ms = now_ms;
            self.messages_in_window = 0;
        }
        if self.messages_in_window < usize::MAX {
            self.messages_in_window = self.messages_in_window + 1;
        }
        if self.messages_in_window > limits.max_messages_per_window {
            return IngressAction::Reject(close_message(1008, "Rate limit exceeded"));
        }
        match message {
            InboundMessage::Text(text) => {
                if text.as_str().len() > limits.max_frame_bytes {
                    IngressAction::Reject(close_message(1009, "Frame too large"))
                } else {
                    IngressAction::Forward(RelayFrame::Text(text))
                }
            },
            InboundMessage::Binary(bytes) => {
                if bytes.len() > limits.max_frame_bytes {
                    IngressAction::Reject(close_message(1009, "Frame too large"))
                } else {
                    IngressAction::Forward(RelayFrame::Binary(bytes))
                }
            },
            InboundMessage::Ping(payload) => IngressAction::AnswerPing(payload),
            InboundMessage::Pong => IngressAction::Ignore,
            InboundMessage::Close => IngressAction::Stop,
            InboundMessage::Error => IngressAction::Stop,
        }
    }
}

} // verus!
