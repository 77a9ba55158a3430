//! The streaming session's decisions: what to do with each frame the
//! transport delivers. The transport itself runs outside the library.
use vstd::prelude::*;

verus! {

/// A client of the exchange's streaming endpoint.
pub struct OKXWebSocketClient {
    url: String,
}

impl OKXWebSocketClient {
    pub closed spec fn endpoint(&self) -> Seq<char> {
        self.url@
    }

    /// A client for the streaming endpoint at `url`.
    pub fn new(url: &str) -> (r: Self)
        ensures
            r.endpoint() == url@,
    {
        OKXWebSocketClient { url: url.to_string() }
    }

    /// The endpoint this client connects to.
    pub fn url(&self) -> (r: &str)
        ensures
            r@ == self.endpoint(),
    {
        self.url.as_str()
    }
}

/// The kind of a frame received from the stream.
#[derive(Clone, Copy, Debug, PartialEq, Eq, Structural)]
pub enum FrameKind {
    /// A text payload: an update for the book.
    Text,
    Binary,
    Ping,
    Pong,
    /// The peer closed the connection.
    Close,
    /// A raw protocol frame.
    Raw,
    /// The transport reported an error.
    Failed,
}

/// What the session does with a frame.
#[derive(Clone, Copy, Debug, PartialEq, Eq, Structural)]
pub enum SessionAction {
    /// Hand the payload to the update merger.
    Forward,
    /// Answer with a pong carrying the ping's payload.
    ReplyPong,
    /// Control traffic that the book does not need.
    Ignore,
    /// End the session.
    Stop,
}

pub open spec fn action_for(kind: FrameKind) -> SessionAction {
    match kind {
        FrameKind::Text => SessionAction::Forward,
        FrameKind::Ping => SessionAction::ReplyPong,
        FrameKind::Binary | FrameKind::Pong | FrameKind::Raw => SessionAction::Ignore,
        FrameKind::Close | FrameKind::Failed => SessionAction::Stop,
    }
}

/// The session's answer to one frame: text goes to the book, a ping is
/// answered, a close or a transport error ends the session, and the rest is
/// ignored.
pub fn next_action(kind: FrameKind) -> (r: SessionAction)
    ensures
        r == action_for(kind),
{
    match kind {
        FrameKind::Text => SessionAction::Forward,
        FrameKind::Ping => SessionAction::ReplyPong,
        FrameKind::Binary | FrameKind::Pong | FrameKind::Raw => SessionAction::Ignore,
        FrameKind::Close | FrameKind::Failed => SessionAction::Stop,
    }
}

} // verus!
