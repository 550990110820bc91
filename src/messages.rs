//! What the broker delivers to a client's inbox, and the errors of its operations.
use crate::ids::{ClientStreamIndex, Id};
use crate::objects::Object;
use vstd::prelude::*;

verus! {

#[derive(Clone, Copy, Debug, PartialEq, Eq, Structural)]
pub enum Error {
    InvalidObjectName,
    ObjectNotFound,
    CantMergeObjects,
    QueryNotFound,
    ClientNotFound,
    ObjectNotInvocable,
    InvocationNotFound,
    StreamNotFound,
    StreamAlreadyOpen,
    StreamNotOpen,
}

/// The text that stands in a response frame for an error.
pub open spec fn error_text(e: Error) -> Seq<char> {
    match e {
        Error::InvalidObjectName => "invalid object name"@,
        Error::ObjectNotFound => "object not found"@,
        Error::CantMergeObjects => "object values not mergeable"@,
        Error::QueryNotFound => "query not found"@,
        Error::ClientNotFound => "client not found"@,
        Error::ObjectNotInvocable => "not invocable"@,
        Error::InvocationNotFound => "invocation not found"@,
        Error::StreamNotFound => "stream not found"@,
        Error::StreamAlreadyOpen => "stream already open"@,
        Error::StreamNotOpen => "stream not open"@,
    }
}

impl Error {
    /// The text that stands in a response frame for this error.
    pub fn as_str(&self) -> (r: &'static str)
        ensures
            r@ == error_text(*self),
    {
        match self {
            Error::InvalidObjectName => "invalid object name",
            Error::ObjectNotFound => "object not found",
            Error::CantMergeObjects => "object values not mergeable",
            Error::QueryNotFound => "query not found",
            Error::ClientNotFound => "client not found",
            Error::ObjectNotInvocable => "not invocable",
            Error::InvocationNotFound => "invocation not found",
            Error::StreamNotFound => "stream not found",
            Error::StreamAlreadyOpen => "stream already open",
            Error::StreamNotOpen => "stream not open",
        }
    }
}

#[derive(Debug)]
#[allow(inconsistent_fields)]
pub enum Message {
    QueryAdd { query_id: Id, object: Object },
    QueryChange { query_id: Id, object: Object },
    QueryRemove { query_id: Id, object: Object },
    QueryEvent { query_id: Id, object: String, event: String, data: serde_json::Value },
    QueryInvocation {
        query_id: Id,
        invocation_id: Id,
        object: String,
        method: String,
        args: serde_json::Value,
    },
    InvocationResult { request_id: serde_json::Value, result: Result<serde_json::Value, Error> },
    StreamOpen { index: ClientStreamIndex },
    StreamClosed { index: ClientStreamIndex },
    StreamData { index: ClientStreamIndex, data: Vec<u8> },
}

/// `futures::channel::mpsc::UnboundedSender`, the sending end of an inbox.
#[verifier::external_type_specification]
#[verifier::external_body]
#[verifier::reject_recursive_types(T)]
pub struct ExUnboundedSender<T>(futures::channel::mpsc::UnboundedSender<T>);

/// `futures::channel::mpsc::UnboundedReceiver`, the end a client reads its inbox from.
#[verifier::external_type_specification]
#[verifier::external_body]
#[verifier::reject_recursive_types(T)]
pub struct ExUnboundedReceiver<T>(futures::channel::mpsc::UnboundedReceiver<T>);

/// `futures::channel::mpsc::TryRecvError`: nothing is waiting in the inbox.
#[verifier::external_type_specification]
#[verifier::external_body]
pub struct ExTryRecvError(futures::channel::mpsc::TryRecvError);

/// Relies on `futures::channel::mpsc::unbounded`: a fresh channel, its two ends.
#[verifier::external_body]
fn channel() -> (r: (
    futures::channel::mpsc::UnboundedSender<Message>,
    futures::channel::mpsc::UnboundedReceiver<Message>,
)) {
    futures::channel::mpsc::unbounded()
}

/// Relies on `UnboundedSender::unbounded_send`, which never blocks; a message
/// to a receiver that is gone is dropped.
#[verifier::external_body]
fn channel_send(tx: &futures::channel::mpsc::UnboundedSender<Message>, msg: Message) {
    let _ = tx.unbounded_send(msg);
}

/// The sending end of a client's inbox, with the record of everything sent through it.
pub struct Inbox {
    tx: futures::channel::mpsc::UnboundedSender<Message>,
    sent: Ghost<Seq<Message>>,
}

impl View for Inbox {
    type V = Seq<Message>;

    closed spec fn view(&self) -> Seq<Message> {
        self.sent@
    }
}

impl Inbox {
    /// A new inbox with nothing sent, and the receiving end that a client reads from.
    pub fn open() -> (r: (Inbox, futures::channel::mpsc::UnboundedReceiver<Message>))
        ensures
            r.0@ == Seq::<Message>::empty(),
    {
        let (tx, rx) = channel();
        (Inbox { tx, sent: Ghost(Seq::empty()) }, rx)
    }

    /// Sends `msg`; the client sees it after everything sent before.
    pub fn push(&mut self, msg: Message)
        ensures
            final(self)@ == old(self)@.push(msg),
    {
        let ghost m = msg;
        channel_send(&self.tx, msg);
        self.sent = Ghost(self.sent@.push(m));
    }
}

/// A connected client's handle: its identifier and the receiving end of its inbox.
pub struct Client {
    id: Id,
    inbox_rx: futures::channel::mpsc::UnboundedReceiver<Message>,
}

impl Client {
    pub closed spec fn spec_id(&self) -> Id {
        self.id
    }

    pub(crate) fn new(id: Id, inbox_rx: futures::channel::mpsc::UnboundedReceiver<Message>) -> (r: Client)
        ensures
            r.spec_id() == id,
    {
        Client { id, inbox_rx }
    }

    pub fn id(&self) -> (r: Id)
        ensures
            r == self.spec_id(),
    {
        self.id
    }

    /// The next message waiting in the inbox: `Ok(Some(..))`, or an error while
    /// none is waiting, or `Ok(None)` once the inbox is closed. Relies on
    /// `UnboundedReceiver::try_next`, which leaves the handle's identifier alone.
    #[verifier::external_body]
    #[allow(deprecated)]
    pub fn inbox_try_next(&mut self) -> (r: Result<Option<Message>, futures::channel::mpsc::TryRecvError>)
        ensures
            final(self).spec_id() == old(self).spec_id(),
    {
        self.inbox_rx.try_next()
    }

    /// The receiving end of the inbox, for a transport that waits on it.
    pub fn receiver(&mut self) -> &mut futures::channel::mpsc::UnboundedReceiver<Message> {
        &mut self.inbox_rx
    }
}

} // verus!
