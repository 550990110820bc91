//! The request protocol: what each request does to the server and what the
//! client is answered. A transport decodes the JSON frame into a `Request`
//! and encodes the `Response` or the error text.
use crate::ids::{ClientStreamIndex, Id, StreamId};
use crate::messages::{error_text, Client, Error};
use crate::objects::{valid_name, Command, Object};
use crate::patterns::{has_part, pattern_regex, regex_compiles, Pattern};
use crate::server::{
    failure_messages, first_invocation_with_id, first_query_with_id, lookup_index, routed_elsewhere, routed_through,
    same_but_inbox, snapshot, Server, StreamClient, StreamState,
};
use crate::text::system_name;
use vstd::prelude::*;

verus! {

/// A request, as the transport decoded it. An identifier that was not
/// well-formed text is `None`.
#[derive(Debug)]
pub enum Request {
    SetObject { name: String, value: serde_json::Value },
    PatchObject { name: String, value: serde_json::Value },
    Get { pattern: String },
    Query { pattern: String, provide_rpc: bool },
    Unsubscribe { query_id: Option<Id> },
    RemoveObject { name: String },
    EmitEvent { object: String, event: String, data: serde_json::Value },
    Invoke { object: String, method: String, args: serde_json::Value },
    InvokeResult { invocation_id: Option<Id>, result: serde_json::Value },
    SetDisconnectCommands { commands: Vec<Command> },
    CreateStream,
    OpenStream { token: Option<StreamId> },
    CloseStream { index: ClientStreamIndex },
}

/// The answer to a request that succeeded.
#[derive(Debug)]
pub enum Response {
    Success,
    Get { objects: Vec<Object> },
    Query { query_id: Id, objects: Vec<Object> },
    Remove { existed: bool },
    CreateStream { token: StreamId, index: ClientStreamIndex },
    OpenStream { index: ClientStreamIndex },
}

/// `p` is the pattern compiled from `text`.
pub open spec fn compiled_from(p: Pattern, text: Seq<char>) -> bool {
    &&& p.text() == text
    &&& p.source() == pattern_regex(text)
    &&& p.spec_includes_system() == has_part(text, system_name())
    &&& p.spec_multiple() == (has_part(text, seq!['*']) || has_part(text, seq!['+']))
}

/// `r` failed with the text `t`.
pub open spec fn fails_with(r: Result<Option<Response>, String>, t: Seq<char>) -> bool {
    r matches Err(e) && e@ == t
}

/// What a request does: the answer `r`, and how the server `new` follows
/// from `old`, for the request `req` of the client `cid` under `request_id`.
pub open spec fn request_outcome(
    old: Server,
    new: Server,
    req: Request,
    request_id: serde_json::Value,
    cid: Id,
    r: Result<Option<Response>, String>,
) -> bool {
    let p = old.client_pos(cid);
    match req {
        Request::SetObject { name, value } => if !valid_name(name@) {
            fails_with(r, error_text(Error::InvalidObjectName)) && new == old
        } else {
            &&& r matches Ok(Some(Response::Success))
            &&& new.after_upsert(old, name@)
            &&& new.store()[name@].value == value
            &&& new.log().drop_last() == old.log()
        },
        Request::PatchObject { name, value } => if !valid_name(name@) {
            fails_with(r, error_text(Error::InvalidObjectName)) && new == old
        } else if !old.patchable(name@, value) {
            fails_with(r, error_text(Error::CantMergeObjects)) && new == old
        } else {
            &&& r matches Ok(Some(Response::Success))
            &&& new.after_upsert(old, name@)
            &&& old.patched(name@, value, new.store()[name@].value)
            &&& new.log().drop_last() == old.log()
        },
        Request::Get { pattern } => if !regex_compiles(pattern_regex(pattern@)) {
            fails_with(r, "invalid pattern"@) && new == old
        } else {
            &&& r matches Ok(Some(Response::Get { objects })) && exists|pat: Pattern|
                #[trigger] compiled_from(pat, pattern@) && snapshot(objects@, old.store(), pat)
            &&& new.store() == old.store() && new.clients() == old.clients() && new.streams() == old.streams()
            &&& new.serial() == old.serial() && new.changes() == old.changes()
            &&& new.log().drop_last() == old.log()
        },
        Request::Query { pattern, provide_rpc } => if !regex_compiles(pattern_regex(pattern@)) {
            fails_with(r, "invalid pattern"@) && new == old
        } else if !old.has_client(cid) {
            fails_with(r, error_text(Error::ClientNotFound)) && new == old
        } else {
            &&& r matches Ok(Some(Response::Query { query_id, objects })) && {
                let c = old.clients()[p];
                let c2 = new.clients()[p];
                let q = c2.queries@.last();
                &&& query_id.lo == old.serial()
                &&& exists|pat: Pattern| #[trigger] compiled_from(pat, pattern@) && snapshot(objects@, old.store(), pat)
                    && forall|n: Seq<char>| #[trigger] q.pattern.accepts(n) == pat.accepts(n)
                &&& c2.queries@.drop_last() == c.queries@ && c2.queries@.len() == c.queries@.len() + 1
                &&& q.id == query_id && q.provide_rpc == provide_rpc
                &&& c2.id == c.id && c2.invocations == c.invocations && c2.inbox == c.inbox
                &&& c2.disconnect_commands == c.disconnect_commands && c2.streams == c.streams
                &&& c2.next_stream_index == c.next_stream_index
            }
            &&& new.serial() == old.serial() + 1
            &&& new.store() == old.store() && new.streams() == old.streams() && new.changes() == old.changes()
            &&& new.clients().len() == old.clients().len()
            &&& forall|i: int| 0 <= i < old.clients().len() && i != p ==> #[trigger] new.clients()[i] == old.clients()[i]
        },
        Request::Unsubscribe { query_id } => match query_id {
            None => fails_with(r, error_text(Error::QueryNotFound)) && new == old,
            Some(qid) => if !old.has_client(cid) {
                fails_with(r, error_text(Error::ClientNotFound)) && new == old
            } else if !(exists|k: int| first_query_with_id(old.clients()[p].queries@, qid, k)) {
                fails_with(r, error_text(Error::QueryNotFound)) && new == old
            } else {
                let c = old.clients()[p];
                let c2 = new.clients()[p];
                &&& r matches Ok(Some(Response::Success))
                &&& exists|k: int| #[trigger] first_query_with_id(c.queries@, qid, k) && c2.queries@ == c.queries@.remove(k)
                &&& c2.invocations@ == routed_elsewhere(c.invocations@, qid)
                &&& new.clients().len() == old.clients().len()
                &&& forall|i: int| 0 <= i < old.clients().len() && i != p ==> same_but_inbox(#[trigger] old.clients()[i], new.clients()[i])
                &&& forall|i: int| 0 <= i < old.clients().len() ==> #[trigger] new.clients()[i].inbox@
                    == old.clients()[i].inbox@ + failure_messages(routed_through(c.invocations@, qid), old.clients()[i].id)
                &&& new.store() == old.store() && new.streams() == old.streams() && new.serial() == old.serial()
            },
        },
        Request::RemoveObject { name } => if !valid_name(name@) {
            fails_with(r, error_text(Error::InvalidObjectName)) && new == old
        } else if !old.store().contains_key(name@) {
            r matches Ok(Some(Response::Remove { existed })) && !existed && new == old
        } else {
            &&& r matches Ok(Some(Response::Remove { existed })) && existed
            &&& new.after_remove(old, name@)
            &&& new.log().drop_last() == old.log()
        },
        Request::EmitEvent { object, event, data } => if !valid_name(object@) {
            fails_with(r, error_text(Error::InvalidObjectName)) && new == old
        } else if !old.store().contains_key(object@) {
            fails_with(r, error_text(Error::ObjectNotFound)) && new == old
        } else {
            &&& r matches Ok(Some(Response::Success))
            &&& new.after_event(old, object@, event@, data)
            &&& new.log().drop_last() == old.log()
        },
        Request::Invoke { object, method, args } => if !valid_name(object@) {
            fails_with(r, error_text(Error::InvalidObjectName)) && new == old
        } else if !old.store().contains_key(object@) {
            fails_with(r, error_text(Error::ObjectNotFound)) && new == old
        } else if !(exists|i: int| 0 <= i < old.clients().len() && crate::server::is_provider(#[trigger] old.clients()[i], object@)) {
            fails_with(r, error_text(Error::ObjectNotInvocable)) && new == old
        } else {
            &&& r == Ok::<Option<Response>, String>(None)
            &&& new.serial() == old.serial() + 1
            &&& new.store() == old.store() && new.streams() == old.streams() && new.changes() == old.changes()
            &&& new.after_invoke(old, object@, method@, args, request_id, cid)
            &&& new.log().drop_last() == old.log()
        },
        Request::InvokeResult { invocation_id, result } => match invocation_id {
            None => fails_with(r, error_text(Error::InvocationNotFound)) && new == old,
            Some(iid) => if !old.has_client(cid) {
                fails_with(r, error_text(Error::ClientNotFound)) && new == old
            } else if !(exists|k: int| first_invocation_with_id(old.clients()[p].invocations@, iid, k)) {
                fails_with(r, error_text(Error::InvocationNotFound)) && new == old
            } else {
                let c = old.clients()[p];
                let c2 = new.clients()[p];
                &&& r matches Ok(Some(Response::Success))
                &&& exists|k: int| {
                    let inv = c.invocations@[k];
                    &&& #[trigger] first_invocation_with_id(c.invocations@, iid, k)
                    &&& c2.invocations@ == c.invocations@.remove(k)
                    &&& forall|i: int| 0 <= i < old.clients().len() ==> #[trigger] new.clients()[i].inbox@
                        == old.clients()[i].inbox@ + if old.clients()[i].id == inv.client_id {
                            seq![crate::messages::Message::InvocationResult { request_id: inv.request_id, result: Ok(result) }]
                        } else {
                            Seq::<crate::messages::Message>::empty()
                        }
                }
                &&& new.store() == old.store() && new.streams() == old.streams() && new.serial() == old.serial()
            },
        },
        Request::SetDisconnectCommands { commands } => if !old.has_client(cid) {
            fails_with(r, error_text(Error::ClientNotFound)) && new == old
        } else {
            &&& r matches Ok(Some(Response::Success))
            &&& new.clients()[p].disconnect_commands == commands
            &&& new.clients().len() == old.clients().len()
            &&& forall|i: int| 0 <= i < old.clients().len() && i != p ==> #[trigger] new.clients()[i] == old.clients()[i]
            &&& new.store() == old.store() && new.streams() == old.streams() && new.serial() == old.serial()
        },
        Request::CreateStream => if !old.has_client(cid) {
            fails_with(r, error_text(Error::ClientNotFound)) && new == old
        } else {
            &&& r matches Ok(Some(Response::CreateStream { token, index })) && {
                &&& index.0 == old.clients()[p].next_stream_index
                &&& token.0.lo == old.serial()
                &&& new.streams() == old.streams().push(
                    StreamState { id: token, client_a: StreamClient { client_id: cid, stream_index: index }, client_b: None },
                )
                &&& new.clients()[p].streams@ == old.clients()[p].streams@.push((index, token))
            }
            &&& new.clients()[p].next_stream_index == old.clients()[p].next_stream_index + 1
            &&& new.store() == old.store() && new.serial() == old.serial() + 1
        },
        Request::OpenStream { token } => match token {
            None => fails_with(r, "invalid stream token"@) && new == old,
            Some(id) => if !old.has_client(cid) {
                fails_with(r, error_text(Error::ClientNotFound)) && new == old
            } else if !(exists|k: int| 0 <= k < old.streams().len() && #[trigger] old.streams()[k].id == id) {
                fails_with(r, error_text(Error::StreamNotFound)) && new == old
            } else if exists|k: int| 0 <= k < old.streams().len() && #[trigger] old.streams()[k].id == id && old.streams()[k].client_b is Some {
                fails_with(r, error_text(Error::StreamAlreadyOpen)) && new == old
            } else {
                &&& r matches Ok(Some(Response::OpenStream { index })) && index.0 == old.clients()[p].next_stream_index
                    && new.clients()[p].streams@ == old.clients()[p].streams@.push((index, id))
                &&& new.clients()[p].next_stream_index == old.clients()[p].next_stream_index + 1
                &&& new.store() == old.store() && new.serial() == old.serial()
            },
        },
        Request::CloseStream { index } => if !old.has_client(cid) {
            fails_with(r, error_text(Error::ClientNotFound)) && new == old
        } else {
            match lookup_index(old.clients()[p].streams@, index) {
                None => fails_with(r, error_text(Error::StreamNotFound)) && new == old,
                Some(id) => if exists|k: int| 0 <= k < old.streams().len() && #[trigger] old.streams()[k].id == id {
                    &&& r matches Ok(Some(Response::Success))
                    &&& exists|k: int| 0 <= k < old.streams().len() && #[trigger] old.streams()[k].id == id
                        && new.after_close(old, k)
                } else {
                    fails_with(r, error_text(Error::StreamNotFound)) && new == old
                },
            }
        },
    }
}

fn error_string(e: Error) -> (r: String)
    ensures
        r@ == error_text(e),
{
    e.as_str().to_owned()
}

/// Carries out `req` for `client`, whose request carried `request_id`: a
/// response to send, no response (a call, answered later through the
/// inbox), or the error text to send.
pub fn handle_request(srv: &mut Server, req: Request, request_id: serde_json::Value, client: &Client) -> (r: Result<
    Option<Response>,
    String,
>)
    requires
        old(srv).wf(),
        old(srv).ids_left(),
        old(srv).stream_numbers_left(client.spec_id()),
    ensures
        final(srv).wf(),
        request_outcome(*old(srv), *final(srv), req, request_id, client.spec_id(), r),
{
    match req {
        Request::SetObject { name, value } => match srv.set(name.as_str(), value, client) {
            Ok(()) => Ok(Some(Response::Success)),
            Err(e) => Err(error_string(e)),
        },
        Request::PatchObject { name, value } => match srv.patch(name.as_str(), value, client) {
            Ok(()) => Ok(Some(Response::Success)),
            Err(e) => Err(error_string(e)),
        },
        Request::Get { pattern } => match Pattern::compile(pattern.as_str()) {
            Ok(pat) => {
                assert(compiled_from(pat, pattern@));
                let objects = srv.get(&pat, client);
                Ok(Some(Response::Get { objects }))
            },
            Err(_) => Err("invalid pattern".to_owned()),
        },
        Request::Query { pattern, provide_rpc } => match Pattern::compile(pattern.as_str()) {
            Ok(pat) => {
                assert(compiled_from(pat, pattern@));
                match srv.query(&pat, provide_rpc, client) {
                    Ok((query_id, objects)) => Ok(Some(Response::Query { query_id, objects })),
                    Err(e) => Err(error_string(e)),
                }
            },
            Err(_) => Err("invalid pattern".to_owned()),
        },
        Request::Unsubscribe { query_id } => match query_id {
            None => Err(error_string(Error::QueryNotFound)),
            Some(qid) => match srv.unsubscribe(qid, client) {
                Ok(()) => Ok(Some(Response::Success)),
                Err(e) => Err(error_string(e)),
            },
        },
        Request::RemoveObject { name } => match srv.remove(name.as_str(), client) {
            Ok(existed) => Ok(Some(Response::Remove { existed })),
            Err(e) => Err(error_string(e)),
        },
        Request::EmitEvent { object, event, data } => match srv.emit(object.as_str(), event.as_str(), data, client) {
            Ok(()) => Ok(Some(Response::Success)),
            Err(e) => Err(error_string(e)),
        },
        Request::Invoke { object, method, args } => match srv.invoke(object.as_str(), method.as_str(), args, request_id, client) {
            Ok(()) => Ok(None),
            Err(e) => Err(error_string(e)),
        },
        Request::InvokeResult { invocation_id, result } => match invocation_id {
            None => Err(error_string(Error::InvocationNotFound)),
            Some(iid) => match srv.invoke_result(iid, result, client) {
                Ok(()) => Ok(Some(Response::Success)),
                Err(e) => Err(error_string(e)),
            },
        },
        Request::SetDisconnectCommands { commands } => match srv.set_disconnect_commands(commands, client) {
            Ok(()) => Ok(Some(Response::Success)),
            Err(e) => Err(error_string(e)),
        },
        Request::CreateStream => match srv.create_stream(client) {
            Ok((token, index)) => Ok(Some(Response::CreateStream { token, index })),
            Err(e) => Err(error_string(e)),
        },
        Request::OpenStream { token } => match token {
            None => Err("invalid stream token".to_owned()),
            Some(id) => match srv.open_stream(id, client) {
                Ok(index) => Ok(Some(Response::OpenStream { index })),
                Err(e) => Err(error_string(e)),
            },
        },
        Request::CloseStream { index } => match srv.close_stream(index, client) {
            Ok(()) => Ok(Some(Response::Success)),
            Err(e) => Err(error_string(e)),
        },
    }
}

} // verus!
