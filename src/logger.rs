//! The records the broker writes for each operation. A transport hands them
//! to its logger and emits them as `log` events on the reserved object.
use crate::ids::{ClientStreamIndex, Id, StreamId};
use vstd::prelude::*;

verus! {

#[derive(Debug)]
pub enum LogMessage {
    ClientConnect { client: Id },
    ClientDisconnect { client: Id },
    SetObject { object: String, value: serde_json::Value, client: Id },
    PatchObject { object: String, value: serde_json::Value, client: Id },
    Get { pattern: String, client: Id },
    Query { pattern: String, provide_rpc: bool, query: Id, client: Id },
    Unsubscribe { query: Id, client: Id },
    RemoveObject { object: String, client: Id },
    Emit { object: String, event: String, data: serde_json::Value, client: Id },
    Invoke { object: String, method: String, args: serde_json::Value, invocation_id: Id, client: Id },
    InvokeResult { invocation_id: Id, result: serde_json::Value, client: Id },
    StreamCreate { id: StreamId, index: ClientStreamIndex, client: Id },
    StreamOpen { id: StreamId, index: ClientStreamIndex, client: Id },
    StreamClose { id: StreamId, index: ClientStreamIndex, client: Id },
}

} // verus!
