use objtalk::ids::ClientStreamIndex;
use objtalk::messages::Message;
use objtalk::rpc::{handle_request, Request, Response};
use objtalk::server::Server;
use serde_json::Value;

fn json(text: &str) -> Value {
    serde_json::from_str(text).unwrap()
}

#[test]
fn rpc_set_and_get() {
    let mut server = Server::new(Vec::new(), json("{}"));
    let c = server.client_connect();
    let r = handle_request(&mut server, Request::SetObject { name: "a/b".to_string(), value: json("1") }, json("1"), &c);
    assert!(matches!(r, Ok(Some(Response::Success))));
    let r = handle_request(&mut server, Request::SetObject { name: "$x".to_string(), value: json("1") }, json("2"), &c);
    assert_eq!(r.err().unwrap(), "invalid object name");
    match handle_request(&mut server, Request::Get { pattern: "a/+".to_string() }, json("3"), &c) {
        Ok(Some(Response::Get { objects })) => {
            assert_eq!(objects.len(), 1);
            assert_eq!(objects[0].value, json("1"));
        },
        _ => panic!("expected objects"),
    }
}

#[test]
fn rpc_remove_reports_existence() {
    let mut server = Server::new(Vec::new(), json("{}"));
    let c = server.client_connect();
    let r = handle_request(&mut server, Request::RemoveObject { name: "x".to_string() }, json("1"), &c);
    assert!(matches!(r, Ok(Some(Response::Remove { existed: false }))));
    handle_request(&mut server, Request::SetObject { name: "x".to_string(), value: json("1") }, json("2"), &c).unwrap();
    let r = handle_request(&mut server, Request::RemoveObject { name: "x".to_string() }, json("3"), &c);
    assert!(matches!(r, Ok(Some(Response::Remove { existed: true }))));
}

#[test]
fn rpc_invoke_has_no_direct_answer() {
    let mut server = Server::new(Vec::new(), json("{}"));
    let mut p = server.client_connect();
    let c = server.client_connect();
    handle_request(&mut server, Request::SetObject { name: "lamp".to_string(), value: json("{}") }, json("1"), &p).unwrap();
    let r = handle_request(&mut server, Request::Query { pattern: "lamp".to_string(), provide_rpc: true }, json("2"), &p);
    assert!(matches!(r, Ok(Some(Response::Query { .. }))));
    let r = handle_request(
        &mut server,
        Request::Invoke { object: "lamp".to_string(), method: "m".to_string(), args: json("null") },
        json("7"),
        &c,
    );
    assert!(matches!(r, Ok(None)));
    assert!(matches!(p.inbox_try_next().unwrap().unwrap(), Message::QueryInvocation { .. }));
    let r = handle_request(
        &mut server,
        Request::Invoke { object: "nothing".to_string(), method: "m".to_string(), args: json("null") },
        json("8"),
        &c,
    );
    assert_eq!(r.err().unwrap(), "object not found");
}

#[test]
fn rpc_bad_inputs() {
    let mut server = Server::new(Vec::new(), json("{}"));
    let c = server.client_connect();
    assert_eq!(handle_request(&mut server, Request::OpenStream { token: None }, json("1"), &c).err().unwrap(), "invalid stream token");
    assert_eq!(handle_request(&mut server, Request::Unsubscribe { query_id: None }, json("2"), &c).err().unwrap(), "query not found");
    assert_eq!(
        handle_request(&mut server, Request::CloseStream { index: ClientStreamIndex(5) }, json("3"), &c).err().unwrap(),
        "stream not found"
    );
    assert_eq!(
        handle_request(&mut server, Request::PatchObject { name: "p".to_string(), value: json("3") }, json("4"), &c).err().unwrap(),
        "object values not mergeable"
    );
}

#[test]
fn rpc_stream_numbers() {
    let mut server = Server::new(Vec::new(), json("{}"));
    let a = server.client_connect();
    let b = server.client_connect();
    let token = match handle_request(&mut server, Request::CreateStream, json("1"), &a) {
        Ok(Some(Response::CreateStream { token, index })) => {
            assert_eq!(index, ClientStreamIndex(1));
            token
        },
        _ => panic!("expected a stream"),
    };
    let r = handle_request(&mut server, Request::OpenStream { token: Some(token) }, json("2"), &b);
    assert!(matches!(r, Ok(Some(Response::OpenStream { index: ClientStreamIndex(1) }))));
    let r = handle_request(&mut server, Request::OpenStream { token: Some(token) }, json("3"), &b);
    assert_eq!(r.err().unwrap(), "stream already open");
}
