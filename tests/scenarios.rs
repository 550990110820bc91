use objtalk::logger::LogMessage;
use objtalk::messages::{Error, Message};
use objtalk::objects::{Command, Object};
use objtalk::patterns::Pattern;
use objtalk::server::{Server, StorageChange};
use objtalk::ids::{ClientStreamIndex, Id, StreamId};
use serde_json::Value;

fn json(text: &str) -> Value {
    serde_json::from_str(text).unwrap()
}

fn create_server() -> Server {
    Server::new(Vec::new(), json(r#"{"version":"test"}"#))
}

#[test]
fn live_add_and_change() {
    let mut server = create_server();
    let a = server.client_connect();
    let mut b = server.client_connect();
    server.set("livingroom/temperature", json(r#"{"t":20.3}"#), &a).unwrap();
    let (qid, snapshot) = server.query(&Pattern::compile("+/temperature").unwrap(), false, &b).unwrap();
    assert_eq!(snapshot.len(), 1);
    assert_eq!(snapshot[0].value, json(r#"{"t":20.3}"#));
    server.set("livingroom/temperature", json(r#"{"t":20.4}"#), &a).unwrap();
    match b.inbox_try_next().unwrap().unwrap() {
        Message::QueryChange { query_id, object } => {
            assert_eq!(query_id, qid);
            assert_eq!(object.value, json(r#"{"t":20.4}"#));
        },
        _ => panic!("expected a change"),
    }
    server.set("bedroom/temperature", json(r#"{"t":19}"#), &a).unwrap();
    match b.inbox_try_next().unwrap().unwrap() {
        Message::QueryAdd { query_id, object } => {
            assert_eq!(query_id, qid);
            assert_eq!(object.name, "bedroom/temperature");
        },
        _ => panic!("expected an add"),
    }
    assert!(b.inbox_try_next().is_err());
}

#[test]
fn remove_then_set_again() {
    let mut server = create_server();
    let a = server.client_connect();
    let mut b = server.client_connect();
    server.set("foo", json(r#"{"bar":1}"#), &a).unwrap();
    let (qid, _) = server.query(&Pattern::compile("*").unwrap(), false, &b).unwrap();
    assert_eq!(server.remove("foo", &a), Ok(true));
    match b.inbox_try_next().unwrap().unwrap() {
        Message::QueryRemove { query_id, object } => {
            assert_eq!(query_id, qid);
            assert_eq!(object.value, json(r#"{"bar":1}"#));
        },
        _ => panic!("expected a remove"),
    }
    server.set("foo", json(r#"{"bar":2}"#), &a).unwrap();
    assert!(matches!(b.inbox_try_next().unwrap().unwrap(), Message::QueryAdd { .. }));
}

#[test]
fn invocation_round_trip() {
    let mut server = create_server();
    let mut p = server.client_connect();
    let mut c = server.client_connect();
    server.set("lamp", json(r#"{"on":false}"#), &p).unwrap();
    server.query(&Pattern::compile("lamp").unwrap(), true, &p).unwrap();
    server.invoke("lamp", "setState", json(r#"{"on":true}"#), json("1"), &c).unwrap();
    let invocation_id = match p.inbox_try_next().unwrap().unwrap() {
        Message::QueryInvocation { invocation_id, .. } => invocation_id,
        _ => panic!("expected a call"),
    };
    assert!(p.inbox_try_next().is_err());
    server.invoke_result(invocation_id, json(r#"{"success":true}"#), &p).unwrap();
    match c.inbox_try_next().unwrap().unwrap() {
        Message::InvocationResult { request_id, result } => {
            assert_eq!(request_id, json("1"));
            assert_eq!(result, Ok(json(r#"{"success":true}"#)));
        },
        _ => panic!("expected a result"),
    }
    // answered once: a second answer finds no call
    assert_eq!(server.invoke_result(invocation_id, json("null"), &p), Err(Error::InvocationNotFound));
    assert!(c.inbox_try_next().is_err());
}

#[test]
fn invocation_orphaned_by_disconnect() {
    let mut server = create_server();
    let mut p = server.client_connect();
    let mut c = server.client_connect();
    server.set("lamp", json(r#"{"on":false}"#), &p).unwrap();
    server.query(&Pattern::compile("lamp").unwrap(), true, &p).unwrap();
    server.invoke("lamp", "setState", json(r#"{"on":true}"#), json("1"), &c).unwrap();
    assert!(matches!(p.inbox_try_next().unwrap().unwrap(), Message::QueryInvocation { .. }));
    server.client_disconnect(p);
    match c.inbox_try_next().unwrap().unwrap() {
        Message::InvocationResult { request_id, result } => {
            assert_eq!(request_id, json("1"));
            assert_eq!(result, Err(Error::ObjectNotInvocable));
            assert_eq!(Error::ObjectNotInvocable.as_str(), "not invocable");
        },
        _ => panic!("expected a failure"),
    }
    assert!(c.inbox_try_next().is_err());
}

#[test]
fn disconnect_command_runs() {
    let mut server = create_server();
    let d = server.client_connect();
    let mut o = server.client_connect();
    server.set("lamp", json(r#"{"online":true}"#), &d).unwrap();
    server
        .set_disconnect_commands(vec![Command::SetObject { name: "lamp".to_string(), value: json(r#"{"online":false}"#) }], &d)
        .unwrap();
    server.query(&Pattern::compile("lamp").unwrap(), false, &o).unwrap();
    server.client_disconnect(d);
    match o.inbox_try_next().unwrap().unwrap() {
        Message::QueryChange { object, .. } => assert_eq!(object.value, json(r#"{"online":false}"#)),
        _ => panic!("expected a change"),
    }
}

#[test]
fn stream_relay_scenario() {
    let mut server = create_server();
    let mut c1 = server.client_connect();
    let mut c2 = server.client_connect();
    let (token, index) = server.create_stream(&c1).unwrap();
    assert_eq!(index, ClientStreamIndex(1));
    let index2 = server.open_stream(token, &c2).unwrap();
    assert_eq!(index2, ClientStreamIndex(1));
    assert!(matches!(c1.inbox_try_next().unwrap().unwrap(), Message::StreamOpen { index: ClientStreamIndex(1) }));
    server.stream_send(index, &[1, 2, 3, 4, 5, 6], &c1).unwrap();
    match c2.inbox_try_next().unwrap().unwrap() {
        Message::StreamData { index, data } => {
            assert_eq!(index, ClientStreamIndex(1));
            assert_eq!(data, vec![1, 0, 0, 0, 1, 2, 3, 4, 5, 6]);
        },
        _ => panic!("expected data"),
    }
    server.close_stream(index, &c1).unwrap();
    assert!(matches!(c1.inbox_try_next().unwrap().unwrap(), Message::StreamClosed { index: ClientStreamIndex(1) }));
    assert!(matches!(c2.inbox_try_next().unwrap().unwrap(), Message::StreamClosed { index: ClientStreamIndex(1) }));
    assert!(c1.inbox_try_next().is_err());
    assert!(c2.inbox_try_next().is_err());
    assert!(server.stream_state(token).is_none());
    assert_eq!(server.stream_count(), 0);
}

#[test]
fn stream_frame_has_four_index_bytes() {
    let mut server = create_server();
    let c1 = server.client_connect();
    let mut c2 = server.client_connect();
    for _ in 0..300 {
        server.create_stream(&c2).unwrap();
    }
    let (token, index) = server.create_stream(&c1).unwrap();
    let index2 = server.open_stream(token, &c2).unwrap();
    assert_eq!(index2, ClientStreamIndex(301));
    server.stream_send(index, &[], &c1).unwrap();
    match c2.inbox_try_next().unwrap().unwrap() {
        Message::StreamData { index, data } => {
            assert_eq!(index, ClientStreamIndex(301));
            assert_eq!(data, vec![45, 1, 0, 0]);
        },
        _ => panic!("expected data"),
    }
}

#[test]
fn set_then_get_single() {
    let mut server = create_server();
    let c = server.client_connect();
    server.set("n", json(r#"{"x":[1,2]}"#), &c).unwrap();
    let objects = server.get(&Pattern::compile("n").unwrap(), &c);
    assert_eq!(objects.len(), 1);
    assert_eq!(objects[0].name, "n");
    assert_eq!(objects[0].value, json(r#"{"x":[1,2]}"#));
}

#[test]
fn last_set_wins_and_time_does_not_go_back() {
    let mut server = create_server();
    let c = server.client_connect();
    let mut last = i64::MIN;
    for i in 0..20 {
        server.set("n", json(&i.to_string()), &c).unwrap();
        let o = server.object("n").unwrap();
        assert_eq!(o.value, json(&i.to_string()));
        assert!(o.last_modified >= last);
        last = o.last_modified;
    }
}

#[test]
fn remove_missing_is_quiet() {
    let mut server = create_server();
    let a = server.client_connect();
    let mut b = server.client_connect();
    server.query(&Pattern::compile("*").unwrap(), false, &b).unwrap();
    assert_eq!(server.remove("nothing", &a), Ok(false));
    assert_eq!(server.remove("nothing", &a), Ok(false));
    assert!(b.inbox_try_next().is_err());
    assert!(server.take_changes().is_empty());
}

#[test]
fn reserved_and_empty_names_rejected() {
    let mut server = create_server();
    let c = server.client_connect();
    assert_eq!(server.set("$system", json("1"), &c), Err(Error::InvalidObjectName));
    assert_eq!(server.set("", json("1"), &c), Err(Error::InvalidObjectName));
    assert_eq!(server.set("$other", json("1"), &c), Err(Error::InvalidObjectName));
    assert_eq!(server.patch("", json("{}"), &c), Err(Error::InvalidObjectName));
    assert_eq!(server.remove("$system", &c), Err(Error::InvalidObjectName));
    assert_eq!(server.emit("", "e", json("1"), &c), Err(Error::InvalidObjectName));
    assert_eq!(server.invoke("$system", "m", json("1"), json("1"), &c), Err(Error::InvalidObjectName));
    assert_eq!(Error::InvalidObjectName.as_str(), "invalid object name");
    assert!(server.object("$system").is_some());
}

#[test]
fn stream_numbers_are_per_client() {
    let mut server = create_server();
    let c1 = server.client_connect();
    let c2 = server.client_connect();
    assert_eq!(server.client_state(c1.id()).unwrap().next_stream_index, 1);
    let (_, i1) = server.create_stream(&c1).unwrap();
    let (_, i2) = server.create_stream(&c1).unwrap();
    let (_, j1) = server.create_stream(&c2).unwrap();
    assert_eq!((i1.0, i2.0, j1.0), (1, 2, 1));
    let (t, _) = server.create_stream(&c1).unwrap();
    server.close_stream(ClientStreamIndex(3), &c1).unwrap();
    assert!(server.stream_state(t).is_none());
    let (_, i4) = server.create_stream(&c1).unwrap();
    assert_eq!(i4.0, 4);
}

#[test]
fn error_variants() {
    let mut server = create_server();
    let c = server.client_connect();
    let gone = server.client_connect();
    let gone_id = gone.id();
    server.client_disconnect(gone);
    assert!(server.client_state(gone_id).is_none());
    let ghost_token = StreamId(Id { hi: 0, lo: 999 });

    assert_eq!(server.emit("nothing", "e", json("1"), &c), Err(Error::ObjectNotFound));
    assert_eq!(server.unsubscribe(Id { hi: 1, lo: 2 }, &c), Err(Error::QueryNotFound));
    assert_eq!(server.invoke_result(Id { hi: 1, lo: 2 }, json("1"), &c), Err(Error::InvocationNotFound));
    assert_eq!(server.open_stream(ghost_token, &c), Err(Error::StreamNotFound));
    assert_eq!(server.close_stream(ClientStreamIndex(7), &c), Err(Error::StreamNotFound));
    assert_eq!(server.stream_send(ClientStreamIndex(7), &[1], &c), Err(Error::StreamNotFound));

    let (token, index) = server.create_stream(&c).unwrap();
    assert_eq!(server.stream_send(index, &[1], &c), Err(Error::StreamNotOpen));
    let other = server.client_connect();
    server.open_stream(token, &other).unwrap();
    assert_eq!(server.open_stream(token, &other), Err(Error::StreamAlreadyOpen));

    server.set("plain", json("1"), &c).unwrap();
    assert_eq!(server.invoke("plain", "m", json("1"), json("1"), &c), Err(Error::ObjectNotInvocable));

    let ghost = server.client_connect();
    let ghost_id = ghost.id();
    server.client_disconnect(ghost);
    assert!(server.client_state(ghost_id).is_none());
    assert_eq!(Error::ClientNotFound.as_str(), "client not found");
    assert_eq!(Error::StreamAlreadyOpen.as_str(), "stream already open");
    assert_eq!(Error::StreamNotOpen.as_str(), "stream not open");
    assert_eq!(Error::StreamNotFound.as_str(), "stream not found");
    assert_eq!(Error::QueryNotFound.as_str(), "query not found");
    assert_eq!(Error::InvocationNotFound.as_str(), "invocation not found");
    assert_eq!(Error::CantMergeObjects.as_str(), "object values not mergeable");
    assert_eq!(Error::ObjectNotFound.as_str(), "object not found");
}

#[test]
fn client_not_found_after_disconnect() {
    let mut server = create_server();
    let c = server.client_connect();
    let c_again = server.client_connect();
    let id = c.id();
    server.client_disconnect(c);
    assert!(server.client_state(id).is_none());
    // a second handle of another client still works
    assert!(server.create_stream(&c_again).is_ok());
}

#[test]
fn patch_merges_top_level_only() {
    let mut server = create_server();
    let c = server.client_connect();
    server.set("o", json(r#"{"a":1,"b":{"x":1}}"#), &c).unwrap();
    server.patch("o", json(r#"{"b":{"y":2},"c":3}"#), &c).unwrap();
    assert_eq!(server.object("o").unwrap().value, json(r#"{"a":1,"b":{"y":2},"c":3}"#));
    server.patch("o", json(r#"{}"#), &c).unwrap();
    assert_eq!(server.object("o").unwrap().value, json(r#"{"a":1,"b":{"y":2},"c":3}"#));
}

#[test]
fn system_object_only_for_explicit_patterns() {
    let mut server = create_server();
    let c = server.client_connect();
    let mut watcher = server.client_connect();
    let mut all = server.client_connect();
    let (_, snap) = server.query(&Pattern::compile("*,$system").unwrap(), false, &watcher).unwrap();
    assert_eq!(snap.len(), 1);
    assert_eq!(snap[0].name, "$system");
    server.query(&Pattern::compile("*").unwrap(), false, &all).unwrap();
    server.emit_system("log", json(r#"{"type":"set"}"#));
    match watcher.inbox_try_next().unwrap().unwrap() {
        Message::QueryEvent { object, event, data, .. } => {
            assert_eq!(object, "$system");
            assert_eq!(event, "log");
            assert_eq!(data, json(r#"{"type":"set"}"#));
        },
        _ => panic!("expected an event"),
    }
    assert!(all.inbox_try_next().is_err());
    assert_eq!(server.emit("$system", "log", json("1"), &c), Err(Error::InvalidObjectName));
}

#[test]
fn log_and_changes_are_recorded() {
    let mut server = create_server();
    let c = server.client_connect();
    server.set("a", json("1"), &c).unwrap();
    server.set("a", json("2"), &c).unwrap();
    server.remove("a", &c).unwrap();
    let changes = server.take_changes();
    assert_eq!(changes.len(), 3);
    assert!(matches!(&changes[0], StorageChange::Add(o) if o.value == json("1")));
    assert!(matches!(&changes[1], StorageChange::Change(o) if o.value == json("2")));
    assert!(matches!(&changes[2], StorageChange::Delete(o) if o.name == "a"));
    assert!(server.take_changes().is_empty());
    let log = server.take_log();
    assert_eq!(log.len(), 4);
    assert!(matches!(&log[0], LogMessage::ClientConnect { client } if *client == c.id()));
    assert!(matches!(&log[1], LogMessage::SetObject { object, .. } if object == "a"));
    assert!(matches!(&log[3], LogMessage::RemoveObject { object, .. } if object == "a"));
    assert!(server.take_log().is_empty());
}

#[test]
fn stored_objects_are_loaded() {
    let stored = vec![
        Object { name: "a".to_string(), value: json("1"), last_modified: 5 },
        Object { name: "b".to_string(), value: json("2"), last_modified: 6 },
        Object { name: "a".to_string(), value: json("3"), last_modified: 7 },
    ];
    let mut server = Server::new(stored, json(r#"{"version":"v"}"#));
    assert_eq!(server.object("a").unwrap().value, json("3"));
    assert_eq!(server.object("b").unwrap().last_modified, 6);
    assert_eq!(server.object("$system").unwrap().value, json(r#"{"version":"v"}"#));
    let c = server.client_connect();
    assert_eq!(server.get(&Pattern::compile("*").unwrap(), &c).len(), 2);
}

#[test]
fn first_provider_gets_the_call() {
    let mut server = create_server();
    let mut p1 = server.client_connect();
    let mut p2 = server.client_connect();
    let c = server.client_connect();
    server.set("lamp", json("1"), &c).unwrap();
    server.query(&Pattern::compile("lamp").unwrap(), false, &p1).unwrap();
    server.query(&Pattern::compile("lamp").unwrap(), true, &p2).unwrap();
    server.query(&Pattern::compile("*").unwrap(), true, &p1).unwrap();
    server.invoke("lamp", "m", json("1"), json("7"), &c).unwrap();
    assert!(matches!(p1.inbox_try_next().unwrap().unwrap(), Message::QueryInvocation { .. }));
    assert!(p1.inbox_try_next().is_err());
    assert!(p2.inbox_try_next().is_err());
}

#[test]
fn events_reach_only_queries_holding_the_object() {
    let mut server = create_server();
    let c = server.client_connect();
    let mut a = server.client_connect();
    let mut b = server.client_connect();
    server.set("x/1", json("1"), &c).unwrap();
    server.query(&Pattern::compile("x/+").unwrap(), false, &a).unwrap();
    server.query(&Pattern::compile("y/+").unwrap(), false, &b).unwrap();
    server.emit("x/1", "ping", json("null"), &c).unwrap();
    assert!(matches!(a.inbox_try_next().unwrap().unwrap(), Message::QueryEvent { .. }));
    assert!(b.inbox_try_next().is_err());
}

#[test]
fn disconnect_closes_self_opened_stream_once() {
    let mut server = create_server();
    let c = server.client_connect();
    let (token, _) = server.create_stream(&c).unwrap();
    server.open_stream(token, &c).unwrap();
    server.client_disconnect(c);
    assert_eq!(server.stream_count(), 0);
}
