use objtalk::messages::{Error, Message};
use objtalk::objects::Command;
use objtalk::patterns::Pattern;
use objtalk::server::Server;
use serde_json::Value;

fn json(text: &str) -> Value {
    serde_json::from_str(text).unwrap()
}

fn create_server() -> Server {
    Server::new(Vec::new(), json(r#"{"version":"test"}"#))
}

#[test]
fn test_set_insert() {
    let mut server = create_server();
    let client = server.client_connect();

    server.set("foo", json(r#"{"bar":true}"#), &client).unwrap();

    let object = server.object("foo");
    assert!(object.is_some());
    let object = object.unwrap();
    assert_eq!(object.name, "foo");
    assert_eq!(object.value, json(r#"{"bar":true}"#));
}

#[test]
fn test_set_update() {
    let mut server = create_server();
    let client = server.client_connect();

    server.set("foo", json(r#"{"bar":true}"#), &client).unwrap();
    server.set("foo", json(r#"{"bar":false}"#), &client).unwrap();

    assert_eq!(server.object("foo").unwrap().value, json(r#"{"bar":false}"#));
}

#[test]
fn test_set_invalid_name() {
    let mut server = create_server();
    let client = server.client_connect();

    let result = server.set("$system", json(r#"{"bar":true}"#), &client);
    assert_eq!(result, Err(Error::InvalidObjectName));
}

#[test]
fn test_patch_invalid_name() {
    let mut server = create_server();
    let client = server.client_connect();

    let result = server.patch("$system", json(r#"{"bar":true}"#), &client);
    assert_eq!(result, Err(Error::InvalidObjectName));
}

#[test]
fn test_patch_insert() {
    let mut server = create_server();
    let client = server.client_connect();

    server.patch("foo", json(r#"{"bar":true}"#), &client).unwrap();

    let object = server.object("foo");
    assert!(object.is_some());
    let object = object.unwrap();
    assert_eq!(object.name, "foo");
    assert_eq!(object.value, json(r#"{"bar":true}"#));
}

#[test]
fn test_patch_insert_non_object() {
    let mut server = create_server();
    let client = server.client_connect();

    let result = server.patch("foo", json("42"), &client);
    assert_eq!(result, Err(Error::CantMergeObjects));
}

#[test]
fn test_patch_update_non_object() {
    let mut server = create_server();
    let client = server.client_connect();

    server.set("foo", json("42"), &client).unwrap();

    let result = server.patch("foo", json(r#"{"baz":true}"#), &client);
    assert_eq!(result, Err(Error::CantMergeObjects));
}

#[test]
fn test_patch_update_with_non_object() {
    let mut server = create_server();
    let client = server.client_connect();

    server.set("foo", json(r#"{"bar":true}"#), &client).unwrap();

    let result = server.patch("foo", json("42"), &client);
    assert_eq!(result, Err(Error::CantMergeObjects));
}

#[test]
fn test_patch_update() {
    let mut server = create_server();
    let client = server.client_connect();

    server.set("foo", json(r#"{"bar":true}"#), &client).unwrap();
    server.patch("foo", json(r#"{"baz":true}"#), &client).unwrap();

    let object = server.object("foo");
    assert!(object.is_some());
    let object = object.unwrap();
    assert_eq!(object.name, "foo");
    assert_eq!(object.value, json(r#"{"bar":true,"baz":true}"#));
}

#[test]
fn test_patch_update_non_deep() {
    let mut server = create_server();
    let client = server.client_connect();

    server.set("foo", json(r#"{"on":true,"color":{"hue":100,"saturation":100}}"#), &client).unwrap();
    server.patch("foo", json(r#"{"color":{"temp":50}}"#), &client).unwrap();

    let object = server.object("foo");
    assert!(object.is_some());
    let object = object.unwrap();
    assert_eq!(object.name, "foo");
    assert_eq!(object.value, json(r#"{"on":true,"color":{"temp":50}}"#));
}

#[test]
fn test_get() {
    let mut server = create_server();
    let client = server.client_connect();

    server.set("livingroom/temperature", json(r#"{"temp":20.3}"#), &client).unwrap();
    server.set("livingroom/humidity", json(r#"{"humid":40}"#), &client).unwrap();
    server.set("bedroom/temperature", json(r#"{"temp":19}"#), &client).unwrap();

    let result = server.get(&Pattern::compile("$system").unwrap(), &client);
    assert_eq!(result.len(), 1);

    let result = server.get(&Pattern::compile("*").unwrap(), &client);
    assert_eq!(result.len(), 3);

    let result = server.get(&Pattern::compile("*,$system").unwrap(), &client);
    assert_eq!(result.len(), 4);

    let result = server.get(&Pattern::compile("+/temperature,+/humidity").unwrap(), &client);
    assert_eq!(result.len(), 3);

    let result = server.get(&Pattern::compile("livingroom/+").unwrap(), &client);
    assert_eq!(result.len(), 2);

    let result = server.get(&Pattern::compile("+/humidity").unwrap(), &client);
    assert_eq!(result.len(), 1);
}

#[test]
fn test_query() {
    let mut server = create_server();
    let client1 = server.client_connect();
    let mut client2 = server.client_connect();

    server.set("livingroom/temperature", json(r#"{"temp":20.3}"#), &client1).unwrap();

    let (query_id, objects) = server.query(&Pattern::compile("+/temperature").unwrap(), false, &client2).unwrap();

    assert_eq!(objects.len(), 1);
    assert_eq!(objects[0].name, "livingroom/temperature");
    assert_eq!(objects[0].value, json(r#"{"temp":20.3}"#));

    server.set("livingroom/temperature", json(r#"{"temp":20.4}"#), &client1).unwrap();
    server.set("livingroom/temperature", json(r#"{"temp":20.5}"#), &client1).unwrap();
    server.set("bedroom/temperature", json(r#"{"temp":19.0}"#), &client1).unwrap();
    server.set("bedroom/temperature", json(r#"{"temp":19.1}"#), &client1).unwrap();

    let msg = client2.inbox_try_next().unwrap().unwrap();
    if let Message::QueryChange { query_id: msg_query_id, object } = msg {
        assert_eq!(msg_query_id, query_id);
        assert_eq!(object.name, "livingroom/temperature");
        assert_eq!(object.value, json(r#"{"temp":20.4}"#));
    } else {
        assert!(false);
    }

    let msg = client2.inbox_try_next().unwrap().unwrap();
    if let Message::QueryChange { query_id: msg_query_id, object } = msg {
        assert_eq!(msg_query_id, query_id);
        assert_eq!(object.name, "livingroom/temperature");
        assert_eq!(object.value, json(r#"{"temp":20.5}"#));
    } else {
        assert!(false);
    }

    let msg = client2.inbox_try_next().unwrap().unwrap();
    if let Message::QueryAdd { query_id: msg_query_id, object } = msg {
        assert_eq!(msg_query_id, query_id);
        assert_eq!(object.name, "bedroom/temperature");
        assert_eq!(object.value, json(r#"{"temp":19.0}"#));
    } else {
        assert!(false);
    }

    let msg = client2.inbox_try_next().unwrap().unwrap();
    if let Message::QueryChange { query_id: msg_query_id, object } = msg {
        assert_eq!(msg_query_id, query_id);
        assert_eq!(object.name, "bedroom/temperature");
        assert_eq!(object.value, json(r#"{"temp":19.1}"#));
    } else {
        assert!(false);
    }

    assert!(client2.inbox_try_next().is_err());
}

#[test]
fn test_unsubscribe() {
    let mut server = create_server();
    let client1 = server.client_connect();
    let mut client2 = server.client_connect();

    server.set("livingroom/temperature", json(r#"{"temp":20.3}"#), &client1).unwrap();

    let (query_id, _) = server.query(&Pattern::compile("+/temperature").unwrap(), false, &client2).unwrap();

    server.set("livingroom/temperature", json(r#"{"temp":20.4}"#), &client1).unwrap();

    let msg = client2.inbox_try_next().unwrap().unwrap();
    if let Message::QueryChange { query_id: msg_query_id, object } = msg {
        assert_eq!(msg_query_id, query_id);
        assert_eq!(object.name, "livingroom/temperature");
        assert_eq!(object.value, json(r#"{"temp":20.4}"#));
    } else {
        assert!(false);
    }

    server.unsubscribe(query_id, &client2).unwrap();

    server.set("livingroom/temperature", json(r#"{"temp":20.5}"#), &client1).unwrap();

    assert!(client2.inbox_try_next().is_err());
}

#[test]
fn test_remove_non_existing() {
    let mut server = create_server();
    let client = server.client_connect();

    let existed = server.remove("foo", &client).unwrap();
    assert!(!existed);
}

#[test]
fn test_remove_existing() {
    let mut server = create_server();
    let client = server.client_connect();

    server.set("foo", json(r#"{"bar":1}"#), &client).unwrap();

    let existed = server.remove("foo", &client).unwrap();
    assert!(existed);
}

#[test]
fn test_remove_query() {
    let mut server = create_server();
    let client = server.client_connect();

    server.set("foo", json(r#"{"bar":1}"#), &client).unwrap();

    let mut client = server.client_connect();

    let (query_id, _) = server.query(&Pattern::compile("*").unwrap(), false, &client).unwrap();

    server.remove("foo", &client).unwrap();

    let msg = client.inbox_try_next().unwrap().unwrap();
    if let Message::QueryRemove { query_id: msg_query_id, object } = msg {
        assert_eq!(msg_query_id, query_id);
        assert_eq!(object.name, "foo");
        assert_eq!(object.value, json(r#"{"bar":1}"#));
    } else {
        assert!(false);
    }

    server.set("foo", json(r#"{"bar":1}"#), &client).unwrap();

    let msg = client.inbox_try_next().unwrap().unwrap();
    if let Message::QueryAdd { query_id: msg_query_id, object } = msg {
        assert_eq!(msg_query_id, query_id);
        assert_eq!(object.name, "foo");
        assert_eq!(object.value, json(r#"{"bar":1}"#));
    } else {
        assert!(false);
    }

    assert!(client.inbox_try_next().is_err());
}

#[test]
fn test_emit_event() {
    let mut server = create_server();
    let client = server.client_connect();

    server.set("gamepad", json(r#"{"buttons":["a","b"]}"#), &client).unwrap();

    let mut client = server.client_connect();

    let (query_id, _) = server.query(&Pattern::compile("*").unwrap(), false, &client).unwrap();

    server.emit("gamepad", "buttonpress", json(r#"{"button":"a"}"#), &client).unwrap();

    let msg = client.inbox_try_next().unwrap().unwrap();
    if let Message::QueryEvent { query_id: msg_query_id, object, event, data } = msg {
        assert_eq!(msg_query_id, query_id);
        assert_eq!(object, "gamepad");
        assert_eq!(event, "buttonpress");
        assert_eq!(data, json(r#"{"button":"a"}"#));
    } else {
        assert!(false);
    }

    assert!(client.inbox_try_next().is_err());
}

#[test]
fn test_emit_event_doesnt_exist() {
    let mut server = create_server();
    let client = server.client_connect();

    let result = server.emit("gamepad", "buttonpress", json(r#"{"button":"a"}"#), &client);

    assert_eq!(result, Err(Error::ObjectNotFound));
}

#[test]
fn test_invoke_doesnt_exist() {
    let mut server = create_server();
    let client = server.client_connect();

    let result = server.invoke("lamp", "setState", json(r#"{"on":true}"#), json("1"), &client);

    assert_eq!(result, Err(Error::ObjectNotFound));
}

#[test]
fn test_invoke_not_invokable() {
    let mut server = create_server();
    let client = server.client_connect();

    server.set("lamp", json(r#"{"on":false}"#), &client).unwrap();

    let result = server.invoke("lamp", "setState", json(r#"{"on":true}"#), json("1"), &client);

    assert_eq!(result, Err(Error::ObjectNotInvocable));
}

#[test]
fn test_invoke() {
    let mut server = create_server();
    let mut provider = server.client_connect();
    let mut consumer = server.client_connect();

    server.set("lamp", json(r#"{"on":false}"#), &provider).unwrap();
    let (query_id, _) = server.query(&Pattern::compile("lamp").unwrap(), true, &provider).unwrap();

    let result = server.invoke("lamp", "setState", json(r#"{"on":true}"#), json("1"), &consumer);
    assert_eq!(result, Ok(()));

    let msg = provider.inbox_try_next().unwrap().unwrap();

    let invocation_id;

    if let Message::QueryInvocation { query_id: msg_query_id, invocation_id: msg_invocation_id, object, method, args } = msg {
        assert_eq!(msg_query_id, query_id);
        assert_eq!(object, "lamp");
        assert_eq!(method, "setState");
        assert_eq!(args, json(r#"{"on":true}"#));
        invocation_id = msg_invocation_id;
    } else {
        assert!(false);
        return;
    }

    server.invoke_result(invocation_id, json(r#"{"success":true}"#), &provider).unwrap();

    let msg = consumer.inbox_try_next().unwrap().unwrap();

    if let Message::InvocationResult { request_id, result } = msg {
        assert_eq!(request_id, json("1"));
        assert_eq!(result, Ok(json(r#"{"success":true}"#)));
    } else {
        assert!(false);
    }
}

#[test]
fn test_invoke_client_disconnect() {
    let mut server = create_server();
    let mut provider = server.client_connect();
    let mut consumer = server.client_connect();

    server.set("lamp", json(r#"{"on":false}"#), &provider).unwrap();
    let (query_id, _) = server.query(&Pattern::compile("lamp").unwrap(), true, &provider).unwrap();

    let result = server.invoke("lamp", "setState", json(r#"{"on":true}"#), json("1"), &consumer);
    assert_eq!(result, Ok(()));

    let msg = provider.inbox_try_next().unwrap().unwrap();

    if let Message::QueryInvocation { query_id: msg_query_id, invocation_id: _invocation_id, object, method, args } = msg {
        assert_eq!(msg_query_id, query_id);
        assert_eq!(object, "lamp");
        assert_eq!(method, "setState");
        assert_eq!(args, json(r#"{"on":true}"#));
    } else {
        assert!(false);
        return;
    }

    // disconnect before providing an invocation result
    server.client_disconnect(provider);

    let msg = consumer.inbox_try_next().unwrap().unwrap();

    if let Message::InvocationResult { request_id, result } = msg {
        assert_eq!(request_id, json("1"));
        assert_eq!(result, Err(Error::ObjectNotInvocable));
    } else {
        assert!(false);
    }
}

#[test]
fn test_invoke_unsubscribe() {
    let mut server = create_server();
    let mut provider = server.client_connect();
    let mut consumer = server.client_connect();

    server.set("lamp", json(r#"{"on":false}"#), &provider).unwrap();
    let (query_id, _) = server.query(&Pattern::compile("lamp").unwrap(), true, &provider).unwrap();

    let result = server.invoke("lamp", "setState", json(r#"{"on":true}"#), json("1"), &consumer);
    assert_eq!(result, Ok(()));

    let msg = provider.inbox_try_next().unwrap().unwrap();

    if let Message::QueryInvocation { query_id: msg_query_id, invocation_id: _invocation_id, object, method, args } = msg {
        assert_eq!(msg_query_id, query_id);
        assert_eq!(object, "lamp");
        assert_eq!(method, "setState");
        assert_eq!(args, json(r#"{"on":true}"#));
    } else {
        assert!(false);
        return;
    }

    // unsubscribe before providing an invocation result
    server.unsubscribe(query_id, &provider).unwrap();

    let msg = consumer.inbox_try_next().unwrap().unwrap();

    if let Message::InvocationResult { request_id, result } = msg {
        assert_eq!(request_id, json("1"));
        assert_eq!(result, Err(Error::ObjectNotInvocable));
    } else {
        assert!(false);
    }
}

#[test]
fn test_disconnect_command_set() {
    let mut server = create_server();
    let mut observer = server.client_connect();
    let device = server.client_connect();

    server.set("lamp", json(r#"{"online":true}"#), &device).unwrap();
    server
        .set_disconnect_commands(
            vec![Command::SetObject { name: "lamp".to_string(), value: json(r#"{"online":false}"#) }],
            &device,
        )
        .unwrap();

    let (query_id, _) = server.query(&Pattern::compile("lamp").unwrap(), true, &observer).unwrap();

    server.client_disconnect(device);

    let msg = observer.inbox_try_next().unwrap().unwrap();

    if let Message::QueryChange { query_id: msg_query_id, object } = msg {
        assert_eq!(msg_query_id, query_id);
        assert_eq!(object.name, "lamp");
        assert_eq!(object.value, json(r#"{"online":false}"#));
    } else {
        assert!(false);
    }

    assert!(observer.inbox_try_next().is_err());
}

#[test]
fn test_disconnect_command_patch() {
    let mut server = create_server();
    let mut observer = server.client_connect();
    let device = server.client_connect();

    server.patch("lamp", json(r#"{"online":true}"#), &device).unwrap();
    server
        .set_disconnect_commands(
            vec![Command::PatchObject { name: "lamp".to_string(), value: json(r#"{"online":false}"#) }],
            &device,
        )
        .unwrap();

    let (query_id, _) = server.query(&Pattern::compile("lamp").unwrap(), true, &observer).unwrap();

    server.client_disconnect(device);

    let msg = observer.inbox_try_next().unwrap().unwrap();

    if let Message::QueryChange { query_id: msg_query_id, object } = msg {
        assert_eq!(msg_query_id, query_id);
        assert_eq!(object.name, "lamp");
        assert_eq!(object.value, json(r#"{"online":false}"#));
    } else {
        assert!(false);
    }

    assert!(observer.inbox_try_next().is_err());
}

#[test]
fn test_disconnect_command_remove() {
    let mut server = create_server();
    let mut observer = server.client_connect();
    let device = server.client_connect();

    server.patch("client", json(r#"{"online":true}"#), &device).unwrap();
    server
        .set_disconnect_commands(vec![Command::RemoveObject { name: "client".to_string() }], &device)
        .unwrap();

    let (query_id, _) = server.query(&Pattern::compile("client").unwrap(), true, &observer).unwrap();

    server.client_disconnect(device);

    let msg = observer.inbox_try_next().unwrap().unwrap();

    if let Message::QueryRemove { query_id: msg_query_id, object } = msg {
        assert_eq!(msg_query_id, query_id);
        assert_eq!(object.name, "client");
    } else {
        assert!(false);
    }

    assert!(observer.inbox_try_next().is_err());
}

#[test]
fn test_disconnect_command_emit() {
    let mut server = create_server();
    let mut observer = server.client_connect();
    let device = server.client_connect();

    server.set("lamp", json(r#"{"on":false}"#), &device).unwrap();
    server
        .set_disconnect_commands(
            vec![Command::EmitEvent { object: "lamp".to_string(), event: "offline".to_string(), data: json("{}") }],
            &device,
        )
        .unwrap();

    let (query_id, _) = server.query(&Pattern::compile("lamp").unwrap(), true, &observer).unwrap();

    server.client_disconnect(device);

    let msg = observer.inbox_try_next().unwrap().unwrap();

    if let Message::QueryEvent { query_id: msg_query_id, object, event, data } = msg {
        assert_eq!(msg_query_id, query_id);
        assert_eq!(object, "lamp");
        assert_eq!(event, "offline");
        assert_eq!(data, json("{}"));
    } else {
        assert!(false);
    }

    assert!(observer.inbox_try_next().is_err());
}
