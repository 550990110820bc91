use objtalk::messages::Message;
use objtalk::server::Server;
use serde_json::Value;

fn create_server() -> Server {
    let version: Value = serde_json::from_str(r#"{"version":"test"}"#).unwrap();
    Server::new(Vec::new(), version)
}

#[test]
fn test_create_stream() {
    let mut server = create_server();
    let client = server.client_connect();

    let (stream1_id, stream1_index) = server.create_stream(&client).unwrap();
    let (stream2_id, stream2_index) = server.create_stream(&client).unwrap();
    assert_eq!(stream1_index.0, 1);
    assert_eq!(stream2_index.0, 2);
    assert!(stream1_id != stream2_id);

    let client_state = server.client_state(client.id()).unwrap();
    assert_eq!(client_state.next_stream_index, 3);
    assert_eq!(client_state.stream_of(stream1_index).unwrap(), stream1_id);
    assert_eq!(client_state.stream_of(stream2_index).unwrap(), stream2_id);

    let stream1 = server.stream_state(stream1_id).unwrap();
    assert_eq!(stream1.id, stream1_id);
    assert_eq!(stream1.client_a.client_id, client.id());
    assert_eq!(stream1.client_a.stream_index, stream1_index);
    assert!(stream1.client_b.is_none());

    let stream2 = server.stream_state(stream2_id).unwrap();
    assert_eq!(stream2.id, stream2_id);
    assert_eq!(stream2.client_a.client_id, client.id());
    assert_eq!(stream2.client_a.stream_index, stream2_index);
    assert!(stream2.client_b.is_none());
}

#[test]
fn test_open_stream() {
    let mut server = create_server();
    let mut client1 = server.client_connect();
    let client2 = server.client_connect();

    let (stream_id, client1_stream_index) = server.create_stream(&client1).unwrap();
    let client2_stream_index = server.open_stream(stream_id, &client2).unwrap();

    assert_eq!(client1_stream_index.0, 1);
    assert_eq!(client2_stream_index.0, 1);

    let msg = client1.inbox_try_next().unwrap().unwrap();
    if let Message::StreamOpen { index } = msg {
        assert_eq!(index.0, 1);
    } else {
        assert!(false);
    }

    let client1_state = server.client_state(client1.id()).unwrap();
    assert_eq!(client1_state.next_stream_index, 2);
    assert_eq!(client1_state.stream_of(client1_stream_index).unwrap(), stream_id);

    let client2_state = server.client_state(client2.id()).unwrap();
    assert_eq!(client2_state.next_stream_index, 2);
    assert_eq!(client2_state.stream_of(client2_stream_index).unwrap(), stream_id);

    let stream = server.stream_state(stream_id).unwrap();
    assert_eq!(stream.id, stream_id);
    assert_eq!(stream.client_a.client_id, client1.id());
    assert_eq!(stream.client_a.stream_index, client1_stream_index);
    assert_eq!(stream.client_b.as_ref().unwrap().client_id, client2.id());
    assert_eq!(stream.client_b.as_ref().unwrap().stream_index, client2_stream_index);
}

#[test]
fn test_open_stream_self() {
    let mut server = create_server();
    let mut client = server.client_connect();

    let (stream_id, client1_stream_index) = server.create_stream(&client).unwrap();
    let client2_stream_index = server.open_stream(stream_id, &client).unwrap();

    assert_eq!(client1_stream_index.0, 1);
    assert_eq!(client2_stream_index.0, 2);

    let msg = client.inbox_try_next().unwrap().unwrap();
    if let Message::StreamOpen { index } = msg {
        assert_eq!(index.0, 1);
    } else {
        assert!(false);
    }

    let client_state = server.client_state(client.id()).unwrap();
    assert_eq!(client_state.next_stream_index, 3);
    assert_eq!(client_state.stream_of(client1_stream_index).unwrap(), stream_id);
    assert_eq!(client_state.stream_of(client2_stream_index).unwrap(), stream_id);

    let stream = server.stream_state(stream_id).unwrap();
    assert_eq!(stream.id, stream_id);
    assert_eq!(stream.client_a.client_id, client.id());
    assert_eq!(stream.client_a.stream_index, client1_stream_index);
    assert_eq!(stream.client_b.as_ref().unwrap().client_id, client.id());
    assert_eq!(stream.client_b.as_ref().unwrap().stream_index, client2_stream_index);
}

#[test]
fn test_stream_send_by_client1() {
    let mut server = create_server();
    let client1 = server.client_connect();
    let mut client2 = server.client_connect();

    let (stream_id, client1_stream_index) = server.create_stream(&client1).unwrap();
    let client2_stream_index = server.open_stream(stream_id, &client2).unwrap();

    server.stream_send(client1_stream_index, &[1, 2, 3, 4, 5, 6], &client1).unwrap();

    let msg = client2.inbox_try_next().unwrap().unwrap();
    if let Message::StreamData { index, data } = msg {
        assert_eq!(index.0, 1);
        assert_eq!(data, &[1, 0, 0, 0, 1, 2, 3, 4, 5, 6]);
    } else {
        assert!(false);
    }

    let client1_state = server.client_state(client1.id()).unwrap();
    assert_eq!(client1_state.next_stream_index, 2);
    assert_eq!(client1_state.stream_of(client1_stream_index).unwrap(), stream_id);

    let client2_state = server.client_state(client2.id()).unwrap();
    assert_eq!(client2_state.next_stream_index, 2);
    assert_eq!(client2_state.stream_of(client2_stream_index).unwrap(), stream_id);

    let stream = server.stream_state(stream_id).unwrap();
    assert_eq!(stream.id, stream_id);
    assert_eq!(stream.client_a.client_id, client1.id());
    assert_eq!(stream.client_a.stream_index, client1_stream_index);
    assert_eq!(stream.client_b.as_ref().unwrap().client_id, client2.id());
    assert_eq!(stream.client_b.as_ref().unwrap().stream_index, client2_stream_index);
}

#[test]
fn test_stream_send_by_client2() {
    let mut server = create_server();
    let mut client1 = server.client_connect();
    let client2 = server.client_connect();

    let (stream_id, client1_stream_index) = server.create_stream(&client1).unwrap();
    let client2_stream_index = server.open_stream(stream_id, &client2).unwrap();

    let msg = client1.inbox_try_next().unwrap().unwrap();
    if let Message::StreamOpen { index } = msg {
        assert_eq!(index.0, 1);
    } else {
        assert!(false);
    }

    server.stream_send(client2_stream_index, &[1, 2, 3, 4, 5, 6], &client2).unwrap();

    let msg = client1.inbox_try_next().unwrap().unwrap();
    if let Message::StreamData { index, data } = msg {
        assert_eq!(index.0, 1);
        assert_eq!(data, &[1, 0, 0, 0, 1, 2, 3, 4, 5, 6]);
    } else {
        assert!(false);
    }

    let client1_state = server.client_state(client1.id()).unwrap();
    assert_eq!(client1_state.next_stream_index, 2);
    assert_eq!(client1_state.stream_of(client1_stream_index).unwrap(), stream_id);

    let client2_state = server.client_state(client2.id()).unwrap();
    assert_eq!(client2_state.next_stream_index, 2);
    assert_eq!(client2_state.stream_of(client2_stream_index).unwrap(), stream_id);

    let stream = server.stream_state(stream_id).unwrap();
    assert_eq!(stream.id, stream_id);
    assert_eq!(stream.client_a.client_id, client1.id());
    assert_eq!(stream.client_a.stream_index, client1_stream_index);
    assert_eq!(stream.client_b.as_ref().unwrap().client_id, client2.id());
    assert_eq!(stream.client_b.as_ref().unwrap().stream_index, client2_stream_index);
}

#[test]
fn test_close_stream_by_client1() {
    let mut server = create_server();
    let mut client1 = server.client_connect();
    let mut client2 = server.client_connect();

    let _ = server.create_stream(&client1).unwrap(); // make sure that stream indices are different
    let (stream_id, client1_stream_index) = server.create_stream(&client1).unwrap();
    let client2_stream_index = server.open_stream(stream_id, &client2).unwrap();

    assert_eq!(client1_stream_index.0, 2);
    assert_eq!(client2_stream_index.0, 1);

    server.close_stream(client1_stream_index, &client1).unwrap();

    let msg = client1.inbox_try_next().unwrap().unwrap();
    if let Message::StreamOpen { index } = msg {
        assert_eq!(index.0, 2);
    } else {
        assert!(false);
    }

    let msg = client1.inbox_try_next().unwrap().unwrap();
    if let Message::StreamClosed { index } = msg {
        assert_eq!(index.0, 2);
    } else {
        assert!(false);
    }

    let msg = client2.inbox_try_next().unwrap().unwrap();
    if let Message::StreamClosed { index } = msg {
        assert_eq!(index.0, 1);
    } else {
        assert!(false);
    }

    let client1_state = server.client_state(client1.id()).unwrap();
    assert_eq!(client1_state.next_stream_index, 3);
    assert!(client1_state.stream_of(client1_stream_index).is_none());

    let client2_state = server.client_state(client2.id()).unwrap();
    assert_eq!(client2_state.next_stream_index, 2);
    assert!(client2_state.stream_of(client2_stream_index).is_none());

    assert_eq!(server.stream_count(), 1);
}

#[test]
fn test_close_stream_by_client2() {
    let mut server = create_server();
    let mut client1 = server.client_connect();
    let mut client2 = server.client_connect();

    let _ = server.create_stream(&client1).unwrap(); // make sure that stream indices are different
    let (stream_id, client1_stream_index) = server.create_stream(&client1).unwrap();
    let client2_stream_index = server.open_stream(stream_id, &client2).unwrap();

    assert_eq!(client1_stream_index.0, 2);
    assert_eq!(client2_stream_index.0, 1);

    let msg = client1.inbox_try_next().unwrap().unwrap();
    if let Message::StreamOpen { index } = msg {
        assert_eq!(index.0, 2);
    } else {
        assert!(false);
    }

    server.close_stream(client2_stream_index, &client2).unwrap();

    let msg = client1.inbox_try_next().unwrap().unwrap();
    if let Message::StreamClosed { index } = msg {
        assert_eq!(index.0, 2);
    } else {
        assert!(false);
    }

    let msg = client2.inbox_try_next().unwrap().unwrap();
    if let Message::StreamClosed { index } = msg {
        assert_eq!(index.0, 1);
    } else {
        assert!(false);
    }

    let client1_state = server.client_state(client1.id()).unwrap();
    assert_eq!(client1_state.next_stream_index, 3);
    assert!(client1_state.stream_of(client1_stream_index).is_none());

    let client2_state = server.client_state(client2.id()).unwrap();
    assert_eq!(client2_state.next_stream_index, 2);
    assert!(client2_state.stream_of(client2_stream_index).is_none());

    assert_eq!(server.stream_count(), 1);
}

#[test]
fn test_close_stream_by_client1_disconnect() {
    let mut server = create_server();
    let client1 = server.client_connect();
    let mut client2 = server.client_connect();

    let (stream_id, _) = server.create_stream(&client1).unwrap();
    let _ = server.open_stream(stream_id, &client2).unwrap();

    server.client_disconnect(client1);

    let msg = client2.inbox_try_next().unwrap().unwrap();
    if let Message::StreamClosed { index } = msg {
        assert_eq!(index.0, 1);
    } else {
        assert!(false);
    }

    let client2_state = server.client_state(client2.id()).unwrap();
    assert_eq!(client2_state.next_stream_index, 2);
    assert_eq!(client2_state.streams.len(), 0);

    assert_eq!(server.stream_count(), 0);
}

#[test]
fn test_close_stream_by_client2_disconnect() {
    let mut server = create_server();
    let mut client1 = server.client_connect();
    let client2 = server.client_connect();

    let (stream_id, _) = server.create_stream(&client1).unwrap();
    let _ = server.open_stream(stream_id, &client2).unwrap();

    let msg = client1.inbox_try_next().unwrap().unwrap();
    if let Message::StreamOpen { index } = msg {
        assert_eq!(index.0, 1);
    } else {
        assert!(false);
    }

    server.client_disconnect(client2);

    let msg = client1.inbox_try_next().unwrap().unwrap();
    if let Message::StreamClosed { index } = msg {
        assert_eq!(index.0, 1);
    } else {
        assert!(false);
    }

    let client1_state = server.client_state(client1.id()).unwrap();
    assert_eq!(client1_state.next_stream_index, 2);
    assert_eq!(client1_state.streams.len(), 0);

    assert_eq!(server.stream_count(), 0);
}
