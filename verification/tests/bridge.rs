//! Tests of the connection: request framing and serialization through
//! serde_json, id correlation across arrival orders, envelope decoding, and
//! the fatal paths.

use prover_bridge::codec::frame;
use prover_bridge::conn::{exit_outcome, Connection, ExitOutcome, RecvStep};
use prover_bridge::envelope::{Message, ReadError};

fn json(text: &str) -> serde_json::Value {
    serde_json::from_str(text).expect("test JSON must parse")
}

/// Drive `recv` until it either decodes an envelope or fails; the buffer
/// already holds all bytes, so `NeedRead` means the test is wrong.
fn recv_envelope(conn: &mut Connection<u32>) -> prover_bridge::envelope::ResponseEnvelope {
    match conn.recv() {
        Ok(RecvStep::Envelope(env)) => env,
        Ok(RecvStep::NeedRead) => panic!("buffer should already hold a whole frame"),
        Err(_) => panic!("frame should decode"),
    }
}

#[test]
fn send_frames_a_wellformed_request() {
    let mut conn: Connection<u32> = Connection::new();
    let bytes = conn.send(b"ping", &json("{}"), 7);
    let text = String::from_utf8(bytes).expect("frame is UTF-8");
    let body = text
        .strip_prefix("Content-Length: 52\r\n\r\n")
        .expect("header must announce the exact byte length");
    assert_eq!(body.len(), 52);
    let v = json(body);
    assert_eq!(v["jsonrpc"], "2.0");
    assert_eq!(v["method"], "ping");
    assert_eq!(v["id"], 0);
    assert_eq!(v["params"], json("{}"));
}

#[test]
fn send_assigns_increasing_ids() {
    let mut conn: Connection<u32> = Connection::new();
    for expect in 0..3u64 {
        let bytes = conn.send(b"m", &json("null"), 1);
        let text = String::from_utf8(bytes).unwrap();
        let body = &text[text.find("\r\n\r\n").unwrap() + 4..];
        let v = json(body);
        assert_eq!(v["id"], expect);
    }
    assert_eq!(conn.pending_len(), 3);
}

#[test]
fn send_serializes_params_exactly() {
    let mut conn: Connection<u32> = Connection::new();
    let params = json("{\"xs\":[1,2,3],\"s\":\"t\\\"x\"}");
    let bytes = conn.send(b"run", &params, 1);
    let text = String::from_utf8(bytes).unwrap();
    let body = &text[text.find("\r\n\r\n").unwrap() + 4..];
    let v = json(body);
    assert_eq!(v["params"], params);
}

#[test]
fn method_names_are_escaped() {
    let mut conn: Connection<u32> = Connection::new();
    let bytes = conn.send(b"we\"ird\\na\nme", &json("null"), 1);
    let text = String::from_utf8(bytes).unwrap();
    let body = &text[text.find("\r\n\r\n").unwrap() + 4..];
    let v = json(body);
    assert_eq!(v["method"], "we\"ird\\na\nme");
}

#[test]
fn id_correlation_out_of_order() {
    let mut conn: Connection<u32> = Connection::new();
    conn.send(b"a", &json("null"), 10);
    conn.send(b"b", &json("null"), 20);
    conn.send(b"c", &json("null"), 30);
    assert_eq!(conn.pending_len(), 3);

    // Responses arrive in reverse order; each reaches its own caller.
    for (id, dest, result) in [(2u64, 30u32, "\"c\""), (0, 10, "\"a\""), (1, 20, "\"b\"")] {
        let body = format!("{{\"jsonrpc\":\"2.0\",\"id\":{},\"result\":{}}}", id, result);
        conn.feed(&frame(body.as_bytes()));
        let env = recv_envelope(&mut conn);
        let (got_dest, msg) = conn.deliver(env).expect("a pending call must be fulfilled");
        assert_eq!(got_dest, dest);
        match msg {
            Message::Result(v) => assert_eq!(v, json(result)),
            _ => panic!("result member must be delivered as a result"),
        }
    }
    assert_eq!(conn.pending_len(), 0);
}

#[test]
fn unknown_id_is_discarded() {
    let mut conn: Connection<u32> = Connection::new();
    conn.send(b"a", &json("null"), 10);
    let body = b"{\"jsonrpc\":\"2.0\",\"id\":99,\"result\":true}";
    conn.feed(&frame(body));
    let env = recv_envelope(&mut conn);
    assert!(conn.deliver(env).is_none());
    assert_eq!(conn.pending_len(), 1);
}

#[test]
fn duplicate_response_delivers_nothing() {
    let mut conn: Connection<u32> = Connection::new();
    conn.send(b"a", &json("null"), 10);
    let body = b"{\"jsonrpc\":\"2.0\",\"id\":0,\"result\":1}";
    conn.feed(&frame(body));
    let env = recv_envelope(&mut conn);
    assert!(conn.deliver(env).is_some());
    conn.feed(&frame(body));
    let env = recv_envelope(&mut conn);
    assert!(conn.deliver(env).is_none());
}

#[test]
fn response_without_id_is_discarded() {
    let mut conn: Connection<u32> = Connection::new();
    conn.send(b"a", &json("null"), 10);
    for body in [
        "{\"jsonrpc\":\"2.0\",\"result\":true}",
        "{\"jsonrpc\":\"2.0\",\"id\":null,\"result\":true}",
    ] {
        conn.feed(&frame(body.as_bytes()));
        let env = recv_envelope(&mut conn);
        assert!(env.id.is_none());
        assert!(conn.deliver(env).is_none());
        assert_eq!(conn.pending_len(), 1);
    }
}

#[test]
fn error_member_is_delivered_as_error() {
    let mut conn: Connection<u32> = Connection::new();
    conn.send(b"a", &json("null"), 10);
    let body = b"{\"jsonrpc\":\"2.0\",\"id\":0,\"error\":{\"code\":-1}}";
    conn.feed(&frame(body));
    let env = recv_envelope(&mut conn);
    let (_, msg) = conn.deliver(env).unwrap();
    match msg {
        Message::Error(v) => assert_eq!(v, json("{\"code\":-1}")),
        _ => panic!("error member must be delivered as an error"),
    }
}

#[test]
fn neither_member_is_delivered_as_null() {
    let mut conn: Connection<u32> = Connection::new();
    conn.send(b"a", &json("null"), 10);
    let body = b"{\"jsonrpc\":\"2.0\",\"id\":0}";
    conn.feed(&frame(body));
    let env = recv_envelope(&mut conn);
    let (_, msg) = conn.deliver(env).unwrap();
    assert!(matches!(msg, Message::Null));
}

#[test]
fn empty_buffer_asks_for_a_read() {
    let mut conn: Connection<u32> = Connection::new();
    match conn.recv() {
        Ok(RecvStep::NeedRead) => {}
        _ => panic!("an empty buffer must ask for a read"),
    }
}

#[test]
fn invalid_json_body_is_fatal() {
    let mut conn: Connection<u32> = Connection::new();
    conn.feed(&frame(b"{\"jsonrpc\":"));
    match conn.recv() {
        Err(ReadError::InvalidJson(_)) => {}
        _ => panic!("an undecodable body must be a fatal decode error"),
    }
}

#[test]
fn non_envelope_body_is_fatal() {
    let mut conn: Connection<u32> = Connection::new();
    for body in ["5", "{}", "{\"jsonrpc\":2.0}", "{\"jsonrpc\":\"2.0\",\"id\":-1}"] {
        conn.feed(&frame(body.as_bytes()));
        match conn.recv() {
            Err(ReadError::InvalidEnvelope) => {}
            _ => panic!("body {:?} must be rejected as a non-envelope", body),
        }
        // Nothing of the rejected frame lingers: the next recv wants a read.
        match conn.recv() {
            Ok(RecvStep::NeedRead) => {}
            _ => panic!("rejected frame must still be consumed"),
        }
    }
}

#[test]
fn end_to_end_ping_pong() {
    // A stub engine answers a ping with a correctly framed pong.
    let mut conn: Connection<u32> = Connection::new();
    let request = conn.send(b"ping", &json("{}"), 42);
    let text = String::from_utf8(request).unwrap();
    let body = json(&text[text.find("\r\n\r\n").unwrap() + 4..]);
    assert_eq!(body["method"], "ping");
    let id = body["id"].as_u64().expect("request carries an integer id");

    let reply = format!("{{\"jsonrpc\":\"2.0\",\"id\":{},\"result\":\"pong\"}}", id);
    conn.feed(&frame(reply.as_bytes()));
    let env = recv_envelope(&mut conn);
    let (dest, msg) = conn.deliver(env).expect("the ping must be answered");
    assert_eq!(dest, 42);
    match msg {
        Message::Result(v) => assert_eq!(v.as_str(), Some("pong")),
        _ => panic!("the pong must arrive as a result"),
    }
}

#[test]
fn abnormal_exit_is_fatal_and_call_stays_unanswered() {
    // The engine dies with a failure status before answering: the bridge
    // reports a fatal failure and the pending call's destination is never
    // fulfilled.
    let mut conn: Connection<u32> = Connection::new();
    conn.send(b"ping", &json("{}"), 7);
    assert!(matches!(exit_outcome(false), ExitOutcome::Fatal));
    assert_eq!(conn.pending_len(), 1);
}

#[test]
fn clean_exit_ends_the_connection_quietly() {
    assert!(matches!(exit_outcome(true), ExitOutcome::CleanShutdown));
}
