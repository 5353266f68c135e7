//! The protocol client against a mock server: handshake, definition
//! lookup in its three reply shapes, cancellation, and idempotent
//! shutdown.

use lsp_core::client::{LifecycleState, LspClient, LspError};
use lsp_core::framer::{encode_frame, FrameDecoder};
use lsp_core::json::{encode_json, obj_get, parse_message, Json};
use lsp_core::messages::{definition_location, RequestOutcome};
use lsp_core::servers::{Language, LanguageServer};

fn key(s: &str) -> Vec<u8> {
    s.as_bytes().to_vec()
}

/// A frame carrying the mock server's successful response to `id`.
fn result_frame(id: u64, result: Json) -> Vec<u8> {
    let msg = Json::Obj(vec![
        (key("jsonrpc"), Json::Str(b"2.0".to_vec())),
        (key("id"), Json::UInt(id)),
        (key("result"), result),
    ]);
    encode_frame(&encode_json(&msg))
}

/// A frame carrying the mock server's error response to `id`.
fn error_frame(id: u64, error: Json) -> Vec<u8> {
    let msg = Json::Obj(vec![
        (key("jsonrpc"), Json::Str(b"2.0".to_vec())),
        (key("id"), Json::UInt(id)),
        (key("error"), error),
    ]);
    encode_frame(&encode_json(&msg))
}

/// A location object as a server would send it.
fn location_json(uri: &str, line: u64, character: u64) -> Json {
    let pos = |l: u64, c: u64| {
        Json::Obj(vec![(key("line"), Json::UInt(l)), (key("character"), Json::UInt(c))])
    };
    Json::Obj(vec![
        (key("uri"), Json::Str(uri.as_bytes().to_vec())),
        (
            key("range"),
            Json::Obj(vec![
                (key("start"), pos(line, character)),
                (key("end"), pos(line, character + 1)),
            ]),
        ),
    ])
}

/// The decoded body of the single frame in `frame`.
fn decode_single(frame: &[u8]) -> Json {
    let mut d = FrameDecoder::new();
    let (msgs, errs) = d.feed(frame);
    assert_eq!(errs, 0);
    assert_eq!(msgs.len(), 1);
    parse_message(&msgs[0]).expect("frame body parses")
}

/// Drives a fresh client through the whole handshake with the mock.
fn initialized_client() -> LspClient<u64> {
    let mut client: LspClient<u64> =
        LspClient::new(LanguageServer::for_language(Language::Rust));
    assert_eq!(client.state(), LifecycleState::Unstarted);
    client.start();
    assert_eq!(client.state(), LifecycleState::Starting);
    let (id, frame) = client.initialize_request(4242, &b"/work".to_vec(), 1);
    assert_eq!(id, 1);
    // the frame announces an initialize request carrying our root
    let msg = decode_single(&frame);
    if let Json::Obj(fields) = &msg {
        assert_eq!(obj_get(fields, b"method"), Some(&Json::Str(b"initialize".to_vec())));
        assert_eq!(obj_get(fields, b"id"), Some(&Json::UInt(1)));
        if let Some(Json::Obj(params)) = obj_get(fields, b"params") {
            assert_eq!(obj_get(params, b"rootPath"), Some(&Json::Str(b"/work".to_vec())));
            assert_eq!(
                obj_get(params, b"rootUri"),
                Some(&Json::Str(b"file:///work".to_vec()))
            );
            assert_eq!(obj_get(params, b"processId"), Some(&Json::UInt(4242)));
        } else {
            panic!("initialize params missing");
        }
    } else {
        panic!("initialize frame is not an object");
    }
    // the mock acknowledges the initialize request
    let reply = result_frame(id, Json::Obj(vec![(key("capabilities"), Json::Obj(vec![]))]));
    let (resolutions, errs) = client.on_chunk(&reply);
    assert_eq!(errs, 0);
    assert_eq!(resolutions.len(), 1);
    assert_eq!(resolutions[0].id, id);
    assert_eq!(resolutions[0].handle, 1);
    assert!(matches!(resolutions[0].outcome, RequestOutcome::Success(_)));
    let initialized = client.initialize_result(true);
    assert!(initialized.is_some());
    assert_eq!(client.state(), LifecycleState::Initialized);
    client
}

#[test]
fn handshake_reaches_initialized() {
    let client = initialized_client();
    assert_eq!(client.pending_count(), 0);
}

#[test]
fn spawn_failure_stops_the_client() {
    let mut client: LspClient<u64> =
        LspClient::new(LanguageServer::for_language(Language::Python));
    client.start();
    client.spawn_failed();
    assert_eq!(client.state(), LifecycleState::Stopped);
}

#[test]
fn initialize_failure_stops_the_client() {
    let mut client: LspClient<u64> =
        LspClient::new(LanguageServer::for_language(Language::Rust));
    client.start();
    let (_, _) = client.initialize_request(1, &b"/work".to_vec(), 1);
    assert!(client.initialize_result(false).is_none());
    assert_eq!(client.state(), LifecycleState::Stopped);
}

#[test]
fn request_outside_initialized_is_refused() {
    let mut client: LspClient<u64> =
        LspClient::new(LanguageServer::for_language(Language::Rust));
    let r = client.goto_definition(&b"/work/a.ext".to_vec(), 1, 2, 9);
    assert!(matches!(r, Err(LspError::NotInitialized)));
    let n = client.notify("initialized", Json::Obj(vec![]));
    assert!(matches!(n, Err(LspError::NotInitialized)));
}

fn lookup_reply_gives(reply_result: Json) -> Option<lsp_core::messages::Location> {
    let mut client = initialized_client();
    let (id, frame) = client
        .goto_definition(&b"/work/a.ext".to_vec(), 3, 5, 77)
        .expect("initialized client accepts requests");
    // the request frame carries the position asked about
    let msg = decode_single(&frame);
    if let Json::Obj(fields) = &msg {
        assert_eq!(
            obj_get(fields, b"method"),
            Some(&Json::Str(b"textDocument/definition".to_vec()))
        );
        if let Some(Json::Obj(params)) = obj_get(fields, b"params") {
            if let Some(Json::Obj(pos)) = obj_get(params, b"position") {
                assert_eq!(obj_get(pos, b"line"), Some(&Json::UInt(3)));
                assert_eq!(obj_get(pos, b"character"), Some(&Json::UInt(5)));
            } else {
                panic!("position missing");
            }
            if let Some(Json::Obj(doc)) = obj_get(params, b"textDocument") {
                assert_eq!(
                    obj_get(doc, b"uri"),
                    Some(&Json::Str(b"file:///work/a.ext".to_vec()))
                );
            } else {
                panic!("textDocument missing");
            }
        } else {
            panic!("params missing");
        }
    } else {
        panic!("request frame is not an object");
    }
    let (resolutions, errs) = client.on_chunk(&result_frame(id, reply_result));
    assert_eq!(errs, 0);
    assert_eq!(resolutions.len(), 1);
    assert_eq!(resolutions[0].handle, 77);
    match &resolutions[0].outcome {
        RequestOutcome::Success(result) => definition_location(result),
        other => panic!("unexpected outcome: {other:?}"),
    }
}

#[test]
fn lookup_single_location_reply() {
    let loc = lookup_reply_gives(location_json("file:///work/b.ext", 10, 4))
        .expect("a single location is taken");
    assert_eq!(loc.uri, b"file:///work/b.ext".to_vec());
    assert_eq!(loc.range.start.line, 10);
    assert_eq!(loc.range.start.character, 4);
    assert_eq!(loc.range.end.character, 5);
}

#[test]
fn lookup_array_reply_takes_first() {
    let loc = lookup_reply_gives(Json::Arr(vec![
        location_json("file:///work/first.ext", 1, 1),
        location_json("file:///work/second.ext", 2, 2),
    ]))
    .expect("the first of an array is taken");
    assert_eq!(loc.uri, b"file:///work/first.ext".to_vec());
}

#[test]
fn lookup_empty_array_reply_is_none() {
    assert!(lookup_reply_gives(Json::Arr(vec![])).is_none());
}

#[test]
fn lookup_null_reply_is_none() {
    assert!(lookup_reply_gives(Json::Null).is_none());
}

#[test]
fn remote_error_resolves_only_its_own_request() {
    let mut client = initialized_client();
    let (id_a, _) = client.goto_definition(&b"/work/a.ext".to_vec(), 1, 1, 1).unwrap();
    let (id_b, _) = client.goto_definition(&b"/work/b.ext".to_vec(), 2, 2, 2).unwrap();
    let err = Json::Obj(vec![
        (key("code"), Json::NegInt(32601)),
        (key("message"), Json::Str(b"method not found".to_vec())),
    ]);
    let (resolutions, _) = client.on_chunk(&error_frame(id_a, err));
    assert_eq!(resolutions.len(), 1);
    assert_eq!(resolutions[0].id, id_a);
    assert!(matches!(resolutions[0].outcome, RequestOutcome::RemoteError(_)));
    assert_eq!(client.pending_count(), 1);
    let (resolutions, _) = client.on_chunk(&result_frame(id_b, Json::Null));
    assert_eq!(resolutions.len(), 1);
    assert_eq!(resolutions[0].id, id_b);
}

#[test]
fn response_to_unknown_id_is_ignored() {
    let mut client = initialized_client();
    let (resolutions, errs) = client.on_chunk(&result_frame(999, Json::Null));
    assert_eq!(errs, 0);
    assert!(resolutions.is_empty());
}

#[test]
fn corrupt_frame_is_contained() {
    let mut client = initialized_client();
    let (id, _) = client.goto_definition(&b"/work/a.ext".to_vec(), 1, 1, 5).unwrap();
    let mut stream = b"Garbage-Line\r\n".to_vec();
    stream.extend(result_frame(id, Json::Null));
    let (resolutions, errs) = client.on_chunk(&stream);
    assert_eq!(errs, 1);
    assert_eq!(resolutions.len(), 1);
    assert_eq!(resolutions[0].id, id);
}

#[test]
fn shutdown_cancels_pending_and_is_idempotent() {
    let mut client = initialized_client();
    let (id, _) = client.goto_definition(&b"/work/a.ext".to_vec(), 1, 1, 42).unwrap();
    let plan = client.shutdown("client shut down");
    assert_eq!(client.state(), LifecycleState::Stopped);
    let (shutdown_frame, exit_frame) = plan.frames.expect("one transition produces the frames");
    let shutdown_msg = decode_single(&shutdown_frame);
    if let Json::Obj(fields) = &shutdown_msg {
        assert_eq!(obj_get(fields, b"method"), Some(&Json::Str(b"shutdown".to_vec())));
        assert!(obj_get(fields, b"id").is_some());
    } else {
        panic!("shutdown frame is not an object");
    }
    let exit_msg = decode_single(&exit_frame);
    if let Json::Obj(fields) = &exit_msg {
        assert_eq!(obj_get(fields, b"method"), Some(&Json::Str(b"exit".to_vec())));
        assert_eq!(obj_get(fields, b"id"), None);
    } else {
        panic!("exit frame is not an object");
    }
    assert_eq!(plan.cancelled.len(), 1);
    assert_eq!(plan.cancelled[0].id, id);
    assert_eq!(plan.cancelled[0].handle, 42);
    assert!(matches!(plan.cancelled[0].outcome, RequestOutcome::Cancelled(_)));
    assert_eq!(client.pending_count(), 0);
    // the second call is a no-op
    let again = client.shutdown("client shut down");
    assert!(again.frames.is_none());
    assert!(again.cancelled.is_empty());
    assert_eq!(client.state(), LifecycleState::Stopped);
}

#[test]
fn stream_closure_cancels_pending() {
    let mut client = initialized_client();
    let (id, _) = client.goto_definition(&b"/work/a.ext".to_vec(), 1, 1, 8).unwrap();
    let cancelled = client.stream_closed("stream closed");
    assert_eq!(cancelled.len(), 1);
    assert_eq!(cancelled[0].id, id);
    match &cancelled[0].outcome {
        RequestOutcome::Cancelled(reason) => assert_eq!(reason, "stream closed"),
        other => panic!("unexpected outcome: {other:?}"),
    }
    assert_eq!(client.state(), LifecycleState::Stopped);
}

#[test]
fn initialize_frame_has_the_exact_wire_form() {
    let mut client: LspClient<u64> = LspClient::new(LanguageServer::for_language(Language::Rust));
    client.start();
    let (_, frame) = client.initialize_request(4242, &b"/work".to_vec(), 1);
    let body = "{\"jsonrpc\":\"2.0\",\"id\":1,\"method\":\"initialize\",\"params\":\
                {\"processId\":4242,\"rootPath\":\"/work\",\"rootUri\":\"file:///work\",\
                \"capabilities\":{}}}"
        .replace("                ", "");
    let expected = format!("Content-Length: {}\r\n\r\n{}", body.len(), body);
    assert_eq!(frame, expected.into_bytes());
}

#[test]
fn response_split_across_chunks_still_resolves() {
    let mut client = initialized_client();
    let (id, _) = client.goto_definition(&b"/work/a.ext".to_vec(), 1, 1, 13).unwrap();
    let frame = result_frame(id, Json::Null);
    for cut in 0..=frame.len() {
        // feeding a prefix never resolves more than the whole does
        let mut c = initialized_client();
        let (id2, _) = c.goto_definition(&b"/work/a.ext".to_vec(), 1, 1, 13).unwrap();
        let frame2 = result_frame(id2, Json::Null);
        let (first, errs1) = c.on_chunk(&frame2[..cut]);
        let (second, errs2) = c.on_chunk(&frame2[cut..]);
        assert_eq!(errs1 + errs2, 0, "cut at {cut}");
        assert_eq!(first.len() + second.len(), 1, "cut at {cut}");
    }
    let (resolutions, _) = client.on_chunk(&frame);
    assert_eq!(resolutions.len(), 1);
    assert_eq!(resolutions[0].id, id);
}
