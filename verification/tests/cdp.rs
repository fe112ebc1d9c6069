use mcat_core::cdp::{
    chrome_args, command_reply_step, debugger_address, document_complete, endpoint_body_step,
    endpoint_step, find_page_socket_url, is_load_event, load_event_step, message_reply_step,
    screenshot_bytes, targets_url, CdpMessage, EndpointStep, LoadStep, ReplyStep,
    ScreenshotError, SocketEvent, TargetInfo, MAX_ENDPOINT_ATTEMPTS,
};

fn text(t: &str) -> SocketEvent {
    SocketEvent::Text(t.to_string())
}

fn reply_with(data: Option<&str>, ready: Option<&str>) -> CdpMessage {
    CdpMessage {
        id: Some(1),
        method: None,
        error: None,
        data: data.map(String::from),
        ready_state: ready.map(String::from),
        result: "null".to_string(),
    }
}

#[test]
fn browser_arguments() {
    let args = chrome_args(9222, "file:///tmp/x.html");
    assert_eq!(args.len(), 10);
    assert_eq!(args[0], "--headless=new");
    assert_eq!(args[1], "--remote-debugging-port=9222");
    assert_eq!(args[8], "--no-sandbox");
    assert_eq!(args[9], "file:///tmp/x.html");
}

#[test]
fn addresses() {
    assert_eq!(debugger_address(80), "127.0.0.1:80");
    assert_eq!(targets_url(65535), "http://127.0.0.1:65535/json");
}

#[test]
fn first_page_target_wins() {
    let t = |k: Option<&str>, u: Option<&str>| TargetInfo {
        kind: k.map(|s| s.to_string()),
        websocket_url: u.map(|s| s.to_string()),
    };
    let targets = vec![
        t(Some("worker"), Some("ws://w")),
        t(Some("page"), Some("ws://p1")),
        t(Some("page"), Some("ws://p2")),
    ];
    assert_eq!(find_page_socket_url(&targets), Some("ws://p1".to_string()));
    let targets = vec![t(Some("page"), None), t(Some("page"), Some("ws://p2"))];
    assert_eq!(find_page_socket_url(&targets), None);
    assert_eq!(find_page_socket_url(&vec![t(None, Some("ws://x"))]), None);
}

#[test]
fn endpoint_search_gives_up_after_the_last_attempt() {
    assert!(matches!(endpoint_step(1, None), EndpointStep::Retry));
    assert!(matches!(endpoint_step(MAX_ENDPOINT_ATTEMPTS - 1, None), EndpointStep::Retry));
    match endpoint_step(MAX_ENDPOINT_ATTEMPTS, None) {
        EndpointStep::GiveUp(m) => assert_eq!(m, "Failed to get websocket for headless chrome"),
        _ => panic!("expected to give up"),
    }
    match endpoint_step(MAX_ENDPOINT_ATTEMPTS, Some("ws://p".to_string())) {
        EndpointStep::Found(u) => assert_eq!(u, "ws://p"),
        _ => panic!("expected the address"),
    }
}

#[test]
fn endpoint_from_target_list_body() {
    let body = r#"[{"type":"worker","webSocketDebuggerUrl":"ws://w"},
                   {"type":"page","webSocketDebuggerUrl":"ws://p1"}]"#;
    match endpoint_body_step(1, body) {
        EndpointStep::Found(u) => assert_eq!(u, "ws://p1"),
        _ => panic!("expected the address"),
    }
    assert!(matches!(endpoint_body_step(1, "{}"), EndpointStep::Retry));
    assert!(matches!(endpoint_body_step(2, "[]"), EndpointStep::Retry));
    assert!(matches!(endpoint_body_step(MAX_ENDPOINT_ATTEMPTS, "[]"), EndpointStep::GiveUp(_)));
    match endpoint_body_step(1, "not json") {
        EndpointStep::Failed(m) => assert!(!m.is_empty()),
        _ => panic!("expected a parse failure"),
    }
}

#[test]
fn command_replies() {
    match command_reply_step(3, text(r#"{"id":3,"result":{"data":"aGk="}}"#)) {
        ReplyStep::Reply(m) => {
            assert_eq!(m.id, Some(3));
            assert_eq!(m.data.as_deref(), Some("aGk="));
            assert_eq!(m.result, r#"{"data":"aGk="}"#);
        }
        _ => panic!("expected the reply"),
    }
    assert!(matches!(command_reply_step(3, text(r#"{"id":4,"result":{}}"#)), ReplyStep::Wait));
    assert!(matches!(command_reply_step(3, text(r#"{"method":"Page.x"}"#)), ReplyStep::Wait));
    assert!(matches!(command_reply_step(3, text(r#"{"id":"3"}"#)), ReplyStep::Wait));
    assert!(matches!(command_reply_step(3, SocketEvent::NotText), ReplyStep::Wait));
    match command_reply_step(3, text(r#"{"id":3,"error":{"code":-1}}"#)) {
        ReplyStep::Fail(m) => assert_eq!(m, "Chrome error: {\"code\":-1}"),
        _ => panic!("expected a failure"),
    }
    match command_reply_step(3, SocketEvent::Closed) {
        ReplyStep::Fail(m) => assert_eq!(m, "WebSocket connection closed unexpectedly"),
        _ => panic!("expected a failure"),
    }
    match command_reply_step(3, text("{bad json")) {
        ReplyStep::Fail(m) => assert!(!m.is_empty() && !m.starts_with("Chrome")),
        _ => panic!("expected a failure"),
    }
    match command_reply_step(3, SocketEvent::Failed("reset".to_string())) {
        ReplyStep::Fail(m) => assert_eq!(m, "reset"),
        _ => panic!("expected a failure"),
    }
}

#[test]
fn message_replies() {
    let mut m = reply_with(None, None);
    m.id = Some(7);
    assert!(matches!(message_reply_step(8, reply_with(None, None)), ReplyStep::Wait));
    assert!(matches!(message_reply_step(7, m), ReplyStep::Reply(_)));
}

#[test]
fn load_events() {
    assert!(document_complete(&reply_with(None, Some("complete"))));
    assert!(!document_complete(&reply_with(None, Some("loading"))));
    assert!(!document_complete(&reply_with(None, None)));
    match command_reply_step(100, text(r#"{"id":100,"result":{"result":{"type":"string","value":"complete"}}}"#)) {
        ReplyStep::Reply(m) => assert!(document_complete(&m)),
        _ => panic!("expected the reply"),
    }
    assert!(matches!(load_event_step(text(r#"{"method":"Page.loadEventFired","params":{}}"#)), LoadStep::Loaded));
    assert!(matches!(load_event_step(text(r#"{"id":1,"method":"Page.frameNavigated"}"#)), LoadStep::Wait));
    assert!(matches!(load_event_step(text("garbage")), LoadStep::Wait));
    assert!(matches!(load_event_step(SocketEvent::NotText), LoadStep::Wait));
    let mut m = reply_with(None, None);
    m.method = Some("Page.loadEventFired".to_string());
    assert!(is_load_event(&m));
    match load_event_step(SocketEvent::Closed) {
        LoadStep::Fail(m) => assert_eq!(m, "WebSocket closed before loadEventFired"),
        _ => panic!("expected a failure"),
    }
}

#[test]
fn screenshot_decoding() {
    assert_eq!(screenshot_bytes(&reply_with(Some("aGk="), None)).ok(), Some(b"hi".to_vec()));
    assert!(matches!(screenshot_bytes(&reply_with(None, None)), Err(ScreenshotError::MissingData)));
    assert!(matches!(
        screenshot_bytes(&reply_with(Some("*"), None)),
        Err(ScreenshotError::InvalidBase64(_))
    ));
}

#[test]
fn reply_without_result_carries_null() {
    match command_reply_step(5, text(r#"{"id":5}"#)) {
        ReplyStep::Reply(m) => assert_eq!(m.result, "null"),
        _ => panic!("expected the reply"),
    }
}
