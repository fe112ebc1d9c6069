//! The decisions of a client that drives a headless Chromium over the DevTools protocol
//! to take a screenshot: how the browser is started, which target page to attach to,
//! which incoming message answers a command, when the page has loaded, and how the
//! screenshot is decoded. The I/O that carries them out is done by the caller.

use base64::Engine;
use crate::text::{append_chars, decimal, decimal_chars, string_from_chars, to_chars};
use vstd::prelude::*;

verus! {

/// How many times the list of targets is fetched before giving up.
pub const MAX_ENDPOINT_ATTEMPTS: u32 = 10;

/// The text form of a port number.
pub open spec fn port_text(port: u16) -> Seq<char> {
    decimal(port as nat)
}

/// `prefix`, the port in decimal, then `suffix`, as a `String`.
fn with_port(prefix: &str, port: u16, suffix: &str) -> (r: String)
    ensures
        r@ == prefix@ + port_text(port) + suffix@,
{
    let mut cs = to_chars(prefix);
    let digits = decimal_chars(port as u64);
    append_chars(&mut cs, digits.as_slice());
    append_chars(&mut cs, to_chars(suffix).as_slice());
    string_from_chars(cs.as_slice())
}

/// The command-line arguments that start the browser headless, listening for the
/// debugger on `port` and showing `uri`.
pub open spec fn chrome_arg_views(port: u16, uri: Seq<char>) -> Seq<Seq<char>> {
    seq![
        "--headless=new"@,
        "--remote-debugging-port="@ + port_text(port),
        "--disable-gpu"@,
        "--hide-scrollbars"@,
        "--force-color-profile=srgb"@,
        "--disable-dev-shm-usage"@,
        "--single-process"@,
        "--no-zygote"@,
        "--no-sandbox"@,
        uri,
    ]
}

/// The command-line arguments of the headless browser.
pub fn chrome_args(port: u16, uri: &str) -> (r: Vec<String>)
    ensures
        r@.map_values(|s: String| s@) == chrome_arg_views(port, uri@),
{
    let mut r: Vec<String> = Vec::new();
    r.push("--headless=new".to_owned());
    r.push(with_port("--remote-debugging-port=", port, ""));
    r.push("--disable-gpu".to_owned());
    r.push("--hide-scrollbars".to_owned());
    r.push("--force-color-profile=srgb".to_owned());
    r.push("--disable-dev-shm-usage".to_owned());
    r.push("--single-process".to_owned());
    r.push("--no-zygote".to_owned());
    r.push("--no-sandbox".to_owned());
    r.push(uri.to_owned());
    proof {
        reveal_strlit("");
    }
    assert(r@.map_values(|s: String| s@) =~= chrome_arg_views(port, uri@));
    r
}

/// The address at which the browser's debugger accepts connections.
pub fn debugger_address(port: u16) -> (r: String)
    ensures
        r@ == "127.0.0.1:"@ + port_text(port),
{
    proof {
        reveal_strlit("");
    }
    let r = with_port("127.0.0.1:", port, "");
    assert(r@ =~= "127.0.0.1:"@ + port_text(port));
    r
}

/// The address of the list of debugging targets.
pub fn targets_url(port: u16) -> (r: String)
    ensures
        r@ == "http://127.0.0.1:"@ + port_text(port) + "/json"@,
{
    with_port("http://127.0.0.1:", port, "/json")
}


/// A debugging target as the browser lists it: its `type` and its
/// `webSocketDebuggerUrl`, each when it is a string.
pub struct TargetInfo {
    pub kind: Option<String>,
    pub websocket_url: Option<String>,
}

/// The value of an optional string.
pub open spec fn opt_view(o: Option<String>) -> Option<Seq<char>> {
    match o {
        Some(s) => Some(s@),
        None => None,
    }
}

/// The value of a debugging target: its `type` and its `webSocketDebuggerUrl`.
pub open spec fn target_view(t: TargetInfo) -> (Option<Seq<char>>, Option<Seq<char>>) {
    (opt_view(t.kind), opt_view(t.websocket_url))
}

/// What `serde_json::from_str` makes of the body of the target list: `Err` with the
/// parser's message when the body is not JSON; `Ok(None)` when it is JSON but not an
/// array; otherwise, for each entry, its `type` and its `webSocketDebuggerUrl` when they
/// are strings. It depends on the body alone.
pub uninterp spec fn json_targets(body: Seq<char>) -> Result<
    Option<Seq<(Option<Seq<char>>, Option<Seq<char>>)>>,
    Seq<char>,
>;

/// Parses the body of the target list with `serde_json::from_str` and reads, with
/// `Value::as_array` and `Value::as_str`, the `type` and `webSocketDebuggerUrl` of each
/// entry; the result is named by `json_targets`.
#[verifier::external_body]
fn parse_targets(body: &str) -> (r: Result<Option<Vec<TargetInfo>>, String>)
    ensures
        match r {
            Ok(Some(ts)) => json_targets(body@) == Ok::<_, Seq<char>>(Some(
                targets_view(ts@),
            )),
            Ok(None) => json_targets(body@) == Ok::<
                Option<Seq<(Option<Seq<char>>, Option<Seq<char>>)>>,
                Seq<char>,
            >(None),
            Err(e) => json_targets(body@) == Err::<
                Option<Seq<(Option<Seq<char>>, Option<Seq<char>>)>>,
                Seq<char>,
            >(e@),
        },
{
    let v: serde_json::Value = serde_json::from_str(body).map_err(|e| e.to_string())?;
    Ok(v.as_array().map(|entries| entries.iter().map(|t| TargetInfo {
        kind: t["type"].as_str().map(String::from),
        websocket_url: t["webSocketDebuggerUrl"].as_str().map(String::from),
    }).collect()))
}

/// The debugger address of the first page among the values of targets.
pub open spec fn page_url_of(targets: Seq<(Option<Seq<char>>, Option<Seq<char>>)>) -> Option<
    Seq<char>,
>
    decreases targets.len(),
{
    if targets.len() == 0 {
        None
    } else if targets[0].0 == Some("page"@) {
        targets[0].1
    } else {
        page_url_of(targets.subrange(1, targets.len() as int))
    }
}

/// The values of a sequence of targets.
pub open spec fn targets_view(ts: Seq<TargetInfo>) -> Seq<(Option<Seq<char>>, Option<Seq<char>>)> {
    ts.map_values(|t: TargetInfo| target_view(t))
}

/// The debugger address of the first target of type `page`: none when there is no such
/// target, or when that target has no address.
pub fn find_page_socket_url(targets: &Vec<TargetInfo>) -> (r: Option<String>)
    ensures
        opt_view(r) == page_url_of(targets_view(targets@)),
{
    let ghost vs = targets_view(targets@);
    let page = "page".to_owned();
    let mut i: usize = 0;
    assert(vs.subrange(0, vs.len() as int) =~= vs);
    while i < targets.len()
        invariant
            i <= targets@.len(),
            vs == targets_view(targets@),
            page@ == "page"@,
            page_url_of(vs) == page_url_of(vs.subrange(i as int, vs.len() as int)),
        decreases targets@.len() - i,
    {
        let ghost rest = vs.subrange(i as int, vs.len() as int);
        assert(rest.subrange(1, rest.len() as int) =~= vs.subrange(i + 1, vs.len() as int));
        assert(rest[0] == target_view(targets@[i as int]));
        let t = &targets[i];
        let is_page = match &t.kind {
            Some(k) => *k == page,
            None => false,
        };
        if is_page {
            return match &t.websocket_url {
                Some(u) => Some(u.clone()),
                None => None,
            };
        }
        i = i + 1;
    }
    None
}

/// What to do after an attempt to find the page's debugger address.
pub enum EndpointStep {
    /// The address was found.
    Found(String),
    /// Wait a moment and fetch the list of targets again.
    Retry,
    /// Stop: no attempt found the address.
    GiveUp(String),
    /// Stop: the list of targets is not JSON, with the parser's message.
    Failed(String),
}

/// The decision after `attempts` fetches of the list of targets, the last of which
/// found `found`: take the address, try again, or give up once the attempts run out.
pub fn endpoint_step(attempts: u32, found: Option<String>) -> (r: EndpointStep)
    requires
        1 <= attempts <= MAX_ENDPOINT_ATTEMPTS,
    ensures
        match found {
            Some(url) => r matches EndpointStep::Found(u) && u@ == url@,
            None => if attempts < MAX_ENDPOINT_ATTEMPTS {
                r is Retry
            } else {
                r matches EndpointStep::GiveUp(m) && m@
                    == "Failed to get websocket for headless chrome"@
            },
        },
{
    match found {
        Some(url) => EndpointStep::Found(url),
        None => if attempts < MAX_ENDPOINT_ATTEMPTS {
            EndpointStep::Retry
        } else {
            EndpointStep::GiveUp("Failed to get websocket for headless chrome".to_owned())
        },
    }
}


/// The decision after the `attempts`-th fetch of the list of targets returned `body`:
/// a body that is not JSON stops the search; otherwise the first page's debugger address,
/// if any, is taken, and without one the search goes on until the attempts run out.
pub fn endpoint_body_step(attempts: u32, body: &str) -> (r: EndpointStep)
    requires
        1 <= attempts <= MAX_ENDPOINT_ATTEMPTS,
    ensures
        match json_targets(body@) {
            Err(e) => r matches EndpointStep::Failed(m) && m@ == e,
            Ok(targets) => {
                let found = match targets {
                    Some(ts) => page_url_of(ts),
                    None => None,
                };
                match found {
                    Some(url) => r matches EndpointStep::Found(u) && u@ == url,
                    None => if attempts < MAX_ENDPOINT_ATTEMPTS {
                        r is Retry
                    } else {
                        r matches EndpointStep::GiveUp(m) && m@
                            == "Failed to get websocket for headless chrome"@
                    },
                }
            },
        },
{
    match parse_targets(body) {
        Err(e) => EndpointStep::Failed(e),
        Ok(Some(targets)) => {
            endpoint_step(attempts, find_page_socket_url(&targets))
        },
        Ok(None) => endpoint_step(attempts, None),
    }
}

/// A message from the browser, as far as the decisions read it: the `id` when it is an
/// unsigned integer, the `method` when it is a string, the `error` member written as JSON
/// when there is one, the `result.data` and `result.result.value` strings (the screenshot
/// and the document's ready state), and the `result` member written as JSON (`null` when
/// there is none) for the caller.
pub struct CdpMessage {
    pub id: Option<u64>,
    pub method: Option<String>,
    pub error: Option<String>,
    pub data: Option<String>,
    pub ready_state: Option<String>,
    pub result: String,
}

/// The parts of a message that the decisions read.
pub struct MessageView {
    pub id: Option<u64>,
    pub method: Option<Seq<char>>,
    pub error: Option<Seq<char>>,
    pub data: Option<Seq<char>>,
    pub ready_state: Option<Seq<char>>,
    pub result: Seq<char>,
}

/// The value of a message.
pub open spec fn message_view(m: CdpMessage) -> MessageView {
    MessageView {
        id: m.id,
        method: opt_view(m.method),
        error: opt_view(m.error),
        data: opt_view(m.data),
        ready_state: opt_view(m.ready_state),
        result: m.result@,
    }
}

/// What `serde_json::from_str` makes of a text message: `Err` with the parser's message
/// when the text is not JSON; otherwise its `id` (`Value::as_u64`), `method`
/// (`Value::as_str`), `error` (present or not, written with `Value::to_string`), and the
/// strings `result.data` and `result.result.value`, and the `result` member written with
/// `Value::to_string` (`null` when it is missing). It depends on the text alone.
pub uninterp spec fn json_message(text: Seq<char>) -> Result<MessageView, Seq<char>>;

/// Parses a text message with `serde_json::from_str` and reads the members that the
/// decisions use, with the `result` member written as JSON; the result is named by
/// `json_message`.
#[verifier::external_body]
fn parse_cdp_message(text: &str) -> (r: Result<CdpMessage, String>)
    ensures
        match r {
            Ok(m) => json_message(text@) == Ok::<MessageView, Seq<char>>(message_view(m)),
            Err(e) => json_message(text@) == Err::<MessageView, Seq<char>>(e@),
        },
{
    let v: serde_json::Value = serde_json::from_str(text).map_err(|e| e.to_string())?;
    Ok(CdpMessage {
        id: v["id"].as_u64(),
        method: v["method"].as_str().map(String::from),
        error: v.get("error").map(|e| e.to_string()),
        data: v["result"]["data"].as_str().map(String::from),
        ready_state: v["result"]["result"]["value"].as_str().map(String::from),
        result: v["result"].to_string(),
    })
}

/// The next event on the debugger connection.
pub enum SocketEvent {
    /// The connection ended.
    Closed,
    /// Reading failed, with this message.
    Failed(String),
    /// A message that is not text.
    NotText,
    /// A text message.
    Text(String),
}

/// What to do with an event while waiting for the answer to a command.
pub enum ReplyStep {
    /// Not the answer: wait for the next event.
    Wait,
    /// The answer.
    Reply(CdpMessage),
    /// The command failed, with this message.
    Fail(String),
}

/// The decision on a parsed message while waiting for the answer to command `id`: the
/// message with that id answers it, handed back whole, and fails it when it carries an
/// error.
pub fn message_reply_step(id: u64, msg: CdpMessage) -> (r: ReplyStep)
    ensures
        if msg.id == Some(id) {
            match msg.error {
                Some(err) => r matches ReplyStep::Fail(m) && m@ == "Chrome error: "@ + err@,
                None => r matches ReplyStep::Reply(m) && m == msg,
            }
        } else {
            r is Wait
        },
{
    let answers = match msg.id {
        Some(i) => i == id,
        None => false,
    };
    if answers {
        match &msg.error {
            Some(err) => {
                let mut text = to_chars("Chrome error: ");
                append_chars(&mut text, to_chars(err.as_str()).as_slice());
                ReplyStep::Fail(string_from_chars(text.as_slice()))
            },
            None => ReplyStep::Reply(msg),
        }
    } else {
        ReplyStep::Wait
    }
}

/// The decision on `event` while waiting for the answer to command `id`: the message
/// with that id answers it, and fails it when it carries an error; text that is not JSON
/// and a failed or closed connection fail it; anything else is passed over.
pub fn command_reply_step(id: u64, event: SocketEvent) -> (r: ReplyStep)
    ensures
        match event {
            SocketEvent::Closed => r matches ReplyStep::Fail(m) && m@
                == "WebSocket connection closed unexpectedly"@,
            SocketEvent::Failed(e) => r matches ReplyStep::Fail(m) && m@ == e@,
            SocketEvent::NotText => r is Wait,
            SocketEvent::Text(t) => match json_message(t@) {
                Err(e) => r matches ReplyStep::Fail(m) && m@ == e,
                Ok(mv) => if mv.id == Some(id) {
                    match mv.error {
                        Some(err) => r matches ReplyStep::Fail(m) && m@ == "Chrome error: "@ + err,
                        None => r matches ReplyStep::Reply(m) && message_view(m) == mv,
                    }
                } else {
                    r is Wait
                },
            },
        },
{
    match event {
        SocketEvent::Closed => ReplyStep::Fail("WebSocket connection closed unexpectedly".to_owned()),
        SocketEvent::Failed(e) => ReplyStep::Fail(e),
        SocketEvent::NotText => ReplyStep::Wait,
        SocketEvent::Text(t) => match parse_cdp_message(t.as_str()) {
            Err(e) => ReplyStep::Fail(e),
            Ok(msg) => message_reply_step(id, msg),
        },
    }
}

/// What to do with an event while waiting for the page to load.
pub enum LoadStep {
    /// Not yet loaded: wait for the next event.
    Wait,
    /// The page has loaded.
    Loaded,
    /// Waiting failed, with this message.
    Fail(String),
}

/// Whether the answer to the ready-state query reports the page loaded: its
/// `document.readyState` is `complete`.
pub fn document_complete(reply: &CdpMessage) -> (r: bool)
    ensures
        r == (opt_view(reply.ready_state) == Some("complete"@)),
{
    match &reply.ready_state {
        Some(s) => *s == "complete".to_owned(),
        None => false,
    }
}

/// Whether a message is the `Page.loadEventFired` notification.
pub fn is_load_event(msg: &CdpMessage) -> (r: bool)
    ensures
        r == (opt_view(msg.method) == Some("Page.loadEventFired"@)),
{
    match &msg.method {
        Some(m) => *m == "Page.loadEventFired".to_owned(),
        None => false,
    }
}

/// The decision on `event` while waiting for the page to load: the `Page.loadEventFired`
/// notification ends the wait, a failed or closed connection fails it, anything else,
/// text that is not JSON included, is passed over.
pub fn load_event_step(event: SocketEvent) -> (r: LoadStep)
    ensures
        match event {
            SocketEvent::Closed => r matches LoadStep::Fail(m) && m@
                == "WebSocket closed before loadEventFired"@,
            SocketEvent::Failed(e) => r matches LoadStep::Fail(m) && m@ == e@,
            SocketEvent::NotText => r is Wait,
            SocketEvent::Text(t) => match json_message(t@) {
                Ok(mv) => if mv.method == Some("Page.loadEventFired"@) {
                    r is Loaded
                } else {
                    r is Wait
                },
                Err(_) => r is Wait,
            },
        },
{
    match event {
        SocketEvent::Closed => LoadStep::Fail("WebSocket closed before loadEventFired".to_owned()),
        SocketEvent::Failed(e) => LoadStep::Fail(e),
        SocketEvent::NotText => LoadStep::Wait,
        SocketEvent::Text(t) => match parse_cdp_message(t.as_str()) {
            Ok(msg) => if is_load_event(&msg) {
                LoadStep::Loaded
            } else {
                LoadStep::Wait
            },
            Err(_) => LoadStep::Wait,
        },
    }
}

#[verifier::external_type_specification]
#[verifier::external_body]
pub struct ExDecodeError(base64::DecodeError);

/// The bytes that standard base64 (with padding) decodes a text to, `None` when the
/// text is not valid base64. It depends on the text alone.
pub uninterp spec fn base64_decoded(text: Seq<char>) -> Option<Seq<u8>>;

/// Decodes `text` with `base64::engine::general_purpose::STANDARD.decode`; its result is
/// named by `base64_decoded`.
#[verifier::external_body]
fn decode_base64(text: &str) -> (r: Result<Vec<u8>, base64::DecodeError>)
    ensures
        r is Ok <==> base64_decoded(text@) is Some,
        r matches Ok(bytes) ==> base64_decoded(text@) == Some(bytes@),
{
    base64::engine::general_purpose::STANDARD.decode(text)
}

/// Why the screenshot could not be read.
pub enum ScreenshotError {
    /// The answer has no `data` string.
    MissingData,
    /// The `data` is not valid base64.
    InvalidBase64(base64::DecodeError),
}

/// The PNG bytes of a screenshot from the `data` string of the capture's answer.
pub fn screenshot_bytes(reply: &CdpMessage) -> (r: Result<Vec<u8>, ScreenshotError>)
    ensures
        match opt_view(reply.data) {
            None => r matches Err(ScreenshotError::MissingData),
            Some(text) => match base64_decoded(text) {
                Some(bytes) => r matches Ok(b) && b@ == bytes,
                None => r matches Err(ScreenshotError::InvalidBase64(_)),
            },
        },
{
    match &reply.data {
        None => Err(ScreenshotError::MissingData),
        Some(text) => match decode_base64(text.as_str()) {
            Ok(bytes) => Ok(bytes),
            Err(e) => Err(ScreenshotError::InvalidBase64(e)),
        },
    }
}


/// The page's debugger address is that of the first target of type `page`, whatever the
/// targets after it are; with no such target there is none.
pub proof fn lemma_first_page(targets: Seq<(Option<Seq<char>>, Option<Seq<char>>)>)
    ensures
        (forall|j: int| 0 <= j < targets.len() ==> (#[trigger] targets[j]).0 != Some("page"@))
            ==> page_url_of(targets) is None,
        forall|i: int|
            0 <= i < targets.len() && (#[trigger] targets[i]).0 == Some("page"@) && (forall|j: int|
                0 <= j < i ==> (#[trigger] targets[j]).0 != Some("page"@)) ==> page_url_of(targets)
                == targets[i].1,
    decreases targets.len(),
{
    if targets.len() > 0 {
        let rest = targets.subrange(1, targets.len() as int);
        lemma_first_page(rest);
        assert forall|j: int| 0 <= j < rest.len() implies rest[j] == targets[j + 1] by {}
        if forall|j: int| 0 <= j < targets.len() ==> (#[trigger] targets[j]).0 != Some("page"@) {
            assert forall|j: int| 0 <= j < rest.len() implies (#[trigger] rest[j]).0 != Some(
                "page"@,
            ) by {
                assert(rest[j] == targets[j + 1]);
            }
            assert(targets[0].0 != Some("page"@));
        }
        assert forall|i: int|
            0 <= i < targets.len() && (#[trigger] targets[i]).0 == Some("page"@) && (forall|j: int|
                0 <= j < i ==> (#[trigger] targets[j]).0 != Some("page"@)) implies page_url_of(
            targets,
        ) == targets[i].1 by {
            if i > 0 {
                assert(targets[0].0 != Some("page"@));
                assert(rest[i - 1] == targets[i]);
                assert forall|j: int| 0 <= j < i - 1 implies (#[trigger] rest[j]).0 != Some(
                    "page"@,
                ) by {
                    assert(rest[j] == targets[j + 1]);
                }
            }
        }
    }
}

} // verus!
