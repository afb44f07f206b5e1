//! Reading response bodies: framing, correlation, and what is said when there is no response.
use yoagent::mcp::body::BodyReader;
use yoagent::mcp::frames::{event_payload, response_for};
use yoagent::mcp::skipped::SkippedFrames;
use yoagent::mcp::types::{JsonRpcResponse, McpError};

const ID: u64 = 7;

fn sse(payload: &str) -> String {
    format!("event: message\ndata: {payload}\n\n")
}

/// Feeds the pieces one by one, and ends the body only where `terminate` says so.
fn read_pieces(
    pieces: &[&[u8]],
    terminate: bool,
    method: &str,
    status: u16,
) -> Result<JsonRpcResponse, McpError> {
    let mut reader = BodyReader::new(ID, method, status);
    for piece in pieces {
        match reader.feed(piece) {
            Ok(Some(response)) => return Ok(response),
            Ok(None) => {}
            Err(error) => return Err(error),
        }
    }
    assert!(terminate, "no response before the end of the pieces");
    reader.finish()
}

fn read(body: &str, method: &str) -> Result<JsonRpcResponse, McpError> {
    read_pieces(&[body.as_bytes()], true, method, 200)
}

fn result(response: JsonRpcResponse) -> serde_json::Value {
    response.result.expect("a result")
}

fn failure(outcome: Result<JsonRpcResponse, McpError>) -> String {
    match outcome {
        Err(McpError::Transport(text)) => text,
        Err(_) => panic!("a transport error"),
        Ok(_) => panic!("an error"),
    }
}

fn response(outcome: Result<JsonRpcResponse, McpError>) -> JsonRpcResponse {
    match outcome {
        Ok(response) => response,
        Err(McpError::Transport(text)) => panic!("{text}"),
        Err(_) => panic!("an error"),
    }
}

#[test]
fn plain_json_response_still_parses() {
    let body = format!(r#"{{"jsonrpc":"2.0","id":{ID},"result":{{"ok":true}}}}"#);
    assert_eq!(result(response(read(&body, "ping")))["ok"], true);
}

#[test]
fn sse_framed_response_parses() {
    let body = sse(&format!(
        r#"{{"jsonrpc":"2.0","id":{ID},"result":{{"tools":[]}}}}"#
    ));
    assert!(result(response(read(&body, "tools/list")))["tools"].is_array());
}

#[test]
fn bom_prefixed_plain_json_body_still_parses() {
    let body =
        format!("\u{feff}{{\"jsonrpc\":\"2.0\",\"id\":{ID},\"result\":{{\"ok\":true}}}}");
    assert_eq!(result(response(read(&body, "ping")))["ok"], true);
}

#[test]
fn frame_with_both_method_and_result_is_not_the_response() {
    let body = format!(
        "event: message\ndata: {{\"jsonrpc\":\"2.0\",\"id\":{ID},\"method\":\"notifications/progress\",\"result\":{{\"bogus\":true}}}}\n\nevent: message\ndata: {{\"jsonrpc\":\"2.0\",\"id\":{ID},\"result\":{{\"real\":true}}}}\n\n"
    );
    assert_eq!(result(response(read(&body, "tools/list")))["real"], true);
}

#[test]
fn sse_skips_frames_that_are_not_json_rpc() {
    let body = format!(
        ": keep-alive comment\n\nevent: ping\ndata: {{\"unrelated\":true}}\n\nid: 42\nevent: message\ndata: {{\"jsonrpc\":\"2.0\",\"id\":{ID},\"result\":{{\"found\":true}}}}\n\n"
    );
    assert_eq!(result(response(read(&body, "tools/list")))["found"], true);
}

#[test]
fn notification_frames_do_not_shadow_the_response() {
    let body = format!(
        "event: message\ndata: {{\"jsonrpc\":\"2.0\",\"method\":\"notifications/message\",\"params\":{{\"level\":\"info\",\"data\":\"searching\"}}}}\n\nevent: message\ndata: {{\"jsonrpc\":\"2.0\",\"method\":\"notifications/progress\",\"params\":{{\"progress\":1}}}}\n\nevent: message\ndata: {{\"jsonrpc\":\"2.0\",\"id\":{ID},\"result\":{{\"tools\":[{{\"name\":\"web_search\"}}]}}}}\n\n"
    );
    assert_eq!(
        result(response(read(&body, "tools/list")))["tools"][0]["name"],
        "web_search"
    );
}

#[test]
fn server_initiated_request_does_not_shadow_the_response() {
    let body = format!(
        "event: message\ndata: {{\"jsonrpc\":\"2.0\",\"id\":77,\"method\":\"sampling/createMessage\",\"params\":{{}}}}\n\nevent: message\ndata: {{\"jsonrpc\":\"2.0\",\"id\":{ID},\"result\":{{\"content\":[]}}}}\n\n"
    );
    assert!(response(read(&body, "tools/call")).result.is_some());
}

#[test]
fn bare_ack_frame_does_not_shadow_the_response() {
    let body = format!(
        "event: message\ndata: {{\"jsonrpc\":\"2.0\",\"id\":{ID}}}\n\nevent: message\ndata: {{\"jsonrpc\":\"2.0\",\"id\":{ID},\"result\":{{\"real\":true}}}}\n\n"
    );
    assert_eq!(result(response(read(&body, "tools/list")))["real"], true);
}

#[test]
fn json_rpc_error_over_sse_reaches_the_caller() {
    let body = format!(
        "event: message\ndata: {{\"jsonrpc\":\"2.0\",\"method\":\"notifications/message\",\"params\":{{}}}}\n\nevent: message\ndata: {{\"jsonrpc\":\"2.0\",\"id\":{ID},\"error\":{{\"code\":-32602,\"message\":\"path must be absolute\"}}}}\n\n"
    );
    let error = response(read(&body, "tools/call"))
        .error
        .expect("the server's error must survive");
    assert_eq!(error.code, -32602);
    assert!(error.message.contains("absolute"));
    assert!(error.data.is_none());
}

#[test]
fn mismatched_response_id_is_rejected() {
    let body = sse(r#"{"jsonrpc":"2.0","id":999999,"result":{"stale":true}}"#);
    let text = failure(read(&body, "tools/list"));
    assert!(text.contains("no JSON-RPC response"), "got: {text}");
    assert_eq!(
        text,
        format!(
            "HTTP 200 OK: no JSON-RPC response for 'tools/list' (id 7) in the body (skipped 1 frame(s): response for id 999999): {body}"
        )
    );
}

#[test]
fn multi_line_data_frames_are_joined() {
    let body = format!(
        "event: message\ndata: {{\"jsonrpc\":\"2.0\",\ndata: \"id\":{ID},\ndata: \"result\":{{\"joined\":true}}}}\n\n"
    );
    assert_eq!(result(response(read(&body, "tools/list")))["joined"], true);
}

#[test]
fn accepted_with_empty_body_is_not_an_error() {
    for status in [202u16, 204] {
        let ack = response(read_pieces(&[], true, "notifications/initialized", status));
        assert_eq!(ack.jsonrpc, "2.0");
        assert_eq!(ack.id, Some(ID));
        assert!(ack.result.is_none() && ack.error.is_none());
    }
}

#[test]
fn empty_body_on_plain_200_is_an_error() {
    let text = failure(read_pieces(&[b" \r\n"], true, "tools/list", 200));
    assert!(text.contains("empty body"), "got: {text}");
    assert_eq!(
        text,
        "HTTP 200 OK with an empty body on 'tools/list' (expected a JSON-RPC response; an empty 2xx usually means a proxy or gateway answered instead of the MCP server)"
    );
}

#[test]
fn unparseable_body_is_an_error_with_context() {
    let text = failure(read("<html>gateway</html>", "ping"));
    assert_eq!(
        text,
        "HTTP 200 OK: no JSON-RPC response for 'ping' (id 7) in the body: <html>gateway</html>"
    );
}

#[test]
fn event_boundary_split_across_chunks_is_still_found() {
    let frames = format!(
        "event: message\ndata: {{\"jsonrpc\":\"2.0\",\"id\":{ID},\"result\":{{\"tools\":[]}}}}\n\n"
    );
    let at = frames.len() - 1;
    assert_eq!(&frames.as_bytes()[at - 1..at + 1], b"\n\n");
    let (a, b) = frames.as_bytes().split_at(at);
    let answer = response(read_pieces(&[a, b], false, "tools/list", 200));
    assert!(result(answer)["tools"].is_array());
}

#[test]
fn multibyte_character_split_across_chunks_is_not_corrupted() {
    let text = "café 日本語 🎉";
    let frames = format!(
        "event: message\ndata: {{\"jsonrpc\":\"2.0\",\"id\":{ID},\"result\":{{\"text\":\"{text}\"}}}}\n\n"
    );
    let at = frames.find('日').unwrap() + 1;
    assert!(!frames.is_char_boundary(at));
    let (a, b) = frames.as_bytes().split_at(at);
    let answer = response(read_pieces(&[a, b], false, "tools/call", 200));
    assert_eq!(result(answer)["text"].as_str().unwrap(), text);
}

#[test]
fn crlf_boundary_split_mid_sequence_is_normalized() {
    let frames = format!(
        "event: message\r\ndata: {{\"jsonrpc\":\"2.0\",\"id\":{ID},\"result\":{{\"ok\":true}}}}\r\n\r\n"
    );
    let at = frames.len() - 1;
    assert_eq!(&frames.as_bytes()[at - 1..at + 1], b"\r\n");
    let (a, b) = frames.as_bytes().split_at(at);
    let answer = response(read_pieces(&[a, b], false, "tools/list", 200));
    assert_eq!(result(answer)["ok"], true);
}

#[test]
fn bare_cr_framing_is_supported() {
    let frames = format!(
        "event: message\rdata: {{\"jsonrpc\":\"2.0\",\"id\":{ID},\"result\":{{\"ok\":true}}}}\r\r"
    );
    assert_eq!(result(response(read(&frames, "tools/list")))["ok"], true);
}

#[test]
fn unterminated_final_event_after_a_notification_is_parsed() {
    let frames = format!(
        "event: message\ndata: {{\"jsonrpc\":\"2.0\",\"method\":\"notifications/progress\"}}\n\nevent: message\ndata: {{\"jsonrpc\":\"2.0\",\"id\":{ID},\"result\":{{\"ok\":true}}}}\n"
    );
    assert_eq!(result(response(read(&frames, "tools/call")))["ok"], true);
}

#[test]
fn truncation_after_the_answer_still_succeeds() {
    let frames = format!(
        "event: message\ndata: {{\"jsonrpc\":\"2.0\",\"id\":{ID},\"result\":{{\"ok\":true}}}}\n\n"
    );
    let pieces: [&[u8]; 2] = [frames.as_bytes(), b"garbage-not-a-chunk"];
    let answer = response(read_pieces(&pieces, false, "tools/list", 200));
    assert_eq!(result(answer)["ok"], true);
}

#[test]
fn byte_at_a_time_delivery_assembles_correctly() {
    let text = "日本語";
    let frames = format!(
        "event: message\ndata: {{\"jsonrpc\":\"2.0\",\"id\":{ID},\"result\":{{\"text\":\"{text}\"}}}}\n\n"
    );
    let pieces: Vec<&[u8]> = frames.as_bytes().chunks(1).collect();
    let answer = response(read_pieces(&pieces, false, "tools/call", 200));
    assert_eq!(result(answer)["text"].as_str().unwrap(), text);
}

#[test]
fn returns_without_waiting_for_the_server_to_close_the_stream() {
    let frames = format!(
        "event: message\ndata: {{\"jsonrpc\":\"2.0\",\"id\":{ID},\"result\":{{\"tools\":[]}}}}\n\n"
    );
    let answer = response(read_pieces(&[frames.as_bytes()], false, "tools/list", 200));
    assert!(result(answer)["tools"].is_array());
}

#[test]
fn returns_at_the_result_frame_despite_leading_notifications() {
    let frames = format!(
        "event: message\ndata: {{\"jsonrpc\":\"2.0\",\"method\":\"notifications/progress\",\"params\":{{\"progress\":1}}}}\n\nevent: message\ndata: {{\"jsonrpc\":\"2.0\",\"method\":\"notifications/message\",\"params\":{{\"level\":\"info\"}}}}\n\nevent: message\ndata: {{\"jsonrpc\":\"2.0\",\"id\":{ID},\"result\":{{\"content\":[{{\"type\":\"text\"}}]}}}}\n\n"
    );
    let answer = response(read_pieces(&[frames.as_bytes()], false, "tools/call", 200));
    assert!(answer.result.is_some());
}

#[test]
fn chunking_does_not_show_at_any_cut() {
    let body = format!(
        "data: {{\"method\":\"é\"}}\r\n\r\ndata: {{\"jsonrpc\":\"2.0\",\"id\":{ID},\"result\":1}}\r\rtrailing"
    );
    for at in 0..=body.len() {
        let (a, b) = body.as_bytes().split_at(at);
        let answer = response(read_pieces(&[a, b], false, "m", 200));
        assert_eq!(result(answer), 1);
    }
}

#[test]
fn what_follows_the_answer_does_not_change_it() {
    let answered = sse(&format!(r#"{{"jsonrpc":"2.0","id":{ID},"result":1}}"#));
    let mut reader = BodyReader::new(ID, "m", 200);
    let first = reader.feed(answered.as_bytes());
    assert_eq!(result(first.ok().unwrap().unwrap()), 1);
    let other = sse(&format!(r#"{{"jsonrpc":"2.0","id":{ID},"result":2}}"#));
    let again = reader.feed(other.as_bytes());
    assert_eq!(result(again.ok().unwrap().unwrap()), 1);
    assert_eq!(result(response(reader.finish())), 1);
}

#[test]
fn plain_body_over_many_lines_is_one_document() {
    let body = format!(
        "{{\n\n\"jsonrpc\":\"2.0\",\n\n\n\"id\":{ID},\r\n\r\n\"result\":{{\"data\":\n\n\"data: x\"}}}}\n\n"
    );
    assert_eq!(result(response(read(&body, "m")))["data"], "data: x");
}

#[test]
fn invalid_utf8_in_an_event_is_refused() {
    let mut reader = BodyReader::new(ID, "m", 200);
    match reader.feed(b"data: \xff\n\n") {
        Err(McpError::Transport(text)) => assert_eq!(
            text,
            "invalid UTF-8 in the response body on 'm' at byte 6: invalid utf-8 sequence of 1 bytes from index 6"
        ),
        _ => panic!("an error"),
    }
}

#[test]
fn invalid_utf8_at_the_end_is_refused() {
    let text = failure(read_pieces(&[b"{\xe6\x97"], true, "m", 200));
    assert_eq!(
        text,
        "invalid UTF-8 in the response body on 'm' at byte 1: incomplete utf-8 byte sequence from index 1"
    );
}

#[test]
fn read_error_reports_its_own_cause() {
    let mut reader = BodyReader::new(ID, "m", 200);
    let body = "data: {\"method\":\"b\"}\r\n\r\ndata: {\"method\":\"a\"}\n\n";
    assert!(matches!(reader.feed(body.as_bytes()), Ok(None)));
    match reader.read_error("reset") {
        McpError::Transport(text) => assert_eq!(
            text,
            format!(
                "Response read error on 'm' after {} byte(s): reset",
                body.len() - 2
            )
        ),
        _ => panic!("a transport error"),
    }
}

#[test]
fn the_error_lists_ten_kinds() {
    let mut body = String::new();
    for i in 0..12 {
        body.push_str(&format!("data: {{\"method\":\"m{i:02}\"}}\n\n"));
    }
    body.push_str("data: {\"method\":\"m03\"}\n\n");
    let text = failure(read(&body, "x"));
    assert!(
        text.contains(
            " (skipped 13 frame(s): m00, m01, m02, m03 x2, m04, m05, m06, m07, m08, m09, and 2 other kind(s)): "
        ),
        "got: {text}"
    );
    let quoted = text.rsplit_once("kind(s)): ").unwrap().1;
    assert_eq!(quoted.chars().count(), 200);
}

#[test]
fn kinds_are_told_apart() {
    let mut tally = SkippedFrames::new();
    assert_eq!(tally.describe_skipped(), "");
    tally.note_skipped(r#"{"method":"ping"}"#);
    tally.note_skipped(r#"{"id":3,"result":1}"#);
    tally.note_skipped(r#"{"id":-3}"#);
    tally.note_skipped("not json é");
    tally.note_skipped("[1]");
    assert_eq!(
        tally.describe_skipped(),
        " (skipped 5 frame(s): malformed non-JSON frame (11 bytes), ping, response for id 3, unrecognized JSON-RPC frame x2)"
    );
    assert_eq!(tally.total(), 5);
}

#[test]
fn kinds_come_in_the_order_of_strings() {
    let kinds = ["b", "a", "é", "z", "ab", "", "日", "Z", "🎉", "a"];
    let mut tally = SkippedFrames::new();
    let mut sorted = std::collections::BTreeMap::new();
    for kind in kinds {
        let mut frame = serde_json::Map::new();
        frame.insert("method".to_string(), serde_json::Value::from(kind));
        tally.note_skipped(&serde_json::Value::Object(frame).to_string());
        *sorted.entry(kind).or_insert(0usize) += 1;
    }
    let listed: Vec<String> = sorted
        .iter()
        .map(|(kind, n)| {
            if *n > 1 {
                format!("{kind} x{n}")
            } else {
                kind.to_string()
            }
        })
        .collect();
    assert_eq!(
        tally.describe_skipped(),
        format!(" (skipped 10 frame(s): {})", listed.join(", "))
    );
}

#[test]
fn payload_is_the_joined_data_lines() {
    assert_eq!(event_payload(": comment"), None);
    assert_eq!(event_payload("event: x\nid: 1"), None);
    assert_eq!(event_payload("data:\ndata:   "), None);
    assert_eq!(event_payload("data: a").as_deref(), Some("a"));
    assert_eq!(event_payload("data:a").as_deref(), Some("a"));
    assert_eq!(
        event_payload("data:  a \nxdata: b\r\ndata: c").as_deref(),
        Some("a \nc")
    );
    assert_eq!(event_payload(" data: a"), None);
    assert_eq!(
        event_payload("data: a\ndata:   b").as_deref(),
        Some("a\n  b")
    );
}

#[test]
fn responses_are_selected_by_structure() {
    let accepted = |payload: &str| response_for(payload, ID);
    assert!(accepted(r#"{"jsonrpc":"2.0","id":7,"result":null}"#).is_some());
    assert!(accepted(r#"{"jsonrpc":"2.0","id":null,"error":{"code":1,"message":"m"}}"#).is_some());
    assert!(accepted(r#"{"jsonrpc":"2.0","result":1}"#).is_some());
    assert!(accepted(r#"{"id":7,"result":1}"#).is_none());
    assert!(accepted(r#"{"jsonrpc":2,"id":7,"result":1}"#).is_none());
    assert!(accepted(r#"{"jsonrpc":"2.0","id":8,"result":1}"#).is_none());
    assert!(accepted(r#"{"jsonrpc":"2.0","id":"7","result":1}"#).is_none());
    assert!(accepted(r#"{"jsonrpc":"2.0","id":7.0,"result":1}"#).is_none());
    assert!(accepted(r#"{"jsonrpc":"2.0","id":-7,"result":1}"#).is_none());
    assert!(accepted(r#"{"jsonrpc":"2.0","id":7}"#).is_none());
    assert!(accepted(r#"{"jsonrpc":"2.0","id":7,"error":{"code":"1","message":"m"}}"#).is_none());
    assert!(accepted(r#"{"jsonrpc":"2.0","id":7,"error":{"code":1}}"#).is_none());
    assert!(accepted(r#"{"jsonrpc":"2.0","id":7,"error":"e"}"#).is_none());
    assert!(accepted(r#"{"jsonrpc":"2.0","id":7,"method":null,"result":1}"#).is_none());
    assert!(accepted("[]").is_none());
    assert!(accepted("{").is_none());
    let both = accepted(
        r#"{"jsonrpc":"x","id":7,"result":[1],"error":{"code":-1,"message":"m","data":{"k":2}}}"#,
    )
    .unwrap();
    assert_eq!(both.jsonrpc, "x");
    assert_eq!(both.result.unwrap()[0], 1);
    let error = both.error.unwrap();
    assert_eq!(error.code, -1);
    assert_eq!(error.data.unwrap()["k"], 2);
}

#[test]
fn a_body_comes_to_the_same_under_every_line_end() {
    let body = format!(
        "data: {{\"method\":\"a\"}}\n\nevent: x\ndata: {{\"jsonrpc\":\"2.0\",\ndata: \"id\":{ID},\"result\":[1]}}\n\n"
    );
    let lost = "data: {\"method\":\"a\"}\n\ndata: {\n\n".to_string();
    let texts: Vec<String> = ["\n", "\r\n", "\r"]
        .iter()
        .map(|end| {
            let found = read(&body.replace('\n', end), "m");
            assert_eq!(result(response(found))[0], 1);
            failure(read(&lost.replace('\n', end), "m"))
        })
        .collect();
    assert_eq!(texts[0], texts[1]);
    assert_eq!(texts[0], texts[2]);
}
