//! Sessions, statuses and charsets of the HTTP transport, and the lines of the stdio transport.
use yoagent::mcp::transport::{
    content_charset, request_line, response_line, Head, Header, HttpTransport,
};
use yoagent::mcp::types::McpError;

fn header<'a>(headers: &'a [Header], name: &str) -> Option<&'a str> {
    headers
        .iter()
        .find(|h| h.name.eq_ignore_ascii_case(name))
        .map(|h| h.value.as_str())
}

fn text(error: McpError) -> String {
    match error {
        McpError::Transport(text) => text,
        _ => panic!("a transport error"),
    }
}

#[test]
fn test_http_transport_creation() {
    let transport = HttpTransport::new("http://localhost:8080/mcp");
    assert_eq!(transport.base_url, "http://localhost:8080/mcp");

    // Trailing slash stripped
    let transport = HttpTransport::new("http://localhost:8080/mcp/");
    assert_eq!(transport.base_url, "http://localhost:8080/mcp");

    let transport = HttpTransport::new("//");
    assert_eq!(transport.base_url, "");
}

#[test]
fn accept_header_advertises_both_framings() {
    let headers = HttpTransport::new("http://x").headers();
    let accept = header(&headers, "accept").unwrap();
    assert!(accept.contains("application/json"));
    assert!(accept.contains("text/event-stream"));
    assert_eq!(headers.len(), 1);
}

#[test]
fn session_id_is_captured_then_replayed() {
    let mut transport = HttpTransport::new("http://x");
    assert!(header(&transport.headers(), "mcp-session-id").is_none());
    let head = transport.on_head(
        200,
        Some("sess-abc123"),
        Some("text/event-stream"),
        "initialize",
    );
    assert!(matches!(head, Head::Body));
    assert_eq!(
        header(&transport.headers(), "mcp-session-id"),
        Some("sess-abc123")
    );
    transport.on_head(200, None, None, "tools/list");
    assert_eq!(
        header(&transport.headers(), "mcp-session-id"),
        Some("sess-abc123")
    );
    transport.on_head(201, Some("sess-2"), None, "tools/list");
    assert_eq!(header(&transport.headers(), "mcp-session-id"), Some("sess-2"));
}

#[test]
fn expired_session_is_cleared_and_named() {
    let mut transport = HttpTransport::new("http://x");
    transport.on_head(200, Some("sess-dead"), None, "initialize");
    match transport.on_head(404, None, None, "tools/list") {
        Head::Fail(error) => assert_eq!(
            text(error),
            "MCP session expired (HTTP 404 on 'tools/list'); reconnect to start a new session"
        ),
        _ => panic!("404 must surface"),
    }
    assert!(header(&transport.headers(), "mcp-session-id").is_none());
    assert!(matches!(
        transport.on_head(404, None, None, "tools/list"),
        Head::Refused
    ));
}

#[test]
fn non_2xx_preserves_the_server_explanation() {
    let mut transport = HttpTransport::new("http://x");
    assert!(matches!(
        transport.on_head(400, Some("s"), None, "tools/list"),
        Head::Refused
    ));
    assert!(transport.session_id.is_none());
    assert_eq!(
        text(HttpTransport::refuse(
            400,
            r#" {"error":{"message":"Mcp-Session-Id header required"}} "#,
            "tools/list"
        )),
        r#"HTTP 400 Bad Request from server on 'tools/list': {"error":{"message":"Mcp-Session-Id header required"}}"#
    );
    assert_eq!(
        text(HttpTransport::refuse(599, " \n", "m")),
        "HTTP 599 <unknown status code> from server on 'm'"
    );
    let long = "é".repeat(300);
    assert_eq!(
        text(HttpTransport::refuse(500, &long, "m")),
        format!(
            "HTTP 500 Internal Server Error from server on 'm': {}",
            "é".repeat(200)
        )
    );
}

#[test]
fn non_utf8_charset_is_refused_rather_than_mangled() {
    let mut transport = HttpTransport::new("http://x");
    let head = transport.on_head(
        200,
        Some("s"),
        Some("application/json; charset=iso-8859-1"),
        "ping",
    );
    match head {
        Head::Fail(error) => assert_eq!(
            text(error),
            "unsupported charset 'iso-8859-1' on 'ping': MCP bodies are UTF-8 (both application/json and text/event-stream mandate it)"
        ),
        _ => panic!("a non-UTF-8 charset must not be silently decoded as UTF-8"),
    }
    assert_eq!(transport.session_id.as_deref(), Some("s"));
    for name in ["utf-8", "UTF-8", "\"utf8\"", "us-ascii", "ASCII"] {
        let content_type = format!("text/event-stream ; q=1; charset={name}");
        assert!(matches!(
            transport.on_head(200, None, Some(&content_type), "ping"),
            Head::Body
        ));
    }
}

#[test]
fn the_first_charset_parameter_counts() {
    assert_eq!(content_charset("application/json"), None);
    assert_eq!(content_charset("charset=x"), None);
    assert_eq!(content_charset("a;Charset=x"), None);
    assert_eq!(content_charset("a;charset= x").as_deref(), Some(" x"));
    assert_eq!(
        content_charset("a; charset=\"Latin1\";charset=utf-8").as_deref(),
        Some("latin1")
    );
}

#[test]
fn close_deletes_the_session_when_one_exists() {
    let mut transport = HttpTransport::new("http://x");
    transport.on_head(200, Some("sess-xyz"), None, "initialize");
    assert_eq!(transport.close().as_deref(), Some("sess-xyz"));
    assert!(transport.session_id.is_none());
}

#[test]
fn close_without_a_session_sends_nothing() {
    let mut transport = HttpTransport::new("http://x");
    assert_eq!(transport.close(), None);
}

#[test]
fn stdio_carries_one_message_per_line() {
    assert_eq!(request_line("{\"id\":1}"), "{\"id\":1}\n");
    assert_eq!(response_line(9, " {\"id\":1}\r\n").ok(), Some("{\"id\":1}"));
    assert!(matches!(
        response_line(0, ""),
        Err(McpError::ConnectionClosed)
    ));
}

#[test]
fn the_last_session_named_is_replayed() {
    let mut transport = HttpTransport::new("http://x");
    transport.on_head(200, Some("one"), None, "m");
    transport.on_head(500, Some("refused"), None, "m");
    transport.on_head(202, Some("two"), None, "m");
    transport.on_head(200, None, Some("a; charset=latin1"), "m");
    transport.on_head(400, None, None, "m");
    assert_eq!(header(&transport.headers(), "mcp-session-id"), Some("two"));
    transport.on_head(404, Some("three"), None, "m");
    assert_eq!(header(&transport.headers(), "mcp-session-id"), None);
}
