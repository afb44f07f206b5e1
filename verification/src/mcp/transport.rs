//! The decisions of the HTTP and stdio transports: what goes into a request, and what becomes
//! of the response.
use crate::mcp::types::{Failure, McpError};
use crate::status::{is_status, is_success, status_line, status_text};
use crate::text::{
    after_prefix, first_chars, is_white_space, law_prefix_is_removed, law_separator_ends_a_piece,
    law_trimmed_both_is_the_middle, law_trimmed_is_the_middle, lemma_trimmed_lengths, lower,
    lowered, only, pieces, same, split, strip_prefix, take_chars, text_given, text_option, texts,
    trim, trim_char, trim_end_char, trimmed, trimmed_both, trimmed_end, trimmed_start, white,
};
use vstd::prelude::*;

verus! {

// ---------------------------------------------------------------------------
// Stdio: one message per line
// ---------------------------------------------------------------------------

/// The line that carries a request to the server.
pub fn request_line(message: &str) -> (line: String)
    ensures
        line@ == message@.push('\n'),
{
    let mut line = message.to_owned();
    line.push('\n');
    line
}

/// The message that a line from the server carries. Where nothing was read, the server has
/// closed the connection.
pub fn response_line(bytes_read: usize, line: &str) -> (message: Result<&str, McpError>)
    ensures
        message is Ok == (bytes_read > 0),
        message matches Ok(text) ==> text@ == trimmed(line@),
        message matches Err(error) ==> error@ == Failure::ConnectionClosed,
{
    if bytes_read == 0 {
        Err(McpError::ConnectionClosed)
    } else {
        Ok(trim(line))
    }
}

// ---------------------------------------------------------------------------
// HTTP: the declared charset
// ---------------------------------------------------------------------------

/// The charset that one parameter of a content type declares.
pub open spec fn charset_in(parameter: Seq<char>) -> Option<Seq<char>> {
    match after_prefix(trimmed(parameter), "charset="@) {
        Some(name) => Some(lowered(trimmed_both(name, only('"')))),
        None => None,
    }
}

/// The first charset that the parameters declare.
pub open spec fn first_charset(parameters: Seq<Seq<char>>) -> Option<Seq<char>>
    decreases parameters.len(),
{
    if parameters.len() == 0 {
        None
    } else {
        match charset_in(parameters[0]) {
            Some(name) => Some(name),
            None => first_charset(parameters.drop_first()),
        }
    }
}

/// The charset that a content type declares: the first of its parameters that does so.
pub open spec fn declared_charset(content_type: Seq<char>) -> Option<Seq<char>> {
    first_charset(pieces(content_type, ';').drop_first())
}

/// The charsets whose text is UTF-8.
pub open spec fn is_utf8_charset(name: Seq<char>) -> bool {
    name == "utf-8"@ || name == "utf8"@ || name == "us-ascii"@ || name == "ascii"@
}

/// Reads the charset that one parameter declares.
fn read_charset(parameter: &str) -> (name: Option<String>)
    ensures
        name is Some == charset_in(parameter@) is Some,
        name matches Some(n) ==> charset_in(parameter@) == Some(n@),
{
    match strip_prefix(trim(parameter), "charset=") {
        Some(name) => Some(lower(trim_char(name, '"'))),
        None => None,
    }
}

/// Reads the charset that a content type declares.
pub fn content_charset(content_type: &str) -> (name: Option<String>)
    ensures
        name is Some == declared_charset(content_type@) is Some,
        name matches Some(n) ==> declared_charset(content_type@) == Some(n@),
{
    let parts = split(content_type, ';');
    let ghost all = pieces(content_type@, ';');
    let ghost parameters = all.drop_first();
    let mut i: usize = 1;
    assert(parameters.skip(0) =~= parameters);
    while i < parts.len()
        invariant
            1 <= i,
            texts(parts@) == all,
            all == pieces(content_type@, ';'),
            parameters == all.drop_first(),
            i <= parts.len() || parts.len() == 0,
            first_charset(parameters) == first_charset(parameters.skip(i - 1)),
        decreases parts.len() - i,
    {
        proof {
            assert(parameters.skip(i - 1)[0] == parts@[i as int]@);
            assert(parameters.skip(i - 1).drop_first() =~= parameters.skip(i as int));
        }
        match read_charset(parts[i]) {
            Some(name) => {
                return Some(name);
            },
            None => {},
        }
        i = i + 1;
    }
    None
}

/// The error for a body in a charset that is not UTF-8.
pub open spec fn unsupported_charset(name: Seq<char>, method: Seq<char>) -> Failure {
    Failure::Transport(
        "unsupported charset '"@ + name + "' on '"@ + method
            + "': MCP bodies are UTF-8 (both application/json and text/event-stream mandate it)"@,
    )
}

// ---------------------------------------------------------------------------
// HTTP: sessions and statuses
// ---------------------------------------------------------------------------

/// The state of a connection over HTTP: where requests go, and the session that the server
/// assigned.
pub struct HttpTransport {
    pub base_url: String,
    pub session_id: Option<String>,
}

/// What an [`HttpTransport`] holds.
pub struct Connection {
    pub base_url: Seq<char>,
    pub session_id: Option<Seq<char>>,
}

impl View for HttpTransport {
    type V = Connection;

    open spec fn view(&self) -> Connection {
        Connection {
            base_url: self.base_url@,
            session_id: text_option(self.session_id),
        }
    }
}

/// A header of a request.
pub struct Header {
    pub name: String,
    pub value: String,
}

/// The names and values of a list of headers.
pub open spec fn header_texts(headers: Seq<Header>) -> Seq<(Seq<char>, Seq<char>)> {
    headers.map_values(|header: Header| (header.name@, header.value@))
}

/// The headers of a request: both framings are accepted, and the session is replayed.
pub open spec fn request_headers(connection: Connection) -> Seq<(Seq<char>, Seq<char>)> {
    let accept = ("Accept"@, "application/json, text/event-stream"@);
    match connection.session_id {
        Some(session) => seq![accept, ("Mcp-Session-Id"@, session)],
        None => seq![accept],
    }
}

/// What the head of a response asks for next.
pub enum Head {
    /// Give up with this error.
    Fail(McpError),
    /// The server refused the request: its explanation is in the body.
    Refused,
    /// The body holds the response.
    Body,
}

/// What a [`Head`] says.
pub enum HeadView {
    Fail(Failure),
    Refused,
    Body,
}

impl View for Head {
    type V = HeadView;

    open spec fn view(&self) -> HeadView {
        match *self {
            Head::Fail(error) => HeadView::Fail(error@),
            Head::Refused => HeadView::Refused,
            Head::Body => HeadView::Body,
        }
    }
}

/// The error for a session that the server no longer knows.
pub open spec fn session_expired(method: Seq<char>) -> Failure {
    Failure::Transport(
        "MCP session expired (HTTP 404 on '"@ + method + "'); reconnect to start a new session"@,
    )
}

/// The connection after the head of a response, and what to do next.
///
/// A 404 to a request of a session means that the server dropped the session: it is forgotten,
/// and the error says so. Any other status but success is a refusal. A success that names a
/// session sets it, and its body is read if it is declared to be UTF-8 or not declared at all.
pub open spec fn head_outcome(
    connection: Connection,
    status: u16,
    session: Option<Seq<char>>,
    content_type: Option<Seq<char>>,
    method: Seq<char>,
) -> (Connection, HeadView) {
    if !is_success(status) {
        if status == 404 && connection.session_id is Some {
            (
                Connection { session_id: None, ..connection },
                HeadView::Fail(session_expired(method)),
            )
        } else {
            (connection, HeadView::Refused)
        }
    } else {
        let next = Connection {
            session_id: if session is Some {
                session
            } else {
                connection.session_id
            },
            ..connection
        };
        let charset = match content_type {
            Some(text) => declared_charset(text),
            None => None,
        };
        match charset {
            Some(name) => if is_utf8_charset(name) {
                (next, HeadView::Body)
            } else {
                (next, HeadView::Fail(unsupported_charset(name, method)))
            },
            None => (next, HeadView::Body),
        }
    }
}

/// The error for a refused request, with the start of the server's explanation.
pub open spec fn refusal(status: u16, body: Seq<char>, method: Seq<char>) -> Failure {
    let start = "HTTP "@ + status_line(status) + " from server on '"@ + method + "'"@;
    if trimmed(body).len() == 0 {
        Failure::Transport(start)
    } else {
        Failure::Transport(start + ": "@ + first_chars(trimmed(body), 200))
    }
}

impl HttpTransport {
    /// A connection to the server at `url`, without a session. Slashes at the end of the URL
    /// are dropped.
    pub fn new(url: &str) -> (transport: HttpTransport)
        ensures
            transport@ == (Connection {
                base_url: trimmed_end(url@, only('/')),
                session_id: None,
            }),
    {
        HttpTransport { base_url: trim_end_char(url, '/').to_owned(), session_id: None }
    }

    /// The headers of the next request.
    pub fn headers(&self) -> (headers: Vec<Header>)
        ensures
            header_texts(headers@) == request_headers(self@),
    {
        let mut headers: Vec<Header> = Vec::new();
        headers.push(
            Header {
                name: "Accept".to_owned(),
                value: "application/json, text/event-stream".to_owned(),
            },
        );
        match &self.session_id {
            Some(session) => {
                headers.push(Header { name: "Mcp-Session-Id".to_owned(), value: session.clone() });
            },
            None => {},
        }
        assert(header_texts(headers@) =~= request_headers(self@));
        headers
    }

    /// Takes in the head of the response to a request: its status, the session that it names,
    /// and its content type.
    pub fn on_head(
        &mut self,
        status: u16,
        session: Option<&str>,
        content_type: Option<&str>,
        method: &str,
    ) -> (next: Head)
        ensures
            (final(self)@, next@) == head_outcome(
                old(self)@,
                status,
                text_given(session),
                text_given(content_type),
                method@,
            ),
    {
        if !(200 <= status && status <= 299) {
            if status == 404 && self.session_id.is_some() {
                self.session_id = None;
                let mut text = "MCP session expired (HTTP 404 on '".to_owned();
                text.append(method);
                text.append("'); reconnect to start a new session");
                return Head::Fail(McpError::Transport(text));
            }
            return Head::Refused;
        }
        match session {
            Some(session) => {
                self.session_id = Some(session.to_owned());
            },
            None => {},
        }
        let charset = match content_type {
            Some(content_type) => content_charset(content_type),
            None => None,
        };
        match charset {
            Some(name) => {
                if same(name.as_str(), "utf-8") || same(name.as_str(), "utf8") || same(
                    name.as_str(),
                    "us-ascii",
                ) || same(name.as_str(), "ascii") {
                    return Head::Body;
                }
                let mut text = "unsupported charset '".to_owned();
                text.append(name.as_str());
                text.append("' on '");
                text.append(method);
                text.append(
                    "': MCP bodies are UTF-8 (both application/json and text/event-stream mandate it)",
                );
                Head::Fail(McpError::Transport(text))
            },
            None => Head::Body,
        }
    }

    /// The error for a request that the server refused.
    pub fn refuse(status: u16, body: &str, method: &str) -> (error: McpError)
        requires
            is_status(status),
        ensures
            error@ == refusal(status, body@, method@),
    {
        let detail = trim(body);
        let mut text = "HTTP ".to_owned();
        text.append(status_text(status).as_str());
        text.append(" from server on '");
        text.append(method);
        text.append("'");
        if detail.unicode_len() > 0 {
            text.append(": ");
            text.append(take_chars(detail, 200));
        }
        McpError::Transport(text)
    }

    /// Closes the connection: the session to tear down, if there is one.
    pub fn close(&mut self) -> (session: Option<String>)
        ensures
            session == old(self).session_id,
            final(self)@ == (Connection { session_id: None, ..old(self)@ }),
    {
        self.session_id.take()
    }
}

// ---------------------------------------------------------------------------
// Laws of sessions
// ---------------------------------------------------------------------------

/// A session that a successful response names is replayed on the next request, until a response
/// names another one.
pub proof fn law_session_is_replayed(
    connection: Connection,
    status: u16,
    session: Option<Seq<char>>,
    content_type: Option<Seq<char>>,
    method: Seq<char>,
)
    requires
        200 <= status <= 299,
    ensures
        ({
            let after = head_outcome(connection, status, session, content_type, method).0;
            &&& session matches Some(id) ==> request_headers(after).contains(
                ("Mcp-Session-Id"@, id),
            )
            &&& session is None ==> request_headers(after) == request_headers(connection)
            &&& after.base_url == connection.base_url
        }),
{
    let after = head_outcome(connection, status, session, content_type, method).0;
    if let Some(id) = session {
        assert(request_headers(after)[1] == ("Mcp-Session-Id"@, id));
    }
}

/// The head of a response, and the method of the request that it answers.
pub struct ResponseHead {
    pub status: u16,
    pub session: Option<Seq<char>>,
    pub content_type: Option<Seq<char>>,
    pub method: Seq<char>,
}

/// The connection after a list of responses.
pub open spec fn after_responses(connection: Connection, heads: Seq<ResponseHead>) -> Connection
    decreases heads.len(),
{
    if heads.len() == 0 {
        connection
    } else {
        let head = heads.last();
        head_outcome(
            after_responses(connection, heads.drop_last()),
            head.status,
            head.session,
            head.content_type,
            head.method,
        ).0
    }
}

/// Over any list of responses, the session that the next request replays is the one that a
/// success named last, as long as no 404 has come since. What the other responses say does not
/// matter.
pub proof fn law_last_session_is_replayed(
    connection: Connection,
    heads: Seq<ResponseHead>,
    named: int,
    id: Seq<char>,
)
    requires
        0 <= named < heads.len(),
        200 <= heads[named].status <= 299,
        heads[named].session == Some(id),
        forall|i: int|
            named < i < heads.len() ==> !(200 <= (#[trigger] heads[i]).status <= 299
                && heads[i].session is Some) && heads[i].status != 404,
    ensures
        after_responses(connection, heads) == (Connection {
            session_id: Some(id),
            ..connection
        }),
        request_headers(after_responses(connection, heads)).contains(("Mcp-Session-Id"@, id)),
    decreases heads.len(),
{
    lemma_base_url_stays(connection, heads.drop_last());
    let after = after_responses(connection, heads);
    if named < heads.len() - 1 {
        let rest = heads.drop_last();
        assert forall|i: int| named < i < rest.len() implies !(200 <= (#[trigger] rest[i]).status
            <= 299 && rest[i].session is Some) && rest[i].status != 404 by {
            assert(rest[i] == heads[i]);
        }
        law_last_session_is_replayed(connection, rest, named, id);
        assert(heads[heads.len() - 1] == heads.last());
    }
    assert(request_headers(after)[1] == ("Mcp-Session-Id"@, id));
}

/// Responses do not move the server.
proof fn lemma_base_url_stays(connection: Connection, heads: Seq<ResponseHead>)
    ensures
        after_responses(connection, heads).base_url == connection.base_url,
    decreases heads.len(),
{
    if heads.len() > 0 {
        lemma_base_url_stays(connection, heads.drop_last());
    }
}

/// An expired session is forgotten: the next request goes out without one, and a second 404 is
/// an ordinary refusal.
pub proof fn law_expired_session_is_forgotten(
    connection: Connection,
    session: Option<Seq<char>>,
    content_type: Option<Seq<char>>,
    method: Seq<char>,
)
    requires
        connection.session_id is Some,
    ensures
        ({
            let first = head_outcome(connection, 404, session, content_type, method);
            let second = head_outcome(first.0, 404, session, content_type, method);
            &&& first.1 == HeadView::Fail(session_expired(method))
            &&& request_headers(first.0).len() == 1
            &&& second == (first.0, HeadView::Refused)
        }),
{
}

/// A refused request leaves the connection as it was, whatever session the refusal names,
/// unless it reports the session as expired.
pub proof fn law_refusal_changes_nothing(
    connection: Connection,
    status: u16,
    session: Option<Seq<char>>,
    content_type: Option<Seq<char>>,
    method: Seq<char>,
)
    requires
        status < 200 || status > 299,
        status != 404 || connection.session_id is None,
    ensures
        head_outcome(connection, status, session, content_type, method) == (
            connection,
            HeadView::Refused,
        ),
{
}

/// A message without white space at its ends goes through a line unchanged.
pub proof fn law_line_carries_its_message(message: Seq<char>)
    requires
        trimmed(message) == message,
    ensures
        trimmed(message.push('\n')) == message,
{
    let line = message.push('\n');
    lemma_trimmed_lengths(message, white());
    lemma_trimmed_lengths(trimmed_start(message, white()), white());
    assert(trimmed_start(message, white()) == message);
    assert(line.drop_last() =~= message);
    if message.len() == 0 {
        assert(line.drop_first() =~= message);
        assert(trimmed_start(line, white()) == trimmed_start(message, white()));
    } else {
        if white()(message[0]) {
            lemma_trimmed_lengths(message.drop_first(), white());
        }
        assert(trimmed_start(line, white()) == line);
        assert(trimmed_end(line, white()) == trimmed_end(message, white()));
    }
}

/// The status decides: every status from 200 to 299 has a body to read, where nothing is said of
/// its charset, so that an acknowledgement without a body reaches the reading of it. Every other
/// status is a refusal, but for a 404 to a session, which is an expired one.
pub proof fn law_status_decides(
    connection: Connection,
    status: u16,
    session: Option<Seq<char>>,
    content_type: Option<Seq<char>>,
    method: Seq<char>,
)
    requires
        content_type matches Some(text) ==> !text.contains(';'),
    ensures
        ({
            let next = head_outcome(connection, status, session, content_type, method).1;
            &&& 200 <= status <= 299 ==> next == HeadView::Body
            &&& status < 200 || status > 299 ==> next == if status == 404
                && connection.session_id is Some {
                HeadView::Fail(
                    Failure::Transport(
                        "MCP session expired (HTTP 404 on '"@ + method
                            + "'); reconnect to start a new session"@,
                    ),
                )
            } else {
                HeadView::Refused
            }
        }),
{
    if let Some(text) = content_type {
        law_separator_ends_a_piece(text, ';', Seq::empty());
        assert(pieces(text, ';').drop_first() =~= Seq::<Seq<char>>::empty());
    }
}

/// The charset decides: it is read from the parameter of the content type, with or without
/// quotes and in either case, and a body in any charset but UTF-8 and ASCII is refused by name.
pub proof fn law_charset_decides(
    connection: Connection,
    status: u16,
    session: Option<Seq<char>>,
    media: Seq<char>,
    name: Seq<char>,
    method: Seq<char>,
)
    requires
        200 <= status <= 299,
        !media.contains(';'),
        !name.contains(';'),
        name.len() > 0,
        name[0] != '"' && !is_white_space(name[0]),
        name.last() != '"' && !is_white_space(name.last()),
    ensures
        declared_charset(media + "; charset="@ + name) == Some(lowered(name)),
        declared_charset(media + "; charset="@ + seq!['"'] + name + seq!['"']) == Some(
            lowered(name),
        ),
        head_outcome(
            connection,
            status,
            session,
            Some(media + "; charset="@ + name),
            method,
        ).1 == if lowered(name) == "utf-8"@ || lowered(name) == "utf8"@ || lowered(name)
            == "us-ascii"@ || lowered(name) == "ascii"@ {
            HeadView::Body
        } else {
            HeadView::Fail(
                Failure::Transport(
                    "unsupported charset '"@ + lowered(name) + "' on '"@ + method
                        + "': MCP bodies are UTF-8 (both application/json and text/event-stream mandate it)"@,
                ),
            )
        },
{
    let quoted = seq!['"'] + name + seq!['"'];
    lemma_charset_read(media, name);
    lemma_charset_read(media, quoted);
    assert(media + "; charset="@ + seq!['"'] + name + seq!['"'] =~= media + "; charset="@ + quoted);
    law_trimmed_both_is_the_middle('"', 1, name, 1);
    let one = Seq::new(1, |i: int| '"');
    assert(one =~= seq!['"']);
}

/// The charset is read from behind its label.
proof fn lemma_charset_read(media: Seq<char>, value: Seq<char>)
    requires
        !media.contains(';'),
        !value.contains(';'),
        value.len() > 0,
        !is_white_space(value.last()),
    ensures
        declared_charset(media + "; charset="@ + value) == Some(
            lowered(trimmed_both(value, only('"'))),
        ),
{
    reveal_strlit("; charset=");
    reveal_strlit("charset=");
    let labelled = "charset="@ + value;
    let parameter = seq![' '] + labelled;
    let none = Seq::<char>::empty();
    assert(media + "; charset="@ + value =~= media + seq![';'] + parameter);
    assert forall|i: int| 0 <= i < parameter.len() implies parameter[i] != ';' by {
        if i > 8 {
            assert(parameter[i] == value[i - 9]);
            assert(value.contains(value[i - 9]));
        }
    }
    assert(!parameter.contains(';'));
    law_separator_ends_a_piece(media, ';', parameter);
    law_separator_ends_a_piece(parameter, ';', none);
    assert((seq![media] + seq![parameter]).drop_first() =~= seq![parameter]);
    assert(labelled.last() == value.last());
    assert(parameter =~= seq![' '] + labelled + none);
    law_trimmed_is_the_middle(seq![' '], labelled, none);
    law_prefix_is_removed("charset="@, value, labelled);
}

/// Every request accepts both framings, and carries the session exactly where there is one.
pub proof fn law_request_carries_its_headers(connection: Connection)
    ensures
        request_headers(connection)[0] == ("Accept"@, "application/json, text/event-stream"@),
        connection.session_id matches Some(id) ==> request_headers(connection).len() == 2
            && request_headers(connection)[1] == ("Mcp-Session-Id"@, id),
        connection.session_id is None ==> request_headers(connection).len() == 1,
{
}

/// A refusal names the status and the method, and quotes what the server says, up to 200
/// characters of it.
pub proof fn law_refusal_quotes_the_server(
    status: u16,
    before: Seq<char>,
    said: Seq<char>,
    after: Seq<char>,
    method: Seq<char>,
)
    requires
        forall|i: int| 0 <= i < before.len() ==> is_white_space(#[trigger] before[i]),
        forall|i: int| 0 <= i < after.len() ==> is_white_space(#[trigger] after[i]),
        said.len() > 0 ==> !is_white_space(said[0]) && !is_white_space(said.last()),
    ensures
        said.len() == 0 ==> refusal(status, before + said + after, method) == Failure::Transport(
            "HTTP "@ + status_line(status) + " from server on '"@ + method + "'"@,
        ),
        said.len() > 0 ==> refusal(status, before + said + after, method) == Failure::Transport(
            "HTTP "@ + status_line(status) + " from server on '"@ + method + "'"@ + ": "@
                + if said.len() <= 200 {
                said
            } else {
                said.take(200)
            },
        ),
{
    law_trimmed_is_the_middle(before, said, after);
}

/// A connection shows where it goes and its session.
pub proof fn law_connection_shows_its_parts(transport: HttpTransport)
    ensures
        transport@.base_url == transport.base_url@,
        transport@.session_id is Some == transport.session_id is Some,
        transport.session_id matches Some(id) ==> transport@.session_id == Some(id@),
{
}

/// A parameter that names no charset is passed over, and the first that does counts.
pub proof fn law_first_charset_counts(parameter: Seq<char>, rest: Seq<Seq<char>>)
    ensures
        first_charset(Seq::empty()) is None,
        !"charset="@.is_prefix_of(trimmed(parameter)) ==> first_charset(seq![parameter] + rest)
            == first_charset(rest),
        "charset="@.is_prefix_of(trimmed(parameter)) ==> first_charset(seq![parameter] + rest)
            == Some(
            lowered(
                trimmed_both(trimmed(parameter).skip("charset="@.len() as int), only('"')),
            ),
        ),
{
    assert((seq![parameter] + rest).drop_first() =~= rest);
    assert((seq![parameter] + rest)[0] == parameter);
}

/// The parameters of a content type are what stands behind its semicolons.
pub proof fn law_parameters_are_behind_semicolons(media: Seq<char>, rest: Seq<char>)
    requires
        !media.contains(';'),
    ensures
        declared_charset(media) is None,
        declared_charset(media + seq![';'] + rest) == first_charset(pieces(rest, ';')),
{
    law_separator_ends_a_piece(media, ';', rest);
    assert((seq![media] + pieces(rest, ';')).drop_first() =~= pieces(rest, ';'));
    assert(seq![media].drop_first() =~= Seq::<Seq<char>>::empty());
}

/// A decision shows its error, and a header its name and value.
pub proof fn law_decision_shows_its_error(error: McpError, headers: Seq<Header>, i: int)
    ensures
        Head::Fail(error)@ == HeadView::Fail(error@),
        Head::Refused@ == HeadView::Refused,
        Head::Body@ == HeadView::Body,
        header_texts(headers).len() == headers.len(),
        0 <= i < headers.len() ==> header_texts(headers)[i] == (headers[i].name@, headers[i].value@),
{
}

} // verus!
