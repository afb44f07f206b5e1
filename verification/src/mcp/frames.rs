//! Single frames: reading an event's payload, and telling a request's response from the other
//! messages that a server sends.
use crate::json::{
    integer_of, json_document, json_of, json_of_option, member, member_of, parse, text_of, unmarked,
    Json,
};
use crate::mcp::types::{Fault, JsonRpcError, JsonRpcResponse, Reply};
use crate::text::{
    after_prefix, join, joined, lines, lines_of, strip_prefix, text_option, texts, trim, trimmed,
};
use vstd::prelude::*;

verus! {

// ---------------------------------------------------------------------------
// The members of a frame
// ---------------------------------------------------------------------------

/// The `id` of a frame.
#[derive(Clone, Copy, PartialEq, Eq, Structural)]
pub enum FrameId {
    /// There is none, or it is null.
    Absent,
    /// It is a number that a request could have.
    Number(u64),
    /// It is anything else.
    Unusable,
}

/// The `error` of a frame.
pub enum FrameError {
    /// There is none.
    Absent,
    /// It is null.
    Null,
    /// It has a code and a message.
    Given(JsonRpcError),
    /// It is anything else.
    Malformed,
}

/// The members of a JSON object that tell the kinds of JSON-RPC message apart.
pub struct Frame {
    /// The `jsonrpc` member, where it is a string.
    pub jsonrpc: Option<String>,
    /// Whether there is a `method` member.
    pub has_method: bool,
    /// The `method` member, where it is a string.
    pub method: Option<String>,
    pub id: FrameId,
    /// Whether there is a `result` member.
    pub has_result: bool,
    /// The `result` member, where it is not null.
    pub result: Option<serde_json::Value>,
    pub error: FrameError,
}

/// What a [`FrameError`] says.
pub enum FrameFault {
    Absent,
    Null,
    Given(Fault),
    Malformed,
}

/// What a [`Frame`] says.
pub struct FrameView {
    pub jsonrpc: Option<Seq<char>>,
    pub has_method: bool,
    pub method: Option<Seq<char>>,
    pub id: FrameId,
    pub has_result: bool,
    pub result: Option<Json>,
    pub error: FrameFault,
}

impl View for FrameError {
    type V = FrameFault;

    open spec fn view(&self) -> FrameFault {
        match *self {
            FrameError::Absent => FrameFault::Absent,
            FrameError::Null => FrameFault::Null,
            FrameError::Given(error) => FrameFault::Given(error@),
            FrameError::Malformed => FrameFault::Malformed,
        }
    }
}

impl View for Frame {
    type V = FrameView;

    open spec fn view(&self) -> FrameView {
        FrameView {
            jsonrpc: text_option(self.jsonrpc),
            has_method: self.has_method,
            method: text_option(self.method),
            id: self.id,
            has_result: self.has_result,
            result: json_of_option(self.result),
            error: self.error@,
        }
    }
}

/// The text of a member, where there is one and it is a string.
pub open spec fn text_member(value: Json, key: Seq<char>) -> Option<Seq<char>> {
    match member_of(value, key) {
        Some(inner) => text_of(inner),
        None => None,
    }
}

/// A member, where there is one and it is not null.
pub open spec fn present_member(value: Json, key: Seq<char>) -> Option<Json> {
    match member_of(value, key) {
        Some(Json::Null) => None,
        found => found,
    }
}

/// The `id` that a frame carries.
pub open spec fn id_in(value: Json) -> FrameId {
    match present_member(value, "id"@) {
        Some(inner) => match integer_of(inner, 0, u64::MAX as int) {
            Some(n) => FrameId::Number(n as u64),
            None => FrameId::Unusable,
        },
        None => FrameId::Absent,
    }
}

/// The JSON-RPC error that an `error` member spells.
pub open spec fn fault_in(error: Json) -> Option<Fault> {
    match (member_of(error, "code"@), text_member(error, "message"@)) {
        (Some(code), Some(message)) => match integer_of(code, i64::MIN as int, i64::MAX as int) {
            Some(n) => Some(
                Fault { code: n as i64, message, data: present_member(error, "data"@) },
            ),
            None => None,
        },
        _ => None,
    }
}

/// The `error` that a frame carries.
pub open spec fn error_in(value: Json) -> FrameFault {
    match member_of(value, "error"@) {
        None => FrameFault::Absent,
        Some(Json::Null) => FrameFault::Null,
        Some(error) => match fault_in(error) {
            Some(fault) => FrameFault::Given(fault),
            None => FrameFault::Malformed,
        },
    }
}

/// The members of `value` that tell the kinds of message apart.
pub open spec fn frame_in(value: Json) -> FrameView {
    FrameView {
        jsonrpc: text_member(value, "jsonrpc"@),
        has_method: member_of(value, "method"@) is Some,
        method: text_member(value, "method"@),
        id: id_in(value),
        has_result: member_of(value, "result"@) is Some,
        result: present_member(value, "result"@),
        error: error_in(value),
    }
}

/// Copies a member that is a string.
fn read_text(value: &serde_json::Value, key: &str) -> (text: Option<String>)
    ensures
        text_option(text) == text_member(json_of(*value), key@),
{
    match member(value, key) {
        Some(inner) => match inner.as_str() {
            Some(text) => Some(text.to_owned()),
            None => None,
        },
        None => None,
    }
}

/// Copies a member that is not null.
fn read_present(value: &serde_json::Value, key: &str) -> (inner: Option<serde_json::Value>)
    ensures
        json_of_option(inner) == present_member(json_of(*value), key@),
{
    match member(value, key) {
        Some(inner) => if inner.is_null() {
            None
        } else {
            Some(inner.clone())
        },
        None => None,
    }
}

fn read_id(value: &serde_json::Value) -> (id: FrameId)
    ensures
        id == id_in(json_of(*value)),
{
    match member(value, "id") {
        Some(inner) => if inner.is_null() {
            FrameId::Absent
        } else {
            match inner.as_u64() {
                Some(n) => FrameId::Number(n),
                None => FrameId::Unusable,
            }
        },
        None => FrameId::Absent,
    }
}

fn read_fault(error: &serde_json::Value) -> (fault: Option<JsonRpcError>)
    ensures
        fault is Some == fault_in(json_of(*error)) is Some,
        fault matches Some(f) ==> fault_in(json_of(*error)) == Some(f@),
{
    let message = read_text(error, "message");
    match (member(error, "code"), message) {
        (Some(code), Some(message)) => match code.as_i64() {
            Some(n) => {
                Some(JsonRpcError { code: n, message, data: read_present(error, "data") })
            },
            None => None,
        },
        _ => None,
    }
}

fn read_error(value: &serde_json::Value) -> (error: FrameError)
    ensures
        error@ == error_in(json_of(*value)),
{
    match member(value, "error") {
        Some(inner) => if inner.is_null() {
            FrameError::Null
        } else {
            match read_fault(inner) {
                Some(fault) => FrameError::Given(fault),
                None => FrameError::Malformed,
            }
        },
        None => FrameError::Absent,
    }
}

/// Reads the members of a JSON value that tell the kinds of message apart.
pub fn read_frame(value: &serde_json::Value) -> (frame: Frame)
    ensures
        frame@ == frame_in(json_of(*value)),
{
    Frame {
        jsonrpc: read_text(value, "jsonrpc"),
        has_method: member(value, "method").is_some(),
        method: read_text(value, "method"),
        id: read_id(value),
        has_result: member(value, "result").is_some(),
        result: read_present(value, "result"),
        error: read_error(value),
    }
}

// ---------------------------------------------------------------------------
// The response to a request
// ---------------------------------------------------------------------------

/// The response that `frame` is to the request `request_id`.
///
/// A response carries a result or an error and no method: a notification, a request of the
/// server's own and a bare acknowledgement are none. It names its JSON-RPC version, its error
/// is well-formed, and its id is that of the request. An absent id is tolerated: JSON-RPC
/// allows a null id on an error that the server could not attribute to a request.
pub open spec fn reply_in(frame: FrameView, request_id: u64) -> Option<Reply> {
    let error = match frame.error {
        FrameFault::Given(fault) => Some(fault),
        _ => None,
    };
    let id = match frame.id {
        FrameId::Number(n) => Some(n),
        _ => None,
    };
    if !frame.has_method && (frame.has_result || !(frame.error is Absent)) && frame.jsonrpc is Some
        && !(frame.error is Malformed) && (frame.id is Absent || frame.id == FrameId::Number(
        request_id,
    )) {
        Some(Reply { jsonrpc: frame.jsonrpc->0, id, result: frame.result, error })
    } else {
        None
    }
}

/// A message with a method, such as a notification or a request of the server's own, is never
/// taken for a response, whatever else it carries; and neither is a response to another request.
pub proof fn law_only_its_response_answers_a_request(frame: FrameView, request_id: u64)
    ensures
        frame.has_method ==> reply_in(frame, request_id) is None,
        frame.id is Number && frame.id != FrameId::Number(request_id) ==> reply_in(
            frame,
            request_id,
        ) is None,
        !frame.has_result && frame.error is Absent ==> reply_in(frame, request_id) is None,
{
}

/// An error of the server's reaches the caller as it is.
pub proof fn law_server_error_reaches_the_caller(frame: FrameView, request_id: u64)
    requires
        !frame.has_method,
        frame.jsonrpc is Some,
        frame.error is Given,
        frame.id is Absent || frame.id == FrameId::Number(request_id),
    ensures
        reply_in(frame, request_id) matches Some(reply) && reply.error == Some(
            frame.error->Given_0,
        ),
{
}

/// Decides whether `frame` is the response to the request `request_id`.
pub fn frame_response(frame: Frame, request_id: u64) -> (response: Option<JsonRpcResponse>)
    ensures
        response is Some == reply_in(frame@, request_id) is Some,
        response matches Some(r) ==> reply_in(frame@, request_id) == Some(r@),
{
    if frame.has_method {
        return None;
    }
    let id = match frame.id {
        FrameId::Absent => None,
        FrameId::Number(n) => if n == request_id {
            Some(n)
        } else {
            return None;
        },
        FrameId::Unusable => {
            return None;
        },
    };
    let error = match frame.error {
        FrameError::Absent => if frame.has_result {
            None
        } else {
            return None;
        },
        FrameError::Null => None,
        FrameError::Given(error) => Some(error),
        FrameError::Malformed => {
            return None;
        },
    };
    match frame.jsonrpc {
        Some(jsonrpc) => Some(JsonRpcResponse { jsonrpc, id, result: frame.result, error }),
        None => None,
    }
}

/// The response that the text `payload` is to the request `request_id`.
pub open spec fn reply_to(payload: Seq<char>, request_id: u64) -> Option<Reply> {
    match json_document(payload) {
        Some(value) => reply_in(frame_in(value), request_id),
        None => None,
    }
}

/// Decides whether `payload` is the response to the request `request_id`.
pub fn response_for(payload: &str, request_id: u64) -> (response: Option<JsonRpcResponse>)
    ensures
        response is Some == reply_to(payload@, request_id) is Some,
        response matches Some(r) ==> reply_to(payload@, request_id) == Some(r@),
        response is Some ==> unmarked(payload@),
{
    match parse(payload) {
        Some(value) => frame_response(read_frame(&value), request_id),
        None => None,
    }
}

// ---------------------------------------------------------------------------
// The payload of an event
// ---------------------------------------------------------------------------

/// The value of a field: one space after the colon is no part of it.
pub open spec fn field_value(after_colon: Seq<char>) -> Seq<char> {
    match after_prefix(after_colon, " "@) {
        Some(value) => value,
        None => after_colon,
    }
}

/// The data of the lines among `lines` that start with `data:`.
pub open spec fn data_of(lines: Seq<Seq<char>>) -> Seq<Seq<char>>
    decreases lines.len(),
{
    if lines.len() == 0 {
        Seq::empty()
    } else {
        match after_prefix(lines.last(), "data:"@) {
            Some(data) => data_of(lines.drop_last()).push(field_value(data)),
            None => data_of(lines.drop_last()),
        }
    }
}

/// The payload of an event: its data lines joined by line feeds and trimmed. An event without
/// data, or with blank data, has none.
pub open spec fn payload_of(event: Seq<char>) -> Option<Seq<char>> {
    let payload = trimmed(joined(data_of(lines_of(event)), "\n"@));
    if payload.len() == 0 {
        None
    } else {
        Some(payload)
    }
}

/// Joins the `data:` lines of an event into its payload.
pub fn event_payload(event: &str) -> (payload: Option<String>)
    ensures
        text_option(payload) == payload_of(event@),
{
    let rows = lines(event);
    let mut data: Vec<&str> = Vec::new();
    let mut i: usize = 0;
    while i < rows.len()
        invariant
            i <= rows.len(),
            texts(rows@) == lines_of(event@),
            texts(data@) == data_of(texts(rows@).take(i as int)),
        decreases rows.len() - i,
    {
        let ghost before = texts(rows@).take(i as int);
        let ghost after = texts(rows@).take(i + 1);
        proof {
            assert(after.drop_last() =~= before);
            assert(after.last() == rows@[i as int]@);
        }
        match strip_prefix(rows[i], "data:") {
            Some(rest) => {
                let ghost held = data@;
                let piece = match strip_prefix(rest, " ") {
                    Some(value) => value,
                    None => rest,
                };
                data.push(piece);
                assert(texts(data@) =~= texts(held).push(piece@));
            },
            None => {},
        }
        i = i + 1;
    }
    proof {
        assert(texts(rows@).take(i as int) =~= texts(rows@));
    }
    let whole = join(data.as_slice(), "\n");
    let payload = trim(whole.as_str());
    if payload.unicode_len() == 0 {
        None
    } else {
        Some(payload.to_owned())
    }
}

} // verus!
