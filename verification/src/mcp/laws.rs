//! What reading a response promises, from the text of the events to the outcome.
use crate::json::{json_document, json_of, Json};
use crate::mcp::body::{body_outcome, progress, step_outcome, without_mark};
use crate::mcp::frames::{data_of, payload_of, reply_to};
use crate::mcp::plain::{lemma_ascii_at, lemma_take_next};
use crate::mcp::scan::{
    blank_at, boundary, lemma_boundary_at, lemma_no_boundary, lemma_search_extends,
    lemma_search_shift, search, Search,
};
use crate::mcp::skipped::{counted, described, kind_of, listed, total, Entry};
use crate::mcp::types::{
    outcome, Failure, Fault, JsonRpcError, JsonRpcResponse, McpError, Reply,
};
use crate::text::{
    byte_len, decimal, is_white_space, joined, law_joining_adds_one_part,
    law_line_feed_ends_a_line, law_prefix_is_removed, law_trimmed_is_the_middle,
    lemma_encode_concat, lemma_encode_push, lines_of, trimmed,
};
use vstd::prelude::*;
use vstd::utf8::{
    char_u32_cast, encode_utf8, encode_utf8_decode_utf8, encode_utf8_valid_utf8,
    valid_utf8,
};

verus! {

// ---------------------------------------------------------------------------
// From lines to the payload
// ---------------------------------------------------------------------------

/// The text of lines, each ended by a line feed.
pub open spec fn ended_lines(lines: Seq<Seq<char>>) -> Seq<char>
    decreases lines.len(),
{
    if lines.len() == 0 {
        Seq::empty()
    } else {
        ended_lines(lines.drop_last()) + lines.last() + seq!['\n']
    }
}

/// The lines of a text of ended lines are those lines.
pub proof fn law_ended_lines_are_its_lines(lines: Seq<Seq<char>>, rest: Seq<char>)
    requires
        forall|i: int|
            0 <= i < lines.len() ==> !(#[trigger] lines[i]).contains('\n') && (lines[i].len() > 0
                ==> lines[i].last() != '\r'),
    ensures
        lines_of(ended_lines(lines) + rest) == lines + lines_of(rest),
    decreases lines.len(),
{
    if lines.len() == 0 {
        assert(ended_lines(lines) + rest =~= rest);
        assert(lines + lines_of(rest) =~= lines_of(rest));
    } else {
        let head = lines.drop_last();
        let last = lines[lines.len() - 1];
        let tail = last + seq!['\n'] + rest;
        assert forall|i: int| 0 <= i < head.len() implies !(#[trigger] head[i]).contains('\n') && (
        head[i].len() > 0 ==> head[i].last() != '\r') by {
            assert(head[i] == lines[i]);
        }
        assert(!last.contains('\n'));
        law_ended_lines_are_its_lines(head, tail);
        law_line_feed_ends_a_line(last, rest);
        assert(ended_lines(lines) + rest =~= ended_lines(head) + tail);
        assert(lines + lines_of(rest) =~= head + (seq![last] + lines_of(rest)));
    }
}

/// A line that starts with `data:` adds its data, without the one space that may follow the
/// colon. Any other line adds nothing.
pub proof fn law_data_line_adds_its_data(lines: Seq<Seq<char>>, data: Seq<char>, other: Seq<char>)
    ensures
        data_of(Seq::empty()) == Seq::<Seq<char>>::empty(),
        data_of(lines.push("data: "@ + data)) == data_of(lines).push(data),
        !(data.len() > 0 && data[0] == ' ') ==> data_of(lines.push("data:"@ + data)) == data_of(
            lines,
        ).push(data),
        !"data:"@.is_prefix_of(other) ==> data_of(lines.push(other)) == data_of(lines),
{
    reveal_strlit("data:");
    reveal_strlit("data: ");
    reveal_strlit(" ");
    let spaced = "data: "@ + data;
    let tight = "data:"@ + data;
    assert(spaced =~= "data:"@ + (" "@ + data));
    law_prefix_is_removed("data:"@, " "@ + data, spaced);
    law_prefix_is_removed("data:"@, data, tight);
    law_prefix_is_removed(" "@, data, data);
    assert(lines.push(spaced).drop_last() =~= lines);
    assert(lines.push(tight).drop_last() =~= lines);
    assert(lines.push(other).drop_last() =~= lines);
    if " "@.is_prefix_of(data) {
        assert(data[0] == " "@[0]);
    }
}

/// The payload of an event is what is left of its joined data without the white space around
/// it, of whatever length. There is none only where that is nothing.
pub proof fn law_payload_is_the_data(
    event: Seq<char>,
    before: Seq<char>,
    middle: Seq<char>,
    after: Seq<char>,
)
    requires
        joined(data_of(lines_of(event)), "\n"@) == before + middle + after,
        forall|i: int| 0 <= i < before.len() ==> is_white_space(#[trigger] before[i]),
        forall|i: int| 0 <= i < after.len() ==> is_white_space(#[trigger] after[i]),
        middle.len() > 0 ==> !is_white_space(middle[0]) && !is_white_space(middle.last()),
    ensures
        payload_of(event) == if middle.len() > 0 {
            Some(middle)
        } else {
            None
        },
{
    law_trimmed_is_the_middle(before, middle, after);
}

/// The payload of an event of one data line is that data.
pub proof fn law_one_data_line_is_the_payload(data: Seq<char>)
    requires
        data.len() > 0,
        !data.contains('\n'),
        !is_white_space(data[0]),
        !is_white_space(data.last()),
    ensures
        payload_of("data: "@ + data) == Some(data),
{
    reveal_strlit("data: ");
    let event = "data: "@ + data;
    let none = Seq::<char>::empty();
    let no_lines = Seq::<Seq<char>>::empty();
    assert forall|i: int| 0 <= i < event.len() implies event[i] != '\n' by {
        if i >= "data: "@.len() {
            assert(event[i] == data[i - "data: "@.len()]);
            assert(data.contains(event[i]));
        }
    }
    assert(!event.contains('\n'));
    law_line_feed_ends_a_line(event, none);
    law_data_line_adds_its_data(no_lines, data, none);
    assert(seq![event] =~= no_lines.push(event));
    assert(seq![data] =~= no_lines.push(data));
    law_joining_adds_one_part(no_lines, data, "\n"@);
    assert(data =~= none + data + none);
    law_payload_is_the_data(event, none, data, none);
}

// ---------------------------------------------------------------------------
// From events to the outcome
// ---------------------------------------------------------------------------

/// A text that can stand as one event: there is no blank line in it or at its end.
pub open spec fn is_event(event: Seq<char>) -> bool {
    &&& forall|i: int|
        0 <= i < event.len() - 1 ==> !(#[trigger] event[i] == '\n' && event[i + 1] == '\n')
    &&& event.len() > 0 ==> event.last() != '\n'
}

/// The bytes of an event, ended by a blank line.
pub open spec fn framed(event: Seq<char>) -> Seq<u8> {
    encode_utf8(event) + seq![0x0au8, 0x0a]
}

/// The first boundary of a framed event is where the event ends.
proof fn lemma_framed_boundary(event: Seq<char>, rest: Seq<u8>)
    requires
        is_event(event),
    ensures
        boundary(framed(event) + rest, 0) == Some(byte_len(event) as int),
        (framed(event) + rest).subrange(0, byte_len(event) as int) == encode_utf8(event),
{
    let bytes = framed(event) + rest;
    let text = encode_utf8(event);
    let n = byte_len(event) as int;
    assert(bytes.subrange(0, n) =~= text);
    assert(bytes[n] == 0x0a && bytes[n + 1] == 0x0a);
    assert forall|i: int| 0 <= i < n implies !#[trigger] blank_at(bytes, i) by {
        if blank_at(bytes, i) {
            assert(text[i] == 0x0a);
            let k = lemma_ascii_at(event, i);
            char_u32_cast(event[k], 0x0a);
            assert(event[k] == '\n');
            assert(event.take(k + 1) =~= event.take(k).push('\n'));
            lemma_encode_push(event.take(k), '\n');
            if i + 1 < n {
                assert(text[i + 1] == 0x0a);
                let m = lemma_ascii_at(event, i + 1);
                char_u32_cast(event[m], 0x0a);
                lemma_take_next(event, k, m);
                assert(event[k] == '\n' && event[k + 1] == '\n');
            } else {
                lemma_whole_prefix(event, k + 1);
            }
        }
    }
    lemma_boundary_at(bytes, 0, n);
}

/// A prefix whose encoding is as long as that of the text is the text.
proof fn lemma_whole_prefix(text: Seq<char>, k: int)
    requires
        0 <= k <= text.len(),
        byte_len(text.take(k)) == byte_len(text),
    ensures
        k == text.len(),
{
    if k < text.len() {
        assert(text.take(text.len() as int) =~= text);
        crate::text::lemma_prefix_bytes(text, k, text.len() as int);
    }
}

/// An event that answers the request is the answer, of whatever length it is and whatever
/// follows it: it is returned as soon as its blank line is there, and is what the whole body
/// comes to.
pub proof fn law_answering_event_is_the_answer(
    event: Seq<char>,
    payload: Seq<char>,
    reply: Reply,
    rest: Seq<u8>,
    request_id: u64,
    method: Seq<char>,
    status: u16,
)
    requires
        is_event(event),
        payload_of(event) == Some(payload),
        reply_to(payload, request_id) == Some(reply),
    ensures
        search(framed(event) + rest, 0, request_id, Seq::empty()) == Search::Answered(reply),
        progress(framed(event) + rest, request_id, method) == Ok::<Option<Reply>, Failure>(
            Some(reply),
        ),
        body_outcome(framed(event) + rest, request_id, method, status) == Ok::<Reply, Failure>(
            reply,
        ),
{
    lemma_framed_boundary(event, rest);
    encode_utf8_valid_utf8(event);
    encode_utf8_decode_utf8(event);
}

/// A response in one data line is the answer.
pub proof fn law_response_in_a_data_line_is_the_answer(
    data: Seq<char>,
    rest: Seq<u8>,
    request_id: u64,
    method: Seq<char>,
    status: u16,
)
    requires
        data.len() > 0,
        !data.contains('\n'),
        !is_white_space(data[0]),
        !is_white_space(data.last()),
        reply_to(data, request_id) is Some,
    ensures
        encode_utf8("data: "@ + data + "\n\n"@) == framed("data: "@ + data),
        search(encode_utf8("data: "@ + data + "\n\n"@) + rest, 0, request_id, Seq::empty())
            == Search::Answered(reply_to(data, request_id)->0),
        progress(encode_utf8("data: "@ + data + "\n\n"@) + rest, request_id, method) == Ok::<
            Option<Reply>,
            Failure,
        >(reply_to(data, request_id)),
        body_outcome(
            encode_utf8("data: "@ + data + "\n\n"@) + rest,
            request_id,
            method,
            status,
        ) == Ok::<Reply, Failure>(reply_to(data, request_id)->0),
{
    reveal_strlit("data: ");
    reveal_strlit("\n\n");
    let event = "data: "@ + data;
    assert forall|i: int| 0 <= i < event.len() implies #[trigger] event[i] != '\n' by {
        if i >= "data: "@.len() {
            assert(event[i] == data[i - "data: "@.len()]);
            assert(data.contains(event[i]));
        }
    }
    assert("\n\n"@ =~= Seq::<char>::empty().push('\n').push('\n'));
    assert(event + "\n\n"@ =~= event.push('\n').push('\n'));
    lemma_encode_push(event, '\n');
    lemma_encode_push(event.push('\n'), '\n');
    assert(10u32 as u8 & 0x7f == 10u8) by (bit_vector);
    assert(encode_utf8(event + "\n\n"@) =~= framed(event));
    law_one_data_line_is_the_payload(data);
    law_answering_event_is_the_answer(
        event,
        data,
        reply_to(data, request_id)->0,
        rest,
        request_id,
        method,
        status,
    );
}

/// What an event that does not answer carries is counted by its kind, and one that carries
/// nothing is not counted: after one such event the search stands behind it.
pub proof fn law_passed_event_is_counted(event: Seq<char>, request_id: u64)
    requires
        is_event(event),
        payload_of(event) matches Some(payload) ==> reply_to(payload, request_id) is None,
    ensures
        search(framed(event), 0, request_id, Seq::empty()) == (Search::Open {
            start: framed(event).len() as int,
            tally: match payload_of(event) {
                Some(payload) => seq![(kind_of(payload), 1nat)],
                None => Seq::empty(),
            },
        }),
{
    let none = Seq::<u8>::empty();
    let bytes = framed(event);
    let n = byte_len(event) as int;
    lemma_framed_boundary(event, none);
    assert(bytes + none =~= bytes);
    encode_utf8_valid_utf8(event);
    encode_utf8_decode_utf8(event);
    lemma_no_boundary(bytes, n + 2);
    let empty = Seq::<Entry>::empty();
    let tally = match payload_of(event) {
        Some(payload) => seq![(kind_of(payload), 1nat)],
        None => empty,
    };
    if let Some(payload) = payload_of(event) {
        assert(counted(empty, kind_of(payload)) =~= tally);
    }
    assert(bytes.subrange(0, n) == encode_utf8(event));
    assert(search(bytes, n + 2, request_id, tally) == (Search::Open { start: n + 2, tally }));
    assert(search(bytes, 0, request_id, empty) == search(bytes, n + 2, request_id, tally));
}

/// An event that does not answer the request is passed over, whatever it carries: what comes
/// after it is answered, or not, as it would be alone. Applied again and again, this says it of
/// any number of events.
pub proof fn law_other_event_is_passed_over(
    event: Seq<char>,
    rest: Seq<u8>,
    request_id: u64,
    method: Seq<char>,
    reply: Reply,
)
    requires
        is_event(event),
        payload_of(event) matches Some(payload) ==> reply_to(payload, request_id) is None,
    ensures
        search(framed(event) + rest, 0, request_id, Seq::empty()) == Search::Answered(reply)
            <==> search(rest, 0, request_id, Seq::empty()) == Search::Answered(reply),
        progress(framed(event) + rest, request_id, method) == Ok::<Option<Reply>, Failure>(
            Some(reply),
        ) <==> progress(rest, request_id, method) == Ok::<Option<Reply>, Failure>(Some(reply)),
        progress(framed(event) + rest, request_id, method) == Ok::<Option<Reply>, Failure>(None)
            <==> progress(rest, request_id, method) == Ok::<Option<Reply>, Failure>(None),
{
    let bytes = framed(event) + rest;
    let n = byte_len(event) as int;
    lemma_framed_boundary(event, rest);
    encode_utf8_valid_utf8(event);
    encode_utf8_decode_utf8(event);
    let none = Seq::<Entry>::empty();
    let tally = match payload_of(event) {
        Some(payload) => counted(none, kind_of(payload)),
        None => none,
    };
    assert(search(bytes, 0, request_id, none) == search(bytes, n + 2, request_id, tally));
    assert(framed(event).len() == n + 2);
    lemma_search_shift(framed(event), rest, 0, request_id, tally, none);
}

/// Every event that is passed over is counted, however many there are: the search goes on behind
/// it as it would without it, with one more of its kind.
pub proof fn law_every_passed_event_is_counted(
    event: Seq<char>,
    rest: Seq<u8>,
    request_id: u64,
    tally: Seq<Entry>,
)
    requires
        is_event(event),
        payload_of(event) matches Some(payload) ==> reply_to(payload, request_id) is None,
    ensures
        ({
            let more = match payload_of(event) {
                Some(payload) => counted(tally, kind_of(payload)),
                None => tally,
            };
            search(rest, 0, request_id, more) matches Search::Open { start, tally: seen } ==> search(
                framed(event) + rest,
                0,
                request_id,
                tally,
            ) == (Search::Open { start: framed(event).len() + start, tally: seen })
        }),
{
    let bytes = framed(event) + rest;
    let n = byte_len(event) as int;
    lemma_framed_boundary(event, rest);
    encode_utf8_valid_utf8(event);
    encode_utf8_decode_utf8(event);
    let more = match payload_of(event) {
        Some(payload) => counted(tally, kind_of(payload)),
        None => tally,
    };
    assert(search(bytes, 0, request_id, tally) == search(bytes, n + 2, request_id, more));
    assert(framed(event).len() == n + 2);
    lemma_search_shift(framed(event), rest, 0, request_id, more, more);
}

/// A last event that no blank line ends is read at the end of the body.
pub proof fn law_unended_event_is_the_answer(
    data: Seq<char>,
    request_id: u64,
    method: Seq<char>,
    status: u16,
)
    requires
        data.len() > 0,
        !data.contains('\n'),
        !is_white_space(data[0]),
        !is_white_space(data.last()),
        reply_to(data, request_id) is Some,
        reply_to("data: "@ + data, request_id) is None,
    ensures
        body_outcome(encode_utf8("data: "@ + data), request_id, method, status) == Ok::<
            Reply,
            Failure,
        >(reply_to(data, request_id)->0),
{
    reveal_strlit("data: ");
    reveal_strlit("\u{feff}");
    let event = "data: "@ + data;
    let bytes = encode_utf8(event);
    let none = Seq::<char>::empty();
    assert forall|i: int| 0 <= i implies !#[trigger] blank_at(bytes, i) by {
        if blank_at(bytes, i) {
            let k = lemma_ascii_at(event, i);
            char_u32_cast(event[k], 0x0a);
            assert(event[k] == data[k - "data: "@.len()]);
            assert(data.contains(event[k]));
        }
    }
    lemma_no_boundary(bytes, 0);
    encode_utf8_valid_utf8(event);
    encode_utf8_decode_utf8(event);
    law_one_data_line_is_the_payload(data);
    assert(bytes.skip(0) =~= bytes);
    assert(event[0] == 'd');
    if "\u{feff}"@.is_prefix_of(event) {
        assert(event[0] == "\u{feff}"@[0]);
    }
    assert(event =~= none + event + none);
    law_trimmed_is_the_middle(none, event, none);
    crate::text::lemma_byte_len(event);
}

/// A last event that no blank line ends is read at the end of the body after others too,
/// whatever was passed over before it.
pub proof fn law_unended_event_after_others_is_the_answer(
    ahead: Seq<char>,
    seen: Seq<Entry>,
    event: Seq<char>,
    payload: Seq<char>,
    reply: Reply,
    request_id: u64,
    method: Seq<char>,
    status: u16,
)
    requires
        search(encode_utf8(ahead), 0, request_id, Seq::empty()) == (Search::Open {
            start: byte_len(ahead) as int,
            tally: seen,
        }),
        event.len() > 0,
        is_event(event),
        payload_of(event) == Some(payload),
        reply_to(payload, request_id) == Some(reply),
        trimmed(without_mark(ahead + event)).len() > 0,
        reply_to(without_mark(ahead + event), request_id) is None,
    ensures
        body_outcome(encode_utf8(ahead + event), request_id, method, status) == Ok::<
            Reply,
            Failure,
        >(reply),
{
    let text = ahead + event;
    let bytes = encode_utf8(text);
    let tail = encode_utf8(event);
    let n = byte_len(ahead) as int;
    lemma_encode_concat(ahead, event);
    lemma_search_extends(encode_utf8(ahead), tail, 0, request_id, Seq::empty());
    lemma_event_has_no_boundary(event);
    lemma_search_shift(encode_utf8(ahead), tail, 0, request_id, seen, Seq::empty());
    assert(search(tail, 0, request_id, Seq::empty()) is Open);
    lemma_no_blank_behind(encode_utf8(ahead), tail);
    assert(search(bytes, n, request_id, seen) == (Search::Open { start: n, tally: seen }));
    encode_utf8_valid_utf8(text);
    encode_utf8_decode_utf8(text);
    encode_utf8_valid_utf8(event);
    encode_utf8_decode_utf8(event);
    assert(bytes.skip(n) =~= tail);
    crate::text::lemma_byte_len(event);
}

/// There is no boundary in the bytes of an event.
proof fn lemma_event_has_no_boundary(event: Seq<char>)
    requires
        is_event(event),
    ensures
        forall|i: int| 0 <= i ==> !#[trigger] blank_at(encode_utf8(event), i),
        boundary(encode_utf8(event), 0) is None,
{
    let bytes = encode_utf8(event);
    assert forall|i: int| 0 <= i implies !#[trigger] blank_at(bytes, i) by {
        if blank_at(bytes, i) {
            let k = lemma_ascii_at(event, i);
            let m = lemma_ascii_at(event, i + 1);
            char_u32_cast(event[k], 0x0a);
            char_u32_cast(event[m], 0x0a);
            lemma_take_next(event, k, m);
            assert(event[k] == '\n' && event[k + 1] == '\n');
        }
    }
    lemma_no_boundary(bytes, 0);
}

/// Behind other bytes there is none either.
proof fn lemma_no_blank_behind(a: Seq<u8>, b: Seq<u8>)
    requires
        forall|i: int| 0 <= i ==> !#[trigger] blank_at(b, i),
    ensures
        boundary(a + b, a.len() as int) is None,
{
    assert forall|i: int| a.len() <= i implies !#[trigger] blank_at(a + b, i) by {
        assert(!blank_at(b, i - a.len()));
    }
    lemma_no_boundary(a + b, a.len() as int);
}

/// A body that ends without the answer tells what was passed over.
pub proof fn law_what_was_passed_over_is_told(
    text: Seq<char>,
    seen: Seq<Entry>,
    request_id: u64,
    method: Seq<char>,
    status: u16,
)
    requires
        search(encode_utf8(text), 0, request_id, Seq::empty()) == (Search::Open {
            start: byte_len(text) as int,
            tally: seen,
        }),
        trimmed(without_mark(text)).len() > 0,
        reply_to(without_mark(text), request_id) is None,
    ensures
        body_outcome(encode_utf8(text), request_id, method, status) == Err::<Reply, Failure>(
            Failure::Transport(
                "HTTP "@ + crate::status::status_line(status) + ": no JSON-RPC response for '"@
                    + method + "' (id "@ + decimal(request_id as nat) + ") in the body"@
                    + described(seen) + ": "@ + if without_mark(text).len() <= 200 {
                    without_mark(text)
                } else {
                    without_mark(text).take(200)
                },
            ),
        ),
{
    encode_utf8_valid_utf8(text);
    encode_utf8_decode_utf8(text);
}

/// A body that is not UTF-8 is never a success, unless an event of it answers the request first:
/// nothing is substituted for what cannot be decoded.
pub proof fn law_undecodable_body_is_an_error(
    bytes: Seq<u8>,
    request_id: u64,
    method: Seq<char>,
    status: u16,
)
    requires
        !valid_utf8(bytes),
    ensures
        progress(bytes, request_id, method) matches Ok(Some(_)) || body_outcome(
            bytes,
            request_id,
            method,
            status,
        ) is Err,
{
}

/// An event that cannot be decoded is an error as soon as its blank line is there.
pub proof fn law_undecodable_event_is_an_error(
    event: Seq<u8>,
    rest: Seq<u8>,
    request_id: u64,
    method: Seq<char>,
    status: u16,
)
    requires
        !valid_utf8(event),
        !event.contains(0x0a),
    ensures
        progress(event + seq![0x0au8, 0x0a] + rest, request_id, method) is Err,
        body_outcome(event + seq![0x0au8, 0x0a] + rest, request_id, method, status) is Err,
{
    let bytes = event + seq![0x0au8, 0x0a] + rest;
    let n = event.len() as int;
    assert(bytes.subrange(0, n) =~= event);
    assert forall|i: int| 0 <= i < n implies !#[trigger] blank_at(bytes, i) by {
        assert(event.contains(event[i]));
        assert(bytes[i] == event[i]);
    }
    lemma_boundary_at(bytes, 0, n);
}

/// A body of one line that is neither the response nor an event comes to an error. It names the
/// status, the method and the request, and quotes the start of the body.
pub proof fn law_body_without_an_answer_is_quoted(
    text: Seq<char>,
    request_id: u64,
    method: Seq<char>,
    status: u16,
)
    requires
        text.len() > 0,
        !text.contains('\n'),
        text[0] != 'd',
        text[0] != '\u{feff}',
        !is_white_space(text[0]),
        !is_white_space(text.last()),
        reply_to(text, request_id) is None,
    ensures
        body_outcome(encode_utf8(text), request_id, method, status) == Err::<Reply, Failure>(
            Failure::Transport(
                "HTTP "@ + crate::status::status_line(status) + ": no JSON-RPC response for '"@
                    + method + "' (id "@ + decimal(request_id as nat) + ") in the body"@ + ": "@ + if text.len() <= 200 {
                    text
                } else {
                    text.take(200)
                },
            ),
        ),
{
    reveal_strlit("\u{feff}");
    reveal_strlit("data:");
    let bytes = encode_utf8(text);
    let none = Seq::<char>::empty();
    let no_lines = Seq::<Seq<char>>::empty();
    assert forall|i: int| 0 <= i implies !#[trigger] blank_at(bytes, i) by {
        if blank_at(bytes, i) {
            let k = lemma_ascii_at(text, i);
            char_u32_cast(text[k], 0x0a);
            assert(text.contains(text[k]));
        }
    }
    lemma_no_boundary(bytes, 0);
    encode_utf8_valid_utf8(text);
    encode_utf8_decode_utf8(text);
    assert(bytes.skip(0) =~= bytes);
    if "\u{feff}"@.is_prefix_of(text) {
        assert(text[0] == "\u{feff}"@[0]);
    }
    assert(text =~= none + text + none);
    law_trimmed_is_the_middle(none, text, none);
    crate::text::lemma_byte_len(text);
    law_line_feed_ends_a_line(text, none);
    if "data:"@.is_prefix_of(text) {
        assert(text[0] == "data:"@[0]);
    }
    assert(seq![text] =~= no_lines.push(text));
    law_data_line_adds_its_data(no_lines, none, text);
    law_joining_adds_one_part(no_lines, none, "\n"@);
    assert(none =~= none + none + none);
    law_payload_is_the_data(text, none, none, none);
    let start = "HTTP "@ + crate::status::status_line(status) + ": no JSON-RPC response for '"@
        + method + "' (id "@ + decimal(request_id as nat) + ") in the body"@;
    assert(start + none =~= start);
}

// ---------------------------------------------------------------------------
// From documents to responses
// ---------------------------------------------------------------------------

/// Whether the `id` of an object is that of the request, or there is none to tell.
pub open spec fn may_answer(members: Map<Seq<char>, Json>, request_id: u64) -> bool {
    members.contains_key("id"@) ==> members["id"@] == Json::Null || members["id"@]
        == Json::Integer(request_id as int)
}

/// A document with a result, a version and no method is the response to the request that its
/// `id` names, or to any where it names none. It says what the document says.
pub proof fn law_result_is_the_response(
    payload: Seq<char>,
    members: Map<Seq<char>, Json>,
    version: Seq<char>,
    request_id: u64,
)
    requires
        json_document(payload) == Some(Json::Object(members)),
        members.contains_key("jsonrpc"@) && members["jsonrpc"@] == Json::Text(version),
        !members.contains_key("method"@),
        members.contains_key("result"@),
        !members.contains_key("error"@),
        may_answer(members, request_id),
    ensures
        reply_to(payload, request_id) == Some(
            Reply {
                jsonrpc: version,
                id: if members.contains_key("id"@) && members["id"@] != Json::Null {
                    Some(request_id)
                } else {
                    None
                },
                result: if members["result"@] == Json::Null {
                    None
                } else {
                    Some(members["result"@])
                },
                error: None,
            },
        ),
{
}

/// A document with an error, a version and no method is the response likewise, with the code,
/// the message and the data of the error.
pub proof fn law_error_is_the_response(
    payload: Seq<char>,
    members: Map<Seq<char>, Json>,
    version: Seq<char>,
    error: Map<Seq<char>, Json>,
    code: i64,
    message: Seq<char>,
    request_id: u64,
)
    requires
        json_document(payload) == Some(Json::Object(members)),
        members.contains_key("jsonrpc"@) && members["jsonrpc"@] == Json::Text(version),
        !members.contains_key("method"@),
        members.contains_key("error"@) && members["error"@] == Json::Object(error),
        error.contains_key("code"@) && error["code"@] == Json::Integer(code as int),
        error.contains_key("message"@) && error["message"@] == Json::Text(message),
        may_answer(members, request_id),
    ensures
        reply_to(payload, request_id) matches Some(reply) && reply.jsonrpc == version && reply.error
            == Some(
            Fault {
                code,
                message,
                data: if error.contains_key("data"@) && error["data"@] != Json::Null {
                    Some(error["data"@])
                } else {
                    None
                },
            },
        ),
{
}

/// Nothing else is a response: no text that is not a document, no document with a method, none
/// with neither a result nor an error, and none with the `id` of another request.
pub proof fn law_nothing_else_is_the_response(
    payload: Seq<char>,
    members: Map<Seq<char>, Json>,
    other: int,
    request_id: u64,
)
    requires
        json_document(payload) is None || json_document(payload) == Some(Json::Object(members)) && (
        members.contains_key("method"@) || !members.contains_key("jsonrpc"@) || (
        !members.contains_key("result"@) && !members.contains_key("error"@)) || (
        members.contains_key("id"@) && members["id"@] == Json::Integer(other) && other
            != request_id)),
    ensures
        reply_to(payload, request_id) is None,
{
}

// ---------------------------------------------------------------------------
// What was passed over
// ---------------------------------------------------------------------------

/// A frame that was passed over is known by its method, else by the request that it answers. One
/// that is no document is known by its size.
pub proof fn law_frame_is_known_by_its_kind(
    payload: Seq<char>,
    members: Map<Seq<char>, Json>,
    method: Seq<char>,
    id: u64,
)
    ensures
        json_document(payload) == Some(Json::Object(members)) && members.contains_key("method"@)
            && members["method"@] == Json::Text(method) ==> kind_of(payload) == method,
        json_document(payload) == Some(Json::Object(members)) && !members.contains_key("method"@)
            && members.contains_key("id"@) && members["id"@] == Json::Integer(id as int)
            ==> kind_of(payload) == "response for id "@ + decimal(id as nat),
        json_document(payload) == Some(Json::Object(members)) && !members.contains_key("method"@)
            && !members.contains_key("id"@) ==> kind_of(payload) == "unrecognized JSON-RPC frame"@,
        json_document(payload) is None ==> kind_of(payload) == "malformed non-JSON frame ("@
            + decimal(byte_len(payload)) + " bytes)"@,
{
}

/// The description of what was passed over gives the number of frames, and the kinds in order:
/// each with its count where that is more than one, the first ten of them, and how many there
/// are beyond.
pub proof fn law_description_lists_the_kinds(tally: Seq<Entry>, names: Seq<Seq<char>>)
    requires
        tally.len() > 0,
        names.len() == if tally.len() <= 10 {
            tally.len()
        } else {
            10
        },
        forall|i: int|
            0 <= i < names.len() ==> #[trigger] names[i] == if tally[i].1 > 1 {
                tally[i].0 + " x"@ + decimal(tally[i].1)
            } else {
                tally[i].0
            },
    ensures
        described(tally) == " (skipped "@ + decimal(total(tally)) + " frame(s): "@ + joined(
            names,
            ", "@,
        ) + (if tally.len() <= 10 {
            Seq::empty()
        } else {
            ", and "@ + decimal((tally.len() - 10) as nat) + " other kind(s)"@
        }) + ")"@,
        described(Seq::empty()) == Seq::<char>::empty(),
{
    let shown = tally.take(names.len() as int).map_values(|entry: Entry| listed(entry));
    assert(shown =~= names);
}

/// The number of frames in a tally is the sum of the counts of its kinds.
pub proof fn law_total_is_the_sum(tally: Seq<Entry>, entry: Entry)
    ensures
        total(Seq::empty()) == 0,
        total(tally.push(entry)) == total(tally) + entry.1,
{
    assert(tally.push(entry).drop_last() =~= tally);
}

// ---------------------------------------------------------------------------
// What values show
// ---------------------------------------------------------------------------

/// A response shows all of its parts.
pub proof fn law_response_shows_its_parts(response: JsonRpcResponse, error: JsonRpcError)
    ensures
        response@.jsonrpc == response.jsonrpc@,
        response@.id == response.id,
        response@.result is Some == response.result is Some,
        response.result matches Some(value) ==> response@.result == Some(json_of(value)),
        response@.error is Some == response.error is Some,
        response.error matches Some(inner) ==> response@.error == Some(inner@),
        error@.code == error.code,
        error@.message == error.message@,
        error@.data is Some == error.data is Some,
        error.data matches Some(value) ==> error@.data == Some(json_of(value)),
{
}

/// An outcome shows the response or the error, and so does each step on the way to it.
pub proof fn law_outcome_shows_what_came(response: JsonRpcResponse, error: McpError)
    ensures
        outcome(Ok(response)) == Ok::<Reply, Failure>(response@),
        outcome(Err(error)) == Err::<Reply, Failure>(error@),
        step_outcome(Ok(Some(response))) == Ok::<Option<Reply>, Failure>(Some(response@)),
        step_outcome(Ok(None)) == Ok::<Option<Reply>, Failure>(None),
        step_outcome(Err(error)) == Err::<Option<Reply>, Failure>(error@),
        error matches McpError::Transport(text) ==> error@ == Failure::Transport(text@),
        error is ConnectionClosed ==> error@ == Failure::ConnectionClosed,
{
}

} // verus!
