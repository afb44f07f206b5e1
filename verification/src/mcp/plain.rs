//! Bodies that are one JSON document rather than a stream of events.
use crate::json::unmarked;
use crate::mcp::body::{body_outcome, without_mark};
use crate::mcp::frames::{data_of, payload_of, reply_to};
use crate::mcp::scan::{boundary, lemma_boundary, search, Search};
use crate::mcp::skipped::Entry;
use crate::mcp::types::{Failure, Reply};
use crate::status::status_line;
use crate::text::{
    byte_len, joined, law_prefix_is_removed, lemma_byte_len, lemma_encode_concat, lemma_encode_push,
    lemma_position_bounds, lemma_prefix_bytes, lemma_trimmed_to_nothing, lines_of, position,
    trimmed, white, without_return,
};
use vstd::prelude::*;
use vstd::utf8::{
    char_u32_cast,
    decode_utf8, decode_utf8_encode_utf8, decode_utf8_split, encode_utf8, encode_utf8_decode_utf8,
    encode_utf8_valid_utf8, is_char_boundary, is_char_boundary_iff_not_is_continuation_byte,
    valid_utf8_split,
};

verus! {

/// Lines of which none starts with a `d` carry no data.
proof fn lemma_no_data(lines: Seq<Seq<char>>)
    requires
        forall|i: int|
            0 <= i < lines.len() && lines[i].len() > 0 ==> (#[trigger] lines[i])[0] != 'd',
    ensures
        data_of(lines) == Seq::<Seq<char>>::empty(),
    decreases lines.len(),
{
    if lines.len() > 0 {
        reveal_strlit("data:");
        let rest = lines.drop_last();
        assert forall|i: int| 0 <= i < rest.len() && rest[i].len() > 0 implies (
        #[trigger] rest[i])[0] != 'd' by {
            assert(rest[i] == lines[i]);
        }
        lemma_no_data(rest);
        let last = lines[lines.len() - 1];
        if "data:"@.is_prefix_of(last) {
            assert("data:"@[0] == last[0]);
        }
    }
}

/// The lines of an unmarked text do not start with a `d`.
proof fn lemma_unmarked_lines(text: Seq<char>)
    requires
        unmarked(text),
    ensures
        forall|i: int|
            0 <= i < lines_of(text).len() && lines_of(text)[i].len() > 0 ==> (#[trigger] lines_of(
                text,
            )[i])[0] != 'd',
    decreases text.len(),
{
    if text.len() > 0 {
        let k = position(text, '\n') as int;
        lemma_position_bounds(text, '\n');
        if k < text.len() {
            let rest = text.skip(k + 1);
            assert forall|i: int| 0 <= i < rest.len() && #[trigger] rest[i] == 'd' implies i > 0
                && rest[i - 1] != '\n' by {
                assert(text[i + k + 1] == 'd');
            }
            lemma_unmarked_lines(rest);
            let lines = lines_of(text);
            assert forall|i: int| 0 <= i < lines.len() && lines[i].len() > 0 implies (
            #[trigger] lines[i])[0] != 'd' by {
                if i == 0 {
                    assert(lines[0] == without_return(text.take(k)));
                    assert(lines[0][0] == text[0]);
                } else {
                    assert(lines[i] == lines_of(rest)[i - 1]);
                }
            }
        }
    }
}

/// An unmarked text, read as an event, has no payload.
pub proof fn lemma_unmarked_payload(text: Seq<char>)
    requires
        unmarked(text),
    ensures
        payload_of(text) is None,
{
    lemma_unmarked_lines(text);
    lemma_no_data(lines_of(text));
    assert(joined(data_of(lines_of(text)), "\n"@) =~= Seq::<char>::empty());
}

/// An ASCII byte in the encoding of a text is the encoding of one character.
pub proof fn lemma_ascii_at(text: Seq<char>, p: int) -> (k: int)
    requires
        0 <= p < byte_len(text),
        encode_utf8(text)[p] < 0x80,
    ensures
        0 <= k < text.len(),
        byte_len(text.take(k)) == p,
        text[k] as u32 == encode_utf8(text)[p] as u32,
        encode_utf8(text).take(p) == encode_utf8(text.take(k)),
{
    let bytes = encode_utf8(text);
    encode_utf8_valid_utf8(text);
    encode_utf8_decode_utf8(text);
    is_char_boundary_iff_not_is_continuation_byte(bytes, p);
    assert(is_char_boundary(bytes, p));
    valid_utf8_split(bytes, p);
    decode_utf8_split(bytes, p);
    let head = bytes.subrange(0, p);
    let tail = bytes.subrange(p, bytes.len() as int);
    let k = decode_utf8(head).len() as int;
    decode_utf8_encode_utf8(head);
    assert(text.take(k) =~= decode_utf8(head));
    assert(bytes.take(p) =~= head);
    let byte = tail[0];
    assert(byte & 0x7f == byte) by (bit_vector)
        requires
            byte < 0x80,
    ;
    assert(tail.len() > 0 && byte == bytes[p]);
    assert(decode_utf8(tail).len() > 0 && decode_utf8(tail)[0] as u32 == byte as u32);
    assert(text[k] == decode_utf8(tail)[0]);
    k
}

/// A search that starts at a line of an unmarked text finds nothing to answer or to count.
proof fn lemma_unmarked_search(text: Seq<char>, k: int, request_id: u64, tally: Seq<Entry>)
    requires
        unmarked(text),
        0 <= k <= text.len(),
        k == 0 || text[k - 1] == '\n',
    ensures
        search(encode_utf8(text), byte_len(text.take(k)) as int, request_id, tally) matches Search::Open {
            tally: seen,
            ..
        } && seen == tally,
    decreases text.len() - k,
{
    let bytes = encode_utf8(text);
    let start = byte_len(text.take(k)) as int;
    lemma_boundary(bytes, start);
    match boundary(bytes, start) {
        None => {},
        Some(end) => {
            let j = lemma_ascii_at(text, end);
            let n = lemma_ascii_at(text, end + 1);
            if j < k {
                lemma_prefix_bytes(text, j, k);
            }
            lemma_take_next(text, j, n);
            let piece = text.subrange(k, j);
            let event = bytes.subrange(start, end);
            assert(text.take(j) =~= text.take(k) + piece);
            lemma_encode_concat(text.take(k), piece);
            assert(event =~= encode_utf8(piece)) by {
                assert(bytes.take(end) == encode_utf8(text.take(k)) + encode_utf8(piece));
                assert(event =~= bytes.take(end).skip(start));
            }
            encode_utf8_valid_utf8(piece);
            encode_utf8_decode_utf8(piece);
            assert forall|i: int| 0 <= i < piece.len() && #[trigger] piece[i] == 'd' implies i > 0
                && piece[i - 1] != '\n' by {
                assert(text[i + k] == 'd');
            }
            lemma_unmarked_payload(piece);
            char_u32_cast(text[n], 0x0a);
            assert(text[n] == '\n');
            assert(text.take(n + 1) =~= text.take(n).push('\n'));
            lemma_line_feed_width(text.take(n));
            lemma_unmarked_search(text, n + 1, request_id, tally);
        },
    }
}

/// A line feed takes one byte.
proof fn lemma_line_feed_width(text: Seq<char>)
    ensures
        byte_len(text.push('\n')) == byte_len(text) + 1,
{
    lemma_encode_push(text, '\n');
}

/// A prefix whose encoding is one byte longer holds one character more.
pub proof fn lemma_take_next(text: Seq<char>, j: int, n: int)
    requires
        0 <= j < text.len(),
        0 <= n <= text.len(),
        byte_len(text.take(n)) == byte_len(text.take(j)) + 1,
    ensures
        n == j + 1,
{
    if n < j {
        lemma_prefix_bytes(text, n, j);
    }
    let piece = text.subrange(j, n);
    assert(text.take(n) =~= text.take(j) + piece);
    lemma_encode_concat(text.take(j), piece);
    lemma_byte_len(piece);
}

/// A body that is one JSON document answers as a whole. No event is found in it, whatever it
/// says and however it is laid out in lines, so the response that it spells is the outcome. A
/// byte order mark before the document does no harm.
pub proof fn law_plain_body(text: Seq<char>, request_id: u64, method: Seq<char>, status: u16)
    requires
        forall|i: int|
            0 <= i < text.len() && #[trigger] text[i] == 'd' ==> i > 0 && text[i - 1] != '\n',
        trimmed(without_mark(text)).len() > 0,
        reply_to(without_mark(text), request_id) is Some,
    ensures
        body_outcome(encode_utf8(text), request_id, method, status) == Ok::<Reply, Failure>(
            reply_to(without_mark(text), request_id)->0,
        ),
{
    assert(text.take(0) =~= Seq::<char>::empty());
    lemma_unmarked_search(text, 0, request_id, Seq::empty());
    encode_utf8_valid_utf8(text);
    encode_utf8_decode_utf8(text);
}

/// A body of nothing but white space, with or without a byte order mark, acknowledges the
/// request where the status says so, and is an error otherwise: it is never taken for a success
/// that it is not.
pub proof fn law_blank_body(text: Seq<char>, request_id: u64, method: Seq<char>, status: u16)
    requires
        trimmed(without_mark(text)).len() == 0,
    ensures
        body_outcome(encode_utf8(text), request_id, method, status) == if status == 202 || status
            == 204 {
            Ok::<Reply, Failure>(
                Reply { jsonrpc: "2.0"@, id: Some(request_id), result: None, error: None },
            )
        } else {
            Err(
                Failure::Transport(
                    "HTTP "@ + status_line(status) + " with an empty body on '"@ + method
                        + "' (expected a JSON-RPC response; an empty 2xx usually means a proxy or gateway answered instead of the MCP server)"@,
                ),
            )
        },
{
    let body = without_mark(text);
    lemma_trimmed_to_nothing(body, white());
    reveal_strlit("\u{feff}");
    assert forall|i: int| 0 <= i < text.len() && #[trigger] text[i] == 'd' implies i > 0 && text[i
        - 1] != '\n' by {
        if body.len() == text.len() {
            assert(body =~= text);
            assert(white()(body[i]));
        } else {
            assert("\u{feff}"@.is_prefix_of(text));
            if i == 0 {
                assert(text[0] == "\u{feff}"@[0]);
            } else {
                assert(body[i - 1] == text[i]);
                assert(white()(body[i - 1]));
            }
        }
    }
    assert(text.take(0) =~= Seq::<char>::empty());
    lemma_unmarked_search(text, 0, request_id, Seq::empty());
    encode_utf8_valid_utf8(text);
    encode_utf8_decode_utf8(text);
}

/// One byte order mark at the start of a text is no part of it, and nothing else is left out.
pub proof fn law_byte_order_mark_is_no_text(text: Seq<char>)
    ensures
        without_mark(seq!['\u{feff}'] + text) == text,
        !(text.len() > 0 && text[0] == '\u{feff}') ==> without_mark(text) == text,
{
    reveal_strlit("\u{feff}");
    assert("\u{feff}"@ =~= seq!['\u{feff}']);
    law_prefix_is_removed("\u{feff}"@, text, text);
    if "\u{feff}"@.is_prefix_of(text) {
        assert(text[0] == "\u{feff}"@[0]);
    }
}

} // verus!
