//! The framing of a response body: line ends, event boundaries, and the search for the event
//! that answers a request.
use crate::mcp::frames::{payload_of, reply_to};
use crate::mcp::skipped::{counted, kind_of, Entry};
use crate::mcp::types::Reply;
use vstd::prelude::*;
use vstd::utf8::{decode_utf8, valid_utf8};

verus! {

// ---------------------------------------------------------------------------
// Line ends
// ---------------------------------------------------------------------------

/// The bytes read so far, with every line end written as one line feed. A line ends in CR LF,
/// in LF or in CR alone.
pub struct Intake {
    pub bytes: Seq<u8>,
    /// Whether the last byte read was a carriage return, which a line feed would complete.
    pub after_return: bool,
}

/// Nothing read yet.
pub open spec fn intake_start() -> Intake {
    Intake { bytes: Seq::empty(), after_return: false }
}

/// The intake after one more byte.
pub open spec fn take_byte(intake: Intake, byte: u8) -> Intake {
    if byte == 0x0d {
        Intake { bytes: intake.bytes.push(0x0a), after_return: true }
    } else if byte == 0x0a && intake.after_return {
        Intake { bytes: intake.bytes, after_return: false }
    } else {
        Intake { bytes: intake.bytes.push(byte), after_return: false }
    }
}

/// The intake after one more chunk.
pub open spec fn absorb(intake: Intake, chunk: Seq<u8>) -> Intake
    decreases chunk.len(),
{
    if chunk.len() == 0 {
        intake
    } else {
        take_byte(absorb(intake, chunk.drop_last()), chunk.last())
    }
}

/// The intake after a list of chunks.
pub open spec fn absorb_all(intake: Intake, chunks: Seq<Seq<u8>>) -> Intake
    decreases chunks.len(),
{
    if chunks.len() == 0 {
        intake
    } else {
        absorb(absorb_all(intake, chunks.drop_last()), chunks.last())
    }
}

/// The bytes of a list of chunks.
pub open spec fn body_of(chunks: Seq<Seq<u8>>) -> Seq<u8>
    decreases chunks.len(),
{
    if chunks.len() == 0 {
        Seq::empty()
    } else {
        body_of(chunks.drop_last()) + chunks.last()
    }
}

/// Two chunks are taken in as one: where a line end is cut does not show.
pub proof fn lemma_absorb_concat(intake: Intake, a: Seq<u8>, b: Seq<u8>)
    ensures
        absorb(absorb(intake, a), b) == absorb(intake, a + b),
    decreases b.len(),
{
    if b.len() == 0 {
        assert(a + b =~= a);
    } else {
        lemma_absorb_concat(intake, a, b.drop_last());
        assert((a + b).drop_last() =~= a + b.drop_last());
    }
}

/// A body is taken in as the same bytes however it was cut into chunks.
pub proof fn law_chunks_do_not_show(chunks: Seq<Seq<u8>>)
    ensures
        absorb_all(intake_start(), chunks) == absorb(intake_start(), body_of(chunks)),
    decreases chunks.len(),
{
    if chunks.len() > 0 {
        law_chunks_do_not_show(chunks.drop_last());
        lemma_absorb_concat(intake_start(), body_of(chunks.drop_last()), chunks.last());
    }
}

/// What was taken in stays: a chunk only adds to it.
pub proof fn lemma_absorb_extends(intake: Intake, chunk: Seq<u8>)
    ensures
        intake.bytes.is_prefix_of(absorb(intake, chunk).bytes),
        absorb(intake, chunk).bytes.len() <= intake.bytes.len() + chunk.len(),
    decreases chunk.len(),
{
    if chunk.len() > 0 {
        lemma_absorb_extends(intake, chunk.drop_last());
    }
}

/// Taking in a list of chunks starts with the first of them.
pub proof fn lemma_absorb_first(intake: Intake, chunks: Seq<Seq<u8>>)
    requires
        chunks.len() > 0,
    ensures
        absorb_all(intake, chunks) == absorb_all(absorb(intake, chunks[0]), chunks.drop_first()),
    decreases chunks.len(),
{
    if chunks.len() == 1 {
        assert(chunks.drop_last() =~= Seq::<Seq<u8>>::empty());
        assert(chunks.drop_first() =~= Seq::<Seq<u8>>::empty());
        assert(absorb_all(intake, chunks.drop_last()) == intake);
    } else {
        lemma_absorb_first(intake, chunks.drop_last());
        assert(chunks.drop_first().drop_last() =~= chunks.drop_last().drop_first());
    }
}

/// What was taken in stays: chunks only add to it.
pub proof fn lemma_absorb_all_extends(intake: Intake, chunks: Seq<Seq<u8>>)
    ensures
        intake.bytes.is_prefix_of(absorb_all(intake, chunks).bytes),
    decreases chunks.len(),
{
    if chunks.len() > 0 {
        lemma_absorb_all_extends(intake, chunks.drop_last());
        lemma_absorb_extends(absorb_all(intake, chunks.drop_last()), chunks.last());
    }
}

/// No carriage return is left in what was taken in.
pub proof fn law_no_returns_left(intake: Intake, chunk: Seq<u8>)
    requires
        !intake.bytes.contains(0x0d),
    ensures
        !absorb(intake, chunk).bytes.contains(0x0d),
    decreases chunk.len(),
{
    if chunk.len() > 0 {
        law_no_returns_left(intake, chunk.drop_last());
        let before = absorb(intake, chunk.drop_last()).bytes;
        let after = absorb(intake, chunk).bytes;
        assert forall|i: int| 0 <= i < after.len() implies after[i] != 0x0d by {
            if i < before.len() {
                assert(before.contains(before[i]));
            }
        }
    }
}

/// The bytes with every line feed replaced by `end`.
pub open spec fn with_line_ends(bytes: Seq<u8>, end: Seq<u8>) -> Seq<u8>
    decreases bytes.len(),
{
    if bytes.len() == 0 {
        bytes
    } else if bytes.last() == 0x0a {
        with_line_ends(bytes.drop_last(), end) + end
    } else {
        with_line_ends(bytes.drop_last(), end).push(bytes.last())
    }
}

/// Which of the three line ends a body uses does not show: with CR LF, with LF and with CR
/// alone the same bytes are taken in.
pub proof fn law_line_ends_do_not_show(bytes: Seq<u8>)
    requires
        !bytes.contains(0x0d),
    ensures
        absorb(intake_start(), bytes).bytes == bytes,
        absorb(intake_start(), with_line_ends(bytes, seq![0x0du8, 0x0a])).bytes == bytes,
        absorb(intake_start(), with_line_ends(bytes, seq![0x0du8])).bytes == bytes,
{
    lemma_line_ends(bytes);
}

proof fn lemma_line_ends(bytes: Seq<u8>)
    requires
        !bytes.contains(0x0d),
    ensures
        absorb(intake_start(), bytes) == (Intake { bytes, after_return: false }),
        absorb(intake_start(), with_line_ends(bytes, seq![0x0du8, 0x0a])) == (Intake {
            bytes,
            after_return: false,
        }),
        absorb(intake_start(), with_line_ends(bytes, seq![0x0du8])).bytes == bytes,
    decreases bytes.len(),
{
    if bytes.len() == 0 {
        assert(bytes =~= Seq::<u8>::empty());
    } else {
        let head = bytes.drop_last();
        let last = bytes.last();
        assert forall|i: int| 0 <= i < head.len() implies head[i] != 0x0d by {
            assert(bytes.contains(bytes[i]));
        }
        assert(bytes.contains(bytes[bytes.len() - 1]));
        lemma_line_ends(head);
        assert(head.push(last) =~= bytes);
        let both = with_line_ends(head, seq![0x0du8, 0x0a]);
        let one = with_line_ends(head, seq![0x0du8]);
        if last == 0x0a {
            let ended = both + seq![0x0du8, 0x0a];
            assert(ended.drop_last() =~= both.push(0x0d));
            assert(both.push(0x0d).drop_last() =~= both);
            assert(absorb(intake_start(), both.push(0x0d)) == take_byte(
                absorb(intake_start(), both),
                0x0d,
            ));
            assert((one + seq![0x0du8]).drop_last() =~= one);
        } else {
            assert(both.push(last).drop_last() =~= both);
            assert(one.push(last).drop_last() =~= one);
        }
    }
}

// ---------------------------------------------------------------------------
// Events
// ---------------------------------------------------------------------------

/// A line ends at `i`, and the one after it is blank.
pub open spec fn blank_at(bytes: Seq<u8>, i: int) -> bool {
    i + 1 < bytes.len() && bytes[i] == 0x0a && bytes[i + 1] == 0x0a
}

/// The first position at or after `from` where two line feeds follow each other.
pub open spec fn boundary(bytes: Seq<u8>, from: int) -> Option<int>
    decreases bytes.len() - from,
{
    if from + 1 >= bytes.len() {
        None
    } else if blank_at(bytes, from) {
        Some(from)
    } else {
        boundary(bytes, from + 1)
    }
}

/// How far the search for a request's response has come.
pub enum Search {
    /// An event answers the request.
    Answered(Reply),
    /// An event is not UTF-8.
    Undecodable(Seq<u8>),
    /// No event so far answers the request: the events before `start` are done, with the tally
    /// of those that carried something else, and the bytes from `start` on are not yet a whole
    /// event.
    Open { start: int, tally: Seq<Entry> },
}

/// Searches the events from `start` on, in order, for the response to `request_id`. An event
/// ends where a blank line does.
pub open spec fn search(bytes: Seq<u8>, start: int, request_id: u64, tally: Seq<Entry>) -> Search
    decreases bytes.len() - start,
    when 0 <= start
{
    match boundary(bytes, start) {
        None => Search::Open { start, tally },
        Some(end) => if !(start <= end && end + 1 < bytes.len()) {
            Search::Open { start, tally }
        } else {
            let event = bytes.subrange(start, end);
            if !valid_utf8(event) {
                Search::Undecodable(event)
            } else {
                match payload_of(decode_utf8(event)) {
                    None => search(bytes, end + 2, request_id, tally),
                    Some(payload) => match reply_to(payload, request_id) {
                        Some(reply) => Search::Answered(reply),
                        None => search(bytes, end + 2, request_id, counted(tally, kind_of(payload))),
                    },
                }
            }
        },
    }
}

/// A boundary lies at or after the position that the search for it starts from, and no
/// earlier position is one.
pub proof fn lemma_boundary(bytes: Seq<u8>, from: int)
    requires
        0 <= from,
    ensures
        boundary(bytes, from) matches Some(p) ==> from <= p && blank_at(bytes, p),
        forall|i: int|
            from <= i && (boundary(bytes, from) matches Some(p) ==> i < p) ==> !#[trigger] blank_at(
                bytes,
                i,
            ),
    decreases bytes.len() - from,
{
    if from + 1 < bytes.len() && !blank_at(bytes, from) {
        lemma_boundary(bytes, from + 1);
    }
}

/// A position that is a boundary, with none between it and `from`, is the one found from there.
pub proof fn lemma_boundary_at(bytes: Seq<u8>, from: int, p: int)
    requires
        0 <= from <= p,
        blank_at(bytes, p),
        forall|i: int| from <= i < p ==> !#[trigger] blank_at(bytes, i),
    ensures
        boundary(bytes, from) == Some(p),
    decreases p - from,
{
    if from < p {
        lemma_boundary_at(bytes, from + 1, p);
    }
}

/// Where no position from `from` on is a boundary, none is found.
pub proof fn lemma_no_boundary(bytes: Seq<u8>, from: int)
    requires
        0 <= from,
        forall|i: int| from <= i ==> !#[trigger] blank_at(bytes, i),
    ensures
        boundary(bytes, from) is None,
    decreases bytes.len() - from,
{
    if from + 1 < bytes.len() {
        lemma_no_boundary(bytes, from + 1);
    }
}

/// A boundary that was found stays the first one when more bytes come.
proof fn lemma_boundary_stable(bytes: Seq<u8>, more: Seq<u8>, from: int)
    requires
        0 <= from,
        boundary(bytes, from) is Some,
    ensures
        boundary(bytes + more, from) == boundary(bytes, from),
{
    lemma_boundary(bytes, from);
    let p = boundary(bytes, from)->0;
    assert forall|i: int| from <= i < p implies !#[trigger] blank_at(bytes + more, i) by {
        assert(!blank_at(bytes, i));
    }
    lemma_boundary_at(bytes + more, from, p);
}

/// More bytes do not change what was decided, and a search that was left open goes on from
/// where it stood.
pub proof fn lemma_search_extends(
    bytes: Seq<u8>,
    more: Seq<u8>,
    start: int,
    request_id: u64,
    tally: Seq<Entry>,
)
    requires
        0 <= start,
    ensures
        match search(bytes, start, request_id, tally) {
            Search::Open { start: next, tally: seen } => start <= next && search(
                bytes + more,
                start,
                request_id,
                tally,
            ) == search(bytes + more, next, request_id, seen),
            decided => search(bytes + more, start, request_id, tally) == decided,
        },
    decreases bytes.len() - start,
{
    lemma_boundary(bytes, start);
    match boundary(bytes, start) {
        None => {},
        Some(end) => {
            lemma_boundary_stable(bytes, more, start);
            let event = bytes.subrange(start, end);
            assert((bytes + more).subrange(start, end) =~= event);
            if valid_utf8(event) {
                match payload_of(decode_utf8(event)) {
                    None => lemma_search_extends(bytes, more, end + 2, request_id, tally),
                    Some(payload) => if reply_to(payload, request_id) is None {
                        lemma_search_extends(
                            bytes,
                            more,
                            end + 2,
                            request_id,
                            counted(tally, kind_of(payload)),
                        )
                    },
                }
            }
        },
    }
}

/// Once an event answers the request, whatever follows leaves the answer as it is: to return
/// at that event is to return what the whole body would give.
pub proof fn law_answer_needs_no_more(
    bytes: Seq<u8>,
    more: Seq<u8>,
    request_id: u64,
    reply: Reply,
)
    requires
        search(bytes, 0, request_id, Seq::empty()) == Search::Answered(reply),
    ensures
        search(bytes + more, 0, request_id, Seq::empty()) == Search::Answered(reply),
{
    lemma_search_extends(bytes, more, 0, request_id, Seq::empty());
}

/// A boundary in `b` is found at the same place behind `a`.
proof fn lemma_boundary_shift(a: Seq<u8>, b: Seq<u8>, from: int)
    requires
        0 <= from,
    ensures
        boundary(a + b, a.len() + from) == match boundary(b, from) {
            Some(p) => Some(a.len() + p),
            None => None,
        },
    decreases b.len() - from,
{
    if from + 1 < b.len() && !blank_at(b, from) {
        lemma_boundary_shift(a, b, from + 1);
    }
}

/// Behind whole events `a`, the search in `b` comes to the same decision as in `b` alone.
pub proof fn lemma_search_shift(
    a: Seq<u8>,
    b: Seq<u8>,
    start: int,
    request_id: u64,
    behind: Seq<Entry>,
    alone: Seq<Entry>,
)
    requires
        0 <= start,
    ensures
        match search(b, start, request_id, alone) {
            Search::Open { start: stop, tally: seen } => search(
                a + b,
                a.len() + start,
                request_id,
                behind,
            ) matches Search::Open { start: moved, tally: kept } && moved == a.len() + stop && (
            behind == alone ==> kept == seen),
            decided => search(a + b, a.len() + start, request_id, behind) == decided,
        },
    decreases b.len() - start,
{
    lemma_boundary(b, start);
    lemma_boundary(a + b, a.len() + start);
    lemma_boundary_shift(a, b, start);
    match boundary(b, start) {
        None => {},
        Some(end) => {
            let event = b.subrange(start, end);
            assert((a + b).subrange(a.len() + start, a.len() + end) =~= event);
            if valid_utf8(event) {
                match payload_of(decode_utf8(event)) {
                    None => lemma_search_shift(a, b, end + 2, request_id, behind, alone),
                    Some(payload) => if reply_to(payload, request_id) is None {
                        lemma_search_shift(
                            a,
                            b,
                            end + 2,
                            request_id,
                            counted(behind, kind_of(payload)),
                            counted(alone, kind_of(payload)),
                        )
                    },
                }
            }
        },
    }
}

/// Events that do not answer the request, such as notifications, do not shadow the one that
/// does: whole events ahead of it change nothing of the answer.
pub proof fn law_other_events_do_not_shadow_the_answer(
    ahead: Seq<u8>,
    rest: Seq<u8>,
    request_id: u64,
    seen: Seq<Entry>,
    reply: Reply,
)
    requires
        search(ahead, 0, request_id, Seq::empty()) == (Search::Open {
            start: ahead.len() as int,
            tally: seen,
        }),
    ensures
        search(ahead + rest, 0, request_id, Seq::empty()) == Search::Answered(reply) <==> search(
            rest,
            0,
            request_id,
            Seq::empty(),
        ) == Search::Answered(reply),
{
    lemma_search_extends(ahead, rest, 0, request_id, Seq::empty());
    lemma_search_shift(ahead, rest, 0, request_id, seen, Seq::empty());
}

} // verus!
