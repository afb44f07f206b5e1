//! Reading a response body as it arrives.
use crate::mcp::frames::{event_payload, payload_of, reply_to, response_for};
use crate::mcp::scan::{
    absorb, absorb_all, blank_at, body_of, boundary, intake_start, law_chunks_do_not_show,
    law_line_ends_do_not_show,
    lemma_absorb_all_extends, lemma_absorb_extends, lemma_absorb_first, lemma_boundary,
    lemma_boundary_at, lemma_no_boundary, lemma_search_extends, search, with_line_ends, Intake,
    Search,
};
use crate::mcp::skipped::{
    counted, described, kind_of, lemma_counted, total, Entry, SkippedFrames,
};
use crate::mcp::types::{outcome, Failure, JsonRpcResponse, McpError, Reply};
use crate::status::{is_status, status_line, status_text};
use crate::text::{
    after_prefix, decimal, first_chars, strip_prefix, take_chars, trim, trimmed, write_decimal,
};
use crate::utf8::{from_utf8, utf8_complaint, valid_up_to};
use vstd::prelude::*;
use vstd::slice::slice_subrange;
use vstd::utf8::{decode_utf8, valid_utf8};

verus! {

/// The error for bytes of a body that are not UTF-8. They are refused rather than decoded with
/// substitutes: a substitute is legal in JSON, and would pass as a result.
pub open spec fn undecodable(bytes: Seq<u8>, method: Seq<char>) -> Failure {
    Failure::Transport(
        "invalid UTF-8 in the response body on '"@ + method + "' at byte "@ + decimal(
            valid_up_to(bytes),
        ) + ": "@ + utf8_complaint(bytes),
    )
}

/// Decodes bytes of a body.
pub fn decode(bytes: &[u8], method: &str) -> (decoded: Result<String, McpError>)
    ensures
        decoded is Ok == valid_utf8(bytes@),
        decoded matches Ok(text) ==> text@ == decode_utf8(bytes@),
        decoded matches Err(error) ==> error@ == undecodable(bytes@, method@),
{
    match from_utf8(bytes) {
        Ok(text) => Ok(text),
        Err(error) => {
            let mut text = "invalid UTF-8 in the response body on '".to_owned();
            text.append(method);
            text.append("' at byte ");
            text.append(write_decimal(error.valid_up_to as u64).as_str());
            text.append(": ");
            text.append(error.complaint.as_str());
            Err(McpError::Transport(text))
        },
    }
}

/// A text without the byte order mark at its start.
pub open spec fn without_mark(text: Seq<char>) -> Seq<char> {
    match after_prefix(text, "\u{feff}"@) {
        Some(rest) => rest,
        None => text,
    }
}

/// The success that stands for an acknowledgement without a body.
pub open spec fn acknowledgement(request_id: u64) -> Reply {
    Reply { jsonrpc: "2.0"@, id: Some(request_id), result: None, error: None }
}

/// The error for a response that should have had a body.
pub open spec fn empty_body(method: Seq<char>, status: u16) -> Failure {
    Failure::Transport(
        "HTTP "@ + status_line(status) + " with an empty body on '"@ + method
            + "' (expected a JSON-RPC response; an empty 2xx usually means a proxy or gateway answered instead of the MCP server)"@,
    )
}

/// The error for a body without the response.
pub open spec fn no_response(
    body: Seq<char>,
    request_id: u64,
    method: Seq<char>,
    status: u16,
    tally: Seq<Entry>,
) -> Failure {
    Failure::Transport(
        "HTTP "@ + status_line(status) + ": no JSON-RPC response for '"@ + method + "' (id "@
            + decimal(request_id as nat) + ") in the body"@ + described(tally) + ": "@ + first_chars(
            body,
            200,
        ),
    )
}

/// What the end of a body comes to, when none of its whole events answers the request.
///
/// An empty body acknowledges a notification where the status says so, and is an error
/// otherwise. A body that is one JSON document answers as a whole. Failing that, the bytes from
/// `start` on may be a last event that was never ended by a blank line.
pub open spec fn ending(
    bytes: Seq<u8>,
    start: int,
    request_id: u64,
    method: Seq<char>,
    status: u16,
    tally: Seq<Entry>,
) -> Result<Reply, Failure> {
    let body = without_mark(decode_utf8(bytes));
    let tail = bytes.skip(start);
    if !valid_utf8(bytes) {
        Err(undecodable(bytes, method))
    } else if trimmed(body).len() == 0 {
        if status == 202 || status == 204 {
            Ok(acknowledgement(request_id))
        } else {
            Err(empty_body(method, status))
        }
    } else if reply_to(body, request_id) is Some {
        Ok(reply_to(body, request_id)->0)
    } else if start >= bytes.len() {
        Err(no_response(body, request_id, method, status, tally))
    } else if !valid_utf8(tail) {
        Err(undecodable(tail, method))
    } else {
        match payload_of(decode_utf8(tail)) {
            None => Err(no_response(body, request_id, method, status, tally)),
            Some(payload) => match reply_to(payload, request_id) {
                Some(reply) => Ok(reply),
                None => Err(
                    no_response(body, request_id, method, status, counted(tally, kind_of(payload))),
                ),
            },
        }
    }
}

/// What a whole body comes to: the first event that answers the request, or else its end.
pub open spec fn body_outcome(
    bytes: Seq<u8>,
    request_id: u64,
    method: Seq<char>,
    status: u16,
) -> Result<Reply, Failure> {
    match search(bytes, 0, request_id, Seq::empty()) {
        Search::Answered(reply) => Ok(reply),
        Search::Undecodable(event) => Err(undecodable(event, method)),
        Search::Open { start, tally } => ending(bytes, start, request_id, method, status, tally),
    }
}

/// What the bytes so far come to: an answer, an error, or nothing yet.
pub open spec fn progress(bytes: Seq<u8>, request_id: u64, method: Seq<char>) -> Result<
    Option<Reply>,
    Failure,
> {
    match search(bytes, 0, request_id, Seq::empty()) {
        Search::Answered(reply) => Ok(Some(reply)),
        Search::Undecodable(event) => Err(undecodable(event, method)),
        Search::Open { .. } => Ok(None),
    }
}

/// What a step of reading came to.
pub open spec fn step_outcome(result: Result<Option<JsonRpcResponse>, McpError>) -> Result<
    Option<Reply>,
    Failure,
> {
    match result {
        Ok(Some(response)) => Ok(Some(response@)),
        Ok(None) => Ok(None),
        Err(error) => Err(error@),
    }
}

/// Reads the body of the response to one request, chunk by chunk, up to the event that answers
/// the request.
///
/// The search runs on bytes: a chunk may end inside a character, and whole events decode
/// cleanly. The bytes of events that were passed over are kept, since the body may turn out to
/// be a single document.
pub struct BodyReader {
    request_id: u64,
    method: String,
    status: u16,
    buf: Vec<u8>,
    after_return: bool,
    /// The events before this position are done.
    scanned: usize,
    /// No boundary lies between `scanned` and this position.
    searched: usize,
    skipped: SkippedFrames,
}

impl BodyReader {
    /// The request whose response is awaited.
    pub closed spec fn request_id(&self) -> u64 {
        self.request_id
    }

    /// The method of that request.
    pub closed spec fn method(&self) -> Seq<char> {
        self.method@
    }

    /// The status of the response.
    pub closed spec fn status(&self) -> u16 {
        self.status
    }

    /// What was read so far.
    pub closed spec fn intake(&self) -> Intake {
        Intake { bytes: self.buf@, after_return: self.after_return }
    }

    /// The events before the cursor are done and counted, nothing before the second cursor is a
    /// boundary, and where the search is open the cursor is where it stands.
    pub closed spec fn inv(&self) -> bool {
        &&& self.cursors()
        &&& search(self.buf@, 0, self.request_id, Seq::empty()) matches Search::Open {
            start,
            tally,
        } ==> start == self.scanned && tally == self.skipped@
    }

    spec fn cursors(&self) -> bool {
        &&& is_status(self.status)
        &&& self.scanned <= self.buf.len()
        &&& self.skipped.wf()
        &&& total(self.skipped@) <= self.scanned
        &&& search(self.buf@.take(self.scanned as int), 0, self.request_id, Seq::empty())
            == Search::Open { start: self.scanned as int, tally: self.skipped@ }
        &&& self.searched <= self.scanned || self.searched < self.buf.len()
        &&& forall|i: int| self.scanned <= i < self.searched ==> !#[trigger] blank_at(self.buf@, i)
    }

    /// The same request, response and bytes.
    pub open spec fn same_reading(&self, other: &BodyReader) -> bool {
        &&& self.request_id() == other.request_id()
        &&& self.method() == other.method()
        &&& self.status() == other.status()
        &&& self.intake() == other.intake()
    }

    /// Starts reading the response to a request.
    pub fn new(request_id: u64, method: &str, status: u16) -> (reader: BodyReader)
        requires
            is_status(status),
        ensures
            reader.inv(),
            reader.request_id() == request_id,
            reader.method() == method@,
            reader.status() == status,
            reader.intake() == intake_start(),
    {
        let reader = BodyReader {
            request_id,
            method: method.to_owned(),
            status,
            buf: Vec::new(),
            after_return: false,
            scanned: 0,
            searched: 0,
            skipped: SkippedFrames::new(),
        };
        proof {
            assert(reader.buf@.take(0) =~= Seq::<u8>::empty());
            assert(reader.buf@ =~= Seq::<u8>::empty());
        }
        reader
    }

    /// Takes in a chunk, with every line end written as a line feed.
    fn take_in(&mut self, chunk: &[u8])
        requires
            old(self).inv(),
        ensures
            final(self).cursors(),
            final(self).request_id() == old(self).request_id(),
            final(self).method() == old(self).method(),
            final(self).status() == old(self).status(),
            final(self).intake() == absorb(old(self).intake(), chunk@),
    {
        let ghost start = *self;
        let mut i: usize = 0;
        assert(chunk@.take(0) =~= Seq::<u8>::empty());
        while i < chunk.len()
            invariant
                i <= chunk.len(),
                self.request_id == start.request_id,
                self.method == start.method,
                self.status == start.status,
                self.scanned == start.scanned,
                self.searched == start.searched,
                self.skipped == start.skipped,
                self.intake() == absorb(start.intake(), chunk@.take(i as int)),
            decreases chunk.len() - i,
        {
            let byte: u8 = chunk[i];
            assert(chunk@.take(i + 1).drop_last() =~= chunk@.take(i as int));
            if byte == 0x0d {
                self.buf.push(0x0a);
                self.after_return = true;
            } else if byte == 0x0a && self.after_return {
                self.after_return = false;
            } else {
                self.buf.push(byte);
                self.after_return = false;
            }
            i = i + 1;
        }
        proof {
            assert(chunk@.take(i as int) =~= chunk@);
            lemma_absorb_extends(start.intake(), chunk@);
            let before = start.buf@;
            assert(before.is_prefix_of(self.buf@));
            assert(self.buf@.take(self.scanned as int) =~= before.take(start.scanned as int));
            assert forall|i: int| self.scanned <= i < self.searched implies !#[trigger] blank_at(
                self.buf@,
                i,
            ) by {
                assert(!blank_at(before, i));
            }
        }
    }

    /// Finds the next boundary, and remembers how far the search for it went.
    fn next_boundary(&mut self) -> (found: Option<usize>)
        requires
            old(self).cursors(),
        ensures
            final(self).cursors(),
            final(self).same_reading(old(self)),
            final(self).scanned == old(self).scanned,
            final(self).skipped == old(self).skipped,
            match found {
                Some(p) => boundary(old(self).buf@, old(self).scanned as int) == Some(p as int),
                None => boundary(old(self).buf@, old(self).scanned as int) is None,
            },
    {
        let ghost start = *self;
        let mut i: usize = if self.scanned < self.searched {
            self.searched
        } else {
            self.scanned
        };
        let length: usize = self.buf.len();
        while i < length && i + 1 < length
            invariant
                self.scanned <= i <= length,
                length == self.buf.len(),
                *self == start,
                start.cursors(),
                forall|j: int| self.scanned <= j < i ==> !#[trigger] blank_at(self.buf@, j),
            decreases length - i,
        {
            if self.buf[i] == 0x0a && self.buf[i + 1] == 0x0a {
                proof {
                    lemma_boundary_at(self.buf@, self.scanned as int, i as int);
                }
                return Some(i);
            }
            i = i + 1;
        }
        proof {
            lemma_no_boundary(self.buf@, self.scanned as int);
        }
        self.searched = if length == 0 {
            0
        } else {
            length - 1
        };
        None
    }

    /// Takes in the next chunk of the body.
    ///
    /// The response comes back as soon as a whole event carries it, so a server that keeps the
    /// stream open after answering does not hold up the call.
    pub fn feed(&mut self, chunk: &[u8]) -> (result: Result<Option<JsonRpcResponse>, McpError>)
        requires
            old(self).inv(),
        ensures
            final(self).inv(),
            final(self).request_id() == old(self).request_id(),
            final(self).method() == old(self).method(),
            final(self).status() == old(self).status(),
            final(self).intake() == absorb(old(self).intake(), chunk@),
            step_outcome(result) == progress(
                final(self).intake().bytes,
                old(self).request_id(),
                old(self).method(),
            ),
    {
        self.take_in(chunk);
        let ghost taken = *self;
        loop
            invariant
                self.cursors(),
                self.same_reading(&taken),
                taken.request_id() == old(self).request_id(),
                taken.method() == old(self).method(),
                taken.status() == old(self).status(),
                taken.intake() == absorb(old(self).intake(), chunk@),
            decreases self.buf.len() - self.scanned,
        {
            proof {
                let done = self.buf@.take(self.scanned as int);
                let rest = self.buf@.skip(self.scanned as int);
                assert(self.buf@ =~= done + rest);
                lemma_search_extends(done, rest, 0, self.request_id, Seq::empty());
                lemma_boundary(self.buf@, self.scanned as int);
            }
            let ghost before = *self;
            let end: usize = match self.next_boundary() {
                Some(end) => end,
                None => {
                    return Ok(None);
                },
            };
            let event = match decode(
                slice_subrange(self.buf.as_slice(), self.scanned, end),
                self.method.as_str(),
            ) {
                Ok(event) => event,
                Err(error) => {
                    return Err(error);
                },
            };
            let payload = event_payload(event.as_str());
            let ghost mut tally = self.skipped@;
            match payload {
                Some(payload) => {
                    match response_for(payload.as_str(), self.request_id) {
                        Some(response) => {
                            return Ok(Some(response));
                        },
                        None => {},
                    }
                    proof {
                        self.skipped.lemma_ordered();
                        lemma_counted(self.skipped@, kind_of(payload@));
                        tally = counted(self.skipped@, kind_of(payload@));
                    }
                    self.skipped.note_skipped(payload.as_str());
                },
                None => {},
            }
            self.scanned = end + 2;
            self.searched = self.scanned;
            proof {
                let done = before.buf@.take(before.scanned as int);
                let more = before.buf@.subrange(before.scanned as int, end + 2);
                let upto = before.buf@.take(end + 2);
                assert(upto =~= done + more);
                lemma_search_extends(done, more, 0, before.request_id, Seq::empty());
                assert forall|i: int| before.scanned <= i < end implies !#[trigger] blank_at(
                    upto,
                    i,
                ) by {
                    assert(!blank_at(before.buf@, i));
                }
                lemma_boundary_at(upto, before.scanned as int, end as int);
                assert(upto.subrange(before.scanned as int, end as int)
                    =~= before.buf@.subrange(before.scanned as int, end as int));
                lemma_no_boundary(upto, end + 2);
                assert(self.skipped@ == tally);
                assert(search(upto, end + 2, before.request_id, tally) == (Search::Open {
                    start: end + 2,
                    tally,
                }));
            }
        }
    }

    /// Ends the body: what came is all there is.
    pub fn finish(self) -> (result: Result<JsonRpcResponse, McpError>)
        requires
            self.inv(),
        ensures
            outcome(result) == body_outcome(
                self.intake().bytes,
                self.request_id(),
                self.method(),
                self.status(),
            ),
    {
        let mut reader = self;
        match reader.feed(&[]) {
            Ok(Some(response)) => {
                return Ok(response);
            },
            Ok(None) => {},
            Err(error) => {
                return Err(error);
            },
        }
        let BodyReader { request_id, method, status, buf, scanned, skipped, .. } = reader;
        let text = match decode(buf.as_slice(), method.as_str()) {
            Ok(text) => text,
            Err(error) => {
                return Err(error);
            },
        };
        let body = match strip_prefix(text.as_str(), "\u{feff}") {
            Some(rest) => rest,
            None => text.as_str(),
        };
        if trim(body).unicode_len() == 0 {
            if status == 202 || status == 204 {
                return Ok(
                    JsonRpcResponse {
                        jsonrpc: "2.0".to_owned(),
                        id: Some(request_id),
                        result: None,
                        error: None,
                    },
                );
            }
            let mut text = "HTTP ".to_owned();
            text.append(status_text(status).as_str());
            text.append(" with an empty body on '");
            text.append(method.as_str());
            text.append(
                "' (expected a JSON-RPC response; an empty 2xx usually means a proxy or gateway answered instead of the MCP server)",
            );
            return Err(McpError::Transport(text));
        }
        match response_for(body, request_id) {
            Some(response) => {
                return Ok(response);
            },
            None => {},
        }
        let mut skipped = skipped;
        if scanned < buf.len() {
            let tail = slice_subrange(buf.as_slice(), scanned, buf.len());
            assert(tail@ =~= buf@.skip(scanned as int));
            let event = match decode(tail, method.as_str()) {
                Ok(event) => event,
                Err(error) => {
                    return Err(error);
                },
            };
            match event_payload(event.as_str()) {
                Some(payload) => {
                    match response_for(payload.as_str(), request_id) {
                        Some(response) => {
                            return Ok(response);
                        },
                        None => {},
                    }
                    proof {
                        skipped.lemma_ordered();
                        lemma_counted(skipped@, kind_of(payload@));
                    }
                    skipped.note_skipped(payload.as_str());
                },
                None => {},
            }
        }
        let mut text = "HTTP ".to_owned();
        text.append(status_text(status).as_str());
        text.append(": no JSON-RPC response for '");
        text.append(method.as_str());
        text.append("' (id ");
        text.append(write_decimal(request_id).as_str());
        text.append(") in the body");
        text.append(skipped.describe_skipped().as_str());
        text.append(": ");
        text.append(take_chars(body, 200));
        Err(McpError::Transport(text))
    }

    /// The error for a body that broke off before the response came.
    pub fn read_error(&self, cause: &str) -> (error: McpError)
        ensures
            error@ == broken_off(self.intake().bytes, self.method(), cause@),
    {
        let mut text = "Response read error on '".to_owned();
        text.append(self.method.as_str());
        text.append("' after ");
        text.append(write_decimal(self.buf.len() as u64).as_str());
        text.append(" byte(s): ");
        text.append(cause);
        McpError::Transport(text)
    }
}

/// The error for a body that broke off: how much of it was read, and why there is no more. What
/// was passed over is told only of a body that came to its end.
pub open spec fn broken_off(bytes: Seq<u8>, method: Seq<char>, cause: Seq<char>) -> Failure {
    Failure::Transport(
        "Response read error on '"@ + method + "' after "@ + decimal(bytes.len()) + " byte(s): "@
            + cause,
    )
}

/// What comes of taking in `chunks` one by one, up to the first that decides, and ending the
/// body after the last.
pub open spec fn reading(
    intake: Intake,
    chunks: Seq<Seq<u8>>,
    request_id: u64,
    method: Seq<char>,
    status: u16,
) -> Result<Reply, Failure>
    decreases chunks.len(),
{
    if chunks.len() == 0 {
        body_outcome(intake.bytes, request_id, method, status)
    } else {
        let next = absorb(intake, chunks[0]);
        match progress(next.bytes, request_id, method) {
            Ok(Some(reply)) => Ok(reply),
            Ok(None) => reading(next, chunks.drop_first(), request_id, method, status),
            Err(failure) => Err(failure),
        }
    }
}

/// How a body is cut into chunks does not show, and neither does returning early: reading it
/// chunk by chunk gives what the whole body gives.
pub proof fn law_reading_is_the_whole_body(
    chunks: Seq<Seq<u8>>,
    request_id: u64,
    method: Seq<char>,
    status: u16,
)
    ensures
        reading(intake_start(), chunks, request_id, method, status) == body_outcome(
            absorb(intake_start(), body_of(chunks)).bytes,
            request_id,
            method,
            status,
        ),
{
    lemma_reading(intake_start(), chunks, request_id, method, status);
    law_chunks_do_not_show(chunks);
}

proof fn lemma_reading(
    intake: Intake,
    chunks: Seq<Seq<u8>>,
    request_id: u64,
    method: Seq<char>,
    status: u16,
)
    ensures
        reading(intake, chunks, request_id, method, status) == body_outcome(
            absorb_all(intake, chunks).bytes,
            request_id,
            method,
            status,
        ),
    decreases chunks.len(),
{
    if chunks.len() > 0 {
        let next = absorb(intake, chunks[0]);
        let rest = chunks.drop_first();
        lemma_reading(next, rest, request_id, method, status);
        lemma_absorb_first(intake, chunks);
        lemma_absorb_all_extends(next, rest);
        let whole = absorb_all(next, rest).bytes;
        let more = whole.skip(next.bytes.len() as int);
        assert(whole =~= next.bytes + more);
        lemma_search_extends(next.bytes, more, 0, request_id, Seq::empty());
    }
}

/// A body comes to the same with CR LF, with LF and with CR alone at the ends of its lines.
pub proof fn law_framing_does_not_show(
    bytes: Seq<u8>,
    request_id: u64,
    method: Seq<char>,
    status: u16,
)
    requires
        !bytes.contains(0x0d),
    ensures
        body_outcome(
            absorb(intake_start(), with_line_ends(bytes, seq![0x0du8, 0x0a])).bytes,
            request_id,
            method,
            status,
        ) == body_outcome(
            absorb(intake_start(), bytes).bytes,
            request_id,
            method,
            status,
        ),
        body_outcome(
            absorb(intake_start(), with_line_ends(bytes, seq![0x0du8])).bytes,
            request_id,
            method,
            status,
        ) == body_outcome(
            absorb(intake_start(), bytes).bytes,
            request_id,
            method,
            status,
        ),
{
    law_line_ends_do_not_show(bytes);
}

} // verus!
