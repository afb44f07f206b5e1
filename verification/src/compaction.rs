//! What the summarizing compaction strategies share: where the history is cut, how a prefix is
//! recognised, what the request says, and how the summary is spliced in.
use crate::context::{
    is_boundary, lemma_boundary_before, lemma_sum_concat, lemma_sum_tail, message_timestamp,
    safe_turn_start, sum, timestamp_of,
};
use crate::transcript::{serialize_transcript, transcript_of};
use crate::types::{
    content_views, history, AgentMessage, AgentMessageView, Content, ContentView, Message,
    MessageView,
};
use std::collections::hash_map::DefaultHasher;
use std::hash::Hasher;
use vstd::bytes::{lemma_auto_spec_u64_to_from_le_bytes, spec_u64_to_le_bytes, u64_to_le_bytes};
use vstd::prelude::*;
use vstd::slice::slice_subrange;
use vstd::std_specs::hash::DefaultHasherAdditionalSpecFns;

verus! {

// ---------------------------------------------------------------------------
// Where to cut
// ---------------------------------------------------------------------------

/// Whether the history may be cut at `cut`: at `least` or later, on a boundary, with at least
/// `keep_recent` messages and `retain` tokens after it.
pub open spec fn may_cut(
    messages: Seq<AgentMessageView>,
    tokens: Seq<usize>,
    least: int,
    retain: nat,
    keep_recent: nat,
    cut: int,
) -> bool {
    &&& least <= cut
    &&& is_boundary(messages, cut)
    &&& cut + keep_recent <= messages.len()
    &&& sum(tokens.skip(cut)) >= retain
}

/// The largest place at or before `at` where the history may be cut.
pub open spec fn largest_cut(
    messages: Seq<AgentMessageView>,
    tokens: Seq<usize>,
    least: int,
    retain: nat,
    keep_recent: nat,
    at: int,
) -> Option<int>
    decreases at + 1,
{
    if at < 0 {
        None
    } else if may_cut(messages, tokens, least, retain, keep_recent, at) {
        Some(at)
    } else {
        largest_cut(messages, tokens, least, retain, keep_recent, at - 1)
    }
}

/// `largest_cut` is a place where the history may be cut, and no later one up to `at` is.
pub proof fn lemma_largest_cut(
    messages: Seq<AgentMessageView>,
    tokens: Seq<usize>,
    least: int,
    retain: nat,
    keep_recent: nat,
    at: int,
)
    ensures
        match largest_cut(messages, tokens, least, retain, keep_recent, at) {
            Some(cut) => 0 <= cut <= at && may_cut(
                messages,
                tokens,
                least,
                retain,
                keep_recent,
                cut,
            ) && forall|later: int|
                cut < later <= at ==> !#[trigger] may_cut(
                    messages,
                    tokens,
                    least,
                    retain,
                    keep_recent,
                    later,
                ),
            None => forall|any: int|
                0 <= any <= at ==> !#[trigger] may_cut(
                    messages,
                    tokens,
                    least,
                    retain,
                    keep_recent,
                    any,
                ),
        },
    decreases at + 1,
{
    if at >= 0 && !may_cut(messages, tokens, least, retain, keep_recent, at) {
        lemma_largest_cut(messages, tokens, least, retain, keep_recent, at - 1);
    }
}

/// Finds the largest place where the history may be cut, no earlier than `least`, which lies
/// past the end of the head.
pub fn find_cut(
    messages: &[AgentMessage],
    tokens: &[usize],
    head_end: usize,
    least: usize,
    retain: usize,
    keep_recent: usize,
) -> (found: Option<usize>)
    requires
        tokens@.len() == messages@.len(),
        sum(tokens@) <= usize::MAX,
        head_end <= messages@.len(),
        head_end < least,
    ensures
        match found {
            Some(cut) => largest_cut(
                history(messages@),
                tokens@,
                least as int,
                retain as nat,
                keep_recent as nat,
                messages@.len() as int,
            ) == Some(cut as int),
            None => largest_cut(
                history(messages@),
                tokens@,
                least as int,
                retain as nat,
                keep_recent as nat,
                messages@.len() as int,
            ) is None,
        },
{
    let ghost all = history(messages@);
    let length: usize = messages.len();
    let mut cut: usize = length;
    let mut tail: usize = 0;
    assert(tokens@.skip(length as int) =~= Seq::<usize>::empty());
    while cut > head_end && tail < retain
        invariant
            head_end <= cut <= length,
            length == tokens@.len(),
            sum(tokens@) <= usize::MAX,
            tail == sum(tokens@.skip(cut as int)),
            forall|later: int|
                cut < later <= length ==> #[trigger] sum(tokens@.skip(later)) < retain,
        decreases cut,
    {
        proof {
            assert(tokens@.skip(cut - 1) =~= seq![tokens@[cut - 1]] + tokens@.skip(cut as int));
            lemma_sum_concat(seq![tokens@[cut - 1]], tokens@.skip(cut as int));
            assert(seq![tokens@[cut - 1]].drop_last() =~= Seq::<usize>::empty());
            assert(sum(seq![tokens@[cut - 1]]) == sum(Seq::<usize>::empty()) + tokens@[cut - 1]);
            lemma_sum_tail(tokens@, cut - 1, cut as int);
        }
        cut = cut - 1;
        tail = tail + tokens[cut];
    }
    let ghost walked: int = cut as int;
    let newest: usize = length.saturating_sub(keep_recent);
    if newest < cut {
        cut = newest;
    }
    let ghost capped: int = cut as int;
    let cut = safe_turn_start(messages, cut);
    proof {
        lemma_boundary_before(all, capped);
        lemma_sum_tail(tokens@, cut as int, walked);
        lemma_largest_cut(
            all,
            tokens@,
            least as int,
            retain as nat,
            keep_recent as nat,
            length as int,
        );
        assert forall|later: int| cut < later <= length && least <= later implies !#[trigger] may_cut(
            all,
            tokens@,
            least as int,
            retain as nat,
            keep_recent as nat,
            later,
        ) by {
            if later <= capped {
                assert(!is_boundary(all, later));
            }
        }
        if cut >= least {
            assert(sum(tokens@.skip(walked)) >= retain);
            assert(may_cut(
                all,
                tokens@,
                least as int,
                retain as nat,
                keep_recent as nat,
                cut as int,
            ));
        }
    }
    if cut >= least {
        Some(cut)
    } else {
        None
    }
}

// ---------------------------------------------------------------------------
// Recognising a prefix
// ---------------------------------------------------------------------------

/// The identity of a prefix of the history: how long it is, and a hash of it.
#[derive(Clone, Copy, Debug, PartialEq, Eq, Structural)]
pub struct Fingerprint {
    pub cut: usize,
    pub hash: u64,
}

/// The bytes of serialized messages. One that could not be serialized has none.
pub open spec fn renderings(rendered: Seq<Option<Vec<u8>>>) -> Seq<Option<Seq<u8>>> {
    rendered.map_values(
        |bytes: Option<Vec<u8>>|
            match bytes {
                Some(b) => Some(b@),
                None => None,
            },
    )
}

/// What is hashed of one serialized message, at its place in the history: the place, the
/// length of its bytes, and the bytes. A sentinel stands for one that could not be serialized.
pub open spec fn rendered_writes(at: int, bytes: Option<Seq<u8>>) -> Seq<Seq<u8>> {
    match bytes {
        Some(b) => seq![
            spec_u64_to_le_bytes(at as u64),
            spec_u64_to_le_bytes(b.len() as u64),
            b,
        ],
        None => seq![spec_u64_to_le_bytes(at as u64), seq![u8::MAX]],
    }
}

/// What is hashed of serialized messages, in order.
pub open spec fn rendered_feed(rendered: Seq<Option<Seq<u8>>>) -> Seq<Seq<u8>>
    decreases rendered.len(),
{
    if rendered.len() == 0 {
        Seq::empty()
    } else {
        rendered_feed(rendered.drop_last()) + rendered_writes(rendered.len() - 1, rendered.last())
    }
}

/// The fingerprint of the first `cut` messages, by their serialized bytes.
pub open spec fn rendered_fingerprint(rendered: Seq<Option<Seq<u8>>>, cut: usize) -> Fingerprint {
    Fingerprint {
        cut,
        hash: DefaultHasher::spec_finish(rendered_feed(rendered.take(cut as int))),
    }
}

/// Takes the fingerprint of the first `cut` messages, by their serialized bytes.
pub fn fingerprint_rendered(rendered: &[Option<Vec<u8>>], cut: usize) -> (fingerprint: Fingerprint)
    requires
        cut <= rendered@.len(),
    ensures
        fingerprint == rendered_fingerprint(renderings(rendered@), cut),
{
    let ghost all = renderings(rendered@);
    let mut hasher = DefaultHasher::new();
    let mut i: usize = 0;
    assert(all.take(0) =~= Seq::<Option<Seq<u8>>>::empty());
    while i < cut
        invariant
            i <= cut <= rendered.len(),
            all == renderings(rendered@),
            hasher@ == rendered_feed(all.take(i as int)),
        decreases cut - i,
    {
        let ghost before = hasher@;
        hasher.write(u64_to_le_bytes(i as u64).as_slice());
        match &rendered[i] {
            Some(bytes) => {
                hasher.write(u64_to_le_bytes(bytes.len() as u64).as_slice());
                hasher.write(bytes.as_slice());
            },
            None => {
                hasher.write(&[u8::MAX]);
            },
        }
        proof {
            let next = all.take(i + 1);
            assert(next.drop_last() =~= all.take(i as int));
            assert([u8::MAX]@ =~= seq![u8::MAX]);
            assert(hasher@ =~= before + rendered_writes(i as int, all[i as int]));
        }
        i = i + 1;
    }
    Fingerprint { cut, hash: hasher.finish() }
}

// ---------------------------------------------------------------------------
// The request
// ---------------------------------------------------------------------------

/// What the model is told to be.
pub const DEFAULT_SYSTEM_PROMPT: &'static str = "You are a context summarization assistant. You produce structured handoff briefings of agent conversations so that work can continue seamlessly with the summary in place of the original messages.";

/// What the model is asked for.
pub const DEFAULT_INSTRUCTION: &'static str = "Summarize the conversation above as a handoff briefing for an agent that will continue this work without access to the original messages. Use exactly these sections:\n## Goal\nWhat the user is trying to accomplish, verbatim where possible.\n## State & progress\nWhat has been done, what is currently in flight.\n## Key decisions & constraints\nDecisions made and why; constraints, preferences, and facts that must not be re-litigated.\n## Open items\nUnresolved questions and concrete next steps.\nBe dense and factual. Include exact identifiers (paths, names, versions, numbers) — those are the details the next agent cannot reconstruct.";

/// The most tokens of a summary.
pub const DEFAULT_SUMMARY_TOKENS: u32 = 2_000;

/// The most tokens of recent messages that are kept where nothing else is said.
pub const DEFAULT_RETAIN_TAIL_TOKENS: usize = 20_000;

/// The message of the request: the transcript of what is to be summarized, and the instruction.
pub open spec fn prompt_of(summarized: Seq<AgentMessageView>, instruction: Seq<char>) -> Seq<char> {
    "<conversation>\n"@ + transcript_of(summarized) + "\n</conversation>\n\n"@ + instruction
}

/// Writes the message of the request to summarize `messages[start..end]`.
pub fn write_prompt(
    messages: &[AgentMessage],
    start: usize,
    end: usize,
    instruction: &str,
) -> (prompt: String)
    requires
        start <= end <= messages@.len(),
    ensures
        prompt@ == prompt_of(
            history(messages@).subrange(start as int, end as int),
            instruction@,
        ),
{
    let span = slice_subrange(messages, start, end);
    assert(history(span@) =~= history(messages@).subrange(start as int, end as int));
    let transcript = serialize_transcript(span);
    let mut prompt = "<conversation>\n".to_owned();
    prompt.append(transcript.as_str());
    prompt.append("\n</conversation>\n\n");
    prompt.append(instruction);
    prompt
}

// ---------------------------------------------------------------------------
// The splice
// ---------------------------------------------------------------------------

/// The first line of every spliced summary, by which it is recognised.
pub const SUMMARY_MARKER: &'static str = "[Context compacted — summary of earlier conversation]";

/// The message that stands for what was summarized.
pub open spec fn summary_message(text: Seq<char>, timestamp: u64) -> AgentMessageView {
    AgentMessageView::Llm(
        MessageView::User {
            content: seq![ContentView::Text { text: SUMMARY_MARKER@ + "\n\n"@ + text }],
            timestamp,
        },
    )
}

/// The history with a summary in place of the messages between the head and `cut`. The summary
/// has the time of the last message that it stands for.
pub open spec fn spliced(
    messages: Seq<AgentMessageView>,
    head_end: int,
    cut: int,
    text: Seq<char>,
) -> Seq<AgentMessageView> {
    messages.take(head_end) + seq![summary_message(text, timestamp_of(messages[cut - 1]))]
        + messages.skip(cut)
}

/// Appends copies of `messages[start..end]` to `out`.
fn copy_range(out: &mut Vec<AgentMessage>, messages: &[AgentMessage], start: usize, end: usize)
    requires
        start <= end <= messages@.len(),
    ensures
        history(final(out)@) == history(old(out)@) + history(messages@).subrange(
            start as int,
            end as int,
        ),
{
    let ghost first = history(out@);
    let ghost all = history(messages@);
    let mut i: usize = start;
    assert(history(out@) =~= first + all.subrange(start as int, start as int));
    while i < end
        invariant
            start <= i <= end <= messages.len(),
            all == history(messages@),
            history(out@) == first + all.subrange(start as int, i as int),
        decreases end - i,
    {
        let ghost before = out@;
        let copy = messages[i].clone();
        out.push(copy);
        proof {
            assert(history(out@) =~= history(before).push(copy@));
            assert(first + all.subrange(start as int, i + 1) =~= (first + all.subrange(
                start as int,
                i as int,
            )).push(all[i as int]));
        }
        i = i + 1;
    }
}

/// Splices a summary into the history.
pub fn splice(messages: &[AgentMessage], head_end: usize, cut: usize, text: &str) -> (result: Vec<
    AgentMessage,
>)
    requires
        head_end <= messages@.len(),
        0 < cut <= messages@.len(),
    ensures
        history(result@) == spliced(history(messages@), head_end as int, cut as int, text@),
{
    let timestamp: u64 = message_timestamp(&messages[cut - 1]);
    let mut body = SUMMARY_MARKER.to_owned();
    body.append("\n\n");
    body.append(text);
    let mut content: Vec<Content> = Vec::new();
    content.push(Content::Text { text: body });
    let ghost parts = content_views(content@);
    assert(parts =~= seq![ContentView::Text { text: body@ }]);
    let summary = AgentMessage::Llm(Message::User { content, timestamp });

    let mut result: Vec<AgentMessage> = Vec::new();
    copy_range(&mut result, messages, 0, head_end);
    let ghost head = result@;
    result.push(summary);
    assert(history(result@) =~= history(head).push(summary@));
    copy_range(&mut result, messages, cut, messages.len());
    proof {
        let all = history(messages@);
        assert(history(result@) =~= spliced(all, head_end as int, cut as int, text@));
    }
    result
}

// ---------------------------------------------------------------------------
// Laws
// ---------------------------------------------------------------------------

/// A splice keeps the head and the tail as they are, word for word, and puts exactly one message
/// in place of what lies between: what is summarized is not kept, and what is kept is not
/// summarized.
pub proof fn law_splice_replaces_the_middle(
    messages: Seq<AgentMessageView>,
    head_end: int,
    cut: int,
    text: Seq<char>,
)
    requires
        0 <= head_end < cut <= messages.len(),
    ensures
        messages == messages.take(head_end) + messages.subrange(head_end, cut) + messages.skip(cut),
        spliced(messages, head_end, cut, text).len() == messages.len() - (cut - head_end) + 1,
        spliced(messages, head_end, cut, text).take(head_end) == messages.take(head_end),
        spliced(messages, head_end, cut, text)[head_end] == summary_message(
            text,
            timestamp_of(messages[cut - 1]),
        ),
        spliced(messages, head_end, cut, text).skip(head_end + 1) == messages.skip(cut),
{
    let result = spliced(messages, head_end, cut, text);
    assert(messages =~= messages.take(head_end) + messages.subrange(head_end, cut) + messages.skip(
        cut,
    ));
    assert(result.take(head_end) =~= messages.take(head_end));
    assert(result.skip(head_end + 1) =~= messages.skip(cut));
}

/// The bytes of a list of writes, one after the other: what a hash sees of them.
pub open spec fn flattened(writes: Seq<Seq<u8>>) -> Seq<u8>
    decreases writes.len(),
{
    if writes.len() == 0 {
        Seq::empty()
    } else {
        flattened(writes.drop_last()) + writes.last()
    }
}

proof fn lemma_flattened_concat(a: Seq<Seq<u8>>, b: Seq<Seq<u8>>)
    ensures
        flattened(a + b) == flattened(a) + flattened(b),
    decreases b.len(),
{
    if b.len() == 0 {
        assert(a + b =~= a);
        assert(flattened(a) + flattened(b) =~= flattened(a));
    } else {
        lemma_flattened_concat(a, b.drop_last());
        assert((a + b).drop_last() =~= a + b.drop_last());
        assert(flattened(a + b) =~= flattened(a) + flattened(b));
    }
}

/// The bytes that are hashed of three writes.
proof fn lemma_flattened_three(x: Seq<u8>, y: Seq<u8>, z: Seq<u8>)
    ensures
        flattened(seq![x, y, z]) == x + y + z,
{
    let all = seq![x, y, z];
    let two = all.drop_last();
    let one = two.drop_last();
    let none = one.drop_last();
    assert(none =~= Seq::<Seq<u8>>::empty());
    assert(flattened(none) =~= Seq::<u8>::empty());
    assert(flattened(one) =~= x);
    assert(flattened(two) =~= x + y);
}

/// Any edit to a serialized message changes the bytes that its fingerprint hashes: lists of the
/// same number of messages that differ anywhere are hashed as different bytes.
pub proof fn law_edit_changes_what_is_hashed(a: Seq<Option<Seq<u8>>>, b: Seq<Option<Seq<u8>>>)
    requires
        a.len() == b.len(),
        forall|i: int| 0 <= i < a.len() ==> (#[trigger] a[i]) is Some && a[i]->0.len() <= u64::MAX,
        forall|i: int| 0 <= i < b.len() ==> (#[trigger] b[i]) is Some && b[i]->0.len() <= u64::MAX,
        a != b,
    ensures
        flattened(rendered_feed(a)) != flattened(rendered_feed(b)),
{
    if flattened(rendered_feed(a)) == flattened(rendered_feed(b)) {
        lemma_feed_tail(a, 0);
        lemma_feed_tail(b, 0);
        lemma_tail_injective(a, b, 0);
        assert(a =~= b);
    }
}

/// The bytes that are hashed of the messages from `at` on.
spec fn feed_from(rendered: Seq<Option<Seq<u8>>>, at: int) -> Seq<u8>
    decreases rendered.len() - at,
{
    if at >= rendered.len() {
        Seq::empty()
    } else {
        flattened(rendered_writes(at, rendered[at])) + feed_from(rendered, at + 1)
    }
}

proof fn lemma_feed_tail(rendered: Seq<Option<Seq<u8>>>, at: int)
    requires
        0 <= at <= rendered.len(),
    ensures
        flattened(rendered_feed(rendered)) == flattened(rendered_feed(rendered.take(at)))
            + feed_from(rendered, at),
    decreases rendered.len() - at,
{
    if at == rendered.len() {
        assert(rendered.take(at) =~= rendered);
        assert(flattened(rendered_feed(rendered)) + feed_from(rendered, at) =~= flattened(
            rendered_feed(rendered),
        ));
    } else {
        lemma_feed_tail(rendered, at + 1);
        let next = rendered.take(at + 1);
        assert(next.drop_last() =~= rendered.take(at));
        lemma_flattened_concat(
            rendered_feed(rendered.take(at)),
            rendered_writes(at, rendered[at]),
        );
        assert(flattened(rendered_feed(rendered)) =~= flattened(rendered_feed(rendered.take(at)))
            + feed_from(rendered, at));
    }
}

proof fn lemma_tail_injective(a: Seq<Option<Seq<u8>>>, b: Seq<Option<Seq<u8>>>, at: int)
    requires
        0 <= at <= a.len(),
        a.len() == b.len(),
        forall|i: int| 0 <= i < a.len() ==> (#[trigger] a[i]) is Some && a[i]->0.len() <= u64::MAX,
        forall|i: int| 0 <= i < b.len() ==> (#[trigger] b[i]) is Some && b[i]->0.len() <= u64::MAX,
        feed_from(a, at) == feed_from(b, at),
    ensures
        forall|i: int| at <= i < a.len() ==> #[trigger] a[i] == b[i],
    decreases a.len() - at,
{
    if at < a.len() {
        lemma_auto_spec_u64_to_from_le_bytes();
        let x = a[at]->0;
        let y = b[at]->0;
        let place = spec_u64_to_le_bytes(at as u64);
        let lx = spec_u64_to_le_bytes(x.len() as u64);
        let ly = spec_u64_to_le_bytes(y.len() as u64);
        lemma_flattened_three(place, lx, x);
        lemma_flattened_three(place, ly, y);
        let whole_a = place + lx + x + feed_from(a, at + 1);
        let whole_b = place + ly + y + feed_from(b, at + 1);
        assert(feed_from(a, at) =~= whole_a);
        assert(feed_from(b, at) =~= whole_b);
        assert(lx =~= whole_a.subrange(8, 16));
        assert(ly =~= whole_b.subrange(8, 16));
        assert(x.len() == y.len());
        assert(x =~= whole_a.subrange(16, 16 + x.len() as int));
        assert(y =~= whole_b.subrange(16, 16 + y.len() as int));
        assert(feed_from(a, at + 1) =~= whole_a.skip(16 + x.len() as int));
        assert(feed_from(b, at + 1) =~= whole_b.skip(16 + y.len() as int));
        lemma_tail_injective(a, b, at + 1);
        assert(a[at] == b[at]);
    }
}

/// Two writes are a hash collision: the hash of both is the same, and the bytes are not.
pub open spec fn collide(a: Seq<Seq<u8>>, b: Seq<Seq<u8>>) -> bool {
    flattened(a) != flattened(b) && DefaultHasher::spec_finish(a) == DefaultHasher::spec_finish(b)
}

/// All messages up to `cut` were serialized.
pub open spec fn is_serialized(rendered: Seq<Option<Seq<u8>>>, cut: int) -> bool {
    forall|i: int|
        0 <= i < cut ==> (#[trigger] rendered[i]) is Some && rendered[i]->0.len() <= u64::MAX
}

/// A fingerprint tells every change of every message up to the cut: where two histories differ
/// at any of those places, their fingerprints are the same only by a hash collision. What is
/// after the cut does not matter, and the same messages have the same fingerprint.
pub proof fn law_fingerprint_tells_every_change(
    a: Seq<Option<Seq<u8>>>,
    b: Seq<Option<Seq<u8>>>,
    cut: usize,
    place: int,
)
    requires
        cut <= a.len(),
        cut <= b.len(),
    ensures
        rendered_fingerprint(a, cut).cut == cut,
        is_serialized(a, cut as int) && is_serialized(b, cut as int) && 0 <= place < cut && a[place]
            != b[place] && rendered_fingerprint(a, cut) == rendered_fingerprint(b, cut)
            ==> exists|x: Seq<Seq<u8>>, y: Seq<Seq<u8>>|
            #![trigger collide(x, y)]
            collide(x, y) && DefaultHasher::spec_finish(x) == rendered_fingerprint(a, cut).hash,
        (forall|i: int| 0 <= i < cut ==> #[trigger] a[i] == b[i]) ==> rendered_fingerprint(a, cut)
            == rendered_fingerprint(b, cut),
{
    let x = a.take(cut as int);
    let y = b.take(cut as int);
    if is_serialized(a, cut as int) && is_serialized(b, cut as int) && 0 <= place < cut && a[place]
        != b[place] {
        assert forall|i: int| 0 <= i < x.len() implies (#[trigger] x[i]) is Some && x[i]->0.len()
            <= u64::MAX by {
            assert(x[i] == a[i]);
        }
        assert forall|i: int| 0 <= i < y.len() implies (#[trigger] y[i]) is Some && y[i]->0.len()
            <= u64::MAX by {
            assert(y[i] == b[i]);
        }
        assert(x[place] != y[place]);
        law_edit_changes_what_is_hashed(x, y);
        if rendered_fingerprint(a, cut) == rendered_fingerprint(b, cut) {
            assert(collide(rendered_feed(x), rendered_feed(y)));
        }
    }
    if forall|i: int| 0 <= i < cut ==> #[trigger] a[i] == b[i] {
        assert(x =~= y);
    }
}

/// The request asks for a summary of the transcript between its marks, by the instruction after
/// them.
pub proof fn law_prompt_frames_the_transcript(
    summarized: Seq<AgentMessageView>,
    instruction: Seq<char>,
)
    ensures
        prompt_of(summarized, instruction) == "<conversation>\n"@ + transcript_of(summarized)
            + "\n</conversation>\n\n"@ + instruction,
{
}

/// The summary is a message of the user's, of one text: the marker, and the summary after a
/// blank line.
pub proof fn law_summary_is_marked(text: Seq<char>, timestamp: u64)
    ensures
        summary_message(text, timestamp) == AgentMessageView::Llm(
            MessageView::User {
                content: seq![
                    ContentView::Text {
                        text: "[Context compacted — summary of earlier conversation]"@ + "\n\n"@
                            + text,
                    },
                ],
                timestamp,
            },
        ),
{
}

/// What is asked for where nothing else is said.
pub proof fn law_defaults_are_as_documented()
    ensures
        DEFAULT_SYSTEM_PROMPT@
            == "You are a context summarization assistant. You produce structured handoff briefings of agent conversations so that work can continue seamlessly with the summary in place of the original messages."@,
        DEFAULT_INSTRUCTION@
            == "Summarize the conversation above as a handoff briefing for an agent that will continue this work without access to the original messages. Use exactly these sections:\n## Goal\nWhat the user is trying to accomplish, verbatim where possible.\n## State & progress\nWhat has been done, what is currently in flight.\n## Key decisions & constraints\nDecisions made and why; constraints, preferences, and facts that must not be re-litigated.\n## Open items\nUnresolved questions and concrete next steps.\nBe dense and factual. Include exact identifiers (paths, names, versions, numbers) — those are the details the next agent cannot reconstruct."@,
        DEFAULT_SUMMARY_TOKENS == 2_000,
        DEFAULT_RETAIN_TAIL_TOKENS == 20_000,
{
}

/// Each message adds to what is hashed: its place, the length of its bytes and the bytes, or its
/// place and a sentinel where it could not be serialized. None is left out.
pub proof fn law_each_message_is_hashed(rendered: Seq<Option<Seq<u8>>>, bytes: Seq<u8>)
    requires
        rendered.len() <= u64::MAX,
        bytes.len() <= u64::MAX,
    ensures
        ({
            let before = flattened(rendered_feed(rendered));
            let place = spec_u64_to_le_bytes(rendered.len() as u64);
            &&& flattened(rendered_feed(rendered.push(Some(bytes)))) == before + place
                + spec_u64_to_le_bytes(bytes.len() as u64) + bytes
            &&& flattened(rendered_feed(rendered.push(None))) == before + place + seq![0xffu8]
            &&& rendered_feed(Seq::empty()) == Seq::<Seq<u8>>::empty()
        }),
{
    let some = rendered.push(Some(bytes));
    let none = rendered.push(None);
    let place = spec_u64_to_le_bytes(rendered.len() as u64);
    let length = spec_u64_to_le_bytes(bytes.len() as u64);
    let before = flattened(rendered_feed(rendered));
    assert(some.drop_last() =~= rendered);
    assert(none.drop_last() =~= rendered);
    lemma_flattened_concat(rendered_feed(rendered), seq![place, length, bytes]);
    lemma_flattened_three(place, length, bytes);
    assert(before + (place + length + bytes) =~= before + place + length + bytes);
    let two = seq![place, seq![u8::MAX]];
    lemma_flattened_concat(rendered_feed(rendered), two);
    let one = two.drop_last();
    assert(one.drop_last() =~= Seq::<Seq<u8>>::empty());
    assert(flattened(one.drop_last()) =~= Seq::<u8>::empty());
    assert(flattened(one) =~= place);
    assert(flattened(two) =~= place + seq![u8::MAX]);
    assert(before + (place + seq![u8::MAX]) =~= before + place + seq![0xffu8]);
}

} // verus!
