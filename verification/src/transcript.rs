//! The transcript of a conversation that a summarization request carries, and what is taken
//! from the reply.
use crate::json::{json_text, render, Json};
use crate::text::{
    byte_len, join, joined, law_joining_adds_one_part, lemma_boundary_prefix, lemma_char_boundary, lemma_encode_concat,
    lemma_encode_injective, lemma_prefix_bytes, texts,
};
use crate::types::{
    content_views, history, no_usage, AgentMessage, AgentMessageView, Content, ContentView, Message,
    MessageView, Usage,
};
use vstd::prelude::*;
use vstd::utf8::{
    encode_utf8, encode_utf8_valid_utf8, is_ascii_chars_encode_utf8, is_char_boundary,
    is_char_boundary_start_end_of_seq,
};

verus! {

/// The most bytes of any one message that the transcript holds.
pub const TRANSCRIPT_PER_MESSAGE_CHARS: usize = 2_000;

/// The most bytes of a tool call's arguments that the transcript holds.
pub const TRANSCRIPT_ARGUMENTS_CHARS: usize = 300;

/// The longest prefix of `text` that takes at most `max` bytes.
pub open spec fn clipped(text: Seq<char>, max: nat) -> Seq<char>
    decreases text.len(),
{
    if text.len() == 0 || byte_len(text) <= max {
        text
    } else {
        clipped(text.drop_last(), max)
    }
}

/// A prefix that fits, and that one more character would make too long, is the longest that
/// fits.
proof fn lemma_clipped(text: Seq<char>, max: nat, k: int)
    requires
        0 <= k <= text.len(),
        byte_len(text.take(k)) <= max,
        k == text.len() || byte_len(text.take(k + 1)) > max,
    ensures
        clipped(text, max) == text.take(k),
    decreases text.len(),
{
    if k == text.len() {
        assert(text.take(k) =~= text);
    } else {
        assert(text.take(text.len() as int) =~= text);
        if k + 1 < text.len() {
            lemma_prefix_bytes(text, k + 1, text.len() as int);
        }
        let rest = text.drop_last();
        assert(rest.take(k) =~= text.take(k));
        if k + 1 < text.len() {
            assert(rest.take(k + 1) =~= text.take(k + 1));
        }
        lemma_clipped(rest, max, k);
    }
}

/// What is kept of a text is its start, fits in `max` bytes, and is all of it or as much as
/// fits.
pub proof fn law_clipped_text_fits(text: Seq<char>, max: nat)
    ensures
        clipped(text, max).is_prefix_of(text),
        byte_len(clipped(text, max)) <= max,
        clipped(text, max) == text || byte_len(text.take(clipped(text, max).len() as int + 1)) > max,
    decreases text.len(),
{
    if text.len() > 0 && byte_len(text) > max {
        law_clipped_text_fits(text.drop_last(), max);
        let kept = clipped(text, max);
        assert(text.take(text.len() as int) =~= text);
        if kept.len() + 1 < text.len() {
            assert(text.drop_last().take(kept.len() as int + 1) =~= text.take(
                kept.len() as int + 1,
            ));
        }
    }
}

/// Cuts `text` to at most `max` bytes, between characters.
pub fn clip(text: &str, max: usize) -> (head: &str)
    ensures
        head@ == clipped(text@, max as nat),
{
    let length: usize = text.as_bytes().len();
    if length <= max {
        return text;
    }
    let mut end: usize = max;
    let ghost bytes = encode_utf8(text@);
    proof {
        encode_utf8_valid_utf8(text@);
        is_char_boundary_start_end_of_seq(bytes);
    }
    while end > 0 && !text.is_char_boundary(end)
        invariant
            end <= max < length,
            length == byte_len(text@),
            bytes == encode_utf8(text@),
            forall|i: int| end < i <= max ==> !#[trigger] is_char_boundary(bytes, i),
        decreases end,
    {
        end = end - 1;
    }
    let (head, _) = text.split_at(end);
    proof {
        let k = lemma_boundary_prefix(text@, end as int);
        lemma_encode_injective(head@, text@.take(k));
        assert(text@.take(text@.len() as int) =~= text@);
        lemma_char_boundary(text@, k + 1);
        lemma_prefix_bytes(text@, k, k + 1);
        lemma_clipped(text@, max as nat, k);
    }
    head
}

// ---------------------------------------------------------------------------
// The transcript
// ---------------------------------------------------------------------------

/// The parts of a message.
pub open spec fn content_of(message: MessageView) -> Seq<ContentView> {
    match message {
        MessageView::User { content, .. } => content,
        MessageView::Assistant { content, .. } => content,
        MessageView::ToolResult { content, .. } => content,
    }
}

/// What the transcript takes of one part of a message, of which it may still hold `left` bytes:
/// the start of a text, or of the arguments of an assistant's tool call.
pub open spec fn taken_of(message: MessageView, part: ContentView, left: nat) -> Seq<char> {
    match (message, part) {
        (_, ContentView::Text { text }) => clipped(text, left),
        (MessageView::Assistant { .. }, ContentView::ToolCall { arguments, .. }) => clipped(
            json_text(arguments),
            if left <= TRANSCRIPT_ARGUMENTS_CHARS {
                left
            } else {
                TRANSCRIPT_ARGUMENTS_CHARS as nat
            },
        ),
        _ => Seq::empty(),
    }
}

/// The line of the transcript for one part of a message, of which it may still hold `left`
/// bytes. Texts and the tool calls of the assistant have one.
pub open spec fn line_for(message: MessageView, part: ContentView, left: nat) -> Seq<char> {
    let taken = taken_of(message, part, left);
    match (message, part) {
        (MessageView::User { .. }, ContentView::Text { .. }) => "User: "@ + taken + "\n"@,
        (MessageView::Assistant { .. }, ContentView::Text { .. }) => "Assistant: "@ + taken + "\n"@,
        (MessageView::Assistant { .. }, ContentView::ToolCall { name, .. }) => "[tool call] "@ + name
            + "("@ + taken + ")\n"@,
        (MessageView::ToolResult { tool_name, .. }, ContentView::Text { .. }) => "[tool result: "@
            + tool_name + "] "@ + taken + "\n"@,
        _ => Seq::empty(),
    }
}

/// How many bytes of a message the transcript may still hold after the given parts of it.
pub open spec fn left_after(message: MessageView, parts: Seq<ContentView>) -> nat
    decreases parts.len(),
{
    if parts.len() == 0 {
        TRANSCRIPT_PER_MESSAGE_CHARS as nat
    } else {
        let left = left_after(message, parts.drop_last());
        (left - byte_len(taken_of(message, parts.last(), left))) as nat
    }
}

/// The lines for the given parts of a message. They share one allowance, which the first of
/// them draw on first.
pub open spec fn lines_for(message: MessageView, parts: Seq<ContentView>) -> Seq<char>
    decreases parts.len(),
{
    if parts.len() == 0 {
        Seq::empty()
    } else {
        lines_for(message, parts.drop_last()) + line_for(
            message,
            parts.last(),
            left_after(message, parts.drop_last()),
        )
    }
}

/// What the transcript takes of the given parts of a message, without the labels.
pub open spec fn taken_from(message: MessageView, parts: Seq<ContentView>) -> Seq<char>
    decreases parts.len(),
{
    if parts.len() == 0 {
        Seq::empty()
    } else {
        taken_from(message, parts.drop_last()) + taken_of(
            message,
            parts.last(),
            left_after(message, parts.drop_last()),
        )
    }
}

/// What is taken of one part fits in what is left.
proof fn lemma_taken_fits(message: MessageView, part: ContentView, left: nat)
    ensures
        byte_len(taken_of(message, part, left)) <= left,
{
    match (message, part) {
        (_, ContentView::Text { text }) => law_clipped_text_fits(text, left),
        (MessageView::Assistant { .. }, ContentView::ToolCall { arguments, .. }) => {
            law_clipped_text_fits(
                json_text(arguments),
                if left <= TRANSCRIPT_ARGUMENTS_CHARS {
                    left
                } else {
                    TRANSCRIPT_ARGUMENTS_CHARS as nat
                },
            )
        },
        _ => {},
    }
}

/// The transcript is bounded per message: of any one message, however many parts it has, it
/// takes at most `TRANSCRIPT_PER_MESSAGE_CHARS` bytes of text and arguments. What it has not
/// taken is left for the parts that follow.
pub proof fn law_message_is_bounded(message: MessageView, parts: Seq<ContentView>)
    ensures
        byte_len(taken_from(message, parts)) <= TRANSCRIPT_PER_MESSAGE_CHARS,
        byte_len(taken_from(message, parts)) + left_after(message, parts)
            == TRANSCRIPT_PER_MESSAGE_CHARS,
    decreases parts.len(),
{
    if parts.len() > 0 {
        let before = parts.drop_last();
        let left = left_after(message, before);
        law_message_is_bounded(message, before);
        lemma_taken_fits(message, parts.last(), left);
        lemma_encode_concat(taken_from(message, before), taken_of(message, parts.last(), left));
    }
}

/// The transcript of a conversation: the lines of the messages that a model saw.
pub open spec fn transcript_of(messages: Seq<AgentMessageView>) -> Seq<char>
    decreases messages.len(),
{
    if messages.len() == 0 {
        Seq::empty()
    } else {
        transcript_of(messages.drop_last()) + match messages.last() {
            AgentMessageView::Llm(message) => lines_for(message, content_of(message)),
            AgentMessageView::Extension { .. } => Seq::empty(),
        }
    }
}

/// The transcript of one stretch of messages after another is one transcript after the other.
pub proof fn law_transcript_follows_the_messages(a: Seq<AgentMessageView>, b: Seq<AgentMessageView>)
    ensures
        transcript_of(a + b) == transcript_of(a) + transcript_of(b),
    decreases b.len(),
{
    if b.len() == 0 {
        assert(a + b =~= a);
        assert(transcript_of(a) + transcript_of(b) =~= transcript_of(a));
    } else {
        law_transcript_follows_the_messages(a, b.drop_last());
        assert((a + b).drop_last() =~= a + b.drop_last());
        assert(transcript_of(a + b) =~= transcript_of(a) + transcript_of(b));
    }
}

/// Writes the line for one part of a message, of which the transcript may still hold `left`
/// bytes, and returns how many it may hold after it.
fn write_part(out: &mut String, message: &Message, part: &Content, left: usize) -> (rest: usize)
    ensures
        final(out)@ == old(out)@ + line_for(message@, part@, left as nat),
        rest == left - byte_len(taken_of(message@, part@, left as nat)),
{
    let ghost start = out@;
    proof {
        lemma_taken_fits(message@, part@, left as nat);
    }
    match (message, part) {
        (Message::User { .. }, Content::Text { text }) => {
            let taken = clip(text.as_str(), left);
            out.append("User: ");
            out.append(taken);
            out.append("\n");
            assert(out@ =~= start + line_for(message@, part@, left as nat));
            left - taken.as_bytes().len()
        },
        (Message::Assistant { .. }, Content::Text { text }) => {
            let taken = clip(text.as_str(), left);
            out.append("Assistant: ");
            out.append(taken);
            out.append("\n");
            assert(out@ =~= start + line_for(message@, part@, left as nat));
            left - taken.as_bytes().len()
        },
        (Message::Assistant { .. }, Content::ToolCall { name, arguments, .. }) => {
            let arguments = render(arguments);
            let most: usize = if left <= TRANSCRIPT_ARGUMENTS_CHARS {
                left
            } else {
                TRANSCRIPT_ARGUMENTS_CHARS
            };
            let taken = clip(arguments.as_str(), most);
            out.append("[tool call] ");
            out.append(name.as_str());
            out.append("(");
            out.append(taken);
            out.append(")\n");
            assert(out@ =~= start + line_for(message@, part@, left as nat));
            left - taken.as_bytes().len()
        },
        (Message::ToolResult { tool_name, .. }, Content::Text { text }) => {
            let taken = clip(text.as_str(), left);
            out.append("[tool result: ");
            out.append(tool_name.as_str());
            out.append("] ");
            out.append(taken);
            out.append("\n");
            assert(out@ =~= start + line_for(message@, part@, left as nat));
            left - taken.as_bytes().len()
        },
        _ => {
            assert(out@ =~= start + line_for(message@, part@, left as nat));
            left
        },
    }
}

/// Writes the lines for a message.
fn write_message(out: &mut String, message: &Message)
    ensures
        final(out)@ == old(out)@ + lines_for(message@, content_of(message@)),
{
    let content = match message {
        Message::User { content, .. } => content,
        Message::Assistant { content, .. } => content,
        Message::ToolResult { content, .. } => content,
    };
    let ghost start = out@;
    let ghost parts = content_views(content@);
    let mut left: usize = TRANSCRIPT_PER_MESSAGE_CHARS;
    let mut i: usize = 0;
    proof {
        assert(parts.take(0) =~= Seq::<ContentView>::empty());
        assert(out@ =~= start + lines_for(message@, parts.take(0)));
    }
    while i < content.len()
        invariant
            i <= content.len(),
            parts == content_views(content@),
            left == left_after(message@, parts.take(i as int)),
            out@ == start + lines_for(message@, parts.take(i as int)),
        decreases content.len() - i,
    {
        proof {
            assert(parts.take(i + 1).drop_last() =~= parts.take(i as int));
            assert(parts.take(i + 1).last() == content@[i as int]@);
        }
        left = write_part(out, message, &content[i], left);
        assert(out@ =~= start + lines_for(message@, parts.take(i + 1)));
        i = i + 1;
    }
    assert(parts.take(i as int) =~= parts);
}

/// Writes the transcript of a conversation.
///
/// Each message is cut to a bound. Tool calls and results are there in short form: identifiers
/// matter, repetition does not.
pub fn serialize_transcript(messages: &[AgentMessage]) -> (out: String)
    ensures
        out@ == transcript_of(history(messages@)),
{
    let mut out = String::new();
    let ghost all = history(messages@);
    let mut i: usize = 0;
    assert(all.take(0) =~= Seq::<AgentMessageView>::empty());
    while i < messages.len()
        invariant
            i <= messages.len(),
            all == history(messages@),
            out@ == transcript_of(all.take(i as int)),
        decreases messages.len() - i,
    {
        proof {
            assert(all.take(i + 1).drop_last() =~= all.take(i as int));
            assert(all.take(i + 1).last() == messages@[i as int]@);
        }
        match &messages[i] {
            AgentMessage::Llm(message) => {
                write_message(&mut out, message);
            },
            AgentMessage::Extension(_) => {},
        }
        assert(out@ =~= transcript_of(all.take(i + 1)));
        i = i + 1;
    }
    assert(all.take(i as int) =~= all);
    out
}

// ---------------------------------------------------------------------------
// The reply
// ---------------------------------------------------------------------------

/// The texts among the parts of a message.
pub open spec fn text_parts(parts: Seq<ContentView>) -> Seq<Seq<char>>
    decreases parts.len(),
{
    if parts.len() == 0 {
        Seq::empty()
    } else {
        match parts.last() {
            ContentView::Text { text } => text_parts(parts.drop_last()).push(text),
            _ => text_parts(parts.drop_last()),
        }
    }
}

/// The texts of an assistant's message, joined by line feeds. Other messages have none.
pub open spec fn reply_text(message: MessageView) -> Seq<char> {
    match message {
        MessageView::Assistant { content, .. } => joined(text_parts(content), "\n"@),
        _ => Seq::empty(),
    }
}

/// The tokens that an assistant's message took. Other messages took none.
pub open spec fn reply_usage(message: MessageView) -> Usage {
    match message {
        MessageView::Assistant { usage, .. } => usage,
        _ => no_usage(),
    }
}

/// Reads the text of an assistant's message.
pub fn assistant_text(message: &Message) -> (text: String)
    ensures
        text@ == reply_text(message@),
{
    let content = match message {
        Message::Assistant { content, .. } => content,
        _ => {
            return String::new();
        },
    };
    let ghost parts = content_views(content@);
    let mut found: Vec<&str> = Vec::new();
    let mut i: usize = 0;
    proof {
        assert(parts.take(0) =~= Seq::<ContentView>::empty());
        assert(texts(found@) =~= Seq::<Seq<char>>::empty());
    }
    while i < content.len()
        invariant
            i <= content.len(),
            parts == content_views(content@),
            texts(found@) == text_parts(parts.take(i as int)),
        decreases content.len() - i,
    {
        let ghost before = found@;
        proof {
            assert(parts.take(i + 1).drop_last() =~= parts.take(i as int));
            assert(parts.take(i + 1).last() == content@[i as int]@);
        }
        match &content[i] {
            Content::Text { text } => {
                found.push(text.as_str());
                assert(texts(found@) =~= texts(before).push(text@));
            },
            _ => {},
        }
        i = i + 1;
    }
    assert(parts.take(i as int) =~= parts);
    join(found.as_slice(), "\n")
}

/// Reads the tokens that an assistant's message took.
pub fn assistant_usage(message: &Message) -> (usage: Usage)
    ensures
        usage == reply_usage(message@),
{
    match message {
        Message::Assistant { usage, .. } => *usage,
        _ => Usage::default(),
    }
}

// ---------------------------------------------------------------------------
// Laws
// ---------------------------------------------------------------------------

/// The most that parts of a message can ask of its allowance.
pub open spec fn size_of(parts: Seq<ContentView>) -> nat
    decreases parts.len(),
{
    if parts.len() == 0 {
        0
    } else {
        size_of(parts.drop_last()) + match parts.last() {
            ContentView::Text { text } => byte_len(text),
            ContentView::ToolCall { .. } => 300nat,
            _ => 0nat,
        }
    }
}

proof fn lemma_left_over(message: MessageView, parts: Seq<ContentView>)
    ensures
        left_after(message, parts) + size_of(parts) >= 2_000,
    decreases parts.len(),
{
    if parts.len() > 0 {
        let before = parts.drop_last();
        let left = left_after(message, before);
        lemma_left_over(message, before);
        lemma_taken_fits(message, parts.last(), left);
        match parts.last() {
            ContentView::Text { text } => {
                law_clipped_text_fits(text, left);
                let kept = clipped(text, left);
                assert(text.take(text.len() as int) =~= text);
                assert(kept =~= text.take(kept.len() as int));
                if kept.len() < text.len() {
                    lemma_prefix_bytes(text, kept.len() as int, text.len() as int);
                }
            },
            ContentView::ToolCall { arguments, .. } => {
                law_clipped_text_fits(
                    json_text(arguments),
                    if left <= TRANSCRIPT_ARGUMENTS_CHARS {
                        left
                    } else {
                        TRANSCRIPT_ARGUMENTS_CHARS as nat
                    },
                );
            },
            _ => {},
        }
    }
}

/// The transcript shows who said what: as long as a message stays within 2000 bytes, each of its
/// texts is there in full behind the name of who said it, and each tool call with its arguments,
/// where those stay within 300. What is no text and no call of the assistant's adds nothing.
pub proof fn law_transcript_shows_who_said_what(
    message: MessageView,
    parts: Seq<ContentView>,
    text: Seq<char>,
    id: Seq<char>,
    name: Seq<char>,
    arguments: Json,
    metadata: Option<Json>,
)
    ensures
        ({
            let said = parts.push(ContentView::Text { text });
            let called = parts.push(
                ContentView::ToolCall { id, name, arguments, provider_metadata: metadata },
            );
            let fits = size_of(parts) + byte_len(text) <= 2_000;
            &&& fits && message is User ==> lines_for(message, said) == lines_for(message, parts)
                + ("User: "@ + text + "\n"@)
            &&& fits && message is Assistant ==> lines_for(message, said) == lines_for(
                message,
                parts,
            ) + ("Assistant: "@ + text + "\n"@)
            &&& fits && message is ToolResult ==> lines_for(message, said) == lines_for(
                message,
                parts,
            ) + ("[tool result: "@ + message->ToolResult_tool_name + "] "@ + text + "\n"@)
            &&& message is Assistant && byte_len(json_text(arguments)) <= 300 && size_of(parts)
                + 300 <= 2_000 ==> lines_for(message, called) == lines_for(message, parts) + (
            "[tool call] "@ + name + "("@ + json_text(arguments) + ")\n"@)
            &&& !(message is Assistant) ==> lines_for(message, called) == lines_for(message, parts)
            &&& lines_for(message, Seq::empty()) == Seq::<char>::empty()
        }),
{
    let left = left_after(message, parts);
    lemma_left_over(message, parts);
    let said = parts.push(ContentView::Text { text });
    let called = parts.push(
        ContentView::ToolCall { id, name, arguments, provider_metadata: metadata },
    );
    assert(said.drop_last() =~= parts);
    assert(called.drop_last() =~= parts);
    if byte_len(text) <= left {
        assert(clipped(text, left) == text);
    }
    assert(lines_for(message, parts) + Seq::<char>::empty() =~= lines_for(message, parts));
}

/// Parts that are neither text nor tool call add nothing to the transcript.
pub proof fn law_other_parts_add_nothing(
    message: MessageView,
    parts: Seq<ContentView>,
    part: ContentView,
)
    requires
        part is Image || part is Thinking,
    ensures
        lines_for(message, parts.push(part)) == lines_for(message, parts),
{
    assert(parts.push(part).drop_last() =~= parts);
    assert(lines_for(message, parts) + Seq::<char>::empty() =~= lines_for(message, parts));
}

/// The transcript of one message is that of its parts, and a message that no model saw has none.
pub proof fn law_transcript_of_one_message(message: AgentMessageView)
    ensures
        message matches AgentMessageView::Llm(MessageView::User { content, .. }) ==> transcript_of(
            seq![message],
        ) == lines_for(message->Llm_0, content),
        message matches AgentMessageView::Llm(MessageView::Assistant { content, .. })
            ==> transcript_of(seq![message]) == lines_for(message->Llm_0, content),
        message matches AgentMessageView::Llm(MessageView::ToolResult { content, .. })
            ==> transcript_of(seq![message]) == lines_for(message->Llm_0, content),
        message is Extension ==> transcript_of(seq![message]) == Seq::<char>::empty(),
        transcript_of(Seq::empty()) == Seq::<char>::empty(),
{
    let none = Seq::<AgentMessageView>::empty();
    assert(seq![message].drop_last() =~= none);
    assert(transcript_of(none) =~= Seq::<char>::empty());
    match message {
        AgentMessageView::Llm(inner) => {
            let lines = lines_for(inner, content_of(inner));
            assert(transcript_of(seq![message]) =~= lines);
        },
        _ => {
            assert(transcript_of(seq![message]) =~= Seq::<char>::empty());
        },
    }
}

/// The bytes of the labels around what the transcript takes of parts of a message.
pub open spec fn labels_of(message: MessageView, parts: Seq<ContentView>) -> nat
    decreases parts.len(),
{
    if parts.len() == 0 {
        0
    } else {
        labels_of(message, parts.drop_last()) + match (message, parts.last()) {
            (MessageView::User { .. }, ContentView::Text { .. }) => 7nat,
            (MessageView::Assistant { .. }, ContentView::Text { .. }) => 12nat,
            (MessageView::Assistant { .. }, ContentView::ToolCall { name, .. }) => 15 + byte_len(
                name,
            ),
            (MessageView::ToolResult { tool_name, .. }, ContentView::Text { .. }) => 17 + byte_len(
                tool_name,
            ),
            _ => 0nat,
        }
    }
}

/// Of one message the transcript holds at most 2000 bytes beside the labels, however many parts
/// it has and however long they are.
pub proof fn law_transcript_of_a_message_is_bounded(message: MessageView, parts: Seq<ContentView>)
    ensures
        byte_len(lines_for(message, parts)) <= 2_000 + labels_of(message, parts),
{
    lemma_transcript_bytes(message, parts);
    law_message_is_bounded(message, parts);
}

proof fn lemma_transcript_bytes(message: MessageView, parts: Seq<ContentView>)
    ensures
        byte_len(lines_for(message, parts)) == byte_len(taken_from(message, parts)) + labels_of(
            message,
            parts,
        ),
    decreases parts.len(),
{
    if parts.len() > 0 {
        let before = parts.drop_last();
        let left = left_after(message, before);
        let taken = taken_of(message, parts.last(), left);
        let line = line_for(message, parts.last(), left);
        lemma_transcript_bytes(message, before);
        lemma_encode_concat(lines_for(message, before), line);
        lemma_encode_concat(taken_from(message, before), taken);
        match (message, parts.last()) {
            (MessageView::User { .. }, ContentView::Text { .. }) => {
                reveal_strlit("User: ");
                reveal_strlit("\n");
                is_ascii_chars_encode_utf8("User: "@);
                is_ascii_chars_encode_utf8("\n"@);
                lemma_encode_concat("User: "@, taken);
                lemma_encode_concat("User: "@ + taken, "\n"@);
            },
            (MessageView::Assistant { .. }, ContentView::Text { .. }) => {
                reveal_strlit("Assistant: ");
                reveal_strlit("\n");
                is_ascii_chars_encode_utf8("Assistant: "@);
                is_ascii_chars_encode_utf8("\n"@);
                lemma_encode_concat("Assistant: "@, taken);
                lemma_encode_concat("Assistant: "@ + taken, "\n"@);
            },
            (MessageView::Assistant { .. }, ContentView::ToolCall { name, .. }) => {
                reveal_strlit("[tool call] ");
                reveal_strlit("(");
                reveal_strlit(")\n");
                is_ascii_chars_encode_utf8("[tool call] "@);
                is_ascii_chars_encode_utf8("("@);
                is_ascii_chars_encode_utf8(")\n"@);
                lemma_encode_concat("[tool call] "@, name);
                lemma_encode_concat("[tool call] "@ + name, "("@);
                lemma_encode_concat("[tool call] "@ + name + "("@, taken);
                lemma_encode_concat("[tool call] "@ + name + "("@ + taken, ")\n"@);
            },
            (MessageView::ToolResult { tool_name, .. }, ContentView::Text { .. }) => {
                reveal_strlit("[tool result: ");
                reveal_strlit("] ");
                reveal_strlit("\n");
                is_ascii_chars_encode_utf8("[tool result: "@);
                is_ascii_chars_encode_utf8("] "@);
                is_ascii_chars_encode_utf8("\n"@);
                lemma_encode_concat("[tool result: "@, tool_name);
                lemma_encode_concat("[tool result: "@ + tool_name, "] "@);
                lemma_encode_concat("[tool result: "@ + tool_name + "] "@, taken);
                lemma_encode_concat("[tool result: "@ + tool_name + "] "@ + taken, "\n"@);
            },
            _ => {
                assert(line.len() == 0);
            },
        }
    }
}

/// The texts of the parts of a reply, joined by line feeds: one more text comes after a line
/// feed where there was one before, and what is no text adds nothing. Only the assistant replies.
pub proof fn law_reply_joins_its_texts(
    message: MessageView,
    longer: MessageView,
    part: ContentView,
    text: Seq<char>,
)
    requires
        message is Assistant,
        longer is Assistant,
        longer->Assistant_content == message->Assistant_content.push(part),
    ensures
        part == (ContentView::Text { text }) && (forall|i: int|
            0 <= i < message->Assistant_content.len() ==> !((
            #[trigger] message->Assistant_content[i]) is Text)) ==> reply_text(longer) == text,
        part == (ContentView::Text { text }) && (exists|i: int|
            0 <= i < message->Assistant_content.len() && (
            #[trigger] message->Assistant_content[i]) is Text) ==> reply_text(longer) == reply_text(
            message,
        ) + "\n"@ + text,
        !(part is Text) ==> reply_text(longer) == reply_text(message),
{
    let content = message->Assistant_content;
    assert(content.push(part).drop_last() =~= content);
    lemma_text_parts(content);
    let found = text_parts(content);
    law_joining_adds_one_part(found, text, "\n"@);
    if found.len() == 0 {
        assert(found.push(text) =~= seq![text]);
    }
}

proof fn lemma_text_parts(parts: Seq<ContentView>)
    ensures
        text_parts(parts).len() > 0 <==> exists|i: int|
            0 <= i < parts.len() && (#[trigger] parts[i]) is Text,
    decreases parts.len(),
{
    if parts.len() > 0 {
        let before = parts.drop_last();
        lemma_text_parts(before);
        if text_parts(before).len() > 0 {
            let i = choose|i: int| 0 <= i < before.len() && (#[trigger] before[i]) is Text;
            assert(parts[i] is Text);
        }
        if parts.last() is Text {
            assert(parts[parts.len() - 1] is Text);
        } else if exists|i: int| 0 <= i < parts.len() && (#[trigger] parts[i]) is Text {
            let i = choose|i: int| 0 <= i < parts.len() && (#[trigger] parts[i]) is Text;
            assert(before[i] is Text);
        }
    }
}

/// A reply without parts, and a message that is none, say nothing. A reply took the tokens that
/// it says.
pub proof fn law_reply_says_what_it_took(message: MessageView)
    ensures
        message is Assistant && message->Assistant_content.len() == 0 ==> reply_text(message)
            == Seq::<char>::empty(),
        !(message is Assistant) ==> reply_text(message) == Seq::<char>::empty(),
        message is Assistant ==> reply_usage(message) == message->Assistant_usage,
        !(message is Assistant) ==> reply_usage(message).total_tokens == 0 && reply_usage(
            message,
        ).input == 0 && reply_usage(message).output == 0,
{
}

} // verus!
