//! The size and the boundaries of a conversation's history.
use crate::types::{history, AgentMessage, AgentMessageView, Message, MessageView};
use vstd::prelude::*;

verus! {

/// How much of a conversation the model is to see.
pub struct ContextConfig {
    /// The tokens that the model's context holds.
    pub max_context_tokens: usize,
    /// The tokens of those that the system prompt takes.
    pub system_prompt_tokens: usize,
    /// How many messages at the start are kept in any case.
    pub keep_first: usize,
    /// How many messages at the end are kept in any case.
    pub keep_recent: usize,
}

/// The tokens left for messages.
pub open spec fn budget_of(config: ContextConfig) -> nat {
    if config.max_context_tokens >= config.system_prompt_tokens {
        (config.max_context_tokens - config.system_prompt_tokens) as nat
    } else {
        0
    }
}

impl ContextConfig {
    /// The tokens left for messages.
    pub fn budget(&self) -> (tokens: usize)
        ensures
            tokens == budget_of(*self),
    {
        self.max_context_tokens.saturating_sub(self.system_prompt_tokens)
    }
}

/// The sum of `tokens`.
pub open spec fn sum(tokens: Seq<usize>) -> nat
    decreases tokens.len(),
{
    if tokens.len() == 0 {
        0
    } else {
        sum(tokens.drop_last()) + tokens.last() as nat
    }
}

/// The sum of a concatenation is the sum of the sums.
pub proof fn lemma_sum_concat(a: Seq<usize>, b: Seq<usize>)
    ensures
        sum(a + b) == sum(a) + sum(b),
    decreases b.len(),
{
    if b.len() == 0 {
        assert(a + b =~= a);
    } else {
        lemma_sum_concat(a, b.drop_last());
        assert((a + b).drop_last() =~= a + b.drop_last());
    }
}

/// The tail that starts earlier holds no fewer tokens.
pub proof fn lemma_sum_tail(tokens: Seq<usize>, i: int, j: int)
    requires
        0 <= i <= j <= tokens.len(),
    ensures
        sum(tokens.skip(j)) <= sum(tokens.skip(i)) <= sum(tokens),
{
    assert(tokens.skip(i) =~= tokens.subrange(i, j) + tokens.skip(j));
    lemma_sum_concat(tokens.subrange(i, j), tokens.skip(j));
    assert(tokens =~= tokens.take(i) + tokens.skip(i));
    lemma_sum_concat(tokens.take(i), tokens.skip(i));
}

/// Adds up the tokens of messages.
pub fn total_tokens(tokens: &[usize]) -> (total: usize)
    requires
        sum(tokens@) <= usize::MAX,
    ensures
        total == sum(tokens@),
{
    let mut total: usize = 0;
    let mut i: usize = 0;
    assert(tokens@.take(0) =~= Seq::<usize>::empty());
    while i < tokens.len()
        invariant
            i <= tokens.len(),
            sum(tokens@) <= usize::MAX,
            total == sum(tokens@.take(i as int)),
        decreases tokens.len() - i,
    {
        proof {
            assert(tokens@.take(i + 1).drop_last() =~= tokens@.take(i as int));
            assert(tokens@ =~= tokens@.take(i + 1) + tokens@.skip(i + 1));
            lemma_sum_concat(tokens@.take(i + 1), tokens@.skip(i + 1));
        }
        total = total + tokens[i];
        i = i + 1;
    }
    assert(tokens@.take(i as int) =~= tokens@);
    total
}

/// Whether messages take more tokens than there are for them.
pub fn over_budget(tokens: &[usize], config: &ContextConfig) -> (over: bool)
    requires
        sum(tokens@) <= usize::MAX,
    ensures
        over == (sum(tokens@) > budget_of(*config)),
{
    total_tokens(tokens) > config.budget()
}

// ---------------------------------------------------------------------------
// Boundaries
// ---------------------------------------------------------------------------

/// Whether a message is the result of a tool call, which belongs to the message before it.
pub open spec fn is_tool_result(message: AgentMessageView) -> bool {
    message is Llm && message->Llm_0 is ToolResult
}

/// A place where the history can be cut without parting a tool call from its results: before a
/// message that is no tool result, or at the end.
pub open spec fn is_boundary(messages: Seq<AgentMessageView>, at: int) -> bool {
    at == 0 || at == messages.len() || 0 < at < messages.len() && !is_tool_result(messages[at])
}

/// The first boundary at or after `at`.
pub open spec fn boundary_after(messages: Seq<AgentMessageView>, at: int) -> int
    decreases messages.len() - at,
{
    if at < messages.len() && is_tool_result(messages[at]) {
        boundary_after(messages, at + 1)
    } else {
        at
    }
}

/// The last boundary at or before `at`.
pub open spec fn boundary_before(messages: Seq<AgentMessageView>, at: int) -> int
    decreases at,
{
    if 0 < at < messages.len() && is_tool_result(messages[at]) {
        boundary_before(messages, at - 1)
    } else {
        at
    }
}

/// `boundary_after` is a place at or after `at`, with only tool results between. A tool result
/// at the very start is passed over too.
pub proof fn lemma_boundary_after(messages: Seq<AgentMessageView>, at: int)
    requires
        0 <= at <= messages.len(),
    ensures
        at <= boundary_after(messages, at) <= messages.len(),
        is_boundary(messages, boundary_after(messages, at)),
        forall|i: int|
            at <= i < boundary_after(messages, at) ==> is_tool_result(#[trigger] messages[i]),
    decreases messages.len() - at,
{
    if at < messages.len() && is_tool_result(messages[at]) {
        lemma_boundary_after(messages, at + 1);
    }
}

/// `boundary_before` is the last boundary at or before `at`.
pub proof fn lemma_boundary_before(messages: Seq<AgentMessageView>, at: int)
    requires
        0 <= at <= messages.len(),
    ensures
        0 <= boundary_before(messages, at) <= at,
        is_boundary(messages, boundary_before(messages, at)),
        forall|i: int| boundary_before(messages, at) < i <= at ==> !#[trigger] is_boundary(messages, i),
    decreases at,
{
    if 0 < at < messages.len() && is_tool_result(messages[at]) {
        lemma_boundary_before(messages, at - 1);
    }
}

/// Tells tool results from other messages.
fn tool_result(message: &AgentMessage) -> (result: bool)
    ensures
        result == is_tool_result(message@),
{
    match message {
        AgentMessage::Llm(Message::ToolResult { .. }) => true,
        _ => false,
    }
}

/// Moves the end of the head forward, past the tool results that belong to its last message.
pub fn safe_head_end(messages: &[AgentMessage], at: usize) -> (end: usize)
    requires
        at <= messages@.len(),
    ensures
        end == boundary_after(history(messages@), at as int),
        at <= end <= messages@.len(),
{
    let mut end: usize = at;
    while end < messages.len() && tool_result(&messages[end])
        invariant
            at <= end <= messages.len(),
            boundary_after(history(messages@), at as int) == boundary_after(
                history(messages@),
                end as int,
            ),
        decreases messages.len() - end,
    {
        end = end + 1;
    }
    end
}

/// Moves the start of the tail back, to the message that the tool results at its start belong
/// to.
pub fn safe_turn_start(messages: &[AgentMessage], at: usize) -> (start: usize)
    requires
        at <= messages@.len(),
    ensures
        start == boundary_before(history(messages@), at as int),
        start <= at,
{
    let mut start: usize = at;
    while start > 0 && start < messages.len() && tool_result(&messages[start])
        invariant
            start <= at <= messages.len(),
            boundary_before(history(messages@), at as int) == boundary_before(
                history(messages@),
                start as int,
            ),
        decreases start,
    {
        start = start - 1;
    }
    start
}

/// The end of the head that is kept: `keep_first` messages, and the tool results that belong
/// to them.
pub open spec fn head_end_of(messages: Seq<AgentMessageView>, config: ContextConfig) -> int {
    boundary_after(
        messages,
        if config.keep_first as int <= messages.len() {
            config.keep_first as int
        } else {
            messages.len() as int
        },
    )
}

/// The head ends on a boundary inside the history, past the messages that it is to keep.
pub proof fn lemma_head_end(messages: Seq<AgentMessageView>, config: ContextConfig)
    ensures
        0 <= head_end_of(messages, config) <= messages.len(),
        config.keep_first <= head_end_of(messages, config) || head_end_of(messages, config)
            == messages.len(),
        is_boundary(messages, head_end_of(messages, config)),
{
    lemma_boundary_after(
        messages,
        if config.keep_first as int <= messages.len() {
            config.keep_first as int
        } else {
            messages.len() as int
        },
    );
}

/// Finds the end of the head that is kept.
pub fn head_end(messages: &[AgentMessage], config: &ContextConfig) -> (end: usize)
    ensures
        end == head_end_of(history(messages@), *config),
        end <= messages@.len(),
{
    let first: usize = if config.keep_first <= messages.len() {
        config.keep_first
    } else {
        messages.len()
    };
    safe_head_end(messages, first)
}

/// The time of a message.
pub open spec fn timestamp_of(message: AgentMessageView) -> u64 {
    match message {
        AgentMessageView::Llm(MessageView::User { timestamp, .. }) => timestamp,
        AgentMessageView::Llm(MessageView::Assistant { timestamp, .. }) => timestamp,
        AgentMessageView::Llm(MessageView::ToolResult { timestamp, .. }) => timestamp,
        AgentMessageView::Extension { timestamp, .. } => timestamp,
    }
}

/// The time of a message.
pub fn message_timestamp(message: &AgentMessage) -> (timestamp: u64)
    ensures
        timestamp == timestamp_of(message@),
{
    match message {
        AgentMessage::Llm(Message::User { timestamp, .. }) => *timestamp,
        AgentMessage::Llm(Message::Assistant { timestamp, .. }) => *timestamp,
        AgentMessage::Llm(Message::ToolResult { timestamp, .. }) => *timestamp,
        AgentMessage::Extension(message) => message.timestamp,
    }
}

// ---------------------------------------------------------------------------
// Laws
// ---------------------------------------------------------------------------

/// The tokens of messages add up one by one.
pub proof fn law_sum_adds_up(tokens: Seq<usize>, more: usize)
    ensures
        sum(Seq::empty()) == 0,
        sum(tokens.push(more)) == sum(tokens) + more,
{
    assert(tokens.push(more).drop_last() =~= tokens);
}

/// The budget and the system prompt make up the context, where the prompt fits in it. Otherwise
/// there is no budget.
pub proof fn law_budget_is_what_the_prompt_leaves(config: ContextConfig)
    ensures
        config.system_prompt_tokens <= config.max_context_tokens ==> budget_of(config)
            + config.system_prompt_tokens == config.max_context_tokens,
        config.system_prompt_tokens > config.max_context_tokens ==> budget_of(config) == 0,
{
}

/// The head ends after the messages that it is to keep, and after the tool results that follow
/// them, and nowhere else.
pub proof fn law_head_takes_its_tool_results(
    messages: Seq<AgentMessageView>,
    config: ContextConfig,
    head: int,
)
    requires
        config.keep_first <= head <= messages.len(),
        forall|i: int|
            config.keep_first <= i < head ==> (#[trigger] messages[i]) is Llm
                && messages[i]->Llm_0 is ToolResult,
        head < messages.len() ==> !(messages[head] is Llm && messages[head]->Llm_0 is ToolResult),
    ensures
        head_end_of(messages, config) == head,
{
    lemma_boundary_after_at(messages, config.keep_first as int, head);
}

proof fn lemma_boundary_after_at(messages: Seq<AgentMessageView>, at: int, end: int)
    requires
        0 <= at <= end <= messages.len(),
        forall|i: int|
            at <= i < end ==> (#[trigger] messages[i]) is Llm && messages[i]->Llm_0 is ToolResult,
        end < messages.len() ==> !(messages[end] is Llm && messages[end]->Llm_0 is ToolResult),
    ensures
        boundary_after(messages, at) == end,
    decreases end - at,
{
    if at < end {
        lemma_boundary_after_at(messages, at + 1, end);
    }
}

/// A tail is started at a message that is no tool result, with only tool results passed on the
/// way back to it.
pub proof fn law_tail_starts_at_a_turn(messages: Seq<AgentMessageView>, at: int, start: int)
    requires
        0 <= start <= at <= messages.len(),
        forall|i: int|
            start < i <= at && i < messages.len() ==> (#[trigger] messages[i]) is Llm
                && messages[i]->Llm_0 is ToolResult,
        at == messages.len() ==> start == at,
        start == 0 || start == messages.len() || !(messages[start] is Llm && messages[start]->Llm_0
            is ToolResult),
    ensures
        boundary_before(messages, at) == start,
    decreases at,
{
    if start < at {
        law_tail_starts_at_a_turn(messages, at - 1, start);
    }
}

/// The time of a message is the one that it carries.
pub proof fn law_message_carries_its_time(message: AgentMessageView)
    ensures
        message matches AgentMessageView::Llm(MessageView::User { timestamp, .. }) ==> timestamp_of(
            message,
        ) == timestamp,
        message matches AgentMessageView::Llm(MessageView::Assistant { timestamp, .. })
            ==> timestamp_of(message) == timestamp,
        message matches AgentMessageView::Llm(MessageView::ToolResult { timestamp, .. })
            ==> timestamp_of(message) == timestamp,
        message matches AgentMessageView::Extension { timestamp, .. } ==> timestamp_of(message)
            == timestamp,
{
}

} // verus!
