//! Compaction by summary: old history is summarized in the background, by a request of its own,
//! and the summary is spliced in when the history outgrows its budget.
//!
//! A turn never waits for a summary. When the history passes the trigger, a request is made;
//! when it passes the budget, a summary that is there and still fits the history takes the
//! place of what it summarizes, and otherwise the history is compacted without one.
use crate::compaction::{
    collide, find_cut, fingerprint_rendered, is_serialized, largest_cut,
    law_fingerprint_tells_every_change, lemma_largest_cut, may_cut, prompt_of,
    rendered_fingerprint, renderings, splice, spliced, write_prompt, Fingerprint,
    DEFAULT_INSTRUCTION, DEFAULT_RETAIN_TAIL_TOKENS, DEFAULT_SUMMARY_TOKENS, DEFAULT_SYSTEM_PROMPT,
};
use crate::context::{
    budget_of, head_end, head_end_of, is_boundary, law_head_takes_its_tool_results, lemma_head_end,
    sum, timestamp_of, total_tokens, ContextConfig,
};
use crate::text::{
    is_white_space, law_trimmed_is_the_middle, lemma_trimmed_to_nothing, trim, trimmed, white,
};
use crate::transcript::{assistant_text, assistant_usage, reply_text, reply_usage, transcript_of};
use crate::types::{
    history, AgentMessage, AgentMessageView, ContentView, Message, MessageView, Usage,
};
use vstd::prelude::*;

verus! {

/// A stretch shorter than this is not worth a request.
pub const MIN_SUMMARIZED_SPAN: usize = 4;

// ---------------------------------------------------------------------------
// State
// ---------------------------------------------------------------------------

/// What a summary is of: a prefix of the history, without its head.
#[derive(Clone, Copy, Debug, PartialEq, Eq, Structural)]
pub struct Ticket {
    pub fingerprint: Fingerprint,
    /// Where the head ends, which is kept as it is.
    pub head_end: usize,
}

impl Ticket {
    /// There is enough between the head and the cut.
    pub open spec fn wf(&self) -> bool {
        self.head_end + MIN_SUMMARIZED_SPAN <= self.fingerprint.cut
    }
}

/// A summary that waits to be spliced in.
pub struct Summary {
    pub ticket: Ticket,
    pub text: String,
    /// The tokens that its request took.
    pub usage: Usage,
}

/// Compaction by summary: its settings and its state.
pub struct LlmCompaction {
    pub model: String,
    pub api_key: String,
    /// The tokens of recent messages to keep. `None` derives them from the budget.
    pub retain_tail_tokens: Option<usize>,
    pub system_prompt: String,
    pub instruction: String,
    pub max_summary_tokens: u32,
    /// A request is running.
    pub inflight: bool,
    /// A summary is there.
    pub ready: Option<Summary>,
    /// That no summary is possible was reported.
    pub warned_inert: bool,
}

/// A request for a summary.
pub struct SummaryRequest {
    pub model: String,
    pub api_key: String,
    pub system_prompt: String,
    pub prompt: String,
    pub max_tokens: u32,
    /// The request is made once: there is nothing to reuse of it.
    pub cache: bool,
    pub ticket: Ticket,
}

/// How the history was compacted.
#[derive(Clone, Copy, Debug, PartialEq, Eq, Structural)]
pub enum CompactionMethod {
    /// With a summary.
    Summarized,
    /// Without one.
    Deterministic,
}

/// What there is to report of a compaction before it is carried out.
#[derive(Clone, Copy, Debug, PartialEq, Eq, Structural)]
pub struct Report {
    pub method: CompactionMethod,
    pub messages_before: usize,
    pub tokens_before: usize,
    pub messages_summarized: usize,
    pub summary_usage: Option<Usage>,
}

/// The event of a compaction: what the history was before, and what it is after.
#[derive(Clone, Copy, Debug, PartialEq, Eq, Structural)]
pub struct ContextCompacted {
    pub method: CompactionMethod,
    pub messages_before: usize,
    pub messages_after: usize,
    pub tokens_before: usize,
    pub tokens_after: usize,
    pub messages_summarized: usize,
    pub summary_usage: Option<Usage>,
}

impl Report {
    /// The event of a compaction that has come to `result`, whose messages have these tokens.
    pub fn event(self, result: &[AgentMessage], tokens: &[usize]) -> (event: ContextCompacted)
        requires
            tokens@.len() == result@.len(),
            sum(tokens@) <= usize::MAX,
        ensures
            event.method == self.method,
            event.messages_before == self.messages_before,
            event.messages_after == result@.len(),
            event.tokens_before == self.tokens_before,
            event.tokens_after == sum(tokens@),
            event.messages_summarized == self.messages_summarized,
            event.summary_usage == self.summary_usage,
    {
        ContextCompacted {
            method: self.method,
            messages_before: self.messages_before,
            messages_after: result.len(),
            tokens_before: self.tokens_before,
            tokens_after: total_tokens(tokens),
            messages_summarized: self.messages_summarized,
            summary_usage: self.summary_usage,
        }
    }
}

/// What becomes of the history on a turn.
pub enum Outcome {
    /// It stays as it is.
    Unchanged(Vec<AgentMessage>),
    /// It has a summary in it. If it is still over the budget, it is to be compacted further.
    Spliced(Vec<AgentMessage>, Report),
    /// It is over the budget, and to be compacted without a summary.
    OverBudget(Vec<AgentMessage>, Report),
}

/// What a turn decided.
pub struct Turn {
    pub outcome: Outcome,
    /// The request to make, if any.
    pub request: Option<SummaryRequest>,
    /// That no summary is possible is to be reported.
    pub warn_inert: bool,
}

// ---------------------------------------------------------------------------
// What a turn does
// ---------------------------------------------------------------------------

/// The tokens of recent messages to keep: as set, or else a fourth of the budget, up to a
/// ceiling.
pub open spec fn retained(setting: Option<usize>, budget: nat) -> nat {
    match setting {
        Some(tokens) => tokens as nat,
        None => if budget / 4 <= DEFAULT_RETAIN_TAIL_TOKENS {
            budget / 4
        } else {
            DEFAULT_RETAIN_TAIL_TOKENS as nat
        },
    }
}

/// What to summarize: from the end of the head to the largest place where the history may be
/// cut with a long enough stretch between.
pub open spec fn split_of(
    messages: Seq<AgentMessageView>,
    tokens: Seq<usize>,
    config: ContextConfig,
    retain: nat,
) -> Option<(int, int)> {
    let head_end = head_end_of(messages, config);
    match largest_cut(
        messages,
        tokens,
        head_end + MIN_SUMMARIZED_SPAN,
        retain,
        config.keep_recent as nat,
        messages.len() as int,
    ) {
        Some(cut) => Some((head_end, cut)),
        None => None,
    }
}

/// Whether a summary is of a prefix of this history.
pub open spec fn is_current(ticket: Ticket, rendered: Seq<Option<Seq<u8>>>) -> bool {
    let fingerprint = ticket.fingerprint;
    fingerprint.cut <= rendered.len() && rendered_fingerprint(rendered, fingerprint.cut)
        == fingerprint
}

impl LlmCompaction {
    /// No summary waits while a request is running, and one that waits is of enough.
    pub open spec fn wf(&self) -> bool {
        &&& self.inflight ==> self.ready is None
        &&& self.ready matches Some(summary) ==> summary.ticket.wf()
    }

    /// The same settings.
    pub open spec fn same_settings(&self, other: &LlmCompaction) -> bool {
        &&& self.model == other.model
        &&& self.api_key == other.api_key
        &&& self.retain_tail_tokens == other.retain_tail_tokens
        &&& self.system_prompt == other.system_prompt
        &&& self.instruction == other.instruction
        &&& self.max_summary_tokens == other.max_summary_tokens
    }

    /// The waiting summary is spliced in on a turn over the budget, if it is current.
    pub open spec fn splices(
        &self,
        rendered: Seq<Option<Seq<u8>>>,
        tokens: Seq<usize>,
        config: ContextConfig,
    ) -> bool {
        &&& sum(tokens) > budget_of(config)
        &&& self.ready matches Some(summary) && is_current(summary.ticket, rendered)
    }

    /// A turn that splices nothing looks for something to summarize: the history is past the
    /// trigger, no request is running, and no summary is kept waiting.
    pub open spec fn attempts(&self, tokens: Seq<usize>, config: ContextConfig, trigger: usize) -> bool {
        &&& sum(tokens) > trigger
        &&& !self.inflight
        &&& self.ready is None || sum(tokens) > budget_of(config)
    }

    /// Whether a turn may need the messages in serialized form, to take or to check a
    /// fingerprint.
    pub open spec fn needs_rendering_spec(
        &self,
        tokens: Seq<usize>,
        config: ContextConfig,
        trigger: usize,
    ) -> bool {
        (sum(tokens) > budget_of(config) && self.ready is Some) || self.attempts(
            tokens,
            config,
            trigger,
        )
    }

    /// The request to summarize `messages[head_end..cut]`.
    pub open spec fn requests(
        &self,
        request: SummaryRequest,
        messages: Seq<AgentMessageView>,
        rendered: Seq<Option<Seq<u8>>>,
        head_end: int,
        cut: int,
    ) -> bool {
        &&& request.model@ == self.model@
        &&& request.api_key@ == self.api_key@
        &&& request.system_prompt@ == self.system_prompt@
        &&& request.prompt@ == prompt_of(messages.subrange(head_end, cut), self.instruction@)
        &&& request.max_tokens == self.max_summary_tokens
        &&& !request.cache
        &&& request.ticket.head_end == head_end
        &&& request.ticket.fingerprint == rendered_fingerprint(rendered, cut as usize)
        &&& request.ticket.fingerprint.cut == cut
    }

    /// Compaction that asks `model` for summaries.
    pub fn from_provider(model: &str, api_key: &str) -> (strategy: LlmCompaction)
        ensures
            strategy.wf(),
            strategy.model@ == model@,
            strategy.api_key@ == api_key@,
            strategy.retain_tail_tokens is None,
            strategy.system_prompt@ == DEFAULT_SYSTEM_PROMPT@,
            strategy.instruction@ == DEFAULT_INSTRUCTION@,
            strategy.max_summary_tokens == DEFAULT_SUMMARY_TOKENS,
            !strategy.inflight,
            strategy.ready is None,
            !strategy.warned_inert,
    {
        LlmCompaction {
            model: model.to_owned(),
            api_key: api_key.to_owned(),
            retain_tail_tokens: None,
            system_prompt: DEFAULT_SYSTEM_PROMPT.to_owned(),
            instruction: DEFAULT_INSTRUCTION.to_owned(),
            max_summary_tokens: DEFAULT_SUMMARY_TOKENS,
            inflight: false,
            ready: None,
            warned_inert: false,
        }
    }

    /// Sets the tokens of recent messages to keep.
    ///
    /// With more of them than there is history at the trigger, nothing is left to summarize.
    pub fn with_retain_tail_tokens(self, tokens: usize) -> (strategy: LlmCompaction)
        ensures
            strategy == (LlmCompaction { retain_tail_tokens: Some(tokens), ..self }),
    {
        LlmCompaction { retain_tail_tokens: Some(tokens), ..self }
    }

    /// Replaces the system prompt of the request.
    pub fn with_system_prompt(self, prompt: String) -> (strategy: LlmCompaction)
        ensures
            strategy == (LlmCompaction { system_prompt: prompt, ..self }),
    {
        LlmCompaction { system_prompt: prompt, ..self }
    }

    /// Replaces the instruction of the request.
    pub fn with_instruction(self, instruction: String) -> (strategy: LlmCompaction)
        ensures
            strategy == (LlmCompaction { instruction, ..self }),
    {
        LlmCompaction { instruction, ..self }
    }

    /// Sets the most tokens of a summary.
    pub fn with_max_summary_tokens(self, tokens: u32) -> (strategy: LlmCompaction)
        ensures
            strategy == (LlmCompaction { max_summary_tokens: tokens, ..self }),
    {
        LlmCompaction { max_summary_tokens: tokens, ..self }
    }

    /// The tokens of recent messages to keep under `budget`.
    pub fn retain_tail_tokens(&self, budget: usize) -> (tokens: usize)
        ensures
            tokens == retained(self.retain_tail_tokens, budget as nat),
    {
        match self.retain_tail_tokens {
            Some(tokens) => tokens,
            None => if budget / 4 <= DEFAULT_RETAIN_TAIL_TOKENS {
                budget / 4
            } else {
                DEFAULT_RETAIN_TAIL_TOKENS
            },
        }
    }

    /// Chooses what to summarize: as much as possible, with the head and the recent messages
    /// kept as they are.
    pub fn choose_cut(
        &self,
        messages: &[AgentMessage],
        tokens: &[usize],
        config: &ContextConfig,
        budget: usize,
    ) -> (split: Option<(usize, usize)>)
        requires
            tokens@.len() == messages@.len(),
            sum(tokens@) <= usize::MAX,
        ensures
            match split {
                Some((head_end, cut)) => {
                    &&& split_of(
                        history(messages@),
                        tokens@,
                        *config,
                        retained(self.retain_tail_tokens, budget as nat),
                    ) == Some((head_end as int, cut as int))
                    &&& head_end + MIN_SUMMARIZED_SPAN <= cut <= messages@.len()
                },
                None => split_of(
                    history(messages@),
                    tokens@,
                    *config,
                    retained(self.retain_tail_tokens, budget as nat),
                ) is None,
            },
    {
        let length: usize = messages.len();
        let head_end: usize = head_end(messages, config);
        let retain: usize = self.retain_tail_tokens(budget);
        let ghost all = history(messages@);
        proof {
            lemma_largest_cut(
                all,
                tokens@,
                head_end + MIN_SUMMARIZED_SPAN,
                retain as nat,
                config.keep_recent as nat,
                length as int,
            );
        }
        if head_end > usize::MAX - MIN_SUMMARIZED_SPAN {
            return None;
        }
        match find_cut(
            messages,
            tokens,
            head_end,
            head_end + MIN_SUMMARIZED_SPAN,
            retain,
            config.keep_recent,
        ) {
            Some(cut) => Some((head_end, cut)),
            None => None,
        }
    }

    /// Whether a turn may need the messages in serialized form.
    pub fn needs_rendering(&self, tokens: &[usize], config: &ContextConfig, trigger: usize) -> (needs:
        bool)
        requires
            sum(tokens@) <= usize::MAX,
        ensures
            needs == self.needs_rendering_spec(tokens@, *config, trigger),
    {
        let used: usize = total_tokens(tokens);
        let over: bool = used > config.budget();
        (over && self.ready.is_some()) || (used > trigger && !self.inflight && (
        self.ready.is_none() || over))
    }

    /// Writes the request to summarize `messages[head_end..cut]`.
    fn summarize(
        &self,
        messages: &[AgentMessage],
        rendered: &[Option<Vec<u8>>],
        head_end: usize,
        cut: usize,
    ) -> (request: SummaryRequest)
        requires
            head_end + MIN_SUMMARIZED_SPAN <= cut <= messages@.len(),
            rendered@.len() == messages@.len(),
        ensures
            self.requests(
                request,
                history(messages@),
                renderings(rendered@),
                head_end as int,
                cut as int,
            ),
    {
        SummaryRequest {
            model: self.model.clone(),
            api_key: self.api_key.clone(),
            system_prompt: self.system_prompt.clone(),
            prompt: write_prompt(messages, head_end, cut, self.instruction.as_str()),
            max_tokens: self.max_summary_tokens,
            cache: false,
            ticket: Ticket { fingerprint: fingerprint_rendered(rendered, cut), head_end },
        }
    }

    /// Takes a turn: decides what becomes of the history, and whether a summary is asked for.
    ///
    /// `tokens` are the tokens of each message, `rendered` its serialized bytes. `trigger` is
    /// the number of tokens past which a summary is asked for, and `can_spawn` says whether a
    /// request can be made at all.
    pub fn compact(
        &mut self,
        messages: Vec<AgentMessage>,
        tokens: &[usize],
        rendered: &[Option<Vec<u8>>],
        config: &ContextConfig,
        trigger: usize,
        can_spawn: bool,
    ) -> (turn: Turn)
        requires
            old(self).wf(),
            tokens@.len() == messages@.len(),
            sum(tokens@) <= usize::MAX,
            old(self).needs_rendering_spec(tokens@, *config, trigger) ==> rendered@.len()
                == messages@.len(),
        ensures
            final(self).wf(),
            final(self).same_settings(old(self)),
            old(self).turned(
                final(self),
                turn,
                messages@,
                tokens@,
                renderings(rendered@),
                *config,
                trigger,
                can_spawn,
            ),
    {
        let budget: usize = config.budget();
        let used: usize = total_tokens(tokens);
        if used > budget {
            match self.ready.take() {
                Some(summary) => {
                    let fingerprint = summary.ticket.fingerprint;
                    let current = fingerprint.cut <= messages.len() && fingerprint_rendered(
                        rendered,
                        fingerprint.cut,
                    ) == fingerprint;
                    if current {
                        let head_end: usize = summary.ticket.head_end;
                        let result = splice(
                            messages.as_slice(),
                            head_end,
                            fingerprint.cut,
                            summary.text.as_str(),
                        );
                        let report = Report {
                            method: CompactionMethod::Summarized,
                            messages_before: messages.len(),
                            tokens_before: used,
                            messages_summarized: fingerprint.cut - head_end,
                            summary_usage: Some(summary.usage),
                        };
                        return Turn {
                            outcome: Outcome::Spliced(result, report),
                            request: None,
                            warn_inert: false,
                        };
                    }
                },
                None => {},
            }
        }
        let mut request: Option<SummaryRequest> = None;
        let mut warn_inert: bool = false;
        if used > trigger && !self.inflight && self.ready.is_none() {
            match self.choose_cut(messages.as_slice(), tokens, config, budget) {
                Some((head_end, cut)) => {
                    if can_spawn {
                        request = Some(
                            self.summarize(messages.as_slice(), rendered, head_end, cut),
                        );
                        self.inflight = true;
                    }
                },
                None => {
                    warn_inert = !self.warned_inert;
                    self.warned_inert = true;
                },
            }
        }
        let outcome = if used > budget {
            let report = Report {
                method: CompactionMethod::Deterministic,
                messages_before: messages.len(),
                tokens_before: used,
                messages_summarized: 0,
                summary_usage: None,
            };
            Outcome::OverBudget(messages, report)
        } else {
            Outcome::Unchanged(messages)
        };
        Turn { outcome, request, warn_inert }
    }

    /// What a turn did: the state before and after it, and what it decided.
    pub open spec fn turned(
        &self,
        after: &LlmCompaction,
        turn: Turn,
        messages: Seq<AgentMessage>,
        tokens: Seq<usize>,
        rendered: Seq<Option<Seq<u8>>>,
        config: ContextConfig,
        trigger: usize,
        can_spawn: bool,
    ) -> bool {
        let used = sum(tokens);
        let budget = budget_of(config);
        let split = split_of(
            history(messages),
            tokens,
            config,
            retained(self.retain_tail_tokens, budget),
        );
        let attempts = self.attempts(tokens, config, trigger);
        if self.splices(rendered, tokens, config) {
            let summary = self.ready->0;
            let cut = summary.ticket.fingerprint.cut;
            let head_end = summary.ticket.head_end;
            &&& turn.outcome matches Outcome::Spliced(result, report) && history(result@) == spliced(
                history(messages),
                head_end as int,
                cut as int,
                summary.text@,
            ) && report == (Report {
                method: CompactionMethod::Summarized,
                messages_before: messages.len() as usize,
                tokens_before: used as usize,
                messages_summarized: (cut - head_end) as usize,
                summary_usage: Some(summary.usage),
            })
            &&& turn.request is None
            &&& !turn.warn_inert
            &&& after.ready is None
            &&& after.inflight == self.inflight
            &&& after.warned_inert == self.warned_inert
        } else {
            &&& if used > budget {
                turn.outcome matches Outcome::OverBudget(result, report) && result@ == messages
                    && report == (Report {
                    method: CompactionMethod::Deterministic,
                    messages_before: messages.len() as usize,
                    tokens_before: used as usize,
                    messages_summarized: 0,
                    summary_usage: None,
                })
            } else {
                turn.outcome matches Outcome::Unchanged(result) && result@ == messages
            }
            &&& turn.request is Some == (attempts && split is Some && can_spawn)
            &&& turn.request matches Some(request) ==> self.requests(
                request,
                history(messages),
                rendered,
                (split->0).0,
                (split->0).1,
            )
            &&& turn.warn_inert == (attempts && split is None && !self.warned_inert)
            &&& after.ready == if used > budget {
                None
            } else {
                self.ready
            }
            &&& after.inflight == (self.inflight || turn.request is Some)
            &&& after.warned_inert == (self.warned_inert || attempts && split is None)
        }
    }

    /// What the end of a request did: a reply that is not blank is the summary.
    pub open spec fn completed(
        &self,
        after: &LlmCompaction,
        ticket: Ticket,
        reply: Option<MessageView>,
    ) -> bool {
        &&& !after.inflight
        &&& after.warned_inert == self.warned_inert
        &&& match reply {
            Some(message) => if trimmed(reply_text(message)).len() > 0 {
                after.ready matches Some(summary) && summary.ticket == ticket && summary.text@
                    == reply_text(message) && summary.usage == reply_usage(message)
            } else {
                after.ready is None
            },
            None => after.ready is None,
        }
    }

    /// Ends a request: `reply` is the model's message, or `None` where the request failed. A
    /// blank summary is discarded.
    pub fn complete(&mut self, ticket: Ticket, reply: Option<&Message>)
        requires
            old(self).wf(),
            old(self).inflight,
            ticket.wf(),
        ensures
            final(self).wf(),
            final(self).same_settings(old(self)),
            old(self).completed(
                final(self),
                ticket,
                match reply {
                    Some(message) => Some(message@),
                    None => None,
                },
            ),
    {
        self.inflight = false;
        match reply {
            Some(message) => {
                let text = assistant_text(message);
                if trim(text.as_str()).unicode_len() > 0 {
                    self.ready = Some(Summary { ticket, text, usage: assistant_usage(message) });
                }
            },
            None => {},
        }
    }
}

// ---------------------------------------------------------------------------
// Laws
// ---------------------------------------------------------------------------

/// A turn that is under the trigger and within the budget changes nothing: not the history, and
/// not the state.
pub proof fn law_under_trigger_is_a_no_op(
    before: LlmCompaction,
    after: LlmCompaction,
    turn: Turn,
    messages: Seq<AgentMessage>,
    tokens: Seq<usize>,
    rendered: Seq<Option<Seq<u8>>>,
    config: ContextConfig,
    trigger: usize,
    can_spawn: bool,
)
    requires
        before.turned(&after, turn, messages, tokens, rendered, config, trigger, can_spawn),
        sum(tokens) <= trigger,
        sum(tokens) <= budget_of(config),
    ensures
        turn.outcome matches Outcome::Unchanged(result) && result@ == messages,
        turn.request is None,
        !turn.warn_inert,
        after.ready == before.ready,
        after.inflight == before.inflight,
        after.warned_inert == before.warned_inert,
{
}

/// A turn over the budget always makes progress: a summary is spliced in, or the history is
/// handed on to be compacted without one. No state of the strategy leaves it as it is.
pub proof fn law_over_budget_never_stalls(
    before: LlmCompaction,
    after: LlmCompaction,
    turn: Turn,
    messages: Seq<AgentMessage>,
    tokens: Seq<usize>,
    rendered: Seq<Option<Seq<u8>>>,
    config: ContextConfig,
    trigger: usize,
    can_spawn: bool,
)
    requires
        before.turned(&after, turn, messages, tokens, rendered, config, trigger, can_spawn),
        sum(tokens) > budget_of(config),
    ensures
        turn.outcome is Spliced || turn.outcome is OverBudget,
        !(turn.outcome is Unchanged),
        after.ready is None,
{
}

/// There is something to report of exactly the turns over the budget, and it is what happened:
/// the history before, and either a summary of a long enough stretch, with the tokens that its
/// request took, or none at all.
pub proof fn law_every_compaction_is_reported(
    before: LlmCompaction,
    after: LlmCompaction,
    turn: Turn,
    messages: Seq<AgentMessage>,
    tokens: Seq<usize>,
    rendered: Seq<Option<Seq<u8>>>,
    config: ContextConfig,
    trigger: usize,
    can_spawn: bool,
)
    requires
        before.wf(),
        before.turned(&after, turn, messages, tokens, rendered, config, trigger, can_spawn),
        messages.len() <= usize::MAX,
        sum(tokens) <= usize::MAX,
    ensures
        match turn.outcome {
            Outcome::Unchanged(_) => sum(tokens) <= budget_of(config),
            Outcome::Spliced(_, report) => {
                &&& sum(tokens) > budget_of(config)
                &&& report.method == CompactionMethod::Summarized
                &&& report.messages_before == messages.len()
                &&& report.tokens_before == sum(tokens)
                &&& report.messages_summarized >= 4
                &&& report.summary_usage is Some
            },
            Outcome::OverBudget(_, report) => {
                &&& sum(tokens) > budget_of(config)
                &&& report.method == CompactionMethod::Deterministic
                &&& report.messages_before == messages.len()
                &&& report.tokens_before == sum(tokens)
                &&& report.messages_summarized == 0
                &&& report.summary_usage is None
            },
        },
{
}

/// At most one request runs at a time.
pub proof fn law_one_request_at_a_time(
    before: LlmCompaction,
    after: LlmCompaction,
    turn: Turn,
    messages: Seq<AgentMessage>,
    tokens: Seq<usize>,
    rendered: Seq<Option<Seq<u8>>>,
    config: ContextConfig,
    trigger: usize,
    can_spawn: bool,
)
    requires
        before.turned(&after, turn, messages, tokens, rendered, config, trigger, can_spawn),
    ensures
        before.inflight ==> turn.request is None && after.inflight,
        turn.request is Some ==> !before.inflight && after.inflight,
{
}

/// A summary of a history that has changed is never spliced in: it is discarded, and where
/// there is something to summarize and a request can be made, a fresh one is asked for.
pub proof fn law_stale_summary_is_discarded(
    before: LlmCompaction,
    after: LlmCompaction,
    turn: Turn,
    messages: Seq<AgentMessage>,
    tokens: Seq<usize>,
    rendered: Seq<Option<Seq<u8>>>,
    config: ContextConfig,
    trigger: usize,
    can_spawn: bool,
)
    requires
        before.wf(),
        before.turned(&after, turn, messages, tokens, rendered, config, trigger, can_spawn),
        sum(tokens) > budget_of(config),
        sum(tokens) > trigger,
        before.ready matches Some(summary) && !is_current(summary.ticket, rendered),
    ensures
        turn.outcome is OverBudget,
        after.ready is None,
        can_spawn && split_of(
            history(messages),
            tokens,
            config,
            retained(before.retain_tail_tokens, budget_of(config)),
        ) is Some ==> turn.request is Some,
{
}

/// A summary that was asked for is spliced in: once the model has replied with a text, the next
/// turn over the budget has that text in place of what was summarized, if the messages up to the
/// cut are unchanged. How the history grew after them does not matter.
pub proof fn law_summary_is_spliced(
    first: LlmCompaction,
    asked: LlmCompaction,
    request: SummaryRequest,
    messages: Seq<AgentMessageView>,
    rendered: Seq<Option<Seq<u8>>>,
    reply: MessageView,
    answered: LlmCompaction,
    last: LlmCompaction,
    turn: Turn,
    later: Seq<AgentMessage>,
    later_tokens: Seq<usize>,
    later_rendered: Seq<Option<Seq<u8>>>,
    config: ContextConfig,
    trigger: usize,
    can_spawn: bool,
)
    requires
        first.requests(
            request,
            messages,
            rendered,
            request.ticket.head_end as int,
            request.ticket.fingerprint.cut as int,
        ),
        asked.completed(&answered, request.ticket, Some(reply)),
        trimmed(reply_text(reply)).len() > 0,
        answered.turned(
            &last,
            turn,
            later,
            later_tokens,
            later_rendered,
            config,
            trigger,
            can_spawn,
        ),
        sum(later_tokens) > budget_of(config),
        request.ticket.fingerprint.cut <= later_rendered.len(),
        later_rendered.take(request.ticket.fingerprint.cut as int) == rendered.take(
            request.ticket.fingerprint.cut as int,
        ),
    ensures
        turn.outcome matches Outcome::Spliced(result, report) && history(result@) == spliced(
            history(later),
            request.ticket.head_end as int,
            request.ticket.fingerprint.cut as int,
            reply_text(reply),
        ) && report.summary_usage == Some(reply_usage(reply)),
        last.ready is None,
{
}

/// A split keeps what it promises: the head with the results of its tool calls, the recent
/// messages and tokens, and no tool result parted from its call at either end of what is
/// summarized.
pub proof fn law_split_keeps_head_and_tail(
    messages: Seq<AgentMessageView>,
    tokens: Seq<usize>,
    config: ContextConfig,
    retain: nat,
)
    ensures
        split_of(messages, tokens, config, retain) matches Some((head_end, cut)) ==> {
            &&& 0 <= head_end
            &&& head_end + 4 <= cut
            &&& cut + config.keep_recent <= messages.len()
            &&& config.keep_first <= head_end || head_end == messages.len()
            &&& sum(tokens.skip(cut)) >= retain
            &&& is_boundary(messages, head_end)
            &&& is_boundary(messages, cut)
        },
{
    lemma_head_end(messages, config);
    lemma_largest_cut(
        messages,
        tokens,
        head_end_of(messages, config) + MIN_SUMMARIZED_SPAN,
        retain,
        config.keep_recent as nat,
        messages.len() as int,
    );
}

/// A split summarizes as much as it can: a later cut would break one of its promises.
pub proof fn law_split_is_largest(
    messages: Seq<AgentMessageView>,
    tokens: Seq<usize>,
    config: ContextConfig,
    retain: nat,
    later: int,
)
    requires
        later <= messages.len(),
        match split_of(messages, tokens, config, retain) {
            Some((_, cut)) => cut < later,
            None => head_end_of(messages, config) + MIN_SUMMARIZED_SPAN <= later,
        },
    ensures
        later + config.keep_recent > messages.len() || sum(tokens.skip(later)) < retain
            || !is_boundary(messages, later),
{
    lemma_head_end(messages, config);
    let least = head_end_of(messages, config) + MIN_SUMMARIZED_SPAN;
    lemma_largest_cut(
        messages,
        tokens,
        least,
        retain,
        config.keep_recent as nat,
        messages.len() as int,
    );
    assert(!may_cut(messages, tokens, least, retain, config.keep_recent as nat, later));
}

/// The tail that is kept by default never takes more than a fourth of the budget.
pub proof fn law_default_tail_scales(budget: nat)
    ensures
        retained(None, budget) <= budget / 4,
        retained(None, budget) <= 20_000,
        retained(None, budget) == budget / 4 || retained(None, budget) == 20_000,
        forall|tokens: usize| #[trigger] retained(Some(tokens), budget) == tokens,
{
}

/// That no summary is possible is reported once.
pub proof fn law_inert_is_reported_once(
    before: LlmCompaction,
    after: LlmCompaction,
    turn: Turn,
    messages: Seq<AgentMessage>,
    tokens: Seq<usize>,
    rendered: Seq<Option<Seq<u8>>>,
    config: ContextConfig,
    trigger: usize,
    can_spawn: bool,
)
    requires
        before.turned(&after, turn, messages, tokens, rendered, config, trigger, can_spawn),
    ensures
        before.warned_inert ==> !turn.warn_inert && after.warned_inert,
        turn.warn_inert ==> after.warned_inert && turn.request is None,
{
}

/// Past the trigger a summary is asked for, within the budget as well as over it: where no
/// request is running, no summary waits and one can be made, any stretch of four messages or
/// more, from the end of the head to before a message that is no tool result, with enough
/// messages and tokens after it, is reason enough. The request is for that stretch or a longer
/// one, and is running from then on.
pub proof fn law_summary_is_asked_for_past_the_trigger(
    before: LlmCompaction,
    after: LlmCompaction,
    turn: Turn,
    messages: Seq<AgentMessage>,
    tokens: Seq<usize>,
    rendered: Seq<Option<Seq<u8>>>,
    config: ContextConfig,
    trigger: usize,
    head: int,
    cut: int,
)
    requires
        before.turned(&after, turn, messages, tokens, rendered, config, trigger, true),
        sum(tokens) > trigger,
        !before.inflight,
        before.ready is None,
        // the head
        config.keep_first <= head <= messages.len(),
        forall|i: int|
            config.keep_first <= i < head ==> (#[trigger] history(messages)[i]) is Llm && history(
                messages,
            )[i]->Llm_0 is ToolResult,
        // the cut
        head + 4 <= cut,
        cut + config.keep_recent <= messages.len(),
        !(history(messages)[head] is Llm && history(messages)[head]->Llm_0 is ToolResult),
        cut < messages.len() ==> !(history(messages)[cut] is Llm && history(messages)[cut]->Llm_0
            is ToolResult),
        // the tail
        before.retain_tail_tokens matches Some(least) ==> sum(tokens.skip(cut)) >= least,
        before.retain_tail_tokens is None ==> sum(tokens.skip(cut)) >= 20_000 || 4 * sum(
            tokens.skip(cut),
        ) + 3 + config.system_prompt_tokens >= config.max_context_tokens,
    ensures
        turn.request matches Some(request) && request.ticket.head_end == head
            && request.ticket.fingerprint.cut >= cut,
        after.inflight,
        !turn.warn_inert,
        sum(tokens) + config.system_prompt_tokens <= config.max_context_tokens
            ==> turn.outcome is Unchanged,
{
    let all = history(messages);
    let retain = retained(before.retain_tail_tokens, budget_of(config));
    law_head_takes_its_tool_results(all, config, head);
    lemma_largest_cut(
        all,
        tokens,
        head + MIN_SUMMARIZED_SPAN,
        retain,
        config.keep_recent as nat,
        all.len() as int,
    );
    assert(may_cut(
        all,
        tokens,
        head + MIN_SUMMARIZED_SPAN,
        retain,
        config.keep_recent as nat,
        cut,
    ));
}

/// A request says what it is of: the stretch between the head and the cut that its ticket names,
/// the settings, and the fingerprint of the messages up to the cut.
pub proof fn law_request_says_what_it_is_of(
    before: LlmCompaction,
    after: LlmCompaction,
    turn: Turn,
    request: SummaryRequest,
    messages: Seq<AgentMessage>,
    tokens: Seq<usize>,
    rendered: Seq<Option<Seq<u8>>>,
    config: ContextConfig,
    trigger: usize,
    can_spawn: bool,
)
    requires
        before.turned(&after, turn, messages, tokens, rendered, config, trigger, can_spawn),
        turn.request == Some(request),
    ensures
        can_spawn,
        sum(tokens) > trigger,
        request.model@ == before.model@,
        request.api_key@ == before.api_key@,
        request.system_prompt@ == before.system_prompt@,
        request.max_tokens == before.max_summary_tokens,
        !request.cache,
        request.prompt@ == "<conversation>\n"@ + transcript_of(
            history(messages).subrange(
                request.ticket.head_end as int,
                request.ticket.fingerprint.cut as int,
            ),
        ) + "\n</conversation>\n\n"@ + before.instruction@,
        request.ticket.head_end + 4 <= request.ticket.fingerprint.cut <= messages.len(),
        request.ticket.fingerprint == rendered_fingerprint(
            rendered,
            request.ticket.fingerprint.cut,
        ),
{
    law_split_keeps_head_and_tail(
        history(messages),
        tokens,
        config,
        retained(before.retain_tail_tokens, budget_of(config)),
    );
}

/// A reply that says anything at all is kept as the summary, as it is and of whatever length. A
/// blank one, and a request that failed, leave none. The request is no longer running.
pub proof fn law_reply_becomes_the_summary(
    before: LlmCompaction,
    after: LlmCompaction,
    ticket: Ticket,
    reply: Option<MessageView>,
    at: int,
)
    requires
        before.completed(&after, ticket, reply),
    ensures
        !after.inflight,
        reply is None ==> after.ready is None,
        reply matches Some(message) ==> {
            let text = reply_text(message);
            &&& 0 <= at < text.len() && !is_white_space(text[at]) ==> (
            after.ready matches Some(summary) && summary.text@ == text && summary.ticket == ticket
                && summary.usage == reply_usage(message))
            &&& (forall|i: int| 0 <= i < text.len() ==> is_white_space(#[trigger] text[i]))
                ==> after.ready is None
        },
{
    if let Some(message) = reply {
        let text = reply_text(message);
        let none = Seq::<char>::empty();
        if trimmed(text).len() == 0 {
            lemma_trimmed_to_nothing(text, white());
            if 0 <= at < text.len() {
                assert(white()(text[at]));
            }
        }
        if forall|i: int| 0 <= i < text.len() ==> is_white_space(#[trigger] text[i]) {
            law_trimmed_is_the_middle(text, none, none);
            assert(text + none + none =~= text);
        }
    }
}

/// A history that was rewritten under its summary is not spliced: where any message up to the
/// cut is another one than when the summary was asked for, a splice takes a hash collision.
pub proof fn law_rewritten_history_is_not_spliced(
    before: LlmCompaction,
    after: LlmCompaction,
    turn: Turn,
    messages: Seq<AgentMessage>,
    tokens: Seq<usize>,
    rendered: Seq<Option<Seq<u8>>>,
    config: ContextConfig,
    trigger: usize,
    can_spawn: bool,
    summary: Summary,
    summarized: Seq<Option<Seq<u8>>>,
    place: int,
)
    requires
        before.turned(&after, turn, messages, tokens, rendered, config, trigger, can_spawn),
        before.ready == Some(summary),
        summary.ticket.fingerprint == rendered_fingerprint(
            summarized,
            summary.ticket.fingerprint.cut,
        ),
        summary.ticket.fingerprint.cut <= summarized.len(),
        summary.ticket.fingerprint.cut <= rendered.len(),
        is_serialized(summarized, summary.ticket.fingerprint.cut as int),
        is_serialized(rendered, summary.ticket.fingerprint.cut as int),
        0 <= place < summary.ticket.fingerprint.cut,
        summarized[place] != rendered[place],
    ensures
        turn.outcome is Spliced ==> exists|x: Seq<Seq<u8>>, y: Seq<Seq<u8>>|
            #![trigger collide(x, y)]
            collide(x, y),
{
    law_fingerprint_tells_every_change(
        summarized,
        rendered,
        summary.ticket.fingerprint.cut,
        place,
    );
}

/// A summary of an unchanged history waits within the budget, and over it takes the place of
/// what it summarizes: the head before it and the tail after it stay as they are.
pub proof fn law_current_summary_takes_its_place(
    before: LlmCompaction,
    after: LlmCompaction,
    turn: Turn,
    messages: Seq<AgentMessage>,
    tokens: Seq<usize>,
    rendered: Seq<Option<Seq<u8>>>,
    config: ContextConfig,
    trigger: usize,
    can_spawn: bool,
    summary: Summary,
    summarized: Seq<Option<Seq<u8>>>,
)
    requires
        before.wf(),
        before.turned(&after, turn, messages, tokens, rendered, config, trigger, can_spawn),
        before.ready == Some(summary),
        rendered.len() == messages.len(),
        summary.ticket.fingerprint.cut <= rendered.len(),
        summary.ticket.fingerprint.cut <= summarized.len(),
        summary.ticket.fingerprint == rendered_fingerprint(
            summarized,
            summary.ticket.fingerprint.cut,
        ),
        forall|i: int|
            0 <= i < summary.ticket.fingerprint.cut ==> #[trigger] summarized[i] == rendered[i],
    ensures
        sum(tokens) + config.system_prompt_tokens <= config.max_context_tokens ==> (
        turn.outcome matches Outcome::Unchanged(result) && result@ == messages && after.ready
            == before.ready && turn.request is None),
        sum(tokens) + config.system_prompt_tokens > config.max_context_tokens && sum(tokens) > 0
            ==> (turn.outcome matches Outcome::Spliced(result, report) && after.ready is None && ({
            let head = summary.ticket.head_end as int;
            let cut = summary.ticket.fingerprint.cut as int;
            let all = history(messages);
            &&& report.method == CompactionMethod::Summarized
            &&& report.messages_summarized == cut - head
            &&& report.summary_usage == Some(summary.usage)
            &&& history(result@) == all.take(head) + seq![
                AgentMessageView::Llm(
                    MessageView::User {
                        content: seq![
                            ContentView::Text {
                                text: "[Context compacted — summary of earlier conversation]"@
                                    + "\n\n"@ + summary.text@,
                            },
                        ],
                        timestamp: timestamp_of(all[cut - 1]),
                    },
                ),
            ] + all.skip(cut)
        })),
{
    law_fingerprint_tells_every_change(
        summarized,
        rendered,
        summary.ticket.fingerprint.cut,
        0,
    );
}

/// Settings under which no summary is possible are reported: where no cut past the trigger
/// leaves the head, four messages to summarize, and enough messages and tokens after it, there
/// is a warning, once.
pub proof fn law_inert_settings_are_reported(
    before: LlmCompaction,
    after: LlmCompaction,
    turn: Turn,
    messages: Seq<AgentMessage>,
    tokens: Seq<usize>,
    rendered: Seq<Option<Seq<u8>>>,
    config: ContextConfig,
    trigger: usize,
    can_spawn: bool,
    head: int,
)
    requires
        before.turned(&after, turn, messages, tokens, rendered, config, trigger, can_spawn),
        sum(tokens) > trigger,
        !before.inflight,
        before.ready is None,
        config.keep_first <= head <= messages.len(),
        forall|i: int|
            config.keep_first <= i < head ==> (#[trigger] history(messages)[i]) is Llm && history(
                messages,
            )[i]->Llm_0 is ToolResult,
        head < messages.len() ==> !(history(messages)[head] is Llm && history(messages)[head]->Llm_0
            is ToolResult),
        forall|cut: int|
            #![trigger tokens.skip(cut)]
            head + 4 <= cut <= messages.len() ==> cut + config.keep_recent > messages.len() || (cut
                < messages.len() && history(messages)[cut] is Llm && history(messages)[cut]->Llm_0
                is ToolResult) || sum(tokens.skip(cut)) < retained(
                before.retain_tail_tokens,
                budget_of(config),
            ),
    ensures
        turn.request is None,
        turn.warn_inert == !before.warned_inert,
        after.warned_inert,
{
    let all = history(messages);
    let retain = retained(before.retain_tail_tokens, budget_of(config));
    law_head_takes_its_tool_results(all, config, head);
    let least = head + MIN_SUMMARIZED_SPAN;
    lemma_largest_cut(
        all,
        tokens,
        least,
        retain,
        config.keep_recent as nat,
        all.len() as int,
    );
    if let Some(cut) = largest_cut(
        all,
        tokens,
        least,
        retain,
        config.keep_recent as nat,
        all.len() as int,
    ) {
        assert(may_cut(all, tokens, least, retain, config.keep_recent as nat, cut));
        assert(sum(tokens.skip(cut)) >= retain);
    }
}

/// Where no summary is spliced in, the history is handed on whole. The settings stay as they
/// are in any case.
pub proof fn law_history_is_handed_on_whole(
    before: LlmCompaction,
    after: LlmCompaction,
    turn: Turn,
    messages: Seq<AgentMessage>,
    tokens: Seq<usize>,
    rendered: Seq<Option<Seq<u8>>>,
    config: ContextConfig,
    trigger: usize,
    can_spawn: bool,
)
    requires
        before.turned(&after, turn, messages, tokens, rendered, config, trigger, can_spawn),
    ensures
        match turn.outcome {
            Outcome::Unchanged(result) => result@ == messages,
            Outcome::OverBudget(result, _) => result@ == messages,
            Outcome::Spliced(_, _) => true,
        },
        after.same_settings(&before) ==> after.model == before.model && after.api_key
            == before.api_key && after.system_prompt == before.system_prompt && after.instruction
            == before.instruction && after.max_summary_tokens == before.max_summary_tokens
            && after.retain_tail_tokens == before.retain_tail_tokens,
{
}

} // verus!
