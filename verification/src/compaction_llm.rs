//! Compaction by summary, in its simple form: everything before the cut is summarized, and the
//! tail that is kept has a fixed size.
use crate::compaction::{
    collide, find_cut, fingerprint_rendered, is_serialized, largest_cut,
    law_fingerprint_tells_every_change, lemma_largest_cut, may_cut, prompt_of,
    rendered_fingerprint, renderings, splice, spliced, write_prompt, Fingerprint,
    DEFAULT_INSTRUCTION, DEFAULT_RETAIN_TAIL_TOKENS, DEFAULT_SUMMARY_TOKENS, DEFAULT_SYSTEM_PROMPT,
};
use crate::context::{
    budget_of, head_end, head_end_of, is_boundary, law_head_takes_its_tool_results, sum,
    timestamp_of, total_tokens, ContextConfig,
};
use crate::text::{
    is_white_space, law_trimmed_is_the_middle, lemma_trimmed_to_nothing, trim, trimmed, white,
};
use crate::transcript::{assistant_text, reply_text, transcript_of};
use crate::types::{history, AgentMessage, AgentMessageView, ContentView, Message, MessageView};
use vstd::prelude::*;

verus! {

/// A prefix shorter than this is not worth a request.
pub const MIN_CUT: usize = 4;

/// A summary that waits to be spliced in.
pub struct Summary {
    pub fingerprint: Fingerprint,
    pub text: String,
}

/// Compaction by summary: its settings and its state.
pub struct LlmCompaction {
    pub model: String,
    pub api_key: String,
    /// The tokens of recent messages to keep.
    pub retain_tail_tokens: usize,
    pub system_prompt: String,
    pub instruction: String,
    pub max_summary_tokens: u32,
    /// A request is running.
    pub inflight: bool,
    /// A summary is there.
    pub ready: Option<Summary>,
}

/// A request for a summary.
pub struct SummaryRequest {
    pub model: String,
    pub api_key: String,
    pub system_prompt: String,
    pub prompt: String,
    pub max_tokens: u32,
    /// The request is made once: there is nothing to reuse of it.
    pub cache: bool,
    pub fingerprint: Fingerprint,
}

/// What becomes of the history on a turn.
pub enum Outcome {
    /// It stays as it is.
    Unchanged(Vec<AgentMessage>),
    /// It has a summary in it. If it is still over the budget, it is to be compacted further.
    Spliced(Vec<AgentMessage>),
    /// It is over the budget, and to be compacted without a summary.
    OverBudget(Vec<AgentMessage>),
}

/// What a turn decided.
pub struct Turn {
    pub outcome: Outcome,
    /// The request to make, if any.
    pub request: Option<SummaryRequest>,
}

/// Where to cut: the largest place past the head, with enough before it.
pub open spec fn cut_of(
    messages: Seq<AgentMessageView>,
    tokens: Seq<usize>,
    config: ContextConfig,
    retain: nat,
) -> Option<int> {
    let past_head = head_end_of(messages, config) + 1;
    largest_cut(
        messages,
        tokens,
        if past_head >= MIN_CUT {
            past_head
        } else {
            MIN_CUT as int
        },
        retain,
        config.keep_recent as nat,
        messages.len() as int,
    )
}

/// Whether a summary is of a prefix of this history.
pub open spec fn is_current(fingerprint: Fingerprint, rendered: Seq<Option<Seq<u8>>>) -> bool {
    fingerprint.cut <= rendered.len() && rendered_fingerprint(rendered, fingerprint.cut)
        == fingerprint
}

impl LlmCompaction {
    /// No summary waits while a request is running, and one that waits is of enough.
    pub open spec fn wf(&self) -> bool {
        &&& self.inflight ==> self.ready is None
        &&& self.ready matches Some(summary) ==> summary.fingerprint.cut >= MIN_CUT
    }

    /// The same settings.
    pub open spec fn same_settings(&self, other: &LlmCompaction) -> bool {
        &&& self.model == other.model
        &&& self.api_key == other.api_key
        &&& self.retain_tail_tokens == other.retain_tail_tokens
        &&& self.system_prompt == other.system_prompt
        &&& self.instruction == other.instruction
        &&& self.max_summary_tokens == other.max_summary_tokens
    }

    /// The waiting summary is spliced in on a turn over the budget, if it is current.
    pub open spec fn splices(
        &self,
        rendered: Seq<Option<Seq<u8>>>,
        tokens: Seq<usize>,
        config: ContextConfig,
    ) -> bool {
        &&& sum(tokens) > budget_of(config)
        &&& self.ready matches Some(summary) && is_current(summary.fingerprint, rendered)
    }

    /// A turn that splices nothing looks for something to summarize: the history is past the
    /// trigger, no request is running, and no summary is kept waiting.
    pub open spec fn attempts(&self, tokens: Seq<usize>, config: ContextConfig, trigger: usize) -> bool {
        &&& sum(tokens) > trigger
        &&& !self.inflight
        &&& self.ready is None || sum(tokens) > budget_of(config)
    }

    /// Whether a turn may need the messages in serialized form, to take or to check a
    /// fingerprint.
    pub open spec fn needs_rendering_spec(
        &self,
        tokens: Seq<usize>,
        config: ContextConfig,
        trigger: usize,
    ) -> bool {
        (sum(tokens) > budget_of(config) && self.ready is Some) || self.attempts(
            tokens,
            config,
            trigger,
        )
    }

    /// The request to summarize `messages[..cut]`.
    pub open spec fn requests(
        &self,
        request: SummaryRequest,
        messages: Seq<AgentMessageView>,
        rendered: Seq<Option<Seq<u8>>>,
        cut: int,
    ) -> bool {
        &&& request.model@ == self.model@
        &&& request.api_key@ == self.api_key@
        &&& request.system_prompt@ == self.system_prompt@
        &&& request.prompt@ == prompt_of(messages.take(cut), self.instruction@)
        &&& request.max_tokens == self.max_summary_tokens
        &&& !request.cache
        &&& request.fingerprint == rendered_fingerprint(rendered, cut as usize)
        &&& request.fingerprint.cut == cut
    }

    /// Compaction that asks `model` for summaries.
    pub fn new(model: &str, api_key: &str) -> (strategy: LlmCompaction)
        ensures
            strategy.wf(),
            strategy.model@ == model@,
            strategy.api_key@ == api_key@,
            strategy.retain_tail_tokens == DEFAULT_RETAIN_TAIL_TOKENS,
            strategy.system_prompt@ == DEFAULT_SYSTEM_PROMPT@,
            strategy.instruction@ == DEFAULT_INSTRUCTION@,
            strategy.max_summary_tokens == DEFAULT_SUMMARY_TOKENS,
            !strategy.inflight,
            strategy.ready is None,
    {
        LlmCompaction {
            model: model.to_owned(),
            api_key: api_key.to_owned(),
            retain_tail_tokens: DEFAULT_RETAIN_TAIL_TOKENS,
            system_prompt: DEFAULT_SYSTEM_PROMPT.to_owned(),
            instruction: DEFAULT_INSTRUCTION.to_owned(),
            max_summary_tokens: DEFAULT_SUMMARY_TOKENS,
            inflight: false,
            ready: None,
        }
    }

    /// Sets the tokens of recent messages to keep.
    pub fn with_retain_tail_tokens(self, tokens: usize) -> (strategy: LlmCompaction)
        ensures
            strategy == (LlmCompaction { retain_tail_tokens: tokens, ..self }),
    {
        LlmCompaction { retain_tail_tokens: tokens, ..self }
    }

    /// Replaces the system prompt of the request.
    pub fn with_system_prompt(self, prompt: String) -> (strategy: LlmCompaction)
        ensures
            strategy == (LlmCompaction { system_prompt: prompt, ..self }),
    {
        LlmCompaction { system_prompt: prompt, ..self }
    }

    /// Replaces the instruction of the request.
    pub fn with_instruction(self, instruction: String) -> (strategy: LlmCompaction)
        ensures
            strategy == (LlmCompaction { instruction, ..self }),
    {
        LlmCompaction { instruction, ..self }
    }

    /// Sets the most tokens of a summary.
    pub fn with_max_summary_tokens(self, tokens: u32) -> (strategy: LlmCompaction)
        ensures
            strategy == (LlmCompaction { max_summary_tokens: tokens, ..self }),
    {
        LlmCompaction { max_summary_tokens: tokens, ..self }
    }

    /// Chooses where to cut: everything before is summarized, everything after is kept.
    pub fn choose_cut(
        &self,
        messages: &[AgentMessage],
        tokens: &[usize],
        config: &ContextConfig,
    ) -> (chosen: Option<usize>)
        requires
            tokens@.len() == messages@.len(),
            sum(tokens@) <= usize::MAX,
        ensures
            match chosen {
                Some(cut) => {
                    &&& cut_of(
                        history(messages@),
                        tokens@,
                        *config,
                        self.retain_tail_tokens as nat,
                    ) == Some(cut as int)
                    &&& MIN_CUT <= cut <= messages@.len()
                },
                None => cut_of(
                    history(messages@),
                    tokens@,
                    *config,
                    self.retain_tail_tokens as nat,
                ) is None,
            },
    {
        let length: usize = messages.len();
        let head_end: usize = head_end(messages, config);
        let ghost least: int = if head_end + 1 >= MIN_CUT {
            head_end + 1
        } else {
            MIN_CUT as int
        };
        proof {
            lemma_largest_cut(
                history(messages@),
                tokens@,
                least,
                self.retain_tail_tokens as nat,
                config.keep_recent as nat,
                length as int,
            );
        }
        if head_end == usize::MAX {
            return None;
        }
        let least: usize = if head_end + 1 >= MIN_CUT {
            head_end + 1
        } else {
            MIN_CUT
        };
        find_cut(messages, tokens, head_end, least, self.retain_tail_tokens, config.keep_recent)
    }

    /// Whether a turn may need the messages in serialized form.
    pub fn needs_rendering(&self, tokens: &[usize], config: &ContextConfig, trigger: usize) -> (needs:
        bool)
        requires
            sum(tokens@) <= usize::MAX,
        ensures
            needs == self.needs_rendering_spec(tokens@, *config, trigger),
    {
        let used: usize = total_tokens(tokens);
        let over: bool = used > config.budget();
        (over && self.ready.is_some()) || (used > trigger && !self.inflight && (
        self.ready.is_none() || over))
    }

    /// Writes the request to summarize `messages[..cut]`.
    fn summarize(
        &self,
        messages: &[AgentMessage],
        rendered: &[Option<Vec<u8>>],
        cut: usize,
    ) -> (request: SummaryRequest)
        requires
            cut <= messages@.len(),
            rendered@.len() == messages@.len(),
        ensures
            self.requests(request, history(messages@), renderings(rendered@), cut as int),
    {
        let prompt = write_prompt(messages, 0, cut, self.instruction.as_str());
        assert(history(messages@).subrange(0, cut as int) =~= history(messages@).take(cut as int));
        SummaryRequest {
            model: self.model.clone(),
            api_key: self.api_key.clone(),
            system_prompt: self.system_prompt.clone(),
            prompt,
            max_tokens: self.max_summary_tokens,
            cache: false,
            fingerprint: fingerprint_rendered(rendered, cut),
        }
    }

    /// What a turn did: the state before and after it, and what it decided.
    pub open spec fn turned(
        &self,
        after: &LlmCompaction,
        turn: Turn,
        messages: Seq<AgentMessage>,
        tokens: Seq<usize>,
        rendered: Seq<Option<Seq<u8>>>,
        config: ContextConfig,
        trigger: usize,
        can_spawn: bool,
    ) -> bool {
        let used = sum(tokens);
        let budget = budget_of(config);
        let chosen = cut_of(history(messages), tokens, config, self.retain_tail_tokens as nat);
        if self.splices(rendered, tokens, config) {
            let summary = self.ready->0;
            &&& turn.outcome matches Outcome::Spliced(result) && history(result@) == spliced(
                history(messages),
                head_end_of(history(messages), config),
                summary.fingerprint.cut as int,
                summary.text@,
            )
            &&& turn.request is None
            &&& after.ready is None
            &&& after.inflight == self.inflight
        } else {
            &&& if used > budget {
                turn.outcome matches Outcome::OverBudget(result) && result@ == messages
            } else {
                turn.outcome matches Outcome::Unchanged(result) && result@ == messages
            }
            &&& turn.request is Some == (self.attempts(tokens, config, trigger) && chosen is Some
                && can_spawn)
            &&& turn.request matches Some(request) ==> self.requests(
                request,
                history(messages),
                rendered,
                chosen->0,
            )
            &&& after.ready == if used > budget {
                None
            } else {
                self.ready
            }
            &&& after.inflight == (self.inflight || turn.request is Some)
        }
    }

    /// Takes a turn: decides what becomes of the history, and whether a summary is asked for.
    ///
    /// `tokens` are the tokens of each message, `rendered` its serialized bytes. `trigger` is
    /// the number of tokens past which a summary is asked for, and `can_spawn` says whether a
    /// request can be made at all.
    pub fn compact(
        &mut self,
        messages: Vec<AgentMessage>,
        tokens: &[usize],
        rendered: &[Option<Vec<u8>>],
        config: &ContextConfig,
        trigger: usize,
        can_spawn: bool,
    ) -> (turn: Turn)
        requires
            old(self).wf(),
            tokens@.len() == messages@.len(),
            sum(tokens@) <= usize::MAX,
            old(self).needs_rendering_spec(tokens@, *config, trigger) ==> rendered@.len()
                == messages@.len(),
        ensures
            final(self).wf(),
            final(self).same_settings(old(self)),
            old(self).turned(
                final(self),
                turn,
                messages@,
                tokens@,
                renderings(rendered@),
                *config,
                trigger,
                can_spawn,
            ),
    {
        let budget: usize = config.budget();
        let used: usize = total_tokens(tokens);
        if used > budget {
            match self.ready.take() {
                Some(summary) => {
                    let fingerprint = summary.fingerprint;
                    let current = fingerprint.cut <= messages.len() && fingerprint_rendered(
                        rendered,
                        fingerprint.cut,
                    ) == fingerprint;
                    if current {
                        let head_end: usize = head_end(messages.as_slice(), config);
                        let result = splice(
                            messages.as_slice(),
                            head_end,
                            fingerprint.cut,
                            summary.text.as_str(),
                        );
                        return Turn { outcome: Outcome::Spliced(result), request: None };
                    }
                },
                None => {},
            }
        }
        let mut request: Option<SummaryRequest> = None;
        if used > trigger && !self.inflight && self.ready.is_none() && can_spawn {
            match self.choose_cut(messages.as_slice(), tokens, config) {
                Some(cut) => {
                    request = Some(self.summarize(messages.as_slice(), rendered, cut));
                    self.inflight = true;
                },
                None => {},
            }
        }
        let outcome = if used > budget {
            Outcome::OverBudget(messages)
        } else {
            Outcome::Unchanged(messages)
        };
        Turn { outcome, request }
    }

    /// What the end of a request did: a reply that is not blank is the summary.
    pub open spec fn completed(
        &self,
        after: &LlmCompaction,
        fingerprint: Fingerprint,
        reply: Option<MessageView>,
    ) -> bool {
        &&& !after.inflight
        &&& match reply {
            Some(message) => if trimmed(reply_text(message)).len() > 0 {
                after.ready matches Some(summary) && summary.fingerprint == fingerprint
                    && summary.text@ == reply_text(message)
            } else {
                after.ready is None
            },
            None => after.ready is None,
        }
    }

    /// Ends a request: `reply` is the model's message, or `None` where the request failed. A
    /// blank summary is discarded.
    pub fn complete(&mut self, fingerprint: Fingerprint, reply: Option<&Message>)
        requires
            old(self).wf(),
            old(self).inflight,
            fingerprint.cut >= MIN_CUT,
        ensures
            final(self).wf(),
            final(self).same_settings(old(self)),
            old(self).completed(
                final(self),
                fingerprint,
                match reply {
                    Some(message) => Some(message@),
                    None => None,
                },
            ),
    {
        self.inflight = false;
        match reply {
            Some(message) => {
                let text = assistant_text(message);
                if trim(text.as_str()).unicode_len() > 0 {
                    self.ready = Some(Summary { fingerprint, text });
                }
            },
            None => {},
        }
    }
}

// ---------------------------------------------------------------------------
// Laws
// ---------------------------------------------------------------------------

/// A turn that is under the trigger and within the budget changes nothing.
pub proof fn law_under_trigger_is_a_no_op(
    before: LlmCompaction,
    after: LlmCompaction,
    turn: Turn,
    messages: Seq<AgentMessage>,
    tokens: Seq<usize>,
    rendered: Seq<Option<Seq<u8>>>,
    config: ContextConfig,
    trigger: usize,
    can_spawn: bool,
)
    requires
        before.turned(&after, turn, messages, tokens, rendered, config, trigger, can_spawn),
        sum(tokens) <= trigger,
        sum(tokens) <= budget_of(config),
    ensures
        turn.outcome matches Outcome::Unchanged(result) && result@ == messages,
        turn.request is None,
        after.ready == before.ready,
        after.inflight == before.inflight,
{
}

/// A turn over the budget always makes progress, whatever the state; and at most one request
/// runs at a time.
pub proof fn law_over_budget_never_stalls(
    before: LlmCompaction,
    after: LlmCompaction,
    turn: Turn,
    messages: Seq<AgentMessage>,
    tokens: Seq<usize>,
    rendered: Seq<Option<Seq<u8>>>,
    config: ContextConfig,
    trigger: usize,
    can_spawn: bool,
)
    requires
        before.turned(&after, turn, messages, tokens, rendered, config, trigger, can_spawn),
    ensures
        sum(tokens) > budget_of(config) ==> after.ready is None && (turn.outcome is Spliced
            || turn.outcome is OverBudget),
        before.inflight ==> turn.request is None && after.inflight,
{
}

/// A summary of a history that has changed is never spliced in: it is discarded, and where
/// there is something to summarize and a request can be made, a fresh one is asked for.
pub proof fn law_stale_summary_is_discarded(
    before: LlmCompaction,
    after: LlmCompaction,
    turn: Turn,
    messages: Seq<AgentMessage>,
    tokens: Seq<usize>,
    rendered: Seq<Option<Seq<u8>>>,
    config: ContextConfig,
    trigger: usize,
    can_spawn: bool,
)
    requires
        before.wf(),
        before.turned(&after, turn, messages, tokens, rendered, config, trigger, can_spawn),
        sum(tokens) > budget_of(config),
        sum(tokens) > trigger,
        before.ready matches Some(summary) && !is_current(summary.fingerprint, rendered),
    ensures
        turn.outcome is OverBudget,
        after.ready is None,
        can_spawn && cut_of(history(messages), tokens, config, before.retain_tail_tokens as nat) is Some
            ==> turn.request is Some,
{
}

/// A summary that was asked for is spliced in on the next turn over the budget, if the messages
/// up to the cut are unchanged. How the history grew after them does not matter.
pub proof fn law_summary_is_spliced(
    first: LlmCompaction,
    asked: LlmCompaction,
    request: SummaryRequest,
    messages: Seq<AgentMessageView>,
    rendered: Seq<Option<Seq<u8>>>,
    reply: MessageView,
    answered: LlmCompaction,
    last: LlmCompaction,
    turn: Turn,
    later: Seq<AgentMessage>,
    later_tokens: Seq<usize>,
    later_rendered: Seq<Option<Seq<u8>>>,
    config: ContextConfig,
    trigger: usize,
    can_spawn: bool,
)
    requires
        first.requests(request, messages, rendered, request.fingerprint.cut as int),
        asked.completed(&answered, request.fingerprint, Some(reply)),
        trimmed(reply_text(reply)).len() > 0,
        answered.turned(
            &last,
            turn,
            later,
            later_tokens,
            later_rendered,
            config,
            trigger,
            can_spawn,
        ),
        sum(later_tokens) > budget_of(config),
        request.fingerprint.cut <= later_rendered.len(),
        later_rendered.take(request.fingerprint.cut as int) == rendered.take(
            request.fingerprint.cut as int,
        ),
    ensures
        turn.outcome matches Outcome::Spliced(result) && history(result@) == spliced(
            history(later),
            head_end_of(history(later), config),
            request.fingerprint.cut as int,
            reply_text(reply),
        ),
        last.ready is None,
{
}

/// A cut leaves the head, the recent messages and tokens after it, and no tool result without
/// its call.
pub proof fn law_cut_keeps_the_tail(
    messages: Seq<AgentMessageView>,
    tokens: Seq<usize>,
    config: ContextConfig,
    retain: nat,
)
    ensures
        cut_of(messages, tokens, config, retain) matches Some(cut) ==> {
            &&& head_end_of(messages, config) < cut
            &&& MIN_CUT <= cut
            &&& cut + config.keep_recent <= messages.len()
            &&& sum(tokens.skip(cut)) >= retain
            &&& is_boundary(messages, cut)
        },
{
    let past_head = head_end_of(messages, config) + 1;
    lemma_largest_cut(
        messages,
        tokens,
        if past_head >= MIN_CUT {
            past_head
        } else {
            MIN_CUT as int
        },
        retain,
        config.keep_recent as nat,
        messages.len() as int,
    );
}

/// Past the trigger a summary is asked for, within the budget as well as over it: where no
/// request is running, no summary waits and one can be made, any cut past the head and past the
/// first four messages, before a message that is no tool result, with enough messages and tokens
/// after it, is reason enough. The request is for that cut or a later one.
pub proof fn law_summary_is_asked_for_past_the_trigger(
    before: LlmCompaction,
    after: LlmCompaction,
    turn: Turn,
    messages: Seq<AgentMessage>,
    tokens: Seq<usize>,
    rendered: Seq<Option<Seq<u8>>>,
    config: ContextConfig,
    trigger: usize,
    head: int,
    cut: int,
)
    requires
        before.turned(&after, turn, messages, tokens, rendered, config, trigger, true),
        sum(tokens) > trigger,
        !before.inflight,
        before.ready is None,
        config.keep_first <= head < cut,
        forall|i: int|
            config.keep_first <= i < head ==> (#[trigger] history(messages)[i]) is Llm && history(
                messages,
            )[i]->Llm_0 is ToolResult,
        4 <= cut,
        cut + config.keep_recent <= messages.len(),
        !(history(messages)[head] is Llm && history(messages)[head]->Llm_0 is ToolResult),
        cut < messages.len() ==> !(history(messages)[cut] is Llm && history(messages)[cut]->Llm_0
            is ToolResult),
        sum(tokens.skip(cut)) >= before.retain_tail_tokens,
    ensures
        turn.request matches Some(request) && request.fingerprint.cut >= cut,
        after.inflight,
        sum(tokens) + config.system_prompt_tokens <= config.max_context_tokens
            ==> turn.outcome is Unchanged,
{
    let all = history(messages);
    law_head_takes_its_tool_results(all, config, head);
    let least: int = if head + 1 >= MIN_CUT {
        head + 1
    } else {
        MIN_CUT as int
    };
    lemma_largest_cut(
        all,
        tokens,
        least,
        before.retain_tail_tokens as nat,
        config.keep_recent as nat,
        all.len() as int,
    );
    assert(may_cut(
        all,
        tokens,
        least,
        before.retain_tail_tokens as nat,
        config.keep_recent as nat,
        cut,
    ));
}

/// A request says what it is of: the messages up to the cut, the settings, and the fingerprint
/// of those messages.
pub proof fn law_request_says_what_it_is_of(
    before: LlmCompaction,
    after: LlmCompaction,
    turn: Turn,
    request: SummaryRequest,
    messages: Seq<AgentMessage>,
    tokens: Seq<usize>,
    rendered: Seq<Option<Seq<u8>>>,
    config: ContextConfig,
    trigger: usize,
    can_spawn: bool,
)
    requires
        before.turned(&after, turn, messages, tokens, rendered, config, trigger, can_spawn),
        turn.request == Some(request),
    ensures
        can_spawn,
        sum(tokens) > trigger,
        request.model@ == before.model@,
        request.api_key@ == before.api_key@,
        request.system_prompt@ == before.system_prompt@,
        request.max_tokens == before.max_summary_tokens,
        !request.cache,
        request.prompt@ == "<conversation>\n"@ + transcript_of(
            history(messages).take(request.fingerprint.cut as int),
        ) + "\n</conversation>\n\n"@ + before.instruction@,
        4 <= request.fingerprint.cut <= messages.len(),
        request.fingerprint == rendered_fingerprint(rendered, request.fingerprint.cut),
{
    law_cut_keeps_the_tail(
        history(messages),
        tokens,
        config,
        before.retain_tail_tokens as nat,
    );
}

/// A reply that says anything at all is kept as the summary, as it is and of whatever length. A
/// blank one, and a request that failed, leave none. The request is no longer running.
pub proof fn law_reply_becomes_the_summary(
    before: LlmCompaction,
    after: LlmCompaction,
    fingerprint: Fingerprint,
    reply: Option<MessageView>,
    at: int,
)
    requires
        before.completed(&after, fingerprint, reply),
    ensures
        !after.inflight,
        reply is None ==> after.ready is None,
        reply matches Some(message) ==> {
            let text = reply_text(message);
            &&& 0 <= at < text.len() && !is_white_space(text[at]) ==> (
            after.ready matches Some(summary) && summary.text@ == text && summary.fingerprint
                == fingerprint)
            &&& (forall|i: int| 0 <= i < text.len() ==> is_white_space(#[trigger] text[i]))
                ==> after.ready is None
        },
{
    if let Some(message) = reply {
        let text = reply_text(message);
        let none = Seq::<char>::empty();
        if trimmed(text).len() == 0 {
            lemma_trimmed_to_nothing(text, white());
            if 0 <= at < text.len() {
                assert(white()(text[at]));
            }
        }
        if forall|i: int| 0 <= i < text.len() ==> is_white_space(#[trigger] text[i]) {
            law_trimmed_is_the_middle(text, none, none);
            assert(text + none + none =~= text);
        }
    }
}

/// A history that was rewritten under its summary is not spliced: where any message up to the
/// cut is another one than when the summary was asked for, a splice takes a hash collision.
pub proof fn law_rewritten_history_is_not_spliced(
    before: LlmCompaction,
    after: LlmCompaction,
    turn: Turn,
    messages: Seq<AgentMessage>,
    tokens: Seq<usize>,
    rendered: Seq<Option<Seq<u8>>>,
    config: ContextConfig,
    trigger: usize,
    can_spawn: bool,
    summary: Summary,
    summarized: Seq<Option<Seq<u8>>>,
    place: int,
)
    requires
        before.turned(&after, turn, messages, tokens, rendered, config, trigger, can_spawn),
        before.ready == Some(summary),
        summary.fingerprint == rendered_fingerprint(summarized, summary.fingerprint.cut),
        summary.fingerprint.cut <= summarized.len(),
        summary.fingerprint.cut <= rendered.len(),
        is_serialized(summarized, summary.fingerprint.cut as int),
        is_serialized(rendered, summary.fingerprint.cut as int),
        0 <= place < summary.fingerprint.cut,
        summarized[place] != rendered[place],
    ensures
        turn.outcome is Spliced ==> exists|x: Seq<Seq<u8>>, y: Seq<Seq<u8>>|
            #![trigger collide(x, y)]
            collide(x, y),
{
    law_fingerprint_tells_every_change(summarized, rendered, summary.fingerprint.cut, place);
}

/// A summary of an unchanged history waits within the budget, and over it stands between the
/// head and the tail, which stay as they are.
pub proof fn law_current_summary_takes_its_place(
    before: LlmCompaction,
    after: LlmCompaction,
    turn: Turn,
    messages: Seq<AgentMessage>,
    tokens: Seq<usize>,
    rendered: Seq<Option<Seq<u8>>>,
    config: ContextConfig,
    trigger: usize,
    can_spawn: bool,
    summary: Summary,
    summarized: Seq<Option<Seq<u8>>>,
    head: int,
)
    requires
        before.wf(),
        before.turned(&after, turn, messages, tokens, rendered, config, trigger, can_spawn),
        before.ready == Some(summary),
        rendered.len() == messages.len(),
        summary.fingerprint.cut <= rendered.len(),
        summary.fingerprint.cut <= summarized.len(),
        summary.fingerprint == rendered_fingerprint(summarized, summary.fingerprint.cut),
        forall|i: int|
            0 <= i < summary.fingerprint.cut ==> #[trigger] summarized[i] == rendered[i],
        config.keep_first <= head <= messages.len(),
        forall|i: int|
            config.keep_first <= i < head ==> (#[trigger] history(messages)[i]) is Llm && history(
                messages,
            )[i]->Llm_0 is ToolResult,
        head < messages.len() ==> !(history(messages)[head] is Llm && history(messages)[head]->Llm_0
            is ToolResult),
    ensures
        sum(tokens) + config.system_prompt_tokens <= config.max_context_tokens ==> (
        turn.outcome matches Outcome::Unchanged(result) && result@ == messages && after.ready
            == before.ready && turn.request is None),
        sum(tokens) + config.system_prompt_tokens > config.max_context_tokens && sum(tokens) > 0
            ==> (turn.outcome matches Outcome::Spliced(result) && after.ready is None && ({
            let cut = summary.fingerprint.cut as int;
            let all = history(messages);
            history(result@) == all.take(head) + seq![
                AgentMessageView::Llm(
                    MessageView::User {
                        content: seq![
                            ContentView::Text {
                                text: "[Context compacted — summary of earlier conversation]"@
                                    + "\n\n"@ + summary.text@,
                            },
                        ],
                        timestamp: timestamp_of(all[cut - 1]),
                    },
                ),
            ] + all.skip(cut)
        })),
{
    law_head_takes_its_tool_results(history(messages), config, head);
    law_fingerprint_tells_every_change(summarized, rendered, summary.fingerprint.cut, 0);
}

/// Where no summary is spliced in, the history is handed on whole. The settings stay as they
/// are in any case.
pub proof fn law_history_is_handed_on_whole(
    before: LlmCompaction,
    after: LlmCompaction,
    turn: Turn,
    messages: Seq<AgentMessage>,
    tokens: Seq<usize>,
    rendered: Seq<Option<Seq<u8>>>,
    config: ContextConfig,
    trigger: usize,
    can_spawn: bool,
)
    requires
        before.turned(&after, turn, messages, tokens, rendered, config, trigger, can_spawn),
    ensures
        match turn.outcome {
            Outcome::Unchanged(result) => result@ == messages,
            Outcome::OverBudget(result) => result@ == messages,
            Outcome::Spliced(_) => true,
        },
        after.same_settings(&before) ==> after.model == before.model && after.api_key
            == before.api_key && after.system_prompt == before.system_prompt && after.instruction
            == before.instruction && after.max_summary_tokens == before.max_summary_tokens
            && after.retain_tail_tokens == before.retain_tail_tokens,
{
}

} // verus!
