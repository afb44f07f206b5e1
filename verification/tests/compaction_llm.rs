//! Compaction by summary in its simple form.
use yoagent::compaction::SUMMARY_MARKER;
use yoagent::compaction_llm::{LlmCompaction, Outcome, SummaryRequest, Turn};
use yoagent::context::{total_tokens, ContextConfig};
use yoagent::types::{AgentMessage, Content, Message, StopReason, Usage};

fn user(text: &str, timestamp: u64) -> AgentMessage {
    AgentMessage::Llm(Message::User {
        content: vec![Content::Text { text: text.into() }],
        timestamp,
    })
}

fn reply(text: &str) -> Message {
    Message::Assistant {
        content: vec![Content::Text { text: text.into() }],
        stop_reason: StopReason::Stop,
        model: "mock".into(),
        provider: "mock".into(),
        usage: Usage::default(),
        timestamp: 0,
        error_message: None,
    }
}

fn history(turns: usize, bulk: usize) -> Vec<AgentMessage> {
    let mut messages = Vec::new();
    for i in 0..turns {
        messages.push(user(
            &format!("user message {i}: {}", "x".repeat(bulk)),
            i as u64,
        ));
        messages.push(AgentMessage::Llm(reply(&format!(
            "assistant reply {i}: {}",
            "y".repeat(bulk)
        ))));
    }
    messages
}

fn sizes(messages: &[AgentMessage]) -> Vec<usize> {
    messages
        .iter()
        .map(|m| format!("{m:?}").len() / 4)
        .collect()
}

fn rendered(messages: &[AgentMessage]) -> Vec<Option<Vec<u8>>> {
    messages
        .iter()
        .map(|m| Some(format!("{m:?}").into_bytes()))
        .collect()
}

fn config(budget: usize) -> ContextConfig {
    ContextConfig {
        max_context_tokens: budget,
        system_prompt_tokens: 0,
        keep_first: 1,
        keep_recent: 2,
    }
}

fn strategy() -> LlmCompaction {
    LlmCompaction::new("mock-model", "test-key").with_retain_tail_tokens(200)
}

fn turn(strategy: &mut LlmCompaction, messages: &[AgentMessage], budget: usize) -> Turn {
    strategy.compact(
        messages.to_vec(),
        &sizes(messages),
        &rendered(messages),
        &config(budget),
        budget / 10,
        true,
    )
}

fn ask(strategy: &mut LlmCompaction, messages: &[AgentMessage]) -> SummaryRequest {
    let turn = turn(strategy, messages, 2_000);
    assert!(matches!(turn.outcome, Outcome::OverBudget(_)));
    turn.request.expect("a summary is asked for")
}

fn shown(messages: &[AgentMessage]) -> Vec<String> {
    messages.iter().map(|m| format!("{m:?}")).collect()
}

#[test]
fn compaction_llm_splices_summary_when_over_budget() {
    let mut strategy = strategy();
    let messages = history(30, 400);
    let request = ask(&mut strategy, &messages);
    assert!(
        request.prompt.contains("User: user message 0"),
        "the head is summarized too"
    );
    assert!(!request.cache);
    strategy.complete(request.fingerprint, Some(&reply("## Goal\nShip the parser.")));

    let out = match turn(&mut strategy, &messages, 2_000).outcome {
        Outcome::Spliced(out) => out,
        _ => panic!("summary message must be spliced in"),
    };
    let cut = request.fingerprint.cut;
    let expected: Vec<String> = shown(&messages[..1])
        .into_iter()
        .chain(shown(&[user(
            &format!("{SUMMARY_MARKER}\n\n## Goal\nShip the parser."),
            0,
        )]))
        .chain(shown(&messages[cut..]))
        .collect();
    assert_eq!(shown(&out), expected);
    assert!(total_tokens(&sizes(&out)) < total_tokens(&sizes(&messages)));
}

#[test]
fn compaction_llm_under_trigger_is_a_no_op() {
    let mut strategy = LlmCompaction::new("mock-model", "test-key");
    let messages = history(3, 50);
    let turn = turn(&mut strategy, &messages, 1_000_000);
    match turn.outcome {
        Outcome::Unchanged(out) => assert_eq!(shown(&out), shown(&messages)),
        _ => panic!("below trigger nothing may change"),
    }
    assert!(!strategy.inflight);
}

#[test]
fn compaction_llm_stale_summary_is_discarded_not_spliced() {
    let mut strategy = strategy();
    let messages = history(30, 400);
    let request = ask(&mut strategy, &messages);
    strategy.complete(request.fingerprint, Some(&reply("## Goal\nStale.")));
    let mut mutated = messages.to_vec();
    mutated[0] = user("rewritten", 999);
    let turn = turn(&mut strategy, &mutated, 2_000);
    assert!(matches!(turn.outcome, Outcome::OverBudget(_)));
    assert!(turn.request.is_some());
}

#[test]
fn compaction_llm_provider_failure_falls_back_deterministically() {
    let mut strategy = strategy();
    let messages = history(30, 400);
    let request = ask(&mut strategy, &messages);
    strategy.complete(request.fingerprint, None);
    assert!(strategy.ready.is_none());
    assert!(!strategy.inflight);
}

#[test]
fn the_head_is_that_of_the_turn_that_splices() {
    let mut strategy = strategy();
    let messages = history(30, 400);
    let request = ask(&mut strategy, &messages);
    let cut = request.fingerprint.cut;
    strategy.complete(request.fingerprint, Some(&reply("s")));
    let cfg = ContextConfig {
        keep_first: cut + 1,
        ..config(2_000)
    };
    let turn = strategy.compact(
        messages.to_vec(),
        &sizes(&messages),
        &rendered(&messages),
        &cfg,
        200,
        true,
    );
    match turn.outcome {
        Outcome::Spliced(out) => {
            assert_eq!(out.len(), cut + 1 + 1 + messages.len() - cut);
            assert_eq!(shown(&out)[..=cut], shown(&messages)[..=cut]);
        }
        _ => panic!("the prefix is unchanged"),
    }
}

#[test]
fn simple_settings_are_taken_as_given() {
    let strategy = LlmCompaction::new("m", "k");
    assert_eq!(strategy.retain_tail_tokens, 20_000);
    let strategy = strategy
        .with_retain_tail_tokens(1)
        .with_system_prompt("sys".into())
        .with_instruction("do it".into())
        .with_max_summary_tokens(9);
    assert_eq!(strategy.retain_tail_tokens, 1);
    assert_eq!(strategy.system_prompt, "sys");
    assert_eq!(strategy.instruction, "do it");
    assert_eq!(strategy.max_summary_tokens, 9);
}

#[test]
fn a_short_prefix_is_not_worth_a_request() {
    let messages = history(3, 400);
    let strategy = strategy().with_retain_tail_tokens(1);
    let tokens = sizes(&messages);
    assert_eq!(
        strategy.choose_cut(&messages, &tokens, &config(100)),
        Some(4)
    );
    let cfg = ContextConfig {
        keep_recent: 3,
        ..config(100)
    };
    assert_eq!(strategy.choose_cut(&messages, &tokens, &cfg), None);
}

#[test]
fn simple_strategy_sees_a_rewrite_of_the_same_shape() {
    let mut strategy = strategy();
    let messages = history(30, 400);
    let request = ask(&mut strategy, &messages);
    strategy.complete(request.fingerprint, Some(&reply("## Goal\nStale.")));
    let mut mutated = messages.to_vec();
    mutated[0] = user(&format!("user message 0: {}", "z".repeat(400)), 0);
    assert_eq!(sizes(&mutated), sizes(&messages));
    let turn = turn(&mut strategy, &mutated, 2_000);
    assert!(matches!(turn.outcome, Outcome::OverBudget(_)));
    assert!(turn.request.is_some());
}
