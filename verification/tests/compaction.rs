//! Compaction by summary: the turns of a session, and what a summary leaves of its history.
use yoagent::compaction::{fingerprint_rendered, SUMMARY_MARKER};
use yoagent::context::{over_budget, safe_head_end, safe_turn_start, total_tokens, ContextConfig};
use yoagent::llm_compaction::{
    CompactionMethod, LlmCompaction, Outcome, SummaryRequest, Turn, MIN_SUMMARIZED_SPAN,
};
use yoagent::transcript::{assistant_text, assistant_usage, clip, serialize_transcript};
use yoagent::types::{
    AgentMessage, Content, ExtensionMessage, Message, StopReason, Usage,
};

fn user(text: &str, timestamp: u64) -> AgentMessage {
    AgentMessage::Llm(Message::User {
        content: vec![Content::Text { text: text.into() }],
        timestamp,
    })
}

fn assistant(content: Vec<Content>, usage: Usage, timestamp: u64) -> Message {
    Message::Assistant {
        content,
        stop_reason: StopReason::Stop,
        model: "mock".into(),
        provider: "mock".into(),
        usage,
        timestamp,
        error_message: None,
    }
}

fn tool_result(name: &str, text: &str, timestamp: u64) -> AgentMessage {
    AgentMessage::Llm(Message::ToolResult {
        tool_call_id: "call".into(),
        tool_name: name.into(),
        content: vec![Content::Text { text: text.into() }],
        is_error: false,
        timestamp,
    })
}

fn history(turns: usize, bulk: usize) -> Vec<AgentMessage> {
    let mut messages = Vec::new();
    for i in 0..turns {
        messages.push(user(
            &format!("user message {i}: {}", "x".repeat(bulk)),
            i as u64,
        ));
        messages.push(AgentMessage::Llm(assistant(
            vec![Content::Text {
                text: format!("assistant reply {i}: {}", "y".repeat(bulk)),
            }],
            Usage::default(),
            i as u64,
        )));
    }
    messages
}

fn size(message: &AgentMessage) -> usize {
    match message {
        AgentMessage::Llm(Message::User { content, .. })
        | AgentMessage::Llm(Message::Assistant { content, .. })
        | AgentMessage::Llm(Message::ToolResult { content, .. }) => content
            .iter()
            .map(|c| match c {
                Content::Text { text } => text.len() / 4,
                _ => 10,
            })
            .sum(),
        AgentMessage::Extension(_) => 0,
    }
}

fn sizes(messages: &[AgentMessage]) -> Vec<usize> {
    messages.iter().map(size).collect()
}

fn rendered(messages: &[AgentMessage]) -> Vec<Option<Vec<u8>>> {
    messages
        .iter()
        .map(|m| Some(format!("{m:?}").into_bytes()))
        .collect()
}

fn config(budget: usize) -> ContextConfig {
    ContextConfig {
        max_context_tokens: budget,
        system_prompt_tokens: 0,
        keep_first: 1,
        keep_recent: 2,
    }
}

fn strategy() -> LlmCompaction {
    LlmCompaction::from_provider("mock-model", "test-key").with_retain_tail_tokens(200)
}

/// One turn, with the trigger at a tenth of the budget.
fn turn(strategy: &mut LlmCompaction, messages: &[AgentMessage], budget: usize) -> Turn {
    let cfg = config(budget);
    let trigger = budget / 10;
    let tokens = sizes(messages);
    let over = total_tokens(&tokens) > budget;
    let idle = !strategy.inflight && (strategy.ready.is_none() || over);
    assert_eq!(
        strategy.needs_rendering(&tokens, &cfg, trigger),
        total_tokens(&tokens) > trigger && idle || strategy.ready.is_some() && over
    );
    strategy.compact(
        messages.to_vec(),
        &tokens,
        &rendered(messages),
        &cfg,
        trigger,
        true,
    )
}

fn reply(text: &str) -> Message {
    let usage = Usage {
        input: 10,
        output: 5,
        ..Usage::default()
    };
    assistant(vec![Content::Text { text: text.into() }], usage, 99)
}

fn ask(strategy: &mut LlmCompaction, messages: &[AgentMessage], budget: usize) -> SummaryRequest {
    let turn = turn(strategy, messages, budget);
    assert!(matches!(turn.outcome, Outcome::OverBudget(..)));
    turn.request.expect("a summary is asked for")
}

fn has_summary(messages: &[AgentMessage]) -> bool {
    messages.iter().any(|m| {
        matches!(m, AgentMessage::Llm(Message::User { content, .. })
            if content.iter().any(|c| matches!(c, Content::Text { text }
                if text.starts_with(SUMMARY_MARKER))))
    })
}

fn shown(messages: &[AgentMessage]) -> Vec<String> {
    messages.iter().map(|m| format!("{m:?}")).collect()
}

#[test]
fn llm_compaction_splices_summary_when_over_budget() {
    let mut strategy = strategy();
    let messages = history(30, 400);
    let request = ask(&mut strategy, &messages, 2_000);
    assert!(strategy.inflight);
    assert_eq!(request.model, "mock-model");
    assert_eq!(request.api_key, "test-key");
    assert_eq!(request.max_tokens, 2_000);
    assert!(!request.cache);
    assert!(request.prompt.starts_with("<conversation>\nAssistant: assistant reply 0"));
    assert!(request.prompt.ends_with(&format!(
        "\n</conversation>\n\n{}",
        strategy.instruction
    )));

    strategy.complete(request.ticket, Some(&reply("## Goal\nShip the parser.")));
    assert!(strategy.ready.is_some() && !strategy.inflight);

    let turn = turn(&mut strategy, &messages, 2_000);
    assert!(turn.request.is_none());
    let (out, report) = match turn.outcome {
        Outcome::Spliced(out, report) => (out, report),
        _ => panic!("summary message must be spliced in"),
    };
    assert!(has_summary(&out));
    let cut = request.ticket.fingerprint.cut;
    assert_eq!(request.ticket.head_end, 1);
    let expected: Vec<String> = shown(&messages[..1])
        .into_iter()
        .chain(shown(&[user(
            &format!("{SUMMARY_MARKER}\n\n## Goal\nShip the parser."),
            ((cut - 1) / 2) as u64,
        )]))
        .chain(shown(&messages[cut..]))
        .collect();
    assert_eq!(shown(&out), expected);
    assert!(total_tokens(&sizes(&out)) < total_tokens(&sizes(&messages)));
    assert!(!over_budget(&sizes(&out), &config(2_000)));
    assert_eq!(report.method, CompactionMethod::Summarized);
    assert_eq!(report.messages_before, 60);
    assert_eq!(report.tokens_before, total_tokens(&sizes(&messages)));
    assert_eq!(report.messages_summarized, cut - 1);
    assert_eq!(report.summary_usage.unwrap().input, 10);
    assert!(strategy.ready.is_none());
}

#[test]
fn llm_compaction_under_trigger_is_a_no_op() {
    let mut strategy = LlmCompaction::from_provider("mock-model", "test-key");
    let messages = history(3, 50);
    let turn = turn(&mut strategy, &messages, 1_000_000);
    match turn.outcome {
        Outcome::Unchanged(out) => assert_eq!(shown(&out), shown(&messages)),
        _ => panic!("below trigger nothing may change"),
    }
    assert!(turn.request.is_none() && !turn.warn_inert);
    assert!(!strategy.inflight);
}

#[test]
fn llm_compaction_stale_summary_is_discarded_not_spliced() {
    let mut strategy = strategy();
    let messages = history(30, 400);
    let request = ask(&mut strategy, &messages, 2_000);
    strategy.complete(request.ticket, Some(&reply("## Goal\nStale.")));

    let mut mutated = messages.to_vec();
    mutated[0] = user("rewritten", 999);
    let turn = turn(&mut strategy, &mutated, 2_000);
    match turn.outcome {
        Outcome::OverBudget(out, report) => {
            assert!(!has_summary(&out));
            assert_eq!(report.method, CompactionMethod::Deterministic);
            assert_eq!(report.messages_summarized, 0);
            assert!(report.summary_usage.is_none());
        }
        _ => panic!("stale summary must be discarded"),
    }
    assert!(turn.request.is_some(), "a fresh one is asked for");
    assert!(strategy.ready.is_none());
}

#[test]
fn same_shape_rewrite_is_still_detected() {
    let mut strategy = strategy();
    let messages = history(30, 400);
    let request = ask(&mut strategy, &messages, 2_000);
    strategy.complete(request.ticket, Some(&reply("## Goal\nStale.")));

    let mut mutated = messages.to_vec();
    mutated[0] = user(&format!("user message 0: {}", "z".repeat(400)), 0);
    let turn = turn(&mut strategy, &mutated, 2_000);
    assert!(matches!(turn.outcome, Outcome::OverBudget(..)));
}

#[test]
fn default_retain_tail_scales_to_a_small_budget() {
    let mut strategy = LlmCompaction::from_provider("mock-model", "test-key");
    assert_eq!(strategy.retain_tail_tokens(2_000), 500);
    assert_eq!(strategy.retain_tail_tokens(80_000), 20_000);
    assert_eq!(strategy.retain_tail_tokens(1_000_000), 20_000);

    let messages = history(30, 400);
    let request = ask(&mut strategy, &messages, 2_000);
    strategy.complete(request.ticket, Some(&reply("## Goal\nSmall budget.")));
    let turn = turn(&mut strategy, &messages, 2_000);
    match turn.outcome {
        Outcome::Spliced(out, _) => assert!(has_summary(&out)),
        _ => panic!("summary must splice under plain defaults"),
    }
}

#[test]
fn impossible_settings_warn_once_instead_of_silently_no_oping() {
    let mut strategy = strategy().with_retain_tail_tokens(10_000_000);
    let messages = history(30, 400);
    for i in 0..3 {
        let turn = turn(&mut strategy, &messages, 2_000);
        assert!(matches!(turn.outcome, Outcome::OverBudget(..)));
        assert!(turn.request.is_none());
        assert_eq!(turn.warn_inert, i == 0);
    }
    assert!(strategy.warned_inert);
    assert!(!strategy.inflight);
}

#[test]
fn head_is_kept_verbatim_or_summarized_but_not_both() {
    let strategy = strategy();
    let messages = history(30, 400);
    let (head_end, cut) = strategy
        .choose_cut(&messages, &sizes(&messages), &config(2_000), 2_000)
        .expect("a split exists");
    assert_eq!(head_end, 1);
    let transcript = serialize_transcript(&messages[head_end..cut]);
    assert!(!transcript.contains("user message 0"));
    assert!(transcript.contains("user message 1"));
    assert!(cut - head_end >= MIN_SUMMARIZED_SPAN);
}

#[test]
fn llm_compaction_provider_failure_falls_back_deterministically() {
    let mut strategy = strategy();
    let messages = history(30, 400);
    let request = ask(&mut strategy, &messages, 2_000);
    strategy.complete(request.ticket, None);
    assert!(strategy.ready.is_none());
    assert!(!strategy.inflight);
}

#[test]
fn blank_summary_is_discarded() {
    let mut strategy = strategy();
    let messages = history(30, 400);
    let request = ask(&mut strategy, &messages, 2_000);
    strategy.complete(request.ticket, Some(&reply(" \n\u{3000}")));
    assert!(strategy.ready.is_none());
}

#[test]
fn no_second_request_while_one_is_running() {
    let mut strategy = strategy();
    let messages = history(30, 400);
    let _ = ask(&mut strategy, &messages, 2_000);
    let turn = turn(&mut strategy, &messages, 2_000);
    assert!(turn.request.is_none());
    assert!(matches!(turn.outcome, Outcome::OverBudget(..)));
}

#[test]
fn without_a_runtime_nothing_is_asked_for() {
    let mut strategy = strategy();
    let messages = history(30, 400);
    let turn = strategy.compact(
        messages.to_vec(),
        &sizes(&messages),
        &rendered(&messages),
        &config(2_000),
        200,
        false,
    );
    assert!(turn.request.is_none() && !turn.warn_inert);
    assert!(!strategy.inflight);
}

#[test]
fn summary_waits_until_the_budget_is_passed() {
    let mut strategy = strategy();
    let messages = history(30, 400);
    let request = ask(&mut strategy, &messages, 2_000);
    strategy.complete(request.ticket, Some(&reply("wait")));
    let turn = turn(&mut strategy, &messages, 50_000);
    assert!(matches!(turn.outcome, Outcome::Unchanged(..)));
    assert!(turn.request.is_none());
    assert!(strategy.ready.is_some());
}

#[test]
fn summary_fits_a_history_that_has_grown() {
    let mut strategy = strategy();
    let messages = history(30, 400);
    let request = ask(&mut strategy, &messages, 2_000);
    strategy.complete(request.ticket, Some(&reply("grown")));
    let mut grown = messages.to_vec();
    grown.push(user("one more", 30));
    let turn = turn(&mut strategy, &grown, 2_000);
    match turn.outcome {
        Outcome::Spliced(out, _) => {
            assert_eq!(shown(&out).last(), shown(&grown).last());
        }
        _ => panic!("an unchanged prefix must be recognised"),
    }
}

#[test]
fn settings_are_taken_as_given() {
    let strategy = LlmCompaction::from_provider("m", "k")
        .with_system_prompt("sys".into())
        .with_instruction("do it".into())
        .with_max_summary_tokens(5)
        .with_retain_tail_tokens(7);
    assert_eq!(strategy.system_prompt, "sys");
    assert_eq!(strategy.instruction, "do it");
    assert_eq!(strategy.max_summary_tokens, 5);
    assert_eq!(strategy.retain_tail_tokens(1), 7);
}

#[test]
fn fingerprints_see_every_byte() {
    let a = vec![Some(b"ab".to_vec()), Some(b"c".to_vec())];
    let b = vec![Some(b"a".to_vec()), Some(b"bc".to_vec())];
    let c = vec![Some(b"ab".to_vec()), None];
    let print = |r: &[Option<Vec<u8>>], cut: usize| fingerprint_rendered(r, cut);
    assert_eq!(print(&a, 2), print(&a.clone(), 2));
    assert_eq!(print(&a, 1), print(&c, 1));
    assert!(print(&a, 2) != print(&b, 2));
    assert!(print(&a, 2) != print(&c, 2));
    assert!(print(&a, 2) != print(&a, 1));
}

#[test]
fn boundaries_keep_calls_and_results_together() {
    let messages = vec![
        user("q", 0),
        AgentMessage::Llm(assistant(vec![], Usage::default(), 1)),
        tool_result("t", "r1", 2),
        tool_result("t", "r2", 3),
        user("next", 4),
    ];
    assert_eq!(safe_turn_start(&messages, 3), 1);
    assert_eq!(safe_turn_start(&messages, 2), 1);
    assert_eq!(safe_turn_start(&messages, 4), 4);
    assert_eq!(safe_turn_start(&messages, 5), 5);
    assert_eq!(safe_head_end(&messages, 2), 4);
    assert_eq!(safe_head_end(&messages, 1), 1);
    assert_eq!(safe_head_end(&messages, 5), 5);
    assert_eq!(safe_turn_start(&[tool_result("t", "r", 0)], 0), 0);
}

#[test]
fn the_cut_is_pulled_back_to_the_call() {
    let mut messages = history(4, 40);
    messages.push(AgentMessage::Llm(assistant(vec![], Usage::default(), 9)));
    messages.push(tool_result("t", &"r".repeat(400), 9));
    messages.push(user("end", 10));
    let strategy = strategy().with_retain_tail_tokens(50);
    let split = strategy.choose_cut(&messages, &sizes(&messages), &config(100), 100);
    assert_eq!(split, Some((1, 8)));
}

#[test]
fn transcript_shows_who_said_what() {
    let mut arguments = serde_json::Map::new();
    arguments.insert("b".to_string(), serde_json::Value::from(1));
    arguments.insert("a".to_string(), serde_json::Value::from("x"));
    let messages = vec![
        user("hello", 0),
        AgentMessage::Extension(ExtensionMessage {
            role: "note".into(),
            data: serde_json::Value::Null,
            timestamp: 0,
        }),
        AgentMessage::Llm(assistant(
            vec![
                Content::Thinking {
                    thinking: "hm".into(),
                    signature: None,
                },
                Content::Text { text: "hi".into() },
                Content::ToolCall {
                    id: "1".into(),
                    name: "read".into(),
                    arguments: serde_json::Value::Object(arguments),
                    provider_metadata: None,
                },
            ],
            Usage::default(),
            1,
        )),
        tool_result("read", "file", 2),
    ];
    assert_eq!(
        serialize_transcript(&messages),
        "User: hello\nAssistant: hi\n[tool call] read({\"a\":\"x\",\"b\":1})\n[tool result: read] file\n"
    );
}

#[test]
fn transcript_is_bounded() {
    let long = "é".repeat(3_000);
    let text = serialize_transcript(&[user(&long, 0)]);
    assert_eq!(text, format!("User: {}\n", "é".repeat(1_000)));
    let call = AgentMessage::Llm(assistant(
        vec![Content::ToolCall {
            id: "1".into(),
            name: "n".into(),
            arguments: serde_json::Value::from("é".repeat(200)),
            provider_metadata: None,
        }],
        Usage::default(),
        0,
    ));
    assert_eq!(
        serialize_transcript(&[call]),
        format!("[tool call] n(\"{})\n", "é".repeat(149))
    );
}

#[test]
fn clip_cuts_between_characters() {
    assert_eq!(clip("日本語", 9), "日本語");
    assert_eq!(clip("日本語", 8), "日本");
    assert_eq!(clip("日本語", 3), "日");
    assert_eq!(clip("日本語", 2), "");
    assert_eq!(clip("", 0), "");
    assert_eq!(clip("abc", 0), "");
}

#[test]
fn reply_is_the_joined_text() {
    let usage = Usage {
        output: 3,
        ..Usage::default()
    };
    let message = assistant(
        vec![
            Content::Text { text: "a".into() },
            Content::Thinking {
                thinking: "t".into(),
                signature: None,
            },
            Content::Text { text: "b".into() },
        ],
        usage,
        0,
    );
    assert_eq!(assistant_text(&message), "a\nb");
    assert_eq!(assistant_usage(&message).output, 3);
    let other = Message::User {
        content: vec![Content::Text { text: "a".into() }],
        timestamp: 0,
    };
    assert_eq!(assistant_text(&other), "");
    assert_eq!(assistant_usage(&other), Usage::default());
}

#[test]
fn transcripts_follow_each_other() {
    let messages = history(3, 10);
    for at in 0..=messages.len() {
        assert_eq!(
            serialize_transcript(&messages),
            serialize_transcript(&messages[..at]) + &serialize_transcript(&messages[at..])
        );
    }
}

#[test]
fn a_later_cut_would_break_a_promise() {
    let messages = history(6, 40);
    let tokens = sizes(&messages);
    let strategy = strategy().with_retain_tail_tokens(30);
    let (head_end, cut) = strategy
        .choose_cut(&messages, &tokens, &config(100), 100)
        .unwrap();
    assert_eq!((head_end, cut), (1, 9));
    assert!(total_tokens(&tokens[cut..]) >= 30);
    assert!(total_tokens(&tokens[cut + 1..]) < 30);
}

#[test]
fn emits_an_event_on_both_compaction_paths() {
    let mut strategy = strategy();
    let messages = history(30, 400);
    let first = turn(&mut strategy, &messages, 2_000);
    match first.outcome {
        Outcome::OverBudget(_, report) => {
            assert_eq!(report.method, CompactionMethod::Deterministic);
            assert_eq!(report.tokens_before, total_tokens(&sizes(&messages)));
            assert_eq!(report.messages_summarized, 0);
            assert!(report.summary_usage.is_none(), "no request was made");
        }
        _ => panic!("deterministic path must report"),
    }
    let request = first.request.unwrap();
    strategy.complete(request.ticket, Some(&reply("## Goal\nObserve me.")));
    match turn(&mut strategy, &messages, 2_000).outcome {
        Outcome::Spliced(out, report) => {
            assert_eq!(report.method, CompactionMethod::Summarized);
            assert!(report.messages_summarized >= MIN_SUMMARIZED_SPAN);
            assert!(report.summary_usage.is_some(), "the request's cost must be visible");
            let event = report.event(&out, &sizes(&out));
            assert_eq!(event.method, CompactionMethod::Summarized);
            assert_eq!(event.messages_before, messages.len());
            assert_eq!(event.messages_after, out.len());
            assert_eq!(event.tokens_before, total_tokens(&sizes(&messages)));
            assert_eq!(event.tokens_after, total_tokens(&sizes(&out)));
            assert!(event.tokens_after < event.tokens_before);
            assert_eq!(event.messages_summarized, report.messages_summarized);
            assert_eq!(event.summary_usage, report.summary_usage);
        }
        _ => panic!("splice path must report"),
    }
}

#[test]
fn transcript_bounds_a_message_and_not_each_part() {
    let block = |c: &str, n: usize| Content::Text { text: c.repeat(n) };
    let message = AgentMessage::Llm(Message::User {
        content: vec![block("x", 2_000), block("x", 2_000)],
        timestamp: 0,
    });
    let text = serialize_transcript(&[message]);
    assert_eq!(text.matches('x').count(), 2_000);
    assert_eq!(text, format!("User: {}\nUser: \n", "x".repeat(2_000)));

    let message = AgentMessage::Llm(assistant(
        vec![
            block("x", 1_500),
            block("y", 400),
            Content::ToolCall {
                id: "1".into(),
                name: "n".into(),
                arguments: serde_json::Value::from("z".repeat(200)),
                provider_metadata: None,
            },
            block("w", 10),
        ],
        Usage::default(),
        0,
    ));
    assert_eq!(
        serialize_transcript(&[message]),
        format!(
            "Assistant: {}\nAssistant: {}\n[tool call] n(\"{})\nAssistant: \n",
            "x".repeat(1_500),
            "y".repeat(400),
            "z".repeat(99)
        )
    );
}
