use aish::backend::{Msg, Role, ToolCall, ToolResult};
use aish::coordinator::Phase;
use aish::engine::{
    build_turns_audit_from_history, call_budget, calls_in_context, claim_auto_index,
    compaction_watermark, denied_result, guard_notices, handoff_message, narration_lines, recommend_skill,
    replayed_result, report_outcome, seed_context, serial_chain_yield_depth,
    validate_output_schema, with_skill_note, AfterReply, Gate, Handoff, Outcome, Recommendation,
    Reply, Report, RoundEnd, RoundStart, Turn, MAX_ITERATIONS,
};
use aish::json;
use aish::loopguard::{CallBudgetAction, ExitReason};

fn value(s: &str) -> json::Json {
    json::parse(s).unwrap()
}

fn call(id: &str, name: &str, args: &str) -> ToolCall {
    ToolCall { id: id.into(), name: name.into(), args: value(args) }
}

#[test]
fn schema_validation_passes_transparently() {
    let mut r = ToolResult::structured("t", "name=ok", value(r#"{"name": "ok"}"#), false)
        .with_output_schema("plug", "item");
    validate_output_schema(&mut r, Ok(()));
    assert!(r.schema_violation.is_none());
    assert_eq!(r.model_content(), r#"{"name":"ok"}"#);
}

#[test]
fn schema_validation_failure_is_logged_noted_and_not_blocked() {
    let mut r = ToolResult::structured("t", "name=1", value(r#"{"name": 1}"#), false)
        .with_output_schema("plug", "item");
    validate_output_schema(&mut r, Err("/name: expected string".into()));
    let note = r.schema_violation.clone().expect("violation recorded");
    assert!(note.contains("plug/item"), "note names the schema: {note}");
    let model = r.model_content();
    assert!(
        model.starts_with("[schema-validation warning]"),
        "model told of the violation: {model}"
    );
    assert!(model.contains(r#"{"name":1}"#), "payload not blocked: {model}");
    assert!(r.structured.is_some());
    assert_eq!(note, "payload violates schema `plug/item`: /name: expected string");
}

#[test]
fn no_output_schema_declaration_is_zero_cost_noop() {
    let mut r = ToolResult::structured("t", "x", value(r#"{"anything": true}"#), false);
    validate_output_schema(&mut r, Ok(()));
    assert!(r.schema_violation.is_none());
    assert!(r.output_schema.is_none());
    validate_output_schema(&mut r, Err("unused".into()));
    assert!(r.schema_violation.is_none());
}

#[test]
fn unknown_plugin_fails_open_with_note() {
    let mut r = ToolResult::structured("t", "x", value(r#"{"name": "ok"}"#), false)
        .with_output_schema("ghost", "item");
    validate_output_schema(&mut r, Err("unknown schema".into()));
    assert!(r.schema_violation.is_some(), "unknown schema is noted, not silent");
    assert!(r.structured.is_some(), "payload still flows");
}

#[test]
fn schema_declared_but_text_only_result_is_skipped() {
    let mut r = ToolResult::text("t", "just text", false).with_output_schema("plug", "item");
    validate_output_schema(&mut r, Err("unused".into()));
    assert!(r.schema_violation.is_none());
    assert_eq!(r.model_content(), "just text");
}

#[test]
fn seed_context_injects_only_on_empty_history() {
    let seeded = seed_context(true, Some("df output".into()), "summarize that".into());
    assert!(seeded.contains("df output"));
    assert!(seeded.ends_with("summarize that"));
    assert_eq!(seed_context(false, Some("df output".into()), "next".into()), "next");
    assert_eq!(seed_context(true, None, "hi".into()), "hi");
    assert_eq!(seed_context(true, Some("   \n".into()), "hi".into()), "hi");
}

#[test]
fn settings_fall_back_to_their_defaults() {
    assert_eq!(serial_chain_yield_depth(None), serial_chain_yield_depth(Some("nonsense")));
    assert_eq!(serial_chain_yield_depth(Some(" 7 ")), 7);
    assert_eq!(serial_chain_yield_depth(Some("1001")), serial_chain_yield_depth(None));
    assert_eq!(serial_chain_yield_depth(Some("0")), serial_chain_yield_depth(None));
    assert_eq!(call_budget(Some("3"), Some("9")), (3, 9));
    assert_eq!(call_budget(Some("x"), None), call_budget(None, None));
}

fn says(text: &str, tool_calls: Vec<ToolCall>) -> Reply {
    Reply {
        text: text.into(),
        tool_calls,
        raw: None,
        truncated_text: false,
        truncated_tool_call: false,
    }
}

#[test]
fn a_turn_asks_runs_and_answers() {
    let mut history = vec![Msg::user("hi".into())];
    let mut turn = Turn::new(100, 1000, 1000);
    match turn.next_round("SYS", false, false) {
        RoundStart::Ask { system, tools, compact } => {
            assert_eq!(system, "SYS");
            assert!(tools && compact);
        }
        other => panic!("{other:?}"),
    }
    let calls = vec![call("c1", "read_file", r#"{"path":"a"}"#)];
    match turn.reply(&mut history, true, says("looking", calls)) {
        AfterReply::Run { calls, narrate, .. } => {
            assert_eq!(calls.len(), 1);
            assert!(narrate);
            match turn.gate(&calls[0]) {
                Gate::Run { desc } => assert_eq!(desc, "🛠️  read a"),
                other => panic!("{other:?}"),
            }
        }
        other => panic!("{other:?}"),
    }
    let end = turn.close_round(&mut history, vec![ToolResult::text("c1", "body", false)]);
    assert!(matches!(end, RoundEnd::Next));
    assert_eq!(history.len(), 3);
    assert_eq!(history[1].role, Role::Assistant);
    assert_eq!(history[2].tool_results[0].id, "c1");
    turn.next_round("SYS", false, false);
    match turn.reply(&mut history, true, says("done", vec![])) {
        AfterReply::Answer(a, why) => {
            assert_eq!(a, "done");
            assert_eq!(why, ExitReason::Completed);
        }
        other => panic!("{other:?}"),
    }
    assert_eq!(history[3].text, "done");
}

#[test]
fn a_truncated_answer_is_resumed_in_place() {
    let mut history = vec![Msg::user("hi".into())];
    let mut turn = Turn::new(100, 1000, 1000);
    turn.next_round("S", false, false);
    let mut cut = says("first half, ", vec![]);
    cut.truncated_text = true;
    assert!(matches!(turn.reply(&mut history, true, cut), AfterReply::Again { narrate: false }));
    match turn.next_round("S", false, false) {
        RoundStart::Ask { compact, .. } => assert!(!compact),
        other => panic!("{other:?}"),
    }
    match turn.reply(&mut history, true, says("second half", vec![])) {
        AfterReply::Answer(a, _) => assert_eq!(a, "first half, second half"),
        other => panic!("{other:?}"),
    }
    assert_eq!(history.len(), 2);
    assert_eq!(history[1].text, "first half, second half");
}

#[test]
fn repeated_calls_are_refused_and_a_loop_ends_the_turn() {
    let mut history = vec![Msg::user("hi".into())];
    let mut turn = Turn::new(100, 1000, 1000);
    turn.next_round("S", false, false);
    let calls = vec![call("c", "x", "{}")];
    turn.reply(&mut history, true, says("", calls));
    let c = call("c", "x", "{}");
    let mut refused = 0;
    for _ in 0..20 {
        if let Gate::Refused { result, .. } = turn.gate(&c) {
            assert!(result.is_error);
            refused += 1;
        }
    }
    assert!(refused > 0);
    match turn.close_round(&mut history, vec![]) {
        RoundEnd::Answer(a, why) => {
            assert!(a.contains("Stopped by the loop guard before a final answer was produced."));
            assert!(matches!(why, ExitReason::LoopDetected { call, count: 20 } if !call.is_empty()));
        }
        other => panic!("{other:?}"),
    }
}

#[test]
fn chains_yield_and_budgets_end_the_turn() {
    let mut history = vec![Msg::user("hi".into())];
    let mut turn = Turn::new(1, 1000, 1000);
    for i in 0..2 {
        turn.next_round("S", false, false);
        turn.reply(&mut history, true, says("t", vec![call("c", "x", &format!("{{\"i\":{i}}}"))]));
        let end = turn.close_round(&mut history, vec![]);
        if i == 0 {
            assert!(matches!(end, RoundEnd::Next));
        } else {
            assert!(matches!(end, RoundEnd::Yield { depth: 2 }));
        }
    }
    let a = turn.yield_answer(2, Some("next: read b"));
    assert!(a.ends_with("t\n\nnext: read b"), "{a}");

    let mut turn = Turn::new(100, 1, 1);
    turn.next_round("S", false, false);
    let two = vec![call("a", "x", "{}"), call("b", "y", "{}")];
    turn.reply(&mut history, true, says(" ", two));
    match turn.close_round(&mut history, vec![]) {
        RoundEnd::Answer(a, why) => {
            assert!(a.contains("Yielded after 2 tool calls this turn"), "{a}");
            assert_eq!(why, ExitReason::CallBudgetExceeded { count: 2 });
        }
        other => panic!("{other:?}"),
    }
}

#[test]
fn rounds_run_out_and_the_last_ones_have_no_tools() {
    let mut history = vec![Msg::user("hi".into())];
    let mut turn = Turn::new(1000, 100_000, 100_000);
    for i in 0..MAX_ITERATIONS {
        match turn.next_round("S", true, false) {
            RoundStart::Ask { tools, .. } => {
                if i + 1 == MAX_ITERATIONS {
                    assert!(!tools);
                }
            }
            other => panic!("{other:?}"),
        }
    }
    match turn.reply(&mut history, true, says("sum", vec![call("c", "x", "{}")])) {
        AfterReply::Answer(a, why) => {
            assert!(a.ends_with("sum"));
            assert_eq!(why, ExitReason::ForcedSummarize { iterations: MAX_ITERATIONS });
        }
        other => panic!("{other:?}"),
    }
    assert!(history[1].tool_calls.is_empty());
    match turn.next_round("S", true, false) {
        RoundStart::Stop(a, why) => {
            assert!(a.contains(
                "Stopped after exhausting the tool-call iteration budget without a final answer."
            ));
            assert_eq!(why, ExitReason::BudgetExhausted { iterations: MAX_ITERATIONS });
        }
        other => panic!("{other:?}"),
    }
    let mut turn = Turn::new(1, 1, 1);
    assert!(matches!(turn.next_round("S", true, true), RoundStart::Stop(a, ExitReason::Interrupted)
        if a.contains("[turn interrupted by the operator before it finished]")));
    assert!(matches!(turn.next_round("S", false, true), RoundStart::Ask { .. }));
}

#[test]
fn skills_are_recommended_once() {
    let mut suggested = vec![];
    let rec = || Some(Recommendation { reference: "o/n".into(), note: "try o/n".into() });
    assert_eq!(recommend_skill(false, rec(), &mut suggested, "in".into()), "in");
    assert_eq!(recommend_skill(true, rec(), &mut suggested, "in".into()), "try o/n\n\nin");
    assert_eq!(recommend_skill(true, rec(), &mut suggested, "in".into()), "in");
    assert_eq!(recommend_skill(true, None, &mut suggested, "in".into()), "in");
    assert_eq!(suggested, ["o/n"]);
    assert_eq!(with_skill_note("n", Some("m"), "in"), "n\nm\n\nin");
    assert_eq!(with_skill_note("n", None, "in"), "n\n\nin");
}

#[test]
fn indexes_are_warmed_once_per_repository() {
    let mut seen = vec![];
    assert!(!claim_auto_index(&mut seen, "/r", false, true, true));
    assert!(!claim_auto_index(&mut seen, "/r", true, false, true));
    assert!(!claim_auto_index(&mut seen, "/r", true, true, false));
    assert!(claim_auto_index(&mut seen, "/r", true, true, true));
    assert!(!claim_auto_index(&mut seen, "/r", true, true, true));
    assert!(claim_auto_index(&mut seen, "/q", true, true, true));
    assert_eq!(handoff_message(&Handoff::Done), None);
    assert_eq!(
        handoff_message(&Handoff::Failed("x".into())).unwrap(),
        "repo-open auto-index handoff failed: x"
    );
    assert_eq!(
        handoff_message(&Handoff::TimedOut).unwrap(),
        "repo-open auto-index handoff timed out after 5s (index continues server-side)"
    );
}

#[test]
fn watermarks_never_go_below_zero() {
    assert_eq!(calls_in_context(10, 4), 6);
    assert_eq!(calls_in_context(4, 10), 0);
    assert_eq!(compaction_watermark(10, 4), 6);
    assert_eq!(compaction_watermark(4, 10), 0);
}

#[test]
fn coordinator_runs_are_reported() {
    let o = |phase, result: Option<&str>, error: Option<&str>| Outcome {
        phase,
        result: result.map(String::from),
        error: error.map(String::from),
    };
    assert!(matches!(report_outcome(o(Phase::Done, Some("r"), None)), Report::Print(s) if s == "r"));
    assert!(matches!(report_outcome(o(Phase::Checkpoint, None, None)), Report::Quiet));
    assert!(matches!(report_outcome(o(Phase::Failed, Some("r"), Some("e"))), Report::Fail(s) if s == "e"));
    assert!(matches!(report_outcome(o(Phase::Failed, None, None)), Report::Fail(s) if s == "coordinator failed"));
}

#[test]
fn hooks_stand_in_for_results() {
    let c = call("c9", "x", "{}");
    let r = denied_result(&c, "no");
    assert_eq!(r.id, "c9");
    assert!(r.is_error);
    assert_eq!(r.content, "Blocked by a PreToolUse hook: no");
    let r = replayed_result(&c, "out", false);
    assert_eq!((r.id.as_str(), r.content.as_str(), r.is_error), ("c9", "out", false));
}

#[test]
fn audits_name_tools_and_files() {
    let mut history = vec![Msg::user("go".into())];
    let mut turn = Turn::new(100, 1000, 1000);
    turn.next_round("S", false, false);
    let calls = vec![call("1", "read_file", r#"{"path":"src/a.rs"}"#), call("2", "read_file", "{}")];
    turn.reply(&mut history, true, says("", calls));
    let rounds = build_turns_audit_from_history(&history);
    assert_eq!(rounds.len(), 1);
    assert!(format!("{:?}", rounds[0]).contains("src/a.rs"));
    assert!(build_turns_audit_from_history(&[]).is_empty());
}

#[test]
fn narration_is_marked_in_nested_sessions() {
    let lines = narration_lines("  hello\nworld \n", true, 80);
    assert_eq!(lines, ["🗨 hello", "🗨 world"]);
    assert_eq!(narration_lines(" hello ", false, 80), ["hello"]);
}

#[test]
fn guards_speak_in_order() {
    assert!(guard_notices(false, None, CallBudgetAction::Continue, 20, 30).is_empty());
    assert_eq!(
        guard_notices(true, Some(13), CallBudgetAction::SoftWarn { count: 21 }, 20, 30),
        [
            "\x1b[2m  ⚠ batch-guard: 3 single-read turns in a row — nudging to batch independent reads\x1b[0m",
            "\x1b[2m  ⚠ serial-chain-guard: 13 consecutive single-call rounds — yielding to re-plan toward batching\x1b[0m",
            "\x1b[2m  ⚠ call-budget-guard: 21 tool calls this turn (soft 20) — consider converging\x1b[0m",
        ]
    );
    assert_eq!(
        guard_notices(false, None, CallBudgetAction::HardYield { count: 31 }, 20, 30),
        ["\x1b[2m  ⚠ call-budget-guard: 31 tool calls this turn (hard 30) — yielding to resume with fresh context\x1b[0m"]
    );
}
