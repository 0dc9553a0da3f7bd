use aish::json::{self, Json};
use aish::loopguard::{
    batch_nudge_suffix, blocked_result_text, budget_phase, budget_suffix, classify_disposition,
    is_batchable_read, recovery_directive, repeat_action, repeat_log_line, signature, with_banner,
    BatchGuard, BudgetPhase, CallBudgetAction, CallBudgetGuard, Disposition, ExitReason,
    RepeatAction, RepeatGuard, RoundExit, SerialChainGuard, CALL_BUDGET_HARD, CALL_BUDGET_SOFT,
    MAX_AUTO_RECOVERIES, SERIAL_CHAIN_YIELD_DEPTH,
};

fn value(s: &str) -> Json {
    json::parse(s).unwrap()
}

#[test]
fn budget_phase_thresholds_with_default_budget() {
    assert_eq!(budget_phase(1, 50), BudgetPhase::Normal);
    assert_eq!(budget_phase(37, 50), BudgetPhase::Normal); // 74%
    assert_eq!(budget_phase(38, 50), BudgetPhase::SoftWarn); // 76%
    assert_eq!(budget_phase(44, 50), BudgetPhase::SoftWarn); // 88%
    assert_eq!(budget_phase(45, 50), BudgetPhase::ForceSummarize); // 90%
    assert_eq!(budget_phase(50, 50), BudgetPhase::ForceSummarize); // 100%
}

#[test]
fn budget_phase_last_iteration_always_forces() {
    for max in [1usize, 2, 7, 10, 50, 99] {
        assert_eq!(
            budget_phase(max, max),
            BudgetPhase::ForceSummarize,
            "max={max}"
        );
    }
    assert_eq!(budget_phase(1, 0), BudgetPhase::ForceSummarize);
}

#[test]
fn budget_suffix_is_empty_only_when_normal() {
    assert_eq!(budget_suffix(BudgetPhase::Normal, 10), "");
    assert!(budget_suffix(BudgetPhase::SoftWarn, 7).contains("about 7"));
    assert!(
        budget_suffix(BudgetPhase::SoftWarn, 7)
            .to_lowercase()
            .contains("converge")
    );
    let force = budget_suffix(BudgetPhase::ForceSummarize, 0);
    assert!(force.contains("NO tools"));
    assert!(force.to_lowercase().contains("final"));
}

#[test]
fn repeat_action_maps_counts_to_thresholds() {
    assert_eq!(repeat_action(1), RepeatAction::Allow);
    assert_eq!(repeat_action(2), RepeatAction::Allow);
    assert_eq!(repeat_action(3), RepeatAction::Block); // soft
    assert_eq!(repeat_action(4), RepeatAction::Break); // hard
    assert_eq!(repeat_action(9), RepeatAction::Break);
}

#[test]
fn repeat_guard_counts_identical_calls() {
    let mut g = RepeatGuard::default();
    let args = value(r#"{"path": "a.txt"}"#);
    assert_eq!(g.record("read_file", &args), 1);
    assert_eq!(g.record("read_file", &args), 2);
    assert_eq!(g.record("read_file", &args), 3);
    assert_eq!(g.record("read_file", &value(r#"{"path": "b.txt"}"#)), 1);
    assert_eq!(g.record("list_dir", &args), 1);
}

#[test]
fn signature_is_stable_across_key_order() {
    let a = value(r#"{"program": "git", "args": ["status"], "env": {"X": "1", "Y": "2"}}"#);
    let b = value(r#"{"args": ["status"], "env": {"Y": "2", "X": "1"}, "program": "git"}"#);
    assert_eq!(signature("run_program", &a), signature("run_program", &b));
    let c = value(r#"{"program": "git", "args": ["push"]}"#);
    assert_ne!(signature("run_program", &a), signature("run_program", &c));
}

#[test]
fn exit_reason_tags_and_abnormality() {
    assert_eq!(ExitReason::Completed.tag(), "completed");
    assert!(!ExitReason::Completed.is_abnormal());
    assert!(ExitReason::ForcedSummarize { iterations: 9 }.is_abnormal());
    assert!(
        ExitReason::LoopDetected {
            call: "x".into(),
            count: 4
        }
        .is_abnormal()
    );
    assert!(ExitReason::BudgetExhausted { iterations: 50 }.is_abnormal());
}

#[test]
fn banner_round_trips_through_parse() {
    let cases = [
        ExitReason::ForcedSummarize { iterations: 45 },
        ExitReason::BudgetExhausted { iterations: 50 },
        ExitReason::LoopDetected {
            call: "🔧 read a".into(),
            count: 4,
        },
    ];
    for r in cases {
        let parsed = ExitReason::parse_banner(&r.banner()).expect("must parse its own banner");
        assert_eq!(parsed.tag(), r.tag());
        match (&parsed, &r) {
            (
                ExitReason::LoopDetected { count: a, .. },
                ExitReason::LoopDetected { count: b, .. },
            ) => {
                assert_eq!(a, b)
            }
            (
                ExitReason::ForcedSummarize { iterations: a },
                ExitReason::ForcedSummarize { iterations: b },
            ) => {
                assert_eq!(a, b)
            }
            (
                ExitReason::BudgetExhausted { iterations: a },
                ExitReason::BudgetExhausted { iterations: b },
            ) => {
                assert_eq!(a, b)
            }
            _ => panic!("variant mismatch: {parsed:?} vs {r:?}"),
        }
    }
}

#[test]
fn parse_banner_ignores_normal_and_garbage_first_lines() {
    assert_eq!(ExitReason::parse_banner("here is your answer\nmore"), None);
    assert_eq!(ExitReason::parse_banner(""), None);
    assert_eq!(
        ExitReason::parse_banner("[aish-stop tag=mystery iterations=1 count=0] x"),
        None
    );
}

#[test]
fn with_banner_prepends_only_for_abnormal() {
    let normal = with_banner(&ExitReason::Completed, "the answer");
    assert_eq!(normal, "the answer");
    let reason = ExitReason::ForcedSummarize { iterations: 45 };
    let out = with_banner(&reason, "  partial work  ");
    assert!(out.starts_with("[aish-stop tag=forced-summarize"));
    assert!(out.trim_end().ends_with("partial work"));
    let empty = with_banner(&reason, "   ");
    assert_eq!(
        ExitReason::parse_banner(&empty).unwrap().tag(),
        "forced-summarize"
    );
}

#[test]
fn disposition_routes_by_reason_and_budget() {
    let max = MAX_AUTO_RECOVERIES;
    assert_eq!(
        classify_disposition(&ExitReason::Completed, 0, max),
        Disposition::NoAction
    );
    assert_eq!(
        classify_disposition(&ExitReason::ForcedSummarize { iterations: 45 }, 0, max),
        Disposition::Resume
    );
    assert_eq!(
        classify_disposition(&ExitReason::BudgetExhausted { iterations: 50 }, 1, max),
        Disposition::Resume
    );
    assert_eq!(
        classify_disposition(
            &ExitReason::LoopDetected {
                call: "x".into(),
                count: 4
            },
            0,
            max
        ),
        Disposition::Nudge
    );
    assert_eq!(
        classify_disposition(&ExitReason::ForcedSummarize { iterations: 45 }, max, max),
        Disposition::FlagOperator
    );
    assert_eq!(
        classify_disposition(
            &ExitReason::LoopDetected {
                call: "x".into(),
                count: 4
            },
            max,
            max
        ),
        Disposition::FlagOperator
    );
}

#[test]
fn recovery_directive_matches_disposition() {
    let loop_reason = ExitReason::LoopDetected {
        call: "🔧 read a".into(),
        count: 4,
    };
    let nudge = recovery_directive(Disposition::Nudge, &loop_reason).unwrap();
    assert!(nudge.contains("[nudge]"));
    assert!(nudge.contains("read a"), "names the looping call: {nudge}");

    let resume = recovery_directive(
        Disposition::Resume,
        &ExitReason::BudgetExhausted { iterations: 50 },
    )
    .unwrap();
    assert!(resume.contains("[auto-resume]"));
    assert!(resume.to_lowercase().contains("where you left off"));

    assert!(recovery_directive(Disposition::FlagOperator, &loop_reason).is_none());
    assert!(recovery_directive(Disposition::NoAction, &ExitReason::Completed).is_none());
}

#[test]
fn disposition_verbs() {
    assert_eq!(Disposition::NoAction.verb(), "continuing");
    assert_eq!(Disposition::Resume.verb(), "auto-resuming");
    assert_eq!(Disposition::Nudge.verb(), "nudging");
    assert_eq!(Disposition::FlagOperator.verb(), "flagging for operator");
}

#[test]
fn round_exit_evaluate_bundles_reason_and_disposition() {
    let max = MAX_AUTO_RECOVERIES;

    assert_eq!(RoundExit::evaluate("here is your answer", 0, max), None);

    let banner = ExitReason::ForcedSummarize { iterations: 45 }.banner();
    let exit = RoundExit::evaluate(&banner, 0, max).expect("abnormal → Some");
    assert_eq!(exit.reason.tag(), "forced-summarize");
    assert_eq!(exit.disposition, Disposition::Resume);
    assert_eq!(exit.recovery_count, 0);
    assert!(
        exit.directive()
            .expect("resume has a directive")
            .contains("[auto-resume]")
    );

    let loop_banner = ExitReason::LoopDetected {
        call: "read a".into(),
        count: 4,
    }
    .banner();
    let looped = RoundExit::evaluate(&loop_banner, 0, max).expect("abnormal → Some");
    assert_eq!(looped.disposition, Disposition::Nudge);
    assert!(looped.directive().unwrap().contains("[nudge]"));

    let intr = RoundExit::evaluate(&ExitReason::Interrupted.banner(), 0, max)
        .expect("abnormal → Some");
    assert_eq!(intr.disposition, Disposition::NoAction);
    assert!(intr.directive().is_none());

    let flagged = RoundExit::evaluate(&banner, max, max).expect("abnormal → Some");
    assert_eq!(flagged.disposition, Disposition::FlagOperator);
    assert_eq!(flagged.recovery_count, max);
    assert!(flagged.directive().is_none());
}

#[test]
fn is_batchable_read_only_pure_inspection_tools() {
    for name in [
        "read_file",
        "grep_files",
        "list_dir",
        "glob_expand",
        "stat_file",
        "diff_files",
    ] {
        assert!(is_batchable_read(name), "{name} should be batchable");
    }
    for name in [
        "run_program",
        "edit_file",
        "write_file",
        "rename_file",
        "append_file",
        "run_in_background",
    ] {
        assert!(!is_batchable_read(name), "{name} must not be batchable");
    }
}

#[test]
fn batch_guard_nudges_after_three_lone_reads() {
    let mut g = BatchGuard::default();
    assert!(g.record(&["read_file"]).is_none(), "1st lone read: no nudge");
    assert!(g.record(&["grep_files"]).is_none(), "2nd lone read: no nudge");
    let nudge = g.record(&["list_dir"]).expect("3rd lone read trips nudge");
    assert!(nudge.contains("[BATCH"));
    assert!(g.record(&["stat_file"]).is_none(), "no per-round nagging");
}

#[test]
fn batch_guard_batched_turn_resets_streak() {
    let mut g = BatchGuard::default();
    g.record(&["read_file"]);
    g.record(&["read_file"]);
    assert!(g.record(&["read_file", "grep_files"]).is_none());
    assert!(g.record(&["read_file"]).is_none(), "streak restarted at 1");
    assert!(g.record(&["read_file"]).is_none(), "streak at 2");
    assert!(
        g.record(&["read_file"]).is_some(),
        "streak at 3 → nudge again after reset"
    );
}

#[test]
fn batch_guard_non_read_turn_resets_streak() {
    let mut g = BatchGuard::default();
    g.record(&["read_file"]);
    g.record(&["grep_files"]);
    assert!(g.record(&["run_program"]).is_none());
    assert!(g.record(&["read_file"]).is_none(), "streak restarted");
    assert!(g.record(&["read_file"]).is_none());
    assert!(g.record(&["read_file"]).is_some(), "nudge after fresh streak");
}

#[test]
fn batch_guard_empty_turn_resets_streak() {
    let mut g = BatchGuard::default();
    g.record(&["read_file"]);
    g.record(&["read_file"]);
    assert!(g.record(&[]).is_none());
    assert!(g.record(&["read_file"]).is_none(), "streak restarted at 1");
}

#[test]
fn serial_chain_guard_yields_after_depth_exceeds_threshold() {
    let mut g = SerialChainGuard::default();
    for i in 1..=SERIAL_CHAIN_YIELD_DEPTH {
        assert!(
            g.record(1).is_none(),
            "round {i} (≤ threshold) must not yield"
        );
    }
    assert_eq!(
        g.record(1),
        Some(SERIAL_CHAIN_YIELD_DEPTH + 1),
        "the round past the threshold yields with the depth"
    );
}

#[test]
fn serial_chain_guard_honors_threshold_override() {
    let raised = SERIAL_CHAIN_YIELD_DEPTH + 4;
    let mut g = SerialChainGuard::with_threshold(raised);
    for i in 1..=raised {
        assert!(
            g.record(1).is_none(),
            "round {i} within the raised threshold must not yield"
        );
    }
    assert_eq!(
        g.record(1),
        Some(raised + 1),
        "yields only once the raised threshold is exceeded"
    );
}

#[test]
fn serial_chain_guard_batched_or_empty_round_resets() {
    let mut g = SerialChainGuard::default();
    for _ in 0..SERIAL_CHAIN_YIELD_DEPTH {
        assert!(g.record(1).is_none());
    }
    assert!(g.record(3).is_none(), "batched round resets the chain");
    for i in 1..=SERIAL_CHAIN_YIELD_DEPTH {
        assert!(g.record(1).is_none(), "post-reset round {i} must not yield");
    }
    assert_eq!(g.record(1), Some(SERIAL_CHAIN_YIELD_DEPTH + 1));

    let mut g2 = SerialChainGuard::default();
    for _ in 0..SERIAL_CHAIN_YIELD_DEPTH {
        assert!(g2.record(1).is_none());
    }
    assert!(g2.record(0).is_none(), "no-call round resets the chain");
    assert!(g2.record(1).is_none(), "streak restarted at 1");
}

#[test]
fn serial_chain_yield_banner_round_trips_and_resumes() {
    let reason = ExitReason::SerialChainYield { depth: 9 };
    assert_eq!(reason.tag(), "serial-chain-yield");
    assert!(reason.is_abnormal());
    let parsed =
        ExitReason::parse_banner(&reason.banner()).expect("serial-chain banner must parse");
    assert_eq!(parsed, ExitReason::SerialChainYield { depth: 9 });
    let max = MAX_AUTO_RECOVERIES;
    assert_eq!(
        classify_disposition(&reason, 0, max),
        Disposition::Resume
    );
    assert_eq!(
        classify_disposition(&reason, max, max),
        Disposition::FlagOperator
    );
    let exit = RoundExit::evaluate(&with_banner(&reason, "partial"), 0, max)
        .expect("abnormal → Some");
    assert_eq!(exit.disposition, Disposition::Resume);
    assert!(exit.directive().unwrap().contains("[auto-resume]"));
}

#[test]
fn call_budget_guard_soft_then_hard_crossings() {
    let mut g = CallBudgetGuard::default();
    assert_eq!(g.record(CALL_BUDGET_SOFT), CallBudgetAction::Continue);
    assert_eq!(
        g.record(1),
        CallBudgetAction::SoftWarn {
            count: CALL_BUDGET_SOFT + 1
        }
    );
    assert_eq!(g.record(1), CallBudgetAction::Continue);
    let need = CALL_BUDGET_HARD.saturating_sub(CALL_BUDGET_SOFT + 2) + 1;
    assert_eq!(
        g.record(need),
        CallBudgetAction::HardYield {
            count: CALL_BUDGET_HARD + 1
        }
    );
}

#[test]
fn call_budget_guard_hard_takes_precedence_over_soft() {
    let mut g = CallBudgetGuard::default();
    assert_eq!(
        g.record(CALL_BUDGET_HARD + 5),
        CallBudgetAction::HardYield {
            count: CALL_BUDGET_HARD + 5
        }
    );
}

#[test]
fn call_budget_exceeded_banner_round_trips_and_resumes() {
    let reason = ExitReason::CallBudgetExceeded { count: 61 };
    assert_eq!(reason.tag(), "call-budget-exceeded");
    assert!(reason.is_abnormal());
    let parsed =
        ExitReason::parse_banner(&reason.banner()).expect("call-budget banner must parse");
    assert_eq!(parsed, ExitReason::CallBudgetExceeded { count: 61 });
    let max = MAX_AUTO_RECOVERIES;
    assert_eq!(classify_disposition(&reason, 0, max), Disposition::Resume);
    assert_eq!(
        classify_disposition(&reason, max, max),
        Disposition::FlagOperator
    );
    let exit = RoundExit::evaluate(&with_banner(&reason, "partial"), 0, max)
        .expect("abnormal → Some");
    assert_eq!(exit.disposition, Disposition::Resume);
    assert!(exit.directive().unwrap().contains("[auto-resume]"));
}

#[test]
fn texts_name_the_call_and_the_count() {
    assert_eq!(
        blocked_result_text("🛠️  read a", 3),
        "[loop-guard] This identical call has now been requested 3 times this turn with no new information and was NOT executed again (to avoid a duplicate side effect): 🛠️  read a\nStop repeating it. Either take a genuinely different action, or — if you are blocked — state the specific blocker plainly and give your best partial answer."
    );
    assert!(repeat_log_line("read a", 4, RepeatAction::Break).contains("read a"));
    assert!(batch_nudge_suffix().starts_with("\n\n[BATCH"));
}

#[test]
fn every_banner_reads_back() {
    for r in [
        ExitReason::ForcedSummarize { iterations: 45 },
        ExitReason::BudgetExhausted { iterations: 50 },
        ExitReason::SerialChainYield { depth: 13 },
        ExitReason::CallBudgetExceeded { count: 31 },
        ExitReason::Interrupted,
    ] {
        assert_eq!(ExitReason::parse_banner(&with_banner(&r, "body")), Some(r));
    }
    assert_eq!(ExitReason::parse_banner(&with_banner(&ExitReason::Completed, "body")), None);
}

#[test]
fn equal_numbers_of_other_types_are_other_calls() {
    assert_ne!(
        signature("t", &value(r#"{"n": 1}"#)),
        signature("t", &value(r#"{"n": "1"}"#))
    );
    assert_ne!(signature("ab", &value("{}")), signature("a", &value("{}")));
}

#[test]
fn a_repeated_call_runs_twice_whatever_comes_between() {
    let mut g = RepeatGuard::default();
    let push = aish::json::parse("{\"program\":\"git\"}").unwrap();
    let other = aish::json::parse("{\"path\":\"a\"}").unwrap();
    let mut actions = Vec::new();
    for _ in 0..4 {
        actions.push(repeat_action(g.record("run_program", &push)));
        let _ = g.record("read_file", &other);
    }
    assert_eq!(
        actions,
        vec![
            RepeatAction::Allow,
            RepeatAction::Allow,
            RepeatAction::Block,
            RepeatAction::Break
        ]
    );
}

#[test]
fn calls_that_differ_only_in_quoting_are_counted_apart() {
    let a = value(r#"{"a":"x\",\"b\":\"y"}"#);
    let b = value(r#"{"a":"x","b":"y"}"#);
    assert_ne!(signature("t", &a), signature("t", &b));
    let mut g = RepeatGuard::default();
    assert_eq!(g.record("t", &a), 1);
    assert_eq!(g.record("t", &b), 1);
    assert_eq!(g.record("t", &a), 2);
    assert_eq!(g.record("u", &a), 1);
}

#[test]
fn signatures_hash_the_name_and_the_members_in_key_order() {
    // run_program, a NUL, {args:["-l","a\b",],deep:{x:null,y:true,},program:"ls⏎π",timeout:1.5,}
    let args = value(
        r#"{"timeout":1.5,"program":"ls\nπ","deep":{"y":true,"x":null},"args":["-l","a\\b"]}"#,
    );
    assert_eq!(signature("run_program", &args), 0xe111_502a_da71_57c7);
    assert_eq!(signature("", &value("[]")), 0xd817_9518_6b08_0be3);
    // t, a NUL, {a:"say ""hi""","k:v":1,"}":2,}
    let marked = value(r#"{"}":2,"k:v":1,"a":"say \"hi\""}"#);
    assert_eq!(signature("t", &marked), 0x626c_1add_6533_519b);
}

#[test]
fn keys_that_look_like_other_text_are_counted_apart() {
    let texts = [
        r#"{"a":1,"b":2}"#,
        r#"{"a:1,b":2}"#,
        r#"{"\"a:1,b\"":2}"#,
        r#"{"":{}}"#,
        r#"{"}":{}}"#,
        r#"{"":"}"}"#,
        r#"{"a":["x","y"]}"#,
        r#"{"a":["x\",\"y"]}"#,
    ];
    let mut g = RepeatGuard::default();
    for t in texts {
        assert_eq!(g.record("t", &value(t)), 1, "{t}");
    }
    for t in texts {
        assert_eq!(g.record("t", &value(t)), 2, "{t}");
    }
}

#[test]
fn a_banner_without_one_of_its_fields_is_none() {
    for s in [
        "[aish-stop tag=forced-summarize] partial",
        "[aish-stop tag=forced-summarize iterations=3] partial",
        "[aish-stop tag=forced-summarize count=3] partial",
        "[aish-stop iterations=1 count=0] x",
        "[aish-stop ] x",
    ] {
        assert_eq!(ExitReason::parse_banner(s), None, "{s}");
    }
    assert_eq!(
        ExitReason::parse_banner("[aish-stop tag=forced-summarize iterations=3 count=0] x"),
        Some(ExitReason::ForcedSummarize { iterations: 3 })
    );
    assert_eq!(
        ExitReason::parse_banner("[aish-stop tag=interrupted iterations=x count=0] x"),
        Some(ExitReason::Interrupted)
    );
}

#[test]
fn logs_and_banners_stand_on_one_line() {
    let looped = ExitReason::LoopDetected { call: "run\na b".to_string(), count: 4 };
    assert_eq!(
        looped.log_line(),
        "turn stopped [loop-detected]: detected a loop — the call `run a b` was repeated 4 times without progress"
    );
    assert_eq!(looped.banner().lines().count(), 1);
    assert_eq!(with_banner(&looped, "body").lines().count(), 3);
    assert_eq!(
        repeat_log_line("x\ny", 3, RepeatAction::Block),
        "loop-guard: blocked repeated call ×3 — asking the model to re-plan: x y"
    );
}

#[test]
fn an_advisory_limit_behind_the_hard_one_never_shows() {
    let mut g = CallBudgetGuard::with_budget(9, 3);
    assert_eq!(g.record(3), CallBudgetAction::Continue);
    assert_eq!(g.record(1), CallBudgetAction::HardYield { count: 4 });
    assert_eq!(g.record(9), CallBudgetAction::HardYield { count: 13 });
}
