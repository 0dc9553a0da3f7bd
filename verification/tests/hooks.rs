use aish::backend::ToolCall;
use aish::hooks::{
    denial, glob_match, tool_hook_payload, turn_end_payload, Action, Agent, DispatchError, Hook, HookEvent,
    HookPayload, HookSet, Matcher,
};
use aish::json::{self, Json};
use serde_json::Value;

fn text(s: &str) -> Json {
    Json::Str(s.to_string())
}

fn payload(event: HookEvent) -> HookPayload {
    HookPayload::new(
        event,
        "sess-1",
        Agent::Interactive,
        "/tmp/proj",
        "normal",
    )
}

#[test]
fn event_names_round_trip() {
    for e in [
        HookEvent::SessionStart,
        HookEvent::PreToolUse,
        HookEvent::PostToolUse,
        HookEvent::FileChanged,
        HookEvent::SessionEnd,
        HookEvent::SkillMatched,
        HookEvent::CoordinatorPhaseChanged,
    ] {
        assert_eq!(HookEvent::parse(e.as_str()), Some(e), "round-trip {e:?}");
    }
    assert_eq!(HookEvent::parse("NotAnEvent"), None);
    assert_eq!(HookEvent::parse("pretooluse"), None);
}

#[test]
fn glob_basics() {
    assert!(glob_match("*", "anything"));
    assert!(glob_match("*", ""));
    assert!(glob_match("git", "git"));
    assert!(!glob_match("git", "gitk"));
    assert!(glob_match("git*", "git push"));
    assert!(glob_match("*.lock", "Cargo.lock"));
    assert!(!glob_match("*.lock", "Cargo.toml"));
    assert!(glob_match("?at", "cat"));
    assert!(!glob_match("?at", "at"));
    assert!(glob_match("a*b*c", "axxbyyc"));
    assert!(!glob_match("a*b*c", "axxbyy"));
    assert!(glob_match("**/secret*", "src/x/secret.key"));
}

#[test]
fn matcher_empty_matches_everything() {
    let m = Matcher::default();
    assert!(m.matches(&payload(HookEvent::PreToolUse)));
}

#[test]
fn matcher_fields_and_together() {
    let m = Matcher {
        tool: Some("run_program".into()),
        program: Some("git".into()),
        ..Default::default()
    };
    let p = payload(HookEvent::PreToolUse)
        .with("tool", text("run_program"))
        .with("program", text("git"));
    assert!(m.matches(&p));
    let p2 = payload(HookEvent::PreToolUse)
        .with("tool", text("run_program"))
        .with("program", text("ls"));
    assert!(!m.matches(&p2));
}

#[test]
fn matcher_program_filter_excludes_when_field_absent() {
    let m = Matcher {
        program: Some("git".into()),
        ..Default::default()
    };
    let p = payload(HookEvent::PreToolUse).with("tool", text("read_file"));
    assert!(!m.matches(&p));
}

#[test]
fn matcher_mode_is_or_list() {
    let m = Matcher {
        mode: vec!["paranoid".into(), "careful".into()],
        ..Default::default()
    };
    assert!(!m.matches(&payload(HookEvent::PreToolUse)));
    let p = HookPayload::new(
        HookEvent::PreToolUse,
        "s",
        Agent::Interactive,
        "/x",
        "paranoid",
    );
    assert!(m.matches(&p));
    let p2 = HookPayload::new(
        HookEvent::PreToolUse,
        "s",
        Agent::Interactive,
        "/x",
        "yolo",
    );
    assert!(!m.matches(&p2));
}

#[test]
fn matcher_agent_filter() {
    let m = Matcher {
        agent: Some("interactive".into()),
        ..Default::default()
    };
    assert!(m.matches(&payload(HookEvent::PreToolUse)));
    let coord = HookPayload::new(
        HookEvent::PreToolUse,
        "s",
        Agent::Coordinator,
        "/x",
        "normal",
    );
    assert!(!m.matches(&coord));
}

#[test]
fn matcher_path_glob() {
    let m = Matcher {
        path_glob: Some("*.lock".into()),
        ..Default::default()
    };
    assert!(m.matches(&payload(HookEvent::FileChanged).with("path", text("/proj/Cargo.lock"))));
    assert!(m.matches(&payload(HookEvent::FileChanged).with("path", text("Cargo.lock"))));
    assert!(!m.matches(&payload(HookEvent::FileChanged).with("path", text("/proj/Cargo.toml"))));
    let m3 = Matcher {
        path_glob: Some("*Cargo.lock".into()),
        ..Default::default()
    };
    assert!(m3.matches(&payload(HookEvent::FileChanged).with("path", text("/proj/Cargo.lock"))));
}

#[test]
fn matcher_mode_absent_when_not_in_list() {
    let m = Matcher {
        mode: vec!["paranoid".into()],
        ..Default::default()
    };
    assert!(!m.matches(&payload(HookEvent::PreToolUse)));
}

#[test]
fn empty_set_has_nothing() {
    let set = HookSet::empty();
    assert!(set.is_empty());
    assert!(!set.has(HookEvent::PreToolUse));
    assert_eq!(set.len(), 0);
}

#[test]
fn payload_carries_common_envelope() {
    let p = payload(HookEvent::PreToolUse).with("tool", text("run_program"));
    let v: Value = serde_json::from_str(&p.to_json_string()).unwrap();
    assert_eq!(v["event"], "PreToolUse");
    assert_eq!(v["session_id"], "sess-1");
    assert_eq!(v["agent"], "interactive");
    assert_eq!(v["cwd"], "/tmp/proj");
    assert_eq!(v["mode"], "normal");
    assert_eq!(v["tool"], "run_program");
    assert!(v["timestamp_ms"].as_u64().is_some());
}

#[test]
fn payload_carries_no_unset_fields() {
    let p = payload(HookEvent::SessionStart);
    let v: Value = serde_json::from_str(&p.to_json_string()).unwrap();
    let obj = v.as_object().unwrap();
    assert_eq!(
        obj.len(),
        6,
        "envelope keys: {:?}",
        obj.keys().collect::<Vec<_>>()
    );
}

#[test]
fn every_event_has_a_name_of_its_own() {
    let all = HookEvent::ALL;
    for (i, e) in all.iter().enumerate() {
        assert_eq!(HookEvent::parse(e.as_str()), Some(*e));
        for f in &all[..i] {
            assert_ne!(e.as_str(), f.as_str());
        }
    }
}

#[test]
fn a_star_matches_a_text_with_stars() {
    assert!(glob_match("*", "a*b"));
    assert!(glob_match("a*", "a*"));
    assert!(glob_match("", ""));
    assert!(!glob_match("", "x"));
    assert!(glob_match("**", "x"));
    assert!(!glob_match("?", ""));
}

fn command(event: HookEvent, program: &str, tool: Option<&str>) -> Hook {
    Hook {
        event,
        matcher: Matcher { tool: tool.map(String::from), ..Default::default() },
        action: Action::Command {
            program: program.into(),
            args: vec![],
            timeout_ms: None,
            required: false,
        },
        matched: 0,
    }
}

#[test]
fn matching_hooks_fire_in_order_and_are_counted() {
    let mut set = HookSet::empty();
    set.load(vec![command(HookEvent::PreToolUse, "a", None)]);
    set.load(vec![
        command(HookEvent::PreToolUse, "b", Some("read_*")),
        command(HookEvent::SessionEnd, "c", None),
    ]);
    assert_eq!(set.len(), 3);
    assert!(set.has(HookEvent::SessionEnd) && !set.has(HookEvent::FileChanged));
    let p = payload(HookEvent::PreToolUse).with("tool", text("read_file"));
    let fired = set.matching(false, HookEvent::PreToolUse, &p);
    let programs: Vec<&str> = fired
        .iter()
        .map(|a| match a {
            Action::Command { program, .. } => program.as_str(),
            Action::Rule { .. } => "",
        })
        .collect();
    assert_eq!(programs, ["a", "b"]);
    assert_eq!(set.hooks().iter().map(|h| h.matched).collect::<Vec<_>>(), [1, 1, 0]);
    assert!(set.matching(true, HookEvent::PreToolUse, &p).is_empty(), "no hook inside a hook");
    assert!(set.matching(false, HookEvent::FileChanged, &p).is_empty());
    assert_eq!(set.hooks()[0].matched, 1);
}

#[test]
fn timeouts_default() {
    assert_eq!(command(HookEvent::PreToolUse, "a", None).action.timeout_ms(), 5_000);
    assert_eq!(Action::Rule { deny_if: None }.timeout_ms(), 5_000);
    let quick = Action::Command {
        program: "x".into(),
        args: vec!["-v".into()],
        timeout_ms: Some(7),
        required: true,
    };
    assert_eq!(quick.copy().timeout_ms(), 7);
}

#[test]
fn tool_calls_and_turns_have_payloads() {
    let call = ToolCall {
        id: "t".into(),
        name: "run_program".into(),
        args: json::parse(r#"{"program":"git","path":"/p"}"#).unwrap(),
    };
    let p = tool_hook_payload(payload(HookEvent::PreToolUse), &call);
    assert_eq!(p.field("tool"), Some("run_program"));
    assert_eq!(p.field("program"), Some("git"));
    let p = turn_end_payload(payload(HookEvent::SessionEnd), Ok("né"));
    assert!(p.to_json_string().contains("3"), "{}", p.to_json_string());
    let p = turn_end_payload(payload(HookEvent::SessionEnd), Err("boom"));
    assert!(p.to_json_string().contains("boom"));
    assert!(!DispatchError::Timeout.message().is_empty());
    assert!(DispatchError::Spawn("enoent".into()).message().contains("enoent"));
}

#[test]
fn the_hooks_of_an_earlier_file_fire_first() {
    let hook = |program: &str| Hook {
        event: HookEvent::TurnEnd,
        matcher: Matcher::default(),
        action: Action::Command {
            program: program.to_string(),
            args: Vec::new(),
            timeout_ms: None,
            required: false,
        },
        matched: 0,
    };
    let mut set = HookSet::empty();
    set.load(vec![hook("user")]);
    set.load(vec![hook("project")]);
    let payload = HookPayload::at(HookEvent::TurnEnd, "s", Agent::Script, "/", "normal", 1);
    let programs: Vec<String> = set
        .matching(false, HookEvent::TurnEnd, &payload)
        .into_iter()
        .map(|a| match a {
            Action::Command { program, .. } => program,
            Action::Rule { .. } => panic!("no rule was registered"),
        })
        .collect();
    assert_eq!(programs, vec!["user".to_string(), "project".to_string()]);
}

#[test]
fn a_failed_hook_denies_and_a_required_one_must_run() {
    let hook = |required: bool| Action::Command {
        program: "guard".to_string(),
        args: vec![],
        timeout_ms: None,
        required,
    };
    assert_eq!(denial(&hook(false), Ok(true)), None);
    assert_eq!(denial(&hook(false), Ok(false)), Some("guard failed".to_string()));
    assert_eq!(denial(&hook(false), Err(DispatchError::Timeout)), None);
    assert_eq!(
        denial(&hook(true), Err(DispatchError::Timeout)),
        Some("guard: timed out".to_string())
    );
    let rule = Action::Rule { deny_if: Some("x".to_string()) };
    assert_eq!(denial(&rule, Ok(true)), None);
}

#[test]
fn a_payload_is_one_line() {
    let p = payload(HookEvent::PreToolUse).with("note", text("a\nb\r\t\u{1}\"\\"));
    let line = p.to_json_string();
    assert!(!line.contains('\n') && !line.contains('\r'), "{line}");
    let back: Value = serde_json::from_str(&line).unwrap();
    assert_eq!(back["note"], "a\nb\r\t\u{1}\"\\");
}
