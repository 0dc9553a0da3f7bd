use aish::cli::{
    json_ok, json_ok_err, normalize_script_argv, pick_backend, report, timing_on, Launch, Options,
    OutputFormat, Report,
};
use aish::fd_shield::{after_step, Held, Outcome, ReadEnd, Relay, RelayStep, Stage};
use aish::header::{too_short, Header};

fn v(items: &[&str]) -> Vec<String> {
    items.iter().map(|s| s.to_string()).collect()
}

#[test]
fn normalize_collapses_macos_shebang_duplicate() {
    let argv = v(&["/tmp/s.aish", "/tmp/s.aish", "alpha", "beta"]);
    assert_eq!(normalize_script_argv(&argv), &v(&["/tmp/s.aish", "alpha", "beta"])[..]);
}

#[test]
fn normalize_leaves_linux_shebang_untouched() {
    let argv = v(&["/tmp/s.aish", "alpha", "beta"]);
    assert_eq!(normalize_script_argv(&argv), &argv[..]);
    let one = v(&["/tmp/s.aish"]);
    assert_eq!(normalize_script_argv(&one), &one[..]);
    let none: Vec<String> = Vec::new();
    assert_eq!(normalize_script_argv(&none), &none[..]);
}

#[test]
fn normalize_only_collapses_a_leading_duplicate() {
    let argv = v(&["/tmp/s.aish", "alpha", "alpha"]);
    assert_eq!(normalize_script_argv(&argv), &argv[..]);
}

#[test]
fn answers_and_failures_are_one_json_line() {
    assert_eq!(json_ok("a \"b\"\n"), "{\"ok\":true,\"output\":\"a \\\"b\\\"\\n\"}");
    assert_eq!(json_ok_err("no"), "{\"ok\":false,\"error\":\"no\"}");
    let back: serde_json::Value = serde_json::from_str(&json_ok("tab\t\u{1}é")).unwrap();
    assert_eq!(back["ok"], true);
    assert_eq!(back["output"], "tab\t\u{1}é");
}

fn options() -> Options {
    Options {
        command: None,
        update: false,
        skill_fetch: None,
        skill_search: None,
        detect_local_model: false,
        coordinator: false,
        run_id: None,
        script_argv: vec![],
    }
}

#[test]
fn launches_follow_the_command_line() {
    assert!(matches!(options().launch(), Launch::Interactive));
    assert!(options().interactive());

    let mut o = options();
    o.script_argv = v(&["s", "s", "a"]);
    match o.launch() {
        Launch::Script { path, args } => {
            assert_eq!(path, "s");
            assert_eq!(args, &v(&["a"])[..]);
        }
        other => panic!("{other:?}"),
    }
    assert!(!o.interactive());

    o.command = Some("hi".into());
    assert!(matches!(o.launch(), Launch::OneShot(p) if p == "hi"));
    o.coordinator = true;
    assert!(matches!(o.launch(), Launch::MissingRunId));
    o.run_id = Some("r1".into());
    assert!(matches!(o.launch(), Launch::Coordinator { prompt, run_id } if prompt == "hi" && run_id == "r1"));
    o.detect_local_model = true;
    assert!(matches!(o.launch(), Launch::DetectLocalModel));
    o.skill_search = Some("q".into());
    assert!(matches!(o.launch(), Launch::SkillSearch(q) if q == "q"));
    o.skill_fetch = Some("o/n".into());
    assert!(matches!(o.launch(), Launch::SkillFetch(r) if r == "o/n"));
    o.update = true;
    assert!(matches!(o.launch(), Launch::Update));
}

#[test]
fn backends_are_picked_by_name() {
    let all = ["grok", "local"];
    assert_eq!(pick_backend(false, "grok", &all), Ok(0));
    assert_eq!(pick_backend(false, "local", &all), Ok(1));
    assert_eq!(pick_backend(true, "nonsense", &all), Ok(1));
    assert_eq!(
        pick_backend(false, "gpt", &all).unwrap_err(),
        "unknown backend: gpt (available: grok, local)"
    );
    assert_eq!(pick_backend(true, "gpt", &[]).unwrap_err(), "unknown backend: local (available: )");
}

#[test]
fn reports_depend_on_the_format() {
    assert!(matches!(report(Ok("*x*"), OutputFormat::Text), Report::Markdown(t) if t == "*x*"));
    assert!(matches!(report(Ok("x"), OutputFormat::Json), Report::Line(t) if t == json_ok("x")));
    assert!(matches!(report(Err("e"), OutputFormat::Text), Report::Failure(t) if t == "e"));
    assert!(
        matches!(report(Err("e"), OutputFormat::Json), Report::FailureLine(t) if t == json_ok_err("e"))
    );
    assert!(timing_on(Some("1")));
    assert!(!timing_on(Some("0")));
    assert!(!timing_on(Some("")));
    assert!(!timing_on(None));
}

#[test]
fn the_header_is_drawn_restored_and_removed() {
    let mut h = Header::new();
    assert!(!h.active());
    assert_eq!(h.install(None, "s", true), "");
    assert_eq!(h.install(Some((3, 80)), "s", true), "");
    assert!(too_short(3) && !too_short(4));
    assert!(!h.active());
    let painted = "\x1b[3;24r\x1b7\x1b[1;1H\x1b[2Khello\x1b[2;1H\x1b[2K\x1b[1;37m────\x1b[0m\x1b8";
    assert_eq!(
        h.install(Some((24, 4)), "hello", true),
        format!("\x1b[3;24r\x1b[3;1H{painted}")
    );
    assert!(h.active());
    assert_eq!(h.repaint(Some((24, 4)), "hello", true), painted);
    assert_eq!(
        h.restore_after_clear(Some((24, 4)), true),
        format!("\x1b[3;24r\x1b[3;1H{painted}")
    );
    assert_eq!(
        h.repaint(Some((5, 2)), "x", false),
        "\x1b[3;5r\x1b7\x1b[1;1H\x1b[2Kx\x1b[2;1H\x1b[2K──\x1b8"
    );
    assert_eq!(h.teardown(false), "");
    assert_eq!(h.teardown(true), "\x1b[r\r\n");
    assert_eq!(h.teardown(true), "");
    assert_eq!(h.restore_after_clear(Some((24, 4)), true), "");
}

#[test]
fn a_relay_outlives_its_reader() {
    let mut r = Relay::new();
    assert_eq!(r.on_read(ReadEnd::Bytes(7)), RelayStep::Forward(7));
    r.on_write(true);
    assert_eq!(r.on_read(ReadEnd::Interrupted), RelayStep::Again);
    r.on_write(false);
    assert_eq!(r.on_read(ReadEnd::Bytes(4096)), RelayStep::Discard);
    r.on_write(true);
    assert_eq!(r.on_read(ReadEnd::Bytes(1)), RelayStep::Discard);
    assert_eq!(r.on_read(ReadEnd::Bytes(0)), RelayStep::Stop);
    assert_eq!(r.on_read(ReadEnd::Failed), RelayStep::Stop);
}

#[test]
fn a_failed_shield_gives_everything_back() {
    assert_eq!(after_step(Stage::Probe, true), Outcome::Next(Stage::Pipe));
    assert_eq!(after_step(Stage::Pipe, true), Outcome::Next(Stage::Keep));
    assert_eq!(after_step(Stage::Keep, true), Outcome::Next(Stage::Swap));
    assert_eq!(after_step(Stage::Swap, true), Outcome::Next(Stage::Start));
    assert_eq!(after_step(Stage::Start, true), Outcome::Shielded);
    let held = |reader, writer, kept, swapped| Held { reader, writer, kept, swapped };
    assert_eq!(after_step(Stage::Probe, false), Outcome::GiveUp(held(false, false, false, false)));
    assert_eq!(after_step(Stage::Pipe, false), Outcome::GiveUp(held(false, false, false, false)));
    assert_eq!(after_step(Stage::Keep, false), Outcome::GiveUp(held(true, true, false, false)));
    assert_eq!(after_step(Stage::Swap, false), Outcome::GiveUp(held(true, true, true, false)));
    assert_eq!(after_step(Stage::Start, false), Outcome::GiveUp(held(true, false, true, true)));
}

#[test]
fn reports_stand_on_one_line() {
    assert_eq!(json_ok("a\nb \"c\""), r#"{"ok":true,"output":"a\nb \"c\""}"#);
    assert_eq!(json_ok_err("x\r\n\u{1}"), r#"{"ok":false,"error":"x\r\n\u0001"}"#);
}
