use aish::activity::{
    activity_stream_lines, animates, ansi_stripped_width, call_line, collapse_last_turn,
    describe_call, desc_budget, flatten_ws, physical_rows, raw_body, raw_result_lines,
    render_raw_toggle, reveal_last_turn, statusline_stats, stderr_cols, stream_lines, tool_glyph, tool_result_line,
    truncate_to_cols, Spin, Stats, ToolRun, Usage, SPIN_CLEAR, SPIN_HIDE, TOOL_FRAMES,
};
use aish::backend::{ToolCall, ToolResult};
use aish::json;
use unicode_width::UnicodeWidthStr;

fn value(s: &str) -> json::Json {
    json::parse(s).unwrap()
}

fn call(name: &str, args: &str) -> ToolCall {
    ToolCall { id: "t".into(), name: name.into(), args: value(args) }
}

#[test]
fn raw_body_placeholder() {
    let mk = |content: &str, is_error| ToolResult::text("t", content, is_error);
    assert_eq!(raw_body(&mk("hello", false)), "hello");
    assert_eq!(raw_body(&mk("", true)), "(no output)");
    assert_eq!(raw_body(&mk("   \n ", false)), "(no output)");
    assert_eq!(raw_body(&mk("boom", true)), "boom");
}

#[test]
fn raw_body_shows_human_text_not_model_json_for_structured_results() {
    let r = ToolResult::structured(
        "t",
        "file f.txt 3\ndir  sub",
        value(r#"[{"name": "f.txt", "type": "file", "size": 3}]"#),
        false,
    );
    assert_eq!(raw_body(&r), "file f.txt 3\ndir  sub");
    assert_ne!(raw_body(&r), r.model_content());

    let so = ToolResult::structured("t", "", value(r#"{"k": 1}"#), false);
    assert_eq!(raw_body(&so), "{\n  \"k\": 1\n}");
}

#[test]
fn raw_body_payload_is_additive_matches_text_only_view() {
    let content = "name  type  size\nf.txt file  3";
    let text = ToolResult::text("t", content, false);
    let structured = ToolResult::structured(
        "t",
        content,
        value(r#"[{"name": "f.txt", "type": "file", "size": 3}]"#),
        false,
    );
    assert_eq!(raw_body(&structured), raw_body(&text), "payload must not alter the raw view");
    assert_eq!(raw_body(&structured), content);
    assert_ne!(raw_body(&structured), structured.model_content());
}

#[test]
fn tool_result_line_marks_status() {
    let ok = tool_result_line("read /etc/hosts", false);
    assert!(ok.contains("\x1b[32m✓\x1b[0m"), "success checkmark should be green: {ok}");
    let err = tool_result_line("write x", true);
    assert!(err.contains("\x1b[31m✗\x1b[0m"), "error X should be red: {err}");
}

#[test]
fn tool_glyph_escalate_handshake_mcp_wrench_local_hammer() {
    assert_eq!(tool_glyph("escalate"), "🤝");
    assert_eq!(tool_glyph("run_program"), "🛠️ ");
    assert_eq!(tool_glyph("read_file"), "🛠️ ");
    assert_eq!(tool_glyph("mcp__atum__list_tools"), "🔧");
}

#[test]
fn escalate_activity_line_uses_handshake_glyph() {
    let call = call("escalate", r#"{ "task": "estimate the LOE" }"#);
    let desc = format!("{} {}", tool_glyph(&call.name), flatten_ws(&describe_call(&call)));
    assert!(
        desc.starts_with("🤝 escalate:"),
        "escalate line must lead with the handshake: {desc}"
    );
    assert!(!desc.contains('🔧'), "escalate must not show the wrench: {desc}");
    let done = tool_result_line(&desc, false);
    assert!(done.contains("\x1b[32m✓\x1b[0m"), "done line should be green-checked: {done}");
    assert!(done.contains("🤝"), "done line keeps the handshake: {done}");
    assert_eq!(call_line(&call), desc);
}

#[test]
fn describe_call_names_target_for_internal_tools() {
    let d = |name: &str, args: &str| describe_call(&call(name, args));
    assert_eq!(d("read_file", r#"{"path": "a.rs"}"#), "read a.rs");
    assert_eq!(
        d("edit_file", r#"{"path": "a.rs", "pattern": "foo"}"#),
        "edit a.rs (\"foo\")"
    );
    assert_eq!(
        d("append_file", r#"{"path": "log.txt", "content": "hi"}"#),
        "append log.txt (2 bytes)"
    );
    assert_eq!(d("copy_file", r#"{"src": "a", "dst": "b"}"#), "copy a → b");
    assert_eq!(d("rename_file", r#"{"src": "a", "dst": "b"}"#), "rename a → b");
    assert_eq!(d("glob_expand", r#"{"pattern": "*.rs"}"#), "glob *.rs");
    assert_eq!(
        d("glob_expand", r#"{"pattern": "*.rs", "path": "src"}"#),
        "glob *.rs in src"
    );
    assert_eq!(
        d("grep_files", r#"{"pattern": "TODO", "path": "src"}"#),
        "grep \"TODO\" in src"
    );
    assert_eq!(d("grep_files", r#"{"pattern": "TODO"}"#), "grep \"TODO\" in .");
    assert_eq!(d("stat_file", r#"{"path": "a.rs"}"#), "stat a.rs");
    assert_eq!(d("diff_files", r#"{"a": "x", "b": "y"}"#), "diff x y");
    assert_eq!(d("diff_files", r#"{"a": "x"}"#), "diff x (inline)");
    assert_eq!(d("job_output", r#"{"job": 3}"#), "job output: 3");
    assert_eq!(
        d("get_skill", r#"{"server": "atum", "name": "review-pr"}"#),
        "skill atum/review-pr"
    );
    assert_eq!(
        d("tell", r#"{"id": "w_abc", "message": "narrow scope"}"#),
        "tell w_abc: narrow scope"
    );
    assert_eq!(d("mystery_tool", "{}"), "mystery_tool");
}

#[test]
fn interactive_tools_do_not_animate() {
    assert!(!animates("run_interactive"));
    assert!(animates("run_program"));
    assert!(animates("read_file"));
}

#[test]
fn tool_frames_cycle_and_are_nonempty() {
    assert!(!TOOL_FRAMES.is_empty());
    assert!(TOOL_FRAMES.iter().all(|f| !f.is_empty()));
    assert_eq!(
        TOOL_FRAMES[0 % TOOL_FRAMES.len()],
        TOOL_FRAMES[TOOL_FRAMES.len() % TOOL_FRAMES.len()]
    );
}

#[test]
fn truncate_to_cols_keeps_short_lines_intact() {
    assert_eq!(truncate_to_cols("read foo.rs", 40), "read foo.rs");
    assert_eq!(truncate_to_cols("", 10), "");
    let s = "abcdef";
    assert_eq!(truncate_to_cols(s, s.width()), s);
}

#[test]
fn truncate_to_cols_clamps_long_lines_to_width() {
    let long = "run_program ./scripts/init-rpc-node.sh ".repeat(20);
    for max in [10usize, 20, 40, 80] {
        let out = truncate_to_cols(&long, max);
        assert!(out.width() <= max, "width {} exceeds max {max}: {out:?}", out.width());
        assert!(
            out.ends_with('…'),
            "truncated line should end with an ellipsis: {out:?}"
        );
    }
    assert_eq!(truncate_to_cols("anything", 0), "");
}

#[test]
fn truncate_to_cols_counts_wide_glyphs_as_two() {
    let desc = "🔧 ".to_string() + &"x".repeat(100);
    let out = truncate_to_cols(&desc, 10);
    assert!(out.width() <= 10, "wide-glyph desc overflowed: width {}", out.width());
    assert!(out.starts_with('🔧'), "leading glyph preserved: {out:?}");
}

#[test]
fn flatten_ws_collapses_embedded_newlines_to_one_line() {
    let desc = "🔧 gh pr create --title fix --body ## Issue\n\nbody\n- a\n- b";
    let out = flatten_ws(desc);
    assert!(!out.contains('\n'), "newlines must be gone: {out:?}");
    assert!(!out.contains('\r'), "carriage returns must be gone: {out:?}");
    assert!(!out.contains('\t'), "tabs must be gone: {out:?}");
    assert_eq!(out, "🔧 gh pr create --title fix --body ## Issue body - a - b");
}

#[test]
fn flatten_ws_squeezes_runs_and_trims() {
    assert_eq!(flatten_ws("  a   b\t c \n"), "a b c");
    assert_eq!(flatten_ws("single"), "single");
    assert_eq!(flatten_ws("\n\n"), "");
}

#[test]
fn activity_stream_summarizes_output() {
    let lines = activity_stream_lines(8);
    assert_eq!(lines.len(), 1);
    assert_eq!(lines[0], "     … 8 lines of output — Ctrl-O to expand");
}

#[test]
fn activity_stream_handles_single_and_empty_output() {
    let lines = activity_stream_lines(1);
    assert_eq!(lines.len(), 1);
    assert_eq!(lines[0], "     … 1 line of output — Ctrl-O to expand");
    let lines = activity_stream_lines(0);
    assert!(lines.is_empty());
}

#[test]
fn ansi_stripped_width_ignores_csi_escapes() {
    assert_eq!(ansi_stripped_width("\x1b[2mhello\x1b[0m"), 5);
    assert_eq!(ansi_stripped_width("abcd"), 4);
    assert_eq!(ansi_stripped_width("\x1b[2m你好\x1b[0m"), 4);
    assert_eq!(ansi_stripped_width("\x1b[0m"), 0);
}

#[test]
fn physical_rows_accounts_for_softwrap_and_escapes() {
    assert_eq!(physical_rows("hello", 80), 1);
    assert_eq!(physical_rows("abcd", 4), 1);
    assert_eq!(physical_rows("abcde", 4), 2);
    assert_eq!(physical_rows("\x1b[2mabcde\x1b[0m", 4), 2);
    assert_eq!(physical_rows("", 80), 1);
    assert_eq!(physical_rows("anything at all", 0), 1);
}

#[test]
fn flattening_twice_changes_nothing() {
    for s in ["  a   b\t c \n", "", "x", "\u{2003}wide\u{3000}space"] {
        assert_eq!(flatten_ws(&flatten_ws(s)), flatten_ws(s));
    }
}

#[test]
fn quotes_in_patterns_are_escaped() {
    assert_eq!(
        describe_call(&call("edit_file", r#"{"path": "p", "pattern": "a\"b\n"}"#)),
        "edit p (\"a\\\"b\\n\")"
    );
}

fn run(content: &str, is_error: bool) -> ToolRun {
    ToolRun { desc: "🛠️  x".into(), result: ToolResult::text("t", content, is_error) }
}

#[test]
fn the_raw_view_expands_and_collapses() {
    let tools = [run("one\ntwo", false)];
    let full = reveal_last_turn(&tools);
    assert_eq!(full.len(), 3);
    assert_eq!(full[1], "\x1b[2m     one\x1b[0m");
    assert_eq!(full[2], "\x1b[2m     two\x1b[0m");
    let short = collapse_last_turn(&tools);
    assert_eq!(short.len(), 2);
    assert_eq!(full[0], short[0]);
    assert_eq!(short[1], "\x1b[2m     … 2 lines of output — Ctrl-O to expand\x1b[0m");
    assert_eq!(raw_result_lines(&tools[0].result), full[1..].to_vec());

    let on = render_raw_toggle(&tools, true, 0, 80, true);
    assert_eq!(on.erase, "");
    assert_eq!(on.lines[0], "\x1b[2mraw tool output on\x1b[0m");
    assert_eq!(&on.lines[1..], &full[..]);
    assert_eq!(on.rows, 4);
    let off = render_raw_toggle(&tools, false, on.rows, 80, true);
    assert_eq!(off.erase, "\x1b[5F\x1b[0J");
    assert_eq!(off.lines[0], "\x1b[2mraw tool output off\x1b[0m");
    assert_eq!(off.rows, 3);
    let piped = render_raw_toggle(&tools, true, 9, 80, false);
    assert_eq!((piped.erase.as_str(), piped.rows), ("", 0));
}

#[test]
fn totals_are_shown_once_there_are_any() {
    let mut s = Stats {
        tokens_in: 0,
        tokens_out: 0,
        cache_read_total: 0,
        cache_creation_total: 0,
        tool_calls_total: 0,
        turns_total: 0,
        context_used: 0,
    };
    assert_eq!(statusline_stats(&s, 0), "");
    s.record_turn();
    s.record_call();
    s.record_reply(None, 77);
    assert_eq!(s.context_used, 77);
    assert_eq!(statusline_stats(&s, 0), "tokens: 0 in / 0 out, tool calls: 1, turns: 1");
    let u = Usage {
        input_tokens: 100,
        output_tokens: u64::MAX,
        cache_read_tokens: 50,
        cache_creation_tokens: 0,
        total: 9,
    };
    s.record_reply(Some(u), 0);
    s.tokens_out = 7;
    assert_eq!(s.context_used, 9);
    assert_eq!(
        statusline_stats(&s, 50),
        "tokens: 100 in / 7 out, tool calls: 1, turns: 1, cache: 50% hit"
    );
}

#[test]
fn spinners_pause_for_prompts() {
    assert_eq!(Spin::Running.pause(), (Spin::Paused, SPIN_CLEAR));
    assert_eq!(Spin::Paused.pause(), (Spin::Paused, ""));
    assert_eq!(Spin::Paused.resume(), (Spin::Running, SPIN_HIDE));
    assert_eq!(Spin::Stopped.resume(), (Spin::Stopped, ""));
    assert_eq!(Spin::Running.stop(), (Spin::Stopped, SPIN_CLEAR));
    assert_eq!(Spin::Stopped.stop(), (Spin::Stopped, ""));
    assert_eq!(Spin::Stopped.frame(0, "d"), None);
    assert_eq!(Spin::Paused.frame(0, "d").as_deref(), Some(""));
    assert_eq!(
        Spin::Running.frame(11, "d").unwrap(),
        format!("\r\x1b[2K  \x1b[36m{}\x1b[0m \x1b[2md\x1b[0m", TOOL_FRAMES[1])
    );
    assert_eq!(desc_budget(80), 75);
    assert_eq!(desc_budget(3), 0);
}

#[test]
fn the_stream_is_for_terminals_only() {
    let r = ToolResult::text("t", "a\nb", false);
    assert_eq!(
        stream_lines(&r, 80, true, false),
        ["\x1b[2m     … 2 lines of output — Ctrl-O to expand\x1b[0m"]
    );
    assert_eq!(stream_lines(&r, 10, true, false), ["\x1b[2m     … 2 …\x1b[0m"]);
    assert!(stream_lines(&r, 80, false, false).is_empty());
    assert!(stream_lines(&r, 80, true, true).is_empty());
}

#[test]
fn widths_come_from_the_terminal_then_the_variable() {
    assert_eq!(stderr_cols(Some(120), Some("40")), 120);
    assert_eq!(stderr_cols(Some(0), Some("40")), 40);
    assert_eq!(stderr_cols(None, Some("wide")), 80);
    assert_eq!(stderr_cols(None, None), 80);
    assert_eq!(aish::md::term_width(None, None), usize::MAX);
    assert_eq!(aish::md::term_width(Some(7), None), 7);
}

#[test]
fn a_clipped_text_never_exceeds_its_columns() {
    // A gear with a variation selector is two columns wide, its characters one and none.
    let gears = "⚙\u{FE0F}".repeat(6);
    assert_eq!(gears.width(), 12);
    for max in 0..14 {
        let out = truncate_to_cols(&gears, max);
        assert!(out.width() <= max, "{max}: {out}");
        if gears.width() <= max {
            assert_eq!(out, gears);
        } else if max > 0 {
            assert!(out.ends_with('…'));
            assert!(gears.starts_with(out.trim_end_matches('…')));
        }
    }
    assert_eq!(truncate_to_cols("abcdef", 1), "…");
    assert_eq!(truncate_to_cols("abcdef", 4), "abc…");
    assert_eq!("…".width(), 1);
    assert_eq!("".width(), 0);
}

#[test]
fn clipping_counts_characters_one_by_one() {
    // Joined into one glyph the family is two columns wide, its people two each.
    let family = "👨\u{200D}👩\u{200D}👧".to_string() + &"x".repeat(20);
    assert_eq!(family.width(), 22);
    assert_eq!(truncate_to_cols(&family, 6), "👨\u{200D}👩\u{200D}…");
    assert_eq!(truncate_to_cols(&family, 10), "👨\u{200D}👩\u{200D}👧xxx…");
    // In six columns five gears fit one by one; as one text only two and a bare third.
    assert_eq!(truncate_to_cols(&"⚙\u{FE0F}".repeat(6), 6), "⚙\u{FE0F}⚙\u{FE0F}⚙…");
}

#[test]
fn both_views_of_a_turn_show_the_same_headers() {
    let run = |desc: &str, content: &str| ToolRun {
        desc: desc.to_string(),
        result: ToolResult::text("c", content, false),
    };
    let tools = [run("one", "a\nb\nc"), run("two", ""), run("three", "x")];
    let short = collapse_last_turn(&tools);
    let full = reveal_last_turn(&tools);
    assert_eq!(short.len(), 6);
    assert_eq!(full.len(), 3 + 3 + 1 + 1);
    assert_eq!((&short[0], &short[2], &short[4]), (&full[0], &full[4], &full[6]));
    assert!(short[1].contains("… 3 lines of output"));
    assert!(short[3].contains("… 1 line of output"));
    assert!(short[5].contains("… 1 line of output"));
}
