use aish::diag::{levenshtein, nearest_command, render_themed, AishDiagnostic};

const ALL_CODES: &[&str] = &[
    "aish::parse::unbalanced_quote",
    "aish::parse::unsupported_meta",
    "aish::parse::empty_stage",
    "aish::parse::bad_var_ref",
    "aish::config::bad_export",
    "aish::exec::not_found",
];

fn sample(code: &str) -> AishDiagnostic {
    match code {
        "aish::parse::unbalanced_quote" => AishDiagnostic::unbalanced_quote("echo 'x", 5),
        "aish::parse::unsupported_meta" => AishDiagnostic::unsupported_meta("a | b", 2, '|'),
        "aish::parse::empty_stage" => AishDiagnostic::empty_stage("a | | b", 4),
        "aish::parse::bad_var_ref" => AishDiagnostic::bad_var_ref("echo ${", 5),
        "aish::config::bad_export" => AishDiagnostic::bad_config_line("export A=1 B=2", 42, 11),
        "aish::exec::not_found" => {
            AishDiagnostic::exec_not_found("gti", Some("did you mean `git`?".into()))
        }
        other => panic!("unknown code {other}"),
    }
}

#[test]
fn all_six_codes_render_in_plain_theme() {
    for code in ALL_CODES {
        let rendered = render_themed(&sample(code), false);
        assert!(rendered.contains(code), "code {code} missing from render:\n{rendered}");
        assert_eq!(sample(code).code(), *code);
    }
}

#[test]
fn parse_diag_has_caret_code_and_help() {
    let rendered = render_themed(&AishDiagnostic::unbalanced_quote("echo 'x", 5), false);
    assert!(rendered.contains("aish::parse::unbalanced_quote"), "{rendered}");
    assert!(rendered.contains("help:"), "{rendered}");
    assert!(rendered.contains("echo 'x"), "snippet missing:\n{rendered}");
    assert!(
        rendered.contains("this quote is never closed"),
        "span label (caret) missing:\n{rendered}"
    );
}

#[test]
fn no_color_theme_emits_no_ansi_but_keeps_caret_code_help() {
    let rendered = render_themed(&AishDiagnostic::unbalanced_quote("echo 'x", 5), false);
    assert!(!rendered.contains('\x1b'), "plain theme must not emit ANSI:\n{rendered}");
    assert!(rendered.contains("aish::parse::unbalanced_quote"));
    assert!(rendered.contains("help:"));
}

#[test]
fn color_theme_emits_ansi() {
    let rendered = render_themed(&AishDiagnostic::unbalanced_quote("echo 'x", 5), true);
    assert!(rendered.contains('\x1b'), "color theme must emit ANSI:\n{rendered}");
}

#[test]
fn exec_not_found_carries_hint() {
    let rendered = render_themed(
        &AishDiagnostic::exec_not_found("gti", Some("did you mean `git`?".into())),
        false,
    );
    assert!(rendered.contains("aish::exec::not_found"), "{rendered}");
    assert!(rendered.contains("git"), "hint missing:\n{rendered}");
}

#[test]
fn nearest_command_finds_close_match() {
    let path = ["git", "grep", "cargo", "ls"];
    assert_eq!(nearest_command("gti", &path).as_deref(), Some("git"));
    assert_eq!(nearest_command("crago", &path).as_deref(), Some("cargo"));
    assert_eq!(nearest_command("xyzzy", &path), None);
    assert_eq!(nearest_command("git", &path), None);
}

#[test]
fn levenshtein_basics() {
    assert_eq!(levenshtein("", ""), 0);
    assert_eq!(levenshtein("a", ""), 1);
    assert_eq!(levenshtein("kitten", "sitting"), 3);
    assert_eq!(levenshtein("git", "gti"), 2);
}

#[test]
fn ties_go_to_the_first_in_the_alphabet() {
    assert_eq!(nearest_command("ct", &["cut", "cat"]).as_deref(), Some("cat"));
    // Closer beats earlier in the alphabet.
    assert_eq!(nearest_command("cats", &["bat", "cat"]).as_deref(), Some("cat"));
    assert_eq!(nearest_command("x", &[]), None);
}

#[test]
fn distance_is_symmetric_and_separates() {
    for (a, b) in [("flaw", "lawn"), ("", "abc"), ("é", "e"), ("same", "same")] {
        assert_eq!(levenshtein(a, b), levenshtein(b, a));
        assert_eq!(levenshtein(a, b) == 0, a == b);
    }
}

#[test]
fn a_config_caret_stays_on_the_line() {
    let d = AishDiagnostic::bad_config_line("abc", 7, 99);
    let (src, span, label) = d.location().unwrap();
    assert_eq!(src.name, "~/.aishrc:7");
    assert_eq!(src.text, "abc");
    assert_eq!((span.offset, span.len), (2, 1));
    assert_eq!(label, "aish can't parse this");
    let (_, span, _) = {
        let e = AishDiagnostic::bad_config_line("", 1, 5);
        let l = e.location().unwrap();
        (l.0.name.clone(), l.1, l.2)
    };
    assert_eq!((span.offset, span.len), (0, 1));
    // An empty line has nothing to show but is still reported.
    assert!(render_themed(&AishDiagnostic::bad_config_line("", 1, 5), false)
        .contains("aish::config::bad_export"));
}

#[test]
fn a_wide_metacharacter_is_underlined_whole() {
    let d = AishDiagnostic::unsupported_meta("a → b", 2, '→');
    let (_, span, _) = d.location().unwrap();
    assert_eq!((span.offset, span.len), (2, 3));
    assert_eq!(d.message(), "unsupported shell metacharacter `→`");
    assert!(render_themed(&d, false).contains("not supported here"));
}

#[test]
fn messages_and_help_are_fixed() {
    assert_eq!(AishDiagnostic::empty_stage("a |", 2).message(), "empty pipeline stage");
    assert_eq!(AishDiagnostic::bad_var_ref("$", 0).message(), "malformed variable reference");
    assert!(AishDiagnostic::bad_var_ref("$", 0).help().unwrap().starts_with("use $NAME or ${NAME} — "));
    let d = AishDiagnostic::exec_not_found("gti", None);
    assert_eq!(d.message(), "command not found: gti");
    assert_eq!(d.help(), None);
    assert!(d.location().is_none());
}

#[test]
fn a_caret_far_to_the_right_is_not_drawn() {
    // Tabs end in columns 4, 8, 12, …; ideographs take two columns and three bytes.
    let drawn = [
        ("\t".repeat(16_384), 16_383),
        ("x".repeat(65_536), 65_535),
        ("字".repeat(32_768), 3 * 32_767),
        ("\u{17D8}".repeat(21_846), 3 * 21_845),
        ("x".repeat(70_000) + "\n" + &"x".repeat(65_536), 70_001 + 65_535),
    ];
    for (line, offset) in drawn {
        let d = AishDiagnostic::unbalanced_quote(&line, offset);
        assert!(d.is_sound(), "{offset}");
        let out = render_themed(&d, false);
        assert!(out.contains("unbalanced quote"));
        assert!(out.contains("this quote is never closed"), "{offset}");
    }
    let not_drawn = [
        ("\t".repeat(20_000), 16_384),
        ("x".repeat(70_000), 65_536),
        ("字".repeat(32_769), 3 * 32_768),
    ];
    for (line, offset) in not_drawn {
        assert!(!AishDiagnostic::unbalanced_quote(&line, offset).is_sound(), "{offset}");
    }
    assert!(AishDiagnostic::bad_config_line("abc", 1, 99).is_sound());
    assert!(AishDiagnostic::bad_config_line(&"x".repeat(70_000), 1, 60_000).is_sound());
    assert!(!AishDiagnostic::bad_config_line(&"x".repeat(70_000), 1, 69_000).is_sound());
}
