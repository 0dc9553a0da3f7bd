use aish::md::{
    fit_widths, render, render_pane, render_within, strip_ansi, visible_width, wrap_cell,
    DEFAULT_PANE_COLS, PANE_GUTTER_COLS,
};

#[test]
fn fit_widths_shrinks_widest_first() {
    assert_eq!(fit_widths(&[5, 10, 8], 100), vec![5, 10, 8]);
    let w = fit_widths(&[6, 40, 8], 30);
    assert!(w.iter().sum::<usize>() <= 30);
    assert_eq!(w[0], 6); // narrow key column preserved (above/at floor untouched)
    assert!(w[1] < 40); // wide free-text column shrank
}

#[test]
fn wrap_cell_word_wraps_to_width() {
    let lines = wrap_cell("the quick brown fox jumps", 10);
    assert!(lines.len() > 1);
    assert!(lines.iter().all(|l| visible_width(l) <= 10));
    assert_eq!(
        lines.join(" ").split_whitespace().collect::<Vec<_>>(),
        "the quick brown fox jumps"
            .split_whitespace()
            .collect::<Vec<_>>()
    );
    assert_eq!(wrap_cell("short", 10), vec!["short"]);
    let hb = wrap_cell("supercalifragilistic", 6);
    assert!(hb.iter().all(|l| visible_width(l) <= 6));
    assert_eq!(hb.concat(), "supercalifragilistic");
}

#[test]
fn table_word_wraps_when_narrow() {
    let md = "| Key | Note |\n|---|---|\n| a | one two three four five six seven |";
    let out = render(md, "", 32);
    let lines: Vec<&str> = out.lines().collect();
    assert!(lines.len() >= 6, "expected wrapped+framed rows, got {lines:#?}");
}

#[test]
fn render_within_bounds_table_below_terminal_width() {
    let md = "| Test run | Trigger | What it proves |\n|---|---|---|\n| Reuse path | workflow_dispatch default linux on a commit with a matching release | The setup job detects the existing CI build and skips recompilation entirely |";
    let out = render_within(md, "", 60);
    for line in out.lines() {
        assert!(
            visible_width(line) <= 60,
            "line exceeds 60 cols: {} → {line:?}",
            visible_width(line)
        );
    }
    assert!(render(md, "", 500).lines().any(|l| visible_width(l) > 60));
}

#[test]
fn render_pane_reserves_gutter_and_falls_back_when_width_unknown() {
    let md = "| A | B |\n|---|---|\n| one two three four five | six seven eight nine ten eleven twelve |";
    let out = render_pane(md, "", usize::MAX);
    let budget = DEFAULT_PANE_COLS - PANE_GUTTER_COLS;
    for line in out.lines() {
        assert!(
            visible_width(line) <= budget,
            "pane line exceeds {budget}: {line:?}"
        );
    }
}

#[test]
fn bold_italic_code() {
    assert_eq!(
        render("it's **09:18:48 AM** in *New York*", "", usize::MAX),
        "it's \x1b[1m09:18:48 AM\x1b[22m in \x1b[3mNew York\x1b[23m"
    );
    assert_eq!(
        render("run `ls -la` now", "", usize::MAX),
        "run \x1b[36mls -la\x1b[39m now"
    );
}

#[test]
fn strikethrough_and_links() {
    assert_eq!(
        render("~~gone~~ now", "", usize::MAX),
        "\x1b[9mgone\x1b[29m now"
    );
    assert_eq!(
        render("see [docs](https://x.io)", "", usize::MAX),
        "see \x1b[36mdocs\x1b[39m \x1b[2m(https://x.io)\x1b[22m"
    );
    assert_eq!(
        render("[https://x.io](https://x.io)", "", usize::MAX),
        "\x1b[36mhttps://x.io\x1b[39m"
    );
    assert_eq!(render("[oops] not a link", "", usize::MAX), "[oops] not a link");
}

#[test]
fn literals_stay_literal() {
    assert_eq!(render("2 * 3 = 6", "", usize::MAX), "2 * 3 = 6"); // spaced star ≠ italic
    assert_eq!(render("a ** b", "", usize::MAX), "a ** b"); // unmatched/empty bold
    assert_eq!(render("snake_case_name", "", usize::MAX), "snake_case_name");
}

#[test]
fn blocks() {
    assert_eq!(render("# Title", "", usize::MAX), "\x1b[1mTitle\x1b[22m");
    assert_eq!(render("- item", "", usize::MAX), "• item");
    assert_eq!(render("* star", "", usize::MAX), "• star");
    assert_eq!(render("+ plus", "", usize::MAX), "• plus");
    assert_eq!(render("1. first", "", usize::MAX), "1. first");
    assert_eq!(render("3) third", "", usize::MAX), "3) third");
    assert_eq!(
        render("```\n**raw**\n```", "", usize::MAX),
        "\x1b[2m```\x1b[22m\n**raw**\n\x1b[2m```\x1b[22m"
    );
}

#[test]
fn horizontal_rule() {
    for src in ["---", "***", "___", "- - -"] {
        let out = render(src, "", 20);
        assert!(out.starts_with("\x1b[2m"), "{src} → {out:?}");
        assert!(out.contains('─'), "{src} → {out:?}");
        assert!(!out.contains('-'), "rule should not echo dashes: {out:?}");
    }
}

#[test]
fn blockquote() {
    assert_eq!(
        render("> heads up", "", usize::MAX),
        "\x1b[2m▎\x1b[22m heads up"
    );
    assert_eq!(
        render("> > **bang**", "", usize::MAX),
        "\x1b[2m▎\x1b[22m \x1b[2m▎\x1b[22m \x1b[1mbang\x1b[22m"
    );
}

#[test]
fn dim_base_reasserted_after_bold() {
    assert_eq!(
        render("a **b** c", "\x1b[2m", usize::MAX),
        "a \x1b[1mb\x1b[22m\x1b[2m c"
    );
}

#[test]
fn table_is_boxed_and_aligned() {
    let out = render(
        "| Sprint | Pts |\n|---|---:|\n| SPR-036 | 16 |\n| **S2** | 5 |",
        "",
        200,
    );
    let lines: Vec<&str> = out.lines().collect();
    assert_eq!(lines.len(), 6, "{lines:#?}");
    let stripped: Vec<String> = lines.iter().map(|l| strip_ansi(l)).collect();
    assert!(stripped[0].starts_with('╭') && stripped[0].ends_with('╮'));
    assert!(stripped[2].starts_with('├') && stripped[2].ends_with('┤'));
    assert!(stripped[5].starts_with('╰') && stripped[5].ends_with('╯'));
    let w = |l: &str| visible_width(l);
    let width0 = w(&stripped[0]);
    for s in &stripped {
        assert_eq!(w(s), width0, "ragged frame: {s:?}");
    }
    assert!(lines[1].contains("\x1b[1mSprint\x1b[22m"));
    assert!(lines[3].contains("\x1b[2m│\x1b[22m"));
    assert!(stripped[3].contains("16 │"));
    assert!(stripped[4].contains(" 5 │"));
    assert!(stripped[4].contains("│ S2      │"));
}

#[test]
fn table_aligns_emoji_column() {
    let out = render(
        "| Emoji | Module |\n|---|---|\n| 🚀 | main.rs |\n| ⚙️ | engine.rs |",
        "",
        200,
    );
    let lines: Vec<&str> = out.lines().collect();
    assert_eq!(lines.len(), 6);
    let w = |l: &str| visible_width(&strip_ansi(l));
    let header = w(lines[0]);
    for l in &lines {
        assert_eq!(w(l), header, "row {l:?} display width != header");
    }
    let sep_cols = |l: &str| -> Vec<usize> {
        let stripped = strip_ansi(l);
        stripped
            .char_indices()
            .filter(|&(_, ch)| matches!(ch, '│' | '┼' | '┬' | '┴'))
            .map(|(i, _)| visible_width(&stripped[..i]))
            .collect::<Vec<_>>()
    };
    let expected = sep_cols(lines[1]);
    for l in &[lines[1], lines[3], lines[4]] {
        assert_eq!(sep_cols(l), expected, "separator misaligned in {l:?}");
    }
}

#[test]
fn pipe_line_without_separator_is_not_a_table() {
    assert_eq!(render("| just text |", "", usize::MAX), "| just text |");
}

#[test]
fn escaped_pipe_stays_in_cell() {
    let out = render("| Cmd |\n|---|\n| a \\| b |", "", 200);
    assert!(out.contains("a | b"));
}

#[test]
fn unknown_widths_leave_tables_alone() {
    let md = "| A | B |\n|---|---|\n| one two three four five | six seven eight nine ten |";
    assert_eq!(render(md, "", usize::MAX).lines().count(), 5);
    assert_eq!(
        render_pane(md, "", 60),
        render_within(md, "", 60 - PANE_GUTTER_COLS)
    );
    // A pane never gets narrower than this.
    assert_eq!(render_pane(md, "", 3), render_within(md, "", 24));
}

#[test]
fn escapes_have_no_width() {
    assert_eq!(strip_ansi("\x1b[1;31mred\x1b[0m"), "red");
    assert_eq!(visible_width("\x1b[1;31m中\x1b[0m"), 2);
}

#[test]
fn tables_and_rules_end_within_the_width() {
    let table = "| name | what it is about |\n|---|---|\n| aish | a shell that speaks in prose, at length |";
    for cols in [30usize, 44, 60] {
        for line in render_within(table, "", cols).lines() {
            assert!(visible_width(line) <= cols, "{cols}: {line}");
        }
    }
    let widest = render_within(table, "", 44).lines().map(visible_width).max();
    assert_eq!(widest, Some(44));
    assert_eq!(visible_width(&render_within("---", "", 20)), 20);
    assert_eq!(visible_width(&render_within("---", "", 500)), 64);
}

#[test]
fn an_escaped_last_pipe_belongs_to_its_cell() {
    let out = render("| h |\n|---|\n| a \\|\n", "", 80);
    let plain = strip_ansi(&out);
    assert!(plain.contains("a |"), "{plain}");
    assert!(!plain.contains('\\'), "{plain}");
}

#[test]
fn markup_after_plain_text_is_still_rendered() {
    assert_eq!(strip_ansi(&render("plain words, then **bold**", "", 80)).trim(), "plain words, then bold");
    assert_eq!(render("plain words", "", 80).trim(), "plain words");
}

#[test]
fn plain_text_stays_as_it_is_inside_a_line() {
    let chars = |s: &str| s.chars().collect::<Vec<char>>();
    for s in ["", "plain text", "snake_case and 2 < 3", "a ] b ) c"] {
        assert_eq!(aish::md::inline(&chars(s), &[]), chars(s));
        assert_eq!(aish::md::inline(&chars(s), &chars("\x1b[1m")), chars(s));
    }
    let marked = aish::md::inline(&chars("say `ls` now"), &[]);
    assert_eq!(marked.into_iter().collect::<String>(), "say \x1b[36mls\x1b[39m now");
}
