use aish::midturn_input::{Action, FooterRender, Key, KeyParser, LineBuf};

fn keys(bytes: &[u8]) -> Vec<Key> {
    KeyParser::new().decode(bytes)
}

#[test]
fn plain_ascii_text() {
    assert_eq!(
        keys(b"hi"),
        vec![Key::Char('h'), Key::Char('i')]
    );
}

#[test]
fn enter_cr_or_lf() {
    assert_eq!(keys(b"\r"), vec![Key::Enter]);
    assert_eq!(keys(b"\n"), vec![Key::Enter]);
}

#[test]
fn backspace_both_codes() {
    assert_eq!(keys(b"\x7f"), vec![Key::Backspace]);
    assert_eq!(keys(b"\x08"), vec![Key::Backspace]);
}

#[test]
fn shift_tab_is_csi_z() {
    assert_eq!(keys(b"\x1b[Z"), vec![Key::ShiftTab]);
}

#[test]
fn arrows_home_end() {
    assert_eq!(keys(b"\x1b[A"), vec![Key::Up]);
    assert_eq!(keys(b"\x1b[B"), vec![Key::Down]);
    assert_eq!(keys(b"\x1b[C"), vec![Key::Right]);
    assert_eq!(keys(b"\x1b[D"), vec![Key::Left]);
    assert_eq!(keys(b"\x1b[H"), vec![Key::Home]);
    assert_eq!(keys(b"\x1b[F"), vec![Key::End]);
}

#[test]
fn tilde_sequences() {
    assert_eq!(keys(b"\x1b[3~"), vec![Key::Delete]);
    assert_eq!(keys(b"\x1b[1~"), vec![Key::Home]);
    assert_eq!(keys(b"\x1b[4~"), vec![Key::End]);
}

#[test]
fn literal_tab_distinct_from_shift_tab() {
    assert_eq!(keys(b"\t"), vec![Key::Char('\t')]);
}

#[test]
fn ctrl_keys() {
    assert_eq!(keys(b"\x01"), vec![Key::CtrlA]);
    assert_eq!(keys(b"\x05"), vec![Key::CtrlE]);
    assert_eq!(keys(b"\x15"), vec![Key::CtrlU]);
    assert_eq!(keys(b"\x17"), vec![Key::CtrlW]);
}

#[test]
fn csi_fragmented_across_reads() {
    let mut p = KeyParser::new();
    assert_eq!(p.decode(b"\x1b"), vec![]);
    assert_eq!(p.decode(b"["), vec![]);
    assert_eq!(p.decode(b"Z"), vec![Key::ShiftTab]);
}

#[test]
fn utf8_multibyte_in_one_chunk() {
    assert_eq!(keys("é→".as_bytes()), vec![Key::Char('é'), Key::Char('→')]);
}

#[test]
fn utf8_fragmented_across_reads() {
    let mut p = KeyParser::new();
    let bytes = "é".as_bytes(); // [0xC3, 0xA9]
    assert_eq!(p.decode(&bytes[..1]), vec![]);
    assert_eq!(p.decode(&bytes[1..]), vec![Key::Char('é')]);
}

#[test]
fn midturn_input_double_esc_rearms() {
    assert_eq!(keys(b"\x1b\x1b[Z"), vec![Key::ShiftTab]);
}

#[test]
fn mixed_text_edit_and_shift_tab_stream() {
    let out = keys(b"ab\x1b[Zc\r");
    assert_eq!(
        out,
        vec![
            Key::Char('a'),
            Key::Char('b'),
            Key::ShiftTab,
            Key::Char('c'),
            Key::Enter,
        ]
    );
}

fn typed(s: &str) -> LineBuf {
    let mut b = LineBuf::new();
    for k in KeyParser::new().decode(s.as_bytes()) {
        b.apply(k);
    }
    b
}

#[test]
fn insert_and_render() {
    let b = typed("hello");
    assert_eq!(b.as_string(), "hello");
    assert_eq!(b.cursor(), 5);
}

#[test]
fn backspace_edits_at_cursor() {
    let mut b = typed("helo");
    b.apply(Key::Left);
    b.apply(Key::Char('l'));
    assert_eq!(b.as_string(), "hello");
}

#[test]
fn home_end_and_insert() {
    let mut b = typed("world");
    b.apply(Key::Home);
    b.apply(Key::Char('¡'));
    assert_eq!(b.as_string(), "¡world");
    b.apply(Key::End);
    b.apply(Key::Char('!'));
    assert_eq!(b.as_string(), "¡world!");
}

#[test]
fn ctrl_u_kills_to_start() {
    let mut b = typed("keep this");
    for _ in 0..4 {
        b.apply(Key::Left);
    }
    b.apply(Key::CtrlU);
    assert_eq!(b.as_string(), "this");
}

#[test]
fn ctrl_w_kills_word() {
    let mut b = typed("foo bar");
    b.apply(Key::CtrlW);
    assert_eq!(b.as_string(), "foo ");
}

#[test]
fn delete_removes_under_cursor() {
    let mut b = typed("abc");
    b.apply(Key::Home);
    b.apply(Key::Delete);
    assert_eq!(b.as_string(), "bc");
}

#[test]
fn enter_submits_and_clears() {
    let mut b = typed("run it");
    let action = b.apply(Key::Enter);
    assert_eq!(action, Action::Submit("run it".to_string()));
    assert!(b.is_empty());
}

#[test]
fn enter_on_empty_is_noop() {
    let mut b = LineBuf::new();
    assert_eq!(b.apply(Key::Enter), Action::NoAction);
    b.apply(Key::Char(' '));
    b.apply(Key::Char('\t'));
    assert_eq!(b.apply(Key::Enter), Action::NoAction);
}

#[test]
fn shift_tab_yields_cycle_action() {
    let mut b = typed("half typed");
    assert_eq!(b.apply(Key::ShiftTab), Action::CycleWorker);
    assert_eq!(b.as_string(), "half typed");
}

#[test]
fn cursor_bounds_never_panic() {
    let mut b = LineBuf::new();
    b.apply(Key::Left); // underflow guard
    b.apply(Key::Right); // overflow guard
    b.apply(Key::Backspace); // empty guard
    b.apply(Key::Delete); // empty guard
    assert!(b.is_empty());
    assert_eq!(b.cursor(), 0);
}

#[test]
fn footer_draw_is_blank_gap_then_prompt() {
    let f = FooterRender { prompt: "» ", text: "hi", cols: 80 };
    assert_eq!(f.draw(), "\n» hi");
}

#[test]
fn footer_single_row_erase_is_inverse() {
    let f = FooterRender { prompt: "» ", text: "hi", cols: 80 };
    assert_eq!(f.prompt_rows(), 1);
    assert_eq!(f.erase(), "\r\x1b[2K\x1b[1A\x1b[2K");
}

#[test]
fn footer_empty_text_still_one_row() {
    let f = FooterRender { prompt: "» ", text: "", cols: 80 };
    assert_eq!(f.prompt_rows(), 1);
    assert_eq!(f.draw(), "\n» ");
}

#[test]
fn footer_unknown_width_assumes_single_row() {
    let f = FooterRender { prompt: "» ", text: "a very long line that would wrap", cols: 0 };
    assert_eq!(f.prompt_rows(), 1);
}

#[test]
fn footer_wraps_to_multiple_rows() {
    let f = FooterRender { prompt: "» ", text: "0123456789", cols: 6 };
    assert_eq!(f.prompt_rows(), 3);
    assert_eq!(f.erase(), "\r\x1b[2K\x1b[1A\x1b[2K\x1b[1A\x1b[2K\x1b[1A\x1b[2K");
}

#[test]
fn footer_wide_chars_count_as_two_columns() {
    let f = FooterRender { prompt: "» ", text: "中文", cols: 6 };
    assert_eq!(f.prompt_rows(), 2);
}

#[test]
fn any_split_of_the_bytes_gives_the_same_keys() {
    let bytes = "a\u{e9}\x1b[3~→\x1b[1;5D\r\x1bOP中\x17".as_bytes();
    let whole = keys(bytes);
    for cut in 0..=bytes.len() {
        let mut p = KeyParser::new();
        let mut got = p.decode(&bytes[..cut]);
        got.extend(p.decode(&bytes[cut..]));
        assert_eq!(got, whole, "cut at {cut}");
    }
}

#[test]
fn a_submitted_line_is_typed_back() {
    let mut b = typed("über →");
    assert_eq!(b.len(), 6);
    assert_eq!(b.take(), Some("über →".to_string()));
    assert!(b.is_empty());
    assert_eq!(b.take(), None);
    let mut b = typed("x");
    b.clear();
    assert_eq!(b.as_string(), "");
}

#[test]
fn the_parser_sees_every_shift_tab_of_the_watcher() {
    let streams: [&[u8]; 7] = [
        b"\x1b[Z",
        b"ab\x1b[Z\x1b[Zc",
        b"\xc3\x1b[Z",
        b"\x1b[1\x1b[Z",
        b"\x1b\x1b[Z",
        b"\x1bO\x1b[Z",
        b"\x1b[[Z[Z",
    ];
    for s in streams {
        let (_, hits) = aish::keywatch::scan_csi_z(0, s);
        let seen = keys(s).iter().filter(|k| **k == Key::ShiftTab).count();
        assert!(hits <= seen, "{s:?}: {hits} > {seen}");
    }
    assert_eq!(keys(b"\xc3\x1b[Z"), vec![Key::ShiftTab]);
}
