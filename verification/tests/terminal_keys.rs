use aish::editor::{
    accept_hint, interrupt_outcome, nudge_terminal_return, HintKey, IdleStep, KeyFlags, Polled,
    ReadEnd, ReadOutcome, Wakeup,
};
use aish::keywatch::{scan_csi_z, Gate, Reader, Wait};

#[test]
fn interrupt_outcome_distinguishes_shift_tab_ctrl_o_and_ctrl_c() {
    assert!(
        matches!(interrupt_outcome(false, false, true), ReadOutcome::Voice),
        "a drained voice flag must surface as Voice"
    );
    assert!(
        matches!(interrupt_outcome(true, false, true), ReadOutcome::Voice),
        "Voice wins over a co-raised Shift-Tab"
    );
    assert!(
        matches!(interrupt_outcome(false, true, true), ReadOutcome::Voice),
        "Voice wins over a co-raised Ctrl-O"
    );
    assert!(
        matches!(interrupt_outcome(true, false, false), ReadOutcome::ShiftTab),
        "a drained Shift-Tab flag must surface as ShiftTab"
    );
    assert!(
        matches!(interrupt_outcome(true, true, false), ReadOutcome::ShiftTab),
        "Shift-Tab wins over a co-raised Ctrl-O"
    );
    assert!(
        matches!(interrupt_outcome(false, true, false), ReadOutcome::CtrlO),
        "a drained Ctrl-O toggle must surface as CtrlO"
    );
    assert!(
        matches!(interrupt_outcome(false, false, false), ReadOutcome::Interrupted),
        "a clear triple is a plain Ctrl-C clear-line"
    );
}

#[test]
fn voice_flag_drains_exactly_once() {
    let mut flags = KeyFlags::new();
    flags.voice = true;
    assert!(
        matches!(flags.outcome(ReadEnd::Interrupted), ReadOutcome::Voice),
        "first drain sees the raised voice flag"
    );
    assert!(
        matches!(flags.outcome(ReadEnd::Interrupted), ReadOutcome::Interrupted),
        "second drain is clear (voice already consumed)"
    );
}

#[test]
fn raw_toggle_drains_exactly_once() {
    let mut flags = KeyFlags::new();
    flags.raw_toggle = true;
    assert!(
        matches!(flags.outcome(ReadEnd::Interrupted), ReadOutcome::CtrlO),
        "first drain sees the raised Ctrl-O"
    );
    assert!(
        matches!(flags.outcome(ReadEnd::Interrupted), ReadOutcome::Interrupted),
        "second drain is a plain Ctrl-C (toggle already consumed)"
    );
}

#[test]
fn nudge_terminal_return_is_false_without_a_tty() {
    assert!(
        nudge_terminal_return(false).is_none(),
        "nudge must no-op when stdin isn't an interactive tty"
    );
    assert_eq!(nudge_terminal_return(true), Some(b'\n'));
}

#[test]
fn resume_wake_arms_and_drains_exactly_once() {
    let mut wake = Wakeup::new();
    let _ = wake.take_resume_wake();

    assert!(!wake.take_resume_wake(), "a cleared wake must read false");

    wake.arm_resume_wake();
    assert!(wake.take_resume_wake(), "the armed wake must surface on the first drain");
    assert!(
        !wake.take_resume_wake(),
        "the wake must not survive its single drain (no stale re-fire)"
    );

    wake.set_background_pending(true);
    assert!(
        wake.background_pending(),
        "set_background_pending(true) must gate the poll path on"
    );
    wake.set_background_pending(false);
    assert!(
        !wake.background_pending(),
        "set_background_pending(false) must revert to the plain blocking read"
    );
}

#[test]
fn lines_ends_and_errors_leave_the_flags_up() {
    let mut flags = KeyFlags { shift_tab: true, raw_toggle: false, voice: false };
    assert!(matches!(flags.outcome(ReadEnd::Line("x".into())), ReadOutcome::Line(l) if l == "x"));
    assert!(matches!(flags.outcome(ReadEnd::Eof), ReadOutcome::Eof));
    assert!(matches!(flags.outcome(ReadEnd::Failed("io".into())), ReadOutcome::Error(e) if e == "io"));
    assert!(flags.shift_tab);
    assert!(matches!(flags.outcome(ReadEnd::Interrupted), ReadOutcome::ShiftTab));
    assert_eq!(flags, KeyFlags::new());
}

#[test]
fn an_idle_prompt_wakes_on_quiet_time_only() {
    let mut wake = Wakeup::new();
    assert!(!wake.polls(true));
    wake.set_background_pending(true);
    assert!(wake.polls(true));
    assert!(!wake.polls(false));
    assert_eq!(wake.idle_step(Polled::Quiet, false), IdleStep::Wait);
    assert_eq!(wake.idle_step(Polled::Quiet, true), IdleStep::Repaint);
    wake.arm_resume_wake();
    assert_eq!(wake.idle_step(Polled::Key, true), IdleStep::Edit);
    assert!(wake.resume_wake);
    assert_eq!(wake.idle_step(Polled::Failed, true), IdleStep::GiveUp);
    assert_eq!(wake.idle_step(Polled::Quiet, true), IdleStep::EmptyLine);
    assert!(!wake.resume_wake);
    assert_eq!(accept_hint(true, 3, 3), HintKey::Complete);
    assert_eq!(accept_hint(true, 2, 3), HintKey::Forward);
    assert_eq!(accept_hint(false, 3, 3), HintKey::Forward);
}

#[test]
fn single_shift_tab() {
    let (state, hits) = scan_csi_z(0, b"\x1b[Z");
    assert_eq!(hits, 1);
    assert_eq!(state, 0);
}

#[test]
fn two_shift_tabs() {
    let (state, hits) = scan_csi_z(0, b"\x1b[Z\x1b[Z");
    assert_eq!(hits, 2);
    assert_eq!(state, 0);
}

#[test]
fn fragmented_across_reads() {
    let (s1, h1) = scan_csi_z(0, b"\x1b");
    assert_eq!(h1, 0);
    assert_eq!(s1, 1);
    let (s2, h2) = scan_csi_z(s1, b"[");
    assert_eq!(h2, 0);
    assert_eq!(s2, 2);
    let (s3, h3) = scan_csi_z(s2, b"Z");
    assert_eq!(h3, 1);
    assert_eq!(s3, 0);
}

#[test]
fn plain_tab_and_text_ignored() {
    let (_, hits) = scan_csi_z(0, b"\thello\tworld");
    assert_eq!(hits, 0);
}

#[test]
fn arrow_key_not_matched() {
    let (state, hits) = scan_csi_z(0, b"\x1b[A");
    assert_eq!(hits, 0);
    assert_eq!(state, 0);
}

#[test]
fn keywatch_double_esc_rearms() {
    let (state, hits) = scan_csi_z(0, b"\x1b\x1b[Z");
    assert_eq!(hits, 1);
    assert_eq!(state, 0);
}

#[test]
fn embedded_in_noise() {
    let (_, hits) = scan_csi_z(0, b"abc\x1b[Zdef");
    assert_eq!(hits, 1);
}

#[test]
fn reads_may_split_anywhere() {
    let bytes = b"x\x1b\x1b[Z\x1b[[Z\x1b[Z";
    for cut in 0..=bytes.len() {
        let mut reader = Reader::new();
        let hits = reader.take(&bytes[..cut]) + reader.take(&bytes[cut..]);
        assert_eq!(hits, 2, "cut at {cut}");
        assert_eq!(reader.state, 0);
    }
}

#[test]
fn the_reader_yields_the_terminal() {
    let mut r = Reader::new();
    assert_eq!(r.before_wait(true, true, true), Wait::Exit);
    assert_eq!(r.before_wait(false, true, true), Wait::Suspended);
    assert_eq!(r.before_wait(false, false, false), Wait::Background { give_back: true });
    assert_eq!(r.before_wait(false, false, false), Wait::Background { give_back: false });
    assert_eq!(r.before_wait(false, false, true), Wait::Poll { take: true });
    assert_eq!(r.before_wait(false, false, true), Wait::Poll { take: false });
    assert!(r.may_read(true, false, false, true));
    assert!(!r.may_read(true, false, true, true));
    assert!(!r.may_read(false, false, false, true));

    let mut g = Gate::new();
    let idle = g.pause_for_prompt();
    assert!(!idle.engaged);
    assert!(!g.install(false));
    assert!(g.install(true));
    assert!(!g.install(true));
    let pause = g.pause_for_prompt();
    assert!(pause.engaged && g.suspend);
    g.end_pause(pause);
    assert!(!g.suspend);
    g.request_stop();
    assert!(g.stop);
    g.uninstall();
    assert!(!g.installed);
}
