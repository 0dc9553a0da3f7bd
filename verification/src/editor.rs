//! The line editor's decisions, apart from any concrete editor: what a read came to,
//! when an idle prompt is woken, and what the hint keys do.
use vstd::prelude::*;

verus! {

/// What one read of a line came to.
#[derive(Debug)]
pub enum ReadOutcome {
    /// The user submitted a line.
    Line(String),
    /// Ctrl-C: the line is discarded.
    Interrupted,
    /// Ctrl-O: the raw view is toggled.
    CtrlO,
    /// Shift-Tab: the next running worker is attached.
    ShiftTab,
    /// Ctrl-G: dictation.
    Voice,
    /// Ctrl-D on an empty line.
    Eof,
    /// The editor failed.
    Error(String),
}

/// Prints above the prompt without touching what the user types.
pub trait LinePrinter: Send {
    /// Prints `text`; a failure is ignored.
    fn print(&mut self, text: String);
}

/// The line editor that the shell drives.
pub trait LineEditor {
    /// Follows the session's directory.
    fn set_cwd(&mut self, cwd: &str);

    /// Reads one line.
    fn read_line(&mut self, prompt: &str) -> ReadOutcome;

    /// Reads one line that starts out as `initial`.
    fn read_line_with_initial(&mut self, prompt: &str, initial: &str) -> ReadOutcome;

    /// Remembers a submitted line.
    fn add_history(&mut self, line: &str);

    /// Writes the history to disk.
    fn save_history(&mut self);

    /// Hands out the printer, at most once.
    fn take_printer(&mut self) -> Option<Box<dyn LinePrinter>>;
}

/// Which key an interrupted read was about: dictation before Shift-Tab before
/// Ctrl-O, and Ctrl-C when none of them was pressed.
pub fn interrupt_outcome(
    shift_tab_was_set: bool,
    raw_toggle_was_set: bool,
    voice_was_set: bool,
) -> (r: ReadOutcome)
    ensures
        r == (if voice_was_set {
            ReadOutcome::Voice
        } else if shift_tab_was_set {
            ReadOutcome::ShiftTab
        } else if raw_toggle_was_set {
            ReadOutcome::CtrlO
        } else {
            ReadOutcome::Interrupted
        }),
{
    if voice_was_set {
        ReadOutcome::Voice
    } else if shift_tab_was_set {
        ReadOutcome::ShiftTab
    } else if raw_toggle_was_set {
        ReadOutcome::CtrlO
    } else {
        ReadOutcome::Interrupted
    }
}

/// What the keys that end a read have raised.
#[derive(Clone, Copy, Debug, PartialEq, Eq, Structural)]
pub struct KeyFlags {
    pub shift_tab: bool,
    pub raw_toggle: bool,
    pub voice: bool,
}

/// How a concrete editor's read ended.
#[derive(Debug)]
pub enum ReadEnd {
    Line(String),
    Interrupted,
    Eof,
    Failed(String),
}

impl KeyFlags {
    /// Nothing raised.
    pub fn new() -> (r: KeyFlags)
        ensures
            r == (KeyFlags { shift_tab: false, raw_toggle: false, voice: false }),
    {
        KeyFlags { shift_tab: false, raw_toggle: false, voice: false }
    }

    /// What a read came to. An interrupted read takes every flag down, so that none
    /// is seen twice.
    pub fn outcome(&mut self, end: ReadEnd) -> (r: ReadOutcome)
        ensures
            r == (match end {
                ReadEnd::Line(l) => ReadOutcome::Line(l),
                ReadEnd::Interrupted => if old(self).voice {
                    ReadOutcome::Voice
                } else if old(self).shift_tab {
                    ReadOutcome::ShiftTab
                } else if old(self).raw_toggle {
                    ReadOutcome::CtrlO
                } else {
                    ReadOutcome::Interrupted
                },
                ReadEnd::Eof => ReadOutcome::Eof,
                ReadEnd::Failed(e) => ReadOutcome::Error(e),
            }),
            *final(self) == (if end is Interrupted {
                KeyFlags { shift_tab: false, raw_toggle: false, voice: false }
            } else {
                *old(self)
            }),
    {
        match end {
            ReadEnd::Line(l) => ReadOutcome::Line(l),
            ReadEnd::Interrupted => {
                let r = interrupt_outcome(self.shift_tab, self.raw_toggle, self.voice);
                self.shift_tab = false;
                self.raw_toggle = false;
                self.voice = false;
                r
            },
            ReadEnd::Eof => ReadOutcome::Eof,
            ReadEnd::Failed(e) => ReadOutcome::Error(e),
        }
    }
}

/// What wakes an idle prompt.
#[derive(Clone, Copy, Debug, PartialEq, Eq, Structural)]
pub struct Wakeup {
    /// A resume has been armed.
    pub resume_wake: bool,
    /// Background workers are outstanding.
    pub background_pending: bool,
}

impl Wakeup {
    /// Nothing armed, nothing outstanding.
    pub fn new() -> (r: Wakeup)
        ensures
            r == (Wakeup { resume_wake: false, background_pending: false }),
    {
        Wakeup { resume_wake: false, background_pending: false }
    }

    /// Arms the wake-up of an idle prompt.
    pub fn arm_resume_wake(&mut self)
        ensures
            *final(self) == (Wakeup { resume_wake: true, ..*old(self) }),
    {
        self.resume_wake = true;
    }

    /// Reads the wake-up and takes it down.
    pub fn take_resume_wake(&mut self) -> (r: bool)
        ensures
            r == old(self).resume_wake,
            *final(self) == (Wakeup { resume_wake: false, ..*old(self) }),
    {
        let was = self.resume_wake;
        self.resume_wake = false;
        was
    }

    /// Records whether background workers are outstanding.
    pub fn set_background_pending(&mut self, pending: bool)
        ensures
            *final(self) == (Wakeup { background_pending: pending, ..*old(self) }),
    {
        self.background_pending = pending;
    }

    /// Whether background workers are outstanding.
    pub fn background_pending(&self) -> (r: bool)
        ensures
            r == self.background_pending,
    {
        self.background_pending
    }

    /// Whether an idle read has to poll: only on a terminal, and only while there is
    /// something to be woken by.
    pub fn polls(&self, terminal: bool) -> (r: bool)
        ensures
            r == (terminal && self.background_pending),
    {
        terminal && self.background_pending
    }

    /// What one wait for a key comes to. A key hands over to the editor; quiet time
    /// is when the wake-up is looked at, and a prompt that was written over is drawn
    /// again.
    pub fn idle_step(&mut self, wait: Polled, dirty: bool) -> (r: IdleStep)
        ensures
            r == (match wait {
                Polled::Key => IdleStep::Edit,
                Polled::Quiet => if old(self).resume_wake {
                    IdleStep::EmptyLine
                } else if dirty {
                    IdleStep::Repaint
                } else {
                    IdleStep::Wait
                },
                Polled::Failed => IdleStep::GiveUp,
            }),
            *final(self) == (Wakeup {
                resume_wake: old(self).resume_wake && !(wait is Quiet),
                ..*old(self)
            }),
    {
        match wait {
            Polled::Key => IdleStep::Edit,
            Polled::Quiet => if self.take_resume_wake() {
                IdleStep::EmptyLine
            } else if dirty {
                IdleStep::Repaint
            } else {
                IdleStep::Wait
            },
            Polled::Failed => IdleStep::GiveUp,
        }
    }
}

/// How a wait for a key ended.
#[derive(Clone, Copy, Debug, PartialEq, Eq, Structural)]
pub enum Polled {
    Key,
    Quiet,
    Failed,
}

/// What an idle prompt does next.
#[derive(Clone, Copy, Debug, PartialEq, Eq, Structural)]
pub enum IdleStep {
    /// The editor reads the line.
    Edit,
    /// The read returns an empty line.
    EmptyLine,
    /// The prompt is drawn again.
    Repaint,
    /// Another wait.
    Wait,
    /// A plain read takes over.
    GiveUp,
}

/// What a hint key does.
#[derive(Clone, Copy, Debug, PartialEq, Eq, Structural)]
pub enum HintKey {
    /// The suggestion is taken.
    Complete,
    /// The cursor moves forward.
    Forward,
}

/// A suggestion is taken when there is one and the cursor is at the end of the line.
pub fn accept_hint(has_completion: bool, pos: usize, line_len: usize) -> (r: HintKey)
    ensures
        r == (if has_completion && pos == line_len {
            HintKey::Complete
        } else {
            HintKey::Forward
        }),
{
    if has_completion && pos == line_len {
        HintKey::Complete
    } else {
        HintKey::Forward
    }
}

/// The byte to push into the terminal's input so that a blocked read returns;
/// nothing is pushed where standard input is no terminal.
pub fn nudge_terminal_return(terminal: bool) -> (r: Option<u8>)
    ensures
        r == (if terminal {
            Some(10u8)
        } else {
            None
        }),
{
    if terminal {
        Some(10)
    } else {
        None
    }
}

} // verus!
