//! Keys pressed while a turn runs: finds Shift-Tab in the bytes of the terminal and
//! decides when the terminal may be read at all.
use vstd::prelude::*;

verus! {

/// A key that the watcher reports.
#[derive(Clone, Copy, Debug, PartialEq, Eq, Structural)]
pub enum TurnKey {
    /// Shift-Tab, which terminals send as `ESC [ Z`.
    ShiftTab,
}

/// The parser's state after one byte: 0 is ground, 1 is after `ESC`, 2 is after
/// `ESC [`.
pub open spec fn next_state(state: u8, b: u8) -> u8 {
    if b == 0x1b {
        1
    } else if state == 1 && b == 0x5b {
        2
    } else {
        0
    }
}

/// Whether a byte completes a Shift-Tab.
pub open spec fn completes(state: u8, b: u8) -> bool {
    state != 0 && state != 1 && b == 0x5a
}

/// The state after `bytes` and how many Shift-Tabs they complete.
pub open spec fn scanned(state: u8, bytes: Seq<u8>) -> (u8, nat)
    decreases bytes.len(),
{
    if bytes.len() == 0 {
        (state, 0)
    } else {
        let (s, n) = scanned(state, bytes.drop_last());
        (next_state(s, bytes.last()), n + (if completes(s, bytes.last()) {
            1nat
        } else {
            0
        }))
    }
}

/// Scans `bytes` from `state`: the new state and how many Shift-Tabs came to an end.
pub fn scan_csi_z(state: u8, bytes: &[u8]) -> (r: (u8, usize))
    ensures
        r.0 == scanned(state, bytes@).0,
        r.1 == scanned(state, bytes@).1,
        bytes@.len() > 0 ==> r.0 <= 2,
{
    let mut s: u8 = state;
    let mut hits: usize = 0;
    let mut i: usize = 0;
    assert(bytes@.take(0) =~= Seq::empty());
    while i < bytes.len()
        invariant
            i <= bytes@.len(),
            s == scanned(state, bytes@.take(i as int)).0,
            hits == scanned(state, bytes@.take(i as int)).1,
            hits <= i,
            i > 0 ==> s <= 2,
        decreases bytes@.len() - i,
    {
        let b: u8 = bytes[i];
        assert(bytes@.take(i + 1).drop_last() =~= bytes@.take(i as int));
        if s != 0 && s != 1 && b == 0x5a {
            hits += 1;
        }
        s = if b == 0x1b {
            1
        } else if s == 1 && b == 0x5b {
            2
        } else {
            0
        };
        i += 1;
    }
    assert(bytes@.take(i as int) =~= bytes@);
    (s, hits)
}

/// Law: it does not matter how the bytes are split over reads.
pub proof fn reads_do_not_matter(state: u8, a: Seq<u8>, b: Seq<u8>)
    ensures
        scanned(state, a + b).0 == scanned(scanned(state, a).0, b).0,
        scanned(state, a + b).1 == scanned(state, a).1 + scanned(scanned(state, a).0, b).1,
    decreases b.len(),
{
    if b.len() == 0 {
        assert(a + b =~= a);
    } else {
        reads_do_not_matter(state, a, b.drop_last());
        assert((a + b).drop_last() =~= a + b.drop_last());
    }
}

/// How often `ESC [ Z` stands in `bytes`.
pub open spec fn shift_tabs(bytes: Seq<u8>) -> nat
    decreases bytes.len(),
{
    if bytes.len() < 3 {
        0
    } else {
        let n = bytes.len() as int;
        shift_tabs(bytes.drop_last()) + (if bytes[n - 3] == 0x1b && bytes[n - 2] == 0x5b && bytes[n
            - 1] == 0x5a {
            1nat
        } else {
            0
        })
    }
}

/// Law: from the ground state, exactly the occurrences of `ESC [ Z` are counted,
/// whatever stands around them.
pub proof fn every_shift_tab_counts(bytes: Seq<u8>)
    ensures
        scanned(0, bytes).1 == shift_tabs(bytes),
        scanned(0, bytes).0 == 1 <==> bytes.len() >= 1 && bytes.last() == 0x1b,
        scanned(0, bytes).0 == 2 <==> bytes.len() >= 2 && bytes.last() == 0x5b && bytes[bytes.len()
            - 2] == 0x1b,
        scanned(0, bytes).0 <= 2,
    decreases bytes.len(),
{
    if bytes.len() > 0 {
        every_shift_tab_counts(bytes.drop_last());
    }
}

/// What the reader does before it waits for input.
#[derive(Clone, Copy, Debug, PartialEq, Eq, Structural)]
pub enum Wait {
    /// Ends.
    Exit,
    /// Stays away: a prompt owns the terminal.
    Suspended,
    /// Stays away: another process is in the foreground. The terminal's line mode
    /// is given back first when it was taken.
    Background { give_back: bool },
    /// Waits for input, after taking the terminal's line mode away again when it had
    /// been given back.
    Poll { take: bool },
}

/// The reader of one turn.
#[derive(Clone, Copy, Debug, PartialEq, Eq, Structural)]
pub struct Reader {
    /// Whether the terminal's line mode is taken away.
    pub have_cbreak: bool,
    /// The parser's state.
    pub state: u8,
}

impl Reader {
    /// The reader of a fresh turn: the line mode has just been taken away.
    pub fn new() -> (r: Reader)
        ensures
            r == (Reader { have_cbreak: true, state: 0 }),
    {
        Reader { have_cbreak: true, state: 0 }
    }

    /// Decides what to do before waiting. The terminal's mode changes only where the
    /// foreground does, and never while a prompt owns the terminal.
    pub fn before_wait(&mut self, stop: bool, suspended: bool, foreground: bool) -> (r: Wait)
        ensures
            r == (if stop {
                Wait::Exit
            } else if suspended {
                Wait::Suspended
            } else if !foreground {
                Wait::Background { give_back: old(self).have_cbreak }
            } else {
                Wait::Poll { take: !old(self).have_cbreak }
            }),
            final(self).state == old(self).state,
            final(self).have_cbreak == (if stop || suspended {
                old(self).have_cbreak
            } else {
                foreground
            }),
    {
        if stop {
            return Wait::Exit;
        }
        if suspended {
            return Wait::Suspended;
        }
        if !foreground {
            let give_back = self.have_cbreak;
            self.have_cbreak = false;
            return Wait::Background { give_back };
        }
        let take = !self.have_cbreak;
        self.have_cbreak = true;
        Wait::Poll { take }
    }

    /// Whether input that came up may be read, after what happened during the wait.
    pub fn may_read(&self, ready: bool, stop: bool, suspended: bool, foreground: bool) -> (r: bool)
        ensures
            r == (ready && !stop && !suspended && foreground),
    {
        ready && !stop && !suspended && foreground
    }

    /// Takes the bytes of one read; returns how many Shift-Tabs they complete.
    pub fn take(&mut self, bytes: &[u8]) -> (r: usize)
        ensures
            r == scanned(old(self).state, bytes@).1,
            final(self).state == scanned(old(self).state, bytes@).0,
            final(self).have_cbreak == old(self).have_cbreak,
    {
        let (state, hits) = scan_csi_z(self.state, bytes);
        self.state = state;
        hits
    }
}

/// What the reader and its owners agree on.
#[derive(Clone, Copy, Debug, PartialEq, Eq, Structural)]
pub struct Gate {
    /// A watcher runs.
    pub installed: bool,
    /// The reader stays away.
    pub suspend: bool,
    /// The reader ends.
    pub stop: bool,
}

/// A pause of the watcher for a prompt.
#[derive(Clone, Copy, Debug, PartialEq, Eq, Structural)]
pub struct PromptPause {
    /// Whether a watcher was paused.
    pub engaged: bool,
}

impl Gate {
    /// No watcher.
    pub fn new() -> (r: Gate)
        ensures
            r == (Gate { installed: false, suspend: false, stop: false }),
    {
        Gate { installed: false, suspend: false, stop: false }
    }

    /// Installs a watcher on a terminal whose modes can be read, unless one runs.
    pub fn install(&mut self, terminal: bool) -> (r: bool)
        ensures
            r == (terminal && !old(self).installed),
            r ==> *final(self) == (Gate { installed: true, suspend: false, stop: false }),
            !r ==> *final(self) == *old(self),
    {
        if !terminal || self.installed {
            return false;
        }
        self.suspend = false;
        self.stop = false;
        self.installed = true;
        true
    }

    /// Asks the reader to end.
    pub fn request_stop(&mut self)
        ensures
            *final(self) == (Gate { stop: true, ..*old(self) }),
    {
        self.stop = true;
    }

    /// Forgets the watcher once its reader has ended.
    pub fn uninstall(&mut self)
        ensures
            *final(self) == (Gate { installed: false, ..*old(self) }),
    {
        self.installed = false;
    }

    /// Pauses the watcher for a prompt; without one nothing is paused.
    pub fn pause_for_prompt(&mut self) -> (r: PromptPause)
        ensures
            r.engaged == old(self).installed,
            *final(self) == (Gate {
                suspend: old(self).suspend || old(self).installed,
                ..*old(self)
            }),
    {
        if !self.installed {
            return PromptPause { engaged: false };
        }
        self.suspend = true;
        PromptPause { engaged: true }
    }

    /// Ends a pause.
    pub fn end_pause(&mut self, pause: PromptPause)
        ensures
            *final(self) == (Gate { suspend: old(self).suspend && !pause.engaged, ..*old(self) }),
    {
        if pause.engaged {
            self.suspend = false;
        }
    }
}

} // verus!
