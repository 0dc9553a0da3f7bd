//! The shield against a closed pipe: a relay that goes on reading when nobody
//! listens any more, and the steps that put it in place or take it back.
use vstd::prelude::*;

verus! {

/// Seconds that a finished relay is waited for.
pub const DRAIN_GRACE_SECS: u64 = 2;

/// What a read from the shielded pipe gave.
#[derive(Clone, Copy, Debug, PartialEq, Eq, Structural)]
pub enum ReadEnd {
    /// This many bytes; none means the end.
    Bytes(usize),
    /// The call was interrupted.
    Interrupted,
    /// Another error.
    Failed,
}

/// What the relay does next.
#[derive(Clone, Copy, Debug, PartialEq, Eq, Structural)]
pub enum RelayStep {
    /// Hand this many bytes on, and read again.
    Forward(usize),
    /// Drop what was read, and read again.
    Discard,
    /// Read again.
    Again,
    /// Flush and leave.
    Stop,
}

/// A relay, and whether its reader downstream is still there.
#[derive(Clone, Copy, Debug, PartialEq, Eq, Structural)]
pub struct Relay {
    pub downstream_alive: bool,
}

/// What the relay does after a read.
pub open spec fn relayed(alive: bool, read: ReadEnd) -> RelayStep {
    match read {
        ReadEnd::Bytes(n) => if n == 0 {
            RelayStep::Stop
        } else if alive {
            RelayStep::Forward(n)
        } else {
            RelayStep::Discard
        },
        ReadEnd::Interrupted => RelayStep::Again,
        ReadEnd::Failed => RelayStep::Stop,
    }
}

impl Relay {
    /// A relay with a reader downstream.
    pub fn new() -> (r: Self)
        ensures
            r.downstream_alive,
    {
        Relay { downstream_alive: true }
    }

    /// What to do after a read.
    pub fn on_read(&self, read: ReadEnd) -> (r: RelayStep)
        ensures
            r == relayed(self.downstream_alive, read),
    {
        match read {
            ReadEnd::Bytes(n) => if n == 0 {
                RelayStep::Stop
            } else if self.downstream_alive {
                RelayStep::Forward(n)
            } else {
                RelayStep::Discard
            },
            ReadEnd::Interrupted => RelayStep::Again,
            ReadEnd::Failed => RelayStep::Stop,
        }
    }

    /// Takes note of whether a write downstream succeeded.
    pub fn on_write(&mut self, ok: bool)
        ensures
            final(self).downstream_alive == (old(self).downstream_alive && ok),
    {
        if !ok {
            self.downstream_alive = false;
        }
    }
}

/// Whether the relay still has a reader after these writes.
pub open spec fn alive_after(alive: bool, writes: Seq<bool>) -> bool
    decreases writes.len(),
{
    if writes.len() == 0 {
        alive
    } else {
        alive_after(alive, writes.drop_last()) && writes.last()
    }
}

/// Once one write has failed nothing is handed on, whatever is read later; the
/// relay still reads until the end.
pub proof fn a_dead_reader_stays_dead(writes: Seq<bool>, i: int, read: ReadEnd)
    requires
        0 <= i < writes.len(),
        !writes[i],
    ensures
        !alive_after(true, writes),
        !(relayed(alive_after(true, writes), read) is Forward),
        read matches ReadEnd::Bytes(n) ==> n > 0 ==> relayed(alive_after(true, writes), read)
            == RelayStep::Discard,
    decreases writes.len(),
{
    if i < writes.len() - 1 {
        a_dead_reader_stays_dead(writes.drop_last(), i, read);
    }
}

/// The steps that shield a descriptor, in order.
#[derive(Clone, Copy, Debug, PartialEq, Eq, Structural)]
pub enum Stage {
    /// See whether the descriptor is a pipe.
    Probe,
    /// Make a fresh pipe.
    Pipe,
    /// Keep the old destination under another number.
    Keep,
    /// Put the fresh pipe in the descriptor's place, and drop the spare write end.
    Swap,
    /// Start the relay.
    Start,
}

/// What is held while the shield is being put in place: the two ends of the fresh
/// pipe, the kept destination, and whether the descriptor leads into the pipe.
#[derive(Clone, Copy, Debug, PartialEq, Eq, Structural)]
pub struct Held {
    pub reader: bool,
    pub writer: bool,
    pub kept: bool,
    pub swapped: bool,
}

/// What follows a step.
#[derive(Clone, Copy, Debug, PartialEq, Eq, Structural)]
pub enum Outcome {
    /// Go on with this step.
    Next(Stage),
    /// The shield is up.
    Shielded,
    /// Give all of this back; the descriptor is then as it was.
    GiveUp(Held),
}

/// What is held before a step, having been gained by the steps before it.
pub open spec fn held_before(stage: Stage) -> Held {
    match stage {
        Stage::Probe => Held { reader: false, writer: false, kept: false, swapped: false },
        Stage::Pipe => Held { reader: false, writer: false, kept: false, swapped: false },
        Stage::Keep => Held { reader: true, writer: true, kept: false, swapped: false },
        Stage::Swap => Held { reader: true, writer: true, kept: true, swapped: false },
        Stage::Start => Held { reader: true, writer: false, kept: true, swapped: true },
    }
}

/// What follows a step that succeeded or failed: a failure gives back what is held,
/// no more and no less.
pub open spec fn follows(stage: Stage, ok: bool) -> Outcome {
    if !ok {
        Outcome::GiveUp(held_before(stage))
    } else {
        match stage {
            Stage::Probe => Outcome::Next(Stage::Pipe),
            Stage::Pipe => Outcome::Next(Stage::Keep),
            Stage::Keep => Outcome::Next(Stage::Swap),
            Stage::Swap => Outcome::Next(Stage::Start),
            Stage::Start => Outcome::Shielded,
        }
    }
}

/// Decides what follows a step.
pub fn after_step(stage: Stage, ok: bool) -> (r: Outcome)
    ensures
        r == follows(stage, ok),
{
    if ok {
        match stage {
            Stage::Probe => Outcome::Next(Stage::Pipe),
            Stage::Pipe => Outcome::Next(Stage::Keep),
            Stage::Keep => Outcome::Next(Stage::Swap),
            Stage::Swap => Outcome::Next(Stage::Start),
            Stage::Start => Outcome::Shielded,
        }
    } else {
        match stage {
            Stage::Probe | Stage::Pipe => Outcome::GiveUp(
                Held { reader: false, writer: false, kept: false, swapped: false },
            ),
            Stage::Keep => Outcome::GiveUp(
                Held { reader: true, writer: true, kept: false, swapped: false },
            ),
            Stage::Swap => Outcome::GiveUp(
                Held { reader: true, writer: true, kept: true, swapped: false },
            ),
            Stage::Start => Outcome::GiveUp(
                Held { reader: true, writer: false, kept: true, swapped: true },
            ),
        }
    }
}

/// Law: while someone reads downstream every byte is passed on; after that bytes are still
/// taken in, so that the writer never blocks; only the end or a failure stops the relay.
pub proof fn bytes_are_passed_on_while_someone_reads(n: usize, alive: bool)
    ensures
        n > 0 ==> relayed(true, ReadEnd::Bytes(n)) == RelayStep::Forward(n),
        n > 0 ==> relayed(false, ReadEnd::Bytes(n)) == RelayStep::Discard,
        relayed(alive, ReadEnd::Bytes(0)) == RelayStep::Stop,
        relayed(alive, ReadEnd::Failed) == RelayStep::Stop,
        relayed(alive, ReadEnd::Interrupted) == RelayStep::Again,
{
}

/// Law: the steps come one after another up to the shield, and the step that fails gives
/// back what the steps before it gained.
pub proof fn failed_steps_give_back_what_was_gained(stage: Stage)
    ensures
        follows(Stage::Probe, true) == Outcome::Next(Stage::Pipe),
        follows(Stage::Pipe, true) == Outcome::Next(Stage::Keep),
        follows(Stage::Keep, true) == Outcome::Next(Stage::Swap),
        follows(Stage::Swap, true) == Outcome::Next(Stage::Start),
        follows(Stage::Start, true) == Outcome::Shielded,
        follows(stage, false) matches Outcome::GiveUp(h) && {
            &&& h.reader <==> stage == Stage::Keep || stage == Stage::Swap || stage == Stage::Start
            &&& h.writer <==> stage == Stage::Keep || stage == Stage::Swap
            &&& h.kept <==> stage == Stage::Swap || stage == Stage::Start
            &&& h.swapped <==> stage == Stage::Start
        },
{
}

} // verus!
