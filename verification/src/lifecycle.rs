//! The worker and coordinator lifecycle as an explicit, validated transition
//! table: the legal edges are declared once, illegal ones are rejected, and the
//! table prints its own diagram.
use vstd::prelude::*;
use crate::chars;
use crate::coordinator::Phase;
use crate::loopguard::Disposition;
use crate::text;

verus! {

/// A node of the lifecycle. `Done` and `Failed` are terminal.
#[derive(Debug, Clone, Copy, PartialEq, Eq, Hash, Structural)]
pub enum LifecycleState {
    /// Launched; no round has run yet.
    Spawned,
    /// Executing agentic rounds.
    Running,
    /// Blocked on offloaded batch jobs.
    AwaitingBatch,
    /// The last round ended abnormally but can be recovered.
    SoftFailed,
    /// A deliberate, resumable pause.
    Checkpoint,
    /// Terminal: the task completed.
    Done,
    /// Terminal: the run failed.
    Failed,
}

/// The signal that drives one transition.
#[derive(Debug, Clone, Copy, PartialEq, Eq, Hash, Structural)]
pub enum LifecycleEvent {
    Start,
    BatchSpawned,
    BatchSettled,
    SoftFail,
    Recover,
    Flag,
    Pause,
    Resume,
    Complete,
    Fail,
}

/// One legal edge: `event` in `from` leads to `to`.
#[derive(Debug, Clone, Copy, PartialEq, Eq, Structural)]
pub struct Transition {
    pub from: LifecycleState,
    pub event: LifecycleEvent,
    pub to: LifecycleState,
}

/// Why a table was rejected.
#[derive(Debug, Clone, PartialEq, Eq)]
pub enum TableError {
    DuplicateState(&'static str),
    DuplicateEvent(&'static str),
    EmptyEvent,
    UnknownFromState(&'static str),
    UnknownToState(&'static str),
    UnknownEvent(&'static str),
    NondeterministicEdge { from: &'static str, event: &'static str },
}

/// What is wrong with a table, and with which of its members.
pub enum Fault {
    DuplicateState(LifecycleState),
    DuplicateEvent(LifecycleEvent),
    UnknownFromState(LifecycleState),
    UnknownToState(LifecycleState),
    UnknownEvent(LifecycleEvent),
    NondeterministicEdge(LifecycleState, LifecycleEvent),
}

impl LifecycleState {
    /// Every state, in lifecycle order.
    pub const ALL: [LifecycleState; 7] = [
        LifecycleState::Spawned,
        LifecycleState::Running,
        LifecycleState::AwaitingBatch,
        LifecycleState::SoftFailed,
        LifecycleState::Checkpoint,
        LifecycleState::Done,
        LifecycleState::Failed,
    ];

    /// The stable name.
    pub open spec fn name(self) -> Seq<char> {
        match self {
            LifecycleState::Spawned => "spawned"@,
            LifecycleState::Running => "running"@,
            LifecycleState::AwaitingBatch => "awaiting_batch"@,
            LifecycleState::SoftFailed => "soft_failed"@,
            LifecycleState::Checkpoint => "checkpoint"@,
            LifecycleState::Done => "done"@,
            LifecycleState::Failed => "failed"@,
        }
    }

    pub open spec fn terminal(self) -> bool {
        self == LifecycleState::Done || self == LifecycleState::Failed
    }

    /// The stable name used in diagrams, logs and parsing.
    pub fn as_str(self) -> (r: &'static str)
        ensures
            r@ == self.name(),
    {
        match self {
            LifecycleState::Spawned => "spawned",
            LifecycleState::Running => "running",
            LifecycleState::AwaitingBatch => "awaiting_batch",
            LifecycleState::SoftFailed => "soft_failed",
            LifecycleState::Checkpoint => "checkpoint",
            LifecycleState::Done => "done",
            LifecycleState::Failed => "failed",
        }
    }

    /// The state of that name.
    pub fn parse(s: &str) -> (r: Option<LifecycleState>)
        ensures
            match r {
                Some(st) => st.name() == s@,
                None => forall|st: LifecycleState| (#[trigger] st.name()) != s@,
            },
    {
        if text::eq(s, "spawned") {
            Some(LifecycleState::Spawned)
        } else if text::eq(s, "running") {
            Some(LifecycleState::Running)
        } else if text::eq(s, "awaiting_batch") {
            Some(LifecycleState::AwaitingBatch)
        } else if text::eq(s, "soft_failed") {
            Some(LifecycleState::SoftFailed)
        } else if text::eq(s, "checkpoint") {
            Some(LifecycleState::Checkpoint)
        } else if text::eq(s, "done") {
            Some(LifecycleState::Done)
        } else if text::eq(s, "failed") {
            Some(LifecycleState::Failed)
        } else {
            None
        }
    }

    /// Terminal states have no outgoing transitions.
    pub fn is_terminal(self) -> (r: bool)
        ensures
            r == self.terminal(),
    {
        match self {
            LifecycleState::Done | LifecycleState::Failed => true,
            _ => false,
        }
    }

    /// The lifecycle state of a coordinator phase.
    pub fn from_phase(phase: Phase) -> (r: LifecycleState)
        ensures
            r == (match phase {
                Phase::Coordinating => LifecycleState::Running,
                Phase::AwaitingBatch => LifecycleState::AwaitingBatch,
                Phase::Checkpoint => LifecycleState::Checkpoint,
                Phase::Done => LifecycleState::Done,
                Phase::Failed => LifecycleState::Failed,
            }),
    {
        match phase {
            Phase::Coordinating => LifecycleState::Running,
            Phase::AwaitingBatch => LifecycleState::AwaitingBatch,
            Phase::Checkpoint => LifecycleState::Checkpoint,
            Phase::Done => LifecycleState::Done,
            Phase::Failed => LifecycleState::Failed,
        }
    }

    /// The lifecycle state of a worker status word; `None` for any other word.
    pub fn from_worker_status(status: &str) -> (r: Option<LifecycleState>)
        ensures
            r == (if status@ == "running"@ {
                Some(LifecycleState::Running)
            } else if status@ == "done"@ {
                Some(LifecycleState::Done)
            } else if status@ == "failed"@ {
                Some(LifecycleState::Failed)
            } else {
                None
            }),
    {
        if text::eq(status, "running") {
            Some(LifecycleState::Running)
        } else if text::eq(status, "done") {
            Some(LifecycleState::Done)
        } else if text::eq(status, "failed") {
            Some(LifecycleState::Failed)
        } else {
            None
        }
    }

    /// The name as an owned string.
    pub fn to_string(&self) -> (r: String)
        ensures
            r@ == self.name(),
    {
        self.as_str().to_owned()
    }
}

impl LifecycleEvent {
    /// Every event.
    pub const ALL: [LifecycleEvent; 10] = [
        LifecycleEvent::Start,
        LifecycleEvent::BatchSpawned,
        LifecycleEvent::BatchSettled,
        LifecycleEvent::SoftFail,
        LifecycleEvent::Recover,
        LifecycleEvent::Flag,
        LifecycleEvent::Pause,
        LifecycleEvent::Resume,
        LifecycleEvent::Complete,
        LifecycleEvent::Fail,
    ];

    /// The stable name.
    pub open spec fn name(self) -> Seq<char> {
        match self {
            LifecycleEvent::Start => "start"@,
            LifecycleEvent::BatchSpawned => "batch_spawned"@,
            LifecycleEvent::BatchSettled => "batch_settled"@,
            LifecycleEvent::SoftFail => "soft_fail"@,
            LifecycleEvent::Recover => "recover"@,
            LifecycleEvent::Flag => "flag"@,
            LifecycleEvent::Pause => "pause"@,
            LifecycleEvent::Resume => "resume"@,
            LifecycleEvent::Complete => "complete"@,
            LifecycleEvent::Fail => "fail"@,
        }
    }

    /// The stable name used in diagrams and logs.
    pub fn as_str(self) -> (r: &'static str)
        ensures
            r@ == self.name(),
    {
        match self {
            LifecycleEvent::Start => "start",
            LifecycleEvent::BatchSpawned => "batch_spawned",
            LifecycleEvent::BatchSettled => "batch_settled",
            LifecycleEvent::SoftFail => "soft_fail",
            LifecycleEvent::Recover => "recover",
            LifecycleEvent::Flag => "flag",
            LifecycleEvent::Pause => "pause",
            LifecycleEvent::Resume => "resume",
            LifecycleEvent::Complete => "complete",
            LifecycleEvent::Fail => "fail",
        }
    }

    /// The event that a recovery disposition enacts, if any.
    pub fn from_disposition(disp: Disposition) -> (r: Option<LifecycleEvent>)
        ensures
            r == (match disp {
                Disposition::Resume => Some(LifecycleEvent::Recover),
                Disposition::Nudge => Some(LifecycleEvent::Recover),
                Disposition::FlagOperator => Some(LifecycleEvent::Flag),
                Disposition::NoAction => None,
            }),
    {
        match disp {
            Disposition::Resume | Disposition::Nudge => Some(LifecycleEvent::Recover),
            Disposition::FlagOperator => Some(LifecycleEvent::Flag),
            Disposition::NoAction => None,
        }
    }

    /// The name as an owned string.
    pub fn to_string(&self) -> (r: String)
        ensures
            r@ == self.name(),
    {
        self.as_str().to_owned()
    }
}

impl Fault {
    /// Whether `e` reports this fault.
    pub open spec fn reported_by(self, e: TableError) -> bool {
        match self {
            Fault::DuplicateState(s) => e matches TableError::DuplicateState(n) && n@ == s.name(),
            Fault::DuplicateEvent(v) => e matches TableError::DuplicateEvent(n) && n@ == v.name(),
            Fault::UnknownFromState(s) => e matches TableError::UnknownFromState(n) && n@
                == s.name(),
            Fault::UnknownToState(s) => e matches TableError::UnknownToState(n) && n@ == s.name(),
            Fault::UnknownEvent(v) => e matches TableError::UnknownEvent(n) && n@ == v.name(),
            Fault::NondeterministicEdge(s, v) => e matches TableError::NondeterministicEdge {
                from,
                event,
            } && from@ == s.name() && event@ == v.name(),
        }
    }
}

impl TableError {
    /// The message of the error.
    pub open spec fn text(self) -> Seq<char> {
        match self {
            TableError::DuplicateState(s) => "duplicate state `"@ + s@ + "`"@,
            TableError::DuplicateEvent(e) => "duplicate event `"@ + e@ + "`"@,
            TableError::EmptyEvent => "transition has an empty event name"@,
            TableError::UnknownFromState(s) => "transition from unknown state `"@ + s@ + "`"@,
            TableError::UnknownToState(s) => "transition to unknown state `"@ + s@ + "`"@,
            TableError::UnknownEvent(e) => "transition on unknown event `"@ + e@ + "`"@,
            TableError::NondeterministicEdge { from, event } => "duplicate edge `"@ + from@
                + "` --"@ + event@ + "-->"@,
        }
    }

    /// The message of the error.
    pub fn message(&self) -> (r: String)
        ensures
            r@ == self.text(),
    {
        match self {
            TableError::DuplicateState(s) => quoted("duplicate state `", s),
            TableError::DuplicateEvent(e) => quoted("duplicate event `", e),
            TableError::EmptyEvent => "transition has an empty event name".to_owned(),
            TableError::UnknownFromState(s) => quoted("transition from unknown state `", s),
            TableError::UnknownToState(s) => quoted("transition to unknown state `", s),
            TableError::UnknownEvent(e) => quoted("transition on unknown event `", e),
            TableError::NondeterministicEdge { from, event } => {
                let mut out = "duplicate edge `".to_owned();
                out.push_str(from);
                out.push_str("` --");
                out.push_str(event);
                out.push_str("-->");
                out
            },
        }
    }
}

fn quoted(head: &str, name: &str) -> (r: String)
    ensures
        r@ == head@ + name@ + "`"@,
{
    let mut out = head.to_owned();
    out.push_str(name);
    out.push_str("`");
    out
}

/// The first member that an earlier member equals.
pub open spec fn first_repeat<T>(s: Seq<T>) -> Option<T>
    decreases s.len(),
{
    if s.len() == 0 {
        None
    } else {
        match first_repeat(s.drop_last()) {
            Some(x) => Some(x),
            None => if s.drop_last().contains(s.last()) {
                Some(s.last())
            } else {
                None
            },
        }
    }
}

/// Whether some edge leaves `from` on `event`.
pub open spec fn has_edge(
    ts: Seq<Transition>,
    from: LifecycleState,
    event: LifecycleEvent,
) -> bool {
    exists|i: int| 0 <= i < ts.len() && (#[trigger] ts[i]).from == from && ts[i].event == event
}

/// What is wrong with transition `t`, declared after the transitions `earlier`.
pub open spec fn edge_fault(
    states: Seq<LifecycleState>,
    events: Seq<LifecycleEvent>,
    earlier: Seq<Transition>,
    t: Transition,
) -> Option<Fault> {
    if !states.contains(t.from) {
        Some(Fault::UnknownFromState(t.from))
    } else if !states.contains(t.to) {
        Some(Fault::UnknownToState(t.to))
    } else if !events.contains(t.event) {
        Some(Fault::UnknownEvent(t.event))
    } else if has_edge(earlier, t.from, t.event) {
        Some(Fault::NondeterministicEdge(t.from, t.event))
    } else {
        None
    }
}

/// The fault of the first faulty transition.
pub open spec fn first_edge_fault(
    states: Seq<LifecycleState>,
    events: Seq<LifecycleEvent>,
    ts: Seq<Transition>,
) -> Option<Fault>
    decreases ts.len(),
{
    if ts.len() == 0 {
        None
    } else {
        match first_edge_fault(states, events, ts.drop_last()) {
            Some(f) => Some(f),
            None => edge_fault(states, events, ts.drop_last(), ts.last()),
        }
    }
}

/// The first fault of a table: repeated states, then repeated events, then
/// faulty transitions.
pub open spec fn table_fault(
    states: Seq<LifecycleState>,
    events: Seq<LifecycleEvent>,
    ts: Seq<Transition>,
) -> Option<Fault> {
    match first_repeat(states) {
        Some(s) => Some(Fault::DuplicateState(s)),
        None => match first_repeat(events) {
            Some(e) => Some(Fault::DuplicateEvent(e)),
            None => first_edge_fault(states, events, ts),
        },
    }
}

/// Where `event` leads from `state`: the target of the first such edge.
pub open spec fn target(
    ts: Seq<Transition>,
    state: LifecycleState,
    event: LifecycleEvent,
) -> Option<LifecycleState>
    decreases ts.len(),
{
    if ts.len() == 0 {
        None
    } else if ts[0].from == state && ts[0].event == event {
        Some(ts[0].to)
    } else {
        target(ts.skip(1), state, event)
    }
}

/// The edges that leave `state`, in table order.
pub open spec fn leaving(ts: Seq<Transition>, state: LifecycleState) -> Seq<
    (LifecycleEvent, LifecycleState),
>
    decreases ts.len(),
{
    if ts.len() == 0 {
        seq![]
    } else if ts.last().from == state {
        leaving(ts.drop_last(), state).push((ts.last().event, ts.last().to))
    } else {
        leaving(ts.drop_last(), state)
    }
}

/// One line per edge.
pub open spec fn edge_lines(es: Seq<(LifecycleEvent, LifecycleState)>) -> Seq<char>
    decreases es.len(),
{
    if es.len() == 0 {
        seq![]
    } else {
        edge_lines(es.drop_last()) + "  --"@ + es.last().0.name() + "--> "@ + es.last().1.name()
            + "\n"@
    }
}

/// The diagram's block for one state.
pub open spec fn state_block(ts: Seq<Transition>, st: LifecycleState) -> Seq<char> {
    "\n"@ + st.name() + (if st.terminal() {
        "  (terminal)"@
    } else {
        ""@
    }) + "\n"@ + (if leaving(ts, st).len() == 0 && st.terminal() {
        "  · no outgoing transitions\n"@
    } else {
        edge_lines(leaving(ts, st))
    })
}

/// The diagram's blocks for several states.
pub open spec fn state_blocks(ts: Seq<Transition>, states: Seq<LifecycleState>) -> Seq<char>
    decreases states.len(),
{
    if states.len() == 0 {
        seq![]
    } else {
        state_blocks(ts, states.drop_last()) + state_block(ts, states.last())
    }
}

pub open spec fn diagram_text(states: Seq<LifecycleState>, ts: Seq<Transition>) -> Seq<char> {
    "worker/coordinator lifecycle\n"@ + state_blocks(ts, states)
}

/// A validated set of legal transitions.
#[derive(Debug, Clone)]
pub struct TransitionTable {
    states: Vec<LifecycleState>,
    events: Vec<LifecycleEvent>,
    transitions: Vec<Transition>,
}

/// The edges of the machine that workers and coordinators follow.
pub open spec fn canonical_edges() -> Seq<Transition> {
    seq![
        edge(LifecycleState::Spawned, LifecycleEvent::Start, LifecycleState::Running),
        edge(LifecycleState::Running, LifecycleEvent::BatchSpawned, LifecycleState::AwaitingBatch),
        edge(LifecycleState::AwaitingBatch, LifecycleEvent::BatchSettled, LifecycleState::Running),
        edge(LifecycleState::Running, LifecycleEvent::SoftFail, LifecycleState::SoftFailed),
        edge(LifecycleState::SoftFailed, LifecycleEvent::Recover, LifecycleState::Running),
        edge(LifecycleState::SoftFailed, LifecycleEvent::Flag, LifecycleState::Failed),
        edge(LifecycleState::Running, LifecycleEvent::Pause, LifecycleState::Checkpoint),
        edge(LifecycleState::Checkpoint, LifecycleEvent::Resume, LifecycleState::Running),
        edge(LifecycleState::Running, LifecycleEvent::Complete, LifecycleState::Done),
        edge(LifecycleState::Running, LifecycleEvent::Fail, LifecycleState::Failed),
        edge(LifecycleState::AwaitingBatch, LifecycleEvent::Fail, LifecycleState::Failed),
    ]
}

pub open spec fn edge(from: LifecycleState, event: LifecycleEvent, to: LifecycleState) -> Transition {
    Transition { from, event, to }
}

fn mk(from: LifecycleState, event: LifecycleEvent, to: LifecycleState) -> (r: Transition)
    ensures
        r == edge(from, event, to),
{
    Transition { from, event, to }
}

fn has_state(v: &Vec<LifecycleState>, n: usize, s: LifecycleState) -> (r: bool)
    requires
        n <= v@.len(),
    ensures
        r == v@.take(n as int).contains(s),
{
    let mut i: usize = 0;
    while i < n
        invariant
            i <= n <= v@.len(),
            forall|j: int| 0 <= j < i ==> v@[j] != s,
        decreases n - i,
    {
        if v[i] == s {
            assert(v@.take(n as int)[i as int] == s);
            return true;
        }
        i += 1;
    }
    false
}

fn has_event(v: &Vec<LifecycleEvent>, n: usize, e: LifecycleEvent) -> (r: bool)
    requires
        n <= v@.len(),
    ensures
        r == v@.take(n as int).contains(e),
{
    let mut i: usize = 0;
    while i < n
        invariant
            i <= n <= v@.len(),
            forall|j: int| 0 <= j < i ==> v@[j] != e,
        decreases n - i,
    {
        if v[i] == e {
            assert(v@.take(n as int)[i as int] == e);
            return true;
        }
        i += 1;
    }
    false
}

fn has_transition(
    v: &Vec<Transition>,
    n: usize,
    from: LifecycleState,
    event: LifecycleEvent,
) -> (r: bool)
    requires
        n <= v@.len(),
    ensures
        r == has_edge(v@.take(n as int), from, event),
{
    let mut i: usize = 0;
    while i < n
        invariant
            i <= n <= v@.len(),
            forall|j: int| 0 <= j < i ==> !((#[trigger] v@[j]).from == from && v@[j].event == event),
        decreases n - i,
    {
        if v[i].from == from && v[i].event == event {
            assert(v@.take(n as int)[i as int] == v@[i as int]);
            return true;
        }
        i += 1;
    }
    false
}

/// If a prefix already has a repeat, so has the whole, and it is the same one.
proof fn lemma_repeat_prefix<T>(s: Seq<T>, n: int)
    requires
        0 <= n <= s.len(),
        first_repeat(s.take(n)) is Some,
    ensures
        first_repeat(s) == first_repeat(s.take(n)),
    decreases s.len(),
{
    if n == s.len() {
        assert(s.take(n) =~= s);
    } else {
        assert(s.drop_last().take(n) =~= s.take(n));
        lemma_repeat_prefix(s.drop_last(), n);
    }
}

proof fn lemma_fault_prefix(
    states: Seq<LifecycleState>,
    events: Seq<LifecycleEvent>,
    ts: Seq<Transition>,
    n: int,
)
    requires
        0 <= n <= ts.len(),
        first_edge_fault(states, events, ts.take(n)) is Some,
    ensures
        first_edge_fault(states, events, ts) == first_edge_fault(states, events, ts.take(n)),
    decreases ts.len(),
{
    if n == ts.len() {
        assert(ts.take(n) =~= ts);
    } else {
        assert(ts.drop_last().take(n) =~= ts.take(n));
        lemma_fault_prefix(states, events, ts.drop_last(), n);
    }
}

impl TransitionTable {
    pub closed spec fn spec_states(self) -> Seq<LifecycleState> {
        self.states@
    }

    pub closed spec fn spec_events(self) -> Seq<LifecycleEvent> {
        self.events@
    }

    pub closed spec fn spec_transitions(self) -> Seq<Transition> {
        self.transitions@
    }

    /// The table has none of the faults that `build` rejects.
    pub open spec fn valid(self) -> bool {
        table_fault(self.spec_states(), self.spec_events(), self.spec_transitions()) is None
    }

    /// Validates the sets and builds the table; the first violation is returned.
    /// Every event has a name, so `EmptyEvent` never comes.
    pub fn build(
        states: Vec<LifecycleState>,
        events: Vec<LifecycleEvent>,
        transitions: Vec<Transition>,
    ) -> (r: Result<TransitionTable, TableError>)
        ensures
            match table_fault(states@, events@, transitions@) {
                Some(f) => r matches Err(e) && f.reported_by(e),
                None => r matches Ok(t) && t.spec_states() == states@ && t.spec_events() == events@
                    && t.spec_transitions() == transitions@,
            },
    {
        let mut i: usize = 0;
        while i < states.len()
            invariant
                i <= states@.len(),
                first_repeat(states@.take(i as int)) is None,
            decreases states@.len() - i,
        {
            let s = states[i];
            let dup = has_state(&states, i, s);
            proof {
                assert(states@.take(i + 1).drop_last() =~= states@.take(i as int));
                assert(states@.take(i + 1).last() == s);
            }
            if dup {
                proof {
                    lemma_repeat_prefix(states@, i + 1);
                }
                return Err(TableError::DuplicateState(s.as_str()));
            }
            i += 1;
        }
        assert(states@.take(i as int) =~= states@);
        let mut i: usize = 0;
        while i < events.len()
            invariant
                first_repeat(states@) is None,
                i <= events@.len(),
                first_repeat(events@.take(i as int)) is None,
            decreases events@.len() - i,
        {
            let e = events[i];
            let dup = has_event(&events, i, e);
            proof {
                assert(events@.take(i + 1).drop_last() =~= events@.take(i as int));
                assert(events@.take(i + 1).last() == e);
            }
            if dup {
                proof {
                    lemma_repeat_prefix(events@, i + 1);
                }
                return Err(TableError::DuplicateEvent(e.as_str()));
            }
            i += 1;
        }
        assert(events@.take(i as int) =~= events@);
        let ns: usize = states.len();
        let ne: usize = events.len();
        assert(states@.take(ns as int) =~= states@);
        assert(events@.take(ne as int) =~= events@);
        let mut i: usize = 0;
        while i < transitions.len()
            invariant
                first_repeat(states@) is None,
                first_repeat(events@) is None,
                ns == states@.len(),
                ne == events@.len(),
                states@.take(ns as int) == states@,
                events@.take(ne as int) == events@,
                i <= transitions@.len(),
                first_edge_fault(states@, events@, transitions@.take(i as int)) is None,
            decreases transitions@.len() - i,
        {
            let t = transitions[i];
            proof {
                assert(transitions@.take(i + 1).drop_last() =~= transitions@.take(i as int));
                assert(transitions@.take(i + 1).last() == t);
                if edge_fault(states@, events@, transitions@.take(i as int), t) is Some {
                    lemma_fault_prefix(states@, events@, transitions@, i + 1);
                }
            }
            if !has_state(&states, ns, t.from) {
                return Err(TableError::UnknownFromState(t.from.as_str()));
            }
            if !has_state(&states, ns, t.to) {
                return Err(TableError::UnknownToState(t.to.as_str()));
            }
            if !has_event(&events, ne, t.event) {
                return Err(TableError::UnknownEvent(t.event.as_str()));
            }
            if has_transition(&transitions, i, t.from, t.event) {
                return Err(
                    TableError::NondeterministicEdge {
                        from: t.from.as_str(),
                        event: t.event.as_str(),
                    },
                );
            }
            i += 1;
        }
        assert(transitions@.take(i as int) =~= transitions@);
        Ok(TransitionTable { states, events, transitions })
    }

    /// The machine that workers and coordinators follow.
    pub fn canonical() -> (r: TransitionTable)
        ensures
            r.spec_states() == LifecycleState::ALL@,
            r.spec_events() == LifecycleEvent::ALL@,
            r.spec_transitions() == canonical_edges(),
            r.valid(),
    {
        let mut ts: Vec<Transition> = Vec::new();
        ts.push(mk(LifecycleState::Spawned, LifecycleEvent::Start, LifecycleState::Running));
        ts.push(mk(LifecycleState::Running, LifecycleEvent::BatchSpawned, LifecycleState::AwaitingBatch));
        ts.push(mk(LifecycleState::AwaitingBatch, LifecycleEvent::BatchSettled, LifecycleState::Running));
        ts.push(mk(LifecycleState::Running, LifecycleEvent::SoftFail, LifecycleState::SoftFailed));
        ts.push(mk(LifecycleState::SoftFailed, LifecycleEvent::Recover, LifecycleState::Running));
        ts.push(mk(LifecycleState::SoftFailed, LifecycleEvent::Flag, LifecycleState::Failed));
        ts.push(mk(LifecycleState::Running, LifecycleEvent::Pause, LifecycleState::Checkpoint));
        ts.push(mk(LifecycleState::Checkpoint, LifecycleEvent::Resume, LifecycleState::Running));
        ts.push(mk(LifecycleState::Running, LifecycleEvent::Complete, LifecycleState::Done));
        ts.push(mk(LifecycleState::Running, LifecycleEvent::Fail, LifecycleState::Failed));
        ts.push(mk(LifecycleState::AwaitingBatch, LifecycleEvent::Fail, LifecycleState::Failed));
        assert(ts@ =~= canonical_edges());
        let all_states = LifecycleState::ALL;
        let all_events = LifecycleEvent::ALL;
        let mut states: Vec<LifecycleState> = Vec::new();
        let mut i: usize = 0;
        while i < 7
            invariant
                i <= 7,
                all_states@ == LifecycleState::ALL@,
                all_states@.len() == 7,
                states@ == all_states@.take(i as int),
            decreases 7 - i,
        {
            states.push(all_states[i]);
            i += 1;
            assert(states@ =~= all_states@.take(i as int));
        }
        let mut events: Vec<LifecycleEvent> = Vec::new();
        let mut i: usize = 0;
        while i < 10
            invariant
                i <= 10,
                all_events@ == LifecycleEvent::ALL@,
                all_events@.len() == 10,
                events@ == all_events@.take(i as int),
            decreases 10 - i,
        {
            events.push(all_events[i]);
            i += 1;
            assert(events@ =~= all_events@.take(i as int));
        }
        assert(states@ =~= all_states@);
        assert(events@ =~= all_events@);
        proof {
            canonical_has_no_fault();
        }
        TransitionTable { states, events, transitions: ts }
    }

    /// The state that `event` leads to from `state`; `None` for an illegal edge.
    pub fn next(&self, state: LifecycleState, event: LifecycleEvent) -> (r: Option<LifecycleState>)
        ensures
            r == target(self.spec_transitions(), state, event),
    {
        let mut i: usize = 0;
        assert(self.transitions@.skip(0) =~= self.transitions@);
        while i < self.transitions.len()
            invariant
                i <= self.transitions@.len(),
                target(self.transitions@, state, event) == target(
                    self.transitions@.skip(i as int),
                    state,
                    event,
                ),
            decreases self.transitions@.len() - i,
        {
            let t = self.transitions[i];
            if t.from == state && t.event == event {
                return Some(t.to);
            }
            assert(self.transitions@.skip(i as int).skip(1) =~= self.transitions@.skip(i + 1));
            i += 1;
        }
        None
    }

    /// Whether `event` in `state` is a declared edge.
    pub fn is_legal(&self, state: LifecycleState, event: LifecycleEvent) -> (r: bool)
        ensures
            r == target(self.spec_transitions(), state, event) is Some,
            r == has_edge(self.spec_transitions(), state, event),
    {
        proof {
            legal_iff_edge(self.transitions@, state, event);
        }
        self.next(state, event).is_some()
    }

    /// The edges that leave `state`, in table order.
    pub fn outgoing(&self, state: LifecycleState) -> (r: Vec<(LifecycleEvent, LifecycleState)>)
        ensures
            r@ == leaving(self.spec_transitions(), state),
    {
        let mut out: Vec<(LifecycleEvent, LifecycleState)> = Vec::new();
        let mut i: usize = 0;
        assert(self.transitions@.take(0) =~= Seq::empty());
        while i < self.transitions.len()
            invariant
                i <= self.transitions@.len(),
                out@ == leaving(self.transitions@.take(i as int), state),
            decreases self.transitions@.len() - i,
        {
            let t = self.transitions[i];
            proof {
                assert(self.transitions@.take(i + 1).drop_last() =~= self.transitions@.take(
                    i as int,
                ));
                assert(self.transitions@.take(i + 1).last() == t);
            }
            if t.from == state {
                out.push((t.event, t.to));
            }
            i += 1;
        }
        assert(self.transitions@.take(i as int) =~= self.transitions@);
        out
    }

    /// The declared states.
    pub fn states(&self) -> (r: &[LifecycleState])
        ensures
            r@ == self.spec_states(),
    {
        self.states.as_slice()
    }

    /// The declared events.
    pub fn events(&self) -> (r: &[LifecycleEvent])
        ensures
            r@ == self.spec_events(),
    {
        self.events.as_slice()
    }

    /// The declared transitions.
    pub fn transitions(&self) -> (r: &[Transition])
        ensures
            r@ == self.spec_transitions(),
    {
        self.transitions.as_slice()
    }

    /// The block of one state.
    fn block(&self, st: LifecycleState) -> (r: String)
        ensures
            r@ == state_block(self.spec_transitions(), st),
    {
        let edges = self.outgoing(st);
        let mut out = "\n".to_owned();
        out.push_str(st.as_str());
        if st.is_terminal() {
            out.push_str("  (terminal)");
        } else {
            out.push_str("");
        }
        out.push_str("\n");
        if edges.len() == 0 && st.is_terminal() {
            out.push_str("  · no outgoing transitions\n");
        } else {
            out.push_str(edge_list(edges.as_slice()).as_str());
        }
        out
    }

    /// The machine as text: one block per state with its edges.
    pub fn diagram(&self) -> (r: String)
        ensures
            r@ == diagram_text(self.spec_states(), self.spec_transitions()),
    {
        let mut blocks = String::new();
        let mut i: usize = 0;
        assert(self.states@.take(0) =~= Seq::empty());
        while i < self.states.len()
            invariant
                i <= self.states@.len(),
                blocks@ == state_blocks(self.transitions@, self.states@.take(i as int)),
            decreases self.states@.len() - i,
        {
            assert(self.states@.take(i + 1).drop_last() =~= self.states@.take(i as int));
            blocks.push_str(self.block(self.states[i]).as_str());
            i += 1;
        }
        assert(self.states@.take(i as int) =~= self.states@);
        let mut out = "worker/coordinator lifecycle\n".to_owned();
        out.push_str(blocks.as_str());
        out
    }
}

/// The lines of the edges.
fn edge_list(edges: &[(LifecycleEvent, LifecycleState)]) -> (r: String)
    ensures
        r@ == edge_lines(edges@),
{
    let mut out = String::new();
    let mut j: usize = 0;
    assert(edges@.take(0) =~= Seq::empty());
    while j < edges.len()
        invariant
            j <= edges@.len(),
            out@ == edge_lines(edges@.take(j as int)),
        decreases edges@.len() - j,
    {
        assert(edges@.take(j + 1).drop_last() =~= edges@.take(j as int));
        let (ev, to) = edges[j];
        out.push_str("  --");
        out.push_str(ev.as_str());
        out.push_str("--> ");
        out.push_str(to.as_str());
        out.push_str("\n");
        j += 1;
    }
    assert(edges@.take(j as int) =~= edges@);
    out
}

/// The target of `event` from `state` in the canonical machine.
pub fn next(state: LifecycleState, event: LifecycleEvent) -> (r: Option<LifecycleState>)
    ensures
        r == target(canonical_edges(), state, event),
{
    TransitionTable::canonical().next(state, event)
}

/// The canonical machine's diagram.
pub fn diagram() -> (r: String)
    ensures
        r@ == diagram_text(LifecycleState::ALL@, canonical_edges()),
{
    TransitionTable::canonical().diagram()
}

proof fn canonical_has_no_fault()
    ensures
        table_fault(LifecycleState::ALL@, LifecycleEvent::ALL@, canonical_edges()) is None,
{
    let s = LifecycleState::ALL@;
    let e = LifecycleEvent::ALL@;
    assert(forall|st: LifecycleState| s.contains(st)) by {
        assert forall|st: LifecycleState| s.contains(st) by {
            match st {
                LifecycleState::Spawned => assert(s[0] == st),
                LifecycleState::Running => assert(s[1] == st),
                LifecycleState::AwaitingBatch => assert(s[2] == st),
                LifecycleState::SoftFailed => assert(s[3] == st),
                LifecycleState::Checkpoint => assert(s[4] == st),
                LifecycleState::Done => assert(s[5] == st),
                LifecycleState::Failed => assert(s[6] == st),
            }
        }
    }
    assert(forall|ev: LifecycleEvent| e.contains(ev)) by {
        assert forall|ev: LifecycleEvent| e.contains(ev) by {
            match ev {
                LifecycleEvent::Start => assert(e[0] == ev),
                LifecycleEvent::BatchSpawned => assert(e[1] == ev),
                LifecycleEvent::BatchSettled => assert(e[2] == ev),
                LifecycleEvent::SoftFail => assert(e[3] == ev),
                LifecycleEvent::Recover => assert(e[4] == ev),
                LifecycleEvent::Flag => assert(e[5] == ev),
                LifecycleEvent::Pause => assert(e[6] == ev),
                LifecycleEvent::Resume => assert(e[7] == ev),
                LifecycleEvent::Complete => assert(e[8] == ev),
                LifecycleEvent::Fail => assert(e[9] == ev),
            }
        }
    }
    lemma_no_repeat(s);
    lemma_no_repeat(e);
    let ts = canonical_edges();
    lemma_no_edge_fault(s, e, ts);
}

proof fn lemma_no_repeat<T>(s: Seq<T>)
    requires
        s.no_duplicates(),
    ensures
        first_repeat(s) is None,
    decreases s.len(),
{
    if s.len() > 0 {
        lemma_no_repeat(s.drop_last());
        if s.drop_last().contains(s.last()) {
            let i = choose|i: int| 0 <= i < s.len() - 1 && s.drop_last()[i] == s.last();
            assert(s[i] == s[s.len() - 1]);
        }
    }
}

proof fn lemma_no_edge_fault(
    s: Seq<LifecycleState>,
    e: Seq<LifecycleEvent>,
    ts: Seq<Transition>,
)
    requires
        forall|st: LifecycleState| s.contains(st),
        forall|ev: LifecycleEvent| e.contains(ev),
        forall|i: int, j: int|
            0 <= i < j < ts.len() ==> (#[trigger] ts[i]).from != (#[trigger] ts[j]).from || ts[i].event
                != ts[j].event,
    ensures
        first_edge_fault(s, e, ts) is None,
    decreases ts.len(),
{
    if ts.len() > 0 {
        lemma_no_edge_fault(s, e, ts.drop_last());
        let d = ts.drop_last();
        let l = ts.last();
        if has_edge(d, l.from, l.event) {
            let i = choose|i: int|
                0 <= i < d.len() && (#[trigger] d[i]).from == l.from && d[i].event == l.event;
            assert(ts[i] == d[i]);
            assert(ts[ts.len() - 1] == l);
        }
    }
}

/// Reading a state's name back gives the state: distinct states have distinct
/// names.
pub proof fn state_names_are_distinct(a: LifecycleState, b: LifecycleState)
    ensures
        a.name() == b.name() <==> a == b,
{
    reveal_strlit("spawned");
    reveal_strlit("running");
    reveal_strlit("awaiting_batch");
    reveal_strlit("soft_failed");
    reveal_strlit("checkpoint");
    reveal_strlit("done");
    reveal_strlit("failed");
    if a != b && a.name() == b.name() {
        assert(a.name()[0] == b.name()[0]);
        assert(a.name().len() == b.name().len());
    }
}

/// Distinct events have distinct, non-empty names.
pub proof fn event_names_are_distinct(a: LifecycleEvent, b: LifecycleEvent)
    ensures
        a.name() == b.name() <==> a == b,
        a.name().len() > 0,
{
    reveal_strlit("start");
    reveal_strlit("batch_spawned");
    reveal_strlit("batch_settled");
    reveal_strlit("soft_fail");
    reveal_strlit("recover");
    reveal_strlit("flag");
    reveal_strlit("pause");
    reveal_strlit("resume");
    reveal_strlit("complete");
    reveal_strlit("fail");
    if a != b && a.name() == b.name() {
        assert(a.name()[0] == b.name()[0]);
        assert(a.name()[2] == b.name()[2]);
        assert(a.name()[7] == b.name()[7]);
        assert(a.name().len() == b.name().len());
    }
}

/// An event is legal in a state exactly when an edge says so.
pub proof fn legal_iff_edge(ts: Seq<Transition>, state: LifecycleState, event: LifecycleEvent)
    ensures
        target(ts, state, event) is Some <==> has_edge(ts, state, event),
    decreases ts.len(),
{
    if ts.len() > 0 {
        legal_iff_edge(ts.skip(1), state, event);
        if ts[0].from == state && ts[0].event == event {
            assert(has_edge(ts, state, event));
        } else {
            if has_edge(ts, state, event) {
                let i = choose|i: int|
                    0 <= i < ts.len() && (#[trigger] ts[i]).from == state && ts[i].event == event;
                assert(ts.skip(1)[i - 1] == ts[i]);
            }
            if has_edge(ts.skip(1), state, event) {
                let i = choose|i: int|
                    0 <= i < ts.len() - 1 && (#[trigger] ts.skip(1)[i]).from == state
                        && ts.skip(1)[i].event == event;
                assert(ts.skip(1)[i] == ts[i + 1]);
            }
        }
    }
}

/// A table without faults is deterministic: every declared edge is the one that
/// its event takes.
pub proof fn valid_table_is_deterministic(
    states: Seq<LifecycleState>,
    events: Seq<LifecycleEvent>,
    ts: Seq<Transition>,
    i: int,
)
    requires
        table_fault(states, events, ts) is None,
        0 <= i < ts.len(),
    ensures
        target(ts, ts[i].from, ts[i].event) == Some(ts[i].to),
        states.contains(ts[i].from),
        states.contains(ts[i].to),
        events.contains(ts[i].event),
{
    lemma_fault_free_edge(states, events, ts, i);
    lemma_target_unique(ts, i);
}

proof fn lemma_fault_free_edge(
    states: Seq<LifecycleState>,
    events: Seq<LifecycleEvent>,
    ts: Seq<Transition>,
    i: int,
)
    requires
        first_edge_fault(states, events, ts) is None,
        0 <= i < ts.len(),
    ensures
        states.contains(ts[i].from),
        states.contains(ts[i].to),
        events.contains(ts[i].event),
        forall|j: int|
            0 <= j < i ==> !((#[trigger] ts[j]).from == ts[i].from && ts[j].event == ts[i].event),
    decreases ts.len(),
{
    if i < ts.len() - 1 {
        lemma_fault_free_edge(states, events, ts.drop_last(), i);
        assert forall|j: int| 0 <= j < i implies !((#[trigger] ts[j]).from == ts[i].from
            && ts[j].event == ts[i].event) by {
            assert(ts.drop_last()[j] == ts[j]);
        }
    } else {
        assert forall|j: int| 0 <= j < i implies !((#[trigger] ts[j]).from == ts[i].from
            && ts[j].event == ts[i].event) by {
            assert(ts.drop_last()[j] == ts[j]);
        }
    }
}

proof fn lemma_target_unique(ts: Seq<Transition>, i: int)
    requires
        0 <= i < ts.len(),
        forall|j: int|
            0 <= j < i ==> !((#[trigger] ts[j]).from == ts[i].from && ts[j].event == ts[i].event),
    ensures
        target(ts, ts[i].from, ts[i].event) == Some(ts[i].to),
    decreases i,
{
    if i > 0 {
        assert(!(ts[0].from == ts[i].from && ts[0].event == ts[i].event));
        let t = ts.skip(1);
        assert(t[i - 1] == ts[i]);
        assert forall|j: int| 0 <= j < i - 1 implies !((#[trigger] t[j]).from == t[i - 1].from
            && t[j].event == t[i - 1].event) by {
            assert(t[j] == ts[j + 1]);
        }
        lemma_target_unique(t, i - 1);
    }
}

/// No event leaves a terminal state of the canonical machine, and every other
/// state can be left.
pub proof fn terminal_iff_no_way_out(state: LifecycleState)
    ensures
        state.terminal() <==> forall|event: LifecycleEvent|
            (#[trigger] target(canonical_edges(), state, event)) is None,
        state.terminal() <==> leaving(canonical_edges(), state).len() == 0,
{
    let ts = canonical_edges();
    lemma_leaving(ts, state);
    if state.terminal() {
        assert forall|event: LifecycleEvent| (#[trigger] target(ts, state, event)) is None by {
            legal_iff_edge(ts, state, event);
        }
    } else {
        let i: int = match state {
            LifecycleState::Spawned => 0,
            LifecycleState::Running => 1,
            LifecycleState::AwaitingBatch => 2,
            LifecycleState::SoftFailed => 4,
            _ => 7,
        };
        assert(ts[i].from == state);
        legal_iff_edge(ts, state, ts[i].event);
        assert(target(ts, state, ts[i].event) is Some);
    }
}

proof fn lemma_leaving(ts: Seq<Transition>, state: LifecycleState)
    ensures
        leaving(ts, state).len() == 0 <==> forall|i: int|
            0 <= i < ts.len() ==> (#[trigger] ts[i]).from != state,
    decreases ts.len(),
{
    if ts.len() > 0 {
        lemma_leaving(ts.drop_last(), state);
        let d = ts.drop_last();
        if leaving(ts, state).len() == 0 {
            assert forall|i: int| 0 <= i < ts.len() implies (#[trigger] ts[i]).from != state by {
                if i < ts.len() - 1 {
                    assert(d[i] == ts[i]);
                }
            }
        }
        if forall|i: int| 0 <= i < ts.len() ==> (#[trigger] ts[i]).from != state {
            assert forall|i: int| 0 <= i < d.len() implies (#[trigger] d[i]).from != state by {
                assert(d[i] == ts[i]);
            }
            assert(ts[ts.len() - 1].from != state);
        }
    }
}

/// Every state but the first is the target of some canonical edge.
pub proof fn every_later_state_is_reached(state: LifecycleState)
    requires
        state != LifecycleState::Spawned,
    ensures
        exists|from: LifecycleState, event: LifecycleEvent|
            (#[trigger] target(canonical_edges(), from, event)) == Some(state),
{
    let ts = canonical_edges();
    canonical_has_no_fault();
    let i: int = match state {
        LifecycleState::Running => 0,
        LifecycleState::AwaitingBatch => 1,
        LifecycleState::SoftFailed => 3,
        LifecycleState::Checkpoint => 6,
        LifecycleState::Done => 8,
        _ => 5,
    };
    valid_table_is_deterministic(LifecycleState::ALL@, LifecycleEvent::ALL@, ts, i);
    assert(target(ts, ts[i].from, ts[i].event) == Some(state));
}

/// Law: a worker starts, may wait for a batch, fail softly and recover, or pause and resume,
/// and ends done or failed; no other event is legal in any state.
pub proof fn workers_follow_the_machine(state: LifecycleState, event: LifecycleEvent)
    ensures
        target(canonical_edges(), state, event) == (match (state, event) {
            (LifecycleState::Spawned, LifecycleEvent::Start) => Some(LifecycleState::Running),
            (LifecycleState::Running, LifecycleEvent::BatchSpawned) => Some(LifecycleState::AwaitingBatch),
            (LifecycleState::AwaitingBatch, LifecycleEvent::BatchSettled) => Some(LifecycleState::Running),
            (LifecycleState::Running, LifecycleEvent::SoftFail) => Some(LifecycleState::SoftFailed),
            (LifecycleState::SoftFailed, LifecycleEvent::Recover) => Some(LifecycleState::Running),
            (LifecycleState::SoftFailed, LifecycleEvent::Flag) => Some(LifecycleState::Failed),
            (LifecycleState::Running, LifecycleEvent::Pause) => Some(LifecycleState::Checkpoint),
            (LifecycleState::Checkpoint, LifecycleEvent::Resume) => Some(LifecycleState::Running),
            (LifecycleState::Running, LifecycleEvent::Complete) => Some(LifecycleState::Done),
            (LifecycleState::Running, LifecycleEvent::Fail) => Some(LifecycleState::Failed),
            (LifecycleState::AwaitingBatch, LifecycleEvent::Fail) => Some(LifecycleState::Failed),
            _ => None,
        }),
{
    let ts = canonical_edges();
    let t1 = ts.skip(1);
    let t2 = t1.skip(1);
    let t3 = t2.skip(1);
    let t4 = t3.skip(1);
    let t5 = t4.skip(1);
    let t6 = t5.skip(1);
    let t7 = t6.skip(1);
    let t8 = t7.skip(1);
    let t9 = t8.skip(1);
    let t10 = t9.skip(1);
    let t11 = t10.skip(1);
    assert(t1[0] == ts[1] && t2[0] == ts[2] && t3[0] == ts[3] && t4[0] == ts[4] && t5[0] == ts[5]
        && t6[0] == ts[6] && t7[0] == ts[7] && t8[0] == ts[8] && t9[0] == ts[9] && t10[0] == ts[10]);
    assert(t11.len() == 0);
    assert(target(t11, state, event) is None);
    assert(target(t10, state, event) == (if ts[10].from == state && ts[10].event == event {
        Some(ts[10].to)
    } else {
        None
    }));
    assert(target(t9, state, event) == (if ts[9].from == state && ts[9].event == event {
        Some(ts[9].to)
    } else {
        target(t10, state, event)
    }));
    assert(target(t8, state, event) == (if ts[8].from == state && ts[8].event == event {
        Some(ts[8].to)
    } else {
        target(t9, state, event)
    }));
    assert(target(t7, state, event) == (if ts[7].from == state && ts[7].event == event {
        Some(ts[7].to)
    } else {
        target(t8, state, event)
    }));
    assert(target(t6, state, event) == (if ts[6].from == state && ts[6].event == event {
        Some(ts[6].to)
    } else {
        target(t7, state, event)
    }));
    assert(target(t5, state, event) == (if ts[5].from == state && ts[5].event == event {
        Some(ts[5].to)
    } else {
        target(t6, state, event)
    }));
    assert(target(t4, state, event) == (if ts[4].from == state && ts[4].event == event {
        Some(ts[4].to)
    } else {
        target(t5, state, event)
    }));
    assert(target(t3, state, event) == (if ts[3].from == state && ts[3].event == event {
        Some(ts[3].to)
    } else {
        target(t4, state, event)
    }));
    assert(target(t2, state, event) == (if ts[2].from == state && ts[2].event == event {
        Some(ts[2].to)
    } else {
        target(t3, state, event)
    }));
    assert(target(t1, state, event) == (if ts[1].from == state && ts[1].event == event {
        Some(ts[1].to)
    } else {
        target(t2, state, event)
    }));
}

/// Law: a table's fault is reported under its own kind, with the names of what is at fault,
/// and the message holds them.
pub proof fn faults_are_named(f: Fault, e: TableError)
    requires
        f.reported_by(e),
    ensures
        f matches Fault::DuplicateState(s) ==> e is DuplicateState && chars::contains_str(
            e.text(),
            s.name(),
        ),
        f matches Fault::DuplicateEvent(v) ==> e is DuplicateEvent && chars::contains_str(
            e.text(),
            v.name(),
        ),
        f matches Fault::UnknownFromState(s) ==> e is UnknownFromState && chars::contains_str(
            e.text(),
            s.name(),
        ),
        f matches Fault::UnknownToState(s) ==> e is UnknownToState && chars::contains_str(
            e.text(),
            s.name(),
        ),
        f matches Fault::UnknownEvent(v) ==> e is UnknownEvent && chars::contains_str(
            e.text(),
            v.name(),
        ),
        f matches Fault::NondeterministicEdge(s, v) ==> e is NondeterministicEdge
            && chars::contains_str(e.text(), s.name()) && chars::contains_str(e.text(), v.name()),
{
    match f {
        Fault::DuplicateState(s) => {
            chars::lemma_holds_part("duplicate state `"@, s.name(), "`"@);
        },
        Fault::DuplicateEvent(v) => {
            chars::lemma_holds_part("duplicate event `"@, v.name(), "`"@);
        },
        Fault::UnknownFromState(s) => {
            chars::lemma_holds_part("transition from unknown state `"@, s.name(), "`"@);
        },
        Fault::UnknownToState(s) => {
            chars::lemma_holds_part("transition to unknown state `"@, s.name(), "`"@);
        },
        Fault::UnknownEvent(v) => {
            chars::lemma_holds_part("transition on unknown event `"@, v.name(), "`"@);
        },
        Fault::NondeterministicEdge(s, v) => {
            let h = "duplicate edge `"@;
            let m = "` --"@;
            let t = "-->"@;
            chars::lemma_holds_part(h + s.name() + m, v.name(), t);
            chars::lemma_holds_part(h, s.name(), m + v.name() + t);
            assert(h + s.name() + (m + v.name() + t) =~= h + s.name() + m + v.name() + t);
        },
    }
}

/// Law: the diagram shows every state and every edge that leaves it.
pub proof fn diagrams_show_every_edge(
    states: Seq<LifecycleState>,
    ts: Seq<Transition>,
    i: int,
    j: int,
)
    requires
        0 <= i < ts.len(),
        0 <= j < states.len(),
        ts[i].from == states[j],
    ensures
        chars::contains_str(diagram_text(states, ts), states[j].name()),
        chars::contains_str(
            diagram_text(states, ts),
            "  --"@ + ts[i].event.name() + "--> "@ + ts[i].to.name() + "\n"@,
        ),
{
    let st = states[j];
    let line = "  --"@ + ts[i].event.name() + "--> "@ + ts[i].to.name() + "\n"@;
    lemma_leaving_holds(ts, i);
    let es = leaving(ts, st);
    let k = choose|k: int| 0 <= k < es.len() && es[k] == (ts[i].event, ts[i].to);
    lemma_edge_line(es, k);
    let mark = if st.terminal() {
        "  (terminal)"@
    } else {
        ""@
    };
    let b = state_block(ts, st);
    let lines = edge_lines(es);
    assert(b == "\n"@ + st.name() + mark + "\n"@ + lines);
    chars::lemma_holds_part("\n"@ + st.name() + mark + "\n"@, lines, seq![]);
    assert("\n"@ + st.name() + mark + "\n"@ + lines + Seq::<char>::empty() =~= b);
    chars::lemma_holds_part("\n"@, st.name(), mark + "\n"@ + lines);
    assert("\n"@ + st.name() + (mark + "\n"@ + lines) =~= b);
    lemma_block_held(ts, states, j);
    let all = state_blocks(ts, states);
    let d = diagram_text(states, ts);
    chars::lemma_holds_part("worker/coordinator lifecycle\n"@, all, seq![]);
    assert("worker/coordinator lifecycle\n"@ + all + Seq::<char>::empty() =~= d);
    chars::lemma_contains_within(d, all, b);
    chars::lemma_contains_within(d, b, st.name());
    chars::lemma_contains_within(d, b, lines);
    chars::lemma_contains_within(d, lines, line);
}

proof fn lemma_leaving_holds(ts: Seq<Transition>, i: int)
    requires
        0 <= i < ts.len(),
    ensures
        leaving(ts, ts[i].from).contains((ts[i].event, ts[i].to)),
    decreases ts.len(),
{
    let st = ts[i].from;
    let before = leaving(ts.drop_last(), st);
    let all = leaving(ts, st);
    if i == ts.len() - 1 {
        assert(all.last() == (ts[i].event, ts[i].to));
        assert(all[all.len() - 1] == (ts[i].event, ts[i].to));
    } else {
        assert(ts.drop_last()[i] == ts[i]);
        lemma_leaving_holds(ts.drop_last(), i);
        let k = choose|k: int| 0 <= k < before.len() && before[k] == (ts[i].event, ts[i].to);
        assert(all[k] == before[k]);
    }
}

proof fn lemma_edge_line(es: Seq<(LifecycleEvent, LifecycleState)>, k: int)
    requires
        0 <= k < es.len(),
    ensures
        chars::contains_str(
            edge_lines(es),
            "  --"@ + es[k].0.name() + "--> "@ + es[k].1.name() + "\n"@,
        ),
    decreases es.len(),
{
    let before = edge_lines(es.drop_last());
    let e = es.last();
    let line = "  --"@ + e.0.name() + "--> "@ + e.1.name() + "\n"@;
    assert(edge_lines(es) =~= before + line);
    if k == es.len() - 1 {
        chars::lemma_holds_part(before, line, seq![]);
        assert(before + line + Seq::<char>::empty() =~= before + line);
    } else {
        assert(es.drop_last()[k] == es[k]);
        lemma_edge_line(es.drop_last(), k);
        chars::lemma_holds_part(seq![], before, line);
        assert(Seq::<char>::empty() + before + line =~= before + line);
        chars::lemma_contains_within(
            edge_lines(es),
            before,
            "  --"@ + es[k].0.name() + "--> "@ + es[k].1.name() + "\n"@,
        );
    }
}

proof fn lemma_block_held(ts: Seq<Transition>, states: Seq<LifecycleState>, j: int)
    requires
        0 <= j < states.len(),
    ensures
        chars::contains_str(state_blocks(ts, states), state_block(ts, states[j])),
    decreases states.len(),
{
    let before = state_blocks(ts, states.drop_last());
    let last = state_block(ts, states.last());
    if j == states.len() - 1 {
        chars::lemma_holds_part(before, last, seq![]);
        assert(before + last + Seq::<char>::empty() =~= before + last);
    } else {
        assert(states.drop_last()[j] == states[j]);
        lemma_block_held(ts, states.drop_last(), j);
        chars::lemma_holds_part(seq![], before, last);
        assert(Seq::<char>::empty() + before + last =~= before + last);
        chars::lemma_contains_within(state_blocks(ts, states), before, state_block(ts, states[j]));
    }
}

} // verus!
