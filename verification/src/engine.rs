//! One agentic turn: the loop between the model and the tools as a state machine.
//!
//! The caller performs the outside work and reports it: it asks the model, runs the
//! tools and prints. [`Turn`] decides: what the model is asked, how the conversation
//! grows, which calls are refused, and when the turn ends and with which answer.
use vstd::prelude::*;
use crate::activity;
use crate::backend::{self, CallV, Msg, MsgV, Role, ToolCall, ToolResult};
use crate::chars;
use crate::coordinator::Phase;
use crate::json::{Json, JsonV};
use crate::loopguard::{
    self,
    BatchGuard,
    BudgetPhase,
    CallBudgetAction,
    CallBudgetGuard,
    ExitReason,
    RepeatAction,
    RepeatGuard,
    SerialChainGuard,
    Stop,
};
use crate::md;
use crate::text::{self, str_view};

verus! {

/// Rounds of one turn.
pub const MAX_ITERATIONS: usize = 50;

pub const INTERRUPTED_TEXT: &'static str = "[turn interrupted by the operator before it finished]";

pub const LOOPED_TEXT: &'static str =
    "Stopped by the loop guard before a final answer was produced.";

pub const EXHAUSTED_TEXT: &'static str =
    "Stopped after exhausting the tool-call iteration budget without a final answer.";

/// The number in a setting's text when it is one in `1..=max`, else `default`.
pub open spec fn setting(value: Option<Seq<char>>, max: nat, default: nat) -> nat {
    match value {
        Some(v) => match chars::parse_nat(chars::trim(v), usize::MAX as nat) {
            Some(n) => if 1 <= n <= max {
                n
            } else {
                default
            },
            None => default,
        },
        None => default,
    }
}

fn resolve(value: Option<&str>, max: usize, default: usize) -> (r: usize)
    ensures
        r == setting(str_view(value), max as nat, default as nat),
{
    if let Some(v) = value {
        let all = text::chars_of(v);
        if let Some(n) = text::parse_usize(text::trim(&all)) {
            if 1 <= n && n <= max {
                return n;
            }
        }
    }
    default
}

/// The depth of a serial chain at which a turn yields, with the operator's override.
pub fn serial_chain_yield_depth(value: Option<&str>) -> (r: usize)
    ensures
        r == setting(str_view(value), 1000, loopguard::SERIAL_CHAIN_YIELD_DEPTH as nat),
        1 <= r <= 1000,
{
    resolve(value, 1000, loopguard::SERIAL_CHAIN_YIELD_DEPTH)
}

/// The soft and the hard call budget of a turn, with the operator's overrides.
pub fn call_budget(soft: Option<&str>, hard: Option<&str>) -> (r: (usize, usize))
    ensures
        r.0 == setting(str_view(soft), 100_000, loopguard::CALL_BUDGET_SOFT as nat),
        r.1 == setting(str_view(hard), 100_000, loopguard::CALL_BUDGET_HARD as nat),
        1 <= r.0 <= 100_000,
        1 <= r.1 <= 100_000,
{
    (
        resolve(soft, 100_000, loopguard::CALL_BUDGET_SOFT),
        resolve(hard, 100_000, loopguard::CALL_BUDGET_HARD),
    )
}

/// A reply of the model.
#[derive(Debug)]
pub struct Reply {
    pub text: String,
    pub tool_calls: Vec<ToolCall>,
    pub raw: Option<Json>,
    /// The text hit the output limit.
    pub truncated_text: bool,
    /// A tool call hit the output limit and was dropped.
    pub truncated_tool_call: bool,
}

pub struct ReplyV {
    pub text: Seq<char>,
    pub tool_calls: Seq<CallV>,
    pub raw: Option<JsonV>,
    pub truncated_text: bool,
    pub truncated_tool_call: bool,
}

impl Reply {
    pub open spec fn view(self) -> ReplyV {
        ReplyV {
            text: self.text@,
            tool_calls: backend::calls(self.tool_calls@),
            raw: backend::json_view(self.raw),
            truncated_text: self.truncated_text,
            truncated_tool_call: self.truncated_tool_call,
        }
    }
}

/// The state of a turn.
#[derive(Debug)]
pub struct Turn {
    /// Rounds begun.
    pub iteration: usize,
    /// Whether the last message is a partial answer that the model resumes.
    pub continuing: bool,
    /// A nudge for the next round's prompt.
    pub nudge: Option<String>,
    pub repeats: RepeatGuard,
    pub batch: BatchGuard,
    pub chain: SerialChainGuard,
    pub budget: CallBudgetGuard,
    /// The text of the round's reply.
    pub text: String,
    /// The depth of the serial chain when it is too deep.
    pub depth: Option<usize>,
    /// The calls of the turn when they are over the hard budget.
    pub spent: Option<usize>,
    /// The call that was repeated too often, and how often.
    pub looped: Option<(String, usize)>,
}

/// How a round begins.
#[derive(Debug)]
pub enum RoundStart {
    /// The turn is over: its answer, and why.
    Stop(String, ExitReason),
    /// The model is asked, with tools or without, after compaction was considered or
    /// not.
    Ask { system: String, tools: bool, compact: bool },
}

/// What follows from a reply.
#[derive(Debug)]
pub enum AfterReply {
    /// The turn is over: its answer, and why.
    Answer(String, ExitReason),
    /// The model is asked again.
    Again { narrate: bool },
    /// These calls are run.
    Run {
        calls: Vec<ToolCall>,
        narrate: bool,
        /// A batch nudge was armed.
        nudged: bool,
        budget: CallBudgetAction,
    },
}

/// Whether a call is run.
#[derive(Debug)]
pub enum Gate {
    /// It is run.
    Run { desc: String },
    /// It is not; this result stands for its own.
    Refused { desc: String, result: ToolResult, log: String },
}

/// How a round ends.
#[derive(Debug)]
pub enum RoundEnd {
    /// The turn is over: its answer, and why.
    Answer(String, ExitReason),
    /// The turn yields; [`Turn::yield_answer`] makes its answer.
    Yield { depth: usize },
    /// Another round.
    Next,
}

pub open spec fn or_empty(s: Option<String>) -> Seq<char> {
    match s {
        Some(t) => t@,
        None => seq![],
    }
}

/// The budget phase of a round.
pub open spec fn phase_of(iteration: nat) -> BudgetPhase {
    loopguard::phase_at(iteration, MAX_ITERATIONS as nat)
}

/// The system prompt of a round: the base, the nudge and the budget's suffix.
pub open spec fn effective_system(system: Seq<char>, nudge: Seq<char>, iteration: nat) -> Seq<char> {
    system + nudge + loopguard::budget_text(
        phase_of(iteration),
        (MAX_ITERATIONS - iteration) as nat,
    )
}

/// The conversation with the reply folded into its last message.
pub open spec fn merged(h: Seq<MsgV>, text: Seq<char>, calls: Seq<CallV>) -> Seq<MsgV> {
    if h.len() == 0 {
        h
    } else {
        h.drop_last().push(
            MsgV { text: h.last().text + text, raw: None, tool_calls: calls, ..h.last() },
        )
    }
}

/// The conversation with the reply as a new message.
pub open spec fn replied(h: Seq<MsgV>, r: ReplyV, calls: Seq<CallV>) -> Seq<MsgV> {
    h.push(
        MsgV {
            role: Role::Assistant,
            text: r.text,
            tool_calls: calls,
            tool_results: seq![],
            raw: r.raw,
        },
    )
}

/// The answer so far.
pub open spec fn joined(h: Seq<MsgV>, continuing: bool, text: Seq<char>) -> Seq<char> {
    if continuing && h.len() > 0 {
        h.last().text + text
    } else {
        text
    }
}

/// What follows from a reply.
pub enum Verdict {
    Answer(Seq<char>),
    Again { narrate: bool },
    Run { narrate: bool },
}

/// What follows from a reply in round `iteration`: the verdict, whether the answer
/// is still being resumed, and the conversation.
pub open spec fn after_reply(
    iteration: nat,
    continuing: bool,
    prefill: bool,
    h: Seq<MsgV>,
    r: ReplyV,
) -> (Verdict, bool, Seq<MsgV>) {
    let speaks = !chars::blank(r.text);
    let done = r.tool_calls.len() == 0;
    if phase_of(iteration) == BudgetPhase::ForceSummarize {
        (
            Verdict::Answer(
                loopguard::bannered(
                    Stop::ForcedSummarize { iterations: iteration },
                    joined(h, continuing, r.text),
                ),
            ),
            continuing,
            if continuing {
                merged(h, r.text, seq![])
            } else {
                replied(h, r, seq![])
            },
        )
    } else if continuing {
        let h2 = merged(h, r.text, r.tool_calls);
        if done && r.truncated_text {
            (Verdict::Again { narrate: false }, true, h2)
        } else if done {
            (Verdict::Answer(joined(h, true, r.text)), false, h2)
        } else {
            (Verdict::Run { narrate: speaks }, false, h2)
        }
    } else {
        let h2 = replied(h, r, r.tool_calls);
        if r.truncated_tool_call {
            (Verdict::Again { narrate: speaks }, false, h2)
        } else if !done {
            (Verdict::Run { narrate: speaks }, false, h2)
        } else if r.truncated_text && prefill {
            (Verdict::Again { narrate: false }, true, h2)
        } else {
            (Verdict::Answer(r.text), false, h2)
        }
    }
}

/// A round of exactly one batchable read.
pub open spec fn lone_read(calls: Seq<CallV>) -> bool {
    calls.len() == 1 && loopguard::batchable(calls[0].name)
}

fn merge(history: &mut Vec<Msg>, reply_text: &str, calls: Vec<ToolCall>) -> (r: String)
    ensures
        backend::messages(final(history)@) == merged(
            backend::messages(old(history)@),
            reply_text@,
            backend::calls(calls@),
        ),
        r@ == joined(backend::messages(old(history)@), true, reply_text@),
{
    let ghost h = backend::messages(history@);
    match history.pop() {
        Some(last) => {
            let mut all = last.text.clone();
            all.push_str(reply_text);
            let answer = all.clone();
            history.push(
                Msg {
                    role: last.role,
                    text: all,
                    tool_calls: calls,
                    tool_results: last.tool_results,
                    raw: None,
                },
            );
            assert(backend::messages(history@) =~= merged(h, reply_text@, backend::calls(calls@)));
            answer
        },
        None => {
            assert(backend::messages(history@) =~= h);
            reply_text.to_owned()
        },
    }
}

fn push_reply(history: &mut Vec<Msg>, reply_text: &str, calls: Vec<ToolCall>, raw: Option<Json>)
    ensures
        backend::messages(final(history)@) == backend::messages(old(history)@).push(
            MsgV {
                role: Role::Assistant,
                text: reply_text@,
                tool_calls: backend::calls(calls@),
                tool_results: seq![],
                raw: backend::json_view(raw),
            },
        ),
{
    let ghost h = backend::messages(history@);
    let m = Msg {
        role: Role::Assistant,
        text: reply_text.to_owned(),
        tool_calls: calls,
        tool_results: Vec::new(),
        raw,
    };
    let ghost mv = MsgV {
        role: Role::Assistant,
        text: reply_text@,
        tool_calls: backend::calls(calls@),
        tool_results: seq![],
        raw: backend::json_view(raw),
    };
    assert(m.view() =~= mv);
    history.push(m);
    assert(backend::messages(history@) =~= h.push(mv));
}

impl Turn {
    /// A turn that has not begun.
    pub fn new(depth: usize, soft: usize, hard: usize) -> (r: Turn)
        ensures
            r.iteration == 0,
            !r.continuing,
            r.nudge is None,
            r.repeats.view() == Map::<Seq<char>, usize>::empty(),
            r.batch.spec_streak() == 0,
            !r.batch.spec_nudged(),
            r.chain.spec_depth() == 0,
            r.chain.spec_threshold() == depth,
            r.budget.spec_count() == 0,
            !r.budget.spec_warned(),
            r.budget.spec_soft() == soft,
            r.budget.spec_hard() == hard,
            r.text@.len() == 0,
            r.depth is None,
            r.spent is None,
            r.looped is None,
    {
        Turn {
            iteration: 0,
            continuing: false,
            nudge: None,
            repeats: RepeatGuard::default(),
            batch: BatchGuard::default(),
            chain: SerialChainGuard::with_threshold(depth),
            budget: CallBudgetGuard::with_budget(soft, hard),
            text: String::new(),
            depth: None,
            spent: None,
            looped: None,
        }
    }

    /// Begins a round. `interrupted` says that the operator asked a nested session
    /// to stop.
    pub fn next_round(&mut self, system: &str, nested: bool, interrupted: bool) -> (r: RoundStart)
        ensures
            match r {
                RoundStart::Stop(answer, why) => {
                    ||| old(self).iteration >= MAX_ITERATIONS && *final(self) == *old(self)
                        && why.view() == (Stop::BudgetExhausted {
                        iterations: MAX_ITERATIONS as nat,
                    }) && answer@ == loopguard::bannered(why.view(), EXHAUSTED_TEXT@)
                    ||| old(self).iteration < MAX_ITERATIONS && nested && interrupted && *final(self)
                        == (Turn { iteration: (old(self).iteration + 1) as usize, ..*old(self) })
                        && why.view() == Stop::Interrupted && answer@ == loopguard::bannered(
                        why.view(),
                        INTERRUPTED_TEXT@,
                    )
                },
                RoundStart::Ask { system: s, tools, compact } => {
                    &&& old(self).iteration < MAX_ITERATIONS
                    &&& !(nested && interrupted)
                    &&& *final(self) == (Turn {
                        iteration: (old(self).iteration + 1) as usize,
                        nudge: None,
                        ..*old(self)
                    })
                    &&& s@ == effective_system(
                        system@,
                        or_empty(old(self).nudge),
                        final(self).iteration as nat,
                    )
                    &&& tools == (phase_of(final(self).iteration as nat)
                        != BudgetPhase::ForceSummarize)
                    &&& compact == !old(self).continuing
                },
            },
    {
        if self.iteration >= MAX_ITERATIONS {
            let reason = ExitReason::BudgetExhausted { iterations: MAX_ITERATIONS };
            return RoundStart::Stop(loopguard::with_banner(&reason, EXHAUSTED_TEXT), reason);
        }
        self.iteration = self.iteration + 1;
        if nested && interrupted {
            let reason = ExitReason::Interrupted;
            return RoundStart::Stop(loopguard::with_banner(&reason, INTERRUPTED_TEXT), reason);
        }
        let phase = loopguard::budget_phase(self.iteration, MAX_ITERATIONS);
        let mut s = system.to_owned();
        match &self.nudge {
            Some(n) => {
                s.push_str(n.as_str());
            },
            None => {
                assert(s@ + seq![] =~= s@);
            },
        }
        s.push_str(loopguard::budget_suffix(phase, MAX_ITERATIONS - self.iteration).as_str());
        self.nudge = None;
        RoundStart::Ask {
            system: s,
            tools: !matches!(phase, BudgetPhase::ForceSummarize),
            compact: !self.continuing,
        }
    }

    /// Takes the model's reply into the conversation and decides what follows.
    /// `prefill` says whether the backend resumes a trailing partial answer.
    pub fn reply(&mut self, history: &mut Vec<Msg>, prefill: bool, reply: Reply) -> (r: AfterReply)
        ensures
            ({
                let (verdict, continuing, h) = after_reply(
                    old(self).iteration as nat,
                    old(self).continuing,
                    prefill,
                    backend::messages(old(history)@),
                    reply.view(),
                );
                &&& backend::messages(final(history)@) == h
                &&& final(self).continuing == continuing
                &&& match r {
                    AfterReply::Answer(a, why) => verdict == Verdict::Answer(a@) && *final(self)
                        == (Turn { continuing, ..*old(self) }) && why.view() == (if phase_of(
                        old(self).iteration as nat,
                    ) == BudgetPhase::ForceSummarize {
                        Stop::ForcedSummarize { iterations: old(self).iteration as nat }
                    } else {
                        Stop::Completed
                    }),
                    AfterReply::Again { narrate } => verdict == (Verdict::Again { narrate })
                        && *final(self) == (Turn { continuing, ..*old(self) }),
                    AfterReply::Run { calls, narrate, nudged, budget } => {
                        &&& verdict == (Verdict::Run { narrate })
                        &&& backend::calls(calls@) == reply.view().tool_calls
                        &&& final(self).text@ == reply.text@
                        &&& final(self).iteration == old(self).iteration
                        &&& final(self).repeats == old(self).repeats
                        &&& final(self).looped is None
                        &&& old(self).noted(*final(self), reply.view().tool_calls, nudged, budget)
                    },
                }
            }),
    {
        let phase = loopguard::budget_phase(self.iteration, MAX_ITERATIONS);
        let ghost h = backend::messages(history@);
        let ghost rv = reply.view();
        let ghost no_calls = Seq::<CallV>::empty();
        let all = text::chars_of(reply.text.as_str());
        let speaks = !text::blank(&all);
        if matches!(phase, BudgetPhase::ForceSummarize) {
            let calls: Vec<ToolCall> = Vec::new();
            assert(backend::calls(calls@) =~= no_calls);
            let answer = if self.continuing {
                merge(history, reply.text.as_str(), calls)
            } else {
                push_reply(history, reply.text.as_str(), calls, reply.raw);
                reply.text
            };
            let reason = ExitReason::ForcedSummarize { iterations: self.iteration };
            return AfterReply::Answer(loopguard::with_banner(&reason, answer.as_str()), reason);
        }
        assert(reply.tool_calls@.len() == rv.tool_calls.len());
        if self.continuing {
            let answer = merge(
                history,
                reply.text.as_str(),
                backend::copy_calls(&reply.tool_calls),
            );
            if reply.truncated_text && reply.tool_calls.len() == 0 {
                return AfterReply::Again { narrate: false };
            }
            self.continuing = false;
            if reply.tool_calls.len() == 0 {
                return AfterReply::Answer(answer, ExitReason::Completed);
            }
        } else {
            push_reply(
                history,
                reply.text.as_str(),
                backend::copy_calls(&reply.tool_calls),
                reply.raw,
            );
            if reply.truncated_tool_call {
                return AfterReply::Again { narrate: speaks };
            }
            if reply.tool_calls.len() == 0 {
                if reply.truncated_text && prefill {
                    self.continuing = true;
                    return AfterReply::Again { narrate: false };
                }
                return AfterReply::Answer(reply.text, ExitReason::Completed);
            }
        }
        let (nudged, budget) = self.note_round(&reply.tool_calls);
        self.text = reply.text;
        self.looped = None;
        AfterReply::Run { calls: reply.tool_calls, narrate: speaks, nudged, budget }
    }

    /// `next` is this turn with the guards told of a round of `calls`.
    pub open spec fn noted(
        self,
        next: Turn,
        calls: Seq<CallV>,
        nudged: bool,
        budget: CallBudgetAction,
    ) -> bool {
        let n = calls.len();
        &&& next.batch.spec_streak() == (if lone_read(calls) {
            loopguard::bump(self.batch.spec_streak())
        } else {
            0
        })
        &&& nudged == (lone_read(calls) && next.batch.spec_streak() >= loopguard::BATCH_NUDGE_STREAK
            && !self.batch.spec_nudged())
        &&& next.batch.spec_nudged() == (lone_read(calls) && (self.batch.spec_nudged() || nudged))
        &&& or_empty(next.nudge) == (if nudged {
            loopguard::batch_nudge_text()
        } else {
            or_empty(self.nudge)
        })
        &&& next.chain.spec_threshold() == self.chain.spec_threshold()
        &&& next.chain.spec_depth() == (if n == 1 {
            loopguard::bump(self.chain.spec_depth())
        } else {
            0
        })
        &&& next.depth == (if n == 1 && next.chain.spec_depth() > self.chain.spec_threshold() {
            Some(next.chain.spec_depth() as usize)
        } else {
            None::<usize>
        })
        &&& next.budget.spec_soft() == self.budget.spec_soft()
        &&& next.budget.spec_hard() == self.budget.spec_hard()
        &&& next.budget.spec_count() == (if self.budget.spec_count() + n > usize::MAX {
            usize::MAX as nat
        } else {
            self.budget.spec_count() + n
        })
        &&& budget == (if next.budget.spec_count() > self.budget.spec_hard() {
            CallBudgetAction::HardYield { count: next.budget.spec_count() as usize }
        } else if next.budget.spec_count() > self.budget.spec_soft()
            && !self.budget.spec_warned() {
            CallBudgetAction::SoftWarn { count: next.budget.spec_count() as usize }
        } else {
            CallBudgetAction::Continue
        })
        &&& next.budget.spec_warned() == (self.budget.spec_warned() || budget is SoftWarn)
        &&& next.spent == (if next.budget.spec_count() > self.budget.spec_hard() {
            Some(next.budget.spec_count() as usize)
        } else {
            None::<usize>
        })
    }

    fn note_round(&mut self, round: &Vec<ToolCall>) -> (r: (bool, CallBudgetAction))
        ensures
            old(self).noted(*final(self), backend::calls(round@), r.0, r.1),
            final(self).iteration == old(self).iteration,
            final(self).continuing == old(self).continuing,
            final(self).repeats == old(self).repeats,
    {
        let ghost cs = backend::calls(round@);
        let mut names: Vec<&str> = Vec::new();
        let mut i: usize = 0;
        while i < round.len()
            invariant
                i <= round@.len(),
                names@.len() == i,
                forall|j: int| 0 <= j < i ==> (#[trigger] names@[j])@ == round@[j].name@,
            decreases round@.len() - i,
        {
            names.push(round[i].name.as_str());
            i += 1;
        }
        proof {
            if cs.len() == 1 {
                assert(names@[0]@ == round@[0].name@);
                assert(cs[0].name == round@[0].name@);
            }
            assert(loopguard::lone_read(names@) == lone_read(cs));
        }
        let mut nudged = false;
        if let Some(n) = self.batch.record(&names) {
            nudged = true;
            self.nudge = Some(n);
        }
        self.depth = self.chain.record(round.len());
        let budget = self.budget.record(round.len());
        self.spent = match budget {
            CallBudgetAction::HardYield { count } => Some(count),
            _ => None,
        };
        (nudged, budget)
    }

    /// Decides whether a call is run. One that was asked for too often is not: it is
    /// answered by a corrective result, and a confirmed loop ends the turn.
    pub fn gate(&mut self, call: &ToolCall) -> (r: Gate)
        ensures
            ({
                let c = call.view();
                let asked = loopguard::call_text(c.name, c.args);
                let count = loopguard::bump(old(self).repeats.count(asked));
                let action = loopguard::action_for(count);
                let desc = activity::activity(c);
                &&& final(self).repeats.view() == old(self).repeats.view().insert(
                    asked,
                    count as usize,
                )
                &&& match r {
                    Gate::Run { desc: d } => action == RepeatAction::Allow && d@ == desc,
                    Gate::Refused { desc: d, result, log } => action != RepeatAction::Allow && d@
                        == desc && result.view() == backend::plain_result(
                        c.id,
                        loopguard::blocked_text(desc, count),
                        true,
                    ) && log@ == loopguard::repeat_log_text(desc, count, action),
                }
                &&& match final(self).looped {
                    Some((d, n)) => if action == RepeatAction::Break {
                        d@ == desc && n == count
                    } else {
                        final(self).looped == old(self).looped
                    },
                    None => action != RepeatAction::Break && old(self).looped is None,
                }
                &&& *final(self) == (Turn {
                    repeats: final(self).repeats,
                    looped: final(self).looped,
                    ..*old(self)
                })
            }),
    {
        let desc = activity::call_line(call);
        let count: usize = self.repeats.record(call.name.as_str(), &call.args);
        let action = loopguard::repeat_action(count);
        match action {
            RepeatAction::Allow => Gate::Run { desc },
            _ => {
                let result = ToolResult::text(
                    call.id.as_str(),
                    loopguard::blocked_result_text(desc.as_str(), count).as_str(),
                    true,
                );
                let log = loopguard::repeat_log_line(desc.as_str(), count, action);
                if matches!(action, RepeatAction::Break) {
                    self.looped = Some((desc.clone(), count));
                }
                Gate::Refused { desc, result, log }
            },
        }
    }

    /// Ends a round: its results go into the conversation. A confirmed loop comes
    /// first, a deep serial chain second, the call budget third.
    pub fn close_round(&mut self, history: &mut Vec<Msg>, results: Vec<ToolResult>) -> (r: RoundEnd)
        ensures
            *final(self) == *old(self),
            backend::messages(final(history)@) == backend::messages(old(history)@).push(
                backend::results_message(backend::results(results@)),
            ),
            match r {
                RoundEnd::Answer(a, why) => match old(self).looped {
                    Some((call, count)) => why.view() == (Stop::LoopDetected {
                        call: call@,
                        count: count as nat,
                    }) && a@ == loopguard::bannered(
                        why.view(),
                        old(self).partial(LOOPED_TEXT@),
                    ),
                    None => old(self).depth is None && (old(self).spent matches Some(count)
                        && why.view() == (Stop::CallBudgetExceeded { count: count as nat }) && a@
                        == loopguard::bannered(
                        why.view(),
                        old(self).partial(spent_text(count as nat)),
                    )),
                },
                RoundEnd::Yield { depth } => old(self).looped is None && old(self).depth == Some(
                    depth,
                ),
                RoundEnd::Next => old(self).looped is None && old(self).depth is None
                    && old(self).spent is None,
            },
    {
        let ghost h = backend::messages(history@);
        history.push(Msg::tool_results(results));
        assert(backend::messages(history@) =~= h.push(
            backend::results_message(backend::results(results@)),
        ));
        if let Some((call, count)) = &self.looped {
            let reason = ExitReason::LoopDetected { call: call.clone(), count: *count };
            let body = self.partial_text(LOOPED_TEXT);
            return RoundEnd::Answer(loopguard::with_banner(&reason, body.as_str()), reason);
        }
        if let Some(depth) = self.depth {
            return RoundEnd::Yield { depth };
        }
        if let Some(count) = self.spent {
            let reason = ExitReason::CallBudgetExceeded { count };
            let mut fallback = "Yielded after ".to_owned();
            text::push_usize(&mut fallback, count);
            fallback.push_str(SPENT_TAIL);
            let body = self.partial_text(fallback.as_str());
            return RoundEnd::Answer(loopguard::with_banner(&reason, body.as_str()), reason);
        }
        RoundEnd::Next
    }

    /// The round's text, or `fallback` when it says nothing.
    pub open spec fn partial(self, fallback: Seq<char>) -> Seq<char> {
        if chars::blank(self.text@) {
            fallback
        } else {
            self.text@
        }
    }

    fn partial_text(&self, fallback: &str) -> (r: String)
        ensures
            r@ == self.partial(fallback@),
    {
        let v = text::chars_of(self.text.as_str());
        if text::blank(&v) {
            fallback.to_owned()
        } else {
            self.text.clone()
        }
    }

    /// The answer of a turn that yields because of a serial chain, with the advisor's
    /// directive for the next round.
    pub fn yield_answer(&self, depth: usize, directive: Option<&str>) -> (r: String)
        ensures
            r@ == loopguard::bannered(
                Stop::SerialChainYield { depth: depth as nat },
                self.partial(chain_text(depth as nat)) + (match directive {
                    Some(d) => "\n\n"@ + d@,
                    None => seq![],
                }),
            ),
    {
        let mut fallback = "Yielded after a deep serial call chain (".to_owned();
        text::push_usize(&mut fallback, depth);
        fallback.push_str(CHAIN_TAIL);
        let mut body = self.partial_text(fallback.as_str());
        match directive {
            Some(d) => {
                let mut tail = "\n\n".to_owned();
                tail.push_str(d);
                body.push_str(tail.as_str());
            },
            None => {
                assert(body@ + seq![] =~= body@);
            },
        }
        loopguard::with_banner(&ExitReason::SerialChainYield { depth }, body.as_str())
    }
}

/// The notice of a streak of lone reads.
pub open spec fn batch_notice() -> Seq<char> {
    "\x1b[2m  ⚠ batch-guard: "@ + chars::dec(loopguard::BATCH_NUDGE_STREAK as nat)
        + " single-read turns in a row — nudging to batch independent reads\x1b[0m"@
}

/// The notice of a serial chain.
pub open spec fn chain_notice(depth: nat) -> Seq<char> {
    "\x1b[2m  ⚠ serial-chain-guard: "@ + chars::dec(depth)
        + " consecutive single-call rounds — yielding to re-plan toward batching\x1b[0m"@
}

/// The notice of a crossed call budget.
pub open spec fn budget_notice(action: CallBudgetAction, soft: nat, hard: nat) -> Option<Seq<char>> {
    match action {
        CallBudgetAction::SoftWarn { count } => Some(
            "\x1b[2m  ⚠ call-budget-guard: "@ + chars::dec(count as nat)
                + " tool calls this turn (soft "@ + chars::dec(soft)
                + ") — consider converging\x1b[0m"@,
        ),
        CallBudgetAction::HardYield { count } => Some(
            "\x1b[2m  ⚠ call-budget-guard: "@ + chars::dec(count as nat)
                + " tool calls this turn (hard "@ + chars::dec(hard)
                + ") — yielding to resume with fresh context\x1b[0m"@,
        ),
        CallBudgetAction::Continue => None,
    }
}

/// The notices of a round, in the order in which they are printed.
pub open spec fn notices(
    nudged: bool,
    depth: Option<usize>,
    action: CallBudgetAction,
    soft: nat,
    hard: nat,
) -> Seq<Seq<char>> {
    (if nudged {
        seq![batch_notice()]
    } else {
        seq![]
    }) + (match depth {
        Some(d) => seq![chain_notice(d as nat)],
        None => seq![],
    }) + (match budget_notice(action, soft, hard) {
        Some(n) => seq![n],
        None => seq![],
    })
}

/// What the guards print of a round: whether a nudge was armed, how deep the serial
/// chain is when it is too deep, and the call budget when it was crossed.
pub fn guard_notices(
    nudged: bool,
    depth: Option<usize>,
    action: CallBudgetAction,
    soft: usize,
    hard: usize,
) -> (r: Vec<String>)
    ensures
        text::str_views(r@) == notices(nudged, depth, action, soft as nat, hard as nat),
{
    let mut out: Vec<String> = Vec::new();
    if nudged {
        let mut l = "\x1b[2m  ⚠ batch-guard: ".to_owned();
        text::push_usize(&mut l, loopguard::BATCH_NUDGE_STREAK);
        l.push_str(" single-read turns in a row — nudging to batch independent reads\x1b[0m");
        out.push(l);
    }
    if let Some(d) = depth {
        let mut l = "\x1b[2m  ⚠ serial-chain-guard: ".to_owned();
        text::push_usize(&mut l, d);
        l.push_str(" consecutive single-call rounds — yielding to re-plan toward batching\x1b[0m");
        out.push(l);
    }
    match action {
        CallBudgetAction::SoftWarn { count } => {
            let mut l = "\x1b[2m  ⚠ call-budget-guard: ".to_owned();
            text::push_usize(&mut l, count);
            l.push_str(" tool calls this turn (soft ");
            text::push_usize(&mut l, soft);
            l.push_str(") — consider converging\x1b[0m");
            out.push(l);
        },
        CallBudgetAction::HardYield { count } => {
            let mut l = "\x1b[2m  ⚠ call-budget-guard: ".to_owned();
            text::push_usize(&mut l, count);
            l.push_str(" tool calls this turn (hard ");
            text::push_usize(&mut l, hard);
            l.push_str(") — yielding to resume with fresh context\x1b[0m");
            out.push(l);
        },
        CallBudgetAction::Continue => {},
    }
    assert(text::str_views(out@) =~= notices(nudged, depth, action, soft as nat, hard as nat));
    out
}

pub const SPENT_TAIL: &'static str =
    " tool calls this turn (per-turn hard budget) to spread load across the rate-limit window and resume with fresh context.";

pub const CHAIN_TAIL: &'static str =
    " consecutive single-call rounds) to re-plan toward batching independent calls.";

/// What a turn says that yields over its call budget without text.
pub open spec fn spent_text(count: nat) -> Seq<char> {
    "Yielded after "@ + chars::dec(count) + SPENT_TAIL@
}

/// What a turn says that yields on a serial chain without text.
pub open spec fn chain_text(depth: nat) -> Seq<char> {
    "Yielded after a deep serial call chain ("@ + chars::dec(depth) + CHAIN_TAIL@
}

/// Law: from the round at which a summary is forced on, every reply ends the turn
/// with an answer. That round comes before the cap, so the cap is never hit
/// empty-handed.
pub proof fn forced_rounds_answer(
    iteration: nat,
    continuing: bool,
    prefill: bool,
    h: Seq<MsgV>,
    r: ReplyV,
)
    requires
        45 <= iteration <= MAX_ITERATIONS,
    ensures
        after_reply(iteration, continuing, prefill, h, r).0 == Verdict::Answer(
            loopguard::bannered(
                Stop::ForcedSummarize { iterations: iteration },
                if continuing && h.len() > 0 {
                    h.last().text + r.text
                } else {
                    r.text
                },
            ),
        ),
        phase_of(iteration) == BudgetPhase::ForceSummarize,
        phase_of(44) != BudgetPhase::ForceSummarize,
{
}

/// Law: before the forced rounds a turn ends only on a whole reply: one that has no tool
/// call, given or dropped, and whose text was not cut off where the model can resume it.
/// A dropped tool call and a resumable text have the model asked again, and a reply with
/// tool calls has them run. What is answered is the text that the conversation ends with.
pub proof fn only_whole_replies_end_a_turn(
    iteration: nat,
    continuing: bool,
    prefill: bool,
    h: Seq<MsgV>,
    r: ReplyV,
)
    requires
        iteration < 45,
        continuing ==> h.len() > 0,
    ensures
        ({
            let (verdict, resumed, h2) = after_reply(iteration, continuing, prefill, h, r);
            let calls = r.tool_calls.len();
            &&& !continuing && r.truncated_tool_call ==> verdict is Again && !resumed
            &&& calls > 0 && (continuing || !r.truncated_tool_call) ==> verdict is Run
            &&& calls == 0 && r.truncated_text && continuing ==> verdict is Again && resumed
            &&& calls == 0 && r.truncated_text && !continuing && !r.truncated_tool_call && prefill
                ==> verdict is Again && resumed
            &&& calls == 0 && !r.truncated_text && (continuing || !r.truncated_tool_call)
                ==> verdict == Verdict::Answer(h2.last().text)
            &&& calls == 0 && r.truncated_text && !continuing && !r.truncated_tool_call && !prefill
                ==> verdict == Verdict::Answer(r.text)
            &&& resumed ==> verdict is Again && r.truncated_text
        }),
{
}

/// Law: what the model says beside its tool calls, or beside one that was dropped, is
/// told; what it will resume is not told twice.
pub proof fn words_beside_calls_are_told(
    iteration: nat,
    continuing: bool,
    prefill: bool,
    h: Seq<MsgV>,
    r: ReplyV,
    i: int,
)
    requires
        iteration < 45,
    ensures
        ({
            let (verdict, resumed, _) = after_reply(iteration, continuing, prefill, h, r);
            let said = 0 <= i < r.text.len() && !chars::is_ws(r.text[i]);
            &&& said && !resumed && verdict is Again ==> verdict == (Verdict::Again {
                narrate: true,
            })
            &&& said && verdict is Run ==> verdict == (Verdict::Run { narrate: true })
            &&& r.text.len() == 0 ==> verdict != (Verdict::Again { narrate: true }) && verdict != (
            Verdict::Run { narrate: true })
            &&& resumed ==> verdict == (Verdict::Again { narrate: false })
        }),
{
}

/// Law: a reply is added to the conversation and takes nothing from it. A fresh reply is
/// a message of its own; a resumed one goes on in the last message, which keeps its role
/// and its beginning. The message carries the calls that are run, and none in the forced
/// rounds.
pub proof fn replies_extend_the_conversation(
    iteration: nat,
    continuing: bool,
    prefill: bool,
    h: Seq<MsgV>,
    r: ReplyV,
)
    requires
        iteration <= MAX_ITERATIONS,
        continuing ==> h.len() > 0,
    ensures
        ({
            let h2 = after_reply(iteration, continuing, prefill, h, r).2;
            let calls = if iteration < 45 {
                r.tool_calls
            } else {
                seq![]
            };
            &&& !continuing ==> h2.len() == h.len() + 1 && h2.drop_last() == h && h2.last() == (
            MsgV {
                role: Role::Assistant,
                text: r.text,
                tool_calls: calls,
                tool_results: seq![],
                raw: r.raw,
            })
            &&& continuing ==> h2.len() == h.len() && h2.drop_last() == h.drop_last() && h2.last()
                == (MsgV {
                role: h.last().role,
                text: h.last().text + r.text,
                tool_calls: calls,
                tool_results: h.last().tool_results,
                raw: None,
            })
        }),
{
    let h2 = after_reply(iteration, continuing, prefill, h, r).2;
    if continuing {
        assert(h2.drop_last() =~= h.drop_last());
    } else {
        assert(h2.drop_last() =~= h);
    }
}

/// Law: an answer that comes in pieces is the pieces in their order: a reply that is
/// resumed and then ended answers with both texts, one behind the other.
pub proof fn resumed_answers_are_whole(iteration: nat, h: Seq<MsgV>, first: ReplyV, rest: ReplyV)
    requires
        iteration < 44,
        first.tool_calls.len() == 0,
        first.truncated_text,
        !first.truncated_tool_call,
        rest.tool_calls.len() == 0,
        !rest.truncated_text,
    ensures
        ({
            let (_, resumed, h2) = after_reply(iteration, false, true, h, first);
            let (verdict, _, h3) = after_reply(iteration + 1, resumed, true, h2, rest);
            &&& verdict == Verdict::Answer(first.text + rest.text)
            &&& h3.len() == h.len() + 1
        }),
{
}

/// Law: the base prompt is what every round begins with, and all of it while the budget
/// is ample and nothing is to be nudged, so that a cache of it stays good.
pub proof fn the_base_prompt_is_stable(system: Seq<char>, nudge: Seq<char>, iteration: nat)
    ensures
        effective_system(system, nudge, iteration).take(system.len() as int) == system,
        phase_of(iteration) == BudgetPhase::Normal ==> effective_system(system, seq![], iteration)
            == system,
{
    let tail = loopguard::budget_text(phase_of(iteration), (MAX_ITERATIONS - iteration) as nat);
    assert((system + nudge + tail).take(system.len() as int) =~= system);
    assert(system + Seq::<char>::empty() + Seq::<char>::empty() =~= system);
}

/// Message `i`, if it has tool calls, is followed by one with as many results.
pub open spec fn answered(h: Seq<MsgV>, i: int) -> bool {
    h[i].tool_calls.len() > 0 ==> i + 1 < h.len() && h[i + 1].role == Role::User && h[i
        + 1].tool_results.len() == h[i].tool_calls.len()
}

/// Every message with tool calls is followed by one with as many results.
pub open spec fn settled(h: Seq<MsgV>) -> bool {
    forall|i: int| 0 <= i < h.len() ==> #[trigger] answered(h, i)
}

/// Law: a turn never leaves a tool call without its result. After a reply that runs
/// no tool the conversation is settled; after one that does it is settled once the
/// round's results are in. (A reply with a dropped call carries no other.)
pub proof fn conversation_stays_settled(
    iteration: nat,
    continuing: bool,
    prefill: bool,
    h: Seq<MsgV>,
    r: ReplyV,
    results: Seq<backend::ResultV>,
)
    requires
        settled(h),
        r.truncated_tool_call ==> r.tool_calls.len() == 0,
        continuing ==> h.len() > 0,
    ensures
        ({
            let (verdict, _, h2) = after_reply(iteration, continuing, prefill, h, r);
            &&& !(verdict is Run) ==> settled(h2)
            &&& verdict is Run && results.len() == r.tool_calls.len() ==> settled(
                h2.push(backend::results_message(results)),
            )
        }),
{
    let (verdict, _, h2) = after_reply(iteration, continuing, prefill, h, r);
    let n = h2.len();
    let h3 = h2.push(backend::results_message(results));
    assert forall|i: int| 0 <= i < n - 1 implies answered(h2, i) && answered(h3, i) by {
        assert(answered(h, i));
        assert(h2[i] == h[i]);
        assert(h3[i] == h[i] && h3[i + 1] == h2[i + 1]);
        if i + 1 < n - 1 {
            assert(h2[i + 1] == h[i + 1]);
        } else if continuing {
            assert(n == h.len());
            assert(h2[i + 1].role == h[i + 1].role);
            assert(h2[i + 1].tool_results == h[i + 1].tool_results);
        } else {
            assert(n == h.len() + 1);
        }
    }
    assert(h2[n - 1].tool_calls.len() > 0 ==> verdict is Run);
    assert(answered(h3, n as int));
    if verdict is Run && results.len() == r.tool_calls.len() {
        assert(h3[n - 1] == h2[n - 1]);
        assert(answered(h3, n - 1));
    }
}

/// The result that stands for a call that a hook refused.
pub fn denied_result(call: &ToolCall, reason: &str) -> (r: ToolResult)
    ensures
        r.view() == backend::plain_result(
            call.id@,
            "Blocked by a PreToolUse hook: "@ + reason@,
            true,
        ),
{
    let mut out = "Blocked by a PreToolUse hook: ".to_owned();
    out.push_str(reason);
    ToolResult::text(call.id.as_str(), out.as_str(), true)
}

/// The result that stands for a call that an earlier run has completed.
pub fn replayed_result(call: &ToolCall, output: &str, is_error: bool) -> (r: ToolResult)
    ensures
        r.view() == backend::plain_result(call.id@, output@, is_error),
{
    ToolResult::text(call.id.as_str(), output, is_error)
}

/// The input of a turn with the previous output in front of it: only at the start
/// of a conversation, and only when there is something to show.
pub open spec fn seeded(history_empty: bool, prev: Option<Seq<char>>, input: Seq<char>) -> Seq<char> {
    match prev {
        Some(p) => if history_empty && !chars::blank(p) {
            "[Previous command output, for reference:\n"@ + p + "\n]\n\n"@ + input
        } else {
            input
        },
        None => input,
    }
}

/// Prepends the previous output to a turn's input.
pub fn seed_context(history_empty: bool, prev: Option<String>, input: String) -> (r: String)
    ensures
        r@ == seeded(history_empty, backend::text_view(prev), input@),
{
    if let Some(p) = &prev {
        let v = text::chars_of(p.as_str());
        if history_empty && !text::blank(&v) {
            let mut out = "[Previous command output, for reference:\n".to_owned();
            out.push_str(p.as_str());
            out.push_str("\n]\n\n");
            out.push_str(input.as_str());
            return out;
        }
    }
    input
}

/// Puts the note on a matching skill in front of the input, with a reminder of the
/// repository's own conventions when there are any.
pub fn with_skill_note(note: &str, reminder: Option<&str>, input: &str) -> (r: String)
    ensures
        r@ == (match reminder {
            Some(m) => note@ + "\n"@ + m@,
            None => note@,
        }) + "\n\n"@ + input@,
{
    let mut out = note.to_owned();
    if let Some(m) = reminder {
        out.push_str("\n");
        out.push_str(m);
    }
    out.push_str("\n\n");
    out.push_str(input);
    out
}

/// A skill that could be installed for a task.
#[derive(Debug)]
pub struct Recommendation {
    pub reference: String,
    pub note: String,
}

/// Puts the recommendation of a skill in front of the input, unless the task is not
/// worth one, there is none, or it was made before.
pub fn recommend_skill(
    worthy: bool,
    found: Option<Recommendation>,
    suggested: &mut Vec<String>,
    input: String,
) -> (r: String)
    ensures
        ({
            let before = text::str_views(old(suggested)@);
            if worthy && found is Some && !before.contains(found->0.reference@) {
                r@ == found->0.note@ + "\n\n"@ + input@ && text::str_views(final(suggested)@)
                    == before.push(found->0.reference@)
            } else {
                r@ == input@ && final(suggested)@ == old(suggested)@
            }
        }),
{
    if !worthy {
        return input;
    }
    if let Some(rec) = found {
        let ghost before = text::str_views(suggested@);
        if !text::holds(suggested, rec.reference.as_str()) {
            suggested.push(rec.reference);
            assert(text::str_views(suggested@) =~= before.push(rec.reference@));
            let mut out = rec.note;
            out.push_str("\n\n");
            out.push_str(input.as_str());
            return out;
        }
    }
    input
}

/// Claims the warming of a repository's index: once per repository, and only where
/// the server is enrolled and connected and the setting allows it.
pub fn claim_auto_index(
    indexed: &mut Vec<String>,
    repo_root: &str,
    enrolled: bool,
    connected: bool,
    allowed: bool,
) -> (r: bool)
    ensures
        ({
            let before = text::str_views(old(indexed)@);
            &&& r == (enrolled && connected && allowed && !before.contains(repo_root@))
            &&& text::str_views(final(indexed)@) == (if r {
                before.push(repo_root@)
            } else {
                before
            })
            &&& r ==> text::str_views(final(indexed)@).contains(repo_root@)
        }),
{
    let ghost before = text::str_views(indexed@);
    if !enrolled || !connected || !allowed || text::holds(indexed, repo_root) {
        return false;
    }
    indexed.push(repo_root.to_owned());
    proof {
        let after = text::str_views(indexed@);
        assert(after =~= before.push(repo_root@));
        assert(after[before.len() as int] == repo_root@);
    }
    true
}

/// How the handoff of the index ended.
#[derive(Debug)]
pub enum Handoff {
    Done,
    Failed(String),
    TimedOut,
}

/// Seconds that the handoff may take.
pub const AUTO_INDEX_TIMEOUT_SECS: u64 = 5;

/// What is logged of a handoff; nothing when it went well.
pub fn handoff_message(outcome: &Handoff) -> (r: Option<String>)
    ensures
        match outcome {
            Handoff::Done => r is None,
            Handoff::Failed(e) => r is Some && r->0@ == "repo-open auto-index handoff failed: "@ + e@,
            Handoff::TimedOut => r is Some && r->0@ == "repo-open auto-index handoff timed out after "@
                + chars::dec(AUTO_INDEX_TIMEOUT_SECS as nat)
                + "s (index continues server-side)"@,
        },
{
    match outcome {
        Handoff::Done => None,
        Handoff::Failed(e) => {
            let mut out = "repo-open auto-index handoff failed: ".to_owned();
            out.push_str(e.as_str());
            Some(out)
        },
        Handoff::TimedOut => {
            let mut out = "repo-open auto-index handoff timed out after ".to_owned();
            text::push_dec(&mut out, AUTO_INDEX_TIMEOUT_SECS);
            out.push_str("s (index continues server-side)");
            Some(out)
        },
    }
}

/// Tool calls that the conversation still carries, given the watermark of the last
/// compaction.
pub fn calls_in_context(total: u64, watermark: u64) -> (r: u64)
    ensures
        r == (if total > watermark {
            total - watermark
        } else {
            0
        }),
{
    total.saturating_sub(watermark)
}

/// The watermark after a compaction that keeps `retained` calls.
pub fn compaction_watermark(total: u64, retained: u64) -> (r: u64)
    ensures
        r == (if total > retained {
            total - retained
        } else {
            0
        }),
        retained <= total ==> total - r == retained,
{
    total.saturating_sub(retained)
}

/// What a coordinator run came to.
#[derive(Debug)]
pub struct Outcome {
    pub phase: Phase,
    pub result: Option<String>,
    pub error: Option<String>,
}

/// What is reported of a run.
#[derive(Debug)]
pub enum Report {
    /// Success, with something to print.
    Print(String),
    /// Success, with nothing to print.
    Quiet,
    /// Failure.
    Fail(String),
}

/// Reports a coordinator run: a finished run and a paused one hand over their
/// result, anything else is a failure.
pub fn report_outcome(outcome: Outcome) -> (r: Report)
    ensures
        match r {
            Report::Print(s) => (outcome.phase is Done || outcome.phase is Checkpoint)
                && backend::text_view(outcome.result) == Some(s@),
            Report::Quiet => (outcome.phase is Done || outcome.phase is Checkpoint)
                && outcome.result is None,
            Report::Fail(e) => !(outcome.phase is Done || outcome.phase is Checkpoint) && e@ == (
            match outcome.error {
                Some(x) => x@,
                None => "coordinator failed"@,
            }),
        },
{
    match outcome.phase {
        Phase::Done | Phase::Checkpoint => match outcome.result {
            Some(s) => Report::Print(s),
            None => Report::Quiet,
        },
        _ => match outcome.error {
            Some(e) => Report::Fail(e),
            None => Report::Fail("coordinator failed".to_owned()),
        },
    }
}

/// Notes on a result how its payload breaks the schema that it declares; `checked`
/// is what the validation of the payload said. Results without a schema or a
/// payload are left alone, and the payload is kept in every case.
pub fn validate_output_schema(result: &mut ToolResult, checked: Result<(), String>)
    ensures
        final(result).view() == (match (old(result).output_schema, old(result).structured, checked) {
            (Some(s), Some(_), Err(e)) => backend::ResultV {
                schema_violation: Some(
                    "payload violates schema `"@ + s.plugin_id@ + "/"@ + s.schema_name@ + "`: "@ + e@,
                ),
                ..old(result).view()
            },
            _ => old(result).view(),
        }),
{
    if result.structured.is_none() {
        return ;
    }
    if let Err(e) = checked {
        let mut note: Option<String> = None;
        if let Some(s) = &result.output_schema {
            let mut n = "payload violates schema `".to_owned();
            n.push_str(s.plugin_id.as_str());
            n.push_str("/");
            n.push_str(s.schema_name.as_str());
            n.push_str("`: ");
            n.push_str(e.as_str());
            note = Some(n);
        }
        if let Some(n) = note {
            result.note_schema_violation(n);
        }
    }
}

/// What a round did: its number, counted back from the latest, the tools it called
/// and the files that their arguments name.
#[derive(Debug)]
pub struct RoundAudit {
    pub round: usize,
    pub tools: Vec<String>,
    pub paths: Vec<String>,
}

#[verifier::ext_equal]
pub struct AuditV {
    pub round: nat,
    pub tools: Seq<Seq<char>>,
    pub paths: Seq<Seq<char>>,
}

impl RoundAudit {
    pub open spec fn view(self) -> AuditV {
        AuditV {
            round: self.round as nat,
            tools: text::str_views(self.tools@),
            paths: text::str_views(self.paths@),
        }
    }
}

/// The view of a list of audits.
pub open spec fn audits(v: Seq<RoundAudit>) -> Seq<AuditV> {
    v.map_values(|a: RoundAudit| a.view())
}

/// Whether a message is a round: the assistant's, with tool calls.
pub open spec fn is_round(m: MsgV) -> bool {
    m.role == Role::Assistant && m.tool_calls.len() > 0
}

/// Rounds among the messages.
pub open spec fn rounds(h: Seq<MsgV>) -> nat
    decreases h.len(),
{
    if h.len() == 0 {
        0
    } else {
        rounds(h.skip(1)) + (if is_round(h[0]) {
            1nat
        } else {
            0
        })
    }
}

/// Whether an argument names a file: by its key, and by a text that is not empty
/// and not long.
pub open spec fn names_file(key: Seq<char>, v: JsonV) -> bool {
    (chars::contains_str(key, "path"@) || chars::contains_str(key, "file"@) || key == "pattern"@) && (
    match v {
        JsonV::Str(s) => s.len() > 0 && chars::byte_len(s) < 200,
        _ => false,
    })
}

/// The files that the first `n` members of an object name.
pub open spec fn member_paths(e: Seq<(Seq<char>, JsonV)>, n: nat) -> Seq<Seq<char>>
    decreases n,
{
    if n == 0 {
        seq![]
    } else {
        let before = member_paths(e, (n - 1) as nat);
        if names_file(e[n - 1].0, e[n - 1].1) {
            before.push(e[n - 1].1->Str_0)
        } else {
            before
        }
    }
}

/// The files that the arguments of a call name.
pub open spec fn call_paths(c: CallV) -> Seq<Seq<char>> {
    match c.args {
        JsonV::Object(e) => member_paths(e, e.len()),
        _ => seq![],
    }
}

/// The files that the arguments of the calls name.
pub open spec fn round_paths(cs: Seq<CallV>) -> Seq<Seq<char>>
    decreases cs.len(),
{
    if cs.len() == 0 {
        seq![]
    } else {
        round_paths(cs.drop_last()) + call_paths(cs.last())
    }
}

/// The names of the called tools.
pub open spec fn tool_names(cs: Seq<CallV>) -> Seq<Seq<char>> {
    cs.map_values(|c: CallV| c.name)
}

/// The rounds among the messages, in order.
pub open spec fn audit_of(h: Seq<MsgV>) -> Seq<AuditV>
    decreases h.len(),
{
    if h.len() == 0 {
        seq![]
    } else if is_round(h[0]) {
        seq![
            AuditV {
                round: rounds(h),
                tools: tool_names(h[0].tool_calls),
                paths: round_paths(h[0].tool_calls),
            },
        ] + audit_of(h.skip(1))
    } else {
        audit_of(h.skip(1))
    }
}

/// Messages that an audit looks back on.
pub const AUDIT_WINDOW: usize = 40;

/// The last messages of a conversation.
pub open spec fn recent(h: Seq<MsgV>) -> Seq<MsgV> {
    if h.len() > AUDIT_WINDOW {
        h.skip(h.len() - AUDIT_WINDOW)
    } else {
        h
    }
}

fn push_call_paths(call: &ToolCall, out: &mut Vec<String>)
    ensures
        text::str_views(final(out)@) == text::str_views(old(out)@) + call_paths(call.view()),
{
    let ghost o = text::str_views(out@);
    match &call.args {
        Json::Object(obj) => {
            let n: usize = obj.len();
            let ghost e = obj.view();
            let mut i: usize = 0;
            assert(o + member_paths(e, 0) =~= o);
            while i < n
                invariant
                    n == e.len(),
                    e == obj.view(),
                    i <= n,
                    text::str_views(out@) == o + member_paths(e, i as nat),
                decreases n - i,
            {
                let key = text::chars_of(obj.key_at(i).as_str());
                let ghost before = text::str_views(out@);
                let named = text::contains(&key, "path") || text::contains(&key, "file")
                    || text::is(&key, "pattern");
                let ghost kept = member_paths(e, (i + 1) as nat);
                if let Json::Str(s) = obj.value_at(i) {
                    let v = text::chars_of(s.as_str());
                    if named && v.len() > 0 && text::byte_len(s.as_str()) < 200 {
                        out.push(s.clone());
                        assert(text::str_views(out@) =~= before.push(s@));
                    }
                }
                assert(text::str_views(out@) =~= o + kept);
                i += 1;
            }
        },
        _ => {
            assert(o + call_paths(call.view()) =~= o);
        },
    }
}

fn audit_round(m: &Msg, round: usize) -> (r: RoundAudit)
    ensures
        r.view() == (AuditV {
            round: round as nat,
            tools: tool_names(m.view().tool_calls),
            paths: round_paths(m.view().tool_calls),
        }),
{
    let mut tools: Vec<String> = Vec::new();
    let mut paths: Vec<String> = Vec::new();
    let ghost cs = m.view().tool_calls;
    let mut i: usize = 0;
    assert(cs.take(0) =~= Seq::empty());
    assert(text::str_views(tools@) =~= tool_names(cs.take(0)));
    assert(text::str_views(paths@) =~= round_paths(cs.take(0)));
    while i < m.tool_calls.len()
        invariant
            cs == backend::calls(m.tool_calls@),
            i <= cs.len(),
            text::str_views(tools@) == tool_names(cs.take(i as int)),
            text::str_views(paths@) == round_paths(cs.take(i as int)),
        decreases cs.len() - i,
    {
        let ghost t = cs.take(i + 1);
        assert(t.drop_last() =~= cs.take(i as int));
        assert(t.last() == m.tool_calls@[i as int].view());
        let ghost t0 = text::str_views(tools@);
        tools.push(m.tool_calls[i].name.clone());
        push_call_paths(&m.tool_calls[i], &mut paths);
        assert(text::str_views(tools@) =~= t0.push(m.tool_calls@[i as int].name@));
        assert(text::str_views(tools@) =~= tool_names(t));
        i += 1;
    }
    assert(cs.take(i as int) =~= cs);
    RoundAudit { round, tools, paths }
}

fn is_round_msg(m: &Msg) -> (r: bool)
    ensures
        r == is_round(m.view()),
{
    matches!(m.role, Role::Assistant) && m.tool_calls.len() > 0
}

/// The rounds among the last messages of a conversation, in order, each with its
/// number counted back from the latest.
pub fn build_turns_audit_from_history(history: &[Msg]) -> (r: Vec<RoundAudit>)
    ensures
        audits(r@) == audit_of(recent(backend::messages(history@))),
{
    let ghost h = backend::messages(history@);
    let start: usize = if history.len() > AUDIT_WINDOW { history.len() - AUDIT_WINDOW } else { 0 };
    assert(h.skip(start as int) =~= recent(h));
    let mut left: usize = 0;
    let mut i: usize = history.len();
    assert(h.skip(i as int) =~= Seq::empty());
    while i > start
        invariant
            h == backend::messages(history@),
            start <= i <= history@.len(),
            left == rounds(h.skip(i as int)),
            left <= history@.len() - i,
        decreases i,
    {
        i -= 1;
        assert(h.skip(i as int).skip(1) =~= h.skip(i + 1));
        assert(h.skip(i as int)[0] == history@[i as int].view());
        if is_round_msg(&history[i]) {
            left += 1;
        }
    }
    let mut out: Vec<RoundAudit> = Vec::new();
    assert(audits(out@) + audit_of(h.skip(i as int)) =~= audit_of(h.skip(i as int)));
    while i < history.len()
        invariant
            h == backend::messages(history@),
            start <= i <= history@.len(),
            left == rounds(h.skip(i as int)),
            audits(out@) + audit_of(h.skip(i as int)) == audit_of(h.skip(start as int)),
        decreases history@.len() - i,
    {
        let ghost t = h.skip(i as int);
        let ghost before = audits(out@);
        assert(t.skip(1) =~= h.skip(i + 1));
        assert(t[0] == history@[i as int].view());
        if is_round_msg(&history[i]) {
            let a = audit_round(&history[i], left);
            let ghost av = a.view();
            out.push(a);
            left -= 1;
            assert(audits(out@) =~= before.push(av));
            assert(before.push(av) + audit_of(t.skip(1)) =~= before + (seq![av] + audit_of(t.skip(1))));
        }
        i += 1;
    }
    assert(h.skip(i as int) =~= Seq::empty());
    assert(audits(out@) + audit_of(h.skip(i as int)) =~= audits(out@));
    out
}

/// The mark that a nested session puts in front of its narration.
pub const NARRATION_MARK: &'static str = "🗨 ";

/// The lines that show the model's interim text. In a nested session they are laid
/// out for the pane of the session above and each is marked.
pub open spec fn narration(text: Seq<char>, nested: bool, term_cols: nat) -> Seq<Seq<char>> {
    let body = chars::trim(text);
    if nested {
        let ls = chars::lines(md::markdown(body, ""@, md::pane_width(term_cols)));
        Seq::new(ls.len(), |i: int| NARRATION_MARK@ + ls[i])
    } else {
        seq![md::markdown(body, ""@, term_cols)]
    }
}

/// The lines that show the model's interim text.
pub fn narration_lines(text: &str, nested: bool, term_cols: usize) -> (r: Vec<String>)
    ensures
        text::str_views(r@) == narration(text@, nested, term_cols as nat),
{
    let all = text::chars_of(text);
    let body = text::string_of(text::trim(&all));
    let mut out: Vec<String> = Vec::new();
    if !nested {
        out.push(md::render(body.as_str(), "", term_cols));
        assert(text::str_views(out@) =~= narration(text@, nested, term_cols as nat));
        return out;
    }
    let rendered = text::chars_of(md::render_pane(body.as_str(), "", term_cols).as_str());
    let ls = text::lines(&rendered);
    let ghost want = chars::lines(rendered@);
    let mut i: usize = 0;
    while i < ls.len()
        invariant
            want == text::views(ls@),
            i <= ls@.len(),
            out@.len() == i,
            forall|j: int| 0 <= j < i ==> (#[trigger] out@[j])@ == NARRATION_MARK@ + want[j],
        decreases ls@.len() - i,
    {
        let mut l = NARRATION_MARK.to_owned();
        text::push_chars(&mut l, &ls[i]);
        assert(want[i as int] == ls@[i as int]@);
        out.push(l);
        i += 1;
    }
    assert(text::str_views(out@) =~= narration(text@, nested, term_cols as nat));
    out
}

/// Law: a setting that is a number in its range counts, and anything else leaves the
/// default.
pub proof fn settings_in_range_count(n: nat, max: nat, default: nat, text: Seq<char>)
    requires
        max <= usize::MAX,
        n <= usize::MAX,
    ensures
        1 <= n <= max ==> setting(Some(chars::dec(n)), max, default) == n,
        n == 0 || n > max ==> setting(Some(chars::dec(n)), max, default) == default,
        setting(None, max, default) == default,
        setting(Some(text), max, default) == default || 1 <= setting(Some(text), max, default) <= max,
{
    chars::lemma_dec_digits(n);
    let d = chars::dec(n);
    assert(chars::is_digit(d[0]) && chars::is_digit(d.last()));
    assert(chars::trim_start(d) == d);
    assert(chars::trim_end(d) == d);
    chars::lemma_parse_dec(n, usize::MAX as nat);
}

/// Law: for three quarters of its rounds a turn runs freely, then it is told to converge,
/// and from nine tenths on it has to sum up.
pub proof fn rounds_tighten(iteration: nat, system: Seq<char>, nudge: Seq<char>)
    ensures
        iteration <= 37 ==> phase_of(iteration) == BudgetPhase::Normal,
        38 <= iteration <= 44 ==> phase_of(iteration) == BudgetPhase::SoftWarn,
        45 <= iteration ==> phase_of(iteration) == BudgetPhase::ForceSummarize,
        iteration <= 37 ==> effective_system(system, nudge, iteration) == system + nudge,
        (system + nudge).is_prefix_of(effective_system(system, nudge, iteration)),
{
    let whole = effective_system(system, nudge, iteration);
    assert(whole.take((system + nudge).len() as int) =~= system + nudge);
    assert(iteration <= 37 ==> whole =~= system + nudge);
}

/// Law: the guards count what a round calls. One call alone deepens the serial chain and
/// any other number ends it; every call counts towards the budget, and none is forgotten;
/// a chain or a budget that is exceeded is noted, and one that is not is not.
pub proof fn guards_count_the_calls(
    before: Turn,
    after: Turn,
    calls: Seq<CallV>,
    nudged: bool,
    budget: CallBudgetAction,
)
    requires
        before.noted(after, calls, nudged, budget),
        before.chain.spec_depth() < usize::MAX,
        before.budget.spec_count() + calls.len() <= usize::MAX,
    ensures
        calls.len() == 1 ==> after.chain.spec_depth() == before.chain.spec_depth() + 1,
        calls.len() != 1 ==> after.chain.spec_depth() == 0 && after.depth is None,
        after.depth is Some <==> calls.len() == 1 && before.chain.spec_depth()
            >= before.chain.spec_threshold(),
        after.budget.spec_count() == before.budget.spec_count() + calls.len(),
        after.spent is Some <==> after.budget.spec_count() > before.budget.spec_hard(),
        after.spent matches Some(n) ==> n == after.budget.spec_count(),
        budget is SoftWarn ==> !before.budget.spec_warned() && after.budget.spec_warned(),
        before.budget.spec_warned() ==> after.budget.spec_warned() && !(budget is SoftWarn),
        after.budget.spec_soft() == before.budget.spec_soft(),
        after.budget.spec_hard() == before.budget.spec_hard(),
        nudged ==> calls.len() == 1 && after.batch.spec_nudged() && !before.batch.spec_nudged(),
        !nudged ==> or_empty(after.nudge) == or_empty(before.nudge),
        calls.len() == 1 && loopguard::batchable(calls[0].name) && before.batch.spec_streak() >= 2
            && before.batch.spec_streak() < usize::MAX ==> nudged == !before.batch.spec_nudged(),
        calls.len() == 1 && !loopguard::batchable(calls[0].name) ==> !nudged
            && after.batch.spec_streak() == 0,
        calls.len() != 1 ==> after.batch.spec_streak() == 0 && !after.batch.spec_nudged(),
{
}

/// Law: what the user asks is always the end of a turn's input. The previous output
/// stands before it, whole, only at the start of a conversation and only when it says
/// something.
pub proof fn input_is_kept_whole(
    history_empty: bool,
    prev: Seq<char>,
    input: Seq<char>,
    i: int,
)
    ensures
        input.is_suffix_of(seeded(history_empty, Some(prev), input)),
        seeded(history_empty, None, input) == input,
        !history_empty ==> seeded(history_empty, Some(prev), input) == input,
        prev.len() == 0 ==> seeded(history_empty, Some(prev), input) == input,
        history_empty && 0 <= i < prev.len() && !chars::is_ws(prev[i]) ==> chars::contains_str(
            seeded(history_empty, Some(prev), input),
            prev,
        ),
{
    let s = seeded(history_empty, Some(prev), input);
    let head = "[Previous command output, for reference:\n"@;
    let tail = "\n]\n\n"@;
    assert(s.subrange(s.len() - input.len(), s.len() as int) =~= input);
    if s.len() != input.len() || s != input {
        assert(s == head + prev + tail + input);
        let n = head.len() as int;
        assert(s.subrange(n, n + prev.len()) =~= prev);
        assert(chars::matches_at(s, prev, n));
    } else if history_empty && 0 <= i < prev.len() && !chars::is_ws(prev[i]) {
        assert(!chars::blank(prev));
        assert(s == head + prev + tail + input);
        let n = head.len() as int;
        assert(s.subrange(n, n + prev.len()) =~= prev);
        assert(chars::matches_at(s, prev, n));
    }
}

proof fn lemma_rounds(h: Seq<MsgV>)
    ensures
        audit_of(h).len() == rounds(h),
    decreases h.len(),
{
    if h.len() > 0 {
        lemma_rounds(h.skip(1));
    }
}

/// Law: an audit has an entry for every message of the assistant with tool calls and for
/// no other. The entries are numbered back from the last, and each tells the names of all
/// its tools.
pub proof fn audits_count_back(m: MsgV, rest: Seq<MsgV>)
    ensures
        ({
            let a = audit_of(seq![m] + rest);
            let b = audit_of(rest);
            &&& m.role == Role::Assistant && m.tool_calls.len() > 0 ==> {
                &&& a.len() == b.len() + 1
                &&& a.skip(1) == b
                &&& a[0].round == b.len() + 1
                &&& a[0].tools.len() == m.tool_calls.len()
                &&& forall|i: int|
                    0 <= i < m.tool_calls.len() ==> #[trigger] a[0].tools[i] == m.tool_calls[i].name
            }
            &&& m.role != Role::Assistant || m.tool_calls.len() == 0 ==> a == b
        }),
{
    let h = seq![m] + rest;
    assert(h[0] == m);
    assert(h.skip(1) =~= rest);
    lemma_rounds(rest);
    if is_round(m) {
        assert(audit_of(h).skip(1) =~= audit_of(rest));
    }
}

/// Law: a call's files are the short texts among its arguments whose key speaks of a path,
/// a file or a pattern: all of them, and nothing else.
pub proof fn file_arguments_are_found(
    e: Seq<(Seq<char>, JsonV)>,
    n: nat,
    i: int,
    path: Seq<char>,
)
    requires
        n <= e.len(),
    ensures
        0 <= i < n && e[i].1 == JsonV::Str(path) && path.len() > 0 && chars::byte_len(path) < 200 && (
        chars::contains_str(e[i].0, "path"@) || chars::contains_str(e[i].0, "file"@) || e[i].0
            == "pattern"@) ==> member_paths(e, n).contains(path),
        member_paths(e, n).contains(path) ==> exists|j: int|
            0 <= j < n && (#[trigger] e[j]).1 == JsonV::Str(path),
    decreases n,
{
    if n > 0 {
        let before = member_paths(e, (n - 1) as nat);
        file_arguments_are_found(e, (n - 1) as nat, i, path);
        let all = member_paths(e, n);
        if before.contains(path) {
            let k = choose|k: int| 0 <= k < before.len() && before[k] == path;
            assert(all[k] == path);
        }
        if all.contains(path) && !before.contains(path) {
            let k = choose|k: int| 0 <= k < all.len() && all[k] == path;
            if k < before.len() {
                assert(before[k] == path);
            }
            assert(e[n - 1].1 == JsonV::Str(path));
        }
        if i == n - 1 && e[i].1 == JsonV::Str(path) && names_file(e[i].0, e[i].1) {
            assert(all[before.len() as int] == path);
        }
    }
}

/// Law: an audit looks at the end of a conversation: at most forty messages, and at all of
/// them where there are no more.
pub proof fn audits_look_at_the_end(h: Seq<MsgV>)
    ensures
        recent(h).is_suffix_of(h),
        h.len() <= 40 ==> recent(h) == h,
        h.len() > 40 ==> recent(h).len() == 40,
{
    assert(recent(h) =~= h.subrange(h.len() - recent(h).len(), h.len() as int));
}

/// Law: the narration of a nested session is what a pane shows, with the mark before every
/// line; one that is not nested is shown in one piece.
pub proof fn narration_is_marked_when_nested(text: Seq<char>, cols: nat, i: int)
    ensures
        narration(text, false, cols) == seq![md::markdown(chars::trim(text), seq![], cols)],
        ({
            let ls = chars::lines(md::markdown(chars::trim(text), seq![], md::pane_width(cols)));
            let told = narration(text, true, cols);
            told.len() == ls.len() && (0 <= i < ls.len() ==> told[i] == NARRATION_MARK@ + ls[i])
        }),
{
    reveal_strlit("");
    assert(""@ =~= Seq::<char>::empty());
}

/// Law: every guard that speaks up is printed, in the order of the guards, with its figures.
pub proof fn every_guard_is_heard(
    nudged: bool,
    depth: Option<usize>,
    action: CallBudgetAction,
    soft: nat,
    hard: nat,
)
    ensures
        ({
            let all = notices(nudged, depth, action, soft, hard);
            let a: int = if nudged {
                1
            } else {
                0
            };
            let b: int = if depth is Some {
                1
            } else {
                0
            };
            let c: int = if action is Continue {
                0
            } else {
                1
            };
            &&& all.len() == a + b + c
            &&& nudged ==> chars::contains_str(all[0], "batch-guard: "@)
            &&& depth matches Some(d) ==> chars::contains_str(
                all[a],
                "serial-chain-guard: "@ + chars::dec(d as nat),
            )
            &&& action matches CallBudgetAction::SoftWarn { count } ==> chars::contains_str(
                all[a + b],
                "call-budget-guard: "@ + chars::dec(count as nat),
            ) && chars::contains_str(all[a + b], "(soft "@ + chars::dec(soft))
            &&& action matches CallBudgetAction::HardYield { count } ==> chars::contains_str(
                all[a + b],
                "call-budget-guard: "@ + chars::dec(count as nat),
            ) && chars::contains_str(all[a + b], "(hard "@ + chars::dec(hard))
        }),
{
    lemma_batch_notice();
    if let Some(d) = depth {
        lemma_chain_notice(d as nat);
    }
    lemma_budget_notices(action, soft, hard);
}

proof fn lemma_batch_notice()
    ensures
        chars::contains_str(batch_notice(), "batch-guard: "@),
{
    lemma_notice_heads();
    let n = chars::dec(loopguard::BATCH_NUDGE_STREAK as nat);
    let tail = " single-read turns in a row — nudging to batch independent reads\x1b[0m"@;
    lemma_regroup("\x1b[2m  ⚠ "@ + "batch-guard: "@, n, tail);
    chars::lemma_holds_part("\x1b[2m  ⚠ "@, "batch-guard: "@, n + tail);
}

proof fn lemma_chain_notice(depth: nat)
    ensures
        chars::contains_str(chain_notice(depth), "serial-chain-guard: "@ + chars::dec(depth)),
{
    lemma_notice_heads();
    let n = chars::dec(depth);
    let tail = " consecutive single-call rounds — yielding to re-plan toward batching\x1b[0m"@;
    lemma_regroup("\x1b[2m  ⚠ "@, "serial-chain-guard: "@, n);
    chars::lemma_holds_part("\x1b[2m  ⚠ "@, "serial-chain-guard: "@ + n, tail);
}

proof fn lemma_budget_notices(action: CallBudgetAction, soft: nat, hard: nat)
    ensures
        action matches CallBudgetAction::SoftWarn { count } ==> (budget_notice(action, soft, hard)
            matches Some(l) && chars::contains_str(
            l,
            "call-budget-guard: "@ + chars::dec(count as nat),
        ) && chars::contains_str(l, "(soft "@ + chars::dec(soft))),
        action matches CallBudgetAction::HardYield { count } ==> (budget_notice(action, soft, hard)
            matches Some(l) && chars::contains_str(
            l,
            "call-budget-guard: "@ + chars::dec(count as nat),
        ) && chars::contains_str(l, "(hard "@ + chars::dec(hard))),
{
    lemma_notice_heads();
    match action {
        CallBudgetAction::SoftWarn { count } => {
            lemma_budget_notice(
                chars::dec(count as nat),
                "(soft "@,
                chars::dec(soft),
                ") — consider converging\x1b[0m"@,
            );
        },
        CallBudgetAction::HardYield { count } => {
            lemma_budget_notice(
                chars::dec(count as nat),
                "(hard "@,
                chars::dec(hard),
                ") — yielding to resume with fresh context\x1b[0m"@,
            );
        },
        CallBudgetAction::Continue => {},
    }
}

proof fn lemma_budget_notice(n: Seq<char>, word: Seq<char>, limit: Seq<char>, tail: Seq<char>)
    ensures
        ({
            let l = "\x1b[2m  ⚠ call-budget-guard: "@ + n + (" tool calls this turn "@ + word) + limit
                + tail;
            chars::contains_str(l, "call-budget-guard: "@ + n) && chars::contains_str(l, word + limit)
        }),
{
    lemma_notice_heads();
    let h = "\x1b[2m  ⚠ "@;
    let k = "call-budget-guard: "@;
    let m = " tool calls this turn "@;
    lemma_regroup(h, k, n);
    let x = h + (k + n);
    lemma_regroup(x + (m + word), limit, tail);
    lemma_regroup(x, m + word, limit + tail);
    chars::lemma_holds_part(h, k + n, (m + word) + (limit + tail));
    lemma_regroup(x, m, word);
    lemma_regroup(x + m, word, limit);
    chars::lemma_holds_part(x + m, word + limit, tail);
}

proof fn lemma_regroup(a: Seq<char>, b: Seq<char>, c: Seq<char>)
    ensures
        a + b + c == a + (b + c),
{
    assert(a + b + c =~= a + (b + c));
}

proof fn lemma_notice_heads()
    ensures
        "\x1b[2m  ⚠ batch-guard: "@ == "\x1b[2m  ⚠ "@ + "batch-guard: "@,
        "\x1b[2m  ⚠ serial-chain-guard: "@ == "\x1b[2m  ⚠ "@ + "serial-chain-guard: "@,
        "\x1b[2m  ⚠ call-budget-guard: "@ == "\x1b[2m  ⚠ "@ + "call-budget-guard: "@,
        " tool calls this turn (soft "@ == " tool calls this turn "@ + "(soft "@,
        " tool calls this turn (hard "@ == " tool calls this turn "@ + "(hard "@,
{
    reveal_strlit("\x1b[2m  ⚠ ");
    reveal_strlit("batch-guard: ");
    reveal_strlit("serial-chain-guard: ");
    reveal_strlit("call-budget-guard: ");
    reveal_strlit("\x1b[2m  ⚠ batch-guard: ");
    reveal_strlit("\x1b[2m  ⚠ serial-chain-guard: ");
    reveal_strlit("\x1b[2m  ⚠ call-budget-guard: ");
    reveal_strlit(" tool calls this turn ");
    reveal_strlit(" tool calls this turn (soft ");
    reveal_strlit(" tool calls this turn (hard ");
    reveal_strlit("(soft ");
    reveal_strlit("(hard ");
    assert("\x1b[2m  ⚠ batch-guard: "@ =~= "\x1b[2m  ⚠ "@ + "batch-guard: "@);
    assert("\x1b[2m  ⚠ serial-chain-guard: "@ =~= "\x1b[2m  ⚠ "@ + "serial-chain-guard: "@);
    assert("\x1b[2m  ⚠ call-budget-guard: "@ =~= "\x1b[2m  ⚠ "@ + "call-budget-guard: "@);
    assert(" tool calls this turn (soft "@ =~= " tool calls this turn "@ + "(soft "@);
    assert(" tool calls this turn (hard "@ =~= " tool calls this turn "@ + "(hard "@);
}

/// Law: a turn that yields without text says after how much.
pub proof fn yields_say_after_how_much(n: nat)
    ensures
        chars::contains_str(spent_text(n), chars::dec(n)),
        chars::contains_str(chain_text(n), chars::dec(n)),
{
    chars::lemma_holds_part("Yielded after "@, chars::dec(n), SPENT_TAIL@);
    chars::lemma_holds_part("Yielded after a deep serial call chain ("@, chars::dec(n), CHAIN_TAIL@);
}

} // verus!
