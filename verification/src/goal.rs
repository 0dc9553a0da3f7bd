//! Goals: the durable record of something to achieve, with its milestones,
//! blockers and linked tasks, and the background loop that pursues a condition.
use vstd::prelude::*;
use crate::chars;
use crate::ids;
use crate::json;
use crate::json::{Json, JsonV, Object};
use crate::text::{self, str_view};

verus! {

/// Turns after which an unattended loop gives up.
pub const MAX_TURNS: usize = 25;

/// Characters of work output that are handed to the judge.
pub const JUDGE_INPUT_CAP: usize = 16_000;

/// Where the judge is asked.
pub const MESSAGES_API: &'static str = "https://api.anthropic.com/v1/messages";

/// The judge's instructions.
pub const JUDGE_SYSTEM: &'static str = "You are a strict completion judge for an autonomous agent. Decide whether the GOAL is DEMONSTRABLY met by the WORK OUTPUT — judge only what the output shows as evidence (command results, file contents, exit codes), never what is merely asserted without proof. If the goal states a turn/time bound, honor it. Reply with ONLY a JSON object, no prose: {\"met\": true|false, \"reason\": \"<one sentence>\"}.";

/// The opening of every turn's directive.
pub const DIRECTIVE_PREFIX: &'static str = "Work toward this goal, then report what you did and the evidence:\n";

/// Separates the condition from the last check's guidance.
pub const GUIDANCE_MARKER: &'static str = "\n\nThe goal is NOT yet met — last check said: ";

/// State of a pursuit.
#[derive(Debug, Clone, Copy, PartialEq, Eq, Structural)]
pub enum Status {
    Active,
    Achieved,
    Failed,
    Cleared,
}

/// What a pursuit is doing within a turn.
#[derive(Debug, Clone, Copy, PartialEq, Eq, Structural)]
pub enum Step {
    Idle,
    Working,
    Checking,
}

/// `s` on one line, cut to at most `max` characters, with an ellipsis when it was
/// cut.
pub open spec fn ellipsized(s: Seq<char>, max: nat) -> Seq<char> {
    let line = chars::on_one_line(s);
    if line.len() > max {
        chars::trim_end(line.take(max as int)).push('…')
    } else {
        line
    }
}

proof fn lemma_ellipsized_line(s: Seq<char>, max: nat)
    ensures
        !ellipsized(s, max).contains('\n'),
{
    let line = chars::on_one_line(s);
    if line.len() > max {
        chars::lemma_trim_end_props(line.take(max as int));
    }
}

/// Puts `s` on one line and cuts it to at most `max` characters, with an ellipsis
/// when it was cut.
pub fn truncate_ellipsis(s: &str, max: usize) -> (r: String)
    ensures
        r@ == ellipsized(s@, max as nat),
        r@.len() <= max + 1,
        !r@.contains('\n'),
{
    proof {
        lemma_ellipsized_line(s@, max as nat);
    }
    let line = text::on_one_line(s);
    let v = text::chars_of(line.as_str());
    if v.len() > max {
        let head = text::trim_end(text::upto(&v, max));
        proof {
            chars::lemma_trim_end_props(v@.take(max as int));
        }
        let mut out = text::string_of(head);
        out.push('…');
        out
    } else {
        line
    }
}

/// Keeps a condition on one line.
pub fn truncate_condition(condition: &str) -> (r: String)
    ensures
        r@ == ellipsized(condition@, 60),
        !r@.contains('\n'),
{
    truncate_ellipsis(condition, 60)
}

pub open spec fn two_digits(n: nat) -> Seq<char> {
    chars::zero_pad(chars::dec(n), 2)
}

/// Elapsed time for humans: seconds, minutes and seconds, or hours and minutes.
pub open spec fn duration_text(secs: nat) -> Seq<char> {
    let h = secs / 3600;
    let m = (secs % 3600) / 60;
    let s = secs % 60;
    if h > 0 {
        chars::dec(h) + "h"@ + two_digits(m) + "m"@
    } else if m > 0 {
        chars::dec(m) + "m"@ + two_digits(s) + "s"@
    } else {
        chars::dec(s) + "s"@
    }
}

fn push_two_digits(out: &mut String, n: u64)
    requires
        n < 100,
    ensures
        final(out)@ == old(out)@ + two_digits(n as nat),
{
    if n < 10 {
        out.push('0');
        assert(chars::dec(n as nat).len() == 1);
        assert(chars::repeat('0', 1) =~= seq!['0']);
    } else {
        assert(chars::dec(n as nat).len() == 2) by {
            assert(chars::dec((n / 10) as nat).len() == 1);
        }
    }
    text::push_dec(out, n);
    assert(out@ =~= old(out)@ + two_digits(n as nat));
}

/// Elapsed time for humans.
pub fn fmt_duration(secs: u64) -> (r: String)
    ensures
        r@ == duration_text(secs as nat),
{
    let h: u64 = secs / 3600;
    let m: u64 = (secs % 3600) / 60;
    let s: u64 = secs % 60;
    let mut out = String::new();
    if h > 0 {
        text::push_dec(&mut out, h);
        out.push_str("h");
        push_two_digits(&mut out, m);
        out.push_str("m");
    } else if m > 0 {
        text::push_dec(&mut out, m);
        out.push_str("m");
        push_two_digits(&mut out, s);
        out.push_str("s");
    } else {
        text::push_dec(&mut out, s);
        out.push_str("s");
    }
    assert(out@ =~= duration_text(secs as nat));
    out
}

/// Whole seconds between two readings of a millisecond clock.
pub open spec fn elapsed_secs(from_ms: nat, now_ms: nat) -> nat {
    if now_ms > from_ms {
        ((now_ms - from_ms) / 1000) as nat
    } else {
        0
    }
}

fn elapsed(from_ms: u64, now_ms: u64) -> (r: u64)
    ensures
        r == elapsed_secs(from_ms as nat, now_ms as nat),
{
    if now_ms > from_ms {
        (now_ms - from_ms) / 1000
    } else {
        0
    }
}

/// A background pursuit of a condition. Times are readings of one millisecond
/// clock.
#[derive(Debug)]
pub struct GoalLoop {
    pub condition: String,
    pub started_ms: u64,
    pub status: Status,
    pub turns: usize,
    pub last_reason: Option<String>,
    pub cancel: bool,
    pub turn_started_ms: Option<u64>,
    pub phase: Step,
}

/// What the loop does next, between turns.
#[derive(Debug, PartialEq, Eq)]
pub enum TurnStart {
    /// It was cleared: end quietly.
    Stopped,
    /// It ran out of turns: announce this and end.
    GaveUp(String),
    /// Announce, then run a worker with this directive.
    Work { turn: usize, directive: String, notice: String },
}

/// What the loop does after a worker's turn.
#[derive(Debug, PartialEq, Eq)]
pub enum AfterWork {
    /// The worker failed: announce this and end.
    Failed(String),
    /// It was cleared meanwhile: end quietly.
    Stopped,
    /// Announce this and ask the judge.
    Check(String),
}

/// What the loop does after the judge's verdict.
#[derive(Debug, PartialEq, Eq)]
pub enum AfterCheck {
    /// The goal is met: deliver the result and end.
    Deliver { turns: usize, reason: String },
    /// Another turn, with this guidance.
    Retry(String),
}

/// The directive for one turn.
pub open spec fn directive_for(condition: Seq<char>, guidance: Option<Seq<char>>) -> Seq<char> {
    match guidance {
        Some(g) => DIRECTIVE_PREFIX@ + condition + GUIDANCE_MARKER@ + g,
        None => DIRECTIVE_PREFIX@ + condition,
    }
}

/// The condition that a directive carries.
pub open spec fn condition_in(task: Seq<char>) -> Option<Seq<char>> {
    if chars::starts_with(task, DIRECTIVE_PREFIX@) {
        let rest = task.skip(DIRECTIVE_PREFIX@.len() as int);
        match chars::find_str(rest, GUIDANCE_MARKER@) {
            Some(i) => Some(rest.take(i)),
            None => Some(rest),
        }
    } else {
        None
    }
}

/// Builds one turn's directive.
pub fn goal_directive(condition: &str, guidance: Option<&str>) -> (r: String)
    ensures
        r@ == directive_for(condition@, str_view(guidance)),
{
    let mut out = DIRECTIVE_PREFIX.to_owned();
    out.push_str(condition);
    if let Some(g) = guidance {
        out.push_str(GUIDANCE_MARKER);
        out.push_str(g);
    }
    out
}

/// Recovers the condition from a directive; `None` when `task` is no directive.
pub fn goal_condition_from_directive(task: &str) -> (r: Option<String>)
    ensures
        match r {
            Some(c) => condition_in(task@) == Some(c@),
            None => condition_in(task@) is None,
        },
{
    let v = text::chars_of(task);
    if !text::starts_with(&v, DIRECTIVE_PREFIX) {
        return None;
    }
    let prefix = text::chars_of(DIRECTIVE_PREFIX);
    let rest = text::from(&v, prefix.len());
    match text::find_str(rest, GUIDANCE_MARKER) {
        Some(i) => Some(text::string_of(text::upto(rest, i))),
        None => Some(text::string_of(rest)),
    }
}

proof fn lemma_marker_has_no_overlap(c: Seq<char>, g: Seq<char>)
    requires
        !chars::contains_str(c, GUIDANCE_MARKER@),
    ensures
        chars::find_str(c + GUIDANCE_MARKER@ + g, GUIDANCE_MARKER@) == Some(c.len() as int),
{
    reveal_strlit("\n\nThe goal is NOT yet met — last check said: ");
    let m = GUIDANCE_MARKER@;
    let s = c + m + g;
    let n = c.len() as int;
    assert(m[0] == '\n' && m[1] == '\n' && m[2] == 'T');
    assert(s.subrange(n, n + m.len()) =~= m);
    assert forall|j: int| 0 <= j < n implies !chars::matches_at(s, m, j) by {
        if chars::matches_at(s, m, j) {
            let w = s.subrange(j, j + m.len());
            if j + m.len() <= n {
                assert(c.subrange(j, j + m.len()) =~= w);
                assert(chars::matches_at(c, m, j));
            } else {
                // The match would reach into the marker that follows `c`.
                let k = n - j;
                assert(w[k] == m[k]);
                assert(w[k] == s[n]);
                assert(s[n] == m[0]);
                assert(m[k] == '\n');
                assert(k == 1);
                assert(w[2] == m[2]);
                assert(w[2] == s[n + 1]);
                assert(s[n + 1] == m[1]);
            }
        }
    }
    chars::lemma_find_str(s, m, n);
}

/// Every turn of one goal carries the same condition: whatever the guidance, the
/// directive gives it back, unless the condition itself contains the marker.
pub proof fn directive_carries_condition(condition: Seq<char>, guidance: Option<Seq<char>>)
    requires
        !chars::contains_str(condition, GUIDANCE_MARKER@),
    ensures
        condition_in(directive_for(condition, guidance)) == Some(condition),
{
    let p = DIRECTIVE_PREFIX@;
    let t = directive_for(condition, guidance);
    assert(t.subrange(0, p.len() as int) =~= p);
    let rest = t.skip(p.len() as int);
    match guidance {
        Some(g) => {
            assert(rest =~= condition + GUIDANCE_MARKER@ + g);
            lemma_marker_has_no_overlap(condition, g);
            assert(rest.take(condition.len() as int) =~= condition);
        },
        None => {
            assert(rest =~= condition);
            chars::lemma_find_str_props(rest, GUIDANCE_MARKER@);
        },
    }
}

proof fn lemma_duration_chars(secs: nat)
    ensures
        forall|i: int|
            0 <= i < duration_text(secs).len() ==> {
                let c = #[trigger] duration_text(secs)[i];
                chars::is_digit(c) || c == 'h' || c == 'm' || c == 's'
            },
{
    reveal_strlit("h");
    reveal_strlit("m");
    reveal_strlit("s");
    let h = secs / 3600;
    let m = (secs % 3600) / 60;
    let s = secs % 60;
    chars::lemma_dec_digits(h);
    chars::lemma_dec_digits(m);
    chars::lemma_dec_digits(s);
    assert forall|i: int| 0 <= i < two_digits(m).len() implies chars::is_digit(
        #[trigger] two_digits(m)[i],
    ) by {}
    assert forall|i: int| 0 <= i < two_digits(s).len() implies chars::is_digit(
        #[trigger] two_digits(s)[i],
    ) by {}
}

/// The report stands on one line, whatever the condition and the reason hold.
pub proof fn status_is_one_line(l: GoalLoop, now_ms: nat)
    ensures
        !l.line_at(now_ms).contains('\n'),
{
    reveal_strlit("goal [active · ");
    reveal_strlit("working");
    reveal_strlit("checking");
    reveal_strlit("starting");
    reveal_strlit("] · turn ");
    reveal_strlit(" · ");
    reveal_strlit(" this turn / ");
    reveal_strlit(" total");
    reveal_strlit("goal [");
    reveal_strlit("achieved");
    reveal_strlit("failed");
    reveal_strlit("cleared");
    reveal_strlit("] · ");
    reveal_strlit(" turn(s) · ");
    reveal_strlit(" total · ");
    reveal_strlit(" · last check: ");
    reveal_strlit("");
    chars::lemma_dec_digits(l.turns as nat);
    lemma_duration_chars(elapsed_secs(l.started_ms as nat, now_ms));
    match l.turn_started_ms {
        Some(t) => lemma_duration_chars(elapsed_secs(t as nat, now_ms)),
        None => {},
    }
    lemma_ellipsized_line(l.condition@, 60);
    assert(!l.reason_text().contains('\n'));
    assert(!l.timing_text(now_ms).contains('\n'));
    assert(!chars::dec(l.turns as nat).contains('\n'));
}

/// A text between two bullets contains no more than its sides do.
proof fn lemma_bullet(a: Seq<char>, b: Seq<char>)
    requires
        !chars::contains_str(a, "this turn"@),
        !chars::contains_str(b, "this turn"@),
    ensures
        !chars::contains_str(a + " · "@ + b, "this turn"@),
{
    reveal_strlit("this turn");
    reveal_strlit(" · ");
    let p = "this turn"@;
    let x = a + seq![' '];
    let y = seq![' '] + b;
    assert(a + " · "@ + b =~= x + seq!['·'] + y);
    if chars::contains_str(a + " · "@ + b, p) {
        chars::lemma_contains_beside(x, '·', y, p);
        chars::lemma_contains_spaced(a, p);
        chars::lemma_contains_spaced(b, p);
    }
}

proof fn lemma_condition_lacks(condition: Seq<char>)
    requires
        !chars::contains_str(chars::on_one_line(condition), "this turn"@),
    ensures
        !chars::contains_str(ellipsized(condition, 60), "this turn"@),
{
    reveal_strlit("this turn");
    let p = "this turn"@;
    let line = chars::on_one_line(condition);
    let cut = ellipsized(condition, 60);
    if line.len() > 60 && chars::contains_str(cut, p) {
        let head = chars::trim_end(line.take(60));
        chars::lemma_trim_end_props(line.take(60));
        let none = Seq::<char>::empty();
        assert(cut =~= head + seq!['…'] + none);
        chars::lemma_lacks(none, p, 0);
        chars::lemma_contains_beside(head, '…', none, p);
        let rest = line.skip(head.len() as int);
        assert(line =~= none + head + rest);
        chars::lemma_contains_part(none, head, rest, p);
    }
}

/// The condition with the reason behind it.
proof fn lemma_tail_lacks(l: GoalLoop)
    requires
        !chars::contains_str(chars::on_one_line(l.condition@), "this turn"@),
        l.last_reason matches Some(r) ==> !chars::contains_str(
            chars::on_one_line(r@),
            "this turn"@,
        ),
    ensures
        !chars::contains_str(ellipsized(l.condition@, 60) + l.reason_text(), "this turn"@),
{
    reveal_strlit("this turn");
    reveal_strlit(" · ");
    reveal_strlit(" · last check: ");
    reveal_strlit("");
    let p = "this turn"@;
    let condition = ellipsized(l.condition@, 60);
    let tail = condition + l.reason_text();
    lemma_condition_lacks(l.condition@);
    match l.last_reason {
        Some(r) => {
            let why = chars::on_one_line(r@);
            let check = seq!['l', 'a', 's', 't', ' ', 'c', 'h', 'e', 'c', 'k'];
            chars::lemma_lacks(check, p, 6);
            chars::lemma_contains_spaced(why, p);
            if chars::contains_str(check + seq![':'] + (seq![' '] + why), p) {
                chars::lemma_contains_beside(check, ':', seq![' '] + why, p);
            }
            lemma_bullet(condition, check + seq![':'] + (seq![' '] + why));
            assert(tail =~= condition + " · "@ + (check + seq![':'] + (seq![' '] + why)));
        },
        None => {
            assert(tail =~= condition);
        },
    }
}

proof fn lemma_total_lacks(secs: nat)
    ensures
        !chars::contains_str(duration_text(secs) + " total"@, "this turn"@),
{
    reveal_strlit("this turn");
    reveal_strlit(" total");
    lemma_duration_chars(secs);
    assert("this turn"@[6] == 'u');
    chars::lemma_lacks(duration_text(secs) + " total"@, "this turn"@, 6);
}

/// The report before the first turn.
proof fn lemma_waiting_line(l: GoalLoop, now_ms: nat)
    requires
        l.status == Status::Active,
        l.turn_started_ms is None,
        !chars::contains_str(ellipsized(l.condition@, 60) + l.reason_text(), "this turn"@),
    ensures
        !chars::contains_str(l.line_at(now_ms), "this turn"@),
{
    reveal_strlit("this turn");
    reveal_strlit(" · ");
    reveal_strlit("goal [active · ");
    reveal_strlit("working");
    reveal_strlit("checking");
    reveal_strlit("starting");
    reveal_strlit("] · turn ");
    let p = "this turn"@;
    assert(p[1] == 'h' && p[6] == 'u');
    let n = chars::dec(l.turns as nat);
    let secs = elapsed_secs(l.started_ms as nat, now_ms);
    let tail = ellipsized(l.condition@, 60) + l.reason_text();
    let first = seq!['g', 'o', 'a', 'l', ' ', '[', 'a', 'c', 't', 'i', 'v', 'e'];
    let phase = l.phase_text() + seq![']'];
    let turn = seq!['t', 'u', 'r', 'n', ' '] + n;
    let timing = l.timing_text(now_ms);
    chars::lemma_dec_digits(l.turns as nat);
    chars::lemma_lacks(first, p, 6);
    chars::lemma_lacks(phase, p, 6);
    chars::lemma_lacks(turn, p, 1);
    lemma_total_lacks(secs);
    lemma_bullet(first, phase);
    let l1 = first + " · "@ + phase;
    lemma_bullet(l1, turn);
    let l2 = l1 + " · "@ + turn;
    lemma_bullet(l2, timing);
    let l3 = l2 + " · "@ + timing;
    lemma_bullet(l3, tail);
    assert("goal [active · "@ =~= first + " · "@);
    assert("] · turn "@ =~= seq![']'] + " · "@ + seq!['t', 'u', 'r', 'n', ' ']);
    assert(l.line_at(now_ms) =~= l3 + " · "@ + tail);
}

/// The report of a finished goal.
proof fn lemma_finished_line(l: GoalLoop, now_ms: nat)
    requires
        l.status != Status::Active,
        !chars::contains_str(ellipsized(l.condition@, 60) + l.reason_text(), "this turn"@),
    ensures
        !chars::contains_str(l.line_at(now_ms), "this turn"@),
{
    reveal_strlit("this turn");
    reveal_strlit(" · ");
    reveal_strlit("goal [");
    reveal_strlit("achieved");
    reveal_strlit("failed");
    reveal_strlit("cleared");
    reveal_strlit("] · ");
    reveal_strlit(" turn(s) · ");
    reveal_strlit(" total · ");
    reveal_strlit(" total");
    let p = "this turn"@;
    assert(p[1] == 'h' && p[6] == 'u');
    let n = chars::dec(l.turns as nat);
    let secs = elapsed_secs(l.started_ms as nat, now_ms);
    let tail = ellipsized(l.condition@, 60) + l.reason_text();
    let first = "goal ["@ + l.state_text() + seq![']'];
    let turns = n + seq![' ', 't', 'u', 'r', 'n', '(', 's', ')'];
    let timing = duration_text(secs) + " total"@;
    chars::lemma_dec_digits(l.turns as nat);
    chars::lemma_lacks(first, p, 6);
    chars::lemma_lacks(turns, p, 1);
    lemma_total_lacks(secs);
    lemma_bullet(first, turns);
    let l1 = first + " · "@ + turns;
    lemma_bullet(l1, timing);
    let l2 = l1 + " · "@ + timing;
    lemma_bullet(l2, tail);
    assert("] · "@ =~= seq![']'] + " · "@);
    assert(" turn(s) · "@ =~= seq![' ', 't', 'u', 'r', 'n', '(', 's', ')'] + " · "@);
    assert(" total · "@ =~= " total"@ + " · "@);
    assert(l.line_at(now_ms) =~= l2 + " · "@ + tail);
}

/// The time of the current turn is shown exactly while the goal is active and a
/// turn has started (for a condition and a reason that do not hold these words
/// themselves); a finished goal shows its final state and the total time.
pub proof fn only_a_running_turn_is_timed(l: GoalLoop, now_ms: nat)
    requires
        !chars::contains_str(chars::on_one_line(l.condition@), "this turn"@),
        l.last_reason matches Some(r) ==> !chars::contains_str(
            chars::on_one_line(r@),
            "this turn"@,
        ),
    ensures
        chars::contains_str(l.line_at(now_ms), "this turn"@) <==> l.status == Status::Active
            && l.turn_started_ms is Some,
        l.status != Status::Active ==> chars::starts_with(
            l.line_at(now_ms),
            "goal ["@ + l.state_text() + "] · "@ + chars::dec(l.turns as nat) + " turn(s) · "@
                + duration_text(elapsed_secs(l.started_ms as nat, now_ms)) + " total · "@,
        ),
{
    let p = "this turn"@;
    let line = l.line_at(now_ms);
    let n = chars::dec(l.turns as nat);
    let d = duration_text(elapsed_secs(l.started_ms as nat, now_ms));
    lemma_tail_lacks(l);
    if l.status == Status::Active {
        match l.turn_started_ms {
            Some(t) => {
                reveal_strlit("this turn");
                reveal_strlit(" this turn / ");
                let a = "goal [active · "@ + l.phase_text() + "] · turn "@ + n + " · "@
                    + duration_text(elapsed_secs(t as nat, now_ms)) + seq![' '];
                let b = seq![' ', '/', ' '] + d + " total"@ + " · "@ + ellipsized(l.condition@, 60)
                    + l.reason_text();
                assert(" this turn / "@ =~= seq![' '] + p + seq![' ', '/', ' ']);
                assert(line =~= a + p + b);
                assert(p.subrange(0, p.len() as int) =~= p);
                assert(chars::matches_at(p, p, 0));
                chars::lemma_contains_part(a, p, b, p);
            },
            None => {
                lemma_waiting_line(l, now_ms);
            },
        }
    } else {
        lemma_finished_line(l, now_ms);
        let head = "goal ["@ + l.state_text() + "] · "@ + n + " turn(s) · "@ + d + " total · "@;
        assert(line.subrange(0, head.len() as int) =~= head);
    }
}

impl GoalLoop {
    /// A pursuit that has just been started.
    pub fn new(condition: String, now_ms: u64) -> (r: GoalLoop)
        ensures
            r.condition@ == condition@,
            r.started_ms == now_ms,
            r.status == Status::Active,
            r.turns == 0,
            r.last_reason is None,
            !r.cancel,
            r.turn_started_ms is None,
            r.phase == Step::Idle,
    {
        GoalLoop {
            condition,
            started_ms: now_ms,
            status: Status::Active,
            turns: 0,
            last_reason: None,
            cancel: false,
            turn_started_ms: None,
            phase: Step::Idle,
        }
    }

    /// Whether the loop still pursues the goal.
    pub open spec fn active(self) -> bool {
        self.status == Status::Active && !self.cancel
    }

    /// Whether the loop still pursues the goal.
    pub fn is_active(&self) -> (r: bool)
        ensures
            r == self.active(),
    {
        self.status == Status::Active && !self.cancel
    }

    /// Asks the loop to stop; a turn in flight finishes first.
    pub fn clear(&mut self)
        ensures
            *final(self) == (GoalLoop {
                cancel: true,
                status: if old(self).status == Status::Active {
                    Status::Cleared
                } else {
                    old(self).status
                },
                ..*old(self)
            }),
    {
        self.cancel = true;
        if self.status == Status::Active {
            self.status = Status::Cleared;
        }
    }

    /// The last check, as shown in the status line.
    pub open spec fn reason_text(self) -> Seq<char> {
        match self.last_reason {
            Some(r) => " · last check: "@ + chars::on_one_line(r@),
            None => ""@,
        }
    }

    pub open spec fn phase_text(self) -> Seq<char> {
        match self.phase {
            Step::Working => "working"@,
            Step::Checking => "checking"@,
            Step::Idle => "starting"@,
        }
    }

    pub open spec fn timing_text(self, now_ms: nat) -> Seq<char> {
        let total = duration_text(elapsed_secs(self.started_ms as nat, now_ms));
        match self.turn_started_ms {
            Some(t) => duration_text(elapsed_secs(t as nat, now_ms)) + " this turn / "@ + total
                + " total"@,
            None => total + " total"@,
        }
    }

    pub open spec fn state_text(self) -> Seq<char> {
        match self.status {
            Status::Achieved => "achieved"@,
            Status::Failed => "failed"@,
            _ => "cleared"@,
        }
    }

    /// The one-line report at time `now_ms`.
    pub open spec fn line_at(self, now_ms: nat) -> Seq<char> {
        if self.status == Status::Active {
            "goal [active · "@ + self.phase_text() + "] · turn "@ + chars::dec(self.turns as nat)
                + " · "@ + self.timing_text(now_ms) + " · "@ + ellipsized(self.condition@, 60)
                + self.reason_text()
        } else {
            "goal ["@ + self.state_text() + "] · "@ + chars::dec(self.turns as nat)
                + " turn(s) · "@ + duration_text(elapsed_secs(self.started_ms as nat, now_ms))
                + " total · "@ + ellipsized(self.condition@, 60) + self.reason_text()
        }
    }

    /// The one-line report at time `now_ms`: phase and turn while active, the final
    /// state and total time once finished.
    pub fn status_line(&self, now_ms: u64) -> (r: String)
        ensures
            r@ == self.line_at(now_ms as nat),
            !r@.contains('\n'),
    {
        proof {
            status_is_one_line(*self, now_ms as nat);
        }
        let total = fmt_duration(elapsed(self.started_ms, now_ms));
        let mut reason = "".to_owned();
        if let Some(why) = &self.last_reason {
            reason = " · last check: ".to_owned();
            reason.push_str(text::on_one_line(why.as_str()).as_str());
        }
        let condition = truncate_condition(self.condition.as_str());
        if self.status == Status::Active {
            let phase = match self.phase {
                Step::Working => "working",
                Step::Checking => "checking",
                Step::Idle => "starting",
            };
            let mut timing = String::new();
            match self.turn_started_ms {
                Some(t) => {
                    timing = fmt_duration(elapsed(t, now_ms));
                    timing.push_str(" this turn / ");
                    timing.push_str(total.as_str());
                    timing.push_str(" total");
                },
                None => {
                    timing = total;
                    timing.push_str(" total");
                },
            }
            let mut out = "goal [active · ".to_owned();
            out.push_str(phase);
            out.push_str("] · turn ");
            text::push_usize(&mut out, self.turns);
            out.push_str(" · ");
            out.push_str(timing.as_str());
            out.push_str(" · ");
            out.push_str(condition.as_str());
            out.push_str(reason.as_str());
            out
        } else {
            let state = match self.status {
                Status::Achieved => "achieved",
                Status::Failed => "failed",
                _ => "cleared",
            };
            let mut out = "goal [".to_owned();
            out.push_str(state);
            out.push_str("] · ");
            text::push_usize(&mut out, self.turns);
            out.push_str(" turn(s) · ");
            out.push_str(total.as_str());
            out.push_str(" total · ");
            out.push_str(condition.as_str());
            out.push_str(reason.as_str());
            out
        }
    }

    /// The lines shown when attaching to the goal: the condition and the report.
    pub fn attach_backfill(&self, now_ms: u64) -> (r: Vec<String>)
        ensures
            r@.len() == 2,
            r@[0]@ == "🎯 goal: "@ + self.condition@,
            r@[1]@ == self.line_at(now_ms as nat),
    {
        let mut head = "🎯 goal: ".to_owned();
        head.push_str(self.condition.as_str());
        let mut out: Vec<String> = Vec::new();
        out.push(head);
        out.push(self.status_line(now_ms));
        out
    }

    /// Records a state, and a reason when there is one.
    pub fn set(&mut self, status: Status, reason: Option<String>)
        ensures
            *final(self) == (GoalLoop {
                status,
                last_reason: if reason is Some {
                    reason
                } else {
                    old(self).last_reason
                },
                ..*old(self)
            }),
    {
        self.status = status;
        if reason.is_some() {
            self.last_reason = reason;
        }
    }

    /// What is announced when the loop starts.
    pub fn start_notice(&self) -> (r: String)
        ensures
            r@ == "started — "@ + self.condition@,
    {
        let mut out = "started — ".to_owned();
        out.push_str(self.condition.as_str());
        out
    }

    /// The state after an attempt to begin a turn.
    pub open spec fn begun(self, now_ms: u64) -> GoalLoop {
        if self.cancel {
            self
        } else if self.turns >= MAX_TURNS {
            GoalLoop { status: Status::Failed, ..self }
        } else {
            GoalLoop {
                turns: (self.turns + 1) as usize,
                turn_started_ms: Some(now_ms),
                phase: Step::Working,
                ..self
            }
        }
    }

    /// Begins the next turn, unless the loop was cleared or has run out of turns.
    pub fn next_turn(&mut self, guidance: Option<&str>, now_ms: u64) -> (r: TurnStart)
        ensures
            *final(self) == old(self).begun(now_ms),
            old(self).cancel ==> r is Stopped,
            !old(self).cancel && old(self).turns >= MAX_TURNS ==> (r matches TurnStart::GaveUp(n)
                && n@ == "stopped — hit the 25-turn backstop without meeting the goal"@),
            !old(self).cancel && old(self).turns < MAX_TURNS ==> (r matches TurnStart::Work {
                turn,
                directive,
                notice,
            } && turn == old(self).turns + 1 && directive@ == directive_for(
                old(self).condition@,
                str_view(guidance),
            ) && notice@ == "turn "@ + chars::dec(turn as nat) + ": working…"@),
    {
        if self.cancel {
            return TurnStart::Stopped;
        }
        if self.turns >= MAX_TURNS {
            self.status = Status::Failed;
            return TurnStart::GaveUp(
                "stopped — hit the 25-turn backstop without meeting the goal".to_owned(),
            );
        }
        self.turns = self.turns + 1;
        let directive = goal_directive(self.condition.as_str(), guidance);
        let mut notice = "turn ".to_owned();
        text::push_usize(&mut notice, self.turns);
        notice.push_str(": working…");
        self.turn_started_ms = Some(now_ms);
        self.phase = Step::Working;
        TurnStart::Work { turn: self.turns, directive, notice }
    }

    /// Takes in the end of a worker's turn: its error, or `None` when it finished.
    pub fn work_done(&mut self, error: Option<String>) -> (r: AfterWork)
        ensures
            match error {
                Some(e) => {
                    &&& r matches AfterWork::Failed(n) && n@ == "failed — "@ + e@
                    &&& final(self).status == Status::Failed
                    &&& final(self).last_reason matches Some(w) && w@ == e@
                    &&& *final(self) == (GoalLoop {
                        status: Status::Failed,
                        last_reason: final(self).last_reason,
                        ..*old(self)
                    })
                },
                None => if old(self).active() {
                    &&& r matches AfterWork::Check(n) && n@ == "turn "@ + chars::dec(
                        old(self).turns as nat,
                    ) + ": checking…"@
                    &&& *final(self) == (GoalLoop { phase: Step::Checking, ..*old(self) })
                } else {
                    r is Stopped && *final(self) == *old(self)
                },
            },
    {
        match error {
            Some(e) => {
                let mut notice = "failed — ".to_owned();
                notice.push_str(e.as_str());
                self.set(Status::Failed, Some(e));
                AfterWork::Failed(notice)
            },
            None => {
                if !self.is_active() {
                    return AfterWork::Stopped;
                }
                let mut notice = "turn ".to_owned();
                text::push_usize(&mut notice, self.turns);
                notice.push_str(": checking…");
                self.phase = Step::Checking;
                AfterWork::Check(notice)
            },
        }
    }

    /// Takes in the judge's answer: whether the goal is met and why, or why it
    /// could not be judged.
    pub fn judged(&mut self, verdict: Result<(bool, String), String>) -> (r: AfterCheck)
        ensures
            match verdict {
                Ok(v) => if v.0 {
                    &&& r matches AfterCheck::Deliver { turns, reason } && turns == old(self).turns
                        && reason@ == v.1@
                    &&& final(self).status == Status::Achieved
                    &&& final(self).last_reason matches Some(w) && w@ == v.1@
                } else {
                    &&& r matches AfterCheck::Retry(g) && g@ == v.1@
                    &&& final(self).status == Status::Active
                    &&& final(self).last_reason matches Some(w) && w@ == v.1@
                },
                Err(e) => {
                    &&& r matches AfterCheck::Retry(g) && g@ == "could not verify this turn: "@ + e@
                    &&& final(self).status == Status::Active
                    &&& final(self).last_reason matches Some(w) && w@
                        == "could not verify this turn: "@ + e@
                },
            },
            *final(self) == (GoalLoop {
                status: final(self).status,
                last_reason: final(self).last_reason,
                ..*old(self)
            }),
    {
        match verdict {
            Ok((met, reason)) => {
                let kept = reason.clone();
                if met {
                    self.set(Status::Achieved, Some(kept));
                    AfterCheck::Deliver { turns: self.turns, reason }
                } else {
                    self.set(Status::Active, Some(kept));
                    AfterCheck::Retry(reason)
                }
            },
            Err(e) => {
                let mut note = "could not verify this turn: ".to_owned();
                note.push_str(e.as_str());
                let kept = note.clone();
                self.set(Status::Active, Some(kept));
                AfterCheck::Retry(note)
            },
        }
    }
}

/// A fresh identifier for one turn's worker.
pub fn turn_run_id() -> (r: String)
    ensures
        exists|id: Seq<char>| #[trigger] ids::is_uuid(id) && r@ == "goal-"@ + id,
{
    let mut out = "goal-".to_owned();
    let id = ids::fresh_id();
    out.push_str(id.as_str());
    assert(ids::is_uuid(id@) && out@ == "goal-"@ + id@);
    out
}

/// The lines that announce an achieved goal.
pub fn delivery_lines(turns: usize, reason: &str) -> (r: Vec<String>)
    ensures
        r@.len() == 2,
        r@[0]@ == "\x1b[2m── goal achieved ("@ + chars::dec(turns as nat)
            + " turn(s)) ──\x1b[0m"@,
        r@[1]@ == "\x1b[2m"@ + reason@ + "\x1b[0m"@,
{
    let mut head = "\x1b[2m── goal achieved (".to_owned();
    text::push_usize(&mut head, turns);
    head.push_str(" turn(s)) ──\x1b[0m");
    let mut why = "\x1b[2m".to_owned();
    why.push_str(reason);
    why.push_str("\x1b[0m");
    let mut out: Vec<String> = Vec::new();
    out.push(head);
    out.push(why);
    out
}

/// The work output as the judge sees it.
pub open spec fn capped(work: Seq<char>) -> Seq<char> {
    if work.len() > JUDGE_INPUT_CAP {
        work.take(JUDGE_INPUT_CAP as int) + "\n…(truncated)"@
    } else {
        work
    }
}

/// What the judge is asked.
pub open spec fn judge_question(condition: Seq<char>, work: Seq<char>) -> Seq<char> {
    "GOAL:\n"@ + condition + "\n\nWORK OUTPUT:\n"@ + capped(work)
}

/// What the judge is asked: the goal and the work output, capped.
pub fn judge_message(condition: &str, work: &str) -> (r: String)
    ensures
        r@ == judge_question(condition@, work@),
{
    let mut out = "GOAL:\n".to_owned();
    out.push_str(condition);
    out.push_str("\n\nWORK OUTPUT:\n");
    let v = text::chars_of(work);
    let ghost head = out@;
    if v.len() > JUDGE_INPUT_CAP {
        text::push_chars(&mut out, text::upto(&v, JUDGE_INPUT_CAP));
        out.push_str("\n…(truncated)");
        assert(out@ =~= head + capped(work@));
    } else {
        out.push_str(work);
    }
    out
}

/// The request body for the judge.
pub open spec fn request_body(
    model: Seq<char>,
    system: JsonV,
    condition: Seq<char>,
    work: Seq<char>,
) -> JsonV {
    let none = Seq::<(Seq<char>, JsonV)>::empty();
    let message = json::bind(
        json::bind(none, "role"@, JsonV::Str("user"@)),
        "content"@,
        JsonV::Str(judge_question(condition, work)),
    );
    JsonV::Object(
        json::bind(
            json::bind(
                json::bind(
                    json::bind(none, "model"@, JsonV::Str(model)),
                    "max_tokens"@,
                    JsonV::Number("512"@),
                ),
                "system"@,
                system,
            ),
            "messages"@,
            JsonV::Array(seq![JsonV::Object(message)]),
        ),
    )
}

/// The request body for the judge; `system` is the instructions in the shape that
/// the credential needs.
pub fn judge_request(model: &str, system: Json, condition: &str, work: &str) -> (r: Json)
    ensures
        r.view() == request_body(model@, system.view(), condition@, work@),
{
    let mut message = Object::new();
    message.insert("role".to_owned(), Json::Str("user".to_owned()));
    message.insert("content".to_owned(), Json::Str(judge_message(condition, work)));
    let ghost mv = message.view();
    let mut messages: Vec<Json> = Vec::new();
    let first = Json::Object(message);
    assert(first.view() == JsonV::Object(mv));
    messages.push(first);
    let list = Json::Array(messages);
    assert(list.view()->Array_0 =~= seq![JsonV::Object(mv)]);
    let mut body = Object::new();
    body.insert("model".to_owned(), Json::Str(model.to_owned()));
    body.insert("max_tokens".to_owned(), Json::Number("512".to_owned()));
    body.insert("system".to_owned(), system);
    body.insert("messages".to_owned(), list);
    Json::Object(body)
}

/// The text of the first text block among `blocks`.
pub open spec fn first_text(blocks: Seq<JsonV>) -> Option<Seq<char>>
    decreases blocks.len(),
{
    if blocks.len() == 0 {
        None
    } else if json::member_text(blocks[0], "type"@) == Some("text"@) && json::member_text(
        blocks[0],
        "text"@,
    ) is Some {
        json::member_text(blocks[0], "text"@)
    } else {
        first_text(blocks.skip(1))
    }
}

/// The error message inside a reply.
pub open spec fn api_error(v: JsonV) -> Option<Seq<char>> {
    match json::member(v, "error"@) {
        Some(e) => json::member_text(e, "message"@),
        None => None,
    }
}

/// The judge's words in a reply.
pub open spec fn reply_text(v: JsonV) -> Seq<char> {
    match json::member(v, "content"@) {
        Some(JsonV::Array(blocks)) => match first_text(blocks) {
            Some(t) => chars::trim(t),
            None => seq![],
        },
        _ => seq![],
    }
}

/// Reads a reply: the judge's words, or the error that the service reported.
pub fn judge_reply(v: &Json) -> (r: Result<String, String>)
    ensures
        match api_error(v.view()) {
            Some(m) => r matches Err(e) && e@ == "judge api error: "@ + m,
            None => r matches Ok(t) && t@ == reply_text(v.view()),
        },
{
    if let Some(e) = v.get("error") {
        if let Some(m) = e.str_member("message") {
            let mut out = "judge api error: ".to_owned();
            out.push_str(m);
            return Err(out);
        }
    }
    let none = String::new();
    assert(none@ =~= seq![]);
    match v.get("content") {
        Some(Json::Array(blocks)) => {
            let ghost bv = json::member(v.view(), "content"@)->0->Array_0;
            let mut i: usize = 0;
            assert(bv.skip(0) =~= bv);
            while i < blocks.len()
                invariant
                    bv.len() == blocks@.len(),
                    forall|j: int| 0 <= j < bv.len() ==> #[trigger] bv[j] == blocks@[j].view(),
                    i <= blocks@.len(),
                    api_error(v.view()) is None,
                    json::member(v.view(), "content"@) == Some(JsonV::Array(bv)),
                    first_text(bv) == first_text(bv.skip(i as int)),
                decreases blocks@.len() - i,
            {
                let b = &blocks[i];
                assert(bv.skip(i as int)[0] == b.view());
                let is_text = match b.str_member("type") {
                    Some(t) => text::eq(t, "text"),
                    None => false,
                };
                if is_text {
                    if let Some(t) = b.str_member("text") {
                        let tv = text::chars_of(t);
                        return Ok(text::string_of(text::trim(&tv)));
                    }
                }
                assert(bv.skip(i as int).skip(1) =~= bv.skip(i + 1));
                i += 1;
            }
            Ok(none)
        },
        _ => Ok(none),
    }
}

/// What a verdict document says: whether the goal is met, and why.
pub open spec fn verdict_in(v: JsonV) -> (bool, Seq<char>) {
    (
        match json::member(v, "met"@) {
            Some(m) => json::bool_of(m) == Some(true),
            None => false,
        },
        match json::member_text(v, "reason"@) {
            Some(t) => t,
            None => "(no reason given)"@,
        },
    )
}

/// Reads a verdict document.
pub fn verdict_from(v: &Json) -> (r: (bool, String))
    ensures
        (r.0, r.1@) == verdict_in(v.view()),
{
    let met = match v.get("met") {
        Some(m) => match m.as_bool() {
            Some(b) => b,
            None => false,
        },
        None => false,
    };
    let reason = match v.str_member("reason") {
        Some(t) => t.to_owned(),
        None => "(no reason given)".to_owned(),
    };
    (met, reason)
}

/// The part of `s` from its first `{` to its last `}`, if the first comes before.
pub open spec fn braced(s: Seq<char>) -> Option<Seq<char>> {
    let a = chars::find_char(s, '{');
    let b = s.len() - 1 - chars::find_char(s.reverse(), '}');
    if a < b {
        Some(s.subrange(a, b + 1))
    } else {
        None
    }
}

/// The document that the judge's words hold, as a whole or inside other words.
pub open spec fn verdict_document(s: Seq<char>) -> Result<JsonV, Seq<char>> {
    match json::document(s) {
        Ok(v) => Ok(v),
        Err(e) => match braced(s) {
            Some(b) => json::document(b),
            None => Err(e),
        },
    }
}

fn braced_part(s: &[char]) -> (r: Option<&[char]>)
    ensures
        match r {
            Some(p) => braced(s@) == Some(p@),
            None => braced(s@) is None,
        },
{
    let a = text::find_char(s, '{');
    let mut b: usize = s.len();
    while b > 0 && s[b - 1] != '}'
        invariant
            b <= s@.len(),
            forall|j: int| b <= j < s@.len() ==> s@[j] != '}',
        decreases b,
    {
        b -= 1;
    }
    proof {
        let r = s@.reverse();
        let k = s@.len() - b;
        assert forall|j: int| 0 <= j < k implies !chars::is_char('}')(#[trigger] r[j]) by {
            assert(r[j] == s@[s@.len() - 1 - j]);
        }
        if k < r.len() {
            assert(r[k] == s@[b - 1]);
        }
        chars::lemma_find(r, chars::is_char('}'), k as int);
    }
    if b > 0 && a < b - 1 {
        Some(vstd::slice::slice_subrange(s, a, b))
    } else {
        None
    }
}

/// Reads the judge's words: bare JSON, or JSON with prose around it.
pub fn judge_verdict(words: &str) -> (r: Result<(bool, String), String>)
    ensures
        match verdict_document(words@) {
            Ok(v) => r matches Ok(p) && (p.0, p.1@) == verdict_in(v),
            Err(m) => r matches Err(e) && e@ == "couldn't parse the judge's answer: "@ + m + " (got: "@
                + words@ + ")"@,
        },
{
    let mut message = String::new();
    match json::parse(words) {
        Ok(v) => {
            return Ok(verdict_from(&v));
        },
        Err(e) => {
            let all = text::chars_of(words);
            match braced_part(&all) {
                Some(p) => match json::parse(text::string_of(p).as_str()) {
                    Ok(v) => {
                        return Ok(verdict_from(&v));
                    },
                    Err(e2) => {
                        message = e2;
                    },
                },
                None => {
                    message = e;
                },
            }
        },
    }
    let mut out = "couldn't parse the judge's answer: ".to_owned();
    out.push_str(message.as_str());
    out.push_str(" (got: ");
    out.push_str(words);
    out.push_str(")");
    Err(out)
}

/// The pursuit after `n` attempts to begin a turn.
pub open spec fn after_turns(l: GoalLoop, n: nat, now_ms: u64) -> GoalLoop
    decreases n,
{
    if n == 0 {
        l
    } else {
        after_turns(l, (n - 1) as nat, now_ms).begun(now_ms)
    }
}

/// An unattended loop cannot run away: however often it tries to begin a turn, it
/// begins at most [`MAX_TURNS`], and none once it was cleared.
pub proof fn turns_are_bounded(l: GoalLoop, n: nat, now_ms: u64)
    requires
        l.turns <= MAX_TURNS,
    ensures
        after_turns(l, n, now_ms).turns <= MAX_TURNS,
        l.cancel ==> after_turns(l, n, now_ms) == l,
        !l.cancel && l.turns + n > MAX_TURNS ==> after_turns(l, n, now_ms).status == Status::Failed,
    decreases n,
{
    if n > 0 {
        turns_are_bounded(l, (n - 1) as nat, now_ms);
        if !l.cancel {
            lemma_turn_count(l, (n - 1) as nat, now_ms);
        }
    }
}

proof fn lemma_turn_count(l: GoalLoop, n: nat, now_ms: u64)
    requires
        l.turns <= MAX_TURNS,
        !l.cancel,
    ensures
        !after_turns(l, n, now_ms).cancel,
        after_turns(l, n, now_ms).turns == (if l.turns + n > MAX_TURNS {
            MAX_TURNS as int
        } else {
            l.turns + n
        }),
    decreases n,
{
    if n > 0 {
        lemma_turn_count(l, (n - 1) as nat, now_ms);
    }
}

/// Lifecycle state of a goal.
#[derive(Debug, Clone, Copy, PartialEq, Eq, Structural)]
pub enum GoalStatus {
    /// Being worked toward.
    Active,
    /// Set aside.
    Paused,
    /// Achieved; terminal.
    Completed,
    /// Dropped; terminal.
    Abandoned,
}

impl Default for GoalStatus {
    fn default() -> (r: GoalStatus)
        ensures
            r == GoalStatus::Active,
    {
        GoalStatus::Active
    }
}

impl GoalStatus {
    /// The canonical token.
    pub open spec fn token(self) -> Seq<char> {
        match self {
            GoalStatus::Active => "active"@,
            GoalStatus::Paused => "paused"@,
            GoalStatus::Completed => "completed"@,
            GoalStatus::Abandoned => "abandoned"@,
        }
    }

    pub open spec fn terminal(self) -> bool {
        self == GoalStatus::Completed || self == GoalStatus::Abandoned
    }

    /// The canonical lower-case token.
    pub fn as_str(&self) -> (r: &'static str)
        ensures
            r@ == self.token(),
    {
        match self {
            GoalStatus::Active => "active",
            GoalStatus::Paused => "paused",
            GoalStatus::Completed => "completed",
            GoalStatus::Abandoned => "abandoned",
        }
    }

    /// The status of a stored token, whatever its case and outer whitespace; an
    /// unknown one counts as active.
    pub fn from_token(s: &str) -> (r: Self)
        ensures
            r == status_of_token(s@),
    {
        let v = text::chars_of(s);
        let t = text::lower(text::trim(&v));
        if text::is(&t, "paused") {
            GoalStatus::Paused
        } else if text::is(&t, "completed") {
            GoalStatus::Completed
        } else if text::is(&t, "abandoned") {
            GoalStatus::Abandoned
        } else {
            GoalStatus::Active
        }
    }

    /// Whether the status cannot change any more.
    pub fn is_terminal(&self) -> (r: bool)
        ensures
            r == self.terminal(),
    {
        match self {
            GoalStatus::Completed | GoalStatus::Abandoned => true,
            _ => false,
        }
    }

    /// The token as an owned string.
    pub fn to_string(&self) -> (r: String)
        ensures
            r@ == self.token(),
    {
        self.as_str().to_owned()
    }
}

/// The status of a stored token.
pub open spec fn status_of_token(s: Seq<char>) -> GoalStatus {
    let t = chars::lower(chars::trim(s));
    if t == "paused"@ {
        GoalStatus::Paused
    } else if t == "completed"@ {
        GoalStatus::Completed
    } else if t == "abandoned"@ {
        GoalStatus::Abandoned
    } else {
        GoalStatus::Active
    }
}

/// A status survives being stored and loaded.
pub proof fn status_round_trips(s: GoalStatus)
    ensures
        status_of_token(s.token()) == s,
{
    reveal_strlit("active");
    reveal_strlit("paused");
    reveal_strlit("completed");
    reveal_strlit("abandoned");
    let t = s.token();
    chars::lemma_trim_start(t, 0);
    assert(t.skip(0) =~= t);
    chars::lemma_trim_end(t, t.len() as int);
    assert(t.take(t.len() as int) =~= t);
    assert(chars::lower(t) =~= t);
    assert("active"@[0] != "paused"@[0]);
    assert("completed"@[0] != "abandoned"@[0]);
}

/// A checkpoint on the way to a goal.
#[derive(Debug, Clone, PartialEq, Eq)]
pub struct Milestone {
    pub id: String,
    pub title: String,
    pub done: bool,
}

impl Milestone {
    /// An open milestone with a fresh identifier.
    pub fn new(title: &str) -> (r: Self)
        ensures
            r.title@ == title@,
            !r.done,
            ids::is_uuid(r.id@),
    {
        Milestone { id: ids::fresh_id(), title: title.to_owned(), done: false }
    }
}

/// Something in the way of a goal.
#[derive(Debug, Clone, PartialEq, Eq)]
pub struct Blocker {
    pub id: String,
    pub description: String,
    pub resolved: bool,
}

impl Blocker {
    /// An open blocker with a fresh identifier.
    pub fn new(description: &str) -> (r: Self)
        ensures
            r.description@ == description@,
            !r.resolved,
            ids::is_uuid(r.id@),
    {
        Blocker { id: ids::fresh_id(), description: description.to_owned(), resolved: false }
    }
}

/// A work item that a goal is tied to.
#[derive(Debug, Clone, PartialEq, Eq)]
pub struct TaskRef {
    pub key: String,
    pub title: Option<String>,
    pub done: bool,
}

impl TaskRef {
    /// An open reference without a title.
    pub fn new(key: &str) -> (r: Self)
        ensures
            r.key@ == key@,
            r.title is None,
            !r.done,
    {
        TaskRef { key: key.to_owned(), title: None, done: false }
    }

    /// An open reference with a title.
    pub fn with_title(key: &str, title: &str) -> (r: Self)
        ensures
            r.key@ == key@,
            r.title matches Some(t) && t@ == title@,
            !r.done,
    {
        TaskRef { key: key.to_owned(), title: Some(title.to_owned()), done: false }
    }
}

/// A durable goal. A subgoal names its parent.
#[derive(Debug, Clone, PartialEq, Eq)]
pub struct Goal {
    pub id: String,
    pub title: String,
    pub description: String,
    pub status: GoalStatus,
    pub milestones: Vec<Milestone>,
    pub blockers: Vec<Blocker>,
    pub linked_tasks: Vec<TaskRef>,
    pub parent_id: Option<String>,
    pub created_at: i64,
    pub updated_at: i64,
}

pub open spec fn done_milestones(ms: Seq<Milestone>) -> nat
    decreases ms.len(),
{
    if ms.len() == 0 {
        0
    } else {
        done_milestones(ms.drop_last()) + (if ms.last().done {
            1nat
        } else {
            0
        })
    }
}

pub open spec fn done_tasks(ts: Seq<TaskRef>) -> nat
    decreases ts.len(),
{
    if ts.len() == 0 {
        0
    } else {
        done_tasks(ts.drop_last()) + (if ts.last().done {
            1nat
        } else {
            0
        })
    }
}

/// The blockers that are not resolved, in order.
pub open spec fn unresolved(bs: Seq<Blocker>) -> Seq<Blocker>
    decreases bs.len(),
{
    if bs.len() == 0 {
        seq![]
    } else if bs.last().resolved {
        unresolved(bs.drop_last())
    } else {
        unresolved(bs.drop_last()).push(bs.last())
    }
}

/// The index of the first open milestone.
pub open spec fn first_open(ms: Seq<Milestone>) -> Option<int>
    decreases ms.len(),
{
    if ms.len() == 0 {
        None
    } else if !ms[0].done {
        Some(0)
    } else {
        match first_open(ms.skip(1)) {
            Some(i) => Some(i + 1),
            None => None,
        }
    }
}

/// `done` of `total` as a whole percentage, rounded half up; zero of nothing.
pub open spec fn percent(done: nat, total: nat) -> nat {
    if total == 0 {
        0
    } else {
        (done * 100 + total / 2) / total
    }
}

/// A percentage is the nearest whole one, and at most 100.
pub proof fn percent_is_nearest(done: nat, total: nat)
    requires
        done <= total,
        total > 0,
    ensures
        percent(done, total) <= 100,
        percent(done, total) == 100 <==> 200 * done >= 199 * total,
        2 * (percent(done, total) * total - done * 100) <= total,
        2 * (done * 100 - percent(done, total) * total) <= total,
{
    let p = percent(done, total);
    let n = done * 100 + total / 2;
    assert(n == p * total + n % total) by {
        vstd::arithmetic::div_mod::lemma_fundamental_div_mod(n as int, total as int);
        assert(total * p == p * total) by (nonlinear_arith);
    }
    assert(n % total < total);
    if p > 100 {
        assert(p * total >= 101 * total) by (nonlinear_arith)
            requires
                p >= 101,
        ;
    }
    if p < 100 {
        assert(p * total <= 99 * total) by (nonlinear_arith)
            requires
                p <= 99,
        ;
    }
    if p == 100 {
        assert(p * total == 100 * total) by (nonlinear_arith)
            requires
                p == 100,
        ;
    }
}

impl Goal {
    /// The goal as it is when it was last changed at `now`.
    pub open spec fn stamped(self, now: i64) -> Goal {
        Goal { updated_at: now, ..self }
    }

    /// Whether every item is done, of one or more.
    pub open spec fn finished(self) -> bool {
        self.items() > 0 && self.items_done() == self.items()
    }

    /// How many items there are: milestones and linked tasks.
    pub open spec fn items(self) -> nat {
        self.milestones@.len() + self.linked_tasks@.len()
    }

    /// How many items are done.
    pub open spec fn items_done(self) -> nat {
        done_milestones(self.milestones@) + done_tasks(self.linked_tasks@)
    }

    /// Progress over milestones and linked tasks; a completed goal is at 100.
    pub open spec fn progress(self) -> nat {
        if self.status == GoalStatus::Completed {
            100
        } else {
            percent(self.items_done(), self.items())
        }
    }

    /// Active, without open blockers, and not finished.
    pub open spec fn actionable(self) -> bool {
        self.status == GoalStatus::Active && unresolved(self.blockers@).len() == 0
            && !self.finished()
    }

    /// A goal of that identifier and time, otherwise empty.
    pub fn made(title: &str, id: String, now: i64) -> (r: Self)
        ensures
            r.id == id,
            r.title@ == title@,
            r.description@ == ""@,
            r.status == GoalStatus::Active,
            r.milestones@.len() == 0,
            r.blockers@.len() == 0,
            r.linked_tasks@.len() == 0,
            r.parent_id is None,
            r.created_at == now,
            r.updated_at == now,
    {
        Goal {
            id,
            title: title.to_owned(),
            description: "".to_owned(),
            status: GoalStatus::Active,
            milestones: Vec::new(),
            blockers: Vec::new(),
            linked_tasks: Vec::new(),
            parent_id: None,
            created_at: now,
            updated_at: now,
        }
    }

    /// A fresh top-level goal: active, empty, stamped now.
    pub fn new(title: &str) -> (r: Self)
        ensures
            r.title@ == title@,
            ids::is_uuid(r.id@),
            r.description@ == ""@,
            r.status == GoalStatus::Active,
            r.milestones@.len() == 0,
            r.blockers@.len() == 0,
            r.linked_tasks@.len() == 0,
            r.parent_id is None,
            r.created_at == r.updated_at,
    {
        Goal::made(title, ids::fresh_id(), ids::now_secs())
    }

    /// A fresh goal under `parent_id`.
    pub fn subgoal(title: &str, parent_id: &str) -> (r: Self)
        ensures
            r.title@ == title@,
            ids::is_uuid(r.id@),
            r.description@ == ""@,
            r.status == GoalStatus::Active,
            r.milestones@.len() == 0,
            r.blockers@.len() == 0,
            r.linked_tasks@.len() == 0,
            r.parent_id matches Some(p) && p@ == parent_id@,
            r.created_at == r.updated_at,
    {
        let mut g = Goal::new(title);
        g.parent_id = Some(parent_id.to_owned());
        g
    }

    /// The goal with that description.
    pub fn with_description(self, description: &str) -> (r: Self)
        ensures
            r.description@ == description@,
            r == (Goal { description: r.description, ..self }),
    {
        let mut g = self;
        g.description = description.to_owned();
        g
    }

    /// Whether the goal has a parent.
    pub fn is_subgoal(&self) -> (r: bool)
        ensures
            r == self.parent_id is Some,
    {
        self.parent_id.is_some()
    }

    /// Stamps the goal as changed at `now`.
    pub fn touch_at(&mut self, now: i64)
        ensures
            *final(self) == (Goal { updated_at: now, ..*old(self) }),
    {
        self.updated_at = now;
    }

    /// Stamps the goal as changed now.
    pub fn touch(&mut self)
        ensures
            exists|now: i64| *final(self) == #[trigger] old(self).stamped(now),
    {
        let now: i64 = ids::now_secs();
        self.touch_at(now);
        assert(*self == old(self).stamped(now));
    }

    /// Adds that milestone at `now` and returns it.
    pub fn push_milestone(&mut self, milestone: Milestone, now: i64) -> (r: &Milestone)
        ensures
            *r == milestone,
            final(self).milestones@ == old(self).milestones@.push(milestone),
            *final(self) == (Goal { milestones: final(self).milestones, ..old(self).stamped(now) }),
    {
        self.milestones.push(milestone);
        self.touch_at(now);
        &self.milestones[self.milestones.len() - 1]
    }

    /// Adds an open milestone and returns it.
    pub fn add_milestone(&mut self, title: &str) -> (r: &Milestone)
        ensures
            *r == final(self).milestones@.last(),
            final(self).milestones@.len() == old(self).milestones@.len() + 1,
            final(self).milestones@.drop_last() == old(self).milestones@,
            final(self).milestones@.last().title@ == title@,
            !final(self).milestones@.last().done,
            ids::is_uuid(final(self).milestones@.last().id@),
            exists|now: i64|
                *final(self) == (Goal {
                    milestones: final(self).milestones,
                    ..#[trigger] old(self).stamped(now)
                }),
    {
        let now: i64 = ids::now_secs();
        self.push_milestone(Milestone::new(title), now)
    }

    /// Adds that blocker at `now` and returns it.
    pub fn push_blocker(&mut self, blocker: Blocker, now: i64) -> (r: &Blocker)
        ensures
            *r == blocker,
            final(self).blockers@ == old(self).blockers@.push(blocker),
            *final(self) == (Goal { blockers: final(self).blockers, ..old(self).stamped(now) }),
    {
        self.blockers.push(blocker);
        self.touch_at(now);
        &self.blockers[self.blockers.len() - 1]
    }

    /// Adds an open blocker and returns it.
    pub fn add_blocker(&mut self, description: &str) -> (r: &Blocker)
        ensures
            *r == final(self).blockers@.last(),
            final(self).blockers@.len() == old(self).blockers@.len() + 1,
            final(self).blockers@.drop_last() == old(self).blockers@,
            final(self).blockers@.last().description@ == description@,
            !final(self).blockers@.last().resolved,
            ids::is_uuid(final(self).blockers@.last().id@),
            exists|now: i64|
                *final(self) == (Goal {
                    blockers: final(self).blockers,
                    ..#[trigger] old(self).stamped(now)
                }),
    {
        let now: i64 = ids::now_secs();
        self.push_blocker(Blocker::new(description), now)
    }

    /// Whether a task of that key is linked.
    pub open spec fn links(self, key: Seq<char>) -> bool {
        exists|i: int| 0 <= i < self.linked_tasks@.len() && (#[trigger] self.linked_tasks@[i]).key@ == key
    }

    /// Links a task at `now`, unless its key is linked already.
    pub fn link_task_at(&mut self, task: TaskRef, now: i64)
        ensures
            old(self).links(task.key@) ==> *final(self) == *old(self),
            !old(self).links(task.key@) ==> final(self).linked_tasks@
                == old(self).linked_tasks@.push(task) && *final(self) == (Goal {
                linked_tasks: final(self).linked_tasks,
                ..old(self).stamped(now)
            }),
    {
        let mut i: usize = 0;
        while i < self.linked_tasks.len()
            invariant
                *self == *old(self),
                i <= self.linked_tasks@.len(),
                forall|j: int| 0 <= j < i ==> (#[trigger] self.linked_tasks@[j]).key@ != task.key@,
            decreases self.linked_tasks@.len() - i,
        {
            if text::eq(self.linked_tasks[i].key.as_str(), task.key.as_str()) {
                return;
            }
            i += 1;
        }
        self.linked_tasks.push(task);
        self.touch_at(now);
    }

    /// Links a task, unless its key is linked already.
    pub fn link_task(&mut self, task: TaskRef)
        ensures
            old(self).links(task.key@) ==> *final(self) == *old(self),
            !old(self).links(task.key@) ==> final(self).linked_tasks@
                == old(self).linked_tasks@.push(task),
            !old(self).links(task.key@) ==> exists|now: i64|
                *final(self) == (Goal {
                    linked_tasks: final(self).linked_tasks,
                    ..#[trigger] old(self).stamped(now)
                }),
    {
        let now: i64 = ids::now_secs();
        self.link_task_at(task, now);
    }

    /// Sets the status at `now`.
    pub fn set_status_at(&mut self, status: GoalStatus, now: i64)
        ensures
            *final(self) == (Goal { status, ..old(self).stamped(now) }),
    {
        self.status = status;
        self.touch_at(now);
    }

    /// Sets the status.
    pub fn set_status(&mut self, status: GoalStatus)
        ensures
            exists|now: i64|
                *final(self) == (Goal {
                    status,
                    ..#[trigger] old(self).stamped(now)
                }),
    {
        let now: i64 = ids::now_secs();
        self.set_status_at(status, now);
    }

    /// Done and total milestones.
    pub fn milestone_progress(&self) -> (r: (usize, usize))
        ensures
            r.0 == done_milestones(self.milestones@),
            r.1 == self.milestones@.len(),
            r.0 <= r.1,
    {
        let mut n: usize = 0;
        let mut i: usize = 0;
        assert(self.milestones@.take(0) =~= Seq::empty());
        while i < self.milestones.len()
            invariant
                i <= self.milestones@.len(),
                n <= i,
                n == done_milestones(self.milestones@.take(i as int)),
            decreases self.milestones@.len() - i,
        {
            assert(self.milestones@.take(i + 1).drop_last() =~= self.milestones@.take(i as int));
            if self.milestones[i].done {
                n += 1;
            }
            i += 1;
        }
        assert(self.milestones@.take(i as int) =~= self.milestones@);
        (n, self.milestones.len())
    }

    /// How many blockers are open.
    pub fn open_blockers(&self) -> (r: usize)
        ensures
            r == unresolved(self.blockers@).len(),
    {
        let mut n: usize = 0;
        let mut i: usize = 0;
        assert(self.blockers@.take(0) =~= Seq::empty());
        while i < self.blockers.len()
            invariant
                i <= self.blockers@.len(),
                n <= i,
                n == unresolved(self.blockers@.take(i as int)).len(),
            decreases self.blockers@.len() - i,
        {
            assert(self.blockers@.take(i + 1).drop_last() =~= self.blockers@.take(i as int));
            if !self.blockers[i].resolved {
                n += 1;
            }
            i += 1;
        }
        assert(self.blockers@.take(i as int) =~= self.blockers@);
        n
    }

    /// Done and total linked tasks.
    pub fn linked_task_progress(&self) -> (r: (usize, usize))
        ensures
            r.0 == done_tasks(self.linked_tasks@),
            r.1 == self.linked_tasks@.len(),
            r.0 <= r.1,
    {
        let mut n: usize = 0;
        let mut i: usize = 0;
        assert(self.linked_tasks@.take(0) =~= Seq::empty());
        while i < self.linked_tasks.len()
            invariant
                i <= self.linked_tasks@.len(),
                n <= i,
                n == done_tasks(self.linked_tasks@.take(i as int)),
            decreases self.linked_tasks@.len() - i,
        {
            assert(self.linked_tasks@.take(i + 1).drop_last() =~= self.linked_tasks@.take(
                i as int,
            ));
            if self.linked_tasks[i].done {
                n += 1;
            }
            i += 1;
        }
        assert(self.linked_tasks@.take(i as int) =~= self.linked_tasks@);
        (n, self.linked_tasks.len())
    }

    /// The first linked task of that key that is not done.
    pub open spec fn open_task(self, key: Seq<char>, i: int) -> bool {
        &&& 0 <= i < self.linked_tasks@.len()
        &&& self.linked_tasks@[i].key@ == key
        &&& !self.linked_tasks@[i].done
        &&& forall|j: int|
            0 <= j < i ==> !((#[trigger] self.linked_tasks@[j]).key@ == key
                && !self.linked_tasks@[j].done)
    }

    /// Marks the linked task of that key as done at `now`; whether that changed
    /// anything.
    pub fn complete_linked_task_at(&mut self, key: &str, now: i64) -> (r: bool)
        ensures
            r == exists|i: int| old(self).open_task(key@, i),
            !r ==> *final(self) == *old(self),
            r ==> exists|i: int| #[trigger]
                old(self).open_task(key@, i) && final(self).linked_tasks@
                    == old(self).linked_tasks@.update(
                    i,
                    TaskRef { done: true, ..old(self).linked_tasks@[i] },
                ),
            r ==> *final(self) == (Goal {
                linked_tasks: final(self).linked_tasks,
                ..old(self).stamped(now)
            }),
    {
        let mut i: usize = 0;
        while i < self.linked_tasks.len()
            invariant
                *self == *old(self),
                i <= self.linked_tasks@.len(),
                forall|j: int|
                    0 <= j < i ==> !((#[trigger] self.linked_tasks@[j]).key@ == key@
                        && !self.linked_tasks@[j].done),
            decreases self.linked_tasks@.len() - i,
        {
            if text::eq(self.linked_tasks[i].key.as_str(), key) && !self.linked_tasks[i].done {
                assert(old(self).open_task(key@, i as int));
                self.linked_tasks[i].done = true;
                self.touch_at(now);
                return true;
            }
            i += 1;
        }
        false
    }

    /// Marks the linked task of that key as done; whether that changed anything.
    pub fn complete_linked_task(&mut self, key: &str) -> (r: bool)
        ensures
            r == exists|i: int| old(self).open_task(key@, i),
            !r ==> *final(self) == *old(self),
            r ==> exists|i: int| #[trigger]
                old(self).open_task(key@, i) && final(self).linked_tasks@
                    == old(self).linked_tasks@.update(
                    i,
                    TaskRef { done: true, ..old(self).linked_tasks@[i] },
                ),
            r ==> exists|now: i64|
                *final(self) == (Goal {
                    linked_tasks: final(self).linked_tasks,
                    ..#[trigger] old(self).stamped(now)
                }),
    {
        let now: i64 = ids::now_secs();
        self.complete_linked_task_at(key, now)
    }

    /// Progress from 0 to 100.
    pub fn progress_percent(&self) -> (r: u8)
        ensures
            r == self.progress(),
            r <= 100,
    {
        if self.status == GoalStatus::Completed {
            return 100;
        }
        let (md, mt) = self.milestone_progress();
        let (td, tt) = self.linked_task_progress();
        rounded(md as u128 + td as u128, mt as u128 + tt as u128)
    }

    /// The first milestone that is not done.
    pub fn next_open_milestone(&self) -> (r: Option<&Milestone>)
        ensures
            match first_open(self.milestones@) {
                Some(i) => 0 <= i < self.milestones@.len() && r == Some(&self.milestones@[i]),
                None => r is None,
            },
    {
        let mut i: usize = 0;
        let ghost ms = self.milestones@;
        assert(ms.skip(0) =~= ms);
        while i < self.milestones.len()
            invariant
                ms == self.milestones@,
                i <= ms.len(),
                first_open(ms) == (match first_open(ms.skip(i as int)) {
                    Some(k) => Some(k + i),
                    None => None,
                }),
            decreases ms.len() - i,
        {
            assert(ms.skip(i as int)[0] == ms[i as int]);
            if !self.milestones[i].done {
                return Some(&self.milestones[i]);
            }
            assert(ms.skip(i as int).skip(1) =~= ms.skip(i + 1));
            i += 1;
        }
        None
    }

    /// Whether the goal is ready to be worked on.
    pub fn is_actionable(&self) -> (r: bool)
        ensures
            r == self.actionable(),
    {
        self.status == GoalStatus::Active && self.open_blockers() == 0 && !self.is_finished()
    }

    /// Whether every item is done, of one or more.
    fn is_finished(&self) -> (r: bool)
        ensures
            r == self.finished(),
    {
        let (md, mt) = self.milestone_progress();
        let (td, tt) = self.linked_task_progress();
        (mt > 0 || tt > 0) && md == mt && td == tt
    }

    /// Completes at `now` a goal whose items are all done; whether it did. A goal
    /// without items, or in a terminal state, is left alone.
    pub fn rollup_status_at(&mut self, now: i64) -> (r: bool)
        ensures
            r == (!old(self).status.terminal() && old(self).items() > 0 && old(self).items_done()
                == old(self).items()),
            r ==> *final(self) == (Goal {
                status: GoalStatus::Completed,
                updated_at: now,
                ..*old(self)
            }),
            !r ==> *final(self) == *old(self),
    {
        if self.status.is_terminal() || !self.is_finished() {
            return false;
        }
        self.set_status_at(GoalStatus::Completed, now);
        true
    }

    /// Completes a goal whose items are all done; whether it did. A goal
    /// without items, or in a terminal state, is left alone.
    pub fn rollup_status(&mut self) -> (r: bool)
        ensures
            r == (!old(self).status.terminal() && old(self).items() > 0 && old(self).items_done()
                == old(self).items()),
            r ==> exists|now: i64|
                *final(self) == (Goal {
                    status: GoalStatus::Completed,
                    ..#[trigger] old(self).stamped(now)
                }),
            !r ==> *final(self) == *old(self),
    {
        let now: i64 = ids::now_secs();
        let done = self.rollup_status_at(now);
        proof {
            if done {
                assert(old(self).stamped(now).updated_at == now);
            }
        }
        done
    }

    /// The milestone part of the prompt summary.
    pub open spec fn milestone_text(self) -> Seq<char> {
        let done = done_milestones(self.milestones@);
        let total = self.milestones@.len();
        if total == 0 {
            seq![]
        } else {
            match first_open(self.milestones@) {
                Some(i) => " — current milestone: "@ + ellipsized(self.milestones@[i].title@, 60)
                    + " ("@ + chars::dec(done) + "/"@ + chars::dec(total) + " done, "@ + chars::dec(
                    done * 100 / total,
                ) + "%)"@,
                None => " — milestones "@ + chars::dec(done) + "/"@ + chars::dec(total) + " done ("@
                    + chars::dec(done * 100 / total) + "%)"@,
            }
        }
    }

    /// The blocker part of the prompt summary: at most three blockers, then how
    /// many more.
    pub open spec fn blocker_text(self) -> Seq<char> {
        let open = unresolved(self.blockers@);
        if open.len() == 0 {
            seq![]
        } else {
            "\nOpen blockers: "@ + shown_blockers(open, if open.len() < 3 {
                open.len()
            } else {
                3
            }) + (if open.len() > 3 {
                " (+"@ + chars::dec((open.len() - 3) as nat) + " more)"@
            } else {
                ""@
            })
        }
    }

    /// The goal as it stands in the system prompt.
    pub open spec fn summary(self) -> Seq<char> {
        "Goal: "@ + ellipsized(self.title@, 72) + self.milestone_text() + self.blocker_text()
    }

    /// A compact summary for the system prompt.
    pub fn prompt_summary(&self) -> (r: String)
        ensures
            r@ == self.summary(),
    {
        let mut out = "Goal: ".to_owned();
        out.push_str(truncate_ellipsis(self.title.as_str(), 72).as_str());
        let ghost o1 = out@;
        let (done, total) = self.milestone_progress();
        if total > 0 {
            let pct: u64 = whole_percent(done, total);
            match self.next_open_milestone() {
                Some(current) => {
                    out.push_str(" — current milestone: ");
                    out.push_str(truncate_ellipsis(current.title.as_str(), 60).as_str());
                    out.push_str(" (");
                    text::push_usize(&mut out, done);
                    out.push_str("/");
                    text::push_usize(&mut out, total);
                    out.push_str(" done, ");
                    text::push_dec(&mut out, pct);
                    out.push_str("%)");
                },
                None => {
                    out.push_str(" — milestones ");
                    text::push_usize(&mut out, done);
                    out.push_str("/");
                    text::push_usize(&mut out, total);
                    out.push_str(" done (");
                    text::push_dec(&mut out, pct);
                    out.push_str("%)");
                },
            }
        }
        assert(out@ =~= o1 + self.milestone_text());
        let ghost o2 = out@;
        let n: usize = self.open_blockers();
        if n > 0 {
            out.push_str("\nOpen blockers: ");
            push_blockers(&self.blockers, &mut out);
            if n > 3 {
                out.push_str(" (+");
                text::push_usize(&mut out, n - 3);
                out.push_str(" more)");
            } else {
                out.push_str("");
            }
        }
        assert(out@ =~= o2 + self.blocker_text());
        out
    }
}

/// The first `n` of the open blockers, shortened, with semicolons between.
pub open spec fn shown_blockers(open: Seq<Blocker>, n: nat) -> Seq<char>
    decreases n,
{
    if n == 0 || n > open.len() {
        seq![]
    } else if n == 1 {
        ellipsized(open[0].description@, 60)
    } else {
        shown_blockers(open, (n - 1) as nat) + "; "@ + ellipsized(open[n - 1].description@, 60)
    }
}

proof fn lemma_blockers_line(open: Seq<Blocker>, n: nat)
    ensures
        !shown_blockers(open, n).contains('\n'),
    decreases n,
{
    reveal_strlit("; ");
    if n > 0 {
        lemma_ellipsized_line(open[n - 1].description@, 60);
        lemma_ellipsized_line(open[0].description@, 60);
        lemma_blockers_line(open, (n - 1) as nat);
    }
}

proof fn lemma_milestone_line(g: Goal)
    ensures
        !g.milestone_text().contains('\n'),
{
    reveal_strlit(" — current milestone: ");
    reveal_strlit(" (");
    reveal_strlit("/");
    reveal_strlit(" done, ");
    reveal_strlit("%)");
    reveal_strlit(" — milestones ");
    reveal_strlit(" done (");
    let done = done_milestones(g.milestones@);
    let total = g.milestones@.len();
    chars::lemma_dec_digits(done);
    chars::lemma_dec_digits(total);
    chars::lemma_dec_digits(done * 100 / total);
    assert(!chars::dec(done).contains('\n'));
    assert(!chars::dec(total).contains('\n'));
    assert(!chars::dec(done * 100 / total).contains('\n'));
    match first_open(g.milestones@) {
        Some(i) => lemma_ellipsized_line(g.milestones@[i].title@, 60),
        None => {},
    }
}

/// The summary for the prompt is one line, or two where there are open blockers,
/// whatever the titles and descriptions hold.
pub proof fn summaries_are_two_lines_at_most(g: Goal)
    ensures
        chars::lines(g.summary()).len() == (if unresolved(g.blockers@).len() == 0 {
            1nat
        } else {
            2
        }),
{
    reveal_strlit("Goal: ");
    reveal_strlit("\nOpen blockers: ");
    reveal_strlit(" (+");
    reveal_strlit(" more)");
    reveal_strlit("");
    lemma_ellipsized_line(g.title@, 72);
    lemma_milestone_line(g);
    let open = unresolved(g.blockers@);
    let first = "Goal: "@ + ellipsized(g.title@, 72) + g.milestone_text();
    assert(!first.contains('\n'));
    let s = g.summary();
    if open.len() == 0 {
        assert(s =~= first);
        chars::lemma_find(s, chars::is_char('\n'), s.len() as int);
    } else {
        let n: nat = if open.len() < 3 {
            open.len()
        } else {
            3
        };
        lemma_blockers_line(open, n);
        let more = if open.len() > 3 {
            " (+"@ + chars::dec((open.len() - 3) as nat) + " more)"@
        } else {
            ""@
        };
        if open.len() > 3 {
            chars::lemma_dec_digits((open.len() - 3) as nat);
        }
        assert(!more.contains('\n'));
        let b = "\nOpen blockers: "@.skip(1) + shown_blockers(open, n) + more;
        assert(!b.contains('\n')) by {
            assert(!"\nOpen blockers: "@.skip(1).contains('\n'));
        }
        assert(s =~= first + seq!['\n'] + b);
        let k = first.len() as int;
        assert forall|x: int| 0 <= x < k implies !chars::is_char('\n')(#[trigger] s[x]) by {
            assert(s[x] == first[x]);
        }
        chars::lemma_find(s, chars::is_char('\n'), k);
        assert(s.skip(k + 1) =~= b);
        chars::lemma_find(b, chars::is_char('\n'), b.len() as int);
        assert(b.len() > 0);
        assert(chars::lines(b) == seq![b]);
        assert(chars::lines(s) == seq![chars::chomp_cr(s.take(k))] + chars::lines(b));
    }
}

proof fn lemma_shown_blockers(a: Seq<Blocker>, b: Blocker, n: nat)
    requires
        n <= a.len(),
    ensures
        shown_blockers(a.push(b), n) == shown_blockers(a, n),
    decreases n,
{
    if n > 1 {
        lemma_shown_blockers(a, b, (n - 1) as nat);
    }
}

proof fn lemma_unresolved_prefix(bs: Seq<Blocker>, i: int, n: nat)
    requires
        0 <= i <= bs.len(),
        n <= unresolved(bs.take(i)).len(),
    ensures
        shown_blockers(unresolved(bs), n) == shown_blockers(unresolved(bs.take(i)), n),
        unresolved(bs).len() >= unresolved(bs.take(i)).len(),
    decreases bs.len() - i,
{
    if i == bs.len() {
        assert(bs.take(i) =~= bs);
    } else {
        let d = bs.drop_last();
        assert(d.take(i) =~= bs.take(i));
        lemma_unresolved_prefix(d, i, n);
        if !bs.last().resolved {
            lemma_shown_blockers(unresolved(d), bs.last(), n);
        }
    }
}

fn push_blockers(bs: &Vec<Blocker>, out: &mut String)
    ensures
        final(out)@ == old(out)@ + shown_blockers(
            unresolved(bs@),
            if unresolved(bs@).len() < 3 {
                unresolved(bs@).len()
            } else {
                3
            },
        ),
{
    let mut shown: usize = 0;
    let mut i: usize = 0;
    assert(bs@.take(0) =~= Seq::empty());
    assert(out@ =~= old(out)@ + shown_blockers(unresolved(bs@.take(0)), 0));
    while i < bs.len() && shown < 3
        invariant
            i <= bs@.len(),
            shown <= 3,
            shown == unresolved(bs@.take(i as int)).len(),
            out@ == old(out)@ + shown_blockers(unresolved(bs@.take(i as int)), shown as nat),
        decreases bs@.len() - i,
    {
        assert(bs@.take(i + 1).drop_last() =~= bs@.take(i as int));
        let ghost before = unresolved(bs@.take(i as int));
        if !bs[i].resolved {
            proof {
                lemma_shown_blockers(before, bs@[i as int], shown as nat);
            }
            if shown > 0 {
                out.push_str("; ");
            }
            out.push_str(truncate_ellipsis(bs[i].description.as_str(), 60).as_str());
            shown += 1;
            assert(out@ =~= old(out)@ + shown_blockers(before.push(bs@[i as int]), shown as nat));
        }
        i += 1;
    }
    proof {
        lemma_unresolved_prefix(bs@, i as int, shown as nat);
        if i == bs@.len() {
            assert(bs@.take(i as int) =~= bs@);
        }
    }
}

/// `done * 100 / total`, rounded down.
fn whole_percent(done: usize, total: usize) -> (r: u64)
    requires
        done <= total,
        total > 0,
    ensures
        r == done * 100 / (total as int),
{
    let r: u128 = (done as u128) * 100 / (total as u128);
    assert(r <= 100) by {
        assert((done * 100) / (total as int) <= 100) by (nonlinear_arith)
            requires
                done <= total,
                total > 0,
        ;
    }
    r as u64
}

fn rounded(done: u128, total: u128) -> (r: u8)
    requires
        done <= total,
        total <= 2 * (u64::MAX as nat),
    ensures
        r == percent(done as nat, total as nat),
        r <= 100,
{
    if total == 0 {
        return 0;
    }
    proof {
        percent_is_nearest(done as nat, total as nat);
    }
    ((done * 100 + total / 2) / total) as u8
}

/// The first worker whose task mentions `key`.
pub open spec fn worker_for(workers: Seq<(String, String)>, key: Seq<char>) -> Option<Seq<char>>
    decreases workers.len(),
{
    if workers.len() == 0 {
        None
    } else if chars::contains_str(workers[0].1@, key) {
        Some(workers[0].0@)
    } else {
        worker_for(workers.skip(1), key)
    }
}

/// One linked task's line in the hierarchy.
pub open spec fn task_line(
    ts: Seq<TaskRef>,
    i: int,
    workers: Seq<(String, String)>,
) -> Seq<char> {
    let branch = if i + 1 == ts.len() {
        "└─"@
    } else {
        "├─"@
    };
    match worker_for(workers, ts[i].key@) {
        Some(id) => "\n│  "@ + branch + " "@ + id + " ("@ + ts[i].key@ + ")"@,
        None => "\n│  "@ + branch + " "@ + ts[i].key@ + " (no active worker)"@,
    }
}

/// The first `n` linked tasks' lines.
pub open spec fn task_lines(ts: Seq<TaskRef>, n: nat, workers: Seq<(String, String)>) -> Seq<char>
    decreases n,
{
    if n == 0 {
        seq![]
    } else {
        task_lines(ts, (n - 1) as nat, workers) + task_line(ts, n - 1, workers)
    }
}

/// A goal and its linked tasks as a tree.
pub open spec fn hierarchy(goal: Goal, workers: Seq<(String, String)>) -> Seq<char> {
    let n = goal.linked_tasks@.len();
    "├─ goal: "@ + ellipsized(goal.title@, 60) + " ["@ + chars::dec(n) + " "@ + (if n == 1 {
        "child"@
    } else {
        "children"@
    }) + "]"@ + task_lines(goal.linked_tasks@, n, workers)
}

fn find_worker(workers: &[(String, String)], key: &str) -> (r: Option<usize>)
    ensures
        match r {
            Some(i) => i < workers@.len() && worker_for(workers@, key@) == Some(
                workers@[i as int].0@,
            ),
            None => worker_for(workers@, key@) is None,
        },
{
    let mut i: usize = 0;
    assert(workers@.skip(0) =~= workers@);
    while i < workers.len()
        invariant
            i <= workers@.len(),
            worker_for(workers@, key@) == worker_for(workers@.skip(i as int), key@),
        decreases workers@.len() - i,
    {
        let task = text::chars_of(workers[i].1.as_str());
        assert(workers@.skip(i as int)[0] == workers@[i as int]);
        if text::contains(&task, key) {
            return Some(i);
        }
        assert(workers@.skip(i as int).skip(1) =~= workers@.skip(i + 1));
        i += 1;
    }
    None
}

/// A goal and its linked tasks as a tree, each with the live worker whose task
/// mentions it; `None` when nothing is linked. `workers` are pairs of identifier
/// and task.
pub fn render_goal_hierarchy(goal: &Goal, workers: &[(String, String)]) -> (r: Option<String>)
    ensures
        r is None <==> goal.linked_tasks@.len() == 0,
        r matches Some(t) ==> t@ == hierarchy(*goal, workers@),
{
    let n: usize = goal.linked_tasks.len();
    if n == 0 {
        return None;
    }
    let mut out = "├─ goal: ".to_owned();
    out.push_str(truncate_ellipsis(goal.title.as_str(), 60).as_str());
    out.push_str(" [");
    text::push_usize(&mut out, n);
    out.push_str(" ");
    if n == 1 {
        out.push_str("child");
    } else {
        out.push_str("children");
    }
    out.push_str("]");
    let ghost head = out@;
    let ghost ts = goal.linked_tasks@;
    let mut i: usize = 0;
    assert(out@ =~= head + task_lines(ts, 0, workers@));
    while i < n
        invariant
            ts == goal.linked_tasks@,
            n == ts.len(),
            i <= n,
            out@ == head + task_lines(ts, i as nat, workers@),
        decreases n - i,
    {
        let ghost before = out@;
        let t = &goal.linked_tasks[i];
        out.push_str("\n│  ");
        if i + 1 == n {
            out.push_str("└─");
        } else {
            out.push_str("├─");
        }
        out.push_str(" ");
        match find_worker(workers, t.key.as_str()) {
            Some(w) => {
                out.push_str(workers[w].0.as_str());
                out.push_str(" (");
                out.push_str(t.key.as_str());
                out.push_str(")");
            },
            None => {
                out.push_str(t.key.as_str());
                out.push_str(" (no active worker)");
            },
        }
        assert(out@ =~= before + task_line(ts, i as int, workers@));
        i += 1;
        assert(out@ =~= head + task_lines(ts, i as nat, workers@));
    }
    Some(out)
}

/// The first goal that is ready to be worked on.
pub open spec fn first_actionable(goals: Seq<Goal>) -> Option<int>
    decreases goals.len(),
{
    if goals.len() == 0 {
        None
    } else if goals[0].actionable() {
        Some(0)
    } else {
        match first_actionable(goals.skip(1)) {
            Some(i) => Some(i + 1),
            None => None,
        }
    }
}

/// Picks the next goal to work on: the first that is ready, in order.
pub fn route_next(goals: &[Goal]) -> (r: Option<&Goal>)
    ensures
        match first_actionable(goals@) {
            Some(i) => 0 <= i < goals@.len() && r == Some(&goals@[i]),
            None => r is None,
        },
{
    let mut i: usize = 0;
    let ghost gs = goals@;
    assert(gs.skip(0) =~= gs);
    while i < goals.len()
        invariant
            gs == goals@,
            i <= gs.len(),
            first_actionable(gs) == (match first_actionable(gs.skip(i as int)) {
                Some(k) => Some(k + i),
                None => None,
            }),
        decreases gs.len() - i,
    {
        assert(gs.skip(i as int)[0] == gs[i as int]);
        if goals[i].is_actionable() {
            return Some(&goals[i]);
        }
        assert(gs.skip(i as int).skip(1) =~= gs.skip(i + 1));
        i += 1;
    }
    None
}

/// Whether some goal has that identifier.
pub open spec fn has_goal(all: Seq<Goal>, id: Seq<char>) -> bool {
    exists|i: int| 0 <= i < all.len() && (#[trigger] all[i]).id@ == id
}

/// Whether goal `i` names `parent` as its parent.
pub open spec fn is_child(all: Seq<Goal>, parent: Seq<char>, i: int) -> bool {
    0 <= i < all.len() && (all[i].parent_id matches Some(p) && p@ == parent)
}

/// Whether a goal of identifier `b` names `a` as its parent.
pub open spec fn child_id(all: Seq<Goal>, a: Seq<char>, b: Seq<char>) -> bool {
    exists|i: int| #[trigger] is_child(all, a, i) && all[i].id@ == b
}

/// Whether goal `a` exists and a goal of identifier `b` names it as its parent.
pub open spec fn has_edge(all: Seq<Goal>, a: Seq<char>, b: Seq<char>) -> bool {
    has_goal(all, a) && child_id(all, a, b)
}

/// Whether `id` is `n` generations below `root`.
pub open spec fn descends(all: Seq<Goal>, root: Seq<char>, id: Seq<char>, n: nat) -> bool
    decreases n,
{
    if n == 0 {
        id == root
    } else {
        exists|mid: Seq<char>|
            descends(all, root, mid, (n - 1) as nat) && #[trigger] has_edge(all, mid, id)
    }
}

/// Whether `id` is `root` or below it.
pub open spec fn in_subtree(all: Seq<Goal>, root: Seq<char>, id: Seq<char>) -> bool {
    exists|n: nat| descends(all, root, id, n)
}

/// Whether goal `i` is the first of its identifier.
pub open spec fn is_first(all: Seq<Goal>, i: int) -> bool {
    forall|j: int| 0 <= j < i ==> (#[trigger] all[j]).id@ != all[i].id@
}

/// Done milestones of a goal, or all of them.
pub open spec fn weight(g: Goal, only_done: bool) -> nat {
    if only_done {
        done_milestones(g.milestones@)
    } else {
        g.milestones@.len()
    }
}

/// Milestones of the goals among the first `n` that are in the subtree of `root`,
/// each identifier counted once.
pub open spec fn subtree_sum(all: Seq<Goal>, root: Seq<char>, n: nat, only_done: bool) -> nat
    decreases n,
{
    if n == 0 {
        0
    } else {
        subtree_sum(all, root, (n - 1) as nat, only_done) + (if is_first(all, n - 1) && in_subtree(
            all,
            root,
            all[n - 1].id@,
        ) {
            weight(all[n - 1], only_done)
        } else {
            0
        })
    }
}

/// All milestones of the first `n` goals.
pub open spec fn milestone_count(all: Seq<Goal>, n: nat) -> nat
    decreases n,
{
    if n == 0 {
        0
    } else {
        milestone_count(all, (n - 1) as nat) + all[n - 1].milestones@.len()
    }
}

/// Milestones of the goals among the first `n` whose identifier is in `seen`.
spec fn seen_sum(all: Seq<Goal>, seen: Seq<Seq<char>>, n: nat, only_done: bool) -> nat
    decreases n,
{
    if n == 0 {
        0
    } else {
        seen_sum(all, seen, (n - 1) as nat, only_done) + (if is_first(all, n - 1) && seen.contains(
            all[n - 1].id@,
        ) {
            weight(all[n - 1], only_done)
        } else {
            0
        })
    }
}

/// Goals among the first `n` whose identifier is not in `seen`.
spec fn unseen(all: Seq<Goal>, seen: Seq<Seq<char>>, n: nat) -> nat
    decreases n,
{
    if n == 0 {
        0
    } else {
        unseen(all, seen, (n - 1) as nat) + (if seen.contains(all[n - 1].id@) {
            0nat
        } else {
            1
        })
    }
}

proof fn lemma_done_at_most_all(ms: Seq<Milestone>)
    ensures
        done_milestones(ms) <= ms.len(),
    decreases ms.len(),
{
    if ms.len() > 0 {
        lemma_done_at_most_all(ms.drop_last());
    }
}

proof fn lemma_seen_sum_bound(all: Seq<Goal>, seen: Seq<Seq<char>>, n: nat)
    requires
        n <= all.len(),
    ensures
        seen_sum(all, seen, n, false) <= milestone_count(all, n),
        seen_sum(all, seen, n, true) <= seen_sum(all, seen, n, false),
        milestone_count(all, n) <= milestone_count(all, all.len()),
    decreases n,
{
    if n > 0 {
        lemma_seen_sum_bound(all, seen, (n - 1) as nat);
        lemma_done_at_most_all(all[n - 1].milestones@);
    }
    lemma_milestone_count(all, n);
}

proof fn lemma_milestone_count(all: Seq<Goal>, n: nat)
    requires
        n <= all.len(),
    ensures
        milestone_count(all, n) <= milestone_count(all, all.len()),
    decreases all.len() - n,
{
    if n < all.len() {
        lemma_milestone_count(all, n + 1);
    }
}

proof fn lemma_contains_push(seen: Seq<Seq<char>>, x: Seq<char>, y: Seq<char>)
    ensures
        seen.push(x).contains(y) <==> seen.contains(y) || x == y,
{
    let s = seen.push(x);
    if seen.contains(y) {
        let i = choose|i: int| 0 <= i < seen.len() && seen[i] == y;
        assert(s[i] == y);
    }
    if x == y {
        assert(s[seen.len() as int] == y);
    }
    if s.contains(y) {
        let i = choose|i: int| 0 <= i < s.len() && s[i] == y;
        if i < seen.len() {
            assert(seen[i] == y);
        }
    }
}

/// Seeing one more identifier adds the milestones of its first goal.
proof fn lemma_see(
    all: Seq<Goal>,
    seen: Seq<Seq<char>>,
    x: Seq<char>,
    k: int,
    n: nat,
    only_done: bool,
)
    requires
        n <= all.len(),
        !seen.contains(x),
        0 <= k < all.len() ==> all[k].id@ == x && is_first(all, k),
        !(0 <= k < all.len()) ==> !has_goal(all, x),
    ensures
        seen_sum(all, seen.push(x), n, only_done) == seen_sum(all, seen, n, only_done) + (if 0 <= k
            < n {
            weight(all[k], only_done)
        } else {
            0
        }),
        unseen(all, seen.push(x), n) <= unseen(all, seen, n),
        0 <= k < n ==> unseen(all, seen.push(x), n) < unseen(all, seen, n),
    decreases n,
{
    if n > 0 {
        lemma_see(all, seen, x, k, (n - 1) as nat, only_done);
        lemma_contains_push(seen, x, all[n - 1].id@);
        if all[n - 1].id@ == x {
            assert(has_goal(all, x));
            if k < n - 1 {
                assert(all[k].id@ == x);
                assert(!is_first(all, n - 1));
            } else if k > n - 1 {
                assert(!is_first(all, k));
            }
        }
    }
}

proof fn lemma_same_sum(all: Seq<Goal>, root: Seq<char>, seen: Seq<Seq<char>>, n: nat, only_done: bool)
    requires
        n <= all.len(),
        forall|i: int|
            0 <= i < all.len() ==> (seen.contains((#[trigger] all[i]).id@) <==> in_subtree(
                all,
                root,
                all[i].id@,
            )),
    ensures
        seen_sum(all, seen, n, only_done) == subtree_sum(all, root, n, only_done),
    decreases n,
{
    if n > 0 {
        lemma_same_sum(all, root, seen, (n - 1) as nat, only_done);
        assert(seen.contains(all[n - 1].id@) <==> in_subtree(all, root, all[n - 1].id@));
    }
}

/// A closed set that holds the root holds the whole subtree.
proof fn lemma_closed_holds_subtree(
    all: Seq<Goal>,
    root: Seq<char>,
    seen: Seq<Seq<char>>,
    id: Seq<char>,
    n: nat,
)
    requires
        seen.contains(root),
        forall|a: Seq<char>, b: Seq<char>|
            seen.contains(a) && #[trigger] has_edge(all, a, b) ==> seen.contains(b),
        descends(all, root, id, n),
    ensures
        seen.contains(id),
    decreases n,
{
    if n > 0 {
        let mid = choose|mid: Seq<char>|
            descends(all, root, mid, (n - 1) as nat) && #[trigger] has_edge(all, mid, id);
        lemma_closed_holds_subtree(all, root, seen, mid, (n - 1) as nat);
    }
}

proof fn lemma_descend(all: Seq<Goal>, root: Seq<char>, a: Seq<char>, b: Seq<char>)
    requires
        in_subtree(all, root, a),
        has_edge(all, a, b),
    ensures
        in_subtree(all, root, b),
{
    let n = choose|n: nat| descends(all, root, a, n);
    assert(descends(all, root, b, n + 1));
}

fn find_goal(all: &[Goal], id: &str) -> (r: Option<usize>)
    ensures
        match r {
            Some(k) => k < all@.len() && all@[k as int].id@ == id@ && is_first(all@, k as int),
            None => !has_goal(all@, id@),
        },
{
    let mut i: usize = 0;
    while i < all.len()
        invariant
            i <= all@.len(),
            forall|j: int| 0 <= j < i ==> (#[trigger] all@[j]).id@ != id@,
        decreases all@.len() - i,
    {
        if text::eq(all[i].id.as_str(), id) {
            return Some(i);
        }
        i += 1;
    }
    None
}

fn names_parent(g: &Goal, id: &str) -> (r: bool)
    ensures
        r == (g.parent_id matches Some(p) && p@ == id@),
{
    match &g.parent_id {
        Some(p) => text::eq(p.as_str(), id),
        None => false,
    }
}

/// Puts the children of `id` on the stack.
fn push_children(all: &[Goal], id: &str, stack: &mut Vec<String>)
    ensures
        text::str_views(old(stack)@).is_prefix_of(text::str_views(final(stack)@)),
        forall|i: int|
            #[trigger] is_child(all@, id@, i) ==> text::str_views(final(stack)@).contains(
                all@[i].id@,
            ),
        forall|j: int|
            old(stack)@.len() <= j < final(stack)@.len() ==> child_id(
                all@,
                id@,
                (#[trigger] final(stack)@[j])@,
            ),
{
    let mut i: usize = 0;
    let ghost s0 = text::str_views(stack@);
    let ghost n0 = stack@.len();
    while i < all.len()
        invariant
            i <= all@.len(),
            n0 == old(stack)@.len(),
            s0 == text::str_views(old(stack)@),
            s0.is_prefix_of(text::str_views(stack@)),
            n0 <= stack@.len(),
            forall|k: int|
                k < i && #[trigger] is_child(all@, id@, k) ==> text::str_views(stack@).contains(
                    all@[k].id@,
                ),
            forall|j: int|
                n0 <= j < stack@.len() ==> child_id(all@, id@, (#[trigger] stack@[j])@),
        decreases all@.len() - i,
    {
        let ghost before = text::str_views(stack@);
        let ghost old_stack = stack@;
        if names_parent(&all[i], id) {
            assert(is_child(all@, id@, i as int));
            stack.push(all[i].id.clone());
            let ghost x = all@[i as int].id@;
            assert(text::str_views(stack@) =~= before.push(x));
            proof {
                assert forall|k: int| k < i + 1 && #[trigger] is_child(all@, id@, k) implies text::str_views(
                    stack@,
                ).contains(all@[k].id@) by {
                    lemma_contains_push(before, x, all@[k].id@);
                }
                assert forall|j: int| n0 <= j < stack@.len() implies child_id(
                    all@,
                    id@,
                    (#[trigger] stack@[j])@,
                ) by {
                    if j < old_stack.len() {
                        assert(stack@[j] == old_stack[j]);
                    }
                }
            }
        }
        i += 1;
    }
}

/// Whether no two goals share an identifier.
pub open spec fn distinct_ids(all: Seq<Goal>) -> bool {
    forall|i: int, j: int|
        0 <= i < j < all.len() ==> (#[trigger] all[i]).id@ != (#[trigger] all[j]).id@
}

/// The step that adds the milestones of one goal when it is in the subtree.
pub open spec fn counted(all: Seq<Goal>, root: Seq<char>, only_done: bool) -> spec_fn(
    Goal,
    nat,
) -> nat {
    |g: Goal, n: nat|
        if in_subtree(all, root, g.id@) {
            n + weight(g, only_done)
        } else {
            n
        }
}

proof fn lemma_sum_is_fold(all: Seq<Goal>, root: Seq<char>, n: nat, only_done: bool, more: nat)
    requires
        distinct_ids(all),
        n <= all.len(),
    ensures
        subtree_sum(all, root, n, only_done) + more == all.take(n as int).fold_right(
            counted(all, root, only_done),
            more,
        ),
    decreases n,
{
    if n > 0 {
        let t = all.take(n as int);
        assert(t.drop_last() =~= all.take(n - 1));
        assert(t.last() == all[n - 1]);
        let f = counted(all, root, only_done);
        lemma_sum_is_fold(all, root, (n - 1) as nat, only_done, f(t.last(), more));
        assert(is_first(all, n - 1));
    }
}

/// The links between goals do not depend on the order.
proof fn lemma_same_edges(a: Seq<Goal>, b: Seq<Goal>, x: Seq<char>, y: Seq<char>)
    requires
        forall|g: Goal| a.contains(g) <==> b.contains(g),
    ensures
        has_goal(a, x) ==> has_goal(b, x),
        has_edge(a, x, y) ==> has_edge(b, x, y),
{
    if has_goal(a, x) {
        let i = choose|i: int| 0 <= i < a.len() && (#[trigger] a[i]).id@ == x;
        assert(a.contains(a[i]));
        let j = choose|j: int| 0 <= j < b.len() && b[j] == a[i];
        assert(b[j].id@ == x);
    }
    if child_id(a, x, y) {
        let i = choose|i: int| #[trigger] is_child(a, x, i) && a[i].id@ == y;
        assert(a.contains(a[i]));
        let j = choose|j: int| 0 <= j < b.len() && b[j] == a[i];
        assert(is_child(b, x, j) && b[j].id@ == y);
    }
}

proof fn lemma_same_descent(a: Seq<Goal>, b: Seq<Goal>, root: Seq<char>, id: Seq<char>, n: nat)
    requires
        forall|g: Goal| a.contains(g) <==> b.contains(g),
        descends(a, root, id, n),
    ensures
        descends(b, root, id, n),
    decreases n,
{
    if n > 0 {
        let mid = choose|mid: Seq<char>|
            descends(a, root, mid, (n - 1) as nat) && #[trigger] has_edge(a, mid, id);
        lemma_same_descent(a, b, root, mid, (n - 1) as nat);
        lemma_same_edges(a, b, mid, id);
    }
}

proof fn lemma_same_subtree(a: Seq<Goal>, b: Seq<Goal>, root: Seq<char>, id: Seq<char>)
    requires
        forall|g: Goal| a.contains(g) <==> b.contains(g),
    ensures
        in_subtree(a, root, id) ==> in_subtree(b, root, id),
{
    if in_subtree(a, root, id) {
        let n = choose|n: nat| descends(a, root, id, n);
        lemma_same_descent(a, b, root, id, n);
    }
}

/// Progress does not depend on the order in which the goals are listed: each goal
/// that is reached counts once.
pub proof fn progress_ignores_order(a: Seq<Goal>, b: Seq<Goal>, root: Seq<char>, only_done: bool)
    requires
        distinct_ids(a),
        a.to_multiset() == b.to_multiset(),
    ensures
        subtree_sum(a, root, a.len(), only_done) == subtree_sum(b, root, b.len(), only_done),
        subtree_sum(a, root, a.len(), only_done) == a.fold_right(counted(a, root, only_done), 0),
{
    broadcast use vstd::seq_lib::group_to_multiset_ensures;

    assert forall|g: Goal| a.contains(g) <==> b.contains(g) by {
        assert(a.contains(g) <==> a.to_multiset().count(g) > 0);
        assert(b.contains(g) <==> b.to_multiset().count(g) > 0);
    }
    a.lemma_multiset_has_no_duplicates();
    b.lemma_multiset_has_no_duplicates_conv();
    assert forall|i: int, j: int| 0 <= i < j < b.len() implies (#[trigger] b[i]).id@ != (
    #[trigger] b[j]).id@ by {
        assert(b.contains(b[i]) && b.contains(b[j]));
        let k = choose|k: int| 0 <= k < a.len() && a[k] == b[i];
        let l = choose|l: int| 0 <= l < a.len() && a[l] == b[j];
        assert(k != l);
        assert(a[k].id@ != a[l].id@);
    }
    let f = counted(a, root, only_done);
    let g = counted(b, root, only_done);
    assert forall|x: Goal, n: nat| #[trigger] f(x, n) == g(x, n) by {
        lemma_same_subtree(a, b, root, x.id@);
        lemma_same_subtree(b, a, root, x.id@);
    }
    assert(f =~= g);
    assert(a.take(a.len() as int) =~= a);
    assert(b.take(b.len() as int) =~= b);
    lemma_sum_is_fold(a, root, a.len(), only_done, 0);
    lemma_sum_is_fold(b, root, b.len(), only_done, 0);
    vstd::seq_lib::lemma_fold_right_permutation(a, b, f, 0);
}

proof fn lemma_unknown_descent(all: Seq<Goal>, root: Seq<char>, id: Seq<char>, n: nat)
    requires
        !has_goal(all, root),
        descends(all, root, id, n),
    ensures
        id == root,
    decreases n,
{
    if n > 0 {
        let mid = choose|mid: Seq<char>|
            descends(all, root, mid, (n - 1) as nat) && #[trigger] has_edge(all, mid, id);
        lemma_unknown_descent(all, root, mid, (n - 1) as nat);
    }
}

/// An unknown goal has no progress, and nothing to do.
pub proof fn unknown_goal_counts_nothing(
    all: Seq<Goal>,
    root: Seq<char>,
    n: nat,
    only_done: bool,
)
    requires
        !has_goal(all, root),
        n <= all.len(),
    ensures
        subtree_sum(all, root, n, only_done) == 0,
    decreases n,
{
    if n > 0 {
        unknown_goal_counts_nothing(all, root, (n - 1) as nat, only_done);
        let id = all[n - 1].id@;
        if in_subtree(all, root, id) {
            let k = choose|k: nat| descends(all, root, id, k);
            lemma_unknown_descent(all, root, id, k);
        }
    }
}

/// Done and total milestones of a goal and everything below it; nothing for an
/// unknown goal.
pub fn subtree_progress(root_id: &str, all: &[Goal]) -> (r: (usize, usize))
    requires
        milestone_count(all@, all@.len()) <= usize::MAX,
    ensures
        r.0 == subtree_sum(all@, root_id@, all@.len(), true),
        r.1 == subtree_sum(all@, root_id@, all@.len(), false),
        r.0 <= r.1,
{
    let mut done: usize = 0;
    let mut total: usize = 0;
    let mut stack: Vec<String> = Vec::new();
    stack.push(root_id.to_owned());
    let mut seen: Vec<String> = Vec::new();
    let ghost a = all@;
    let ghost n = all@.len();
    let ghost root = root_id@;
    proof {
        lemma_nothing_seen(a, n);
        assert(text::str_views(seen@) =~= Seq::empty());
        assert(text::str_views(stack@)[0] == root);
        assert(descends(a, root, root, 0));
    }
    while stack.len() > 0
        invariant
            a == all@,
            n == a.len(),
            root == root_id@,
            milestone_count(a, n) <= usize::MAX,
            text::str_views(seen@).contains(root) || text::str_views(stack@).contains(root),
            forall|j: int| 0 <= j < stack@.len() ==> in_subtree(a, root, (#[trigger] stack@[j])@),
            forall|j: int| 0 <= j < seen@.len() ==> in_subtree(a, root, (#[trigger] seen@[j])@),
            forall|x: Seq<char>, y: Seq<char>|
                text::str_views(seen@).contains(x) && #[trigger] has_edge(a, x, y)
                    ==> text::str_views(seen@).contains(y) || text::str_views(stack@).contains(y),
            done == seen_sum(a, text::str_views(seen@), n, true),
            total == seen_sum(a, text::str_views(seen@), n, false),
        decreases unseen(a, text::str_views(seen@), n), stack@.len(),
    {
        let ghost sv0 = text::str_views(seen@);
        let ghost st0 = text::str_views(stack@);
        let id = match stack.pop() {
            Some(x) => x,
            None => String::new(),
        };
        let ghost x = id@;
        let ghost st1 = text::str_views(stack@);
        proof {
            assert(st0 =~= st1.push(x));
            assert(in_subtree(a, root, x));
        }
        if text::holds(&seen, id.as_str()) {
            proof {
                assert forall|y: Seq<char>| st0.contains(y) implies sv0.contains(y) || st1.contains(y) by {
                    lemma_contains_push(st1, x, y);
                }
            }
            continue ;
        }
        let found = find_goal(all, id.as_str());
        let ghost k: int = match found {
            Some(k) => k as int,
            None => -1,
        };
        proof {
            lemma_see(a, sv0, x, k, n, true);
            lemma_see(a, sv0, x, k, n, false);
            lemma_seen_sum_bound(a, sv0.push(x), n);
        }
        let kept = id.clone();
        seen.push(kept);
        let ghost sv1 = text::str_views(seen@);
        assert(sv1 =~= sv0.push(x));
        if let Some(g) = found {
            let (d, t) = all[g].milestone_progress();
            done = done + d;
            total = total + t;
            push_children(all, id.as_str(), &mut stack);
        }
        proof {
            let st2 = text::str_views(stack@);
            assert forall|y: Seq<char>| #[trigger] sv0.contains(y) implies sv1.contains(y) by {
                lemma_contains_push(sv0, x, y);
            }
            lemma_contains_push(sv0, x, x);
            assert forall|y: Seq<char>| #[trigger] st0.contains(y) implies sv1.contains(y) || st2.contains(y) by {
                lemma_contains_push(st1, x, y);
                if st1.contains(y) {
                    let j = choose|j: int| 0 <= j < st1.len() && st1[j] == y;
                    assert(st2[j] == y);
                }
            }
            assert forall|p: Seq<char>, q: Seq<char>|
                sv1.contains(p) && #[trigger] has_edge(a, p, q) implies sv1.contains(q) || st2.contains(q) by {
                lemma_contains_push(sv0, x, p);
                if sv0.contains(p) {
                    assert(sv0.contains(q) || st0.contains(q));
                } else {
                    assert(has_goal(a, x));
                    let i = choose|i: int| #[trigger] is_child(a, x, i) && a[i].id@ == q;
                    assert(st2.contains(a[i].id@));
                }
            }
            assert forall|j: int| 0 <= j < stack@.len() implies in_subtree(a, root, (#[trigger] stack@[j])@) by {
                if j < st1.len() {
                    assert(st2[j] == st1[j]);
                    assert(st1[j] == st0[j]);
                } else {
                    assert(child_id(a, x, stack@[j]@));
                    assert(has_goal(a, x));
                    assert(has_edge(a, x, stack@[j]@));
                    lemma_descend(a, root, x, stack@[j]@);
                }
            }
        }
    }
    proof {
        let sv = text::str_views(seen@);
        let st = text::str_views(stack@);
        assert(st.len() == 0);
        assert forall|i: int| 0 <= i < a.len() implies (sv.contains((#[trigger] a[i]).id@) <==> in_subtree(
            a,
            root,
            a[i].id@,
        )) by {
            if in_subtree(a, root, a[i].id@) {
                let m = choose|m: nat| descends(a, root, a[i].id@, m);
                lemma_closed_holds_subtree(a, root, sv, a[i].id@, m);
            }
            if sv.contains(a[i].id@) {
                let j = choose|j: int| 0 <= j < sv.len() && sv[j] == a[i].id@;
                assert(seen@[j]@ == a[i].id@);
            }
        }
        lemma_same_sum(a, root, sv, n, true);
        lemma_same_sum(a, root, sv, n, false);
        lemma_seen_sum_bound(a, sv, n);
    }
    (done, total)
}

proof fn lemma_nothing_seen(all: Seq<Goal>, n: nat)
    requires
        n <= all.len(),
    ensures
        seen_sum(all, Seq::<Seq<char>>::empty(), n, true) == 0,
        seen_sum(all, Seq::<Seq<char>>::empty(), n, false) == 0,
    decreases n,
{
    if n > 0 {
        lemma_nothing_seen(all, (n - 1) as nat);
    }
}

/// Subtree progress as a whole percentage; zero for an empty or unknown subtree.
pub fn subtree_percent(root_id: &str, all: &[Goal]) -> (r: u8)
    requires
        milestone_count(all@, all@.len()) <= usize::MAX,
    ensures
        r == percent(
            subtree_sum(all@, root_id@, all@.len(), true),
            subtree_sum(all@, root_id@, all@.len(), false),
        ),
        r <= 100,
{
    let (done, total) = subtree_progress(root_id, all);
    rounded(done as u128, total as u128)
}

/// Law: a time span is told in its two largest units.
pub proof fn spans_are_told_in_two_units(h: nat, m: nat, s: nat)
    requires
        m < 60,
        s < 60,
    ensures
        duration_text(s) == chars::dec(s) + "s"@,
        1 <= m ==> duration_text(60 * m + s) == chars::dec(m) + "m"@ + two_digits(s) + "s"@,
        1 <= h ==> duration_text(3600 * h + 60 * m + s) == chars::dec(h) + "h"@ + two_digits(m) + "m"@,
{
    let t = 3600 * h + 60 * m + s;
    assert(t / 3600 == h && t % 3600 == 60 * m + s);
    assert((60 * m + s) / 60 == m && (60 * m + s) % 60 == s);
}

/// Law: what elapsed is counted in whole seconds, and a clock that went back counts as no
/// time.
pub proof fn elapsed_time_is_whole_seconds(from: nat, secs: nat, rest: nat)
    requires
        rest < 1000,
    ensures
        elapsed_secs(from, from + 1000 * secs + rest) == secs,
        elapsed_secs(from + rest, from) == 0,
{
}

/// Law: a text without line breaks that is short enough stays as it is; a longer one keeps
/// its beginning and ends in an ellipsis.
pub proof fn cut_texts_keep_their_beginning(s: Seq<char>, max: nat)
    requires
        !s.contains('\n'),
        !s.contains('\r'),
    ensures
        s.len() <= max ==> ellipsized(s, max) == s,
        s.len() > max ==> ellipsized(s, max).last() == '…' && ellipsized(
            s,
            max,
        ).drop_last().is_prefix_of(s) && ellipsized(s, max).len() <= max + 1,
        s.len() > max && max > 0 && !chars::is_ws(s[max - 1]) ==> ellipsized(s, max) == s.take(
            max as int,
        ).push('…'),
{
    let line = chars::on_one_line(s);
    assert forall|i: int| 0 <= i < s.len() implies line[i] == s[i] by {
        assert(s.contains(s[i]));
    }
    assert(line =~= s);
    if s.len() > max {
        let t = s.take(max as int);
        chars::lemma_trim_end_props(t);
        let e = chars::trim_end(t);
        assert(ellipsized(s, max).drop_last() =~= e);
        assert(e =~= s.take(e.len() as int));
        if max > 0 && !chars::is_ws(s[max - 1]) {
            assert(t.last() == s[max - 1]);
        }
    }
}

/// Law: the report of a goal names its state and its turns: what an active one is doing,
/// and how a finished one ended.
pub proof fn reports_name_the_state(l: GoalLoop, now_ms: nat)
    ensures
        ({
            let line = l.line_at(now_ms);
            let turns = chars::dec(l.turns as nat);
            &&& l.status == Status::Active && l.phase == Step::Working ==> chars::starts_with(
                line,
                "goal [active · "@ + "working"@ + "] · turn "@ + turns,
            )
            &&& l.status == Status::Active && l.phase == Step::Checking ==> chars::starts_with(
                line,
                "goal [active · "@ + "checking"@ + "] · turn "@ + turns,
            )
            &&& l.status == Status::Active && l.phase == Step::Idle ==> chars::starts_with(
                line,
                "goal [active · "@ + "starting"@ + "] · turn "@ + turns,
            )
            &&& l.status == Status::Achieved ==> chars::starts_with(
                line,
                "goal ["@ + "achieved"@ + "] · "@ + turns,
            )
            &&& l.status == Status::Failed ==> chars::starts_with(
                line,
                "goal ["@ + "failed"@ + "] · "@ + turns,
            )
            &&& l.status == Status::Cleared ==> chars::starts_with(
                line,
                "goal ["@ + "cleared"@ + "] · "@ + turns,
            )
            &&& chars::contains_str(line, ellipsized(l.condition@, 60))
            &&& l.last_reason matches Some(r) ==> chars::ends_with(line, chars::on_one_line(r@))
        }),
{
    let line = l.line_at(now_ms);
    let turns = chars::dec(l.turns as nat);
    let c = ellipsized(l.condition@, 60);
    let (head, mid) = if l.status == Status::Active {
        (
            "goal [active · "@ + l.phase_text() + "] · turn "@ + turns,
            " · "@ + l.timing_text(now_ms) + " · "@,
        )
    } else {
        (
            "goal ["@ + l.state_text() + "] · "@ + turns,
            " turn(s) · "@ + duration_text(elapsed_secs(l.started_ms as nat, now_ms)) + " total · "@,
        )
    };
    assert(line =~= head + mid + c + l.reason_text());
    assert(line.subrange(0, head.len() as int) =~= head);
    chars::lemma_holds_part(head + mid, c, l.reason_text());
    if let Some(r) = l.last_reason {
        let o = chars::on_one_line(r@);
        assert(l.reason_text().skip(l.reason_text().len() - o.len()) =~= o);
        assert(line.subrange(line.len() - o.len(), line.len() as int) =~= o);
    }
}

/// Law: a turn begins while the loop is not cleared and fewer than twenty-five have begun;
/// it is counted, and timed from then on. After the last the loop has failed.
pub proof fn turns_begin_while_they_may(l: GoalLoop, now_ms: u64)
    ensures
        l.cancel ==> l.begun(now_ms) == l,
        !l.cancel && l.turns < 25 ==> l.begun(now_ms).turns == l.turns + 1 && l.begun(
            now_ms,
        ).turn_started_ms == Some(now_ms) && l.begun(now_ms).phase == Step::Working && l.begun(
            now_ms,
        ).status == l.status,
        !l.cancel && l.turns >= 25 ==> l.begun(now_ms).status == Status::Failed && l.begun(
            now_ms,
        ).turns == l.turns,
        l.begun(now_ms).condition == l.condition,
        l.begun(now_ms).cancel == l.cancel,
        l.begun(now_ms).started_ms == l.started_ms,
{
}

/// Law: a loop pursues its goal exactly while it is active and not cleared.
pub proof fn cleared_loops_pursue_nothing(l: GoalLoop)
    ensures
        l.cancel ==> !l.active(),
        l.active() ==> l.status == Status::Active,
        l.status == Status::Active && !l.cancel ==> l.active(),
{
}

/// Law: the judge is asked about the whole condition and sees the work from its beginning:
/// all of it, unless it is too long, and that is said.
pub proof fn judges_see_goal_and_work(condition: Seq<char>, work: Seq<char>)
    ensures
        chars::contains_str(judge_question(condition, work), condition),
        chars::ends_with(judge_question(condition, work), capped(work)),
        work.len() <= 16_000 ==> capped(work) == work,
        work.len() > 16_000 ==> capped(work).take(16_000) == work.take(16_000) && chars::ends_with(capped(work), "(truncated)"@),
{
    let h = "GOAL:\n"@;
    let m = "\n\nWORK OUTPUT:\n"@;
    let q = judge_question(condition, work);
    chars::lemma_holds_part(h, condition, m + capped(work));
    assert(h + condition + (m + capped(work)) =~= q);
    assert(q.subrange(q.len() - capped(work).len(), q.len() as int) =~= capped(work));
    if work.len() > JUDGE_INPUT_CAP {
        reveal_strlit("\n…(truncated)");
        reveal_strlit("(truncated)");
        let c = capped(work);
        assert(c.take(JUDGE_INPUT_CAP as int) =~= work.take(JUDGE_INPUT_CAP as int));
        assert(c.subrange(c.len() - 11, c.len() as int) =~= "(truncated)"@);
    }
}

/// Law: the request to the judge names the model and the system prompt that it is given,
/// and asks the question as the user's only message.
pub proof fn judge_requests_carry_the_question(
    model: Seq<char>,
    system: JsonV,
    condition: Seq<char>,
    work: Seq<char>,
)
    ensures
        ({
            let b = request_body(model, system, condition, work);
            &&& json::member_text(b, "model"@) == Some(model)
            &&& json::member(b, "system"@) == Some(system)
            &&& json::member(b, "messages"@) matches Some(JsonV::Array(ms)) && ms.len() == 1
                && json::member_text(ms[0], "role"@) == Some("user"@) && json::member_text(
                ms[0],
                "content"@,
            ) == Some(judge_question(condition, work))
        }),
{
    reveal_strlit("role");
    reveal_strlit("content");
    reveal_strlit("model");
    reveal_strlit("max_tokens");
    reveal_strlit("system");
    reveal_strlit("messages");
    assert("role"@.len() == 4 && "content"@.len() == 7 && "model"@.len() == 5 && "max_tokens"@.len()
        == 10 && "system"@.len() == 6 && "messages"@.len() == 8);
    let none = Seq::<(Seq<char>, JsonV)>::empty();
    let r = JsonV::Str("user"@);
    let q = JsonV::Str(judge_question(condition, work));
    let m1 = json::bind(none, "role"@, r);
    json::lookup_after_bind(none, "role"@, r, "content"@);
    json::lookup_after_bind(m1, "content"@, q, "role"@);
    let message = JsonV::Object(json::bind(m1, "content"@, q));
    let v = JsonV::Str(model);
    let n = JsonV::Number("512"@);
    let list = JsonV::Array(seq![message]);
    let e1 = json::bind(none, "model"@, v);
    let e2 = json::bind(e1, "max_tokens"@, n);
    let e3 = json::bind(e2, "system"@, system);
    json::lookup_after_bind(none, "model"@, v, "system"@);
    json::lookup_after_bind(e1, "max_tokens"@, n, "model"@);
    json::lookup_after_bind(e2, "system"@, system, "model"@);
    json::lookup_after_bind(e3, "messages"@, list, "model"@);
    json::lookup_after_bind(e3, "messages"@, list, "system"@);
}

/// Law: the judge's words are those of the first text block, whatever blocks come before
/// it.
pub proof fn the_first_text_block_speaks(
    before: Seq<JsonV>,
    block: JsonV,
    rest: Seq<JsonV>,
    words: Seq<char>,
)
    requires
        forall|i: int|
            0 <= i < before.len() ==> json::member_text(#[trigger] before[i], "type"@) != Some(
                "text"@,
            ),
        json::member_text(block, "type"@) == Some("text"@),
        json::member_text(block, "text"@) == Some(words),
    ensures
        first_text(before + seq![block] + rest) == Some(words),
        first_text(before) is None,
    decreases before.len(),
{
    let all = before + seq![block] + rest;
    if before.len() == 0 {
        assert(all[0] == block);
    } else {
        let b = before.skip(1);
        assert(all[0] == before[0]);
        assert(all.skip(1) =~= b + seq![block] + rest);
        assert forall|i: int| 0 <= i < b.len() implies json::member_text(
            #[trigger] b[i],
            "type"@,
        ) != Some("text"@) by {
            assert(b[i] == before[i + 1]);
        }
        the_first_text_block_speaks(b, block, rest, words);
    }
}

/// Law: a goal is met only where the verdict says so in so many words, and the verdict's
/// reason is passed on.
pub proof fn only_a_plain_yes_meets_the_goal(v: JsonV)
    ensures
        verdict_in(v).0 <==> json::member(v, "met"@) == Some(JsonV::Bool(true)),
        json::member(v, "reason"@) matches Some(JsonV::Str(t)) ==> verdict_in(v).1 == t,
{
}

/// Law: a document inside other words is found: it reaches from the first opening brace to
/// the last closing one.
pub proof fn documents_are_found_inside_words(a: Seq<char>, x: Seq<char>, b: Seq<char>)
    requires
        !a.contains('{'),
        !b.contains('}'),
    ensures
        braced(a + seq!['{'] + x + seq!['}'] + b) == Some(seq!['{'] + x + seq!['}']),
{
    let s = a + seq!['{'] + x + seq!['}'] + b;
    let n = a.len() as int;
    let f = chars::is_char('{');
    assert forall|j: int| 0 <= j < n implies !f(#[trigger] s[j]) by {
        assert(s[j] == a[j]);
    }
    assert(s[n] == '{');
    chars::lemma_find(s, f, n);
    let r = s.reverse();
    let m = b.len() as int;
    let g = chars::is_char('}');
    assert forall|j: int| 0 <= j < m implies !g(#[trigger] r[j]) by {
        assert(r[j] == s[s.len() - 1 - j]);
        assert(s[s.len() - 1 - j] == b[m - 1 - j]);
    }
    assert(r[m] == s[s.len() - 1 - m]);
    assert(s[s.len() - 1 - m] == '}');
    chars::lemma_find(r, g, m);
    assert(s.subrange(n, s.len() - m) =~= seq!['{'] + x + seq!['}']);
}

/// Law: an error that the service reports is not taken for words of the judge.
pub proof fn reported_errors_are_seen(v: JsonV, message: Seq<char>)
    requires
        json::member(v, "error"@) matches Some(e) && json::member(e, "message"@) == Some(
            JsonV::Str(message),
        ),
    ensures
        api_error(v) == Some(message),
{
}

/// Law: all items are done exactly when each one is, and one more item counts for one.
pub proof fn done_items_are_counted(ms: Seq<Milestone>, m: Milestone, ts: Seq<TaskRef>, t: TaskRef)
    ensures
        done_milestones(ms) <= ms.len(),
        done_milestones(ms) == ms.len() <==> forall|i: int|
            0 <= i < ms.len() ==> (#[trigger] ms[i]).done,
        done_milestones(ms.push(m)) == done_milestones(ms) + (if m.done {
            1nat
        } else {
            0
        }),
        done_tasks(ts) <= ts.len(),
        done_tasks(ts) == ts.len() <==> forall|i: int| 0 <= i < ts.len() ==> (#[trigger] ts[i]).done,
        done_tasks(ts.push(t)) == done_tasks(ts) + (if t.done {
            1nat
        } else {
            0
        }),
    decreases ms.len() + ts.len(),
{
    assert(ms.push(m).drop_last() =~= ms);
    assert(ts.push(t).drop_last() =~= ts);
    if ms.len() > 0 {
        let h = ms.drop_last();
        done_items_are_counted(h, m, seq![], t);
        assert forall|i: int| 0 <= i < ms.len() implies (#[trigger] ms[i]) == (if i < h.len() {
            h[i]
        } else {
            ms.last()
        }) by {}
        if forall|i: int| 0 <= i < ms.len() ==> (#[trigger] ms[i]).done {
            assert forall|i: int| 0 <= i < h.len() implies (#[trigger] h[i]).done by {
                assert(h[i] == ms[i]);
            }
            assert(ms[ms.len() - 1].done);
        }
    }
    if ts.len() > 0 {
        let h = ts.drop_last();
        done_items_are_counted(seq![], m, h, t);
        assert forall|i: int| 0 <= i < ts.len() implies (#[trigger] ts[i]) == (if i < h.len() {
            h[i]
        } else {
            ts.last()
        }) by {}
        if forall|i: int| 0 <= i < ts.len() ==> (#[trigger] ts[i]).done {
            assert forall|i: int| 0 <= i < h.len() implies (#[trigger] h[i]).done by {
                assert(h[i] == ts[i]);
            }
            assert(ts[ts.len() - 1].done);
        }
    }
}

/// Law: the open blockers are those that are not resolved: all of them, in order, and no
/// other.
pub proof fn open_blockers_are_the_unresolved(bs: Seq<Blocker>, b: Blocker)
    ensures
        unresolved(bs).contains(b) <==> bs.contains(b) && !b.resolved,
        !b.resolved ==> unresolved(bs.push(b)) == unresolved(bs).push(b),
        b.resolved ==> unresolved(bs.push(b)) == unresolved(bs),
    decreases bs.len(),
{
    assert(bs.push(b).drop_last() =~= bs);
    if bs.len() > 0 {
        let h = bs.drop_last();
        open_blockers_are_the_unresolved(h, b);
        if h.contains(b) {
            let i = choose|i: int| 0 <= i < h.len() && h[i] == b;
            assert(bs[i] == b);
        }
        if bs.contains(b) {
            let i = choose|i: int| 0 <= i < bs.len() && bs[i] == b;
            if i < h.len() {
                assert(h[i] == b);
            }
        }
        let u = unresolved(h);
        if !bs.last().resolved {
            let w = u.push(bs.last());
            if u.contains(b) {
                let i = choose|i: int| 0 <= i < u.len() && u[i] == b;
                assert(w[i] == b);
            }
            if b == bs.last() {
                assert(w[u.len() as int] == b);
                assert(bs[bs.len() - 1] == b);
            }
            if w.contains(b) && !u.contains(b) {
                let i = choose|i: int| 0 <= i < w.len() && w[i] == b;
                if i < u.len() {
                    assert(u[i] == b);
                }
            }
        }
    }
}

/// Law: the current milestone is the first that is not done, and there is none exactly when
/// all are.
pub proof fn the_first_open_milestone_is_current(ms: Seq<Milestone>)
    ensures
        match first_open(ms) {
            Some(i) => 0 <= i < ms.len() && !ms[i].done && forall|j: int|
                0 <= j < i ==> (#[trigger] ms[j]).done,
            None => forall|j: int| 0 <= j < ms.len() ==> (#[trigger] ms[j]).done,
        },
    decreases ms.len(),
{
    if ms.len() > 0 && ms[0].done {
        let t = ms.skip(1);
        the_first_open_milestone_is_current(t);
        match first_open(t) {
            Some(i) => {
                assert(t[i] == ms[i + 1]);
                assert forall|j: int| 0 <= j < i + 1 implies (#[trigger] ms[j]).done by {
                    if j > 0 {
                        assert(t[j - 1] == ms[j]);
                    }
                }
            },
            None => {
                assert forall|j: int| 0 <= j < ms.len() implies (#[trigger] ms[j]).done by {
                    if j > 0 {
                        assert(t[j - 1] == ms[j]);
                    }
                }
            },
        }
    }
}

/// Law: a goal can be worked on while it is active, nothing blocks it and something is left
/// to do; one without any item has something left.
pub proof fn goals_are_worked_on_while_something_is_left(g: Goal)
    ensures
        g.status != GoalStatus::Active ==> !g.actionable(),
        (exists|i: int| 0 <= i < g.blockers@.len() && !(#[trigger] g.blockers@[i]).resolved)
            ==> !g.actionable(),
        g.status == GoalStatus::Active && (forall|i: int|
            0 <= i < g.blockers@.len() ==> (#[trigger] g.blockers@[i]).resolved) && (
        g.milestones@.len() + g.linked_tasks@.len() == 0 || (exists|i: int|
            0 <= i < g.milestones@.len() && !(#[trigger] g.milestones@[i]).done) || (exists|i: int|
            0 <= i < g.linked_tasks@.len() && !(#[trigger] g.linked_tasks@[i]).done))
            ==> g.actionable(),
        g.milestones@.len() + g.linked_tasks@.len() > 0 && (forall|i: int|
            0 <= i < g.milestones@.len() ==> (#[trigger] g.milestones@[i]).done) && (forall|i: int|
            0 <= i < g.linked_tasks@.len() ==> (#[trigger] g.linked_tasks@[i]).done)
            ==> !g.actionable() && g.progress() == 100,
        g.status == GoalStatus::Completed ==> g.progress() == 100,
        g.status != GoalStatus::Completed && g.milestones@.len() + g.linked_tasks@.len() == 0
            ==> g.progress() == 0,
{
    let bs = g.blockers@;
    let ms = g.milestones@;
    let ts = g.linked_tasks@;
    if bs.len() > 0 {
        lemma_open_count(bs);
    }
    if ms.len() > 0 || ts.len() > 0 {
        lemma_done_counts(ms, ts);
        if g.items_done() == g.items() {
            percent_is_nearest(g.items(), g.items());
        }
    }
}

proof fn lemma_open_count(bs: Seq<Blocker>)
    ensures
        unresolved(bs).len() == 0 <==> forall|i: int|
            0 <= i < bs.len() ==> (#[trigger] bs[i]).resolved,
    decreases bs.len(),
{
    if bs.len() > 0 {
        let h = bs.drop_last();
        lemma_open_count(h);
        assert(forall|i: int| 0 <= i < h.len() ==> (#[trigger] h[i]) == bs[i]);
        assert(bs.last() == bs[bs.len() - 1]);
        if unresolved(bs).len() == 0 {
            assert forall|i: int| 0 <= i < bs.len() implies (#[trigger] bs[i]).resolved by {
                if i < h.len() {
                    assert(h[i].resolved);
                }
            }
        }
    }
}

proof fn lemma_done_counts(ms: Seq<Milestone>, ts: Seq<TaskRef>)
    ensures
        done_milestones(ms) <= ms.len(),
        done_tasks(ts) <= ts.len(),
        done_milestones(ms) == ms.len() <==> forall|i: int|
            0 <= i < ms.len() ==> (#[trigger] ms[i]).done,
        done_tasks(ts) == ts.len() <==> forall|i: int| 0 <= i < ts.len() ==> (#[trigger] ts[i]).done,
{
    let m: Milestone = arbitrary();
    let t: TaskRef = arbitrary();
    done_items_are_counted(ms, m, ts, t);
}

/// Law: the goal to work on next is the first that can be worked on.
pub proof fn the_first_ready_goal_is_next(goals: Seq<Goal>)
    ensures
        match first_actionable(goals) {
            Some(i) => 0 <= i < goals.len() && goals[i].actionable() && forall|j: int|
                0 <= j < i ==> !(#[trigger] goals[j]).actionable(),
            None => forall|j: int| 0 <= j < goals.len() ==> !(#[trigger] goals[j]).actionable(),
        },
    decreases goals.len(),
{
    if goals.len() > 0 && !goals[0].actionable() {
        let t = goals.skip(1);
        the_first_ready_goal_is_next(t);
        match first_actionable(t) {
            Some(i) => {
                assert(t[i] == goals[i + 1]);
                assert forall|j: int| 0 <= j < i + 1 implies !(#[trigger] goals[j]).actionable() by {
                    if j > 0 {
                        assert(t[j - 1] == goals[j]);
                    }
                }
            },
            None => {
                assert forall|j: int| 0 <= j < goals.len() implies !(
                #[trigger] goals[j]).actionable() by {
                    if j > 0 {
                        assert(t[j - 1] == goals[j]);
                    }
                }
            },
        }
    }
}

/// Law: a task's worker is the first whose own task mentions it.
pub proof fn the_first_worker_that_mentions_a_task_has_it(
    workers: Seq<(String, String)>,
    key: Seq<char>,
    i: int,
)
    ensures
        0 <= i < workers.len() && chars::contains_str(workers[i].1@, key) && (forall|j: int|
            0 <= j < i ==> !chars::contains_str((#[trigger] workers[j]).1@, key)) ==> worker_for(
            workers,
            key,
        ) == Some(workers[i].0@),
        (forall|j: int|
            0 <= j < workers.len() ==> !chars::contains_str((#[trigger] workers[j]).1@, key))
            ==> worker_for(workers, key) is None,
    decreases workers.len(),
{
    if workers.len() > 0 {
        let t = workers.skip(1);
        the_first_worker_that_mentions_a_task_has_it(t, key, i - 1);
        assert(forall|j: int| 0 <= j < t.len() ==> (#[trigger] t[j]) == workers[j + 1]);
    }
}

/// Law: the tree of a goal has a line for every linked task: it names the task, and the
/// worker that has it or that none has.
pub proof fn trees_show_every_task(goal: Goal, workers: Seq<(String, String)>, i: int)
    requires
        0 <= i < goal.linked_tasks@.len(),
    ensures
        ({
            let key = goal.linked_tasks@[i].key@;
            let tree = hierarchy(goal, workers);
            &&& worker_for(workers, key) matches Some(id) ==> chars::contains_str(
                tree,
                " "@ + id + " ("@ + key + ")"@,
            )
            &&& worker_for(workers, key) is None ==> chars::contains_str(
                tree,
                " "@ + key + " (no active worker)"@,
            )
        }),
{
    let ts = goal.linked_tasks@;
    let n = ts.len();
    let key = ts[i].key@;
    let line = task_line(ts, i, workers);
    let lines = task_lines(ts, n, workers);
    let tree = hierarchy(goal, workers);
    lemma_task_lines(ts, n, workers, i);
    let head = "├─ goal: "@ + ellipsized(goal.title@, 60) + " ["@ + chars::dec(n) + " "@ + (if n == 1 {
        "child"@
    } else {
        "children"@
    }) + "]"@;
    chars::lemma_holds_part(head, lines, seq![]);
    chars::lemma_contains_within(tree, lines, line);
    let front = "\n│  "@ + (if i + 1 == ts.len() {
        "└─"@
    } else {
        "├─"@
    });
    match worker_for(workers, key) {
        Some(id) => {
            let part = " "@ + id + " ("@ + key + ")"@;
            lemma_group(front, " "@, id, " ("@, key, ")"@);
            chars::lemma_holds_part(front, part, seq![]);
            chars::lemma_contains_within(tree, line, part);
        },
        None => {
            let part = " "@ + key + " (no active worker)"@;
            lemma_assoc(front, " "@, key);
            lemma_assoc(front, " "@ + key, " (no active worker)"@);
            chars::lemma_holds_part(front, part, seq![]);
            chars::lemma_contains_within(tree, line, part);
        },
    }
}

proof fn lemma_assoc(a: Seq<char>, b: Seq<char>, c: Seq<char>)
    ensures
        a + b + c == a + (b + c),
{
    assert(a + b + c =~= a + (b + c));
}

/// Texts one after another, grouped behind the first.
proof fn lemma_group(
    a: Seq<char>,
    b: Seq<char>,
    c: Seq<char>,
    d: Seq<char>,
    e: Seq<char>,
    f: Seq<char>,
)
    ensures
        a + b + c + d + e + f == a + (b + c + d + e + f),
{
    lemma_assoc(a, b, c);
    lemma_assoc(a, b + c, d);
    lemma_assoc(a, b + c + d, e);
    lemma_assoc(a, b + c + d + e, f);
}

proof fn lemma_task_lines(ts: Seq<TaskRef>, n: nat, workers: Seq<(String, String)>, i: int)
    requires
        0 <= i < n,
    ensures
        chars::contains_str(task_lines(ts, n, workers), task_line(ts, i, workers)),
    decreases n,
{
    let before = task_lines(ts, (n - 1) as nat, workers);
    let last = task_line(ts, n - 1, workers);
    chars::lemma_holds_part(before, last, seq![]);
    if i < n - 1 {
        lemma_task_lines(ts, (n - 1) as nat, workers, i);
        chars::lemma_holds_part(seq![], before, last);
        chars::lemma_contains_within(before + last, before, task_line(ts, i, workers));
    }
}

/// Law: the summary of a goal begins with its title, and tells how many of its milestones
/// are done.
pub proof fn summaries_tell_the_progress(g: Goal)
    ensures
        chars::starts_with(g.summary(), "Goal: "@ + ellipsized(g.title@, 72)),
        g.milestones@.len() > 0 ==> chars::contains_str(
            g.summary(),
            chars::dec(done_milestones(g.milestones@)) + "/"@ + chars::dec(g.milestones@.len())
                + " done"@,
        ),
        g.milestones@.len() > 0 ==> (first_open(g.milestones@) matches Some(i)
            ==> chars::contains_str(g.summary(), ellipsized(g.milestones@[i].title@, 60))),
{
    let head = "Goal: "@ + ellipsized(g.title@, 72);
    let s = g.summary();
    let mid = g.milestone_text();
    assert(s.subrange(0, head.len() as int) =~= head);
    chars::lemma_holds_part(head, mid, g.blocker_text());
    let ms = g.milestones@;
    if ms.len() > 0 {
        let d = chars::dec(done_milestones(ms));
        let t = chars::dec(ms.len());
        let pct = chars::dec(done_milestones(ms) * 100 / ms.len());
        let part = d + "/"@ + t + " done"@;
        reveal_strlit(" done, ");
        reveal_strlit(" done (");
        reveal_strlit(" done");
        reveal_strlit(", ");
        reveal_strlit(" (");
        match first_open(ms) {
            Some(i) => {
                let name = ellipsized(ms[i].title@, 60);
                let a = " — current milestone: "@;
                assert(" done, "@ =~= " done"@ + ", "@);
                lemma_counted(a + name + " ("@, d, "/"@, t, " done"@, ", "@, pct, "%)"@);
                chars::lemma_contains_within(s, mid, part);
                let x = a + name + " ("@;
                chars::lemma_holds_part(a, name, " ("@);
                lemma_still_holds(x, name, d, "/"@, t, " done, "@, pct, "%)"@);
                chars::lemma_contains_within(s, mid, name);
            },
            None => {
                let a = " — milestones "@;
                assert(" done ("@ =~= " done"@ + " ("@);
                lemma_counted(a, d, "/"@, t, " done"@, " ("@, pct, "%)"@);
                chars::lemma_contains_within(s, mid, part);
            },
        }
    }
}

proof fn lemma_counted(
    a: Seq<char>,
    d: Seq<char>,
    of: Seq<char>,
    t: Seq<char>,
    done: Seq<char>,
    sep: Seq<char>,
    pct: Seq<char>,
    end: Seq<char>,
)
    ensures
        chars::contains_str(a + d + of + t + (done + sep) + pct + end, d + of + t + done),
{
    let x = a + d + of + t;
    let p = d + of + t + done;
    lemma_assoc(a, d, of);
    lemma_assoc(a, d + of, t);
    lemma_assoc(a, d + of + t, done);
    lemma_assoc(x, done, sep);
    lemma_assoc(x + done, sep, pct);
    lemma_assoc(x + done, sep + pct, end);
    chars::lemma_holds_part(a, p, sep + pct + end);
}

proof fn lemma_still_holds(
    x: Seq<char>,
    p: Seq<char>,
    a: Seq<char>,
    b: Seq<char>,
    c: Seq<char>,
    d: Seq<char>,
    e: Seq<char>,
    f: Seq<char>,
)
    requires
        chars::contains_str(x, p),
    ensures
        chars::contains_str(x + a + b + c + d + e + f, p),
{
    lemma_assoc(x, a, b);
    lemma_assoc(x, a + b, c);
    lemma_assoc(x, a + b + c, d);
    lemma_assoc(x, a + b + c + d, e);
    lemma_assoc(x, a + b + c + d + e, f);
    let y = a + b + c + d + e + f;
    chars::lemma_holds_part(seq![], x, y);
    chars::lemma_contains_within(x + y, x, p);
}

/// Law: of a reply counts what its first text block says, without the whitespace around it.
pub proof fn replies_are_their_first_text(
    e: Seq<(Seq<char>, JsonV)>,
    before: Seq<JsonV>,
    block: JsonV,
    rest: Seq<JsonV>,
    words: Seq<char>,
)
    requires
        forall|i: int|
            0 <= i < before.len() ==> json::member_text(#[trigger] before[i], "type"@) != Some(
                "text"@,
            ),
        json::member_text(block, "type"@) == Some("text"@),
        json::member_text(block, "text"@) == Some(words),
    ensures
        reply_text(
            JsonV::Object(json::bind(e, "content"@, JsonV::Array(before + seq![block] + rest))),
        ) == chars::trim(words),
        reply_text(JsonV::Object(json::bind(e, "content"@, JsonV::Array(before)))).len() == 0,
{
    the_first_text_block_speaks(before, block, rest, words);
    json::lookup_after_bind(e, "content"@, JsonV::Array(before + seq![block] + rest), "content"@);
    json::lookup_after_bind(e, "content"@, JsonV::Array(before), "content"@);
}

/// Law: a document is read as it is where the words are one, and else where it stands among
/// them.
pub proof fn documents_are_read_from_words(a: Seq<char>, x: Seq<char>, b: Seq<char>)
    requires
        !a.contains('{'),
        !b.contains('}'),
    ensures
        ({
            let inner = seq!['{'] + x + seq!['}'];
            let s = a + seq!['{'] + x + seq!['}'] + b;
            &&& json::document(s) is Ok ==> verdict_document(s) == json::document(s)
            &&& json::document(s) is Err ==> verdict_document(s) == json::document(inner)
        }),
{
    documents_are_found_inside_words(a, x, b);
}

/// Law: a status is read from its token in capitals or small letters, and with whitespace
/// around it.
pub proof fn tokens_are_read_in_any_case(a: Seq<char>, word: Seq<char>, b: Seq<char>, s: GoalStatus)
    requires
        chars::blank(a),
        chars::blank(b),
        chars::lower(word) == s.token(),
    ensures
        status_of_token(a + word + b) == s,
{
    reveal_strlit("active");
    reveal_strlit("paused");
    reveal_strlit("completed");
    reveal_strlit("abandoned");
    let t = s.token();
    assert(t.len() > 0 && 'a' <= t[0] && t[0] <= 'z' && 'a' <= t.last() && t.last() <= 'z');
    assert(word.len() == t.len());
    assert(chars::lower_char(word[0]) == t[0]);
    assert(chars::lower_char(word.last()) == t.last());
    chars::outer_whitespace_is_trimmed(a, word, b);
    status_round_trips(s);
    chars::outer_whitespace_is_trimmed(seq![], t, seq![]);
    assert(Seq::<char>::empty() + t + Seq::<char>::empty() =~= t);
    chars::capitals_become_small(word, 0);
}

} // verus!
