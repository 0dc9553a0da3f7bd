//! Loop guards, budgets and graceful degradation for the agentic tool loop.
//!
//! A repeated identical call is blocked and then breaks the turn; past most of
//! the iteration budget the model is told to converge and finally has to
//! summarize; and every abnormal stop is tagged by a banner line that a
//! coordinator reads back to choose a recovery.
use vstd::prelude::*;
use vstd::utf8::encode_utf8;
use crate::chars;
use crate::hash;
use crate::json::{self, Json, JsonV};
use crate::text;

verus! {

broadcast use vstd::std_specs::hash::group_hash_axioms;

/// Percent of the iteration budget after which the model is told to converge.
pub const SOFT_WARN_PCT: usize = 75;

/// Percent of the iteration budget after which a summary is forced.
pub const FORCE_SUMMARIZE_PCT: usize = 90;

/// The identical call, counted from one, that is no longer executed.
pub const REPEAT_SOFT_LIMIT: usize = 3;

/// The identical call, counted from one, that breaks the turn.
pub const REPEAT_HARD_LIMIT: usize = 4;

/// Automatic recoveries before the operator is flagged.
pub const MAX_AUTO_RECOVERIES: usize = 2;

/// Consecutive lone reads before the model is nudged to batch.
pub const BATCH_NUDGE_STREAK: usize = 3;

/// Consecutive single-call rounds before the turn yields.
pub const SERIAL_CHAIN_YIELD_DEPTH: usize = 12;

/// Tool calls in one turn after which an advisory is logged.
pub const CALL_BUDGET_SOFT: usize = 20;

/// Tool calls in one turn after which the turn yields.
pub const CALL_BUDGET_HARD: usize = 30;

pub const SOFT_HEAD: &'static str = "\n\n[BUDGET — converge now: you have about ";

pub const SOFT_TAIL: &'static str = " tool-call round(s) left this turn. Finish the highest-value step and prepare to summarize. Do NOT start new exploration or repeat calls you've already made; if you're blocked, say so plainly and give your best partial result.]";

pub const FORCE_TEXT: &'static str = "\n\n[BUDGET EXHAUSTED — this is your FINAL step and you have NO tools available now. Do not attempt any tool call. Write your best final answer from what you already have: what you accomplished, what still remains, and any concrete blocker. If the work is incomplete, say so clearly and hand back the partial result — a clearly-labelled partial answer is far better than nothing.]";

pub const BLOCKED_HEAD: &'static str = "[loop-guard] This identical call has now been requested ";

pub const BLOCKED_MID: &'static str = " times this turn with no new information and was NOT executed again (to avoid a duplicate side effect): ";

pub const BLOCKED_TAIL: &'static str = "\nStop repeating it. Either take a genuinely different action, or — if you are blocked — state the specific blocker plainly and give your best partial answer.";

pub const RESUME_TAIL: &'static str = "). The work you already completed is preserved — do NOT redo it. Pick up exactly where you left off, do only the remaining steps, and drive the task to completion. If you are genuinely blocked, say so plainly and give your best partial result.";

pub const NUDGE_TAIL: &'static str = ". Do NOT repeat that call. Re-read the task, then take a materially different approach — a different command, a different file, or a different strategy. If no approach can work, state the specific blocker and hand back your best partial result instead of retrying.";

pub const BATCH_TEXT: &'static str = "\n\n[BATCH — you've issued several single-tool read turns in a row (read_file/grep_files/list_dir/glob_expand/stat_file/diff_files). These independent reads should go OUT TOGETHER: fire ALL the reads/greps/lists you already know you need in ONE turn, not one per round. Every extra round re-sends the whole context, so front-load your inspection calls now. Only serialize a call that genuinely DEPENDS on a previous call's output (e.g. grep to find a line, THEN read that exact line).]";

/// Where an iteration stands relative to the budget.
#[derive(Debug, Clone, Copy, PartialEq, Eq, Structural)]
pub enum BudgetPhase {
    /// Plenty of budget left.
    Normal,
    /// Past [`SOFT_WARN_PCT`].
    SoftWarn,
    /// Past [`FORCE_SUMMARIZE_PCT`].
    ForceSummarize,
}

/// The phase of a 1-based iteration of a budget of `max`: by the whole percent of
/// the budget used up to and with this iteration. A zero budget forces at once.
pub open spec fn phase_at(iteration: nat, max: nat) -> BudgetPhase {
    if max == 0 || iteration * 100 / max >= FORCE_SUMMARIZE_PCT {
        BudgetPhase::ForceSummarize
    } else if iteration * 100 / max >= SOFT_WARN_PCT {
        BudgetPhase::SoftWarn
    } else {
        BudgetPhase::Normal
    }
}

/// Classifies a 1-based iteration against a budget.
pub fn budget_phase(iteration: usize, max: usize) -> (r: BudgetPhase)
    ensures
        r == phase_at(iteration as nat, max as nat),
{
    if max == 0 {
        return BudgetPhase::ForceSummarize;
    }
    let pct: u128 = (iteration as u128) * 100 / (max as u128);
    if pct >= FORCE_SUMMARIZE_PCT as u128 {
        BudgetPhase::ForceSummarize
    } else if pct >= SOFT_WARN_PCT as u128 {
        BudgetPhase::SoftWarn
    } else {
        BudgetPhase::Normal
    }
}

pub open spec fn budget_text(phase: BudgetPhase, remaining: nat) -> Seq<char> {
    match phase {
        BudgetPhase::Normal => seq![],
        BudgetPhase::SoftWarn => SOFT_HEAD@ + chars::dec(remaining) + SOFT_TAIL@,
        BudgetPhase::ForceSummarize => FORCE_TEXT@,
    }
}

/// The system-prompt suffix of a phase; empty in the normal one.
pub fn budget_suffix(phase: BudgetPhase, remaining: usize) -> (r: String)
    ensures
        r@ == budget_text(phase, remaining as nat),
        r@.len() == 0 <==> phase == BudgetPhase::Normal,
{
    proof {
        reveal_strlit("\n\n[BUDGET — converge now: you have about ");
        reveal_strlit(
            "\n\n[BUDGET EXHAUSTED — this is your FINAL step and you have NO tools available now. Do not attempt any tool call. Write your best final answer from what you already have: what you accomplished, what still remains, and any concrete blocker. If the work is incomplete, say so clearly and hand back the partial result — a clearly-labelled partial answer is far better than nothing.]",
        );
    }
    match phase {
        BudgetPhase::Normal => String::new(),
        BudgetPhase::SoftWarn => {
            let mut out = SOFT_HEAD.to_owned();
            text::push_usize(&mut out, remaining);
            out.push_str(SOFT_TAIL);
            out
        },
        BudgetPhase::ForceSummarize => FORCE_TEXT.to_owned(),
    }
}

/// The last iteration always forces a summary, whatever the budget.
pub proof fn last_iteration_forces(max: nat)
    ensures
        phase_at(max, max) == BudgetPhase::ForceSummarize,
{
    if max > 0 {
        assert(max * 100 / max == 100) by (nonlinear_arith)
            requires
                max > 0,
        ;
    }
}

/// Once the model has been warned or forced, later iterations never relax.
pub proof fn budget_pressure_never_falls(i: nat, j: nat, max: nat)
    requires
        i <= j,
    ensures
        phase_at(i, max) == BudgetPhase::ForceSummarize ==> phase_at(j, max)
            == BudgetPhase::ForceSummarize,
        phase_at(i, max) == BudgetPhase::SoftWarn ==> phase_at(j, max) != BudgetPhase::Normal,
{
    if max > 0 {
        assert(i * 100 / max <= j * 100 / max) by (nonlinear_arith)
            requires
                i <= j,
                max > 0,
        ;
    }
}

/// What to do with a tool call, given how often it has been requested.
#[derive(Debug, Clone, Copy, PartialEq, Eq, Structural)]
pub enum RepeatAction {
    /// Run it.
    Allow,
    /// Do not run it again; feed a corrective result back.
    Block,
    /// Block it and break the turn.
    Break,
}

pub open spec fn action_for(count: nat) -> RepeatAction {
    if count >= REPEAT_HARD_LIMIT {
        RepeatAction::Break
    } else if count >= REPEAT_SOFT_LIMIT {
        RepeatAction::Block
    } else {
        RepeatAction::Allow
    }
}

/// The action for the `count`th identical call.
pub fn repeat_action(count: usize) -> (r: RepeatAction)
    ensures
        r == action_for(count as nat),
{
    if count >= REPEAT_HARD_LIMIT {
        RepeatAction::Break
    } else if count >= REPEAT_SOFT_LIMIT {
        RepeatAction::Block
    } else {
        RepeatAction::Allow
    }
}

/// `s` with every quotation mark doubled.
pub open spec fn doubled(s: Seq<char>) -> Seq<char>
    decreases s.len(),
{
    if s.len() == 0 {
        seq![]
    } else if s[0] == '"' {
        seq!['"', '"'] + doubled(s.skip(1))
    } else {
        seq![s[0]] + doubled(s.skip(1))
    }
}

/// `s` between quotation marks, those inside doubled.
pub open spec fn in_quotes(s: Seq<char>) -> Seq<char> {
    seq!['"'] + doubled(s) + seq!['"']
}

/// Whether a key can stand before its colon as it is: it has no colon of its own, and
/// begins neither like a key in quotes nor like the end of an object.
pub open spec fn plain_key(k: Seq<char>) -> bool {
    !k.contains(':') && (k.len() == 0 || (k[0] != '"' && k[0] != '}'))
}

/// A key as it is, or in quotes where it is not plain.
pub open spec fn key_text(k: Seq<char>) -> Seq<char> {
    if plain_key(k) {
        k
    } else {
        in_quotes(k)
    }
}

/// The canonical text of a JSON value, which is no JSON: object members in key order,
/// so that the order in which they were written plays no part; texts in quotes and keys
/// as they are. What could be mistaken for something else is marked by further quotes,
/// so that different values have different texts.
pub open spec fn canon(v: JsonV) -> Seq<char>
    decreases v, 0nat,
{
    match v {
        JsonV::Null => "null"@,
        JsonV::Bool(b) => if b {
            "true"@
        } else {
            "false"@
        },
        JsonV::Number(n) => n,
        JsonV::Str(s) => in_quotes(s),
        JsonV::Array(items) => seq!['['] + canon_items(items, items.len()) + seq![']'],
        JsonV::Object(entries) => seq!['{'] + canon_entries(entries, entries.len()) + seq!['}'],
    }
}

pub open spec fn canon_items(items: Seq<JsonV>, n: nat) -> Seq<char>
    decreases items, n,
{
    if n == 0 || n > items.len() {
        seq![]
    } else {
        canon_items(items, (n - 1) as nat) + canon(items[n - 1]) + seq![',']
    }
}

pub open spec fn canon_entries(entries: Seq<(Seq<char>, JsonV)>, n: nat) -> Seq<char>
    decreases entries, n,
{
    if n == 0 || n > entries.len() {
        seq![]
    } else {
        canon_entries(entries, (n - 1) as nat) + key_text(entries[n - 1].0) + seq![':'] + canon(
            entries[n - 1].1,
        ) + seq![',']
    }
}

/// Appends `s` between quotation marks, those inside doubled.
fn push_in_quotes(out: &mut String, s: &str)
    ensures
        final(out)@ == old(out)@ + in_quotes(s@),
{
    let v = text::chars_of(s);
    out.push('"');
    let ghost head = out@;
    let mut i: usize = 0;
    assert(v@.skip(0) =~= v@);
    while i < v.len()
        invariant
            i <= v@.len(),
            out@ + doubled(v@.skip(i as int)) == head + doubled(v@),
        decreases v@.len() - i,
    {
        let ghost before = out@;
        let c = v[i];
        assert(v@.skip(i as int).skip(1) =~= v@.skip(i + 1));
        if c == '"' {
            out.push('"');
        }
        out.push(c);
        i += 1;
        assert(out@ + doubled(v@.skip(i as int)) =~= before + doubled(v@.skip(i - 1)));
    }
    assert(v@.skip(i as int) =~= Seq::<char>::empty());
    assert(out@ =~= head + doubled(v@));
    out.push('"');
    assert(out@ =~= old(out)@ + in_quotes(s@));
}

fn is_plain_key(k: &[char]) -> (r: bool)
    ensures
        r == plain_key(k@),
{
    if k.len() > 0 && (k[0] == '"' || k[0] == '}') {
        return false;
    }
    let mut i: usize = 0;
    while i < k.len()
        invariant
            i <= k@.len(),
            k@.len() == 0 || (k@[0] != '"' && k@[0] != '}'),
            forall|j: int| 0 <= j < i ==> #[trigger] k@[j] != ':',
        decreases k@.len() - i,
    {
        if k[i] == ':' {
            assert(k@.contains(':'));
            return false;
        }
        i += 1;
    }
    true
}

/// Appends the text of a key.
fn push_key(out: &mut String, k: &str)
    ensures
        final(out)@ == old(out)@ + key_text(k@),
{
    let v = text::chars_of(k);
    if is_plain_key(&v) {
        out.push_str(k);
    } else {
        push_in_quotes(out, k);
    }
}

/// Appends the canonical text of `v`.
fn canonicalize(v: &Json, out: &mut String)
    ensures
        final(out)@ == old(out)@ + canon(v.view()),
    decreases v.view(),
{
    match v {
        Json::Object(o) => {
            out.push('{');
            let n: usize = o.len();
            let mut i: usize = 0;
            let ghost e = o.view();
            let ghost head = out@;
            assert(out@ =~= head + canon_entries(e, 0));
            while i < n
                invariant
                    n == e.len(),
                    e == o.view(),
                    v.view() == JsonV::Object(e),
                    i <= n,
                    out@ == head + canon_entries(e, i as nat),
                decreases n - i,
            {
                push_key(out, o.key_at(i).as_str());
                out.push(':');
                let w = o.value_at(i);
                assert(decreases_to!(v.view() => v.view()->Object_0));
                assert(decreases_to!(e => e[i as int]));
                assert(decreases_to!(e[i as int] => e[i as int].1));
                canonicalize(w, out);
                out.push(',');
                i += 1;
                assert(out@ =~= head + canon_entries(e, i as nat));
            }
            out.push('}');
            assert(out@ =~= old(out)@ + canon(v.view()));
        },
        Json::Array(items) => {
            out.push('[');
            let mut i: usize = 0;
            let ghost s = v.view()->Array_0;
            let ghost head = out@;
            assert(out@ =~= head + canon_items(s, 0));
            while i < items.len()
                invariant
                    s.len() == items@.len(),
                    forall|j: int| 0 <= j < s.len() ==> #[trigger] s[j] == items@[j].view(),
                    v.view() == JsonV::Array(s),
                    i <= items@.len(),
                    out@ == head + canon_items(s, i as nat),
                decreases items@.len() - i,
            {
                assert(decreases_to!(v.view() => v.view()->Array_0));
                assert(decreases_to!(s => s[i as int]));
                canonicalize(&items[i], out);
                out.push(',');
                i += 1;
                assert(out@ =~= head + canon_items(s, i as nat));
            }
            out.push(']');
            assert(out@ =~= old(out)@ + canon(v.view()));
        },
        Json::Str(s) => {
            push_in_quotes(out, s.as_str());
        },
        Json::Null => {
            out.push_str("null");
        },
        Json::Bool(b) => {
            if *b {
                out.push_str("true");
            } else {
                out.push_str("false");
            }
        },
        Json::Number(n) => {
            out.push_str(n.as_str());
        },
    }
}

/// The text that a call's signature is the hash of: its name, a NUL and its canonical
/// arguments.
pub open spec fn call_text(name: Seq<char>, args: JsonV) -> Seq<char> {
    name.push('\0') + canon(args)
}

/// The signature of a call.
pub open spec fn signature_of(name: Seq<char>, args: JsonV) -> u64 {
    hash::fnv(encode_utf8(call_text(name, args)))
}

/// The canonical texts of the items from the `i`th on.
spec fn rest_items(items: Seq<JsonV>, i: nat) -> Seq<char>
    decreases items.len() - i,
{
    if i >= items.len() {
        seq![]
    } else {
        canon(items[i as int]) + (seq![','] + rest_items(items, i + 1))
    }
}

proof fn lemma_rest_items(items: Seq<JsonV>, i: nat)
    requires
        i <= items.len(),
    ensures
        canon_items(items, items.len()) == canon_items(items, i) + rest_items(items, i),
    decreases items.len() - i,
{
    if i < items.len() {
        lemma_rest_items(items, i + 1);
        assert(canon_items(items, i + 1) + rest_items(items, i + 1) =~= canon_items(items, i)
            + rest_items(items, i));
    } else {
        assert(canon_items(items, i) + rest_items(items, i) =~= canon_items(items, i));
    }
}

/// The canonical texts of the members from the `i`th on.
spec fn rest_entries(e: Seq<(Seq<char>, JsonV)>, i: nat) -> Seq<char>
    decreases e.len() - i,
{
    if i >= e.len() {
        seq![]
    } else {
        key_text(e[i as int].0) + (seq![':'] + (canon(e[i as int].1) + (seq![',']
            + rest_entries(e, i + 1))))
    }
}

proof fn lemma_rest_entries(e: Seq<(Seq<char>, JsonV)>, i: nat)
    requires
        i <= e.len(),
    ensures
        canon_entries(e, e.len()) == canon_entries(e, i) + rest_entries(e, i),
    decreases e.len() - i,
{
    if i < e.len() {
        lemma_rest_entries(e, i + 1);
        assert(canon_entries(e, i + 1) + rest_entries(e, i + 1) =~= canon_entries(e, i)
            + rest_entries(e, i));
    } else {
        assert(canon_entries(e, i) + rest_entries(e, i) =~= canon_entries(e, i));
    }
}

/// Equal texts with equal beginnings have equal rests.
proof fn lemma_cancel(p: Seq<char>, x: Seq<char>, y: Seq<char>)
    requires
        p + x == p + y,
    ensures
        x == y,
{
    assert((p + x).skip(p.len() as int) =~= x);
    assert((p + y).skip(p.len() as int) =~= y);
}

/// Whether what follows a value cannot be taken for more of it.
spec fn ends_value(x: Seq<char>) -> bool {
    x.len() == 0 || (!json::in_number(x[0]) && x[0] != '"')
}

/// What is in quotes can be told from what follows, which begins with no quote.
proof fn lemma_quotes_apart(s: Seq<char>, t: Seq<char>, x: Seq<char>, y: Seq<char>)
    requires
        x.len() == 0 || x[0] != '"',
        y.len() == 0 || y[0] != '"',
        doubled(s) + (seq!['"'] + x) == doubled(t) + (seq!['"'] + y),
    ensures
        s == t,
        x == y,
    decreases s.len(),
{
    let a = doubled(s) + (seq!['"'] + x);
    let b = doubled(t) + (seq!['"'] + y);
    if s.len() == 0 {
        assert(a =~= seq!['"'] + x);
        if t.len() > 0 {
            assert(b[0] == doubled(t)[0]);
            assert(b[1] == doubled(t)[1]);
            assert(a[1] == x[0]);
        }
        assert(s =~= t);
        assert(b =~= seq!['"'] + y);
        lemma_cancel(seq!['"'], x, y);
    } else if t.len() == 0 {
        assert(b =~= seq!['"'] + y);
        assert(a[0] == doubled(s)[0]);
        assert(a[1] == doubled(s)[1]);
        assert(b[1] == y[0]);
    } else {
        let x2 = doubled(s.skip(1)) + (seq!['"'] + x);
        let y2 = doubled(t.skip(1)) + (seq!['"'] + y);
        assert(a[0] == s[0] && b[0] == t[0]);
        let p = if s[0] == '"' {
            seq!['"', '"']
        } else {
            seq![s[0]]
        };
        assert(a =~= p + x2);
        assert(b =~= p + y2);
        lemma_cancel(p, x2, y2);
        lemma_quotes_apart(s.skip(1), t.skip(1), x, y);
        assert(s =~= seq![s[0]] + s.skip(1));
        assert(t =~= seq![t[0]] + t.skip(1));
    }
}

/// A key and its colon can be told from what follows.
proof fn lemma_keys_apart(k: Seq<char>, l: Seq<char>, x: Seq<char>, y: Seq<char>)
    requires
        key_text(k) + (seq![':'] + x) == key_text(l) + (seq![':'] + y),
    ensures
        k == l,
        x == y,
{
    let a = key_text(k) + (seq![':'] + x);
    let b = key_text(l) + (seq![':'] + y);
    if plain_key(k) && plain_key(l) {
        assert(a[k.len() as int] == ':');
        assert(b[l.len() as int] == ':');
        if k.len() < l.len() {
            assert(b[k.len() as int] == l[k.len() as int]);
            assert(l.contains(':'));
        }
        if l.len() < k.len() {
            assert(a[l.len() as int] == k[l.len() as int]);
            assert(k.contains(':'));
        }
        assert(a.take(k.len() as int) =~= k);
        assert(b.take(l.len() as int) =~= l);
        lemma_cancel(k, seq![':'] + x, seq![':'] + y);
    } else if !plain_key(k) && !plain_key(l) {
        let x2 = doubled(k) + (seq!['"'] + (seq![':'] + x));
        let y2 = doubled(l) + (seq!['"'] + (seq![':'] + y));
        assert(a =~= seq!['"'] + x2);
        assert(b =~= seq!['"'] + y2);
        lemma_cancel(seq!['"'], x2, y2);
        lemma_quotes_apart(k, l, seq![':'] + x, seq![':'] + y);
    } else {
        lemma_key_first(k, x);
        lemma_key_first(l, y);
    }
    lemma_cancel(seq![':'], x, y);
}

/// The first character of a key's text and its colon.
proof fn lemma_key_first(k: Seq<char>, x: Seq<char>)
    ensures
        (key_text(k) + (seq![':'] + x))[0] != '}',
        (key_text(k) + (seq![':'] + x))[0] == '"' <==> !plain_key(k),
{
    let a = key_text(k) + (seq![':'] + x);
    if plain_key(k) && k.len() == 0 {
        assert(a =~= seq![':'] + x);
    } else {
        assert(a[0] == key_text(k)[0]);
    }
}

/// The first character of a canonical text.
proof fn lemma_first(v: JsonV)
    requires
        json::sound_numbers(v),
    ensures
        canon(v).len() > 0,
        match v {
            JsonV::Null => canon(v)[0] == 'n',
            JsonV::Bool(b) => canon(v)[0] == (if b {
                't'
            } else {
                'f'
            }),
            JsonV::Number(_) => json::in_number(canon(v)[0]),
            JsonV::Str(_) => canon(v)[0] == '"',
            JsonV::Array(_) => canon(v)[0] == '[',
            JsonV::Object(_) => canon(v)[0] == '{',
        },
{
    reveal_strlit("null");
    reveal_strlit("true");
    reveal_strlit("false");
}

/// A canonical text can be told from what follows.
proof fn lemma_canon_apart(a: JsonV, b: JsonV, x: Seq<char>, y: Seq<char>)
    requires
        json::sound_numbers(a),
        json::sound_numbers(b),
        ends_value(x),
        ends_value(y),
        canon(a) + x == canon(b) + y,
    ensures
        a == b,
        x == y,
    decreases a, 0nat,
{
    lemma_first(a);
    lemma_first(b);
    assert((canon(a) + x)[0] == canon(a)[0]);
    assert((canon(b) + y)[0] == canon(b)[0]);
    match (a, b) {
        (JsonV::Number(m), JsonV::Number(n)) => {
            if m.len() < n.len() {
                assert((m + x)[m.len() as int] == (n + y)[m.len() as int]);
                assert(x.len() > 0);
                assert((m + x)[m.len() as int] == x[0]);
                assert((n + y)[m.len() as int] == n[m.len() as int]);
                assert(json::in_number(n[m.len() as int]));
            }
            if n.len() < m.len() {
                assert((m + x)[n.len() as int] == (n + y)[n.len() as int]);
                assert(y.len() > 0);
                assert((n + y)[n.len() as int] == y[0]);
                assert((m + x)[n.len() as int] == m[n.len() as int]);
                assert(json::in_number(m[n.len() as int]));
            }
            assert((m + x).take(m.len() as int) =~= m);
            assert((n + y).take(n.len() as int) =~= n);
            lemma_cancel(m, x, y);
        },
        (JsonV::Str(s), JsonV::Str(t)) => {
            let s2 = doubled(s) + (seq!['"'] + x);
            let t2 = doubled(t) + (seq!['"'] + y);
            assert(in_quotes(s) + x =~= seq!['"'] + s2);
            assert(in_quotes(t) + y =~= seq!['"'] + t2);
            lemma_cancel(seq!['"'], s2, t2);
            lemma_quotes_apart(s, t, x, y);
        },
        (JsonV::Array(s), JsonV::Array(t)) => {
            lemma_rest_items(s, 0);
            lemma_rest_items(t, 0);
            let s2 = rest_items(s, 0) + (seq![']'] + x);
            let t2 = rest_items(t, 0) + (seq![']'] + y);
            assert(canon(a) + x =~= seq!['['] + s2);
            assert(canon(b) + y =~= seq!['['] + t2);
            lemma_cancel(seq!['['], s2, t2);
            lemma_items_apart(s, t, 0, x, y);
            assert(s =~= t);
        },
        (JsonV::Object(s), JsonV::Object(t)) => {
            lemma_rest_entries(s, 0);
            lemma_rest_entries(t, 0);
            let s2 = rest_entries(s, 0) + (seq!['}'] + x);
            let t2 = rest_entries(t, 0) + (seq!['}'] + y);
            assert(canon(a) + x =~= seq!['{'] + s2);
            assert(canon(b) + y =~= seq!['{'] + t2);
            lemma_cancel(seq!['{'], s2, t2);
            lemma_entries_apart(s, t, 0, x, y);
            assert(s =~= t);
        },
        _ => {
            assert(a == b);
            lemma_cancel(canon(a), x, y);
        },
    }
}

proof fn lemma_items_apart(s: Seq<JsonV>, t: Seq<JsonV>, i: nat, x: Seq<char>, y: Seq<char>)
    requires
        forall|k: int| 0 <= k < s.len() ==> json::sound_numbers(#[trigger] s[k]),
        forall|k: int| 0 <= k < t.len() ==> json::sound_numbers(#[trigger] t[k]),
        i <= s.len(),
        i <= t.len(),
        rest_items(s, i) + (seq![']'] + x) == rest_items(t, i) + (seq![']'] + y),
    ensures
        s.len() == t.len(),
        forall|k: int| i <= k < s.len() ==> s[k] == t[k],
        x == y,
    decreases s, s.len() - i,
{
    let a = rest_items(s, i) + (seq![']'] + x);
    let b = rest_items(t, i) + (seq![']'] + y);
    if i < s.len() {
        lemma_first(s[i as int]);
        assert(a[0] == canon(s[i as int])[0]);
    } else {
        assert(a[0] == ']');
    }
    if i < t.len() {
        lemma_first(t[i as int]);
        assert(b[0] == canon(t[i as int])[0]);
    } else {
        assert(b[0] == ']');
    }
    if i < s.len() {
        let x2 = rest_items(s, i + 1) + (seq![']'] + x);
        let y2 = rest_items(t, i + 1) + (seq![']'] + y);
        assert(a =~= canon(s[i as int]) + (seq![','] + x2));
        assert(b =~= canon(t[i as int]) + (seq![','] + y2));
        lemma_canon_apart(s[i as int], t[i as int], seq![','] + x2, seq![','] + y2);
        lemma_cancel(seq![','], x2, y2);
        lemma_items_apart(s, t, i + 1, x, y);
    } else {
        assert(a =~= seq![']'] + x);
        assert(b =~= seq![']'] + y);
        lemma_cancel(seq![']'], x, y);
    }
}

proof fn lemma_entries_apart(
    s: Seq<(Seq<char>, JsonV)>,
    t: Seq<(Seq<char>, JsonV)>,
    i: nat,
    x: Seq<char>,
    y: Seq<char>,
)
    requires
        forall|k: int| 0 <= k < s.len() ==> json::sound_numbers((#[trigger] s[k]).1),
        forall|k: int| 0 <= k < t.len() ==> json::sound_numbers((#[trigger] t[k]).1),
        i <= s.len(),
        i <= t.len(),
        rest_entries(s, i) + (seq!['}'] + x) == rest_entries(t, i) + (seq!['}'] + y),
    ensures
        s.len() == t.len(),
        forall|k: int| i <= k < s.len() ==> s[k] == t[k],
        x == y,
    decreases s, s.len() - i,
{
    let a = rest_entries(s, i) + (seq!['}'] + x);
    let b = rest_entries(t, i) + (seq!['}'] + y);
    if i < s.len() {
        let k = s[i as int].0;
        let x2 = canon(s[i as int].1) + (seq![','] + (rest_entries(s, i + 1) + (seq!['}'] + x)));
        assert(a =~= key_text(k) + (seq![':'] + x2));
        lemma_key_first(k, x2);
    } else {
        assert(a[0] == '}');
    }
    if i < t.len() {
        let l = t[i as int].0;
        let y2 = canon(t[i as int].1) + (seq![','] + (rest_entries(t, i + 1) + (seq!['}'] + y)));
        assert(b =~= key_text(l) + (seq![':'] + y2));
        lemma_key_first(l, y2);
    } else {
        assert(b[0] == '}');
    }
    if i < s.len() {
        let k = s[i as int].0;
        let l = t[i as int].0;
        let x3 = rest_entries(s, i + 1) + (seq!['}'] + x);
        let y3 = rest_entries(t, i + 1) + (seq!['}'] + y);
        let x2 = canon(s[i as int].1) + (seq![','] + x3);
        let y2 = canon(t[i as int].1) + (seq![','] + y3);
        lemma_keys_apart(k, l, x2, y2);
        assert(decreases_to!(s => s[i as int]));
        assert(decreases_to!(s[i as int] => s[i as int].1));
        lemma_canon_apart(s[i as int].1, t[i as int].1, seq![','] + x3, seq![','] + y3);
        lemma_cancel(seq![','], x3, y3);
        lemma_entries_apart(s, t, i + 1, x, y);
    } else {
        assert(a =~= seq!['}'] + x);
        assert(b =~= seq!['}'] + y);
        lemma_cancel(seq!['}'], x, y);
    }
}

/// Law: different calls have different texts, so that each has a count of its own.
pub proof fn different_calls_have_different_texts(
    name: Seq<char>,
    args: JsonV,
    other: Seq<char>,
    others: JsonV,
)
    requires
        json::sound_numbers(args),
        json::sound_numbers(others),
        !name.contains('\0'),
        !other.contains('\0'),
    ensures
        call_text(name, args) == call_text(other, others) <==> name == other && args == others,
{
    if call_text(name, args) == call_text(other, others) {
        let a = call_text(name, args);
        let b = call_text(other, others);
        assert(a[name.len() as int] == '\0');
        assert(b[other.len() as int] == '\0');
        if name.len() < other.len() {
            assert(b[name.len() as int] == other[name.len() as int]);
            assert(other.contains('\0'));
        }
        if other.len() < name.len() {
            assert(a[other.len() as int] == name[other.len() as int]);
            assert(name.contains('\0'));
        }
        assert(a.take(name.len() as int) =~= name);
        assert(b.take(other.len() as int) =~= other);
        lemma_cancel(name.push('\0'), canon(args), canon(others));
        let none = Seq::<char>::empty();
        assert(canon(args) + none =~= canon(args));
        assert(canon(others) + none =~= canon(others));
        lemma_canon_apart(args, others, none, none);
    }
}

fn text_of_call(name: &str, args: &Json) -> (r: String)
    ensures
        r@ == call_text(name@, args.view()),
{
    let mut out = name.to_owned();
    out.push('\0');
    canonicalize(args, &mut out);
    out
}

/// Stable 64-bit signature of a `(tool, arguments)` pair.
pub fn signature(name: &str, args: &Json) -> (r: u64)
    ensures
        r == signature_of(name@, args.view()),
{
    hash::fnv1a(text_of_call(name, args).as_str().as_bytes())
}

/// Two argument objects made of the same members in another order have the same
/// signature.
pub proof fn signature_ignores_member_order(
    name: Seq<char>,
    e: Seq<(Seq<char>, JsonV)>,
    k1: Seq<char>,
    v1: JsonV,
    k2: Seq<char>,
    v2: JsonV,
)
    requires
        json::keys_sorted(e),
        k1 != k2,
    ensures
        signature_of(
            name,
            JsonV::Object(json::bind(json::bind(e, k1, v1), k2, v2)),
        ) == signature_of(
            name,
            JsonV::Object(json::bind(json::bind(e, k2, v2), k1, v1)),
        ),
{
    json::bind_commutes(e, k1, v1, k2, v2);
}

/// Tally of identical tool calls within one turn. A call is known by its whole text, so
/// that no other call is ever counted with it.
#[derive(Debug)]
pub struct RepeatGuard {
    /// The texts of the calls, each with its count at that time.
    seen: Vec<(String, usize)>,
}

/// `n + 1`, or the largest number.
pub open spec fn bump(n: nat) -> nat {
    if n < usize::MAX {
        n + 1
    } else {
        n
    }
}

/// The count of a call in a tally.
pub open spec fn tallied(tally: Map<Seq<char>, usize>, call: Seq<char>) -> nat {
    if tally.contains_key(call) {
        tally[call] as nat
    } else {
        0
    }
}

/// The last count of each text.
spec fn last_counts(seen: Seq<(String, usize)>) -> Map<Seq<char>, usize>
    decreases seen.len(),
{
    if seen.len() == 0 {
        Map::empty()
    } else {
        last_counts(seen.drop_last()).insert(seen.last().0@, seen.last().1)
    }
}

impl RepeatGuard {
    /// The count of each call seen so far.
    pub closed spec fn view(self) -> Map<Seq<char>, usize> {
        last_counts(self.seen@)
    }

    /// How often a call has been seen.
    pub open spec fn count(self, call: Seq<char>) -> nat {
        tallied(self.view(), call)
    }

    fn count_of(&self, call: &str) -> (r: usize)
        ensures
            r == self.count(call@),
    {
        let mut i: usize = self.seen.len();
        assert(self.seen@.take(i as int) =~= self.seen@);
        while i > 0
            invariant
                i <= self.seen@.len(),
                tallied(last_counts(self.seen@.take(i as int)), call@) == self.count(call@),
            decreases i,
        {
            assert(self.seen@.take(i as int).drop_last() =~= self.seen@.take(i - 1));
            i -= 1;
            if text::eq(self.seen[i].0.as_str(), call) {
                return self.seen[i].1;
            }
        }
        0
    }

    /// Records one call and returns how often it has now been seen.
    pub fn record(&mut self, name: &str, args: &Json) -> (r: usize)
        ensures
            r == bump(old(self).count(call_text(name@, args.view()))),
            final(self).view() == old(self).view().insert(call_text(name@, args.view()), r),
    {
        let call = text_of_call(name, args);
        let c: usize = self.count_of(call.as_str()).saturating_add(1);
        let ghost before = self.seen@;
        self.seen.push((call, c));
        assert(self.seen@.drop_last() =~= before);
        c
    }
}

impl Default for RepeatGuard {
    fn default() -> (r: RepeatGuard)
        ensures
            r.view() == Map::<Seq<char>, usize>::empty(),
    {
        RepeatGuard { seen: Vec::new() }
    }
}

/// The tally of a turn's calls, given by their texts.
pub open spec fn tally_of(calls: Seq<Seq<char>>) -> Map<Seq<char>, usize>
    decreases calls.len(),
{
    if calls.len() == 0 {
        Map::empty()
    } else {
        let before = tally_of(calls.drop_last());
        before.insert(calls.last(), bump(tallied(before, calls.last())) as usize)
    }
}

/// How many of a turn's calls of that text are run.
pub open spec fn runs_of(calls: Seq<Seq<char>>, call: Seq<char>) -> nat
    decreases calls.len(),
{
    if calls.len() == 0 {
        0
    } else {
        let count = bump(tallied(tally_of(calls.drop_last()), call));
        runs_of(calls.drop_last(), call) + if calls.last() == call && action_for(count)
            == RepeatAction::Allow {
            1nat
        } else {
            0nat
        }
    }
}

/// Whether the turn is broken off over the call of that text.
pub open spec fn broken_over(calls: Seq<Seq<char>>, call: Seq<char>) -> bool {
    action_for(tallied(tally_of(calls), call)) == RepeatAction::Break
}

/// How many of the calls have that text.
pub open spec fn occurrences(calls: Seq<Seq<char>>, call: Seq<char>) -> nat
    decreases calls.len(),
{
    if calls.len() == 0 {
        0
    } else {
        occurrences(calls.drop_last(), call) + if calls.last() == call {
            1nat
        } else {
            0nat
        }
    }
}

proof fn lemma_tally(calls: Seq<Seq<char>>, call: Seq<char>)
    ensures
        tallied(tally_of(calls), call) == (if occurrences(calls, call) <= usize::MAX {
            occurrences(calls, call)
        } else {
            usize::MAX as nat
        }),
    decreases calls.len(),
{
    if calls.len() > 0 {
        lemma_tally(calls.drop_last(), call);
        lemma_tally(calls.drop_last(), calls.last());
    }
}

/// Law: however the calls of a turn are interleaved with others, the same call is run
/// as often as it is asked for, but never as often as the soft limit; and the turn is
/// broken off once it is asked for as often as the hard limit.
pub proof fn repeated_calls_are_not_run(calls: Seq<Seq<char>>, call: Seq<char>)
    ensures
        runs_of(calls, call) == (if occurrences(calls, call) < REPEAT_SOFT_LIMIT {
            occurrences(calls, call)
        } else {
            (REPEAT_SOFT_LIMIT - 1) as nat
        }),
        broken_over(calls, call) <==> occurrences(calls, call) >= REPEAT_HARD_LIMIT,
    decreases calls.len(),
{
    lemma_tally(calls, call);
    if calls.len() > 0 {
        repeated_calls_are_not_run(calls.drop_last(), call);
        lemma_tally(calls.drop_last(), call);
    }
}

pub open spec fn blocked_text(desc: Seq<char>, count: nat) -> Seq<char> {
    BLOCKED_HEAD@ + chars::dec(count) + BLOCKED_MID@ + desc + BLOCKED_TAIL@
}

/// The corrective result fed back for a blocked call.
pub fn blocked_result_text(desc: &str, count: usize) -> (r: String)
    ensures
        r@ == blocked_text(desc@, count as nat),
{
    let mut out = BLOCKED_HEAD.to_owned();
    text::push_usize(&mut out, count);
    out.push_str(BLOCKED_MID);
    out.push_str(desc);
    out.push_str(BLOCKED_TAIL);
    out
}

pub open spec fn repeat_log_text(desc: Seq<char>, count: nat, action: RepeatAction) -> Seq<char> {
    match action {
        RepeatAction::Break => "loop-guard: repeated call ×"@ + chars::dec(count)
            + " — breaking turn (re-plan failed): "@ + chars::on_one_line(desc),
        _ => "loop-guard: blocked repeated call ×"@ + chars::dec(count)
            + " — asking the model to re-plan: "@ + chars::on_one_line(desc),
    }
}

/// The log of a blocked or broken repeated call, on one line.
pub fn repeat_log_line(desc: &str, count: usize, action: RepeatAction) -> (r: String)
    ensures
        r@ == repeat_log_text(desc@, count as nat, action),
        !r@.contains('\n'),
{
    proof {
        reveal_strlit("loop-guard: repeated call ×");
        reveal_strlit(" — breaking turn (re-plan failed): ");
        reveal_strlit("loop-guard: blocked repeated call ×");
        reveal_strlit(" — asking the model to re-plan: ");
        lemma_clean_dec(count as nat);
        assert(!chars::on_one_line(desc@).contains('\n'));
        assert(!chars::dec(count as nat).contains('\n'));
    }
    let line = text::on_one_line(desc);
    match action {
        RepeatAction::Break => {
            let mut out = "loop-guard: repeated call ×".to_owned();
            text::push_usize(&mut out, count);
            out.push_str(" — breaking turn (re-plan failed): ");
            out.push_str(line.as_str());
            out
        },
        _ => {
            let mut out = "loop-guard: blocked repeated call ×".to_owned();
            text::push_usize(&mut out, count);
            out.push_str(" — asking the model to re-plan: ");
            out.push_str(line.as_str());
            out
        },
    }
}

/// Why an agentic turn ended.
#[derive(Debug, Clone, PartialEq, Eq)]
pub enum ExitReason {
    /// The model produced a final answer on its own.
    Completed,
    /// The forced summary fired after this many rounds.
    ForcedSummarize { iterations: usize },
    /// The same call was repeated past the hard limit.
    LoopDetected { call: String, count: usize },
    /// The budget ran out without an answer.
    BudgetExhausted { iterations: usize },
    /// The operator interrupted the turn.
    Interrupted,
    /// Too many consecutive single-call rounds.
    SerialChainYield { depth: usize },
    /// Too many tool calls in one turn.
    CallBudgetExceeded { count: usize },
}

/// What an exit reason says.
pub enum Stop {
    Completed,
    ForcedSummarize { iterations: nat },
    LoopDetected { call: Seq<char>, count: nat },
    BudgetExhausted { iterations: nat },
    Interrupted,
    SerialChainYield { depth: nat },
    CallBudgetExceeded { count: nat },
}

impl Stop {
    pub open spec fn tag(self) -> Seq<char> {
        match self {
            Stop::Completed => "completed"@,
            Stop::ForcedSummarize { .. } => "forced-summarize"@,
            Stop::LoopDetected { .. } => "loop-detected"@,
            Stop::BudgetExhausted { .. } => "budget-exhausted"@,
            Stop::Interrupted => "interrupted"@,
            Stop::SerialChainYield { .. } => "serial-chain-yield"@,
            Stop::CallBudgetExceeded { .. } => "call-budget-exceeded"@,
        }
    }

    pub open spec fn detail(self) -> Seq<char> {
        match self {
            Stop::Completed => "completed normally"@,
            Stop::ForcedSummarize { iterations } => "forced a summarize-exit after "@ + chars::dec(
                iterations,
            ) + " tool-call round(s) to avoid losing the work"@,
            Stop::LoopDetected { call, count } => "detected a loop — the call `"@
                + chars::on_one_line(call) + "` was repeated "@ + chars::dec(count) + " times without progress"@,
            Stop::BudgetExhausted { iterations } => "exhausted the "@ + chars::dec(iterations)
                + "-round tool-call budget without a final answer"@,
            Stop::Interrupted => "was interrupted by the operator (Ctrl-C)"@,
            Stop::SerialChainYield { depth } => "yielded after "@ + chars::dec(depth)
                + " consecutive single-call rounds (a deep serial chain) to re-plan toward batching independent calls"@,
            Stop::CallBudgetExceeded { count } => "yielded after "@ + chars::dec(count)
                + " tool calls this turn (per-turn hard budget) to spread load across the rate-limit window and resume with fresh context"@,
        }
    }

    /// The round count that the banner carries.
    pub open spec fn iterations(self) -> nat {
        match self {
            Stop::ForcedSummarize { iterations } => iterations,
            Stop::BudgetExhausted { iterations } => iterations,
            _ => 0,
        }
    }

    /// The count that the banner carries.
    pub open spec fn count(self) -> nat {
        match self {
            Stop::LoopDetected { count, .. } => count,
            Stop::SerialChainYield { depth } => depth,
            Stop::CallBudgetExceeded { count } => count,
            _ => 0,
        }
    }

    /// The machine-readable part of the banner.
    pub open spec fn marker(self) -> Seq<char> {
        "[aish-stop tag="@ + self.tag() + " iterations="@ + chars::dec(self.iterations())
            + " count="@ + chars::dec(self.count()) + "] "@
    }

    pub open spec fn banner(self) -> Seq<char> {
        self.marker() + self.detail()
    }

    /// What survives the banner: everything but the text of the looping call.
    pub open spec fn carried(self) -> Stop {
        match self {
            Stop::LoopDetected { count, .. } => Stop::LoopDetected { call: seq![], count },
            _ => self,
        }
    }

    /// The counters fit in a machine word.
    pub open spec fn fits(self) -> bool {
        self.iterations() <= usize::MAX && self.count() <= usize::MAX
    }
}

/// What the fields of a banner say, where they are there: tag, iterations, count.
/// A later field overrides an earlier one, and a malformed number counts as zero.
pub open spec fn banner_fields(ws: Seq<Seq<char>>) -> (
    Option<Seq<char>>,
    Option<nat>,
    Option<nat>,
)
    decreases ws.len(),
{
    if ws.len() == 0 {
        (None, None, None)
    } else {
        let p = banner_fields(ws.drop_last());
        let w = ws.last();
        if chars::starts_with(w, "tag="@) {
            (Some(w.skip(4)), p.1, p.2)
        } else if chars::starts_with(w, "iterations="@) {
            (p.0, Some(number_or_zero(w.skip(11))), p.2)
        } else if chars::starts_with(w, "count="@) {
            (p.0, p.1, Some(number_or_zero(w.skip(6))))
        } else {
            p
        }
    }
}

pub open spec fn number_or_zero(s: Seq<char>) -> nat {
    match chars::parse_nat(s, usize::MAX as nat) {
        Some(n) => n,
        None => 0,
    }
}

/// The stop of that tag with those counters.
pub open spec fn stop_of(tag: Seq<char>, iterations: nat, count: nat) -> Option<Stop> {
    if tag == "forced-summarize"@ {
        Some(Stop::ForcedSummarize { iterations })
    } else if tag == "budget-exhausted"@ {
        Some(Stop::BudgetExhausted { iterations })
    } else if tag == "interrupted"@ {
        Some(Stop::Interrupted)
    } else if tag == "serial-chain-yield"@ {
        Some(Stop::SerialChainYield { depth: count })
    } else if tag == "call-budget-exceeded"@ {
        Some(Stop::CallBudgetExceeded { count })
    } else if tag == "loop-detected"@ {
        Some(Stop::LoopDetected { call: seq![], count })
    } else {
        None
    }
}

/// What the first line of `text` says about the stop, if it is a banner with all
/// of its three fields.
pub open spec fn parsed_banner(text: Seq<char>) -> Option<Stop> {
    let ls = chars::lines(text);
    if ls.len() == 0 {
        None
    } else {
        let line = chars::trim(ls[0]);
        if chars::starts_with(line, "[aish-stop "@) {
            let rest = line.skip(11);
            let f = banner_fields(chars::words(rest.take(chars::find_char(rest, ']'))));
            match f {
                (Some(tag), Some(iterations), Some(count)) => stop_of(tag, iterations, count),
                _ => None,
            }
        } else {
            None
        }
    }
}

/// An abnormal answer: the banner, a blank line and the trimmed body.
pub open spec fn bannered(stop: Stop, body: Seq<char>) -> Seq<char> {
    if stop == Stop::Completed {
        body
    } else if chars::trim(body).len() == 0 {
        stop.banner()
    } else {
        stop.banner() + "\n\n"@ + chars::trim(body)
    }
}

fn number(v: &[char]) -> (r: usize)
    ensures
        r == number_or_zero(v@),
{
    match text::parse_usize(v) {
        Some(n) => n,
        None => 0,
    }
}

impl ExitReason {
    pub open spec fn view(self) -> Stop {
        match self {
            ExitReason::Completed => Stop::Completed,
            ExitReason::ForcedSummarize { iterations } => Stop::ForcedSummarize {
                iterations: iterations as nat,
            },
            ExitReason::LoopDetected { call, count } => Stop::LoopDetected {
                call: call@,
                count: count as nat,
            },
            ExitReason::BudgetExhausted { iterations } => Stop::BudgetExhausted {
                iterations: iterations as nat,
            },
            ExitReason::Interrupted => Stop::Interrupted,
            ExitReason::SerialChainYield { depth } => Stop::SerialChainYield { depth: depth as nat },
            ExitReason::CallBudgetExceeded { count } => Stop::CallBudgetExceeded {
                count: count as nat,
            },
        }
    }

    /// The short, stable tag.
    pub fn tag(&self) -> (r: &'static str)
        ensures
            r@ == self.view().tag(),
    {
        match self {
            ExitReason::Completed => "completed",
            ExitReason::ForcedSummarize { .. } => "forced-summarize",
            ExitReason::LoopDetected { .. } => "loop-detected",
            ExitReason::BudgetExhausted { .. } => "budget-exhausted",
            ExitReason::Interrupted => "interrupted",
            ExitReason::SerialChainYield { .. } => "serial-chain-yield",
            ExitReason::CallBudgetExceeded { .. } => "call-budget-exceeded",
        }
    }

    /// Whether the turn ended other than by completing.
    pub fn is_abnormal(&self) -> (r: bool)
        ensures
            r == (self.view() != Stop::Completed),
    {
        match self {
            ExitReason::Completed => false,
            _ => true,
        }
    }

    /// A sentence describing the stop.
    pub fn detail(&self) -> (r: String)
        ensures
            r@ == self.view().detail(),
    {
        match self {
            ExitReason::Completed => "completed normally".to_owned(),
            ExitReason::ForcedSummarize { iterations } => {
                let mut out = "forced a summarize-exit after ".to_owned();
                text::push_usize(&mut out, *iterations);
                out.push_str(" tool-call round(s) to avoid losing the work");
                out
            },
            ExitReason::LoopDetected { call, count } => {
                let mut out = "detected a loop — the call `".to_owned();
                out.push_str(text::on_one_line(call.as_str()).as_str());
                out.push_str("` was repeated ");
                text::push_usize(&mut out, *count);
                out.push_str(" times without progress");
                out
            },
            ExitReason::BudgetExhausted { iterations } => {
                let mut out = "exhausted the ".to_owned();
                text::push_usize(&mut out, *iterations);
                out.push_str("-round tool-call budget without a final answer");
                out
            },
            ExitReason::Interrupted => "was interrupted by the operator (Ctrl-C)".to_owned(),
            ExitReason::SerialChainYield { depth } => {
                let mut out = "yielded after ".to_owned();
                text::push_usize(&mut out, *depth);
                out.push_str(
                    " consecutive single-call rounds (a deep serial chain) to re-plan toward batching independent calls",
                );
                out
            },
            ExitReason::CallBudgetExceeded { count } => {
                let mut out = "yielded after ".to_owned();
                text::push_usize(&mut out, *count);
                out.push_str(
                    " tool calls this turn (per-turn hard budget) to spread load across the rate-limit window and resume with fresh context",
                );
                out
            },
        }
    }

    /// One log line for this stop.
    pub fn log_line(&self) -> (r: String)
        ensures
            r@ == "turn stopped ["@ + self.view().tag() + "]: "@ + self.view().detail(),
            !r@.contains('\n'),
    {
        proof {
            reveal_strlit("turn stopped [");
            reveal_strlit("]: ");
            lemma_clean_tag(self.view());
            lemma_one_line_detail(self.view());
            assert(!self.view().tag().contains('\n'));
        }
        let mut out = "turn stopped [".to_owned();
        out.push_str(self.tag());
        out.push_str("]: ");
        out.push_str(self.detail().as_str());
        out
    }

    /// The machine-readable banner line.
    pub fn banner(&self) -> (r: String)
        ensures
            r@ == self.view().banner(),
            !r@.contains('\n'),
    {
        proof {
            banners_are_one_line(self.view());
        }
        let iters: usize = match self {
            ExitReason::ForcedSummarize { iterations } => *iterations,
            ExitReason::BudgetExhausted { iterations } => *iterations,
            _ => 0,
        };
        let n: usize = match self {
            ExitReason::LoopDetected { count, .. } => *count,
            ExitReason::SerialChainYield { depth } => *depth,
            ExitReason::CallBudgetExceeded { count } => *count,
            _ => 0,
        };
        let mut out = "[aish-stop tag=".to_owned();
        out.push_str(self.tag());
        out.push_str(" iterations=");
        text::push_usize(&mut out, iters);
        out.push_str(" count=");
        text::push_usize(&mut out, n);
        out.push_str("] ");
        out.push_str(self.detail().as_str());
        out
    }

    /// Reads the banner on the first line of `text`; `None` for a normal answer, and
    /// for a banner with an unknown tag or without one of its fields.
    pub fn parse_banner(text: &str) -> (r: Option<ExitReason>)
        ensures
            match r {
                Some(e) => parsed_banner(text@) == Some(e.view()),
                None => parsed_banner(text@) is None,
            },
    {
        proof {
            reveal_strlit("[aish-stop ");
            reveal_strlit("tag=");
            reveal_strlit("iterations=");
            reveal_strlit("count=");
        }
        let all = text::chars_of(text);
        let ls = text::lines(&all);
        if ls.len() == 0 {
            return None;
        }
        assert(ls@[0]@ == chars::lines(text@)[0]);
        let line = text::trim(&ls[0]);
        if !text::starts_with(line, "[aish-stop ") {
            return None;
        }
        let rest = text::from(line, 11);
        let inner = text::upto(rest, text::find_char(rest, ']'));
        let ws = text::words(inner);
        let mut tag_field: Option<Vec<char>> = None;
        let mut iters_field: Option<usize> = None;
        let mut count_field: Option<usize> = None;
        let mut i: usize = 0;
        let ghost wv = text::views(ws@);
        assert(wv.take(0) =~= Seq::empty());
        while i < ws.len()
            invariant
                "tag="@.len() == 4,
                "iterations="@.len() == 11,
                "count="@.len() == 6,
                wv == text::views(ws@),
                i <= ws@.len(),
                banner_fields(wv.take(i as int)) == (
                    match tag_field {
                        Some(t) => Some(t@),
                        None => None,
                    },
                    match iters_field {
                        Some(n) => Some(n as nat),
                        None => None,
                    },
                    match count_field {
                        Some(n) => Some(n as nat),
                        None => None,
                    },
                ),
            decreases ws@.len() - i,
        {
            let w: &[char] = &ws[i];
            proof {
                assert(wv.take(i + 1).drop_last() =~= wv.take(i as int));
                assert(wv.take(i + 1).last() == w@);
            }
            if text::starts_with(w, "tag=") {
                tag_field = Some(text::to_vec(text::from(w, 4)));
            } else if text::starts_with(w, "iterations=") {
                iters_field = Some(number(text::from(w, 11)));
            } else if text::starts_with(w, "count=") {
                count_field = Some(number(text::from(w, 6)));
            }
            i += 1;
        }
        assert(wv.take(i as int) =~= wv);
        let (tag, iters, count) = match (tag_field, iters_field, count_field) {
            (Some(tag), Some(iters), Some(count)) => (tag, iters, count),
            _ => {
                return None;
            },
        };
        if text::is(&tag, "forced-summarize") {
            Some(ExitReason::ForcedSummarize { iterations: iters })
        } else if text::is(&tag, "budget-exhausted") {
            Some(ExitReason::BudgetExhausted { iterations: iters })
        } else if text::is(&tag, "interrupted") {
            Some(ExitReason::Interrupted)
        } else if text::is(&tag, "serial-chain-yield") {
            Some(ExitReason::SerialChainYield { depth: count })
        } else if text::is(&tag, "call-budget-exceeded") {
            Some(ExitReason::CallBudgetExceeded { count })
        } else if text::is(&tag, "loop-detected") {
            let call = String::new();
            assert(call@ =~= seq![]);
            Some(ExitReason::LoopDetected { call, count })
        } else {
            None
        }
    }
}

/// Prepends the reason's banner to a partial answer; a completed answer is
/// returned as it is.
pub fn with_banner(reason: &ExitReason, body: &str) -> (r: String)
    ensures
        r@ == bannered(reason.view(), body@),
{
    if !reason.is_abnormal() {
        return body.to_owned();
    }
    let all = text::chars_of(body);
    let trimmed = text::trim(&all);
    let mut out = reason.banner();
    if trimmed.len() > 0 {
        out.push_str("\n\n");
        text::push_chars(&mut out, trimmed);
    }
    out
}

proof fn lemma_clean_dec(n: nat)
    ensures
        chars::dec(n).len() > 0,
        forall|i: int|
            0 <= i < chars::dec(n).len() ==> !chars::is_ws(#[trigger] chars::dec(n)[i])
                && chars::dec(n)[i] != ']' && chars::dec(n)[i] != '\n',
{
    chars::lemma_dec_digits(n);
    assert forall|i: int| 0 <= i < chars::dec(n).len() implies !chars::is_ws(
        #[trigger] chars::dec(n)[i],
    ) && chars::dec(n)[i] != ']' && chars::dec(n)[i] != '\n' by {
        assert(chars::is_digit(chars::dec(n)[i]));
    }
}

proof fn lemma_clean_tag(stop: Stop)
    ensures
        stop.tag().len() > 0,
        forall|i: int|
            0 <= i < stop.tag().len() ==> !chars::is_ws(#[trigger] stop.tag()[i]) && stop.tag()[i]
                != ']' && stop.tag()[i] != '\n',
        stop != Stop::Completed ==> stop_of(stop.tag(), stop.iterations(), stop.count()) == Some(
            stop.carried(),
        ),
{
    reveal_strlit("completed");
    reveal_strlit("forced-summarize");
    reveal_strlit("loop-detected");
    reveal_strlit("budget-exhausted");
    reveal_strlit("interrupted");
    reveal_strlit("serial-chain-yield");
    reveal_strlit("call-budget-exceeded");
    assert("forced-summarize"@[0] != "budget-exhausted"@[0]);
    assert("forced-summarize"@.len() == 16 && "budget-exhausted"@.len() == 16);
    assert("interrupted"@.len() == 11 && "serial-chain-yield"@.len() == 18);
    assert("call-budget-exceeded"@.len() == 20 && "loop-detected"@.len() == 13);
    match stop {
        Stop::LoopDetected { call, count } => {
            assert(stop.carried() == Stop::LoopDetected { call: seq![], count });
        },
        Stop::ForcedSummarize { iterations } => {},
        Stop::BudgetExhausted { iterations } => {},
        Stop::Interrupted => {},
        Stop::SerialChainYield { depth } => {},
        Stop::CallBudgetExceeded { count } => {},
        Stop::Completed => {},
    }
}

proof fn lemma_one_line_detail(stop: Stop)
    ensures
        !stop.detail().contains('\n'),
{
    reveal_strlit("completed normally");
    reveal_strlit("forced a summarize-exit after ");
    reveal_strlit(" tool-call round(s) to avoid losing the work");
    reveal_strlit("detected a loop — the call `");
    reveal_strlit("` was repeated ");
    reveal_strlit(" times without progress");
    reveal_strlit("exhausted the ");
    reveal_strlit("-round tool-call budget without a final answer");
    reveal_strlit("was interrupted by the operator (Ctrl-C)");
    reveal_strlit("yielded after ");
    reveal_strlit(
        " consecutive single-call rounds (a deep serial chain) to re-plan toward batching independent calls",
    );
    reveal_strlit(
        " tool calls this turn (per-turn hard budget) to spread load across the rate-limit window and resume with fresh context",
    );
    match stop {
        Stop::LoopDetected { call, count } => {
            lemma_clean_dec(count);
            assert(!chars::on_one_line(call).contains('\n'));
            assert(!chars::dec(count).contains('\n'));
        },
        Stop::ForcedSummarize { iterations } => lemma_clean_dec(iterations),
        Stop::BudgetExhausted { iterations } => lemma_clean_dec(iterations),
        Stop::SerialChainYield { depth } => lemma_clean_dec(depth),
        Stop::CallBudgetExceeded { count } => lemma_clean_dec(count),
        _ => {},
    }
}

/// A banner stands on one line, whatever the call that looped.
pub proof fn banners_are_one_line(stop: Stop)
    ensures
        !stop.banner().contains('\n'),
{
    reveal_strlit("[aish-stop tag=");
    reveal_strlit(" iterations=");
    reveal_strlit(" count=");
    reveal_strlit("] ");
    lemma_clean_tag(stop);
    lemma_clean_dec(stop.iterations());
    lemma_clean_dec(stop.count());
    lemma_one_line_detail(stop);
    assert(!stop.tag().contains('\n'));
    assert(!chars::dec(stop.iterations()).contains('\n'));
    assert(!chars::dec(stop.count()).contains('\n'));
}

/// The text between the brackets of a banner.
spec fn banner_inner(stop: Stop) -> Seq<char> {
    "tag="@ + stop.tag() + " iterations="@ + chars::dec(stop.iterations()) + " count="@
        + chars::dec(stop.count())
}

proof fn lemma_inner_words(stop: Stop)
    ensures
        chars::words(banner_inner(stop)) == seq![
            "tag="@ + stop.tag(),
            "iterations="@ + chars::dec(stop.iterations()),
            "count="@ + chars::dec(stop.count()),
        ],
{
    reveal_strlit("tag=");
    reveal_strlit(" iterations=");
    reveal_strlit("iterations=");
    reveal_strlit(" count=");
    reveal_strlit("count=");
    lemma_clean_tag(stop);
    lemma_clean_dec(stop.iterations());
    lemma_clean_dec(stop.count());
    let w1 = "tag="@ + stop.tag();
    let w2 = "iterations="@ + chars::dec(stop.iterations());
    let w3 = "count="@ + chars::dec(stop.count());
    let sp = seq![' '];
    let none = Seq::<char>::empty();
    assert(" iterations="@ =~= sp + "iterations="@);
    assert(" count="@ =~= sp + "count="@);
    assert(banner_inner(stop) =~= w1 + (sp + (w2 + (sp + (w3 + none)))));
    assert forall|i: int| 0 <= i < w1.len() implies !chars::is_ws(#[trigger] w1[i]) by {
        if i >= 4 {
            assert(w1[i] == stop.tag()[i - 4]);
        }
    }
    assert forall|i: int| 0 <= i < w2.len() implies !chars::is_ws(#[trigger] w2[i]) by {
        if i >= 11 {
            assert(w2[i] == chars::dec(stop.iterations())[i - 11]);
        }
    }
    assert forall|i: int| 0 <= i < w3.len() implies !chars::is_ws(#[trigger] w3[i]) by {
        if i >= 6 {
            assert(w3[i] == chars::dec(stop.count())[i - 6]);
        }
    }
    chars::lemma_words_cons(w3, none);
    chars::lemma_words_empty();
    chars::lemma_words_space(' ', w3 + none);
    chars::lemma_words_cons(w2, sp + (w3 + none));
    chars::lemma_words_space(' ', w2 + (sp + (w3 + none)));
    chars::lemma_words_cons(w1, sp + (w2 + (sp + (w3 + none))));
    assert(chars::words(banner_inner(stop)) =~= seq![w1, w2, w3]);
}

proof fn lemma_inner_fields(stop: Stop)
    requires
        stop.fits(),
    ensures
        banner_fields(chars::words(banner_inner(stop))) == (
            Some(stop.tag()),
            Some(stop.iterations()),
            Some(stop.count()),
        ),
{
    lemma_inner_words(stop);
    reveal_strlit("tag=");
    reveal_strlit("iterations=");
    reveal_strlit("count=");
    let w1 = "tag="@ + stop.tag();
    let w2 = "iterations="@ + chars::dec(stop.iterations());
    let w3 = "count="@ + chars::dec(stop.count());
    let s3 = seq![w1, w2, w3];
    let s2 = seq![w1, w2];
    let s1 = seq![w1];
    assert(s3.drop_last() =~= s2);
    assert(s2.drop_last() =~= s1);
    assert(s1.drop_last() =~= Seq::<Seq<char>>::empty());
    assert(w1.subrange(0, 4) =~= "tag="@);
    assert(w1.skip(4) =~= stop.tag());
    assert(w2.subrange(0, 4)[0] != "tag="@[0]);
    assert(w2.subrange(0, 11) =~= "iterations="@);
    assert(w2.skip(11) =~= chars::dec(stop.iterations()));
    assert(w3.subrange(0, 4)[0] != "tag="@[0]);
    if chars::starts_with(w3, "iterations="@) {
        assert(w3.subrange(0, 11)[0] == "iterations="@[0]);
    }
    assert(w3.subrange(0, 6) =~= "count="@);
    assert(w3.skip(6) =~= chars::dec(stop.count()));
    chars::lemma_parse_dec(stop.iterations(), usize::MAX as nat);
    chars::lemma_parse_dec(stop.count(), usize::MAX as nat);
    assert(chars::starts_with(w1, "tag="@));
    assert(!chars::starts_with(w2, "tag="@));
    assert(chars::starts_with(w2, "iterations="@));
    assert(!chars::starts_with(w3, "tag="@));
    assert(chars::starts_with(w3, "count="@));
    let s0 = Seq::<Seq<char>>::empty();
    assert(banner_fields(s0) == (None::<Seq<char>>, None::<nat>, None::<nat>));
    assert(s1.last() == w1 && s2.last() == w2 && s3.last() == w3);
    assert(banner_fields(s1) == (Some(stop.tag()), None::<nat>, None::<nat>));
    assert(banner_fields(s2) == (Some(stop.tag()), Some(stop.iterations()), None::<nat>));
}

/// A text that begins with a banner's marker is read back as that stop, whatever
/// follows.
pub proof fn marker_is_read_back(stop: Stop, tail: Seq<char>)
    requires
        stop != Stop::Completed,
        stop.fits(),
    ensures
        parsed_banner(stop.marker() + tail) == Some(stop.carried()),
{
    reveal_strlit("[aish-stop tag=");
    reveal_strlit("[aish-stop ");
    reveal_strlit("tag=");
    reveal_strlit(" iterations=");
    reveal_strlit(" count=");
    reveal_strlit("] ");
    lemma_clean_tag(stop);
    lemma_clean_dec(stop.iterations());
    lemma_clean_dec(stop.count());
    let inner = banner_inner(stop);
    let head = "[aish-stop "@ + inner + seq![']'];
    let s = stop.marker() + tail;
    assert("[aish-stop tag="@ =~= "[aish-stop "@ + "tag="@);
    assert(stop.marker() =~= head + seq![' ']);
    let h = head.len() as int;
    // Neither a line feed nor a closing bracket stands inside.
    let a = "tag="@.len() as int;
    let b = a + stop.tag().len();
    let c = b + " iterations="@.len();
    let d = c + chars::dec(stop.iterations()).len();
    let e = d + " count="@.len();
    assert forall|i: int| 0 <= i < inner.len() implies #[trigger] inner[i] != ']' && inner[i]
        != '\n' by {
        if i < a {
            assert(inner[i] == "tag="@[i]);
        } else if i < b {
            assert(inner[i] == stop.tag()[i - a]);
        } else if i < c {
            assert(inner[i] == " iterations="@[i - b]);
        } else if i < d {
            assert(inner[i] == chars::dec(stop.iterations())[i - c]);
        } else if i < e {
            assert(inner[i] == " count="@[i - d]);
        } else {
            assert(inner[i] == chars::dec(stop.count())[i - e]);
        }
    }
    assert forall|i: int| 0 <= i < h implies s[i] == #[trigger] head[i] by {}
    assert forall|i: int| 0 <= i < h implies #[trigger] head[i] != '\n' by {
        if 11 <= i < h - 1 {
            assert(head[i] == inner[i - 11]);
        }
    }
    // The first line keeps the whole marker.
    chars::lemma_find_props(s, chars::is_char('\n'));
    let k = chars::find_char(s, '\n');
    if k < h {
        assert(s[k] == head[k]);
    }
    let l = chars::lines(s)[0];
    assert(chars::lines(s).len() > 0);
    assert(l.len() >= h && forall|i: int| 0 <= i < h ==> l[i] == #[trigger] head[i]) by {
        if k < s.len() {
            let t = s.take(k);
            assert(l == chars::chomp_cr(t));
            if t.len() == h {
                assert(t.last() == head[h - 1]);
            }
        } else {
            assert(l == s);
        }
    }
    // Trimming the line keeps the marker too.
    chars::lemma_trim_start(l, 0);
    assert(l[0] == head[0]);
    assert(l.skip(0) =~= l);
    chars::lemma_trim_end_props(l);
    let line = chars::trim(l);
    assert(line == chars::trim_end(l));
    assert(line.len() >= h) by {
        if line.len() < h {
            assert(l[h - 1] == head[h - 1]);
            assert(chars::is_ws(l[h - 1]));
        }
    }
    assert forall|i: int| 0 <= i < h implies line[i] == #[trigger] head[i] by {
        assert(line[i] == l[i]);
    }
    assert(line.subrange(0, 11) =~= "[aish-stop "@) by {
        assert forall|i: int| 0 <= i < 11 implies line[i] == "[aish-stop "@[i] by {
            assert(line[i] == head[i]);
        }
    }
    let rest = line.skip(11);
    assert forall|i: int| 0 <= i < inner.len() implies #[trigger] rest[i] == inner[i] by {
        assert(line[i + 11] == head[i + 11]);
    }
    assert(rest[inner.len() as int] == ']') by {
        assert(line[h - 1] == head[h - 1]);
    }
    assert forall|j: int| 0 <= j < inner.len() implies !chars::is_char(']')(#[trigger] rest[j]) by {
        assert(rest[j] == inner[j]);
    }
    chars::lemma_find(rest, chars::is_char(']'), inner.len() as int);
    assert(rest.take(inner.len() as int) =~= inner);
    lemma_inner_fields(stop);
}

/// Every abnormal stop survives its banner: reading back an answer that carries
/// it gives the stop, with its counters, whatever the body.
pub proof fn banner_round_trips(stop: Stop, body: Seq<char>)
    requires
        stop != Stop::Completed,
        stop.fits(),
    ensures
        parsed_banner(stop.banner()) == Some(stop.carried()),
        parsed_banner(bannered(stop, body)) == Some(stop.carried()),
{
    marker_is_read_back(stop, stop.detail());
    let tail = stop.detail() + "\n\n"@ + chars::trim(body);
    marker_is_read_back(stop, tail);
    assert(stop.banner() + "\n\n"@ + chars::trim(body) =~= stop.marker() + tail);
}

/// What a coordinator does after a round ended.
#[derive(Debug, Clone, Copy, PartialEq, Eq, Structural)]
pub enum Disposition {
    /// Nothing to do.
    NoAction,
    /// Continue the work from where it stopped.
    Resume,
    /// Continue, but steer away from the loop.
    Nudge,
    /// Stop and surface the failure to a human.
    FlagOperator,
}

impl Disposition {
    /// A present-tense verb for status lines.
    pub fn verb(self) -> (r: &'static str)
        ensures
            r@ == (match self {
                Disposition::NoAction => "continuing"@,
                Disposition::Resume => "auto-resuming"@,
                Disposition::Nudge => "nudging"@,
                Disposition::FlagOperator => "flagging for operator"@,
            }),
    {
        match self {
            Disposition::NoAction => "continuing",
            Disposition::Resume => "auto-resuming",
            Disposition::Nudge => "nudging",
            Disposition::FlagOperator => "flagging for operator",
        }
    }
}

/// How a stop is handled once `spent` of `max` automatic recoveries are used.
pub open spec fn disposition_of(stop: Stop, spent: nat, max: nat) -> Disposition {
    match stop {
        Stop::Completed => Disposition::NoAction,
        Stop::Interrupted => Disposition::NoAction,
        _ => if spent >= max {
            Disposition::FlagOperator
        } else if stop is LoopDetected {
            Disposition::Nudge
        } else {
            Disposition::Resume
        },
    }
}

/// Decides how to handle a worker that ended with `reason`.
pub fn classify_disposition(reason: &ExitReason, auto_recoveries: usize, max_auto: usize) -> (r:
    Disposition)
    ensures
        r == disposition_of(reason.view(), auto_recoveries as nat, max_auto as nat),
{
    match reason {
        ExitReason::Completed | ExitReason::Interrupted => Disposition::NoAction,
        ExitReason::LoopDetected { .. } => if auto_recoveries >= max_auto {
            Disposition::FlagOperator
        } else {
            Disposition::Nudge
        },
        _ => if auto_recoveries >= max_auto {
            Disposition::FlagOperator
        } else {
            Disposition::Resume
        },
    }
}

pub open spec fn directive_text(disp: Disposition, stop: Stop) -> Option<Seq<char>> {
    match disp {
        Disposition::Resume => Some(
            "[auto-resume] Your previous turn stopped before finishing ("@ + stop.detail()
                + RESUME_TAIL@,
        ),
        Disposition::Nudge => Some(
            "[nudge] Your previous turn was stopped by the loop guard: "@ + (match stop {
                Stop::LoopDetected { call, .. } => if call.len() > 0 {
                    "you kept repeating the same action ("@ + call + ")"@
                } else {
                    "you were repeating the same action without making progress"@
                },
                _ => "you were repeating the same action without making progress"@,
            }) + NUDGE_TAIL@,
        ),
        _ => None,
    }
}

/// The directive fed into the next round; only recoveries have one.
pub fn recovery_directive(disp: Disposition, reason: &ExitReason) -> (r: Option<String>)
    ensures
        match r {
            Some(d) => directive_text(disp, reason.view()) == Some(d@),
            None => directive_text(disp, reason.view()) is None,
        },
        r is Some <==> (disp == Disposition::Resume || disp == Disposition::Nudge),
{
    match disp {
        Disposition::Resume => {
            let mut out =
                "[auto-resume] Your previous turn stopped before finishing (".to_owned();
            out.push_str(reason.detail().as_str());
            out.push_str(RESUME_TAIL);
            Some(out)
        },
        Disposition::Nudge => {
            let mut what =
                "you were repeating the same action without making progress".to_owned();
            if let ExitReason::LoopDetected { call, .. } = reason {
                if !call.as_str().is_empty() {
                    what = "you kept repeating the same action (".to_owned();
                    what.push_str(call.as_str());
                    what.push_str(")");
                }
            }
            let mut out =
                "[nudge] Your previous turn was stopped by the loop guard: ".to_owned();
            out.push_str(what.as_str());
            out.push_str(NUDGE_TAIL);
            Some(out)
        },
        Disposition::NoAction | Disposition::FlagOperator => None,
    }
}

/// Once the recoveries are spent, every stop but an interrupt is flagged, and a
/// flagged stop gets no directive: recovery never runs forever.
pub proof fn recoveries_are_bounded(stop: Stop, spent: nat, max: nat)
    requires
        spent >= max,
        stop != Stop::Completed,
        stop != Stop::Interrupted,
    ensures
        disposition_of(stop, spent, max) == Disposition::FlagOperator,
        directive_text(disposition_of(stop, spent, max), stop) is None,
{
}

/// The evaluated outcome of one abnormal round.
#[derive(Debug, Clone, PartialEq, Eq)]
pub struct RoundExit {
    /// Why the round stopped.
    pub reason: ExitReason,
    /// What to do about it.
    pub disposition: Disposition,
    /// Recoveries spent before this round.
    pub recovery_count: usize,
}

impl RoundExit {
    /// Reads the banner of a finished round's answer and classifies it; `None` for
    /// a normal answer.
    pub fn evaluate(answer: &str, auto_recoveries: usize, max_auto: usize) -> (r: Option<RoundExit>)
        ensures
            match r {
                Some(e) => parsed_banner(answer@) == Some(e.reason.view()) && e.disposition
                    == disposition_of(e.reason.view(), auto_recoveries as nat, max_auto as nat)
                    && e.recovery_count == auto_recoveries,
                None => parsed_banner(answer@) is None,
            },
    {
        match ExitReason::parse_banner(answer) {
            Some(reason) => {
                let disposition = classify_disposition(&reason, auto_recoveries, max_auto);
                Some(RoundExit { reason, disposition, recovery_count: auto_recoveries })
            },
            None => None,
        }
    }

    /// The directive for the next round.
    pub fn directive(&self) -> (r: Option<String>)
        ensures
            match r {
                Some(d) => directive_text(self.disposition, self.reason.view()) == Some(d@),
                None => directive_text(self.disposition, self.reason.view()) is None,
            },
    {
        recovery_directive(self.disposition, &self.reason)
    }
}

/// An abnormal answer is evaluated to the stop that it was tagged with.
pub proof fn tagged_answers_are_evaluated(stop: Stop, body: Seq<char>, spent: nat, max: nat)
    requires
        stop != Stop::Completed,
        stop.fits(),
    ensures
        parsed_banner(bannered(stop, body)) is Some,
        disposition_of(parsed_banner(bannered(stop, body))->0, spent, max) == disposition_of(
            stop,
            spent,
            max,
        ),
{
    banner_round_trips(stop, body);
}

/// The side-effect-free reads whose independent calls belong in one round.
pub open spec fn batchable(name: Seq<char>) -> bool {
    ||| name == "read_file"@
    ||| name == "grep_files"@
    ||| name == "list_dir"@
    ||| name == "glob_expand"@
    ||| name == "stat_file"@
    ||| name == "diff_files"@
}

/// Whether a tool is a side-effect-free read.
pub fn is_batchable_read(name: &str) -> (r: bool)
    ensures
        r == batchable(name@),
{
    text::eq(name, "read_file") || text::eq(name, "grep_files") || text::eq(name, "list_dir")
        || text::eq(name, "glob_expand") || text::eq(name, "stat_file") || text::eq(
        name,
        "diff_files",
    )
}

pub open spec fn batch_nudge_text() -> Seq<char> {
    BATCH_TEXT@
}

/// The suffix that nudges the model to batch independent reads.
pub fn batch_nudge_suffix() -> (r: String)
    ensures
        r@ == batch_nudge_text(),
{
    BATCH_TEXT.to_owned()
}

/// Tracks consecutive rounds of one lone read each.
#[derive(Debug)]
pub struct BatchGuard {
    streak: usize,
    nudged: bool,
}

/// A round of exactly one batchable read.
pub open spec fn lone_read(names: Seq<&str>) -> bool {
    names.len() == 1 && batchable(names[0]@)
}

impl BatchGuard {
    pub closed spec fn spec_streak(self) -> nat {
        self.streak as nat
    }

    pub closed spec fn spec_nudged(self) -> bool {
        self.nudged
    }

    /// Records one round; returns the nudge when the streak first reaches the
    /// threshold. Any other round ends the streak and re-arms the nudge.
    pub fn record(&mut self, tool_names: &[&str]) -> (r: Option<String>)
        ensures
            final(self).spec_streak() == (if lone_read(tool_names@) {
                bump(old(self).spec_streak())
            } else {
                0
            }),
            r is Some <==> lone_read(tool_names@) && final(self).spec_streak()
                >= BATCH_NUDGE_STREAK && !old(self).spec_nudged(),
            r matches Some(s) ==> s@ == batch_nudge_text(),
            final(self).spec_nudged() == (lone_read(tool_names@) && (old(self).spec_nudged() || r is Some)),
    {
        let lone = tool_names.len() == 1 && is_batchable_read(tool_names[0]);
        if !lone {
            self.streak = 0;
            self.nudged = false;
            return None;
        }
        self.streak = self.streak.saturating_add(1);
        if self.streak >= BATCH_NUDGE_STREAK && !self.nudged {
            self.nudged = true;
            return Some(batch_nudge_suffix());
        }
        None
    }
}

impl Default for BatchGuard {
    fn default() -> (r: BatchGuard)
        ensures
            r.spec_streak() == 0,
            !r.spec_nudged(),
    {
        BatchGuard { streak: 0, nudged: false }
    }
}

/// Tracks consecutive rounds of exactly one tool call each.
#[derive(Debug)]
pub struct SerialChainGuard {
    depth: usize,
    threshold: Option<usize>,
}

impl SerialChainGuard {
    pub closed spec fn spec_depth(self) -> nat {
        self.depth as nat
    }

    pub closed spec fn spec_threshold(self) -> nat {
        match self.threshold {
            Some(n) => n as nat,
            None => SERIAL_CHAIN_YIELD_DEPTH as nat,
        }
    }

    /// A fresh guard with its own threshold.
    pub fn with_threshold(threshold: usize) -> (r: Self)
        ensures
            r.spec_depth() == 0,
            r.spec_threshold() == threshold,
    {
        SerialChainGuard { depth: 0, threshold: Some(threshold) }
    }

    fn threshold(&self) -> (r: usize)
        ensures
            r == self.spec_threshold(),
    {
        match self.threshold {
            Some(n) => n,
            None => SERIAL_CHAIN_YIELD_DEPTH,
        }
    }

    /// Records one round. One call extends the chain, anything else ends it; the
    /// depth is returned once it exceeds the threshold.
    pub fn record(&mut self, calls_this_round: usize) -> (r: Option<usize>)
        ensures
            final(self).spec_threshold() == old(self).spec_threshold(),
            final(self).spec_depth() == (if calls_this_round == 1 {
                bump(old(self).spec_depth())
            } else {
                0
            }),
            r == (if calls_this_round == 1 && final(self).spec_depth() > old(self).spec_threshold() {
                Some(final(self).spec_depth() as usize)
            } else {
                None
            }),
    {
        if calls_this_round == 1 {
            self.depth = self.depth.saturating_add(1);
            if self.depth > self.threshold() {
                return Some(self.depth);
            }
        } else {
            self.depth = 0;
        }
        None
    }
}

impl Default for SerialChainGuard {
    fn default() -> (r: SerialChainGuard)
        ensures
            r.spec_depth() == 0,
            r.spec_threshold() == SERIAL_CHAIN_YIELD_DEPTH,
    {
        SerialChainGuard { depth: 0, threshold: None }
    }
}

/// What to do after a round, by the number of tool calls so far.
#[derive(Debug, Clone, Copy, PartialEq, Eq, Structural)]
pub enum CallBudgetAction {
    /// Carry on.
    Continue,
    /// Log an advisory and carry on.
    SoftWarn { count: usize },
    /// Finish the round and yield.
    HardYield { count: usize },
}

/// Counts the tool calls of one turn.
#[derive(Debug)]
pub struct CallBudgetGuard {
    count: usize,
    soft_fired: bool,
    soft: usize,
    hard: usize,
}

impl CallBudgetGuard {
    pub closed spec fn spec_count(self) -> nat {
        self.count as nat
    }

    /// Whether the advisory has been given.
    pub closed spec fn spec_warned(self) -> bool {
        self.soft_fired
    }

    pub closed spec fn spec_soft(self) -> nat {
        self.soft as nat
    }

    pub closed spec fn spec_hard(self) -> nat {
        self.hard as nat
    }

    /// A fresh guard with its own limits.
    pub fn with_budget(soft: usize, hard: usize) -> (r: Self)
        ensures
            r.spec_count() == 0,
            !r.spec_warned(),
            r.spec_soft() == soft,
            r.spec_hard() == hard,
    {
        CallBudgetGuard { count: 0, soft_fired: false, soft, hard }
    }

    /// Records a round of `calls_this_round` calls. The hard limit comes first;
    /// the advisory is given at most once.
    pub fn record(&mut self, calls_this_round: usize) -> (r: CallBudgetAction)
        ensures
            final(self).spec_soft() == old(self).spec_soft(),
            final(self).spec_hard() == old(self).spec_hard(),
            final(self).spec_count() == (if old(self).spec_count() + calls_this_round > usize::MAX {
                usize::MAX as nat
            } else {
                old(self).spec_count() + calls_this_round as nat
            }),
            r == (if final(self).spec_count() > old(self).spec_hard() {
                CallBudgetAction::HardYield { count: final(self).spec_count() as usize }
            } else if final(self).spec_count() > old(self).spec_soft() && !old(self).spec_warned() {
                CallBudgetAction::SoftWarn { count: final(self).spec_count() as usize }
            } else {
                CallBudgetAction::Continue
            }),
            final(self).spec_warned() == (old(self).spec_warned() || r is SoftWarn),
            old(self).spec_soft() >= old(self).spec_hard() ==> !(r is SoftWarn),
    {
        self.count = self.count.saturating_add(calls_this_round);
        if self.count > self.hard {
            return CallBudgetAction::HardYield { count: self.count };
        }
        if self.count > self.soft && !self.soft_fired {
            self.soft_fired = true;
            return CallBudgetAction::SoftWarn { count: self.count };
        }
        CallBudgetAction::Continue
    }
}

impl Default for CallBudgetGuard {
    fn default() -> (r: CallBudgetGuard)
        ensures
            r.spec_count() == 0,
            !r.spec_warned(),
            r.spec_soft() == CALL_BUDGET_SOFT,
            r.spec_hard() == CALL_BUDGET_HARD,
    {
        CallBudgetGuard { count: 0, soft_fired: false, soft: CALL_BUDGET_SOFT, hard: CALL_BUDGET_HARD }
    }
}

/// Law: the first two times a call is run, the third time it is refused, and from the
/// fourth on the turn is broken off.
pub proof fn the_third_ask_is_refused(count: nat)
    ensures
        count <= 2 ==> action_for(count) == RepeatAction::Allow,
        count == 3 ==> action_for(count) == RepeatAction::Block,
        count >= 4 ==> action_for(count) == RepeatAction::Break,
{
}

/// Law: a budget warns from three quarters of its rounds on and forces a summary from nine
/// tenths on; the rounds before run freely.
pub proof fn budgets_warn_before_they_force(iteration: nat, max: nat)
    requires
        max > 0,
    ensures
        100 * iteration >= 90 * max <==> phase_at(iteration, max) == BudgetPhase::ForceSummarize,
        75 * max <= 100 * iteration && 100 * iteration < 90 * max <==> phase_at(iteration, max)
            == BudgetPhase::SoftWarn,
        100 * iteration < 75 * max <==> phase_at(iteration, max) == BudgetPhase::Normal,
{
    let x = iteration * 100;
    assert(x / max >= 90 <==> x >= 90 * max) by (nonlinear_arith)
        requires
            max > 0,
    ;
    assert(x / max >= 75 <==> x >= 75 * max) by (nonlinear_arith)
        requires
            max > 0,
    ;
}

/// Law: the warning tells how many rounds are left, and a refused call is told what was
/// refused and how often it was asked.
pub proof fn warnings_tell_their_numbers(remaining: nat, desc: Seq<char>, count: nat)
    ensures
        budget_text(BudgetPhase::Normal, remaining).len() == 0,
        chars::contains_str(budget_text(BudgetPhase::SoftWarn, remaining), chars::dec(remaining)),
        chars::contains_str(blocked_text(desc, count), desc),
        chars::contains_str(blocked_text(desc, count), chars::dec(count)),
        chars::contains_str(repeat_log_text(desc, count, RepeatAction::Break), chars::dec(count)),
        chars::contains_str(repeat_log_text(desc, count, RepeatAction::Block), chars::dec(count)),
        chars::ends_with(
            repeat_log_text(desc, count, RepeatAction::Break),
            chars::on_one_line(desc),
        ),
        chars::ends_with(
            repeat_log_text(desc, count, RepeatAction::Block),
            chars::on_one_line(desc),
        ),
{
    chars::lemma_holds_part(SOFT_HEAD@, chars::dec(remaining), SOFT_TAIL@);
    let d = chars::dec(count);
    let o = chars::on_one_line(desc);
    chars::lemma_holds_part(BLOCKED_HEAD@ + d + BLOCKED_MID@, desc, BLOCKED_TAIL@);
    chars::lemma_holds_part(BLOCKED_HEAD@, d, BLOCKED_MID@ + desc + BLOCKED_TAIL@);
    assert(BLOCKED_HEAD@ + d + (BLOCKED_MID@ + desc + BLOCKED_TAIL@) =~= blocked_text(desc, count));
    let h1 = "loop-guard: repeated call ×"@;
    let m1 = " — breaking turn (re-plan failed): "@;
    let h2 = "loop-guard: blocked repeated call ×"@;
    let m2 = " — asking the model to re-plan: "@;
    chars::lemma_holds_part(h1, d, m1 + o);
    chars::lemma_holds_part(h2, d, m2 + o);
    let t1 = h1 + d + m1 + o;
    let t2 = h2 + d + m2 + o;
    assert(h1 + d + (m1 + o) =~= t1);
    assert(h2 + d + (m2 + o) =~= t2);
    assert(t1.subrange(t1.len() - o.len(), t1.len() as int) =~= o);
    assert(t2.subrange(t2.len() - o.len(), t2.len() as int) =~= o);
}

/// Law: while recoveries are left, a loop is answered by a change of approach, and a turn
/// that ran out of rounds, of calls or into a long chain goes on where it stopped; what
/// was completed or interrupted needs nothing.
pub proof fn stops_are_answered_by_their_kind(n: nat, call: Seq<char>, spent: nat, max: nat)
    requires
        spent < max,
    ensures
        disposition_of(Stop::Completed, spent, max) == Disposition::NoAction,
        disposition_of(Stop::Interrupted, spent, max) == Disposition::NoAction,
        disposition_of(Stop::Completed, max, max) == Disposition::NoAction,
        disposition_of(Stop::Interrupted, max, max) == Disposition::NoAction,
        disposition_of(Stop::LoopDetected { call, count: n }, spent, max) == Disposition::Nudge,
        disposition_of(Stop::ForcedSummarize { iterations: n }, spent, max) == Disposition::Resume,
        disposition_of(Stop::BudgetExhausted { iterations: n }, spent, max) == Disposition::Resume,
        disposition_of(Stop::SerialChainYield { depth: n }, spent, max) == Disposition::Resume,
        disposition_of(Stop::CallBudgetExceeded { count: n }, spent, max) == Disposition::Resume,
{
}

/// Law: a directive tells the model why it is given: a resumed turn what stopped it, a
/// nudged one which call it kept repeating.
pub proof fn directives_say_why(stop: Stop, call: Seq<char>, count: nat)
    ensures
        directive_text(Disposition::Resume, stop) matches Some(d) && chars::contains_str(
            d,
            stop.detail(),
        ),
        call.len() > 0 ==> (directive_text(
            Disposition::Nudge,
            Stop::LoopDetected { call, count },
        ) matches Some(d) && chars::contains_str(d, call)),
        directive_text(Disposition::NoAction, stop) is None,
        directive_text(Disposition::FlagOperator, stop) is None,
{
    chars::lemma_holds_part(
        "[auto-resume] Your previous turn stopped before finishing ("@,
        stop.detail(),
        RESUME_TAIL@,
    );
    let h = "[nudge] Your previous turn was stopped by the loop guard: "@;
    let w = "you kept repeating the same action ("@;
    chars::lemma_holds_part(h + w, call, ")"@ + NUDGE_TAIL@);
    assert(h + w + call + (")"@ + NUDGE_TAIL@) =~= h + (w + call + ")"@) + NUDGE_TAIL@);
}

/// Law: what is told of a stop has its numbers in it, and the call of a loop.
pub proof fn details_tell_the_numbers(n: nat, call: Seq<char>)
    ensures
        chars::contains_str((Stop::ForcedSummarize { iterations: n }).detail(), chars::dec(n)),
        chars::contains_str((Stop::BudgetExhausted { iterations: n }).detail(), chars::dec(n)),
        chars::contains_str((Stop::SerialChainYield { depth: n }).detail(), chars::dec(n)),
        chars::contains_str((Stop::CallBudgetExceeded { count: n }).detail(), chars::dec(n)),
        chars::contains_str((Stop::LoopDetected { call, count: n }).detail(), chars::dec(n)),
        chars::contains_str(
            (Stop::LoopDetected { call, count: n }).detail(),
            chars::on_one_line(call),
        ),
{
    let d = chars::dec(n);
    chars::lemma_holds_part(
        "forced a summarize-exit after "@,
        d,
        " tool-call round(s) to avoid losing the work"@,
    );
    chars::lemma_holds_part(
        "exhausted the "@,
        d,
        "-round tool-call budget without a final answer"@,
    );
    chars::lemma_holds_part(
        "yielded after "@,
        d,
        " consecutive single-call rounds (a deep serial chain) to re-plan toward batching independent calls"@,
    );
    chars::lemma_holds_part(
        "yielded after "@,
        d,
        " tool calls this turn (per-turn hard budget) to spread load across the rate-limit window and resume with fresh context"@,
    );
    let h = "detected a loop — the call `"@;
    let m = "` was repeated "@;
    let t = " times without progress"@;
    let o = chars::on_one_line(call);
    chars::lemma_holds_part(h + o + m, d, t);
    chars::lemma_holds_part(h, o, m + d + t);
    assert(h + o + (m + d + t) =~= h + o + m + d + t);
}

/// Law: a tagged answer begins with its banner and ends in all that was said; a completed
/// answer is left as it is.
pub proof fn tagged_answers_keep_the_body(stop: Stop, body: Seq<char>)
    ensures
        bannered(Stop::Completed, body) == body,
        stop != Stop::Completed ==> chars::starts_with(bannered(stop, body), stop.banner()),
        stop != Stop::Completed ==> chars::ends_with(bannered(stop, body), chars::trim(body)),
{
    let t = bannered(stop, body);
    let b = stop.banner();
    let w = chars::trim(body);
    if stop != Stop::Completed {
        assert(t.subrange(0, b.len() as int) =~= b);
        assert(t.subrange(t.len() - w.len(), t.len() as int) =~= w);
    }
}

/// Law: the reads that belong together are these, whatever else is called.
pub proof fn reads_can_be_batched(name: Seq<char>)
    ensures
        batchable("read_file"@),
        batchable("grep_files"@),
        batchable("list_dir"@),
        batchable("glob_expand"@),
        batchable("stat_file"@),
        batchable("diff_files"@),
        chars::contains_str(name, "write"@) || chars::contains_str(name, "run"@)
            || chars::contains_str(name, "edit"@) ==> !batchable(name),
{
    if batchable(name) {
        reveal_strlit("read_file");
        reveal_strlit("grep_files");
        reveal_strlit("list_dir");
        reveal_strlit("glob_expand");
        reveal_strlit("stat_file");
        reveal_strlit("diff_files");
        reveal_strlit("write");
        reveal_strlit("run");
        reveal_strlit("edit");
        assert forall|i: int| !chars::matches_at(name, "write"@, i) by {
            if chars::matches_at(name, "write"@, i) {
                assert(name.subrange(i, i + 5)[0] == name[i]);
                assert(name[i] == 'w');
            }
        }
        assert forall|i: int| !chars::matches_at(name, "run"@, i) by {
            if chars::matches_at(name, "run"@, i) {
                assert(name.subrange(i, i + 3)[1] == name[i + 1]);
                assert(name[i + 1] == 'u');
            }
        }
        assert forall|i: int| !chars::matches_at(name, "edit"@, i) by {
            if chars::matches_at(name, "edit"@, i) {
                assert(name.subrange(i, i + 4)[0] == name[i]);
                assert(name.subrange(i, i + 4)[1] == name[i + 1]);
                assert(name[i] == 'e' && name[i + 1] == 'd');
            }
        }
    }
}

} // verus!
