//! Lifecycle hooks: the events, the filters, the payload that a hook gets and the
//! registry.
use vstd::prelude::*;
use crate::backend::{text_view, ToolCall};
use crate::chars;
use crate::ids;
use crate::json::{self, Json, JsonV, Object};
use crate::text;

verus! {

/// The time that a hook gets when its configuration gives none.
pub const DEFAULT_TIMEOUT_MS: u64 = 5_000;

/// The environment variable that marks a process as run by a hook.
pub const RECURSION_GUARD: &'static str = "AISH_IN_HOOK";

/// A moment at which a hook can fire.
#[derive(Clone, Copy, Debug, PartialEq, Eq, Hash, Structural)]
pub enum HookEvent {
    SessionStart,
    SessionEnd,
    InstructionsLoaded,
    McpServersReady,
    ModeChanged,
    BackendChanged,
    PromptRouteDecided,
    DirectCommandRun,
    CwdChanged,
    UserPromptSubmit,
    PreToolUse,
    PostToolUse,
    PostToolUseFailure,
    PermissionRequest,
    PermissionDenied,
    TurnEnd,
    TurnEndFailure,
    FileChanged,
    MemoryStored,
    PreCompact,
    PostCompact,
    WorkerStart,
    WorkerStop,
    CoordinatorPhaseChanged,
    OperatorMessageReceived,
    LoopGuardTripped,
    EscalationRequested,
    BatchFanOut,
    BackgroundJobStart,
    BackgroundJobStop,
    UpdateAvailable,
    UpdateApplied,
    SkillMatched,
}

impl HookEvent {
    /// Every event.
    pub const ALL: [HookEvent; 33] = [
        HookEvent::SessionStart,
        HookEvent::SessionEnd,
        HookEvent::InstructionsLoaded,
        HookEvent::McpServersReady,
        HookEvent::ModeChanged,
        HookEvent::BackendChanged,
        HookEvent::PromptRouteDecided,
        HookEvent::DirectCommandRun,
        HookEvent::CwdChanged,
        HookEvent::UserPromptSubmit,
        HookEvent::PreToolUse,
        HookEvent::PostToolUse,
        HookEvent::PostToolUseFailure,
        HookEvent::PermissionRequest,
        HookEvent::PermissionDenied,
        HookEvent::TurnEnd,
        HookEvent::TurnEndFailure,
        HookEvent::FileChanged,
        HookEvent::MemoryStored,
        HookEvent::PreCompact,
        HookEvent::PostCompact,
        HookEvent::WorkerStart,
        HookEvent::WorkerStop,
        HookEvent::CoordinatorPhaseChanged,
        HookEvent::OperatorMessageReceived,
        HookEvent::LoopGuardTripped,
        HookEvent::EscalationRequested,
        HookEvent::BatchFanOut,
        HookEvent::BackgroundJobStart,
        HookEvent::BackgroundJobStop,
        HookEvent::UpdateAvailable,
        HookEvent::UpdateApplied,
        HookEvent::SkillMatched,
    ];

    /// The name in configurations and payloads.
    pub open spec fn name(self) -> Seq<char> {
        match self {
            HookEvent::SessionStart => "SessionStart"@,
            HookEvent::SessionEnd => "SessionEnd"@,
            HookEvent::InstructionsLoaded => "InstructionsLoaded"@,
            HookEvent::McpServersReady => "McpServersReady"@,
            HookEvent::ModeChanged => "ModeChanged"@,
            HookEvent::BackendChanged => "BackendChanged"@,
            HookEvent::PromptRouteDecided => "PromptRouteDecided"@,
            HookEvent::DirectCommandRun => "DirectCommandRun"@,
            HookEvent::CwdChanged => "CwdChanged"@,
            HookEvent::UserPromptSubmit => "UserPromptSubmit"@,
            HookEvent::PreToolUse => "PreToolUse"@,
            HookEvent::PostToolUse => "PostToolUse"@,
            HookEvent::PostToolUseFailure => "PostToolUseFailure"@,
            HookEvent::PermissionRequest => "PermissionRequest"@,
            HookEvent::PermissionDenied => "PermissionDenied"@,
            HookEvent::TurnEnd => "TurnEnd"@,
            HookEvent::TurnEndFailure => "TurnEndFailure"@,
            HookEvent::FileChanged => "FileChanged"@,
            HookEvent::MemoryStored => "MemoryStored"@,
            HookEvent::PreCompact => "PreCompact"@,
            HookEvent::PostCompact => "PostCompact"@,
            HookEvent::WorkerStart => "WorkerStart"@,
            HookEvent::WorkerStop => "WorkerStop"@,
            HookEvent::CoordinatorPhaseChanged => "CoordinatorPhaseChanged"@,
            HookEvent::OperatorMessageReceived => "OperatorMessageReceived"@,
            HookEvent::LoopGuardTripped => "LoopGuardTripped"@,
            HookEvent::EscalationRequested => "EscalationRequested"@,
            HookEvent::BatchFanOut => "BatchFanOut"@,
            HookEvent::BackgroundJobStart => "BackgroundJobStart"@,
            HookEvent::BackgroundJobStop => "BackgroundJobStop"@,
            HookEvent::UpdateAvailable => "UpdateAvailable"@,
            HookEvent::UpdateApplied => "UpdateApplied"@,
            HookEvent::SkillMatched => "SkillMatched"@,
        }
    }

    /// The place among all events.
    spec fn index(self) -> int {
        match self {
            HookEvent::SessionStart => 0,
            HookEvent::SessionEnd => 1,
            HookEvent::InstructionsLoaded => 2,
            HookEvent::McpServersReady => 3,
            HookEvent::ModeChanged => 4,
            HookEvent::BackendChanged => 5,
            HookEvent::PromptRouteDecided => 6,
            HookEvent::DirectCommandRun => 7,
            HookEvent::CwdChanged => 8,
            HookEvent::UserPromptSubmit => 9,
            HookEvent::PreToolUse => 10,
            HookEvent::PostToolUse => 11,
            HookEvent::PostToolUseFailure => 12,
            HookEvent::PermissionRequest => 13,
            HookEvent::PermissionDenied => 14,
            HookEvent::TurnEnd => 15,
            HookEvent::TurnEndFailure => 16,
            HookEvent::FileChanged => 17,
            HookEvent::MemoryStored => 18,
            HookEvent::PreCompact => 19,
            HookEvent::PostCompact => 20,
            HookEvent::WorkerStart => 21,
            HookEvent::WorkerStop => 22,
            HookEvent::CoordinatorPhaseChanged => 23,
            HookEvent::OperatorMessageReceived => 24,
            HookEvent::LoopGuardTripped => 25,
            HookEvent::EscalationRequested => 26,
            HookEvent::BatchFanOut => 27,
            HookEvent::BackgroundJobStart => 28,
            HookEvent::BackgroundJobStop => 29,
            HookEvent::UpdateAvailable => 30,
            HookEvent::UpdateApplied => 31,
            HookEvent::SkillMatched => 32,
        }
    }

    /// The name in configurations and payloads.
    pub fn as_str(self) -> (r: &'static str)
        ensures
            r@ == self.name(),
    {
        match self {
            HookEvent::SessionStart => "SessionStart",
            HookEvent::SessionEnd => "SessionEnd",
            HookEvent::InstructionsLoaded => "InstructionsLoaded",
            HookEvent::McpServersReady => "McpServersReady",
            HookEvent::ModeChanged => "ModeChanged",
            HookEvent::BackendChanged => "BackendChanged",
            HookEvent::PromptRouteDecided => "PromptRouteDecided",
            HookEvent::DirectCommandRun => "DirectCommandRun",
            HookEvent::CwdChanged => "CwdChanged",
            HookEvent::UserPromptSubmit => "UserPromptSubmit",
            HookEvent::PreToolUse => "PreToolUse",
            HookEvent::PostToolUse => "PostToolUse",
            HookEvent::PostToolUseFailure => "PostToolUseFailure",
            HookEvent::PermissionRequest => "PermissionRequest",
            HookEvent::PermissionDenied => "PermissionDenied",
            HookEvent::TurnEnd => "TurnEnd",
            HookEvent::TurnEndFailure => "TurnEndFailure",
            HookEvent::FileChanged => "FileChanged",
            HookEvent::MemoryStored => "MemoryStored",
            HookEvent::PreCompact => "PreCompact",
            HookEvent::PostCompact => "PostCompact",
            HookEvent::WorkerStart => "WorkerStart",
            HookEvent::WorkerStop => "WorkerStop",
            HookEvent::CoordinatorPhaseChanged => "CoordinatorPhaseChanged",
            HookEvent::OperatorMessageReceived => "OperatorMessageReceived",
            HookEvent::LoopGuardTripped => "LoopGuardTripped",
            HookEvent::EscalationRequested => "EscalationRequested",
            HookEvent::BatchFanOut => "BatchFanOut",
            HookEvent::BackgroundJobStart => "BackgroundJobStart",
            HookEvent::BackgroundJobStop => "BackgroundJobStop",
            HookEvent::UpdateAvailable => "UpdateAvailable",
            HookEvent::UpdateApplied => "UpdateApplied",
            HookEvent::SkillMatched => "SkillMatched",
        }
    }

    /// The event of that name; names are case-sensitive.
    pub fn parse(s: &str) -> (r: Option<HookEvent>)
        ensures
            match r {
                Some(e) => e.name() == s@,
                None => forall|e: HookEvent| (#[trigger] e.name()) != s@,
            },
    {
        let all = HookEvent::ALL;
        let mut i: usize = 0;
        while i < 33
            invariant
                i <= 33,
                all@ == HookEvent::ALL@,
                forall|j: int| 0 <= j < i ==> (#[trigger] all@[j]).name() != s@,
            decreases 33 - i,
        {
            let e = all[i];
            if text::eq(e.as_str(), s) {
                return Some(e);
            }
            i += 1;
        }
        proof {
            assert forall|e: HookEvent| (#[trigger] e.name()) != s@ by {
                lemma_listed(e);
                assert(all@[e.index()] == e);
            }
        }
        None
    }
}

proof fn lemma_listed(e: HookEvent)
    ensures
        0 <= e.index() < 33,
        HookEvent::ALL@[e.index()] == e,
{
}

/// A number that tells the names apart.
spec fn code(s: Seq<char>) -> int {
    s.len() * 1000000 + (s[0] as int) * 1000 + (s[s.len() - 3] as int)
}

spec fn number(e: HookEvent) -> int {
    match e {
        HookEvent::SessionStart => 12083097,
        HookEvent::SessionEnd => 10083069,
        HookEvent::InstructionsLoaded => 18073100,
        HookEvent::McpServersReady => 15077097,
        HookEvent::ModeChanged => 11077103,
        HookEvent::BackendChanged => 14066103,
        HookEvent::PromptRouteDecided => 18080100,
        HookEvent::DirectCommandRun => 16068082,
        HookEvent::CwdChanged => 10067103,
        HookEvent::UserPromptSubmit => 16085109,
        HookEvent::PreToolUse => 10080085,
        HookEvent::PostToolUse => 11080085,
        HookEvent::PostToolUseFailure => 18080117,
        HookEvent::PermissionRequest => 17080101,
        HookEvent::PermissionDenied => 16080105,
        HookEvent::TurnEnd => 7084069,
        HookEvent::TurnEndFailure => 14084117,
        HookEvent::FileChanged => 11070103,
        HookEvent::MemoryStored => 12077114,
        HookEvent::PreCompact => 10080097,
        HookEvent::PostCompact => 11080097,
        HookEvent::WorkerStart => 11087097,
        HookEvent::WorkerStop => 10087116,
        HookEvent::CoordinatorPhaseChanged => 23067103,
        HookEvent::OperatorMessageReceived => 23079118,
        HookEvent::LoopGuardTripped => 16076112,
        HookEvent::EscalationRequested => 19069116,
        HookEvent::BatchFanOut => 11066079,
        HookEvent::BackgroundJobStart => 18066097,
        HookEvent::BackgroundJobStop => 17066116,
        HookEvent::UpdateAvailable => 15085098,
        HookEvent::UpdateApplied => 13085105,
        HookEvent::SkillMatched => 12083104,
    }
}

proof fn lemma_code(e: HookEvent)
    ensures
        code(e.name()) == number(e),
{
    match e {
        HookEvent::SessionStart => {
            reveal_strlit("SessionStart");
        },
        HookEvent::SessionEnd => {
            reveal_strlit("SessionEnd");
        },
        HookEvent::InstructionsLoaded => {
            reveal_strlit("InstructionsLoaded");
        },
        HookEvent::McpServersReady => {
            reveal_strlit("McpServersReady");
        },
        HookEvent::ModeChanged => {
            reveal_strlit("ModeChanged");
        },
        HookEvent::BackendChanged => {
            reveal_strlit("BackendChanged");
        },
        HookEvent::PromptRouteDecided => {
            reveal_strlit("PromptRouteDecided");
        },
        HookEvent::DirectCommandRun => {
            reveal_strlit("DirectCommandRun");
        },
        HookEvent::CwdChanged => {
            reveal_strlit("CwdChanged");
        },
        HookEvent::UserPromptSubmit => {
            reveal_strlit("UserPromptSubmit");
        },
        HookEvent::PreToolUse => {
            reveal_strlit("PreToolUse");
        },
        HookEvent::PostToolUse => {
            reveal_strlit("PostToolUse");
        },
        HookEvent::PostToolUseFailure => {
            reveal_strlit("PostToolUseFailure");
        },
        HookEvent::PermissionRequest => {
            reveal_strlit("PermissionRequest");
        },
        HookEvent::PermissionDenied => {
            reveal_strlit("PermissionDenied");
        },
        HookEvent::TurnEnd => {
            reveal_strlit("TurnEnd");
        },
        HookEvent::TurnEndFailure => {
            reveal_strlit("TurnEndFailure");
        },
        HookEvent::FileChanged => {
            reveal_strlit("FileChanged");
        },
        HookEvent::MemoryStored => {
            reveal_strlit("MemoryStored");
        },
        HookEvent::PreCompact => {
            reveal_strlit("PreCompact");
        },
        HookEvent::PostCompact => {
            reveal_strlit("PostCompact");
        },
        HookEvent::WorkerStart => {
            reveal_strlit("WorkerStart");
        },
        HookEvent::WorkerStop => {
            reveal_strlit("WorkerStop");
        },
        HookEvent::CoordinatorPhaseChanged => {
            reveal_strlit("CoordinatorPhaseChanged");
        },
        HookEvent::OperatorMessageReceived => {
            reveal_strlit("OperatorMessageReceived");
        },
        HookEvent::LoopGuardTripped => {
            reveal_strlit("LoopGuardTripped");
        },
        HookEvent::EscalationRequested => {
            reveal_strlit("EscalationRequested");
        },
        HookEvent::BatchFanOut => {
            reveal_strlit("BatchFanOut");
        },
        HookEvent::BackgroundJobStart => {
            reveal_strlit("BackgroundJobStart");
        },
        HookEvent::BackgroundJobStop => {
            reveal_strlit("BackgroundJobStop");
        },
        HookEvent::UpdateAvailable => {
            reveal_strlit("UpdateAvailable");
        },
        HookEvent::UpdateApplied => {
            reveal_strlit("UpdateApplied");
        },
        HookEvent::SkillMatched => {
            reveal_strlit("SkillMatched");
        },
    }
}

/// Law: distinct events have distinct names, so that parsing a name gives back the
/// event that has it.
pub proof fn event_names_are_distinct(a: HookEvent, b: HookEvent)
    ensures
        a.name() == b.name() <==> a == b,
{
    lemma_code(a);
    lemma_code(b);
}

/// Who acts.
#[derive(Clone, Copy, Debug, PartialEq, Eq, Structural)]
pub enum Agent {
    Interactive,
    Coordinator,
    Goal,
    Script,
    Oneshot,
}

impl Agent {
    /// The name in payloads.
    pub open spec fn name(self) -> Seq<char> {
        match self {
            Agent::Interactive => "interactive"@,
            Agent::Coordinator => "coordinator"@,
            Agent::Goal => "goal"@,
            Agent::Script => "script"@,
            Agent::Oneshot => "oneshot"@,
        }
    }

    /// The name in payloads.
    pub fn as_str(self) -> (r: &'static str)
        ensures
            r@ == self.name(),
    {
        match self {
            Agent::Interactive => "interactive",
            Agent::Coordinator => "coordinator",
            Agent::Goal => "goal",
            Agent::Script => "script",
            Agent::Oneshot => "oneshot",
        }
    }
}

/// Whether `t` as a whole matches the pattern `p`: a star matches any run of
/// characters, a question mark matches one, everything else stands for itself.
pub open spec fn globbed(p: Seq<char>, t: Seq<char>) -> bool
    decreases p.len(), t.len(),
{
    if p.len() == 0 {
        t.len() == 0
    } else if p[0] == '*' {
        globbed(p.skip(1), t) || (t.len() > 0 && globbed(p, t.skip(1)))
    } else {
        t.len() > 0 && (p[0] == '?' || p[0] == t[0]) && globbed(p.skip(1), t.skip(1))
    }
}

/// Whether the rest of `t` from `j` matches the rest of `p` from `i`.
spec fn rest_matches(p: Seq<char>, t: Seq<char>, i: int, j: int) -> bool {
    globbed(p.skip(i), t.skip(j))
}

proof fn lemma_rest(p: Seq<char>, t: Seq<char>, i: int, j: int)
    requires
        0 <= i <= p.len(),
        0 <= j <= t.len(),
    ensures
        i == p.len() ==> rest_matches(p, t, i, j) == (j == t.len()),
        i < p.len() && p[i] == '*' ==> rest_matches(p, t, i, j) == (rest_matches(p, t, i + 1, j) || (
        j < t.len() && rest_matches(p, t, i, j + 1))),
        i < p.len() && p[i] != '*' ==> rest_matches(p, t, i, j) == (j < t.len() && (p[i] == '?'
            || p[i] == t[j]) && rest_matches(p, t, i + 1, j + 1)),
{
    if i < p.len() {
        assert(p.skip(i).skip(1) =~= p.skip(i + 1));
        assert(p.skip(i)[0] == p[i]);
    }
    if j < t.len() {
        assert(t.skip(j).skip(1) =~= t.skip(j + 1));
        assert(t.skip(j)[0] == t[j]);
    }
}

/// A star that matches from a later place matches from an earlier one.
proof fn lemma_star_absorbs(p: Seq<char>, t: Seq<char>, i: int, y: int, x: int)
    requires
        0 <= i < p.len(),
        p[i] == '*',
        0 <= y <= x <= t.len(),
        rest_matches(p, t, i, x),
    ensures
        rest_matches(p, t, i, y),
    decreases x - y,
{
    if y < x {
        lemma_star_absorbs(p, t, i, y + 1, x);
        lemma_rest(p, t, i, y);
    }
}

/// Where the part behind a star matches.
proof fn lemma_star_ends(p: Seq<char>, t: Seq<char>, i: int, y: int) -> (k: int)
    requires
        0 <= i < p.len(),
        p[i] == '*',
        0 <= y <= t.len(),
        rest_matches(p, t, i, y),
    ensures
        y <= k <= t.len(),
        rest_matches(p, t, i + 1, k),
    decreases t.len() - y,
{
    lemma_rest(p, t, i, y);
    if rest_matches(p, t, i + 1, y) {
        y
    } else {
        lemma_star_ends(p, t, i, y + 1)
    }
}

/// Without stars, a part of the pattern takes as many characters as it has.
proof fn lemma_plain_part(p: Seq<char>, t: Seq<char>, a: int, b: int, k: int)
    requires
        0 <= a <= b <= p.len(),
        forall|j: int| a <= j < b ==> p[j] != '*',
        0 <= k <= t.len(),
        rest_matches(p, t, a, k),
    ensures
        k + (b - a) <= t.len(),
        rest_matches(p, t, b, k + (b - a)),
    decreases b - a,
{
    if a < b {
        lemma_rest(p, t, a, k);
        lemma_plain_part(p, t, a + 1, b, k + 1);
    }
}

/// Whether `text` as a whole matches `pattern`.
pub fn glob_match(pattern: &str, text: &str) -> (r: bool)
    ensures
        r == globbed(pattern@, text@),
{
    let p = text::chars_of(pattern);
    let t = text::chars_of(text);
    globs(&p, &t)
}

fn globs(p: &[char], t: &[char]) -> (r: bool)
    ensures
        r == globbed(p@, t@),
{
    let mut pi: usize = 0;
    let mut ti: usize = 0;
    let mut star: Option<usize> = None;
    let mut mark: usize = 0;
    let ghost want = globbed(p@, t@);
    proof {
        assert(p@.skip(0) =~= p@);
        assert(t@.skip(0) =~= t@);
    }
    while ti < t.len()
        invariant
            want == globbed(p@, t@),
            pi <= p@.len(),
            ti <= t@.len(),
            match star {
                None => mark == 0 && want == rest_matches(p@, t@, pi as int, ti as int),
                Some(s) => {
                    &&& s < pi
                    &&& p@[s as int] == '*'
                    &&& forall|j: int| s < j < pi ==> p@[j] != '*'
                    &&& mark <= ti
                    &&& ti - mark == pi - s - 1
                    &&& want == rest_matches(p@, t@, s as int, mark as int)
                    &&& rest_matches(p@, t@, s + 1, mark as int) == rest_matches(
                        p@,
                        t@,
                        pi as int,
                        ti as int,
                    )
                },
            },
        decreases
                p@.len() - (match star {
                    Some(s) => s as int,
                    None => -1,
                }),
                t@.len() - mark,
                t@.len() - ti,
    {
        proof {
            lemma_rest(p@, t@, pi as int, ti as int);
        }
        if pi < p.len() && p[pi] == '*' {
            proof {
                if let Some(s) = star {
                    if want {
                        let k = lemma_star_ends(p@, t@, s as int, mark as int);
                        lemma_plain_part(p@, t@, s + 1, pi as int, k);
                        lemma_star_absorbs(p@, t@, pi as int, ti as int, k + (pi - s - 1));
                    } else {
                        lemma_rest(p@, t@, s as int, mark as int);
                    }
                }
            }
            star = Some(pi);
            mark = ti;
            pi += 1;
        } else if pi < p.len() && (p[pi] == '?' || p[pi] == t[ti]) {
            pi += 1;
            ti += 1;
        } else if let Some(s) = star {
            proof {
                lemma_rest(p@, t@, s as int, mark as int);
            }
            pi = s + 1;
            mark = mark + 1;
            ti = mark;
        } else {
            return false;
        }
    }
    proof {
        lemma_rest(p@, t@, pi as int, ti as int);
        if let Some(s) = star {
            lemma_rest(p@, t@, s as int, mark as int);
            if want {
                let k = lemma_star_ends(p@, t@, s as int, mark as int);
                lemma_plain_part(p@, t@, s + 1, pi as int, k);
            }
        }
    }
    while pi < p.len() && p[pi] == '*'
        invariant
            pi <= p@.len(),
            ti == t@.len(),
            want == globbed(p@, t@),
            want == rest_matches(p@, t@, pi as int, ti as int),
        decreases p@.len() - pi,
    {
        proof {
            lemma_rest(p@, t@, pi as int, ti as int);
        }
        pi += 1;
    }
    proof {
        lemma_rest(p@, t@, pi as int, ti as int);
    }
    pi == p.len()
}

/// Law: a lone star matches everything; a pattern without wildcards matches itself
/// alone.
pub proof fn glob_extremes(p: Seq<char>, t: Seq<char>)
    ensures
        globbed(seq!['*'], t),
        (forall|i: int| 0 <= i < p.len() ==> p[i] != '*' && p[i] != '?') ==> (globbed(p, t) <==> p == t),
    decreases p.len(), t.len(),
{
    if t.len() > 0 {
        glob_extremes(seq![], t.skip(1));
    } else {
        assert(seq!['*'].skip(1) =~= seq![]);
        assert(globbed(seq!['*'].skip(1), t));
    }
    if p.len() > 0 && t.len() > 0 {
        glob_extremes(p.skip(1), t.skip(1));
        if p.skip(1) == t.skip(1) && p[0] == t[0] {
            assert(p =~= t) by {
                assert forall|i: int| 0 <= i < p.len() implies p[i] == t[i] by {
                    if i > 0 {
                        assert(p.skip(1)[i - 1] == t.skip(1)[i - 1]);
                    }
                }
                assert(p.skip(1).len() == t.skip(1).len());
            }
        }
    }
    if p.len() == 0 && t.len() == 0 {
        assert(p =~= t);
    }
}

proof fn lemma_star(p: Seq<char>, t: Seq<char>)
    ensures
        globbed(seq!['*'] + p, t) == (globbed(p, t) || (t.len() > 0 && globbed(
            seq!['*'] + p,
            t.skip(1),
        ))),
{
    assert((seq!['*'] + p).skip(1) =~= p);
}

/// Whether no character of `p` is a wildcard.
pub open spec fn literal(p: Seq<char>) -> bool {
    forall|i: int| 0 <= i < p.len() ==> (#[trigger] p[i]) != '*' && p[i] != '?'
}

/// Law: a pattern such as `*.lock` matches exactly the texts that end in what follows the
/// star, and one such as `src/` with a star behind it exactly those that begin so.
pub proof fn stars_match_ends(p: Seq<char>, t: Seq<char>)
    requires
        literal(p),
    ensures
        globbed(seq!['*'] + p, t) <==> p.is_suffix_of(t),
        globbed(p + seq!['*'], t) <==> p.is_prefix_of(t),
    decreases p.len() + t.len(),
{
    glob_extremes(p, t);
    lemma_star(p, t);
    if t.len() > 0 {
        let r = t.skip(1);
        stars_match_ends(p, r);
        if p.is_suffix_of(r) {
            assert(t.subrange(t.len() - p.len(), t.len() as int) =~= r.subrange(
                r.len() - p.len(),
                r.len() as int,
            ));
            assert(p.is_suffix_of(t));
        }
        if p.is_suffix_of(t) && p.len() < t.len() {
            assert(t.subrange(t.len() - p.len(), t.len() as int) =~= r.subrange(
                r.len() - p.len(),
                r.len() as int,
            ));
            assert(p.is_suffix_of(r));
        }
        if p.is_suffix_of(t) && p.len() == t.len() {
            assert(p =~= t);
        }
    }
    if p == t {
        assert(p.is_suffix_of(t));
    }
    if t.len() == 0 && p.is_suffix_of(t) {
        assert(p =~= t);
    }
    let q = p + seq!['*'];
    if p.len() == 0 {
        assert(q =~= seq!['*']);
        glob_extremes(p, t);
        assert(p.is_prefix_of(t));
    } else {
        let p2 = p.skip(1);
        assert(q.skip(1) =~= p2 + seq!['*']);
        assert(q[0] == p[0]);
        assert forall|i: int| 0 <= i < p2.len() implies (#[trigger] p2[i]) != '*' && p2[i] != '?' by {
            assert(p2[i] == p[i + 1]);
        }
        if t.len() > 0 {
            let r = t.skip(1);
            stars_match_ends(p2, r);
            if p2.is_prefix_of(r) && p[0] == t[0] {
                assert(p =~= t.take(p.len() as int)) by {
                    assert(p2 =~= r.take(p2.len() as int));
                    assert forall|i: int| 0 <= i < p.len() implies p[i] == t[i] by {
                        if i > 0 {
                            assert(p2[i - 1] == r[i - 1]);
                        }
                    }
                }
            }
            if p.is_prefix_of(t) {
                assert(p2 =~= r.take(p2.len() as int)) by {
                    assert forall|i: int| 0 <= i < p2.len() implies p2[i] == r[i] by {
                        assert(p[i + 1] == t[i + 1]);
                    }
                }
                assert(p[0] == t[0]);
            }
        }
    }
}

/// Law: a question mark matches any one character, and no more and no fewer.
pub proof fn question_marks_match_one(p: Seq<char>, c: char, t: Seq<char>)
    ensures
        globbed(seq!['?'] + p, seq![c] + t) == globbed(p, t),
        !globbed(seq!['?'] + p, Seq::<char>::empty()),
{
    assert((seq!['?'] + p).skip(1) =~= p);
    assert((seq![c] + t).skip(1) =~= t);
}

/// The envelope that a hook reads: common members and those of the event.
#[derive(Debug)]
pub struct HookPayload {
    pub fields: Object,
}

/// The common members of a payload.
pub open spec fn envelope(
    event: HookEvent,
    session_id: Seq<char>,
    agent: Agent,
    cwd: Seq<char>,
    mode: Seq<char>,
    timestamp_ms: nat,
) -> Seq<(Seq<char>, JsonV)> {
    let e = json::bind(seq![], "event"@, JsonV::Str(event.name()));
    let e = json::bind(e, "session_id"@, JsonV::Str(session_id));
    let e = json::bind(e, "agent"@, JsonV::Str(agent.name()));
    let e = json::bind(e, "cwd"@, JsonV::Str(cwd));
    let e = json::bind(e, "mode"@, JsonV::Str(mode));
    json::bind(e, "timestamp_ms"@, JsonV::Number(chars::dec(timestamp_ms)))
}

/// The text of a string member.
pub open spec fn text_field(e: Seq<(Seq<char>, JsonV)>, key: Seq<char>) -> Option<Seq<char>> {
    match json::lookup(e, key) {
        Some(v) => json::text_of(v),
        None => None,
    }
}

/// The members of a payload, their numbers written as numbers.
pub open spec fn sound_members(e: Seq<(Seq<char>, JsonV)>) -> bool {
    json::sound_numbers(JsonV::Object(e))
}

proof fn lemma_envelope_sound(
    event: HookEvent,
    session_id: Seq<char>,
    agent: Agent,
    cwd: Seq<char>,
    mode: Seq<char>,
    timestamp_ms: nat,
)
    ensures
        sound_members(envelope(event, session_id, agent, cwd, mode, timestamp_ms)),
{
    let none = Seq::<(Seq<char>, JsonV)>::empty();
    let e1 = json::bind(none, "event"@, JsonV::Str(event.name()));
    let e2 = json::bind(e1, "session_id"@, JsonV::Str(session_id));
    let e3 = json::bind(e2, "agent"@, JsonV::Str(agent.name()));
    let e4 = json::bind(e3, "cwd"@, JsonV::Str(cwd));
    let e5 = json::bind(e4, "mode"@, JsonV::Str(mode));
    json::lemma_bind_sound(none, "event"@, JsonV::Str(event.name()));
    json::lemma_bind_sound(e1, "session_id"@, JsonV::Str(session_id));
    json::lemma_bind_sound(e2, "agent"@, JsonV::Str(agent.name()));
    json::lemma_bind_sound(e3, "cwd"@, JsonV::Str(cwd));
    json::lemma_bind_sound(e4, "mode"@, JsonV::Str(mode));
    json::lemma_dec_sound(timestamp_ms);
    json::lemma_bind_sound(e5, "timestamp_ms"@, JsonV::Number(chars::dec(timestamp_ms)));
}

impl HookPayload {
    pub open spec fn view(self) -> Seq<(Seq<char>, JsonV)> {
        self.fields.view()
    }

    /// A payload of the common members, at that time.
    pub fn at(
        event: HookEvent,
        session_id: &str,
        agent: Agent,
        cwd: &str,
        mode: &str,
        timestamp_ms: u64,
    ) -> (r: HookPayload)
        ensures
            r.view() == envelope(
                event,
                session_id@,
                agent,
                cwd@,
                mode@,
                timestamp_ms as nat,
            ),
            sound_members(r.view()),
    {
        proof {
            lemma_envelope_sound(event, session_id@, agent, cwd@, mode@, timestamp_ms as nat);
        }
        let mut fields = Object::new();
        fields.insert("event".to_owned(), Json::Str(event.as_str().to_owned()));
        fields.insert("session_id".to_owned(), Json::Str(session_id.to_owned()));
        fields.insert("agent".to_owned(), Json::Str(agent.as_str().to_owned()));
        fields.insert("cwd".to_owned(), Json::Str(cwd.to_owned()));
        fields.insert("mode".to_owned(), Json::Str(mode.to_owned()));
        fields.insert("timestamp_ms".to_owned(), Json::Number(text::dec(timestamp_ms)));
        HookPayload { fields }
    }

    /// A payload of the common members, now.
    pub fn new(event: HookEvent, session_id: &str, agent: Agent, cwd: &str, mode: &str) -> (r:
        HookPayload)
        ensures
            exists|ms: u64|
                r.view() == #[trigger] envelope(
                    event,
                    session_id@,
                    agent,
                    cwd@,
                    mode@,
                    ms as nat,
                ),
            sound_members(r.view()),
    {
        let ms: u64 = ids::now_ms();
        HookPayload::at(event, session_id, agent, cwd, mode, ms)
    }

    /// The payload with one more member, in place of one of the same name.
    pub fn with(self, key: &str, value: Json) -> (r: HookPayload)
        ensures
            r.view() == json::bind(self.view(), key@, value.view()),
            sound_members(self.view()) && json::sound_numbers(value.view()) ==> sound_members(
                r.view(),
            ),
    {
        proof {
            if sound_members(self.view()) && json::sound_numbers(value.view()) {
                json::lemma_bind_sound(self.view(), key@, value.view());
            }
        }
        let mut fields = self.fields;
        fields.insert(key.to_owned(), value);
        HookPayload { fields }
    }

    /// The text of a string member.
    pub fn field(&self, key: &str) -> (r: Option<&str>)
        ensures
            match r {
                Some(s) => text_field(self.view(), key@) == Some(s@),
                None => text_field(self.view(), key@) is None,
            },
    {
        match self.fields.get(key) {
            Some(v) => v.as_str(),
            None => None,
        }
    }

    /// The payload as one line of JSON.
    pub fn to_json_string(&self) -> (r: String)
        ensures
            r@ == json::compact(JsonV::Object(self.view())),
            sound_members(self.view()) ==> json::one_line(r@),
    {
        proof {
            if sound_members(self.view()) {
                json::compact_text_is_one_line(JsonV::Object(self.view()));
            }
        }
        let n: usize = self.fields.len();
        let mut copy = Object::new();
        let ghost e = self.view();
        let mut i: usize = 0;
        assert(e.take(0) =~= seq![]);
        while i < n
            invariant
                e == self.fields.view(),
                n == e.len(),
                json::keys_sorted(e),
                i <= n,
                copy.view() == e.take(i as int),
            decreases n - i,
        {
            proof {
                lemma_bind_last(e, i as int);
            }
            copy.insert(self.fields.key_at(i).clone(), self.fields.value_at(i).copy());
            i += 1;
        }
        assert(e.take(i as int) =~= e);
        json::to_compact(&Json::Object(copy))
    }
}

proof fn lemma_bind_last(e: Seq<(Seq<char>, JsonV)>, i: int)
    requires
        0 <= i < e.len(),
        json::keys_sorted(e),
    ensures
        json::bind(e.take(i), e[i].0, e[i].1) == e.take(i + 1),
{
    let t = e.take(i);
    json::lemma_bind(t, e[i].0, e[i].1, i);
    assert(t.take(i) =~= t);
    assert(e.take(i + 1) =~= t.push(e[i]));
}

/// What narrows a hook down. An absent filter lets everything through.
#[derive(Debug)]
pub struct Matcher {
    /// A pattern for the tool's name.
    pub tool: Option<String>,
    /// A pattern for the program that a tool runs.
    pub program: Option<String>,
    /// A pattern for the path that a tool works on.
    pub path_glob: Option<String>,
    /// Confirmation modes, any of which will do.
    pub mode: Vec<String>,
    /// Who acts.
    pub agent: Option<String>,
}

impl Default for Matcher {
    fn default() -> (r: Matcher)
        ensures
            r.tool is None,
            r.program is None,
            r.path_glob is None,
            r.mode@.len() == 0,
            r.agent is None,
    {
        Matcher { tool: None, program: None, path_glob: None, mode: Vec::new(), agent: None }
    }
}

/// Whether a pattern, if there is one, matches the member's text.
pub open spec fn glob_passes(pattern: Option<Seq<char>>, value: Option<Seq<char>>) -> bool {
    match pattern {
        Some(p) => value matches Some(v) && globbed(p, v),
        None => true,
    }
}

impl Matcher {
    /// Whether a payload passes every filter. A filter on a member that the payload
    /// does not have is not passed.
    pub open spec fn accepts(self, e: Seq<(Seq<char>, JsonV)>) -> bool {
        &&& glob_passes(text_view(self.tool), text_field(e, "tool"@))
        &&& glob_passes(text_view(self.program), text_field(e, "program"@))
        &&& glob_passes(text_view(self.path_glob), text_field(e, "path"@))
        &&& self.mode@.len() > 0 ==> (text_field(e, "mode"@) matches Some(m) && text::str_views(
            self.mode@,
        ).contains(m))
        &&& self.agent is Some ==> text_field(e, "agent"@) == text_view(self.agent)
    }

    /// Whether a payload passes every filter.
    pub fn matches(&self, payload: &HookPayload) -> (r: bool)
        ensures
            r == self.accepts(payload.view()),
    {
        if !passes(&self.tool, payload.field("tool")) || !passes(
            &self.program,
            payload.field("program"),
        ) || !passes(&self.path_glob, payload.field("path")) {
            return false;
        }
        if self.mode.len() > 0 {
            match payload.field("mode") {
                Some(m) => {
                    if !text::holds(&self.mode, m) {
                        return false;
                    }
                },
                None => {
                    return false;
                },
            }
        }
        if let Some(a) = &self.agent {
            match payload.field("agent") {
                Some(v) => {
                    if !text::eq(v, a.as_str()) {
                        return false;
                    }
                },
                None => {
                    return false;
                },
            }
        }
        true
    }
}

fn passes(pattern: &Option<String>, value: Option<&str>) -> (r: bool)
    ensures
        r == glob_passes(
            text_view(*pattern),
            match value {
                Some(v) => Some(v@),
                None => None,
            },
        ),
{
    match pattern {
        Some(p) => match value {
            Some(v) => glob_match(p.as_str(), v),
            None => false,
        },
        None => true,
    }
}

/// What a hook does.
#[derive(Debug)]
pub enum Action {
    /// Runs a program with the payload on its standard input.
    Command {
        program: String,
        args: Vec<String>,
        timeout_ms: Option<u64>,
        /// Whether a failure to run counts against the call.
        required: bool,
    },
    /// A rule that needs no program.
    Rule { deny_if: Option<String> },
}

#[verifier::ext_equal]
pub enum ActionV {
    Command {
        program: Seq<char>,
        args: Seq<Seq<char>>,
        timeout_ms: Option<u64>,
        required: bool,
    },
    Rule { deny_if: Option<Seq<char>> },
}

impl Action {
    pub open spec fn view(self) -> ActionV {
        match self {
            Action::Command { program, args, timeout_ms, required } => ActionV::Command {
                program: program@,
                args: text::str_views(args@),
                timeout_ms,
                required,
            },
            Action::Rule { deny_if } => ActionV::Rule { deny_if: text_view(deny_if) },
        }
    }

    /// The time that the action gets, in milliseconds.
    pub fn timeout_ms(&self) -> (r: u64)
        ensures
            r == (match self {
                Action::Command { timeout_ms: Some(ms), .. } => *ms,
                _ => DEFAULT_TIMEOUT_MS,
            }),
    {
        match self {
            Action::Command { timeout_ms, .. } => match timeout_ms {
                Some(ms) => *ms,
                None => DEFAULT_TIMEOUT_MS,
            },
            Action::Rule { .. } => DEFAULT_TIMEOUT_MS,
        }
    }

    /// A copy.
    pub fn copy(&self) -> (r: Action)
        ensures
            r.view() == self.view(),
    {
        match self {
            Action::Command { program, args, timeout_ms, required } => {
                let mut out: Vec<String> = Vec::new();
                let mut i: usize = 0;
                while i < args.len()
                    invariant
                        i <= args@.len(),
                        out@.len() == i,
                        forall|j: int| 0 <= j < i ==> (#[trigger] out@[j])@ == args@[j]@,
                    decreases args@.len() - i,
                {
                    out.push(args[i].clone());
                    i += 1;
                }
                assert(text::str_views(out@) =~= text::str_views(args@));
                Action::Command {
                    program: program.clone(),
                    args: out,
                    timeout_ms: *timeout_ms,
                    required: *required,
                }
            },
            Action::Rule { deny_if } => Action::Rule {
                deny_if: match deny_if {
                    Some(s) => Some(s.clone()),
                    None => None,
                },
            },
        }
    }
}

/// A registered hook.
#[derive(Debug)]
pub struct Hook {
    pub event: HookEvent,
    pub matcher: Matcher,
    pub action: Action,
    /// How often it has fired.
    pub matched: u64,
}

impl Hook {
    /// Whether the hook fires.
    pub open spec fn fires(self, event: HookEvent, e: Seq<(Seq<char>, JsonV)>) -> bool {
        self.event == event && self.matcher.accepts(e)
    }
}

/// The registered hooks, in the order in which they fire.
#[derive(Debug)]
pub struct HookSet {
    pub list: Vec<Hook>,
}

/// The actions of the hooks that fire, in order.
pub open spec fn fired(hooks: Seq<Hook>, event: HookEvent, e: Seq<(Seq<char>, JsonV)>) -> Seq<ActionV>
    decreases hooks.len(),
{
    if hooks.len() == 0 {
        seq![]
    } else if hooks.last().fires(event, e) {
        fired(hooks.drop_last(), event, e).push(hooks.last().action.view())
    } else {
        fired(hooks.drop_last(), event, e)
    }
}

/// The view of a list of actions.
pub open spec fn actions(v: Seq<Action>) -> Seq<ActionV> {
    v.map_values(|a: Action| a.view())
}

/// `n + 1`, around the largest number.
pub open spec fn counted(n: u64) -> u64 {
    if n == u64::MAX {
        0
    } else {
        (n + 1) as u64
    }
}

impl HookSet {
    /// No hooks.
    pub fn empty() -> (r: HookSet)
        ensures
            r.list@.len() == 0,
    {
        HookSet { list: Vec::new() }
    }

    /// Whether there is no hook.
    pub fn is_empty(&self) -> (r: bool)
        ensures
            r == (self.list@.len() == 0),
    {
        self.list.len() == 0
    }

    /// How many hooks there are.
    pub fn len(&self) -> (r: usize)
        ensures
            r == self.list@.len(),
    {
        self.list.len()
    }

    /// Whether a hook listens for `event`.
    pub open spec fn listens(self, event: HookEvent) -> bool {
        exists|i: int| 0 <= i < self.list@.len() && (#[trigger] self.list@[i]).event == event
    }

    /// Whether a hook listens for `event`.
    pub fn has(&self, event: HookEvent) -> (r: bool)
        ensures
            r == self.listens(event),
    {
        let mut i: usize = 0;
        while i < self.list.len()
            invariant
                i <= self.list@.len(),
                forall|j: int| 0 <= j < i ==> (#[trigger] self.list@[j]).event != event,
            decreases self.list@.len() - i,
        {
            if self.list[i].event == event {
                return true;
            }
            i += 1;
        }
        false
    }

    /// The hooks.
    pub fn hooks(&self) -> (r: &[Hook])
        ensures
            r@ == self.list@,
    {
        self.list.as_slice()
    }

    /// Registers the hooks of one more file behind those there are.
    pub fn load(&mut self, parsed: Vec<Hook>)
        ensures
            final(self).list@ == old(self).list@ + parsed@,
    {
        let mut more = parsed;
        self.list.append(&mut more);
    }

    /// The actions of the hooks that fire, each counted. Inside a hook none fires.
    pub fn matching(&mut self, inside_hook: bool, event: HookEvent, payload: &HookPayload) -> (r:
        Vec<Action>)
        ensures
            inside_hook ==> r@.len() == 0 && *final(self) == *old(self),
            !inside_hook ==> actions(r@) == fired(old(self).list@, event, payload.view()),
            !inside_hook ==> final(self).list@.len() == old(self).list@.len() && forall|i: int|
                0 <= i < old(self).list@.len() ==> #[trigger] final(self).list@[i] == (Hook {
                    matched: if old(self).list@[i].fires(event, payload.view()) {
                        counted(old(self).list@[i].matched)
                    } else {
                        old(self).list@[i].matched
                    },
                    ..old(self).list@[i]
                }),
    {
        let mut out: Vec<Action> = Vec::new();
        if inside_hook {
            return out;
        }
        let ghost before = self.list@;
        let ghost e = payload.view();
        let mut i: usize = 0;
        assert(before.take(0) =~= seq![]);
        assert(actions(out@) =~= fired(before.take(0), event, e));
        while i < self.list.len()
            invariant
                e == payload.view(),
                before == old(self).list@,
                self.list@.len() == before.len(),
                i <= before.len(),
                actions(out@) == fired(before.take(i as int), event, e),
                forall|j: int| i <= j < before.len() ==> self.list@[j] == before[j],
                forall|j: int|
                    0 <= j < i ==> #[trigger] self.list@[j] == (Hook {
                        matched: if before[j].fires(event, e) {
                            counted(before[j].matched)
                        } else {
                            before[j].matched
                        },
                        ..before[j]
                    }),
            decreases before.len() - i,
        {
            let ghost o = actions(out@);
            assert(before.take(i + 1).drop_last() =~= before.take(i as int));
            if self.list[i].event == event && self.list[i].matcher.matches(payload) {
                let a = self.list[i].action.copy();
                let ghost av = a.view();
                out.push(a);
                assert(actions(out@) =~= o.push(av));
                let n: u64 = self.list[i].matched;
                self.list[i].matched = if n == u64::MAX {
                    0
                } else {
                    n + 1
                };
            }
            i += 1;
        }
        assert(before.take(i as int) =~= before);
        out
    }
}

/// Law: a matcher without filters accepts everything.
pub proof fn no_filter_accepts_everything(m: Matcher, e: Seq<(Seq<char>, JsonV)>)
    requires
        m.tool is None,
        m.program is None,
        m.path_glob is None,
        m.mode@.len() == 0,
        m.agent is None,
    ensures
        m.accepts(e),
{
}

/// Law: nothing fires on an event that no hook listens for, so that a caller who
/// asks first loses nothing.
pub proof fn silent_events_fire_nothing(s: HookSet, event: HookEvent, e: Seq<(Seq<char>, JsonV)>)
    requires
        !s.listens(event),
    ensures
        fired(s.list@, event, e).len() == 0,
{
    lemma_silent(s.list@, event, e);
}

proof fn lemma_silent(hooks: Seq<Hook>, event: HookEvent, e: Seq<(Seq<char>, JsonV)>)
    requires
        forall|i: int| 0 <= i < hooks.len() ==> (#[trigger] hooks[i]).event != event,
    ensures
        fired(hooks, event, e).len() == 0,
    decreases hooks.len(),
{
    if hooks.len() > 0 {
        assert(hooks[hooks.len() - 1].event != event);
        let h = hooks.drop_last();
        assert forall|i: int| 0 <= i < h.len() implies (#[trigger] h[i]).event != event by {
            assert(h[i] == hooks[i]);
        }
        lemma_silent(h, event, e);
    }
}

/// Law: the hooks of an earlier file fire before those of a later one, and neither
/// file takes anything from the other.
pub proof fn earlier_files_fire_first(
    a: Seq<Hook>,
    b: Seq<Hook>,
    event: HookEvent,
    e: Seq<(Seq<char>, JsonV)>,
)
    ensures
        fired(a + b, event, e) == fired(a, event, e) + fired(b, event, e),
    decreases b.len(),
{
    if b.len() == 0 {
        assert(a + b =~= a);
    } else {
        assert((a + b).drop_last() =~= a + b.drop_last());
        earlier_files_fire_first(a, b.drop_last(), event, e);
        assert((a + b).last() == b.last());
    }
    assert(fired(a + b, event, e) =~= fired(a, event, e) + fired(b, event, e));
}

/// The payload of a tool call: what runs, and on what.
pub open spec fn call_payload(e: Seq<(Seq<char>, JsonV)>, name: Seq<char>, args: JsonV) -> Seq<
    (Seq<char>, JsonV),
> {
    let e = json::bind(e, "tool"@, JsonV::Str(name));
    let e = match json::member_text(args, "program"@) {
        Some(p) => json::bind(e, "program"@, JsonV::Str(p)),
        None => e,
    };
    match json::member_text(args, "path"@) {
        Some(p) => json::bind(e, "path"@, JsonV::Str(p)),
        None => e,
    }
}

/// The payload of a tool call, from that of the session.
pub fn tool_hook_payload(base: HookPayload, call: &ToolCall) -> (r: HookPayload)
    ensures
        r.view() == call_payload(base.view(), call.name@, call.args.view()),
        sound_members(base.view()) ==> sound_members(r.view()),
{
    let mut p = base.with("tool", Json::Str(call.name.clone()));
    if let Some(program) = call.args.str_member("program") {
        p = p.with("program", Json::Str(program.to_owned()));
    }
    if let Some(path) = call.args.str_member("path") {
        p = p.with("path", Json::Str(path.to_owned()));
    }
    p
}

proof fn lemma_member_names()
    ensures
        "event"@ != "session_id"@,
        "event"@ != "agent"@,
        "event"@ != "cwd"@,
        "event"@ != "mode"@,
        "event"@ != "timestamp_ms"@,
        "session_id"@ != "agent"@,
        "session_id"@ != "cwd"@,
        "session_id"@ != "mode"@,
        "session_id"@ != "timestamp_ms"@,
        "agent"@ != "cwd"@,
        "agent"@ != "mode"@,
        "agent"@ != "timestamp_ms"@,
        "cwd"@ != "mode"@,
        "cwd"@ != "timestamp_ms"@,
        "mode"@ != "timestamp_ms"@,
        "tool"@ != "program"@,
        "tool"@ != "path"@,
        "program"@ != "path"@,
{
    reveal_strlit("event");
    reveal_strlit("session_id");
    reveal_strlit("agent");
    reveal_strlit("cwd");
    reveal_strlit("mode");
    reveal_strlit("timestamp_ms");
    reveal_strlit("tool");
    reveal_strlit("program");
    reveal_strlit("path");
    assert("session_id"@.len() == 10 && "timestamp_ms"@.len() == 12 && "cwd"@.len() == 3);
    assert("agent"@[0] != "event"@[0]);
    assert("tool"@[0] != "path"@[0] && "program"@.len() == 7 && "path"@.len() == 4);
}

/// Law: a payload says which event, session, agent, directory and mode it is about, and
/// when.
pub proof fn payloads_say_what_they_are_about(
    event: HookEvent,
    session_id: Seq<char>,
    agent: Agent,
    cwd: Seq<char>,
    mode: Seq<char>,
    timestamp_ms: nat,
)
    ensures
        ({
            let e = envelope(event, session_id, agent, cwd, mode, timestamp_ms);
            &&& text_field(e, "event"@) == Some(event.name())
            &&& text_field(e, "session_id"@) == Some(session_id)
            &&& text_field(e, "agent"@) == Some(agent.name())
            &&& text_field(e, "cwd"@) == Some(cwd)
            &&& text_field(e, "mode"@) == Some(mode)
            &&& json::lookup(e, "timestamp_ms"@) == Some(JsonV::Number(chars::dec(timestamp_ms)))
            &&& json::keys_sorted(e)
        }),
{
    lemma_member_names();
    let none = Seq::<(Seq<char>, JsonV)>::empty();
    let v1 = JsonV::Str(event.name());
    let v2 = JsonV::Str(session_id);
    let v3 = JsonV::Str(agent.name());
    let v4 = JsonV::Str(cwd);
    let v5 = JsonV::Str(mode);
    let v6 = JsonV::Number(chars::dec(timestamp_ms));
    let e1 = json::bind(none, "event"@, v1);
    let e2 = json::bind(e1, "session_id"@, v2);
    let e3 = json::bind(e2, "agent"@, v3);
    let e4 = json::bind(e3, "cwd"@, v4);
    let e5 = json::bind(e4, "mode"@, v5);
    assert forall|k: Seq<char>| true implies {
        &&& #[trigger] json::lookup(json::bind(e5, "timestamp_ms"@, v6), k) == (if k
            == "timestamp_ms"@ {
            Some(v6)
        } else if k == "mode"@ {
            Some(v5)
        } else if k == "cwd"@ {
            Some(v4)
        } else if k == "agent"@ {
            Some(v3)
        } else if k == "session_id"@ {
            Some(v2)
        } else if k == "event"@ {
            Some(v1)
        } else {
            json::lookup(none, k)
        })
    } by {
        json::lookup_after_bind(none, "event"@, v1, k);
        json::lookup_after_bind(e1, "session_id"@, v2, k);
        json::lookup_after_bind(e2, "agent"@, v3, k);
        json::lookup_after_bind(e3, "cwd"@, v4, k);
        json::lookup_after_bind(e4, "mode"@, v5, k);
        json::lookup_after_bind(e5, "timestamp_ms"@, v6, k);
    }
    json::lemma_bind_sorted(none, "event"@, v1);
    json::lemma_bind_sorted(e1, "session_id"@, v2);
    json::lemma_bind_sorted(e2, "agent"@, v3);
    json::lemma_bind_sorted(e3, "cwd"@, v4);
    json::lemma_bind_sorted(e4, "mode"@, v5);
    json::lemma_bind_sorted(e5, "timestamp_ms"@, v6);
}

/// Law: the payload of a tool call names the tool, and the program and the path that the
/// call's arguments name; it keeps every other member of the payload that it is made of.
pub proof fn call_payloads_name_the_call(
    e: Seq<(Seq<char>, JsonV)>,
    name: Seq<char>,
    args: JsonV,
    other: Seq<char>,
)
    ensures
        ({
            let c = call_payload(e, name, args);
            &&& text_field(c, "tool"@) == Some(name)
            &&& json::member_text(args, "program"@) matches Some(p) ==> text_field(c, "program"@)
                == Some(p)
            &&& json::member_text(args, "path"@) matches Some(p) ==> text_field(c, "path"@) == Some(p)
            &&& json::member_text(args, "program"@) is None ==> json::lookup(c, "program"@)
                == json::lookup(e, "program"@)
            &&& json::member_text(args, "path"@) is None ==> json::lookup(c, "path"@)
                == json::lookup(e, "path"@)
            &&& other != "tool"@ && other != "program"@ && other != "path"@ ==> json::lookup(c, other)
                == json::lookup(e, other)
        }),
{
    lemma_member_names();
    let e1 = json::bind(e, "tool"@, JsonV::Str(name));
    let e2 = match json::member_text(args, "program"@) {
        Some(p) => json::bind(e1, "program"@, JsonV::Str(p)),
        None => e1,
    };
    assert forall|k: Seq<char>| k == "tool"@ || k == "program"@ || k == "path"@ || k
        == other implies {
        &&& #[trigger] json::lookup(e1, k) == (if k == "tool"@ {
            Some(JsonV::Str(name))
        } else {
            json::lookup(e, k)
        })
        &&& json::lookup(e2, k) == (if k == "program"@ && json::member_text(
            args,
            "program"@,
        ) is Some {
            Some(JsonV::Str(json::member_text(args, "program"@).unwrap()))
        } else {
            json::lookup(e1, k)
        })
        &&& json::lookup(call_payload(e, name, args), k) == (if k == "path"@ && json::member_text(
            args,
            "path"@,
        ) is Some {
            Some(JsonV::Str(json::member_text(args, "path"@).unwrap()))
        } else {
            json::lookup(e2, k)
        })
    } by {
        json::lookup_after_bind(e, "tool"@, JsonV::Str(name), k);
        match json::member_text(args, "program"@) {
            Some(p) => json::lookup_after_bind(e1, "program"@, JsonV::Str(p), k),
            None => {},
        }
        match json::member_text(args, "path"@) {
            Some(p) => json::lookup_after_bind(e2, "path"@, JsonV::Str(p), k),
            None => {},
        }
    }
    assert(json::lookup(e1, "tool"@) is Some);
    assert(json::lookup(e1, "program"@) == json::lookup(e, "program"@));
    assert(json::lookup(e1, "path"@) == json::lookup(e, "path"@));
    if other != "tool"@ {
        assert(json::lookup(e1, other) == json::lookup(e, other));
    }
}

/// Law: a filter is about what a call is: one on the tool alone lets a call pass exactly
/// when the pattern matches the call's name, one on the program or the path exactly when
/// it matches what the arguments name.
pub proof fn filters_see_the_call(
    m: Matcher,
    e: Seq<(Seq<char>, JsonV)>,
    name: Seq<char>,
    args: JsonV,
    pattern: String,
)
    requires
        m.mode@.len() == 0,
        m.agent is None,
    ensures
        ({
            let c = call_payload(e, name, args);
            &&& m.tool == Some(pattern) && m.program is None && m.path_glob is None ==> m.accepts(c)
                == globbed(pattern@, name)
            &&& m.tool is None && m.program == Some(pattern) && m.path_glob is None ==> (
            json::member_text(args, "program"@) matches Some(p) ==> m.accepts(c) == globbed(
                pattern@,
                p,
            ))
            &&& m.tool is None && m.program is None && m.path_glob == Some(pattern) ==> (
            json::member_text(args, "path"@) matches Some(p) ==> m.accepts(c) == globbed(
                pattern@,
                p,
            ))
        }),
{
    call_payloads_name_the_call(e, name, args, "tool"@);
}

/// Law: a matcher accepts a payload when every filter that it has is passed, and only
/// then. What is asked of the payload stands in the member of that name.
pub proof fn every_filter_counts(m: Matcher, e: Seq<(Seq<char>, JsonV)>)
    ensures
        m.accepts(e) ==> {
            &&& m.tool matches Some(p) ==> (text_field(e, "tool"@) matches Some(v) && globbed(p@, v))
            &&& m.program matches Some(p) ==> (text_field(e, "program"@) matches Some(v) && globbed(
                p@,
                v,
            ))
            &&& m.path_glob matches Some(p) ==> (text_field(e, "path"@) matches Some(v) && globbed(
                p@,
                v,
            ))
            &&& m.agent matches Some(a) ==> text_field(e, "agent"@) == Some(a@)
            &&& m.mode@.len() > 0 ==> (text_field(e, "mode"@) matches Some(v) && exists|i: int|
                0 <= i < m.mode@.len() && (#[trigger] m.mode@[i])@ == v)
        },
        !m.accepts(e) ==> {
            ||| (m.tool matches Some(p) && !(text_field(e, "tool"@) matches Some(v) && globbed(p@, v)))
            ||| (m.program matches Some(p) && !(text_field(e, "program"@) matches Some(v) && globbed(
                p@,
                v,
            )))
            ||| (m.path_glob matches Some(p) && !(text_field(e, "path"@) matches Some(v) && globbed(
                p@,
                v,
            )))
            ||| (m.agent matches Some(a) && text_field(e, "agent"@) != Some(a@))
            ||| (m.mode@.len() > 0 && !(text_field(e, "mode"@) matches Some(v) && exists|i: int|
                0 <= i < m.mode@.len() && (#[trigger] m.mode@[i])@ == v))
        },
{
    let modes = text::str_views(m.mode@);
    assert forall|i: int| 0 <= i < m.mode@.len() implies modes[i] == (#[trigger] m.mode@[i])@ by {}
    if let Some(v) = text_field(e, "mode"@) {
        if modes.contains(v) {
            let i = choose|i: int| 0 <= i < modes.len() && modes[i] == v;
            assert(m.mode@[i]@ == v);
        }
        if exists|i: int| 0 <= i < m.mode@.len() && (#[trigger] m.mode@[i])@ == v {
            let i = choose|i: int| 0 <= i < m.mode@.len() && (#[trigger] m.mode@[i])@ == v;
            assert(modes[i] == v);
        }
    }
}

/// Law: a hook alone fires on its own event when its matcher accepts the payload, and on
/// nothing else; among others it fires in its place.
pub proof fn hooks_fire_on_their_own_event(
    before: Seq<Hook>,
    h: Hook,
    event: HookEvent,
    e: Seq<(Seq<char>, JsonV)>,
)
    ensures
        h.event == event && h.matcher.accepts(e) ==> fired(before.push(h), event, e) == fired(
            before,
            event,
            e,
        ).push(h.action.view()),
        h.event != event || !h.matcher.accepts(e) ==> fired(before.push(h), event, e) == fired(
            before,
            event,
            e,
        ),
{
    assert(before.push(h).drop_last() =~= before);
}

/// Law: a member that is added to a payload is read back, and the others stay.
pub proof fn bound_members_are_read_back(
    e: Seq<(Seq<char>, JsonV)>,
    key: Seq<char>,
    value: JsonV,
    other: Seq<char>,
)
    requires
        other != key,
    ensures
        json::lookup(json::bind(e, key, value), key) == Some(value),
        text_field(json::bind(e, key, value), other) == text_field(e, other),
{
    json::lookup_after_bind(e, key, value, other);
}

/// The payload of a turn's end: the length of its answer in bytes, or its error.
pub fn turn_end_payload(base: HookPayload, outcome: Result<&str, &str>) -> (r: HookPayload)
    ensures
        r.view() == (match outcome {
            Ok(answer) => json::bind(
                base.view(),
                "answer_len"@,
                JsonV::Number(chars::dec(chars::byte_len(answer@))),
            ),
            Err(e) => json::bind(base.view(), "error"@, JsonV::Str(e@)),
        }),
        sound_members(base.view()) ==> sound_members(r.view()),
{
    match outcome {
        Ok(answer) => {
            let n: usize = text::byte_len(answer);
            proof {
                json::lemma_dec_sound(n as nat);
            }
            base.with("answer_len", Json::Number(text::dec(n as u64)))
        },
        Err(e) => base.with("error", Json::Str(e.to_owned())),
    }
}

/// Why a hook did not run to its end.
#[derive(Debug)]
pub enum DispatchError {
    Spawn(String),
    Wait(String),
    Timeout,
}

impl DispatchError {
    pub open spec fn text(self) -> Seq<char> {
        match self {
            DispatchError::Spawn(e) => "spawn failed: "@ + e@,
            DispatchError::Wait(e) => "wait failed: "@ + e@,
            DispatchError::Timeout => "timed out"@,
        }
    }

    /// The error for humans.
    pub fn message(&self) -> (r: String)
        ensures
            r@ == self.text(),
    {
        match self {
            DispatchError::Spawn(e) => {
                let mut out = "spawn failed: ".to_owned();
                out.push_str(e.as_str());
                out
            },
            DispatchError::Wait(e) => {
                let mut out = "wait failed: ".to_owned();
                out.push_str(e.as_str());
                out
            },
            DispatchError::Timeout => "timed out".to_owned(),
        }
    }
}

/// Why a hook that may veto a call denies it, given how it ended: it denies by failing,
/// and by not running to its end where it is required to. A rule denies nothing.
pub open spec fn denied_by(action: ActionV, outcome: Result<bool, DispatchError>) -> Option<
    Seq<char>,
> {
    match action {
        ActionV::Command { program, required, .. } => match outcome {
            Ok(true) => None,
            Ok(false) => Some(program + " failed"@),
            Err(e) => if required {
                Some(program + ": "@ + e.text())
            } else {
                None
            },
        },
        ActionV::Rule { .. } => None,
    }
}

/// Why a hook that may veto a call denies it, if it does.
pub fn denial(action: &Action, outcome: Result<bool, DispatchError>) -> (r: Option<String>)
    ensures
        match r {
            Some(why) => denied_by(action.view(), outcome) == Some(why@),
            None => denied_by(action.view(), outcome) is None,
        },
{
    match action {
        Action::Command { program, required, .. } => match outcome {
            Ok(true) => None,
            Ok(false) => {
                let mut why = program.clone();
                why.push_str(" failed");
                Some(why)
            },
            Err(e) => if *required {
                let mut why = program.clone();
                why.push_str(": ");
                why.push_str(e.message().as_str());
                Some(why)
            } else {
                None
            },
        },
        Action::Rule { .. } => None,
    }
}

/// Law: a hook fires only on an event that the set is said to listen for.
pub proof fn fired_hooks_listen(set: HookSet, event: HookEvent, e: Seq<(Seq<char>, JsonV)>)
    ensures
        fired(set.list@, event, e).len() > 0 ==> set.listens(event),
        !set.listens(event) ==> fired(set.list@, event, e).len() == 0,
{
    lemma_fired_listens(set.list@, event, e);
}

proof fn lemma_fired_listens(hooks: Seq<Hook>, event: HookEvent, e: Seq<(Seq<char>, JsonV)>)
    ensures
        fired(hooks, event, e).len() > 0 ==> exists|i: int|
            0 <= i < hooks.len() && (#[trigger] hooks[i]).event == event,
    decreases hooks.len(),
{
    if hooks.len() > 0 {
        if hooks.last().fires(event, e) {
            assert(hooks[hooks.len() - 1].event == event);
        } else {
            let f = hooks.drop_last();
            lemma_fired_listens(f, event, e);
            if fired(f, event, e).len() > 0 {
                let i = choose|i: int| 0 <= i < f.len() && (#[trigger] f[i]).event == event;
                assert(hooks[i] == f[i]);
            }
        }
    }
}

/// Law: a command that fails denies the call, and one that succeeds never does. One that
/// could not be run denies it only where it is required, and then says why; a rule never
/// denies.
pub proof fn failing_commands_deny(action: ActionV, error: DispatchError)
    ensures
        denied_by(action, Ok(true)) is None,
        action is Command ==> denied_by(action, Ok(false)) is Some,
        action matches ActionV::Command { required, .. } ==> (denied_by(action, Err(error)) is Some
            <==> required),
        action matches ActionV::Command { program, .. } ==> {
            &&& denied_by(action, Ok(false)) matches Some(why) && chars::starts_with(why, program)
            &&& denied_by(action, Err(error)) matches Some(why) ==> chars::starts_with(why, program)
                && chars::ends_with(why, error.text())
        },
        action is Rule ==> denied_by(action, Ok(false)) is None && denied_by(action, Err(error)) is None,
        error matches DispatchError::Spawn(x) ==> chars::ends_with(error.text(), x@),
        error matches DispatchError::Wait(x) ==> chars::ends_with(error.text(), x@),
{
    match action {
        ActionV::Command { program, required, .. } => {
            let a = program + " failed"@;
            assert(a.subrange(0, program.len() as int) =~= program);
            let t = error.text();
            let b = program + ": "@ + t;
            assert(b.subrange(0, program.len() as int) =~= program);
            assert(b.subrange(b.len() - t.len(), b.len() as int) =~= t);
        },
        ActionV::Rule { .. } => {},
    }
    let t = error.text();
    match error {
        DispatchError::Spawn(x) => {
            assert(t.subrange(t.len() - x@.len(), t.len() as int) =~= x@);
        },
        DispatchError::Wait(x) => {
            assert(t.subrange(t.len() - x@.len(), t.len() as int) =~= x@);
        },
        DispatchError::Timeout => {},
    }
}

} // verus!
