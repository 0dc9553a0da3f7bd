//! One model for foreground and background jobs: their lifecycle, the output they
//! keep, and how a job is named on the command line.
use std::collections::VecDeque;
use vstd::prelude::*;
use crate::{chars, text};

verus! {

/// Bytes of streamed output kept per job; the oldest output goes first.
pub const JOB_BUFFER_CAP: usize = 64_000;

/// Whether the shell waits for the job or it runs on its own.
#[derive(Clone, Copy, Debug, PartialEq, Eq, Structural)]
pub enum JobKind {
    Foreground,
    Background,
}

/// Where a job is in its life. `Done` carries the summary of how it ended.
#[derive(Clone, Debug, PartialEq, Eq)]
pub enum JobState {
    Running,
    Stopped,
    Done(String),
}

/// The model of a job's state.
pub ghost enum StateV {
    Running,
    Stopped,
    Done(Seq<char>),
}

impl View for JobState {
    type V = StateV;

    open spec fn view(&self) -> StateV {
        match *self {
            JobState::Running => StateV::Running,
            JobState::Stopped => StateV::Stopped,
            JobState::Done(s) => StateV::Done(s@),
        }
    }
}

impl StateV {
    /// The label of the state.
    pub open spec fn label(self) -> Seq<char> {
        match self {
            StateV::Running => "running"@,
            StateV::Stopped => "stopped"@,
            StateV::Done(s) => s,
        }
    }
}

impl JobState {
    /// `running`, `stopped`, or the summary of how the job ended.
    pub fn label(&self) -> (r: String)
        ensures
            r@ == self@.label(),
    {
        match self {
            JobState::Running => "running".to_owned(),
            JobState::Stopped => "stopped".to_owned(),
            JobState::Done(s) => s.as_str().to_owned(),
        }
    }

    /// Whether the job has ended.
    pub fn is_done(&self) -> (r: bool)
        ensures
            r == (self@ is Done),
    {
        match self {
            JobState::Done(_) => true,
            _ => false,
        }
    }
}

/// One job, with the output it keeps and its state.
#[derive(Debug)]
pub struct Job {
    pub id: usize,
    pub desc: String,
    pub kind: JobKind,
    state: JobState,
    /// The end of what the job wrote.
    buffer: VecDeque<char>,
    /// How many bytes `buffer` takes.
    bytes: usize,
    /// Whether the job can still be asked to die.
    armed: bool,
    /// The process group that the job leads, once it is known.
    group: Option<i32>,
}

/// The table of all jobs, oldest first.
pub type Jobs = Vec<Job>;

/// The model of a job.
pub ghost struct JobV {
    pub id: usize,
    pub desc: Seq<char>,
    pub kind: JobKind,
    pub state: StateV,
    pub output: Seq<char>,
    pub armed: bool,
    pub group: Option<i32>,
}

impl View for Job {
    type V = JobV;

    closed spec fn view(&self) -> JobV {
        JobV {
            id: self.id,
            desc: self.desc@,
            kind: self.kind,
            state: self.state@,
            output: self.buffer@,
            armed: self.armed,
            group: self.group,
        }
    }
}

/// The models of the jobs of a table.
pub open spec fn models(table: Seq<Job>) -> Seq<JobV> {
    table.map_values(|j: Job| j@)
}

/// The longest end of `s` that takes at most `cap` bytes.
pub open spec fn recent(s: Seq<char>, cap: nat) -> Seq<char>
    decreases s.len(),
{
    if s.len() == 0 || chars::byte_len(s) <= cap {
        s
    } else {
        recent(s.skip(1), cap)
    }
}

/// What is kept is an end of the text, within the cap, and one character more would
/// not fit.
pub proof fn kept_output_is_the_end(s: Seq<char>, cap: nat)
    ensures
        recent(s, cap).len() <= s.len(),
        recent(s, cap) == s.skip(s.len() - recent(s, cap).len()),
        chars::byte_len(recent(s, cap)) <= cap,
        forall|k: int|
            0 <= k < s.len() - recent(s, cap).len() ==> chars::byte_len(#[trigger] s.skip(k)) > cap,
    decreases s.len(),
{
    if s.len() == 0 {
        assert(chars::byte_len(s) == 0);
        assert(s.skip(0) =~= s);
    } else if chars::byte_len(s) <= cap {
        assert(s.skip(0) =~= s);
    } else {
        let t = s.skip(1);
        kept_output_is_the_end(t, cap);
        let r = recent(s, cap);
        assert(t.skip(t.len() - r.len()) =~= s.skip(s.len() - r.len()));
        assert forall|k: int| 0 <= k < s.len() - r.len() implies chars::byte_len(#[trigger] s.skip(k))
            > cap by {
            if k == 0 {
                assert(s.skip(0) =~= s);
            } else {
                assert(t.skip(k - 1) =~= s.skip(k));
            }
        }
    }
}

/// Dropping old output early makes no difference.
proof fn lemma_recent_concat(s: Seq<char>, t: Seq<char>, cap: nat)
    ensures
        recent(recent(s, cap) + t, cap) == recent(s + t, cap),
    decreases s.len(),
{
    if s.len() > 0 && chars::byte_len(s) > cap {
        chars::lemma_byte_len_concat(s, t);
        assert((s + t).skip(1) =~= s.skip(1) + t);
        lemma_recent_concat(s.skip(1), t, cap);
    }
}

impl Job {
    /// Whether the byte count is that of the buffer, and within the cap.
    pub closed spec fn wf(self) -> bool {
        self.bytes == chars::byte_len(self.buffer@) && self.bytes <= JOB_BUFFER_CAP
    }

    /// A running background job; it can be asked to die.
    pub fn background(id: usize, desc: String) -> (r: Self)
        ensures
            r.wf(),
            r@ == (JobV {
                id,
                desc: desc@,
                kind: JobKind::Background,
                state: StateV::Running,
                output: seq![],
                armed: true,
                group: None,
            }),
    {
        Job {
            id,
            desc,
            kind: JobKind::Background,
            state: JobState::Running,
            buffer: VecDeque::new(),
            bytes: 0,
            armed: true,
            group: None,
        }
    }

    /// A running foreground job; the shell waits for it.
    pub fn foreground(id: usize, desc: String) -> (r: Self)
        ensures
            r.wf(),
            r@ == (JobV {
                id,
                desc: desc@,
                kind: JobKind::Foreground,
                state: StateV::Running,
                output: seq![],
                armed: false,
                group: None,
            }),
    {
        Job {
            id,
            desc,
            kind: JobKind::Foreground,
            state: JobState::Running,
            buffer: VecDeque::new(),
            bytes: 0,
            armed: false,
            group: None,
        }
    }

    /// `running`, `stopped`, or the summary of how the job ended.
    pub fn status(&self) -> (r: String)
        ensures
            r@ == self@.state.label(),
    {
        self.state.label()
    }

    /// Marks the job as ended, with a summary of how.
    pub fn finish(&mut self, summary: &str)
        ensures
            final(self)@ == (JobV { state: StateV::Done(summary@), ..old(self)@ }),
            old(self).wf() ==> final(self).wf(),
    {
        self.state = JobState::Done(summary.to_owned());
    }

    /// Whether the job has ended.
    pub fn is_done(&self) -> (r: bool)
        ensures
            r == (self@.state is Done),
    {
        self.state.is_done()
    }

    /// Whether the job is suspended.
    pub fn is_stopped(&self) -> (r: bool)
        ensures
            r == (self@.state is Stopped),
    {
        match self.state {
            JobState::Stopped => true,
            _ => false,
        }
    }

    /// Records the process group that the job leads.
    pub fn set_pgid(&mut self, pgid: i32)
        ensures
            final(self)@ == (JobV { group: Some(pgid), ..old(self)@ }),
            old(self).wf() ==> final(self).wf(),
    {
        self.group = Some(pgid);
    }

    /// The process group that the job leads, if it was recorded.
    pub fn pgid(&self) -> (r: Option<i32>)
        ensures
            r == self@.group,
    {
        self.group
    }

    /// Suspends the job, unless it has ended.
    pub fn stop(&mut self)
        ensures
            final(self)@ == (JobV { state: stopped(old(self)@.state), ..old(self)@ }),
            old(self).wf() ==> final(self).wf(),
    {
        if !self.state.is_done() {
            self.state = JobState::Stopped;
        }
    }

    /// Resumes the job, if it is suspended.
    pub fn resume(&mut self)
        ensures
            final(self)@ == (JobV { state: resumed(old(self)@.state), ..old(self)@ }),
            old(self).wf() ==> final(self).wf(),
    {
        if self.is_stopped() {
            self.state = JobState::Running;
        }
    }

    /// Appends a line of output, and drops the oldest output where the cap is
    /// passed.
    pub fn push_line(&mut self, line: &str)
        requires
            old(self).wf(),
        ensures
            final(self).wf(),
            final(self)@ == (JobV {
                output: recent(old(self)@.output + line@ + seq!['\n'], JOB_BUFFER_CAP as nat),
                ..old(self)@
            }),
    {
        let v = text::chars_of(line);
        let mut i: usize = 0;
        proof {
            assert(self.buffer@ + v@.take(0) =~= self.buffer@);
        }
        while i < v.len()
            invariant
                i <= v@.len(),
                self.wf(),
                self@ == (JobV {
                    output: recent(old(self)@.output + v@.take(i as int), JOB_BUFFER_CAP as nat),
                    ..old(self)@
                }),
            decreases v@.len() - i,
        {
            let ghost before = old(self)@.output + v@.take(i as int);
            self.push_char(v[i]);
            proof {
                lemma_recent_concat(before, seq![v@[i as int]], JOB_BUFFER_CAP as nat);
                assert(before + seq![v@[i as int]] =~= old(self)@.output + v@.take(i + 1));
                assert(recent(before, JOB_BUFFER_CAP as nat).push(v@[i as int]) =~= recent(
                    before,
                    JOB_BUFFER_CAP as nat,
                ) + seq![v@[i as int]]);
            }
            i += 1;
        }
        assert(v@.take(i as int) =~= line@);
        let ghost before = old(self)@.output + line@;
        self.push_char('\n');
        proof {
            lemma_recent_concat(before, seq!['\n'], JOB_BUFFER_CAP as nat);
            assert(recent(before, JOB_BUFFER_CAP as nat).push('\n') =~= recent(
                before,
                JOB_BUFFER_CAP as nat,
            ) + seq!['\n']);
        }
    }

    /// Appends one character of output.
    fn push_char(&mut self, c: char)
        requires
            old(self).wf(),
        ensures
            final(self).wf(),
            final(self)@ == (JobV {
                output: recent(old(self)@.output.push(c), JOB_BUFFER_CAP as nat),
                ..old(self)@
            }),
    {
        let ghost full = self.buffer@.push(c);
        proof {
            assert(full =~= self.buffer@ + seq![c]);
            chars::lemma_byte_len_concat(self.buffer@, seq![c]);
            chars::lemma_byte_len_one(c);
        }
        self.buffer.push_back(c);
        self.bytes += text::char_len(c);
        while self.bytes > JOB_BUFFER_CAP
            invariant
                self.bytes == chars::byte_len(self.buffer@),
                recent(self.buffer@, JOB_BUFFER_CAP as nat) == recent(full, JOB_BUFFER_CAP as nat),
                self@ == (JobV { output: self.buffer@, ..old(self)@ }),
            decreases self.buffer@.len(),
        {
            proof {
                if self.buffer@.len() == 0 {
                    assert(chars::byte_len(self.buffer@) == 0);
                }
                chars::lemma_byte_len_cons(self.buffer@);
            }
            if let Some(old_char) = self.buffer.pop_front() {
                self.bytes -= text::char_len(old_char);
            }
        }
    }

    /// A copy of the output that was kept.
    pub fn output(&self) -> (r: String)
        ensures
            r@ == self@.output,
    {
        let mut out = String::new();
        let n: usize = self.buffer.len();
        let mut i: usize = 0;
        while i < n
            invariant
                n == self.buffer@.len(),
                i <= n,
                out@ == self.buffer@.take(i as int),
            decreases n - i,
        {
            out.push(self.buffer[i]);
            assert(self.buffer@.take(i + 1) =~= self.buffer@.take(i as int).push(
                self.buffer@[i as int],
            ));
            i += 1;
        }
        assert(self.buffer@.take(n as int) =~= self.buffer@);
        out
    }

    /// Takes the one request to die that a background job has; `false` when it is
    /// spent, and for a foreground job.
    pub fn kill(&mut self) -> (r: bool)
        ensures
            r == old(self)@.armed,
            final(self)@ == (JobV { armed: false, ..old(self)@ }),
            old(self).wf() ==> final(self).wf(),
    {
        let r = self.armed;
        self.armed = false;
        r
    }
}

/// The state after a suspend.
pub open spec fn stopped(s: StateV) -> StateV {
    if s is Done {
        s
    } else {
        StateV::Stopped
    }
}

/// The state after a resume.
pub open spec fn resumed(s: StateV) -> StateV {
    if s is Stopped {
        StateV::Running
    } else {
        s
    }
}

/// Nothing leads out of the end, and a resume undoes a suspend of a running job.
pub proof fn done_is_final(s: StateV)
    ensures
        s is Done ==> stopped(s) == s && resumed(s) == s,
        s is Running ==> resumed(stopped(s)) == s,
{
}

/// A job as named on the command line.
#[derive(Clone, Copy, Debug, PartialEq, Eq, Structural)]
pub enum JobSpec {
    /// The current job: `%%`, `%+`, or no operand.
    Current,
    /// The job of a number: `%n` or `n`.
    Id(usize),
}

/// The job that `token` names: `%%` and `%+` the current one, `%n` and `n` the one of
/// that number. Nothing else names a job.
pub open spec fn named_job(token: Seq<char>) -> Option<JobSpec> {
    if token == "%%"@ || token == "%+"@ {
        Some(JobSpec::Current)
    } else {
        let digits = if token.len() > 0 && token[0] == '%' {
            token.skip(1)
        } else {
            token
        };
        if chars::all_digits(digits) && chars::value(digits) <= usize::MAX {
            Some(JobSpec::Id(chars::value(digits) as usize))
        } else {
            None
        }
    }
}

impl JobSpec {
    /// Reads one operand; `None` for what names no job.
    pub fn parse(token: &str) -> (r: Option<JobSpec>)
        ensures
            r == named_job(token@),
    {
        if text::eq(token, "%%") || text::eq(token, "%+") {
            return Some(JobSpec::Current);
        }
        let v = text::chars_of(token);
        let digits: &[char] = if v.len() > 0 && v[0] == '%' { text::from(&v, 1) } else { &v };
        if digits.len() > 0 && digits[0] == '+' {
            assert(!chars::is_digit(digits@[0]));
            return None;
        }
        match text::parse_usize(digits) {
            Some(n) => Some(JobSpec::Id(n)),
            None => None,
        }
    }
}

/// Where the last job stands that satisfies `f`.
pub open spec fn latest(table: Seq<JobV>, f: spec_fn(JobV) -> bool) -> Option<int>
    decreases table.len(),
{
    if table.len() == 0 {
        None
    } else if f(table.last()) {
        Some(table.len() - 1)
    } else {
        latest(table.drop_last(), f)
    }
}

pub open spec fn suspended() -> spec_fn(JobV) -> bool {
    |j: JobV| j.state is Stopped
}

pub open spec fn active() -> spec_fn(JobV) -> bool {
    |j: JobV| !(j.state is Done)
}

/// Where the current job stands: the last suspended one, else the last that has not
/// ended.
pub open spec fn current(table: Seq<JobV>) -> Option<int> {
    match latest(table, suspended()) {
        Some(i) => Some(i),
        None => latest(table, active()),
    }
}

/// The current job, if any job is active.
pub fn current_job(table: &[Job]) -> (r: Option<&Job>)
    ensures
        match current(models(table@)) {
            Some(i) => 0 <= i < table@.len() && r == Some(&table@[i]),
            None => r is None,
        },
{
    let n: usize = table.len();
    let mut i: usize = n;
    assert(models(table@).take(n as int) =~= models(table@));
    while i > 0
        invariant
            n == table@.len(),
            i <= n,
            latest(models(table@), suspended()) == latest(
                models(table@).take(i as int),
                suspended(),
            ),
        decreases i,
    {
        i -= 1;
        assert(models(table@).take(i + 1).drop_last() =~= models(table@).take(i as int));
        assert(models(table@).take(i + 1).last() == table@[i as int]@);
        if table[i].is_stopped() {
            return Some(&table[i]);
        }
    }
    assert(latest(models(table@).take(0), suspended()) is None);
    let mut i: usize = n;
    while i > 0
        invariant
            n == table@.len(),
            i <= n,
            latest(models(table@), suspended()) is None,
            latest(models(table@), active()) == latest(models(table@).take(i as int), active()),
        decreases i,
    {
        i -= 1;
        assert(models(table@).take(i + 1).drop_last() =~= models(table@).take(i as int));
        assert(models(table@).take(i + 1).last() == table@[i as int]@);
        if !table[i].is_done() {
            return Some(&table[i]);
        }
    }
    assert(latest(models(table@).take(0), active()) is None);
    None
}

/// Where the first job of number `id` stands.
pub open spec fn first_of(table: Seq<JobV>, id: usize) -> Option<int>
    decreases table.len(),
{
    if table.len() == 0 {
        None
    } else if table[0].id == id {
        Some(0int)
    } else {
        match first_of(table.skip(1), id) {
            Some(i) => Some(i + 1),
            None => None,
        }
    }
}

/// Where the job stands that `spec` names, or why there is none.
pub open spec fn resolved(table: Seq<JobV>, spec: Option<JobSpec>) -> Result<int, Seq<char>> {
    match spec {
        Some(JobSpec::Id(id)) => match first_of(table, id) {
            Some(i) => Ok(i),
            None => Err("no such job: "@ + chars::dec(id as nat)),
        },
        _ => match current(table) {
            Some(i) => Ok(i),
            None => Err("no current job"@),
        },
    }
}

/// The job that `spec` names; no operand names the current job.
pub fn resolve_job(table: &[Job], spec: Option<JobSpec>) -> (r: Result<&Job, String>)
    ensures
        match resolved(models(table@), spec) {
            Ok(i) => 0 <= i < table@.len() && r == Ok::<&Job, String>(&table@[i]),
            Err(e) => r matches Err(m) && m@ == e,
        },
{
    match spec {
        Some(JobSpec::Id(id)) => {
            let n: usize = table.len();
            let mut i: usize = 0;
            assert(models(table@).skip(0) =~= models(table@));
            while i < n
                invariant
                    n == table@.len(),
                    i <= n,
                    spec == Some(JobSpec::Id(id)),
                    first_of(models(table@), id) == (match first_of(
                        models(table@).skip(i as int),
                        id,
                    ) {
                        Some(k) => Some(k + i),
                        None => None,
                    }),
                decreases n - i,
            {
                assert(models(table@).skip(i as int)[0] == table@[i as int]@);
                if table[i].id == id {
                    return Ok(&table[i]);
                }
                assert(models(table@).skip(i as int).skip(1) =~= models(table@).skip(i + 1));
                i += 1;
            }
            let mut e = "no such job: ".to_owned();
            text::push_usize(&mut e, id);
            Err(e)
        },
        _ => match current_job(table) {
            Some(j) => Ok(j),
            None => Err("no current job".to_owned()),
        },
    }
}

/// One line of the listing.
pub open spec fn listed(j: JobV) -> Seq<char> {
    "["@ + chars::dec(j.id as nat) + "] "@ + j.state.label() + " — "@ + j.desc
}

/// One line `[id] state — description` per job, in the order of the table.
pub fn format_listing(table: &[Job]) -> (r: Vec<String>)
    ensures
        r@.len() == table@.len(),
        forall|i: int| 0 <= i < r@.len() ==> (#[trigger] r@[i])@ == listed(table@[i]@),
{
    let mut out: Vec<String> = Vec::new();
    let n: usize = table.len();
    let mut i: usize = 0;
    while i < n
        invariant
            n == table@.len(),
            i <= n,
            out@.len() == i,
            forall|k: int| 0 <= k < i ==> (#[trigger] out@[k])@ == listed(table@[k]@),
        decreases n - i,
    {
        let mut line = "[".to_owned();
        text::push_usize(&mut line, table[i].id);
        line.push_str("] ");
        line.push_str(table[i].status().as_str());
        line.push_str(" — ");
        line.push_str(table[i].desc.as_str());
        out.push(line);
        i += 1;
    }
    out
}

/// Law: a job is named by its number, with or without a percent sign; two signs, and a sign
/// and a plus, name the current one.
pub proof fn jobs_are_named_by_their_number(n: usize)
    ensures
        named_job(chars::dec(n as nat)) == Some(JobSpec::Id(n)),
        named_job(seq!['%'] + chars::dec(n as nat)) == Some(JobSpec::Id(n)),
        named_job(seq!['%', '%']) == Some(JobSpec::Current),
        named_job(seq!['%', '+']) == Some(JobSpec::Current),
        named_job(seq![]) is None,
{
    reveal_strlit("%%");
    reveal_strlit("%+");
    let d = chars::dec(n as nat);
    chars::lemma_dec_digits(n as nat);
    assert(chars::is_digit(d[0]));
    let p = seq!['%'] + d;
    assert(p.skip(1) =~= d);
    assert(p[1] == d[0]);
    assert(seq!['%', '%'] =~= "%%"@);
    assert(seq!['%', '+'] =~= "%+"@);
    assert(d != "%%"@ && d != "%+"@);
    assert(p != "%%"@ && p != "%+"@);
}

proof fn lemma_latest(table: Seq<JobV>, f: spec_fn(JobV) -> bool)
    ensures
        match latest(table, f) {
            Some(i) => 0 <= i < table.len() && f(table[i]) && forall|j: int|
                i < j < table.len() ==> !f(#[trigger] table[j]),
            None => forall|j: int| 0 <= j < table.len() ==> !f(#[trigger] table[j]),
        },
    decreases table.len(),
{
    if table.len() > 0 && !f(table.last()) {
        let t = table.drop_last();
        lemma_latest(t, f);
        assert forall|j: int| 0 <= j < table.len() implies (#[trigger] table[j]) == (if j < t.len() {
            t[j]
        } else {
            table.last()
        }) by {}
    }
}

/// Law: the current job is the last that is suspended; where none is, the last that has not
/// ended; where all have ended, there is none.
pub proof fn the_current_job_is_the_last_suspended(table: Seq<JobV>)
    ensures
        match current(table) {
            Some(i) => {
                &&& 0 <= i < table.len()
                &&& table[i].state is Stopped ==> forall|j: int|
                    i < j < table.len() ==> !((#[trigger] table[j]).state is Stopped)
                &&& !(table[i].state is Stopped) ==> {
                    &&& !(table[i].state is Done)
                    &&& forall|j: int|
                        0 <= j < table.len() ==> !((#[trigger] table[j]).state is Stopped)
                    &&& forall|j: int| i < j < table.len() ==> (#[trigger] table[j]).state is Done
                }
            },
            None => forall|j: int| 0 <= j < table.len() ==> (#[trigger] table[j]).state is Done,
        },
{
    lemma_latest(table, suspended());
    lemma_latest(table, active());
    assert(forall|j: JobV| #[trigger] suspended()(j) <==> j.state is Stopped);
    assert(forall|j: JobV| #[trigger] active()(j) <==> !(j.state is Done));
    match latest(table, suspended()) {
        Some(i) => {
            assert forall|j: int| i < j < table.len() implies !(
            (#[trigger] table[j]).state is Stopped) by {
                assert(!suspended()(table[j]));
            }
        },
        None => {
            assert forall|j: int| 0 <= j < table.len() implies !(
            (#[trigger] table[j]).state is Stopped) by {
                assert(!suspended()(table[j]));
            }
            match latest(table, active()) {
                Some(i) => {
                    assert forall|j: int| i < j < table.len() implies (
                    #[trigger] table[j]).state is Done by {
                        assert(!active()(table[j]));
                    }
                },
                None => {
                    assert forall|j: int| 0 <= j < table.len() implies (
                    #[trigger] table[j]).state is Done by {
                        assert(!active()(table[j]));
                    }
                },
            }
        },
    }
}

/// Law: a number leads to the first job that has it, whatever its state, and to none where
/// no job has it; without an operand the current job is meant.
pub proof fn numbers_lead_to_their_job(table: Seq<JobV>, id: usize)
    ensures
        match resolved(table, Some(JobSpec::Id(id))) {
            Ok(i) => 0 <= i < table.len() && table[i].id == id && forall|j: int|
                0 <= j < i ==> (#[trigger] table[j]).id != id,
            Err(e) => (forall|j: int| 0 <= j < table.len() ==> (#[trigger] table[j]).id != id) && e
                == "no such job: "@ + chars::dec(id as nat),
        },
        resolved(table, None) == resolved(table, Some(JobSpec::Current)),
        current(table) matches Some(i) ==> resolved(table, None) == Ok::<int, Seq<char>>(i),
        current(table) is None ==> resolved(table, None) is Err,
{
    lemma_first_of(table, id);
}

proof fn lemma_first_of(table: Seq<JobV>, id: usize)
    ensures
        match first_of(table, id) {
            Some(i) => 0 <= i < table.len() && table[i].id == id && forall|j: int|
                0 <= j < i ==> (#[trigger] table[j]).id != id,
            None => forall|j: int| 0 <= j < table.len() ==> (#[trigger] table[j]).id != id,
        },
    decreases table.len(),
{
    if table.len() > 0 && table[0].id != id {
        let t = table.skip(1);
        lemma_first_of(t, id);
        assert forall|j: int| 0 < j < table.len() implies (#[trigger] table[j]) == t[j - 1] by {}
    }
}

/// Law: a line of the listing begins with the job's number and state and ends in its
/// description.
pub proof fn listings_tell_number_state_and_description(j: JobV)
    ensures
        chars::starts_with(listed(j), "["@ + chars::dec(j.id as nat) + "] "@ + j.state.label()),
        chars::ends_with(listed(j), j.desc),
{
    let l = listed(j);
    let h = "["@ + chars::dec(j.id as nat) + "] "@ + j.state.label();
    assert(l.subrange(0, h.len() as int) =~= h);
    assert(l.subrange(l.len() - j.desc.len(), l.len() as int) =~= j.desc);
}

} // verus!
