//! What a command line asks for, and how a one-shot run reports its answer.
use vstd::prelude::*;
use crate::{chars, json, text};

verus! {

/// How a one-shot run prints its answer.
#[derive(Clone, Copy, Debug, PartialEq, Eq, Structural)]
pub enum OutputFormat {
    Text,
    Json,
}

/// The line that reports an answer.
pub open spec fn ok_line(output: Seq<char>) -> Seq<char> {
    "{\"ok\":true,\"output\":"@ + json::quoted(output) + "}"@
}

/// The line that reports a failure.
pub open spec fn error_line(error: Seq<char>) -> Seq<char> {
    "{\"ok\":false,\"error\":"@ + json::quoted(error) + "}"@
}

/// Reports an answer as one line of JSON, `{"ok":true,"output":"…"}`.
pub fn json_ok(output: &str) -> (r: String)
    ensures
        r@ == ok_line(output@),
{
    let mut out = "{\"ok\":true,\"output\":".to_owned();
    out.push_str(json::quote(output).as_str());
    out.push_str("}");
    out
}

/// Reports a failure as one line of JSON, `{"ok":false,"error":"…"}`.
pub fn json_ok_err(error: &str) -> (r: String)
    ensures
        r@ == error_line(error@),
{
    let mut out = "{\"ok\":false,\"error\":".to_owned();
    out.push_str(json::quote(error).as_str());
    out.push_str("}");
    out
}

/// Law: an answer and a failure are reported on one line, whatever they hold.
pub proof fn reports_are_one_line(text: Seq<char>)
    ensures
        json::one_line(ok_line(text)),
        json::one_line(error_line(text)),
{
    reveal_strlit("{\"ok\":true,\"output\":");
    reveal_strlit("{\"ok\":false,\"error\":");
    reveal_strlit("}");
    json::quoted_text_is_one_line(text);
    let ok = "{\"ok\":true,\"output\":"@;
    let err = "{\"ok\":false,\"error\":"@;
    let q = json::quoted(text);
    assert forall|i: int| 0 <= i < ok_line(text).len() implies (#[trigger] ok_line(text)[i]) as nat
        >= 32 by {
        if ok.len() <= i < ok.len() + q.len() {
            assert(ok_line(text)[i] == q[i - ok.len()]);
        }
    }
    assert forall|i: int| 0 <= i < error_line(text).len() implies (#[trigger] error_line(
        text,
    )[i]) as nat >= 32 by {
        if err.len() <= i < err.len() + q.len() {
            assert(error_line(text)[i] == q[i - err.len()]);
        }
    }
}

/// The operands of a script without a doubled script path: some systems hand the
/// path over twice.
pub open spec fn script_operands(argv: Seq<String>) -> Seq<String> {
    if argv.len() >= 2 && argv[0]@ == argv[1]@ {
        argv.skip(1)
    } else {
        argv
    }
}

/// Drops the script path where it comes twice in front.
pub fn normalize_script_argv(argv: &[String]) -> (r: &[String])
    ensures
        r@ == script_operands(argv@),
{
    if argv.len() >= 2 && text::eq(argv[0].as_str(), argv[1].as_str()) {
        vstd::slice::slice_subrange(argv, 1, argv.len())
    } else {
        argv
    }
}

/// Whether the startup phases are timed, given the variable that asks for it.
pub fn timing_on(var: Option<&str>) -> (r: bool)
    ensures
        r == (var matches Some(v) && v@.len() > 0 && v@ != "0"@),
{
    match var {
        Some(v) => v.unicode_len() > 0 && !text::eq(v, "0"),
        None => false,
    }
}

/// The name of the backend that the command line asks for; `--local` outranks
/// `--backend`.
pub open spec fn asked_backend(local: bool, backend: Seq<char>) -> Seq<char> {
    if local {
        "local"@
    } else {
        backend
    }
}

/// The names, as a list in a message.
pub open spec fn name_list(names: Seq<&str>) -> Seq<char>
    decreases names.len(),
{
    if names.len() == 0 {
        ""@
    } else if names.len() == 1 {
        names[0]@
    } else {
        name_list(names.drop_last()) + ", "@ + names.last()@
    }
}

/// Picks the backend among those that there are, by its place in the list; an
/// unknown name is refused with the list.
pub fn pick_backend(local: bool, backend: &str, available: &[&str]) -> (r: Result<usize, String>)
    ensures
        match r {
            Ok(i) => {
                &&& i < available@.len()
                &&& available@[i as int]@ == asked_backend(local, backend@)
                &&& forall|k: int|
                    0 <= k < i ==> #[trigger] available@[k]@ != asked_backend(local, backend@)
            },
            Err(e) => {
                &&& forall|k: int|
                    0 <= k < available@.len() ==> #[trigger] available@[k]@ != asked_backend(
                        local,
                        backend@,
                    )
                &&& e@ == "unknown backend: "@ + asked_backend(local, backend@) + " (available: "@
                    + name_list(available@) + ")"@
            },
        },
{
    let name: &str = if local { "local" } else { backend };
    let n: usize = available.len();
    let mut i: usize = 0;
    let mut list = "".to_owned();
    assert(name_list(available@.take(0)) == ""@);
    while i < n
        invariant
            n == available@.len(),
            i <= n,
            name@ == asked_backend(local, backend@),
            list@ == name_list(available@.take(i as int)),
            forall|k: int| 0 <= k < i ==> #[trigger] available@[k]@ != name@,
        decreases n - i,
    {
        if text::eq(available[i], name) {
            return Ok(i);
        }
        assert(available@.take(i + 1).drop_last() =~= available@.take(i as int));
        if i > 0 {
            list.push_str(", ");
            list.push_str(available[i]);
        } else {
            list = available[i].to_owned();
        }
        assert(list@ == name_list(available@.take(i + 1)));
        i += 1;
    }
    assert(available@.take(n as int) =~= available@);
    let mut e = "unknown backend: ".to_owned();
    e.push_str(name);
    e.push_str(" (available: ");
    e.push_str(list.as_str());
    e.push_str(")");
    Err(e)
}

/// The parts of a command line that decide what the program does.
#[derive(Debug)]
pub struct Options {
    pub command: Option<String>,
    pub update: bool,
    pub skill_fetch: Option<String>,
    pub skill_search: Option<String>,
    pub detect_local_model: bool,
    pub coordinator: bool,
    pub run_id: Option<String>,
    pub script_argv: Vec<String>,
}

/// What a command line asks for.
#[derive(Debug)]
pub enum Launch<'a> {
    /// Upgrade the program.
    Update,
    /// Import a skill.
    SkillFetch(&'a String),
    /// Search the skills.
    SkillSearch(&'a String),
    /// Pick a local model for this machine.
    DetectLocalModel,
    /// Work unattended on a prompt, under a durable id.
    Coordinator { prompt: &'a String, run_id: &'a String },
    /// A coordinator without an id is refused.
    MissingRunId,
    /// Answer one prompt.
    OneShot(&'a String),
    /// Run a script with its arguments.
    Script { path: &'a String, args: &'a [String] },
    /// Talk to the user.
    Interactive,
}

/// Whether `l` is what the options ask for: the special requests first, in their
/// order, then a prompt, then a script, and else the conversation.
pub open spec fn asks_for(o: Options, l: Launch<'_>) -> bool {
    if o.update {
        l is Update
    } else if o.skill_fetch is Some {
        l matches Launch::SkillFetch(x) && *x == o.skill_fetch->0
    } else if o.skill_search is Some {
        l matches Launch::SkillSearch(x) && *x == o.skill_search->0
    } else if o.detect_local_model {
        l is DetectLocalModel
    } else if o.command is Some {
        if !o.coordinator {
            l matches Launch::OneShot(x) && *x == o.command->0
        } else {
            match o.run_id {
                Some(id) => l matches Launch::Coordinator { prompt, run_id } && *prompt
                    == o.command->0
                    && *run_id == id,
                None => l is MissingRunId,
            }
        }
    } else if o.script_argv@.len() > 0 {
        l matches Launch::Script { path, args } && seq![*path] + args@ == script_operands(
            o.script_argv@,
        )
    } else {
        l is Interactive
    }
}

impl Options {
    /// What the command line asks for.
    pub fn launch(&self) -> (r: Launch<'_>)
        ensures
            asks_for(*self, r),
    {
        if self.update {
            return Launch::Update;
        }
        if let Some(s) = &self.skill_fetch {
            return Launch::SkillFetch(s);
        }
        if let Some(s) = &self.skill_search {
            return Launch::SkillSearch(s);
        }
        if self.detect_local_model {
            return Launch::DetectLocalModel;
        }
        if let Some(p) = &self.command {
            if !self.coordinator {
                return Launch::OneShot(p);
            }
            return match &self.run_id {
                Some(id) => Launch::Coordinator { prompt: p, run_id: id },
                None => Launch::MissingRunId,
            };
        }
        let argv = normalize_script_argv(self.script_argv.as_slice());
        if argv.len() == 0 {
            return Launch::Interactive;
        }
        let args = vstd::slice::slice_subrange(argv, 1, argv.len());
        assert(seq![argv@[0]] + args@ =~= argv@);
        Launch::Script { path: &argv[0], args }
    }

    /// Whether the run talks to the user, so that slow connections can wait.
    pub fn interactive(&self) -> (r: bool)
        ensures
            r == (self.command is None && self.script_argv@.len() == 0),
    {
        match self.command {
            Some(_) => false,
            None => self.script_argv.len() == 0,
        }
    }
}

/// How a one-shot run ends: the text for standard output, whether it is markdown
/// still to be rendered, or an error to be reported.
#[derive(Debug)]
pub enum Report {
    /// Print this markdown.
    Markdown(String),
    /// Print this line.
    Line(String),
    /// Print this line and leave with a failure.
    FailureLine(String),
    /// Leave with this error.
    Failure(String),
}

/// Reports the outcome of a one-shot run.
pub fn report(outcome: Result<&str, &str>, format: OutputFormat) -> (r: Report)
    ensures
        match (outcome, format) {
            (Ok(a), OutputFormat::Text) => r matches Report::Markdown(t) && t@ == a@,
            (Ok(a), OutputFormat::Json) => r matches Report::Line(t) && t@ == ok_line(a@),
            (Err(e), OutputFormat::Text) => r matches Report::Failure(t) && t@ == e@,
            (Err(e), OutputFormat::Json) => r matches Report::FailureLine(t) && t@ == error_line(e@),
        },
{
    match outcome {
        Ok(a) => match format {
            OutputFormat::Text => Report::Markdown(a.to_owned()),
            OutputFormat::Json => Report::Line(json_ok(a)),
        },
        Err(e) => match format {
            OutputFormat::Text => Report::Failure(e.to_owned()),
            OutputFormat::Json => Report::FailureLine(json_ok_err(e)),
        },
    }
}

/// Law: a report says whether it went well and carries the text as a JSON string; the two
/// kinds of reports never coincide.
pub proof fn reports_carry_their_text(output: Seq<char>, error: Seq<char>)
    ensures
        chars::starts_with(ok_line(output), "{\"ok\":true,"@),
        chars::starts_with(error_line(error), "{\"ok\":false,"@),
        chars::contains_str(ok_line(output), json::quoted(output)),
        chars::contains_str(error_line(error), json::quoted(error)),
        ok_line(output) != error_line(error),
{
    reveal_strlit("{\"ok\":true,\"output\":");
    reveal_strlit("{\"ok\":false,\"error\":");
    reveal_strlit("{\"ok\":true,");
    reveal_strlit("{\"ok\":false,");
    let a = "{\"ok\":true,\"output\":"@;
    let b = "{\"ok\":false,\"error\":"@;
    chars::lemma_holds_part(a, json::quoted(output), "}"@);
    chars::lemma_holds_part(b, json::quoted(error), "}"@);
    let x = ok_line(output);
    let y = error_line(error);
    assert(x.subrange(0, 11) =~= "{\"ok\":true,"@);
    assert(y.subrange(0, 12) =~= "{\"ok\":false,"@);
    assert(x[6] == 't' && y[6] == 'f');
}

/// Law: a script path that comes twice in front is taken once; nothing else is dropped.
pub proof fn only_a_doubled_path_is_dropped(path: String, rest: Seq<String>)
    ensures
        rest.len() == 0 || rest[0]@ != path@ ==> script_operands(seq![path] + rest) == seq![path]
            + rest,
        script_operands(seq![path, path] + rest) == seq![path] + rest,
        asked_backend(true, path@) == "local"@,
        asked_backend(false, path@) == path@,
{
    let one = seq![path] + rest;
    if rest.len() > 0 {
        assert(one[1] == rest[0]);
    }
    let two = seq![path, path] + rest;
    assert(two.skip(1) =~= seq![path] + rest);
}

/// Law: a list of names holds every name.
pub proof fn lists_hold_every_name(names: Seq<&str>, i: int)
    requires
        0 <= i < names.len(),
    ensures
        chars::contains_str(name_list(names), names[i]@),
    decreases names.len(),
{
    if names.len() == 1 {
        chars::lemma_holds_part(seq![], names[0]@, seq![]);
        assert(Seq::<char>::empty() + names[0]@ + Seq::<char>::empty() =~= names[0]@);
    } else {
        let before = name_list(names.drop_last());
        if i == names.len() - 1 {
            chars::lemma_holds_part(before + ", "@, names[i]@, seq![]);
            assert(before + ", "@ + names[i]@ + Seq::<char>::empty() =~= name_list(names));
        } else {
            assert(names.drop_last()[i] == names[i]);
            lists_hold_every_name(names.drop_last(), i);
            chars::lemma_holds_part(seq![], before, ", "@ + names.last()@);
            assert(Seq::<char>::empty() + before + (", "@ + names.last()@) =~= name_list(names));
            chars::lemma_contains_within(name_list(names), before, names[i]@);
        }
    }
}

/// Law: an upgrade goes before everything else, then the skills, then the choice of a model;
/// a prompt goes before a script. A prompt is answered unattended only under an id. Only
/// where nothing is asked for does the conversation begin.
pub proof fn requests_go_before_the_conversation(o: Options, l: Launch<'_>)
    requires
        asks_for(o, l),
    ensures
        l is Update <==> o.update,
        l matches Launch::SkillFetch(x) ==> o.skill_fetch == Some(*x),
        l is SkillFetch <==> o.skill_fetch is Some && !o.update,
        l matches Launch::SkillSearch(x) ==> o.skill_search == Some(*x),
        l is SkillSearch <==> o.skill_search is Some && !o.update && o.skill_fetch is None,
        l is DetectLocalModel <==> o.detect_local_model && !o.update && o.skill_fetch is None
            && o.skill_search is None,
        l matches Launch::OneShot(x) ==> o.command == Some(*x) && !o.coordinator,
        l matches Launch::Coordinator { prompt, run_id } ==> o.command == Some(*prompt)
            && o.run_id == Some(*run_id) && o.coordinator,
        l is MissingRunId ==> o.coordinator && o.run_id is None && o.command is Some,
        o.command is Some ==> !(l is Script) && !(l is Interactive),
        l is Script ==> o.script_argv@.len() > 0 && o.command is None,
        l is Interactive ==> o.command is None && o.script_argv@.len() == 0 && !o.update
            && !o.detect_local_model && o.skill_fetch is None && o.skill_search is None,
{
}

} // verus!
