//! The activity stream: how tool calls, their results and the running totals of a
//! session are shown.
use vstd::prelude::*;
use crate::backend::{CallV, ResultV, ToolCall, ToolResult};
use crate::chars;
use crate::json::{self, Json, JsonV};
use crate::md;
use crate::text;
use crate::width;

verus! {

/// Frames of the spinner of a running tool.
pub const TOOL_FRAMES: [&'static str; 10] = ["⠋", "⠙", "⠹", "⠸", "⠼", "⠴", "⠦", "⠧", "⠇", "⠏"];

/// Columns to the left of the description on an animated line: the indent, the
/// spinner and the space after it.
pub const PREFIX_COLS: usize = 4;

/// What `{:?}` writes for a string: the text in quotes, with escapes.
pub uninterp spec fn debug_text(s: Seq<char>) -> Seq<char>;

/// Formats a string with `{:?}` (`impl Debug for str`). The result depends on the
/// text alone; how each character is escaped is not stated.
#[verifier::external_body]
fn debug_quote(s: &str) -> (r: String)
    ensures
        r@ == debug_text(s@),
{
    format!("{s:?}")
}

/// `s` on one line: every run of whitespace becomes one space, the ends are
/// trimmed.
pub open spec fn flattened(s: Seq<char>) -> Seq<char> {
    chars::join(chars::words(s), " "@)
}

fn flat(v: &[char]) -> (r: Vec<char>)
    ensures
        r@ == flattened(v@),
{
    let space = text::chars_of(" ");
    text::join(&text::words(v), &space)
}

/// Collapses a description to a single line.
pub fn flatten_ws(s: &str) -> (r: String)
    ensures
        r@ == flattened(s@),
{
    let v = text::chars_of(s);
    text::string_of(&flat(&v))
}

/// The string member `key`, or `default`.
pub open spec fn arg_or(a: JsonV, key: Seq<char>, default: Seq<char>) -> Seq<char> {
    match json::member_text(a, key) {
        Some(s) => s,
        None => default,
    }
}

fn arg<'a>(a: &'a Json, key: &str, default: &'a str) -> (r: &'a str)
    ensures
        r@ == arg_or(a.view(), key@, default@),
{
    match a.str_member(key) {
        Some(s) => s,
        None => default,
    }
}

/// Bytes of the string member `content`.
pub open spec fn content_bytes(a: JsonV) -> nat {
    match json::member_text(a, "content"@) {
        Some(s) => chars::byte_len(s),
        None => 0,
    }
}

fn content_len(a: &Json) -> (r: usize)
    ensures
        r == content_bytes(a.view()),
{
    match a.str_member("content") {
        Some(s) => text::byte_len(s),
        None => 0,
    }
}

/// The strings among `items`, in order.
pub open spec fn strings(items: Seq<JsonV>) -> Seq<Seq<char>>
    decreases items.len(),
{
    if items.len() == 0 {
        seq![]
    } else {
        match items.last() {
            JsonV::Str(s) => strings(items.drop_last()).push(s),
            _ => strings(items.drop_last()),
        }
    }
}

/// The string arguments of a program call, without a first one that repeats the
/// program.
pub open spec fn program_args(a: JsonV) -> Seq<Seq<char>> {
    let given = match json::member(a, "args"@) {
        Some(JsonV::Array(items)) => strings(items),
        _ => seq![],
    };
    if given.len() > 0 && given[0] == arg_or(a, "program"@, "?"@) {
        given.skip(1)
    } else {
        given
    }
}

/// The command line of a program call.
pub open spec fn command_line(a: JsonV) -> Seq<char> {
    chars::trim(arg_or(a, "program"@, "?"@) + " "@ + chars::join(program_args(a), " "@))
}

fn string_items(items: &Vec<Json>) -> (r: Vec<Vec<char>>)
    ensures
        text::views(r@) == strings(Json::Array(*items).view()->Array_0),
{
    let mut out: Vec<Vec<char>> = Vec::new();
    let mut i: usize = 0;
    let ghost s = Json::Array(*items).view()->Array_0;
    assert(text::views(out@) =~= strings(s.take(0)));
    while i < items.len()
        invariant
            i <= items@.len(),
            s == Json::Array(*items).view()->Array_0,
            text::views(out@) == strings(s.take(i as int)),
        decreases items@.len() - i,
    {
        assert(s[i as int] == items@[i as int].view());
        assert(s.take(i + 1).drop_last() =~= s.take(i as int));
        let ghost before = out@;
        if let Json::Str(x) = &items[i] {
            out.push(text::chars_of(x.as_str()));
            assert(text::views(out@) =~= text::views(before).push(x@));
        }
        i += 1;
    }
    assert(s.take(i as int) =~= s);
    out
}

fn command(a: &Json) -> (r: Vec<char>)
    ensures
        r@ == command_line(a.view()),
{
    let program = text::chars_of(arg(a, "program", "?"));
    let mut given: Vec<Vec<char>> = Vec::new();
    assert(text::views(given@) =~= seq![]);
    if let Some(v) = a.get("args") {
        if let Json::Array(items) = v {
            given = string_items(items);
        }
    }
    let ghost g0 = text::views(given@);
    if given.len() > 0 && text::same(&given[0], &program) {
        let _ = given.remove(0);
        assert(text::views(given@) =~= g0.skip(1));
    }
    assert(text::views(given@) == program_args(a.view()));
    let space = text::chars_of(" ");
    let mut line: Vec<char> = Vec::new();
    text::extend(&mut line, &program);
    text::extend_str(&mut line, " ");
    text::extend(&mut line, &text::join(&given, &space));
    assert(Seq::<char>::empty() + program@ =~= program@);
    text::to_vec(text::trim(&line))
}

/// A target in the style `verb source → destination`.
pub open spec fn moved(a: JsonV, verb: Seq<char>) -> Seq<char> {
    verb + arg_or(a, "src"@, "?"@) + " → "@ + arg_or(a, "dst"@, "?"@)
}

fn moving(a: &Json, verb: &str) -> (r: String)
    ensures
        r@ == moved(a.view(), verb@),
{
    let mut out = verb.to_owned();
    out.push_str(arg(a, "src", "?"));
    out.push_str(" → ");
    out.push_str(arg(a, "dst", "?"));
    out
}

/// A target in the style `verb path (n bytes)`.
pub open spec fn sized(a: JsonV, verb: Seq<char>) -> Seq<char> {
    verb + arg_or(a, "path"@, "?"@) + " ("@ + chars::dec(content_bytes(a)) + " bytes)"@
}

fn sizing(a: &Json, verb: &str) -> (r: String)
    ensures
        r@ == sized(a.view(), verb@),
{
    let mut out = verb.to_owned();
    out.push_str(arg(a, "path", "?"));
    out.push_str(" (");
    text::push_usize(&mut out, content_len(a));
    out.push_str(" bytes)");
    out
}

/// The non-empty string member `key`.
pub open spec fn filled(a: JsonV, key: Seq<char>) -> Option<Seq<char>> {
    match json::member_text(a, key) {
        Some(s) => if s.len() > 0 {
            Some(s)
        } else {
            None
        },
        None => None,
    }
}

fn filled_arg<'a>(a: &'a Json, key: &str) -> (r: Option<&'a str>)
    ensures
        match r {
            Some(s) => filled(a.view(), key@) == Some(s@),
            None => filled(a.view(), key@) is None,
        },
{
    match a.str_member(key) {
        Some(s) => {
            let v = text::chars_of(s);
            if v.len() > 0 {
                Some(s)
            } else {
                None
            }
        },
        None => None,
    }
}

/// What a job number argument shows as.
pub open spec fn job_text(a: JsonV) -> Seq<char> {
    match json::member(a, "job"@) {
        Some(v) => match json::unsigned_of(v) {
            Some(n) => chars::dec(n),
            None => "?"@,
        },
        None => "?"@,
    }
}

/// A tool call for humans: what it does and to what.
pub open spec fn described(c: CallV) -> Seq<char> {
    let a = c.args;
    if c.name == "run_program"@ {
        command_line(a)
    } else if c.name == "run_interactive"@ {
        command_line(a) + " (interactive — your terminal)"@
    } else if c.name == "read_file"@ {
        "read "@ + arg_or(a, "path"@, "?"@)
    } else if c.name == "write_file"@ {
        sized(a, "write "@)
    } else if c.name == "edit_file"@ {
        "edit "@ + arg_or(a, "path"@, "?"@) + " ("@ + debug_text(arg_or(a, "pattern"@, "?"@)) + ")"@
    } else if c.name == "append_file"@ {
        sized(a, "append "@)
    } else if c.name == "copy_file"@ {
        moved(a, "copy "@)
    } else if c.name == "rename_file"@ {
        moved(a, "rename "@)
    } else if c.name == "list_dir"@ {
        "list "@ + arg_or(a, "path"@, "."@)
    } else if c.name == "glob_expand"@ {
        match filled(a, "path"@) {
            Some(p) => "glob "@ + arg_or(a, "pattern"@, "?"@) + " in "@ + p,
            None => "glob "@ + arg_or(a, "pattern"@, "?"@),
        }
    } else if c.name == "grep_files"@ {
        "grep "@ + debug_text(arg_or(a, "pattern"@, "?"@)) + " in "@ + arg_or(a, "path"@, "."@)
    } else if c.name == "stat_file"@ {
        "stat "@ + arg_or(a, "path"@, "?"@)
    } else if c.name == "diff_files"@ {
        match filled(a, "b"@) {
            Some(b) => "diff "@ + arg_or(a, "a"@, "?"@) + " "@ + b,
            None => "diff "@ + arg_or(a, "a"@, "?"@) + " (inline)"@,
        }
    } else if c.name == "change_dir"@ {
        "cd "@ + arg_or(a, "path"@, "?"@)
    } else if c.name == "remember"@ {
        "remember: "@ + arg_or(a, "content"@, "?"@)
    } else if c.name == "recall"@ {
        "recall: "@ + arg_or(a, "query"@, "(recent)"@)
    } else if c.name == "run_in_background"@ {
        "background: "@ + flattened(arg_or(a, "task"@, "?"@))
    } else if c.name == "background_status"@ {
        "background status"@
    } else if c.name == "job_output"@ {
        "job output: "@ + job_text(a)
    } else if c.name == "get_skill"@ {
        "skill "@ + arg_or(a, "server"@, "?"@) + "/"@ + arg_or(a, "name"@, "?"@)
    } else if c.name == "tell"@ {
        "tell "@ + arg_or(a, "id"@, "?"@) + ": "@ + flattened(arg_or(a, "message"@, "?"@))
    } else if c.name == "escalate"@ {
        "escalate: "@ + flattened(arg_or(a, "task"@, "?"@))
    } else {
        c.name
    }
}

fn verb_arg(verb: &str, a: &Json, key: &str, default: &str) -> (r: String)
    ensures
        r@ == verb@ + arg_or(a.view(), key@, default@),
{
    let mut out = verb.to_owned();
    out.push_str(arg(a, key, default));
    out
}

/// Describes a tool call for humans.
pub fn describe_call(call: &ToolCall) -> (r: String)
    ensures
        r@ == described(call.view()),
{
    let a = &call.args;
    let name = call.name.as_str();
    if text::eq(name, "run_program") {
        return text::string_of(&command(a));
    }
    if text::eq(name, "run_interactive") {
        let mut out = text::string_of(&command(a));
        out.push_str(" (interactive — your terminal)");
        return out;
    }
    if text::eq(name, "read_file") {
        return verb_arg("read ", a, "path", "?");
    }
    if text::eq(name, "write_file") {
        return sizing(a, "write ");
    }
    if text::eq(name, "edit_file") {
        let mut out = verb_arg("edit ", a, "path", "?");
        out.push_str(" (");
        out.push_str(debug_quote(arg(a, "pattern", "?")).as_str());
        out.push_str(")");
        return out;
    }
    if text::eq(name, "append_file") {
        return sizing(a, "append ");
    }
    if text::eq(name, "copy_file") {
        return moving(a, "copy ");
    }
    if text::eq(name, "rename_file") {
        return moving(a, "rename ");
    }
    if text::eq(name, "list_dir") {
        return verb_arg("list ", a, "path", ".");
    }
    if text::eq(name, "glob_expand") {
        let mut out = verb_arg("glob ", a, "pattern", "?");
        if let Some(p) = filled_arg(a, "path") {
            out.push_str(" in ");
            out.push_str(p);
        }
        return out;
    }
    if text::eq(name, "grep_files") {
        let mut out = "grep ".to_owned();
        out.push_str(debug_quote(arg(a, "pattern", "?")).as_str());
        out.push_str(" in ");
        out.push_str(arg(a, "path", "."));
        return out;
    }
    if text::eq(name, "stat_file") {
        return verb_arg("stat ", a, "path", "?");
    }
    if text::eq(name, "diff_files") {
        let mut out = verb_arg("diff ", a, "a", "?");
        match filled_arg(a, "b") {
            Some(b) => {
                out.push_str(" ");
                out.push_str(b);
            },
            None => {
                out.push_str(" (inline)");
            },
        }
        return out;
    }
    describe_rest(call)
}

fn describe_rest(call: &ToolCall) -> (r: String)
    requires
        call.name@ != "run_program"@,
        call.name@ != "run_interactive"@,
        call.name@ != "read_file"@,
        call.name@ != "write_file"@,
        call.name@ != "edit_file"@,
        call.name@ != "append_file"@,
        call.name@ != "copy_file"@,
        call.name@ != "rename_file"@,
        call.name@ != "list_dir"@,
        call.name@ != "glob_expand"@,
        call.name@ != "grep_files"@,
        call.name@ != "stat_file"@,
        call.name@ != "diff_files"@,
    ensures
        r@ == described(call.view()),
{
    let a = &call.args;
    let name = call.name.as_str();
    if text::eq(name, "change_dir") {
        return verb_arg("cd ", a, "path", "?");
    }
    if text::eq(name, "remember") {
        return verb_arg("remember: ", a, "content", "?");
    }
    if text::eq(name, "recall") {
        return verb_arg("recall: ", a, "query", "(recent)");
    }
    if text::eq(name, "run_in_background") {
        let mut out = "background: ".to_owned();
        out.push_str(flatten_ws(arg(a, "task", "?")).as_str());
        return out;
    }
    if text::eq(name, "background_status") {
        return "background status".to_owned();
    }
    if text::eq(name, "job_output") {
        let mut out = "job output: ".to_owned();
        if let Some(v) = a.get("job") {
            if let Some(n) = v.as_u64() {
                text::push_dec(&mut out, n);
                return out;
            }
        }
        out.push_str("?");
        return out;
    }
    if text::eq(name, "get_skill") {
        let mut out = verb_arg("skill ", a, "server", "?");
        out.push_str("/");
        out.push_str(arg(a, "name", "?"));
        return out;
    }
    if text::eq(name, "tell") {
        let mut out = verb_arg("tell ", a, "id", "?");
        out.push_str(": ");
        out.push_str(flatten_ws(arg(a, "message", "?")).as_str());
        return out;
    }
    if text::eq(name, "escalate") {
        let mut out = "escalate: ".to_owned();
        out.push_str(flatten_ws(arg(a, "task", "?")).as_str());
        return out;
    }
    call.name.clone()
}

/// The glyph of a tool: a handshake for a consult, a wrench for a tool of an MCP
/// server, a hammer for a local one.
pub open spec fn glyph(name: Seq<char>) -> Seq<char> {
    let n = chars::lower(chars::trim(name));
    if n == "escalate"@ {
        "🤝"@
    } else if chars::starts_with(n, "mcp__"@) || chars::starts_with(n, "mcp_"@)
        || chars::starts_with(n, "atum_"@) {
        "🔧"@
    } else {
        "🛠️ "@
    }
}

/// The steady glyph of a tool's activity line. The hammer is narrow on most
/// terminals and so carries its own spacer.
pub fn tool_glyph(tool_name: &str) -> (r: &'static str)
    ensures
        r@ == glyph(tool_name@),
{
    let v = text::chars_of(tool_name);
    let n = text::lower(text::trim(&v));
    if text::is(&n, "escalate") {
        return "🤝";
    }
    if text::starts_with(&n, "mcp__") || text::starts_with(&n, "mcp_") || text::starts_with(
        &n,
        "atum_",
    ) {
        return "🔧";
    }
    "🛠️ "
}

/// The activity line of a call: its glyph and its description on one line.
pub open spec fn activity(c: CallV) -> Seq<char> {
    glyph(c.name) + " "@ + flattened(described(c))
}

/// The activity line of a call.
pub fn call_line(call: &ToolCall) -> (r: String)
    ensures
        r@ == activity(call.view()),
{
    let mut out = tool_glyph(call.name.as_str()).to_owned();
    out.push_str(" ");
    out.push_str(flatten_ws(describe_call(call).as_str()).as_str());
    out
}

/// Whether a tool's run is animated: not when it hands the terminal to a child.
pub fn animates(tool_name: &str) -> (r: bool)
    ensures
        r == (tool_name@ != "run_interactive"@),
{
    !text::eq(tool_name, "run_interactive")
}

/// The line of a finished tool: a mark for its outcome and its description.
pub open spec fn outcome_line(desc: Seq<char>, is_error: bool) -> Seq<char> {
    if is_error {
        "\x1b[31m✗\x1b[0m "@ + desc
    } else {
        "\x1b[32m✓\x1b[0m "@ + desc
    }
}

/// The line of a finished tool.
pub fn tool_result_line(desc: &str, is_error: bool) -> (r: String)
    ensures
        r@ == outcome_line(desc@, is_error),
{
    let mut out = if is_error {
        "\x1b[31m✗\x1b[0m ".to_owned()
    } else {
        "\x1b[32m✓\x1b[0m ".to_owned()
    };
    out.push_str(desc);
    out
}

/// A text without whitespace that is not empty.
spec fn is_word(w: Seq<char>) -> bool {
    w.len() > 0 && forall|j: int| 0 <= j < w.len() ==> !chars::is_ws(#[trigger] w[j])
}

spec fn all_words(ws: Seq<Seq<char>>) -> bool {
    forall|i: int| 0 <= i < ws.len() ==> is_word(#[trigger] ws[i])
}

proof fn lemma_words_are_words(s: Seq<char>)
    ensures
        all_words(chars::words(s)),
    decreases s.len(),
{
    let t = chars::trim_start(s);
    chars::lemma_trim_start_props(s);
    if t.len() > 0 {
        let f = |c: char| chars::is_ws(c);
        let i = chars::find(t, f);
        chars::lemma_find_props(t, f);
        if 0 < i <= t.len() {
            lemma_words_are_words(t.skip(i));
            let w = t.take(i);
            assert forall|j: int| 0 <= j < w.len() implies !chars::is_ws(#[trigger] w[j]) by {
                assert(!f(t[j]));
            }
            assert(is_word(w));
            assert(chars::words(s) == seq![w] + chars::words(t.skip(i)));
        }
    }
}

proof fn lemma_join_front(ws: Seq<Seq<char>>, sep: Seq<char>)
    requires
        ws.len() > 1,
    ensures
        chars::join(ws, sep) == ws[0] + (sep + chars::join(ws.skip(1), sep)),
    decreases ws.len(),
{
    let l = ws.drop_last();
    let r = ws.skip(1);
    if ws.len() > 2 {
        lemma_join_front(l, sep);
        assert(r.drop_last() =~= l.skip(1));
        assert(chars::join(r, sep) == chars::join(l.skip(1), sep) + sep + ws.last());
    } else {
        assert(chars::join(l, sep) == ws[0]);
        assert(chars::join(r, sep) == ws[1]);
    }
    assert(chars::join(ws, sep) == chars::join(l, sep) + sep + ws.last());
    assert(chars::join(ws, sep) =~= ws[0] + (sep + chars::join(r, sep)));
}

proof fn lemma_words_of_join(ws: Seq<Seq<char>>)
    requires
        all_words(ws),
    ensures
        chars::words(chars::join(ws, " "@)) == ws,
    decreases ws.len(),
{
    reveal_strlit(" ");
    let sep = " "@;
    if ws.len() == 0 {
        chars::lemma_words_empty();
        assert(ws =~= Seq::<Seq<char>>::empty());
    } else {
        let w = ws[0];
        assert(is_word(w));
        if ws.len() == 1 {
            chars::lemma_words_cons(w, Seq::empty());
            chars::lemma_words_empty();
            assert(w + Seq::empty() =~= w);
            assert(ws =~= seq![w] + Seq::empty());
        } else {
            let rest = ws.skip(1);
            lemma_words_of_join(rest);
            lemma_join_front(ws, sep);
            let tail = sep + chars::join(rest, sep);
            assert(sep =~= seq![' ']);
            assert(tail[0] == ' ');
            chars::lemma_words_cons(w, tail);
            chars::lemma_words_space(' ', chars::join(rest, sep));
            assert(ws =~= seq![w] + rest);
        }
    }
}

proof fn lemma_join_no_breaks(ws: Seq<Seq<char>>)
    requires
        all_words(ws),
    ensures
        forall|i: int|
            0 <= i < chars::join(ws, " "@).len() ==> !chars::is_ws(#[trigger] chars::join(ws, " "@)[i])
                || chars::join(ws, " "@)[i] == ' ',
    decreases ws.len(),
{
    reveal_strlit(" ");
    let t = chars::join(ws, " "@);
    if ws.len() == 1 {
        assert(is_word(ws[0]));
    } else if ws.len() > 1 {
        let l = ws.drop_last();
        lemma_join_no_breaks(l);
        let h = chars::join(l, " "@);
        let last = ws[ws.len() - 1];
        assert(is_word(last));
        assert(t == h + " "@ + last);
        assert forall|i: int| 0 <= i < t.len() implies !chars::is_ws(#[trigger] t[i]) || t[i] == ' ' by {
            if i < h.len() {
                assert(t[i] == h[i]);
            } else if i > h.len() {
                assert(t[i] == last[i - h.len() - 1]);
            }
        }
    }
}

/// Law: a flattened text holds no whitespace but spaces, so it stays on one row
/// whatever it was made of; flattening it again changes nothing.
pub proof fn flattening_is_final(s: Seq<char>)
    ensures
        flattened(flattened(s)) == flattened(s),
        forall|i: int|
            0 <= i < flattened(s).len() ==> !chars::is_ws(#[trigger] flattened(s)[i])
                || flattened(s)[i] == ' ',
{
    lemma_words_are_words(s);
    lemma_words_of_join(chars::words(s));
    lemma_join_no_breaks(chars::words(s));
}

/// Columns of one character.
pub open spec fn char_cols(c: char) -> nat {
    match width::char_width(c) {
        Some(n) => n as nat,
        None => 0,
    }
}

/// Columns of the characters of `s`, one by one.
pub open spec fn cols_of(s: Seq<char>) -> nat
    decreases s.len(),
{
    if s.len() == 0 {
        0
    } else {
        cols_of(s.drop_last()) + char_cols(s.last())
    }
}

/// How many leading characters of `s` fit, counted from `i`, when the first `i` do.
pub open spec fn fitting(s: Seq<char>, i: nat, budget: nat) -> nat
    decreases s.len() - i,
{
    if i < s.len() && cols_of(s.take(i as int)) + char_cols(s[i as int]) <= budget {
        fitting(s, i + 1, budget)
    } else {
        i
    }
}

/// The first `n` characters of `s` with an ellipsis behind them.
pub open spec fn cut_at(s: Seq<char>, n: nat) -> Seq<char> {
    s.take(n as int).push('…')
}

/// `n`, or less where the first `n` characters and an ellipsis are wider as one text
/// than their characters are one by one: the most that take up to `max` columns then.
pub open spec fn shrunk(s: Seq<char>, n: nat, max: nat) -> nat
    decreases n,
{
    if n == 0 || width::str_width(cut_at(s, n)) <= max {
        n
    } else {
        shrunk(s, (n - 1) as nat, max)
    }
}

/// `s` cut to `max` columns, with an ellipsis when it was cut. The characters are
/// counted one by one; the ellipsis takes one column.
pub open spec fn clipped(s: Seq<char>, max: nat) -> Seq<char> {
    if width::str_width(s) <= max {
        s
    } else if max == 0 {
        seq![]
    } else {
        cut_at(s, shrunk(s, fitting(s, 0, (max - 1) as nat), max))
    }
}

/// Cuts `s` to at most `max` terminal columns, with an ellipsis when it was cut.
pub fn truncate_to_cols(s: &str, max: usize) -> (r: String)
    ensures
        r@ == clipped(s@, max as nat),
        width::str_width(r@) <= max,
        width::str_width(s@) <= max ==> r@ == s@,
        width::str_width(s@) > max && max >= 1 ==> r@.len() > 0 && r@.last() == '…'
            && r@.drop_last().is_prefix_of(s@),
        width::str_width(s@) > max && max == 0 ==> r@ == ""@,
{
    proof {
        reveal_strlit("");
    }
    if width::of_str(s) <= max {
        return s.to_owned();
    }
    if max == 0 {
        let none = String::new();
        let columns: usize = width::of_str(none.as_str());
        assert(none@ =~= ""@ && columns == 0);
        return none;
    }
    let budget: usize = max - 1;
    let v = text::chars_of(s);
    let mut w: usize = 0;
    let mut i: usize = 0;
    assert(v@.take(0) =~= Seq::empty());
    loop
        invariant_except_break
            budget == max - 1,
            i <= v@.len(),
            w == cols_of(v@.take(i as int)),
            w <= budget,
            fitting(v@, 0, budget as nat) == fitting(v@, i as nat, budget as nat),
        ensures
            i <= v@.len(),
            i == fitting(v@, 0, budget as nat),
        decreases v@.len() - i,
    {
        if i >= v.len() {
            break ;
        }
        let cw: usize = match width::of_char(v[i]) {
            Some(n) => n,
            None => 0,
        };
        if cw > budget - w {
            break ;
        }
        assert(v@.take(i + 1).drop_last() =~= v@.take(i as int));
        w = w + cw;
        i += 1;
    }
    let ghost first = i as nat;
    let mut out = text::string_of(text::upto(&v, i));
    out.push('…');
    while width::of_str(out.as_str()) > max
        invariant
            1 <= max,
            v@ == s@,
            i <= v@.len(),
            out@ == cut_at(v@, i as nat),
            shrunk(v@, first, max as nat) == shrunk(v@, i as nat, max as nat),
        ensures
            i <= v@.len(),
            out@ == cut_at(v@, i as nat),
            width::str_width(out@) <= max,
            i == shrunk(v@, first, max as nat),
        decreases i,
    {
        if i == 0 {
            assert(out@ =~= seq!['…']);
        }
        i -= 1;
        out = text::string_of(text::upto(&v, i));
        out.push('…');
    }
    assert(out@.drop_last() =~= s@.take(i as int));
    out
}

proof fn lemma_fitting(s: Seq<char>, i: nat, budget: nat)
    requires
        i <= s.len(),
    ensures
        i <= fitting(s, i, budget) <= s.len(),
    decreases s.len() - i,
{
    if i < s.len() && cols_of(s.take(i as int)) + char_cols(s[i as int]) <= budget {
        lemma_fitting(s, i + 1, budget);
    }
}

proof fn lemma_shrunk(s: Seq<char>, n: nat, max: nat)
    ensures
        shrunk(s, n, max) <= n,
        shrunk(s, n, max) > 0 ==> width::str_width(cut_at(s, shrunk(s, n, max))) <= max,
    decreases n,
{
    if n > 0 && width::str_width(cut_at(s, n)) > max {
        lemma_shrunk(s, (n - 1) as nat, max);
    }
}

/// Law: a clipped text is the text itself where that fits, nothing at all, an ellipsis
/// alone, or a prefix of the text followed by an ellipsis that fits. The prefix is the
/// one that fits character by character, unless it is too wide as one text.
pub proof fn clipped_text_fits(s: Seq<char>, max: nat)
    ensures
        width::str_width(s) <= max ==> clipped(s, max) == s,
        width::str_width(s) > max && max == 0 ==> clipped(s, max) == Seq::<char>::empty(),
        width::str_width(s) > max && max > 0 ==> clipped(s, max).last() == '…' && clipped(
            s,
            max,
        ).drop_last().is_prefix_of(s),
        width::str_width(s) > max && max > 0 && width::str_width(
            cut_at(s, fitting(s, 0, (max - 1) as nat)),
        ) <= max ==> clipped(s, max) == cut_at(s, fitting(s, 0, (max - 1) as nat)),
        width::str_width(clipped(s, max)) <= max || clipped(s, max) == Seq::<char>::empty()
            || clipped(s, max) == seq!['…'],
{
    if width::str_width(s) > max && max > 0 {
        let first = fitting(s, 0, (max - 1) as nat);
        lemma_fitting(s, 0, (max - 1) as nat);
        lemma_shrunk(s, first, max);
        let n = shrunk(s, first, max);
        assert(clipped(s, max).drop_last() =~= s.take(n as int));
        if n == 0 {
            assert(clipped(s, max) =~= seq!['…']);
        }
    }
}

/// Columns of `s` without its terminal control sequences.
pub open spec fn stripped_width(s: Seq<char>) -> usize {
    width::str_width(md::unescaped(s))
}

/// Columns of `s` without its terminal control sequences.
pub fn ansi_stripped_width(s: &str) -> (r: usize)
    ensures
        r == stripped_width(s@),
{
    width::of_str(md::strip_ansi(s).as_str())
}

/// Rows that a line of `w` columns takes on a terminal of `cols`.
pub open spec fn rows_of(w: nat, cols: nat) -> nat {
    if cols == 0 || w == 0 {
        1
    } else {
        ((w - 1) / cols as int + 1) as nat
    }
}

/// Rows that a line takes once the terminal wraps it; one when the width is
/// unknown.
pub fn physical_rows(formatted_line: &str, cols: usize) -> (r: usize)
    ensures
        r == rows_of(stripped_width(formatted_line@) as nat, cols as nat),
        r >= 1,
{
    if cols == 0 {
        return 1;
    }
    let w: usize = ansi_stripped_width(formatted_line);
    if w == 0 {
        return 1;
    }
    let q: usize = (w - 1) / cols;
    assert(q <= w - 1) by (nonlinear_arith)
        requires
            q == (w - 1) / cols as int,
            w >= 1,
            cols >= 1,
    ;
    q + 1
}

/// Law: the rows of a line hold its columns, and one row fewer would not.
pub proof fn rows_are_exact(w: nat, cols: nat)
    requires
        cols > 0,
    ensures
        w <= rows_of(w, cols) * cols,
        w > 0 ==> (rows_of(w, cols) - 1) * cols < w,
{
    let r = rows_of(w, cols);
    if w > 0 {
        assert(w <= r * cols && (r - 1) * cols < w) by (nonlinear_arith)
            requires
                r == (w - 1) / cols as int + 1,
                w > 0,
                cols > 0,
        ;
    }
}

/// What is shown of a result to humans: its text; the payload when there is no
/// text; a placeholder when there is neither.
pub open spec fn body_of(r: ResultV) -> Seq<char> {
    if !chars::blank(r.content) {
        r.content
    } else {
        match r.structured {
            Some(v) => json::pretty(v, 0),
            None => "(no output)"@,
        }
    }
}

/// The raw body of a result.
pub fn raw_body(result: &ToolResult) -> (r: String)
    ensures
        r@ == body_of(result.view()),
{
    let v = text::chars_of(result.content.as_str());
    if !text::blank(&v) {
        return result.content.clone();
    }
    match &result.structured {
        Some(p) => json::to_pretty(p),
        None => "(no output)".to_owned(),
    }
}

/// Law: a payload does not change what humans see of a result that has text.
pub proof fn payload_is_additive(r: ResultV, payload: Option<JsonV>)
    requires
        !chars::blank(r.content),
    ensures
        body_of(ResultV { structured: payload, ..r }) == body_of(r),
{
}

/// The summary of `count` lines of output.
pub open spec fn summary_text(count: nat) -> Seq<char> {
    "     … "@ + chars::dec(count) + (if count == 1 {
        " line"@
    } else {
        " lines"@
    }) + " of output — Ctrl-O to expand"@
}

fn summary(count: usize) -> (r: String)
    ensures
        r@ == summary_text(count as nat),
{
    let mut out = "     … ".to_owned();
    text::push_usize(&mut out, count);
    out.push_str(
        if count == 1 {
            " line"
        } else {
            " lines"
        },
    );
    out.push_str(" of output — Ctrl-O to expand");
    out
}

/// The collapsed summary under a tool's line; nothing without output.
pub open spec fn summary_lines(count: nat) -> Seq<Seq<char>> {
    if count > 0 {
        seq![summary_text(count)]
    } else {
        seq![]
    }
}

/// The collapsed summary under a tool's line.
pub fn activity_stream_lines(line_count: usize) -> (r: Vec<String>)
    ensures
        text::str_views(r@) == summary_lines(line_count as nat),
{
    let mut lines: Vec<String> = Vec::new();
    if line_count > 0 {
        lines.push(summary(line_count));
    }
    assert(text::str_views(lines@) =~= summary_lines(line_count as nat));
    lines
}

/// What is painted below a finished tool's line: how much it wrote, dim and cut to
/// the terminal's width. Nothing without a terminal, and nothing where the output
/// itself is shown.
pub open spec fn stream_of(r: ResultV, cols: nat, tty: bool, raw: bool) -> Seq<Seq<char>> {
    let n = chars::lines(body_of(r)).len();
    if !tty || raw || n == 0 {
        seq![]
    } else {
        seq!["\x1b[2m"@ + clipped(summary_text(n), cols) + "\x1b[0m"@]
    }
}

/// The lines below a finished tool's line.
pub fn stream_lines(result: &ToolResult, cols: usize, tty: bool, raw: bool) -> (r: Vec<String>)
    ensures
        text::str_views(r@) == stream_of(result.view(), cols as nat, tty, raw),
{
    let mut out: Vec<String> = Vec::new();
    assert(text::str_views(out@) =~= seq![]);
    if !tty || raw {
        return out;
    }
    let body = text::chars_of(raw_body(result).as_str());
    let ls = text::lines(&body);
    assert(text::views(ls@).len() == ls@.len());
    if ls.len() > 0 {
        let mut l = "\x1b[2m".to_owned();
        l.push_str(truncate_to_cols(summary(ls.len()).as_str(), cols).as_str());
        l.push_str("\x1b[0m");
        out.push(l);
        assert(text::str_views(out@) =~= stream_of(result.view(), cols as nat, tty, raw));
    }
    out
}

/// The columns of a terminal: what it reports, or what the variable says, or
/// `default`.
pub open spec fn columns_of(
    reported: Option<usize>,
    variable: Option<Seq<char>>,
    default: usize,
) -> usize {
    match reported {
        Some(n) if n > 0 => n,
        _ => match variable {
            Some(v) => match chars::parse_nat(v, usize::MAX as nat) {
                Some(n) => n as usize,
                None => default,
            },
            None => default,
        },
    }
}

/// The columns of a terminal, given what it reports and the variable that stands in
/// for it.
pub fn columns(reported: Option<usize>, variable: Option<&str>, default: usize) -> (r: usize)
    ensures
        r == columns_of(
            reported,
            match variable {
                Some(v) => Some(v@),
                None => None,
            },
            default,
        ),
{
    if let Some(n) = reported {
        if n > 0 {
            return n;
        }
    }
    if let Some(v) = variable {
        let all = text::chars_of(v);
        if let Some(n) = text::parse_usize(&all) {
            return n;
        }
    }
    default
}

/// The columns of the terminal on standard error, 80 where nothing is known.
pub fn stderr_cols(reported: Option<usize>, variable: Option<&str>) -> (r: usize)
    ensures
        r == columns_of(
            reported,
            match variable {
                Some(v) => Some(v@),
                None => None,
            },
            80,
        ),
{
    columns(reported, variable, 80)
}

/// One tool call of the last turn: its activity line and its result.
#[derive(Debug)]
pub struct ToolRun {
    pub desc: String,
    pub result: ToolResult,
}

pub struct RunV {
    pub desc: Seq<char>,
    pub result: ResultV,
}

impl ToolRun {
    pub open spec fn view(self) -> RunV {
        RunV { desc: self.desc@, result: self.result.view() }
    }
}

/// The view of a list of runs.
pub open spec fn runs(v: Seq<ToolRun>) -> Seq<RunV> {
    v.map_values(|r: ToolRun| r.view())
}

/// The dim header of a run.
pub open spec fn header_of(r: RunV) -> Seq<char> {
    "\x1b[2m  "@ + outcome_line(r.desc, r.result.is_error) + "\x1b[0m"@
}

/// A dim, indented body line.
pub open spec fn body_line(l: Seq<char>) -> Seq<char> {
    "\x1b[2m     "@ + l + "\x1b[0m"@
}

/// A run in full: its header and its body, line by line.
pub open spec fn expanded(r: RunV) -> Seq<Seq<char>> {
    let ls = chars::lines(body_of(r.result));
    seq![header_of(r)] + Seq::new(ls.len(), |i: int| body_line(ls[i]))
}

/// A run in short: its header and how many lines its body has.
pub open spec fn collapsed(r: RunV) -> Seq<Seq<char>> {
    let n = chars::lines(body_of(r.result)).len();
    if n > 0 {
        seq![header_of(r), "\x1b[2m"@ + summary_text(n) + "\x1b[0m"@]
    } else {
        seq![header_of(r)]
    }
}

/// All runs, in full or in short.
pub open spec fn turn_view(rs: Seq<RunV>, full: bool) -> Seq<Seq<char>>
    decreases rs.len(),
{
    if rs.len() == 0 {
        seq![]
    } else {
        turn_view(rs.drop_last(), full) + (if full {
            expanded(rs.last())
        } else {
            collapsed(rs.last())
        })
    }
}

fn header(r: &ToolRun) -> (out: String)
    ensures
        out@ == header_of(r.view()),
{
    let mut out = "\x1b[2m  ".to_owned();
    out.push_str(tool_result_line(r.desc.as_str(), r.result.is_error).as_str());
    out.push_str("\x1b[0m");
    out
}

/// A result's body as dim, indented lines.
pub fn raw_result_lines(result: &ToolResult) -> (r: Vec<String>)
    ensures
        r@.len() == chars::lines(body_of(result.view())).len(),
        forall|i: int|
            0 <= i < r@.len() ==> (#[trigger] r@[i])@ == body_line(
                chars::lines(body_of(result.view()))[i],
            ),
{
    let body = text::chars_of(raw_body(result).as_str());
    let ls = text::lines(&body);
    let mut out: Vec<String> = Vec::new();
    let mut i: usize = 0;
    let ghost want = chars::lines(body_of(result.view()));
    while i < ls.len()
        invariant
            want == text::views(ls@),
            i <= ls@.len(),
            out@.len() == i,
            forall|j: int| 0 <= j < i ==> (#[trigger] out@[j])@ == body_line(want[j]),
        decreases ls@.len() - i,
    {
        let mut l = "\x1b[2m     ".to_owned();
        text::push_chars(&mut l, &ls[i]);
        l.push_str("\x1b[0m");
        assert(want[i as int] == ls@[i as int]@);
        out.push(l);
        i += 1;
    }
    out
}

fn push_run(out: &mut Vec<String>, r: &ToolRun, full: bool)
    ensures
        text::str_views(final(out)@) == text::str_views(old(out)@) + (if full {
            expanded(r.view())
        } else {
            collapsed(r.view())
        }),
{
    let ghost o = text::str_views(out@);
    out.push(header(r));
    assert(text::str_views(out@) =~= o + seq![header_of(r.view())]);
    if full {
        let mut ls = raw_result_lines(&r.result);
        let ghost got = ls@;
        let ghost o1 = text::str_views(out@);
        out.append(&mut ls);
        assert(text::str_views(out@) =~= o1 + text::str_views(got));
        assert(text::str_views(out@) =~= o + expanded(r.view()));
    } else {
        let body = text::chars_of(raw_body(&r.result).as_str());
        let ls = text::lines(&body);
        let count: usize = ls.len();
        assert(count == text::views(ls@).len());
        if count > 0 {
            let mut l = "\x1b[2m".to_owned();
            l.push_str(summary(count).as_str());
            l.push_str("\x1b[0m");
            out.push(l);
        }
        assert(text::str_views(out@) =~= o + collapsed(r.view()));
    }
}

fn show_turn(tools: &[ToolRun], full: bool, out: &mut Vec<String>)
    ensures
        text::str_views(final(out)@) == text::str_views(old(out)@) + turn_view(runs(tools@), full),
{
    let ghost o = text::str_views(out@);
    let ghost rs = runs(tools@);
    let mut i: usize = 0;
    assert(rs.take(0) =~= Seq::empty());
    assert(o + turn_view(rs.take(0), full) =~= o);
    while i < tools.len()
        invariant
            i <= tools@.len(),
            rs == runs(tools@),
            text::str_views(out@) == o + turn_view(rs.take(i as int), full),
        decreases tools@.len() - i,
    {
        let ghost before = text::str_views(out@);
        push_run(out, &tools[i], full);
        proof {
            let t = rs.take(i + 1);
            assert(t.drop_last() =~= rs.take(i as int));
            assert(t.last() == tools@[i as int].view());
            assert(text::str_views(out@) =~= o + turn_view(t, full));
        }
        i += 1;
    }
    assert(rs.take(i as int) =~= rs);
}

/// The last turn's tool calls in full: each header and its output, line by line.
pub fn reveal_last_turn(tools: &[ToolRun]) -> (r: Vec<String>)
    ensures
        text::str_views(r@) == turn_view(runs(tools@), true),
{
    let mut out: Vec<String> = Vec::new();
    show_turn(tools, true, &mut out);
    assert(text::str_views(out@) =~= turn_view(runs(tools@), true));
    out
}

/// The last turn's tool calls in short: each header and the size of its output.
pub fn collapse_last_turn(tools: &[ToolRun]) -> (r: Vec<String>)
    ensures
        text::str_views(r@) == turn_view(runs(tools@), false),
{
    let mut out: Vec<String> = Vec::new();
    show_turn(tools, false, &mut out);
    assert(text::str_views(out@) =~= turn_view(runs(tools@), false));
    out
}

/// How many lines a run's output has.
pub open spec fn output_lines(r: RunV) -> nat {
    chars::lines(body_of(r.result)).len()
}

/// How many lines the output of all runs has.
pub open spec fn all_output_lines(rs: Seq<RunV>) -> nat
    decreases rs.len(),
{
    if rs.len() == 0 {
        0
    } else {
        all_output_lines(rs.drop_last()) + output_lines(rs.last())
    }
}

proof fn lemma_some_output(r: RunV)
    requires
        r.result.structured matches Some(v) ==> json::sound_numbers(v),
    ensures
        output_lines(r) >= 1,
{
    reveal_strlit("(no output)");
    reveal_strlit("null");
    reveal_strlit("true");
    reveal_strlit("false");
    let b = body_of(r.result);
    assert(b.len() > 0);
}

/// Law: the two views of a turn show the same tools. In short, each tool has two lines:
/// the header that it has in full, and a dim summary of how many lines it wrote, never
/// none. In full, it has its header and those lines.
pub proof fn collapsing_keeps_the_headers(rs: Seq<RunV>)
    requires
        forall|i: int|
            0 <= i < rs.len() ==> ((#[trigger] rs[i]).result.structured matches Some(v)
                ==> json::sound_numbers(v)),
    ensures
        turn_view(rs, false).len() == 2 * rs.len(),
        turn_view(rs, true).len() == rs.len() + all_output_lines(rs),
        forall|i: int|
            0 <= i < rs.len() ==> {
                let r = #[trigger] rs[i];
                &&& output_lines(r) >= 1
                &&& turn_view(rs, false)[2 * i] == header_of(r)
                &&& turn_view(rs, false)[2 * i + 1] == "\x1b[2m"@ + summary_text(output_lines(r))
                    + "\x1b[0m"@
                &&& 0 <= i + all_output_lines(rs.take(i)) < turn_view(rs, true).len()
                &&& turn_view(rs, true)[i + all_output_lines(rs.take(i))] == header_of(r)
            },
    decreases rs.len(),
{
    if rs.len() > 0 {
        let l = rs.drop_last();
        let last = rs.last();
        assert forall|i: int| 0 <= i < l.len() implies ((
        #[trigger] l[i]).result.structured matches Some(v) ==> json::sound_numbers(v)) by {
            assert(l[i] == rs[i]);
        }
        assert(rs[rs.len() - 1] == last);
        collapsing_keeps_the_headers(l);
        lemma_some_output(last);
        assert forall|i: int| 0 <= i < rs.len() implies {
            let r = #[trigger] rs[i];
            &&& output_lines(r) >= 1
            &&& turn_view(rs, false)[2 * i] == header_of(r)
            &&& turn_view(rs, false)[2 * i + 1] == "\x1b[2m"@ + summary_text(output_lines(r))
                + "\x1b[0m"@
            &&& 0 <= i + all_output_lines(rs.take(i)) < turn_view(rs, true).len()
            &&& turn_view(rs, true)[i + all_output_lines(rs.take(i))] == header_of(r)
        } by {
            if i < l.len() {
                assert(l[i] == rs[i]);
                assert(l.take(i) =~= rs.take(i));
            } else {
                assert(rs.take(i) =~= l);
            }
        }
    }
}

/// The lines that a toggle paints: what is on now, and the last turn.
pub open spec fn toggle_lines(rs: Seq<RunV>, now_on: bool) -> Seq<Seq<char>> {
    seq![
        if now_on {
            "\x1b[2mraw tool output on\x1b[0m"@
        } else {
            "\x1b[2mraw tool output off\x1b[0m"@
        },
    ] + turn_view(rs, now_on)
}

/// Rows of the painted lines, at most the largest number.
pub open spec fn painted_rows(lines: Seq<Seq<char>>, cols: nat) -> nat
    decreases lines.len(),
{
    if lines.len() == 0 {
        0
    } else {
        let n = painted_rows(lines.drop_last(), cols) + rows_of(
            stripped_width(lines.last()) as nat,
            cols,
        );
        if n > usize::MAX {
            usize::MAX as nat
        } else {
            n
        }
    }
}

/// The text that takes the cursor above a painted block of `rows` rows and the
/// prompt row below it, and clears from there; nothing when there is no block.
pub open spec fn erase_block(rows: nat) -> Seq<char> {
    if rows == 0 {
        seq![]
    } else {
        "\x1b["@ + chars::dec(rows + 1) + "F\x1b[0J"@
    }
}

/// What a toggle of the raw view does to the terminal.
#[derive(Debug)]
pub struct Toggle {
    /// Written first.
    pub erase: String,
    /// Written after it, each on a line of its own.
    pub lines: Vec<String>,
    /// Rows to erase at the next toggle.
    pub rows: usize,
}

/// Flips the raw view of the last turn in place: the block that the toggle before
/// painted on `shown_rows` rows is erased and the new view painted. Without a
/// terminal nothing is erased, now or later.
pub fn render_raw_toggle(
    tools: &[ToolRun],
    now_on: bool,
    shown_rows: usize,
    cols: usize,
    tty: bool,
) -> (r: Toggle)
    requires
        shown_rows < usize::MAX,
    ensures
        text::str_views(r.lines@) == toggle_lines(runs(tools@), now_on),
        r.erase@ == (if tty {
            erase_block(shown_rows as nat)
        } else {
            seq![]
        }),
        r.rows == (if tty {
            painted_rows(toggle_lines(runs(tools@), now_on), cols as nat)
        } else {
            0
        }),
{
    let mut lines: Vec<String> = Vec::new();
    lines.push(
        if now_on {
            "\x1b[2mraw tool output on\x1b[0m".to_owned()
        } else {
            "\x1b[2mraw tool output off\x1b[0m".to_owned()
        },
    );
    show_turn(tools, now_on, &mut lines);
    let ghost want = toggle_lines(runs(tools@), now_on);
    assert(text::str_views(lines@) =~= want);
    let mut erase: String = String::new();
    assert(erase@ =~= seq![]);
    if !tty {
        return Toggle { erase, lines, rows: 0 };
    }
    if shown_rows > 0 {
        erase = "\x1b[".to_owned();
        text::push_usize(&mut erase, shown_rows + 1);
        erase.push_str("F\x1b[0J");
    }
    let mut rows: usize = 0;
    let mut i: usize = 0;
    assert(want.take(0) =~= Seq::empty());
    while i < lines.len()
        invariant
            i <= lines@.len(),
            want == text::str_views(lines@),
            rows == painted_rows(want.take(i as int), cols as nat),
        decreases lines@.len() - i,
    {
        assert(want.take(i + 1).drop_last() =~= want.take(i as int));
        assert(want[i as int] == lines@[i as int]@);
        rows = rows.saturating_add(physical_rows(lines[i].as_str(), cols));
        i += 1;
    }
    assert(want.take(i as int) =~= want);
    Toggle { erase, lines, rows }
}

/// Running totals of a session.
#[derive(Debug)]
pub struct Stats {
    pub tokens_in: u64,
    pub tokens_out: u64,
    pub cache_read_total: u64,
    pub cache_creation_total: u64,
    pub tool_calls_total: u64,
    pub turns_total: u64,
    /// Tokens of the window that the conversation takes.
    pub context_used: u64,
}

/// What a backend reports of one reply.
#[derive(Debug)]
pub struct Usage {
    pub input_tokens: u64,
    pub output_tokens: u64,
    pub cache_read_tokens: u64,
    pub cache_creation_tokens: u64,
    /// What the conversation takes of the window.
    pub total: u64,
}

/// `a + b`, or the largest number.
pub open spec fn capped(a: u64, b: u64) -> u64 {
    if a + b > u64::MAX {
        u64::MAX
    } else {
        (a + b) as u64
    }
}

impl Stats {
    /// The totals after a reply: what the backend reports is added up; without a
    /// report only the window's figure is set, from an estimate.
    pub open spec fn after(self, usage: Option<Usage>, estimate: u64) -> Stats {
        match usage {
            Some(u) => Stats {
                tokens_in: capped(self.tokens_in, u.input_tokens),
                tokens_out: capped(self.tokens_out, u.output_tokens),
                cache_read_total: capped(self.cache_read_total, u.cache_read_tokens),
                cache_creation_total: capped(self.cache_creation_total, u.cache_creation_tokens),
                context_used: u.total,
                ..self
            },
            None => Stats { context_used: estimate, ..self },
        }
    }

    /// Records a reply.
    pub fn record_reply(&mut self, usage: Option<Usage>, estimate: u64)
        ensures
            *final(self) == old(self).after(usage, estimate),
    {
        match usage {
            Some(u) => {
                self.context_used = u.total;
                self.tokens_in = self.tokens_in.saturating_add(u.input_tokens);
                self.tokens_out = self.tokens_out.saturating_add(u.output_tokens);
                self.cache_read_total = self.cache_read_total.saturating_add(u.cache_read_tokens);
                self.cache_creation_total =
                self.cache_creation_total.saturating_add(u.cache_creation_tokens);
            },
            None => {
                self.context_used = estimate;
            },
        }
    }

    /// Records the start of a turn.
    pub fn record_turn(&mut self)
        ensures
            *final(self) == (Stats { turns_total: capped(old(self).turns_total, 1), ..*old(self) }),
    {
        self.turns_total = self.turns_total.saturating_add(1);
    }

    /// Records a finished tool call.
    pub fn record_call(&mut self)
        ensures
            *final(self) == (Stats {
                tool_calls_total: capped(old(self).tool_calls_total, 1),
                ..*old(self)
            }),
    {
        self.tool_calls_total = self.tool_calls_total.saturating_add(1);
    }

    /// The totals as one line; nothing before the first turn.
    pub open spec fn line(self, hit_percent: nat) -> Seq<char> {
        if self.tokens_in == 0 && self.tokens_out == 0 && self.tool_calls_total == 0
            && self.turns_total == 0 {
            seq![]
        } else {
            "tokens: "@ + chars::dec(self.tokens_in as nat) + " in / "@ + chars::dec(
                self.tokens_out as nat,
            ) + " out, tool calls: "@ + chars::dec(self.tool_calls_total as nat) + ", turns: "@
                + chars::dec(self.turns_total as nat) + (if self.cache_read_total > 0
                && self.tokens_in > 0 {
                ", cache: "@ + chars::dec(hit_percent) + "% hit"@
            } else {
                seq![]
            })
        }
    }
}

/// The running totals for the status line. `hit_percent` is the share of the input
/// that came out of the cache; it is shown when there was any.
pub fn statusline_stats(stats: &Stats, hit_percent: u64) -> (r: String)
    ensures
        r@ == stats.line(hit_percent as nat),
{
    if stats.tokens_in == 0 && stats.tokens_out == 0 && stats.tool_calls_total == 0
        && stats.turns_total == 0 {
        let r = String::new();
        assert(r@ =~= seq![]);
        return r;
    }
    let mut out = "tokens: ".to_owned();
    text::push_dec(&mut out, stats.tokens_in);
    out.push_str(" in / ");
    text::push_dec(&mut out, stats.tokens_out);
    out.push_str(" out, tool calls: ");
    text::push_dec(&mut out, stats.tool_calls_total);
    out.push_str(", turns: ");
    text::push_dec(&mut out, stats.turns_total);
    if stats.cache_read_total > 0 && stats.tokens_in > 0 {
        let mut cache = ", cache: ".to_owned();
        text::push_dec(&mut cache, hit_percent);
        cache.push_str("% hit");
        out.push_str(cache.as_str());
    } else {
        assert(out@ + seq![] =~= out@);
    }
    out
}

/// The animation of a running tool.
#[derive(Clone, Copy, Debug, PartialEq, Eq, Structural)]
pub enum Spin {
    Running,
    Paused,
    Stopped,
}

/// Clears the line and shows the cursor.
pub const SPIN_CLEAR: &'static str = "\r\x1b[2K\x1b[?25h";

/// Hides the cursor.
pub const SPIN_HIDE: &'static str = "\x1b[?25l";

impl Spin {
    /// Stops drawing for a prompt: the next state and what is written.
    pub fn pause(self) -> (r: (Spin, &'static str))
        ensures
            self == Spin::Running ==> r.0 == Spin::Paused && r.1@ == SPIN_CLEAR@,
            self != Spin::Running ==> r.0 == self && r.1@ == ""@,
    {
        if self == Spin::Running {
            (Spin::Paused, SPIN_CLEAR)
        } else {
            (self, "")
        }
    }

    /// Draws again after a prompt.
    pub fn resume(self) -> (r: (Spin, &'static str))
        ensures
            self == Spin::Paused ==> r.0 == Spin::Running && r.1@ == SPIN_HIDE@,
            self != Spin::Paused ==> r.0 == self && r.1@ == ""@,
    {
        if self == Spin::Paused {
            (Spin::Running, SPIN_HIDE)
        } else {
            (self, "")
        }
    }

    /// Stops for good.
    pub fn stop(self) -> (r: (Spin, &'static str))
        ensures
            r.0 == Spin::Stopped,
            r.1@ == (if self == Spin::Stopped {
                ""@
            } else {
                SPIN_CLEAR@
            }),
    {
        if self == Spin::Stopped {
            (self, "")
        } else {
            (Spin::Stopped, SPIN_CLEAR)
        }
    }

    /// What tick number `i` draws; `None` ends the animation.
    pub fn frame(self, i: usize, desc: &str) -> (r: Option<String>)
        ensures
            r is None <==> self == Spin::Stopped,
            self == Spin::Paused ==> r->0@ == ""@,
            self == Spin::Running ==> r->0@ == "\r\x1b[2K  \x1b[36m"@ + TOOL_FRAMES[(i % 10) as int]@
                + "\x1b[0m \x1b[2m"@ + desc@ + "\x1b[0m"@,
    {
        match self {
            Spin::Stopped => None,
            Spin::Paused => Some("".to_owned()),
            Spin::Running => {
                let frames = TOOL_FRAMES;
                let mut out = "\r\x1b[2K  \x1b[36m".to_owned();
                out.push_str(frames[i % 10]);
                out.push_str("\x1b[0m \x1b[2m");
                out.push_str(desc);
                out.push_str("\x1b[0m");
                Some(out)
            },
        }
    }
}

/// Columns left for the description on an animated line of `cols`.
pub fn desc_budget(cols: usize) -> (r: usize)
    ensures
        r == (if cols > PREFIX_COLS + 1 {
            cols - (PREFIX_COLS + 1)
        } else {
            0
        }),
        cols >= 5 ==> r + 5 == cols,
{
    cols.saturating_sub(PREFIX_COLS + 1)
}

/// The names of the tools that have a description of their own.
pub open spec fn tool_names() -> Seq<Seq<char>> {
    seq![
        "run_program"@,
        "run_interactive"@,
        "read_file"@,
        "write_file"@,
        "edit_file"@,
        "append_file"@,
        "copy_file"@,
        "rename_file"@,
        "list_dir"@,
        "glob_expand"@,
        "grep_files"@,
        "stat_file"@,
        "diff_files"@,
        "change_dir"@,
        "remember"@,
        "recall"@,
        "run_in_background"@,
        "background_status"@,
        "job_output"@,
        "get_skill"@,
        "tell"@,
        "escalate"@,
    ]
}

proof fn lemma_tool_names()
    ensures
        forall|i: int, j: int|
            0 <= i < j < 22 ==> #[trigger] tool_names()[i] != #[trigger] tool_names()[j],
{
    reveal_strlit("run_program");
    reveal_strlit("run_interactive");
    reveal_strlit("read_file");
    reveal_strlit("write_file");
    reveal_strlit("edit_file");
    reveal_strlit("append_file");
    reveal_strlit("copy_file");
    reveal_strlit("rename_file");
    reveal_strlit("list_dir");
    reveal_strlit("glob_expand");
    reveal_strlit("grep_files");
    reveal_strlit("stat_file");
    reveal_strlit("diff_files");
    reveal_strlit("change_dir");
    reveal_strlit("remember");
    reveal_strlit("recall");
    reveal_strlit("run_in_background");
    reveal_strlit("background_status");
    reveal_strlit("job_output");
    reveal_strlit("get_skill");
    reveal_strlit("tell");
    reveal_strlit("escalate");
    let names = tool_names();
    assert forall|i: int, j: int| 0 <= i < j < 22 implies #[trigger] names[i]
        != #[trigger] names[j] by {
        assert(names[i].len() != names[j].len() || names[i][0] != names[j][0] || names[i][1]
            != names[j][1]);
    }
}

proof fn lemma_distinct_names(i: int, j: int)
    requires
        0 <= i < 22,
        0 <= j < 22,
        i != j,
    ensures
        tool_names()[i] != tool_names()[j],
{
    lemma_tool_names();
    if i < j {
        assert(tool_names()[i] != tool_names()[j]);
    } else {
        assert(tool_names()[j] != tool_names()[i]);
    }
}

/// Law: a call on a file is described by what is done and to which file: the path that the
/// arguments name, and where content is written how many bytes of it.
pub proof fn file_calls_name_their_file(c: CallV, path: Seq<char>, content: Seq<char>)
    requires
        json::member_text(c.args, "path"@) == Some(path),
        json::member_text(c.args, "content"@) == Some(content),
    ensures
        c.name == "read_file"@ ==> described(c) == "read "@ + path,
        c.name == "list_dir"@ ==> described(c) == "list "@ + path,
        c.name == "stat_file"@ ==> described(c) == "stat "@ + path,
        c.name == "change_dir"@ ==> described(c) == "cd "@ + path,
        c.name == "write_file"@ ==> described(c) == "write "@ + path + " ("@ + chars::dec(
            chars::byte_len(content),
        ) + " bytes)"@,
        c.name == "append_file"@ ==> described(c) == "append "@ + path + " ("@ + chars::dec(
            chars::byte_len(content),
        ) + " bytes)"@,
        c.name == "remember"@ ==> described(c) == "remember: "@ + content,
{
    lemma_tool_names();
    let n = tool_names();
    assert(n[2] == "read_file"@ && n[3] == "write_file"@ && n[5] == "append_file"@ && n[8]
        == "list_dir"@ && n[11] == "stat_file"@ && n[13] == "change_dir"@ && n[14] == "remember"@);
    assert(n[0] == "run_program"@ && n[1] == "run_interactive"@ && n[4] == "edit_file"@ && n[6]
        == "copy_file"@ && n[7] == "rename_file"@ && n[9] == "glob_expand"@ && n[10]
        == "grep_files"@ && n[12] == "diff_files"@);
}

/// Law: a copy and a renaming tell where from and where to.
pub proof fn moves_tell_where_from_and_to(c: CallV, src: Seq<char>, dst: Seq<char>)
    requires
        json::member_text(c.args, "src"@) == Some(src),
        json::member_text(c.args, "dst"@) == Some(dst),
    ensures
        c.name == "copy_file"@ ==> described(c) == "copy "@ + src + " → "@ + dst,
        c.name == "rename_file"@ ==> described(c) == "rename "@ + src + " → "@ + dst,
{
    lemma_tool_names();
    let n = tool_names();
    assert(n[0] == "run_program"@ && n[1] == "run_interactive"@ && n[2] == "read_file"@ && n[3]
        == "write_file"@ && n[4] == "edit_file"@ && n[5] == "append_file"@ && n[6] == "copy_file"@
        && n[7] == "rename_file"@);
}

/// Law: a search tells its pattern and where it looks, an edit its file and its pattern, and
/// a comparison both of its sides.
pub proof fn searches_tell_what_and_where(
    c: CallV,
    pattern: Seq<char>,
    path: Seq<char>,
    a: Seq<char>,
    b: Seq<char>,
)
    requires
        json::member_text(c.args, "pattern"@) == Some(pattern),
        json::member_text(c.args, "path"@) == Some(path),
        json::member_text(c.args, "a"@) == Some(a),
        json::member_text(c.args, "b"@) == Some(b),
        path.len() > 0,
        b.len() > 0,
    ensures
        c.name == "glob_expand"@ ==> described(c) == "glob "@ + pattern + " in "@ + path,
        c.name == "grep_files"@ ==> described(c) == "grep "@ + debug_text(pattern) + " in "@ + path,
        c.name == "edit_file"@ ==> described(c) == "edit "@ + path + " ("@ + debug_text(pattern) + ")"@,
        c.name == "diff_files"@ ==> described(c) == "diff "@ + a + " "@ + b,
{
    lemma_tool_names();
    let n = tool_names();
    assert(n[0] == "run_program"@ && n[1] == "run_interactive"@ && n[2] == "read_file"@ && n[3]
        == "write_file"@ && n[4] == "edit_file"@ && n[5] == "append_file"@ && n[6] == "copy_file"@
        && n[7] == "rename_file"@ && n[8] == "list_dir"@ && n[9] == "glob_expand"@ && n[10]
        == "grep_files"@ && n[11] == "stat_file"@ && n[12] == "diff_files"@);
}

/// Law: what is handed on is told: a task or a message on one line, to whom it goes, what
/// is asked for.
pub proof fn handed_work_is_told(
    c: CallV,
    task: Seq<char>,
    query: Seq<char>,
    job: nat,
    server: Seq<char>,
    name: Seq<char>,
    id: Seq<char>,
    message: Seq<char>,
)
    requires
        json::member_text(c.args, "task"@) == Some(task),
        json::member_text(c.args, "query"@) == Some(query),
        json::member(c.args, "job"@) == Some(JsonV::Number(chars::dec(job))),
        job <= u64::MAX,
        json::member_text(c.args, "server"@) == Some(server),
        json::member_text(c.args, "name"@) == Some(name),
        json::member_text(c.args, "id"@) == Some(id),
        json::member_text(c.args, "message"@) == Some(message),
    ensures
        c.name == "recall"@ ==> described(c) == "recall: "@ + query,
        c.name == "run_in_background"@ ==> described(c) == "background: "@ + flattened(task),
        c.name == "background_status"@ ==> described(c) == "background status"@,
        c.name == "job_output"@ ==> described(c) == "job output: "@ + chars::dec(job),
        c.name == "get_skill"@ ==> described(c) == "skill "@ + server + "/"@ + name,
        c.name == "tell"@ ==> described(c) == "tell "@ + id + ": "@ + flattened(message),
        c.name == "escalate"@ ==> described(c) == "escalate: "@ + flattened(task),
{
    chars::lemma_dec_digits(job);
    lemma_tool_names();
    let n = tool_names();
    assert(n[0] == "run_program"@ && n[1] == "run_interactive"@ && n[2] == "read_file"@ && n[3]
        == "write_file"@ && n[4] == "edit_file"@ && n[5] == "append_file"@ && n[6] == "copy_file"@
        && n[7] == "rename_file"@ && n[8] == "list_dir"@ && n[9] == "glob_expand"@ && n[10]
        == "grep_files"@ && n[11] == "stat_file"@ && n[12] == "diff_files"@ && n[13]
        == "change_dir"@ && n[14] == "remember"@ && n[15] == "recall"@ && n[16]
        == "run_in_background"@ && n[17] == "background_status"@ && n[18] == "job_output"@ && n[19]
        == "get_skill"@ && n[20] == "tell"@ && n[21] == "escalate"@);
}

/// Law: a program is described by its command line: the program and all its arguments, in
/// order; a first argument that only repeats the program is left out. A tool without a
/// description of its own is described by its name.
pub proof fn programs_are_described_by_their_command_line(
    c: CallV,
    program: Seq<char>,
    items: Seq<JsonV>,
)
    requires
        json::member_text(c.args, "program"@) == Some(program),
        json::member(c.args, "args"@) == Some(JsonV::Array(items)),
    ensures
        ({
            let args = strings(items);
            let shown = if args.len() > 0 && args[0] == program {
                args.skip(1)
            } else {
                args
            };
            let line = chars::trim(program + " "@ + chars::join(shown, " "@));
            &&& c.name == "run_program"@ ==> described(c) == line
            &&& c.name == "run_interactive"@ ==> described(c) == line
                + " (interactive — your terminal)"@
        }),
        !tool_names().contains(c.name) ==> described(c) == c.name,
{
    lemma_distinct_names(0, 1);
    let n = tool_names();
    assert(n[0] == "run_program"@ && n[1] == "run_interactive"@);
    if !n.contains(c.name) {
        assert(n[0] != c.name && n[1] != c.name && n[2] != c.name && n[3] != c.name && n[4] != c.name
            && n[5] != c.name && n[6] != c.name && n[7] != c.name && n[8] != c.name && n[9]
            != c.name && n[10] != c.name && n[11] != c.name && n[12] != c.name && n[13] != c.name
            && n[14] != c.name && n[15] != c.name && n[16] != c.name && n[17] != c.name && n[18]
            != c.name && n[19] != c.name && n[20] != c.name && n[21] != c.name);
    }
}

/// Law: the strings of a list are kept in order, and what is no string is passed over.
pub proof fn strings_are_kept_in_order(items: Seq<JsonV>, v: JsonV)
    ensures
        v matches JsonV::Str(s) ==> strings(items.push(v)) == strings(items).push(s),
        !(v is Str) ==> strings(items.push(v)) == strings(items),
{
    assert(items.push(v).drop_last() =~= items);
}

/// Law: a consult has a handshake, a tool of a server a wrench, whatever the case of its
/// name; a finished tool is marked by how it ended.
pub proof fn lines_are_marked(rest: Seq<char>, desc: Seq<char>)
    requires
        rest.len() > 0,
        !chars::is_ws(rest.last()),
    ensures
        glyph("mcp__"@ + rest) == "🔧"@,
        glyph("atum_"@ + rest) == "🔧"@,
        glyph("escalate"@) == "🤝"@,
        glyph("read_file"@) == "🛠️ "@,
        glyph("run_program"@) == "🛠️ "@,
        outcome_line(desc, true) == "\x1b[31m✗\x1b[0m "@ + desc,
        outcome_line(desc, false) == "\x1b[32m✓\x1b[0m "@ + desc,
{
    reveal_strlit("mcp__");
    reveal_strlit("mcp_");
    reveal_strlit("atum_");
    reveal_strlit("escalate");
    reveal_strlit("read_file");
    reveal_strlit("run_program");
    let m = "mcp__"@ + rest;
    let a = "atum_"@ + rest;
    assert(chars::trim_start(m) == m && m.last() == rest.last());
    assert(chars::trim_end(m) == m);
    assert(chars::trim_start(a) == a && a.last() == rest.last());
    assert(chars::trim_end(a) == a);
    assert(chars::lower(m).subrange(0, 5) =~= "mcp__"@);
    assert(chars::lower(a).subrange(0, 5) =~= "atum_"@);
    assert(chars::lower(m)[0] == 'm' && chars::lower(a)[0] == 'a');
    let e = "escalate"@;
    assert(chars::trim_start(e) == e && chars::trim_end(e) == e);
    assert(chars::lower(e) =~= e);
    lemma_hammer("read_file"@);
    lemma_hammer("run_program"@);
}

proof fn lemma_hammer(n: Seq<char>)
    requires
        n.len() > 0,
        n[0] == 'r',
        !chars::is_ws(n.last()),
    ensures
        glyph(n) == "🛠️ "@,
{
    reveal_strlit("mcp__");
    reveal_strlit("mcp_");
    reveal_strlit("atum_");
    reveal_strlit("escalate");
    assert(chars::trim_start(n) == n && chars::trim_end(n) == n);
    let l = chars::lower(n);
    assert(l[0] == 'r');
    assert(!chars::starts_with(l, "mcp__"@)) by {
        if chars::starts_with(l, "mcp__"@) {
            assert(l.subrange(0, 5)[0] == l[0]);
        }
    }
    assert(!chars::starts_with(l, "mcp_"@)) by {
        if chars::starts_with(l, "mcp_"@) {
            assert(l.subrange(0, 4)[0] == l[0]);
        }
    }
    assert(!chars::starts_with(l, "atum_"@)) by {
        if chars::starts_with(l, "atum_"@) {
            assert(l.subrange(0, 5)[0] == l[0]);
        }
    }
}

/// Law: an activity line is the glyph and the description on one line.
pub proof fn activity_lines_describe_the_call(c: CallV)
    ensures
        chars::starts_with(activity(c), glyph(c.name)),
        chars::ends_with(activity(c), flattened(described(c))),
{
    let a = activity(c);
    let g = glyph(c.name);
    let f = flattened(described(c));
    assert(a.subrange(0, g.len() as int) =~= g);
    assert(a.subrange(a.len() - f.len(), a.len() as int) =~= f);
}

/// Law: a result shows its text where that says anything, else its payload, and else that
/// there is none.
pub proof fn results_show_what_they_have(r: ResultV, i: int, v: JsonV)
    ensures
        0 <= i < r.content.len() && !chars::is_ws(r.content[i]) ==> body_of(r) == r.content,
        r.content.len() == 0 && r.structured == Some(v) ==> body_of(r) == json::pretty(v, 0),
        r.content.len() == 0 && r.structured is None ==> body_of(r) == "(no output)"@,
{
}

/// Law: under a finished tool a terminal shows how many lines it wrote, unless the lines
/// themselves are shown.
pub proof fn tools_tell_how_much_they_wrote(r: ResultV, cols: nat, tty: bool, raw: bool)
    ensures
        !tty || raw ==> stream_of(r, cols, tty, raw).len() == 0,
        tty && !raw && chars::lines(body_of(r)).len() > 0 ==> stream_of(r, cols, tty, raw) == seq![
            "\x1b[2m"@ + clipped(summary_text(chars::lines(body_of(r)).len()), cols) + "\x1b[0m"@,
        ],
        chars::starts_with(
            summary_text(chars::lines(body_of(r)).len()),
            "     … "@ + chars::dec(chars::lines(body_of(r)).len()),
        ),
        summary_lines(0).len() == 0,
        summary_lines(cols + 1) == seq![summary_text(cols + 1)],
{
    let n = chars::lines(body_of(r)).len();
    let h = "     … "@ + chars::dec(n);
    assert(summary_text(n).subrange(0, h.len() as int) =~= h);
}

/// Law: in full, a run shows every line of its output, in order, below its header.
pub proof fn full_runs_show_every_line(r: RunV, i: int)
    requires
        0 <= i < output_lines(r),
    ensures
        expanded(r)[0] == header_of(r),
        expanded(r)[i + 1] == "\x1b[2m     "@ + chars::lines(body_of(r.result))[i] + "\x1b[0m"@,
        expanded(r).len() == output_lines(r) + 1,
        chars::contains_str(header_of(r), outcome_line(r.desc, r.result.is_error)),
{
    chars::lemma_holds_part(
        "\x1b[2m  "@,
        outcome_line(r.desc, r.result.is_error),
        "\x1b[0m"@,
    );
}

/// Law: the width of a terminal is what it reports, else what the variable says, else the
/// default.
pub proof fn widths_come_from_the_terminal_first(n: usize, v: Seq<char>, m: usize, default: usize)
    requires
        0 < n,
        0 < m,
    ensures
        columns_of(Some(n), Some(v), default) == n,
        columns_of(None, Some(chars::dec(m as nat)), default) == m,
        columns_of(Some(0), Some(chars::dec(m as nat)), default) == m,
        columns_of(None, None, default) == default,
{
    chars::lemma_parse_dec(m as nat, usize::MAX as nat);
}

/// Law: totals add up what the backend reports, figure by figure, and never fall; without a
/// report only the window's figure changes.
pub proof fn totals_add_up(s: Stats, u: Usage, estimate: u64)
    requires
        s.tokens_in + u.input_tokens <= u64::MAX,
        s.tokens_out + u.output_tokens <= u64::MAX,
        s.cache_read_total + u.cache_read_tokens <= u64::MAX,
        s.cache_creation_total + u.cache_creation_tokens <= u64::MAX,
    ensures
        ({
            let t = s.after(Some(u), estimate);
            &&& t.tokens_in == s.tokens_in + u.input_tokens
            &&& t.tokens_out == s.tokens_out + u.output_tokens
            &&& t.cache_read_total == s.cache_read_total + u.cache_read_tokens
            &&& t.cache_creation_total == s.cache_creation_total + u.cache_creation_tokens
            &&& t.context_used == u.total
            &&& t.turns_total == s.turns_total && t.tool_calls_total == s.tool_calls_total
        }),
        s.after(None, estimate) == (Stats { context_used: estimate, ..s }),
{
}

/// Law: the status line tells the tokens in and out, the calls and the turns.
pub proof fn status_lines_tell_the_totals(s: Stats, hit: nat)
    ensures
        s.turns_total > 0 || s.tool_calls_total > 0 || s.tokens_in > 0 || s.tokens_out > 0
            ==> chars::starts_with(
            s.line(hit),
            "tokens: "@ + chars::dec(s.tokens_in as nat) + " in / "@ + chars::dec(s.tokens_out as nat)
                + " out, tool calls: "@ + chars::dec(s.tool_calls_total as nat) + ", turns: "@
                + chars::dec(s.turns_total as nat),
        ),
        s.turns_total == 0 && s.tool_calls_total == 0 && s.tokens_in == 0 && s.tokens_out == 0
            ==> s.line(hit).len() == 0,
{
    let l = s.line(hit);
    let h = "tokens: "@ + chars::dec(s.tokens_in as nat) + " in / "@ + chars::dec(
        s.tokens_out as nat,
    ) + " out, tool calls: "@ + chars::dec(s.tool_calls_total as nat) + ", turns: "@ + chars::dec(
        s.turns_total as nat,
    );
    let tail = if s.cache_read_total > 0 && s.tokens_in > 0 {
        ", cache: "@ + chars::dec(hit) + "% hit"@
    } else {
        seq![]
    };
    lemma_begins(h, tail);
}

proof fn lemma_begins(h: Seq<char>, tail: Seq<char>)
    ensures
        chars::starts_with(h + tail, h),
{
    assert((h + tail).subrange(0, h.len() as int) =~= h);
}

/// Law: a toggle says whether the raw view is on and then shows the whole turn in that view.
pub proof fn toggles_show_the_turn(rs: Seq<RunV>)
    ensures
        toggle_lines(rs, true).skip(1) == turn_view(rs, true),
        toggle_lines(rs, false).skip(1) == turn_view(rs, false),
        toggle_lines(rs, true)[0] != toggle_lines(rs, false)[0],
        chars::contains_str(toggle_lines(rs, true)[0], "output on"@),
        chars::contains_str(toggle_lines(rs, false)[0], "output off"@),
{
    lemma_toggle_on();
    lemma_toggle_off();
    assert(toggle_lines(rs, true).skip(1) =~= turn_view(rs, true));
    assert(toggle_lines(rs, false).skip(1) =~= turn_view(rs, false));
}

proof fn lemma_toggle_on()
    ensures
        "\x1b[2mraw tool output on\x1b[0m"@.len() == 26,
        chars::contains_str("\x1b[2mraw tool output on\x1b[0m"@, "output on"@),
{
    reveal_strlit("\x1b[2mraw tool output on\x1b[0m");
    reveal_strlit("\x1b[2mraw tool ");
    reveal_strlit("output on");
    reveal_strlit("\x1b[0m");
    assert("\x1b[2mraw tool output on\x1b[0m"@ =~= "\x1b[2mraw tool "@ + "output on"@
        + "\x1b[0m"@);
    chars::lemma_holds_part("\x1b[2mraw tool "@, "output on"@, "\x1b[0m"@);
}

proof fn lemma_toggle_off()
    ensures
        "\x1b[2mraw tool output off\x1b[0m"@.len() == 27,
        chars::contains_str("\x1b[2mraw tool output off\x1b[0m"@, "output off"@),
{
    reveal_strlit("\x1b[2mraw tool output off\x1b[0m");
    reveal_strlit("\x1b[2mraw tool ");
    reveal_strlit("output off");
    reveal_strlit("\x1b[0m");
    assert("\x1b[2mraw tool output off\x1b[0m"@ =~= "\x1b[2mraw tool "@ + "output off"@
        + "\x1b[0m"@);
    chars::lemma_holds_part("\x1b[2mraw tool "@, "output off"@, "\x1b[0m"@);
}

/// Law: a painted line takes as many rows as its columns fill, at least one; a block takes
/// the rows of its lines together, up to the largest number. A block is erased from the row
/// above it; without one nothing is erased.
pub proof fn painted_rows_are_all_erased(ls: Seq<Seq<char>>, l: Seq<char>, cols: nat, rows: nat)
    requires
        cols > 0,
        painted_rows(ls.push(l), cols) < usize::MAX,
    ensures
        ({
            let more = painted_rows(ls.push(l), cols) - painted_rows(ls, cols);
            let w = stripped_width(l) as int;
            &&& more >= 1
            &&& w <= more * cols
            &&& w > 0 ==> (more - 1) * cols < w
            &&& w == 0 ==> more == 1
        }),
        painted_rows(Seq::empty(), cols) == 0,
        erase_block(0).len() == 0,
        rows > 0 ==> chars::contains_str(erase_block(rows), chars::dec(rows + 1)),
{
    assert(ls.push(l).drop_last() =~= ls);
    let w = stripped_width(l) as int;
    let c = cols as int;
    if w > 0 {
        vstd::arithmetic::div_mod::lemma_fundamental_div_mod(w - 1, c);
        let q = (w - 1) / c;
        assert(q >= 0) by (nonlinear_arith)
            requires
                q == (w - 1) / c,
                w > 0,
                c > 0,
        ;
        assert((q + 1) * c == c * q + c) by (nonlinear_arith);
        assert(q * c == c * q) by (nonlinear_arith);
    }
    if rows > 0 {
        chars::lemma_holds_part("\x1b["@, chars::dec(rows + 1), "F\x1b[0J"@);
    }
}

} // verus!
