//! Diagnostics: what is wrong with a command, a config line or a program name,
//! where, under which stable code, and what to do about it.
use miette::{GraphicalReportHandler, GraphicalTheme, LabeledSpan, MietteDiagnostic, NamedSource, Report};
use vstd::prelude::*;
use crate::{chars, json, text};

verus! {

/// A stretch of bytes in a source text.
#[derive(Clone, Copy, Debug, PartialEq, Eq)]
pub struct Span {
    pub offset: usize,
    pub len: usize,
}

/// A source text and the name it goes by.
#[derive(Clone, Debug)]
pub struct Source {
    pub name: String,
    pub text: String,
}

/// One diagnostic. The parse and config variants carry the offending source text
/// and the span of the caret in it; the exec variant has no place, only an optional
/// hint.
#[derive(Clone, Debug)]
pub enum AishDiagnostic {
    /// A quote is opened and never closed; the caret sits on the opening quote.
    UnbalancedQuote { src: Source, span: Span },
    /// A shell metacharacter that there is no shell to interpret.
    UnsupportedMeta { ch: char, src: Source, span: Span },
    /// A pipeline stage with no command.
    EmptyStage { src: Source, span: Span },
    /// An unterminated or invalid `${…}`; the caret sits on the `$`.
    BadVarRef { src: Source, span: Span },
    /// A config line that cannot be honoured.
    BadConfigLine { src: Source, span: Span },
    /// A program that is not on the path.
    ExecFailed { cmd: String, hint: Option<String> },
}

pub const QUOTE_HELP: &'static str = "close the quote — or, if you meant prose (an apostrophe in English), drop the `!` so the line routes to the model";

pub const META_HELP: &'static str = "there's no shell underneath aish — pipes, redirection, globbing, and command substitution aren't available in a directly-run command";

pub const STAGE_HELP: &'static str = "every stage of a pipeline needs a command — remove the extra `|` or fill the gap";

pub const VAR_HELP: &'static str = "use $NAME or ${NAME} — the braces must close and contain only letters, digits, or underscores";

pub const CONFIG_HELP: &'static str = "aish honors only `export NAME=value` and `alias name='value'`; command substitution and extra words need a shell aish doesn't have — the rest of the file still loads";

/// Where a diagnostic points: the source's name and text, the span, and the label
/// under the caret.
pub ghost struct PlaceV {
    pub name: Seq<char>,
    pub text: Seq<char>,
    pub span: Span,
    pub label: Seq<char>,
}

impl AishDiagnostic {
    /// The line that says what is wrong.
    pub open spec fn message_text(self) -> Seq<char> {
        match self {
            AishDiagnostic::UnbalancedQuote { .. } => "unbalanced quote"@,
            AishDiagnostic::UnsupportedMeta { ch, .. } => "unsupported shell metacharacter `"@ + seq![ch] + "`"@,
            AishDiagnostic::EmptyStage { .. } => "empty pipeline stage"@,
            AishDiagnostic::BadVarRef { .. } => "malformed variable reference"@,
            AishDiagnostic::BadConfigLine { .. } => "malformed config line"@,
            AishDiagnostic::ExecFailed { cmd, .. } => "command not found: "@ + cmd@,
        }
    }

    /// The stable code.
    pub open spec fn code_text(self) -> Seq<char> {
        match self {
            AishDiagnostic::UnbalancedQuote { .. } => "aish::parse::unbalanced_quote"@,
            AishDiagnostic::UnsupportedMeta { .. } => "aish::parse::unsupported_meta"@,
            AishDiagnostic::EmptyStage { .. } => "aish::parse::empty_stage"@,
            AishDiagnostic::BadVarRef { .. } => "aish::parse::bad_var_ref"@,
            AishDiagnostic::BadConfigLine { .. } => "aish::config::bad_export"@,
            AishDiagnostic::ExecFailed { .. } => "aish::exec::not_found"@,
        }
    }

    /// The advice, where there is any.
    pub open spec fn help_text(self) -> Option<Seq<char>> {
        match self {
            AishDiagnostic::UnbalancedQuote { .. } => Some(QUOTE_HELP@),
            AishDiagnostic::UnsupportedMeta { .. } => Some(META_HELP@),
            AishDiagnostic::EmptyStage { .. } => Some(STAGE_HELP@),
            AishDiagnostic::BadVarRef { .. } => Some(VAR_HELP@),
            AishDiagnostic::BadConfigLine { .. } => Some(CONFIG_HELP@),
            AishDiagnostic::ExecFailed { hint, .. } => match hint {
                Some(h) => Some(h@),
                None => None,
            },
        }
    }

    /// Where the diagnostic points, if it points anywhere.
    pub open spec fn place(self) -> Option<PlaceV> {
        match self {
            AishDiagnostic::UnbalancedQuote { src, span } => Some(
                placed(src, span, "this quote is never closed"@),
            ),
            AishDiagnostic::UnsupportedMeta { src, span, .. } => Some(
                placed(src, span, "not supported here"@),
            ),
            AishDiagnostic::EmptyStage { src, span } => Some(
                placed(src, span, "this stage has no command"@),
            ),
            AishDiagnostic::BadVarRef { src, span } => Some(
                placed(src, span, "this reference is malformed"@),
            ),
            AishDiagnostic::BadConfigLine { src, span } => Some(
                placed(src, span, "aish can't parse this"@),
            ),
            AishDiagnostic::ExecFailed { .. } => None,
        }
    }

    /// Whether the diagnostic can be drawn: its span covers something, its end can be
    /// counted, and the column of the caret fits a 16-bit number.
    pub open spec fn sound(self) -> bool {
        self.place() matches Some(p) ==> 0 < p.span.len && p.span.offset + p.span.len <= usize::MAX
            && caret_column(p.text, p.span.offset as nat, 0) <= 65535
    }
}

/// Columns that `c` takes on a terminal, or more.
pub open spec fn columns_of(c: char) -> nat {
    if c == '\t' {
        4
    } else if (c as u32) < 0x80 {
        1
    } else if c as u32 == 0x17D8 {
        3
    } else {
        2
    }
}

/// Columns before byte `offset` of `text` on its line, when there are `before` already.
pub open spec fn caret_column(text: Seq<char>, offset: nat, before: nat) -> nat
    decreases text.len(),
{
    if text.len() == 0 || offset == 0 {
        before
    } else {
        let n = chars::char_len(text[0]);
        caret_column(
            text.skip(1),
            if offset < n {
                0
            } else {
                (offset - n) as nat
            },
            if text[0] == '\n' {
                0
            } else {
                before + columns_of(text[0])
            },
        )
    }
}

/// A place in `src`.
pub open spec fn placed(src: Source, span: Span, label: Seq<char>) -> PlaceV {
    PlaceV { name: src.name@, text: src.text@, span, label }
}

/// What `miette::GraphicalReportHandler::render_report` writes, under the theme
/// `GraphicalTheme::unicode` when `color` is set and `GraphicalTheme::none`
/// otherwise, for a diagnostic with this message, code and help, the source
/// `text` under `name`, and one label on the bytes of `span` when there is one.
pub uninterp spec fn drawn(
    message: Seq<char>,
    code: Seq<char>,
    help: Option<Seq<char>>,
    name: Seq<char>,
    text: Seq<char>,
    span: Option<(usize, usize)>,
    label: Seq<char>,
    color: bool,
) -> Seq<char>;

/// Calls `miette::GraphicalReportHandler::render_report` in the theme
/// `GraphicalTheme::unicode`. The result depends on the arguments alone; how the
/// report is laid out is not stated. The column of the label's first byte is written as
/// a format width, which must fit 16 bits. `caret_column` is no less than it: tabs go to
/// the next multiple of four columns, and what `unicode_width` gives for another
/// character is one at most in ASCII, three for U+17D8 and two at most for the rest.
#[verifier::external_body]
fn draw_in_color(
    message: String,
    code: &str,
    help: Option<String>,
    name: &str,
    text: &str,
    span: Option<(usize, usize)>,
    label: &str,
) -> (r: String)
    requires
        span matches Some(s) ==> 0 < s.1 && s.0 + s.1 <= usize::MAX && caret_column(
            text@,
            s.0 as nat,
            0,
        ) <= 65535,
    ensures
        r@ == drawn(message@, code@, opt_view(help), name@, text@, span, label@, true),
{
    let labels = span.map(|s| vec![LabeledSpan::new(Some(label.to_owned()), s.0, s.1)]);
    let code = Some(code.to_owned());
    let d = MietteDiagnostic { message, code, severity: None, help, url: None, labels };
    let report = Report::new(d).with_source_code(NamedSource::new(name, text.to_owned()));
    let mut out = String::new();
    let _ = GraphicalReportHandler::new_themed(GraphicalTheme::unicode()).render_report(&mut out, &*report);
    out
}

/// Calls `miette::GraphicalReportHandler::render_report` in the theme
/// `GraphicalTheme::none`. The result depends on the arguments alone; how the
/// report is laid out is not stated. The column of the label's first byte is written as
/// a format width, which must fit 16 bits. `caret_column` is no less than it: tabs go to
/// the next multiple of four columns, and what `unicode_width` gives for another
/// character is one at most in ASCII, three for U+17D8 and two at most for the rest.
#[verifier::external_body]
fn draw_plain(
    message: String,
    code: &str,
    help: Option<String>,
    name: &str,
    text: &str,
    span: Option<(usize, usize)>,
    label: &str,
) -> (r: String)
    requires
        span matches Some(s) ==> 0 < s.1 && s.0 + s.1 <= usize::MAX && caret_column(
            text@,
            s.0 as nat,
            0,
        ) <= 65535,
    ensures
        r@ == drawn(message@, code@, opt_view(help), name@, text@, span, label@, false),
{
    let labels = span.map(|s| vec![LabeledSpan::new(Some(label.to_owned()), s.0, s.1)]);
    let code = Some(code.to_owned());
    let d = MietteDiagnostic { message, code, severity: None, help, url: None, labels };
    let report = Report::new(d).with_source_code(NamedSource::new(name, text.to_owned()));
    let mut out = String::new();
    let _ = GraphicalReportHandler::new_themed(GraphicalTheme::none()).render_report(&mut out, &*report);
    out
}

/// The view of an optional string.
pub open spec fn opt_view(s: Option<String>) -> Option<Seq<char>> {
    match s {
        Some(t) => Some(t@),
        None => None,
    }
}

impl AishDiagnostic {
    /// A quote opened at byte `offset` of `line` and never closed.
    pub fn unbalanced_quote(line: &str, offset: usize) -> (r: Self)
        ensures
            r is UnbalancedQuote,
            r.place() == Some(
                (PlaceV {
                    name: "command"@,
                    text: line@,
                    span: Span { offset, len: 1 },
                    label: "this quote is never closed"@,
                }),
            ),
    {
        AishDiagnostic::UnbalancedQuote {
            src: Source { name: "command".to_owned(), text: line.to_owned() },
            span: Span { offset, len: 1 },
        }
    }

    /// The metacharacter `ch` at byte `offset` of `line`.
    pub fn unsupported_meta(line: &str, offset: usize, ch: char) -> (r: Self)
        ensures
            r matches AishDiagnostic::UnsupportedMeta { ch: c, .. } && c == ch,
            r.place() == Some(
                (PlaceV {
                    name: "command"@,
                    text: line@,
                    span: Span { offset, len: chars::byte_len(seq![ch]) as usize },
                    label: "not supported here"@,
                }),
            ),
    {
        proof {
            chars::lemma_byte_len_one(ch);
        }
        AishDiagnostic::UnsupportedMeta {
            ch,
            src: Source { name: "command".to_owned(), text: line.to_owned() },
            span: Span { offset, len: text::char_len(ch) },
        }
    }

    /// A malformed variable reference whose `$` is at byte `offset` of `line`.
    pub fn bad_var_ref(line: &str, offset: usize) -> (r: Self)
        ensures
            r is BadVarRef,
            r.place() == Some(
                (PlaceV {
                    name: "command"@,
                    text: line@,
                    span: Span { offset, len: 1 },
                    label: "this reference is malformed"@,
                }),
            ),
    {
        AishDiagnostic::BadVarRef {
            src: Source { name: "command".to_owned(), text: line.to_owned() },
            span: Span { offset, len: 1 },
        }
    }

    /// A pipeline stage without a command at byte `offset` of `line`.
    pub fn empty_stage(line: &str, offset: usize) -> (r: Self)
        ensures
            r is EmptyStage,
            r.place() == Some(
                (PlaceV {
                    name: "command"@,
                    text: line@,
                    span: Span { offset, len: 1 },
                    label: "this stage has no command"@,
                }),
            ),
    {
        AishDiagnostic::EmptyStage {
            src: Source { name: "command".to_owned(), text: line.to_owned() },
            span: Span { offset, len: 1 },
        }
    }

    /// A config line, number `line_no`, that fails at byte `offset`. The caret
    /// never stands behind the last byte of the line.
    pub fn bad_config_line(line: &str, line_no: usize, offset: usize) -> (r: Self)
        ensures
            r is BadConfigLine,
            r.place() == Some(
                (PlaceV {
                    name: "~/.aishrc:"@ + chars::dec(line_no as nat),
                    text: line@,
                    span: Span { offset: caret(line@, offset), len: 1 },
                    label: "aish can't parse this"@,
                }),
            ),
            r.sound() == (caret_column(line@, caret(line@, offset) as nat, 0) <= 65535),
    {
        let n: usize = text::byte_len(line);
        let last: usize = if n > 0 { n - 1 } else { 0 };
        let at: usize = if offset < last { offset } else { last };
        let mut name = "~/.aishrc:".to_owned();
        text::push_usize(&mut name, line_no);
        AishDiagnostic::BadConfigLine {
            src: Source { name, text: line.to_owned() },
            span: Span { offset: at, len: 1 },
        }
    }

    /// The program `cmd` was not found; `hint` may say what was meant.
    pub fn exec_not_found(cmd: &str, hint: Option<String>) -> (r: Self)
        ensures
            r matches AishDiagnostic::ExecFailed { cmd: c, hint: h } && c@ == cmd@ && h == hint,
    {
        AishDiagnostic::ExecFailed { cmd: cmd.to_owned(), hint }
    }

    /// The line that says what is wrong.
    pub fn message(&self) -> (r: String)
        ensures
            r@ == self.message_text(),
    {
        match self {
            AishDiagnostic::UnbalancedQuote { .. } => "unbalanced quote".to_owned(),
            AishDiagnostic::UnsupportedMeta { ch, .. } => {
                let mut out = "unsupported shell metacharacter `".to_owned();
                out.push(*ch);
                assert(out@ =~= "unsupported shell metacharacter `"@ + seq![*ch]);
                out.push_str("`");
                out
            },
            AishDiagnostic::EmptyStage { .. } => "empty pipeline stage".to_owned(),
            AishDiagnostic::BadVarRef { .. } => "malformed variable reference".to_owned(),
            AishDiagnostic::BadConfigLine { .. } => "malformed config line".to_owned(),
            AishDiagnostic::ExecFailed { cmd, .. } => {
                let mut out = "command not found: ".to_owned();
                out.push_str(cmd.as_str());
                out
            },
        }
    }

    /// The stable code.
    pub fn code(&self) -> (r: &'static str)
        ensures
            r@ == self.code_text(),
    {
        match self {
            AishDiagnostic::UnbalancedQuote { .. } => "aish::parse::unbalanced_quote",
            AishDiagnostic::UnsupportedMeta { .. } => "aish::parse::unsupported_meta",
            AishDiagnostic::EmptyStage { .. } => "aish::parse::empty_stage",
            AishDiagnostic::BadVarRef { .. } => "aish::parse::bad_var_ref",
            AishDiagnostic::BadConfigLine { .. } => "aish::config::bad_export",
            AishDiagnostic::ExecFailed { .. } => "aish::exec::not_found",
        }
    }

    /// The advice, where there is any.
    pub fn help(&self) -> (r: Option<String>)
        ensures
            opt_view(r) == self.help_text(),
    {
        match self {
            AishDiagnostic::UnbalancedQuote { .. } => Some(QUOTE_HELP.to_owned()),
            AishDiagnostic::UnsupportedMeta { .. } => Some(META_HELP.to_owned()),
            AishDiagnostic::EmptyStage { .. } => Some(STAGE_HELP.to_owned()),
            AishDiagnostic::BadVarRef { .. } => Some(VAR_HELP.to_owned()),
            AishDiagnostic::BadConfigLine { .. } => Some(CONFIG_HELP.to_owned()),
            AishDiagnostic::ExecFailed { hint, .. } => match hint {
                Some(h) => Some(h.as_str().to_owned()),
                None => None,
            },
        }
    }

    /// The source, the span and the label, where there is a place to point at.
    pub fn location(&self) -> (r: Option<(&Source, Span, &'static str)>)
        ensures
            match r {
                Some(l) => self.place() == Some(placed(*l.0, l.1, l.2@)),
                None => self.place() is None,
            },
    {
        match self {
            AishDiagnostic::UnbalancedQuote { src, span } => Some(
                (src, *span, "this quote is never closed"),
            ),
            AishDiagnostic::UnsupportedMeta { src, span, .. } => Some(
                (src, *span, "not supported here"),
            ),
            AishDiagnostic::EmptyStage { src, span } => Some(
                (src, *span, "this stage has no command"),
            ),
            AishDiagnostic::BadVarRef { src, span } => Some(
                (src, *span, "this reference is malformed"),
            ),
            AishDiagnostic::BadConfigLine { src, span } => Some(
                (src, *span, "aish can't parse this"),
            ),
            AishDiagnostic::ExecFailed { .. } => None,
        }
    }
}

fn column_of(s: &str, offset: usize) -> (r: u128)
    ensures
        r == caret_column(s@, offset as nat, 0),
{
    let v = text::chars_of(s);
    let mut i: usize = 0;
    let mut left: usize = offset;
    let mut before: u128 = 0;
    assert(v@.skip(0) =~= v@);
    while i < v.len() && left > 0
        invariant
            i <= v@.len(),
            before <= 4 * i,
            caret_column(v@.skip(i as int), left as nat, before as nat) == caret_column(
                v@,
                offset as nat,
                0,
            ),
        decreases v@.len() - i,
    {
        let c = v[i];
        let n: usize = text::char_len(c);
        assert(v@.skip(i as int).skip(1) =~= v@.skip(i + 1));
        left = if left < n { 0 } else { left - n };
        before = if c == '\n' {
            0
        } else if c == '\t' {
            before + 4
        } else if (c as u32) < 0x80 {
            before + 1
        } else if c as u32 == 0x17D8 {
            before + 3
        } else {
            before + 2
        };
        i += 1;
    }
    before
}

impl AishDiagnostic {
    /// Whether the diagnostic can be drawn.
    pub fn is_sound(&self) -> (r: bool)
        ensures
            r == self.sound(),
    {
        match self.location() {
            Some((src, span, _)) => 0 < span.len && span.len <= usize::MAX - span.offset
                && column_of(src.text.as_str(), span.offset) <= 65535,
            None => true,
        }
    }
}

/// Byte `offset` of `line`, or the last byte where `offset` is behind it.
pub open spec fn caret(line: Seq<char>, offset: usize) -> usize {
    let n = chars::byte_len(line);
    if offset < n {
        offset
    } else if n > 0 {
        (n - 1) as usize
    } else {
        0
    }
}

/// The picture of a diagnostic.
pub open spec fn picture(d: AishDiagnostic, color: bool) -> Seq<char> {
    match d.place() {
        Some(p) => drawn(
            d.message_text(),
            d.code_text(),
            d.help_text(),
            p.name,
            p.text,
            Some((p.span.offset, p.span.len)),
            p.label,
            color,
        ),
        None => drawn(
            d.message_text(),
            d.code_text(),
            d.help_text(),
            ""@,
            ""@,
            None,
            ""@,
            color,
        ),
    }
}

/// The diagnostic drawn for a terminal, colored or plain.
pub fn render_themed(d: &AishDiagnostic, color: bool) -> (r: String)
    requires
        d.sound(),
    ensures
        r@ == picture(*d, color),
{
    let message = d.message();
    let help = d.help();
    match d.location() {
        Some((src, span, label)) => {
            let at = Some((span.offset, span.len));
            let name = src.name.as_str();
            let body = src.text.as_str();
            if color {
                draw_in_color(message, d.code(), help, name, body, at, label)
            } else {
                draw_plain(message, d.code(), help, name, body, at, label)
            }
        },
        None => if color {
            draw_in_color(message, d.code(), help, "", "", None, "")
        } else {
            draw_plain(message, d.code(), help, "", "", None, "")
        },
    }
}

/// The edit distance: how many insertions, deletions and replacements of one
/// character turn `a` into `b` at the least.
pub open spec fn distance(a: Seq<char>, b: Seq<char>) -> nat
    decreases a.len() + b.len(),
{
    if a.len() == 0 {
        b.len()
    } else if b.len() == 0 {
        a.len()
    } else {
        least(
            least(distance(a.drop_last(), b) + 1, distance(a, b.drop_last()) + 1),
            distance(a.drop_last(), b.drop_last()) + if a.last() == b.last() { 0nat } else { 1nat },
        )
    }
}

pub open spec fn least(x: nat, y: nat) -> nat {
    if x <= y {
        x
    } else {
        y
    }
}

/// The distance is at most the length of the longer text.
pub proof fn lemma_distance_bound(a: Seq<char>, b: Seq<char>)
    ensures
        distance(a, b) <= a.len() || distance(a, b) <= b.len(),
    decreases a.len() + b.len(),
{
    if a.len() > 0 && b.len() > 0 {
        lemma_distance_bound(a.drop_last(), b.drop_last());
    }
}

/// Turning `a` into `b` takes as many steps as turning `b` into `a`.
pub proof fn distance_is_symmetric(a: Seq<char>, b: Seq<char>)
    ensures
        distance(a, b) == distance(b, a),
    decreases a.len() + b.len(),
{
    if a.len() > 0 && b.len() > 0 {
        distance_is_symmetric(a.drop_last(), b);
        distance_is_symmetric(a, b.drop_last());
        distance_is_symmetric(a.drop_last(), b.drop_last());
    }
}

/// Only equal texts are at distance zero.
pub proof fn distance_separates(a: Seq<char>, b: Seq<char>)
    ensures
        distance(a, b) == 0 <==> a == b,
    decreases a.len() + b.len(),
{
    if a.len() == 0 || b.len() == 0 {
        if distance(a, b) == 0 {
            assert(a =~= b);
        }
    } else {
        let p = a.drop_last();
        let q = b.drop_last();
        distance_separates(p, q);
        if p == q && a.last() == b.last() {
            assert(a =~= p.push(a.last()));
            assert(b =~= q.push(b.last()));
        }
    }
}

/// The edit distance between `a` and `b`, row by row.
pub fn levenshtein(a: &str, b: &str) -> (r: usize)
    ensures
        r == distance(a@, b@),
{
    let x = text::chars_of(a);
    let y = text::chars_of(b);
    let n: usize = x.len();
    let m: usize = y.len();
    if n == 0 {
        return m;
    }
    if m == 0 {
        return n;
    }
    let mut prev: Vec<usize> = Vec::new();
    let mut j: usize = 0;
    while j < m
        invariant
            m == y@.len(),
            j <= m,
            prev@.len() == j,
            forall|k: int| 0 <= k < j ==> prev@[k] == distance(x@.take(0), #[trigger] y@.take(k)),
        decreases m - j,
    {
        assert(distance(x@.take(0), y@.take(j as int)) == j);
        prev.push(j);
        j += 1;
    }
    assert(distance(x@.take(0), y@.take(m as int)) == m);
    prev.push(m);
    let mut i: usize = 0;
    while i < n
        invariant
            n == x@.len(),
            m == y@.len(),
            0 < m,
            i <= n,
            prev@.len() == m + 1,
            forall|k: int|
                0 <= k <= m ==> prev@[k] == distance(x@.take(i as int), #[trigger] y@.take(k)),
        decreases n - i,
    {
        let mut cur: Vec<usize> = Vec::new();
        assert(x@.take(i + 1).drop_last() =~= x@.take(i as int));
        assert(distance(x@.take(i + 1), y@.take(0)) == i + 1);
        cur.push(i + 1);
        let mut j: usize = 0;
        while j < m
            invariant
                n == x@.len(),
                m == y@.len(),
                i < n,
                j <= m,
                prev@.len() == m + 1,
                cur@.len() == j + 1,
                x@.take(i + 1).drop_last() == x@.take(i as int),
                forall|k: int|
                    0 <= k <= m ==> prev@[k] == distance(x@.take(i as int), #[trigger] y@.take(k)),
                forall|k: int|
                    0 <= k <= j ==> cur@[k] == distance(x@.take(i + 1), #[trigger] y@.take(k)),
            decreases m - j,
        {
            proof {
                assert(y@.take(j + 1).drop_last() =~= y@.take(j as int));
                lemma_distance_bound(x@.take(i as int), y@.take(j + 1));
                lemma_distance_bound(x@.take(i + 1), y@.take(j as int));
                lemma_distance_bound(x@.take(i as int), y@.take(j as int));
                assert(prev@[j + 1] == distance(x@.take(i as int), y@.take(j + 1)));
                assert(prev@[j as int] == distance(x@.take(i as int), y@.take(j as int)));
                assert(cur@[j as int] == distance(x@.take(i + 1), y@.take(j as int)));
                assert(x@.take(i + 1).last() == x@[i as int]);
                assert(y@.take(j + 1).last() == y@[j as int]);
            }
            let width: usize = prev.len();
            assert(width == m + 1);
            let cost: usize = if x[i] == y[j] { 0 } else { 1 };
            let drop: usize = prev[j + 1];
            let add: usize = cur[j];
            let swap: usize = prev[j] + cost;
            let edge: usize = if drop <= add { drop + 1 } else { add + 1 };
            let best: usize = if edge <= swap { edge } else { swap };
            assert(best == distance(x@.take(i + 1), y@.take(j + 1)));
            cur.push(best);
            j += 1;
        }
        prev = cur;
        i += 1;
    }
    assert(x@.take(n as int) =~= x@);
    assert(y@.take(m as int) =~= y@);
    prev[m]
}

/// Whether `c` is close enough to `target` to be what was meant, and not the same.
pub open spec fn close(target: Seq<char>, c: Seq<char>) -> bool {
    1 <= distance(target, c) <= 2
}

/// Whether `a` is a better guess than `b`: closer, or as close and first in
/// alphabetical order.
pub open spec fn nearer(target: Seq<char>, a: Seq<char>, b: Seq<char>) -> bool {
    ||| distance(target, a) < distance(target, b)
    ||| distance(target, a) == distance(target, b) && json::text_lt(a, b)
}

/// The candidate closest to `target`, at most two edits away but not equal to it.
pub fn nearest_command(target: &str, candidates: &[&str]) -> (r: Option<String>)
    ensures
        match r {
            Some(c) => {
                &&& close(target@, c@)
                &&& exists|i: int| 0 <= i < candidates@.len() && #[trigger] candidates@[i]@ == c@
                &&& forall|i: int|
                    0 <= i < candidates@.len() && close(target@, #[trigger] candidates@[i]@)
                        ==> !nearer(target@, candidates@[i]@, c@)
            },
            None => forall|i: int|
                0 <= i < candidates@.len() ==> !close(target@, #[trigger] candidates@[i]@),
        },
{
    let mut best: Option<(usize, usize)> = None;
    let n: usize = candidates.len();
    let mut i: usize = 0;
    while i < n
        invariant
            n == candidates@.len(),
            i <= n,
            match best {
                Some((k, d)) => {
                    &&& k < i
                    &&& close(target@, candidates@[k as int]@)
                    &&& d == distance(target@, candidates@[k as int]@)
                    &&& forall|j: int|
                        0 <= j < i && close(target@, #[trigger] candidates@[j]@) ==> !nearer(
                            target@,
                            candidates@[j]@,
                            candidates@[k as int]@,
                        )
                },
                None => forall|j: int|
                    0 <= j < i ==> !close(target@, #[trigger] candidates@[j]@),
            },
        decreases n - i,
    {
        let d = levenshtein(target, candidates[i]);
        if 1 <= d && d <= 2 {
            let better = match best {
                Some((k, e)) => {
                    let x = text::chars_of(candidates[i]);
                    let y = text::chars_of(candidates[k]);
                    proof {
                        json::lemma_text_lt_total(x@, y@);
                        lemma_nearer(target@, candidates@, i as int, k as int);
                    }
                    d < e || (d == e && json::before(&x, &y))
                },
                None => {
                    proof {
                        json::lemma_text_lt_irrefl(candidates@[i as int]@);
                    }
                    true
                },
            };
            if better {
                best = Some((i, d));
            }
        }
        i += 1;
    }
    match best {
        Some((k, _)) => {
            assert(candidates@[k as int]@ == candidates@[k as int]@);
            Some(candidates[k].to_owned())
        },
        None => None,
    }
}

/// What is not nearer than one guess is not nearer than a better guess, and no
/// guess is nearer than itself.
proof fn lemma_nearer(target: Seq<char>, c: Seq<&str>, i: int, k: int)
    requires
        0 <= i < c.len(),
        0 <= k < i,
        forall|j: int|
            0 <= j < i && close(target, #[trigger] c[j]@) ==> !nearer(target, c[j]@, c[k]@),
    ensures
        nearer(target, c[i]@, c[k]@) ==> forall|j: int|
            0 <= j <= i && close(target, #[trigger] c[j]@) ==> !nearer(target, c[j]@, c[i]@),
{
    json::lemma_text_lt_irrefl(c[i]@);
    if nearer(target, c[i]@, c[k]@) {
        assert forall|j: int| 0 <= j <= i && close(target, #[trigger] c[j]@) implies !nearer(
            target,
            c[j]@,
            c[i]@,
        ) by {
            if j < i && nearer(target, c[j]@, c[i]@) {
                if json::text_lt(c[j]@, c[i]@) && json::text_lt(c[i]@, c[k]@) {
                    json::lemma_text_lt_trans(c[j]@, c[i]@, c[k]@);
                }
            }
        }
    }
}

/// Law: a text is one step from what comes of adding a character at its end, or of replacing
/// the last one; its distance is at least the difference of the lengths.
pub proof fn steps_are_counted(s: Seq<char>, c: char, d: char, a: Seq<char>, b: Seq<char>)
    ensures
        distance(s.push(c), s) == 1,
        c != d ==> distance(s.push(c), s.push(d)) == 1,
        a.len() <= b.len() + distance(a, b),
        b.len() <= a.len() + distance(a, b),
        distance(a, Seq::<char>::empty()) == a.len(),
        distance(Seq::<char>::empty(), b) == b.len(),
    decreases a.len() + b.len(),
{
    distance_separates(s, s);
    assert(s.push(c).drop_last() =~= s);
    assert(s.push(d).drop_last() =~= s);
    distance_separates(s.push(c), s);
    assert(s.push(c).len() != s.len());
    distance_separates(s.push(c), s.push(d));
    if c != d {
        assert(s.push(c).last() != s.push(d).last());
    }
    if s.len() == 0 {
        assert(distance(s.push(c), s) == 1);
    }
    if a.len() > 0 && b.len() > 0 {
        steps_are_counted(s, c, d, a.drop_last(), b);
        steps_are_counted(s, c, d, a, b.drop_last());
        steps_are_counted(s, c, d, a.drop_last(), b.drop_last());
    }
}

/// Law: what is one or two steps away is close; the same text is not, and what is further
/// away is not. Of two close ones the closer is the better guess, and of two as close the
/// first in order.
pub proof fn guesses_are_close(target: Seq<char>, a: Seq<char>, b: Seq<char>)
    ensures
        !close(target, target),
        distance(target, a) == 1 || distance(target, a) == 2 ==> close(target, a),
        distance(target, a) >= 3 ==> !close(target, a),
        distance(target, a) == 1 && distance(target, b) == 2 ==> nearer(target, a, b) && !nearer(
            target,
            b,
            a,
        ),
        distance(target, a) == distance(target, b) ==> (nearer(target, a, b) <==> json::text_lt(a, b)),
{
    distance_separates(target, target);
}

/// Law: every kind of diagnostic has a code of its own, and all but a missing program come
/// with advice.
pub proof fn diagnostics_have_their_own_code(d: AishDiagnostic, e: AishDiagnostic)
    ensures
        d.code_text() == e.code_text() ==> (d is UnbalancedQuote <==> e is UnbalancedQuote) && (
        d is UnsupportedMeta <==> e is UnsupportedMeta) && (d is EmptyStage <==> e is EmptyStage) && (
        d is BadVarRef <==> e is BadVarRef) && (d is BadConfigLine <==> e is BadConfigLine) && (
        d is ExecFailed <==> e is ExecFailed),
        !(d is ExecFailed) ==> d.help_text() is Some && d.place() is Some,
        d is ExecFailed ==> d.place() is None,
{
    reveal_strlit("aish::parse::unbalanced_quote");
    reveal_strlit("aish::parse::unsupported_meta");
    reveal_strlit("aish::parse::empty_stage");
    reveal_strlit("aish::parse::bad_var_ref");
    reveal_strlit("aish::config::bad_export");
    reveal_strlit("aish::exec::not_found");
    if d.code_text() == e.code_text() {
        assert(d.code_text().len() == e.code_text().len());
        assert(d.code_text()[6] == e.code_text()[6]);
        assert(d.code_text()[14] == e.code_text()[14]);
        assert(d.code_text()[15] == e.code_text()[15]);
    }
}

/// Law: the caret points into the line, at the byte that is asked for where the line has it,
/// and else at the line's last byte.
pub proof fn carets_point_into_the_line(line: Seq<char>, offset: usize)
    requires
        line.len() > 0,
        chars::byte_len(line) <= usize::MAX,
    ensures
        caret(line, offset) < chars::byte_len(line),
        offset < chars::byte_len(line) ==> caret(line, offset) == offset,
        offset >= chars::byte_len(line) ==> caret(line, offset) + 1 == chars::byte_len(line),
{
    chars::lemma_byte_len_cons(line);
}

} // verus!
