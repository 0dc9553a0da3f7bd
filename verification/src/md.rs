//! Minimal markdown to ANSI for model replies: the small subset that models emit
//! in shell answers. Anything unmatched stays literal.
//!
//! `base` is the style to re-assert after a reset.
use vstd::prelude::*;
use vstd::slice::slice_subrange;
use crate::chars;
use crate::text;
use crate::width;

verus! {

/// Columns to assume for pane-bound markdown when the terminal width is unknown.
pub const DEFAULT_PANE_COLS: usize = 100;

/// Columns that the pane's gutter takes from every row.
pub const PANE_GUTTER_COLS: usize = 16;

pub const DIM: &'static str = "\x1b[2m";

pub const NORMAL: &'static str = "\x1b[22m";

pub const BOLD: &'static str = "\x1b[1m";

pub const CYAN: &'static str = "\x1b[36m";

pub const UNCYAN: &'static str = "\x1b[39m";

pub const STRIKE: &'static str = "\x1b[9m";

pub const UNSTRIKE: &'static str = "\x1b[29m";

pub const ITALIC: &'static str = "\x1b[3m";

pub const UNITALIC: &'static str = "\x1b[23m";

/// The markup that begins a text, with where it ends.
pub enum Span {
    /// Characters inside the backquotes.
    Code(int),
    /// Index of the `]`, and characters of the address.
    Link(int, int),
    /// Characters inside the tildes.
    Strike(int),
    /// Characters inside the double stars.
    Bold(int),
    /// Characters inside the stars.
    Italic(int),
    /// None: the first character stands for itself.
    Plain,
}

pub open spec fn pair(c: char) -> Seq<char> {
    seq![c, c]
}

/// Characters between a doubled marker at the start of `s` and its next occurrence;
/// an empty span does not count.
pub open spec fn doubled(s: Seq<char>, c: char) -> Option<int> {
    match chars::find_str(s.skip(2), pair(c)) {
        Some(e) => if 0 < e && e + 4 <= s.len() {
            Some(e)
        } else {
            None
        },
        None => None,
    }
}

/// The markup at the start of a non-empty text.
pub open spec fn span_at(s: Seq<char>) -> Span {
    if s[0] == '`' {
        let e = chars::find_char(s.skip(1), '`');
        if 0 <= e && e + 1 < s.len() {
            Span::Code(e)
        } else {
            Span::Plain
        }
    } else if s[0] == '[' {
        let close = chars::find_char(s, ']');
        if 1 < close && close + 1 < s.len() && s[close + 1] == '(' {
            let u = chars::find_char(s.skip(close + 2), ')');
            if 0 < u && close + 2 + u < s.len() {
                Span::Link(close, u)
            } else {
                Span::Plain
            }
        } else {
            Span::Plain
        }
    } else if s.len() >= 2 && s[0] == '~' && s[1] == '~' {
        match doubled(s, '~') {
            Some(e) => Span::Strike(e),
            None => Span::Plain,
        }
    } else if s.len() >= 2 && s[0] == '*' && s[1] == '*' {
        match doubled(s, '*') {
            Some(e) => Span::Bold(e),
            None => Span::Plain,
        }
    } else if s[0] == '*' {
        let e = chars::find_char(s.skip(1), '*');
        if 0 < e && e + 1 < s.len() && s[1] != ' ' && s[e] != ' ' {
            Span::Italic(e)
        } else {
            Span::Plain
        }
    } else {
        Span::Plain
    }
}

/// The address shown after a label that differs from it.
pub open spec fn link_tail(label: Seq<char>, url: Seq<char>, base: Seq<char>) -> Seq<char> {
    if url == label {
        seq![]
    } else {
        seq![' '] + DIM@ + seq!['('] + url + seq![')'] + NORMAL@ + base
    }
}

/// `s` with its inline markup rendered: code, links, strike-through, bold and
/// italic.
pub open spec fn inlined(s: Seq<char>, base: Seq<char>) -> Seq<char>
    decreases s.len(),
{
    if s.len() == 0 {
        seq![]
    } else {
        match span_at(s) {
            Span::Code(e) => CYAN@ + s.subrange(1, 1 + e) + UNCYAN@ + base + inlined(
                s.skip(e + 2),
                base,
            ),
            Span::Link(close, u) => {
                let label = s.subrange(1, close);
                let url = s.subrange(close + 2, close + 2 + u);
                CYAN@ + inlined(label, base + CYAN@) + UNCYAN@ + base + link_tail(label, url, base)
                    + inlined(s.skip(close + 3 + u), base)
            },
            Span::Strike(e) => STRIKE@ + inlined(s.subrange(2, 2 + e), base + STRIKE@) + UNSTRIKE@
                + base + inlined(s.skip(e + 4), base),
            Span::Bold(e) => BOLD@ + s.subrange(2, 2 + e) + NORMAL@ + base + inlined(
                s.skip(e + 4),
                base,
            ),
            Span::Italic(e) => ITALIC@ + s.subrange(1, 1 + e) + UNITALIC@ + inlined(
                s.skip(e + 2),
                base,
            ),
            Span::Plain => seq![s[0]] + inlined(s.skip(1), base),
        }
    }
}

/// `s` without its terminal control sequences.
pub open spec fn unescaped(s: Seq<char>) -> Seq<char>
    decreases s.len(),
{
    if s.len() == 0 {
        seq![]
    } else if s[0] != '\x1b' {
        seq![s[0]] + unescaped(s.skip(1))
    } else if s.len() == 1 {
        seq![]
    } else if s[1] == '[' {
        let k = chars::find(s.skip(2), |c: char| chars::is_ascii_alpha(c));
        if 0 <= k && k + 2 < s.len() {
            unescaped(s.skip(k + 3))
        } else {
            seq![]
        }
    } else {
        unescaped(s.skip(2))
    }
}

/// Columns that `s` takes once rendered.
pub open spec fn shown_width(s: Seq<char>) -> usize {
    width::str_width(unescaped(inlined(s, seq![])))
}

/// Exact form of [`Span`].
enum Mark {
    Code(usize),
    Link(usize, usize),
    Strike(usize),
    Bold(usize),
    Italic(usize),
    Plain,
}

impl Mark {
    spec fn view(self) -> Span {
        match self {
            Mark::Code(e) => Span::Code(e as int),
            Mark::Link(a, b) => Span::Link(a as int, b as int),
            Mark::Strike(e) => Span::Strike(e as int),
            Mark::Bold(e) => Span::Bold(e as int),
            Mark::Italic(e) => Span::Italic(e as int),
            Mark::Plain => Span::Plain,
        }
    }
}

fn find_pair(s: &[char], c: char) -> (r: Option<usize>)
    requires
        s@.len() >= 2,
    ensures
        match r {
            Some(e) => doubled(s@, c) == Some(e as int),
            None => doubled(s@, c) is None,
        },
{
    let p: [char; 2] = [c, c];
    assert(p@ =~= pair(c));
    match text::find_chars(text::from(s, 2), p.as_slice()) {
        Some(e) => if e > 0 {
            Some(e)
        } else {
            None
        },
        None => None,
    }
}

fn scan(s: &[char]) -> (r: Mark)
    requires
        s@.len() > 0,
    ensures
        r.view() == span_at(s@),
{
    let n: usize = s.len();
    let c = s[0];
    if c == '`' {
        let e = text::find_char(text::from(s, 1), '`');
        if e < n - 1 {
            Mark::Code(e)
        } else {
            Mark::Plain
        }
    } else if c == '[' {
        let close = text::find_char(s, ']');
        if close > 1 && close < n - 1 && s[close + 1] == '(' {
            let tail = text::from(s, close + 2);
            let u = text::find_char(tail, ')');
            if u > 0 && u < tail.len() {
                Mark::Link(close, u)
            } else {
                Mark::Plain
            }
        } else {
            Mark::Plain
        }
    } else if n >= 2 && c == '~' && s[1] == '~' {
        match find_pair(s, '~') {
            Some(e) => Mark::Strike(e),
            None => Mark::Plain,
        }
    } else if n >= 2 && c == '*' && s[1] == '*' {
        match find_pair(s, '*') {
            Some(e) => Mark::Bold(e),
            None => Mark::Plain,
        }
    } else if c == '*' {
        let e = text::find_char(text::from(s, 1), '*');
        if e > 0 && e < n - 1 && s[1] != ' ' && s[e] != ' ' {
            Mark::Italic(e)
        } else {
            Mark::Plain
        }
    } else {
        Mark::Plain
    }
}

fn joined(a: &[char], b: &str) -> (r: Vec<char>)
    ensures
        r@ == a@ + b@,
{
    let mut out = text::to_vec(a);
    text::extend_str(&mut out, b);
    out
}

proof fn lemma_append2(o: Seq<char>, a: Seq<char>, x: Seq<char>)
    ensures
        o + (a + x) == o + a + x,
{
    assert(o + (a + x) =~= o + a + x);
}

proof fn lemma_append3(o: Seq<char>, a: Seq<char>, b: Seq<char>, c: Seq<char>, x: Seq<char>)
    ensures
        o + (a + b + c + x) == o + a + b + c + x,
{
    assert(o + (a + b + c + x) =~= o + a + b + c + x);
}

proof fn lemma_append4(
    o: Seq<char>,
    a: Seq<char>,
    b: Seq<char>,
    c: Seq<char>,
    d: Seq<char>,
    x: Seq<char>,
)
    ensures
        o + (a + b + c + d + x) == o + a + b + c + d + x,
{
    assert(o + (a + b + c + d + x) =~= o + a + b + c + d + x);
}

proof fn lemma_append5(
    o: Seq<char>,
    a: Seq<char>,
    b: Seq<char>,
    c: Seq<char>,
    d: Seq<char>,
    e: Seq<char>,
    x: Seq<char>,
)
    ensures
        o + (a + b + c + d + e + x) == o + a + b + c + d + e + x,
{
    assert(o + (a + b + c + d + e + x) =~= o + a + b + c + d + e + x);
}

/// Appends the address shown after a label that differs from it.
fn push_link_tail(out: &mut Vec<char>, label: &[char], url: &[char], base: &[char])
    ensures
        final(out)@ == old(out)@ + link_tail(label@, url@, base@),
{
    if !text::same(url, label) {
        out.push(' ');
        text::extend_str(out, DIM);
        out.push('(');
        text::extend(out, url);
        out.push(')');
        text::extend_str(out, NORMAL);
        text::extend(out, base);
    }
    assert(out@ =~= old(out)@ + link_tail(label@, url@, base@));
}

/// `s` with its inline markup rendered.
pub fn inline(s: &[char], base: &[char]) -> (r: Vec<char>)
    ensures
        r@ == inlined(s@, base@),
    decreases s@.len(),
{
    let mut out: Vec<char> = Vec::new();
    let mut rest: &[char] = s;
    assert(out@ + inlined(s@, base@) =~= inlined(s@, base@));
    while rest.len() > 0
        invariant
            rest@.len() <= s@.len(),
            out@ + inlined(rest@, base@) == inlined(s@, base@),
        decreases rest@.len(),
    {
        let ghost r0 = rest@;
        let ghost o0 = out@;
        match scan(rest) {
            Mark::Code(e) => {
                text::extend_str(&mut out, CYAN);
                text::extend(&mut out, slice_subrange(rest, 1, 1 + e));
                text::extend_str(&mut out, UNCYAN);
                text::extend(&mut out, base);
                rest = text::from(rest, e + 2);
                proof {
                    lemma_append4(
                        o0,
                        CYAN@,
                        r0.subrange(1, 1 + e),
                        UNCYAN@,
                        base@,
                        inlined(rest@, base@),
                    );
                }
            },
            Mark::Link(close, u) => {
                let label = slice_subrange(rest, 1, close);
                let url = slice_subrange(rest, close + 2, close + 2 + u);
                text::extend_str(&mut out, CYAN);
                let inner = inline(label, &joined(base, CYAN));
                text::extend(&mut out, &inner);
                text::extend_str(&mut out, UNCYAN);
                text::extend(&mut out, base);
                push_link_tail(&mut out, label, url, base);
                rest = text::from(rest, close + 3 + u);
                proof {
                    lemma_append5(
                        o0,
                        CYAN@,
                        inner@,
                        UNCYAN@,
                        base@,
                        link_tail(label@, url@, base@),
                        inlined(rest@, base@),
                    );
                }
            },
            Mark::Strike(e) => {
                text::extend_str(&mut out, STRIKE);
                let inner = inline(slice_subrange(rest, 2, 2 + e), &joined(base, STRIKE));
                text::extend(&mut out, &inner);
                text::extend_str(&mut out, UNSTRIKE);
                text::extend(&mut out, base);
                rest = text::from(rest, e + 4);
                proof {
                    lemma_append4(o0, STRIKE@, inner@, UNSTRIKE@, base@, inlined(rest@, base@));
                }
            },
            Mark::Bold(e) => {
                text::extend_str(&mut out, BOLD);
                text::extend(&mut out, slice_subrange(rest, 2, 2 + e));
                text::extend_str(&mut out, NORMAL);
                text::extend(&mut out, base);
                rest = text::from(rest, e + 4);
                proof {
                    lemma_append4(
                        o0,
                        BOLD@,
                        r0.subrange(2, 2 + e),
                        NORMAL@,
                        base@,
                        inlined(rest@, base@),
                    );
                }
            },
            Mark::Italic(e) => {
                text::extend_str(&mut out, ITALIC);
                text::extend(&mut out, slice_subrange(rest, 1, 1 + e));
                text::extend_str(&mut out, UNITALIC);
                rest = text::from(rest, e + 2);
                proof {
                    lemma_append3(
                        o0,
                        ITALIC@,
                        r0.subrange(1, 1 + e),
                        UNITALIC@,
                        inlined(rest@, base@),
                    );
                }
            },
            Mark::Plain => {
                out.push(rest[0]);
                rest = text::from(rest, 1);
                proof {
                    lemma_append2(o0, seq![r0[0]], inlined(rest@, base@));
                    assert(out@ =~= o0 + seq![r0[0]]);
                }
            },
        }
    }
    assert(out@ + inlined(rest@, base@) =~= out@);
    out
}

/// `s` without its terminal control sequences.
pub fn strip_ansi(s: &str) -> (r: String)
    ensures
        r@ == unescaped(s@),
{
    let v = text::chars_of(s);
    text::string_of(&strip(&v))
}

/// `s` without its terminal control sequences.
pub(crate) fn strip(s: &[char]) -> (r: Vec<char>)
    ensures
        r@ == unescaped(s@),
{
    let mut out: Vec<char> = Vec::new();
    let mut rest: &[char] = s;
    assert(out@ + unescaped(s@) =~= unescaped(s@));
    while rest.len() > 0
        invariant
            out@ + unescaped(rest@) == unescaped(s@),
        decreases rest@.len(),
    {
        let ghost r0 = rest@;
        let ghost o0 = out@;
        if rest[0] != '\x1b' {
            out.push(rest[0]);
            rest = text::from(rest, 1);
            assert(o0 + unescaped(r0) =~= out@ + unescaped(rest@));
        } else if rest.len() == 1 {
            rest = text::from(rest, 1);
        } else if rest[1] == '[' {
            let tail = text::from(rest, 2);
            let mut k: usize = 0;
            while k < tail.len() && !text::is_ascii_alpha(tail[k])
                invariant
                    k <= tail@.len(),
                    forall|j: int| 0 <= j < k ==> !chars::is_ascii_alpha(#[trigger] tail@[j]),
                decreases tail@.len() - k,
            {
                k += 1;
            }
            proof {
                chars::lemma_find(tail@, |c: char| chars::is_ascii_alpha(c), k as int);
            }
            if k < tail.len() {
                rest = text::from(tail, k + 1);
                assert(rest@ =~= r0.skip(k + 3));
            } else {
                rest = text::from(tail, k);
            }
        } else {
            rest = text::from(rest, 2);
        }
    }
    assert(out@ + unescaped(rest@) =~= out@);
    out
}

/// Columns that `s` takes once rendered.
pub fn visible_width(s: &str) -> (r: usize)
    ensures
        r == shown_width(s@),
{
    let v = text::chars_of(s);
    columns(&v)
}

fn columns(s: &[char]) -> (r: usize)
    ensures
        r == shown_width(s@),
{
    let empty: Vec<char> = Vec::new();
    assert(empty@ =~= seq![]);
    let rendered = inline(s, &empty);
    let plain = strip(&rendered);
    let string = text::string_of(&plain);
    width::of_str(string.as_str())
}

/// The parts of `word` of at most `width` columns each: those that are full, and
/// the one still open.
pub open spec fn broken(word: Seq<char>, width: nat) -> (Seq<Seq<char>>, Seq<char>)
    decreases word.len(),
{
    if word.len() == 0 {
        (seq![], seq![])
    } else {
        let p = broken(word.drop_last(), width);
        let c = word.last();
        if p.1.len() > 0 && shown_width(p.1.push(c)) > width {
            (p.0.push(p.1), seq![c])
        } else {
            (p.0, p.1.push(c))
        }
    }
}

/// `done` with the open line, unless that is empty.
pub open spec fn closed_off(done: Seq<Seq<char>>, open: Seq<char>) -> Seq<Seq<char>> {
    if open.len() > 0 {
        done.push(open)
    } else {
        done
    }
}

/// `word` cut into parts of at most `width` columns.
pub open spec fn chunks(word: Seq<char>, width: nat) -> Seq<Seq<char>> {
    closed_off(broken(word, width).0, broken(word, width).1)
}

/// `words` laid out in lines of at most `width` columns: the lines that are full,
/// and the one still open.
pub open spec fn laid_out(words: Seq<Seq<char>>, width: nat) -> (Seq<Seq<char>>, Seq<char>)
    decreases words.len(),
{
    if words.len() == 0 {
        (seq![], seq![])
    } else {
        let p = laid_out(words.drop_last(), width);
        let w = words.last();
        let candidate = if p.1.len() == 0 {
            w
        } else {
            p.1 + seq![' '] + w
        };
        if shown_width(candidate) <= width {
            (p.0, candidate)
        } else if shown_width(w) > width {
            let all = closed_off(p.0, p.1) + chunks(w, width);
            if all.len() > 0 {
                (all.drop_last(), all.last())
            } else {
                (all, seq![])
            }
        } else {
            (closed_off(p.0, p.1), w)
        }
    }
}

/// The width that a cell is wrapped to: at least one column.
pub open spec fn wrap_width(width: nat) -> nat {
    if width == 0 {
        1
    } else {
        width
    }
}

/// A cell's text wrapped to `width` columns, at least one line.
pub open spec fn wrapped(raw: Seq<char>, width: nat) -> Seq<Seq<char>> {
    if shown_width(raw) <= wrap_width(width) {
        seq![raw]
    } else {
        let p = laid_out(chars::words(raw), wrap_width(width));
        let ls = closed_off(p.0, p.1);
        if ls.len() == 0 {
            seq![Seq::empty()]
        } else {
            ls
        }
    }
}

/// The parts of a too-long word.
fn hard_break(word: &[char], width: usize) -> (r: Vec<Vec<char>>)
    ensures
        text::views(r@) == chunks(word@, width as nat),
{
    let mut out: Vec<Vec<char>> = Vec::new();
    let mut cur: Vec<char> = Vec::new();
    let mut i: usize = 0;
    assert(word@.take(0) =~= Seq::empty());
    assert(text::views(out@) =~= Seq::empty());
    assert(cur@ =~= seq![]);
    while i < word.len()
        invariant
            i <= word@.len(),
            text::views(out@) == broken(word@.take(i as int), width as nat).0,
            cur@ == broken(word@.take(i as int), width as nat).1,
        decreases word@.len() - i,
    {
        let c = word[i];
        proof {
            assert(word@.take(i + 1).drop_last() =~= word@.take(i as int));
            assert(word@.take(i + 1).last() == c);
        }
        let ghost before = text::views(out@);
        let mut longer = text::to_vec(&cur);
        longer.push(c);
        if cur.len() > 0 && columns(&longer) > width {
            out.push(cur);
            assert(text::views(out@) =~= before.push(out@.last()@));
            cur = Vec::new();
            cur.push(c);
            assert(cur@ =~= seq![c]);
        } else {
            cur = longer;
        }
        i += 1;
    }
    assert(word@.take(i as int) =~= word@);
    let ghost before = text::views(out@);
    if cur.len() > 0 {
        out.push(cur);
        assert(text::views(out@) =~= before.push(out@.last()@));
    }
    out
}

/// Wraps a cell's text to `width` columns.
fn wrap_chars(raw: &[char], width: usize) -> (r: Vec<Vec<char>>)
    ensures
        text::views(r@) == wrapped(raw@, width as nat),
        r@.len() > 0,
{
    let width: usize = if width == 0 { 1 } else { width };
    let mut lines: Vec<Vec<char>> = Vec::new();
    if columns(raw) <= width {
        lines.push(text::to_vec(raw));
        assert(text::views(lines@) =~= seq![raw@]);
        return lines;
    }
    let ws = text::words(raw);
    let ghost wv = text::views(ws@);
    let mut cur: Vec<char> = Vec::new();
    let mut i: usize = 0;
    assert(wv.take(0) =~= Seq::empty());
    assert(text::views(lines@) =~= Seq::empty());
    assert(cur@ =~= seq![]);
    while i < ws.len()
        invariant
            wv == text::views(ws@),
            i <= ws@.len(),
            text::views(lines@) == laid_out(wv.take(i as int), width as nat).0,
            cur@ == laid_out(wv.take(i as int), width as nat).1,
        decreases ws@.len() - i,
    {
        let w: &[char] = &ws[i];
        proof {
            assert(wv.take(i + 1).drop_last() =~= wv.take(i as int));
            assert(wv.take(i + 1).last() == w@);
        }
        let mut candidate = text::to_vec(&cur);
        if cur.len() > 0 {
            candidate.push(' ');
        }
        text::extend(&mut candidate, w);
        assert(candidate@ =~= (if cur@.len() == 0 {
            w@
        } else {
            cur@ + seq![' '] + w@
        }));
        if columns(&candidate) <= width {
            cur = candidate;
        } else {
            let ghost l0 = text::views(lines@);
            let ghost c0 = cur@;
            if cur.len() > 0 {
                lines.push(cur);
            }
            assert(text::views(lines@) =~= closed_off(l0, c0));
            if columns(w) > width {
                let mut parts = hard_break(w, width);
                let ghost done = text::views(lines@);
                let ghost pv = text::views(parts@);
                lines.append(&mut parts);
                assert(text::views(lines@) =~= done + pv);
                let ghost all = text::views(lines@);
                match lines.pop() {
                    Some(last) => {
                        cur = last;
                        assert(text::views(lines@) =~= all.drop_last());
                        assert(cur@ == all.last());
                    },
                    None => {
                        cur = Vec::new();
                        assert(cur@ =~= seq![]);
                    },
                }
            } else {
                cur = text::to_vec(w);
            }
        }
        i += 1;
    }
    assert(wv.take(i as int) =~= wv);
    let ghost l0 = text::views(lines@);
    let ghost c0 = cur@;
    if cur.len() > 0 {
        lines.push(cur);
    }
    assert(text::views(lines@) =~= closed_off(l0, c0));
    if lines.len() == 0 {
        let none: Vec<char> = Vec::new();
        lines.push(none);
        assert(text::views(lines@) =~= seq![Seq::empty()]);
    }
    assert(text::views(lines@) == wrapped(raw@, width as nat));
    lines
}

/// Strings of the same characters.
fn strings_of(v: &Vec<Vec<char>>) -> (r: Vec<String>)
    ensures
        text::str_views(r@) == text::views(v@),
{
    let mut out: Vec<String> = Vec::new();
    let mut i: usize = 0;
    while i < v.len()
        invariant
            i <= v@.len(),
            out@.len() == i,
            forall|j: int| 0 <= j < i ==> (#[trigger] out@[j])@ == v@[j]@,
        decreases v@.len() - i,
    {
        out.push(text::string_of(&v[i]));
        i += 1;
    }
    assert(text::str_views(out@) =~= text::views(v@));
    out
}

/// Wraps a cell's text to `width` columns, at least one line. Wraps at spaces; a
/// word longer than `width` is cut.
pub fn wrap_cell(raw: &str, width: usize) -> (r: Vec<String>)
    ensures
        text::str_views(r@) == wrapped(raw@, width as nat),
{
    let v = text::chars_of(raw);
    strings_of(&wrap_chars(&v, width))
}

/// The visible characters of `s`: those that are not whitespace.
pub open spec fn squeezed(s: Seq<char>) -> Seq<char>
    decreases s.len(),
{
    if s.len() == 0 {
        seq![]
    } else if chars::is_ws(s.last()) {
        squeezed(s.drop_last())
    } else {
        squeezed(s.drop_last()).push(s.last())
    }
}

proof fn lemma_squeezed_concat(a: Seq<char>, b: Seq<char>)
    ensures
        squeezed(a + b) == squeezed(a) + squeezed(b),
    decreases b.len(),
{
    if b.len() == 0 {
        assert(a + b =~= a);
        assert(squeezed(a) + squeezed(b) =~= squeezed(a));
    } else {
        assert((a + b).drop_last() =~= a + b.drop_last());
        lemma_squeezed_concat(a, b.drop_last());
        assert((squeezed(a) + squeezed(b.drop_last())).push(b.last()) =~= squeezed(a) + squeezed(
            b.drop_last(),
        ).push(b.last()));
    }
}

proof fn lemma_concat_add(a: Seq<Seq<char>>, b: Seq<Seq<char>>)
    ensures
        chars::concat(a + b) == chars::concat(a) + chars::concat(b),
    decreases b.len(),
{
    if b.len() == 0 {
        assert(a + b =~= a);
        assert(chars::concat(a) + chars::concat(b) =~= chars::concat(a));
    } else {
        assert((a + b).drop_last() =~= a + b.drop_last());
        lemma_concat_add(a, b.drop_last());
        assert(chars::concat(a) + (chars::concat(b.drop_last()) + b.last()) =~= chars::concat(a)
            + chars::concat(b.drop_last()) + b.last());
    }
}

proof fn lemma_broken_concat(word: Seq<char>, width: nat)
    ensures
        chars::concat(broken(word, width).0) + broken(word, width).1 == word,
        word.len() > 0 ==> broken(word, width).1.len() > 0,
    decreases word.len(),
{
    if word.len() > 0 {
        let p = broken(word.drop_last(), width);
        let c = word.last();
        lemma_broken_concat(word.drop_last(), width);
        assert(word =~= word.drop_last().push(c));
        chars::lemma_concat_push(p.0, p.1);
        assert(chars::concat(p.0) + p.1.push(c) =~= (chars::concat(p.0) + p.1).push(c));
        assert(chars::concat(p.0) + p.1 + seq![c] =~= (chars::concat(p.0) + p.1).push(c));
    } else {
        assert(chars::concat(broken(word, width).0) + broken(word, width).1 =~= word);
    }
}

proof fn lemma_laid_out_keeps(words: Seq<Seq<char>>, width: nat)
    requires
        forall|i: int| 0 <= i < words.len() ==> (#[trigger] words[i]).len() > 0,
    ensures
        squeezed(chars::concat(laid_out(words, width).0) + laid_out(words, width).1) == squeezed(
            chars::concat(words),
        ),
    decreases words.len(),
{
    let none = Seq::<char>::empty();
    if words.len() == 0 {
        assert(chars::concat(laid_out(words, width).0) + laid_out(words, width).1 =~= none);
        assert(chars::concat(words) =~= none);
    } else {
        let before = words.drop_last();
        let w = words.last();
        assert(words[words.len() - 1] == w);
        assert forall|i: int| 0 <= i < before.len() implies (#[trigger] before[i]).len() > 0 by {
            assert(before[i] == words[i]);
        }
        lemma_laid_out_keeps(before, width);
        let p = laid_out(before, width);
        let d = chars::concat(p.0);
        lemma_squeezed_concat(chars::concat(before), w);
        lemma_squeezed_concat(d + p.1, w);
        let q = laid_out(words, width);
        let candidate = if p.1.len() == 0 {
            w
        } else {
            p.1 + seq![' '] + w
        };
        let off = closed_off(p.0, p.1);
        chars::lemma_concat_push(p.0, p.1);
        assert(chars::concat(off) =~= d + p.1);
        if shown_width(candidate) <= width {
            if p.1.len() == 0 {
                assert(d + candidate =~= (d + p.1) + w);
            } else {
                assert(d + candidate =~= ((d + p.1) + seq![' ']) + w);
                lemma_squeezed_concat((d + p.1) + seq![' '], w);
                lemma_squeezed_concat(d + p.1, seq![' ']);
                lemma_squeezed_blank(seq![' ']);
                assert(squeezed(d + p.1) + none =~= squeezed(d + p.1));
            }
        } else if shown_width(w) > width {
            let cs = chunks(w, width);
            let all = off + cs;
            lemma_broken_concat(w, width);
            chars::lemma_concat_push(broken(w, width).0, broken(w, width).1);
            assert(chars::concat(cs) == w);
            lemma_concat_add(off, cs);
            assert(all.len() > 0);
            assert(chars::concat(all) == chars::concat(all.drop_last()) + all.last());
        } else {
        }
    }
}

proof fn lemma_words_squeezed(s: Seq<char>)
    ensures
        squeezed(chars::concat(chars::words(s))) == squeezed(s),
        forall|i: int| 0 <= i < chars::words(s).len() ==> (#[trigger] chars::words(s)[i]).len() > 0,
    decreases s.len(),
{
    let t = chars::trim_start(s);
    chars::lemma_trim_start_props(s);
    let lead = s.take(s.len() - t.len());
    assert(s =~= lead + t);
    lemma_squeezed_blank(lead);
    lemma_squeezed_concat(lead, t);
    assert(squeezed(lead) + squeezed(t) =~= squeezed(t));
    let none = Seq::<char>::empty();
    if t.len() == 0 {
        assert(chars::concat(chars::words(s)) =~= none);
        assert(t =~= none);
    } else {
        chars::lemma_find_props(t, |c: char| chars::is_ws(c));
        let i = chars::find(t, |c: char| chars::is_ws(c));
        assert(i > 0);
        let w = t.take(i);
        let rest = t.skip(i);
        lemma_words_squeezed(rest);
        let ws = chars::words(rest);
        assert(chars::words(s) == seq![w] + ws);
        lemma_concat_add(seq![w], ws);
        chars::lemma_concat_one(w);
        lemma_squeezed_concat(w, chars::concat(ws));
        lemma_squeezed_concat(w, rest);
        assert(t =~= w + rest);
        assert forall|j: int| 0 <= j < chars::words(s).len() implies (#[trigger] chars::words(
            s,
        )[j]).len() > 0 by {
            if j > 0 {
                assert(chars::words(s)[j] == ws[j - 1]);
            }
        }
    }
}

proof fn lemma_squeezed_blank(s: Seq<char>)
    requires
        forall|i: int| 0 <= i < s.len() ==> chars::is_ws(#[trigger] s[i]),
    ensures
        squeezed(s) == Seq::<char>::empty(),
    decreases s.len(),
{
    if s.len() > 0 {
        let d = s.drop_last();
        assert forall|i: int| 0 <= i < d.len() implies chars::is_ws(#[trigger] d[i]) by {
            assert(d[i] == s[i]);
        }
        lemma_squeezed_blank(d);
        assert(chars::is_ws(s[s.len() - 1]));
    }
}

/// Wrapping only moves whitespace: the lines together hold exactly the visible
/// characters of the text, in order, so no word is ever dropped.
pub proof fn wrapping_keeps_the_text(raw: Seq<char>, width: nat)
    ensures
        squeezed(chars::concat(wrapped(raw, width))) == squeezed(raw),
        wrapped(raw, width).len() > 0,
{
    let w = wrap_width(width);
    if shown_width(raw) <= w {
        chars::lemma_concat_one(raw);
    } else {
        let ws = chars::words(raw);
        lemma_words_squeezed(raw);
        lemma_laid_out_keeps(ws, w);
        let p = laid_out(ws, w);
        let ls = closed_off(p.0, p.1);
        chars::lemma_concat_push(p.0, p.1);
        assert(chars::concat(ls) =~= chars::concat(p.0) + p.1);
        if ls.len() == 0 {
            chars::lemma_concat_one(Seq::<char>::empty());
        }
    }
}

/// A line that does not overflow: within `width`, or a single character that could
/// not be cut further.
pub open spec fn fits(line: Seq<char>, width: nat) -> bool {
    line.len() <= 1 || shown_width(line) <= width
}

pub open spec fn all_fit(lines: Seq<Seq<char>>, width: nat) -> bool {
    forall|i: int| 0 <= i < lines.len() ==> fits(#[trigger] lines[i], width)
}

proof fn lemma_broken_fits(word: Seq<char>, width: nat)
    ensures
        all_fit(broken(word, width).0, width),
        fits(broken(word, width).1, width),
    decreases word.len(),
{
    if word.len() > 0 {
        lemma_broken_fits(word.drop_last(), width);
        let p = broken(word.drop_last(), width);
        let q = broken(word, width);
        assert forall|i: int| 0 <= i < q.0.len() implies fits(#[trigger] q.0[i], width) by {
            if i < p.0.len() {
                assert(q.0[i] == p.0[i]);
            }
        }
    }
}

proof fn lemma_closed_off_fits(done: Seq<Seq<char>>, open: Seq<char>, width: nat)
    requires
        all_fit(done, width),
        fits(open, width),
    ensures
        all_fit(closed_off(done, open), width),
{
    let all = closed_off(done, open);
    assert forall|i: int| 0 <= i < all.len() implies fits(#[trigger] all[i], width) by {
        if i < done.len() {
            assert(all[i] == done[i]);
        }
    }
}

proof fn lemma_laid_out_fits(words: Seq<Seq<char>>, width: nat)
    ensures
        all_fit(laid_out(words, width).0, width),
        fits(laid_out(words, width).1, width),
    decreases words.len(),
{
    if words.len() > 0 {
        lemma_laid_out_fits(words.drop_last(), width);
        let p = laid_out(words.drop_last(), width);
        let w = words.last();
        lemma_closed_off_fits(p.0, p.1, width);
        lemma_broken_fits(w, width);
        lemma_closed_off_fits(broken(w, width).0, broken(w, width).1, width);
        let off = closed_off(p.0, p.1);
        let cs = chunks(w, width);
        let all = off + cs;
        assert forall|i: int| 0 <= i < all.len() implies fits(#[trigger] all[i], width) by {
            if i < off.len() {
                assert(all[i] == off[i]);
            } else {
                assert(all[i] == cs[i - off.len()]);
            }
        }
        if all.len() > 0 {
            let d = all.drop_last();
            assert forall|i: int| 0 <= i < d.len() implies fits(#[trigger] d[i], width) by {
                assert(d[i] == all[i]);
            }
            assert(fits(all[all.len() - 1], width));
        }
    }
}

/// No wrapped line is wider than asked, except a single character that alone is.
pub proof fn wrapped_lines_fit(raw: Seq<char>, width: nat)
    ensures
        all_fit(wrapped(raw, width), wrap_width(width)),
{
    let w = wrap_width(width);
    let ws = chars::words(raw);
    lemma_laid_out_fits(ws, w);
    let p = laid_out(ws, w);
    lemma_closed_off_fits(p.0, p.1, w);
}

/// Sum of column widths.
pub open spec fn sum(w: Seq<usize>) -> nat
    decreases w.len(),
{
    if w.len() == 0 {
        0
    } else {
        sum(w.drop_last()) + w.last() as nat
    }
}

/// The last of the widest columns among the first `n` that are wider than `floor`.
pub open spec fn widest(w: Seq<usize>, n: int, floor: int) -> Option<int>
    decreases n,
{
    if n <= 0 {
        None
    } else {
        match widest(w, n - 1, floor) {
            Some(b) => if w[n - 1] > floor && w[n - 1] >= w[b] {
                Some(n - 1)
            } else {
                Some(b)
            },
            None => if w[n - 1] > floor {
                Some(n - 1)
            } else {
                None
            },
        }
    }
}

/// Columns are not shrunk below this while another is wider.
pub const COLUMN_FLOOR: usize = 8;

/// The column that gives up one column of width next.
pub open spec fn to_shrink(w: Seq<usize>) -> Option<int> {
    match widest(w, w.len() as int, COLUMN_FLOOR as int) {
        Some(i) => Some(i),
        None => widest(w, w.len() as int, -1),
    }
}

/// The widths shrunk to `avail` columns in all, always from the widest column.
pub open spec fn fitted(w: Seq<usize>, avail: nat) -> Seq<usize>
    decreases sum(w),
{
    if sum(w) <= avail {
        w
    } else {
        match to_shrink(w) {
            Some(i) => if 0 <= i < w.len() && w[i] > 0 {
                proof {
                    lemma_sum_update(w, i);
                }
                fitted(w.update(i, (w[i] - 1) as usize), avail)
            } else {
                w
            },
            None => w,
        }
    }
}

/// Giving up one column of width lowers the sum by one.
pub proof fn lemma_sum_update(w: Seq<usize>, i: int)
    requires
        0 <= i < w.len(),
        w[i] > 0,
    ensures
        sum(w.update(i, (w[i] - 1) as usize)) == sum(w) - 1,
    decreases w.len(),
{
    let u = w.update(i, (w[i] - 1) as usize);
    if i == w.len() - 1 {
        assert(u.drop_last() =~= w.drop_last());
    } else {
        lemma_sum_update(w.drop_last(), i);
        assert(u.drop_last() =~= w.drop_last().update(i, (w[i] - 1) as usize));
    }
}

proof fn lemma_widest(w: Seq<usize>, n: int, floor: int)
    requires
        0 <= n <= w.len(),
    ensures
        match widest(w, n, floor) {
            Some(b) => 0 <= b < n && w[b] > floor && forall|j: int|
                0 <= j < n ==> #[trigger] w[j] <= w[b],
            None => forall|j: int| 0 <= j < n ==> #[trigger] w[j] <= floor,
        },
    decreases n,
{
    if n > 0 {
        lemma_widest(w, n - 1, floor);
    }
}

proof fn lemma_sum_positive(w: Seq<usize>)
    requires
        sum(w) > 0,
    ensures
        exists|i: int| 0 <= i < w.len() && w[i] > 0,
    decreases w.len(),
{
    if w.last() > 0 {
        assert(w[w.len() - 1] > 0);
    } else {
        lemma_sum_positive(w.drop_last());
        let i = choose|i: int| 0 <= i < w.len() - 1 && w.drop_last()[i] > 0;
        assert(w[i] > 0);
    }
}

proof fn lemma_to_shrink(w: Seq<usize>)
    requires
        sum(w) > 0,
    ensures
        to_shrink(w) is Some,
        0 <= to_shrink(w)->0 < w.len(),
        w[to_shrink(w)->0] > 0,
        w[to_shrink(w)->0] > COLUMN_FLOOR || forall|j: int|
            0 <= j < w.len() ==> #[trigger] w[j] <= COLUMN_FLOOR,
        forall|j: int| 0 <= j < w.len() ==> #[trigger] w[j] <= w[to_shrink(w)->0],
{
    lemma_sum_positive(w);
    lemma_widest(w, w.len() as int, COLUMN_FLOOR as int);
    lemma_widest(w, w.len() as int, -1);
    let i = choose|i: int| 0 <= i < w.len() && w[i] > 0;
    assert(w[i] > 0);
}

/// Shrinking gives up exactly what does not fit, never widens a column, and takes
/// from a narrow column only once every column is narrow.
pub proof fn fitted_widths_fit(w: Seq<usize>, avail: nat)
    ensures
        fitted(w, avail).len() == w.len(),
        sum(fitted(w, avail)) == (if sum(w) <= avail {
            sum(w)
        } else {
            avail
        }),
        forall|j: int| 0 <= j < w.len() ==> #[trigger] fitted(w, avail)[j] <= w[j],
        (forall|j: int|
            0 <= j < w.len() && w[j] <= COLUMN_FLOOR ==> #[trigger] fitted(w, avail)[j] == w[j]) || (
        forall|j: int| 0 <= j < w.len() ==> #[trigger] fitted(w, avail)[j] <= COLUMN_FLOOR),
    decreases sum(w),
{
    if sum(w) > avail {
        lemma_to_shrink(w);
        let i = to_shrink(w)->0;
        let u = w.update(i, (w[i] - 1) as usize);
        lemma_sum_update(w, i);
        fitted_widths_fit(u, avail);
        let f = fitted(w, avail);
        assert(f == fitted(u, avail));
        assert forall|j: int| 0 <= j < w.len() implies #[trigger] f[j] <= w[j] by {
            assert(fitted(u, avail)[j] <= u[j]);
        }
        if w[i] > COLUMN_FLOOR {
            if forall|j: int|
                0 <= j < u.len() && u[j] <= COLUMN_FLOOR ==> #[trigger] fitted(u, avail)[j] == u[j] {
                assert forall|j: int| 0 <= j < w.len() && w[j] <= COLUMN_FLOOR implies #[trigger] f[j]
                    == w[j] by {
                    assert(u[j] == w[j]);
                    assert(fitted(u, avail)[j] == u[j]);
                }
            }
        } else {
            assert forall|j: int| 0 <= j < w.len() implies #[trigger] f[j] <= COLUMN_FLOOR by {
                assert(w[j] <= COLUMN_FLOOR);
                assert(f[j] <= w[j]);
            }
        }
    }
}

proof fn lemma_sum_bound(w: Seq<usize>)
    ensures
        sum(w) <= w.len() * (usize::MAX as nat),
    decreases w.len(),
{
    if w.len() > 0 {
        lemma_sum_bound(w.drop_last());
        assert(w.len() * (usize::MAX as nat) == (w.len() - 1) * (usize::MAX as nat)
            + usize::MAX as nat) by (nonlinear_arith)
            requires
                w.len() > 0,
        ;
    }
}

fn total(w: &Vec<usize>) -> (r: u128)
    ensures
        r == sum(w@),
{
    let mut acc: u128 = 0;
    let mut i: usize = 0;
    assert(w@.take(0) =~= Seq::empty());
    while i < w.len()
        invariant
            i <= w@.len(),
            acc == sum(w@.take(i as int)),
        decreases w@.len() - i,
    {
        proof {
            assert(w@.take(i + 1).drop_last() =~= w@.take(i as int));
            lemma_sum_bound(w@.take(i as int));
            assert((i as nat) * (usize::MAX as nat) <= (usize::MAX as nat) * (usize::MAX as nat))
                by (nonlinear_arith)
                requires
                    i <= usize::MAX,
            ;
            assert((usize::MAX as nat) * (usize::MAX as nat) + (usize::MAX as nat) <= u128::MAX)
                by (nonlinear_arith)
                requires
                    usize::MAX <= 0xffff_ffff_ffff_ffff,
            ;
        }
        acc = acc + w[i] as u128;
        i += 1;
    }
    assert(w@.take(i as int) =~= w@);
    acc
}

fn find_widest(w: &Vec<usize>, floor: Option<usize>) -> (r: Option<usize>)
    ensures
        match r {
            Some(i) => widest(
                w@,
                w@.len() as int,
                (match floor {
                    Some(f) => f as int,
                    None => -1,
                }),
            ) == Some(i as int),
            None => widest(
                w@,
                w@.len() as int,
                (match floor {
                    Some(f) => f as int,
                    None => -1,
                }),
            ) is None,
        },
{
    let ghost fl: int = match floor {
        Some(f) => f as int,
        None => -1,
    };
    let mut best: Option<usize> = None;
    let mut i: usize = 0;
    while i < w.len()
        invariant
            fl == (match floor {
                Some(f) => f as int,
                None => -1,
            }),
            i <= w@.len(),
            match best {
                Some(b) => widest(w@, i as int, fl) == Some(b as int) && b < i,
                None => widest(w@, i as int, fl) is None,
            },
        decreases w@.len() - i,
    {
        let above = match floor {
            Some(f) => w[i] > f,
            None => true,
        };
        if above {
            match best {
                Some(b) => {
                    if w[i] >= w[b] {
                        best = Some(i);
                    }
                },
                None => {
                    best = Some(i);
                },
            }
        }
        i += 1;
    }
    best
}

/// Shrinks natural column widths to `avail` columns in all, taking from the widest
/// column first.
pub fn fit_widths(natural: &[usize], avail: usize) -> (r: Vec<usize>)
    ensures
        r@ == fitted(natural@, avail as nat),
{
    let mut w: Vec<usize> = Vec::new();
    let mut i: usize = 0;
    while i < natural.len()
        invariant
            i <= natural@.len(),
            w@ == natural@.take(i as int),
        decreases natural@.len() - i,
    {
        w.push(natural[i]);
        i += 1;
        assert(w@ =~= natural@.take(i as int));
    }
    assert(w@ =~= natural@);
    while total(&w) > avail as u128
        invariant
            fitted(w@, avail as nat) == fitted(natural@, avail as nat),
        decreases sum(w@),
    {
        proof {
            lemma_to_shrink(w@);
            lemma_sum_update(w@, to_shrink(w@)->0);
        }
        let idx: usize = match find_widest(&w, Some(COLUMN_FLOOR)) {
            Some(i) => i,
            None => match find_widest(&w, None) {
                Some(i) => i,
                None => 0,
            },
        };
        let v: usize = w[idx] - 1;
        w.set(idx, v);
    }
    w
}

/// A table row's text between its outer pipes; a last pipe that is escaped is part of
/// the text.
pub open spec fn row_body(line: Seq<char>) -> Seq<char> {
    let t = chars::trim(line);
    let t = if t.len() > 0 && t[0] == '|' {
        t.skip(1)
    } else {
        t
    };
    if t.len() > 0 && t.last() == '|' && !(t.len() > 1 && t[t.len() - 2] == '\\') {
        t.drop_last()
    } else {
        t
    }
}

/// The cells of `s`, the first of which begins with `open`; an escaped pipe is part
/// of its cell.
pub open spec fn cells_from(s: Seq<char>, open: Seq<char>) -> Seq<Seq<char>>
    decreases s.len(),
{
    if s.len() == 0 {
        seq![chars::trim(open)]
    } else if s[0] == '\\' && s.len() > 1 && s[1] == '|' {
        cells_from(s.skip(2), open.push('|'))
    } else if s[0] == '|' {
        seq![chars::trim(open)] + cells_from(s.skip(1), seq![])
    } else {
        cells_from(s.skip(1), open.push(s[0]))
    }
}

/// The trimmed cells of a table row; there is always at least one.
pub open spec fn cells_of(line: Seq<char>) -> Seq<Seq<char>> {
    cells_from(row_body(line), seq![])
}

proof fn lemma_cells_nonempty(s: Seq<char>, open: Seq<char>)
    ensures
        cells_from(s, open).len() > 0,
    decreases s.len(),
{
    if s.len() == 0 {
    } else if s[0] == '\\' && s.len() > 1 && s[1] == '|' {
        lemma_cells_nonempty(s.skip(2), open.push('|'));
    } else if s[0] == '|' {
    } else {
        lemma_cells_nonempty(s.skip(1), open.push(s[0]));
    }
}

/// The trimmed cells of a table row.
fn split_row(line: &[char]) -> (r: Vec<Vec<char>>)
    ensures
        text::views(r@) == cells_of(line@),
        r@.len() > 0,
{
    let mut t: &[char] = text::trim(line);
    if t.len() > 0 && t[0] == '|' {
        t = text::from(t, 1);
    }
    if t.len() > 0 && t[t.len() - 1] == '|' && !(t.len() > 1 && t[t.len() - 2] == '\\') {
        assert(t@.take(t@.len() - 1) =~= t@.drop_last());
        t = text::upto(t, t.len() - 1);
    }
    assert(t@ == row_body(line@));
    proof {
        lemma_cells_nonempty(t@, seq![]);
    }
    let mut cells: Vec<Vec<char>> = Vec::new();
    let mut cur: Vec<char> = Vec::new();
    let mut rest: &[char] = t;
    assert(cur@ =~= seq![]);
    assert(text::views(cells@) + cells_from(rest@, cur@) =~= cells_of(line@));
    while rest.len() > 0
        invariant
            text::views(cells@) + cells_from(rest@, cur@) == cells_of(line@),
        decreases rest@.len(),
    {
        let ghost before = text::views(cells@);
        let ghost r0 = rest@;
        let ghost c0 = cur@;
        if rest[0] == '\\' && rest.len() > 1 && rest[1] == '|' {
            cur.push('|');
            rest = text::from(rest, 2);
        } else if rest[0] == '|' {
            cells.push(text::to_vec(text::trim(&cur)));
            assert(text::views(cells@) =~= before.push(chars::trim(c0)));
            cur = Vec::new();
            assert(cur@ =~= seq![]);
            rest = text::from(rest, 1);
            assert(before + (seq![chars::trim(c0)] + cells_from(rest@, cur@)) =~= before.push(
                chars::trim(c0),
            ) + cells_from(rest@, cur@));
        } else {
            cur.push(rest[0]);
            rest = text::from(rest, 1);
        }
    }
    let ghost before = text::views(cells@);
    cells.push(text::to_vec(text::trim(&cur)));
    assert(text::views(cells@) =~= before + seq![chars::trim(cur@)]);
    cells
}

/// A table's separator row: pipes, dashes, colons and spaces only, with at least
/// one dash, beginning with a pipe.
pub open spec fn separates(line: Seq<char>) -> bool {
    let t = chars::trim(line);
    &&& t.len() > 0
    &&& t[0] == '|'
    &&& t.contains('-')
    &&& forall|i: int|
        0 <= i < t.len() ==> (#[trigger] t[i]) == '|' || t[i] == '-' || t[i] == ':' || t[i] == ' '
}

fn is_separator_row(line: &[char]) -> (r: bool)
    ensures
        r == separates(line@),
{
    let t = text::trim(line);
    if t.len() == 0 || t[0] != '|' {
        return false;
    }
    let mut dash = false;
    let mut i: usize = 0;
    while i < t.len()
        invariant
            t@ == chars::trim(line@),
            i <= t@.len(),
            dash ==> t@.contains('-'),
            !dash ==> forall|j: int| 0 <= j < i ==> t@[j] != '-',
            forall|j: int|
                0 <= j < i ==> (#[trigger] t@[j]) == '|' || t@[j] == '-' || t@[j] == ':' || t@[j] == ' ',
        decreases t@.len() - i,
    {
        let c = t[i];
        if c == '-' {
            assert(t@[i as int] == '-');
            dash = true;
        } else if c != '|' && c != ':' && c != ' ' {
            assert(t@[i as int] == c);
            return false;
        }
        i += 1;
    }
    dash
}

/// How often `c` occurs.
pub open spec fn count(s: Seq<char>, c: char) -> nat
    decreases s.len(),
{
    if s.len() == 0 {
        0
    } else if s.last() == c {
        count(s.drop_last(), c) + 1
    } else {
        count(s.drop_last(), c)
    }
}

/// A horizontal rule: at least three of one marker, with only that marker and
/// spaces.
pub open spec fn rules(trimmed: Seq<char>) -> bool {
    let t = chars::trim_end(trimmed);
    &&& t.len() > 0
    &&& (t[0] == '-' || t[0] == '*' || t[0] == '_')
    &&& count(t, t[0]) >= 3
    &&& forall|i: int| 0 <= i < t.len() ==> (#[trigger] t[i]) == t[0] || t[i] == ' '
}

fn is_hrule(trimmed: &[char]) -> (r: bool)
    ensures
        r == rules(trimmed@),
{
    let t = text::trim_end(trimmed);
    if t.len() == 0 {
        return false;
    }
    let marker = t[0];
    if marker != '-' && marker != '*' && marker != '_' {
        return false;
    }
    let mut n: usize = 0;
    let mut i: usize = 0;
    assert(t@.take(0) =~= Seq::empty());
    while i < t.len()
        invariant
            t@ == chars::trim_end(trimmed@),
            t@.len() > 0,
            marker == t@[0],
            i <= t@.len(),
            n <= i,
            n == count(t@.take(i as int), marker),
            forall|j: int| 0 <= j < i ==> (#[trigger] t@[j]) == marker || t@[j] == ' ',
        decreases t@.len() - i,
    {
        let c = t[i];
        proof {
            assert(t@.take(i + 1).drop_last() =~= t@.take(i as int));
            assert(t@.take(i + 1).last() == c);
        }
        if c == marker {
            n += 1;
        } else if c != ' ' {
            assert(t@[i as int] == c);
            return false;
        }
        i += 1;
    }
    assert(t@.take(i as int) =~= t@);
    n >= 3
}

/// The length of a horizontal rule: the terminal width, at most 64, less the
/// indent, at least 3.
pub open spec fn rule_len(indent: Seq<char>, term: nat) -> nat {
    let cap = if term < 64 {
        term
    } else {
        64
    };
    let left = if shown_width(indent) < cap {
        (cap - shown_width(indent)) as nat
    } else {
        0
    };
    if left < 3 {
        3
    } else {
        left
    }
}

fn hrule_width(indent: &[char], term: usize) -> (r: usize)
    ensures
        r == rule_len(indent@, term as nat),
{
    let cap: usize = if term < 64 { term } else { 64 };
    let left: usize = cap.saturating_sub(columns(indent));
    if left < 3 {
        3
    } else {
        left
    }
}

/// How many quote markers begin `s`, and what follows them.
pub open spec fn unquoted(s: Seq<char>) -> (nat, Seq<char>)
    decreases s.len(),
{
    if s.len() > 0 && s[0] == '>' {
        let r = s.skip(1);
        let r = if r.len() > 0 && r[0] == ' ' {
            r.skip(1)
        } else {
            r
        };
        (1 + unquoted(r).0, unquoted(r).1)
    } else {
        (0, s)
    }
}

fn strip_quote(s: &[char]) -> (r: (usize, &[char]))
    ensures
        r.0 == unquoted(s@).0,
        r.1@ == unquoted(s@).1,
        r.0 <= s@.len(),
    decreases s@.len(),
{
    if s.len() > 0 && s[0] == '>' {
        let mut r: &[char] = text::from(s, 1);
        if r.len() > 0 && r[0] == ' ' {
            r = text::from(r, 1);
        }
        let (depth, rest) = strip_quote(r);
        (depth + 1, rest)
    } else {
        (0, s)
    }
}

/// How many decimal digits begin `s`.
pub open spec fn leading_digits(s: Seq<char>) -> int {
    chars::find(s, |c: char| !chars::is_digit(c))
}

/// Whether `s` is an ordered-list line: one to nine digits, `.` or `)`, a space.
pub open spec fn ordered(s: Seq<char>) -> bool {
    let d = leading_digits(s);
    1 <= d <= 9 && d + 1 < s.len() && (s[d] == '.' || s[d] == ')') && s[d + 1] == ' '
}

fn count_digits(s: &[char]) -> (r: usize)
    ensures
        r == leading_digits(s@),
        r <= s@.len(),
{
    let mut i: usize = 0;
    while i < s.len() && text::is_digit(s[i])
        invariant
            i <= s@.len(),
            forall|j: int| 0 <= j < i ==> chars::is_digit(#[trigger] s@[j]),
        decreases s@.len() - i,
    {
        i += 1;
    }
    proof {
        chars::lemma_find(s@, |c: char| !chars::is_digit(c), i as int);
    }
    i
}

/// Splits an ordered-list line into its marker and its item.
fn split_ordered(s: &[char]) -> (r: Option<(&[char], &[char])>)
    ensures
        r is Some <==> ordered(s@),
        r matches Some(p) ==> p.0@ == s@.take(leading_digits(s@) + 1) && p.1@ == s@.skip(
            leading_digits(s@) + 2,
        ),
{
    let d = count_digits(s);
    if d == 0 || d > 9 {
        return None;
    }
    if s.len() < 2 || d >= s.len() - 1 {
        return None;
    }
    if (s[d] == '.' || s[d] == ')') && s[d + 1] == ' ' {
        Some((text::upto(s, d + 1), text::from(s, d + 2)))
    } else {
        None
    }
}

/// How many hashes begin `s`.
pub open spec fn hashes(s: Seq<char>) -> int {
    chars::find(s, |c: char| c != '#')
}

/// Whether `s` is a header line: one to six hashes and a space.
pub open spec fn heads(s: Seq<char>) -> bool {
    let h = hashes(s);
    1 <= h <= 6 && h < s.len() && s[h] == ' '
}

fn split_header(s: &[char]) -> (r: Option<&[char]>)
    ensures
        r is Some <==> heads(s@),
        r matches Some(t) ==> t@ == s@.skip(hashes(s@) + 1),
{
    let mut i: usize = 0;
    while i < s.len() && s[i] == '#'
        invariant
            i <= s@.len(),
            forall|j: int| 0 <= j < i ==> (#[trigger] s@[j]) == '#',
        decreases s@.len() - i,
    {
        i += 1;
    }
    proof {
        chars::lemma_find(s@, |c: char| c != '#', i as int);
    }
    if 1 <= i && i <= 6 && i < s.len() && s[i] == ' ' {
        Some(text::from(s, i + 1))
    } else {
        None
    }
}

/// Alignment of a table column.
#[derive(Debug, Clone, Copy, PartialEq, Eq, Structural)]
pub enum Align {
    Left,
    Right,
    Center,
}

/// The alignment that a separator cell asks for.
pub open spec fn align_of(cell: Seq<char>) -> Align {
    if cell.len() > 0 && cell.last() == ':' {
        if cell[0] == ':' {
            Align::Center
        } else {
            Align::Right
        }
    } else {
        Align::Left
    }
}

/// The alignment of column `c`.
pub open spec fn align_at(separator: Seq<Seq<char>>, c: int) -> Align {
    if 0 <= c < separator.len() {
        align_of(separator[c])
    } else {
        Align::Left
    }
}

/// The cell in column `c`, empty when the row is shorter.
pub open spec fn cell_at(cells: Seq<Seq<char>>, c: int) -> Seq<char> {
    if 0 <= c < cells.len() {
        cells[c]
    } else {
        seq![]
    }
}

/// The widest cell of column `c`.
pub open spec fn column_width(rows: Seq<Seq<Seq<char>>>, c: int) -> usize
    decreases rows.len(),
{
    if rows.len() == 0 {
        0
    } else {
        let before = column_width(rows.drop_last(), c);
        if c < rows.last().len() && shown_width(rows.last()[c]) > before {
            shown_width(rows.last()[c])
        } else {
            before
        }
    }
}

/// The most cells in a row.
pub open spec fn most_cells(rows: Seq<Seq<Seq<char>>>) -> nat
    decreases rows.len(),
{
    if rows.len() == 0 {
        0
    } else if rows.last().len() > most_cells(rows.drop_last()) {
        rows.last().len()
    } else {
        most_cells(rows.drop_last())
    }
}

/// The widest cell of every column.
pub open spec fn natural_widths(rows: Seq<Seq<Seq<char>>>) -> Seq<usize> {
    Seq::new(most_cells(rows), |c: int| column_width(rows, c))
}

/// The columns left for the cells beside the table's frame and indent.
pub open spec fn available(term: nat, indent: Seq<char>, ncols: nat) -> nat {
    let frame = shown_width(indent) + 4 + 3 * (if ncols > 0 {
        ncols - 1
    } else {
        0
    });
    if frame < term {
        (term - frame) as nat
    } else {
        0
    }
}

/// A cell's line, rendered and padded to its column.
pub open spec fn padded(raw: Seq<char>, bold: bool, w: usize, align: Align, base: Seq<char>) -> Seq<
    char,
> {
    let rendered = if bold {
        BOLD@ + inlined(raw, base + BOLD@) + NORMAL@ + base
    } else {
        inlined(raw, base)
    };
    let pad: int = if shown_width(raw) < w {
        w - shown_width(raw)
    } else {
        0
    };
    let before: int = match align {
        Align::Left => 0,
        Align::Right => pad,
        Align::Center => pad / 2,
    };
    chars::repeat(' ', before as nat) + rendered + chars::repeat(' ', (pad - before) as nat)
}

/// What a table's lines share.
pub struct Frame {
    pub widths: Seq<usize>,
    pub separator: Seq<Seq<char>>,
    pub indent: Seq<char>,
    pub base: Seq<char>,
}

impl Frame {
    pub open spec fn bar(self) -> Seq<char> {
        DIM@ + seq!['│'] + NORMAL@ + self.base
    }

    /// One physical line of a row whose cells are wrapped to `cells`.
    pub open spec fn line(self, cells: Seq<Seq<Seq<char>>>, n: int, bold: bool) -> Seq<char> {
        let parts = Seq::new(
            self.widths.len(),
            |c: int|
                padded(
                    cell_at(cells[c], n),
                    bold,
                    self.widths[c],
                    align_at(self.separator, c),
                    self.base,
                ),
        );
        self.indent + self.bar() + seq![' '] + chars::join(
            parts,
            seq![' '] + self.bar() + seq![' '],
        ) + seq![' '] + self.bar()
    }

    /// The cells of a row, each wrapped to its column.
    pub open spec fn wrapped_cells(self, row: Seq<Seq<char>>) -> Seq<Seq<Seq<char>>> {
        Seq::new(
            self.widths.len(),
            |c: int| wrapped(cell_at(row, c), self.widths[c] as nat),
        )
    }

    /// The physical lines of a row.
    pub open spec fn row(self, row: Seq<Seq<char>>, bold: bool) -> Seq<Seq<char>> {
        let cells = self.wrapped_cells(row);
        Seq::new(most_cells(cells), |n: int| self.line(cells, n, bold))
    }

    /// The physical lines of several rows.
    pub open spec fn rows(self, rows: Seq<Seq<Seq<char>>>) -> Seq<Seq<char>>
        decreases rows.len(),
    {
        if rows.len() == 0 {
            seq![]
        } else {
            self.rows(rows.drop_last()) + self.row(rows.last(), false)
        }
    }

    /// A horizontal frame line with these corners and this junction.
    pub open spec fn divider(self, left: char, junction: char, right: char) -> Seq<char> {
        let segments = Seq::new(
            self.widths.len(),
            |c: int| chars::repeat('─', (self.widths[c] + 2) as nat),
        );
        self.indent + DIM@ + seq![left] + chars::join(segments, seq![junction]) + seq![right]
            + NORMAL@ + self.base
    }
}

/// The cells of several lines.
pub open spec fn all_cells(lines: Seq<Seq<char>>) -> Seq<Seq<Seq<char>>> {
    Seq::new(lines.len(), |i: int| cells_of(lines[i]))
}

/// The header's cells, then those of the body's rows.
pub open spec fn table_rows(block: Seq<Seq<char>>) -> Seq<Seq<Seq<char>>> {
    seq![cells_of(block[0])] + all_cells(block.skip(2))
}

/// The frame of a table whose header, separator and rows are `block`.
pub open spec fn frame_of(
    block: Seq<Seq<char>>,
    indent: Seq<char>,
    base: Seq<char>,
    term: nat,
) -> Frame {
    let rows = table_rows(block);
    Frame {
        widths: fitted(natural_widths(rows), available(term, indent, most_cells(rows))),
        separator: cells_of(block[1]),
        indent,
        base,
    }
}

/// A table as a box: frame, header, rule, rows, frame.
pub open spec fn table_lines(
    block: Seq<Seq<char>>,
    indent: Seq<char>,
    base: Seq<char>,
    term: nat,
) -> Seq<Seq<char>> {
    let f = frame_of(block, indent, base, term);
    seq![f.divider('╭', '┬', '╮')] + f.row(cells_of(block[0]), true) + seq![
        f.divider('├', '┼', '┤'),
    ] + f.rows(all_cells(block.skip(2))) + seq![f.divider('╰', '┴', '╯')]
}

/// The view of a grid of cells.
pub open spec fn grid(v: Seq<Vec<Vec<char>>>) -> Seq<Seq<Seq<char>>> {
    v.map_values(|r: Vec<Vec<char>>| text::views(r@))
}

fn max_cells(rows: &Vec<Vec<Vec<char>>>) -> (r: usize)
    ensures
        r == most_cells(grid(rows@)),
{
    let mut best: usize = 0;
    let mut i: usize = 0;
    let ghost g = grid(rows@);
    assert(g.take(0) =~= Seq::empty());
    while i < rows.len()
        invariant
            g == grid(rows@),
            i <= rows@.len(),
            best == most_cells(g.take(i as int)),
        decreases rows@.len() - i,
    {
        proof {
            assert(g.take(i + 1).drop_last() =~= g.take(i as int));
            assert(g.take(i + 1).last() == text::views(rows@[i as int]@));
        }
        if rows[i].len() > best {
            best = rows[i].len();
        }
        i += 1;
    }
    assert(g.take(i as int) =~= g);
    best
}

fn widest_cell(rows: &Vec<Vec<Vec<char>>>, c: usize) -> (r: usize)
    ensures
        r == column_width(grid(rows@), c as int),
{
    let mut best: usize = 0;
    let mut i: usize = 0;
    let ghost g = grid(rows@);
    assert(g.take(0) =~= Seq::empty());
    while i < rows.len()
        invariant
            g == grid(rows@),
            i <= rows@.len(),
            best == column_width(g.take(i as int), c as int),
        decreases rows@.len() - i,
    {
        proof {
            assert(g.take(i + 1).drop_last() =~= g.take(i as int));
            assert(g.take(i + 1).last() == text::views(rows@[i as int]@));
        }
        if c < rows[i].len() {
            let w = columns(&rows[i][c]);
            if w > best {
                best = w;
            }
        }
        i += 1;
    }
    assert(g.take(i as int) =~= g);
    best
}

/// A table's shared layout.
struct TableFrame {
    widths: Vec<usize>,
    separator: Vec<Vec<char>>,
    indent: Vec<char>,
    base: Vec<char>,
}

impl TableFrame {
    spec fn view(self) -> Frame {
        Frame {
            widths: self.widths@,
            separator: text::views(self.separator@),
            indent: self.indent@,
            base: self.base@,
        }
    }

    fn bar(&self) -> (r: Vec<char>)
        ensures
            r@ == self.view().bar(),
    {
        let mut out = text::chars_of(DIM);
        out.push('│');
        text::extend_str(&mut out, NORMAL);
        text::extend(&mut out, &self.base);
        assert(out@ =~= self.view().bar());
        out
    }

    fn align(&self, c: usize) -> (r: Align)
        ensures
            r == align_at(self.view().separator, c as int),
    {
        if c >= self.separator.len() {
            return Align::Left;
        }
        let cell: &[char] = &self.separator[c];
        assert(cell@ == self.view().separator[c as int]);
        if cell.len() > 0 && cell[cell.len() - 1] == ':' {
            if cell[0] == ':' {
                Align::Center
            } else {
                Align::Right
            }
        } else {
            Align::Left
        }
    }

    fn padded_cell(&self, raw: &[char], c: usize, bold: bool) -> (r: Vec<char>)
        requires
            c < self.view().widths.len(),
        ensures
            r@ == padded(
                raw@,
                bold,
                self.view().widths[c as int],
                align_at(self.view().separator, c as int),
                self.view().base,
            ),
    {
        let w: usize = self.widths[c];
        let pad: usize = w.saturating_sub(columns(raw));
        let before: usize = match self.align(c) {
            Align::Left => 0,
            Align::Right => pad,
            Align::Center => pad / 2,
        };
        let mut out: Vec<char> = Vec::new();
        text::push_repeat(&mut out, ' ', before);
        if bold {
            text::extend_str(&mut out, BOLD);
            text::extend(&mut out, &inline(raw, &joined(&self.base, BOLD)));
            text::extend_str(&mut out, NORMAL);
            text::extend(&mut out, &self.base);
        } else {
            text::extend(&mut out, &inline(raw, &self.base));
        }
        text::push_repeat(&mut out, ' ', pad - before);
        assert(out@ =~= padded(
            raw@,
            bold,
            self.view().widths[c as int],
            align_at(self.view().separator, c as int),
            self.view().base,
        ));
        out
    }

    fn line(&self, cells: &Vec<Vec<Vec<char>>>, n: usize, bold: bool) -> (r: Vec<char>)
        requires
            cells@.len() == self.view().widths.len(),
        ensures
            r@ == self.view().line(grid(cells@), n as int, bold),
    {
        let ghost f = self.view();
        let ghost g = grid(cells@);
        let ghost want = Seq::new(
            f.widths.len(),
            |c: int|
                padded(cell_at(g[c], n as int), bold, f.widths[c], align_at(f.separator, c), f.base),
        );
        let mut parts: Vec<Vec<char>> = Vec::new();
        let empty: Vec<char> = Vec::new();
        assert(empty@ =~= seq![]);
        let mut c: usize = 0;
        while c < self.widths.len()
            invariant
                f == self.view(),
                g == grid(cells@),
                cells@.len() == f.widths.len(),
                empty@ == Seq::<char>::empty(),
                c <= f.widths.len(),
                parts@.len() == c,
                forall|j: int|
                    0 <= j < c ==> (#[trigger] parts@[j])@ == padded(
                        cell_at(g[j], n as int),
                        bold,
                        f.widths[j],
                        align_at(f.separator, j),
                        f.base,
                    ),
            decreases f.widths.len() - c,
        {
            assert(g[c as int] == text::views(cells@[c as int]@));
            let raw: &[char] = if n < cells[c].len() { &cells[c][n] } else { &empty };
            assert(raw@ == cell_at(g[c as int], n as int));
            parts.push(self.padded_cell(raw, c, bold));
            c += 1;
        }
        assert(text::views(parts@) =~= want);
        let bar = self.bar();
        let mut sep: Vec<char> = Vec::new();
        sep.push(' ');
        text::extend(&mut sep, &bar);
        sep.push(' ');
        assert(sep@ =~= seq![' '] + f.bar() + seq![' ']);
        let mut out = text::to_vec(&self.indent);
        text::extend(&mut out, &bar);
        out.push(' ');
        text::extend(&mut out, &text::join(&parts, &sep));
        out.push(' ');
        text::extend(&mut out, &bar);
        assert(out@ =~= f.line(g, n as int, bold));
        out
    }

    /// Appends the physical lines of a row.
    fn push_row(&self, row: &Vec<Vec<char>>, bold: bool, out: &mut Vec<Vec<char>>)
        ensures
            text::views(final(out)@) == text::views(old(out)@) + self.view().row(
                text::views(row@),
                bold,
            ),
    {
        let ghost f = self.view();
        let ghost want = f.wrapped_cells(text::views(row@));
        let mut cells: Vec<Vec<Vec<char>>> = Vec::new();
        let empty: Vec<char> = Vec::new();
        assert(empty@ =~= seq![]);
        let mut c: usize = 0;
        while c < self.widths.len()
            invariant
                f == self.view(),
                empty@ == Seq::<char>::empty(),
                c <= f.widths.len(),
                cells@.len() == c,
                forall|j: int|
                    0 <= j < c ==> text::views((#[trigger] cells@[j])@) == wrapped(
                        cell_at(text::views(row@), j),
                        f.widths[j] as nat,
                    ),
            decreases f.widths.len() - c,
        {
            let raw: &[char] = if c < row.len() { &row[c] } else { &empty };
            assert(raw@ == cell_at(text::views(row@), c as int));
            cells.push(wrap_chars(raw, self.widths[c]));
            c += 1;
        }
        assert(grid(cells@) =~= want);
        let height = max_cells(&cells);
        let mut n: usize = 0;
        let ghost lines = f.row(text::views(row@), bold);
        assert(lines.take(0) =~= Seq::empty());
        assert(text::views(out@) =~= text::views(old(out)@) + lines.take(0));
        while n < height
            invariant
                f == self.view(),
                cells@.len() == f.widths.len(),
                grid(cells@) == f.wrapped_cells(text::views(row@)),
                height == most_cells(grid(cells@)),
                lines == f.row(text::views(row@), bold),
                n <= height,
                text::views(out@) == text::views(old(out)@) + lines.take(n as int),
            decreases height - n,
        {
            let ghost before = text::views(out@);
            let l = self.line(&cells, n, bold);
            out.push(l);
            assert(text::views(out@) =~= before.push(l@));
            assert(lines[n as int] == l@);
            assert(lines.take(n + 1) =~= lines.take(n as int).push(l@));
            n += 1;
            assert(text::views(out@) =~= text::views(old(out)@) + lines.take(n as int));
        }
        assert(lines.take(n as int) =~= lines);
    }

    fn divider(&self, left: char, junction: char, right: char) -> (r: Vec<char>)
        ensures
            r@ == self.view().divider(left, junction, right),
    {
        let ghost f = self.view();
        let ghost want = Seq::new(
            f.widths.len(),
            |c: int| chars::repeat('─', (f.widths[c] + 2) as nat),
        );
        let mut segments: Vec<Vec<char>> = Vec::new();
        let mut c: usize = 0;
        while c < self.widths.len()
            invariant
                f == self.view(),
                c <= f.widths.len(),
                segments@.len() == c,
                forall|j: int|
                    0 <= j < c ==> (#[trigger] segments@[j])@ == chars::repeat(
                        '─',
                        (f.widths[j] + 2) as nat,
                    ),
            decreases f.widths.len() - c,
        {
            let mut seg: Vec<char> = Vec::new();
            text::push_repeat(&mut seg, '─', self.widths[c]);
            seg.push('─');
            seg.push('─');
            assert(seg@ =~= chars::repeat('─', (f.widths[c as int] + 2) as nat));
            segments.push(seg);
            c += 1;
        }
        assert(text::views(segments@) =~= want);
        let mut sep: Vec<char> = Vec::new();
        sep.push(junction);
        assert(sep@ =~= seq![junction]);
        let mut out = text::to_vec(&self.indent);
        text::extend_str(&mut out, DIM);
        out.push(left);
        text::extend(&mut out, &text::join(&segments, &sep));
        out.push(right);
        text::extend_str(&mut out, NORMAL);
        text::extend(&mut out, &self.base);
        assert(out@ =~= f.divider(left, junction, right));
        out
    }
}

fn frame_columns(term: usize, indent: &[char], ncols: usize) -> (r: usize)
    ensures
        r == available(term as nat, indent@, ncols as nat),
{
    let inner: u128 = if ncols > 0 { ncols as u128 - 1 } else { 0 };
    let frame: u128 = columns(indent) as u128 + 4 + 3 * inner;
    if frame < term as u128 {
        (term as u128 - frame) as usize
    } else {
        0
    }
}

fn layout(block: &[Vec<char>], indent: &[char], base: &[char], term: usize) -> (r: (
    TableFrame,
    Vec<Vec<Vec<char>>>,
))
    requires
        block@.len() >= 2,
    ensures
        r.0.view() == frame_of(text::views(block@), indent@, base@, term as nat),
        grid(r.1@) == table_rows(text::views(block@)),
{
    let ghost bv = text::views(block@);
    let mut rows: Vec<Vec<Vec<char>>> = Vec::new();
    rows.push(split_row(&block[0]));
    let mut i: usize = 2;
    while i < block.len()
        invariant
            bv == text::views(block@),
            2 <= i <= block@.len(),
            rows@.len() == i - 1,
            text::views(rows@[0]@) == cells_of(bv[0]),
            forall|j: int|
                1 <= j < i - 1 ==> text::views((#[trigger] rows@[j])@) == cells_of(bv[j + 1]),
        decreases block@.len() - i,
    {
        assert(bv[i as int] == block@[i as int]@);
        rows.push(split_row(&block[i]));
        i += 1;
    }
    proof {
        let g = grid(rows@);
        let t = table_rows(bv);
        assert(g.len() == t.len());
        assert forall|j: int| 0 <= j < g.len() implies g[j] == t[j] by {
            if j > 0 {
                assert(t[j] == all_cells(bv.skip(2))[j - 1]);
                assert(bv.skip(2)[j - 1] == bv[j + 1]);
                assert(g[j] == text::views(rows@[j]@));
            }
        }
        assert(g =~= t);
    }
    let ncols = max_cells(&rows);
    let mut natural: Vec<usize> = Vec::new();
    let mut c: usize = 0;
    while c < ncols
        invariant
            c <= ncols,
            natural@.len() == c,
            forall|j: int| 0 <= j < c ==> #[trigger] natural@[j] == column_width(grid(rows@), j),
        decreases ncols - c,
    {
        natural.push(widest_cell(&rows, c));
        c += 1;
    }
    assert(natural@ =~= natural_widths(grid(rows@)));
    let widths = fit_widths(&natural, frame_columns(term, indent, ncols));
    let separator = split_row(&block[1]);
    assert(bv[1] == block@[1]@);
    let frame = TableFrame {
        widths,
        separator,
        indent: text::to_vec(indent),
        base: text::to_vec(base),
    };
    (frame, rows)
}

/// Appends a table as a box.
fn render_table(
    block: &[Vec<char>],
    indent: &[char],
    base: &[char],
    term: usize,
    out: &mut Vec<Vec<char>>,
)
    requires
        block@.len() >= 2,
    ensures
        text::views(final(out)@) == text::views(old(out)@) + table_lines(
            text::views(block@),
            indent@,
            base@,
            term as nat,
        ),
{
    let ghost bv = text::views(block@);
    let ghost o0 = text::views(out@);
    let (frame, rows) = layout(block, indent, base, term);
    let ghost f = frame.view();
    let ghost g = grid(rows@);
    let top = frame.divider('╭', '┬', '╮');
    out.push(top);
    let ghost o1 = text::views(out@);
    assert(o1 =~= o0 + seq![top@]);
    assert(g[0] == text::views(rows@[0]@));
    frame.push_row(&rows[0], true, out);
    let ghost o2 = text::views(out@);
    let mid = frame.divider('├', '┼', '┤');
    out.push(mid);
    let ghost o3 = text::views(out@);
    assert(o3 =~= o2 + seq![mid@]);
    let ghost body = all_cells(bv.skip(2));
    let mut i: usize = 1;
    assert(body.take(0) =~= Seq::empty());
    assert(text::views(out@) =~= o3 + f.rows(body.take(0)));
    while i < rows.len()
        invariant
            f == frame.view(),
            g == grid(rows@),
            g == seq![cells_of(bv[0])] + body,
            g.len() == rows@.len(),
            body.len() == g.len() - 1,
            1 <= i <= rows@.len(),
            text::views(out@) == o3 + f.rows(body.take(i - 1)),
        decreases rows@.len() - i,
    {
        let ghost before = text::views(out@);
        frame.push_row(&rows[i], false, out);
        proof {
            assert(g[i as int] == text::views(rows@[i as int]@));
            assert((seq![cells_of(bv[0])] + body)[i as int] == body[i - 1]);
            assert(body.take(i as int).drop_last() =~= body.take(i - 1));
            assert(body.take(i as int).last() == body[i - 1]);
            assert(text::views(out@) =~= o3 + f.rows(body.take(i as int)));
        }
        i += 1;
    }
    assert(body.take(i - 1) =~= body);
    let ghost o4 = text::views(out@);
    let bottom = frame.divider('╰', '┴', '╯');
    out.push(bottom);
    assert(text::views(out@) =~= o4 + seq![bottom@]);
    assert(text::views(out@) =~= o0 + table_lines(bv, indent@, base@, term as nat));
}

/// A line's leading whitespace.
pub open spec fn indent_of(line: Seq<char>) -> Seq<char> {
    line.take(line.len() - chars::trim_start(line).len())
}

/// Whether a line opens or closes a code fence.
pub open spec fn fences(line: Seq<char>) -> bool {
    let t = chars::trim_start(line);
    t.len() >= 3 && t[0] == '`' && t[1] == '`' && t[2] == '`'
}

/// Whether a line looks like a table row.
pub open spec fn piped(line: Seq<char>) -> bool {
    let t = chars::trim_start(line);
    t.len() > 0 && t[0] == '|'
}

/// How many lines from the start look like table rows.
pub open spec fn piped_lines(ls: Seq<Seq<char>>) -> nat
    decreases ls.len(),
{
    if ls.len() > 0 && piped(ls[0]) {
        1 + piped_lines(ls.skip(1))
    } else {
        0
    }
}

pub proof fn lemma_piped_lines(ls: Seq<Seq<char>>)
    ensures
        piped_lines(ls) <= ls.len(),
    decreases ls.len(),
{
    if ls.len() > 0 && piped(ls[0]) {
        lemma_piped_lines(ls.skip(1));
    }
}

/// Whether a table begins here: a row followed by a separator row.
pub open spec fn tabled(ls: Seq<Seq<char>>) -> bool {
    ls.len() >= 2 && piped(ls[0]) && separates(ls[1])
}

/// How many lines the table that begins here has.
pub open spec fn table_height(ls: Seq<Seq<char>>) -> int {
    (2 + piped_lines(ls.skip(2))) as int
}

/// Whether `t` is an unordered-list item.
pub open spec fn bulleted(t: Seq<char>) -> bool {
    t.len() >= 2 && (t[0] == '-' || t[0] == '*' || t[0] == '+') && t[1] == ' '
}

/// One quote level's gutter.
pub open spec fn quote_bar(base: Seq<char>) -> Seq<char> {
    DIM@ + seq!['▎'] + NORMAL@ + base + seq![' ']
}

/// A line outside fences and tables: a rule, a quote, a header, a list item or
/// plain text.
pub open spec fn block_line(line: Seq<char>, base: Seq<char>, term: nat) -> Seq<char> {
    let t = chars::trim_start(line);
    let indent = indent_of(line);
    if rules(t) {
        indent + DIM@ + chars::repeat('─', rule_len(indent, term)) + NORMAL@ + base
    } else if t.len() > 0 && t[0] == '>' {
        indent + chars::repeat_str(quote_bar(base), unquoted(t).0) + inlined(unquoted(t).1, base)
    } else if heads(t) {
        indent + BOLD@ + inlined(t.skip(hashes(t) + 1), base + BOLD@) + NORMAL@ + base
    } else if bulleted(t) {
        indent + seq!['•', ' '] + inlined(t.skip(2), base)
    } else if ordered(t) {
        indent + t.take(leading_digits(t) + 1) + seq![' '] + inlined(
            t.skip(leading_digits(t) + 2),
            base,
        )
    } else {
        indent + inlined(t, base)
    }
}

/// The rendered lines of `ls`; `fence` says whether they begin inside a code fence,
/// whose lines are kept as they are.
pub open spec fn rendered(ls: Seq<Seq<char>>, fence: bool, base: Seq<char>, term: nat) -> Seq<
    Seq<char>,
>
    decreases ls.len(),
{
    if ls.len() == 0 {
        seq![]
    } else if fences(ls[0]) {
        seq![DIM@ + ls[0] + NORMAL@ + base] + rendered(ls.skip(1), !fence, base, term)
    } else if fence {
        seq![ls[0]] + rendered(ls.skip(1), fence, base, term)
    } else if tabled(ls) {
        proof {
            lemma_piped_lines(ls.skip(2));
        }
        let h = table_height(ls);
        table_lines(ls.take(h), indent_of(ls[0]), base, term) + rendered(
            ls.skip(h),
            fence,
            base,
            term,
        )
    } else {
        seq![block_line(ls[0], base, term)] + rendered(ls.skip(1), fence, base, term)
    }
}

/// Markdown `text` as ANSI, for a terminal of `term` columns.
pub open spec fn markdown(text: Seq<char>, base: Seq<char>, term: nat) -> Seq<char> {
    chars::join(rendered(chars::lines(text), false, base, term), seq!['\n'])
}

/// The width that remains for markdown inside a pane.
pub open spec fn pane_width(term: nat) -> nat {
    let t = if term == usize::MAX {
        DEFAULT_PANE_COLS as nat
    } else {
        term
    };
    if t < PANE_GUTTER_COLS + 24 {
        24
    } else {
        (t - PANE_GUTTER_COLS) as nat
    }
}

fn render_line(line: &[char], base: &[char], term: usize) -> (r: Vec<char>)
    ensures
        r@ == block_line(line@, base@, term as nat),
{
    let t = text::trim_start(line);
    proof {
        chars::lemma_trim_start_props(line@);
    }
    let indent = text::upto(line, line.len() - t.len());
    let mut out = text::to_vec(indent);
    if is_hrule(t) {
        text::extend_str(&mut out, DIM);
        text::push_repeat(&mut out, '─', hrule_width(indent, term));
        text::extend_str(&mut out, NORMAL);
        text::extend(&mut out, base);
        return out;
    }
    if t.len() > 0 && t[0] == '>' {
        let (depth, content) = strip_quote(t);
        let mut bar = text::chars_of(DIM);
        bar.push('▎');
        text::extend_str(&mut bar, NORMAL);
        text::extend(&mut bar, base);
        bar.push(' ');
        assert(bar@ =~= quote_bar(base@));
        let mut i: usize = 0;
        let ghost o0 = out@;
        assert(out@ =~= o0 + chars::repeat_str(quote_bar(base@), 0));
        while i < depth
            invariant
                i <= depth,
                bar@ == quote_bar(base@),
                out@ == o0 + chars::repeat_str(quote_bar(base@), i as nat),
            decreases depth - i,
        {
            text::extend(&mut out, &bar);
            i += 1;
            assert(out@ =~= o0 + chars::repeat_str(quote_bar(base@), i as nat));
        }
        text::extend(&mut out, &inline(content, base));
        return out;
    }
    if let Some(title) = split_header(t) {
        text::extend_str(&mut out, BOLD);
        text::extend(&mut out, &inline(title, &joined(base, BOLD)));
        text::extend_str(&mut out, NORMAL);
        text::extend(&mut out, base);
        return out;
    }
    if t.len() >= 2 && (t[0] == '-' || t[0] == '*' || t[0] == '+') && t[1] == ' ' {
        let ghost o0 = out@;
        out.push('•');
        out.push(' ');
        assert(out@ =~= o0 + seq!['•', ' ']);
        text::extend(&mut out, &inline(text::from(t, 2), base));
        return out;
    }
    if let Some((marker, item)) = split_ordered(t) {
        text::extend(&mut out, marker);
        let ghost o0 = out@;
        out.push(' ');
        assert(out@ =~= o0 + seq![' ']);
        text::extend(&mut out, &inline(item, base));
        return out;
    }
    text::extend(&mut out, &inline(t, base));
    out
}

fn is_fence(line: &[char]) -> (r: bool)
    ensures
        r == fences(line@),
{
    let t = text::trim_start(line);
    t.len() >= 3 && t[0] == '`' && t[1] == '`' && t[2] == '`'
}

fn is_piped(line: &[char]) -> (r: bool)
    ensures
        r == piped(line@),
{
    let t = text::trim_start(line);
    t.len() > 0 && t[0] == '|'
}

fn render_lines(ls: &Vec<Vec<char>>, base: &[char], term: usize) -> (r: Vec<Vec<char>>)
    ensures
        text::views(r@) == rendered(text::views(ls@), false, base@, term as nat),
{
    let ghost lv = text::views(ls@);
    let ghost want = rendered(lv, false, base@, term as nat);
    let mut out: Vec<Vec<char>> = Vec::new();
    let mut fence = false;
    let mut i: usize = 0;
    assert(lv.skip(0) =~= lv);
    assert(text::views(out@) + want =~= want);
    while i < ls.len()
        invariant
            lv == text::views(ls@),
            want == rendered(lv, false, base@, term as nat),
            i <= ls@.len(),
            text::views(out@) + rendered(lv.skip(i as int), fence, base@, term as nat) == want,
        decreases ls@.len() - i,
    {
        let ghost o0 = text::views(out@);
        let ghost rest = lv.skip(i as int);
        let line: &[char] = &ls[i];
        assert(rest[0] == line@);
        assert(rest.skip(1) =~= lv.skip(i + 1));
        if is_fence(line) {
            let mut l = text::chars_of(DIM);
            text::extend(&mut l, line);
            text::extend_str(&mut l, NORMAL);
            text::extend(&mut l, base);
            out.push(l);
            assert(text::views(out@) =~= o0 + seq![l@]);
            assert(o0 + (seq![l@] + rendered(rest.skip(1), !fence, base@, term as nat)) =~= o0
                + seq![l@] + rendered(rest.skip(1), !fence, base@, term as nat));
            fence = !fence;
            i += 1;
        } else if fence {
            out.push(text::to_vec(line));
            assert(text::views(out@) =~= o0 + seq![line@]);
            assert(o0 + (seq![line@] + rendered(rest.skip(1), fence, base@, term as nat)) =~= o0
                + seq![line@] + rendered(rest.skip(1), fence, base@, term as nat));
            i += 1;
        } else if i + 1 < ls.len() && is_piped(line) && is_separator_row(&ls[i + 1]) {
            assert(rest[1] == ls@[i + 1]@);
            assert(tabled(rest));
            let mut end: usize = i + 2;
            let ghost tail = rest.skip(2);
            proof {
                lemma_piped_lines(tail);
            }
            assert(lv.skip(end as int) =~= tail);
            while end < ls.len() && is_piped(&ls[end])
                invariant
                    lv == text::views(ls@),
                    i + 2 <= end <= ls@.len(),
                    piped_lines(tail) == (end - i - 2) + piped_lines(lv.skip(end as int)),
                decreases ls@.len() - end,
            {
                assert(lv.skip(end as int)[0] == ls@[end as int]@);
                assert(lv.skip(end as int).skip(1) =~= lv.skip(end + 1));
                end += 1;
            }
            proof {
                let x = lv.skip(end as int);
                if end < ls@.len() {
                    assert(x[0] == ls@[end as int]@);
                }
                assert(piped_lines(x) == 0);
            }
            let ghost h = table_height(rest);
            assert(h == end - i);
            let t = text::trim_start(line);
            proof {
                chars::lemma_trim_start_props(line@);
            }
            let indent = text::upto(line, line.len() - t.len());
            let block = slice_subrange(ls.as_slice(), i, end);
            assert(text::views(block@) =~= rest.take(h));
            render_table(block, indent, base, term, &mut out);
            assert(rest.skip(h) =~= lv.skip(end as int));
            let ghost tl = table_lines(rest.take(h), indent@, base@, term as nat);
            assert(o0 + (tl + rendered(rest.skip(h), fence, base@, term as nat)) =~= o0 + tl
                + rendered(rest.skip(h), fence, base@, term as nat));
            i = end;
        } else {
            proof {
                if rest.len() >= 2 {
                    assert(rest[1] == ls@[i + 1]@);
                }
                assert(!tabled(rest));
            }
            let l = render_line(line, base, term);
            out.push(l);
            assert(text::views(out@) =~= o0 + seq![l@]);
            assert(o0 + (seq![l@] + rendered(rest.skip(1), fence, base@, term as nat)) =~= o0
                + seq![l@] + rendered(rest.skip(1), fence, base@, term as nat));
            i += 1;
        }
    }
    assert(text::views(out@) + rendered(lv.skip(i as int), fence, base@, term as nat)
        =~= text::views(out@));
    out
}

/// The width that tables are fitted to, given what a terminal on standard output
/// reports and the variable that stands in for it; without either nothing is
/// wrapped.
pub fn term_width(reported: Option<usize>, variable: Option<&str>) -> (r: usize)
    ensures
        r == crate::activity::columns_of(
            reported,
            match variable {
                Some(v) => Some(v@),
                None => None,
            },
            usize::MAX,
        ),
{
    crate::activity::columns(reported, variable, usize::MAX)
}

/// Renders markdown for a terminal of `term_cols` columns (`usize::MAX` when the
/// width is unknown): tables and rules are fitted to it.
pub fn render(text: &str, base: &str, term_cols: usize) -> (r: String)
    ensures
        r@ == markdown(text@, base@, term_cols as nat),
{
    let all = text::chars_of(text);
    let b = text::chars_of(base);
    let ls = text::lines(&all);
    let out = render_lines(&ls, &b, term_cols);
    let mut nl: Vec<char> = Vec::new();
    nl.push('\n');
    assert(nl@ =~= seq!['\n']);
    text::string_of(&text::join(&out, &nl))
}

/// Renders markdown with tables and rules fitted to `max_cols` columns.
pub fn render_within(text: &str, base: &str, max_cols: usize) -> (r: String)
    ensures
        r@ == markdown(text@, base@, max_cols as nat),
{
    render(text, base, max_cols)
}

/// Renders markdown for a pane: fitted to the terminal less the pane's gutter, or
/// to a default when the width is unknown.
pub fn render_pane(text: &str, base: &str, term_cols: usize) -> (r: String)
    ensures
        r@ == markdown(text@, base@, pane_width(term_cols as nat)),
{
    let term: usize = if term_cols == usize::MAX { DEFAULT_PANE_COLS } else { term_cols };
    let left: usize = term.saturating_sub(PANE_GUTTER_COLS);
    render_within(text, base, if left < 24 { 24 } else { left })
}

/// The columns that a table takes: its indent, the frame and the cells.
pub open spec fn table_columns(f: Frame) -> nat {
    shown_width(f.indent) as nat + 1 + 3 * f.widths.len() + sum(f.widths)
}

/// The segments of a divider over these columns.
spec fn segments(w: Seq<usize>) -> Seq<Seq<char>> {
    Seq::new(w.len(), |c: int| chars::repeat('─', (w[c] + 2) as nat))
}

proof fn lemma_divider_len(w: Seq<usize>, junction: char)
    requires
        w.len() > 0,
    ensures
        chars::join(segments(w), seq![junction]).len() == sum(w) + 3 * w.len() - 1,
    decreases w.len(),
{
    let s = segments(w);
    assert(s.last().len() == w.last() + 2);
    if w.len() == 1 {
        assert(w.drop_last() =~= Seq::<usize>::empty());
        assert(sum(w.drop_last()) == 0);
    } else {
        assert(s.drop_last() =~= segments(w.drop_last()));
        lemma_divider_len(w.drop_last(), junction);
    }
}

/// Law: a table is as wide as its frame and its columns, and never wider than the
/// terminal, where that has room for the frame.
pub proof fn tables_fit(
    block: Seq<Seq<char>>,
    indent: Seq<char>,
    base: Seq<char>,
    term: nat,
    left: char,
    junction: char,
    right: char,
)
    requires
        most_cells(table_rows(block)) > 0,
        shown_width(indent) + 1 + 3 * most_cells(table_rows(block)) <= term,
    ensures
        ({
            let f = frame_of(block, indent, base, term);
            &&& f.widths.len() == most_cells(table_rows(block))
            &&& table_columns(f) <= term
            &&& f.divider(left, junction, right).len() - indent.len() - DIM@.len() - NORMAL@.len()
                - base.len() == table_columns(f) - shown_width(indent)
        }),
{
    let rows = table_rows(block);
    let f = frame_of(block, indent, base, term);
    let natural = natural_widths(rows);
    fitted_widths_fit(natural, available(term, indent, most_cells(rows)));
    lemma_divider_len(f.widths, junction);
    assert(segments(f.widths) =~= Seq::new(
        f.widths.len(),
        |c: int| chars::repeat('─', (f.widths[c] + 2) as nat),
    ));
}

/// Law: a horizontal rule ends within the terminal, where that has room for the
/// shortest one.
pub proof fn rules_fit(indent: Seq<char>, term: nat)
    requires
        shown_width(indent) + 3 <= term,
    ensures
        3 <= rule_len(indent, term) <= 64,
        shown_width(indent) + rule_len(indent, term) <= term,
{
}

/// Characters that begin no markup are shown as they are, whatever follows them.
pub proof fn plain_text_is_kept(s: Seq<char>, t: Seq<char>, base: Seq<char>)
    requires
        forall|i: int|
            0 <= i < s.len() ==> (#[trigger] s[i]) != '`' && s[i] != '[' && s[i] != '~' && s[i]
                != '*',
    ensures
        inlined(s + t, base) == s + inlined(t, base),
    decreases s.len(),
{
    if s.len() == 0 {
        assert(s + t =~= t);
        assert(s + inlined(t, base) =~= inlined(t, base));
    } else {
        let r = s.skip(1);
        assert forall|i: int| 0 <= i < r.len() implies (#[trigger] r[i]) != '`' && r[i] != '['
            && r[i] != '~' && r[i] != '*' by {
            assert(r[i] == s[i + 1]);
        }
        plain_text_is_kept(r, t, base);
        assert((s + t)[0] == s[0]);
        assert((s + t).skip(1) =~= r + t);
        assert(seq![s[0]] + (r + inlined(t, base)) =~= s + inlined(t, base));
    }
}

/// A text without markup characters is shown as it is.
pub proof fn plain_text_stays_literal(s: Seq<char>, base: Seq<char>)
    requires
        forall|i: int|
            0 <= i < s.len() ==> (#[trigger] s[i]) != '`' && s[i] != '[' && s[i] != '~' && s[i]
                != '*',
    ensures
        inlined(s, base) == s,
{
    let none = Seq::<char>::empty();
    plain_text_is_kept(s, none, base);
    assert(s + none =~= s);
    assert(inlined(none, base) =~= none);
}

/// The lines inside a code fence are kept verbatim, up to the line that closes it.
pub proof fn fenced_code_is_verbatim(
    code: Seq<Seq<char>>,
    rest: Seq<Seq<char>>,
    base: Seq<char>,
    term: nat,
)
    requires
        forall|i: int| 0 <= i < code.len() ==> !fences(#[trigger] code[i]),
    ensures
        rendered(code + rest, true, base, term) == code + rendered(rest, true, base, term),
    decreases code.len(),
{
    if code.len() == 0 {
        assert(code + rest =~= rest);
        assert(code + rendered(rest, true, base, term) =~= rendered(rest, true, base, term));
    } else {
        let all = code + rest;
        let c = code.skip(1);
        assert(all[0] == code[0]);
        assert(all.skip(1) =~= c + rest);
        assert forall|i: int| 0 <= i < c.len() implies !fences(#[trigger] c[i]) by {
            assert(c[i] == code[i + 1]);
        }
        fenced_code_is_verbatim(c, rest, base, term);
        assert(seq![code[0]] + (c + rendered(rest, true, base, term)) =~= code + rendered(
            rest,
            true,
            base,
            term,
        ));
    }
}

/// A text on one line without markup characters.
pub open spec fn plain(s: Seq<char>) -> bool {
    forall|i: int|
        0 <= i < s.len() ==> (#[trigger] s[i]) != '`' && s[i] != '[' && s[i] != '~' && s[i] != '*'
            && s[i] != '\n'
}

/// Whitespace at the beginning of a line.
pub open spec fn is_indent(s: Seq<char>) -> bool {
    forall|i: int| 0 <= i < s.len() ==> chars::is_ws(#[trigger] s[i]) && s[i] != '\n'
}

/// A document of one line that opens no fence is that line, rendered.
proof fn lemma_one_line_document(indent: Seq<char>, t: Seq<char>, base: Seq<char>, term: nat)
    requires
        is_indent(indent),
        t.len() > 0,
        !chars::is_ws(t[0]),
        t[0] != '`',
        forall|i: int| 0 <= i < t.len() ==> (#[trigger] t[i]) != '\n',
    ensures
        chars::trim_start(indent + t) == t,
        indent_of(indent + t) == indent,
        markdown(indent + t, base, term) == block_line(indent + t, base, term),
{
    let s = indent + t;
    let n = indent.len() as int;
    assert forall|j: int| 0 <= j < n implies chars::is_ws(#[trigger] s[j]) by {
        assert(s[j] == indent[j]);
    }
    assert(s[n] == t[0]);
    chars::lemma_trim_start(s, n);
    assert(s.skip(n) =~= t);
    assert(s.take(s.len() - t.len()) =~= indent);
    assert forall|j: int| 0 <= j < s.len() implies !chars::is_char('\n')(#[trigger] s[j]) by {
        if j < n {
            assert(s[j] == indent[j]);
        } else {
            assert(s[j] == t[j - n]);
        }
    }
    chars::lemma_find(s, chars::is_char('\n'), s.len() as int);
    let ls = chars::lines(s);
    assert(ls =~= seq![s]);
    assert(!fences(s));
    assert(ls.skip(1) =~= Seq::<Seq<char>>::empty());
    let out = rendered(ls, false, base, term);
    assert(rendered(ls.skip(1), false, base, term) =~= Seq::<Seq<char>>::empty());
    assert(out =~= seq![block_line(s, base, term)]);
}

proof fn lemma_plain_parts(s: Seq<char>, base: Seq<char>)
    requires
        plain(s),
    ensures
        inlined(s, base) == s,
{
    plain_text_stays_literal(s, base);
}

/// Law: one to six hashes and a space make a header: a bold line without its hashes,
/// behind its indent. Seven hashes or more, or hashes without a space, make none: the
/// line stays as it is.
pub proof fn headers_are_bold(
    indent: Seq<char>,
    n: nat,
    title: Seq<char>,
    base: Seq<char>,
    term: nat,
)
    requires
        is_indent(indent),
        plain(title),
        1 <= n,
    ensures
        n <= 6 ==> markdown(indent + (chars::repeat('#', n) + seq![' '] + title), base, term)
            == indent + BOLD@ + title + NORMAL@ + base,
        n > 6 ==> markdown(indent + (chars::repeat('#', n) + seq![' '] + title), base, term)
            == indent + (chars::repeat('#', n) + seq![' '] + title),
        title.len() > 0 && title[0] != ' ' && title[0] != '#' ==> markdown(
            indent + (chars::repeat('#', n) + title),
            base,
            term,
        ) == indent + (chars::repeat('#', n) + title),
{
    let f = |c: char| c != '#';
    let t = chars::repeat('#', n) + seq![' '] + title;
    assert(t[0] == '#');
    assert forall|i: int| 0 <= i < t.len() implies (#[trigger] t[i]) != '\n' && t[i] != '`' && t[i]
        != '[' && t[i] != '~' && t[i] != '*' by {
        if i > n {
            assert(t[i] == title[i - n - 1]);
        }
    }
    lemma_one_line_document(indent, t, base, term);
    assert forall|j: int| 0 <= j < n implies !f(#[trigger] t[j]) by {}
    chars::lemma_find(t, f, n as int);
    assert(hashes(t) == n);
    chars::lemma_trim_end_props(t);
    assert(!rules(t));
    assert(t.skip((n + 1) as int) =~= title);
    lemma_plain_parts(title, base + BOLD@);
    if n > 6 {
        lemma_plain_parts(t, base);
        lemma_no_digits(t);
    }
    let u = chars::repeat('#', n) + title;
    if title.len() > 0 && title[0] != ' ' && title[0] != '#' {
        assert(u[0] == '#');
        assert forall|i: int| 0 <= i < u.len() implies (#[trigger] u[i]) != '\n' && u[i] != '`' && u[i]
            != '[' && u[i] != '~' && u[i] != '*' by {
            if i >= n {
                assert(u[i] == title[i - n]);
            }
        }
        lemma_one_line_document(indent, u, base, term);
        assert(u[n as int] == title[0]);
        assert forall|j: int| 0 <= j < n implies !f(#[trigger] u[j]) by {}
        chars::lemma_find(u, f, n as int);
        chars::lemma_trim_end_props(u);
        assert(!rules(u));
        lemma_plain_parts(u, base);
        lemma_no_digits(u);
    }
}

proof fn lemma_no_digits(t: Seq<char>)
    requires
        t.len() > 0,
        !chars::is_digit(t[0]),
    ensures
        !ordered(t),
{
    chars::lemma_find(t, |c: char| !chars::is_digit(c), 0);
}

/// Law: a dash or a plus and a space make a bullet, behind the indent, and the item
/// follows it. (An item of dashes alone would make a rule.)
pub proof fn bullets_are_dots(
    indent: Seq<char>,
    marker: char,
    item: Seq<char>,
    k: int,
    base: Seq<char>,
    term: nat,
)
    requires
        is_indent(indent),
        plain(item),
        marker == '-' || marker == '*' || marker == '+',
        0 <= k < item.len(),
        item[k] != marker,
        !chars::is_ws(item[k]),
    ensures
        markdown(indent + (seq![marker, ' '] + item), base, term) == indent + seq!['•', ' '] + item,
{
    let t = seq![marker, ' '] + item;
    assert forall|i: int| 0 <= i < t.len() implies (#[trigger] t[i]) != '\n' by {
        if i >= 2 {
            assert(t[i] == item[i - 2]);
        }
    }
    lemma_one_line_document(indent, t, base, term);
    chars::lemma_trim_end_props(t);
    let e = chars::trim_end(t);
    assert(t[k + 2] == item[k]);
    assert(k + 2 < e.len());
    assert(e[k + 2] == t[k + 2]);
    assert(e[0] == marker);
    assert(!rules(t));
    assert(hashes(t) == 0) by {
        chars::lemma_find(t, |c: char| c != '#', 0);
    }
    assert(t.skip(2) =~= item);
    lemma_plain_parts(item, base);
}

/// Law: an item of an ordered list keeps its number: one to nine digits with a point or a
/// bracket behind them.
pub proof fn numbered_items_keep_their_number(
    indent: Seq<char>,
    number: Seq<char>,
    mark: char,
    item: Seq<char>,
    base: Seq<char>,
    term: nat,
)
    requires
        is_indent(indent),
        plain(item),
        1 <= number.len(),
        chars::all_digits(number),
        mark == '.' || mark == ')',
    ensures
        markdown(indent + (number + seq![mark, ' '] + item), base, term) == indent + (number + seq![
            mark,
            ' ',
        ] + item),
{
    let t = number + seq![mark, ' '] + item;
    let d = number.len() as int;
    assert(t[0] == number[0]);
    assert forall|i: int| 0 <= i < t.len() implies (#[trigger] t[i]) != '\n' && t[i] != '`' && t[i]
        != '[' && t[i] != '~' && t[i] != '*' by {
        if i < d {
            assert(t[i] == number[i]);
        } else if i >= d + 2 {
            assert(t[i] == item[i - d - 2]);
        }
    }
    lemma_one_line_document(indent, t, base, term);
    chars::lemma_trim_end_props(t);
    assert(!rules(t));
    chars::lemma_find(t, |c: char| c != '#', 0);
    let f = |c: char| !chars::is_digit(c);
    assert forall|j: int| 0 <= j < d implies !f(#[trigger] t[j]) by {
        assert(t[j] == number[j]);
    }
    assert(t[d] == mark);
    chars::lemma_find(t, f, d);
    assert(t.skip(d + 2) =~= item);
    lemma_plain_parts(item, base);
    lemma_plain_parts(t, base);
    assert(t.take(d + 1) + seq![' '] + item =~= t);
    assert(indent + t.take(d + 1) + seq![' '] + item =~= indent + t);
}

/// Law: every level of a quote is a bar in front of what is quoted.
pub proof fn quotes_get_a_bar_for_every_level(
    indent: Seq<char>,
    n: nat,
    text: Seq<char>,
    base: Seq<char>,
    term: nat,
)
    requires
        is_indent(indent),
        plain(text),
        1 <= n,
        text.len() > 0 ==> text[0] != '>',
    ensures
        markdown(indent + (chars::repeat_str(seq!['>', ' '], n) + text), base, term) == indent
            + chars::repeat_str(DIM@ + seq!['▎'] + NORMAL@ + base + seq![' '], n) + text,
{
    let t = chars::repeat_str(seq!['>', ' '], n) + text;
    lemma_quote_levels(n, text);
    assert forall|i: int| 0 <= i < t.len() implies (#[trigger] t[i]) != '\n' by {
        lemma_quote_marks(seq!['>', ' '], n);
        let m = chars::repeat_str(seq!['>', ' '], n);
        if i < m.len() {
            assert(t[i] == m[i]);
            assert(m.contains(m[i]));
        } else {
            assert(t[i] == text[i - m.len()]);
        }
    }
    lemma_one_line_document(indent, t, base, term);
    chars::lemma_trim_end_props(t);
    assert(!rules(t));
    lemma_plain_parts(text, base);
}

proof fn lemma_quote_marks(m: Seq<char>, n: nat)
    requires
        !m.contains('\n'),
    ensures
        !chars::repeat_str(m, n).contains('\n'),
    decreases n,
{
    if n > 0 {
        lemma_quote_marks(m, (n - 1) as nat);
        let r = chars::repeat_str(m, (n - 1) as nat);
        if (r + m).contains('\n') {
            let i = choose|i: int| 0 <= i < (r + m).len() && (r + m)[i] == '\n';
            if i < r.len() {
                assert(r[i] == '\n');
            } else {
                assert(m[i - r.len()] == '\n');
            }
        }
    }
}

proof fn lemma_quote_levels(n: nat, text: Seq<char>)
    requires
        text.len() > 0 ==> text[0] != '>',
    ensures
        unquoted(chars::repeat_str(seq!['>', ' '], n) + text) == (n, text),
        n > 0 ==> (chars::repeat_str(seq!['>', ' '], n) + text).len() > 0 && (chars::repeat_str(
            seq!['>', ' '],
            n,
        ) + text)[0] == '>',
    decreases n,
{
    let m = seq!['>', ' '];
    let t = chars::repeat_str(m, n) + text;
    if n == 0 {
        assert(t =~= text);
    } else {
        lemma_quote_levels((n - 1) as nat, text);
        lemma_repeat_front(m, (n - 1) as nat);
        let r = chars::repeat_str(m, (n - 1) as nat) + text;
        assert(t =~= m + r);
        assert(t.skip(1).skip(1) =~= r);
        assert(t.skip(1)[0] == ' ');
    }
}

proof fn lemma_repeat_front(p: Seq<char>, n: nat)
    ensures
        chars::repeat_str(p, n + 1) == p + chars::repeat_str(p, n),
    decreases n,
{
    if n > 0 {
        lemma_repeat_front(p, (n - 1) as nat);
        assert(p + chars::repeat_str(p, (n - 1) as nat) + p =~= p + (chars::repeat_str(
            p,
            (n - 1) as nat,
        ) + p));
    } else {
        assert(chars::repeat_str(p, 0) + p =~= p + chars::repeat_str(p, 0));
    }
}

/// Law: three or more of one marker make a rule across the line, behind the indent.
pub proof fn markers_make_a_rule(
    indent: Seq<char>,
    marker: char,
    n: nat,
    base: Seq<char>,
    term: nat,
)
    requires
        is_indent(indent),
        marker == '-' || marker == '*' || marker == '_',
        3 <= n,
    ensures
        exists|w: nat|
            3 <= w <= 64 && markdown(indent + chars::repeat(marker, n), base, term) == indent + DIM@
                + #[trigger] chars::repeat('─', w) + NORMAL@ + base,
{
    let t = chars::repeat(marker, n);
    assert(t[0] == marker);
    lemma_one_line_document(indent, t, base, term);
    assert(!chars::is_ws(t.last()));
    assert(chars::trim_end(t) == t);
    lemma_count_repeat(marker, n);
    assert(rules(t));
    let w = rule_len(indent, term);
    assert(markdown(indent + t, base, term) == indent + DIM@ + chars::repeat('─', w) + NORMAL@
        + base);
}

proof fn lemma_count_repeat(c: char, n: nat)
    ensures
        count(chars::repeat(c, n), c) == n,
    decreases n,
{
    if n > 0 {
        assert(chars::repeat(c, n).drop_last() =~= chars::repeat(c, (n - 1) as nat));
        lemma_count_repeat(c, (n - 1) as nat);
    }
}

/// Law: a line of plain words is shown as it is, its indent too.
pub proof fn plain_lines_are_shown_as_they_are(
    indent: Seq<char>,
    text: Seq<char>,
    base: Seq<char>,
    term: nat,
)
    requires
        is_indent(indent),
        plain(text),
        text.len() > 0,
        chars::is_ascii_alpha(text[0]),
    ensures
        markdown(indent + text, base, term) == indent + text,
{
    lemma_one_line_document(indent, text, base, term);
    chars::lemma_trim_end_props(text);
    assert(!rules(text));
    chars::lemma_find(text, |c: char| c != '#', 0);
    lemma_no_digits(text);
    lemma_plain_parts(text, base);
}

/// Law: what stands between backquotes is code: cyan, and verbatim, whatever markup it
/// looks like.
pub proof fn code_is_cyan_and_verbatim(code: Seq<char>, rest: Seq<char>, base: Seq<char>)
    requires
        !code.contains('`'),
    ensures
        inlined(seq!['`'] + code + seq!['`'] + rest, base) == CYAN@ + code + UNCYAN@ + base + inlined(
            rest,
            base,
        ),
{
    let s = seq!['`'] + code + seq!['`'] + rest;
    let n = code.len() as int;
    let f = chars::is_char('`');
    assert forall|j: int| 0 <= j < n implies !f(#[trigger] s.skip(1)[j]) by {
        assert(s.skip(1)[j] == code[j]);
    }
    assert(s.skip(1)[n] == '`');
    chars::lemma_find(s.skip(1), f, n);
    assert(s[0] == '`');
    assert(s.subrange(1, 1 + n) =~= code);
    assert(s.skip(n + 2) =~= rest);
}

proof fn lemma_doubled(c: char, x: Seq<char>, rest: Seq<char>)
    requires
        x.len() > 0,
        !x.contains(c),
    ensures
        doubled(seq![c, c] + x + seq![c, c] + rest, c) == Some(x.len() as int),
        (seq![c, c] + x + seq![c, c] + rest).subrange(2, (2 + x.len()) as int) == x,
        (seq![c, c] + x + seq![c, c] + rest).skip((x.len() + 4) as int) == rest,
{
    let s = seq![c, c] + x + seq![c, c] + rest;
    let n = x.len() as int;
    let r = s.skip(2);
    assert(s.subrange(2, 2 + n) =~= x);
    assert(s.skip(n + 4) =~= rest);
    assert(r.subrange(n, n + 2) =~= pair(c));
    assert forall|j: int| 0 <= j < n implies !chars::matches_at(r, pair(c), j) by {
        assert(r[j] == x[j]);
        if chars::matches_at(r, pair(c), j) {
            assert(r.subrange(j, j + 2)[0] == r[j]);
            assert(x.contains(c));
        }
    }
    chars::lemma_find_str(r, pair(c), n);
}

/// Law: double stars make bold, double tildes strike through, and each ends where it
/// says.
pub proof fn doubled_markers_style_the_text(x: Seq<char>, rest: Seq<char>, base: Seq<char>)
    requires
        plain(x),
        x.len() > 0,
    ensures
        inlined(seq!['*', '*'] + x + seq!['*', '*'] + rest, base) == BOLD@ + x + NORMAL@ + base
            + inlined(rest, base),
        inlined(seq!['~', '~'] + x + seq!['~', '~'] + rest, base) == STRIKE@ + x + UNSTRIKE@ + base
            + inlined(rest, base),
{
    assert(!x.contains('*'));
    assert(!x.contains('~'));
    lemma_doubled('*', x, rest);
    lemma_doubled('~', x, rest);
    let b = seq!['*', '*'] + x + seq!['*', '*'] + rest;
    let t = seq!['~', '~'] + x + seq!['~', '~'] + rest;
    assert(b[0] == '*' && b[1] == '*');
    assert(t[0] == '~' && t[1] == '~');
    lemma_plain_parts(x, base + STRIKE@);
}

/// Law: single stars around words make them italic; with a space inside them they are
/// stars.
pub proof fn single_stars_slant_the_text(x: Seq<char>, rest: Seq<char>, base: Seq<char>)
    requires
        plain(x),
        x.len() > 0,
    ensures
        x[0] != ' ' && x.last() != ' ' ==> inlined(seq!['*'] + x + seq!['*'] + rest, base) == ITALIC@
            + x + UNITALIC@ + inlined(rest, base),
        x[0] == ' ' || x.last() == ' ' ==> inlined(seq!['*'] + x + seq!['*'] + rest, base) == seq!['*']
            + x + inlined(seq!['*'] + rest, base),
{
    let s = seq!['*'] + x + seq!['*'] + rest;
    let n = x.len() as int;
    let f = chars::is_char('*');
    assert forall|j: int| 0 <= j < n implies !f(#[trigger] s.skip(1)[j]) by {
        assert(s.skip(1)[j] == x[j]);
    }
    assert(s.skip(1)[n] == '*');
    chars::lemma_find(s.skip(1), f, n);
    assert(s[0] == '*' && s[1] == x[0] && s[n] == x.last());
    assert(s.subrange(1, 1 + n) =~= x);
    assert(s.skip(n + 2) =~= rest);
    assert(s.skip(1) =~= x + (seq!['*'] + rest));
    plain_text_is_kept(x, seq!['*'] + rest, base);
    assert(seq!['*'] + (x + inlined(seq!['*'] + rest, base)) =~= seq!['*'] + x + inlined(
        seq!['*'] + rest,
        base,
    ));
}

/// Law: a link shows its label in cyan and its address dimmed behind it; an address that
/// is the label is not shown twice.
pub proof fn links_show_label_and_address(
    label: Seq<char>,
    url: Seq<char>,
    rest: Seq<char>,
    base: Seq<char>,
)
    requires
        plain(label),
        label.len() > 0,
        !label.contains(']'),
        url.len() > 0,
        !url.contains(')'),
    ensures
        ({
            let s = seq!['['] + label + seq![']', '('] + url + seq![')'] + rest;
            let shown = CYAN@ + label + UNCYAN@ + base;
            inlined(s, base) == (if url == label {
                shown + inlined(rest, base)
            } else {
                shown + seq![' '] + DIM@ + seq!['('] + url + seq![')'] + NORMAL@ + base + inlined(
                    rest,
                    base,
                )
            })
        }),
{
    let s = seq!['['] + label + seq![']', '('] + url + seq![')'] + rest;
    let n = label.len() as int;
    let u = url.len() as int;
    let f = chars::is_char(']');
    assert(s[0] == '[');
    assert forall|j: int| 0 <= j < n + 1 implies !f(#[trigger] s[j]) by {
        if j > 0 {
            assert(s[j] == label[j - 1]);
        }
    }
    assert(s[n + 1] == ']');
    chars::lemma_find(s, f, n + 1);
    let g = chars::is_char(')');
    let r = s.skip(n + 3);
    assert forall|j: int| 0 <= j < u implies !g(#[trigger] r[j]) by {
        assert(r[j] == url[j]);
    }
    assert(r[u] == ')');
    chars::lemma_find(r, g, u);
    assert(s[n + 2] == '(');
    assert(s.subrange(1, n + 1) =~= label);
    assert(s.subrange(n + 3, n + 3 + u) =~= url);
    assert(s.skip(n + 1 + 3 + u) =~= rest);
    lemma_plain_parts(label, base + CYAN@);
    let shown = CYAN@ + label + UNCYAN@ + base;
    if url != label {
        assert(shown + (seq![' '] + DIM@ + seq!['('] + url + seq![')'] + NORMAL@ + base) + inlined(
            rest,
            base,
        ) =~= shown + seq![' '] + DIM@ + seq!['('] + url + seq![')'] + NORMAL@ + base + inlined(
            rest,
            base,
        ));
    } else {
        assert(shown + Seq::<char>::empty() + inlined(rest, base) =~= shown + inlined(rest, base));
    }
}

/// Law: a fence opens at three backquotes and closes at the next: its own lines are
/// dimmed, those between are verbatim, and what follows is markdown again.
pub proof fn fences_open_and_close(
    language: Seq<char>,
    code: Seq<Seq<char>>,
    rest: Seq<Seq<char>>,
    base: Seq<char>,
    term: nat,
)
    requires
        forall|i: int| 0 <= i < code.len() ==> !fences(#[trigger] code[i]),
    ensures
        ({
            let ticks = seq!['`', '`', '`'];
            rendered(seq![ticks + language] + code + seq![ticks] + rest, false, base, term) == seq![
                DIM@ + (ticks + language) + NORMAL@ + base,
            ] + code + seq![DIM@ + ticks + NORMAL@ + base] + rendered(rest, false, base, term)
        }),
{
    let ticks = seq!['`', '`', '`'];
    let open = ticks + language;
    let tail = seq![ticks] + rest;
    let all = seq![open] + code + seq![ticks] + rest;
    assert(open[0] == '`' && open[1] == '`' && open[2] == '`');
    assert(chars::trim_start(open) == open);
    assert(chars::trim_start(ticks) == ticks);
    assert(all[0] == open);
    assert(all.skip(1) =~= code + tail);
    fenced_code_is_verbatim(code, tail, base, term);
    assert(tail[0] == ticks);
    assert(tail.skip(1) =~= rest);
    let first = seq![DIM@ + open + NORMAL@ + base];
    let last = seq![DIM@ + ticks + NORMAL@ + base];
    assert(first + (code + (last + rendered(rest, false, base, term))) =~= first + code + last
        + rendered(rest, false, base, term));
}

/// Law: a row's cells are what stands between its pipes, without the spaces around them.
pub proof fn rows_are_cut_at_their_pipes(cell: Seq<char>, rest: Seq<char>, open: Seq<char>)
    requires
        !cell.contains('|'),
        !cell.contains('\\'),
    ensures
        cells_from(cell + seq!['|'] + rest, open) == seq![chars::trim(open + cell)] + cells_from(
            rest,
            seq![],
        ),
        cells_from(cell, open) == seq![chars::trim(open + cell)],
        cells_from(cell + seq!['\\', '|'] + rest, open) == cells_from(
            rest,
            open + cell + seq!['|'],
        ),
    decreases cell.len(),
{
    let s1 = cell + seq!['|'] + rest;
    let s2 = cell + seq!['\\', '|'] + rest;
    if cell.len() == 0 {
        assert(open + cell =~= open);
        assert(s1[0] == '|');
        assert(s1.skip(1) =~= rest);
        assert(s2[0] == '\\' && s2[1] == '|');
        assert(s2.skip(2) =~= rest);
        assert(open.push('|') =~= open + cell + seq!['|']);
    } else {
        let c = cell.skip(1);
        assert(cell.contains(cell[0]));
        assert forall|x: char| c.contains(x) implies cell.contains(x) by {
            let i = choose|i: int| 0 <= i < c.len() && c[i] == x;
            assert(cell[i + 1] == x);
        }
        rows_are_cut_at_their_pipes(c, rest, open.push(cell[0]));
        assert(open.push(cell[0]) + c =~= open + cell);
        assert(s1[0] == cell[0] && s2[0] == cell[0]);
        assert(s1.skip(1) =~= c + seq!['|'] + rest);
        assert(s2.skip(1) =~= c + seq!['\\', '|'] + rest);
    }
}

/// Law: a separator cell of dashes asks for its alignment by its colons: one behind them
/// for right, one on either side for the middle, and else left.
pub proof fn colons_align_columns(dashes: Seq<char>)
    requires
        dashes.len() > 0,
        forall|i: int| 0 <= i < dashes.len() ==> (#[trigger] dashes[i]) == '-',
    ensures
        align_of(dashes) == Align::Left,
        align_of(seq![':'] + dashes) == Align::Left,
        align_of(dashes + seq![':']) == Align::Right,
        align_of(seq![':'] + dashes + seq![':']) == Align::Center,
{
    assert(dashes.last() == '-');
    assert((seq![':'] + dashes).last() == dashes.last());
    assert((dashes + seq![':'])[0] == dashes[0]);
}

/// Law: a cell of plain text is filled up with spaces to its column: behind the text, before
/// it, or half on either side, as the column is aligned. A header cell is bold.
pub proof fn cells_are_filled_up(raw: Seq<char>, w: usize, base: Seq<char>)
    requires
        plain(raw),
        shown_width(raw) <= w,
    ensures
        ({
            let room = (w - shown_width(raw)) as nat;
            let bold = BOLD@ + raw + NORMAL@ + base;
            &&& padded(raw, false, w, Align::Left, base) == raw + chars::repeat(' ', room)
            &&& padded(raw, false, w, Align::Right, base) == chars::repeat(' ', room) + raw
            &&& padded(raw, true, w, Align::Left, base) == bold + chars::repeat(' ', room)
            &&& padded(raw, true, w, Align::Right, base) == chars::repeat(' ', room) + bold
            &&& exists|a: nat, b: nat|
                a + b == room && a <= b <= a + 1 && #[trigger] centred(raw, a, b) == padded(
                    raw,
                    false,
                    w,
                    Align::Center,
                    base,
                )
        }),
{
    plain_text_stays_literal(raw, base);
    plain_text_stays_literal(raw, base + BOLD@);
    let room = (w - shown_width(raw)) as nat;
    let none = Seq::<char>::empty();
    assert(chars::repeat(' ', 0) =~= none);
    let bold = BOLD@ + raw + NORMAL@ + base;
    assert(none + raw =~= raw);
    assert(none + bold =~= bold);
    assert(chars::repeat(' ', room) + raw + none =~= chars::repeat(' ', room) + raw);
    assert(chars::repeat(' ', room) + bold + none =~= chars::repeat(' ', room) + bold);
    let a = (room as int / 2) as nat;
    assert(centred(raw, a, (room - a) as nat) == padded(raw, false, w, Align::Center, base));
}

/// A text between `a` and `b` spaces.
pub open spec fn centred(raw: Seq<char>, a: nat, b: nat) -> Seq<char> {
    chars::repeat(' ', a) + raw + chars::repeat(' ', b)
}

/// Law: a line of pipes, dashes and colons that begins with a pipe and has a dash separates a
/// header from its rows, indented or not; a line with any other mark in it does not.
pub proof fn separators_are_marks_only(indent: Seq<char>, marks: Seq<char>, line: Seq<char>, k: int)
    requires
        is_indent(indent),
        marks.contains('-'),
        forall|i: int|
            0 <= i < marks.len() ==> (#[trigger] marks[i]) == '|' || marks[i] == '-' || marks[i]
                == ':',
        0 <= k < line.len(),
        !chars::is_ws(line[k]) && line[k] != '|' && line[k] != '-' && line[k] != ':',
    ensures
        separates(indent + (seq!['|'] + marks)),
        !separates(line),
{
    let t = seq!['|'] + marks;
    let s = indent + t;
    let n = indent.len() as int;
    assert forall|j: int| 0 <= j < n implies chars::is_ws(#[trigger] s[j]) by {
        assert(s[j] == indent[j]);
    }
    chars::lemma_trim_start(s, n);
    assert(s.skip(n) =~= t);
    assert(!chars::is_ws(t.last())) by {
        if marks.len() > 0 {
            assert(t.last() == marks[marks.len() - 1]);
        }
    }
    chars::lemma_trim_end(t, t.len() as int);
    assert(t.take(t.len() as int) =~= t);
    let i = choose|i: int| 0 <= i < marks.len() && marks[i] == '-';
    assert(t[i + 1] == '-');
    assert forall|j: int| 0 <= j < t.len() implies (#[trigger] t[j]) == '|' || t[j] == '-' || t[j]
        == ':' || t[j] == ' ' by {
        if j > 0 {
            assert(t[j] == marks[j - 1]);
        }
    }
    lemma_trim_keeps(line, k);
}

/// Trimming keeps every character that is no whitespace.
proof fn lemma_trim_keeps(s: Seq<char>, k: int)
    requires
        0 <= k < s.len(),
        !chars::is_ws(s[k]),
    ensures
        chars::trim(s).contains(s[k]),
{
    lemma_trim_start_keeps(s, k);
    let u = chars::trim_start(s);
    let m = choose|m: int| 0 <= m < u.len() && u[m] == s[k];
    lemma_trim_end_keeps(u, m);
}

proof fn lemma_trim_start_keeps(s: Seq<char>, k: int)
    requires
        0 <= k < s.len(),
        !chars::is_ws(s[k]),
    ensures
        chars::trim_start(s).contains(s[k]),
    decreases s.len(),
{
    if chars::is_ws(s[0]) {
        assert(s.skip(1)[k - 1] == s[k]);
        lemma_trim_start_keeps(s.skip(1), k - 1);
    } else {
        assert(s[k] == chars::trim_start(s)[k]);
    }
}

proof fn lemma_trim_end_keeps(s: Seq<char>, k: int)
    requires
        0 <= k < s.len(),
        !chars::is_ws(s[k]),
    ensures
        chars::trim_end(s).contains(s[k]),
    decreases s.len(),
{
    if chars::is_ws(s.last()) {
        assert(s.drop_last()[k] == s[k]);
        lemma_trim_end_keeps(s.drop_last(), k);
    } else {
        assert(s[k] == chars::trim_end(s)[k]);
    }
}

/// Law: a column is as wide as its widest cell: no cell is wider, and where the column has a
/// width, one cell has it. No row has more cells than there are columns.
pub proof fn columns_are_as_wide_as_their_cells(rows: Seq<Seq<Seq<char>>>, r: int, c: int)
    requires
        0 <= r < rows.len(),
        0 <= c < rows[r].len(),
    ensures
        c < most_cells(rows),
        shown_width(rows[r][c]) <= natural_widths(rows)[c],
        natural_widths(rows)[c] > 0 ==> exists|k: int|
            0 <= k < rows.len() && c < (#[trigger] rows[k]).len() && shown_width(rows[k][c])
                == natural_widths(rows)[c],
{
    lemma_column_width(rows, r, c);
    lemma_column_reached(rows, c);
}

proof fn lemma_column_width(rows: Seq<Seq<Seq<char>>>, r: int, c: int)
    requires
        0 <= r < rows.len(),
        0 <= c < rows[r].len(),
    ensures
        c < most_cells(rows),
        shown_width(rows[r][c]) <= column_width(rows, c),
    decreases rows.len(),
{
    if r < rows.len() - 1 {
        assert(rows.drop_last()[r] == rows[r]);
        lemma_column_width(rows.drop_last(), r, c);
    }
}

proof fn lemma_column_reached(rows: Seq<Seq<Seq<char>>>, c: int)
    requires
        0 <= c,
    ensures
        column_width(rows, c) > 0 ==> exists|k: int|
            0 <= k < rows.len() && c < (#[trigger] rows[k]).len() && shown_width(rows[k][c])
                == column_width(rows, c),
    decreases rows.len(),
{
    if rows.len() > 0 && column_width(rows, c) > 0 {
        let f = rows.drop_last();
        lemma_column_reached(f, c);
        if c < rows.last().len() && shown_width(rows.last()[c]) > column_width(f, c) {
            assert(rows[rows.len() - 1] == rows.last());
        } else {
            let k = choose|k: int|
                0 <= k < f.len() && c < (#[trigger] f[k]).len() && shown_width(f[k][c])
                    == column_width(f, c);
            assert(rows[k] == f[k]);
        }
    }
}

/// Law: a table shows its header in bold between the upper frame and the rule, and below the
/// rule every line of every row, in order, down to the lower frame.
pub proof fn tables_show_every_row(
    block: Seq<Seq<char>>,
    indent: Seq<char>,
    base: Seq<char>,
    term: nat,
    i: int,
    n: int,
)
    requires
        2 <= i < block.len(),
        0 <= n < frame_of(block, indent, base, term).row(cells_of(block[i]), false).len(),
    ensures
        ({
            let f = frame_of(block, indent, base, term);
            let t = table_lines(block, indent, base, term);
            let head = f.row(cells_of(block[0]), true);
            &&& t[0] == f.divider('╭', '┬', '╮')
            &&& t.last() == f.divider('╰', '┴', '╯')
            &&& t.subrange(1, 1 + head.len() as int) == head
            &&& t[1 + head.len() as int] == f.divider('├', '┼', '┤')
            &&& t.skip(2 + head.len() as int).contains(f.row(cells_of(block[i]), false)[n])
        }),
{
    let f = frame_of(block, indent, base, term);
    let t = table_lines(block, indent, base, term);
    let head = f.row(cells_of(block[0]), true);
    let body = all_cells(block.skip(2));
    let rows = f.rows(body);
    assert(body[i - 2] == cells_of(block[i]));
    lemma_rows_hold(f, body, i - 2, n);
    let line = f.row(cells_of(block[i]), false)[n];
    let m = choose|m: int| 0 <= m < rows.len() && rows[m] == line;
    assert(t.subrange(1, 1 + head.len() as int) =~= head);
    assert(t.skip(2 + head.len() as int)[m] == rows[m]);
}

proof fn lemma_rows_hold(f: Frame, rows: Seq<Seq<Seq<char>>>, i: int, n: int)
    requires
        0 <= i < rows.len(),
        0 <= n < f.row(rows[i], false).len(),
    ensures
        f.rows(rows).contains(f.row(rows[i], false)[n]),
    decreases rows.len(),
{
    let before = f.rows(rows.drop_last());
    let all = f.rows(rows);
    if i == rows.len() - 1 {
        assert(all[before.len() + n] == f.row(rows[i], false)[n]);
    } else {
        assert(rows.drop_last()[i] == rows[i]);
        lemma_rows_hold(f, rows.drop_last(), i, n);
        let m = choose|m: int| 0 <= m < before.len() && before[m] == f.row(rows[i], false)[n];
        assert(all[m] == before[m]);
    }
}

/// Law: where the terminal is too narrow for a table's columns, the table takes the whole
/// width; a column of at most eight is only narrowed once none is wider.
pub proof fn tables_use_the_width(block: Seq<Seq<char>>, indent: Seq<char>, base: Seq<char>, term: nat, c: int)
    requires
        most_cells(table_rows(block)) > 0,
        shown_width(indent) + 1 + 3 * most_cells(table_rows(block)) <= term,
        0 <= c < most_cells(table_rows(block)),
    ensures
        ({
            let w = natural_widths(table_rows(block));
            let f = frame_of(block, indent, base, term);
            let all = shown_width(indent) + 1 + 3 * w.len() + sum(w);
            &&& all <= term ==> f.widths == w
            &&& all > term ==> shown_width(indent) + 1 + 3 * w.len() + sum(f.widths) == term
            &&& w[c] <= 8 && f.widths[c] < w[c] ==> forall|j: int|
                0 <= j < w.len() ==> (#[trigger] f.widths[j]) <= 8
        }),
{
    let rows = table_rows(block);
    let w = natural_widths(rows);
    let a = available(term, indent, most_cells(rows));
    fitted_widths_fit(w, a);
    let f = frame_of(block, indent, base, term);
    assert(f.widths == fitted(w, a));
    if w[c] <= 8 && f.widths[c] < w[c] {
        assert(fitted(w, a)[c] != w[c]);
        assert forall|j: int| 0 <= j < w.len() implies (#[trigger] f.widths[j]) <= 8 by {
            assert(fitted(w, a)[j] <= COLUMN_FLOOR);
        }
    }
}

} // verus!
