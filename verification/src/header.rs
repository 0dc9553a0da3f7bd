//! The header pinned to the top of the terminal: a status line and a rule, kept in
//! place by a scroll region below them.
use vstd::prelude::*;
use crate::{chars, text};

verus! {

/// Rows that the header takes.
pub const HEADER_ROWS: usize = 2;

/// Whether a terminal leaves no room for text below the header.
pub open spec fn cramped(rows: usize) -> bool {
    rows <= HEADER_ROWS + 1
}

/// Whether a terminal of `rows` rows is too short for a header.
pub fn too_short(rows: usize) -> (r: bool)
    ensures
        r == cramped(rows),
{
    rows <= HEADER_ROWS + 1
}

/// The size of a terminal that has room for a header; its rows and its columns.
pub open spec fn roomy(size: Option<(usize, usize)>) -> Option<(usize, usize)> {
    match size {
        Some((rows, cols)) => if cramped(rows) {
            None
        } else {
            Some((rows, cols))
        },
        None => None,
    }
}

/// Sets the scroll region to everything below the header.
pub open spec fn region_text(rows: nat) -> Seq<char> {
    "\x1b[3;"@ + chars::dec(rows) + "r"@
}

/// Sets the scroll region and puts the cursor on its first row.
pub open spec fn setup_text(rows: nat) -> Seq<char> {
    region_text(rows) + "\x1b[3;1H"@
}

/// The rule under the status line, across all columns.
pub open spec fn rule_text(cols: nat, color: bool) -> Seq<char> {
    if color {
        "\x1b[1;37m"@ + chars::repeat('─', cols) + "\x1b[0m"@
    } else {
        chars::repeat('─', cols)
    }
}

/// Draws the header: the region, the cursor saved, both rows cleared and written,
/// the cursor restored.
pub open spec fn paint_text(rows: nat, cols: nat, status: Seq<char>, color: bool) -> Seq<char> {
    region_text(rows) + "\x1b7"@ + "\x1b[1;1H\x1b[2K"@ + status + "\x1b[2;1H\x1b[2K"@ + rule_text(
        cols,
        color,
    ) + "\x1b8"@
}

/// Whether a header is shown, and the status line it shows.
#[derive(Debug)]
pub struct Header {
    shown: bool,
    status: String,
}

/// The model of a header.
pub ghost struct HeaderV {
    pub shown: bool,
    pub status: Seq<char>,
}

impl View for Header {
    type V = HeaderV;

    closed spec fn view(&self) -> HeaderV {
        HeaderV { shown: self.shown, status: self.status@ }
    }
}

/// What is written to set the scroll region.
fn region(rows: usize) -> (r: String)
    ensures
        r@ == region_text(rows as nat),
{
    let mut out = "\x1b[3;".to_owned();
    text::push_usize(&mut out, rows);
    out.push_str("r");
    out
}

/// What is written to draw the header.
fn paint(rows: usize, cols: usize, status: &str, color: bool) -> (r: String)
    ensures
        r@ == paint_text(rows as nat, cols as nat, status@, color),
{
    let mut line: Vec<char> = Vec::new();
    text::push_repeat(&mut line, '─', cols);
    assert(line@ =~= chars::repeat('─', cols as nat));
    let mut rule = "".to_owned();
    proof {
        reveal_strlit("");
        assert(""@ + line@ =~= line@);
    }
    if color {
        rule = "\x1b[1;37m".to_owned();
    }
    text::push_chars(&mut rule, &line);
    if color {
        rule.push_str("\x1b[0m");
    }
    let mut out = region(rows);
    out.push_str("\x1b7");
    out.push_str("\x1b[1;1H\x1b[2K");
    out.push_str(status);
    out.push_str("\x1b[2;1H\x1b[2K");
    out.push_str(rule.as_str());
    out.push_str("\x1b8");
    out
}

impl Header {
    /// No header yet.
    pub fn new() -> (r: Self)
        ensures
            r@ == (HeaderV { shown: false, status: seq![] }),
    {
        Header { shown: false, status: String::new() }
    }

    /// Whether a header is shown.
    pub fn active(&self) -> (r: bool)
        ensures
            r == self@.shown,
    {
        self.shown
    }

    /// Shows the header on a terminal of this size; the text to write. Nothing
    /// happens without a terminal, or on one that is too short.
    pub fn install(
        &mut self,
        size: Option<(usize, usize)>,
        statusline: &str,
        color_on: bool,
    ) -> (r: String)
        ensures
            match roomy(size) {
                Some((rows, cols)) => {
                    &&& r@ == setup_text(rows as nat) + paint_text(
                        rows as nat,
                        cols as nat,
                        statusline@,
                        color_on,
                    )
                    &&& final(self)@ == (HeaderV { shown: true, status: statusline@ })
                },
                None => r@ == ""@ && final(self)@ == old(self)@,
            },
    {
        match size {
            Some((rows, cols)) => if too_short(rows) {
                "".to_owned()
            } else {
                let mut out = region(rows);
                out.push_str("\x1b[3;1H");
                let drawn = self.repaint(size, statusline, color_on);
                out.push_str(drawn.as_str());
                out
            },
            None => "".to_owned(),
        }
    }

    /// Draws the header again, with the scroll region of the present size; the text
    /// to write.
    pub fn repaint(
        &mut self,
        size: Option<(usize, usize)>,
        statusline: &str,
        color_on: bool,
    ) -> (r: String)
        ensures
            match roomy(size) {
                Some((rows, cols)) => {
                    &&& r@ == paint_text(rows as nat, cols as nat, statusline@, color_on)
                    &&& final(self)@ == (HeaderV { shown: true, status: statusline@ })
                },
                None => r@ == ""@ && final(self)@ == old(self)@,
            },
    {
        match size {
            Some((rows, cols)) => if too_short(rows) {
                "".to_owned()
            } else {
                self.status = statusline.to_owned();
                self.shown = true;
                paint(rows, cols, statusline, color_on)
            },
            None => "".to_owned(),
        }
    }

    /// After the screen was cleared: the text that puts the cursor below the header
    /// and draws it again, where one is shown.
    pub fn restore_after_clear(&mut self, size: Option<(usize, usize)>, color_on: bool) -> (r: String)
        ensures
            match roomy(size) {
                Some((rows, cols)) if old(self)@.shown => r@ == setup_text(rows as nat) + paint_text(
                    rows as nat,
                    cols as nat,
                    old(self)@.status,
                    color_on,
                ),
                _ => r@ == ""@,
            },
            final(self)@ == old(self)@,
    {
        if !self.shown {
            return "".to_owned();
        }
        let status = self.status.as_str().to_owned();
        self.install(size, status.as_str(), color_on)
    }

    /// Takes the header away: the text that gives the whole screen back to the
    /// scroll region. Nothing happens without a terminal or a header.
    pub fn teardown(&mut self, tty: bool) -> (r: String)
        ensures
            if tty && old(self)@.shown {
                &&& r@ == "\x1b[r\r\n"@
                &&& final(self)@ == (HeaderV { shown: false, ..old(self)@ })
            } else {
                r@ == ""@ && final(self)@ == old(self)@
            },
    {
        if tty && self.shown {
            self.shown = false;
            "\x1b[r\r\n".to_owned()
        } else {
            "".to_owned()
        }
    }
}

/// Law: a header is shown where at least one row is left for text below its two; it sets the
/// region below it, shows the whole status and a rule as wide as the terminal.
pub proof fn headers_leave_room(rows: usize, cols: usize, status: Seq<char>, color: bool)
    ensures
        rows <= 3 ==> roomy(Some((rows, cols))) is None,
        rows > 3 ==> roomy(Some((rows, cols))) == Some((rows, cols)),
        roomy(None) is None,
        chars::starts_with(
            paint_text(rows as nat, cols as nat, status, color),
            "\x1b[3;"@ + chars::dec(rows as nat) + "r"@,
        ),
        chars::contains_str(paint_text(rows as nat, cols as nat, status, color), status),
        chars::contains_str(
            paint_text(rows as nat, cols as nat, status, color),
            chars::repeat('─', cols as nat),
        ),
        rule_text(cols as nat, false) == chars::repeat('─', cols as nat),
{
    let p = paint_text(rows as nat, cols as nat, status, color);
    let reg = region_text(rows as nat);
    let a = "\x1b7"@;
    let b = "\x1b[1;1H\x1b[2K"@;
    let c = "\x1b[2;1H\x1b[2K"@;
    let rule = rule_text(cols as nat, color);
    let d = "\x1b8"@;
    let x = reg + a + b;
    lemma_tail(x, status, c, rule, d);
    lemma_tail(x + status, c, rule, d, seq![]);
    let y = x + status + c;
    chars::lemma_holds_part(y, rule, d);
    let dashes = chars::repeat('─', cols as nat);
    if color {
        chars::lemma_holds_part("\x1b[1;37m"@, dashes, "\x1b[0m"@);
    } else {
        chars::lemma_holds_part(seq![], dashes, seq![]);
        assert(Seq::<char>::empty() + dashes =~= dashes);
    }
    assert(p == y + rule + d);
    chars::lemma_contains_within(p, rule, dashes);
    assert(p.subrange(0, reg.len() as int) =~= reg);
}

proof fn lemma_tail(x: Seq<char>, s: Seq<char>, a: Seq<char>, b: Seq<char>, c: Seq<char>)
    ensures
        chars::contains_str(x + s + a + b + c, s),
{
    chars::lemma_holds_part(x, s, a + b + c);
    assert(x + s + (a + b + c) =~= x + s + a + b + c);
}

} // verus!
