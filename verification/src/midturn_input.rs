//! Line editor for typing while a model turn runs: raw terminal bytes become keys,
//! keys edit a line, and the line is painted below the output.
use vstd::prelude::*;
use vstd::utf8::{decode_utf8, encode_scalar, encode_utf8, valid_utf8};
use crate::chars;
use crate::keywatch;
use crate::text;
use crate::width;

verus! {

/// A key decoded from the byte stream.
#[derive(Debug, Clone, Copy, PartialEq, Eq, Structural)]
pub enum Key {
    /// A character.
    Char(char),
    /// CR or LF.
    Enter,
    /// DEL or BS.
    Backspace,
    /// CSI `3~`.
    Delete,
    /// CSI `Z`.
    ShiftTab,
    Left,
    Right,
    Up,
    Down,
    /// CSI `H`, `1~` or `7~`.
    Home,
    /// CSI `F`, `4~` or `8~`.
    End,
    CtrlU,
    CtrlW,
    CtrlA,
    CtrlE,
}

/// What the parser remembers between bytes.
pub struct ParserState {
    /// The bytes since ESC, when inside an escape sequence.
    pub esc: Option<Seq<u8>>,
    /// The bytes of an unfinished character.
    pub utf8: Seq<u8>,
    /// How many bytes that character still needs.
    pub need: nat,
}

/// The state between keys.
pub open spec fn ground_state() -> ParserState {
    ParserState { esc: None, utf8: seq![], need: 0 }
}

/// The key of a complete escape sequence, given without its ESC.
pub open spec fn csi_key(s: Seq<u8>) -> Seq<Key> {
    let last = s.last();
    let params = s.subrange(1, s.len() - 1);
    if last == 0x5a {
        seq![Key::ShiftTab]
    } else if last == 0x41 {
        seq![Key::Up]
    } else if last == 0x42 {
        seq![Key::Down]
    } else if last == 0x43 {
        seq![Key::Right]
    } else if last == 0x44 {
        seq![Key::Left]
    } else if last == 0x48 {
        seq![Key::Home]
    } else if last == 0x46 {
        seq![Key::End]
    } else if last == 0x7e && params.len() == 1 {
        if params[0] == 0x31 || params[0] == 0x37 {
            seq![Key::Home]
        } else if params[0] == 0x33 {
            seq![Key::Delete]
        } else if params[0] == 0x34 || params[0] == 0x38 {
            seq![Key::End]
        } else {
            seq![]
        }
    } else {
        seq![]
    }
}

/// The key of the bytes of one character: none when they are not valid UTF-8.
pub open spec fn char_key(bytes: Seq<u8>) -> Seq<Key> {
    if valid_utf8(bytes) && decode_utf8(bytes).len() > 0 {
        seq![Key::Char(decode_utf8(bytes)[0])]
    } else {
        seq![]
    }
}

/// The continuation bytes that a lead byte announces.
pub open spec fn announced(b: u8) -> nat {
    if 0xc0 <= b <= 0xdf {
        1
    } else if 0xe0 <= b <= 0xef {
        2
    } else if 0xf0 <= b <= 0xf7 {
        3
    } else {
        0
    }
}

/// One byte outside any sequence.
pub open spec fn ground_step(s: ParserState, b: u8) -> (ParserState, Seq<Key>) {
    if b == 0x1b {
        (ParserState { esc: Some(seq![]), ..s }, seq![])
    } else if b == 0x0d || b == 0x0a {
        (s, seq![Key::Enter])
    } else if b == 0x7f || b == 0x08 {
        (s, seq![Key::Backspace])
    } else if b == 0x01 {
        (s, seq![Key::CtrlA])
    } else if b == 0x05 {
        (s, seq![Key::CtrlE])
    } else if b == 0x15 {
        (s, seq![Key::CtrlU])
    } else if b == 0x17 {
        (s, seq![Key::CtrlW])
    } else if b == 0x09 {
        (s, seq![Key::Char('\t')])
    } else if b < 0x20 {
        (s, seq![])
    } else if b < 0x80 {
        (s, seq![Key::Char(b as char)])
    } else if announced(b) > 0 {
        (ParserState { utf8: seq![b], need: announced(b), ..s }, seq![])
    } else {
        (s, seq![])
    }
}

/// One byte: the state after it and the keys it completes.
pub open spec fn step(s: ParserState, b: u8) -> (ParserState, Seq<Key>) {
    match s.esc {
        Some(buf) => if b == 0x1b {
            (ParserState { esc: Some(seq![]), ..s }, seq![])
        } else if buf.len() == 0 {
            if b == 0x5b || b == 0x4f {
                (ParserState { esc: Some(buf.push(b)), ..s }, seq![])
            } else {
                (ParserState { esc: None, ..s }, seq![])
            }
        } else if 0x40 <= b <= 0x7e {
            (ParserState { esc: None, ..s }, csi_key(buf.push(b)))
        } else {
            (ParserState { esc: Some(buf.push(b)), ..s }, seq![])
        },
        None => if s.need > 0 {
            if 0x80 <= b <= 0xbf {
                if s.need == 1 {
                    (ParserState { esc: None, utf8: seq![], need: 0 }, char_key(s.utf8.push(b)))
                } else {
                    (
                        ParserState { esc: None, utf8: s.utf8.push(b), need: (s.need - 1) as nat },
                        seq![],
                    )
                }
            } else {
                ground_step(ground_state(), b)
            }
        } else {
            ground_step(s, b)
        },
    }
}

/// Several bytes.
pub open spec fn run(s: ParserState, bytes: Seq<u8>) -> (ParserState, Seq<Key>)
    decreases bytes.len(),
{
    if bytes.len() == 0 {
        (s, seq![])
    } else {
        let p = run(s, bytes.drop_last());
        let q = step(p.0, bytes.last());
        (q.0, p.1 + q.1)
    }
}

/// `std::str::from_utf8`: the text that `bytes` encode, if they are valid UTF-8.
#[verifier::external_body]
fn utf8_text(bytes: &[u8]) -> (r: Option<String>)
    ensures
        r is Some == valid_utf8(bytes@),
        r matches Some(s) ==> s@ == decode_utf8(bytes@),
{
    std::str::from_utf8(bytes).ok().map(|s| s.to_string())
}

/// Decodes a byte stream into keys, across chunks.
#[derive(Debug)]
pub struct KeyParser {
    esc: Option<Vec<u8>>,
    utf8: Vec<u8>,
    utf8_need: usize,
}

impl KeyParser {
    pub closed spec fn view(self) -> ParserState {
        ParserState {
            esc: match self.esc {
                Some(v) => Some(v@),
                None => None,
            },
            utf8: self.utf8@,
            need: self.utf8_need as nat,
        }
    }

    /// A parser between keys.
    pub fn new() -> (r: Self)
        ensures
            r.view() == ground_state(),
    {
        let r = KeyParser { esc: None, utf8: Vec::new(), utf8_need: 0 };
        assert(r.view().utf8 =~= ground_state().utf8);
        r
    }

    /// Feeds a chunk, appending the decoded keys to `out`.
    pub fn feed(&mut self, bytes: &[u8], out: &mut Vec<Key>)
        ensures
            final(self).view() == run(old(self).view(), bytes@).0,
            final(out)@ == old(out)@ + run(old(self).view(), bytes@).1,
    {
        let ghost s0 = self.view();
        let mut i: usize = 0;
        assert(bytes@.take(0) =~= Seq::empty());
        assert(out@ =~= old(out)@ + run(s0, bytes@.take(0)).1);
        while i < bytes.len()
            invariant
                s0 == old(self).view(),
                i <= bytes@.len(),
                self.view() == run(s0, bytes@.take(i as int)).0,
                out@ == old(out)@ + run(s0, bytes@.take(i as int)).1,
            decreases bytes@.len() - i,
        {
            let b = bytes[i];
            proof {
                assert(bytes@.take(i + 1).drop_last() =~= bytes@.take(i as int));
                assert(bytes@.take(i + 1).last() == b);
            }
            self.feed_byte(b, out);
            i += 1;
            assert(out@ =~= old(out)@ + run(s0, bytes@.take(i as int)).1);
        }
        assert(bytes@.take(i as int) =~= bytes@);
    }

    /// Feeds a chunk and returns the decoded keys.
    pub fn decode(&mut self, bytes: &[u8]) -> (r: Vec<Key>)
        ensures
            final(self).view() == run(old(self).view(), bytes@).0,
            r@ == run(old(self).view(), bytes@).1,
    {
        let mut out: Vec<Key> = Vec::new();
        self.feed(bytes, &mut out);
        assert(out@ =~= run(old(self).view(), bytes@).1);
        out
    }

    /// One byte outside any sequence.
    fn feed_ground(&mut self, b: u8, out: &mut Vec<Key>)
        requires
            old(self).view().esc is None,
            old(self).view().need == 0,
        ensures
            final(self).view() == ground_step(old(self).view(), b).0,
            final(out)@ == old(out)@ + ground_step(old(self).view(), b).1,
    {
        let ghost s0 = self.view();
        if b == 0x1b {
            self.esc = Some(Vec::new());
            assert(self.view().esc->0 =~= seq![]);
        } else if b == 0x0d || b == 0x0a {
            out.push(Key::Enter);
        } else if b == 0x7f || b == 0x08 {
            out.push(Key::Backspace);
        } else if b == 0x01 {
            out.push(Key::CtrlA);
        } else if b == 0x05 {
            out.push(Key::CtrlE);
        } else if b == 0x15 {
            out.push(Key::CtrlU);
        } else if b == 0x17 {
            out.push(Key::CtrlW);
        } else if b == 0x09 {
            out.push(Key::Char('\t'));
        } else if b < 0x20 {
        } else if b < 0x80 {
            out.push(Key::Char(b as char));
        } else {
            let need: usize = if 0xc0 <= b && b <= 0xdf {
                1
            } else if 0xe0 <= b && b <= 0xef {
                2
            } else if 0xf0 <= b && b <= 0xf7 {
                3
            } else {
                0
            };
            if need > 0 {
                self.utf8.clear();
                self.utf8.push(b);
                self.utf8_need = need;
                assert(self.utf8@ =~= seq![b]);
            }
        }
        assert(out@ =~= old(out)@ + ground_step(s0, b).1);
    }

    fn feed_byte(&mut self, b: u8, out: &mut Vec<Key>)
        ensures
            final(self).view() == step(old(self).view(), b).0,
            final(out)@ == old(out)@ + step(old(self).view(), b).1,
    {
        let ghost s0 = self.view();
        match self.esc.take() {
            Some(mut buf) => {
                if b == 0x1b {
                    buf.clear();
                    self.esc = Some(buf);
                    assert(self.view().esc->0 =~= seq![]);
                } else {
                    buf.push(b);
                    if buf.len() == 1 {
                        if b == 0x5b || b == 0x4f {
                            self.esc = Some(buf);
                        }
                    } else if 0x40 <= b && b <= 0x7e {
                        if let Some(k) = decode_csi(&buf) {
                            out.push(k);
                        }
                    } else {
                        self.esc = Some(buf);
                    }
                }
            },
            None => {
                if self.utf8_need > 0 {
                    if 0x80 <= b && b <= 0xbf {
                        self.utf8.push(b);
                        self.utf8_need = self.utf8_need - 1;
                        if self.utf8_need == 0 {
                            if let Some(s) = utf8_text(&self.utf8) {
                                let cs = text::chars_of(s.as_str());
                                if cs.len() > 0 {
                                    out.push(Key::Char(cs[0]));
                                }
                            }
                            self.utf8.clear();
                            assert(self.view().utf8 =~= seq![]);
                        }
                    } else {
                        self.utf8.clear();
                        self.utf8_need = 0;
                        assert(self.view().utf8 =~= ground_state().utf8);
                        self.feed_ground(b, out);
                    }
                } else {
                    self.feed_ground(b, out);
                }
            },
        }
        assert(out@ =~= old(out)@ + step(s0, b).1);
    }
}

impl Default for KeyParser {
    fn default() -> (r: KeyParser)
        ensures
            r.view() == ground_state(),
    {
        KeyParser::new()
    }
}

/// The key of an escape sequence given without its ESC; `None` for one that is not
/// supported.
fn decode_csi(seq: &[u8]) -> (r: Option<Key>)
    requires
        seq@.len() >= 2,
    ensures
        match r {
            Some(k) => csi_key(seq@) == seq![k],
            None => csi_key(seq@) == Seq::<Key>::empty(),
        },
{
    let n: usize = seq.len();
    let last = seq[n - 1];
    if last == 0x5a {
        Some(Key::ShiftTab)
    } else if last == 0x41 {
        Some(Key::Up)
    } else if last == 0x42 {
        Some(Key::Down)
    } else if last == 0x43 {
        Some(Key::Right)
    } else if last == 0x44 {
        Some(Key::Left)
    } else if last == 0x48 {
        Some(Key::Home)
    } else if last == 0x46 {
        Some(Key::End)
    } else if last == 0x7e && n == 3 {
        let p = seq[1];
        if p == 0x31 || p == 0x37 {
            Some(Key::Home)
        } else if p == 0x33 {
            Some(Key::Delete)
        } else if p == 0x34 || p == 0x38 {
            Some(Key::End)
        } else {
            None
        }
    } else {
        None
    }
}

/// How often Shift-Tab is among `keys`.
pub open spec fn shift_tab_keys(keys: Seq<Key>) -> nat
    decreases keys.len(),
{
    if keys.len() == 0 {
        0
    } else {
        shift_tab_keys(keys.drop_last()) + (if keys.last() == Key::ShiftTab {
            1nat
        } else {
            0
        })
    }
}

proof fn lemma_shift_tabs_add(a: Seq<Key>, b: Seq<Key>)
    ensures
        shift_tab_keys(a + b) == shift_tab_keys(a) + shift_tab_keys(b),
    decreases b.len(),
{
    if b.len() == 0 {
        assert(a + b =~= a);
    } else {
        assert((a + b).drop_last() =~= a + b.drop_last());
        lemma_shift_tabs_add(a, b.drop_last());
    }
}

/// The parser sees every Shift-Tab that the scanner of the key watcher sees, from the
/// ground state and over any bytes.
pub proof fn no_shift_tab_is_missed(bytes: Seq<u8>)
    ensures
        keywatch::scanned(0, bytes).1 <= shift_tab_keys(run(ground_state(), bytes).1),
        keywatch::scanned(0, bytes).0 == 1 ==> run(ground_state(), bytes).0.esc == Some(
            Seq::<u8>::empty(),
        ),
        keywatch::scanned(0, bytes).0 == 2 ==> run(ground_state(), bytes).0.esc == Some(
            seq![0x5bu8],
        ),
        keywatch::scanned(0, bytes).0 <= 2,
    decreases bytes.len(),
{
    if bytes.len() > 0 {
        let l = bytes.drop_last();
        let b = bytes.last();
        no_shift_tab_is_missed(l);
        let p = run(ground_state(), l);
        let q = step(p.0, b);
        lemma_shift_tabs_add(p.1, q.1);
        if keywatch::scanned(0, l).0 == 1 {
            assert(Seq::<u8>::empty().push(0x5b) =~= seq![0x5bu8]);
        }
        if keywatch::completes(keywatch::scanned(0, l).0, b) {
            let seen = seq![0x5bu8].push(0x5a);
            assert(seen.last() == 0x5a);
            assert(q.1 =~= seq![Key::ShiftTab]);
            assert(q.1.drop_last() =~= Seq::<Key>::empty());
            assert(shift_tab_keys(q.1.drop_last()) == 0);
        }
    }
}

/// How the bytes are cut into chunks plays no part: feeding two chunks in turn is
/// feeding them at once.
pub proof fn chunks_do_not_matter(s: ParserState, a: Seq<u8>, b: Seq<u8>)
    ensures
        run(s, a + b).0 == run(run(s, a).0, b).0,
        run(s, a + b).1 == run(s, a).1 + run(run(s, a).0, b).1,
    decreases b.len(),
{
    if b.len() == 0 {
        assert(a + b =~= a);
        assert(run(s, a).1 + Seq::<Key>::empty() =~= run(s, a).1);
    } else {
        assert((a + b).drop_last() =~= a + b.drop_last());
        assert((a + b).last() == b.last());
        chunks_do_not_matter(s, a, b.drop_last());
        let m = run(s, a).0;
        assert(run(s, a).1 + (run(m, b.drop_last()).1 + step(run(m, b.drop_last()).0, b.last()).1)
            =~= (run(s, a).1 + run(m, b.drop_last()).1) + step(
            run(m, b.drop_last()).0,
            b.last(),
        ).1);
    }
}

proof fn lemma_run_one(s: ParserState, b: u8)
    ensures
        run(s, seq![b]) == step(s, b),
{
    assert(seq![b].drop_last() =~= Seq::<u8>::empty());
    assert(run(s, Seq::<u8>::empty()).1 + step(s, b).1 =~= step(s, b).1);
}

/// A text character: not a control character.
pub open spec fn printable(c: char) -> bool {
    c >= ' ' && c != '\x7f'
}

/// The keys that type `s`.
pub open spec fn char_keys(s: Seq<char>) -> Seq<Key>
    decreases s.len(),
{
    if s.len() == 0 {
        seq![]
    } else {
        seq![Key::Char(s[0])] + char_keys(s.drop_first())
    }
}

proof fn lemma_one_char(c: char)
    requires
        printable(c),
    ensures
        run(ground_state(), encode_scalar(c as u32)) == (ground_state(), seq![Key::Char(c)]),
{
    let g = ground_state();
    let e = encode_scalar(c as u32);
    let one = seq![c];
    assert(one.drop_first() =~= Seq::<char>::empty());
    assert(encode_utf8(Seq::<char>::empty()) =~= Seq::<u8>::empty());
    assert(encode_utf8(one) =~= e + Seq::<u8>::empty());
    assert(encode_utf8(one) =~= e);
    vstd::utf8::encode_utf8_first_scalar(one);
    vstd::utf8::encode_utf8_decode_utf8(one);
    vstd::utf8::encode_utf8_valid_utf8(one);
    vstd::utf8::char_is_scalar(c);
    let n = c as u32;
    if vstd::utf8::has_width_1_encoding(n) {
        let b = e[0];
        assert(e =~= seq![b]);
        lemma_run_one(g, b);
        assert(vstd::utf8::decode_first_scalar(e) == n);
        assert((b & 0x7f) == b) by (bit_vector)
            requires
                b <= 0x7f,
        ;
        assert(b == n);
        assert(b as char == c);
    } else {
        assert(valid_utf8(e) && decode_utf8(e)[0] == c);
        assert(char_key(e) == seq![Key::Char(c)]);
        let b0 = e[0];
        let s1 = ParserState { esc: None, utf8: seq![b0], need: announced(b0) };
        assert(e.take(1) =~= seq![b0]);
        lemma_run_one(g, b0);
        assert(step(g, b0).0 == s1);
        assert(run(g, e.take(1)) == (s1, Seq::<Key>::empty()));
        if e.len() == 2 {
            assert(e.drop_last() =~= e.take(1));
            assert(s1.utf8.push(e[1]) =~= e);
            assert(Seq::<Key>::empty() + char_key(e) =~= char_key(e));
        } else if e.len() == 3 {
            assert(e.take(2).drop_last() =~= e.take(1));
            let s2 = ParserState { esc: None, utf8: s1.utf8.push(e[1]), need: 1 };
            assert(step(s1, e[1]).0 == s2);
            assert(run(g, e.take(2)).0 == s2);
            assert(run(g, e.take(2)).1 =~= Seq::<Key>::empty());
            assert(e.drop_last() =~= e.take(2));
            assert(s2.utf8.push(e[2]) =~= e);
            assert(Seq::<Key>::empty() + char_key(e) =~= char_key(e));
        } else {
            assert(e.take(2).drop_last() =~= e.take(1));
            let s2 = ParserState { esc: None, utf8: s1.utf8.push(e[1]), need: 2 };
            assert(step(s1, e[1]).0 == s2);
            assert(run(g, e.take(2)).0 == s2);
            assert(run(g, e.take(2)).1 =~= Seq::<Key>::empty());
            assert(e.take(3).drop_last() =~= e.take(2));
            let s3 = ParserState { esc: None, utf8: s2.utf8.push(e[2]), need: 1 };
            assert(step(s2, e[2]).0 == s3);
            assert(run(g, e.take(3)).0 == s3);
            assert(run(g, e.take(3)).1 =~= Seq::<Key>::empty());
            assert(e.drop_last() =~= e.take(3));
            assert(s3.utf8.push(e[3]) =~= e);
            assert(Seq::<Key>::empty() + char_key(e) =~= char_key(e));
        }
    }
}

/// Typed text comes out as it went in: the UTF-8 bytes of any text without control
/// characters decode to exactly its characters.
pub proof fn typed_text_is_decoded(s: Seq<char>)
    requires
        forall|i: int| 0 <= i < s.len() ==> printable(#[trigger] s[i]),
    ensures
        run(ground_state(), encode_utf8(s)) == (ground_state(), char_keys(s)),
    decreases s.len(),
{
    if s.len() > 0 {
        let r = s.drop_first();
        chars::lemma_char_range(s[0]);
        assert(printable(s[0]));
        assert forall|i: int| 0 <= i < r.len() implies printable(#[trigger] r[i]) by {
            assert(r[i] == s[i + 1]);
        }
        lemma_one_char(s[0]);
        typed_text_is_decoded(r);
        chunks_do_not_matter(ground_state(), encode_scalar(s[0] as u32), encode_utf8(r));
    }
}

/// A line being edited: its text and the cursor, an index between characters.
pub struct Line {
    pub text: Seq<char>,
    pub cursor: int,
}

/// `s` without its last run of non-whitespace.
pub open spec fn drop_word(s: Seq<char>) -> Seq<char>
    decreases s.len(),
{
    if s.len() > 0 && !chars::is_ws(s.last()) {
        drop_word(s.drop_last())
    } else {
        s
    }
}

/// The line after an editing key. Enter empties it; Shift-Tab, Up and Down leave
/// it alone.
pub open spec fn edited(l: Line, key: Key) -> Line {
    let before = l.text.take(l.cursor);
    let after = l.text.skip(l.cursor);
    match key {
        Key::Char(c) => Line { text: before.push(c) + after, cursor: l.cursor + 1 },
        Key::Backspace => if l.cursor > 0 {
            Line { text: before.drop_last() + after, cursor: l.cursor - 1 }
        } else {
            l
        },
        Key::Delete => if l.cursor < l.text.len() {
            Line { text: before + after.skip(1), cursor: l.cursor }
        } else {
            l
        },
        Key::Left => if l.cursor > 0 {
            Line { text: l.text, cursor: l.cursor - 1 }
        } else {
            l
        },
        Key::Right => if l.cursor < l.text.len() {
            Line { text: l.text, cursor: l.cursor + 1 }
        } else {
            l
        },
        Key::Home | Key::CtrlA => Line { text: l.text, cursor: 0 },
        Key::End | Key::CtrlE => Line { text: l.text, cursor: l.text.len() as int },
        Key::CtrlU => Line { text: after, cursor: 0 },
        Key::CtrlW => {
            let kept = drop_word(chars::trim_end(before));
            Line { text: kept + after, cursor: kept.len() as int }
        },
        Key::Enter => Line { text: seq![], cursor: 0 },
        Key::Up | Key::Down | Key::ShiftTab => l,
    }
}

/// What the caller has to do after a key.
#[derive(Debug, Clone, PartialEq, Eq)]
pub enum Action {
    /// Nothing beyond painting the line again.
    NoAction,
    /// Queue this line as the next command.
    Submit(String),
    /// Cycle the attached worker.
    CycleWorker,
}

impl Action {
    /// Whether this is what `key` asks for on the line `l`.
    pub open spec fn answers(self, l: Line, key: Key) -> bool {
        match key {
            Key::Enter => if chars::blank(l.text) {
                self is NoAction
            } else {
                self matches Action::Submit(s) && s@ == l.text
            },
            Key::ShiftTab => self is CycleWorker,
            _ => self is NoAction,
        }
    }
}

/// A single-line editor.
#[derive(Debug)]
pub struct LineBuf {
    chars: Vec<char>,
    cursor: usize,
}

impl LineBuf {
    pub closed spec fn view(self) -> Line {
        Line { text: self.chars@, cursor: self.cursor as int }
    }

    /// The cursor stands within the line.
    pub open spec fn wf(self) -> bool {
        0 <= self.view().cursor <= self.view().text.len()
    }

    /// An empty line.
    pub fn new() -> (r: Self)
        ensures
            r.wf(),
            r.view() == (Line { text: seq![], cursor: 0 }),
    {
        let r = LineBuf { chars: Vec::new(), cursor: 0 };
        assert(r.view().text =~= seq![]);
        r
    }

    /// The text.
    pub fn as_string(&self) -> (r: String)
        ensures
            r@ == self.view().text,
    {
        text::string_of(&self.chars)
    }

    /// The cursor, as a character index.
    pub fn cursor(&self) -> (r: usize)
        ensures
            r == self.view().cursor,
    {
        self.cursor
    }

    /// How many characters the line has.
    pub fn len(&self) -> (r: usize)
        ensures
            r == self.view().text.len(),
    {
        self.chars.len()
    }

    /// Whether the line is empty.
    pub fn is_empty(&self) -> (r: bool)
        ensures
            r == (self.view().text.len() == 0),
    {
        self.chars.len() == 0
    }

    /// Empties the line.
    pub fn clear(&mut self)
        ensures
            final(self).wf(),
            final(self).view() == (Line { text: seq![], cursor: 0 }),
    {
        self.chars.clear();
        self.cursor = 0;
        assert(self.view().text =~= seq![]);
    }

    /// Takes the line, leaving it empty; `None` when it is blank.
    pub fn take(&mut self) -> (r: Option<String>)
        ensures
            final(self).wf(),
            final(self).view() == (Line { text: seq![], cursor: 0 }),
            r is None <==> chars::blank(old(self).view().text),
            r matches Some(s) ==> s@ == old(self).view().text,
    {
        let s = self.as_string();
        let blank = text::blank(&self.chars);
        self.clear();
        if blank {
            None
        } else {
            Some(s)
        }
    }

    fn insert(&mut self, c: char)
        requires
            old(self).wf(),
        ensures
            final(self).wf(),
            final(self).view() == edited(old(self).view(), Key::Char(c)),
    {
        self.chars.insert(self.cursor, c);
        let n: usize = self.chars.len();
        assert(self.cursor + 1 <= n);
        self.cursor += 1;
        assert(self.view().text =~= edited(old(self).view(), Key::Char(c)).text);
    }

    fn backspace(&mut self)
        requires
            old(self).wf(),
        ensures
            final(self).wf(),
            final(self).view() == edited(old(self).view(), Key::Backspace),
    {
        if self.cursor > 0 {
            self.cursor -= 1;
            self.chars.remove(self.cursor);
            assert(self.view().text =~= edited(old(self).view(), Key::Backspace).text);
        }
    }

    fn delete(&mut self)
        requires
            old(self).wf(),
        ensures
            final(self).wf(),
            final(self).view() == edited(old(self).view(), Key::Delete),
    {
        if self.cursor < self.chars.len() {
            self.chars.remove(self.cursor);
            assert(self.view().text =~= edited(old(self).view(), Key::Delete).text);
        }
    }

    /// Removes the characters from `i` up to the cursor, which moves to `i`.
    fn remove_back_to(&mut self, i: usize)
        requires
            old(self).wf(),
            i <= old(self).view().cursor,
        ensures
            final(self).wf(),
            final(self).view().text == old(self).view().text.take(i as int)
                + old(self).view().text.skip(old(self).view().cursor),
            final(self).view().cursor == i,
    {
        let mut kept = text::to_vec(text::upto(&self.chars, i));
        text::extend(&mut kept, text::from(&self.chars, self.cursor));
        self.chars = kept;
        self.cursor = i;
    }

    fn kill_to_start(&mut self)
        requires
            old(self).wf(),
        ensures
            final(self).wf(),
            final(self).view() == edited(old(self).view(), Key::CtrlU),
    {
        self.remove_back_to(0);
        assert(self.view().text =~= edited(old(self).view(), Key::CtrlU).text);
    }

    fn kill_word(&mut self)
        requires
            old(self).wf(),
        ensures
            final(self).wf(),
            final(self).view() == edited(old(self).view(), Key::CtrlW),
    {
        let before = text::upto(&self.chars, self.cursor);
        let mut kept = text::trim_end(before);
        let ghost t = chars::trim_end(before@);
        proof {
            chars::lemma_trim_end_props(before@);
        }
        while kept.len() > 0 && !text::is_ws(kept[kept.len() - 1])
            invariant
                drop_word(kept@) == drop_word(t),
                kept@.len() <= before@.len(),
                kept@ == before@.take(kept@.len() as int),
            decreases kept@.len(),
        {
            assert(kept@.take(kept@.len() - 1) =~= kept@.drop_last());
            kept = text::upto(kept, kept.len() - 1);
            assert(kept@ =~= before@.take(kept@.len() as int));
        }
        let i: usize = kept.len();
        assert(drop_word(kept@) == kept@);
        assert(self.view().text.take(i as int) =~= kept@);
        self.remove_back_to(i);
    }

    /// Folds a key into the line and says what the caller has to do.
    pub fn apply(&mut self, key: Key) -> (r: Action)
        requires
            old(self).wf(),
        ensures
            final(self).wf(),
            final(self).view() == edited(old(self).view(), key),
            r.answers(old(self).view(), key),
    {
        match key {
            Key::Char(c) => {
                self.insert(c);
                Action::NoAction
            },
            Key::Backspace => {
                self.backspace();
                Action::NoAction
            },
            Key::Delete => {
                self.delete();
                Action::NoAction
            },
            Key::Left => {
                if self.cursor > 0 {
                    self.cursor -= 1;
                }
                Action::NoAction
            },
            Key::Right => {
                if self.cursor < self.chars.len() {
                    self.cursor += 1;
                }
                Action::NoAction
            },
            Key::Home | Key::CtrlA => {
                self.cursor = 0;
                Action::NoAction
            },
            Key::End | Key::CtrlE => {
                self.cursor = self.chars.len();
                Action::NoAction
            },
            Key::CtrlU => {
                self.kill_to_start();
                Action::NoAction
            },
            Key::CtrlW => {
                self.kill_word();
                Action::NoAction
            },
            Key::Up | Key::Down => Action::NoAction,
            Key::Enter => match self.take() {
                Some(line) => Action::Submit(line),
                None => Action::NoAction,
            },
            Key::ShiftTab => Action::CycleWorker,
        }
    }
}

impl Default for LineBuf {
    fn default() -> (r: LineBuf)
        ensures
            r.wf(),
            r.view() == (Line { text: seq![], cursor: 0 }),
    {
        LineBuf::new()
    }
}

/// The line after several keys.
pub open spec fn edited_all(l: Line, keys: Seq<Key>) -> Line
    decreases keys.len(),
{
    if keys.len() == 0 {
        l
    } else {
        edited(edited_all(l, keys.drop_last()), keys.last())
    }
}

proof fn lemma_edited_all_cons(l: Line, k: Key, keys: Seq<Key>)
    ensures
        edited_all(l, seq![k] + keys) == edited_all(edited(l, k), keys),
    decreases keys.len(),
{
    let all = seq![k] + keys;
    if keys.len() == 0 {
        assert(all.drop_last() =~= Seq::<Key>::empty());
        assert(edited_all(l, Seq::<Key>::empty()) == l);
    } else {
        assert(all.drop_last() =~= seq![k] + keys.drop_last());
        lemma_edited_all_cons(l, k, keys.drop_last());
    }
}

/// Typing characters at the end of a line appends them.
pub proof fn typing_appends(l: Line, s: Seq<char>)
    requires
        l.cursor == l.text.len(),
    ensures
        edited_all(l, char_keys(s)) == (Line { text: l.text + s, cursor: l.cursor + s.len() }),
    decreases s.len(),
{
    if s.len() == 0 {
        assert(l.text + s =~= l.text);
        assert(char_keys(s) =~= Seq::<Key>::empty());
        assert(edited_all(l, char_keys(s)) == l);
    } else {
        chars::lemma_char_range(s[0]);
        let m = edited(l, Key::Char(s[0]));
        assert(m.text =~= l.text.push(s[0]));
        assert(m.cursor == m.text.len());
        assert(char_keys(s) == seq![Key::Char(s[0])] + char_keys(s.drop_first()));
        lemma_edited_all_cons(l, Key::Char(s[0]), char_keys(s.drop_first()));
        typing_appends(m, s.drop_first());
        assert(m.text + s.drop_first() =~= l.text + s);
    }
}

/// Whatever keys are pressed, the cursor stays within the line.
pub proof fn cursor_stays_in_bounds(l: Line, keys: Seq<Key>)
    requires
        0 <= l.cursor <= l.text.len(),
    ensures
        0 <= edited_all(l, keys).cursor <= edited_all(l, keys).text.len(),
    decreases keys.len(),
{
    if keys.len() > 0 {
        cursor_stays_in_bounds(l, keys.drop_last());
    }
}

/// Shift-Tab keeps the half-typed line, and a character typed before a backspace
/// leaves no trace.
pub proof fn editing_keys_are_faithful(l: Line, c: char)
    requires
        0 <= l.cursor <= l.text.len(),
    ensures
        edited(l, Key::ShiftTab) == l,
        edited(edited(l, Key::Char(c)), Key::Backspace) == l,
{
    let m = edited(l, Key::Char(c));
    assert(m.text.take(m.cursor).drop_last() =~= l.text.take(l.cursor));
    assert(m.text.skip(m.cursor) =~= l.text.skip(l.cursor));
    assert(edited(m, Key::Backspace).text =~= l.text);
}

/// The footer prompt and how it is painted and removed.
pub struct FooterRender<'a> {
    /// Shown before the text.
    pub prompt: &'a str,
    /// The line being edited.
    pub text: &'a str,
    /// Terminal width in columns; zero when unknown.
    pub cols: usize,
}

pub const CLEAR_ROW: &'static str = "\r\x1b[2K";

pub const UP_AND_CLEAR: &'static str = "\x1b[1A\x1b[2K";

/// Rows that `w` columns take on a terminal of `cols` columns, the caret's row
/// included.
pub open spec fn rows_for(w: nat, cols: nat) -> nat {
    if cols == 0 {
        1
    } else if w / cols + 1 > usize::MAX {
        usize::MAX as nat
    } else {
        w / cols + 1
    }
}

/// The text that removes a footer of `rows` rows and the blank line above it.
pub open spec fn erase_text(rows: nat) -> Seq<char> {
    CLEAR_ROW@ + chars::repeat_str(UP_AND_CLEAR@, rows)
}

impl<'a> FooterRender<'a> {
    /// The columns of prompt and text together.
    pub open spec fn columns(self) -> nat {
        width::str_width(self.prompt@) as nat + width::str_width(self.text@) as nat
    }

    /// Physical rows that the prompt line takes, at least one.
    pub fn prompt_rows(&self) -> (r: usize)
        ensures
            r == rows_for(self.columns(), self.cols as nat),
    {
        let w: u128 = width::of_str(self.prompt) as u128 + width::of_str(self.text) as u128;
        if self.cols == 0 {
            return 1;
        }
        let rows: u128 = w / (self.cols as u128) + 1;
        if rows > usize::MAX as u128 {
            usize::MAX
        } else {
            rows as usize
        }
    }

    /// Paints the footer: a blank line, then prompt and text.
    pub fn draw(&self) -> (r: String)
        ensures
            r@ == seq!['\n'] + self.prompt@ + self.text@,
    {
        let mut out = String::new();
        out.push('\n');
        out.push_str(self.prompt);
        out.push_str(self.text);
        assert(out@ =~= seq!['\n'] + self.prompt@ + self.text@);
        out
    }

    /// Removes a painted footer.
    pub fn erase(&self) -> (r: String)
        ensures
            r@ == erase_text(rows_for(self.columns(), self.cols as nat)),
    {
        let rows = self.prompt_rows();
        let mut out = CLEAR_ROW.to_owned();
        let mut i: usize = 0;
        assert(out@ + chars::repeat_str(UP_AND_CLEAR@, 0) =~= out@);
        while i < rows
            invariant
                i <= rows,
                out@ == CLEAR_ROW@ + chars::repeat_str(UP_AND_CLEAR@, i as nat),
            decreases rows - i,
        {
            out.push_str(UP_AND_CLEAR);
            i += 1;
            assert(out@ =~= CLEAR_ROW@ + chars::repeat_str(UP_AND_CLEAR@, i as nat));
        }
        out
    }
}

/// The terminal row after printing `s` from row `row`: a line feed goes down one
/// row, the sequence `ESC [ 1 A` up one.
pub open spec fn row_after(s: Seq<char>, row: int) -> int
    decreases s.len(),
{
    if s.len() == 0 {
        row
    } else if s[0] == '\n' {
        row_after(s.skip(1), row + 1)
    } else if s.len() >= 4 && s[0] == '\x1b' && s[1] == '[' && s[2] == '1' && s[3] == 'A' {
        row_after(s.skip(4), row - 1)
    } else {
        row_after(s.skip(1), row)
    }
}

proof fn lemma_climb(n: nat, rest: Seq<char>, row: int)
    ensures
        row_after(chars::repeat_str(UP_AND_CLEAR@, n) + rest, row) == row_after(rest, row - n),
    decreases n,
{
    reveal_strlit("\x1b[1A\x1b[2K");
    let u = UP_AND_CLEAR@;
    if n == 0 {
        assert(chars::repeat_str(u, 0) + rest =~= rest);
    } else {
        let m = (n - 1) as nat;
        assert(chars::repeat_str(u, n) + rest =~= chars::repeat_str(u, m) + (u + rest));
        lemma_climb(m, u + rest, row);
        let s = u + rest;
        assert(s.skip(4) =~= u.skip(4) + rest);
        let s1 = s.skip(4);
        let s2 = s1.skip(1);
        let s3 = s2.skip(1);
        let s4 = s3.skip(1);
        assert(s1[0] == '\x1b' && s1[1] == '[' && s1[2] == '2');
        assert(s2[0] == '[' && s3[0] == '2' && s4[0] == 'K');
        assert(s4.skip(1) =~= rest);
        assert(row_after(s, row - m) == row_after(s1, row - n));
        assert(row_after(s1, row - n) == row_after(s2, row - n));
        assert(row_after(s2, row - n) == row_after(s3, row - n));
        assert(row_after(s3, row - n) == row_after(s4, row - n));
    }
}

/// Painting goes down as many rows as removing climbs: after the footer has taken
/// one blank line and its wrapped rows, removing it returns to the row where
/// painting began.
pub proof fn erase_undoes_draw(w: nat, cols: nat, start: int)
    requires
        cols > 0,
        w / cols + 1 <= usize::MAX,
    ensures
        row_after(erase_text(rows_for(w, cols)), start + 1 + (w / cols) as int) == start,
{
    reveal_strlit("\r\x1b[2K");
    let n = rows_for(w, cols);
    let row = start + n;
    let body = chars::repeat_str(UP_AND_CLEAR@, n);
    let s = CLEAR_ROW@ + body;
    let none = Seq::<char>::empty();
    assert(body =~= body + none);
    lemma_climb(n, none, row);
    let s1 = s.skip(1);
    let s2 = s1.skip(1);
    let s3 = s2.skip(1);
    let s4 = s3.skip(1);
    assert(s[0] == '\r' && s1[0] == '\x1b' && s1[1] == '[' && s1[2] == '2');
    assert(s2[0] == '[' && s3[0] == '2' && s4[0] == 'K');
    assert(s4.skip(1) =~= body);
    assert(row_after(s, row) == row_after(s1, row));
    assert(row_after(s1, row) == row_after(s2, row));
    assert(row_after(s2, row) == row_after(s3, row));
    assert(row_after(s3, row) == row_after(s4, row));
    assert(row_after(s4, row) == row_after(body, row));
}

/// Law: the arrow keys, Home, End, Delete and Shift-Tab are read from their escape
/// sequences, and the parser is then between keys again.
pub proof fn escape_sequences_are_their_keys(intro: u8)
    requires
        intro == 0x5b || intro == 0x4f,
    ensures
        run(ground_state(), seq![0x1bu8, intro, 0x41u8]) == (ground_state(), seq![Key::Up]),
        run(ground_state(), seq![0x1bu8, intro, 0x42u8]) == (ground_state(), seq![Key::Down]),
        run(ground_state(), seq![0x1bu8, intro, 0x43u8]) == (ground_state(), seq![Key::Right]),
        run(ground_state(), seq![0x1bu8, intro, 0x44u8]) == (ground_state(), seq![Key::Left]),
        run(ground_state(), seq![0x1bu8, intro, 0x48u8]) == (ground_state(), seq![Key::Home]),
        run(ground_state(), seq![0x1bu8, intro, 0x46u8]) == (ground_state(), seq![Key::End]),
        run(ground_state(), seq![0x1bu8, intro, 0x5au8]) == (ground_state(), seq![Key::ShiftTab]),
        run(ground_state(), seq![0x1bu8, intro, 0x33u8, 0x7eu8]) == (
            ground_state(),
            seq![Key::Delete],
        ),
        run(ground_state(), seq![0x1bu8, intro, 0x31u8, 0x7eu8]) == (ground_state(), seq![Key::Home]),
        run(ground_state(), seq![0x1bu8, intro, 0x34u8, 0x7eu8]) == (ground_state(), seq![Key::End]),
{
    lemma_short_sequence(intro, 0x41);
    lemma_short_sequence(intro, 0x42);
    lemma_short_sequence(intro, 0x43);
    lemma_short_sequence(intro, 0x44);
    lemma_short_sequence(intro, 0x48);
    lemma_short_sequence(intro, 0x46);
    lemma_short_sequence(intro, 0x5a);
    lemma_numbered_sequence(intro, 0x33);
    lemma_numbered_sequence(intro, 0x31);
    lemma_numbered_sequence(intro, 0x34);
    assert(seq![intro, 0x33u8, 0x7eu8].subrange(1, 2) =~= seq![0x33u8]);
    assert(seq![intro, 0x31u8, 0x7eu8].subrange(1, 2) =~= seq![0x31u8]);
    assert(seq![intro, 0x34u8, 0x7eu8].subrange(1, 2) =~= seq![0x34u8]);
}

proof fn lemma_opened(intro: u8)
    requires
        intro == 0x5b || intro == 0x4f,
    ensures
        run(ground_state(), seq![0x1bu8, intro]) == (
            ParserState { esc: Some(seq![intro]), utf8: seq![], need: 0 },
            Seq::<Key>::empty(),
        ),
{
    let b = seq![0x1bu8, intro];
    let a = b.drop_last();
    assert(a =~= seq![0x1bu8]);
    assert(a.drop_last() =~= Seq::<u8>::empty());
    assert(run(ground_state(), a.drop_last()) == (ground_state(), Seq::<Key>::empty()));
    assert(run(ground_state(), a).0 == (ParserState { esc: Some(seq![]), utf8: seq![], need: 0 }));
    assert(run(ground_state(), a).1 =~= Seq::<Key>::empty());
    assert(b.last() == intro);
    assert(Seq::<u8>::empty().push(intro) =~= seq![intro]);
    assert(run(ground_state(), b).1 =~= Seq::<Key>::empty());
}

proof fn lemma_short_sequence(intro: u8, last: u8)
    requires
        intro == 0x5b || intro == 0x4f,
        0x40 <= last <= 0x7e,
    ensures
        run(ground_state(), seq![0x1bu8, intro, last]) == (
            ground_state(),
            csi_key(seq![intro, last]),
        ),
{
    lemma_opened(intro);
    let c = seq![0x1bu8, intro, last];
    assert(c.drop_last() =~= seq![0x1bu8, intro]);
    assert(c.last() == last);
    assert(seq![intro].push(last) =~= seq![intro, last]);
    assert(run(ground_state(), c).1 =~= csi_key(seq![intro, last]));
}

proof fn lemma_numbered_sequence(intro: u8, number: u8)
    requires
        intro == 0x5b || intro == 0x4f,
        0x30 <= number <= 0x39,
    ensures
        run(ground_state(), seq![0x1bu8, intro, number, 0x7eu8]) == (
            ground_state(),
            csi_key(seq![intro, number, 0x7eu8]),
        ),
{
    lemma_opened(intro);
    let c = seq![0x1bu8, intro, number];
    assert(c.drop_last() =~= seq![0x1bu8, intro]);
    assert(c.last() == number);
    assert(seq![intro].push(number) =~= seq![intro, number]);
    assert(run(ground_state(), c).1 =~= Seq::<Key>::empty());
    let d = seq![0x1bu8, intro, number, 0x7eu8];
    assert(d.drop_last() =~= c);
    assert(d.last() == 0x7eu8);
    assert(seq![intro, number].push(0x7eu8) =~= seq![intro, number, 0x7eu8]);
    assert(run(ground_state(), d).1 =~= csi_key(seq![intro, number, 0x7eu8]));
}

/// Law: Return, the two backspaces, Tab and the control keys are read from their one byte;
/// other control bytes are no keys.
pub proof fn control_bytes_are_their_keys(b: u8)
    ensures
        ({
            let (s, keys) = step(ground_state(), b);
            &&& b == 0x0d || b == 0x0a ==> s == ground_state() && keys == seq![Key::Enter]
            &&& b == 0x7f || b == 0x08 ==> s == ground_state() && keys == seq![Key::Backspace]
            &&& b == 0x01 ==> s == ground_state() && keys == seq![Key::CtrlA]
            &&& b == 0x05 ==> s == ground_state() && keys == seq![Key::CtrlE]
            &&& b == 0x15 ==> s == ground_state() && keys == seq![Key::CtrlU]
            &&& b == 0x17 ==> s == ground_state() && keys == seq![Key::CtrlW]
            &&& b == 0x09 ==> s == ground_state() && keys == seq![Key::Char('\t')]
            &&& b < 0x20 && b != 0x0d && b != 0x0a && b != 0x08 && b != 0x01 && b != 0x05 && b
                != 0x15 && b != 0x17 && b != 0x09 ==> keys.len() == 0
        }),
{
}

/// Law: the cursor keys move the cursor and leave the text alone; one step to the right and
/// one to the left undo each other.
pub proof fn cursor_keys_keep_the_text(l: Line)
    requires
        0 <= l.cursor <= l.text.len(),
    ensures
        edited(l, Key::Home) == (Line { text: l.text, cursor: 0 }),
        edited(l, Key::CtrlA) == (Line { text: l.text, cursor: 0 }),
        edited(l, Key::End) == (Line { text: l.text, cursor: l.text.len() as int }),
        edited(l, Key::CtrlE) == (Line { text: l.text, cursor: l.text.len() as int }),
        l.cursor < l.text.len() ==> edited(l, Key::Right) == (Line {
            text: l.text,
            cursor: l.cursor + 1,
        }) && edited(edited(l, Key::Right), Key::Left) == l,
        l.cursor > 0 ==> edited(edited(l, Key::Left), Key::Right) == l,
        edited(l, Key::Up) == l,
        edited(l, Key::Down) == l,
{
}

/// Law: the keys that remove text remove what they say: the character before the cursor or
/// at it, all that stands before it, or the word before it with the spaces behind the word.
pub proof fn removing_keys_remove_what_they_say(
    a: Seq<char>,
    c: char,
    b: Seq<char>,
    word: Seq<char>,
    spaces: Seq<char>,
)
    requires
        a.len() == 0 || chars::is_ws(a.last()),
        word.len() > 0,
        forall|i: int| 0 <= i < word.len() ==> !chars::is_ws(#[trigger] word[i]),
        forall|i: int| 0 <= i < spaces.len() ==> chars::is_ws(#[trigger] spaces[i]),
    ensures
        edited(Line { text: a + seq![c] + b, cursor: (a.len() + 1) as int }, Key::Backspace) == (Line {
            text: a + b,
            cursor: a.len() as int,
        }),
        edited(Line { text: a + seq![c] + b, cursor: a.len() as int }, Key::Delete) == (Line {
            text: a + b,
            cursor: a.len() as int,
        }),
        edited(Line { text: a + b, cursor: a.len() as int }, Key::CtrlU) == (Line {
            text: b,
            cursor: 0,
        }),
        edited(
            Line {
                text: a + word + spaces + b,
                cursor: (a.len() + word.len() + spaces.len()) as int,
            },
            Key::CtrlW,
        ) == (Line { text: a + b, cursor: a.len() as int }),
        edited(Line { text: a + b, cursor: a.len() as int }, Key::Enter) == (Line {
            text: seq![],
            cursor: 0,
        }),
{
    let t = a + seq![c] + b;
    let n = a.len() as int;
    assert(t.take(n + 1).drop_last() =~= a);
    assert(t.skip(n + 1) =~= b);
    assert(t.take(n) =~= a);
    assert(t.skip(n).skip(1) =~= b);
    assert((a + b).skip(n) =~= b);
    let w = a + word + spaces + b;
    let k = (a.len() + word.len() + spaces.len()) as int;
    let before = w.take(k);
    assert(before =~= a + word + spaces);
    assert(w.skip(k) =~= b);
    let m = (a.len() + word.len()) as int;
    assert(before[m - 1] == word.last());
    assert forall|j: int| m <= j < before.len() implies chars::is_ws(#[trigger] before[j]) by {
        assert(before[j] == spaces[j - m]);
    }
    chars::lemma_trim_end(before, m);
    assert(before.take(m) =~= a + word);
    lemma_drop_word(a, word);
}

proof fn lemma_drop_word(a: Seq<char>, word: Seq<char>)
    requires
        a.len() == 0 || chars::is_ws(a.last()),
        forall|i: int| 0 <= i < word.len() ==> !chars::is_ws(#[trigger] word[i]),
    ensures
        drop_word(a + word) == a,
    decreases word.len(),
{
    if word.len() == 0 {
        assert(a + word =~= a);
    } else {
        assert((a + word).last() == word[word.len() - 1]);
        assert((a + word).drop_last() =~= a + word.drop_last());
        lemma_drop_word(a, word.drop_last());
    }
}

/// Law: Return submits a line that says something, as it is; Shift-Tab goes to the next
/// worker; nothing else acts.
pub proof fn only_return_submits(a: Action, l: Line, key: Key)
    requires
        a.answers(l, key),
    ensures
        a matches Action::Submit(s) ==> key is Enter && s@ == l.text && !chars::blank(l.text),
        key is Enter && !chars::blank(l.text) ==> a is Submit,
        a is CycleWorker <==> key is ShiftTab,
{
}

} // verus!
