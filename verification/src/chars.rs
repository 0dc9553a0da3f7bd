//! Mathematical model of text: what the string operations of the library mean,
//! stated over sequences of characters.
use vstd::prelude::*;
use vstd::utf8::{encode_scalar, encode_utf8};

verus! {

/// Characters with the Unicode `White_Space` property.
pub open spec fn is_ws(c: char) -> bool {
    let n = c as u32;
    ||| 9 <= n <= 13
    ||| n == 0x20
    ||| n == 0x85
    ||| n == 0xa0
    ||| n == 0x1680
    ||| 0x2000 <= n <= 0x200a
    ||| n == 0x2028
    ||| n == 0x2029
    ||| n == 0x202f
    ||| n == 0x205f
    ||| n == 0x3000
}

pub open spec fn is_digit(c: char) -> bool {
    '0' <= c && c <= '9'
}

pub open spec fn is_ascii_alpha(c: char) -> bool {
    ('a' <= c && c <= 'z') || ('A' <= c && c <= 'Z')
}

/// ASCII lower case of one character.
pub open spec fn lower_char(c: char) -> char {
    if 'A' <= c && c <= 'Z' {
        ((c as u32) + 32) as char
    } else {
        c
    }
}

/// ASCII lower case of a text.
pub open spec fn lower(s: Seq<char>) -> Seq<char> {
    Seq::new(s.len(), |i: int| lower_char(s[i]))
}

/// Length in bytes of the UTF-8 encoding.
pub open spec fn byte_len(s: Seq<char>) -> nat {
    encode_utf8(s).len()
}

/// Bytes that `c` takes in UTF-8.
pub open spec fn char_len(c: char) -> nat {
    let n = c as u32;
    if n < 0x80 {
        1
    } else if n < 0x800 {
        2
    } else if n < 0x10000 {
        3
    } else {
        4
    }
}

/// `s` without its leading whitespace.
pub open spec fn trim_start(s: Seq<char>) -> Seq<char>
    decreases s.len(),
{
    if s.len() > 0 && is_ws(s[0]) {
        trim_start(s.skip(1))
    } else {
        s
    }
}

/// `s` without its trailing whitespace.
pub open spec fn trim_end(s: Seq<char>) -> Seq<char>
    decreases s.len(),
{
    if s.len() > 0 && is_ws(s.last()) {
        trim_end(s.drop_last())
    } else {
        s
    }
}

/// `s` without its outer whitespace.
pub open spec fn trim(s: Seq<char>) -> Seq<char> {
    trim_end(trim_start(s))
}

/// `s` without its leading occurrences of `c`.
pub open spec fn trim_start_char(s: Seq<char>, c: char) -> Seq<char>
    decreases s.len(),
{
    if s.len() > 0 && s[0] == c {
        trim_start_char(s.skip(1), c)
    } else {
        s
    }
}

/// `s` without its trailing occurrences of `c`.
pub open spec fn trim_end_char(s: Seq<char>, c: char) -> Seq<char>
    decreases s.len(),
{
    if s.len() > 0 && s.last() == c {
        trim_end_char(s.drop_last(), c)
    } else {
        s
    }
}

/// Whether every character is whitespace.
pub open spec fn blank(s: Seq<char>) -> bool {
    forall|i: int| 0 <= i < s.len() ==> is_ws(#[trigger] s[i])
}

/// How many characters stand before the first one that satisfies `f`
/// (all of them when none does).
pub open spec fn find(s: Seq<char>, f: spec_fn(char) -> bool) -> int
    decreases s.len(),
{
    if s.len() == 0 || f(s[0]) {
        0
    } else {
        1 + find(s.skip(1), f)
    }
}

/// The predicate that holds of `c` alone.
pub open spec fn is_char(c: char) -> spec_fn(char) -> bool {
    |x: char| x == c
}

/// How many characters stand before the first `c`.
pub open spec fn find_char(s: Seq<char>, c: char) -> int {
    find(s, is_char(c))
}

/// Whether `p` stands in `s` at `i`.
pub open spec fn matches_at(s: Seq<char>, p: Seq<char>, i: int) -> bool {
    0 <= i && i + p.len() <= s.len() && s.subrange(i, i + p.len()) == p
}

pub open spec fn starts_with(s: Seq<char>, p: Seq<char>) -> bool {
    matches_at(s, p, 0)
}

pub open spec fn ends_with(s: Seq<char>, p: Seq<char>) -> bool {
    matches_at(s, p, s.len() - p.len())
}

/// Where `p` first stands in `s`.
pub open spec fn find_str(s: Seq<char>, p: Seq<char>) -> Option<int>
    decreases s.len(),
{
    if starts_with(s, p) {
        Some(0int)
    } else if s.len() == 0 {
        None
    } else {
        match find_str(s.skip(1), p) {
            Some(i) => Some(i + 1),
            None => None,
        }
    }
}

pub open spec fn contains_str(s: Seq<char>, p: Seq<char>) -> bool {
    exists|i: int| matches_at(s, p, i)
}

/// `s` on one line: a space for each line break.
pub open spec fn on_one_line(s: Seq<char>) -> Seq<char> {
    Seq::new(
        s.len(),
        |i: int|
            if s[i] == '\n' || s[i] == '\r' {
                ' '
            } else {
                s[i]
            },
    )
}

/// The pieces of `s` between occurrences of `c`; there is always at least one.
pub open spec fn split(s: Seq<char>, c: char) -> Seq<Seq<char>>
    decreases s.len(),
{
    let i = find_char(s, c);
    if 0 <= i < s.len() {
        seq![s.take(i)] + split(s.skip(i + 1), c)
    } else {
        seq![s]
    }
}

/// One line without the carriage return before its line feed.
pub open spec fn chomp_cr(s: Seq<char>) -> Seq<char> {
    if s.len() > 0 && s.last() == '\r' {
        s.drop_last()
    } else {
        s
    }
}

/// The lines of `s`: a line feed ends a line, a carriage return just before it
/// belongs to the line ending, and a final empty line is not counted.
pub open spec fn lines(s: Seq<char>) -> Seq<Seq<char>>
    decreases s.len(),
{
    if s.len() == 0 {
        seq![]
    } else {
        let i = find_char(s, '\n');
        if 0 <= i < s.len() {
            seq![chomp_cr(s.take(i))] + lines(s.skip(i + 1))
        } else {
            seq![s]
        }
    }
}

/// The maximal runs of non-whitespace characters.
pub open spec fn words(s: Seq<char>) -> Seq<Seq<char>>
    decreases s.len(),
{
    let t = trim_start(s);
    if t.len() == 0 || t.len() > s.len() {
        seq![]
    } else {
        let i = find(t, |c: char| is_ws(c));
        if i <= 0 || i > t.len() {
            seq![]
        } else {
            seq![t.take(i)] + words(t.skip(i))
        }
    }
}

/// The parts one after another.
pub open spec fn concat(parts: Seq<Seq<char>>) -> Seq<char>
    decreases parts.len(),
{
    if parts.len() == 0 {
        seq![]
    } else {
        concat(parts.drop_last()) + parts.last()
    }
}

/// The parts one after another, with `sep` between neighbours.
pub open spec fn join(parts: Seq<Seq<char>>, sep: Seq<char>) -> Seq<char>
    decreases parts.len(),
{
    if parts.len() == 0 {
        seq![]
    } else if parts.len() == 1 {
        parts[0]
    } else {
        join(parts.drop_last(), sep) + sep + parts.last()
    }
}

/// `c` repeated `n` times.
pub open spec fn repeat(c: char, n: nat) -> Seq<char> {
    Seq::new(n, |i: int| c)
}

/// `p` repeated `n` times.
pub open spec fn repeat_str(p: Seq<char>, n: nat) -> Seq<char>
    decreases n,
{
    if n == 0 {
        seq![]
    } else {
        repeat_str(p, (n - 1) as nat) + p
    }
}

/// The decimal digit of value `d`.
pub open spec fn digit(d: nat) -> char {
    (48 + d) as char
}

/// `n` in decimal.
pub open spec fn dec(n: nat) -> Seq<char>
    decreases n,
{
    if n < 10 {
        seq![digit(n)]
    } else {
        dec(n / 10).push(digit(n % 10))
    }
}

/// `n` in decimal, with a minus sign when negative.
pub open spec fn dec_int(n: int) -> Seq<char> {
    if n < 0 {
        seq!['-'] + dec((-n) as nat)
    } else {
        dec(n as nat)
    }
}

/// The lower-case hexadecimal digit of value `d`.
pub open spec fn hex_digit(d: nat) -> char {
    if d < 10 {
        (48 + d) as char
    } else {
        (87 + d) as char
    }
}

/// `n` in lower-case hexadecimal.
pub open spec fn hex(n: nat) -> Seq<char>
    decreases n,
{
    if n < 16 {
        seq![hex_digit(n)]
    } else {
        hex(n / 16).push(hex_digit(n % 16))
    }
}

/// `s` with zeros in front, up to `w` characters.
pub open spec fn zero_pad(s: Seq<char>, w: nat) -> Seq<char> {
    if s.len() < w {
        repeat('0', (w - s.len()) as nat) + s
    } else {
        s
    }
}

/// The value of a run of decimal digits.
pub open spec fn value(s: Seq<char>) -> nat
    decreases s.len(),
{
    if s.len() == 0 {
        0
    } else {
        value(s.drop_last()) * 10 + ((s.last() as u32) - 48) as nat
    }
}

/// A non-empty run of decimal digits.
pub open spec fn all_digits(s: Seq<char>) -> bool {
    s.len() > 0 && forall|i: int| 0 <= i < s.len() ==> is_digit(#[trigger] s[i])
}

/// `s` without one leading plus sign.
pub open spec fn strip_plus(s: Seq<char>) -> Seq<char> {
    if s.len() > 0 && s[0] == '+' {
        s.skip(1)
    } else {
        s
    }
}

/// The unsigned number written in `s`, if it is one and is at most `max`: digits,
/// with at most one plus sign in front.
pub open spec fn parse_nat(s: Seq<char>, max: nat) -> Option<nat> {
    let t = strip_plus(s);
    if all_digits(t) && value(t) <= max {
        Some(value(t))
    } else {
        None
    }
}

/// The signed number written in `s`, if it fits in 64 bits.
pub open spec fn parse_int(s: Seq<char>) -> Option<int> {
    if s.len() > 0 && s[0] == '-' {
        if all_digits(s.skip(1)) && value(s.skip(1)) <= 0x8000_0000_0000_0000nat {
            Some(-(value(s.skip(1)) as int))
        } else {
            None
        }
    } else {
        match parse_nat(s, 0x7fff_ffff_ffff_ffffnat) {
            Some(n) => Some(n as int),
            None => None,
        }
    }
}

/// A character is a Unicode scalar value.
pub proof fn lemma_char_range(c: char)
    ensures
        0 <= c as int <= 0x10ffff,
        !(0xd800 <= (c as int) <= 0xdfff),
{
}

/// The first character takes its own bytes, the rest take theirs.
pub proof fn lemma_byte_len_cons(s: Seq<char>)
    requires
        s.len() > 0,
    ensures
        byte_len(s) == char_len(s[0]) + byte_len(s.skip(1)),
{
    lemma_char_range(s[0]);
    vstd::utf8::encode_utf8_first_scalar(s);
    assert(s.skip(1) =~= s.drop_first());
    assert(encode_utf8(s) == encode_scalar(s[0] as u32) + encode_utf8(s.drop_first()));
}

/// A single character takes its own bytes.
pub proof fn lemma_byte_len_one(c: char)
    ensures
        byte_len(seq![c]) == char_len(c),
{
    lemma_byte_len_cons(seq![c]);
    assert(seq![c].skip(1) =~= Seq::<char>::empty());
    assert(encode_utf8(Seq::<char>::empty()).len() == 0);
}

/// Bytes add up over a concatenation.
pub proof fn lemma_byte_len_concat(s: Seq<char>, t: Seq<char>)
    ensures
        byte_len(s + t) == byte_len(s) + byte_len(t),
    decreases s.len(),
{
    if s.len() == 0 {
        assert(s + t =~= t);
        assert(byte_len(s) == 0);
    } else {
        lemma_byte_len_cons(s);
        lemma_byte_len_cons(s + t);
        assert((s + t).skip(1) =~= s.skip(1) + t);
        lemma_byte_len_concat(s.skip(1), t);
    }
}

pub proof fn lemma_find(s: Seq<char>, f: spec_fn(char) -> bool, i: int)
    requires
        0 <= i <= s.len(),
        forall|j: int| 0 <= j < i ==> !f(#[trigger] s[j]),
        i < s.len() ==> f(s[i]),
    ensures
        find(s, f) == i,
    decreases s.len(),
{
    if s.len() > 0 && i > 0 {
        assert(!f(s[0]));
        assert forall|j: int| 0 <= j < i - 1 implies !f(#[trigger] s.skip(1)[j]) by {
            assert(s.skip(1)[j] == s[j + 1]);
        }
        lemma_find(s.skip(1), f, i - 1);
    }
}

pub proof fn lemma_find_props(s: Seq<char>, f: spec_fn(char) -> bool)
    ensures
        0 <= find(s, f) <= s.len(),
        forall|j: int| 0 <= j < find(s, f) ==> !f(#[trigger] s[j]),
        find(s, f) < s.len() ==> f(s[find(s, f)]),
    decreases s.len(),
{
    if s.len() > 0 && !f(s[0]) {
        lemma_find_props(s.skip(1), f);
        assert forall|j: int| 0 <= j < find(s, f) implies !f(#[trigger] s[j]) by {
            if j > 0 {
                assert(s.skip(1)[j - 1] == s[j]);
            }
        }
    }
}

pub proof fn lemma_trim_start(s: Seq<char>, i: int)
    requires
        0 <= i <= s.len(),
        forall|j: int| 0 <= j < i ==> is_ws(#[trigger] s[j]),
        i < s.len() ==> !is_ws(s[i]),
    ensures
        trim_start(s) == s.skip(i),
    decreases i,
{
    if i > 0 {
        assert(is_ws(s[0]));
        assert forall|j: int| 0 <= j < i - 1 implies is_ws(#[trigger] s.skip(1)[j]) by {
            assert(s.skip(1)[j] == s[j + 1]);
        }
        lemma_trim_start(s.skip(1), i - 1);
        assert(s.skip(1).skip(i - 1) =~= s.skip(i));
    } else {
        assert(s.skip(0) =~= s);
    }
}

pub proof fn lemma_trim_end(s: Seq<char>, i: int)
    requires
        0 <= i <= s.len(),
        forall|j: int| i <= j < s.len() ==> is_ws(#[trigger] s[j]),
        i > 0 ==> !is_ws(s[i - 1]),
    ensures
        trim_end(s) == s.take(i),
    decreases s.len() - i,
{
    if i < s.len() {
        assert(is_ws(s.last()));
        let t = s.drop_last();
        assert forall|j: int| i <= j < t.len() implies is_ws(#[trigger] t[j]) by {
            assert(t[j] == s[j]);
        }
        lemma_trim_end(t, i);
        assert(t.take(i) =~= s.take(i));
    } else {
        assert(s.take(i) =~= s);
    }
}

/// What `trim_start` keeps is a suffix that does not begin with whitespace.
pub proof fn lemma_trim_start_props(s: Seq<char>)
    ensures
        trim_start(s).len() <= s.len(),
        trim_start(s) == s.skip(s.len() - trim_start(s).len()),
        trim_start(s).len() > 0 ==> !is_ws(trim_start(s)[0]),
        forall|j: int| 0 <= j < s.len() - trim_start(s).len() ==> is_ws(#[trigger] s[j]),
    decreases s.len(),
{
    if s.len() > 0 && is_ws(s[0]) {
        lemma_trim_start_props(s.skip(1));
        let t = trim_start(s);
        assert(s.skip(1).skip(s.len() - 1 - t.len()) =~= s.skip(s.len() - t.len()));
        assert forall|j: int| 0 <= j < s.len() - t.len() implies is_ws(#[trigger] s[j]) by {
            if j > 0 {
                assert(s.skip(1)[j - 1] == s[j]);
            }
        }
    } else {
        assert(s.skip(0) =~= s);
    }
}

pub proof fn lemma_trim_end_props(s: Seq<char>)
    ensures
        trim_end(s).len() <= s.len(),
        trim_end(s) == s.take(trim_end(s).len() as int),
        trim_end(s).len() > 0 ==> !is_ws(trim_end(s).last()),
        forall|j: int| trim_end(s).len() <= j < s.len() ==> is_ws(#[trigger] s[j]),
    decreases s.len(),
{
    if s.len() > 0 && is_ws(s.last()) {
        let t = s.drop_last();
        lemma_trim_end_props(t);
        let r = trim_end(s);
        assert(t.take(r.len() as int) =~= s.take(r.len() as int));
        assert forall|j: int| r.len() <= j < s.len() implies is_ws(#[trigger] s[j]) by {
            if j < t.len() {
                assert(t[j] == s[j]);
            }
        }
    } else {
        assert(s.take(s.len() as int) =~= s);
    }
}

/// A text is blank exactly when nothing is left of it after trimming.
pub proof fn lemma_blank_trim(s: Seq<char>)
    ensures
        blank(s) <==> trim(s).len() == 0,
        blank(s) <==> trim_start(s).len() == 0,
        blank(s) <==> trim_end(s).len() == 0,
{
    lemma_trim_start_props(s);
    lemma_trim_end_props(s);
    let t = trim_start(s);
    lemma_trim_end_props(t);
    if t.len() > 0 {
        assert(t[0] == s[s.len() - t.len()]);
        assert(!is_ws(s[s.len() - t.len()]));
        if trim_end(t).len() == 0 {
            assert(is_ws(t[0]));
        }
    }
    if trim_end(s).len() > 0 {
        assert(trim_end(s).last() == s[trim_end(s).len() - 1]);
    }
}

pub proof fn lemma_dec_digits(n: nat)
    ensures
        all_digits(dec(n)),
        value(dec(n)) == n,
        n > 0 ==> dec(n)[0] != '0',
        dec(n).len() > 1 ==> dec(n)[0] != '0',
    decreases n,
{
    if n < 10 {
        assert(dec(n) =~= seq![digit(n)]);
        assert(dec(n).drop_last() =~= Seq::<char>::empty());
        assert(value(dec(n).drop_last()) == 0);
    } else {
        lemma_dec_digits(n / 10);
        let d = dec(n);
        assert(d.drop_last() =~= dec(n / 10));
        assert forall|i: int| 0 <= i < d.len() implies is_digit(#[trigger] d[i]) by {
            if i < d.len() - 1 {
                assert(d[i] == dec(n / 10)[i]);
            }
        }
        assert(d[0] == dec(n / 10)[0]);
    }
}

/// Reading a number back from its decimal form gives the number.
pub proof fn lemma_parse_dec(n: nat, max: nat)
    requires
        n <= max,
    ensures
        parse_nat(dec(n), max) == Some(n),
{
    lemma_dec_digits(n);
    assert(is_digit(dec(n)[0]));
    assert(strip_plus(dec(n)) == dec(n));
}

/// A longer run of digits is worth at least as much as its beginning.
pub proof fn lemma_value_prefix(s: Seq<char>, i: int)
    requires
        0 <= i <= s.len(),
        forall|j: int| 0 <= j < s.len() ==> is_digit(#[trigger] s[j]),
    ensures
        value(s.take(i)) <= value(s),
    decreases s.len() - i,
{
    if i < s.len() {
        let t = s.drop_last();
        assert forall|j: int| 0 <= j < t.len() implies is_digit(#[trigger] t[j]) by {
            assert(t[j] == s[j]);
        }
        lemma_value_prefix(t, i);
        assert(t.take(i) =~= s.take(i));
        assert(is_digit(s.last()));
    } else {
        assert(s.take(i) =~= s);
    }
}

pub proof fn lemma_concat_push(parts: Seq<Seq<char>>, p: Seq<char>)
    ensures
        concat(parts.push(p)) == concat(parts) + p,
{
    assert(parts.push(p).drop_last() =~= parts);
}

pub proof fn lemma_concat_one(p: Seq<char>)
    ensures
        concat(seq![p]) == p,
{
    assert(seq![p].drop_last() =~= Seq::<Seq<char>>::empty());
    assert(concat(Seq::<Seq<char>>::empty()) =~= Seq::<char>::empty());
    assert(Seq::<char>::empty() + p =~= p);
}

pub proof fn lemma_join_push(parts: Seq<Seq<char>>, p: Seq<char>, sep: Seq<char>)
    ensures
        parts.len() == 0 ==> join(parts.push(p), sep) == p,
        parts.len() > 0 ==> join(parts.push(p), sep) == join(parts, sep) + sep + p,
{
    assert(parts.push(p).drop_last() =~= parts);
}

pub proof fn lemma_find_str(s: Seq<char>, p: Seq<char>, i: int)
    requires
        matches_at(s, p, i),
        forall|j: int| 0 <= j < i ==> !matches_at(s, p, j),
    ensures
        find_str(s, p) == Some(i),
    decreases i,
{
    if i > 0 {
        assert(!matches_at(s, p, 0));
        let t = s.skip(1);
        assert(t.subrange(i - 1, i - 1 + p.len()) =~= s.subrange(i, i + p.len()));
        assert forall|j: int| 0 <= j < i - 1 implies !matches_at(t, p, j) by {
            if matches_at(t, p, j) {
                assert(t.subrange(j, j + p.len()) =~= s.subrange(j + 1, j + 1 + p.len()));
                assert(matches_at(s, p, j + 1));
            }
        }
        lemma_find_str(t, p, i - 1);
    }
}

/// A text without `c` is one piece.
pub proof fn lemma_split_whole(s: Seq<char>, c: char)
    requires
        !s.contains(c),
    ensures
        split(s, c) == seq![s],
{
    lemma_find(s, is_char(c), s.len() as int);
}

/// The first piece ends at the first `c`.
pub proof fn lemma_split_cons(a: Seq<char>, c: char, rest: Seq<char>)
    requires
        !a.contains(c),
    ensures
        split(a + seq![c] + rest, c) == seq![a] + split(rest, c),
{
    let s = a + seq![c] + rest;
    assert forall|j: int| 0 <= j < a.len() implies !is_char(c)(#[trigger] s[j]) by {
        assert(s[j] == a[j]);
    }
    lemma_find(s, is_char(c), a.len() as int);
    assert(s.take(a.len() as int) =~= a);
    assert(s.skip(a.len() as int + 1) =~= rest);
}

/// A few digits make a small number.
pub proof fn lemma_value_small(s: Seq<char>)
    requires
        s.len() <= 4,
        forall|j: int| 0 <= j < s.len() ==> is_digit(#[trigger] s[j]),
    ensures
        s.len() <= 1 ==> value(s) <= 9,
        s.len() <= 2 ==> value(s) <= 99,
        s.len() <= 3 ==> value(s) <= 999,
        value(s) <= 9999,
    decreases s.len(),
{
    if s.len() > 0 {
        assert(is_digit(s[s.len() - 1]));
        lemma_value_small(s.drop_last());
    }
}

pub proof fn lemma_find_str_none(s: Seq<char>, p: Seq<char>)
    requires
        forall|j: int| 0 <= j <= s.len() ==> !matches_at(s, p, j),
    ensures
        find_str(s, p) is None,
    decreases s.len(),
{
    assert(!matches_at(s, p, 0));
    if s.len() > 0 {
        let t = s.skip(1);
        assert forall|j: int| 0 <= j <= t.len() implies !matches_at(t, p, j) by {
            if matches_at(t, p, j) {
                assert(t.subrange(j, j + p.len()) =~= s.subrange(j + 1, j + 1 + p.len()));
                assert(matches_at(s, p, j + 1));
            }
        }
        lemma_find_str_none(t, p);
    }
}

/// What does not contain some character of `p` does not contain `p`.
pub proof fn lemma_lacks(s: Seq<char>, p: Seq<char>, k: int)
    requires
        0 <= k < p.len(),
        !s.contains(p[k]),
    ensures
        !contains_str(s, p),
{
    assert forall|i: int| !matches_at(s, p, i) by {
        if matches_at(s, p, i) {
            assert(s.subrange(i, i + p.len())[k] == s[i + k]);
        }
    }
}

/// An occurrence of `p` does not reach across a character that `p` lacks.
pub proof fn lemma_contains_beside(a: Seq<char>, m: char, b: Seq<char>, p: Seq<char>)
    requires
        !p.contains(m),
        contains_str(a + seq![m] + b, p),
    ensures
        contains_str(a, p) || contains_str(b, p),
{
    let s = a + seq![m] + b;
    let i = choose|i: int| matches_at(s, p, i);
    let n = a.len() as int;
    if i <= n && n < i + p.len() {
        assert(p[n - i] == s.subrange(i, i + p.len())[n - i]);
        assert(s[n] == m);
        assert(false);
    }
    if i + p.len() <= n {
        assert(a.subrange(i, i + p.len()) =~= s.subrange(i, i + p.len()));
        assert(matches_at(a, p, i));
    } else {
        let j = i - n - 1;
        assert(b.subrange(j, j + p.len()) =~= s.subrange(i, i + p.len()));
        assert(matches_at(b, p, j));
    }
}

/// A space before or after a text adds no occurrence of a `p` that does not begin
/// or end with one.
pub proof fn lemma_contains_spaced(s: Seq<char>, p: Seq<char>)
    requires
        p.len() > 0,
        p[0] != ' ',
        p.last() != ' ',
    ensures
        contains_str(seq![' '] + s, p) ==> contains_str(s, p),
        contains_str(s + seq![' '], p) ==> contains_str(s, p),
{
    let t = seq![' '] + s;
    if contains_str(t, p) {
        let i = choose|i: int| matches_at(t, p, i);
        assert(p[0] == t.subrange(i, i + p.len())[0]);
        assert(s.subrange(i - 1, i - 1 + p.len()) =~= t.subrange(i, i + p.len()));
        assert(matches_at(s, p, i - 1));
    }
    let u = s + seq![' '];
    if contains_str(u, p) {
        let i = choose|i: int| matches_at(u, p, i);
        assert(p.last() == u.subrange(i, i + p.len())[p.len() - 1]);
        assert(s.subrange(i, i + p.len()) =~= u.subrange(i, i + p.len()));
        assert(matches_at(s, p, i));
    }
}

/// Whatever a part of a text contains, the text contains.
pub proof fn lemma_contains_part(a: Seq<char>, s: Seq<char>, b: Seq<char>, p: Seq<char>)
    requires
        contains_str(s, p),
    ensures
        contains_str(a + s + b, p),
{
    let i = choose|i: int| matches_at(s, p, i);
    let t = a + s + b;
    let j = a.len() + i;
    assert(t.subrange(j, j + p.len()) =~= s.subrange(i, i + p.len()));
    assert(matches_at(t, p, j));
}

pub proof fn lemma_find_str_props(s: Seq<char>, p: Seq<char>)
    ensures
        find_str(s, p) matches Some(i) ==> matches_at(s, p, i) && forall|j: int|
            0 <= j < i ==> !matches_at(s, p, j),
        find_str(s, p) is None ==> !contains_str(s, p),
    decreases s.len(),
{
    if starts_with(s, p) {
    } else if s.len() == 0 {
        assert forall|j: int| !matches_at(s, p, j) by {
            if matches_at(s, p, j) {
                assert(j == 0);
            }
        }
    } else {
        let t = s.skip(1);
        lemma_find_str_props(t, p);
        assert forall|j: int| #[trigger] matches_at(s, p, j) && j > 0 implies matches_at(t, p, j - 1) by {
            assert(t.subrange(j - 1, j - 1 + p.len()) =~= s.subrange(j, j + p.len()));
        }
        match find_str(t, p) {
            Some(i) => {
                assert(t.subrange(i, i + p.len()) =~= s.subrange(i + 1, i + 1 + p.len()));
                assert forall|j: int| 0 <= j < i + 1 implies !matches_at(s, p, j) by {
                    if matches_at(s, p, j) {
                        if j > 0 {
                            assert(matches_at(t, p, j - 1));
                        }
                    }
                }
            },
            None => {
                assert forall|j: int| !matches_at(s, p, j) by {
                    if matches_at(s, p, j) {
                        if j > 0 {
                            assert(matches_at(t, p, j - 1));
                        }
                    }
                }
            },
        }
    }
}

/// A word in front, with nothing or whitespace behind it, is the first word.
pub proof fn lemma_words_cons(w: Seq<char>, rest: Seq<char>)
    requires
        w.len() > 0,
        forall|i: int| 0 <= i < w.len() ==> !is_ws(#[trigger] w[i]),
        rest.len() > 0 ==> is_ws(rest[0]),
    ensures
        words(w + rest) == seq![w] + words(rest),
{
    let s = w + rest;
    assert(s[0] == w[0]);
    assert(trim_start(s) == s);
    assert forall|j: int| 0 <= j < w.len() implies !is_ws(#[trigger] s[j]) by {
        assert(s[j] == w[j]);
    }
    if rest.len() > 0 {
        assert(s[w.len() as int] == rest[0]);
    }
    lemma_find(s, |c: char| is_ws(c), w.len() as int);
    assert(s.take(w.len() as int) =~= w);
    assert(s.skip(w.len() as int) =~= rest);
}

/// Whitespace in front adds no word.
pub proof fn lemma_words_space(c: char, rest: Seq<char>)
    requires
        is_ws(c),
    ensures
        words(seq![c] + rest) == words(rest),
{
    let s = seq![c] + rest;
    assert(s.skip(1) =~= rest);
    assert(trim_start(s) == trim_start(rest));
    lemma_trim_start_props(rest);
}

pub proof fn lemma_words_empty()
    ensures
        words(Seq::<char>::empty()) == Seq::<Seq<char>>::empty(),
{
}

/// A text holds each of its parts.
pub proof fn lemma_holds_part(a: Seq<char>, p: Seq<char>, b: Seq<char>)
    ensures
        contains_str(a + p + b, p),
        contains_str(a + p, p),
        contains_str(p + b, p),
{
    let n = a.len() as int;
    assert((a + p + b).subrange(n, n + p.len()) =~= p);
    assert(matches_at(a + p + b, p, n));
    assert((a + p).subrange(n, n + p.len()) =~= p);
    assert(matches_at(a + p, p, n));
    assert((p + b).subrange(0, p.len() as int) =~= p);
    assert(matches_at(p + b, p, 0));
}

/// What a part holds, the whole holds.
pub proof fn lemma_contains_within(s: Seq<char>, p: Seq<char>, q: Seq<char>)
    requires
        contains_str(s, p),
        contains_str(p, q),
    ensures
        contains_str(s, q),
{
    let i = choose|i: int| matches_at(s, p, i);
    let j = choose|j: int| matches_at(p, q, j);
    assert(s.subrange(i + j, i + j + q.len()) =~= q) by {
        assert forall|k: int| 0 <= k < q.len() implies s[i + j + k] == q[k] by {
            assert(s.subrange(i, i + p.len())[j + k] == p[j + k]);
            assert(p.subrange(j, j + q.len())[k] == q[k]);
        }
    }
    assert(matches_at(s, q, i + j));
}

/// Law: capital ASCII letters become their small ones, and every other character is kept;
/// what is lower case stays.
pub proof fn capitals_become_small(s: Seq<char>, i: int)
    requires
        0 <= i < s.len(),
    ensures
        lower(s).len() == s.len(),
        'A' <= s[i] && s[i] <= 'Z' ==> lower(s)[i] as u32 == s[i] as u32 + ('a' as u32 - 'A' as u32),
        !('A' <= s[i] && s[i] <= 'Z') ==> lower(s)[i] == s[i],
        lower(lower(s)) == lower(s),
{
    assert(lower(lower(s)) =~= lower(s));
}

/// Law: whitespace around a text is trimmed, and nothing of the text.
pub proof fn outer_whitespace_is_trimmed(a: Seq<char>, core: Seq<char>, b: Seq<char>)
    requires
        blank(a),
        blank(b),
        core.len() > 0,
        !is_ws(core[0]),
        !is_ws(core.last()),
    ensures
        trim(a + core + b) == core,
        trim_start(a + core + b) == core + b,
        trim_end(a + core + b) == a + core,
        trim(a) == Seq::<char>::empty(),
{
    let s = a + core + b;
    assert forall|j: int| 0 <= j < a.len() implies is_ws(#[trigger] s[j]) by {
        assert(s[j] == a[j]);
    }
    assert(s[a.len() as int] == core[0]);
    lemma_trim_start(s, a.len() as int);
    let t = core + b;
    assert(s.skip(a.len() as int) =~= t);
    assert forall|j: int| core.len() <= j < t.len() implies is_ws(#[trigger] t[j]) by {
        assert(t[j] == b[j - core.len()]);
    }
    assert(t[core.len() - 1] == core.last());
    lemma_trim_end(t, core.len() as int);
    assert(t.take(core.len() as int) =~= core);
    let m = (a.len() + core.len()) as int;
    assert forall|j: int| m <= j < s.len() implies is_ws(#[trigger] s[j]) by {
        assert(s[j] == b[j - m]);
    }
    assert(s[m - 1] == core.last());
    lemma_trim_end(s, m);
    assert(s.take(m) =~= a + core);
    lemma_trim_start(a, a.len() as int);
    assert(a.skip(a.len() as int) =~= Seq::<char>::empty());
}

/// Law: the pieces of a text, joined by what cut them, are the text again; none of them
/// holds it.
pub proof fn pieces_join_to_the_text(s: Seq<char>, c: char, i: int)
    requires
        0 <= i < split(s, c).len(),
    ensures
        join(split(s, c), seq![c]) == s,
        !split(s, c)[i].contains(c),
    decreases s.len(),
{
    let k = find_char(s, c);
    lemma_find_props(s, is_char(c));
    if 0 <= k < s.len() {
        let rest = split(s.skip(k + 1), c);
        assert(rest.len() > 0);
        pieces_join_to_the_text(s.skip(k + 1), c, 0);
        lemma_join_front(s.take(k), rest, seq![c]);
        assert(s =~= s.take(k) + seq![c] + s.skip(k + 1));
        if i > 0 {
            pieces_join_to_the_text(s.skip(k + 1), c, i - 1);
            assert(split(s, c)[i] == rest[i - 1]);
        } else {
            assert(split(s, c)[0] == s.take(k));
            if s.take(k).contains(c) {
                let j = choose|j: int| 0 <= j < s.take(k).len() && s.take(k)[j] == c;
                assert(is_char(c)(s[j]));
            }
        }
    } else {
        assert(split(s, c) =~= seq![s]);
        if s.contains(c) {
            let j = choose|j: int| 0 <= j < s.len() && s[j] == c;
            assert(is_char(c)(s[j]));
        }
    }
}

proof fn lemma_join_front(a: Seq<char>, rest: Seq<Seq<char>>, sep: Seq<char>)
    requires
        rest.len() > 0,
    ensures
        join(seq![a] + rest, sep) == a + sep + join(rest, sep),
    decreases rest.len(),
{
    let all = seq![a] + rest;
    if rest.len() == 1 {
        assert(all.drop_last() =~= seq![a]);
        assert(join(seq![a], sep) == a);
    } else {
        assert(all.drop_last() =~= seq![a] + rest.drop_last());
        lemma_join_front(a, rest.drop_last(), sep);
        assert(a + sep + join(rest.drop_last(), sep) + sep + rest.last() =~= a + sep + (join(
            rest.drop_last(),
            sep,
        ) + sep + rest.last()));
    }
}

/// Law: a line ends at its line feed, with or without a carriage return before it; a last
/// line needs no end.
pub proof fn lines_end_at_line_feeds(a: Seq<char>, rest: Seq<char>)
    requires
        !a.contains('\n'),
        a.len() == 0 || a.last() != '\r',
    ensures
        lines(a + seq!['\n'] + rest) == seq![a] + lines(rest),
        lines(a + seq!['\r', '\n'] + rest) == seq![a] + lines(rest),
        a.len() > 0 ==> lines(a) == seq![a],
        lines(Seq::<char>::empty()).len() == 0,
{
    lemma_line_cut(a, rest);
    let b = a.push('\r');
    assert(!b.contains('\n')) by {
        if b.contains('\n') {
            let j = choose|j: int| 0 <= j < b.len() && b[j] == '\n';
            assert(a[j] == '\n');
        }
    }
    lemma_line_cut(b, rest);
    assert(b + seq!['\n'] + rest =~= a + seq!['\r', '\n'] + rest);
    assert(b.drop_last() =~= a);
    lemma_find(a, is_char('\n'), a.len() as int);
}

proof fn lemma_line_cut(a: Seq<char>, rest: Seq<char>)
    requires
        !a.contains('\n'),
    ensures
        lines(a + seq!['\n'] + rest) == seq![chomp_cr(a)] + lines(rest),
{
    let s = a + seq!['\n'] + rest;
    let n = a.len() as int;
    assert forall|j: int| 0 <= j < n implies !is_char('\n')(#[trigger] s[j]) by {
        assert(s[j] == a[j]);
    }
    assert(is_char('\n')(s[n]));
    lemma_find(s, is_char('\n'), n);
    assert(s.take(n) =~= a);
    assert(s.skip(n + 1) =~= rest);
}

/// Law: a number that is written down is read back, with its sign.
pub proof fn written_numbers_are_read_back(n: int)
    requires
        -0x8000_0000_0000_0000 <= n <= 0x7fff_ffff_ffff_ffff,
    ensures
        parse_int(dec_int(n)) == Some(n),
        n >= 0 ==> parse_int(seq!['+'] + dec_int(n)) == Some(n),
        parse_int(dec_int(n) + seq![' ']) is None,
        parse_int(Seq::<char>::empty()) is None,
{
    if n < 0 {
        let d = dec((-n) as nat);
        lemma_dec_digits((-n) as nat);
        assert((seq!['-'] + d).skip(1) =~= d);
        let s = dec_int(n) + seq![' '];
        assert(s.skip(1).last() == ' ');
        assert(!is_digit(s.skip(1)[s.len() - 2]));
    } else {
        let d = dec(n as nat);
        lemma_dec_digits(n as nat);
        lemma_parse_dec(n as nat, 0x7fff_ffff_ffff_ffffnat);
        assert(is_digit(d[0]));
        assert((seq!['+'] + d).skip(1) =~= d);
        let s = d + seq![' '];
        assert(s[0] == d[0]);
        assert(!is_digit(s[s.len() - 1]));
    }
}

/// Law: a number is filled up with zeros in front, which leaves its value alone; a longer one
/// is kept.
pub proof fn zeros_in_front_fill_up(s: Seq<char>, w: nat)
    ensures
        s.len() <= w ==> zero_pad(s, w).len() == w,
        s.len() >= w ==> zero_pad(s, w) == s,
        s.is_suffix_of(zero_pad(s, w)),
        value(zero_pad(s, w)) == value(s),
{
    if s.len() < w {
        let z = repeat('0', (w - s.len()) as nat);
        lemma_zeros_are_worth_nothing(z, s);
        assert((z + s).subrange(z.len() as int, (z + s).len() as int) =~= s);
    }
}

proof fn lemma_zeros_are_worth_nothing(z: Seq<char>, s: Seq<char>)
    requires
        forall|i: int| 0 <= i < z.len() ==> (#[trigger] z[i]) == '0',
    ensures
        value(z + s) == value(s),
    decreases z.len() + s.len(),
{
    if s.len() > 0 {
        assert((z + s).drop_last() =~= z + s.drop_last());
        lemma_zeros_are_worth_nothing(z, s.drop_last());
        assert((z + s).last() == s.last());
    } else {
        assert(z + s =~= z);
        if z.len() > 0 {
            assert(z.drop_last() + s =~= z.drop_last());
            assert(z.last() == '0');
            lemma_zeros_are_worth_nothing(z.drop_last(), s);
        }
    }
}

/// Law: the characters given are taken off the end, or the beginning, and no others.
pub proof fn only_the_given_character_is_taken_off(s: Seq<char>, c: char, n: nat)
    ensures
        s.len() == 0 || s.last() != c ==> trim_end_char(s + repeat(c, n), c) == s,
        s.len() == 0 || s[0] != c ==> trim_start_char(repeat(c, n) + s, c) == s,
    decreases n,
{
    if n == 0 {
        assert(s + repeat(c, 0) =~= s);
        assert(repeat(c, 0) + s =~= s);
    } else {
        let m = (n - 1) as nat;
        only_the_given_character_is_taken_off(s, c, m);
        assert((s + repeat(c, n)).drop_last() =~= s + repeat(c, m));
        assert((s + repeat(c, n)).last() == c);
        assert((repeat(c, n) + s).skip(1) =~= repeat(c, m) + s);
        assert((repeat(c, n) + s)[0] == c);
    }
}

} // verus!
