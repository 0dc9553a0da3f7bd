//! Executable text operations, on slices of characters, with their meaning in
//! [`crate::chars`].
use vstd::prelude::*;
use vstd::slice::slice_subrange;
use crate::chars;

verus! {

/// `String::push` appends one character to the string.
pub assume_specification[ String::push ](s: &mut String, c: char)
    ensures
        final(s)@ == old(s)@.push(c),
;

/// `String::push_str` appends the characters of its argument to the string.
pub assume_specification[ String::push_str ](s: &mut String, t: &str)
    ensures
        final(s)@ == old(s)@ + t@,
;

/// The characters of `s`, in order.
pub fn chars_of(s: &str) -> (r: Vec<char>)
    ensures
        r@ == s@,
{
    let mut out: Vec<char> = Vec::new();
    for c in it: s.chars()
        invariant
            it.seq() == s@,
            out@ == s@.take(it.index() as int),
    {
        out.push(c);
        assert(s@.take(it.index() as int).push(c) =~= s@.take(it.index() + 1));
    }
    assert(s@.take(s@.len() as int) =~= s@);
    out
}

/// The string made of `v`'s characters.
pub fn string_of(v: &[char]) -> (r: String)
    ensures
        r@ == v@,
{
    let mut out: String = String::new();
    push_chars(&mut out, v);
    assert(Seq::<char>::empty() + v@ =~= v@);
    out
}

/// Appends the characters of `v` to `out`.
pub fn push_chars(out: &mut String, v: &[char])
    ensures
        final(out)@ == old(out)@ + v@,
{
    let mut i: usize = 0;
    assert(out@ + v@.take(0) =~= out@);
    while i < v.len()
        invariant
            i <= v@.len(),
            out@ == old(out)@ + v@.take(i as int),
        decreases v@.len() - i,
    {
        out.push(v[i]);
        i += 1;
        assert(v@.take(i as int - 1).push(v@[i - 1]) =~= v@.take(i as int));
        assert(old(out)@ + v@.take(i as int - 1).push(v@[i - 1]) =~= (old(out)@ + v@.take(
            i as int - 1,
        )).push(v@[i - 1]));
    }
    assert(v@.take(v@.len() as int) =~= v@);
}

/// Appends the characters of `v` to `out`.
pub fn extend(out: &mut Vec<char>, v: &[char])
    ensures
        final(out)@ == old(out)@ + v@,
{
    let mut i: usize = 0;
    assert(out@ + v@.take(0) =~= out@);
    while i < v.len()
        invariant
            i <= v@.len(),
            out@ == old(out)@ + v@.take(i as int),
        decreases v@.len() - i,
    {
        out.push(v[i]);
        i += 1;
        assert(old(out)@ + v@.take(i as int) =~= (old(out)@ + v@.take(i as int - 1)).push(
            v@[i - 1],
        ));
    }
    assert(v@.take(v@.len() as int) =~= v@);
}

/// Appends the characters of `s` to `out`.
pub fn extend_str(out: &mut Vec<char>, s: &str)
    ensures
        final(out)@ == old(out)@ + s@,
{
    let v = chars_of(s);
    extend(out, &v);
}

/// A copy of the characters of `v`.
pub fn to_vec(v: &[char]) -> (r: Vec<char>)
    ensures
        r@ == v@,
{
    let mut out: Vec<char> = Vec::new();
    extend(&mut out, v);
    assert(Seq::<char>::empty() + v@ =~= v@);
    out
}

/// Whether two character slices are equal.
pub fn same(a: &[char], b: &[char]) -> (r: bool)
    ensures
        r == (a@ == b@),
{
    if a.len() != b.len() {
        return false;
    }
    let mut i: usize = 0;
    while i < a.len()
        invariant
            a@.len() == b@.len(),
            i <= a@.len(),
            forall|j: int| 0 <= j < i ==> a@[j] == b@[j],
        decreases a@.len() - i,
    {
        if a[i] != b[i] {
            return false;
        }
        i += 1;
    }
    assert(a@ =~= b@);
    true
}

/// Whether two strings hold the same characters.
pub fn eq(a: &str, b: &str) -> (r: bool)
    ensures
        r == (a@ == b@),
{
    let x = chars_of(a);
    let y = chars_of(b);
    same(&x, &y)
}

/// Whether `v` spells `s`.
pub fn is(v: &[char], s: &str) -> (r: bool)
    ensures
        r == (v@ == s@),
{
    let y = chars_of(s);
    same(v, &y)
}

/// Whether `c` is whitespace.
pub fn is_ws(c: char) -> (r: bool)
    ensures
        r == chars::is_ws(c),
{
    let n: u32 = c as u32;
    (9 <= n && n <= 13) || n == 0x20 || n == 0x85 || n == 0xa0 || n == 0x1680 || (0x2000 <= n && n
        <= 0x200a) || n == 0x2028 || n == 0x2029 || n == 0x202f || n == 0x205f || n == 0x3000
}

pub fn is_digit(c: char) -> (r: bool)
    ensures
        r == chars::is_digit(c),
{
    '0' <= c && c <= '9'
}

pub fn is_ascii_alpha(c: char) -> (r: bool)
    ensures
        r == chars::is_ascii_alpha(c),
{
    ('a' <= c && c <= 'z') || ('A' <= c && c <= 'Z')
}

/// ASCII lower case of `c`.
pub fn lower_char(c: char) -> (r: char)
    ensures
        r == chars::lower_char(c),
{
    if 'A' <= c && c <= 'Z' {
        let n: u8 = c as u8;
        (n + 32) as char
    } else {
        c
    }
}

/// ASCII lower case of `v`.
pub fn lower(v: &[char]) -> (r: Vec<char>)
    ensures
        r@ == chars::lower(v@),
{
    let mut out: Vec<char> = Vec::new();
    let mut i: usize = 0;
    while i < v.len()
        invariant
            i <= v@.len(),
            out@.len() == i,
            forall|j: int| 0 <= j < i ==> out@[j] == chars::lower_char(v@[j]),
        decreases v@.len() - i,
    {
        out.push(lower_char(v[i]));
        i += 1;
    }
    assert(out@ =~= chars::lower(v@));
    out
}

/// Length of `s` in bytes.
pub fn byte_len(s: &str) -> (r: usize)
    ensures
        r == chars::byte_len(s@),
{
    s.as_bytes().len()
}

/// Bytes that `c` takes in UTF-8.
pub fn char_len(c: char) -> (r: usize)
    ensures
        r == chars::char_len(c),
        1 <= r <= 4,
{
    let n: u32 = c as u32;
    if n < 0x80 {
        1
    } else if n < 0x800 {
        2
    } else if n < 0x10000 {
        3
    } else {
        4
    }
}

/// The characters from `i` on.
pub fn from(v: &[char], i: usize) -> (r: &[char])
    requires
        i <= v@.len(),
    ensures
        r@ == v@.skip(i as int),
{
    slice_subrange(v, i, v.len())
}

/// The characters before `i`.
pub fn upto(v: &[char], i: usize) -> (r: &[char])
    requires
        i <= v@.len(),
    ensures
        r@ == v@.take(i as int),
{
    slice_subrange(v, 0, i)
}

pub fn trim_start(v: &[char]) -> (r: &[char])
    ensures
        r@ == chars::trim_start(v@),
{
    let mut i: usize = 0;
    while i < v.len() && is_ws(v[i])
        invariant
            i <= v@.len(),
            forall|j: int| 0 <= j < i ==> chars::is_ws(#[trigger] v@[j]),
        decreases v@.len() - i,
    {
        i += 1;
    }
    proof {
        chars::lemma_trim_start(v@, i as int);
    }
    from(v, i)
}

/// `s` on one line: a space for each line break.
pub fn on_one_line(s: &str) -> (r: String)
    ensures
        r@ == chars::on_one_line(s@),
{
    let v = chars_of(s);
    let mut out = String::new();
    let mut i: usize = 0;
    while i < v.len()
        invariant
            v@ == s@,
            i <= v@.len(),
            out@ == chars::on_one_line(s@).take(i as int),
        decreases v@.len() - i,
    {
        if v[i] == '\n' || v[i] == '\r' {
            out.push(' ');
        } else {
            out.push(v[i]);
        }
        assert(chars::on_one_line(s@).take(i + 1) =~= chars::on_one_line(s@).take(i as int).push(
            chars::on_one_line(s@)[i as int],
        ));
        i += 1;
    }
    assert(chars::on_one_line(s@).take(i as int) =~= chars::on_one_line(s@));
    out
}

pub fn trim_end(v: &[char]) -> (r: &[char])
    ensures
        r@ == chars::trim_end(v@),
{
    let mut i: usize = v.len();
    while i > 0 && is_ws(v[i - 1])
        invariant
            i <= v@.len(),
            forall|j: int| i <= j < v@.len() ==> chars::is_ws(#[trigger] v@[j]),
        decreases i,
    {
        i -= 1;
    }
    proof {
        chars::lemma_trim_end(v@, i as int);
    }
    upto(v, i)
}

pub fn trim(v: &[char]) -> (r: &[char])
    ensures
        r@ == chars::trim(v@),
{
    trim_end(trim_start(v))
}

/// Whether `v` is whitespace throughout.
pub fn blank(v: &[char]) -> (r: bool)
    ensures
        r == chars::blank(v@),
        r == (chars::trim(v@).len() == 0),
{
    proof {
        chars::lemma_blank_trim(v@);
    }
    let t = trim(v);
    t.len() == 0
}

pub fn trim_start_char(v: &[char], c: char) -> (r: &[char])
    ensures
        r@ == chars::trim_start_char(v@, c),
    decreases v@.len(),
{
    if v.len() > 0 && v[0] == c {
        trim_start_char(from(v, 1), c)
    } else {
        v
    }
}

pub fn trim_end_char(v: &[char], c: char) -> (r: &[char])
    ensures
        r@ == chars::trim_end_char(v@, c),
    decreases v@.len(),
{
    if v.len() > 0 && v[v.len() - 1] == c {
        assert(v@.drop_last() =~= v@.take(v@.len() - 1));
        trim_end_char(upto(v, v.len() - 1), c)
    } else {
        v
    }
}

/// How many characters stand before the first `c`.
pub fn find_char(v: &[char], c: char) -> (r: usize)
    ensures
        r == chars::find_char(v@, c),
        r <= v@.len(),
        forall|j: int| 0 <= j < r ==> v@[j] != c,
        r < v@.len() ==> v@[r as int] == c,
{
    let mut i: usize = 0;
    while i < v.len() && v[i] != c
        invariant
            i <= v@.len(),
            forall|j: int| 0 <= j < i ==> v@[j] != c,
        decreases v@.len() - i,
    {
        i += 1;
    }
    proof {
        chars::lemma_find(v@, chars::is_char(c), i as int);
    }
    i
}

/// How many characters stand before the first whitespace.
pub fn find_ws(v: &[char]) -> (r: usize)
    ensures
        r == chars::find(v@, |c: char| chars::is_ws(c)),
        r <= v@.len(),
{
    let mut i: usize = 0;
    while i < v.len() && !is_ws(v[i])
        invariant
            i <= v@.len(),
            forall|j: int| 0 <= j < i ==> !chars::is_ws(#[trigger] v@[j]),
        decreases v@.len() - i,
    {
        i += 1;
    }
    proof {
        chars::lemma_find(v@, |c: char| chars::is_ws(c), i as int);
    }
    i
}

/// Whether `p` stands in `v` at `i`.
pub fn matches_at(v: &[char], p: &[char], i: usize) -> (r: bool)
    ensures
        r == chars::matches_at(v@, p@, i as int),
{
    if i > v.len() || p.len() > v.len() - i {
        return false;
    }
    same(slice_subrange(v, i, i + p.len()), p)
}

pub fn starts_with(v: &[char], s: &str) -> (r: bool)
    ensures
        r == chars::starts_with(v@, s@),
{
    let p = chars_of(s);
    matches_at(v, &p, 0)
}

pub fn ends_with(v: &[char], s: &str) -> (r: bool)
    ensures
        r == chars::ends_with(v@, s@),
{
    let p = chars_of(s);
    if p.len() > v.len() {
        return false;
    }
    matches_at(v, &p, v.len() - p.len())
}

/// Where `p` first stands in `v`.
pub fn find_chars(v: &[char], p: &[char]) -> (r: Option<usize>)
    ensures
        r is Some == chars::find_str(v@, p@) is Some,
        r matches Some(i) ==> chars::find_str(v@, p@) == Some(i as int) && chars::matches_at(v@, p@, i as int)
            && i + p@.len() <= v@.len(),
        r is None <==> !chars::contains_str(v@, p@),
{
    proof {
        chars::lemma_find_str_props(v@, p@);
    }
    if p.len() > v.len() {
        proof {
            assert forall|j: int| !chars::matches_at(v@, p@, j) by {}
            chars::lemma_find_str_none(v@, p@);
        }
        return None;
    }
    let mut i: usize = 0;
    while i <= v.len() - p.len()
        invariant
            p@.len() <= v@.len(),
            i <= v@.len() - p@.len() + 1,
            forall|j: int| 0 <= j < i ==> !chars::matches_at(v@, p@, j),
        decreases v@.len() + 1 - i,
    {
        if matches_at(v, p, i) {
            proof {
                chars::lemma_find_str(v@, p@, i as int);
            }
            return Some(i);
        }
        if i == v.len() {
            proof {
                assert forall|j: int| 0 <= j <= v@.len() implies !chars::matches_at(v@, p@, j) by {}
                chars::lemma_find_str_none(v@, p@);
            }
            return None;
        }
        i += 1;
    }
    proof {
        assert forall|j: int| 0 <= j <= v@.len() implies !chars::matches_at(v@, p@, j) by {}
        chars::lemma_find_str_none(v@, p@);
    }
    None
}

/// Where `s` first stands in `v`.
pub fn find_str(v: &[char], s: &str) -> (r: Option<usize>)
    ensures
        r is Some == chars::find_str(v@, s@) is Some,
        r matches Some(i) ==> chars::find_str(v@, s@) == Some(i as int) && chars::matches_at(v@, s@, i as int)
            && i + s@.len() <= v@.len(),
        r is None <==> !chars::contains_str(v@, s@),
{
    let p = chars_of(s);
    find_chars(v, &p)
}

/// Whether `s` stands somewhere in `v`.
pub fn contains(v: &[char], s: &str) -> (r: bool)
    ensures
        r == chars::contains_str(v@, s@),
{
    match find_str(v, s) {
        Some(_) => true,
        None => false,
    }
}

/// The decimal digit of value `d`.
pub fn digit(d: u8) -> (r: char)
    requires
        d < 10,
    ensures
        r == chars::digit(d as nat),
{
    (48 + d) as char
}

/// Appends `n` in decimal.
pub fn push_dec(out: &mut String, n: u64)
    ensures
        final(out)@ == old(out)@ + chars::dec(n as nat),
    decreases n,
{
    if n >= 10 {
        push_dec(out, n / 10);
    }
    out.push(digit((n % 10) as u8));
    assert(out@ =~= old(out)@ + chars::dec(n as nat));
}

/// Appends `n` in decimal.
pub fn push_usize(out: &mut String, n: usize)
    ensures
        final(out)@ == old(out)@ + chars::dec(n as nat),
{
    push_dec(out, n as u64);
}

/// Appends `n` in decimal, with its sign when negative.
pub fn push_int(out: &mut String, n: i64)
    ensures
        final(out)@ == old(out)@ + chars::dec_int(n as int),
{
    if n < 0 {
        out.push('-');
        let m: u64 = if n == i64::MIN { 0x8000_0000_0000_0000u64 } else { (-n) as u64 };
        push_dec(out, m);
        assert(out@ =~= old(out)@ + chars::dec_int(n as int));
    } else {
        push_dec(out, n as u64);
    }
}

/// `n` in decimal.
pub fn dec(n: u64) -> (r: String)
    ensures
        r@ == chars::dec(n as nat),
{
    let mut out = String::new();
    push_dec(&mut out, n);
    assert(Seq::<char>::empty() + chars::dec(n as nat) =~= chars::dec(n as nat));
    out
}

/// The lower-case hexadecimal digit of value `d`.
pub fn hex_digit(d: u8) -> (r: char)
    requires
        d < 16,
    ensures
        r == chars::hex_digit(d as nat),
{
    if d < 10 {
        (48 + d) as char
    } else {
        (87 + d) as char
    }
}

/// Appends `n` in lower-case hexadecimal.
pub fn push_hex(out: &mut Vec<char>, n: u64)
    ensures
        final(out)@ == old(out)@ + chars::hex(n as nat),
    decreases n,
{
    if n >= 16 {
        push_hex(out, n / 16);
    }
    out.push(hex_digit((n % 16) as u8));
    assert(out@ =~= old(out)@ + chars::hex(n as nat));
}

/// `n` in lower-case hexadecimal, padded with zeros to `w` characters.
pub fn hex_padded(n: u64, w: usize) -> (r: Vec<char>)
    ensures
        r@ == chars::zero_pad(chars::hex(n as nat), w as nat),
{
    let mut digits: Vec<char> = Vec::new();
    push_hex(&mut digits, n);
    assert(digits@ =~= chars::hex(n as nat));
    let mut out: Vec<char> = Vec::new();
    if digits.len() < w {
        push_repeat(&mut out, '0', w - digits.len());
    }
    extend(&mut out, &digits);
    assert(out@ =~= chars::zero_pad(chars::hex(n as nat), w as nat));
    out
}

/// Appends `n` copies of `c`.
pub fn push_repeat(out: &mut Vec<char>, c: char, n: usize)
    ensures
        final(out)@ == old(out)@ + chars::repeat(c, n as nat),
{
    let mut i: usize = 0;
    assert(out@ =~= old(out)@ + chars::repeat(c, 0));
    while i < n
        invariant
            i <= n,
            out@ == old(out)@ + chars::repeat(c, i as nat),
        decreases n - i,
    {
        out.push(c);
        i += 1;
        assert(out@ =~= old(out)@ + chars::repeat(c, i as nat));
    }
}

/// The unsigned number written in `v`, if it is one and is at most `max`.
pub fn parse_u64(v: &[char], max: u64) -> (r: Option<u64>)
    ensures
        match chars::parse_nat(v@, max as nat) {
            Some(n) => r == Some(n as u64),
            None => r is None,
        },
        r matches Some(n) ==> n <= max,
{
    let t: &[char] = if v.len() > 0 && v[0] == '+' { from(v, 1) } else { v };
    assert(t@ == chars::strip_plus(v@));
    if t.len() == 0 {
        return None;
    }
    let mut acc: u64 = 0;
    let mut i: usize = 0;
    assert(t@.take(0).len() == 0);
    while i < t.len()
        invariant
            t@ == chars::strip_plus(v@),
            i <= t@.len(),
            t@.len() > 0,
            acc == chars::value(t@.take(i as int)),
            acc <= max,
            forall|j: int| 0 <= j < i ==> chars::is_digit(#[trigger] t@[j]),
        decreases t@.len() - i,
    {
        let c = t[i];
        if !is_digit(c) {
            assert(!chars::all_digits(t@));
            return None;
        }
        let d: u64 = (c as u32 - 48) as u64;
        proof {
            assert(t@.take(i + 1).drop_last() =~= t@.take(i as int));
            assert(t@.take(i + 1).last() == c);
            assert(chars::value(t@.take(i + 1)) == acc * 10 + d);
            if chars::all_digits(t@) {
                chars::lemma_value_prefix(t@, i + 1);
            }
        }
        if acc > (u64::MAX - d) / 10 || acc * 10 + d > max {
            return None;
        }
        acc = acc * 10 + d;
        i += 1;
    }
    assert(t@.take(i as int) =~= t@);
    Some(acc)
}

/// The unsigned number written in `v`, if it is one that fits.
pub fn parse_usize(v: &[char]) -> (r: Option<usize>)
    ensures
        match chars::parse_nat(v@, usize::MAX as nat) {
            Some(n) => r == Some(n as usize),
            None => r is None,
        },
{
    match parse_u64(v, usize::MAX as u64) {
        Some(n) => Some(n as usize),
        None => None,
    }
}

/// The signed number written in `v`, if it is one that fits.
pub fn parse_i64(v: &[char]) -> (r: Option<i64>)
    ensures
        match chars::parse_int(v@) {
            Some(n) => r == Some(n as i64),
            None => r is None,
        },
{
    if v.len() > 0 && v[0] == '-' {
        let t = from(v, 1);
        if t.len() > 0 && t[0] == '+' {
            assert(!chars::is_digit(t@[0]));
            return None;
        }
        assert(chars::strip_plus(t@) == t@);
        match parse_u64(t, 0x8000_0000_0000_0000u64) {
            Some(n) => if n == 0x8000_0000_0000_0000u64 {
                Some(i64::MIN)
            } else {
                Some(-(n as i64))
            },
            None => None,
        }
    } else {
        match parse_u64(v, 0x7fff_ffff_ffff_ffffu64) {
            Some(n) => Some(n as i64),
            None => None,
        }
    }
}

/// The view of a list of character vectors.
pub open spec fn views(v: Seq<Vec<char>>) -> Seq<Seq<char>> {
    v.map_values(|x: Vec<char>| x@)
}

/// The view of a list of strings.
pub open spec fn str_views(v: Seq<String>) -> Seq<Seq<char>> {
    v.map_values(|x: String| x@)
}

/// The pieces of `v` between occurrences of `c`.
pub fn split(v: &[char], c: char) -> (r: Vec<Vec<char>>)
    ensures
        views(r@) == chars::split(v@, c),
{
    let mut out: Vec<Vec<char>> = Vec::new();
    let n: usize = v.len();
    let mut i: usize = 0;
    assert(v@.skip(0) =~= v@);
    assert(views(out@) + chars::split(v@, c) =~= chars::split(v@, c));
    loop
        invariant
            i <= n,
            n == v@.len(),
            views(out@) + chars::split(v@.skip(i as int), c) == chars::split(v@, c),
        decreases v@.len() - i,
    {
        let t = from(v, i);
        let k = find_char(t, c);
        let ghost before = views(out@);
        if k < t.len() {
            out.push(to_vec(upto(t, k)));
            assert(views(out@) =~= before.push(t@.take(k as int)));
            assert(t@.skip(k + 1) =~= v@.skip(i + k + 1));
            assert(before.push(t@.take(k as int)) + chars::split(t@.skip(k + 1), c) =~= before + (
            seq![t@.take(k as int)] + chars::split(t@.skip(k + 1), c)));
            i = i + k + 1;
        } else {
            out.push(to_vec(t));
            assert(views(out@) =~= before + seq![t@]);
            return out;
        }
    }
}

/// The lines of `v`.
pub fn lines(v: &[char]) -> (r: Vec<Vec<char>>)
    ensures
        views(r@) == chars::lines(v@),
{
    let mut out: Vec<Vec<char>> = Vec::new();
    let mut i: usize = 0;
    assert(v@.skip(0) =~= v@);
    assert(views(out@) + chars::lines(v@) =~= chars::lines(v@));
    while i < v.len()
        invariant
            i <= v@.len(),
            views(out@) + chars::lines(v@.skip(i as int)) == chars::lines(v@),
        decreases v@.len() - i,
    {
        let t = from(v, i);
        let k = find_char(t, '\n');
        let ghost before = views(out@);
        if k < t.len() {
            let l = upto(t, k);
            let e: usize = if k > 0 && l[k - 1] == '\r' { k - 1 } else { k };
            assert(l@.take(e as int) =~= chars::chomp_cr(l@));
            out.push(to_vec(upto(l, e)));
            assert(views(out@) =~= before.push(chars::chomp_cr(t@.take(k as int))));
            assert(t@.skip(k + 1) =~= v@.skip(i + k + 1));
            assert(before.push(chars::chomp_cr(t@.take(k as int))) + chars::lines(t@.skip(k + 1))
                =~= before + (seq![chars::chomp_cr(t@.take(k as int))] + chars::lines(
                t@.skip(k + 1),
            )));
            i = i + k + 1;
        } else {
            out.push(to_vec(t));
            assert(views(out@) =~= before + seq![t@]);
            return out;
        }
    }
    assert(views(out@) + chars::lines(v@.skip(i as int)) =~= views(out@));
    out
}

/// The maximal runs of non-whitespace characters of `v`.
pub fn words(v: &[char]) -> (r: Vec<Vec<char>>)
    ensures
        views(r@) == chars::words(v@),
{
    let mut out: Vec<Vec<char>> = Vec::new();
    let mut rest: &[char] = v;
    assert(views(out@) + chars::words(v@) =~= chars::words(v@));
    loop
        invariant
            views(out@) + chars::words(rest@) == chars::words(v@),
        decreases rest@.len(),
    {
        let t = trim_start(rest);
        proof {
            chars::lemma_trim_start_props(rest@);
        }
        if t.len() == 0 {
            assert(views(out@) + chars::words(rest@) =~= views(out@));
            return out;
        }
        let k = find_ws(t);
        let ghost before = views(out@);
        proof {
            chars::lemma_find_props(t@, |c: char| chars::is_ws(c));
        }
        assert(k > 0);
        out.push(to_vec(upto(t, k)));
        assert(views(out@) =~= before.push(t@.take(k as int)));
        let next = from(t, k);
        assert(before.push(t@.take(k as int)) + chars::words(next@) =~= before + (seq![
            t@.take(k as int),
        ] + chars::words(next@)));
        rest = next;
    }
}

/// The parts one after another, with `sep` between neighbours.
pub fn join(parts: &[Vec<char>], sep: &[char]) -> (r: Vec<char>)
    ensures
        r@ == chars::join(views(parts@), sep@),
{
    let mut out: Vec<char> = Vec::new();
    let mut i: usize = 0;
    assert(views(parts@).take(0) =~= Seq::empty());
    while i < parts.len()
        invariant
            i <= parts@.len(),
            out@ == chars::join(views(parts@).take(i as int), sep@),
        decreases parts@.len() - i,
    {
        proof {
            chars::lemma_join_push(views(parts@).take(i as int), parts@[i as int]@, sep@);
            assert(views(parts@).take(i + 1) =~= views(parts@).take(i as int).push(
                parts@[i as int]@,
            ));
        }
        if i > 0 {
            extend(&mut out, sep);
        }
        extend(&mut out, &parts[i]);
        i += 1;
        assert(out@ =~= chars::join(views(parts@).take(i as int), sep@));
    }
    assert(views(parts@).take(i as int) =~= views(parts@));
    out
}

/// The characters of an optional text.
pub open spec fn str_view(s: Option<&str>) -> Option<Seq<char>> {
    match s {
        Some(t) => Some(t@),
        None => None,
    }
}

/// Whether `s` is among the strings.
pub fn holds(v: &[String], s: &str) -> (r: bool)
    ensures
        r == str_views(v@).contains(s@),
{
    let mut i: usize = 0;
    let ghost vv = str_views(v@);
    while i < v.len()
        invariant
            vv == str_views(v@),
            i <= v@.len(),
            forall|j: int| 0 <= j < i ==> vv[j] != s@,
        decreases v@.len() - i,
    {
        if eq(v[i].as_str(), s) {
            assert(vv[i as int] == s@);
            return true;
        }
        i += 1;
    }
    false
}

} // verus!
