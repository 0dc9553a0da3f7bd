//! The memory store's helpers: how much of a recalled text is shown, how a search
//! query is built, and how a text becomes a vector.
use vstd::prelude::*;
use vstd::utf8::encode_utf8;
use crate::{chars, hash, text};

verus! {

/// The tag under which a compacted transcript is stored.
pub const OFFLOAD_TAG: &'static str = "context-offload";

/// How many characters of one recalled text are shown.
pub const RECALL_HIT_MAX_CHARS: usize = 2_000;

/// How many of the latest transcripts are kept.
pub const OFFLOAD_KEEP_RECENT: usize = 20;

/// After how many days a transcript goes in any case.
pub const OFFLOAD_MAX_AGE_DAYS: i64 = 7;

/// How many keyword matches are ranked by relevance.
pub const RECALL_CANDIDATE_CAP: usize = 64;

/// How many dimensions an embedding has.
pub const EMBED_DIM: usize = 384;

/// What is shown of a recalled text: all of it where it fits, else its first `max`
/// characters and a note on how many kilobytes, rounded up, were left out.
pub open spec fn shown_hit(content: Seq<char>, max: nat) -> Seq<char> {
    if content.len() <= max {
        content
    } else {
        content.take(max as int) + "… [+"@ + chars::dec(
            (chars::byte_len(content.skip(max as int)) + 1023) / 1024,
        ) + " KB elided — recall with a tighter query or the `context-offload` tag]"@
    }
}

/// Shows at most `max` characters of `content`.
pub fn truncate_hit(content: &str, max: usize) -> (r: String)
    ensures
        r@ == shown_hit(content@, max as nat),
{
    let v = text::chars_of(content);
    if v.len() <= max {
        return content.to_owned();
    }
    let mut out = text::string_of(text::upto(&v, max));
    let whole: usize = text::byte_len(content);
    let head: usize = text::byte_len(out.as_str());
    proof {
        chars::lemma_byte_len_concat(v@.take(max as int), v@.skip(max as int));
        assert(v@.take(max as int) + v@.skip(max as int) =~= v@);
    }
    let left: usize = whole - head;
    let kb: usize = if left % 1024 == 0 { left / 1024 } else { left / 1024 + 1 };
    out.push_str("… [+");
    text::push_usize(&mut out, kb);
    out.push_str(" KB elided — recall with a tighter query or the `context-offload` tag]");
    out
}

/// What `char::is_alphanumeric` returns for a character.
pub uninterp spec fn alphanumeric(c: char) -> bool;

/// Calls `char::is_alphanumeric`. The result depends on the character alone; which
/// characters are letters or numbers is not stated.
#[verifier::external_body]
fn is_alphanumeric(c: char) -> (r: bool)
    ensures
        r == alphanumeric(c),
{
    c.is_alphanumeric()
}

/// Whether `c` belongs to a token: a letter or a number.
pub open spec fn in_token(c: char) -> bool {
    if (c as u32) < 0x80 {
        chars::is_digit(c) || chars::is_ascii_alpha(c)
    } else {
        alphanumeric(c)
    }
}

/// Whether `c` belongs to a token.
fn token_char(c: char) -> (r: bool)
    ensures
        r == in_token(c),
{
    if (c as u32) < 0x80 {
        text::is_digit(c) || text::is_ascii_alpha(c)
    } else {
        is_alphanumeric(c)
    }
}

/// The predicate of what stands between tokens.
pub open spec fn outside_token() -> spec_fn(char) -> bool {
    |c: char| !in_token(c)
}

/// The tokens of a text: its maximal runs of letters and numbers.
pub open spec fn tokens(s: Seq<char>) -> Seq<Seq<char>>
    decreases s.len(),
{
    if s.len() == 0 {
        seq![]
    } else {
        let i = chars::find(s, outside_token());
        if 0 < i <= s.len() {
            seq![s.take(i)] + tokens(s.skip(i))
        } else {
            tokens(s.skip(1))
        }
    }
}

/// The tokens of `v`.
fn tokenize(v: &[char]) -> (r: Vec<Vec<char>>)
    ensures
        text::views(r@) == tokens(v@),
        r@.len() <= v@.len(),
{
    let mut out: Vec<Vec<char>> = Vec::new();
    let n: usize = v.len();
    let mut i: usize = 0;
    assert(v@.skip(0) =~= v@);
    assert(text::views(out@) + tokens(v@) =~= tokens(v@));
    while i < n
        invariant
            n == v@.len(),
            i <= n,
            out@.len() <= i,
            text::views(out@) + tokens(v@.skip(i as int)) == tokens(v@),
        decreases n - i,
    {
        let rest = text::from(v, i);
        let mut k: usize = 0;
        while k < rest.len() && token_char(rest[k])
            invariant
                k <= rest@.len(),
                forall|j: int| 0 <= j < k ==> in_token(#[trigger] rest@[j]),
            decreases rest@.len() - k,
        {
            k += 1;
        }
        proof {
            chars::lemma_find(rest@, outside_token(), k as int);
        }
        if k > 0 {
            let ghost before = text::views(out@);
            out.push(text::to_vec(text::upto(rest, k)));
            proof {
                assert(text::views(out@) =~= before.push(rest@.take(k as int)));
                assert(rest@.skip(k as int) =~= v@.skip(i + k));
                assert(before.push(rest@.take(k as int)) + tokens(rest@.skip(k as int)) =~= before
                    + (seq![rest@.take(k as int)] + tokens(rest@.skip(k as int))));
            }
            i += k;
        } else {
            assert(rest@.skip(1) =~= v@.skip(i + 1));
            i += 1;
        }
    }
    assert(text::views(out@) + tokens(v@.skip(i as int)) =~= text::views(out@));
    out
}

/// The search term that matches every word with this beginning.
pub open spec fn prefix_term(token: Seq<char>) -> Seq<char> {
    chars::lower(token) + "*"@
}

/// The search expression for a query: any of its tokens, as the beginning of a word.
pub open spec fn match_query(user: Seq<char>) -> Option<Seq<char>> {
    let t = tokens(user);
    if t.len() == 0 {
        None
    } else {
        Some(chars::join(t.map_values(|w: Seq<char>| prefix_term(w)), " OR "@))
    }
}

/// Builds the full-text search expression for `user`; `None` where it has no token.
pub fn fts_match_query(user: &str) -> (r: Option<String>)
    ensures
        match r {
            Some(q) => match_query(user@) == Some(q@),
            None => match_query(user@) is None,
        },
{
    let v = text::chars_of(user);
    let toks = tokenize(&v);
    let n: usize = toks.len();
    assert(text::views(toks@).len() == n);
    if n == 0 {
        return None;
    }
    let mut terms: Vec<Vec<char>> = Vec::new();
    let mut i: usize = 0;
    let ghost want = tokens(user@).map_values(|w: Seq<char>| prefix_term(w));
    while i < n
        invariant
            n == toks@.len(),
            i <= n,
            terms@.len() == i,
            text::views(toks@) == tokens(user@),
            want == tokens(user@).map_values(|w: Seq<char>| prefix_term(w)),
            forall|k: int| 0 <= k < i ==> (#[trigger] terms@[k])@ == want[k],
        decreases n - i,
    {
        let mut term = text::lower(&toks[i]);
        text::extend_str(&mut term, "*");
        assert(text::views(toks@)[i as int] == toks@[i as int]@);
        terms.push(term);
        i += 1;
    }
    assert(text::views(terms@) =~= want);
    let sep = text::chars_of(" OR ");
    Some(text::string_of(&text::join(&terms, &sep)))
}

/// Whether `c` may stand in a search expression without meaning anything but
/// itself, a prefix or a separator.
pub open spec fn harmless(c: char) -> bool {
    in_token(c) || c == '*' || c == ' '
}

/// A search expression holds letters, numbers, stars and spaces only, whatever the
/// query holds.
pub proof fn queries_are_harmless(user: Seq<char>)
    ensures
        match_query(user) matches Some(q) ==> forall|i: int|
            0 <= i < q.len() ==> harmless(#[trigger] q[i]),
{
    let t = tokens(user);
    lemma_tokens(user);
    let terms = t.map_values(|w: Seq<char>| prefix_term(w));
    assert forall|k: int, i: int| 0 <= k < terms.len() && 0 <= i < terms[k].len() implies harmless(
        #[trigger] terms[k][i],
    ) by {
        reveal_strlit("*");
        assert(terms[k] == prefix_term(t[k]));
        if i < t[k].len() {
            assert(in_token(t[k][i]));
            assert(terms[k][i] == chars::lower_char(t[k][i]));
        }
    }
    lemma_join_harmless(terms);
}

proof fn lemma_join_harmless(terms: Seq<Seq<char>>)
    requires
        forall|k: int, i: int|
            0 <= k < terms.len() && 0 <= i < terms[k].len() ==> harmless(#[trigger] terms[k][i]),
    ensures
        forall|i: int|
            0 <= i < chars::join(terms, " OR "@).len() ==> harmless(
                #[trigger] chars::join(terms, " OR "@)[i],
            ),
    decreases terms.len(),
{
    reveal_strlit(" OR ");
    if terms.len() > 1 {
        assert forall|k: int, i: int|
            0 <= k < terms.drop_last().len() && 0 <= i < terms.drop_last()[k].len() implies harmless(
            #[trigger] terms.drop_last()[k][i],
        ) by {
            assert(terms.drop_last()[k] == terms[k]);
        }
        lemma_join_harmless(terms.drop_last());
        let head = chars::join(terms.drop_last(), " OR "@);
        let q = chars::join(terms, " OR "@);
        assert(q == head + " OR "@ + terms.last());
        assert forall|i: int| 0 <= i < q.len() implies harmless(#[trigger] q[i]) by {
            if i < head.len() {
                assert(q[i] == head[i]);
            } else if i < head.len() + 4 {
                assert(q[i] == " OR "@[i - head.len()]);
            } else {
                assert(q[i] == terms[terms.len() - 1][i - head.len() - 4]);
            }
        }
    }
}

proof fn lemma_tokens(s: Seq<char>)
    ensures
        forall|k: int, i: int|
            0 <= k < tokens(s).len() && 0 <= i < tokens(s)[k].len() ==> in_token(
                #[trigger] tokens(s)[k][i],
            ),
    decreases s.len(),
{
    if s.len() > 0 {
        let n = chars::find(s, outside_token());
        chars::lemma_find_props(s, outside_token());
        if 0 < n {
            lemma_tokens(s.skip(n));
            assert forall|k: int, i: int|
                0 <= k < tokens(s).len() && 0 <= i < tokens(s)[k].len() implies in_token(
                #[trigger] tokens(s)[k][i],
            ) by {
                if k == 0 {
                    assert(tokens(s)[0] == s.take(n));
                    assert(!outside_token()(s[i]));
                } else {
                    assert(tokens(s)[k] == tokens(s.skip(n))[k - 1]);
                }
            }
        } else {
            lemma_tokens(s.skip(1));
            assert(tokens(s) == tokens(s.skip(1)));
        }
    } else {
        assert(tokens(s).len() == 0);
    }
}

/// The hash of a token, its case aside.
pub open spec fn token_hash(token: Seq<char>) -> u64 {
    hash::fnv(encode_utf8(chars::lower(token)))
}

/// The dimension that a token counts in.
pub open spec fn bucket(token: Seq<char>) -> int {
    token_hash(token) as int % EMBED_DIM as int
}

/// Whether a token counts up or down.
pub open spec fn sign(token: Seq<char>) -> int {
    if token_hash(token) < 0x8000_0000_0000_0000 {
        1
    } else {
        -1
    }
}

/// The sum of the signs of the tokens that count in dimension `k`.
pub open spec fn feature(toks: Seq<Seq<char>>, k: int) -> int
    decreases toks.len(),
{
    if toks.len() == 0 {
        0
    } else {
        feature(toks.drop_last(), k) + if bucket(toks.last()) == k {
            sign(toks.last())
        } else {
            0
        }
    }
}

proof fn lemma_feature_bound(toks: Seq<Seq<char>>, k: int)
    ensures
        -toks.len() <= feature(toks, k) <= toks.len(),
    decreases toks.len(),
{
    if toks.len() > 0 {
        lemma_feature_bound(toks.drop_last(), k);
    }
}

/// The vector of a text before it is scaled to unit length: every token adds or
/// takes one in the dimension that its hash picks.
pub fn features(body: &str) -> (r: Vec<i128>)
    ensures
        r@.len() == EMBED_DIM,
        forall|k: int| 0 <= k < EMBED_DIM ==> r@[k] == feature(tokens(body@), k),
{
    let v = text::chars_of(body);
    let toks = tokenize(&v);
    let n: usize = toks.len();
    let mut out: Vec<i128> = Vec::new();
    let mut i: usize = 0;
    let ghost all = text::views(toks@);
    assert(all.take(0) =~= Seq::<Seq<char>>::empty());
    while i < EMBED_DIM
        invariant
            i <= EMBED_DIM,
            out@.len() == i,
            forall|k: int| 0 <= k < i ==> out@[k] == 0,
        decreases EMBED_DIM - i,
    {
        out.push(0);
        i += 1;
    }
    let mut i: usize = 0;
    while i < n
        invariant
            n == toks@.len(),
            i <= n,
            all == text::views(toks@),
            out@.len() == EMBED_DIM,
            forall|k: int| 0 <= k < EMBED_DIM ==> out@[k] == feature(all.take(i as int), k),
        decreases n - i,
    {
        let lowered = text::string_of(&text::lower(&toks[i]));
        let h = hash::fnv1a(lowered.as_str().as_bytes());
        let at: usize = (h % EMBED_DIM as u64) as usize;
        let step: i128 = if h < 0x8000_0000_0000_0000 { 1 } else { -1 };
        proof {
            assert(all.take(i + 1).drop_last() =~= all.take(i as int));
            assert(all.take(i + 1).last() == toks@[i as int]@);
            assert(h == token_hash(toks@[i as int]@));
            assert(step == sign(toks@[i as int]@));
            assert(at == bucket(toks@[i as int]@));
            lemma_feature_bound(all.take(i as int), at as int);
        }
        let old_count: i128 = out[at];
        out.set(at, old_count + step);
        i += 1;
    }
    assert(all.take(n as int) =~= all);
    out
}

/// Byte `k` of `w`, the lowest first.
pub open spec fn le_byte(w: u32, k: int) -> u8 {
    if k == 0 {
        (w as int % 0x100) as u8
    } else if k == 1 {
        (w as int / 0x100 % 0x100) as u8
    } else if k == 2 {
        (w as int / 0x1_0000 % 0x100) as u8
    } else {
        (w as int / 0x100_0000) as u8
    }
}

/// The words one after another, four bytes each, lowest byte first.
pub open spec fn blob_of(words: Seq<u32>) -> Seq<u8> {
    Seq::new(4 * words.len(), |i: int| le_byte(words[i / 4], i % 4))
}

/// The word that stands at byte `i`.
pub open spec fn word_at(bytes: Seq<u8>, i: int) -> u32 {
    (bytes[i] + 0x100 * bytes[i + 1] + 0x1_0000 * bytes[i + 2] + 0x100_0000 * bytes[i + 3]) as u32
}

/// The words of a blob; a blob is empty or broken where it holds no whole number of
/// words.
pub open spec fn words_of(bytes: Seq<u8>) -> Option<Seq<u32>> {
    if bytes.len() == 0 || bytes.len() % 4 != 0 {
        None
    } else {
        Some(Seq::new(bytes.len() / 4, |i: int| word_at(bytes, 4 * i)))
    }
}

/// A stored vector is read back as it was.
pub proof fn blobs_read_back(words: Seq<u32>)
    requires
        words.len() > 0,
    ensures
        words_of(blob_of(words)) == Some(words),
{
    let b = blob_of(words);
    assert(b.len() % 4 == 0);
    assert forall|i: int| 0 <= i < words.len() implies word_at(b, 4 * i) == words[i] by {
        let w = words[i];
        assert(b[4 * i] == le_byte(w, 0));
        assert(b[4 * i + 1] == le_byte(w, 1));
        assert(b[4 * i + 2] == le_byte(w, 2));
        assert(b[4 * i + 3] == le_byte(w, 3));
    }
    assert(words_of(b)->0 =~= words);
}

/// The bytes of a vector, given the bits of its components.
pub fn bits_to_blob(words: &[u32]) -> (r: Vec<u8>)
    ensures
        r@ == blob_of(words@),
{
    let mut out: Vec<u8> = Vec::new();
    let n: usize = words.len();
    let mut i: usize = 0;
    while i < n
        invariant
            n == words@.len(),
            i <= n,
            out@ == blob_of(words@.take(i as int)),
        decreases n - i,
    {
        let w: u32 = words[i];
        let ghost before = out@;
        out.push((w % 0x100) as u8);
        out.push((w / 0x100 % 0x100) as u8);
        out.push((w / 0x1_0000 % 0x100) as u8);
        out.push((w / 0x100_0000) as u8);
        proof {
            let t = words@.take(i + 1);
            assert forall|k: int| 0 <= k < 4 * t.len() implies out@[k] == blob_of(t)[k] by {
                if k < before.len() {
                    assert(before[k] == le_byte(words@.take(i as int)[k / 4], k % 4));
                } else {
                    assert(k / 4 == i);
                }
            }
            assert(out@ =~= blob_of(t));
        }
        i += 1;
    }
    assert(words@.take(n as int) =~= words@);
    out
}

/// The bits of the components of a stored vector; `None` for an empty or broken
/// blob.
pub fn blob_to_bits(bytes: &[u8]) -> (r: Option<Vec<u32>>)
    ensures
        match r {
            Some(w) => words_of(bytes@) == Some(w@),
            None => words_of(bytes@) is None,
        },
{
    let n: usize = bytes.len();
    if n == 0 || n % 4 != 0 {
        return None;
    }
    let mut out: Vec<u32> = Vec::new();
    let mut i: usize = 0;
    while i < n
        invariant
            n == bytes@.len(),
            n % 4 == 0,
            i % 4 == 0,
            i <= n,
            out@.len() == i / 4,
            forall|k: int| 0 <= k < i / 4 ==> out@[k] == word_at(bytes@, 4 * k),
        decreases n - i,
    {
        let w: u32 = bytes[i] as u32 + 0x100 * bytes[i + 1] as u32 + 0x1_0000 * bytes[i + 2] as u32
            + 0x100_0000 * bytes[i + 3] as u32;
        assert(4 * (i / 4) == i);
        out.push(w);
        i += 4;
    }
    assert(out@ =~= words_of(bytes@)->0);
    Some(out)
}

/// Law: a recalled text that fits is shown whole; of a longer one the beginning is shown,
/// and it is said how much is missing.
pub proof fn recalled_texts_begin_as_they_are(content: Seq<char>, max: nat)
    ensures
        content.len() <= max ==> shown_hit(content, max) == content,
        content.len() > max ==> shown_hit(content, max).take(max as int) == content.take(max as int),
        content.len() > max ==> chars::contains_str(
            shown_hit(content, max),
            "… [+"@ + chars::dec((chars::byte_len(content.skip(max as int)) + 1023) / 1024) + " KB elided"@,
        ),
{
    if content.len() > max {
        let s = shown_hit(content, max);
        let head = content.take(max as int);
        let d = chars::dec((chars::byte_len(content.skip(max as int)) + 1023) / 1024);
        assert(s.take(max as int) =~= head);
        reveal_strlit(" KB elided — recall with a tighter query or the `context-offload` tag]");
        reveal_strlit(" KB elided");
        let whole = " KB elided — recall with a tighter query or the `context-offload` tag]"@;
        let tail = whole.skip(10);
        assert(whole =~= " KB elided"@ + tail);
        let part = "… [+"@ + d + " KB elided"@;
        chars::lemma_holds_part(head, part, tail);
        assert(head + part + tail =~= s);
    }
}

/// Law: tokens are what stands between characters that belong to none: a word of letters
/// and numbers is one token, and what is parted by another character is cut there.
pub proof fn texts_are_cut_between_words(w: Seq<char>, c: char, rest: Seq<char>)
    requires
        forall|i: int| 0 <= i < w.len() ==> in_token(#[trigger] w[i]),
        !in_token(c),
    ensures
        w.len() > 0 ==> tokens(w + seq![c] + rest) == seq![w] + tokens(rest),
        w.len() == 0 ==> tokens(w + seq![c] + rest) == tokens(rest),
        w.len() > 0 ==> tokens(w) == seq![w],
        tokens(seq![]) == Seq::<Seq<char>>::empty(),
{
    let f = outside_token();
    let n = w.len() as int;
    let s = w + seq![c] + rest;
    assert forall|j: int| 0 <= j < n implies !f(#[trigger] s[j]) by {
        assert(s[j] == w[j]);
    }
    assert(s[n] == c);
    chars::lemma_find(s, f, n);
    let tail = s.skip(n);
    assert(tail[0] == c);
    chars::lemma_find(tail, f, 0);
    assert(tail.skip(1) =~= rest);
    assert(tokens(tail) == tokens(rest));
    if n > 0 {
        assert(s.take(n) =~= w);
        assert(tokens(s) == seq![s.take(n)] + tokens(tail));
        chars::lemma_find(w, f, n);
        assert(w.take(n) =~= w);
        assert(tokens(w.skip(n)) =~= Seq::<Seq<char>>::empty());
        assert(tokens(w) =~= seq![w]);
    } else {
        assert(tail =~= s);
    }
}

/// Law: a query asks for every one of its words as the beginning of a word, in lower case;
/// a further word adds a further alternative, and a query without words asks for nothing.
pub proof fn queries_ask_for_every_word(a: Seq<char>, w: Seq<char>)
    requires
        w.len() > 0,
        forall|i: int| 0 <= i < w.len() ==> in_token(#[trigger] w[i]),
    ensures
        match_query(w) == Some(chars::lower(w) + "*"@),
        match_query(a) matches Some(q) ==> match_query(a + seq![' '] + w) == Some(
            q + " OR "@ + (chars::lower(w) + "*"@),
        ),
        match_query(a) is None <==> tokens(a).len() == 0,
{
    texts_are_cut_between_words(w, ' ', seq![]);
    let f = |x: Seq<char>| prefix_term(x);
    let one = seq![w].map_values(f);
    assert(one =~= seq![prefix_term(w)]);
    assert(chars::join(one, " OR "@) == prefix_term(w));
    lemma_tokens_behind(a, w);
    let t = tokens(a);
    assert(t.push(w).map_values(f) =~= t.map_values(f).push(prefix_term(w)));
    chars::lemma_join_push(t.map_values(f), prefix_term(w), " OR "@);
}

proof fn lemma_tokens_behind(a: Seq<char>, w: Seq<char>)
    requires
        w.len() > 0,
        forall|i: int| 0 <= i < w.len() ==> in_token(#[trigger] w[i]),
    ensures
        tokens(a + seq![' '] + w) == tokens(a).push(w),
    decreases a.len(),
{
    let s = a + seq![' '] + w;
    let f = outside_token();
    chars::lemma_find_props(a, f);
    let i = chars::find(a, f);
    let head = a.take(i);
    assert forall|j: int| 0 <= j < head.len() implies in_token(#[trigger] head[j]) by {
        assert(!f(a[j]));
    }
    if i < a.len() {
        let b = a.skip(i + 1);
        let c = a[i];
        assert(f(c));
        assert(a =~= head + seq![c] + b);
        assert(s =~= head + seq![c] + (b + seq![' '] + w));
        texts_are_cut_between_words(head, c, b + seq![' '] + w);
        texts_are_cut_between_words(head, c, b);
        lemma_tokens_behind(b, w);
        assert(seq![head] + tokens(b).push(w) =~= (seq![head] + tokens(b)).push(w));
    } else {
        assert(head =~= a);
        texts_are_cut_between_words(head, ' ', w);
        texts_are_cut_between_words(w, ' ', seq![]);
        if a.len() > 0 {
            assert(seq![a] + seq![w] =~= seq![a].push(w));
        } else {
            assert(tokens(a) =~= Seq::<Seq<char>>::empty());
            assert(Seq::<Seq<char>>::empty().push(w) =~= seq![w]);
        }
    }
}

/// Law: every token counts for one in one of the dimensions, up or down, whatever its case;
/// texts count for the sum of their tokens.
pub proof fn tokens_count_once(a: Seq<Seq<char>>, b: Seq<Seq<char>>, t: Seq<char>, k: int)
    ensures
        0 <= bucket(t) < EMBED_DIM,
        sign(t) == 1 || sign(t) == -1,
        feature(seq![t], bucket(t)) == sign(t),
        k != bucket(t) ==> feature(seq![t], k) == 0,
        feature(a + b, k) == feature(a, k) + feature(b, k),
        bucket(chars::lower(t)) == bucket(t),
        sign(chars::lower(t)) == sign(t),
    decreases b.len(),
{
    assert(seq![t].drop_last() =~= Seq::<Seq<char>>::empty());
    assert(feature(Seq::<Seq<char>>::empty(), k) == 0);
    assert(feature(Seq::<Seq<char>>::empty(), bucket(t)) == 0);
    assert(seq![t].last() == t);
    assert(chars::lower(chars::lower(t)) =~= chars::lower(t));
    if b.len() == 0 {
        assert(a + b =~= a);
    } else {
        assert((a + b).drop_last() =~= a + b.drop_last());
        assert((a + b).last() == b.last());
        tokens_count_once(a, b.drop_last(), t, k);
    }
}

} // verus!
