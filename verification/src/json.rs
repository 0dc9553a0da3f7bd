//! JSON values: a plain tree whose objects keep their keys in order, and the
//! text form that `serde_json` reads and writes.
use vstd::prelude::*;
use crate::chars;
use crate::text;

verus! {

/// What a JSON value is. A number is its text; an object is its entries in
/// increasing order of their keys.
pub enum JsonV {
    Null,
    Bool(bool),
    Number(Seq<char>),
    Str(Seq<char>),
    Array(Seq<JsonV>),
    Object(Seq<(Seq<char>, JsonV)>),
}

/// A JSON value.
#[derive(Debug)]
pub enum Json {
    Null,
    Bool(bool),
    /// A number, as it is written.
    Number(String),
    Str(String),
    Array(Vec<Json>),
    Object(Object),
}

/// The entries of a JSON object, with distinct keys in increasing order.
#[derive(Debug)]
pub struct Object {
    entries: Vec<(String, Json)>,
}

/// Lexicographic order of texts by code point.
pub open spec fn text_lt(a: Seq<char>, b: Seq<char>) -> bool
    decreases a.len(),
{
    if b.len() == 0 {
        false
    } else if a.len() == 0 {
        true
    } else if a[0] != b[0] {
        a[0] < b[0]
    } else {
        text_lt(a.skip(1), b.skip(1))
    }
}

/// Keys strictly increasing from one entry to every later one.
pub open spec fn keys_sorted(e: Seq<(Seq<char>, JsonV)>) -> bool {
    forall|i: int, j: int| 0 <= i < j < e.len() ==> text_lt(#[trigger] e[i].0, #[trigger] e[j].0)
}

impl Json {
    pub open spec fn view(self) -> JsonV
        decreases self,
    {
        match self {
            Json::Null => JsonV::Null,
            Json::Bool(b) => JsonV::Bool(b),
            Json::Number(n) => JsonV::Number(n@),
            Json::Str(s) => JsonV::Str(s@),
            Json::Array(v) => JsonV::Array(
                Seq::new(
                    v@.len(),
                    |i: int|
                        if 0 <= i < v@.len() {
                            v@[i].view()
                        } else {
                            JsonV::Null
                        },
                ),
            ),
            Json::Object(o) => JsonV::Object(o.view()),
        }
    }
}

impl Object {
    /// The entries, in order.
    pub closed spec fn view(self) -> Seq<(Seq<char>, JsonV)>
        decreases self,
    {
        Seq::new(
            self.entries@.len(),
            |i: int|
                if 0 <= i < self.entries@.len() {
                    (self.entries@[i].0@, self.entries@[i].1.view())
                } else {
                    (seq![], JsonV::Null)
                },
        )
    }

    #[verifier::type_invariant]
    closed spec fn ordered(self) -> bool {
        keys_sorted(self.view())
    }
}

pub proof fn lemma_text_lt_total(a: Seq<char>, b: Seq<char>)
    ensures
        a == b || text_lt(a, b) || text_lt(b, a),
        !(text_lt(a, b) && text_lt(b, a)),
        !text_lt(a, a),
    decreases a.len(),
{
    if a.len() > 0 && b.len() > 0 {
        lemma_text_lt_total(a.skip(1), b.skip(1));
        if a[0] == b[0] && a.skip(1) == b.skip(1) {
            assert(a =~= seq![a[0]] + a.skip(1));
            assert(b =~= seq![b[0]] + b.skip(1));
        }
    } else if a.len() == 0 && b.len() == 0 {
        assert(a =~= b);
    }
    if a.len() > 0 {
        lemma_text_lt_irrefl(a.skip(1));
    }
}

pub proof fn lemma_text_lt_irrefl(a: Seq<char>)
    ensures
        !text_lt(a, a),
    decreases a.len(),
{
    if a.len() > 0 {
        lemma_text_lt_irrefl(a.skip(1));
    }
}

pub proof fn lemma_text_lt_trans(a: Seq<char>, b: Seq<char>, c: Seq<char>)
    requires
        text_lt(a, b),
        text_lt(b, c),
    ensures
        text_lt(a, c),
    decreases a.len(),
{
    if a.len() > 0 && a[0] == b[0] && b[0] == c[0] {
        lemma_text_lt_trans(a.skip(1), b.skip(1), c.skip(1));
    }
}

/// Whether `a` comes before `b`.
pub fn before(a: &[char], b: &[char]) -> (r: bool)
    ensures
        r == text_lt(a@, b@),
{
    let mut i: usize = 0;
    assert(a@.skip(0) =~= a@);
    assert(b@.skip(0) =~= b@);
    while i < a.len() && i < b.len()
        invariant
            i <= a@.len(),
            i <= b@.len(),
            text_lt(a@, b@) == text_lt(a@.skip(i as int), b@.skip(i as int)),
        decreases a@.len() - i,
    {
        if a[i] != b[i] {
            return a[i] < b[i];
        }
        assert(a@.skip(i as int).skip(1) =~= a@.skip(i + 1));
        assert(b@.skip(i as int).skip(1) =~= b@.skip(i + 1));
        i += 1;
    }
    i < b.len()
}

/// The entries with `key` bound to `value`.
pub open spec fn bind(
    e: Seq<(Seq<char>, JsonV)>,
    key: Seq<char>,
    value: JsonV,
) -> Seq<(Seq<char>, JsonV)>
    decreases e.len(),
{
    if e.len() == 0 {
        seq![(key, value)]
    } else if e[0].0 == key {
        seq![(key, value)] + e.skip(1)
    } else if text_lt(key, e[0].0) {
        seq![(key, value)] + e
    } else {
        seq![e[0]] + bind(e.skip(1), key, value)
    }
}

/// The value bound to `key`.
pub open spec fn lookup(e: Seq<(Seq<char>, JsonV)>, key: Seq<char>) -> Option<JsonV>
    decreases e.len(),
{
    if e.len() == 0 {
        None
    } else if e[0].0 == key {
        Some(e[0].1)
    } else {
        lookup(e.skip(1), key)
    }
}

pub proof fn lemma_bind(e: Seq<(Seq<char>, JsonV)>, key: Seq<char>, value: JsonV, i: int)
    requires
        0 <= i <= e.len(),
        forall|j: int| 0 <= j < i ==> text_lt((#[trigger] e[j]).0, key),
        i < e.len() ==> (e[i].0 == key || text_lt(key, e[i].0)),
    ensures
        bind(e, key, value) == (if i < e.len() && e[i].0 == key {
            e.update(i, (key, value))
        } else {
            e.insert(i, (key, value))
        }),
    decreases i,
{
    if i == 0 {
        if e.len() == 0 {
            assert(e.insert(0, (key, value)) =~= seq![(key, value)]);
        } else if e[0].0 == key {
            assert(e.update(0, (key, value)) =~= seq![(key, value)] + e.skip(1));
        } else {
            assert(e.insert(0, (key, value)) =~= seq![(key, value)] + e);
        }
    } else {
        lemma_text_lt_total(e[0].0, key);
        let t = e.skip(1);
        assert forall|j: int| 0 <= j < i - 1 implies text_lt((#[trigger] t[j]).0, key) by {
            assert(t[j] == e[j + 1]);
        }
        lemma_bind(t, key, value, i - 1);
        if i < e.len() && e[i].0 == key {
            assert(seq![e[0]] + t.update(i - 1, (key, value)) =~= e.update(i, (key, value)));
        } else {
            assert(seq![e[0]] + t.insert(i - 1, (key, value)) =~= e.insert(i, (key, value)));
        }
    }
}

pub proof fn lemma_lookup(e: Seq<(Seq<char>, JsonV)>, key: Seq<char>, i: int)
    requires
        0 <= i <= e.len(),
        forall|j: int| 0 <= j < i ==> (#[trigger] e[j]).0 != key,
        i < e.len() ==> e[i].0 == key,
    ensures
        lookup(e, key) == (if i < e.len() {
            Some(e[i].1)
        } else {
            None
        }),
    decreases i,
{
    if i > 0 {
        let t = e.skip(1);
        assert forall|j: int| 0 <= j < i - 1 implies (#[trigger] t[j]).0 != key by {
            assert(t[j] == e[j + 1]);
        }
        lemma_lookup(t, key, i - 1);
    }
}

pub proof fn lemma_sorted_skip(e: Seq<(Seq<char>, JsonV)>)
    requires
        keys_sorted(e),
        e.len() > 0,
    ensures
        keys_sorted(e.skip(1)),
        forall|j: int| 0 <= j < e.len() - 1 ==> text_lt(e[0].0, (#[trigger] e.skip(1)[j]).0),
{
    let t = e.skip(1);
    assert forall|i: int, j: int| 0 <= i < j < t.len() implies text_lt(
        #[trigger] t[i].0,
        #[trigger] t[j].0,
    ) by {
        assert(t[i] == e[i + 1] && t[j] == e[j + 1]);
    }
    assert forall|j: int| 0 <= j < e.len() - 1 implies text_lt(e[0].0, (#[trigger] e.skip(1)[j]).0) by {
        assert(t[j] == e[j + 1]);
    }
}

/// What was bound last is what is read back, and other keys are left alone.
pub proof fn lookup_after_bind(
    e: Seq<(Seq<char>, JsonV)>,
    key: Seq<char>,
    value: JsonV,
    other: Seq<char>,
)
    ensures
        lookup(bind(e, key, value), key) == Some(value),
        other != key ==> lookup(bind(e, key, value), other) == lookup(e, other),
    decreases e.len(),
{
    let b = bind(e, key, value);
    if e.len() == 0 {
        assert(b.skip(1) =~= e);
    } else if e[0].0 == key {
        assert(b.skip(1) =~= e.skip(1));
    } else if text_lt(key, e[0].0) {
        assert(b.skip(1) =~= e);
    } else {
        lookup_after_bind(e.skip(1), key, value, other);
        assert(b.skip(1) =~= bind(e.skip(1), key, value));
    }
}

/// Binding two different keys gives the same object in either order.
pub proof fn bind_commutes(
    e: Seq<(Seq<char>, JsonV)>,
    k1: Seq<char>,
    v1: JsonV,
    k2: Seq<char>,
    v2: JsonV,
)
    requires
        keys_sorted(e),
        k1 != k2,
    ensures
        bind(bind(e, k1, v1), k2, v2) == bind(bind(e, k2, v2), k1, v1),
    decreases e.len(),
{
    lemma_text_lt_total(k1, k2);
    let b1 = bind(e, k1, v1);
    let b2 = bind(e, k2, v2);
    if e.len() == 0 {
        assert(b1.skip(1) =~= e);
        assert(b2.skip(1) =~= e);
        assert(bind(b1, k2, v2) =~= bind(b2, k1, v1));
    } else {
        lemma_sorted_skip(e);
        lemma_text_lt_total(k1, e[0].0);
        lemma_text_lt_total(k2, e[0].0);
        let t = e.skip(1);
        bind_commutes(t, k1, v1, k2, v2);
        if text_lt(k1, k2) && text_lt(k2, e[0].0) {
            lemma_text_lt_trans(k1, k2, e[0].0);
        }
        if text_lt(k2, k1) && text_lt(k1, e[0].0) {
            lemma_text_lt_trans(k2, k1, e[0].0);
        }
        if text_lt(k1, k2) && text_lt(e[0].0, k1) {
            lemma_text_lt_trans(e[0].0, k1, k2);
        }
        if text_lt(k2, k1) && text_lt(e[0].0, k2) {
            lemma_text_lt_trans(e[0].0, k2, k1);
        }
        if text_lt(k1, e[0].0) && text_lt(e[0].0, k2) {
            lemma_text_lt_trans(k1, e[0].0, k2);
        }
        if text_lt(k2, e[0].0) && text_lt(e[0].0, k1) {
            lemma_text_lt_trans(k2, e[0].0, k1);
        }
        assert(b1.skip(1) =~= (if e[0].0 == k1 {
            t
        } else if text_lt(k1, e[0].0) {
            e
        } else {
            bind(t, k1, v1)
        }));
        assert(b2.skip(1) =~= (if e[0].0 == k2 {
            t
        } else if text_lt(k2, e[0].0) {
            e
        } else {
            bind(t, k2, v2)
        }));
        assert((seq![(k1, v1)] + t).skip(1) =~= t);
        assert((seq![(k2, v2)] + t).skip(1) =~= t);
        assert((seq![(k1, v1)] + e).skip(1) =~= e);
        assert((seq![(k2, v2)] + e).skip(1) =~= e);
        assert(bind(b1, k2, v2) =~= bind(b2, k1, v1));
    }
}

impl Object {
    /// An object without entries.
    pub fn new() -> (r: Object)
        ensures
            r.view() == Seq::<(Seq<char>, JsonV)>::empty(),
    {
        let entries: Vec<(String, Json)> = Vec::new();
        let r = Object { entries };
        assert(r.view() =~= Seq::<(Seq<char>, JsonV)>::empty());
        r
    }

    /// Binds `key` to `value`, in place of what it was bound to.
    pub fn insert(&mut self, key: String, value: Json)
        ensures
            final(self).view() == bind(old(self).view(), key@, value.view()),
    {
        proof {
            use_type_invariant(&*self);
        }
        let ghost e0 = self.view();
        let mut entries: Vec<(String, Json)> = Vec::new();
        std::mem::swap(&mut entries, &mut self.entries);
        let k = text::chars_of(key.as_str());
        let mut i: usize = 0;
        while i < entries.len()
            invariant_except_break
                k@ == key@,
                i <= entries@.len(),
                keys_sorted(e0),
                e0.len() == entries@.len(),
                forall|j: int| 0 <= j < e0.len() ==> #[trigger] e0[j] == (entries@[j].0@, entries@[j].1.view()),
                forall|j: int| 0 <= j < i ==> text_lt((#[trigger] e0[j]).0, key@),
            ensures
                i <= entries@.len(),
                forall|j: int| 0 <= j < i ==> text_lt((#[trigger] e0[j]).0, key@),
                i < e0.len() ==> (e0[i as int].0 == key@ || text_lt(key@, e0[i as int].0)),
            decreases entries@.len() - i,
        {
            let c = text::chars_of(entries[i].0.as_str());
            assert(c@ == e0[i as int].0);
            if !before(&c, &k) {
                proof {
                    lemma_text_lt_total(e0[i as int].0, key@);
                }
                break;
            }
            i += 1;
        }
        proof {
            lemma_bind(e0, key@, value.view(), i as int);
        }
        let ghost k2 = key@;
        let ghost v2 = value.view();
        if i < entries.len() {
            let c = text::chars_of(entries[i].0.as_str());
            assert(c@ == e0[i as int].0);
            if text::same(&c, &k) {
                entries.set(i, (key, value));
            } else {
                entries.insert(i, (key, value));
            }
        } else {
            entries.insert(i, (key, value));
        }
        proof {
            let o = Object { entries };
            assert(o.view() =~= bind(e0, k2, v2));
            let b = o.view();
            assert forall|x: int, y: int| 0 <= x < y < b.len() implies text_lt(
                #[trigger] b[x].0,
                #[trigger] b[y].0,
            ) by {
                lemma_bind_sorted(e0, k2, v2);
            }
        }
        self.entries = entries;
    }

    /// The value bound to `key`.
    pub fn get(&self, key: &str) -> (r: Option<&Json>)
        ensures
            match r {
                Some(v) => lookup(self.view(), key@) == Some(v.view()),
                None => lookup(self.view(), key@) is None,
            },
    {
        let k = text::chars_of(key);
        let ghost e = self.view();
        let mut i: usize = 0;
        while i < self.entries.len()
            invariant
                k@ == key@,
                e == self.view(),
                i <= self.entries@.len(),
                forall|j: int| 0 <= j < i ==> (#[trigger] e[j]).0 != key@,
            decreases self.entries@.len() - i,
        {
            let c = text::chars_of(self.entries[i].0.as_str());
            assert(c@ == e[i as int].0);
            if text::same(&c, &k) {
                proof {
                    lemma_lookup(e, key@, i as int);
                }
                return Some(&self.entries[i].1);
            }
            i += 1;
        }
        proof {
            lemma_lookup(e, key@, i as int);
        }
        None
    }

    /// How many entries there are; their keys are distinct and in increasing order.
    pub fn len(&self) -> (r: usize)
        ensures
            r == self.view().len(),
            keys_sorted(self.view()),
    {
        proof {
            use_type_invariant(&*self);
        }
        self.entries.len()
    }

    /// The `i`th key.
    pub fn key_at(&self, i: usize) -> (r: &String)
        requires
            i < self.view().len(),
        ensures
            r@ == self.view()[i as int].0,
    {
        &self.entries[i].0
    }

    /// The `i`th value.
    pub fn value_at(&self, i: usize) -> (r: &Json)
        requires
            i < self.view().len(),
        ensures
            r.view() == self.view()[i as int].1,
    {
        &self.entries[i].1
    }
}

/// Binding a key keeps the keys distinct and in order.
pub proof fn lemma_bind_sorted(e: Seq<(Seq<char>, JsonV)>, key: Seq<char>, value: JsonV)
    requires
        keys_sorted(e),
    ensures
        keys_sorted(bind(e, key, value)),
        forall|j: int|
            0 <= j < bind(e, key, value).len() ==> (#[trigger] bind(e, key, value)[j]).0 == key || exists|
                i: int,
            |
                0 <= i < e.len() && (#[trigger] e[i]).0 == bind(e, key, value)[j].0,
    decreases e.len(),
{
    let b = bind(e, key, value);
    if e.len() == 0 {
    } else {
        lemma_sorted_skip(e);
        lemma_text_lt_total(e[0].0, key);
        let t = e.skip(1);
        lemma_bind_sorted(t, key, value);
        if e[0].0 == key {
            assert forall|i: int, j: int| 0 <= i < j < b.len() implies text_lt(
                #[trigger] b[i].0,
                #[trigger] b[j].0,
            ) by {
                assert(b[j] == e[j]);
                assert(b[i].0 == e[i].0);
            }
            assert forall|j: int| 0 <= j < b.len() implies (#[trigger] b[j]).0 == key || exists|i: int|
                0 <= i < e.len() && (#[trigger] e[i]).0 == b[j].0 by {
                assert(e[j].0 == b[j].0);
            }
        } else if text_lt(key, e[0].0) {
            assert forall|i: int, j: int| 0 <= i < j < b.len() implies text_lt(
                #[trigger] b[i].0,
                #[trigger] b[j].0,
            ) by {
                assert(b[j] == e[j - 1]);
                if i == 0 {
                    if j > 1 {
                        lemma_text_lt_trans(key, e[0].0, e[j - 1].0);
                    }
                } else {
                    assert(b[i] == e[i - 1]);
                }
            }
            assert forall|j: int| 0 <= j < b.len() implies (#[trigger] b[j]).0 == key || exists|i: int|
                0 <= i < e.len() && (#[trigger] e[i]).0 == b[j].0 by {
                if j > 0 {
                    assert(e[j - 1].0 == b[j].0);
                }
            }
        } else {
            let bt = bind(t, key, value);
            assert forall|i: int, j: int| 0 <= i < j < b.len() implies text_lt(
                #[trigger] b[i].0,
                #[trigger] b[j].0,
            ) by {
                assert(b[j] == bt[j - 1]);
                if i == 0 {
                    if bt[j - 1].0 != key {
                        let x = choose|x: int| 0 <= x < t.len() && (#[trigger] t[x]).0 == bt[j - 1].0;
                        assert(t[x] == e[x + 1]);
                    }
                } else {
                    assert(b[i] == bt[i - 1]);
                }
            }
            assert forall|j: int| 0 <= j < b.len() implies (#[trigger] b[j]).0 == key || exists|i: int|
                0 <= i < e.len() && (#[trigger] e[i]).0 == b[j].0 by {
                if j == 0 {
                    assert(e[0].0 == b[0].0);
                } else {
                    assert(b[j] == bt[j - 1]);
                    if bt[j - 1].0 != key {
                        let x = choose|x: int| 0 <= x < t.len() && (#[trigger] t[x]).0 == bt[j - 1].0;
                        assert(t[x] == e[x + 1]);
                        assert(e[x + 1].0 == b[j].0);
                    }
                }
            }
        }
    }
}

impl Json {
    /// The member `key` of an object.
    pub fn get(&self, key: &str) -> (r: Option<&Json>)
        ensures
            match r {
                Some(v) => member(self.view(), key@) == Some(v.view()),
                None => member(self.view(), key@) is None,
            },
    {
        match self {
            Json::Object(o) => o.get(key),
            _ => None,
        }
    }

    /// The text of a string value.
    pub fn as_str(&self) -> (r: Option<&str>)
        ensures
            match r {
                Some(s) => text_of(self.view()) == Some(s@),
                None => text_of(self.view()) is None,
            },
    {
        match self {
            Json::Str(s) => Some(s.as_str()),
            _ => None,
        }
    }

    /// The truth value of a boolean.
    pub fn as_bool(&self) -> (r: Option<bool>)
        ensures
            r == bool_of(self.view()),
    {
        match self {
            Json::Bool(b) => Some(*b),
            _ => None,
        }
    }

    /// The value of a number written as an unsigned 64-bit integer.
    pub fn as_u64(&self) -> (r: Option<u64>)
        ensures
            match r {
                Some(n) => unsigned_of(self.view()) == Some(n as nat),
                None => unsigned_of(self.view()) is None,
            },
    {
        match self {
            Json::Number(n) => {
                let v = text::chars_of(n.as_str());
                if v.len() > 0 && v[0] == '+' {
                    assert(!chars::is_digit(v@[0]));
                    return None;
                }
                text::parse_u64(&v, u64::MAX)
            },
            _ => None,
        }
    }

    /// The text of the string member `key`.
    pub fn str_member(&self, key: &str) -> (r: Option<&str>)
        ensures
            match r {
                Some(s) => member_text(self.view(), key@) == Some(s@),
                None => member_text(self.view(), key@) is None,
            },
    {
        match self.get(key) {
            Some(v) => v.as_str(),
            None => None,
        }
    }

    /// A copy of the value.
    pub fn copy(&self) -> (r: Json)
        ensures
            r.view() == self.view(),
        decreases self.view(),
    {
        match self {
            Json::Null => Json::Null,
            Json::Bool(b) => Json::Bool(*b),
            Json::Number(n) => Json::Number(n.clone()),
            Json::Str(s) => Json::Str(s.clone()),
            Json::Array(items) => {
                let mut out: Vec<Json> = Vec::new();
                let mut i: usize = 0;
                let ghost s = self.view()->Array_0;
                while i < items.len()
                    invariant
                        s.len() == items@.len(),
                        forall|j: int| 0 <= j < s.len() ==> #[trigger] s[j] == items@[j].view(),
                        self.view() == JsonV::Array(s),
                        i <= items@.len(),
                        out@.len() == i,
                        forall|j: int| 0 <= j < i ==> (#[trigger] out@[j]).view() == s[j],
                    decreases items@.len() - i,
                {
                    assert(decreases_to!(self.view() => self.view()->Array_0));
                    assert(decreases_to!(s => s[i as int]));
                    out.push(items[i].copy());
                    i += 1;
                }
                let r = Json::Array(out);
                assert(r.view()->Array_0 =~= s);
                r
            },
            Json::Object(o) => {
                let n: usize = o.len();
                let ghost e = o.view();
                let mut entries: Vec<(String, Json)> = Vec::new();
                let mut i: usize = 0;
                while i < n
                    invariant
                        n == e.len(),
                        e == o.view(),
                        self.view() == JsonV::Object(e),
                        i <= n,
                        entries@.len() == i,
                        forall|j: int|
                            0 <= j < i ==> (#[trigger] entries@[j]).0@ == e[j].0
                                && entries@[j].1.view() == e[j].1,
                    decreases n - i,
                {
                    assert(decreases_to!(self.view() => self.view()->Object_0));
                    assert(decreases_to!(e => e[i as int]));
                    assert(decreases_to!(e[i as int] => e[i as int].1));
                    entries.push((o.key_at(i).clone(), o.value_at(i).copy()));
                    i += 1;
                }
                proof {
                    let c = Object { entries };
                    assert(c.view() =~= e);
                }
                Json::Object(Object { entries })
            },
        }
    }
}

/// The member `key` of an object.
pub open spec fn member(v: JsonV, key: Seq<char>) -> Option<JsonV> {
    match v {
        JsonV::Object(e) => lookup(e, key),
        _ => None,
    }
}

/// The text of a string value.
pub open spec fn text_of(v: JsonV) -> Option<Seq<char>> {
    match v {
        JsonV::Str(s) => Some(s),
        _ => None,
    }
}

/// The truth value of a boolean.
pub open spec fn bool_of(v: JsonV) -> Option<bool> {
    match v {
        JsonV::Bool(b) => Some(b),
        _ => None,
    }
}

/// The value of a number written as an unsigned 64-bit integer.
pub open spec fn unsigned_of(v: JsonV) -> Option<nat> {
    match v {
        JsonV::Number(n) => if chars::all_digits(n) && chars::value(n) <= u64::MAX {
            Some(chars::value(n))
        } else {
            None
        },
        _ => None,
    }
}

/// The text of the string member `key`.
pub open spec fn member_text(v: JsonV, key: Seq<char>) -> Option<Seq<char>> {
    match member(v, key) {
        Some(m) => text_of(m),
        None => None,
    }
}

/// A character inside a JSON string: the quote, the backslash and the control characters
/// below the space are escaped, the usual five of them by a letter, the others by their
/// number; every other character stands for itself.
pub open spec fn escaped(c: char) -> Seq<char> {
    let n = c as nat;
    if c == '"' || c == '\\' {
        seq!['\\', c]
    } else if n == 8 {
        seq!['\\', 'b']
    } else if n == 9 {
        seq!['\\', 't']
    } else if n == 10 {
        seq!['\\', 'n']
    } else if n == 12 {
        seq!['\\', 'f']
    } else if n == 13 {
        seq!['\\', 'r']
    } else if n < 32 {
        seq!['\\', 'u', '0', '0', chars::hex_digit(n / 16), chars::hex_digit(n % 16)]
    } else {
        seq![c]
    }
}

/// The characters of a text, escaped one by one.
pub open spec fn escaped_text(s: Seq<char>) -> Seq<char>
    decreases s.len(),
{
    if s.len() == 0 {
        seq![]
    } else {
        escaped(s[0]) + escaped_text(s.skip(1))
    }
}

/// A text as a JSON string.
pub open spec fn quoted(s: Seq<char>) -> Seq<char> {
    seq!['"'] + escaped_text(s) + seq!['"']
}

/// Calls `serde_json::to_string` on a string, which cannot fail: it writes the text in
/// quotes, each character escaped where JSON asks for it.
#[verifier::external_body]
pub(crate) fn quote(s: &str) -> (r: String)
    ensures
        r@ == quoted(s@),
{
    serde_json::to_string(s).unwrap_or_default()
}

/// The compact text of a JSON value: no whitespace, members in key order.
pub open spec fn compact(v: JsonV) -> Seq<char>
    decreases v, 0nat,
{
    match v {
        JsonV::Null => "null"@,
        JsonV::Bool(b) => if b {
            "true"@
        } else {
            "false"@
        },
        JsonV::Number(n) => n,
        JsonV::Str(s) => quoted(s),
        JsonV::Array(items) => seq!['['] + compact_items(items, items.len()) + seq![']'],
        JsonV::Object(e) => seq!['{'] + compact_entries(e, e.len()) + seq!['}'],
    }
}

pub open spec fn compact_items(items: Seq<JsonV>, n: nat) -> Seq<char>
    decreases items, n,
{
    if n == 0 || n > items.len() {
        seq![]
    } else if n == 1 {
        compact(items[0])
    } else {
        compact_items(items, (n - 1) as nat) + seq![','] + compact(items[n - 1])
    }
}

pub open spec fn compact_entries(e: Seq<(Seq<char>, JsonV)>, n: nat) -> Seq<char>
    decreases e, n,
{
    if n == 0 || n > e.len() {
        seq![]
    } else {
        compact_entries(e, (n - 1) as nat) + (if n > 1 {
            seq![',']
        } else {
            seq![]
        }) + quoted(e[n - 1].0) + seq![':'] + compact(e[n - 1].1)
    }
}

/// Appends the compact text of `v`.
fn push_compact(v: &Json, out: &mut String)
    ensures
        final(out)@ == old(out)@ + compact(v.view()),
    decreases v.view(),
{
    match v {
        Json::Null => {
            out.push_str("null");
        },
        Json::Bool(b) => {
            if *b {
                out.push_str("true");
            } else {
                out.push_str("false");
            }
        },
        Json::Number(n) => {
            out.push_str(n.as_str());
        },
        Json::Str(s) => {
            out.push_str(quote(s.as_str()).as_str());
        },
        Json::Array(items) => {
            out.push('[');
            let mut i: usize = 0;
            let ghost s = v.view()->Array_0;
            let ghost head = out@;
            assert(out@ =~= head + compact_items(s, 0));
            while i < items.len()
                invariant
                    s.len() == items@.len(),
                    forall|j: int| 0 <= j < s.len() ==> #[trigger] s[j] == items@[j].view(),
                    v.view() == JsonV::Array(s),
                    i <= items@.len(),
                    out@ == head + compact_items(s, i as nat),
                decreases items@.len() - i,
            {
                if i > 0 {
                    out.push(',');
                }
                assert(decreases_to!(v.view() => v.view()->Array_0));
                assert(decreases_to!(s => s[i as int]));
                push_compact(&items[i], out);
                i += 1;
                assert(out@ =~= head + compact_items(s, i as nat));
            }
            out.push(']');
            assert(out@ =~= old(out)@ + compact(v.view()));
        },
        Json::Object(o) => {
            out.push('{');
            let n: usize = o.len();
            let mut i: usize = 0;
            let ghost e = o.view();
            let ghost head = out@;
            assert(out@ =~= head + compact_entries(e, 0));
            while i < n
                invariant
                    n == e.len(),
                    e == o.view(),
                    v.view() == JsonV::Object(e),
                    i <= n,
                    out@ == head + compact_entries(e, i as nat),
                decreases n - i,
            {
                if i > 0 {
                    out.push(',');
                }
                out.push_str(quote(o.key_at(i).as_str()).as_str());
                out.push(':');
                assert(decreases_to!(v.view() => v.view()->Object_0));
                assert(decreases_to!(e => e[i as int]));
                assert(decreases_to!(e[i as int] => e[i as int].1));
                push_compact(o.value_at(i), out);
                i += 1;
                assert(out@ =~= head + compact_entries(e, i as nat));
            }
            out.push('}');
            assert(out@ =~= old(out)@ + compact(v.view()));
        },
    }
}

/// A character that occurs in numbers.
pub open spec fn in_number(c: char) -> bool {
    chars::is_digit(c) || c == '+' || c == '-' || c == '.' || c == 'e' || c == 'E'
}

/// Whether every number of a value is written with the characters of numbers.
pub open spec fn sound_numbers(v: JsonV) -> bool
    decreases v,
{
    match v {
        JsonV::Number(n) => n.len() > 0 && forall|i: int|
            0 <= i < n.len() ==> in_number(#[trigger] n[i]),
        JsonV::Array(items) => forall|i: int|
            0 <= i < items.len() ==> sound_numbers(#[trigger] items[i]),
        JsonV::Object(e) => forall|i: int|
            0 <= i < e.len() ==> sound_numbers((#[trigger] e[i]).1),
        _ => true,
    }
}

/// A number in decimal is written as a number.
pub proof fn lemma_dec_sound(n: nat)
    ensures
        sound_numbers(JsonV::Number(chars::dec(n))),
{
    chars::lemma_dec_digits(n);
}

/// Entries stay sound when a sound value is bound.
pub proof fn lemma_bind_sound(e: Seq<(Seq<char>, JsonV)>, key: Seq<char>, value: JsonV)
    requires
        sound_numbers(JsonV::Object(e)),
        sound_numbers(value),
    ensures
        sound_numbers(JsonV::Object(bind(e, key, value))),
{
    let whole = JsonV::Object(e);
    assert(sound_numbers(whole));
    assert forall|i: int| 0 <= i < e.len() implies sound_numbers((#[trigger] e[i]).1) by {
        assert(whole->Object_0[i] == e[i]);
    }
    lemma_bind_entries_sound(e, key, value);
}

proof fn lemma_bind_entries_sound(e: Seq<(Seq<char>, JsonV)>, key: Seq<char>, value: JsonV)
    requires
        forall|i: int| 0 <= i < e.len() ==> sound_numbers((#[trigger] e[i]).1),
        sound_numbers(value),
    ensures
        forall|i: int|
            0 <= i < bind(e, key, value).len() ==> sound_numbers(
                (#[trigger] bind(e, key, value)[i]).1,
            ),
    decreases e.len(),
{
    if e.len() > 0 {
        let t = e.skip(1);
        let b = bind(e, key, value);
        let rest = bind(t, key, value);
        assert(forall|i: int| 0 <= i < t.len() ==> (#[trigger] t[i]) == e[i + 1]);
        lemma_bind_entries_sound(t, key, value);
        assert forall|i: int| 0 <= i < b.len() implies sound_numbers((#[trigger] b[i]).1) by {
            if e[0].0 == key {
                assert(i > 0 ==> b[i] == e[i]);
            } else if text_lt(key, e[0].0) {
                assert(i > 0 ==> b[i] == e[i - 1]);
            } else {
                assert(i > 0 ==> b[i] == rest[i - 1]);
                assert(i == 0 ==> b[i] == e[0]);
            }
        }
    }
}

/// Whether a text has no control characters, and so stands on one line.
pub open spec fn one_line(s: Seq<char>) -> bool {
    forall|i: int| 0 <= i < s.len() ==> (#[trigger] s[i]) as nat >= 32
}

proof fn lemma_one_line_add(a: Seq<char>, b: Seq<char>)
    requires
        one_line(a),
        one_line(b),
    ensures
        one_line(a + b),
{
    assert forall|i: int| 0 <= i < (a + b).len() implies (#[trigger] (a + b)[i]) as nat >= 32 by {
        if i < a.len() {
            assert((a + b)[i] == a[i]);
        } else {
            assert((a + b)[i] == b[i - a.len()]);
        }
    }
}

/// Law: a text in quotes stands on one line, whatever it holds.
pub proof fn quoted_text_is_one_line(s: Seq<char>)
    ensures
        one_line(quoted(s)),
        one_line(escaped_text(s)),
    decreases s.len(),
{
    if s.len() > 0 {
        quoted_text_is_one_line(s.skip(1));
        assert(one_line(escaped(s[0])));
        lemma_one_line_add(escaped(s[0]), escaped_text(s.skip(1)));
    }
    lemma_one_line_add(seq!['"'], escaped_text(s));
    lemma_one_line_add(seq!['"'] + escaped_text(s), seq!['"']);
}

/// Law: the compact text of a value stands on one line.
pub proof fn compact_text_is_one_line(v: JsonV)
    requires
        sound_numbers(v),
    ensures
        one_line(compact(v)),
    decreases v, 0nat,
{
    reveal_strlit("null");
    reveal_strlit("true");
    reveal_strlit("false");
    match v {
        JsonV::Str(s) => {
            quoted_text_is_one_line(s);
        },
        JsonV::Number(n) => {
            assert forall|i: int| 0 <= i < n.len() implies (#[trigger] n[i]) as nat >= 32 by {
                assert(in_number(n[i]));
            }
        },
        JsonV::Array(items) => {
            lemma_items_one_line(items, items.len());
            lemma_one_line_add(seq!['['], compact_items(items, items.len()));
            lemma_one_line_add(seq!['['] + compact_items(items, items.len()), seq![']']);
        },
        JsonV::Object(e) => {
            lemma_entries_one_line(e, e.len());
            lemma_one_line_add(seq!['{'], compact_entries(e, e.len()));
            lemma_one_line_add(seq!['{'] + compact_entries(e, e.len()), seq!['}']);
        },
        _ => {},
    }
}

proof fn lemma_items_one_line(items: Seq<JsonV>, n: nat)
    requires
        n <= items.len(),
        forall|i: int| 0 <= i < items.len() ==> sound_numbers(#[trigger] items[i]),
    ensures
        one_line(compact_items(items, n)),
    decreases items, n,
{
    if n == 1 {
        compact_text_is_one_line(items[0]);
    } else if n > 1 {
        lemma_items_one_line(items, (n - 1) as nat);
        compact_text_is_one_line(items[n - 1]);
        let head = compact_items(items, (n - 1) as nat);
        lemma_one_line_add(head, seq![',']);
        lemma_one_line_add(head + seq![','], compact(items[n - 1]));
    }
}

proof fn lemma_entries_one_line(e: Seq<(Seq<char>, JsonV)>, n: nat)
    requires
        n <= e.len(),
        forall|i: int| 0 <= i < e.len() ==> sound_numbers((#[trigger] e[i]).1),
    ensures
        one_line(compact_entries(e, n)),
    decreases e, n,
{
    if n > 0 {
        lemma_entries_one_line(e, (n - 1) as nat);
        assert(decreases_to!(e[n - 1] => e[n - 1].1));
        compact_text_is_one_line(e[n - 1].1);
        quoted_text_is_one_line(e[n - 1].0);
        let head = compact_entries(e, (n - 1) as nat);
        let sep = if n > 1 {
            seq![',']
        } else {
            seq![]
        };
        lemma_one_line_add(head, sep);
        lemma_one_line_add(head + sep, quoted(e[n - 1].0));
        lemma_one_line_add(head + sep + quoted(e[n - 1].0), seq![':']);
        lemma_one_line_add(head + sep + quoted(e[n - 1].0) + seq![':'], compact(e[n - 1].1));
    }
}

/// A new line, indented by `depth` levels of two spaces.
pub open spec fn fresh_line(depth: nat) -> Seq<char> {
    seq!['\n'] + chars::repeat(' ', 2 * depth)
}

/// The indented text of a JSON value, as nested `depth` levels deep.
pub open spec fn pretty(v: JsonV, depth: nat) -> Seq<char>
    decreases v, 0nat,
{
    match v {
        JsonV::Array(items) => if items.len() == 0 {
            seq!['[', ']']
        } else {
            seq!['['] + pretty_items(items, items.len(), depth + 1) + fresh_line(depth) + seq![']']
        },
        JsonV::Object(e) => if e.len() == 0 {
            seq!['{', '}']
        } else {
            seq!['{'] + pretty_entries(e, e.len(), depth + 1) + fresh_line(depth) + seq!['}']
        },
        _ => compact(v),
    }
}

pub open spec fn pretty_items(items: Seq<JsonV>, n: nat, depth: nat) -> Seq<char>
    decreases items, n,
{
    if n == 0 || n > items.len() {
        seq![]
    } else {
        pretty_items(items, (n - 1) as nat, depth) + (if n > 1 {
            seq![',']
        } else {
            seq![]
        }) + fresh_line(depth) + pretty(items[n - 1], depth)
    }
}

pub open spec fn pretty_entries(e: Seq<(Seq<char>, JsonV)>, n: nat, depth: nat) -> Seq<char>
    decreases e, n,
{
    if n == 0 || n > e.len() {
        seq![]
    } else {
        pretty_entries(e, (n - 1) as nat, depth) + (if n > 1 {
            seq![',']
        } else {
            seq![]
        }) + fresh_line(depth) + quoted(e[n - 1].0) + seq![':', ' '] + pretty(e[n - 1].1, depth)
    }
}

/// Appends a new line, indented by the spaces of `pad`.
fn push_fresh_line(out: &mut String, pad: &Vec<char>)
    ensures
        final(out)@ == old(out)@ + (seq!['\n'] + pad@),
{
    out.push('\n');
    text::push_chars(out, pad);
    assert(out@ =~= old(out)@ + (seq!['\n'] + pad@));
}

/// Appends the indented text of `v`; `pad` holds the spaces of the current level.
fn push_pretty(v: &Json, pad: &Vec<char>, depth: Ghost<nat>, out: &mut String)
    requires
        pad@ == chars::repeat(' ', 2 * depth@),
    ensures
        final(out)@ == old(out)@ + pretty(v.view(), depth@),
    decreases v.view(),
{
    let mut inner = text::to_vec(pad);
    inner.push(' ');
    inner.push(' ');
    assert(inner@ =~= chars::repeat(' ', 2 * (depth@ + 1)));
    match v {
        Json::Array(items) => {
            let ghost s = v.view()->Array_0;
            if items.len() == 0 {
                out.push('[');
                out.push(']');
                assert(out@ =~= old(out)@ + pretty(v.view(), depth@));
                return;
            }
            out.push('[');
            let mut i: usize = 0;
            let ghost head = out@;
            assert(out@ =~= head + pretty_items(s, 0, depth@ + 1));
            while i < items.len()
                invariant
                    inner@ == chars::repeat(' ', 2 * (depth@ + 1)),
                    s.len() == items@.len(),
                    forall|j: int| 0 <= j < s.len() ==> #[trigger] s[j] == items@[j].view(),
                    v.view() == JsonV::Array(s),
                    i <= items@.len(),
                    out@ == head + pretty_items(s, i as nat, depth@ + 1),
                decreases items@.len() - i,
            {
                if i > 0 {
                    out.push(',');
                }
                push_fresh_line(out, &inner);
                assert(decreases_to!(v.view() => v.view()->Array_0));
                assert(decreases_to!(s => s[i as int]));
                push_pretty(&items[i], &inner, Ghost(depth@ + 1), out);
                i += 1;
                assert(out@ =~= head + pretty_items(s, i as nat, depth@ + 1));
            }
            push_fresh_line(out, pad);
            out.push(']');
            assert(out@ =~= old(out)@ + pretty(v.view(), depth@));
        },
        Json::Object(o) => {
            let ghost e = o.view();
            let n: usize = o.len();
            if n == 0 {
                out.push('{');
                out.push('}');
                assert(out@ =~= old(out)@ + pretty(v.view(), depth@));
                return;
            }
            out.push('{');
            let mut i: usize = 0;
            let ghost head = out@;
            assert(out@ =~= head + pretty_entries(e, 0, depth@ + 1));
            while i < n
                invariant
                    inner@ == chars::repeat(' ', 2 * (depth@ + 1)),
                    n == e.len(),
                    e == o.view(),
                    v.view() == JsonV::Object(e),
                    i <= n,
                    out@ == head + pretty_entries(e, i as nat, depth@ + 1),
                decreases n - i,
            {
                if i > 0 {
                    out.push(',');
                }
                push_fresh_line(out, &inner);
                out.push_str(quote(o.key_at(i).as_str()).as_str());
                out.push(':');
                out.push(' ');
                assert(decreases_to!(v.view() => v.view()->Object_0));
                assert(decreases_to!(e => e[i as int]));
                assert(decreases_to!(e[i as int] => e[i as int].1));
                push_pretty(o.value_at(i), &inner, Ghost(depth@ + 1), out);
                i += 1;
                assert(out@ =~= head + pretty_entries(e, i as nat, depth@ + 1));
            }
            push_fresh_line(out, pad);
            out.push('}');
            assert(out@ =~= old(out)@ + pretty(v.view(), depth@));
        },
        _ => {
            push_compact(v, out);
        },
    }
}

/// The compact text of `v`.
pub fn to_compact(v: &Json) -> (r: String)
    ensures
        r@ == compact(v.view()),
{
    let mut out = String::new();
    push_compact(v, &mut out);
    assert(out@ =~= compact(v.view()));
    out
}

/// The indented text of `v`.
pub fn to_pretty(v: &Json) -> (r: String)
    ensures
        r@ == pretty(v.view(), 0),
{
    let mut out = String::new();
    let pad: Vec<char> = Vec::new();
    assert(pad@ =~= chars::repeat(' ', 0));
    push_pretty(v, &pad, Ghost(0nat), &mut out);
    assert(out@ =~= pretty(v.view(), 0));
    out
}

/// A parsed JSON document of `serde_json`.
#[verifier::external_type_specification]
#[verifier::external_body]
pub struct ExValue(serde_json::Value);

/// What a `serde_json::Value` holds: numbers by their text, objects by their
/// members in key order.
pub uninterp spec fn tree(v: serde_json::Value) -> JsonV;

/// What `serde_json::from_str` makes of a text: the document it holds, or the
/// message of the error.
pub uninterp spec fn document(s: Seq<char>) -> Result<JsonV, Seq<char>>;

/// Calls `serde_json::from_str`. The outcome depends on the text alone, and the numbers
/// of a document are whole or finite, so that their texts are made of digits, signs,
/// points and exponents. Which texts are documents, and the wording of the error, is not
/// stated.
#[verifier::external_body]
fn parse_value(s: &str) -> (r: Result<serde_json::Value, String>)
    ensures
        match document(s@) {
            Ok(t) => r matches Ok(v) && tree(v) == t,
            Err(m) => r matches Err(e) && e@ == m,
        },
        r matches Ok(v) ==> sound_numbers(tree(v)),
{
    serde_json::from_str(s).map_err(|e| e.to_string())
}

/// Copies a `serde_json::Value` node by node; its map hands out members in key
/// order, each key once.
#[verifier::external_body]
fn from_value(v: &serde_json::Value) -> (r: Json)
    ensures
        r.view() == tree(*v),
{
    match v {
        serde_json::Value::Null => Json::Null,
        serde_json::Value::Bool(b) => Json::Bool(*b),
        serde_json::Value::Number(n) => Json::Number(n.to_string()),
        serde_json::Value::String(s) => Json::Str(s.clone()),
        serde_json::Value::Array(a) => Json::Array(a.iter().map(from_value).collect()),
        serde_json::Value::Object(m) => Json::Object(Object {
            entries: m.iter().map(|(k, x)| (k.clone(), from_value(x))).collect(),
        }),
    }
}

/// The document that `s` holds, or the message of the error. The numbers of a document
/// are written as numbers.
pub fn parse(s: &str) -> (r: Result<Json, String>)
    ensures
        match document(s@) {
            Ok(t) => r matches Ok(v) && v.view() == t,
            Err(m) => r matches Err(e) && e@ == m,
        },
        r matches Ok(v) ==> sound_numbers(v.view()),
{
    match parse_value(s) {
        Ok(v) => Ok(from_value(&v)),
        Err(e) => Err(e),
    }
}

/// Law: a further item stands behind the others, after a comma, and so does a further member
/// with its key.
pub proof fn further_parts_stand_behind(
    items: Seq<JsonV>,
    v: JsonV,
    e: Seq<(Seq<char>, JsonV)>,
    key: Seq<char>,
    depth: nat,
)
    ensures
        compact(JsonV::Array(Seq::empty())) == seq!['[', ']'],
        compact(JsonV::Object(Seq::empty())) == seq!['{', '}'],
        compact(JsonV::Array(items.push(v))) == compact(JsonV::Array(items)).drop_last() + (
        if items.len() > 0 {
            seq![',']
        } else {
            seq![]
        }) + compact(v) + seq![']'],
        compact(JsonV::Object(e.push((key, v)))) == compact(JsonV::Object(e)).drop_last() + (
        if e.len() > 0 {
            seq![',']
        } else {
            seq![]
        }) + quoted(key) + seq![':'] + compact(v) + seq!['}'],
        items.len() > 0 ==> pretty_items(items.push(v), items.len() + 1, depth) == pretty_items(
            items,
            items.len(),
            depth,
        ) + seq![',', '\n'] + chars::repeat(' ', 2 * depth) + pretty(v, depth),
        e.len() > 0 ==> pretty_entries(e.push((key, v)), e.len() + 1, depth) == pretty_entries(
            e,
            e.len(),
            depth,
        ) + seq![',', '\n'] + chars::repeat(' ', 2 * depth) + quoted(key) + seq![':', ' '] + pretty(
            v,
            depth,
        ),
{
    lemma_items_prefix(items, v, items.len(), depth);
    lemma_entries_prefix(e, key, v, e.len(), depth);
    let a = compact_items(items, items.len());
    let b = compact_entries(e, e.len());
    let all = items.push(v);
    let more = e.push((key, v));
    assert(all[items.len() as int] == v);
    assert(more[e.len() as int] == (key, v));
    assert(compact(JsonV::Array(Seq::empty())) =~= seq!['[', ']']);
    assert(compact(JsonV::Object(Seq::empty())) =~= seq!['{', '}']);
    assert((seq!['['] + a + seq![']']).drop_last() =~= seq!['['] + a);
    assert((seq!['{'] + b + seq!['}']).drop_last() =~= seq!['{'] + b);
    let none = Seq::<char>::empty();
    if items.len() == 0 {
        assert(a =~= none);
        assert(compact_items(all, 1) == compact(v));
        assert(seq!['['] + none + none + compact(v) + seq![']'] =~= seq!['['] + compact(v) + seq![
            ']',
        ]);
    } else {
        assert(compact_items(all, items.len() + 1) == a + seq![','] + compact(v));
        assert(seq!['['] + a + seq![','] + compact(v) + seq![']'] =~= seq!['['] + (a + seq![',']
            + compact(v)) + seq![']']);
        let c = pretty_items(items, items.len(), depth);
        assert(c + seq![','] + fresh_line(depth) =~= c + seq![',', '\n'] + chars::repeat(
            ' ',
            2 * depth,
        ));
    }
    let comma = if e.len() > 0 {
        seq![',']
    } else {
        none
    };
    assert(compact_entries(more, e.len() + 1) == b + comma + quoted(key) + seq![':'] + compact(v));
    assert(seq!['{'] + (b + comma + quoted(key) + seq![':'] + compact(v)) =~= seq!['{'] + b + comma
        + quoted(key) + seq![':'] + compact(v));
    if e.len() > 0 {
        let c = pretty_entries(e, e.len(), depth);
        assert(c + seq![','] + fresh_line(depth) =~= c + seq![',', '\n'] + chars::repeat(
            ' ',
            2 * depth,
        ));
    }
}

proof fn lemma_items_prefix(items: Seq<JsonV>, v: JsonV, n: nat, depth: nat)
    requires
        n <= items.len(),
    ensures
        compact_items(items.push(v), n) == compact_items(items, n),
        pretty_items(items.push(v), n, depth) == pretty_items(items, n, depth),
    decreases n,
{
    if n > 0 {
        lemma_items_prefix(items, v, (n - 1) as nat, depth);
        assert(items.push(v)[n - 1] == items[n - 1]);
        assert(items.push(v)[0] == items[0]);
    }
}

proof fn lemma_entries_prefix(e: Seq<(Seq<char>, JsonV)>, key: Seq<char>, v: JsonV, n: nat, depth: nat)
    requires
        n <= e.len(),
    ensures
        compact_entries(e.push((key, v)), n) == compact_entries(e, n),
        pretty_entries(e.push((key, v)), n, depth) == pretty_entries(e, n, depth),
    decreases n,
{
    if n > 0 {
        lemma_entries_prefix(e, key, v, (n - 1) as nat, depth);
        assert(e.push((key, v))[n - 1] == e[n - 1]);
    }
}

} // verus!
