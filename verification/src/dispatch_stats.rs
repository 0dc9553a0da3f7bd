//! How well background dispatch works out: volume, outcomes and latencies of the
//! stored coordinator runs.
use vstd::prelude::*;
use crate::chars;
use crate::db::CoordinatorRow;
use crate::text;

verus! {

/// A job that took at most this many seconds could likely have been answered inline.
pub const QUICK_JOB_SECS: i64 = 45;

/// Figures over a set of coordinator runs.
#[derive(Clone, Debug)]
pub struct DispatchStats {
    /// All jobs.
    pub dispatched: usize,
    pub done: usize,
    pub failed: usize,
    pub running: usize,
    /// Running jobs that wait for a batch.
    pub awaiting_batch: usize,
    /// Finished jobs with a known latency.
    pub timed: usize,
    /// The known latencies in seconds, in order.
    pub latencies: Vec<i64>,
    /// Timed jobs of at most [`QUICK_JOB_SECS`].
    pub quick: usize,
    pub bucket_lt_1m: usize,
    pub bucket_1_5m: usize,
    pub bucket_5_15m: usize,
    pub bucket_gt_15m: usize,
}

pub open spec fn is_leap(y: int) -> bool {
    y % 4 == 0 && (y % 100 != 0 || y % 400 == 0)
}

/// Days from 1970-01-01 to the first of January of year `y`, in the Gregorian
/// calendar.
pub open spec fn year_start(y: int) -> int {
    365 * y + (y + 3) / 4 - (y + 99) / 100 + (y + 399) / 400 - 719528
}

/// Days of a common year before month `m`.
pub open spec fn days_before(m: int) -> int {
    if m <= 1 {
        0
    } else if m == 2 {
        31
    } else if m == 3 {
        59
    } else if m == 4 {
        90
    } else if m == 5 {
        120
    } else if m == 6 {
        151
    } else if m == 7 {
        181
    } else if m == 8 {
        212
    } else if m == 9 {
        243
    } else if m == 10 {
        273
    } else if m == 11 {
        304
    } else {
        334
    }
}

/// Days from 1970-01-01 to day `d` of month `m` of year `y`.
pub open spec fn civil_day(y: int, m: int, d: int) -> int {
    year_start(y) + days_before(m) + (if m > 2 && is_leap(y) {
        1int
    } else {
        0
    }) + d - 1
}

/// Law: years follow one another, 366 days long when they are leap years and 365
/// otherwise, and 1970 starts at day zero.
pub proof fn years_follow(y: int)
    ensures
        year_start(1970) == 0,
        year_start(y + 1) == year_start(y) + (if is_leap(y) {
            366int
        } else {
            365
        }),
{
}

fn floor_div(a: i128, b: i128) -> (r: i128)
    requires
        0 < b,
        -0x4000_0000_0000_0000_0000_0000_0000_0000 < a
            < 0x4000_0000_0000_0000_0000_0000_0000_0000,
    ensures
        r == a as int / b as int,
{
    if a >= 0 {
        let q: u128 = (a as u128) / (b as u128);
        assert(q <= a) by (nonlinear_arith)
            requires
                q == a / b,
                a >= 0,
                b > 0,
        ;
        q as i128
    } else {
        let m: u128 = (-(a + 1)) as u128;
        let q: u128 = m / (b as u128);
        assert(q <= m) by (nonlinear_arith)
            requires
                q == m / (b as u128),
                b > 0,
        ;
        proof {
            lemma_floor(a as int, b as int, m as int, q as int);
        }
        -(q as i128) - 1
    }
}

proof fn lemma_floor(a: int, b: int, m: int, q: int)
    requires
        b > 0,
        a < 0,
        m == -(a + 1),
        q == m / b,
    ensures
        a / b == -q - 1,
{
    let r = m % b;
    assert(m == b * q + r && 0 <= r < b) by (nonlinear_arith)
        requires
            q == m / b,
            r == m % b,
            b > 0,
    ;
    assert(b * q == q * b) by (nonlinear_arith);
    let s = b - 1 - r;
    assert(a == (-q - 1) * b + s) by (nonlinear_arith)
        requires
            a == -m - 1,
            m == q * b + r,
            s == b - 1 - r,
    ;
    vstd::arithmetic::div_mod::lemma_fundamental_div_mod_converse(a, b, -q - 1, s);
}

/// Days from 1970-01-01 to day `d` of month `m` of year `y`.
fn days_from_civil(y: i64, m: i64, d: i64) -> (r: i128)
    requires
        1 <= m <= 12,
        1 <= d <= 31,
    ensures
        r == civil_day(y as int, m as int, d as int),
        -0x1_0000_0000_0000_0000_0000 < r < 0x1_0000_0000_0000_0000_0000,
{
    let yy: i128 = if m <= 2 { y as i128 - 1 } else { y as i128 };
    let era: i128 = floor_div(yy, 400);
    let yoe: i128 = yy - era * 400;
    let mp: i128 = if m > 2 { m as i128 - 3 } else { m as i128 + 9 };
    let doy: i128 = floor_div(153 * mp + 2, 5) + d as i128 - 1;
    let doe: i128 = yoe * 365 + floor_div(yoe, 4) - floor_div(yoe, 100) + doy;
    proof {
        lemma_civil(y as int, m as int, d as int, yy as int, era as int, yoe as int);
    }
    era * 146_097 + doe - 719_468
}

proof fn lemma_civil(y: int, m: int, d: int, yy: int, era: int, yoe: int)
    requires
        1 <= m <= 12,
        yy == (if m <= 2 {
            y - 1
        } else {
            y
        }),
        era == yy / 400,
        yoe == yy - era * 400,
    ensures
        0 <= yoe < 400,
        era * 146_097 + (yoe * 365 + yoe / 4 - yoe / 100 + ((153 * (if m > 2 {
            m - 3
        } else {
            m + 9
        }) + 2) / 5 + d - 1)) - 719_468 == civil_day(y, m, d),
{
    assert(yy / 4 == era * 100 + yoe / 4);
    assert(yy / 100 == era * 4 + yoe / 100);
    if m <= 2 {
        assert((y + 3) / 4 == yy / 4 + 1);
        assert((y + 99) / 100 == yy / 100 + 1);
        assert((y + 399) / 400 == yy / 400 + 1);
    } else {
        assert((y + 3) / 4 == y / 4 + (if y % 4 == 0 { 0int } else { 1 }));
        assert((y + 99) / 100 == y / 100 + (if y % 100 == 0 { 0int } else { 1 }));
        assert((y + 399) / 400 == y / 400 + (if y % 400 == 0 { 0int } else { 1 }));
    }
}

/// What separates a date from a time.
pub open spec fn is_date_end() -> spec_fn(char) -> bool {
    |c: char| c == 'T' || c == ' '
}

/// The seconds field of a clock, zero when there is none.
pub open spec fn seconds_field(clock: Seq<Seq<char>>) -> Option<int> {
    if clock.len() > 2 {
        chars::parse_int(clock[2])
    } else {
        Some(0int)
    }
}

/// Seconds since 1970 of a date's first three and a clock's first two or three fields.
/// Only the month and the day have to be in their ranges; the clock's fields count for
/// what they say, so that 24:00 is the next day's midnight.
pub open spec fn moment(date: Seq<Seq<char>>, clock: Seq<Seq<char>>) -> Option<int> {
    if date.len() < 3 || clock.len() < 2 {
        None
    } else {
        match (chars::parse_int(date[0]), chars::parse_int(date[1]), chars::parse_int(date[2])) {
            (Some(y), Some(m), Some(d)) => match (
                chars::parse_int(clock[0]),
                chars::parse_int(clock[1]),
                seconds_field(clock),
            ) {
                (Some(h), Some(mi), Some(s)) => {
                    let v = civil_day(y, m, d) * 86_400 + h * 3_600 + mi * 60 + s;
                    if 1 <= m <= 12 && 1 <= d <= 31 && i64::MIN <= v <= i64::MAX {
                        Some(v)
                    } else {
                        None
                    }
                },
                _ => None,
            },
            _ => None,
        }
    }
}

/// Seconds since 1970 of a timestamp `YYYY-MM-DD HH:MM[:SS[.fraction]]`, with `T` or
/// a space in the middle and `Z` allowed at the end. Fractions are dropped, and so are
/// fields behind the day or the seconds; what lacks a field, has a month or a day out of
/// its range, or does not fit, is no timestamp.
pub open spec fn timestamp(s: Seq<char>) -> Option<int> {
    let t = chars::trim_end_char(chars::trim(s), 'Z');
    let i = chars::find(t, is_date_end());
    if 0 <= i < t.len() {
        moment(
            chars::split(t.take(i), '-'),
            chars::split(chars::split(t.skip(i + 1), '.')[0], ':'),
        )
    } else {
        None
    }
}

fn moment_of(date: &[Vec<char>], clock: &[Vec<char>]) -> (r: Option<i64>)
    ensures
        match r {
            Some(n) => moment(text::views(date@), text::views(clock@)) == Some(n as int),
            None => moment(text::views(date@), text::views(clock@)) is None,
        },
{
    let ghost dv = text::views(date@);
    let ghost cv = text::views(clock@);
    if date.len() < 3 || clock.len() < 2 {
        return None;
    }
    assert(dv[0] == date@[0]@ && dv[1] == date@[1]@ && dv[2] == date@[2]@);
    assert(cv[0] == clock@[0]@ && cv[1] == clock@[1]@);
    let (y, m, d) = match (
        text::parse_i64(&date[0]),
        text::parse_i64(&date[1]),
        text::parse_i64(&date[2]),
    ) {
        (Some(y), Some(m), Some(d)) => (y, m, d),
        _ => {
            return None;
        },
    };
    let secs: Option<i64> = if clock.len() > 2 {
        assert(cv[2] == clock@[2]@);
        text::parse_i64(&clock[2])
    } else {
        Some(0)
    };
    let (h, mi, s) = match (text::parse_i64(&clock[0]), text::parse_i64(&clock[1]), secs) {
        (Some(h), Some(mi), Some(s)) => (h, mi, s),
        _ => {
            return None;
        },
    };
    if m < 1 || m > 12 || d < 1 || d > 31 {
        return None;
    }
    let v: i128 = days_from_civil(y, m, d) * 86_400 + h as i128 * 3_600 + mi as i128 * 60
        + s as i128;
    if v < i64::MIN as i128 || v > i64::MAX as i128 {
        return None;
    }
    Some(v as i64)
}

/// Reads a timestamp into seconds since 1970.
pub fn parse_sqlite_ts(s: &str) -> (r: Option<i64>)
    ensures
        match r {
            Some(n) => timestamp(s@) == Some(n as int),
            None => timestamp(s@) is None,
        },
{
    let all = text::chars_of(s);
    let t = text::trim_end_char(text::trim(&all), 'Z');
    let mut i: usize = 0;
    while i < t.len() && t[i] != 'T' && t[i] != ' '
        invariant
            i <= t@.len(),
            forall|j: int| 0 <= j < i ==> !is_date_end()(#[trigger] t@[j]),
        decreases t@.len() - i,
    {
        i += 1;
    }
    proof {
        chars::lemma_find(t@, is_date_end(), i as int);
    }
    if i >= t.len() {
        return None;
    }
    let date = text::split(text::upto(t, i), '-');
    let parts = text::split(text::from(t, i + 1), '.');
    assert(text::views(parts@).len() >= 1);
    assert(text::views(parts@)[0] == parts@[0]@);
    let clock = text::split(&parts[0], ':');
    moment_of(&date, &clock)
}

/// Two or four digits.
pub open spec fn digits(s: Seq<char>, n: nat) -> bool {
    s.len() == n && chars::all_digits(s)
}

/// A date and a time of day in digits.
pub ghost struct Stamp {
    pub year: Seq<char>,
    pub month: Seq<char>,
    pub day: Seq<char>,
    pub hour: Seq<char>,
    pub minute: Seq<char>,
    pub second: Seq<char>,
}

impl Stamp {
    /// Whether every field has its length and lies in its range.
    pub open spec fn in_range(self) -> bool {
        &&& digits(self.year, 4) && digits(self.month, 2) && digits(self.day, 2)
        &&& digits(self.hour, 2) && digits(self.minute, 2) && digits(self.second, 2)
        &&& 1 <= chars::value(self.month) <= 12 && 1 <= chars::value(self.day) <= 31
        &&& chars::value(self.hour) < 24 && chars::value(self.minute) < 60
        &&& chars::value(self.second) < 60
    }

    pub open spec fn date(self) -> Seq<char> {
        self.year + seq!['-'] + (self.month + seq!['-'] + self.day)
    }

    pub open spec fn time(self) -> Seq<char> {
        self.hour + seq![':'] + (self.minute + seq![':'] + self.second)
    }

    /// Seconds since 1970.
    pub open spec fn seconds(self) -> int {
        86_400 * civil_day(
            chars::value(self.year) as int,
            chars::value(self.month) as int,
            chars::value(self.day) as int,
        ) + 3_600 * chars::value(self.hour) + 60 * chars::value(self.minute) + chars::value(
            self.second,
        )
    }
}

proof fn lemma_field(s: Seq<char>, n: nat)
    requires
        digits(s, n),
        n <= 4,
    ensures
        chars::parse_int(s) == Some(chars::value(s) as int),
        chars::value(s) <= 9999,
        forall|c: char| #[trigger] s.contains(c) ==> chars::is_digit(c),
{
    chars::lemma_value_small(s);
    assert(chars::is_digit(s[0]));
    assert(chars::strip_plus(s) == s);
}

/// The timestamp in its plain form, with any text behind the seconds that begins with
/// a dot.
proof fn lemma_stamp(t: Stamp, sep: char, tail: Seq<char>)
    requires
        t.in_range(),
        sep == ' ' || sep == 'T',
        tail.len() > 0 ==> tail[0] == '.' && tail.len() > 1 && chars::is_digit(tail.last()),
    ensures
        timestamp(t.date() + seq![sep] + t.time() + tail) == Some(t.seconds()),
        timestamp((t.date() + seq![sep] + t.time() + tail).push('Z')) == Some(t.seconds()),
{
    lemma_field(t.year, 4);
    lemma_field(t.month, 2);
    lemma_field(t.day, 2);
    lemma_field(t.hour, 2);
    lemma_field(t.minute, 2);
    lemma_field(t.second, 2);
    let s = t.date() + seq![sep] + t.time() + tail;
    let z = s.push('Z');
    let first = t.year[0];
    assert(chars::is_digit(first));
    assert(chars::is_digit(t.second[1]));
    assert(s[0] == first && z[0] == first);
    assert(chars::is_digit(s.last())) by {
        if tail.len() > 0 {
            assert(s.last() == tail.last());
        } else {
            assert(s.last() == t.second[1]);
        }
    }
    // Neither end is blank, and the last letter goes.
    chars::lemma_trim_start(s, 0);
    chars::lemma_trim_end(s, s.len() as int);
    assert(s.skip(0) =~= s && s.take(s.len() as int) =~= s);
    chars::lemma_trim_start(z, 0);
    chars::lemma_trim_end(z, z.len() as int);
    assert(z.skip(0) =~= z && z.take(z.len() as int) =~= z);
    assert(z.drop_last() =~= s);
    assert(chars::trim_end_char(s, 'Z') == s);
    assert(chars::trim_end_char(z, 'Z') == s);
    // The date stands before the separator.
    let n = t.date().len() as int;
    assert forall|j: int| 0 <= j < n implies !is_date_end()(#[trigger] s[j]) by {
        assert(s[j] == t.date()[j]);
        if j < 4 {
            assert(t.year.contains(t.year[j]));
        } else if 5 <= j < 7 {
            assert(t.month.contains(t.month[j - 5]));
        } else if j > 7 {
            assert(t.day.contains(t.day[j - 8]));
        }
    }
    chars::lemma_find(s, is_date_end(), n);
    assert(s.take(n) =~= t.date());
    assert(s.skip(n + 1) =~= t.time() + tail);
    // Its fields.
    chars::lemma_split_whole(t.day, '-');
    chars::lemma_split_cons(t.month, '-', t.day);
    chars::lemma_split_cons(t.year, '-', t.month + seq!['-'] + t.day);
    assert(chars::split(t.date(), '-') =~= seq![t.year, t.month, t.day]);
    // The clock stands before the dot.
    assert(!t.time().contains('.')) by {
        assert forall|j: int| 0 <= j < t.time().len() implies t.time()[j] != '.' by {
            if j < 2 {
                assert(t.hour.contains(t.hour[j]));
            } else if 3 <= j < 5 {
                assert(t.minute.contains(t.minute[j - 3]));
            } else if j > 5 {
                assert(t.second.contains(t.second[j - 6]));
            }
        }
    }
    assert(chars::split(t.time() + tail, '.')[0] == t.time()) by {
        if tail.len() == 0 {
            assert(t.time() + tail =~= t.time());
            chars::lemma_split_whole(t.time(), '.');
        } else {
            let rest = tail.skip(1);
            assert(t.time() + tail =~= t.time() + seq!['.'] + rest);
            chars::lemma_split_cons(t.time(), '.', rest);
        }
    }
    chars::lemma_split_whole(t.second, ':');
    chars::lemma_split_cons(t.minute, ':', t.second);
    chars::lemma_split_cons(t.hour, ':', t.minute + seq![':'] + t.second);
    assert(chars::split(t.time(), ':') =~= seq![t.hour, t.minute, t.second]);
    let day = civil_day(
        chars::value(t.year) as int,
        chars::value(t.month) as int,
        chars::value(t.day) as int,
    );
    assert(-1_000_000 < day < 5_000_000);
}

/// Law: the accepted forms of one moment give the same seconds: a space or a `T`
/// between date and time, a `Z` at the end or none, and any fraction of a second.
pub proof fn forms_of_a_moment_agree(t: Stamp, fraction: Seq<char>)
    requires
        t.in_range(),
        chars::all_digits(fraction),
    ensures
        timestamp(t.date() + seq![' '] + t.time()) == Some(t.seconds()),
        timestamp(t.date() + seq!['T'] + t.time()) == Some(t.seconds()),
        timestamp((t.date() + seq!['T'] + t.time()).push('Z')) == Some(t.seconds()),
        timestamp(t.date() + seq![' '] + t.time() + (seq!['.'] + fraction)) == Some(t.seconds()),
{
    let none = Seq::<char>::empty();
    lemma_stamp(t, ' ', none);
    lemma_stamp(t, 'T', none);
    assert(t.date() + seq![' '] + t.time() + none =~= t.date() + seq![' '] + t.time());
    assert(t.date() + seq!['T'] + t.time() + none =~= t.date() + seq!['T'] + t.time());
    let tail = seq!['.'] + fraction;
    assert(tail.last() == fraction[fraction.len() - 1]);
    lemma_stamp(t, ' ', tail);
}

/// Running figures over rows, with the latencies in row order.
#[verifier::ext_equal]
pub struct Tally {
    pub done: nat,
    pub failed: nat,
    pub running: nat,
    pub awaiting_batch: nat,
    pub latencies: Seq<i64>,
    pub quick: nat,
    pub lt_1m: nat,
    pub from_1_to_5m: nat,
    pub from_5_to_15m: nat,
    pub gt_15m: nat,
}

pub open spec fn stamp_of(s: Option<String>) -> Option<int> {
    match s {
        Some(t) => timestamp(t@),
        None => None,
    }
}

/// Seconds from a finished job's start to its last sign of life, not below zero;
/// `None` when it is not finished or not timed.
pub open spec fn latency(r: CoordinatorRow) -> Option<int> {
    if r.phase@ == "done"@ || r.phase@ == "failed"@ {
        match (stamp_of(r.created_at), stamp_of(r.heartbeat_at)) {
            (Some(start), Some(end)) => Some(
                if end - start < 0 {
                    0int
                } else if end - start > i64::MAX {
                    i64::MAX as int
                } else {
                    end - start
                },
            ),
            _ => None,
        }
    } else {
        None
    }
}

pub open spec fn one_if(b: bool) -> nat {
    if b {
        1
    } else {
        0
    }
}

/// The figures with one more row.
pub open spec fn with_row(t: Tally, r: CoordinatorRow) -> Tally {
    let done = r.phase@ == "done"@;
    let failed = r.phase@ == "failed"@;
    let waiting = r.phase@ == "awaiting_batch"@;
    let l = latency(r);
    let secs = match l {
        Some(n) => n,
        None => -1,
    };
    Tally {
        done: t.done + one_if(done),
        failed: t.failed + one_if(failed),
        running: t.running + one_if(!done && !failed),
        awaiting_batch: t.awaiting_batch + one_if(waiting),
        latencies: if l is Some {
            t.latencies.push(secs as i64)
        } else {
            t.latencies
        },
        quick: t.quick + one_if(0 <= secs <= QUICK_JOB_SECS),
        lt_1m: t.lt_1m + one_if(0 <= secs < 60),
        from_1_to_5m: t.from_1_to_5m + one_if(60 <= secs < 300),
        from_5_to_15m: t.from_5_to_15m + one_if(300 <= secs < 900),
        gt_15m: t.gt_15m + one_if(900 <= secs),
    }
}

/// The figures over rows.
pub open spec fn tally(rows: Seq<&CoordinatorRow>) -> Tally
    decreases rows.len(),
{
    if rows.len() == 0 {
        Tally {
            done: 0,
            failed: 0,
            running: 0,
            awaiting_batch: 0,
            latencies: seq![],
            quick: 0,
            lt_1m: 0,
            from_1_to_5m: 0,
            from_5_to_15m: 0,
            gt_15m: 0,
        }
    } else {
        with_row(tally(rows.drop_last()), *rows.last())
    }
}

pub open spec fn ascending(s: Seq<i64>) -> bool {
    forall|i: int, j: int| 0 <= i <= j < s.len() ==> s[i] <= s[j]
}

impl DispatchStats {
    /// The figures of `t` over `n` rows, with the latencies in ascending order.
    pub open spec fn shows(self, t: Tally, n: nat) -> bool {
        &&& self.dispatched == n
        &&& self.done == t.done
        &&& self.failed == t.failed
        &&& self.running == t.running
        &&& self.awaiting_batch == t.awaiting_batch
        &&& self.timed == t.latencies.len()
        &&& self.latencies@.to_multiset() == t.latencies.to_multiset()
        &&& ascending(self.latencies@)
        &&& self.quick == t.quick
        &&& self.bucket_lt_1m == t.lt_1m
        &&& self.bucket_1_5m == t.from_1_to_5m
        &&& self.bucket_5_15m == t.from_5_to_15m
        &&& self.bucket_gt_15m == t.gt_15m
    }
}

impl Default for DispatchStats {
    fn default() -> (r: DispatchStats)
        ensures
            r.shows(tally(seq![]), 0),
            r.latencies@.len() == 0,
    {
        DispatchStats {
            dispatched: 0,
            done: 0,
            failed: 0,
            running: 0,
            awaiting_batch: 0,
            timed: 0,
            latencies: Vec::new(),
            quick: 0,
            bucket_lt_1m: 0,
            bucket_1_5m: 0,
            bucket_5_15m: 0,
            bucket_gt_15m: 0,
        }
    }
}

/// Inserts `x` where it belongs.
fn insert_in_order(v: &mut Vec<i64>, x: i64)
    requires
        ascending(old(v)@),
    ensures
        ascending(final(v)@),
        final(v)@.to_multiset() == old(v)@.to_multiset().insert(x),
        final(v)@.len() == old(v)@.len() + 1,
{
    let mut i: usize = v.len();
    while i > 0 && v[i - 1] > x
        invariant
            i <= v@.len(),
            ascending(v@),
            forall|j: int| i <= j < v@.len() ==> v@[j] > x,
        decreases i,
    {
        i -= 1;
    }
    let ghost s = v@;
    v.insert(i, x);
    proof {
        let t = s.insert(i as int, x);
        assert(t.remove(i as int) =~= s);
        t.to_multiset_ensures();
        assert(t[i as int] == x);
        assert(t.contains(x));
        assert(s.to_multiset() =~= t.to_multiset().remove(x));
        assert(t.to_multiset() =~= s.to_multiset().insert(x));
    }
}

fn stamp(s: &Option<String>) -> (r: Option<i64>)
    ensures
        match r {
            Some(n) => stamp_of(*s) == Some(n as int),
            None => stamp_of(*s) is None,
        },
{
    match s {
        Some(t) => parse_sqlite_ts(t.as_str()),
        None => None,
    }
}

fn latency_of(r: &CoordinatorRow) -> (out: Option<i64>)
    ensures
        match out {
            Some(n) => latency(*r) == Some(n as int) && n >= 0,
            None => latency(*r) is None,
        },
{
    if !text::eq(r.phase.as_str(), "done") && !text::eq(r.phase.as_str(), "failed") {
        return None;
    }
    match (stamp(&r.created_at), stamp(&r.heartbeat_at)) {
        (Some(start), Some(end)) => {
            let d: i128 = end as i128 - start as i128;
            if d < 0 {
                Some(0)
            } else if d > i64::MAX as i128 {
                Some(i64::MAX)
            } else {
                Some(d as i64)
            }
        },
        _ => None,
    }
}

fn record(st: &mut DispatchStats, r: &CoordinatorRow, n: usize, t: Ghost<Tally>)
    requires
        old(st).shows(t@, old(st).dispatched as nat),
        n < usize::MAX,
        old(st).within(n),
    ensures
        final(st).shows(with_row(t@, *r), old(st).dispatched as nat),
        final(st).within((n + 1) as usize),
{
    let phase = r.phase.as_str();
    proof {
        reveal_strlit("done");
        reveal_strlit("failed");
        reveal_strlit("awaiting_batch");
        assert("done"@.len() != "failed"@.len());
        assert("done"@.len() != "awaiting_batch"@.len());
        assert("failed"@.len() != "awaiting_batch"@.len());
    }
    if text::eq(phase, "done") {
        st.done += 1;
    } else if text::eq(phase, "failed") {
        st.failed += 1;
    } else {
        st.running += 1;
        if text::eq(phase, "awaiting_batch") {
            st.awaiting_batch += 1;
        }
    }
    if let Some(secs) = latency_of(r) {
        proof {
            t@.latencies.to_multiset_ensures();
        }
        st.timed += 1;
        insert_in_order(&mut st.latencies, secs);
        if secs <= QUICK_JOB_SECS {
            st.quick += 1;
        }
        if secs < 60 {
            st.bucket_lt_1m += 1;
        } else if secs < 300 {
            st.bucket_1_5m += 1;
        } else if secs < 900 {
            st.bucket_5_15m += 1;
        } else {
            st.bucket_gt_15m += 1;
        }
    }
}

impl DispatchStats {
    /// No figure is over `n`.
    spec fn within(self, n: usize) -> bool {
        &&& self.done <= n
        &&& self.failed <= n
        &&& self.running <= n
        &&& self.awaiting_batch <= n
        &&& self.timed <= n
        &&& self.quick <= n
        &&& self.bucket_lt_1m <= n
        &&& self.bucket_1_5m <= n
        &&& self.bucket_5_15m <= n
        &&& self.bucket_gt_15m <= n
    }
}

/// The figures over a set of runs.
pub fn summarize(rows: &[&CoordinatorRow]) -> (r: DispatchStats)
    ensures
        r.shows(tally(rows@), rows@.len()),
{
    let mut st = DispatchStats::default();
    st.dispatched = rows.len();
    let mut i: usize = 0;
    assert(rows@.take(0) =~= seq![]);
    while i < rows.len()
        invariant
            i <= rows@.len(),
            st.dispatched == rows@.len(),
            st.shows(tally(rows@.take(i as int)), rows@.len()),
            st.within(i),
        decreases rows@.len() - i,
    {
        assert(rows@.take(i + 1).drop_last() =~= rows@.take(i as int));
        record(&mut st, rows[i], i, Ghost(tally(rows@.take(i as int))));
        i += 1;
    }
    assert(rows@.take(i as int) =~= rows@);
    st
}

/// Law: every job is done, failed or running; the buckets share out the timed jobs;
/// and the quick ones are among them.
pub proof fn figures_add_up(rows: Seq<&CoordinatorRow>)
    ensures
        ({
            let t = tally(rows);
            &&& t.done + t.failed + t.running == rows.len()
            &&& t.awaiting_batch <= t.running
            &&& t.lt_1m + t.from_1_to_5m + t.from_5_to_15m + t.gt_15m == t.latencies.len()
            &&& t.latencies.len() <= t.done + t.failed
            &&& t.quick <= t.lt_1m
        }),
    decreases rows.len(),
{
    reveal_strlit("done");
    reveal_strlit("failed");
    reveal_strlit("awaiting_batch");
    assert("done"@.len() != "failed"@.len());
    assert("done"@.len() != "awaiting_batch"@.len());
    assert("failed"@.len() != "awaiting_batch"@.len());
    if rows.len() > 0 {
        figures_add_up(rows.drop_last());
    }
}

/// The sum of the numbers.
pub open spec fn total(s: Seq<i64>) -> int
    decreases s.len(),
{
    if s.len() == 0 {
        0
    } else {
        total(s.drop_last()) + s.last()
    }
}

/// `a / b` towards zero, for a positive `b`.
pub open spec fn quotient(a: int, b: int) -> int {
    if a >= 0 {
        a / b
    } else {
        -((-a) / b)
    }
}

fn divide(a: i128, b: u64) -> (r: i128)
    requires
        0 < b,
        -0x8000_0000_0000_0000 * b <= a <= 0x7fff_ffff_ffff_ffff * b,
    ensures
        r == quotient(a as int, b as int),
        i64::MIN <= r <= i64::MAX,
{
    assert(-0x8000_0000_0000_0000_0000_0000_0000_0000 < -0x8000_0000_0000_0000 * b)
        by (nonlinear_arith)
        requires
            b <= u64::MAX,
    ;
    if a >= 0 {
        let q: u128 = (a as u128) / (b as u128);
        assert(q <= 0x7fff_ffff_ffff_ffff) by (nonlinear_arith)
            requires
                q == a / (b as i128),
                0 <= a <= 0x7fff_ffff_ffff_ffff * b,
                b > 0,
        ;
        q as i128
    } else {
        let m: u128 = (-a) as u128;
        let q: u128 = m / (b as u128);
        assert(q <= 0x8000_0000_0000_0000) by (nonlinear_arith)
            requires
                q == m / (b as u128),
                m <= 0x8000_0000_0000_0000 * b,
                b > 0,
        ;
        -(q as i128)
    }
}

/// The middle of the ordered latencies, or the mean of the two in the middle.
pub open spec fn median(s: Seq<i64>) -> int {
    let n = s.len() as int;
    if n % 2 == 1 {
        s[n / 2] as int
    } else {
        quotient(s[n / 2 - 1] + s[n / 2], 2)
    }
}

impl DispatchStats {
    /// The least latency.
    pub fn min_secs(&self) -> (r: Option<i64>)
        ensures
            self.latencies@.len() == 0 ==> r is None,
            self.latencies@.len() > 0 ==> r == Some(self.latencies@[0]),
            r is Some && ascending(self.latencies@) ==> forall|i: int|
                0 <= i < self.latencies@.len() ==> r->0 <= #[trigger] self.latencies@[i],
    {
        if self.latencies.len() == 0 {
            None
        } else {
            Some(self.latencies[0])
        }
    }

    /// The greatest latency.
    pub fn max_secs(&self) -> (r: Option<i64>)
        ensures
            self.latencies@.len() == 0 ==> r is None,
            self.latencies@.len() > 0 ==> r == Some(self.latencies@.last()),
            r is Some && ascending(self.latencies@) ==> forall|i: int|
                0 <= i < self.latencies@.len() ==> #[trigger] self.latencies@[i] <= r->0,
    {
        if self.latencies.len() == 0 {
            None
        } else {
            Some(self.latencies[self.latencies.len() - 1])
        }
    }

    /// The mean latency, towards zero.
    pub fn mean_secs(&self) -> (r: Option<i64>)
        ensures
            self.latencies@.len() == 0 ==> r is None,
            self.latencies@.len() > 0 ==> r is Some && r->0 == quotient(
                total(self.latencies@),
                self.latencies@.len() as int,
            ),
    {
        let n: usize = self.latencies.len();
        if n == 0 {
            return None;
        }
        let mut sum: i128 = 0;
        let mut i: usize = 0;
        assert(self.latencies@.take(0) =~= seq![]);
        while i < n
            invariant
                n == self.latencies@.len(),
                i <= n,
                sum == total(self.latencies@.take(i as int)),
                -0x8000_0000_0000_0000 * i <= sum <= 0x7fff_ffff_ffff_ffff * i,
            decreases n - i,
        {
            assert(self.latencies@.take(i + 1).drop_last() =~= self.latencies@.take(i as int));
            assert(0x8000_0000_0000_0000 * i <= 0x8000_0000_0000_0000 * 0xffff_ffff_ffff_fffe)
                by (nonlinear_arith)
                requires
                    i <= 0xffff_ffff_ffff_fffe,
            ;
            sum = sum + self.latencies[i] as i128;
            i += 1;
        }
        assert(self.latencies@.take(i as int) =~= self.latencies@);
        Some(divide(sum, n as u64) as i64)
    }

    /// The median latency.
    pub fn median_secs(&self) -> (r: Option<i64>)
        ensures
            self.latencies@.len() == 0 ==> r is None,
            self.latencies@.len() > 0 ==> r is Some && r->0 == median(self.latencies@),
    {
        let n: usize = self.latencies.len();
        if n == 0 {
            return None;
        }
        if n % 2 == 1 {
            Some(self.latencies[n / 2])
        } else {
            let sum: i128 = self.latencies[n / 2 - 1] as i128 + self.latencies[n / 2] as i128;
            Some(divide(sum, 2) as i64)
        }
    }
}

/// A duration for humans.
pub open spec fn duration(secs: int) -> Seq<char> {
    if secs < 60 {
        chars::dec_int(secs) + "s"@
    } else if secs < 3_600 {
        chars::dec((secs / 60) as nat) + "m "@ + chars::dec((secs % 60) as nat) + "s"@
    } else {
        chars::dec((secs / 3_600) as nat) + "h "@ + chars::dec(((secs % 3_600) / 60) as nat) + "m"@
    }
}

fn fmt_dur(secs: i64) -> (r: String)
    ensures
        r@ == duration(secs as int),
{
    let mut out: String = String::new();
    if secs < 60 {
        text::push_int(&mut out, secs);
        assert(Seq::<char>::empty() + chars::dec_int(secs as int) =~= chars::dec_int(secs as int));
        out.push_str("s");
        return out;
    }
    let s: u64 = secs as u64;
    if s < 3_600 {
        text::push_dec(&mut out, s / 60);
        assert(Seq::<char>::empty() + chars::dec((s / 60) as nat) =~= chars::dec((s / 60) as nat));
        out.push_str("m ");
        text::push_dec(&mut out, s % 60);
        out.push_str("s");
    } else {
        text::push_dec(&mut out, s / 3_600);
        assert(Seq::<char>::empty() + chars::dec((s / 3_600) as nat) =~= chars::dec(
            (s / 3_600) as nat,
        ));
        out.push_str("h ");
        text::push_dec(&mut out, (s % 3_600) / 60);
        out.push_str("m");
    }
    out
}

pub const QUICK_TIP: &'static str =
    "over half of completed jobs finished in ≤45s — you're likely over-offloading quick questions; answer those inline";

pub const FAILURE_TIP: &'static str =
    "failure rate is high — inspect failing tasks before re-dispatching (the circuit breaker may be refusing repeats)";

pub const LONG_TIP: &'static str =
    "many jobs ran 15m+ on the interactive tier — consider routing long, non-urgent work to the batch tier";

impl DispatchStats {
    /// At least half of three or more timed jobs were quick.
    pub open spec fn mostly_quick(self) -> bool {
        self.timed >= 3 && 2 * self.quick >= self.timed
    }

    /// More than one failure for two successes, among three or more jobs.
    pub open spec fn often_failing(self) -> bool {
        self.dispatched >= 3 && self.failed * 2 > self.done && self.failed > 0
    }

    /// Half of the timed jobs or more were long, and none waits for a batch.
    pub open spec fn mostly_long(self) -> bool {
        self.bucket_gt_15m > 0 && self.awaiting_batch == 0 && self.bucket_gt_15m >= (if self.timed
            > 1 {
            self.timed as int
        } else {
            1
        }) / 2
    }

    /// What stands out.
    pub open spec fn tips(self) -> Seq<Seq<char>> {
        (if self.mostly_quick() {
            seq![QUICK_TIP@]
        } else {
            seq![]
        }) + (if self.often_failing() {
            seq![FAILURE_TIP@]
        } else {
            seq![]
        }) + (if self.mostly_long() {
            seq![LONG_TIP@]
        } else {
            seq![]
        })
    }
}

/// What stands out in the figures.
pub fn insights(st: &DispatchStats) -> (r: Vec<String>)
    ensures
        text::str_views(r@) == st.tips(),
{
    let mut out: Vec<String> = Vec::new();
    if st.timed >= 3 && 2 * (st.quick as u128) >= st.timed as u128 {
        out.push(QUICK_TIP.to_owned());
    }
    if st.dispatched >= 3 && 2 * (st.failed as u128) > st.done as u128 && st.failed > 0 {
        out.push(FAILURE_TIP.to_owned());
    }
    let timed: usize = if st.timed > 1 { st.timed } else { 1 };
    if st.bucket_gt_15m > 0 && st.awaiting_batch == 0 && st.bucket_gt_15m >= timed / 2 {
        out.push(LONG_TIP.to_owned());
    }
    assert(text::str_views(out@) =~= st.tips());
    out
}

impl DispatchStats {
    pub open spec fn head_line(self, scope: Seq<char>) -> Seq<char> {
        "dispatch stats ("@ + scope + ") — "@ + chars::dec(self.dispatched as nat) + (
        if self.dispatched == 1 {
            " job"@
        } else {
            " jobs"@
        }) + " dispatched"@
    }

    pub open spec fn outcome_line(self, completion: nat) -> Seq<char> {
        "  outcomes:  ✓ "@ + chars::dec(self.done as nat) + " done · ✗ "@ + chars::dec(
            self.failed as nat,
        ) + " failed · ⏳ "@ + chars::dec(self.running as nat) + " running"@ + (
        if self.awaiting_batch > 0 {
            " ("@ + chars::dec(self.awaiting_batch as nat) + " awaiting batch)"@
        } else {
            seq![]
        }) + " · completion "@ + chars::dec(completion) + "%"@
    }

    pub open spec fn latency_line(self) -> Seq<char> {
        let l = self.latencies@;
        let known = l.len() > 0;
        "  latency:   min "@ + duration(
            if known {
                l[0] as int
            } else {
                0
            },
        ) + " · median "@ + duration(
            if known {
                median(l)
            } else {
                0
            },
        ) + " · mean "@ + duration(
            if known {
                quotient(total(l), l.len() as int)
            } else {
                0
            },
        ) + " · max "@ + duration(
            if known {
                l.last() as int
            } else {
                0
            },
        ) + "   (n="@ + chars::dec(self.timed as nat) + ")"@
    }

    pub open spec fn bucket_line(self) -> Seq<char> {
        "  buckets:   <1m "@ + chars::dec(self.bucket_lt_1m as nat) + " · 1–5m "@ + chars::dec(
            self.bucket_1_5m as nat,
        ) + " · 5–15m "@ + chars::dec(self.bucket_5_15m as nat) + " · 15m+ "@ + chars::dec(
            self.bucket_gt_15m as nat,
        )
    }

    pub open spec fn inline_line(self, quick: nat) -> Seq<char> {
        "  inline?:   "@ + chars::dec(self.quick as nat) + " of "@ + chars::dec(self.timed as nat)
            + " completed in ≤45s ("@ + chars::dec(quick) + "% likely answerable inline)"@
    }

    /// The figures as lines; `completion` and `quick` are the percentages that are
    /// shown.
    pub open spec fn lines(self, scope: Seq<char>, completion: nat, quick: nat) -> Seq<Seq<char>> {
        if self.dispatched == 0 {
            seq!["dispatch stats ("@ + scope + "): no background jobs on record"@]
        } else {
            seq![self.head_line(scope), self.outcome_line(completion)] + (if self.timed > 0 {
                seq![self.latency_line(), self.bucket_line(), self.inline_line(quick)]
            } else {
                seq![]
            }) + Seq::new(self.tips().len(), |i: int| "  → "@ + self.tips()[i])
        }
    }

    fn push_head(&self, scope: &str, out: &mut Vec<String>)
        ensures
            text::str_views(final(out)@) == text::str_views(old(out)@).push(self.head_line(scope@)),
    {
        let ghost o = text::str_views(out@);
        let mut l = "dispatch stats (".to_owned();
        l.push_str(scope);
        l.push_str(") — ");
        text::push_usize(&mut l, self.dispatched);
        l.push_str(
            if self.dispatched == 1 {
                " job"
            } else {
                " jobs"
            },
        );
        l.push_str(" dispatched");
        out.push(l);
        assert(text::str_views(out@) =~= o.push(self.head_line(scope@)));
    }

    fn push_outcomes(&self, completion: u64, out: &mut Vec<String>)
        ensures
            text::str_views(final(out)@) == text::str_views(old(out)@).push(
                self.outcome_line(completion as nat),
            ),
    {
        let ghost o = text::str_views(out@);
        let mut l = "  outcomes:  ✓ ".to_owned();
        text::push_usize(&mut l, self.done);
        l.push_str(" done · ✗ ");
        text::push_usize(&mut l, self.failed);
        l.push_str(" failed · ⏳ ");
        text::push_usize(&mut l, self.running);
        l.push_str(" running");
        if self.awaiting_batch > 0 {
            let mut w = " (".to_owned();
            text::push_usize(&mut w, self.awaiting_batch);
            w.push_str(" awaiting batch)");
            l.push_str(w.as_str());
        } else {
            assert(l@ + seq![] =~= l@);
        }
        l.push_str(" · completion ");
        text::push_dec(&mut l, completion);
        l.push_str("%");
        out.push(l);
        assert(text::str_views(out@) =~= o.push(self.outcome_line(completion as nat)));
    }

    fn push_latencies(&self, out: &mut Vec<String>)
        ensures
            text::str_views(final(out)@) == text::str_views(old(out)@).push(self.latency_line()),
    {
        let ghost o = text::str_views(out@);
        let mut l = "  latency:   min ".to_owned();
        l.push_str(fmt_dur(or_zero(self.min_secs())).as_str());
        l.push_str(" · median ");
        l.push_str(fmt_dur(or_zero(self.median_secs())).as_str());
        l.push_str(" · mean ");
        l.push_str(fmt_dur(or_zero(self.mean_secs())).as_str());
        l.push_str(" · max ");
        l.push_str(fmt_dur(or_zero(self.max_secs())).as_str());
        l.push_str("   (n=");
        text::push_usize(&mut l, self.timed);
        l.push_str(")");
        out.push(l);
        assert(text::str_views(out@) =~= o.push(self.latency_line()));
    }

    fn push_buckets(&self, out: &mut Vec<String>)
        ensures
            text::str_views(final(out)@) == text::str_views(old(out)@).push(self.bucket_line()),
    {
        let ghost o = text::str_views(out@);
        let mut l = "  buckets:   <1m ".to_owned();
        text::push_usize(&mut l, self.bucket_lt_1m);
        l.push_str(" · 1–5m ");
        text::push_usize(&mut l, self.bucket_1_5m);
        l.push_str(" · 5–15m ");
        text::push_usize(&mut l, self.bucket_5_15m);
        l.push_str(" · 15m+ ");
        text::push_usize(&mut l, self.bucket_gt_15m);
        out.push(l);
        assert(text::str_views(out@) =~= o.push(self.bucket_line()));
    }

    fn push_inline(&self, quick: u64, out: &mut Vec<String>)
        ensures
            text::str_views(final(out)@) == text::str_views(old(out)@).push(
                self.inline_line(quick as nat),
            ),
    {
        let ghost o = text::str_views(out@);
        let mut l = "  inline?:   ".to_owned();
        text::push_usize(&mut l, self.quick);
        l.push_str(" of ");
        text::push_usize(&mut l, self.timed);
        l.push_str(" completed in ≤45s (");
        text::push_dec(&mut l, quick);
        l.push_str("% likely answerable inline)");
        out.push(l);
        assert(text::str_views(out@) =~= o.push(self.inline_line(quick as nat)));
    }
}

fn or_zero(v: Option<i64>) -> (r: i64)
    ensures
        r == (match v {
            Some(n) => n,
            None => 0,
        }),
{
    match v {
        Some(n) => n,
        None => 0,
    }
}

/// The figures as lines of output. `scope` says what they cover; `completion` and
/// `quick` are the share of finished jobs and of quick ones, in percent.
pub fn render(st: &DispatchStats, scope: &str, completion: u64, quick: u64) -> (r: Vec<String>)
    ensures
        text::str_views(r@) == st.lines(scope@, completion as nat, quick as nat),
{
    let mut out: Vec<String> = Vec::new();
    let ghost none = text::str_views(out@);
    assert(none =~= seq![]);
    if st.dispatched == 0 {
        let mut l = "dispatch stats (".to_owned();
        l.push_str(scope);
        l.push_str("): no background jobs on record");
        out.push(l);
        assert(text::str_views(out@) =~= st.lines(scope@, completion as nat, quick as nat));
        return out;
    }
    st.push_head(scope, &mut out);
    st.push_outcomes(completion, &mut out);
    if st.timed > 0 {
        st.push_latencies(&mut out);
        st.push_buckets(&mut out);
        st.push_inline(quick, &mut out);
    }
    let ghost head = text::str_views(out@);
    let tips = insights(st);
    let ghost ts = st.tips();
    let mut i: usize = 0;
    while i < tips.len()
        invariant
            ts == text::str_views(tips@),
            i <= tips@.len(),
            text::str_views(out@) == head + Seq::new(i as nat, |j: int| "  → "@ + ts[j]),
        decreases tips@.len() - i,
    {
        let mut l = "  → ".to_owned();
        l.push_str(tips[i].as_str());
        let ghost o = text::str_views(out@);
        out.push(l);
        proof {
            assert(ts[i as int] == tips@[i as int]@);
            assert(text::str_views(out@) =~= o.push("  → "@ + ts[i as int]));
            assert(text::str_views(out@) =~= head + Seq::new((i + 1) as nat, |j: int| "  → "@ + ts[j]));
        }
        i += 1;
    }
    assert(text::str_views(out@) =~= st.lines(scope@, completion as nat, quick as nat));
    out
}

/// The days of a month.
pub open spec fn month_days(y: int, m: int) -> int {
    if m == 2 {
        if y % 400 == 0 || (y % 4 == 0 && y % 100 != 0) {
            29
        } else {
            28
        }
    } else if m == 4 || m == 6 || m == 9 || m == 11 {
        30
    } else {
        31
    }
}

/// Law: day follows day, the first of a month the last of the one before, and New Year the
/// last of December; the count starts with 1970.
pub proof fn days_follow_one_another(y: int, m: int, d: int)
    requires
        1 <= m <= 12,
    ensures
        civil_day(1970, 1, 1) == 0,
        civil_day(y, m, d + 1) == civil_day(y, m, d) + 1,
        m < 12 ==> civil_day(y, m + 1, 1) == civil_day(y, m, month_days(y, m)) + 1,
        civil_day(y + 1, 1, 1) == civil_day(y, 12, 31) + 1,
{
    years_follow(y);
}

/// Law: what is read of a time is its day in days of 86400 seconds and its clock in hours,
/// minutes and seconds.
pub proof fn clocks_add_to_their_day(
    date: Seq<Seq<char>>,
    clock: Seq<Seq<char>>,
    y: int,
    m: int,
    d: int,
    h: int,
    mi: int,
    s: int,
)
    requires
        date.len() >= 3,
        clock.len() >= 3,
        chars::parse_int(date[0]) == Some(y),
        chars::parse_int(date[1]) == Some(m),
        chars::parse_int(date[2]) == Some(d),
        chars::parse_int(clock[0]) == Some(h),
        chars::parse_int(clock[1]) == Some(mi),
        chars::parse_int(clock[2]) == Some(s),
        1 <= y <= 9999,
        0 <= h < 24,
        0 <= mi < 60,
        0 <= s < 60,
    ensures
        1 <= m <= 12 && 1 <= d <= 31 ==> moment(date, clock) == Some(
            civil_day(y, m, d) * 86_400 + h * 3_600 + mi * 60 + s,
        ),
        !(1 <= m <= 12) || !(1 <= d <= 31) ==> moment(date, clock) is None,
        1 <= m <= 12 && 1 <= d <= 31 ==> moment(date, clock.take(2)) == Some(
            civil_day(y, m, d) * 86_400 + h * 3_600 + mi * 60,
        ),
{
    assert(clock.take(2)[0] == clock[0] && clock.take(2)[1] == clock[1]);
}

/// Law: a job is timed once it has ended, from its start to its last sign of life; a clock
/// that went back counts as no time, and a job in flight is not timed.
pub proof fn ended_jobs_are_timed(r: CoordinatorRow, start: int, end: int)
    requires
        stamp_of(r.created_at) == Some(start),
        stamp_of(r.heartbeat_at) == Some(end),
        end - start <= i64::MAX,
    ensures
        (r.phase@ == "done"@ || r.phase@ == "failed"@) && start <= end ==> latency(r) == Some(
            end - start,
        ),
        (r.phase@ == "done"@ || r.phase@ == "failed"@) && start > end ==> latency(r) == Some(0int),
        r.phase@ != "done"@ && r.phase@ != "failed"@ ==> latency(r) is None,
{
}

/// Law: a job counts once, by its phase, and a timed one once more, in the span that its
/// time belongs to.
pub proof fn each_job_counts_where_it_belongs(rows: Seq<&CoordinatorRow>, r: &CoordinatorRow)
    ensures
        ({
            let t = tally(rows);
            let u = tally(rows.push(r));
            &&& u.done == t.done + (if r.phase@ == "done"@ {
                1nat
            } else {
                0
            })
            &&& u.failed == t.failed + (if r.phase@ == "failed"@ {
                1nat
            } else {
                0
            })
            &&& u.running == t.running + (if r.phase@ != "done"@ && r.phase@ != "failed"@ {
                1nat
            } else {
                0
            })
            &&& u.awaiting_batch == t.awaiting_batch + (if r.phase@ == "awaiting_batch"@ {
                1nat
            } else {
                0
            })
            &&& latency(*r) is None ==> u.latencies == t.latencies && u.quick == t.quick && u.lt_1m
                == t.lt_1m && u.from_1_to_5m == t.from_1_to_5m && u.from_5_to_15m
                == t.from_5_to_15m && u.gt_15m == t.gt_15m
            &&& latency(*r) matches Some(n) ==> {
                &&& u.latencies == t.latencies.push(n as i64)
                &&& n < 60 ==> u.lt_1m == t.lt_1m + 1
                &&& 60 <= n < 300 ==> u.from_1_to_5m == t.from_1_to_5m + 1
                &&& 300 <= n < 900 ==> u.from_5_to_15m == t.from_5_to_15m + 1
                &&& 900 <= n ==> u.gt_15m == t.gt_15m + 1
                &&& n <= 45 ==> u.quick == t.quick + 1
                &&& n > 45 ==> u.quick == t.quick
            }
        }),
{
    assert(rows.push(r).drop_last() =~= rows);
}

/// Law: the median lies in the middle of the ordered times: half of them are no longer, and
/// half no shorter.
pub proof fn the_median_lies_in_the_middle(s: Seq<i64>)
    requires
        s.len() > 0,
        ascending(s),
    ensures
        s[(s.len() - 1) / 2] <= median(s) <= s[s.len() as int / 2],
        s.len() % 2 == 1 ==> median(s) == s[s.len() as int / 2],
{
    let n = s.len() as int;
    if n % 2 == 0 {
        let a = s[n / 2 - 1] as int;
        let b = s[n / 2] as int;
        assert((n - 1) / 2 == n / 2 - 1);
        assert(a <= b);
    } else {
        assert((n - 1) / 2 == n / 2);
    }
}

/// Law: a sum is that of its parts, and a mean of equal times is that time.
pub proof fn sums_add_up(s: Seq<i64>, x: i64, n: nat)
    ensures
        total(s.push(x)) == total(s) + x,
        n > 0 ==> quotient(total(Seq::new(n, |i: int| x)), n as int) == x,
    decreases n,
{
    assert(s.push(x).drop_last() =~= s);
    if n > 0 {
        lemma_total_same(x, n);
        let t = n * x;
        if x >= 0 {
            assert(t / (n as int) == x && t >= 0) by (nonlinear_arith)
                requires
                    n > 0,
                    t == n * x,
                    x >= 0,
            ;
        } else {
            assert((-t) / (n as int) == -x && t < 0) by (nonlinear_arith)
                requires
                    n > 0,
                    t == n * x,
                    x < 0,
            ;
        }
    }
}

proof fn lemma_total_same(x: i64, n: nat)
    ensures
        total(Seq::new(n, |i: int| x)) == n * x,
    decreases n,
{
    if n > 0 {
        lemma_total_same(x, (n - 1) as nat);
        assert(Seq::new(n, |i: int| x).drop_last() =~= Seq::new((n - 1) as nat, |i: int| x));
        assert(n * x == (n - 1) * x + x) by (nonlinear_arith);
    } else {
        assert(n * x == 0) by (nonlinear_arith)
            requires
                n == 0,
        ;
    }
}

/// Law: a time span is told in its two largest units.
pub proof fn spans_are_told_in_two_units(h: nat, m: nat, s: nat)
    requires
        m < 60,
        s < 60,
    ensures
        duration(s as int) == chars::dec(s) + "s"@,
        1 <= m ==> duration((60 * m + s) as int) == chars::dec(m) + "m "@ + chars::dec(s) + "s"@,
        1 <= h ==> duration((3600 * h + 60 * m + s) as int) == chars::dec(h) + "h "@ + chars::dec(m)
            + "m"@,
{
    let t = 3600 * h + 60 * m + s;
    assert(t / 3600 == h && t % 3600 == 60 * m + s);
    assert((60 * m + s) / 60 == m && (60 * m + s) % 60 == s);
}

/// Law: the tips follow the figures: quick jobs where half of three timed ones or more were
/// quick, failures where there is more than one for two successes, long jobs where half of
/// the timed ones took a quarter of an hour and none waits for a batch.
pub proof fn tips_follow_the_figures(st: DispatchStats)
    ensures
        st.tips().contains(QUICK_TIP@) || !(st.timed >= 3 && 2 * st.quick >= st.timed),
        st.tips().contains(FAILURE_TIP@) || !(st.dispatched >= 3 && 2 * st.failed > st.done
            && st.failed > 0),
        st.tips().contains(LONG_TIP@) || !(st.bucket_gt_15m > 0 && st.awaiting_batch == 0 && 2
            * st.bucket_gt_15m >= st.timed),
        st.timed < 3 && st.dispatched < 3 && st.bucket_gt_15m == 0 ==> st.tips().len() == 0,
        st.failed == 0 && st.quick == 0 && st.bucket_gt_15m == 0 ==> st.tips().len() == 0,
{
    let q: Seq<Seq<char>> = if st.mostly_quick() {
        seq![QUICK_TIP@]
    } else {
        seq![]
    };
    let f: Seq<Seq<char>> = if st.often_failing() {
        seq![FAILURE_TIP@]
    } else {
        seq![]
    };
    let l: Seq<Seq<char>> = if st.mostly_long() {
        seq![LONG_TIP@]
    } else {
        seq![]
    };
    let t = st.tips();
    assert(t == q + f + l);
    if st.mostly_quick() {
        assert(t[0] == QUICK_TIP@);
    }
    if st.often_failing() {
        assert(t[q.len() as int] == FAILURE_TIP@);
    }
    if st.mostly_long() {
        assert(t[(q.len() + f.len()) as int] == LONG_TIP@);
    }
}

/// Law: the report tells how many jobs there were and how they ended, and of timed jobs the
/// times, the spans and how many were quick; the tips come last, one to a line.
pub proof fn reports_tell_the_figures(
    st: DispatchStats,
    scope: Seq<char>,
    completion: nat,
    quick: nat,
)
    ensures
        ({
            let ls = st.lines(scope, completion, quick);
            let first = if st.timed > 0 {
                5nat
            } else {
                2
            };
            &&& st.dispatched == 0 ==> ls.len() == 1
            &&& st.dispatched > 0 ==> {
                &&& ls.len() == first + st.tips().len()
                &&& chars::starts_with(
                    ls[0],
                    "dispatch stats ("@ + scope + ") — "@ + chars::dec(st.dispatched as nat),
                )
                &&& chars::starts_with(
                    ls[1],
                    "  outcomes:  ✓ "@ + chars::dec(st.done as nat) + " done · ✗ "@ + chars::dec(
                        st.failed as nat,
                    ) + " failed"@,
                )
                &&& st.timed > 0 ==> ls[2] == st.latency_line() && ls[3] == st.bucket_line() && ls[4]
                    == st.inline_line(quick)
                &&& forall|i: int|
                    0 <= i < st.tips().len() ==> ls[first + i] == "  → "@ + #[trigger] st.tips()[i]
            }
        }),
{
    let ls = st.lines(scope, completion, quick);
    if st.dispatched > 0 {
        let h = "dispatch stats ("@ + scope + ") — "@ + chars::dec(st.dispatched as nat);
        let l = st.head_line(scope);
        assert(ls[0] == l);
        assert(l.subrange(0, h.len() as int) =~= h);
        let a = "  outcomes:  ✓ "@ + chars::dec(st.done as nat) + " done · ✗ "@ + chars::dec(
            st.failed as nat,
        );
        let o = st.outcome_line(completion);
        reveal_strlit(" failed · ⏳ ");
        reveal_strlit(" failed");
        assert(ls[1] == o);
        assert((a + " failed · ⏳ "@).subrange(0, (a + " failed"@).len() as int) =~= a + " failed"@);
        lemma_begins_with(
            a + " failed · ⏳ "@,
            chars::dec(st.running as nat),
            " running"@,
            if st.awaiting_batch > 0 {
                " ("@ + chars::dec(st.awaiting_batch as nat) + " awaiting batch)"@
            } else {
                seq![]
            },
            " · completion "@,
            chars::dec(completion),
            "%"@,
            (a + " failed"@).len() as int,
        );
    }
}

proof fn lemma_begins_with(
    x: Seq<char>,
    a: Seq<char>,
    b: Seq<char>,
    c: Seq<char>,
    d: Seq<char>,
    e: Seq<char>,
    f: Seq<char>,
    n: int,
)
    requires
        0 <= n <= x.len(),
    ensures
        (x + a + b + c + d + e + f).subrange(0, n) == x.subrange(0, n),
{
    assert((x + a + b + c + d + e + f).subrange(0, n) =~= x.subrange(0, n));
}

} // verus!
