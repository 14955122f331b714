//! Calendar timestamps in time columns (`2024-01-05T10:30:00Z`,
//! `1/5/2024 10:30`): splitting them into fields and reading the integer
//! fields the way the standard library's integer parsers do.

use vstd::prelude::*;
use crate::number::all_digits;
use crate::text::{
    chars_of, lemma_find_char, replace_all, replace_chars, split_char, split_chars,
    string_of, trim, trim_chars, views,
};

verus! {

// ---------------------------------------------------------------------
// Integer fields
// ---------------------------------------------------------------------

/// Value of a run of decimal digits.
pub open spec fn digits_value(s: Seq<char>) -> nat
    decreases s.len(),
{
    if s.len() == 0 {
        0
    } else {
        digits_value(s.drop_last()) * 10 + ((s.last() as u32) - ('0' as u32)) as nat
    }
}

/// What `u32::from_str` gives: an optional `+`, then at least one digit,
/// and a value that fits.
pub open spec fn u32_of(s: Seq<char>) -> Option<u32> {
    let b = if s.len() > 0 && s[0] == '+' {
        s.drop_first()
    } else {
        s
    };
    if b.len() > 0 && all_digits(b) && digits_value(b) <= u32::MAX {
        Some(digits_value(b) as u32)
    } else {
        None
    }
}

/// What `i32::from_str` gives: an optional sign, then at least one digit,
/// and a value that fits.
pub open spec fn i32_of(s: Seq<char>) -> Option<i32> {
    let neg = s.len() > 0 && s[0] == '-';
    let b = if s.len() > 0 && (s[0] == '+' || s[0] == '-') {
        s.drop_first()
    } else {
        s
    };
    if b.len() == 0 || !all_digits(b) {
        None
    } else if neg {
        if digits_value(b) <= 0x8000_0000 {
            Some((0 - digits_value(b)) as i32)
        } else {
            None
        }
    } else if digits_value(b) <= 0x7fff_ffff {
        Some(digits_value(b) as i32)
    } else {
        None
    }
}

proof fn lemma_digits_value_grows(s: Seq<char>, i: int)
    requires
        0 <= i <= s.len(),
        all_digits(s),
    ensures
        digits_value(s.take(i)) <= digits_value(s),
    decreases s.len() - i,
{
    if i < s.len() {
        lemma_digits_value_grows(s, i + 1);
        assert(s.take(i + 1).drop_last() =~= s.take(i));
    } else {
        assert(s.take(i) =~= s);
    }
}

/// Value of the digits `b` if it is at most `limit`.
fn digits_up_to(b: &[char], limit: u64) -> (r: Option<u64>)
    requires
        limit <= 0x1_0000_0000,
    ensures
        match r {
            Some(v) => b@.len() > 0 && all_digits(b@) && v == digits_value(b@) && v <= limit,
            None => !(b@.len() > 0 && all_digits(b@) && digits_value(b@) <= limit),
        },
{
    if b.len() == 0 {
        return None;
    }
    let mut acc: u64 = 0;
    let mut i: usize = 0;
    assert(b@.take(0) =~= Seq::<char>::empty());
    while i < b.len()
        invariant
            i <= b@.len(),
            limit <= 0x1_0000_0000,
            acc == digits_value(b@.take(i as int)),
            acc <= limit,
            all_digits(b@.take(i as int)),
        decreases b@.len() - i,
    {
        let c = b[i];
        assert(b@.take(i + 1).drop_last() =~= b@.take(i as int));
        assert(b@.take(i + 1).last() == c);
        if !crate::text::is_ascii_digit(c) {
            assert(!crate::text::is_digit(b@[i as int]));
            return None;
        }
        let d = (c as u32 - '0' as u32) as u64;
        let next = acc * 10 + d;
        if next > limit {
            proof {
                assert(all_digits(b@.take(i + 1)));
                if all_digits(b@) {
                    lemma_digits_value_grows(b@, i + 1);
                }
            }
            return None;
        }
        acc = next;
        i += 1;
    }
    assert(b@.take(b@.len() as int) =~= b@);
    Some(acc)
}

/// `u32::from_str` of the text.
pub fn parse_u32(s: &[char]) -> (r: Option<u32>)
    ensures
        r == u32_of(s@),
{
    let start: usize = if s.len() > 0 && s[0] == '+' {
        1
    } else {
        0
    };
    let b = crate::text::slice_of(s, start, s.len());
    assert(b@ =~= if s@.len() > 0 && s@[0] == '+' {
        s@.drop_first()
    } else {
        s@
    });
    match digits_up_to(&b, 0xffff_ffff) {
        Some(v) => Some(v as u32),
        None => None,
    }
}

/// `i32::from_str` of the text.
pub fn parse_i32(s: &[char]) -> (r: Option<i32>)
    ensures
        r == i32_of(s@),
{
    let neg = s.len() > 0 && s[0] == '-';
    let start: usize = if s.len() > 0 && (s[0] == '+' || s[0] == '-') {
        1
    } else {
        0
    };
    let b = crate::text::slice_of(s, start, s.len());
    assert(b@ =~= if s@.len() > 0 && (s@[0] == '+' || s@[0] == '-') {
        s@.drop_first()
    } else {
        s@
    });
    if neg {
        match digits_up_to(&b, 0x8000_0000) {
            Some(v) => {
                let r: i64 = 0 - (v as i64);
                Some(r as i32)
            },
            None => None,
        }
    } else {
        match digits_up_to(&b, 0x7fff_ffff) {
            Some(v) => Some(v as i32),
            None => None,
        }
    }
}

// ---------------------------------------------------------------------
// Timestamp fields
// ---------------------------------------------------------------------

/// The fields of a calendar timestamp: year, month, day, hour, minute, and
/// the text of the seconds.
#[derive(Debug, Clone)]
pub struct DateTimeFields {
    pub year: i32,
    pub month: u32,
    pub day: u32,
    pub hour: u32,
    pub minute: u32,
    pub seconds: String,
}

/// The text without its trailing `Z`s.
pub open spec fn without_trailing_z(s: Seq<char>) -> Seq<char>
    decreases s.len(),
{
    if s.len() > 0 && s.last() == 'Z' {
        without_trailing_z(s.drop_last())
    } else {
        s
    }
}

/// The timestamp text as it is split: trimmed, every `T` made a space,
/// trailing `Z`s dropped.
pub open spec fn stamp_text(raw: Seq<char>) -> Seq<char> {
    without_trailing_z(replace_all(trim(raw), seq!['T'], seq![' ']))
}

/// The piece `i` of `ps`, if there is one.
pub open spec fn piece(ps: Seq<Seq<char>>, i: int) -> Option<Seq<char>> {
    if 0 <= i < ps.len() {
        Some(ps[i])
    } else {
        None
    }
}

/// The fields of a timestamp: the date is the text before the first space
/// and the time the text after it (`00:00:00` when there is none); the
/// date splits at `-` if it has one, else at `/`, into year, month and day;
/// the time splits at `:` into hour, minute and seconds (`0` when absent).
/// Every integer field must parse, and month and day must be in range.
pub open spec fn stamp_fields(raw: Seq<char>) -> Option<(i32, u32, u32, u32, u32, Seq<char>)> {
    let parts = split_char(stamp_text(raw), ' ');
    let date = parts[0];
    let time = match piece(parts, 1) {
        Some(t) => t,
        None => "00:00:00"@,
    };
    let sep = if date.contains('-') {
        '-'
    } else {
        '/'
    };
    let dp = split_char(date, sep);
    let tp = split_char(time, ':');
    let seconds = match piece(tp, 2) {
        Some(s) => s,
        None => "0"@,
    };
    match (
        i32_of(dp[0]),
        piece(dp, 1),
        piece(dp, 2),
        u32_of(tp[0]),
        piece(tp, 1),
    ) {
        (Some(y), Some(mt), Some(dt), Some(hh), Some(mmt)) => match (u32_of(mt), u32_of(dt), u32_of(mmt)) {
            (Some(m), Some(d), Some(mm)) => if 1 <= m <= 12 && 1 <= d <= 31 {
                Some((y, m, d, hh, mm, seconds))
            } else {
                None
            },
            _ => None,
        },
        _ => None,
    }
}

proof fn lemma_split_nonempty(s: Seq<char>, c: char)
    ensures
        split_char(s, c).len() >= 1,
{
    lemma_find_char(s, c, 0);
}

fn strip_trailing_z(s: &Vec<char>) -> (r: Vec<char>)
    ensures
        r@ == without_trailing_z(s@),
{
    let mut n: usize = s.len();
    assert(s@.take(n as int) =~= s@);
    while n > 0 && s[n - 1] == 'Z'
        invariant
            n <= s@.len(),
            without_trailing_z(s@.take(n as int)) == without_trailing_z(s@),
        decreases n,
    {
        assert(s@.take(n as int).drop_last() =~= s@.take(n - 1));
        n -= 1;
    }
    crate::text::slice_of(s, 0, n)
}

fn piece_at(ps: &Vec<Vec<char>>, i: usize) -> (r: Option<Vec<char>>)
    ensures
        match r {
            Some(p) => piece(views(ps@), i as int) == Some(p@),
            None => piece(views(ps@), i as int) is None,
        },
{
    if i < ps.len() {
        Some(crate::text::slice_of(&ps[i], 0, ps[i].len()))
    } else {
        None
    }
}

/// Splits a calendar timestamp into its fields (see `stamp_fields`).
pub fn datetime_fields(raw: &str) -> (r: Option<DateTimeFields>)
    ensures
        match r {
            Some(f) => stamp_fields(raw@) == Some(
                (f.year, f.month, f.day, f.hour, f.minute, f.seconds@),
            ),
            None => stamp_fields(raw@) is None,
        },
{
    let t = trim_chars(&chars_of(raw));
    let tee = ['T'];
    let space = [' '];
    assert(tee@ == seq!['T'] && space@ == seq![' ']);
    let replaced = replace_chars(&t, &tee, &space);
    let text = strip_trailing_z(&replaced);
    assert(text@ == stamp_text(raw@));
    let parts = split_chars(&text, ' ');
    proof {
        lemma_split_nonempty(text@, ' ');
    }
    let date = crate::text::slice_of(&parts[0], 0, parts[0].len());
    let time = match piece_at(&parts, 1) {
        Some(t) => t,
        None => chars_of("00:00:00"),
    };
    let sep = if crate::text::contains_char(&date, '-') {
        '-'
    } else {
        '/'
    };
    let dp = split_chars(&date, sep);
    let tp = split_chars(&time, ':');
    proof {
        lemma_split_nonempty(date@, sep);
        lemma_split_nonempty(time@, ':');
    }
    let seconds = match piece_at(&tp, 2) {
        Some(s) => s,
        None => chars_of("0"),
    };
    let y = parse_i32(&dp[0]);
    let mt = piece_at(&dp, 1);
    let dt = piece_at(&dp, 2);
    let hh = parse_u32(&tp[0]);
    let mmt = piece_at(&tp, 1);
    proof {
        let pv = views(parts@);
        assert(pv == split_char(stamp_text(raw@), ' '));
        assert(date@ == pv[0]);
        assert(time@ == match piece(pv, 1) {
            Some(t) => t,
            None => "00:00:00"@,
        });
        assert(views(dp@) == split_char(pv[0], sep));
        assert(views(dp@)[0] == dp@[0]@);
        assert(views(tp@)[0] == tp@[0]@);
    }
    match (y, mt, dt, hh, mmt) {
        (Some(year), Some(mt), Some(dt), Some(hour), Some(mmt)) => {
            match (parse_u32(&mt), parse_u32(&dt), parse_u32(&mmt)) {
                (Some(month), Some(day), Some(minute)) => {
                    if 1 <= month && month <= 12 && 1 <= day && day <= 31 {
                        Some(DateTimeFields { year, month, day, hour, minute, seconds: string_of(&seconds) })
                    } else {
                        None
                    }
                },
                _ => None,
            }
        },
        _ => None,
    }
}

/// Days from 1970-01-01 to day `d` of month `m` of year `y` in the
/// proleptic Gregorian calendar. Years are counted from March, so that
/// the leap day comes last: `yy` is the March-based year and `mm` the
/// month counted from March (0 to 11); `(153 * mm + 2) / 5` is the number
/// of days before that month in such a year. Division rounds down.
pub open spec fn days_from_civil(y: int, m: int, d: int) -> int {
    let yy = if m <= 2 {
        y - 1
    } else {
        y
    };
    let mm = if m <= 2 {
        m + 9
    } else {
        m - 3
    };
    365 * yy + yy / 4 - yy / 100 + yy / 400 + (153 * mm + 2) / 5 + d - 1 - 719468
}

/// The day number of a calendar date: days since 1970-01-01 (negative
/// before it).
pub fn civil_day_number(year: i32, month: u32, day: u32) -> (r: i64)
    requires
        1 <= month <= 12,
        1 <= day <= 31,
    ensures
        r == days_from_civil(year as int, month as int, day as int),
{
    let yy: i64 = if month <= 2 {
        year as i64 - 1
    } else {
        year as i64
    };
    let mm: u64 = if month <= 2 {
        month as u64 + 9
    } else {
        month as u64 - 3
    };
    // 2_160_000_000 is a multiple of 400 that makes every year positive.
    let z: u64 = (yy + 2_160_000_000) as u64;
    let q4: i64 = (z / 4) as i64 - 540_000_000;
    let q100: i64 = (z / 100) as i64 - 21_600_000;
    let q400: i64 = (z / 400) as i64 - 5_400_000;
    let before: i64 = ((153 * mm + 2) / 5) as i64;
    proof {
        let y = yy as int;
        assert(z as int == y + 2_160_000_000);
        assert((y + 4 * 540_000_000) / 4 == y / 4 + 540_000_000) by (nonlinear_arith);
        assert((y + 100 * 21_600_000) / 100 == y / 100 + 21_600_000) by (nonlinear_arith);
        assert((y + 400 * 5_400_000) / 400 == y / 400 + 5_400_000) by (nonlinear_arith);
    }
    365 * yy + q4 - q100 + q400 + before + day as i64 - 1 - 719468
}

/// The day after the last day of a month is the first of the next month,
/// and the day after December 31 is January 1 of the next year.
pub proof fn law_day_numbers_run_on(y: int, m: int)
    requires
        1 <= m <= 12,
    ensures
        m < 12 ==> days_from_civil(y, m + 1, 1) == days_from_civil(y, m, month_days(y, m)) + 1,
        m == 12 ==> days_from_civil(y + 1, 1, 1) == days_from_civil(y, 12, 31) + 1,
{
    if m == 2 {
        let yy = y - 1;
        assert(days_from_civil(y, 2, month_days(y, 2)) == 365 * yy + yy / 4 - yy / 100 + yy / 400 + 337 + month_days(y, 2) - 1 - 719468);
        assert(days_from_civil(y, 3, 1) == 365 * y + y / 4 - y / 100 + y / 400 - 719468);
        lemma_leap_days(y);
    }
}

/// Whether `y` is a leap year of the Gregorian calendar.
pub open spec fn is_leap(y: int) -> bool {
    (y % 4 == 0 && y % 100 != 0) || y % 400 == 0
}

/// How many days month `m` of year `y` has.
pub open spec fn month_days(y: int, m: int) -> int {
    if m == 2 {
        if is_leap(y) {
            29
        } else {
            28
        }
    } else if m == 4 || m == 6 || m == 9 || m == 11 {
        30
    } else {
        31
    }
}

proof fn lemma_leap_days(y: int)
    ensures
        365 * y + y / 4 - y / 100 + y / 400 == 365 * (y - 1) + (y - 1) / 4 - (y - 1) / 100 + (y - 1) / 400 + if is_leap(y) {
            366int
        } else {
            365int
        },
{
    assert((y - 1) / 4 + (if y % 4 == 0 { 1int } else { 0int }) == y / 4) by (nonlinear_arith);
    assert((y - 1) / 100 + (if y % 100 == 0 { 1int } else { 0int }) == y / 100) by (nonlinear_arith);
    assert((y - 1) / 400 + (if y % 400 == 0 { 1int } else { 0int }) == y / 400) by (nonlinear_arith);
    assert(y % 400 == 0 ==> y % 100 == 0 && y % 4 == 0) by (nonlinear_arith);
    assert(y % 100 == 0 ==> y % 4 == 0) by (nonlinear_arith);
}

proof fn lemma_split_piece(s: Seq<char>, c: char, start: int, k: int)
    requires
        0 <= start <= k < s.len(),
        s[k] == c,
        forall|m: int| start <= m < k ==> s[m] != c,
    ensures
        crate::text::split_from(s, c, start) == seq![s.subrange(start, k)] + crate::text::split_from(s, c, k + 1),
{
    lemma_find_char(s, c, start);
    assert(crate::text::find_char(s, c, start) == Some(k));
}

proof fn lemma_split_last(s: Seq<char>, c: char, start: int)
    requires
        0 <= start <= s.len(),
        forall|m: int| start <= m < s.len() ==> s[m] != c,
    ensures
        crate::text::split_from(s, c, start) == seq![s.subrange(start, s.len() as int)],
{
    lemma_find_char(s, c, start);
    assert(crate::text::find_char(s, c, start) is None);
}

/// Three runs without `c`, joined by `c`, split back into those runs.
proof fn lemma_split3(a: Seq<char>, b: Seq<char>, x: Seq<char>, c: char)
    requires
        !a.contains(c),
        !b.contains(c),
        !x.contains(c),
    ensures
        split_char(a + seq![c] + b + seq![c] + x, c) == seq![a, b, x],
{
    let s = a + seq![c] + b + seq![c] + x;
    let k1 = a.len() as int;
    let k2 = k1 + 1 + b.len();
    assert forall|m: int| 0 <= m < k1 implies s[m] != c by {
        assert(s[m] == a[m]);
    }
    assert forall|m: int| k1 + 1 <= m < k2 implies s[m] != c by {
        assert(s[m] == b[m - k1 - 1]);
    }
    assert forall|m: int| k2 + 1 <= m < s.len() implies s[m] != c by {
        assert(s[m] == x[m - k2 - 1]);
    }
    lemma_split_piece(s, c, 0, k1);
    lemma_split_piece(s, c, k1 + 1, k2);
    lemma_split_last(s, c, k2 + 1);
    assert(s.subrange(0, k1) =~= a);
    assert(s.subrange(k1 + 1, k2) =~= b);
    assert(s.subrange(k2 + 1, s.len() as int) =~= x);
    assert(seq![s.subrange(0, k1)] + (seq![s.subrange(k1 + 1, k2)] + seq![s.subrange(k2 + 1, s.len() as int)])
        =~= seq![a, b, x]);
}

/// Two runs without `c`, joined by `c`, split back into those runs.
proof fn lemma_split2(a: Seq<char>, b: Seq<char>, c: char)
    requires
        !a.contains(c),
        !b.contains(c),
    ensures
        split_char(a + seq![c] + b, c) == seq![a, b],
{
    let s = a + seq![c] + b;
    let k1 = a.len() as int;
    assert forall|m: int| 0 <= m < k1 implies s[m] != c by {
        assert(s[m] == a[m]);
    }
    assert forall|m: int| k1 + 1 <= m < s.len() implies s[m] != c by {
        assert(s[m] == b[m - k1 - 1]);
    }
    lemma_split_piece(s, c, 0, k1);
    lemma_split_last(s, c, k1 + 1);
    assert(s.subrange(0, k1) =~= a);
    assert(s.subrange(k1 + 1, s.len() as int) =~= b);
    assert(seq![s.subrange(0, k1)] + seq![s.subrange(k1 + 1, s.len() as int)] =~= seq![a, b]);
}

proof fn lemma_replace_concat(a: Seq<char>, b: Seq<char>, c: char, r: Seq<char>)
    ensures
        replace_all(a + b, seq![c], r) == replace_all(a, seq![c], r) + replace_all(b, seq![c], r),
    decreases a.len(),
{
    if a.len() == 0 {
        assert(a + b =~= b);
        assert(replace_all(a, seq![c], r) =~= Seq::<char>::empty());
        assert(Seq::<char>::empty() + replace_all(b, seq![c], r) =~= replace_all(b, seq![c], r));
    } else {
        let s = a + b;
        let t = a.subrange(1, a.len() as int);
        lemma_replace_concat(t, b, c, r);
        assert(s.subrange(1, s.len() as int) =~= t + b);
        assert(s.subrange(0, 1) =~= a.subrange(0, 1));
        if a.subrange(0, 1) == seq![c] {
            assert(r + (replace_all(t, seq![c], r) + replace_all(b, seq![c], r)) =~= (r + replace_all(t, seq![c], r))
                + replace_all(b, seq![c], r));
        } else {
            assert(s[0] == a[0]);
            assert(seq![a[0]] + (replace_all(t, seq![c], r) + replace_all(b, seq![c], r)) =~= (seq![a[0]]
                + replace_all(t, seq![c], r)) + replace_all(b, seq![c], r));
        }
    }
}

proof fn lemma_replace_absent(a: Seq<char>, c: char, r: Seq<char>)
    requires
        !a.contains(c),
    ensures
        replace_all(a, seq![c], r) == a,
    decreases a.len(),
{
    if a.len() > 0 {
        let t = a.subrange(1, a.len() as int);
        assert(!t.contains(c)) by {
            if t.contains(c) {
                let i = choose|i: int| 0 <= i < t.len() && t[i] == c;
                assert(a[i + 1] == c);
            }
        }
        lemma_replace_absent(t, c, r);
        assert(a.subrange(0, 1) != seq![c]) by {
            assert(a.subrange(0, 1)[0] == a[0]);
            assert(a[0] != c);
        }
        assert(seq![a[0]] + t =~= a);
    }
}

proof fn lemma_digit_run_parses(x: Seq<char>)
    requires
        x.len() > 0,
        crate::number::all_digits(x),
    ensures
        digits_value(x) <= u32::MAX ==> u32_of(x) == Some(digits_value(x) as u32),
        digits_value(x) <= 0x7fff_ffff ==> i32_of(x) == Some(digits_value(x) as i32),
{
    assert(crate::text::is_digit(x[0]));
}

proof fn lemma_digits_free_of(x: Seq<char>, c: char)
    requires
        crate::number::all_digits(x),
        !crate::text::is_digit(c),
    ensures
        !x.contains(c),
{
    if x.contains(c) {
        let i = choose|i: int| 0 <= i < x.len() && x[i] == c;
        assert(crate::text::is_digit(x[i]));
    }
}

proof fn lemma_join3_free(a: Seq<char>, b: Seq<char>, x: Seq<char>, sep: char, c: char)
    requires
        !a.contains(c),
        !b.contains(c),
        !x.contains(c),
        sep != c,
    ensures
        !(a + seq![sep] + b + seq![sep] + x).contains(c),
{
    let s = a + seq![sep] + b + seq![sep] + x;
    if s.contains(c) {
        let i = choose|i: int| 0 <= i < s.len() && s[i] == c;
        if i < a.len() {
            assert(s[i] == a[i]);
            assert(a.contains(c));
        } else if i == a.len() {
        } else if i < a.len() + 1 + b.len() {
            assert(s[i] == b[i - a.len() - 1]);
            assert(b.contains(c));
        } else if i == a.len() + 1 + b.len() {
        } else {
            assert(s[i] == x[i - a.len() - 2 - b.len()]);
            assert(x.contains(c));
        }
    }
}

/// A date and a time joined by `T`, starting and ending with digits, read
/// as the date and the time joined by a space.
proof fn lemma_stamp_text(date: Seq<char>, time: Seq<char>)
    requires
        date.len() > 0,
        time.len() > 0,
        crate::text::is_digit(date[0]),
        crate::text::is_digit(time[time.len() - 1]),
        !date.contains('T'),
        !time.contains('T'),
    ensures
        stamp_text(date + seq!['T'] + time) == date + seq![' '] + time,
{
    let raw = date + seq!['T'] + time;
    assert(raw[0] == date[0]);
    assert(raw[raw.len() - 1] == time[time.len() - 1]);
    let ts = crate::text::trim_start_pat(raw, crate::text::Pat::Whitespace);
    assert(crate::text::skip_pat(raw, crate::text::Pat::Whitespace, 0) == 0);
    assert(ts =~= raw);
    assert(crate::text::back_pat(ts, crate::text::Pat::Whitespace, ts.len() as int) == ts.len());
    assert(trim(raw) =~= raw);
    lemma_replace_concat(date + seq!['T'], time, 'T', seq![' ']);
    lemma_replace_concat(date, seq!['T'], 'T', seq![' ']);
    lemma_replace_absent(date, 'T', seq![' ']);
    lemma_replace_absent(time, 'T', seq![' ']);
    let one_t = seq!['T'];
    assert(one_t.subrange(0, 1) =~= seq!['T']);
    assert(one_t.subrange(1, 1) =~= Seq::<char>::empty());
    assert(replace_all(Seq::<char>::empty(), seq!['T'], seq![' ']) =~= Seq::<char>::empty());
    assert(replace_all(one_t, seq!['T'], seq![' ']) == seq![' '] + replace_all(one_t.subrange(1, 1), seq!['T'], seq![' ']));
    assert(replace_all(one_t, seq!['T'], seq![' ']) =~= seq![' ']);
    let spaced = date + seq![' '] + time;
    assert(replace_all(raw, seq!['T'], seq![' ']) =~= spaced);
    assert(spaced[spaced.len() - 1] == time[time.len() - 1]);
    assert(without_trailing_z(spaced) == spaced);
}

/// A timestamp `Y-M-DTh:m:s` made of digit runs gives those runs' values,
/// and the seconds as written; it is refused exactly when the month is
/// outside 1 to 12 or the day outside 1 to 31.
#[verifier::rlimit(40)]
pub proof fn law_digit_stamp_fields(
    y: Seq<char>,
    mo: Seq<char>,
    d: Seq<char>,
    h: Seq<char>,
    mi: Seq<char>,
    sec: Seq<char>,
)
    requires
        y.len() > 0 && mo.len() > 0 && d.len() > 0 && h.len() > 0 && mi.len() > 0 && sec.len() > 0,
        crate::number::all_digits(y) && crate::number::all_digits(mo) && crate::number::all_digits(d),
        crate::number::all_digits(h) && crate::number::all_digits(mi) && crate::number::all_digits(sec),
        digits_value(y) <= 0x7fff_ffff,
        digits_value(mo) <= u32::MAX && digits_value(d) <= u32::MAX,
        digits_value(h) <= u32::MAX && digits_value(mi) <= u32::MAX,
    ensures
        stamp_fields(y + seq!['-'] + mo + seq!['-'] + d + seq!['T'] + h + seq![':'] + mi + seq![':'] + sec) == if 1
            <= digits_value(mo) <= 12 && 1 <= digits_value(d) <= 31 {
            Some(
                (
                    digits_value(y) as i32,
                    digits_value(mo) as u32,
                    digits_value(d) as u32,
                    digits_value(h) as u32,
                    digits_value(mi) as u32,
                    sec,
                ),
            )
        } else {
            None
        },
{
    let date = y + seq!['-'] + mo + seq!['-'] + d;
    let time = h + seq![':'] + mi + seq![':'] + sec;
    let raw = y + seq!['-'] + mo + seq!['-'] + d + seq!['T'] + h + seq![':'] + mi + seq![':'] + sec;
    assert(raw =~= date + seq!['T'] + time);
    lemma_digits_free_of(y, '-');
    lemma_digits_free_of(mo, '-');
    lemma_digits_free_of(d, '-');
    lemma_digits_free_of(h, ':');
    lemma_digits_free_of(mi, ':');
    lemma_digits_free_of(sec, ':');
    lemma_digits_free_of(y, 'T');
    lemma_digits_free_of(mo, 'T');
    lemma_digits_free_of(d, 'T');
    lemma_digits_free_of(h, 'T');
    lemma_digits_free_of(mi, 'T');
    lemma_digits_free_of(sec, 'T');
    lemma_digits_free_of(y, ' ');
    lemma_digits_free_of(mo, ' ');
    lemma_digits_free_of(d, ' ');
    lemma_digits_free_of(h, ' ');
    lemma_digits_free_of(mi, ' ');
    lemma_digits_free_of(sec, ' ');
    lemma_join3_free(y, mo, d, '-', 'T');
    lemma_join3_free(y, mo, d, '-', ' ');
    lemma_join3_free(h, mi, sec, ':', 'T');
    lemma_join3_free(h, mi, sec, ':', ' ');
    assert(date[0] == y[0]);
    assert(crate::text::is_digit(y[0]));
    assert(time[time.len() - 1] == sec[sec.len() - 1]);
    assert(crate::text::is_digit(sec[sec.len() - 1]));
    lemma_stamp_text(date, time);
    lemma_split2(date, time, ' ');
    lemma_split3(y, mo, d, '-');
    lemma_split3(h, mi, sec, ':');
    assert(date[y.len() as int] == '-');
    assert(date.contains('-'));
    lemma_digit_run_parses(y);
    lemma_digit_run_parses(mo);
    lemma_digit_run_parses(d);
    lemma_digit_run_parses(h);
    lemma_digit_run_parses(mi);
}

} // verus!
