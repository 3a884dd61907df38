//! Time helpers for the transcript: the age of a block as a localized phrase, and
//! the stamps of a session's log as unix seconds.
//!
//! The conversation stamps each block in unix seconds, and its transcript marks a lull
//! between consecutive blocks with a separator whose label is the later block's age
//! ("5 minutes ago"). Everything shown is relative, so no timezone handling is needed;
//! the only absolute time is in the stamps that are parsed on resume.

use vstd::prelude::*;
use vstd::string::StringSliceAdditionalSpecFns;

use crate::text::{chars, to_ascii_lower, ascii_lower, run, lemma_run};

verus! {

// ---------------------------------------------------------------------------
// Now
// ---------------------------------------------------------------------------

/// The seconds since the unix epoch by `SystemTime::now` and
/// `SystemTime::duration_since`; nothing where the clock is before the epoch.
/// The time is what the machine says, so nothing is promised of it.
#[verifier::external_body]
fn unix_time() -> Option<u64> {
    std::time::SystemTime::now().duration_since(std::time::UNIX_EPOCH).ok().map(|d| d.as_secs())
}

/// A reading of the clock, and 0 where there is none.
pub fn reading_or_zero(t: Option<u64>) -> (r: u64)
    ensures
        r == match t {
            Some(s) => s,
            None => 0,
        },
{
    match t {
        Some(s) => s,
        None => 0,
    }
}

/// Current unix time in seconds (0 if the system clock is before the epoch).
pub fn now_secs() -> u64 {
    reading_or_zero(unix_time())
}

// ---------------------------------------------------------------------------
// Ages
// ---------------------------------------------------------------------------

/// The smallest unit a phrase counts in.
#[derive(Clone, Copy, PartialEq, Eq, Structural, Debug)]
pub enum TimeUnit {
    Seconds,
    Minutes,
    Hours,
    Days,
}

/// How old something stamped `stamp` is at `now`: nothing where the clock went back.
pub open spec fn age(stamp: u64, now: u64) -> u64 {
    if now > stamp {
        (now - stamp) as u64
    } else {
        0
    }
}

/// Every character but the separators of a locale's parts.
pub open spec fn in_tag() -> spec_fn(char) -> bool {
    |c: char| c != '-' && c != '_'
}

/// The language of a locale: its first part, ASCII letters made small.
pub open spec fn language_code(locale: Seq<char>) -> Seq<char> {
    let n = run(locale, in_tag());
    Seq::new(n, |i: int| ascii_lower(locale[i]))
}

/// The language of a locale such as `ja-JP`.
pub fn language_of(locale: &str) -> (r: String)
    ensures
        r@ == language_code(locale@),
{
    let v = chars(locale);
    let mut out = String::new();
    let mut i: usize = 0;
    while i < v.len() && v[i] != '-' && v[i] != '_'
        invariant
            i <= v@.len(),
            v@ == locale@,
            forall|k: int| 0 <= k < i ==> in_tag()(#[trigger] v@[k]),
            out@ == Seq::new(i as nat, |k: int| ascii_lower(v@[k])),
        decreases v@.len() - i,
    {
        out.push(to_ascii_lower(v[i]));
        i = i + 1;
        assert(out@ =~= Seq::new(i as nat, |k: int| ascii_lower(v@[k])));
    }
    proof {
        lemma_run(v@, in_tag(), i as nat);
    }
    out
}

/// Whether `isolang` knows the two-letter code and `timeago` speaks the language.
pub uninterp spec fn spoken(code: Seq<char>) -> bool;

/// Asks `isolang::Language::from_639_1` for the language of a code and
/// `timeago::from_isolang` for its translation; both answer by the code alone.
#[verifier::external_body]
fn is_spoken(code: &str) -> (r: bool)
    ensures
        r == spoken(code@),
{
    isolang::Language::from_639_1(code).and_then(timeago::from_isolang).is_some()
}

/// The phrase `timeago` makes of an age.
pub uninterp spec fn phrase(code: Seq<char>, floor: TimeUnit, items: nat, secs: nat) -> Seq<char>;

/// Phrases an age with `timeago::Formatter::convert` in the language of a code that
/// is spoken; `en`, for English, always is. The formatter counts in `items` units,
/// none smaller than `floor`, and answers by these, the language and the age alone. A
/// phrase is made of words and digits: it holds no control character.
#[verifier::external_body]
fn relative(code: &str, floor: TimeUnit, items: usize, secs: u64) -> (r: String)
    requires
        items > 0,
        spoken(code@) || code@ == "en"@,
    ensures
        r@ == phrase(code@, floor, items as nat, secs as nat),
        forall|i: int| 0 <= i < r@.len() ==> #[trigger] r@[i] >= ' ',
{
    let language = isolang::Language::from_639_1(code).and_then(timeago::from_isolang).unwrap();
    let mut f = timeago::Formatter::with_language(language);
    let unit = match floor {
        TimeUnit::Seconds => timeago::TimeUnit::Seconds,
        TimeUnit::Minutes => timeago::TimeUnit::Minutes,
        TimeUnit::Hours => timeago::TimeUnit::Hours,
        TimeUnit::Days => timeago::TimeUnit::Days,
    };
    f.min_unit(unit).num_items(items).convert(std::time::Duration::from_secs(secs))
}

/// The locale by `sys_locale::get_locale`. It is what the machine says, so nothing
/// is promised of it.
#[verifier::external_body]
pub(crate) fn editor_locale() -> Option<String> {
    sys_locale::get_locale()
}

/// The text of a locale, if there is one.
pub open spec fn locale_v(locale: Option<&str>) -> Option<Seq<char>> {
    match locale {
        Some(l) => Some(l@),
        None => None,
    }
}

/// The language that a locale's labels are in: its own where it is spoken, and
/// English otherwise.
pub open spec fn label_language(locale: Option<Seq<char>>) -> Seq<char> {
    match locale {
        Some(l) if spoken(language_code(l)) => language_code(l),
        _ => "en"@,
    }
}

/// The label of an age in a locale: one unit, no smaller than minutes.
pub open spec fn label(locale: Option<Seq<char>>, secs: u64) -> Seq<char> {
    phrase(label_language(locale), TimeUnit::Minutes, 1, secs as nat)
}

/// Label for a block stamped `stamp` viewed at `now` (unix seconds) in `locale`.
pub fn format_in(locale: Option<&str>, stamp: u64, now: u64) -> (r: String)
    ensures
        r@ == label(locale_v(locale), age(stamp, now)),
        forall|i: int| 0 <= i < r@.len() ==> #[trigger] r@[i] >= ' ',
{
    let secs: u64 = if now > stamp { now - stamp } else { 0 };
    match locale {
        Some(l) => {
            let code = language_of(l);
            if is_spoken(code.as_str()) {
                relative(code.as_str(), TimeUnit::Minutes, 1, secs)
            } else {
                relative("en", TimeUnit::Minutes, 1, secs)
            }
        },
        None => relative("en", TimeUnit::Minutes, 1, secs),
    }
}

/// Label for a block stamped `stamp` viewed at `now` (unix seconds): its age as a
/// localized relative phrase. Clock skew (`now < stamp`) collapses to the
/// phrase of no age. Which locale the machine has is left open.
pub fn format_relative(stamp: u64, now: u64) -> (r: String)
    ensures
        exists|locale: Option<Seq<char>>| r@ == #[trigger] label(locale, age(stamp, now)),
{
    match editor_locale() {
        Some(l) => {
            let r = format_in(Some(l.as_str()), stamp, now);
            assert(r@ == label(Some(l@), age(stamp, now)));
            r
        },
        None => {
            let r = format_in(None, stamp, now);
            assert(r@ == label(None, age(stamp, now)));
            r
        },
    }
}

/// A block stamped in the future is labelled like one stamped now, in any locale.
pub proof fn law_skew_collapses(locale: Option<Seq<char>>, stamp: u64, now: u64)
    requires
        now <= stamp,
    ensures
        label(locale, age(stamp, now)) == label(locale, age(stamp, stamp)),
{
}

// ---------------------------------------------------------------------------
// Stamps
// ---------------------------------------------------------------------------

/// A leap year of the Gregorian calendar.
pub open spec fn leap(y: int) -> bool {
    y % 4 == 0 && (y % 100 != 0 || y % 400 == 0)
}

/// The days from the start of year 0 to the start of year `y`.
pub open spec fn days_to_year(y: int) -> int {
    365 * y + (y + 3) / 4 - (y + 99) / 100 + (y + 399) / 400
}

/// The days of a year before its month `m`.
pub open spec fn days_to_month(y: int, m: int) -> int {
    let l: int = if leap(y) { 1 } else { 0 };
    if m <= 1 {
        0
    } else if m == 2 {
        31
    } else if m == 3 {
        59 + l
    } else if m == 4 {
        90 + l
    } else if m == 5 {
        120 + l
    } else if m == 6 {
        151 + l
    } else if m == 7 {
        181 + l
    } else if m == 8 {
        212 + l
    } else if m == 9 {
        243 + l
    } else if m == 10 {
        273 + l
    } else if m == 11 {
        304 + l
    } else {
        334 + l
    }
}

/// The number of the day `d` of month `m` of year `y`, day 0 being 1970-01-01.
pub open spec fn civil_day(y: int, m: int, d: int) -> int {
    days_to_year(y) + days_to_month(y, m) + d - 1 - 719_528
}

/// A byte as a decimal digit.
pub open spec fn is_dec(b: u8) -> bool {
    48 <= b <= 57
}

/// The value of a sequence of decimal digits.
pub open spec fn dec_value(s: Seq<u8>) -> int
    decreases s.len(),
{
    if s.len() == 0 {
        0
    } else {
        dec_value(s.drop_last()) * 10 + (s.last() - 48)
    }
}

/// One or more decimal digits and nothing else.
pub open spec fn all_dec(s: Seq<u8>) -> bool {
    s.len() > 0 && forall|i: int| 0 <= i < s.len() ==> is_dec(#[trigger] s[i])
}

/// The integer that a field of decimal digits spells; a sign or a blank is no digit.
pub open spec fn field_int(s: Seq<u8>) -> Option<int> {
    if all_dec(s) {
        Some(dec_value(s))
    } else {
        None
    }
}

/// How many days month `m` of year `y` has.
pub open spec fn month_len(y: int, m: int) -> int {
    if m == 2 {
        if leap(y) {
            29
        } else {
            28
        }
    } else if m == 4 || m == 6 || m == 9 || m == 11 {
        30
    } else {
        31
    }
}

/// The separators of a stamp stand where they belong: `-` `-` `T` `:` `:`.
pub open spec fn stamped(b: Seq<u8>) -> bool {
    b.len() >= 19 && b[4] == 45 && b[7] == 45 && b[10] == 84 && b[13] == 58 && b[16] == 58
}

/// The unix time of a stamp `YYYY-MM-DDThh:mm:ss…`, and 0 where the text is no
/// stamp, a field is not decimal digits or is out of range (a day beyond the end of
/// its month too), or the time lies before the epoch. What follows the seconds is
/// not read.
pub open spec fn iso_secs(b: Seq<u8>) -> int {
    if !stamped(b) {
        0
    } else {
        match (
            field_int(b.subrange(0, 4)),
            field_int(b.subrange(5, 7)),
            field_int(b.subrange(8, 10)),
            field_int(b.subrange(11, 13)),
            field_int(b.subrange(14, 16)),
            field_int(b.subrange(17, 19)),
        ) {
            (Some(y), Some(m), Some(d), Some(hh), Some(mm), Some(ss)) => {
                let secs = civil_day(y, m, d) * 86_400 + hh * 3600 + mm * 60 + ss;
                if !(1 <= m <= 12) || !(1 <= d <= month_len(y, m)) || hh > 23 || mm > 59 || ss > 60 || secs < 0 {
                    0
                } else {
                    secs
                }
            },
            _ => 0,
        }
    }
}

proof fn lemma_dec_bounds(s: Seq<u8>)
    requires
        forall|i: int| 0 <= i < s.len() ==> is_dec(#[trigger] s[i]),
        s.len() <= 4,
    ensures
        0 <= dec_value(s) <= 9999,
        s.len() <= 3 ==> dec_value(s) <= 999,
        s.len() <= 2 ==> dec_value(s) <= 99,
        s.len() <= 1 ==> dec_value(s) <= 9,
        s.len() == 0 ==> dec_value(s) == 0,
    decreases s.len(),
{
    if s.len() > 0 {
        assert(is_dec(s[s.len() - 1]));
        lemma_dec_bounds(s.drop_last());
    }
}

fn parse_field(b: &[u8], from: usize, to: usize) -> (r: Option<i64>)
    requires
        from < to <= b@.len(),
        to - from <= 4,
    ensures
        match r {
            Some(n) => field_int(b@.subrange(from as int, to as int)) == Some(n as int) && 0 <= n <= 9999,
            None => field_int(b@.subrange(from as int, to as int)) is None,
        },
{
    let ghost d = b@.subrange(from as int, to as int);
    let mut acc: i64 = 0;
    let mut i: usize = from;
    assert(d.take(0) =~= Seq::<u8>::empty());
    while i < to
        invariant
            from <= i <= to <= b@.len(),
            from < to,
            to - from <= 4,
            d == b@.subrange(from as int, to as int),
            forall|k: int| 0 <= k < i - from ==> is_dec(#[trigger] d[k]),
            acc == dec_value(d.take(i - from)),
            0 <= acc <= 9999,
        decreases to - i,
    {
        let c: u8 = b[i];
        assert(d[i - from] == c);
        if !(48 <= c && c <= 57) {
            assert(!is_dec(d[i - from]));
            return None;
        }
        proof {
            assert(d.take(i - from + 1).drop_last() =~= d.take(i - from));
            lemma_dec_bounds(d.take(i - from + 1));
        }
        acc = acc * 10 + (c - 48) as i64;
        i = i + 1;
    }
    assert(d.take(i - from) =~= d);
    Some(acc)
}

fn is_leap(y: i64) -> (r: bool)
    requires
        y >= 0,
    ensures
        r == leap(y as int),
{
    y % 4 == 0 && (y % 100 != 0 || y % 400 == 0)
}

fn days_of_month(y: i64, m: i64) -> (r: i64)
    requires
        y >= 0,
    ensures
        r == month_len(y as int, m as int),
{
    if m == 2 {
        if is_leap(y) {
            29
        } else {
            28
        }
    } else if m == 4 || m == 6 || m == 9 || m == 11 {
        30
    } else {
        31
    }
}

/// The day number by counting from March in cycles of 400 years.
proof fn lemma_day_number(y: int, m: int, d: int, y1: int, era: int, yoe: int, mp: int, doy: int, doe: int)
    requires
        1 <= m <= 12,
        y1 == if m <= 2 { y - 1 } else { y },
        era == y1 / 400,
        yoe == y1 - era * 400,
        mp == if m > 2 { m - 3 } else { m + 9 },
        doy == (153 * mp + 2) / 5 + d - 1,
        doe == yoe * 365 + yoe / 4 - yoe / 100 + doy,
    ensures
        era * 146_097 + doe - 719_468 == civil_day(y, m, d),
        0 <= yoe < 400,
{
    assert(y1 / 4 == 100 * era + yoe / 4);
    assert(y1 / 100 == 4 * era + yoe / 100);
    let base = 365 * y1 + y1 / 4 - y1 / 100 + y1 / 400;
    assert(era * 146_097 + doe == base + doy);
    if m <= 2 {
        assert(y1 == y - 1);
        assert((y + 3) / 4 == y1 / 4 + 1);
        assert((y + 99) / 100 == y1 / 100 + 1);
        assert((y + 399) / 400 == y1 / 400 + 1);
    } else {
        let l: int = if leap(y) { 1 } else { 0 };
        let a: int = if y % 4 == 0 { 1 } else { 0 };
        let b: int = if y % 100 == 0 { 1 } else { 0 };
        let c: int = if y % 400 == 0 { 1 } else { 0 };
        assert((y + 3) / 4 == y / 4 + 1 - a);
        assert((y + 99) / 100 == y / 100 + 1 - b);
        assert((y + 399) / 400 == y / 400 + 1 - c);
        assert(l == a - b + c);
    }
}

/// Parse an RFC 3339 timestamp ("2026-07-02T08:12:34.567Z") to unix seconds. 0 on
/// any parse failure — callers treat 0 as "unknown".
pub fn parse_iso8601_secs(s: &str) -> (r: u64)
    ensures
        r == iso_secs(s.spec_bytes()),
{
    let b = s.as_bytes();
    if b.len() < 19 || b[4] != 45 || b[7] != 45 || b[10] != 84 || b[13] != 58 || b[16] != 58 {
        return 0;
    }
    let (y, m, d, hh, mm, ss) = match (
        parse_field(b, 0, 4),
        parse_field(b, 5, 7),
        parse_field(b, 8, 10),
        parse_field(b, 11, 13),
        parse_field(b, 14, 16),
        parse_field(b, 17, 19),
    ) {
        (Some(y), Some(m), Some(d), Some(hh), Some(mm), Some(ss)) => (y, m, d, hh, mm, ss),
        _ => {
            return 0;
        },
    };
    if m < 1 || m > 12 || d < 1 || d > days_of_month(y, m) || hh > 23 || mm > 59 || ss > 60 {
        return 0;
    }
    let y1: i64 = if m <= 2 { y - 1 } else { y };
    // Shifted by whole cycles, so that the division is of positive numbers.
    let era: i64 = (y1 + 12_000) / 400 - 30;
    let yoe: i64 = y1 - era * 400;
    let mp: i64 = if m > 2 { m - 3 } else { m + 9 };
    let doy: i64 = (153 * mp + 2) / 5 + d - 1;
    let doe: i64 = yoe * 365 + yoe / 4 - yoe / 100 + doy;
    let days: i64 = era * 146_097 + doe - 719_468;
    proof {
        lemma_day_number(
            y as int,
            m as int,
            d as int,
            y1 as int,
            era as int,
            yoe as int,
            mp as int,
            doy as int,
            doe as int,
        );
    }
    let secs: i64 = days * 86_400 + hh * 3600 + mm * 60 + ss;
    if secs < 0 {
        0
    } else {
        secs as u64
    }
}

/// The day after a day of the calendar.
pub open spec fn next_day(y: int, m: int, d: int) -> (int, int, int) {
    if d < month_len(y, m) {
        (y, m, d + 1)
    } else if m < 12 {
        (y, m + 1, 1)
    } else {
        (y + 1, 1, 1)
    }
}

/// Consecutive days of the calendar have consecutive numbers, across months, years
/// and leap days; midnights are 86 400 s apart.
pub proof fn law_consecutive_days(y: int, m: int, d: int)
    requires
        1 <= m <= 12,
        1 <= d <= month_len(y, m),
    ensures
        ({
            let (y2, m2, d2) = next_day(y, m, d);
            civil_day(y2, m2, d2) == civil_day(y, m, d) + 1
        }),
{
    if d == month_len(y, m) && m == 12 {
        let a: int = if y % 4 == 0 { 1 } else { 0 };
        let b: int = if y % 100 == 0 { 1 } else { 0 };
        let c: int = if y % 400 == 0 { 1 } else { 0 };
        assert((y + 4) / 4 == (y + 3) / 4 + a);
        assert((y + 100) / 100 == (y + 99) / 100 + b);
        assert((y + 400) / 400 == (y + 399) / 400 + c);
    }
}

/// Day 0 is the first of January 1970.
pub proof fn law_epoch()
    ensures
        civil_day(1970, 1, 1) == 0,
{
}

/// Only the first 19 bytes of a stamp count: fractions and zones are ignored.
pub proof fn law_suffix_is_ignored(b: Seq<u8>, c: Seq<u8>)
    requires
        b.len() >= 19,
        c.len() >= 19,
        b.take(19) == c.take(19),
    ensures
        iso_secs(b) == iso_secs(c),
{
    assert forall|i: int| 0 <= i < 19 implies #[trigger] b[i] == c[i] by {
        assert(b.take(19)[i] == b[i]);
        assert(c.take(19)[i] == c[i]);
    }
    assert(b.subrange(0, 4) =~= c.subrange(0, 4));
    assert(b.subrange(5, 7) =~= c.subrange(5, 7));
    assert(b.subrange(8, 10) =~= c.subrange(8, 10));
    assert(b.subrange(11, 13) =~= c.subrange(11, 13));
    assert(b.subrange(14, 16) =~= c.subrange(14, 16));
    assert(b.subrange(17, 19) =~= c.subrange(17, 19));
}

/// A stamp that names an instant from 1970 on, in whole minutes of 60 seconds.
pub open spec fn instant(b: Seq<u8>) -> bool {
    &&& stamped(b)
    &&& field_int(b.subrange(0, 4)) matches Some(y) && 1970 <= y
    &&& field_int(b.subrange(5, 7)) matches Some(m) && 1 <= m <= 12
    &&& field_int(b.subrange(8, 10)) matches Some(d) && 1 <= d <= month_len(
        field_int(b.subrange(0, 4))->0,
        field_int(b.subrange(5, 7))->0,
    )
    &&& field_int(b.subrange(11, 13)) matches Some(hh) && hh <= 23
    &&& field_int(b.subrange(14, 16)) matches Some(mm) && mm <= 59
    &&& field_int(b.subrange(17, 19)) matches Some(ss) && ss <= 59
}

/// Whether the bytes from the `i`th to the 19th come before those of another text,
/// compared byte by byte.
pub open spec fn before(a: Seq<u8>, b: Seq<u8>, i: int) -> bool
    decreases 19 - i,
{
    i < 19 && (a[i] < b[i] || (a[i] == b[i] && before(a, b, i + 1)))
}

/// The digits of a field decide a comparison by the field's value, and leave it to
/// what follows where the values agree.
proof fn lemma_field_order(a: Seq<u8>, b: Seq<u8>, from: int, to: int)
    requires
        0 <= from < to <= 19,
        to - from == 2 || to - from == 4,
        a.len() >= 19,
        b.len() >= 19,
        all_dec(a.subrange(from, to)),
        all_dec(b.subrange(from, to)),
    ensures
        ({
            let x = dec_value(a.subrange(from, to));
            let y = dec_value(b.subrange(from, to));
            &&& before(a, b, from) == (x < y || (x == y && before(a, b, to)))
            &&& x == y <==> a.subrange(from, to) == b.subrange(from, to)
            &&& x >= 0
            &&& y >= 0
        }),
{
    let s = a.subrange(from, to);
    let t = b.subrange(from, to);
    assert forall|k: int| 0 <= k < to - from implies is_dec(#[trigger] a[from + k]) && is_dec(b[from + k]) by {
        assert(s[k] == a[from + k] && t[k] == b[from + k]);
        assert(is_dec(s[k]) && is_dec(t[k]));
    }
    assert(is_dec(a[from + 0]) && is_dec(a[from + 1]));
    reveal_with_fuel(before, 5);
    reveal_with_fuel(dec_value, 5);
    if to - from == 2 {
        assert(s.drop_last().drop_last() =~= Seq::<u8>::empty());
        assert(t.drop_last().drop_last() =~= Seq::<u8>::empty());
        assert(dec_value(s) == (s[0] - 48) * 10 + (s[1] - 48));
        assert(dec_value(t) == (t[0] - 48) * 10 + (t[1] - 48));
        if dec_value(s) == dec_value(t) {
            assert(s =~= t);
        }
    } else {
        assert(is_dec(a[from + 2]) && is_dec(a[from + 3]));
        assert(s.drop_last().drop_last().drop_last().drop_last() =~= Seq::<u8>::empty());
        assert(t.drop_last().drop_last().drop_last().drop_last() =~= Seq::<u8>::empty());
        assert(dec_value(s) == (s[0] - 48) * 1000 + (s[1] - 48) * 100 + (s[2] - 48) * 10 + (s[3] - 48));
        assert(dec_value(t) == (t[0] - 48) * 1000 + (t[1] - 48) * 100 + (t[2] - 48) * 10 + (t[3] - 48));
        if dec_value(s) == dec_value(t) {
            assert(s =~= t);
        }
    }
}

/// A later year begins after the last day of an earlier one.
proof fn lemma_years_ascend(y: int, z: int)
    requires
        0 <= y < z,
    ensures
        days_to_year(y) + 365 + (if leap(y) { 1int } else { 0int }) <= days_to_year(z),
    decreases z - y,
{
    let w = z - 1;
    let a: int = if w % 4 == 0 { 1 } else { 0 };
    let b: int = if w % 100 == 0 { 1 } else { 0 };
    let c: int = if w % 400 == 0 { 1 } else { 0 };
    assert((w + 4) / 4 == (w + 3) / 4 + a);
    assert((w + 100) / 100 == (w + 99) / 100 + b);
    assert((w + 400) / 400 == (w + 399) / 400 + c);
    if y < w {
        lemma_years_ascend(y, w);
    }
}

/// A later month begins after the last day of an earlier one of the same year.
proof fn lemma_months_ascend(y: int, m: int, n: int)
    requires
        1 <= m < n <= 12,
    ensures
        days_to_month(y, m) + month_len(y, m) <= days_to_month(y, n),
    decreases n - m,
{
    if m + 1 < n {
        lemma_months_ascend(y, m + 1, n);
    }
}

/// A later day of the calendar has a greater number.
proof fn lemma_days_ascend(y: int, m: int, d: int, y2: int, m2: int, d2: int)
    requires
        0 <= y,
        1 <= m <= 12,
        1 <= d <= month_len(y, m),
        1 <= m2 <= 12,
        1 <= d2 <= month_len(y2, m2),
        y < y2 || (y == y2 && (m < m2 || (m == m2 && d < d2))),
    ensures
        civil_day(y, m, d) < civil_day(y2, m2, d2),
{
    if y < y2 {
        lemma_years_ascend(y, y2);
        if m < 12 {
            lemma_months_ascend(y, m, 12);
        }
        if m2 > 1 {
            lemma_months_ascend(y2, 1, m2);
        }
    } else if m < m2 {
        lemma_months_ascend(y, m, m2);
    }
}

/// Stamps are ordered as text as the instants that they name are in time: of two
/// stamps, the one whose first 19 bytes come first names the earlier instant, and
/// stamps with the same first 19 bytes name the same one.
#[verifier::spinoff_prover]
#[verifier::rlimit(40)]
pub proof fn law_stamps_are_ordered(b: Seq<u8>, c: Seq<u8>)
    requires
        instant(b),
        instant(c),
    ensures
        iso_secs(b) < iso_secs(c) <==> before(b, c, 0),
        iso_secs(b) == iso_secs(c) <==> b.take(19) == c.take(19),
{
    lemma_field_order(b, c, 0, 4);
    lemma_field_order(b, c, 5, 7);
    lemma_field_order(b, c, 8, 10);
    lemma_field_order(b, c, 11, 13);
    lemma_field_order(b, c, 14, 16);
    lemma_field_order(b, c, 17, 19);
    assert(before(b, c, 4) == before(b, c, 5));
    assert(before(b, c, 7) == before(b, c, 8));
    assert(before(b, c, 10) == before(b, c, 11));
    assert(before(b, c, 13) == before(b, c, 14));
    assert(before(b, c, 16) == before(b, c, 17));
    assert(!before(b, c, 19));
    let (y, m, d) = (dec_value(b.subrange(0, 4)), dec_value(b.subrange(5, 7)), dec_value(b.subrange(8, 10)));
    let (y2, m2, d2) = (dec_value(c.subrange(0, 4)), dec_value(c.subrange(5, 7)), dec_value(c.subrange(8, 10)));
    lemma_epoch_is_first(y, m, d);
    lemma_epoch_is_first(y2, m2, d2);
    if y < y2 || (y == y2 && (m < m2 || (m == m2 && d < d2))) {
        lemma_days_ascend(y, m, d, y2, m2, d2);
    } else if y2 < y || (y2 == y && (m2 < m || (m2 == m && d2 < d))) {
        lemma_days_ascend(y2, m2, d2, y, m, d);
    }
    if b.take(19) == c.take(19) {
        law_suffix_is_ignored(b, c);
    }
    if iso_secs(b) == iso_secs(c) {
        assert forall|i: int| 0 <= i < 19 implies b[i] == c[i] by {
            if i < 4 {
                assert(b.subrange(0, 4)[i] == c.subrange(0, 4)[i]);
            } else if 5 <= i < 7 {
                assert(b.subrange(5, 7)[i - 5] == c.subrange(5, 7)[i - 5]);
            } else if 8 <= i < 10 {
                assert(b.subrange(8, 10)[i - 8] == c.subrange(8, 10)[i - 8]);
            } else if 11 <= i < 13 {
                assert(b.subrange(11, 13)[i - 11] == c.subrange(11, 13)[i - 11]);
            } else if 14 <= i < 16 {
                assert(b.subrange(14, 16)[i - 14] == c.subrange(14, 16)[i - 14]);
            } else if 17 <= i {
                assert(b.subrange(17, 19)[i - 17] == c.subrange(17, 19)[i - 17]);
            }
        }
        assert(b.take(19) =~= c.take(19));
    }
}

/// No day from 1970 on has a number below 0.
proof fn lemma_epoch_is_first(y: int, m: int, d: int)
    requires
        1970 <= y,
        1 <= m <= 12,
        1 <= d <= month_len(y, m),
    ensures
        civil_day(y, m, d) >= 0,
{
    law_epoch();
    if (y, m, d) != (1970int, 1int, 1int) {
        lemma_days_ascend(1970, 1, 1, y, m, d);
    }
}

/// An age is the time between a stamp and now, and nothing where the stamp lies ahead.
pub proof fn law_age_is_the_time_since(stamp: u64, now: u64)
    ensures
        stamp <= now ==> stamp + age(stamp, now) == now,
        now <= stamp ==> age(stamp, now) == 0,
{
}

/// A label is in the language of its locale where that is spoken, and in English otherwise.
/// It counts one unit, no smaller than minutes.
pub proof fn law_labels_speak_the_locale(locale: Seq<char>, secs: u64)
    ensures
        spoken(language_code(locale)) ==> label(Some(locale), secs) == phrase(
            language_code(locale),
            TimeUnit::Minutes,
            1,
            secs as nat,
        ),
        !spoken(language_code(locale)) ==> label(Some(locale), secs) == phrase("en"@, TimeUnit::Minutes, 1, secs as nat),
        label(None, secs) == phrase("en"@, TimeUnit::Minutes, 1, secs as nat),
{
}

/// The language of a locale is what stands before its first separator, in small letters.
pub proof fn law_language_is_the_first_part(locale: Seq<char>, n: int)
    requires
        0 <= n <= locale.len(),
        forall|i: int| 0 <= i < n ==> (#[trigger] locale[i]) != '-' && locale[i] != '_',
        n == locale.len() || locale[n] == '-' || locale[n] == '_',
    ensures
        language_code(locale).len() == n,
        forall|i: int| 0 <= i < n ==> #[trigger] language_code(locale)[i] == ascii_lower(locale[i]),
{
    lemma_run(locale, in_tag(), n as nat);
}

/// Within a day the hours, minutes and seconds count from its midnight.
pub proof fn law_stamp_counts_from_midnight(b: Seq<u8>)
    requires
        instant(b),
    ensures
        iso_secs(b) == 86_400 * civil_day(
            dec_value(b.subrange(0, 4)),
            dec_value(b.subrange(5, 7)),
            dec_value(b.subrange(8, 10)),
        ) + 3_600 * dec_value(b.subrange(11, 13)) + 60 * dec_value(b.subrange(14, 16)) + dec_value(b.subrange(17, 19)),
{
    lemma_dec_bounds(b.subrange(11, 13));
    lemma_dec_bounds(b.subrange(14, 16));
    lemma_dec_bounds(b.subrange(17, 19));
    lemma_epoch_is_first(
        dec_value(b.subrange(0, 4)),
        dec_value(b.subrange(5, 7)),
        dec_value(b.subrange(8, 10)),
    );
}

/// Two digits spell ten times the first and the second.
pub proof fn law_two_digits(s: Seq<u8>)
    requires
        s.len() == 2,
        all_dec(s),
    ensures
        field_int(s) == Some(10 * (s[0] - 48) + (s[1] - 48)),
{
    reveal_with_fuel(dec_value, 3);
}

/// A text that is no stamp has no time: one too short or with a separator out of place, one
/// with a field that is not made of digits, and one that names no month, day, hour, minute
/// or second there is.
pub proof fn law_malformed_stamps_have_no_time(b: Seq<u8>)
    ensures
        b.len() < 19 ==> iso_secs(b) == 0,
        b.len() >= 19 && !(b[4] == '-' as u8 && b[7] == '-' as u8 && b[10] == 'T' as u8 && b[13] == ':' as u8 && b[16]
            == ':' as u8) ==> iso_secs(b) == 0,
        b.len() >= 19 && (exists|i: int|
            0 <= i < 19 && i != 4 && i != 7 && i != 10 && i != 13 && i != 16 && !(48 <= #[trigger] b[i] <= 57))
            ==> iso_secs(b) == 0,
        dec_value(b.subrange(5, 7)) < 1 || dec_value(b.subrange(5, 7)) > 12 ==> iso_secs(b) == 0,
        dec_value(b.subrange(8, 10)) < 1 || dec_value(b.subrange(8, 10)) > 31 ==> iso_secs(b) == 0,
        dec_value(b.subrange(5, 7)) == 2 && dec_value(b.subrange(8, 10)) == 29 && !leap(dec_value(b.subrange(0, 4)))
            ==> iso_secs(b) == 0,
        dec_value(b.subrange(11, 13)) > 23 ==> iso_secs(b) == 0,
        dec_value(b.subrange(14, 16)) > 59 ==> iso_secs(b) == 0,
        dec_value(b.subrange(17, 19)) > 60 ==> iso_secs(b) == 0,
        0 <= iso_secs(b),
{
    if b.len() >= 19 && (exists|i: int|
        0 <= i < 19 && i != 4 && i != 7 && i != 10 && i != 13 && i != 16 && !(48 <= #[trigger] b[i] <= 57)) {
        let i = choose|i: int|
            0 <= i < 19 && i != 4 && i != 7 && i != 10 && i != 13 && i != 16 && !(48 <= #[trigger] b[i] <= 57);
        if i < 4 {
            assert(b.subrange(0, 4)[i] == b[i]);
        } else if i < 7 {
            assert(b.subrange(5, 7)[i - 5] == b[i]);
        } else if i < 10 {
            assert(b.subrange(8, 10)[i - 8] == b[i]);
        } else if i < 13 {
            assert(b.subrange(11, 13)[i - 11] == b[i]);
        } else if i < 16 {
            assert(b.subrange(14, 16)[i - 14] == b[i]);
        } else {
            assert(b.subrange(17, 19)[i - 17] == b[i]);
        }
    }
}

} // verus!
