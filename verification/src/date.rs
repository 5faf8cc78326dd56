//! Calendar dates (proleptic Gregorian, as chrono's `NaiveDate`) held as
//! plain values; chrono does the stepping and the formatting.

use chrono::{Datelike, NaiveDate};
use vstd::prelude::*;
use crate::text::{all_ascii, dec, digits_value, lemma_ascii_concat, lemma_dec_ascii, is_digit, lemma_dec_value, lemma_zero_pad, lemma_zeros_value, zero_pad};

verus! {

/// First and last year that chrono's `NaiveDate` represents.
pub const MIN_YEAR: i32 = -262143;

pub const MAX_YEAR: i32 = 262142;

/// A calendar date. Well-formed when `valid_date` holds.
#[derive(PartialEq, Eq, Structural, Clone, Copy, Debug)]
pub struct Date {
    pub year: i32,
    pub month: u32,
    pub day: u32,
}

pub open spec fn is_leap(y: int) -> bool {
    (y % 4 == 0 && y % 100 != 0) || y % 400 == 0
}

pub open spec fn days_in_month(y: int, m: int) -> int {
    if m == 2 {
        if is_leap(y) {
            29
        } else {
            28
        }
    } else if m == 4 || m == 6 || m == 9 || m == 11 {
        30
    } else {
        31
    }
}

pub open spec fn valid_date(d: Date) -> bool {
    &&& MIN_YEAR <= d.year <= MAX_YEAR
    &&& 1 <= d.month <= 12
    &&& 1 <= d.day <= days_in_month(d.year as int, d.month as int)
}

/// The calendar day before `d`.
pub open spec fn prev_day(d: Date) -> Date {
    if d.day > 1 {
        Date { day: (d.day - 1) as u32, ..d }
    } else if d.month > 1 {
        Date {
            year: d.year,
            month: (d.month - 1) as u32,
            day: days_in_month(d.year as int, d.month - 1) as u32,
        }
    } else {
        Date { year: (d.year - 1) as i32, month: 12, day: 31 }
    }
}

/// `d` stepped back `n` days.
pub open spec fn days_back(d: Date, n: nat) -> Date
    decreases n,
{
    if n == 0 {
        d
    } else {
        prev_day(days_back(d, (n - 1) as nat))
    }
}

/// Chronological order.
pub open spec fn date_lt(a: Date, b: Date) -> bool {
    a.year < b.year || (a.year == b.year && (a.month < b.month || (a.month == b.month && a.day
        < b.day)))
}

pub open spec fn date_le(a: Date, b: Date) -> bool {
    a == b || date_lt(a, b)
}

/// Whether `prev_day` is defined (chrono's first date has none).
pub open spec fn has_prev(d: Date) -> bool {
    !(d.year == MIN_YEAR && d.month == 1 && d.day == 1)
}

/// Days from 1970-01-01 to a date of the proleptic Gregorian calendar
/// (negative before it): the count of whole 400-year eras, of years in the
/// era, and of days in the year counted from March.
pub open spec fn days_from_civil(y: int, m: int, d: int) -> int {
    let y2 = if m <= 2 {
        y - 1
    } else {
        y
    };
    let era = y2 / 400;
    let yoe = y2 - era * 400;
    let mp = (m + 9) % 12;
    let doy = (153 * mp + 2) / 5 + d - 1;
    let doe = yoe * 365 + yoe / 4 - yoe / 100 + doy;
    era * 146097 + doe - 719468
}

/// Position of a date's weekday, Sunday = 0 (1970-01-01 was a Thursday).
pub open spec fn weekday_num(y: int, m: int, d: int) -> int {
    (days_from_civil(y, m, d) + 4) % 7
}

pub open spec fn month_abbr(m: int) -> Seq<char> {
    if m == 1 {
        seq!['J', 'a', 'n']
    } else if m == 2 {
        seq!['F', 'e', 'b']
    } else if m == 3 {
        seq!['M', 'a', 'r']
    } else if m == 4 {
        seq!['A', 'p', 'r']
    } else if m == 5 {
        seq!['M', 'a', 'y']
    } else if m == 6 {
        seq!['J', 'u', 'n']
    } else if m == 7 {
        seq!['J', 'u', 'l']
    } else if m == 8 {
        seq!['A', 'u', 'g']
    } else if m == 9 {
        seq!['S', 'e', 'p']
    } else if m == 10 {
        seq!['O', 'c', 't']
    } else if m == 11 {
        seq!['N', 'o', 'v']
    } else {
        seq!['D', 'e', 'c']
    }
}

pub open spec fn month_name(m: int) -> Seq<char> {
    if m == 1 {
        seq!['J', 'a', 'n', 'u', 'a', 'r', 'y']
    } else if m == 2 {
        seq!['F', 'e', 'b', 'r', 'u', 'a', 'r', 'y']
    } else if m == 3 {
        seq!['M', 'a', 'r', 'c', 'h']
    } else if m == 4 {
        seq!['A', 'p', 'r', 'i', 'l']
    } else if m == 5 {
        seq!['M', 'a', 'y']
    } else if m == 6 {
        seq!['J', 'u', 'n', 'e']
    } else if m == 7 {
        seq!['J', 'u', 'l', 'y']
    } else if m == 8 {
        seq!['A', 'u', 'g', 'u', 's', 't']
    } else if m == 9 {
        seq!['S', 'e', 'p', 't', 'e', 'm', 'b', 'e', 'r']
    } else if m == 10 {
        seq!['O', 'c', 't', 'o', 'b', 'e', 'r']
    } else if m == 11 {
        seq!['N', 'o', 'v', 'e', 'm', 'b', 'e', 'r']
    } else {
        seq!['D', 'e', 'c', 'e', 'm', 'b', 'e', 'r']
    }
}

/// Weekday abbreviation, Sunday = 0.
pub open spec fn weekday_abbr(w: int) -> Seq<char> {
    if w == 0 {
        seq!['S', 'u', 'n']
    } else if w == 1 {
        seq!['M', 'o', 'n']
    } else if w == 2 {
        seq!['T', 'u', 'e']
    } else if w == 3 {
        seq!['W', 'e', 'd']
    } else if w == 4 {
        seq!['T', 'h', 'u']
    } else if w == 5 {
        seq!['F', 'r', 'i']
    } else {
        seq!['S', 'a', 't']
    }
}

/// chrono's `%Y`: four zero-padded digits, or a sign and at least four
/// digits outside 0..=9999.
pub open spec fn year4(y: int) -> Seq<char> {
    if 0 <= y <= 9999 {
        zero_pad(dec(y as nat), 4)
    } else if y < 0 {
        seq!['-'] + zero_pad(dec((-y) as nat), 4)
    } else {
        seq!['+'] + zero_pad(dec(y as nat), 4)
    }
}

/// `Display` of a date: `%Y-%m-%d`.
pub open spec fn iso_date(d: Date) -> Seq<char> {
    year4(d.year as int) + seq!['-'] + zero_pad(dec(d.month as nat), 2) + seq!['-'] + zero_pad(
        dec(d.day as nat),
        2,
    )
}

pub open spec fn weekday_of(d: Date) -> int {
    weekday_num(d.year as int, d.month as int, d.day as int)
}

pub open spec fn sp() -> Seq<char> {
    seq![' ']
}

/// `%-d %b`, e.g. "24 Aug".
pub open spec fn fmt_day_mon(d: Date) -> Seq<char> {
    dec(d.day as nat) + sp() + month_abbr(d.month as int)
}

/// `%a %-d`, e.g. "Mon 24".
pub open spec fn fmt_wday_day(d: Date) -> Seq<char> {
    weekday_abbr(weekday_of(d)) + sp() + dec(d.day as nat)
}

/// Month and weekday names are plain ASCII.
pub proof fn lemma_names_ascii(m: int, w: int)
    ensures
        all_ascii(month_abbr(m)),
        all_ascii(month_name(m)),
        all_ascii(weekday_abbr(w)),
{
}

/// chrono's `%Y` is ASCII: digits and, outside 0..=9999, a sign.
pub proof fn lemma_year4_ascii(y: int)
    ensures
        all_ascii(year4(y)),
{
    if 0 <= y <= 9999 {
        lemma_dec_ascii(y as nat, 4);
    } else if y < 0 {
        lemma_dec_ascii((-y) as nat, 4);
        lemma_ascii_concat(seq!['-'], zero_pad(dec((-y) as nat), 4));
    } else {
        lemma_dec_ascii(y as nat, 4);
        lemma_ascii_concat(seq!['+'], zero_pad(dec(y as nat), 4));
    }
}

/// Every date text the site shows is plain ASCII: digits, signs, spaces and
/// English names.
pub proof fn lemma_date_formats_ascii(d: Date)
    ensures
        all_ascii(fmt_day_mon(d)),
        all_ascii(fmt_wday_day(d)),
        all_ascii(fmt_month_year(d)),
        all_ascii(fmt_long(d)),
{
    let n = dec(d.day as nat);
    lemma_dec_ascii(d.day as nat, 0);
    lemma_names_ascii(d.month as int, weekday_of(d));
    lemma_year4_ascii(d.year as int);
    let m = month_abbr(d.month as int);
    let w = weekday_abbr(weekday_of(d));
    let y = year4(d.year as int);
    assert(all_ascii(sp()));
    lemma_ascii_concat(n, sp());
    lemma_ascii_concat(n + sp(), m);
    lemma_ascii_concat(w, sp());
    lemma_ascii_concat(w + sp(), n);
    lemma_ascii_concat(month_name(d.month as int), sp());
    lemma_ascii_concat(month_name(d.month as int) + sp(), y);
    lemma_ascii_concat(w + sp() + n, sp());
    lemma_ascii_concat(w + sp() + n + sp(), m);
    lemma_ascii_concat(w + sp() + n + sp() + m, sp());
    lemma_ascii_concat(w + sp() + n + sp() + m + sp(), y);
}

/// `%B %Y`, e.g. "August 2026".
pub open spec fn fmt_month_year(d: Date) -> Seq<char> {
    month_name(d.month as int) + sp() + year4(d.year as int)
}

/// `%a %-d %b %Y`, e.g. "Mon 24 Aug 2026".
pub open spec fn fmt_long(d: Date) -> Seq<char> {
    weekday_abbr(weekday_of(d)) + sp() + dec(d.day as nat) + sp() + month_abbr(d.month as int)
        + sp() + year4(d.year as int)
}

/// RFC 2822 stamp of 06:00 UTC on the date, e.g.
/// "Mon, 24 Aug 2026 06:00:00 +0000".
pub open spec fn fmt_rfc2822_six(d: Date) -> Seq<char> {
    weekday_abbr(weekday_of(d)) + rfc2822_tail(d)
}

/// What follows the weekday in `fmt_rfc2822_six`.
pub open spec fn rfc2822_tail(d: Date) -> Seq<char> {
    seq![',', ' '] + dec(d.day as nat) + sp() + month_abbr(
        d.month as int,
    ) + sp() + zero_pad(dec(d.year as nat), 4) + seq![
        ' ',
        '0',
        '6',
        ':',
        '0',
        '0',
        ':',
        '0',
        '0',
        ' ',
        '+',
        '0',
        '0',
        '0',
        '0',
    ]
}

impl Date {
    /// The date with these parts, when it exists in chrono's range.
    pub fn from_ymd(year: i32, month: u32, day: u32) -> (r: Option<Date>)
        ensures
            match r {
                Some(d) => d == (Date { year, month, day }) && valid_date(d),
                None => !valid_date(Date { year, month, day }),
            },
    {
        if year < MIN_YEAR || year > MAX_YEAR || month < 1 || month > 12 || day < 1 {
            return None;
        }
        if day > month_days(year, month) {
            return None;
        }
        Some(Date { year, month, day })
    }

    /// The day before (`NaiveDate::pred_opt`).
    #[verifier::external_body]
    pub(crate) fn pred(&self) -> (r: Date)
        requires
            valid_date(*self),
            has_prev(*self),
        ensures
            r == prev_day(*self),
            valid_date(r),
    {
        let p = NaiveDate::from_ymd_opt(self.year, self.month, self.day).unwrap().pred_opt().unwrap();
        Date { year: p.year(), month: p.month(), day: p.day() }
    }

    /// `NaiveDate::format(pattern).to_string()`, for the patterns the site
    /// prints: chrono's `%-d` is the unpadded day, `%b` and `%B` the English
    /// month abbreviation and name, `%a` the weekday abbreviation and `%Y`
    /// the year (see `year4`).
    #[verifier::external_body]
    pub(crate) fn format(&self, pattern: &str) -> (r: String)
        requires
            valid_date(*self),
            pattern@ == "%-d %b"@ || pattern@ == "%a %-d"@ || pattern@ == "%B %Y"@ || pattern@
                == "%b"@ || pattern@ == "%a %-d %b %Y"@,
        ensures
            pattern@ == "%-d %b"@ ==> r@ == fmt_day_mon(*self),
            pattern@ == "%a %-d"@ ==> r@ == weekday_abbr(weekday_of(*self)) + sp() + dec(self.day as nat),
            pattern@ == "%B %Y"@ ==> r@ == fmt_month_year(*self),
            pattern@ == "%b"@ ==> r@ == month_abbr(self.month as int),
            pattern@ == "%a %-d %b %Y"@ ==> r@ == weekday_abbr(weekday_of(*self)) + sp() + dec(
                self.day as nat,
            ) + sp() + month_abbr(self.month as int) + sp() + year4(self.year as int),
    {
        NaiveDate::from_ymd_opt(self.year, self.month, self.day).unwrap().format(pattern).to_string()
    }

    /// `and_hms_opt(6, 0, 0).and_utc().to_rfc2822()`, which chrono defines
    /// for years 0..=9999 only; the weekday is chrono's.
    #[verifier::external_body]
    pub(crate) fn rfc2822_six(&self) -> (r: String)
        requires
            valid_date(*self),
            0 <= self.year <= 9999,
        ensures
            r@ == weekday_abbr(weekday_of(*self)) + rfc2822_tail(*self),
    {
        NaiveDate::from_ymd_opt(self.year, self.month, self.day).unwrap().and_hms_opt(
            6,
            0,
            0,
        ).unwrap().and_utc().to_rfc2822()
    }

    /// `Display` (`%Y-%m-%d`).
    #[verifier::external_body]
    pub(crate) fn iso(&self) -> (r: String)
        requires
            valid_date(*self),
        ensures
            r@ == iso_date(*self),
    {
        NaiveDate::from_ymd_opt(self.year, self.month, self.day).unwrap().to_string()
    }

    /// Whole days from `earlier` to `self` (`(self - earlier).num_days()`).
    #[verifier::external_body]
    pub(crate) fn days_since(&self, earlier: &Date) -> (r: i64)
        requires
            valid_date(*self),
            valid_date(*earlier),
        ensures
            r == days_from_civil(self.year as int, self.month as int, self.day as int) - days_from_civil(
                earlier.year as int,
                earlier.month as int,
                earlier.day as int,
            ),
    {
        let a = NaiveDate::from_ymd_opt(self.year, self.month, self.day).unwrap();
        let b = NaiveDate::from_ymd_opt(earlier.year, earlier.month, earlier.day).unwrap();
        (a - b).num_days()
    }

    /// Chronological `<`.
    pub fn lt(&self, other: &Date) -> (r: bool)
        ensures
            r == date_lt(*self, *other),
    {
        self.year < other.year || (self.year == other.year && (self.month < other.month || (
        self.month == other.month && self.day < other.day)))
    }

    /// Chronological `<=`.
    pub fn le(&self, other: &Date) -> (r: bool)
        ensures
            r == date_le(*self, *other),
    {
        (self.year == other.year && self.month == other.month && self.day == other.day) || self.lt(
            other,
        )
    }

    pub fn same(&self, other: &Date) -> (r: bool)
        ensures
            r == (*self == *other),
    {
        self.year == other.year && self.month == other.month && self.day == other.day
    }
}

/// Number of days in a month of a year.
pub fn month_days(year: i32, month: u32) -> (r: u32)
    requires
        1 <= month <= 12,
    ensures
        r == days_in_month(year as int, month as int),
{
    if month == 2 {
        let leap = (year % 4 == 0 && year % 100 != 0) || year % 400 == 0;
        assert(leap == is_leap(year as int)) by (nonlinear_arith)
            requires
                leap == ((year % 4 == 0 && year % 100 != 0) || year % 400 == 0),
        ;
        if leap {
            29
        } else {
            28
        }
    } else if month == 4 || month == 6 || month == 9 || month == 11 {
        30
    } else {
        31
    }
}

proof fn lemma_padded_value(n: nat, w: nat)
    ensures
        digits_value(zero_pad(dec(n), w)) == n,
        zero_pad(dec(n), w).len() >= 1,
        n < 100 && w == 2 ==> zero_pad(dec(n), w).len() == 2,
        forall|i: int| 0 <= i < zero_pad(dec(n), w).len() ==> is_digit(#[trigger] zero_pad(dec(n), w)[i]),
{
    lemma_dec_value(n);
    lemma_zero_pad(dec(n), w);
    let k: nat = if dec(n).len() >= w { 0 } else { (w - dec(n).len()) as nat };
    lemma_zeros_value(k, dec(n));
    let z = Seq::new(k, |i: int| '0');
    assert forall|i: int| 0 <= i < (z + dec(n)).len() implies is_digit(#[trigger] (z + dec(n))[i]) by {
        if i >= k {
            assert((z + dec(n))[i] == dec(n)[i - k]);
        }
    }
}

proof fn lemma_year4_injective(a: int, b: int)
    requires
        year4(a) == year4(b),
    ensures
        a == b,
{
    let (sa, va) = if 0 <= a <= 9999 {
        (0int, a)
    } else if a < 0 {
        (1int, -a)
    } else {
        (2int, a)
    };
    let (sb, vb) = if 0 <= b <= 9999 {
        (0int, b)
    } else if b < 0 {
        (1int, -b)
    } else {
        (2int, b)
    };
    lemma_padded_value(va as nat, 4);
    lemma_padded_value(vb as nat, 4);
    let pa = zero_pad(dec(va as nat), 4);
    let pb = zero_pad(dec(vb as nat), 4);
    // The first character tells the sign apart: a digit, '-' or '+'.
    assert(year4(a)[0] == if sa == 0 { pa[0] } else if sa == 1 { '-' } else { '+' });
    assert(year4(b)[0] == if sb == 0 { pb[0] } else if sb == 1 { '-' } else { '+' });
    assert(is_digit(pa[0]) && is_digit(pb[0]));
    assert(sa == sb);
    if sa == 0 {
        assert(pa == pb);
    } else {
        assert(pa =~= year4(a).drop_first());
        assert(pb =~= year4(b).drop_first());
    }
}

/// Distinct dates print differently: `%Y-%m-%d` names the date.
pub proof fn lemma_iso_date_injective(a: Date, b: Date)
    requires
        valid_date(a),
        valid_date(b),
        iso_date(a) == iso_date(b),
    ensures
        a == b,
{
    lemma_padded_value(a.month as nat, 2);
    lemma_padded_value(b.month as nat, 2);
    lemma_padded_value(a.day as nat, 2);
    lemma_padded_value(b.day as nat, 2);
    let ya = year4(a.year as int);
    let yb = year4(b.year as int);
    let ma = zero_pad(dec(a.month as nat), 2);
    let mb = zero_pad(dec(b.month as nat), 2);
    let da = zero_pad(dec(a.day as nat), 2);
    let db = zero_pad(dec(b.day as nat), 2);
    let s = iso_date(a);
    assert(s == ya + seq!['-'] + ma + seq!['-'] + da);
    assert(iso_date(b) == yb + seq!['-'] + mb + seq!['-'] + db);
    let n = s.len();
    assert(ya.len() == n - 6 && yb.len() == n - 6);
    assert(da =~= s.skip(n - 2));
    assert(db =~= s.skip(n - 2));
    assert(ma =~= s.subrange(n - 5, n - 3));
    assert(mb =~= s.subrange(n - 5, n - 3));
    assert(ya =~= s.take(n - 6));
    assert(yb =~= s.take(n - 6));
    lemma_year4_injective(a.year as int, b.year as int);
}

} // verus!
