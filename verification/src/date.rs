//! Dates of the Gregorian calendar, as days before and after 1 January 1970.

use crate::table;
use crate::text;
use crate::text::{chars_of, parse_int, push_padded};
use vstd::arithmetic::div_mod;
use vstd::prelude::*;

verus! {

/// A date of the Gregorian calendar.
#[derive(Clone, Copy, PartialEq, Eq, PartialOrd, Ord, Debug, Structural)]
pub struct Ymd {
    pub y: i64,
    pub m: i64,
    pub d: i64,
}

// ───────── the calendar ─────────

/// A leap year.
pub open spec fn is_leap(y: int) -> bool {
    y % 4 == 0 && (y % 100 != 0 || y % 400 == 0)
}

/// The number of days of a month.
pub open spec fn days_in_month(y: int, m: int) -> int {
    if m == 2 {
        if is_leap(y) {
            29
        } else {
            28
        }
    } else if m == 4 || m == 6 || m == 9 || m == 11 {
        30
    } else {
        31
    }
}

/// The days from 1 March of year 0 to 1 March of year `y`.
pub open spec fn days_before_year(y: int) -> int {
    365 * y + y / 4 - y / 100 + y / 400
}

/// The days from 1 March to the first of the month that comes `k` months later.
pub open spec fn days_before_month(k: int) -> int {
    if 153 * k + 2 >= 0 {
        (153 * k + 2) / 5
    } else {
        -(-(153 * k + 2) / 5)
    }
}

impl Ymd {
    /// A day that the calendar has.
    pub open spec fn is_valid(self) -> bool {
        1 <= self.m <= 12 && 1 <= self.d <= days_in_month(self.y as int, self.m as int)
    }

    /// The year that began on the 1 March before the date.
    pub open spec fn march_year(self) -> int {
        if self.m <= 2 {
            self.y - 1
        } else {
            self.y as int
        }
    }

    /// The months since the 1 March before the date.
    pub open spec fn march_month(self) -> int {
        if self.m <= 2 {
            self.m + 9
        } else {
            self.m - 3
        }
    }

    /// The days from 1 January 1970 to the date; negative before it. A day past the end
    /// of its month counts on into the next.
    pub open spec fn day_number(self) -> int {
        days_before_year(self.march_year()) + days_before_month(self.march_month()) + self.d - 1
            - 719_468
    }

    /// `self` comes before `other` in the calendar.
    pub open spec fn is_before(self, other: Ymd) -> bool {
        ||| self.y < other.y
        ||| self.y == other.y && self.m < other.m
        ||| self.y == other.y && self.m == other.m && self.d < other.d
    }
}

/// The date that is `z` days after 1 January 1970.
pub open spec fn civil(z: int) -> Ymd {
    choose|r: Ymd| r.is_valid() && r.day_number() == z
}

// ───────── what holds of the calendar ─────────

proof fn lemma_years_grow(a: int, b: int)
    requires
        a <= b,
    ensures
        days_before_year(a) + 365 * (b - a) - (b - a) / 100 - 1 <= days_before_year(b),
        a < b ==> days_before_year(a + 1) <= days_before_year(b),
{
}

proof fn lemma_year_length(y: int)
    ensures
        days_before_year(y + 1) - days_before_year(y) == (if is_leap(y + 1) {
            366int
        } else {
            365int
        }),
{
}

/// A valid date lies in its year that begins in March.
proof fn lemma_within_year(a: Ymd)
    requires
        a.is_valid(),
    ensures
        0 <= days_before_month(a.march_month()) + a.d - 1,
        days_before_month(a.march_month()) + a.d - 1 < days_before_year(a.march_year() + 1)
            - days_before_year(a.march_year()),
{
    lemma_year_length(a.march_year());
}

/// A later date has a greater day number.
pub proof fn law_day_number_ordered(a: Ymd, b: Ymd)
    requires
        a.is_valid(),
        b.is_valid(),
        a.is_before(b),
    ensures
        a.day_number() < b.day_number(),
{
    lemma_within_year(a);
    lemma_within_year(b);
    if a.march_year() < b.march_year() {
        lemma_years_grow(a.march_year(), b.march_year());
    }
}

/// Two valid dates with one day number are one date.
pub proof fn law_day_number_unique(a: Ymd, b: Ymd)
    requires
        a.is_valid(),
        b.is_valid(),
        a.day_number() == b.day_number(),
    ensures
        a == b,
{
    if a.is_before(b) {
        law_day_number_ordered(a, b);
    } else if b.is_before(a) {
        law_day_number_ordered(b, a);
    }
}

/// A valid date is the date of its day number.
pub proof fn law_civil_undoes_day_number(a: Ymd)
    requires
        a.is_valid(),
    ensures
        civil(a.day_number()) == a,
{
    let r = civil(a.day_number());
    assert(a.is_valid() && a.day_number() == a.day_number());
    law_day_number_unique(a, r);
}

/// A month's first day comes as many days after the first of the month before as that
/// month has.
pub proof fn law_months_follow(y: i64, m: i64)
    requires
        1 <= m <= 12,
        y < i64::MAX,
    ensures
        ({
            let first = Ymd { y, m, d: 1 };
            let next = if m == 12 {
                Ymd { y: (y + 1) as i64, m: 1, d: 1 }
            } else {
                Ymd { y, m: (m + 1) as i64, d: 1 }
            };
            next.day_number() == first.day_number() + days_in_month(y as int, m as int)
        }),
{
    lemma_year_length(y - 1);
}

proof fn lemma_era(doe: int, yoe: int)
    requires
        0 <= doe <= 146_096,
        yoe == (doe - doe / 1460 + doe / 36_524 - doe / 146_096) / 365,
    ensures
        0 <= yoe <= 399,
        0 <= doe - (365 * yoe + yoe / 4 - yoe / 100) <= 365,
        doe - (365 * yoe + yoe / 4 - yoe / 100) == 365 ==> is_leap(yoe + 1),
{
}

proof fn lemma_month(doy: int, mp: int, d: int)
    requires
        0 <= doy <= 365,
        mp == (5 * doy + 2) / 153,
        d == doy - (153 * mp + 2) / 5 + 1,
    ensures
        0 <= mp <= 11,
        1 <= d <= 31,
        mp == 1 || mp == 3 || mp == 6 || mp == 8 ==> d <= 30,
        mp == 11 ==> d <= 29,
        mp == 11 && d == 29 ==> doy == 365,
{
}

proof fn lemma_leap_within_era(era: int, yoe: int)
    ensures
        is_leap(yoe + 1) == is_leap(yoe + era * 400 + 1),
{
    let y = yoe + 1;
    div_mod::lemma_fundamental_div_mod_converse(y + era * 400, 4, y / 4 + era * 100, y % 4);
    div_mod::lemma_fundamental_div_mod_converse(y + era * 400, 100, y / 100 + era * 4, y % 100);
    div_mod::lemma_fundamental_div_mod_converse(y + era * 400, 400, y / 400 + era, y % 400);
}

proof fn lemma_days_within_era(era: int, yoe: int)
    requires
        0 <= yoe <= 399,
    ensures
        days_before_year(yoe + era * 400) == era * 146_097 + 365 * yoe + yoe / 4 - yoe / 100,
{
    let y = yoe + era * 400;
    div_mod::lemma_fundamental_div_mod_converse(y, 4, yoe / 4 + era * 100, yoe % 4);
    div_mod::lemma_fundamental_div_mod_converse(y, 100, yoe / 100 + era * 4, yoe % 100);
    div_mod::lemma_fundamental_div_mod_converse(y, 400, era, yoe);
}

/// Every day number is that of a valid date.
pub proof fn law_civil_has_day_number(z: i64)
    ensures
        civil(z as int).is_valid(),
        civil(z as int).day_number() == z,
{
    let z0 = z + 719_468;
    let era = z0 / 146_097;
    let doe = z0 - era * 146_097;
    let yoe = (doe - doe / 1460 + doe / 36_524 - doe / 146_096) / 365;
    lemma_era(doe, yoe);
    let year = yoe + era * 400;
    let doy = doe - (365 * yoe + yoe / 4 - yoe / 100);
    let mp = (5 * doy + 2) / 153;
    let d = doy - (153 * mp + 2) / 5 + 1;
    lemma_month(doy, mp, d);
    lemma_leap_within_era(era, yoe);
    lemma_days_within_era(era, yoe);
    let r = if mp < 10 {
        Ymd { y: year as i64, m: (mp + 3) as i64, d: d as i64 }
    } else {
        Ymd { y: (year + 1) as i64, m: (mp - 9) as i64, d: d as i64 }
    };
    assert(r.march_year() == year);
    assert(r.march_month() == mp);
    assert(r.is_valid() && r.day_number() == z);
}

/// The days of a month follow each other, and 1 January 1970 is the day from which is counted.
pub proof fn law_days_follow(a: Ymd)
    ensures
        a.day_number() == (Ymd { y: a.y, m: a.m, d: 1 }).day_number() + a.d - 1,
        (Ymd { y: 1970, m: 1, d: 1 }).day_number() == 0,
{
}

/// A year has 366 days where 4 divides it, but not 100, or 400 does, and 365 otherwise; 29 of
/// them in February then, and 28 otherwise.
pub proof fn law_leap_years(y: i64)
    requires
        y < i64::MAX,
    ensures
        ({
            let long = y as int % 400 == 0 || y as int % 4 == 0 && y as int % 100 != 0;
            let first = Ymd { y, m: 1, d: 1 };
            let next = Ymd { y: (y + 1) as i64, m: 1, d: 1 };
            &&& next.day_number() - first.day_number() == if long {
                366
            } else {
                365int
            }
            &&& (Ymd { y, m: 2, d: 29 }).is_valid() <==> long
            &&& (Ymd { y, m: 2, d: 28 }).is_valid()
            &&& !(Ymd { y, m: 2, d: 30 }).is_valid()
        }),
{
    lemma_year_length(y - 1);
}

// ───────── as text ─────────

/// `-` or `/`, between the parts of a date.
pub open spec fn is_separator(c: char) -> bool {
    c == '-' || c == '/'
}

/// A date as `YYYY-MM-DD`.
pub open spec fn date_text(a: Ymd) -> Seq<char> {
    text::padded_text(a.y as int, 4) + seq!['-'] + text::padded_text(a.m as int, 2) + seq!['-']
        + text::padded_text(
        a.d as int,
        2,
    )
}

/// The date that a text of the form `YYYY-MM-DD` or `YYYY/MM/DD` begins with. Each part is read
/// as a number, so that a sign may stand in place of its first digit, as in `2026-+7-+8`.
pub open spec fn date_value(s: Seq<char>) -> Option<Ymd> {
    if s.len() >= 10 && is_separator(s[4]) && is_separator(s[7]) {
        match (
            text::int_value(s.subrange(0, 4)),
            text::int_value(s.subrange(5, 7)),
            text::int_value(s.subrange(8, 10)),
        ) {
            (Some(y), Some(m), Some(d)) => if 1 <= m <= 12 && 1 <= d <= 31 {
                Some(Ymd { y, m, d })
            } else {
                None
            },
            _ => None,
        }
    } else {
        None
    }
}

/// A text begins with a date where four characters, two and two are numbers, with `-` or `/`
/// after the first and after the second, the month one of twelve and the day at most the 31st.
pub proof fn law_date_form(s: Seq<char>, a: Ymd)
    ensures
        date_value(s) == Some(a) <==> {
            &&& s.len() >= 10
            &&& s[4] == '-' || s[4] == '/'
            &&& s[7] == '-' || s[7] == '/'
            &&& text::int_value(s.subrange(0, 4)) == Some(a.y)
            &&& text::int_value(s.subrange(5, 7)) == Some(a.m)
            &&& text::int_value(s.subrange(8, 10)) == Some(a.d)
            &&& 1 <= a.m <= 12
            &&& 1 <= a.d <= 31
        },
{
}

/// Whichever of the two marks stands between the parts of a date, and whatever follows it, it is
/// the same date.
pub proof fn law_marks_alike(s: Seq<char>, rest: Seq<char>)
    requires
        s.len() == 10,
        s[4] == '-',
        s[7] == '-',
    ensures
        date_value(s.update(4, '/').update(7, '/') + rest) == date_value(s),
        date_value(s + rest) == date_value(s),
{
    let u = s.update(4, '/').update(7, '/') + rest;
    assert(u.subrange(0, 4) =~= s.subrange(0, 4));
    assert(u.subrange(5, 7) =~= s.subrange(5, 7));
    assert(u.subrange(8, 10) =~= s.subrange(8, 10));
    let v = s + rest;
    assert(v.subrange(0, 4) =~= s.subrange(0, 4));
    assert(v.subrange(5, 7) =~= s.subrange(5, 7));
    assert(v.subrange(8, 10) =~= s.subrange(8, 10));
}

/// A date of a year of four digits is written as `YYYY-MM-DD`: four digits, two and two that
/// stand for its parts, with `-` between them.
pub proof fn law_date_written(a: Ymd)
    requires
        0 <= a.y <= 9_999,
        1 <= a.m <= 12,
        1 <= a.d <= 31,
    ensures
        ({
            let s = date_text(a);
            &&& s.len() == 10
            &&& s[4] == '-'
            &&& s[7] == '-'
            &&& text::all_digits(s.subrange(0, 4))
            &&& text::all_digits(s.subrange(5, 7))
            &&& text::all_digits(s.subrange(8, 10))
            &&& text::nat_value(s.subrange(0, 4)) == a.y
            &&& text::nat_value(s.subrange(5, 7)) == a.m
            &&& text::nat_value(s.subrange(8, 10)) == a.d
        }),
{
    let s = date_text(a);
    let parts = (
        text::padded_text(a.y as int, 4),
        text::padded_text(a.m as int, 2),
        text::padded_text(a.d as int, 2),
    );
    lemma_padded(a.y as int, 4);
    lemma_padded(a.m as int, 2);
    lemma_padded(a.d as int, 2);
    text::lemma_nat_text(a.y as nat, 4 - text::nat_text(a.y as nat).len());
    text::lemma_nat_text(a.m as nat, 2 - text::nat_text(a.m as nat).len());
    text::lemma_nat_text(a.d as nat, 2 - text::nat_text(a.d as nat).len());
    assert(s.subrange(0, 4) =~= parts.0);
    assert(s.subrange(5, 7) =~= parts.1);
    assert(s.subrange(8, 10) =~= parts.2);
}

proof fn lemma_padded(n: int, width: int)
    requires
        width == 4 && -1_000 < n < 10_000 || width == 2 && 0 <= n < 100,
    ensures
        text::padded_text(n, width).len() == width,
        text::int_value(text::padded_text(n, width)) == Some(n as i64),
{
    reveal_with_fuel(text::nat_text, 5);
    let size = if n < 0 {
        (-n) as nat
    } else {
        n as nat
    };
    let t = text::nat_text(size);
    let k = if n < 0 {
        width - 1 - t.len()
    } else {
        width - t.len()
    };
    text::lemma_nat_text(size, k);
    let body = text::zeros(k) + t;
    if n < 0 {
        assert(text::padded_text(n, width) =~= seq!['-'] + body);
        assert((seq!['-'] + body).drop_first() =~= body);
    } else {
        assert(text::padded_text(n, width) =~= body);
        assert(text::is_digit(body[0]));
    }
}

/// What a date is written as is read as that date, whatever follows it. (A year outside
/// these takes more than four characters.)
pub proof fn law_date_text_read_back(a: Ymd, rest: Seq<char>)
    requires
        -999 <= a.y <= 9_999,
        1 <= a.m <= 12,
        1 <= a.d <= 31,
    ensures
        date_text(a).len() == 10,
        date_value(date_text(a) + rest) == Some(a),
{
    lemma_padded(a.y as int, 4);
    lemma_padded(a.m as int, 2);
    lemma_padded(a.d as int, 2);
    let s = date_text(a) + rest;
    assert(s.subrange(0, 4) =~= text::padded_text(a.y as int, 4));
    assert(s.subrange(5, 7) =~= text::padded_text(a.m as int, 2));
    assert(s.subrange(8, 10) =~= text::padded_text(a.d as int, 2));
}

/// A number below 100 in two characters.
proof fn lemma_two_digits(n: int)
    requires
        0 <= n < 100,
    ensures
        text::padded_text(n, 2) == seq![
            text::digit_char((n / 10) as nat),
            text::digit_char((n % 10) as nat),
        ],
{
    reveal_with_fuel(text::nat_text, 3);
    let t = text::nat_text(n as nat);
    assert(text::padded_text(n, 2) =~= text::zeros(2 - t.len()) + t);
    assert(text::padded_text(n, 2) =~= seq![
        text::digit_char((n / 10) as nat),
        text::digit_char((n % 10) as nat),
    ]);
}

/// A number below 10000 in four characters.
proof fn lemma_four_digits(n: int)
    requires
        0 <= n < 10_000,
    ensures
        text::padded_text(n, 4) == seq![
            text::digit_char((n / 1000) as nat),
            text::digit_char((n / 100 % 10) as nat),
            text::digit_char((n / 10 % 10) as nat),
            text::digit_char((n % 10) as nat),
        ],
{
    reveal_with_fuel(text::nat_text, 5);
    let t = text::nat_text(n as nat);
    assert(text::padded_text(n, 4) =~= text::zeros(4 - t.len()) + t);
    assert(text::padded_text(n, 4) =~= seq![
        text::digit_char((n / 1000) as nat),
        text::digit_char((n / 100 % 10) as nat),
        text::digit_char((n / 10 % 10) as nat),
        text::digit_char((n % 10) as nat),
    ]);
}

/// Where two different numbers in two characters part.
proof fn lemma_two_part(a: int, b: int) -> (k: int)
    requires
        0 <= a < b < 100,
    ensures
        0 <= k < 2,
        table::parts_before(text::padded_text(a, 2), text::padded_text(b, 2), k),
        text::padded_text(a, 2)[k] < text::padded_text(b, 2)[k],
{
    lemma_two_digits(a);
    lemma_two_digits(b);
    if a / 10 < b / 10 {
        0
    } else {
        1
    }
}

/// A number below 10000 by its digits.
proof fn lemma_by_digits(n: int)
    requires
        0 <= n < 10_000,
    ensures
        0 <= n / 1000 <= 9,
        n / 100 == 10 * (n / 1000) + n / 100 % 10,
        n / 10 == 10 * (n / 100) + n / 10 % 10,
        n == 10 * (n / 10) + n % 10,
{
}

proof fn lemma_digit_order(a: int, b: int)
    requires
        0 <= a < b <= 9,
    ensures
        text::digit_char(a as nat) < text::digit_char(b as nat),
{
}

/// Where two different numbers in four characters part.
proof fn lemma_four_part(a: int, b: int) -> (k: int)
    requires
        0 <= a < b < 10_000,
    ensures
        0 <= k < 4,
        table::parts_before(text::padded_text(a, 4), text::padded_text(b, 4), k),
        text::padded_text(a, 4)[k] < text::padded_text(b, 4)[k],
{
    lemma_four_digits(a);
    lemma_four_digits(b);
    lemma_by_digits(a);
    lemma_by_digits(b);
    if a / 1000 < b / 1000 {
        lemma_digit_order(a / 1000, b / 1000);
        0
    } else if a / 100 < b / 100 {
        lemma_digit_order(a / 100 % 10, b / 100 % 10);
        1
    } else if a / 10 < b / 10 {
        lemma_digit_order(a / 10 % 10, b / 10 % 10);
        2
    } else {
        lemma_digit_order(a % 10, b % 10);
        3
    }
}

proof fn lemma_text_before(a: Ymd, b: Ymd)
    requires
        0 <= a.y <= 9_999 && 1 <= a.m <= 12 && 1 <= a.d <= 31,
        0 <= b.y <= 9_999 && 1 <= b.m <= 12 && 1 <= b.d <= 31,
        a.is_before(b),
    ensures
        table::text_before(date_text(a), date_text(b)),
{
    let s = date_text(a);
    let t = date_text(b);
    lemma_padded(a.y as int, 4);
    lemma_padded(b.y as int, 4);
    lemma_padded(a.m as int, 2);
    lemma_padded(b.m as int, 2);
    lemma_padded(a.d as int, 2);
    lemma_padded(b.d as int, 2);
    if a.y < b.y {
        let k = lemma_four_part(a.y as int, b.y as int);
        assert(table::parts_before(s, t, k));
    } else if a.m < b.m {
        let k = lemma_two_part(a.m as int, b.m as int);
        assert(table::parts_before(s, t, 5 + k));
    } else {
        let k = lemma_two_part(a.d as int, b.d as int);
        assert(table::parts_before(s, t, 8 + k));
    }
}

/// The order of dates is the order of their texts, where years have four digits: what is kept by
/// date in the order of texts is in the order of time.
pub proof fn law_dates_in_text_order(a: Ymd, b: Ymd)
    requires
        0 <= a.y <= 9_999 && 1 <= a.m <= 12 && 1 <= a.d <= 31,
        0 <= b.y <= 9_999 && 1 <= b.m <= 12 && 1 <= b.d <= 31,
    ensures
        table::text_before(date_text(a), date_text(b)) <==> a.is_before(b),
{
    if a.is_before(b) {
        lemma_text_before(a, b);
    } else if b.is_before(a) {
        lemma_text_before(b, a);
        if table::text_before(date_text(a), date_text(b)) {
            table::law_text_order_transitive(date_text(a), date_text(b), date_text(a));
            table::law_text_order_irreflexive(date_text(a));
        }
    } else {
        assert(a == b);
        table::law_text_order_irreflexive(date_text(a));
    }
}

// ───────── dates ─────────

impl Ymd {
    /// The date as `YYYY-MM-DD`.
    pub fn to_string(self) -> (r: String)
        ensures
            r@ == date_text(self),
    {
        let mut r: String = String::new();
        push_padded(&mut r, self.y, 4);
        r.push('-');
        push_padded(&mut r, self.m, 2);
        r.push('-');
        push_padded(&mut r, self.d, 2);
        assert(r@ =~= date_text(self));
        r
    }

    /// The date that is `z` days after 1 January 1970.
    pub fn from_days(z: i64) -> (r: Ymd)
        ensures
            r.is_valid(),
            r.day_number() == z,
            r == civil(z as int),
    {
        let z0: i128 = z as i128 + 719_468;
        let era: i128 = (if z0 >= 0 {
            z0
        } else {
            z0 - 146_096
        }) / 146_097;
        let doe: i128 = z0 - era * 146_097;
        let yoe: i128 = (doe - doe / 1460 + doe / 36_524 - doe / 146_096) / 365;
        proof {
            lemma_era(doe as int, yoe as int);
        }
        let year: i128 = yoe + era * 400;
        let doy: i128 = doe - (365 * yoe + yoe / 4 - yoe / 100);
        let mp: i128 = (5 * doy + 2) / 153;
        let d: i128 = doy - (153 * mp + 2) / 5 + 1;
        let m: i128 = if mp < 10 {
            mp + 3
        } else {
            mp - 9
        };
        let y: i128 = if m <= 2 {
            year + 1
        } else {
            year
        };
        let r: Ymd = Ymd { y: y as i64, m: m as i64, d: d as i64 };
        proof {
            lemma_month(doy as int, mp as int, d as int);
            lemma_leap_within_era(era as int, yoe as int);
            lemma_days_within_era(era as int, yoe as int);
        }
        assert(r.march_year() == year);
        assert(r.march_month() == mp);
        proof {
            law_civil_undoes_day_number(r);
        }
        r
    }

    /// The days from 1 January 1970 to the date, however many they are.
    pub fn count_days(self) -> (r: i128)
        ensures
            r == self.day_number(),
    {
        let y: i128 = if self.m <= 2 {
            self.y as i128 - 1
        } else {
            self.y as i128
        };
        let era: i128 = (if y >= 0 {
            y
        } else {
            y - 399
        }) / 400;
        let yoe: i128 = y - era * 400;
        proof {
            lemma_days_within_era(era as int, yoe as int);
        }
        let mp: i128 = if self.m > 2 {
            self.m as i128 - 3
        } else {
            self.m as i128 + 9
        };
        let doy: i128 = (153 * mp + 2) / 5 + self.d as i128 - 1;
        let doe: i128 = yoe * 365 + yoe / 4 - yoe / 100 + doy;
        era * 146_097 + doe - 719_468
    }

    /// The days from 1 January 1970 to the date.
    pub fn to_days(self) -> (r: i64)
        requires
            i64::MIN <= self.day_number() <= i64::MAX,
        ensures
            r == self.day_number(),
    {
        self.count_days() as i64
    }

    /// The date `n` days earlier.
    pub fn minus_days(self, n: i64) -> (r: Ymd)
        requires
            i64::MIN <= self.day_number() <= i64::MAX,
            i64::MIN <= self.day_number() - n <= i64::MAX,
        ensures
            r.is_valid(),
            r.day_number() == self.day_number() - n,
            r == civil(self.day_number() - n),
    {
        Ymd::from_days(self.to_days() - n)
    }

    /// The Unix time of the date's midnight, in seconds.
    pub fn midnight_unix(self) -> (r: i64)
        requires
            i64::MIN <= self.day_number() * 86_400 <= i64::MAX,
        ensures
            r == self.day_number() * 86_400,
    {
        self.to_days() * 86_400
    }

    /// The Unix time of the date's last second.
    pub fn end_unix(self) -> (r: i64)
        requires
            i64::MIN <= self.day_number() * 86_400,
            self.day_number() * 86_400 + 86_399 <= i64::MAX,
        ensures
            r == self.day_number() * 86_400 + 86_399,
    {
        self.midnight_unix() + 86_399
    }

    /// Reads `YYYY-MM-DD` or `YYYY/MM/DD`, where a sign may stand in place of the first digit of
    /// a part; what follows, such as a time, is left aside.
    pub fn parse(s: &str) -> (r: Option<Ymd>)
        ensures
            r == date_value(s@),
    {
        let b: Vec<char> = chars_of(s);
        assert(b@.skip(0) =~= s@);
        date_at(&b, 0)
    }
}

/// Reads the date at position `i`.
pub fn date_at(b: &Vec<char>, i: usize) -> (r: Option<Ymd>)
    requires
        i <= b@.len(),
    ensures
        r == date_value(b@.skip(i as int)),
{
    let ghost s = b@.skip(i as int);
    if b.len() - i < 10 {
        return None;
    }
    let sep1: char = b[i + 4];
    let sep2: char = b[i + 7];
    if !(sep1 == '-' || sep1 == '/') || !(sep2 == '-' || sep2 == '/') {
        return None;
    }
    assert(s.subrange(0, 4) =~= b@.subrange(i as int, i + 4));
    assert(s.subrange(5, 7) =~= b@.subrange(i + 5, i + 7));
    assert(s.subrange(8, 10) =~= b@.subrange(i + 8, i + 10));
    match (parse_int(b, i, i + 4), parse_int(b, i + 5, i + 7), parse_int(b, i + 8, i + 10)) {
        (Some(y), Some(m), Some(d)) => {
            if 1 <= m && m <= 12 && 1 <= d && d <= 31 {
                Some(Ymd { y, m, d })
            } else {
                None
            }
        },
        _ => None,
    }
}

/// The date of a Unix time in seconds, in UTC.
pub fn ymd_from_unix(secs: i64) -> (r: Ymd)
    ensures
        r.is_valid(),
        r.day_number() * 86_400 <= secs < (r.day_number() + 1) * 86_400,
        r == civil(secs as int / 86_400),
{
    let days: i64 = if secs >= 0 {
        secs / 86_400
    } else {
        -((-(secs as i128) + 86_399) / 86_400) as i64
    };
    Ymd::from_days(days)
}

}
