//! Moving the range of dates that a captured request asks for.

use crate::date;
use crate::date::{date_at, Ymd};
use crate::text;
use crate::text::{chars_of, digit, int_string, parse_int, push_range};
use vstd::prelude::*;

verus! {

// ───────── where dates stand ─────────

/// A digit stands at `i`.
pub open spec fn digit_at(t: Seq<char>, i: int) -> bool {
    0 <= i < t.len() && text::is_digit(t[i])
}

/// A date of the form `YYYY-MM-DD` or `YYYY/MM/DD` stands at `i`, with no digit before it
/// nor behind it. The year has four digits; in the month and in the day a sign may stand in
/// place of the first digit, as in `2026-+7-+8`.
pub open spec fn iso_at(t: Seq<char>, i: int) -> bool {
    &&& 0 <= i
    &&& i + 10 <= t.len()
    &&& !digit_at(t, i - 1)
    &&& digit_at(t, i)
    &&& digit_at(t, i + 1)
    &&& digit_at(t, i + 2)
    &&& digit_at(t, i + 3)
    &&& date::date_value(t.skip(i)) is Some
    &&& !digit_at(t, i + 10)
}

/// A Unix time of `width` digits stands at `i`: it begins with 1, and there is no digit
/// before it nor behind it.
pub open spec fn epoch_at(t: Seq<char>, width: int, i: int) -> bool {
    &&& 0 <= i
    &&& 0 < width
    &&& i + width <= t.len()
    &&& !digit_at(t, i - 1)
    &&& text::all_digits(t.subrange(i, i + width))
    &&& !digit_at(t, i + width)
    &&& t[i] == '1'
    &&& text::int_value(t.subrange(i, i + width)) is Some
}

/// The positions below `n` at which dates stand, from left to right.
pub open spec fn iso_starts(t: Seq<char>, n: int) -> Seq<int>
    decreases n,
{
    if n <= 0 {
        Seq::empty()
    } else if iso_at(t, n - 1) {
        iso_starts(t, n - 1).push(n - 1)
    } else {
        iso_starts(t, n - 1)
    }
}

/// The positions below `n` at which Unix times stand, from left to right.
pub open spec fn epoch_starts(t: Seq<char>, width: int, n: int) -> Seq<int>
    decreases n,
{
    if n <= 0 {
        Seq::empty()
    } else if epoch_at(t, width, n - 1) {
        epoch_starts(t, width, n - 1).push(n - 1)
    } else {
        epoch_starts(t, width, n - 1)
    }
}

// ───────── what stands for them ─────────

/// The least of some numbers.
pub open spec fn lowest(vals: Seq<int>) -> int
    decreases vals.len(),
{
    if vals.len() <= 1 {
        vals[0]
    } else if lowest(vals.drop_last()) <= vals.last() {
        lowest(vals.drop_last())
    } else {
        vals.last()
    }
}

/// The greatest of some numbers.
pub open spec fn highest(vals: Seq<int>) -> int
    decreases vals.len(),
{
    if vals.len() <= 1 {
        vals[0]
    } else if highest(vals.drop_last()) >= vals.last() {
        highest(vals.drop_last())
    } else {
        vals.last()
    }
}

/// A value goes to the end of the new range: it lies nearer to the greatest than to the
/// least, or there is one value only.
pub open spec fn goes_to_end(vals: Seq<int>, v: int) -> bool {
    lowest(vals) == highest(vals) || 2 * v > lowest(vals) + highest(vals)
}

/// What is put in place of each value.
pub open spec fn fills(vals: Seq<int>, first: Seq<char>, last: Seq<char>) -> Seq<Seq<char>> {
    vals.map_values(
        |v: int|
            if goes_to_end(vals, v) {
                last
            } else {
                first
            },
    )
}

/// Where the first `k` spans end.
pub open spec fn cut(starts: Seq<int>, width: int, k: int) -> int {
    if k <= 0 {
        0
    } else {
        starts[k - 1] + width
    }
}

/// The text up to the end of the first `k` spans, with these filled anew.
pub open spec fn filled(
    t: Seq<char>,
    starts: Seq<int>,
    width: int,
    with: Seq<Seq<char>>,
    k: int,
) -> Seq<char>
    decreases k,
{
    if k <= 0 {
        Seq::empty()
    } else {
        filled(t, starts, width, with, k - 1) + t.subrange(
            cut(starts, width, k - 1),
            starts[k - 1],
        ) + with[k - 1]
    }
}

/// The text with its spans filled anew.
pub open spec fn spliced(t: Seq<char>, starts: Seq<int>, width: int, with: Seq<Seq<char>>) -> Seq<
    char,
> {
    filled(t, starts, width, with, starts.len() as int) + t.subrange(
        cut(starts, width, starts.len() as int),
        t.len() as int,
    )
}

/// The spans lie in the text one behind the other.
pub open spec fn in_line(t: Seq<char>, starts: Seq<int>, width: int) -> bool {
    &&& 0 <= width
    &&& forall|k: int|
        0 <= k < starts.len() ==> cut(starts, width, k) <= #[trigger] starts[k] && starts[k] + width
            <= t.len()
}

/// The day numbers of the dates in a text.
pub open spec fn iso_days(t: Seq<char>) -> Seq<int> {
    iso_starts(t, t.len() as int).map_values(
        |i: int| date::date_value(t.skip(i))->Some_0.day_number(),
    )
}

/// The Unix times in a text.
pub open spec fn epoch_times(t: Seq<char>, width: int) -> Seq<int> {
    epoch_starts(t, width, t.len() as int).map_values(
        |i: int| text::int_value(t.subrange(i, i + width))->Some_0 as int,
    )
}

/// A text with its dates moved into the range from `start` to `end`.
pub open spec fn iso_moved(t: Seq<char>, start: Ymd, end: Ymd) -> Seq<char> {
    spliced(
        t,
        iso_starts(t, t.len() as int),
        10,
        fills(iso_days(t), date::date_text(start), date::date_text(end)),
    )
}

/// A text with its Unix times of `width` digits moved into the range from `first` to `last`.
pub open spec fn epoch_moved(t: Seq<char>, width: int, first: int, last: int) -> Seq<char> {
    spliced(
        t,
        epoch_starts(t, width, t.len() as int),
        width,
        fills(epoch_times(t, width), text::int_text(first), text::int_text(last)),
    )
}

/// A text with all its dates moved into the range from `start` to `end`: dates as such,
/// Unix times in milliseconds, and Unix times in seconds. A Unix time ends the range with
/// the midnight after it, for the platform answers whole days only.
pub open spec fn dates_moved(t: Seq<char>, start: Ymd, end: Ymd) -> Seq<char> {
    let first = start.day_number() * 86_400;
    let last = (end.day_number() + 1) * 86_400;
    epoch_moved(
        epoch_moved(iso_moved(t, start, end), 13, first * 1000, last * 1000),
        10,
        first,
        last,
    )
}

// ───────── spans do not meet ─────────

/// Two dates in a text do not overlap.
pub proof fn law_dates_apart(t: Seq<char>, i: int, j: int)
    requires
        iso_at(t, i),
        iso_at(t, j),
        i < j,
    ensures
        i + 10 <= j,
{
    let s = t.skip(i);
    assert(date::is_separator(s[4]) && date::is_separator(s[7]));
    assert(!digit_at(t, i + 4));
    assert(!digit_at(t, i + 7));
    assert(!digit_at(t, i + 10));
}

/// Two Unix times in a text do not overlap.
pub proof fn law_times_apart(t: Seq<char>, width: int, i: int, j: int)
    requires
        epoch_at(t, width, i),
        epoch_at(t, width, j),
        i < j,
    ensures
        i + width <= j,
{
    if j < i + width {
        assert(t.subrange(i, i + width)[j - 1 - i] == t[j - 1]);
    }
}

pub proof fn lemma_iso_starts(t: Seq<char>, n: int)
    requires
        n <= t.len(),
    ensures
        forall|k: int|
            0 <= k < iso_starts(t, n).len() ==> 0 <= #[trigger] iso_starts(t, n)[k] < n && iso_at(
                t,
                iso_starts(t, n)[k],
            ),
        in_line(t, iso_starts(t, n), 10),
    decreases n,
{
    if n > 0 {
        lemma_iso_starts(t, n - 1);
        let before = iso_starts(t, n - 1);
        if iso_at(t, n - 1) && before.len() > 0 {
            law_dates_apart(t, before.last(), n - 1);
        }
    }
}

pub proof fn lemma_epoch_starts(t: Seq<char>, width: int, n: int)
    requires
        0 < width,
        n <= t.len(),
    ensures
        forall|k: int|
            0 <= k < epoch_starts(t, width, n).len()
                ==> 0 <= #[trigger] epoch_starts(t, width, n)[k]
                < n && epoch_at(t, width, epoch_starts(t, width, n)[k]),
        in_line(t, epoch_starts(t, width, n), width),
    decreases n,
{
    if n > 0 {
        lemma_epoch_starts(t, width, n - 1);
        let before = epoch_starts(t, width, n - 1);
        if epoch_at(t, width, n - 1) && before.len() > 0 {
            law_times_apart(t, width, before.last(), n - 1);
        }
    }
}

proof fn lemma_no_epochs(t: Seq<char>, width: int, a: int, b: int)
    requires
        0 <= a <= b,
        forall|i: int| a <= i < b ==> !epoch_at(t, width, i),
    ensures
        epoch_starts(t, width, b) == epoch_starts(t, width, a),
    decreases b - a,
{
    if a < b {
        lemma_no_epochs(t, width, a, b - 1);
    }
}

proof fn lemma_four_digits(s: Seq<char>)
    requires
        s.len() == 4,
        text::all_digits(s),
        text::int_value(s) is Some,
    ensures
        0 <= text::int_value(s)->Some_0 <= 9_999,
{
    reveal_with_fuel(text::nat_value, 5);
    assert(text::is_digit(s[0]));
}

/// A date in a text has a year of four digits.
proof fn lemma_year(t: Seq<char>, i: int)
    requires
        iso_at(t, i),
    ensures
        0 <= date::date_value(t.skip(i))->Some_0.y <= 9_999,
{
    let s = t.skip(i);
    let y = s.subrange(0, 4);
    assert(y[0] == t[i] && y[1] == t[i + 1] && y[2] == t[i + 2] && y[3] == t[i + 3]);
    lemma_four_digits(y);
}

// ───────── finding ─────────

/// The starts of spans.
pub open spec fn starts_of<V>(spans: Seq<(usize, usize, V)>) -> Seq<int> {
    spans.map_values(|s: (usize, usize, V)| s.0 as int)
}

fn has_digit(t: &Vec<char>, i: usize) -> (r: bool)
    ensures
        r == digit_at(t@, i as int),
{
    i < t.len() && digit(t[i])
}

/// The dates in a text: where each begins and ends, and which it is.
fn find_iso(t: &Vec<char>) -> (r: Vec<(usize, usize, Ymd)>)
    ensures
        starts_of(r@) == iso_starts(t@, t@.len() as int),
        forall|k: int|
            0 <= k < r@.len() ==> (#[trigger] r@[k]).1 == r@[k].0 + 10 && date::date_value(
                t@.skip(r@[k].0 as int),
            ) == Some(r@[k].2),
{
    let mut r: Vec<(usize, usize, Ymd)> = Vec::new();
    let mut i: usize = 0;
    assert(starts_of(r@) =~= iso_starts(t@, 0));
    while i < t.len()
        invariant
            i <= t@.len(),
            starts_of(r@) == iso_starts(t@, i as int),
            forall|k: int|
                0 <= k < r@.len() ==> (#[trigger] r@[k]).1 == r@[k].0 + 10 && date::date_value(
                    t@.skip(r@[k].0 as int),
                ) == Some(r@[k].2),
        decreases t@.len() - i,
    {
        if t.len() - i >= 10 && (i == 0 || !digit(t[i - 1])) && digit(t[i]) && digit(t[i + 1])
            && digit(t[i + 2]) && digit(t[i + 3]) && !has_digit(t, i + 10) {
            if let Some(y) = date_at(t, i) {
                let ghost was = r@;
                r.push((i, i + 10, y));
                assert(starts_of(r@) =~= starts_of(was).push(i as int));
            }
        }
        i = i + 1;
    }
    r
}

/// The Unix times of `width` digits in a text: where each begins and ends, and which it is.
fn find_epoch(t: &Vec<char>, width: usize) -> (r: Vec<(usize, usize, i64)>)
    requires
        0 < width,
    ensures
        starts_of(r@) == epoch_starts(t@, width as int, t@.len() as int),
        forall|k: int|
            0 <= k < r@.len() ==> (#[trigger] r@[k]).1 == r@[k].0 + width && text::int_value(
                t@.subrange(r@[k].0 as int, r@[k].0 + width),
            ) == Some(r@[k].2),
{
    let ghost w = width as int;
    let mut r: Vec<(usize, usize, i64)> = Vec::new();
    let mut i: usize = 0;
    assert(starts_of(r@) =~= epoch_starts(t@, w, 0));
    while i < t.len()
        invariant
            0 < width,
            w == width,
            i <= t@.len(),
            i < t@.len() ==> !digit_at(t@, i - 1),
            starts_of(r@) == epoch_starts(t@, w, i as int),
            forall|k: int|
                0 <= k < r@.len() ==> (#[trigger] r@[k]).1 == r@[k].0 + width && text::int_value(
                    t@.subrange(r@[k].0 as int, r@[k].0 + width),
                ) == Some(r@[k].2),
        decreases t@.len() - i,
    {
        let s: usize = i;
        if digit(t[i]) {
            while i < t.len() && digit(t[i])
                invariant
                    s <= i <= t@.len(),
                    forall|j: int| s <= j < i ==> digit_at(t@, j),
                decreases t@.len() - i,
            {
                i = i + 1;
            }
            let ghost run = t@.subrange(s as int, i as int);
            assert forall|j: int| s < j < i implies !epoch_at(t@, w, j) by {
                assert(digit_at(t@, j - 1));
            }
            assert forall|j: int| 0 <= j < run.len() implies text::is_digit(#[trigger] run[j]) by {
                assert(digit_at(t@, s + j));
            }
            let ghost was = r@;
            assert(digit_at(t@, s as int));
            if i - s == width && t[s] == '1' {
                if let Some(v) = parse_int(t, s, i) {
                    assert(epoch_at(t@, w, s as int));
                    r.push((s, i, v));
                    assert(starts_of(r@) =~= starts_of(was).push(s as int));
                }
            } else {
                assert(!epoch_at(t@, w, s as int)) by {
                    if epoch_at(t@, w, s as int) {
                        if s + w > i {
                            assert(!digit_at(t@, i as int));
                            assert(t@.subrange(s as int, s + w)[i - s] == t@[i as int]);
                        } else if s + w < i {
                            assert(digit_at(t@, s + w));
                        }
                    }
                }
            }
            proof {
                lemma_no_epochs(t@, w, s + 1, i as int);
            }
            if i < t.len() {
                i = i + 1;
                proof {
                    assert(!epoch_at(t@, w, i - 1)) by {
                        assert(digit_at(t@, i - 2));
                    }
                }
            }
        } else {
            assert(!epoch_at(t@, w, i as int)) by {
                if epoch_at(t@, w, i as int) {
                    assert(t@.subrange(i as int, i + w)[0] == t@[i as int]);
                }
            }
            i = i + 1;
        }
    }
    r
}

// ───────── rewriting ─────────

/// The numbers in a vector.
spec fn ints(vals: Seq<i64>) -> Seq<int> {
    vals.map_values(|v: i64| v as int)
}

/// Which values go to the end of the new range.
fn choose_ends(vals: &Vec<i64>) -> (r: Vec<bool>)
    ensures
        r@.len() == vals@.len(),
        forall|k: int|
            0 <= k < r@.len() ==> (#[trigger] r@[k]) == goes_to_end(ints(vals@), vals@[k] as int),
{
    let ghost all = ints(vals@);
    let mut r: Vec<bool> = Vec::new();
    if vals.len() == 0 {
        return r;
    }
    let mut lo: i64 = vals[0];
    let mut hi: i64 = vals[0];
    let mut i: usize = 1;
    assert(all.take(1).len() == 1);
    while i < vals.len()
        invariant
            all == ints(vals@),
            1 <= i <= vals@.len(),
            lo == lowest(all.take(i as int)),
            hi == highest(all.take(i as int)),
        decreases vals@.len() - i,
    {
        assert(all.take(i + 1).drop_last() =~= all.take(i as int));
        assert(all.take(i + 1).last() == vals@[i as int]);
        if vals[i] < lo {
            lo = vals[i];
        }
        if vals[i] > hi {
            hi = vals[i];
        }
        i = i + 1;
    }
    assert(all.take(i as int) =~= all);
    let sum: i128 = lo as i128 + hi as i128;
    let mut k: usize = 0;
    while k < vals.len()
        invariant
            all == ints(vals@),
            lo == lowest(all),
            hi == highest(all),
            sum == lo + hi,
            k <= vals@.len(),
            r@.len() == k,
            forall|j: int|
                0 <= j < k ==> (#[trigger] r@[j]) == goes_to_end(all, vals@[j] as int),
        decreases vals@.len() - k,
    {
        r.push(lo == hi || 2 * (vals[k] as i128) > sum);
        k = k + 1;
    }
    r
}

/// A text with the spans of `width` characters at `starts` filled anew, each with `first`
/// or `last`.
fn splice(
    t: &Vec<char>,
    starts: &Vec<usize>,
    width: usize,
    ends: &Vec<bool>,
    first: &str,
    last: &str,
    Ghost(at): Ghost<Seq<int>>,
    Ghost(with): Ghost<Seq<Seq<char>>>,
) -> (r: String)
    requires
        in_line(t@, at, width as int),
        starts@.len() == at.len(),
        ends@.len() == at.len(),
        with.len() == at.len(),
        forall|k: int| 0 <= k < at.len() ==> (#[trigger] starts@[k]) as int == at[k],
        forall|k: int|
            0 <= k < at.len() ==> (#[trigger] with[k]) == if ends@[k] {
                last@
            } else {
                first@
            },
    ensures
        r@ == spliced(t@, at, width as int, with),
{
    let n: usize = t.len();
    let mut out: String = String::new();
    let mut done: usize = 0;
    let mut k: usize = 0;
    while k < starts.len()
        invariant
            n == t@.len(),
            in_line(t@, at, width as int),
            starts@.len() == at.len(),
            ends@.len() == at.len(),
            with.len() == at.len(),
            forall|k: int| 0 <= k < at.len() ==> (#[trigger] starts@[k]) as int == at[k],
            forall|k: int|
                0 <= k < at.len() ==> (#[trigger] with[k]) == if ends@[k] {
                    last@
                } else {
                    first@
                },
            k <= at.len(),
            done == cut(at, width as int, k as int),
            done <= t@.len(),
            out@ == filled(t@, at, width as int, with, k as int),
        decreases at.len() - k,
    {
        assert(at[k as int] == starts@[k as int]);
        assert(with[k as int] == if ends@[k as int] {
            last@
        } else {
            first@
        });
        push_range(&mut out, t, done, starts[k]);
        if ends[k] {
            out.append(last);
        } else {
            out.append(first);
        }
        done = starts[k] + width;
        k = k + 1;
    }
    push_range(&mut out, t, done, n);
    out
}

/// Moves the dates `YYYY-MM-DD` and `YYYY/MM/DD` of a text into the range from `start` to
/// `end`.
fn rewrite_iso(s: &str, start: Ymd, end: Ymd) -> (r: String)
    ensures
        r@ == iso_moved(s@, start, end),
{
    let t: Vec<char> = chars_of(s);
    let spans: Vec<(usize, usize, Ymd)> = find_iso(&t);
    let ghost at = iso_starts(t@, t@.len() as int);
    proof {
        lemma_iso_starts(t@, t@.len() as int);
    }
    let mut starts: Vec<usize> = Vec::new();
    let mut days: Vec<i64> = Vec::new();
    let mut k: usize = 0;
    while k < spans.len()
        invariant
            at == iso_starts(t@, t@.len() as int),
            starts_of(spans@) == at,
            forall|k: int| 0 <= k < at.len() ==> iso_at(t@, #[trigger] at[k]),
            forall|k: int|
                0 <= k < spans@.len() ==> (#[trigger] spans@[k]).1 == spans@[k].0 + 10
                    && date::date_value(t@.skip(spans@[k].0 as int)) == Some(spans@[k].2),
            k <= spans@.len(),
            starts@.len() == k,
            days@.len() == k,
            forall|j: int| 0 <= j < k ==> (#[trigger] starts@[j]) as int == at[j],
            forall|j: int| 0 <= j < k ==> (#[trigger] days@[j]) as int == iso_days(t@)[j],
        decreases spans@.len() - k,
    {
        assert(at[k as int] == spans@[k as int].0);
        proof {
            lemma_year(t@, at[k as int]);
        }
        starts.push(spans[k].0);
        days.push(spans[k].2.to_days());
        k = k + 1;
    }
    assert(starts_of(spans@).len() == spans@.len());
    assert(ints(days@) =~= iso_days(t@));
    let ends: Vec<bool> = choose_ends(&days);
    let first: String = start.to_string();
    let last: String = end.to_string();
    let ghost with = fills(iso_days(t@), first@, last@);
    assert forall|k: int| 0 <= k < at.len() implies (#[trigger] with[k]) == if ends@[k] {
        last@
    } else {
        first@
    } by {
        assert(days@[k] as int == iso_days(t@)[k]);
    }
    splice(&t, &starts, 10, &ends, first.as_str(), last.as_str(), Ghost(at), Ghost(with))
}

/// Moves the Unix times of `digits` digits in a text into the range from `start_val` to
/// `end_val`.
fn rewrite_epoch(s: &str, digits: usize, start_val: i64, end_val: i64) -> (r: String)
    requires
        0 < digits,
    ensures
        r@ == epoch_moved(s@, digits as int, start_val as int, end_val as int),
{
    let ghost w = digits as int;
    let t: Vec<char> = chars_of(s);
    let spans: Vec<(usize, usize, i64)> = find_epoch(&t, digits);
    let ghost at = epoch_starts(t@, w, t@.len() as int);
    proof {
        lemma_epoch_starts(t@, w, t@.len() as int);
    }
    let mut starts: Vec<usize> = Vec::new();
    let mut times: Vec<i64> = Vec::new();
    let mut k: usize = 0;
    while k < spans.len()
        invariant
            w == digits,
            at == epoch_starts(t@, w, t@.len() as int),
            starts_of(spans@) == at,
            forall|k: int|
                0 <= k < spans@.len() ==> (#[trigger] spans@[k]).1 == spans@[k].0 + digits
                    && text::int_value(t@.subrange(spans@[k].0 as int, spans@[k].0 + digits))
                    == Some(spans@[k].2),
            k <= spans@.len(),
            starts@.len() == k,
            times@.len() == k,
            forall|j: int| 0 <= j < k ==> (#[trigger] starts@[j]) as int == at[j],
            forall|j: int| 0 <= j < k ==> (#[trigger] times@[j]) as int == epoch_times(t@, w)[j],
        decreases spans@.len() - k,
    {
        assert(at[k as int] == spans@[k as int].0);
        starts.push(spans[k].0);
        times.push(spans[k].2);
        k = k + 1;
    }
    assert(starts_of(spans@).len() == spans@.len());
    assert(ints(times@) =~= epoch_times(t@, w));
    let ends: Vec<bool> = choose_ends(&times);
    let first: String = int_string(start_val);
    let last: String = int_string(end_val);
    let ghost with = fills(epoch_times(t@, w), first@, last@);
    assert forall|k: int| 0 <= k < at.len() implies (#[trigger] with[k]) == if ends@[k] {
        last@
    } else {
        first@
    } by {
        assert(times@[k] as int == epoch_times(t@, w)[k]);
    }
    splice(&t, &starts, digits, &ends, first.as_str(), last.as_str(), Ghost(at), Ghost(with))
}

/// The Unix times of the range, in milliseconds, can be held.
pub open spec fn range_fits(start: Ymd, end: Ymd) -> bool {
    &&& i64::MIN <= start.day_number() * 86_400_000 <= i64::MAX
    &&& i64::MIN <= end.day_number() * 86_400_000
    &&& (end.day_number() + 1) * 86_400_000 <= i64::MAX
}

/// The days of usual years can be written as Unix times.
pub proof fn law_usual_days_fit(start: Ymd, end: Ymd)
    requires
        -400_000 <= start.day_number() <= 3_000_000,
        -400_000 <= end.day_number() <= 3_000_000,
    ensures
        range_fits(start, end),
{
}

/// Moves the dates and Unix times of a text (a URL or the body of a request) into the range
/// from `start` to `end`: the least becomes the start, the greatest the end, and those
/// between go to the nearer of the two.
pub fn rewrite_dates(text: &str, start: Ymd, end: Ymd) -> (r: String)
    requires
        range_fits(start, end),
    ensures
        r@ == dates_moved(text@, start, end),
{
    let end_excl: i64 = end.end_unix() + 1;
    let s: String = rewrite_iso(text, start, end);
    let s: String = rewrite_epoch(s.as_str(), 13, start.midnight_unix() * 1000, end_excl * 1000);
    rewrite_epoch(s.as_str(), 10, start.midnight_unix(), end_excl)
}

}
