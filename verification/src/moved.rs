//! What holds of dates and times that were moved into a range.

use crate::date;
use crate::date::Ymd;
use crate::rewrite;
use crate::text;
use vstd::prelude::*;

verus! {

proof fn lemma_no_dates(t: Seq<char>, start: Ymd, end: Ymd)
    requires
        forall|i: int| !rewrite::iso_at(t, i),
    ensures
        rewrite::iso_moved(t, start, end) == t,
{
    rewrite::lemma_iso_starts(t, t.len() as int);
    let a = rewrite::iso_starts(t, t.len() as int);
    if a.len() > 0 {
        assert(rewrite::iso_at(t, a[0]));
    }
    assert(rewrite::iso_moved(t, start, end) =~= t);
}

proof fn lemma_no_times(t: Seq<char>, width: int, first: int, last: int)
    requires
        0 < width,
        forall|i: int| !rewrite::epoch_at(t, width, i),
    ensures
        rewrite::epoch_moved(t, width, first, last) == t,
{
    rewrite::lemma_epoch_starts(t, width, t.len() as int);
    let a = rewrite::epoch_starts(t, width, t.len() as int);
    if a.len() > 0 {
        assert(rewrite::epoch_at(t, width, a[0]));
    }
    assert(rewrite::epoch_moved(t, width, first, last) =~= t);
}

/// A text without dates and Unix times stays as it is.
pub proof fn law_nothing_to_move(t: Seq<char>, start: Ymd, end: Ymd)
    requires
        forall|i: int| !rewrite::iso_at(t, i),
        forall|i: int| !rewrite::epoch_at(t, 13, i),
        forall|i: int| !rewrite::epoch_at(t, 10, i),
    ensures
        rewrite::dates_moved(t, start, end) == t,
{
    let first = start.day_number() * 86_400;
    let last = (end.day_number() + 1) * 86_400;
    lemma_no_dates(t, start, end);
    lemma_no_times(t, 13, first * 1000, last * 1000);
    lemma_no_times(t, 10, first, last);
}

proof fn lemma_bounds(vals: Seq<int>, k: int)
    requires
        0 <= k < vals.len(),
    ensures
        rewrite::lowest(vals) <= vals[k] <= rewrite::highest(vals),
        vals.contains(rewrite::lowest(vals)),
        vals.contains(rewrite::highest(vals)),
    decreases vals.len(),
{
    if vals.len() == 1 {
        assert(vals[0] == rewrite::lowest(vals));
    } else {
        let w = vals.drop_last();
        lemma_bounds(w, 0);
        if k < w.len() {
            lemma_bounds(w, k);
            assert(w[k] == vals[k]);
        }
        let a = choose|a: int| 0 <= a < w.len() && w[a] == rewrite::lowest(w);
        let b = choose|b: int| 0 <= b < w.len() && w[b] == rewrite::highest(w);
        assert(vals[a] == rewrite::lowest(w) && vals[b] == rewrite::highest(w));
        assert(vals[vals.len() - 1] == vals.last());
    }
}

/// Of several values the least becomes the start and the greatest the end; a value that is
/// the only one becomes the end; and what lies above a value that becomes the end becomes
/// the end too.
pub proof fn law_range_kept(vals: Seq<int>, k: int)
    requires
        0 <= k < vals.len(),
    ensures
        vals[k] == rewrite::highest(vals) ==> rewrite::goes_to_end(vals, vals[k]),
        rewrite::lowest(vals) < rewrite::highest(vals) && vals[k] == rewrite::lowest(vals)
            ==> !rewrite::goes_to_end(vals, vals[k]),
        rewrite::goes_to_end(vals, vals[k]) ==> forall|v: int| v >= vals[k]
            ==> rewrite::goes_to_end(vals, v),
        rewrite::goes_to_end(vals, vals[k])
            <==> rewrite::lowest(vals) == rewrite::highest(vals) || rewrite::highest(vals) - vals[k]
            < vals[k] - rewrite::lowest(vals),
{
    lemma_bounds(vals, k);
}

/// Position `p` lies in the span `k`.
spec fn in_span(starts: Seq<int>, width: int, k: int, p: int) -> bool {
    0 <= k < starts.len() && starts[k] <= p < starts[k] + width
}

/// Position `p` lies in no span.
spec fn untouched(starts: Seq<int>, width: int, p: int) -> bool {
    forall|k: int| !in_span(starts, width, k, p)
}

/// `u` is `t` with its spans filled by as many characters as they had.
spec fn refilled(
    t: Seq<char>,
    u: Seq<char>,
    starts: Seq<int>,
    width: int,
    with: Seq<Seq<char>>,
) -> bool {
    &&& u.len() == t.len()
    &&& forall|k: int, q: int|
        0 <= k < starts.len() && 0 <= q < width ==> #[trigger] with[k][q] == u[starts[k] + q]
    &&& forall|p: int|
        0 <= p < t.len() && untouched(starts, width, p) ==> #[trigger] u[p] == t[p]
}

proof fn lemma_refilled(
    t: Seq<char>,
    starts: Seq<int>,
    width: int,
    with: Seq<Seq<char>>,
    k: int,
)
    requires
        rewrite::in_line(t, starts, width),
        0 <= k <= starts.len(),
        with.len() == starts.len(),
        forall|j: int| 0 <= j < with.len() ==> (#[trigger] with[j]).len() == width,
    ensures
        rewrite::filled(t, starts, width, with, k).len() == rewrite::cut(starts, width, k),
        forall|j: int, q: int|
            0 <= j < k && 0 <= q < width ==> #[trigger] with[j][q] == rewrite::filled(
                t,
                starts,
                width,
                with,
                k,
            )[starts[j] + q],
        forall|p: int|
            0 <= p < rewrite::cut(starts, width, k) && untouched(starts, width, p)
                ==> #[trigger] rewrite::filled(
                t,
                starts,
                width,
                with,
                k,
            )[p] == t[p],
    decreases k,
{
    if k > 0 {
        lemma_refilled(t, starts, width, with, k - 1);
        let was = rewrite::filled(t, starts, width, with, k - 1);
        let now = rewrite::filled(t, starts, width, with, k);
        assert(rewrite::cut(starts, width, k - 1) <= starts[k - 1]);
        assert(with[k - 1].len() == width);
        assert forall|j: int, q: int| 0 <= j < k && 0 <= q < width implies #[trigger] with[j][q]
            == now[starts[j] + q] by {
            if j < k - 1 {
                lemma_earlier(t, starts, width, j, k - 1);
                assert(was[starts[j] + q] == with[j][q]);
            }
        }
        assert forall|p: int|
            0 <= p < rewrite::cut(starts, width, k) && untouched(starts, width, p)
                implies #[trigger] now[p]
            == t[p] by {
            assert(!in_span(starts, width, k - 1, p));
            if p < rewrite::cut(starts, width, k - 1) {
                assert(was[p] == t[p]);
            }
        }
    }
}

/// An earlier span ends before a later one begins.
pub proof fn lemma_earlier(t: Seq<char>, starts: Seq<int>, width: int, j: int, k: int)
    requires
        rewrite::in_line(t, starts, width),
        0 <= j < k <= starts.len(),
    ensures
        starts[j] + width <= rewrite::cut(starts, width, k),
        0 <= starts[j],
    decreases k,
{
    assert(rewrite::cut(starts, width, j) <= starts[j]);
    if j > 0 {
        lemma_earlier(t, starts, width, j - 1, j);
    }
    if j < k - 1 {
        lemma_earlier(t, starts, width, j, k - 1);
        assert(rewrite::cut(starts, width, k - 1) <= starts[k - 1]);
    }
}

/// Spans filled by as many characters as they had leave all other characters in place.
proof fn lemma_spliced(t: Seq<char>, starts: Seq<int>, width: int, with: Seq<Seq<char>>)
    requires
        rewrite::in_line(t, starts, width),
        with.len() == starts.len(),
        forall|j: int| 0 <= j < with.len() ==> (#[trigger] with[j]).len() == width,
    ensures
        refilled(t, rewrite::spliced(t, starts, width, with), starts, width, with),
{
    let n = starts.len() as int;
    let u = rewrite::spliced(t, starts, width, with);
    lemma_refilled(t, starts, width, with, n);
    let f = rewrite::filled(t, starts, width, with, n);
    if n > 0 {
        assert(rewrite::cut(starts, width, n - 1) <= starts[n - 1]);
    }
    assert forall|k: int, q: int| 0 <= k < starts.len() && 0 <= q < width
        implies #[trigger] with[k][q]
        == u[starts[k] + q] by {
        lemma_earlier(t, starts, width, k, n);
        assert(f[starts[k] + q] == with[k][q]);
    }
    assert forall|p: int|
        0 <= p < t.len() && untouched(starts, width, p) implies #[trigger] u[p] == t[p] by {
        if p < rewrite::cut(starts, width, n) {
            assert(f[p] == t[p]);
        }
    }
}

proof fn lemma_date_listed(t: Seq<char>, n: int, i: int) -> (k: int)
    requires
        rewrite::iso_at(t, i),
        i < n <= t.len(),
    ensures
        0 <= k < rewrite::iso_starts(t, n).len(),
        rewrite::iso_starts(t, n)[k] == i,
    decreases n,
{
    if i == n - 1 {
        rewrite::iso_starts(t, n).len() - 1
    } else {
        lemma_date_listed(t, n - 1, i)
    }
}

/// A date that has a year of four digits.
pub open spec fn is_plain(a: Ymd) -> bool {
    0 <= a.y <= 9_999 && 1 <= a.m <= 12 && 1 <= a.d <= 31
}

/// The text of a date with a year of four digits begins with these.
proof fn lemma_plain_text(a: Ymd)
    requires
        is_plain(a),
    ensures
        date::date_text(a).len() == 10,
        rewrite::digit_at(date::date_text(a), 0),
        rewrite::digit_at(date::date_text(a), 1),
        rewrite::digit_at(date::date_text(a), 2),
        rewrite::digit_at(date::date_text(a), 3),
{
    date::law_date_text_read_back(a, Seq::empty());
    let t = text::nat_text(a.y as nat);
    let k = 4 - t.len();
    text::lemma_nat_text(a.y as nat, k);
    let head = text::padded_text(a.y as int, 4);
    assert(head =~= text::zeros(k) + t);
    reveal_with_fuel(text::nat_text, 5);
    assert(head.len() == 4);
    let s = date::date_text(a);
    assert(s[0] == head[0] && s[1] == head[1] && s[2] == head[2] && s[3] == head[3]);
}

/// Only the first ten characters of a text make its date.
proof fn lemma_date_in_ten(a: Seq<char>, b: Seq<char>)
    requires
        a.len() >= 10,
        b.len() >= 10,
        forall|q: int| 0 <= q < 10 ==> a[q] == b[q],
    ensures
        date::date_value(a) == date::date_value(b),
{
    assert(a.subrange(0, 4) =~= b.subrange(0, 4));
    assert(a.subrange(5, 7) =~= b.subrange(5, 7));
    assert(a.subrange(8, 10) =~= b.subrange(8, 10));
}

/// No span of a date reaches the character before a date, nor that behind it.
proof fn lemma_date_edges(t: Seq<char>, i: int)
    requires
        rewrite::iso_at(t, i),
    ensures
        untouched(rewrite::iso_starts(t, t.len() as int), 10, i - 1),
        untouched(rewrite::iso_starts(t, t.len() as int), 10, i + 10),
{
    let starts = rewrite::iso_starts(t, t.len() as int);
    rewrite::lemma_iso_starts(t, t.len() as int);
    let before = i - 1;
    let behind = i + 10;
    assert forall|k: int| !in_span(starts, 10, k, before) by {
        if in_span(starts, 10, k, before) {
            let s = starts[k];
            assert(rewrite::iso_at(t, s));
            rewrite::law_dates_apart(t, s, i);
            assert(!rewrite::digit_at(t, s + 10));
        }
    }
    assert forall|k: int| !in_span(starts, 10, k, behind) by {
        if in_span(starts, 10, k, behind) {
            let s = starts[k];
            assert(rewrite::iso_at(t, s));
            if s > i {
                rewrite::law_dates_apart(t, i, s);
            } else if s < i {
                rewrite::law_dates_apart(t, s, i);
            }
        }
    }
}

proof fn lemma_date_refilled(
    t: Seq<char>,
    u: Seq<char>,
    with: Seq<Seq<char>>,
    i: int,
    k: int,
    a: Ymd,
)
    requires
        refilled(t, u, rewrite::iso_starts(t, t.len() as int), 10, with),
        rewrite::iso_at(t, i),
        0 <= k < rewrite::iso_starts(t, t.len() as int).len(),
        rewrite::iso_starts(t, t.len() as int)[k] == i,
        is_plain(a),
        with[k] == date::date_text(a),
    ensures
        rewrite::iso_at(u, i),
        date::date_value(u.skip(i)) == Some(a),
        u.subrange(i, i + 10) == date::date_text(a),
{
    lemma_date_edges(t, i);
    lemma_plain_text(a);
    let w = date::date_text(a);
    if i > 0 {
        assert(u[i - 1] == t[i - 1]);
    }
    if i + 10 < t.len() {
        assert(u[i + 10] == t[i + 10]);
    }
    assert forall|q: int| 0 <= q < 10 implies u.skip(i)[q] == w[q] by {
        assert(with[k][q] == u[i + q]);
    }
    assert forall|q: int| 0 <= q < 10 implies u.subrange(i, i + 10)[q] == w[q] by {
        assert(u.skip(i)[q] == w[q]);
    }
    assert(u.subrange(i, i + 10) =~= w);
    date::law_date_text_read_back(a, Seq::empty());
    assert(w + Seq::<char>::empty() =~= w);
    lemma_date_in_ten(u.skip(i), w);
    assert(u.skip(i)[0] == u[i] && u.skip(i)[1] == u[i + 1]);
    assert(u.skip(i)[2] == u[i + 2] && u.skip(i)[3] == u[i + 3]);
}

/// What the dates of a text are filled with has their width.
proof fn lemma_dates_refilled(t: Seq<char>, start: Ymd, end: Ymd)
    requires
        is_plain(start),
        is_plain(end),
    ensures
        refilled(
            t,
            rewrite::iso_moved(t, start, end),
            rewrite::iso_starts(t, t.len() as int),
            10,
            rewrite::fills(rewrite::iso_days(t), date::date_text(start), date::date_text(end)),
        ),
{
    rewrite::lemma_iso_starts(t, t.len() as int);
    lemma_plain_text(start);
    lemma_plain_text(end);
    lemma_spliced(
        t,
        rewrite::iso_starts(t, t.len() as int),
        10,
        rewrite::fills(rewrite::iso_days(t), date::date_text(start), date::date_text(end)),
    );
}

/// Where a date stood, the start or the end of the range stands.
proof fn lemma_date_moved(t: Seq<char>, start: Ymd, end: Ymd, i: int)
    requires
        is_plain(start),
        is_plain(end),
        rewrite::iso_at(t, i),
    ensures
        rewrite::iso_at(rewrite::iso_moved(t, start, end), i),
        date::date_value(rewrite::iso_moved(t, start, end).skip(i)) == Some(
            if rewrite::goes_to_end(rewrite::iso_days(t),
                date::date_value(t.skip(i))->Some_0.day_number()) {
                end
            } else {
                start
            },
        ),
        rewrite::iso_moved(t, start, end).subrange(i, i + 10) == date::date_text(
            if rewrite::goes_to_end(rewrite::iso_days(t),
                date::date_value(t.skip(i))->Some_0.day_number()) {
                end
            } else {
                start
            },
        ),
{
    let with = rewrite::fills(rewrite::iso_days(t), date::date_text(start), date::date_text(end));
    lemma_dates_refilled(t, start, end);
    let k = lemma_date_listed(t, t.len() as int, i);
    if rewrite::goes_to_end(rewrite::iso_days(t), rewrite::iso_days(t)[k]) {
        lemma_date_refilled(t, rewrite::iso_moved(t, start, end), with, i, k, end);
    } else {
        lemma_date_refilled(t, rewrite::iso_moved(t, start, end), with, i, k, start);
    }
}

/// Two dates that overlap or touch are one.
proof fn lemma_touching_dates(u: Seq<char>, s: int, i: int)
    requires
        rewrite::iso_at(u, s),
        rewrite::iso_at(u, i),
        s <= i + 10,
        i <= s + 10,
    ensures
        s == i,
{
    if s < i {
        rewrite::law_dates_apart(u, s, i);
        assert(!rewrite::digit_at(u, s + 10));
    } else if i < s {
        rewrite::law_dates_apart(u, i, s);
        assert(!rewrite::digit_at(u, i + 10));
    }
}

/// Whether a date stands somewhere is settled by the characters there and next to them.
proof fn lemma_date_window(t: Seq<char>, u: Seq<char>, i: int)
    requires
        rewrite::iso_at(u, i),
        u.len() == t.len(),
        forall|p: int| i - 1 <= p <= i + 10 && 0 <= p < t.len() ==> #[trigger] u[p] == t[p],
    ensures
        rewrite::iso_at(t, i),
        date::date_value(t.skip(i)) == date::date_value(u.skip(i)),
{
    assert forall|q: int| 0 <= q < 10 implies u.skip(i)[q] == t.skip(i)[q] by {
        assert(u[i + q] == t[i + q]);
    }
    lemma_date_in_ten(u.skip(i), t.skip(i));
    assert(u[i] == t[i]);
    assert(u[i + 1] == t[i + 1]);
    assert(u[i + 2] == t[i + 2]);
    assert(u[i + 3] == t[i + 3]);
    if i > 0 {
        assert(u[i - 1] == t[i - 1]);
    }
    if i + 10 < t.len() {
        assert(u[i + 10] == t[i + 10]);
    }
}

/// No date comes up where none stood.
proof fn lemma_no_new_date(t: Seq<char>, start: Ymd, end: Ymd, i: int)
    requires
        is_plain(start),
        is_plain(end),
        rewrite::iso_at(rewrite::iso_moved(t, start, end), i),
    ensures
        rewrite::iso_at(t, i),
{
    let u = rewrite::iso_moved(t, start, end);
    let starts = rewrite::iso_starts(t, t.len() as int);
    lemma_dates_refilled(t, start, end);
    if exists|p: int, k: int| i - 1 <= p <= i + 10 && in_span(starts, 10, k, p) {
        let (p, k) = choose|p: int, k: int| i - 1 <= p <= i + 10 && in_span(starts, 10, k, p);
        rewrite::lemma_iso_starts(t, t.len() as int);
        let s = starts[k];
        assert(rewrite::iso_at(t, s));
        lemma_date_moved(t, start, end, s);
        lemma_touching_dates(u, s, i);
    } else {
        assert forall|p: int| i - 1 <= p <= i + 10 && 0 <= p < t.len() implies #[trigger] u[p]
            == t[p] by {
            assert(untouched(starts, 10, p));
        }
        lemma_date_window(t, u, i);
    }
}

/// After the dates of a text are moved, dates stand where they stood before and nowhere
/// else, and each of them is the start or the end of the new range.
pub proof fn law_dates_in_range(t: Seq<char>, start: Ymd, end: Ymd)
    requires
        is_plain(start),
        is_plain(end),
    ensures
        rewrite::iso_moved(t, start, end).len() == t.len(),
        forall|i: int| #[trigger] rewrite::iso_at(rewrite::iso_moved(t, start, end), i)
            <==> rewrite::iso_at(t, i),
        forall|i: int| #[trigger]
            rewrite::iso_at(rewrite::iso_moved(t, start, end), i) ==> date::date_value(
                rewrite::iso_moved(t, start, end).skip(i),
            ) == Some(start) || date::date_value(rewrite::iso_moved(t, start, end).skip(i))
                == Some(end),
        forall|i: int| #[trigger]
            rewrite::iso_at(rewrite::iso_moved(t, start, end), i) ==> ({
                let s = rewrite::iso_moved(t, start, end).subrange(i, i + 10);
                s == date::date_text(start) || s == date::date_text(end)
            }),
{
    let u = rewrite::iso_moved(t, start, end);
    lemma_dates_refilled(t, start, end);
    assert forall|i: int| #[trigger] rewrite::iso_at(u, i) <==> rewrite::iso_at(t, i) by {
        if rewrite::iso_at(t, i) {
            lemma_date_moved(t, start, end, i);
        }
        if rewrite::iso_at(u, i) {
            lemma_no_new_date(t, start, end, i);
        }
    }
    assert forall|i: int| #[trigger] rewrite::iso_at(u, i)
        implies date::date_value(u.skip(i)) == Some(start)
        || date::date_value(u.skip(i)) == Some(end) by {
        lemma_date_moved(t, start, end, i);
    }
    assert forall|i: int| #[trigger] rewrite::iso_at(u, i) implies u.subrange(i, i + 10)
        == date::date_text(start) || u.subrange(i, i + 10) == date::date_text(end) by {
        lemma_date_moved(t, start, end, i);
    }
}

proof fn lemma_same_starts(t: Seq<char>, u: Seq<char>, n: int)
    requires
        forall|i: int| #[trigger] rewrite::iso_at(u, i) <==> rewrite::iso_at(t, i),
    ensures
        rewrite::iso_starts(u, n) == rewrite::iso_starts(t, n),
    decreases n,
{
    if n > 0 {
        lemma_same_starts(t, u, n - 1);
        assert(rewrite::iso_at(u, n - 1) <==> rewrite::iso_at(t, n - 1));
    }
}

/// Values that were moved to the two ends of a range stay there when they are moved again.
proof fn lemma_ends_stay(vals: Seq<int>, moved: Seq<int>, first: int, last: int, k: int)
    requires
        first < last,
        moved.len() == vals.len(),
        forall|j: int|
            0 <= j < vals.len() ==> (#[trigger] moved[j])
                == if rewrite::goes_to_end(vals, vals[j]) {
                last
            } else {
                first
            },
        0 <= k < vals.len(),
    ensures
        rewrite::goes_to_end(moved, moved[k]) == rewrite::goes_to_end(vals, vals[k]),
{
    lemma_bounds(vals, k);
    lemma_bounds(moved, k);
    let lo = choose|j: int| 0 <= j < moved.len() && moved[j] == rewrite::lowest(moved);
    let hi = choose|j: int| 0 <= j < moved.len() && moved[j] == rewrite::highest(moved);
    if !rewrite::goes_to_end(vals, vals[k]) {
        let m = choose|j: int| 0 <= j < vals.len() && vals[j] == rewrite::highest(vals);
        assert(rewrite::goes_to_end(vals, vals[m]));
        lemma_bounds(moved, m);
        assert(moved[m] == last);
    }
}

/// Dates that were moved into a range stay as they are when they are moved into it again.
pub proof fn law_dates_settled(t: Seq<char>, start: Ymd, end: Ymd)
    requires
        is_plain(start),
        is_plain(end),
        start.is_valid(),
        end.is_valid(),
        start.day_number() <= end.day_number(),
    ensures
        rewrite::iso_moved(rewrite::iso_moved(t, start, end), start, end)
            == rewrite::iso_moved(t, start, end),
{
    let u = rewrite::iso_moved(t, start, end);
    let v = rewrite::iso_moved(u, start, end);
    let n = t.len() as int;
    let starts = rewrite::iso_starts(t, n);
    let with = rewrite::fills(rewrite::iso_days(t), date::date_text(start), date::date_text(end));
    let again = rewrite::fills(rewrite::iso_days(u), date::date_text(start), date::date_text(end));
    law_dates_in_range(t, start, end);
    lemma_same_starts(t, u, n);
    rewrite::lemma_iso_starts(t, n);
    lemma_dates_refilled(t, start, end);
    lemma_dates_refilled(u, start, end);
    assert forall|k: int| 0 <= k < starts.len()
        implies (#[trigger] rewrite::iso_days(u)[k]) == if rewrite::goes_to_end(
        rewrite::iso_days(t),
        rewrite::iso_days(t)[k],
    ) {
        end.day_number()
    } else {
        start.day_number()
    } by {
        assert(rewrite::iso_at(t, starts[k]));
        lemma_date_moved(t, start, end, starts[k]);
    }
    assert forall|k: int| 0 <= k < starts.len() implies (#[trigger] again[k]) == with[k] by {
        if start.day_number() == end.day_number() {
            date::law_day_number_unique(start, end);
        } else {
            lemma_ends_stay(rewrite::iso_days(t), rewrite::iso_days(u), start.day_number(),
                end.day_number(), k);
        }
    }
    assert forall|p: int| 0 <= p < u.len() implies v[p] == u[p] by {
        if untouched(starts, 10, p) {
            assert(v[p] == u[p]);
        } else {
            let k = choose|k: int| in_span(starts, 10, k, p);
            let q = p - starts[k];
            assert(with[k][q] == u[starts[k] + q]);
            assert(again[k][q] == v[starts[k] + q]);
        }
    }
    assert(v =~= u);
}

/// A Unix time that is written with `width` digits, the first of them 1.
pub open spec fn is_stamp(n: int, width: int) -> bool {
    &&& 0 <= n <= i64::MAX
    &&& text::int_text(n).len() == width
    &&& text::int_text(n)[0] == '1'
}

proof fn lemma_stamp(n: int, width: int)
    requires
        is_stamp(n, width),
    ensures
        width > 0,
        text::all_digits(text::int_text(n)),
        text::int_value(text::int_text(n)) == Some(n as i64),
{
    text::lemma_nat_text(n as nat, 0);
    assert(text::zeros(0) + text::nat_text(n as nat) =~= text::int_text(n));
}

proof fn lemma_time_listed(t: Seq<char>, width: int, n: int, i: int) -> (k: int)
    requires
        rewrite::epoch_at(t, width, i),
        i < n <= t.len(),
    ensures
        0 <= k < rewrite::epoch_starts(t, width, n).len(),
        rewrite::epoch_starts(t, width, n)[k] == i,
    decreases n,
{
    if i == n - 1 {
        rewrite::epoch_starts(t, width, n).len() - 1
    } else {
        lemma_time_listed(t, width, n - 1, i)
    }
}

/// A Unix time consists of digits.
pub proof fn lemma_time_digits(t: Seq<char>, width: int, i: int, p: int)
    requires
        rewrite::epoch_at(t, width, i),
        i <= p < i + width,
    ensures
        rewrite::digit_at(t, p),
{
    assert(t.subrange(i, i + width)[p - i] == t[p]);
}

/// Two Unix times that overlap or touch are one.
proof fn lemma_touching_times(u: Seq<char>, width: int, s: int, i: int)
    requires
        rewrite::epoch_at(u, width, s),
        rewrite::epoch_at(u, width, i),
        s <= i + width,
        i <= s + width,
    ensures
        s == i,
{
    lemma_time_digits(u, width, s, s);
    lemma_time_digits(u, width, i, i);
    if s < i {
        rewrite::law_times_apart(u, width, s, i);
        assert(!rewrite::digit_at(u, s + width));
    } else if i < s {
        rewrite::law_times_apart(u, width, i, s);
        assert(!rewrite::digit_at(u, i + width));
    }
}

/// Whether a Unix time stands somewhere is settled by the characters there and next to them.
proof fn lemma_time_window(t: Seq<char>, u: Seq<char>, width: int, i: int)
    requires
        rewrite::epoch_at(u, width, i),
        u.len() == t.len(),
        forall|p: int| i - 1 <= p <= i + width && 0 <= p < t.len() ==> #[trigger] u[p] == t[p],
    ensures
        rewrite::epoch_at(t, width, i),
        t.subrange(i, i + width) == u.subrange(i, i + width),
{
    assert(t.subrange(i, i + width) =~= u.subrange(i, i + width));
    assert(u[i] == t[i]);
    if i > 0 {
        assert(u[i - 1] == t[i - 1]);
    }
    if i + width < t.len() {
        assert(u[i + width] == t[i + width]);
    }
}

/// No span of a Unix time reaches the character before one, nor that behind it.
proof fn lemma_time_edges(t: Seq<char>, width: int, i: int)
    requires
        rewrite::epoch_at(t, width, i),
    ensures
        untouched(rewrite::epoch_starts(t, width, t.len() as int), width, i - 1),
        untouched(rewrite::epoch_starts(t, width, t.len() as int), width, i + width),
{
    let starts = rewrite::epoch_starts(t, width, t.len() as int);
    rewrite::lemma_epoch_starts(t, width, t.len() as int);
    let before = i - 1;
    let behind = i + width;
    assert forall|k: int| !in_span(starts, width, k, before) by {
        if in_span(starts, width, k, before) {
            assert(rewrite::epoch_at(t, width, starts[k]));
            lemma_touching_times(t, width, starts[k], i);
        }
    }
    assert forall|k: int| !in_span(starts, width, k, behind) by {
        if in_span(starts, width, k, behind) {
            assert(rewrite::epoch_at(t, width, starts[k]));
            lemma_touching_times(t, width, starts[k], i);
        }
    }
}

/// What the Unix times of a text are filled with has their width.
proof fn lemma_times_refilled(t: Seq<char>, width: int, first: int, last: int)
    requires
        is_stamp(first, width),
        is_stamp(last, width),
    ensures
        refilled(
            t,
            rewrite::epoch_moved(t, width, first, last),
            rewrite::epoch_starts(t, width, t.len() as int),
            width,
            rewrite::fills(rewrite::epoch_times(t, width), text::int_text(first),
                text::int_text(last)),
        ),
{
    lemma_stamp(first, width);
    rewrite::lemma_epoch_starts(t, width, t.len() as int);
    lemma_spliced(
        t,
        rewrite::epoch_starts(t, width, t.len() as int),
        width,
        rewrite::fills(rewrite::epoch_times(t, width), text::int_text(first), text::int_text(last)),
    );
}

/// Where a Unix time stood, the start or the end of the range stands.
proof fn lemma_time_moved(t: Seq<char>, width: int, first: int, last: int, i: int)
    requires
        is_stamp(first, width),
        is_stamp(last, width),
        rewrite::epoch_at(t, width, i),
    ensures
        rewrite::epoch_at(rewrite::epoch_moved(t, width, first, last), width, i),
        rewrite::epoch_moved(t, width, first, last).subrange(i, i + width) == text::int_text(
            if rewrite::goes_to_end(
                rewrite::epoch_times(t, width),
                text::int_value(t.subrange(i, i + width))->Some_0 as int,
            ) {
                last
            } else {
                first
            },
        ),
{
    let u = rewrite::epoch_moved(t, width, first, last);
    let with = rewrite::fills(rewrite::epoch_times(t, width), text::int_text(first),
        text::int_text(last));
    lemma_times_refilled(t, width, first, last);
    let k = lemma_time_listed(t, width, t.len() as int, i);
    let v = if rewrite::goes_to_end(rewrite::epoch_times(t, width), rewrite::epoch_times(t,
        width)[k]) {
        last
    } else {
        first
    };
    lemma_stamp(v, width);
    lemma_time_edges(t, width, i);
    if i > 0 {
        assert(u[i - 1] == t[i - 1]);
    }
    if i + width < t.len() {
        assert(u[i + width] == t[i + width]);
    }
    assert(with[k] == text::int_text(v));
    assert forall|q: int| 0 <= q < width implies u.subrange(i, i + width)[q] == with[k][q] by {
        assert(with[k][q] == u[i + q]);
    }
    assert(u.subrange(i, i + width) =~= text::int_text(v));
    assert(u[i] == u.subrange(i, i + width)[0]);
}

/// No Unix time comes up where none stood.
proof fn lemma_no_new_time(t: Seq<char>, width: int, first: int, last: int, i: int)
    requires
        is_stamp(first, width),
        is_stamp(last, width),
        rewrite::epoch_at(rewrite::epoch_moved(t, width, first, last), width, i),
    ensures
        rewrite::epoch_at(t, width, i),
{
    let u = rewrite::epoch_moved(t, width, first, last);
    let starts = rewrite::epoch_starts(t, width, t.len() as int);
    lemma_times_refilled(t, width, first, last);
    if exists|p: int, k: int| i - 1 <= p <= i + width && in_span(starts, width, k, p) {
        let (p, k) = choose|p: int, k: int|
            i - 1 <= p <= i + width && in_span(starts, width, k, p);
        rewrite::lemma_epoch_starts(t, width, t.len() as int);
        let s = starts[k];
        assert(rewrite::epoch_at(t, width, s));
        lemma_time_moved(t, width, first, last, s);
        lemma_touching_times(u, width, s, i);
    } else {
        assert forall|p: int| i - 1 <= p <= i + width && 0 <= p < t.len() implies #[trigger] u[p]
            == t[p] by {
            assert(untouched(starts, width, p));
        }
        lemma_time_window(t, u, width, i);
    }
}

/// After the Unix times of a text are moved, Unix times stand where they stood before and
/// nowhere else, and each of them is the start or the end of the new range.
pub proof fn law_times_in_range(t: Seq<char>, width: int, first: int, last: int)
    requires
        is_stamp(first, width),
        is_stamp(last, width),
    ensures
        rewrite::epoch_moved(t, width, first, last).len() == t.len(),
        forall|i: int| #[trigger]
            rewrite::epoch_at(rewrite::epoch_moved(t, width, first, last), width, i)
                <==> rewrite::epoch_at(t, width, i),
        forall|i: int| #[trigger]
            rewrite::epoch_at(rewrite::epoch_moved(t, width, first, last), width, i) ==> ({
                let s = rewrite::epoch_moved(t, width, first, last).subrange(i, i + width);
                s == text::int_text(first) || s == text::int_text(last)
            }),
{
    let u = rewrite::epoch_moved(t, width, first, last);
    lemma_times_refilled(t, width, first, last);
    assert forall|i: int| #[trigger] rewrite::epoch_at(u, width, i)
        <==> rewrite::epoch_at(t, width, i) by {
        if rewrite::epoch_at(t, width, i) {
            lemma_time_moved(t, width, first, last, i);
        }
        if rewrite::epoch_at(u, width, i) {
            lemma_no_new_time(t, width, first, last, i);
        }
    }
    assert forall|i: int| #[trigger] rewrite::epoch_at(u, width, i) implies u.subrange(i, i + width)
        == text::int_text(first) || u.subrange(i, i + width) == text::int_text(last) by {
        lemma_time_moved(t, width, first, last, i);
    }
}

proof fn lemma_same_epoch_starts(t: Seq<char>, u: Seq<char>, width: int, n: int)
    requires
        forall|i: int| #[trigger] rewrite::epoch_at(u, width, i)
            <==> rewrite::epoch_at(t, width, i),
    ensures
        rewrite::epoch_starts(u, width, n) == rewrite::epoch_starts(t, width, n),
    decreases n,
{
    if n > 0 {
        lemma_same_epoch_starts(t, u, width, n - 1);
        assert(rewrite::epoch_at(u, width, n - 1) <==> rewrite::epoch_at(t, width, n - 1));
    }
}

/// Unix times that were moved into a range stay as they are when they are moved into it
/// again.
pub proof fn law_times_settled(t: Seq<char>, width: int, first: int, last: int)
    requires
        is_stamp(first, width),
        is_stamp(last, width),
        first <= last,
    ensures
        rewrite::epoch_moved(rewrite::epoch_moved(t, width, first, last), width, first, last)
            == rewrite::epoch_moved(
            t,
            width,
            first,
            last,
        ),
{
    let u = rewrite::epoch_moved(t, width, first, last);
    let v = rewrite::epoch_moved(u, width, first, last);
    let n = t.len() as int;
    let starts = rewrite::epoch_starts(t, width, n);
    let with = rewrite::fills(rewrite::epoch_times(t, width), text::int_text(first),
        text::int_text(last));
    let again = rewrite::fills(rewrite::epoch_times(u, width), text::int_text(first),
        text::int_text(last));
    law_times_in_range(t, width, first, last);
    lemma_same_epoch_starts(t, u, width, n);
    lemma_stamp(first, width);
    lemma_stamp(last, width);
    rewrite::lemma_epoch_starts(t, width, n);
    lemma_times_refilled(t, width, first, last);
    lemma_times_refilled(u, width, first, last);
    assert forall|k: int| 0 <= k < starts.len()
        implies (#[trigger] rewrite::epoch_times(u, width)[k])
        == if rewrite::goes_to_end(rewrite::epoch_times(t, width), rewrite::epoch_times(t,
            width)[k]) {
        last
    } else {
        first
    } by {
        assert(rewrite::epoch_at(t, width, starts[k]));
        lemma_time_moved(t, width, first, last, starts[k]);
    }
    assert forall|k: int| 0 <= k < starts.len() implies (#[trigger] again[k]) == with[k] by {
        if first < last {
            lemma_ends_stay(rewrite::epoch_times(t, width), rewrite::epoch_times(u, width), first,
                last, k);
        }
    }
    assert forall|p: int| 0 <= p < u.len() implies v[p] == u[p] by {
        if untouched(starts, width, p) {
            assert(v[p] == u[p]);
        } else {
            let k = choose|k: int| in_span(starts, width, k, p);
            let q = p - starts[k];
            assert(with[k][q] == u[starts[k] + q]);
            assert(again[k][q] == v[starts[k] + q]);
        }
    }
    assert(v =~= u);
}

// ───────── the passes leave each other alone ─────────

/// A Unix time and a date in a text lie apart, and do not touch.
proof fn lemma_time_off_date(t: Seq<char>, width: int, i: int, s: int)
    requires
        rewrite::epoch_at(t, width, i),
        rewrite::iso_at(t, s),
        5 <= width,
    ensures
        i + width < s || s + 10 < i,
{
    let d = t.skip(s);
    assert(date::is_separator(d[4]) && date::is_separator(d[7]));
    assert(!rewrite::digit_at(t, s - 1) && !rewrite::digit_at(t, s + 4)
        && !rewrite::digit_at(t, s + 7) && !rewrite::digit_at(
        t,
        s + 10,
    ));
    if !(i + width < s || s + 10 < i) {
        lemma_time_digits(t, width, i, i);
        if i <= s - 1 {
            if i + width == s {
                assert(rewrite::digit_at(t, s));
            } else {
                lemma_time_digits(t, width, i, s - 1);
            }
        } else if i <= s + 4 {
            lemma_time_digits(t, width, i, s + 4);
        } else if i <= s + 7 {
            lemma_time_digits(t, width, i, s + 7);
        } else {
            lemma_time_digits(t, width, i, s + 10);
        }
    }
}

/// Unix times of two widths in a text lie apart, and do not touch.
proof fn lemma_time_off_time(t: Seq<char>, a: int, i: int, b: int, s: int)
    requires
        rewrite::epoch_at(t, a, i),
        rewrite::epoch_at(t, b, s),
        a != b,
    ensures
        i + a < s || s + b < i,
{
    if !(i + a < s || s + b < i) {
        if s < i {
            lemma_time_digits(t, b, s, i - 1);
        } else if i < s {
            lemma_time_digits(t, a, i, s - 1);
        } else if a < b {
            lemma_time_digits(t, b, s, i + a);
        } else {
            lemma_time_digits(t, a, i, s + b);
        }
    }
}

/// Spans that lie off a stretch of text leave it as it is.
proof fn lemma_stretch_kept(
    t: Seq<char>,
    u: Seq<char>,
    starts: Seq<int>,
    width: int,
    with: Seq<Seq<char>>,
    a: int,
    b: int,
)
    requires
        refilled(t, u, starts, width, with),
        0 < width,
        forall|k: int|
            0 <= k < starts.len() ==> b < #[trigger] starts[k] || starts[k] + width <= a,
    ensures
        forall|p: int| a <= p <= b && 0 <= p < t.len() ==> #[trigger] u[p] == t[p],
{
    assert forall|p: int| a <= p <= b && 0 <= p < t.len() implies #[trigger] u[p] == t[p] by {
        assert(untouched(starts, width, p));
    }
}

/// Moving dates leaves the Unix times alone.
proof fn lemma_dates_leave_times(t: Seq<char>, start: Ymd, end: Ymd, width: int, i: int)
    requires
        is_plain(start),
        is_plain(end),
        5 <= width,
        rewrite::epoch_at(t, width, i)
            || rewrite::epoch_at(rewrite::iso_moved(t, start, end), width, i),
    ensures
        rewrite::epoch_at(t, width, i),
        rewrite::epoch_at(rewrite::iso_moved(t, start, end), width, i),
        rewrite::iso_moved(t, start, end).subrange(i, i + width) == t.subrange(i, i + width),
{
    let u = rewrite::iso_moved(t, start, end);
    let starts = rewrite::iso_starts(t, t.len() as int);
    let with = rewrite::fills(rewrite::iso_days(t), date::date_text(start), date::date_text(end));
    rewrite::lemma_iso_starts(t, t.len() as int);
    lemma_dates_refilled(t, start, end);
    assert forall|k: int| 0 <= k < starts.len()
        implies i + width < #[trigger] starts[k] || starts[k]
        + 10 <= i - 1 by {
        assert(rewrite::iso_at(t, starts[k]));
        lemma_date_moved(t, start, end, starts[k]);
        if rewrite::epoch_at(t, width, i) {
            lemma_time_off_date(t, width, i, starts[k]);
        } else {
            lemma_time_off_date(u, width, i, starts[k]);
        }
    }
    lemma_stretch_kept(t, u, starts, 10, with, i - 1, i + width);
    if rewrite::epoch_at(t, width, i) {
        assert forall|p: int| i - 1 <= p <= i + width && 0 <= p < u.len() implies #[trigger] t[p]
            == u[p] by {
            assert(u[p] == t[p]);
        }
        lemma_time_window(u, t, width, i);
    } else {
        lemma_time_window(t, u, width, i);
    }
}

/// Moving Unix times leaves the dates alone.
proof fn lemma_times_leave_dates(t: Seq<char>, width: int, first: int, last: int, i: int)
    requires
        is_stamp(first, width),
        is_stamp(last, width),
        5 <= width,
        rewrite::iso_at(t, i) || rewrite::iso_at(rewrite::epoch_moved(t, width, first, last), i),
    ensures
        rewrite::iso_at(t, i),
        rewrite::iso_at(rewrite::epoch_moved(t, width, first, last), i),
        date::date_value(rewrite::epoch_moved(t, width, first, last).skip(i)) == date::date_value(
            t.skip(i),
        ),
        rewrite::epoch_moved(t, width, first, last).subrange(i, i + 10) == t.subrange(i, i + 10),
{
    let u = rewrite::epoch_moved(t, width, first, last);
    let starts = rewrite::epoch_starts(t, width, t.len() as int);
    let with = rewrite::fills(rewrite::epoch_times(t, width), text::int_text(first),
        text::int_text(last));
    rewrite::lemma_epoch_starts(t, width, t.len() as int);
    lemma_times_refilled(t, width, first, last);
    assert forall|k: int| 0 <= k < starts.len() implies i + 10 < #[trigger] starts[k] || starts[k]
        + width <= i - 1 by {
        assert(rewrite::epoch_at(t, width, starts[k]));
        lemma_time_moved(t, width, first, last, starts[k]);
        if rewrite::iso_at(t, i) {
            lemma_time_off_date(t, width, starts[k], i);
        } else {
            lemma_time_off_date(u, width, starts[k], i);
        }
    }
    lemma_stretch_kept(t, u, starts, width, with, i - 1, i + 10);
    assert(u.subrange(i, i + 10) =~= t.subrange(i, i + 10));
    if rewrite::iso_at(t, i) {
        assert forall|p: int| i - 1 <= p <= i + 10 && 0 <= p < u.len() implies #[trigger] t[p]
            == u[p] by {
            assert(u[p] == t[p]);
        }
        lemma_date_window(u, t, i);
    } else {
        lemma_date_window(t, u, i);
    }
}

/// Moving Unix times of one width leaves those of another alone.
proof fn lemma_times_leave_times(
    t: Seq<char>,
    width: int,
    first: int,
    last: int,
    other: int,
    i: int,
)
    requires
        is_stamp(first, width),
        is_stamp(last, width),
        other != width,
        rewrite::epoch_at(t, other, i)
            || rewrite::epoch_at(rewrite::epoch_moved(t, width, first, last), other, i),
    ensures
        rewrite::epoch_at(t, other, i),
        rewrite::epoch_at(rewrite::epoch_moved(t, width, first, last), other, i),
        rewrite::epoch_moved(t, width, first, last).subrange(i, i + other)
            == t.subrange(i, i + other),
{
    let u = rewrite::epoch_moved(t, width, first, last);
    let starts = rewrite::epoch_starts(t, width, t.len() as int);
    let with = rewrite::fills(rewrite::epoch_times(t, width), text::int_text(first),
        text::int_text(last));
    lemma_stamp(first, width);
    rewrite::lemma_epoch_starts(t, width, t.len() as int);
    lemma_times_refilled(t, width, first, last);
    assert forall|k: int| 0 <= k < starts.len()
        implies i + other < #[trigger] starts[k] || starts[k]
        + width <= i - 1 by {
        assert(rewrite::epoch_at(t, width, starts[k]));
        lemma_time_moved(t, width, first, last, starts[k]);
        if rewrite::epoch_at(t, other, i) {
            lemma_time_off_time(t, other, i, width, starts[k]);
        } else {
            lemma_time_off_time(u, other, i, width, starts[k]);
        }
    }
    lemma_stretch_kept(t, u, starts, width, with, i - 1, i + other);
    if rewrite::epoch_at(t, other, i) {
        assert forall|p: int| i - 1 <= p <= i + other && 0 <= p < u.len() implies #[trigger] t[p]
            == u[p] by {
            assert(u[p] == t[p]);
        }
        lemma_time_window(u, t, other, i);
    } else {
        lemma_time_window(t, u, other, i);
    }
}

/// A range whose dates have years of four digits, and whose Unix times are written with 10
/// digits in seconds and with 13 in milliseconds, the first of them 1: the days from
/// 10 September 2001 to 17 May 2033.
pub open spec fn is_usual_range(start: Ymd, end: Ymd) -> bool {
    let first = start.day_number() * 86_400;
    let last = (end.day_number() + 1) * 86_400;
    &&& is_plain(start)
    &&& is_plain(end)
    &&& is_stamp(first, 10)
    &&& is_stamp(last, 10)
    &&& is_stamp(first * 1000, 13)
    &&& is_stamp(last * 1000, 13)
}

/// 1 with `k` zeros behind it.
spec fn tens(k: nat) -> int
    decreases k,
{
    if k == 0 {
        1
    } else {
        10 * tens((k - 1) as nat)
    }
}

proof fn lemma_begins_with_one(n: nat, k: nat)
    requires
        tens(k) <= n < 2 * tens(k),
    ensures
        text::nat_text(n).len() == k + 1,
        text::nat_text(n)[0] == '1',
    decreases k,
{
    if k == 0 {
        assert(text::nat_text(n) == seq![text::digit_char(1)]);
    } else {
        assert(tens((k - 1) as nat) >= 1) by {
            lemma_tens_positive((k - 1) as nat);
        }
        lemma_begins_with_one(n / 10, (k - 1) as nat);
    }
}

proof fn lemma_tens_positive(k: nat)
    ensures
        tens(k) >= 1,
    decreases k,
{
    if k > 0 {
        lemma_tens_positive((k - 1) as nat);
    }
}

proof fn lemma_is_usual_day(n: int)
    requires
        11_574 < n < 23_148,
    ensures
        is_stamp(n * 86_400, 10),
        is_stamp(n * 86_400 * 1000, 13),
{
    reveal_with_fuel(tens, 14);
    lemma_begins_with_one((n * 86_400) as nat, 9);
    lemma_begins_with_one((n * 86_400 * 1000) as nat, 12);
}

/// A range of the years from 2002 to 2032 is a usual one.
pub proof fn law_years_usual(start: Ymd, end: Ymd)
    requires
        start.is_valid(),
        end.is_valid(),
        2002 <= start.y <= 2032,
        2002 <= end.y <= 2032,
    ensures
        is_usual_range(start, end),
{
    lemma_is_usual_day(start.day_number());
    lemma_is_usual_day(end.day_number() + 1);
}

/// Position `p` belongs to a date.
pub open spec fn in_date(t: Seq<char>, p: int) -> bool {
    exists|s: int| #[trigger] rewrite::iso_at(t, s) && s <= p < s + 10
}

/// Position `p` belongs to a Unix time of `width` digits.
pub open spec fn in_time(t: Seq<char>, width: int, p: int) -> bool {
    exists|s: int| #[trigger] rewrite::epoch_at(t, width, s) && s <= p < s + width
}

proof fn lemma_outside_dates(t: Seq<char>, start: Ymd, end: Ymd, p: int)
    requires
        is_plain(start),
        is_plain(end),
        0 <= p < t.len(),
        !in_date(t, p),
    ensures
        rewrite::iso_moved(t, start, end)[p] == t[p],
{
    let starts = rewrite::iso_starts(t, t.len() as int);
    rewrite::lemma_iso_starts(t, t.len() as int);
    lemma_dates_refilled(t, start, end);
    assert forall|k: int| !in_span(starts, 10, k, p) by {
        if in_span(starts, 10, k, p) {
            assert(rewrite::iso_at(t, starts[k]));
        }
    }
    assert(untouched(starts, 10, p));
}

proof fn lemma_outside_times(t: Seq<char>, width: int, first: int, last: int, p: int)
    requires
        is_stamp(first, width),
        is_stamp(last, width),
        0 <= p < t.len(),
        !in_time(t, width, p),
    ensures
        rewrite::epoch_moved(t, width, first, last)[p] == t[p],
{
    let starts = rewrite::epoch_starts(t, width, t.len() as int);
    rewrite::lemma_epoch_starts(t, width, t.len() as int);
    lemma_times_refilled(t, width, first, last);
    assert forall|k: int| !in_span(starts, width, k, p) by {
        if in_span(starts, width, k, p) {
            assert(rewrite::epoch_at(t, width, starts[k]));
        }
    }
    assert(untouched(starts, width, p));
}

/// What belongs neither to a date nor to a Unix time stays in its place when a text is moved
/// into a usual range.
pub proof fn law_rest_kept(t: Seq<char>, start: Ymd, end: Ymd, p: int)
    requires
        is_usual_range(start, end),
        0 <= p < t.len(),
        !in_date(t, p),
        !in_time(t, 13, p),
        !in_time(t, 10, p),
    ensures
        rewrite::dates_moved(t, start, end).len() == t.len(),
        rewrite::dates_moved(t, start, end)[p] == t[p],
{
    let first = start.day_number() * 86_400;
    let last = (end.day_number() + 1) * 86_400;
    let a = rewrite::iso_moved(t, start, end);
    let b = rewrite::epoch_moved(a, 13, first * 1000, last * 1000);
    law_dates_in_range(t, start, end);
    law_times_in_range(a, 13, first * 1000, last * 1000);
    law_times_in_range(b, 10, first, last);
    assert(!in_time(a, 13, p)) by {
        if in_time(a, 13, p) {
            let s = choose|s: int| #[trigger] rewrite::epoch_at(a, 13, s) && s <= p < s + 13;
            lemma_dates_leave_times(t, start, end, 13, s);
        }
    }
    assert(!in_time(b, 10, p)) by {
        if in_time(b, 10, p) {
            let s = choose|s: int| #[trigger] rewrite::epoch_at(b, 10, s) && s <= p < s + 10;
            lemma_times_leave_times(a, 13, first * 1000, last * 1000, 10, s);
            lemma_dates_leave_times(t, start, end, 10, s);
        }
    }
    lemma_outside_dates(t, start, end, p);
    lemma_outside_times(a, 13, first * 1000, last * 1000, p);
    lemma_outside_times(b, 10, first, last, p);
}

/// After a text is moved into a usual range, dates and Unix times stand where they stood
/// before and nowhere else, each of them is the start or the end of the range, and what belongs
/// to none of them is as it was.
pub proof fn law_text_in_range(t: Seq<char>, start: Ymd, end: Ymd, i: int)
    requires
        is_usual_range(start, end),
    ensures
        ({
            let u = rewrite::dates_moved(t, start, end);
            let first = start.day_number() * 86_400;
            let last = (end.day_number() + 1) * 86_400;
            &&& u.len() == t.len()
            &&& rewrite::iso_at(u, i) <==> rewrite::iso_at(t, i)
            &&& rewrite::epoch_at(u, 13, i) <==> rewrite::epoch_at(t, 13, i)
            &&& rewrite::epoch_at(u, 10, i) <==> rewrite::epoch_at(t, 10, i)
            &&& rewrite::iso_at(u, i)
                ==> date::date_value(u.skip(i)) == Some(start) || date::date_value(
                u.skip(i),
            ) == Some(end)
            &&& rewrite::iso_at(u, i) ==> u.subrange(i, i + 10) == date::date_text(start)
                || u.subrange(i, i + 10) == date::date_text(end)
            &&& rewrite::epoch_at(u, 13, i)
                ==> u.subrange(i, i + 13) == text::int_text(first * 1000)
                || u.subrange(i, i + 13) == text::int_text(last * 1000)
            &&& rewrite::epoch_at(u, 10, i) ==> u.subrange(i, i + 10) == text::int_text(first)
                || u.subrange(i, i + 10) == text::int_text(last)
            &&& 0 <= i < t.len() && !in_date(t, i) && !in_time(t, 13, i) && !in_time(t, 10, i)
                ==> u[i] == t[i]
        }),
{
    let first = start.day_number() * 86_400;
    let last = (end.day_number() + 1) * 86_400;
    let a = rewrite::iso_moved(t, start, end);
    let b = rewrite::epoch_moved(a, 13, first * 1000, last * 1000);
    let c = rewrite::epoch_moved(b, 10, first, last);
    law_dates_in_range(t, start, end);
    law_times_in_range(a, 13, first * 1000, last * 1000);
    law_times_in_range(b, 10, first, last);
    if rewrite::iso_at(c, i) || rewrite::iso_at(b, i) {
        lemma_times_leave_dates(b, 10, first, last, i);
    }
    if rewrite::iso_at(b, i) || rewrite::iso_at(a, i) {
        lemma_times_leave_dates(a, 13, first * 1000, last * 1000, i);
        lemma_times_leave_dates(b, 10, first, last, i);
    }
    if rewrite::epoch_at(c, 13, i) || rewrite::epoch_at(b, 13, i) {
        lemma_times_leave_times(b, 10, first, last, 13, i);
    }
    if rewrite::epoch_at(a, 13, i) || rewrite::epoch_at(t, 13, i) {
        lemma_dates_leave_times(t, start, end, 13, i);
    }
    if rewrite::epoch_at(b, 10, i) || rewrite::epoch_at(a, 10, i) {
        lemma_times_leave_times(a, 13, first * 1000, last * 1000, 10, i);
    }
    if rewrite::epoch_at(a, 10, i) || rewrite::epoch_at(t, 10, i) {
        lemma_dates_leave_times(t, start, end, 10, i);
    }
    if 0 <= i < t.len() && !in_date(t, i) && !in_time(t, 13, i) && !in_time(t, 10, i) {
        law_rest_kept(t, start, end, i);
    }
}

/// Where moving the dates of `x` changes nothing, it changes nothing of a text that has the
/// same dates at the same places.
proof fn lemma_dates_still(x: Seq<char>, w: Seq<char>, start: Ymd, end: Ymd)
    requires
        is_plain(start),
        is_plain(end),
        rewrite::iso_moved(x, start, end) == x,
        w.len() == x.len(),
        forall|i: int| #[trigger] rewrite::iso_at(w, i) <==> rewrite::iso_at(x, i),
        forall|i: int| #[trigger]
            rewrite::iso_at(x, i) ==> w.subrange(i, i + 10) == x.subrange(i, i + 10)
                && date::date_value(w.skip(i)) == date::date_value(x.skip(i)),
    ensures
        rewrite::iso_moved(w, start, end) == w,
{
    let n = x.len() as int;
    let v = rewrite::iso_moved(w, start, end);
    let starts = rewrite::iso_starts(x, n);
    lemma_same_starts(x, w, n);
    rewrite::lemma_iso_starts(x, n);
    lemma_dates_refilled(x, start, end);
    lemma_dates_refilled(w, start, end);
    assert forall|k: int| 0 <= k < starts.len() implies #[trigger] rewrite::iso_days(w)[k]
        == rewrite::iso_days(x)[k] by {
        assert(rewrite::iso_at(x, starts[k]));
    }
    assert(rewrite::iso_days(w) =~= rewrite::iso_days(x));
    let with = rewrite::fills(rewrite::iso_days(x), date::date_text(start), date::date_text(end));
    assert forall|p: int| 0 <= p < w.len() implies v[p] == w[p] by {
        if untouched(starts, 10, p) {
            assert(v[p] == w[p]);
        } else {
            let k = choose|k: int| in_span(starts, 10, k, p);
            let s = starts[k];
            let q = p - s;
            assert(rewrite::iso_at(x, s));
            assert(with[k][q] == x[s + q]);
            assert(with[k][q] == v[s + q]);
            assert(w.subrange(s, s + 10)[q] == x.subrange(s, s + 10)[q]);
        }
    }
    assert(v =~= w);
}

/// Where moving the Unix times of `x` changes nothing, it changes nothing of a text that has
/// the same times at the same places.
proof fn lemma_times_still(x: Seq<char>, w: Seq<char>, width: int, first: int, last: int)
    requires
        is_stamp(first, width),
        is_stamp(last, width),
        rewrite::epoch_moved(x, width, first, last) == x,
        w.len() == x.len(),
        forall|i: int| #[trigger] rewrite::epoch_at(w, width, i)
            <==> rewrite::epoch_at(x, width, i),
        forall|i: int| #[trigger]
            rewrite::epoch_at(x, width, i) ==> w.subrange(i, i + width) == x.subrange(
                i,
                i + width,
            ),
    ensures
        rewrite::epoch_moved(w, width, first, last) == w,
{
    let n = x.len() as int;
    let v = rewrite::epoch_moved(w, width, first, last);
    let starts = rewrite::epoch_starts(x, width, n);
    lemma_stamp(first, width);
    lemma_same_epoch_starts(x, w, width, n);
    rewrite::lemma_epoch_starts(x, width, n);
    lemma_times_refilled(x, width, first, last);
    lemma_times_refilled(w, width, first, last);
    assert forall|k: int| 0 <= k < starts.len() implies #[trigger] rewrite::epoch_times(w, width)[k]
        == rewrite::epoch_times(x, width)[k] by {
        assert(rewrite::epoch_at(x, width, starts[k]));
    }
    assert(rewrite::epoch_times(w, width) =~= rewrite::epoch_times(x, width));
    let with = rewrite::fills(
        rewrite::epoch_times(x, width),
        text::int_text(first),
        text::int_text(last),
    );
    assert forall|p: int| 0 <= p < w.len() implies v[p] == w[p] by {
        if untouched(starts, width, p) {
            assert(v[p] == w[p]);
        } else {
            let k = choose|k: int| in_span(starts, width, k, p);
            let s = starts[k];
            let q = p - s;
            assert(rewrite::epoch_at(x, width, s));
            assert(with[k][q] == x[s + q]);
            assert(with[k][q] == v[s + q]);
            assert(w.subrange(s, s + width)[q] == x.subrange(s, s + width)[q]);
        }
    }
    assert(v =~= w);
}

/// What holds of moving dates also holds after Unix times were moved.
proof fn lemma_dates_still_after_times(
    x: Seq<char>,
    start: Ymd,
    end: Ymd,
    width: int,
    first: int,
    last: int,
)
    requires
        is_plain(start),
        is_plain(end),
        is_stamp(first, width),
        is_stamp(last, width),
        5 <= width,
        rewrite::iso_moved(x, start, end) == x,
    ensures
        ({
            let w = rewrite::epoch_moved(x, width, first, last);
            rewrite::iso_moved(w, start, end) == w
        }),
{
    let w = rewrite::epoch_moved(x, width, first, last);
    law_times_in_range(x, width, first, last);
    assert forall|i: int| #[trigger] rewrite::iso_at(w, i) <==> rewrite::iso_at(x, i) by {
        if rewrite::iso_at(w, i) || rewrite::iso_at(x, i) {
            lemma_times_leave_dates(x, width, first, last, i);
        }
    }
    assert forall|i: int| #[trigger] rewrite::iso_at(x, i) implies w.subrange(i, i + 10)
        == x.subrange(i, i + 10) && date::date_value(w.skip(i)) == date::date_value(x.skip(i)) by {
        lemma_times_leave_dates(x, width, first, last, i);
    }
    lemma_dates_still(x, w, start, end);
}

/// What holds of moving Unix times of one width also holds after those of another were moved.
proof fn lemma_times_still_after_times(
    x: Seq<char>,
    other: int,
    a: int,
    b: int,
    width: int,
    first: int,
    last: int,
)
    requires
        is_stamp(a, other),
        is_stamp(b, other),
        is_stamp(first, width),
        is_stamp(last, width),
        other != width,
        rewrite::epoch_moved(x, other, a, b) == x,
    ensures
        ({
            let w = rewrite::epoch_moved(x, width, first, last);
            rewrite::epoch_moved(w, other, a, b) == w
        }),
{
    let w = rewrite::epoch_moved(x, width, first, last);
    law_times_in_range(x, width, first, last);
    assert forall|i: int| #[trigger] rewrite::epoch_at(w, other, i)
        <==> rewrite::epoch_at(x, other, i) by {
        if rewrite::epoch_at(w, other, i) || rewrite::epoch_at(x, other, i) {
            lemma_times_leave_times(x, width, first, last, other, i);
        }
    }
    assert forall|i: int| #[trigger] rewrite::epoch_at(x, other, i) implies w.subrange(
        i,
        i + other,
    ) == x.subrange(i, i + other) by {
        lemma_times_leave_times(x, width, first, last, other, i);
    }
    lemma_times_still(x, w, other, a, b);
}

/// A text that was moved into a usual range stays as it is when it is moved into it again.
pub proof fn law_text_settled(t: Seq<char>, start: Ymd, end: Ymd)
    requires
        is_usual_range(start, end),
        start.is_valid(),
        end.is_valid(),
        start.day_number() <= end.day_number(),
    ensures
        rewrite::dates_moved(rewrite::dates_moved(t, start, end), start, end)
            == rewrite::dates_moved(t, start, end),
{
    let first = start.day_number() * 86_400;
    let last = (end.day_number() + 1) * 86_400;
    let a = rewrite::iso_moved(t, start, end);
    let b = rewrite::epoch_moved(a, 13, first * 1000, last * 1000);
    law_dates_settled(t, start, end);
    law_times_settled(a, 13, first * 1000, last * 1000);
    law_times_settled(b, 10, first, last);
    lemma_dates_still_after_times(a, start, end, 13, first * 1000, last * 1000);
    lemma_dates_still_after_times(b, start, end, 10, first, last);
    lemma_times_still_after_times(b, 13, first * 1000, last * 1000, 10, first, last);
}

// ───────── which becomes the start and which the end ─────────

/// The day of the date that stands at `i`.
pub open spec fn day_at(t: Seq<char>, i: int) -> int {
    date::date_value(t.skip(i))->Some_0.day_number()
}

/// The Unix time of `width` digits that stands at `i`.
pub open spec fn time_at(t: Seq<char>, width: int, i: int) -> int {
    text::int_value(t.subrange(i, i + width))->Some_0 as int
}

/// Of the dates in a text one at `lo` is the earliest and one at `hi` the latest.
pub open spec fn dates_from_to(t: Seq<char>, lo: int, hi: int) -> bool {
    &&& rewrite::iso_at(t, lo)
    &&& rewrite::iso_at(t, hi)
    &&& forall|j: int| #[trigger]
        rewrite::iso_at(t, j) ==> day_at(t, lo) <= day_at(t, j) <= day_at(t, hi)
}

/// Of the Unix times in a text one at `lo` is the earliest and one at `hi` the latest.
pub open spec fn times_from_to(t: Seq<char>, width: int, lo: int, hi: int) -> bool {
    &&& rewrite::epoch_at(t, width, lo)
    &&& rewrite::epoch_at(t, width, hi)
    &&& forall|j: int| #[trigger]
        rewrite::epoch_at(t, width, j) ==> time_at(t, width, lo) <= time_at(t, width, j) <= time_at(
            t,
            width,
            hi,
        )
}

proof fn lemma_date_side(t: Seq<char>, lo: int, hi: int, i: int)
    requires
        dates_from_to(t, lo, hi),
        rewrite::iso_at(t, i),
    ensures
        rewrite::goes_to_end(rewrite::iso_days(t), day_at(t, i)) <==> day_at(t, lo) == day_at(t, hi)
            || day_at(t, hi) - day_at(t, i) < day_at(t, i) - day_at(t, lo),
{
    let n = t.len() as int;
    let starts = rewrite::iso_starts(t, n);
    let days = rewrite::iso_days(t);
    rewrite::lemma_iso_starts(t, n);
    let a = lemma_date_listed(t, n, lo);
    let b = lemma_date_listed(t, n, hi);
    lemma_bounds(days, a);
    lemma_bounds(days, b);
    let x = choose|x: int| 0 <= x < days.len() && days[x] == rewrite::lowest(days);
    let y = choose|y: int| 0 <= y < days.len() && days[y] == rewrite::highest(days);
    assert(rewrite::iso_at(t, starts[x]) && rewrite::iso_at(t, starts[y]));
    assert(days[x] == day_at(t, starts[x]) && days[y] == day_at(t, starts[y]));
    assert(days[a] == day_at(t, lo) && days[b] == day_at(t, hi));
}

proof fn lemma_time_side(t: Seq<char>, width: int, lo: int, hi: int, i: int)
    requires
        times_from_to(t, width, lo, hi),
        rewrite::epoch_at(t, width, i),
    ensures
        rewrite::goes_to_end(rewrite::epoch_times(t, width), time_at(t, width, i)) <==> time_at(
            t,
            width,
            lo,
        ) == time_at(t, width, hi) || time_at(t, width, hi) - time_at(t, width, i) < time_at(
            t,
            width,
            i,
        ) - time_at(t, width, lo),
{
    let n = t.len() as int;
    let starts = rewrite::epoch_starts(t, width, n);
    let times = rewrite::epoch_times(t, width);
    rewrite::lemma_epoch_starts(t, width, n);
    let a = lemma_time_listed(t, width, n, lo);
    let b = lemma_time_listed(t, width, n, hi);
    lemma_bounds(times, a);
    lemma_bounds(times, b);
    let x = choose|x: int| 0 <= x < times.len() && times[x] == rewrite::lowest(times);
    let y = choose|y: int| 0 <= y < times.len() && times[y] == rewrite::highest(times);
    assert(rewrite::epoch_at(t, width, starts[x]) && rewrite::epoch_at(t, width, starts[y]));
    assert(times[x] == time_at(t, width, starts[x]) && times[y] == time_at(t, width, starts[y]));
    assert(times[a] == time_at(t, width, lo) && times[b] == time_at(t, width, hi));
}

/// In a text that is moved into a usual range the latest date becomes the end, an earliest one
/// that is earlier the start, and one between them becomes the one of the two that it lies nearer
/// to, the start where it lies in the middle.
pub proof fn law_dates_to_nearer_end(
    t: Seq<char>,
    start: Ymd,
    end: Ymd,
    lo: int,
    hi: int,
    i: int,
)
    requires
        is_usual_range(start, end),
        dates_from_to(t, lo, hi),
        rewrite::iso_at(t, i),
    ensures
        ({
            let s = rewrite::dates_moved(t, start, end).subrange(i, i + 10);
            &&& day_at(t, i) == day_at(t, hi) ==> s == date::date_text(end)
            &&& day_at(t, i) == day_at(t, lo) < day_at(t, hi) ==> s == date::date_text(start)
            &&& day_at(t, hi) - day_at(t, i) < day_at(t, i) - day_at(t, lo) ==> s
                == date::date_text(end)
            &&& day_at(t, lo) < day_at(t, hi) && day_at(t, hi) - day_at(t, i) >= day_at(t, i)
                - day_at(t, lo) ==> s == date::date_text(start)
        }),
{
    let first = start.day_number() * 86_400;
    let last = (end.day_number() + 1) * 86_400;
    let a = rewrite::iso_moved(t, start, end);
    let b = rewrite::epoch_moved(a, 13, first * 1000, last * 1000);
    lemma_date_side(t, lo, hi, i);
    lemma_date_moved(t, start, end, i);
    lemma_times_leave_dates(a, 13, first * 1000, last * 1000, i);
    lemma_times_leave_dates(b, 10, first, last, i);
}

proof fn lemma_same_times(t: Seq<char>, u: Seq<char>, width: int, lo: int, hi: int)
    requires
        times_from_to(t, width, lo, hi),
        forall|j: int| #[trigger]
            rewrite::epoch_at(u, width, j) ==> rewrite::epoch_at(t, width, j) && u.subrange(
                j,
                j + width,
            ) == t.subrange(j, j + width),
        rewrite::epoch_at(u, width, lo),
        rewrite::epoch_at(u, width, hi),
    ensures
        times_from_to(u, width, lo, hi),
{
    assert forall|j: int| #[trigger] rewrite::epoch_at(u, width, j) implies time_at(u, width, lo)
        <= time_at(u, width, j) <= time_at(u, width, hi) by {
        assert(rewrite::epoch_at(t, width, j));
    }
}

/// So it is with the Unix times in milliseconds: the latest becomes the midnight after the end,
/// an earliest one that is earlier the midnight at which the start begins, and one between them
/// becomes the one that it lies nearer to.
pub proof fn law_milliseconds_to_nearer_end(
    t: Seq<char>,
    start: Ymd,
    end: Ymd,
    lo: int,
    hi: int,
    i: int,
)
    requires
        is_usual_range(start, end),
        times_from_to(t, 13, lo, hi),
        rewrite::epoch_at(t, 13, i),
    ensures
        ({
            let s = rewrite::dates_moved(t, start, end).subrange(i, i + 13);
            let first = text::int_text(start.day_number() * 86_400_000);
            let last = text::int_text((end.day_number() + 1) * 86_400_000);
            let (a, b, v) = (time_at(t, 13, lo), time_at(t, 13, hi), time_at(t, 13, i));
            &&& v == b ==> s == last
            &&& v == a < b ==> s == first
            &&& b - v < v - a ==> s == last
            &&& a < b && b - v >= v - a ==> s == first
        }),
{
    let first = start.day_number() * 86_400;
    let last = (end.day_number() + 1) * 86_400;
    let a = rewrite::iso_moved(t, start, end);
    let b = rewrite::epoch_moved(a, 13, first * 1000, last * 1000);
    assert forall|j: int| #[trigger] rewrite::epoch_at(a, 13, j) implies rewrite::epoch_at(t, 13, j)
        && a.subrange(j, j + 13) == t.subrange(j, j + 13) by {
        lemma_dates_leave_times(t, start, end, 13, j);
    }
    lemma_dates_leave_times(t, start, end, 13, lo);
    lemma_dates_leave_times(t, start, end, 13, hi);
    lemma_dates_leave_times(t, start, end, 13, i);
    lemma_same_times(t, a, 13, lo, hi);
    lemma_time_side(a, 13, lo, hi, i);
    lemma_time_moved(a, 13, first * 1000, last * 1000, i);
    lemma_times_leave_times(b, 10, first, last, 13, i);
}

/// And so it is with the Unix times in seconds.
pub proof fn law_seconds_to_nearer_end(
    t: Seq<char>,
    start: Ymd,
    end: Ymd,
    lo: int,
    hi: int,
    i: int,
)
    requires
        is_usual_range(start, end),
        times_from_to(t, 10, lo, hi),
        rewrite::epoch_at(t, 10, i),
    ensures
        ({
            let s = rewrite::dates_moved(t, start, end).subrange(i, i + 10);
            let first = text::int_text(start.day_number() * 86_400);
            let last = text::int_text((end.day_number() + 1) * 86_400);
            let (a, b, v) = (time_at(t, 10, lo), time_at(t, 10, hi), time_at(t, 10, i));
            &&& v == b ==> s == last
            &&& v == a < b ==> s == first
            &&& b - v < v - a ==> s == last
            &&& a < b && b - v >= v - a ==> s == first
        }),
{
    let first = start.day_number() * 86_400;
    let last = (end.day_number() + 1) * 86_400;
    let a = rewrite::iso_moved(t, start, end);
    let b = rewrite::epoch_moved(a, 13, first * 1000, last * 1000);
    assert forall|j: int| #[trigger] rewrite::epoch_at(b, 10, j) implies rewrite::epoch_at(t, 10, j)
        && b.subrange(j, j + 10) == t.subrange(j, j + 10) by {
        lemma_times_leave_times(a, 13, first * 1000, last * 1000, 10, j);
        lemma_dates_leave_times(t, start, end, 10, j);
    }
    lemma_dates_leave_times(t, start, end, 10, lo);
    lemma_dates_leave_times(t, start, end, 10, hi);
    lemma_dates_leave_times(t, start, end, 10, i);
    lemma_times_leave_times(a, 13, first * 1000, last * 1000, 10, lo);
    lemma_times_leave_times(a, 13, first * 1000, last * 1000, 10, hi);
    lemma_times_leave_times(a, 13, first * 1000, last * 1000, 10, i);
    lemma_same_times(t, b, 10, lo, hi);
    lemma_time_side(b, 10, lo, hi, i);
    lemma_time_moved(b, 10, first, last, i);
}

/// A date stands where four digits, `-` or `/`, a month, `-` or `/` and a day stand, with no
/// digit right before them nor right behind them.
pub proof fn law_where_dates_stand(t: Seq<char>, i: int)
    ensures
        rewrite::iso_at(t, i) <==> {
            &&& 0 <= i
            &&& i + 10 <= t.len()
            &&& i > 0 ==> !text::is_digit(t[i - 1])
            &&& i + 10 < t.len() ==> !text::is_digit(t[i + 10])
            &&& forall|k: int| i <= k < i + 4 ==> text::is_digit(#[trigger] t[k])
            &&& date::date_value(t.subrange(i, i + 10)) is Some
        },
{
    if 0 <= i && i + 10 <= t.len() {
        let s = t.subrange(i, i + 10);
        assert(t.skip(i).subrange(0, 4) =~= s.subrange(0, 4));
        assert(t.skip(i).subrange(5, 7) =~= s.subrange(5, 7));
        assert(t.skip(i).subrange(8, 10) =~= s.subrange(8, 10));
        if forall|k: int| i <= k < i + 4 ==> text::is_digit(#[trigger] t[k]) {
            assert(text::is_digit(t[i]) && text::is_digit(t[i + 1]));
            assert(text::is_digit(t[i + 2]) && text::is_digit(t[i + 3]));
        }
    }
}

/// A Unix time stands where a run of 10 digits, or of 13, begins with 1.
pub proof fn law_where_times_stand(t: Seq<char>, width: int, i: int)
    requires
        width == 10 || width == 13,
    ensures
        rewrite::epoch_at(t, width, i) <==> {
            &&& 0 <= i
            &&& i + width <= t.len()
            &&& t[i] == '1'
            &&& i > 0 ==> !text::is_digit(t[i - 1])
            &&& i + width < t.len() ==> !text::is_digit(t[i + width])
            &&& forall|k: int| i <= k < i + width ==> text::is_digit(#[trigger] t[k])
        },
{
    if 0 <= i && i + width <= t.len() {
        let s = t.subrange(i, i + width);
        if text::all_digits(s) {
            assert forall|k: int| i <= k < i + width implies text::is_digit(#[trigger] t[k]) by {
                assert(s[k - i] == t[k]);
            }
        }
        if forall|k: int| i <= k < i + width ==> text::is_digit(#[trigger] t[k]) {
            assert forall|k: int| 0 <= k < s.len() implies text::is_digit(#[trigger] s[k]) by {
                assert(s[k] == t[i + k]);
            }
            lemma_short_number(s);
        }
    }
}

/// A number of at most 13 digits can be held.
proof fn lemma_short_number(s: Seq<char>)
    requires
        0 < s.len() <= 13,
        text::all_digits(s),
    ensures
        text::int_value(s) is Some,
{
    reveal_with_fuel(tens, 14);
    lemma_below_tens(s);
    assert(tens(13) == 10_000_000_000_000);
    lemma_tens_grow(s.len(), 13);
    assert(text::is_digit(s[0]));
}

proof fn lemma_below_tens(s: Seq<char>)
    requires
        text::all_digits(s),
    ensures
        text::nat_value(s) < tens(s.len()),
    decreases s.len(),
{
    if s.len() > 0 {
        assert(text::all_digits(s.drop_last()));
        lemma_below_tens(s.drop_last());
        assert(text::is_digit(s.last()));
    }
}

proof fn lemma_tens_grow(a: nat, b: nat)
    requires
        a <= b,
    ensures
        tens(a) <= tens(b),
    decreases b,
{
    if a < b {
        lemma_tens_grow(a, (b - 1) as nat);
        lemma_tens_positive((b - 1) as nat);
    }
}

}
