//! What stays in its place when dates and times are moved.

use crate::date;
use crate::date::Ymd;
use crate::moved;
use crate::rewrite;
use crate::text;
use vstd::prelude::*;

verus! {

// ───────── text that is no part of a date ─────────

/// A character that a date or a Unix time may hold.
pub open spec fn is_date_char(c: char) -> bool {
    text::is_digit(c) || date::is_separator(c) || text::is_sign(c)
}

/// A text that neither begins like a part of a date nor holds two digits in a row nor ends
/// in a digit. (No date has `//` in it.)
pub open spec fn is_fixed(p: Seq<char>) -> bool {
    &&& p.len() > 0
    &&& !is_date_char(p[0]) || p.len() >= 2 && p[0] == '/' && p[1] == '/'
    &&& forall|q: int|
        0 <= q < p.len() && text::is_digit(#[trigger] p[q]) ==> q + 1 < p.len() && !text::is_digit(
            p[q + 1],
        )
}

proof fn lemma_two_chars(s: Seq<char>)
    requires
        s.len() == 2,
        text::int_value(s) is Some,
    ensures
        text::is_digit(s[0]) || text::is_sign(s[0]),
        text::is_digit(s[1]),
{
    let b = text::unsigned(s);
    assert(text::is_digit(b[b.len() - 1]));
    if b.len() == 2 {
        assert(text::is_digit(b[0]));
    } else {
        assert(b[0] == s[1]);
    }
}

proof fn lemma_date_chars(t: Seq<char>, s: int, p: int)
    requires
        rewrite::iso_at(t, s),
        s <= p < s + 10,
    ensures
        is_date_char(t[p]),
        t[p] == '/' ==> p + 1 < s + 10 && t[p + 1] != '/',
{
    let d = t.skip(s);
    let m = d.subrange(5, 7);
    let y = d.subrange(8, 10);
    assert(d[4] == t[s + 4] && d[7] == t[s + 7]);
    lemma_two_chars(m);
    lemma_two_chars(y);
    assert(m[0] == t[s + 5] && m[1] == t[s + 6] && y[0] == t[s + 8] && y[1] == t[s + 9]);
}

/// A fixed text that stands at `k` and the two digits that a date or a time at `s` begins with
/// do not meet, unless `s` comes before `k`.
proof fn lemma_fixed_apart(t: Seq<char>, p: Seq<char>, k: int, s: int)
    requires
        is_fixed(p),
        text::occurs_at(t, p, k),
        rewrite::digit_at(t, s),
        rewrite::digit_at(t, s + 1),
    ensures
        s < k || k + p.len() <= s,
{
    let v = t.subrange(k, k + p.len());
    if k <= s < k + p.len() {
        assert(v[s - k] == t[s]);
        assert(text::is_digit(p[s - k]));
        assert(v[s - k + 1] == t[s + 1]);
    }
}

proof fn lemma_fixed_apart_from_date(t: Seq<char>, p: Seq<char>, k: int, s: int)
    requires
        is_fixed(p),
        text::occurs_at(t, p, k),
        rewrite::iso_at(t, s),
    ensures
        s + 10 <= k || k + p.len() <= s,
{
    assert(rewrite::digit_at(t, s) && rewrite::digit_at(t, s + 1));
    lemma_fixed_apart(t, p, k, s);
    if s < k < s + 10 {
        lemma_date_chars(t, s, k);
        assert(t.subrange(k, k + p.len())[0] == t[k]);
        if p[0] == '/' {
            assert(t.subrange(k, k + p.len())[1] == t[k + 1]);
        }
    }
}

proof fn lemma_fixed_apart_from_time(t: Seq<char>, width: int, p: Seq<char>, k: int, s: int)
    requires
        width >= 2,
        is_fixed(p),
        text::occurs_at(t, p, k),
        rewrite::epoch_at(t, width, s),
    ensures
        s + width <= k || k + p.len() <= s,
{
    moved::lemma_time_digits(t, width, s, s);
    moved::lemma_time_digits(t, width, s, s + 1);
    lemma_fixed_apart(t, p, k, s);
    if s < k < s + width {
        moved::lemma_time_digits(t, width, s, k);
        assert(t.subrange(k, k + p.len())[0] == t[k]);
    }
}

// ───────── where it goes ─────────

proof fn lemma_filled_prefix(
    t: Seq<char>,
    starts: Seq<int>,
    width: int,
    with: Seq<Seq<char>>,
    a: int,
    b: int,
)
    requires
        0 <= a <= b,
    ensures
        rewrite::filled(t, starts, width, with, a).len() <= rewrite::filled(t, starts, width,
            with, b).len(),
        rewrite::filled(t, starts, width, with, b).take(
            rewrite::filled(t, starts, width, with, a).len() as int,
        ) == rewrite::filled(t, starts, width, with, a),
    decreases b,
{
    let x = rewrite::filled(t, starts, width, with, a);
    if a == b {
        assert(x.take(x.len() as int) =~= x);
    } else {
        lemma_filled_prefix(t, starts, width, with, a, b - 1);
        let y = rewrite::filled(t, starts, width, with, b - 1);
        let z = rewrite::filled(t, starts, width, with, b);
        assert(z.take(x.len() as int) =~= y.take(x.len() as int));
    }
}

/// The number of spans that end at `k` or before it, given that none of those from `m` on
/// holds it.
proof fn lemma_gap(
    t: Seq<char>,
    starts: Seq<int>,
    width: int,
    k: int,
    len: int,
    m: int,
) -> (r: int)
    requires
        rewrite::in_line(t, starts, width),
        0 <= m <= starts.len(),
        rewrite::cut(starts, width, m) <= k,
        forall|j: int|
            0 <= j < starts.len() ==> (#[trigger] starts[j]) + width <= k || k + len <= starts[j],
    ensures
        m <= r <= starts.len(),
        rewrite::cut(starts, width, r) <= k,
        r < starts.len() ==> k + len <= starts[r],
    decreases starts.len() - m,
{
    if m < starts.len() && starts[m] + width <= k {
        lemma_gap(t, starts, width, k, len, m + 1)
    } else {
        m
    }
}

/// What stands in a part of a text stands in the text.
proof fn lemma_occurs_in_part(u: Seq<char>, from: int, to: int, p: Seq<char>, k: int)
    requires
        0 <= from <= to <= u.len(),
        text::occurs_at(u.subrange(from, to), p, k),
    ensures
        text::occurs_at(u, p, from + k),
{
    assert(u.subrange(from, to).subrange(k, k + p.len())
        =~= u.subrange(from + k, from + k + p.len()));
}

/// The part of a text that begins before and ends behind what stands in it holds it too.
proof fn lemma_part_holds(t: Seq<char>, from: int, to: int, p: Seq<char>, k: int)
    requires
        0 <= from <= k,
        k + p.len() <= to <= t.len(),
        text::occurs_at(t, p, k),
    ensures
        text::occurs_at(t.subrange(from, to), p, k - from),
{
    assert(t.subrange(from, to).subrange(k - from, k - from + p.len()) =~= t.subrange(
        k,
        k + p.len(),
    ));
}

/// The text before a span stands unchanged in the rewritten text.
proof fn lemma_before_span(
    t: Seq<char>,
    starts: Seq<int>,
    width: int,
    with: Seq<Seq<char>>,
    m: int,
)
    requires
        0 <= m < starts.len(),
        0 <= rewrite::cut(starts, width, m) <= starts[m] <= t.len(),
    ensures
        ({
            let u = rewrite::spliced(t, starts, width, with);
            let at = rewrite::filled(t, starts, width, with, m).len() as int;
            let c = rewrite::cut(starts, width, m);
            &&& at + (starts[m] - c) <= u.len()
            &&& u.subrange(at, at + (starts[m] - c)) == t.subrange(c, starts[m])
        }),
{
    let u = rewrite::spliced(t, starts, width, with);
    let head = rewrite::filled(t, starts, width, with, m);
    let next = rewrite::filled(t, starts, width, with, m + 1);
    let all = rewrite::filled(t, starts, width, with, starts.len() as int);
    let part = t.subrange(rewrite::cut(starts, width, m), starts[m]);
    let at = head.len() as int;
    lemma_filled_prefix(t, starts, width, with, m + 1, starts.len() as int);
    assert(next == head + part + with[m]);
    assert(u.subrange(at, at + part.len()) =~= all.take(next.len() as int).subrange(
        at,
        at + part.len(),
    ));
    assert(next.subrange(at, at + part.len()) =~= part);
}

/// Where position `k`, behind `m` spans, goes.
spec fn image(
    t: Seq<char>,
    starts: Seq<int>,
    width: int,
    with: Seq<Seq<char>>,
    m: int,
    k: int,
) -> int {
    rewrite::filled(t, starts, width, with, m).len() + k - rewrite::cut(starts, width, m)
}

/// Position `k` lies behind `m` spans and before the others.
spec fn lies_behind(t: Seq<char>, starts: Seq<int>, width: int, m: int, k: int) -> bool {
    &&& 0 <= m <= starts.len()
    &&& rewrite::cut(starts, width, m) <= k <= t.len()
    &&& m < starts.len() ==> k <= starts[m]
}

/// What no span holds a part of stands in the rewritten text too.
proof fn lemma_stands(
    t: Seq<char>,
    starts: Seq<int>,
    width: int,
    with: Seq<Seq<char>>,
    p: Seq<char>,
    k: int,
) -> (m: int)
    requires
        rewrite::in_line(t, starts, width),
        0 < width,
        with.len() == starts.len(),
        text::occurs_at(t, p, k),
        forall|j: int|
            0 <= j < starts.len() ==> (#[trigger] starts[j]) + width <= k || k + p.len()
                <= starts[j],
    ensures
        lies_behind(t, starts, width, m, k),
        lies_behind(t, starts, width, m, k + p.len()),
        text::occurs_at(
            rewrite::spliced(t, starts, width, with),
            p,
            image(t, starts, width, with, m, k),
        ),
        k == 0 ==> m == 0,
{
    let n = starts.len() as int;
    let m = lemma_gap(t, starts, width, k, p.len() as int, 0);
    let u = rewrite::spliced(t, starts, width, with);
    let c = rewrite::cut(starts, width, m);
    let at = rewrite::filled(t, starts, width, with, m).len() as int;
    if m > 0 {
        moved::lemma_earlier(t, starts, width, m - 1, m);
    }
    let to = if m < n {
        assert(c <= starts[m] && starts[m] + width <= t.len());
        lemma_before_span(t, starts, width, with, m);
        starts[m]
    } else {
        assert(u.subrange(at, u.len() as int) =~= t.subrange(c, t.len() as int));
        t.len() as int
    };
    assert(u.subrange(at, at + (to - c)) == t.subrange(c, to));
    lemma_part_holds(t, c, to, p, k);
    lemma_occurs_in_part(u, at, at + (to - c), p, k - c);
    m
}

/// What holds of every character from `a` on and before a span, and of what the spans are
/// filled with, holds of the rewritten text between.
proof fn lemma_filled_between(
    t: Seq<char>,
    starts: Seq<int>,
    width: int,
    with: Seq<Seq<char>>,
    first: int,
    a: int,
    m: int,
    ok: spec_fn(char) -> bool,
)
    requires
        rewrite::in_line(t, starts, width),
        with.len() == starts.len(),
        lies_behind(t, starts, width, first, a),
        first <= m <= starts.len(),
        forall|i: int| a <= i < rewrite::cut(starts, width, m) ==> ok(#[trigger] t[i]),
        forall|j: int, q: int|
            0 <= j < with.len() && 0 <= q < with[j].len() ==> ok(#[trigger] with[j][q]),
    ensures
        m > first ==> image(t, starts, width, with, first, a) <= rewrite::filled(
            t,
            starts,
            width,
            with,
            m,
        ).len(),
        forall|i: int|
            image(t, starts, width, with, first, a) <= i < rewrite::filled(
                t,
                starts,
                width,
                with,
                m,
            ).len() ==> ok(#[trigger] rewrite::filled(t, starts, width, with, m)[i]),
    decreases m,
{
    if m > first {
        let c = rewrite::cut(starts, width, m - 1);
        if m > 1 {
            moved::lemma_earlier(t, starts, width, m - 2, m - 1);
        }
        assert(0 <= c <= starts[m - 1] && starts[m - 1] + width <= t.len());
        lemma_filled_between(t, starts, width, with, first, a, m - 1, ok);
        if m - 1 > first {
            moved::lemma_earlier(t, starts, width, first, m - 1);
        }
        let was = rewrite::filled(t, starts, width, with, m - 1);
        let part = t.subrange(c, starts[m - 1]);
        let now = rewrite::filled(t, starts, width, with, m);
        let from = image(t, starts, width, with, first, a);
        assert forall|i: int| from <= i < now.len() implies ok(#[trigger] now[i]) by {
            if i < was.len() {
                assert(now[i] == was[i]);
            } else if i < was.len() + part.len() {
                assert(now[i] == t[c + i - was.len()]);
            } else {
                assert(now[i] == with[m - 1][i - was.len() - part.len()]);
            }
        }
    }
}

/// What holds of every character between two positions, and of what the spans are filled with,
/// holds of every character between the places where these go.
proof fn lemma_between(
    t: Seq<char>,
    starts: Seq<int>,
    width: int,
    with: Seq<Seq<char>>,
    m: int,
    a: int,
    n: int,
    b: int,
    ok: spec_fn(char) -> bool,
)
    requires
        rewrite::in_line(t, starts, width),
        0 < width,
        with.len() == starts.len(),
        lies_behind(t, starts, width, m, a),
        lies_behind(t, starts, width, n, b),
        a <= b,
        forall|i: int| a <= i < b ==> ok(#[trigger] t[i]),
        forall|j: int, q: int|
            0 <= j < with.len() && 0 <= q < with[j].len() ==> ok(#[trigger] with[j][q]),
    ensures
        image(t, starts, width, with, m, a) <= image(t, starts, width, with, n, b),
        forall|i: int|
            image(t, starts, width, with, m, a) <= i < image(t, starts, width, with, n, b) ==> ok(
                #[trigger] rewrite::spliced(t, starts, width, with)[i],
            ),
{
    let all = rewrite::filled(t, starts, width, with, starts.len() as int);
    let head = rewrite::filled(t, starts, width, with, n);
    let u = rewrite::spliced(t, starts, width, with);
    let at = head.len() as int;
    let c = rewrite::cut(starts, width, n);
    if n < m {
        moved::lemma_earlier(t, starts, width, n, m);
    }
    if n > 0 {
        moved::lemma_earlier(t, starts, width, n - 1, n);
    }
    lemma_filled_between(t, starts, width, with, m, a, n, ok);
    lemma_filled_prefix(t, starts, width, with, n, starts.len() as int);
    if m < n {
        moved::lemma_earlier(t, starts, width, m, n);
    }
    let to = if n < starts.len() {
        assert(c <= starts[n] && starts[n] + width <= t.len());
        lemma_before_span(t, starts, width, with, n);
        starts[n]
    } else {
        assert(u.subrange(at, u.len() as int) =~= t.subrange(c, t.len() as int));
        t.len() as int
    };
    assert forall|i: int|
        image(t, starts, width, with, m, a) <= i < image(t, starts, width, with, n, b) implies ok(
        #[trigger] u[i],
    ) by {
        if i < at {
            if 0 <= i {
                assert(all.take(at)[i] == head[i]);
            }
        } else {
            assert(u[i] == u.subrange(at, at + (to - c))[i - at]);
            assert(u[i] == t[c + i - at]);
        }
    }
}

/// Two texts that no span holds a part of stand in the rewritten text too, one behind the
/// other. What holds of the characters before and between them, and of what the spans are
/// filled with, holds there too.
proof fn lemma_kept(
    t: Seq<char>,
    starts: Seq<int>,
    width: int,
    with: Seq<Seq<char>>,
    p: Seq<char>,
    j: int,
    q: Seq<char>,
    k: int,
    ok: spec_fn(char) -> bool,
) -> (r: (int, int))
    requires
        rewrite::in_line(t, starts, width),
        0 < width,
        with.len() == starts.len(),
        text::occurs_at(t, p, j),
        text::occurs_at(t, q, k),
        j + p.len() <= k,
        forall|i: int|
            0 <= i < starts.len() ==> (#[trigger] starts[i]) + width <= j || j + p.len()
                <= starts[i],
        forall|i: int|
            0 <= i < starts.len() ==> (#[trigger] starts[i]) + width <= k || k + q.len()
                <= starts[i],
        all_ok(t, 0, j, ok),
        all_ok(t, j + p.len(), k, ok),
        forall|i: int, x: int|
            0 <= i < with.len() && 0 <= x < with[i].len() ==> ok(#[trigger] with[i][x]),
    ensures
        stand(rewrite::spliced(t, starts, width, with), p, r.0, q, r.1, ok),
        j == 0 ==> r.0 == 0,
        k == 0 ==> r.1 == 0,
{
    let m = lemma_stands(t, starts, width, with, p, j);
    let n = lemma_stands(t, starts, width, with, q, k);
    lemma_between(t, starts, width, with, 0, 0, m, j, ok);
    lemma_between(t, starts, width, with, m, j + p.len(), n, k, ok);
    (image(t, starts, width, with, m, j), image(t, starts, width, with, n, k))
}

/// `ok` holds of the characters from `a` on and before `b`.
pub open spec fn all_ok(t: Seq<char>, a: int, b: int, ok: spec_fn(char) -> bool) -> bool {
    forall|i: int| a <= i < b ==> ok(#[trigger] t[i])
}

/// `p` stands at `j` and `q` behind it at `k`, and `ok` holds of the characters before and
/// between them.
pub open spec fn stand(
    t: Seq<char>,
    p: Seq<char>,
    j: int,
    q: Seq<char>,
    k: int,
    ok: spec_fn(char) -> bool,
) -> bool {
    &&& text::occurs_at(t, p, j)
    &&& text::occurs_at(t, q, k)
    &&& j + p.len() <= k
    &&& all_ok(t, 0, j, ok)
    &&& all_ok(t, j + p.len(), k, ok)
}

/// `ok` holds of all that dates and times are written with.
pub open spec fn takes_dates(ok: spec_fn(char) -> bool) -> bool {
    forall|c: char| text::is_digit(c) || c == '-' ==> #[trigger] ok(c)
}

/// What holds of digits and of `-` holds of what a number is written with.
proof fn lemma_number_chars(n: int, width: int, ok: spec_fn(char) -> bool)
    requires
        takes_dates(ok),
    ensures
        forall|q: int|
            0 <= q < text::int_text(n).len() ==> ok(#[trigger] text::int_text(n)[q]),
        forall|q: int|
            0 <= q < text::padded_text(n, width).len() ==> ok(
                #[trigger] text::padded_text(n, width)[q],
            ),
{
    let size = if n < 0 {
        (-n) as nat
    } else {
        n as nat
    };
    let digits = text::nat_text(size);
    text::lemma_nat_text(size, 0);
    assert(text::zeros(0) + digits =~= digits);
    assert forall|q: int| 0 <= q < digits.len() implies ok(#[trigger] digits[q]) by {
        assert(text::is_digit(digits[q]));
    }
    assert(text::is_digit('0'));
    assert(ok('0') && ok('-'));
}

/// What holds of digits and of `-` holds of what a date is written with.
proof fn lemma_date_text_chars(a: Ymd, ok: spec_fn(char) -> bool)
    requires
        takes_dates(ok),
    ensures
        forall|q: int| 0 <= q < date::date_text(a).len() ==> ok(#[trigger] date::date_text(a)[q]),
{
    lemma_number_chars(a.y as int, 4, ok);
    lemma_number_chars(a.m as int, 2, ok);
    lemma_number_chars(a.d as int, 2, ok);
    let y = text::padded_text(a.y as int, 4);
    let m = text::padded_text(a.m as int, 2);
    let d = text::padded_text(a.d as int, 2);
    let s = date::date_text(a);
    assert(ok('-'));
    assert forall|q: int| 0 <= q < s.len() implies ok(#[trigger] s[q]) by {
        if q < y.len() {
            assert(s[q] == y[q]);
        } else if q == y.len() {
        } else if q < y.len() + 1 + m.len() {
            assert(s[q] == m[q - y.len() - 1]);
        } else if q == y.len() + 1 + m.len() {
        } else {
            assert(s[q] == d[q - y.len() - m.len() - 2]);
        }
    }
}

proof fn lemma_kept_by_dates(
    t: Seq<char>,
    start: Ymd,
    end: Ymd,
    p: Seq<char>,
    j: int,
    q: Seq<char>,
    k: int,
    ok: spec_fn(char) -> bool,
) -> (r: (int, int))
    requires
        is_fixed(p) || p.len() == 0 && j == 0,
        is_fixed(q),
        stand(t, p, j, q, k, ok),
        takes_dates(ok),
    ensures
        stand(rewrite::iso_moved(t, start, end), p, r.0, q, r.1, ok),
        j == 0 ==> r.0 == 0,
        k == 0 ==> r.1 == 0,
{
    let starts = rewrite::iso_starts(t, t.len() as int);
    let with = rewrite::fills(rewrite::iso_days(t), date::date_text(start), date::date_text(end));
    rewrite::lemma_iso_starts(t, t.len() as int);
    assert forall|i: int| 0 <= i < starts.len() implies (#[trigger] starts[i]) + 10 <= j || j
        + p.len() <= starts[i] by {
        if p.len() > 0 {
            lemma_fixed_apart_from_date(t, p, j, starts[i]);
        }
    }
    assert forall|i: int| 0 <= i < starts.len() implies (#[trigger] starts[i]) + 10 <= k || k
        + q.len() <= starts[i] by {
        lemma_fixed_apart_from_date(t, q, k, starts[i]);
    }
    lemma_date_text_chars(start, ok);
    lemma_date_text_chars(end, ok);
    lemma_kept(t, starts, 10, with, p, j, q, k, ok)
}

proof fn lemma_kept_by_times(
    t: Seq<char>,
    width: int,
    first: int,
    last: int,
    p: Seq<char>,
    j: int,
    q: Seq<char>,
    k: int,
    ok: spec_fn(char) -> bool,
) -> (r: (int, int))
    requires
        width >= 2,
        is_fixed(p) || p.len() == 0 && j == 0,
        is_fixed(q),
        stand(t, p, j, q, k, ok),
        takes_dates(ok),
    ensures
        stand(rewrite::epoch_moved(t, width, first, last), p, r.0, q, r.1, ok),
        j == 0 ==> r.0 == 0,
        k == 0 ==> r.1 == 0,
{
    let starts = rewrite::epoch_starts(t, width, t.len() as int);
    let with = rewrite::fills(
        rewrite::epoch_times(t, width),
        text::int_text(first),
        text::int_text(last),
    );
    rewrite::lemma_epoch_starts(t, width, t.len() as int);
    assert forall|i: int| 0 <= i < starts.len() implies (#[trigger] starts[i]) + width <= j || j
        + p.len() <= starts[i] by {
        if p.len() > 0 {
            lemma_fixed_apart_from_time(t, width, p, j, starts[i]);
        }
    }
    assert forall|i: int| 0 <= i < starts.len() implies (#[trigger] starts[i]) + width <= k || k
        + q.len() <= starts[i] by {
        lemma_fixed_apart_from_time(t, width, q, k, starts[i]);
    }
    lemma_number_chars(first, 0, ok);
    lemma_number_chars(last, 0, ok);
    lemma_kept(t, starts, width, with, p, j, q, k, ok)
}

/// Two texts that cannot be part of a date, one behind the other, stand so in the rewritten
/// text too, and at the beginning where they stood there. What holds of the characters before
/// and between them, and of digits and of `-`, holds there too. (The first text may be empty,
/// at the beginning.)
pub proof fn law_texts_kept(
    t: Seq<char>,
    start: Ymd,
    end: Ymd,
    p: Seq<char>,
    j: int,
    q: Seq<char>,
    k: int,
    ok: spec_fn(char) -> bool,
) -> (r: (int, int))
    requires
        is_fixed(p) || p.len() == 0 && j == 0,
        is_fixed(q),
        stand(t, p, j, q, k, ok),
        takes_dates(ok),
    ensures
        stand(rewrite::dates_moved(t, start, end), p, r.0, q, r.1, ok),
        j == 0 ==> r.0 == 0,
        k == 0 ==> r.1 == 0,
{
    let first = start.day_number() * 86_400;
    let last = (end.day_number() + 1) * 86_400;
    let a = rewrite::iso_moved(t, start, end);
    let b = rewrite::epoch_moved(a, 13, first * 1000, last * 1000);
    let x = lemma_kept_by_dates(t, start, end, p, j, q, k, ok);
    let y = lemma_kept_by_times(a, 13, first * 1000, last * 1000, p, x.0, q, x.1, ok);
    lemma_kept_by_times(b, 10, first, last, p, y.0, q, y.1, ok)
}

/// Text that cannot be part of a date stands in the rewritten text too, at the beginning where
/// it stood at the beginning.
pub proof fn law_other_text_kept(t: Seq<char>, start: Ymd, end: Ymd, p: Seq<char>, k: int)
    requires
        is_fixed(p),
        text::occurs_at(t, p, k),
    ensures
        text::occurs(rewrite::dates_moved(t, start, end), p),
        k == 0 ==> text::occurs_at(rewrite::dates_moved(t, start, end), p, 0),
{
    let none = Seq::<char>::empty();
    assert(t.subrange(0, 0) =~= none);
    let r = law_texts_kept(t, start, end, none, 0, p, k, |c: char| true);
    assert(text::occurs_at(rewrite::dates_moved(t, start, end), p, r.1));
}

}
