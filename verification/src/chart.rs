//! The figures of the charts, and how they are written.

use crate::date;
use crate::text;
use crate::text::{digits_of, parse_int, push_int};
use crate::usage::Day;
use vstd::prelude::*;
use vstd::utf8;

verus! {

// ───────── numbers ─────────

/// Digits with a comma before every third one, counted from the end.
pub open spec fn grouped(s: Seq<char>) -> Seq<char>
    decreases s.len(),
{
    if s.len() <= 3 {
        s
    } else {
        grouped(s.subrange(0, s.len() - 3)) + seq![','] + s.subrange(s.len() - 3, s.len() as int)
    }
}

/// A number with its thousands set apart by commas, and its sign.
pub open spec fn grouped_text(n: int) -> Seq<char> {
    if n < 0 {
        seq!['-'] + grouped(text::nat_text((-n) as nat))
    } else {
        grouped(text::nat_text(n as nat))
    }
}

/// A text without its commas.
pub open spec fn without_commas(s: Seq<char>) -> Seq<char>
    decreases s.len(),
{
    if s.len() == 0 {
        s
    } else if s.last() == ',' {
        without_commas(s.drop_last())
    } else {
        without_commas(s.drop_last()).push(s.last())
    }
}

/// A number with its thousands set apart by commas.
pub fn fmt(n: i64) -> (r: String)
    ensures
        r@ == grouped_text(n as int),
{
    let size: u64 = if n < 0 {
        (-(n as i128)) as u64
    } else {
        n as u64
    };
    let s: Vec<char> = digits_of(size);
    let mut r: String = String::new();
    if n < 0 {
        r.push('-');
    }
    let ghost sign = r@;
    let len: usize = s.len();
    let mut i: usize = 0;
    assert(r@ =~= sign + grouped_start(s@, 0));
    while i < len
        invariant
            i <= len,
            len == s@.len(),
            r@ == sign + grouped_start(s@, i as int),
        decreases len - i,
    {
        if i > 0 && (len - i) % 3 == 0 {
            r.push(',');
        }
        r.push(s[i]);
        assert(r@ =~= sign + grouped_start(s@, i + 1));
        i = i + 1;
    }
    proof {
        lemma_grouped_start(s@);
    }
    assert(r@ =~= grouped_text(n as int));
    r
}

/// The first `i` characters of `s`, with a comma before each, but the first, from which on a
/// multiple of three are left.
spec fn grouped_start(s: Seq<char>, i: int) -> Seq<char>
    decreases i,
{
    if i <= 0 {
        Seq::empty()
    } else if i > 1 && (s.len() - (i - 1)) % 3 == 0 {
        grouped_start(s, i - 1).push(',').push(s[i - 1])
    } else {
        grouped_start(s, i - 1).push(s[i - 1])
    }
}

proof fn lemma_grouped_start_of(s: Seq<char>, t: Seq<char>, i: int)
    requires
        0 <= i <= t.len(),
        t.len() <= s.len(),
        (s.len() - t.len()) % 3 == 0,
        t =~= s.subrange(0, t.len() as int),
    ensures
        grouped_start(s, i) == grouped_start(t, i),
    decreases i,
{
    if i > 0 {
        lemma_grouped_start_of(s, t, i - 1);
        assert((s.len() - (i - 1)) % 3 == (t.len() - (i - 1)) % 3);
        assert(s[i - 1] == t[i - 1]);
    }
}

proof fn lemma_grouped_start(s: Seq<char>)
    ensures
        grouped_start(s, s.len() as int) == grouped(s),
    decreases s.len(),
{
    let n = s.len() as int;
    if n <= 3 {
        reveal_with_fuel(grouped_start, 4);
        assert(grouped_start(s, n) =~= s);
    } else {
        let t = s.subrange(0, n - 3);
        lemma_grouped_start(t);
        lemma_grouped_start_of(s, t, n - 3);
        reveal_with_fuel(grouped_start, 4);
        assert(grouped_start(s, n) =~= grouped_start(s, n - 3) + seq![','] + s.subrange(n - 3, n));
    }
}

proof fn lemma_commas_apart(a: Seq<char>, b: Seq<char>)
    ensures
        without_commas(a + b) == without_commas(a) + without_commas(b),
    decreases b.len(),
{
    if b.len() == 0 {
        assert(a + b =~= a);
    } else {
        assert((a + b).drop_last() =~= a + b.drop_last());
        lemma_commas_apart(a, b.drop_last());
        if b.last() != ',' {
            assert(without_commas(a) + without_commas(b.drop_last()).push(b.last()) =~= (
            without_commas(a) + without_commas(b.drop_last())).push(b.last()));
        }
    }
}

proof fn lemma_no_commas(s: Seq<char>)
    requires
        text::all_digits(s),
    ensures
        without_commas(s) == s,
    decreases s.len(),
{
    if s.len() > 0 {
        assert(text::is_digit(s.last()));
        assert(text::all_digits(s.drop_last()));
        lemma_no_commas(s.drop_last());
        assert(s.drop_last().push(s.last()) =~= s);
    }
}

proof fn lemma_grouped_digits(s: Seq<char>)
    requires
        text::all_digits(s),
    ensures
        without_commas(grouped(s)) == s,
    decreases s.len(),
{
    if s.len() <= 3 {
        lemma_no_commas(s);
    } else {
        let n = s.len() as int;
        let front = s.subrange(0, n - 3);
        let back = s.subrange(n - 3, n);
        assert(text::all_digits(front) && text::all_digits(back));
        lemma_grouped_digits(front);
        lemma_no_commas(back);
        lemma_commas_apart(grouped(front), seq![',']);
        lemma_commas_apart(grouped(front) + seq![','], back);
        assert(seq![','].drop_last() =~= Seq::<char>::empty());
        reveal_with_fuel(without_commas, 2);
        assert(front + Seq::<char>::empty() + back =~= s);
    }
}

/// Without its commas, a number that was set apart is the number in plain digits.
pub proof fn law_commas_only_added(n: int)
    ensures
        without_commas(grouped_text(n)) == text::int_text(n),
{
    let size = if n < 0 {
        (-n) as nat
    } else {
        n as nat
    };
    text::lemma_nat_text(size, 0);
    assert(text::zeros(0) + text::nat_text(size) =~= text::nat_text(size));
    lemma_grouped_digits(text::nat_text(size));
    if n < 0 {
        lemma_commas_apart(seq!['-'], grouped(text::nat_text(size)));
        assert(seq!['-'].drop_last() =~= Seq::<char>::empty());
        reveal_with_fuel(without_commas, 2);
        assert(without_commas(seq!['-']) =~= seq!['-']);
    }
}

/// Counted from the end, a comma stands behind every three digits and nowhere else, and none
/// stands at the front.
pub proof fn law_commas_set_thousands_apart(n: nat, k: int)
    requires
        0 <= k < grouped_text(n as int).len(),
    ensures
        grouped_text(n as int)[grouped_text(n as int).len() - 1 - k] == ',' <==> k % 4 == 3,
        grouped_text(n as int)[0] != ',',
        n > 0 ==> grouped_text(-(n as int)) == seq!['-'] + grouped_text(n as int),
{
    text::lemma_nat_text(n, 0);
    assert(text::zeros(0) + text::nat_text(n) =~= text::nat_text(n));
    lemma_commas_at(text::nat_text(n), k);
}

proof fn lemma_commas_at(s: Seq<char>, k: int)
    requires
        text::all_digits(s),
        s.len() > 0,
        0 <= k < grouped(s).len(),
    ensures
        grouped(s).len() > 0,
        grouped(s)[grouped(s).len() - 1 - k] == ',' <==> k % 4 == 3,
        grouped(s)[0] != ',',
    decreases s.len(),
{
    let n = s.len() as int;
    if n <= 3 {
        assert(text::is_digit(s[n - 1 - k]));
        assert(text::is_digit(s[0]));
    } else {
        let front = s.subrange(0, n - 3);
        let back = s.subrange(n - 3, n);
        let g = grouped(s);
        assert(g == grouped(front) + seq![','] + back);
        assert(text::all_digits(front));
        lemma_grouped_longer(front);
        if k < 3 {
            assert(g[g.len() - 1 - k] == back[2 - k]);
            assert(text::is_digit(s[n - 1 - k]));
            lemma_commas_at(front, 0);
        } else if k == 3 {
            assert(g[g.len() - 1 - k] == ',');
            lemma_commas_at(front, 0);
        } else {
            lemma_commas_at(front, k - 4);
            assert(g[g.len() - 1 - k] == grouped(front)[grouped(front).len() - 1 - (k - 4)]);
        }
        assert(g[0] == grouped(front)[0]);
    }
}

proof fn lemma_grouped_longer(s: Seq<char>)
    ensures
        grouped(s).len() >= s.len(),
    decreases s.len(),
{
    if s.len() > 3 {
        lemma_grouped_longer(s.subrange(0, s.len() - 3));
    }
}

// ───────── figures ─────────

/// What a chart shows of each day.
#[derive(Clone, Copy, Debug, PartialEq, Eq, Structural)]
pub enum Kind {
    Requests,
    Tokens,
}

/// `a + b`, where an `i64` can hold it.
pub open spec fn sum_in_range(a: i64, b: i64) -> Option<i64> {
    if i64::MIN <= a + b <= i64::MAX {
        Some((a + b) as i64)
    } else {
        None
    }
}

/// The tokens of a day, where an `i64` can hold them, added up in this order.
pub open spec fn tokens_of(d: Day) -> Option<i64> {
    match sum_in_range(d.hit, d.miss) {
        Some(input) => sum_in_range(input, d.output),
        None => None,
    }
}

/// What a chart shows of a day.
pub open spec fn figure_of(d: Day, kind: Kind) -> Option<i64> {
    match kind {
        Kind::Requests => Some(d.requests),
        Kind::Tokens => tokens_of(d),
    }
}

/// The sum of what a chart shows of the first `n` days, where an `i64` can hold it at every
/// step.
pub open spec fn total_of(series: Seq<(String, Day)>, kind: Kind, n: int) -> Option<i64>
    decreases n,
{
    if n <= 0 {
        Some(0i64)
    } else {
        match (total_of(series, kind, n - 1), figure_of(series[n - 1].1, kind)) {
            (Some(t), Some(f)) => sum_in_range(t, f),
            _ => None,
        }
    }
}

/// `p` is the greatest of the figures, and 1 at least.
pub open spec fn is_peak(series: Seq<(String, Day)>, kind: Kind, p: i64) -> bool {
    &&& p >= 1
    &&& forall|i: int|
        0 <= i < series.len() ==> (figure_of((#[trigger] series[i]).1, kind) matches Some(f)
            && f <= p)
    &&& p == 1 || exists|i: int|
        0 <= i < series.len() && figure_of((#[trigger] series[i]).1, kind) == Some(p)
}

/// A chart.
#[derive(Clone, Copy, Debug, PartialEq, Eq)]
pub struct Chart {
    pub title: &'static str,
    pub total: i64,
    /// The figure that fills the chart's height; none where there is nothing to be drawn.
    pub peak: Option<i64>,
}

/// The tokens of a day; none where they are too many for an `i64`.
pub fn tokens(d: &Day) -> (r: Option<i64>)
    ensures
        r == tokens_of(*d),
        r matches Some(t) ==> t == d.hit + d.miss + d.output,
        d.hit >= 0 && d.miss >= 0 && d.output >= 0 && d.hit + d.miss + d.output <= i64::MAX
            ==> r is Some,
{
    match d.hit.checked_add(d.miss) {
        Some(input) => input.checked_add(d.output),
        None => None,
    }
}

/// What a chart shows of a day.
pub fn figure(d: &Day, kind: Kind) -> (r: Option<i64>)
    ensures
        r == figure_of(*d, kind),
        kind == Kind::Requests ==> r == Some(d.requests),
        kind == Kind::Tokens ==> (r matches Some(t) ==> t == d.hit + d.miss + d.output),
{
    match kind {
        Kind::Requests => Some(d.requests),
        Kind::Tokens => tokens(d),
    }
}

/// The tokens of a day are its hits, its misses and its output together, wherever an `i64` can
/// hold them and none of them is negative.
pub proof fn law_tokens_add_up(d: Day)
    ensures
        tokens_of(d) matches Some(t) ==> t == d.hit + d.miss + d.output,
        d.hit >= 0 && d.miss >= 0 && d.output >= 0 ==> (tokens_of(d) is Some <==> d.hit + d.miss
            + d.output <= i64::MAX),
        figure_of(d, Kind::Requests) == Some(d.requests),
        figure_of(d, Kind::Tokens) == tokens_of(d),
{
}

/// One more day adds its figure to the total; of no days the total is nothing.
pub proof fn law_total_adds_up(
    series: Seq<(String, Day)>,
    next: (String, Day),
    kind: Kind,
    total: i64,
    figure: i64,
)
    requires
        total_of(series, kind, series.len() as int) == Some(total),
        figure_of(next.1, kind) == Some(figure),
        i64::MIN <= total + figure <= i64::MAX,
    ensures
        total_of(series.push(next), kind, series.len() as int + 1) == Some((total + figure) as i64),
        total_of(Seq::empty(), kind, 0) == Some(0i64),
{
    lemma_total_of_front(series, next, kind, series.len() as int);
}

proof fn lemma_total_of_front(
    series: Seq<(String, Day)>,
    next: (String, Day),
    kind: Kind,
    n: int,
)
    requires
        0 <= n <= series.len(),
    ensures
        total_of(series.push(next), kind, n) == total_of(series, kind, n),
    decreases n,
{
    if n > 0 {
        lemma_total_of_front(series, next, kind, n - 1);
    }
}

proof fn lemma_total_stops(series: Seq<(String, Day)>, kind: Kind, k: int, n: int)
    requires
        0 <= k <= n,
        total_of(series, kind, k) is None,
    ensures
        total_of(series, kind, n) is None,
    decreases n - k,
{
    if k < n {
        lemma_total_stops(series, kind, k, n - 1);
    }
}

/// The chart of some days; none where the figures add up to more than an `i64` can hold.
pub fn chart(series: &Vec<(String, Day)>, kind: Kind) -> (r: Option<Chart>)
    ensures
        match r {
            Some(c) => {
                &&& total_of(series@, kind, series@.len() as int) == Some(c.total)
                &&& c.title@ == match kind {
                    Kind::Requests => "API 请求次数"@,
                    Kind::Tokens => "Tokens"@,
                }
                &&& match c.peak {
                    Some(p) => c.total != 0 && is_peak(series@, kind, p),
                    None => c.total == 0,
                }
            },
            None => total_of(series@, kind, series@.len() as int) is None,
        },
        r matches Some(c) ==> {
            &&& c.peak is None <==> c.total == 0
            &&& c.peak matches Some(p) ==> {
                &&& p >= 1
                &&& kind == Kind::Requests ==> forall|i: int|
                    0 <= i < series@.len() ==> (#[trigger] series@[i]).1.requests <= p
                &&& kind == Kind::Tokens ==> forall|i: int|
                    0 <= i < series@.len() ==> (#[trigger] series@[i]).1.hit + series@[i].1.miss
                        + series@[i].1.output <= p
                &&& kind == Kind::Requests && p > 1 ==> exists|i: int|
                    0 <= i < series@.len() && (#[trigger] series@[i]).1.requests == p
                &&& kind == Kind::Tokens && p > 1 ==> exists|i: int|
                    0 <= i < series@.len() && (#[trigger] series@[i]).1.hit + series@[i].1.miss
                        + series@[i].1.output == p
            }
        },
{
    let mut total: i64 = 0;
    let mut peak: i64 = 1;
    let mut i: usize = 0;
    while i < series.len()
        invariant
            i <= series@.len(),
            total_of(series@, kind, i as int) == Some(total),
            peak >= 1,
            forall|j: int|
                0 <= j < i ==> (figure_of((#[trigger] series@[j]).1, kind) matches Some(f) && f
                    <= peak),
            peak == 1 || exists|j: int|
                0 <= j < i && figure_of((#[trigger] series@[j]).1, kind) == Some(peak),
        decreases series@.len() - i,
    {
        let ghost before = peak;
        let f: Option<i64> = figure(&series[i].1, kind);
        let next: Option<i64> = match f {
            Some(f) => total.checked_add(f),
            None => None,
        };
        match (f, next) {
            (Some(f), Some(t)) => {
                total = t;
                if f > peak {
                    peak = f;
                    assert(figure_of(series@[i as int].1, kind) == Some(peak));
                }
            },
            _ => {
                proof {
                    lemma_total_stops(series@, kind, i + 1, series@.len() as int);
                }
                return None;
            },
        }
        i = i + 1;
    }
    let title: &'static str = match kind {
        Kind::Requests => "API 请求次数",
        Kind::Tokens => "Tokens",
    };
    Some(
        Chart {
            title,
            total,
            peak: if total == 0 {
                None
            } else {
                Some(peak)
            },
        },
    )
}

// ───────── bars ─────────

/// The shade of a part of a bar.
#[derive(Clone, Copy, Debug, PartialEq, Eq, Structural)]
pub enum Shade {
    Light,
    Middle,
    Deep,
}

/// The parts of a day's bar, from the bottom up.
pub open spec fn parts_of(d: Day, kind: Kind) -> Seq<(i64, Shade)> {
    match kind {
        Kind::Requests => seq![(d.requests, Shade::Middle)],
        Kind::Tokens => seq![
            (d.hit, Shade::Light),
            (d.miss, Shade::Middle),
            (d.output, Shade::Deep),
        ],
    }
}

/// The part is to be drawn.
pub open spec fn is_drawn(part: (i64, Shade)) -> bool {
    part.0 > 0
}

/// The first `n` of some parts, as far as they are to be drawn.
pub open spec fn drawn(parts: Seq<(i64, Shade)>, n: int) -> Seq<(i64, Shade)>
    decreases n,
{
    if n <= 0 {
        Seq::empty()
    } else if is_drawn(parts[n - 1]) {
        drawn(parts, n - 1).push(parts[n - 1])
    } else {
        drawn(parts, n - 1)
    }
}

/// The height of the first `n` parts on top of each other.
pub open spec fn height(parts: Seq<(i64, Shade)>, n: int) -> int
    decreases n,
{
    if n <= 0 {
        0
    } else {
        height(parts, n - 1) + parts[n - 1].0
    }
}

/// A bar of requests has one part and one of tokens three, hits at the bottom, misses on them and
/// output on top, each in its shade; a part is drawn where there is anything of it, and in its
/// place among the others.
pub proof fn law_parts_of_bar(d: Day, parts: Seq<(i64, Shade)>, n: int)
    requires
        0 <= n < parts.len(),
    ensures
        parts_of(d, Kind::Requests) == seq![(d.requests, Shade::Middle)],
        parts_of(d, Kind::Tokens).len() == 3,
        parts_of(d, Kind::Tokens)[0] == (d.hit, Shade::Light),
        parts_of(d, Kind::Tokens)[1] == (d.miss, Shade::Middle),
        parts_of(d, Kind::Tokens)[2] == (d.output, Shade::Deep),
        parts[n].0 > 0 ==> drawn(parts, n + 1) == drawn(parts, n) + seq![parts[n]],
        parts[n].0 <= 0 ==> drawn(parts, n + 1) == drawn(parts, n),
        drawn(parts, 0) == Seq::<(i64, Shade)>::empty(),
{
    assert(drawn(parts, n).push(parts[n]) =~= drawn(parts, n) + seq![parts[n]]);
}

/// A part by itself, where there is anything of it.
pub open spec fn if_drawn(size: i64, shade: Shade) -> Seq<(i64, Shade)> {
    if size > 0 {
        seq![(size, shade)]
    } else {
        Seq::empty()
    }
}

fn push_part(parts: &mut Vec<(i64, Shade)>, size: i64, shade: Shade)
    ensures
        final(parts)@ == if is_drawn((size, shade)) {
            old(parts)@.push((size, shade))
        } else {
            old(parts)@
        },
{
    if size > 0 {
        parts.push((size, shade));
    }
}

/// The parts of a day's bar that are to be drawn, from the bottom up.
pub fn segments(d: &Day, kind: Kind) -> (r: Vec<(i64, Shade)>)
    ensures
        r@ == drawn(parts_of(*d, kind), parts_of(*d, kind).len() as int),
        kind == Kind::Requests ==> r@ == if_drawn(d.requests, Shade::Middle),
        kind == Kind::Tokens ==> r@ == if_drawn(d.hit, Shade::Light) + if_drawn(
            d.miss,
            Shade::Middle,
        ) + if_drawn(d.output, Shade::Deep),
{
    proof {
        reveal_with_fuel(drawn, 4);
    }
    let mut r: Vec<(i64, Shade)> = Vec::new();
    match kind {
        Kind::Requests => {
            push_part(&mut r, d.requests, Shade::Middle);
        },
        Kind::Tokens => {
            push_part(&mut r, d.hit, Shade::Light);
            push_part(&mut r, d.miss, Shade::Middle);
            push_part(&mut r, d.output, Shade::Deep);
        },
    }
    assert(r@ =~= drawn(parts_of(*d, kind), parts_of(*d, kind).len() as int));
    r
}

proof fn lemma_height_of(a: Seq<(i64, Shade)>, b: Seq<(i64, Shade)>, n: int)
    requires
        0 <= n <= a.len(),
        n <= b.len(),
        forall|i: int| 0 <= i < n ==> a[i] == b[i],
    ensures
        height(a, n) == height(b, n),
    decreases n,
{
    if n > 0 {
        lemma_height_of(a, b, n - 1);
    }
}

proof fn lemma_height_drawn(parts: Seq<(i64, Shade)>, n: int)
    requires
        0 <= n <= parts.len(),
        forall|i: int| 0 <= i < parts.len() ==> (#[trigger] parts[i]).0 >= 0,
    ensures
        height(drawn(parts, n), drawn(parts, n).len() as int) == height(parts, n),
    decreases n,
{
    if n > 0 {
        lemma_height_drawn(parts, n - 1);
        let before = drawn(parts, n - 1);
        if is_drawn(parts[n - 1]) {
            lemma_height_of(before.push(parts[n - 1]), before, before.len() as int);
        }
    }
}

/// A day's bar is as high as the day's figure, and so never higher than the chart, where the
/// day's numbers are not negative.
pub proof fn law_bar_fits(series: Seq<(String, Day)>, kind: Kind, peak: i64, i: int)
    requires
        0 <= i < series.len(),
        is_peak(series, kind, peak),
        series[i].1.requests >= 0,
        series[i].1.hit >= 0,
        series[i].1.miss >= 0,
        series[i].1.output >= 0,
    ensures
        ({
            let parts = parts_of(series[i].1, kind);
            let bar = drawn(parts, parts.len() as int);
            &&& figure_of(series[i].1, kind) matches Some(f) && height(bar, bar.len() as int) == f
            &&& height(bar, bar.len() as int) <= peak
        }),
{
    let parts = parts_of(series[i].1, kind);
    lemma_height_drawn(parts, parts.len() as int);
    reveal_with_fuel(height, 4);
}

// ───────── what is said of a day ─────────

/// A line of what is said of a day.
#[derive(Debug)]
pub struct Line {
    pub label: String,
    pub value: String,
    /// The shade of the part of the bar that the line is about.
    pub shade: Option<Shade>,
}

/// What a line says.
pub struct LineView {
    pub label: Seq<char>,
    pub value: Seq<char>,
    pub shade: Option<Shade>,
}

impl View for Line {
    type V = LineView;

    open spec fn view(&self) -> LineView {
        LineView { label: self.label@, value: self.value@, shade: self.shade }
    }
}

/// What the lines say.
pub open spec fn line_views(lines: Seq<Line>) -> Seq<LineView> {
    lines.map_values(|l: Line| l@)
}

/// What is said of a day; `total` is the tokens of the day.
pub open spec fn lines_of(date: Seq<char>, d: Day, kind: Kind, total: i64) -> Seq<LineView> {
    match kind {
        Kind::Tokens => seq![
            LineView { label: date, value: grouped_text(total as int), shade: None },
            LineView {
                label: "输入（命中缓存）"@,
                value: grouped_text(d.hit as int),
                shade: Some(Shade::Light),
            },
            LineView {
                label: "输入（未命中缓存）"@,
                value: grouped_text(d.miss as int),
                shade: Some(Shade::Middle),
            },
            LineView {
                label: "输出"@,
                value: grouped_text(d.output as int),
                shade: Some(Shade::Deep),
            },
        ],
        Kind::Requests => seq![
            LineView { label: date, value: Seq::empty(), shade: None },
            LineView { label: "请求次数"@, value: grouped_text(d.requests as int), shade: None },
        ],
    }
}

/// The line has this label, this value and this shade.
pub open spec fn is_line(
    line: Line,
    label: Seq<char>,
    value: Seq<char>,
    shade: Option<Shade>,
) -> bool {
    line.label@ == label && line.value@ == value && line.shade == shade
}

fn push_line(lines: &mut Vec<Line>, label: &str, value: String, shade: Option<Shade>)
    ensures
        line_views(final(lines)@) == line_views(old(lines)@).push(
            (LineView { label: label@, value: value@, shade }),
        ),
{
    let ghost before = lines@;
    lines.push(Line { label: label.to_owned(), value, shade });
    assert(line_views(lines@) =~= line_views(before).push(
        LineView { label: label@, value: value@, shade },
    ));
}

/// What is said of a day is its date and, of a chart of requests, these; of a chart of tokens the
/// sum and its three parts, each in the shade of its part of the bar.
pub proof fn law_day_is_told(date: Seq<char>, d: Day, total: i64)
    ensures
        ({
            let lines = lines_of(date, d, Kind::Requests, total);
            &&& lines.len() == 2
            &&& lines[0].label == date
            &&& lines[0].value.len() == 0
            &&& lines[1].label == "请求次数"@
            &&& lines[1].value == grouped_text(d.requests as int)
        }),
        ({
            let lines = lines_of(date, d, Kind::Tokens, total);
            let bar = parts_of(d, Kind::Tokens);
            &&& lines.len() == 4
            &&& lines[0].label == date
            &&& lines[0].value == grouped_text(total as int)
            &&& lines[1].label == "输入（命中缓存）"@
            &&& lines[2].label == "输入（未命中缓存）"@
            &&& lines[3].label == "输出"@
            &&& lines[1].value == grouped_text(d.hit as int)
            &&& lines[2].value == grouped_text(d.miss as int)
            &&& lines[3].value == grouped_text(d.output as int)
            &&& bar.len() == 3
            &&& forall|k: int|
                0 <= k < 3 ==> lines[k + 1].value == grouped_text((#[trigger] bar[k]).0 as int)
                    && lines[k + 1].shade == Some(bar[k].1)
        }),
{
}

/// What is said of a day; none where its tokens are too many for an `i64` and are to be told.
pub fn tooltip_lines(date: &str, d: &Day, kind: Kind) -> (r: Option<Vec<Line>>)
    ensures
        match r {
            Some(lines) => match kind {
                Kind::Tokens => tokens_of(*d) matches Some(total) && line_views(lines@) == lines_of(
                    date@,
                    *d,
                    kind,
                    total,
                ),
                Kind::Requests => line_views(lines@) == lines_of(date@, *d, kind, 0),
            },
            None => kind == Kind::Tokens && tokens_of(*d) is None,
        },
        kind == Kind::Requests ==> r is Some,
        r matches Some(lines) ==> {
            &&& kind == Kind::Requests ==> {
                &&& lines@.len() == 2
                &&& is_line(lines@[0], date@, Seq::empty(), None)
                &&& is_line(lines@[1], "请求次数"@, grouped_text(d.requests as int), None)
            }
            &&& kind == Kind::Tokens ==> {
                &&& lines@.len() == 4
                &&& is_line(lines@[0], date@, grouped_text(d.hit + d.miss + d.output), None)
                &&& is_line(
                    lines@[1],
                    "输入（命中缓存）"@,
                    grouped_text(d.hit as int),
                    Some(Shade::Light),
                )
                &&& is_line(
                    lines@[2],
                    "输入（未命中缓存）"@,
                    grouped_text(d.miss as int),
                    Some(Shade::Middle),
                )
                &&& is_line(lines@[3], "输出"@, grouped_text(d.output as int), Some(Shade::Deep))
            }
        },
{
    let mut lines: Vec<Line> = Vec::new();
    assert(line_views(lines@) =~= Seq::<LineView>::empty());
    match kind {
        Kind::Tokens => match tokens(d) {
            Some(total) => {
                push_line(&mut lines, date, fmt(total), None);
                push_line(&mut lines, "输入（命中缓存）", fmt(d.hit), Some(Shade::Light));
                push_line(&mut lines, "输入（未命中缓存）", fmt(d.miss), Some(Shade::Middle));
                push_line(&mut lines, "输出", fmt(d.output), Some(Shade::Deep));
                assert(line_views(lines@) =~= lines_of(date@, *d, kind, total));
                Some(lines)
            },
            None => None,
        },
        Kind::Requests => {
            push_line(&mut lines, date, String::new(), None);
            push_line(&mut lines, "请求次数", fmt(d.requests), None);
            assert(line_views(lines@) =~= lines_of(date@, *d, kind, 0));
            Some(lines)
        },
    }
}

// ───────── the axis ─────────

/// The number that some bytes of a text stand for, 0 where they stand for none.
pub open spec fn number_at(b: Seq<u8>, from: int, to: int) -> i64 {
    match text::int_value(b.subrange(from, to).map_values(|x: u8| x as char)) {
        Some(n) => n,
        None => 0,
    }
}

/// What stands below the chart for a date in UTF-8, of the form `YYYY-MM-DD`: the month and
/// the day.
pub open spec fn label_of(b: Seq<u8>) -> Seq<char> {
    text::int_text(number_at(b, 5, 7) as int) + seq!['/'] + text::int_text(
        number_at(b, 8, 10) as int,
    )
}

/// Bytes that are no number count as 0 in the label, and those that are one count as it.
pub proof fn law_numbers_in_label(b: Seq<u8>, from: int, to: int)
    ensures
        ({
            let n = text::int_value(b.subrange(from, to).map_values(|x: u8| x as char));
            &&& n is None ==> number_at(b, from, to) == 0
            &&& n is Some ==> number_at(b, from, to) == n->0
        }),
{
}

fn number_in(b: &[u8], from: usize) -> (r: i64)
    requires
        from + 2 <= b@.len(),
    ensures
        r == number_at(b@, from as int, from + 2),
{
    let mut x: Vec<char> = Vec::new();
    x.push(b[from] as char);
    x.push(b[from + 1] as char);
    assert(x@.subrange(0, 2) =~= b@.subrange(from as int, from + 2).map_values(|x: u8| x as char));
    match parse_int(&x, 0, 2) {
        Some(n) => n,
        None => 0,
    }
}

/// What stands below the chart for a date: the month and the day.
pub fn day_label(date: &str) -> (r: String)
    requires
        utf8::encode_utf8(date@).len() >= 10,
    ensures
        r@ == label_of(utf8::encode_utf8(date@)),
{
    let b: &[u8] = date.as_bytes();
    let mut r: String = String::new();
    push_int(&mut r, number_in(b, 5));
    r.push('/');
    push_int(&mut r, number_in(b, 8));
    assert(r@ =~= label_of(utf8::encode_utf8(date@)));
    r
}

/// The label of a date of four digits a year is its month and its day, without zeros in front
/// of them.
pub proof fn law_label_of_date(a: date::Ymd)
    requires
        -999 <= a.y <= 9_999,
        1 <= a.m <= 12,
        1 <= a.d <= 31,
    ensures
        utf8::encode_utf8(date::date_text(a)).len() == 10,
        label_of(utf8::encode_utf8(date::date_text(a))) == text::int_text(a.m as int) + seq![
            '/',
        ] + text::int_text(a.d as int),
{
    let s = date::date_text(a);
    date::law_date_text_read_back(a, Seq::empty());
    assert(s + Seq::<char>::empty() =~= s);
    assert(date::date_value(s) == Some(a));
    let parts = (s.subrange(0, 4), s.subrange(5, 7), s.subrange(8, 10));
    assert forall|i: int| 0 <= i < s.len() implies '\0' <= #[trigger] s[i] <= '\u{7f}' by {
        if i < 4 {
            lemma_ascii_number(parts.0, i);
        } else if 5 <= i < 7 {
            lemma_ascii_number(parts.1, i - 5);
        } else if i >= 8 {
            lemma_ascii_number(parts.2, i - 8);
        }
    }
    utf8::is_ascii_chars_encode_utf8(s);
    let b = utf8::encode_utf8(s);
    assert(b.subrange(5, 7).map_values(|x: u8| x as char) =~= s.subrange(5, 7));
    assert(b.subrange(8, 10).map_values(|x: u8| x as char) =~= s.subrange(8, 10));
}

proof fn lemma_ascii_number(s: Seq<char>, i: int)
    requires
        text::int_value(s) is Some,
        0 <= i < s.len(),
    ensures
        '\0' <= s[i] <= '\u{7f}',
{
    let body = text::unsigned(s);
    if text::is_sign(s[0]) {
        if i > 0 {
            assert(text::is_digit(body[i - 1]));
        }
    } else {
        assert(text::is_digit(body[i]));
    }
}

}
