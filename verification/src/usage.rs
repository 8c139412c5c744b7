//! Usage by day, gathered from whatever JSON the platform answers with.

use crate::date;
use crate::date::{ymd_from_unix, Ymd};
use crate::float;
use crate::json;
use crate::json::Json;
use crate::table::Table;
use crate::text;
use crate::text::{chars_of, contains, lower, parse_int, trim};
use vstd::prelude::*;

verus! {

/// The usage of one day.
#[derive(Clone, Copy, Debug, PartialEq, Eq, Structural)]
pub struct Day {
    pub requests: i64,
    /// Input tokens that the cache held.
    pub hit: i64,
    /// Input tokens that the cache did not hold.
    pub miss: i64,
    pub output: i64,
}

impl Default for Day {
    fn default() -> (r: Day)
        ensures
            r == (Day { requests: 0, hit: 0, miss: 0, output: 0 }),
    {
        Day { requests: 0, hit: 0, miss: 0, output: 0 }
    }
}

/// What has been gathered of one day.
#[derive(Clone, Copy, Debug, PartialEq, Eq, Structural)]
pub struct DayAcc {
    pub requests: i64,
    pub hit: i64,
    pub miss: i64,
    pub output: i64,
    pub input_total: i64,
    pub tokens_total: i64,
}

/// What a number in an answer counts.
#[derive(Clone, Copy, Debug, PartialEq, Eq, Structural)]
pub enum Metric {
    Requests,
    Hit,
    Miss,
    Output,
    InputTotal,
    TokensTotal,
}

// ───────── what a field says ─────────

/// `key` has `part` in it, in whatever case.
pub open spec fn mentions(key: Seq<char>, part: Seq<char>) -> bool {
    text::occurs(text::lowered(key), part)
}

/// What a field of this name counts.
pub open spec fn metric_of(key: Seq<char>) -> Option<Metric> {
    if mentions(key, "hit"@) {
        Some(Metric::Hit)
    } else if mentions(key, "miss"@) {
        Some(Metric::Miss)
    } else if mentions(key, "output"@) || mentions(key, "completion"@) || mentions(
        key,
        "response"@,
    ) {
        Some(Metric::Output)
    } else if mentions(key, "count"@) || mentions(key, "request"@) || mentions(key, "call"@)
        || mentions(key, "api"@) {
        Some(Metric::Requests)
    } else if mentions(key, "input"@) || mentions(key, "prompt"@) {
        Some(Metric::InputTotal)
    } else if text::lowered(key) == "total_tokens"@ || text::lowered(key) == "tokens"@
        || text::lowered(key) == "token"@ {
        Some(Metric::TokensTotal)
    } else {
        None
    }
}

/// A field of this name is likely to hold a date.
pub open spec fn is_date_key(key: Seq<char>) -> bool {
    mentions(key, "date"@) || mentions(key, "day"@) || mentions(key, "time"@) || mentions(
        key,
        "period"@,
    )
}

/// The whole number that a value is.
pub open spec fn count_of(v: json::Tree) -> Option<i64> {
    match v {
        json::Tree::Number(n) => match n.int {
            Some(i) => Some(i),
            None => match n.float {
                Some(f) => Some(float::cut_off(f)),
                None => None,
            },
        },
        _ => None,
    }
}

/// The date, as text, of a Unix time in seconds or milliseconds that lies between 2001 and
/// 2096. Of the time, `whole` is what is left when its fraction is cut off, and `up` is the
/// next whole number where it has one. (A time in milliseconds that is divided by 1000 as a
/// floating-point number comes to the same second: between these years no quotient is rounded
/// up to a whole second.)
pub open spec fn epoch_date(whole: int, up: int) -> Option<Seq<char>> {
    if up > 1_000_000_000_000 {
        if 0 <= whole < 4_000_000_000_000 {
            Some(date::date_text(date::civil(whole / 1000 / 86_400)))
        } else {
            None
        }
    } else if up > 1_000_000_000 && whole < 4_000_000_000 {
        Some(date::date_text(date::civil(whole / 86_400)))
    } else {
        None
    }
}

/// The date, as text, that a value is: written out, or as a Unix time, which may stand in
/// a text of its own.
pub open spec fn date_of(v: json::Tree) -> Option<Seq<char>> {
    match v {
        json::Tree::Text(s) => match date::date_value(s) {
            Some(a) => Some(date::date_text(a)),
            None => match text::int_value(text::trimmed(s)) {
                Some(n) => epoch_date(n as int, n as int),
                None => None,
            },
        },
        json::Tree::Number(n) => match n.float {
            Some(f) => epoch_date(float::cut_off(f) as int, float::rounded_up(f) as int),
            None => None,
        },
        _ => None,
    }
}

/// What a field of this name counts (by its name alone, in whatever case).
pub fn classify_key(k: &str) -> (r: Option<Metric>)
    ensures
        r == metric_of(k@),
{
    let k: Vec<char> = lower(k);
    if contains(&k, "hit") {
        Some(Metric::Hit)
    } else if contains(&k, "miss") {
        Some(Metric::Miss)
    } else if contains(&k, "output") || contains(&k, "completion") || contains(&k, "response") {
        Some(Metric::Output)
    } else if contains(&k, "count") || contains(&k, "request") || contains(&k, "call") || contains(
        &k,
        "api",
    ) {
        Some(Metric::Requests)
    } else if contains(&k, "input") || contains(&k, "prompt") {
        Some(Metric::InputTotal)
    } else {
        let s: String = text::text_of(&k, 0, k.len());
        assert(s@ =~= k@);
        if text::same(s.as_str(), "total_tokens") || text::same(s.as_str(), "tokens") || text::same(
            s.as_str(),
            "token",
        ) {
            Some(Metric::TokensTotal)
        } else {
            None
        }
    }
}

fn date_key(k: &str) -> (r: bool)
    ensures
        r == is_date_key(k@),
{
    let k: Vec<char> = lower(k);
    contains(&k, "date") || contains(&k, "day") || contains(&k, "time") || contains(&k, "period")
}

/// The whole number that a value is: an integer, or a float with its fraction cut off.
pub fn as_int(v: &Json) -> (r: Option<i64>)
    ensures
        r == count_of(v@),
{
    match v {
        Json::Number(n) => match n.int {
            Some(i) => Some(i),
            None => match n.float {
                Some(f) => Some(float::cut(f)),
                None => None,
            },
        },
        _ => None,
    }
}

/// The date of a Unix time in seconds or milliseconds.
pub fn num_to_date(whole: i64, up: i64) -> (r: Option<String>)
    ensures
        match r {
            Some(s) => epoch_date(whole as int, up as int) == Some(s@),
            None => epoch_date(whole as int, up as int) is None,
        },
{
    if up > 1_000_000_000_000 {
        if 0 <= whole && whole < 4_000_000_000_000 {
            Some(ymd_from_unix(whole / 1000).to_string())
        } else {
            None
        }
    } else if up > 1_000_000_000 && whole < 4_000_000_000 {
        Some(ymd_from_unix(whole).to_string())
    } else {
        None
    }
}

/// The date, as `YYYY-MM-DD`, that a value is.
pub fn value_to_date(v: &Json) -> (r: Option<String>)
    ensures
        match r {
            Some(s) => date_of(v@) == Some(s@),
            None => date_of(v@) is None,
        },
{
    match v {
        Json::Text(s) => {
            if let Some(y) = Ymd::parse(s.as_str()) {
                return Some(y.to_string());
            }
            let t: String = trim(s.as_str());
            let b: Vec<char> = chars_of(t.as_str());
            assert(b@.subrange(0, b@.len() as int) =~= b@);
            match parse_int(&b, 0, b.len()) {
                Some(n) => num_to_date(n, n),
                None => None,
            }
        },
        Json::Number(n) => match n.float {
            Some(f) => num_to_date(float::cut(f), float::round_up(f)),
            None => None,
        },
        _ => None,
    }
}

// ───────── the rows of an answer ─────────

/// One day's object in an answer: the day and the numbers in it that count something.
pub struct Row {
    pub day: Seq<char>,
    pub readings: Seq<(Metric, i64)>,
}

/// The first date among the entries at `i` and behind it, of those under a date's key or
/// of all.
pub open spec fn first_date(
    entries: Seq<(Seq<char>, json::Tree)>,
    keyed: bool,
    i: int,
) -> Option<Seq<char>>
    decreases entries.len() - i,
{
    if i < 0 || i >= entries.len() {
        None
    } else if (!keyed || is_date_key(entries[i].0)) && date_of(entries[i].1) is Some {
        date_of(entries[i].1)
    } else {
        first_date(entries, keyed, i + 1)
    }
}

/// The day of an object: the first date under a date's key, else the first date at all.
pub open spec fn day_of(entries: Seq<(Seq<char>, json::Tree)>) -> Option<Seq<char>> {
    match first_date(entries, true, 0) {
        Some(d) => Some(d),
        None => first_date(entries, false, 0),
    }
}

/// What one entry counts.
pub open spec fn reading_of(key: Seq<char>, v: json::Tree) -> Seq<(Metric, i64)> {
    match (metric_of(key), count_of(v)) {
        (Some(m), Some(n)) => seq![(m, n)],
        _ => Seq::empty(),
    }
}

/// What the first `n` entries count, each by itself.
pub open spec fn plain_readings(entries: Seq<(Seq<char>, json::Tree)>, n: int) -> Seq<
    (Metric, i64),
>
    decreases n,
{
    if n <= 0 {
        Seq::empty()
    } else {
        plain_readings(entries, n - 1) + reading_of(entries[n - 1].0, entries[n - 1].1)
    }
}

/// What one entry of a day's object counts: an object in it counts by its own entries.
pub open spec fn entry_readings(key: Seq<char>, v: json::Tree) -> Seq<(Metric, i64)> {
    match v {
        json::Tree::Object(inner) => plain_readings(inner, inner.len() as int),
        _ => reading_of(key, v),
    }
}

/// What the first `n` entries of a day's object count.
pub open spec fn readings_of(entries: Seq<(Seq<char>, json::Tree)>, n: int) -> Seq<(Metric, i64)>
    decreases n,
{
    if n <= 0 {
        Seq::empty()
    } else {
        readings_of(entries, n - 1) + entry_readings(entries[n - 1].0, entries[n - 1].1)
    }
}

/// The row that an item of an array is: an object with a day is one.
pub open spec fn row_of(item: json::Tree) -> Seq<Row> {
    match item {
        json::Tree::Object(entries) => match day_of(entries) {
            Some(day) => seq![Row { day, readings: readings_of(entries, entries.len() as int) }],
            None => Seq::empty(),
        },
        _ => Seq::empty(),
    }
}

/// The rows of the first `n` items.
pub open spec fn array_rows(items: Seq<json::Tree>, n: int) -> Seq<Row>
    decreases n,
{
    if n <= 0 {
        Seq::empty()
    } else {
        array_rows(items, n - 1) + row_of(items[n - 1])
    }
}

/// An array with items, all of them objects.
pub open spec fn is_listing(items: Seq<json::Tree>) -> bool {
    items.len() > 0 && forall|i: int| 0 <= i < items.len() ==> (#[trigger] items[i]) is Object
}

/// The rows of a value: those of each listing anywhere in it.
pub open spec fn rows_in(v: json::Tree) -> Seq<Row>
    decreases v, 1int, 0int,
{
    match v {
        json::Tree::Array(items) => (if is_listing(items) {
            array_rows(items, items.len() as int)
        } else {
            Seq::empty()
        }) + rows_below(v, items.len() as int),
        json::Tree::Object(entries) => rows_below(v, entries.len() as int),
        _ => Seq::empty(),
    }
}

/// The rows of the first `n` values that an array or an object holds.
pub open spec fn rows_below(v: json::Tree, n: int) -> Seq<Row>
    decreases v, 0int, n,
{
    if n <= 0 {
        Seq::empty()
    } else {
        match v {
            json::Tree::Array(items) => if n <= items.len() {
                rows_below(v, n - 1) + rows_in(items[n - 1])
            } else {
                Seq::empty()
            },
            json::Tree::Object(entries) => if n <= entries.len() {
                rows_below(v, n - 1) + rows_in(entries[n - 1].1)
            } else {
                Seq::empty()
            },
            _ => Seq::empty(),
        }
    }
}

/// The rows of the first `n` answers.
pub open spec fn rows_of(answers: Seq<json::Tree>, n: int) -> Seq<Row>
    decreases n,
{
    if n <= 0 {
        Seq::empty()
    } else {
        rows_of(answers, n - 1) + rows_in(answers[n - 1])
    }
}

// ───────── what the rows come to ─────────

/// The greater of two numbers.
pub open spec fn greater(a: i64, b: i64) -> i64 {
    if a >= b {
        a
    } else {
        b
    }
}

/// The greatest reading of a metric, and 0 where there is none above it.
pub open spec fn peak(readings: Seq<(Metric, i64)>, m: Metric) -> i64
    decreases readings.len(),
{
    if readings.len() == 0 {
        0
    } else if readings.last().0 == m {
        greater(peak(readings.drop_last(), m), readings.last().1)
    } else {
        peak(readings.drop_last(), m)
    }
}

/// The greatest reading of a metric in the rows of a day.
pub open spec fn day_peak(rows: Seq<Row>, day: Seq<char>, m: Metric) -> i64
    decreases rows.len(),
{
    if rows.len() == 0 {
        0
    } else if rows.last().day == day {
        greater(day_peak(rows.drop_last(), day, m), peak(rows.last().readings, m))
    } else {
        day_peak(rows.drop_last(), day, m)
    }
}

/// Some row is of this day.
pub open spec fn has_day(rows: Seq<Row>, day: Seq<char>) -> bool {
    exists|i: int| 0 <= i < rows.len() && (#[trigger] rows[i]).day == day
}

/// What the rows of a day come to, metric by metric.
pub open spec fn tally(rows: Seq<Row>, day: Seq<char>) -> DayAcc {
    DayAcc {
        requests: day_peak(rows, day, Metric::Requests),
        hit: day_peak(rows, day, Metric::Hit),
        miss: day_peak(rows, day, Metric::Miss),
        output: day_peak(rows, day, Metric::Output),
        input_total: day_peak(rows, day, Metric::InputTotal),
        tokens_total: day_peak(rows, day, Metric::TokensTotal),
    }
}

/// What the rows come to, by day.
pub open spec fn tallies(rows: Seq<Row>) -> Map<Seq<char>, DayAcc> {
    Map::new(|day: Seq<char>| has_day(rows, day), |day: Seq<char>| tally(rows, day))
}

/// The usage of a day from what was gathered of it. Where neither hits nor misses are
/// known, an input total counts as misses, and so does a total of tokens where the output
/// is not known either.
pub open spec fn settled(a: DayAcc) -> Day {
    Day {
        requests: a.requests,
        hit: a.hit,
        miss: if a.hit == 0 && a.miss == 0 && a.input_total > 0 {
            a.input_total
        } else if a.hit == 0 && a.miss == 0 && a.tokens_total > 0 && a.output == 0 {
            a.tokens_total
        } else {
            a.miss
        },
        output: a.output,
    }
}

/// The usage that rows come to, by day.
pub open spec fn usage_of_rows(rows: Seq<Row>) -> Map<Seq<char>, Day> {
    Map::new(|day: Seq<char>| has_day(rows, day), |day: Seq<char>| settled(tally(rows, day)))
}

/// The usage that answers come to, by day.
pub open spec fn usage_of(answers: Seq<json::Tree>) -> Map<Seq<char>, Day> {
    usage_of_rows(rows_of(answers, answers.len() as int))
}

/// The values that a run of JSON stands for.
pub open spec fn trees(objs: Seq<Json>) -> Seq<json::Tree> {
    objs.map_values(|j: Json| j@)
}

/// `acc` with a reading taken in.
pub open spec fn absorbed(acc: DayAcc, m: Metric, v: i64) -> DayAcc {
    match m {
        Metric::Requests => DayAcc { requests: greater(acc.requests, v), ..acc },
        Metric::Hit => DayAcc { hit: greater(acc.hit, v), ..acc },
        Metric::Miss => DayAcc { miss: greater(acc.miss, v), ..acc },
        Metric::Output => DayAcc { output: greater(acc.output, v), ..acc },
        Metric::InputTotal => DayAcc { input_total: greater(acc.input_total, v), ..acc },
        Metric::TokensTotal => DayAcc { tokens_total: greater(acc.tokens_total, v), ..acc },
    }
}

/// `acc` raised to the peaks of readings.
spec fn raised(acc: DayAcc, readings: Seq<(Metric, i64)>) -> DayAcc {
    DayAcc {
        requests: greater(acc.requests, peak(readings, Metric::Requests)),
        hit: greater(acc.hit, peak(readings, Metric::Hit)),
        miss: greater(acc.miss, peak(readings, Metric::Miss)),
        output: greater(acc.output, peak(readings, Metric::Output)),
        input_total: greater(acc.input_total, peak(readings, Metric::InputTotal)),
        tokens_total: greater(acc.tokens_total, peak(readings, Metric::TokensTotal)),
    }
}

/// Takes a reading in: of several readings of a metric the greatest stays.
pub fn absorb(acc: &mut DayAcc, m: Metric, v: i64)
    ensures
        *final(acc) == absorbed(*old(acc), m, v),
{
    match m {
        Metric::Requests => {
            if v > acc.requests {
                acc.requests = v;
            }
        },
        Metric::Hit => {
            if v > acc.hit {
                acc.hit = v;
            }
        },
        Metric::Miss => {
            if v > acc.miss {
                acc.miss = v;
            }
        },
        Metric::Output => {
            if v > acc.output {
                acc.output = v;
            }
        },
        Metric::InputTotal => {
            if v > acc.input_total {
                acc.input_total = v;
            }
        },
        Metric::TokensTotal => {
            if v > acc.tokens_total {
                acc.tokens_total = v;
            }
        },
    }
}

proof fn lemma_raised_more(acc: DayAcc, readings: Seq<(Metric, i64)>, m: Metric, v: i64)
    ensures
        raised(acc, readings + seq![(m, v)]) == absorbed(raised(acc, readings), m, v),
        raised(acc, readings + Seq::<(Metric, i64)>::empty()) == raised(acc, readings),
{
    let more = readings + seq![(m, v)];
    assert(more.drop_last() =~= readings);
    assert(more.last() == (m, v));
    assert(readings + Seq::<(Metric, i64)>::empty() =~= readings);
}

proof fn lemma_day_peak_not_negative(rows: Seq<Row>, day: Seq<char>, m: Metric)
    ensures
        day_peak(rows, day, m) >= 0,
    decreases rows.len(),
{
    if rows.len() > 0 {
        lemma_day_peak_not_negative(rows.drop_last(), day, m);
    }
}

proof fn lemma_no_day(rows: Seq<Row>, day: Seq<char>, m: Metric)
    requires
        !has_day(rows, day),
    ensures
        day_peak(rows, day, m) == 0,
    decreases rows.len(),
{
    if rows.len() > 0 {
        assert forall|i: int| 0 <= i < rows.drop_last().len() implies (
        #[trigger] rows.drop_last()[i]).day != day by {
            assert(rows[i].day != day);
        }
        assert(rows[rows.len() - 1].day != day);
        lemma_no_day(rows.drop_last(), day, m);
    }
}

/// What a row adds to what the rows before it come to.
proof fn lemma_one_more_row(rows: Seq<Row>, row: Row)
    ensures
        tallies(rows + seq![row]) == tallies(rows).insert(
            row.day,
            raised(tally(rows, row.day), row.readings),
        ),
        raised(tally(rows, row.day), Seq::<(Metric, i64)>::empty()) == tally(rows, row.day),
        !has_day(rows, row.day) ==> tally(rows, row.day) == no_tally(),
{
    let more = rows + seq![row];
    assert(more.drop_last() =~= rows);
    assert(more.last() == row);
    lemma_day_peak_not_negative(rows, row.day, Metric::Requests);
    lemma_day_peak_not_negative(rows, row.day, Metric::Hit);
    lemma_day_peak_not_negative(rows, row.day, Metric::Miss);
    lemma_day_peak_not_negative(rows, row.day, Metric::Output);
    lemma_day_peak_not_negative(rows, row.day, Metric::InputTotal);
    lemma_day_peak_not_negative(rows, row.day, Metric::TokensTotal);
    if !has_day(rows, row.day) {
        lemma_no_day(rows, row.day, Metric::Requests);
        lemma_no_day(rows, row.day, Metric::Hit);
        lemma_no_day(rows, row.day, Metric::Miss);
        lemma_no_day(rows, row.day, Metric::Output);
        lemma_no_day(rows, row.day, Metric::InputTotal);
        lemma_no_day(rows, row.day, Metric::TokensTotal);
    }
    let after = tallies(rows).insert(row.day, raised(tally(rows, row.day), row.readings));
    assert forall|day: Seq<char>| #[trigger]
        tallies(more).contains_key(day) == after.contains_key(day) by {
        if has_day(more, day) {
            let i = choose|i: int| 0 <= i < more.len() && (#[trigger] more[i]).day == day;
            if i < rows.len() {
                assert(rows[i].day == day);
            }
        }
        if has_day(rows, day) {
            let i = choose|i: int| 0 <= i < rows.len() && (#[trigger] rows[i]).day == day;
            assert(more[i].day == day);
        }
        assert(more[rows.len() as int].day == row.day);
    }
    assert(tallies(more) =~= after);
}

/// Nothing gathered.
spec fn no_tally() -> DayAcc {
    DayAcc { requests: 0, hit: 0, miss: 0, output: 0, input_total: 0, tokens_total: 0 }
}

// ───────── gathering ─────────

/// The entries of an object, as a sequence of what they stand for.
pub open spec fn entry_trees(entries: Seq<(String, Json)>) -> Seq<(Seq<char>, json::Tree)> {
    Seq::new(entries.len(), |i: int| (entries[i].0@, entries[i].1@))
}

proof fn lemma_entries(v: Json)
    requires
        v is Object,
    ensures
        v@ == json::Tree::Object(entry_trees(v->Object_0@)),
{
    assert(v@->Object_0 =~= entry_trees(v->Object_0@));
}

proof fn lemma_items(v: Json)
    requires
        v is Array,
    ensures
        v@ == json::Tree::Array(trees(v->Array_0@)),
{
    assert(v@->Array_0 =~= trees(v->Array_0@));
}

fn find_date(entries: &Vec<(String, Json)>, keyed: bool) -> (r: Option<String>)
    ensures
        match r {
            Some(s) => first_date(entry_trees(entries@), keyed, 0) == Some(s@),
            None => first_date(entry_trees(entries@), keyed, 0) is None,
        },
{
    let ghost rows = entry_trees(entries@);
    let mut i: usize = 0;
    while i < entries.len()
        invariant
            rows == entry_trees(entries@),
            i <= entries@.len(),
            first_date(rows, keyed, 0) == first_date(rows, keyed, i as int),
        decreases entries@.len() - i,
    {
        if !keyed || date_key(entries[i].0.as_str()) {
            let d: Option<String> = value_to_date(&entries[i].1);
            if d.is_some() {
                return d;
            }
        }
        i = i + 1;
    }
    None
}

/// The day of an object.
pub fn object_day(entries: &Vec<(String, Json)>) -> (r: Option<String>)
    ensures
        match r {
            Some(s) => day_of(entry_trees(entries@)) == Some(s@),
            None => day_of(entry_trees(entries@)) is None,
        },
{
    let d: Option<String> = find_date(entries, true);
    if d.is_some() {
        d
    } else {
        find_date(entries, false)
    }
}

fn absorb_reading(
    acc: &mut DayAcc,
    key: &str,
    v: &Json,
    Ghost(base): Ghost<DayAcc>,
    Ghost(seen): Ghost<Seq<(Metric, i64)>>,
)
    requires
        *old(acc) == raised(base, seen),
    ensures
        *final(acc) == raised(base, seen + reading_of(key@, v@)),
{
    if let (Some(m), Some(n)) = (classify_key(key), as_int(v)) {
        proof {
            lemma_raised_more(base, seen, m, n);
        }
        absorb(acc, m, n);
    } else {
        assert(seen + reading_of(key@, v@) =~= seen);
    }
}

fn absorb_entries(acc: &mut DayAcc, entries: &Vec<(String, Json)>)
    requires
        raised(*old(acc), Seq::empty()) == *old(acc),
    ensures
        *final(acc) == raised(
            *old(acc),
            readings_of(entry_trees(entries@), entries@.len() as int),
        ),
{
    let ghost base = *acc;
    let ghost rows = entry_trees(entries@);
    let mut i: usize = 0;
    while i < entries.len()
        invariant
            rows == entry_trees(entries@),
            i <= entries@.len(),
            *acc == raised(base, readings_of(rows, i as int)),
        decreases entries@.len() - i,
    {
        let ghost seen = readings_of(rows, i as int);
        match &entries[i].1 {
            Json::Object(inner) => {
                let ghost below = entry_trees(inner@);
                proof {
                    lemma_entries(entries@[i as int].1);
                }
                let mut j: usize = 0;
                assert(seen + plain_readings(below, 0) =~= seen);
                while j < inner.len()
                    invariant
                        below == entry_trees(inner@),
                        j <= inner@.len(),
                        *acc == raised(base, seen + plain_readings(below, j as int)),
                    decreases inner@.len() - j,
                {
                    let ghost now = seen + plain_readings(below, j as int);
                    absorb_reading(
                        acc,
                        inner[j].0.as_str(),
                        &inner[j].1,
                        Ghost(base),
                        Ghost(now),
                    );
                    assert(now + reading_of(below[j as int].0, below[j as int].1) =~= seen
                        + plain_readings(below, j + 1));
                    j = j + 1;
                }
            },
            other => {
                assert(entry_readings(rows[i as int].0, rows[i as int].1) == reading_of(
                    rows[i as int].0,
                    rows[i as int].1,
                ));
                absorb_reading(acc, entries[i].0.as_str(), other, Ghost(base), Ghost(seen));
            },
        }
        i = i + 1;
    }
}

/// Takes in an array of objects that each have a day and numbers.
fn handle_array(
    arr: &Vec<Json>,
    out: &mut Table<DayAcc>,
    Ghost(rows): Ghost<Seq<Row>>,
)
    requires
        old(out)@ == tallies(rows),
    ensures
        final(out)@ == tallies(rows + array_rows(trees(arr@), arr@.len() as int)),
{
    let ghost items = trees(arr@);
    let mut i: usize = 0;
    assert(rows + array_rows(items, 0) =~= rows);
    while i < arr.len()
        invariant
            items == trees(arr@),
            i <= arr@.len(),
            out@ == tallies(rows + array_rows(items, i as int)),
        decreases arr@.len() - i,
    {
        let ghost now = rows + array_rows(items, i as int);
        let ghost next = rows + array_rows(items, i + 1);
        assert(next =~= now + row_of(items[i as int]));
        match &arr[i] {
            Json::Object(entries) => {
                proof {
                    lemma_entries(arr@[i as int]);
                }
                let ghost below = entry_trees(entries@);
                if let Some(day) = object_day(entries) {
                    let ghost row = Row {
                        day: day@,
                        readings: readings_of(below, below.len() as int),
                    };
                    assert(row_of(items[i as int]) =~= seq![row]);
                    proof {
                        lemma_one_more_row(now, row);
                    }
                    let mut acc: DayAcc = match out.get(day.as_str()) {
                        Some(a) => *a,
                        None => DayAcc {
                            requests: 0,
                            hit: 0,
                            miss: 0,
                            output: 0,
                            input_total: 0,
                            tokens_total: 0,
                        },
                    };
                    assert(acc == tally(now, day@));
                    absorb_entries(&mut acc, entries);
                    out.insert(day, acc);
                } else {
                    assert(now + row_of(items[i as int]) =~= now);
                }
            },
            _ => {
                assert(now + row_of(items[i as int]) =~= now);
            },
        }
        i = i + 1;
    }
}

/// Whether an array has items and all of them are objects.
fn listing(arr: &Vec<Json>) -> (r: bool)
    ensures
        r == is_listing(trees(arr@)),
{
    let ghost items = trees(arr@);
    let mut i: usize = 0;
    while i < arr.len()
        invariant
            items == trees(arr@),
            i <= arr@.len(),
            forall|j: int| 0 <= j < i ==> (#[trigger] items[j]) is Object,
        decreases arr@.len() - i,
    {
        assert(items[i as int] == arr@[i as int]@);
        match &arr[i] {
            Json::Object(_) => {},
            _ => {
                assert(!(items[i as int] is Object));
                return false;
            },
        }
        i = i + 1;
    }
    arr.len() > 0
}

/// Looks for listings anywhere in a value and takes them in.
fn walk(v: &Json, out: &mut Table<DayAcc>, Ghost(rows): Ghost<Seq<Row>>)
    requires
        old(out)@ == tallies(rows),
    ensures
        final(out)@ == tallies(rows + rows_in(v@)),
    decreases v@,
{
    let ghost tree = v@;
    match v {
        Json::Array(a) => {
            proof {
                lemma_items(*v);
            }
            let ghost items = trees(a@);
            let ghost mut now = rows;
            if listing(a) {
                handle_array(a, out, Ghost(rows));
                proof {
                    now = rows + array_rows(items, items.len() as int);
                }
            }
            let mut i: usize = 0;
            assert(now + rows_below(tree, 0) =~= now);
            while i < a.len()
                invariant
                    tree == v@,
                    tree == json::Tree::Array(items),
                    items == trees(a@),
                    i <= a@.len(),
                    out@ == tallies(now + rows_below(tree, i as int)),
                decreases a@.len() - i,
            {
                assert(items[i as int] == a@[i as int]@);
                assert(decreases_to!(tree => tree->Array_0[i as int]));
                walk(&a[i], out, Ghost(now + rows_below(tree, i as int)));
                assert(now + rows_below(tree, i as int) + rows_in(items[i as int]) =~= now
                    + rows_below(tree, i + 1));
                i = i + 1;
            }
            assert(now + rows_below(tree, items.len() as int) =~= rows + rows_in(tree));
        },
        Json::Object(o) => {
            proof {
                lemma_entries(*v);
            }
            let ghost entries = entry_trees(o@);
            let mut i: usize = 0;
            assert(rows + rows_below(tree, 0) =~= rows);
            while i < o.len()
                invariant
                    tree == v@,
                    tree == json::Tree::Object(entries),
                    entries == entry_trees(o@),
                    i <= o@.len(),
                    out@ == tallies(rows + rows_below(tree, i as int)),
                decreases o@.len() - i,
            {
                assert(entries[i as int].1 == o@[i as int].1@);
                assert(decreases_to!(tree => tree->Object_0[i as int].1));
                walk(&o[i].1, out, Ghost(rows + rows_below(tree, i as int)));
                assert(rows + rows_below(tree, i as int) + rows_in(entries[i as int].1) =~= rows
                    + rows_below(tree, i + 1));
                i = i + 1;
            }
        },
        _ => {
            assert(rows + rows_in(tree) =~= rows);
        },
    }
}

/// The usage of a day from what was gathered of it.
pub fn settle(a: DayAcc) -> (r: Day)
    ensures
        r == settled(a),
        r.requests == a.requests,
        r.hit == a.hit,
        r.output == a.output,
        a.hit != 0 || a.miss != 0 ==> r.miss == a.miss,
{
    let mut d: Day = Day { requests: a.requests, hit: a.hit, miss: a.miss, output: a.output };
    if d.hit == 0 && d.miss == 0 {
        if a.input_total > 0 {
            d.miss = a.input_total;
        } else if a.tokens_total > 0 && d.output == 0 {
            d.miss = a.tokens_total;
        }
    }
    d
}

/// The usage, by day, that answers of the platform come to.
pub fn normalize_captures(objs: &[Json]) -> (r: Table<Day>)
    ensures
        r@ == usage_of(trees(objs@)),
{
    let ghost answers = trees(objs@);
    let mut acc: Table<DayAcc> = Table::new();
    assert(acc@ =~= tallies(Seq::empty()));
    let mut i: usize = 0;
    while i < objs.len()
        invariant
            answers == trees(objs@),
            i <= objs@.len(),
            acc@ == tallies(rows_of(answers, i as int)),
        decreases objs@.len() - i,
    {
        walk(&objs[i], &mut acc, Ghost(rows_of(answers, i as int)));
        i = i + 1;
    }
    let ghost rows = rows_of(answers, answers.len() as int);
    let n: usize = acc.len();
    let mut out: Table<Day> = Table::new();
    let mut k: usize = 0;
    while k < n
        invariant
            n == acc.rows().len(),
            k <= n,
            acc@ == tallies(rows),
            forall|day: Seq<char>| #[trigger]
                out@.contains_key(day) <==> exists|j: int|
                    0 <= j < k && (#[trigger] acc.rows()[j]).0 == day,
            forall|day: Seq<char>| #[trigger]
                out@.contains_key(day) ==> acc@.contains_key(day) && out@[day] == settled(
                    acc@[day],
                ),
        decreases n - k,
    {
        let ghost was = out@;
        let d: Day = settle(*acc.value_at(k));
        let day: String = acc.key_at(k).to_owned();
        let ghost key = day@;
        out.insert(day, d);
        assert forall|day: Seq<char>| #[trigger]
            out@.contains_key(day) <==> exists|j: int|
                0 <= j < k + 1 && (#[trigger] acc.rows()[j]).0 == day by {
            if was.contains_key(day) {
                let j = choose|j: int| 0 <= j < k && (#[trigger] acc.rows()[j]).0 == day;
                assert(acc.rows()[j].0 == day);
            }
            assert(acc.rows()[k as int].0 == key);
        }
        k = k + 1;
    }
    assert(out@ =~= usage_of(answers)) by {
        assert forall|day: Seq<char>| acc@.contains_key(day) implies #[trigger] out@.contains_key(
            day,
        ) by {
            let j = choose|j: int| crate::table::row_under(acc.rows(), day, j);
            assert(acc.rows()[j].0 == day);
        }
    }
    out
}

// ───────── the last days ─────────

/// The day that stands at `i` when the last `days` days up to `today` are counted.
pub open spec fn series_day(today: Ymd, days: int, i: int) -> Ymd {
    date::civil(today.day_number() - (days - 1) + i)
}

/// The usage of a day, nothing where none is known.
pub open spec fn usage_on(usage: Map<Seq<char>, Day>, day: Seq<char>) -> Day {
    if usage.contains_key(day) {
        usage[day]
    } else {
        Day { requests: 0, hit: 0, miss: 0, output: 0 }
    }
}

/// `series` is the usage of the last `days` days up to `today`, day by day.
pub open spec fn is_series(
    series: Seq<(String, Day)>,
    usage: Map<Seq<char>, Day>,
    today: Ymd,
    days: int,
) -> bool {
    &&& series.len() == if days > 0 {
        days
    } else {
        0
    }
    &&& forall|i: int|
        0 <= i < series.len() ==> (#[trigger] series[i]).0@ == date::date_text(
            series_day(today, days, i),
        ) && series[i].1 == usage_on(usage, date::date_text(series_day(today, days, i)))
}

/// The last `days` days up to `today` have day numbers.
pub open spec fn series_fits(today: Ymd, days: int) -> bool {
    &&& i64::MIN <= today.day_number() <= i64::MAX
    &&& days > 0 ==> i64::MIN <= today.day_number() - (days - 1)
}

/// Whether the last `days` days up to `today` have day numbers.
pub fn series_ok(today: Ymd, days: i64) -> (r: bool)
    ensures
        r == series_fits(today, days as int),
{
    let n: i128 = today.count_days();
    i64::MIN as i128 <= n && n <= i64::MAX as i128 && (days <= 0 || i64::MIN as i128 <= n - (
    days as i128 - 1))
}

/// The usage of the last `days` days up to `today`, day by day; a day of which nothing is
/// known stands there with zeros.
pub fn day_series(day_map: &Table<Day>, today: Ymd, days: i64) -> (r: Vec<(String, Day)>)
    requires
        series_fits(today, days as int),
    ensures
        is_series(r@, day_map@, today, days as int),
        days > 0 ==> r@.len() == days,
        days <= 0 ==> r@.len() == 0,
        forall|i: int|
            0 <= i < r@.len() && day_map@.contains_key((#[trigger] r@[i]).0@) ==> r@[i].1
                == day_map@[r@[i].0@],
        forall|i: int|
            0 <= i < r@.len() && !day_map@.contains_key((#[trigger] r@[i]).0@) ==> r@[i].1 == (Day {
                requests: 0,
                hit: 0,
                miss: 0,
                output: 0,
            }),
{
    let mut r: Vec<(String, Day)> = Vec::new();
    if days <= 0 {
        return r;
    }
    let start: Ymd = today.minus_days(days - 1);
    let mut i: i64 = 0;
    while i < days
        invariant
            series_fits(today, days as int),
            0 <= i <= days,
            start.day_number() == today.day_number() - (days - 1),
            r@.len() == i,
            forall|j: int|
                0 <= j < i ==> (#[trigger] r@[j]).0@ == date::date_text(
                    series_day(today, days as int, j),
                ) && r@[j].1 == usage_on(
                    day_map@,
                    date::date_text(series_day(today, days as int, j)),
                ),
        decreases days - i,
    {
        let d: String = start.minus_days(-i).to_string();
        let v: Day = match day_map.get(d.as_str()) {
            Some(v) => *v,
            None => Day::default(),
        };
        r.push((d, v));
        i = i + 1;
    }
    r
}

/// In a series of days each day that something is known of stands with what is known of it, in
/// all its numbers, and each other day with zeros.
pub proof fn law_series_as_known(
    series: Seq<(String, Day)>,
    usage: Map<Seq<char>, Day>,
    today: Ymd,
    days: int,
    i: int,
)
    requires
        is_series(series, usage, today, days),
        0 <= i < series.len(),
    ensures
        series[i].0@ == date::date_text(series_day(today, days, i)),
        usage.contains_key(series[i].0@) ==> {
            &&& series[i].1.requests == usage[series[i].0@].requests
            &&& series[i].1.hit == usage[series[i].0@].hit
            &&& series[i].1.miss == usage[series[i].0@].miss
            &&& series[i].1.output == usage[series[i].0@].output
        },
        !usage.contains_key(series[i].0@) ==> {
            &&& series[i].1.requests == 0
            &&& series[i].1.hit == 0
            &&& series[i].1.miss == 0
            &&& series[i].1.output == 0
        },
{
}

/// The last days of usual years can be told, whatever their number.
pub proof fn law_usual_days_told(today: Ymd, days: int)
    requires
        -400_000 <= today.day_number() <= 3_000_000,
        days <= 1_000_000,
    ensures
        series_fits(today, days),
{
}

/// The values that a run of JSON stands for stand in the same order, one for each.
pub proof fn law_values_in_order(objs: Seq<Json>, i: int)
    requires
        0 <= i < objs.len(),
    ensures
        trees(objs).len() == objs.len(),
        trees(objs)[i] == objs[i]@,
{
}

/// The last of the days is today.
pub proof fn law_series_ends_today(today: Ymd, days: int)
    requires
        today.is_valid(),
        days > 0,
    ensures
        series_day(today, days, days - 1) == today,
{
    date::law_civil_undoes_day_number(today);
}

/// Each of the days comes right after the one before it.
pub proof fn law_series_consecutive(today: Ymd, days: int, i: int)
    requires
        series_fits(today, days),
        0 < i < days,
    ensures
        series_day(today, days, i - 1).is_valid(),
        series_day(today, days, i).is_valid(),
        series_day(today, days, i).day_number() == series_day(today, days, i - 1).day_number() + 1,
{
    date::law_civil_has_day_number((today.day_number() - (days - 1) + i - 1) as i64);
    date::law_civil_has_day_number((today.day_number() - (days - 1) + i) as i64);
}

// ───────── what holds of the usage ─────────

/// Every row of `a` is a row of `b`.
pub open spec fn rows_within(a: Seq<Row>, b: Seq<Row>) -> bool {
    forall|i: int| 0 <= i < a.len() ==> b.contains(#[trigger] a[i])
}

proof fn lemma_row_below_peak(rows: Seq<Row>, row: Row, m: Metric)
    requires
        rows.contains(row),
    ensures
        peak(row.readings, m) <= day_peak(rows, row.day, m),
    decreases rows.len(),
{
    let i = choose|i: int| 0 <= i < rows.len() && rows[i] == row;
    if i < rows.len() - 1 {
        assert(rows.drop_last()[i] == row);
        lemma_row_below_peak(rows.drop_last(), row, m);
    }
}

proof fn lemma_peaks_within(a: Seq<Row>, b: Seq<Row>, day: Seq<char>, m: Metric)
    requires
        rows_within(a, b),
    ensures
        day_peak(a, day, m) <= day_peak(b, day, m),
    decreases a.len(),
{
    if a.len() == 0 {
        lemma_day_peak_not_negative(b, day, m);
    } else {
        assert forall|i: int| 0 <= i < a.drop_last().len() implies b.contains(
            #[trigger] a.drop_last()[i],
        ) by {
            assert(b.contains(a[i]));
        }
        lemma_peaks_within(a.drop_last(), b, day, m);
        assert(b.contains(a[a.len() - 1]));
        if a.last().day == day {
            lemma_row_below_peak(b, a.last(), m);
        }
    }
}

proof fn lemma_days_within(a: Seq<Row>, b: Seq<Row>, day: Seq<char>)
    requires
        rows_within(a, b),
        has_day(a, day),
    ensures
        has_day(b, day),
{
    let i = choose|i: int| 0 <= i < a.len() && (#[trigger] a[i]).day == day;
    assert(b.contains(a[i]));
    let j = choose|j: int| 0 <= j < b.len() && b[j] == a[i];
    assert(b[j].day == day);
}

/// The reading `j` of the row `i` is one of this metric, on this day.
pub open spec fn is_reading(rows: Seq<Row>, day: Seq<char>, m: Metric, i: int, j: int) -> bool {
    &&& 0 <= i < rows.len()
    &&& rows[i].day == day
    &&& 0 <= j < rows[i].readings.len()
    &&& rows[i].readings[j].0 == m
}

proof fn lemma_peak(readings: Seq<(Metric, i64)>, m: Metric)
    ensures
        peak(readings, m) >= 0,
        forall|j: int|
            0 <= j < readings.len() && (#[trigger] readings[j]).0 == m ==> readings[j].1 <= peak(
                readings,
                m,
            ),
        peak(readings, m) == 0 || exists|j: int|
            0 <= j < readings.len() && #[trigger] readings[j] == (m, peak(readings, m)),
    decreases readings.len(),
{
    if readings.len() > 0 {
        let before = readings.drop_last();
        lemma_peak(before, m);
        assert forall|j: int|
            0 <= j < readings.len() && (#[trigger] readings[j]).0 == m implies readings[j].1 <= peak(
            readings,
            m,
        ) by {
            if j < before.len() {
                assert(before[j] == readings[j]);
            }
        }
        if peak(readings, m) != 0 {
            if readings.last() == (m, peak(readings, m)) {
                assert(readings[readings.len() - 1] == (m, peak(readings, m)));
            } else {
                let j = choose|j: int|
                    0 <= j < before.len() && #[trigger] before[j] == (m, peak(before, m));
                assert(readings[j] == (m, peak(readings, m)));
            }
        }
    }
}

/// The count of a day is the greatest that the platform states of it anywhere, and 0 where
/// none is above it. (Counts of the same thing are not added up.)
pub proof fn law_greatest_reading_counts(rows: Seq<Row>, day: Seq<char>, m: Metric)
    ensures
        day_peak(rows, day, m) >= 0,
        forall|i: int, j: int| #[trigger]
            is_reading(rows, day, m, i, j) ==> rows[i].readings[j].1 <= day_peak(rows, day, m),
        day_peak(rows, day, m) == 0 || exists|i: int, j: int| #[trigger]
            is_reading(rows, day, m, i, j) && rows[i].readings[j].1 == day_peak(rows, day, m),
    decreases rows.len(),
{
    if rows.len() > 0 {
        let n = rows.len() - 1;
        let before = rows.drop_last();
        let top = day_peak(rows, day, m);
        law_greatest_reading_counts(before, day, m);
        lemma_peak(rows[n].readings, m);
        assert forall|i: int, j: int| #[trigger]
            is_reading(rows, day, m, i, j) implies rows[i].readings[j].1 <= top by {
            if i < n {
                assert(is_reading(before, day, m, i, j));
            }
        }
        if top != 0 {
            if rows[n].day == day && peak(rows[n].readings, m) == top {
                let j = choose|j: int|
                    0 <= j < rows[n].readings.len() && #[trigger] rows[n].readings[j] == (m, top);
                assert(is_reading(rows, day, m, n, j));
            } else {
                let (i, j) = choose|i: int, j: int| #[trigger]
                    is_reading(before, day, m, i, j) && before[i].readings[j].1 == top;
                assert(is_reading(rows, day, m, i, j));
            }
        }
    }
}

/// Requests, hits and output are the greatest that the platform states, and so are the misses
/// wherever it states hits or misses. Only where it states neither does an input total stand in
/// for the misses, or else a total of tokens, the latter only where there is no output either.
pub proof fn law_stated_counts_kept(answers: Seq<json::Tree>, day: Seq<char>)
    requires
        usage_of(answers).contains_key(day),
    ensures
        ({
            let rows = rows_of(answers, answers.len() as int);
            let d = usage_of(answers)[day];
            let hit = day_peak(rows, day, Metric::Hit);
            let miss = day_peak(rows, day, Metric::Miss);
            let output = day_peak(rows, day, Metric::Output);
            let input = day_peak(rows, day, Metric::InputTotal);
            let tokens = day_peak(rows, day, Metric::TokensTotal);
            &&& d.requests == day_peak(rows, day, Metric::Requests)
            &&& d.hit == hit
            &&& d.output == output
            &&& hit > 0 || miss > 0 ==> d.miss == miss
            &&& hit == 0 && miss == 0 && input > 0 ==> d.miss == input
            &&& hit == 0 && miss == 0 && input == 0 && tokens > 0 && output == 0 ==> d.miss
                == tokens
            &&& hit == 0 && miss == 0 && input == 0 && (tokens == 0 || output > 0) ==> d.miss == 0
            &&& hit >= 0 && miss >= 0 && output >= 0 && input >= 0 && tokens >= 0
        }),
{
    let rows = rows_of(answers, answers.len() as int);
    lemma_day_peak_not_negative(rows, day, Metric::Hit);
    lemma_day_peak_not_negative(rows, day, Metric::Miss);
    lemma_day_peak_not_negative(rows, day, Metric::Output);
    lemma_day_peak_not_negative(rows, day, Metric::InputTotal);
    lemma_day_peak_not_negative(rows, day, Metric::TokensTotal);
}

// ───────── where the usage is from ─────────

/// A listing, to which `path` leads in `v`, has this row at `i`: all its items are objects, and
/// the one at `i` has this day and these readings.
pub open spec fn lists_row(v: json::Tree, path: Seq<int>, i: int, row: Row) -> bool {
    match json::part_at(v, path) {
        Some(json::Tree::Array(items)) => {
            &&& 0 <= i < items.len()
            &&& forall|j: int| 0 <= j < items.len() ==> (#[trigger] items[j]) is Object
            &&& items[i] matches json::Tree::Object(entries) && day_of(entries) == Some(row.day)
                && row.readings == readings_of(entries, entries.len() as int)
        },
        _ => false,
    }
}

proof fn lemma_row_of_item(items: Seq<json::Tree>, n: int, row: Row) -> (i: int)
    requires
        n <= items.len(),
        array_rows(items, n).contains(row),
    ensures
        0 <= i < n,
        row_of(items[i]) == seq![row],
    decreases n,
{
    let all = array_rows(items, n);
    let k = choose|k: int| 0 <= k < all.len() && all[k] == row;
    if n <= 0 {
        0
    } else {
        let before = array_rows(items, n - 1);
        if k < before.len() {
            assert(before[k] == row);
            lemma_row_of_item(items, n - 1, row)
        } else {
            assert(row_of(items[n - 1])[k - before.len()] == row);
            n - 1
        }
    }
}

proof fn lemma_item_has_row(items: Seq<json::Tree>, n: int, i: int, row: Row)
    requires
        0 <= i < n <= items.len(),
        row_of(items[i]) == seq![row],
    ensures
        array_rows(items, n).contains(row),
    decreases n,
{
    let before = array_rows(items, n - 1);
    let here = row_of(items[n - 1]);
    if i == n - 1 {
        assert((before + here)[before.len() as int] == row);
    } else {
        lemma_item_has_row(items, n - 1, i, row);
        let k = choose|k: int| 0 <= k < before.len() && before[k] == row;
        assert((before + here)[k] == row);
    }
}

proof fn lemma_row_listed(v: json::Tree, row: Row) -> (r: (Seq<int>, int))
    requires
        rows_in(v).contains(row),
    ensures
        lists_row(v, r.0, r.1, row),
    decreases v, 1int, 0int,
{
    let all = rows_in(v);
    let k = choose|k: int| 0 <= k < all.len() && all[k] == row;
    match v {
        json::Tree::Array(items) => {
            let n = items.len() as int;
            let here = if is_listing(items) {
                array_rows(items, n)
            } else {
                Seq::empty()
            };
            if k < here.len() {
                assert(here[k] == row);
                let i = lemma_row_of_item(items, n, row);
                assert(items[i] is Object);
                assert(seq![row][0] == row_of(items[i])[0]);
                (Seq::empty(), i)
            } else {
                assert(rows_below(v, n)[k - here.len()] == row);
                lemma_row_below(v, n, row)
            }
        },
        json::Tree::Object(entries) => lemma_row_below(v, entries.len() as int, row),
        _ => (Seq::empty(), 0),
    }
}

proof fn lemma_row_below(v: json::Tree, n: int, row: Row) -> (r: (Seq<int>, int))
    requires
        rows_below(v, n).contains(row),
    ensures
        lists_row(v, r.0, r.1, row),
    decreases v, 0int, n,
{
    let all = rows_below(v, n);
    let k = choose|k: int| 0 <= k < all.len() && all[k] == row;
    let before = rows_below(v, n - 1);
    if k < before.len() {
        assert(before[k] == row);
        lemma_row_below(v, n - 1, row)
    } else {
        let (path, i) = match v {
            json::Tree::Array(items) => {
                assert(rows_in(items[n - 1])[k - before.len()] == row);
                lemma_row_listed(items[n - 1], row)
            },
            json::Tree::Object(entries) => {
                assert(rows_in(entries[n - 1].1)[k - before.len()] == row);
                lemma_row_listed(entries[n - 1].1, row)
            },
            _ => (Seq::empty(), 0),
        };
        json::lemma_step_first(v, n - 1, path);
        (seq![n - 1] + path, i)
    }
}

proof fn lemma_below_has_row(v: json::Tree, n: int, k: int, row: Row)
    requires
        0 <= k < n,
        json::child(v, n - 1) is Some,
        json::child(v, k) is Some,
        rows_in(json::child(v, k)->0).contains(row),
    ensures
        rows_below(v, n).contains(row),
    decreases n,
{
    let before = rows_below(v, n - 1);
    let here = rows_in(json::child(v, n - 1)->0);
    assert(rows_below(v, n) == before + here);
    if k == n - 1 {
        let i = choose|i: int| 0 <= i < here.len() && here[i] == row;
        assert((before + here)[before.len() + i] == row);
    } else {
        lemma_below_has_row(v, n - 1, k, row);
        let i = choose|i: int| 0 <= i < before.len() && before[i] == row;
        assert((before + here)[i] == row);
    }
}

proof fn lemma_listed_row(v: json::Tree, path: Seq<int>, i: int, row: Row)
    requires
        lists_row(v, path, i, row),
    ensures
        rows_in(v).contains(row),
    decreases path.len(),
{
    if path.len() == 0 {
        let items = v->Array_0;
        let n = items.len() as int;
        assert(is_listing(items));
        assert(row_of(items[i]) =~= seq![row]);
        lemma_item_has_row(items, n, i, row);
        let here = array_rows(items, n);
        let k = choose|k: int| 0 <= k < here.len() && here[k] == row;
        assert((here + rows_below(v, n))[k] == row);
    } else {
        let c = json::child(v, path[0])->0;
        lemma_listed_row(c, path.drop_first(), i, row);
        let n = match v {
            json::Tree::Array(items) => items.len() as int,
            json::Tree::Object(entries) => entries.len() as int,
            _ => 0,
        };
        lemma_below_has_row(v, n, path[0], row);
        let below = rows_below(v, n);
        let k = choose|k: int| 0 <= k < below.len() && below[k] == row;
        match v {
            json::Tree::Array(items) => {
                let here = if is_listing(items) {
                    array_rows(items, n)
                } else {
                    Seq::empty()
                };
                assert((here + below)[here.len() + k] == row);
            },
            _ => {
                assert(below[k] == row);
            },
        }
    }
}

/// The rows of an answer are the objects with a day of every listing in it, however deep it
/// stands, and nothing else.
pub proof fn law_rows_from_anywhere(v: json::Tree, row: Row)
    ensures
        rows_in(v).contains(row) <==> exists|path: Seq<int>, i: int| #[trigger]
            lists_row(v, path, i, row),
{
    if rows_in(v).contains(row) {
        let (path, i) = lemma_row_listed(v, row);
        assert(lists_row(v, path, i, row));
    }
    if exists|path: Seq<int>, i: int| #[trigger] lists_row(v, path, i, row) {
        let (path, i) = choose|path: Seq<int>, i: int| #[trigger] lists_row(v, path, i, row);
        lemma_listed_row(v, path, i, row);
    }
}

/// The rows of some answers are those of each of them.
pub proof fn law_rows_of_every_answer(answers: Seq<json::Tree>, row: Row)
    ensures
        rows_of(answers, answers.len() as int).contains(row) <==> exists|k: int|
            0 <= k < answers.len() && rows_in(#[trigger] answers[k]).contains(row),
{
    let n = answers.len() as int;
    if rows_of(answers, n).contains(row) {
        let k = lemma_row_source(answers, n, row);
        assert(rows_in(answers[k]).contains(row));
    }
    if exists|k: int| 0 <= k < n && rows_in(#[trigger] answers[k]).contains(row) {
        let k = choose|k: int| 0 <= k < n && rows_in(#[trigger] answers[k]).contains(row);
        lemma_row_reaches(answers, n, k, row);
    }
}

/// The entry `k` counts `n` of `m`, by its name and its number.
pub open spec fn counts(
    entries: Seq<(Seq<char>, json::Tree)>,
    k: int,
    m: Metric,
    n: i64,
) -> bool {
    &&& 0 <= k < entries.len()
    &&& metric_of(entries[k].0) == Some(m)
    &&& count_of(entries[k].1) == Some(n)
}

/// The entry `k` of a day's object counts `n` of `m`: itself, or by an entry of the object that
/// it is.
pub open spec fn counts_within(
    entries: Seq<(Seq<char>, json::Tree)>,
    k: int,
    m: Metric,
    n: i64,
) -> bool {
    &&& 0 <= k < entries.len()
    &&& match entries[k].1 {
        json::Tree::Object(inner) => exists|l: int| #[trigger] counts(inner, l, m, n),
        _ => counts(entries, k, m, n),
    }
}

proof fn lemma_plain_readings(entries: Seq<(Seq<char>, json::Tree)>, n: int, m: Metric, c: i64)
    requires
        0 <= n <= entries.len(),
    ensures
        plain_readings(entries, n).contains((m, c)) <==> exists|k: int|
            k < n && #[trigger] counts(entries, k, m, c),
    decreases n,
{
    if n > 0 {
        lemma_plain_readings(entries, n - 1, m, c);
        let before = plain_readings(entries, n - 1);
        let here = reading_of(entries[n - 1].0, entries[n - 1].1);
        let all = before + here;
        if all.contains((m, c)) {
            let i = choose|i: int| 0 <= i < all.len() && all[i] == (m, c);
            if i < before.len() {
                assert(before[i] == (m, c));
            } else {
                assert(here[i - before.len()] == (m, c));
                assert(counts(entries, n - 1, m, c));
            }
        }
        if exists|k: int| k < n && #[trigger] counts(entries, k, m, c) {
            let k = choose|k: int| k < n && #[trigger] counts(entries, k, m, c);
            if k == n - 1 {
                assert(all[before.len() as int] == (m, c));
            } else {
                assert(counts(entries, k, m, c));
                let i = choose|i: int| 0 <= i < before.len() && before[i] == (m, c);
                assert(all[i] == (m, c));
            }
        }
    }
}

proof fn lemma_readings_of(entries: Seq<(Seq<char>, json::Tree)>, n: int, m: Metric, c: i64)
    requires
        0 <= n <= entries.len(),
    ensures
        readings_of(entries, n).contains((m, c)) <==> exists|k: int|
            k < n && #[trigger] counts_within(entries, k, m, c),
    decreases n,
{
    if n > 0 {
        lemma_readings_of(entries, n - 1, m, c);
        let before = readings_of(entries, n - 1);
        let here = entry_readings(entries[n - 1].0, entries[n - 1].1);
        let all = before + here;
        assert(here.contains((m, c)) <==> counts_within(entries, n - 1, m, c)) by {
            match entries[n - 1].1 {
                json::Tree::Object(inner) => {
                    lemma_plain_readings(inner, inner.len() as int, m, c);
                    if exists|l: int| #[trigger] counts(inner, l, m, c) {
                        let l = choose|l: int| #[trigger] counts(inner, l, m, c);
                        assert(l < inner.len() && counts(inner, l, m, c));
                    }
                },
                _ => {
                    if counts(entries, n - 1, m, c) {
                        assert(here[0] == (m, c));
                    }
                },
            }
        }
        if all.contains((m, c)) {
            let i = choose|i: int| 0 <= i < all.len() && all[i] == (m, c);
            if i < before.len() {
                assert(before[i] == (m, c));
            } else {
                assert(here[i - before.len()] == (m, c));
                assert(counts_within(entries, n - 1, m, c));
            }
        }
        if exists|k: int| k < n && #[trigger] counts_within(entries, k, m, c) {
            let k = choose|k: int| k < n && #[trigger] counts_within(entries, k, m, c);
            if k == n - 1 {
                let i = choose|i: int| 0 <= i < here.len() && here[i] == (m, c);
                assert(all[before.len() + i] == (m, c));
            } else {
                assert(counts_within(entries, k, m, c));
                let i = choose|i: int| 0 <= i < before.len() && before[i] == (m, c);
                assert(all[i] == (m, c));
            }
        }
    }
}

/// The readings of a day's object are those of its entries, and of the entries of an object in
/// it, and nothing else.
pub proof fn law_readings_of_entries(entries: Seq<(Seq<char>, json::Tree)>, m: Metric, n: i64)
    ensures
        readings_of(entries, entries.len() as int).contains((m, n)) <==> exists|k: int| #[trigger]
            counts_within(entries, k, m, n),
{
    lemma_readings_of(entries, entries.len() as int, m, n);
    if exists|k: int| #[trigger] counts_within(entries, k, m, n) {
        let k = choose|k: int| #[trigger] counts_within(entries, k, m, n);
        assert(k < entries.len() && counts_within(entries, k, m, n));
    }
}

/// A number that the platform states of a day, in an object of a listing anywhere in an answer,
/// is within what is gathered of that day: there is usage of the day, and none of its peaks lies
/// below a number that is stated.
pub proof fn law_stated_number_counts(
    answers: Seq<json::Tree>,
    a: int,
    path: Seq<int>,
    i: int,
    row: Row,
    k: int,
    m: Metric,
    n: i64,
)
    requires
        0 <= a < answers.len(),
        lists_row(answers[a], path, i, row),
        json::part_at(answers[a], path) matches Some(json::Tree::Array(items)) && (
        items[i] matches json::Tree::Object(entries) && counts_within(entries, k, m, n)),
    ensures
        usage_of(answers).contains_key(row.day),
        n <= day_peak(rows_of(answers, answers.len() as int), row.day, m),
{
    let rows = rows_of(answers, answers.len() as int);
    let items = json::part_at(answers[a], path)->0->Array_0;
    let entries = items[i]->Object_0;
    law_rows_from_anywhere(answers[a], row);
    law_rows_of_every_answer(answers, row);
    law_readings_of_entries(entries, m, n);
    let p = choose|p: int| 0 <= p < rows.len() && rows[p] == row;
    let q = choose|q: int| 0 <= q < row.readings.len() && row.readings[q] == (m, n);
    assert(rows[p].day == row.day);
    law_greatest_reading_counts(rows, row.day, m);
    assert(is_reading(rows, row.day, m, p, q));
}

/// The entry `k` may give the day, among those under a date's name or among all.
#[verifier::opaque]
spec fn gives_day(entries: Seq<(Seq<char>, json::Tree)>, keyed: bool, k: int) -> bool {
    0 <= k < entries.len() && (!keyed || is_date_key(entries[k].0)) && date_of(entries[k].1) is Some
}

proof fn lemma_day_step(entries: Seq<(Seq<char>, json::Tree)>, keyed: bool, i: int)
    requires
        0 <= i,
    ensures
        i >= entries.len() ==> first_date(entries, keyed, i) is None && !gives_day(
            entries,
            keyed,
            i,
        ),
        gives_day(entries, keyed, i) ==> first_date(entries, keyed, i) is Some && first_date(
            entries,
            keyed,
            i,
        ) == date_of(entries[i].1),
        i < entries.len() && !gives_day(entries, keyed, i) ==> first_date(entries, keyed, i)
            == first_date(entries, keyed, i + 1),
{
    reveal(gives_day);
}

proof fn lemma_first_date(
    entries: Seq<(Seq<char>, json::Tree)>,
    keyed: bool,
    i: int,
) -> (k: int)
    requires
        0 <= i,
    ensures
        i <= k,
        forall|j: int| i <= j < k ==> !#[trigger] gives_day(entries, keyed, j),
        first_date(entries, keyed, i) is Some ==> gives_day(entries, keyed, k) && first_date(
            entries,
            keyed,
            i,
        ) == date_of(entries[k].1),
        first_date(entries, keyed, i) is None ==> k >= entries.len(),
    decreases entries.len() - i,
{
    lemma_day_step(entries, keyed, i);
    if i >= entries.len() || gives_day(entries, keyed, i) {
        i
    } else {
        lemma_first_date(entries, keyed, i + 1)
    }
}

/// The entry `k` is a date under a date's name.
pub open spec fn is_dated(entries: Seq<(Seq<char>, json::Tree)>, k: int) -> bool {
    0 <= k < entries.len() && is_date_key(entries[k].0) && date_of(entries[k].1) is Some
}

/// The entry `k` is a date, whatever its name.
pub open spec fn is_any_date(entries: Seq<(Seq<char>, json::Tree)>, k: int) -> bool {
    0 <= k < entries.len() && date_of(entries[k].1) is Some
}

/// An object is of the day of its first date under a date's name; where it has none, of the day
/// of its first date; and where it has no date, of no day.
pub proof fn law_day_of_object(entries: Seq<(Seq<char>, json::Tree)>, k: int)
    ensures
        is_dated(entries, k) && (forall|j: int| j < k ==> !#[trigger] is_dated(entries, j))
            ==> day_of(entries) == date_of(entries[k].1),
        (forall|j: int| !#[trigger] is_dated(entries, j)) && is_any_date(entries, k) && (forall|
            j: int,
        |
            j < k ==> !#[trigger] is_any_date(entries, j)) ==> day_of(entries) == date_of(
            entries[k].1,
        ),
        day_of(entries) is None <==> forall|j: int| !#[trigger] is_any_date(entries, j),
{
    let f = lemma_first_date(entries, true, 0);
    let g = lemma_first_date(entries, false, 0);
    assert forall|j: int| #[trigger] is_dated(entries, j) <==> gives_day(entries, true, j) by {
        reveal(gives_day);
    }
    assert forall|j: int| #[trigger] is_any_date(entries, j) <==> gives_day(entries, false, j) by {
        reveal(gives_day);
    }
    assert(first_date(entries, true, 0) is Some ==> is_dated(entries, f));
    assert(first_date(entries, false, 0) is Some ==> is_any_date(entries, g));
    assert(is_dated(entries, f) ==> is_any_date(entries, f));
}

/// What a name counts, by the first of the words below that is in it, in whatever case.
pub proof fn law_names_count(key: Seq<char>)
    ensures
        ({
            let k = text::lowered(key);
            let hit = text::occurs(k, "hit"@);
            let miss = text::occurs(k, "miss"@);
            let output = text::occurs(k, "output"@) || text::occurs(k, "completion"@)
                || text::occurs(k, "response"@);
            let requests = text::occurs(k, "count"@) || text::occurs(k, "request"@)
                || text::occurs(k, "call"@) || text::occurs(k, "api"@);
            let input = text::occurs(k, "input"@) || text::occurs(k, "prompt"@);
            let tokens = k == "total_tokens"@ || k == "tokens"@ || k == "token"@;
            &&& metric_of(key) == Some(Metric::Hit) <==> hit
            &&& metric_of(key) == Some(Metric::Miss) <==> !hit && miss
            &&& metric_of(key) == Some(Metric::Output) <==> !hit && !miss && output
            &&& metric_of(key) == Some(Metric::Requests) <==> !hit && !miss && !output && requests
            &&& metric_of(key) == Some(Metric::InputTotal) <==> !hit && !miss && !output
                && !requests && input
            &&& metric_of(key) == Some(Metric::TokensTotal) <==> !hit && !miss && !output
                && !requests && !input && tokens
            &&& metric_of(key) is None <==> !hit && !miss && !output && !requests && !input
                && !tokens
        }),
{
}

/// The name of a date has one of four words in it, in whatever case.
pub proof fn law_date_names(key: Seq<char>)
    ensures
        is_date_key(key) <==> {
            ||| text::occurs(text::lowered(key), "date"@)
            ||| text::occurs(text::lowered(key), "day"@)
            ||| text::occurs(text::lowered(key), "time"@)
            ||| text::occurs(text::lowered(key), "period"@)
        },
{
}

/// Only numbers count: an integer as it is, and any other with its fraction cut off.
pub proof fn law_only_numbers_count(v: json::Tree)
    ensures
        v !is Number ==> count_of(v) is None,
        v matches json::Tree::Number(n) ==> {
            &&& n.int is Some ==> count_of(v) == n.int
            &&& n.int is None && n.float is Some ==> count_of(v) == Some(float::cut_off(n.float->0))
            &&& n.int is None && n.float is None ==> count_of(v) is None
        },
{
}

/// A Unix time is of the day in which it lies, whether it is given in seconds or in milliseconds.
pub proof fn law_time_in_its_day(secs: int, millis: int, day: i64)
    requires
        1_000_000_000 < secs < 4_000_000_000,
        secs * 1000 <= millis < secs * 1000 + 1000,
        day * 86_400 <= secs < (day + 1) * 86_400,
    ensures
        epoch_date(secs, secs) == Some(date::date_text(date::civil(day as int))),
        epoch_date(millis, millis) == epoch_date(secs, secs),
        date::civil(day as int).is_valid(),
        date::civil(day as int).day_number() == day,
{
    date::law_civil_has_day_number(day);
    assert(millis / 1000 == secs);
    assert(secs / 86_400 == day);
}

/// A number is no Unix time where it lies before September 2001 or after October 2096, in
/// seconds as in milliseconds.
pub proof fn law_no_time(n: int)
    requires
        n <= 1_000_000_000 || 4_000_000_000 <= n <= 1_000_000_000_000 || 4_000_000_000_000 <= n,
    ensures
        epoch_date(n, n) is None,
{
}

/// A value is a date where it is a text that begins with one, or a Unix time, as a number or
/// written out, with white space around it or none; nothing else is.
pub proof fn law_what_is_a_date(v: json::Tree)
    ensures
        v !is Text && v !is Number ==> date_of(v) is None,
        v matches json::Tree::Text(s) ==> {
            &&& date::date_value(s) is Some ==> date_of(v) == Some(
                date::date_text(date::date_value(s)->0),
            )
            &&& date::date_value(s) is None && text::int_value(text::trimmed(s)) is Some
                ==> date_of(v) == epoch_date(
                text::int_value(text::trimmed(s))->0 as int,
                text::int_value(text::trimmed(s))->0 as int,
            )
            &&& date::date_value(s) is None && text::int_value(text::trimmed(s)) is None
                ==> date_of(v) is None
        },
        v matches json::Tree::Number(n) ==> {
            &&& n.float is None ==> date_of(v) is None
            &&& n.float is Some ==> date_of(v) == epoch_date(
                float::cut_off(n.float->0) as int,
                float::rounded_up(n.float->0) as int,
            )
        },
{
}

/// There is usage of just those days that some row is of.
pub proof fn law_days_of_rows(answers: Seq<json::Tree>, day: Seq<char>)
    ensures
        usage_of(answers).contains_key(day) <==> exists|i: int|
            0 <= i < rows_of(answers, answers.len() as int).len() && (#[trigger] rows_of(
                answers,
                answers.len() as int,
            )[i]).day == day,
{
}

/// The usage depends only on which rows there are: neither their order nor how often a row
/// comes makes a difference.
pub proof fn law_usage_by_rows(a: Seq<Row>, b: Seq<Row>)
    requires
        rows_within(a, b),
        rows_within(b, a),
    ensures
        usage_of_rows(a) == usage_of_rows(b),
{
    assert forall|day: Seq<char>| #[trigger] has_day(a, day) == has_day(b, day) by {
        if has_day(a, day) {
            lemma_days_within(a, b, day);
        }
        if has_day(b, day) {
            lemma_days_within(b, a, day);
        }
    }
    assert forall|day: Seq<char>| #[trigger] tally(a, day) == tally(b, day) by {
        lemma_tally_within(a, b, day);
        lemma_tally_within(b, a, day);
    }
    assert(usage_of_rows(a) =~= usage_of_rows(b));
}

/// No metric of `a` is above that of `b`.
pub open spec fn tally_within(a: DayAcc, b: DayAcc) -> bool {
    &&& a.requests <= b.requests
    &&& a.hit <= b.hit
    &&& a.miss <= b.miss
    &&& a.output <= b.output
    &&& a.input_total <= b.input_total
    &&& a.tokens_total <= b.tokens_total
}

proof fn lemma_tally_within(a: Seq<Row>, b: Seq<Row>, day: Seq<char>)
    requires
        rows_within(a, b),
    ensures
        tally_within(tally(a, day), tally(b, day)),
{
    lemma_peaks_within(a, b, day, Metric::Requests);
    lemma_peaks_within(a, b, day, Metric::Hit);
    lemma_peaks_within(a, b, day, Metric::Miss);
    lemma_peaks_within(a, b, day, Metric::Output);
    lemma_peaks_within(a, b, day, Metric::InputTotal);
    lemma_peaks_within(a, b, day, Metric::TokensTotal);
}

proof fn lemma_rows_of_both(a: Seq<json::Tree>, b: Seq<json::Tree>, n: int)
    requires
        0 <= n <= b.len(),
    ensures
        rows_of(a + b, a.len() + n) == rows_of(a, a.len() as int) + rows_of(b, n),
    decreases n,
{
    if n == 0 {
        lemma_rows_of_prefix(a, b, a.len() as int);
        assert(rows_of(a, a.len() as int) + rows_of(b, 0) =~= rows_of(a, a.len() as int));
    } else {
        lemma_rows_of_both(a, b, n - 1);
        assert((a + b)[a.len() + n - 1] == b[n - 1]);
        assert(rows_of(a, a.len() as int) + rows_of(b, n) =~= rows_of(a, a.len() as int) + rows_of(
            b,
            n - 1,
        ) + rows_in(b[n - 1]));
    }
}

proof fn lemma_rows_of_prefix(a: Seq<json::Tree>, b: Seq<json::Tree>, n: int)
    requires
        0 <= n <= a.len(),
    ensures
        rows_of(a + b, n) == rows_of(a, n),
    decreases n,
{
    if n > 0 {
        lemma_rows_of_prefix(a, b, n - 1);
        assert((a + b)[n - 1] == a[n - 1]);
    }
}

proof fn lemma_joined_within(x: Seq<Row>, y: Seq<Row>)
    ensures
        rows_within(x + y, y + x),
        rows_within(x + x, x),
        rows_within(x, x + y),
{
    let both = x + y;
    let back = y + x;
    assert forall|i: int| 0 <= i < both.len() implies back.contains(#[trigger] both[i]) by {
        if i < x.len() {
            assert(back[y.len() + i] == both[i]);
        } else {
            assert(back[i - x.len()] == both[i]);
        }
    }
    let twice = x + x;
    assert forall|i: int| 0 <= i < twice.len() implies x.contains(#[trigger] twice[i]) by {
        if i < x.len() {
            assert(x[i] == twice[i]);
        } else {
            assert(x[i - x.len()] == twice[i]);
        }
    }
    assert forall|i: int| 0 <= i < x.len() implies both.contains(#[trigger] x[i]) by {
        assert(both[i] == x[i]);
    }
}

/// Every row of the answers is one of an answer.
proof fn lemma_row_source(answers: Seq<json::Tree>, n: int, row: Row) -> (k: int)
    requires
        0 <= n <= answers.len(),
        rows_of(answers, n).contains(row),
    ensures
        0 <= k < n,
        rows_in(answers[k]).contains(row),
    decreases n,
{
    let all = rows_of(answers, n);
    let i = choose|i: int| 0 <= i < all.len() && all[i] == row;
    if n <= 0 {
        0
    } else {
        let before = rows_of(answers, n - 1);
        if i < before.len() {
            assert(before[i] == row);
            lemma_row_source(answers, n - 1, row)
        } else {
            assert(rows_in(answers[n - 1])[i - before.len()] == row);
            n - 1
        }
    }
}

/// Every row of an answer is one of the answers.
proof fn lemma_row_reaches(answers: Seq<json::Tree>, n: int, k: int, row: Row)
    requires
        0 <= k < n <= answers.len(),
        rows_in(answers[k]).contains(row),
    ensures
        rows_of(answers, n).contains(row),
    decreases n,
{
    let before = rows_of(answers, n - 1);
    let here = rows_in(answers[n - 1]);
    if k == n - 1 {
        let i = choose|i: int| 0 <= i < here.len() && here[i] == row;
        assert((before + here)[before.len() + i] == row);
    } else {
        lemma_row_reaches(answers, n - 1, k, row);
        let i = choose|i: int| 0 <= i < before.len() && before[i] == row;
        assert((before + here)[i] == row);
    }
}

/// Every answer of `a` is one of `b`.
pub open spec fn answers_within(a: Seq<json::Tree>, b: Seq<json::Tree>) -> bool {
    forall|i: int| 0 <= i < a.len() ==> b.contains(#[trigger] a[i])
}

proof fn lemma_answers_within(a: Seq<json::Tree>, b: Seq<json::Tree>)
    requires
        answers_within(a, b),
    ensures
        rows_within(rows_of(a, a.len() as int), rows_of(b, b.len() as int)),
{
    let x = rows_of(a, a.len() as int);
    let y = rows_of(b, b.len() as int);
    assert forall|i: int| 0 <= i < x.len() implies y.contains(#[trigger] x[i]) by {
        let k = lemma_row_source(a, a.len() as int, x[i]);
        assert(b.contains(a[k]));
        let l = choose|l: int| 0 <= l < b.len() && b[l] == a[k];
        lemma_row_reaches(b, b.len() as int, l, x[i]);
    }
}

/// The usage depends only on which answers there are: neither their order nor how often an
/// answer comes makes a difference.
pub proof fn law_usage_by_answers(a: Seq<json::Tree>, b: Seq<json::Tree>)
    requires
        answers_within(a, b),
        answers_within(b, a),
    ensures
        usage_of(a) == usage_of(b),
{
    lemma_answers_within(a, b);
    lemma_answers_within(b, a);
    law_usage_by_rows(rows_of(a, a.len() as int), rows_of(b, b.len() as int));
}

/// Answers may come in any order.
pub proof fn law_answers_in_any_order(a: Seq<json::Tree>, b: Seq<json::Tree>)
    ensures
        usage_of(a + b) == usage_of(b + a),
{
    let x = rows_of(a, a.len() as int);
    let y = rows_of(b, b.len() as int);
    lemma_rows_of_both(a, b, b.len() as int);
    lemma_rows_of_both(b, a, a.len() as int);
    lemma_joined_within(x, y);
    lemma_joined_within(y, x);
    law_usage_by_rows(x + y, y + x);
}

/// An answer that comes again adds nothing.
pub proof fn law_answers_again(a: Seq<json::Tree>)
    ensures
        usage_of(a + a) == usage_of(a),
{
    let x = rows_of(a, a.len() as int);
    lemma_rows_of_both(a, a, a.len() as int);
    lemma_joined_within(x, x);
    law_usage_by_rows(x + x, x);
}

/// A further answer takes no day away, and lowers nothing that was gathered of a day.
pub proof fn law_more_answers(a: Seq<json::Tree>, b: Seq<json::Tree>, day: Seq<char>)
    requires
        usage_of(a).contains_key(day),
    ensures
        usage_of(a + b).contains_key(day),
        tally_within(
            tally(rows_of(a, a.len() as int), day),
            tally(rows_of(a + b, (a + b).len() as int), day),
        ),
{
    let x = rows_of(a, a.len() as int);
    let y = rows_of(b, b.len() as int);
    lemma_rows_of_both(a, b, b.len() as int);
    lemma_joined_within(x, y);
    lemma_days_within(x, x + y, day);
    lemma_tally_within(x, x + y, day);
}

/// No number of a day's usage is negative.
pub proof fn law_usage_not_negative(answers: Seq<json::Tree>, day: Seq<char>)
    requires
        usage_of(answers).contains_key(day),
    ensures
        usage_of(answers)[day].requests >= 0,
        usage_of(answers)[day].hit >= 0,
        usage_of(answers)[day].miss >= 0,
        usage_of(answers)[day].output >= 0,
{
    let rows = rows_of(answers, answers.len() as int);
    lemma_day_peak_not_negative(rows, day, Metric::Requests);
    lemma_day_peak_not_negative(rows, day, Metric::Hit);
    lemma_day_peak_not_negative(rows, day, Metric::Miss);
    lemma_day_peak_not_negative(rows, day, Metric::Output);
}

/// The text is what a date is written as.
pub open spec fn is_day_text(s: Seq<char>) -> bool {
    exists|a: Ymd|
        -999 <= a.y <= 9_999 && 1 <= a.m <= 12 && 1 <= a.d <= 31 && s == #[trigger] date::date_text(
            a,
        )
}

spec fn all_dated(rows: Seq<Row>) -> bool {
    forall|i: int| 0 <= i < rows.len() ==> is_day_text((#[trigger] rows[i]).day)
}

/// A day of the years that usage is told of has a year of four digits.
proof fn lemma_day_in_years(day: int)
    requires
        0 <= day <= 50_000,
    ensures
        is_day_text(date::date_text(date::civil(day))),
{
    date::law_civil_has_day_number(day as i64);
    let a = date::civil(day);
    let first = Ymd { y: 1970, m: 1, d: 1 };
    let last = Ymd { y: 2200, m: 1, d: 1 };
    if a.y < 1970 {
        date::law_day_number_ordered(a, first);
    }
    if a.y > 2200 {
        date::law_day_number_ordered(last, a);
    }
    assert(is_day_text(date::date_text(a)));
}

proof fn lemma_time_dated(whole: i64, up: i64)
    requires
        up <= whole + 1,
    ensures
        epoch_date(whole as int, up as int) matches Some(s) ==> is_day_text(s),
{
    if up > 1_000_000_000_000 {
        if whole < 4_000_000_000_000 {
            lemma_day_in_years(whole as int / 1000 / 86_400);
        }
    } else if up > 1_000_000_000 && whole < 4_000_000_000 {
        lemma_day_in_years(whole as int / 86_400);
    }
}

/// Four characters make no number of five digits.
proof fn lemma_four_chars(s: Seq<char>)
    requires
        s.len() == 4,
        text::int_value(s) is Some,
    ensures
        -999 <= text::int_value(s)->Some_0 <= 9_999,
{
    let b = text::unsigned(s);
    reveal_with_fuel(text::nat_value, 5);
    assert(forall|i: int| 0 <= i < b.len() ==> text::is_digit(#[trigger] b[i]));
    assert(b.drop_last().len() == b.len() - 1);
}

proof fn lemma_value_dated(v: json::Tree)
    ensures
        date_of(v) matches Some(s) ==> is_day_text(s),
{
    match v {
        json::Tree::Text(s) => {
            if let Some(a) = date::date_value(s) {
                lemma_four_chars(s.subrange(0, 4));
                assert(date_of(v) == Some(date::date_text(a)));
            } else if let Some(n) = text::int_value(text::trimmed(s)) {
                lemma_time_dated(n, n);
            }
        },
        json::Tree::Number(n) => {
            if let Some(f) = n.float {
                float::law_rounded_up_is_near(f);
                lemma_time_dated(float::cut_off(f), float::rounded_up(f));
            }
        },
        _ => {},
    }
}

proof fn lemma_first_dated(entries: Seq<(Seq<char>, json::Tree)>, keyed: bool, i: int)
    ensures
        first_date(entries, keyed, i) matches Some(s) ==> is_day_text(s),
    decreases entries.len() - i,
{
    if 0 <= i < entries.len() {
        lemma_value_dated(entries[i].1);
        lemma_first_dated(entries, keyed, i + 1);
    }
}

proof fn lemma_array_dated(items: Seq<json::Tree>, n: int)
    ensures
        all_dated(array_rows(items, n)),
    decreases n,
{
    if n > 0 {
        lemma_array_dated(items, n - 1);
        if let json::Tree::Object(entries) = items[n - 1] {
            lemma_first_dated(entries, true, 0);
            lemma_first_dated(entries, false, 0);
        }
    }
}

proof fn lemma_rows_dated(v: json::Tree)
    ensures
        all_dated(rows_in(v)),
    decreases v, 1int, 0int,
{
    match v {
        json::Tree::Array(items) => {
            lemma_array_dated(items, items.len() as int);
            lemma_rows_below_dated(v, items.len() as int);
        },
        json::Tree::Object(entries) => lemma_rows_below_dated(v, entries.len() as int),
        _ => {},
    }
}

proof fn lemma_rows_below_dated(v: json::Tree, n: int)
    ensures
        all_dated(rows_below(v, n)),
    decreases v, 0int, n,
{
    if n > 0 {
        match v {
            json::Tree::Array(items) => {
                if n <= items.len() {
                    lemma_rows_below_dated(v, n - 1);
                    lemma_rows_dated(items[n - 1]);
                }
            },
            json::Tree::Object(entries) => {
                if n <= entries.len() {
                    lemma_rows_below_dated(v, n - 1);
                    lemma_rows_dated(entries[n - 1].1);
                }
            },
            _ => {},
        }
    }
}

proof fn lemma_answers_dated(answers: Seq<json::Tree>, n: int)
    ensures
        all_dated(rows_of(answers, n)),
    decreases n,
{
    if n > 0 {
        lemma_answers_dated(answers, n - 1);
        lemma_rows_dated(answers[n - 1]);
    }
}

/// The usage is by dates: every day of it is written as a date is, in ten characters, and is
/// read as that date.
pub proof fn law_days_are_dates(answers: Seq<json::Tree>, day: Seq<char>)
    requires
        usage_of(answers).contains_key(day),
    ensures
        is_day_text(day),
        day.len() == 10,
        date::date_value(day) matches Some(a) && day == date::date_text(a),
{
    let rows = rows_of(answers, answers.len() as int);
    lemma_answers_dated(answers, answers.len() as int);
    let i = choose|i: int| 0 <= i < rows.len() && (#[trigger] rows[i]).day == day;
    assert(is_day_text(rows[i].day));
    let a = choose|a: Ymd|
        -999 <= a.y <= 9_999 && 1 <= a.m <= 12 && 1 <= a.d <= 31 && day
            == #[trigger] date::date_text(a);
    date::law_date_text_read_back(a, Seq::empty());
    assert(day + Seq::<char>::empty() =~= day);
}

}
