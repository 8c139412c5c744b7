//! Sending captured requests again, for the days that are wanted now.

use crate::balance;
use crate::balance::{find_balance, Balance};
use crate::date;
use crate::date::Ymd;
use crate::json;
use crate::json::Json;
use crate::moved;
use crate::rewrite;
use crate::rewrite::rewrite_dates;
use crate::session;
use crate::session::{is_replayable, Cache, Endpoint, EndpointView, Session};
use crate::table::Table;
use crate::text;
use crate::text::{lower, same, text_of};
use crate::usage;
use crate::usage::{normalize_captures, Day};
use vstd::prelude::*;

verus! {

/// The browser that requests name themselves as.
pub const UA: &'static str =
    "Mozilla/5.0 (Windows NT 10.0; Win64; x64) AppleWebKit/537.36 (KHTML, like Gecko) Chrome/126.0.0.0 Safari/537.36";

/// The platform's page on usage.
pub const USAGE_URL: &'static str = "https://platform.deepseek.com/usage";

/// Why nothing was fetched.
#[derive(Clone, Copy, Debug, PartialEq, Eq, Structural)]
pub enum ReplayError {
    NoSession,
    NoEndpoints,
    AuthExpired,
    AllFailed,
}

/// A request to be sent.
#[derive(Debug)]
pub struct Request {
    /// By `POST`; otherwise by `GET`.
    pub post: bool,
    pub url: String,
    pub headers: Vec<(&'static str, String)>,
    pub body: Option<String>,
}

/// What a request was answered.
#[derive(Debug)]
pub enum Reply {
    /// A JSON value.
    Answer(Json),
    /// Something that is no JSON.
    Unreadable,
    /// A status of failure.
    Status(u16),
    /// Nothing.
    Failed,
}

/// Captured requests on their way.
#[derive(Debug)]
pub struct Replay {
    pub endpoints: Vec<Endpoint>,
    pub cookie: String,
    pub start: Ymd,
    pub end: Ymd,
    /// The first request that was not looked at yet.
    pub next: usize,
    pub answers: Vec<Json>,
}

impl ReplayError {
    /// The reason in a word.
    pub open spec fn word(self) -> Seq<char> {
        match self {
            ReplayError::NoSession => "no_session"@,
            ReplayError::NoEndpoints => "no_endpoints"@,
            ReplayError::AuthExpired => "auth_expired"@,
            ReplayError::AllFailed => "all_failed"@,
        }
    }

    /// Each reason has its own word.
    pub proof fn law_words(self)
        ensures
            self == ReplayError::NoSession ==> self.word() == "no_session"@,
            self == ReplayError::NoEndpoints ==> self.word() == "no_endpoints"@,
            self == ReplayError::AuthExpired ==> self.word() == "auth_expired"@,
            self == ReplayError::AllFailed ==> self.word() == "all_failed"@,
    {
    }

    /// The reason in a word.
    pub fn reason(self) -> (r: &'static str)
        ensures
            r@ == self.word(),
            self == ReplayError::NoSession ==> r@ == "no_session"@,
            self == ReplayError::NoEndpoints ==> r@ == "no_endpoints"@,
            self == ReplayError::AuthExpired ==> r@ == "auth_expired"@,
            self == ReplayError::AllFailed ==> r@ == "all_failed"@,
    {
        match self {
            ReplayError::NoSession => "no_session",
            ReplayError::NoEndpoints => "no_endpoints",
            ReplayError::AuthExpired => "auth_expired",
            ReplayError::AllFailed => "all_failed",
        }
    }
}

// ───────── what is sent ─────────

/// The days that are asked for: the last `days` days up to `today`.
pub open spec fn first_day(today: Ymd, days: int) -> Ymd {
    date::civil(today.day_number() - (days - 1))
}

/// The days that are asked for have day numbers.
pub open spec fn days_fit(today: Ymd, days: int) -> bool {
    &&& i64::MIN <= today.day_number() <= i64::MAX
    &&& i64::MIN < days
    &&& i64::MIN <= today.day_number() - (days - 1) <= i64::MAX
}

/// The session can be asked for these days: they have day numbers, and where a request is to be
/// sent, Unix times in milliseconds too. (Of a session without requests nothing is asked.)
pub open spec fn can_ask(session: Option<Session>, today: Ymd, days: int) -> bool {
    match session {
        Some(s) => s.endpoints@.len() == 0 || days_fit(today, days) && (next_replayable(
            s.endpoints@,
            0,
        ) is Some ==> rewrite::range_fits(first_day(today, days), today)),
        None => true,
    }
}

/// The first request at `i` or behind it that may be sent again.
fn find_replayable(endpoints: &Vec<Endpoint>, from: usize) -> (r: Option<usize>)
    requires
        from <= endpoints@.len(),
    ensures
        match r {
            Some(i) => next_replayable(endpoints@, from as int) == Some(i as int) && from <= i
                < endpoints@.len() && session::is_usage_url(endpoints@[i as int].url@),
            None => next_replayable(endpoints@, from as int) is None,
        },
{
    let mut i: usize = from;
    while i < endpoints.len()
        invariant
            from <= i <= endpoints@.len(),
            next_replayable(endpoints@, from as int) == next_replayable(endpoints@, i as int),
        decreases endpoints@.len() - i,
    {
        if is_replayable(endpoints[i].url.as_str()) {
            return Some(i);
        }
        i = i + 1;
    }
    None
}

/// Whether a session can be asked for the last `days` days up to `today`.
pub fn askable(session: &Option<Session>, today: Ymd, days: i64) -> (r: bool)
    ensures
        r == can_ask(*session, today, days as int),
{
    let endpoints: &Vec<Endpoint> = match session {
        Some(s) => &s.endpoints,
        None => {
            return true;
        },
    };
    if endpoints.len() == 0 {
        return true;
    }
    let n: i128 = today.count_days();
    if n < i64::MIN as i128 || n > i64::MAX as i128 || days == i64::MIN {
        return false;
    }
    let first: i128 = n - (days as i128 - 1);
    if first < i64::MIN as i128 || first > i64::MAX as i128 {
        return false;
    }
    proof {
        date::law_civil_has_day_number(first as i64);
    }
    find_replayable(endpoints, 0).is_none() || (i64::MIN as i128 <= first * 86_400_000 && first
        * 86_400_000 <= i64::MAX as i128 && i64::MIN as i128 <= n * 86_400_000 && (n + 1)
        * 86_400_000 <= i64::MAX as i128)
}

/// Header lines.
pub type Headers = Seq<(Seq<char>, Seq<char>)>;

/// What header lines say.
pub open spec fn header_view(h: Seq<(&'static str, String)>) -> Headers {
    h.map_values(|e: (&'static str, String)| (e.0@, e.1@))
}

/// One header line, where its value is not empty.
pub open spec fn header_unless_empty(name: Seq<char>, value: Seq<char>) -> Headers {
    if value.len() == 0 {
        Seq::empty()
    } else {
        seq![(name, value)]
    }
}

/// The header lines of a request.
pub open spec fn headers_for(ep: EndpointView, cookie: Seq<char>) -> Headers {
    seq![
        ("User-Agent"@, UA@),
        ("Referer"@, USAGE_URL@),
        ("Origin"@, "https://platform.deepseek.com"@),
    ] + header_unless_empty("Authorization"@, ep.auth) + header_unless_empty("Cookie"@, cookie) + (
    match ep.body {
        Some(_) => seq![
            (
                "Content-Type"@,
                if ep.content_type.len() == 0 {
                    "application/json"@
                } else {
                    ep.content_type
                },
            ),
        ],
        None => Seq::empty(),
    })
}

/// `q` is the request `ep`, asked again for the days from `start` to `end`.
pub open spec fn is_request_for(
    q: Request,
    ep: EndpointView,
    cookie: Seq<char>,
    start: Ymd,
    end: Ymd,
) -> bool {
    &&& q.post == (text::lowered(ep.method) == "post"@)
    &&& q.url@ == rewrite::dates_moved(ep.url, start, end)
    &&& header_view(q.headers@) == headers_for(ep, cookie)
    &&& session::text_view(q.body) == match ep.body {
        Some(b) => Some(rewrite::dates_moved(b, start, end)),
        None => None,
    }
}

/// A date that stands at `i` is `start` or `end`, and a Unix time that stands there is the
/// beginning of `start` or the end of `end`.
pub open spec fn asks_within(t: Seq<char>, start: Ymd, end: Ymd, i: int) -> bool {
    let first = start.day_number() * 86_400;
    let last = (end.day_number() + 1) * 86_400;
    &&& rewrite::iso_at(t, i) ==> t.subrange(i, i + 10) == date::date_text(start)
        || t.subrange(i, i + 10) == date::date_text(end)
    &&& rewrite::epoch_at(t, 13, i) ==> t.subrange(i, i + 13) == text::int_text(first * 1000)
        || t.subrange(i, i + 13) == text::int_text(last * 1000)
    &&& rewrite::epoch_at(t, 10, i) ==> t.subrange(i, i + 10) == text::int_text(first)
        || t.subrange(i, i + 10) == text::int_text(last)
}

/// The first request at `i` or behind it that may be sent again.
pub open spec fn next_replayable(endpoints: Seq<Endpoint>, i: int) -> Option<int>
    decreases endpoints.len() - i,
{
    if i < 0 || i >= endpoints.len() {
        None
    } else if session::is_usage_url(endpoints[i].url@) {
        Some(i)
    } else {
        next_replayable(endpoints, i + 1)
    }
}

/// The requests that are sent from the one at `i` on, in order.
pub open spec fn sent_from(endpoints: Seq<Endpoint>, i: int) -> Seq<int>
    decreases endpoints.len() - i,
    when 0 <= i
{
    match next_replayable(endpoints, i) {
        Some(k) => if i <= k < endpoints.len() {
            seq![k] + sent_from(endpoints, k + 1)
        } else {
            Seq::empty()
        },
        None => Seq::empty(),
    }
}

proof fn lemma_next_replayable(endpoints: Seq<Endpoint>, i: int)
    requires
        0 <= i,
    ensures
        match next_replayable(endpoints, i) {
            Some(k) => {
                &&& i <= k < endpoints.len()
                &&& session::is_usage_url(endpoints[k].url@)
                &&& forall|j: int|
                    i <= j < k ==> !session::is_usage_url((#[trigger] endpoints[j]).url@)
            },
            None => forall|j: int|
                i <= j < endpoints.len() ==> !session::is_usage_url(
                    (#[trigger] endpoints[j]).url@,
                ),
        },
    decreases endpoints.len() - i,
{
    if i < endpoints.len() && !session::is_usage_url(endpoints[i].url@) {
        lemma_next_replayable(endpoints, i + 1);
    }
}

/// Every captured request that may be sent again is sent, no other is, and each is sent
/// once, in the order in which they were kept.
pub proof fn law_each_sent_once(endpoints: Seq<Endpoint>, i: int)
    requires
        0 <= i,
    ensures
        forall|j: int|
            sent_from(endpoints, i).contains(j) <==> i <= j < endpoints.len()
                && session::is_usage_url(endpoints[j].url@),
        forall|a: int, b: int|
            0 <= a < b < sent_from(endpoints, i).len() ==> sent_from(endpoints, i)[a]
                < sent_from(endpoints, i)[b],
    decreases endpoints.len() - i,
{
    lemma_next_replayable(endpoints, i);
    let sent = sent_from(endpoints, i);
    if let Some(k) = next_replayable(endpoints, i) {
        law_each_sent_once(endpoints, k + 1);
        let rest = sent_from(endpoints, k + 1);
        assert(sent == seq![k] + rest);
        assert forall|j: int| sent.contains(j) <==> i <= j < endpoints.len()
            && session::is_usage_url(endpoints[j].url@) by {
            if sent.contains(j) {
                let n = choose|n: int| 0 <= n < sent.len() && sent[n] == j;
                if n > 0 {
                    assert(rest[n - 1] == j);
                    assert(rest.contains(j));
                }
            }
            if i <= j < endpoints.len() && session::is_usage_url(endpoints[j].url@) {
                if j == k {
                    assert(sent[0] == j);
                } else {
                    assert(rest.contains(j));
                    let n = choose|n: int| 0 <= n < rest.len() && rest[n] == j;
                    assert(sent[n + 1] == j);
                }
            }
        }
        assert forall|a: int, b: int| 0 <= a < b < sent.len() implies sent[a] < sent[b] by {
            assert(sent[b] == rest[b - 1]);
            if a == 0 {
                assert(rest.contains(rest[b - 1]));
            } else {
                assert(sent[a] == rest[a - 1]);
            }
        }
    }
}

// ───────── what comes back ─────────

/// The platform did not report a failure of its own in the answer: it answers with status
/// 200 then too, and with a code that is not 0.
pub open spec fn is_success(answer: json::Tree) -> bool {
    match answer.field("data"@) {
        Some(data) => match data.field("biz_code"@) {
            Some(json::Tree::Number(n)) => match n.int {
                Some(code) => code == 0,
                None => true,
            },
            _ => true,
        },
        None => true,
    }
}

/// Whether the platform did not report a failure of its own in the answer.
pub fn succeeded(answer: &Json) -> (r: bool)
    ensures
        r == is_success(answer@),
{
    match answer.get("data") {
        Some(data) => match data.get("biz_code") {
            Some(Json::Number(n)) => match n.int {
                Some(code) => code == 0,
                None => true,
            },
            _ => true,
        },
        None => true,
    }
}

/// What is known of answers after one more reply.
pub open spec fn answers_after(answers: Seq<json::Tree>, reply: Reply) -> Seq<json::Tree> {
    match reply {
        Reply::Answer(j) => if is_success(j@) {
            answers.push(j@)
        } else {
            answers
        },
        _ => answers,
    }
}

/// An answer in which the platform states a code of its own as a whole number is taken in
/// where that number is 0, and for no other number.
pub proof fn law_only_code_zero_taken(
    answers: Seq<json::Tree>,
    answer: Json,
    data: json::Tree,
    n: json::Num,
    code: i64,
)
    requires
        answer@.field("data"@) == Some(data),
        data.field("biz_code"@) == Some(json::Tree::Number(n)),
        n.int == Some(code),
    ensures
        is_success(answer@) <==> code == 0,
        code == 0 ==> answers_after(answers, Reply::Answer(answer)) == answers.push(answer@),
        code != 0 ==> answers_after(answers, Reply::Answer(answer)) == answers,
{
}

/// An answer in which the platform states no whole number as a code of its own is taken in, and
/// a reply that is no answer leaves what is known as it was.
pub proof fn law_taken_without_code(answers: Seq<json::Tree>, reply: Reply)
    ensures
        reply matches Reply::Answer(answer) ==> {
            ||| answer@.field("data"@) matches Some(data) && data.field("biz_code"@) matches Some(
                json::Tree::Number(n),
            ) && n.int is Some
            ||| answers_after(answers, reply) == answers.push(answer@)
        },
        reply !is Answer ==> answers_after(answers, reply) == answers,
{
}

/// The reply says that the login is no longer good.
pub open spec fn is_refusal(reply: Reply) -> bool {
    reply matches Reply::Status(code) && (code == 401 || code == 403)
}

fn push_header(h: &mut Vec<(&'static str, String)>, name: &'static str, value: &str)
    ensures
        header_view(final(h)@) == header_view(old(h)@) + seq![(name@, value@)],
{
    let ghost before = h@;
    h.push((name, value.to_owned()));
    assert(header_view(h@) =~= header_view(before) + seq![(name@, value@)]);
}

/// A captured request, asked again for the days from `start` to `end`.
pub fn request_for(ep: &Endpoint, cookie: &str, start: Ymd, end: Ymd) -> (r: Request)
    requires
        rewrite::range_fits(start, end),
    ensures
        is_request_for(r, ep@, cookie@, start, end),
        session::is_usage_url(ep.url@) ==> session::is_usage_url(r.url@),
        r.body is Some <==> ep.body is Some,
        r.url@ == rewrite::dates_moved(ep.url@, start, end),
        ep.body matches Some(b) ==> (r.body matches Some(q) && q@ == rewrite::dates_moved(
            b@,
            start,
            end,
        )),
        r.post <==> text::lowered(ep.method@) == "post"@,
{
    let url: String = rewrite_dates(ep.url.as_str(), start, end);
    proof {
        if session::is_usage_url(ep.url@) {
            session::law_replayable_kept(ep.url@, start, end);
        }
    }
    let body: Option<String> = match &ep.body {
        Some(b) => Some(rewrite_dates(b.as_str(), start, end)),
        None => None,
    };
    let m: Vec<char> = lower(ep.method.as_str());
    let method: String = text_of(&m, 0, m.len());
    assert(method@ =~= m@);
    let post: bool = same(method.as_str(), "post");
    let mut headers: Vec<(&'static str, String)> = Vec::new();
    push_header(&mut headers, "User-Agent", UA);
    push_header(&mut headers, "Referer", USAGE_URL);
    push_header(&mut headers, "Origin", "https://platform.deepseek.com");
    if !ep.auth.as_str().is_empty() {
        push_header(&mut headers, "Authorization", ep.auth.as_str());
    }
    if !cookie.is_empty() {
        push_header(&mut headers, "Cookie", cookie);
    }
    if body.is_some() {
        if ep.content_type.as_str().is_empty() {
            push_header(&mut headers, "Content-Type", "application/json");
        } else {
            push_header(&mut headers, "Content-Type", ep.content_type.as_str());
        }
    }
    assert(header_view(headers@) =~= headers_for(ep@, cookie@));
    Request { post, url, headers, body }
}

/// A request that is sent again has the header lines that a browser on the platform's page
/// sends, the login where there is one, and the kind of its body where it has one; no other.
pub proof fn law_header_lines(ep: EndpointView, cookie: Seq<char>, name: Seq<char>, value: Seq<char>)
    ensures
        headers_for(ep, cookie).contains((name, value)) <==> {
            ||| name == "User-Agent"@ && value == UA@
            ||| name == "Referer"@ && value == "https://platform.deepseek.com/usage"@
            ||| name == "Origin"@ && value == "https://platform.deepseek.com"@
            ||| name == "Authorization"@ && value == ep.auth && ep.auth.len() > 0
            ||| name == "Cookie"@ && value == cookie && cookie.len() > 0
            ||| name == "Content-Type"@ && ep.body is Some && ep.content_type.len() > 0 && value
                == ep.content_type
            ||| name == "Content-Type"@ && ep.body is Some && ep.content_type.len() == 0 && value
                == "application/json"@
        },
{
    let fixed = seq![
        ("User-Agent"@, UA@),
        ("Referer"@, USAGE_URL@),
        ("Origin"@, "https://platform.deepseek.com"@),
    ];
    let auth = header_unless_empty("Authorization"@, ep.auth);
    let kept = header_unless_empty("Cookie"@, cookie);
    let all = headers_for(ep, cookie);
    let h = (name, value);
    let front = fixed + auth + kept;
    let kind = all.skip(front.len() as int);
    assert(all =~= front + kind);
    if all.contains(h) {
        let i = choose|i: int| 0 <= i < all.len() && all[i] == h;
        if i < fixed.len() {
            assert(fixed[i] == h);
        } else if i < fixed.len() + auth.len() {
            assert(auth[i - fixed.len()] == h);
        } else if i < front.len() {
            assert(kept[i - fixed.len() - auth.len()] == h);
        } else {
            assert(kind[i - front.len()] == h);
        }
    }
    assert(all[0] == ("User-Agent"@, UA@));
    assert(all[1] == ("Referer"@, USAGE_URL@));
    assert(all[2] == ("Origin"@, "https://platform.deepseek.com"@));
    if ep.auth.len() > 0 {
        assert(all[3] == ("Authorization"@, ep.auth));
    }
    if cookie.len() > 0 {
        assert(all[3 + auth.len() as int] == ("Cookie"@, cookie));
    }
    if ep.body is Some {
        assert(all.last() == all[front.len() as int]);
    }
}

/// A header line says its name and its value, each in its place.
pub proof fn law_header_said(h: Seq<(&'static str, String)>, i: int)
    requires
        0 <= i < h.len(),
    ensures
        header_view(h).len() == h.len(),
        header_view(h)[i].0 == h[i].0@,
        header_view(h)[i].1 == h[i].1@,
{
}

/// A request that is sent again is sent by the way it was captured with, to the same place and
/// with the same body but for the days that it asks for, and with the header lines that are due.
pub proof fn law_same_kind_of_request(
    q: Request,
    ep: EndpointView,
    cookie: Seq<char>,
    start: Ymd,
    end: Ymd,
)
    requires
        is_request_for(q, ep, cookie, start, end),
    ensures
        text::lowered(ep.method) == "post"@ ==> q.post,
        text::lowered(ep.method) != "post"@ ==> !q.post,
        q.body is Some <==> ep.body is Some,
        q.url@ == rewrite::dates_moved(ep.url, start, end),
        ep.body is Some ==> q.body->0@ == rewrite::dates_moved(ep.body->0, start, end),
        header_view(q.headers@) == headers_for(ep, cookie),
{
}

/// The first of the days that are asked for lies `days - 1` days before today.
pub proof fn law_first_day(today: Ymd, days: int)
    requires
        days_fit(today, days),
    ensures
        first_day(today, days).is_valid(),
        first_day(today, days).day_number() + (days - 1) == today.day_number(),
{
    date::law_civil_has_day_number((today.day_number() - (days - 1)) as i64);
}

/// Where there is no session, or one without requests, nothing is asked, for whatever days.
pub proof fn law_nothing_to_ask(session: Option<Session>, today: Ymd, days: int)
    requires
        session matches Some(s) ==> s.endpoints@.len() == 0,
    ensures
        can_ask(session, today, days),
{
}

/// For the days of usual years a session can be asked, whatever it holds.
pub proof fn law_usual_days_askable(session: Option<Session>, today: Ymd, days: int)
    requires
        -400_000 <= today.day_number() <= 3_000_000,
        -1_000_000 <= days <= 1_000_000,
    ensures
        can_ask(session, today, days),
{
    date::law_civil_has_day_number((today.day_number() - (days - 1)) as i64);
}

/// A request that is sent again asks for the last `days` days: every date in its URL is the
/// first of them or today, and every Unix time the beginning of the first or the end of today.
/// So it is in its body.
pub proof fn law_asks_for_last_days(
    q: Request,
    ep: EndpointView,
    cookie: Seq<char>,
    today: Ymd,
    days: int,
    i: int,
)
    requires
        moved::is_usual_range(first_day(today, days), today),
        is_request_for(q, ep, cookie, first_day(today, days), today),
    ensures
        asks_within(q.url@, first_day(today, days), today, i),
        q.body matches Some(b) ==> asks_within(b@, first_day(today, days), today, i),
{
    moved::law_text_in_range(ep.url, first_day(today, days), today, i);
    if let Some(b) = ep.body {
        moved::law_text_in_range(b, first_day(today, days), today, i);
    }
}

impl Replay {
    /// Where a request is left to be sent, the days that are asked for can be written down.
    pub open spec fn is_ready(self) -> bool {
        next_replayable(self.endpoints@, self.next as int) is Some ==> rewrite::range_fits(
            self.start,
            self.end,
        )
    }

    /// Begins to send the requests of a session again, for the last `days` days up to
    /// `today`.
    pub fn begin(session: Option<Session>, today: Ymd, days: i64) -> (r: Result<Replay,
        ReplayError>)
        requires
            can_ask(session, today, days as int),
        ensures
            match r {
                Ok(p) => {
                    &&& session matches Some(s) && s.endpoints@.len() > 0 && p.endpoints
                        == s.endpoints && p.cookie == s.cookie
                    &&& p.start == first_day(today, days as int)
                    &&& p.end == today
                    &&& p.next == 0
                    &&& p.answers@.len() == 0
                    &&& p.is_ready()
                },
                Err(ReplayError::NoSession) => session is None,
                Err(ReplayError::NoEndpoints) => session matches Some(s) && s.endpoints@.len() == 0,
                Err(_) => false,
            },
    {
        match session {
            None => Err(ReplayError::NoSession),
            Some(s) => {
                if s.endpoints.len() == 0 {
                    return Err(ReplayError::NoEndpoints);
                }
                Ok(
                    Replay {
                        start: today.minus_days(days - 1),
                        end: today,
                        endpoints: s.endpoints,
                        cookie: s.cookie,
                        next: 0,
                        answers: Vec::new(),
                    },
                )
            },
        }
    }

    /// The next request to be sent; none where all are done. Only requests that may be sent
    /// again are.
    pub fn next_request(&mut self) -> (r: Option<Request>)
        requires
            old(self).is_ready(),
        ensures
            final(self).endpoints == old(self).endpoints,
            final(self).cookie == old(self).cookie,
            final(self).start == old(self).start,
            final(self).end == old(self).end,
            final(self).answers == old(self).answers,
            final(self).is_ready(),
            match next_replayable(old(self).endpoints@, old(self).next as int) {
                Some(i) => {
                    &&& r matches Some(q) && is_request_for(
                        q,
                        old(self).endpoints@[i]@,
                        old(self).cookie@,
                        old(self).start,
                        old(self).end,
                    ) && session::is_usage_url(q.url@)
                    &&& final(self).next == i + 1
                },
                None => r is None && final(self).next >= final(self).endpoints@.len(),
            },
    {
        let n: usize = self.endpoints.len();
        if self.next >= n {
            return None;
        }
        match find_replayable(&self.endpoints, self.next) {
            Some(i) => {
                let q: Request = request_for(
                    &self.endpoints[i],
                    self.cookie.as_str(),
                    self.start,
                    self.end,
                );
                self.next = i + 1;
                Some(q)
            },
            None => {
                self.next = n;
                None
            },
        }
    }

    /// Takes in what a request was answered. A refusal ends the attempt; any other failure
    /// of one request does not.
    pub fn take_reply(&mut self, reply: Reply) -> (r: Result<(), ReplayError>)
        ensures
            final(self).endpoints == old(self).endpoints,
            final(self).cookie == old(self).cookie,
            final(self).start == old(self).start,
            final(self).end == old(self).end,
            final(self).next == old(self).next,
            usage::trees(final(self).answers@) == answers_after(
                usage::trees(old(self).answers@),
                reply,
            ),
            r == if is_refusal(reply) {
                Err::<(), ReplayError>(ReplayError::AuthExpired)
            } else {
                Ok::<(), ReplayError>(())
            },
            r is Err <==> reply == Reply::Status(401) || reply == Reply::Status(403),
            r is Err ==> r->Err_0 == ReplayError::AuthExpired,
            reply !is Answer ==> final(self).answers == old(self).answers,
    {
        match reply {
            Reply::Answer(j) => {
                if succeeded(&j) {
                    let ghost before = self.answers@;
                    self.answers.push(j);
                    assert(usage::trees(self.answers@) =~= usage::trees(before).push(j@));
                }
                Ok(())
            },
            Reply::Status(code) => {
                if code == 401 || code == 403 {
                    Err(ReplayError::AuthExpired)
                } else {
                    Ok(())
                }
            },
            Reply::Unreadable => Ok(()),
            Reply::Failed => Ok(()),
        }
    }

    /// The usage and the balance that the answers state, to be kept, where there is an
    /// answer.
    pub fn finish(&self, now: String) -> (r: Result<Cache, ReplayError>)
        ensures
            match r {
                Ok(c) => {
                    &&& self.answers@.len() > 0
                    &&& c.day_map@ == usage::usage_of(usage::trees(self.answers@))
                    &&& session::balance_view(c.balance) == balance::balance_of(
                        usage::trees(self.answers@),
                    )
                    &&& c.fetched_at@ == now@
                },
                Err(e) => e == ReplayError::AllFailed && self.answers@.len() == 0,
            },
    {
        if self.answers.len() == 0 {
            return Err(ReplayError::AllFailed);
        }
        let day_map: Table<Day> = normalize_captures(self.answers.as_slice());
        let b: Option<Balance> = find_balance(self.answers.as_slice());
        Ok(Cache { day_map, balance: b, fetched_at: now })
    }
}

}
