//! What is shown of usage and balance, from whatever could be had of them.

use crate::balance::{Balance, BalanceView};
use crate::date::Ymd;
use crate::json;
use crate::json::Json;
use crate::replay;
use crate::replay::{Reply, ReplayError, Request};
use crate::session;
use crate::session::Cache;
use crate::table::Table;
use crate::text;
use crate::text::{push_int, push_text};
use crate::usage;
use crate::usage::{day_series, Day};
use vstd::prelude::*;

verus! {

// ───────── usage ─────────

/// How an attempt to fetch usage ended.
#[derive(Debug)]
pub enum Outcome {
    /// There is no login.
    NoSession,
    /// The usage that was fetched.
    Fetched(Cache),
    /// Nothing was fetched, for a reason.
    Failed(ReplayError),
}

/// The usage to be shown.
#[derive(Debug)]
pub struct FetchResult {
    pub series: Vec<(String, Day)>,
    pub balance: Option<Balance>,
    /// `web`, `cache` or `none`: where the usage is from.
    pub source: &'static str,
    pub note: String,
}

/// Where the usage to be shown is from.
pub open spec fn source_of(outcome: Outcome, cached: Option<Cache>) -> Seq<char> {
    match outcome {
        Outcome::Fetched(_) => "web"@,
        _ => match cached {
            Some(_) => "cache"@,
            None => "none"@,
        },
    }
}

/// What is to be said about it.
pub open spec fn note_of(outcome: Outcome, cached: Option<Cache>) -> Seq<char> {
    match outcome {
        Outcome::Failed(e) => match cached {
            Some(_) => if e == ReplayError::AuthExpired {
                "平台登录已过期，请在托盘重新登录（下方为缓存）"@
            } else {
                "平台同步失败（"@ + e.word() + "），显示缓存"@
            },
            None => "平台会话不可用（"@ + e.word() + "），请在托盘重新登录"@,
        },
        _ => Seq::empty(),
    }
}

/// What is known to be shown: what was fetched, or else what was kept of an earlier time.
pub open spec fn known(outcome: Outcome, cached: Option<Cache>) -> Option<Cache> {
    match outcome {
        Outcome::Fetched(c) => Some(c),
        _ => cached,
    }
}

/// The usage on each day.
pub open spec fn days_known(c: Option<Cache>) -> Map<Seq<char>, Day> {
    match c {
        Some(c) => c.day_map@,
        None => Map::empty(),
    }
}

/// The balance.
pub open spec fn balance_known(c: Option<Cache>) -> Option<BalanceView> {
    match c {
        Some(c) => session::balance_view(c.balance),
        None => None,
    }
}

/// Each day of the series has the usage that is known of it, and zeros where none is.
pub open spec fn shows_days(series: Seq<(String, Day)>, days: Map<Seq<char>, Day>) -> bool {
    forall|i: int|
        0 <= i < series.len() ==> (#[trigger] series[i]).1 == if days.contains_key(series[i].0@) {
            days[series[i].0@]
        } else {
            Day { requests: 0, hit: 0, miss: 0, output: 0 }
        }
}

/// What was fetched is shown, and said to be from the web, whatever is kept; where nothing was
/// fetched, what is kept is shown and said to be kept; and where nothing is kept either, nothing.
pub proof fn law_where_usage_is_from(fetched: Cache, kept: Cache, reason: ReplayError)
    ensures
        known(Outcome::Fetched(fetched), Some(kept)) == Some(fetched),
        known(Outcome::Fetched(fetched), None) == Some(fetched),
        known(Outcome::Failed(reason), Some(kept)) == Some(kept),
        known(Outcome::NoSession, Some(kept)) == Some(kept),
        known(Outcome::Failed(reason), None) is None,
        known(Outcome::NoSession, None) is None,
        source_of(Outcome::Fetched(fetched), Some(kept)) == "web"@,
        source_of(Outcome::Fetched(fetched), None) == "web"@,
        source_of(Outcome::Failed(reason), Some(kept)) == "cache"@,
        source_of(Outcome::NoSession, Some(kept)) == "cache"@,
        source_of(Outcome::Failed(reason), None) == "none"@,
        source_of(Outcome::NoSession, None) == "none"@,
        days_known(Some(kept)) == kept.day_map@,
        days_known(None) == Map::<Seq<char>, Day>::empty(),
        balance_known(Some(kept)) == session::balance_view(kept.balance),
        balance_known(None) is None,
{
}

/// Something is said only where an attempt failed: the reason in its word, but of a login that is
/// no longer good, while something kept is shown, that it is to be renewed.
pub proof fn law_failures_are_told(fetched: Cache, kept: Cache, reason: ReplayError)
    ensures
        note_of(Outcome::Fetched(fetched), Some(kept)).len() == 0,
        note_of(Outcome::Fetched(fetched), None).len() == 0,
        note_of(Outcome::NoSession, Some(kept)).len() == 0,
        note_of(Outcome::NoSession, None).len() == 0,
        note_of(Outcome::Failed(ReplayError::AuthExpired), Some(kept))
            == "平台登录已过期，请在托盘重新登录（下方为缓存）"@,
        reason != ReplayError::AuthExpired ==> note_of(Outcome::Failed(reason), Some(kept))
            == "平台同步失败（"@ + reason.word() + "），显示缓存"@,
        note_of(Outcome::Failed(reason), None) == "平台会话不可用（"@ + reason.word()
            + "），请在托盘重新登录"@,
{
}

/// The text `a`, then `b`, then `c`.
fn joined(a: &str, b: &str, c: &str) -> (r: String)
    ensures
        r@ == a@ + b@ + c@,
{
    let mut r: String = String::new();
    push_text(&mut r, a);
    push_text(&mut r, b);
    push_text(&mut r, c);
    assert(r@ =~= a@ + b@ + c@);
    r
}

/// The usage of the last `days` days up to `today`: what was fetched, or else what was kept
/// of an earlier time, or else nothing.
pub fn get_usage(today: Ymd, days: i64, outcome: Outcome, cached: Option<Cache>) -> (r: FetchResult)
    requires
        usage::series_fits(today, days as int),
    ensures
        usage::is_series(r.series@, days_known(known(outcome, cached)), today, days as int),
        session::balance_view(r.balance) == balance_known(known(outcome, cached)),
        r.source@ == source_of(outcome, cached),
        r.note@ == note_of(outcome, cached),
        outcome matches Outcome::Fetched(c) ==> {
            &&& r.source@ == "web"@
            &&& r.note@.len() == 0
            &&& session::balance_view(r.balance) == session::balance_view(c.balance)
            &&& shows_days(r.series@, c.day_map@)
        },
        outcome !is Fetched && cached is Some ==> {
            &&& r.source@ == "cache"@
            &&& session::balance_view(r.balance) == session::balance_view(cached->0.balance)
            &&& shows_days(r.series@, cached->0.day_map@)
        },
        outcome !is Fetched && cached is None ==> {
            &&& r.source@ == "none"@
            &&& r.balance is None
            &&& shows_days(r.series@, Map::empty())
        },
        outcome is NoSession ==> r.note@.len() == 0,
        outcome matches Outcome::Failed(e) ==> {
            &&& cached is Some && e == ReplayError::AuthExpired ==> r.note@
                == "平台登录已过期，请在托盘重新登录（下方为缓存）"@
            &&& cached is Some && e != ReplayError::AuthExpired ==> r.note@ == "平台同步失败（"@
                + e.word() + "），显示缓存"@
            &&& cached is None ==> r.note@ == "平台会话不可用（"@ + e.word()
                + "），请在托盘重新登录"@
        },
{
    match outcome {
        Outcome::Fetched(c) => FetchResult {
            series: day_series(&c.day_map, today, days),
            balance: c.balance,
            source: "web",
            note: String::new(),
        },
        Outcome::Failed(e) => match cached {
            Some(c) => {
                let note: String = if e == ReplayError::AuthExpired {
                    "平台登录已过期，请在托盘重新登录（下方为缓存）".to_owned()
                } else {
                    joined("平台同步失败（", e.reason(), "），显示缓存")
                };
                FetchResult {
                    series: day_series(&c.day_map, today, days),
                    balance: c.balance,
                    source: "cache",
                    note,
                }
            },
            None => FetchResult {
                series: day_series(&Table::new(), today, days),
                balance: None,
                source: "none",
                note: joined("平台会话不可用（", e.reason(), "），请在托盘重新登录"),
            },
        },
        Outcome::NoSession => match cached {
            Some(c) => FetchResult {
                series: day_series(&c.day_map, today, days),
                balance: c.balance,
                source: "cache",
                note: String::new(),
            },
            None => FetchResult {
                series: day_series(&Table::new(), today, days),
                balance: None,
                source: "none",
                note: String::new(),
            },
        },
    }
}

// ───────── balance ─────────

/// Where the balance can be asked for with a key.
pub const BALANCE_URL: &'static str = "https://api.deepseek.com/user/balance";

/// The request for the balance, where a key is there to ask with.
pub fn balance_request(api_key: &str) -> (r: Option<Request>)
    ensures
        match r {
            Some(q) => {
                &&& api_key@.len() > 0
                &&& !q.post
                &&& q.url@ == BALANCE_URL@
                &&& q.url@ == "https://api.deepseek.com/user/balance"@
                &&& replay::header_view(q.headers@) == seq![
                    ("Authorization"@, "Bearer "@ + api_key@),
                ]
                &&& q.body is None
            },
            None => api_key@.len() == 0,
        },
{
    if api_key.is_empty() {
        return None;
    }
    let mut bearer: String = "Bearer ".to_owned();
    push_text(&mut bearer, api_key);
    let mut headers: Vec<(&'static str, String)> = Vec::new();
    headers.push(("Authorization", bearer));
    assert(replay::header_view(headers@) =~= seq![("Authorization"@, "Bearer "@ + api_key@)]);
    Some(Request { post: false, url: BALANCE_URL.to_owned(), headers, body: None })
}

/// The text under a key, where there is one; `other` where there is none.
pub open spec fn text_under(v: Option<json::Tree>, key: Seq<char>, other: Seq<char>) -> Seq<char> {
    match v {
        Some(v) => match v.field(key) {
            Some(json::Tree::Text(t)) => t,
            _ => other,
        },
        None => other,
    }
}

/// The balance that an answer states: the first of its list of balances.
pub open spec fn balance_stated(answer: json::Tree) -> BalanceView {
    let info = match answer.field("balance_infos"@) {
        Some(list) => list.item(0),
        None => None,
    };
    BalanceView {
        currency: text_under(info, "currency"@, ""@),
        total: text_under(info, "total_balance"@, "0.00"@),
        granted: text_under(info, "granted_balance"@, "0.00"@),
        topped_up: text_under(info, "topped_up_balance"@, "0.00"@),
        is_available: answer.field("is_available"@) == Some(json::Tree::Bool(true)),
        from_web: false,
    }
}

/// The balance to be shown, or why there is none: the one that was asked for; where the
/// asking failed, or there was no key, the one that was kept of an earlier time.
pub open spec fn balance_shown(asked: Option<Reply>, cached: Option<Balance>) -> Result<
    BalanceView,
    Seq<char>,
> {
    match (asked, cached) {
        (Some(Reply::Answer(j)), _) => Ok(balance_stated(j@)),
        (Some(Reply::Unreadable), _) => Err("解析余额失败"@),
        (_, Some(b)) => Ok(b@),
        (Some(Reply::Status(code)), None) => Err("HTTP "@ + text::int_text(code as int)),
        (Some(Reply::Failed), None) => Err("网络错误"@),
        (None, None) => Err("未设置 API Key，且暂无平台余额缓存"@),
    }
}

/// The text under a key, where there is one; `other` where there is none.
fn text_at(v: Option<&Json>, key: &str, other: &str) -> (r: String)
    ensures
        r@ == text_under(
            match v {
                Some(v) => Some(v@),
                None => None,
            },
            key@,
            other@,
        ),
{
    match v {
        Some(v) => match v.get(key) {
            Some(Json::Text(t)) => t.clone(),
            _ => other.to_owned(),
        },
        None => other.to_owned(),
    }
}

/// The balance that an answer states.
pub fn read_balance(answer: &Json) -> (r: Balance)
    ensures
        r@ == balance_stated(answer@),
        answer@.field("is_available"@) matches Some(json::Tree::Bool(b)) ==> r.is_available == b,
        !(answer@.field("is_available"@) matches Some(json::Tree::Bool(_))) ==> !r.is_available,
        !r.from_web,
{
    let info: Option<&Json> = match answer.get("balance_infos") {
        Some(list) => list.item(0),
        None => None,
    };
    let is_available: bool = match answer.get("is_available") {
        Some(Json::Bool(b)) => *b,
        _ => false,
    };
    Balance {
        currency: text_at(info, "currency", ""),
        total: text_at(info, "total_balance", "0.00"),
        granted: text_at(info, "granted_balance", "0.00"),
        topped_up: text_at(info, "topped_up_balance", "0.00"),
        is_available,
        from_web: false,
    }
}

/// Whether the account is available is what the answer says of it, yes or no; where the answer
/// does not say, or says neither, it is not.
pub proof fn law_available_as_stated(answer: json::Tree, available: bool)
    ensures
        answer.field("is_available"@) == Some(json::Tree::Bool(available)) ==> balance_stated(
            answer,
        ).is_available == available,
        answer.field("is_available"@) is None ==> !balance_stated(answer).is_available,
        answer.field("is_available"@) matches Some(v) && v !is Bool ==> !balance_stated(
            answer,
        ).is_available,
{
}

/// Of an answer with a list of balances, the first is told: each part as it is written there,
/// with a stand-in for a part that is missing or no text.
pub proof fn law_first_balance_told(answer: json::Tree, items: Seq<json::Tree>, part: Seq<char>)
    requires
        answer.field("balance_infos"@) == Some(json::Tree::Array(items)),
        items.len() > 0,
    ensures
        items[0].field("currency"@) == Some(json::Tree::Text(part)) ==> balance_stated(
            answer,
        ).currency == part,
        items[0].field("total_balance"@) == Some(json::Tree::Text(part)) ==> balance_stated(
            answer,
        ).total == part,
        items[0].field("granted_balance"@) == Some(json::Tree::Text(part)) ==> balance_stated(
            answer,
        ).granted == part,
        items[0].field("topped_up_balance"@) == Some(json::Tree::Text(part)) ==> balance_stated(
            answer,
        ).topped_up == part,
        !(items[0].field("currency"@) matches Some(json::Tree::Text(_))) ==> balance_stated(
            answer,
        ).currency == ""@,
        !(items[0].field("total_balance"@) matches Some(json::Tree::Text(_))) ==> balance_stated(
            answer,
        ).total == "0.00"@,
        !(items[0].field("granted_balance"@) matches Some(json::Tree::Text(_))) ==> balance_stated(
            answer,
        ).granted == "0.00"@,
        !(items[0].field("topped_up_balance"@) matches Some(json::Tree::Text(_)))
            ==> balance_stated(answer).topped_up == "0.00"@,
        !balance_stated(answer).from_web,
{
}

/// Of an answer without a list of balances, or with an empty one, stand-ins are told.
pub proof fn law_no_balance_told(answer: json::Tree)
    requires
        answer.field("balance_infos"@) matches Some(list) ==> list.item(0) is None,
    ensures
        balance_stated(answer).currency == ""@,
        balance_stated(answer).total == "0.00"@,
        balance_stated(answer).granted == "0.00"@,
        balance_stated(answer).topped_up == "0.00"@,
{
}

/// A readable answer is told whatever is kept, and an unreadable one is an error whatever is kept.
/// Where the asking failed, or there was no key to ask with, what is kept is told; and where nothing
/// is kept, why there is nothing.
pub proof fn law_which_balance_is_told(answer: Json, code: u16, kept: Option<Balance>, b: Balance)
    ensures
        balance_shown(Some(Reply::Answer(answer)), kept) == Ok::<BalanceView, Seq<char>>(
            balance_stated(answer@),
        ),
        balance_shown(Some(Reply::Unreadable), kept) == Err::<BalanceView, Seq<char>>(
            "解析余额失败"@,
        ),
        balance_shown(Some(Reply::Status(code)), Some(b)) == Ok::<BalanceView, Seq<char>>(b@),
        balance_shown(Some(Reply::Failed), Some(b)) == Ok::<BalanceView, Seq<char>>(b@),
        balance_shown(None, Some(b)) == Ok::<BalanceView, Seq<char>>(b@),
        balance_shown(Some(Reply::Status(code)), None) == Err::<BalanceView, Seq<char>>(
            "HTTP "@ + text::int_text(code as int),
        ),
        balance_shown(Some(Reply::Failed), None) == Err::<BalanceView, Seq<char>>("网络错误"@),
        balance_shown(None, None) == Err::<BalanceView, Seq<char>>(
            "未设置 API Key，且暂无平台余额缓存"@,
        ),
{
}

/// The balance to be shown, or why there is none. `asked` is what the request for the
/// balance was answered, where there was a key to ask with; `cached` is the balance that was
/// kept of an earlier time.
pub fn fetch_balance(asked: Option<Reply>, cached: Option<Balance>) -> (r: Result<Balance, String>)
    ensures
        match r {
            Ok(b) => balance_shown(asked, cached) == Ok::<BalanceView, Seq<char>>(b@),
            Err(e) => balance_shown(asked, cached) == Err::<BalanceView, Seq<char>>(e@),
        },
        asked matches Some(Reply::Answer(j)) ==> (r matches Ok(b) && b@ == balance_stated(j@)),
        asked == Some(Reply::Unreadable) ==> (r matches Err(e) && e@ == "解析余额失败"@),
        (asked is None || asked->0 is Status || asked->0 is Failed) && cached is Some ==> (
        r matches Ok(b) && b@ == cached->0@),
        asked is None && cached is None ==> (r matches Err(e) && e@
            == "未设置 API Key，且暂无平台余额缓存"@),
        asked == Some(Reply::Failed) && cached is None ==> (r matches Err(e) && e@ == "网络错误"@),
        (asked matches Some(Reply::Status(code)) && cached is None) ==> (r matches Err(e) && e@
            == "HTTP "@ + text::int_text(asked->0->Status_0 as int)),
{
    match asked {
        Some(Reply::Answer(j)) => Ok(read_balance(&j)),
        Some(Reply::Unreadable) => Err("解析余额失败".to_owned()),
        Some(Reply::Status(code)) => match cached {
            Some(b) => Ok(b),
            None => {
                let mut e: String = "HTTP ".to_owned();
                push_int(&mut e, code as i64);
                Err(e)
            },
        },
        Some(Reply::Failed) => match cached {
            Some(b) => Ok(b),
            None => Err("网络错误".to_owned()),
        },
        None => match cached {
            Some(b) => Ok(b),
            None => Err("未设置 API Key，且暂无平台余额缓存".to_owned()),
        },
    }
}

}
