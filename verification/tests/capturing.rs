//! What is captured in the login window and sent again later.

use deepseek_widget::capture::{count_script, Captures, Heard, Msg};
use deepseek_widget::date::Ymd;
use deepseek_widget::json::Json;
use deepseek_widget::replay::{
    askable, succeeded, Replay, ReplayError, Reply, UA, USAGE_URL,
};
use deepseek_widget::session::{Endpoint, Session};

const AMOUNT: &str = "https://platform.deepseek.com/api/v0/usage/amount?from=2026-05-01&to=2026-05-30";
const SUMMARY: &str = "https://platform.deepseek.com/api/v0/users/get_user_summary";

fn msg(url: &str, text: &str) -> Msg {
    Msg {
        kind: "cap".to_string(),
        url: url.to_string(),
        method: "GET".to_string(),
        auth: "Bearer t".to_string(),
        body: None,
        content_type: String::new(),
        status: 200,
        text: text.to_string(),
    }
}

fn endpoint(url: &str, method: &str, body: Option<&str>) -> Endpoint {
    Endpoint {
        url: url.to_string(),
        method: method.to_string(),
        auth: String::new(),
        body: body.map(|b| b.to_string()),
        content_type: String::new(),
    }
}

fn session(endpoints: Vec<Endpoint>) -> Session {
    Session { endpoints, cookie: String::new(), saved_at: String::new() }
}

fn today() -> Ymd {
    Ymd { y: 2026, m: 7, d: 15 }
}

#[test]
fn messages_are_heard() {
    let mut c = Captures::new();
    assert!(c.session("1".to_string()).is_none());
    assert!(c.cache("1".to_string()).is_none());
    assert_eq!(c.hear(msg(AMOUNT, r#"{"a":1}"#)), Heard::Count(1));
    assert_eq!(c.hear(msg(SUMMARY, r#"{"balance":"7"}"#)), Heard::Count(2));
    assert_eq!(
        c.hear(msg(&AMOUNT.replace("05", "06"), r#"[{"date":"2026-07-01","hit":3}]"#)),
        Heard::Count(2)
    );
    let mut done = msg("", "");
    done.kind = "finish".to_string();
    assert_eq!(c.hear(done), Heard::Finish);
    let s = c.session("12:00:00".to_string()).unwrap();
    assert_eq!(s.endpoints.len(), 2);
    assert_eq!(s.endpoints[0].url, AMOUNT.replace("05", "06"));
    assert_eq!(s.endpoints[1].url, SUMMARY);
    assert_eq!((s.endpoints[0].auth.as_str(), s.cookie.as_str()), ("Bearer t", ""));
    assert_eq!(s.saved_at, "12:00:00");
    let cache = c.cache("12:00:01".to_string()).unwrap();
    assert_eq!(cache.day_map.get("2026-07-01").unwrap().hit, 3);
    assert_eq!(cache.balance.unwrap().total, "7");
    assert_eq!(cache.fetched_at, "12:00:01");
    assert_eq!(c.caps.get("GET /api/v0/usage/amount").unwrap().text.len(), 31);
}

#[test]
fn other_messages_are_left_aside() {
    let mut c = Captures::new();
    let mut failed = msg(AMOUNT, "{}");
    failed.status = 401;
    let mut other = msg(AMOUNT, "{}");
    other.kind = "hello".to_string();
    for m in [
        failed,
        other,
        msg(AMOUNT, ""),
        msg(AMOUNT, "<html>"),
        msg("https://platform.deepseek.com/api/v0/users/login", "{}"),
    ] {
        assert_eq!(c.hear(m), Heard::Nothing);
    }
    assert_eq!(c.hear_answer(msg(AMOUNT, "x"), None), Heard::Nothing);
    assert_eq!(c.hear_answer(msg(AMOUNT, "x"), Some(Json::Null)), Heard::Count(1));
    assert!(c.cache(String::new()).is_none());
    assert!(c.session(String::new()).is_some());
}

#[test]
fn the_order_of_different_requests_does_not_matter() {
    let heard = |urls: [&str; 2]| {
        let mut c = Captures::new();
        for u in urls {
            c.hear(msg(u, r#"{"a":1}"#));
        }
        c.session("1".to_string()).unwrap()
    };
    assert_eq!(heard([AMOUNT, SUMMARY]), heard([SUMMARY, AMOUNT]));
}

#[test]
fn the_page_is_told_how_many() {
    assert_eq!(count_script(0), "window.__dsCount=0;");
    assert_eq!(count_script(12), "window.__dsCount=12;");
}

#[test]
fn nothing_is_sent_without_a_session() {
    assert_eq!(Replay::begin(None, today(), 30).unwrap_err(), ReplayError::NoSession);
    let e = Replay::begin(Some(session(vec![])), today(), 30).unwrap_err();
    assert_eq!(e, ReplayError::NoEndpoints);
    assert_eq!(ReplayError::NoSession.reason(), "no_session");
    assert_eq!(ReplayError::NoEndpoints.reason(), "no_endpoints");
    assert_eq!(ReplayError::AuthExpired.reason(), "auth_expired");
    assert_eq!(ReplayError::AllFailed.reason(), "all_failed");
}

#[test]
fn requests_are_asked_for_the_last_days() {
    let mut s = session(vec![
        endpoint("https://platform.deepseek.com/api/v0/users/login", "POST", Some("{}")),
        endpoint(AMOUNT, "get", None),
        endpoint("https://example.com/", "GET", None),
        endpoint(SUMMARY, "Post", Some(r#"{"from":1746057600,"to":1748649600}"#)),
    ]);
    s.cookie = "c=1".to_string();
    s.endpoints[1].auth = "Bearer t".to_string();
    s.endpoints[3].content_type = "text/plain".to_string();
    let mut r = Replay::begin(Some(s), today(), 30).unwrap();
    let q = r.next_request().unwrap();
    assert!(!q.post);
    assert_eq!(q.url, AMOUNT.replace("05-01", "06-16").replace("05-30", "07-15"));
    let owned = |h: &[(&'static str, &str)]| {
        h.iter().map(|(n, v)| (*n, v.to_string())).collect::<Vec<_>>()
    };
    assert_eq!(
        q.headers,
        owned(&[
            ("User-Agent", UA),
            ("Referer", USAGE_URL),
            ("Origin", "https://platform.deepseek.com"),
            ("Authorization", "Bearer t"),
            ("Cookie", "c=1"),
        ])
    );
    assert_eq!(q.body, None);
    let q = r.next_request().unwrap();
    assert!(q.post);
    assert_eq!(q.url, SUMMARY);
    assert_eq!(q.body.as_deref(), Some(r#"{"from":1781568000,"to":1784160000}"#));
    assert_eq!(
        q.headers,
        owned(&[
            ("User-Agent", UA),
            ("Referer", USAGE_URL),
            ("Origin", "https://platform.deepseek.com"),
            ("Cookie", "c=1"),
            ("Content-Type", "text/plain"),
        ])
    );
    assert!(r.next_request().is_none());
    assert!(r.next_request().is_none());
}

#[test]
fn a_body_is_json_where_nothing_else_is_said() {
    let s = session(vec![endpoint(SUMMARY, "POST", Some("{}"))]);
    let q = Replay::begin(Some(s), today(), 1).unwrap().next_request().unwrap();
    assert_eq!(q.headers.last().unwrap(), &("Content-Type", "application/json".to_string()));
    assert_eq!(q.headers.len(), 4);
}

#[test]
fn a_refusal_ends_the_attempt_and_other_failures_do_not() {
    let s = session(vec![endpoint(SUMMARY, "GET", None)]);
    let mut r = Replay::begin(Some(s), today(), 30).unwrap();
    for reply in [Reply::Unreadable, Reply::Failed, Reply::Status(500), Reply::Status(404)] {
        assert_eq!(r.take_reply(reply), Ok(()));
    }
    let failure = Json::parse(r#"{"data":{"biz_code":7,"x":[{"date":"2026-07-01","hit":1}]}}"#);
    assert_eq!(r.take_reply(Reply::Answer(failure.unwrap())), Ok(()));
    assert_eq!(r.finish(String::new()).unwrap_err(), ReplayError::AllFailed);
    assert_eq!(r.take_reply(Reply::Status(401)), Err(ReplayError::AuthExpired));
    assert_eq!(r.take_reply(Reply::Status(403)), Err(ReplayError::AuthExpired));
    let answer = Json::parse(
        r#"{"data":{"biz_code":0,"x":[{"date":"2026-07-01","hit":1}],"balance":"0"}}"#,
    );
    assert_eq!(r.take_reply(Reply::Answer(answer.unwrap())), Ok(()));
    let c = r.finish("09:00:00".to_string()).unwrap();
    assert_eq!(c.day_map.get("2026-07-01").unwrap().hit, 1);
    assert!(!c.balance.unwrap().is_available);
    assert_eq!(c.fetched_at, "09:00:00");
}

#[test]
fn answers_without_a_code_are_answers() {
    for (text, ok) in [
        ("{}", true),
        ("[]", true),
        (r#"{"data":{}}"#, true),
        (r#"{"data":{"biz_code":0}}"#, true),
        (r#"{"data":{"biz_code":"7"}}"#, true),
        (r#"{"data":{"biz_code":1.5}}"#, true),
        (r#"{"data":{"biz_code":-1}}"#, false),
        (r#"{"biz_code":1}"#, true),
    ] {
        assert_eq!(succeeded(&Json::parse(text).unwrap()), ok, "{}", text);
    }
}

#[test]
fn days_that_have_no_times_are_told() {
    let usage = || Some(session(vec![endpoint(AMOUNT, "GET", None)]));
    let other = || Some(session(vec![endpoint("https://example.com/", "GET", None)]));
    for days in [30, 0, -5] {
        assert!(askable(&usage(), today(), days));
    }
    for days in [i64::MIN, i64::MAX] {
        assert!(!askable(&usage(), today(), days));
        assert!(askable(&None, today(), days));
        assert!(askable(&Some(session(vec![])), today(), days));
    }
    assert!(!askable(&usage(), Ymd { y: i64::MAX, m: 1, d: 1 }, 1));
    // Without a request to be sent no time is computed.
    let far = Ymd { y: 400_000_000, m: 1, d: 1 };
    assert!(!askable(&usage(), far, 1));
    assert!(askable(&other(), far, 1));
    assert!(Replay::begin(other(), far, 1).unwrap().next_request().is_none());
    assert!(!askable(&other(), today(), i64::MIN));
}
