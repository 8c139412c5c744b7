//! Dates, usage, balances and the rewriting of requests, on what the platform sends.

use deepseek_widget::balance::find_balance;
use deepseek_widget::date::Ymd;
use deepseek_widget::json::Json;
use deepseek_widget::rewrite::rewrite_dates;
use deepseek_widget::table::Table;
use deepseek_widget::usage::{day_series, normalize_captures, Day};

fn ymd(y: i64, m: i64, d: i64) -> Ymd {
    Ymd { y, m, d }
}

fn json(text: &str) -> Json {
    Json::parse(text).unwrap()
}

#[test]
fn date_roundtrip() {
    for (y, m, d) in [(2026, 7, 15), (2000, 1, 1), (1999, 12, 31), (2024, 2, 29)] {
        let a = ymd(y, m, d);
        assert_eq!(Ymd::from_days(a.to_days()), a);
    }
    assert_eq!(ymd(2026, 7, 15).minus_days(30).to_string(), "2026-06-15");
    assert_eq!(ymd(2026, 3, 1).minus_days(1).to_string(), "2026-02-28");
    assert_eq!(ymd(2024, 3, 1).minus_days(1).to_string(), "2024-02-29");
}

#[test]
fn parse_dates() {
    assert_eq!(Ymd::parse("2026-07-08").unwrap(), ymd(2026, 7, 8));
    assert_eq!(Ymd::parse("2026/07/08T12:00").unwrap(), ymd(2026, 7, 8));
    assert!(Ymd::parse("2026-13-40").is_none());
    assert!(Ymd::parse("abc").is_none());
}

#[test]
fn normalize_structure_a() {
    let cap = json(
        r#"{"data":{"list":[
            {"date":"2026-07-08","prompt_cache_hit_tokens":959488,
             "prompt_cache_miss_tokens":19557815,"completion_tokens":2490835,"request_count":1200},
            {"date":"2026-07-09","cache_hit":1000,"cache_miss":5000,
             "output_tokens":800,"api_calls":300}
        ]}}"#,
    );
    let m = normalize_captures(&[cap]);
    let a = m.get("2026-07-08").unwrap();
    assert_eq!(a.hit, 959488);
    assert_eq!(a.miss, 19557815);
    assert_eq!(a.output, 2490835);
    assert_eq!(a.requests, 1200);
    let b = m.get("2026-07-09").unwrap();
    assert_eq!(b.output, 800);
    assert_eq!(b.requests, 300);
}

#[test]
fn normalize_nested_and_epoch() {
    let cap = json(
        r#"{"usage":[
            {"time": 1783996800000,
             "tokens":{"hit_tokens":111,"miss_tokens":222,"completion":333},
             "count":9}
        ]}"#,
    );
    let m = normalize_captures(&[cap]);
    assert_eq!(m.len(), 1);
    let d = m.value_at(0);
    assert_eq!(*d, Day { requests: 9, hit: 111, miss: 222, output: 333 });
}

#[test]
fn normalize_input_total_fallback() {
    let cap = json(
        r#"{"items":[{"day":"2026/07/10","input_tokens":7777,
                      "output_tokens":555,"requests":42}]}"#,
    );
    let m = normalize_captures(&[cap]);
    let d = m.get("2026-07-10").unwrap();
    assert_eq!(d.miss, 7777);
    assert_eq!(d.output, 555);
    assert_eq!(d.requests, 42);
    assert_eq!(d.hit, 0);
}

#[test]
fn series_fills_gaps() {
    let mut map = Table::new();
    map.insert("2026-07-15".to_string(), Day { requests: 8, hit: 5, miss: 6, output: 7 });
    let s = day_series(&map, ymd(2026, 7, 15), 30);
    assert_eq!(s.len(), 30);
    assert_eq!(s[0].0, "2026-06-16");
    assert_eq!(s[29].0, "2026-07-15");
    assert_eq!(s[29].1.requests, 8);
    assert_eq!(s[0].1.requests, 0);
}

#[test]
fn balance_extract() {
    let cap = json(
        r#"{"balance_infos":[{"currency":"CNY","total_balance":"88.50",
            "granted_balance":"10.00","topped_up_balance":"78.50"}]}"#,
    );
    let b = find_balance(&[cap]).unwrap();
    assert_eq!(b.total, "88.50");
    assert_eq!(b.currency, "CNY");
    assert!(b.is_available);
    assert!(b.from_web);
}

#[test]
fn rewrite_iso_range() {
    let s = ymd(2026, 6, 16);
    let e = ymd(2026, 7, 15);
    let url = "https://x/api?start_date=2026-05-01&end_date=2026-05-30&g=day";
    let r = rewrite_dates(url, s, e);
    assert!(r.contains("2026-06-16"), "{}", r);
    assert!(r.contains("2026-07-15"), "{}", r);
    assert!(!r.contains("2026-05-01"), "{}", r);
}

#[test]
fn rewrite_epoch_range() {
    let s = ymd(2026, 6, 16);
    let e = ymd(2026, 7, 15);
    let body = r#"{"begin":1746057600000,"end":1748649600000}"#;
    let r = rewrite_dates(body, s, e);
    let v: serde_json::Value = serde_json::from_str(&r).unwrap();
    let begin = v["begin"].as_i64().unwrap();
    let end = v["end"].as_i64().unwrap();
    assert!(begin < end, "begin={} end={}", begin, end);
    assert_eq!(begin, s.midnight_unix() * 1000);
    assert_eq!(end, (e.end_unix() + 1) * 1000);
}

#[test]
fn rewrite_does_not_touch_other_numbers() {
    let s = ymd(2026, 6, 16);
    let e = ymd(2026, 7, 15);
    let url = "https://x/api?page=2&size=100&start=2026-05-01&end=2026-05-30";
    let r = rewrite_dates(url, s, e);
    assert!(r.contains("page=2"));
    assert!(r.contains("size=100"));
}
