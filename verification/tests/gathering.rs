//! Usage and balances out of the platform's answers.

use deepseek_widget::amount::{above_zero, is_number};
use deepseek_widget::balance::find_balance;
use deepseek_widget::date::Ymd;
use deepseek_widget::float::{cut, round_up};
use deepseek_widget::json::Json;
use deepseek_widget::table::Table;
use deepseek_widget::usage::{
    absorb, as_int, classify_key, day_series, normalize_captures, num_to_date, series_ok, settle,
    value_to_date, Day, DayAcc, Metric,
};

fn json(text: &str) -> Json {
    Json::parse(text).unwrap()
}

fn rows(m: &Table<Day>) -> Vec<(String, Day)> {
    (0..m.len()).map(|i| (m.key_at(i).to_string(), *m.value_at(i))).collect()
}

#[test]
fn json_is_opened_as_serde_json_reads_it() {
    let j = json(r#"{"b":[null,true,"x",-3],"a":2.5,"c":{"d":18446744073709551615}}"#);
    assert_eq!(j.get("b").unwrap().item(0), Some(&Json::Null));
    assert_eq!(j.get("b").unwrap().item(1), Some(&Json::Bool(true)));
    assert_eq!(j.get("b").unwrap().item(2), Some(&Json::Text("x".to_string())));
    assert_eq!(j.get("b").unwrap().item(4), None);
    match j.get("b").unwrap().item(3).unwrap() {
        Json::Number(n) => {
            assert_eq!((n.int, n.float, n.text.as_str()), (Some(-3), Some((-3f64).to_bits()), "-3"));
        }
        other => panic!("{:?}", other),
    }
    match j.get("a").unwrap() {
        Json::Number(n) => {
            assert_eq!((n.int, n.float, n.text.as_str()), (None, Some(2.5f64.to_bits()), "2.5"));
        }
        other => panic!("{:?}", other),
    }
    match j.get("c").unwrap().get("d").unwrap() {
        Json::Number(n) => {
            assert_eq!(n.int, None);
            assert_eq!(n.float, Some((u64::MAX as f64).to_bits()));
            assert_eq!(n.text, "18446744073709551615");
        }
        other => panic!("{:?}", other),
    }
    assert_eq!(j.get("x"), None);
    assert_eq!(j.item(0), None);
    assert!(Json::parse("{").is_none());
    assert!(Json::parse("").is_none());
    let v: serde_json::Value = serde_json::from_str(r#"[1,{"k":"v"}]"#).unwrap();
    assert_eq!(Json::from_value(&v), json(r#"[1,{"k":"v"}]"#));
    assert_eq!(j.copy(), j);
}

#[test]
fn keys_are_told_apart() {
    for (k, m) in [
        ("prompt_cache_hit_tokens", Some(Metric::Hit)),
        ("CACHE_HIT", Some(Metric::Hit)),
        ("prompt_cache_miss_tokens", Some(Metric::Miss)),
        ("completion_tokens", Some(Metric::Output)),
        ("output", Some(Metric::Output)),
        ("request_count", Some(Metric::Requests)),
        ("api_calls", Some(Metric::Requests)),
        ("input_tokens", Some(Metric::InputTotal)),
        ("Prompt", Some(Metric::InputTotal)),
        ("total_tokens", Some(Metric::TokensTotal)),
        ("tokens_total", None),
        ("model", None),
    ] {
        assert_eq!(classify_key(k), m, "{}", k);
    }
}

#[test]
fn counts_are_integers_floats_or_texts() {
    assert_eq!(as_int(&json("12")), Some(12));
    assert_eq!(as_int(&json("12.9")), Some(12));
    assert_eq!(as_int(&json("-12.9")), Some(-12));
    assert_eq!(as_int(&json("1e30")), Some(i64::MAX));
    assert_eq!(as_int(&json("null")), None);
    assert_eq!(as_int(&json("[1]")), None);
}

#[test]
fn times_are_seconds_or_milliseconds() {
    assert_eq!(num_to_date(1_783_996_800_000, 1_783_996_800_000), Some("2026-07-14".to_string()));
    assert_eq!(num_to_date(1_783_996_800, 1_783_996_800), Some("2026-07-14".to_string()));
    assert_eq!(num_to_date(5, 5), None);
    assert_eq!(value_to_date(&json("1783996800")), Some("2026-07-14".to_string()));
    assert_eq!(value_to_date(&json(r#""2026/07/14 08:00""#)), Some("2026-07-14".to_string()));
    assert_eq!(value_to_date(&json(r#""soon""#)), None);
    assert_eq!(value_to_date(&json("true")), None);
}

#[test]
fn floats_are_cut_off_and_rounded_up_as_std_does() {
    let mut bits: u64 = 1;
    for i in 0..200_000u64 {
        bits = bits.wrapping_mul(6_364_136_223_846_793_005).wrapping_add(1_442_695_040_888_963_407);
        // Half of them between 2 to the -4 and 2 to the 68.
        let b = if i % 2 == 0 {
            bits
        } else {
            (bits & 0x800f_ffff_ffff_ffff) | ((1019 + bits % 72) << 52)
        };
        let x = f64::from_bits(b);
        assert_eq!(cut(b), x as i64, "{:e}", x);
        assert_eq!(round_up(b), x.ceil() as i64, "{:e}", x);
    }
    for x in [
        0.0, -0.0, 0.5, -0.5, 1.0, -1.0, 1.5, -1.5, 4503599627370495.5, 4503599627370497.0, 9.3e18,
        -9.3e18, 9223372036854774784.0, 9223372036854775808.0, -9223372036854775808.0, 1e300,
        -1e300, f64::MIN_POSITIVE, 5e-324, -5e-324, f64::INFINITY, f64::NEG_INFINITY, f64::NAN,
    ] {
        assert_eq!(cut(x.to_bits()), x as i64, "{:e}", x);
        assert_eq!(round_up(x.to_bits()), x.ceil() as i64, "{:e}", x);
    }
}

#[test]
fn times_are_cut_off_as_floats_are() {
    let reference = |mut n: f64| {
        if n > 1e12 {
            n /= 1000.0;
        }
        if n > 1e9 && n < 4e9 {
            Some(Ymd::from_days((n as i64).div_euclid(86_400)).to_string())
        } else {
            None
        }
    };
    for base in [
        1e9, 4e9, 1e12, 4e12, 1_099_511_627_776.0, 2_199_023_255_552.0, 1_783_987_200.0,
        1_783_987_200_000.0, 1_073_741_760_000.0, 2_147_472_000_000.0, -1e9, 0.0, 1e300,
    ] {
        let mut bits = f64::to_bits(base).wrapping_sub(40);
        for _ in 0..80 {
            let n = f64::from_bits(bits);
            if let Some(number) = serde_json::Number::from_f64(n) {
                let j = Json::from_value(&serde_json::Value::Number(number));
                assert_eq!(value_to_date(&j), reference(n), "{}", n);
                assert_eq!(as_int(&j), Some(n as i64), "{}", n);
            }
            bits = bits.wrapping_add(1);
        }
    }
    for n in [999_999_999i64, 1_000_000_000, 1_000_000_001, 3_999_999_999, 4_000_000_000] {
        assert_eq!(value_to_date(&json(&n.to_string())), reference(n as f64));
        assert_eq!(value_to_date(&Json::Text(format!(" {} ", n))), reference(n as f64));
    }
}

#[test]
fn the_greatest_count_of_a_day_is_kept() {
    let none = DayAcc {
        requests: 0, hit: 0, miss: 0, output: 0, input_total: 0, tokens_total: 0,
    };
    let mut a = none;
    absorb(&mut a, Metric::Hit, 5);
    absorb(&mut a, Metric::Hit, 3);
    absorb(&mut a, Metric::Output, -1);
    assert_eq!((a.hit, a.output), (5, 0));
    absorb(&mut a, Metric::InputTotal, 12);
    assert_eq!(settle(a), Day { requests: 0, hit: 5, miss: 0, output: 0 });
    let day = |d: DayAcc| settle(d);
    assert_eq!(day(DayAcc { input_total: 12, ..none }).miss, 12);
    assert_eq!(day(DayAcc { tokens_total: 7, ..none }).miss, 7);
    assert_eq!(day(DayAcc { tokens_total: 7, output: 1, ..none }).miss, 0);
    assert_eq!(day(DayAcc { input_total: 12, tokens_total: 7, ..none }).miss, 12);
}

#[test]
fn answers_in_any_order_and_again_give_the_same_usage() {
    let texts = [
        r#"{"list":[{"date":"2026-07-08","hit":1,"request_count":4}]}"#,
        r#"{"list":[{"date":"2026-07-08","hit":9,"miss":2},{"date":"2026-07-09","output":3}]}"#,
        r#"{"note":"nothing here"}"#,
    ];
    let all = |order: &[usize]| {
        let answers: Vec<Json> = order.iter().map(|i| json(texts[*i])).collect();
        rows(&normalize_captures(&answers))
    };
    let expected = vec![
        ("2026-07-08".to_string(), Day { requests: 4, hit: 9, miss: 2, output: 0 }),
        ("2026-07-09".to_string(), Day { requests: 0, hit: 0, miss: 0, output: 3 }),
    ];
    assert_eq!(all(&[0, 1, 2]), expected);
    assert_eq!(all(&[2, 1, 0]), expected);
    assert_eq!(all(&[1, 0, 1, 2, 0]), expected);
    assert_eq!(all(&[0])[0].1.hit, 1);
    assert_eq!(all(&[]), vec![]);
}

#[test]
fn the_days_of_usage_are_dates() {
    let m = normalize_captures(&[json(
        r#"{"list":[{"day":"2026/7/8"},{"day":"2026/07/08 12:00"},{"time":1783996800.5},
            {"x":"1783996800"},{"date":"soon","hit":1},{"date":"2026-+7-+9"}]}"#,
    )]);
    let days: Vec<String> = rows(&m).into_iter().map(|(d, _)| d).collect();
    assert_eq!(days, ["2026-07-08", "2026-07-09", "2026-07-14"]);
    for d in days {
        assert_eq!(Ymd::parse(&d).unwrap().to_string(), d);
    }
}

#[test]
fn usage_is_never_negative() {
    let m = normalize_captures(&[json(
        r#"{"list":[{"date":"2026-07-08","hit":-1,"miss":-2,"output":-3,"request_count":-4}]}"#,
    )]);
    assert_eq!(rows(&m), vec![("2026-07-08".to_string(), Day::default())]);
}

#[test]
fn the_last_days_stand_one_behind_the_other() {
    let today = Ymd { y: 2024, m: 3, d: 2 };
    let s = day_series(&Table::new(), today, 4);
    let dates: Vec<&str> = s.iter().map(|(d, _)| d.as_str()).collect();
    assert_eq!(dates, ["2024-02-28", "2024-02-29", "2024-03-01", "2024-03-02"]);
    assert!(day_series(&Table::new(), today, 0).is_empty());
    assert!(day_series(&Table::new(), today, -7).is_empty());
    assert!(series_ok(today, 30));
    assert!(!series_ok(Ymd { y: i64::MAX, m: 1, d: 1 }, 1));
}

#[test]
fn tables_keep_their_keys_in_order() {
    let mut t: Table<i32> = Table::new();
    assert!(t.is_empty());
    for (k, v) in [("b", 1), ("a", 2), ("ab", 3), ("", 4), ("é", 5), ("z", 6), ("b", 7)] {
        t.insert(k.to_string(), v);
    }
    let keys: Vec<&str> = (0..t.len()).map(|i| t.key_at(i)).collect();
    assert_eq!(keys, ["", "a", "ab", "b", "z", "é"]);
    assert_eq!(t.get("b"), Some(&7));
    assert_eq!(t.get("c"), None);
}

#[test]
fn later_answers_count_for_the_balance() {
    let first = r#"{"total_balance":"1","granted_balance":"2","currency":"USD"}"#;
    let second = r#"{"x":[{"TOTAL_BALANCE":3.5,"topped_up_balance":"abc"}]}"#;
    let b = find_balance(&[json(first), json(second)]).unwrap();
    assert_eq!((b.total.as_str(), b.granted.as_str()), ("3.5", "2"));
    assert_eq!((b.topped_up.as_str(), b.currency.as_str()), ("-", "USD"));
    assert!(b.is_available && b.from_web);
    let b = find_balance(&[json(second), json(first)]).unwrap();
    assert_eq!(b.total, "1");
}

#[test]
fn a_total_is_found_under_other_names() {
    let b = find_balance(&[json(r#"{"balance":"0.00","available_balance":"9"}"#)]).unwrap();
    assert_eq!((b.total.as_str(), b.is_available, b.currency.as_str()), ("0.00", false, "CNY"));
    let b = find_balance(&[json(r#"{"available_balance":"9"}"#)]).unwrap();
    assert_eq!((b.total.as_str(), b.is_available), ("9", true));
    assert!(find_balance(&[json(r#"{"granted_balance":"9","balance":true}"#)]).is_none());
    assert!(find_balance(&[json(r#"{"balance":"12元"}"#)]).is_none());
    assert!(find_balance(&[]).is_none());
}

#[test]
fn amounts_are_read_as_std_reads_floats() {
    let long = format!("0.{}1", "0".repeat(400));
    let edge = format!("0.{}1", "0".repeat(322));
    for s in [
        "", "0", "-0", "1", "+1.5", "-1.5", ".5", "5.", ".", "1e5", "1E-5", "1e", "e5", "1e+", "inf",
        "-inf", "+infinity", "INFINITY", "nan", "NaN", "-nan", "1 ", " 1", "1,5", "0x1", "1e400",
        "1e-400", "5e-324", "3e-324", "2e-324", "2.4703282292062327e-324",
        "2.4703282292062328e-324", "-1e400", "0e999999999999", "1e999999999999999999999",
        "1e-999999999999999999999", "00012.00", "1_0", "١", long.as_str(), edge.as_str(),
    ] {
        assert_eq!(is_number(s), s.parse::<f64>().is_ok(), "{}", s);
        assert_eq!(above_zero(s), s.parse::<f64>().unwrap_or(0.0) > 0.0, "{}", s);
    }
}
