//! What the widget, its settings and its tray icon show.

use deepseek_widget::balance::Balance;
use deepseek_widget::chart::{
    chart, day_label, figure, fmt, segments, tokens, tooltip_lines, Chart, Kind, Shade,
};
use deepseek_widget::date::Ymd;
use deepseek_widget::fetch::{
    balance_request, fetch_balance, get_usage, read_balance, Outcome, BALANCE_URL,
};
use deepseek_widget::json::Json;
use deepseek_widget::replay::{ReplayError, Reply};
use deepseek_widget::session::Cache;
use deepseek_widget::settings::{
    def_days, def_refresh, mask_key, maskable, passthrough, refresh_interval, Change, Form,
    Settings,
};
use deepseek_widget::snapshot::{marks, today_figures, Mark, Snapshot};
use deepseek_widget::table::Table;
use deepseek_widget::tray::{
    autostart_cmd, login_label, picked, toggle_autostart, toggle_widget, widget_label, Action,
    Autostart, Item, Menu, Role, APP_NAME,
};
use deepseek_widget::usage::Day;

fn today() -> Ymd {
    Ymd { y: 2026, m: 7, d: 15 }
}

fn balance(total: &str) -> Balance {
    Balance {
        currency: "CNY".to_string(),
        total: total.to_string(),
        granted: "-".to_string(),
        topped_up: "-".to_string(),
        is_available: true,
        from_web: true,
    }
}

fn cache(hit: i64) -> Cache {
    let mut day_map = Table::new();
    day_map.insert("2026-07-15".to_string(), Day { requests: 1, hit, miss: 2, output: 3 });
    Cache { day_map, balance: Some(balance("5")), fetched_at: "08:00:00".to_string() }
}

#[test]
fn usage_is_from_the_web_the_cache_or_nowhere() {
    let r = get_usage(today(), 2, Outcome::Fetched(cache(9)), Some(cache(4)));
    assert_eq!((r.source, r.note.as_str(), r.series.len()), ("web", "", 2));
    assert_eq!((r.series[0].0.as_str(), r.series[0].1), ("2026-07-14", Day::default()));
    assert_eq!((r.series[1].0.as_str(), r.series[1].1.hit), ("2026-07-15", 9));
    assert_eq!(r.balance, Some(balance("5")));

    let r = get_usage(today(), 1, Outcome::Failed(ReplayError::AuthExpired), Some(cache(4)));
    assert_eq!((r.source, r.series[0].1.hit), ("cache", 4));
    assert_eq!(r.note, "平台登录已过期，请在托盘重新登录（下方为缓存）");
    assert_eq!(r.balance, Some(balance("5")));

    let r = get_usage(today(), 1, Outcome::Failed(ReplayError::AllFailed), Some(cache(4)));
    assert_eq!((r.source, r.note.as_str()), ("cache", "平台同步失败（all_failed），显示缓存"));

    let r = get_usage(today(), 1, Outcome::Failed(ReplayError::NoSession), None);
    assert_eq!((r.source, r.series[0].1, r.balance), ("none", Day::default(), None));
    assert_eq!(r.note, "平台会话不可用（no_session），请在托盘重新登录");

    let r = get_usage(today(), 1, Outcome::NoSession, Some(cache(4)));
    assert_eq!((r.source, r.note.as_str()), ("cache", ""));
    assert_eq!((r.series[0].1.hit, r.balance), (4, Some(balance("5"))));

    let r = get_usage(today(), 1, Outcome::NoSession, None);
    assert_eq!((r.source, r.note.as_str(), r.balance), ("none", "", None));
    assert_eq!(r.series[0].1, Day::default());
}

#[test]
fn the_balance_is_asked_for_with_a_key() {
    assert!(balance_request("").is_none());
    let q = balance_request("sk-1").unwrap();
    assert_eq!((q.post, q.url.as_str(), q.body), (false, BALANCE_URL, None));
    assert_eq!(q.headers, vec![("Authorization", "Bearer sk-1".to_string())]);

    let answer = Json::parse(
        r#"{"is_available":true,"balance_infos":[{"currency":"USD","total_balance":"3.00",
            "granted_balance":"1.00","topped_up_balance":"2.00"},{"currency":"CNY"}]}"#,
    )
    .unwrap();
    let b = read_balance(&answer);
    assert_eq!((b.currency.as_str(), b.total.as_str()), ("USD", "3.00"));
    assert_eq!((b.granted.as_str(), b.topped_up.as_str()), ("1.00", "2.00"));
    assert_eq!((b.is_available, b.from_web), (true, false));
    let b = read_balance(&Json::Null);
    assert_eq!((b.currency.as_str(), b.total.as_str()), ("", "0.00"));
    assert_eq!((b.granted.as_str(), b.topped_up.as_str()), ("0.00", "0.00"));
    assert_eq!((b.is_available, b.from_web), (false, false));
    let odd = Json::parse(r#"{"is_available":1,"balance_infos":{"0":{"currency":"x"}}}"#).unwrap();
    assert_eq!(read_balance(&odd), b);
}

#[test]
fn the_balance_that_was_kept_stands_in() {
    let answer = || Some(Reply::Answer(Json::Null));
    assert_eq!(fetch_balance(answer(), Some(balance("5"))).unwrap().total, "0.00");
    assert_eq!(
        fetch_balance(Some(Reply::Unreadable), Some(balance("5"))),
        Err("解析余额失败".to_string())
    );
    for asked in [Some(Reply::Status(402)), Some(Reply::Failed), None] {
        assert_eq!(fetch_balance(asked, Some(balance("5"))), Ok(balance("5")));
    }
    assert_eq!(fetch_balance(Some(Reply::Status(402)), None), Err("HTTP 402".to_string()));
    assert_eq!(fetch_balance(Some(Reply::Failed), None), Err("网络错误".to_string()));
    assert_eq!(
        fetch_balance(None, None),
        Err("未设置 API Key，且暂无平台余额缓存".to_string())
    );
}

#[test]
fn a_balance_that_is_known_stays_known() {
    let none = || get_usage(today(), 1, Outcome::NoSession, None);
    let mut s = Snapshot::loading();
    assert_eq!(s.balance_err.as_deref(), Some("加载中…"));
    s.refresh(none(), Err("网络错误".to_string()));
    assert_eq!((&s.balance, s.balance_err.as_deref()), (&None, Some("网络错误")));
    assert_eq!(s.series.len(), 1);
    s.refresh(
        get_usage(today(), 2, Outcome::Failed(ReplayError::AllFailed), Some(cache(4))),
        Err("网络错误".to_string()),
    );
    assert_eq!((&s.balance, &s.balance_err), (&Some(balance("5")), &None));
    assert_eq!(s.note, "平台同步失败（all_failed），显示缓存");
    s.refresh(none(), Err("网络错误".to_string()));
    assert_eq!((&s.balance, &s.balance_err), (&Some(balance("5")), &None));
    assert_eq!(s.note, "");
    s.refresh(none(), Ok(balance("6")));
    assert_eq!((&s.balance, &s.balance_err), (&Some(balance("6")), &None));
}

#[test]
fn marks_tell_of_the_balance() {
    let mut b = balance("1");
    assert_eq!(marks(&b), vec![(Mark::Good, "余额可用"), (Mark::Plain, "来自平台网页")]);
    b.is_available = false;
    b.from_web = false;
    assert_eq!(marks(&b), vec![(Mark::Bad, "余额不足")]);
}

#[test]
fn thousands_are_set_apart() {
    for (n, s) in [
        (0, "0"),
        (7, "7"),
        (999, "999"),
        (1_000, "1,000"),
        (-1, "-1"),
        (-999, "-999"),
        (-1_000, "-1,000"),
        (123_456, "123,456"),
        (1_234_567, "1,234,567"),
        (i64::MAX, "9,223,372,036,854,775,807"),
        (i64::MIN, "-9,223,372,036,854,775,808"),
    ] {
        assert_eq!(fmt(n), s);
        assert_eq!(fmt(n).replace(',', ""), n.to_string());
    }
}

fn series() -> Vec<(String, Day)> {
    vec![
        ("2026-07-14".to_string(), Day { requests: 4, hit: 10, miss: 20, output: 30 }),
        ("2026-07-15".to_string(), Day { requests: 1_500, hit: 0, miss: 0, output: 7 }),
    ]
}

#[test]
fn charts_have_totals_and_peaks() {
    assert_eq!(
        chart(&series(), Kind::Requests),
        Some(Chart { title: "API 请求次数", total: 1_504, peak: Some(1_500) })
    );
    assert_eq!(
        chart(&series(), Kind::Tokens),
        Some(Chart { title: "Tokens", total: 67, peak: Some(60) })
    );
    assert_eq!(
        chart(&vec![], Kind::Tokens),
        Some(Chart { title: "Tokens", total: 0, peak: None })
    );
    let mut s = series();
    s[0].1.requests = -1_600;
    s[1].1.requests = -1;
    assert_eq!(chart(&s, Kind::Requests).unwrap().peak, Some(1));
    s[0].1.requests = i64::MIN;
    assert_eq!(chart(&s, Kind::Requests), None);
    s[0].1.hit = i64::MAX;
    assert_eq!(chart(&s, Kind::Tokens), None);
    assert_eq!(tokens(&s[0].1), None);
    assert_eq!(figure(&s[0].1, Kind::Requests), Some(i64::MIN));
    assert_eq!(today_figures(&series()), Some(("1,500".to_string(), "7".to_string())));
    assert_eq!(today_figures(&vec![]), Some(("0".to_string(), "0".to_string())));
    assert_eq!(today_figures(&vec![s[0].clone()]), None);
}

#[test]
fn bars_are_made_of_what_was_used() {
    let s = series();
    assert_eq!(
        segments(&s[0].1, Kind::Tokens),
        vec![(10, Shade::Light), (20, Shade::Middle), (30, Shade::Deep)]
    );
    assert_eq!(segments(&s[1].1, Kind::Tokens), vec![(7, Shade::Deep)]);
    assert_eq!(segments(&s[1].1, Kind::Requests), vec![(1_500, Shade::Middle)]);
    assert!(segments(&Day::default(), Kind::Requests).is_empty());
    for (_, d) in &s {
        let high: i64 = segments(d, Kind::Tokens).iter().map(|p| p.0).sum();
        assert_eq!(Some(high), tokens(d));
        assert!(high <= chart(&s, Kind::Tokens).unwrap().peak.unwrap());
    }
}

#[test]
fn a_day_is_told_in_lines() {
    let d = Day { requests: 1_234, hit: 1_000, miss: 2, output: 3 };
    let lines = tooltip_lines("2026-07-15", &d, Kind::Tokens).unwrap();
    let told: Vec<(&str, &str, Option<Shade>)> =
        lines.iter().map(|l| (l.label.as_str(), l.value.as_str(), l.shade)).collect();
    assert_eq!(
        told,
        vec![
            ("2026-07-15", "1,005", None),
            ("输入（命中缓存）", "1,000", Some(Shade::Light)),
            ("输入（未命中缓存）", "2", Some(Shade::Middle)),
            ("输出", "3", Some(Shade::Deep)),
        ]
    );
    let lines = tooltip_lines("2026-07-15", &d, Kind::Requests).unwrap();
    let told: Vec<(&str, &str, Option<Shade>)> =
        lines.iter().map(|l| (l.label.as_str(), l.value.as_str(), l.shade)).collect();
    assert_eq!(told, vec![("2026-07-15", "", None), ("请求次数", "1,234", None)]);
    let much = Day { hit: i64::MAX, miss: 1, ..d };
    assert!(tooltip_lines("", &much, Kind::Tokens).is_none());
    assert!(tooltip_lines("", &much, Kind::Requests).is_some());
}

#[test]
fn the_axis_names_month_and_day() {
    assert_eq!(day_label("2026-07-05"), "7/5");
    assert_eq!(day_label("2026-12-31"), "12/31");
    assert_eq!(day_label("12026-07-05"), "0/0");
    assert_eq!(day_label("中文中文ab"), "0/0");
}

#[test]
fn keys_are_shown_in_part() {
    assert_eq!(mask_key(""), "（未设置）");
    assert_eq!(mask_key("sk-123456789"), "sk-123456789");
    assert_eq!(mask_key("sk-1234567890"), "sk-123…7890");
    assert_eq!(mask_key("中文中文sk-1"), "中文…sk-1");
}

#[test]
fn keys_that_cannot_be_cut_are_told() {
    assert!(maskable("sk-1234567890"));
    assert!(maskable("中文中文"));
    assert!(!maskable("a中文中文中文"));
}

#[test]
fn settings_are_changed_in_their_window() {
    let mut cur = Settings { api_key: "sk-1234567890".to_string(), click_through: true };
    let mut f = Form::open(&cur);
    assert_eq!((f.cur_masked.as_str(), f.show_key, f.click_through), ("sk-123…7890", false, true));
    assert_eq!(f.key_button(), "显示");
    f.show_key = true;
    assert_eq!(f.key_button(), "隐藏");

    f.key_input = " hello ".to_string();
    assert_eq!(f.press_save(), None);
    assert_eq!(f.msg, "Key 看起来无效（应以 sk- 开头），未保存");

    f.key_input = "  ".to_string();
    f.click_through = false;
    let c = f.press_save().unwrap();
    assert_eq!(c, Change { api_key: None, click_through: false });
    cur.change(c);
    assert_eq!(cur, Settings { api_key: "sk-1234567890".to_string(), click_through: false });

    f.key_input = "\tsk-new\n".to_string();
    let c = f.press_save().unwrap();
    assert_eq!(c.api_key.as_deref(), Some("sk-new"));
    let mut shown = Settings { api_key: "sk-1234567890".to_string(), click_through: true };
    assert!(!shown.reload(Settings { api_key: "sk-1234567890".to_string(), click_through: false }));
    assert!(!shown.click_through);
    cur.change(c);
    assert!(shown.reload(cur));
    assert_eq!(shown.api_key, "sk-new");
}

#[test]
fn settings_have_defaults_and_bounds() {
    assert_eq!((def_refresh(), def_days()), (60, 30));
    assert_eq!((refresh_interval(0), refresh_interval(10), refresh_interval(99)), (10, 10, 99));
    assert_eq!(passthrough(None, false), Some(false));
    assert_eq!(passthrough(Some(false), true), Some(true));
    assert_eq!(passthrough(Some(true), true), None);
}

#[test]
fn processes_take_on_their_roles() {
    for role in [Role::Widget, Role::Login, Role::Settings, Role::Tray] {
        assert_eq!(Role::of(role.arg()), role);
    }
    assert_eq!(Role::of("--setkey"), Role::Settings);
    assert_eq!(Role::of("--other"), Role::Tray);
    assert_eq!(APP_NAME, "DeepSeekWidget");
}

#[test]
fn the_menu_does_what_it_says() {
    assert_eq!(picked(Item::Widget, true, false), Action::StopWidget);
    assert_eq!(picked(Item::Widget, false, false), Action::StartWidget);
    assert_eq!(picked(Item::Login, false, true), Action::Nothing);
    assert_eq!(picked(Item::Login, false, false), Action::StartLogin);
    assert_eq!(picked(Item::Settings, false, false), Action::OpenSettings);
    assert_eq!(picked(Item::Autostart, false, false), Action::ToggleAutostart);
    assert_eq!(picked(Item::Folder, false, false), Action::OpenFolder);
    assert_eq!(picked(Item::Quit, true, true), Action::Quit);
    assert_eq!((toggle_widget(true), toggle_widget(false)), (Action::StopWidget, Action::StartWidget));
    let mut m = Menu::new();
    assert_eq!(m.follow(false), None);
    assert_eq!(m.follow(true), Some("关闭小组件"));
    assert_eq!(m.follow(true), None);
    assert_eq!(m.follow(false), Some("显示小组件"));
    assert_eq!(widget_label(false), "显示小组件");
    assert_eq!(login_label(true), "重新登录 DeepSeek 平台…");
    assert_eq!(login_label(false), "登录 DeepSeek 平台（同步用量）…");
    assert_eq!((toggle_autostart(true), toggle_autostart(false)), (Autostart::Remove, Autostart::Add));
    assert_eq!(autostart_cmd(r"C:\a b.exe"), r#""C:\a b.exe""#);
}
