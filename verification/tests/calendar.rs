//! The calendar, dates as text, and the clock.

use deepseek_widget::clock::{hms_at, now_hms, today_at, today_local};
use deepseek_widget::date::{date_at, ymd_from_unix, Ymd};
use deepseek_widget::text::{chars_of, int_string, lower, parse_int, space, trim};

fn ymd(y: i64, m: i64, d: i64) -> Ymd {
    Ymd { y, m, d }
}

#[test]
fn the_first_days_are_numbered() {
    assert_eq!(ymd(1970, 1, 1).to_days(), 0);
    assert_eq!(ymd(1969, 12, 31).to_days(), -1);
    assert_eq!(ymd(2000, 3, 1).to_days(), 11_017);
    assert_eq!(ymd(2026, 7, 15).to_days(), 20_649);
    assert_eq!(ymd(0, 3, 1).to_days(), -719_468);
}

#[test]
fn every_day_of_centuries_follows_the_one_before() {
    let lengths = [31, 28, 31, 30, 31, 30, 31, 31, 30, 31, 30, 31];
    let mut a = ymd(1599, 12, 31);
    for n in a.to_days() + 1..ymd(2401, 1, 1).to_days() {
        let b = Ymd::from_days(n);
        assert_eq!(b.to_days(), n);
        let leap = a.y % 4 == 0 && (a.y % 100 != 0 || a.y % 400 == 0);
        let last = if a.m == 2 && leap { 29 } else { lengths[a.m as usize - 1] };
        let follows = if a.d < last {
            ymd(a.y, a.m, a.d + 1)
        } else if a.m < 12 {
            ymd(a.y, a.m + 1, 1)
        } else {
            ymd(a.y + 1, 1, 1)
        };
        assert_eq!(b, follows);
        assert!(a < b);
        a = b;
    }
}

#[test]
fn the_farthest_days_have_dates() {
    for z in [i64::MIN, i64::MIN + 1, -1, 0, 1, i64::MAX - 1, i64::MAX] {
        assert_eq!(Ymd::from_days(z).to_days(), z);
        assert_eq!(Ymd::from_days(z).count_days(), z as i128);
    }
}

#[test]
fn a_day_past_the_end_of_its_month_counts_on() {
    assert_eq!(ymd(2026, 2, 31).to_days(), ymd(2026, 3, 3).to_days());
    assert_eq!(ymd(2026, 4, 31).to_days(), ymd(2026, 5, 1).to_days());
}

#[test]
fn a_day_begins_and_ends_at_unix_times() {
    assert_eq!(ymd(2026, 7, 15).midnight_unix(), 1_784_073_600);
    assert_eq!(ymd(2026, 7, 15).end_unix(), 1_784_159_999);
    assert_eq!(ymd_from_unix(1_784_073_600), ymd(2026, 7, 15));
    assert_eq!(ymd_from_unix(1_784_159_999), ymd(2026, 7, 15));
    assert_eq!(ymd_from_unix(1_784_160_000), ymd(2026, 7, 16));
    assert_eq!(ymd_from_unix(-1), ymd(1969, 12, 31));
}

#[test]
fn dates_are_written_in_ten_characters() {
    assert_eq!(ymd(2026, 7, 8).to_string(), "2026-07-08");
    assert_eq!(ymd(33, 1, 2).to_string(), "0033-01-02");
    assert_eq!(ymd(-5, 1, 2).to_string(), "-005-01-02");
    assert_eq!(ymd(12_345, 11, 12).to_string(), "12345-11-12");
    assert_eq!(ymd(2026, 7, 8).to_string(), format!("{:04}-{:02}-{:02}", 2026, 7, 8));
}

#[test]
fn what_a_date_is_written_as_is_read_as_that_date() {
    for z in [-1_000_000, -719_468, -1, 0, 59, 20_649, 2_932_896] {
        let a = Ymd::from_days(z);
        if -999 <= a.y && a.y <= 9_999 {
            assert_eq!(Ymd::parse(&a.to_string()), Some(a));
            assert_eq!(Ymd::parse(&format!("{}T08:00:00Z", a.to_string())), Some(a));
        }
    }
}

#[test]
fn dates_and_their_texts_are_in_the_same_order() {
    let days = [-719_000, -1, 0, 58, 59, 364, 365, 20_648, 20_649, 20_700, 2_932_000];
    for a in days {
        for b in days {
            let (x, y) = (Ymd::from_days(a), Ymd::from_days(b));
            assert_eq!(x.to_string() < y.to_string(), a < b);
        }
    }
}

#[test]
fn texts_that_are_no_dates_are_refused() {
    for s in [
        "", "2026-07-0", "2026.07.08", "2026-00-08", "2026-07-00", "2026-07-32", "20a6-07-08",
        "2026-7-008", "２０２６-07-08",
    ] {
        assert_eq!(Ymd::parse(s), None, "{}", s);
    }
    assert_eq!(Ymd::parse("2026-02-31"), Some(ymd(2026, 2, 31)));
    assert_eq!(Ymd::parse("2026/07-08"), Some(ymd(2026, 7, 8)));
    assert_eq!(Ymd::parse("2026-+7-08"), Some(ymd(2026, 7, 8)));
    assert_eq!(date_at(&chars_of("on 2026-07-08."), 3), Some(ymd(2026, 7, 8)));
    assert_eq!(date_at(&chars_of("on 2026-07-08."), 2), None);
}

#[test]
fn the_clock_shows_date_and_time() {
    assert_eq!(today_at(Some(1_784_073_600)), ymd(2026, 7, 15));
    assert_eq!(today_at(None), ymd(1970, 1, 1));
    assert_eq!(hms_at(Some(1_784_073_600 + 3_600 * 9 + 60 * 8 + 7)), "09:08:07");
    assert_eq!(hms_at(Some(86_399)), "23:59:59");
    assert_eq!(hms_at(None), "00:00:00");
    let seconds = || {
        std::time::SystemTime::now().duration_since(std::time::UNIX_EPOCH).unwrap().as_secs()
    };
    let (before, day, time, after) = (seconds(), today_local(), now_hms(), seconds());
    assert!(day == today_at(Some(before)) || day == today_at(Some(after)));
    assert!((before..=after).any(|s| time == hms_at(Some(s))));
}

#[test]
fn white_space_is_what_std_says() {
    for n in 0..=0x10ffff {
        if let Some(c) = char::from_u32(n) {
            assert_eq!(space(c), c.is_whitespace(), "{:x}", n);
        }
    }
    for s in ["", " ", "  a b\t\n", "\u{3000}sk-1\u{a0}", "a"] {
        assert_eq!(trim(s), s.trim());
    }
}

#[test]
fn numbers_are_read_and_written_as_std_does() {
    for s in [
        "0", "-0", "+7", "007", "", "+", "-", "--1", "9223372036854775807", "9223372036854775808",
        "-9223372036854775808", "-9223372036854775809", "1_000", " 1", "１", "99999999999999999999999",
    ] {
        let x = chars_of(s);
        assert_eq!(parse_int(&x, 0, x.len()), s.parse::<i64>().ok(), "{}", s);
    }
    for n in [0, 7, -7, 10, 1_000_000, i64::MAX, i64::MIN] {
        assert_eq!(int_string(n), n.to_string());
    }
    let s = "AbZ09_ÄÖ中";
    assert_eq!(lower(s).into_iter().collect::<String>(), s.to_ascii_lowercase());
}
