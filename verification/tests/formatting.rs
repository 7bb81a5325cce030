use toggl_summary::time_utils::{parse_human_date, today, Date, TimeResolution};

#[test]
fn time_resolution_minutes_format_duration() {
    assert_eq!(TimeResolution::Minutes.format_duration(29), "00:00");
    assert_eq!(TimeResolution::Minutes.format_duration(30), "00:01");
    assert_eq!(TimeResolution::Minutes.format_duration(60), "00:01");
    assert_eq!(TimeResolution::Minutes.format_duration(59 * 60 + 29), "00:59");
    assert_eq!(TimeResolution::Minutes.format_duration(59 * 60 + 30), "01:00");
}

#[test]
fn seconds_resolution_is_zero_padded_clock_form() {
    assert_eq!(TimeResolution::Seconds.format_duration(0), "00:00:00");
    assert_eq!(
        TimeResolution::Seconds.format_duration(2 * 3600 + 5 * 60 + 9),
        "02:05:09"
    );
    assert_eq!(TimeResolution::Seconds.format_duration(59), "00:00:59");
    assert_eq!(TimeResolution::Seconds.format_duration(3600), "01:00:00");
}

#[test]
fn seconds_resolution_hours_can_outgrow_two_digits() {
    assert_eq!(TimeResolution::Seconds.format_duration(100 * 3600), "100:00:00");
    assert_eq!(TimeResolution::Minutes.format_duration(100 * 3600), "100:00");
}

#[test]
fn minutes_resolution_rounds_to_nearest_minute() {
    assert_eq!(TimeResolution::Minutes.format_duration(0), "00:00");
    assert_eq!(TimeResolution::Minutes.format_duration(89), "00:01");
    assert_eq!(TimeResolution::Minutes.format_duration(90), "00:02");
    assert_eq!(TimeResolution::Minutes.format_duration(3600), "01:00");
}

#[test]
fn resolution_labels() {
    assert_eq!(TimeResolution::Minutes.label(), "minutes");
    assert_eq!(TimeResolution::Seconds.label(), "seconds");
}

#[test]
fn iso_format_pads_fields() {
    let d = Date { year: 2024, month: 3, day: 7 };
    assert_eq!(d.format_iso(), "2024-03-07");
    let e = Date { year: 987, month: 12, day: 31 };
    assert_eq!(e.format_iso(), "0987-12-31");
}

#[test]
fn next_day_steps_over_month_and_year_ends() {
    let leap = Date { year: 2024, month: 2, day: 28 };
    assert_eq!(leap.next_day(), Date { year: 2024, month: 2, day: 29 });
    let plain = Date { year: 2023, month: 2, day: 28 };
    assert_eq!(plain.next_day(), Date { year: 2023, month: 3, day: 1 });
    let april = Date { year: 2023, month: 4, day: 30 };
    assert_eq!(april.next_day(), Date { year: 2023, month: 5, day: 1 });
    let eve = Date { year: 2023, month: 12, day: 31 };
    assert_eq!(eve.next_day(), Date { year: 2024, month: 1, day: 1 });
}

#[test]
fn parse_human_date_rejects_gibberish() {
    assert!(parse_human_date("certainly not a date ???").is_err());
}

#[test]
fn parse_human_date_rejects_non_ascii_text() {
    assert!(parse_human_date("\u{e9}\u{e9}").is_err());
    assert!(parse_human_date("ma\u{f1}ana").is_err());
}

#[test]
fn parse_human_date_rejects_overlong_numerals() {
    assert!(parse_human_date("99999 days ago").is_err());
    assert!(parse_human_date("2147483648 days ago").is_err());
    assert!(parse_human_date("200000000 years ago").is_err());
    assert!(parse_human_date("12345").is_err());
}

#[test]
fn parse_human_date_accepts_explicit_dates() {
    let d = parse_human_date("21/03/2018").expect("explicit date parses");
    assert_eq!(d, Date { year: 2018, month: 3, day: 21 });
    let e = parse_human_date("9999 days ago").expect("four-digit day count parses");
    assert!(e.check_valid());
}

#[test]
fn parse_human_date_accepts_today() {
    let d = parse_human_date("today").expect("'today' parses");
    assert!((1..=12).contains(&d.month));
    assert!((1..=31).contains(&d.day));
    let t = today();
    assert!((1..=12).contains(&t.month));
    assert!((1..=31).contains(&t.day));
}
