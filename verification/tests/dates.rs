use imap_cleanup::date::{parse_date, CutoffDate, MAX_YEAR, MIN_YEAR};
use imap_cleanup::wire::{search_criteria, search_query, sequence_set, FETCH_ITEMS, STORE_DELETED};

fn day(year: i32, month: u32, day: u32) -> CutoffDate {
    CutoffDate::new(year, month, day).unwrap()
}

#[test]
fn new_keeps_year_month_and_day() {
    let date = day(2020, 1, 5);
    assert_eq!(date.year(), 2020);
    assert_eq!(date.month(), 1);
    assert_eq!(date.day(), 5);
}

#[test]
fn new_knows_the_length_of_each_month() {
    let lengths = [31, 28, 31, 30, 31, 30, 31, 31, 30, 31, 30, 31];
    for (index, length) in lengths.iter().enumerate() {
        let month = index as u32 + 1;
        assert!(CutoffDate::new(2021, month, *length).is_some());
        assert!(CutoffDate::new(2021, month, *length + 1).is_none());
    }
}

#[test]
fn new_knows_leap_years() {
    assert!(CutoffDate::new(2020, 2, 29).is_some());
    assert!(CutoffDate::new(2021, 2, 29).is_none());
    assert!(CutoffDate::new(2000, 2, 29).is_some());
    assert!(CutoffDate::new(1900, 2, 29).is_none());
    assert!(CutoffDate::new(0, 2, 29).is_some());
    assert!(CutoffDate::new(-4, 2, 29).is_some());
    assert!(CutoffDate::new(-100, 2, 29).is_none());
    assert!(CutoffDate::new(-400, 2, 29).is_some());
    assert!(CutoffDate::new(2020, 2, 30).is_none());
}

#[test]
fn new_refuses_what_the_calendar_lacks() {
    assert!(CutoffDate::new(2020, 0, 1).is_none());
    assert!(CutoffDate::new(2020, 13, 1).is_none());
    assert!(CutoffDate::new(2020, 1, 0).is_none());
    assert!(CutoffDate::new(2020, 1, 32).is_none());
    assert!(CutoffDate::new(2020, 4, 31).is_none());
    assert!(CutoffDate::new(2020, u32::MAX, u32::MAX).is_none());
}

#[test]
fn new_keeps_to_the_range_of_years() {
    assert_eq!(MIN_YEAR, -262_143);
    assert_eq!(MAX_YEAR, 262_142);
    assert!(CutoffDate::new(MIN_YEAR, 1, 1).is_some());
    assert!(CutoffDate::new(MAX_YEAR, 12, 31).is_some());
    assert!(CutoffDate::new(MIN_YEAR - 1, 12, 31).is_none());
    assert!(CutoffDate::new(MAX_YEAR + 1, 1, 1).is_none());
    assert!(CutoffDate::new(i32::MIN, 1, 1).is_none());
    assert!(CutoffDate::new(i32::MAX, 1, 1).is_none());
}

#[test]
fn new_agrees_with_chrono_on_which_days_exist() {
    for year in [-401, -400, -100, -4, -1, 0, 1, 4, 100, 1900, 2000, 2023, 2024] {
        for month in 0..=13 {
            for day in 0..=32 {
                assert_eq!(
                    CutoffDate::new(year, month, day).is_some(),
                    chrono::NaiveDate::from_ymd_opt(year, month, day).is_some(),
                    "{}-{}-{}",
                    year,
                    month,
                    day
                );
            }
        }
    }
}

#[test]
fn imap_text_writes_day_month_name_and_year() {
    assert_eq!(day(2020, 1, 5).imap_text(), "5-Jan-2020");
    assert_eq!(day(2022, 12, 31).imap_text(), "31-Dec-2022");
    assert_eq!(day(1999, 2, 10).imap_text(), "10-Feb-1999");
}

#[test]
fn imap_text_names_every_month() {
    let names = [
        "Jan", "Feb", "Mar", "Apr", "May", "Jun", "Jul", "Aug", "Sep", "Oct", "Nov", "Dec",
    ];
    for (index, name) in names.iter().enumerate() {
        let text = day(2021, index as u32 + 1, 1).imap_text();
        assert_eq!(text, format!("1-{}-2021", name));
    }
}

#[test]
fn imap_text_of_the_ends_of_the_range() {
    assert!(!day(MIN_YEAR, 1, 1).imap_text().is_empty());
    assert!(!day(MAX_YEAR, 12, 31).imap_text().is_empty());
    assert!(day(MAX_YEAR, 12, 31).imap_text().starts_with("31-Dec-"));
}

#[test]
fn parse_date_reads_year_month_day() {
    assert_eq!(parse_date("2020-01-05"), Ok(day(2020, 1, 5)));
    assert_eq!(parse_date("1999-12-31"), Ok(day(1999, 12, 31)));
    assert_eq!(parse_date("2024-02-29"), Ok(day(2024, 2, 29)));
}

#[test]
fn parse_date_refuses_what_is_no_date() {
    assert!(parse_date("").is_err());
    assert!(parse_date("yesterday").is_err());
    assert!(parse_date("2020-13-01").is_err());
    assert!(parse_date("2021-02-29").is_err());
    assert!(parse_date("2020-01-05 10:00").is_err());
    assert!(parse_date("05-01-2020x").is_err());
}

#[test]
fn parse_date_reports_what_chrono_reports() {
    let expected = chrono::NaiveDate::parse_from_str("2020-99-01", "%Y-%m-%d").unwrap_err();
    assert_eq!(parse_date("2020-99-01").unwrap_err().cause, expected);
}

#[test]
fn search_criteria_wraps_the_date() {
    assert_eq!(search_criteria("5-Jan-2020"), "BEFORE 5-Jan-2020 NOT FLAGGED");
    assert_eq!(search_criteria(""), "BEFORE  NOT FLAGGED");
}

#[test]
fn search_query_of_a_date() {
    assert_eq!(search_query(&day(2020, 1, 5)), "BEFORE 5-Jan-2020 NOT FLAGGED");
    assert_eq!(search_query(&day(2022, 11, 30)), "BEFORE 30-Nov-2022 NOT FLAGGED");
}

#[test]
fn search_query_is_what_chrono_formats() {
    for (y, m, d) in [(1, 1, 1), (999, 9, 9), (2020, 2, 29), (9999, 12, 31), (12345, 6, 7)] {
        let expected = chrono::NaiveDate::from_ymd_opt(y, m, d)
            .unwrap()
            .format("BEFORE %-e-%b-%Y NOT FLAGGED")
            .to_string();
        assert_eq!(search_query(&day(y, m, d)), expected);
    }
}

#[test]
fn sequence_set_is_start_colon_end() {
    assert_eq!(sequence_set(&(10..=12)), "10:12");
    assert_eq!(sequence_set(&(1..=3)), "1:3");
    assert_eq!(sequence_set(&(5..=5)), "5:5");
}

#[test]
fn sequence_set_writes_every_digit() {
    assert_eq!(sequence_set(&(0..=9)), "0:9");
    assert_eq!(sequence_set(&(1234567890..=4294967295)), "1234567890:4294967295");
    assert_eq!(sequence_set(&(100..=1000)), "100:1000");
    assert_eq!(sequence_set(&(90817..=605040)), "90817:605040");
}

#[test]
fn sequence_set_is_what_format_writes() {
    for (a, b) in [(0u32, 0u32), (7, 19), (99, 100), (4096, 65535), (u32::MAX - 1, u32::MAX)] {
        assert_eq!(sequence_set(&(a..=b)), format!("{}:{}", a, b));
    }
}

#[test]
fn fetch_and_store_arguments() {
    assert_eq!(FETCH_ITEMS, "(INTERNALDATE FLAGS)");
    assert_eq!(STORE_DELETED, r"+FLAGS.SILENT (\Deleted)");
}
