use std::str::FromStr;

use jot::date::{parse_date, parse_date_source, Date, DateSource, DateTarget};

#[test]
fn test_date_target_parsing() {
    assert_eq!("".parse::<DateTarget>().unwrap(), DateTarget::All);
    assert_eq!("all".parse::<DateTarget>().unwrap(), DateTarget::All);
    assert_eq!("past".parse::<DateTarget>().unwrap(), DateTarget::Past);
    assert_eq!("future".parse::<DateTarget>().unwrap(), DateTarget::Future);
    assert_eq!("today".parse::<DateTarget>().unwrap(), DateTarget::Today);
    assert_eq!(
        "yesterday".parse::<DateTarget>().unwrap(),
        DateTarget::Yesterday
    );
    assert_eq!(
        "last week".parse::<DateTarget>().unwrap(),
        DateTarget::LastWeek
    );
    assert_eq!(
        "last month".parse::<DateTarget>().unwrap(),
        DateTarget::LastMonth
    );
    assert_eq!(
        "next week".parse::<DateTarget>().unwrap(),
        DateTarget::NextWeek
    );
    assert_eq!(
        "next month".parse::<DateTarget>().unwrap(),
        DateTarget::NextMonth
    );
}

#[test]
fn test_date_target_tostring() {
    assert_eq!(DateTarget::All.to_string(), "all");
    assert_eq!(DateTarget::Past.to_string(), "past");
    assert_eq!(DateTarget::Future.to_string(), "future");
    assert_eq!(DateTarget::Today.to_string(), "today");
    assert_eq!(DateTarget::Yesterday.to_string(), "yesterday");
    assert_eq!(DateTarget::LastWeek.to_string(), "last week");
    assert_eq!(DateTarget::LastMonth.to_string(), "last month");
    assert_eq!(DateTarget::NextWeek.to_string(), "next week");
    assert_eq!(DateTarget::NextMonth.to_string(), "next month");
}

#[test]
fn test_specific_date_parsing() {
    let date = DateTarget::from_str("2024-03-16").unwrap();
    match date {
        DateTarget::Specific(dt) => {
            assert_eq!(dt.year(), 2024);
            assert_eq!(dt.month(), 3);
            assert_eq!(dt.day(), 16);
        }
        _ => panic!("Expected Specific date"),
    }
}

#[test]
fn test_specific_date_parsing_panic() {
    let err = DateTarget::from_str("xxx").err();
    match err {
        Some(e) => assert_eq!(
            e.message(),
            "Invalid date target: input contains invalid characters"
        ),
        None => panic!("Expected error"),
    }

    let err = DateTarget::from_str("20-20-20").err();
    match err {
        Some(e) => assert_eq!(e.message(), "Invalid date target: input is out of range"),
        None => panic!("Expected error"),
    }
}

#[test]
fn test_parse_date_calendar_rules() {
    assert!(parse_date("2024-02-29").is_ok());
    assert!(parse_date("2023-02-29").is_err());
    assert!(parse_date("1900-02-29").is_err());
    assert!(parse_date("2000-02-29").is_ok());
    assert!(parse_date("2024-04-31").is_err());
    assert!(parse_date("2024-13-01").is_err());
    assert!(parse_date("2024-00-10").is_err());
    assert!(parse_date("2024-03-16x").is_err());
}

#[test]
fn test_date_formatting_zero_padded() {
    let d = parse_date("0987-03-06").unwrap();
    assert_eq!(d.to_string(), "0987-03-06");
    let d = Date {
        year: 2025,
        month: 12,
        day: 31,
    };
    assert_eq!(d.to_string(), "2025-12-31");
}

#[test]
fn test_date_arithmetic_steps_calendar() {
    let d = parse_date("2024-03-01").unwrap();
    assert_eq!(d.pred().to_string(), "2024-02-29");
    assert_eq!(d.succ().to_string(), "2024-03-02");
    let eoy = parse_date("2023-12-31").unwrap();
    assert_eq!(eoy.succ().to_string(), "2024-01-01");
    let d = parse_date("2024-01-05").unwrap();
    assert_eq!(d.sub_days(7).to_string(), "2023-12-29");
    assert_eq!(d.add_days(30).to_string(), "2024-02-04");
}

#[test]
fn test_to_date_range_spans() {
    let today = parse_date("2025-01-20").unwrap();

    assert_eq!(DateTarget::All.to_date_range(today), (None, None));
    assert_eq!(
        DateTarget::Today.to_date_range(today),
        (Some(today), Some(today))
    );

    let (from, to) = DateTarget::Yesterday.to_date_range(today);
    assert_eq!(from.unwrap().to_string(), "2025-01-19");
    assert_eq!(to.unwrap().to_string(), "2025-01-19");

    let (from, to) = DateTarget::Past.to_date_range(today);
    assert!(from.is_none());
    assert_eq!(to.unwrap().to_string(), "2025-01-19");

    let (from, to) = DateTarget::Future.to_date_range(today);
    assert_eq!(from.unwrap().to_string(), "2025-01-21");
    assert!(to.is_none());

    let (from, to) = DateTarget::LastWeek.to_date_range(today);
    assert_eq!(from.unwrap().to_string(), "2025-01-13");
    assert_eq!(to.unwrap().to_string(), "2025-01-19");

    let (from, to) = DateTarget::NextMonth.to_date_range(today);
    assert_eq!(from.unwrap().to_string(), "2025-01-21");
    assert_eq!(to.unwrap().to_string(), "2025-02-19");

    let d = parse_date("2024-06-01").unwrap();
    assert_eq!(
        DateTarget::Specific(d).to_date_range(today),
        (Some(d), Some(d))
    );
}

#[test]
fn test_date_source_parsing_and_resolution() {
    let today = parse_date("2025-01-20").unwrap();
    assert_eq!(parse_date_source("today").unwrap(), DateSource::Today);
    assert_eq!(DateSource::Today.to_date(today), today);
    match parse_date_source("2024-03-16").unwrap() {
        DateSource::Specific(d) => {
            assert_eq!(d.to_string(), "2024-03-16");
            assert_eq!(DateSource::Specific(d).to_date(today), d);
        }
        DateSource::Today => panic!("Expected a specific date"),
    }
    assert!(parse_date_source("nonsense").is_err());
}
