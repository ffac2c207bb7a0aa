use chrono::{Datelike, NaiveDate};
use scz::calendar::{days_in_month, is_leap_year, month_start_days, MAX_YEAR, MIN_YEAR};
use scz::CivilDate;

fn date(y: i32, m: u32, d: u32) -> CivilDate {
    CivilDate::new(y, m, d).expect("valid date")
}

#[test]
fn civil_date_rejects_impossible_days() {
    assert!(CivilDate::new(2023, 0, 1).is_none());
    assert!(CivilDate::new(2023, 13, 1).is_none());
    assert!(CivilDate::new(2023, 4, 31).is_none());
    assert!(CivilDate::new(2023, 2, 29).is_none());
    assert!(CivilDate::new(2023, 1, 0).is_none());
    assert!(CivilDate::new(2100, 2, 29).is_none());
    assert!(CivilDate::new(2024, 2, 29).is_some());
    assert!(CivilDate::new(2000, 2, 29).is_some());
    assert!(CivilDate::new(-4, 2, 29).is_some());
    assert!(CivilDate::new(400000, 1, 1).is_none());
    assert!(CivilDate::new(-400000, 1, 1).is_none());
    assert!(CivilDate::new(MAX_YEAR, 12, 31).is_some());
    assert!(CivilDate::new(MAX_YEAR + 1, 1, 1).is_none());
    assert!(CivilDate::new(MIN_YEAR, 1, 1).is_some());
    assert!(CivilDate::new(MIN_YEAR - 1, 12, 31).is_none());
}

#[test]
fn civil_date_validity_matches_chrono() {
    for y in [-262144, -262143, -100, -4, -1, 0, 1, 1900, 2000, 2023, 2024, 2100, 262142, 262143] {
        for m in 0..=13u32 {
            for d in 0..=32u32 {
                assert_eq!(
                    CivilDate::new(y, m, d).is_some(),
                    NaiveDate::from_ymd_opt(y, m, d).is_some(),
                    "{}-{}-{}",
                    y,
                    m,
                    d
                );
            }
        }
    }
}

#[test]
fn civil_date_keeps_its_fields() {
    let d = date(1987, 7, 14);
    assert_eq!((d.year(), d.month(), d.day()), (1987, 7, 14));
}

#[test]
fn ordinal_examples() {
    assert_eq!(date(2023, 1, 1).ordinal(), 1);
    assert_eq!(date(2023, 5, 23).ordinal(), 143);
    assert_eq!(date(2024, 5, 23).ordinal(), 144);
    assert_eq!(date(2023, 12, 31).ordinal(), 365);
    assert_eq!(date(2024, 12, 31).ordinal(), 366);
    assert_eq!(date(2024, 3, 1).ordinal(), 61);
}

#[test]
fn ordinal_matches_chrono_for_every_day() {
    for y in (1890..2110).chain(-410..-390).chain([MIN_YEAR, MAX_YEAR]) {
        let mut d = NaiveDate::from_ymd_opt(y, 1, 1).unwrap();
        while d.year() == y {
            let c = date(d.year(), d.month(), d.day());
            assert_eq!(c.ordinal(), d.ordinal(), "{}", d);
            match d.succ_opt() {
                Some(n) => d = n,
                None => break,
            }
        }
    }
}

#[test]
fn leap_years() {
    assert!(is_leap_year(2024));
    assert!(is_leap_year(2000));
    assert!(!is_leap_year(1900));
    assert!(!is_leap_year(2023));
    assert!(is_leap_year(-4));
    assert!(is_leap_year(0));
    assert!(!is_leap_year(-100));
    assert!(is_leap_year(-400));
    assert!(!is_leap_year(i32::MIN + 1));
    assert!(is_leap_year(i32::MIN));
    assert!(!is_leap_year(i32::MAX));
}

#[test]
fn month_lengths() {
    assert_eq!(days_in_month(2023, 2), 28);
    assert_eq!(days_in_month(2024, 2), 29);
    assert_eq!(days_in_month(2023, 4), 30);
    assert_eq!(days_in_month(2023, 12), 31);
}

#[test]
fn month_starts_of_a_common_year() {
    assert_eq!(
        month_start_days(),
        [0, 31, 59, 90, 120, 151, 181, 212, 243, 273, 304, 334]
    );
}

#[test]
fn month_starts_agree_with_ordinal_in_common_years() {
    let starts = month_start_days();
    for m in 1..=12u32 {
        assert_eq!(starts[(m - 1) as usize] + 1, date(2023, m, 1).ordinal());
    }
}
