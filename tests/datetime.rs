use near_helper::{timestamp_millis_to_datetime, CivilDateTime};

fn datetime_comparer(
    datetime: CivilDateTime,
    year: &str,
    month: &str,
    day: &str,
    hour: &str,
    mins: &str,
    secs: &str,
) {
    assert_eq!(datetime.get("year").unwrap().clone(), year.to_owned(), "year wrong.");
    assert_eq!(datetime.get("month").unwrap().clone(), month.to_owned(), "month wrong.");
    assert_eq!(datetime.get("day").unwrap().clone(), day.to_owned(), "day wrong.");
    assert_eq!(datetime.get("hour").unwrap().clone(), hour.to_owned(), "hour wrong.");
    assert_eq!(datetime.get("min").unwrap().clone(), mins.to_owned(), "min wrong.");
    assert_eq!(datetime.get("sec").unwrap().clone(), secs.to_owned(), "sec wrong.");
}

#[test]
fn test_datetime_1() {
    datetime_comparer(timestamp_millis_to_datetime(388453887000), "1982", "4", "23", "23", "51", "27");
}

#[test]
fn test_datetime_2() {
    datetime_comparer(timestamp_millis_to_datetime(0), "1970", "1", "1", "0", "0", "0");
}

#[test]
fn test_datetime_3() {
    datetime_comparer(timestamp_millis_to_datetime(1704067202000), "2024", "1", "1", "0", "0", "2");
}

#[test]
fn test_datetime_4_endtime() {
    datetime_comparer(timestamp_millis_to_datetime(1388534399000), "2013", "12", "31", "23", "59", "59");
}

#[test]
fn test_datetime_5_leapfeb() {
    datetime_comparer(timestamp_millis_to_datetime(1709208000000), "2024", "2", "29", "12", "0", "0");
}

#[test]
fn test_datetime_6() {
    datetime_comparer(timestamp_millis_to_datetime(1435649522000), "2015", "6", "30", "7", "32", "2");
}

#[test]
fn test_datetime_7() {
    datetime_comparer(timestamp_millis_to_datetime(1409265002000), "2014", "8", "28", "22", "30", "2");
}

#[test]
fn datetime_drops_sub_second_part() {
    datetime_comparer(timestamp_millis_to_datetime(1715603315999), "2024", "5", "13", "12", "28", "35");
}

#[test]
fn datetime_fields_stay_in_range_over_two_years() {
    let mut millis: u64 = 1_672_531_200_000; // 2023-01-01
    let day: u64 = 86_400_000;
    for _ in 0..731 {
        let dt = timestamp_millis_to_datetime(millis + day - 1);
        let month: u64 = dt.month.parse().unwrap();
        let hour: u64 = dt.hour.parse().unwrap();
        let min: u64 = dt.min.parse().unwrap();
        let sec: u64 = dt.sec.parse().unwrap();
        assert!((1..=12).contains(&month));
        assert_eq!((hour, min, sec), (23, 59, 59));
        millis += day;
    }
}

#[test]
fn datetime_unknown_field_is_absent() {
    assert!(timestamp_millis_to_datetime(0).get("weekday").is_none());
}

#[test]
fn datetime_last_day_of_leap_year() {
    datetime_comparer(timestamp_millis_to_datetime(94_608_000_000), "1972", "12", "31", "0", "0", "0");
    datetime_comparer(timestamp_millis_to_datetime(94_694_400_000), "1973", "1", "1", "0", "0", "0");
}

fn sweep_years(first_day_millis: u64, years: &[u64]) {
    let day: u64 = 86_400_000;
    let mut millis = first_day_millis;
    for &year in years {
        let feb = if year % 4 == 0 { 29 } else { 28 };
        let lengths: [u64; 12] = [31, feb, 31, 30, 31, 30, 31, 31, 30, 31, 30, 31];
        for (m, len) in lengths.iter().enumerate() {
            for d in 1..=*len {
                let dt = timestamp_millis_to_datetime(millis + 45_296_000);
                assert_eq!(dt.year, year.to_string());
                assert_eq!(dt.month, (m as u64 + 1).to_string());
                assert_eq!(dt.day, d.to_string());
                assert_eq!((dt.hour.as_str(), dt.min.as_str(), dt.sec.as_str()), ("12", "34", "56"));
                millis += day;
            }
        }
    }
}

#[test]
fn datetime_sweeps_common_years_day_by_day() {
    sweep_years(1_640_995_200_000, &[2022, 2023]); // from 2022-01-01
}

#[test]
fn datetime_sweeps_leap_years_day_by_day() {
    sweep_years(63_072_000_000, &[1972, 1973]); // from 1972-01-01
    sweep_years(1_704_067_200_000, &[2024, 2025]); // from 2024-01-01
}

#[test]
fn datetime_first_days_of_months_in_leap_year() {
    datetime_comparer(timestamp_millis_to_datetime(1_706_745_600_000), "2024", "2", "1", "0", "0", "0");
    datetime_comparer(timestamp_millis_to_datetime(1_709_251_200_000), "2024", "3", "1", "0", "0", "0");
}

#[test]
fn datetime_end_of_leap_year() {
    datetime_comparer(timestamp_millis_to_datetime(1_735_603_200_000), "2024", "12", "31", "0", "0", "0");
    datetime_comparer(timestamp_millis_to_datetime(1_735_516_800_000), "2024", "12", "30", "0", "0", "0");
}

#[test]
fn datetime_largest_instant() {
    // The year 2100 counts as a leap year here.
    let dt = timestamp_millis_to_datetime(u64::MAX);
    assert_eq!((dt.hour.as_str(), dt.min.as_str(), dt.sec.as_str()), ("14", "25", "51"));
    let month: u64 = dt.month.parse().unwrap();
    let day: u64 = dt.day.parse().unwrap();
    assert!((1..=12).contains(&month) && (1..=31).contains(&day));
}
