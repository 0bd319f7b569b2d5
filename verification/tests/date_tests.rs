use daily_rolling_appender::clock::today;
use daily_rolling_appender::date::days_in_month;
use daily_rolling_appender::date::is_leap_year;
use daily_rolling_appender::date::Date;

#[test]
fn try_new_accepts_real_calendar_days_only() {
    assert!(Date::try_new(2022, 5, 26).is_some());
    assert!(Date::try_new(2020, 2, 29).is_some());
    assert!(Date::try_new(2000, 2, 29).is_some());
    assert!(Date::try_new(2021, 2, 29).is_none());
    assert!(Date::try_new(1900, 2, 29).is_none());
    assert!(Date::try_new(2022, 4, 31).is_none());
    assert!(Date::try_new(2022, 0, 1).is_none());
    assert!(Date::try_new(2022, 13, 1).is_none());
    assert!(Date::try_new(2022, 1, 0).is_none());
    assert!(Date::try_new(-1, 1, 1).is_none());
    assert!(Date::try_new(10000, 1, 1).is_none());
    assert!(Date::try_new(0, 1, 1).is_some());
    assert!(Date::try_new(9999, 12, 31).is_some());
}

#[test]
fn leap_years_and_month_lengths() {
    assert!(is_leap_year(2020));
    assert!(is_leap_year(2000));
    assert!(!is_leap_year(1900));
    assert!(!is_leap_year(2021));
    assert_eq!(days_in_month(2020, 2), 29);
    assert_eq!(days_in_month(2021, 2), 28);
    assert_eq!(days_in_month(2022, 4), 30);
    assert_eq!(days_in_month(2022, 5), 31);
    assert_eq!(days_in_month(2022, 12), 31);
}

#[test]
fn previous_day_walks_over_boundaries() {
    let d = Date::try_new(2022, 5, 26).unwrap();
    assert_eq!(d.previous_day().unwrap(), Date::try_new(2022, 5, 25).unwrap());

    let first_of_march = Date::try_new(2022, 3, 1).unwrap();
    assert_eq!(
        first_of_march.previous_day().unwrap(),
        Date::try_new(2022, 2, 28).unwrap()
    );

    let first_of_march_leap = Date::try_new(2020, 3, 1).unwrap();
    assert_eq!(
        first_of_march_leap.previous_day().unwrap(),
        Date::try_new(2020, 2, 29).unwrap()
    );

    let new_year = Date::try_new(2022, 1, 1).unwrap();
    assert_eq!(
        new_year.previous_day().unwrap(),
        Date::try_new(2021, 12, 31).unwrap()
    );

    let origin = Date::try_new(0, 1, 1).unwrap();
    assert!(origin.previous_day().is_none());
}

#[test]
fn codes_order_dates_chronologically() {
    let a = Date::try_new(2022, 5, 26).unwrap();
    let b = Date::try_new(2022, 5, 27).unwrap();
    let c = Date::try_new(2022, 6, 1).unwrap();
    let d = Date::try_new(2023, 1, 1).unwrap();
    assert_eq!(a.code_u32(), 20220526);
    assert!(a.is_before(&b));
    assert!(b.is_before(&c));
    assert!(c.is_before(&d));
    assert!(!b.is_before(&a));
    assert!(!a.is_before(&a));
}

#[test]
fn system_clock_yields_a_valid_date() {
    // The wall clock of any machine running this suite reports a year
    // between 0 and 9999, so a date comes back, and it is a real
    // calendar day on which the verified date functions operate.
    let d = today().expect("the system clock reported a day outside the date model");
    assert!((1..=12).contains(&d.month));
    assert!((1..=31).contains(&d.day));
    let previous = d.previous_day().unwrap();
    assert!(previous.is_before(&d));
}
