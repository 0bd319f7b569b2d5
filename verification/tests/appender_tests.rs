use daily_rolling_appender::appender::Appender;
use daily_rolling_appender::date::Date;

fn appender_on(date: Date) -> Appender {
    Appender::new(3, "/var/log".to_string(), "foo".to_string(), date)
}

#[test]
fn no_rotation_on_the_same_day() {
    let day = Date::try_new(2022, 5, 26).unwrap();
    let a = appender_on(day);
    // Two writes on the day of construction: neither asks for a new file.
    assert!(a.should_rollover(&day).is_none());
    assert!(a.should_rollover(&day).is_none());
    assert_eq!(a.current_filename(), "foo-20220526.log");
}

#[test]
fn backward_clock_does_not_rotate() {
    let day = Date::try_new(2022, 5, 26).unwrap();
    let earlier = Date::try_new(2022, 5, 25).unwrap();
    let a = appender_on(day);
    assert!(a.should_rollover(&earlier).is_none());
}

#[test]
fn boundary_crossing_rotates_once_into_the_new_day() {
    let today = Date::try_new(2022, 5, 26).unwrap();
    let yesterday = today.previous_day().unwrap();
    let mut a = appender_on(yesterday);
    assert_eq!(a.current_filename(), "foo-20220525.log");

    // The first write of the new day detects staleness and rotates ...
    let new_period = a.should_rollover(&today);
    assert_eq!(new_period, Some(today));
    a.advance_period(&today);

    // ... the write lands in today's file, not yesterday's ...
    assert_eq!(a.current_filename(), "foo-20220526.log");

    // ... and every later write of the same day finds nothing to do.
    assert!(a.should_rollover(&today).is_none());
}

#[test]
fn rotation_skips_ahead_over_gaps() {
    let opened = Date::try_new(2022, 5, 20).unwrap();
    let much_later = Date::try_new(2022, 6, 2).unwrap();
    let mut a = appender_on(opened);
    assert_eq!(a.should_rollover(&much_later), Some(much_later));
    a.advance_period(&much_later);
    assert_eq!(a.current_filename(), "foo-20220602.log");
}
