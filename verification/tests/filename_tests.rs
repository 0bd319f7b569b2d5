use daily_rolling_appender::date::Date;
use daily_rolling_appender::filename::create_daily_log_filename;
use daily_rolling_appender::filename::create_daily_log_path;
use daily_rolling_appender::filename::filename_for_code;
use daily_rolling_appender::filename::is_log_file;

#[test]
fn test_is_log_file() {
    let prefix = "foo";

    let log_filenames = vec!["foo-00000000.log", "foo-20220527.log"];
    for filename in log_filenames {
        assert!(
            is_log_file(filename, prefix).is_some(),
            "filename={}",
            filename
        );
    }

    let not_log_filenames = vec![
        "foo.log",
        "20220527.log",
        "foo-2022052a.log",
        "foo-20220527.txt",
    ];
    for filename in not_log_filenames {
        assert!(
            is_log_file(filename, prefix).is_none(),
            "filename={}",
            filename
        );
    }
}

#[test]
fn test_create_daily_log_filename() {
    let filename_prefix = "foo";
    let today = "20220526";
    let expected = format!("{}-{}.log", filename_prefix, today);

    let date = Date::try_new(2022, 5, 26).unwrap();

    let path = create_daily_log_filename(filename_prefix, &date);
    assert_eq!(expected, path);
}

#[test]
fn filename_is_zero_padded() {
    let date = Date::try_new(987, 1, 3).unwrap();
    assert_eq!(create_daily_log_filename("foo", &date), "foo-09870103.log");
    assert_eq!(filename_for_code("foo", 0), "foo-00000000.log");
    assert_eq!(filename_for_code("", 20220527), "-20220527.log");
}

#[test]
fn matching_returns_the_name_itself() {
    assert_eq!(
        is_log_file("foo-20220527.log", "foo").unwrap(),
        "foo-20220527.log"
    );
    // The prefix is matched literally and completely.
    assert!(is_log_file("foobar-20220527.log", "foo").is_none());
    assert!(is_log_file("fo-20220527.log", "foo").is_none());
    // A generated name always matches its own prefix.
    let date = Date::try_new(2022, 5, 27).unwrap();
    let name = create_daily_log_filename("bar", &date);
    assert!(is_log_file(&name, "bar").is_some());
    assert!(is_log_file(&name, "foo").is_none());
}

#[test]
fn paths_join_with_single_separator() {
    assert_eq!(
        create_daily_log_path("/var/log", "foo-20220526.log"),
        "/var/log/foo-20220526.log"
    );
    assert_eq!(
        create_daily_log_path("/var/log/", "foo-20220526.log"),
        "/var/log/foo-20220526.log"
    );
    assert_eq!(
        create_daily_log_path("", "foo-20220526.log"),
        "foo-20220526.log"
    );
}
