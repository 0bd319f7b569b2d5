use daily_rolling_appender::retention::files_to_remove;

fn listing(names: &[&str]) -> Vec<String> {
    names.iter().map(|n| n.to_string()).collect()
}

#[test]
fn retention_keeps_the_three_most_recent() {
    // Ten dated files from the days before 2022-05-27, the active file
    // of 2022-05-27 itself, and unrelated files that must never be
    // touched, listed out of order on purpose.
    let names = listing(&[
        "foo-20220526.log",
        "foo-20220525.log",
        "foo-20220524.log",
        "foo-20220523.log",
        "bar.txt",
        "foo-20220522.log",
        "foo-20220521.log",
        "foo-20220520.log",
        "bar-20220527.log",
        "foo-20220519.log",
        "foo-20220518.log",
        "foo-20220517.log",
        "foo-00000101.txt",
        "foo-0000010a.txt",
        "foo-20220527.log",
    ]);

    let victims = files_to_remove(&names, "foo", 3);

    // Eleven files match; three stay (2022-05-27, -26, -25), the eight
    // oldest go, oldest first.
    assert_eq!(
        victims,
        vec![
            "foo-20220517.log".to_string(),
            "foo-20220518.log".to_string(),
            "foo-20220519.log".to_string(),
            "foo-20220520.log".to_string(),
            "foo-20220521.log".to_string(),
            "foo-20220522.log".to_string(),
            "foo-20220523.log".to_string(),
            "foo-20220524.log".to_string(),
        ]
    );

    // The plan comes out in ascending name order too: for fixed-width
    // dated names, lexicographic order is chronological order.
    let mut resorted = victims.clone();
    resorted.sort();
    assert_eq!(victims, resorted);
}

#[test]
fn retention_within_budget_deletes_nothing() {
    let names = listing(&[
        "foo-20220525.log",
        "foo-20220526.log",
        "foo-20220527.log",
        "bar.txt",
    ]);
    assert!(files_to_remove(&names, "foo", 3).is_empty());
    assert!(files_to_remove(&names, "foo", 4).is_empty());
    assert!(files_to_remove(&listing(&[]), "foo", 1).is_empty());
}

#[test]
fn retention_ignores_foreign_files_entirely() {
    // Plenty of old-looking files, none of which match the prefix: the
    // plan must stay empty no matter how small the budget is.
    let names = listing(&[
        "bar-00000001.log",
        "bar-19700101.log",
        "foo-1970010.log",
        "foo-197001011.log",
        "foo-19700101.txt",
        "notes.md",
    ]);
    assert!(files_to_remove(&names, "foo", 1).is_empty());
}

#[test]
fn retention_budget_of_one_keeps_only_the_newest() {
    let names = listing(&[
        "foo-20220525.log",
        "foo-20220527.log",
        "foo-20220526.log",
    ]);
    let victims = files_to_remove(&names, "foo", 1);
    assert_eq!(
        victims,
        vec![
            "foo-20220525.log".to_string(),
            "foo-20220526.log".to_string(),
        ]
    );
}
