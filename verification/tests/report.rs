//! What a tick says of itself.

use shep_log_rotate::report::{times, Report};

fn assert_no_dashes(text: &str) {
    assert!(!text.contains('\u{2014}'), "an em dash in {text}");
    assert!(!text.contains('\u{2013}'), "an en dash in {text}");
}

#[test]
fn a_quiet_tick_says_nothing_and_a_busy_one_says_one_line() {
    let quiet = Report {
        skipped: 3,
        ..Report::default()
    };
    assert_eq!(quiet.summary(), None);

    let busy = Report {
        rotated: 2,
        compressed: 1,
        ..Report::default()
    };
    let line = busy.summary().expect("a tick that rotated says so");
    assert_eq!(line.lines().count(), 1, "{line}");
    assert_no_dashes(&line);
}

#[test]
fn the_summary_counts_a_single_fault_as_once() {
    let report = Report {
        rotated: 1,
        rename_failed: vec!["web-0-out.log: no generation numbers left to rotate into".into()],
        skipped_protected: 2,
        ..Report::default()
    };
    let line = report.summary().expect("a line");
    assert!(line.contains("failed once to rename"), "{line}");
    assert!(line.contains("refused twice to touch"), "{line}");
    assert!(!line.contains("1 times"), "{line}");
}

#[test]
fn times_are_counted_in_words_up_to_two() {
    assert_eq!(times(0), "0 times");
    assert_eq!(times(1), "once");
    assert_eq!(times(2), "twice");
    assert_eq!(times(3), "3 times");
    assert_eq!(times(120), "120 times");
}

#[test]
fn a_collision_reads_as_documented() {
    let report = Report {
        skipped_collision: 1,
        ..Report::default()
    };
    assert_eq!(
        report.summary().as_deref(),
        Some("rotated 0, compressed 0, deleted 0, left 1 alone whose rotated name is a live log")
    );
}

#[test]
fn everything_that_can_be_said_is_said_in_order() {
    let report = Report {
        rotated: 12,
        skipped: 9,
        compressed: 3,
        deleted: 4,
        skipped_collision: 5,
        skipped_protected: 6,
        reopen_failed: Some("web: refused".to_owned()),
        rename_failed: vec!["a".to_owned(), "b".to_owned()],
        tidy_failed: vec!["c".to_owned()],
        unlistable: vec!["d".to_owned(), "e".to_owned(), "f".to_owned()],
    };
    assert_eq!(
        report.summary().as_deref(),
        Some(
            "rotated 12, compressed 3, deleted 4, left 5 alone whose rotated name is a live log, \
             refused 6 times to touch a live log, stopped early: reopen refused (web: refused), \
             failed twice to rename (a), failed once to compress or delete (c), \
             failed 3 times to list a log directory (d)"
        )
    );
}

#[test]
fn each_fault_alone_is_worth_a_line() {
    let quiet = Report::default();
    assert_eq!(quiet.summary(), None);
    for report in [
        Report { reopen_failed: Some("x".to_owned()), ..Report::default() },
        Report { rename_failed: vec!["x".to_owned()], ..Report::default() },
        Report { tidy_failed: vec!["x".to_owned()], ..Report::default() },
        Report { unlistable: vec!["x".to_owned()], ..Report::default() },
    ] {
        assert!(report.summary().expect("a line").contains("(x)"), "{report:?}");
    }
    let only_refused = Report { skipped_protected: 4, ..Report::default() };
    assert_eq!(only_refused.summary(), None, "a refusal alone says nothing");
}
