//! The names of generations, and the seconds in them.

use shep_log_rotate::config::Naming;
use shep_log_rotate::naming::{match_generation, name_of, Generation, LogPath, Slot};
use shep_log_rotate::qualify::is_newer;
use shep_log_rotate::stamp::{Stamp, END_OF_STAMPS};

fn base(name: &str) -> LogPath {
    LogPath::of("/var/log".to_owned(), name)
}

/// 2026-08-20T15-04-05, in UTC.
fn documented() -> Stamp {
    Stamp { year: 2026, month: 8, day: 20, hour: 15, minute: 4, second: 5 }
}

#[test]
fn a_name_is_split_at_its_last_dot() {
    for (name, stem, ext) in [
        ("web-0-out.log", "web-0-out", Some("log")),
        ("web", "web", None),
        ("web.1", "web", Some("1")),
        ("a.b.c", "a.b", Some("c")),
        (".hidden", ".hidden", None),
        (".hidden.log", ".hidden", Some("log")),
        ("trailing.", "trailing", Some("")),
    ] {
        let split = base(name);
        assert_eq!(split.stem, stem, "{name}");
        assert_eq!(split.ext.as_deref(), ext, "{name}");
        assert_eq!(split.live_name(), name);
    }
}

#[test]
fn the_documented_dated_names_are_written() {
    let log = base("web-0-out.log");
    let stamp = documented();
    let first = Slot::Dated { stamp, counter: 0 };
    let second = Slot::Dated { stamp, counter: 1 };
    assert_eq!(name_of(&log, first, false), "web-0-out.2026-08-20T15-04-05.log");
    assert_eq!(name_of(&log, second, false), "web-0-out.2026-08-20T15-04-05.1.log");
    assert_eq!(name_of(&log, first, true), "web-0-out.2026-08-20T15-04-05.log.gz");
    assert_eq!(name_of(&base("web"), first, false), "web.2026-08-20T15-04-05");
}

#[test]
fn the_documented_numeric_names_are_written() {
    let log = base("web-0-out.log");
    assert_eq!(name_of(&log, Slot::Numeric(1), false), "web-0-out.log.1");
    assert_eq!(name_of(&log, Slot::Numeric(3), true), "web-0-out.log.3.gz");
    assert_eq!(name_of(&log, Slot::Numeric(u32::MAX), false), "web-0-out.log.4294967295");
    assert_eq!(name_of(&base("web"), Slot::Numeric(1), false), "web.1");
}

#[test]
fn a_name_that_was_written_is_recognised() {
    for log in ["web-0-out.log", "web", "web.1", "a.b.c", ".hidden"] {
        let log = base(log);
        for gz in [false, true] {
            for counter in [0, 1, 10, u32::MAX] {
                let slot = Slot::Dated { stamp: documented(), counter };
                let name = name_of(&log, slot, gz);
                assert_eq!(
                    match_generation(&log, Naming::Dated, &name),
                    Some(Generation { slot, gz }),
                    "{name}"
                );
                assert_eq!(match_generation(&log, Naming::Numeric, &name), None, "{name}");
            }
            for n in [1, 2, 10, u32::MAX] {
                let slot = Slot::Numeric(n);
                let name = name_of(&log, slot, gz);
                assert_eq!(
                    match_generation(&log, Naming::Numeric, &name),
                    Some(Generation { slot, gz }),
                    "{name}"
                );
                assert_eq!(match_generation(&log, Naming::Dated, &name), None, "{name}");
            }
        }
    }
}

#[test]
fn what_is_no_generation_is_left_alone() {
    let log = base("web-0-out.log");
    for name in [
        "web-0-out.log",
        "web-0-out.log.",
        "web-0-out.log.0",
        "web-0-out.log.01",
        "web-0-out.log.1.bak",
        "web-0-out.log.4294967296",
        "web-0-out.log.gz",
        "web-1-out.log.1",
        "other",
        "",
    ] {
        assert_eq!(match_generation(&log, Naming::Numeric, name), None, "{name}");
    }
    for name in [
        "web-0-out.log",
        "web-0-out.2026-08-20T15-04-05.txt",
        "web-0-out.2026-08-20T15-04-05.0.log",
        "web-0-out.2026-08-20T15-04-05.01.log",
        "web-0-out.2026-08-20 15-04-05.log",
        "web-0-out.2026-8-20T15-04-05.log",
        "web-0-out.2026-08-20T15-04-05.log.gz.gz",
        "web-0-out.2026-08-20T15-04-05.4294967296.log",
    ] {
        assert_eq!(match_generation(&log, Naming::Dated, name), None, "{name}");
    }
}

#[test]
fn a_date_that_never_happened_is_no_generation() {
    let log = base("web-0-out.log");
    for stamp in [
        "2026-13-20T15-04-05",
        "2026-00-20T15-04-05",
        "2026-02-29T15-04-05",
        "2026-04-31T15-04-05",
        "2026-08-00T15-04-05",
        "2026-08-20T24-04-05",
        "2026-08-20T15-60-05",
        "2026-08-20T15-04-60",
        "1900-02-29T00-00-00",
    ] {
        let name = format!("web-0-out.{stamp}.log");
        assert_eq!(match_generation(&log, Naming::Dated, &name), None, "{name}");
    }
    let leap = "web-0-out.2028-02-29T00-00-00.log";
    assert!(match_generation(&log, Naming::Dated, leap).is_some());
}

#[test]
fn a_log_without_an_extension_shares_its_names_with_a_numbered_one() {
    let found = match_generation(&base("web"), Naming::Numeric, "web.1");
    assert_eq!(found, Some(Generation { slot: Slot::Numeric(1), gz: false }));
    assert_eq!(match_generation(&base("web.1"), Naming::Numeric, "web.1"), None);
    assert_eq!(match_generation(&base("web"), Naming::Dated, "web.1"), None);
}

#[test]
fn seconds_are_counted_as_utc_counts_them() {
    for (secs, text) in [
        (0, "1970-01-01T00-00-00"),
        (951_782_400, "2000-02-29T00-00-00"),
        (951_868_800, "2000-03-01T00-00-00"),
        (1_787_324_645, "2026-08-21T15-04-05"),
        (4_107_542_399, "2100-02-28T23-59-59"),
        (4_107_542_400, "2100-03-01T00-00-00"),
        (END_OF_STAMPS - 1, "9999-12-31T23-59-59"),
    ] {
        let stamp = Stamp::from_secs(secs);
        assert_eq!(stamp.to_text(), text);
        assert_eq!(stamp.to_secs(), secs);
    }
}

#[test]
fn names_of_different_seconds_sort_by_time() {
    let log = base("web-0-out.log");
    let mut names: Vec<String> = Vec::new();
    for secs in [0, 59, 86_400, 951_782_400, 1_787_324_645, 1_787_324_646, END_OF_STAMPS - 1] {
        let slot = Slot::Dated { stamp: Stamp::from_secs(secs), counter: 0 };
        names.push(name_of(&log, slot, secs % 2 == 0));
    }
    let mut sorted = names.clone();
    sorted.sort();
    assert_eq!(names, sorted);
}

#[test]
fn a_later_rotation_is_newer() {
    let earlier = Slot::Dated { stamp: Stamp::from_secs(100), counter: 7 };
    let later = Slot::Dated { stamp: Stamp::from_secs(101), counter: 0 };
    let again = Slot::Dated { stamp: Stamp::from_secs(101), counter: 1 };
    assert!(is_newer(later, earlier));
    assert!(is_newer(again, later));
    assert!(!is_newer(earlier, later));
    assert!(!is_newer(later, later));
    assert!(is_newer(Slot::Numeric(1), Slot::Numeric(2)));
    assert!(!is_newer(Slot::Numeric(2), Slot::Numeric(1)));
}
