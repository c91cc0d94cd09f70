//! What is renamed, compressed and deleted in a directory.

use shep_log_rotate::config::{Config, Naming};
use shep_log_rotate::error::Error;
use shep_log_rotate::flock::FileSet;
use shep_log_rotate::naming::{name_of, Generation, LogPath, Slot};
use shep_log_rotate::prune::{generations, tidy_plan, Chore, Held};
use shep_log_rotate::qualify::{DirFile, Moment};
use shep_log_rotate::rotate::{rotate_plan, NO_STAMP};
use shep_log_rotate::stamp::{Stamp, END_OF_STAMPS};
use shep_log_rotate::tidy::{tally, Tidied};

const AT: u64 = 1_787_324_645;

fn at(secs: u64) -> Moment {
    Moment { secs: secs as i64, nanos: 0 }
}

fn base(name: &str) -> LogPath {
    LogPath::of("/var/log".to_owned(), name)
}

fn files(names: &[&str]) -> Vec<DirFile> {
    let mut files = Vec::new();
    for name in names {
        files.push(DirFile { name: (*name).to_owned(), modified: None });
    }
    files
}

/// The moves of a rotation, as pairs of names.
fn plan(log: &str, naming: Naming, names: &[&str]) -> Result<Vec<(String, String)>, Error> {
    let moves = rotate_plan(&base(log), naming, &files(names), at(AT))?;
    Ok(moves.into_iter().map(|m| (m.from, m.to)).collect())
}

fn pairs(expected: &[(&str, &str)]) -> Vec<(String, String)> {
    expected.iter().map(|(a, b)| ((*a).to_owned(), (*b).to_owned())).collect()
}

#[test]
fn a_dated_rotation_is_one_rename() {
    let moves = plan("web.log", Naming::Dated, &["web.log", "web.2020-01-01T00-00-00.log"]);
    assert_eq!(moves.unwrap(), pairs(&[("web.log", "web.2026-08-21T15-04-05.log")]));
}

#[test]
fn a_second_rotation_in_one_second_is_counted() {
    let first = "web.2026-08-21T15-04-05.log";
    let moves = plan("web.log", Naming::Dated, &["web.log", first]).unwrap();
    assert_eq!(moves, pairs(&[("web.log", "web.2026-08-21T15-04-05.1.log")]));

    let packed = "web.2026-08-21T15-04-05.log.gz";
    let second = "web.2026-08-21T15-04-05.1.log";
    let moves = plan("web.log", Naming::Dated, &["web.log", packed, second]).unwrap();
    assert_eq!(
        moves,
        pairs(&[("web.log", "web.2026-08-21T15-04-05.2.log")]),
        "a compressed generation still has its place"
    );
}

#[test]
fn a_numeric_rotation_shifts_the_oldest_first() {
    let names = ["web.log", "web.log.2.gz", "web.log.1", "web.log.10", "web.log.2", "other"];
    let moves = plan("web.log", Naming::Numeric, &names).unwrap();
    assert_eq!(
        moves,
        pairs(&[
            ("web.log.10", "web.log.11"),
            ("web.log.2", "web.log.3"),
            ("web.log.2.gz", "web.log.3.gz"),
            ("web.log.1", "web.log.2"),
            ("web.log", "web.log.1"),
        ])
    );
}

#[test]
fn a_counter_is_never_wrapped() {
    let names = ["web.log", "web.log.4294967295", "web.log.1"];
    let err = plan("web.log", Naming::Numeric, &names).expect_err("nowhere to go");
    assert_eq!(err, Error::Exhausted { path: "/var/log/web.log.4294967295".to_owned() });

    let err = plan("web.log", Naming::Numeric, &["web.log", "web.log.4294967295.gz"])
        .expect_err("nowhere to go");
    assert_eq!(err, Error::Exhausted { path: "/var/log/web.log.4294967295.gz".to_owned() });

    let last = plan("web.log", Naming::Numeric, &["web.log", "web.log.4294967294"]).unwrap();
    assert_eq!(last[0].1, "web.log.4294967295");
}

#[test]
fn nothing_is_overwritten_and_nothing_is_lost() {
    let names = ["web.log", "web.log.1", "web.log.1.gz", "web.log.2", "web.log.5", "notes.txt"];
    let mut dir: std::collections::BTreeMap<String, String> = std::collections::BTreeMap::new();
    for name in names {
        dir.insert(name.to_owned(), format!("contents of {name}"));
    }
    for (from, to) in plan("web.log", Naming::Numeric, &names).unwrap() {
        let moved = dir.remove(&from).expect("there to be moved");
        assert!(dir.insert(to.clone(), moved).is_none(), "{to} was overwritten");
    }
    for (now, before) in [
        ("web.log.1", "web.log"),
        ("web.log.2", "web.log.1"),
        ("web.log.2.gz", "web.log.1.gz"),
        ("web.log.3", "web.log.2"),
        ("web.log.6", "web.log.5"),
        ("notes.txt", "notes.txt"),
    ] {
        assert_eq!(dir[now], format!("contents of {before}"));
    }
    assert_eq!(dir.len(), names.len());
}

#[test]
fn a_half_compressed_generation_is_one_generation() {
    let found = generations(
        &files(&["web.log.3", "web.log.1", "web.log.3.gz", "web.log", "web.log.2.gz"]),
        &base("web.log"),
        Naming::Numeric,
    );
    assert_eq!(
        found,
        vec![
            Held { slot: Slot::Numeric(1), plain: true, gz: false },
            Held { slot: Slot::Numeric(2), plain: false, gz: true },
            Held { slot: Slot::Numeric(3), plain: true, gz: true },
        ]
    );
}

#[test]
fn dated_generations_stand_newest_first() {
    let found = generations(
        &files(&[
            "web.2026-08-20T15-04-05.log",
            "web.2026-08-21T15-04-05.log",
            "web.2026-08-20T15-04-05.1.log",
        ]),
        &base("web.log"),
        Naming::Dated,
    );
    let early = Stamp::from_secs(AT - 86_400);
    let slots: Vec<Slot> = found.iter().map(|held| held.slot).collect();
    assert_eq!(
        slots,
        vec![
            Slot::Dated { stamp: Stamp::from_secs(AT), counter: 0 },
            Slot::Dated { stamp: early, counter: 1 },
            Slot::Dated { stamp: early, counter: 0 },
        ]
    );
}

fn config(keep: usize, compress: bool) -> Config {
    Config { keep, compress, naming: Naming::Numeric, ..Config::default() }
}

fn plain(n: u32) -> Generation {
    Generation { slot: Slot::Numeric(n), gz: false }
}

fn packed(n: u32) -> Generation {
    Generation { slot: Slot::Numeric(n), gz: true }
}

#[test]
fn what_is_past_keep_goes_and_all_but_the_newest_is_compressed() {
    let names = ["web.log", "web.log.1", "web.log.2", "web.log.3.gz", "web.log.4", "web.log.4.gz"];
    let log = base("web.log");
    let none = FileSet::new();
    let chores = tidy_plan(&files(&names), &log, 1, &config(3, true), &none);
    assert_eq!(
        chores,
        vec![
            Chore::Compress(Slot::Numeric(2)),
            Chore::Delete(plain(4)),
            Chore::Delete(packed(4)),
        ]
    );
    let chores = tidy_plan(&files(&names), &log, 1, &config(1, false), &none);
    assert_eq!(
        chores,
        vec![
            Chore::Delete(plain(2)),
            Chore::Delete(packed(3)),
            Chore::Delete(plain(4)),
            Chore::Delete(packed(4)),
        ]
    );
    assert_eq!(tidy_plan(&files(&names), &log, 1, &config(9, false), &none), vec![]);
}

#[test]
fn a_live_log_is_neither_compressed_nor_deleted() {
    let names = ["web", "web.1", "web.2", "web.3", "web.4"];
    let log = base("web");
    let mut live = FileSet::new();
    live.insert(1, "web.4".to_owned());
    live.insert(1, "web.2.gz".to_owned());
    live.insert(2, "web.3".to_owned());
    let chores = tidy_plan(&files(&names), &log, 1, &config(3, true), &live);
    assert_eq!(
        chores,
        vec![
            Chore::Refuse(plain(2)),
            Chore::Compress(Slot::Numeric(3)),
            Chore::Refuse(plain(4)),
        ]
    );
}

#[test]
fn a_chore_that_fails_does_not_stop_the_next() {
    let chores = vec![
        Chore::Compress(Slot::Numeric(2)),
        Chore::Compress(Slot::Numeric(3)),
        Chore::Refuse(plain(4)),
        Chore::Delete(plain(5)),
        Chore::Delete(packed(5)),
    ];
    let results = vec![
        Err("no room".to_owned()),
        Ok(()),
        Ok(()),
        Ok(()),
        Err("denied".to_owned()),
    ];
    assert_eq!(
        tally(&chores, &results),
        Tidied {
            compressed: 1,
            deleted: 1,
            skipped_protected: 1,
            faults: vec!["no room".to_owned(), "denied".to_owned()],
        }
    );
}

#[test]
fn the_directory_stays_bounded() {
    let log = base("web.log");
    let none = FileSet::new();
    let config = Config { keep: 3, ..Config::default() };
    let mut dir: std::collections::BTreeSet<String> = std::collections::BTreeSet::new();
    for pass in 0..20u64 {
        dir.insert("web.log".to_owned());
        let listed: Vec<&str> = dir.iter().map(String::as_str).collect();
        for m in rotate_plan(&log, Naming::Dated, &files(&listed), at(AT + pass)).unwrap() {
            assert!(dir.remove(&m.from));
            assert!(dir.insert(m.to));
        }
        let listed: Vec<&str> = dir.iter().map(String::as_str).collect();
        for chore in tidy_plan(&files(&listed), &log, 1, &config, &none) {
            match chore {
                Chore::Delete(generation) => {
                    assert!(dir.remove(&name_of(&log, generation.slot, generation.gz)));
                }
                Chore::Compress(slot) => {
                    assert!(dir.remove(&name_of(&log, slot, false)));
                    assert!(dir.insert(name_of(&log, slot, true)));
                }
                Chore::Refuse(generation) => panic!("{generation:?} is no live log"),
            }
        }
        assert!(dir.len() <= 3, "{dir:?}");
        let newest = Slot::Dated { stamp: Stamp::from_secs(AT + pass), counter: 0 };
        assert!(dir.contains(&name_of(&log, newest, false)), "the newest is left plain");
    }
    assert_eq!(dir.iter().filter(|name| name.ends_with(".gz")).count(), 2);
}

#[test]
fn what_the_other_scheme_wrote_is_left_alone() {
    let log = base("web.log");
    let names = ["web.log.1", "web.log.2", "web.log.3", "web.2026-08-20T15-04-05.log"];
    let none = FileSet::new();
    let config = Config { keep: 1, ..Config::default() };
    assert_eq!(tidy_plan(&files(&names), &log, 1, &config, &none), vec![]);
}

#[test]
fn a_clock_that_no_name_can_spell_is_an_error_and_renames_nothing() {
    let log = base("web.log");
    let found = files(&["web.log"]);
    for secs in [-1, i64::MIN, END_OF_STAMPS as i64, i64::MAX] {
        let now = Moment { secs, nanos: 0 };
        let err = rotate_plan(&log, Naming::Dated, &found, now).expect_err("no such year");
        assert_eq!(
            err,
            Error::Io { path: "/var/log/web.log".to_owned(), source: NO_STAMP.to_owned() }
        );
        assert_eq!(
            err.to_string(),
            "/var/log/web.log: the clock shows a year that a generation's name cannot"
        );
        let moves = rotate_plan(&log, Naming::Numeric, &found, now).expect("no year in the name");
        assert_eq!(moves.len(), 1);
    }
    for (secs, name) in [
        (0, "web.1970-01-01T00-00-00.log"),
        (END_OF_STAMPS - 1, "web.9999-12-31T23-59-59.log"),
    ] {
        let moves = rotate_plan(&log, Naming::Dated, &found, at(secs)).expect("a year of its own");
        assert_eq!(moves[0].to, name);
    }
}
