//! Whole passes, against directories and a shepherd that are held in memory.

use std::collections::{BTreeMap, BTreeSet};

use shep_log_rotate::config::{Config, Section};
use shep_log_rotate::error::Error;
use shep_log_rotate::flock::{log_paths, Entry, Log, Sheep};
use shep_log_rotate::naming::{name_of, LogPath};
use shep_log_rotate::prune::Chore;
use shep_log_rotate::qualify::{DirFile, Metadata, Moment};
use shep_log_rotate::report::Report;
use shep_log_rotate::resolve::{dirs_to_resolve, entries, Spelling, Written};
use shep_log_rotate::rotation::Step;
use shep_log_rotate::stamp::Stamp;
use shep_log_rotate::tick::{read_config, Looking};
use shep_log_rotate::tidy::{tally, Turn};

/// The time at which files are written: 2026-08-21T15-04-05, in UTC.
const WRITTEN: i64 = 1_787_324_645;

fn at(secs: i64) -> Moment {
    Moment { secs, nanos: 0 }
}

fn now() -> Moment {
    at(WRITTEN)
}

/// A year after the files were written.
fn a_year_on() -> Moment {
    at(WRITTEN + 31_536_000)
}

/// A file system: files and directories under full paths, links from one
/// directory to another, and directories that refuse to be listed.
#[derive(Default)]
struct World {
    files: BTreeMap<String, String>,
    dirs: BTreeSet<String>,
    links: BTreeMap<String, String>,
    unlistable: BTreeSet<String>,
    asked: Vec<String>,
}

impl World {
    fn write(&mut self, path: &str, contents: &str) {
        let path = self.followed(path);
        self.files.insert(path, contents.to_owned());
    }

    /// The directory and the name of a path.
    fn split(path: &str) -> (String, String) {
        let (dir, name) = path.rsplit_once('/').expect("a full path");
        (dir.to_owned(), name.to_owned())
    }

    fn real_dir(&self, dir: &str) -> String {
        match self.links.get(dir) {
            Some(real) => real.clone(),
            None => dir.to_owned(),
        }
    }

    fn followed(&self, path: &str) -> String {
        let (dir, name) = World::split(path);
        format!("{}/{name}", self.real_dir(&dir))
    }

    fn has(&self, path: &str) -> bool {
        let path = self.followed(path);
        self.files.contains_key(&path) || self.dirs.contains(&path)
    }

    fn read(&self, path: &str) -> Option<&String> {
        self.files.get(&self.followed(path))
    }

    fn list(&mut self, dir: &str) -> Result<Vec<DirFile>, String> {
        self.asked.push(dir.to_owned());
        let dir = self.real_dir(dir);
        if self.unlistable.contains(&dir) {
            return Err(Error::io_at(&dir, "permission denied".to_owned()).to_string());
        }
        let mut found = Vec::new();
        for path in self.files.keys() {
            let (parent, name) = World::split(path);
            if parent == dir {
                found.push(DirFile { name, modified: Some(at(WRITTEN)) });
            }
        }
        Ok(found)
    }

    fn rename(&mut self, from: &str, to: &str) -> Result<(), String> {
        let (from, to) = (self.followed(from), self.followed(to));
        if self.dirs.contains(&to) {
            return Err(Error::io_at(&from, "is a directory".to_owned()).to_string());
        }
        match self.files.remove(&from) {
            Some(contents) => {
                assert!(self.files.insert(to.clone(), contents).is_none(), "overwrote {to}");
                Ok(())
            }
            None => Err(Error::io_at(&from, "not found".to_owned()).to_string()),
        }
    }

    fn compress(&mut self, plain: &str, gz: &str) -> Result<(), String> {
        let (plain, gz) = (self.followed(plain), self.followed(gz));
        if self.dirs.contains(&gz) {
            return Err(Error::io_at(&gz, "is a directory".to_owned()).to_string());
        }
        let contents = self.files.remove(&plain).expect("a plain file");
        self.files.insert(gz, contents);
        Ok(())
    }
}

/// What a test runs on every reopen.
type Hook = Box<dyn Fn(&mut World)>;

/// A shepherd that answers from a script and records what it was asked.
struct Fake {
    config: String,
    flock: Vec<Sheep>,
    reopen_fails: Option<String>,
    reopened: Vec<String>,
    on_reopen: Option<Hook>,
    stop: bool,
}

impl Fake {
    fn new(config: &str, flock: Vec<Sheep>) -> Self {
        Fake {
            config: config.to_owned(),
            flock,
            reopen_fails: None,
            reopened: Vec::new(),
            on_reopen: None,
            stop: false,
        }
    }

    fn reopen(&mut self, world: &mut World, name: &str) -> Result<(), String> {
        self.reopened.push(name.to_owned());
        if let Some(hook) = &self.on_reopen {
            hook(world);
        }
        match &self.reopen_fails {
            Some(why) if why == name => {
                Err(Error::Protocol(format!("refused for {name}")).to_string())
            }
            _ => Ok(()),
        }
    }
}

fn sheep(name: &str, out: Option<&str>, err: Option<&str>) -> Sheep {
    Sheep {
        name: name.to_owned(),
        out_file: out.map(str::to_owned),
        err_file: err.map(str::to_owned),
    }
}

fn section(text: &str) -> Result<Section, String> {
    let table: toml::Table = text.parse().map_err(|err| format!("{err}"))?;
    let text = |key: &str| table.get(key).and_then(|value| value.as_str()).map(str::to_owned);
    Ok(Section {
        max_size: text("max_size"),
        max_age: text("max_age"),
        keep: table.get("keep").and_then(|value| value.as_integer()).map(|keep| keep as usize),
        naming: text("naming"),
        compress: table.get("compress").and_then(|value| value.as_bool()),
        interval: text("interval"),
    })
}

/// The paths of the flock, each directory with the number of where it leads.
fn resolve(world: &World, flock: &[Sheep]) -> Vec<Entry> {
    let mut written = Vec::new();
    for sheep in flock {
        for path in log_paths(sheep) {
            let (dir, name) = World::split(&path);
            let path = Some(Spelling { dir, name });
            written.push(Written { sheep: sheep.name.clone(), path });
        }
    }
    let dirs = dirs_to_resolve(&written);
    let targets: Vec<Vec<u8>> = dirs.iter().map(|dir| world.real_dir(dir).into_bytes()).collect();
    entries(&written, &dirs, &targets)
}

fn path_of(log: &Log, name: &str) -> String {
    format!("{}/{name}", log.base.dir)
}

/// One pass against `fake`.
fn run(world: &mut World, fake: &mut Fake, now: Moment) -> Result<(Config, Report), Error> {
    let config = read_config("log-rotate", section(&fake.config))?;
    let looking = Looking::new(config, resolve(world, &fake.flock));
    let mut seen = Vec::new();
    for log in looking.logs() {
        let path = path_of(log, &log.base.live_name());
        seen.push(world.read(&path).map(|contents| Metadata {
            len: contents.len() as u64,
            created: Some(at(WRITTEN)),
            modified: Some(at(WRITTEN)),
        }));
    }
    let listing = looking.seen(seen);
    let mut listings = Vec::new();
    for place in listing.places() {
        listings.push(world.list(&place.path));
    }
    let mut renaming = listing.listed(listings, now);
    loop {
        match renaming.step() {
            Step::Rename => {
                let log = renaming.log_to_rename().clone();
                let outcome = match world.list(&log.base.dir) {
                    Ok(files) => match renaming.plan(&files) {
                        Ok(moves) => moves.iter().try_for_each(|m| {
                            world.rename(&path_of(&log, &m.from), &path_of(&log, &m.to))
                        }),
                        Err(err) => Err(err.to_string()),
                    },
                    Err(why) => Err(why),
                };
                renaming.tell(outcome);
            }
            Step::Reopen => {
                let name = renaming.sheep_to_reopen().clone();
                let outcome = fake.reopen(world, &name);
                renaming.tell(outcome);
            }
            Step::Done => break,
        }
    }
    let mut pruning = renaming.finish();
    while let Some(log) = pruning.ask(fake.stop) {
        let turn = match world.list(&log.base.dir) {
            Ok(files) => {
                let chores = pruning.chores(&log, &files);
                let mut results = Vec::new();
                for chore in &chores {
                    results.push(match *chore {
                        Chore::Delete(generation) => {
                            let name = name_of(&log.base, generation.slot, generation.gz);
                            let path = world.followed(&path_of(&log, &name));
                            world.files.remove(&path).map(|_| ()).ok_or(path)
                        }
                        Chore::Compress(slot) => {
                            let plain = path_of(&log, &name_of(&log.base, slot, false));
                            let gz = path_of(&log, &name_of(&log.base, slot, true));
                            world.compress(&plain, &gz)
                        }
                        Chore::Refuse(_) => Ok(()),
                    });
                }
                Turn::Tidied(tally(&chores, &results))
            }
            Err(why) => Turn::Failed(why),
        };
        assert!(pruning.has_room(&turn));
        pruning.tell(turn);
    }
    Ok(pruning.into_report())
}

fn big() -> String {
    "x".repeat(2048)
}

#[test]
fn a_file_over_max_size_is_rotated_and_its_sheep_reopened() {
    let mut world = World::default();
    let out = "/logs/web-0-out.log";
    world.write(out, &big());
    let mut fake = Fake::new("max_size = \"1K\"\n", vec![sheep("web", Some(out), None)]);

    let (_config, report) = run(&mut world, &mut fake, now()).expect("ticked");

    assert_eq!(report.rotated, 1);
    assert!(!world.has(out), "the live path is free for shep to reopen");
    assert_eq!(fake.reopened, vec!["web".to_owned()]);
    assert!(world.has("/logs/web-0-out.2026-08-21T15-04-05.log"));
}

#[test]
fn a_file_under_max_size_is_left_alone_and_nothing_is_reopened() {
    let mut world = World::default();
    let out = "/logs/web-0-out.log";
    world.write(out, "small\n");
    let mut fake = Fake::new("max_size = \"1M\"\n", vec![sheep("web", Some(out), None)]);

    let (_config, report) = run(&mut world, &mut fake, now()).expect("ticked");

    assert_eq!(report.rotated, 0);
    assert!(world.has(out));
    assert!(fake.reopened.is_empty(), "no rotation means no reopen");
}

#[test]
fn a_sheep_with_no_log_file_yet_is_skipped_not_an_error() {
    let mut world = World::default();
    let mut fake = Fake::new("", vec![sheep("web", Some("/logs/never-started.log"), None)]);

    let (_config, report) =
        run(&mut world, &mut fake, now()).expect("a missing log file is ordinary");

    assert_eq!(report.skipped, 1);
    assert_eq!(report.rotated, 0);
}

#[test]
fn a_refused_reopen_stops_the_tick_rather_than_rotating_on() {
    let mut world = World::default();
    let (first, second) = ("/logs/api-0-out.log", "/logs/web-0-out.log");
    world.write(first, &big());
    world.write(second, &big());
    let mut fake = Fake {
        reopen_fails: Some("api".into()),
        ..Fake::new(
            "max_size = \"1K\"\n",
            vec![sheep("api", Some(first), None), sheep("web", Some(second), None)],
        )
    };

    let (_config, report) = run(&mut world, &mut fake, now())
        .expect("a refused reopen is reported, not returned as an error");

    assert!(report.reopen_failed.is_some(), "the failure is reported");
    assert_eq!(
        report.reopen_failed.as_deref(),
        Some("api: unexpected answer from the shepherd: refused for api")
    );
    assert_eq!(fake.reopened, vec!["api".to_owned()], "web was never reached");
    assert!(
        world.has(second),
        "rotating on through a broken reopen multiplies a recoverable state"
    );
}

#[test]
fn two_sheep_sharing_one_log_path_rotate_it_once_and_both_reopen() {
    let mut world = World::default();
    let shared = "/logs/web-out.log";
    world.write(shared, &big());
    let mut fake = Fake::new(
        "max_size = \"1K\"\n",
        vec![sheep("web-0", Some(shared), None), sheep("web-1", Some(shared), None)],
    );

    let (_config, report) = run(&mut world, &mut fake, now()).expect("ticked");

    assert_eq!(report.rotated, 1, "one path, one rename");
    assert!(fake.reopened.contains(&"web-0".to_owned()));
    assert!(fake.reopened.contains(&"web-1".to_owned()));
}

#[test]
fn max_age_rotates_a_small_but_old_file() {
    let mut world = World::default();
    let out = "/logs/web-0-out.log";
    world.write(out, "tiny\n");
    let mut fake = Fake::new(
        "max_size = \"1G\"\nmax_age = \"1s\"\n",
        vec![sheep("web", Some(out), None)],
    );
    let (_config, report) = run(&mut world, &mut fake, a_year_on()).expect("ticked");

    assert_eq!(report.rotated, 1);
}

#[test]
fn a_bad_config_section_fails_the_tick_without_touching_a_file() {
    let mut world = World::default();
    let out = "/logs/web-0-out.log";
    world.write(out, &"x".repeat(4096));
    let mut fake = Fake::new("max_size = \"10MB\"\n", vec![sheep("web", Some(out), None)]);

    run(&mut world, &mut fake, now()).expect_err("10MB is not a spelling shep accepts");

    assert!(
        world.has(out),
        "a config this dog cannot read means it touches nothing"
    );
}

#[test]
fn a_generation_slot_that_is_another_sheeps_live_log_is_left_alone() {
    let mut world = World::default();
    let (grown, live) = ("/logs/web", "/logs/web.1");
    world.write(grown, &big());
    world.write(live, "one's live log\n");
    let mut fake = Fake::new(
        "max_size = \"1K\"\nnaming = \"numeric\"\n",
        vec![sheep("web", Some(grown), None), sheep("one", Some(live), None)],
    );

    let (_config, report) = run(&mut world, &mut fake, now()).expect("ticked");

    assert_eq!(report.rotated, 0, "neither log may be renamed");
    assert_eq!(report.skipped_collision, 1, "the collision is reported");
    assert_eq!(
        world.read(live).expect("still there"),
        "one's live log\n",
        "renaming a live log out from under an open descriptor is worse than deleting it"
    );
    assert!(world.has(grown), "the grown log is left for a human to sort");
    assert!(fake.reopened.is_empty());
}

#[test]
fn a_generation_slot_reached_through_a_symlinked_directory_is_still_left_alone() {
    let mut world = World::default();
    world.links.insert("/logs/link".to_owned(), "/logs/real".to_owned());
    let (grown, live) = ("/logs/link/web", "/logs/real/web.1");
    world.write(grown, &big());
    world.write(live, "one's live log\n");
    let mut fake = Fake::new(
        "max_size = \"1K\"\nnaming = \"numeric\"\n",
        vec![sheep("web", Some(grown), None), sheep("one", Some(live), None)],
    );

    let (_config, report) = run(&mut world, &mut fake, now()).expect("ticked");

    assert_eq!(report.rotated, 0, "neither log may be renamed");
    assert_eq!(
        report.skipped_collision, 1,
        "a symlinked directory is the same directory"
    );
    assert_eq!(world.read(live).expect("still there"), "one's live log\n");
    assert!(fake.reopened.is_empty());
}

#[test]
fn a_generation_slot_claimed_by_a_sheep_that_never_started_is_left_alone() {
    let mut world = World::default();
    let (grown, claimed) = ("/logs/web", "/logs/web.1");
    world.write(grown, &big());
    let mut fake = Fake::new(
        "max_size = \"1K\"\nnaming = \"numeric\"\n",
        vec![sheep("web", Some(grown), None), sheep("one", Some(claimed), None)],
    );

    let (_config, report) = run(&mut world, &mut fake, now()).expect("ticked");

    assert_eq!(report.rotated, 0);
    assert_eq!(report.skipped_collision, 1);
    assert!(!world.has(claimed), "the stopped sheep's name is still free");
    assert_eq!(report.skipped, 1, "the stopped sheep's own log is skipped");
}

#[test]
fn a_rename_that_fails_still_reopens_the_sheep_it_half_rotated() {
    let mut world = World::default();
    let (out, err) = ("/logs/api-0-out.log", "/logs/api-0-err.log");
    world.write(out, &big());
    world.write(err, &big());
    world.write("/logs/api-0-err.log.4294967295", "oldest");
    let mut fake = Fake::new(
        "max_size = \"1K\"\nnaming = \"numeric\"\n",
        vec![sheep("api", Some(out), Some(err))],
    );

    let (_config, report) = run(&mut world, &mut fake, now())
        .expect("a rename fault is reported, not returned as an error");

    let why = report.rename_failed.first().expect("the fault is in the report");
    assert!(why.contains("api-0-err.log"), "{why}");
    assert!(why.contains("no generation numbers left"), "{why}");
    assert_eq!(
        fake.reopened,
        vec!["api".to_owned()],
        "the half that rotated still needs its reopen"
    );
    assert!(world.has("/logs/api-0-out.log.1"));
    assert!(
        report.summary().expect("a line").contains("to rename"),
        "the fault reaches the summary line"
    );
}

#[test]
fn an_empty_log_is_never_rotated_however_old_it_is() {
    let mut world = World::default();
    let out = "/logs/web-0-out.log";
    world.write(out, "");
    let mut fake = Fake::new(
        "max_size = \"1G\"\nmax_age = \"1s\"\n",
        vec![sheep("web", Some(out), None)],
    );
    let (_config, report) = run(&mut world, &mut fake, a_year_on()).expect("ticked");

    assert_eq!(report.rotated, 0);
    assert!(world.has(out));
    assert!(fake.reopened.is_empty());
}

#[test]
fn two_sheep_sharing_one_log_under_two_spellings_rotate_it_once_and_both_reopen() {
    let mut world = World::default();
    world.links.insert("/logs/link".to_owned(), "/logs/real".to_owned());
    let (through_link, direct) = ("/logs/link/web-out.log", "/logs/real/web-out.log");
    world.write(direct, &big());
    let mut fake = Fake::new(
        "max_size = \"1K\"\n",
        vec![
            sheep("web-0", Some(through_link), None),
            sheep("web-1", Some(direct), None),
        ],
    );

    let (_config, report) = run(&mut world, &mut fake, now())
        .expect("one file under two spellings is one rotation, not an error");

    assert_eq!(report.rotated, 1, "one file, one rename");
    assert!(fake.reopened.contains(&"web-0".to_owned()));
    assert!(
        fake.reopened.contains(&"web-1".to_owned()),
        "the second sheep still holds the old descriptor and needs its reopen"
    );
}

#[test]
fn a_refused_reopen_still_tidies_the_sheep_that_did_reopen() {
    let mut world = World::default();
    let (api, web) = ("/logs/api-0-out.log", "/logs/web-0-out.log");
    world.write(api, &big());
    world.write(web, &big());
    for second in [1, 2] {
        world.write(&format!("/logs/api-0-out.2026-08-20T15-04-0{second}.log"), "old\n");
    }
    let webs_old = "/logs/web-0-out.2026-08-20T15-04-01.log";
    world.write(webs_old, "old\n");
    let mut fake = Fake {
        reopen_fails: Some("web".into()),
        ..Fake::new(
            "max_size = \"1K\"\nkeep = 1\ncompress = false\n",
            vec![sheep("api", Some(api), None), sheep("web", Some(web), None)],
        )
    };

    let (_config, report) = run(&mut world, &mut fake, now())
        .expect("a refused reopen is reported, not returned as an error");

    assert!(report.reopen_failed.is_some());
    assert_eq!(report.rotated, 2, "both rotated before the refusal");
    assert_eq!(report.deleted, 2, "api's two old generations went, and only those");
    assert!(
        world.has(webs_old),
        "web never reopened, so nothing of web's may be touched"
    );
}

#[test]
fn a_refused_reopen_leaves_a_shared_path_alone() {
    let mut world = World::default();
    let shared = "/logs/web-out.log";
    let mut fake = Fake {
        reopen_fails: Some("web-1".into()),
        ..Fake::new(
            "max_size = \"1K\"\nkeep = 1\n",
            vec![sheep("web-0", Some(shared), None), sheep("web-1", Some(shared), None)],
        )
    };
    let first_tick = at(1_787_324_645);
    let second_tick = at(1_787_324_645 + 60);

    world.write(shared, &big());
    let (_config, first) = run(&mut world, &mut fake, first_tick).expect("ticked");
    assert_eq!(first.rotated, 1);
    assert!(first.reopen_failed.is_some());
    let held_open = "/logs/web-out.2026-08-21T15-04-05.log";
    assert!(world.has(held_open), "the first tick's generation");

    world.write(shared, &"y".repeat(2048));
    let (_config, second) = run(&mut world, &mut fake, second_tick).expect("ticked");

    assert_eq!(second.rotated, 1);
    assert_eq!(second.deleted, 0, "web-1 still writes into the older generation");
    assert_eq!(second.compressed, 0);
    assert!(world.has(held_open));
    assert!(!world.has("/logs/web-out.2026-08-21T15-04-05.log.gz"));
}

#[test]
fn a_rename_fault_does_not_stop_the_sheeps_other_logs() {
    let mut world = World::default();
    let (shared, betas_out) = ("/logs/shared.log", "/logs/beta-0-out.log");
    world.write(shared, &big());
    world.write(betas_out, &big());
    world.write("/logs/shared.log.1", "old\n");
    world.write("/logs/beta-0-out.log.4294967295", "oldest");
    let mut fake = Fake::new(
        "max_size = \"1K\"\nnaming = \"numeric\"\nkeep = 1\ncompress = false\n",
        vec![
            sheep("alpha", Some(shared), None),
            sheep("beta", Some(betas_out), Some(shared)),
        ],
    );

    let (_config, report) = run(&mut world, &mut fake, now()).expect("ticked");

    assert_eq!(report.rename_failed.len(), 1, "beta's out log could not rotate");
    assert_eq!(
        fake.reopened,
        vec!["alpha".to_owned(), "beta".to_owned()],
        "beta shares the rotated log, so it is reopened for it"
    );
    assert_eq!(report.deleted, 1, "both sheep reopened, so shared.log.2 went");
    assert!(
        world.has(betas_out),
        "the log that could not rotate is where it was"
    );
}

#[test]
fn a_rename_that_fails_still_tidies_what_did_reopen() {
    let mut world = World::default();
    let (out, err) = ("/logs/api-0-out.log", "/logs/api-0-err.log");
    world.write(out, &big());
    world.write(err, &big());
    world.write("/logs/api-0-out.log.1", "old\n");
    world.write("/logs/api-0-err.log.4294967295", "oldest");
    let mut fake = Fake::new(
        "max_size = \"1K\"\nnaming = \"numeric\"\nkeep = 1\ncompress = false\n",
        vec![sheep("api", Some(out), Some(err))],
    );

    let (_config, report) = run(&mut world, &mut fake, now())
        .expect("a rename fault is reported, not returned as an error");

    assert_eq!(report.rename_failed.len(), 1);
    assert_eq!(fake.reopened, vec!["api".to_owned()]);
    assert!(world.has("/logs/api-0-out.log.1"), "the live file moved to .1");
    assert!(
        !world.has("/logs/api-0-out.log.2"),
        "the old generation, shifted to .2, was past keep = 1 and went"
    );
}

#[test]
fn a_stop_requested_before_the_tidy_skips_it() {
    let mut world = World::default();
    let out = "/logs/web-0-out.log";
    world.write(out, &big());
    let older = "/logs/web-0-out.2026-08-20T15-04-01.log";
    world.write(older, "would be gzipped\n");
    let mut fake = Fake {
        stop: true,
        ..Fake::new("max_size = \"1K\"\n", vec![sheep("web", Some(out), None)])
    };

    let (_config, report) = run(&mut world, &mut fake, now()).expect("ticked");

    assert_eq!(report.rotated, 1, "the rename still happened");
    assert_eq!(fake.reopened, vec!["web".to_owned()], "and the reopen");
    assert_eq!(report.compressed, 0, "but nothing was compressed");
    assert!(world.has(older), "the older generation is still plain");
    assert!(!world.has("/logs/web-0-out.2026-08-20T15-04-01.log.gz"));
}

/// The name of a generation from `days` days ago.
fn days_ago(days: i64) -> String {
    let stamp = Stamp::from_secs((WRITTEN - days * 86_400) as u64);
    format!("/logs/web-0-out.{}.log", stamp.to_text())
}

#[test]
fn max_age_counts_from_the_last_rotation_not_the_last_write() {
    let mut world = World::default();
    let out = "/logs/web-0-out.log";
    world.write(out, "written just now\n");
    world.write(&days_ago(8), "the last rotation\n");
    let mut fake = Fake::new(
        "max_size = \"1G\"\nmax_age = \"168h\"\n",
        vec![sheep("web", Some(out), None)],
    );

    let (_config, report) = run(&mut world, &mut fake, now()).expect("ticked");

    assert_eq!(report.rotated, 1, "eight days since the last rotation");
}

#[test]
fn a_log_rotated_recently_is_not_rotated_again_for_age() {
    let mut world = World::default();
    let out = "/logs/web-0-out.log";
    world.write(out, "written just now\n");
    world.write(&days_ago(1), "the last rotation\n");
    let mut fake = Fake::new(
        "max_size = \"1G\"\nmax_age = \"168h\"\n",
        vec![sheep("web", Some(out), None)],
    );

    let (_config, report) = run(&mut world, &mut fake, now()).expect("ticked");

    assert_eq!(report.rotated, 0, "one day since the last rotation");
    assert!(world.has(out));
}

#[test]
fn a_log_never_rotated_ages_from_when_it_appeared() {
    let mut world = World::default();
    let out = "/logs/web-0-out.log";
    world.write(out, "fresh\n");
    let mut fake = Fake::new(
        "max_size = \"1G\"\nmax_age = \"1s\"\n",
        vec![sheep("web", Some(out), None)],
    );

    let (_config, report) = run(&mut world, &mut fake, now()).expect("ticked");

    assert_eq!(report.rotated, 0);
}

#[test]
fn a_log_directory_that_cannot_be_listed_is_skipped_and_said() {
    let mut world = World::default();
    let (api, web) = ("/logs/api/api-0-out.log", "/logs/web-0-out.log");
    world.write(api, "small\n");
    world.write(web, &big());
    world.unlistable.insert("/logs/api".to_owned());
    let mut fake = Fake::new(
        "max_size = \"1K\"\nmax_age = \"168h\"\n",
        vec![sheep("api", Some(api), None), sheep("web", Some(web), None)],
    );

    let (_config, report) = run(&mut world, &mut fake, now())
        .expect("one unlistable directory does not fail the tick");

    assert_eq!(report.rotated, 1, "web rotated");
    assert_eq!(report.unlistable.len(), 1, "{:?}", report.unlistable);
    assert!(report.unlistable[0].contains("api"), "{:?}", report.unlistable);
    let line = report.summary().expect("a line");
    assert!(line.contains("to list a log directory"), "{line}");
}

#[test]
fn a_rename_fault_on_one_sheep_does_not_stop_the_next() {
    let mut world = World::default();
    let (api, web) = ("/logs/api/api-0-out.log", "/logs/web-0-out.log");
    world.write(api, &big());
    world.write(web, &big());
    world.write("/logs/api/api-0-out.log.4294967295", "oldest");
    let mut fake = Fake::new(
        "max_size = \"1K\"\nnaming = \"numeric\"\n",
        vec![sheep("api", Some(api), None), sheep("web", Some(web), None)],
    );

    let (_config, report) = run(&mut world, &mut fake, now()).expect("ticked");

    assert_eq!(report.rename_failed.len(), 1, "{:?}", report.rename_failed);
    assert_eq!(report.rotated, 1, "web rotated regardless");
    assert_eq!(fake.reopened, vec!["web".to_owned()]);
    assert!(world.has(api), "api's live log is where it was");
}

#[test]
fn a_tidy_fault_is_reported_and_the_tick_goes_on() {
    let mut world = World::default();
    let out = "/logs/web-0-out.log";
    world.write(out, &big());
    let older = "/logs/web-0-out.2026-08-20T15-04-01.log";
    world.write(older, "older\n");
    world.dirs.insert("/logs/web-0-out.2026-08-20T15-04-01.log.gz".to_owned());
    let mut fake = Fake::new("max_size = \"1K\"\n", vec![sheep("web", Some(out), None)]);

    let (_config, report) =
        run(&mut world, &mut fake, now()).expect("a tidy fault is reported, not returned");

    assert_eq!(report.rotated, 1);
    assert_eq!(fake.reopened, vec!["web".to_owned()]);
    assert_eq!(report.tidy_failed.len(), 1, "{:?}", report.tidy_failed);
    assert!(
        report.tidy_failed[0].contains("15-04-01.log.gz"),
        "{:?}",
        report.tidy_failed
    );
    assert!(
        world.has(older),
        "the generation that could not be compressed is still plain"
    );
    let line = report.summary().expect("a line");
    assert!(line.contains("to compress or delete"), "{line}");
}

#[test]
fn an_unlistable_directory_is_listed_once_and_reported_once() {
    let mut world = World::default();
    let (api, other) = ("/logs/api/api-0-out.log", "/logs/api/api-1-out.log");
    world.write(api, "small\n");
    world.write(other, "small\n");
    world.unlistable.insert("/logs/api".to_owned());
    let mut fake = Fake::new(
        "max_size = \"1K\"\nmax_age = \"168h\"\n",
        vec![sheep("api", Some(api), Some(api)), sheep("api-1", Some(other), None)],
    );

    let (_config, report) = run(&mut world, &mut fake, now()).expect("ticked");

    assert_eq!(report.unlistable.len(), 1, "{:?}", report.unlistable);
    assert_eq!(report.rotated, 0);
    assert_eq!(world.asked, vec!["/logs/api".to_owned()]);
}

#[test]
fn a_file_one_sheep_failed_to_rename_is_held_back_when_another_renames_it() {
    let mut world = World::default();
    let (alphas_own, shared) = ("/logs/alpha-0-err.log", "/logs/shared.log");
    world.write(alphas_own, &big());
    world.write(shared, &big());
    world.write("/logs/shared.log.2", "old\n");
    world.dirs.insert("/logs/shared.log.1".to_owned());
    let mut fake = Fake {
        on_reopen: Some(Box::new(|world: &mut World| {
            world.dirs.remove("/logs/shared.log.1");
        })),
        ..Fake::new(
            "max_size = \"1K\"\nnaming = \"numeric\"\nkeep = 1\ncompress = false\n",
            vec![
                sheep("alpha", Some(alphas_own), Some(shared)),
                sheep("gamma", Some(shared), None),
            ],
        )
    };

    let (_config, report) = run(&mut world, &mut fake, now()).expect("ticked");

    assert_eq!(report.rename_failed.len(), 1, "{:?}", report.rename_failed);
    assert_eq!(fake.reopened, vec!["alpha".to_owned(), "gamma".to_owned()]);
    assert_eq!(
        report.rotated, 2,
        "alpha's own log, then gamma's rename of the shared one"
    );
    assert_eq!(
        world.read("/logs/shared.log.1").expect("gamma's rename"),
        &big(),
        "gamma renamed the shared log once the blocker was gone"
    );
    assert_eq!(report.deleted, 0, "the shared log is held back from tidy");
    assert!(
        world.has("/logs/shared.log.4"),
        "the old generation, shifted twice, is past keep = 1 and still there"
    );
}

#[test]
fn an_unlistable_directory_under_two_spellings_is_reported_once() {
    let mut world = World::default();
    world.links.insert("/logs/api/sub/..".to_owned(), "/logs/api".to_owned());
    let (api, long_way) = ("/logs/api/api-0-out.log", "/logs/api/sub/../api-1-out.log");
    world.write(api, "small\n");
    world.write(long_way, "small\n");
    world.unlistable.insert("/logs/api".to_owned());
    let mut fake = Fake::new(
        "max_size = \"1K\"\nmax_age = \"168h\"\n",
        vec![sheep("api", Some(api), None), sheep("api-1", Some(long_way), None)],
    );

    let (_config, report) = run(&mut world, &mut fake, now()).expect("ticked");

    assert_eq!(report.unlistable.len(), 1, "{:?}", report.unlistable);
}

#[test]
fn a_path_that_cannot_be_spelled_is_skipped() {
    let config = read_config("log-rotate", section("")).expect("valid");
    let entries = vec![Entry { sheep: "web".to_owned(), log: None }];
    let looking = Looking::new(config, entries);
    assert!(looking.logs().is_empty());
    let listing = looking.seen(Vec::new());
    assert!(listing.places().is_empty());
    let renaming = listing.listed(Vec::new(), now());
    assert_eq!(renaming.step(), Step::Done);
    let (_config, report) = renaming.finish().into_report();
    assert_eq!(report, Report { skipped: 1, ..Report::default() });
}

#[test]
fn a_log_is_over_max_size_from_that_size_on() {
    let out = "/logs/web-0-out.log";
    for (size, rotated) in [(1023, 0), (1024, 1), (1025, 1)] {
        let mut world = World::default();
        world.write(out, &"x".repeat(size));
        let mut fake = Fake::new("max_size = \"1K\"\n", vec![sheep("web", Some(out), None)]);
        let (_config, report) = run(&mut world, &mut fake, now()).expect("ticked");
        assert_eq!(report.rotated, rotated, "{size} bytes");
    }
}

#[test]
fn a_log_is_aged_from_that_age_on() {
    let out = "/logs/web-0-out.log";
    for (later, rotated) in [(-5, 0), (9, 0), (10, 1)] {
        let mut world = World::default();
        world.write(out, "small\n");
        let mut fake = Fake::new("max_age = \"10s\"\n", vec![sheep("web", Some(out), None)]);
        let (_config, report) = run(&mut world, &mut fake, at(WRITTEN + later)).expect("ticked");
        assert_eq!(report.rotated, rotated, "{later} seconds later");
    }
}

#[test]
fn a_stop_during_a_tidy_abandons_it_and_skips_the_rest() {
    let config = read_config("log-rotate", section("max_size = \"1K\"")).expect("valid");
    let mut entries = Vec::new();
    for name in ["a.log", "b.log"] {
        let log = Log { base: LogPath::of("/logs".to_owned(), name), dir: 0 };
        entries.push(Entry { sheep: name.to_owned(), log: Some(log) });
    }
    let looking = Looking::new(config, entries);
    let big = Metadata { len: 4096, created: None, modified: None };
    let mut renaming = looking.seen(vec![Some(big), Some(big)]).listed(Vec::new(), now());
    while renaming.step() != Step::Done {
        renaming.tell(Ok(()));
    }
    let mut pruning = renaming.finish();
    let first = pruning.ask(false).expect("the first log");
    assert_eq!(first.base.live_name(), "a.log");
    pruning.tell(Turn::Stopped);
    assert_eq!(pruning.ask(false), None);
    let (_config, report) = pruning.into_report();
    assert_eq!(report, Report { rotated: 2, ..Report::default() });
}

#[test]
fn a_log_that_cannot_be_tidied_does_not_stop_the_next() {
    let mut world = World::default();
    let (api, web) = ("/logs/api/api.log", "/logs/web.log");
    world.write(api, &big());
    world.write(web, &big());
    world.write("/logs/web.2020-01-01T00-00-00.log", "older\n");
    let mut fake = Fake {
        on_reopen: Some(Box::new(|world: &mut World| {
            world.unlistable.insert("/logs/api".to_owned());
        })),
        ..Fake::new(
            "max_size = \"1K\"\n",
            vec![sheep("api", Some(api), None), sheep("web", Some(web), None)],
        )
    };
    let (_config, report) = run(&mut world, &mut fake, now()).expect("ticked");
    assert_eq!(report.rotated, 2);
    assert_eq!(report.tidy_failed, vec!["/logs/api: permission denied".to_owned()]);
    assert_eq!(report.compressed, 1);
    assert!(world.has("/logs/web.2020-01-01T00-00-00.log.gz"));
}

#[test]
fn each_spelling_is_resolved_once_and_numbered_by_where_it_leads() {
    let at = |sheep: &str, dir: &str, name: &str| Written {
        sheep: sheep.to_owned(),
        path: Some(Spelling { dir: dir.to_owned(), name: name.to_owned() }),
    };
    let written = vec![
        at("a", "/link", "web.log"),
        at("b", "/real", "web.log"),
        Written { sheep: "c".to_owned(), path: None },
        at("d", "/other", "web.log"),
        at("e", "/link", "api.log"),
    ];
    let dirs = dirs_to_resolve(&written);
    assert_eq!(dirs, vec!["/link", "/real", "/other"]);
    let targets = vec![b"/real".to_vec(), b"/real".to_vec(), b"/other".to_vec()];
    let found = entries(&written, &dirs, &targets);
    let numbers: Vec<Option<u64>> =
        found.iter().map(|entry| entry.log.as_ref().map(|log| log.dir)).collect();
    assert_eq!(numbers, vec![Some(0), Some(0), None, Some(2), Some(0)]);
    let log = found[4].log.as_ref().expect("a log");
    assert_eq!(log.base, LogPath::of("/link".to_owned(), "api.log"));
    assert_eq!(found[4].sheep, "e");
}

#[test]
fn a_directory_is_listed_as_its_first_log_to_be_judged_by_age_spells_it() {
    let config = read_config("log-rotate", section("max_size = \"1K\"\nmax_age = \"1h\""))
        .expect("valid");
    let mut found = Vec::new();
    for (dir, number, name) in [
        ("/big", 0, "a.log"),
        ("/small", 0, "b.log"),
        ("/later", 0, "c.log"),
        ("/gone", 1, "d.log"),
        ("/other", 1, "e.log"),
    ] {
        let log = Log { base: LogPath::of(dir.to_owned(), name), dir: number };
        found.push(Entry { sheep: name.to_owned(), log: Some(log) });
    }
    let looking = Looking::new(config, found);
    let sized = |len: u64| Some(Metadata { len, created: None, modified: None });
    let listing = looking.seen(vec![sized(4096), sized(1), sized(1), None, sized(1)]);
    let places: Vec<(u64, &str)> =
        listing.places().iter().map(|place| (place.dir, place.path.as_str())).collect();
    assert_eq!(places, vec![(0, "/small"), (1, "/other")]);
}

#[test]
fn sheep_reopen_in_flock_order_once_and_only_for_a_renamed_file() {
    let mut world = World::default();
    let (a, b, shared) = ("/logs/a.log", "/logs/b.log", "/logs/shared.log");
    world.write(a, &big());
    world.write(b, "small\n");
    world.write(shared, &big());
    let mut fake = Fake::new(
        "max_size = \"1K\"\n",
        vec![
            sheep("zebra", Some(shared), None),
            sheep("quiet", Some(b), None),
            sheep("alpha", Some(a), Some(shared)),
            sheep("zebra", Some(a), None),
        ],
    );
    let (_config, report) = run(&mut world, &mut fake, now()).expect("ticked");
    assert_eq!(report.rotated, 2);
    assert_eq!(fake.reopened, vec!["zebra".to_owned(), "alpha".to_owned()]);
}

#[test]
fn a_clock_that_no_name_can_spell_is_one_logs_problem() {
    let mut world = World::default();
    let out = "/logs/web.log";
    world.write(out, &big());
    let mut fake = Fake::new("max_size = \"1K\"\n", vec![sheep("web", Some(out), None)]);
    let (_config, report) = run(&mut world, &mut fake, at(-1)).expect("ticked");
    assert_eq!(
        report.rename_failed,
        vec!["/logs/web.log: the clock shows a year that a generation's name cannot".to_owned()]
    );
    assert!(world.has(out));
    assert!(fake.reopened.is_empty());
}
