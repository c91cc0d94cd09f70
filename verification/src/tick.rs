//! One full rotation pass, in the order that it has to have.
//!
//! 1. The settings are read, and nothing is touched if they cannot be.
//! 2. The flock is listed, and every live log of it is protected.
//! 3. Every log is looked at and judged, before any of them is renamed.
//! 4. Sheep by sheep, what has to be rotated is renamed, and that sheep is
//!    asked to reopen.
//! 5. Only then is anything compressed or pruned.
//!
//! Each step is a type of its own, and the next one is made from it.

use vstd::prelude::*;

use crate::config::{configured, Config, ConfigErrorView, Section};
use crate::error::{Error, ErrorView};
use crate::flock::{is_live, log_views, protected_files, texts, Entry, FileId, FileSet, Log};
use crate::prune::{held, tidy_plan, Chore, Rules};
use crate::qualify::{age_decides, qualified, DirFile, Metadata, Moment};
use crate::report::Report;
use crate::rotate::{move_views, planned, rotate_plan, Move};
use crate::rotation::{reports, started, the_givens_stay, untouched, Progress, Rotation, Step};
use crate::survey::{
    dir_position, dir_position_is_one, directories_are_listed_as_their_first_log_spells_them,
    dirs_needed, dirs_to_list, distinct_logs, faults_of, first_logs, grouped,
    no_file_is_looked_at_twice, numbers, place_views, places_needed, position_is_first, position_of,
    skipped, survey, Place, Sight,
};
use crate::tidy::{nothing, same_but_tidying, tally_of, TidyProgress, Tidying, Turn};

verus! {

/// Reads the settings out of the section called `section`, of which a TOML
/// reader has made `parsed`.
pub fn read_config(section: &str, parsed: Result<Section, String>) -> (r: Result<Config, Error>)
    ensures
        match (r, parsed) {
            (Ok(config), Ok(found)) => configured(found) == Ok::<Config, ConfigErrorView>(config),
            (Err(err), Ok(found)) => configured(found) matches Err(source) && err@
                == (ErrorView::Config { section: section@, source }),
            (Err(err), Err(message)) => err@ == (ErrorView::Config {
                section: section@,
                source: ConfigErrorView::Toml(message@),
            }),
            (Ok(_), Err(_)) => false,
        },
        r matches Ok(config) ==> config.keep >= 1 && config.interval.millis > 0,
{
    match Config::from_toml(parsed) {
        Ok(config) => Ok(config),
        Err(source) => Err(Error::bad_section(section, source)),
    }
}

/// What a pass goes by once everything has been looked at.
pub open spec fn sight_of(
    entries: Seq<Entry>,
    seen: Seq<Option<Metadata>>,
    listings: Seq<Result<Vec<DirFile>, String>>,
    config: Config,
    now: Moment,
) -> Sight {
    Sight {
        logs: first_logs(entries),
        seen,
        dirs: dirs_needed(first_logs(entries), seen, config),
        listings,
        config,
        now,
    }
}

/// A pass whose logs are to be looked at, each file once.
#[derive(Debug)]
pub struct Looking {
    config: Config,
    entries: Vec<Entry>,
    logs: Vec<Log>,
}

impl Looking {
    /// Whether the logs are those of the flock.
    pub closed spec fn wf(&self) -> bool {
        log_views(self.logs@) == first_logs(self.entries@)
    }

    /// The settings.
    pub closed spec fn config(&self) -> Config {
        self.config
    }

    /// The paths of the flock.
    pub closed spec fn entries(&self) -> Seq<Entry> {
        self.entries@
    }

    /// Starts on the paths of the flock.
    pub fn new(config: Config, entries: Vec<Entry>) -> (r: Self)
        ensures
            r.wf(),
            r.config() == config,
            r.entries() == entries@,
    {
        let logs = distinct_logs(&entries);
        Looking { config, entries, logs }
    }

    /// The logs to look at.
    pub fn logs(&self) -> (r: &Vec<Log>)
        requires
            self.wf(),
        ensures
            log_views(r@) == first_logs(self.entries()),
    {
        &self.logs
    }

    /// Goes on with what was seen of each of the logs: nothing, where there is
    /// no file.
    pub fn seen(self, seen: Vec<Option<Metadata>>) -> (r: Listing)
        requires
            self.wf(),
            seen@.len() == first_logs(self.entries()).len(),
        ensures
            r.wf(),
            r.config() == self.config(),
            r.entries() == self.entries(),
            r.seen() == seen@,
    {
        let places = dirs_to_list(&self.logs, &seen, &self.config);
        Listing { config: self.config, entries: self.entries, logs: self.logs, seen, places }
    }
}

/// A pass some of whose directories are to be listed, each of them once.
#[derive(Debug)]
pub struct Listing {
    config: Config,
    entries: Vec<Entry>,
    logs: Vec<Log>,
    seen: Vec<Option<Metadata>>,
    places: Vec<Place>,
}

impl Listing {
    /// Whether the logs and the directories are those of the flock.
    pub closed spec fn wf(&self) -> bool {
        &&& log_views(self.logs@) == first_logs(self.entries@)
        &&& self.seen@.len() == self.logs@.len()
        &&& numbers(self.places@) == dirs_needed(log_views(self.logs@), self.seen@, self.config)
        &&& place_views(self.places@) == places_needed(
            log_views(self.logs@),
            self.seen@,
            self.config,
        )
    }

    /// The settings.
    pub closed spec fn config(&self) -> Config {
        self.config
    }

    /// The paths of the flock.
    pub closed spec fn entries(&self) -> Seq<Entry> {
        self.entries@
    }

    /// What was seen of each log.
    pub closed spec fn seen(&self) -> Seq<Option<Metadata>> {
        self.seen@
    }

    /// The directories to list, each under the path to list it by.
    pub fn places(&self) -> (r: &Vec<Place>)
        requires
            self.wf(),
        ensures
            numbers(r@) == dirs_needed(first_logs(self.entries()), self.seen(), self.config()),
            place_views(r@) == places_needed(
                first_logs(self.entries()),
                self.seen(),
                self.config(),
            ),
    {
        &self.places
    }

    /// Goes on with what each of the directories holds, or why it could not be
    /// listed: judges every log at the time `now`.
    pub fn listed(self, listings: Vec<Result<Vec<DirFile>, String>>, now: Moment) -> (r: Renaming)
        requires
            self.wf(),
            listings@.len() == dirs_needed(
                first_logs(self.entries()),
                self.seen(),
                self.config(),
            ).len(),
        ensures
            r.wf(),
            r.config() == self.config(),
            r.entries() == self.entries(),
            r.sight() == sight_of(self.entries(), self.seen(), listings@, self.config(), now),
            r.progress() == started(
                grouped(self.entries(), r.sight()),
                self.config().naming,
                r.progress().protected,
            ),
            forall|file: FileId| #[trigger]
                r.progress().protected.contains(file) <==> is_live(self.entries(), file),
    {
        let found = survey(
            &self.entries,
            &self.logs,
            &self.seen,
            &self.places,
            &listings,
            &self.config,
            now,
        );
        let protected = protected_files(&self.entries);
        let ghost sight = sight_of(self.entries@, self.seen@, listings@, self.config, now);
        proof {
            assert(numbers(self.places@).len() == self.places@.len());
        }
        let naming = self.config.naming;
        let ghost groups = grouped(self.entries@, sight);
        let ghost live = protected@;
        let rotation = Rotation::new(found.groups, protected, naming);
        proof {
            the_givens_stay(untouched(groups, naming, live));
        }
        Renaming {
            config: self.config,
            now,
            rotation,
            skipped: found.skipped,
            unlistable: found.unlistable,
            entries: Ghost(self.entries@),
            sight: Ghost(sight),
        }
    }
}

/// A pass that renames and has sheep reopen.
pub struct Renaming {
    config: Config,
    now: Moment,
    rotation: Rotation,
    skipped: usize,
    unlistable: Vec<String>,
    entries: Ghost<Seq<Entry>>,
    sight: Ghost<Sight>,
}

impl Renaming {
    /// Whether what is waited for can be done, and the counts are those of the
    /// flock.
    pub closed spec fn wf(&self) -> bool {
        &&& self.rotation.wf()
        &&& self.now == self.sight@.now
        &&& self.skipped == skipped(self.entries@, self.sight@)
        &&& texts(self.unlistable@) == faults_of(self.sight@.listings)
    }

    /// The settings.
    pub closed spec fn config(&self) -> Config {
        self.config
    }

    /// The paths of the flock.
    pub closed spec fn entries(&self) -> Seq<Entry> {
        self.entries@
    }

    /// What the pass goes by.
    pub closed spec fn sight(&self) -> Sight {
        self.sight@
    }

    /// How far the renames and the reopens have come.
    pub closed spec fn progress(&self) -> Progress {
        self.rotation@
    }

    /// What the pass waits for.
    pub fn step(&self) -> (r: Step)
        ensures
            r == self.progress().step,
    {
        self.rotation.step()
    }

    /// The log to rename.
    pub fn log_to_rename(&self) -> (r: &Log)
        requires
            self.wf(),
            self.progress().step == Step::Rename,
        ensures
            r@ == self.progress().log(),
    {
        self.rotation.log_to_rename()
    }

    /// What is renamed to rotate that log at the time of this pass, of which
    /// `files` are the regular files of its directory.
    pub fn plan(&self, files: &Vec<DirFile>) -> (r: Result<Vec<Move>, Error>)
        requires
            self.wf(),
            self.progress().step == Step::Rename,
        ensures
            match (
                r,
                planned(
                    self.progress().log().base,
                    self.config().naming,
                    files@,
                    self.sight().now,
                ),
            ) {
                (Ok(plan), Ok(expected)) => move_views(plan@) == expected,
                (Err(err), Err(expected)) => err@ == expected,
                _ => false,
            },
    {
        rotate_plan(&self.rotation.log_to_rename().base, self.config.naming, files, self.now)
    }

    /// The sheep to reopen.
    pub fn sheep_to_reopen(&self) -> (r: &String)
        requires
            self.wf(),
            self.progress().step == Step::Reopen,
        ensures
            r@ == self.progress().groups[self.progress().position].name,
    {
        self.rotation.sheep_to_reopen()
    }

    /// Tells how what was waited for went, and goes on.
    pub fn tell(&mut self, outcome: Result<(), String>)
        requires
            old(self).wf(),
        ensures
            final(self).wf(),
            final(self).config() == old(self).config(),
            final(self).entries() == old(self).entries(),
            final(self).sight() == old(self).sight(),
            final(self).progress() == old(self).progress().told(
                match outcome {
                    Ok(_) => None,
                    Err(why) => Some(why@),
                },
            ),
    {
        self.rotation.tell(outcome);
    }

    /// Goes on to compress and prune what may be.
    pub fn finish(self) -> (r: Pruning)
        requires
            self.wf(),
        ensures
            r.wf(),
            r.config() == self.config(),
            r.protected() == self.progress().protected,
            r.progress().logs == self.progress().tidy_list(),
            r.progress().next == 0,
            !r.progress().over,
            reports(r.report(), self.progress()),
            r.progress().tally == tally_of(r.report()),
            r.progress().tally == nothing(),
            r.report().skipped == skipped(self.entries(), self.sight()),
            texts(r.report().unlistable@) == faults_of(self.sight().listings),
    {
        let logs = self.rotation.logs_to_tidy();
        let (report, protected) = self.rotation.into_report(self.skipped, self.unlistable);
        proof {
            assert(tally_of(report) =~= nothing());
        }
        Pruning { config: self.config, protected, tidying: Tidying::new(logs, report) }
    }
}

/// A pass that compresses and prunes.
pub struct Pruning {
    config: Config,
    protected: FileSet,
    tidying: Tidying,
}

impl Pruning {
    /// Whether the log whose turn it is is one.
    pub closed spec fn wf(&self) -> bool {
        self.tidying.wf()
    }

    /// The settings.
    pub closed spec fn config(&self) -> Config {
        self.config
    }

    /// The live logs of the whole flock.
    pub closed spec fn protected(&self) -> Set<FileId> {
        self.protected@
    }

    /// How far the compressing and pruning has come.
    pub closed spec fn progress(&self) -> TidyProgress {
        self.tidying@
    }

    /// The report so far.
    pub closed spec fn report(&self) -> Report {
        self.tidying.report()
    }

    /// The log whose turn it is, unless a stop has been asked for.
    pub fn ask(&mut self, stop_requested: bool) -> (r: Option<Log>)
        requires
            old(self).wf(),
        ensures
            final(self).wf(),
            final(self).config() == old(self).config(),
            final(self).protected() == old(self).protected(),
            final(self).report() == old(self).report(),
            final(self).progress() == old(self).progress().asked(stop_requested),
            r is None <==> final(self).progress().over,
            r matches Some(log) ==> {
                let progress = final(self).progress();
                progress.next < progress.logs.len() && log@ == progress.logs[progress.next]
            },
    {
        self.tidying.ask(stop_requested)
    }

    /// What to do with the generations of `log`, of which `files` are the
    /// regular files of its directory.
    pub fn chores(&self, log: &Log, files: &Vec<DirFile>) -> (r: Vec<Chore>)
        ensures
            r@ == (Rules {
                base: log@.base,
                dir: log@.dir,
                keep: self.config().keep as nat,
                compress: self.config().compress,
                protected: self.protected(),
            }).chores(held(files@, log@.base, self.config().naming)),
    {
        tidy_plan(files, &log.base, log.dir, &self.config, &self.protected)
    }

    /// Whether the counts that `turn` brings can be added to those of the
    /// report.
    pub fn has_room(&self, turn: &Turn) -> (r: bool)
        ensures
            r == (turn matches Turn::Tidied(tidied) ==> {
                let tally = self.progress().tally;
                &&& tally.compressed + tidied.compressed <= usize::MAX
                &&& tally.deleted + tidied.deleted <= usize::MAX
                &&& tally.skipped_protected + tidied.skipped_protected <= usize::MAX
            }),
    {
        match turn {
            Turn::Tidied(tidied) => self.tidying.has_room(tidied),
            Turn::Failed(_) => true,
            Turn::Stopped => true,
        }
    }

    /// Tells how the turn of the log that was asked for ended.
    pub fn tell(&mut self, turn: Turn)
        requires
            old(self).wf(),
            old(self).progress().over || old(self).progress().next
                < old(self).progress().logs.len(),
            turn matches Turn::Tidied(tidied) ==> {
                let tally = old(self).progress().tally;
                &&& tally.compressed + tidied.compressed <= usize::MAX
                &&& tally.deleted + tidied.deleted <= usize::MAX
                &&& tally.skipped_protected + tidied.skipped_protected <= usize::MAX
            },
        ensures
            final(self).wf(),
            final(self).config() == old(self).config(),
            final(self).protected() == old(self).protected(),
            final(self).progress() == old(self).progress().told(turn@),
            same_but_tidying(final(self).report(), old(self).report()),
    {
        self.tidying.tell(turn);
    }

    /// The settings that the pass went by, and what it did.
    pub fn into_report(self) -> (r: (Config, Report))
        ensures
            r.0 == self.config(),
            r.1 == self.report(),
            tally_of(r.1) == self.progress().tally,
    {
        (self.config, self.tidying.into_report())
    }
}

/// A pass goes by each file once, the directories whose listing matters to one
/// of them, and what it was given.
pub proof fn a_pass_goes_by_what_it_was_given(
    entries: Seq<Entry>,
    seen: Seq<Option<Metadata>>,
    listings: Seq<Result<Vec<DirFile>, String>>,
    config: Config,
    now: Moment,
)
    ensures
        ({
            let sight = sight_of(entries, seen, listings, config, now);
            &&& sight.logs == first_logs(entries)
            &&& sight.seen == seen
            &&& sight.dirs == dirs_needed(sight.logs, seen, config)
            &&& sight.listings == listings
            &&& sight.config == config
            &&& sight.now == now
        }),
{
}

/// What a pass decides about a file that was seen goes by what was seen of it and
/// by the settings, at the time of the pass. If only its age can decide, it goes
/// by the listing of its directory too.
pub proof fn a_pass_judges_every_file_it_saw(
    entries: Seq<Entry>,
    seen: Seq<Option<Metadata>>,
    listings: Seq<Result<Vec<DirFile>, String>>,
    config: Config,
    now: Moment,
    i: int,
)
    requires
        0 <= i < first_logs(entries).len(),
        seen.len() == first_logs(entries).len(),
        seen[i] is Some,
    ensures
        ({
            let sight = sight_of(entries, seen, listings, config, now);
            let log = first_logs(entries)[i];
            &&& sight.verdict(log.file()) == qualified(
                log.base,
                seen[i]->0,
                config,
                now,
                sight.listing(log.dir),
            )
            &&& age_decides(seen[i]->0, config) ==> exists|k: int|
                0 <= k < sight.dirs.len() && #[trigger] sight.dirs[k] == log.dir && sight.listing(
                    log.dir,
                ) == (match listings[k] {
                    Ok(files) => Some(files@),
                    Err(_) => None,
                })
        }),
{
    let sight = sight_of(entries, seen, listings, config, now);
    let logs = first_logs(entries);
    let log = logs[i];
    position_is_first(logs, log.file());
    let j = position_of(logs, log.file())->0;
    if j < i {
        no_file_is_looked_at_twice(entries, j, i);
    }
    if age_decides(seen[i]->0, config) {
        directories_are_listed_as_their_first_log_spells_them(logs, seen, config);
        assert(logs[i].dir == log.dir);
        assert(sight.dirs.contains(log.dir));
        dir_position_is_one(sight.dirs, log.dir);
        let k = dir_position(sight.dirs, log.dir)->0;
        assert(sight.dirs[k] == log.dir);
    }
}

} // verus!
