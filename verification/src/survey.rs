//! Looking over the whole flock before anything is renamed.
//!
//! Every file is looked at once and every directory is listed at most once,
//! however many sheep write there, so that two sheep sharing a log agree on
//! whether it rotates.

use vstd::prelude::*;

use crate::config::Config;
use crate::flock::{log_views, member_of_push, same_log, texts, Entry, FileId, Log, LogView};
use crate::qualify::{
    age_decides, needs_listing, qualified, qualifies, DirFile, Metadata, Moment, Verdict,
};
use crate::text::{as_many, how_many, same};

verus! {

/// The position of the first of `logs` that leads to `file`.
pub open spec fn position_of(logs: Seq<LogView>, file: FileId) -> Option<int>
    decreases logs.len(),
{
    if logs.len() == 0 {
        None
    } else {
        match position_of(logs.drop_last(), file) {
            Some(i) => Some(i),
            None => if logs.last().file() == file {
                Some(logs.len() - 1)
            } else {
                None
            },
        }
    }
}

/// A position that is found is one, and the first.
pub proof fn position_is_first(logs: Seq<LogView>, file: FileId)
    ensures
        match position_of(logs, file) {
            Some(i) => 0 <= i < logs.len() && logs[i].file() == file && forall|j: int|
                0 <= j < i ==> (#[trigger] logs[j]).file() != file,
            None => forall|j: int| 0 <= j < logs.len() ==> (#[trigger] logs[j]).file() != file,
        },
    decreases logs.len(),
{
    if logs.len() > 0 {
        position_is_first(logs.drop_last(), file);
        assert forall|j: int| 0 <= j < logs.len() - 1 implies #[trigger] logs[j]
            == logs.drop_last()[j] by {}
    }
}

/// The position of the first of `logs` that leads to the file of `log`.
pub fn find_file(logs: &Vec<Log>, log: &Log) -> (r: Option<usize>)
    ensures
        match r {
            Some(i) => position_of(log_views(logs@), log@.file()) == Some(i as int) && i
                < logs@.len(),
            None => position_of(log_views(logs@), log@.file()) is None,
        },
{
    let name = log.base.live_name();
    let ghost all = log_views(logs@);
    let mut i: usize = 0;
    proof {
        assert(all.take(0).len() == 0);
    }
    while i < logs.len()
        invariant
            i <= logs@.len(),
            all == log_views(logs@),
            name@ == log@.base.live(),
            position_of(all.take(i as int), log@.file()) is None,
        decreases logs.len() - i,
    {
        proof {
            assert(all.take(i + 1).drop_last() =~= all.take(i as int));
            assert(all.take(i + 1).last() == logs@[i as int]@);
        }
        if logs[i].dir == log.dir && same(logs[i].base.live_name().as_str(), name.as_str()) {
            proof {
                found_stays_found(all, i + 1, log@.file());
            }
            return Some(i);
        }
        i += 1;
    }
    proof {
        assert(all.take(logs@.len() as int) =~= all);
    }
    None
}

/// What is found among the first few is found among all.
proof fn found_stays_found(logs: Seq<LogView>, n: int, file: FileId)
    requires
        0 <= n <= logs.len(),
        position_of(logs.take(n), file) is Some,
    ensures
        position_of(logs, file) == position_of(logs.take(n), file),
    decreases logs.len(),
{
    if n == logs.len() {
        assert(logs.take(n) =~= logs);
    } else {
        assert(logs.drop_last().take(n) =~= logs.take(n));
        found_stays_found(logs.drop_last(), n, file);
    }
}

/// The logs of the flock, one for each file: the first path that leads to it.
pub open spec fn first_logs(entries: Seq<Entry>) -> Seq<LogView>
    decreases entries.len(),
{
    if entries.len() == 0 {
        Seq::empty()
    } else {
        let before = first_logs(entries.drop_last());
        match entries.last().log {
            Some(log) => if position_of(before, log@.file()) is None {
                before.push(log@)
            } else {
                before
            },
            None => before,
        }
    }
}

/// The logs to look at, one for each file.
pub fn distinct_logs(entries: &Vec<Entry>) -> (logs: Vec<Log>)
    ensures
        log_views(logs@) == first_logs(entries@),
{
    let mut logs: Vec<Log> = Vec::new();
    let mut i: usize = 0;
    proof {
        assert(log_views(logs@) =~= first_logs(entries@.take(0)));
    }
    while i < entries.len()
        invariant
            i <= entries@.len(),
            log_views(logs@) == first_logs(entries@.take(i as int)),
        decreases entries.len() - i,
    {
        proof {
            assert(entries@.take(i + 1).drop_last() =~= entries@.take(i as int));
        }
        if let Some(log) = &entries[i].log {
            if find_file(&logs, log).is_none() {
                let ghost before = log_views(logs@);
                logs.push(log.clone());
                proof {
                    assert(log_views(logs@) =~= before.push(log@));
                }
            }
        }
        i += 1;
    }
    proof {
        assert(entries@.take(entries@.len() as int) =~= entries@);
    }
    logs
}

/// No file is looked at twice.
pub proof fn no_file_is_looked_at_twice(entries: Seq<Entry>, i: int, j: int)
    requires
        0 <= i < j < first_logs(entries).len(),
    ensures
        first_logs(entries)[i].file() != first_logs(entries)[j].file(),
    decreases entries.len(),
{
    let before = first_logs(entries.drop_last());
    if j < before.len() {
        no_file_is_looked_at_twice(entries.drop_last(), i, j);
    } else {
        position_is_first(before, entries.last().log->0@.file());
    }
}

/// Every file that a sheep writes to is looked at.
pub proof fn every_file_is_looked_at(entries: Seq<Entry>, i: int)
    requires
        0 <= i < entries.len(),
        entries[i].log is Some,
    ensures
        position_of(first_logs(entries), entries[i].log->0@.file()) is Some,
    decreases entries.len(),
{
    let file = entries[i].log->0@.file();
    let before = first_logs(entries.drop_last());
    let after = first_logs(entries);
    if i < entries.len() - 1 {
        assert(entries.drop_last()[i] == entries[i]);
        every_file_is_looked_at(entries.drop_last(), i);
        if after.len() > before.len() {
            assert(after.drop_last() =~= before);
        }
    } else if after.len() > before.len() {
        assert(after.drop_last() =~= before);
    }
}

/// A log directory that has to be listed.
#[derive(Debug, Clone, PartialEq, Eq)]
pub struct Place {
    /// Its number.
    pub dir: u64,
    /// A path that leads to it.
    pub path: String,
}

/// A [`Place`] with its path as a character sequence.
#[verifier::ext_equal]
pub struct PlaceView {
    /// Its number.
    pub dir: u64,
    /// A path that leads to it.
    pub path: Seq<char>,
}

impl View for Place {
    type V = PlaceView;

    open spec fn view(&self) -> PlaceView {
        PlaceView { dir: self.dir, path: self.path@ }
    }
}

/// The directories, with their paths as character sequences.
pub open spec fn place_views(places: Seq<Place>) -> Seq<PlaceView> {
    places.map_values(|place: Place| place@)
}

/// The numbers of the directories.
pub open spec fn numbers(places: Seq<Place>) -> Seq<u64> {
    places.map_values(|place: Place| place.dir)
}

/// The directories that hold a log about which only age decides, each once, in
/// the order in which the first such log of each comes.
pub open spec fn dirs_needed(
    logs: Seq<LogView>,
    seen: Seq<Option<Metadata>>,
    config: Config,
) -> Seq<u64>
    decreases logs.len(),
{
    if logs.len() == 0 {
        Seq::empty()
    } else {
        let n = logs.len() - 1;
        let before = dirs_needed(logs.drop_last(), seen, config);
        match seen[n] {
            Some(metadata) => if age_decides(metadata, config) && !before.contains(logs[n].dir) {
                before.push(logs[n].dir)
            } else {
                before
            },
            None => before,
        }
    }
}

/// The directories that have to be listed, each under the path of the first
/// log in it about which only age decides, as that path was spelled.
pub open spec fn places_needed(
    logs: Seq<LogView>,
    seen: Seq<Option<Metadata>>,
    config: Config,
) -> Seq<PlaceView>
    decreases logs.len(),
{
    if logs.len() == 0 {
        Seq::empty()
    } else {
        let n = logs.len() - 1;
        let log = logs[n];
        let before = places_needed(logs.drop_last(), seen, config);
        match seen[n] {
            Some(metadata) => if age_decides(metadata, config) && !dirs_needed(
                logs.drop_last(),
                seen,
                config,
            ).contains(log.dir) {
                before.push(PlaceView { dir: log.dir, path: log.base.dir })
            } else {
                before
            },
            None => before,
        }
    }
}

/// The directories that have to be listed before the logs in them can be
/// judged by age.
pub fn dirs_to_list(logs: &Vec<Log>, seen: &Vec<Option<Metadata>>, config: &Config) -> (places: Vec<
    Place,
>)
    requires
        seen@.len() == logs@.len(),
    ensures
        numbers(places@) == dirs_needed(log_views(logs@), seen@, *config),
        place_views(places@) == places_needed(log_views(logs@), seen@, *config),
{
    let mut places: Vec<Place> = Vec::new();
    let ghost all = log_views(logs@);
    let mut i: usize = 0;
    proof {
        assert(numbers(places@) =~= dirs_needed(all.take(0), seen@, *config));
        assert(place_views(places@) =~= places_needed(all.take(0), seen@, *config));
    }
    while i < logs.len()
        invariant
            i <= logs@.len(),
            seen@.len() == logs@.len(),
            all == log_views(logs@),
            numbers(places@) == dirs_needed(all.take(i as int), seen@, *config),
            place_views(places@) == places_needed(all.take(i as int), seen@, *config),
        decreases logs.len() - i,
    {
        proof {
            assert(all.take(i + 1).drop_last() =~= all.take(i as int));
            assert(all.take(i + 1)[i as int] == logs@[i as int]@);
        }
        if let Some(metadata) = &seen[i] {
            if needs_listing(metadata, config) && find_dir(&places, logs[i].dir).is_none() {
                let ghost before = places@;
                let place = Place { dir: logs[i].dir, path: logs[i].base.dir.clone() };
                places.push(place);
                proof {
                    assert(numbers(places@) =~= numbers(before).push(logs@[i as int].dir));
                    assert(place_views(places@) =~= place_views(before).push(place@));
                }
            }
        }
        i += 1;
    }
    proof {
        assert(all.take(logs@.len() as int) =~= all);
    }
    places
}

/// The log at `j` is the first in its directory about which only age decides.
pub open spec fn is_first_to_age(
    logs: Seq<LogView>,
    seen: Seq<Option<Metadata>>,
    config: Config,
    j: int,
) -> bool {
    &&& 0 <= j < logs.len()
    &&& seen[j] matches Some(metadata) && age_decides(metadata, config)
    &&& forall|k: int|
        0 <= k < j && (#[trigger] logs[k]).dir == logs[j].dir ==> !(seen[k] matches Some(metadata)
            && age_decides(metadata, config))
}

/// Every directory is listed under the path of the first log in it about which
/// only age decides, and every such log has its directory listed.
pub proof fn directories_are_listed_as_their_first_log_spells_them(
    logs: Seq<LogView>,
    seen: Seq<Option<Metadata>>,
    config: Config,
)
    ensures
        places_needed(logs, seen, config).len() == dirs_needed(logs, seen, config).len(),
        forall|i: int|
            0 <= i < places_needed(logs, seen, config).len() ==> (#[trigger] places_needed(
                logs,
                seen,
                config,
            )[i]).dir == dirs_needed(logs, seen, config)[i] && exists|j: int|
                #![trigger logs[j]]
                is_first_to_age(logs, seen, config, j) && logs[j].dir == places_needed(
                    logs,
                    seen,
                    config,
                )[i].dir && logs[j].base.dir == places_needed(logs, seen, config)[i].path,
        forall|j: int|
            0 <= j < logs.len() && (seen[j] matches Some(metadata) && age_decides(
                metadata,
                config,
            )) ==> dirs_needed(logs, seen, config).contains((#[trigger] logs[j]).dir),
    decreases logs.len(),
{
    if logs.len() > 0 {
        let n = logs.len() - 1;
        let fewer = logs.drop_last();
        let before = places_needed(fewer, seen, config);
        let now = places_needed(logs, seen, config);
        let dirs = dirs_needed(logs, seen, config);
        directories_are_listed_as_their_first_log_spells_them(fewer, seen, config);
        assert forall|i: int| 0 <= i < now.len() implies (#[trigger] now[i]).dir == dirs[i]
            && exists|j: int|
            #![trigger logs[j]]
            is_first_to_age(logs, seen, config, j) && logs[j].dir == now[i].dir
                && logs[j].base.dir == now[i].path by {
            if i < before.len() {
                assert(now[i] == before[i]);
                let j = choose|j: int|
                    #![trigger fewer[j]]
                    is_first_to_age(fewer, seen, config, j) && fewer[j].dir == before[i].dir
                        && fewer[j].base.dir == before[i].path;
                assert(logs[j] == fewer[j]);
                assert forall|k: int| 0 <= k < j && (#[trigger] logs[k]).dir == logs[j].dir implies !(
                seen[k] matches Some(metadata) && age_decides(metadata, config)) by {
                    assert(fewer[k] == logs[k]);
                }
                assert(is_first_to_age(logs, seen, config, j));
            } else {
                assert forall|k: int| 0 <= k < n && (#[trigger] logs[k]).dir == logs[n].dir implies !(
                seen[k] matches Some(metadata) && age_decides(metadata, config)) by {
                    assert(fewer[k] == logs[k]);
                }
                assert(is_first_to_age(logs, seen, config, n));
            }
        }
        assert forall|j: int|
            0 <= j < logs.len() && (seen[j] matches Some(metadata) && age_decides(
                metadata,
                config,
            )) implies dirs.contains((#[trigger] logs[j]).dir) by {
            let old_dirs = dirs_needed(fewer, seen, config);
            member_of_push(old_dirs, logs[n].dir, logs[j].dir);
            if j < n {
                assert(fewer[j] == logs[j]);
            }
        }
    }
}

/// The position of the first of `places` with the number `dir`.
pub open spec fn dir_position(dirs: Seq<u64>, dir: u64) -> Option<int>
    decreases dirs.len(),
{
    if dirs.len() == 0 {
        None
    } else {
        match dir_position(dirs.drop_last(), dir) {
            Some(i) => Some(i),
            None => if dirs.last() == dir {
                Some(dirs.len() - 1)
            } else {
                None
            },
        }
    }
}

/// A position that is found is one; a directory that is there is found.
pub proof fn dir_position_is_one(dirs: Seq<u64>, dir: u64)
    ensures
        match dir_position(dirs, dir) {
            Some(i) => 0 <= i < dirs.len() && dirs[i] == dir && dirs.contains(dir),
            None => !dirs.contains(dir),
        },
    decreases dirs.len(),
{
    if dirs.len() > 0 {
        dir_position_is_one(dirs.drop_last(), dir);
        assert(dirs =~= dirs.drop_last().push(dirs.last()));
        member_of_push(dirs.drop_last(), dirs.last(), dir);
    }
}

/// The position of the first of `places` with the number `dir`.
fn find_dir(places: &Vec<Place>, dir: u64) -> (r: Option<usize>)
    ensures
        match r {
            Some(i) => dir_position(numbers(places@), dir) == Some(i as int) && i < places@.len(),
            None => dir_position(numbers(places@), dir) is None,
        },
        r is Some <==> numbers(places@).contains(dir),
{
    let ghost all = numbers(places@);
    let mut i: usize = 0;
    proof {
        dir_position_is_one(all, dir);
        assert(all.take(0).len() == 0);
    }
    while i < places.len()
        invariant
            i <= places@.len(),
            all == numbers(places@),
            dir_position(all.take(i as int), dir) is None,
            match dir_position(all, dir) {
                Some(i) => 0 <= i < all.len() && all[i] == dir && all.contains(dir),
                None => !all.contains(dir),
            },
        decreases places.len() - i,
    {
        proof {
            assert(all.take(i + 1).drop_last() =~= all.take(i as int));
            assert(all.take(i + 1).last() == places@[i as int].dir);
        }
        if places[i].dir == dir {
            proof {
                dir_stays_found(all, i + 1, dir);
            }
            return Some(i);
        }
        i += 1;
    }
    proof {
        assert(all.take(places@.len() as int) =~= all);
    }
    None
}

/// What is found among the first few is found among all.
proof fn dir_stays_found(dirs: Seq<u64>, n: int, dir: u64)
    requires
        0 <= n <= dirs.len(),
        dir_position(dirs.take(n), dir) is Some,
    ensures
        dir_position(dirs, dir) == dir_position(dirs.take(n), dir),
    decreases dirs.len(),
{
    if n == dirs.len() {
        assert(dirs.take(n) =~= dirs);
    } else {
        assert(dirs.drop_last().take(n) =~= dirs.take(n));
        dir_stays_found(dirs.drop_last(), n, dir);
    }
}

/// No directory is listed twice, however many logs are in it.
pub proof fn no_directory_is_listed_twice(
    logs: Seq<LogView>,
    seen: Seq<Option<Metadata>>,
    config: Config,
    i: int,
    j: int,
)
    requires
        0 <= i < j < dirs_needed(logs, seen, config).len(),
    ensures
        dirs_needed(logs, seen, config)[i] != dirs_needed(logs, seen, config)[j],
    decreases logs.len(),
{
    let before = dirs_needed(logs.drop_last(), seen, config);
    if j < before.len() {
        no_directory_is_listed_twice(logs.drop_last(), seen, config, i, j);
    } else {
        assert(before.contains(before[i]));
    }
}

/// All that a survey goes by: the logs that were looked at with what was seen
/// of each, the directories that were listed with what each holds, the
/// settings, and the time.
pub struct Sight {
    /// The logs that were looked at.
    pub logs: Seq<LogView>,
    /// What was seen of each; `None` where there is no file.
    pub seen: Seq<Option<Metadata>>,
    /// The directories that were listed.
    pub dirs: Seq<u64>,
    /// What each of them holds, or why it could not be listed.
    pub listings: Seq<Result<Vec<DirFile>, String>>,
    /// The settings.
    pub config: Config,
    /// The time.
    pub now: Moment,
}

impl Sight {
    /// What a directory holds, if it was listed and the listing succeeded.
    pub open spec fn listing(self, dir: u64) -> Option<Seq<DirFile>> {
        match dir_position(self.dirs, dir) {
            Some(i) => match self.listings[i] {
                Ok(files) => Some(files@),
                Err(_) => None,
            },
            None => None,
        }
    }

    /// The verdict on a file. It is one verdict, however many sheep write to
    /// the file and however they spell its path.
    pub open spec fn verdict(self, file: FileId) -> Verdict {
        match position_of(self.logs, file) {
            Some(i) => match self.seen[i] {
                Some(metadata) => qualified(
                    self.logs[i].base,
                    metadata,
                    self.config,
                    self.now,
                    self.listing(self.logs[i].dir),
                ),
                None => Verdict::Skip,
            },
            None => Verdict::Skip,
        }
    }

    /// Whether what `entry` writes to is to be rotated.
    pub open spec fn rotates(self, entry: Entry) -> bool {
        entry.log matches Some(log) && self.verdict(log@.file()) == Verdict::Rotate
    }

    /// Whether `entry` could not be considered at all.
    pub open spec fn skips(self, entry: Entry) -> bool {
        entry.log matches Some(log) ==> self.verdict(log@.file()) == Verdict::Skip
    }
}

/// The logs of one sheep that are to be rotated.
#[derive(Debug, PartialEq, Eq)]
pub struct Group {
    /// The sheep.
    pub name: String,
    /// The logs.
    pub logs: Vec<Log>,
}

/// A [`Group`] with its strings as character sequences.
#[verifier::ext_equal]
pub struct GroupView {
    /// The sheep.
    pub name: Seq<char>,
    /// The logs.
    pub logs: Seq<LogView>,
}

impl View for Group {
    type V = GroupView;

    open spec fn view(&self) -> GroupView {
        GroupView { name: self.name@, logs: log_views(self.logs@) }
    }
}

/// The groups, with their strings as character sequences.
pub open spec fn group_views(groups: Seq<Group>) -> Seq<GroupView> {
    groups.map_values(|group: Group| group@)
}

/// The position of the first of `groups` that is called `name`.
pub open spec fn group_position(groups: Seq<GroupView>, name: Seq<char>) -> Option<int>
    decreases groups.len(),
{
    if groups.len() == 0 {
        None
    } else {
        match group_position(groups.drop_last(), name) {
            Some(i) => Some(i),
            None => if groups.last().name == name {
                Some(groups.len() - 1)
            } else {
                None
            },
        }
    }
}

/// A position that is found is one, and the only one if no name occurs twice.
pub proof fn group_position_is_first(groups: Seq<GroupView>, name: Seq<char>)
    ensures
        match group_position(groups, name) {
            Some(i) => 0 <= i < groups.len() && groups[i].name == name,
            None => forall|j: int| 0 <= j < groups.len() ==> (#[trigger] groups[j]).name != name,
        },
    decreases groups.len(),
{
    if groups.len() > 0 {
        group_position_is_first(groups.drop_last(), name);
        assert forall|j: int| 0 <= j < groups.len() - 1 implies #[trigger] groups[j]
            == groups.drop_last()[j] by {}
    }
}

/// The position of the first of `groups` that is called `name`.
fn find_group(groups: &Vec<Group>, name: &str) -> (r: Option<usize>)
    ensures
        match r {
            Some(i) => group_position(group_views(groups@), name@) == Some(i as int) && i
                < groups@.len(),
            None => group_position(group_views(groups@), name@) is None,
        },
{
    let ghost all = group_views(groups@);
    let mut i: usize = 0;
    proof {
        assert(all.take(0).len() == 0);
    }
    while i < groups.len()
        invariant
            i <= groups@.len(),
            all == group_views(groups@),
            group_position(all.take(i as int), name@) is None,
        decreases groups.len() - i,
    {
        proof {
            assert(all.take(i + 1).drop_last() =~= all.take(i as int));
            assert(all.take(i + 1).last() == groups@[i as int]@);
        }
        if same(groups[i].name.as_str(), name) {
            proof {
                group_stays_found(all, i + 1, name@);
            }
            return Some(i);
        }
        i += 1;
    }
    proof {
        assert(all.take(groups@.len() as int) =~= all);
    }
    None
}

/// What is found among the first few is found among all.
proof fn group_stays_found(groups: Seq<GroupView>, n: int, name: Seq<char>)
    requires
        0 <= n <= groups.len(),
        group_position(groups.take(n), name) is Some,
    ensures
        group_position(groups, name) == group_position(groups.take(n), name),
    decreases groups.len(),
{
    if n == groups.len() {
        assert(groups.take(n) =~= groups);
    } else {
        assert(groups.drop_last().take(n) =~= groups.take(n));
        group_stays_found(groups.drop_last(), n, name);
    }
}

/// `groups` with `log` among the logs of the sheep called `name`. Sheep stand
/// in the order in which they first had something to rotate, and no sheep has
/// a path twice.
pub open spec fn with_log(groups: Seq<GroupView>, name: Seq<char>, log: LogView) -> Seq<GroupView> {
    match group_position(groups, name) {
        Some(i) => if groups[i].logs.contains(log) {
            groups
        } else {
            groups.update(i, GroupView { name, logs: groups[i].logs.push(log) })
        },
        None => groups.push(GroupView { name, logs: seq![log] }),
    }
}

/// What there is to rotate, sheep by sheep.
pub open spec fn grouped(entries: Seq<Entry>, sight: Sight) -> Seq<GroupView>
    decreases entries.len(),
{
    if entries.len() == 0 {
        Seq::empty()
    } else {
        let before = grouped(entries.drop_last(), sight);
        if sight.rotates(entries.last()) {
            with_log(before, entries.last().sheep@, entries.last().log->0@)
        } else {
            before
        }
    }
}

/// How many paths could not be considered at all.
pub open spec fn skipped(entries: Seq<Entry>, sight: Sight) -> nat
    decreases entries.len(),
{
    if entries.len() == 0 {
        0
    } else {
        skipped(entries.drop_last(), sight) + if sight.skips(entries.last()) {
            1nat
        } else {
            0nat
        }
    }
}

/// Why directories could not be listed, once for each of them.
pub open spec fn faults_of(listings: Seq<Result<Vec<DirFile>, String>>) -> Seq<Seq<char>>
    decreases listings.len(),
{
    if listings.len() == 0 {
        Seq::empty()
    } else {
        let before = faults_of(listings.drop_last());
        match listings.last() {
            Ok(_) => before,
            Err(why) => before.push(why@),
        }
    }
}

/// What a look over the flock came to.
#[derive(Debug, PartialEq, Eq)]
pub struct Survey {
    /// What there is to rotate, sheep by sheep.
    pub groups: Vec<Group>,
    /// How many paths could not be considered at all.
    pub skipped: usize,
    /// Why directories could not be listed.
    pub unlistable: Vec<String>,
}

/// Adds `log` to the logs of the sheep called `name`.
fn add_log(groups: &mut Vec<Group>, name: &str, log: &Log)
    ensures
        group_views(final(groups)@) == with_log(group_views(old(groups)@), name@, log@),
{
    let ghost before = group_views(groups@);
    match find_group(groups, name) {
        Some(i) => {
            if !has_log(&groups[i].logs, log) {
                groups[i].logs.push(log.clone());
                proof {
                    let logs = before[i as int].logs.push(log@);
                    group_position_is_first(before, name@);
                    assert(log_views(groups@[i as int].logs@) =~= logs);
                    assert(group_views(groups@) =~= before.update(
                        i as int,
                        GroupView { name: name@, logs },
                    ));
                }
            }
        },
        None => {
            let mut logs: Vec<Log> = Vec::new();
            logs.push(log.clone());
            groups.push(Group { name: name.to_owned(), logs });
            proof {
                assert(log_views(logs@) =~= seq![log@]);
                assert(group_views(groups@) =~= before.push(
                    GroupView { name: name@, logs: seq![log@] },
                ));
            }
        },
    }
}

/// Whether `log` is one of `logs`.
fn has_log(logs: &Vec<Log>, log: &Log) -> (r: bool)
    ensures
        r == log_views(logs@).contains(log@),
{
    let ghost all = log_views(logs@);
    let mut i: usize = 0;
    while i < logs.len()
        invariant
            i <= logs@.len(),
            all == log_views(logs@),
            forall|j: int| 0 <= j < i ==> #[trigger] all[j] != log@,
        decreases logs.len() - i,
    {
        if same_log(&logs[i], log) {
            proof {
                assert(all[i as int] == log@);
            }
            return true;
        }
        proof {
            assert(all[i as int] == logs@[i as int]@);
        }
        i += 1;
    }
    false
}

/// The verdict on the file of `log`.
fn judge(
    log: &Log,
    logs: &Vec<Log>,
    seen: &Vec<Option<Metadata>>,
    places: &Vec<Place>,
    listings: &Vec<Result<Vec<DirFile>, String>>,
    config: &Config,
    now: Moment,
) -> (r: Verdict)
    requires
        seen@.len() == logs@.len(),
        listings@.len() == places@.len(),
    ensures
        r == (Sight {
            logs: log_views(logs@),
            seen: seen@,
            dirs: numbers(places@),
            listings: listings@,
            config: *config,
            now,
        }).verdict(log@.file()),
{
    match find_file(logs, log) {
        Some(i) => match &seen[i] {
            Some(metadata) => {
                let files: Option<&Vec<DirFile>> = match find_dir(places, logs[i].dir) {
                    Some(j) => match &listings[j] {
                        Ok(files) => Some(files),
                        Err(_) => None,
                    },
                    None => None,
                };
                proof {
                    assert(log_views(logs@)[i as int] == logs@[i as int]@);
                }
                qualifies(&logs[i].base, metadata, config, now, files)
            },
            None => Verdict::Skip,
        },
        None => Verdict::Skip,
    }
}

/// Judges every path of the flock, before anything is renamed.
///
/// `seen` is what was seen of each of `logs`, and `listings` what each of
/// `places` holds.
pub fn survey(
    entries: &Vec<Entry>,
    logs: &Vec<Log>,
    seen: &Vec<Option<Metadata>>,
    places: &Vec<Place>,
    listings: &Vec<Result<Vec<DirFile>, String>>,
    config: &Config,
    now: Moment,
) -> (r: Survey)
    requires
        seen@.len() == logs@.len(),
        listings@.len() == places@.len(),
    ensures
        ({
            let sight = Sight {
                logs: log_views(logs@),
                seen: seen@,
                dirs: numbers(places@),
                listings: listings@,
                config: *config,
                now,
            };
            &&& group_views(r.groups@) == grouped(entries@, sight)
            &&& r.skipped == skipped(entries@, sight)
            &&& texts(r.unlistable@) == faults_of(listings@)
        }),
{
    let ghost sight = Sight {
        logs: log_views(logs@),
        seen: seen@,
        dirs: numbers(places@),
        listings: listings@,
        config: *config,
        now,
    };
    let mut groups: Vec<Group> = Vec::new();
    let mut count: usize = 0;
    let mut i: usize = 0;
    proof {
        assert(group_views(groups@) =~= grouped(entries@.take(0), sight));
    }
    while i < entries.len()
        invariant
            i <= entries@.len(),
            seen@.len() == logs@.len(),
            listings@.len() == places@.len(),
            sight == (Sight {
                logs: log_views(logs@),
                seen: seen@,
                dirs: numbers(places@),
                listings: listings@,
                config: *config,
                now,
            }),
            group_views(groups@) == grouped(entries@.take(i as int), sight),
            count == skipped(entries@.take(i as int), sight),
            count <= i,
        decreases entries.len() - i,
    {
        proof {
            assert(entries@.take(i + 1).drop_last() =~= entries@.take(i as int));
        }
        match &entries[i].log {
            Some(log) => {
                match judge(log, logs, seen, places, listings, config, now) {
                    Verdict::Rotate => {
                        add_log(&mut groups, entries[i].sheep.as_str(), log);
                    },
                    Verdict::Leave => {},
                    Verdict::Skip => {
                        count += 1;
                    },
                }
            },
            None => {
                count += 1;
            },
        }
        i += 1;
    }
    proof {
        assert(entries@.take(entries@.len() as int) =~= entries@);
    }
    Survey { groups, skipped: count, unlistable: faults(listings) }
}

/// Why directories could not be listed, once for each of them.
fn faults(listings: &Vec<Result<Vec<DirFile>, String>>) -> (r: Vec<String>)
    ensures
        texts(r@) == faults_of(listings@),
{
    let mut r: Vec<String> = Vec::new();
    let mut i: usize = 0;
    proof {
        assert(texts(r@) =~= faults_of(listings@.take(0)));
    }
    while i < listings.len()
        invariant
            i <= listings@.len(),
            texts(r@) == faults_of(listings@.take(i as int)),
        decreases listings.len() - i,
    {
        proof {
            assert(listings@.take(i + 1).drop_last() =~= listings@.take(i as int));
        }
        if let Err(why) = &listings[i] {
            let ghost before = texts(r@);
            r.push(why.clone());
            proof {
                assert(texts(r@) =~= before.push(why@));
            }
        }
        i += 1;
    }
    proof {
        assert(listings@.take(listings@.len() as int) =~= listings@);
    }
    r
}

/// Whether `log` is among the logs of the sheep called `name`.
pub open spec fn in_groups(groups: Seq<GroupView>, name: Seq<char>, log: LogView) -> bool {
    exists|p: int|
        0 <= p < groups.len() && (#[trigger] groups[p]).name == name && groups[p].logs.contains(log)
}

/// Whether no two groups have one name.
pub open spec fn names_differ(groups: Seq<GroupView>) -> bool {
    forall|p: int, q: int|
        0 <= p < q < groups.len() ==> (#[trigger] groups[p]).name != (#[trigger] groups[q]).name
}

/// Adding a log adds that log, to that sheep, and nothing else.
proof fn adding_a_log(groups: Seq<GroupView>, name: Seq<char>, log: LogView)
    requires
        names_differ(groups),
    ensures
        names_differ(with_log(groups, name, log)),
        forall|n: Seq<char>, l: LogView| #[trigger]
            in_groups(with_log(groups, name, log), n, l) <==> in_groups(groups, n, l) || (n == name
                && l == log),
{
    let next = with_log(groups, name, log);
    group_position_is_first(groups, name);
    assert forall|n: Seq<char>, l: LogView| #[trigger]
        in_groups(next, n, l) <==> in_groups(groups, n, l) || (n == name && l == log) by {
        match group_position(groups, name) {
            Some(i) => {
                member_of_push(groups[i].logs, log, l);
                if in_groups(groups, n, l) {
                    let p = choose|p: int|
                        0 <= p < groups.len() && (#[trigger] groups[p]).name == n
                            && groups[p].logs.contains(l);
                    assert(next[p].name == n && next[p].logs.contains(l));
                }
                if in_groups(next, n, l) {
                    let p = choose|p: int|
                        0 <= p < next.len() && (#[trigger] next[p]).name == n
                            && next[p].logs.contains(l);
                    assert(groups[p].name == n);
                }
                if n == name && l == log {
                    member_of_push(groups[i].logs, log, log);
                    assert(next[i].name == n && next[i].logs.contains(l));
                }
            },
            None => {
                let added = GroupView { name, logs: seq![log] };
                assert(added.logs.contains(l) <==> l == log) by {
                    assert(added.logs[0] == log);
                }
                assert(next[groups.len() as int] == added);
                if in_groups(groups, n, l) {
                    let p = choose|p: int|
                        0 <= p < groups.len() && (#[trigger] groups[p]).name == n
                            && groups[p].logs.contains(l);
                    assert(next[p].name == n && next[p].logs.contains(l));
                }
                if in_groups(next, n, l) {
                    let p = choose|p: int|
                        0 <= p < next.len() && (#[trigger] next[p]).name == n
                            && next[p].logs.contains(l);
                    if p < groups.len() {
                        assert(groups[p] == next[p]);
                    }
                }
            },
        }
    }
    assert(names_differ(next)) by {
        assert forall|p: int, q: int| 0 <= p < q < next.len() implies (#[trigger] next[p]).name != (
        #[trigger] next[q]).name by {
            if q < groups.len() {
                assert(groups[p].name != groups[q].name);
                assert(next[p].name == groups[p].name);
                assert(next[q].name == groups[q].name);
            } else {
                assert(next[p] == groups[p]);
            }
        }
    }
}

/// Whether some path of the sheep called `name` is `log`, and to be rotated.
pub open spec fn has_to_rotate(
    entries: Seq<Entry>,
    sight: Sight,
    name: Seq<char>,
    log: LogView,
) -> bool {
    exists|i: int|
        0 <= i < entries.len() && sight.rotates(#[trigger] entries[i]) && entries[i].sheep@ == name
            && entries[i].log->0@ == log
}

/// No sheep is in two groups, and the groups hold, sheep by sheep, the logs
/// that are to be rotated, and no others.
pub proof fn the_groups_are_what_rotates(
    entries: Seq<Entry>,
    sight: Sight,
    name: Seq<char>,
    log: LogView,
)
    ensures
        names_differ(grouped(entries, sight)),
        in_groups(grouped(entries, sight), name, log) <==> has_to_rotate(
            entries,
            sight,
            name,
            log,
        ),
    decreases entries.len(),
{
    if entries.len() > 0 {
        let before = entries.drop_last();
        let last = entries.last();
        the_groups_are_what_rotates(before, sight, name, log);
        if sight.rotates(last) {
            adding_a_log(grouped(before, sight), last.sheep@, last.log->0@);
        }
        if has_to_rotate(before, sight, name, log) {
            let i = choose|i: int|
                0 <= i < before.len() && sight.rotates(#[trigger] before[i]) && before[i].sheep@
                    == name && before[i].log->0@ == log;
            assert(entries[i] == before[i]);
        }
        if has_to_rotate(entries, sight, name, log) {
            let i = choose|i: int|
                0 <= i < entries.len() && sight.rotates(#[trigger] entries[i]) && entries[i].sheep@
                    == name && entries[i].log->0@ == log;
            if i < before.len() {
                assert(before[i] == entries[i]);
            }
        }
        assert(entries[entries.len() - 1] == last);
    }
}

/// Two sheep that share a file agree on whether it rotates.
pub proof fn sheep_that_share_a_file_agree(sight: Sight, a: Entry, b: Entry)
    requires
        a.log is Some,
        b.log is Some,
        a.log->0@.file() == b.log->0@.file(),
    ensures
        sight.rotates(a) == sight.rotates(b),
        sight.skips(a) == sight.skips(b),
{
}

/// Whether the sheep of `entries[e]` is called `name` and has something there
/// to rotate.
pub open spec fn rotates_at(
    entries: Seq<Entry>,
    sight: Sight,
    name: Seq<char>,
    e: int,
) -> bool {
    0 <= e < entries.len() && sight.rotates(entries[e]) && entries[e].sheep@ == name
}

/// Every group has an entry for which it is there.
proof fn a_group_has_its_entry(entries: Seq<Entry>, sight: Sight, p: int)
    requires
        0 <= p < grouped(entries, sight).len(),
    ensures
        exists|e: int| #[trigger]
            rotates_at(entries, sight, grouped(entries, sight)[p].name, e),
    decreases entries.len(),
{
    let before = entries.drop_last();
    let n = entries.len() - 1;
    let old_groups = grouped(before, sight);
    let name = grouped(entries, sight)[p].name;
    group_position_is_first(old_groups, entries.last().sheep@);
    if p < old_groups.len() {
        assert(old_groups[p].name == name);
        a_group_has_its_entry(before, sight, p);
        let e = choose|e: int| #[trigger] rotates_at(before, sight, name, e);
        assert(entries[e] == before[e]);
        assert(rotates_at(entries, sight, name, e));
    } else {
        assert(entries[n] == entries.last());
        assert(rotates_at(entries, sight, name, n));
    }
}

/// The groups stand in the order of the flock: before a sheep has anything to
/// rotate, every sheep whose group stands before its own has had something.
pub proof fn the_groups_stand_in_flock_order(
    entries: Seq<Entry>,
    sight: Sight,
    p: int,
    q: int,
    e: int,
)
    requires
        0 <= p < q < grouped(entries, sight).len(),
        rotates_at(entries, sight, grouped(entries, sight)[q].name, e),
    ensures
        exists|d: int|
            d < e && #[trigger] rotates_at(entries, sight, grouped(entries, sight)[p].name, d),
    decreases entries.len(),
{
    let before = entries.drop_last();
    let n = entries.len() - 1;
    let groups = grouped(entries, sight);
    let old_groups = grouped(before, sight);
    let last = entries.last();
    assert(entries[n] == last);
    group_position_is_first(old_groups, last.sheep@);
    assert(p < old_groups.len());
    assert(old_groups[p].name == groups[p].name);
    if e < n && q < old_groups.len() {
        assert(old_groups[q].name == groups[q].name);
        assert(before[e] == entries[e]);
        assert(rotates_at(before, sight, old_groups[q].name, e));
        the_groups_stand_in_flock_order(before, sight, p, q, e);
        let d = choose|d: int|
            d < e && #[trigger] rotates_at(before, sight, old_groups[p].name, d);
        assert(entries[d] == before[d]);
        assert(rotates_at(entries, sight, groups[p].name, d));
    } else if e < n {
        // A sheep whose group is new has had nothing to rotate before.
        let name = groups[q].name;
        let log = entries[e].log->0@;
        assert(before[e] == entries[e]);
        assert(has_to_rotate(before, sight, name, log));
        the_groups_are_what_rotates(before, sight, name, log);
        assert(in_groups(old_groups, name, log));
        assert(false);
    } else {
        a_group_has_its_entry(before, sight, p);
        let d = choose|d: int| #[trigger] rotates_at(before, sight, old_groups[p].name, d);
        assert(entries[d] == before[d]);
        assert(rotates_at(entries, sight, groups[p].name, d));
    }
}

/// Each log that is looked at is the first path of the flock that leads to its
/// file.
pub proof fn a_file_is_looked_at_by_its_first_path(entries: Seq<Entry>, k: int)
    requires
        0 <= k < first_logs(entries).len(),
    ensures
        exists|e: int| #[trigger] is_first_path(entries, first_logs(entries)[k], e),
    decreases entries.len(),
{
    let fewer = entries.drop_last();
    let before = first_logs(fewer);
    let log = first_logs(entries)[k];
    let n = entries.len() - 1;
    if k < before.len() {
        assert(before[k] == log);
        a_file_is_looked_at_by_its_first_path(fewer, k);
        let e = choose|e: int| #[trigger] is_first_path(fewer, log, e);
        assert(entries[e] == fewer[e]);
        assert forall|d: int| 0 <= d < e && (#[trigger] entries[d]).log is Some implies entries[d].log->0@.file()
            != log.file() by {
            assert(fewer[d] == entries[d]);
        }
        assert(is_first_path(entries, log, e));
    } else {
        assert(entries[n] == entries.last());
        position_is_first(before, log.file());
        assert forall|d: int| 0 <= d < n && (#[trigger] entries[d]).log is Some implies entries[d].log->0@.file()
            != log.file() by {
            assert(fewer[d] == entries[d]);
            every_file_is_looked_at(fewer, d);
            position_is_first(before, entries[d].log->0@.file());
        }
        assert(is_first_path(entries, log, n));
    }
}

/// Whether the path of `entries[e]` is `log`, and no path before it leads to the
/// same file.
pub open spec fn is_first_path(entries: Seq<Entry>, log: LogView, e: int) -> bool {
    &&& 0 <= e < entries.len()
    &&& entries[e].log is Some && entries[e].log->0@ == log
    &&& forall|d: int|
        0 <= d < e && (#[trigger] entries[d]).log is Some ==> entries[d].log->0@.file()
            != log.file()
}

/// A path more is looked at behind all others, if no other leads to its file.
pub proof fn a_path_more_is_looked_at_last(entries: Seq<Entry>, more: Entry)
    ensures
        ({
            let before = first_logs(entries);
            let now = first_logs(entries.push(more));
            let is_new = more.log is Some && forall|i: int|
                0 <= i < before.len() ==> (#[trigger] before[i]).file() != more.log->0@.file();
            now == if is_new {
                before.push(more.log->0@)
            } else {
                before
            }
        }),
        first_logs(Seq::empty()).len() == 0,
{
    assert(entries.push(more).drop_last() =~= entries);
    if let Some(log) = more.log {
        position_is_first(first_logs(entries), log@.file());
    }
}

/// What is decided about a file is decided by what was seen of it and by what
/// its own directory holds; a file that was not looked at, or not found, is
/// skipped.
pub proof fn a_file_is_judged_by_what_was_seen_of_it(sight: Sight, i: int, file: FileId)
    requires
        0 <= i < sight.logs.len(),
        forall|j: int, k: int|
            0 <= j < k < sight.logs.len() ==> (#[trigger] sight.logs[j]).file() != (
            #[trigger] sight.logs[k]).file(),
        forall|j: int| 0 <= j < sight.logs.len() ==> (#[trigger] sight.logs[j]).file() != file,
    ensures
        sight.seen[i] is None ==> sight.verdict(sight.logs[i].file()) == Verdict::Skip,
        sight.seen[i] matches Some(metadata) ==> sight.verdict(sight.logs[i].file()) == qualified(
            sight.logs[i].base,
            metadata,
            sight.config,
            sight.now,
            sight.listing(sight.logs[i].dir),
        ),
        sight.verdict(file) == Verdict::Skip,
{
    position_is_first(sight.logs, sight.logs[i].file());
    position_is_first(sight.logs, file);
    let j = position_of(sight.logs, sight.logs[i].file())->0;
    if j < i {
        assert(sight.logs[j].file() != sight.logs[i].file());
    }
}

/// What a directory holds is what its own listing says, if it could be listed;
/// of one that was not listed nothing is known.
pub proof fn a_directory_holds_what_its_listing_says(sight: Sight, i: int, dir: u64)
    requires
        0 <= i < sight.dirs.len(),
        forall|j: int, k: int|
            0 <= j < k < sight.dirs.len() ==> #[trigger] sight.dirs[j] != #[trigger] sight.dirs[k],
        !sight.dirs.contains(dir),
    ensures
        sight.listings[i] matches Ok(files) ==> sight.listing(sight.dirs[i]) == Some(files@),
        sight.listings[i] is Err ==> sight.listing(sight.dirs[i]) is None,
        sight.listing(dir) is None,
{
    dir_position_is_one(sight.dirs, sight.dirs[i]);
    dir_position_is_one(sight.dirs, dir);
    assert(sight.dirs.contains(sight.dirs[i]));
    let j = dir_position(sight.dirs, sight.dirs[i])->0;
    if j < i {
        assert(sight.dirs[j] != sight.dirs[i]);
    } else if i < j {
        assert(sight.dirs[i] != sight.dirs[j]);
    }
}

/// A path is to be rotated if its file is, and is skipped if its file is or if it
/// cannot be spelled; and never both.
pub proof fn a_path_goes_with_its_file(sight: Sight, entry: Entry)
    ensures
        sight.rotates(entry) <==> entry.log is Some && sight.verdict(entry.log->0@.file())
            == Verdict::Rotate,
        sight.skips(entry) <==> entry.log is None || sight.verdict(entry.log->0@.file())
            == Verdict::Skip,
        !(sight.rotates(entry) && sight.skips(entry)),
{
}

/// Every path that is skipped is counted, and once.
pub proof fn every_skipped_path_is_counted(entries: Seq<Entry>, sight: Sight)
    ensures
        skipped(entries, sight) == how_many(
            entries.len(),
            |i: int|
                entries[i].log is None || sight.verdict(entries[i].log->0@.file())
                    == Verdict::Skip,
        ),
    decreases entries.len(),
{
    if entries.len() > 0 {
        let before = entries.drop_last();
        every_skipped_path_is_counted(before, sight);
        as_many(
            before.len(),
            |i: int|
                before[i].log is None || sight.verdict(before[i].log->0@.file()) == Verdict::Skip,
            |i: int|
                entries[i].log is None || sight.verdict(entries[i].log->0@.file())
                    == Verdict::Skip,
        );
    }
}

/// Every directory that could not be listed is told, with its own message, in
/// order, and no other is.
pub proof fn every_unlistable_directory_is_told(
    listings: Seq<Result<Vec<DirFile>, String>>,
    k: int,
)
    ensures
        faults_of(listings).len() == how_many(listings.len(), |i: int| listings[i] is Err),
        0 <= k < listings.len() && listings[k] is Err ==> {
            let earlier = how_many(k as nat, |i: int| listings[i] is Err);
            earlier < faults_of(listings).len() && faults_of(listings)[earlier as int]
                == listings[k]->Err_0@
        },
    decreases listings.len(),
{
    if listings.len() > 0 {
        let before = listings.drop_last();
        every_unlistable_directory_is_told(before, k);
        as_many(before.len(), |i: int| before[i] is Err, |i: int| listings[i] is Err);
        if 0 <= k < listings.len() {
            as_many(k as nat, |i: int| before[i] is Err, |i: int| listings[i] is Err);
        }
    }
}

/// A path more changes nothing of the groups but that its log is added, behind
/// those of its sheep, unless it is there already; a sheep that had none stands
/// behind all others.
pub proof fn a_path_more_adds_its_log(entries: Seq<Entry>, more: Entry, sight: Sight, p: int)
    ensures
        ({
            let before = grouped(entries, sight);
            let now = grouped(entries.push(more), sight);
            &&& !sight.rotates(more) ==> now == before
            &&& before.len() <= now.len() <= before.len() + 1
            &&& 0 <= p < before.len() ==> now[p].name == before[p].name && now[p].logs
                == if sight.rotates(more) && before[p].name == more.sheep@
                && !before[p].logs.contains(more.log->0@) {
                before[p].logs.push(more.log->0@)
            } else {
                before[p].logs
            }
            &&& now.len() > before.len() ==> now.last() == (GroupView {
                name: more.sheep@,
                logs: seq![more.log->0@],
            })
        }),
{
    let before = grouped(entries, sight);
    assert(entries.push(more).drop_last() =~= entries);
    group_position_is_first(before, more.sheep@);
    the_groups_are_what_rotates(entries, sight, more.sheep@, before[p].logs[0]);
    if let Some(i) = group_position(before, more.sheep@) {
        if i < p < before.len() {
            assert(before[i].name != before[p].name);
        } else if 0 <= p < i {
            assert(before[p].name != before[i].name);
        }
    }
}

/// No sheep has a path twice.
pub proof fn no_sheep_has_a_path_twice(entries: Seq<Entry>, sight: Sight, p: int, i: int, j: int)
    requires
        0 <= p < grouped(entries, sight).len(),
        0 <= i < j < grouped(entries, sight)[p].logs.len(),
    ensures
        grouped(entries, sight)[p].logs[i] != grouped(entries, sight)[p].logs[j],
    decreases entries.len(),
{
    let fewer = entries.drop_last();
    let before = grouped(fewer, sight);
    assert(fewer.push(entries.last()) =~= entries);
    a_path_more_adds_its_log(fewer, entries.last(), sight, p);
    if p < before.len() {
        if j < before[p].logs.len() {
            no_sheep_has_a_path_twice(fewer, sight, p, i, j);
        } else {
            assert(before[p].logs[i] == grouped(entries, sight)[p].logs[i]);
            assert(before[p].logs.contains(before[p].logs[i]));
        }
    }
}

/// The directories and the groups, with their strings as characters, stand in the
/// order of what they are of.
pub proof fn places_and_groups_stand_in_order(places: Seq<Place>, groups: Seq<Group>, i: int)
    ensures
        place_views(places).len() == places.len(),
        numbers(places).len() == places.len(),
        0 <= i < places.len() ==> {
            &&& place_views(places)[i].dir == places[i].dir
            &&& place_views(places)[i].path == places[i].path@
            &&& numbers(places)[i] == places[i].dir
        },
        group_views(groups).len() == groups.len(),
        0 <= i < groups.len() ==> {
            &&& group_views(groups)[i].name == groups[i].name@
            &&& group_views(groups)[i].logs == log_views(groups[i].logs@)
        },
{
}

/// Without a path there is nothing to look at, to list or to rotate, and nothing
/// is skipped.
pub proof fn an_empty_flock_needs_nothing(
    seen: Seq<Option<Metadata>>,
    config: Config,
    sight: Sight,
)
    ensures
        first_logs(Seq::empty()).len() == 0,
        dirs_needed(Seq::empty(), seen, config).len() == 0,
        grouped(Seq::empty(), sight).len() == 0,
        skipped(Seq::empty(), sight) == 0,
{
}

} // verus!
