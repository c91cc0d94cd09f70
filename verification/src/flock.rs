//! The flock's log files: who writes to which, and when two paths are one
//! file.
//!
//! A file is known by its directory, resolved once and numbered, and its name
//! in it. Two spellings of a directory that lead to the same place have the
//! same number, so a file reached through a link is the file itself.

use vstd::prelude::*;

use crate::config::Naming;
use crate::naming::{
    fits, generation_name, is_generation, match_generation, Generation, LogPath, LogPathView,
};
use crate::text::same;

verus! {

/// One supervised process, as far as its logs go.
#[derive(Debug, Clone, PartialEq, Eq)]
pub struct Sheep {
    /// Its name, by which it is asked to reopen its logs.
    pub name: String,
    /// Where its standard output goes.
    pub out_file: Option<String>,
    /// Where its standard error goes.
    pub err_file: Option<String>,
}

/// The path, if there is one.
pub open spec fn path_if_set(path: Option<String>) -> Seq<Seq<char>> {
    match path {
        Some(path) => seq![path@],
        None => Seq::empty(),
    }
}

/// The characters of each string.
pub open spec fn texts(strings: Seq<String>) -> Seq<Seq<char>> {
    strings.map_values(|s: String| s@)
}

/// The log paths one sheep writes to: `out_file` and `err_file`, whichever of
/// them are set, in that order.
pub fn log_paths(sheep: &Sheep) -> (paths: Vec<String>)
    ensures
        texts(paths@) == path_if_set(sheep.out_file) + path_if_set(sheep.err_file),
{
    let mut paths: Vec<String> = Vec::new();
    if let Some(path) = &sheep.out_file {
        paths.push(path.clone());
    }
    if let Some(path) = &sheep.err_file {
        paths.push(path.clone());
    }
    proof {
        assert(texts(paths@) =~= path_if_set(sheep.out_file) + path_if_set(sheep.err_file));
    }
    paths
}

/// A file: the number of its directory, and its name in it.
pub type FileId = (u64, Seq<char>);

/// A live log in a resolved directory.
#[derive(Debug, PartialEq, Eq)]
pub struct Log {
    /// Its path, as it was spelled.
    pub base: LogPath,
    /// The number of its directory.
    pub dir: u64,
}

/// A [`Log`] with its path as character sequences.
#[verifier::ext_equal]
pub struct LogView {
    /// Its path, as it was spelled.
    pub base: LogPathView,
    /// The number of its directory.
    pub dir: u64,
}

impl View for Log {
    type V = LogView;

    open spec fn view(&self) -> LogView {
        LogView { base: self.base@, dir: self.dir }
    }
}

impl LogView {
    /// The file that this path leads to.
    pub open spec fn file(self) -> FileId {
        (self.dir, self.base.live())
    }
}

impl Clone for Log {
    fn clone(&self) -> (r: Self)
        ensures
            r == *self,
    {
        Log { base: self.base.clone(), dir: self.dir }
    }
}

/// The logs, with their paths as character sequences.
pub open spec fn log_views(logs: Seq<Log>) -> Seq<LogView> {
    logs.map_values(|log: Log| log@)
}

/// Whether two optional strings are both absent, or hold the same characters.
fn same_option(a: &Option<String>, b: &Option<String>) -> (r: bool)
    ensures
        r == (match (a, b) {
            (Some(a), Some(b)) => a@ == b@,
            (None, None) => true,
            _ => false,
        }),
{
    match (a, b) {
        (Some(a), Some(b)) => same(a.as_str(), b.as_str()),
        (None, None) => true,
        _ => false,
    }
}

/// Whether two logs are the same path in the same directory.
pub fn same_log(a: &Log, b: &Log) -> (r: bool)
    ensures
        r == (a@ == b@),
{
    a.dir == b.dir && same(a.base.dir.as_str(), b.base.dir.as_str()) && same(
        a.base.stem.as_str(),
        b.base.stem.as_str(),
    ) && same_option(&a.base.ext, &b.base.ext)
}

/// One path that one sheep writes to. A path that cannot be spelled leads to
/// no log that this dog may touch.
#[derive(Debug, PartialEq, Eq)]
pub struct Entry {
    /// The sheep.
    pub sheep: String,
    /// The log that the path leads to.
    pub log: Option<Log>,
}

/// A set of files.
#[derive(Debug)]
pub struct FileSet {
    files: Vec<(u64, String)>,
}

/// The file that a pair of a directory's number and a name is.
pub open spec fn file_of(pair: (u64, String)) -> FileId {
    (pair.0, pair.1@)
}

impl View for FileSet {
    type V = Set<FileId>;

    closed spec fn view(&self) -> Set<FileId> {
        self.files@.map_values(|pair: (u64, String)| file_of(pair)).to_set()
    }
}

impl FileSet {
    /// The set with nothing in it.
    pub fn new() -> (r: Self)
        ensures
            r@ == Set::<FileId>::empty(),
    {
        let r = FileSet { files: Vec::new() };
        proof {
            assert(r@ =~= Set::<FileId>::empty());
        }
        r
    }

    /// Adds the file called `name` in the directory `dir`.
    pub fn insert(&mut self, dir: u64, name: String)
        ensures
            final(self)@ == old(self)@.insert((dir, name@)),
    {
        self.files.push((dir, name));
        proof {
            let before = old(self).files@.map_values(|pair: (u64, String)| file_of(pair));
            let after = self.files@.map_values(|pair: (u64, String)| file_of(pair));
            assert(after =~= before.push((dir, name@)));
            assert(after.to_set() =~= before.to_set().insert((dir, name@))) by {
                assert forall|f: FileId| after.contains(f) implies before.contains(f) || f == (
                    dir,
                    name@,
                ) by {
                    let i = choose|i: int| 0 <= i < after.len() && after[i] == f;
                    if i < before.len() {
                        assert(before[i] == f);
                    }
                }
                assert forall|f: FileId| before.contains(f) || f == (
                    dir,
                    name@,
                ) implies after.contains(f) by {
                    if before.contains(f) {
                        let i = choose|i: int| 0 <= i < before.len() && before[i] == f;
                        assert(after[i] == f);
                    } else {
                        assert(after[before.len() as int] == f);
                    }
                }
            }
        }
    }

    /// Whether the file called `name` in the directory `dir` is in the set.
    pub fn contains(&self, dir: u64, name: &str) -> (r: bool)
        ensures
            r == self@.contains((dir, name@)),
    {
        let ghost all = self.files@.map_values(|pair: (u64, String)| file_of(pair));
        let mut i: usize = 0;
        while i < self.files.len()
            invariant
                i <= self.files@.len(),
                all == self.files@.map_values(|pair: (u64, String)| file_of(pair)),
                forall|j: int| 0 <= j < i ==> #[trigger] all[j] != (dir, name@),
            decreases self.files.len() - i,
        {
            if self.files[i].0 == dir && same(self.files[i].1.as_str(), name) {
                proof {
                    assert(all[i as int] == (dir, name@));
                }
                return true;
            }
            i += 1;
        }
        false
    }

    /// The names of the files in the directory `dir`.
    pub fn names_in(&self, dir: u64) -> (names: Vec<String>)
        ensures
            forall|name: Seq<char>| #[trigger]
                texts(names@).contains(name) <==> self@.contains((dir, name)),
    {
        let ghost all = self.files@.map_values(|pair: (u64, String)| file_of(pair));
        let mut names: Vec<String> = Vec::new();
        let mut i: usize = 0;
        while i < self.files.len()
            invariant
                i <= self.files@.len(),
                all == self.files@.map_values(|pair: (u64, String)| file_of(pair)),
                forall|name: Seq<char>| #[trigger]
                    texts(names@).contains(name) <==> all.take(i as int).contains((dir, name)),
            decreases self.files.len() - i,
        {
            let ghost before = texts(names@);
            let ghost seen = all.take(i as int);
            if self.files[i].0 == dir {
                names.push(self.files[i].1.clone());
                proof {
                    assert(texts(names@) =~= before.push(self.files@[i as int].1@));
                }
            }
            proof {
                let next = all.take(i + 1);
                assert(next =~= seen.push(all[i as int]));
                assert forall|name: Seq<char>| #[trigger]
                    texts(names@).contains(name) <==> next.contains((dir, name)) by {
                    member_of_push(seen, all[i as int], (dir, name));
                    member_of_push(before, self.files@[i as int].1@, name);
                    assert(before.contains(name) <==> seen.contains((dir, name)));
                }
            }
            i += 1;
        }
        proof {
            assert(all.take(self.files@.len() as int) =~= all);
        }
        names
    }
}

/// A sequence with one element more has that element and the others.
pub proof fn member_of_push<T>(s: Seq<T>, a: T, x: T)
    ensures
        s.push(a).contains(x) <==> s.contains(x) || x == a,
{
    if s.push(a).contains(x) && x != a {
        let i = choose|i: int| 0 <= i < s.push(a).len() && s.push(a)[i] == x;
        assert(s[i] == x);
    }
    if s.contains(x) {
        let i = choose|i: int| 0 <= i < s.len() && s[i] == x;
        assert(s.push(a)[i] == x);
    }
    assert(s.push(a)[s.len() as int] == a);
}

/// Whether `file` is one that some sheep writes to.
pub open spec fn is_live(entries: Seq<Entry>, file: FileId) -> bool {
    exists|i: int|
        0 <= i < entries.len() && (#[trigger] entries[i]).log is Some
            && entries[i].log->0@.file() == file
}

/// Every live log of the whole flock. The collision that this set is there to
/// catch is between different sheep, so one set holds them all.
pub fn protected_files(entries: &Vec<Entry>) -> (r: FileSet)
    ensures
        forall|file: FileId| #[trigger] r@.contains(file) <==> is_live(entries@, file),
{
    let mut r = FileSet::new();
    let mut i: usize = 0;
    while i < entries.len()
        invariant
            i <= entries@.len(),
            forall|file: FileId| #[trigger]
                r@.contains(file) <==> is_live(entries@.take(i as int), file),
        decreases entries.len() - i,
    {
        let ghost before = entries@.take(i as int);
        let ghost set = r@;
        if let Some(log) = &entries[i].log {
            r.insert(log.dir, log.base.live_name());
        }
        proof {
            let after = entries@.take(i + 1);
            let entry = entries@[i as int];
            assert(after[i as int] == entry);
            assert forall|file: FileId| #[trigger] r@.contains(file) <==> is_live(after, file) by {
                assert(set.contains(file) <==> is_live(before, file));
                if is_live(before, file) {
                    let j = choose|j: int|
                        0 <= j < before.len() && (#[trigger] before[j]).log is Some
                            && before[j].log->0@.file() == file;
                    assert(after[j] == before[j]);
                }
                if is_live(after, file) {
                    let j = choose|j: int|
                        0 <= j < after.len() && (#[trigger] after[j]).log is Some
                            && after[j].log->0@.file() == file;
                    if j < i {
                        assert(before[j] == after[j]);
                    }
                }
            }
        }
        i += 1;
    }
    proof {
        assert(entries@.take(entries@.len() as int) =~= entries@);
    }
    r
}

/// Whether a name that `log` rotates into, or has rotated into, is a live log
/// in its directory.
pub open spec fn collides(log: LogView, naming: Naming, protected: Set<FileId>) -> bool {
    exists|name: Seq<char>| #[trigger]
        protected.contains((log.dir, name)) && is_generation(log.base, naming, name)
}

/// Whether rotating `base` could disturb a path some sheep is using as a live
/// log. `dir` is the number of the directory of `base`.
///
/// Asked by name against the flock's own list: a sheep that is registered but
/// stopped has no log file, and its name is still not free.
pub fn collides_with_a_live_log(
    base: &LogPath,
    dir: u64,
    naming: Naming,
    protected: &FileSet,
) -> (r: bool)
    ensures
        r == collides(LogView { base: base@, dir }, naming, protected@),
{
    let names = protected.names_in(dir);
    let mut i: usize = 0;
    while i < names.len()
        invariant
            i <= names@.len(),
            forall|name: Seq<char>| #[trigger]
                texts(names@).contains(name) <==> protected@.contains((dir, name)),
            forall|j: int|
                0 <= j < i ==> !is_generation(base@, naming, #[trigger] texts(names@)[j]),
        decreases names.len() - i,
    {
        if match_generation(base, naming, names[i].as_str()).is_some() {
            proof {
                let name = texts(names@)[i as int];
                assert(name == names@[i as int]@);
                assert(texts(names@).contains(name));
                let log = LogView { base: base@, dir };
                assert(protected@.contains((log.dir, name)));
                assert(is_generation(log.base, naming, name));
            }
            return true;
        }
        proof {
            assert(texts(names@)[i as int] == names@[i as int]@);
        }
        i += 1;
    }
    proof {
        if collides(LogView { base: base@, dir }, naming, protected@) {
            let name = choose|name: Seq<char>| #[trigger]
                protected@.contains((dir, name)) && is_generation(base@, naming, name);
            assert(texts(names@).contains(name));
            let j = choose|j: int| 0 <= j < texts(names@).len() && texts(names@)[j] == name;
            assert(!is_generation(base@, naming, texts(names@)[j]));
        }
    }
    false
}

/// A sheep writes to its `out_file` and to its `err_file`, in that order, as far
/// as they are set.
pub proof fn a_sheep_writes_to_what_is_set(sheep: Sheep)
    ensures
        ({
            let paths = path_if_set(sheep.out_file) + path_if_set(sheep.err_file);
            &&& sheep.out_file is None && sheep.err_file is None ==> paths.len() == 0
            &&& sheep.out_file is Some ==> paths.len() > 0 && paths[0] == sheep.out_file->0@
            &&& sheep.err_file is Some ==> paths.len() > 0 && paths.last() == sheep.err_file->0@
            &&& sheep.out_file is Some && sheep.err_file is Some <==> paths.len() == 2
            &&& paths.len() <= 2
        }),
{
}

/// Two logs are one file if and only if their directories have one number and
/// they have one name in it, however their paths are spelled.
pub proof fn a_file_is_a_directory_and_a_name(a: LogView, b: LogView)
    ensures
        a.file() == b.file() <==> a.dir == b.dir && a.base.live() == b.base.live(),
{
}

/// A file is live if and only if the path of some sheep leads to it, whichever
/// sheep that is and wherever it stands in the flock.
pub proof fn a_file_that_a_sheep_writes_to_is_live(entries: Seq<Entry>, file: FileId)
    ensures
        is_live(entries, file) <==> exists|i: int|
            0 <= i < entries.len() && (#[trigger] entries[i]).log is Some && (
            entries[i].log->0.dir == file.0 && entries[i].log->0.base@.live() == file.1),
{
    if is_live(entries, file) {
        let i = choose|i: int|
            0 <= i < entries.len() && (#[trigger] entries[i]).log is Some
                && entries[i].log->0@.file() == file;
        assert(entries[i].log->0.dir == file.0);
    }
    if exists|i: int|
        0 <= i < entries.len() && (#[trigger] entries[i]).log is Some && (entries[i].log->0.dir
            == file.0 && entries[i].log->0.base@.live() == file.1) {
        let i = choose|i: int|
            0 <= i < entries.len() && (#[trigger] entries[i]).log is Some && (
            entries[i].log->0.dir == file.0 && entries[i].log->0.base@.live() == file.1);
        assert(entries[i].log->0@.file() == file);
    }
}

/// A log collides if and only if some generation of it, in the scheme that is
/// used, would be called like a live log in its directory.
pub proof fn a_log_collides_with_a_live_log(log: LogView, naming: Naming, protected: Set<FileId>)
    ensures
        collides(log, naming, protected) <==> exists|generation: Generation|
            fits(generation.slot, naming) && protected.contains(
                (log.dir, #[trigger] generation_name(log.base, generation)),
            ),
{
    if collides(log, naming, protected) {
        let name = choose|name: Seq<char>| #[trigger]
            protected.contains((log.dir, name)) && is_generation(log.base, naming, name);
        let generation = choose|generation: Generation| #[trigger]
            fits(generation.slot, naming) && name == generation_name(log.base, generation);
        assert(protected.contains((log.dir, generation_name(log.base, generation))));
    }
    if exists|generation: Generation|
        fits(generation.slot, naming) && protected.contains(
            (log.dir, #[trigger] generation_name(log.base, generation)),
        ) {
        let generation = choose|generation: Generation|
            fits(generation.slot, naming) && protected.contains(
                (log.dir, #[trigger] generation_name(log.base, generation)),
            );
        assert(is_generation(log.base, naming, generation_name(log.base, generation)));
    }
}

/// The characters of strings, and the logs with their paths as characters, stand
/// in the order of what they are of.
pub proof fn views_stand_in_order(strings: Seq<String>, logs: Seq<Log>, i: int)
    ensures
        texts(strings).len() == strings.len(),
        0 <= i < strings.len() ==> texts(strings)[i] == strings[i]@,
        log_views(logs).len() == logs.len(),
        0 <= i < logs.len() ==> {
            &&& log_views(logs)[i].dir == logs[i].dir
            &&& log_views(logs)[i].base.dir == logs[i].base.dir@
            &&& log_views(logs)[i].base.stem == logs[i].base.stem@
            &&& log_views(logs)[i].base.ext is Some <==> logs[i].base.ext is Some
            &&& logs[i].base.ext matches Some(ext) ==> log_views(logs)[i].base.ext == Some(ext@)
        },
{
}

} // verus!
