//! When two spellings of a directory are one directory.
//!
//! Every spelling is resolved once, at the start of a pass, and stays resolved
//! that way however the disk reads later. Directories that resolve alike get
//! one number.

use vstd::prelude::*;

use crate::flock::{texts, Entry, Log};
use crate::naming::{ext_of, stem_of, LogPath, LogPathView};
use crate::text::same;

verus! {

/// A path in two parts.
#[derive(Debug, PartialEq, Eq)]
pub struct Spelling {
    /// The directory, as it was spelled.
    pub dir: String,
    /// The name in it.
    pub name: String,
}

/// One path that one sheep writes to, or `None` for one that cannot be
/// spelled.
#[derive(Debug, PartialEq, Eq)]
pub struct Written {
    /// The sheep.
    pub sheep: String,
    /// The path.
    pub path: Option<Spelling>,
}

/// The position of the first of `list` that is `item`.
pub open spec fn first_position<T>(list: Seq<T>, item: T) -> Option<int>
    decreases list.len(),
{
    if list.len() == 0 {
        None
    } else {
        match first_position(list.drop_last(), item) {
            Some(i) => Some(i),
            None => if list.last() == item {
                Some(list.len() - 1)
            } else {
                None
            },
        }
    }
}

/// A position that is found is one, and the first.
pub proof fn first_position_is_first<T>(list: Seq<T>, item: T)
    ensures
        match first_position(list, item) {
            Some(i) => 0 <= i < list.len() && list[i] == item && forall|j: int|
                0 <= j < i ==> #[trigger] list[j] != item,
            None => forall|j: int| 0 <= j < list.len() ==> #[trigger] list[j] != item,
        },
    decreases list.len(),
{
    if list.len() > 0 {
        first_position_is_first(list.drop_last(), item);
        assert forall|j: int| 0 <= j < list.len() - 1 implies #[trigger] list[j]
            == list.drop_last()[j] by {}
    }
}

/// What is found among the first few is found among all.
proof fn stays_found<T>(list: Seq<T>, n: int, item: T)
    requires
        0 <= n <= list.len(),
        first_position(list.take(n), item) is Some,
    ensures
        first_position(list, item) == first_position(list.take(n), item),
    decreases list.len(),
{
    if n == list.len() {
        assert(list.take(n) =~= list);
    } else {
        assert(list.drop_last().take(n) =~= list.take(n));
        stays_found(list.drop_last(), n, item);
    }
}

/// The position of the first of `list` that is `item`.
fn find_text(list: &Vec<String>, item: &str) -> (r: Option<usize>)
    ensures
        match r {
            Some(i) => first_position(texts(list@), item@) == Some(i as int) && i < list@.len(),
            None => first_position(texts(list@), item@) is None,
        },
{
    let ghost all = texts(list@);
    let mut i: usize = 0;
    proof {
        assert(all.take(0).len() == 0);
    }
    while i < list.len()
        invariant
            i <= list@.len(),
            all == texts(list@),
            first_position(all.take(i as int), item@) is None,
        decreases list.len() - i,
    {
        proof {
            assert(all.take(i + 1).drop_last() =~= all.take(i as int));
            assert(all.take(i + 1).last() == list@[i as int]@);
        }
        if same(list[i].as_str(), item) {
            proof {
                stays_found(all, i + 1, item@);
            }
            return Some(i);
        }
        i += 1;
    }
    proof {
        assert(all.take(list@.len() as int) =~= all);
    }
    None
}

/// The directories of the paths, as they are spelled, each spelling once.
pub open spec fn spellings(written: Seq<Written>) -> Seq<Seq<char>>
    decreases written.len(),
{
    if written.len() == 0 {
        Seq::empty()
    } else {
        let before = spellings(written.drop_last());
        match written.last().path {
            Some(path) => if first_position(before, path.dir@) is None {
                before.push(path.dir@)
            } else {
                before
            },
            None => before,
        }
    }
}

/// The directories to resolve, each spelling once.
pub fn dirs_to_resolve(written: &Vec<Written>) -> (dirs: Vec<String>)
    ensures
        texts(dirs@) == spellings(written@),
{
    let mut dirs: Vec<String> = Vec::new();
    let mut i: usize = 0;
    proof {
        assert(texts(dirs@) =~= spellings(written@.take(0)));
    }
    while i < written.len()
        invariant
            i <= written@.len(),
            texts(dirs@) == spellings(written@.take(i as int)),
        decreases written.len() - i,
    {
        proof {
            assert(written@.take(i + 1).drop_last() =~= written@.take(i as int));
        }
        if let Some(path) = &written[i].path {
            if find_text(&dirs, path.dir.as_str()).is_none() {
                let ghost before = texts(dirs@);
                dirs.push(path.dir.clone());
                proof {
                    assert(texts(dirs@) =~= before.push(path.dir@));
                }
            }
        }
        i += 1;
    }
    proof {
        assert(written@.take(written@.len() as int) =~= written@);
    }
    dirs
}

/// What each directory resolved to, as bytes.
pub open spec fn bytes_of(targets: Seq<Vec<u8>>) -> Seq<Seq<u8>> {
    targets.map_values(|bytes: Vec<u8>| bytes@)
}

/// The number of the directory at `i`: the first position that resolved alike.
pub open spec fn dir_number(targets: Seq<Seq<u8>>, i: int) -> int {
    first_position(targets, targets[i])->0
}

/// Two directories have one number if and only if they resolved alike.
pub proof fn one_number_for_one_directory(targets: Seq<Seq<u8>>, i: int, j: int)
    requires
        0 <= i < targets.len(),
        0 <= j < targets.len(),
    ensures
        0 <= dir_number(targets, i) < targets.len(),
        dir_number(targets, i) == dir_number(targets, j) <==> targets[i] == targets[j],
{
    first_position_is_first(targets, targets[i]);
    first_position_is_first(targets, targets[j]);
}

/// Whether `entry` is what a path comes to: the log in the directory with the
/// number of its spelling, or nothing where it cannot be spelled.
pub open spec fn is_entry_of(
    entry: Entry,
    written: Written,
    dirs: Seq<Seq<char>>,
    targets: Seq<Seq<u8>>,
) -> bool {
    &&& entry.sheep@ == written.sheep@
    &&& match (entry.log, written.path) {
        (Some(log), Some(path)) => {
            &&& log@.base == (LogPathView {
                dir: path.dir@,
                stem: stem_of(path.name@),
                ext: ext_of(path.name@),
            })
            &&& log@.base.live() == path.name@
            &&& first_position(dirs, path.dir@) matches Some(i) && log.dir == dir_number(targets, i)
        },
        (None, None) => true,
        _ => false,
    }
}

/// The position of the first of `targets` that resolved to `bytes`.
fn find_bytes(targets: &Vec<Vec<u8>>, bytes: &Vec<u8>) -> (r: Option<usize>)
    ensures
        match r {
            Some(i) => first_position(bytes_of(targets@), bytes@) == Some(i as int),
            None => first_position(bytes_of(targets@), bytes@) is None,
        },
{
    let ghost all = bytes_of(targets@);
    let mut i: usize = 0;
    proof {
        assert(all.take(0).len() == 0);
    }
    while i < targets.len()
        invariant
            i <= targets@.len(),
            all == bytes_of(targets@),
            first_position(all.take(i as int), bytes@) is None,
        decreases targets.len() - i,
    {
        proof {
            assert(all.take(i + 1).drop_last() =~= all.take(i as int));
            assert(all.take(i + 1).last() == targets@[i as int]@);
        }
        if same_bytes(&targets[i], bytes) {
            proof {
                stays_found(all, i + 1, bytes@);
            }
            return Some(i);
        }
        i += 1;
    }
    proof {
        assert(all.take(targets@.len() as int) =~= all);
    }
    None
}

/// Whether two byte strings are the same.
fn same_bytes(a: &Vec<u8>, b: &Vec<u8>) -> (r: bool)
    ensures
        r == (a@ == b@),
{
    if a.len() != b.len() {
        return false;
    }
    let mut i: usize = 0;
    while i < a.len()
        invariant
            a@.len() == b@.len(),
            i <= a@.len(),
            forall|j: int| 0 <= j < i ==> a@[j] == b@[j],
        decreases a.len() - i,
    {
        if a[i] != b[i] {
            return false;
        }
        i += 1;
    }
    assert(a@ =~= b@);
    true
}

/// Every directory of a path is among the spellings.
pub proof fn every_directory_is_resolved(written: Seq<Written>, i: int)
    requires
        0 <= i < written.len(),
        written[i].path is Some,
    ensures
        first_position(spellings(written), written[i].path->0.dir@) is Some,
    decreases written.len(),
{
    let dir = written[i].path->0.dir@;
    let before = spellings(written.drop_last());
    let now = spellings(written);
    if i < written.len() - 1 {
        assert(written.drop_last()[i] == written[i]);
        every_directory_is_resolved(written.drop_last(), i);
    }
    if now.len() > before.len() {
        assert(now.drop_last() =~= before);
    }
}

/// The paths of the flock, each in the directory with the number of its
/// spelling. `dirs` are the spellings, and `targets` what each resolved to.
pub fn entries(written: &Vec<Written>, dirs: &Vec<String>, targets: &Vec<Vec<u8>>) -> (r: Vec<Entry>)
    requires
        texts(dirs@) == spellings(written@),
        targets@.len() == dirs@.len(),
    ensures
        r@.len() == written@.len(),
        forall|i: int|
            0 <= i < r@.len() ==> is_entry_of(
                #[trigger] r@[i],
                written@[i],
                texts(dirs@),
                bytes_of(targets@),
            ),
{
    let mut r: Vec<Entry> = Vec::new();
    let mut i: usize = 0;
    while i < written.len()
        invariant
            i <= written@.len(),
            r@.len() == i,
            texts(dirs@) == spellings(written@),
            targets@.len() == dirs@.len(),
            forall|j: int|
                0 <= j < i ==> is_entry_of(
                    #[trigger] r@[j],
                    written@[j],
                    texts(dirs@),
                    bytes_of(targets@),
                ),
        decreases written.len() - i,
    {
        let ghost before = r@;
        let log = match &written[i].path {
            Some(path) => {
                proof {
                    every_directory_is_resolved(written@, i as int);
                }
                match find_text(dirs, path.dir.as_str()) {
                    Some(at) => {
                        proof {
                            assert(bytes_of(targets@)[at as int] == targets@[at as int]@);
                            first_position_is_first(bytes_of(targets@), targets@[at as int]@);
                        }
                        match find_bytes(targets, &targets[at]) {
                            Some(number) => Some(
                                Log {
                                    base: LogPath::of(path.dir.clone(), path.name.as_str()),
                                    dir: number as u64,
                                },
                            ),
                            None => None,
                        }
                    },
                    None => None,
                }
            },
            None => None,
        };
        r.push(Entry { sheep: written[i].sheep.clone(), log });
        proof {
            assert forall|j: int| 0 <= j < r@.len() implies is_entry_of(
                #[trigger] r@[j],
                written@[j],
                texts(dirs@),
                bytes_of(targets@),
            ) by {
                if j < i {
                    assert(r@[j] == before[j]);
                }
            }
        }
        i += 1;
    }
    r
}

/// Two paths lead to one file if and only if their directories resolved alike
/// and their names are the same, however the directories are spelled.
pub proof fn one_file_under_every_spelling(
    a: Entry,
    b: Entry,
    at: Written,
    bt: Written,
    dirs: Seq<Seq<char>>,
    targets: Seq<Seq<u8>>,
)
    requires
        is_entry_of(a, at, dirs, targets),
        is_entry_of(b, bt, dirs, targets),
        a.log is Some,
        b.log is Some,
        targets.len() == dirs.len(),
    ensures
        ({
            let i = first_position(dirs, at.path->0.dir@)->0;
            let j = first_position(dirs, bt.path->0.dir@)->0;
            a.log->0@.file() == b.log->0@.file() <==> targets[i] == targets[j] && at.path->0.name@
                == bt.path->0.name@
        }),
{
    let i = first_position(dirs, at.path->0.dir@)->0;
    let j = first_position(dirs, bt.path->0.dir@)->0;
    first_position_is_first(dirs, at.path->0.dir@);
    first_position_is_first(dirs, bt.path->0.dir@);
    one_number_for_one_directory(targets, i, j);
}

/// No spelling is resolved twice, and each that is resolved is the directory of
/// some path.
pub proof fn every_spelling_is_resolved_once(written: Seq<Written>, i: int, j: int)
    requires
        0 <= i < spellings(written).len(),
        0 <= j < spellings(written).len(),
    ensures
        spellings(written)[i] == spellings(written)[j] ==> i == j,
        exists|k: int|
            0 <= k < written.len() && (#[trigger] written[k]).path is Some
                && written[k].path->0.dir@ == spellings(written)[i],
    decreases written.len(),
{
    let before = spellings(written.drop_last());
    let now = spellings(written);
    let n = written.len() - 1;
    assert(written[n] == written.last());
    if now.len() > before.len() {
        first_position_is_first(before, written.last().path->0.dir@);
    }
    if i < before.len() && j < before.len() {
        every_spelling_is_resolved_once(written.drop_last(), i, j);
    } else if i < before.len() {
        every_spelling_is_resolved_once(written.drop_last(), i, i);
    }
    if i < before.len() {
        let k = choose|k: int|
            0 <= k < n && (#[trigger] written.drop_last()[k]).path is Some
                && written.drop_last()[k].path->0.dir@ == before[i];
        assert(written[k] == written.drop_last()[k]);
    } else {
        assert(written[n].path is Some && written[n].path->0.dir@ == now[i]);
    }
}

/// A path more adds its directory behind those of the others, if it is not among
/// them, and changes nothing else.
pub proof fn a_path_more_adds_its_directory(written: Seq<Written>, more: Written)
    ensures
        ({
            let before = spellings(written);
            let now = spellings(written.push(more));
            if more.path is Some && !before.contains(more.path->0.dir@) {
                now == before.push(more.path->0.dir@)
            } else {
                now == before
            }
        }),
        spellings(Seq::empty()).len() == 0,
{
    assert(written.push(more).drop_last() =~= written);
    if let Some(path) = more.path {
        first_position_is_first(spellings(written), path.dir@);
    }
}

/// The number of a directory is the position of the first that resolved like it.
pub proof fn a_directory_has_the_number_of_the_first_like_it(targets: Seq<Seq<u8>>, i: int)
    requires
        0 <= i < targets.len(),
    ensures
        ({
            let n = dir_number(targets, i);
            &&& 0 <= n <= i
            &&& targets[n] == targets[i]
            &&& forall|j: int| 0 <= j < n ==> #[trigger] targets[j] != targets[i]
        }),
{
    first_position_is_first(targets, targets[i]);
}

/// What a path comes to keeps its sheep, its directory as it was spelled and its
/// name, and stands in the directory to which its own spelling resolved.
pub proof fn an_entry_keeps_what_was_written(
    entry: Entry,
    written: Written,
    dirs: Seq<Seq<char>>,
    targets: Seq<Seq<u8>>,
    i: int,
)
    requires
        is_entry_of(entry, written, dirs, targets),
        targets.len() == dirs.len(),
        0 <= i < dirs.len(),
        written.path is Some ==> dirs[i] == written.path->0.dir@ && forall|j: int|
            0 <= j < i ==> #[trigger] dirs[j] != dirs[i],
    ensures
        entry.sheep@ == written.sheep@,
        entry.log is Some <==> written.path is Some,
        entry.log matches Some(log) ==> {
            &&& log.base.dir@ == written.path->0.dir@
            &&& log@.base.live() == written.path->0.name@
            &&& log@.base.stem == stem_of(written.path->0.name@)
            &&& log@.base.ext == ext_of(written.path->0.name@)
            &&& 0 <= log.dir < targets.len()
            &&& targets[log.dir as int] == targets[i]
        },
{
    if entry.log is Some {
        let dir = written.path->0.dir@;
        first_position_is_first(dirs, dir);
        let found = first_position(dirs, dir)->0;
        assert(found == i) by {
            if found < i {
                assert(dirs[found] != dirs[i]);
            }
        }
        a_directory_has_the_number_of_the_first_like_it(targets, i);
    }
}

} // verus!
