//! Which generations of a log go, and which are compressed.
//!
//! A generation that was left half-compressed wears two files, the plain one
//! and the `.gz`. They are one generation: they count once against `keep`, and
//! they go together.

use vstd::prelude::*;

use crate::config::{Config, Naming};
use crate::flock::{FileId, FileSet};
use crate::naming::{
    fits, generation_name, generation_of, match_generation, name_of, Generation, LogPath,
    LogPathView, Slot,
};
use crate::qualify::{is_newer, newer, DirFile};
use crate::stamp::the_epoch_follows_the_calendar;

verus! {

/// A generation that is there, and the files it wears.
#[derive(Debug, Clone, Copy, PartialEq, Eq, Structural)]
pub struct Held {
    /// Which generation it is.
    pub slot: Slot,
    /// Whether its plain file is there.
    pub plain: bool,
    /// Whether its compressed file is there.
    pub gz: bool,
}

impl Held {
    /// Whether this generation wears `generation` as a file.
    pub open spec fn wears(self, generation: Generation) -> bool {
        self.slot == generation.slot && if generation.gz {
            self.gz
        } else {
            self.plain
        }
    }
}

/// The place behind all of `held` that are newer than `slot`.
pub open spec fn place(held: Seq<Held>, slot: Slot) -> int
    decreases held.len(),
{
    if held.len() == 0 {
        0
    } else if newer(held.last().slot, slot) {
        held.len() as int
    } else {
        place(held.drop_last(), slot)
    }
}

/// `held`, newest first, with one file more.
pub open spec fn with_file(held: Seq<Held>, generation: Generation) -> Seq<Held> {
    let i = place(held, generation.slot);
    if i < held.len() && held[i].slot == generation.slot {
        held.update(
            i,
            Held {
                slot: generation.slot,
                plain: held[i].plain || !generation.gz,
                gz: held[i].gz || generation.gz,
            },
        )
    } else {
        held.insert(
            i,
            Held { slot: generation.slot, plain: !generation.gz, gz: generation.gz },
        )
    }
}

/// The generations of `base` among `files`, newest first.
pub open spec fn held(files: Seq<DirFile>, base: LogPathView, naming: Naming) -> Seq<Held>
    decreases files.len(),
{
    if files.len() == 0 {
        Seq::empty()
    } else {
        let before = held(files.drop_last(), base, naming);
        match generation_of(base, naming, files.last().name@) {
            Some(generation) => with_file(before, generation),
            None => before,
        }
    }
}

/// Whether every slot is one that the scheme uses.
spec fn all_fit(held: Seq<Held>, naming: Naming) -> bool {
    forall|i: int| 0 <= i < held.len() ==> fits((#[trigger] held[i]).slot, naming)
}

/// A place is one.
proof fn place_bounds(held: Seq<Held>, slot: Slot)
    ensures
        0 <= place(held, slot) <= held.len(),
        place(held, slot) > 0 ==> newer(held[place(held, slot) - 1].slot, slot),
        forall|j: int|
            place(held, slot) <= j < held.len() ==> !newer((#[trigger] held[j]).slot, slot),
    decreases held.len(),
{
    if held.len() > 0 && !newer(held.last().slot, slot) {
        place_bounds(held.drop_last(), slot);
        let i = place(held.drop_last(), slot);
        if i > 0 {
            assert(held.drop_last()[i - 1] == held[i - 1]);
        }
        assert forall|j: int| i <= j < held.len() implies !newer((#[trigger] held[j]).slot, slot) by {
            if j < held.len() - 1 {
                assert(held.drop_last()[j] == held[j]);
            }
        }
    }
}

/// The generations of `base` among `files`, newest first.
pub fn generations(files: &Vec<DirFile>, base: &LogPath, naming: Naming) -> (r: Vec<Held>)
    ensures
        r@ == held(files@, base@, naming),
        forall|i: int| 0 <= i < r@.len() ==> fits((#[trigger] r@[i]).slot, naming),
{
    let mut r: Vec<Held> = Vec::new();
    let mut n: usize = 0;
    while n < files.len()
        invariant
            n <= files@.len(),
            r@ == held(files@.take(n as int), base@, naming),
            all_fit(r@, naming),
        decreases files.len() - n,
    {
        proof {
            assert(files@.take(n + 1).drop_last() =~= files@.take(n as int));
        }
        if let Some(generation) = match_generation(base, naming, files[n].name.as_str()) {
            add_file(&mut r, generation, naming);
        }
        n += 1;
    }
    proof {
        assert(files@.take(files@.len() as int) =~= files@);
    }
    r
}

/// Adds a file to the generations that are there.
fn add_file(r: &mut Vec<Held>, generation: Generation, naming: Naming)
    requires
        all_fit(old(r)@, naming),
        fits(generation.slot, naming),
    ensures
        final(r)@ == with_file(old(r)@, generation),
        all_fit(final(r)@, naming),
{
    let ghost before = r@;
    let mut i: usize = r.len();
    proof {
        assert(before.take(before.len() as int) =~= before);
    }
    while i > 0 && !is_newer(r[i - 1].slot, generation.slot)
        invariant
            i <= r@.len(),
            r@ == before,
            all_fit(before, naming),
            fits(generation.slot, naming),
            place(before.take(i as int), generation.slot) == place(before, generation.slot),
        decreases i,
    {
        proof {
            assert(before.take(i as int).drop_last() =~= before.take(i - 1));
        }
        i -= 1;
    }
    proof {
        if i > 0 {
            assert(before.take(i as int).last() == before[i - 1]);
        }
        assert(place(before, generation.slot) == i);
    }
    if i < r.len() && r[i].slot == generation.slot {
        let plain = r[i].plain || !generation.gz;
        let gz = r[i].gz || generation.gz;
        r.set(i, Held { slot: generation.slot, plain, gz });
    } else {
        r.insert(i, Held { slot: generation.slot, plain: !generation.gz, gz: generation.gz });
        proof {
            assert forall|j: int| 0 <= j < r@.len() implies fits(
                (#[trigger] r@[j]).slot,
                naming,
            ) by {
                if j < i {
                    assert(r@[j] == before[j]);
                } else if j > i {
                    assert(r@[j] == before[j - 1]);
                }
            }
        }
    }
}

/// Of two generations in one scheme, one is newer, or they are the same.
proof fn newer_is_an_order(a: Slot, b: Slot, naming: Naming)
    requires
        fits(a, naming),
        fits(b, naming),
    ensures
        newer(a, b) || newer(b, a) || a == b,
        !(newer(a, b) && newer(b, a)),
        !newer(a, a),
{
    if let (Slot::Dated { stamp: p, .. }, Slot::Dated { stamp: q, .. }) = (a, b) {
        the_epoch_follows_the_calendar(p, q);
    }
}

/// Whether each of `held` is newer than those behind it.
pub open spec fn newest_first(held: Seq<Held>) -> bool {
    forall|i: int, j: int|
        0 <= i < j < held.len() ==> newer((#[trigger] held[i]).slot, (#[trigger] held[j]).slot)
}

/// One file more keeps the order.
proof fn with_file_keeps_the_order(held: Seq<Held>, generation: Generation, naming: Naming)
    requires
        newest_first(held),
        all_fit(held, naming),
        fits(generation.slot, naming),
    ensures
        newest_first(with_file(held, generation)),
        all_fit(with_file(held, generation), naming),
{
    let slot = generation.slot;
    let n = place(held, slot);
    let next = with_file(held, generation);
    place_bounds(held, slot);
    if n < held.len() && held[n].slot == slot {
        assert forall|i: int, j: int| 0 <= i < j < next.len() implies newer(
            (#[trigger] next[i]).slot,
            (#[trigger] next[j]).slot,
        ) by {
            assert(next[i].slot == held[i].slot);
            assert(next[j].slot == held[j].slot);
        }
        assert forall|i: int| 0 <= i < next.len() implies fits((#[trigger] next[i]).slot, naming) by {
            assert(next[i].slot == held[i].slot);
        }
    } else {
        assert forall|i: int| 0 <= i < next.len() implies fits((#[trigger] next[i]).slot, naming) by {
            if i < n {
                assert(next[i] == held[i]);
            } else if i > n {
                assert(next[i] == held[i - 1]);
            }
        }
        if n < held.len() {
            newer_is_an_order(slot, held[n].slot, naming);
        }
        assert forall|i: int, j: int| 0 <= i < j < next.len() implies newer(
            (#[trigger] next[i]).slot,
            (#[trigger] next[j]).slot,
        ) by {
            if j < n {
                assert(next[i] == held[i] && next[j] == held[j]);
            } else if j == n {
                assert(next[i] == held[i]);
                if i < n - 1 {
                    assert(newer(held[i].slot, held[n - 1].slot));
                }
            } else if i < n {
                assert(next[i] == held[i] && next[j] == held[j - 1]);
            } else if i == n {
                assert(next[j] == held[j - 1]);
                if n < j - 1 {
                    assert(newer(held[n].slot, held[j - 1].slot));
                }
            } else {
                assert(next[i] == held[i - 1] && next[j] == held[j - 1]);
            }
        }
    }
}

/// The generations stand newest first, and none of them twice.
pub proof fn generations_stand_newest_first(
    files: Seq<DirFile>,
    base: LogPathView,
    naming: Naming,
)
    ensures
        newest_first(held(files, base, naming)),
        forall|i: int|
            0 <= i < held(files, base, naming).len() ==> fits(
                (#[trigger] held(files, base, naming)[i]).slot,
                naming,
            ),
    decreases files.len(),
{
    if files.len() > 0 {
        generations_stand_newest_first(files.drop_last(), base, naming);
        if let Some(generation) = generation_of(base, naming, files.last().name@) {
            with_file_keeps_the_order(held(files.drop_last(), base, naming), generation, naming);
        }
    }
}

/// Whether some file among `files` is `generation` of `base`.
pub open spec fn is_there(
    files: Seq<DirFile>,
    base: LogPathView,
    naming: Naming,
    generation: Generation,
) -> bool {
    exists|i: int|
        0 <= i < files.len() && generation_of(base, naming, (#[trigger] files[i]).name@) == Some(
            generation,
        )
}

/// Whether one of `held` wears `generation` as a file.
pub open spec fn is_worn(held: Seq<Held>, generation: Generation) -> bool {
    exists|i: int| 0 <= i < held.len() && (#[trigger] held[i]).wears(generation)
}

/// One file more is that file more.
proof fn with_file_adds_it(held: Seq<Held>, added: Generation, generation: Generation)
    ensures
        is_worn(with_file(held, added), generation) <==> is_worn(held, generation) || generation
            == added,
{
    let n = place(held, added.slot);
    let next = with_file(held, added);
    place_bounds(held, added.slot);
    if n < held.len() && held[n].slot == added.slot {
        if is_worn(held, generation) {
            let i = choose|i: int| 0 <= i < held.len() && (#[trigger] held[i]).wears(generation);
            assert(next[i].wears(generation));
        }
        if is_worn(next, generation) && generation != added {
            let i = choose|i: int| 0 <= i < next.len() && (#[trigger] next[i]).wears(generation);
            assert(held[i].wears(generation));
        }
        assert(next[n].wears(added));
    } else {
        if is_worn(held, generation) {
            let i = choose|i: int| 0 <= i < held.len() && (#[trigger] held[i]).wears(generation);
            if i < n {
                assert(next[i] == held[i]);
            } else {
                assert(next[i + 1] == held[i]);
            }
        }
        if is_worn(next, generation) && generation != added {
            let i = choose|i: int| 0 <= i < next.len() && (#[trigger] next[i]).wears(generation);
            if i < n {
                assert(held[i] == next[i]);
            } else if i > n {
                assert(held[i - 1] == next[i]);
            }
        }
        assert(next[n].wears(added));
    }
}

/// The generations wear the files of the log that are there, and no others.
pub proof fn generations_wear_what_is_there(
    files: Seq<DirFile>,
    base: LogPathView,
    naming: Naming,
    generation: Generation,
)
    ensures
        is_worn(held(files, base, naming), generation) <==> is_there(
            files,
            base,
            naming,
            generation,
        ),
    decreases files.len(),
{
    if files.len() > 0 {
        let before = files.drop_last();
        generations_wear_what_is_there(before, base, naming, generation);
        if let Some(added) = generation_of(base, naming, files.last().name@) {
            with_file_adds_it(held(before, base, naming), added, generation);
        }
        if is_there(before, base, naming, generation) {
            let i = choose|i: int|
                0 <= i < before.len() && generation_of(base, naming, (#[trigger] before[i]).name@)
                    == Some(generation);
            assert(files[i] == before[i]);
        }
        if is_there(files, base, naming, generation) {
            let i = choose|i: int|
                0 <= i < files.len() && generation_of(base, naming, (#[trigger] files[i]).name@)
                    == Some(generation);
            if i < before.len() {
                assert(before[i] == files[i]);
            }
        }
        assert(files[files.len() - 1] == files.last());
    }
}

/// Something to do with a generation.
#[derive(Debug, Clone, Copy, PartialEq, Eq, Structural)]
pub enum Chore {
    /// Delete this file, which is past `keep`.
    Delete(Generation),
    /// Compress the plain file of this generation.
    Compress(Slot),
    /// Leave this file alone, which is past `keep` or plain, because it or the
    /// name it compresses into is a live log.
    Refuse(Generation),
}

/// What the chores of one log go by.
pub struct Rules {
    /// The log.
    pub base: LogPathView,
    /// The number of its directory.
    pub dir: u64,
    /// How many generations to keep.
    pub keep: nat,
    /// Whether to compress all but the newest.
    pub compress: bool,
    /// The live logs of the whole flock.
    pub protected: Set<FileId>,
}

impl Rules {
    /// Whether the file `generation` is a live log.
    pub open spec fn is_live(self, generation: Generation) -> bool {
        self.protected.contains((self.dir, generation_name(self.base, generation)))
    }

    /// What to do with a file that is past `keep`.
    pub open spec fn deletion(self, generation: Generation) -> Chore {
        if self.is_live(generation) {
            Chore::Refuse(generation)
        } else {
            Chore::Delete(generation)
        }
    }

    /// What to do with a plain file that is to be compressed.
    pub open spec fn compression(self, slot: Slot) -> Chore {
        if self.is_live(Generation { slot, gz: false }) || self.is_live(
            Generation { slot, gz: true },
        ) {
            Chore::Refuse(Generation { slot, gz: false })
        } else {
            Chore::Compress(slot)
        }
    }

    /// What to do with a generation that has `rank` newer ones.
    pub open spec fn chores_of(self, held: Held, rank: int) -> Seq<Chore> {
        let slot = held.slot;
        if rank >= self.keep {
            (if held.plain {
                seq![self.deletion(Generation { slot, gz: false })]
            } else {
                Seq::empty()
            }) + (if held.gz {
                seq![self.deletion(Generation { slot, gz: true })]
            } else {
                Seq::empty()
            })
        } else if rank >= 1 && self.compress && held.plain {
            seq![self.compression(slot)]
        } else {
            Seq::empty()
        }
    }

    /// What to do with the generations, newest first.
    pub open spec fn chores(self, held: Seq<Held>) -> Seq<Chore>
        decreases held.len(),
    {
        if held.len() == 0 {
            Seq::empty()
        } else {
            self.chores(held.drop_last()) + self.chores_of(held.last(), held.len() - 1)
        }
    }
}

/// Whether the file `generation` of `base` is a live log.
fn is_protected(base: &LogPath, dir: u64, generation: Generation, protected: &FileSet) -> (r: bool)
    requires
        generation.slot matches Slot::Dated { stamp, .. } ==> stamp.valid(),
    ensures
        r == protected@.contains((dir, generation_name(base@, generation))),
{
    let name = name_of(base, generation.slot, generation.gz);
    protected.contains(dir, name.as_str())
}

/// What to do with the generations of `base`, of which `files` are the regular
/// files of its directory.
pub fn tidy_plan(
    files: &Vec<DirFile>,
    base: &LogPath,
    dir: u64,
    config: &Config,
    protected: &FileSet,
) -> (r: Vec<Chore>)
    ensures
        r@ == (Rules {
            base: base@,
            dir,
            keep: config.keep as nat,
            compress: config.compress,
            protected: protected@,
        }).chores(held(files@, base@, config.naming)),
{
    let ghost rules = Rules {
        base: base@,
        dir,
        keep: config.keep as nat,
        compress: config.compress,
        protected: protected@,
    };
    let all = generations(files, base, config.naming);
    let mut r: Vec<Chore> = Vec::new();
    let mut rank: usize = 0;
    proof {
        assert(r@ =~= rules.chores(all@.take(0)));
    }
    while rank < all.len()
        invariant
            rank <= all@.len(),
            all_fit(all@, config.naming),
            rules == (Rules {
                base: base@,
                dir,
                keep: config.keep as nat,
                compress: config.compress,
                protected: protected@,
            }),
            r@ == rules.chores(all@.take(rank as int)),
        decreases all.len() - rank,
    {
        let ghost before = r@;
        let slot = all[rank].slot;
        let plain = Generation { slot, gz: false };
        let gz = Generation { slot, gz: true };
        proof {
            assert(all@.take(rank + 1).drop_last() =~= all@.take(rank as int));
            assert(all@.take(rank + 1).last() == all@[rank as int]);
        }
        if rank >= config.keep {
            if all[rank].plain {
                if is_protected(base, dir, plain, protected) {
                    r.push(Chore::Refuse(plain));
                } else {
                    r.push(Chore::Delete(plain));
                }
            }
            if all[rank].gz {
                if is_protected(base, dir, gz, protected) {
                    r.push(Chore::Refuse(gz));
                } else {
                    r.push(Chore::Delete(gz));
                }
            }
        } else if rank >= 1 && config.compress && all[rank].plain {
            if is_protected(base, dir, plain, protected) || is_protected(base, dir, gz, protected) {
                r.push(Chore::Refuse(plain));
            } else {
                r.push(Chore::Compress(slot));
            }
        }
        proof {
            assert(r@ =~= before + rules.chores_of(all@[rank as int], rank as int));
        }
        rank += 1;
    }
    proof {
        assert(all@.take(all@.len() as int) =~= all@);
    }
    r
}

/// A chore is one of some generation's.
proof fn a_chore_has_its_generation(rules: Rules, held: Seq<Held>, chore: Chore)
    ensures
        rules.chores(held).contains(chore) <==> exists|i: int|
            0 <= i < held.len() && #[trigger] rules.chores_of(held[i], i).contains(chore),
    decreases held.len(),
{
    if held.len() > 0 {
        let before = held.drop_last();
        let n = held.len() - 1;
        a_chore_has_its_generation(rules, before, chore);
        let a = rules.chores(before);
        let b = rules.chores_of(held.last(), n);
        assert(rules.chores(held) == a + b);
        if rules.chores(held).contains(chore) {
            let k = choose|k: int| 0 <= k < (a + b).len() && (a + b)[k] == chore;
            if k < a.len() {
                assert(a[k] == chore);
                let i = choose|i: int|
                    0 <= i < before.len() && #[trigger] rules.chores_of(before[i], i).contains(
                        chore,
                    );
                assert(rules.chores_of(held[i], i).contains(chore));
            } else {
                assert(b[k - a.len()] == chore);
                assert(rules.chores_of(held[n], n).contains(chore));
            }
        }
        if exists|i: int|
            0 <= i < held.len() && #[trigger] rules.chores_of(held[i], i).contains(chore) {
            let i = choose|i: int|
                0 <= i < held.len() && #[trigger] rules.chores_of(held[i], i).contains(chore);
            if i < n {
                assert(rules.chores_of(before[i], i).contains(chore));
                let k = choose|k: int| 0 <= k < a.len() && a[k] == chore;
                assert((a + b)[k] == chore);
            } else {
                let k = choose|k: int| 0 <= k < b.len() && b[k] == chore;
                assert((a + b)[a.len() + k] == chore);
            }
        }
    }
}

/// What is deleted is what is past `keep`, both files of a generation that
/// wears two, and not a live log.
pub proof fn what_is_past_keep_is_deleted(rules: Rules, held: Seq<Held>, generation: Generation)
    ensures
        rules.chores(held).contains(Chore::Delete(generation)) <==> !rules.is_live(generation)
            && exists|i: int|
            rules.keep <= i < held.len() && (#[trigger] held[i]).wears(generation),
{
    let chore = Chore::Delete(generation);
    a_chore_has_its_generation(rules, held, chore);
    if rules.chores(held).contains(chore) {
        let i = choose|i: int|
            0 <= i < held.len() && #[trigger] rules.chores_of(held[i], i).contains(chore);
        assert(held[i].wears(generation));
    }
    if !rules.is_live(generation) && exists|i: int|
        rules.keep <= i < held.len() && (#[trigger] held[i]).wears(generation) {
        let i = choose|i: int|
            rules.keep <= i < held.len() && (#[trigger] held[i]).wears(generation);
        let chores = rules.chores_of(held[i], i);
        if generation.gz && held[i].plain {
            assert(chores[1] == chore);
        } else {
            assert(chores[0] == chore);
        }
        assert(rules.chores_of(held[i], i).contains(chore));
    }
}

/// What is compressed is what is still plain of all that is kept but the
/// newest, unless it or the name it compresses into is a live log.
pub proof fn what_is_kept_but_the_newest_is_compressed(rules: Rules, held: Seq<Held>, slot: Slot)
    ensures
        rules.chores(held).contains(Chore::Compress(slot)) <==> rules.compress && !rules.is_live(
            Generation { slot, gz: false },
        ) && !rules.is_live(Generation { slot, gz: true }) && exists|i: int|
            1 <= i < held.len() && i < rules.keep && (#[trigger] held[i]).wears(
                Generation { slot, gz: false },
            ),
{
    let chore = Chore::Compress(slot);
    let plain = Generation { slot, gz: false };
    a_chore_has_its_generation(rules, held, chore);
    if rules.chores(held).contains(chore) {
        let i = choose|i: int|
            0 <= i < held.len() && #[trigger] rules.chores_of(held[i], i).contains(chore);
        assert(held[i].wears(plain));
    }
    if rules.compress && !rules.is_live(plain) && !rules.is_live(Generation { slot, gz: true })
        && exists|i: int|
        1 <= i < held.len() && i < rules.keep && (#[trigger] held[i]).wears(plain) {
        let i = choose|i: int|
            1 <= i < held.len() && i < rules.keep && (#[trigger] held[i]).wears(plain);
        assert(rules.chores_of(held[i], i)[0] == chore);
        assert(rules.chores_of(held[i], i).contains(chore));
    }
}

/// The newest generation is neither deleted nor compressed.
pub proof fn the_newest_generation_is_left_plain(
    rules: Rules,
    files: Seq<DirFile>,
    naming: Naming,
    gz: bool,
)
    requires
        rules.keep >= 1,
        held(files, rules.base, naming).len() > 0,
    ensures
        ({
            let all = held(files, rules.base, naming);
            let slot = all[0].slot;
            &&& !rules.chores(all).contains(Chore::Delete(Generation { slot, gz }))
            &&& !rules.chores(all).contains(Chore::Compress(slot))
        }),
{
    let all = held(files, rules.base, naming);
    let slot = all[0].slot;
    generations_stand_newest_first(files, rules.base, naming);
    what_is_past_keep_is_deleted(rules, all, Generation { slot, gz });
    what_is_kept_but_the_newest_is_compressed(rules, all, slot);
    assert forall|i: int| 1 <= i < all.len() implies (#[trigger] all[i]).slot != slot by {
        assert(newer(all[0].slot, all[i].slot));
        newer_is_an_order(slot, slot, naming);
    }
}

/// Every generation wears a file.
pub proof fn every_generation_wears_a_file(
    files: Seq<DirFile>,
    base: LogPathView,
    naming: Naming,
    i: int,
)
    requires
        0 <= i < held(files, base, naming).len(),
    ensures
        held(files, base, naming)[i].plain || held(files, base, naming)[i].gz,
    decreases files.len(),
{
    let before = held(files.drop_last(), base, naming);
    match generation_of(base, naming, files.last().name@) {
        Some(added) => {
            let n = place(before, added.slot);
            place_bounds(before, added.slot);
            if n < before.len() && before[n].slot == added.slot {
                if i != n {
                    every_generation_wears_a_file(files.drop_last(), base, naming, i);
                }
            } else if i < n {
                every_generation_wears_a_file(files.drop_last(), base, naming, i);
            } else if i > n {
                every_generation_wears_a_file(files.drop_last(), base, naming, i - 1);
            }
        },
        None => {
            every_generation_wears_a_file(files.drop_last(), base, naming, i);
        },
    }
}

/// What is refused is a file past `keep` that is a live log, or a plain file
/// that would be compressed if it, or the name it compresses into, were not one.
pub proof fn only_a_live_log_is_refused(rules: Rules, held: Seq<Held>, generation: Generation)
    ensures
        rules.chores(held).contains(Chore::Refuse(generation)) <==> {
            let slot = generation.slot;
            ||| rules.is_live(generation) && exists|i: int|
                rules.keep <= i < held.len() && (#[trigger] held[i]).wears(generation)
            ||| !generation.gz && rules.compress && (rules.is_live(generation) || rules.is_live(
                Generation { slot, gz: true },
            )) && exists|i: int|
                1 <= i < held.len() && i < rules.keep && (#[trigger] held[i]).wears(generation)
        },
{
    let chore = Chore::Refuse(generation);
    let slot = generation.slot;
    let plain = Generation { slot, gz: false };
    let packed = Generation { slot, gz: true };
    a_chore_has_its_generation(rules, held, chore);
    if rules.chores(held).contains(chore) {
        let i = choose|i: int|
            0 <= i < held.len() && #[trigger] rules.chores_of(held[i], i).contains(chore);
        assert(held[i].wears(generation));
    }
    if rules.is_live(generation) && exists|i: int|
        rules.keep <= i < held.len() && (#[trigger] held[i]).wears(generation) {
        let i = choose|i: int|
            rules.keep <= i < held.len() && (#[trigger] held[i]).wears(generation);
        let chores = rules.chores_of(held[i], i);
        if generation.gz && held[i].plain {
            assert(chores[1] == chore);
        } else {
            assert(chores[0] == chore);
        }
        assert(rules.chores_of(held[i], i).contains(chore));
    }
    if !generation.gz && rules.compress && (rules.is_live(generation) || rules.is_live(packed))
        && exists|i: int|
        1 <= i < held.len() && i < rules.keep && (#[trigger] held[i]).wears(generation) {
        let i = choose|i: int|
            1 <= i < held.len() && i < rules.keep && (#[trigger] held[i]).wears(generation);
        assert(generation == plain);
        assert(rules.chores_of(held[i], i)[0] == chore);
        assert(rules.chores_of(held[i], i).contains(chore));
    }
}

/// The slot that a chore is about.
pub open spec fn slot_of(chore: Chore) -> Slot {
    match chore {
        Chore::Delete(generation) => generation.slot,
        Chore::Compress(slot) => slot,
        Chore::Refuse(generation) => generation.slot,
    }
}

/// The chores of one generation are about it, and none of them is there twice.
proof fn chores_of_one(rules: Rules, held: Held, rank: int)
    ensures
        ({
            let chores = rules.chores_of(held, rank);
            &&& chores.len() <= 2
            &&& forall|k: int|
                0 <= k < chores.len() ==> slot_of(#[trigger] chores[k]) == held.slot
            &&& chores.len() == 2 ==> chores[0] != chores[1]
        }),
{
}

/// Which generation a chore is of.
proof fn the_rank_of_a_chore(rules: Rules, held: Seq<Held>, k: int) -> (i: int)
    requires
        0 <= k < rules.chores(held).len(),
    ensures
        0 <= i < held.len(),
        slot_of(rules.chores(held)[k]) == held[i].slot,
    decreases held.len(),
{
    let n = held.len() - 1;
    let a = rules.chores(held.drop_last());
    let b = rules.chores_of(held.last(), n);
    chores_of_one(rules, held.last(), n);
    if k < a.len() {
        assert(rules.chores(held)[k] == a[k]);
        the_rank_of_a_chore(rules, held.drop_last(), k)
    } else {
        assert(rules.chores(held)[k] == b[k - a.len()]);
        n
    }
}

/// The chores go from the newest generation to the oldest, and none of them is
/// there twice.
pub proof fn chores_go_from_new_to_old(
    rules: Rules,
    files: Seq<DirFile>,
    naming: Naming,
    k: int,
    m: int,
)
    requires
        0 <= k < m < rules.chores(held(files, rules.base, naming)).len(),
    ensures
        ({
            let chores = rules.chores(held(files, rules.base, naming));
            &&& chores[k] != chores[m]
            &&& newer(slot_of(chores[k]), slot_of(chores[m])) || slot_of(chores[k]) == slot_of(
                chores[m],
            )
        }),
{
    generations_stand_newest_first(files, rules.base, naming);
    chores_in_order(rules, held(files, rules.base, naming), naming, k, m);
}

/// The chores of generations that stand newest first do so too.
proof fn chores_in_order(rules: Rules, held: Seq<Held>, naming: Naming, k: int, m: int)
    requires
        newest_first(held),
        all_fit(held, naming),
        0 <= k < m < rules.chores(held).len(),
    ensures
        rules.chores(held)[k] != rules.chores(held)[m],
        newer(slot_of(rules.chores(held)[k]), slot_of(rules.chores(held)[m])) || slot_of(
            rules.chores(held)[k],
        ) == slot_of(rules.chores(held)[m]),
    decreases held.len(),
{
    let n = held.len() - 1;
    let before = held.drop_last();
    let a = rules.chores(before);
    let b = rules.chores_of(held.last(), n);
    let chores = rules.chores(held);
    assert(held[n] == held.last());
    chores_of_one(rules, held.last(), n);
    assert forall|i: int| 0 <= i < before.len() implies #[trigger] before[i] == held[i] by {}
    if m < a.len() {
        assert(chores[k] == a[k] && chores[m] == a[m]);
        assert(all_fit(before, naming));
        assert(newest_first(before));
        chores_in_order(rules, before, naming, k, m);
    } else if k < a.len() {
        let i = the_rank_of_a_chore(rules, before, k);
        assert(chores[k] == a[k]);
        assert(chores[m] == b[m - a.len()]);
        assert(newer(held[i].slot, held[n].slot));
        assert(fits(held[n].slot, naming));
        newer_is_an_order(held[n].slot, held[n].slot, naming);
    } else {
        assert(chores[k] == b[k - a.len()]);
        assert(chores[m] == b[m - a.len()]);
    }
}

/// A file is a live log if and only if the flock writes to its name in the
/// directory of the log.
pub proof fn a_generation_is_live_by_its_name(rules: Rules, generation: Generation)
    ensures
        rules.is_live(generation) <==> rules.protected.contains(
            (rules.dir, generation_name(rules.base, generation)),
        ),
{
}

} // verus!
