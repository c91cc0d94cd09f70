//! How one log is rotated: which files of its directory are renamed, and into
//! what.
//!
//! In the dated scheme the live log is renamed, and nothing else. In the
//! numeric one every generation moves up by one first, the oldest of them
//! first, so that none is ever overwritten.

use vstd::prelude::*;

use crate::config::Naming;
use crate::error::{Error, ErrorView};
use crate::naming::{fits, generation_name, name_of, Generation, LogPath, LogPathView, Slot};
use crate::prune::{generations, held, Held};
use crate::qualify::{DirFile, Moment};
use crate::stamp::{stamp_at, Stamp, END_OF_STAMPS};
use crate::text::chars_of;

verus! {

/// A renaming of a file within its directory.
#[derive(Debug, PartialEq, Eq)]
pub struct Move {
    /// What the file is called.
    pub from: String,
    /// What it is to be called.
    pub to: String,
}

/// A [`Move`] with its names as character sequences.
#[verifier::ext_equal]
pub struct MoveView {
    /// What the file is called.
    pub from: Seq<char>,
    /// What it is to be called.
    pub to: Seq<char>,
}

impl View for Move {
    type V = MoveView;

    open spec fn view(&self) -> MoveView {
        MoveView { from: self.from@, to: self.to@ }
    }
}

/// The moves, with their names as character sequences.
pub open spec fn move_views(moves: Seq<Move>) -> Seq<MoveView> {
    moves.map_values(|m: Move| m@)
}

/// The file `n`, compressed or plain.
pub open spec fn numbered(n: int, gz: bool) -> Generation {
    Generation { slot: Slot::Numeric(n as u32), gz }
}

/// A file of a numbered generation moves up by one.
pub open spec fn shift(base: LogPathView, n: int, gz: bool) -> MoveView {
    MoveView {
        from: generation_name(base, numbered(n, gz)),
        to: generation_name(base, numbered(n + 1, gz)),
    }
}

/// The number of a numbered generation.
pub open spec fn number(slot: Slot) -> int {
    match slot {
        Slot::Numeric(n) => n as int,
        Slot::Dated { .. } => 0,
    }
}

/// The files of a numbered generation move up by one.
pub open spec fn shifts_of(base: LogPathView, held: Held) -> Seq<MoveView> {
    (if held.plain {
        seq![shift(base, number(held.slot), false)]
    } else {
        Seq::empty()
    }) + (if held.gz {
        seq![shift(base, number(held.slot), true)]
    } else {
        Seq::empty()
    })
}

/// The files of all numbered generations move up by one, the oldest of them
/// first.
pub open spec fn shifts(base: LogPathView, held: Seq<Held>) -> Seq<MoveView>
    decreases held.len(),
{
    if held.len() == 0 {
        Seq::empty()
    } else {
        shifts_of(base, held.last()) + shifts(base, held.drop_last())
    }
}

/// The file that has the last number there is, so that it cannot move up.
pub open spec fn stuck(held: Seq<Held>) -> Option<Generation>
    decreases held.len(),
{
    if held.len() == 0 {
        None
    } else if held.last().slot == Slot::Numeric(u32::MAX) {
        Some(Generation { slot: held.last().slot, gz: !held.last().plain })
    } else {
        stuck(held.drop_last())
    }
}

/// Whether there is already a generation of that second with that counter.
pub open spec fn is_taken(held: Seq<Held>, stamp: Stamp, counter: u32) -> bool {
    exists|i: int|
        0 <= i < held.len() && (#[trigger] held[i]).slot == (Slot::Dated { stamp, counter })
}

/// The first counter from `counter` on that is free in one second, if there is
/// one.
pub open spec fn free_counter(held: Seq<Held>, stamp: Stamp, counter: u32) -> Option<u32>
    decreases u32::MAX - counter,
{
    if !is_taken(held, stamp, counter) {
        Some(counter)
    } else if counter == u32::MAX {
        None
    } else {
        free_counter(held, stamp, (counter + 1) as u32)
    }
}

/// The path of a file: its directory, a slash, and its name.
pub open spec fn joined(dir: Seq<char>, name: Seq<char>) -> Seq<char> {
    if dir.len() == 0 {
        name
    } else if dir.last() == '/' {
        dir + name
    } else {
        dir.push('/') + name
    }
}

/// What is renamed, in order; or the name of the file that would need a number
/// where there is none left.
pub open spec fn moves(
    base: LogPathView,
    naming: Naming,
    held: Seq<Held>,
    stamp: Stamp,
) -> Result<Seq<MoveView>, Seq<char>> {
    match naming {
        Naming::Numeric => match stuck(held) {
            Some(generation) => Err(generation_name(base, generation)),
            None => Ok(
                shifts(base, held).push(
                    MoveView {
                        from: base.live(),
                        to: generation_name(base, numbered(1, false)),
                    },
                ),
            ),
        },
        Naming::Dated => match free_counter(held, stamp, 0) {
            Some(counter) => Ok(
                seq![
                    MoveView {
                        from: base.live(),
                        to: generation_name(
                            base,
                            Generation { slot: Slot::Dated { stamp, counter }, gz: false },
                        ),
                    },
                ],
            ),
            None => Err(base.live()),
        },
    }
}

/// The path of the file called `name` in the directory `dir`.
pub fn join(dir: &String, name: &str) -> (s: String)
    ensures
        s@ == joined(dir@, name@),
{
    let mut s = dir.clone();
    let chars = chars_of(dir.as_str());
    if chars.len() == 0 {
        return name.to_owned();
    }
    if chars[chars.len() - 1] != '/' {
        s.push('/');
    }
    s.append(name);
    s
}

/// What is wrong with a clock whose second no dated name can spell.
pub const NO_STAMP: &'static str = "the clock shows a year that a generation's name cannot";

/// Whether `now` is in a second that a dated name can spell.
pub open spec fn has_stamp(now: Moment) -> bool {
    0 <= now.secs < END_OF_STAMPS
}

/// What is renamed in a rotation of `base` at `now`, of which `files` are the
/// regular files of its directory; or why nothing is.
pub open spec fn planned(
    base: LogPathView,
    naming: Naming,
    files: Seq<DirFile>,
    now: Moment,
) -> Result<Seq<MoveView>, ErrorView> {
    if naming == Naming::Dated && !has_stamp(now) {
        Err(ErrorView::Io { path: joined(base.dir, base.live()), source: NO_STAMP@ })
    } else {
        match moves(base, naming, held(files, base, naming), stamp_at(now.secs as int)) {
            Ok(plan) => Ok(plan),
            Err(name) => Err(ErrorView::Exhausted { path: joined(base.dir, name) }),
        }
    }
}

/// What is renamed in a rotation of `base` at `now`, of which `files` are the
/// regular files of its directory.
///
/// A generation counter is never wrapped: where there is no number left, that
/// is an error, and nothing is renamed. Nor is anything where the clock shows a
/// year that a dated name cannot spell in four digits.
pub fn rotate_plan(
    base: &LogPath,
    naming: Naming,
    files: &Vec<DirFile>,
    now: Moment,
) -> (r: Result<Vec<Move>, Error>)
    ensures
        match (r, planned(base@, naming, files@, now)) {
            (Ok(plan), Ok(expected)) => move_views(plan@) == expected,
            (Err(err), Err(expected)) => err@ == expected,
            _ => false,
        },
{
    let all = generations(files, base, naming);
    let ghost stamp = stamp_at(now.secs as int);
    match naming {
        Naming::Dated => {
            if now.secs < 0 || now.secs as u64 >= END_OF_STAMPS {
                let path = join(&base.dir, base.live_name().as_str());
                return Err(Error::io_at(path.as_str(), NO_STAMP.to_owned()));
            }
            let stamp = Stamp::from_secs(now.secs as u64);
            match find_counter(&all, stamp) {
                Some(counter) => {
                    let to = name_of(base, Slot::Dated { stamp, counter }, false);
                    let mut plan: Vec<Move> = Vec::new();
                    plan.push(Move { from: base.live_name(), to });
                    proof {
                        assert(move_views(plan@) =~= moves(base@, naming, all@, stamp)->Ok_0);
                    }
                    Ok(plan)
                },
                None => Err(
                    Error::Exhausted { path: join(&base.dir, base.live_name().as_str()) },
                ),
            }
        },
        Naming::Numeric => {
            if let Some(generation) = find_stuck(&all) {
                let name = name_of(base, generation.slot, generation.gz);
                return Err(Error::Exhausted { path: join(&base.dir, name.as_str()) });
            }
            proof {
                none_is_stuck(all@);
            }
            let mut plan = plan_shifts(base, &all);
            let to = name_of(base, Slot::Numeric(1), false);
            plan.push(Move { from: base.live_name(), to });
            proof {
                assert(move_views(plan@) =~= moves(base@, naming, all@, stamp)->Ok_0);
            }
            Ok(plan)
        },
    }
}

/// The file that has the last number there is.
fn find_stuck(all: &Vec<Held>) -> (r: Option<Generation>)
    ensures
        r == stuck(all@),
        r matches Some(generation) ==> generation.slot == Slot::Numeric(u32::MAX),
{
    let mut i: usize = all.len();
    proof {
        assert(all@.take(i as int) =~= all@);
    }
    while i > 0
        invariant
            i <= all@.len(),
            stuck(all@.take(i as int)) == stuck(all@),
        decreases i,
    {
        i -= 1;
        proof {
            assert(all@.take(i + 1).drop_last() =~= all@.take(i as int));
            assert(all@.take(i + 1).last() == all@[i as int]);
        }
        if all[i].slot == Slot::Numeric(u32::MAX) {
            return Some(Generation { slot: all[i].slot, gz: !all[i].plain });
        }
    }
    None
}

/// Where no file is stuck, none has the last number there is.
pub proof fn none_is_stuck(held: Seq<Held>)
    ensures
        stuck(held) is None <==> forall|i: int|
            0 <= i < held.len() ==> (#[trigger] held[i]).slot != Slot::Numeric(u32::MAX),
    decreases held.len(),
{
    if held.len() > 0 {
        let before = held.drop_last();
        none_is_stuck(before);
        assert(held[held.len() - 1] == held.last());
        assert forall|i: int| 0 <= i < before.len() implies #[trigger] held[i] == before[i] by {}
        if stuck(held) is None {
            assert forall|i: int| 0 <= i < held.len() implies (#[trigger] held[i]).slot
                != Slot::Numeric(u32::MAX) by {
                if i < before.len() {
                    assert(before[i].slot != Slot::Numeric(u32::MAX));
                }
            }
        } else if held.last().slot != Slot::Numeric(u32::MAX) {
            let i = choose|i: int|
                0 <= i < before.len() && (#[trigger] before[i]).slot == Slot::Numeric(u32::MAX);
            assert(held[i].slot == Slot::Numeric(u32::MAX));
        }
    }
}

/// Whether there is already a generation of that second with that counter.
fn has_taken(all: &Vec<Held>, stamp: Stamp, counter: u32) -> (r: bool)
    ensures
        r == is_taken(all@, stamp, counter),
{
    let slot = Slot::Dated { stamp, counter };
    let mut i: usize = 0;
    while i < all.len()
        invariant
            i <= all@.len(),
            slot == (Slot::Dated { stamp, counter }),
            forall|j: int| 0 <= j < i ==> (#[trigger] all@[j]).slot != slot,
        decreases all.len() - i,
    {
        if all[i].slot == slot {
            return true;
        }
        i += 1;
    }
    false
}

/// The first counter that is free in one second, if there is one.
fn find_counter(all: &Vec<Held>, stamp: Stamp) -> (r: Option<u32>)
    ensures
        r == free_counter(all@, stamp, 0),
{
    let mut counter: u32 = 0;
    while has_taken(all, stamp, counter)
        invariant
            free_counter(all@, stamp, counter) == free_counter(all@, stamp, 0),
        decreases u32::MAX - counter,
    {
        if counter == u32::MAX {
            return None;
        }
        counter += 1;
    }
    Some(counter)
}

/// A free counter is free, and every lower one is taken.
pub proof fn a_free_counter_is_the_first(held: Seq<Held>, stamp: Stamp, from: u32)
    ensures
        match free_counter(held, stamp, from) {
            Some(counter) => from <= counter && !is_taken(held, stamp, counter) && forall|c: u32|
                from <= c < counter ==> #[trigger] is_taken(held, stamp, c),
            None => forall|c: u32| from <= c ==> #[trigger] is_taken(held, stamp, c),
        },
    decreases u32::MAX - from,
{
    if is_taken(held, stamp, from) && from < u32::MAX {
        a_free_counter_is_the_first(held, stamp, (from + 1) as u32);
    }
}

/// The files of all numbered generations move up by one, the oldest of them
/// first.
fn plan_shifts(base: &LogPath, all: &Vec<Held>) -> (plan: Vec<Move>)
    requires
        forall|i: int|
            0 <= i < all@.len() ==> (#[trigger] all@[i]).slot != Slot::Numeric(u32::MAX),
        forall|i: int| 0 <= i < all@.len() ==> fits((#[trigger] all@[i]).slot, Naming::Numeric),
    ensures
        move_views(plan@) == shifts(base@, all@),
{
    let mut plan: Vec<Move> = Vec::new();
    let mut i: usize = all.len();
    proof {
        assert(all@.take(i as int) =~= all@);
        assert(move_views(plan@) + shifts(base@, all@) =~= shifts(base@, all@));
    }
    while i > 0
        invariant
            i <= all@.len(),
            forall|i: int|
                0 <= i < all@.len() ==> (#[trigger] all@[i]).slot != Slot::Numeric(u32::MAX),
            forall|i: int| 0 <= i < all@.len() ==> fits((#[trigger] all@[i]).slot, Naming::Numeric),
            move_views(plan@) + shifts(base@, all@.take(i as int)) == shifts(base@, all@),
        decreases i,
    {
        i -= 1;
        let one = all[i];
        let ghost before = move_views(plan@);
        proof {
            assert(fits(one.slot, Naming::Numeric));
            assert(one.slot != Slot::Numeric(u32::MAX)) by {
                assert(all@[i as int] == one);
            }
            assert(all@.take(i + 1).drop_last() =~= all@.take(i as int));
            assert(all@.take(i + 1).last() == one);
        }
        if let Slot::Numeric(n) = one.slot {
            if one.plain {
                plan.push(
                    Move {
                        from: name_of(base, Slot::Numeric(n), false),
                        to: name_of(base, Slot::Numeric(n + 1), false),
                    },
                );
            }
            if one.gz {
                plan.push(
                    Move {
                        from: name_of(base, Slot::Numeric(n), true),
                        to: name_of(base, Slot::Numeric(n + 1), true),
                    },
                );
            }
        }
        proof {
            assert(move_views(plan@) =~= before + shifts_of(base@, one));
            assert(before + (shifts_of(base@, one) + shifts(base@, all@.take(i as int))) =~= (before
                + shifts_of(base@, one)) + shifts(base@, all@.take(i as int)));
        }
    }
    proof {
        assert(move_views(plan@) + Seq::<MoveView>::empty() =~= move_views(plan@));
    }
    plan
}

/// A path is a directory and a name in it, with one slash between them at
/// least; without a directory it is the name alone.
pub proof fn a_path_is_a_directory_and_a_name(dir: Seq<char>, name: Seq<char>)
    ensures
        ({
            let path = joined(dir, name);
            let k = path.len() - name.len();
            &&& k >= 0
            &&& path.skip(k) == name
            &&& dir.len() == 0 ==> k == 0
            &&& dir.len() > 0 ==> path.take(dir.len() as int) == dir && path[k - 1] == '/'
            &&& dir.len() > 0 ==> k == dir.len() + if dir.last() == '/' {
                0int
            } else {
                1
            }
        }),
{
    let path = joined(dir, name);
    let k = path.len() - name.len();
    assert(path.skip(k) =~= name);
    if dir.len() > 0 {
        assert(path.take(dir.len() as int) =~= dir);
    }
}

/// Moves, with their names as characters, stand in the order of what they are of.
pub proof fn moves_stand_in_order(moves: Seq<Move>, i: int)
    ensures
        move_views(moves).len() == moves.len(),
        0 <= i < moves.len() ==> move_views(moves)[i].from == moves[i].from@ && move_views(
            moves,
        )[i].to == moves[i].to@,
{
}

} // verus!
