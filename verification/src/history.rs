//! What rotating and pruning do to the files of a directory: nothing is
//! overwritten, nothing is lost but what is past `keep`, and no live log is
//! touched.
//!
//! A directory is a map from names to contents, whatever the contents are; or
//! a set of names, where the contents do not matter.

use vstd::prelude::*;

use crate::config::Naming;
use crate::error::ErrorView;
use crate::flock::{collides, member_of_push, FileId, LogView};
use crate::naming::{
    a_written_name_is_recognised, fits, generation_name, generation_of, is_generation, names_are_distinct,
    names_are_longer_than_the_live_one, the_live_log_is_no_generation, Generation, LogPathView,
    Slot,
};
use crate::prune::{
    every_generation_wears_a_file, generations_stand_newest_first, generations_wear_what_is_there, held, is_there, is_worn,
    newest_first, what_is_kept_but_the_newest_is_compressed, what_is_past_keep_is_deleted, Chore,
    Held, Rules,
};
use crate::qualify::{newer, DirFile, Moment};
use crate::rotate::{
    a_free_counter_is_the_first, free_counter, is_taken, joined, moves, none_is_stuck, number,
    numbered, planned, shift, shifts, shifts_of, stuck, MoveView, NO_STAMP,
};
use crate::stamp::{
    epochs_fit, every_second_has_a_date, stamp_at, the_epoch_follows_the_calendar, Stamp,
};
use crate::text::numeral;

verus! {

/// A directory after a file in it was renamed.
pub open spec fn renamed<C>(dir: Map<Seq<char>, C>, m: MoveView) -> Map<Seq<char>, C> {
    dir.remove(m.from).insert(m.to, dir[m.from])
}

/// A directory after all of `plan` was done, in order.
pub open spec fn all_renamed<C>(dir: Map<Seq<char>, C>, plan: Seq<MoveView>) -> Map<Seq<char>, C>
    decreases plan.len(),
{
    if plan.len() == 0 {
        dir
    } else {
        renamed(all_renamed(dir, plan.drop_last()), plan.last())
    }
}

/// Whether a renaming finds its file, and nothing that it overwrites.
pub open spec fn finds_room<C>(dir: Map<Seq<char>, C>, m: MoveView) -> bool {
    dir.contains_key(m.from) && !dir.contains_key(m.to)
}

/// Whether each renaming of a plan finds its file when its turn comes, and
/// nothing that it overwrites.
pub open spec fn overwrites_nothing<C>(dir: Map<Seq<char>, C>, plan: Seq<MoveView>) -> bool {
    forall|k: int|
        0 <= k < plan.len() ==> finds_room(all_renamed(dir, plan.take(k)), #[trigger] plan[k])
}

/// Whether `held` are the generations of `base` in `dir`, and its live log is
/// there too.
pub open spec fn is_directory_of<C>(
    dir: Map<Seq<char>, C>,
    base: LogPathView,
    naming: Naming,
    held: Seq<Held>,
) -> bool {
    &&& dir.contains_key(base.live())
    &&& forall|generation: Generation|
        fits(generation.slot, naming) ==> (dir.contains_key(
            #[trigger] generation_name(base, generation),
        ) <==> is_worn(held, generation))
}

/// Whether every one of `held` is a generation of the scheme.
pub open spec fn are_of(held: Seq<Held>, naming: Naming) -> bool {
    forall|i: int| 0 <= i < held.len() ==> fits((#[trigger] held[i]).slot, naming)
}

/// The name under which stood before what stands under `name` once the
/// generations of which `moved` holds have moved up by one; `None` if nothing
/// stands there then.
spec fn origin(
    base: LogPathView,
    moved: spec_fn(Generation) -> bool,
    name: Seq<char>,
) -> Option<Seq<char>> {
    match generation_of(base, Naming::Numeric, name) {
        Some(generation) => {
            let n = number(generation.slot);
            let below = numbered(n - 1, generation.gz);
            if n > 1 && moved(below) {
                Some(generation_name(base, below))
            } else if moved(generation) {
                None
            } else {
                Some(name)
            }
        },
        None => Some(name),
    }
}

/// Whether under `name` stands what stood where it came from.
spec fn stands<C>(
    now: Map<Seq<char>, C>,
    dir: Map<Seq<char>, C>,
    base: LogPathView,
    moved: spec_fn(Generation) -> bool,
    name: Seq<char>,
) -> bool {
    match origin(base, moved, name) {
        Some(from) => {
            &&& now.contains_key(name) == dir.contains_key(from)
            &&& dir.contains_key(from) ==> now[name] == dir[from]
        },
        None => !now.contains_key(name),
    }
}

/// Whether `now` is `dir` with the generations moved up of which `moved` holds.
spec fn is_moved<C>(
    now: Map<Seq<char>, C>,
    dir: Map<Seq<char>, C>,
    base: LogPathView,
    moved: spec_fn(Generation) -> bool,
) -> bool {
    forall|name: Seq<char>| #[trigger] stands(now, dir, base, moved, name)
}

/// One file more moves up.
proof fn one_more_moves<C>(
    now: Map<Seq<char>, C>,
    dir: Map<Seq<char>, C>,
    base: LogPathView,
    moved: spec_fn(Generation) -> bool,
    n: int,
    gz: bool,
)
    requires
        is_moved(now, dir, base, moved),
        1 <= n < u32::MAX,
        dir.contains_key(generation_name(base, numbered(n, gz))),
        !moved(numbered(n, gz)),
        n > 1 ==> !moved(numbered(n - 1, gz)),
        dir.contains_key(generation_name(base, numbered(n + 1, gz))) ==> moved(numbered(n + 1, gz)),
    ensures
        finds_room(now, shift(base, n, gz)),
        is_moved(
            renamed(now, shift(base, n, gz)),
            dir,
            base,
            |generation: Generation| moved(generation) || generation == numbered(n, gz),
        ),
{
    let this = numbered(n, gz);
    let above = numbered(n + 1, gz);
    let m = shift(base, n, gz);
    let after = |generation: Generation| moved(generation) || generation == this;
    a_written_name_is_recognised(base, Naming::Numeric, this);
    a_written_name_is_recognised(base, Naming::Numeric, above);
    assert(numbered(n + 1 - 1, gz) == this);
    assert(stands(now, dir, base, moved, m.from));
    assert(stands(now, dir, base, moved, m.to));
    let next = renamed(now, m);
    assert forall|name: Seq<char>| #[trigger] stands(next, dir, base, after, name) by {
        assert(stands(now, dir, base, moved, name));
        if name == m.to {
            assert(after(this));
        } else if name == m.from {
            assert(after(this));
            if n > 1 {
                assert(!after(numbered(n - 1, gz)));
            }
        } else {
            if let Some(generation) = generation_of(base, Naming::Numeric, name) {
                let k = number(generation.slot);
                let below = numbered(k - 1, generation.gz);
                assert(fits(generation.slot, Naming::Numeric));
                assert(name == generation_name(base, generation));
                assert(generation == numbered(k, generation.gz));
                assert(generation != this);
                if k > 1 && below == this {
                    assert(generation == above);
                }
            }
            assert(origin(base, after, name) == origin(base, moved, name));
        }
    }
}

/// The files of the generations from `i` on move up, the oldest of them first.
spec fn shifts_from(base: LogPathView, held: Seq<Held>, i: int) -> Seq<MoveView>
    decreases held.len() - i,
{
    if i >= held.len() {
        Seq::empty()
    } else {
        shifts_from(base, held, i + 1) + shifts_of(base, held[i])
    }
}

/// First those from `i` on move up, and then those below.
proof fn shifts_split(base: LogPathView, held: Seq<Held>, i: int)
    requires
        0 <= i <= held.len(),
    ensures
        shifts_from(base, held, i) + shifts(base, held.take(i)) == shifts(base, held),
    decreases held.len() - i,
{
    if i == held.len() {
        assert(held.take(i) =~= held);
        assert(shifts_from(base, held, i) + shifts(base, held) =~= shifts(base, held));
    } else {
        shifts_split(base, held, i + 1);
        assert(held.take(i + 1).drop_last() =~= held.take(i));
        assert(held.take(i + 1).last() == held[i]);
        let a = shifts_from(base, held, i + 1);
        let b = shifts_of(base, held[i]);
        let c = shifts(base, held.take(i));
        assert((a + b) + c =~= a + (b + c));
    }
}

/// One renaming more that finds room.
proof fn one_more_finds_room<C>(dir: Map<Seq<char>, C>, plan: Seq<MoveView>, m: MoveView)
    requires
        overwrites_nothing(dir, plan),
        finds_room(all_renamed(dir, plan), m),
    ensures
        overwrites_nothing(dir, plan.push(m)),
        all_renamed(dir, plan.push(m)) == renamed(all_renamed(dir, plan), m),
{
    let longer = plan.push(m);
    assert(longer.drop_last() =~= plan);
    assert forall|k: int| 0 <= k < longer.len() implies finds_room(
        all_renamed(dir, longer.take(k)),
        #[trigger] longer[k],
    ) by {
        if k < plan.len() {
            assert(longer.take(k) =~= plan.take(k));
            assert(longer[k] == plan[k]);
        } else {
            assert(longer.take(k) =~= plan);
        }
    }
}

/// Whether the generations from `i` on wear `generation`.
spec fn is_behind(held: Seq<Held>, i: int, generation: Generation) -> bool {
    exists|j: int| i <= j < held.len() && (#[trigger] held[j]).wears(generation)
}

/// Of the files that `one` of `held` wears, those behind it leave room.
proof fn those_behind_leave_room<C>(
    dir: Map<Seq<char>, C>,
    base: LogPathView,
    held: Seq<Held>,
    i: int,
    gz: bool,
)
    requires
        is_directory_of(dir, base, Naming::Numeric, held),
        are_of(held, Naming::Numeric),
        newest_first(held),
        stuck(held) is None,
        0 <= i < held.len(),
    ensures
        ({
            let n = number(held[i].slot);
            &&& 1 <= n < u32::MAX
            &&& held[i].slot == numbered(n, gz).slot
            &&& !is_behind(held, i + 1, numbered(n, gz))
            &&& n > 1 ==> !is_behind(held, i + 1, numbered(n - 1, gz))
            &&& dir.contains_key(generation_name(base, numbered(n + 1, gz))) ==> is_behind(
                held,
                i + 1,
                numbered(n + 1, gz),
            )
            &&& held[i].wears(numbered(n, gz)) ==> dir.contains_key(
                generation_name(base, numbered(n, gz)),
            )
        }),
{
    assert(fits(held[i].slot, Naming::Numeric));
    none_is_stuck(held);
    let n = number(held[i].slot);
    assert forall|j: int| i < j < held.len() implies number((#[trigger] held[j]).slot) > n by {
        assert(newer(held[i].slot, held[j].slot));
        assert(fits(held[j].slot, Naming::Numeric));
    }
    let above = numbered(n + 1, gz);
    assert(fits(above.slot, Naming::Numeric));
    if dir.contains_key(generation_name(base, above)) {
        assert(is_worn(held, above));
        let j = choose|j: int| 0 <= j < held.len() && (#[trigger] held[j]).wears(above);
        if j < i {
            assert(newer(held[j].slot, held[i].slot));
        }
        assert(i + 1 <= j);
    }
    let this = numbered(n, gz);
    assert(fits(this.slot, Naming::Numeric));
    if held[i].wears(this) {
        assert(is_worn(held, this));
    }
}

/// Those from `i` on are the one at `i` and those behind it.
proof fn behind_and_one(held: Seq<Held>, i: int, generation: Generation)
    requires
        0 <= i < held.len(),
    ensures
        is_behind(held, i, generation) <==> is_behind(held, i + 1, generation) || held[i].wears(
            generation,
        ),
{
    if is_behind(held, i, generation) {
        let j = choose|j: int| i <= j < held.len() && (#[trigger] held[j]).wears(generation);
        if j > i {
            assert(i + 1 <= j);
        }
    }
    if is_behind(held, i + 1, generation) {
        let j = choose|j: int| i + 1 <= j < held.len() && (#[trigger] held[j]).wears(generation);
        assert(i <= j);
    }
}

/// The generations from `i` on have moved up.
proof fn those_from_there_move<C>(
    dir: Map<Seq<char>, C>,
    base: LogPathView,
    held: Seq<Held>,
    i: int,
)
    requires
        is_directory_of(dir, base, Naming::Numeric, held),
        are_of(held, Naming::Numeric),
        newest_first(held),
        stuck(held) is None,
        0 <= i <= held.len(),
    ensures
        overwrites_nothing(dir, shifts_from(base, held, i)),
        is_moved(
            all_renamed(dir, shifts_from(base, held, i)),
            dir,
            base,
            |generation: Generation| is_behind(held, i, generation),
        ),
    decreases held.len() - i,
{
    let plan = shifts_from(base, held, i);
    let moved = |generation: Generation| is_behind(held, i, generation);
    if i == held.len() {
        assert forall|name: Seq<char>| #[trigger] stands(dir, dir, base, moved, name) by {
            assert(origin(base, moved, name) == Some(name));
        }
    } else {
        let earlier = shifts_from(base, held, i + 1);
        let behind = |generation: Generation| is_behind(held, i + 1, generation);
        those_from_there_move(dir, base, held, i + 1);
        those_behind_leave_room(dir, base, held, i, false);
        those_behind_leave_room(dir, base, held, i, true);
        let one = held[i];
        let n = number(one.slot);
        let plain = numbered(n, false);
        let packed = numbered(n, true);
        let half = if one.plain {
            earlier.push(shift(base, n, false))
        } else {
            earlier
        };
        let halfway = |generation: Generation|
            behind(generation) || (one.plain && generation == plain);
        if one.plain {
            one_more_moves(all_renamed(dir, earlier), dir, base, behind, n, false);
            one_more_finds_room(dir, earlier, shift(base, n, false));
            let step = |generation: Generation| behind(generation) || generation == plain;
            same_moves(all_renamed(dir, half), dir, base, step, halfway);
        } else {
            same_moves(all_renamed(dir, half), dir, base, behind, halfway);
        }
        let whole = if one.gz {
            half.push(shift(base, n, true))
        } else {
            half
        };
        assert(plan =~= whole);
        assert forall|generation: Generation|
            (halfway(generation) || (one.gz && generation == packed)) == #[trigger] moved(
                generation,
            ) by {
            behind_and_one(held, i, generation);
        }
        if one.gz {
            assert(!halfway(numbered(n, true)));
            one_more_moves(all_renamed(dir, half), dir, base, halfway, n, true);
            one_more_finds_room(dir, half, shift(base, n, true));
            let step = |generation: Generation| halfway(generation) || generation == packed;
            same_moves(all_renamed(dir, whole), dir, base, step, moved);
        } else {
            same_moves(all_renamed(dir, whole), dir, base, halfway, moved);
        }
    }
}

/// The same files moved, however that is said.
proof fn same_moves<C>(
    now: Map<Seq<char>, C>,
    dir: Map<Seq<char>, C>,
    base: LogPathView,
    a: spec_fn(Generation) -> bool,
    b: spec_fn(Generation) -> bool,
)
    requires
        is_moved(now, dir, base, a),
        forall|generation: Generation| a(generation) == #[trigger] b(generation),
    ensures
        is_moved(now, dir, base, b),
{
    assert forall|name: Seq<char>| #[trigger] stands(now, dir, base, b, name) by {
        assert(stands(now, dir, base, a, name));
        if let Some(generation) = generation_of(base, Naming::Numeric, name) {
            let below = numbered(number(generation.slot) - 1, generation.gz);
            assert(a(generation) == b(generation));
            assert(a(below) == b(below));
        }
        assert(origin(base, a, name) == origin(base, b, name));
    }
}

/// Whether `files` are the files of `dir`.
pub open spec fn lists<C>(dir: Map<Seq<char>, C>, files: Seq<DirFile>) -> bool {
    forall|name: Seq<char>| #[trigger]
        dir.contains_key(name) <==> exists|i: int|
            0 <= i < files.len() && (#[trigger] files[i]).name@ == name
}

/// A listing of a directory shows the generations that are there.
proof fn a_listing_shows_the_generations<C>(
    dir: Map<Seq<char>, C>,
    files: Seq<DirFile>,
    base: LogPathView,
    naming: Naming,
)
    requires
        lists(dir, files),
        dir.contains_key(base.live()),
    ensures
        is_directory_of(dir, base, naming, held(files, base, naming)),
        are_of(held(files, base, naming), naming),
        newest_first(held(files, base, naming)),
{
    let all = held(files, base, naming);
    generations_stand_newest_first(files, base, naming);
    assert forall|generation: Generation| fits(generation.slot, naming) implies (dir.contains_key(
        #[trigger] generation_name(base, generation),
    ) <==> is_worn(all, generation)) by {
        let name = generation_name(base, generation);
        generations_wear_what_is_there(files, base, naming, generation);
        a_written_name_is_recognised(base, naming, generation);
        if dir.contains_key(name) {
            let i = choose|i: int| 0 <= i < files.len() && (#[trigger] files[i]).name@ == name;
            assert(generation_of(base, naming, files[i].name@) == Some(generation));
        }
        if is_there(files, base, naming, generation) {
            let i = choose|i: int|
                0 <= i < files.len() && generation_of(base, naming, (#[trigger] files[i]).name@)
                    == Some(generation);
            assert(files[i].name@ == name);
        }
    }
}

/// A rotation in the numeric scheme moves every generation up by one and the
/// live log into the first place. It overwrites nothing on the way, and leaves
/// every other file where it was.
pub proof fn a_numeric_rotation_moves_everything_up<C>(
    dir: Map<Seq<char>, C>,
    files: Seq<DirFile>,
    base: LogPathView,
    stamp: Stamp,
    generation: Generation,
    other: Seq<char>,
)
    requires
        lists(dir, files),
        dir.contains_key(base.live()),
        moves(base, Naming::Numeric, held(files, base, Naming::Numeric), stamp) is Ok,
        fits(generation.slot, Naming::Numeric),
        other != base.live(),
        generation_of(base, Naming::Numeric, other) is None,
    ensures
        ({
            let plan = moves(
                base,
                Naming::Numeric,
                held(files, base, Naming::Numeric),
                stamp,
            )->Ok_0;
            let now = all_renamed(dir, plan);
            let name = generation_name(base, generation);
            let above = generation_name(base, numbered(number(generation.slot) + 1, generation.gz));
            let first = generation_name(base, numbered(1, false));
            &&& overwrites_nothing(dir, plan)
            &&& !now.contains_key(base.live())
            &&& now.contains_key(first) && now[first] == dir[base.live()]
            &&& dir.contains_key(name) ==> now.contains_key(above) && now[above] == dir[name]
            &&& now.contains_key(other) == dir.contains_key(other)
            &&& dir.contains_key(other) ==> now[other] == dir[other]
        }),
{
    let all = held(files, base, Naming::Numeric);
    let up = shifts(base, all);
    let plan = moves(base, Naming::Numeric, all, stamp)->Ok_0;
    let moved = |generation: Generation| is_behind(all, 0, generation);
    let then = all_renamed(dir, up);
    let live = base.live();
    let first = numbered(1, false);
    none_is_stuck(all);
    a_listing_shows_the_generations(dir, files, base, Naming::Numeric);
    those_from_there_move(dir, base, all, 0);
    shifts_split(base, all, 0);
    assert(all.take(0) =~= Seq::empty());
    assert(shifts_from(base, all, 0) + shifts(base, all.take(0)) =~= shifts_from(base, all, 0));
    assert(up == shifts_from(base, all, 0));

    the_live_log_is_no_generation(base, Naming::Numeric);
    assert(stands(then, dir, base, moved, live));
    a_written_name_is_recognised(base, Naming::Numeric, first);
    assert(stands(then, dir, base, moved, generation_name(base, first)));
    assert(!then.contains_key(generation_name(base, first))) by {
        if is_worn(all, first) {
            let j = choose|j: int| 0 <= j < all.len() && (#[trigger] all[j]).wears(first);
            assert(is_behind(all, 0, first));
        }
    }
    let last = MoveView { from: live, to: generation_name(base, first) };
    one_more_finds_room(dir, up, last);

    let name = generation_name(base, generation);
    let n = number(generation.slot);
    if dir.contains_key(name) {
        assert(is_worn(all, generation));
        let j = choose|j: int| 0 <= j < all.len() && (#[trigger] all[j]).wears(generation);
        assert(n < u32::MAX) by {
            assert(all[j].slot == generation.slot);
        }
        assert(moved(generation));
        let above = numbered(n + 1, generation.gz);
        assert(generation == numbered(n + 1 - 1, generation.gz));
        a_written_name_is_recognised(base, Naming::Numeric, above);
        names_are_longer_than_the_live_one(base, Naming::Numeric, above);
        assert(stands(then, dir, base, moved, generation_name(base, above)));
        if generation_name(base, above) == generation_name(base, first) {
            names_are_distinct(base, Naming::Numeric, above, first);
        }
    }
    assert(stands(then, dir, base, moved, other));
    assert(other != generation_name(base, first));
    names_are_longer_than_the_live_one(base, Naming::Numeric, first);
}

/// A rotation in the dated scheme renames the live log, and nothing else. It
/// overwrites nothing, not even a generation that is there in its compressed
/// form only, and what it writes is newer than every generation of an earlier
/// second.
pub proof fn a_dated_rotation_moves_only_the_live_log<C>(
    dir: Map<Seq<char>, C>,
    files: Seq<DirFile>,
    base: LogPathView,
    stamp: Stamp,
    generation: Generation,
    other: Seq<char>,
)
    requires
        stamp.valid(),
        lists(dir, files),
        dir.contains_key(base.live()),
        moves(base, Naming::Dated, held(files, base, Naming::Dated), stamp) is Ok,
        fits(generation.slot, Naming::Dated),
        generation.slot->stamp.epoch() < stamp.epoch(),
        other != base.live(),
    ensures
        ({
            let all = held(files, base, Naming::Dated);
            let plan = moves(base, Naming::Dated, all, stamp)->Ok_0;
            let now = all_renamed(dir, plan);
            let slot = Slot::Dated { stamp, counter: free_counter(all, stamp, 0)->0 };
            let written = generation_name(base, Generation { slot, gz: false });
            &&& overwrites_nothing(dir, plan)
            &&& !dir.contains_key(generation_name(base, Generation { slot, gz: true }))
            &&& !now.contains_key(base.live())
            &&& now.contains_key(written) && now[written] == dir[base.live()]
            &&& other != written ==> {
                &&& now.contains_key(other) == dir.contains_key(other)
                &&& dir.contains_key(other) ==> now[other] == dir[other]
            }
            &&& newer(slot, generation.slot)
        }),
{
    let all = held(files, base, Naming::Dated);
    let plan = moves(base, Naming::Dated, all, stamp)->Ok_0;
    let slot = Slot::Dated { stamp, counter: free_counter(all, stamp, 0)->0 };
    let written = Generation { slot, gz: false };
    let m = MoveView { from: base.live(), to: generation_name(base, written) };
    a_listing_shows_the_generations(dir, files, base, Naming::Dated);
    names_are_longer_than_the_live_one(base, Naming::Dated, written);
    a_free_counter_is_the_first(all, stamp, 0);
    let packed = Generation { slot, gz: true };
    if is_worn(all, written) {
        let j = choose|j: int| 0 <= j < all.len() && (#[trigger] all[j]).wears(written);
        assert(is_taken(all, stamp, slot->counter));
    }
    if is_worn(all, packed) {
        let j = choose|j: int| 0 <= j < all.len() && (#[trigger] all[j]).wears(packed);
        assert(is_taken(all, stamp, slot->counter));
    }
    assert(fits(packed.slot, Naming::Dated));
    let none = Seq::<MoveView>::empty();
    assert(overwrites_nothing(dir, none));
    one_more_finds_room(dir, none, m);
    assert(plan =~= none.push(m));
}

/// What moves up is a generation, and becomes one.
proof fn shifts_are_of_generations(base: LogPathView, held: Seq<Held>, k: int)
    requires
        are_of(held, Naming::Numeric),
        stuck(held) is None,
        0 <= k < shifts(base, held).len(),
    ensures
        is_generation(base, Naming::Numeric, shifts(base, held)[k].from),
        is_generation(base, Naming::Numeric, shifts(base, held)[k].to),
    decreases held.len(),
{
    none_is_stuck(held);
    let one = held.last();
    let before = held.drop_last();
    assert(held[held.len() - 1] == one);
    let n = number(one.slot);
    assert(fits(one.slot, Naming::Numeric));
    assert forall|i: int| 0 <= i < before.len() implies #[trigger] before[i] == held[i] by {}
    none_is_stuck(before);
    assert forall|gz: bool|
        is_generation(base, Naming::Numeric, #[trigger] shift(base, n, gz).from)
            && is_generation(base, Naming::Numeric, shift(base, n, gz).to) by {
        assert(fits(numbered(n, gz).slot, Naming::Numeric));
        assert(fits(numbered(n + 1, gz).slot, Naming::Numeric));
    }
    let first = shifts_of(base, one);
    if k < first.len() {
        assert(shifts(base, held)[k] == first[k]);
        assert(first[k] == shift(base, n, false) || first[k] == shift(base, n, true));
    } else {
        assert(shifts(base, held)[k] == shifts(base, before)[k - first.len()]);
        shifts_are_of_generations(base, before, k - first.len());
    }
}

/// Rotating a log that does not collide renames no live log but itself, and
/// renames nothing into one.
pub proof fn no_move_touches_another_live_log(
    log: LogView,
    naming: Naming,
    files: Seq<DirFile>,
    stamp: Stamp,
    protected: Set<FileId>,
    k: int,
)
    requires
        naming == Naming::Dated ==> stamp.valid(),
        !collides(log, naming, protected),
        moves(log.base, naming, held(files, log.base, naming), stamp) is Ok,
        0 <= k < moves(log.base, naming, held(files, log.base, naming), stamp)->Ok_0.len(),
    ensures
        ({
            let m = moves(log.base, naming, held(files, log.base, naming), stamp)->Ok_0[k];
            &&& !protected.contains((log.dir, m.to))
            &&& m.from == log.base.live() || !protected.contains((log.dir, m.from))
        }),
{
    let all = held(files, log.base, naming);
    let plan = moves(log.base, naming, all, stamp)->Ok_0;
    generations_stand_newest_first(files, log.base, naming);
    match naming {
        Naming::Numeric => {
            if k < shifts(log.base, all).len() {
                shifts_are_of_generations(log.base, all, k);
            } else {
                assert(fits(numbered(1, false).slot, naming));
            }
        },
        Naming::Dated => {
            let counter = free_counter(all, stamp, 0)->0;
            let written = Generation { slot: Slot::Dated { stamp, counter }, gz: false };
            assert(fits(written.slot, naming));
        },
    }
    assert(is_generation(log.base, naming, plan[k].to));
    if protected.contains((log.dir, plan[k].to)) {
        assert(is_generation(log.base, naming, plan[k].to));
    }
    if plan[k].from != log.base.live() && protected.contains((log.dir, plan[k].from)) {
        assert(is_generation(log.base, naming, plan[k].from));
    }
}

/// The names in a directory after a chore.
pub open spec fn done(names: Set<Seq<char>>, base: LogPathView, chore: Chore) -> Set<Seq<char>> {
    match chore {
        Chore::Delete(generation) => names.remove(generation_name(base, generation)),
        Chore::Compress(slot) => names.remove(
            generation_name(base, Generation { slot, gz: false }),
        ).insert(generation_name(base, Generation { slot, gz: true })),
        Chore::Refuse(_) => names,
    }
}

/// The names in a directory after all chores.
pub open spec fn all_done(
    names: Set<Seq<char>>,
    base: LogPathView,
    chores: Seq<Chore>,
) -> Set<Seq<char>>
    decreases chores.len(),
{
    if chores.len() == 0 {
        names
    } else {
        done(all_done(names, base, chores.drop_last()), base, chores.last())
    }
}

/// Whether every chore is about a generation of the scheme.
spec fn chores_fit(chores: Seq<Chore>, naming: Naming) -> bool {
    forall|k: int|
        0 <= k < chores.len() ==> match #[trigger] chores[k] {
            Chore::Delete(generation) => fits(generation.slot, naming),
            Chore::Compress(slot) => fits(slot, naming),
            Chore::Refuse(generation) => fits(generation.slot, naming),
        }
}

/// What is there after all chores was there before or was made by compressing,
/// and was not deleted, unless it was compressed too.
proof fn what_is_left(
    names: Set<Seq<char>>,
    base: LogPathView,
    naming: Naming,
    chores: Seq<Chore>,
    generation: Generation,
)
    requires
        fits(generation.slot, naming),
        chores_fit(chores, naming),
        all_done(names, base, chores).contains(generation_name(base, generation)),
    ensures
        names.contains(generation_name(base, generation)) || chores.contains(
            Chore::Compress(generation.slot),
        ),
        chores.contains(Chore::Delete(generation)) ==> chores.contains(
            Chore::Compress(generation.slot),
        ),
    decreases chores.len(),
{
    let name = generation_name(base, generation);
    if chores.len() > 0 {
        let before = chores.drop_last();
        let last = chores.last();
        assert(chores[chores.len() - 1] == last);
        assert forall|k: int| 0 <= k < before.len() implies #[trigger] before[k] == chores[k] by {}
        assert(chores =~= before.push(last));
        member_of_push(before, last, Chore::Compress(generation.slot));
        member_of_push(before, last, Chore::Delete(generation));
        assert(chores_fit(before, naming)) by {
            assert forall|k: int| 0 <= k < before.len() implies match #[trigger] before[k] {
                Chore::Delete(generation) => fits(generation.slot, naming),
                Chore::Compress(slot) => fits(slot, naming),
                Chore::Refuse(generation) => fits(generation.slot, naming),
            } by {
                assert(before[k] == chores[k]);
            }
        }
        if last != Chore::Compress(generation.slot) {
            if let Chore::Compress(slot) = last {
                let packed = Generation { slot, gz: true };
                if generation_name(base, packed) == name {
                    names_are_distinct(base, naming, packed, generation);
                }
            }
            what_is_left(names, base, naming, before, generation);
        }
    }
}

/// The chores of generations of a scheme are about such generations.
proof fn chores_of_generations_fit(rules: Rules, held: Seq<Held>, naming: Naming)
    requires
        are_of(held, naming),
    ensures
        chores_fit(rules.chores(held), naming),
    decreases held.len(),
{
    if held.len() > 0 {
        let before = held.drop_last();
        let n = held.len() - 1;
        assert(held[n] == held.last());
        assert(fits(held[n].slot, naming));
        assert forall|i: int| 0 <= i < before.len() implies #[trigger] before[i] == held[i] by {}
        chores_of_generations_fit(rules, before, naming);
        let a = rules.chores(before);
        let b = rules.chores_of(held.last(), n);
        assert forall|k: int| 0 <= k < (a + b).len() implies match #[trigger] (a + b)[k] {
            Chore::Delete(generation) => fits(generation.slot, naming),
            Chore::Compress(slot) => fits(slot, naming),
            Chore::Refuse(generation) => fits(generation.slot, naming),
        } by {
            if k < a.len() {
                assert((a + b)[k] == a[k]);
            } else {
                assert((a + b)[k] == b[k - a.len()]);
            }
        }
    }
}

/// The log directory stays bounded: once the chores are done, what is left of
/// a log are its newest generations, `keep` of them at most.
pub proof fn no_more_than_keep_is_left(
    rules: Rules,
    naming: Naming,
    files: Seq<DirFile>,
    names: Set<Seq<char>>,
    generation: Generation,
)
    requires
        forall|name: Seq<char>| #[trigger]
            names.contains(name) <==> exists|i: int|
                0 <= i < files.len() && (#[trigger] files[i]).name@ == name,
        forall|other: Generation|
            #![trigger rules.is_live(other)]
            fits(other.slot, naming) ==> !rules.is_live(other),
        fits(generation.slot, naming),
        all_done(
            names,
            rules.base,
            rules.chores(held(files, rules.base, naming)),
        ).contains(generation_name(rules.base, generation)),
    ensures
        exists|i: int|
            0 <= i < rules.keep && i < held(files, rules.base, naming).len() && (
            #[trigger] held(files, rules.base, naming)[i]).slot == generation.slot,
{
    let all = held(files, rules.base, naming);
    let chores = rules.chores(all);
    let name = generation_name(rules.base, generation);
    generations_stand_newest_first(files, rules.base, naming);
    chores_of_generations_fit(rules, all, naming);
    what_is_left(names, rules.base, naming, chores, generation);
    what_is_kept_but_the_newest_is_compressed(rules, all, generation.slot);
    what_is_past_keep_is_deleted(rules, all, generation);
    if !chores.contains(Chore::Compress(generation.slot)) {
        assert(names.contains(name));
        let k = choose|k: int| 0 <= k < files.len() && (#[trigger] files[k]).name@ == name;
        a_written_name_is_recognised(rules.base, naming, generation);
        assert(generation_of(rules.base, naming, files[k].name@) == Some(generation));
        assert(is_there(files, rules.base, naming, generation));
        generations_wear_what_is_there(files, rules.base, naming, generation);
        let i = choose|i: int| 0 <= i < all.len() && (#[trigger] all[i]).wears(generation);
        assert(!rules.is_live(generation));
        assert(i < rules.keep);
        assert(all[i].slot == generation.slot);
    } else {
        let plain = Generation { slot: generation.slot, gz: false };
        let i = choose|i: int|
            1 <= i < all.len() && i < rules.keep && (#[trigger] all[i]).wears(plain);
        assert(all[i].slot == generation.slot);
    }
}

/// The name of the file `n` of a log: the live name, a dot and the number, and
/// `.gz` behind that if it is compressed.
pub open spec fn numbered_name(base: LogPathView, n: int, gz: bool) -> Seq<char> {
    base.live() + seq!['.'] + numeral(n as nat) + if gz {
        seq!['.', 'g', 'z']
    } else {
        Seq::empty()
    }
}

/// The two ways to write the name of a numbered file agree.
proof fn numbered_names_agree(base: LogPathView, n: int, gz: bool)
    requires
        0 <= n <= u32::MAX,
    ensures
        numbered_name(base, n, gz) == generation_name(base, numbered(n, gz)),
{
    assert(numbered_name(base, n, gz) =~= generation_name(base, numbered(n, gz)));
}

/// What is above a place after a rotation in the numeric scheme was in it
/// before, and nothing is left in the first place but the live log.
proof fn nothing_else_stands<C>(
    dir: Map<Seq<char>, C>,
    files: Seq<DirFile>,
    base: LogPathView,
    stamp: Stamp,
    n: int,
    gz: bool,
)
    requires
        lists(dir, files),
        dir.contains_key(base.live()),
        moves(base, Naming::Numeric, held(files, base, Naming::Numeric), stamp) is Ok,
        1 <= n < u32::MAX,
    ensures
        ({
            let plan = moves(
                base,
                Naming::Numeric,
                held(files, base, Naming::Numeric),
                stamp,
            )->Ok_0;
            let now = all_renamed(dir, plan);
            &&& now.contains_key(generation_name(base, numbered(n + 1, gz))) <==> dir.contains_key(
                generation_name(base, numbered(n, gz)),
            )
            &&& !now.contains_key(generation_name(base, numbered(1, true)))
        }),
{
    let all = held(files, base, Naming::Numeric);
    let up = shifts(base, all);
    let plan = moves(base, Naming::Numeric, all, stamp)->Ok_0;
    let moved = |generation: Generation| is_behind(all, 0, generation);
    let then = all_renamed(dir, up);
    let first = numbered(1, false);
    let packed = numbered(1, true);
    let this = numbered(n, gz);
    let above = numbered(n + 1, gz);
    none_is_stuck(all);
    a_listing_shows_the_generations(dir, files, base, Naming::Numeric);
    those_from_there_move(dir, base, all, 0);
    shifts_split(base, all, 0);
    assert(all.take(0) =~= Seq::empty());
    assert(shifts_from(base, all, 0) + shifts(base, all.take(0)) =~= shifts_from(base, all, 0));
    assert(plan.drop_last() =~= up);
    assert forall|generation: Generation| fits(generation.slot, Naming::Numeric) implies (
    #[trigger] moved(generation) <==> dir.contains_key(generation_name(base, generation))) by {
        if is_worn(all, generation) {
            let j = choose|j: int| 0 <= j < all.len() && (#[trigger] all[j]).wears(generation);
            assert(is_behind(all, 0, generation));
        }
        if is_behind(all, 0, generation) {
            let j = choose|j: int| 0 <= j < all.len() && (#[trigger] all[j]).wears(generation);
            assert(is_worn(all, generation));
        }
    }
    a_written_name_is_recognised(base, Naming::Numeric, this);
    a_written_name_is_recognised(base, Naming::Numeric, above);
    a_written_name_is_recognised(base, Naming::Numeric, packed);
    assert(stands(then, dir, base, moved, generation_name(base, above)));
    assert(stands(then, dir, base, moved, generation_name(base, packed)));
    assert(numbered(n + 1 - 1, gz) == this);
    assert(moved(this) <==> dir.contains_key(generation_name(base, this)));
    assert(moved(above) <==> dir.contains_key(generation_name(base, above)));
    assert(moved(packed) <==> dir.contains_key(generation_name(base, packed)));
    names_are_longer_than_the_live_one(base, Naming::Numeric, above);
    names_are_longer_than_the_live_one(base, Naming::Numeric, packed);
    if generation_name(base, above) == generation_name(base, first) {
        names_are_distinct(base, Naming::Numeric, above, first);
    }
    if generation_name(base, packed) == generation_name(base, first) {
        names_are_distinct(base, Naming::Numeric, packed, first);
    }
}

/// Whether the file of a log that has the last number there is, plain or
/// compressed, is in the directory.
pub open spec fn is_full<C>(dir: Map<Seq<char>, C>, base: LogPathView) -> bool {
    dir.contains_key(numbered_name(base, u32::MAX as int, false)) || dir.contains_key(
        numbered_name(base, u32::MAX as int, true),
    )
}

/// What a numeric rotation of a log plans, for every directory that the log is
/// in: once all is renamed, every generation stands under the next number with
/// what was in it, whether plain or compressed, the live log stands under `.1`,
/// nothing else of the log is there, and every other file is where it was. No
/// rename overwrites a file.
pub proof fn a_numeric_plan_moves_everything_up<C>(
    dir: Map<Seq<char>, C>,
    files: Seq<DirFile>,
    base: LogPathView,
    now: Moment,
    n: u32,
    gz: bool,
    other: Seq<char>,
)
    requires
        lists(dir, files),
        dir.contains_key(base.live()),
        planned(base, Naming::Numeric, files, now) is Ok,
        n >= 1,
        other != base.live(),
        forall|m: u32, z: bool| m >= 1 ==> other != #[trigger] numbered_name(base, m as int, z),
    ensures
        ({
            let plan = planned(base, Naming::Numeric, files, now)->Ok_0;
            let then = all_renamed(dir, plan);
            let name = numbered_name(base, n as int, gz);
            let above = numbered_name(base, n + 1, gz);
            let first = numbered_name(base, 1, false);
            &&& overwrites_nothing(dir, plan)
            &&& dir.contains_key(name) ==> n < u32::MAX && then.contains_key(above) && then[above]
                == dir[name]
            &&& n < u32::MAX && then.contains_key(above) ==> dir.contains_key(name)
            &&& then.contains_key(first) && then[first] == dir[base.live()]
            &&& !then.contains_key(numbered_name(base, 1, true))
            &&& !then.contains_key(base.live())
            &&& then.contains_key(other) == dir.contains_key(other)
            &&& dir.contains_key(other) ==> then[other] == dir[other]
        }),
{
    let stamp = stamp_at(now.secs as int);
    let all = held(files, base, Naming::Numeric);
    let generation = numbered(n as int, gz);
    if let Some(found) = generation_of(base, Naming::Numeric, other) {
        assert(fits(found.slot, Naming::Numeric));
        let m = number(found.slot);
        assert(found == numbered(m, found.gz));
        numbered_names_agree(base, m, found.gz);
        assert(other != numbered_name(base, (m as u32) as int, found.gz));
    }
    a_numeric_rotation_moves_everything_up(dir, files, base, stamp, generation, other);
    numbered_names_agree(base, n as int, gz);
    numbered_names_agree(base, 1, false);
    numbered_names_agree(base, 1, true);
    if n < u32::MAX {
        numbered_names_agree(base, n + 1, gz);
        nothing_else_stands(dir, files, base, stamp, n as int, gz);
    } else {
        nothing_else_stands(dir, files, base, stamp, 1, gz);
    }
    if dir.contains_key(generation_name(base, generation)) {
        a_listing_shows_the_generations(dir, files, base, Naming::Numeric);
        none_is_stuck(all);
        assert(is_worn(all, generation));
        let j = choose|j: int| 0 <= j < all.len() && (#[trigger] all[j]).wears(generation);
        assert(all[j].slot != Slot::Numeric(u32::MAX));
    }
}

/// What moves up is a file of some number, and moves to the next.
proof fn each_shift_is_by_one(base: LogPathView, held: Seq<Held>, k: int) -> (m: (int, bool))
    requires
        are_of(held, Naming::Numeric),
        stuck(held) is None,
        0 <= k < shifts(base, held).len(),
    ensures
        1 <= m.0 < u32::MAX,
        shifts(base, held)[k].from == numbered_name(base, m.0, m.1),
        shifts(base, held)[k].to == numbered_name(base, m.0 + 1, m.1),
    decreases held.len(),
{
    none_is_stuck(held);
    let one = held.last();
    let before = held.drop_last();
    assert(held[held.len() - 1] == one);
    let n = number(one.slot);
    assert(fits(one.slot, Naming::Numeric));
    assert forall|i: int| 0 <= i < before.len() implies #[trigger] before[i] == held[i] by {}
    none_is_stuck(before);
    let first = shifts_of(base, one);
    if k < first.len() {
        assert(shifts(base, held)[k] == first[k]);
        let gz = k == 1 || !one.plain;
        assert(first[k] == shift(base, n, gz));
        numbered_names_agree(base, n, gz);
        numbered_names_agree(base, n + 1, gz);
        (n, gz)
    } else {
        assert(shifts(base, held)[k] == shifts(base, before)[k - first.len()]);
        each_shift_is_by_one(base, before, k - first.len())
    }
}

/// Every rename of a numeric plan moves a file of the log up by one number, but
/// for the last, which moves the live log to `.1`.
pub proof fn every_rename_is_by_one(
    base: LogPathView,
    files: Seq<DirFile>,
    now: Moment,
    k: int,
)
    requires
        planned(base, Naming::Numeric, files, now) is Ok,
        0 <= k < planned(base, Naming::Numeric, files, now)->Ok_0.len(),
    ensures
        ({
            let plan = planned(base, Naming::Numeric, files, now)->Ok_0;
            let m = plan[k];
            if k == plan.len() - 1 {
                m.from == base.live() && m.to == numbered_name(base, 1, false)
            } else {
                exists|n: int, gz: bool|
                    1 <= n < u32::MAX && m.from == #[trigger] numbered_name(base, n, gz) && m.to
                        == numbered_name(base, n + 1, gz)
            }
        }),
        planned(base, Naming::Numeric, files, now)->Ok_0.len() > 0,
{
    let all = held(files, base, Naming::Numeric);
    let plan = planned(base, Naming::Numeric, files, now)->Ok_0;
    generations_stand_newest_first(files, base, Naming::Numeric);
    numbered_names_agree(base, 1, false);
    if k < plan.len() - 1 {
        let (n, gz) = each_shift_is_by_one(base, all, k);
        assert(plan[k].from == numbered_name(base, n, gz));
    }
}

/// Which file is stuck.
proof fn the_stuck_one(held: Seq<Held>) -> (i: int)
    requires
        stuck(held) is Some,
    ensures
        0 <= i < held.len(),
        held[i].slot == Slot::Numeric(u32::MAX),
        stuck(held) == Some(Generation { slot: held[i].slot, gz: !held[i].plain }),
    decreases held.len(),
{
    if held.last().slot == Slot::Numeric(u32::MAX) {
        held.len() - 1
    } else {
        the_stuck_one(held.drop_last())
    }
}

/// A numeric rotation is refused if and only if a file of the log has the last
/// number there is, so that it could not move up; the fault names that file, the
/// plain one where both are there.
pub proof fn only_a_full_directory_refuses_a_numeric_rotation<C>(
    dir: Map<Seq<char>, C>,
    files: Seq<DirFile>,
    base: LogPathView,
    now: Moment,
)
    requires
        lists(dir, files),
        dir.contains_key(base.live()),
    ensures
        planned(base, Naming::Numeric, files, now) is Ok <==> !is_full(dir, base),
        planned(base, Naming::Numeric, files, now) matches Err(err) ==> {
            let plain = numbered_name(base, u32::MAX as int, false);
            let packed = numbered_name(base, u32::MAX as int, true);
            err == (ErrorView::Exhausted {
                path: joined(
                    base.dir,
                    if dir.contains_key(plain) {
                        plain
                    } else {
                        packed
                    },
                ),
            })
        },
{
    let all = held(files, base, Naming::Numeric);
    let last = u32::MAX as int;
    let plain = numbered(last, false);
    let packed = numbered(last, true);
    a_listing_shows_the_generations(dir, files, base, Naming::Numeric);
    none_is_stuck(all);
    numbered_names_agree(base, last, false);
    numbered_names_agree(base, last, true);
    assert(fits(plain.slot, Naming::Numeric) && fits(packed.slot, Naming::Numeric));
    assert(dir.contains_key(generation_name(base, plain)) <==> is_worn(all, plain));
    assert(dir.contains_key(generation_name(base, packed)) <==> is_worn(all, packed));
    if stuck(all) is Some {
        let i = the_stuck_one(all);
        every_generation_wears_a_file(files, base, Naming::Numeric, i);
        if all[i].plain {
            assert(all[i].wears(plain));
        } else {
            assert(all[i].wears(packed));
            if is_worn(all, plain) {
                let j = choose|j: int| 0 <= j < all.len() && (#[trigger] all[j]).wears(plain);
                if j < i {
                    assert(newer(all[j].slot, all[i].slot));
                } else if i < j {
                    assert(newer(all[i].slot, all[j].slot));
                }
            }
        }
    } else {
        if is_worn(all, plain) {
            let j = choose|j: int| 0 <= j < all.len() && (#[trigger] all[j]).wears(plain);
            assert(all[j].slot == Slot::Numeric(u32::MAX));
        }
        if is_worn(all, packed) {
            let j = choose|j: int| 0 <= j < all.len() && (#[trigger] all[j]).wears(packed);
            assert(all[j].slot == Slot::Numeric(u32::MAX));
        }
    }
}

/// Whether the generation of a second with that counter is in the directory,
/// plain or compressed.
pub open spec fn is_used<C>(
    dir: Map<Seq<char>, C>,
    base: LogPathView,
    stamp: Stamp,
    counter: u32,
) -> bool {
    let slot = Slot::Dated { stamp, counter };
    dir.contains_key(generation_name(base, Generation { slot, gz: false })) || dir.contains_key(
        generation_name(base, Generation { slot, gz: true }),
    )
}

/// A counter is taken if and only if a file with it is there.
proof fn taken_is_used<C>(
    dir: Map<Seq<char>, C>,
    files: Seq<DirFile>,
    base: LogPathView,
    stamp: Stamp,
    counter: u32,
)
    requires
        lists(dir, files),
        dir.contains_key(base.live()),
        stamp.valid(),
    ensures
        is_taken(held(files, base, Naming::Dated), stamp, counter) <==> is_used(
            dir,
            base,
            stamp,
            counter,
        ),
{
    let all = held(files, base, Naming::Dated);
    let slot = Slot::Dated { stamp, counter };
    let plain = Generation { slot, gz: false };
    let packed = Generation { slot, gz: true };
    a_listing_shows_the_generations(dir, files, base, Naming::Dated);
    assert(fits(plain.slot, Naming::Dated) && fits(packed.slot, Naming::Dated));
    assert(dir.contains_key(generation_name(base, plain)) <==> is_worn(all, plain));
    assert(dir.contains_key(generation_name(base, packed)) <==> is_worn(all, packed));
    if is_taken(all, stamp, counter) {
        let i = choose|i: int| 0 <= i < all.len() && (#[trigger] all[i]).slot == slot;
        every_generation_wears_a_file(files, base, Naming::Dated, i);
        if all[i].plain {
            assert(all[i].wears(plain));
        } else {
            assert(all[i].wears(packed));
        }
    }
    if is_worn(all, plain) {
        let j = choose|j: int| 0 <= j < all.len() && (#[trigger] all[j]).wears(plain);
        assert(all[j].slot == slot);
    }
    if is_worn(all, packed) {
        let j = choose|j: int| 0 <= j < all.len() && (#[trigger] all[j]).wears(packed);
        assert(all[j].slot == slot);
    }
}

/// What a dated rotation of a log plans, for every directory that the log is in:
/// one rename, of the live log into a generation of the second that the clock
/// shows, with the first counter that no file of the log has in that second,
/// plain or compressed. All else stays as it was. It is refused where no counter
/// is free, and where the clock shows a year before 1970 or after 9999.
pub proof fn a_dated_plan_renames_the_live_log<C>(
    dir: Map<Seq<char>, C>,
    files: Seq<DirFile>,
    base: LogPathView,
    now: Moment,
)
    requires
        lists(dir, files),
        dir.contains_key(base.live()),
    ensures
        match planned(base, Naming::Dated, files, now) {
            Ok(plan) => {
                &&& 0 <= now.secs < 253_402_300_800
                &&& exists|stamp: Stamp, counter: u32| #[trigger]
                    is_first_free(dir, base, stamp, counter) && stamp.epoch() == now.secs && plan
                        == seq![
                        MoveView {
                            from: base.live(),
                            to: generation_name(
                                base,
                                Generation { slot: Slot::Dated { stamp, counter }, gz: false },
                            ),
                        },
                    ]
                &&& overwrites_nothing(dir, plan)
                &&& all_renamed(dir, plan) == dir.remove(base.live()).insert(
                    plan[0].to,
                    dir[base.live()],
                )
            },
            Err(err) => if 0 <= now.secs < 253_402_300_800 {
                &&& err == (ErrorView::Exhausted { path: joined(base.dir, base.live()) })
                &&& exists|stamp: Stamp| #[trigger]
                    stamp.valid() && stamp.epoch() == now.secs && forall|c: u32| #[trigger]
                        is_used(dir, base, stamp, c)
            } else {
                err == (ErrorView::Io { path: joined(base.dir, base.live()), source: NO_STAMP@ })
            },
        },
{
    if 0 <= now.secs < 253_402_300_800 {
        let stamp = stamp_at(now.secs as int);
        every_second_has_a_date(now.secs as int);
        let all = held(files, base, Naming::Dated);
        a_free_counter_is_the_first(all, stamp, 0);
        assert forall|c: u32| is_used(dir, base, stamp, c) == #[trigger] is_taken(
            all,
            stamp,
            c,
        ) by {
            taken_is_used(dir, files, base, stamp, c);
        }
        match free_counter(all, stamp, 0) {
            Some(counter) => {
                assert(!is_taken(all, stamp, counter));
                assert forall|c: u32| c < counter implies #[trigger] is_used(
                    dir,
                    base,
                    stamp,
                    c,
                ) by {
                    assert(is_taken(all, stamp, c));
                }
                assert(is_first_free(dir, base, stamp, counter));
                let slot = Slot::Dated { stamp, counter };
                let written = Generation { slot, gz: false };
                let m = MoveView { from: base.live(), to: generation_name(base, written) };
                let plan = seq![m];
                names_are_longer_than_the_live_one(base, Naming::Dated, written);
                let none = Seq::<MoveView>::empty();
                assert(overwrites_nothing(dir, none));
                one_more_finds_room(dir, none, m);
                assert(plan =~= none.push(m));
            },
            None => {
                assert forall|c: u32| #[trigger] is_used(dir, base, stamp, c) by {
                    assert(is_taken(all, stamp, c));
                }
            },
        }
    }
}

/// Whether a counter is the first of a second that no file of the log has.
pub open spec fn is_first_free<C>(
    dir: Map<Seq<char>, C>,
    base: LogPathView,
    stamp: Stamp,
    counter: u32,
) -> bool {
    &&& stamp.valid()
    &&& !is_used(dir, base, stamp, counter)
    &&& forall|c: u32| c < counter ==> #[trigger] is_used(dir, base, stamp, c)
}

/// Renaming a plan moves, one after the other, what is under each old name to
/// the new one.
pub proof fn renames_follow_one_another<C>(
    dir: Map<Seq<char>, C>,
    plan: Seq<MoveView>,
    m: MoveView,
)
    ensures
        all_renamed(dir, Seq::<MoveView>::empty()) == dir,
        all_renamed(dir, plan.push(m)) == all_renamed(dir, plan).remove(m.from).insert(
            m.to,
            all_renamed(dir, plan)[m.from],
        ),
{
    assert(plan.push(m).drop_last() =~= plan);
}

/// The plan for a log that does not collide renames no live log but itself, and
/// renames nothing into one.
pub proof fn no_plan_touches_another_live_log(
    log: LogView,
    naming: Naming,
    files: Seq<DirFile>,
    now: Moment,
    protected: Set<FileId>,
    k: int,
)
    requires
        !collides(log, naming, protected),
        planned(log.base, naming, files, now) is Ok,
        0 <= k < planned(log.base, naming, files, now)->Ok_0.len(),
    ensures
        ({
            let m = planned(log.base, naming, files, now)->Ok_0[k];
            &&& !protected.contains((log.dir, m.to))
            &&& m.from == log.base.live() || !protected.contains((log.dir, m.from))
        }),
{
    if naming == Naming::Dated {
        every_second_has_a_date(now.secs as int);
    }
    no_move_touches_another_live_log(
        log,
        naming,
        files,
        stamp_at(now.secs as int),
        protected,
        k,
    );
}

/// Whether a file with that name is among `files`.
pub open spec fn is_listed(files: Seq<DirFile>, name: Seq<char>) -> bool {
    exists|i: int| 0 <= i < files.len() && (#[trigger] files[i]).name@ == name
}

/// A generation is worn if and only if a file with its name is listed.
proof fn worn_is_listed(
    files: Seq<DirFile>,
    base: LogPathView,
    naming: Naming,
    generation: Generation,
)
    requires
        fits(generation.slot, naming),
    ensures
        is_worn(held(files, base, naming), generation) <==> is_listed(
            files,
            generation_name(base, generation),
        ),
{
    let name = generation_name(base, generation);
    generations_wear_what_is_there(files, base, naming, generation);
    a_written_name_is_recognised(base, naming, generation);
    if is_listed(files, name) {
        let i = choose|i: int| 0 <= i < files.len() && (#[trigger] files[i]).name@ == name;
        assert(generation_of(base, naming, files[i].name@) == Some(generation));
    }
    if is_there(files, base, naming, generation) {
        let i = choose|i: int|
            0 <= i < files.len() && generation_of(base, naming, (#[trigger] files[i]).name@)
                == Some(generation);
        assert(files[i].name@ == name);
    }
}

/// Where the move of a file that one of `held` wears stands among the shifts.
proof fn a_worn_file_shifts(base: LogPathView, held: Seq<Held>, i: int, gz: bool) -> (k: int)
    requires
        0 <= i < held.len(),
        held[i].wears(Generation { slot: held[i].slot, gz }),
    ensures
        0 <= k < shifts(base, held).len(),
        shifts(base, held)[k] == shift(base, number(held[i].slot), gz),
    decreases held.len(),
{
    let first = shifts_of(base, held.last());
    if i == held.len() - 1 {
        let k: int = if gz && held[i].plain {
            1
        } else {
            0
        };
        assert(first[k] == shift(base, number(held[i].slot), gz));
        assert(shifts(base, held)[k] == first[k]);
        k
    } else {
        assert(held.drop_last()[i] == held[i]);
        let k = a_worn_file_shifts(base, held.drop_last(), i, gz);
        assert(shifts(base, held)[first.len() + k] == shifts(base, held.drop_last())[k]);
        first.len() + k
    }
}

/// Of which of `held` a shift is.
proof fn the_one_that_shifts(base: LogPathView, held: Seq<Held>, k: int) -> (r: (int, bool))
    requires
        0 <= k < shifts(base, held).len(),
    ensures
        0 <= r.0 < held.len(),
        held[r.0].wears(Generation { slot: held[r.0].slot, gz: r.1 }),
        shifts(base, held)[k] == shift(base, number(held[r.0].slot), r.1),
    decreases held.len(),
{
    let one = held.last();
    let first = shifts_of(base, one);
    if k < first.len() {
        assert(shifts(base, held)[k] == first[k]);
        let gz = k == 1 || !one.plain;
        (held.len() - 1, gz)
    } else {
        assert(shifts(base, held)[k] == shifts(base, held.drop_last())[k - first.len()]);
        the_one_that_shifts(base, held.drop_last(), k - first.len())
    }
}

/// A numeric plan renames the files of the log that are listed, whatever else is
/// listed and whatever is not: every one of them, plain or compressed, moves up,
/// and what moves up is listed.
pub proof fn what_is_listed_moves_up(
    base: LogPathView,
    files: Seq<DirFile>,
    now: Moment,
    n: u32,
    gz: bool,
    k: int,
)
    requires
        n >= 1,
        planned(base, Naming::Numeric, files, now) is Ok,
    ensures
        ({
            let plan = planned(base, Naming::Numeric, files, now)->Ok_0;
            let up = MoveView {
                from: numbered_name(base, n as int, gz),
                to: numbered_name(base, n + 1, gz),
            };
            &&& is_listed(files, numbered_name(base, n as int, gz)) ==> plan.contains(up)
            &&& 0 <= k < plan.len() - 1 ==> is_listed(files, plan[k].from)
        }),
{
    let all = held(files, base, Naming::Numeric);
    let plan = planned(base, Naming::Numeric, files, now)->Ok_0;
    let generation = numbered(n as int, gz);
    none_is_stuck(all);
    generations_stand_newest_first(files, base, Naming::Numeric);
    numbered_names_agree(base, n as int, gz);
    worn_is_listed(files, base, Naming::Numeric, generation);
    if is_listed(files, numbered_name(base, n as int, gz)) {
        let i = choose|i: int| 0 <= i < all.len() && (#[trigger] all[i]).wears(generation);
        assert(all[i].slot != Slot::Numeric(u32::MAX));
        let m = a_worn_file_shifts(base, all, i, gz);
        numbered_names_agree(base, n + 1, gz);
        assert(plan[m] == shifts(base, all)[m]);
        assert(plan.contains(plan[m]));
    }
    if 0 <= k < plan.len() - 1 {
        let (i, packed) = the_one_that_shifts(base, all, k);
        let moved = Generation { slot: all[i].slot, gz: packed };
        assert(fits(all[i].slot, Naming::Numeric));
        assert(moved == numbered(number(all[i].slot), packed));
        assert(is_worn(all, moved));
        worn_is_listed(files, base, Naming::Numeric, moved);
        assert(plan[k] == shifts(base, all)[k]);
    }
}

/// A numeric rotation is refused if and only if a file with the last number there
/// is, plain or compressed, is listed, and the fault names that file, the plain
/// one where both are. Neither a plan nor a fault depends on the clock.
pub proof fn only_the_last_number_refuses_a_rotation(
    base: LogPathView,
    files: Seq<DirFile>,
    now: Moment,
    later: Moment,
)
    ensures
        planned(base, Naming::Numeric, files, now) is Err <==> is_listed(
            files,
            numbered_name(base, 4_294_967_295, false),
        ) || is_listed(files, numbered_name(base, 4_294_967_295, true)),
        planned(base, Naming::Numeric, files, now) matches Err(err) ==> {
            let plain = numbered_name(base, 4_294_967_295, false);
            let packed = numbered_name(base, 4_294_967_295, true);
            err == (ErrorView::Exhausted {
                path: joined(
                    base.dir,
                    if is_listed(files, plain) {
                        plain
                    } else {
                        packed
                    },
                ),
            })
        },
        planned(base, Naming::Numeric, files, now) == planned(
            base,
            Naming::Numeric,
            files,
            later,
        ),
{
    let all = held(files, base, Naming::Numeric);
    let last = u32::MAX as int;
    let plain = numbered(last, false);
    let packed = numbered(last, true);
    none_is_stuck(all);
    generations_stand_newest_first(files, base, Naming::Numeric);
    numbered_names_agree(base, last, false);
    numbered_names_agree(base, last, true);
    worn_is_listed(files, base, Naming::Numeric, plain);
    worn_is_listed(files, base, Naming::Numeric, packed);
    if stuck(all) is Some {
        let i = the_stuck_one(all);
        every_generation_wears_a_file(files, base, Naming::Numeric, i);
        if all[i].plain {
            assert(all[i].wears(plain));
        } else {
            assert(all[i].wears(packed));
            if is_worn(all, plain) {
                let j = choose|j: int| 0 <= j < all.len() && (#[trigger] all[j]).wears(plain);
                if j < i {
                    assert(newer(all[j].slot, all[i].slot));
                } else if i < j {
                    assert(newer(all[i].slot, all[j].slot));
                }
            }
        }
    } else {
        if is_worn(all, plain) {
            let j = choose|j: int| 0 <= j < all.len() && (#[trigger] all[j]).wears(plain);
            assert(all[j].slot == Slot::Numeric(u32::MAX));
        }
        if is_worn(all, packed) {
            let j = choose|j: int| 0 <= j < all.len() && (#[trigger] all[j]).wears(packed);
            assert(all[j].slot == Slot::Numeric(u32::MAX));
        }
    }
}

/// Whether a file of a log with that second and counter, plain or compressed, is
/// among `files`.
pub open spec fn is_listed_dated(
    files: Seq<DirFile>,
    base: LogPathView,
    stamp: Stamp,
    counter: u32,
) -> bool {
    let slot = Slot::Dated { stamp, counter };
    is_listed(files, generation_name(base, Generation { slot, gz: false })) || is_listed(
        files,
        generation_name(base, Generation { slot, gz: true }),
    )
}

/// A counter is taken if and only if a file with it is listed.
proof fn taken_is_listed(base: LogPathView, files: Seq<DirFile>, stamp: Stamp, counter: u32)
    requires
        stamp.valid(),
    ensures
        is_taken(held(files, base, Naming::Dated), stamp, counter) <==> is_listed_dated(
            files,
            base,
            stamp,
            counter,
        ),
{
    let all = held(files, base, Naming::Dated);
    let slot = Slot::Dated { stamp, counter };
    let plain = Generation { slot, gz: false };
    let packed = Generation { slot, gz: true };
    worn_is_listed(files, base, Naming::Dated, plain);
    worn_is_listed(files, base, Naming::Dated, packed);
    if is_taken(all, stamp, counter) {
        let i = choose|i: int| 0 <= i < all.len() && (#[trigger] all[i]).slot == slot;
        every_generation_wears_a_file(files, base, Naming::Dated, i);
        if all[i].plain {
            assert(all[i].wears(plain));
        } else {
            assert(all[i].wears(packed));
        }
    }
    if is_worn(all, plain) {
        let j = choose|j: int| 0 <= j < all.len() && (#[trigger] all[j]).wears(plain);
        assert(all[j].slot == slot);
    }
    if is_worn(all, packed) {
        let j = choose|j: int| 0 <= j < all.len() && (#[trigger] all[j]).wears(packed);
        assert(all[j].slot == slot);
    }
}

/// Where every counter of a second is taken, a dated rotation in that second is
/// refused, and the fault names the live log.
pub proof fn a_second_without_a_free_counter_refuses_a_rotation(
    base: LogPathView,
    files: Seq<DirFile>,
    now: Moment,
    stamp: Stamp,
)
    requires
        stamp.valid(),
        stamp.epoch() == now.secs,
        forall|c: u32| #[trigger] is_listed_dated(files, base, stamp, c),
    ensures
        planned(base, Naming::Dated, files, now) == Err::<Seq<MoveView>, ErrorView>(
            ErrorView::Exhausted { path: joined(base.dir, base.live()) },
        ),
{
    let all = held(files, base, Naming::Dated);
    epochs_fit(stamp);
    every_second_has_a_date(now.secs as int);
    the_epoch_follows_the_calendar(stamp, stamp_at(now.secs as int));
    a_free_counter_is_the_first(all, stamp, 0);
    if let Some(counter) = free_counter(all, stamp, 0) {
        taken_is_listed(base, files, stamp, counter);
        assert(is_listed_dated(files, base, stamp, counter));
    }
}

/// A dated plan goes by the generations that are listed, whatever else is listed
/// and whatever is not: it is one rename of the live log, into the second that
/// the clock shows with a counter that no listed file of the log has in that
/// second, and every lower one is taken.
pub proof fn a_dated_plan_takes_the_first_free_counter(
    base: LogPathView,
    files: Seq<DirFile>,
    now: Moment,
    stamp: Stamp,
    counter: u32,
)
    requires
        stamp.valid(),
        stamp.epoch() == now.secs,
        forall|c: u32| c < counter ==> #[trigger] is_listed_dated(files, base, stamp, c),
        !is_listed_dated(files, base, stamp, counter),
    ensures
        planned(base, Naming::Dated, files, now) == Ok::<Seq<MoveView>, ErrorView>(
            seq![
                MoveView {
                    from: base.live(),
                    to: generation_name(
                        base,
                        Generation { slot: Slot::Dated { stamp, counter }, gz: false },
                    ),
                },
            ],
        ),
{
    let all = held(files, base, Naming::Dated);
    epochs_fit(stamp);
    every_second_has_a_date(now.secs as int);
    the_epoch_follows_the_calendar(stamp, stamp_at(now.secs as int));
    assert(stamp == stamp_at(now.secs as int));
    a_free_counter_is_the_first(all, stamp, 0);
    assert forall|c: u32| #[trigger] is_taken(all, stamp, c) <==> is_listed_dated(
        files,
        base,
        stamp,
        c,
    ) by {
        taken_is_listed(base, files, stamp, c);
    }
    assert(!is_taken(all, stamp, counter));
    match free_counter(all, stamp, 0) {
        Some(found) => {
            if found < counter {
                assert(is_listed_dated(files, base, stamp, found));
                assert(is_taken(all, stamp, found));
            } else if counter < found {
                assert(is_taken(all, stamp, counter));
            }
        },
        None => {
            assert(is_taken(all, stamp, counter));
        },
    }
}

/// Chores of a log touch no file that is no generation of it.
proof fn chores_touch_generations_only(
    names: Set<Seq<char>>,
    base: LogPathView,
    naming: Naming,
    chores: Seq<Chore>,
    other: Seq<char>,
)
    requires
        chores_fit(chores, naming),
        !is_generation(base, naming, other),
    ensures
        all_done(names, base, chores).contains(other) == names.contains(other),
    decreases chores.len(),
{
    if chores.len() > 0 {
        let before = chores.drop_last();
        assert(chores[chores.len() - 1] == chores.last());
        assert(chores_fit(before, naming)) by {
            assert forall|k: int| 0 <= k < before.len() implies match #[trigger] before[k] {
                Chore::Delete(generation) => fits(generation.slot, naming),
                Chore::Compress(slot) => fits(slot, naming),
                Chore::Refuse(generation) => fits(generation.slot, naming),
            } by {
                assert(before[k] == chores[k]);
            }
        }
        chores_touch_generations_only(names, base, naming, before, other);
        match chores.last() {
            Chore::Delete(generation) => {
                assert(fits(generation.slot, naming));
            },
            Chore::Compress(slot) => {
                assert(fits((Generation { slot, gz: false }).slot, naming));
                assert(fits((Generation { slot, gz: true }).slot, naming));
                assert(is_generation(
                    base,
                    naming,
                    generation_name(base, Generation { slot, gz: false }),
                ));
                assert(is_generation(
                    base,
                    naming,
                    generation_name(base, Generation { slot, gz: true }),
                ));
            },
            Chore::Refuse(_) => {},
        }
    }
}

/// Whether a generation is there, plain or compressed.
pub open spec fn has_slot(names: Set<Seq<char>>, base: LogPathView, slot: Slot) -> bool {
    names.contains(generation_name(base, Generation { slot, gz: false })) || names.contains(
        generation_name(base, Generation { slot, gz: true }),
    )
}

/// A generation of which no file is deleted is still there after all chores.
proof fn what_is_not_deleted_stays(
    names: Set<Seq<char>>,
    base: LogPathView,
    naming: Naming,
    chores: Seq<Chore>,
    slot: Slot,
)
    requires
        fits(slot, naming),
        chores_fit(chores, naming),
        has_slot(names, base, slot),
        forall|k: int|
            0 <= k < chores.len() ==> match #[trigger] chores[k] {
                Chore::Delete(generation) => generation.slot != slot,
                _ => true,
            },
    ensures
        has_slot(all_done(names, base, chores), base, slot),
    decreases chores.len(),
{
    if chores.len() > 0 {
        let before = chores.drop_last();
        let last = chores.last();
        let plain = Generation { slot, gz: false };
        let packed = Generation { slot, gz: true };
        assert(chores[chores.len() - 1] == last);
        assert forall|k: int| 0 <= k < before.len() implies #[trigger] before[k] == chores[k] by {}
        assert(chores_fit(before, naming)) by {
            assert forall|k: int| 0 <= k < before.len() implies match #[trigger] before[k] {
                Chore::Delete(generation) => fits(generation.slot, naming),
                Chore::Compress(slot) => fits(slot, naming),
                Chore::Refuse(generation) => fits(generation.slot, naming),
            } by {
                assert(before[k] == chores[k]);
            }
        }
        what_is_not_deleted_stays(names, base, naming, before, slot);
        match last {
            Chore::Delete(generation) => {
                if generation_name(base, generation) == generation_name(base, plain) {
                    names_are_distinct(base, naming, generation, plain);
                }
                if generation_name(base, generation) == generation_name(base, packed) {
                    names_are_distinct(base, naming, generation, packed);
                }
            },
            Chore::Compress(other) => {
                let gone = Generation { slot: other, gz: false };
                if other != slot {
                    if generation_name(base, gone) == generation_name(base, plain) {
                        names_are_distinct(base, naming, gone, plain);
                    }
                    if generation_name(base, gone) == generation_name(base, packed) {
                        names_are_distinct(base, naming, gone, packed);
                    }
                }
            },
            Chore::Refuse(_) => {},
        }
    }
}

/// Nothing is lost but what is past `keep`: once the chores of a log are done,
/// each of its `keep` newest generations is still there, plain or compressed, and
/// so is every file that is no generation of the log.
pub proof fn nothing_is_lost_but_what_is_past_keep(
    rules: Rules,
    naming: Naming,
    files: Seq<DirFile>,
    names: Set<Seq<char>>,
    i: int,
    other: Seq<char>,
)
    requires
        forall|name: Seq<char>| #[trigger] names.contains(name) <==> is_listed(files, name),
        0 <= i < held(files, rules.base, naming).len(),
        i < rules.keep,
        !is_generation(rules.base, naming, other),
    ensures
        ({
            let all = held(files, rules.base, naming);
            let left = all_done(names, rules.base, rules.chores(all));
            &&& has_slot(left, rules.base, all[i].slot)
            &&& left.contains(other) == names.contains(other)
        }),
{
    let all = held(files, rules.base, naming);
    let chores = rules.chores(all);
    let slot = all[i].slot;
    let plain = Generation { slot, gz: false };
    let packed = Generation { slot, gz: true };
    generations_stand_newest_first(files, rules.base, naming);
    assert(fits(slot, naming));
    chores_of_generations_fit(rules, all, naming);
    chores_touch_generations_only(names, rules.base, naming, chores, other);
    every_generation_wears_a_file(files, rules.base, naming, i);
    worn_is_listed(files, rules.base, naming, plain);
    worn_is_listed(files, rules.base, naming, packed);
    if all[i].plain {
        assert(all[i].wears(plain));
        assert(names.contains(generation_name(rules.base, plain)));
    } else {
        assert(all[i].wears(packed));
        assert(names.contains(generation_name(rules.base, packed)));
    }
    assert forall|k: int| 0 <= k < chores.len() implies match #[trigger] chores[k] {
        Chore::Delete(generation) => generation.slot != slot,
        _ => true,
    } by {
        if let Chore::Delete(generation) = chores[k] {
            assert(chores.contains(chores[k]));
            what_is_past_keep_is_deleted(rules, all, generation);
            let j = choose|j: int|
                rules.keep <= j < all.len() && (#[trigger] all[j]).wears(generation);
            assert(newer(all[i].slot, all[j].slot));
        }
    }
    what_is_not_deleted_stays(names, rules.base, naming, chores, slot);
}

/// In the dated scheme a clock that shows a year before 1970 or after 9999 refuses
/// every rotation, whatever is listed.
pub proof fn a_clock_out_of_range_refuses_a_dated_rotation(
    base: LogPathView,
    files: Seq<DirFile>,
    now: Moment,
)
    requires
        now.secs < 0 || now.secs >= 253_402_300_800,
    ensures
        planned(base, Naming::Dated, files, now) == Err::<Seq<MoveView>, ErrorView>(
            ErrorView::Io {
                path: joined(base.dir, base.live()),
                source: "the clock shows a year that a generation's name cannot"@,
            },
        ),
{
}

/// The numbers and kinds of two files whose moves stand one before the other
/// among the shifts.
proof fn shifts_in_order(
    base: LogPathView,
    held: Seq<Held>,
    k: int,
    m: int,
) -> (r: ((int, bool), (int, bool)))
    requires
        newest_first(held),
        are_of(held, Naming::Numeric),
        0 <= k < m < shifts(base, held).len(),
    ensures
        ({
            let ((a, x), (b, y)) = r;
            &&& shifts(base, held)[k].from == numbered_name(base, a, x)
            &&& shifts(base, held)[m].from == numbered_name(base, b, y)
            &&& 1 <= b <= a <= u32::MAX
            &&& a == b ==> !x && y
        }),
    decreases held.len(),
{
    let one = held.last();
    let before = held.drop_last();
    let first = shifts_of(base, one);
    let n = number(one.slot);
    assert(held[held.len() - 1] == one);
    assert(fits(one.slot, Naming::Numeric));
    assert forall|i: int| 0 <= i < before.len() implies #[trigger] before[i] == held[i] by {}
    if m < first.len() {
        assert(shifts(base, held)[k] == first[k] && shifts(base, held)[m] == first[m]);
        numbered_names_agree(base, n, false);
        numbered_names_agree(base, n, true);
        ((n, false), (n, true))
    } else if k < first.len() {
        let gz = k == 1 || !one.plain;
        assert(shifts(base, held)[k] == first[k]);
        assert(first[k] == shift(base, n, gz));
        assert(shifts(base, held)[m] == shifts(base, before)[m - first.len()]);
        let (i, packed) = the_one_that_shifts(base, before, m - first.len());
        assert(fits(held[i].slot, Naming::Numeric));
        assert(newer(held[i].slot, held[held.len() - 1].slot));
        numbered_names_agree(base, n, gz);
        numbered_names_agree(base, number(before[i].slot), packed);
        ((n, gz), (number(before[i].slot), packed))
    } else {
        assert(shifts(base, held)[k] == shifts(base, before)[k - first.len()]);
        assert(shifts(base, held)[m] == shifts(base, before)[m - first.len()]);
        shifts_in_order(base, before, k - first.len(), m - first.len())
    }
}

/// In a numeric plan the file with the higher number moves first, of two files
/// with one number the plain one, and the live log moves last of all.
pub proof fn the_oldest_moves_first(
    base: LogPathView,
    files: Seq<DirFile>,
    now: Moment,
    k: int,
    m: int,
    a: u32,
    x: bool,
    b: u32,
    y: bool,
)
    requires
        planned(base, Naming::Numeric, files, now) is Ok,
        0 <= k < m < planned(base, Naming::Numeric, files, now)->Ok_0.len() - 1,
        a >= 1,
        b >= 1,
        planned(base, Naming::Numeric, files, now)->Ok_0[k].from == numbered_name(base, a as int, x),
        planned(base, Naming::Numeric, files, now)->Ok_0[m].from == numbered_name(base, b as int, y),
    ensures
        a > b || (a == b && !x && y),
{
    let all = held(files, base, Naming::Numeric);
    let plan = planned(base, Naming::Numeric, files, now)->Ok_0;
    generations_stand_newest_first(files, base, Naming::Numeric);
    let ((c, p), (d, q)) = shifts_in_order(base, all, k, m);
    assert(plan[k] == shifts(base, all)[k] && plan[m] == shifts(base, all)[m]);
    numbered_names_agree(base, a as int, x);
    numbered_names_agree(base, b as int, y);
    numbered_names_agree(base, c, p);
    numbered_names_agree(base, d, q);
    names_are_distinct(base, Naming::Numeric, numbered(a as int, x), numbered(c, p));
    names_are_distinct(base, Naming::Numeric, numbered(b as int, y), numbered(d, q));
}

} // verus!
