//! What holds of every rotation, however its renames and reopens go.
//!
//! The laws speak of where a rotation stands after any sequence of outcomes.

use vstd::prelude::*;

use crate::config::Naming;
use crate::flock::{collides, Entry, FileId, LogView};
use crate::naming::{ext_of, fits, generation_name, is_generation, stem_of, Generation};
use crate::resolve::{is_entry_of, Written};
use crate::rotation::{after, leads_to, started, untouched, Outcome, Progress, Step};
use crate::survey::{
    grouped, has_to_rotate, in_groups, names_differ, position_is_first, position_of, the_groups_are_what_rotates,
    GroupView, Sight,
};
use crate::text::{as_many, how_many};

verus! {

/// Whether the path is split the way the name of the file says.
pub open spec fn well_split(log: LogView) -> bool {
    log.base.stem == stem_of(log.base.live()) && log.base.ext == ext_of(log.base.live())
}

/// Whether every path of every group is split the way its name says.
pub open spec fn all_well_split(groups: Seq<GroupView>) -> bool {
    forall|p: int, j: int|
        0 <= p < groups.len() && 0 <= j < groups[p].logs.len() ==> well_split(
            #[trigger] groups[p].logs[j],
        )
}

/// Whether no two of `logs` lead to one file.
pub open spec fn files_differ(logs: Seq<LogView>) -> bool {
    forall|i: int, j: int|
        0 <= i < j < logs.len() ==> (#[trigger] logs[i]).file() != (#[trigger] logs[j]).file()
}

/// Whether the outcome at `k` was that of a reopen, granted, of the sheep at
/// `p`, when `file` had already been renamed.
pub open spec fn reopened_at(
    start: Progress,
    outcomes: Seq<Outcome>,
    k: int,
    p: int,
    file: FileId,
) -> bool {
    let then = after(start, outcomes.take(k));
    &&& 0 <= k < outcomes.len()
    &&& then.step == Step::Reopen
    &&& then.position == p
    &&& outcomes[k] is None
    &&& leads_to(then.rotated, file)
}

/// Whether the sheep at `p` has reopened its logs since `file` was renamed.
pub open spec fn reopened_since(
    start: Progress,
    outcomes: Seq<Outcome>,
    p: int,
    file: FileId,
) -> bool {
    exists|k: int| #[trigger] reopened_at(start, outcomes, k, p, file)
}

/// Whether a log has had its answer: its file was renamed and its sheep has
/// reopened or is going to, or renaming the file failed, or the log collides.
spec fn answered(s: Progress, log: LogView, reopened: bool) -> bool {
    ||| leads_to(s.rotated, log.file()) && reopened
    ||| leads_to(s.faulted, log.file())
    ||| collides(log, s.naming, s.protected)
}

/// What holds all along.
spec fn holds(s: Progress, start: Progress, outcomes: Seq<Outcome>) -> bool {
    &&& s.groups == start.groups
    &&& s.naming == start.naming
    &&& s.protected == start.protected
    &&& 0 <= s.position <= s.groups.len()
    &&& 0 <= s.index
    &&& s.position < s.groups.len() ==> s.index <= s.groups[s.position].logs.len()
    &&& s.faulted.len() == s.rename_failed.len()
    &&& files_differ(s.rotated)
    &&& forall|i: int|
        0 <= i < s.rotated.len() ==> !collides(#[trigger] s.rotated[i], s.naming, s.protected)
    &&& forall|i: int| 0 <= i < s.rotated.len() ==> among(s.groups, #[trigger] s.rotated[i])
    &&& forall|i: int| 0 <= i < s.rotated_here.len() ==> s.rotated.contains(
        #[trigger] s.rotated_here[i],
    )
    &&& forall|i: int| 0 <= i < s.to_tidy.len() ==> s.rotated.contains(#[trigger] s.to_tidy[i])
    &&& forall|p: int, j: int|
        0 <= p < s.position && 0 <= j < s.groups[p].logs.len() ==> answered(
            s,
            #[trigger] s.groups[p].logs[j],
            reopened_since(start, outcomes, p, s.groups[p].logs[j].file()),
        )
    &&& s.position < s.groups.len() ==> forall|j: int|
        0 <= j < s.index ==> answered(
            s,
            #[trigger] s.groups[s.position].logs[j],
            s.rotated_any,
        )
    &&& s.position < s.groups.len() && s.rotated_any ==> one_was_renamed(s)
}

/// Whether one of the first logs of the sheep at hand, up to the one at hand,
/// leads to a file that was renamed.
spec fn one_was_renamed(s: Progress) -> bool {
    exists|j: int|
        0 <= j < s.index && j < s.groups[s.position].logs.len() && leads_to(
            s.rotated,
            (#[trigger] s.groups[s.position].logs[j]).file(),
        )
}

/// Whether `log` is one of the logs of the groups.
pub open spec fn among(groups: Seq<GroupView>, log: LogView) -> bool {
    exists|p: int, j: int|
        0 <= p < groups.len() && 0 <= j < groups[p].logs.len() && #[trigger] groups[p].logs[j]
            == log
}

/// One log more leads to one file more.
proof fn leads_to_push(logs: Seq<LogView>, log: LogView, file: FileId)
    ensures
        leads_to(logs.push(log), file) <==> leads_to(logs, file) || log.file() == file,
{
    assert(logs.push(log).drop_last() =~= logs);
}

/// What `leads_to` says, log by log.
proof fn leads_to_one(logs: Seq<LogView>, i: int)
    requires
        0 <= i < logs.len(),
    ensures
        leads_to(logs, logs[i].file()),
{
    position_is_first(logs, logs[i].file());
}

/// Whether what is waited for fits where the rotation stands.
pub open spec fn consistent(s: Progress) -> bool {
    match s.step {
        Step::Rename => {
            &&& s.position < s.groups.len()
            &&& s.index < s.groups[s.position].logs.len()
            &&& !leads_to(s.rotated, s.log().file())
            &&& !collides(s.log(), s.naming, s.protected)
        },
        Step::Reopen => {
            &&& s.position < s.groups.len()
            &&& s.index >= s.groups[s.position].logs.len()
            &&& s.rotated_any
        },
        Step::Done => s.position >= s.groups.len() || s.reopen_failed is Some,
    }
}

/// Going on keeps what holds all along.
proof fn settling_keeps(s: Progress, start: Progress, outcomes: Seq<Outcome>)
    requires
        holds(s, start, outcomes),
    ensures
        holds(s.settled(), start, outcomes),
        consistent(s.settled()),
        s.settled().reopen_failed == s.reopen_failed,
        s.settled().rotated == s.rotated,
        s.settled().faulted == s.faulted,
        s.settled().rename_failed == s.rename_failed,
        s.settled().to_tidy == s.to_tidy,
        s.settled().position >= s.position,
    decreases
        s.groups.len() - s.position,
        if s.position < s.groups.len() {
            s.groups[s.position].logs.len() - s.index
        } else {
            0
        },
{
    if s.position >= s.groups.len() {
    } else if s.index >= s.groups[s.position].logs.len() {
        if !s.rotated_any {
            let next = s.next_sheep();
            assert forall|p: int, j: int|
                0 <= p < next.position && 0 <= j < next.groups[p].logs.len() implies answered(
                next,
                #[trigger] next.groups[p].logs[j],
                reopened_since(start, outcomes, p, next.groups[p].logs[j].file()),
            ) by {
                if p == s.position {
                    assert(answered(s, s.groups[s.position].logs[j], s.rotated_any));
                } else {
                    assert(answered(
                        s,
                        s.groups[p].logs[j],
                        reopened_since(start, outcomes, p, s.groups[p].logs[j].file()),
                    ));
                }
            }
            settling_keeps(next, start, outcomes);
        }
    } else if leads_to(s.rotated, s.log().file()) {
        let next = Progress { index: s.index + 1, rotated_any: true, ..s };
        assert forall|j: int| 0 <= j < next.index implies answered(
            next,
            #[trigger] next.groups[next.position].logs[j],
            next.rotated_any,
        ) by {
            if j < s.index {
                assert(answered(s, s.groups[s.position].logs[j], s.rotated_any));
            }
        }
        assert forall|p: int, j: int|
            0 <= p < next.position && 0 <= j < next.groups[p].logs.len() implies answered(
            next,
            #[trigger] next.groups[p].logs[j],
            reopened_since(start, outcomes, p, next.groups[p].logs[j].file()),
        ) by {
            assert(answered(
                s,
                s.groups[p].logs[j],
                reopened_since(start, outcomes, p, s.groups[p].logs[j].file()),
            ));
        }
        settling_keeps(next, start, outcomes);
    } else if collides(s.log(), s.naming, s.protected) {
        let next = Progress { index: s.index + 1, collided: s.collided.push(s.log()), ..s };
        assert forall|j: int| 0 <= j < next.index implies answered(
            next,
            #[trigger] next.groups[next.position].logs[j],
            next.rotated_any,
        ) by {
            if j < s.index {
                assert(answered(s, s.groups[s.position].logs[j], s.rotated_any));
            }
        }
        assert forall|p: int, j: int|
            0 <= p < next.position && 0 <= j < next.groups[p].logs.len() implies answered(
            next,
            #[trigger] next.groups[p].logs[j],
            reopened_since(start, outcomes, p, next.groups[p].logs[j].file()),
        ) by {
            assert(answered(
                s,
                s.groups[p].logs[j],
                reopened_since(start, outcomes, p, s.groups[p].logs[j].file()),
            ));
        }
        settling_keeps(next, start, outcomes);
    } else {
    }
}

/// What has been reopened stays so.
proof fn still_reopened(
    start: Progress,
    outcomes: Seq<Outcome>,
    outcome: Outcome,
    p: int,
    file: FileId,
)
    requires
        reopened_since(start, outcomes, p, file),
    ensures
        reopened_since(start, outcomes.push(outcome), p, file),
{
    let k = choose|k: int| #[trigger] reopened_at(start, outcomes, k, p, file);
    assert(outcomes.push(outcome).take(k) =~= outcomes.take(k));
    assert(reopened_at(start, outcomes.push(outcome), k, p, file));
}

/// One outcome more keeps what holds all along, before going on.
proof fn answers_stay(
    s: Progress,
    next: Progress,
    start: Progress,
    outcomes: Seq<Outcome>,
    outcome: Outcome,
)
    requires
        holds(s, start, outcomes),
        next.groups == s.groups,
        next.naming == s.naming,
        next.protected == s.protected,
        forall|file: FileId| #[trigger] leads_to(s.rotated, file) ==> leads_to(next.rotated, file),
        forall|file: FileId| #[trigger] leads_to(s.faulted, file) ==> leads_to(next.faulted, file),
    ensures
        forall|p: int, j: int|
            0 <= p < s.position && 0 <= j < s.groups[p].logs.len() ==> answered(
                next,
                #[trigger] s.groups[p].logs[j],
                reopened_since(start, outcomes.push(outcome), p, s.groups[p].logs[j].file()),
            ),
        s.position < s.groups.len() ==> forall|j: int|
            0 <= j < s.index ==> answered(
                next,
                #[trigger] s.groups[s.position].logs[j],
                s.rotated_any,
            ),
{
    assert forall|p: int, j: int|
        0 <= p < s.position && 0 <= j < s.groups[p].logs.len() implies answered(
        next,
        #[trigger] s.groups[p].logs[j],
        reopened_since(start, outcomes.push(outcome), p, s.groups[p].logs[j].file()),
    ) by {
        let log = s.groups[p].logs[j];
        assert(answered(s, log, reopened_since(start, outcomes, p, log.file())));
        if reopened_since(start, outcomes, p, log.file()) {
            still_reopened(start, outcomes, outcome, p, log.file());
        }
    }
    if s.position < s.groups.len() {
        assert forall|j: int| 0 <= j < s.index implies answered(
            next,
            #[trigger] s.groups[s.position].logs[j],
            s.rotated_any,
        ) by {
            assert(answered(s, s.groups[s.position].logs[j], s.rotated_any));
        }
    }
}

/// A rename that went well keeps what holds all along, before going on.
proof fn renaming_keeps(s: Progress, start: Progress, outcomes: Seq<Outcome>)
    requires
        holds(s, start, outcomes),
        consistent(s),
        s.step == Step::Rename,
    ensures
        holds(
            Progress {
                rotated: s.rotated.push(s.log()),
                rotated_here: s.rotated_here.push(s.log()),
                rotated_any: true,
                index: s.index + 1,
                ..s
            },
            start,
            outcomes.push(None),
        ),
{
    let next = Progress {
        rotated: s.rotated.push(s.log()),
        rotated_here: s.rotated_here.push(s.log()),
        rotated_any: true,
        index: s.index + 1,
        ..s
    };
    assert forall|file: FileId| #[trigger] leads_to(s.rotated, file) implies leads_to(
        next.rotated,
        file,
    ) by {
        leads_to_push(s.rotated, s.log(), file);
    }
    answers_stay(s, next, start, outcomes, None);
    leads_to_push(s.rotated, s.log(), s.log().file());
    assert(files_differ(next.rotated)) by {
        assert forall|i: int, j: int| 0 <= i < j < next.rotated.len() implies (
        #[trigger] next.rotated[i]).file() != (#[trigger] next.rotated[j]).file() by {
            assert(next.rotated[i] == s.rotated[i]);
            if j == s.rotated.len() {
                position_is_first(s.rotated, s.log().file());
            } else {
                assert(next.rotated[j] == s.rotated[j]);
            }
        }
    }
    assert(next.rotated.contains(s.log())) by {
        assert(next.rotated[s.rotated.len() as int] == s.log());
    }
    assert forall|log: LogView| s.rotated.contains(log) implies #[trigger] next.rotated.contains(
        log,
    ) by {
        let i = choose|i: int| 0 <= i < s.rotated.len() && s.rotated[i] == log;
        assert(next.rotated[i] == log);
    }
    assert(among(s.groups, s.log())) by {
        assert(s.groups[s.position].logs[s.index] == s.log());
    }
    assert forall|i: int| 0 <= i < next.rotated.len() implies among(
        next.groups,
        #[trigger] next.rotated[i],
    ) && !collides(next.rotated[i], next.naming, next.protected) by {
        if i < s.rotated.len() {
            assert(next.rotated[i] == s.rotated[i]);
        }
    }
    assert forall|i: int| 0 <= i < next.rotated_here.len() implies next.rotated.contains(
        #[trigger] next.rotated_here[i],
    ) by {
        if i < s.rotated_here.len() {
            assert(next.rotated_here[i] == s.rotated_here[i]);
            assert(s.rotated.contains(s.rotated_here[i]));
        }
    }
    assert forall|i: int| 0 <= i < next.to_tidy.len() implies next.rotated.contains(
        #[trigger] next.to_tidy[i],
    ) by {
        assert(s.rotated.contains(s.to_tidy[i]));
    }
    assert forall|j: int| 0 <= j < next.index implies answered(
        next,
        #[trigger] next.groups[next.position].logs[j],
        next.rotated_any,
    ) by {
        if j < s.index {
            assert(answered(next, s.groups[s.position].logs[j], s.rotated_any));
        }
    }
    assert forall|p: int, j: int|
        0 <= p < next.position && 0 <= j < next.groups[p].logs.len() implies answered(
        next,
        #[trigger] next.groups[p].logs[j],
        reopened_since(start, outcomes.push(None), p, next.groups[p].logs[j].file()),
    ) by {
        assert(answered(
            next,
            s.groups[p].logs[j],
            reopened_since(start, outcomes.push(None), p, s.groups[p].logs[j].file()),
        ));
    }
}

/// A rename that failed keeps what holds all along, before going on.
proof fn failing_keeps(s: Progress, start: Progress, outcomes: Seq<Outcome>, why: Seq<char>)
    requires
        holds(s, start, outcomes),
        consistent(s),
        s.step == Step::Rename,
    ensures
        holds(
            Progress {
                faulted: s.faulted.push(s.log()),
                rename_failed: s.rename_failed.push(why),
                index: s.index + 1,
                ..s
            },
            start,
            outcomes.push(Some(why)),
        ),
{
    let next = Progress {
        faulted: s.faulted.push(s.log()),
        rename_failed: s.rename_failed.push(why),
        index: s.index + 1,
        ..s
    };
    assert forall|file: FileId| #[trigger] leads_to(s.faulted, file) implies leads_to(
        next.faulted,
        file,
    ) by {
        leads_to_push(s.faulted, s.log(), file);
    }
    answers_stay(s, next, start, outcomes, Some(why));
    leads_to_push(s.faulted, s.log(), s.log().file());
    assert forall|j: int| 0 <= j < next.index implies answered(
        next,
        #[trigger] next.groups[next.position].logs[j],
        next.rotated_any,
    ) by {
        if j < s.index {
            assert(answered(next, s.groups[s.position].logs[j], s.rotated_any));
        }
    }
    assert forall|p: int, j: int|
        0 <= p < next.position && 0 <= j < next.groups[p].logs.len() implies answered(
        next,
        #[trigger] next.groups[p].logs[j],
        reopened_since(start, outcomes.push(Some(why)), p, next.groups[p].logs[j].file()),
    ) by {
        assert(answered(
            next,
            s.groups[p].logs[j],
            reopened_since(start, outcomes.push(Some(why)), p, s.groups[p].logs[j].file()),
        ));
    }
}

/// A reopen that was granted keeps what holds all along, before going on.
proof fn reopening_keeps(s: Progress, start: Progress, outcomes: Seq<Outcome>)
    requires
        s == after(start, outcomes),
        holds(s, start, outcomes),
        consistent(s),
        s.step == Step::Reopen,
    ensures
        holds(
            Progress { to_tidy: s.to_tidy + s.rotated_here, ..s }.next_sheep(),
            start,
            outcomes.push(None),
        ),
{
    let next = Progress { to_tidy: s.to_tidy + s.rotated_here, ..s }.next_sheep();
    answers_stay(s, next, start, outcomes, None);
    assert forall|p: int, j: int|
        0 <= p < next.position && 0 <= j < next.groups[p].logs.len() implies answered(
        next,
        #[trigger] next.groups[p].logs[j],
        reopened_since(start, outcomes.push(None), p, next.groups[p].logs[j].file()),
    ) by {
        let log = s.groups[p].logs[j];
        if p == s.position {
            assert(answered(next, s.groups[s.position].logs[j], s.rotated_any));
            if leads_to(s.rotated, log.file()) {
                let n = outcomes.len() as int;
                assert(outcomes.push(None).take(n) =~= outcomes);
                assert(reopened_at(start, outcomes.push(None), n, p, log.file()));
            }
        } else {
            assert(answered(
                next,
                log,
                reopened_since(start, outcomes.push(None), p, log.file()),
            ));
        }
    }
    assert forall|i: int| 0 <= i < next.to_tidy.len() implies next.rotated.contains(
        #[trigger] next.to_tidy[i],
    ) by {
        if i < s.to_tidy.len() {
            assert(s.rotated.contains(s.to_tidy[i]));
        } else {
            assert(next.to_tidy[i] == s.rotated_here[i - s.to_tidy.len()]);
            assert(s.rotated.contains(s.rotated_here[i - s.to_tidy.len()]));
        }
    }
}

/// What holds all along does so after any outcomes.
proof fn always(
    groups: Seq<GroupView>,
    naming: Naming,
    protected: Set<FileId>,
    outcomes: Seq<Outcome>,
)
    ensures
        ({
            let start = started(groups, naming, protected);
            let s = after(start, outcomes);
            &&& holds(s, start, outcomes)
            &&& consistent(s)
            &&& s.groups == groups
            &&& s.naming == naming
            &&& s.protected == protected
        }),
    decreases outcomes.len(),
{
    let start = started(groups, naming, protected);
    let first = untouched(groups, naming, protected);
    assert(holds(first, first, Seq::empty()));
    settling_keeps(first, first, Seq::empty());
    if outcomes.len() == 0 {
        assert(outcomes =~= Seq::empty());
        assert forall|p: int, file: FileId| !reopened_since(
            first,
            Seq::empty(),
            p,
            file,
        ) by {}
        assert(holds(start, start, outcomes)) by {
            assert forall|p: int, j: int|
                0 <= p < start.position && 0 <= j < start.groups[p].logs.len() implies answered(
                start,
                #[trigger] start.groups[p].logs[j],
                reopened_since(start, outcomes, p, start.groups[p].logs[j].file()),
            ) by {
                assert(answered(
                    start,
                    start.groups[p].logs[j],
                    reopened_since(first, Seq::empty(), p, start.groups[p].logs[j].file()),
                ));
            }
        }
    } else {
        let before = outcomes.drop_last();
        let outcome = outcomes.last();
        always(groups, naming, protected, before);
        let s = after(start, before);
        assert(outcomes =~= before.push(outcome));
        match (s.step, outcome) {
            (Step::Rename, None) => {
                renaming_keeps(s, start, before);
                settling_keeps(
                    Progress {
                        rotated: s.rotated.push(s.log()),
                        rotated_here: s.rotated_here.push(s.log()),
                        rotated_any: true,
                        index: s.index + 1,
                        ..s
                    },
                    start,
                    outcomes,
                );
            },
            (Step::Rename, Some(why)) => {
                failing_keeps(s, start, before, why);
                settling_keeps(
                    Progress {
                        faulted: s.faulted.push(s.log()),
                        rename_failed: s.rename_failed.push(why),
                        index: s.index + 1,
                        ..s
                    },
                    start,
                    outcomes,
                );
            },
            (Step::Reopen, None) => {
                reopening_keeps(s, start, before);
                settling_keeps(
                    Progress { to_tidy: s.to_tidy + s.rotated_here, ..s }.next_sheep(),
                    start,
                    outcomes,
                );
            },
            (Step::Reopen, Some(why)) => {
                answers_stay(s, after(start, outcomes), start, before, outcome);
            },
            (Step::Done, _) => {
                answers_stay(s, s, start, before, outcome);
            },
        }
    }
}

/// No file is renamed twice in one rotation, however many sheep write to it
/// and however they spell its path.
pub proof fn no_file_is_renamed_twice(
    groups: Seq<GroupView>,
    naming: Naming,
    protected: Set<FileId>,
    outcomes: Seq<Outcome>,
)
    ensures
        files_differ(after(started(groups, naming, protected), outcomes).rotated),
{
    always(groups, naming, protected, outcomes);
}

/// A rename that failed is told once, and no other is told.
pub proof fn each_failed_rename_is_told_once(
    groups: Seq<GroupView>,
    naming: Naming,
    protected: Set<FileId>,
    outcomes: Seq<Outcome>,
)
    ensures
        ({
            let s = after(started(groups, naming, protected), outcomes);
            s.rename_failed.len() == s.faulted.len()
        }),
{
    always(groups, naming, protected, outcomes);
}

/// A log is renamed only if none of the names it can rotate into is a live
/// log.
pub proof fn no_rename_disturbs_a_live_log(
    groups: Seq<GroupView>,
    naming: Naming,
    protected: Set<FileId>,
    outcomes: Seq<Outcome>,
    generation: Generation,
)
    requires
        after(started(groups, naming, protected), outcomes).step == Step::Rename,
        fits(generation.slot, naming),
    ensures
        ({
            let log = after(started(groups, naming, protected), outcomes).log();
            !protected.contains((log.dir, generation_name(log.base, generation)))
        }),
{
    always(groups, naming, protected, outcomes);
    let log = after(started(groups, naming, protected), outcomes).log();
    let name = generation_name(log.base, generation);
    assert(is_generation(log.base, naming, name));
    if protected.contains((log.dir, name)) {
        assert(collides(log, naming, protected));
    }
}

/// Two paths that lead to one file collide together.
proof fn one_file_collides_alike(a: LogView, b: LogView, naming: Naming, protected: Set<FileId>)
    requires
        a.file() == b.file(),
        well_split(a),
        well_split(b),
    ensures
        collides(a, naming, protected) == collides(b, naming, protected),
{
    one_file_collides_too(a, b, naming, protected);
    one_file_collides_too(b, a, naming, protected);
}

/// If one path to a file collides, so does another.
proof fn one_file_collides_too(a: LogView, b: LogView, naming: Naming, protected: Set<FileId>)
    requires
        a.file() == b.file(),
        well_split(a),
        well_split(b),
    ensures
        collides(a, naming, protected) ==> collides(b, naming, protected),
{
    if collides(a, naming, protected) {
        let name = choose|name: Seq<char>| #[trigger]
            protected.contains((a.dir, name)) && is_generation(a.base, naming, name);
        let generation = choose|generation: Generation| #[trigger]
            fits(generation.slot, naming) && name == generation_name(a.base, generation);
        assert(generation_name(b.base, generation) == name);
        assert(is_generation(b.base, naming, name));
        assert(protected.contains((b.dir, name)));
    }
}

/// What is handed on to be compressed and pruned was renamed in this rotation,
/// and its renaming never failed.
pub proof fn what_is_tidied_was_renamed(
    groups: Seq<GroupView>,
    naming: Naming,
    protected: Set<FileId>,
    outcomes: Seq<Outcome>,
    i: int,
)
    requires
        0 <= i < after(started(groups, naming, protected), outcomes).tidy_list().len(),
    ensures
        ({
            let s = after(started(groups, naming, protected), outcomes);
            &&& s.rotated.contains(s.tidy_list()[i])
            &&& !leads_to(s.faulted, s.tidy_list()[i].file())
        }),
{
    always(groups, naming, protected, outcomes);
    let s = after(started(groups, naming, protected), outcomes);
    let may = |log: LogView| s.may_tidy(log);
    assert(s.tidy_list().contains(s.tidy_list()[i]));
    s.to_tidy.lemma_filter_pred(may, i);
    s.to_tidy.lemma_filter_contains_rev(may, s.tidy_list()[i]);
}

/// Nothing is compressed or pruned while a sheep still writes to it: every
/// sheep that writes to a file that is handed on has reopened since the file
/// was renamed.
pub proof fn what_is_tidied_is_no_longer_written(
    groups: Seq<GroupView>,
    naming: Naming,
    protected: Set<FileId>,
    outcomes: Seq<Outcome>,
    i: int,
    p: int,
)
    requires
        all_well_split(groups),
        0 <= i < after(started(groups, naming, protected), outcomes).tidy_list().len(),
        0 <= p < groups.len(),
        leads_to(
            groups[p].logs,
            after(started(groups, naming, protected), outcomes).tidy_list()[i].file(),
        ),
    ensures
        reopened_since(
            started(groups, naming, protected),
            outcomes,
            p,
            after(started(groups, naming, protected), outcomes).tidy_list()[i].file(),
        ),
{
    always(groups, naming, protected, outcomes);
    what_is_tidied_was_renamed(groups, naming, protected, outcomes, i);
    let start = started(groups, naming, protected);
    let s = after(start, outcomes);
    let log = s.tidy_list()[i];
    let may = |log: LogView| s.may_tidy(log);
    s.to_tidy.lemma_filter_pred(may, i);
    assert(may(log));
    assert(p < s.position) by {
        if s.position <= p {
            assert(leads_to(s.groups[p].logs, log.file()));
        }
    }
    position_is_first(groups[p].logs, log.file());
    let j = position_of(groups[p].logs, log.file())->0;
    let other = groups[p].logs[j];
    let k = choose|k: int| 0 <= k < s.rotated.len() && s.rotated[k] == log;
    assert(!collides(s.rotated[k], naming, protected));
    assert(among(groups, s.rotated[k]));
    let (q, m) = choose|q: int, m: int|
        0 <= q < groups.len() && 0 <= m < groups[q].logs.len() && #[trigger] groups[q].logs[m]
            == log;
    assert(well_split(groups[q].logs[m]));
    one_file_collides_alike(log, other, naming, protected);
    assert(answered(
        s,
        s.groups[p].logs[j],
        reopened_since(start, outcomes, p, s.groups[p].logs[j].file()),
    ));
}

/// A rotation that is over and was refused no reopen has had an answer for
/// every log: its file was renamed, or renaming it failed, or it collides.
pub proof fn no_log_is_forgotten(
    groups: Seq<GroupView>,
    naming: Naming,
    protected: Set<FileId>,
    outcomes: Seq<Outcome>,
    p: int,
    j: int,
)
    requires
        after(started(groups, naming, protected), outcomes).step == Step::Done,
        after(started(groups, naming, protected), outcomes).reopen_failed is None,
        0 <= p < groups.len(),
        0 <= j < groups[p].logs.len(),
    ensures
        ({
            let s = after(started(groups, naming, protected), outcomes);
            let log = groups[p].logs[j];
            ||| leads_to(s.rotated, log.file())
            ||| leads_to(s.faulted, log.file())
            ||| collides(log, naming, protected)
        }),
{
    always(groups, naming, protected, outcomes);
    let start = started(groups, naming, protected);
    let s = after(start, outcomes);
    assert(answered(
        s,
        s.groups[p].logs[j],
        reopened_since(start, outcomes, p, s.groups[p].logs[j].file()),
    ));
}

/// In a rotation that is over and was refused no reopen, every sheep that
/// writes to a file that was renamed has reopened since, unless renaming that
/// file failed in the turn of another.
pub proof fn every_writer_reopens(
    groups: Seq<GroupView>,
    naming: Naming,
    protected: Set<FileId>,
    outcomes: Seq<Outcome>,
    i: int,
    p: int,
)
    requires
        all_well_split(groups),
        after(started(groups, naming, protected), outcomes).step == Step::Done,
        after(started(groups, naming, protected), outcomes).reopen_failed is None,
        0 <= i < after(started(groups, naming, protected), outcomes).rotated.len(),
        0 <= p < groups.len(),
        leads_to(
            groups[p].logs,
            after(started(groups, naming, protected), outcomes).rotated[i].file(),
        ),
    ensures
        ({
            let start = started(groups, naming, protected);
            let s = after(start, outcomes);
            let file = s.rotated[i].file();
            reopened_since(start, outcomes, p, file) || leads_to(s.faulted, file)
        }),
{
    always(groups, naming, protected, outcomes);
    let start = started(groups, naming, protected);
    let s = after(start, outcomes);
    let log = s.rotated[i];
    position_is_first(groups[p].logs, log.file());
    let j = position_of(groups[p].logs, log.file())->0;
    let other = groups[p].logs[j];
    assert(among(groups, s.rotated[i]));
    let (q, m) = choose|q: int, m: int|
        0 <= q < groups.len() && 0 <= m < groups[q].logs.len() && #[trigger] groups[q].logs[m]
            == log;
    assert(well_split(groups[q].logs[m]));
    one_file_collides_alike(log, other, naming, protected);
    assert(answered(
        s,
        s.groups[p].logs[j],
        reopened_since(start, outcomes, p, s.groups[p].logs[j].file()),
    ));
}

/// Only a refused reopen ends a rotation early: otherwise every sheep has had
/// its turn when it is over.
pub proof fn only_a_refused_reopen_ends_it_early(
    groups: Seq<GroupView>,
    naming: Naming,
    protected: Set<FileId>,
    outcomes: Seq<Outcome>,
)
    ensures
        ({
            let s = after(started(groups, naming, protected), outcomes);
            s.step == Step::Done && s.reopen_failed is None ==> s.position == groups.len()
        }),
{
    always(groups, naming, protected, outcomes);
}

/// A refusal leaves a rotation over.
proof fn refusal_is_final(start: Progress, outcomes: Seq<Outcome>)
    requires
        start.reopen_failed is None,
    ensures
        after(start, outcomes).reopen_failed is Some ==> after(start, outcomes).step == Step::Done,
    decreases outcomes.len(),
{
    if outcomes.len() > 0 {
        refusal_is_final(start, outcomes.drop_last());
        let s = after(start, outcomes.drop_last());
        match (s.step, outcomes.last()) {
            (Step::Rename, None) => settling_refuses_nothing(
                Progress {
                    rotated: s.rotated.push(s.log()),
                    rotated_here: s.rotated_here.push(s.log()),
                    rotated_any: true,
                    index: s.index + 1,
                    ..s
                },
            ),
            (Step::Rename, Some(why)) => settling_refuses_nothing(
                Progress {
                    faulted: s.faulted.push(s.log()),
                    rename_failed: s.rename_failed.push(why),
                    index: s.index + 1,
                    ..s
                },
            ),
            (Step::Reopen, None) => settling_refuses_nothing(
                Progress { to_tidy: s.to_tidy + s.rotated_here, ..s }.next_sheep(),
            ),
            _ => {},
        }
    }
}

/// Going on is not a refusal.
proof fn settling_refuses_nothing(s: Progress)
    ensures
        s.settled().reopen_failed == s.reopen_failed,
    decreases
        s.groups.len() - s.position,
        if s.position < s.groups.len() {
            s.groups[s.position].logs.len() - s.index
        } else {
            0
        },
{
    if s.position >= s.groups.len() {
    } else if s.index >= s.groups[s.position].logs.len() {
        if !s.rotated_any {
            settling_refuses_nothing(s.next_sheep());
        }
    } else if leads_to(s.rotated, s.log().file()) {
        settling_refuses_nothing(Progress { index: s.index + 1, rotated_any: true, ..s });
    } else if collides(s.log(), s.naming, s.protected) {
        settling_refuses_nothing(
            Progress { index: s.index + 1, collided: s.collided.push(s.log()), ..s },
        );
    }
}

/// After a refused reopen nothing more is renamed or reopened, whatever is
/// told.
pub proof fn a_refused_reopen_is_the_end(
    groups: Seq<GroupView>,
    naming: Naming,
    protected: Set<FileId>,
    outcomes: Seq<Outcome>,
    more: Seq<Outcome>,
)
    requires
        after(started(groups, naming, protected), outcomes).reopen_failed is Some,
    ensures
        after(started(groups, naming, protected), outcomes).step == Step::Done,
        after(started(groups, naming, protected), outcomes + more) == after(
            started(groups, naming, protected),
            outcomes,
        ),
    decreases more.len(),
{
    settling_refuses_nothing(untouched(groups, naming, protected));
    refusal_is_final(started(groups, naming, protected), outcomes);
    if more.len() == 0 {
        assert(outcomes + more =~= outcomes);
    } else {
        a_refused_reopen_is_the_end(groups, naming, protected, outcomes, more.drop_last());
        assert((outcomes + more).drop_last() =~= outcomes + more.drop_last());
    }
}

/// How many renames and reopens the sheep from `p` on can take.
pub open spec fn turns(groups: Seq<GroupView>, p: int) -> nat
    decreases groups.len() - p,
{
    if p >= groups.len() {
        0
    } else {
        groups[p].logs.len() + 1 + turns(groups, p + 1)
    }
}

/// How many renames and reopens are left at most.
spec fn left(s: Progress) -> int {
    if s.step == Step::Done {
        0
    } else {
        turns(s.groups, s.position) - s.index
    }
}

/// Going on uses up turns and adds none.
proof fn settling_adds_no_turn(s: Progress)
    requires
        0 <= s.index,
        s.position < s.groups.len() ==> s.index <= s.groups[s.position].logs.len(),
        s.position >= s.groups.len() ==> s.index == 0,
    ensures
        0 <= left(s.settled()) <= turns(s.groups, s.position) - s.index,
        s.settled().groups == s.groups,
    decreases
        s.groups.len() - s.position,
        if s.position < s.groups.len() {
            s.groups[s.position].logs.len() - s.index
        } else {
            0
        },
{
    if s.position >= s.groups.len() {
    } else if s.index >= s.groups[s.position].logs.len() {
        if !s.rotated_any {
            settling_adds_no_turn(s.next_sheep());
        }
    } else if leads_to(s.rotated, s.log().file()) {
        settling_adds_no_turn(Progress { index: s.index + 1, rotated_any: true, ..s });
    } else if collides(s.log(), s.naming, s.protected) {
        settling_adds_no_turn(
            Progress { index: s.index + 1, collided: s.collided.push(s.log()), ..s },
        );
    }
}

/// What is left after some outcomes.
proof fn each_outcome_takes_a_turn(
    groups: Seq<GroupView>,
    naming: Naming,
    protected: Set<FileId>,
    outcomes: Seq<Outcome>,
)
    ensures
        ({
            let s = after(started(groups, naming, protected), outcomes);
            s.step == Step::Done || 0 < left(s) <= turns(groups, 0) - outcomes.len()
        }),
    decreases outcomes.len(),
{
    let start = started(groups, naming, protected);
    always(groups, naming, protected, outcomes);
    if outcomes.len() == 0 {
        settling_adds_no_turn(untouched(groups, naming, protected));
    } else {
        let before = outcomes.drop_last();
        each_outcome_takes_a_turn(groups, naming, protected, before);
        always(groups, naming, protected, before);
        let s = after(start, before);
        match (s.step, outcomes.last()) {
            (Step::Rename, None) => settling_adds_no_turn(
                Progress {
                    rotated: s.rotated.push(s.log()),
                    rotated_here: s.rotated_here.push(s.log()),
                    rotated_any: true,
                    index: s.index + 1,
                    ..s
                },
            ),
            (Step::Rename, Some(why)) => settling_adds_no_turn(
                Progress {
                    faulted: s.faulted.push(s.log()),
                    rename_failed: s.rename_failed.push(why),
                    index: s.index + 1,
                    ..s
                },
            ),
            (Step::Reopen, None) => settling_adds_no_turn(
                Progress { to_tidy: s.to_tidy + s.rotated_here, ..s }.next_sheep(),
            ),
            _ => {},
        }
    }
}

/// A rotation comes to an end: it asks for one rename for each log and one
/// reopen for each sheep, at most.
pub proof fn a_rotation_ends(
    groups: Seq<GroupView>,
    naming: Naming,
    protected: Set<FileId>,
    outcomes: Seq<Outcome>,
)
    requires
        outcomes.len() >= turns(groups, 0),
    ensures
        after(started(groups, naming, protected), outcomes).step == Step::Done,
{
    each_outcome_takes_a_turn(groups, naming, protected, outcomes);
}

/// Whether every path of the flock is split the way its name says.
pub open spec fn flock_well_split(entries: Seq<Entry>) -> bool {
    forall|e: int|
        0 <= e < entries.len() && (#[trigger] entries[e]).log is Some ==> well_split(
            entries[e].log->0@,
        )
}

/// Paths that are split right are so in the groups.
proof fn groups_well_split(entries: Seq<Entry>, sight: Sight)
    requires
        flock_well_split(entries),
    ensures
        all_well_split(grouped(entries, sight)),
{
    let groups = grouped(entries, sight);
    assert forall|p: int, j: int|
        0 <= p < groups.len() && 0 <= j < groups[p].logs.len() implies well_split(
        #[trigger] groups[p].logs[j],
    ) by {
        let name = groups[p].name;
        let log = groups[p].logs[j];
        assert(groups[p].logs.contains(log));
        assert(in_groups(groups, name, log));
        the_groups_are_what_rotates(entries, sight, name, log);
        let e = choose|e: int|
            0 <= e < entries.len() && sight.rotates(#[trigger] entries[e]) && entries[e].sheep@
                == name && entries[e].log->0@ == log;
        assert(well_split(entries[e].log->0@));
    }
}

/// No sheep of the whole flock still writes into what is compressed and
/// pruned: each one with a path to such a file has reopened since the file was
/// renamed.
pub proof fn the_flock_has_let_go_of_what_is_tidied(
    entries: Seq<Entry>,
    sight: Sight,
    naming: Naming,
    protected: Set<FileId>,
    outcomes: Seq<Outcome>,
    i: int,
    e: int,
)
    requires
        flock_well_split(entries),
        0 <= i < after(
            started(grouped(entries, sight), naming, protected),
            outcomes,
        ).tidy_list().len(),
        0 <= e < entries.len(),
        entries[e].log is Some,
        entries[e].log->0@.file() == after(
            started(grouped(entries, sight), naming, protected),
            outcomes,
        ).tidy_list()[i].file(),
    ensures
        exists|p: int|
            0 <= p < grouped(entries, sight).len() && #[trigger] grouped(entries, sight)[p].name
                == entries[e].sheep@ && reopened_since(
                started(grouped(entries, sight), naming, protected),
                outcomes,
                p,
                entries[e].log->0@.file(),
            ),
{
    let groups = grouped(entries, sight);
    let s = after(started(groups, naming, protected), outcomes);
    let log = s.tidy_list()[i];
    always(groups, naming, protected, outcomes);
    what_is_tidied_was_renamed(groups, naming, protected, outcomes, i);
    let k = choose|k: int| 0 <= k < s.rotated.len() && s.rotated[k] == log;
    assert(among(groups, s.rotated[k]));
    let (q, m) = choose|q: int, m: int|
        0 <= q < groups.len() && 0 <= m < groups[q].logs.len() && #[trigger] groups[q].logs[m]
            == log;
    assert(groups[q].logs.contains(log));
    assert(in_groups(groups, groups[q].name, log));
    the_groups_are_what_rotates(entries, sight, groups[q].name, log);
    assert(sight.rotates(entries[e]));
    let name = entries[e].sheep@;
    let own = entries[e].log->0@;
    assert(has_to_rotate(entries, sight, name, own));
    the_groups_are_what_rotates(entries, sight, name, own);
    let p = choose|p: int|
        0 <= p < groups.len() && (#[trigger] groups[p]).name == name && groups[p].logs.contains(
            own,
        );
    let j = choose|j: int| 0 <= j < groups[p].logs.len() && groups[p].logs[j] == own;
    leads_to_one(groups[p].logs, j);
    groups_well_split(entries, sight);
    what_is_tidied_is_no_longer_written(groups, naming, protected, outcomes, i, p);
}

/// The paths of a flock that was resolved are split the way their names say.
pub proof fn a_resolved_flock_is_well_split(
    entries: Seq<Entry>,
    written: Seq<Written>,
    dirs: Seq<Seq<char>>,
    targets: Seq<Seq<u8>>,
)
    requires
        entries.len() == written.len(),
        forall|e: int|
            0 <= e < entries.len() ==> is_entry_of(
                #[trigger] entries[e],
                written[e],
                dirs,
                targets,
            ),
    ensures
        flock_well_split(entries),
{
    assert forall|e: int|
        0 <= e < entries.len() && (#[trigger] entries[e]).log is Some implies well_split(
        entries[e].log->0@,
    ) by {
        assert(is_entry_of(entries[e], written[e], dirs, targets));
    }
}

/// A sheep is asked to reopen only if a file that it writes to has been renamed
/// in this rotation: where nothing was renamed, nobody is asked.
pub proof fn only_who_writes_to_a_renamed_file_reopens(
    groups: Seq<GroupView>,
    naming: Naming,
    protected: Set<FileId>,
    outcomes: Seq<Outcome>,
)
    requires
        after(started(groups, naming, protected), outcomes).step == Step::Reopen,
    ensures
        ({
            let s = after(started(groups, naming, protected), outcomes);
            &&& 0 <= s.position < groups.len()
            &&& s.rotated.len() > 0
            &&& exists|j: int|
                0 <= j < groups[s.position].logs.len() && leads_to(
                    s.rotated,
                    (#[trigger] groups[s.position].logs[j]).file(),
                )
        }),
{
    always(groups, naming, protected, outcomes);
    let s = after(started(groups, naming, protected), outcomes);
    assert(one_was_renamed(s));
    let j = choose|j: int|
        0 <= j < s.index && j < s.groups[s.position].logs.len() && leads_to(
            s.rotated,
            (#[trigger] s.groups[s.position].logs[j]).file(),
        );
    position_is_first(s.rotated, groups[s.position].logs[j].file());
}

/// The same of the whole flock: a sheep that is asked to reopen has a path to a
/// file that has been renamed in this rotation.
pub proof fn only_a_sheep_of_a_renamed_file_reopens(
    entries: Seq<Entry>,
    sight: Sight,
    naming: Naming,
    protected: Set<FileId>,
    outcomes: Seq<Outcome>,
)
    requires
        after(started(grouped(entries, sight), naming, protected), outcomes).step == Step::Reopen,
    ensures
        ({
            let groups = grouped(entries, sight);
            let s = after(started(groups, naming, protected), outcomes);
            exists|e: int|
                0 <= e < entries.len() && (#[trigger] entries[e]).sheep@ == groups[s.position].name
                    && entries[e].log is Some && leads_to(s.rotated, entries[e].log->0@.file())
        }),
{
    let groups = grouped(entries, sight);
    let s = after(started(groups, naming, protected), outcomes);
    only_who_writes_to_a_renamed_file_reopens(groups, naming, protected, outcomes);
    let j = choose|j: int|
        0 <= j < groups[s.position].logs.len() && leads_to(
            s.rotated,
            (#[trigger] groups[s.position].logs[j]).file(),
        );
    let name = groups[s.position].name;
    let log = groups[s.position].logs[j];
    assert(groups[s.position].logs.contains(log));
    assert(in_groups(groups, name, log));
    the_groups_are_what_rotates(entries, sight, name, log);
    let e = choose|e: int|
        0 <= e < entries.len() && sight.rotates(#[trigger] entries[e]) && entries[e].sheep@ == name
            && entries[e].log->0@ == log;
    assert(entries[e].sheep@ == name);
}

/// One outcome more does not go back to an earlier sheep, goes on from a sheep
/// that reopened, and does not go on from one that refused.
proof fn turns_go_forward(
    groups: Seq<GroupView>,
    naming: Naming,
    protected: Set<FileId>,
    outcomes: Seq<Outcome>,
    outcome: Outcome,
)
    ensures
        ({
            let start = started(groups, naming, protected);
            let s = after(start, outcomes);
            let next = after(start, outcomes.push(outcome));
            &&& next.position >= s.position
            &&& s.step == Step::Reopen ==> next.position > s.position || next.step == Step::Done
            &&& s.step == Step::Done ==> next.step == Step::Done
        }),
{
    let start = started(groups, naming, protected);
    let s = after(start, outcomes);
    let more = outcomes.push(outcome);
    always(groups, naming, protected, outcomes);
    assert(more.drop_last() =~= outcomes);
    match (s.step, outcome) {
        (Step::Rename, None) => {
            renaming_keeps(s, start, outcomes);
            settling_keeps(
                Progress {
                    rotated: s.rotated.push(s.log()),
                    rotated_here: s.rotated_here.push(s.log()),
                    rotated_any: true,
                    index: s.index + 1,
                    ..s
                },
                start,
                more,
            );
        },
        (Step::Rename, Some(why)) => {
            failing_keeps(s, start, outcomes, why);
            settling_keeps(
                Progress {
                    faulted: s.faulted.push(s.log()),
                    rename_failed: s.rename_failed.push(why),
                    index: s.index + 1,
                    ..s
                },
                start,
                more,
            );
        },
        (Step::Reopen, None) => {
            reopening_keeps(s, start, outcomes);
            settling_keeps(
                Progress { to_tidy: s.to_tidy + s.rotated_here, ..s }.next_sheep(),
                start,
                more,
            );
        },
        _ => {},
    }
}

/// Sheep are asked to reopen in the order of their groups, and each of them
/// once: one that is asked after another stands behind it and, where no two
/// groups have one name, is another sheep.
pub proof fn sheep_reopen_in_order_and_once(
    groups: Seq<GroupView>,
    naming: Naming,
    protected: Set<FileId>,
    outcomes: Seq<Outcome>,
    earlier: int,
)
    requires
        0 <= earlier < outcomes.len(),
        after(started(groups, naming, protected), outcomes.take(earlier)).step == Step::Reopen,
        after(started(groups, naming, protected), outcomes).step == Step::Reopen,
    ensures
        ({
            let start = started(groups, naming, protected);
            let p = after(start, outcomes.take(earlier)).position;
            let q = after(start, outcomes).position;
            &&& 0 <= p < q < groups.len()
            &&& names_differ(groups) ==> groups[p].name != groups[q].name
        }),
{
    always(groups, naming, protected, outcomes);
    always(groups, naming, protected, outcomes.take(earlier));
    stays_ahead(groups, naming, protected, outcomes, earlier);
}

/// After a sheep was asked to reopen, the turn is a later one's, or nobody's.
proof fn stays_ahead(
    groups: Seq<GroupView>,
    naming: Naming,
    protected: Set<FileId>,
    outcomes: Seq<Outcome>,
    earlier: int,
)
    requires
        0 <= earlier < outcomes.len(),
        after(started(groups, naming, protected), outcomes.take(earlier)).step == Step::Reopen,
    ensures
        ({
            let start = started(groups, naming, protected);
            let s = after(start, outcomes);
            s.position > after(start, outcomes.take(earlier)).position || s.step == Step::Done
        }),
    decreases outcomes.len(),
{
    let before = outcomes.drop_last();
    assert(before.push(outcomes.last()) =~= outcomes);
    turns_go_forward(groups, naming, protected, before, outcomes.last());
    if earlier < before.len() {
        assert(before.take(earlier) =~= outcomes.take(earlier));
        stays_ahead(groups, naming, protected, before, earlier);
    } else {
        assert(outcomes.take(earlier) =~= before);
    }
}

/// Whether a log leads to a file is whether one of them is in the directory of
/// the file, by its number, and has its name.
pub proof fn a_log_leads_to_its_file(logs: Seq<LogView>, file: FileId)
    ensures
        leads_to(logs, file) <==> exists|i: int|
            0 <= i < logs.len() && (#[trigger] logs[i]).dir == file.0 && logs[i].base.live()
                == file.1,
{
    position_is_first(logs, file);
    if exists|i: int|
        0 <= i < logs.len() && (#[trigger] logs[i]).dir == file.0 && logs[i].base.live()
            == file.1 {
        let i = choose|i: int|
            0 <= i < logs.len() && (#[trigger] logs[i]).dir == file.0 && logs[i].base.live()
                == file.1;
        assert(logs[i].file() == file);
    }
    if leads_to(logs, file) {
        let i = position_of(logs, file)->0;
        assert(logs[i].file() == file);
        assert(logs[i].dir == file.0);
    }
}

/// A log may be compressed and pruned if and only if no renaming of its file
/// failed, and neither the sheep at hand nor any behind it writes to its file.
pub proof fn what_may_be_tidied(s: Progress, log: LogView)
    ensures
        s.may_tidy(log) <==> {
            &&& forall|i: int|
                0 <= i < s.faulted.len() ==> (#[trigger] s.faulted[i]).file() != log.file()
            &&& forall|p: int, j: int|
                s.position <= p < s.groups.len() && 0 <= j < s.groups[p].logs.len() ==> (
                #[trigger] s.groups[p].logs[j]).file() != log.file()
        },
{
    let file = log.file();
    position_is_first(s.faulted, file);
    if s.may_tidy(log) {
        assert forall|p: int, j: int|
            s.position <= p < s.groups.len() && 0 <= j < s.groups[p].logs.len() implies (
        #[trigger] s.groups[p].logs[j]).file() != file by {
            if s.groups[p].logs[j].file() == file {
                leads_to_one(s.groups[p].logs, j);
                assert(leads_to(s.groups[p].logs, file));
            }
        }
    } else if s.still_written(file) {
        let p = choose|p: int|
            s.position <= p < s.groups.len() && #[trigger] leads_to(s.groups[p].logs, file);
        position_is_first(s.groups[p].logs, file);
        let j = position_of(s.groups[p].logs, file)->0;
        assert(s.groups[p].logs[j].file() == file);
    }
}

/// What was renamed is kept account of: those that may still be written to are
/// of the sheep at hand, and all others are to be tidied. What was left alone
/// collides.
spec fn accounts(s: Progress) -> bool {
    &&& 0 <= s.position
    &&& 0 <= s.index
    &&& s.rotated == s.to_tidy + s.rotated_here
    &&& !s.rotated_any || s.position >= s.groups.len() ==> s.rotated_here.len() == 0
    &&& forall|i: int|
        0 <= i < s.rotated_here.len() ==> s.groups[s.position].logs.contains(
            #[trigger] s.rotated_here[i],
        )
    &&& forall|i: int|
        0 <= i < s.collided.len() ==> among(s.groups, #[trigger] s.collided[i]) && collides(
            s.collided[i],
            s.naming,
            s.protected,
        )
}

/// Going on keeps the account.
proof fn settling_keeps_account(s: Progress)
    requires
        accounts(s),
    ensures
        accounts(s.settled()),
    decreases
        s.groups.len() - s.position,
        if s.position < s.groups.len() {
            s.groups[s.position].logs.len() - s.index
        } else {
            0
        },
{
    if s.position >= s.groups.len() {
    } else if s.index >= s.groups[s.position].logs.len() {
        if !s.rotated_any {
            let next = s.next_sheep();
            assert(next.rotated =~= next.to_tidy + next.rotated_here);
            settling_keeps_account(next);
        }
    } else if leads_to(s.rotated, s.log().file()) {
        settling_keeps_account(Progress { index: s.index + 1, rotated_any: true, ..s });
    } else if collides(s.log(), s.naming, s.protected) {
        let next = Progress { index: s.index + 1, collided: s.collided.push(s.log()), ..s };
        assert(s.groups[s.position].logs[s.index] == s.log());
        assert(among(s.groups, s.log()));
        settling_keeps_account(next);
    }
}

/// The account is kept after any outcomes.
proof fn accounts_are_kept(
    groups: Seq<GroupView>,
    naming: Naming,
    protected: Set<FileId>,
    outcomes: Seq<Outcome>,
)
    ensures
        accounts(after(started(groups, naming, protected), outcomes)),
    decreases outcomes.len(),
{
    if outcomes.len() == 0 {
        let first = untouched(groups, naming, protected);
        assert(first.rotated =~= first.to_tidy + first.rotated_here);
        settling_keeps_account(first);
    } else {
        let before = outcomes.drop_last();
        accounts_are_kept(groups, naming, protected, before);
        always(groups, naming, protected, before);
        let s = after(started(groups, naming, protected), before);
        match (s.step, outcomes.last()) {
            (Step::Rename, None) => {
                let next = Progress {
                    rotated: s.rotated.push(s.log()),
                    rotated_here: s.rotated_here.push(s.log()),
                    rotated_any: true,
                    index: s.index + 1,
                    ..s
                };
                assert(next.rotated =~= next.to_tidy + next.rotated_here);
                assert(s.groups[s.position].logs.contains(s.log())) by {
                    assert(s.groups[s.position].logs[s.index] == s.log());
                }
                settling_keeps_account(next);
            },
            (Step::Rename, Some(why)) => {
                settling_keeps_account(
                    Progress {
                        faulted: s.faulted.push(s.log()),
                        rename_failed: s.rename_failed.push(why),
                        index: s.index + 1,
                        ..s
                    },
                );
            },
            (Step::Reopen, None) => {
                let next = Progress { to_tidy: s.to_tidy + s.rotated_here, ..s }.next_sheep();
                assert(next.rotated =~= next.to_tidy + next.rotated_here);
                settling_keeps_account(next);
            },
            _ => {},
        }
    }
}

/// What was renamed, without a failure before or after, and is written to by no
/// sheep that has not had its turn, is handed on to be compressed and pruned: no
/// generation is forgotten.
pub proof fn what_was_renamed_is_tidied(
    groups: Seq<GroupView>,
    naming: Naming,
    protected: Set<FileId>,
    outcomes: Seq<Outcome>,
    i: int,
)
    requires
        0 <= i < after(started(groups, naming, protected), outcomes).rotated.len(),
    ensures
        ({
            let s = after(started(groups, naming, protected), outcomes);
            s.may_tidy(s.rotated[i]) ==> s.tidy_list().contains(s.rotated[i])
        }),
{
    always(groups, naming, protected, outcomes);
    accounts_are_kept(groups, naming, protected, outcomes);
    let s = after(started(groups, naming, protected), outcomes);
    let log = s.rotated[i];
    let may = |log: LogView| s.may_tidy(log);
    if s.may_tidy(log) {
        if i < s.to_tidy.len() {
            assert(s.to_tidy[i] == log);
            assert(s.to_tidy.contains(log));
            s.to_tidy.lemma_filter_contains(may, i);
        } else {
            let k = i - s.to_tidy.len();
            assert(s.rotated_here[k] == log);
            let logs = s.groups[s.position].logs;
            let j = choose|j: int| 0 <= j < logs.len() && logs[j] == log;
            leads_to_one(logs, j);
            assert(leads_to(s.groups[s.position].logs, log.file()));
        }
    }
}

/// In a rotation that is over and was refused no reopen, and in which no rename
/// failed, everything that was renamed is compressed and pruned.
pub proof fn all_goes_well_for_all(
    groups: Seq<GroupView>,
    naming: Naming,
    protected: Set<FileId>,
    outcomes: Seq<Outcome>,
    i: int,
)
    requires
        after(started(groups, naming, protected), outcomes).step == Step::Done,
        after(started(groups, naming, protected), outcomes).reopen_failed is None,
        after(started(groups, naming, protected), outcomes).faulted.len() == 0,
        0 <= i < after(started(groups, naming, protected), outcomes).rotated.len(),
    ensures
        ({
            let s = after(started(groups, naming, protected), outcomes);
            s.tidy_list().contains(s.rotated[i])
        }),
{
    let s = after(started(groups, naming, protected), outcomes);
    always(groups, naming, protected, outcomes);
    what_was_renamed_is_tidied(groups, naming, protected, outcomes, i);
    what_may_be_tidied(s, s.rotated[i]);
}

/// What is filtered still differs.
proof fn filtered_files_differ(logs: Seq<LogView>, may: spec_fn(LogView) -> bool)
    requires
        files_differ(logs),
    ensures
        files_differ(logs.filter(may)),
        forall|i: int|
            0 <= i < logs.filter(may).len() ==> logs.contains(#[trigger] logs.filter(may)[i]),
    decreases logs.len(),
{
    reveal(Seq::filter);
    if logs.len() > 0 {
        let fewer = logs.drop_last();
        let last = logs.last();
        let kept = fewer.filter(may);
        let now = logs.filter(may);
        assert(logs[logs.len() - 1] == last);
        assert forall|i: int| 0 <= i < fewer.len() implies #[trigger] fewer[i] == logs[i] by {}
        filtered_files_differ(fewer, may);
        assert forall|i: int| 0 <= i < now.len() implies logs.contains(#[trigger] now[i]) by {
            if i < kept.len() {
                assert(now[i] == kept[i]);
                let k = choose|k: int| 0 <= k < fewer.len() && fewer[k] == kept[i];
                assert(logs[k] == now[i]);
            }
        }
        assert forall|i: int, j: int| 0 <= i < j < now.len() implies (#[trigger] now[i]).file() != (
        #[trigger] now[j]).file() by {
            assert(now[i] == kept[i]);
            if j < kept.len() {
                assert(now[j] == kept[j]);
            } else {
                let k = choose|k: int| 0 <= k < fewer.len() && fewer[k] == kept[i];
                assert(logs[k].file() != logs[logs.len() - 1].file());
            }
        }
    }
}

/// No file is compressed and pruned twice in one pass.
pub proof fn no_file_is_tidied_twice(
    groups: Seq<GroupView>,
    naming: Naming,
    protected: Set<FileId>,
    outcomes: Seq<Outcome>,
)
    ensures
        files_differ(after(started(groups, naming, protected), outcomes).tidy_list()),
{
    always(groups, naming, protected, outcomes);
    accounts_are_kept(groups, naming, protected, outcomes);
    let s = after(started(groups, naming, protected), outcomes);
    assert(files_differ(s.to_tidy)) by {
        assert forall|i: int, j: int| 0 <= i < j < s.to_tidy.len() implies (
        #[trigger] s.to_tidy[i]).file() != (#[trigger] s.to_tidy[j]).file() by {
            assert(s.rotated[i] == s.to_tidy[i]);
            assert(s.rotated[j] == s.to_tidy[j]);
        }
    }
    filtered_files_differ(s.to_tidy, |log: LogView| s.may_tidy(log));
}

/// How many logs of the sheep before `p` collide.
pub open spec fn collisions(
    groups: Seq<GroupView>,
    naming: Naming,
    protected: Set<FileId>,
    p: int,
) -> nat
    decreases p,
{
    if p <= 0 {
        0
    } else {
        collisions(groups, naming, protected, p - 1) + how_many(
            groups[p - 1].logs.len(),
            |j: int| collides(groups[p - 1].logs[j], naming, protected),
        )
    }
}

/// How many logs collide up to where the rotation stands.
spec fn collisions_so_far(s: Progress) -> nat {
    collisions(s.groups, s.naming, s.protected, s.position) + if s.position < s.groups.len() {
        how_many(
            s.index as nat,
            |j: int| collides(s.groups[s.position].logs[j], s.naming, s.protected),
        )
    } else {
        0
    }
}

/// What is counted of collisions, and what it rests on.
spec fn counts(s: Progress) -> bool {
    &&& 0 <= s.position <= s.groups.len()
    &&& 0 <= s.index
    &&& s.position < s.groups.len() ==> s.index <= s.groups[s.position].logs.len()
    &&& s.collided.len() == collisions_so_far(s)
    &&& forall|i: int|
        0 <= i < s.rotated.len() ==> well_split(#[trigger] s.rotated[i]) && !collides(
            s.rotated[i],
            s.naming,
            s.protected,
        )
}

/// Going on keeps the count.
proof fn settling_keeps_count(s: Progress)
    requires
        all_well_split(s.groups),
        counts(s),
    ensures
        counts(s.settled()),
    decreases
        s.groups.len() - s.position,
        if s.position < s.groups.len() {
            s.groups[s.position].logs.len() - s.index
        } else {
            0
        },
{
    if s.position >= s.groups.len() {
    } else if s.index >= s.groups[s.position].logs.len() {
        if !s.rotated_any {
            let next = s.next_sheep();
            let these = |j: int| collides(s.groups[s.position].logs[j], s.naming, s.protected);
            as_many(
                s.groups[s.position].logs.len(),
                these,
                |j: int|
                    collides(s.groups[next.position - 1].logs[j], s.naming, s.protected),
            );
            assert(counts(next));
            settling_keeps_count(next);
        }
    } else if leads_to(s.rotated, s.log().file()) {
        let next = Progress { index: s.index + 1, rotated_any: true, ..s };
        position_is_first(s.rotated, s.log().file());
        let i = position_of(s.rotated, s.log().file())->0;
        assert(well_split(s.groups[s.position].logs[s.index]));
        assert(well_split(s.rotated[i]));
        one_file_collides_alike(s.rotated[i], s.log(), s.naming, s.protected);
        one_more_counted(s, next);
        settling_keeps_count(next);
    } else if collides(s.log(), s.naming, s.protected) {
        let next = Progress { index: s.index + 1, collided: s.collided.push(s.log()), ..s };
        one_more_counted(s, next);
        settling_keeps_count(next);
    }
}

/// One log more counts if it collides.
proof fn one_more_counted(s: Progress, next: Progress)
    requires
        0 <= s.position < s.groups.len(),
        0 <= s.index < s.groups[s.position].logs.len(),
        next.groups == s.groups,
        next.naming == s.naming,
        next.protected == s.protected,
        next.position == s.position,
        next.index == s.index + 1,
    ensures
        collisions_so_far(next) == collisions_so_far(s) + if collides(
            s.log(),
            s.naming,
            s.protected,
        ) {
            1nat
        } else {
            0nat
        },
{
    as_many(
        s.index as nat,
        |j: int| collides(s.groups[s.position].logs[j], s.naming, s.protected),
        |j: int| collides(next.groups[next.position].logs[j], next.naming, next.protected),
    );
}

/// The count is kept after any outcomes.
proof fn counts_are_kept(
    groups: Seq<GroupView>,
    naming: Naming,
    protected: Set<FileId>,
    outcomes: Seq<Outcome>,
)
    requires
        all_well_split(groups),
    ensures
        counts(after(started(groups, naming, protected), outcomes)),
    decreases outcomes.len(),
{
    if outcomes.len() == 0 {
        settling_keeps_count(untouched(groups, naming, protected));
    } else {
        let before = outcomes.drop_last();
        counts_are_kept(groups, naming, protected, before);
        always(groups, naming, protected, before);
        let s = after(started(groups, naming, protected), before);
        match (s.step, outcomes.last()) {
            (Step::Rename, None) => {
                let next = Progress {
                    rotated: s.rotated.push(s.log()),
                    rotated_here: s.rotated_here.push(s.log()),
                    rotated_any: true,
                    index: s.index + 1,
                    ..s
                };
                assert(well_split(s.groups[s.position].logs[s.index]));
                one_more_counted(s, next);
                settling_keeps_count(next);
            },
            (Step::Rename, Some(why)) => {
                let next = Progress {
                    faulted: s.faulted.push(s.log()),
                    rename_failed: s.rename_failed.push(why),
                    index: s.index + 1,
                    ..s
                };
                one_more_counted(s, next);
                settling_keeps_count(next);
            },
            (Step::Reopen, None) => {
                let next = Progress { to_tidy: s.to_tidy + s.rotated_here, ..s }.next_sheep();
                as_many(
                    s.groups[s.position].logs.len(),
                    |j: int| collides(s.groups[s.position].logs[j], s.naming, s.protected),
                    |j: int| collides(s.groups[next.position - 1].logs[j], s.naming, s.protected),
                );
                assert(counts(next));
                settling_keeps_count(next);
            },
            _ => {},
        }
    }
}

/// Every log that collides is counted, and once, in a rotation that is over and
/// was refused no reopen; and nothing else is counted with them, ever.
pub proof fn every_collision_is_counted(
    groups: Seq<GroupView>,
    naming: Naming,
    protected: Set<FileId>,
    outcomes: Seq<Outcome>,
    i: int,
)
    requires
        all_well_split(groups),
    ensures
        ({
            let s = after(started(groups, naming, protected), outcomes);
            &&& s.step == Step::Done && s.reopen_failed is None ==> s.collided.len() == collisions(
                groups,
                naming,
                protected,
                groups.len() as int,
            )
            &&& 0 <= i < s.collided.len() ==> collides(s.collided[i], naming, protected) && among(
                groups,
                s.collided[i],
            )
        }),
{
    always(groups, naming, protected, outcomes);
    counts_are_kept(groups, naming, protected, outcomes);
    accounts_are_kept(groups, naming, protected, outcomes);
}

} // verus!
