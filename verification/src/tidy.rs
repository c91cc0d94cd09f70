//! Compressing and pruning, one log after another, until a stop is asked for.

use vstd::prelude::*;

use crate::flock::{log_views, texts, Log, LogView};
use crate::prune::Chore;
use crate::report::Report;
use crate::rotation::Outcome;
use crate::text::{as_many, how_many};

verus! {

/// What compressing and pruning did.
#[derive(Debug, PartialEq, Eq)]
pub struct Tidied {
    /// Generations gzipped.
    pub compressed: usize,
    /// Files deleted for being past `keep`.
    pub deleted: usize,
    /// Times a compression or a deletion was refused because of a live log.
    pub skipped_protected: usize,
    /// Compressions and deletions that failed, one message each.
    pub faults: Vec<String>,
}

/// A [`Tidied`] with its numbers and strings as mathematical ones.
#[verifier::ext_equal]
pub struct Tally {
    /// Generations gzipped.
    pub compressed: nat,
    /// Files deleted for being past `keep`.
    pub deleted: nat,
    /// Times a compression or a deletion was refused because of a live log.
    pub skipped_protected: nat,
    /// Compressions and deletions that failed, one message each.
    pub faults: Seq<Seq<char>>,
}

impl View for Tidied {
    type V = Tally;

    open spec fn view(&self) -> Tally {
        Tally {
            compressed: self.compressed as nat,
            deleted: self.deleted as nat,
            skipped_protected: self.skipped_protected as nat,
            faults: texts(self.faults@),
        }
    }
}

/// Nothing done.
pub open spec fn nothing() -> Tally {
    Tally { compressed: 0, deleted: 0, skipped_protected: 0, faults: Seq::empty() }
}

impl Default for Tidied {
    fn default() -> (r: Self)
        ensures
            r@ == nothing(),
    {
        let r = Tidied { compressed: 0, deleted: 0, skipped_protected: 0, faults: Vec::new() };
        proof {
            assert(r@ =~= nothing());
        }
        r
    }
}

/// How each thing that was tried went.
pub open spec fn outcomes_of(results: Seq<Result<(), String>>) -> Seq<Outcome> {
    results.map_values(
        |result: Result<(), String>|
            match result {
                Ok(_) => None::<Seq<char>>,
                Err(why) => Some(why@),
            },
    )
}

impl Tally {
    /// With one chore more, which went as it went. A refusal is a refusal,
    /// however it goes.
    pub open spec fn with_chore(self, chore: Chore, outcome: Outcome) -> Tally {
        match (chore, outcome) {
            (Chore::Refuse(_), _) => Tally { skipped_protected: self.skipped_protected + 1, ..self },
            (_, Some(why)) => Tally { faults: self.faults.push(why), ..self },
            (Chore::Delete(_), None) => Tally { deleted: self.deleted + 1, ..self },
            (Chore::Compress(_), None) => Tally { compressed: self.compressed + 1, ..self },
        }
    }

    /// Together with another.
    pub open spec fn plus(self, other: Tally) -> Tally {
        Tally {
            compressed: self.compressed + other.compressed,
            deleted: self.deleted + other.deleted,
            skipped_protected: self.skipped_protected + other.skipped_protected,
            faults: self.faults + other.faults,
        }
    }
}

/// What the chores came to.
pub open spec fn tallied(chores: Seq<Chore>, outcomes: Seq<Outcome>) -> Tally
    decreases chores.len(),
{
    if chores.len() == 0 {
        nothing()
    } else {
        let n = chores.len() - 1;
        tallied(chores.drop_last(), outcomes).with_chore(chores[n], outcomes[n])
    }
}

/// What the chores of one log came to, each of which went as `results` says.
/// One that failed does not stop the next.
pub fn tally(chores: &Vec<Chore>, results: &Vec<Result<(), String>>) -> (r: Tidied)
    requires
        chores@.len() == results@.len(),
    ensures
        r@ == tallied(chores@, outcomes_of(results@)),
{
    let mut r = Tidied::default();
    let ghost outcomes = outcomes_of(results@);
    let mut i: usize = 0;
    while i < chores.len()
        invariant
            i <= chores@.len(),
            chores@.len() == results@.len(),
            outcomes == outcomes_of(results@),
            r@ == tallied(chores@.take(i as int), outcomes),
            r.compressed + r.deleted + r.skipped_protected <= i,
        decreases chores.len() - i,
    {
        let ghost before = r@;
        proof {
            assert(chores@.take(i + 1).drop_last() =~= chores@.take(i as int));
        }
        match (chores[i], &results[i]) {
            (Chore::Refuse(_), _) => {
                r.skipped_protected += 1;
            },
            (_, Err(why)) => {
                r.faults.push(why.clone());
                proof {
                    assert(r@.faults =~= before.faults.push(why@));
                }
            },
            (Chore::Delete(_), Ok(_)) => {
                r.deleted += 1;
            },
            (Chore::Compress(_), Ok(_)) => {
                r.compressed += 1;
            },
        }
        proof {
            assert(r@ =~= before.with_chore(chores@[i as int], outcomes[i as int]));
        }
        i += 1;
    }
    proof {
        assert(chores@.take(chores@.len() as int) =~= chores@);
    }
    r
}

/// How the turn of a log ended.
#[derive(Debug, PartialEq, Eq)]
pub enum Turn {
    /// The log was tidied.
    Tidied(Tidied),
    /// Its directory could not be listed, for this reason.
    Failed(String),
    /// A stop was asked for while it was being tidied.
    Stopped,
}

/// A [`Turn`] with its numbers and strings as mathematical ones.
pub enum TurnView {
    /// See [`Turn::Tidied`].
    Tidied(Tally),
    /// See [`Turn::Failed`].
    Failed(Seq<char>),
    /// See [`Turn::Stopped`].
    Stopped,
}

impl View for Turn {
    type V = TurnView;

    open spec fn view(&self) -> TurnView {
        match self {
            Turn::Tidied(tidied) => TurnView::Tidied(tidied@),
            Turn::Failed(why) => TurnView::Failed(why@),
            Turn::Stopped => TurnView::Stopped,
        }
    }
}

/// Where a tidying stands.
#[verifier::ext_equal]
pub struct TidyProgress {
    /// The logs to tidy.
    pub logs: Seq<LogView>,
    /// The log whose turn is next, by its position.
    pub next: int,
    /// Whether no log has a turn any more.
    pub over: bool,
    /// What was done.
    pub tally: Tally,
}

impl TidyProgress {
    /// The turn of the next log, unless there is none or a stop has been asked
    /// for.
    pub open spec fn asked(self, stop_requested: bool) -> TidyProgress {
        TidyProgress { over: self.over || stop_requested || self.next >= self.logs.len(), ..self }
    }

    /// The end of a turn. What was counted stays counted.
    pub open spec fn told(self, turn: TurnView) -> TidyProgress {
        if self.over {
            self
        } else {
            match turn {
                TurnView::Tidied(tally) => TidyProgress {
                    next: self.next + 1,
                    tally: self.tally.plus(tally),
                    ..self
                },
                TurnView::Failed(why) => TidyProgress {
                    next: self.next + 1,
                    tally: Tally { faults: self.tally.faults.push(why), ..self.tally },
                    ..self
                },
                TurnView::Stopped => TidyProgress { over: true, ..self },
            }
        }
    }
}

/// What a report says of compressing and pruning.
pub open spec fn tally_of(report: Report) -> Tally {
    Tally {
        compressed: report.compressed as nat,
        deleted: report.deleted as nat,
        skipped_protected: report.skipped_protected as nat,
        faults: texts(report.tidy_failed@),
    }
}

/// Whether two reports say the same of all but compressing and pruning.
pub open spec fn same_but_tidying(a: Report, b: Report) -> bool {
    &&& a.rotated == b.rotated
    &&& a.skipped == b.skipped
    &&& a.skipped_collision == b.skipped_collision
    &&& a.reopen_failed == b.reopen_failed
    &&& a.rename_failed == b.rename_failed
    &&& a.unlistable == b.unlistable
}

/// The compressing and pruning of one tick.
#[derive(Debug)]
pub struct Tidying {
    logs: Vec<Log>,
    next: usize,
    over: bool,
    report: Report,
}

impl View for Tidying {
    type V = TidyProgress;

    closed spec fn view(&self) -> TidyProgress {
        TidyProgress {
            logs: log_views(self.logs@),
            next: self.next as int,
            over: self.over,
            tally: tally_of(self.report),
        }
    }
}

impl Tidying {
    /// Whether the position of the next log is one.
    pub closed spec fn wf(&self) -> bool {
        self.next <= self.logs@.len()
    }

    /// The report so far.
    pub closed spec fn report(&self) -> Report {
        self.report
    }

    /// Starts on what a rotation left to tidy. What is done is added to
    /// `report`.
    pub fn new(logs: Vec<Log>, report: Report) -> (r: Self)
        ensures
            r.wf(),
            r.report() == report,
            r@ == (TidyProgress {
                logs: log_views(logs@),
                next: 0,
                over: false,
                tally: tally_of(report),
            }),
    {
        Tidying { logs, next: 0, over: false, report }
    }

    /// The log whose turn it is. A stop that has been asked for by then skips
    /// it and every log after it.
    pub fn ask(&mut self, stop_requested: bool) -> (r: Option<Log>)
        requires
            old(self).wf(),
        ensures
            final(self).wf(),
            final(self).report() == old(self).report(),
            final(self)@ == old(self)@.asked(stop_requested),
            r is None <==> final(self)@.over,
            r matches Some(log) ==> final(self)@.next < final(self)@.logs.len() && log@
                == final(self)@.logs[final(self)@.next],
    {
        if stop_requested || self.next >= self.logs.len() {
            self.over = true;
        }
        if self.over {
            None
        } else {
            proof {
                assert(self@.logs[self@.next] == self.logs@[self.next as int]@);
            }
            Some(self.logs[self.next].clone())
        }
    }

    /// Whether the counts of `tidied` can be added to those of the report.
    pub fn has_room(&self, tidied: &Tidied) -> (r: bool)
        ensures
            r == {
                &&& self@.tally.compressed + tidied.compressed <= usize::MAX
                &&& self@.tally.deleted + tidied.deleted <= usize::MAX
                &&& self@.tally.skipped_protected + tidied.skipped_protected <= usize::MAX
            },
    {
        tidied.compressed <= usize::MAX - self.report.compressed && tidied.deleted <= usize::MAX
            - self.report.deleted && tidied.skipped_protected <= usize::MAX
            - self.report.skipped_protected
    }

    /// Tells how the turn of the log that was asked for ended.
    pub fn tell(&mut self, turn: Turn)
        requires
            old(self).wf(),
            old(self)@.over || old(self)@.next < old(self)@.logs.len(),
            turn matches Turn::Tidied(tidied) ==> {
                &&& old(self)@.tally.compressed + tidied.compressed <= usize::MAX
                &&& old(self)@.tally.deleted + tidied.deleted <= usize::MAX
                &&& old(self)@.tally.skipped_protected + tidied.skipped_protected <= usize::MAX
            },
        ensures
            final(self).wf(),
            final(self)@ == old(self)@.told(turn@),
            same_but_tidying(final(self).report(), old(self).report()),
    {
        let ghost before = self@;
        if !self.over {
            let count: usize = self.logs.len();
            assert(self.next < count);
            match turn {
                Turn::Tidied(tidied) => {
                    let Tidied { compressed, deleted, skipped_protected, faults } = tidied;
                    let mut faults = faults;
                    let ghost told = faults@;
                    let ghost had = self.report.tidy_failed@;
                    self.report.compressed += compressed;
                    self.report.deleted += deleted;
                    self.report.skipped_protected += skipped_protected;
                    self.report.tidy_failed.append(&mut faults);
                    self.next += 1;
                    proof {
                        assert(texts(had + told) =~= texts(had) + texts(told));
                        assert(self@.tally =~= before.tally.plus(tidied@));
                    }
                },
                Turn::Failed(why) => {
                    let ghost had = self.report.tidy_failed@;
                    self.report.tidy_failed.push(why);
                    self.next += 1;
                    proof {
                        assert(texts(had.push(why)) =~= texts(had).push(why@));
                    }
                },
                Turn::Stopped => {
                    self.over = true;
                },
            }
        }
        proof {
            assert(self@ =~= before.told(turn@));
        }
    }

    /// The report, with what was compressed and pruned.
    pub fn into_report(self) -> (r: Report)
        ensures
            r == self.report(),
            tally_of(r) == self@.tally,
    {
        self.report
    }
}

/// Where a tidying stands after some turns, each of them with whether a stop
/// had been asked for when it began.
pub open spec fn tidied_after(start: TidyProgress, turns: Seq<(bool, TurnView)>) -> TidyProgress
    decreases turns.len(),
{
    if turns.len() == 0 {
        start
    } else {
        let (stop_requested, turn) = turns.last();
        tidied_after(start, turns.drop_last()).asked(stop_requested).told(turn)
    }
}

/// Once a stop has been asked for, no log has a turn any more, and what was
/// counted stays counted.
pub proof fn a_stop_ends_the_tidying(
    start: TidyProgress,
    turns: Seq<(bool, TurnView)>,
    more: Seq<(bool, TurnView)>,
)
    requires
        tidied_after(start, turns).over,
    ensures
        tidied_after(start, turns + more) == tidied_after(start, turns),
    decreases more.len(),
{
    if more.len() == 0 {
        assert(turns + more =~= turns);
    } else {
        a_stop_ends_the_tidying(start, turns, more.drop_last());
        assert((turns + more).drop_last() =~= turns + more.drop_last());
    }
}

/// A log that cannot be tidied does not stop the next: only a stop does, or
/// having no log left.
pub proof fn only_a_stop_ends_the_tidying_early(
    start: TidyProgress,
    turns: Seq<(bool, TurnView)>,
)
    requires
        !start.over,
        start.next == 0,
        tidied_after(start, turns).over,
        forall|i: int|
            0 <= i < turns.len() ==> !(#[trigger] turns[i]).0 && !(turns[i].1 is Stopped),
    ensures
        tidied_after(start, turns).next >= start.logs.len(),
    decreases turns.len(),
{
    if turns.len() > 0 {
        let before = turns.drop_last();
        let s = tidied_after(start, before);
        same_logs(start, before);
        assert forall|i: int| 0 <= i < before.len() implies !(#[trigger] before[i]).0 && !(
        before[i].1 is Stopped) by {
            assert(before[i] == turns[i]);
        }
        assert(turns[turns.len() - 1] == turns.last());
        if s.over {
            only_a_stop_ends_the_tidying_early(start, before);
        }
    }
}

/// The logs stay the same.
proof fn same_logs(start: TidyProgress, turns: Seq<(bool, TurnView)>)
    ensures
        tidied_after(start, turns).logs == start.logs,
    decreases turns.len(),
{
    if turns.len() > 0 {
        same_logs(start, turns.drop_last());
    }
}

/// A turn that ended, well or not, moves on to the very next log, and adds what
/// it did to what was counted; one that was stopped is the last.
pub proof fn a_turn_moves_on_to_the_next_log(progress: TidyProgress, turn: TurnView)
    requires
        !progress.over,
    ensures
        ({
            let next = progress.told(turn);
            &&& next.logs == progress.logs
            &&& next.over <==> turn is Stopped
            &&& next.next == if turn is Stopped {
                progress.next
            } else {
                progress.next + 1
            }
            &&& turn matches TurnView::Tidied(tally) ==> {
                &&& next.tally.compressed == progress.tally.compressed + tally.compressed
                &&& next.tally.deleted == progress.tally.deleted + tally.deleted
                &&& next.tally.skipped_protected == progress.tally.skipped_protected
                    + tally.skipped_protected
                &&& next.tally.faults == progress.tally.faults + tally.faults
            }
            &&& !(turn is Tidied) ==> {
                &&& next.tally.compressed == progress.tally.compressed
                &&& next.tally.deleted == progress.tally.deleted
                &&& next.tally.skipped_protected == progress.tally.skipped_protected
            }
            &&& turn matches TurnView::Failed(why) ==> next.tally.faults
                == progress.tally.faults.push(why)
            &&& turn is Stopped ==> next.tally.faults == progress.tally.faults
        }),
{
}

/// Asking whose turn it is changes nothing but whether the tidying is over. It
/// is once a stop has been asked for or no log is left, and then stays so.
pub proof fn asking_counts_nothing(progress: TidyProgress, stop_requested: bool)
    ensures
        ({
            let next = progress.asked(stop_requested);
            &&& next.logs == progress.logs
            &&& next.next == progress.next
            &&& next.tally == progress.tally
            &&& next.over <==> progress.over || stop_requested || progress.next
                >= progress.logs.len()
        }),
{
}

/// Without a stop every log has its turn, each once and in order: after `k`
/// turns it is that of the log at `k`, and the tidying is over when all have
/// had theirs and not before.
pub proof fn every_log_has_its_turn(start: TidyProgress, turns: Seq<(bool, TurnView)>, k: int)
    requires
        !start.over,
        start.next == 0,
        0 <= k <= turns.len() <= start.logs.len(),
        forall|i: int|
            0 <= i < turns.len() ==> !(#[trigger] turns[i]).0 && !(turns[i].1 is Stopped),
    ensures
        ({
            let next = tidied_after(start, turns.take(k)).asked(false);
            &&& next.logs == start.logs
            &&& next.next == k
            &&& next.over <==> k == start.logs.len()
        }),
        !tidied_after(start, turns.take(k)).over,
    decreases k,
{
    if k > 0 {
        every_log_has_its_turn(start, turns, k - 1);
        assert(turns.take(k).drop_last() =~= turns.take(k - 1));
        assert(turns.take(k).last() == turns[k - 1]);
    }
}

/// Every chore is counted, and once: as refused if it was a refusal, however it
/// went; as a fault if it failed; and else as a compression or as a deletion,
/// whichever it was.
pub proof fn every_chore_is_counted_once(chores: Seq<Chore>, outcomes: Seq<Outcome>)
    ensures
        ({
            let n = chores.len();
            let tally = tallied(chores, outcomes);
            &&& tally.compressed == how_many(
                n,
                |i: int| chores[i] is Compress && outcomes[i] is None,
            )
            &&& tally.deleted == how_many(n, |i: int| chores[i] is Delete && outcomes[i] is None)
            &&& tally.skipped_protected == how_many(n, |i: int| chores[i] is Refuse)
            &&& tally.faults.len() == how_many(
                n,
                |i: int| !(chores[i] is Refuse) && outcomes[i] is Some,
            )
            &&& tally.compressed + tally.deleted + tally.skipped_protected + tally.faults.len() == n
        }),
    decreases chores.len(),
{
    if chores.len() > 0 {
        let before = chores.drop_last();
        let n = before.len();
        every_chore_is_counted_once(before, outcomes);
        as_many(
            n,
            |i: int| before[i] is Compress && outcomes[i] is None,
            |i: int| chores[i] is Compress && outcomes[i] is None,
        );
        as_many(
            n,
            |i: int| before[i] is Delete && outcomes[i] is None,
            |i: int| chores[i] is Delete && outcomes[i] is None,
        );
        as_many(n, |i: int| before[i] is Refuse, |i: int| chores[i] is Refuse);
        as_many(
            n,
            |i: int| !(before[i] is Refuse) && outcomes[i] is Some,
            |i: int| !(chores[i] is Refuse) && outcomes[i] is Some,
        );
    }
}

/// The message of every chore that failed is kept, in the order of the chores.
pub proof fn every_fault_is_kept_in_order(chores: Seq<Chore>, outcomes: Seq<Outcome>, k: int)
    requires
        0 <= k < chores.len(),
        !(chores[k] is Refuse),
        outcomes[k] is Some,
    ensures
        ({
            let earlier = how_many(
                k as nat,
                |i: int| !(chores[i] is Refuse) && outcomes[i] is Some,
            );
            let faults = tallied(chores, outcomes).faults;
            earlier < faults.len() && faults[earlier as int] == outcomes[k]->0
        }),
    decreases chores.len(),
{
    let before = chores.drop_last();
    let failed = |i: int| !(chores[i] is Refuse) && outcomes[i] is Some;
    let failed_before = |i: int| !(before[i] is Refuse) && outcomes[i] is Some;
    as_many(k as nat, failed_before, failed);
    every_chore_is_counted_once(before, outcomes);
    if k < before.len() {
        assert(before[k] == chores[k]);
        every_fault_is_kept_in_order(before, outcomes, k);
    }
}

/// What a report says of compressing and pruning is in four of its fields, and
/// in no other.
pub proof fn tidying_shows_in_four_fields(a: Report, b: Report)
    ensures
        tally_of(a).compressed == a.compressed,
        tally_of(a).deleted == a.deleted,
        tally_of(a).skipped_protected == a.skipped_protected,
        tally_of(a).faults.len() == a.tidy_failed@.len(),
        forall|i: int|
            0 <= i < a.tidy_failed@.len() ==> #[trigger] tally_of(a).faults[i]
                == a.tidy_failed@[i]@,
        same_but_tidying(a, b) ==> a.rotated == b.rotated && a.skipped == b.skipped
            && a.skipped_collision == b.skipped_collision && a.reopen_failed == b.reopen_failed
            && a.rename_failed == b.rename_failed && a.unlistable == b.unlistable,
{
}

/// How each thing went is told in the order in which they were tried: nothing is
/// said of one that went well, and what was wrong of one that did not.
pub proof fn outcomes_stand_in_order(results: Seq<Result<(), String>>, i: int)
    ensures
        outcomes_of(results).len() == results.len(),
        0 <= i < results.len() && results[i] is Ok ==> outcomes_of(results)[i] is None,
        0 <= i < results.len() && results[i] is Err ==> outcomes_of(results)[i] == Some(
            results[i]->Err_0@,
        ),
{
}

} // verus!
