//! Renaming what has to be rotated and having each sheep reopen its logs, one
//! sheep at a time.
//!
//! The renames and the reopens happen outside: a [`Rotation`] says which of
//! them is next, is told how it went, and goes on from there. A rename that
//! fails is that one log's problem, and the next log is still handled. A
//! reopen that is refused ends the rotation: going on through a broken reopen
//! turns one recoverable state into several confusing ones.

use vstd::prelude::*;

use crate::config::Naming;
use crate::flock::{
    collides, collides_with_a_live_log, log_views, texts, FileId, FileSet, Log, LogView,
};
use crate::report::Report;
use crate::survey::{find_file, group_views, position_of, Group, GroupView};

verus! {

/// What a rotation waits for.
#[derive(Debug, Clone, Copy, PartialEq, Eq, Structural)]
pub enum Step {
    /// The log at hand is to be renamed.
    Rename,
    /// The sheep at hand is to reopen its logs.
    Reopen,
    /// Nothing: the rotation is over.
    Done,
}

/// How something that was asked for went: `None` if well, or what was wrong.
pub type Outcome = Option<Seq<char>>;

/// Where a rotation stands.
#[verifier::ext_equal]
pub struct Progress {
    /// What there is to rotate, sheep by sheep.
    pub groups: Seq<GroupView>,
    /// How generations are named.
    pub naming: Naming,
    /// The live logs of the whole flock.
    pub protected: Set<FileId>,
    /// The sheep at hand, by its position in `groups`.
    pub position: int,
    /// The log at hand, by its position among those of the sheep.
    pub index: int,
    /// What is waited for.
    pub step: Step,
    /// Whether any file that the sheep at hand writes to has been renamed.
    pub rotated_any: bool,
    /// The logs that were renamed in the turn of the sheep at hand.
    pub rotated_here: Seq<LogView>,
    /// The logs that were renamed.
    pub rotated: Seq<LogView>,
    /// The logs that were left alone because a name they rotate into is a
    /// live log.
    pub collided: Seq<LogView>,
    /// The logs whose renaming failed.
    pub faulted: Seq<LogView>,
    /// Why, one message for each of them.
    pub rename_failed: Seq<Seq<char>>,
    /// The logs that were renamed and whose sheep reopened.
    pub to_tidy: Seq<LogView>,
    /// The sheep whose reopen was refused, and what it said.
    pub reopen_failed: Option<Seq<char>>,
}

/// Whether one of `logs` leads to `file`.
pub open spec fn leads_to(logs: Seq<LogView>, file: FileId) -> bool {
    position_of(logs, file) is Some
}

impl Progress {
    /// The log at hand.
    pub open spec fn log(self) -> LogView {
        self.groups[self.position].logs[self.index]
    }

    /// The turn of the next sheep.
    pub open spec fn next_sheep(self) -> Progress {
        Progress {
            position: self.position + 1,
            index: 0,
            rotated_any: false,
            rotated_here: Seq::empty(),
            ..self
        }
    }

    /// Goes on to the next thing that has to be done outside. A file that was
    /// renamed in the turn of another sheep is not renamed again, but the
    /// sheep at hand still has to reopen it; a log that collides is left
    /// alone; a sheep none of whose files was renamed is not asked to reopen.
    pub open spec fn settled(self) -> Progress
        decreases
            self.groups.len() - self.position,
            if self.position < self.groups.len() {
                self.groups[self.position].logs.len() - self.index
            } else {
                0
            },
    {
        if self.position >= self.groups.len() {
            Progress { step: Step::Done, ..self }
        } else if self.index >= self.groups[self.position].logs.len() {
            if self.rotated_any {
                Progress { step: Step::Reopen, ..self }
            } else {
                self.next_sheep().settled()
            }
        } else if leads_to(self.rotated, self.log().file()) {
            Progress { index: self.index + 1, rotated_any: true, ..self }.settled()
        } else if collides(self.log(), self.naming, self.protected) {
            Progress {
                index: self.index + 1,
                collided: self.collided.push(self.log()),
                ..self
            }.settled()
        } else {
            Progress { step: Step::Rename, ..self }
        }
    }

    /// Where the rotation stands once what it waited for has gone as it went.
    pub open spec fn told(self, outcome: Outcome) -> Progress {
        match (self.step, outcome) {
            (Step::Rename, None) => Progress {
                rotated: self.rotated.push(self.log()),
                rotated_here: self.rotated_here.push(self.log()),
                rotated_any: true,
                index: self.index + 1,
                ..self
            }.settled(),
            (Step::Rename, Some(why)) => Progress {
                faulted: self.faulted.push(self.log()),
                rename_failed: self.rename_failed.push(why),
                index: self.index + 1,
                ..self
            }.settled(),
            (Step::Reopen, None) => Progress {
                to_tidy: self.to_tidy + self.rotated_here,
                ..self
            }.next_sheep().settled(),
            (Step::Reopen, Some(why)) => Progress {
                step: Step::Done,
                reopen_failed: Some(self.groups[self.position].name + ": "@ + why),
                ..self
            },
            (Step::Done, _) => self,
        }
    }

    /// Whether a sheep that was not reopened this tick writes to `file`: the
    /// one whose reopen was refused, or one that never had its turn.
    pub open spec fn still_written(self, file: FileId) -> bool {
        exists|p: int|
            self.position <= p < self.groups.len() && #[trigger] leads_to(
                self.groups[p].logs,
                file,
            )
    }

    /// Whether `log` may be compressed and pruned: nothing went wrong with its
    /// file, and no sheep still writes into what was renamed.
    pub open spec fn may_tidy(self, log: LogView) -> bool {
        !leads_to(self.faulted, log.file()) && !self.still_written(log.file())
    }

    /// The logs to compress and prune.
    pub open spec fn tidy_list(self) -> Seq<LogView> {
        self.to_tidy.filter(|log: LogView| self.may_tidy(log))
    }
}

/// A rotation before anything has been done.
pub open spec fn untouched(
    groups: Seq<GroupView>,
    naming: Naming,
    protected: Set<FileId>,
) -> Progress {
    Progress {
        groups,
        naming,
        protected,
        position: 0,
        index: 0,
        step: Step::Done,
        rotated_any: false,
        rotated_here: Seq::empty(),
        rotated: Seq::empty(),
        collided: Seq::empty(),
        faulted: Seq::empty(),
        rename_failed: Seq::empty(),
        to_tidy: Seq::empty(),
        reopen_failed: None,
    }
}

/// A rotation that waits for the first thing to be done.
pub open spec fn started(
    groups: Seq<GroupView>,
    naming: Naming,
    protected: Set<FileId>,
) -> Progress {
    untouched(groups, naming, protected).settled()
}

/// Where a rotation stands after so many outcomes.
pub open spec fn after(start: Progress, outcomes: Seq<Outcome>) -> Progress
    decreases outcomes.len(),
{
    if outcomes.len() == 0 {
        start
    } else {
        after(start, outcomes.drop_last()).told(outcomes.last())
    }
}

/// One tick's renames and reopens.
#[derive(Debug)]
pub struct Rotation {
    groups: Vec<Group>,
    naming: Naming,
    protected: FileSet,
    position: usize,
    index: usize,
    step: Step,
    rotated_any: bool,
    rotated_here: Vec<Log>,
    rotated: Vec<Log>,
    collided: Vec<Log>,
    faulted: Vec<Log>,
    rename_failed: Vec<String>,
    to_tidy: Vec<Log>,
    reopen_failed: Option<String>,
}

impl View for Rotation {
    type V = Progress;

    closed spec fn view(&self) -> Progress {
        Progress {
            groups: group_views(self.groups@),
            naming: self.naming,
            protected: self.protected@,
            position: self.position as int,
            index: self.index as int,
            step: self.step,
            rotated_any: self.rotated_any,
            rotated_here: log_views(self.rotated_here@),
            rotated: log_views(self.rotated@),
            collided: log_views(self.collided@),
            faulted: log_views(self.faulted@),
            rename_failed: texts(self.rename_failed@),
            to_tidy: log_views(self.to_tidy@),
            reopen_failed: match self.reopen_failed {
                Some(why) => Some(why@),
                None => None,
            },
        }
    }
}

/// Views of a sequence with one log more.
proof fn log_views_push(logs: Seq<Log>, log: Log)
    ensures
        log_views(logs.push(log)) == log_views(logs).push(log@),
{
    assert(log_views(logs.push(log)) =~= log_views(logs).push(log@));
}

/// Going on changes nothing of what the rotation was given.
pub proof fn the_givens_stay(s: Progress)
    ensures
        s.settled().groups == s.groups,
        s.settled().naming == s.naming,
        s.settled().protected == s.protected,
    decreases
        s.groups.len() - s.position,
        if s.position < s.groups.len() {
            s.groups[s.position].logs.len() - s.index
        } else {
            0
        },
{
    if s.position >= s.groups.len() {
    } else if s.index >= s.groups[s.position].logs.len() {
        if !s.rotated_any {
            the_givens_stay(s.next_sheep());
        }
    } else if leads_to(s.rotated, s.log().file()) {
        the_givens_stay(Progress { index: s.index + 1, rotated_any: true, ..s });
    } else if collides(s.log(), s.naming, s.protected) {
        the_givens_stay(Progress { index: s.index + 1, collided: s.collided.push(s.log()), ..s });
    }
}

impl Rotation {
    /// Whether the positions are ones, and what is waited for can be done.
    pub closed spec fn wf(&self) -> bool {
        &&& self.position <= self.groups@.len()
        &&& self.step == Step::Rename ==> self.position < self.groups@.len() && self.index
            < self.groups@[self.position as int].logs@.len()
        &&& self.step == Step::Reopen ==> self.position < self.groups@.len()
    }

    /// Starts on what a survey found. `protected` is every live log of the
    /// flock.
    pub fn new(groups: Vec<Group>, protected: FileSet, naming: Naming) -> (r: Self)
        ensures
            r.wf(),
            r@ == started(group_views(groups@), naming, protected@),
    {
        let mut r = Rotation {
            groups,
            naming,
            protected,
            position: 0,
            index: 0,
            step: Step::Done,
            rotated_any: false,
            rotated_here: Vec::new(),
            rotated: Vec::new(),
            collided: Vec::new(),
            faulted: Vec::new(),
            rename_failed: Vec::new(),
            to_tidy: Vec::new(),
            reopen_failed: None,
        };
        proof {
            assert(r@ =~= untouched(group_views(groups@), naming, protected@));
        }
        r.settle();
        r
    }

    /// Goes on to the next thing that has to be done outside.
    fn settle(&mut self)
        requires
            old(self).position <= old(self).groups@.len(),
        ensures
            final(self).wf(),
            final(self)@ == old(self)@.settled(),
    {
        let ghost goal = self@.settled();
        loop
            invariant
                self.position <= self.groups@.len(),
                self@.settled() == goal,
            ensures
                self.wf(),
                self@ == goal,
            decreases
                self.groups@.len() - self.position,
                if self.position < self.groups@.len() {
                    self.groups@[self.position as int].logs@.len() - self.index
                } else {
                    0
                },
        {
            let ghost before = self@;
            if self.position >= self.groups.len() {
                self.step = Step::Done;
                proof {
                    assert(self@ =~= Progress { step: Step::Done, ..before });
                }
                break;
            }
            proof {
                assert(before.groups[before.position] == self.groups@[self.position as int]@);
            }
            if self.index >= self.groups[self.position].logs.len() {
                if self.rotated_any {
                    self.step = Step::Reopen;
                    proof {
                        assert(self@ =~= Progress { step: Step::Reopen, ..before });
                    }
                    break;
                }
                self.position += 1;
                self.index = 0;
                self.rotated_any = false;
                self.rotated_here = Vec::new();
                proof {
                    assert(self@ =~= before.next_sheep());
                }
                continue;
            }
            let log = self.groups[self.position].logs[self.index].clone();
            proof {
                assert(log@ == before.log());
            }
            if find_file(&self.rotated, &log).is_some() {
                self.index += 1;
                self.rotated_any = true;
                proof {
                    assert(self@ =~= Progress {
                        index: before.index + 1,
                        rotated_any: true,
                        ..before
                    });
                }
            } else if collides_with_a_live_log(&log.base, log.dir, self.naming, &self.protected) {
                proof {
                    log_views_push(self.collided@, log);
                }
                self.index += 1;
                self.collided.push(log);
                proof {
                    assert(self@ =~= Progress {
                        index: before.index + 1,
                        collided: before.collided.push(before.log()),
                        ..before
                    });
                }
            } else {
                self.step = Step::Rename;
                proof {
                    assert(self@ =~= Progress { step: Step::Rename, ..before });
                }
                break;
            }
        }
    }

    /// What the rotation waits for.
    pub fn step(&self) -> (r: Step)
        ensures
            r == self@.step,
    {
        self.step
    }

    /// The log to rename.
    pub fn log_to_rename(&self) -> (r: &Log)
        requires
            self.wf(),
            self@.step == Step::Rename,
        ensures
            r@ == self@.log(),
    {
        &self.groups[self.position].logs[self.index]
    }

    /// The sheep to reopen.
    pub fn sheep_to_reopen(&self) -> (r: &String)
        requires
            self.wf(),
            self@.step == Step::Reopen,
        ensures
            r@ == self@.groups[self@.position].name,
    {
        &self.groups[self.position].name
    }

    /// Tells how what was waited for went, and goes on. What is told when the
    /// rotation is over changes nothing.
    pub fn tell(&mut self, outcome: Result<(), String>)
        requires
            old(self).wf(),
        ensures
            final(self).wf(),
            final(self)@ == old(self)@.told(
                match outcome {
                    Ok(_) => None,
                    Err(why) => Some(why@),
                },
            ),
    {
        let ghost before = self@;
        match self.step {
            Step::Rename => {
                let count: usize = self.groups[self.position].logs.len();
                let log = self.groups[self.position].logs[self.index].clone();
                proof {
                    assert(self.index < count);
                    assert(before.groups[before.position] == self.groups@[self.position as int]@);
                    assert(log@ == before.log());
                    log_views_push(self.rotated@, log);
                    log_views_push(self.rotated_here@, log);
                    log_views_push(self.faulted@, log);
                }
                self.index += 1;
                match outcome {
                    Ok(_) => {
                        self.rotated_here.push(log.clone());
                        self.rotated.push(log);
                        self.rotated_any = true;
                        proof {
                            assert(self@ =~= Progress {
                                rotated: before.rotated.push(before.log()),
                                rotated_here: before.rotated_here.push(before.log()),
                                rotated_any: true,
                                index: before.index + 1,
                                ..before
                            });
                        }
                    },
                    Err(why) => {
                        self.faulted.push(log);
                        self.rename_failed.push(why);
                        proof {
                            assert(self@.rename_failed =~= before.rename_failed.push(why@));
                            assert(self@ =~= Progress {
                                faulted: before.faulted.push(before.log()),
                                rename_failed: before.rename_failed.push(why@),
                                index: before.index + 1,
                                ..before
                            });
                        }
                    },
                }
                self.settle();
            },
            Step::Reopen => {
                match outcome {
                    Ok(_) => {
                        let count: usize = self.groups.len();
                        assert(self.position < count);
                        let mut here: Vec<Log> = Vec::new();
                        std::mem::swap(&mut here, &mut self.rotated_here);
                        let ghost tidied = self.to_tidy@;
                        let ghost moved = here@;
                        self.to_tidy.append(&mut here);
                        self.position += 1;
                        self.index = 0;
                        self.rotated_any = false;
                        proof {
                            assert(log_views(tidied + moved) =~= log_views(tidied) + log_views(
                                moved,
                            ));
                            assert(self@ =~= Progress {
                                to_tidy: before.to_tidy + before.rotated_here,
                                ..before
                            }.next_sheep());
                        }
                        self.settle();
                    },
                    Err(why) => {
                        let mut said = self.groups[self.position].name.clone();
                        said.append(": ");
                        said.append(why.as_str());
                        self.reopen_failed = Some(said);
                        self.step = Step::Done;
                        proof {
                            assert(before.groups[before.position]
                                == self.groups@[self.position as int]@);
                            assert(self@ =~= before.told(Some(why@)));
                        }
                    },
                }
            },
            Step::Done => {},
        }
    }

    /// Whether a sheep that was not reopened writes to the file of `log`.
    fn is_still_written(&self, log: &Log) -> (r: bool)
        requires
            self.wf(),
        ensures
            r == self@.still_written(log@.file()),
    {
        let mut p: usize = self.position;
        while p < self.groups.len()
            invariant
                self.position <= p <= self.groups@.len(),
                forall|q: int|
                    self.position <= q < p ==> !(#[trigger] leads_to(
                        self@.groups[q].logs,
                        log@.file(),
                    )),
            decreases self.groups.len() - p,
        {
            proof {
                assert(self@.groups[p as int] == self.groups@[p as int]@);
            }
            if find_file(&self.groups[p].logs, log).is_some() {
                proof {
                    assert(leads_to(self@.groups[p as int].logs, log@.file()));
                }
                return true;
            }
            p += 1;
        }
        false
    }

    /// The logs to compress and prune.
    pub fn logs_to_tidy(&self) -> (r: Vec<Log>)
        requires
            self.wf(),
        ensures
            log_views(r@) == self@.tidy_list(),
    {
        let mut r: Vec<Log> = Vec::new();
        let mut i: usize = 0;
        let ghost all = log_views(self.to_tidy@);
        let ghost may = |log: LogView| self@.may_tidy(log);
        proof {
            reveal(Seq::filter);
            assert(log_views(r@) =~= all.take(0).filter(may));
        }
        while i < self.to_tidy.len()
            invariant
                i <= self.to_tidy@.len(),
                self.wf(),
                all == log_views(self.to_tidy@),
                may == (|log: LogView| self@.may_tidy(log)),
                log_views(r@) == all.take(i as int).filter(may),
            decreases self.to_tidy.len() - i,
        {
            let log = &self.to_tidy[i];
            let ghost before = r@;
            proof {
                reveal(Seq::filter);
                assert(all.take(i + 1).drop_last() =~= all.take(i as int));
                assert(all.take(i + 1).last() == log@);
                log_views_push(before, *log);
            }
            if find_file(&self.faulted, log).is_none() && !self.is_still_written(log) {
                r.push(log.clone());
            }
            i += 1;
        }
        proof {
            assert(all.take(self.to_tidy@.len() as int) =~= all);
        }
        r
    }

    /// What the renames and the reopens came to, together with what the survey
    /// skipped and the directories that it could not list; and the live logs
    /// of the whole flock.
    pub fn into_report(self, skipped: usize, unlistable: Vec<String>) -> (r: (Report, FileSet))
        ensures
            reports(r.0, self@),
            r.0.skipped == skipped,
            r.0.unlistable == unlistable,
            r.1@ == self@.protected,
    {
        let report = Report {
            rotated: self.rotated.len(),
            skipped,
            compressed: 0,
            deleted: 0,
            skipped_collision: self.collided.len(),
            skipped_protected: 0,
            reopen_failed: self.reopen_failed,
            rename_failed: self.rename_failed,
            tidy_failed: Vec::new(),
            unlistable,
        };
        (report, self.protected)
    }
}

/// Whether `report` says what the renames and the reopens came to, and nothing
/// of compressing and pruning.
pub open spec fn reports(report: Report, s: Progress) -> bool {
    &&& report.rotated == s.rotated.len()
    &&& report.compressed == 0
    &&& report.deleted == 0
    &&& report.skipped_collision == s.collided.len()
    &&& report.skipped_protected == 0
    &&& match report.reopen_failed {
        Some(why) => s.reopen_failed == Some(why@),
        None => s.reopen_failed is None,
    }
    &&& texts(report.rename_failed@) == s.rename_failed
    &&& report.tidy_failed@ == Seq::<String>::empty()
}

/// Going on records nothing but logs that collide.
proof fn settling_records_collisions_only(s: Progress)
    ensures
        s.settled().rotated == s.rotated,
        s.settled().faulted == s.faulted,
        s.settled().rename_failed == s.rename_failed,
        s.settled().to_tidy == s.to_tidy,
        s.settled().reopen_failed == s.reopen_failed,
    decreases
        s.groups.len() - s.position,
        if s.position < s.groups.len() {
            s.groups[s.position].logs.len() - s.index
        } else {
            0
        },
{
    if s.position >= s.groups.len() {
    } else if s.index >= s.groups[s.position].logs.len() {
        if !s.rotated_any {
            settling_records_collisions_only(s.next_sheep());
        }
    } else if leads_to(s.rotated, s.log().file()) {
        settling_records_collisions_only(
            Progress { index: s.index + 1, rotated_any: true, ..s },
        );
    } else if collides(s.log(), s.naming, s.protected) {
        settling_records_collisions_only(
            Progress { index: s.index + 1, collided: s.collided.push(s.log()), ..s },
        );
    }
}

/// Every outcome is recorded for what it was the outcome of: a log that was
/// renamed, or one that was not with the reason, or the logs that a sheep let go
/// of, or who refused and why. Nothing else is recorded, and nothing that was
/// recorded is lost.
pub proof fn every_outcome_is_recorded(s: Progress, outcome: Outcome)
    ensures
        ({
            let next = s.told(outcome);
            let renamed = s.step == Step::Rename && outcome is None;
            let failed = s.step == Step::Rename && outcome is Some;
            let reopened = s.step == Step::Reopen && outcome is None;
            let refused = s.step == Step::Reopen && outcome is Some;
            &&& next.groups == s.groups && next.naming == s.naming && next.protected == s.protected
            &&& renamed ==> next.rotated == s.rotated.push(s.log())
            &&& !renamed ==> next.rotated == s.rotated
            &&& failed ==> next.faulted == s.faulted.push(s.log())
            &&& failed ==> next.rename_failed == s.rename_failed.push(outcome->0)
            &&& !failed ==> next.faulted == s.faulted && next.rename_failed == s.rename_failed
            &&& reopened ==> next.to_tidy == s.to_tidy + s.rotated_here
            &&& !reopened ==> next.to_tidy == s.to_tidy
            &&& refused ==> next.step == Step::Done && next.position == s.position
            &&& refused ==> next.reopen_failed == Some(
                s.groups[s.position].name + ": "@ + outcome->0,
            )
            &&& !refused ==> next.reopen_failed == s.reopen_failed
            &&& s.step == Step::Done ==> next == s
        }),
{
    match (s.step, outcome) {
        (Step::Rename, None) => {
            let next = Progress {
                rotated: s.rotated.push(s.log()),
                rotated_here: s.rotated_here.push(s.log()),
                rotated_any: true,
                index: s.index + 1,
                ..s
            };
            settling_records_collisions_only(next);
            the_givens_stay(next);
        },
        (Step::Rename, Some(why)) => {
            let next = Progress {
                faulted: s.faulted.push(s.log()),
                rename_failed: s.rename_failed.push(why),
                index: s.index + 1,
                ..s
            };
            settling_records_collisions_only(next);
            the_givens_stay(next);
        },
        (Step::Reopen, None) => {
            let next = Progress { to_tidy: s.to_tidy + s.rotated_here, ..s }.next_sheep();
            settling_records_collisions_only(next);
            the_givens_stay(next);
        },
        _ => {},
    }
}

/// A rotation starts with nothing done, on what it was given.
pub proof fn nothing_is_done_at_the_start(
    groups: Seq<GroupView>,
    naming: Naming,
    protected: Set<FileId>,
)
    ensures
        ({
            let s = started(groups, naming, protected);
            &&& s.groups == groups && s.naming == naming && s.protected == protected
            &&& s.rotated.len() == 0 && s.faulted.len() == 0 && s.rename_failed.len() == 0
            &&& s.to_tidy.len() == 0 && s.reopen_failed is None
        }),
{
    settling_records_collisions_only(untouched(groups, naming, protected));
    the_givens_stay(untouched(groups, naming, protected));
}

/// Whether the log at `j` of the sheep at `p` comes at `s` or behind it, and
/// before `t`.
pub open spec fn is_between(s: Progress, t: Progress, p: int, j: int) -> bool {
    &&& s.position <= p < s.groups.len()
    &&& 0 <= j < s.groups[p].logs.len()
    &&& p == s.position ==> s.index <= j
    &&& p < t.position || (p == t.position && j < t.index)
}

/// Going on passes over a log only if its file was renamed already or if it
/// collides, and over a sheep only if none of its files was renamed. It stops at
/// a log that is neither, or at a sheep that has to reopen, and is over only when
/// all sheep have had their turn.
pub proof fn only_what_needs_nothing_is_passed_over(s: Progress, p: int, j: int)
    ensures
        ({
            let t = s.settled();
            &&& is_between(s, t, p, j) ==> leads_to(s.rotated, s.groups[p].logs[j].file())
                || collides(s.groups[p].logs[j], s.naming, s.protected)
            &&& is_between(s, t, p, j) && p < t.position ==> !leads_to(
                s.rotated,
                s.groups[p].logs[j].file(),
            )
            &&& s.position < t.position && s.position < s.groups.len() ==> !s.rotated_any
            &&& t.position >= s.position
            &&& t.step == Step::Done ==> t.position >= s.groups.len()
            &&& t.step == Step::Reopen ==> t.position < s.groups.len() && t.index
                >= s.groups[t.position].logs.len() && t.rotated_any
            &&& t.step == Step::Rename ==> t.position < s.groups.len() && t.index
                < s.groups[t.position].logs.len() && !leads_to(s.rotated, t.log().file())
                && !collides(t.log(), s.naming, s.protected)
        }),
    decreases
        s.groups.len() - s.position,
        if s.position < s.groups.len() {
            s.groups[s.position].logs.len() - s.index
        } else {
            0
        },
{
    the_givens_stay(s);
    settling_records_collisions_only(s);
    if s.position >= s.groups.len() {
    } else if s.index >= s.groups[s.position].logs.len() {
        if !s.rotated_any {
            only_what_needs_nothing_is_passed_over(s.next_sheep(), p, j);
        }
    } else if leads_to(s.rotated, s.log().file()) {
        only_what_needs_nothing_is_passed_over(
            Progress { index: s.index + 1, rotated_any: true, ..s },
            p,
            j,
        );
    } else if collides(s.log(), s.naming, s.protected) {
        only_what_needs_nothing_is_passed_over(
            Progress { index: s.index + 1, collided: s.collided.push(s.log()), ..s },
            p,
            j,
        );
    }
}

/// A report of the renames and the reopens says how many logs were renamed and
/// how many were left alone, which renames failed and why, and who refused.
pub proof fn a_report_tells_what_was_recorded(report: Report, s: Progress)
    requires
        reports(report, s),
    ensures
        report.rotated == s.rotated.len(),
        report.skipped_collision == s.collided.len(),
        report.rename_failed@.len() == s.rename_failed.len(),
        forall|i: int|
            0 <= i < s.rename_failed.len() ==> (#[trigger] report.rename_failed@[i])@
                == s.rename_failed[i],
        report.reopen_failed is Some <==> s.reopen_failed is Some,
        report.reopen_failed is Some ==> report.reopen_failed->0@ == s.reopen_failed->0,
        report.compressed == 0 && report.deleted == 0 && report.skipped_protected == 0,
        report.tidy_failed@.len() == 0,
{
    assert forall|i: int| 0 <= i < s.rename_failed.len() implies (
    #[trigger] report.rename_failed@[i])@ == s.rename_failed[i] by {
        assert(texts(report.rename_failed@)[i] == s.rename_failed[i]);
    }
    assert(texts(report.rename_failed@).len() == report.rename_failed@.len());
}

} // verus!
