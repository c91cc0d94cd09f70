//! What one pass did, and the one line that says so.

use vstd::prelude::*;

use crate::text::{decimal, has_text, has_text_between, numeral};

verus! {

/// What one tick did.
///
/// Every field is a count of something an operator might go looking for
/// afterwards, or the faults met on the way.
#[derive(Debug, Clone, PartialEq, Eq)]
pub struct Report {
    /// Live log paths renamed. Counts files, not sheep: two sheep sharing one
    /// file rotate it once between them.
    pub rotated: usize,
    /// Log paths this tick could not consider at all, because they could not
    /// be looked at or could not be spelled.
    pub skipped: usize,
    /// Generations gzipped.
    pub compressed: usize,
    /// Files deleted for being past `keep`. Files rather than generations: a
    /// generation left half-compressed wears two files, and they go together.
    pub deleted: usize,
    /// Logs left unrotated because a name they rotate into is some sheep's
    /// live log.
    pub skipped_collision: usize,
    /// Times a compression or a deletion was refused for the same reason.
    pub skipped_protected: usize,
    /// The sheep whose reopen was refused, and what it said. Set means the
    /// tick stopped early.
    pub reopen_failed: Option<String>,
    /// Renames that failed, one message each.
    pub rename_failed: Vec<String>,
    /// Compressions and deletions that failed, one message each.
    pub tidy_failed: Vec<String>,
    /// Log directories that could not be listed to read a log's age, one
    /// message each.
    pub unlistable: Vec<String>,
}

impl Default for Report {
    fn default() -> (r: Self)
        ensures
            r.rotated == 0,
            r.skipped == 0,
            r.compressed == 0,
            r.deleted == 0,
            r.skipped_collision == 0,
            r.skipped_protected == 0,
            r.reopen_failed is None,
            r.rename_failed@ == Seq::<String>::empty(),
            r.tidy_failed@ == Seq::<String>::empty(),
            r.unlistable@ == Seq::<String>::empty(),
    {
        Report {
            rotated: 0,
            skipped: 0,
            compressed: 0,
            deleted: 0,
            skipped_collision: 0,
            skipped_protected: 0,
            reopen_failed: None,
            rename_failed: Vec::new(),
            tidy_failed: Vec::new(),
            unlistable: Vec::new(),
        }
    }
}

/// `once`, `twice`, or `n times`.
pub open spec fn times_text(n: nat) -> Seq<char> {
    if n == 1 {
        "once"@
    } else if n == 2 {
        "twice"@
    } else {
        numeral(n) + " times"@
    }
}

/// `once`, `twice`, or `n times`, for a summary line a person reads.
pub fn times(n: usize) -> (s: String)
    ensures
        s@ == times_text(n as nat),
{
    if n == 1 {
        "once".to_owned()
    } else if n == 2 {
        "twice".to_owned()
    } else {
        let mut s = decimal(n as u64);
        s.append(" times");
        s
    }
}

/// What the summary says of one list of faults: nothing of an empty one,
/// otherwise how many there are and what the first of them says.
pub open spec fn fault_clause(what: Seq<char>, faults: Seq<String>) -> Seq<char> {
    if faults.len() == 0 {
        Seq::empty()
    } else {
        ", failed "@ + times_text(faults.len()) + " to "@ + what + " ("@ + faults[0]@ + ")"@
    }
}

/// Adds to `line` what the summary says of one list of faults.
fn push_faults(line: &mut String, what: &str, faults: &Vec<String>)
    ensures
        final(line)@ == old(line)@ + fault_clause(what@, faults@),
{
    let ghost start = line@;
    if faults.len() > 0 {
        let mut clause = ", failed ".to_owned();
        clause.append(times(faults.len()).as_str());
        clause.append(" to ");
        clause.append(what);
        clause.append(" (");
        clause.append(faults[0].as_str());
        clause.append(")");
        line.append(clause.as_str());
    } else {
        proof {
            assert(start + Seq::<char>::empty() =~= start);
        }
    }
}

impl Report {
    /// Whether there is nothing worth an operator's attention: nothing was
    /// renamed, nothing was refused and nothing failed.
    pub open spec fn quiet(self) -> bool {
        &&& self.rotated == 0
        &&& self.skipped_collision == 0
        &&& self.reopen_failed is None
        &&& self.rename_failed@.len() == 0
        &&& self.tidy_failed@.len() == 0
        &&& self.unlistable@.len() == 0
    }

    /// What was renamed, compressed and deleted.
    pub open spec fn counts_clause(self) -> Seq<char> {
        "rotated "@ + numeral(self.rotated as nat) + ", compressed "@ + numeral(
            self.compressed as nat,
        ) + ", deleted "@ + numeral(self.deleted as nat)
    }

    /// What was left alone, if anything was.
    pub open spec fn collision_clause(self) -> Seq<char> {
        if self.skipped_collision > 0 {
            ", left "@ + numeral(self.skipped_collision as nat)
                + " alone whose rotated name is a live log"@
        } else {
            Seq::empty()
        }
    }

    /// How often a live log was not touched, if ever.
    pub open spec fn protected_clause(self) -> Seq<char> {
        if self.skipped_protected > 0 {
            ", refused "@ + times_text(self.skipped_protected as nat) + " to touch a live log"@
        } else {
            Seq::empty()
        }
    }

    /// Why the tick stopped early, if it did.
    pub open spec fn reopen_clause(self) -> Seq<char> {
        match self.reopen_failed {
            Some(why) => ", stopped early: reopen refused ("@ + why@ + ")"@,
            None => Seq::empty(),
        }
    }

    /// The line for this tick.
    pub open spec fn line(self) -> Seq<char> {
        self.counts_clause() + self.collision_clause() + self.protected_clause()
            + self.reopen_clause() + fault_clause("rename"@, self.rename_failed@)
            + fault_clause("compress or delete"@, self.tidy_failed@)
            + fault_clause("list a log directory"@, self.unlistable@)
    }

    /// The one line worth printing for this tick, or `None` when there is
    /// nothing to say.
    ///
    /// This dog's own log is one of the files it rotates, so silence on a
    /// quiet tick is the difference between a log directory this dog keeps
    /// small and one it fills.
    pub fn summary(&self) -> (r: Option<String>)
        ensures
            r is None <==> self.quiet(),
            r matches Some(line) ==> line@ == self.line(),
    {
        if self.rotated == 0 && self.skipped_collision == 0 && self.reopen_failed.is_none()
            && self.rename_failed.len() == 0 && self.tidy_failed.len() == 0
            && self.unlistable.len() == 0 {
            return None;
        }
        let mut line = "rotated ".to_owned();
        line.append(decimal(self.rotated as u64).as_str());
        line.append(", compressed ");
        line.append(decimal(self.compressed as u64).as_str());
        line.append(", deleted ");
        line.append(decimal(self.deleted as u64).as_str());
        let ghost counts = line@;
        if self.skipped_collision > 0 {
            let mut clause = ", left ".to_owned();
            clause.append(decimal(self.skipped_collision as u64).as_str());
            clause.append(" alone whose rotated name is a live log");
            line.append(clause.as_str());
        }
        assert(line@ =~= counts + self.collision_clause());
        let ghost collisions = line@;
        if self.skipped_protected > 0 {
            let mut clause = ", refused ".to_owned();
            clause.append(times(self.skipped_protected).as_str());
            clause.append(" to touch a live log");
            line.append(clause.as_str());
        }
        assert(line@ =~= collisions + self.protected_clause());
        let ghost refusals = line@;
        if let Some(why) = &self.reopen_failed {
            let mut clause = ", stopped early: reopen refused (".to_owned();
            clause.append(why.as_str());
            clause.append(")");
            line.append(clause.as_str());
        }
        assert(line@ =~= refusals + self.reopen_clause());
        push_faults(&mut line, "rename", &self.rename_failed);
        push_faults(&mut line, "compress or delete", &self.tidy_failed);
        push_faults(&mut line, "list a log directory", &self.unlistable);
        Some(line)
    }
}

/// Whether `s` does not go over the end of a line, which is a line feed: a
/// carriage return before it ends no line of its own.
pub open spec fn one_line(s: Seq<char>) -> bool {
    forall|i: int| 0 <= i < s.len() ==> #[trigger] s[i] != '\n'
}

/// Whether none of the messages goes over the end of a line.
pub open spec fn all_one_line(messages: Seq<String>) -> bool {
    forall|i: int| 0 <= i < messages.len() ==> one_line((#[trigger] messages[i])@)
}

/// Lines that are put together are one line.
proof fn together_one_line(a: Seq<char>, b: Seq<char>)
    requires
        one_line(a),
        one_line(b),
    ensures
        one_line(a + b),
{
    assert forall|i: int| 0 <= i < (a + b).len() implies #[trigger] (a + b)[i] != '\n' by {
        if i >= a.len() {
            assert((a + b)[i] == b[i - a.len()]);
        }
    }
}

/// A number is on one line.
proof fn numeral_one_line(n: nat)
    ensures
        one_line(numeral(n)),
    decreases n,
{
    if n >= 10 {
        numeral_one_line(n / 10);
    }
}

/// A count of times is on one line.
proof fn times_one_line(n: nat)
    ensures
        one_line(times_text(n)),
{
    reveal_strlit("once");
    reveal_strlit("twice");
    reveal_strlit(" times");
    numeral_one_line(n);
    together_one_line(numeral(n), " times"@);
}

/// What is said of a list of faults is on one line.
proof fn fault_clause_one_line(what: Seq<char>, faults: Seq<String>)
    requires
        one_line(what),
        all_one_line(faults),
    ensures
        one_line(fault_clause(what, faults)),
{
    if faults.len() > 0 {
        reveal_strlit(", failed ");
        reveal_strlit(" to ");
        reveal_strlit(" (");
        reveal_strlit(")");
        let a = ", failed "@ + times_text(faults.len());
        times_one_line(faults.len());
        assert(one_line(", failed "@));
        together_one_line(", failed "@, times_text(faults.len()));
        assert(one_line(" to "@));
        together_one_line(a, " to "@);
        together_one_line(a + " to "@, what);
        assert(one_line(" ("@));
        together_one_line(a + " to "@ + what, " ("@);
        assert(one_line(faults[0]@));
        together_one_line(a + " to "@ + what + " ("@, faults[0]@);
        assert(one_line(")"@));
        together_one_line(a + " to "@ + what + " ("@ + faults[0]@, ")"@);
    }
}

/// What was renamed, compressed and deleted is on one line.
proof fn counts_one_line(report: Report)
    ensures
        one_line(report.counts_clause()),
{
    reveal_strlit("rotated ");
    reveal_strlit(", compressed ");
    reveal_strlit(", deleted ");
    let a = numeral(report.rotated as nat);
    let b = numeral(report.compressed as nat);
    let c = numeral(report.deleted as nat);
    numeral_one_line(report.rotated as nat);
    numeral_one_line(report.compressed as nat);
    numeral_one_line(report.deleted as nat);
    assert(one_line("rotated "@) && one_line(", compressed "@) && one_line(", deleted "@));
    together_one_line("rotated "@, a);
    together_one_line("rotated "@ + a, ", compressed "@);
    together_one_line("rotated "@ + a + ", compressed "@, b);
    together_one_line("rotated "@ + a + ", compressed "@ + b, ", deleted "@);
    together_one_line("rotated "@ + a + ", compressed "@ + b + ", deleted "@, c);
}

/// What was left alone is said on one line.
proof fn refusals_one_line(report: Report)
    requires
        report.reopen_failed matches Some(why) ==> one_line(why@),
    ensures
        one_line(report.collision_clause()),
        one_line(report.protected_clause()),
        one_line(report.reopen_clause()),
{
    reveal_strlit(", left ");
    reveal_strlit(" alone whose rotated name is a live log");
    reveal_strlit(", refused ");
    reveal_strlit(" to touch a live log");
    reveal_strlit(", stopped early: reopen refused (");
    reveal_strlit(")");
    let n = numeral(report.skipped_collision as nat);
    let t = times_text(report.skipped_protected as nat);
    numeral_one_line(report.skipped_collision as nat);
    times_one_line(report.skipped_protected as nat);
    assert(one_line(", left "@) && one_line(" alone whose rotated name is a live log"@));
    together_one_line(", left "@, n);
    together_one_line(", left "@ + n, " alone whose rotated name is a live log"@);
    assert(one_line(", refused "@) && one_line(" to touch a live log"@));
    together_one_line(", refused "@, t);
    together_one_line(", refused "@ + t, " to touch a live log"@);
    if let Some(why) = report.reopen_failed {
        assert(one_line(", stopped early: reopen refused ("@) && one_line(")"@));
        together_one_line(", stopped early: reopen refused ("@, why@);
        together_one_line(", stopped early: reopen refused ("@ + why@, ")"@);
    }
}

/// A tick says one line, whatever it did, where no message that it passes on
/// is longer.
pub proof fn a_tick_says_one_line(report: Report)
    requires
        report.reopen_failed matches Some(why) ==> one_line(why@),
        all_one_line(report.rename_failed@),
        all_one_line(report.tidy_failed@),
        all_one_line(report.unlistable@),
    ensures
        one_line(report.line()),
{
    reveal_strlit("rename");
    reveal_strlit("compress or delete");
    reveal_strlit("list a log directory");
    counts_one_line(report);
    refusals_one_line(report);
    fault_clause_one_line("rename"@, report.rename_failed@);
    fault_clause_one_line("compress or delete"@, report.tidy_failed@);
    fault_clause_one_line("list a log directory"@, report.unlistable@);
    let a = report.counts_clause() + report.collision_clause();
    together_one_line(report.counts_clause(), report.collision_clause());
    let b = a + report.protected_clause();
    together_one_line(a, report.protected_clause());
    let c = b + report.reopen_clause();
    together_one_line(b, report.reopen_clause());
    let d = c + fault_clause("rename"@, report.rename_failed@);
    together_one_line(c, fault_clause("rename"@, report.rename_failed@));
    let e = d + fault_clause("compress or delete"@, report.tidy_failed@);
    together_one_line(d, fault_clause("compress or delete"@, report.tidy_failed@));
    together_one_line(e, fault_clause("list a log directory"@, report.unlistable@));
}

/// Something is worth a line if and only if a log was renamed or left alone, a
/// reopen was refused, or something failed: compressing and deleting alone are
/// not.
pub proof fn what_is_worth_a_line(report: Report)
    ensures
        !report.quiet() <==> report.rotated > 0 || report.skipped_collision > 0
            || report.reopen_failed is Some || report.rename_failed@.len() > 0
            || report.tidy_failed@.len() > 0 || report.unlistable@.len() > 0,
{
}

/// The line starts with what was renamed, compressed and deleted, and says no
/// more where nothing was refused and nothing failed.
pub proof fn the_line_starts_with_the_counts(report: Report)
    ensures
        ({
            let counts = "rotated "@ + numeral(report.rotated as nat) + ", compressed "@ + numeral(
                report.compressed as nat,
            ) + ", deleted "@ + numeral(report.deleted as nat);
            &&& report.line().len() >= counts.len()
            &&& report.line().take(counts.len() as int) == counts
            &&& report.skipped_collision == 0 && report.skipped_protected == 0
                && report.reopen_failed is None && report.rename_failed@.len() == 0
                && report.tidy_failed@.len() == 0 && report.unlistable@.len() == 0 ==> report.line()
                == counts
        }),
{
    let counts = report.counts_clause();
    assert(report.line().take(counts.len() as int) =~= counts);
    if report.skipped_collision == 0 && report.skipped_protected == 0 && report.reopen_failed
        is None && report.rename_failed@.len() == 0 && report.tidy_failed@.len() == 0
        && report.unlistable@.len() == 0 {
        assert(report.line() =~= counts);
    }
}

/// Every refusal and every kind of failure is in the line, with how many there
/// were and the first of their messages.
pub proof fn the_line_tells_every_refusal_and_failure(report: Report)
    ensures
        report.skipped_collision > 0 ==> has_text(
            report.line(),
            ", left "@ + numeral(report.skipped_collision as nat)
                + " alone whose rotated name is a live log"@,
        ),
        report.skipped_protected > 0 ==> has_text(
            report.line(),
            ", refused "@ + times_text(report.skipped_protected as nat) + " to touch a live log"@,
        ),
        report.reopen_failed matches Some(why) ==> has_text(
            report.line(),
            ", stopped early: reopen refused ("@ + why@ + ")"@,
        ),
        report.rename_failed@.len() > 0 ==> has_text(
            report.line(),
            ", failed "@ + times_text(report.rename_failed@.len()) + " to "@ + "rename"@ + " ("@
                + report.rename_failed@[0]@ + ")"@,
        ),
        report.tidy_failed@.len() > 0 ==> has_text(
            report.line(),
            ", failed "@ + times_text(report.tidy_failed@.len()) + " to "@ + "compress or delete"@
                + " ("@ + report.tidy_failed@[0]@ + ")"@,
        ),
        report.unlistable@.len() > 0 ==> has_text(
            report.line(),
            ", failed "@ + times_text(report.unlistable@.len()) + " to "@ + "list a log directory"@
                + " ("@ + report.unlistable@[0]@ + ")"@,
        ),
{
    every_part_is_there(
        report.counts_clause(),
        report.collision_clause(),
        report.protected_clause(),
        report.reopen_clause(),
        fault_clause("rename"@, report.rename_failed@),
        fault_clause("compress or delete"@, report.tidy_failed@),
        fault_clause("list a log directory"@, report.unlistable@),
    );
}

/// Each of the parts that a line is put together of stands in it.
proof fn every_part_is_there(
    a: Seq<char>,
    b: Seq<char>,
    c: Seq<char>,
    d: Seq<char>,
    e: Seq<char>,
    f: Seq<char>,
    g: Seq<char>,
)
    ensures
        ({
            let line = a + b + c + d + e + f + g;
            &&& has_text(line, b)
            &&& has_text(line, c)
            &&& has_text(line, d)
            &&& has_text(line, e)
            &&& has_text(line, f)
            &&& has_text(line, g)
        }),
{
    has_text_between(a, b, Seq::empty());
    assert(a + b + Seq::empty() =~= a + b);
    a_longer_line_has_it_too(a + b, c, b);
    has_text_between(a + b, c, Seq::empty());
    assert(a + b + c + Seq::empty() =~= a + b + c);
    a_longer_line_has_it_too(a + b + c, d, b);
    a_longer_line_has_it_too(a + b + c, d, c);
    has_text_between(a + b + c, d, Seq::empty());
    let abcd = a + b + c + d;
    assert(abcd + Seq::empty() =~= abcd);
    a_longer_line_has_it_too(abcd, e, b);
    a_longer_line_has_it_too(abcd, e, c);
    a_longer_line_has_it_too(abcd, e, d);
    has_text_between(abcd, e, Seq::empty());
    assert(abcd + e + Seq::empty() =~= abcd + e);
    a_longer_line_has_it_too(abcd + e, f, b);
    a_longer_line_has_it_too(abcd + e, f, c);
    a_longer_line_has_it_too(abcd + e, f, d);
    a_longer_line_has_it_too(abcd + e, f, e);
    has_text_between(abcd + e, f, Seq::empty());
    let all = abcd + e + f;
    assert(all + Seq::empty() =~= all);
    a_longer_line_has_it_too(all, g, b);
    a_longer_line_has_it_too(all, g, c);
    a_longer_line_has_it_too(all, g, d);
    a_longer_line_has_it_too(all, g, e);
    a_longer_line_has_it_too(all, g, f);
    has_text_between(all, g, Seq::empty());
    assert(all + g + Seq::empty() =~= all + g);
}

/// What stands in a line stands in a longer one.
proof fn a_longer_line_has_it_too(line: Seq<char>, more: Seq<char>, part: Seq<char>)
    requires
        has_text(line, part),
    ensures
        has_text(line + more, part),
{
    let k = choose|k: int|
        0 <= k && k + part.len() <= line.len() && #[trigger] line.subrange(k, k + part.len())
            == part;
    assert((line + more).subrange(k, k + part.len()) =~= part);
}

/// How often something happened, in words up to two and in digits from there
/// on.
pub proof fn times_are_counted(n: nat)
    ensures
        times_text(1) == "once"@,
        times_text(2) == "twice"@,
        n != 1 && n != 2 ==> times_text(n) == numeral(n) + " times"@,
{
}

/// A clause is there if and only if there is something to tell in it, and the
/// clauses stand in one order.
pub proof fn the_clauses_stand_in_order(report: Report)
    ensures
        ({
            let left_alone = if report.skipped_collision > 0 {
                ", left "@ + numeral(report.skipped_collision as nat)
                    + " alone whose rotated name is a live log"@
            } else {
                Seq::empty()
            };
            let refused = if report.skipped_protected > 0 {
                ", refused "@ + times_text(report.skipped_protected as nat)
                    + " to touch a live log"@
            } else {
                Seq::empty()
            };
            let stopped = match report.reopen_failed {
                Some(why) => ", stopped early: reopen refused ("@ + why@ + ")"@,
                None => Seq::empty(),
            };
            let failed = |what: Seq<char>, faults: Seq<String>|
                if faults.len() > 0 {
                    ", failed "@ + times_text(faults.len()) + " to "@ + what + " ("@ + faults[0]@
                        + ")"@
                } else {
                    Seq::empty()
                };
            let counts = "rotated "@ + numeral(report.rotated as nat) + ", compressed "@ + numeral(
                report.compressed as nat,
            ) + ", deleted "@ + numeral(report.deleted as nat);
            report.line() == counts + left_alone + refused + stopped + failed(
                "rename"@,
                report.rename_failed@,
            ) + failed("compress or delete"@, report.tidy_failed@) + failed(
                "list a log directory"@,
                report.unlistable@,
            )
        }),
{
}

} // verus!
