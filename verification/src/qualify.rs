//! Whether a log has grown or aged past what the configuration allows.

use vstd::prelude::*;

use crate::config::{Config, Naming};
use crate::naming::{
    a_written_name_is_recognised, fits, generation_name, generation_of, match_generation, Generation,
    LogPath, LogPathView, Slot,
};
use crate::stamp::{epochs_fit, Stamp};
use crate::values::UpDuration;

verus! {

/// An instant of the system clock: seconds from the start of 1970, which may
/// be negative, and nanoseconds on top of them.
#[derive(Debug, Clone, Copy, PartialEq, Eq, Structural)]
pub struct Moment {
    /// The seconds.
    pub secs: i64,
    /// The nanoseconds.
    pub nanos: u32,
}

impl Moment {
    /// The nanoseconds from the start of 1970.
    pub open spec fn total(self) -> int {
        self.secs * 1_000_000_000 + self.nanos
    }

    /// The nanoseconds from the start of 1970.
    fn nanoseconds(&self) -> (r: i128)
        ensures
            r == self.total(),
    {
        self.secs as i128 * 1_000_000_000 + self.nanos as i128
    }
}

/// Whether `instant` is at least `max_age` before `now`, and not after it.
pub open spec fn is_aged(instant: Option<Moment>, now: Moment, max_age: UpDuration) -> bool {
    match instant {
        Some(at) => at.total() <= now.total() && now.total() - at.total() >= max_age.millis
            * 1_000_000,
        None => false,
    }
}

/// Whether `instant` is at least `max_age` before `now`.
///
/// `None` and an instant after `now` are both "not that old": a clock that
/// went backwards is not a reason to rotate.
pub fn aged(instant: Option<Moment>, now: Moment, max_age: UpDuration) -> (r: bool)
    ensures
        r == is_aged(instant, now, max_age),
{
    match instant {
        Some(at) => {
            let then: i128 = at.nanoseconds();
            let today: i128 = now.nanoseconds();
            then <= today && today - then >= max_age.as_millis() as i128 * 1_000_000
        },
        None => false,
    }
}

/// What a look at a live log shows.
#[derive(Debug, Clone, Copy, PartialEq, Eq, Structural)]
pub struct Metadata {
    /// Its size in bytes.
    pub len: u64,
    /// When it appeared, where the filesystem keeps that.
    pub created: Option<Moment>,
    /// When it was last written, where the filesystem keeps that.
    pub modified: Option<Moment>,
}

/// A regular file in a log directory.
#[derive(Debug, Clone, PartialEq, Eq)]
pub struct DirFile {
    /// Its name.
    pub name: String,
    /// When it was last written, where the filesystem keeps that.
    pub modified: Option<Moment>,
}

/// Whether `a` is from a later rotation than `b`: a later second, or a later
/// one of the same second; a lower number.
pub open spec fn newer(a: Slot, b: Slot) -> bool {
    match (a, b) {
        (Slot::Dated { stamp: p, counter: m }, Slot::Dated { stamp: q, counter: n }) => p.epoch()
            > q.epoch() || (p.epoch() == q.epoch() && m > n),
        (Slot::Numeric(m), Slot::Numeric(n)) => m < n,
        _ => false,
    }
}

/// Whether `a` is from a later rotation than `b`.
pub fn is_newer(a: Slot, b: Slot) -> (r: bool)
    requires
        a matches Slot::Dated { stamp, .. } ==> stamp.valid(),
        b matches Slot::Dated { stamp, .. } ==> stamp.valid(),
    ensures
        r == newer(a, b),
{
    match (a, b) {
        (Slot::Dated { stamp: p, counter: m }, Slot::Dated { stamp: q, counter: n }) => {
            let x: u64 = p.to_secs();
            let y: u64 = q.to_secs();
            x > y || (x == y && m > n)
        },
        (Slot::Numeric(m), Slot::Numeric(n)) => m < n,
        _ => false,
    }
}

/// The newest generation of `base` among `files`, with the time that its file
/// was last written. Of two files of one generation the first counts.
pub open spec fn newest(files: Seq<DirFile>, base: LogPathView, naming: Naming) -> Option<
    (Slot, Option<Moment>),
>
    decreases files.len(),
{
    if files.len() == 0 {
        None
    } else {
        let before = newest(files.drop_last(), base, naming);
        match (generation_of(base, naming, files.last().name@), before) {
            (None, _) => before,
            (Some(generation), None) => Some((generation.slot, files.last().modified)),
            (Some(generation), Some(best)) => if newer(generation.slot, best.0) {
                Some((generation.slot, files.last().modified))
            } else {
                before
            },
        }
    }
}

/// When `base` was last rotated, as far as the files of its directory tell: a
/// dated generation has it in its name, and a numbered one was last written
/// when it was still the live log.
pub open spec fn rotated_at(files: Seq<DirFile>, base: LogPathView, naming: Naming) -> Option<
    Moment,
> {
    match newest(files, base, naming) {
        Some((Slot::Dated { stamp, .. }, _)) => Some(
            Moment { secs: stamp.epoch() as i64, nanos: 0 },
        ),
        Some((Slot::Numeric(_), modified)) => modified,
        None => None,
    }
}

/// When `base` was last rotated, as far as the files of its directory tell.
pub fn last_rotation(files: &Vec<DirFile>, base: &LogPath, naming: Naming) -> (r: Option<Moment>)
    ensures
        r == rotated_at(files@, base@, naming),
{
    let mut best: Option<(Slot, Option<Moment>)> = None;
    let mut i: usize = 0;
    while i < files.len()
        invariant
            i <= files@.len(),
            best == newest(files@.take(i as int), base@, naming),
            best matches Some(found) ==> fits(found.0, naming),
        decreases files.len() - i,
    {
        proof {
            assert(files@.take(i + 1).drop_last() =~= files@.take(i as int));
        }
        if let Some(generation) = match_generation(base, naming, files[i].name.as_str()) {
            let better = match best {
                Some(found) => is_newer(generation.slot, found.0),
                None => true,
            };
            if better {
                best = Some((generation.slot, files[i].modified));
            }
        }
        i += 1;
    }
    proof {
        assert(files@.take(files@.len() as int) =~= files@);
    }
    match best {
        Some((Slot::Dated { stamp, .. }, _)) => Some(
            Moment { secs: stamp.to_secs() as i64, nanos: 0 },
        ),
        Some((Slot::Numeric(_), modified)) => modified,
        None => None,
    }
}

/// What one tick decided about one log file.
#[derive(Debug, Clone, Copy, PartialEq, Eq, Structural)]
pub enum Verdict {
    /// Grown or aged past what the configuration allows.
    Rotate,
    /// Not yet.
    Leave,
    /// No log file to look at: a sheep registered but never started.
    Skip,
}

/// Whether only its age can decide about a log: it has something in it, is
/// under the size that would settle the matter, and there is an age to go by.
pub open spec fn age_decides(metadata: Metadata, config: Config) -> bool {
    0 < metadata.len < config.max_size.bytes && config.max_age is Some
}

/// Since when a log has been growing: since its last rotation, or else since
/// it appeared, or else since its last write.
pub open spec fn growing_since(
    base: LogPathView,
    metadata: Metadata,
    files: Seq<DirFile>,
    naming: Naming,
) -> Option<Moment> {
    match rotated_at(files, base, naming) {
        Some(at) => Some(at),
        None => match metadata.created {
            Some(at) => Some(at),
            None => metadata.modified,
        },
    }
}

/// Whether a log has grown or aged past what `config` allows. `files` is what
/// its directory holds, or `None` for a directory that could not be listed.
pub open spec fn qualified(
    base: LogPathView,
    metadata: Metadata,
    config: Config,
    now: Moment,
    files: Option<Seq<DirFile>>,
) -> Verdict {
    if metadata.len == 0 {
        Verdict::Leave
    } else if metadata.len >= config.max_size.bytes {
        Verdict::Rotate
    } else {
        match (config.max_age, files) {
            (Some(max_age), Some(files)) => if is_aged(
                growing_since(base, metadata, files, config.naming),
                now,
                max_age,
            ) {
                Verdict::Rotate
            } else {
                Verdict::Leave
            },
            _ => Verdict::Leave,
        }
    }
}

/// Whether only its age can decide about a log, so that its directory has to
/// be listed.
pub fn needs_listing(metadata: &Metadata, config: &Config) -> (r: bool)
    ensures
        r == age_decides(*metadata, *config),
{
    metadata.len > 0 && metadata.len < config.max_size.bytes() && config.max_age.is_some()
}

/// Whether a log has grown or aged past what `config` allows.
///
/// An empty file never qualifies, whatever its age. Rotating one frees no
/// disk and produces an empty generation, and that generation then pushes a
/// real one past `keep` and has it deleted.
///
/// Age is counted from the last rotation. A log never rotated counts from
/// when it appeared, and where the filesystem keeps no birth time, from its
/// last write. A directory that cannot be listed says nothing of age.
pub fn qualifies(
    base: &LogPath,
    metadata: &Metadata,
    config: &Config,
    now: Moment,
    files: Option<&Vec<DirFile>>,
) -> (r: Verdict)
    ensures
        r == qualified(
            base@,
            *metadata,
            *config,
            now,
            match files {
                Some(files) => Some(files@),
                None => None,
            },
        ),
{
    if metadata.len == 0 {
        return Verdict::Leave;
    }
    if metadata.len >= config.max_size.bytes() {
        return Verdict::Rotate;
    }
    match (config.max_age, files) {
        (Some(max_age), Some(files)) => {
            let since = match last_rotation(files, base, config.naming) {
                Some(at) => Some(at),
                None => match metadata.created {
                    Some(at) => Some(at),
                    None => metadata.modified,
                },
            };
            if aged(since, now, max_age) {
                Verdict::Rotate
            } else {
                Verdict::Leave
            }
        },
        _ => Verdict::Leave,
    }
}

/// A log with nothing in it is never rotated, however old it is.
pub proof fn an_empty_log_never_rotates(
    base: LogPathView,
    metadata: Metadata,
    config: Config,
    now: Moment,
    files: Option<Seq<DirFile>>,
)
    requires
        metadata.len == 0,
    ensures
        qualified(base, metadata, config, now, files) == Verdict::Leave,
{
}

/// Without a `max_age`, size alone decides: neither the clock nor what else is
/// in the directory matters.
pub proof fn without_an_age_only_size_decides(
    base: LogPathView,
    metadata: Metadata,
    config: Config,
    now: Moment,
    files: Option<Seq<DirFile>>,
)
    requires
        config.max_age is None,
    ensures
        qualified(base, metadata, config, now, files) == Verdict::Rotate <==> metadata.len > 0
            && metadata.len >= config.max_size.bytes,
{
}

/// A log that was rotated less than `max_age` ago, and is under `max_size`, is
/// not rotated, whenever it was last written.
pub proof fn a_recent_rotation_is_not_repeated_for_age(
    base: LogPathView,
    metadata: Metadata,
    config: Config,
    now: Moment,
    files: Seq<DirFile>,
)
    requires
        metadata.len < config.max_size.bytes,
        config.max_age is Some,
        rotated_at(files, base, config.naming) matches Some(at) && !is_aged(
            Some(at),
            now,
            config.max_age->0,
        ),
    ensures
        qualified(base, metadata, config, now, Some(files)) != Verdict::Rotate,
{
}

/// Waiting does not unqualify a log: one that rotates now would rotate later.
pub proof fn waiting_does_not_unqualify(
    base: LogPathView,
    metadata: Metadata,
    config: Config,
    now: Moment,
    later: Moment,
    files: Option<Seq<DirFile>>,
)
    requires
        now.total() <= later.total(),
        qualified(base, metadata, config, now, files) == Verdict::Rotate,
    ensures
        qualified(base, metadata, config, later, files) == Verdict::Rotate,
{
}

/// No file of the directory is a newer generation than the one that the age is
/// counted from.
pub proof fn newest_is_not_outdone(
    files: Seq<DirFile>,
    base: LogPathView,
    naming: Naming,
    i: int,
)
    requires
        0 <= i < files.len(),
        generation_of(base, naming, files[i].name@) is Some,
    ensures
        newest(files, base, naming) matches Some(best) && !newer(
            generation_of(base, naming, files[i].name@)->0.slot,
            best.0,
        ),
    decreases files.len(),
{
    if i < files.len() - 1 {
        assert(files.drop_last()[i] == files[i]);
        newest_is_not_outdone(files.drop_last(), base, naming, i);
        newest_fits(files.drop_last(), base, naming);
        generation_fits(base, naming, files[i].name@);
        generation_fits(base, naming, files.last().name@);
    }
}

/// A generation that is read from a name is one of the scheme's.
proof fn generation_fits(base: LogPathView, naming: Naming, name: Seq<char>)
    ensures
        generation_of(base, naming, name) matches Some(generation) ==> fits(
            generation.slot,
            naming,
        ),
{
}

/// The newest generation is one of the scheme's.
proof fn newest_fits(files: Seq<DirFile>, base: LogPathView, naming: Naming)
    ensures
        newest(files, base, naming) matches Some(best) ==> fits(best.0, naming),
    decreases files.len(),
{
    if files.len() > 0 {
        newest_fits(files.drop_last(), base, naming);
        generation_fits(base, naming, files.last().name@);
    }
}

/// Size is enough: a log that has grown to `max_size` rotates, whatever its
/// age, the clock and its directory are.
pub proof fn a_log_that_is_large_enough_rotates(
    base: LogPathView,
    metadata: Metadata,
    config: Config,
    now: Moment,
    files: Option<Seq<DirFile>>,
)
    requires
        metadata.len > 0,
        metadata.len >= config.max_size.bytes,
    ensures
        qualified(base, metadata, config, now, files) == Verdict::Rotate,
{
}

/// Below `max_size` a log rotates if and only if there is a `max_age`, its
/// directory was listed, and that much has passed since its last rotation, or
/// else its appearance, or else its last write. No more is needed than that it
/// has something in it.
pub proof fn a_small_log_rotates_for_its_age_alone(
    base: LogPathView,
    metadata: Metadata,
    config: Config,
    now: Moment,
    files: Option<Seq<DirFile>>,
)
    requires
        0 < metadata.len < config.max_size.bytes,
    ensures
        qualified(base, metadata, config, now, files) == Verdict::Rotate <==> {
            &&& config.max_age is Some
            &&& files is Some
            &&& {
                let rotated = rotated_at(files->0, base, config.naming);
                let since = if rotated is Some {
                    rotated
                } else if metadata.created is Some {
                    metadata.created
                } else {
                    metadata.modified
                };
                &&& since is Some
                &&& (now.secs - since->0.secs) * 1_000_000_000 + now.nanos - since->0.nanos
                    >= config.max_age->0.millis * 1_000_000
            }
        },
        qualified(base, metadata, config, now, files) != Verdict::Skip,
{
}

/// A directory is listed for the sake of a log if and only if what is in it can
/// make a difference to the log.
pub proof fn a_listing_is_asked_for_where_it_matters(
    base: LogPathView,
    metadata: Metadata,
    config: Config,
    now: Moment,
    files: Option<Seq<DirFile>>,
    others: Option<Seq<DirFile>>,
)
    ensures
        age_decides(metadata, config) <==> metadata.len > 0 && metadata.len
            < config.max_size.bytes && config.max_age is Some,
        !age_decides(metadata, config) ==> qualified(base, metadata, config, now, files)
            == qualified(base, metadata, config, now, others),
{
}

/// Which of two generations is from the later rotation: that of the later
/// second, of one second that with the higher counter, and of two numbers the
/// lower. None is later than itself.
pub proof fn a_later_rotation_is_newer(p: Stamp, q: Stamp, m: u32, n: u32)
    ensures
        p.epoch() > q.epoch() ==> newer(
            Slot::Dated { stamp: p, counter: m },
            Slot::Dated { stamp: q, counter: n },
        ) && !newer(Slot::Dated { stamp: q, counter: n }, Slot::Dated { stamp: p, counter: m }),
        m > n ==> newer(
            Slot::Dated { stamp: p, counter: m },
            Slot::Dated { stamp: p, counter: n },
        ) && !newer(Slot::Dated { stamp: p, counter: n }, Slot::Dated { stamp: p, counter: m }),
        m > n ==> newer(Slot::Numeric(n), Slot::Numeric(m)) && !newer(
            Slot::Numeric(m),
            Slot::Numeric(n),
        ),
        !newer(Slot::Dated { stamp: p, counter: m }, Slot::Dated { stamp: p, counter: m }),
        !newer(Slot::Numeric(m), Slot::Numeric(m)),
        !newer(Slot::Numeric(m), Slot::Dated { stamp: p, counter: n }),
        !newer(Slot::Dated { stamp: p, counter: n }, Slot::Numeric(m)),
{
}

/// The slot of the generation of `base` that a file is.
spec fn slot_at(files: Seq<DirFile>, base: LogPathView, naming: Naming, i: int) -> Slot {
    generation_of(base, naming, files[i].name@)->0.slot
}

/// Whether a file is a generation of `base`.
spec fn is_one(files: Seq<DirFile>, base: LogPathView, naming: Naming, i: int) -> bool {
    0 <= i < files.len() && generation_of(base, naming, files[i].name@) is Some
}

/// Which file the newest generation was found in.
proof fn the_newest_is_found(files: Seq<DirFile>, base: LogPathView, naming: Naming) -> (j: int)
    ensures
        match newest(files, base, naming) {
            Some((slot, modified)) => {
                &&& is_one(files, base, naming, j)
                &&& slot == slot_at(files, base, naming, j)
                &&& fits(slot, naming)
                &&& modified == files[j].modified
                &&& forall|i: int|
                    #[trigger] is_one(files, base, naming, i) ==> !newer(
                        slot_at(files, base, naming, i),
                        slot,
                    )
                &&& forall|i: int|
                    i < j && #[trigger] is_one(files, base, naming, i) ==> newer(
                        slot,
                        slot_at(files, base, naming, i),
                    )
            },
            None => forall|i: int| !(#[trigger] is_one(files, base, naming, i)),
        },
    decreases files.len(),
{
    if files.len() == 0 {
        0
    } else {
        let before = files.drop_last();
        let j = the_newest_is_found(before, base, naming);
        let last = files.len() - 1;
        assert forall|i: int| i < last implies #[trigger] is_one(files, base, naming, i) == is_one(
            before,
            base,
            naming,
            i,
        ) && (0 <= i ==> slot_at(files, base, naming, i) == slot_at(before, base, naming, i)) by {
            if 0 <= i {
                assert(before[i] == files[i]);
            }
        }
        if newest(before, base, naming) is Some {
            assert(is_one(before, base, naming, j));
            assert(files[j] == before[j]);
            assert(is_one(files, base, naming, j));
        }
        assert forall|i: int| #[trigger] is_one(files, base, naming, i) implies fits(
            slot_at(files, base, naming, i),
            naming,
        ) by {
            generation_fits(base, naming, files[i].name@);
        }
        assert forall|i: int| #[trigger] is_one(files, base, naming, i) implies i == last || is_one(
            before,
            base,
            naming,
            i,
        ) by {
            if i < last {
                assert(is_one(files, base, naming, i) == is_one(before, base, naming, i));
            }
        }
        let outdone = match newest(before, base, naming) {
            Some((slot, _)) => newer(slot_at(files, base, naming, last), slot),
            None => true,
        };
        if is_one(files, base, naming, last) && outdone {
            last
        } else {
            j
        }
    }
}

/// When a dated log was last rotated is the latest second in the name of any of
/// its generations.
pub proof fn a_dated_log_was_rotated_when_its_latest_name_says(
    files: Seq<DirFile>,
    base: LogPathView,
)
    ensures
        match rotated_at(files, base, Naming::Dated) {
            Some(at) => {
                &&& at.nanos == 0
                &&& exists|j: int, generation: Generation|
                    0 <= j < files.len() && fits(generation.slot, Naming::Dated) && (
                    #[trigger] files[j]).name@ == #[trigger] generation_name(base, generation)
                        && generation.slot->stamp.epoch() == at.secs
                &&& forall|i: int, generation: Generation|
                    0 <= i < files.len() && fits(generation.slot, Naming::Dated) && (
                    #[trigger] files[i]).name@ == #[trigger] generation_name(base, generation)
                        ==> generation.slot->stamp.epoch() <= at.secs
            },
            None => forall|i: int, generation: Generation|
                0 <= i < files.len() && fits(generation.slot, Naming::Dated) ==> (
                #[trigger] files[i]).name@ != #[trigger] generation_name(base, generation),
        },
{
    let naming = Naming::Dated;
    let j = the_newest_is_found(files, base, naming);
    assert forall|i: int, generation: Generation|
        0 <= i < files.len() && fits(generation.slot, naming) && (#[trigger] files[i]).name@
            == #[trigger] generation_name(base, generation) implies is_one(files, base, naming, i)
        && slot_at(files, base, naming, i) == generation.slot by {
        a_written_name_is_recognised(base, naming, generation);
    }
    if newest(files, base, naming) is Some {
        let found = generation_of(base, naming, files[j].name@)->0;
        assert(files[j].name@ == generation_name(base, found));
        epochs_fit(found.slot->stamp);
    }
}

/// When a numbered log was last rotated is when the file with its lowest number
/// was last written; of two files with that number the first counts.
pub proof fn a_numbered_log_was_rotated_when_its_lowest_number_was_written(
    files: Seq<DirFile>,
    base: LogPathView,
    j: int,
    n: u32,
    gz: bool,
)
    requires
        0 <= j < files.len(),
        n >= 1,
        files[j].name@ == generation_name(base, Generation { slot: Slot::Numeric(n), gz }),
        forall|i: int, m: u32, z: bool|
            0 <= i < files.len() && m >= 1 && (#[trigger] files[i]).name@
                == #[trigger] generation_name(base, Generation { slot: Slot::Numeric(m), gz: z })
                ==> n <= m && (i < j ==> n < m),
    ensures
        rotated_at(files, base, Naming::Numeric) == files[j].modified,
{
    let naming = Naming::Numeric;
    let k = the_newest_is_found(files, base, naming);
    let this = Generation { slot: Slot::Numeric(n), gz };
    a_written_name_is_recognised(base, naming, this);
    assert(is_one(files, base, naming, j));
    let found = generation_of(base, naming, files[k].name@)->0;
    assert(files[k].name@ == generation_name(base, found));
    let m = found.slot->0;
    assert(found == (Generation { slot: Slot::Numeric(m), gz: found.gz }));
    assert(!newer(this.slot, found.slot));
    assert(n <= m && (k < j ==> n < m));
    if j < k {
        assert(newer(found.slot, this.slot));
    }
}

/// Without a generation there is no last rotation.
pub proof fn a_log_without_generations_was_never_rotated(
    files: Seq<DirFile>,
    base: LogPathView,
    naming: Naming,
)
    requires
        forall|i: int|
            0 <= i < files.len() ==> generation_of(base, naming, (#[trigger] files[i]).name@)
                is None,
    ensures
        rotated_at(files, base, naming) is None,
{
    let j = the_newest_is_found(files, base, naming);
}

} // verus!
