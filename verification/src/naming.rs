//! What a log's generations are called, and which names are theirs.
//!
//! A scheme recognises exactly the names it writes. Every other name belongs
//! to somebody else, and a rotator that deletes files it does not recognise
//! will eventually delete something that was not its own.

use vstd::prelude::*;

use crate::config::Naming;
use crate::stamp::{parse_stamp, text_length, texts_are_distinct, texts_sort_by_time, Stamp};
use crate::text::{
    chars_of, decimal, lower_at, numeral, numeral_reads_back, parse_numeral, sorts_before,
    starts_at, string_of,
};

verus! {

/// The path of a live log, in the parts that its generations' names are made
/// of.
#[derive(Debug, PartialEq, Eq)]
pub struct LogPath {
    /// The directory, as it was spelled.
    pub dir: String,
    /// The file name up to its last dot, or all of it.
    pub stem: String,
    /// What follows the last dot.
    pub ext: Option<String>,
}

/// A [`LogPath`] with its strings as character sequences.
#[verifier::ext_equal]
pub struct LogPathView {
    /// The directory, as it was spelled.
    pub dir: Seq<char>,
    /// The file name up to its last dot, or all of it.
    pub stem: Seq<char>,
    /// What follows the last dot.
    pub ext: Option<Seq<char>>,
}

impl View for LogPath {
    type V = LogPathView;

    open spec fn view(&self) -> LogPathView {
        LogPathView {
            dir: self.dir@,
            stem: self.stem@,
            ext: match self.ext {
                Some(ext) => Some(ext@),
                None => None,
            },
        }
    }
}

impl LogPathView {
    /// The name of the live log.
    pub open spec fn live(self) -> Seq<char> {
        self.stem + ext_suffix(self.ext)
    }
}

impl Clone for LogPath {
    fn clone(&self) -> (r: Self)
        ensures
            r == *self,
    {
        LogPath {
            dir: self.dir.clone(),
            stem: self.stem.clone(),
            ext: match &self.ext {
                Some(ext) => Some(ext.clone()),
                None => None,
            },
        }
    }
}

/// The position of the last dot in `name`, or -1.
pub open spec fn last_dot(name: Seq<char>) -> int
    decreases name.len(),
{
    if name.len() == 0 {
        -1
    } else if name.last() == '.' {
        name.len() - 1
    } else {
        last_dot(name.drop_last())
    }
}

/// The stem of a file name: what precedes its last dot, unless that dot is
/// the first character or there is none.
pub open spec fn stem_of(name: Seq<char>) -> Seq<char> {
    if last_dot(name) > 0 {
        name.take(last_dot(name))
    } else {
        name
    }
}

/// The extension of a file name, if it has one.
pub open spec fn ext_of(name: Seq<char>) -> Option<Seq<char>> {
    if last_dot(name) > 0 {
        Some(name.skip(last_dot(name) + 1))
    } else {
        None
    }
}

/// The dot and the extension, or nothing.
pub open spec fn ext_suffix(ext: Option<Seq<char>>) -> Seq<char> {
    match ext {
        Some(ext) => seq!['.'] + ext,
        None => Seq::empty(),
    }
}

proof fn last_dot_bounds(name: Seq<char>)
    ensures
        -1 <= last_dot(name) < name.len(),
        last_dot(name) >= 0 ==> name[last_dot(name)] == '.',
    decreases name.len(),
{
    if name.len() > 0 && name.last() != '.' {
        last_dot_bounds(name.drop_last());
    }
}

impl LogPath {
    /// The log called `name` in the directory `dir`.
    pub fn of(dir: String, name: &str) -> (r: LogPath)
        ensures
            r@ == (LogPathView { dir: dir@, stem: stem_of(name@), ext: ext_of(name@) }),
            r@.live() == name@,
    {
        let chars = chars_of(name);
        let mut i: usize = chars.len();
        proof {
            assert(name@.take(name@.len() as int) =~= name@);
        }
        while i > 0 && chars[i - 1] != '.'
            invariant
                i <= chars@.len(),
                chars@ == name@,
                last_dot(name@.take(i as int)) == last_dot(name@),
            decreases i,
        {
            proof {
                assert(name@.take(i as int).drop_last() =~= name@.take(i - 1));
            }
            i -= 1;
        }
        proof {
            last_dot_bounds(name@);
        }
        if i <= 1 {
            proof {
                assert(last_dot(name@) <= 0);
                assert(name@ + Seq::<char>::empty() =~= name@);
            }
            LogPath { dir, stem: name.to_owned(), ext: None }
        } else {
            let stem = string_of(&chars, 0, i - 1);
            let ext = string_of(&chars, i, chars.len());
            proof {
                assert(last_dot(name@) == i - 1);
                assert(stem@ =~= name@.take(i - 1));
                assert(ext@ =~= name@.skip(i as int));
                assert(stem@ + (seq!['.'] + ext@) =~= name@);
            }
            LogPath { dir, stem, ext: Some(ext) }
        }
    }

    /// The name of the live log.
    pub fn live_name(&self) -> (s: String)
        ensures
            s@ == self@.live(),
    {
        let mut s = self.stem.clone();
        match &self.ext {
            Some(ext) => {
                let mut suffix = String::new();
                suffix.push('.');
                suffix.append(ext.as_str());
                proof {
                    assert(suffix@ =~= seq!['.'] + ext@);
                }
                s.append(suffix.as_str());
            },
            None => {
                proof {
                    assert(s@ + Seq::<char>::empty() =~= s@);
                }
            },
        }
        s
    }
}

/// Which generation of a log a file is.
#[derive(Debug, Clone, Copy, PartialEq, Eq, Structural)]
pub enum Slot {
    /// The rotation of that second; `counter` tells apart several in one
    /// second, and the first of them has none.
    Dated { stamp: Stamp, counter: u32 },
    /// The nth newest, counting from 1.
    Numeric(u32),
}

/// A file that one rotation left behind.
#[derive(Debug, Clone, Copy, PartialEq, Eq, Structural)]
pub struct Generation {
    /// Which generation it is.
    pub slot: Slot,
    /// Whether this is its compressed form.
    pub gz: bool,
}

/// Whether a slot is one that a scheme uses.
pub open spec fn fits(slot: Slot, naming: Naming) -> bool {
    match slot {
        Slot::Dated { stamp, .. } => naming == Naming::Dated && stamp.valid(),
        Slot::Numeric(n) => naming == Naming::Numeric && n >= 1,
    }
}

/// A dot and the number, or nothing for zero.
pub open spec fn counter_suffix(counter: u32) -> Seq<char> {
    if counter == 0 {
        Seq::empty()
    } else {
        seq!['.'] + numeral(counter as nat)
    }
}

/// The plain name of a generation of `base`: the second before the extension
/// in one scheme, the number behind everything in the other.
pub open spec fn slot_name(base: LogPathView, slot: Slot) -> Seq<char> {
    match slot {
        Slot::Dated { stamp, counter } => base.stem + seq!['.'] + stamp.text() + counter_suffix(
            counter,
        ) + ext_suffix(base.ext),
        Slot::Numeric(n) => base.live() + seq!['.'] + numeral(n as nat),
    }
}

/// `.gz`, behind the name of what is compressed.
pub open spec fn gz_suffix(gz: bool) -> Seq<char> {
    if gz {
        seq!['.', 'g', 'z']
    } else {
        Seq::empty()
    }
}

/// The name of a generation of `base`.
pub open spec fn generation_name(base: LogPathView, generation: Generation) -> Seq<char> {
    slot_name(base, generation.slot) + gz_suffix(generation.gz)
}

/// Whether `name` is that of some generation of `base` in a scheme.
pub open spec fn is_generation(base: LogPathView, naming: Naming, name: Seq<char>) -> bool {
    exists|generation: Generation| #[trigger]
        fits(generation.slot, naming) && name == generation_name(base, generation)
}

/// The generation of `base` that a file called `name` is, if it is one. No
/// name is that of two: see [`names_are_distinct`].
pub open spec fn generation_of(
    base: LogPathView,
    naming: Naming,
    name: Seq<char>,
) -> Option<Generation> {
    if is_generation(base, naming, name) {
        Some(
            choose|generation: Generation| #[trigger]
                fits(generation.slot, naming) && name == generation_name(base, generation),
        )
    } else {
        None
    }
}

/// The name that a scheme writes for a generation is read as that generation.
pub proof fn a_written_name_is_recognised(
    base: LogPathView,
    naming: Naming,
    generation: Generation,
)
    requires
        fits(generation.slot, naming),
    ensures
        generation_of(base, naming, generation_name(base, generation)) == Some(generation),
{
    let name = generation_name(base, generation);
    let read = choose|g: Generation| #[trigger]
        fits(g.slot, naming) && name == generation_name(base, g);
    names_are_distinct(base, naming, generation, read);
}

/// The dot and the extension, as characters.
fn ext_chars(base: &LogPath) -> (v: Vec<char>)
    ensures
        v@ == ext_suffix(base@.ext),
{
    match &base.ext {
        Some(ext) => {
            let mut s = String::new();
            s.push('.');
            s.append(ext.as_str());
            proof {
                assert(s@ =~= seq!['.'] + ext@);
            }
            chars_of(s.as_str())
        },
        None => Vec::new(),
    }
}

/// Where the parts of a dated name stand in it.
proof fn dated_parts(base: LogPathView, stamp: Stamp, counter: u32)
    ensures
        ({
            let name = slot_name(base, Slot::Dated { stamp, counter });
            let k = base.stem.len() as int;
            let m = name.len() - ext_suffix(base.ext).len();
            &&& m >= k + 20
            &&& name.take(k) == base.stem
            &&& name[k] == '.'
            &&& name.subrange(k + 1, k + 20) == stamp.text()
            &&& name.subrange(k + 20, m) == counter_suffix(counter)
            &&& name.subrange(m, name.len() as int) == ext_suffix(base.ext)
        }),
{
    text_length(stamp);
    let name = slot_name(base, Slot::Dated { stamp, counter });
    let k = base.stem.len() as int;
    let m = name.len() - ext_suffix(base.ext).len();
    assert(name.take(k) =~= base.stem);
    assert(name.subrange(k + 1, k + 20) =~= stamp.text());
    assert(name.subrange(k + 20, m) =~= counter_suffix(counter));
    assert(name.subrange(m, name.len() as int) =~= ext_suffix(base.ext));
}

/// Reads `chars[..to]` as the name of a dated generation of `base`.
fn match_dated(base: &LogPath, chars: &Vec<char>, to: usize) -> (r: Option<Slot>)
    requires
        to <= chars@.len(),
    ensures
        match r {
            Some(slot) => fits(slot, Naming::Dated) && chars@.take(to as int) == slot_name(
                base@,
                slot,
            ),
            None => forall|slot: Slot| #[trigger]
                fits(slot, Naming::Dated) ==> chars@.take(to as int) != slot_name(base@, slot),
        },
{
    let stem = chars_of(base.stem.as_str());
    let suffix = ext_chars(base);
    let k: usize = stem.len();
    let ghost name = chars@.take(to as int);
    let ghost ext = ext_suffix(base@.ext);
    proof {
        assert forall|slot: Slot| #[trigger] fits(slot, Naming::Dated) && name == slot_name(
            base@,
            slot,
        ) implies {
            let m = to - ext.len();
            &&& m >= k + 20
            &&& name.take(k as int) == base.stem@
            &&& name[k as int] == '.'
            &&& name.subrange(k + 1, k + 20) == slot->stamp.text()
            &&& name.subrange(k + 20, m) == counter_suffix(slot->counter)
            &&& name.subrange(m, to as int) == ext
        } by {
            dated_parts(base@, slot->stamp, slot->counter);
        }
    }
    if to < suffix.len() {
        return None;
    }
    let m: usize = to - suffix.len();
    if m < k || m - k < 20 {
        return None;
    }
    proof {
        assert(chars@.subrange(0, k as int) =~= name.take(k as int));
        assert(chars@.subrange(m as int, to as int) =~= name.subrange(m as int, to as int));
        assert(chars@.subrange(k + 1, k + 20) =~= name.subrange(k + 1, k + 20));
    }
    if !starts_at(chars, 0, to, &stem) || chars[k] != '.' || !starts_at(chars, m, to, &suffix) {
        return None;
    }
    match parse_stamp(chars, k + 1) {
        Some(stamp) => {
            if m == k + 20 {
                let slot = Slot::Dated { stamp, counter: 0 };
                proof {
                    assert(name =~= slot_name(base@, slot));
                }
                return Some(slot);
            }
            let c = chars[k + 20];
            if c != '.' {
                proof {
                    assert(name.subrange(k + 20, m as int)[0] == c);
                }
                return None;
            }
            proof {
                assert(chars@.subrange(k + 21, m as int) =~= name.subrange(k + 20, m as int).skip(1));
            }
            match parse_numeral(chars, k + 21, m) {
                Some(counter) => {
                    if counter == 0 {
                        proof {
                            assert forall|slot: Slot| #[trigger] fits(slot, Naming::Dated) && name
                                == slot_name(base@, slot) implies false by {
                                let n = slot->counter;
                                assert(counter_suffix(n).skip(1) =~= numeral(n as nat));
                                numeral_reads_back(n as nat);
                                numeral_reads_back(0);
                            }
                        }
                        None
                    } else {
                        let slot = Slot::Dated { stamp, counter };
                        proof {
                            assert(name =~= slot_name(base@, slot));
                        }
                        Some(slot)
                    }
                },
                None => {
                    proof {
                        assert forall|slot: Slot| #[trigger] fits(slot, Naming::Dated) && name
                            == slot_name(base@, slot) implies false by {
                            let n = slot->counter;
                            assert(counter_suffix(n).skip(1) =~= numeral(n as nat));
                        }
                    }
                    None
                },
            }
        },
        None => {
            proof {
                assert forall|slot: Slot| #[trigger] fits(slot, Naming::Dated) implies name
                    != slot_name(base@, slot) by {
                    assert(slot->stamp.valid());
                }
            }
            None
        },
    }
}

/// Reads `chars[..to]` as the name of a numbered generation of `base`.
fn match_numeric(base: &LogPath, chars: &Vec<char>, to: usize) -> (r: Option<Slot>)
    requires
        to <= chars@.len(),
    ensures
        match r {
            Some(slot) => fits(slot, Naming::Numeric) && chars@.take(to as int) == slot_name(
                base@,
                slot,
            ),
            None => forall|slot: Slot| #[trigger]
                fits(slot, Naming::Numeric) ==> chars@.take(to as int) != slot_name(base@, slot),
        },
{
    let live = chars_of(base.live_name().as_str());
    let k: usize = live.len();
    let ghost name = chars@.take(to as int);
    proof {
        assert forall|slot: Slot| #[trigger] fits(slot, Naming::Numeric) && name == slot_name(
            base@,
            slot,
        ) implies {
            &&& to >= k + 1
            &&& name.take(k as int) == base@.live()
            &&& name[k as int] == '.'
            &&& name.subrange(k + 1, to as int) == numeral(slot->Numeric_0 as nat)
        } by {
            let digits = numeral(slot->Numeric_0 as nat);
            assert(slot is Numeric);
            assert(name == base@.live() + seq!['.'] + digits);
            assert(name.len() == k + 1 + digits.len());
            assert(name.take(k as int) =~= base@.live());
            assert(name.subrange(k + 1, to as int) =~= numeral(slot->Numeric_0 as nat));
        }
    }
    if to <= k {
        return None;
    }
    proof {
        assert(chars@.subrange(0, k as int) =~= name.take(k as int));
        assert(chars@.subrange(k + 1, to as int) =~= name.subrange(k + 1, to as int));
    }
    if !starts_at(chars, 0, to, &live) || chars[k] != '.' {
        return None;
    }
    match parse_numeral(chars, k + 1, to) {
        Some(n) => {
            if n == 0 {
                proof {
                    assert forall|slot: Slot| #[trigger] fits(slot, Naming::Numeric) && name
                        == slot_name(base@, slot) implies false by {
                        numeral_reads_back(slot->Numeric_0 as nat);
                        numeral_reads_back(0);
                    }
                }
                None
            } else {
                proof {
                    assert(name =~= slot_name(base@, Slot::Numeric(n)));
                }
                Some(Slot::Numeric(n))
            }
        },
        None => None,
    }
}

/// Reads `chars[..to]` as the plain name of a generation of `base`.
fn match_slot(base: &LogPath, naming: Naming, chars: &Vec<char>, to: usize) -> (r: Option<Slot>)
    requires
        to <= chars@.len(),
    ensures
        match r {
            Some(slot) => fits(slot, naming) && chars@.take(to as int) == slot_name(base@, slot),
            None => forall|slot: Slot| #[trigger]
                fits(slot, naming) ==> chars@.take(to as int) != slot_name(base@, slot),
        },
{
    match naming {
        Naming::Dated => match_dated(base, chars, to),
        Naming::Numeric => match_numeric(base, chars, to),
    }
}

/// Which generation of `base` the file called `name` is, if it is one.
///
/// Exactly the names that the scheme writes are recognised: a date that never
/// happened is not one, nor is a number with leading zeros, nor `.0`.
pub fn match_generation(base: &LogPath, naming: Naming, name: &str) -> (r: Option<Generation>)
    ensures
        r == generation_of(base@, naming, name@),
        r matches Some(generation) ==> fits(generation.slot, naming) && name@ == generation_name(
            base@,
            generation,
        ),
        r is Some <==> is_generation(base@, naming, name@),
{
    let chars = chars_of(name);
    let length: usize = chars.len();
    proof {
        assert(chars@.take(length as int) =~= name@);
    }
    if let Some(slot) = match_slot(base, naming, &chars, length) {
        proof {
            assert(slot_name(base@, slot) + gz_suffix(false) =~= slot_name(base@, slot));
            a_written_name_is_recognised(base@, naming, Generation { slot, gz: false });
        }
        return Some(Generation { slot, gz: false });
    }
    let mut gz: Vec<char> = Vec::new();
    gz.push('.');
    gz.push('g');
    gz.push('z');
    proof {
        assert(gz@ =~= gz_suffix(true));
        assert forall|generation: Generation| #[trigger]
            fits(generation.slot, naming) && name@ == generation_name(base@, generation) implies {
            &&& generation.gz
            &&& length >= 3
            &&& chars@.subrange(length - 3, length as int) == gz@
            &&& chars@.take(length - 3) == slot_name(base@, generation.slot)
        } by {
            let plain = slot_name(base@, generation.slot);
            assert(plain + gz_suffix(false) =~= plain);
            assert(chars@.subrange(length - 3, length as int) =~= gz@);
            assert(chars@.take(length - 3) =~= plain);
        }
    }
    if length < 3 || !starts_at(&chars, length - 3, length, &gz) {
        return None;
    }
    match match_slot(base, naming, &chars, length - 3) {
        Some(slot) => {
            proof {
                assert(name@ =~= chars@.take(length - 3) + gz@);
                a_written_name_is_recognised(base@, naming, Generation { slot, gz: true });
            }
            Some(Generation { slot, gz: true })
        },
        None => None,
    }
}

/// How many of the characters of `s` are `c`.
pub open spec fn occurrences(s: Seq<char>, c: char) -> nat {
    s.to_multiset().count(c)
}

/// Occurrences add up over a concatenation.
proof fn occurrences_add(a: Seq<char>, b: Seq<char>, c: char)
    ensures
        occurrences(a + b, c) == occurrences(a, c) + occurrences(b, c),
{
    vstd::seq_lib::lemma_multiset_commutative(a, b);
}

/// A character that is nowhere in a string occurs in it no times.
proof fn occurrences_none(s: Seq<char>, c: char)
    requires
        forall|i: int| 0 <= i < s.len() ==> s[i] != c,
    ensures
        occurrences(s, c) == 0,
{
    broadcast use vstd::seq_lib::group_to_multiset_ensures;
    if occurrences(s, c) > 0 {
        assert(s.contains(c));
    }
}

/// A counter has no letters in it.
proof fn counter_has_no_letters(counter: u32)
    ensures
        occurrences(counter_suffix(counter), 'g') == 0,
{
    numeral_reads_back(counter as nat);
    occurrences_none(counter_suffix(counter), 'g');
}

/// Whether a name is compressed can be told from how often it has a `g`.
proof fn gz_counts_once(gz: bool)
    ensures
        occurrences(gz_suffix(gz), 'g') == (if gz { 1nat } else { 0 }),
{
    if gz {
        let a = seq!['.'];
        let b = seq!['g'];
        let c = seq!['z'];
        assert(gz_suffix(gz) =~= a + b + c);
        occurrences_add(a + b, c, 'g');
        occurrences_add(a, b, 'g');
        occurrences_none(a, 'g');
        occurrences_none(c, 'g');
        assert(b =~= Seq::<char>::empty().push('g'));
        broadcast use vstd::seq_lib::group_to_multiset_ensures;
    } else {
        occurrences_none(gz_suffix(gz), 'g');
    }
}

/// What follows the second in a dated name is told apart by the counter and by
/// being compressed.
proof fn dated_tails_are_distinct(ext: Seq<char>, m: u32, x: bool, n: u32, y: bool)
    requires
        counter_suffix(m) + ext + gz_suffix(x) == counter_suffix(n) + ext + gz_suffix(y),
    ensures
        m == n,
        x == y,
{
    let tail = counter_suffix(m) + ext + gz_suffix(x);
    gz_counts_once(x);
    gz_counts_once(y);
    counter_has_no_letters(m);
    counter_has_no_letters(n);
    occurrences_add(counter_suffix(m) + ext, gz_suffix(x), 'g');
    occurrences_add(counter_suffix(n) + ext, gz_suffix(y), 'g');
    occurrences_add(counter_suffix(m), ext, 'g');
    occurrences_add(counter_suffix(n), ext, 'g');
    assert(x == y);
    let t = tail.len() - gz_suffix(x).len() - ext.len();
    assert(tail.subrange(0, t) =~= counter_suffix(m));
    assert(tail.subrange(0, t) =~= counter_suffix(n));
    numeral_reads_back(m as nat);
    numeral_reads_back(n as nat);
    if m != 0 && n != 0 {
        assert(counter_suffix(m).skip(1) =~= numeral(m as nat));
        assert(counter_suffix(n).skip(1) =~= numeral(n as nat));
    }
}

/// What follows the live name in a numbered name is told apart likewise.
proof fn numeric_tails_are_distinct(m: u32, x: bool, n: u32, y: bool)
    requires
        numeral(m as nat) + gz_suffix(x) == numeral(n as nat) + gz_suffix(y),
    ensures
        m == n,
        x == y,
{
    let tail = numeral(m as nat) + gz_suffix(x);
    gz_counts_once(x);
    gz_counts_once(y);
    numeral_reads_back(m as nat);
    numeral_reads_back(n as nat);
    occurrences_none(numeral(m as nat), 'g');
    occurrences_none(numeral(n as nat), 'g');
    occurrences_add(numeral(m as nat), gz_suffix(x), 'g');
    occurrences_add(numeral(n as nat), gz_suffix(y), 'g');
    assert(x == y);
    let t = tail.len() - gz_suffix(x).len();
    assert(tail.subrange(0, t) =~= numeral(m as nat));
    assert(tail.subrange(0, t) =~= numeral(n as nat));
}

/// A dated name is the stem, a dot, nineteen characters, and the tail.
proof fn dated_name_parts(base: LogPathView, stamp: Stamp, counter: u32, gz: bool)
    ensures
        ({
            let name = generation_name(base, Generation { slot: Slot::Dated { stamp, counter }, gz });
            let k = base.stem.len() as int + 1;
            &&& name.len() >= k + 19
            &&& name.subrange(k, k + 19) == stamp.text()
            &&& name.skip(k + 19) == counter_suffix(counter) + ext_suffix(base.ext) + gz_suffix(gz)
        }),
{
    let name = generation_name(base, Generation { slot: Slot::Dated { stamp, counter }, gz });
    let k = base.stem.len() as int + 1;
    let text = stamp.text();
    text_length(stamp);
    let tail = counter_suffix(counter) + ext_suffix(base.ext) + gz_suffix(gz);
    assert(name =~= base.stem + seq!['.'] + text + tail);
    assert(name.subrange(k, k + 19) =~= text);
    assert(name.skip(k + 19) =~= tail);
}

/// Different generations of a log have different names, so a file is one
/// generation of it at most.
pub proof fn names_are_distinct(base: LogPathView, naming: Naming, a: Generation, b: Generation)
    requires
        fits(a.slot, naming),
        fits(b.slot, naming),
        generation_name(base, a) == generation_name(base, b),
    ensures
        a == b,
{
    let name = generation_name(base, a);
    match (a.slot, b.slot) {
        (Slot::Numeric(m), Slot::Numeric(n)) => {
            let k = base.live().len() as int + 1;
            assert(name.skip(k) =~= numeral(m as nat) + gz_suffix(a.gz));
            assert(name.skip(k) =~= numeral(n as nat) + gz_suffix(b.gz));
            numeric_tails_are_distinct(m, a.gz, n, b.gz);
        },
        (Slot::Dated { stamp: p, counter: m }, Slot::Dated { stamp: q, counter: n }) => {
            dated_name_parts(base, p, m, a.gz);
            dated_name_parts(base, q, n, b.gz);
            texts_are_distinct(p, q);
            dated_tails_are_distinct(ext_suffix(base.ext), m, a.gz, n, b.gz);
        },
        _ => {},
    }
}

/// The name of the generation of `base` in `slot`, compressed or plain.
pub fn name_of(base: &LogPath, slot: Slot, gz: bool) -> (s: String)
    requires
        slot matches Slot::Dated { stamp, .. } ==> stamp.valid(),
    ensures
        s@ == generation_name(base@, Generation { slot, gz }),
{
    let mut s = match slot {
        Slot::Dated { stamp, counter } => {
            let mut s = base.stem.clone();
            s.push('.');
            s.append(stamp.to_text().as_str());
            proof {
                assert(s@ =~= base.stem@ + seq!['.'] + stamp.text());
            }
            if counter > 0 {
                let mut number = String::new();
                number.push('.');
                number.append(decimal(counter as u64).as_str());
                proof {
                    assert(number@ =~= seq!['.'] + numeral(counter as nat));
                }
                s.append(number.as_str());
            }
            proof {
                assert(s@ =~= base.stem@ + seq!['.'] + stamp.text() + counter_suffix(counter));
            }
            if let Some(ext) = &base.ext {
                let mut suffix = String::new();
                suffix.push('.');
                suffix.append(ext.as_str());
                proof {
                    assert(suffix@ =~= seq!['.'] + ext@);
                }
                s.append(suffix.as_str());
            }
            proof {
                assert(s@ =~= slot_name(base@, slot));
            }
            s
        },
        Slot::Numeric(n) => {
            let mut s = base.live_name();
            s.push('.');
            s.append(decimal(n as u64).as_str());
            proof {
                assert(s@ =~= slot_name(base@, slot));
            }
            s
        },
    };
    if gz {
        s.push('.');
        s.push('g');
        s.push('z');
    }
    proof {
        assert(s@ =~= generation_name(base@, Generation { slot, gz }));
    }
    s
}

/// Sorting the dated generations of a log by name puts them in order, where
/// they are of different seconds.
pub proof fn dated_names_sort_by_time(base: LogPathView, a: Generation, b: Generation)
    requires
        fits(a.slot, Naming::Dated),
        fits(b.slot, Naming::Dated),
        a.slot->stamp.epoch() < b.slot->stamp.epoch(),
    ensures
        sorts_before(generation_name(base, a), generation_name(base, b)),
{
    let (p, m) = (a.slot->stamp, a.slot->counter);
    let (q, n) = (b.slot->stamp, b.slot->counter);
    let s = generation_name(base, a);
    let t = generation_name(base, b);
    let lead = base.stem + seq!['.'];
    texts_sort_by_time(p, q);
    text_length(p);
    text_length(q);
    assert(s =~= lead + p.text() + (counter_suffix(m) + ext_suffix(base.ext) + gz_suffix(a.gz)));
    assert(t =~= lead + q.text() + (counter_suffix(n) + ext_suffix(base.ext) + gz_suffix(b.gz)));
    let k = choose|k: int| #[trigger] lower_at(p.text(), q.text(), k);
    let at = lead.len() + k;
    assert forall|j: int| 0 <= j < at implies s[j] == #[trigger] t[j] by {
        if j >= lead.len() {
            assert(p.text()[j - lead.len()] == q.text()[j - lead.len()]);
        }
    }
    assert(lower_at(s, t, at));
}

/// A number of 32 bits has ten digits at most.
proof fn numeral_is_short(n: nat)
    requires
        n <= u32::MAX,
    ensures
        numeral(n).len() <= 10,
{
    reveal_with_fuel(numeral, 11);
}

/// The two schemes share no name: once the scheme is switched, what the other
/// one wrote is no generation any more, and so is neither counted nor touched.
pub proof fn the_schemes_share_no_name(base: LogPathView, dated: Generation, numeric: Generation)
    requires
        fits(dated.slot, Naming::Dated),
        fits(numeric.slot, Naming::Numeric),
    ensures
        generation_name(base, dated) != generation_name(base, numeric),
        generation_of(base, Naming::Numeric, generation_name(base, dated)) is None,
        generation_of(base, Naming::Dated, generation_name(base, numeric)) is None,
{
    dated_names_are_longer(base, dated, numeric);
    if let Some(found) = generation_of(base, Naming::Numeric, generation_name(base, dated)) {
        dated_names_are_longer(base, dated, found);
    }
    if let Some(found) = generation_of(base, Naming::Dated, generation_name(base, numeric)) {
        dated_names_are_longer(base, found, numeric);
    }
}

/// A dated name is longer than any numbered one.
proof fn dated_names_are_longer(base: LogPathView, dated: Generation, numeric: Generation)
    requires
        fits(dated.slot, Naming::Dated),
        fits(numeric.slot, Naming::Numeric),
    ensures
        generation_name(base, dated).len() > generation_name(base, numeric).len(),
{
    numeral_is_short(numeric.slot->0 as nat);
    text_length(dated.slot->stamp);
}

/// A live log is no generation of itself, so it never counts against `keep`.
pub proof fn the_live_log_is_no_generation(base: LogPathView, naming: Naming)
    ensures
        generation_of(base, naming, base.live()) is None,
{
    if let Some(found) = generation_of(base, naming, base.live()) {
        names_are_longer_than_the_live_one(base, naming, found);
    }
}

/// The name of a generation is longer than that of the live log.
pub proof fn names_are_longer_than_the_live_one(
    base: LogPathView,
    naming: Naming,
    generation: Generation,
)
    requires
        fits(generation.slot, naming),
    ensures
        generation_name(base, generation).len() > base.live().len(),
{
    if let Slot::Dated { stamp, .. } = generation.slot {
        text_length(stamp);
    }
}

/// Which slots a scheme uses: the dated one those of a second that there was or
/// will be, with any counter, and the numeric one those from one on.
pub proof fn which_slots_a_scheme_uses(stamp: Stamp, counter: u32, n: u32)
    ensures
        fits(Slot::Dated { stamp, counter }, Naming::Dated) <==> stamp.valid(),
        !fits(Slot::Dated { stamp, counter }, Naming::Numeric),
        fits(Slot::Numeric(n), Naming::Numeric) <==> n >= 1,
        !fits(Slot::Numeric(n), Naming::Dated),
{
}

/// A numbered generation is called like the live log, with a dot and its number
/// behind that, and `.gz` behind all if it is compressed.
pub proof fn a_numbered_name_puts_the_number_last(base: LogPathView, n: u32, gz: bool)
    ensures
        ({
            let name = generation_name(base, Generation { slot: Slot::Numeric(n), gz });
            let k = base.live().len() as int;
            let end = name.len() - if gz {
                3int
            } else {
                0
            };
            &&& name.take(k) == base.live()
            &&& name[k] == '.'
            &&& name.subrange(k + 1, end) == numeral(n as nat)
            &&& gz ==> name[end] == '.' && name[end + 1] == 'g' && name[end + 2] == 'z'
        }),
{
    let name = generation_name(base, Generation { slot: Slot::Numeric(n), gz });
    let k = base.live().len() as int;
    let end = k + 1 + numeral(n as nat).len();
    assert(name =~= base.live() + seq!['.'] + numeral(n as nat) + gz_suffix(gz));
    assert(name.take(k) =~= base.live());
    assert(name.subrange(k + 1, end) =~= numeral(n as nat));
}

/// A dated generation is called like the live log, with a dot and its second
/// before the extension, and behind the second a dot and the counter where it
/// is not the first of that second. A compressed one has `.gz` behind all.
pub proof fn a_dated_name_keeps_stem_and_extension(
    base: LogPathView,
    stamp: Stamp,
    counter: u32,
    gz: bool,
)
    ensures
        ({
            let name = generation_name(base, Generation { slot: Slot::Dated { stamp, counter }, gz });
            let k = base.stem.len() as int;
            let end = name.len() - if gz {
                3int
            } else {
                0
            };
            let m = end - match base.ext {
                Some(ext) => ext.len() + 1,
                None => 0,
            };
            &&& name.take(k) == base.stem
            &&& name[k] == '.'
            &&& name.subrange(k + 1, k + 20) == stamp.text()
            &&& counter == 0 ==> m == k + 20
            &&& counter > 0 ==> name[k + 20] == '.' && name.subrange(k + 21, m) == numeral(
                counter as nat,
            )
            &&& base.ext matches Some(ext) ==> name[m] == '.' && name.subrange(m + 1, end) == ext
            &&& gz ==> name[end] == '.' && name[end + 1] == 'g' && name[end + 2] == 'z'
        }),
{
    let slot = Slot::Dated { stamp, counter };
    let name = generation_name(base, Generation { slot, gz });
    let plain = slot_name(base, slot);
    let k = base.stem.len() as int;
    let end = plain.len() as int;
    dated_parts(base, stamp, counter);
    let m = plain.len() - ext_suffix(base.ext).len();
    assert(name =~= plain + gz_suffix(gz));
    assert(name.take(k) =~= plain.take(k));
    assert(name.subrange(k + 1, k + 20) =~= plain.subrange(k + 1, k + 20));
    let middle = plain.subrange(k + 20, m);
    if counter > 0 {
        assert(middle[0] == '.');
        assert(middle.skip(1) =~= numeral(counter as nat));
        assert(name.subrange(k + 21, m) =~= middle.skip(1));
    }
    let tail = plain.subrange(m, end);
    if let Some(ext) = base.ext {
        assert(tail[0] == '.');
        assert(tail.skip(1) =~= ext);
        assert(name.subrange(m + 1, end) =~= tail.skip(1));
    }
}

/// The name of the live log is its stem, with a dot and its extension behind
/// that where it has one.
pub proof fn the_live_name_is_stem_and_extension(base: LogPathView)
    ensures
        base.live().take(base.stem.len() as int) == base.stem,
        base.ext is None ==> base.live().len() == base.stem.len(),
        base.ext matches Some(ext) ==> {
            &&& base.live().len() == base.stem.len() + 1 + ext.len()
            &&& base.live()[base.stem.len() as int] == '.'
            &&& base.live().skip(base.stem.len() as int + 1) == ext
        },
{
    assert(base.live().take(base.stem.len() as int) =~= base.stem);
    if let Some(ext) = base.ext {
        assert(base.live().skip(base.stem.len() as int + 1) =~= ext);
    }
}

/// No dot follows the last one.
proof fn no_dot_follows_the_last(name: Seq<char>, i: int)
    requires
        last_dot(name) < i < name.len(),
    ensures
        name[i] != '.',
    decreases name.len(),
{
    last_dot_bounds(name);
    if i < name.len() - 1 {
        assert(name.drop_last()[i] == name[i]);
        no_dot_follows_the_last(name.drop_last(), i);
    }
}

/// A name is split at its last dot: the extension has no dot in it, and the
/// stem is not empty. A name without an extension has no dot, but for one in
/// front.
pub proof fn a_name_is_split_at_its_last_dot(name: Seq<char>)
    ensures
        match ext_of(name) {
            Some(ext) => {
                &&& stem_of(name).len() > 0
                &&& name == stem_of(name).push('.') + ext
                &&& !ext.contains('.')
            },
            None => {
                &&& stem_of(name) == name
                &&& forall|i: int| 0 < i < name.len() ==> #[trigger] name[i] != '.'
            },
        },
{
    last_dot_bounds(name);
    let k = last_dot(name);
    if k > 0 {
        let ext = name.skip(k + 1);
        assert(name =~= name.take(k).push('.') + ext);
        if ext.contains('.') {
            let i = choose|i: int| 0 <= i < ext.len() && ext[i] == '.';
            no_dot_follows_the_last(name, k + 1 + i);
        }
    } else {
        assert forall|i: int| 0 < i < name.len() implies #[trigger] name[i] != '.' by {
            no_dot_follows_the_last(name, i);
        }
    }
}

/// A file is a generation if and only if it has the name that the scheme writes
/// for that generation.
pub proof fn a_file_is_the_generation_whose_name_it_has(
    base: LogPathView,
    naming: Naming,
    name: Seq<char>,
    generation: Generation,
)
    ensures
        generation_of(base, naming, name) == Some(generation) <==> fits(generation.slot, naming)
            && name == generation_name(base, generation),
        is_generation(base, naming, name) <==> generation_of(base, naming, name) is Some,
{
    if fits(generation.slot, naming) && name == generation_name(base, generation) {
        a_written_name_is_recognised(base, naming, generation);
    }
}

} // verus!
