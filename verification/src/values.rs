//! Sizes and durations, in the spellings that shep reads.

use vstd::prelude::*;

use crate::text::{all_digits, digits_value};

verus! {

/// A quantity of bytes.
#[derive(Debug, Clone, Copy, PartialEq, Eq, Structural)]
pub struct MemSize {
    /// The quantity.
    pub bytes: u64,
}

/// A duration in whole milliseconds.
#[derive(Debug, Clone, Copy, PartialEq, Eq, Structural)]
pub struct UpDuration {
    /// The duration.
    pub millis: u64,
}

/// How many units `last`, the unit letter of a size, stands for; `None` for a
/// character that is no unit.
pub open spec fn size_unit(last: char) -> Option<nat> {
    if last == 'G' {
        Some(1024 * 1024 * 1024)
    } else if last == 'M' {
        Some(1024 * 1024)
    } else if last == 'K' {
        Some(1024)
    } else {
        None
    }
}

/// How many milliseconds the unit letter of a duration stands for.
pub open spec fn duration_unit(last: char) -> Option<nat> {
    if last == 'h' {
        Some(3_600_000)
    } else if last == 'm' {
        Some(60_000)
    } else if last == 's' {
        Some(1_000)
    } else {
        None
    }
}

/// Why a quantity could not be read.
pub enum Fault {
    /// There was no text at all.
    Empty,
    /// There was a unit and nothing in front of it.
    MissingDigits,
    /// Something other than digits stood in front of the unit.
    InvalidCharacter,
    /// The quantity does not fit in 64 bits.
    Overflow,
}

/// `digits` units of `unit` each.
pub open spec fn quantity(digits: Seq<char>, unit: nat) -> Result<u64, Fault> {
    if digits.len() == 0 {
        Err(Fault::MissingDigits)
    } else if !all_digits(digits) {
        Err(Fault::InvalidCharacter)
    } else if digits_value(digits) * unit > u64::MAX {
        Err(Fault::Overflow)
    } else {
        Ok((digits_value(digits) * unit) as u64)
    }
}

/// The number of bytes that `text` spells: digits, then `G`, `M` or `K` or
/// nothing, in binary units.
pub open spec fn mem_size(text: Seq<char>) -> Result<u64, Fault> {
    if text.len() == 0 {
        Err(Fault::Empty)
    } else {
        match size_unit(text.last()) {
            Some(unit) => quantity(text.drop_last(), unit),
            None => quantity(text, 1),
        }
    }
}

/// The number of milliseconds that `text` spells: digits, then `ms`, `h`, `m`
/// or `s` or nothing.
pub open spec fn up_duration(text: Seq<char>) -> Result<u64, Fault> {
    if text.len() == 0 {
        Err(Fault::Empty)
    } else if text.len() >= 2 && text.last() == 's' && text[text.len() - 2] == 'm' {
        quantity(text.take(text.len() - 2), 1)
    } else {
        match duration_unit(text.last()) {
            Some(unit) => quantity(text.drop_last(), unit),
            None => quantity(text, 1),
        }
    }
}

/// What shep says of a size that it cannot read.
pub open spec fn mem_size_fault(fault: Fault) -> Seq<char> {
    match fault {
        Fault::Empty => "memory size is empty"@,
        Fault::MissingDigits => "memory size has a unit suffix but no digits"@,
        Fault::InvalidCharacter =>
            "memory size must be ASCII digits with an optional trailing G, M, or K"@,
        Fault::Overflow => "memory size in bytes overflows u64"@,
    }
}

/// What shep says of a duration that it cannot read.
pub open spec fn up_duration_fault(fault: Fault) -> Seq<char> {
    match fault {
        Fault::Empty => "duration is empty"@,
        Fault::MissingDigits => "duration has a unit suffix but no digits"@,
        Fault::InvalidCharacter =>
            "duration must be ASCII digits with an optional trailing h, m, s, or ms"@,
        Fault::Overflow => "duration in milliseconds overflows u64"@,
    }
}

/// Calls `<shep_core::values::MemSize as FromStr>::from_str`, and hands back
/// the byte count, or the text that `ParseMemSizeError` displays.
///
/// Claimed of it: it accepts exactly digits with an optional trailing `G`,
/// `M` or `K` whose byte count fits in 64 bits, it returns that count, and
/// each of its four refusals has the cause and the wording given above.
#[verifier::external_body]
fn shep_mem_size(value: &str) -> (r: Result<u64, String>)
    ensures
        match r {
            Ok(bytes) => mem_size(value@) == Ok::<u64, Fault>(bytes),
            Err(why) => mem_size(value@) is Err && why@ == mem_size_fault(
                mem_size(value@)->Err_0,
            ),
        },
{
    match value.parse::<shep_client::shep_core::values::MemSize>() {
        Ok(size) => Ok(size.bytes()),
        Err(fault) => Err(fault.to_string()),
    }
}

/// Calls `<shep_core::values::UpDuration as FromStr>::from_str`, and hands
/// back the milliseconds, or the text that `ParseUpDurationError` displays.
///
/// Claimed of it: it accepts exactly digits with an optional trailing `ms`,
/// `h`, `m` or `s` whose milliseconds fit in 64 bits, it returns them, and
/// each of its four refusals has the cause and the wording given above.
#[verifier::external_body]
fn shep_up_duration(value: &str) -> (r: Result<u64, String>)
    ensures
        match r {
            Ok(millis) => up_duration(value@) == Ok::<u64, Fault>(millis),
            Err(why) => up_duration(value@) is Err && why@ == up_duration_fault(
                up_duration(value@)->Err_0,
            ),
        },
{
    match value.parse::<shep_client::shep_core::values::UpDuration>() {
        Ok(duration) => Ok(duration.as_millis()),
        Err(fault) => Err(fault.to_string()),
    }
}

impl MemSize {
    /// Wraps a raw byte count.
    pub fn from_bytes(bytes: u64) -> (r: MemSize)
        ensures
            r.bytes == bytes,
    {
        MemSize { bytes }
    }

    /// The quantity in bytes.
    pub fn bytes(&self) -> (r: u64)
        ensures
            r == self.bytes,
    {
        self.bytes
    }

    /// Reads a size in shep's spelling; what is wrong with it otherwise.
    pub fn parse(value: &str) -> (r: Result<MemSize, String>)
        ensures
            match r {
                Ok(size) => mem_size(value@) == Ok::<u64, Fault>(size.bytes),
                Err(why) => mem_size(value@) is Err && why@ == mem_size_fault(
                    mem_size(value@)->Err_0,
                ),
            },
    {
        match shep_mem_size(value) {
            Ok(bytes) => Ok(MemSize::from_bytes(bytes)),
            Err(why) => Err(why),
        }
    }
}

impl UpDuration {
    /// Wraps a raw millisecond count.
    pub fn from_millis(millis: u64) -> (r: UpDuration)
        ensures
            r.millis == millis,
    {
        UpDuration { millis }
    }

    /// The duration in milliseconds.
    pub fn as_millis(&self) -> (r: u64)
        ensures
            r == self.millis,
    {
        self.millis
    }

    /// Reads a duration in shep's spelling; what is wrong with it otherwise.
    pub fn parse(value: &str) -> (r: Result<UpDuration, String>)
        ensures
            match r {
                Ok(duration) => up_duration(value@) == Ok::<u64, Fault>(duration.millis),
                Err(why) => up_duration(value@) is Err && why@ == up_duration_fault(
                    up_duration(value@)->Err_0,
                ),
            },
    {
        match shep_up_duration(value) {
            Ok(millis) => Ok(UpDuration::from_millis(millis)),
            Err(why) => Err(why),
        }
    }
}

/// A size is a number, and a letter behind it that makes it so many times 1024
/// bytes, or none. Only what does not fit in 64 bits is too large.
pub proof fn a_size_is_so_many_bytes(digits: Seq<char>)
    requires
        digits.len() > 0,
        all_digits(digits),
    ensures
        ({
            let n = digits_value(digits);
            let fits = |bytes: nat, r: Result<u64, Fault>|
                if bytes <= u64::MAX {
                    r matches Ok(read) && read == bytes
                } else {
                    r matches Err(fault) && fault is Overflow
                };
            &&& fits(n, mem_size(digits))
            &&& fits(n * 1_024, mem_size(digits.push('K')))
            &&& fits(n * 1_048_576, mem_size(digits.push('M')))
            &&& fits(n * 1_073_741_824, mem_size(digits.push('G')))
        }),
{
    assert(digits.push('K').drop_last() =~= digits);
    assert(digits.push('M').drop_last() =~= digits);
    assert(digits.push('G').drop_last() =~= digits);
    let last = digits.last();
    assert(digits[digits.len() - 1] == last);
}

/// A duration is a number, and a unit behind it: hours, minutes, seconds, or
/// milliseconds, which it is without a unit too. Only what does not fit in 64
/// bits is too long.
pub proof fn a_duration_is_so_many_milliseconds(digits: Seq<char>)
    requires
        digits.len() > 0,
        all_digits(digits),
    ensures
        ({
            let n = digits_value(digits);
            let fits = |millis: nat, r: Result<u64, Fault>|
                if millis <= u64::MAX {
                    r matches Ok(read) && read == millis
                } else {
                    r matches Err(fault) && fault is Overflow
                };
            &&& fits(n, up_duration(digits))
            &&& fits(n, up_duration(digits + seq!['m', 's']))
            &&& fits(n * 1_000, up_duration(digits.push('s')))
            &&& fits(n * 60_000, up_duration(digits.push('m')))
            &&& fits(n * 3_600_000, up_duration(digits.push('h')))
        }),
{
    assert(digits.push('s').drop_last() =~= digits);
    assert(digits.push('m').drop_last() =~= digits);
    assert(digits.push('h').drop_last() =~= digits);
    let spelled = digits + seq!['m', 's'];
    assert(spelled.take(spelled.len() - 2) =~= digits);
    assert(digits[digits.len() - 1] == digits.last());
}

/// Nothing else is a size: what is read is digits, with a letter behind them or
/// none.
pub proof fn nothing_else_is_a_size(text: Seq<char>)
    ensures
        mem_size(text) == Err::<u64, Fault>(Fault::Empty) <==> text.len() == 0,
        mem_size(text) is Ok ==> {
            let digits = if all_digits(text) {
                text
            } else {
                text.drop_last()
            };
            &&& digits.len() > 0
            &&& all_digits(digits)
            &&& digits == text || text.last() == 'K' || text.last() == 'M' || text.last() == 'G'
        },
{
    if text.len() > 0 {
        assert(text[text.len() - 1] == text.last());
    }
}

/// Nothing else is a duration: what is read is digits, with a unit behind them
/// or none.
pub proof fn nothing_else_is_a_duration(text: Seq<char>)
    ensures
        up_duration(text) == Err::<u64, Fault>(Fault::Empty) <==> text.len() == 0,
        up_duration(text) is Ok ==> {
            ||| text.len() > 0 && all_digits(text)
            ||| text.len() > 1 && all_digits(text.drop_last()) && (text.last() == 'h' || text.last()
                == 'm' || text.last() == 's')
            ||| text.len() > 2 && all_digits(text.take(text.len() - 2)) && text.last() == 's'
                && text[text.len() - 2] == 'm'
        },
{
}

/// What is wrong with a text that is neither: a unit without a number lacks
/// digits, and whatever stands before the unit and is no digit is told as such.
pub proof fn what_is_wrong_with_a_quantity(text: Seq<char>, c: char)
    ensures
        ({
            let unit = c == 'K' || c == 'M' || c == 'G';
            &&& unit ==> mem_size(seq![c]) == Err::<u64, Fault>(Fault::MissingDigits)
            &&& unit && text.len() > 0 && !all_digits(text) ==> mem_size(
                text.push(c),
            ) == Err::<u64, Fault>(Fault::InvalidCharacter)
        }),
        ({
            let unit = c == 'h' || c == 'm' || c == 's';
            &&& unit ==> up_duration(seq![c]) == Err::<u64, Fault>(Fault::MissingDigits)
            &&& up_duration(seq!['m', 's']) == Err::<u64, Fault>(Fault::MissingDigits)
            &&& unit && text.len() > 0 && !all_digits(text) && !(c == 's' && text.last() == 'm')
                ==> up_duration(text.push(c)) == Err::<u64, Fault>(Fault::InvalidCharacter)
            &&& text.len() > 0 && !all_digits(text) ==> up_duration(
                text + seq!['m', 's'],
            ) == Err::<u64, Fault>(Fault::InvalidCharacter)
        }),
{
    assert(seq![c].drop_last() =~= Seq::empty());
    assert(text.push(c).drop_last() =~= text);
    let bare = seq!['m', 's'];
    assert(bare.take(bare.len() - 2) =~= Seq::empty());
    let spelled = text + bare;
    assert(spelled.take(spelled.len() - 2) =~= text);
}

/// Each fault in a quantity has its own words.
pub proof fn each_fault_has_its_words()
    ensures
        mem_size_fault(Fault::Empty) == "memory size is empty"@,
        mem_size_fault(Fault::MissingDigits) == "memory size has a unit suffix but no digits"@,
        mem_size_fault(Fault::InvalidCharacter)
            == "memory size must be ASCII digits with an optional trailing G, M, or K"@,
        mem_size_fault(Fault::Overflow) == "memory size in bytes overflows u64"@,
        up_duration_fault(Fault::Empty) == "duration is empty"@,
        up_duration_fault(Fault::MissingDigits) == "duration has a unit suffix but no digits"@,
        up_duration_fault(Fault::InvalidCharacter)
            == "duration must be ASCII digits with an optional trailing h, m, s, or ms"@,
        up_duration_fault(Fault::Overflow) == "duration in milliseconds overflows u64"@,
{
}

} // verus!
