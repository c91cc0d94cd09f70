//! Seconds of UTC: how a calendar counts them and how a file name spells
//! them.

use vstd::prelude::*;

use crate::text::{digit, lower_at, sorts_before};

verus! {

/// A second of UTC, as a calendar writes it.
#[derive(Debug, Clone, Copy, PartialEq, Eq, Structural)]
pub struct Stamp {
    /// 1970 to 9999.
    pub year: u32,
    /// 1 to 12.
    pub month: u32,
    /// 1 to the length of the month.
    pub day: u32,
    /// 0 to 23.
    pub hour: u32,
    /// 0 to 59.
    pub minute: u32,
    /// 0 to 59.
    pub second: u32,
}

/// Whether the Gregorian calendar gives `year` a 29th of February.
pub open spec fn is_leap(year: int) -> bool {
    year % 4 == 0 && (year % 100 != 0 || year % 400 == 0)
}

/// The number of days in a month.
pub open spec fn month_days(year: int, month: int) -> int {
    if month == 2 {
        if is_leap(year) {
            29
        } else {
            28
        }
    } else if month == 4 || month == 6 || month == 9 || month == 11 {
        30
    } else {
        31
    }
}

impl Stamp {
    /// Whether this is a second that a clock has shown or will show, from
    /// 1970 up to the last year of four digits.
    pub open spec fn valid(self) -> bool {
        &&& 1970 <= self.year <= 9999
        &&& 1 <= self.month <= 12
        &&& 1 <= self.day <= month_days(self.year as int, self.month as int)
        &&& self.hour < 24
        &&& self.minute < 60
        &&& self.second < 60
    }

    /// How a generation's name spells this second.
    #[verifier::opaque]
    pub open spec fn text(self) -> Seq<char> {
        seq![
            digit((self.year / 1000) as nat),
            digit((self.year / 100 % 10) as nat),
            digit((self.year / 10 % 10) as nat),
            digit((self.year % 10) as nat),
            '-',
            digit((self.month / 10) as nat),
            digit((self.month % 10) as nat),
            '-',
            digit((self.day / 10) as nat),
            digit((self.day % 10) as nat),
            'T',
            digit((self.hour / 10) as nat),
            digit((self.hour % 10) as nat),
            '-',
            digit((self.minute / 10) as nat),
            digit((self.minute % 10) as nat),
            '-',
            digit((self.second / 10) as nat),
            digit((self.second % 10) as nat),
        ]
    }
}

/// Whether `chars[at]` and `chars[at + 1]` write `n` in two digits.
pub open spec fn writes_two(chars: Seq<char>, at: int, n: u32) -> bool {
    n < 100 && chars[at] == digit((n / 10) as nat) && chars[at + 1] == digit((n % 10) as nat)
}

/// The number that `chars[at]` and `chars[at + 1]` write.
fn two_digits(chars: &Vec<char>, at: usize) -> (r: Option<u32>)
    requires
        at + 2 <= chars@.len(),
    ensures
        match r {
            Some(n) => writes_two(chars@, at as int, n),
            None => forall|n: u32| !#[trigger] writes_two(chars@, at as int, n),
        },
{
    let last: usize = chars.len() - 1;
    assert(at < last);
    let a = chars[at];
    let b = chars[at + 1];
    if a < '0' || a > '9' || b < '0' || b > '9' {
        None
    } else {
        let n: u32 = (a as u32 - '0' as u32) * 10 + (b as u32 - '0' as u32);
        Some(n)
    }
}

/// Two digits write one number.
proof fn writes_two_once(chars: Seq<char>, at: int, a: u32, b: u32)
    requires
        writes_two(chars, at, a),
        writes_two(chars, at, b),
    ensures
        a == b,
{
    assert(a / 10 == b / 10);
    assert(a % 10 == b % 10);
}

/// The number of days in a month.
fn days_in_month(year: u32, month: u32) -> (r: u32)
    ensures
        r == month_days(year as int, month as int),
{
    if month == 2 {
        if year % 4 == 0 && (year % 100 != 0 || year % 400 == 0) {
            29
        } else {
            28
        }
    } else if month == 4 || month == 6 || month == 9 || month == 11 {
        30
    } else {
        31
    }
}

/// Where the digits of a second stand in its nineteen characters.
pub open spec fn spells(chars: Seq<char>, at: int, stamp: Stamp) -> bool {
    &&& writes_two(chars, at, stamp.year / 100)
    &&& writes_two(chars, at + 2, stamp.year % 100)
    &&& chars[at + 4] == '-'
    &&& writes_two(chars, at + 5, stamp.month)
    &&& chars[at + 7] == '-'
    &&& writes_two(chars, at + 8, stamp.day)
    &&& chars[at + 10] == 'T'
    &&& writes_two(chars, at + 11, stamp.hour)
    &&& chars[at + 13] == '-'
    &&& writes_two(chars, at + 14, stamp.minute)
    &&& chars[at + 16] == '-'
    &&& writes_two(chars, at + 17, stamp.second)
}

/// The text of a second has nineteen characters.
pub proof fn text_length(stamp: Stamp)
    ensures
        stamp.text().len() == 19,
{
    reveal(Stamp::text);
}

/// The text of a second is that of its parts, each in its place.
proof fn spells_is_text(chars: Seq<char>, at: int, stamp: Stamp)
    requires
        stamp.valid(),
        0 <= at,
        at + 19 <= chars.len(),
    ensures
        spells(chars, at, stamp) <==> chars.subrange(at, at + 19) == stamp.text(),
{
    reveal(Stamp::text);
    let text = chars.subrange(at, at + 19);
    let c = (stamp.year / 100) as u32;
    let y = (stamp.year % 100) as u32;
    assert(c / 10 == stamp.year / 1000);
    assert(c % 10 == stamp.year / 100 % 10);
    assert(y / 10 == stamp.year / 10 % 10);
    assert(y % 10 == stamp.year % 10);
    assert(forall|i: int| 0 <= i < 19 ==> text[i] == #[trigger] chars[at + i]);
    if spells(chars, at, stamp) {
        assert(text =~= stamp.text());
    }
    if text == stamp.text() {
        assert(chars[at + 0] == stamp.text()[0]);
        assert(chars[at + 1] == stamp.text()[1]);
        assert(chars[at + 2] == stamp.text()[2]);
        assert(chars[at + 3] == stamp.text()[3]);
        assert(chars[at + 4] == stamp.text()[4]);
        assert(chars[at + 5] == stamp.text()[5]);
        assert(chars[at + 6] == stamp.text()[6]);
        assert(chars[at + 7] == stamp.text()[7]);
        assert(chars[at + 8] == stamp.text()[8]);
        assert(chars[at + 9] == stamp.text()[9]);
        assert(chars[at + 10] == stamp.text()[10]);
        assert(chars[at + 11] == stamp.text()[11]);
        assert(chars[at + 12] == stamp.text()[12]);
        assert(chars[at + 13] == stamp.text()[13]);
        assert(chars[at + 14] == stamp.text()[14]);
        assert(chars[at + 15] == stamp.text()[15]);
        assert(chars[at + 16] == stamp.text()[16]);
        assert(chars[at + 17] == stamp.text()[17]);
        assert(chars[at + 18] == stamp.text()[18]);
    }
}

/// Nineteen characters spell one second.
proof fn spells_once(chars: Seq<char>, at: int, a: Stamp, b: Stamp)
    requires
        spells(chars, at, a),
        spells(chars, at, b),
    ensures
        a == b,
{
    writes_two_once(chars, at, a.year / 100, b.year / 100);
    writes_two_once(chars, at + 2, a.year % 100, b.year % 100);
    writes_two_once(chars, at + 5, a.month, b.month);
    writes_two_once(chars, at + 8, a.day, b.day);
    writes_two_once(chars, at + 11, a.hour, b.hour);
    writes_two_once(chars, at + 14, a.minute, b.minute);
    writes_two_once(chars, at + 17, a.second, b.second);
}

/// Different seconds are spelled differently.
pub proof fn texts_are_distinct(a: Stamp, b: Stamp)
    requires
        a.valid(),
        b.valid(),
        a.text() == b.text(),
    ensures
        a == b,
{
    let text = a.text();
    text_length(a);
    assert(text.subrange(0, 19) =~= text);
    spells_is_text(text, 0, a);
    spells_is_text(text, 0, b);
    spells_once(text, 0, a, b);
}

/// Reads the nineteen characters from `chars[at]` on in their places, whether
/// or not a clock ever shows what they say.
fn read_stamp(chars: &Vec<char>, at: usize) -> (r: Option<Stamp>)
    requires
        at + 19 <= chars@.len(),
    ensures
        match r {
            Some(stamp) => spells(chars@, at as int, stamp),
            None => forall|stamp: Stamp| !#[trigger] spells(chars@, at as int, stamp),
        },
{
    let length: usize = chars.len();
    assert(at + 19 <= length);
    if chars[at + 4] != '-' || chars[at + 7] != '-' || chars[at + 10] != 'T' || chars[at + 13]
        != '-' || chars[at + 16] != '-' {
        return None;
    }
    let century = two_digits(chars, at);
    let years = two_digits(chars, at + 2);
    let month = two_digits(chars, at + 5);
    let day = two_digits(chars, at + 8);
    let hour = two_digits(chars, at + 11);
    let minute = two_digits(chars, at + 14);
    let second = two_digits(chars, at + 17);
    match (century, years, month, day, hour, minute, second) {
        (
            Some(century),
            Some(years),
            Some(month),
            Some(day),
            Some(hour),
            Some(minute),
            Some(second),
        ) => {
            let year: u32 = century * 100 + years;
            assert(year / 100 == century && year % 100 == years);
            Some(Stamp { year, month, day, hour, minute, second })
        },
        _ => None,
    }
}

/// Reads the nineteen characters from `chars[at]` on as a second of UTC.
pub fn parse_stamp(chars: &Vec<char>, at: usize) -> (r: Option<Stamp>)
    requires
        at + 19 <= chars@.len(),
    ensures
        match r {
            Some(stamp) => stamp.valid() && chars@.subrange(at as int, at + 19) == stamp.text(),
            None => forall|stamp: Stamp| #[trigger]
                stamp.valid() ==> chars@.subrange(at as int, at + 19) != stamp.text(),
        },
{
    let read = read_stamp(chars, at);
    proof {
        assert forall|stamp: Stamp| #[trigger] stamp.valid() && chars@.subrange(
            at as int,
            at + 19,
        ) == stamp.text() implies read == Some(stamp) by {
            spells_is_text(chars@, at as int, stamp);
            spells_once(chars@, at as int, stamp, read->0);
        }
    }
    match read {
        Some(stamp) => {
            if stamp.year < 1970 || stamp.year > 9999 || stamp.month < 1 || stamp.month > 12
                || stamp.day < 1 || stamp.day > days_in_month(stamp.year, stamp.month) || stamp.hour
                > 23 || stamp.minute > 59 || stamp.second > 59 {
                None
            } else {
                proof {
                    spells_is_text(chars@, at as int, stamp);
                }
                Some(stamp)
            }
        },
        None => None,
    }
}

/// The number of days in a year.
pub open spec fn year_days(year: int) -> int {
    if is_leap(year) {
        366
    } else {
        365
    }
}

/// The number of days from the start of 1970 to the start of `year`.
pub open spec fn days_before_year(year: int) -> int
    decreases year - 1970,
{
    if year <= 1970 {
        0
    } else {
        days_before_year(year - 1) + year_days(year - 1)
    }
}

/// The number of days from the start of `year` to the start of `month`.
pub open spec fn days_before_month(year: int, month: int) -> int
    decreases month,
{
    if month <= 1 {
        0
    } else {
        days_before_month(year, month - 1) + month_days(year, month - 1)
    }
}

impl Stamp {
    /// The number of days from the start of 1970 to this one.
    pub open spec fn epoch_day(self) -> int {
        days_before_year(self.year as int) + days_before_month(self.year as int, self.month as int)
            + self.day - 1
    }

    /// The number of seconds from the start of 1970 to this one.
    pub open spec fn epoch(self) -> int {
        self.epoch_day() * 86400 + self.hour * 3600 + self.minute * 60 + self.second
    }
}

/// The second of UTC that is `secs` after the start of 1970. There is one for
/// each number below [`END_OF_STAMPS`], and only one: see
/// [`the_epoch_follows_the_calendar`].
pub open spec fn stamp_at(secs: int) -> Stamp {
    choose|stamp: Stamp| #[trigger] stamp.valid() && stamp.epoch() == secs
}

/// The first second of the year 10000, which four digits do not write.
pub const END_OF_STAMPS: u64 = 253_402_300_800;

/// Years of 365 days, and one day more for each leap year among them.
proof fn days_before_year_closed(year: int)
    requires
        year >= 1970,
    ensures
        days_before_year(year) == 365 * (year - 1970) + (year - 1) / 4 - (year - 1) / 100 + (year
            - 1) / 400 - 477,
    decreases year - 1970,
{
    if year > 1970 {
        days_before_year_closed(year - 1);
    }
}

/// Later months and years start later.
proof fn month_start_bounds(year: int, month: int)
    requires
        1 <= month <= 12,
    ensures
        0 <= days_before_month(year, month),
        days_before_month(year, month) + month_days(year, month) <= year_days(year),
{
    reveal_with_fuel(days_before_month, 13);
}

/// The number of days in a year.
fn days_in_year(year: u32) -> (r: u32)
    ensures
        r == year_days(year as int),
{
    if year % 4 == 0 && (year % 100 != 0 || year % 400 == 0) {
        366
    } else {
        365
    }
}

impl Stamp {
    /// The second of UTC that is `secs` after the start of 1970.
    pub fn from_secs(secs: u64) -> (r: Stamp)
        requires
            secs < END_OF_STAMPS,
        ensures
            r.valid(),
            r.epoch() == secs,
            r == stamp_at(secs as int),
    {
        let today: u64 = secs / 86400;
        let rest: u64 = secs % 86400;
        let mut left: u64 = today;
        let mut year: u32 = 1970;
        while left >= days_in_year(year) as u64
            invariant
                1970 <= year <= 9999,
                days_before_year(year as int) + left == today,
                today < 2_932_897,
            decreases left,
        {
            left = left - days_in_year(year) as u64;
            year = year + 1;
            proof {
                days_before_year_closed(year as int);
            }
        }
        let mut month: u32 = 1;
        while left >= days_in_month(year, month) as u64
            invariant
                1970 <= year <= 9999,
                1 <= month <= 12,
                days_before_year(year as int) + days_before_month(year as int, month as int) + left
                    == today,
                days_before_month(year as int, month as int) + left < year_days(year as int),
            decreases left,
        {
            left = left - days_in_month(year, month) as u64;
            proof {
                if month == 12 {
                    reveal_with_fuel(days_before_month, 13);
                }
            }
            month = month + 1;
        }
        let r = Stamp {
            year,
            month,
            day: left as u32 + 1,
            hour: (rest / 3600) as u32,
            minute: (rest / 60 % 60) as u32,
            second: (rest % 60) as u32,
        };
        proof {
            assert(r.valid() && r.epoch() == secs);
            the_epoch_follows_the_calendar(r, stamp_at(secs as int));
        }
        r
    }

    /// The number of seconds from the start of 1970 to this one.
    pub fn to_secs(&self) -> (r: u64)
        requires
            self.valid(),
        ensures
            r == self.epoch(),
            r < END_OF_STAMPS,
    {
        let mut days: u64 = 0;
        let mut year: u32 = 1970;
        while year < self.year
            invariant
                self.valid(),
                1970 <= year <= self.year,
                days == days_before_year(year as int),
                days <= 366 * (year - 1970),
            decreases self.year - year,
        {
            days = days + days_in_year(year) as u64;
            year = year + 1;
        }
        let mut month: u32 = 1;
        while month < self.month
            invariant
                self.valid(),
                1 <= month <= self.month,
                days == days_before_year(self.year as int) + days_before_month(
                    self.year as int,
                    month as int,
                ),
                days <= 366 * 8030 + 31 * (month - 1),
            decreases self.month - month,
        {
            days = days + days_in_month(self.year, month) as u64;
            month = month + 1;
        }
        proof {
            days_before_year_closed(self.year as int);
            month_start_bounds(self.year as int, self.month as int);
        }
        (days + self.day as u64 - 1) * 86400 + self.hour as u64 * 3600 + self.minute as u64 * 60
            + self.second as u64
    }

    /// How a generation's name spells this second.
    pub fn to_text(&self) -> (s: String)
        requires
            self.valid(),
        ensures
            s@ == self.text(),
    {
        let mut s = String::new();
        push_two(&mut s, self.year / 100);
        push_two(&mut s, self.year % 100);
        s.push('-');
        push_two(&mut s, self.month);
        s.push('-');
        push_two(&mut s, self.day);
        s.push('T');
        push_two(&mut s, self.hour);
        s.push('-');
        push_two(&mut s, self.minute);
        s.push('-');
        push_two(&mut s, self.second);
        proof {
            assert(s@.len() == 19);
            assert(writes_two(s@, 0, self.year / 100));
            assert(writes_two(s@, 2, self.year % 100));
            assert(writes_two(s@, 5, self.month));
            assert(writes_two(s@, 8, self.day));
            assert(writes_two(s@, 11, self.hour));
            assert(writes_two(s@, 14, self.minute));
            assert(writes_two(s@, 17, self.second));
            spells_is_text(s@, 0, *self);
            assert(s@.subrange(0, 19) =~= s@);
        }
        s
    }
}

/// Adds a number below a hundred to `s`, in two digits.
fn push_two(s: &mut String, n: u32)
    requires
        n < 100,
    ensures
        final(s)@ == old(s)@.push(digit((n / 10) as nat)).push(digit((n % 10) as nat)),
{
    s.push((48u8 + (n / 10) as u8) as char);
    s.push((48u8 + (n % 10) as u8) as char);
}

/// Whether the calendar has `a` before `b`.
pub open spec fn earlier(a: Stamp, b: Stamp) -> bool {
    ||| a.year < b.year
    ||| a.year == b.year && a.month < b.month
    ||| a.year == b.year && a.month == b.month && a.day < b.day
    ||| a.year == b.year && a.month == b.month && a.day == b.day && a.hour < b.hour
    ||| a.year == b.year && a.month == b.month && a.day == b.day && a.hour == b.hour && a.minute
        < b.minute
    ||| a.year == b.year && a.month == b.month && a.day == b.day && a.hour == b.hour && a.minute
        == b.minute && a.second < b.second
}

/// A year starts no earlier than the one before it ends.
proof fn years_follow(a: int, b: int)
    requires
        1970 <= a < b,
    ensures
        days_before_year(a) + year_days(a) <= days_before_year(b),
    decreases b - a,
{
    if a < b - 1 {
        years_follow(a, b - 1);
    }
}

/// A month starts no earlier than the one before it ends.
proof fn months_follow(year: int, a: int, b: int)
    requires
        1 <= a < b,
    ensures
        days_before_month(year, a) + month_days(year, a) <= days_before_month(year, b),
    decreases b - a,
{
    if a < b - 1 {
        months_follow(year, a, b - 1);
    }
}

/// What the calendar has earlier is fewer seconds from the start of 1970, and
/// no second has two dates.
pub proof fn the_epoch_follows_the_calendar(a: Stamp, b: Stamp)
    requires
        a.valid(),
        b.valid(),
    ensures
        earlier(a, b) <==> a.epoch() < b.epoch(),
        a == b <==> a.epoch() == b.epoch(),
{
    earlier_is_fewer(a, b);
    earlier_is_fewer(b, a);
}

/// What the calendar has earlier is fewer seconds from the start of 1970.
proof fn earlier_is_fewer(a: Stamp, b: Stamp)
    requires
        a.valid(),
        b.valid(),
    ensures
        earlier(a, b) ==> a.epoch() < b.epoch(),
{
    month_start_bounds(a.year as int, a.month as int);
    month_start_bounds(b.year as int, b.month as int);
    if a.year < b.year {
        years_follow(a.year as int, b.year as int);
        assert(a.epoch_day() < b.epoch_day());
    } else if a.year == b.year && a.month < b.month {
        months_follow(a.year as int, a.month as int, b.month as int);
        assert(a.epoch_day() < b.epoch_day());
    }
}

/// The lower of two numbers of two digits has the lower text.
proof fn lower_in_two(s: Seq<char>, t: Seq<char>, at: int, a: u32, b: u32)
    requires
        writes_two(s, at, a),
        writes_two(t, at, b),
        0 <= at,
        at + 2 <= s.len(),
        at + 2 <= t.len(),
        forall|j: int| 0 <= j < at ==> s[j] == #[trigger] t[j],
        a < b,
    ensures
        sorts_before(s, t),
{
    if a / 10 < b / 10 {
        assert(lower_at(s, t, at));
    } else {
        assert(a / 10 == b / 10);
        assert(a % 10 < b % 10);
        assert(lower_at(s, t, at + 1));
    }
}

/// Sorting the texts of seconds sorts the seconds.
pub proof fn texts_sort_by_time(a: Stamp, b: Stamp)
    requires
        a.valid(),
        b.valid(),
        a.epoch() < b.epoch(),
    ensures
        sorts_before(a.text(), b.text()),
{
    the_epoch_follows_the_calendar(a, b);
    let s = a.text();
    let t = b.text();
    text_length(a);
    text_length(b);
    assert(s.subrange(0, 19) =~= s);
    assert(t.subrange(0, 19) =~= t);
    spells_is_text(s, 0, a);
    spells_is_text(t, 0, b);
    if a.year / 100 != b.year / 100 {
        assert(a.year / 100 < b.year / 100);
        lower_in_two(s, t, 0, a.year / 100, b.year / 100);
    } else if a.year % 100 != b.year % 100 {
        lower_in_two(s, t, 2, a.year % 100, b.year % 100);
    } else if a.month != b.month {
        lower_in_two(s, t, 5, a.month, b.month);
    } else if a.day != b.day {
        lower_in_two(s, t, 8, a.day, b.day);
    } else if a.hour != b.hour {
        lower_in_two(s, t, 11, a.hour, b.hour);
    } else if a.minute != b.minute {
        lower_in_two(s, t, 14, a.minute, b.minute);
    } else {
        lower_in_two(s, t, 17, a.second, b.second);
    }
}

/// A stamp is valid if and only if it is a date and a time of day: the months
/// have the lengths that they have, and February has a 29th in every fourth
/// year but the hundredth ones that no four hundred divides.
pub proof fn a_valid_stamp_is_a_date_and_a_time_of_day(stamp: Stamp)
    ensures
        stamp.valid() <==> {
            let (y, m, d) = (stamp.year as int, stamp.month as int, stamp.day as int);
            let feb: int = if y % 400 == 0 || (y % 4 == 0 && y % 100 != 0) {
                29
            } else {
                28
            };
            &&& 1970 <= y <= 9999
            &&& 1 <= m <= 12
            &&& 1 <= d <= seq![31int, feb, 31, 30, 31, 30, 31, 31, 30, 31, 30, 31][m - 1]
            &&& stamp.hour <= 23
            &&& stamp.minute <= 59
            &&& stamp.second <= 59
        },
{
}

/// On which day of the year each month starts, counting from zero.
pub proof fn the_months_start_where_they_do(year: int, month: int)
    requires
        1 <= month <= 12,
    ensures
        ({
            let leap = year % 400 == 0 || (year % 4 == 0 && year % 100 != 0);
            let common = seq![0int, 31, 59, 90, 120, 151, 181, 212, 243, 273, 304, 334][month - 1];
            days_before_month(year, month) == common + if leap && month > 2 {
                1int
            } else {
                0
            }
        }),
{
    reveal_with_fuel(days_before_month, 13);
}

/// The seconds of a stamp are those of its proleptic Gregorian date in UTC:
/// whole years of 365 days from 1970 on, a day for each leap year that is over,
/// the months and days of the year, and the time of day.
pub proof fn the_epoch_is_gregorian(stamp: Stamp)
    requires
        stamp.valid(),
    ensures
        ({
            let (y, m, d) = (stamp.year as int, stamp.month as int, stamp.day as int);
            let leap = y % 400 == 0 || (y % 4 == 0 && y % 100 != 0);
            let leaps = ((y - 1) / 4 - 492) - ((y - 1) / 100 - 19) + ((y - 1) / 400 - 4);
            let common = seq![0int, 31, 59, 90, 120, 151, 181, 212, 243, 273, 304, 334][m - 1];
            let days = 365 * (y - 1970) + leaps + common + (if leap && m > 2 {
                1int
            } else {
                0
            }) + (d - 1);
            stamp.epoch() == days * 86_400 + stamp.hour * 3_600 + stamp.minute * 60 + stamp.second
        }),
{
    days_before_year_closed(stamp.year as int);
    the_months_start_where_they_do(stamp.year as int, stamp.month as int);
}

/// The text of a second is its date and its time of day in digits: four for
/// the year and two for all else, with a dash or a `T` between them.
pub proof fn the_text_spells_the_date_and_the_time(stamp: Stamp)
    requires
        stamp.valid(),
    ensures
        ({
            let t = stamp.text();
            let digit = |i: int| t[i] as int - 48;
            let two = |i: int| 10 * digit(i) + digit(i + 1);
            &&& t.len() == 19
            &&& 100 * two(0) + two(2) == stamp.year
            &&& two(5) == stamp.month
            &&& two(8) == stamp.day
            &&& two(11) == stamp.hour
            &&& two(14) == stamp.minute
            &&& two(17) == stamp.second
            &&& t[4] == '-' && t[7] == '-' && t[10] == 'T' && t[13] == '-' && t[16] == '-'
            &&& forall|i: int|
                0 <= i < 19 && i != 4 && i != 7 && i != 10 && i != 13 && i != 16 ==> '0'
                    <= #[trigger] t[i] <= '9'
        }),
{
    reveal(Stamp::text);
    let y = stamp.year;
    assert(100 * (10 * (y / 1000) + y / 100 % 10) + 10 * (y / 10 % 10) + y % 10 == y);
}

/// The year in which a day falls, of those from `year` on.
proof fn year_from(day: int, year: int) -> (y: int)
    requires
        1970 <= year <= 9999,
        days_before_year(year) <= day < 2_932_897,
    ensures
        year <= y <= 9999,
        days_before_year(y) <= day < days_before_year(y) + year_days(y),
    decreases 9999 - year,
{
    if day < days_before_year(year) + year_days(year) {
        year
    } else {
        days_before_year_closed(year + 1);
        year_from(day, year + 1)
    }
}

/// The month in which a day of a year falls, of those from `month` on.
proof fn month_from(year: int, day: int, month: int) -> (m: int)
    requires
        1 <= month <= 12,
        days_before_month(year, month) <= day < year_days(year),
    ensures
        month <= m <= 12,
        days_before_month(year, m) <= day < days_before_month(year, m) + month_days(year, m),
    decreases 12 - month,
{
    if day < days_before_month(year, month) + month_days(year, month) {
        month
    } else {
        if month == 12 {
            reveal_with_fuel(days_before_month, 13);
        }
        month_from(year, day, month + 1)
    }
}

/// Every second from the start of 1970 to the end of 9999 has a date.
pub proof fn every_second_has_a_date(secs: int)
    requires
        0 <= secs < 253_402_300_800,
    ensures
        stamp_at(secs).valid(),
        stamp_at(secs).epoch() == secs,
{
    let today = secs / 86400;
    let rest = secs % 86400;
    let y = year_from(today, 1970);
    let left = today - days_before_year(y);
    let m = month_from(y, left, 1);
    let stamp = Stamp {
        year: y as u32,
        month: m as u32,
        day: (left - days_before_month(y, m) + 1) as u32,
        hour: (rest / 3600) as u32,
        minute: (rest / 60 % 60) as u32,
        second: (rest % 60) as u32,
    };
    assert(stamp.valid());
    assert(stamp.epoch() == secs);
}

/// The seconds of a stamp are some of those from the start of 1970 to the end
/// of 9999.
pub proof fn epochs_fit(stamp: Stamp)
    requires
        stamp.valid(),
    ensures
        0 <= stamp.epoch() < 253_402_300_800,
{
    the_epoch_is_gregorian(stamp);
}

} // verus!
