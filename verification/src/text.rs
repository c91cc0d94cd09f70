//! Strings as sequences of characters: decimal numerals, comparison, and the
//! conversions between `&str`, `String` and `Vec<char>`.

use vstd::prelude::*;

verus! {

/// The character that writes the digit `d`.
pub open spec fn digit(d: nat) -> char {
    (48 + d) as char
}

/// The decimal numeral of `n`, without leading zeros.
pub open spec fn numeral(n: nat) -> Seq<char>
    decreases n,
{
    if n < 10 {
        seq![digit(n)]
    } else {
        numeral(n / 10).push(digit(n % 10))
    }
}

/// Std's `String::push`: the character goes to the end of the string.
pub assume_specification[ String::push ](s: &mut String, c: char)
    ensures
        final(s)@ == old(s)@.push(c),
;

/// `n` written in decimal.
pub fn decimal(n: u64) -> (s: String)
    ensures
        s@ == numeral(n as nat),
    decreases n,
{
    let c: char = (48u8 + (n % 10) as u8) as char;
    if n < 10 {
        let mut s = String::new();
        s.push(c);
        proof { assert(s@ =~= seq![digit(n as nat)]); }
        s
    } else {
        let mut s = decimal(n / 10);
        s.push(c);
        s
    }
}

/// Whether two strings hold the same characters.
pub fn same(a: &str, b: &str) -> (r: bool)
    ensures
        r == (a@ == b@),
{
    a.to_owned() == b.to_owned()
}

/// The characters of a string.
pub fn chars_of(s: &str) -> (v: Vec<char>)
    ensures
        v@ == s@,
{
    let mut v: Vec<char> = Vec::new();
    for c in it: s.chars()
        invariant
            it.seq() == s@,
            v@ == s@.take(it.index() as int),
    {
        v.push(c);
    }
    proof { assert(s@.take(s@.len() as int) =~= s@); }
    v
}

/// The string that the characters `v[from..to]` spell.
pub fn string_of(v: &Vec<char>, from: usize, to: usize) -> (s: String)
    requires
        from <= to <= v@.len(),
    ensures
        s@ == v@.subrange(from as int, to as int),
{
    let mut s = String::new();
    let mut i: usize = from;
    while i < to
        invariant
            from <= i <= to <= v@.len(),
            s@ == v@.subrange(from as int, i as int),
        decreases to - i,
    {
        s.push(v[i]);
        i += 1;
    }
    s
}

/// Whether every character of `s` is an ASCII digit.
pub open spec fn all_digits(s: Seq<char>) -> bool {
    forall|i: int| 0 <= i < s.len() ==> '0' <= #[trigger] s[i] <= '9'
}

/// The number that a string of digits writes in decimal.
pub open spec fn digits_value(s: Seq<char>) -> nat
    decreases s.len(),
{
    if s.len() == 0 {
        0
    } else {
        (10 * digits_value(s.drop_last()) + (s.last() as int - '0' as int)) as nat
    }
}

/// A numeral is a non-empty string of digits, and writes the number it is of.
pub proof fn numeral_reads_back(n: nat)
    ensures
        numeral(n).len() >= 1,
        all_digits(numeral(n)),
        digits_value(numeral(n)) == n,
    decreases n,
{
    reveal_with_fuel(digits_value, 3);
    if n >= 10 {
        numeral_reads_back(n / 10);
        assert(numeral(n).drop_last() =~= numeral(n / 10));
    } else {
        assert(numeral(n).drop_last() =~= Seq::<char>::empty());
    }
}

/// The value of a string of digits is no less than that of any prefix of it.
proof fn prefix_value_is_no_more(s: Seq<char>, i: int)
    requires
        all_digits(s),
        0 <= i <= s.len(),
    ensures
        digits_value(s.take(i)) <= digits_value(s),
    decreases s.len(),
{
    if i == s.len() {
        assert(s.take(i) =~= s);
    } else {
        assert(s.drop_last().take(i) =~= s.take(i));
        prefix_value_is_no_more(s.drop_last(), i);
    }
}

/// Reads the characters `chars[from..to]` as a numeral, which has no leading
/// zeros and fits in 32 bits.
pub fn parse_numeral(chars: &Vec<char>, from: usize, to: usize) -> (r: Option<u32>)
    requires
        from <= to <= chars@.len(),
    ensures
        match r {
            Some(n) => chars@.subrange(from as int, to as int) == numeral(n as nat),
            None => forall|n: u32|
                chars@.subrange(from as int, to as int) != #[trigger] numeral(n as nat),
        },
{
    let ghost text = chars@.subrange(from as int, to as int);
    let mut value: u64 = 0;
    let mut i: usize = from;
    while i < to
        invariant
            from <= i <= to <= chars@.len(),
            text == chars@.subrange(from as int, to as int),
            all_digits(text.take(i - from)),
            value == digits_value(text.take(i - from)),
            value <= u32::MAX,
        decreases to - i,
    {
        let c = chars[i];
        proof {
            assert(text.take(i - from + 1).drop_last() =~= text.take(i - from));
            assert(text.take(i - from + 1).last() == c);
            assert(text[i - from] == c);
        }
        if c < '0' || c > '9' {
            proof {
                assert forall|n: u32| text != #[trigger] numeral(n as nat) by {
                    numeral_reads_back(n as nat);
                }
            }
            return None;
        }
        value = value * 10 + (c as u64 - '0' as u64);
        if value > u32::MAX as u64 {
            proof {
                assert forall|n: u32| text != #[trigger] numeral(n as nat) by {
                    numeral_reads_back(n as nat);
                    if text == numeral(n as nat) {
                        prefix_value_is_no_more(text, i - from + 1);
                    }
                }
            }
            return None;
        }
        proof {
            assert forall|j: int| 0 <= j < i - from + 1 implies '0' <= #[trigger] text.take(
                i - from + 1,
            )[j] <= '9' by {
                if j < i - from {
                    assert(text.take(i - from)[j] == text[j]);
                }
            }
        }
        i += 1;
    }
    proof {
        assert(text.take(to - from) =~= text);
        assert forall|n: u32| text == #[trigger] numeral(n as nat) implies n == value by {
            numeral_reads_back(n as nat);
        }
    }
    let written = chars_of(decimal(value).as_str());
    if starts_at(chars, from, to, &written) && written.len() == to - from {
        Some(value as u32)
    } else {
        None
    }
}

/// Whether `chars[from..to]` begins with `pattern`.
pub fn starts_at(chars: &Vec<char>, from: usize, to: usize, pattern: &Vec<char>) -> (r: bool)
    requires
        from <= to <= chars@.len(),
    ensures
        r == (from + pattern@.len() <= to && chars@.subrange(
            from as int,
            from + pattern@.len(),
        ) == pattern@),
{
    if pattern.len() > to - from {
        return false;
    }
    let mut i: usize = 0;
    while i < pattern.len()
        invariant
            i <= pattern@.len(),
            from + pattern@.len() <= to <= chars@.len(),
            forall|j: int| 0 <= j < i ==> chars@[from + j] == pattern@[j],
        decreases pattern.len() - i,
    {
        if chars[from + i] != pattern[i] {
            proof {
                assert(chars@.subrange(from as int, from + pattern@.len())[i as int] != pattern@[i as int]);
            }
            return false;
        }
        i += 1;
    }
    proof {
        assert(chars@.subrange(from as int, from + pattern@.len()) =~= pattern@);
    }
    true
}

/// Whether `s` and `t` first differ at `k`, where `s` has the lower character.
pub open spec fn lower_at(s: Seq<char>, t: Seq<char>, k: int) -> bool {
    &&& 0 <= k < s.len()
    &&& k < t.len()
    &&& forall|j: int| 0 <= j < k ==> s[j] == #[trigger] t[j]
    &&& s[k] < t[k]
}

/// Whether `s` stands before `t` when names are sorted, by a character in
/// which they differ.
pub open spec fn sorts_before(s: Seq<char>, t: Seq<char>) -> bool {
    exists|k: int| #[trigger] lower_at(s, t, k)
}

/// How many of the numbers below `n` have a property.
pub open spec fn how_many(n: nat, property: spec_fn(int) -> bool) -> nat
    decreases n,
{
    if n == 0 {
        0
    } else {
        how_many((n - 1) as nat, property) + if property(n - 1) {
            1nat
        } else {
            0nat
        }
    }
}

/// Properties that agree below `n` are had by as many.
pub proof fn as_many(n: nat, a: spec_fn(int) -> bool, b: spec_fn(int) -> bool)
    requires
        forall|i: int| 0 <= i < n ==> #[trigger] a(i) == b(i),
    ensures
        how_many(n, a) == how_many(n, b),
    decreases n,
{
    if n > 0 {
        as_many((n - 1) as nat, a, b);
        assert(a(n - 1) == b(n - 1));
    }
}

/// Whether `part` stands somewhere in `whole`.
pub open spec fn has_text(whole: Seq<char>, part: Seq<char>) -> bool {
    exists|k: int|
        0 <= k && k + part.len() <= whole.len() && #[trigger] whole.subrange(k, k + part.len())
            == part
}

/// What stands between two parts stands in the whole.
pub proof fn has_text_between(before: Seq<char>, part: Seq<char>, behind: Seq<char>)
    ensures
        has_text(before + part + behind, part),
{
    let whole = before + part + behind;
    let k = before.len() as int;
    assert(whole.subrange(k, k + part.len()) =~= part);
}

/// Decimal is positional: a further digit behind a numeral is worth itself,
/// and makes what stands before it worth ten times as much. The digits are
/// those of ASCII, and no numeral but that of zero starts with a zero.
pub proof fn a_further_digit_counts_ten_times_the_rest(n: nat, d: nat)
    requires
        d < 10,
    ensures
        numeral(d) == seq![(48 + d) as char],
        n > 0 ==> numeral(10 * n + d) == numeral(n).push((48 + d) as char),
        n > 0 ==> numeral(n)[0] != '0',
    decreases n,
{
    if n > 0 {
        assert((10 * n + d) / 10 == n && (10 * n + d) % 10 == d);
        if n >= 10 {
            a_further_digit_counts_ten_times_the_rest(n / 10, n % 10);
            assert(10 * (n / 10) + n % 10 == n);
            numeral_reads_back(n / 10);
        }
    }
}

/// What digits write, digit by digit: nothing at all is zero, and a further digit
/// is worth itself and makes what stands before it worth ten times as much.
pub proof fn digits_write_in_tens(s: Seq<char>, d: nat, i: int)
    requires
        d < 10,
        0 <= i < s.len(),
    ensures
        digits_value(Seq::empty()) == 0,
        digits_value(s.push((48 + d) as char)) == 10 * digits_value(s) + d,
        all_digits(s) ==> '0' <= s[i] <= '9',
        all_digits(Seq::empty()),
        all_digits(s.push((48 + d) as char)) == all_digits(s),
{
    let longer = s.push((48 + d) as char);
    assert(longer.drop_last() =~= s);
    if all_digits(longer) {
        assert forall|i: int| 0 <= i < s.len() implies '0' <= #[trigger] s[i] <= '9' by {
            assert(longer[i] == s[i]);
        }
    }
}

} // verus!
