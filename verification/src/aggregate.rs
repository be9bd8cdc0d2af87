//! Reading matched values as numbers and summarising them.

use vstd::prelude::*;
use vstd::string::*;
use crate::text::chars_of;

verus! {

/// The notation in which a property writes its number.
#[derive(Clone, Copy, Debug, PartialEq, Eq)]
pub enum Radix {
    /// Digits `0` to `9`.
    Decimal,
    /// Digits `0` to `9` and letters `a` to `f` in either case.
    Hexadecimal,
}

impl Radix {
    /// The base of the notation.
    pub open spec fn base(self) -> nat {
        match self {
            Radix::Decimal => 10,
            Radix::Hexadecimal => 16,
        }
    }
}

/// The value of `c` as a digit, whatever the base.
pub open spec fn digit_of(c: char) -> Option<nat> {
    if '0' <= c <= '9' {
        Some((c as nat - '0' as nat) as nat)
    } else if 'a' <= c <= 'f' {
        Some((c as nat - 'a' as nat + 10) as nat)
    } else if 'A' <= c <= 'F' {
        Some((c as nat - 'A' as nat + 10) as nat)
    } else {
        None
    }
}

/// Whether `c` is a digit of the notation.
pub open spec fn is_digit(c: char, radix: Radix) -> bool {
    digit_of(c) matches Some(d) && d < radix.base()
}

/// The number that a run of digits denotes, most significant digit first.
pub open spec fn digits_value(digits: Seq<char>, radix: Radix) -> nat
    decreases digits.len(),
{
    if digits.len() == 0 {
        0
    } else {
        digits_value(digits.drop_last(), radix) * radix.base() + digit_of(digits.last()).unwrap_or(
            0,
        )
    }
}

/// The digits of a numeral: the text without its leading `+`, if it has one.
pub open spec fn unsigned_part(text: Seq<char>) -> Seq<char> {
    if text.len() > 0 && text[0] == '+' {
        text.skip(1)
    } else {
        text
    }
}

/// The number that `text` denotes, if it denotes one that fits in 32 bits.
///
/// A numeral is an optional `+` followed by at least one digit of the
/// notation and nothing else: no sign `-`, no blanks, no prefix such as `0x`.
pub open spec fn number_of(text: Seq<char>, radix: Radix) -> Option<nat> {
    let digits = unsigned_part(text);
    if digits.len() > 0 && (forall|i: int| 0 <= i < digits.len() ==> is_digit(digits[i], radix))
        && digits_value(digits, radix) <= u32::MAX {
        Some(digits_value(digits, radix))
    } else {
        None
    }
}

/// The numbers among `values`, in order; a value that denotes no number is
/// passed over.
pub open spec fn numbers_of(values: Seq<Seq<char>>, radix: Radix) -> Seq<nat> {
    values.filter_map(|v: Seq<char>| number_of(v, radix))
}

/// The least of a collection of numbers, and how many they are.
#[derive(Clone, Copy, Debug, PartialEq, Eq)]
pub struct Summary {
    /// The least number.
    pub minimum: u32,
    /// How many numbers there are.
    pub count: usize,
}

/// Whether `summary` describes the numbers `nums`: they are as many as it
/// counts, at least one, and its minimum is one of them and no greater than
/// any.
pub open spec fn summarises(summary: Summary, nums: Seq<nat>) -> bool {
    &&& nums.len() == summary.count
    &&& nums.len() > 0
    &&& nums.contains(summary.minimum as nat)
    &&& forall|i: int| 0 <= i < nums.len() ==> summary.minimum <= nums[i]
}

/// A longer run of digits denotes no smaller a number than any of its
/// prefixes.
pub proof fn lemma_digits_value_grows(digits: Seq<char>, radix: Radix, n: int)
    requires
        0 <= n <= digits.len(),
    ensures
        digits_value(digits.take(n), radix) <= digits_value(digits, radix),
    decreases digits.len(),
{
    if n == digits.len() {
        assert(digits.take(n) =~= digits);
    } else {
        let shorter = digits.drop_last();
        assert(shorter.take(n) =~= digits.take(n));
        lemma_digits_value_grows(shorter, radix, n);
        assert(digits_value(shorter, radix) * radix.base() >= digits_value(shorter, radix))
            by (nonlinear_arith)
            requires
                radix.base() >= 1,
        ;
    }
}

/// The value of `c` as a digit of the notation.
pub fn digit(c: char, radix: Radix) -> (r: Option<u32>)
    ensures
        match r {
            Some(d) => is_digit(c, radix) && digit_of(c) == Some(d as nat),
            None => !is_digit(c, radix),
        },
{
    let d: u32 = if '0' <= c && c <= '9' {
        c as u32 - '0' as u32
    } else if 'a' <= c && c <= 'f' {
        c as u32 - 'a' as u32 + 10
    } else if 'A' <= c && c <= 'F' {
        c as u32 - 'A' as u32 + 10
    } else {
        return None;
    };
    let base: u32 = match radix {
        Radix::Decimal => 10,
        Radix::Hexadecimal => 16,
    };
    if d < base {
        Some(d)
    } else {
        None
    }
}

/// Reads `text` as a number in the given notation.
pub fn parse_number(text: &str, radix: Radix) -> (r: Option<u32>)
    ensures
        match r {
            Some(n) => number_of(text@, radix) == Some(n as nat),
            None => number_of(text@, radix) is None,
        },
{
    let chars = chars_of(text);
    let start: usize = if chars.len() > 0 && chars[0] == '+' {
        1
    } else {
        0
    };
    if start == chars.len() {
        return None;
    }
    let base: u64 = match radix {
        Radix::Decimal => 10,
        Radix::Hexadecimal => 16,
    };
    let ghost digits = unsigned_part(text@);
    assert(digits =~= chars@.skip(start as int));
    let mut acc: u64 = 0;
    let mut i: usize = start;
    assert(digits.take(0) =~= Seq::empty());
    while i < chars.len()
        invariant
            start <= i <= chars.len(),
            base == radix.base(),
            digits == chars@.skip(start as int),
            digits == unsigned_part(text@),
            acc == digits_value(digits.take(i - start), radix),
            acc <= u32::MAX,
            forall|j: int| 0 <= j < i - start ==> is_digit(digits[j], radix),
        decreases chars.len() - i,
    {
        let d: u32 = match digit(chars[i], radix) {
            Some(d) => d,
            None => {
                assert(!is_digit(digits[i - start], radix));
                return None;
            },
        };
        proof {
            let longer = digits.take(i - start + 1);
            assert(longer.drop_last() =~= digits.take(i - start));
            assert(longer.last() == chars@[i as int]);
            assert(acc * base <= u32::MAX * 16) by (nonlinear_arith)
                requires
                    acc <= u32::MAX,
                    base <= 16,
            ;
        }
        let next: u64 = acc * base + d as u64;
        if next > u32::MAX as u64 {
            proof {
                lemma_digits_value_grows(digits, radix, i - start + 1);
            }
            return None;
        }
        acc = next;
        i += 1;
    }
    assert(digits.take(digits.len() as int) =~= digits);
    Some(acc as u32)
}

/// Summarises the numbers among `values`.
///
/// A value that denotes no number in the notation counts as absent. Where no
/// value denotes a number there is nothing to summarise, which is told apart
/// from a minimum of zero by the absent result.
pub fn summarize(values: &Vec<String>, radix: Radix) -> (r: Option<Summary>)
    ensures
        match r {
            Some(summary) => summarises(summary, numbers_of(values.deep_view(), radix)),
            None => numbers_of(values.deep_view(), radix).len() == 0,
        },
{
    let ghost read = |v: Seq<char>| number_of(v, radix);
    let mut minimum: u32 = 0;
    let mut count: usize = 0;
    let mut i: usize = 0;
    assert(values.deep_view().take(0) =~= Seq::empty());
    while i < values.len()
        invariant
            i <= values.len(),
            read == |v: Seq<char>| number_of(v, radix),
            count <= i,
            count == values.deep_view().take(i as int).filter_map(read).len(),
            count > 0 ==> summarises(
                Summary { minimum, count },
                values.deep_view().take(i as int).filter_map(read),
            ),
        decreases values.len() - i,
    {
        let ghost before = values.deep_view().take(i as int).filter_map(read);
        proof {
            values.deep_view().lemma_filter_map_take_succ(read, i as int);
        }
        match parse_number(values[i].as_str(), radix) {
            Some(n) => {
                let ghost after = before + seq![n as nat];
                assert(after[count as int] == n);
                if count == 0 || n < minimum {
                    minimum = n;
                } else {
                    let ghost at = choose|k: int| 0 <= k < before.len() && before[k] == minimum;
                    assert(after[at] == minimum);
                }
                count += 1;
            },
            None => {},
        }
        i += 1;
    }
    assert(values.deep_view().take(values.len() as int) =~= values.deep_view());
    if count == 0 {
        None
    } else {
        Some(Summary { minimum, count })
    }
}

} // verus!
