//! Decimal numerals: the digits `0` to `9`, most significant first.

use vstd::prelude::*;

verus! {

/// Whether `c` is one of the ten digits `0` to `9`.
pub open spec fn is_digit(c: char) -> bool {
    '0' <= c <= '9'
}

/// The number that the digit `c` stands for.
pub open spec fn digit_value(c: char) -> nat
    recommends
        is_digit(c),
{
    (c as int - '0' as int) as nat
}

/// The digit that stands for `d`.
pub open spec fn digit_of(d: nat) -> char
    recommends
        d < 10,
{
    ('0' as int + d) as char
}

/// Whether `s` holds digits only.
pub open spec fn all_digits(s: Seq<char>) -> bool {
    forall|i: int| 0 <= i < s.len() ==> is_digit(#[trigger] s[i])
}

/// The number that the numeral `s` stands for; leading zeros count for nothing.
pub open spec fn value_of(s: Seq<char>) -> nat
    recommends
        all_digits(s),
    decreases s.len(),
{
    if s.len() == 0 {
        0
    } else {
        value_of(s.drop_last()) * 10 + digit_value(s.last())
    }
}

/// The numeral of `n`, without leading zeros.
pub open spec fn numeral(n: nat) -> Seq<char>
    decreases n,
{
    if n < 10 {
        seq![digit_of(n)]
    } else {
        numeral(n / 10).push(digit_of(n % 10))
    }
}

/// A numeral is never empty, holds digits only, and stands for its number.
pub proof fn lemma_numeral(n: nat)
    ensures
        numeral(n).len() >= 1,
        all_digits(numeral(n)),
        value_of(numeral(n)) == n,
    decreases n,
{
    if n < 10 {
        assert(value_of(numeral(n).drop_last()) == 0);
    } else {
        lemma_numeral(n / 10);
        assert(numeral(n).drop_last() == numeral(n / 10));
    }
}

/// Whether `c` is a digit.
pub fn digit(c: char) -> (b: bool)
    ensures
        b == is_digit(c),
{
    '0' <= c && c <= '9'
}

/// Whether `chars[from..to]` holds digits only.
pub fn digits_only(chars: &Vec<char>, from: usize, to: usize) -> (b: bool)
    requires
        from <= to <= chars.len(),
    ensures
        b == all_digits(chars@.subrange(from as int, to as int)),
{
    let mut i: usize = from;
    while i < to
        invariant
            from <= i <= to <= chars.len(),
            all_digits(chars@.subrange(from as int, i as int)),
        decreases to - i,
    {
        if !digit(chars[i]) {
            assert(!is_digit(chars@.subrange(from as int, to as int)[i - from]));
            return false;
        }
        assert forall|k: int| 0 <= k < i + 1 - from implies is_digit(
            #[trigger] chars@.subrange(from as int, i + 1)[k],
        ) by {
            if k < i - from {
                assert(chars@.subrange(from as int, i + 1)[k] == chars@.subrange(
                    from as int,
                    i as int,
                )[k]);
            }
        }
        i += 1;
    }
    true
}

/// The number that `chars[from..to]` stands for as a numeral: none where the
/// range holds anything but digits, and none where the number is more than
/// a `u32` holds. The empty range stands for 0.
pub fn read_numeral(chars: &Vec<char>, from: usize, to: usize) -> (number: Option<u32>)
    requires
        from <= to <= chars.len(),
    ensures
        number == (if all_digits(chars@.subrange(from as int, to as int)) && value_of(
            chars@.subrange(from as int, to as int),
        ) <= u32::MAX {
            Some(value_of(chars@.subrange(from as int, to as int)) as u32)
        } else {
            None
        }),
{
    if !digits_only(chars, from, to) {
        return None;
    }
    let ghost digits = chars@.subrange(from as int, to as int);
    // `seen` is the number of the digits read so far, or one more than a
    // `u32` holds where that number is too large.
    let mut seen: u64 = 0;
    let mut i: usize = from;
    while i < to
        invariant
            from <= i <= to <= chars.len(),
            digits == chars@.subrange(from as int, to as int),
            all_digits(digits),
            seen == if value_of(chars@.subrange(from as int, i as int)) <= u32::MAX {
                value_of(chars@.subrange(from as int, i as int))
            } else {
                0x1_0000_0000
            },
        decreases to - i,
    {
        let c = chars[i];
        assert(is_digit(digits[i - from]));
        let d: u64 = (c as u32 - '0' as u32) as u64;
        assert(chars@.subrange(from as int, i + 1).drop_last() == chars@.subrange(
            from as int,
            i as int,
        ));
        if seen <= 0xFFFF_FFFF {
            seen = seen * 10 + d;
            if seen > 0xFFFF_FFFF {
                seen = 0x1_0000_0000;
            }
        }
        i += 1;
    }
    if seen > 0xFFFF_FFFF {
        None
    } else {
        Some(seen as u32)
    }
}

/// Appends the numeral of `n` to `s`.
pub fn push_numeral(s: &mut String, n: u32)
    ensures
        final(s)@ == old(s)@ + numeral(n as nat),
    decreases n,
{
    if n >= 10 {
        push_numeral(s, n / 10);
    }
    let d: u8 = (n % 10) as u8;
    let c: char = ('0' as u8 + d) as char;
    s.push(c);
}

} // verus!
