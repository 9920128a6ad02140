//! Unsigned numbers written as digits of a radix.

use crate::text::{digit, digit_of, lemma_run, lemma_run_is, run, Class};
use vstd::prelude::*;

verus! {

/// Why a text is not a number.
#[derive(Clone, Copy, Debug, PartialEq, Eq, Structural)]
pub enum NumError {
    /// The text is empty.
    Empty,
    /// A character is not a digit of the radix, or a sign stands alone.
    InvalidDigit,
    /// The value is larger than the target allows.
    PosOverflow,
}

/// The value of one character, zero where it is not a digit.
pub open spec fn digit_value(c: char, radix: u32) -> nat {
    match digit_of(c, radix) {
        Some(d) => d as nat,
        None => 0,
    }
}

/// The value of a text of digits, most significant digit first.
pub open spec fn magnitude(s: Seq<char>, radix: u32) -> nat
    decreases s.len(),
{
    if s.len() == 0 {
        0
    } else {
        magnitude(s.drop_last(), radix) * (radix as nat) + digit_value(s.last(), radix)
    }
}

/// The digits of a text: what follows one leading `+`, or all of it.
pub open spec fn unsigned(s: Seq<char>) -> Seq<char> {
    if s.len() > 0 && s[0] == '+' {
        s.drop_first()
    } else {
        s
    }
}

/// What a text denotes in a radix, with `limit` as the largest value.
///
/// Reading from the left, the first character that is no digit makes the
/// text invalid, unless the digits before it already exceed the limit.
pub open spec fn number(s: Seq<char>, radix: u32, limit: u32) -> Result<u32, NumError> {
    let d = unsigned(s);
    let k = run(d, Class::Digit(radix), true);
    if s.len() == 0 {
        Err(NumError::Empty)
    } else if d.len() == 0 {
        Err(NumError::InvalidDigit)
    } else if magnitude(d.take(k), radix) > limit {
        Err(NumError::PosOverflow)
    } else if k < d.len() {
        Err(NumError::InvalidDigit)
    } else {
        Ok(magnitude(d, radix) as u32)
    }
}

/// A longer prefix has no smaller value.
pub proof fn lemma_magnitude_grows(s: Seq<char>, radix: u32, a: int, b: int)
    requires
        0 <= a <= b <= s.len(),
        radix >= 1,
    ensures
        magnitude(s.take(a), radix) <= magnitude(s.take(b), radix),
    decreases b - a,
{
    if a < b {
        lemma_magnitude_grows(s, radix, a, b - 1);
        assert(s.take(b).drop_last() == s.take(b - 1));
        let m = magnitude(s.take(b - 1), radix);
        assert(m <= m * radix) by (nonlinear_arith)
            requires
                radix >= 1,
        ;
    }
}

/// Executable form of [`number`].
pub fn parse_number(s: &[char], radix: u32, limit: u32) -> (r: Result<u32, NumError>)
    requires
        2 <= radix <= 36,
    ensures
        r == number(s@, radix, limit),
        r matches Ok(v) ==> v <= limit,
{
    if s.len() == 0 {
        return Err(NumError::Empty);
    }
    let start: usize = if s[0] == '+' {
        1
    } else {
        0
    };
    if start == s.len() {
        return Err(NumError::InvalidDigit);
    }
    let ghost d = s@.skip(start as int);
    let ghost k = run(d, Class::Digit(radix), true);
    proof {
        assert(s@.skip(0) == s@);
        assert(d == unsigned(s@));
        assert(d.take(0) == Seq::<char>::empty());
    }
    let mut acc: u64 = 0;
    let mut i: usize = start;
    while i < s.len()
        invariant
            start <= i <= s.len(),
            2 <= radix <= 36,
            s.len() > 0,
            d == s@.skip(start as int),
            d == unsigned(s@),
            d.len() > 0,
            k == run(d, Class::Digit(radix), true),
            forall|j: int| 0 <= j < i - start ==> digit_of(#[trigger] d[j], radix) is Some,
            acc == magnitude(d.take(i - start), radix),
            acc <= limit,
        decreases s.len() - i,
    {
        let ghost n = i - start;
        match digit(s[i], radix) {
            None => {
                proof {
                    assert(d[n] == s@[i as int]);
                    lemma_run_is(d, Class::Digit(radix), true, n);
                }
                return Err(NumError::InvalidDigit);
            },
            Some(v) => {
                assert(acc * radix <= 0xFFFF_FFFF * 36) by (nonlinear_arith)
                    requires
                        acc <= 0xFFFF_FFFF,
                        radix <= 36,
                ;
                let next: u64 = acc * (radix as u64) + (v as u64);
                proof {
                    assert(d.take(n + 1).drop_last() == d.take(n));
                    assert(d.take(n + 1).last() == s@[i as int]);
                    assert(next == magnitude(d.take(n + 1), radix));
                }
                if next > limit as u64 {
                    proof {
                        lemma_run(d, Class::Digit(radix), true);
                        assert(d[n] == s@[i as int]);
                        if k < n + 1 {
                            assert(Class::Digit(radix).has(d[k]));
                        }
                        lemma_magnitude_grows(d, radix, n + 1, k);
                    }
                    return Err(NumError::PosOverflow);
                }
                acc = next;
                i += 1;
            },
        }
    }
    proof {
        lemma_run_is(d, Class::Digit(radix), true, d.len() as int);
        assert(d.take(d.len() as int) == d);
    }
    Ok(acc as u32)
}

} // verus!
