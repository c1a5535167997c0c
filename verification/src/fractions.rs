//! Exact comparison of numbers, of which some are given by their double-precision bit
//! patterns.
//!
//! A pattern is a sign bit above 11 bits of exponent above 52 bits of fraction. Every finite
//! number that a pattern stands for is a whole multiple of the least positive one, and so is
//! every whole number: as such multiples they are compared, with nothing rounded.
use vstd::arithmetic::power2::{lemma2_to64, lemma_pow2_adds, lemma_pow2_pos, pow2};
use vstd::prelude::*;

verus! {

/// The lowest pattern with a sign bit.
pub const SIGN: u64 = 0x8000_0000_0000_0000;

/// One above the greatest fraction, which is the bit that the fraction of a number with an
/// exponent leaves out.
pub const IMPLICIT: u64 = 0x10_0000_0000_0000;

/// The number 1 is the least positive number this often doubled.
pub const ONE: u32 = 1074;

/// The pattern without its sign bit.
pub open spec fn magnitude(bits: u64) -> int {
    if bits >= SIGN {
        bits - SIGN
    } else {
        bits as int
    }
}

/// What is doubled as often as [`doublings`] says: the fraction, below the bit that it leaves
/// out where there is an exponent.
pub open spec fn significand(bits: u64) -> int {
    let low = magnitude(bits);
    if low < IMPLICIT {
        low
    } else {
        low % (IMPLICIT as int) + IMPLICIT
    }
}

/// How often the least positive number is doubled for one step of the significand.
pub open spec fn doublings(bits: u64) -> nat {
    let low = magnitude(bits);
    if low < IMPLICIT {
        0
    } else {
        (low / (IMPLICIT as int) - 1) as nat
    }
}

/// How many of the least positive number make up the number that a pattern stands for. The
/// greatest exponent, which no finite number has and JSON does not give, is read as the others.
pub open spec fn fraction_units(bits: u64) -> int {
    let size = significand(bits) * pow2(doublings(bits));
    if bits >= SIGN {
        -size
    } else {
        size
    }
}

/// How many of the least positive number make up a whole number.
pub open spec fn whole_units(number: int) -> int {
    number * pow2(ONE as nat)
}

/// A number by its sign, and its size as something that is doubled several times.
pub(crate) struct Scaled {
    negative: bool,
    size: u64,
    shift: u32,
}

impl Scaled {
    /// How many of the least positive number make up the number.
    pub(crate) closed spec fn units(&self) -> int {
        let size = self.size * pow2(self.shift as nat);
        if self.negative {
            -size
        } else {
            size as int
        }
    }

    pub(crate) fn of_fraction(bits: u64) -> (n: Scaled)
        ensures
            n.units() == fraction_units(bits),
    {
        let low: u64 = if bits >= SIGN { bits - SIGN } else { bits };
        if low < IMPLICIT {
            Scaled { negative: bits >= SIGN, size: low, shift: 0 }
        } else {
            Scaled {
                negative: bits >= SIGN,
                size: low % IMPLICIT + IMPLICIT,
                shift: (low / IMPLICIT - 1) as u32,
            }
        }
    }

    pub(crate) fn of_whole(number: i128) -> (n: Scaled)
        requires
            -u64::MAX <= number <= u64::MAX,
        ensures
            n.units() == whole_units(number as int),
    {
        let negative: bool = number < 0;
        let size: u64 = if negative { (-number) as u64 } else { number as u64 };
        let n = Scaled { negative, size, shift: ONE };
        assert(n.units() == whole_units(number as int)) by (nonlinear_arith)
            requires
                n.shift == ONE,
                n.negative == (number < 0),
                n.size == if number < 0 { -number } else { number as int },
                n.units() == if n.negative {
                    -(n.size * pow2(n.shift as nat))
                } else {
                    n.size * pow2(n.shift as nat)
                },
                whole_units(number as int) == number * pow2(ONE as nat),
        ;
        n
    }

    /// Whether the number is the lesser.
    pub(crate) fn less(&self, other: &Scaled) -> (r: bool)
        ensures
            r == (self.units() < other.units()),
    {
        proof {
            lemma_size(self.size, self.shift as nat);
            lemma_size(other.size, other.shift as nat);
        }
        match (self.negative, other.negative) {
            (false, false) => smaller(self.size, self.shift, other.size, other.shift),
            (true, true) => smaller(other.size, other.shift, self.size, self.shift),
            (true, false) => self.size > 0 || other.size > 0,
            (false, true) => false,
        }
    }
}

/// Whether the first size is the lesser after both were doubled.
fn smaller(a: u64, a_shift: u32, b: u64, b_shift: u32) -> (r: bool)
    ensures
        r == (a * pow2(a_shift as nat) < b * pow2(b_shift as nat)),
{
    if a_shift >= b_shift {
        let d: u32 = a_shift - b_shift;
        proof {
            lemma_common(a, a_shift as nat, b, b_shift as nat);
        }
        doubled(a, d) < b as u128
    } else {
        let d: u32 = b_shift - a_shift;
        proof {
            lemma_common(b, b_shift as nat, a, a_shift as nat);
        }
        (a as u128) < doubled(b, d)
    }
}

/// A size after it was doubled, or some number beyond 64 bits where that is beyond them.
fn doubled(size: u64, times: u32) -> (r: u128)
    ensures
        size * pow2(times as nat) <= u64::MAX ==> r == size * pow2(times as nat),
        size * pow2(times as nat) > u64::MAX ==> r > u64::MAX,
{
    let mut r: u128 = size as u128;
    let mut left: u32 = times;
    assert(size * 1 == size);
    proof {
        lemma2_to64();
    }
    if size == 0 {
        return 0;
    }
    while left > 0 && r <= u64::MAX as u128
        invariant
            0 < size,
            0 < r <= 2 * u64::MAX,
            left <= times,
            r == size * pow2((times - left) as nat),
        decreases left,
    {
        let ghost done = (times - left) as nat;
        r = r * 2;
        left = left - 1;
        proof {
            lemma_pow2_adds(done, 1);
            lemma2_to64();
            assert(size * (pow2(done) * 2) == size * pow2(done) * 2) by (nonlinear_arith);
        }
    }
    proof {
        let done = (times - left) as nat;
        lemma_pow2_adds(done, left as nat);
        lemma_pow2_pos(left as nat);
        assert(size * pow2(times as nat) == r * pow2(left as nat)) by (nonlinear_arith)
            requires
                r == size * pow2(done),
                pow2(times as nat) == pow2(done) * pow2(left as nat),
        ;
        assert(r * pow2(left as nat) >= r) by (nonlinear_arith)
            requires
                pow2(left as nat) >= 1,
        ;
    }
    r
}

/// What both sizes are doubled by does not matter.
proof fn lemma_common(a: u64, a_shift: nat, b: u64, b_shift: nat)
    requires
        a_shift >= b_shift,
    ensures
        a * pow2(a_shift) < b * pow2(b_shift) <==> a * pow2((a_shift - b_shift) as nat) < b,
        b * pow2(b_shift) < a * pow2(a_shift) <==> b < a * pow2((a_shift - b_shift) as nat),
{
    let d = (a_shift - b_shift) as nat;
    let p = pow2(b_shift) as int;
    let x = a * pow2(d);
    lemma_pow2_adds(d, b_shift);
    lemma_pow2_pos(b_shift);
    assert(a * pow2(a_shift) == x * p) by (nonlinear_arith)
        requires
            pow2(a_shift) == pow2(d) * pow2(b_shift),
            p == pow2(b_shift),
            x == a * pow2(d),
    ;
    assert(x * p < b * p <==> x < b) by (nonlinear_arith)
        requires
            p > 0,
    ;
    assert(b * p < x * p <==> b < x) by (nonlinear_arith)
        requires
            p > 0,
    ;
}

/// A doubled size is 0 only where the size is.
proof fn lemma_size(size: u64, shift: nat)
    ensures
        size * pow2(shift) >= 0,
        size * pow2(shift) > 0 <==> size > 0,
{
    lemma_pow2_pos(shift);
    assert(size * pow2(shift) >= 0 && (size * pow2(shift) > 0 <==> size > 0)) by (nonlinear_arith)
        requires
            pow2(shift) > 0,
            size >= 0,
    ;
}

} // verus!
