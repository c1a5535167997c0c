//! Values are compared as the numbers, texts and other things that they are.
use vstd::arithmetic::power2::{
    lemma2_to64, lemma2_to64_rest, lemma_pow2_adds, lemma_pow2_pos, pow2,
};
use vstd::prelude::*;

use crate::fractions::{doublings, fraction_units, magnitude, significand, whole_units};
use crate::values::{CompareOp, LabelValue};

verus! {

/// Patterns from 0 on stand for numbers from 0 on, and from one pattern to the next the number
/// grows: by the least positive number below `0x20_0000_0000_0000`, and by twice as much with
/// every further `0x10_0000_0000_0000`.
pub proof fn law_next_fraction(bits: u64)
    requires
        bits < 0x7fff_ffff_ffff_ffff,
    ensures
        fraction_units(0) == 0,
        bits < 0x10_0000_0000_0000 ==> fraction_units((bits + 1) as u64) == fraction_units(bits)
            + 1,
        bits >= 0x10_0000_0000_0000 ==> fraction_units((bits + 1) as u64) == fraction_units(bits)
            + pow2((bits as int / 0x10_0000_0000_0000 - 1) as nat),
{
    lemma2_to64_rest();
    let one = 0x10_0000_0000_0000int;
    let next = (bits + 1) as u64;
    lemma2_to64();
    assert(significand(0) * pow2(0) == 0) by (nonlinear_arith)
        requires
            significand(0) == 0,
    ;
    if bits < 0x10_0000_0000_0000 {
        assert(significand(bits) == bits && doublings(bits) == 0);
        assert(significand(next) == bits + 1 && doublings(next) == 0);
        assert(bits * 1 == bits && (bits + 1) * 1 == bits + 1);
    } else {
        let e = bits as int / one;
        let f = bits as int % one;
        let step = pow2((e - 1) as nat) as int;
        assert(significand(bits) == f + one && doublings(bits) == e - 1);
        if f + 1 < one {
            assert(next as int / one == e && next as int % one == f + 1);
            assert(significand(next) == f + 1 + one && doublings(next) == e - 1);
            assert((f + 1 + one) * step == (f + one) * step + step) by (nonlinear_arith);
        } else {
            assert(next as int / one == e + 1 && next as int % one == 0);
            assert(significand(next) == one && doublings(next) == e);
            lemma_pow2_adds((e - 1) as nat, 1);
            assert(pow2(e as nat) == 2 * step) by (nonlinear_arith)
                requires
                    pow2(e as nat) == step * pow2(1),
                    pow2(1) == 2,
            ;
            assert(one * (2 * step) == (f + one) * step + step) by (nonlinear_arith)
                requires
                    f + 1 == one,
            ;
        }
    }
}

/// The highest bit turns a number into its opposite.
pub proof fn law_sign_of_a_fraction(bits: u64)
    requires
        bits < 0x8000_0000_0000_0000,
    ensures
        fraction_units((bits + 0x8000_0000_0000_0000) as u64) == -fraction_units(bits),
{
    let negative = (bits + 0x8000_0000_0000_0000) as u64;
    assert(magnitude(negative) == magnitude(bits));
}

/// A whole number is so many times the one of pattern `0x3ff0_0000_0000_0000`.
pub proof fn law_whole_numbers_are_multiples_of_one(number: int)
    ensures
        whole_units(number) == number * fraction_units(0x3ff0_0000_0000_0000),
        whole_units(1) == pow2(1074),
{
    let one: u64 = 0x3ff0_0000_0000_0000;
    lemma2_to64_rest();
    lemma_pow2_adds(52, 1022);
    assert(significand(one) == 0x10_0000_0000_0000);
    assert(doublings(one) == 1022);
    assert(fraction_units(one) == pow2(1074)) by (nonlinear_arith)
        requires
            fraction_units(one) == 0x10_0000_0000_0000 * pow2(1022),
            pow2(1074) == pow2(52) * pow2(1022),
            pow2(52) == 0x10_0000_0000_0000,
    ;
    assert(1 * pow2(1074) == pow2(1074));
}

/// Numbers that are not negative are ordered as their patterns.
pub proof fn law_fractions_are_ordered_as_their_patterns(a: u64, b: u64)
    requires
        a < b < 0x8000_0000_0000_0000,
    ensures
        0 <= fraction_units(a) < fraction_units(b),
    decreases b,
{
    let before = (b - 1) as u64;
    law_next_fraction(before);
    lemma_pow2_pos((before as int / 0x10_0000_0000_0000 - 1) as nat);
    if a < before {
        law_fractions_are_ordered_as_their_patterns(a, before);
    } else if a > 0 {
        law_fractions_are_ordered_as_their_patterns((a - 1) as u64, a);
    }
}

/// Whole numbers compare as numbers, whether they are held with a sign or without.
pub proof fn law_whole_numbers_compare(
    a: LabelValue,
    b: LabelValue,
    x: int,
    y: int,
    lt: bool,
    lte: bool,
    gt: bool,
    gte: bool,
    eq: bool,
    ne: bool,
)
    requires
        (a matches LabelValue::Unsigned(n) && n == x) || (a matches LabelValue::Signed(n) && n
            == x),
        (b matches LabelValue::Unsigned(n) && n == y) || (b matches LabelValue::Signed(n) && n
            == y),
        call_ensures(CompareOp::accepts, (&CompareOp::Lt(b), &a), lt),
        call_ensures(CompareOp::accepts, (&CompareOp::Lte(b), &a), lte),
        call_ensures(CompareOp::accepts, (&CompareOp::Gt(b), &a), gt),
        call_ensures(CompareOp::accepts, (&CompareOp::Gte(b), &a), gte),
        call_ensures(CompareOp::accepts, (&CompareOp::Eq(b), &a), eq),
        call_ensures(CompareOp::accepts, (&CompareOp::Ne(b), &a), ne),
    ensures
        lt <==> x < y,
        lte <==> x <= y,
        gt <==> x > y,
        gte <==> x >= y,
        eq <==> x == y,
        ne <==> x != y,
{
    let one = pow2(1074) as int;
    lemma_pow2_pos(1074);
    assert(x * one < y * one <==> x < y) by (nonlinear_arith)
        requires
            one > 0,
    ;
    assert(y * one < x * one <==> y < x) by (nonlinear_arith)
        requires
            one > 0,
    ;
}

/// Other numbers compare as the numbers of their patterns: in the order of these where they
/// are not negative, in the opposite order where they are, negative ones before the others,
/// and both zeros alike.
pub proof fn law_fractions_compare(
    p: u64,
    q: u64,
    lt: bool,
    lte: bool,
    gt: bool,
    gte: bool,
    eq: bool,
    ne: bool,
)
    requires
        call_ensures(
            CompareOp::accepts,
            (&CompareOp::Lt(LabelValue::Fraction(q)), &LabelValue::Fraction(p)),
            lt,
        ),
        call_ensures(
            CompareOp::accepts,
            (&CompareOp::Lte(LabelValue::Fraction(q)), &LabelValue::Fraction(p)),
            lte,
        ),
        call_ensures(
            CompareOp::accepts,
            (&CompareOp::Gt(LabelValue::Fraction(q)), &LabelValue::Fraction(p)),
            gt,
        ),
        call_ensures(
            CompareOp::accepts,
            (&CompareOp::Gte(LabelValue::Fraction(q)), &LabelValue::Fraction(p)),
            gte,
        ),
        call_ensures(
            CompareOp::accepts,
            (&CompareOp::Eq(LabelValue::Fraction(q)), &LabelValue::Fraction(p)),
            eq,
        ),
        call_ensures(
            CompareOp::accepts,
            (&CompareOp::Ne(LabelValue::Fraction(q)), &LabelValue::Fraction(p)),
            ne,
        ),
    ensures
        p < 0x8000_0000_0000_0000 && q < 0x8000_0000_0000_0000 ==> (lt <==> p < q),
        p >= 0x8000_0000_0000_0000 && q >= 0x8000_0000_0000_0000 ==> (lt <==> p > q),
        p > 0x8000_0000_0000_0000 && q < 0x8000_0000_0000_0000 ==> lt,
        p < 0x8000_0000_0000_0000 && q >= 0x8000_0000_0000_0000 ==> !lt,
        eq <==> p == q || {
            &&& p == 0 || p == 0x8000_0000_0000_0000
            &&& q == 0 || q == 0x8000_0000_0000_0000
        },
        ne <==> !eq,
        lte <==> lt || eq,
        gt <==> !lte,
        gte <==> !lt,
{
    lemma_fraction_sides(p);
    lemma_fraction_sides(q);
    let sign = 0x8000_0000_0000_0000int;
    let a = if p >= sign {
        (p - sign) as u64
    } else {
        p
    };
    let b = if q >= sign {
        (q - sign) as u64
    } else {
        q
    };
    if a < b {
        law_fractions_are_ordered_as_their_patterns(a, b);
    }
    if b < a {
        law_fractions_are_ordered_as_their_patterns(b, a);
    }
}

/// A number is its size or the opposite of it, and 0 only where its size is.
proof fn lemma_fraction_sides(bits: u64)
    ensures
        ({
            let sign = 0x8000_0000_0000_0000int;
            let low = if bits >= sign {
                (bits - sign) as u64
            } else {
                bits
            };
            &&& fraction_units(low) >= 0
            &&& fraction_units(low) == 0 <==> low == 0
            &&& fraction_units(bits) == if bits >= sign {
                -fraction_units(low)
            } else {
                fraction_units(low)
            }
        }),
{
    let sign = 0x8000_0000_0000_0000int;
    let low = if bits >= sign {
        (bits - sign) as u64
    } else {
        bits
    };
    law_next_fraction(0);
    law_sign_of_a_fraction(low);
    if low > 0 {
        law_fractions_are_ordered_as_their_patterns(0, low);
    }
}

/// A whole number and any other compare as numbers too: by how many of the least positive
/// number make up either.
pub proof fn law_whole_numbers_and_fractions_compare(
    whole: LabelValue,
    x: int,
    bits: u64,
    lt: bool,
    gt: bool,
    eq: bool,
)
    requires
        (whole matches LabelValue::Unsigned(n) && n == x) || (whole matches LabelValue::Signed(n)
            && n == x),
        call_ensures(
            CompareOp::accepts,
            (&CompareOp::Lt(LabelValue::Fraction(bits)), &whole),
            lt,
        ),
        call_ensures(
            CompareOp::accepts,
            (&CompareOp::Gt(LabelValue::Fraction(bits)), &whole),
            gt,
        ),
        call_ensures(
            CompareOp::accepts,
            (&CompareOp::Eq(LabelValue::Fraction(bits)), &whole),
            eq,
        ),
    ensures
        lt <==> x * fraction_units(0x3ff0_0000_0000_0000) < fraction_units(bits),
        gt <==> x * fraction_units(0x3ff0_0000_0000_0000) > fraction_units(bits),
        eq <==> x * fraction_units(0x3ff0_0000_0000_0000) == fraction_units(bits),
{
    law_whole_numbers_are_multiples_of_one(x);
}

/// What is not a number equals exactly what is of its kind and the same, and is in no order
/// with anything.
pub proof fn law_other_values_compare(
    a: LabelValue,
    b: LabelValue,
    lt: bool,
    lte: bool,
    gt: bool,
    gte: bool,
    eq: bool,
    ne: bool,
)
    requires
        !((a is Unsigned || a is Signed || a is Fraction) && (b is Unsigned || b is Signed || b
            is Fraction)),
        call_ensures(CompareOp::accepts, (&CompareOp::Lt(b), &a), lt),
        call_ensures(CompareOp::accepts, (&CompareOp::Lte(b), &a), lte),
        call_ensures(CompareOp::accepts, (&CompareOp::Gt(b), &a), gt),
        call_ensures(CompareOp::accepts, (&CompareOp::Gte(b), &a), gte),
        call_ensures(CompareOp::accepts, (&CompareOp::Eq(b), &a), eq),
        call_ensures(CompareOp::accepts, (&CompareOp::Ne(b), &a), ne),
    ensures
        !lt && !lte && !gt && !gte,
        eq <==> {
            ||| a is Null && b is Null
            ||| a is Bool && b is Bool && a->Bool_0 == b->Bool_0
            ||| a is Text && b is Text && a->Text_0@ == b->Text_0@
            ||| a is Other && b is Other && a->Other_0@ == b->Other_0@
        },
        ne <==> !eq,
{
}

/// To be among values is to equal one of them, and not to be is to equal none.
pub proof fn law_values_in_a_list(
    value: LabelValue,
    list: Vec<LabelValue>,
    equal: Seq<bool>,
    within: bool,
    without: bool,
)
    requires
        equal.len() == list@.len(),
        forall|i: int|
            0 <= i < list@.len() ==> call_ensures(
                CompareOp::accepts,
                (&CompareOp::Eq(list@[i]), &value),
                #[trigger] equal[i],
            ),
        call_ensures(CompareOp::accepts, (&CompareOp::In(list), &value), within),
        call_ensures(CompareOp::accepts, (&CompareOp::Nin(list), &value), without),
    ensures
        within <==> exists|i: int| 0 <= i < list@.len() && #[trigger] equal[i],
        without <==> !within,
{
    if within {
        let i = choose|i: int|
            0 <= i < list@.len() && crate::values::equal(value@, (#[trigger] list@[i])@);
        assert(equal[i]);
    }
    if exists|i: int| 0 <= i < list@.len() && #[trigger] equal[i] {
        let i = choose|i: int| 0 <= i < list@.len() && #[trigger] equal[i];
        assert(crate::values::equal(value@, list@[i]@));
    }
}

/// Two values are the same where they are of one kind and hold the same; a whole number is
/// the same with a sign and without.
pub proof fn law_same_values(a: LabelValue, b: LabelValue, same: bool, truth: bool)
    requires
        call_ensures(LabelValue::same, (&a, &b), same),
        call_ensures(LabelValue::is_true, (&a,), truth),
    ensures
        same <==> {
            ||| a is Null && b is Null
            ||| a is Bool && b is Bool && a->Bool_0 == b->Bool_0
            ||| a is Text && b is Text && a->Text_0@ == b->Text_0@
            ||| a is Other && b is Other && a->Other_0@ == b->Other_0@
            ||| a is Fraction && b is Fraction && a->Fraction_0 == b->Fraction_0
            ||| a is Unsigned && b is Unsigned && a->Unsigned_0 == b->Unsigned_0
            ||| a is Signed && b is Signed && a->Signed_0 == b->Signed_0
            ||| a is Unsigned && b is Signed && a->Unsigned_0 == b->Signed_0
            ||| a is Signed && b is Unsigned && a->Signed_0 == b->Unsigned_0
        },
        truth <==> a == LabelValue::Bool(true),
{
}

/// Values are equal exactly where the comparison for equality holds.
pub proof fn law_equality_is_the_comparison(a: LabelValue, b: LabelValue, equal: bool, eq: bool)
    requires
        call_ensures(LabelValue::equals, (&a, &b), equal),
        call_ensures(CompareOp::accepts, (&CompareOp::Eq(b), &a), eq),
    ensures
        equal == eq,
{
}

} // verus!
