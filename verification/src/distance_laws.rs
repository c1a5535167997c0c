//! Distances are compared as the numbers that their bit patterns stand for.
//!
//! Up to `0x7f80_0000` a pattern stands for a number from 0 to infinity, the greater the
//! pattern the greater the number; from `0x8000_0000` to `0xff80_0000` it stands for the
//! number opposite to that of the pattern without its highest bit. The rest are no numbers.
use vstd::prelude::*;

use crate::distance::{distance_rank, equal_distance, is_nan, rank, same_distance};

verus! {

/// The rank of a distance follows the order of numbers: that of their patterns where they are
/// not negative, and the opposite where they are; a negative number comes before any that is
/// not, and both zeros are alike.
pub proof fn law_rank_follows_the_order_of_numbers(a: u32, b: u32)
    ensures
        a <= 0x7f80_0000 && b <= 0x7f80_0000 ==> (rank(a) < rank(b) <==> a < b),
        0x8000_0000 <= a <= 0xff80_0000 && 0x8000_0000 <= b <= 0xff80_0000 ==> (rank(a) < rank(b)
            <==> a > b),
        0x8000_0000 < a <= 0xff80_0000 && b <= 0x7f80_0000 ==> rank(a) < rank(b),
        a == 0x8000_0000 && b == 0 ==> rank(a) == rank(b),
{
}

/// What is no number comes behind every number, and all of it alike.
pub proof fn law_what_is_no_number_comes_last(a: u32, b: u32)
    requires
        0x7f80_0000 < b < 0x8000_0000 || b > 0xff80_0000,
    ensures
        a <= 0x7f80_0000 || 0x8000_0000 <= a <= 0xff80_0000 ==> rank(a) < rank(b),
        0x7f80_0000 < a < 0x8000_0000 || a > 0xff80_0000 ==> rank(a) == rank(b),
{
}

/// A pattern stands for no number exactly above infinity, on either side of zero.
pub proof fn law_which_patterns_are_no_numbers(bits: u32)
    ensures
        is_nan(bits) <==> 0x7f80_0000 < bits < 0x8000_0000 || bits > 0xff80_0000,
{
}

/// Two distances are equal exactly where they are the same number: the same pattern, or both
/// a zero. What is no number equals nothing.
pub proof fn law_equal_distances_are_the_same_number(a: u32, b: u32)
    ensures
        equal_distance(a, b) <==> {
            ||| a == b && (a <= 0x7f80_0000 || 0x8000_0000 <= a <= 0xff80_0000)
            ||| (a == 0 || a == 0x8000_0000) && (b == 0 || b == 0x8000_0000)
        },
{
}

/// Ranks that were computed compare as the numbers do.
pub proof fn law_computed_ranks_compare_as_numbers(a: u32, b: u32, of_a: i64, of_b: i64)
    requires
        call_ensures(distance_rank, (a,), of_a),
        call_ensures(distance_rank, (b,), of_b),
    ensures
        a <= 0x7f80_0000 && b <= 0x7f80_0000 ==> (of_a < of_b <==> a < b),
        0x8000_0000 <= a <= 0xff80_0000 && 0x8000_0000 <= b <= 0xff80_0000 ==> (of_a < of_b
            <==> a > b),
        0x8000_0000 < a <= 0xff80_0000 && b <= 0x7f80_0000 ==> of_a < of_b,
        a == 0x8000_0000 && b == 0 ==> of_a == of_b,
        (a <= 0x7f80_0000 || 0x8000_0000 <= a <= 0xff80_0000) && (0x7f80_0000 < b < 0x8000_0000
            || b > 0xff80_0000) ==> of_a < of_b,
        (0x7f80_0000 < a < 0x8000_0000 || a > 0xff80_0000) && (0x7f80_0000 < b < 0x8000_0000 || b
            > 0xff80_0000) ==> of_a == of_b,
{
}

/// Distances that were found equal are, and no others.
pub proof fn law_computed_equality_is_that_of_numbers(a: u32, b: u32, same: bool)
    requires
        call_ensures(same_distance, (a, b), same),
    ensures
        same <==> {
            ||| a == b && (a <= 0x7f80_0000 || 0x8000_0000 <= a <= 0xff80_0000)
            ||| (a == 0 || a == 0x8000_0000) && (b == 0 || b == 0x8000_0000)
        },
{
}

} // verus!
