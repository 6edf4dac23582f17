//! The sum of the even integers of an inclusive range.

use vstd::prelude::*;

verus! {

/// The sum of every even integer `i` with `bottom <= i <= top`.
/// The range is empty, and the sum `0`, when `bottom > top`.
pub open spec fn sum_even_in_range(bottom: int, top: int) -> int
    decreases top - bottom + 1,
{
    if bottom > top {
        0
    } else if top % 2 == 0 {
        sum_even_in_range(bottom, top - 1) + top
    } else {
        sum_even_in_range(bottom, top - 1)
    }
}

/// The half of the smallest even integer that is at least `bottom`.
pub open spec fn first_half(bottom: int) -> int {
    (bottom + 1) / 2
}

/// The half of the largest even integer that is at most `top`.
pub open spec fn last_half(top: int) -> int {
    top / 2
}

/// The sum of the even integers of `[bottom, top]` without enumeration:
/// the evens are `2 * k` for `first_half(bottom) <= k <= last_half(top)`,
/// an arithmetic progression.
pub open spec fn even_sum_closed_form(bottom: int, top: int) -> int {
    let first = first_half(bottom);
    let last = last_half(top);
    if first > last {
        0
    } else {
        (first + last) * (last - first + 1)
    }
}

/// Enumerating the range and adding up its even members gives the same
/// number as the closed form, for every pair of bounds.
pub proof fn lemma_enumeration_matches_closed_form(bottom: int, top: int)
    ensures
        sum_even_in_range(bottom, top) == even_sum_closed_form(bottom, top),
    decreases top - bottom + 1,
{
    if bottom > top {
    } else {
        lemma_enumeration_matches_closed_form(bottom, top - 1);
        let first = first_half(bottom);
        let last = last_half(top);
        let before = last_half(top - 1);
        if top % 2 == 0 {
            assert(top == 2 * last);
            assert(before == last - 1);
            if first > before {
                assert(first == last);
                assert((first + last) * (last - first + 1) == top) by (nonlinear_arith)
                    requires
                        first == last,
                        top == 2 * last,
                ;
            } else {
                assert((first + last) * (last - first + 1) == (first + before) * (before - first
                    + 1) + top) by (nonlinear_arith)
                    requires
                        before == last - 1,
                        top == 2 * last,
                ;
            }
        } else {
            assert(before == last);
        }
    }
}

/// A range may be cut anywhere: the sum over `[bottom, top]` is the sum over
/// `[bottom, mid]` plus the sum over `[mid + 1, top]`. So the even members
/// can be added up from either end, or in pieces, with one result.
pub proof fn lemma_sum_splits(bottom: int, mid: int, top: int)
    requires
        bottom - 1 <= mid <= top,
    ensures
        sum_even_in_range(bottom, top) == sum_even_in_range(bottom, mid) + sum_even_in_range(
            mid + 1,
            top,
        ),
    decreases top - mid,
{
    if mid < top {
        lemma_sum_splits(bottom, mid, top - 1);
    }
}

/// The sum of the even integers of `[bottom, top]`, in a type wide enough
/// for every pair of 32-bit bounds. It is computed from the closed form, so
/// the cost does not grow with the length of the range.
pub fn wide_even_sum(bottom: i32, top: i32) -> (sum: i64)
    ensures
        sum == sum_even_in_range(bottom as int, top as int),
        bottom > top ==> sum == 0,
{
    proof {
        lemma_enumeration_matches_closed_form(bottom as int, top as int);
    }
    // Both bounds are moved up by 2^31, an even number, so that the two
    // halvings below never see a negative operand.
    let shift: i64 = 0x8000_0000;
    let half_shift: i64 = 0x4000_0000;
    let first: i64 = (bottom as i64 + shift + 1) / 2 - half_shift;
    let last: i64 = (top as i64 + shift) / 2 - half_shift;
    assert(first == first_half(bottom as int));
    assert(last == last_half(top as int));
    if first > last {
        0
    } else {
        let pairs: i64 = first + last;
        let count: i64 = last - first + 1;
        assert(-0x4000_0000_0000_0000 <= pairs * count <= 0x4000_0000_0000_0000)
            by (nonlinear_arith)
            requires
                -0x8000_0000 <= pairs <= 0x8000_0000,
                1 <= count <= 0x8000_0000,
        ;
        pairs * count
    }
}

/// The sum of the even integers of `[bottom, top]`, or `None` exactly when
/// that sum does not fit in an `i32`.
pub fn checked_calculate(bottom: i32, top: i32) -> (sum: Option<i32>)
    ensures
        match sum {
            Some(s) => s == sum_even_in_range(bottom as int, top as int),
            None => !(i32::MIN <= sum_even_in_range(bottom as int, top as int) <= i32::MAX),
        },
        bottom > top ==> sum == Some(0i32),
{
    let wide: i64 = wide_even_sum(bottom, top);
    if -0x8000_0000 <= wide && wide <= 0x7fff_ffff {
        Some(wide as i32)
    } else {
        None
    }
}

/// The sum of the even integers `i` with `bottom <= i <= top`; `0` for a
/// range that is empty or holds only odd numbers.
///
/// Neither bound need be the smaller one: with `bottom > top` the range is
/// empty. The one demand is that the sum itself fits in the result type;
/// sums along the way need not.
pub fn calculate(bottom: i32, top: i32) -> (sum: i32)
    requires
        i32::MIN <= sum_even_in_range(bottom as int, top as int) <= i32::MAX,
    ensures
        sum == sum_even_in_range(bottom as int, top as int),
        bottom > top ==> sum == 0,
{
    let wide: i64 = wide_even_sum(bottom, top);
    wide as i32
}

} // verus!
