//! Truncating integer arithmetic on `i32` operands.
//!
//! Operator results follow the usual machine semantics: addition,
//! subtraction and multiplication wrap into the two's-complement range, and
//! division rounds toward zero with the remainder taking the dividend's
//! sign. The one quotient that overflows (`i32::MIN / -1`) wraps as well.

use vstd::arithmetic::div_mod::{
    lemma_div_basics, lemma_div_is_ordered, lemma_div_is_ordered_by_denominator,
    lemma_div_nonincreasing, lemma_div_of0, lemma_div_pos_is_pos,
    lemma_mod_add_multiples_vanish, lemma_mod_division_less_than_divisor, lemma_small_mod,
};
use vstd::prelude::*;
use vstd::wrapping::i32_specs;

verus! {

/// Absolute value.
pub open spec fn abs_of(n: int) -> int {
    if n >= 0 {
        n
    } else {
        -n
    }
}

/// Quotient of truncating division: the quotient of the magnitudes, negated
/// when the operands' signs differ.
pub open spec fn div_trunc(x: int, y: int) -> int {
    if (x >= 0) == (y >= 0) {
        abs_of(x) / abs_of(y)
    } else {
        -(abs_of(x) / abs_of(y))
    }
}

/// Remainder of truncating division: its sign follows the dividend.
pub open spec fn rem_trunc(x: int, y: int) -> int {
    if x >= 0 {
        abs_of(x) % abs_of(y)
    } else {
        -(abs_of(x) % abs_of(y))
    }
}

/// Wrapping into the `i32` range leaves an in-range value unchanged.
pub proof fn lemma_signed_crop_id(v: int)
    requires
        i32::MIN <= v <= i32::MAX,
    ensures
        i32_specs::signed_crop(v) == v,
{
    if v >= 0 {
        lemma_small_mod(v as nat, 0x1_0000_0000nat);
    } else {
        lemma_mod_add_multiples_vanish(v, 0x1_0000_0000);
        lemma_small_mod((v + 0x1_0000_0000) as nat, 0x1_0000_0000nat);
    }
}

/// `div_trunc` agrees with the sign-by-sign case analysis that the standard
/// library's checked division is specified by.
proof fn lemma_div_cases(x: int, y: int)
    requires
        y != 0,
    ensures
        div_trunc(x, y) == (if x == 0 {
            0int
        } else if x > 0 && y > 0 {
            x / y
        } else if x < 0 && y < 0 {
            (x * -1) / (y * -1)
        } else if x < 0 {
            ((x * -1) / y) * -1
        } else {
            (x / (y * -1)) * -1
        }),
{
    if x == 0 {
        lemma_div_of0(abs_of(y));
    }
}

/// For `i32` operands the truncating quotient leaves the `i32` range only at
/// `i32::MIN / -1`.
proof fn lemma_div_trunc_range(x: int, y: int)
    requires
        i32::MIN <= x <= i32::MAX,
        i32::MIN <= y <= i32::MAX,
        y != 0,
        !(x == i32::MIN && y == -1),
    ensures
        i32::MIN <= div_trunc(x, y) <= i32::MAX,
{
    let a = abs_of(x);
    let b = abs_of(y);
    lemma_div_pos_is_pos(a, b);
    lemma_div_nonincreasing(a, b);
    if (x >= 0) == (y >= 0) {
        if a / b > i32::MAX {
            if b >= 2 {
                lemma_div_is_ordered_by_denominator(a, 2, b);
                lemma_div_is_ordered(a, 0x8000_0000, 2);
                assert(false);
            } else {
                lemma_div_basics(a);
                assert(false);
            }
        }
    }
}

/// Truncating division, the single overflowing quotient wrapped into range.
pub fn div_wrap_i32(x: i32, y: i32) -> (r: i32)
    requires
        y != 0,
    ensures
        r == i32_specs::signed_crop(div_trunc(x as int, y as int)),
{
    proof {
        lemma_div_cases(x as int, y as int);
    }
    match x.checked_div(y) {
        Some(q) => {
            proof {
                lemma_signed_crop_id(q as int);
            }
            q
        },
        None => {
            proof {
                if !(x == i32::MIN && y == -1) {
                    lemma_div_trunc_range(x as int, y as int);
                    assert(false);
                }
                lemma_div_basics(0x8000_0000int);
                lemma_small_mod(0x8000_0000nat, 0x1_0000_0000nat);
            }
            i32::MIN
        },
    }
}

/// `rem_trunc` agrees with the sign-by-sign case analysis that the standard
/// library's checked remainder is specified by.
proof fn lemma_rem_cases(x: int, y: int)
    requires
        y != 0,
    ensures
        rem_trunc(x, y) == (if x == 0 {
            0int
        } else if x > 0 && y > 0 {
            x % y
        } else if x < 0 && y < 0 {
            ((x * -1) % (y * -1)) * -1
        } else if x < 0 {
            ((x * -1) % y) * -1
        } else {
            x % (y * -1)
        }),
{
    if x == 0 {
        lemma_small_mod(0nat, abs_of(y) as nat);
    }
}

/// For `i32` operands the truncating remainder never leaves the `i32` range.
proof fn lemma_rem_trunc_range(x: int, y: int)
    requires
        i32::MIN <= x <= i32::MAX,
        i32::MIN <= y <= i32::MAX,
        y != 0,
    ensures
        i32::MIN <= rem_trunc(x, y) <= i32::MAX,
{
    lemma_mod_division_less_than_divisor(abs_of(x), abs_of(y));
}

/// Truncating remainder; the result is always in range.
pub fn rem_wrap_i32(x: i32, y: i32) -> (r: i32)
    requires
        y != 0,
    ensures
        r == i32_specs::signed_crop(rem_trunc(x as int, y as int)),
{
    proof {
        lemma_rem_cases(x as int, y as int);
        lemma_rem_trunc_range(x as int, y as int);
        lemma_signed_crop_id(rem_trunc(x as int, y as int));
    }
    match x.checked_rem(y) {
        Some(r) => r,
        None => {
            proof {
                lemma_mod_division_less_than_divisor(0x8000_0000int, 1int);
            }
            0
        },
    }
}

} // verus!
