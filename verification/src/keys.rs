//! Integers that stand for floats where only their order matters.

use vstd::prelude::*;

verus! {

/// The sign bit of a float.
pub const SIGN: u32 = 0x8000_0000;

/// The sign bit of a double.
pub const WIDE_SIGN: u64 = 0x8000_0000_0000_0000;

/// The integer that orders a float by value: both zeros are one.
pub open spec fn value_key(bits: u32) -> int {
    if bits < SIGN {
        bits as int
    } else {
        -(bits - SIGN)
    }
}

/// The integer that orders a float totally: the negative zero comes before the positive one.
pub open spec fn total_key(bits: u32) -> int {
    if bits < SIGN {
        bits as int
    } else {
        -(bits - SIGN) - 1
    }
}

/// The integer that orders a double totally.
pub open spec fn wide_key(bits: u64) -> int {
    if bits < WIDE_SIGN {
        bits as int
    } else {
        -(bits - WIDE_SIGN) - 1
    }
}

/// The integer that orders a float by value.
pub fn key_of_value(bits: u32) -> (k: i32)
    ensures
        k == value_key(bits),
{
    if bits < SIGN {
        bits as i32
    } else {
        -((bits - SIGN) as i32)
    }
}

/// The integer that orders a float totally.
pub fn key_of_total(bits: u32) -> (k: i32)
    ensures
        k == total_key(bits),
{
    if bits < SIGN {
        bits as i32
    } else {
        -((bits - SIGN) as i32) - 1
    }
}

/// The integer that orders a double totally.
pub fn key_of_wide(bits: u64) -> (k: i64)
    ensures
        k == wide_key(bits),
{
    if bits < WIDE_SIGN {
        bits as i64
    } else {
        -((bits - WIDE_SIGN) as i64) - 1
    }
}

/// The float with a given place in the total order.
pub fn bits_of_total(key: i32) -> (bits: u32)
    ensures
        total_key(bits) == key,
{
    if key >= 0 {
        key as u32
    } else {
        (-(key + 1)) as u32 + SIGN
    }
}

/// Different floats have different places in the total order.
pub proof fn total_keys_differ(a: u32, b: u32)
    requires
        a != b,
    ensures
        total_key(a) != total_key(b),
{
}

/// The total order refines the order by value.
pub proof fn total_order_keeps_values_in_order(a: u32, b: u32)
    requires
        value_key(a) < value_key(b),
    ensures
        total_key(a) < total_key(b),
{
}

/// Keys order as the numbers do that the bits stand for: a positive number by its bits, a
/// negative one against them, every negative one before every positive one, and both zeros
/// alike by value.
pub proof fn keys_order_as_numbers_do(a: u32, b: u32)
    ensures
        a < 0x8000_0000 && b < 0x8000_0000 ==> (a < b <==> value_key(a) < value_key(b)) && (a < b
            <==> total_key(a) < total_key(b)),
        a >= 0x8000_0000 && b >= 0x8000_0000 ==> (a < b <==> value_key(a) > value_key(b)) && (a < b
            <==> total_key(a) > total_key(b)),
        a >= 0x8000_0000 && b < 0x8000_0000 ==> value_key(a) <= value_key(b) && total_key(a)
            < total_key(b),
        value_key(0) == value_key(0x8000_0000),
{
}

/// The same of doubles.
pub proof fn wide_keys_order_as_numbers_do(a: u64, b: u64)
    ensures
        a < 0x8000_0000_0000_0000 && b < 0x8000_0000_0000_0000 ==> (a < b <==> wide_key(a)
            < wide_key(b)),
        a >= 0x8000_0000_0000_0000 && b >= 0x8000_0000_0000_0000 ==> (a < b <==> wide_key(a)
            > wide_key(b)),
        a >= 0x8000_0000_0000_0000 && b < 0x8000_0000_0000_0000 ==> wide_key(a) < wide_key(b),
{
}

} // verus!
