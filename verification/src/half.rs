//! Numbers as shaders read them: halves of 16 bits, and four bytes in a word.
//!
//! A 32-bit float enters as its bit pattern.

use vstd::prelude::*;
use crate::view::{surface_code, SurfaceKind};

verus! {

/// The largest finite half.
pub const HALF_MAX: u32 = 0x7bff;

/// A half that is no number.
pub const HALF_NAN: u32 = 0x7e00;

/// Two to the power of `k`.
pub open spec fn two_to(k: nat) -> nat
    decreases k,
{
    if k == 0 {
        1
    } else {
        2 * two_to((k - 1) as nat)
    }
}

/// `x` without its lowest `k` bits, rounded half up.
pub open spec fn rounded(x: nat, k: nat) -> nat {
    (x + two_to((k - 1) as nat)) / two_to(k)
}

/// The exponent field of a float.
pub open spec fn exponent(bits: u32) -> nat {
    (bits as nat / 0x80_0000) % 0x100
}

/// The fraction field of a float.
pub open spec fn fraction(bits: u32) -> nat {
    bits as nat % 0x80_0000
}

/// A float is no number.
pub open spec fn is_nan(bits: u32) -> bool {
    exponent(bits) == 0xff && fraction(bits) != 0
}

/// The smaller of two numbers.
pub open spec fn at_most(a: nat, b: nat) -> nat {
    if a <= b {
        a
    } else {
        b
    }
}

/// The half nearest to a float, its sign aside: rounded half up, at most the largest finite
/// half, and no number only where the float is none.
pub open spec fn half_magnitude(bits: u32) -> nat {
    let e = exponent(bits);
    let f = fraction(bits);
    if e == 0xff {
        if f != 0 {
            HALF_NAN as nat
        } else {
            HALF_MAX as nat
        }
    } else if e >= 143 {
        HALF_MAX as nat
    } else if e >= 113 {
        at_most(rounded(((e - 112) * 0x80_0000 + f) as nat, 13), HALF_MAX as nat)
    } else if e >= 102 {
        rounded(0x80_0000 + f, (126 - e) as nat)
    } else {
        0
    }
}

/// The half nearest to a float.
pub open spec fn half_of(bits: u32) -> nat {
    (if bits >= 0x8000_0000 {
        0x8000nat
    } else {
        0nat
    }) + half_magnitude(bits)
}

/// Powers of two grow.
proof fn lemma_two_to_grows(a: nat, b: nat)
    requires
        a <= b,
    ensures
        two_to(a) <= two_to(b),
        two_to(a) >= 1,
    decreases b,
{
    if a < b {
        lemma_two_to_grows(a, (b - 1) as nat);
    } else if a > 0 {
        lemma_two_to_grows((a - 1) as nat, (b - 1) as nat);
    }
}

/// The powers of two that halves need.
proof fn lemma_powers()
    ensures
        two_to(10) == 0x400,
        two_to(12) == 0x1000,
        two_to(13) == 0x2000,
        two_to(14) == 0x4000,
        two_to(23) == 0x80_0000,
        two_to(24) == 0x100_0000,
{
    reveal_with_fuel(two_to, 25);
}

/// A float below the normal halves rounds to at most the smallest of them.
proof fn lemma_small_half(f: nat, k: nat)
    requires
        f < 0x80_0000,
        14 <= k <= 24,
    ensures
        rounded(0x80_0000 + f, k) <= 0x400,
        two_to((k - 1) as nat) <= 0x80_0000,
{
    lemma_powers();
    lemma_two_to_grows((k - 1) as nat, 23);
    lemma_two_to_grows(14, k);
    let p = two_to(k);
    let h = two_to((k - 1) as nat);
    assert(p == 2 * h);
    assert((0x80_0000 + f + h) / p <= 0x400) by (nonlinear_arith)
        requires
            p >= 0x4000,
            p == 2 * h,
            f < 0x80_0000,
    ;
}

/// The half nearest to a float, by its bits: rounded half up, and at most the largest finite
/// half rather than infinite.
pub fn f16_bits(bits: u32) -> (h: u16)
    ensures
        h == half_of(bits),
{
    let sign: u32 = if bits >= 0x8000_0000 {
        0x8000
    } else {
        0
    };
    let e: u32 = (bits / 0x80_0000) % 0x100;
    let f: u32 = bits % 0x80_0000;
    proof {
        lemma_powers();
    }
    let m: u32 = if e == 0xff {
        if f != 0 {
            HALF_NAN
        } else {
            HALF_MAX
        }
    } else if e >= 143 {
        HALF_MAX
    } else if e >= 113 {
        let r: u32 = ((e - 112) * 0x80_0000 + f + 0x1000) / 0x2000;
        if r <= HALF_MAX {
            r
        } else {
            HALF_MAX
        }
    } else if e >= 102 {
        proof {
            lemma_small_half(f as nat, (126 - e) as nat);
        }
        ((0x80_0000 + f as u64 + power_of_two(125 - e)) / power_of_two(126 - e)) as u32
    } else {
        0
    };
    (sign + m) as u16
}

/// Two floats as halves in one word, the first in the lower half.
pub fn pack_half2(x: u32, y: u32) -> (w: u32)
    ensures
        w == half_of(x) + 0x1_0000 * half_of(y),
{
    f16_bits(x) as u32 + 0x1_0000 * f16_bits(y) as u32
}

/// Four bytes in one word, the first lowest.
pub fn pack_bytes(a: u8, b: u8, c: u8, d: u8) -> (w: u32)
    ensures
        w == a + 0x100 * b + 0x1_0000 * c + 0x100_0000 * d,
{
    a as u32 + 0x100 * b as u32 + 0x1_0000 * c as u32 + 0x100_0000 * d as u32
}

/// `x` without its lowest `k` bits, rounded to the nearest, half to the even one, as products
/// of floats are.
pub open spec fn rounded_even(x: nat, k: nat) -> nat {
    let whole = x / two_to(k);
    let rest = x % two_to(k);
    let half = two_to((k - 1) as nat);
    if rest > half || (rest == half && whole % 2 == 1) {
        whole + 1
    } else {
        whole
    }
}

/// How many of the lowest bits of 255 times the fraction `m` a float has no room for.
pub open spec fn spare_bits(m: nat) -> nat {
    if 255 * m < 0x8000_0000 {
        7
    } else {
        8
    }
}

/// The byte that stands for a float from zero to one: 255 times the float, rounded as floats
/// are, then to the nearest whole number. What is below zero becomes zero, what is above one
/// 255, and what is no number zero.
pub open spec fn unorm_of(bits: u32) -> nat {
    let e = exponent(bits);
    if bits >= 0x8000_0000 || is_nan(bits) || e < 118 {
        0
    } else if e >= 127 {
        255
    } else {
        let m = 0x80_0000 + fraction(bits);
        let k = spare_bits(m);
        rounded(rounded_even(255 * m, k) * two_to(k), (150 - e) as nat)
    }
}

/// The powers of two that bytes need.
proof fn lemma_wide_powers()
    ensures
        two_to(6) == 0x40,
        two_to(7) == 0x80,
        two_to(8) == 0x100,
        two_to(23) == 0x80_0000,
        two_to(32) == 0x1_0000_0000,
{
    reveal_with_fuel(two_to, 33);
}

/// Two to the power of `k`.
fn power_of_two(k: u32) -> (p: u64)
    requires
        k <= 32,
    ensures
        p == two_to(k as nat),
        p > 0,
{
    let mut p: u64 = 1;
    let mut i: u32 = 0;
    while i < k
        invariant
            i <= k <= 32,
            p == two_to(i as nat),
            p > 0,
        decreases k - i,
    {
        proof {
            lemma_two_to_grows((i + 1) as nat, 32);
            lemma_wide_powers();
        }
        p = p * 2;
        i = i + 1;
    }
    p
}

/// A byte is what comes out.
proof fn lemma_unorm_fits(q: nat, e: nat)
    requires
        118 <= e <= 126,
        q <= 0xff00_0000,
    ensures
        rounded(q, (150 - e) as nat) <= 255,
        two_to((149 - e) as nat) <= 0x8000_0000,
        two_to((150 - e) as nat) >= 1,
{
    lemma_wide_powers();
    lemma_powers();
    lemma_two_to_grows((149 - e) as nat, 31);
    reveal_with_fuel(two_to, 33);
    lemma_two_to_grows(24, (150 - e) as nat);
    let p = two_to((150 - e) as nat);
    let h = two_to((149 - e) as nat);
    assert(p == 2 * h);
    assert((q + h) / p <= 255) by (nonlinear_arith)
        requires
            p == 2 * h,
            p >= 0x100_0000,
            q <= 0xff00_0000,
    ;
}

/// The byte that stands for a float from zero to one, by its bits.
pub fn unorm_byte(bits: u32) -> (b: u8)
    ensures
        b == unorm_of(bits),
{
    let e: u32 = (bits / 0x80_0000) % 0x100;
    let f: u32 = bits % 0x80_0000;
    if bits >= 0x8000_0000 || (e == 0xff && f != 0) || e < 118 {
        return 0;
    }
    if e >= 127 {
        return 255;
    }
    proof {
        lemma_wide_powers();
    }
    let p: u64 = 255 * (0x80_0000 + f as u64);
    let q: u64 = if p < 0x8000_0000 {
        let whole = p / 0x80;
        let rest = p % 0x80;
        if rest > 0x40 || (rest == 0x40 && whole % 2 == 1) {
            (whole + 1) * 0x80
        } else {
            whole * 0x80
        }
    } else {
        let whole = p / 0x100;
        let rest = p % 0x100;
        if rest > 0x80 || (rest == 0x80 && whole % 2 == 1) {
            (whole + 1) * 0x100
        } else {
            whole * 0x100
        }
    };
    proof {
        let m = (0x80_0000 + f) as nat;
        assert(q == rounded_even(255 * m, spare_bits(m)) * two_to(spare_bits(m)));
        lemma_unorm_fits(q as nat, e as nat);
    }
    ((q + power_of_two(149 - e)) / power_of_two(150 - e)) as u8
}

/// Four floats from zero to one as bytes in one word, the first lowest.
pub fn pack_unorm4(x: u32, y: u32, z: u32, w: u32) -> (r: u32)
    ensures
        r == unorm_of(x) + 0x100 * unorm_of(y) + 0x1_0000 * unorm_of(z) + 0x100_0000 * unorm_of(w),
{
    pack_bytes(unorm_byte(x), unorm_byte(y), unorm_byte(z), unorm_byte(w))
}

/// The material word of a cell: surface, depth, ice.
pub fn pack_material(kind: SurfaceKind, depth: u32, ice: u32) -> (w: u32)
    ensures
        w == surface_code(kind) + 0x100 * unorm_of(depth) + 0x1_0000 * unorm_of(ice),
{
    pack_bytes(kind.code(), unorm_byte(depth), unorm_byte(ice), 0)
}

/// Only what is no number becomes no number, and nothing becomes infinite.
pub proof fn halves_stay_finite(bits: u32)
    ensures
        is_nan(bits) ==> half_magnitude(bits) == HALF_NAN,
        !is_nan(bits) ==> half_magnitude(bits) <= HALF_MAX,
{
    let e = exponent(bits);
    if 102 <= e < 113 {
        lemma_small_half(fraction(bits), (126 - e) as nat);
    }
}

/// What rounding one more bit away gives of no smaller a number is no smaller.
proof fn lemma_rounded_orders(x: nat, y: nat, k: nat)
    requires
        x <= y,
        k > 0,
    ensures
        rounded(x, k) <= rounded(y, k),
{
    lemma_two_to_grows(0, k);
    vstd::arithmetic::div_mod::lemma_div_is_ordered(
        (x + two_to((k - 1) as nat)) as int,
        (y + two_to((k - 1) as nat)) as int,
        two_to(k) as int,
    );
}

/// A float with a smaller exponent below the normal halves rounds to no larger a half.
proof fn lemma_subnormal_orders(f: nat, g: nat, j: nat, k: nat)
    requires
        f < 0x80_0000,
        j > k,
        14 <= k,
    ensures
        rounded(0x80_0000 + f, j) <= rounded(0x80_0000 + g, k),
{
    lemma_two_to_grows((k + 1) as nat, j);
    lemma_two_to_grows(0, k);
    let p = two_to(k);
    let q = two_to(j);
    assert(q >= 2 * p);
    let x = (0x80_0000 + f) as int;
    let y = (0x80_0000 + g) as int;
    assert(x <= 2 * y);
    let hq = two_to((j - 1) as nat) as int;
    let hp = two_to((k - 1) as nat) as int;
    assert(q == 2 * hq && p == 2 * hp);
    let r = rounded(0x80_0000 + g, k) as int;
    assert(y + hp < (r + 1) * p) by (nonlinear_arith)
        requires
            r == (y + hp) / (p as int),
            p >= 1,
    ;
    assert((x + hq) / (q as int) < r + 1) by (nonlinear_arith)
        requires
            y + hp < (r + 1) * p,
            x <= 2 * y,
            q >= 2 * p,
            q == 2 * hq,
            p == 2 * hp,
            p >= 1,
            y >= 0,
            hp >= 0,
    ;
}

/// Rounding keeps the order: of two floats of one sign that are numbers, the smaller becomes
/// no larger a half.
pub proof fn halves_keep_the_order(a: u32, b: u32)
    requires
        a <= b < 0x8000_0000,
        !is_nan(b),
    ensures
        half_of(a) <= half_of(b),
{
    let ea = exponent(a);
    let eb = exponent(b);
    let fa = fraction(a);
    let fb = fraction(b);
    assert(ea <= eb);
    assert(ea == eb ==> fa <= fb);
    halves_stay_finite(a);
    halves_stay_finite(b);
    lemma_powers();
    if eb >= 143 {
    } else if eb >= 113 {
        if ea >= 113 {
            lemma_rounded_orders(
                ((ea - 112) * 0x80_0000 + fa) as nat,
                ((eb - 112) * 0x80_0000 + fb) as nat,
                13,
            );
        } else if ea >= 102 {
            lemma_small_half(fa, (126 - ea) as nat);
        }
    } else if eb >= 102 {
        if ea == eb {
            lemma_rounded_orders(0x80_0000 + fa, 0x80_0000 + fb, (126 - eb) as nat);
        } else if ea >= 102 {
            lemma_subnormal_orders(fa, fb, (126 - ea) as nat, (126 - eb) as nat);
        }
    }
}

/// Rounding is to the nearest: what comes out lies within half a step of what went in.
proof fn lemma_rounded_near(x: nat, k: nat)
    requires
        k > 0,
    ensures
        rounded(x, k) * two_to(k) <= x + two_to((k - 1) as nat),
        x + two_to((k - 1) as nat) < (rounded(x, k) + 1) * two_to(k),
        two_to(k) == 2 * two_to((k - 1) as nat),
        two_to(k) >= 1,
{
    lemma_two_to_grows(0, k);
    let p = two_to(k);
    let y = x + two_to((k - 1) as nat);
    assert((y / p) * p <= y && y < (y / p + 1) * p) by (nonlinear_arith)
        requires
            p >= 1,
    ;
}

/// A half is the nearest there is: in steps of a normal half, which are 8192 of the float's, it
/// lies within half a step of the float, unless the float is beyond the largest half. The sign
/// goes over as it is.
pub proof fn halves_are_nearest(bits: u32)
    requires
        113 <= exponent(bits) < 143,
    ensures
        ({
            let v = (exponent(bits) - 112) * 0x80_0000 + fraction(bits);
            let h = half_magnitude(bits);
            &&& 8192 * h <= v + 4096
            &&& h == 0x7bff || v < 8192 * h + 4096
        }),
{
    let v = ((exponent(bits) - 112) * 0x80_0000 + fraction(bits)) as nat;
    lemma_powers();
    lemma_rounded_near(v, 13);
}

/// Small floats become the nearest of the halves below the normal ones, and smaller ones zero.
pub proof fn small_halves_are_nearest(bits: u32)
    ensures
        exponent(bits) < 102 ==> half_magnitude(bits) == 0,
        102 <= exponent(bits) < 113 ==> {
            let step = two_to((126 - exponent(bits)) as nat);
            let v = 0x80_0000 + fraction(bits);
            &&& 2 * (half_magnitude(bits) * step) <= 2 * v + step
            &&& 2 * v < 2 * (half_magnitude(bits) * step) + step
        },
{
    if 102 <= exponent(bits) < 113 {
        let k = (126 - exponent(bits)) as nat;
        let x = 0x80_0000 + fraction(bits);
        lemma_rounded_near(x, k);
        let (h, p) = (half_magnitude(bits) as int, two_to(k) as int);
        assert((h + 1) * p == h * p + p) by (nonlinear_arith);
    }
}

/// The sign of a float is that of its half, and changes nothing else.
pub proof fn halves_keep_the_sign(bits: u32)
    requires
        bits < 0x8000_0000,
    ensures
        half_of(bits) == half_magnitude(bits),
        half_of((bits + 0x8000_0000) as u32) == 0x8000 + half_of(bits),
        half_of(bits) < 0x8000,
{
    let neg = (bits + 0x8000_0000) as u32;
    assert(neg as nat / 0x80_0000 == bits as nat / 0x80_0000 + 0x100);
    assert(exponent(neg) == exponent(bits));
    assert(fraction(neg) == fraction(bits));
    halves_stay_finite(bits);
}

/// A half has sixteen bits.
pub proof fn halves_fit_sixteen_bits(bits: u32)
    ensures
        half_of(bits) < 0x1_0000,
{
    halves_stay_finite(bits);
}

/// Rounding to the even neighbour stays within half a step.
proof fn lemma_even_near(x: nat, k: nat)
    requires
        k > 0,
    ensures
        rounded_even(x, k) * two_to(k) <= x + two_to((k - 1) as nat),
        x <= rounded_even(x, k) * two_to(k) + two_to((k - 1) as nat),
{
    lemma_two_to_grows(0, k);
    let p = two_to(k);
    let (q, r) = (x / p, x % p);
    assert(p == 2 * two_to((k - 1) as nat));
    assert(x == q * p + r && r < p) by (nonlinear_arith)
        requires
            p >= 1,
            q == x / p,
            r == x % p,
    ;
    assert((q + 1) * p == q * p + p) by (nonlinear_arith);
}

/// A byte for a float from zero to one is the nearest of the 256: what is not above zero, and
/// what is no number, is 0, what reaches one 255, and between them the byte lies within half a
/// step of 255 times the float, and a hair more for the rounding of the product.
pub proof fn bytes_are_nearest(bits: u32)
    ensures
        unorm_of(bits) <= 255,
        bits >= 0x8000_0000 || is_nan(bits) ==> unorm_of(bits) == 0,
        bits < 0x8000_0000 && !is_nan(bits) && exponent(bits) >= 127 ==> unorm_of(bits) == 255,
        bits < 0x8000_0000 && 118 <= exponent(bits) < 127 ==> {
            let step = two_to((150 - exponent(bits)) as nat);
            let v = 255 * (0x80_0000 + fraction(bits));
            &&& 2 * (unorm_of(bits) * step) <= 2 * v + step + 256
            &&& 2 * v <= 2 * (unorm_of(bits) * step) + step + 256
        },
        exponent(bits) < 118 ==> unorm_of(bits) == 0,
{
    let e = exponent(bits);
    if bits < 0x8000_0000 && 118 <= e < 127 {
        let m = 0x80_0000 + fraction(bits);
        let k = spare_bits(m);
        lemma_wide_powers();
        lemma_even_near(255 * m, k);
        let q = rounded_even(255 * m, k) * two_to(k);
        assert(two_to((k - 1) as nat) <= 0x80);
        assert(q <= 0xff00_0000) by {
            assert(255 * m <= 255 * 0xff_ffff);
            if k == 8 {
                let w = rounded_even(255 * m, k);
                assert(w * 0x100 <= 255 * 0xff_ffff + 0x80);
                assert(w <= 0xff_0000);
            }
        }
        lemma_unorm_fits(q, e);
        lemma_rounded_near(q, (150 - e) as nat);
        let (u, p) = (unorm_of(bits) as int, two_to((150 - e) as nat) as int);
        assert((u + 1) * p == u * p + p) by (nonlinear_arith);
    }
}

} // verus!
