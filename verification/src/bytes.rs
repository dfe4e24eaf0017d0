//! Integers as bytes, lowest byte first, and as decimal text.

use vstd::prelude::*;

verus! {

/// The lowest `n` bytes of `x`, lowest first.
pub open spec fn le_bytes(x: nat, n: nat) -> Seq<u8>
    decreases n,
{
    if n == 0 {
        Seq::empty()
    } else {
        seq![(x % 256) as u8] + le_bytes(x / 256, (n - 1) as nat)
    }
}

/// The number that bytes hold, lowest first.
pub open spec fn le_value(b: Seq<u8>) -> nat
    decreases b.len(),
{
    if b.len() == 0 {
        0
    } else {
        b[0] as nat + 256 * le_value(b.drop_first())
    }
}

/// One more than the largest number that `n` bytes hold.
pub open spec fn le_limit(n: nat) -> nat
    decreases n,
{
    if n == 0 {
        1
    } else {
        256 * le_limit((n - 1) as nat)
    }
}

/// Bytes give back the number that they were made of.
pub proof fn bytes_give_the_number_back(x: nat, n: nat)
    requires
        x < le_limit(n),
    ensures
        le_bytes(x, n).len() == n,
        le_value(le_bytes(x, n)) == x,
    decreases n,
{
    if n > 0 {
        bytes_give_the_number_back(x / 256, (n - 1) as nat);
        let rest = le_bytes(x / 256, (n - 1) as nat);
        assert(le_bytes(x, n).drop_first() =~= rest);
    }
}

/// How many bytes there are.
pub proof fn lemma_le_len(x: nat, n: nat)
    ensures
        le_bytes(x, n).len() == n,
    decreases n,
{
    if n > 0 {
        lemma_le_len(x / 256, (n - 1) as nat);
    }
}

/// What bytes hold is below the limit of their number.
pub proof fn lemma_le_bound(b: Seq<u8>)
    ensures
        le_value(b) < le_limit(b.len()),
    decreases b.len(),
{
    if b.len() > 0 {
        lemma_le_bound(b.drop_first());
    }
}

/// Limits grow.
proof fn lemma_limit_grows(m: nat, n: nat)
    requires
        m <= n,
    ensures
        le_limit(m) <= le_limit(n),
    decreases n,
{
    if m < n {
        lemma_limit_grows(m, (n - 1) as nat);
    }
}

/// Eight bytes hold any 64-bit number, four any 32-bit number.
pub proof fn lemma_limits()
    ensures
        le_limit(4) == 0x1_0000_0000,
        le_limit(8) == 0x1_0000_0000_0000_0000,
{
    reveal_with_fuel(le_limit, 9);
}

/// Appends the lowest `n` bytes of `x`, lowest first.
pub fn push_le(out: &mut Vec<u8>, x: u64, n: usize)
    ensures
        final(out)@ == old(out)@ + le_bytes(x as nat, n as nat),
{
    let ghost was = out@;
    let mut rest: u64 = x;
    let mut i: usize = 0;
    assert(was + le_bytes(x as nat, n as nat) =~= out@ + le_bytes(rest as nat, n as nat));
    while i < n
        invariant
            i <= n,
            was + le_bytes(x as nat, n as nat) == out@ + le_bytes(rest as nat, (n - i) as nat),
        decreases n - i,
    {
        let low = (rest % 256) as u8;
        let ghost held = out@;
        let ghost tail = le_bytes((rest / 256) as nat, (n - i - 1) as nat);
        out.push(low);
        assert(held + (seq![low] + tail) =~= held.push(low) + tail);
        rest = rest / 256;
        i = i + 1;
    }
    assert(out@ =~= out@ + le_bytes(rest as nat, 0));
}

/// The number that bytes `at..at + n` hold, lowest first.
pub fn read_le(b: &[u8], at: usize, n: usize) -> (v: u64)
    requires
        n <= 8,
        at + n <= b@.len(),
    ensures
        v == le_value(b@.subrange(at as int, at + n)),
{
    let mut v: u64 = 0;
    let len: usize = b.len();
    assert(at + n <= len);
    let mut i: usize = at + n;
    while i > at
        invariant
            at <= i <= at + n,
            n <= 8,
            at + n <= b@.len(),
            v == le_value(b@.subrange(i as int, at + n)),
        decreases i,
    {
        i = i - 1;
        let ghost s = b@.subrange(i as int, at + n);
        proof {
            assert(s.drop_first() =~= b@.subrange(i + 1, at + n));
            lemma_le_bound(s);
            lemma_limit_grows(s.len(), 8);
            lemma_limits();
        }
        v = v * 256 + b[i] as u64;
    }
    v
}

/// The character of a decimal digit.
pub open spec fn digit_char(d: nat) -> char {
    if d == 0 {
        '0'
    } else if d == 1 {
        '1'
    } else if d == 2 {
        '2'
    } else if d == 3 {
        '3'
    } else if d == 4 {
        '4'
    } else if d == 5 {
        '5'
    } else if d == 6 {
        '6'
    } else if d == 7 {
        '7'
    } else if d == 8 {
        '8'
    } else {
        '9'
    }
}

/// The decimal digit that a character is.
pub open spec fn digit_of(c: char) -> Option<nat> {
    if c == '0' {
        Some(0)
    } else if c == '1' {
        Some(1)
    } else if c == '2' {
        Some(2)
    } else if c == '3' {
        Some(3)
    } else if c == '4' {
        Some(4)
    } else if c == '5' {
        Some(5)
    } else if c == '6' {
        Some(6)
    } else if c == '7' {
        Some(7)
    } else if c == '8' {
        Some(8)
    } else if c == '9' {
        Some(9)
    } else {
        None
    }
}

/// A number in decimal, without leading zeros.
pub open spec fn decimal(n: nat) -> Seq<char>
    decreases n,
{
    if n < 10 {
        seq![digit_char(n)]
    } else {
        decimal(n / 10).push(digit_char(n % 10))
    }
}

/// The number that digits spell, if digits are all that there is.
pub open spec fn digits_value(s: Seq<char>) -> Option<nat>
    decreases s.len(),
{
    if s.len() == 0 {
        Some(0)
    } else {
        match (digits_value(s.drop_last()), digit_of(s.last())) {
            (Some(v), Some(d)) => Some(10 * v + d),
            _ => None,
        }
    }
}

/// The digits of a number text: what follows a plus sign, where it starts with one.
pub open spec fn unsigned_part(s: Seq<char>) -> Seq<char> {
    if s.len() > 0 && s[0] == '+' {
        s.drop_first()
    } else {
        s
    }
}

/// The 64-bit number that a text spells: at least one digit, nothing but digits behind an
/// optional plus sign, and within range.
pub open spec fn number_in(s: Seq<char>) -> Option<u64> {
    let d = unsigned_part(s);
    match digits_value(d) {
        Some(v) => if d.len() > 0 && v <= u64::MAX {
            Some(v as u64)
        } else {
            None
        },
        None => None,
    }
}

/// The character of a decimal digit.
fn to_digit_char(d: u64) -> (c: char)
    requires
        d < 10,
    ensures
        c == digit_char(d as nat),
{
    match d {
        0 => '0',
        1 => '1',
        2 => '2',
        3 => '3',
        4 => '4',
        5 => '5',
        6 => '6',
        7 => '7',
        8 => '8',
        _ => '9',
    }
}

/// The decimal digit that a character is.
fn to_digit(c: char) -> (d: Option<u64>)
    ensures
        match digit_of(c) {
            Some(v) => v < 10 && d == Some(v as u64),
            None => d is None,
        },
{
    match c {
        '0' => Some(0),
        '1' => Some(1),
        '2' => Some(2),
        '3' => Some(3),
        '4' => Some(4),
        '5' => Some(5),
        '6' => Some(6),
        '7' => Some(7),
        '8' => Some(8),
        '9' => Some(9),
        _ => None,
    }
}

/// Appends a number in decimal.
pub fn push_decimal(out: &mut String, n: u64)
    ensures
        final(out)@ == old(out)@ + decimal(n as nat),
    decreases n,
{
    if n >= 10 {
        push_decimal(out, n / 10);
    }
    let ghost held = out@;
    out.push(to_digit_char(n % 10));
    assert(out@ =~= old(out)@ + decimal(n as nat));
}

/// The 64-bit number that a text spells.
pub fn parse_number(s: &[char]) -> (n: Option<u64>)
    ensures
        n == number_in(s@),
{
    let start: usize = if s.len() > 0 && s[0] == '+' {
        1
    } else {
        0
    };
    let ghost d = unsigned_part(s@);
    assert(d =~= s@.skip(start as int));
    if s.len() == start {
        return None;
    }
    let mut v: u64 = 0;
    let mut over = false;
    let mut i: usize = start;
    while i < s.len()
        invariant
            start <= i <= s@.len(),
            d == s@.skip(start as int),
            d.len() > 0,
            d == unsigned_part(s@),
            digits_value(d.take(i - start)) is Some,
            over == (digits_value(d.take(i - start))->0 > u64::MAX),
            !over ==> v == digits_value(d.take(i - start))->0,
        decreases s@.len() - i,
    {
        let ghost t = d.take(i - start + 1);
        assert(t.drop_last() =~= d.take(i - start));
        assert(t.last() == s@[i as int]);
        match to_digit(s[i]) {
            None => {
                proof {
                    lemma_bad_digit(d, i - start + 1);
                }
                return None;
            },
            Some(x) => {
                if !over {
                    if v > (u64::MAX - x) / 10 {
                        over = true;
                    } else {
                        v = v * 10 + x;
                    }
                }
            },
        }
        i = i + 1;
    }
    assert(d.take(s@.len() - start) =~= d);
    if over {
        None
    } else {
        Some(v)
    }
}

/// A character that is no digit spoils what follows.
proof fn lemma_bad_digit(s: Seq<char>, k: int)
    requires
        0 <= k <= s.len(),
        digits_value(s.take(k)) is None,
    ensures
        digits_value(s) is None,
    decreases s.len() - k,
{
    if k == s.len() {
        assert(s.take(k) =~= s);
    } else {
        assert(s.take(k + 1).drop_last() =~= s.take(k));
        lemma_bad_digit(s, k + 1);
    }
}

/// A number in decimal consists of digits, and they spell it.
proof fn lemma_decimal_digits(n: nat)
    ensures
        digits_value(decimal(n)) == Some(n),
        decimal(n).len() > 0,
        decimal(n)[0] != '+',
    decreases n,
{
    let s = decimal(n);
    if n < 10 {
        reveal_with_fuel(digits_value, 2);
    } else {
        lemma_decimal_digits(n / 10);
        assert(s.drop_last() =~= decimal(n / 10));
    }
}

/// A number written in decimal reads back as itself.
pub proof fn decimals_read_back(n: u64)
    ensures
        number_in(decimal(n as nat)) == Some(n),
{
    lemma_decimal_digits(n as nat);
}

} // verus!
