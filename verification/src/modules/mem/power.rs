//! Facts about powers of two and about the buddy of an aligned block.
use vstd::prelude::*;
use vstd::arithmetic::div_mod::{lemma_fundamental_div_mod, lemma_fundamental_div_mod_converse};
use vstd::arithmetic::power2::is_pow2;

verus! {

/// Twice a power of two is a power of two.
pub proof fn lemma_pow2_double(n: int)
    requires
        is_pow2(n),
    ensures
        is_pow2(2 * n),
{
    reveal(is_pow2);
    assert(n > 0);
    assert((2 * n) / 2 == n);
}

/// A power of two above one is even, and its half is a power of two.
pub proof fn lemma_pow2_half(n: int)
    requires
        is_pow2(n),
        n > 1,
    ensures
        n % 2 == 0,
        is_pow2(n / 2),
        2 * (n / 2) == n,
{
    reveal(is_pow2);
}

/// A power of two is positive.
pub proof fn lemma_pow2_positive(n: int)
    requires
        is_pow2(n),
    ensures
        n >= 1,
{
    reveal(is_pow2);
}

/// Of two distinct powers of two, the larger is at least twice the smaller
/// and a multiple of it.
pub proof fn lemma_pow2_ordered(a: int, b: int)
    requires
        is_pow2(a),
        is_pow2(b),
        a < b,
    ensures
        2 * a <= b,
        b % (2 * a) == 0,
        b % a == 0,
    decreases b,
{
    lemma_pow2_positive(a);
    lemma_pow2_half(b);
    if a == 1 {
        assert(b % 2 == 0);
    } else {
        lemma_pow2_half(a);
        let ha = a / 2;
        let hb = b / 2;
        lemma_pow2_ordered(ha, hb);
        lemma_mod_doubled(hb, a);
        lemma_mod_doubled(hb, ha);
    }
}

/// A power of two divides every power of two that is not smaller.
pub proof fn lemma_pow2_divides(a: int, b: int)
    requires
        is_pow2(a),
        is_pow2(b),
        a <= b,
    ensures
        b % a == 0,
{
    lemma_pow2_positive(a);
    if a < b {
        lemma_pow2_ordered(a, b);
    } else {
        vstd::arithmetic::div_mod::lemma_mod_self_0(a);
    }
}

/// The least power of two that is not below `n`.
pub open spec fn next_power_of_two(n: int) -> int
    decreases n,
{
    if n <= 1 {
        1
    } else {
        2 * next_power_of_two((n + 1) / 2)
    }
}

/// `next_power_of_two(n)` is a power of two, is not below `n`, and is below
/// `2 * n` for positive `n`.
pub proof fn lemma_next_power_of_two(n: int)
    ensures
        is_pow2(next_power_of_two(n)),
        next_power_of_two(n) >= n,
        n >= 1 ==> next_power_of_two(n) < 2 * n,
    decreases n,
{
    if n <= 1 {
        reveal(is_pow2);
    } else {
        lemma_next_power_of_two((n + 1) / 2);
        lemma_pow2_double(next_power_of_two((n + 1) / 2));
    }
}

/// No power of two lies between `n` and `next_power_of_two(n)`.
pub proof fn lemma_next_power_of_two_least(n: int, p: int)
    requires
        is_pow2(p),
        p >= n,
    ensures
        next_power_of_two(n) <= p,
    decreases n,
{
    lemma_pow2_positive(p);
    if n > 1 {
        lemma_pow2_half(p);
        lemma_next_power_of_two_least((n + 1) / 2, p / 2);
    }
}

/// A power of two is its own next power of two.
pub proof fn lemma_next_power_of_two_fixed(n: int)
    requires
        is_pow2(n),
    ensures
        next_power_of_two(n) == n,
{
    lemma_next_power_of_two(n);
    lemma_next_power_of_two_least(n, n);
}

/// Doubling both operands of a remainder doubles the remainder.
pub proof fn lemma_mod_doubled(x: int, y: int)
    requires
        0 <= x,
        0 < y,
    ensures
        (2 * x) % (2 * y) == 2 * (x % y),
{
    lemma_fundamental_div_mod(x, y);
    let q = x / y;
    let r = x % y;
    assert(2 * x == q * (2 * y) + 2 * r) by (nonlinear_arith)
        requires
            x == y * q + r,
    ;
    lemma_fundamental_div_mod_converse(2 * x, 2 * y, q, 2 * r);
}

/// A multiple of `b` is a multiple of every divisor `a` of `b`.
pub proof fn lemma_multiple_of_divisor(x: int, a: int, b: int)
    requires
        0 < a,
        0 < b,
        x % b == 0,
        b % a == 0,
    ensures
        x % a == 0,
{
    lemma_fundamental_div_mod(x, b);
    lemma_fundamental_div_mod(b, a);
    let q1 = x / b;
    let q2 = b / a;
    assert(x == (q2 * q1) * a) by (nonlinear_arith)
        requires
            x == b * q1,
            b == a * q2,
    ;
    lemma_fundamental_div_mod_converse(x, a, q2 * q1, 0);
}

/// Adding `a` to a multiple of `a` gives a multiple of `a`.
pub proof fn lemma_multiple_plus(x: int, a: int)
    requires
        0 < a,
        x % a == 0,
    ensures
        (x + a) % a == 0,
{
    vstd::arithmetic::div_mod::lemma_mod_add_multiples_vanish(x, a);
}

/// The address of the buddy of the block of `size` bytes at `address`.
pub open spec fn buddy_address(address: usize, size: usize) -> usize {
    address ^ size
}

proof fn lemma_buddy_address_u64(a: u64, s: u64)
    requires
        is_pow2(s as int),
        a % s == 0,
        a + s <= u64::MAX,
    ensures
        a as int % (2 * s) == 0 ==> a ^ s == a + s,
        a as int % (2 * s) != 0 ==> a >= s && a ^ s == a - s && (a - s) % (2 * s) == 0,
    decreases s,
{
    lemma_pow2_positive(s as int);
    if s == 1 {
        assert(a % 2 == 0 ==> a ^ 1 == a + 1) by (bit_vector);
        assert(a % 2 != 0 ==> a >= 1 && a ^ 1 == a - 1) by (bit_vector);
    } else {
        lemma_pow2_half(s as int);
        let h: u64 = s / 2;
        let b: u64 = a / 2;
        lemma_mod_doubled(b as int, h as int);
        assert(a % 2 == 0 && b % h == 0) by {
            lemma_fundamental_div_mod(a as int, s as int);
            let q = a as int / s as int;
            assert(a == (2 * h) * q);
            assert(a == 2 * (h * q)) by (nonlinear_arith)
                requires
                    a == (2 * h) * q,
            ;
            lemma_fundamental_div_mod_converse(b as int, h as int, q, 0);
        }
        assert(a == 2 * b);
        lemma_buddy_address_u64(b, h);
        lemma_mod_doubled(b as int, 2 * h as int);
        assert(a ^ s == 2 * (b ^ h)) by (bit_vector)
            requires
                a == 2 * b,
                s == 2 * h,
        ;
        if b as int % (2 * h) != 0 {
            lemma_mod_doubled(b as int - h as int, 2 * h as int);
        }
    }
}

/// The buddy of an aligned block lies one block above it where the block
/// starts an aligned pair, and one block below it otherwise; either way the
/// lower of the two starts an aligned pair.
pub proof fn lemma_buddy_address(address: usize, size: usize)
    requires
        is_pow2(size as int),
        address % size == 0,
        address + size <= usize::MAX,
    ensures
        address as int % (2 * size) == 0 ==> buddy_address(address, size) == address + size,
        address as int % (2 * size) != 0 ==> address >= size && buddy_address(address, size)
            == address - size && (address - size) % (2 * size) == 0,
{
    lemma_buddy_address_u64(address as u64, size as u64);
    assert((address ^ size) as u64 == (address as u64) ^ (size as u64));
}

} // verus!
