//! When powers of two small numbers can be equal.
//!
//! A rule file does not say how many states its table is for: the number is
//! read off the length of the table. That reading is right where no smaller
//! number of states has a table of the same length, which is a question about
//! equal powers. It is answered here for the numbers of states below thirty.
use crate::digits::{lemma_pow_monotone, lemma_pow_step};
use vstd::arithmetic::div_mod::*;
use vstd::arithmetic::mul::*;
use vstd::arithmetic::power::*;
use vstd::prelude::*;

verus! {

/// A number whose square is even is even.
proof fn lemma_even_square(y: int)
    requires
        (y * y) % 2 == 0,
    ensures
        y % 2 == 0,
{
    if y % 2 != 0 {
        let q = y / 2;
        assert(y == 2 * q + 1);
        assert(y * y == 2 * (2 * (q * q) + 2 * q) + 1) by (nonlinear_arith)
            requires
                y == 2 * q + 1,
        ;
    }
}

/// A number whose square is a multiple of three is a multiple of three.
proof fn lemma_square_multiple_of_three(y: int)
    requires
        (y * y) % 3 == 0,
    ensures
        y % 3 == 0,
{
    let q = y / 3;
    if y % 3 == 1 {
        assert(y * y == 3 * (3 * (q * q) + 2 * q) + 1) by (nonlinear_arith)
            requires
                y == 3 * q + 1,
        ;
    } else if y % 3 == 2 {
        assert(y * y == 3 * (3 * (q * q) + 4 * q + 1) + 1) by (nonlinear_arith)
            requires
                y == 3 * q + 2,
        ;
    }
}

/// No square is twice, three times or six times a positive square: the
/// square roots of 2, 3 and 6 are no fractions.
pub proof fn lemma_no_square_ratio(c: int, x: int, y: int)
    requires
        c == 2 || c == 3 || c == 6,
        x >= 1,
    ensures
        y * y != c * (x * x),
    decreases x,
{
    if y * y == c * (x * x) {
        if c == 3 {
            // Both are multiples of three, and their thirds are a smaller pair.
            lemma_square_multiple_of_three(y);
            let a = y / 3;
            assert(x * x == 3 * (a * a)) by (nonlinear_arith)
                requires
                    y == 3 * a,
                    y * y == 3 * (x * x),
            ;
            lemma_square_multiple_of_three(x);
            let b = x / 3;
            assert(a * a == 3 * (b * b)) by (nonlinear_arith)
                requires
                    x == 3 * b,
                    x * x == 3 * (a * a),
            ;
            lemma_no_square_ratio(3, b, a);
        } else {
            // Both are even, and their halves are a smaller pair.
            lemma_even_square(y);
            let a = y / 2;
            let half = c / 2;
            assert(2 * (a * a) == half * (x * x)) by (nonlinear_arith)
                requires
                    y == 2 * a,
                    y * y == c * (x * x),
                    c == 2 * half,
            ;
            assert((x * x) % 2 == 0) by {
                if c == 6 {
                    assert((3 * (x * x)) % 2 == 0);
                }
            }
            lemma_even_square(x);
            let b = x / 2;
            assert(a * a == c * (b * b)) by (nonlinear_arith)
                requires
                    x == 2 * b,
                    2 * (a * a) == half * (x * x),
                    c == 2 * half,
            ;
            lemma_no_square_ratio(c, b, a);
        }
    }
}

/// A power of a multiple of `p`, with an exponent of at least one, is a
/// multiple of `p`.
pub proof fn lemma_pow_multiple(s: int, p: int, e: nat)
    requires
        p > 0,
        s % p == 0,
        e >= 1,
    ensures
        pow(s, e) % p == 0,
{
    let rest = pow(s, (e - 1) as nat);
    let q = s / p;
    lemma_pow_step(s, (e - 1) as nat);
    lemma_fundamental_div_mod(s, p);
    assert(s * rest == (q * rest) * p) by (nonlinear_arith)
        requires
            s == p * q,
    ;
    lemma_mod_multiples_basic(q * rest, p);
}

/// `p` is one of the primes below thirty.
pub open spec fn is_small_prime(p: int) -> bool {
    p == 2 || p == 3 || p == 5 || p == 7 || p == 11 || p == 13 || p == 17 || p == 19 || p == 23
        || p == 29
}

/// The product of two numbers that are no multiples of a prime below thirty
/// is none either.
proof fn lemma_small_prime(p: int, a: int, b: int)
    requires
        is_small_prime(p),
        0 < a < p,
        0 < b < p,
    ensures
        (a * b) % p != 0,
{
    if p == 2 {
        assert((a * b) % 2 != 0) by (nonlinear_arith)
            requires
                0 < a < 2,
                0 < b < 2,
        ;
    } else if p == 3 {
        assert((a * b) % 3 != 0) by (nonlinear_arith)
            requires
                0 < a < 3,
                0 < b < 3,
        ;
    } else if p == 5 {
        assert((a * b) % 5 != 0) by (nonlinear_arith)
            requires
                0 < a < 5,
                0 < b < 5,
        ;
    } else if p == 7 {
        assert((a * b) % 7 != 0) by (nonlinear_arith)
            requires
                0 < a < 7,
                0 < b < 7,
        ;
    } else if p == 11 {
        assert((a * b) % 11 != 0) by (nonlinear_arith)
            requires
                0 < a < 11,
                0 < b < 11,
        ;
    } else if p == 13 {
        assert((a * b) % 13 != 0) by (nonlinear_arith)
            requires
                0 < a < 13,
                0 < b < 13,
        ;
    } else if p == 17 {
        assert((a * b) % 17 != 0) by (nonlinear_arith)
            requires
                0 < a < 17,
                0 < b < 17,
        ;
    } else if p == 19 {
        assert((a * b) % 19 != 0) by (nonlinear_arith)
            requires
                0 < a < 19,
                0 < b < 19,
        ;
    } else if p == 23 {
        assert((a * b) % 23 != 0) by (nonlinear_arith)
            requires
                0 < a < 23,
                0 < b < 23,
        ;
    } else {
        assert((a * b) % 29 != 0) by (nonlinear_arith)
            requires
                0 < a < 29,
                0 < b < 29,
        ;
    }
}

/// No power of a number that is no multiple of a prime below thirty is a
/// multiple of it.
pub proof fn lemma_pow_no_multiple(s: int, p: int, e: nat)
    requires
        is_small_prime(p),
        s % p != 0,
    ensures
        pow(s, e) % p != 0,
    decreases e,
{
    if e == 0 {
        lemma_pow0(s);
        lemma_small_mod(1, p as nat);
    } else {
        let rest = pow(s, (e - 1) as nat);
        lemma_pow_no_multiple(s, p, (e - 1) as nat);
        lemma_pow_step(s, (e - 1) as nat);
        lemma_mul_mod_noop_general(s, rest, p);
        lemma_mod_bound(s, p);
        lemma_mod_bound(rest, p);
        lemma_small_prime(p, s % p, rest % p);
    }
}

/// Equal powers of a base of at least two have equal exponents.
pub proof fn lemma_pow_exponent(base: int, x: nat, y: nat)
    requires
        base >= 2,
        pow(base, x) == pow(base, y),
    ensures
        x == y,
{
    if x < y {
        lemma_pow_strictly_increases(base as nat, x, y);
    } else if y < x {
        lemma_pow_strictly_increases(base as nat, y, x);
    }
}

/// The small powers of 2, 3, 5 and 7.
proof fn lemma_small_powers()
    ensures
        pow(2, 1) == 2,
        pow(2, 2) == 4,
        pow(2, 3) == 8,
        pow(3, 1) == 3,
        pow(3, 2) == 9,
        pow(3, 3) == 27,
        pow(5, 1) == 5,
        pow(5, 2) == 25,
        pow(7, 1) == 7,
{
    lemma_pow1(2);
    lemma_pow1(3);
    lemma_pow1(5);
    lemma_pow1(7);
    lemma_pow_step(2, 1);
    lemma_pow_step(2, 2);
    lemma_pow_step(3, 1);
    lemma_pow_step(3, 2);
    lemma_pow_step(5, 1);
}

/// A power of two times a power of an odd prime is even only by its power
/// of two: with a smaller power of two on the left, the two sides differ.
proof fn lemma_more_twos(q: int, x: nat, y: nat, x2: nat, y2: nat)
    requires
        q == 3 || q == 5 || q == 7,
        x < x2,
    ensures
        pow(2, x) * pow(q, y) != pow(2, x2) * pow(q, y2),
{
    let d = (x2 - x) as nat;
    let low = pow(2, x);
    let left = pow(q, y);
    let right = pow(q, y2);
    let more = pow(2, d);
    lemma_pow_adds(2, x, d);
    lemma_pow_positive(2, x);
    if low * left == pow(2, x2) * right {
        assert(low * left == low * (more * right)) by (nonlinear_arith)
            requires
                low * left == (low * more) * right,
        ;
        lemma_mul_equality_converse(low, left, more * right);
        lemma_pow_multiple(2, 2, d);
        let t = more / 2;
        assert(more * right == (t * right) * 2) by (nonlinear_arith)
            requires
                more == 2 * t,
        ;
        lemma_mod_multiples_basic(t * right, 2);
        lemma_pow_no_multiple(q, 2, y);
    }
}

/// A number is a power of two times a power of an odd prime in one way only.
pub proof fn lemma_two_primes(q: int, x: nat, y: nat, x2: nat, y2: nat)
    requires
        q == 3 || q == 5 || q == 7,
        pow(2, x) * pow(q, y) == pow(2, x2) * pow(q, y2),
    ensures
        x == x2,
        y == y2,
{
    if x < x2 {
        lemma_more_twos(q, x, y, x2, y2);
    } else if x2 < x {
        lemma_more_twos(q, x2, y2, x, y);
    } else {
        lemma_pow_positive(2, x);
        lemma_mul_equality_converse(pow(2, x), pow(q, y), pow(q, y2));
        lemma_pow_exponent(q, y, y2);
    }
}

/// Where powers of two numbers of the shape `2^i * q^j` are equal, the
/// exponents of 2 and of `q` are equal on both sides.
proof fn lemma_family(q: int, i: nat, j: nat, i2: nat, j2: nat, a: nat, b: nat)
    requires
        q == 3 || q == 5 || q == 7,
        pow(pow(2, i) * pow(q, j), a) == pow(pow(2, i2) * pow(q, j2), b),
    ensures
        i * a == i2 * b,
        j * a == j2 * b,
{
    lemma_pow_distributes(pow(2, i), pow(q, j), a);
    lemma_pow_multiplies(2, i, a);
    lemma_pow_multiplies(q, j, a);
    lemma_pow_distributes(pow(2, i2), pow(q, j2), b);
    lemma_pow_multiplies(2, i2, b);
    lemma_pow_multiplies(q, j2, b);
    lemma_two_primes(q, i * a, j * a, i2 * b, j2 * b);
}

/// The exponent of 2 in a number below thirty that is a power of two times
/// a power of 3, 5 or 7.
pub open spec fn twos(s: int) -> nat {
    if s == 12 || s == 20 || s == 28 {
        2
    } else if s == 24 {
        3
    } else {
        1
    }
}

/// The exponent of the odd prime in such a number.
pub open spec fn odds(s: int) -> nat {
    if s == 18 {
        2
    } else {
        1
    }
}

/// Two different numbers of states below thirty have no table length in
/// common, but where the larger is sixteen: a power of the larger with a
/// positive square as exponent is no power of the smaller with a square as
/// exponent. (Sixteen to the power `m * m` is two to the power
/// `2 * m * 2 * m`.)
pub proof fn lemma_powers_differ(s: int, sp: int, m: int, k: int)
    requires
        2 <= sp < s < 30,
        s != 16,
        m >= 1,
        k >= 0,
    ensures
        pow(s, (m * m) as nat) != pow(sp, (k * k) as nat),
{
    assert(m * m >= 1 && k * k >= 0) by (nonlinear_arith)
        requires
            m >= 1,
            k >= 0,
    ;
    let a = (m * m) as nat;
    let b = (k * k) as nat;
    lemma_small_powers();
    if pow(s, a) == pow(sp, b) {
        let threes = s == 6 || s == 12 || s == 18 || s == 24;
        let threes_too = sp == 6 || sp == 12 || sp == 18 || sp == 24;
        if (s == 4 && sp == 2) || (s == 25 && sp == 5) || (s == 9 && sp == 3) {
            // The larger is the square of the smaller.
            lemma_pow_multiplies(sp, 2, a);
            lemma_pow_exponent(sp, (2 * a) as nat, b);
            lemma_no_square_ratio(2, m, k);
        } else if (s == 8 && sp == 2) || (s == 27 && sp == 3) {
            // The larger is the cube of the smaller.
            lemma_pow_multiplies(sp, 3, a);
            lemma_pow_exponent(sp, (3 * a) as nat, b);
            lemma_no_square_ratio(3, m, k);
        } else if (s == 8 && sp == 4) || (s == 27 && sp == 9) {
            // The larger is a cube and the smaller the square of the same.
            let root: int = if s == 8 {
                2
            } else {
                3
            };
            lemma_pow_multiplies(root, 3, a);
            lemma_pow_multiplies(root, 2, b);
            lemma_pow_exponent(root, (3 * a) as nat, (2 * b) as nat);
            assert((2 * k) * (2 * k) == 6 * (m * m)) by (nonlinear_arith)
                requires
                    3 * (m * m) == 2 * (k * k),
            ;
            lemma_no_square_ratio(6, m, 2 * k);
        } else if (threes && threes_too) || (s == 20 && sp == 10) || (s == 28 && sp == 14) {
            // Both are a power of two times a power of the same odd prime.
            let q: int = if threes {
                3
            } else if s == 20 {
                5
            } else {
                7
            };
            assert(pow(2, twos(s)) * pow(q, odds(s)) == s);
            assert(pow(2, twos(sp)) * pow(q, odds(sp)) == sp);
            lemma_family(q, twos(s), odds(s), twos(sp), odds(sp), a, b);
        } else {
            // A prime divides one of the two and not the other.
            let p: int = choose|p: int| is_small_prime(p) && (s % p == 0) != (sp % p == 0);
            assert(is_small_prime(p) && (s % p == 0) != (sp % p == 0)) by {
                lemma_prime_between(s, sp);
            }
            if s % p == 0 {
                lemma_pow_multiple(s, p, a);
                lemma_pow_no_multiple(sp, p, b);
            } else if b == 0 {
                lemma_pow0(sp);
                lemma_pow1(s);
                lemma_pow_monotone(s, 1, a);
            } else {
                lemma_pow_multiple(sp, p, b);
                lemma_pow_no_multiple(s, p, a);
            }
        }
    }
}

/// Two numbers below thirty that are not powers of the same prime, nor both
/// a power of two times a power of the same odd prime, are told apart by a
/// prime: it divides one of them and not the other.
proof fn lemma_prime_between(s: int, sp: int)
    requires
        2 <= sp < s < 30,
        !((s == 4 || s == 8 || s == 16) && (sp == 2 || sp == 4 || sp == 8)),
        !((s == 9 || s == 27) && (sp == 3 || sp == 9)),
        !(s == 25 && sp == 5),
        !((s == 12 || s == 18 || s == 24) && (sp == 6 || sp == 12 || sp == 18)),
        !(s == 20 && sp == 10),
        !(s == 28 && sp == 14),
    ensures
        exists|p: int| is_small_prime(p) && (s % p == 0) != (sp % p == 0),
{
    let p: int = if (s % 2 == 0) != (sp % 2 == 0) {
        2
    } else if (s % 3 == 0) != (sp % 3 == 0) {
        3
    } else if (s % 5 == 0) != (sp % 5 == 0) {
        5
    } else if (s % 7 == 0) != (sp % 7 == 0) {
        7
    } else if (s % 11 == 0) != (sp % 11 == 0) {
        11
    } else if (s % 13 == 0) != (sp % 13 == 0) {
        13
    } else if (s % 17 == 0) != (sp % 17 == 0) {
        17
    } else if (s % 19 == 0) != (sp % 19 == 0) {
        19
    } else if (s % 23 == 0) != (sp % 23 == 0) {
        23
    } else {
        29
    };
    assert(is_small_prime(p) && (s % p == 0) != (sp % p == 0));
}

} // verus!
