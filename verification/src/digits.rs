//! Mixed-radix arithmetic: the digits of a number in a fixed base, the number
//! that a digit function denotes, and powers of the base as machine integers.
//!
//! A neighbourhood of `len` cells over `base` states is the number whose digit
//! of weight `base^k` is the state of cell `k`. Everything the rule table and
//! the symmetry transforms need to know about that encoding is proved here.
use vstd::arithmetic::div_mod::*;
use vstd::arithmetic::mul::*;
use vstd::arithmetic::power::*;
use vstd::arithmetic::power2::{lemma2_to64, lemma_pow2};
use vstd::prelude::*;

verus! {

/// The digit of weight `base^k` in the expansion of `p` in base `base`.
pub open spec fn digit(p: int, base: int, k: int) -> int {
    (p / pow(base, k as nat)) % base
}

/// The number whose digit of weight `base^k` is `f(k)` for every `k < len`.
pub open spec fn from_digits(f: spec_fn(int) -> int, base: int, len: nat) -> int
    decreases len,
{
    if len == 0 {
        0
    } else {
        from_digits(f, base, (len - 1) as nat) + f(len - 1) * pow(base, (len - 1) as nat)
    }
}

/// Every value of `f` below `len` is a digit in base `base`.
pub open spec fn is_digit_fn(f: spec_fn(int) -> int, base: int, len: nat) -> bool {
    forall|k: int| 0 <= k < len ==> 0 <= #[trigger] f(k) < base
}

/// `base^(e + 1)` is `base` times `base^e`.
pub proof fn lemma_pow_step(base: int, e: nat)
    ensures
        pow(base, e + 1) == base * pow(base, e),
        pow(base, e + 1) == pow(base, e) * base,
{
    reveal(pow);
    lemma_mul_is_commutative(base, pow(base, e));
}

/// Powers of a positive base are positive and do not shrink as the exponent grows.
pub proof fn lemma_pow_monotone(base: int, e1: nat, e2: nat)
    requires
        base >= 1,
        e1 <= e2,
    ensures
        1 <= pow(base, e1) <= pow(base, e2),
{
    lemma_pow_positive(base, e1);
    lemma_pow_increases(base as nat, e1, e2);
}

/// A power of a base of at least two is at least the same power of two.
pub proof fn lemma_pow_at_least_pow2(base: int, e: nat)
    requires
        base >= 2,
    ensures
        pow(base, e) >= pow(2, e) >= 1,
    decreases e,
{
    if e == 0 {
        lemma_pow0(base);
        lemma_pow0(2);
    } else {
        let rest = (e - 1) as nat;
        lemma_pow_at_least_pow2(base, rest);
        lemma_pow_step(base, rest);
        lemma_pow_step(2, rest);
        let x = pow(base, rest);
        let y = pow(2, rest);
        assert(base * x >= 2 * y) by (nonlinear_arith)
            requires
                base >= 2,
                x >= y >= 1,
        ;
    }
}

/// A power of a base of at least two that fits in 64 bits has an exponent
/// below 64.
pub proof fn lemma_exponent_below_64(base: int, e: nat)
    requires
        base >= 2,
        pow(base, e) <= u64::MAX,
    ensures
        e < 64,
{
    if e >= 64 {
        lemma_pow_at_least_pow2(base, e);
        lemma_pow_monotone(2, 64, e);
        lemma_pow2(64);
        lemma2_to64();
    }
}

/// A digit lies in `0..base`.
pub proof fn lemma_digit_range(p: int, base: int, k: int)
    requires
        base >= 1,
    ensures
        0 <= digit(p, base, k) < base,
{
    lemma_mod_bound(p / pow(base, k as nat), base);
}

/// Adding a multiple of `base^(k + 1)` changes no digit of weight up to `base^k`.
pub proof fn lemma_digit_ignores_high(x: int, m: int, base: int, k: nat, j: nat)
    requires
        base >= 1,
        j <= k,
    ensures
        digit(x + m * pow(base, k + 1), base, j as int) == digit(x, base, j as int),
{
    let w = pow(base, j);
    let rest = pow(base, (k - j) as nat);
    lemma_pow_positive(base, j);
    lemma_pow_adds(base, j, (k + 1 - j) as nat);
    lemma_pow_step(base, (k - j) as nat);
    assert(pow(base, k + 1) == w * (base * rest));
    let lift = m * rest;
    assert(m * (w * (base * rest)) == (base * lift) * w) by (nonlinear_arith)
        requires
            lift == m * rest,
    ;
    lemma_hoist_over_denominator(x, base * lift, w as nat);
    assert((x + m * pow(base, k + 1)) / w == x / w + base * lift);
    lemma_mod_multiples_vanish(lift, x / w, base);
}

/// The number denoted by a digit function lies below `base^len`.
pub proof fn lemma_from_digits_bound(f: spec_fn(int) -> int, base: int, len: nat)
    requires
        base >= 1,
        is_digit_fn(f, base, len),
    ensures
        0 <= from_digits(f, base, len) < pow(base, len),
    decreases len,
{
    if len == 0 {
        lemma_pow0(base);
    } else {
        let rest = (len - 1) as nat;
        lemma_from_digits_bound(f, base, rest);
        lemma_pow_step(base, rest);
        lemma_pow_positive(base, rest);
        let w = pow(base, rest);
        let top = f(len - 1);
        assert(0 <= top * w && top * w + w <= base * w) by (nonlinear_arith)
            requires
                0 <= top < base,
                w > 0,
        ;
    }
}

/// Digit functions that agree below `len` denote the same number.
pub proof fn lemma_from_digits_ext(
    f: spec_fn(int) -> int,
    g: spec_fn(int) -> int,
    base: int,
    len: nat,
)
    requires
        forall|k: int| 0 <= k < len ==> #[trigger] f(k) == g(k),
    ensures
        from_digits(f, base, len) == from_digits(g, base, len),
    decreases len,
{
    if len > 0 {
        lemma_from_digits_ext(f, g, base, (len - 1) as nat);
        assert(f(len - 1) == g(len - 1));
    }
}

/// Changing one digit moves the number by the change times the digit's weight.
pub proof fn lemma_from_digits_update(
    f: spec_fn(int) -> int,
    g: spec_fn(int) -> int,
    base: int,
    len: nat,
    k: nat,
)
    requires
        k < len,
        forall|j: int| 0 <= j < len && j != k ==> #[trigger] g(j) == f(j),
    ensures
        from_digits(g, base, len) == from_digits(f, base, len) + (g(k as int) - f(k as int)) * pow(
            base,
            k,
        ),
    decreases len,
{
    let rest = (len - 1) as nat;
    let w = pow(base, rest);
    if k == rest {
        lemma_from_digits_ext(f, g, base, rest);
        let a = g(k as int);
        let b = f(k as int);
        assert(a * w == b * w + (a - b) * w) by (nonlinear_arith);
    } else {
        lemma_from_digits_update(f, g, base, rest, k);
        assert(g(len - 1) == f(len - 1));
    }
}

/// The digits of a number denote its residue below `base^len`.
pub proof fn lemma_from_digits_of_digits(p: int, base: int, len: nat)
    requires
        0 <= p,
        base >= 1,
    ensures
        from_digits(|k: int| digit(p, base, k), base, len) == p % pow(base, len),
    decreases len,
{
    let f = |k: int| digit(p, base, k);
    if len == 0 {
        lemma_pow0(base);
    } else {
        let rest = (len - 1) as nat;
        let w = pow(base, rest);
        lemma_from_digits_of_digits(p, base, rest);
        lemma_pow_positive(base, rest);
        lemma_pow_step(base, rest);
        lemma_mod_breakdown(p, w, base);
        assert(f(len - 1) == (p / w) % base);
        lemma_mul_is_commutative(w, (p / w) % base);
    }
}

/// A number below `base^len` is the number that its own digits denote.
pub proof fn lemma_number_is_its_digits(p: int, base: int, len: nat)
    requires
        base >= 1,
        0 <= p < pow(base, len),
    ensures
        from_digits(|k: int| digit(p, base, k), base, len) == p,
{
    lemma_from_digits_of_digits(p, base, len);
    lemma_small_mod(p as nat, pow(base, len) as nat);
}

/// The digit of weight `base^k` of the number that `f` denotes is `f(k)`.
pub proof fn lemma_digit_of_from_digits(f: spec_fn(int) -> int, base: int, len: nat, k: nat)
    requires
        base >= 1,
        is_digit_fn(f, base, len),
        k < len,
    ensures
        digit(from_digits(f, base, len), base, k as int) == f(k as int),
    decreases len,
{
    let rest = (len - 1) as nat;
    let low = from_digits(f, base, rest);
    let w = pow(base, rest);
    let top = f(len - 1);
    lemma_from_digits_bound(f, base, rest);
    if k == rest {
        lemma_fundamental_div_mod_converse(low + top * w, w, top, low);
        lemma_small_mod(top as nat, base as nat);
    } else {
        lemma_digit_of_from_digits(f, base, rest, k);
        lemma_digit_ignores_high(low, top, base, (rest - 1) as nat, k);
    }
}

/// Two numbers below `base^len` with the same digits are the same number.
pub proof fn lemma_digits_determine(p: int, q: int, base: int, len: nat)
    requires
        base >= 1,
        0 <= p < pow(base, len),
        0 <= q < pow(base, len),
        forall|k: int| 0 <= k < len ==> #[trigger] digit(p, base, k) == digit(q, base, k),
    ensures
        p == q,
{
    let f = |k: int| digit(p, base, k);
    let g = |k: int| digit(q, base, k);
    lemma_number_is_its_digits(p, base, len);
    lemma_number_is_its_digits(q, base, len);
    assert forall|k: int| 0 <= k < len implies #[trigger] f(k) == g(k) by {}
    lemma_from_digits_ext(f, g, base, len);
}

/// Replacing the digit of weight `base^k` by `v` gives a number below
/// `base^len` that has `v` there and the old digits everywhere else.
pub proof fn lemma_set_digit(p: int, base: int, len: nat, k: nat, v: int)
    requires
        base >= 1,
        0 <= p < pow(base, len),
        k < len,
        0 <= v < base,
    ensures
        ({
            let q = p + (v - digit(p, base, k as int)) * pow(base, k);
            &&& 0 <= q < pow(base, len)
            &&& digit(q, base, k as int) == v
            &&& forall|j: int|
                0 <= j < len && j != k ==> #[trigger] digit(q, base, j) == digit(p, base, j)
        }),
{
    let f = |j: int| digit(p, base, j);
    let g = |j: int|
        if j == k {
            v
        } else {
            digit(p, base, j)
        };
    let q = p + (v - digit(p, base, k as int)) * pow(base, k);
    lemma_number_is_its_digits(p, base, len);
    lemma_from_digits_update(f, g, base, len, k);
    assert(from_digits(g, base, len) == q);
    assert forall|j: int| 0 <= j < len implies 0 <= #[trigger] g(j) < base by {
        lemma_digit_range(p, base, j);
    }
    lemma_from_digits_bound(g, base, len);
    lemma_digit_of_from_digits(g, base, len, k);
    assert forall|j: int| 0 <= j < len && j != k implies digit(q, base, j) == digit(
        p,
        base,
        j,
    ) by {
        lemma_digit_of_from_digits(g, base, len, j as nat);
    }
}

/// A digit times its weight is no more than the number itself.
pub proof fn lemma_digit_term_bound(p: int, base: int, len: nat, k: nat)
    requires
        base >= 1,
        0 <= p < pow(base, len),
        k < len,
    ensures
        0 <= digit(p, base, k as int) * pow(base, k) <= p,
{
    lemma_digit_range(p, base, k as int);
    lemma_set_digit(p, base, len, k, 0);
    lemma_pow_positive(base, k);
    let d = digit(p, base, k as int);
    let w = pow(base, k);
    assert((0 - d) * w == -(d * w)) by (nonlinear_arith);
    assert(0 <= d * w) by (nonlinear_arith)
        requires
            0 <= d,
            0 < w,
    ;
}

/// `base^exp`, where that fits in 64 bits.
pub fn pow_u64(base: u64, exp: u32) -> (r: u64)
    requires
        pow(base as int, exp as nat) <= u64::MAX,
    ensures
        r == pow(base as int, exp as nat),
{
    let mut r: u64 = 1;
    let mut i: u32 = 0;
    proof {
        lemma_pow0(base as int);
    }
    while i < exp
        invariant
            i <= exp,
            r == pow(base as int, i as nat),
            pow(base as int, exp as nat) <= u64::MAX,
        decreases exp - i,
    {
        proof {
            lemma_pow_step(base as int, i as nat);
            if base >= 1 {
                lemma_pow_monotone(base as int, (i + 1) as nat, exp as nat);
            } else {
                assert(pow(base as int, (i + 1) as nat) == 0) by (nonlinear_arith)
                    requires
                        base == 0,
                        pow(base as int, (i + 1) as nat) == base * pow(base as int, i as nat),
                ;
            }
        }
        r = r * base;
        i = i + 1;
    }
    r
}

/// `base^exp`, or `None` where that does not fit in 64 bits.
pub fn checked_pow_u64(base: u64, exp: u32) -> (r: Option<u64>)
    ensures
        match r {
            Some(v) => v == pow(base as int, exp as nat),
            None => pow(base as int, exp as nat) > u64::MAX,
        },
{
    if base == 0 {
        proof {
            lemma_pow0(0);
            if exp > 0 {
                lemma0_pow(exp as nat);
            }
        }
        return Some(if exp == 0 { 1 } else { 0 });
    }
    let mut r: u64 = 1;
    let mut i: u32 = 0;
    proof {
        lemma_pow0(base as int);
    }
    while i < exp
        invariant
            i <= exp,
            base >= 1,
            r == pow(base as int, i as nat),
        decreases exp - i,
    {
        proof {
            lemma_pow_step(base as int, i as nat);
        }
        match r.checked_mul(base) {
            Some(next) => {
                r = next;
            },
            None => {
                proof {
                    lemma_pow_monotone(base as int, (i + 1) as nat, exp as nat);
                }
                return None;
            },
        }
        i = i + 1;
    }
    Some(r)
}

} // verus!
