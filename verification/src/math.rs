//! Exact integer arithmetic on 128-bit amounts: the floor of a product over
//! a divisor and the floor of a product's square root, computed without ever
//! forming the product.

use vstd::prelude::*;

verus! {

/// `r` is the floor of the square root of `n`.
pub open spec fn is_floor_sqrt(r: int, n: int) -> bool {
    0 <= r && r * r <= n < (r + 1) * (r + 1)
}

/// The floor of the square root of `n`, for `n >= 0`.
pub open spec fn floor_sqrt(n: int) -> int {
    choose|r: int| is_floor_sqrt(r, n)
}

/// A number has at most one floor square root.
pub proof fn lemma_floor_sqrt_unique(r: int, s: int, n: int)
    requires
        is_floor_sqrt(r, n),
        is_floor_sqrt(s, n),
    ensures
        r == s,
{
    if r < s {
        assert((r + 1) * (r + 1) <= s * s) by (nonlinear_arith)
            requires
                0 <= r,
                r + 1 <= s,
        ;
    }
    if s < r {
        assert((s + 1) * (s + 1) <= r * r) by (nonlinear_arith)
            requires
                0 <= s,
                s + 1 <= r,
        ;
    }
}

/// Whatever meets the definition is the floor square root.
pub proof fn lemma_floor_sqrt_is(r: int, n: int)
    requires
        is_floor_sqrt(r, n),
    ensures
        floor_sqrt(n) == r,
{
    lemma_floor_sqrt_unique(r, floor_sqrt(n), n);
}

/// For a positive `m`, `m * m <= n` says the same as `m <= n / m`.
pub proof fn lemma_square_le_iff(m: int, n: int)
    requires
        m > 0,
        n >= 0,
    ensures
        (m * m <= n) <==> (m <= n / m),
{
    let q = n / m;
    assert(n == m * q + n % m && 0 <= n % m < m) by {
        vstd::arithmetic::div_mod::lemma_fundamental_div_mod(n, m);
    }
    if m <= q {
        assert(m * m <= m * q) by (nonlinear_arith)
            requires
                m > 0,
                m <= q,
        ;
    } else {
        assert(m * (q + 1) <= m * m) by (nonlinear_arith)
            requires
                m > 0,
                q + 1 <= m,
        ;
        assert(m * (q + 1) == m * q + m) by (nonlinear_arith);
    }
}

/// Every number from zero on has a floor square root.
pub proof fn lemma_floor_sqrt_exists(n: int)
    requires
        n >= 0,
    ensures
        is_floor_sqrt(floor_sqrt(n), n),
    decreases n,
{
    if n == 0 {
        assert(is_floor_sqrt(0, 0));
    } else {
        lemma_floor_sqrt_exists(n - 1);
        let r = floor_sqrt(n - 1);
        if (r + 1) * (r + 1) <= n {
            assert((r + 2) * (r + 2) > (r + 1) * (r + 1)) by (nonlinear_arith)
                requires
                    r >= 0,
            ;
            assert(is_floor_sqrt(r + 1, n));
        } else {
            assert(is_floor_sqrt(r, n));
        }
    }
}

/// A lower bound on a quotient from a lower bound on the dividend.
pub proof fn lemma_quotient_at_least(x: int, m: int, d: int)
    requires
        d > 0,
        x >= m * d,
    ensures
        x / d >= m,
{
    vstd::arithmetic::div_mod::lemma_fundamental_div_mod(x, d);
    let q = x / d;
    if q < m {
        assert(d * (q + 1) <= m * d) by (nonlinear_arith)
            requires
                d > 0,
                q + 1 <= m,
        ;
        assert(d * (q + 1) == d * q + d) by (nonlinear_arith);
    }
}

/// The floor of a negative quotient: what the positive one is, negated, and
/// one lower where the division leaves a remainder.
pub proof fn lemma_floor_of_negative(n: int, d: int)
    requires
        n >= 0,
        d > 0,
    ensures
        (-n) / d == -(n / d) - if n % d == 0 {
            0int
        } else {
            1int
        },
{
    vstd::arithmetic::div_mod::lemma_fundamental_div_mod(n, d);
    let q = n / d;
    let r = n % d;
    if r == 0 {
        assert(-n == (-q) * d + 0) by (nonlinear_arith)
            requires
                n == d * q + r,
                r == 0,
        ;
        lemma_quotient_is(-n, -q, 0, d);
    } else {
        assert(-n == (-q - 1) * d + (d - r)) by (nonlinear_arith)
            requires
                n == d * q + r,
        ;
        lemma_quotient_is(-n, -q - 1, d - r, d);
    }
}

/// A dividend split into quotient and remainder gives that quotient and that
/// remainder.
pub proof fn lemma_quotient_is(x: int, q: int, r: int, d: int)
    requires
        d > 0,
        0 <= r < d,
        x == q * d + r,
    ensures
        x / d == q,
        x % d == r,
{
    vstd::arithmetic::div_mod::lemma_fundamental_div_mod_converse(x, d, q, r);
}

/// The floor of `a * b / d`, where it fits in 128 bits.
pub fn mul_div(a: u128, b: u128, d: u128) -> (res: Option<u128>)
    ensures
        res is Some <==> d > 0 && (a * b) / (d as int) <= u128::MAX,
        res is Some ==> res->Some_0 == (a * b) / (d as int),
{
    match mul_div_rem(a, b, d) {
        Some(parts) => Some(parts.0),
        None => None,
    }
}

/// The floor of `a * b / d` and the remainder it leaves, where the quotient
/// fits in 128 bits.
///
/// The product is never formed: the multiplier is consumed bit by bit,
/// while quotient and remainder of the partial products by `d` are kept.
pub fn mul_div_rem(a: u128, b: u128, d: u128) -> (res: Option<(u128, u128)>)
    ensures
        res is Some <==> d > 0 && (a * b) / (d as int) <= u128::MAX,
        res is Some ==> res->Some_0.0 == (a * b) / (d as int),
        res is Some ==> res->Some_0.1 == (a * b) % (d as int),
{
    if d == 0 {
        return None;
    }
    // a * b == (q * d + r) + (step_q * d + step_r) * n, throughout
    let mut q: u128 = 0;
    let mut r: u128 = 0;
    let mut step_q: u128 = a / d;
    let mut step_r: u128 = a % d;
    let mut n: u128 = b;
    proof {
        vstd::arithmetic::div_mod::lemma_fundamental_div_mod(a as int, d as int);
        assert((d as int) * (step_q as int) == (step_q as int) * (d as int)) by (nonlinear_arith);
    }
    while n > 0
        invariant
            d > 0,
            r < d,
            step_r < d,
            a * b == (q * d + r) + (step_q * d + step_r) * n,
        decreases n,
    {
        let ghost step: int = step_q * d + step_r;
        let ghost old_q: int = q as int;
        let ghost old_r: int = r as int;
        let ghost old_n: int = n as int;
        let bit: u128 = n % 2;
        let rest: u128 = n / 2;
        proof {
            assert(step >= 0) by (nonlinear_arith)
                requires
                    step == step_q * d + step_r,
                    step_q >= 0,
                    d > 0,
                    step_r >= 0,
            ;
            assert(step * old_n == step * bit + (2 * step) * rest) by (nonlinear_arith)
                requires
                    old_n == 2 * rest + bit,
            ;
            assert(step * bit == if bit == 1 { step } else { 0 }) by (nonlinear_arith)
                requires
                    bit == 0 || bit == 1,
            ;
            assert((2 * step) * rest >= 0) by (nonlinear_arith)
                requires
                    step >= 0,
                    rest >= 0,
            ;
            assert(a * b == (old_q * d + old_r) + step * bit + (2 * step) * rest);
        }
        if bit == 1 {
            let carry: u128 = if r >= d - step_r {
                r = r - (d - step_r);
                1
            } else {
                r = r + step_r;
                0
            };
            let ghost sum: int = old_q + step_q + carry;
            proof {
                assert(sum * d + r == (old_q * d + old_r) + step) by (nonlinear_arith)
                    requires
                        sum == old_q + step_q + carry,
                        r == old_r + step_r - carry * d,
                        step == step_q * d + step_r,
                ;
            }
            let added = match q.checked_add(step_q) {
                Some(v) => v.checked_add(carry),
                None => None,
            };
            match added {
                Some(v) => {
                    q = v;
                },
                None => {
                    proof {
                        lemma_quotient_at_least(a * b, sum, d as int);
                    }
                    return None;
                },
            }
        }
        assert(a * b == (q * d + r) + (2 * step) * rest);
        n = rest;
        if rest > 0 {
            let carry: u128 = if step_r >= d - step_r {
                step_r = step_r - (d - step_r);
                1
            } else {
                step_r = step_r + step_r;
                0
            };
            let ghost twice: int = 2 * step_q + carry;
            proof {
                assert(twice * d + step_r == 2 * step) by (nonlinear_arith)
                    requires
                        twice == 2 * step_q + carry,
                        step == step_q * d + (step_r + carry * d) / 2,
                        (step_r + carry * d) % 2 == 0,
                ;
            }
            let doubled = match step_q.checked_add(step_q) {
                Some(v) => v.checked_add(carry),
                None => None,
            };
            match doubled {
                Some(v) => {
                    step_q = v;
                },
                None => {
                    proof {
                        assert((2 * step) * rest >= twice * d) by (nonlinear_arith)
                            requires
                                2 * step == twice * d + step_r,
                                twice >= 0,
                                d > 0,
                                step_r >= 0,
                                rest >= 1,
                        ;
                        assert(q * d + r >= 0) by (nonlinear_arith)
                            requires
                                q >= 0,
                                d > 0,
                                r >= 0,
                        ;
                        lemma_quotient_at_least(a * b, twice, d as int);
                    }
                    return None;
                },
            }
        } else {
            assert((2 * step) * rest == (step_q * d + step_r) * rest) by (nonlinear_arith)
                requires
                    rest == 0,
            ;
        }
    }
    proof {
        assert((step_q * d + step_r) * n == 0) by (nonlinear_arith)
            requires
                n == 0,
        ;
        lemma_quotient_is(a * b, q as int, r as int, d as int);
    }
    Some((q, r))
}

/// The floor of the square root of `a * b`.
pub fn sqrt_product(a: u128, b: u128) -> (root: u128)
    ensures
        is_floor_sqrt(root as int, a * b),
        root == floor_sqrt(a * b),
{
    let ghost n: int = a * b;
    let mut low: u128 = 0;
    let mut high: u128 = if a >= b { a } else { b };
    proof {
        assert(0 <= n < (high + 1) * (high + 1)) by (nonlinear_arith)
            requires
                n == a * b,
                a <= high,
                b <= high,
                0 <= a,
                0 <= b,
        ;
    }
    while low < high
        invariant
            n == a * b,
            low <= high,
            low * low <= n,
            n < (high + 1) * (high + 1),
        decreases high - low,
    {
        let mid: u128 = high - (high - low) / 2;
        proof {
            lemma_square_le_iff(mid as int, n);
        }
        let fits = match mul_div(a, b, mid) {
            Some(v) => mid <= v,
            None => true,
        };
        if fits {
            low = mid;
        } else {
            high = mid - 1;
        }
    }
    proof {
        lemma_floor_sqrt_is(low as int, n);
    }
    low
}

} // verus!
