//! One pool: its reserves and shares, what a deposit is issued, what a swap
//! pays and what a withdrawal returns, and the laws these obey.

use vstd::prelude::*;
use crate::math::{floor_sqrt, is_floor_sqrt, lemma_floor_sqrt_exists, mul_div, sqrt_product};

verus! {

/// What a fee is a fraction of: 10000 basis points are the whole.
pub const FEE_DENOMINATOR: u32 = 10000;

/// The highest fee that can be set, in basis points.
pub const MAX_FEE: u32 = 1000;

/// The fee that initialization sets, in basis points.
pub const DEFAULT_FEE: u32 = 30;

/// What is left of `amount_in` once the fee is taken off, rounded down.
pub open spec fn amount_after_fee(amount_in: int, fee: int) -> int {
    amount_in * (10000 - fee) / 10000
}

/// What a swap of `amount_in` pays out of `reserve_out`: the constant-product
/// rule applied to the input after the fee, rounded down.
pub open spec fn swap_output(reserve_in: int, reserve_out: int, amount_in: int, fee: int) -> int {
    let net = amount_after_fee(amount_in, fee);
    reserve_out * net / (reserve_in + net)
}

/// The reserves of a token pair and the shares issued against them.
#[derive(Clone, Copy, Debug, PartialEq, Eq, Structural)]
pub struct PoolInfo {
    pub token_a_reserve: i128,
    pub token_b_reserve: i128,
    pub total_shares: i128,
}

impl PoolInfo {
    /// Nothing is negative, a pool without shares holds nothing, and the
    /// square of the shares does not exceed the product of the reserves (so a
    /// pool with shares holds both tokens).
    pub open spec fn wf(self) -> bool {
        &&& 0 <= self.token_a_reserve
        &&& 0 <= self.token_b_reserve
        &&& 0 <= self.total_shares
        &&& self.total_shares == 0 ==> self.token_a_reserve == 0 && self.token_b_reserve == 0
        &&& self.total_shares * self.total_shares <= self.token_a_reserve * self.token_b_reserve
    }

    /// The record of a pool that holds nothing.
    pub open spec fn spec_empty() -> PoolInfo {
        PoolInfo { token_a_reserve: 0, token_b_reserve: 0, total_shares: 0 }
    }

    /// The shares a deposit of `amount_a` and `amount_b` is issued: the
    /// geometric mean for the first deposit, and after that the smaller of
    /// the two proportions, each rounded down.
    pub open spec fn shares_for(self, amount_a: int, amount_b: int) -> int {
        if self.total_shares == 0 {
            floor_sqrt(amount_a * amount_b)
        } else {
            let share_a = amount_a * self.total_shares / (self.token_a_reserve as int);
            let share_b = amount_b * self.total_shares / (self.token_b_reserve as int);
            if share_a <= share_b {
                share_a
            } else {
                share_b
            }
        }
    }

    /// The pool once the deposit has come in and its shares are issued.
    pub open spec fn after_deposit(self, amount_a: int, amount_b: int) -> PoolInfo {
        PoolInfo {
            token_a_reserve: (self.token_a_reserve + amount_a) as i128,
            token_b_reserve: (self.token_b_reserve + amount_b) as i128,
            total_shares: (self.total_shares + self.shares_for(amount_a, amount_b)) as i128,
        }
    }

    /// What `shares` are worth of each reserve, rounded down.
    pub open spec fn payout(self, shares: int) -> (int, int) {
        (
            shares * self.token_a_reserve / (self.total_shares as int),
            shares * self.token_b_reserve / (self.total_shares as int),
        )
    }

    /// The pool once `shares` are burnt and their worth has left.
    pub open spec fn after_withdrawal(self, shares: int) -> PoolInfo {
        PoolInfo {
            token_a_reserve: (self.token_a_reserve - self.payout(shares).0) as i128,
            token_b_reserve: (self.token_b_reserve - self.payout(shares).1) as i128,
            total_shares: (self.total_shares - shares) as i128,
        }
    }

    /// What a swap of `amount_in` of the first token pays of the second.
    pub open spec fn swap_pays(self, amount_in: int, fee: int) -> int {
        swap_output(self.token_a_reserve as int, self.token_b_reserve as int, amount_in, fee)
    }

    /// The pool once the whole input has come in and the output has left.
    pub open spec fn after_swap(self, amount_in: int, fee: int) -> PoolInfo {
        PoolInfo {
            token_a_reserve: (self.token_a_reserve + amount_in) as i128,
            token_b_reserve: (self.token_b_reserve - self.swap_pays(amount_in, fee)) as i128,
            total_shares: self.total_shares,
        }
    }

    /// The record of a pool that holds nothing.
    #[verifier::when_used_as_spec(spec_empty)]
    pub fn empty() -> (pool: PoolInfo)
        ensures
            pool == PoolInfo::spec_empty(),
            pool.wf(),
    {
        PoolInfo { token_a_reserve: 0, token_b_reserve: 0, total_shares: 0 }
    }

    /// Whether the record is well formed.
    pub fn is_wf(&self) -> (ok: bool)
        ensures
            ok == self.wf(),
    {
        if self.token_a_reserve < 0 || self.token_b_reserve < 0 || self.total_shares < 0 {
            return false;
        }
        if self.total_shares == 0 {
            proof {
                assert(self.token_a_reserve * self.token_b_reserve >= 0) by (nonlinear_arith)
                    requires
                        self.token_a_reserve >= 0,
                        self.token_b_reserve >= 0,
                ;
            }
            return self.token_a_reserve == 0 && self.token_b_reserve == 0;
        }
        let shares: u128 = self.total_shares as u128;
        let reserve_a: u128 = self.token_a_reserve as u128;
        let reserve_b: u128 = self.token_b_reserve as u128;
        proof {
            lemma_same_product(
                reserve_a as int,
                reserve_b as int,
                self.token_a_reserve as int,
                self.token_b_reserve as int,
            );
            lemma_same_product(
                shares as int,
                shares as int,
                self.total_shares as int,
                self.total_shares as int,
            );
            assert(reserve_a * reserve_b >= 0) by (nonlinear_arith)
                requires
                    reserve_a >= 0,
                    reserve_b >= 0,
            ;
            crate::math::lemma_square_le_iff(shares as int, reserve_a * reserve_b);
        }
        match mul_div(reserve_a, reserve_b, shares) {
            Some(quotient) => shares <= quotient,
            None => true,
        }
    }

    /// Computes the shares a deposit is issued.
    pub(crate) fn quote_deposit(&self, amount_a: i128, amount_b: i128) -> (shares: i128)
        requires
            self.wf(),
            amount_a > 0,
            amount_b > 0,
            self.token_a_reserve + amount_a <= i128::MAX,
            self.token_b_reserve + amount_b <= i128::MAX,
        ensures
            shares == self.shares_for(amount_a as int, amount_b as int),
            0 <= shares,
            self.total_shares + shares <= i128::MAX,
            self.after_deposit(amount_a as int, amount_b as int).wf(),
    {
        proof {
            lemma_deposit_keeps_wf(*self, amount_a as int, amount_b as int);
        }
        let a: u128 = amount_a as u128;
        let b: u128 = amount_b as u128;
        if self.total_shares == 0 {
            proof {
                lemma_same_product(a as int, b as int, amount_a as int, amount_b as int);
            }
            sqrt_product(a, b) as i128
        } else {
            let t: u128 = self.total_shares as u128;
            proof {
                lemma_reserves_positive(*self);
                lemma_same_product(a as int, t as int, amount_a as int, self.total_shares as int);
                lemma_same_product(b as int, t as int, amount_b as int, self.total_shares as int);
            }
            let share_a = mul_div(a, t, self.token_a_reserve as u128);
            let share_b = mul_div(b, t, self.token_b_reserve as u128);
            let shares: u128 = match share_a {
                Some(x) => match share_b {
                    Some(y) => if x <= y {
                        x
                    } else {
                        y
                    },
                    None => x,
                },
                None => share_b.unwrap(),
            };
            shares as i128
        }
    }

    /// Computes what a swap pays.
    pub(crate) fn quote_swap(&self, amount_in: i128, fee: u32) -> (amount_out: i128)
        requires
            self.wf(),
            self.total_shares > 0,
            amount_in > 0,
            fee <= MAX_FEE,
        ensures
            amount_out == self.swap_pays(amount_in as int, fee as int),
            0 <= amount_out < self.token_b_reserve,
    {
        proof {
            lemma_reserves_positive(*self);
            lemma_swap_output_bounds(
                self.token_a_reserve as int,
                self.token_b_reserve as int,
                amount_in as int,
                fee as int,
            );
            lemma_fee_bounds(amount_in as int, fee as int);
        }
        let keep: u128 = (FEE_DENOMINATOR - fee) as u128;
        let paid_in: u128 = amount_in as u128;
        proof {
            lemma_same_product(paid_in as int, keep as int, amount_in as int, 10000 - fee);
        }
        let net = mul_div(paid_in, keep, FEE_DENOMINATOR as u128).unwrap();
        let reserve_out: u128 = self.token_b_reserve as u128;
        proof {
            lemma_same_product(
                reserve_out as int,
                net as int,
                self.token_b_reserve as int,
                amount_after_fee(amount_in as int, fee as int),
            );
        }
        let reserve_in: u128 = self.token_a_reserve as u128 + net;
        proof {
            lemma_same_quotient(
                reserve_out as int * net as int,
                reserve_in as int,
                self.token_b_reserve as int * amount_after_fee(amount_in as int, fee as int),
                self.token_a_reserve as int + amount_after_fee(amount_in as int, fee as int),
            );
        }
        let paid = mul_div(reserve_out, net, reserve_in).unwrap();
        paid as i128
    }

    /// Whether what `shares` are worth of either reserve is below its
    /// minimum. Any number of shares is taken, a negative one too.
    pub(crate) fn withdrawal_falls_short(
        &self,
        shares: i128,
        min_amount_a: i128,
        min_amount_b: i128,
    ) -> (short: bool)
        requires
            self.wf(),
            self.total_shares > 0,
        ensures
            short == (self.payout(shares as int).0 < min_amount_a || self.payout(shares as int).1
                < min_amount_b),
    {
        worth_is_below(shares, self.token_a_reserve, self.total_shares, min_amount_a)
            || worth_is_below(shares, self.token_b_reserve, self.total_shares, min_amount_b)
    }

    /// Computes what `shares` are worth.
    pub(crate) fn quote_withdrawal(&self, shares: i128) -> (amounts: (i128, i128))
        requires
            self.wf(),
            0 < shares <= self.total_shares,
        ensures
            amounts.0 == self.payout(shares as int).0,
            amounts.1 == self.payout(shares as int).1,
            0 <= amounts.0 <= self.token_a_reserve,
            0 <= amounts.1 <= self.token_b_reserve,
            self.after_withdrawal(shares as int).wf(),
    {
        proof {
            lemma_withdrawal_keeps_wf(*self, shares as int);
        }
        let burnt: u128 = shares as u128;
        let reserve_a: u128 = self.token_a_reserve as u128;
        let reserve_b: u128 = self.token_b_reserve as u128;
        proof {
            lemma_same_product(
                burnt as int,
                reserve_a as int,
                shares as int,
                self.token_a_reserve as int,
            );
            lemma_same_product(
                burnt as int,
                reserve_b as int,
                shares as int,
                self.token_b_reserve as int,
            );
        }
        let amount_a = mul_div(burnt, reserve_a, self.total_shares as u128).unwrap();
        let amount_b = mul_div(burnt, reserve_b, self.total_shares as u128).unwrap();
        (amount_a as i128, amount_b as i128)
    }
}

/// The size of `x`, whatever its sign.
fn magnitude(x: i128) -> (m: u128)
    ensures
        m == if x < 0 {
            -x
        } else {
            x as int
        },
{
    if x == i128::MIN {
        0x8000_0000_0000_0000_0000_0000_0000_0000u128
    } else if x < 0 {
        (-x) as u128
    } else {
        x as u128
    }
}

/// Whether `shares * reserve / total`, rounded down, is below `least`.
fn worth_is_below(shares: i128, reserve: i128, total: i128, least: i128) -> (below: bool)
    requires
        reserve >= 0,
        total > 0,
    ensures
        below == (shares * reserve / (total as int) < least),
{
    let size: u128 = magnitude(shares);
    let held: u128 = reserve as u128;
    let ghost product: int = size * held;
    proof {
        assert(product >= 0) by (nonlinear_arith)
            requires
                product == size * held,
                size >= 0,
                held >= 0,
        ;
        lemma_floor(product, total as int);
        if shares >= 0 {
            lemma_same_product(size as int, held as int, shares as int, reserve as int);
        } else {
            assert(shares * reserve == -product) by (nonlinear_arith)
                requires
                    product == size * held,
                    size == -shares,
                    held == reserve,
            ;
            crate::math::lemma_floor_of_negative(product, total as int);
        }
    }
    match crate::math::mul_div_rem(size, held, total as u128) {
        Some(parts) => {
            if shares >= 0 {
                least > 0 && parts.0 < least as u128
            } else if least > 0 {
                true
            } else {
                let floor: u128 = magnitude(least);
                parts.0 > floor || (parts.0 == floor && parts.1 > 0)
            }
        },
        None => shares < 0,
    }
}

/// Equal dividends and divisors give equal quotients.
proof fn lemma_same_quotient(a: int, b: int, c: int, d: int)
    requires
        a == c,
        b == d,
    ensures
        a / b == c / d,
{
}

/// Equal factors give equal products.
proof fn lemma_same_product(a: int, b: int, c: int, d: int)
    requires
        a == c,
        b == d,
    ensures
        a * b == c * d,
{
}

/// A quotient is at most `m` where the dividend is at most `m * d`.
proof fn lemma_quotient_at_most(x: int, m: int, d: int)
    requires
        d > 0,
        x <= m * d,
    ensures
        x / d <= m,
{
    vstd::arithmetic::div_mod::lemma_fundamental_div_mod(x, d);
    let q = x / d;
    if q > m {
        assert(d * q >= d * (m + 1)) by (nonlinear_arith)
            requires
                d > 0,
                q >= m + 1,
        ;
        assert(d * (m + 1) == m * d + d) by (nonlinear_arith);
    }
}

/// A quotient is below `m` where the dividend is below `m * d`.
proof fn lemma_quotient_below(x: int, m: int, d: int)
    requires
        d > 0,
        x < m * d,
    ensures
        x / d < m,
{
    vstd::arithmetic::div_mod::lemma_fundamental_div_mod(x, d);
    let q = x / d;
    if q >= m {
        assert(d * q >= m * d) by (nonlinear_arith)
            requires
                d > 0,
                q >= m,
        ;
    }
}

/// A quotient times its divisor is at most the dividend, and the next
/// multiple is above it.
proof fn lemma_floor(x: int, d: int)
    requires
        d > 0,
    ensures
        (x / d) * d <= x < (x / d) * d + d,
        x >= 0 ==> x / d >= 0,
{
    vstd::arithmetic::div_mod::lemma_fundamental_div_mod(x, d);
    assert(d * (x / d) == (x / d) * d) by (nonlinear_arith);
    if x >= 0 && x / d < 0 {
        assert((x / d) * d <= -d) by (nonlinear_arith)
            requires
                d > 0,
                x / d <= -1,
        ;
    }
}

/// Taking the fee off leaves something between nothing and the whole.
pub proof fn lemma_fee_bounds(amount_in: int, fee: int)
    requires
        amount_in >= 0,
        0 <= fee <= 10000,
    ensures
        0 <= amount_after_fee(amount_in, fee) <= amount_in,
{
    let x = amount_in * (10000 - fee);
    assert(0 <= x <= amount_in * 10000) by (nonlinear_arith)
        requires
            x == amount_in * (10000 - fee),
            amount_in >= 0,
            0 <= fee <= 10000,
    ;
    lemma_floor(x, 10000);
    lemma_quotient_at_most(x, amount_in, 10000);
}

/// A swap pays less than the reserve it pays from: a pool is never drained
/// of the token it pays.
pub proof fn lemma_swap_output_bounds(reserve_in: int, reserve_out: int, amount_in: int, fee: int)
    requires
        reserve_in > 0,
        reserve_out > 0,
        amount_in >= 0,
        0 <= fee <= 10000,
    ensures
        0 <= swap_output(reserve_in, reserve_out, amount_in, fee) < reserve_out,
{
    lemma_fee_bounds(amount_in, fee);
    let net = amount_after_fee(amount_in, fee);
    let d = reserve_in + net;
    let x = reserve_out * net;
    assert(0 <= x < reserve_out * d) by (nonlinear_arith)
        requires
            x == reserve_out * net,
            d == reserve_in + net,
            reserve_in >= 1,
            reserve_out >= 1,
            net >= 0,
    ;
    lemma_floor(x, d);
    lemma_quotient_below(x, reserve_out, d);
}

/// A larger input is never paid less: for fixed reserves and fee the output
/// does not fall as the input grows. (Both roundings can hold it level over
/// a step of the input.)
pub proof fn lemma_swap_output_monotonic(
    reserve_in: int,
    reserve_out: int,
    smaller: int,
    larger: int,
    fee: int,
)
    requires
        reserve_in > 0,
        reserve_out >= 0,
        0 <= smaller <= larger,
        0 <= fee <= 10000,
    ensures
        swap_output(reserve_in, reserve_out, smaller, fee) <= swap_output(
            reserve_in,
            reserve_out,
            larger,
            fee,
        ),
{
    lemma_fee_bounds(smaller, fee);
    lemma_fee_bounds(larger, fee);
    let n1 = amount_after_fee(smaller, fee);
    let n2 = amount_after_fee(larger, fee);
    assert(n1 <= n2) by {
        assert(smaller * (10000 - fee) <= larger * (10000 - fee)) by (nonlinear_arith)
            requires
                smaller <= larger,
                0 <= fee <= 10000,
        ;
        vstd::arithmetic::div_mod::lemma_div_is_ordered(
            smaller * (10000 - fee),
            larger * (10000 - fee),
            10000,
        );
    }
    let d1 = reserve_in + n1;
    let d2 = reserve_in + n2;
    let q1 = reserve_out * n1 / d1;
    lemma_floor(reserve_out * n1, d1);
    // q1 * d1 <= reserve_out * n1, and the fraction n / (reserve_in + n) grows with n
    assert(q1 * d2 <= reserve_out * n2) by (nonlinear_arith)
        requires
            q1 * d1 <= reserve_out * n1,
            d1 == reserve_in + n1,
            d2 == reserve_in + n2,
            0 <= n1 <= n2,
            reserve_in > 0,
            reserve_out >= 0,
            q1 >= 0,
    ;
    crate::math::lemma_quotient_at_least(reserve_out * n2, q1, d2);
}

/// Of two inputs that are paid differently, the larger is paid more: the
/// output rises strictly with the input wherever rounding lets it change.
pub proof fn lemma_swap_output_strict(
    reserve_in: int,
    reserve_out: int,
    smaller: int,
    larger: int,
    fee: int,
)
    requires
        reserve_in > 0,
        reserve_out >= 0,
        0 <= smaller < larger,
        0 <= fee <= 10000,
        swap_output(reserve_in, reserve_out, smaller, fee) != swap_output(
            reserve_in,
            reserve_out,
            larger,
            fee,
        ),
    ensures
        swap_output(reserve_in, reserve_out, smaller, fee) < swap_output(
            reserve_in,
            reserve_out,
            larger,
            fee,
        ),
{
    lemma_swap_output_monotonic(reserve_in, reserve_out, smaller, larger, fee);
}

/// The pool after a swap: the whole input is added, the output is taken off,
/// the pool stays well formed and the product of its reserves does not fall.
pub proof fn lemma_swap_keeps_wf(pool: PoolInfo, amount_in: int, fee: int)
    requires
        pool.wf(),
        pool.total_shares > 0,
        amount_in >= 0,
        0 <= fee <= 10000,
        pool.token_a_reserve + amount_in <= i128::MAX,
    ensures
        0 <= pool.swap_pays(amount_in, fee) < pool.token_b_reserve,
        pool.after_swap(amount_in, fee).token_a_reserve == pool.token_a_reserve + amount_in,
        pool.after_swap(amount_in, fee).token_b_reserve == pool.token_b_reserve - pool.swap_pays(
            amount_in,
            fee,
        ),
        pool.after_swap(amount_in, fee).token_a_reserve * pool.after_swap(
            amount_in,
            fee,
        ).token_b_reserve >= pool.token_a_reserve * pool.token_b_reserve,
        pool.after_swap(amount_in, fee).wf(),
{
    let ra = pool.token_a_reserve as int;
    let rb = pool.token_b_reserve as int;
    lemma_reserves_positive(pool);
    lemma_fee_bounds(amount_in, fee);
    lemma_swap_output_bounds(ra, rb, amount_in, fee);
    let net = amount_after_fee(amount_in, fee);
    let out = pool.swap_pays(amount_in, fee);
    lemma_floor(rb * net, ra + net);
    assert((ra + amount_in) * (rb - out) >= ra * rb) by (nonlinear_arith)
        requires
            out * (ra + net) <= rb * net,
            0 <= net <= amount_in,
            0 <= out < rb,
            ra > 0,
    ;
}

/// A pool with shares holds both tokens.
pub proof fn lemma_reserves_positive(pool: PoolInfo)
    requires
        pool.wf(),
        pool.total_shares > 0,
    ensures
        pool.token_a_reserve > 0,
        pool.token_b_reserve > 0,
{
    let t = pool.total_shares as int;
    assert(t * t > 0) by (nonlinear_arith)
        requires
            t > 0,
    ;
    let ra = pool.token_a_reserve as int;
    let rb = pool.token_b_reserve as int;
    if ra == 0 || rb == 0 {
        assert(ra * rb == 0) by (nonlinear_arith)
            requires
                ra == 0 || rb == 0,
        ;
    }
}

/// A well-formed pool has no shares exactly when it holds nothing.
pub proof fn lemma_no_shares_iff_no_reserves(pool: PoolInfo)
    requires
        pool.wf(),
    ensures
        pool.total_shares == 0 <==> pool.token_a_reserve == 0 && pool.token_b_reserve == 0,
{
    if pool.total_shares > 0 {
        lemma_reserves_positive(pool);
    }
}

/// Of two numbers whose product covers a square, the larger covers the root.
proof fn lemma_root_below_larger(u: int, a: int, b: int)
    requires
        0 <= u,
        0 <= a,
        0 <= b,
        u * u <= a * b,
    ensures
        u <= a || u <= b,
{
    if u > a && u > b {
        assert(u * u > a * b) by (nonlinear_arith)
            requires
                u >= a + 1,
                u >= b + 1,
                a >= 0,
                b >= 0,
        ;
    }
}

/// The shares of a deposit into a pool that has shares: each proportion is
/// covered by its amount, and the square of the new total stays within the
/// product of the new reserves.
proof fn lemma_deposit_proportions(pool: PoolInfo, amount_a: int, amount_b: int)
    requires
        pool.wf(),
        pool.total_shares > 0,
        amount_a >= 0,
        amount_b >= 0,
    ensures
        0 <= pool.shares_for(amount_a, amount_b),
        pool.shares_for(amount_a, amount_b) * pool.token_a_reserve <= amount_a * pool.total_shares,
        pool.shares_for(amount_a, amount_b) * pool.token_b_reserve <= amount_b * pool.total_shares,
        (pool.total_shares + pool.shares_for(amount_a, amount_b)) * (pool.total_shares
            + pool.shares_for(amount_a, amount_b)) <= (pool.token_a_reserve + amount_a) * (
        pool.token_b_reserve + amount_b),
{
    lemma_reserves_positive(pool);
    let ra = pool.token_a_reserve as int;
    let rb = pool.token_b_reserve as int;
    let t = pool.total_shares as int;
    let s = pool.shares_for(amount_a, amount_b);
    let sa = amount_a * t / ra;
    let sb = amount_b * t / rb;
    assert(amount_a * t >= 0 && amount_b * t >= 0) by (nonlinear_arith)
        requires
            amount_a >= 0,
            amount_b >= 0,
            t > 0,
    ;
    lemma_floor(amount_a * t, ra);
    lemma_floor(amount_b * t, rb);
    assert(s * ra <= amount_a * t) by (nonlinear_arith)
        requires
            0 <= s <= sa,
            sa * ra <= amount_a * t,
            ra > 0,
    ;
    assert(s * rb <= amount_b * t) by (nonlinear_arith)
        requires
            0 <= s <= sb,
            sb * rb <= amount_b * t,
            rb > 0,
    ;
    let u = t + s;
    let a = ra + amount_a;
    let b = rb + amount_b;
    assert(u * ra <= t * a) by (nonlinear_arith)
        requires
            u == t + s,
            a == ra + amount_a,
            s * ra <= amount_a * t,
    ;
    assert(u * rb <= t * b) by (nonlinear_arith)
        requires
            u == t + s,
            b == rb + amount_b,
            s * rb <= amount_b * t,
    ;
    assert((u * ra) * (u * rb) <= (t * a) * (t * b)) by (nonlinear_arith)
        requires
            0 <= u * ra <= t * a,
            0 <= u * rb <= t * b,
    ;
    assert((u * ra) * (u * rb) == (u * u) * (ra * rb)) by (nonlinear_arith);
    assert((t * a) * (t * b) == (t * t) * (a * b)) by (nonlinear_arith);
    assert((t * t) * (a * b) <= (ra * rb) * (a * b)) by (nonlinear_arith)
        requires
            t * t <= ra * rb,
            a * b >= 0,
    ;
    assert(a * b >= 0) by (nonlinear_arith)
        requires
            a >= 0,
            b >= 0,
    ;
    assert(ra * rb > 0) by (nonlinear_arith)
        requires
            ra > 0,
            rb > 0,
    ;
    assert(u * u <= a * b) by (nonlinear_arith)
        requires
            (u * u) * (ra * rb) <= (ra * rb) * (a * b),
            ra * rb > 0,
    ;
}

/// A deposit leaves the pool well formed, and its new total of shares within
/// the larger of the new reserves. A first deposit of positive amounts is
/// issued at least one share.
pub proof fn lemma_deposit_keeps_wf(pool: PoolInfo, amount_a: int, amount_b: int)
    requires
        pool.wf(),
        amount_a > 0,
        amount_b > 0,
        pool.token_a_reserve + amount_a <= i128::MAX,
        pool.token_b_reserve + amount_b <= i128::MAX,
    ensures
        0 <= pool.shares_for(amount_a, amount_b),
        pool.total_shares == 0 ==> is_floor_sqrt(
            pool.shares_for(amount_a, amount_b),
            amount_a * amount_b,
        ) && pool.shares_for(amount_a, amount_b) > 0,
        pool.total_shares + pool.shares_for(amount_a, amount_b) <= i128::MAX,
        pool.after_deposit(amount_a, amount_b).wf(),
{
    let ra = pool.token_a_reserve as int;
    let rb = pool.token_b_reserve as int;
    let t = pool.total_shares as int;
    let s = pool.shares_for(amount_a, amount_b);
    let a = ra + amount_a;
    let b = rb + amount_b;
    let u = t + s;
    if t == 0 {
        assert(amount_a * amount_b >= 1) by (nonlinear_arith)
            requires
                amount_a >= 1,
                amount_b >= 1,
        ;
        lemma_floor_sqrt_exists(amount_a * amount_b);
        assert(s > 0) by {
            if s == 0 {
                assert((s + 1) * (s + 1) == 1);
            }
        }
    } else {
        lemma_deposit_proportions(pool, amount_a, amount_b);
    }
    assert(u * u <= a * b);
    lemma_root_below_larger(u, a, b);
}

/// A withdrawal returns no more than the reserves, all of them where all
/// shares are burnt, and leaves the pool well formed.
pub proof fn lemma_withdrawal_keeps_wf(pool: PoolInfo, shares: int)
    requires
        pool.wf(),
        0 < shares <= pool.total_shares,
    ensures
        0 <= pool.payout(shares).0 <= pool.token_a_reserve,
        0 <= pool.payout(shares).1 <= pool.token_b_reserve,
        shares == pool.total_shares ==> pool.payout(shares).0 == pool.token_a_reserve
            && pool.payout(shares).1 == pool.token_b_reserve,
        pool.after_withdrawal(shares).wf(),
{
    lemma_reserves_positive(pool);
    let ra = pool.token_a_reserve as int;
    let rb = pool.token_b_reserve as int;
    let t = pool.total_shares as int;
    let x = pool.payout(shares).0;
    let y = pool.payout(shares).1;
    assert(0 <= shares * ra <= ra * t && 0 <= shares * rb <= rb * t) by (nonlinear_arith)
        requires
            0 < shares <= t,
            ra > 0,
            rb > 0,
    ;
    lemma_floor(shares * ra, t);
    lemma_floor(shares * rb, t);
    lemma_quotient_at_most(shares * ra, ra, t);
    lemma_quotient_at_most(shares * rb, rb, t);
    if shares == t {
        assert(shares * ra == ra * t && shares * rb == rb * t) by (nonlinear_arith)
            requires
                shares == t,
        ;
        crate::math::lemma_quotient_at_least(shares * ra, ra, t);
        crate::math::lemma_quotient_at_least(shares * rb, rb, t);
    }
    let v = t - shares;
    let a = ra - x;
    let b = rb - y;
    assert(a * t >= ra * v) by (nonlinear_arith)
        requires
            a == ra - x,
            v == t - shares,
            x * t <= shares * ra,
    ;
    assert(b * t >= rb * v) by (nonlinear_arith)
        requires
            b == rb - y,
            v == t - shares,
            y * t <= shares * rb,
    ;
    assert((a * t) * (b * t) >= (ra * v) * (rb * v)) by (nonlinear_arith)
        requires
            a * t >= ra * v,
            b * t >= rb * v,
            ra * v >= 0,
            rb * v >= 0,
    ;
    assert(ra * v >= 0 && rb * v >= 0) by (nonlinear_arith)
        requires
            ra > 0,
            rb > 0,
            v >= 0,
    ;
    assert((a * t) * (b * t) == (a * b) * (t * t)) by (nonlinear_arith);
    assert((ra * v) * (rb * v) == (ra * rb) * (v * v)) by (nonlinear_arith);
    assert((ra * rb) * (v * v) >= (t * t) * (v * v)) by (nonlinear_arith)
        requires
            ra * rb >= t * t,
            v * v >= 0,
    ;
    assert(v * v >= 0) by (nonlinear_arith);
    assert(t * t > 0) by (nonlinear_arith)
        requires
            t > 0,
    ;
    assert(a * b >= v * v) by (nonlinear_arith)
        requires
            (a * b) * (t * t) >= (t * t) * (v * v),
            t * t > 0,
    ;
}

/// Depositing and at once withdrawing the shares that were issued returns no
/// more of either token than was deposited.
pub proof fn lemma_round_trip(pool: PoolInfo, amount_a: int, amount_b: int)
    requires
        pool.wf(),
        amount_a > 0,
        amount_b > 0,
        pool.token_a_reserve + amount_a <= i128::MAX,
        pool.token_b_reserve + amount_b <= i128::MAX,
        pool.shares_for(amount_a, amount_b) > 0,
    ensures
        pool.after_deposit(amount_a, amount_b).payout(pool.shares_for(amount_a, amount_b)).0
            <= amount_a,
        pool.after_deposit(amount_a, amount_b).payout(pool.shares_for(amount_a, amount_b)).1
            <= amount_b,
{
    lemma_deposit_keeps_wf(pool, amount_a, amount_b);
    let ra = pool.token_a_reserve as int;
    let rb = pool.token_b_reserve as int;
    let t = pool.total_shares as int;
    let s = pool.shares_for(amount_a, amount_b);
    let after = pool.after_deposit(amount_a, amount_b);
    let u = t + s;
    if t == 0 {
        assert(s * amount_a == amount_a * u && s * amount_b == amount_b * u) by (nonlinear_arith)
            requires
                u == s,
        ;
    } else {
        lemma_deposit_proportions(pool, amount_a, amount_b);
        assert(s * (ra + amount_a) <= amount_a * u) by (nonlinear_arith)
            requires
                u == t + s,
                s * ra <= amount_a * t,
        ;
        assert(s * (rb + amount_b) <= amount_b * u) by (nonlinear_arith)
            requires
                u == t + s,
                s * rb <= amount_b * t,
        ;
    }
    lemma_quotient_at_most(s * after.token_a_reserve, amount_a, u);
    lemma_quotient_at_most(s * after.token_b_reserve, amount_b, u);
}

} // verus!
