//! Curve StableSwap math for N-token pools (Aquarius stable pools), with
//! Newton iterations for the invariant `D` and the new balance `y`.

use vstd::prelude::*;

verus! {

/// Fee denominator (10000 = 100%).
pub const FEE_DENOMINATOR: u128 = 10_000;

/// Pool state for stableswap computation.
#[derive(Debug, Clone)]
pub struct StablePool {
    /// Reserves for each token (in native decimals)
    pub reserves: Vec<u128>,
    /// Decimals for each token
    pub decimals: Vec<u32>,
    /// Amplification coefficient (A)
    pub amp: u128,
    /// Fee in basis points (e.g., 30 = 0.3%)
    pub fee_bps: u32,
}

pub open spec fn fits(v: int) -> bool {
    0 <= v <= u128::MAX
}

pub open spec fn abs_diff(a: int, b: int) -> int {
    if a >= b {
        a - b
    } else {
        b - a
    }
}

/// `10^e`.
pub open spec fn pow10(e: nat) -> int
    decreases e,
{
    if e == 0 {
        1
    } else {
        10 * pow10((e - 1) as nat)
    }
}

/// Largest of the decimals (7 when there are none).
pub open spec fn max_decimals(decimals: Seq<u32>) -> u32
    decreases decimals.len(),
{
    if decimals.len() == 0 {
        7
    } else if decimals.len() == 1 {
        decimals[0]
    } else {
        let rest = max_decimals(decimals.drop_last());
        if decimals.last() > rest {
            decimals.last()
        } else {
            rest
        }
    }
}

/// Sum of the first `k` balances.
pub open spec fn sum_prefix(xp: Seq<u128>, k: nat) -> int
    decreases k,
{
    if k == 0 {
        0
    } else {
        sum_prefix(xp, (k - 1) as nat) + xp[k - 1]
    }
}

/// `D^(k+1) / prod(n * x_i)` over the first `k` balances, dividing after
/// each factor as the contract does.
pub open spec fn dp_after(xp: Seq<u128>, d: int, n: int, k: nat) -> int
    decreases k,
{
    if k == 0 {
        d
    } else {
        (dp_after(xp, d, n, (k - 1) as nat) * d) / (xp[k - 1] * n)
    }
}

/// The products in `dp_after` stay within `u128` and its divisors are
/// non-zero.
pub open spec fn dp_safe(xp: Seq<u128>, d: int, n: int, k: nat) -> bool
    decreases k,
{
    if k == 0 {
        true
    } else {
        let prev = dp_after(xp, d, n, (k - 1) as nat);
        &&& dp_safe(xp, d, n, (k - 1) as nat)
        &&& fits(prev * d)
        &&& fits(xp[k - 1] * n)
        &&& xp[k - 1] * n != 0
    }
}

/// Newton iterations for `D`, at most `k` more, stopping when a step moves
/// `D` by at most 1 or its denominator is 0.
pub open spec fn d_newton(xp: Seq<u128>, ann: int, s: int, n: int, d: int, k: nat) -> int
    decreases k,
{
    if k == 0 {
        d
    } else {
        let dp = dp_after(xp, d, n, xp.len());
        let numerator = (ann * s + dp * n) * d;
        let denominator = (ann - 1) * d + (n + 1) * dp;
        if denominator == 0 {
            d
        } else {
            let d2 = numerator / denominator;
            if abs_diff(d2, d) <= 1 {
                d2
            } else {
                d_newton(xp, ann, s, n, d2, (k - 1) as nat)
            }
        }
    }
}

/// Every step of `d_newton` stays within `u128`.
pub open spec fn d_newton_safe(xp: Seq<u128>, ann: int, s: int, n: int, d: int, k: nat) -> bool
    decreases k,
{
    if k == 0 {
        true
    } else {
        let dp = dp_after(xp, d, n, xp.len());
        let numerator = (ann * s + dp * n) * d;
        let denominator = (ann - 1) * d + (n + 1) * dp;
        &&& dp_safe(xp, d, n, xp.len())
        &&& fits(ann * s)
        &&& fits(dp * n)
        &&& fits(ann * s + dp * n)
        &&& fits(numerator)
        &&& ann >= 1
        &&& fits((ann - 1) * d)
        &&& fits((n + 1) * dp)
        &&& fits(denominator)
        &&& (denominator != 0 && abs_diff(numerator / denominator, d) > 1 ==> d_newton_safe(
            xp,
            ann,
            s,
            n,
            numerator / denominator,
            (k - 1) as nat,
        ))
    }
}

/// The invariant `D` as the pool computes it (255 Newton steps at most).
pub open spec fn get_d_value(xp: Seq<u128>, amp: u128) -> int {
    let n = xp.len() as int;
    let s = sum_prefix(xp, xp.len());
    if s == 0 {
        0
    } else {
        d_newton(xp, amp * n, s, n, s, 255)
    }
}

/// Computing `D` stays within `u128`.
pub open spec fn get_d_safe(xp: Seq<u128>, amp: u128) -> bool {
    let n = xp.len() as int;
    let s = sum_prefix(xp, xp.len());
    &&& fits(s)
    &&& fits(amp * n)
    &&& s != 0 ==> d_newton_safe(xp, amp * n, s, n, s, 255)
}


/// Balance of token `i` in the `y` computation: the new balance `x` for the
/// input token, the pool balance otherwise.
pub open spec fn y_term(xp: Seq<u128>, in_idx: int, x: u128, i: int) -> int {
    if i == in_idx {
        x as int
    } else {
        xp[i] as int
    }
}

/// Token `i` takes part in the `y` computation (all but the output token,
/// unless it is also the input token).
pub open spec fn y_uses(in_idx: int, out_idx: int, i: int) -> bool {
    i == in_idx || i != out_idx
}

/// Sum of the balances used, over the first `k` tokens.
pub open spec fn y_sum(xp: Seq<u128>, in_idx: int, out_idx: int, x: u128, k: nat) -> int
    decreases k,
{
    if k == 0 {
        0
    } else {
        let prev = y_sum(xp, in_idx, out_idx, x, (k - 1) as nat);
        if y_uses(in_idx, out_idx, k - 1) {
            prev + y_term(xp, in_idx, x, k - 1)
        } else {
            prev
        }
    }
}

/// `c = D^(k+1) / prod(n * x_i)` over the balances used among the first `k`.
pub open spec fn y_c(xp: Seq<u128>, in_idx: int, out_idx: int, x: u128, d: int, n: int, k: nat) -> int
    decreases k,
{
    if k == 0 {
        d
    } else {
        let prev = y_c(xp, in_idx, out_idx, x, d, n, (k - 1) as nat);
        if y_uses(in_idx, out_idx, k - 1) {
            (prev * d) / (y_term(xp, in_idx, x, k - 1) * n)
        } else {
            prev
        }
    }
}

/// The loop computing `y_sum` and `y_c` stays within `u128`.
pub open spec fn y_loop_safe(xp: Seq<u128>, in_idx: int, out_idx: int, x: u128, d: int, n: int, k: nat) -> bool
    decreases k,
{
    if k == 0 {
        true
    } else {
        let prev_c = y_c(xp, in_idx, out_idx, x, d, n, (k - 1) as nat);
        let t = y_term(xp, in_idx, x, k - 1);
        &&& y_loop_safe(xp, in_idx, out_idx, x, d, n, (k - 1) as nat)
        &&& y_uses(in_idx, out_idx, k - 1) ==> {
            &&& fits(y_sum(xp, in_idx, out_idx, x, k))
            &&& fits(prev_c * d)
            &&& fits(t * n)
            &&& t * n != 0
        }
    }
}

/// The balances that the `y` computation of a swap from `in_idx` to
/// `out_idx` works over: every token's balance but the output token's,
/// with `x` in place of the input token's.
pub open spec fn other_balances(xp: Seq<u128>, in_idx: int, out_idx: int, x: u128) -> Seq<u128> {
    xp.update(in_idx, x).remove(out_idx)
}

/// Over the first `k` tokens, the `y` sum and product are those of the
/// other balances among them (all of them, but one fewer once the output
/// token is passed).
proof fn lemma_y_prefix_over_others(xp: Seq<u128>, in_idx: int, out_idx: int, x: u128, d: int, n: int, k: nat)
    requires
        0 <= in_idx < xp.len(),
        0 <= out_idx < xp.len(),
        in_idx != out_idx,
        k <= xp.len(),
    ensures
        ({
            let ys = other_balances(xp, in_idx, out_idx, x);
            let m: nat = if k <= out_idx { k } else { (k - 1) as nat };
            &&& y_sum(xp, in_idx, out_idx, x, k) == sum_prefix(ys, m)
            &&& y_c(xp, in_idx, out_idx, x, d, n, k) == dp_after(ys, d, n, m)
        }),
    decreases k,
{
    if k > 0 {
        lemma_y_prefix_over_others(xp, in_idx, out_idx, x, d, n, (k - 1) as nat);
        let ys = other_balances(xp, in_idx, out_idx, x);
        let i = k - 1;
        if i < out_idx {
            assert(ys[i] == y_term(xp, in_idx, x, i));
        } else if i > out_idx {
            assert(ys[i - 1] == y_term(xp, in_idx, x, i));
        }
    }
}

/// The `y` computation of a swap works over the balances of every token
/// but the output token, with the input token's new balance `x` in place of
/// its own: its sum is their sum, and its product is the same chain
/// `D^(k+1) / prod(n * x_i)` that the invariant `D` takes over a pool's
/// balances, taken over these. So no token other than the output is left
/// out, whatever the indices of the two tokens.
pub proof fn lemma_y_over_other_balances(xp: Seq<u128>, in_idx: int, out_idx: int, x: u128, d: int, n: int)
    requires
        0 <= in_idx < xp.len(),
        0 <= out_idx < xp.len(),
        in_idx != out_idx,
    ensures
        other_balances(xp, in_idx, out_idx, x).len() + 1 == xp.len(),
        y_sum(xp, in_idx, out_idx, x, xp.len()) == sum_prefix(
            other_balances(xp, in_idx, out_idx, x),
            (xp.len() - 1) as nat,
        ),
        y_sum(xp, in_idx, out_idx, x, xp.len()) == sum_prefix(xp, xp.len()) - xp[in_idx] + x - xp[out_idx],
        y_c(xp, in_idx, out_idx, x, d, n, xp.len()) == dp_after(
            other_balances(xp, in_idx, out_idx, x),
            d,
            n,
            (xp.len() - 1) as nat,
        ),
{
    lemma_y_prefix_over_others(xp, in_idx, out_idx, x, d, n, xp.len());
    lemma_sum_update_remove(xp, in_idx, out_idx, x, xp.len());
}

/// The output token's new balance depends on the input token only through
/// the balances that the computation works over: two swaps into the same
/// token, from any input tokens, that leave the other balances alike give
/// the same new balance (for instance two swaps of nothing).
pub proof fn lemma_get_y_by_other_balances(
    xp: Seq<u128>,
    amp: u128,
    i1: int,
    i2: int,
    j: int,
    x1: u128,
    x2: u128,
)
    requires
        0 <= i1 < xp.len(),
        0 <= i2 < xp.len(),
        0 <= j < xp.len(),
        i1 != j,
        i2 != j,
        other_balances(xp, i1, j, x1) == other_balances(xp, i2, j, x2),
    ensures
        get_y_value(xp, amp, i1, j, x1) == get_y_value(xp, amp, i2, j, x2),
{
    let n = xp.len() as int;
    let d = get_d_value(xp, amp);
    lemma_y_over_other_balances(xp, i1, j, x1, d, n);
    lemma_y_over_other_balances(xp, i2, j, x2, d, n);
}

/// The sum over the first `k` other balances, against the pool's sum.
proof fn lemma_sum_update_remove(xp: Seq<u128>, in_idx: int, out_idx: int, x: u128, k: nat)
    requires
        0 <= in_idx < xp.len(),
        0 <= out_idx < xp.len(),
        in_idx != out_idx,
        k <= xp.len(),
    ensures
        y_sum(xp, in_idx, out_idx, x, k) == sum_prefix(xp, k) - (if in_idx < k { xp[in_idx] - x } else { 0 }) - (
        if out_idx < k {
            xp[out_idx] as int
        } else {
            0
        }),
    decreases k,
{
    if k > 0 {
        lemma_sum_update_remove(xp, in_idx, out_idx, x, (k - 1) as nat);
    }
}

/// Newton iterations for `y`: `y = (y^2 + c) / (2y + b - D)`.
pub open spec fn y_newton(c: int, b: int, d: int, y: int, k: nat) -> int
    decreases k,
{
    if k == 0 {
        y
    } else {
        let denominator = 2 * y + b - d;
        if denominator == 0 {
            y
        } else {
            let y2 = (y * y + c) / denominator;
            if abs_diff(y2, y) <= 1 {
                y2
            } else {
                y_newton(c, b, d, y2, (k - 1) as nat)
            }
        }
    }
}

/// Every step of `y_newton` stays within `u128`.
pub open spec fn y_newton_safe(c: int, b: int, d: int, y: int, k: nat) -> bool
    decreases k,
{
    if k == 0 {
        true
    } else {
        let denominator = 2 * y + b - d;
        &&& fits(y * y)
        &&& fits(y * y + c)
        &&& fits(2 * y)
        &&& fits(2 * y + b)
        &&& fits(denominator)
        &&& (denominator != 0 && abs_diff((y * y + c) / denominator, y) > 1 ==> y_newton_safe(
            c,
            b,
            d,
            (y * y + c) / denominator,
            (k - 1) as nat,
        ))
    }
}

/// The constants of the `y` iteration: `(c, b, D)`.
pub open spec fn y_constants(xp: Seq<u128>, amp: u128, in_idx: int, out_idx: int, x: u128) -> (int, int, int) {
    let n = xp.len() as int;
    let d = get_d_value(xp, amp);
    let ann = amp * n;
    let c = (y_c(xp, in_idx, out_idx, x, d, n, xp.len()) * d) / (ann * n);
    let b = y_sum(xp, in_idx, out_idx, x, xp.len()) + d / ann;
    (c, b, d)
}

/// The output token's new balance after the input token's balance becomes
/// `x`.
pub open spec fn get_y_value(xp: Seq<u128>, amp: u128, in_idx: int, out_idx: int, x: u128) -> int {
    let (c, b, d) = y_constants(xp, amp, in_idx, out_idx, x);
    y_newton(c, b, d, d, 255)
}

/// Computing `y` stays within `u128` and divides by no zero.
pub open spec fn get_y_safe(xp: Seq<u128>, amp: u128, in_idx: int, out_idx: int, x: u128) -> bool {
    let n = xp.len() as int;
    let d = get_d_value(xp, amp);
    let ann = amp * n;
    let c1 = y_c(xp, in_idx, out_idx, x, d, n, xp.len());
    let (c, b, _d) = y_constants(xp, amp, in_idx, out_idx, x);
    &&& get_d_safe(xp, amp)
    &&& y_loop_safe(xp, in_idx, out_idx, x, d, n, xp.len())
    &&& fits(c1 * d)
    &&& fits(ann * n)
    &&& ann * n != 0
    &&& fits(b)
    &&& y_newton_safe(c, b, d, d, 255)
}

/// Multipliers that scale every token to the largest number of decimals.
pub open spec fn precision_mul_value(decimals: Seq<u32>) -> Seq<int> {
    Seq::new(decimals.len(), |k: int| pow10((max_decimals(decimals) - decimals[k]) as nat))
}

/// Reserves scaled to a common precision.
pub open spec fn xp_value(reserves: Seq<u128>, decimals: Seq<u32>) -> Seq<int> {
    let len = if reserves.len() <= decimals.len() {
        reserves.len()
    } else {
        decimals.len()
    };
    Seq::new(len, |k: int| reserves[k] * precision_mul_value(decimals)[k])
}

/// Scaling stays within `u128`.
pub open spec fn scaling_safe(reserves: Seq<u128>, decimals: Seq<u32>) -> bool {
    &&& forall|k: int| 0 <= k < decimals.len() ==> max_decimals(decimals) - decimals[k] <= 38
    &&& forall|k: int| 0 <= k < xp_value(reserves, decimals).len() ==> fits(#[trigger] xp_value(reserves, decimals)[k])
}

/// The scaled reserves as `u128` values.
pub open spec fn xp_u128(reserves: Seq<u128>, decimals: Seq<u32>) -> Seq<u128> {
    xp_value(reserves, decimals).map_values(|v: int| v as u128)
}

/// The input fee on `dx`, rounded up.
pub open spec fn input_fee(fee_bps: u32, dx: u128) -> int {
    (dx * fee_bps + 9_999) / 10_000
}

/// The new scaled balance of token `i` after `dx` less the fee enters.
pub open spec fn new_balance(reserves: Seq<u128>, decimals: Seq<u32>, fee_bps: u32, i: int, dx: u128) -> int {
    xp_value(reserves, decimals)[i] + (dx - input_fee(fee_bps, dx)) * precision_mul_value(decimals)[i]
}

/// Output amount of a swap of `dx` of token `i` into token `j`.
pub open spec fn dy_value(
    reserves: Seq<u128>,
    decimals: Seq<u32>,
    amp: u128,
    fee_bps: u32,
    i: int,
    j: int,
    dx: u128,
) -> int {
    if i == j || i >= reserves.len() || j >= reserves.len() || dx == 0 {
        0
    } else {
        let xp = xp_u128(reserves, decimals);
        let y = get_y_value(xp, amp, i, j, new_balance(reserves, decimals, fee_bps, i, dx) as u128);
        if y == 0 || xp[j] <= y {
            0
        } else {
            (xp[j] - y - 1) / precision_mul_value(decimals)[j]
        }
    }
}

/// The swap stays within `u128`, indexes inside the scaled reserves, and
/// divides by no zero.
pub open spec fn dy_safe(
    reserves: Seq<u128>,
    decimals: Seq<u32>,
    amp: u128,
    fee_bps: u32,
    i: int,
    j: int,
    dx: u128,
) -> bool {
    (i == j || i >= reserves.len() || j >= reserves.len() || dx == 0) || {
        let xp = xp_u128(reserves, decimals);
        let pmul = precision_mul_value(decimals);
        let x = new_balance(reserves, decimals, fee_bps, i, dx);
        &&& scaling_safe(reserves, decimals)
        &&& i < xp.len() && j < xp.len()
        &&& fits(dx * fee_bps)
        &&& fits(dx * fee_bps + 10_000)
        &&& input_fee(fee_bps, dx) <= dx
        &&& fits((dx - input_fee(fee_bps, dx)) * pmul[i])
        &&& fits(x)
        &&& get_y_safe(xp, amp, i, j, x as u128)
    }
}

impl StablePool {
    /// Output amount of `get_dy`.
    pub open spec fn get_dy_value(&self, i: int, j: int, dx: u128) -> int {
        dy_value(self.reserves@, self.decimals@, self.amp, self.fee_bps, i, j, dx)
    }

    /// `get_dy` stays within `u128`, indexes inside the scaled reserves, and
    /// divides by no zero.
    pub open spec fn get_dy_safe(&self, i: int, j: int, dx: u128) -> bool {
        dy_safe(self.reserves@, self.decimals@, self.amp, self.fee_bps, i, j, dx)
    }
}

proof fn lemma_pow10_bound(e: nat)
    requires
        e <= 38,
    ensures
        1 <= pow10(e) <= 100_000_000_000_000_000_000_000_000_000_000_000_000,
    decreases e,
{
    if e > 0 {
        lemma_pow10_bound((e - 1) as nat);
        if e == 38 {
            reveal_with_fuel(pow10, 39);
        } else {
            lemma_pow10_below((e - 1) as nat);
        }
    }
}

proof fn lemma_pow10_below(e: nat)
    requires
        e < 38,
    ensures
        pow10(e) <= 10_000_000_000_000_000_000_000_000_000_000_000_000,
    decreases 38 - e,
{
    if e < 37 {
        lemma_pow10_below(e + 1);
        assert(pow10(e + 1) == 10 * pow10(e));
        assert(pow10(e) >= 0) by {
            lemma_pow10_pos(e);
        }
    } else {
        reveal_with_fuel(pow10, 38);
    }
}

proof fn lemma_pow10_pos(e: nat)
    ensures
        pow10(e) >= 1,
    decreases e,
{
    if e > 0 {
        lemma_pow10_pos((e - 1) as nat);
    }
}

fn pow10_u128(e: u32) -> (r: u128)
    requires
        e <= 38,
    ensures
        r == pow10(e as nat),
{
    let mut r: u128 = 1;
    let mut k: u32 = 0;
    while k < e
        invariant
            k <= e <= 38,
            r == pow10(k as nat),
        decreases e - k,
    {
        proof {
            lemma_pow10_below(k as nat);
            lemma_pow10_pos(k as nat);
        }
        r = r * 10;
        k = k + 1;
    }
    r
}

proof fn lemma_max_decimals_step(decimals: Seq<u32>, k: int)
    requires
        0 < k < decimals.len(),
    ensures
        max_decimals(decimals.subrange(0, k + 1)) == (if decimals[k] > max_decimals(decimals.subrange(0, k)) {
            decimals[k]
        } else {
            max_decimals(decimals.subrange(0, k))
        }),
{
    assert(decimals.subrange(0, k + 1).drop_last() =~= decimals.subrange(0, k));
}

proof fn lemma_max_decimals_ge(decimals: Seq<u32>, k: int)
    requires
        0 <= k < decimals.len(),
    ensures
        decimals[k] <= max_decimals(decimals),
    decreases decimals.len(),
{
    if decimals.len() > 1 && k < decimals.len() - 1 {
        lemma_max_decimals_ge(decimals.drop_last(), k);
    }
}

proof fn lemma_sum_prefix_mono(xp: Seq<u128>, j: nat, k: nat)
    requires
        j <= k <= xp.len(),
    ensures
        0 <= sum_prefix(xp, j) <= sum_prefix(xp, k),
    decreases k - j,
{
    if j < k {
        lemma_sum_prefix_mono(xp, j, (k - 1) as nat);
    } else {
        lemma_sum_prefix_nonneg(xp, k);
    }
}

proof fn lemma_sum_prefix_nonneg(xp: Seq<u128>, k: nat)
    requires
        k <= xp.len(),
    ensures
        sum_prefix(xp, k) >= 0,
    decreases k,
{
    if k > 0 {
        lemma_sum_prefix_nonneg(xp, (k - 1) as nat);
    }
}

proof fn lemma_dp_safe_prefix(xp: Seq<u128>, d: int, n: int, j: nat, k: nat)
    requires
        j <= k,
        dp_safe(xp, d, n, k),
    ensures
        dp_safe(xp, d, n, j),
    decreases k - j,
{
    if j < k {
        lemma_dp_safe_prefix(xp, d, n, j, (k - 1) as nat);
    }
}

proof fn lemma_y_loop_safe_prefix(xp: Seq<u128>, in_idx: int, out_idx: int, x: u128, d: int, n: int, j: nat, k: nat)
    requires
        j <= k,
        y_loop_safe(xp, in_idx, out_idx, x, d, n, k),
    ensures
        y_loop_safe(xp, in_idx, out_idx, x, d, n, j),
    decreases k - j,
{
    if j < k {
        lemma_y_loop_safe_prefix(xp, in_idx, out_idx, x, d, n, j, (k - 1) as nat);
    }
}

fn abs_diff_u128(a: u128, b: u128) -> (r: u128)
    ensures
        r == abs_diff(a as int, b as int),
{
    if a >= b {
        a - b
    } else {
        b - a
    }
}

impl StablePool {
    /// Multipliers that scale every token to the largest number of decimals.
    fn precision_mul(&self) -> (r: Vec<u128>)
        requires
            forall|k: int| 0 <= k < self.decimals.len() ==> max_decimals(self.decimals@) - self.decimals[k] <= 38,
        ensures
            r@.len() == self.decimals.len(),
            forall|k: int| 0 <= k < r@.len() ==> r@[k] == precision_mul_value(self.decimals@)[k],
    {
        let len = self.decimals.len();
        let mut max_dec: u32 = 7;
        if len > 0 {
            max_dec = self.decimals[0];
            let mut k: usize = 1;
            proof {
                assert(self.decimals@.subrange(0, 1).drop_last() =~= Seq::<u32>::empty());
            }
            while k < len
                invariant
                    1 <= k <= len,
                    len == self.decimals.len(),
                    max_dec == max_decimals(self.decimals@.subrange(0, k as int)),
                decreases len - k,
            {
                proof {
                    lemma_max_decimals_step(self.decimals@, k as int);
                }
                if self.decimals[k] > max_dec {
                    max_dec = self.decimals[k];
                }
                k = k + 1;
            }
            proof {
                assert(self.decimals@.subrange(0, len as int) =~= self.decimals@);
            }
        }
        let mut out: Vec<u128> = Vec::new();
        let mut k: usize = 0;
        while k < len
            invariant
                k <= len,
                len == self.decimals.len(),
                max_dec == max_decimals(self.decimals@),
                forall|j: int| 0 <= j < len ==> max_decimals(self.decimals@) - self.decimals[j] <= 38,
                out@.len() == k,
                forall|j: int| 0 <= j < k ==> out@[j] == precision_mul_value(self.decimals@)[j],
            decreases len - k,
        {
            proof {
                lemma_max_decimals_ge(self.decimals@, k as int);
            }
            let e = max_dec - self.decimals[k];
            out.push(pow10_u128(e));
            k = k + 1;
        }
        out
    }

    /// Reserves scaled to a common precision.
    fn xp(&self) -> (r: Vec<u128>)
        requires
            scaling_safe(self.reserves@, self.decimals@),
        ensures
            r@ == xp_u128(self.reserves@, self.decimals@),
    {
        let pmul = self.precision_mul();
        let len = if self.reserves.len() <= pmul.len() {
            self.reserves.len()
        } else {
            pmul.len()
        };
        let mut out: Vec<u128> = Vec::new();
        let mut k: usize = 0;
        while k < len
            invariant
                k <= len,
                len <= self.reserves.len(),
                len <= pmul.len(),
                len == xp_value(self.reserves@, self.decimals@).len(),
                pmul@.len() == self.decimals.len(),
                forall|j: int| 0 <= j < pmul@.len() ==> pmul@[j] == precision_mul_value(self.decimals@)[j],
                scaling_safe(self.reserves@, self.decimals@),
                out@.len() == k,
                forall|j: int| 0 <= j < k ==> out@[j] == xp_value(self.reserves@, self.decimals@)[j],
            decreases len - k,
        {
            assert(fits(xp_value(self.reserves@, self.decimals@)[k as int]));
            out.push(self.reserves[k] * pmul[k]);
            k = k + 1;
        }
        assert(out@ =~= xp_u128(self.reserves@, self.decimals@));
        out
    }

    /// The invariant `D` by Newton's method.
    fn get_d(&self, xp: &[u128]) -> (r: u128)
        requires
            get_d_safe(xp@, self.amp),
        ensures
            r == get_d_value(xp@, self.amp),
    {
        let len = xp.len();
        let n = len as u128;
        let mut s: u128 = 0;
        let mut k: usize = 0;
        while k < len
            invariant
                k <= len,
                len == xp@.len(),
                fits(sum_prefix(xp@, len as nat)),
                s == sum_prefix(xp@, k as nat),
            decreases len - k,
        {
            proof {
                lemma_sum_prefix_mono(xp@, (k + 1) as nat, len as nat);
            }
            s = s + xp[k];
            k = k + 1;
        }
        if s == 0 {
            return 0;
        }
        let ann = self.amp * n;
        let mut d = s;
        let mut it: u32 = 0;
        while it < 255
            invariant
                it <= 255,
                len == xp@.len(),
                n == len,
                s == sum_prefix(xp@, len as nat),
                ann == self.amp * n,
                get_d_value(xp@, self.amp) == d_newton(xp@, ann as int, s as int, n as int, d as int, (255 - it) as nat),
                d_newton_safe(xp@, ann as int, s as int, n as int, d as int, (255 - it) as nat),
            decreases 255 - it,
        {
            let mut d_p = d;
            let mut k: usize = 0;
            while k < len
                invariant
                    k <= len,
                    len == xp@.len(),
                    n == len,
                    dp_safe(xp@, d as int, n as int, len as nat),
                    d_p == dp_after(xp@, d as int, n as int, k as nat),
                decreases len - k,
            {
                proof {
                    lemma_dp_safe_prefix(xp@, d as int, n as int, (k + 1) as nat, len as nat);
                }
                d_p = d_p * d / (xp[k] * n);
                k = k + 1;
            }
            let d_prev = d;
            let numerator = (ann * s + d_p * n) * d;
            let denominator = (ann - 1) * d + (n + 1) * d_p;
            if denominator == 0 {
                return d;
            }
            d = numerator / denominator;
            if abs_diff_u128(d, d_prev) <= 1 {
                return d;
            }
            it = it + 1;
        }
        d
    }
}

impl StablePool {
    /// The output token's new balance after the input token's balance
    /// becomes `x`, by Newton's method.
    fn get_y(&self, in_idx: usize, out_idx: usize, x: u128, xp: &[u128]) -> (r: u128)
        requires
            get_y_safe(xp@, self.amp, in_idx as int, out_idx as int, x),
        ensures
            r == get_y_value(xp@, self.amp, in_idx as int, out_idx as int, x),
    {
        let len = xp.len();
        let n = len as u128;
        let d = self.get_d(xp);
        let ann = self.amp * n;
        let mut c = d;
        let mut s: u128 = 0;
        let mut i: usize = 0;
        while i < len
            invariant
                i <= len,
                len == xp@.len(),
                n == len,
                d == get_d_value(xp@, self.amp),
                y_loop_safe(xp@, in_idx as int, out_idx as int, x, d as int, n as int, len as nat),
                s == y_sum(xp@, in_idx as int, out_idx as int, x, i as nat),
                c == y_c(xp@, in_idx as int, out_idx as int, x, d as int, n as int, i as nat),
            decreases len - i,
        {
            proof {
                lemma_y_loop_safe_prefix(xp@, in_idx as int, out_idx as int, x, d as int, n as int, (i + 1) as nat, len as nat);
            }
            if i == in_idx || i != out_idx {
                let x_i = if i == in_idx {
                    x
                } else {
                    xp[i]
                };
                s = s + x_i;
                c = c * d / (x_i * n);
            }
            i = i + 1;
        }
        c = c * d / (ann * n);
        let b = s + d / ann;
        let mut y = d;
        let mut it: u32 = 0;
        while it < 255
            invariant
                it <= 255,
                get_y_value(xp@, self.amp, in_idx as int, out_idx as int, x) == y_newton(c as int, b as int, d as int, y as int, (255 - it) as nat),
                y_newton_safe(c as int, b as int, d as int, y as int, (255 - it) as nat),
            decreases 255 - it,
        {
            let y_prev = y;
            let numerator = y * y + c;
            let denominator = 2 * y + b - d;
            if denominator == 0 {
                return y;
            }
            y = numerator / denominator;
            if abs_diff_u128(y, y_prev) <= 1 {
                return y;
            }
            it = it + 1;
        }
        y
    }

    /// Output amount for swapping `dx` of token `i` into token `j`, in token
    /// `j`'s native decimals; 0 for a degenerate request or an empty result.
    pub fn get_dy(&self, i: usize, j: usize, dx: u128) -> (r: u128)
        requires
            self.get_dy_safe(i as int, j as int, dx),
        ensures
            r == self.get_dy_value(i as int, j as int, dx),
    {
        if i == j || i >= self.reserves.len() || j >= self.reserves.len() {
            return 0;
        }
        if dx == 0 {
            return 0;
        }
        let pmul = self.precision_mul();
        let xp = self.xp();
        let dx_fee = (dx * self.fee_bps as u128 + FEE_DENOMINATOR - 1) / FEE_DENOMINATOR;
        let dx_after_fee = dx - dx_fee;
        let x = xp[i] + dx_after_fee * pmul[i];
        let y = self.get_y(i, j, x, xp.as_slice());
        if y == 0 || xp[j] <= y {
            return 0;
        }
        proof {
            lemma_pow10_pos((max_decimals(self.decimals@) - self.decimals[j as int]) as nat);
        }
        let dy = (xp[j] - y - 1) / pmul[j];
        dy
    }
}

/// The Newton iteration for `D` keeps a non-negative value.
proof fn lemma_d_newton_nonneg(xp: Seq<u128>, ann: int, s: int, n: int, d: int, k: nat)
    requires
        d >= 0,
        d_newton_safe(xp, ann, s, n, d, k),
    ensures
        d_newton(xp, ann, s, n, d, k) >= 0,
    decreases k,
{
    if k > 0 {
        let dp = dp_after(xp, d, n, xp.len());
        let numerator = (ann * s + dp * n) * d;
        let denominator = (ann - 1) * d + (n + 1) * dp;
        if denominator != 0 {
            vstd::arithmetic::div_mod::lemma_div_pos_is_pos(numerator, denominator);
            if abs_diff(numerator / denominator, d) > 1 {
                lemma_d_newton_nonneg(xp, ann, s, n, numerator / denominator, (k - 1) as nat);
            }
        }
    }
}

/// The Newton iteration for `y` keeps a non-negative value.
proof fn lemma_y_newton_nonneg(c: int, b: int, d: int, y: int, k: nat)
    requires
        y >= 0,
        y_newton_safe(c, b, d, y, k),
    ensures
        y_newton(c, b, d, y, k) >= 0,
    decreases k,
{
    if k > 0 {
        let denominator = 2 * y + b - d;
        if denominator != 0 {
            vstd::arithmetic::div_mod::lemma_div_pos_is_pos(y * y + c, denominator);
            if abs_diff((y * y + c) / denominator, y) > 1 {
                lemma_y_newton_nonneg(c, b, d, (y * y + c) / denominator, (k - 1) as nat);
            }
        }
    }
}

/// The `D` chain over equal balances `b` with `d == n * b` stays `d`.
proof fn lemma_dp_after_balanced(xp: Seq<u128>, b: int, d: int, n: int, k: nat)
    requires
        k <= xp.len(),
        forall|m: int| 0 <= m < xp.len() ==> xp[m] == b,
        b > 0,
        n > 0,
        d == n * b,
    ensures
        dp_after(xp, d, n, k) == d,
        sum_prefix(xp, k) == k * b,
    decreases k,
{
    if k > 0 {
        lemma_dp_after_balanced(xp, b, d, n, (k - 1) as nat);
        assert(xp[k - 1] * n == d) by (nonlinear_arith)
            requires
                xp[k - 1] == b,
                d == n * b,
        ;
        assert(d > 0) by (nonlinear_arith)
            requires
                n > 0,
                b > 0,
                d == n * b,
        ;
        vstd::arithmetic::div_mod::lemma_div_multiples_vanish(d, d);
        assert(sum_prefix(xp, k) == (k - 1) * b + b);
        assert((k - 1) * b + b == k * b) by (nonlinear_arith);
    }
}

/// A pool whose tokens all hold the same (scaled) balance has the sum of
/// its balances as its invariant `D`: at balance the stableswap curve meets
/// the constant-sum line.
pub proof fn lemma_balanced_pool_d(xp: Seq<u128>, amp: u128, b: u128)
    requires
        xp.len() > 0,
        b > 0,
        forall|m: int| 0 <= m < xp.len() ==> xp[m] == b,
    ensures
        get_d_value(xp, amp) == xp.len() * b,
        get_d_value(xp, amp) == sum_prefix(xp, xp.len()),
{
    let n = xp.len() as int;
    let d = n * b;
    assert(d > 0) by (nonlinear_arith)
        requires
            n > 0,
            b > 0,
            d == n * b,
    ;
    lemma_dp_after_balanced(xp, b as int, d, n, xp.len());
    let ann = amp * n;
    let s = d;
    let numerator = (ann * s + d * n) * d;
    let denominator = (ann - 1) * d + (n + 1) * d;
    assert(denominator == (ann + n) * d) by (nonlinear_arith)
        requires
            denominator == (ann - 1) * d + (n + 1) * d,
    ;
    assert(numerator == ((ann + n) * d) * d) by (nonlinear_arith)
        requires
            numerator == (ann * s + d * n) * d,
            s == d,
    ;
    assert((ann + n) * d > 0) by (nonlinear_arith)
        requires
            ann >= 0,
            n > 0,
            d > 0,
    ;
    vstd::arithmetic::div_mod::lemma_div_multiples_vanish(d, (ann + n) * d);
    vstd::arithmetic::mul::lemma_mul_is_commutative(d, (ann + n) * d);
    assert(numerator / denominator == d);
}

/// A stableswap quote never takes the pool's whole reserve of the output
/// token: it is below that reserve (0 for an empty one), and it is 0 for a
/// swap of a token into itself, out of range, or of nothing.
pub proof fn lemma_dy_below_output_reserve(pool: StablePool, i: int, j: int, dx: u128)
    requires
        pool.get_dy_safe(i, j, dx),
        0 <= j,
    ensures
        i == j || i >= pool.reserves@.len() || j >= pool.reserves@.len() || dx == 0 ==> pool.get_dy_value(i, j, dx)
            == 0,
        0 <= pool.get_dy_value(i, j, dx),
        j < pool.reserves@.len() && pool.reserves@[j] > 0 ==> pool.get_dy_value(i, j, dx) < pool.reserves@[j],
        j < pool.reserves@.len() ==> pool.get_dy_value(i, j, dx) <= pool.reserves@[j],
{
    let r = pool.reserves@;
    let dec = pool.decimals@;
    if !(i == j || i >= r.len() || j >= r.len() || dx == 0) {
        let xp = xp_u128(r, dec);
        let pm = precision_mul_value(dec)[j];
        lemma_pow10_pos((max_decimals(dec) - dec[j]) as nat);
        assert(fits(xp_value(r, dec)[j]));
        assert(xp[j] == r[j] * pm);
        let x = new_balance(r, dec, pool.fee_bps, i, dx) as u128;
        let y = get_y_value(xp, pool.amp, i, j, x);
        let sm = sum_prefix(xp, xp.len());
        if sm != 0 {
            lemma_d_newton_nonneg(xp, pool.amp * (xp.len() as int), sm, xp.len() as int, sm, 255);
        }
        let (c, b, dd) = y_constants(xp, pool.amp, i, j, x);
        lemma_y_newton_nonneg(c, b, dd, dd, 255);
        if !(y == 0 || xp[j] <= y) {
            let v = xp[j] - y - 1;
            assert(0 <= v < r[j] * pm);
            vstd::arithmetic::div_mod::lemma_div_is_ordered(v, r[j] * pm, pm);
            vstd::arithmetic::div_mod::lemma_div_multiples_vanish(r[j] as int, pm);
            vstd::arithmetic::mul::lemma_mul_is_commutative(r[j] as int, pm);
            vstd::arithmetic::div_mod::lemma_div_pos_is_pos(v, pm);
            assert(v / pm < r[j]) by {
                vstd::arithmetic::div_mod::lemma_fundamental_div_mod(v, pm);
                vstd::arithmetic::div_mod::lemma_mod_bound(v, pm);
                assert((v / pm) * pm <= v) by (nonlinear_arith)
                    requires
                        v == pm * (v / pm) + v % pm,
                        v % pm >= 0,
                ;
                assert(v / pm < r[j]) by (nonlinear_arith)
                    requires
                        (v / pm) * pm <= v,
                        v < r[j] * pm,
                        pm >= 1,
                ;
            }
        }
    }
}

} // verus!
