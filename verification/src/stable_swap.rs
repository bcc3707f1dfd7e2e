//! The Curve-style stable-swap pool: up to four tokens of differing
//! decimals, priced by the invariant `D` and solved by bounded fixed-point
//! iteration in 256-bit arithmetic.
//!
//! Reserves are kept twice: `c_amounts` scaled to eighteen decimals drive
//! the pricing, and raw `amounts` track custody, moving by exactly what
//! users pay in and receive.  Both iterations are capped at 256 rounds and
//! report failure rather than loop.

use vstd::prelude::*;
use vstd::arithmetic::mul::*;
use vstd::arithmetic::div_mod::*;
use crate::errors::ExchangeError;
use crate::pool::AdminFees;
use crate::math::{
    pow10, pow128, pow256, mul_wide, u256_from, u256_le, u256_lt, u256_checked_add, u256_checked_mul,
    u256_divmod, u256_sub, u256_as_u128, FEE_DIVISOR, U256,
};
use crate::table::{
    lemma_sum_elem_le, lemma_sum_prefix_le, lemma_sum_push, lemma_sum_two_elems, lemma_sum_update,
    sum_vals, Table,
};

verus! {

/// Reserves are scaled to this number of decimals for pricing.
pub const TARGET_DECIMALS: u8 = 18;

/// One step of the running product `dp <- dp * d / (x * n)`, with the
/// 256-bit overflow and zero-divisor cuts of the executable arithmetic.
pub open spec fn d_prod_step(dp: int, d: int, x: int, n: int) -> Option<int> {
    if dp * d >= pow256() {
        None
    } else if x * n == 0 {
        None
    } else {
        Some(dp * d / (x * n))
    }
}

/// The running product after folding the first `i` reserves.
pub open spec fn d_prod_upto(xs: Seq<u128>, d: int, i: nat) -> Option<int>
    decreases i,
{
    if i == 0 {
        Some(d)
    } else {
        match d_prod_upto(xs, d, (i - 1) as nat) {
            None => None,
            Some(dp) => d_prod_step(dp, d, xs[i - 1] as int, xs.len() as int),
        }
    }
}

/// One Newton step of the invariant iteration:
/// `D' = (ann * sum + n * dp) * D / ((ann - 1) * D + (n + 1) * dp)`.
pub open spec fn d_step(xs: Seq<u128>, ann: int, sum_x: int, d: int) -> Option<int> {
    let n = xs.len() as int;
    match d_prod_upto(xs, d, xs.len()) {
        None => None,
        Some(dp) => {
            if ann * sum_x >= pow256() {
                None
            } else if n * dp >= pow256() {
                None
            } else if ann * sum_x + n * dp >= pow256() {
                None
            } else if (ann * sum_x + n * dp) * d >= pow256() {
                None
            } else if (n + 1) * dp >= pow256() {
                None
            } else if (ann - 1) * d + (n + 1) * dp >= pow256() {
                None
            } else if (ann - 1) * d + (n + 1) * dp == 0 {
                None
            } else {
                Some((ann * sum_x + n * dp) * d / ((ann - 1) * d + (n + 1) * dp))
            }
        },
    }
}

/// The invariant iteration, at most `fuel` rounds, stopping when two
/// successive values differ by at most one.
pub open spec fn d_iter(xs: Seq<u128>, ann: int, sum_x: int, d: int, fuel: nat) -> Option<int>
    decreases fuel,
{
    if fuel == 0 {
        None
    } else {
        match d_step(xs, ann, sum_x, d) {
            None => None,
            Some(dn) => if dn <= d + 1 && d <= dn + 1 {
                Some(dn)
            } else {
                d_iter(xs, ann, sum_x, dn, (fuel - 1) as nat)
            },
        }
    }
}

/// The invariant `D` of scaled reserves `xs` at amplification `amp`:
/// zero for an empty pool, else the converged iteration value, `None`
/// when the arithmetic overflows or 256 rounds do not converge.
pub open spec fn spec_compute_d(xs: Seq<u128>, amp: int) -> Option<int> {
    let sum = sum_vals(xs);
    if sum == 0 {
        Some(0)
    } else if sum >= pow128() {
        None
    } else {
        d_iter(xs, amp * xs.len(), sum, sum, 256)
    }
}

/// Computes the invariant `D` for scaled reserves `xs` at amplification
/// `amp`, by the capped Newton iteration.
pub fn compute_d(xs: &Vec<u128>, amp: u128) -> (r: Result<U256, ExchangeError>)
    requires
        amp >= 1,
        2 <= xs@.len() <= 4,
    ensures
        match r {
            Ok(d) => spec_compute_d(xs@, amp as int) == Some(d.val()),
            Err(e) => {
                &&& spec_compute_d(xs@, amp as int) is None
                &&& (e == ExchangeError::ComputeDFailed || e == ExchangeError::MathOverflow)
            },
        },
{
    let n = xs.len();
    let mut sum: u128 = 0;
    let mut i: usize = 0;
    while i < n
        invariant
            i <= n == xs@.len(),
            sum == sum_vals(xs@.subrange(0, i as int)),
        decreases n - i,
    {
        proof {
            assert(xs@.subrange(0, i + 1).drop_last() =~= xs@.subrange(0, i as int));
        }
        sum = match sum.checked_add(xs[i]) {
            Some(v) => v,
            None => {
                proof {
                    lemma_sum_prefix_le(xs@, i + 1);
                }
                return Err(ExchangeError::MathOverflow);
            },
        };
        i = i + 1;
    }
    proof {
        assert(xs@.subrange(0, n as int) =~= xs@);
    }
    if sum == 0 {
        return Ok(U256 { hi: 0, lo: 0 });
    }
    let ann = mul_wide(amp, n as u128);
    proof {
        assert(ann.val() >= 1) by (nonlinear_arith)
            requires
                ann.val() == amp * (n as int),
                amp >= 1,
                n >= 2,
        {
        }
    }
    let mut d = u256_from(sum);
    let mut iter: usize = 0;
    while iter < 256
        invariant
            iter <= 256,
            2 <= n == xs@.len(),
            n <= 4,
            ann.val() == amp * xs@.len(),
            ann.val() >= 1,
            sum == sum_vals(xs@),
            sum > 0,
            spec_compute_d(xs@, amp as int) == d_iter(
                xs@,
                ann.val(),
                sum as int,
                d.val(),
                (256 - iter) as nat,
            ),
        decreases 256 - iter,
    {
        // running product over all reserves
        let mut dp = d;
        let mut j: usize = 0;
        while j < n
            invariant
                iter < 256,
                2 <= n <= 4,
                j <= n == xs@.len(),
                d_prod_upto(xs@, d.val(), j as nat) == Some(dp.val()),
                spec_compute_d(xs@, amp as int) == d_iter(
                    xs@,
                    ann.val(),
                    sum as int,
                    d.val(),
                    (256 - iter) as nat,
                ),
            decreases n - j,
        {
            let dd = match u256_checked_mul(dp, d) {
                Some(v) => v,
                None => {
                    proof {
                        lemma_d_prod_step_none(xs@, d.val(), j as nat);
                    }
                    return Err(ExchangeError::MathOverflow);
                },
            };
            if xs[j] == 0 {
                proof {
                    lemma_mul_by_zero_is_zero(n as int);
                    dd.lemma_val_bounds();
                    lemma_d_prod_step_none(xs@, d.val(), j as nat);
                }
                return Err(ExchangeError::ComputeDFailed);
            }
            let xn = mul_wide(xs[j], n as u128);
            proof {
                assert(xn.val() >= 1) by (nonlinear_arith)
                    requires
                        xn.val() == (xs@[j as int] as int) * (n as int),
                        xs@[j as int] >= 1,
                        n >= 2,
                {
                }
            }
            let (q, _rm) = u256_divmod(dd, xn);
            proof {
                lemma_fundamental_div_mod_converse(dd.val(), xn.val(), q.val(), _rm.val());
                assert(q.val() == dp.val() * d.val() / ((xs@[j as int] as int) * (
                xs@.len() as int)));
                assert(d_prod_step(dp.val(), d.val(), xs@[j as int] as int, xs@.len() as int)
                    == Some(q.val()));
                assert(d_prod_upto(xs@, d.val(), (j + 1) as nat) == Some(q.val()));
            }
            dp = q;
            j = j + 1;
        }
        // numerator (ann * sum + n * dp) * d
        let t1 = match u256_checked_mul(ann, u256_from(sum)) {
            Some(v) => v,
            None => {
                return Err(ExchangeError::MathOverflow);
            },
        };
        let t2 = match u256_checked_mul(u256_from(n as u128), dp) {
            Some(v) => v,
            None => {
                return Err(ExchangeError::MathOverflow);
            },
        };
        let num_base = match u256_checked_add(t1, t2) {
            Some(v) => v,
            None => {
                return Err(ExchangeError::MathOverflow);
            },
        };
        let num = match u256_checked_mul(num_base, d) {
            Some(v) => v,
            None => {
                return Err(ExchangeError::MathOverflow);
            },
        };
        // denominator (ann - 1) * d + (n + 1) * dp
        let ann1 = u256_sub(ann, U256 { hi: 0, lo: 1 });
        let den1 = match u256_checked_mul(ann1, d) {
            Some(v) => v,
            None => {
                proof {
                    dp.lemma_val_bounds();
                    lemma_mul_nonnegative((n + 1) as int, dp.val());
                }
                return Err(ExchangeError::MathOverflow);
            },
        };
        let den2 = match u256_checked_mul(u256_from((n + 1) as u128), dp) {
            Some(v) => v,
            None => {
                return Err(ExchangeError::MathOverflow);
            },
        };
        let den = match u256_checked_add(den1, den2) {
            Some(v) => v,
            None => {
                return Err(ExchangeError::MathOverflow);
            },
        };
        if den.hi == 0 && den.lo == 0 {
            return Err(ExchangeError::ComputeDFailed);
        }
        let (dn, _rm2) = u256_divmod(num, den);
        proof {
            lemma_fundamental_div_mod_converse(num.val(), den.val(), dn.val(), _rm2.val());
        }
        // convergence: |dn - d| <= 1
        let diff = if u256_le(dn, d) {
            u256_sub(d, dn)
        } else {
            u256_sub(dn, d)
        };
        if diff.hi == 0 && diff.lo <= 1 {
            return Ok(dn);
        }
        d = dn;
        iter = iter + 1;
    }
    Err(ExchangeError::ComputeDFailed)
}

/// The sum of the first `i` reserves, skipping position `k`.
pub open spec fn y_sum_upto(xs: Seq<u128>, k: int, i: nat) -> int
    decreases i,
{
    if i == 0 {
        0
    } else if i - 1 == k {
        y_sum_upto(xs, k, (i - 1) as nat)
    } else {
        y_sum_upto(xs, k, (i - 1) as nat) + xs[i - 1]
    }
}

/// The running product for the output solve, skipping position `k`.
pub open spec fn y_c_upto(xs: Seq<u128>, d: int, k: int, i: nat) -> Option<int>
    decreases i,
{
    if i == 0 {
        Some(d)
    } else {
        match y_c_upto(xs, d, k, (i - 1) as nat) {
            None => None,
            Some(c) => if i - 1 == k {
                Some(c)
            } else {
                d_prod_step(c, d, xs[i - 1] as int, xs.len() as int)
            },
        }
    }
}

/// The constant `c = D^(n+1) / (prod_{j != k} x_j * n^n * ann)` of the
/// output solve, folded step by step with overflow cuts.
pub open spec fn spec_y_c(xs: Seq<u128>, d: int, k: int, ann: int) -> Option<int> {
    let n = xs.len() as int;
    match y_c_upto(xs, d, k, xs.len()) {
        None => None,
        Some(c) => {
            if c * d >= pow256() {
                None
            } else if ann * n == 0 {
                None
            } else {
                Some(c * d / (ann * n))
            }
        },
    }
}

/// One iteration of the output solve: `y' = (y^2 + c) / (2y + b - D)`.
pub open spec fn y_step(y: int, b: int, c: int, d: int) -> Option<int> {
    if y * y >= pow256() {
        None
    } else if y * y + c >= pow256() {
        None
    } else if 2 * y >= pow256() {
        None
    } else if 2 * y + b >= pow256() {
        None
    } else if 2 * y + b < d {
        None
    } else if 2 * y + b - d == 0 {
        None
    } else {
        Some((y * y + c) / (2 * y + b - d))
    }
}

/// The output solve iteration, at most `fuel` rounds.
pub open spec fn y_iter(b: int, c: int, d: int, y: int, fuel: nat) -> Option<int>
    decreases fuel,
{
    if fuel == 0 {
        None
    } else {
        match y_step(y, b, c, d) {
            None => None,
            Some(yn) => if yn <= y + 1 && y <= yn + 1 {
                Some(yn)
            } else {
                y_iter(b, c, d, yn, (fuel - 1) as nat)
            },
        }
    }
}

/// The post-swap reserve at position `k` that keeps the invariant at `d`
/// when the other reserves are `xs`: the converged output solve, `None` on
/// overflow or non-convergence.
pub open spec fn spec_compute_y(xs: Seq<u128>, d: int, k: int, ann: int) -> Option<int> {
    if y_sum_upto(xs, k, xs.len()) >= pow128() {
        None
    } else {
        match spec_y_c(xs, d, k, ann) {
            None => None,
            Some(c) => {
                let b = y_sum_upto(xs, k, xs.len()) + d / ann;
                if b >= pow256() {
                    None
                } else {
                    y_iter(b, c, d, d, 256)
                }
            },
        }
    }
}

/// Solves for the reserve at position `k` given the other reserves and the
/// invariant `d`, by the capped iteration.
pub fn compute_y(xs: &Vec<u128>, k: usize, d: U256, amp: u128) -> (r: Result<U256, ExchangeError>)
    requires
        amp >= 1,
        2 <= xs@.len() <= 4,
        k < xs@.len(),
    ensures
        match r {
            Ok(y) => spec_compute_y(xs@, d.val(), k as int, amp * xs@.len()) == Some(y.val()),
            Err(e) => {
                &&& spec_compute_y(xs@, d.val(), k as int, amp * xs@.len()) is None
                &&& (e == ExchangeError::ComputeYFailed || e == ExchangeError::MathOverflow)
            },
        },
{
    let n = xs.len();
    let ann = mul_wide(amp, n as u128);
    proof {
        assert(ann.val() >= 1 && ann.val() * (n as int) >= 1) by (nonlinear_arith)
            requires
                ann.val() == amp * (n as int),
                amp >= 1,
                2 <= n <= 4,
        {
        }
        d.lemma_val_bounds();
    }
    // s = sum of the other reserves; c folded product
    let mut s: u128 = 0;
    let mut c = d;
    let mut j: usize = 0;
    while j < n
        invariant
            j <= n == xs@.len(),
            2 <= n <= 4,
            k < n,
            ann.val() == amp * (n as int),
            ann.val() >= 1,
            ann.val() * (n as int) >= 1,
            s == y_sum_upto(xs@, k as int, j as nat),
            y_c_upto(xs@, d.val(), k as int, j as nat) == Some(c.val()),
        decreases n - j,
    {
        if j != k {
            s = match s.checked_add(xs[j]) {
                Some(v) => v,
                None => {
                    proof {
                        lemma_y_sum_later(xs@, k as int, (j + 1) as nat, xs@.len());
                    }
                    return Err(ExchangeError::MathOverflow);
                },
            };
            let cd = match u256_checked_mul(c, d) {
                Some(v) => v,
                None => {
                    proof {
                        lemma_y_c_none_later(xs@, d.val(), k as int, (j + 1) as nat, xs@.len());
                    }
                    return Err(ExchangeError::MathOverflow);
                },
            };
            if xs[j] == 0 {
                proof {
                    lemma_mul_by_zero_is_zero(n as int);
                    cd.lemma_val_bounds();
                    lemma_y_c_none_later(xs@, d.val(), k as int, (j + 1) as nat, xs@.len());
                }
                return Err(ExchangeError::ComputeYFailed);
            }
            let xn = mul_wide(xs[j], n as u128);
            proof {
                assert(xn.val() >= 1) by (nonlinear_arith)
                    requires
                        xn.val() == (xs@[j as int] as int) * (n as int),
                        xs@[j as int] >= 1,
                        n >= 2,
                {
                }
            }
            let (q, _rm) = u256_divmod(cd, xn);
            proof {
                lemma_fundamental_div_mod_converse(cd.val(), xn.val(), q.val(), _rm.val());
            }
            c = q;
        }
        j = j + 1;
    }
    // final fold of c by ann * n, and b = s + d / ann
    let cd = match u256_checked_mul(c, d) {
        Some(v) => v,
        None => {
            return Err(ExchangeError::MathOverflow);
        },
    };
    let ann_n = match u256_checked_mul(ann, u256_from(n as u128)) {
        Some(v) => v,
        None => {
            proof {
                assert(ann.val() * (n as int) < pow256()) by (nonlinear_arith)
                    requires
                        ann.val() == amp * (n as int),
                        amp < pow128(),
                        2 <= n <= 4,
                        pow256() == pow128() * pow128(),
                        pow128() >= 16,
                {
                }
                assert(false);
            }
            return Err(ExchangeError::MathOverflow);
        },
    };
    let (c_fin, _rc) = u256_divmod(cd, ann_n);
    proof {
        lemma_fundamental_div_mod_converse(cd.val(), ann_n.val(), c_fin.val(), _rc.val());
    }
    let (d_over_ann, _ra) = u256_divmod(d, ann);
    proof {
        lemma_fundamental_div_mod_converse(d.val(), ann.val(), d_over_ann.val(), _ra.val());
    }
    let b = match u256_checked_add(u256_from(s), d_over_ann) {
        Some(v) => v,
        None => {
            return Err(ExchangeError::MathOverflow);
        },
    };
    // iterate y from d
    let mut y = d;
    let mut iter: usize = 0;
    proof {
        y.lemma_val_bounds();
    }
    while iter < 256
        invariant
            iter <= 256,
            spec_compute_y(xs@, d.val(), k as int, amp * xs@.len()) == y_iter(
                b.val(),
                c_fin.val(),
                d.val(),
                y.val(),
                (256 - iter) as nat,
            ),
        decreases 256 - iter,
    {
        let yy = match u256_checked_mul(y, y) {
            Some(v) => v,
            None => {
                return Err(ExchangeError::MathOverflow);
            },
        };
        let num = match u256_checked_add(yy, c_fin) {
            Some(v) => v,
            None => {
                return Err(ExchangeError::MathOverflow);
            },
        };
        let p127: u128 = 0x8000_0000_0000_0000_0000_0000_0000_0000;
        if y.hi >= p127 {
            proof {
                lemma_mul_inequality(p127 as int, y.hi as int, pow128());
                assert(p127 * pow128() * 2 == pow256()) by (nonlinear_arith)
                    requires
                        pow256() == pow128() * pow128(),
                        p127 * 2 == pow128(),
                {
                }
            }
            return Err(ExchangeError::MathOverflow);
        }
        let y2 = crate::math::u256_double(y, false);
        proof {
            y2.lemma_val_bounds();
        }
        let den_base = match u256_checked_add(y2, b) {
            Some(v) => v,
            None => {
                return Err(ExchangeError::MathOverflow);
            },
        };
        if u256_lt(den_base, d) {
            return Err(ExchangeError::ComputeYFailed);
        }
        let den = u256_sub(den_base, d);
        if den.hi == 0 && den.lo == 0 {
            return Err(ExchangeError::ComputeYFailed);
        }
        let (yn, _ry) = u256_divmod(num, den);
        proof {
            lemma_fundamental_div_mod_converse(num.val(), den.val(), yn.val(), _ry.val());
        }
        let diff = if u256_le(yn, y) {
            u256_sub(y, yn)
        } else {
            u256_sub(yn, y)
        };
        if diff.hi == 0 && diff.lo <= 1 {
            return Ok(yn);
        }
        y = yn;
        iter = iter + 1;
    }
    Err(ExchangeError::ComputeYFailed)
}

/// A sum that has already overflowed `u128` only grows with more reserves.
proof fn lemma_y_sum_later(xs: Seq<u128>, k: int, i: nat, j: nat)
    requires
        i <= j <= xs.len(),
        y_sum_upto(xs, k, i) >= pow128(),
    ensures
        y_sum_upto(xs, k, j) >= pow128(),
    decreases j - i,
{
    if i < j {
        lemma_y_sum_later(xs, k, i + 1, j);
    }
}

/// A failed output product stays failed as more reserves fold in.
proof fn lemma_y_c_none_later(xs: Seq<u128>, d: int, k: int, i: nat, j: nat)
    requires
        i <= j <= xs.len(),
        y_c_upto(xs, d, k, i) is None,
    ensures
        y_c_upto(xs, d, k, j) is None,
    decreases j - i,
{
    if i < j {
        lemma_y_c_none_later(xs, d, k, i + 1, j);
    }
}

/// Shares minted for a measured growth of the invariant from `small` to
/// `big` against supply `ts`: `ts * (big - small) / small`, zero when there
/// is no growth, no supply or no base value.
pub open spec fn spec_d_growth_mint(ts: int, small: int, big: int) -> int {
    if ts > 0 && small > 0 && big > small {
        ts * (big - small) / small
    } else {
        0
    }
}

/// Computes [`spec_d_growth_mint`]; fails only when a product exceeds 256
/// bits or the result exceeds `u128`.
fn mint_from_d_growth(ts: u128, small: U256, big: U256) -> (r: Result<u128, ExchangeError>)
    ensures
        match r {
            Ok(m) => m == spec_d_growth_mint(ts as int, small.val(), big.val()),
            Err(e) => {
                &&& e == ExchangeError::MathOverflow
                &&& (ts * (big.val() - small.val()) >= pow256() || spec_d_growth_mint(
                    ts as int,
                    small.val(),
                    big.val(),
                ) >= pow128())
            },
        },
{
    if ts == 0 {
        return Ok(0);
    }
    if !u256_lt(small, big) {
        return Ok(0);
    }
    if small.hi == 0 && small.lo == 0 {
        return Ok(0);
    }
    proof {
        if small.hi != 0 {
            lemma_mul_inequality(1, small.hi as int, crate::math::pow128());
        }
    }
    let diff = u256_sub(big, small);
    let num = match u256_checked_mul(u256_from(ts), diff) {
        Some(v) => v,
        None => {
            return Err(ExchangeError::MathOverflow);
        },
    };
    let (q, _rm) = u256_divmod(num, small);
    proof {
        lemma_fundamental_div_mod_converse(num.val(), small.val(), q.val(), _rm.val());
    }
    match u256_as_u128(q) {
        Some(m) => Ok(m),
        None => Err(ExchangeError::MathOverflow),
    }
}

/// Exchange shares owed for the admin portion of an imbalance fee: with
/// the pool's invariant at `d_pool` and the fee-reduced invariant at
/// `d_small`, the fee is worth `v = (d_pool - d_small) * bp / FEE_DIVISOR`
/// in invariant units, and the minted shares `m` satisfy
/// `m / (ts + m) ~= v / d_pool`: `m = ts * v / (d_pool - v)`, floored.
pub open spec fn spec_admin_fee_mint(ts: int, d_small: int, d_pool: int, bp: int) -> int {
    if bp > 0 && ts > 0 && d_small < d_pool {
        let v = (d_pool - d_small) * bp / (FEE_DIVISOR as int);
        if 0 < v < d_pool {
            ts * v / (d_pool - v)
        } else {
            0
        }
    } else {
        0
    }
}

/// Computes [`spec_admin_fee_mint`]; fails only on 256-bit overflow or a
/// result beyond `u128`.
fn admin_fee_mint(ts: u128, d_small: U256, d_pool: U256, bp: u32) -> (r: Result<
    u128,
    ExchangeError,
>)
    requires
        bp <= FEE_DIVISOR,
    ensures
        match r {
            Ok(m) => m == spec_admin_fee_mint(ts as int, d_small.val(), d_pool.val(), bp as int),
            Err(e) => {
                &&& e == ExchangeError::MathOverflow
                &&& ((d_pool.val() - d_small.val()) * bp >= pow256() || ts * ((d_pool.val()
                    - d_small.val()) * bp / (FEE_DIVISOR as int)) >= pow256()
                    || spec_admin_fee_mint(ts as int, d_small.val(), d_pool.val(), bp as int)
                    >= pow128())
            },
        },
{
    if bp == 0 || ts == 0 {
        return Ok(0);
    }
    if !u256_lt(d_small, d_pool) {
        return Ok(0);
    }
    let diff = u256_sub(d_pool, d_small);
    let v_num = match u256_checked_mul(diff, u256_from(bp as u128)) {
        Some(x) => x,
        None => {
            return Err(ExchangeError::MathOverflow);
        },
    };
    let (v, _rv) = u256_divmod(v_num, u256_from(FEE_DIVISOR as u128));
    proof {
        lemma_fundamental_div_mod_converse(v_num.val(), FEE_DIVISOR as int, v.val(), _rv.val());
    }
    if v.hi == 0 && v.lo == 0 {
        return Ok(0);
    }
    if !u256_lt(v, d_pool) {
        return Ok(0);
    }
    let num = match u256_checked_mul(u256_from(ts), v) {
        Some(x) => x,
        None => {
            return Err(ExchangeError::MathOverflow);
        },
    };
    let den = u256_sub(d_pool, v);
    let (m, _rm) = u256_divmod(num, den);
    proof {
        lemma_fundamental_div_mod_converse(num.val(), den.val(), m.val(), _rm.val());
    }
    match u256_as_u128(m) {
        Some(x) => Ok(x),
        None => Err(ExchangeError::MathOverflow),
    }
}

/// The scaled output, in pricing units, of swapping `dx_c` of the token at
/// `in_i` against the token at `out_i`: one unit below the drop of the
/// output reserve that keeps the invariant, `None` when an iteration fails
/// or the reserve cannot cover it.
pub open spec fn spec_stable_dy_c(
    c: Seq<u128>,
    in_i: int,
    out_i: int,
    dx_c: int,
    amp: int,
) -> Option<int> {
    match spec_compute_d(c, amp) {
        None => None,
        Some(d) => {
            if c[in_i] + dx_c >= pow128() {
                None
            } else {
                let xp = c.update(in_i, (c[in_i] + dx_c) as u128);
                match spec_compute_y(xp, d, out_i, amp * c.len()) {
                    None => None,
                    Some(y) => if c[out_i] >= y + 1 {
                        Some(c[out_i] - y - 1)
                    } else {
                        None
                    },
                }
            }
        },
    }
}

/// If one multiply of the running product overflows or divides by zero,
/// the whole product is undefined.
proof fn lemma_d_prod_step_none(xs: Seq<u128>, d: int, j: nat)
    requires
        j < xs.len(),
        d_prod_upto(xs, d, j) is Some,
        d_prod_step(d_prod_upto(xs, d, j).unwrap(), d, xs[j as int] as int, xs.len() as int)
            is None,
    ensures
        d_prod_upto(xs, d, xs.len()) is None,
    decreases xs.len() - j,
{
    assert(d_prod_upto(xs, d, j + 1) is None);
    lemma_d_prod_none_later(xs, d, j + 1, xs.len());
}

/// A failed running product stays failed as more reserves fold in.
proof fn lemma_d_prod_none_later(xs: Seq<u128>, d: int, i: nat, j: nat)
    requires
        i <= j <= xs.len(),
        d_prod_upto(xs, d, i) is None,
    ensures
        d_prod_upto(xs, d, j) is None,
    decreases j - i,
{
    if i < j {
        lemma_d_prod_none_later(xs, d, i + 1, j);
    }
}


/// The reserves after an imbalanced deposit, scaled to pricing units.
pub open spec fn spec_added_c(p: StableSwapPool, amounts: Seq<u128>) -> Seq<u128> {
    Seq::new(
        p.spec_c_amounts().len(),
        |k: int|
            (p.spec_c_amounts()[k] + amounts[k] * pow10(
                (TARGET_DECIMALS - p.spec_decimals()[k]) as nat,
            )) as u128,
    )
}

/// The shares an imbalanced deposit mints: the invariant itself for the
/// first deposit, else the supply's growth against the fee-reduced
/// invariant.
pub open spec fn spec_stable_add_mint(p: StableSwapPool, amounts: Seq<u128>) -> int {
    let c = p.spec_c_amounts();
    let newc = spec_added_c(p, amounts);
    let ts = p.spec_total_shares();
    if ts == 0 {
        spec_compute_d(newc, p.spec_amp()).unwrap()
    } else {
        let d0 = spec_compute_d(c, p.spec_amp()).unwrap();
        let d1 = spec_compute_d(newc, p.spec_amp()).unwrap();
        let reduced = spec_imbalance_reduced(c, newc, d0, d1, p.spec_fee(), c.len()).unwrap();
        let d2 = spec_compute_d(reduced, p.spec_amp()).unwrap();
        spec_d_growth_mint(ts, d0, d2)
    }
}

/// Every arithmetic stage of an imbalanced deposit succeeds on these
/// inputs: the scaled deposits and grown reserves fit, the invariant
/// iterations converge, and the user and admin mints fit the supply.
pub open spec fn spec_stable_add_fits(
    p: StableSwapPool,
    amounts: Seq<u128>,
    fees: AdminFees,
) -> bool {
    let c = p.spec_c_amounts();
    let newc = spec_added_c(p, amounts);
    let ts = p.spec_total_shares();
    &&& forall|k: int|
        0 <= k < c.len() ==> (#[trigger] amounts[k]) * pow10(
            (TARGET_DECIMALS - p.spec_decimals()[k]) as nat,
        ) < pow128() && c[k] + amounts[k] * pow10(
            (TARGET_DECIMALS - p.spec_decimals()[k]) as nat,
        ) < pow128() && p.spec_amounts()[k] + amounts[k] < pow128()
    &&& (ts == 0 ==> spec_compute_d(newc, p.spec_amp()) is Some && spec_compute_d(
        newc,
        p.spec_amp(),
    ).unwrap() < pow128())
    &&& (ts > 0 ==> {
        let d0 = spec_compute_d(c, p.spec_amp());
        let d1 = spec_compute_d(newc, p.spec_amp());
        &&& d0 is Some
        &&& d0.unwrap() > 0
        &&& d1 is Some
        &&& {
            let reduced = spec_imbalance_reduced(
                c,
                newc,
                d0.unwrap(),
                d1.unwrap(),
                p.spec_fee(),
                c.len(),
            );
            &&& reduced is Some
            &&& {
                let d2 = spec_compute_d(reduced.unwrap(), p.spec_amp());
                let minted = spec_d_growth_mint(ts, d0.unwrap(), d2.unwrap());
                let adm = spec_admin_fee_mint(
                    ts + minted,
                    d2.unwrap(),
                    d1.unwrap(),
                    fees.exchange_fee as int,
                );
                &&& d2 is Some
                &&& ts * (d2.unwrap() - d0.unwrap()) < pow256()
                &&& minted < pow128()
                &&& ts + minted < pow128()
                &&& (d1.unwrap() - d2.unwrap()) * fees.exchange_fee < pow256()
                &&& (ts + minted) * ((d1.unwrap() - d2.unwrap()) * fees.exchange_fee / (
                FEE_DIVISOR as int)) < pow256()
                &&& adm < pow128()
                &&& ts + minted + adm < pow128()
            }
        }
    })
}

/// The reserves after an exact-token withdrawal, scaled to pricing units.
pub open spec fn spec_removed_c(p: StableSwapPool, amounts: Seq<u128>) -> Seq<u128> {
    Seq::new(
        p.spec_c_amounts().len(),
        |k: int|
            (p.spec_c_amounts()[k] - amounts[k] * pow10(
                (TARGET_DECIMALS - p.spec_decimals()[k]) as nat,
            )) as u128,
    )
}

/// The shares an exact-token withdrawal burns: the supply's share of the
/// invariant drop against the fee-reduced reserves, rounded up.
pub open spec fn spec_stable_burn(p: StableSwapPool, amounts: Seq<u128>) -> int {
    let c = p.spec_c_amounts();
    let newc = spec_removed_c(p, amounts);
    let d0 = spec_compute_d(c, p.spec_amp()).unwrap();
    let d1 = spec_compute_d(newc, p.spec_amp()).unwrap();
    let reduced = spec_imbalance_reduced(c, newc, d0, d1, p.spec_fee(), c.len()).unwrap();
    let d2 = spec_compute_d(reduced, p.spec_amp()).unwrap();
    let ts = p.spec_total_shares();
    if d0 > d2 {
        (ts * (d0 - d2) + d0 - 1) / d0
    } else {
        0
    }
}

/// Every arithmetic stage of an exact-token withdrawal succeeds on these
/// inputs: the scaled amounts fit and stay within the reserves, the
/// invariant iterations converge, and the burn and admin mint fit.
pub open spec fn spec_stable_remove_fits(
    p: StableSwapPool,
    sender_id: u64,
    amounts: Seq<u128>,
    fees: AdminFees,
) -> bool {
    let c = p.spec_c_amounts();
    let newc = spec_removed_c(p, amounts);
    let ts = p.spec_total_shares();
    &&& forall|k: int|
        0 <= k < c.len() ==> (#[trigger] amounts[k]) * pow10(
            (TARGET_DECIMALS - p.spec_decimals()[k]) as nat,
        ) < pow128() && amounts[k] * pow10((TARGET_DECIMALS - p.spec_decimals()[k]) as nat)
            <= c[k] && amounts[k] <= p.spec_amounts()[k]
    &&& {
        let d0 = spec_compute_d(c, p.spec_amp());
        let d1 = spec_compute_d(newc, p.spec_amp());
        &&& d0 is Some
        &&& d0.unwrap() > 0
        &&& d1 is Some
        &&& {
            let reduced = spec_imbalance_reduced(
                c,
                newc,
                d0.unwrap(),
                d1.unwrap(),
                p.spec_fee(),
                c.len(),
            );
            &&& reduced is Some
            &&& {
                let d2 = spec_compute_d(reduced.unwrap(), p.spec_amp());
                &&& d2 is Some
                &&& (d0.unwrap() > d2.unwrap() ==> ts * (d0.unwrap() - d2.unwrap()) < pow256()
                    && ts * (d0.unwrap() - d2.unwrap()) + d0.unwrap() - 1 < pow256())
                &&& {
                    let burned = spec_stable_burn(p, amounts);
                    let adm = spec_admin_fee_mint(
                        ts - burned,
                        d2.unwrap(),
                        d1.unwrap(),
                        fees.exchange_fee as int,
                    );
                    &&& burned < pow128()
                    &&& burned <= p.share_of(sender_id)
                    &&& (d1.unwrap() - d2.unwrap()) * fees.exchange_fee < pow256()
                    &&& (ts - burned) * ((d1.unwrap() - d2.unwrap()) * fees.exchange_fee / (
                    FEE_DIVISOR as int)) < pow256()
                    &&& adm < pow128()
                    &&& ts - burned + adm < pow128()
                }
            }
        }
    }
}

/// Model-equal pools agree on every spec of the imbalanced operations.
pub proof fn lemma_stable_specs_model_eq(
    a: StableSwapPool,
    b: StableSwapPool,
    sender_id: u64,
    amounts: Seq<u128>,
    fees: AdminFees,
)
    requires
        a.spec_tokens() == b.spec_tokens(),
        a.spec_decimals() == b.spec_decimals(),
        a.spec_c_amounts() == b.spec_c_amounts(),
        a.spec_amounts() == b.spec_amounts(),
        a.spec_amp() == b.spec_amp(),
        a.spec_fee() == b.spec_fee(),
        a.spec_total_shares() == b.spec_total_shares(),
        a.share_of(sender_id) == b.share_of(sender_id),
    ensures
        spec_added_c(a, amounts) == spec_added_c(b, amounts),
        spec_removed_c(a, amounts) == spec_removed_c(b, amounts),
        spec_stable_add_mint(a, amounts) == spec_stable_add_mint(b, amounts),
        spec_stable_add_fits(a, amounts, fees) == spec_stable_add_fits(b, amounts, fees),
        spec_stable_burn(a, amounts) == spec_stable_burn(b, amounts),
        spec_stable_remove_fits(a, sender_id, amounts, fees) == spec_stable_remove_fits(
            b,
            sender_id,
            amounts,
            fees,
        ),
{
    assert(spec_added_c(a, amounts) =~= spec_added_c(b, amounts));
    assert(spec_removed_c(a, amounts) =~= spec_removed_c(b, amounts));
}

/// A stable-swap pool of `n` tokens.
pub struct StableSwapPool {
    token_ids: Vec<u64>,
    decimals: Vec<u8>,
    c_amounts: Vec<u128>,
    amounts: Vec<u128>,
    amp_factor: u128,
    total_fee: u32,
    shares: Table<u128>,
    shares_total_supply: u128,
}

impl StableSwapPool {
    /// The pool's token ids, in order.
    pub closed spec fn spec_tokens(self) -> Seq<u64> {
        self.token_ids@
    }

    /// Each token's decimal count.
    pub closed spec fn spec_decimals(self) -> Seq<u8> {
        self.decimals@
    }

    /// The scaled pricing reserves.
    pub closed spec fn spec_c_amounts(self) -> Seq<u128> {
        self.c_amounts@
    }

    /// The raw custody reserves.
    pub closed spec fn spec_amounts(self) -> Seq<u128> {
        self.amounts@
    }

    /// The amplification factor.
    pub closed spec fn spec_amp(self) -> int {
        self.amp_factor as int
    }

    /// The swap fee in basis points.
    pub closed spec fn spec_fee(self) -> int {
        self.total_fee as int
    }

    /// The total LP share supply.
    pub closed spec fn spec_total_shares(self) -> int {
        self.shares_total_supply as int
    }

    /// Whether the account holds an LP share record.
    pub closed spec fn lp_registered(self, account: u64) -> bool {
        self.shares.has(account)
    }

    /// The account's LP share balance; no record counts as zero.
    pub closed spec fn share_of(self, account: u64) -> int {
        if self.shares.has(account) {
            self.shares.spec_get(account) as int
        } else {
            0
        }
    }

    /// Well-formed: two to four distinct tokens, aligned columns, decimals
    /// within the target, a live amplification, a fee below the divisor and
    /// share records that add up to the supply.
    pub closed spec fn wf(self) -> bool {
        &&& 2 <= self.token_ids@.len() <= 4
        &&& self.decimals@.len() == self.token_ids@.len()
        &&& self.c_amounts@.len() == self.token_ids@.len()
        &&& self.amounts@.len() == self.token_ids@.len()
        &&& forall|i: int, j: int|
            0 <= i < j < self.token_ids@.len() ==> self.token_ids@[i] != self.token_ids@[j]
        &&& forall|i: int| 0 <= i < self.decimals@.len() ==> self.decimals@[i] <= TARGET_DECIMALS
        &&& self.amp_factor >= 1
        &&& self.total_fee < FEE_DIVISOR
        &&& self.shares.wf()
        &&& sum_vals(self.shares.vals_seq()) == self.shares_total_supply
    }

    /// The shape facts a well-formed pool guarantees.
    pub proof fn lemma_wf(self)
        requires
            self.wf(),
        ensures
            2 <= self.spec_tokens().len() <= 4,
            self.spec_decimals().len() == self.spec_tokens().len(),
            self.spec_c_amounts().len() == self.spec_tokens().len(),
            self.spec_amounts().len() == self.spec_tokens().len(),
            forall|i: int, j: int|
                0 <= i < j < self.spec_tokens().len() ==> self.spec_tokens()[i]
                    != self.spec_tokens()[j],
            forall|i: int|
                0 <= i < self.spec_decimals().len() ==> self.spec_decimals()[i]
                    <= TARGET_DECIMALS,
            self.spec_amp() >= 1,
            0 <= self.spec_fee() < FEE_DIVISOR,
            0 <= self.spec_total_shares(),
    {
    }

    /// Whether the pool holds the token.
    pub open spec fn has_token(self, token: u64) -> bool {
        self.spec_tokens().contains(token)
    }

    /// The row of a token the pool holds.
    pub open spec fn tok_idx(self, token: u64) -> int {
        self.spec_tokens().index_of(token)
    }

    /// In a well-formed pool the row of a held token is its only row.
    pub proof fn lemma_tok_idx(self, token: u64)
        requires
            self.wf(),
            self.has_token(token),
        ensures
            0 <= self.tok_idx(token) < self.spec_tokens().len(),
            self.spec_tokens()[self.tok_idx(token)] == token,
            forall|i: int|
                0 <= i < self.spec_tokens().len() && self.spec_tokens()[i] == token ==> i
                    == self.tok_idx(token),
    {
        let ks = self.spec_tokens();
        assert(exists|i: int| 0 <= i < ks.len() && ks[i] == token);
        assert(0 <= ks.index_of(token) < ks.len() && ks[ks.index_of(token)] == token);
    }

    /// A fresh stable pool.  Two to four distinct tokens, decimals up to
    /// the eighteen-decimal target, an amplification of at least one and a
    /// fee below the divisor.
    pub fn new(tokens: &Vec<u64>, decimals: &Vec<u8>, amp_factor: u128, total_fee: u32) -> (r:
        Result<StableSwapPool, ExchangeError>)
        ensures
            match r {
                Ok(p) => {
                    &&& 2 <= tokens@.len() <= 4
                    &&& decimals@.len() == tokens@.len()
                    &&& forall|i: int, j: int|
                        0 <= i < j < tokens@.len() ==> tokens@[i] != tokens@[j]
                    &&& forall|i: int| 0 <= i < decimals@.len() ==> decimals@[i] <= TARGET_DECIMALS
                    &&& amp_factor >= 1
                    &&& total_fee < FEE_DIVISOR
                    &&& p.wf()
                    &&& p.spec_tokens() == tokens@
                    &&& p.spec_decimals() == decimals@
                    &&& p.spec_c_amounts() == Seq::<u128>::new(tokens@.len(), |i: int| 0u128)
                    &&& p.spec_amounts() == Seq::<u128>::new(tokens@.len(), |i: int| 0u128)
                    &&& p.spec_amp() == amp_factor
                    &&& p.spec_fee() == total_fee
                    &&& p.spec_total_shares() == 0
                    &&& forall|a: u64| !p.lp_registered(a) && p.share_of(a) == 0
                },
                Err(e) => {
                    &&& (e == ExchangeError::WrongTokenCount <==> (tokens@.len() < 2
                        || tokens@.len() > 4 || decimals@.len() != tokens@.len()))
                    &&& (e == ExchangeError::MathOverflow <==> 2 <= tokens@.len() <= 4
                        && decimals@.len() == tokens@.len() && exists|i: int|
                        0 <= i < decimals@.len() && decimals@[i] > TARGET_DECIMALS)
                    &&& (e == ExchangeError::TokenDuplicates <==> 2 <= tokens@.len() <= 4
                        && decimals@.len() == tokens@.len() && (forall|i: int|
                        0 <= i < decimals@.len() ==> decimals@[i] <= TARGET_DECIMALS)
                        && exists|i: int, j: int|
                        0 <= i < j < tokens@.len() && tokens@[i] == tokens@[j])
                    &&& (e == ExchangeError::NotAllowed <==> 2 <= tokens@.len() <= 4
                        && decimals@.len() == tokens@.len() && (forall|i: int|
                        0 <= i < decimals@.len() ==> decimals@[i] <= TARGET_DECIMALS) && (forall|
                        i: int,
                        j: int,
                    |
                        0 <= i < j < tokens@.len() ==> tokens@[i] != tokens@[j]) && (amp_factor < 1
                        || total_fee >= FEE_DIVISOR))
                    &&& (e == ExchangeError::WrongTokenCount || e == ExchangeError::TokenDuplicates
                        || e == ExchangeError::MathOverflow || e == ExchangeError::NotAllowed)
                },
            },
    {
        let n = tokens.len();
        if n < 2 || n > 4 || decimals.len() != n {
            return Err(ExchangeError::WrongTokenCount);
        }
        let mut i: usize = 0;
        while i < n
            invariant
                2 <= n <= 4,
                i <= n == tokens@.len(),
                decimals@.len() == n,
                forall|a: int| 0 <= a < i ==> decimals@[a] <= TARGET_DECIMALS,
            decreases n - i,
        {
            if decimals[i] > TARGET_DECIMALS {
                proof {
                    assert(0 <= i < decimals@.len() && decimals@[i as int] > TARGET_DECIMALS);
                }
                return Err(ExchangeError::MathOverflow);
            }
            i = i + 1;
        }
        let mut i: usize = 0;
        while i < n
            invariant
                2 <= n <= 4,
                i <= n == tokens@.len(),
                decimals@.len() == n,
                forall|a: int| 0 <= a < decimals@.len() ==> decimals@[a] <= TARGET_DECIMALS,
                forall|a: int, b: int| 0 <= a < b < tokens@.len() && a < i ==> tokens@[a]
                    != tokens@[b],
            decreases n - i,
        {
            let mut j: usize = i + 1;
            while j < n
                invariant
                    2 <= n <= 4,
                    decimals@.len() == n,
                    forall|a: int| 0 <= a < decimals@.len() ==> decimals@[a] <= TARGET_DECIMALS,
                    i < j <= n == tokens@.len(),
                    forall|b: int| i < b < j ==> tokens@[i as int] != tokens@[b],
                decreases n - j,
            {
                if tokens[i] == tokens[j] {
                    proof {
                        let gi = i as int;
                        let gj = j as int;
                        assert(0 <= gi < gj < tokens@.len() && tokens@[gi] == tokens@[gj]);
                    }
                    return Err(ExchangeError::TokenDuplicates);
                }
                j = j + 1;
            }
            i = i + 1;
        }
        if amp_factor < 1 || total_fee >= FEE_DIVISOR {
            return Err(ExchangeError::NotAllowed);
        }
        let mut token_ids: Vec<u64> = Vec::new();
        let mut decs: Vec<u8> = Vec::new();
        let mut c_amounts: Vec<u128> = Vec::new();
        let mut amounts: Vec<u128> = Vec::new();
        let mut i: usize = 0;
        while i < n
            invariant
                i <= n == tokens@.len(),
                decimals@.len() == n,
                token_ids@ == tokens@.subrange(0, i as int),
                decs@ == decimals@.subrange(0, i as int),
                c_amounts@ == Seq::<u128>::new(i as nat, |k: int| 0u128),
                amounts@ == Seq::<u128>::new(i as nat, |k: int| 0u128),
            decreases n - i,
        {
            token_ids.push(tokens[i]);
            decs.push(decimals[i]);
            c_amounts.push(0);
            amounts.push(0);
            proof {
                assert(token_ids@ =~= tokens@.subrange(0, i + 1));
                assert(decs@ =~= decimals@.subrange(0, i + 1));
                assert(c_amounts@ =~= Seq::<u128>::new((i + 1) as nat, |k: int| 0u128));
                assert(amounts@ =~= Seq::<u128>::new((i + 1) as nat, |k: int| 0u128));
            }
            i = i + 1;
        }
        let p = StableSwapPool {
            token_ids,
            decimals: decs,
            c_amounts,
            amounts,
            amp_factor,
            total_fee,
            shares: Table::new(),
            shares_total_supply: 0,
        };
        proof {
            assert(p.spec_tokens() =~= tokens@);
            assert(p.spec_decimals() =~= decimals@);
        }
        Ok(p)
    }

    /// The pool's token list, as a fresh vector.
    pub fn tokens(&self) -> (r: Vec<u64>)
        requires
            self.wf(),
        ensures
            r@ == self.spec_tokens(),
    {
        let mut r: Vec<u64> = Vec::new();
        let n = self.token_ids.len();
        let mut i: usize = 0;
        while i < n
            invariant
                i <= n == self.spec_tokens().len(),
                r@ == self.spec_tokens().subrange(0, i as int),
            decreases n - i,
        {
            r.push(self.token_ids[i]);
            proof {
                assert(r@ =~= self.spec_tokens().subrange(0, i + 1));
            }
            i = i + 1;
        }
        proof {
            assert(self.spec_tokens().subrange(0, n as int) =~= self.spec_tokens());
        }
        r
    }

    /// The raw custody reserves, as a fresh vector.
    pub fn get_amounts(&self) -> (r: Vec<u128>)
        requires
            self.wf(),
        ensures
            r@ == self.spec_amounts(),
    {
        let mut r: Vec<u128> = Vec::new();
        let n = self.amounts.len();
        let mut i: usize = 0;
        while i < n
            invariant
                i <= n == self.spec_amounts().len(),
                r@ == self.spec_amounts().subrange(0, i as int),
            decreases n - i,
        {
            r.push(self.amounts[i]);
            proof {
                assert(r@ =~= self.spec_amounts().subrange(0, i + 1));
            }
            i = i + 1;
        }
        proof {
            assert(self.spec_amounts().subrange(0, n as int) =~= self.spec_amounts());
        }
        r
    }

    /// The scaled pricing reserves, as a fresh vector.
    pub fn get_c_amounts(&self) -> (r: Vec<u128>)
        requires
            self.wf(),
        ensures
            r@ == self.spec_c_amounts(),
    {
        let mut r: Vec<u128> = Vec::new();
        let n = self.c_amounts.len();
        let mut i: usize = 0;
        while i < n
            invariant
                i <= n == self.spec_c_amounts().len(),
                r@ == self.spec_c_amounts().subrange(0, i as int),
            decreases n - i,
        {
            r.push(self.c_amounts[i]);
            proof {
                assert(r@ =~= self.spec_c_amounts().subrange(0, i + 1));
            }
            i = i + 1;
        }
        proof {
            assert(self.spec_c_amounts().subrange(0, n as int) =~= self.spec_c_amounts());
        }
        r
    }

    /// The total LP share supply.
    pub fn share_total_supply(&self) -> (r: u128)
        ensures
            r == self.spec_total_shares(),
    {
        self.shares_total_supply
    }

    /// The account's LP share balance.
    pub fn share_balance_of(&self, account: u64) -> (r: u128)
        requires
            self.wf(),
        ensures
            r == self.share_of(account),
    {
        match self.shares.get(account) {
            Some(b) => *b,
            None => 0,
        }
    }

    /// An independent copy with the same model.
    pub fn duplicate(&self) -> (r: StableSwapPool)
        requires
            self.wf(),
        ensures
            r.wf(),
            r.spec_tokens() == self.spec_tokens(),
            r.spec_decimals() == self.spec_decimals(),
            r.spec_c_amounts() == self.spec_c_amounts(),
            r.spec_amounts() == self.spec_amounts(),
            r.spec_amp() == self.spec_amp(),
            r.spec_fee() == self.spec_fee(),
            r.spec_total_shares() == self.spec_total_shares(),
            forall|a: u64| r.share_of(a) == self.share_of(a),
            forall|a: u64| r.lp_registered(a) == self.lp_registered(a),
    {
        let n = self.decimals.len();
        let mut decs: Vec<u8> = Vec::new();
        let mut i: usize = 0;
        while i < n
            invariant
                self.wf(),
                i <= n == self.spec_decimals().len(),
                decs@ == self.spec_decimals().subrange(0, i as int),
            decreases n - i,
        {
            decs.push(self.decimals[i]);
            proof {
                assert(decs@ =~= self.spec_decimals().subrange(0, i + 1));
            }
            i = i + 1;
        }
        proof {
            assert(self.spec_decimals().subrange(0, n as int) =~= self.spec_decimals());
        }
        StableSwapPool {
            token_ids: self.tokens(),
            decimals: decs,
            c_amounts: self.get_c_amounts(),
            amounts: self.get_amounts(),
            amp_factor: self.amp_factor,
            total_fee: self.total_fee,
            shares: self.shares.duplicate(),
            shares_total_supply: self.shares_total_supply,
        }
    }

    /// Opens an empty LP share record; fails when one already exists.
    pub fn share_register(&mut self, account_id: u64) -> (r: Result<(), ExchangeError>)
        requires
            old(self).wf(),
        ensures
            final(self).wf(),
            match r {
                Ok(()) => {
                    &&& !old(self).lp_registered(account_id)
                    &&& final(self).lp_registered(account_id)
                    &&& forall|a: u64|
                        a != account_id ==> final(self).lp_registered(a) == old(self).lp_registered(a)
                    &&& forall|a: u64| final(self).share_of(a) == old(self).share_of(a)
                    &&& final(self).spec_tokens() == old(self).spec_tokens()
                    &&& final(self).spec_decimals() == old(self).spec_decimals()
                    &&& final(self).spec_c_amounts() == old(self).spec_c_amounts()
                    &&& final(self).spec_amounts() == old(self).spec_amounts()
                    &&& final(self).spec_amp() == old(self).spec_amp()
                    &&& final(self).spec_fee() == old(self).spec_fee()
                    &&& final(self).spec_total_shares() == old(self).spec_total_shares()
                },
                Err(e) => {
                    &&& *final(self) == *old(self)
                    &&& e == ExchangeError::LpAlreadyRegistered
                    &&& old(self).lp_registered(account_id)
                },
            },
    {
        if self.shares.contains_key(account_id) {
            return Err(ExchangeError::LpAlreadyRegistered);
        }
        self.shares.insert(account_id, 0);
        proof {
            lemma_sum_push(old(self).shares.vals_seq(), 0);
            assert forall|a: u64| final(self).share_of(a) == old(self).share_of(a) && (a
                != account_id ==> final(self).lp_registered(a) == old(self).lp_registered(a)) by {
                if a != account_id {
                    crate::table::lemma_insert_other(old(self).shares, self.shares, account_id, 0, a);
                } else {
                    self.shares.lemma_idx_of(a);
                }
            }
        }
        Ok(())
    }

    /// Moves LP shares between two distinct registered accounts.
    pub fn share_transfer(&mut self, sender: u64, receiver: u64, amount: u128) -> (r: Result<
        (),
        ExchangeError,
    >)
        requires
            old(self).wf(),
        ensures
            final(self).wf(),
            final(self).spec_tokens() == old(self).spec_tokens(),
            final(self).spec_c_amounts() == old(self).spec_c_amounts(),
            final(self).spec_amounts() == old(self).spec_amounts(),
            final(self).spec_total_shares() == old(self).spec_total_shares(),
            match r {
                Ok(()) => {
                    &&& sender != receiver
                    &&& amount <= old(self).share_of(sender)
                    &&& old(self).lp_registered(sender)
                    &&& old(self).lp_registered(receiver)
                    &&& final(self).share_of(sender) == old(self).share_of(sender) - amount
                    &&& final(self).share_of(receiver) == old(self).share_of(receiver) + amount
                    &&& forall|a: u64|
                        a != sender && a != receiver ==> final(self).share_of(a) == old(self).share_of(a)
                    &&& forall|a: u64| final(self).lp_registered(a) == old(self).lp_registered(a)
                },
                Err(e) => {
                    &&& *final(self) == *old(self)
                    &&& (e == ExchangeError::TransferToSelf <==> sender == receiver)
                    &&& (e == ExchangeError::InsufficientLpBalance <==> sender != receiver && (
                    !old(self).lp_registered(sender) || amount > old(self).share_of(sender)))
                    &&& (e == ExchangeError::UnregisteredToken <==> sender != receiver && old(self).lp_registered(sender) && amount <= old(self).share_of(sender) && !old(self).lp_registered(receiver))
                    &&& (e == ExchangeError::TransferToSelf || e
                        == ExchangeError::InsufficientLpBalance || e
                        == ExchangeError::UnregisteredToken)
                },
            },
    {
        if sender == receiver {
            return Err(ExchangeError::TransferToSelf);
        }
        if !self.shares.contains_key(sender) {
            return Err(ExchangeError::InsufficientLpBalance);
        }
        let sender_bal = self.share_balance_of(sender);
        if amount > sender_bal {
            return Err(ExchangeError::InsufficientLpBalance);
        }
        if !self.shares.contains_key(receiver) {
            return Err(ExchangeError::UnregisteredToken);
        }
        let receiver_bal = self.share_balance_of(receiver);
        proof {
            old(self).shares.lemma_idx_of(sender);
            old(self).shares.lemma_idx_of(receiver);
            lemma_sum_two_elems(
                old(self).shares.vals_seq(),
                old(self).shares.idx_of(sender),
                old(self).shares.idx_of(receiver),
            );
        }
        self.shares.insert(sender, sender_bal - amount);
        let ghost mid = *self;
        self.shares.insert(receiver, receiver_bal + amount);
        proof {
            old(self).shares.lemma_idx_of(sender);
            lemma_sum_update(
                old(self).shares.vals_seq(),
                old(self).shares.idx_of(sender),
                (sender_bal - amount) as u128,
            );
            crate::table::lemma_insert_other(
                old(self).shares,
                mid.shares,
                sender,
                (sender_bal - amount) as u128,
                receiver,
            );
            mid.shares.lemma_idx_of(receiver);
            lemma_sum_update(
                mid.shares.vals_seq(),
                mid.shares.idx_of(receiver),
                (receiver_bal + amount) as u128,
            );
            crate::table::lemma_insert_other(
                mid.shares,
                self.shares,
                receiver,
                (receiver_bal + amount) as u128,
                sender,
            );
            assert forall|a: u64| a != sender && a != receiver implies final(self).share_of(a)
                == old(self).share_of(a) && final(self).lp_registered(a) == old(self).lp_registered(a) by {
                crate::table::lemma_insert_other(
                    old(self).shares,
                    mid.shares,
                    sender,
                    (sender_bal - amount) as u128,
                    a,
                );
                crate::table::lemma_insert_other(
                    mid.shares,
                    self.shares,
                    receiver,
                    (receiver_bal + amount) as u128,
                    a,
                );
            }
        }
        Ok(())
    }

    /// Mints LP shares to an account, opening its record if needed.
    fn mint_shares(&mut self, account: u64, amount: u128) -> (r: Result<(), ExchangeError>)
        requires
            old(self).wf(),
        ensures
            final(self).wf(),
            final(self).spec_tokens() == old(self).spec_tokens(),
            final(self).spec_decimals() == old(self).spec_decimals(),
            final(self).spec_c_amounts() == old(self).spec_c_amounts(),
            final(self).spec_amounts() == old(self).spec_amounts(),
            final(self).spec_amp() == old(self).spec_amp(),
            final(self).spec_fee() == old(self).spec_fee(),
            match r {
                Ok(()) => {
                    &&& old(self).spec_total_shares() + amount < pow128()
                    &&& final(self).spec_total_shares() == old(self).spec_total_shares() + amount
                    &&& final(self).share_of(account) == old(self).share_of(account) + amount
                    &&& forall|a: u64|
                        a != account ==> final(self).share_of(a) == old(self).share_of(a)
                    &&& forall|a: u64|
                        final(self).lp_registered(a) == (old(self).lp_registered(a) || (a
                            == account && amount > 0))
                },
                Err(e) => {
                    &&& *final(self) == *old(self)
                    &&& e == ExchangeError::MathOverflow
                    &&& old(self).spec_total_shares() + amount >= pow128()
                },
            },
    {
        if amount == 0 {
            return Ok(());
        }
        match self.shares_total_supply.checked_add(amount) {
            None => Err(ExchangeError::MathOverflow),
            Some(new_supply) => {
                let bal = self.share_balance_of(account);
                proof {
                    if old(self).shares.has(account) {
                        old(self).shares.lemma_idx_of(account);
                        lemma_sum_elem_le(
                            old(self).shares.vals_seq(),
                            old(self).shares.idx_of(account),
                        );
                    }
                }
                self.shares.insert(account, bal + amount);
                self.shares_total_supply = new_supply;
                proof {
                    if old(self).shares.has(account) {
                        lemma_sum_update(
                            old(self).shares.vals_seq(),
                            old(self).shares.idx_of(account),
                            (bal + amount) as u128,
                        );
                    } else {
                        lemma_sum_push(old(self).shares.vals_seq(), (bal + amount) as u128);
                    }
                    assert forall|a: u64| a != account implies final(self).share_of(a) == old(self).share_of(a) && final(self).lp_registered(a) == old(self).lp_registered(
                        a,
                    ) by {
                        crate::table::lemma_insert_other(
                            old(self).shares,
                            self.shares,
                            account,
                            (bal + amount) as u128,
                            a,
                        );
                    }
                }
                Ok(())
            },
        }
    }
}

/// The raw output of a stable swap: the scaled output less the total fee,
/// scaled back down to the output token's decimals.
pub open spec fn spec_stable_out(
    p: StableSwapPool,
    token_in: u64,
    dx: u128,
    token_out: u64,
) -> Option<int> {
    let i = p.tok_idx(token_in);
    let o = p.tok_idx(token_out);
    let c = p.spec_c_amounts();
    let dx_c = dx * pow10((TARGET_DECIMALS - p.spec_decimals()[i]) as nat);
    if dx_c >= pow128() {
        None
    } else {
        match spec_stable_dy_c(c, i, o, dx_c, p.spec_amp()) {
            None => None,
            Some(dyc) => {
                let fee_c = dyc * p.spec_fee() / (FEE_DIVISOR as int);
                Some((dyc - fee_c) / pow10((TARGET_DECIMALS - p.spec_decimals()[o]) as nat))
            },
        }
    }
}

/// The exchange shares minted by a successful stable swap: the supply's
/// growth between the invariant without and with the admin portion of the
/// fee left in the pool.
pub open spec fn spec_stable_admin_mint(
    p: StableSwapPool,
    token_in: u64,
    dx: u128,
    token_out: u64,
    fees: AdminFees,
) -> int {
    let i = p.tok_idx(token_in);
    let o = p.tok_idx(token_out);
    let c = p.spec_c_amounts();
    let dx_c = dx * pow10((TARGET_DECIMALS - p.spec_decimals()[i]) as nat);
    let dyc = spec_stable_dy_c(c, i, o, dx_c, p.spec_amp()).unwrap();
    let fee_c = dyc * p.spec_fee() / (FEE_DIVISOR as int);
    let admin_c = fee_c * (fees.exchange_fee as int) / (FEE_DIVISOR as int);
    let y = c[o] - dyc - 1;
    let c_mid = c.update(i, (c[i] + dx_c) as u128).update(o, (y + fee_c - admin_c) as u128);
    let c_fin = c.update(i, (c[i] + dx_c) as u128).update(o, (y + fee_c) as u128);
    if admin_c > 0 && p.spec_total_shares() > 0 {
        spec_d_growth_mint(
            p.spec_total_shares(),
            spec_compute_d(c_mid, p.spec_amp()).unwrap(),
            spec_compute_d(c_fin, p.spec_amp()).unwrap(),
        )
    } else {
        0
    }
}

/// The referral's cut of the admin-fee shares of a stable swap: the
/// referral rate's portion of the total, for a referral that already holds
/// an LP record; otherwise it reverts to the exchange.
pub open spec fn spec_stable_referral_mint(
    p: StableSwapPool,
    token_in: u64,
    dx: u128,
    token_out: u64,
    fees: AdminFees,
) -> int {
    match fees.referral_id {
        Some(rid) => if p.lp_registered(rid) {
            spec_stable_admin_mint(p, token_in, dx, token_out, fees) * (fees.referral_fee as int)
                / (FEE_DIVISOR as int)
        } else {
            0
        },
        None => 0,
    }
}

/// The exchange account's share of a stable swap's admin-fee shares: the
/// total less the referral's cut.
pub open spec fn spec_stable_exchange_mint(
    p: StableSwapPool,
    token_in: u64,
    dx: u128,
    token_out: u64,
    fees: AdminFees,
) -> int {
    spec_stable_admin_mint(p, token_in, dx, token_out, fees) - spec_stable_referral_mint(
        p,
        token_in,
        dx,
        token_out,
        fees,
    )
}

/// Every arithmetic stage of a stable swap succeeds on these inputs: the
/// scaled amount and the grown reserve fit, both iterations converge, the
/// output reserve can cover the draw, the admin-stage invariants converge
/// and their mint fits, and the raw custody moves fit.
pub open spec fn spec_stable_swap_fits(
    p: StableSwapPool,
    token_in: u64,
    dx: u128,
    token_out: u64,
    fees: AdminFees,
) -> bool {
    let i = p.tok_idx(token_in);
    let o = p.tok_idx(token_out);
    let c = p.spec_c_amounts();
    let dx_c = dx * pow10((TARGET_DECIMALS - p.spec_decimals()[i]) as nat);
    let d = spec_compute_d(c, p.spec_amp());
    let xp = c.update(i, (c[i] + dx_c) as u128);
    let y = spec_compute_y(xp, d.unwrap(), o, p.spec_amp() * c.len());
    let dyc = c[o] - y.unwrap() - 1;
    let fee_c = dyc * p.spec_fee() / (FEE_DIVISOR as int);
    let out = (dyc - fee_c) / pow10((TARGET_DECIMALS - p.spec_decimals()[o]) as nat);
    let admin_c = fee_c * (fees.exchange_fee as int) / (FEE_DIVISOR as int);
    let yv = y.unwrap();
    let c_mid = xp.update(o, (yv + fee_c - admin_c) as u128);
    let c_fin = xp.update(o, (yv + fee_c) as u128);
    let ts = p.spec_total_shares();
    &&& dx_c < pow128()
    &&& c[i] + dx_c < pow128()
    &&& d is Some
    &&& y is Some
    &&& c[o] >= y.unwrap() + 1
    &&& (admin_c > 0 && ts > 0 ==> {
        let dm = spec_compute_d(c_mid, p.spec_amp());
        let df = spec_compute_d(c_fin, p.spec_amp());
        &&& dm is Some
        &&& df is Some
        &&& ts * (df.unwrap() - dm.unwrap()) < pow256()
        &&& spec_d_growth_mint(ts, dm.unwrap(), df.unwrap()) < pow128()
    })
    &&& ts + spec_stable_admin_mint(p, token_in, dx, token_out, fees) < pow128()
    &&& p.spec_amounts()[i] + dx < pow128()
    &&& p.spec_amounts()[o] >= out
}

impl StableSwapPool {
    /// The row of a token in the pool's token list.
    fn token_index(&self, token: u64) -> (r: Option<usize>)
        requires
            self.wf(),
        ensures
            match r {
                Some(i) => self.has_token(token) && i == self.tok_idx(token) && i
                    < self.spec_tokens().len() && self.spec_tokens()[i as int] == token,
                None => !self.has_token(token),
            },
    {
        let n = self.token_ids.len();
        let mut i: usize = 0;
        while i < n
            invariant
                self.wf(),
                i <= n == self.spec_tokens().len(),
                forall|j: int| 0 <= j < i ==> self.spec_tokens()[j] != token,
            decreases n - i,
        {
            if self.token_ids[i] == token {
                proof {
                    self.lemma_tok_idx(token);
                }
                return Some(i);
            }
            i = i + 1;
        }
        proof {
            if self.has_token(token) {
                let w = choose|j: int|
                    0 <= j < self.spec_tokens().len() && self.spec_tokens()[j] == token;
                assert(self.spec_tokens()[w] == token);
            }
        }
        None
    }

    /// Swaps `amount_in` of `token_in` for at least `min_amount_out` of
    /// `token_out` at the invariant price.  The total fee stays in the
    /// pool; its admin portion is converted into shares sized by the
    /// invariant growth it causes, split between the exchange and a
    /// registered referral.  Any failure leaves the pool untouched.
    pub fn swap(
        &mut self,
        token_in: u64,
        amount_in: u128,
        token_out: u64,
        min_amount_out: u128,
        fees: &AdminFees,
    ) -> (r: Result<u128, ExchangeError>)
        requires
            old(self).wf(),
            fees.wf(),
        ensures
            final(self).wf(),
            old(self).has_token(token_in) && old(self).has_token(token_out) && token_in
                != token_out && amount_in > 0 && spec_stable_swap_fits(
                *old(self),
                token_in,
                amount_in,
                token_out,
                *fees,
            ) && spec_stable_out(*old(self), token_in, amount_in, token_out).unwrap()
                >= min_amount_out ==> r is Ok,
            match r {
                Ok(out) => {
                    &&& old(self).has_token(token_in) && old(self).has_token(token_out)
                    &&& token_in != token_out
                    &&& amount_in > 0
                    &&& Some(out as int) == spec_stable_out(
                        *old(self),
                        token_in,
                        amount_in,
                        token_out,
                    )
                    &&& out >= min_amount_out
                    &&& final(self).spec_tokens() == old(self).spec_tokens()
                    &&& final(self).spec_decimals() == old(self).spec_decimals()
                    &&& final(self).spec_amp() == old(self).spec_amp()
                    &&& final(self).spec_fee() == old(self).spec_fee()
                    &&& {
                        let i = old(self).tok_idx(token_in);
                        let o = old(self).tok_idx(token_out);
                        let c = old(self).spec_c_amounts();
                        let dx_c = amount_in * pow10(
                            (TARGET_DECIMALS - old(self).spec_decimals()[i]) as nat,
                        );
                        let dyc = spec_stable_dy_c(
                            c,
                            i,
                            o,
                            dx_c,
                            old(self).spec_amp(),
                        ).unwrap();
                        let fee_c = dyc * old(self).spec_fee() / (FEE_DIVISOR as int);
                        &&& final(self).spec_c_amounts() == c.update(
                            i,
                            (c[i] + dx_c) as u128,
                        ).update(o, (c[o] - dyc - 1 + fee_c) as u128)
                        &&& final(self).spec_amounts() == old(self).spec_amounts().update(
                            i,
                            (old(self).spec_amounts()[i] + amount_in) as u128,
                        ).update(o, (old(self).spec_amounts()[o] - out) as u128)
                    }
                    &&& old(self).spec_amounts()[old(self).tok_idx(token_out)] >= out
                    &&& old(self).spec_amounts()[old(self).tok_idx(token_in)] + amount_in
                        < pow128()
                    &&& final(self).spec_total_shares() == old(self).spec_total_shares()
                        + spec_stable_admin_mint(*old(self), token_in, amount_in, token_out, *fees)
                    &&& forall|a: u64|
                        final(self).share_of(a) == old(self).share_of(a) + (
                        if a == fees.exchange_id {
                            spec_stable_exchange_mint(
                                *old(self),
                                token_in,
                                amount_in,
                                token_out,
                                *fees,
                            )
                        } else {
                            0int
                        }) + (
                        if fees.referral_id == Some(a) {
                            spec_stable_referral_mint(
                                *old(self),
                                token_in,
                                amount_in,
                                token_out,
                                *fees,
                            )
                        } else {
                            0int
                        })
                    &&& forall|a: u64|
                        final(self).lp_registered(a) == (old(self).lp_registered(a) || (a
                            == fees.exchange_id && spec_stable_exchange_mint(
                            *old(self),
                            token_in,
                            amount_in,
                            token_out,
                            *fees,
                        ) > 0) || (fees.referral_id == Some(a) && spec_stable_referral_mint(
                            *old(self),
                            token_in,
                            amount_in,
                            token_out,
                            *fees,
                        ) > 0))
                },
                Err(e) => {
                    &&& *final(self) == *old(self)
                    &&& (e == ExchangeError::UnknownToken <==> !old(self).has_token(token_in)
                        || !old(self).has_token(token_out))
                    &&& (e == ExchangeError::SameToken <==> old(self).has_token(token_in) && old(self).has_token(token_out) && token_in == token_out)
                    &&& (e == ExchangeError::ZeroAmount <==> old(self).has_token(token_in) && old(self).has_token(token_out) && token_in != token_out && amount_in == 0)
                    &&& (e == ExchangeError::InsufficientOutput ==> spec_stable_out(
                        *old(self),
                        token_in,
                        amount_in,
                        token_out,
                    ) is Some && spec_stable_out(
                        *old(self),
                        token_in,
                        amount_in,
                        token_out,
                    ).unwrap() < min_amount_out)
                    &&& (e == ExchangeError::UnknownToken || e == ExchangeError::SameToken || e
                        == ExchangeError::ZeroAmount || e == ExchangeError::ZeroLiquidity || e
                        == ExchangeError::ComputeDFailed || e == ExchangeError::ComputeYFailed || e
                        == ExchangeError::MathOverflow || e == ExchangeError::InsufficientOutput)
                },
            },
    {
        let in_idx = match self.token_index(token_in) {
            Some(i) => i,
            None => {
                return Err(ExchangeError::UnknownToken);
            },
        };
        let out_idx = match self.token_index(token_out) {
            Some(i) => i,
            None => {
                return Err(ExchangeError::UnknownToken);
            },
        };
        if token_in == token_out {
            return Err(ExchangeError::SameToken);
        }
        proof {
            self.lemma_tok_idx(token_in);
            self.lemma_tok_idx(token_out);
        }
        if amount_in == 0 {
            return Err(ExchangeError::ZeroAmount);
        }
        let scale_in = crate::math::pow10_u128(TARGET_DECIMALS - self.decimals[in_idx]);
        let scale_out = crate::math::pow10_u128(TARGET_DECIMALS - self.decimals[out_idx]);
        let dx_c = match u256_as_u128(mul_wide(amount_in, scale_in)) {
            Some(v) => v,
            None => {
                return Err(ExchangeError::MathOverflow);
            },
        };
        let d0 = match compute_d(&self.c_amounts, self.amp_factor) {
            Ok(v) => v,
            Err(e) => {
                return Err(e);
            },
        };
        let c_in = self.c_amounts[in_idx];
        let new_c_in = match c_in.checked_add(dx_c) {
            Some(v) => v,
            None => {
                return Err(ExchangeError::MathOverflow);
            },
        };
        let mut xp = self.get_c_amounts();
        xp.set(in_idx, new_c_in);
        let y = match compute_y(&xp, out_idx, d0, self.amp_factor) {
            Ok(v) => v,
            Err(e) => {
                return Err(e);
            },
        };
        let c_out = self.c_amounts[out_idx];
        let y128 = match u256_as_u128(y) {
            Some(v) => v,
            None => {
                proof {
                    y.lemma_val_bounds();
                }
                return Err(ExchangeError::ZeroLiquidity);
            },
        };
        if y128 >= c_out {
            return Err(ExchangeError::ZeroLiquidity);
        }
        let dyc = c_out - y128 - 1;
        let fee_c = crate::math::fee_part(dyc, self.total_fee);
        let user_c = dyc - fee_c;
        proof {
            crate::math::lemma_pow10_pos((TARGET_DECIMALS - self.spec_decimals()[out_idx as int]) as nat);
        }
        let out = user_c / scale_out;
        if out < min_amount_out {
            return Err(ExchangeError::InsufficientOutput);
        }
        let admin_c = crate::math::fee_part(fee_c, fees.exchange_fee);
        let out_plain = y128 + (fee_c - admin_c);
        let out_full = y128 + fee_c;
        // admin shares, sized by the invariant growth of the admin portion
        let ts0 = self.shares_total_supply;
        let ghost c_mid_spec = self.spec_c_amounts().update(in_idx as int, new_c_in).update(
            out_idx as int,
            out_plain,
        );
        let ghost c_fin_spec = self.spec_c_amounts().update(in_idx as int, new_c_in).update(
            out_idx as int,
            out_full,
        );
        let admin_mint: u128 = if admin_c > 0 && ts0 > 0 {
            xp.set(out_idx, out_plain);
            proof {
                assert(xp@ =~= c_mid_spec);
            }
            let d_mid = match compute_d(&xp, self.amp_factor) {
                Ok(v) => v,
                Err(e) => {
                    return Err(e);
                },
            };
            xp.set(out_idx, out_full);
            proof {
                assert(xp@ =~= c_fin_spec);
            }
            let d_fin = match compute_d(&xp, self.amp_factor) {
                Ok(v) => v,
                Err(e) => {
                    return Err(e);
                },
            };
            match mint_from_d_growth(ts0, d_mid, d_fin) {
                Ok(v) => v,
                Err(e) => {
                    return Err(e);
                },
            }
        } else {
            xp.set(out_idx, out_full);
            proof {
                assert(xp@ =~= c_fin_spec);
            }
            0
        };
        if ts0 > u128::MAX - admin_mint {
            return Err(ExchangeError::MathOverflow);
        }
        // the referral's cut comes out of the total admin mint
        let referral_registered: bool = match fees.referral_id {
            Some(rid) => self.shares.contains_key(rid),
            None => false,
        };
        let mint_referral = if referral_registered {
            crate::math::fee_part(admin_mint, fees.referral_fee)
        } else {
            0
        };
        let mint_exchange = admin_mint - mint_referral;
        // raw custody moves by exactly the user's amounts
        let raw_in = match self.amounts[in_idx].checked_add(amount_in) {
            Some(v) => v,
            None => {
                return Err(ExchangeError::MathOverflow);
            },
        };
        if self.amounts[out_idx] < out {
            return Err(ExchangeError::MathOverflow);
        }
        let raw_out = self.amounts[out_idx] - out;
        // commit
        self.c_amounts = xp;
        self.amounts.set(in_idx, raw_in);
        self.amounts.set(out_idx, raw_out);
        let ghost mid = *self;
        let res = self.mint_shares(fees.exchange_id, mint_exchange);
        proof {
            assert(res is Ok);
        }
        if referral_registered && mint_referral > 0 {
            let rid = match fees.referral_id {
                Some(rid) => rid,
                None => {
                    proof {
                        assert(false);
                    }
                    0
                },
            };
            let res_r = self.mint_shares(rid, mint_referral);
            proof {
                assert(res_r is Ok);
            }
        }
        proof {
            assert(final(self).spec_c_amounts() =~= old(self).spec_c_amounts().update(
                in_idx as int,
                new_c_in,
            ).update(out_idx as int, out_full));
            assert(final(self).spec_amounts() =~= old(self).spec_amounts().update(
                in_idx as int,
                raw_in,
            ).update(out_idx as int, raw_out));
            assert(mid.share_of(fees.exchange_id) == old(self).share_of(fees.exchange_id));
        }
        Ok(out)
    }
}

/// The fee-reduced reserves that size the shares of an imbalanced
/// liquidity change: for each of the first `i` positions, the new reserve
/// less `|new - ideal| * fee * n / (4 * (n - 1) * FEE_DIVISOR)`, where
/// `ideal` is the old reserve grown proportionally with the invariant.
pub open spec fn spec_imbalance_reduced(
    oldc: Seq<u128>,
    newc: Seq<u128>,
    d0: int,
    d1: int,
    fee: int,
    i: nat,
) -> Option<Seq<u128>>
    decreases i,
{
    if i == 0 {
        Some(newc)
    } else {
        match spec_imbalance_reduced(oldc, newc, d0, d1, fee, (i - 1) as nat) {
            None => None,
            Some(s) => {
                let n = oldc.len() as int;
                let idx = i - 1;
                if d1 * oldc[idx] >= pow256() {
                    None
                } else {
                    let ideal = d1 * oldc[idx] / d0;
                    let xp = newc[idx] as int;
                    let diff = if xp >= ideal {
                        xp - ideal
                    } else {
                        ideal - xp
                    };
                    let fnum = fee * n;
                    let fden = 4 * (n - 1) * (FEE_DIVISOR as int);
                    if diff * fnum >= pow256() {
                        None
                    } else {
                        let f = diff * fnum / fden;
                        if xp < f {
                            None
                        } else {
                            Some(s.update(idx, (xp - f) as u128))
                        }
                    }
                }
            },
        }
    }
}

/// A failed fee reduction stays failed as more positions fold in.
proof fn lemma_reduced_none_later(
    oldc: Seq<u128>,
    newc: Seq<u128>,
    d0: int,
    d1: int,
    fee: int,
    i: nat,
    j: nat,
)
    requires
        i <= j,
        spec_imbalance_reduced(oldc, newc, d0, d1, fee, i) is None,
    ensures
        spec_imbalance_reduced(oldc, newc, d0, d1, fee, j) is None,
    decreases j - i,
{
    if i < j {
        lemma_reduced_none_later(oldc, newc, d0, d1, fee, i + 1, j);
    }
}

impl StableSwapPool {
    /// Computes the fee-reduced copy of `newc` used to size an imbalanced
    /// liquidity change.  `d0` must be positive.
    fn imbalance_reduced(&self, newc: &Vec<u128>, d0: U256, d1: U256) -> (r: Result<
        Vec<u128>,
        ExchangeError,
    >)
        requires
            self.wf(),
            newc@.len() == self.spec_c_amounts().len(),
            d0.val() > 0,
        ensures
            match r {
                Ok(v) => v@.len() == newc@.len() && Some(v@) == spec_imbalance_reduced(
                    self.spec_c_amounts(),
                    newc@,
                    d0.val(),
                    d1.val(),
                    self.spec_fee(),
                    self.spec_c_amounts().len(),
                ),
                Err(e) => {
                    &&& spec_imbalance_reduced(
                        self.spec_c_amounts(),
                        newc@,
                        d0.val(),
                        d1.val(),
                        self.spec_fee(),
                        self.spec_c_amounts().len(),
                    ) is None
                    &&& e == ExchangeError::MathOverflow
                },
            },
    {
        let n = self.c_amounts.len();
        proof {
            assert((self.total_fee as u128) * (n as u128) < 40000 && 4 * (((n - 1) as u128))
                * (FEE_DIVISOR as u128) <= 120000) by (nonlinear_arith)
                requires
                    self.total_fee < 10000,
                    2 <= n <= 4,
            {
            }
        }
        let fnum: u128 = (self.total_fee as u128) * (n as u128);
        let fden: u128 = 4 * ((n - 1) as u128) * (FEE_DIVISOR as u128);
        let mut out: Vec<u128> = Vec::new();
        let mut i: usize = 0;
        // build the reduced vector position by position
        let mut acc = newc.clone();
        proof {
            assert(acc@ =~= newc@);
        }
        while i < n
            invariant
                self.wf(),
                i <= n == self.spec_c_amounts().len(),
                newc@.len() == n,
                acc@.len() == n,
                d0.val() > 0,
                fnum == self.spec_fee() * (n as int),
                fden == 4 * ((n - 1) as int) * (FEE_DIVISOR as int),
                fden > 0,
                Some(acc@) == spec_imbalance_reduced(
                    self.spec_c_amounts(),
                    newc@,
                    d0.val(),
                    d1.val(),
                    self.spec_fee(),
                    i as nat,
                ),
            decreases n - i,
        {
            let ideal_num = match u256_checked_mul(d1, u256_from(self.c_amounts[i])) {
                Some(v) => v,
                None => {
                    proof {
                        lemma_reduced_none_later(
                            self.spec_c_amounts(),
                            newc@,
                            d0.val(),
                            d1.val(),
                            self.spec_fee(),
                            (i + 1) as nat,
                            self.spec_c_amounts().len(),
                        );
                    }
                    return Err(ExchangeError::MathOverflow);
                },
            };
            let (ideal, _ri) = u256_divmod(ideal_num, d0);
            proof {
                lemma_fundamental_div_mod_converse(
                    ideal_num.val(),
                    d0.val(),
                    ideal.val(),
                    _ri.val(),
                );
            }
            let xp = u256_from(newc[i]);
            let diff = if u256_le(ideal, xp) {
                u256_sub(xp, ideal)
            } else {
                u256_sub(ideal, xp)
            };
            let fee_num = match u256_checked_mul(diff, u256_from(fnum)) {
                Some(v) => v,
                None => {
                    proof {
                        lemma_reduced_none_later(
                            self.spec_c_amounts(),
                            newc@,
                            d0.val(),
                            d1.val(),
                            self.spec_fee(),
                            (i + 1) as nat,
                            self.spec_c_amounts().len(),
                        );
                    }
                    return Err(ExchangeError::MathOverflow);
                },
            };
            let (f, _rf) = u256_divmod(fee_num, u256_from(fden));
            proof {
                lemma_fundamental_div_mod_converse(fee_num.val(), fden as int, f.val(), _rf.val());
            }
            if u256_lt(xp, f) {
                proof {
                    lemma_reduced_none_later(
                        self.spec_c_amounts(),
                        newc@,
                        d0.val(),
                        d1.val(),
                        self.spec_fee(),
                        (i + 1) as nat,
                        self.spec_c_amounts().len(),
                    );
                }
                return Err(ExchangeError::MathOverflow);
            }
            let red = u256_sub(xp, f);
            let red128 = match u256_as_u128(red) {
                Some(v) => v,
                None => {
                    proof {
                        assert(false);
                    }
                    return Err(ExchangeError::MathOverflow);
                },
            };
            acc.set(i, red128);
            proof {
                assert(acc@ =~= spec_imbalance_reduced(
                    self.spec_c_amounts(),
                    newc@,
                    d0.val(),
                    d1.val(),
                    self.spec_fee(),
                    (i + 1) as nat,
                ).unwrap());
            }
            i = i + 1;
        }
        Ok(acc)
    }

    /// Adds liquidity in any token combination.  The minted shares equal
    /// the supply's growth of the invariant, after a fee on each token's
    /// deviation from the balanced deposit; the first deposit mints the
    /// invariant itself.  The admin portion of that fee becomes
    /// exchange-owned shares sized by the fee's invariant value.  Fails
    /// with `InsufficientOutput` when fewer than `min_shares` would be
    /// minted; failure leaves the pool untouched.
    pub fn add_stable_liquidity(
        &mut self,
        sender_id: u64,
        amounts: &Vec<u128>,
        min_shares: u128,
        fees: &AdminFees,
    ) -> (r: Result<u128, ExchangeError>)
        requires
            old(self).wf(),
            fees.wf(),
        ensures
            final(self).wf(),
            amounts@.len() == old(self).spec_c_amounts().len() && spec_stable_add_fits(
                *old(self),
                amounts@,
                *fees,
            ) && spec_stable_add_mint(*old(self), amounts@) >= min_shares ==> r is Ok,
            match r {
                Ok(minted) => {
                    &&& amounts@.len() == old(self).spec_c_amounts().len()
                    &&& minted >= min_shares
                    &&& final(self).spec_tokens() == old(self).spec_tokens()
                    &&& final(self).spec_decimals() == old(self).spec_decimals()
                    &&& final(self).spec_amp() == old(self).spec_amp()
                    &&& final(self).spec_fee() == old(self).spec_fee()
                    &&& final(self).spec_c_amounts().len() == old(self).spec_c_amounts().len()
                    &&& forall|k: int|
                        0 <= k < old(self).spec_c_amounts().len() ==> final(self).spec_c_amounts()[k] == old(self).spec_c_amounts()[k] + amounts@[k]
                            * pow10((TARGET_DECIMALS - old(self).spec_decimals()[k]) as nat)
                    &&& forall|k: int|
                        0 <= k < old(self).spec_amounts().len() ==> final(self).spec_amounts()[k]
                            == old(self).spec_amounts()[k] + amounts@[k]
                    &&& (old(self).spec_total_shares() == 0 ==> Some(minted as int)
                        == spec_compute_d(final(self).spec_c_amounts(), old(self).spec_amp())
                        && final(self).spec_total_shares() == minted && final(self).share_of(
                        sender_id,
                    ) == old(self).share_of(sender_id) + minted && (forall|a: u64|
                        a != sender_id ==> final(self).share_of(a) == old(self).share_of(a)) && (
                    forall|a: u64|
                        final(self).lp_registered(a) == (old(self).lp_registered(a) || (a
                            == sender_id && minted > 0))))
                    &&& (old(self).spec_total_shares() > 0 ==> {
                        let d0 = spec_compute_d(
                            old(self).spec_c_amounts(),
                            old(self).spec_amp(),
                        ).unwrap();
                        let d1 = spec_compute_d(
                            final(self).spec_c_amounts(),
                            old(self).spec_amp(),
                        ).unwrap();
                        let reduced = spec_imbalance_reduced(
                            old(self).spec_c_amounts(),
                            final(self).spec_c_amounts(),
                            d0,
                            d1,
                            old(self).spec_fee(),
                            old(self).spec_c_amounts().len(),
                        ).unwrap();
                        let d2 = spec_compute_d(reduced, old(self).spec_amp()).unwrap();
                        let adm = spec_admin_fee_mint(
                            old(self).spec_total_shares() + minted,
                            d2,
                            d1,
                            fees.exchange_fee as int,
                        );
                        &&& minted == spec_d_growth_mint(old(self).spec_total_shares(), d0, d2)
                        &&& final(self).spec_total_shares() == old(self).spec_total_shares()
                            + minted + adm
                        &&& forall|a: u64|
                            final(self).share_of(a) == old(self).share_of(a) + (
                            if a == sender_id {
                                minted as int
                            } else {
                                0int
                            }) + (
                            if a == fees.exchange_id {
                                adm
                            } else {
                                0int
                            })
                        &&& forall|a: u64|
                            final(self).lp_registered(a) == (old(self).lp_registered(a) || (a
                                == sender_id && minted > 0) || (a == fees.exchange_id && adm > 0))
                    })
                },
                Err(e) => {
                    &&& *final(self) == *old(self)
                    &&& (e == ExchangeError::WrongTokenCount <==> amounts@.len() != old(self).spec_c_amounts().len())
                    &&& (e == ExchangeError::WrongTokenCount || e == ExchangeError::MathOverflow
                        || e == ExchangeError::ComputeDFailed || e == ExchangeError::ZeroLiquidity
                        || e == ExchangeError::InsufficientOutput)
                },
            },
    {
        let n = self.c_amounts.len();
        if amounts.len() != n {
            return Err(ExchangeError::WrongTokenCount);
        }
        // scale the deposits and form the new pricing reserves
        let mut newc = self.get_c_amounts();
        let mut new_raw = self.get_amounts();
        let mut i: usize = 0;
        while i < n
            invariant
                self.wf(),
                i <= n == self.spec_c_amounts().len(),
                amounts@.len() == n,
                newc@.len() == n,
                new_raw@.len() == n,
                forall|k: int|
                    0 <= k < i ==> newc@[k] == self.spec_c_amounts()[k] + amounts@[k] * pow10(
                        (TARGET_DECIMALS - self.spec_decimals()[k]) as nat,
                    ),
                forall|k: int|
                    i <= k < n ==> newc@[k] == self.spec_c_amounts()[k],
                forall|k: int|
                    0 <= k < i ==> new_raw@[k] == self.spec_amounts()[k] + amounts@[k],
                forall|k: int| i <= k < n ==> new_raw@[k] == self.spec_amounts()[k],
            decreases n - i,
        {
            let scale = crate::math::pow10_u128(TARGET_DECIMALS - self.decimals[i]);
            let dep_c = match u256_as_u128(mul_wide(amounts[i], scale)) {
                Some(v) => v,
                None => {
                    proof {
                        let gi = i as int;
                        assert(amounts@[gi] * pow10(
                            (TARGET_DECIMALS - self.spec_decimals()[gi]) as nat,
                        ) >= pow128());
                    }
                    return Err(ExchangeError::MathOverflow);
                },
            };
            let nc = match newc[i].checked_add(dep_c) {
                Some(v) => v,
                None => {
                    proof {
                        let gi = i as int;
                        assert(self.spec_c_amounts()[gi] + amounts@[gi] * pow10(
                            (TARGET_DECIMALS - self.spec_decimals()[gi]) as nat,
                        ) >= pow128());
                    }
                    return Err(ExchangeError::MathOverflow);
                },
            };
            let nr = match new_raw[i].checked_add(amounts[i]) {
                Some(v) => v,
                None => {
                    proof {
                        let gi = i as int;
                        assert(self.spec_amounts()[gi] + amounts@[gi] >= pow128());
                    }
                    return Err(ExchangeError::MathOverflow);
                },
            };
            newc.set(i, nc);
            new_raw.set(i, nr);
            i = i + 1;
        }
        proof {
            assert(newc@ =~= spec_added_c(*self, amounts@));
        }
        let ts0 = self.shares_total_supply;
        let (minted, adm): (u128, u128) = if ts0 == 0 {
            let d1 = match compute_d(&newc, self.amp_factor) {
                Ok(v) => v,
                Err(e) => {
                    return Err(e);
                },
            };
            let m = match u256_as_u128(d1) {
                Some(v) => v,
                None => {
                    return Err(ExchangeError::MathOverflow);
                },
            };
            (m, 0)
        } else {
            let d0 = match compute_d(&self.c_amounts, self.amp_factor) {
                Ok(v) => v,
                Err(e) => {
                    return Err(e);
                },
            };
            if d0.hi == 0 && d0.lo == 0 {
                return Err(ExchangeError::ZeroLiquidity);
            }
            proof {
                if d0.hi != 0 {
                    lemma_mul_inequality(1, d0.hi as int, pow128());
                }
            }
            let d1 = match compute_d(&newc, self.amp_factor) {
                Ok(v) => v,
                Err(e) => {
                    return Err(e);
                },
            };
            let reduced = match self.imbalance_reduced(&newc, d0, d1) {
                Ok(v) => v,
                Err(e) => {
                    return Err(e);
                },
            };
            let d2 = match compute_d(&reduced, self.amp_factor) {
                Ok(v) => v,
                Err(e) => {
                    return Err(e);
                },
            };
            let m = match mint_from_d_growth(ts0, d0, d2) {
                Ok(v) => v,
                Err(e) => {
                    return Err(e);
                },
            };
            let ts_mid = match ts0.checked_add(m) {
                Some(v) => v,
                None => {
                    return Err(ExchangeError::MathOverflow);
                },
            };
            // the admin portion of the imbalance fee, as exchange shares
            let a = match admin_fee_mint(ts_mid, d2, d1, fees.exchange_fee) {
                Ok(v) => v,
                Err(e) => {
                    return Err(e);
                },
            };
            (m, a)
        };
        if minted < min_shares {
            return Err(ExchangeError::InsufficientOutput);
        }
        if ts0 > u128::MAX - minted {
            return Err(ExchangeError::MathOverflow);
        }
        if ts0 + minted > u128::MAX - adm {
            return Err(ExchangeError::MathOverflow);
        }
        self.c_amounts = newc;
        self.amounts = new_raw;
        let ghost mid = *self;
        let res = self.mint_shares(sender_id, minted);
        proof {
            assert(res is Ok);
        }
        if adm > 0 {
            let res_a = self.mint_shares(fees.exchange_id, adm);
            proof {
                assert(res_a is Ok);
            }
        }
        Ok(minted)
    }
}

impl StableSwapPool {
    /// Burns shares out of a holder's record and the supply.
    fn burn_shares(&mut self, account: u64, amount: u128) -> (r: Result<(), ExchangeError>)
        requires
            old(self).wf(),
        ensures
            final(self).wf(),
            final(self).spec_tokens() == old(self).spec_tokens(),
            final(self).spec_decimals() == old(self).spec_decimals(),
            final(self).spec_c_amounts() == old(self).spec_c_amounts(),
            final(self).spec_amounts() == old(self).spec_amounts(),
            final(self).spec_amp() == old(self).spec_amp(),
            final(self).spec_fee() == old(self).spec_fee(),
            match r {
                Ok(()) => {
                    &&& amount <= old(self).share_of(account)
                    &&& final(self).spec_total_shares() == old(self).spec_total_shares() - amount
                    &&& final(self).share_of(account) == old(self).share_of(account) - amount
                    &&& forall|a: u64|
                        a != account ==> final(self).share_of(a) == old(self).share_of(a)
                    &&& forall|a: u64|
                        final(self).lp_registered(a) == old(self).lp_registered(a)
                },
                Err(e) => {
                    &&& *final(self) == *old(self)
                    &&& e == ExchangeError::InsufficientLpBalance
                    &&& amount > old(self).share_of(account)
                },
            },
    {
        let bal = self.share_balance_of(account);
        if bal < amount {
            return Err(ExchangeError::InsufficientLpBalance);
        }
        if amount == 0 {
            return Ok(());
        }
        proof {
            self.shares.lemma_idx_of(account);
            lemma_sum_elem_le(self.shares.vals_seq(), self.shares.idx_of(account));
        }
        self.shares.insert(account, bal - amount);
        self.shares_total_supply = self.shares_total_supply - amount;
        proof {
            old(self).shares.lemma_idx_of(account);
            lemma_sum_update(
                old(self).shares.vals_seq(),
                old(self).shares.idx_of(account),
                (bal - amount) as u128,
            );
            assert forall|a: u64| a != account implies final(self).share_of(a) == old(self).share_of(a) && final(self).lp_registered(a) == old(self).lp_registered(a) by {
                crate::table::lemma_insert_other(
                    old(self).shares,
                    self.shares,
                    account,
                    (bal - amount) as u128,
                    a,
                );
            }
        }
        Ok(())
    }

    /// Burns `shares` for the proportional, floored payout of each reserve,
    /// scaled down to each token's own decimals.  No fee.  Each payout must
    /// reach the caller's minimum; failure leaves the pool untouched.
    #[verifier::rlimit(30)]
    pub fn remove_liquidity(&mut self, sender_id: u64, shares: u128, min_amounts: &Vec<u128>) -> (r:
        Result<Vec<u128>, ExchangeError>)
        requires
            old(self).wf(),
        ensures
            final(self).wf(),
            match r {
                Ok(paid) => {
                    &&& min_amounts@.len() == old(self).spec_c_amounts().len()
                    &&& shares > 0
                    &&& shares <= old(self).share_of(sender_id)
                    &&& paid@.len() == old(self).spec_c_amounts().len()
                    &&& final(self).spec_tokens() == old(self).spec_tokens()
                    &&& final(self).spec_decimals() == old(self).spec_decimals()
                    &&& final(self).spec_amp() == old(self).spec_amp()
                    &&& final(self).spec_fee() == old(self).spec_fee()
                    &&& forall|k: int|
                        #![trigger paid@[k]]
                        0 <= k < paid@.len() ==> {
                            let c_pay = crate::simple_pool::spec_payout(
                                shares as int,
                                old(self).spec_c_amounts()[k] as int,
                                old(self).spec_total_shares(),
                            );
                            &&& paid@[k] == c_pay / pow10(
                                (TARGET_DECIMALS - old(self).spec_decimals()[k]) as nat,
                            )
                            &&& paid@[k] >= min_amounts@[k]
                            &&& paid@[k] <= old(self).spec_amounts()[k]
                            &&& final(self).spec_c_amounts()[k] == old(self).spec_c_amounts()[k]
                                - c_pay
                            &&& final(self).spec_amounts()[k] == old(self).spec_amounts()[k]
                                - paid@[k]
                        }
                    &&& final(self).spec_c_amounts().len() == old(self).spec_c_amounts().len()
                    &&& final(self).spec_amounts().len() == old(self).spec_amounts().len()
                    &&& final(self).spec_total_shares() == old(self).spec_total_shares() - shares
                    &&& final(self).share_of(sender_id) == old(self).share_of(sender_id) - shares
                    &&& forall|a: u64|
                        a != sender_id ==> final(self).share_of(a) == old(self).share_of(a)
                    &&& forall|a: u64|
                        final(self).lp_registered(a) == old(self).lp_registered(a)
                },
                Err(e) => {
                    &&& *final(self) == *old(self)
                    &&& (e == ExchangeError::WrongTokenCount <==> min_amounts@.len() != old(self).spec_c_amounts().len())
                    &&& (e == ExchangeError::ZeroAmount <==> min_amounts@.len() == old(self).spec_c_amounts().len() && shares == 0)
                    &&& (e == ExchangeError::InsufficientLpBalance <==> min_amounts@.len() == old(self).spec_c_amounts().len() && shares > 0 && shares > old(self).share_of(
                        sender_id,
                    ))
                    &&& (e == ExchangeError::InsufficientOutput ==> exists|k: int|
                        0 <= k < old(self).spec_c_amounts().len()
                            && #[trigger] min_amounts@[k] > crate::simple_pool::spec_payout(
                            shares as int,
                            old(self).spec_c_amounts()[k] as int,
                            old(self).spec_total_shares(),
                        ) / pow10((TARGET_DECIMALS - old(self).spec_decimals()[k]) as nat))
                    &&& (e == ExchangeError::MathOverflow ==> exists|k: int|
                        0 <= k < old(self).spec_c_amounts().len()
                            && #[trigger] old(self).spec_amounts()[k] < crate::simple_pool::spec_payout(
                            shares as int,
                            old(self).spec_c_amounts()[k] as int,
                            old(self).spec_total_shares(),
                        ) / pow10((TARGET_DECIMALS - old(self).spec_decimals()[k]) as nat))
                    &&& (e == ExchangeError::WrongTokenCount || e == ExchangeError::ZeroAmount || e
                        == ExchangeError::InsufficientLpBalance || e
                        == ExchangeError::InsufficientOutput || e == ExchangeError::MathOverflow)
                },
            },
    {
        let n = self.c_amounts.len();
        if min_amounts.len() != n {
            return Err(ExchangeError::WrongTokenCount);
        }
        if shares == 0 {
            return Err(ExchangeError::ZeroAmount);
        }
        let bal = self.share_balance_of(sender_id);
        if shares > bal {
            return Err(ExchangeError::InsufficientLpBalance);
        }
        proof {
            self.shares.lemma_idx_of(sender_id);
            lemma_sum_elem_le(self.shares.vals_seq(), self.shares.idx_of(sender_id));
        }
        let ts = self.shares_total_supply;
        let mut paid: Vec<u128> = Vec::new();
        let mut newc = self.get_c_amounts();
        let mut new_raw = self.get_amounts();
        let mut i: usize = 0;
        while i < n
            invariant
                self.wf(),
                i <= n == self.spec_c_amounts().len(),
                min_amounts@.len() == n,
                ts == self.spec_total_shares(),
                0 < shares <= ts,
                shares <= self.share_of(sender_id),
                min_amounts@.len() == n,
                paid@.len() == i,
                newc@.len() == n,
                new_raw@.len() == n,
                forall|k: int|
                    #![trigger paid@[k]]
                    0 <= k < i ==> {
                        let c_pay = crate::simple_pool::spec_payout(
                            shares as int,
                            self.spec_c_amounts()[k] as int,
                            self.spec_total_shares(),
                        );
                        &&& paid@[k] == c_pay / pow10(
                            (TARGET_DECIMALS - self.spec_decimals()[k]) as nat,
                        )
                        &&& paid@[k] >= min_amounts@[k]
                        &&& paid@[k] <= self.spec_amounts()[k]
                        &&& newc@[k] == self.spec_c_amounts()[k] - c_pay
                        &&& new_raw@[k] == self.spec_amounts()[k] - paid@[k]
                    },
                forall|k: int| i <= k < n ==> newc@[k] == self.spec_c_amounts()[k],
                forall|k: int| i <= k < n ==> new_raw@[k] == self.spec_amounts()[k],
            decreases n - i,
        {
            proof {
                crate::simple_pool::lemma_payout_le(
                    shares as int,
                    self.spec_c_amounts()[i as int] as int,
                    ts as int,
                );
            }
            let c_pay = match crate::math::mul_div_floor(shares, self.c_amounts[i], ts) {
                Some(v) => v,
                None => {
                    proof {
                        assert(false);
                    }
                    return Err(ExchangeError::MathOverflow);
                },
            };
            let scale = crate::math::pow10_u128(TARGET_DECIMALS - self.decimals[i]);
            proof {
                crate::math::lemma_pow10_pos((TARGET_DECIMALS - self.spec_decimals()[i as int]) as nat);
            }
            let out = c_pay / scale;
            if out < min_amounts[i] {
                proof {
                    let gi = i as int;
                    assert(0 <= gi < self.spec_c_amounts().len() && min_amounts@[gi]
                        > crate::simple_pool::spec_payout(
                        shares as int,
                        self.spec_c_amounts()[gi] as int,
                        self.spec_total_shares(),
                    ) / pow10((TARGET_DECIMALS - self.spec_decimals()[gi]) as nat));
                }
                return Err(ExchangeError::InsufficientOutput);
            }
            if self.amounts[i] < out {
                proof {
                    let gi = i as int;
                    assert(0 <= gi < self.spec_c_amounts().len() && self.spec_amounts()[gi]
                        < crate::simple_pool::spec_payout(
                        shares as int,
                        self.spec_c_amounts()[gi] as int,
                        self.spec_total_shares(),
                    ) / pow10((TARGET_DECIMALS - self.spec_decimals()[gi]) as nat));
                }
                return Err(ExchangeError::MathOverflow);
            }
            newc.set(i, self.c_amounts[i] - c_pay);
            new_raw.set(i, self.amounts[i] - out);
            paid.push(out);
            proof {
                assert forall|k: int| #![trigger paid@[k]] 0 <= k < i + 1 implies {
                    let c_pay_k = crate::simple_pool::spec_payout(
                        shares as int,
                        self.spec_c_amounts()[k] as int,
                        self.spec_total_shares(),
                    );
                    &&& paid@[k] == c_pay_k / pow10(
                        (TARGET_DECIMALS - self.spec_decimals()[k]) as nat,
                    )
                    &&& paid@[k] >= min_amounts@[k]
                    &&& paid@[k] <= self.spec_amounts()[k]
                    &&& newc@[k] == self.spec_c_amounts()[k] - c_pay_k
                    &&& new_raw@[k] == self.spec_amounts()[k] - paid@[k]
                } by {
                    if k == i {
                        assert(paid@[k] == out);
                        assert(c_pay == crate::simple_pool::spec_payout(
                            shares as int,
                            self.spec_c_amounts()[k] as int,
                            self.spec_total_shares(),
                        ));
                    }
                }
            }
            i = i + 1;
        }
        self.c_amounts = newc;
        self.amounts = new_raw;
        let res = self.burn_shares(sender_id, shares);
        proof {
            assert(res is Ok);
        }
        Ok(paid)
    }

    /// Removes an exact token combination, burning at most
    /// `max_burn_shares` shares: the supply's share of the invariant drop,
    /// after the per-token imbalance fee, rounded up.  The admin portion of
    /// the fee becomes exchange-owned shares.  Failure leaves the pool
    /// untouched.
    pub fn remove_liquidity_by_tokens(
        &mut self,
        sender_id: u64,
        amounts: &Vec<u128>,
        max_burn_shares: u128,
        fees: &AdminFees,
    ) -> (r: Result<u128, ExchangeError>)
        requires
            old(self).wf(),
            fees.wf(),
        ensures
            final(self).wf(),
            amounts@.len() == old(self).spec_c_amounts().len() && spec_stable_remove_fits(
                *old(self),
                sender_id,
                amounts@,
                *fees,
            ) && spec_stable_burn(*old(self), amounts@) <= max_burn_shares ==> r is Ok,
            match r {
                Ok(burned) => {
                    &&& amounts@.len() == old(self).spec_c_amounts().len()
                    &&& burned <= max_burn_shares
                    &&& burned <= old(self).share_of(sender_id)
                    &&& final(self).spec_tokens() == old(self).spec_tokens()
                    &&& final(self).spec_decimals() == old(self).spec_decimals()
                    &&& final(self).spec_amp() == old(self).spec_amp()
                    &&& final(self).spec_fee() == old(self).spec_fee()
                    &&& final(self).spec_c_amounts().len() == old(self).spec_c_amounts().len()
                    &&& forall|k: int|
                        0 <= k < old(self).spec_c_amounts().len() ==> final(self).spec_c_amounts()[k] == old(self).spec_c_amounts()[k] - amounts@[k]
                            * pow10((TARGET_DECIMALS - old(self).spec_decimals()[k]) as nat)
                    &&& forall|k: int|
                        0 <= k < old(self).spec_amounts().len() ==> amounts@[k] <= old(
                            self,
                        ).spec_amounts()[k] && final(self).spec_amounts()[k] == old(
                            self,
                        ).spec_amounts()[k] - amounts@[k]
                    &&& {
                        let d0 = spec_compute_d(
                            old(self).spec_c_amounts(),
                            old(self).spec_amp(),
                        ).unwrap();
                        let d1 = spec_compute_d(
                            final(self).spec_c_amounts(),
                            old(self).spec_amp(),
                        ).unwrap();
                        let reduced = spec_imbalance_reduced(
                            old(self).spec_c_amounts(),
                            final(self).spec_c_amounts(),
                            d0,
                            d1,
                            old(self).spec_fee(),
                            old(self).spec_c_amounts().len(),
                        ).unwrap();
                        let d2 = spec_compute_d(reduced, old(self).spec_amp()).unwrap();
                        let ts = old(self).spec_total_shares();
                        let adm = spec_admin_fee_mint(
                            ts - burned,
                            d2,
                            d1,
                            fees.exchange_fee as int,
                        );
                        &&& burned == (if d0 > d2 {
                            (ts * (d0 - d2) + d0 - 1) / d0
                        } else {
                            0int
                        })
                        &&& final(self).spec_total_shares() == ts - burned + adm
                        &&& final(self).share_of(sender_id) == old(self).share_of(sender_id)
                            - burned + (
                        if sender_id == fees.exchange_id {
                            adm
                        } else {
                            0int
                        })
                        &&& final(self).share_of(fees.exchange_id) == old(self).share_of(
                            fees.exchange_id,
                        ) + adm - (
                        if sender_id == fees.exchange_id {
                            burned as int
                        } else {
                            0int
                        })
                        &&& forall|a: u64|
                            a != sender_id && a != fees.exchange_id ==> final(self).share_of(a)
                                == old(self).share_of(a)
                        &&& forall|a: u64|
                            final(self).lp_registered(a) == (old(self).lp_registered(a) || (a
                                == fees.exchange_id && adm > 0))
                    }
                },
                Err(e) => {
                    &&& *final(self) == *old(self)
                    &&& (e == ExchangeError::WrongTokenCount <==> amounts@.len() != old(self).spec_c_amounts().len())
                    &&& (e == ExchangeError::WrongTokenCount || e == ExchangeError::MathOverflow
                        || e == ExchangeError::ComputeDFailed || e == ExchangeError::ZeroLiquidity
                        || e == ExchangeError::InsufficientOutput || e
                        == ExchangeError::InsufficientLpBalance)
                },
            },
    {
        let n = self.c_amounts.len();
        if amounts.len() != n {
            return Err(ExchangeError::WrongTokenCount);
        }
        // scale the withdrawals and form the new pricing reserves
        let mut newc = self.get_c_amounts();
        let mut new_raw = self.get_amounts();
        let mut i: usize = 0;
        while i < n
            invariant
                self.wf(),
                i <= n == self.spec_c_amounts().len(),
                amounts@.len() == n,
                newc@.len() == n,
                new_raw@.len() == n,
                forall|k: int|
                    0 <= k < i ==> newc@[k] == self.spec_c_amounts()[k] - amounts@[k] * pow10(
                        (TARGET_DECIMALS - self.spec_decimals()[k]) as nat,
                    ),
                forall|k: int| i <= k < n ==> newc@[k] == self.spec_c_amounts()[k],
                forall|k: int|
                    0 <= k < i ==> new_raw@[k] == self.spec_amounts()[k] - amounts@[k],
                forall|k: int| i <= k < n ==> new_raw@[k] == self.spec_amounts()[k],
            decreases n - i,
        {
            let scale = crate::math::pow10_u128(TARGET_DECIMALS - self.decimals[i]);
            let wd_c = match u256_as_u128(mul_wide(amounts[i], scale)) {
                Some(v) => v,
                None => {
                    proof {
                        let gi = i as int;
                        assert(amounts@[gi] * pow10(
                            (TARGET_DECIMALS - self.spec_decimals()[gi]) as nat,
                        ) >= pow128());
                    }
                    return Err(ExchangeError::MathOverflow);
                },
            };
            if newc[i] < wd_c {
                proof {
                    let gi = i as int;
                    assert(amounts@[gi] * pow10(
                        (TARGET_DECIMALS - self.spec_decimals()[gi]) as nat,
                    ) > self.spec_c_amounts()[gi]);
                }
                return Err(ExchangeError::ZeroLiquidity);
            }
            if new_raw[i] < amounts[i] {
                proof {
                    let gi = i as int;
                    assert(amounts@[gi] > self.spec_amounts()[gi]);
                }
                return Err(ExchangeError::ZeroLiquidity);
            }
            let nc = newc[i] - wd_c;
            let nr = new_raw[i] - amounts[i];
            newc.set(i, nc);
            new_raw.set(i, nr);
            i = i + 1;
        }
        proof {
            assert forall|k: int| 0 <= k < n implies amounts@[k] <= self.spec_amounts()[k] by {
                assert(new_raw@[k] == self.spec_amounts()[k] - amounts@[k]);
                assert(new_raw@[k] >= 0);
            }
            assert(newc@ =~= spec_removed_c(*self, amounts@));
        }
        let ts0 = self.shares_total_supply;
        let d0 = match compute_d(&self.c_amounts, self.amp_factor) {
            Ok(v) => v,
            Err(e) => {
                return Err(e);
            },
        };
        if d0.hi == 0 && d0.lo == 0 {
            return Err(ExchangeError::ZeroLiquidity);
        }
        proof {
            if d0.hi != 0 {
                lemma_mul_inequality(1, d0.hi as int, pow128());
            }
        }
        let d1 = match compute_d(&newc, self.amp_factor) {
            Ok(v) => v,
            Err(e) => {
                return Err(e);
            },
        };
        let reduced = match self.imbalance_reduced(&newc, d0, d1) {
            Ok(v) => v,
            Err(e) => {
                return Err(e);
            },
        };
        let d2 = match compute_d(&reduced, self.amp_factor) {
            Ok(v) => v,
            Err(e) => {
                return Err(e);
            },
        };
        // burn ceil(ts * (d0 - d2) / d0)
        let burned: u128 = if u256_lt(d2, d0) {
            let diff = u256_sub(d0, d2);
            let num = match u256_checked_mul(u256_from(ts0), diff) {
                Some(v) => v,
                None => {
                    return Err(ExchangeError::MathOverflow);
                },
            };
            let d0m1 = u256_sub(d0, U256 { hi: 0, lo: 1 });
            let num2 = match u256_checked_add(num, d0m1) {
                Some(v) => v,
                None => {
                    return Err(ExchangeError::MathOverflow);
                },
            };
            let (q, _rq) = u256_divmod(num2, d0);
            proof {
                lemma_fundamental_div_mod_converse(num2.val(), d0.val(), q.val(), _rq.val());
            }
            match u256_as_u128(q) {
                Some(v) => v,
                None => {
                    return Err(ExchangeError::MathOverflow);
                },
            }
        } else {
            0
        };
        if burned > max_burn_shares {
            return Err(ExchangeError::InsufficientOutput);
        }
        let bal = self.share_balance_of(sender_id);
        if burned > bal {
            return Err(ExchangeError::InsufficientLpBalance);
        }
        proof {
            if self.shares.has(sender_id) {
                self.shares.lemma_idx_of(sender_id);
                lemma_sum_elem_le(self.shares.vals_seq(), self.shares.idx_of(sender_id));
            }
        }
        // the admin portion of the imbalance fee, as exchange shares
        let adm = match admin_fee_mint(ts0 - burned, d2, d1, fees.exchange_fee) {
            Ok(v) => v,
            Err(e) => {
                return Err(e);
            },
        };
        if ts0 - burned > u128::MAX - adm {
            return Err(ExchangeError::MathOverflow);
        }
        self.c_amounts = newc;
        self.amounts = new_raw;
        let res = self.burn_shares(sender_id, burned);
        proof {
            assert(res is Ok);
        }
        if adm > 0 {
            let res_a = self.mint_shares(fees.exchange_id, adm);
            proof {
                assert(res_a is Ok);
            }
        }
        Ok(burned)
    }
}

} // verus!
