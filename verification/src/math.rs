//! Fixed-point helpers: 256-bit unsigned arithmetic built from `u128` halves,
//! floor/ceil multiply-divide, integer square root and powers of ten.
//!
//! Token amounts are `u128`; every intermediate product lives in [`U256`] and
//! overflow is always detected, never wrapped.

use vstd::prelude::*;
use vstd::arithmetic::mul::*;
use vstd::arithmetic::div_mod::*;

verus! {

/// Fee rates are expressed in basis points of this denominator.
pub const FEE_DIVISOR: u32 = 10_000;

/// 2^64 as a mathematical integer.
pub open spec fn pow64() -> int {
    0x1_0000_0000_0000_0000
}

/// 2^128 as a mathematical integer.
pub open spec fn pow128() -> int {
    pow64() * pow64()
}

/// 2^256 as a mathematical integer.
pub open spec fn pow256() -> int {
    pow128() * pow128()
}

/// An unsigned 256-bit integer stored as two `u128` halves.
#[derive(Clone, Copy, Debug, PartialEq, Eq, Structural)]
pub struct U256 {
    pub hi: u128,
    pub lo: u128,
}

impl U256 {
    /// The mathematical value `hi * 2^128 + lo`.
    pub open spec fn val(self) -> int {
        self.hi * pow128() + self.lo
    }

    /// Every `U256` value lies below 2^256.
    pub proof fn lemma_val_bounds(self)
        ensures
            0 <= self.val() < pow256(),
    {
        assert(self.hi * pow128() <= (pow128() - 1) * pow128()) by {
            lemma_mul_inequality(self.hi as int, pow128() - 1, pow128());
        }
        assert((pow128() - 1) * pow128() == pow256() - pow128()) by {
            lemma_mul_is_distributive_sub_other_way(pow128(), pow128(), 1);
        }
        assert(self.hi * pow128() >= 0) by {
            lemma_mul_nonnegative(self.hi as int, pow128());
        }
    }
}

/// The 256-bit value of a `u128`.
pub fn u256_from(a: u128) -> (r: U256)
    ensures
        r.val() == a,
{
    U256 { hi: 0, lo: a }
}

/// Whether `a <= b` as 256-bit values.
pub fn u256_le(a: U256, b: U256) -> (r: bool)
    ensures
        r == (a.val() <= b.val()),
{
    proof {
        if a.hi < b.hi {
            lemma_mul_inequality(a.hi as int + 1, b.hi as int, pow128());
            lemma_mul_is_distributive_add_other_way(pow128(), a.hi as int, 1);
        }
        if b.hi < a.hi {
            lemma_mul_inequality(b.hi as int + 1, a.hi as int, pow128());
            lemma_mul_is_distributive_add_other_way(pow128(), b.hi as int, 1);
        }
    }
    if a.hi == b.hi {
        a.lo <= b.lo
    } else {
        a.hi < b.hi
    }
}

/// Whether `a < b` as 256-bit values.
pub fn u256_lt(a: U256, b: U256) -> (r: bool)
    ensures
        r == (a.val() < b.val()),
{
    let le = u256_le(b, a);
    !le
}

/// 256-bit addition with overflow detection.
pub fn u256_checked_add(a: U256, b: U256) -> (r: Option<U256>)
    ensures
        match r {
            Some(s) => s.val() == a.val() + b.val(),
            None => a.val() + b.val() >= pow256(),
        },
{
    let (lo, carry): (u128, u128) = if a.lo > u128::MAX - b.lo {
        // a.lo + b.lo = 2^128 + (a.lo - (2^128 - b.lo))
        (a.lo - (u128::MAX - b.lo) - 1, 1)
    } else {
        (a.lo + b.lo, 0)
    };
    proof {
        assert(a.lo + b.lo == carry * pow128() + lo);
    }
    if a.hi > u128::MAX - carry || b.hi > u128::MAX - carry - a.hi {
        proof {
            assert(a.hi + b.hi + carry >= pow128());
            lemma_mul_inequality(pow128(), a.hi as int + b.hi as int + carry, pow128());
            lemma_mul_is_distributive_add_other_way(pow128(), a.hi as int + carry, b.hi as int);
            lemma_mul_is_distributive_add_other_way(pow128(), a.hi as int, carry as int);
        }
        None
    } else {
        let hi = a.hi + carry + b.hi;
        proof {
            lemma_mul_is_distributive_add_other_way(pow128(), a.hi as int + carry, b.hi as int);
            lemma_mul_is_distributive_add_other_way(pow128(), a.hi as int, carry as int);
        }
        Some(U256 { hi, lo })
    }
}

/// 256-bit subtraction; the minuend must be at least the subtrahend.
pub fn u256_sub(a: U256, b: U256) -> (r: U256)
    requires
        b.val() <= a.val(),
    ensures
        r.val() == a.val() - b.val(),
{
    proof {
        if a.hi < b.hi {
            lemma_mul_inequality(a.hi as int + 1, b.hi as int, pow128());
            lemma_mul_is_distributive_add_other_way(pow128(), a.hi as int, 1);
        }
    }
    if a.lo >= b.lo {
        let r = U256 { hi: a.hi - b.hi, lo: a.lo - b.lo };
        proof {
            lemma_mul_is_distributive_sub_other_way(pow128(), a.hi as int, b.hi as int);
        }
        r
    } else {
        // borrow one unit of 2^128 from the high half
        proof {
            if a.hi == b.hi {
                assert(false);
            }
        }
        let lo = (u128::MAX - b.lo) + a.lo + 1;
        let r = U256 { hi: a.hi - 1 - b.hi, lo };
        proof {
            lemma_mul_is_distributive_sub_other_way(pow128(), a.hi as int, 1 + b.hi as int);
            lemma_mul_is_distributive_add_other_way(pow128(), 1, b.hi as int);
        }
        r
    }
}

/// Full 128x128 -> 256 bit multiplication by 64-bit schoolbook limbs.
pub fn mul_wide(a: u128, b: u128) -> (r: U256)
    ensures
        r.val() == a * b,
{
    let p64: u128 = 0x1_0000_0000_0000_0000;
    let a1 = a / p64;
    let a0 = a % p64;
    let b1 = b / p64;
    let b0 = b % p64;
    proof {
        lemma_fundamental_div_mod(a as int, p64 as int);
        lemma_fundamental_div_mod(b as int, p64 as int);
        lemma_div_bound(a as int);
        lemma_div_bound(b as int);
        lemma_limb_mul_bound(a0 as int, b0 as int);
        lemma_limb_mul_bound(a1 as int, b0 as int);
        lemma_limb_mul_bound(a0 as int, b1 as int);
        lemma_limb_mul_bound(a1 as int, b1 as int);
    }
    let t = a0 * b0;
    proof {
        lemma_div_bound(t as int);
        lemma_fundamental_div_mod(t as int, p64 as int);
    }
    let mid1 = a1 * b0 + t / p64;
    proof {
        lemma_div_bound(mid1 as int);
        lemma_fundamental_div_mod(mid1 as int, p64 as int);
    }
    let mid2 = a0 * b1 + mid1 % p64;
    proof {
        lemma_div_bound(mid2 as int);
        lemma_fundamental_div_mod(mid2 as int, p64 as int);
        lemma_limb_mul_bound(mid2 as int % p64 as int, pow64());
    }
    let lo = t % p64 + (mid2 % p64) * p64;
    proof {
        lemma_mul_upper_bound(a1 as int, pow64() - 1, b1 as int, pow64() - 1);
        assert((pow64() - 1) * (pow64() - 1) == pow128() - 2 * pow64() + 1) by (nonlinear_arith)
            requires
                pow128() == pow64() * pow64(),
        {
        }
    }
    let hi = a1 * b1 + mid1 / p64 + mid2 / p64;
    proof {
        lemma_mul_wide_identity(
            a as int, b as int, a1 as int, a0 as int, b1 as int, b0 as int,
            t as int, t as int / pow64(), t as int % pow64(),
            mid1 as int, mid1 as int / pow64(), mid1 as int % pow64(),
            mid2 as int, mid2 as int / pow64(), mid2 as int % pow64(),
            hi as int, lo as int,
        );
    }
    U256 { hi, lo }
}

/// A quotient by 2^64 of a `u128` fits in 64 bits.
proof fn lemma_div_bound(x: int)
    requires
        0 <= x < pow128(),
    ensures
        0 <= x / pow64() < pow64(),
        0 <= x % pow64() < pow64(),
{
    lemma_fundamental_div_mod(x, pow64());
    lemma_div_pos_is_pos(x, pow64());
    if x / pow64() >= pow64() {
        lemma_mul_inequality(pow64(), x / pow64(), pow64());
    }
}

/// The product of two 64-bit limbs stays below 2^128 minus one full limb.
proof fn lemma_limb_mul_bound(x: int, y: int)
    requires
        0 <= x < pow64(),
        0 <= y <= pow64(),
    ensures
        0 <= x * y <= pow128() - pow64(),
{
    lemma_mul_nonnegative(x, y);
    lemma_mul_upper_bound(x, pow64() - 1, y, pow64());
    lemma_mul_is_distributive_sub_other_way(pow64(), pow64(), 1);
}

/// Doubles a 256-bit value, optionally adding one; the top bit must be free.
pub fn u256_double(a: U256, extra: bool) -> (r: U256)
    requires
        a.hi < 0x8000_0000_0000_0000_0000_0000_0000_0000u128,
    ensures
        r.val() == 2 * a.val() + if extra { 1int } else { 0int },
{
    let p127: u128 = 0x8000_0000_0000_0000_0000_0000_0000_0000;
    let add: u128 = if extra { 1 } else { 0 };
    if a.lo >= p127 {
        let lo = (a.lo - p127) * 2 + add;
        let hi = a.hi * 2 + 1;
        proof {
            assert(hi * pow128() + lo == 2 * a.val() + add) by (nonlinear_arith)
                requires
                    hi == a.hi * 2 + 1,
                    lo == (a.lo - p127) * 2 + add,
                    p127 * 2 == pow128(),
                    a.val() == a.hi * pow128() + a.lo,
            {
            }
        }
        U256 { hi, lo }
    } else {
        let lo = a.lo * 2 + add;
        let hi = a.hi * 2;
        proof {
            assert(hi * pow128() + lo == 2 * a.val() + add) by (nonlinear_arith)
                requires
                    hi == a.hi * 2,
                    lo == a.lo * 2 + add,
                    a.val() == a.hi * pow128() + a.lo,
            {
            }
        }
        U256 { hi, lo }
    }
}

/// Euclidean division of 256-bit values by binary long division.
pub fn u256_divmod(n: U256, d: U256) -> (r: (U256, U256))
    requires
        d.val() > 0,
    ensures
        n.val() == r.0.val() * d.val() + r.1.val(),
        0 <= r.1.val() < d.val(),
    decreases n.val() / d.val(),
{
    let p127: u128 = 0x8000_0000_0000_0000_0000_0000_0000_0000;
    proof {
        n.lemma_val_bounds();
        d.lemma_val_bounds();
    }
    if u256_lt(n, d) {
        let q = U256 { hi: 0, lo: 0 };
        proof {
            lemma_mul_by_zero_is_zero(d.val());
        }
        (q, n)
    } else if d.hi >= p127 {
        // doubling d would reach 2^256, so d <= n < 2*d and the quotient is one
        proof {
            lemma_mul_inequality(p127 as int, d.hi as int, pow128());
            assert(p127 * pow128() * 2 == pow256()) by (nonlinear_arith)
                requires
                    pow256() == pow128() * pow128(),
                    p127 * 2 == pow128(),
            {
            }
        }
        let rem = u256_sub(n, d);
        let q = U256 { hi: 0, lo: 1 };
        proof {
            lemma_mul_basics(d.val());
        }
        (q, rem)
    } else {
        let d2 = u256_double(d, false);
        proof {
            lemma_div_denominator(n.val(), d.val(), 2);
            lemma_div_is_ordered(d.val(), n.val(), d.val());
            lemma_div_by_self(d.val());
            lemma_div_decreases(n.val() / d.val(), 2);
        }
        let (q, rem) = u256_divmod(n, d2);
        proof {
            q.lemma_val_bounds();
            rem.lemma_val_bounds();
            // the quotient by 2*d leaves the top bit of q free
            assert(2 * q.val() <= q.val() * d2.val()) by (nonlinear_arith)
                requires
                    d2.val() >= 2,
                    q.val() >= 0,
            {
            }
            if q.hi >= p127 {
                lemma_mul_inequality(p127 as int, q.hi as int, pow128());
                assert(p127 * pow128() * 2 == pow256()) by (nonlinear_arith)
                    requires
                        pow256() == pow128() * pow128(),
                        p127 * 2 == pow128(),
                {
                }
                assert(false);
            }
        }
        if u256_lt(rem, d) {
            let q2 = u256_double(q, false);
            proof {
                assert(q2.val() * d.val() == q.val() * d2.val()) by (nonlinear_arith)
                    requires
                        q2.val() == 2 * q.val(),
                        d2.val() == 2 * d.val(),
                {
                }
            }
            (q2, rem)
        } else {
            let q2 = u256_double(q, true);
            let rem2 = u256_sub(rem, d);
            proof {
                assert(q2.val() * d.val() == q.val() * d2.val() + d.val()) by (nonlinear_arith)
                    requires
                        q2.val() == 2 * q.val() + 1,
                        d2.val() == 2 * d.val(),
                {
                }
            }
            (q2, rem2)
        }
    }
}

/// The `u128` value of a 256-bit quantity, where it fits.
pub fn u256_as_u128(a: U256) -> (r: Option<u128>)
    ensures
        match r {
            Some(x) => x == a.val(),
            None => a.val() >= pow128(),
        },
{
    if a.hi == 0 {
        Some(a.lo)
    } else {
        proof {
            lemma_mul_inequality(1, a.hi as int, pow128());
        }
        None
    }
}

/// 256-bit multiplication with overflow detection.
pub fn u256_checked_mul(a: U256, b: U256) -> (r: Option<U256>)
    ensures
        match r {
            Some(p) => p.val() == a.val() * b.val(),
            None => a.val() * b.val() >= pow256(),
        },
{
    proof {
        lemma_u256_product_parts(a, b);
    }
    if a.hi != 0 && b.hi != 0 {
        proof {
            assert(a.hi * b.hi * pow256() >= pow256()) by (nonlinear_arith)
                requires
                    a.hi >= 1,
                    b.hi >= 1,
                    pow256() > 0,
            {
            }
            lemma_mul_nonnegative(a.hi as int * b.lo as int + a.lo as int * b.hi as int, pow128());
            lemma_mul_nonnegative(a.lo as int, b.lo as int);
        }
        return None;
    }
    let cross = if a.hi != 0 {
        mul_wide(a.hi, b.lo)
    } else {
        mul_wide(a.lo, b.hi)
    };
    proof {
        lemma_mul_by_zero_is_zero(a.lo as int);
        lemma_mul_by_zero_is_zero(a.hi as int);
        lemma_mul_by_zero_is_zero(b.lo as int);
        lemma_mul_by_zero_is_zero(b.hi as int);
        lemma_mul_by_zero_is_zero(pow128());
        lemma_mul_by_zero_is_zero(pow256());
        assert(cross.val() == a.hi * b.lo + a.lo * b.hi);
        lemma_mul_nonnegative(a.lo as int, b.lo as int);
        cross.lemma_val_bounds();
    }
    if cross.hi != 0 {
        proof {
            lemma_mul_inequality(pow128(), cross.val(), pow128());
            lemma_mul_inequality(1, cross.hi as int, pow128());
        }
        return None;
    }
    let base = mul_wide(a.lo, b.lo);
    match base.hi.checked_add(cross.lo) {
        Some(hi) => {
            proof {
                lemma_mul_is_distributive_add_other_way(pow128(), base.hi as int, cross.lo as int);
            }
            Some(U256 { hi, lo: base.lo })
        },
        None => {
            proof {
                lemma_mul_inequality(pow128(), base.hi as int + cross.lo as int, pow128());
                lemma_mul_is_distributive_add_other_way(pow128(), base.hi as int, cross.lo as int);
            }
            None
        },
    }
}

/// Splits a 256-bit product into its four limb products.
proof fn lemma_u256_product_parts(a: U256, b: U256)
    ensures
        a.val() * b.val() == a.hi * b.hi * pow256() + (a.hi * b.lo + a.lo * b.hi) * pow128()
            + a.lo * b.lo,
{
    assert(a.val() * b.val() == a.hi * b.hi * pow256() + (a.hi * b.lo + a.lo * b.hi) * pow128()
        + a.lo * b.lo) by (nonlinear_arith)
        requires
            a.val() == a.hi * pow128() + a.lo,
            b.val() == b.hi * pow128() + b.lo,
            pow256() == pow128() * pow128(),
    {
    }
}

/// Integer square root of a 256-bit value, by binary search on `u128`.
pub fn isqrt_u256(v: U256) -> (r: u128)
    ensures
        r * r <= v.val(),
        (r + 1) * (r + 1) > v.val(),
{
    let mut lo: u128 = 0;
    let mut hi: u128 = u128::MAX;
    proof {
        v.lemma_val_bounds();
        lemma_mul_by_zero_is_zero(0);
        assert((pow128() - 1 + 1) * (pow128() - 1 + 1) == pow256()) by (nonlinear_arith)
            requires
                pow256() == pow128() * pow128(),
        {
        }
    }
    while lo < hi
        invariant
            lo <= hi,
            lo * lo <= v.val(),
            (hi + 1) * (hi + 1) > v.val(),
        decreases hi - lo,
    {
        let mid = lo + (hi - lo) / 2 + 1;
        let sq = mul_wide(mid, mid);
        if u256_le(sq, v) {
            lo = mid;
        } else {
            hi = mid - 1;
        }
    }
    lo
}

/// `a * b / c` rounded down; `None` when `c` is zero or the quotient
/// exceeds `u128`.
pub fn mul_div_floor(a: u128, b: u128, c: u128) -> (r: Option<u128>)
    ensures
        match r {
            Some(x) => c > 0 && x == a * b / (c as int),
            None => c == 0 || a * b / (c as int) >= pow128(),
        },
{
    if c == 0 {
        return None;
    }
    let prod = mul_wide(a, b);
    let (q, rem) = u256_divmod(prod, u256_from(c));
    proof {
        lemma_fundamental_div_mod_converse(prod.val(), c as int, q.val(), rem.val());
    }
    u256_as_u128(q)
}

/// `a * b / c` rounded up; `None` when `c` is zero or the result
/// exceeds `u128`.
pub fn mul_div_ceil(a: u128, b: u128, c: u128) -> (r: Option<u128>)
    ensures
        match r {
            Some(x) => c > 0 && x == (a * b + c - 1) / (c as int),
            None => c == 0 || (a * b + c - 1) / (c as int) >= pow128(),
        },
{
    if c == 0 {
        return None;
    }
    let prod = mul_wide(a, b);
    let (q, rem) = u256_divmod(prod, u256_from(c));
    proof {
        lemma_fundamental_div_mod_converse(prod.val(), c as int, q.val(), rem.val());
        lemma_mul_is_distributive_add_other_way(c as int, q.val(), 1);
        if rem.val() == 0 {
            lemma_fundamental_div_mod_converse(
                prod.val() + c - 1,
                c as int,
                q.val(),
                (c - 1) as int,
            );
        } else {
            lemma_fundamental_div_mod_converse(
                prod.val() + c - 1,
                c as int,
                q.val() + 1,
                rem.val() - 1,
            );
            prod.lemma_val_bounds();
            lemma_mul_basics(q.val());
            lemma_mul_inequality(1, c as int, q.val());
            lemma_mul_is_commutative(c as int, q.val());
        }
        q.lemma_val_bounds();
    }
    if rem.hi == 0 && rem.lo == 0 {
        u256_as_u128(q)
    } else {
        let one = U256 { hi: 0, lo: 1 };
        match u256_checked_add(q, one) {
            Some(q1) => u256_as_u128(q1),
            None => {
                proof {
                    assert(false);
                }
                None
            },
        }
    }
}

/// The floored share `amount * bp / FEE_DIVISOR` of an amount; the fee
/// rate never exceeds the divisor, so the share always fits.
pub fn fee_part(amount: u128, bp: u32) -> (r: u128)
    requires
        bp <= FEE_DIVISOR,
    ensures
        r == amount * bp / (FEE_DIVISOR as int),
        r <= amount,
{
    proof {
        lemma_mul_inequality(bp as int, FEE_DIVISOR as int, amount as int);
        lemma_mul_is_commutative(bp as int, amount as int);
        lemma_mul_is_commutative(FEE_DIVISOR as int, amount as int);
        lemma_div_is_ordered(
            amount * bp,
            amount * (FEE_DIVISOR as int),
            FEE_DIVISOR as int,
        );
        lemma_div_by_multiple(amount as int, FEE_DIVISOR as int);
        lemma_mul_is_commutative(amount as int, FEE_DIVISOR as int);
    }
    let r = mul_div_floor(amount, bp as u128, FEE_DIVISOR as u128);
    r.unwrap()
}

/// `10^e` as a mathematical integer.
pub open spec fn pow10(e: nat) -> int
    decreases e,
{
    if e == 0 {
        1
    } else {
        10 * pow10((e - 1) as nat)
    }
}

/// Powers of ten up to `10^18` (the stable-swap target precision) fit `u64`.
proof fn lemma_pow10_18()
    ensures
        pow10(18) == 1_000_000_000_000_000_000,
{
    reveal_with_fuel(pow10, 19);
    assert(pow10(18) == 1_000_000_000_000_000_000);
}

/// `10^e` for exponents up to the stable-swap target precision.
pub fn pow10_u128(e: u8) -> (r: u128)
    requires
        e <= 18,
    ensures
        r == pow10(e as nat),
{
    let mut r: u128 = 1;
    let mut i: u8 = 0;
    proof {
        lemma_pow10_18();
    }
    while i < e
        invariant
            i <= e <= 18,
            r == pow10(i as nat),
            r <= pow10(18),
        decreases e - i,
    {
        proof {
            lemma_pow10_18();
            lemma_pow10_monotone(i as nat, 18);
            lemma_pow10_monotone(i as nat + 1, 18);
        }
        r = r * 10;
        i = i + 1;
    }
    r
}

/// Powers of ten are positive.
pub proof fn lemma_pow10_pos(e: nat)
    ensures
        pow10(e) >= 1,
    decreases e,
{
    if e > 0 {
        lemma_pow10_pos((e - 1) as nat);
    }
}

/// Powers of ten grow with the exponent.
proof fn lemma_pow10_monotone(e1: nat, e2: nat)
    requires
        e1 <= e2,
    ensures
        pow10(e1) <= pow10(e2),
        pow10(e1) >= 1,
    decreases e2,
{
    if e2 > 0 {
        if e1 == e2 {
            lemma_pow10_monotone((e1 - 1) as nat, (e2 - 1) as nat);
        } else {
            lemma_pow10_monotone(e1, (e2 - 1) as nat);
        }
    }
}

/// The 64-bit schoolbook assembly of a 128x128 product is exact.
#[verifier::spinoff_prover]
proof fn lemma_mul_wide_identity(
    a: int, b: int, a1: int, a0: int, b1: int, b0: int,
    t: int, tq: int, tr: int,
    m1: int, m1q: int, m1r: int,
    m2: int, m2q: int, m2r: int,
    hi: int, lo: int,
)
    requires
        a == pow64() * a1 + a0,
        b == pow64() * b1 + b0,
        t == a0 * b0,
        t == pow64() * tq + tr,
        m1 == a1 * b0 + tq,
        m1 == pow64() * m1q + m1r,
        m2 == a0 * b1 + m1r,
        m2 == pow64() * m2q + m2r,
        lo == tr + m2r * pow64(),
        hi == a1 * b1 + m1q + m2q,
    ensures
        hi * pow128() + lo == a * b,
{
    assert(hi * pow128() + lo == a * b) by (nonlinear_arith)
        requires
            a == pow64() * a1 + a0,
            b == pow64() * b1 + b0,
            t == a0 * b0,
            t == pow64() * tq + tr,
            m1 == a1 * b0 + tq,
            m1 == pow64() * m1q + m1r,
            m2 == a0 * b1 + m1r,
            m2 == pow64() * m2q + m2r,
            lo == tr + m2r * pow64(),
            hi == a1 * b1 + m1q + m2q,
            pow128() == pow64() * pow64(),
    {
    }
}

} // verus!
