//! Exact money amounts. A `Money` value is an integer count of sub-units,
//! `UNIT_SCALE` of which make one currency unit. The scale is
//! `10^4 * lcm(1..=31)`, so an amount given with at most four decimal places
//! divides exactly by every party count the engine can meet (a split among
//! up to 30 named parties, or 30 parties plus the owner).

use vstd::prelude::*;

verus! {

/// lcm(1..=31): every integer in 1..=31 divides this.
pub const SHARE_LCM: i128 = 72_201_776_446_800;

/// Sub-units per currency unit: 10^4 * SHARE_LCM.
pub const UNIT_SCALE: i128 = 722_017_764_468_000_000;

/// Magnitude cap for a single loaded amount: ten million currency units.
pub const AMOUNT_LIMIT: i128 = 7_220_177_644_680_000_000_000_000;

/// An exact amount of money: `units / UNIT_SCALE` currency units.
#[derive(Clone, Copy, Debug, PartialEq, Eq, Structural)]
pub struct Money {
    pub units: i128,
}

/// An amount as the loader admits it: capped in magnitude and a whole
/// multiple of 1/10^4 of a currency unit, so that every engine split of it
/// is exact.
pub open spec fn is_amount(m: Money) -> bool {
    &&& -AMOUNT_LIMIT <= m.units <= AMOUNT_LIMIT
    &&& m.units % SHARE_LCM == 0
}

pub open spec fn pow10(k: nat) -> int
    decreases k,
{
    if k == 0 {
        1
    } else {
        10 * pow10((k - 1) as nat)
    }
}

pub fn pow10_exec(k: u32) -> (p: i128)
    requires
        k <= 4,
    ensures
        p == pow10(k as nat),
        1 <= p <= 10000,
{
    proof {
        reveal_with_fuel(pow10, 5);
    }
    if k == 0 {
        1
    } else if k == 1 {
        10
    } else if k == 2 {
        100
    } else if k == 3 {
        1000
    } else {
        10000
    }
}

impl Money {
    /// The amount `mantissa / 10^decimals` currency units, e.g.
    /// `from_decimal(381, 2)` for 3.81.
    pub fn from_decimal(mantissa: i64, decimals: u32) -> (r: Money)
        requires
            decimals <= 4,
            -10_000_000 * pow10(decimals as nat) <= mantissa <= 10_000_000 * pow10(decimals as nat),
        ensures
            r.units == mantissa * pow10((4 - decimals) as nat) * SHARE_LCM,
            is_amount(r),
    {
        let p = pow10_exec(4 - decimals);
        proof {
            lemma_amount_bound(mantissa as int, decimals as nat);
            vstd::arithmetic::div_mod::lemma_mod_multiples_basic(
                mantissa as int * pow10((4 - decimals) as nat),
                SHARE_LCM as int,
            );
        }
        let units: i128 = (mantissa as i128) * p * SHARE_LCM;
        Money { units }
    }
}

proof fn lemma_pow10_split(k: nat)
    requires
        k <= 4,
    ensures
        pow10(k) * pow10((4 - k) as nat) == 10000,
{
    reveal_with_fuel(pow10, 5);
    assert(pow10(0) == 1 && pow10(1) == 10 && pow10(2) == 100 && pow10(3) == 1000 && pow10(4)
        == 10000);
    if k == 0 {
        assert(pow10(k) * pow10((4 - k) as nat) == 1 * pow10(4));
    } else if k == 1 {
        assert(pow10(k) * pow10((4 - k) as nat) == 10 * pow10(3));
    } else if k == 2 {
        assert(pow10(k) * pow10((4 - k) as nat) == 100 * pow10(2));
    } else if k == 3 {
        assert(pow10(k) * pow10((4 - k) as nat) == 1000 * pow10(1));
    } else {
        assert(pow10(k) * pow10((4 - k) as nat) == 10000 * pow10(0));
    }
}

proof fn lemma_amount_bound(mantissa: int, decimals: nat)
    requires
        decimals <= 4,
        -10_000_000 * pow10(decimals) <= mantissa <= 10_000_000 * pow10(decimals),
    ensures
        -100_000_000_000 <= mantissa * pow10((4 - decimals) as nat) <= 100_000_000_000,
        -AMOUNT_LIMIT <= mantissa * pow10((4 - decimals) as nat) * SHARE_LCM <= AMOUNT_LIMIT,
{
    reveal_with_fuel(pow10, 5);
    let q = pow10((4 - decimals) as nat);
    lemma_pow10_split(decimals);
    assert(pow10(decimals) * q == 10000);
    assert(1 <= q <= 10000);
    assert(mantissa * q <= 10_000_000 * pow10(decimals) * q) by (nonlinear_arith)
        requires
            mantissa <= 10_000_000 * pow10(decimals),
            q >= 1,
    ;
    assert(-(10_000_000 * pow10(decimals) * q) <= mantissa * q) by (nonlinear_arith)
        requires
            -10_000_000 * pow10(decimals) <= mantissa,
            q >= 1,
    ;
    assert(10_000_000 * pow10(decimals) * q == 10_000_000 * (pow10(decimals) * q))
        by (nonlinear_arith);
    assert(10_000_000 * (pow10(decimals) * q) == 100_000_000_000) by {
        assert(pow10(decimals) * q == 10000);
    }
    assert(-100_000_000_000 <= mantissa * q <= 100_000_000_000);
    assert(mantissa * q * SHARE_LCM <= AMOUNT_LIMIT && -AMOUNT_LIMIT <= mantissa * q * SHARE_LCM)
        by (nonlinear_arith)
        requires
            -100_000_000_000 <= mantissa * q <= 100_000_000_000,
    ;
}

/// Exact division of an amount's units by a small party count. The loader's
/// cap on decimals makes every admitted amount a multiple of `SHARE_LCM`,
/// so the division leaves no remainder.
pub fn split_units(units: i128, k: u64) -> (r: i128)
    requires
        1 <= k <= 31,
        units % SHARE_LCM == 0,
        -AMOUNT_LIMIT <= units <= AMOUNT_LIMIT,
    ensures
        r as int == units as int / k as int,
        r as int * k as int == units as int,
        -AMOUNT_LIMIT <= r <= AMOUNT_LIMIT,
{
    proof {
        lemma_share_lcm_divides(k as int);
        lemma_divides_transitive(k as int, SHARE_LCM as int, units as int);
        vstd::arithmetic::div_mod::lemma_fundamental_div_mod(units as int, k as int);
        assert(k as int * (units as int / k as int) == units as int);
        assert((units as int / k as int) * (k as int) == units as int) by (nonlinear_arith)
            requires
                k as int * (units as int / k as int) == units as int,
        ;
        assert(-AMOUNT_LIMIT <= units as int / k as int <= AMOUNT_LIMIT) by (nonlinear_arith)
            requires
                (units as int / k as int) * (k as int) == units as int,
                1 <= k <= 31,
                -AMOUNT_LIMIT as int <= units as int <= AMOUNT_LIMIT as int,
        ;
    }
    let kk = k as i128;
    if units >= 0 {
        units / kk
    } else {
        let m = -units;
        let q0 = m / kk;
        proof {
            let uq = units as int / k as int;
            assert(m as int == k as int * (-uq)) by (nonlinear_arith)
                requires
                    units as int == k as int * uq,
                    m as int == -(units as int),
            ;
            vstd::arithmetic::div_mod::lemma_div_multiples_vanish(-uq, k as int);
            assert(m as int / k as int == -uq);
        }
        -q0
    }
}

/// Every party count the engine can meet divides SHARE_LCM.
proof fn lemma_share_lcm_divides(k: int)
    requires
        1 <= k <= 31,
    ensures
        SHARE_LCM as int % k == 0,
{
    if k == 1 {
        assert(SHARE_LCM % 1 == 0);
    } else if k == 2 {
        assert(SHARE_LCM % 2 == 0);
    } else if k == 3 {
        assert(SHARE_LCM % 3 == 0);
    } else if k == 4 {
        assert(SHARE_LCM % 4 == 0);
    } else if k == 5 {
        assert(SHARE_LCM % 5 == 0);
    } else if k == 6 {
        assert(SHARE_LCM % 6 == 0);
    } else if k == 7 {
        assert(SHARE_LCM % 7 == 0);
    } else if k == 8 {
        assert(SHARE_LCM % 8 == 0);
    } else if k == 9 {
        assert(SHARE_LCM % 9 == 0);
    } else if k == 10 {
        assert(SHARE_LCM % 10 == 0);
    } else if k == 11 {
        assert(SHARE_LCM % 11 == 0);
    } else if k == 12 {
        assert(SHARE_LCM % 12 == 0);
    } else if k == 13 {
        assert(SHARE_LCM % 13 == 0);
    } else if k == 14 {
        assert(SHARE_LCM % 14 == 0);
    } else if k == 15 {
        assert(SHARE_LCM % 15 == 0);
    } else if k == 16 {
        assert(SHARE_LCM % 16 == 0);
    } else if k == 17 {
        assert(SHARE_LCM % 17 == 0);
    } else if k == 18 {
        assert(SHARE_LCM % 18 == 0);
    } else if k == 19 {
        assert(SHARE_LCM % 19 == 0);
    } else if k == 20 {
        assert(SHARE_LCM % 20 == 0);
    } else if k == 21 {
        assert(SHARE_LCM % 21 == 0);
    } else if k == 22 {
        assert(SHARE_LCM % 22 == 0);
    } else if k == 23 {
        assert(SHARE_LCM % 23 == 0);
    } else if k == 24 {
        assert(SHARE_LCM % 24 == 0);
    } else if k == 25 {
        assert(SHARE_LCM % 25 == 0);
    } else if k == 26 {
        assert(SHARE_LCM % 26 == 0);
    } else if k == 27 {
        assert(SHARE_LCM % 27 == 0);
    } else if k == 28 {
        assert(SHARE_LCM % 28 == 0);
    } else if k == 29 {
        assert(SHARE_LCM % 29 == 0);
    } else if k == 30 {
        assert(SHARE_LCM % 30 == 0);
    } else {
        assert(SHARE_LCM % 31 == 0);
    }
}

/// Dividing a multiple of `SHARE_LCM` by any count up to 31 leaves no
/// remainder.
pub proof fn lemma_exact_division(u: int, d: int)
    requires
        1 <= d <= 31,
        u % (SHARE_LCM as int) == 0,
    ensures
        (u / d) * d == u,
{
    lemma_share_lcm_divides(d);
    lemma_divides_transitive(d, SHARE_LCM as int, u);
    vstd::arithmetic::div_mod::lemma_fundamental_div_mod(u, d);
    assert((u / d) * d == d * (u / d)) by (nonlinear_arith);
}

/// Whether `m` is an amount the loader would admit.
pub fn check_amount(m: &Money) -> (b: bool)
    ensures
        b == is_amount(*m),
{
    if m.units < -AMOUNT_LIMIT || m.units > AMOUNT_LIMIT {
        return false;
    }
    let magnitude = if m.units >= 0 {
        m.units
    } else {
        -m.units
    };
    proof {
        lemma_neg_mod(m.units as int, SHARE_LCM as int);
    }
    magnitude % SHARE_LCM == 0
}

/// Negating a value does not change whether a positive divisor divides it.
proof fn lemma_neg_mod(u: int, l: int)
    requires
        l > 0,
    ensures
        (u % l == 0) == ((-u) % l == 0),
{
    vstd::arithmetic::div_mod::lemma_fundamental_div_mod(u, l);
    vstd::arithmetic::div_mod::lemma_fundamental_div_mod(-u, l);
    if u % l == 0 {
        let q = u / l;
        assert(-u == (-q) * l) by (nonlinear_arith)
            requires
                u == l * q,
        ;
        vstd::arithmetic::div_mod::lemma_mod_multiples_basic(-q, l);
    } else if (-u) % l == 0 {
        let q = (-u) / l;
        assert(u == (-q) * l) by (nonlinear_arith)
            requires
                -u == l * q,
        ;
        vstd::arithmetic::div_mod::lemma_mod_multiples_basic(-q, l);
    }
}

proof fn lemma_divides_transitive(a: int, b: int, c: int)
    requires
        1 <= a,
        b % a == 0,
        c % b == 0,
        b != 0,
    ensures
        c % a == 0,
{
    let p = b / a;
    let q = c / b;
    vstd::arithmetic::div_mod::lemma_fundamental_div_mod(b, a);
    vstd::arithmetic::div_mod::lemma_fundamental_div_mod(c, b);
    assert(b == a * p);
    assert(c == b * q);
    assert(c == a * (p * q)) by (nonlinear_arith)
        requires
            b == a * p,
            c == b * q,
    ;
    vstd::arithmetic::div_mod::lemma_mod_multiples_basic(p * q, a);
    assert((a * (p * q)) % a == ((p * q) * a) % a) by (nonlinear_arith);
}

} // verus!
