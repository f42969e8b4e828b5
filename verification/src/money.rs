//! Exact currency-tagged amounts.
//!
//! An amount is a mantissa at a fixed scale of [`SCALE`] decimal places, so
//! every value the engine handles is an exact decimal.  Splitting an amount
//! into shares rounds half to even and distributes the remainder one unit at
//! a time, so that the shares sum exactly to the whole.

use vstd::prelude::*;
use vstd::math::abs;
use vstd::arithmetic::div_mod::{
    lemma_fundamental_div_mod, lemma_fundamental_div_mod_converse, lemma_mod_bound,
    lemma_mod_multiples_vanish,
};

use crate::currency::Currency;
use crate::num::{lemma_pow10_18, lemma_pow10_mono, lemma_pow10_pos, lemma_rhe_err, pow10,
    pow10_i64, rhe, rhe_i128, seq_sum, sgn};

verus! {

/// Number of decimal places every mantissa carries.
pub const SCALE: u32 = 12;

/// Largest mantissa an amount may hold (a million whole units at [`SCALE`]
/// decimal places); keeps every sum a machine word can meet inside `i128`.
pub const AMOUNT_MAX: i64 = 1_000_000_000_000_000_000;

/// A mantissa the engine accepts.
pub open spec fn amount_ok(a: int) -> bool {
    -(AMOUNT_MAX as int) <= a <= AMOUNT_MAX as int
}

/// An exact decimal amount in one currency.
#[derive(Clone, Copy, PartialEq, Eq, Structural, Debug)]
pub struct Money {
    amount: i64,
    currency: Currency,
}

impl Money {
    /// The mantissa: the amount times 10^[`SCALE`].
    pub closed spec fn amount_spec(self) -> int {
        self.amount as int
    }

    pub closed spec fn currency_spec(self) -> Currency {
        self.currency
    }

    pub open spec fn wf(self) -> bool {
        amount_ok(self.amount_spec())
    }

    pub fn new(amount: i64, currency: Currency) -> (m: Money)
        requires
            amount_ok(amount as int),
        ensures
            m.amount_spec() == amount,
            m.currency_spec() == currency,
    {
        Money { amount, currency }
    }

    pub fn zero(currency: Currency) -> (m: Money)
        ensures
            m.amount_spec() == 0,
            m.currency_spec() == currency,
    {
        Money { amount: 0, currency }
    }

    pub fn amount(&self) -> (a: i64)
        ensures
            a == self.amount_spec(),
    {
        self.amount
    }

    pub fn currency(&self) -> (c: Currency)
        ensures
            c == self.currency_spec(),
    {
        self.currency
    }

    /// Do the two amounts share a currency?  Arithmetic demands they do.
    pub fn eq_currency(&self, other: &Money) -> (r: bool)
        ensures
            r == (self.currency_spec() == other.currency_spec()),
    {
        self.currency == other.currency
    }

    pub fn neg(self) -> (m: Money)
        requires
            self.wf(),
        ensures
            m.amount_spec() == -self.amount_spec(),
            m.currency_spec() == self.currency_spec(),
            m.wf(),
    {
        Money { amount: -self.amount, currency: self.currency }
    }

    /// Adds an amount of the same currency in place.
    pub fn add_assign(&mut self, rhs: Money)
        requires
            old(self).currency_spec() == rhs.currency_spec(),
            amount_ok(old(self).amount_spec() + rhs.amount_spec()),
        ensures
            final(self).amount_spec() == old(self).amount_spec() + rhs.amount_spec(),
            final(self).currency_spec() == old(self).currency_spec(),
            final(self).wf(),
    {
        self.amount = self.amount + rhs.amount;
    }

    /// Splits the amount into `n` shares at `dp` decimal places: each share
    /// is the round-half-even quotient, and the rounding remainder is spread
    /// one `10^-dp` unit at a time over the leading shares.
    pub fn split(&self, n: usize, dp: u32) -> (r: Vec<Money>)
        requires
            1 <= n,
            dp <= SCALE,
            self.wf(),
        ensures
            r@.len() == n,
            forall|i: int|
                0 <= i < n ==> (#[trigger] r@[i]).currency_spec() == self.currency_spec(),
            forall|i: int|
                0 <= i < n ==> (#[trigger] r@[i]).amount_spec() == split_shares(
                    self.amount_spec(),
                    n as nat,
                    dp as nat,
                )[i],
            self.amount_spec() % split_unit(dp as nat) == 0 ==> forall|i: int|
                0 <= i < n ==> (#[trigger] r@[i]).wf(),
    {
        let ghost mi = self.amount as int;
        let ghost nn = n as nat;
        let ghost dpn = dp as nat;
        proof {
            lemma_split_parts(mi, nn, dpn);
            if mi % split_unit(dpn) == 0 {
                lemma_split_wf(mi, nn, dpn);
            }
        }
        let unit: i64 = pow10_i64(SCALE - dp);
        let u: i128 = unit as i128;
        proof {
            lemma_pow10_pos((SCALE - dp) as nat);
            lemma_pow10_mono((SCALE - dp) as nat, 12);
            lemma_pow10_val_12();
            assert(1 <= u as int <= 1_000_000_000_000);
            assert((n as int) * (u as int) <= 0xFFFF_FFFF_FFFF_FFFF * 1_000_000_000_000
                && (n as int) * (u as int) >= 1) by (nonlinear_arith)
                requires
                    1 <= n as int <= 0xFFFF_FFFF_FFFF_FFFF && 1 <= u as int
                        <= 1_000_000_000_000;
        }
        let d: i128 = (n as i128) * u;
        let q: i128 = rhe_i128(self.amount as i128, d);
        proof {
            assert(-1_000_000_000_000_000_000 <= q as int <= 1_000_000_000_000_000_000);
            assert(-1_000_000_000_000_000_000_000_000_000_000 <= (q as int) * (u as int)
                <= 1_000_000_000_000_000_000_000_000_000_000) by (nonlinear_arith)
                requires
                    -1_000_000_000_000_000_000 <= q as int <= 1_000_000_000_000_000_000 && 1
                        <= u as int <= 1_000_000_000_000;
        }
        let base: i128 = q * u;
        proof {
            assert(base as int == split_base(mi, nn, dpn));
            assert(-(abs(mi) + u as int) <= base as int <= abs(mi) + u as int);
            assert(abs(mi) <= 1_000_000_000_000_000_000);
            assert((base as int) * (n as int)
                <= 1_000_001_000_000_000_000 * 0xFFFF_FFFF_FFFF_FFFF && (base as int) * (
            n as int) >= -(1_000_001_000_000_000_000 * 0xFFFF_FFFF_FFFF_FFFF))
                by (nonlinear_arith)
                requires
                    -1_000_001_000_000_000_000 <= base as int <= 1_000_001_000_000_000_000 && 1
                        <= n as int <= 0xFFFF_FFFF_FFFF_FFFF;
        }
        let rem: i128 = (self.amount as i128) - base * (n as i128);
        proof {
            assert(rem as int == split_rem(mi, nn, dpn));
        }
        let rem_abs: u128 = if rem >= 0 {
            rem as u128
        } else {
            (-rem) as u128
        };
        let half: u128 = (u as u128) / 2;
        let k128: u128 = (rem_abs + half) / (u as u128);
        proof {
            assert(rem_abs as int == abs(rem as int));
            assert(k128 as int == split_k(mi, nn, dpn));
            assert(k128 as int <= n as int);
        }
        let k: usize = k128 as usize;
        let s_unit: i128 = if rem > 0 {
            u
        } else if rem < 0 {
            -u
        } else {
            0
        };
        proof {
            let sr = split_rem(mi, nn, dpn);
            if rem > 0 {
                assert(sgn(sr) == 1);
                assert(1 * split_unit(dpn) == split_unit(dpn));
            } else if rem < 0 {
                assert(sgn(sr) == -1);
                assert((-1) * split_unit(dpn) == -split_unit(dpn));
            } else {
                assert(sgn(sr) == 0);
                assert(0 * split_unit(dpn) == 0);
            }
            assert(s_unit as int == sgn(sr) * split_unit(dpn));
        }
        let hi: i128 = base + s_unit;
        let mut r: Vec<Money> = Vec::new();
        let mut i: usize = 0;
        while i < n
            invariant
                r@.len() == i,
                0 <= i <= n,
                forall|j: int| 0 <= j < i ==> (#[trigger] r@[j]).currency == self.currency,
                forall|j: int|
                    0 <= j < i ==> (#[trigger] r@[j]).amount as int == split_amount(
                        mi,
                        nn,
                        dpn,
                        j,
                    ),
            decreases n - i,
        {
            let a: i128 = if i < k {
                hi
            } else {
                base
            };
            proof {
                assert(a as int == split_amount(mi, nn, dpn, i as int));
            }
            r.push(Money { amount: a as i64, currency: self.currency });
            i = i + 1;
        }
        r
    }
}

proof fn lemma_pow10_val_12()
    ensures
        pow10(12) == 1_000_000_000_000,
{
    reveal_with_fuel(pow10, 13);
}

/// The value of one rounding unit at `dp` decimal places, as a mantissa.
pub open spec fn split_unit(dp: nat) -> int
    recommends
        dp <= SCALE,
{
    pow10((SCALE - dp) as nat)
}

/// The rounded per-share mantissa.
pub open spec fn split_base(m: int, n: nat, dp: nat) -> int {
    rhe(m, n as int * split_unit(dp)) * split_unit(dp)
}

/// What rounding left over of the whole amount.
pub open spec fn split_rem(m: int, n: nat, dp: nat) -> int {
    m - split_base(m, n, dp) * n
}

/// How many leading shares take one extra unit.
pub open spec fn split_k(m: int, n: nat, dp: nat) -> int {
    (abs(split_rem(m, n, dp)) + split_unit(dp) / 2) / split_unit(dp)
}

/// The `i`-th share of the split.
pub open spec fn split_amount(m: int, n: nat, dp: nat, i: int) -> int {
    if i < split_k(m, n, dp) {
        split_base(m, n, dp) + sgn(split_rem(m, n, dp)) * split_unit(dp)
    } else {
        split_base(m, n, dp)
    }
}

/// All `n` shares of the split, in order.
pub open spec fn split_shares(m: int, n: nat, dp: nat) -> Seq<int> {
    Seq::new(n, |i: int| split_amount(m, n, dp, i))
}

/// Structural facts about a split: the base share stays within one unit of
/// the whole amount, the remainder is at most half a unit per share, and at
/// most `n` shares take an extra unit.
pub proof fn lemma_split_parts(m: int, n: nat, dp: nat)
    requires
        n >= 1,
        dp <= SCALE,
    ensures
        split_unit(dp) >= 1,
        -(abs(m) + split_unit(dp)) <= split_base(m, n, dp) <= abs(m) + split_unit(dp),
        2 * abs(split_rem(m, n, dp)) <= n as int * split_unit(dp),
        0 <= split_k(m, n, dp) <= n,
        split_base(m, n, dp) * n + split_rem(m, n, dp) == m,
{
    let u = split_unit(dp);
    lemma_pow10_pos((SCALE - dp) as nat);
    let d = n as int * u;
    assert(d >= u && d >= n) by (nonlinear_arith)
        requires d == n as int * u && n >= 1 && u >= 1;
    let q = rhe(m, d);
    lemma_rhe_err(m, d);
    let base = split_base(m, n, dp);
    assert(base * n == q * d) by (nonlinear_arith)
        requires base == q * u && d == n as int * u;
    let rem = split_rem(m, n, dp);
    assert(2 * abs(rem) <= d);
    assert(2 * (base * n) <= 2 * m + d && 2 * m - d <= 2 * (base * n));
    assert(base <= abs(m) + u) by (nonlinear_arith)
        requires
            2 * (base * (n as int)) <= 2 * abs(m) + (n as int) * u && n >= 1 && u >= 1 && abs(
                m,
            ) >= 0;
    assert(-(abs(m) + u) <= base) by (nonlinear_arith)
        requires
            -2 * abs(m) - (n as int) * u <= 2 * (base * (n as int)) && n >= 1 && u >= 1 && abs(
                m,
            ) >= 0;
    let num = abs(rem) + u / 2;
    let k = num / u;
    lemma_fundamental_div_mod(num, u);
    lemma_mod_bound(num, u);
    assert(num == u * k + num % u);
    assert(k >= 0) by (nonlinear_arith)
        requires num == u * k + num % u && num >= 0 && 0 <= num % u < u && u >= 1;
    assert(2 * (u * k) <= 2 * num);
    assert(2 * num <= d + u) by {
        assert(2 * (u / 2) <= u) by {
            lemma_fundamental_div_mod(u, 2);
            lemma_mod_bound(u, 2);
        }
    }
    assert(k <= n) by (nonlinear_arith)
        requires
            2 * (u * k) <= (n as int) * u + u && u >= 1 && k >= 0 && n >= 1;
}

/// When the unit divides the amount it also divides the remainder.
pub proof fn lemma_split_rem_divisible(m: int, n: nat, dp: nat)
    requires
        n >= 1,
        dp <= SCALE,
        m % split_unit(dp) == 0,
    ensures
        split_rem(m, n, dp) % split_unit(dp) == 0,
{
    let u = split_unit(dp);
    lemma_pow10_pos((SCALE - dp) as nat);
    let q = rhe(m, n as int * u);
    let rem = split_rem(m, n, dp);
    assert(rem == u * (-(q * (n as int))) + m) by (nonlinear_arith)
        requires rem == m - (q * u) * (n as int);
    lemma_mod_multiples_vanish(-(q * (n as int)), m, u);
}

/// With the amount a multiple of the unit, every share keeps a mantissa the
/// engine accepts.
pub proof fn lemma_split_wf(m: int, n: nat, dp: nat)
    requires
        n >= 1,
        dp <= SCALE,
        m % split_unit(dp) == 0,
        amount_ok(m),
    ensures
        forall|i: int| amount_ok(#[trigger] split_amount(m, n, dp, i)),
{
    lemma_split_parts(m, n, dp);
    lemma_split_rem_divisible(m, n, dp);
    let u = split_unit(dp);
    let base = split_base(m, n, dp);
    let rem = split_rem(m, n, dp);
    assert(4 * u <= AMOUNT_MAX as int) by {
        lemma_pow10_mono((SCALE - dp) as nat, 12);
        lemma_pow10_val_12();
        lemma_pow10_18();
    }
    if n == 1 {
        assert((n as int) * u == u) by (nonlinear_arith)
            requires n as int == 1;
        assert(2 * abs(rem) <= u);
        assert(rem == 0) by {
            lemma_fundamental_div_mod(rem, u);
            let t = rem / u;
            assert(rem == u * t);
            if rem != 0 {
                if t >= 1 {
                    assert(rem >= u) by (nonlinear_arith)
                        requires rem == u * t && t >= 1 && u >= 1;
                } else {
                    assert(rem <= -u) by (nonlinear_arith)
                        requires rem == u * t && t <= 0 && u >= 1 && rem != 0;
                }
            }
        }
        assert(split_k(m, n, dp) == 0) by {
            lemma_fundamental_div_mod(u, 2);
            lemma_mod_bound(u, 2);
            lemma_fundamental_div_mod_converse(u / 2, u, 0, u / 2);
        }
        assert(base == m) by (nonlinear_arith)
            requires base * (n as int) + rem == m && rem == 0 && n as int == 1;
        assert(forall|i: int| split_amount(m, n, dp, i) == base);
    } else {
        assert(2 * (base * (n as int)) <= 2 * m + (n as int) * u && 2 * m - (n as int) * u <= 2
            * (base * (n as int)));
        let cap = AMOUNT_MAX as int;
        assert(2 * base <= cap + u) by (nonlinear_arith)
            requires
                2 * (base * (n as int)) <= 2 * m + (n as int) * u && n >= 2 && u >= 1 && m
                    <= cap && cap >= 0;
        assert(-(cap + u) <= 2 * base) by (nonlinear_arith)
            requires
                2 * m - (n as int) * u <= 2 * (base * (n as int)) && n >= 2 && u >= 1 && -cap
                    <= m && cap >= 0;
        assert forall|i: int| amount_ok(#[trigger] split_amount(m, n, dp, i)) by {
            assert(-u <= sgn(rem) * u <= u) by (nonlinear_arith)
                requires u >= 1 && (sgn(rem) == -1 || sgn(rem) == 0 || sgn(rem) == 1);
        }
    }
}

/// Split exactness: when the unit divides the amount the shares sum exactly
/// to it, and any two shares differ by at most one unit.
pub proof fn lemma_split_exact(m: int, n: nat, dp: nat)
    requires
        n >= 1,
        dp <= SCALE,
        m % split_unit(dp) == 0,
    ensures
        seq_sum(split_shares(m, n, dp)) == m,
        forall|i: int, j: int|
            0 <= i < n && 0 <= j < n ==> -split_unit(dp) <= #[trigger] split_shares(m, n, dp)[i]
                - #[trigger] split_shares(m, n, dp)[j] <= split_unit(dp),
{
    lemma_split_parts(m, n, dp);
    lemma_split_rem_divisible(m, n, dp);
    let u = split_unit(dp);
    let base = split_base(m, n, dp);
    let rem = split_rem(m, n, dp);
    let k = split_k(m, n, dp);
    lemma_fundamental_div_mod(rem, u);
    let t = rem / u;
    assert(rem == u * t);
    let ta = if rem >= 0 {
        t
    } else {
        -t
    };
    assert(abs(rem) == u * ta) by (nonlinear_arith)
        requires
            rem == u * t && ta == (if rem >= 0 { t } else { -t });
    assert(ta >= 0) by (nonlinear_arith)
        requires abs(rem) == u * ta && u >= 1 && abs(rem) >= 0;
    assert(0 <= u / 2 < u) by {
        lemma_fundamental_div_mod(u, 2);
        lemma_mod_bound(u, 2);
    }
    assert(ta * u + u / 2 == abs(rem) + u / 2) by (nonlinear_arith)
        requires abs(rem) == u * ta;
    lemma_fundamental_div_mod_converse(abs(rem) + u / 2, u, ta, u / 2);
    assert(k == ta);
    assert(sgn(rem) * (k * u) == rem) by (nonlinear_arith)
        requires abs(rem) == u * k;
    lemma_split_sum_prefix(m, n, dp, n as int);
    assert(split_shares(m, n, dp).take(n as int) =~= split_shares(m, n, dp));
    assert(seq_sum(split_shares(m, n, dp)) == (n as int) * base + k * (sgn(rem) * u));
    assert((n as int) * base + k * (sgn(rem) * u) == base * (n as int) + sgn(rem) * (k * u))
        by (nonlinear_arith);
    assert forall|i: int, j: int|
        0 <= i < n && 0 <= j < n implies -u <= #[trigger] split_shares(m, n, dp)[i]
        - #[trigger] split_shares(m, n, dp)[j] <= u by {
        assert(-u <= sgn(rem) * u <= u) by (nonlinear_arith)
            requires u >= 1 && (sgn(rem) == -1 || sgn(rem) == 0 || sgn(rem) == 1);
    }
}

/// The sum of the first `c` shares: `c` bases plus one signed unit for each
/// of the leading `min(c, k)` shares.
proof fn lemma_split_sum_prefix(m: int, n: nat, dp: nat, c: int)
    requires
        n >= 1,
        dp <= SCALE,
        0 <= c <= n,
    ensures
        seq_sum(split_shares(m, n, dp).take(c)) == c * split_base(m, n, dp) + (if c <= split_k(
            m,
            n,
            dp,
        ) {
            c
        } else {
            split_k(m, n, dp)
        }) * (sgn(split_rem(m, n, dp)) * split_unit(dp)),
    decreases c,
{
    lemma_split_parts(m, n, dp);
    let shares = split_shares(m, n, dp);
    let base = split_base(m, n, dp);
    let su = sgn(split_rem(m, n, dp)) * split_unit(dp);
    let k = split_k(m, n, dp);
    if c == 0 {
        assert(shares.take(0) =~= Seq::<int>::empty());
    } else {
        lemma_split_sum_prefix(m, n, dp, c - 1);
        assert(shares.take(c).drop_last() =~= shares.take(c - 1));
        assert(shares.take(c).last() == split_amount(m, n, dp, c - 1));
        let prev = if c - 1 <= k {
            c - 1
        } else {
            k
        };
        let cur = if c <= k {
            c
        } else {
            k
        };
        assert(c * base == (c - 1) * base + base) by (nonlinear_arith);
        if c - 1 < k {
            assert(split_amount(m, n, dp, c - 1) == base + su);
            assert(cur * su == prev * su + su) by (nonlinear_arith)
                requires cur == prev + 1;
        } else {
            assert(split_amount(m, n, dp, c - 1) == base);
            assert(cur == prev);
        }
    }
}

} // verus!
