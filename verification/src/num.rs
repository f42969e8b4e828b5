//! Powers of ten and round-half-to-even division: the numeric base of the
//! exact decimal arithmetic that the money types use.

use vstd::prelude::*;
use vstd::arithmetic::div_mod::{
    lemma_fundamental_div_mod, lemma_fundamental_div_mod_converse, lemma_mod_bound,
};

verus! {

/// 10^n as a mathematical integer.
pub open spec fn pow10(n: nat) -> int
    decreases n,
{
    if n == 0 {
        1
    } else {
        10 * pow10((n - 1) as nat)
    }
}

pub proof fn lemma_pow10_pos(n: nat)
    ensures
        pow10(n) >= 1,
    decreases n,
{
    if n > 0 {
        lemma_pow10_pos((n - 1) as nat);
    }
}

pub proof fn lemma_pow10_mono(a: nat, b: nat)
    requires
        a <= b,
    ensures
        pow10(a) <= pow10(b),
    decreases b,
{
    if a < b {
        lemma_pow10_mono(a, (b - 1) as nat);
        lemma_pow10_pos((b - 1) as nat);
    }
}

pub proof fn lemma_pow10_adds(a: nat, b: nat)
    ensures
        pow10(a + b) == pow10(a) * pow10(b),
    decreases a,
{
    if a == 0 {
    } else {
        lemma_pow10_adds((a - 1) as nat, b);
        assert(pow10(a + b) == 10 * pow10((a - 1) as nat + b));
        assert(10 * (pow10((a - 1) as nat) * pow10(b)) == (10 * pow10((a - 1) as nat)) * pow10(b))
            by (nonlinear_arith);
    }
}

pub proof fn lemma_pow10_18()
    ensures
        pow10(18) == 1_000_000_000_000_000_000,
{
    reveal_with_fuel(pow10, 19);
}

/// 10^n for n up to 18, as an `i64`.
pub fn pow10_i64(n: u32) -> (r: i64)
    requires
        n <= 18,
    ensures
        r == pow10(n as nat),
{
    let mut r: i64 = 1;
    let mut i: u32 = 0;
    while i < n
        invariant
            i <= n <= 18,
            r == pow10(i as nat),
        decreases n - i,
    {
        proof {
            lemma_pow10_mono((i + 1) as nat, 18);
            lemma_pow10_18();
            lemma_pow10_pos(i as nat);
        }
        r = r * 10;
        i = i + 1;
    }
    r
}

/// The integer nearest to `a / d`, ties resolved toward the even candidate
/// (round half to even, the rounding that the splitting algorithm uses).
pub open spec fn rhe(a: int, d: int) -> int
    recommends
        d >= 1,
{
    let q = a / d;
    let r = a % d;
    if 2 * r < d {
        q
    } else if 2 * r > d {
        q + 1
    } else if q % 2 == 0 {
        q
    } else {
        q + 1
    }
}

/// Rounding moves the value by at most half of the divisor.
pub proof fn lemma_rhe_err(a: int, d: int)
    requires
        d >= 1,
    ensures
        -d <= 2 * (a - rhe(a, d) * d) <= d,
{
    lemma_fundamental_div_mod(a, d);
    lemma_mod_bound(a, d);
    let q = a / d;
    let r = a % d;
    assert(a == q * d + r) by (nonlinear_arith)
        requires a == d * q + r;
    assert((q + 1) * d == q * d + d) by (nonlinear_arith);
}

/// On an exact multiple nothing is rounded away.
pub proof fn lemma_rhe_exact(a: int, d: int)
    requires
        d >= 1,
        a % d == 0,
    ensures
        rhe(a, d) == a / d,
        rhe(a, d) * d == a,
{
    lemma_fundamental_div_mod(a, d);
    let q = a / d;
    assert(a == q * d) by (nonlinear_arith)
        requires a == d * q + a % d && a % d == 0;
}

/// Round half to even is symmetric under negation.
pub proof fn lemma_rhe_neg(a: int, d: int)
    requires
        d >= 1,
    ensures
        rhe(-a, d) == -rhe(a, d),
{
    lemma_fundamental_div_mod(a, d);
    lemma_mod_bound(a, d);
    let q = a / d;
    let r = a % d;
    assert(a == q * d + r) by (nonlinear_arith)
        requires a == d * q + r;
    if r == 0 {
        assert(-a == (-q) * d + 0) by (nonlinear_arith)
            requires a == q * d + r && r == 0;
        lemma_fundamental_div_mod_converse(-a, d, -q, 0);
        assert((-q) % 2 == 0 <==> q % 2 == 0) by (nonlinear_arith);
    } else {
        assert(-a == (-q - 1) * d + (d - r)) by (nonlinear_arith)
            requires a == q * d + r;
        lemma_fundamental_div_mod_converse(-a, d, -q - 1, d - r);
        assert((-q - 1) + 1 == -q);
        if 2 * r == d {
            assert((-q - 1) % 2 == 0 <==> q % 2 != 0) by (nonlinear_arith);
        }
    }
}

/// Round-half-to-even division of non-negative machine integers.
fn rhe_u128(a: u128, d: u128) -> (q: u128)
    requires
        d >= 1,
    ensures
        q == rhe(a as int, d as int),
        q <= a,
{
    let q0 = a / d;
    let r = a % d;
    proof {
        lemma_fundamental_div_mod(a as int, d as int);
        lemma_mod_bound(a as int, d as int);
        assert(a as int == (q0 as int) * (d as int) + r as int) by (nonlinear_arith)
            requires a as int == (d as int) * (q0 as int) + r as int;
        assert(q0 <= a) by (nonlinear_arith)
            requires
                a as int == (q0 as int) * (d as int) + r as int && d >= 1 && r >= 0
                    && q0 >= 0;
    }
    if r < d - r {
        q0
    } else {
        proof {
            assert(q0 < a) by (nonlinear_arith)
                requires
                    a as int == (q0 as int) * (d as int) + r as int && d >= 1
                        && r as int >= d as int - r as int && r < d && q0 >= 0;
        }
        if r > d - r {
            q0 + 1
        } else {
            if q0 % 2 == 0 {
                q0
            } else {
                q0 + 1
            }
        }
    }
}

/// Round-half-to-even division of an `i128` by a positive divisor.
pub fn rhe_i128(a: i128, d: i128) -> (q: i128)
    requires
        d >= 1,
        a > i128::MIN,
    ensures
        q == rhe(a as int, d as int),
        -a <= q <= a || a <= q <= -a,
{
    if a >= 0 {
        let q = rhe_u128(a as u128, d as u128);
        q as i128
    } else {
        let q = rhe_u128((-a) as u128, d as u128);
        proof {
            lemma_rhe_neg((-a) as int, d as int);
        }
        -(q as i128)
    }
}

/// The sum of a sequence of integers.
pub open spec fn seq_sum(s: Seq<int>) -> int
    decreases s.len(),
{
    if s.len() == 0 {
        0
    } else {
        seq_sum(s.drop_last()) + s.last()
    }
}

/// Summing after prepending one value adds that value.
pub proof fn lemma_seq_sum_cons(x: int, t: Seq<int>)
    ensures
        seq_sum(seq![x] + t) == x + seq_sum(t),
    decreases t.len(),
{
    if t.len() == 0 {
        let s1 = seq![x] + t;
        assert(s1 =~= seq![x]);
        assert(s1.len() == 1);
        assert(s1.drop_last() =~= Seq::<int>::empty());
        assert(s1.last() == x);
        assert(seq_sum(s1) == seq_sum(s1.drop_last()) + s1.last());
        assert(seq_sum(Seq::<int>::empty()) == 0);
    } else {
        lemma_seq_sum_cons(x, t.drop_last());
        assert((seq![x] + t).drop_last() =~= seq![x] + t.drop_last());
        assert((seq![x] + t).last() == t.last());
    }
}

/// The sign of an integer, as -1, 0 or 1.
pub open spec fn sgn(a: int) -> int {
    if a > 0 {
        1
    } else if a < 0 {
        -1
    } else {
        0
    }
}

} // verus!
