//! The bill-splitting front end's verified core: the `split` command's
//! little grammar, and the builder that turns one amount into a balanced
//! transaction of equal shares.

use vstd::prelude::*;
use vstd::math::abs;
use vstd::string::StringExecFns;
use vstd::string::StrSliceExecFns;

use crate::accn::Accn;
use crate::date::Date;
use crate::journal::{pair_moneys, Journal, LedgerError, PostingRec, Txn, TxnBuilder};
use crate::money::{
    amount_ok, lemma_split_exact, lemma_split_wf, split_shares, split_unit, Money, AMOUNT_MAX,
    SCALE,
};
use crate::num::{lemma_pow10_pos, pow10_i64, seq_sum};
use crate::text::str_eq;
use crate::valuable::{is_zero_map, msum};

verus! {

/// The first position at or after `k` that ends a word (a blank or comma).
pub open spec fn word_stop(s: Seq<char>, k: int) -> int
    decreases s.len() - k,
{
    if k < 0 || k >= s.len() {
        s.len() as int
    } else if s[k] == ' ' || s[k] == ',' {
        k
    } else {
        word_stop(s, k + 1)
    }
}

proof fn lemma_word_stop_lower(s: Seq<char>, k: int)
    requires
        0 <= k <= s.len(),
    ensures
        k <= word_stop(s, k) <= s.len(),
    decreases s.len() - k,
{
    if k < s.len() && !(s[k] == ' ' || s[k] == ',') {
        lemma_word_stop_lower(s, k + 1);
    }
}

#[via_fn]
proof fn tokens_from_dec(s: Seq<char>, k: int) {
    if !(k < 0 || k >= s.len()) && s[k] != ' ' && s[k] != ',' {
        lemma_word_stop_lower(s, k + 1);
    }
}

/// The command line's tokens from position `k` on: blanks separate, and a
/// comma is a token of its own.
pub open spec fn tokens_from(s: Seq<char>, k: int) -> Seq<Seq<char>>
    decreases s.len() - k,
    via tokens_from_dec
{
    if k < 0 || k >= s.len() {
        Seq::empty()
    } else if s[k] == ' ' {
        tokens_from(s, k + 1)
    } else if s[k] == ',' {
        seq![seq![',']] + tokens_from(s, k + 1)
    } else {
        seq![s.subrange(k, word_stop(s, k))] + tokens_from(s, word_stop(s, k))
    }
}

/// The first token at or after `k` equal to `w`.
pub open spec fn find_tok(toks: Seq<Seq<char>>, w: Seq<char>, k: int) -> Option<int>
    decreases toks.len() - k,
{
    if k < 0 || k >= toks.len() {
        None
    } else if toks[k] == w {
        Some(k)
    } else {
        find_tok(toks, w, k + 1)
    }
}

/// Token texts joined with one blank.
pub open spec fn join_blank(parts: Seq<Seq<char>>) -> Seq<char>
    decreases parts.len(),
{
    if parts.len() == 0 {
        Seq::empty()
    } else if parts.len() == 1 {
        parts[0]
    } else {
        join_blank(parts.drop_last()) + seq![' '] + parts.last()
    }
}

/// A comma-separated list: names at even positions, commas between them.
pub open spec fn comma_list_ok(rest: Seq<Seq<char>>) -> bool {
    &&& rest.len() >= 1
    &&& rest.len() % 2 == 1
    &&& forall|i: int| 0 <= i < rest.len() && i % 2 == 0 ==> (#[trigger] rest[i]) != seq![',']
    &&& forall|i: int| 0 <= i < rest.len() && i % 2 == 1 ==> (#[trigger] rest[i]) == seq![',']
}

/// The names of a comma-separated list.
pub open spec fn comma_names(rest: Seq<Seq<char>>) -> Seq<Seq<char>> {
    Seq::new(((rest.len() + 1) / 2) as nat, |i: int| rest[2 * i])
}

/// What a split command denotes: the amount's text, the paying account's
/// name, and the receiving accounts' names — or nothing when the line does
/// not fit `split <amount> from <name> to <name> (, <name>)*`.
pub open spec fn split_cmd_spec(s: Seq<char>) -> Option<(Seq<char>, Seq<char>, Seq<Seq<char>>)> {
    let toks = tokens_from(s, 0);
    if toks.len() >= 1 && toks[0] == "split"@ {
        match find_tok(toks, "from"@, 0) {
            None => None,
            Some(fi) => if fi >= 2 && fi + 2 < toks.len() && toks[fi + 1] != seq![','] && toks[fi
                + 2] == "to"@ {
                let rest = toks.skip(fi + 3);
                if comma_list_ok(rest) {
                    Some((join_blank(toks.subrange(1, fi)), toks[fi + 1], comma_names(rest)))
                } else {
                    None
                }
            } else {
                None
            },
        }
    } else {
        None
    }
}

/// A parsed split command.
pub struct SplitCmd {
    pub money: String,
    pub from: String,
    pub to: Vec<String>,
}

/// The views of a list of names.
pub open spec fn name_views(names: Seq<String>) -> Seq<Seq<char>> {
    names.map_values(|s: String| s@)
}

/// Splits the command line into its tokens.
fn tokenize(s: &str) -> (r: Vec<String>)
    ensures
        name_views(r@) == tokens_from(s@, 0),
{
    let n = s.unicode_len();
    let mut r: Vec<String> = Vec::new();
    let mut k: usize = 0;
    proof {
        assert(name_views(r@) + tokens_from(s@, 0) =~= tokens_from(s@, 0));
    }
    while k < n
        invariant
            0 <= k <= n == s@.len(),
            name_views(r@) + tokens_from(s@, k as int) == tokens_from(s@, 0),
        decreases n - k,
    {
        let c = s.get_char(k);
        if c == ' ' {
            k = k + 1;
        } else if c == ',' {
            r.push(String::from_str(","));
            proof {
                reveal_strlit(",");
                assert(","@ =~= seq![',']);
                assert(name_views(r@) =~= name_views(r@.drop_last()).push(seq![',']));
                assert(name_views(r@) + tokens_from(s@, k + 1) =~= name_views(r@.drop_last())
                    + (seq![seq![',']] + tokens_from(s@, k + 1)));
            }
            k = k + 1;
        } else {
            let stop = scan_word_stop(s, k, n);
            let word = s.substring_char(k, stop);
            r.push(String::from_str(word));
            proof {
                assert(word@ =~= s@.subrange(k as int, stop as int));
                assert(name_views(r@) =~= name_views(r@.drop_last()).push(word@));
                assert(name_views(r@) + tokens_from(s@, stop as int) =~= name_views(
                    r@.drop_last(),
                ) + (seq![s@.subrange(k as int, word_stop(s@, k as int))] + tokens_from(
                    s@,
                    word_stop(s@, k as int),
                )));
            }
            proof {
                lemma_word_stop_lower(s@, k as int);
            }
            k = stop;
        }
    }
    proof {
        assert(tokens_from(s@, n as int) =~= Seq::<Seq<char>>::empty());
        assert(name_views(r@) + tokens_from(s@, n as int) =~= name_views(r@));
    }
    r
}

/// The first index at or after `off` holding a blank or comma.
fn scan_word_stop(s: &str, off: usize, n: usize) -> (r: usize)
    requires
        off < n == s@.len(),
        s@[off as int] != ' ' && s@[off as int] != ',',
    ensures
        r == word_stop(s@, off as int),
        off < r <= n,
{
    proof {
        lemma_word_stop_lower(s@, off as int);
        lemma_word_stop_lower(s@, off as int + 1);
    }
    let mut i: usize = off;
    while i < n
        invariant
            off <= i <= n == s@.len(),
            word_stop(s@, off as int) == word_stop(s@, i as int),
            i > off ==> word_stop(s@, off as int) >= i,
        decreases n - i,
    {
        let c = s.get_char(i);
        if c == ' ' || c == ',' {
            proof {
                assert(word_stop(s@, i as int) == i);
            }
            return i;
        }
        proof {
            lemma_word_stop_lower(s@, i as int + 1);
        }
        i = i + 1;
    }
    n
}

/// Reads a `split <amount> from <name> to <name> (, <name>)*` command.
pub fn parse_split_cmd(s: &str) -> (r: Option<SplitCmd>)
    ensures
        (match split_cmd_spec(s@) {
            None => r is None,
            Some(trip) => r is Some && r->Some_0.money@ == trip.0 && r->Some_0.from@ == trip.1
                && name_views(r->Some_0.to@) == trip.2,
        }),
{
    proof {
        reveal_strlit("split");
        reveal_strlit("from");
        reveal_strlit("to");
        reveal_strlit(",");
        reveal_strlit(" ");
        assert(","@ =~= seq![',']);
        assert(" "@ =~= seq![' ']);
    }
    let toks = tokenize(s);
    let ghost tv = tokens_from(s@, 0);
    let tn = toks.len();
    if tn == 0 {
        return None;
    }
    if !str_eq(toks[0].as_str(), "split") {
        return None;
    }
    // the first "from"
    let mut fi: usize = 0;
    let mut found = false;
    while fi < tn && !found
        invariant
            0 <= fi <= tn == toks@.len(),
            name_views(toks@) == tv,
            found ==> fi < tn && toks@[fi as int]@ == "from"@ && find_tok(tv, "from"@, 0) == Some(
                fi as int,
            ),
            !found ==> find_tok(tv, "from"@, fi as int) == find_tok(tv, "from"@, 0),
        decreases tn - fi + (if found { 0int } else { 1int }),
    {
        if str_eq(toks[fi].as_str(), "from") {
            found = true;
            proof {
                assert(tv[fi as int] == toks@[fi as int]@);
                assert(find_tok(tv, "from"@, fi as int) == Some(fi as int));
            }
        } else {
            proof {
                assert(tv[fi as int] == toks@[fi as int]@);
            }
            fi = fi + 1;
        }
    }
    if !found {
        proof {
            assert(find_tok(tv, "from"@, tn as int) is None);
        }
        return None;
    }
    if fi < 2 {
        return None;
    }
    if tn - fi <= 2 {
        return None;
    }
    proof {
        assert(tv[fi + 1] == toks@[fi as int + 1]@);
        assert(tv[fi + 2] == toks@[fi as int + 2]@);
    }
    if str_eq(toks[fi + 1].as_str(), ",") {
        return None;
    }
    if !str_eq(toks[fi + 2].as_str(), "to") {
        return None;
    }
    // the amount's text: the tokens before "from", joined with blanks
    let mut money = String::new();
    let mut i: usize = 1;
    proof {
        assert(join_blank(tv.subrange(1, 1)) =~= Seq::<char>::empty());
        assert(money@ =~= join_blank(tv.subrange(1, 1)));
    }
    while i < fi
        invariant
            1 <= i <= fi < tn == toks@.len(),
            name_views(toks@) == tv,
            money@ == join_blank(tv.subrange(1, i as int)),
        decreases fi - i,
    {
        if i > 1 {
            money.append(" ");
        }
        money.append(toks[i].as_str());
        proof {
            assert(tv.subrange(1, i + 1).drop_last() =~= tv.subrange(1, i as int));
            assert(tv.subrange(1, i + 1).last() == toks@[i as int]@);
        }
        i = i + 1;
    }
    let from_name = toks[fi + 1].clone();
    // the receivers: names at even offsets, commas between them
    let mut to: Vec<String> = Vec::new();
    let ghost rest = tv.skip(fi + 3int);
    let rn_wide = tn - (fi + 3);
    if rn_wide == 0 {
        return None;
    }
    if rn_wide % 2 == 0 {
        return None;
    }
    let mut j: usize = 0;
    while j < rn_wide
        invariant
            0 <= j <= rn_wide + 1,
            rn_wide == tn - fi - 3,
            fi + 2 < tn == toks@.len(),
            name_views(toks@) == tv,
            rest == tv.skip(fi + 3int),
            rest.len() == rn_wide,
            j % 2 == 0,
            forall|q: int|
                0 <= q < j && q < rest.len() && q % 2 == 0 ==> (#[trigger] rest[q]) != seq![','],
            forall|q: int|
                0 <= q < j && q < rest.len() && q % 2 == 1 ==> (#[trigger] rest[q]) == seq![','],
            name_views(to@) =~= Seq::new(((j + 1) / 2) as nat, |q: int| rest[2 * q]),
        decreases rn_wide + 1 - j,
    {
        proof {
            assert(rest[j as int] == toks@[fi + 3 + j]@);
        }
        if str_eq(toks[fi + 3 + j].as_str(), ",") {
            return None;
        }
        let ghost old_names = name_views(to@);
        to.push(toks[fi + 3 + j].clone());
        proof {
            let newlen = ((j + 3) / 2) as int;
            assert(name_views(to@).len() == newlen);
            assert forall|q: int| 0 <= q < newlen implies name_views(to@)[q] == rest[2 * q] by {
                if q < newlen - 1 {
                    assert(name_views(to@)[q] == old_names[q]);
                } else {
                    assert(2 * q == j);
                    assert(name_views(to@)[q] == toks@[fi + 3 + j]@);
                }
            }
            assert(name_views(to@) =~= Seq::new(((j + 3) / 2) as nat, |q: int| rest[2 * q]));
        }
        if j + 1 < rn_wide {
            proof {
                assert(rest[j + 1] == toks@[fi + 3 + j + 1]@);
            }
            if !str_eq(toks[fi + 3 + j + 1].as_str(), ",") {
                return None;
            }
            proof {
                assert(rest[j + 1] =~= seq![',']);
            }
        }
        j = j + 2;
    }
    proof {
        assert(comma_list_ok(rest));
        assert(name_views(to@) =~= comma_names(rest));
        assert(money@ == join_blank(tv.subrange(1, fi as int)));
        assert(from_name@ == tv[fi + 1]);
    }
    Some(SplitCmd { money, from: from_name, to })
}


/// The sum of the first `i` shares handed to receiver `x`.
pub open spec fn share_sum_for(payees: Seq<Accn>, amounts: Seq<int>, x: Accn, i: int) -> int
    decreases i,
{
    if i <= 0 {
        0
    } else {
        share_sum_for(payees, amounts, x, i - 1) + (if payees[i - 1] == x {
            amounts[i - 1]
        } else {
            0
        })
    }
}

/// With no matching receiver among the first `i`, nothing was handed over.
proof fn lemma_ssf_zero(payees: Seq<Accn>, amounts: Seq<int>, x: Accn, i: int)
    requires
        forall|j: int| 0 <= j < i ==> (#[trigger] payees[j]) != x,
    ensures
        share_sum_for(payees, amounts, x, i) == 0,
    decreases i,
{
    if i > 0 {
        lemma_ssf_zero(payees, amounts, x, i - 1);
    }
}

/// How many of the first `i` shares go to `x` from the leading (extra-unit)
/// block, and from the rest.
spec fn sel_hi(payees: Seq<Accn>, x: Accn, i: int, kk: int) -> int
    decreases i,
{
    if i <= 0 {
        0
    } else {
        sel_hi(payees, x, i - 1, kk) + (if payees[i - 1] == x && i - 1 < kk {
            1int
        } else {
            0int
        })
    }
}

spec fn sel_lo(payees: Seq<Accn>, x: Accn, i: int, kk: int) -> int
    decreases i,
{
    if i <= 0 {
        0
    } else {
        sel_lo(payees, x, i - 1, kk) + (if payees[i - 1] == x && i - 1 >= kk {
            1int
        } else {
            0int
        })
    }
}

/// A receiver's sum is its two share counts times the two share values.
proof fn lemma_ssf_form(m: int, n: nat, dp: nat, payees: Seq<Accn>, x: Accn, i: int)
    requires
        n >= 1,
        dp <= SCALE,
        payees.len() == n,
        0 <= i <= n,
    ensures
        ({
            let base = crate::money::split_base(m, n, dp);
            let su = crate::num::sgn(crate::money::split_rem(m, n, dp)) * split_unit(dp);
            let k = crate::money::split_k(m, n, dp);
            &&& share_sum_for(payees, split_shares(m, n, dp), x, i) == sel_hi(payees, x, i, k)
                * (base + su) + sel_lo(payees, x, i, k) * base
            &&& 0 <= sel_hi(payees, x, i, k)
            &&& 0 <= sel_lo(payees, x, i, k)
            &&& sel_hi(payees, x, i, k) + sel_lo(payees, x, i, k) <= i
        }),
    decreases i,
{
    let base = crate::money::split_base(m, n, dp);
    let su = crate::num::sgn(crate::money::split_rem(m, n, dp)) * split_unit(dp);
    let k = crate::money::split_k(m, n, dp);
    if i > 0 {
        lemma_ssf_form(m, n, dp, payees, x, i - 1);
        let hi0 = sel_hi(payees, x, i - 1, k);
        let lo0 = sel_lo(payees, x, i - 1, k);
        if payees[i - 1] == x {
            assert(split_shares(m, n, dp)[i - 1] == crate::money::split_amount(m, n, dp, i - 1));
            if i - 1 < k {
                assert((hi0 + 1) * (base + su) == hi0 * (base + su) + (base + su))
                    by (nonlinear_arith);
            } else {
                assert((lo0 + 1) * base == lo0 * base + base) by (nonlinear_arith);
            }
        }
    }
}

/// Any receiver's sum stays within the whole amount plus two rounding units
/// per share.
proof fn lemma_ssf_bound(m: int, n: nat, dp: nat, payees: Seq<Accn>, x: Accn, i: int)
    requires
        n >= 1,
        dp <= SCALE,
        payees.len() == n,
        0 <= i <= n,
    ensures
        -(abs(m) as int + 2 * (n as int) * split_unit(dp)) <= share_sum_for(
            payees,
            split_shares(m, n, dp),
            x,
            i,
        ) <= abs(m) as int + 2 * (n as int) * split_unit(dp),
{
    crate::money::lemma_split_parts(m, n, dp);
    lemma_ssf_form(m, n, dp, payees, x, i);
    let u = split_unit(dp);
    let base = crate::money::split_base(m, n, dp);
    let rem = crate::money::split_rem(m, n, dp);
    let su = crate::num::sgn(rem) * u;
    let k = crate::money::split_k(m, n, dp);
    let hi = sel_hi(payees, x, i, k);
    let lo = sel_lo(payees, x, i, k);
    let am = abs(m) as int;
    // n * base equals m - rem, which the parts lemma bounds
    assert(-(am + (n as int) * u) <= (n as int) * base <= am + (n as int) * u)
        by (nonlinear_arith)
        requires
            base * (n as int) + rem == m && 2 * abs(rem) <= (n as int) * u && -am <= m <= am
                && abs(rem) >= 0 && u >= 1 && n >= 1;
    // a partial count keeps the product inside the full one
    assert(-(am + (n as int) * u) <= (hi + lo) * base <= am + (n as int) * u)
        by (nonlinear_arith)
        requires
            -(am + (n as int) * u) <= (n as int) * base <= am + (n as int) * u && 0 <= hi + lo
                <= n && am >= 0 && u >= 1 && n >= 1;
    assert(su == u || su == 0 || su == -u) by (nonlinear_arith)
        requires
            su == crate::num::sgn(rem) * u && (crate::num::sgn(rem) == 1 || crate::num::sgn(
                rem,
            ) == 0 || crate::num::sgn(rem) == -1);
    assert(-((n as int) * u) <= hi * su <= (n as int) * u) by (nonlinear_arith)
        requires
            0 <= hi <= n && (su == u || su == 0 || su == -u) && u >= 1;
    assert(hi * (base + su) + lo * base == (hi + lo) * base + hi * su) by (nonlinear_arith);
    assert(2 * (n as int) * u == (n as int) * u + (n as int) * u) by (nonlinear_arith);
    assert(-(am + 2 * (n as int) * u) <= (hi + lo) * base + hi * su <= am + 2 * (n as int)
        * u);
}

/// The sum a list of receivers takes, one `share_sum_for` each.
spec fn slots_sum(slots: Seq<Accn>, payees: Seq<Accn>, amounts: Seq<int>, i: int) -> int
    decreases slots.len(),
{
    if slots.len() == 0 {
        0
    } else {
        slots_sum(slots.drop_last(), payees, amounts, i) + share_sum_for(
            payees,
            amounts,
            slots.last(),
            i,
        )
    }
}

/// Does some slot name this account?
spec fn in_slots(slots: Seq<Accn>, x: Accn) -> bool {
    exists|q: int| 0 <= q < slots.len() && (#[trigger] slots[q]) == x
}

/// Is this account one of the listed receivers?
pub open spec fn is_payee(payees: Seq<Accn>, x: Accn) -> bool {
    exists|p: int| 0 <= p < payees.len() && (#[trigger] payees[p]) == x
}

/// How many of the slots name this account.
spec fn occ(slots: Seq<Accn>, x: Accn) -> int
    decreases slots.len(),
{
    if slots.len() == 0 {
        0
    } else {
        occ(slots.drop_last(), x) + (if slots.last() == x {
            1int
        } else {
            0int
        })
    }
}

proof fn lemma_occ_of_distinct(slots: Seq<Accn>, x: Accn)
    requires
        forall|a: int, b: int| 0 <= a < b < slots.len() ==> (#[trigger] slots[a]) != (
        #[trigger] slots[b]),
        in_slots(slots, x),
    ensures
        occ(slots, x) == 1,
    decreases slots.len(),
{
    let q = choose|q: int| 0 <= q < slots.len() && (#[trigger] slots[q]) == x;
    if q == slots.len() - 1 {
        assert forall|p: int|
            0 <= p < slots.drop_last().len() implies (#[trigger] slots.drop_last()[p]) != x by {
            assert(slots.drop_last()[p] == slots[p]);
        }
        lemma_occ_absent(slots.drop_last(), x);
    } else {
        assert(slots.drop_last()[q] == slots[q]);
        assert(slots.last() != x);
        lemma_occ_of_distinct(slots.drop_last(), x);
    }
}

proof fn lemma_occ_absent(slots: Seq<Accn>, x: Accn)
    requires
        forall|p: int| 0 <= p < slots.len() ==> (#[trigger] slots[p]) != x,
    ensures
        occ(slots, x) == 0,
    decreases slots.len(),
{
    if slots.len() > 0 {
        assert forall|p: int|
            0 <= p < slots.drop_last().len() implies (#[trigger] slots.drop_last()[p]) != x by {
            assert(slots.drop_last()[p] == slots[p]);
        }
        lemma_occ_absent(slots.drop_last(), x);
    }
}

/// Taking one more share grows the receivers' combined sum by that share,
/// counted once per slot naming its receiver.
proof fn lemma_slots_sum_step(slots: Seq<Accn>, payees: Seq<Accn>, amounts: Seq<int>, i: int)
    requires
        0 <= i < payees.len(),
    ensures
        slots_sum(slots, payees, amounts, i + 1) == slots_sum(slots, payees, amounts, i) + occ(
            slots,
            payees[i],
        ) * amounts[i],
    decreases slots.len(),
{
    if slots.len() == 0 {
        assert(occ(slots, payees[i]) * amounts[i] == 0) by (nonlinear_arith)
            requires occ(slots, payees[i]) == 0;
    } else {
        lemma_slots_sum_step(slots.drop_last(), payees, amounts, i);
        let o0 = occ(slots.drop_last(), payees[i]);
        if slots.last() == payees[i] {
            assert((o0 + 1) * amounts[i] == o0 * amounts[i] + amounts[i]) by (nonlinear_arith);
        }
    }
}

/// With distinct slots covering every receiver, the combined sum is the sum
/// of all the shares.
proof fn lemma_slots_sum_total(slots: Seq<Accn>, payees: Seq<Accn>, amounts: Seq<int>, i: int)
    requires
        0 <= i <= payees.len(),
        amounts.len() == payees.len(),
        forall|a: int, b: int| 0 <= a < b < slots.len() ==> (#[trigger] slots[a]) != (
        #[trigger] slots[b]),
        forall|j: int| 0 <= j < payees.len() ==> in_slots(slots, #[trigger] payees[j]),
    ensures
        slots_sum(slots, payees, amounts, i) == seq_sum(amounts.take(i)),
    decreases i,
{
    if i == 0 {
        assert(amounts.take(0) =~= Seq::<int>::empty());
        lemma_slots_sum_zero(slots, payees, amounts);
    } else {
        lemma_slots_sum_total(slots, payees, amounts, i - 1);
        lemma_slots_sum_step(slots, payees, amounts, i - 1);
        lemma_occ_of_distinct(slots, payees[i - 1]);
        assert(1 * amounts[i - 1] == amounts[i - 1]) by (nonlinear_arith);
        assert(amounts.take(i).drop_last() =~= amounts.take(i - 1));
        assert(amounts.take(i).last() == amounts[i - 1]);
    }
}

proof fn lemma_slots_sum_zero(slots: Seq<Accn>, payees: Seq<Accn>, amounts: Seq<int>)
    ensures
        slots_sum(slots, payees, amounts, 0) == 0,
    decreases slots.len(),
{
    if slots.len() > 0 {
        lemma_slots_sum_zero(slots.drop_last(), payees, amounts);
    }
}

/// Groups the shares per receiving account, duplicates merged; the payer's
/// slot comes first, seeded with the whole amount given away.
fn group_shares(recv: Accn, payees: &Vec<Accn>, shares: &Vec<Money>, neg_whole: i64) -> (r: (
    Vec<Accn>,
    Vec<i128>,
))
    requires
        payees@.len() == shares@.len(),
        payees@.len() >= 1,
        forall|q: int| 0 <= q < shares@.len() ==> (#[trigger] shares@[q]).wf(),
        amount_ok(neg_whole as int),
    ensures
        ({
            let amounts = crate::valuable::amounts_of(shares@);
            let n = payees@.len() as int;
            &&& r.0@.len() == r.1@.len()
            &&& r.0@.len() >= 1
            &&& r.0@[0] == recv
            &&& forall|q1: int, q2: int|
                0 <= q1 < q2 < r.0@.len() ==> (#[trigger] r.0@[q1]) != (#[trigger] r.0@[q2])
            &&& forall|q: int| 1 <= q < r.0@.len() ==> is_payee(payees@, #[trigger] r.0@[q])
            &&& forall|p: int| 0 <= p < n ==> in_slots(r.0@, #[trigger] payees@[p])
            &&& forall|q: int|
                0 <= q < r.0@.len() ==> (#[trigger] r.1@[q]) as int == (if q == 0 {
                    neg_whole as int
                } else {
                    0int
                }) + share_sum_for(payees@, amounts, r.0@[q], n)
        }),
{
    let ghost amounts = crate::valuable::amounts_of(shares@);
    let n = payees.len();
    let mut slots: Vec<Accn> = Vec::new();
    let mut sums: Vec<i128> = Vec::new();
    slots.push(recv);
    sums.push(neg_whole as i128);
    let mut i: usize = 0;
    while i < n
        invariant
            0 <= i <= n == payees@.len(),
            n == shares@.len(),
            amounts == crate::valuable::amounts_of(shares@),
            amount_ok(neg_whole as int),
            forall|q: int| 0 <= q < shares@.len() ==> (#[trigger] shares@[q]).wf(),
            slots@.len() == sums@.len(),
            slots@.len() >= 1,
            slots@[0] == recv,
            forall|q1: int, q2: int|
                0 <= q1 < q2 < slots@.len() ==> (#[trigger] slots@[q1]) != (
                #[trigger] slots@[q2]),
            forall|q: int|
                1 <= q < slots@.len() ==> exists|p: int|
                    0 <= p < i && (#[trigger] payees@[p]) == (#[trigger] slots@[q]),
            forall|p: int| 0 <= p < i ==> in_slots(slots@, #[trigger] payees@[p]),
            forall|q: int|
                0 <= q < slots@.len() ==> (#[trigger] sums@[q]) as int == (if q == 0 {
                    neg_whole as int
                } else {
                    0int
                }) + share_sum_for(payees@, amounts, slots@[q], i as int),
            forall|q: int|
                0 <= q < slots@.len() ==> -((i + 1) as int) * (AMOUNT_MAX as int) <= (
                #[trigger] sums@[q]) as int <= ((i + 1) as int) * (AMOUNT_MAX as int),
        decreases n - i,
    {
        let p = payees[i];
        let a_i: i64 = shares[i].amount();
        let ghost preslots = slots@;
        let ghost presums = sums@;
        proof {
            assert(amounts[i as int] == shares@[i as int].amount_spec());
        }
        // find p's slot, if it has one
        let sn = slots.len();
        let mut at: usize = sn;
        let mut q: usize = 0;
        while q < sn
            invariant
                0 <= q <= sn == slots@.len(),
                slots@ == preslots,
                at == sn || (at < q && slots@[at as int] == p),
                at == sn ==> forall|w: int| 0 <= w < q ==> (#[trigger] slots@[w]) != p,
            decreases sn - q,
        {
            if at == sn {
                if slots[q] == p {
                    at = q;
                }
            }
            q = q + 1;
        }
        if at < sn {
            let merged: i128 = sums[at] + a_i as i128;
            proof {
                assert(((i + 1) as int) * (AMOUNT_MAX as int) + AMOUNT_MAX as int == ((i
                    + 2) as int) * (AMOUNT_MAX as int));
            }
            sums.set(at, merged);
            proof {
                assert forall|w: int|
                    0 <= w < slots@.len() implies (#[trigger] sums@[w]) as int == (if w == 0 {
                    neg_whole as int
                } else {
                    0int
                }) + share_sum_for(payees@, amounts, slots@[w], i + 1) by {
                    if w == at as int {
                        assert(payees@[i as int] == slots@[w]);
                    } else {
                        assert(slots@[w] != slots@[at as int]);
                        assert(payees@[i as int] != slots@[w]);
                    }
                }
                assert forall|p2: int|
                    0 <= p2 < i + 1 implies in_slots(slots@, #[trigger] payees@[p2]) by {
                    if p2 == i as int {
                        assert(slots@[at as int] == payees@[p2]);
                    }
                }
            }
        } else {
            slots.push(p);
            sums.push(a_i as i128);
            proof {
                assert(slots@.last() == p);
                lemma_ssf_zero(payees@, amounts, p, i as int);
                assert forall|w: int|
                    0 <= w < slots@.len() implies (#[trigger] sums@[w]) as int == (if w == 0 {
                    neg_whole as int
                } else {
                    0int
                }) + share_sum_for(payees@, amounts, slots@[w], i + 1) by {
                    if w < slots@.len() - 1 {
                        assert(slots@[w] == preslots[w] && sums@[w] == presums[w]);
                        assert(slots@[w] != p);
                        assert(payees@[i as int] != slots@[w]);
                    } else {
                        assert(share_sum_for(payees@, amounts, p, i + 1) == amounts[i as int]);
                    }
                }
                assert forall|p2: int|
                    0 <= p2 < i + 1 implies in_slots(slots@, #[trigger] payees@[p2]) by {
                    if p2 == i as int {
                        assert(slots@[slots@.len() - 1] == payees@[p2]);
                    } else {
                        let w0 = choose|w0: int|
                            0 <= w0 < preslots.len() && (#[trigger] preslots[w0]) == payees@[
                            p2];
                        assert(slots@[w0] == payees@[p2]);
                    }
                }
            }
        }
        i = i + 1;
    }
    proof {
        let n_int = payees@.len() as int;
        assert(slots@.len() == sums@.len());
        assert(slots@[0] == recv);
        assert forall|q: int|
            1 <= q < slots@.len() implies is_payee(payees@, #[trigger] slots@[q]) by {
            let p = choose|p: int|
                0 <= p < i && (#[trigger] payees@[p]) == slots@[q as int];
            assert(0 <= p < n_int && payees@[p] == slots@[q as int]);
        }
        assert forall|p: int|
            0 <= p < n_int implies in_slots(slots@, #[trigger] payees@[p]) by {}
        assert forall|q: int|
            0 <= q < slots@.len() implies (#[trigger] sums@[q]) as int == (if q == 0 {
            neg_whole as int
        } else {
            0int
        }) + share_sum_for(payees@, amounts, slots@[q], n_int) by {}
    }
    let r = (slots, sums);
    proof {
        assert(r.0@ == slots@);
        assert(r.1@ == sums@);
    }
    r
}

/// Builds and commits a split: the paying account gives the whole amount,
/// and each receiver takes one of the `n` equal shares (rounded half to
/// even at two decimal places, the remainder spread one cent at a time).
/// A receiver listed several times — the payer included — has its shares
/// merged into one posting, as `with_posting_combined` would.  An amount
/// finer than two decimal places cannot split exactly and is refused as
/// unbalanced, the ledger untouched.
pub fn build_split_txn(
    j: &mut Journal,
    date: Date,
    desc: String,
    recv: Accn,
    payees: &Vec<Accn>,
    money: Money,
) -> (r: Result<Txn, LedgerError>)
    requires
        old(j).wf(),
        money.wf(),
        old(j).currencies_spec().valid(money.currency_spec()),
        1 <= recv.id_spec() < old(j).accns_spec()@.len(),
        payees@.len() >= 1,
        forall|k: int|
            0 <= k < payees@.len() ==> 1 <= (#[trigger] payees@[k]).id_spec() < old(j).accns_spec()@.len(),
        // merged postings must stay representable at the fixed scale
        2 * (abs(money.amount_spec()) as int) + 2 * (payees@.len() as int) * split_unit(2)
            <= AMOUNT_MAX as int,
    ensures
        final(j).wf(),
        final(j).accns_spec() == old(j).accns_spec(),
        final(j).currencies_spec() == old(j).currencies_spec(),
        money.amount_spec() % split_unit(2) != 0 ==> r == Result::<Txn, LedgerError>::Err(
            LedgerError::Unbalanced,
        ) && final(j).txns_spec() == old(j).txns_spec() && final(j).postings_spec() == old(j).postings_spec(),
        money.amount_spec() % split_unit(2) == 0 ==> ({
            let t = old(j).txns_spec().len();
            let base = old(j).postings_spec().len();
            let sh = split_shares(money.amount_spec(), payees@.len() as nat, 2);
            &&& r is Ok
            &&& r->Ok_0.id_spec() == t
            &&& final(j).txns_spec().len() == t + 1
            &&& final(j).txns_spec().last().date == date
            &&& final(j).txns_spec().last().desc@ == desc@
            &&& final(j).txns_spec().last().live
            &&& final(j).postings_spec().len() > base
            &&& final(j).postings_spec().take(base as int) == old(j).postings_spec()
            &&& final(j).postings_spec()[base as int].accn == recv
            &&& final(j).postings_spec()[base as int].money.amount_spec()
                == -money.amount_spec() + share_sum_for(
                payees@,
                sh,
                recv,
                payees@.len() as int,
            )
            &&& forall|k: int|
                base < k < final(j).postings_spec().len() ==> (
                #[trigger] final(j).postings_spec()[k]).accn != recv && final(j).postings_spec()[k].money.amount_spec() == share_sum_for(
                    payees@,
                    sh,
                    final(j).postings_spec()[k].accn,
                    payees@.len() as int,
                ) && is_payee(payees@, final(j).postings_spec()[k].accn)
            &&& forall|k1: int, k2: int| #![auto]
                base <= k1 < k2 < final(j).postings_spec().len() ==> final(j).postings_spec()[
                    k1].accn != final(j).postings_spec()[k2].accn
            &&& forall|p: int|
                0 <= p < payees@.len() ==> exists|k: int|
                    base <= k < final(j).postings_spec().len() && (
                    #[trigger] final(j).postings_spec()[k]).accn == (#[trigger] payees@[p])
            &&& is_zero_map(msum(crate::journal::txn_moneys(final(j).postings_spec(), t as int)))
        }),
{
    proof {
        lemma_pow10_pos((SCALE - 2) as nat);
    }
    let unit: i64 = pow10_i64(SCALE - 2);
    let am = money.amount();
    let rem = if am >= 0 {
        am % unit
    } else {
        (-am) % unit
    };
    proof {
        if am < 0 {
            crate::num::lemma_pow10_mono(0, (SCALE - 2) as nat);
            vstd::arithmetic::div_mod::lemma_fundamental_div_mod(-(am as int), unit as int);
            vstd::arithmetic::div_mod::lemma_fundamental_div_mod(am as int, unit as int);
            vstd::arithmetic::div_mod::lemma_mod_bound(-(am as int), unit as int);
            vstd::arithmetic::div_mod::lemma_mod_bound(am as int, unit as int);
            if (-(am as int)) % (unit as int) == 0 {
                let q = (-(am as int)) / (unit as int);
                assert(am as int == (-q) * (unit as int) + 0) by (nonlinear_arith)
                    requires -(am as int) == (unit as int) * q;
                vstd::arithmetic::div_mod::lemma_fundamental_div_mod_converse(
                    am as int,
                    unit as int,
                    -q,
                    0,
                );
            } else {
                if (am as int) % (unit as int) == 0 {
                    let q = (am as int) / (unit as int);
                    assert(-(am as int) == (-q) * (unit as int) + 0) by (nonlinear_arith)
                        requires am as int == (unit as int) * q;
                    vstd::arithmetic::div_mod::lemma_fundamental_div_mod_converse(
                        -(am as int),
                        unit as int,
                        -q,
                        0,
                    );
                }
            }
        }
        assert((rem == 0) == (money.amount_spec() % split_unit(2) == 0));
    }
    if rem != 0 {
        return Err(LedgerError::Unbalanced);
    }
    let n = payees.len();
    let ghost mi = money.amount_spec();
    let ghost nn = n as nat;
    let shares = money.split(n, 2);
    let ghost sh = split_shares(mi, nn, 2);
    proof {
        lemma_split_exact(mi, nn, 2);
        lemma_split_wf(mi, nn, 2);
    }
    let (slots, sums) = group_shares(recv, payees, &shares, -am);
    let ghost slots_spec = slots@;
    let ghost sums_spec = sums@;
    proof {
        assert(crate::valuable::amounts_of(shares@) =~= sh);
        // each slot names a valid account, and its amount is representable
        assert forall|q: int|
            0 <= q < slots_spec.len() implies 1 <= (#[trigger] slots_spec[q]).id_spec() < old(j).accns_spec()@.len() by {
            if q >= 1 {
                assert(is_payee(payees@, slots_spec[q]));
                let p = choose|p: int|
                    0 <= p < payees@.len() && (#[trigger] payees@[p]) == slots_spec[q];
                assert(1 <= payees@[p].id_spec() < old(j).accns_spec()@.len());
            }
        }
        assert forall|q: int|
            0 <= q < slots_spec.len() implies amount_ok((#[trigger] sums_spec[q]) as int) by {
            lemma_ssf_bound(mi, nn, 2, payees@, slots_spec[q], n as int);
        }
    }
    // one posting per receiver, the payer's first
    let mut b = TxnBuilder::new(date, desc);
    let sn = slots.len();
    let mut q: usize = 0;
    while q < sn
        invariant
            0 <= q <= sn == slots@.len() == sums@.len(),
            money.wf(),
            b.date_spec() == date,
            b.desc_spec() == desc@,
            b.inferred_spec() is None,
            !b.conflict_spec(),
            b.postings_spec().len() == q,
            forall|w: int| 0 <= w < slots@.len() ==> amount_ok((#[trigger] sums@[w]) as int),
            forall|w: int|
                0 <= w < q ==> (#[trigger] b.postings_spec()[w]).0 == slots@[w]
                    && b.postings_spec()[w].1.amount_spec() == sums@[w] as int
                    && b.postings_spec()[w].1.currency_spec() == money.currency_spec()
                    && b.postings_spec()[w].1.wf(),
        decreases sn - q,
    {
        let value: i64 = sums[q] as i64;
        b.with_posting(slots[q], Some(Money::new(value, money.currency())));
        q = q + 1;
    }
    proof {
        // the receivers' postings sum to zero: the shares cover the whole
        let ps = b.postings_spec();
        let pm = pair_moneys(ps);
        let cid = money.currency_spec().id_spec();
        assert forall|w: int| 0 <= w < pm.len() implies (
        #[trigger] pm[w]).currency_spec().id_spec() == cid by {
            assert(pm[w] == ps[w].1);
        }
        crate::valuable::lemma_msum_single_currency(pm, cid);
        lemma_seq_sum_slots(pm, sums@, slots@, payees@, sh, mi, n as int);
        lemma_slots_sum_total(slots@, payees@, sh, n as int);
        assert(sh.take(n as int) =~= sh);
        assert(seq_sum(crate::valuable::amounts_of(pm)) == 0);
        assert(is_zero_map(msum(pm))) by {
            assert forall|x: int| #[trigger] msum(pm)[x] == 0 by {
                if x != cid {
                } else {
                }
            }
        }
        assert forall|c: int|
            -(crate::money::AMOUNT_MAX as int) <= #[trigger] msum(pair_moneys(
                b.postings_spec(),
            ))[c] <= crate::money::AMOUNT_MAX as int by {}
        assert(b.ok_for(*j)) by {
            assert forall|w: int|
                0 <= w < b.postings_spec().len() implies 1 <= (
            #[trigger] b.postings_spec()[w]).0.id_spec() < j.accns_spec()@.len()
                && b.postings_spec()[w].1.wf() && j.currencies_spec().valid(
                b.postings_spec()[w].1.currency_spec(),
            ) by {
                assert(b.postings_spec()[w].0 == slots@[w]);
            }
        }
    }
    let ghost bspec = b;
    let r = b.build(j);
    proof {
        if r is Err {
            assert(r->Err_0 is Unbalanced || r->Err_0 is InferredPostingConflict);
            if r->Err_0 is Unbalanced {
                assert(r == Result::<Txn, LedgerError>::Err(LedgerError::Unbalanced));
            } else {
                assert(r == Result::<Txn, LedgerError>::Err(
                    LedgerError::InferredPostingConflict,
                ));
            }
        }
        assert(r is Ok);
        assert(r->Ok_0.id_spec() == old(j).txns_spec().len());
        crate::journal::lemma_txn_id_bound(r->Ok_0);
        let t = old(j).txns_spec().len();
        let base = old(j).postings_spec().len();
        assert forall|k: int|
            base <= k < j.postings_spec().len() implies (#[trigger] j.postings_spec()[k]).accn
            == slots_spec[k - base] && j.postings_spec()[k].money.amount_spec()
            == sums_spec[k - base] as int by {
            let w = k - base;
            assert(j.postings_spec()[base + w] == (PostingRec {
                txn: t as usize,
                accn: (bspec.postings_spec()[w]).0,
                money: bspec.postings_spec()[w].1,
            }));
        }
        assert(j.postings_spec()[base as int].accn == recv);
        assert(j.postings_spec()[base as int].money.amount_spec() == -mi + share_sum_for(
            payees@,
            sh,
            recv,
            n as int,
        ));
        assert forall|k: int|
            base < k < j.postings_spec().len() implies (
        #[trigger] j.postings_spec()[k]).accn != recv && j.postings_spec()[
        k].money.amount_spec() == share_sum_for(
            payees@,
            sh,
            j.postings_spec()[k].accn,
            n as int,
        ) && is_payee(payees@, j.postings_spec()[k].accn) by {
            let w = k - base;
            assert(slots_spec[w] != slots_spec[0]);
            assert(is_payee(payees@, slots_spec[w]));
        }
        assert forall|k1: int, k2: int| #![auto]
            base <= k1 < k2 < j.postings_spec().len() implies j.postings_spec()[k1].accn
            != j.postings_spec()[k2].accn by {
            assert(slots_spec[k1 - base] != slots_spec[k2 - base]);
        }
        assert forall|p: int|
            0 <= p < payees@.len() implies exists|k: int|
                base <= k < j.postings_spec().len() && (#[trigger] j.postings_spec()[k]).accn
                    == (#[trigger] payees@[p]) by {
            assert(in_slots(slots_spec, payees@[p]));
            let w = choose|w: int|
                0 <= w < slots_spec.len() && (#[trigger] slots_spec[w]) == payees@[p];
            assert(j.postings_spec()[base + w].accn == slots_spec[w]);
        }
        assert(is_zero_map(msum(crate::journal::txn_moneys(j.postings_spec(), t as int))));
    }
    r
}

/// The builder postings' amounts, read off the slot sums.
proof fn lemma_seq_sum_slots(
    pm: Seq<Money>,
    sums: Seq<i128>,
    slots: Seq<Accn>,
    payees: Seq<Accn>,
    amounts: Seq<int>,
    mi: int,
    n: int,
)
    requires
        pm.len() == sums.len() == slots.len(),
        slots.len() >= 1,
        forall|w: int| 0 <= w < pm.len() ==> (#[trigger] pm[w]).amount_spec() == sums[w] as int,
        forall|w: int|
            0 <= w < slots.len() ==> (#[trigger] sums[w]) as int == (if w == 0 {
                -mi
            } else {
                0int
            }) + share_sum_for(payees, amounts, slots[w], n),
    ensures
        seq_sum(crate::valuable::amounts_of(pm)) == -mi + slots_sum(slots, payees, amounts, n),
    decreases pm.len(),
{
    if pm.len() == 1 {
        let a0 = crate::valuable::amounts_of(pm);
        assert(a0.drop_last() =~= Seq::<int>::empty());
        assert(a0.last() == pm[0].amount_spec());
        assert(pm[0] == pm.last());
        assert(slots.drop_last() =~= Seq::<Accn>::empty());
        assert(slots.last() == slots[0]);
        assert(slots_sum(slots, payees, amounts, n) == slots_sum(
            slots.drop_last(),
            payees,
            amounts,
            n,
        ) + share_sum_for(payees, amounts, slots.last(), n));
        assert(seq_sum(a0) == seq_sum(a0.drop_last()) + a0.last());
    } else {
        assert forall|w: int|
            0 <= w < pm.drop_last().len() implies (
        #[trigger] pm.drop_last()[w]).amount_spec() == sums.drop_last()[w] as int by {
            assert(pm.drop_last()[w] == pm[w]);
            assert(sums.drop_last()[w] == sums[w]);
        }
        assert forall|w: int|
            0 <= w < slots.drop_last().len() implies (#[trigger] sums.drop_last()[w]) as int
            == (if w == 0 {
            -mi
        } else {
            0int
        }) + share_sum_for(payees, amounts, slots.drop_last()[w], n) by {
            assert(sums.drop_last()[w] == sums[w]);
            assert(slots.drop_last()[w] == slots[w]);
        }
        lemma_seq_sum_slots(
            pm.drop_last(),
            sums.drop_last(),
            slots.drop_last(),
            payees,
            amounts,
            mi,
            n,
        );
        assert(crate::valuable::amounts_of(pm).drop_last() =~= crate::valuable::amounts_of(
            pm.drop_last(),
        ));
        assert(crate::valuable::amounts_of(pm).last() == pm.last().amount_spec());
        assert(pm[pm.len() - 1] == pm.last());
        assert(sums[sums.len() - 1] == sums.last());
        assert(slots[slots.len() - 1] == slots.last());
        assert(slots_sum(slots, payees, amounts, n) == slots_sum(
            slots.drop_last(),
            payees,
            amounts,
            n,
        ) + share_sum_for(payees, amounts, slots.last(), n));
        assert(seq_sum(crate::valuable::amounts_of(pm)) == seq_sum(
            crate::valuable::amounts_of(pm).drop_last(),
        ) + crate::valuable::amounts_of(pm).last());
    }
}

} // verus!
