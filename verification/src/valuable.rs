//! Multi-currency totals.
//!
//! A `Valuable` is a bag of exact amounts keyed by currency; entries that
//! reach zero are pruned at once.  Its mathematical view is the total map
//! from currency identity to amount, zero everywhere the bag has no entry.

use vstd::prelude::*;

use crate::currency::{lemma_currency_eq, Currency};
use crate::money::{Money, AMOUNT_MAX};
use crate::num::seq_sum;

verus! {

/// The all-zero multi-currency total.
pub open spec fn vmap_zero() -> Map<int, int> {
    Map::total(|c: int| 0int)
}

/// Zero in every currency.
pub open spec fn is_zero_map(m: Map<int, int>) -> bool {
    forall|c: int| #[trigger] m[c] == 0
}

/// Pointwise sum of two totals.
pub open spec fn vmap_add(a: Map<int, int>, b: Map<int, int>) -> Map<int, int> {
    Map::total(|c: int| a[c] + b[c])
}

/// The sum of a sequence of amounts, as a total map by currency.
pub open spec fn msum(s: Seq<Money>) -> Map<int, int>
    decreases s.len(),
{
    if s.len() == 0 {
        vmap_zero()
    } else {
        let prev = msum(s.drop_last());
        let m = s.last();
        prev.insert(
            m.currency_spec().id_spec(),
            prev[m.currency_spec().id_spec()] + m.amount_spec(),
        )
    }
}

/// The amount the entry list holds for currency `c` (0 when absent).
pub open spec fn entries_lookup(s: Seq<(Currency, i128)>, c: int) -> int
    decreases s.len(),
{
    if s.len() == 0 {
        0
    } else if s[0].0.id_spec() == c {
        s[0].1 as int
    } else {
        entries_lookup(s.skip(1), c)
    }
}

/// Currencies appear at most once.
pub open spec fn entries_distinct(s: Seq<(Currency, i128)>) -> bool {
    forall|a: int, b: int| #![auto] 0 <= a < b < s.len() ==> s[a].0.id_spec() != s[b].0.id_spec()
}

/// A value within `i128`.
pub open spec fn i128_ok(a: int) -> bool {
    i128::MIN <= a <= i128::MAX
}

/// A currency-keyed bag of exact amounts with no zero entries.
#[verifier::ext_equal]
pub struct Valuable {
    entries: Vec<(Currency, i128)>,
}

impl View for Valuable {
    type V = Map<int, int>;

    closed spec fn view(&self) -> Map<int, int> {
        Map::total(|c: int| entries_lookup(self.entries@, c))
    }
}

impl Valuable {
    /// The entry list itself, for callers that walk the bag.
    pub closed spec fn entry_seq(self) -> Seq<(Currency, i128)> {
        self.entries@
    }

    pub open spec fn wf(self) -> bool {
        &&& entries_distinct(self.entry_seq())
        &&& forall|i: int| #![auto] 0 <= i < self.entry_seq().len() ==> self.entry_seq()[i].1 != 0
    }

    /// Each entry holds exactly what the view says of its currency.
    pub proof fn lemma_entries(self)
        requires
            self.wf(),
        ensures
            forall|i: int| #![auto]
                0 <= i < self.entry_seq().len() ==> self@[self.entry_seq()[i].0.id_spec()]
                    == self.entry_seq()[i].1,
    {
        assert forall|i: int| #![auto]
            0 <= i < self.entry_seq().len() implies self@[self.entry_seq()[i].0.id_spec()]
            == self.entry_seq()[i].1 by {
            lemma_lookup_found(self.entry_seq(), i);
        }
    }

    pub fn new() -> (v: Valuable)
        ensures
            v.wf(),
            v@ == vmap_zero(),
            v.entry_seq().len() == 0,
    {
        let v = Valuable { entries: Vec::new() };
        proof {
            assert(v@ =~= vmap_zero());
        }
        v
    }

    pub fn entry_count(&self) -> (n: usize)
        ensures
            n == self.entry_seq().len(),
    {
        self.entries.len()
    }

    pub fn entry_at(&self, i: usize) -> (e: (Currency, i128))
        requires
            i < self.entry_seq().len(),
        ensures
            e == self.entry_seq()[i as int],
    {
        self.entries[i]
    }

    /// An identical bag.
    pub fn duplicate(&self) -> (r: Valuable)
        ensures
            r.entry_seq() == self.entry_seq(),
            r@ == self@,
    {
        let mut entries: Vec<(Currency, i128)> = Vec::new();
        let n = self.entries.len();
        let mut i: usize = 0;
        while i < n
            invariant
                0 <= i <= n == self.entries@.len(),
                entries@ == self.entries@.take(i as int),
            decreases n - i,
        {
            entries.push(self.entries[i]);
            proof {
                assert(self.entries@.take(i as int).push(self.entries@[i as int])
                    =~= self.entries@.take(i + 1));
            }
            i = i + 1;
        }
        let r = Valuable { entries };
        proof {
            assert(self.entries@.take(n as int) =~= self.entries@);
            assert(r@ =~= self@);
        }
        r
    }

    /// Is the total zero in every currency?
    pub fn is_zero(&self) -> (r: bool)
        requires
            self.wf(),
        ensures
            r == is_zero_map(self@),
    {
        if self.entries.len() == 0 {
            true
        } else {
            proof {
                let c0 = self.entry_seq()[0].0.id_spec();
                assert(self@[c0] == self.entry_seq()[0].1);
            }
            false
        }
    }

    /// The amount held for one currency.
    pub fn get(&self, c: Currency) -> (a: i128)
        ensures
            a as int == self@[c.id_spec()],
    {
        let n = self.entries.len();
        proof {
            assert(self.entries@.skip(0) =~= self.entries@);
        }
        let mut i: usize = 0;
        while i < n
            invariant
                0 <= i <= n == self.entries@.len(),
                entries_lookup(self.entries@.skip(i as int), c.id_spec()) == entries_lookup(
                    self.entries@,
                    c.id_spec(),
                ),
            decreases n - i,
        {
            let e = self.entries[i];
            proof {
                assert(self.entries@.skip(i as int)[0] == self.entries@[i as int]);
                assert(self.entries@.skip(i as int).skip(1) =~= self.entries@.skip(i + 1));
            }
            if e.0 == c {
                proof {
                    assert(e.0.id_spec() == c.id_spec());
                }
                return e.1;
            }
            proof {
                assert(e.0.id_spec() != c.id_spec()) by {
                    if e.0.id_spec() == c.id_spec() {
                        lemma_currency_eq(e.0, c);
                    }
                }
            }
            i = i + 1;
        }
        proof {
            assert(self.entries@.skip(n as int) =~= Seq::<(Currency, i128)>::empty());
        }
        0
    }

    /// Merges an amount of one currency into the bag, pruning a zeroed entry.
    pub fn merge(&mut self, c: Currency, a: i128)
        requires
            old(self).wf(),
            i128_ok(old(self)@[c.id_spec()] + a),
        ensures
            final(self).wf(),
            final(self)@ == old(self)@.insert(c.id_spec(), old(self)@[c.id_spec()] + a),
    {
        let ghost oldseq = self.entries@;
        let ghost cid = c.id_spec();
        let n = self.entries.len();
        let mut at: usize = n;
        let mut i: usize = 0;
        while i < n
            invariant
                0 <= i <= n == self.entries@.len(),
                self.entries@ == oldseq,
                at == n || (at < i && self.entries@[at as int].0 == c),
                at == n ==> forall|j: int| #![auto]
                    0 <= j < i ==> self.entries@[j].0.id_spec() != c.id_spec(),
            decreases n - i,
        {
            if at == n {
                let e = self.entries[i];
                if e.0 == c {
                    at = i;
                } else {
                    proof {
                        assert(e.0.id_spec() != c.id_spec()) by {
                            if e.0.id_spec() == c.id_spec() {
                                lemma_currency_eq(e.0, c);
                            }
                        }
                    }
                }
            }
            i = i + 1;
        }
        if at < n {
            let e = self.entries[at];
            proof {
                lemma_lookup_found(oldseq, at as int);
            }
            let updated: i128 = e.1 + a;
            if updated == 0 {
                self.entries.remove(at);
                proof {
                    lemma_remove_view(oldseq, at as int, self.entries@);
                    assert(self@ =~= old(self)@.insert(cid, old(self)@[cid] + a));
                }
            } else {
                self.entries.set(at, (e.0, updated));
                proof {
                    lemma_update_view(oldseq, at as int, self.entries@, updated);
                    assert(self@ =~= old(self)@.insert(cid, old(self)@[cid] + a));
                }
            }
        } else {
            proof {
                lemma_lookup_absent(oldseq, cid);
            }
            if a != 0 {
                self.entries.push((c, a));
                proof {
                    assert(self.entries@.take(oldseq.len() as int) =~= oldseq);
                    lemma_push_view(oldseq, self.entries@);
                    assert(self@ =~= old(self)@.insert(cid, old(self)@[cid] + a));
                }
            } else {
                proof {
                    assert(self@ =~= old(self)@.insert(cid, old(self)@[cid] + a));
                }
            }
        }
    }

    /// Merges one amount into the bag.
    pub fn add_money(&mut self, m: Money)
        requires
            old(self).wf(),
            i128_ok(old(self)@[m.currency_spec().id_spec()] + m.amount_spec()),
        ensures
            final(self).wf(),
            final(self)@ == old(self)@.insert(
                m.currency_spec().id_spec(),
                old(self)@[m.currency_spec().id_spec()] + m.amount_spec(),
            ),
    {
        let c = m.currency();
        let a = m.amount();
        self.merge(c, a as i128);
    }

    /// Adds a whole bag in.
    pub fn add_valuable(&mut self, other: &Valuable)
        requires
            old(self).wf(),
            other.wf(),
            forall|c: int| #[trigger] i128_ok(old(self)@[c] + other@[c]),
        ensures
            final(self).wf(),
            final(self)@ == vmap_add(old(self)@, other@),
    {
        let n = other.entries.len();
        let mut i: usize = 0;
        while i < n
            invariant
                0 <= i <= n == other.entry_seq().len(),
                self.wf(),
                forall|c: int| #[trigger] self@[c] == old(self)@[c] + entries_lookup(
                    other.entry_seq().take(i as int),
                    c,
                ),
            decreases n - i,
        {
            let e = other.entries[i];
            let ghost cid = e.0.id_spec();
            let ghost pre = self@;
            proof {
                lemma_lookup_found(other.entry_seq(), i as int);
                assert forall|j: int| #![auto]
                    0 <= j < other.entry_seq().take(i as int).len() implies other.entry_seq()
                    .take(i as int)[j].0.id_spec() != cid by {}
                lemma_lookup_absent(other.entry_seq().take(i as int), cid);
                assert(self@[cid] == old(self)@[cid]);
                assert(other@[cid] == e.1 as int);
                assert(i128_ok(old(self)@[cid] + other@[cid]));
            }
            self.merge(e.0, e.1);
            proof {
                assert(other.entry_seq().take(i as int).push(other.entry_seq()[i as int])
                    =~= other.entry_seq().take(i + 1));
                assert(other.entry_seq().take(i + 1).take(i as int) =~= other.entry_seq().take(
                    i as int,
                ));
                assert forall|j: int| #![auto]
                    0 <= j < i implies other.entry_seq().take(i as int)[j].0.id_spec()
                    != other.entry_seq().take(i + 1).last().0.id_spec() by {}
                lemma_push_view(other.entry_seq().take(i as int), other.entry_seq().take(i + 1));
                assert forall|c: int| #[trigger] self@[c] == old(self)@[c] + entries_lookup(
                    other.entry_seq().take(i + 1),
                    c,
                ) by {
                    if c != cid {
                        assert(self@[c] == pre[c]);
                    }
                }
            }
            i = i + 1;
        }
        proof {
            assert(other.entry_seq().take(n as int) =~= other.entry_seq());
            assert(self@ =~= vmap_add(old(self)@, other@));
        }
    }
}

/// The bare amounts of a money list.
pub open spec fn amounts_of(s: Seq<Money>) -> Seq<int> {
    s.map_values(|m: Money| m.amount_spec())
}

/// A sum over one currency alone is the plain sum of the amounts there and
/// zero everywhere else.
pub proof fn lemma_msum_single_currency(s: Seq<Money>, c: int)
    requires
        forall|i: int| 0 <= i < s.len() ==> (#[trigger] s[i]).currency_spec().id_spec() == c,
    ensures
        msum(s)[c] == seq_sum(amounts_of(s)),
        forall|x: int| x != c ==> #[trigger] msum(s)[x] == 0,
    decreases s.len(),
{
    if s.len() == 0 {
    } else {
        assert forall|i: int| 0 <= i < s.drop_last().len() implies (
        #[trigger] s.drop_last()[i]).currency_spec().id_spec() == c by {
            assert(s.drop_last()[i] == s[i]);
        }
        lemma_msum_single_currency(s.drop_last(), c);
        assert(s[s.len() - 1] == s.last());
        assert(amounts_of(s).drop_last() =~= amounts_of(s.drop_last()));
        assert(amounts_of(s).last() == s.last().amount_spec());
    }
}

/// Every currency is in a sum's domain.
pub proof fn lemma_msum_total(s: Seq<Money>)
    ensures
        forall|c: int| #[trigger] msum(s).dom().contains(c),
    decreases s.len(),
{
    if s.len() > 0 {
        lemma_msum_total(s.drop_last());
        let prev = msum(s.drop_last());
        let cid = s.last().currency_spec().id_spec();
        assert(msum(s) == prev.insert(cid, prev[cid] + s.last().amount_spec()));
        assert forall|c: int| #[trigger] msum(s).dom().contains(c) by {
            assert(prev.dom().contains(c));
            assert(prev.insert(cid, prev[cid] + s.last().amount_spec()).dom() == prev.dom().insert(
                cid,
            ));
        }
    } else {
        assert forall|c: int| #[trigger] vmap_zero().dom().contains(c) by {
            assert(Set::<int>::full().contains(c));
            assert(vmap_zero() == Set::<int>::full().mk_map(|c: int| 0int));
            assert(vmap_zero().dom() =~= Set::<int>::full());
        }
    }
}

/// A total map that agrees with a bag's view pointwise is that view.
pub proof fn lemma_valuable_ext(v: Valuable, m: Map<int, int>)
    requires
        forall|c: int| #[trigger] m.dom().contains(c),
        forall|c: int| #[trigger] m[c] == v@[c],
    ensures
        v@ == m,
{
    assert(v@ =~= m);
}

/// The view is exactly the entry lookup, currency by currency.
pub proof fn lemma_view_lookup(v: Valuable)
    ensures
        forall|c: int| #[trigger] v@[c] == entries_lookup(v.entry_seq(), c),
{
}

/// A sum of `n` well-formed amounts stays within `n` times the largest
/// mantissa, in every currency.
pub proof fn lemma_msum_bound(s: Seq<Money>)
    requires
        forall|i: int| 0 <= i < s.len() ==> (#[trigger] s[i]).wf(),
    ensures
        forall|c: int|
            -(s.len() * AMOUNT_MAX as int) <= #[trigger] msum(s)[c] <= s.len() * (
            AMOUNT_MAX as int),
    decreases s.len(),
{
    if s.len() == 0 {
    } else {
        assert forall|i: int| 0 <= i < s.drop_last().len() implies (#[trigger] s.drop_last()[i]).wf() by {
            assert(s.drop_last()[i] == s[i]);
        }
        lemma_msum_bound(s.drop_last());
        assert(s.last().wf());
        assert forall|c: int|
            -(s.len() * AMOUNT_MAX as int) <= #[trigger] msum(s)[c] <= s.len() * (
            AMOUNT_MAX as int) by {
            let prev = msum(s.drop_last());
            assert(-(s.drop_last().len() * AMOUNT_MAX as int) <= prev[c] <= s.drop_last().len()
                * (AMOUNT_MAX as int));
            assert((s.len() as int) * (AMOUNT_MAX as int) == (s.drop_last().len() as int) * (
            AMOUNT_MAX as int) + AMOUNT_MAX as int) by (nonlinear_arith)
                requires s.len() == s.drop_last().len() + 1;
        }
    }
}

/// The first matching entry gives the lookup's value.
pub proof fn lemma_lookup_found(s: Seq<(Currency, i128)>, i: int)
    requires
        0 <= i < s.len(),
        entries_distinct(s),
    ensures
        entries_lookup(s, s[i].0.id_spec()) == s[i].1,
    decreases i,
{
    if i > 0 {
        assert(s.skip(1)[i - 1] == s[i]);
        assert forall|a: int, b: int| #![auto]
            0 <= a < b < s.skip(1).len() implies s.skip(1)[a].0.id_spec() != s.skip(
            1,
        )[b].0.id_spec() by {
            assert(s.skip(1)[a] == s[a + 1]);
            assert(s.skip(1)[b] == s[b + 1]);
        }
        lemma_lookup_found(s.skip(1), i - 1);
    }
}

/// Without a matching entry the lookup is zero.
pub proof fn lemma_lookup_absent(s: Seq<(Currency, i128)>, c: int)
    requires
        forall|j: int| #![auto] 0 <= j < s.len() ==> s[j].0.id_spec() != c,
    ensures
        entries_lookup(s, c) == 0,
    decreases s.len(),
{
    if s.len() > 0 {
        assert forall|j: int| #![auto]
            0 <= j < s.skip(1).len() implies s.skip(1)[j].0.id_spec() != c by {
            assert(s.skip(1)[j] == s[j + 1]);
        }
        lemma_lookup_absent(s.skip(1), c);
    }
}

/// A non-zero lookup points at some entry holding exactly that value.
pub proof fn lemma_lookup_by_index(s: Seq<(Currency, i128)>, c: int)
    ensures
        entries_lookup(s, c) == 0 || exists|i: int|
            0 <= i < s.len() && (#[trigger] s[i].0.id_spec()) == c && s[i].1 == entries_lookup(
                s,
                c,
            ),
    decreases s.len(),
{
    if s.len() > 0 && s[0].0.id_spec() != c {
        lemma_lookup_by_index(s.skip(1), c);
        if entries_lookup(s.skip(1), c) != 0 {
            let i = choose|i: int|
                0 <= i < s.skip(1).len() && (#[trigger] s.skip(1)[i].0.id_spec()) == c && s.skip(
                    1,
                )[i].1 == entries_lookup(s.skip(1), c);
            assert(s[i + 1] == s.skip(1)[i]);
        }
    }
}

/// Replacing one entry's amount changes the lookup of that currency alone.
proof fn lemma_update_view(olds: Seq<(Currency, i128)>, at: int, news: Seq<(Currency, i128)>, v: i128)
    requires
        entries_distinct(olds),
        0 <= at < olds.len(),
        news == olds.update(at, (olds[at].0, v)),
    ensures
        entries_distinct(news),
        forall|x: int| #[trigger] entries_lookup(news, x) == (if x == olds[at].0.id_spec() {
            v as int
        } else {
            entries_lookup(olds, x)
        }),
{
    let cid = olds[at].0.id_spec();
    assert(entries_distinct(news)) by {
        assert forall|a: int, b: int| #![auto]
            0 <= a < b < news.len() implies news[a].0.id_spec() != news[b].0.id_spec() by {
            assert(news[a].0 == olds[a].0);
            assert(news[b].0 == olds[b].0);
        }
    }
    assert forall|x: int| #[trigger] entries_lookup(news, x) == (if x == cid {
        v as int
    } else {
        entries_lookup(olds, x)
    }) by {
        if x == cid {
            assert(news[at].0 == olds[at].0);
            lemma_lookup_found(news, at);
        } else {
            lemma_lookup_agrees(olds, news, x);
        }
    }
}

/// Removing an entry zeroes the lookup of its currency alone.
proof fn lemma_remove_view(olds: Seq<(Currency, i128)>, at: int, news: Seq<(Currency, i128)>)
    requires
        entries_distinct(olds),
        0 <= at < olds.len(),
        news == olds.remove(at),
    ensures
        entries_distinct(news),
        forall|x: int| #[trigger] entries_lookup(news, x) == (if x == olds[at].0.id_spec() {
            0int
        } else {
            entries_lookup(olds, x)
        }),
{
    let cid = olds[at].0.id_spec();
    assert forall|j: int| #![auto] 0 <= j < news.len() implies news[j] == (if j < at {
        olds[j]
    } else {
        olds[j + 1]
    }) by {}
    assert(entries_distinct(news)) by {
        assert forall|a: int, b: int| #![auto]
            0 <= a < b < news.len() implies news[a].0.id_spec() != news[b].0.id_spec() by {}
    }
    assert forall|x: int| #[trigger] entries_lookup(news, x) == (if x == cid {
        0int
    } else {
        entries_lookup(olds, x)
    }) by {
        if x == cid {
            assert forall|j: int| #![auto] 0 <= j < news.len() implies news[j].0.id_spec() != x
                by {}
            lemma_lookup_absent(news, x);
        } else {
            if exists|j: int| 0 <= j < olds.len() && (#[trigger] olds[j].0.id_spec()) == x {
                let j = choose|j: int| 0 <= j < olds.len() && (#[trigger] olds[j].0.id_spec())
                    == x;
                lemma_lookup_found(olds, j);
                if j < at {
                    lemma_lookup_found(news, j);
                } else {
                    assert(j > at);
                    lemma_lookup_found(news, j - 1);
                }
            } else {
                assert forall|j: int| #![auto]
                    0 <= j < olds.len() implies olds[j].0.id_spec() != x by {}
                lemma_lookup_absent(olds, x);
                assert forall|j: int| #![auto]
                    0 <= j < news.len() implies news[j].0.id_spec() != x by {}
                lemma_lookup_absent(news, x);
            }
        }
    }
}

/// Appending a fresh currency sets its lookup and keeps the others.
proof fn lemma_push_view(olds: Seq<(Currency, i128)>, news: Seq<(Currency, i128)>)
    requires
        entries_distinct(olds),
        news.len() == olds.len() + 1,
        news.take(olds.len() as int) == olds,
        forall|j: int| #![auto]
            0 <= j < olds.len() ==> olds[j].0.id_spec() != news.last().0.id_spec(),
    ensures
        entries_distinct(news),
        forall|x: int| #[trigger] entries_lookup(news, x) == (if x == news.last().0.id_spec() {
            news.last().1 as int
        } else {
            entries_lookup(olds, x)
        }),
{
    let cid = news.last().0.id_spec();
    assert forall|j: int| #![auto] 0 <= j < olds.len() implies news[j] == olds[j] by {
        assert(news.take(olds.len() as int)[j] == news[j]);
    }
    assert(entries_distinct(news)) by {
        assert forall|a: int, b: int| #![auto]
            0 <= a < b < news.len() implies news[a].0.id_spec() != news[b].0.id_spec() by {}
    }
    assert forall|x: int| #[trigger] entries_lookup(news, x) == (if x == cid {
        news.last().1 as int
    } else {
        entries_lookup(olds, x)
    }) by {
        if x == cid {
            lemma_lookup_found(news, news.len() - 1);
        } else {
            if exists|j: int| 0 <= j < olds.len() && (#[trigger] olds[j].0.id_spec()) == x {
                let j = choose|j: int| 0 <= j < olds.len() && (#[trigger] olds[j].0.id_spec())
                    == x;
                lemma_lookup_found(olds, j);
                lemma_lookup_found(news, j);
            } else {
                assert forall|j: int| #![auto]
                    0 <= j < olds.len() implies olds[j].0.id_spec() != x by {}
                lemma_lookup_absent(olds, x);
                assert forall|j: int| #![auto]
                    0 <= j < news.len() implies news[j].0.id_spec() != x by {}
                lemma_lookup_absent(news, x);
            }
        }
    }
}

/// Lookups agree where entries carry the same currencies and the amounts of
/// the currency asked for are untouched.
proof fn lemma_lookup_agrees(s1: Seq<(Currency, i128)>, s2: Seq<(Currency, i128)>, c: int)
    requires
        s1.len() == s2.len(),
        forall|j: int| #![auto] 0 <= j < s1.len() ==> s1[j].0 == s2[j].0,
        forall|j: int| #![auto]
            0 <= j < s1.len() && s1[j].0.id_spec() == c ==> s1[j].1 == s2[j].1,
    ensures
        entries_lookup(s1, c) == entries_lookup(s2, c),
    decreases s1.len(),
{
    if s1.len() > 0 {
        assert forall|j: int| #![auto]
            0 <= j < s1.skip(1).len() implies s1.skip(1)[j].0 == s2.skip(1)[j].0 && (s1.skip(
            1,
        )[j].0.id_spec() == c ==> s1.skip(1)[j].1 == s2.skip(1)[j].1) by {
            assert(s1.skip(1)[j] == s1[j + 1]);
            assert(s2.skip(1)[j] == s2[j + 1]);
        }
        lemma_lookup_agrees(s1.skip(1), s2.skip(1), c);
    }
}

} // verus!
