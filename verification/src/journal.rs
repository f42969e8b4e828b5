//! The ledger: committed transactions and their postings.
//!
//! A transaction is built incrementally, may designate one account whose
//! amount is inferred, and is committed atomically; the store's invariant is
//! that every committed transaction's postings sum to zero in every currency.

use vstd::prelude::*;
use vstd::pervasive::unreached;

use crate::accn::{Accn, AccnTree, Contact};
use crate::currency::{Currency, CurrencyStore};
use crate::date::Date;
use crate::money::{amount_ok, Money, AMOUNT_MAX};
use crate::valuable::{
    entries_distinct, entries_lookup, i128_ok, is_zero_map, lemma_lookup_absent,
    lemma_lookup_found, lemma_msum_bound, msum, Valuable,
};

verus! {

/// An opaque transaction identity issued by the ledger.
#[derive(Clone, Copy, PartialEq, Eq, Structural, Debug)]
pub struct Txn {
    id: usize,
}

impl Txn {
    pub closed spec fn id_spec(self) -> int {
        self.id as int
    }
}

/// A transaction identity is a machine index.
pub proof fn lemma_txn_id_bound(t: Txn)
    ensures
        0 <= t.id_spec() <= usize::MAX,
{
}

/// One posting: an account and an amount, owned by one transaction.
#[derive(Clone, Copy)]
pub struct PostingRec {
    pub txn: usize,
    pub accn: Accn,
    pub money: Money,
}

/// One committed transaction's header.
pub struct TxnRec {
    pub date: Date,
    pub desc: String,
    pub live: bool,
}

/// Why a commit was refused.
#[derive(Clone, Copy, PartialEq, Eq, Structural, Debug)]
pub enum LedgerError {
    /// The postings do not sum to zero and no posting was left to infer.
    Unbalanced,
    /// More than one posting was designated as inferred.
    InferredPostingConflict,
}

/// The amounts of the postings belonging to transaction `t`, in order.
pub open spec fn txn_moneys(ps: Seq<PostingRec>, t: int) -> Seq<Money> {
    ps.filter(|p: PostingRec| p.txn as int == t).map_values(|p: PostingRec| p.money)
}

/// The amounts of a builder's explicit postings.
pub open spec fn pair_moneys(ps: Seq<(Accn, Money)>) -> Seq<Money> {
    ps.map_values(|pm: (Accn, Money)| pm.1)
}

pub struct Journal {
    pub(crate) accns: AccnTree,
    pub(crate) currencies: CurrencyStore,
    pub(crate) txns: Vec<TxnRec>,
    pub(crate) postings: Vec<PostingRec>,
}

impl Journal {
    pub closed spec fn accns_spec(self) -> AccnTree {
        self.accns
    }

    pub closed spec fn currencies_spec(self) -> CurrencyStore {
        self.currencies
    }

    pub closed spec fn txns_spec(self) -> Seq<TxnRec> {
        self.txns@
    }

    pub closed spec fn postings_spec(self) -> Seq<PostingRec> {
        self.postings@
    }

    /// The store's invariant: accounts and currencies are well formed, every
    /// posting refers into them and to its transaction, postings sit grouped
    /// in commit order, and every committed transaction balances.
    pub open spec fn wf(self) -> bool {
        &&& self.accns_spec().wf()
        &&& self.currencies_spec().wf()
        &&& forall|k: int|
            0 <= k < self.postings_spec().len() ==> (#[trigger] self.postings_spec()[k]).txn
                < self.txns_spec().len()
        &&& forall|k: int|
            0 <= k < self.postings_spec().len() ==> 1 <= (
            #[trigger] self.postings_spec()[k]).accn.id_spec() < self.accns_spec()@.len()
        &&& forall|k: int|
            0 <= k < self.postings_spec().len() ==> (#[trigger] self.postings_spec()[k]).money.wf()
                && self.currencies_spec().valid(self.postings_spec()[k].money.currency_spec())
        &&& forall|k1: int, k2: int| #![auto]
            0 <= k1 < k2 < self.postings_spec().len() ==> self.postings_spec()[k1].txn
                <= self.postings_spec()[k2].txn
        &&& forall|t: int|
            0 <= t < self.txns_spec().len() && (#[trigger] self.txns_spec()[t]).live
                ==> is_zero_map(msum(txn_moneys(self.postings_spec(), t)))
    }

    /// A fresh ledger over an account tree and a currency catalog.
    pub fn new(accns: AccnTree, currencies: CurrencyStore) -> (j: Journal)
        requires
            accns.wf(),
            currencies.wf(),
        ensures
            j.wf(),
            j.accns_spec() == accns,
            j.currencies_spec() == currencies,
            j.txns_spec().len() == 0,
            j.postings_spec().len() == 0,
    {
        Journal { accns, currencies, txns: Vec::new(), postings: Vec::new() }
    }

    pub fn accn_tree(&self) -> (t: &AccnTree)
        ensures
            *t == self.accns_spec(),
    {
        &self.accns
    }

    pub fn currency_store(&self) -> (c: &CurrencyStore)
        ensures
            *c == self.currencies_spec(),
    {
        &self.currencies
    }

    /// Opens (or finds) the account a path of segments names.
    pub fn open_accn_path(&mut self, segs: &Vec<String>) -> (r: Accn)
        requires
            old(self).wf(),
            segs@.len() >= 1,
        ensures
            final(self).wf(),
            final(self).accns_spec()@ == crate::accn::resolve_spec(
                old(self).accns_spec()@,
                crate::accn::seg_views(segs@),
            ).0,
            r.id_spec() == crate::accn::resolve_spec(
                old(self).accns_spec()@,
                crate::accn::seg_views(segs@),
            ).1,
            1 <= r.id_spec() < final(self).accns_spec()@.len(),
            final(self).currencies_spec() == old(self).currencies_spec(),
            final(self).txns_spec() == old(self).txns_spec(),
            final(self).postings_spec() == old(self).postings_spec(),
    {
        proof {
            crate::accn::lemma_resolve_round_trip(self.accns@, crate::accn::seg_views(segs@));
        }
        let r = self.accns.resolve_path(segs);
        proof {
            lemma_wf_unchanged_ledger(*self, *old(self));
        }
        r
    }

    /// Provisions a contact's payable and receivable accounts.
    pub fn provision_contact(&mut self, name: &str) -> (c: Contact)
        requires
            old(self).wf(),
        ensures
            final(self).wf(),
            final(self).accns_spec().valid(c.payable),
            final(self).accns_spec().valid(c.receivable),
            final(self).currencies_spec() == old(self).currencies_spec(),
            final(self).txns_spec() == old(self).txns_spec(),
            final(self).postings_spec() == old(self).postings_spec(),
            old(self).accns_spec()@.len() <= final(self).accns_spec()@.len(),
    {
        let ghost olda = self.accns@;
        let c = self.accns.provision_contact(name);
        proof {
            let at_name = "@"@ + name@;
            crate::accn::lemma_open_wf(olda, crate::accn::LIABILITY as int, at_name);
            let t1 = crate::accn::open_spec(olda, crate::accn::LIABILITY as int, at_name);
            crate::accn::lemma_open_wf(t1.0, t1.1, "payable"@);
            let t2 = crate::accn::open_spec(t1.0, t1.1, "payable"@);
            crate::accn::lemma_open_wf(t2.0, crate::accn::ASSET as int, at_name);
            let t3 = crate::accn::open_spec(t2.0, crate::accn::ASSET as int, at_name);
            crate::accn::lemma_open_wf(t3.0, t3.1, "receivable"@);
            lemma_wf_unchanged_ledger(*self, *old(self));
        }
        c
    }

    pub fn txn_count(&self) -> (n: usize)
        ensures
            n == self.txns_spec().len(),
    {
        self.txns.len()
    }

    pub fn posting_count(&self) -> (n: usize)
        ensures
            n == self.postings_spec().len(),
    {
        self.postings.len()
    }

    pub fn posting_at(&self, k: usize) -> (p: PostingRec)
        requires
            k < self.postings_spec().len(),
        ensures
            p == self.postings_spec()[k as int],
    {
        self.postings[k]
    }

    pub fn txn_date(&self, t: Txn) -> (d: Date)
        requires
            0 <= t.id_spec() < self.txns_spec().len(),
        ensures
            d == self.txns_spec()[t.id_spec()].date,
    {
        self.txns[t.id].date
    }

    pub fn txn_desc(&self, t: Txn) -> (d: &String)
        requires
            0 <= t.id_spec() < self.txns_spec().len(),
        ensures
            d == self.txns_spec()[t.id_spec()].desc,
    {
        &self.txns[t.id].desc
    }

    pub fn txn_live(&self, t: Txn) -> (l: bool)
        requires
            0 <= t.id_spec() < self.txns_spec().len(),
        ensures
            l == self.txns_spec()[t.id_spec()].live,
    {
        self.txns[t.id].live
    }

    /// A transaction handle for an index the contracts speak of.
    pub fn nth_txn(&self, i: usize) -> (t: Txn)
        requires
            i < self.txns_spec().len(),
        ensures
            t.id_spec() == i,
    {
        Txn { id: i }
    }

    /// Removes a committed transaction and all its postings from view; the
    /// accounts stay.
    pub fn remove(&mut self, t: Txn)
        requires
            old(self).wf(),
            0 <= t.id_spec() < old(self).txns_spec().len(),
        ensures
            final(self).wf(),
            final(self).txns_spec().len() == old(self).txns_spec().len(),
            !final(self).txns_spec()[t.id_spec()].live,
            forall|q: int|
                0 <= q < old(self).txns_spec().len() && q != t.id_spec() ==> final(self).txns_spec()[q] == old(self).txns_spec()[q],
            final(self).txns_spec()[t.id_spec()].date == old(self).txns_spec()[t.id_spec()].date,
            final(self).txns_spec()[t.id_spec()].desc == old(self).txns_spec()[t.id_spec()].desc,
            final(self).postings_spec() == old(self).postings_spec(),
            final(self).accns_spec() == old(self).accns_spec(),
            final(self).currencies_spec() == old(self).currencies_spec(),
    {
        let rec = &self.txns[t.id];
        let date = rec.date;
        let desc = rec.desc.clone();
        self.txns.set(t.id, TxnRec { date, desc, live: false });
        proof {
            assert forall|tt: int|
                0 <= tt < self.txns@.len() && (#[trigger] self.txns@[tt]).live implies old(
                self,
            ).txns_spec()[tt].live by {
                if tt != t.id_spec() {
                    assert(self.txns@[tt] == old(self).txns_spec()[tt]);
                }
            }
            lemma_wf_unchanged_ledger(*self, *old(self));
        }
    }
}

/// Builds one transaction: explicit postings plus at most one account whose
/// amount is inferred at commit.
pub struct TxnBuilder {
    date: Date,
    desc: String,
    postings: Vec<(Accn, Money)>,
    inferred: Option<Accn>,
    conflict: bool,
}

/// The first explicit posting on the same account in the same currency, at
/// or after position `k`.
pub open spec fn find_combined(ps: Seq<(Accn, Money)>, accn: Accn, m: Money, k: int) -> Option<int>
    decreases ps.len() - k,
{
    if k < 0 || k >= ps.len() {
        None
    } else if ps[k].0 == accn && ps[k].1.currency_spec() == m.currency_spec() {
        Some(k)
    } else {
        find_combined(ps, accn, m, k + 1)
    }
}

impl TxnBuilder {
    pub closed spec fn date_spec(self) -> Date {
        self.date
    }

    pub closed spec fn desc_spec(self) -> Seq<char> {
        self.desc@
    }

    pub closed spec fn postings_spec(self) -> Seq<(Accn, Money)> {
        self.postings@
    }

    pub closed spec fn inferred_spec(self) -> Option<Accn> {
        self.inferred
    }

    pub closed spec fn conflict_spec(self) -> bool {
        self.conflict
    }

    /// Every posting's account and money live in the given ledger.
    pub open spec fn ok_for(self, j: Journal) -> bool {
        &&& forall|k: int|
            0 <= k < self.postings_spec().len() ==> 1 <= (
            #[trigger] self.postings_spec()[k]).0.id_spec() < j.accns_spec()@.len()
        &&& forall|k: int|
            0 <= k < self.postings_spec().len() ==> (#[trigger] self.postings_spec()[k]).1.wf()
                && j.currencies_spec().valid(self.postings_spec()[k].1.currency_spec())
        &&& match self.inferred_spec() {
            Some(a) => 1 <= a.id_spec() < j.accns_spec()@.len(),
            None => true,
        }
    }

    pub fn new(date: Date, desc: String) -> (b: TxnBuilder)
        ensures
            b.date_spec() == date,
            b.desc_spec() == desc@,
            b.postings_spec().len() == 0,
            b.inferred_spec() is None,
            !b.conflict_spec(),
    {
        TxnBuilder { date, desc, postings: Vec::new(), inferred: None, conflict: false }
    }

    /// Appends an explicit posting, or, given no amount, designates the
    /// account as the transaction's single inferred posting.  A second
    /// inferred designation is a conflict and commit will refuse it.
    pub fn with_posting(&mut self, accn: Accn, money: Option<Money>)
        ensures
            final(self).date_spec() == old(self).date_spec(),
            final(self).desc_spec() == old(self).desc_spec(),
            match money {
                Some(m) => final(self).postings_spec() == old(self).postings_spec().push((accn, m))
                    && final(self).inferred_spec() == old(self).inferred_spec() && final(self).conflict_spec() == old(self).conflict_spec(),
                None => final(self).postings_spec() == old(self).postings_spec() && final(self).inferred_spec() == Some(accn) && final(self).conflict_spec() == (old(self).conflict_spec() || old(self).inferred_spec() is Some),
            },
    {
        match money {
            Some(m) => {
                self.postings.push((accn, m));
            },
            None => {
                if self.inferred.is_some() {
                    self.conflict = true;
                }
                self.inferred = Some(accn);
            },
        }
    }

    /// Like `with_posting`, but an explicit amount merges into an existing
    /// posting on the same account and currency instead of duplicating it.
    pub fn with_posting_combined(&mut self, accn: Accn, money: Option<Money>)
        requires
            match money {
                Some(m) => match find_combined(old(self).postings_spec(), accn, m, 0) {
                    Some(i) => amount_ok(
                        old(self).postings_spec()[i].1.amount_spec() + m.amount_spec(),
                    ),
                    None => true,
                },
                None => true,
            },
        ensures
            final(self).date_spec() == old(self).date_spec(),
            final(self).desc_spec() == old(self).desc_spec(),
            match money {
                Some(m) => (match find_combined(old(self).postings_spec(), accn, m, 0) {
                    Some(i) => {
                        &&& final(self).postings_spec().len() == old(self).postings_spec().len()
                        &&& forall|q: int|
                            0 <= q < old(self).postings_spec().len() && q != i ==> final(self).postings_spec()[q] == old(self).postings_spec()[q]
                        &&& final(self).postings_spec()[i].0 == accn
                        &&& final(self).postings_spec()[i].1.currency_spec() == m.currency_spec()
                        &&& final(self).postings_spec()[i].1.amount_spec() == old(self).postings_spec()[i].1.amount_spec() + m.amount_spec()
                        &&& final(self).inferred_spec() == old(self).inferred_spec()
                        &&& final(self).conflict_spec() == old(self).conflict_spec()
                    },
                    None => final(self).postings_spec() == old(self).postings_spec().push(
                        (accn, m),
                    ) && final(self).inferred_spec() == old(self).inferred_spec() && final(self).conflict_spec() == old(self).conflict_spec(),
                }),
                None => final(self).postings_spec() == old(self).postings_spec() && final(self).inferred_spec() == Some(accn) && final(self).conflict_spec() == (old(self).conflict_spec() || old(self).inferred_spec() is Some),
            },
    {
        let m = match money {
            Some(m) => m,
            None => {
                if self.inferred.is_some() {
                    self.conflict = true;
                }
                self.inferred = Some(accn);
                return ;
            },
        };
        let n = self.postings.len();
        let mut i: usize = 0;
        while i < n
            invariant
                0 <= i <= n == self.postings@.len(),
                *self == *old(self),
                find_combined(self.postings@, accn, m, i as int) == find_combined(
                    self.postings@,
                    accn,
                    m,
                    0,
                ),
            decreases n - i,
        {
            let e = self.postings[i];
            let hit = e.0 == accn && e.1.eq_currency(&m);
            if hit {
                proof {
                    assert(find_combined(self.postings@, accn, m, i as int) == Some(i as int));
                }
                let merged = Money::new(e.1.amount() + m.amount(), m.currency());
                self.postings.set(i, (accn, merged));
                return ;
            }
            proof {
                assert(!(e.0 == accn && e.1.currency_spec() == m.currency_spec()));
            }
            i = i + 1;
        }
        self.postings.push((accn, m));
    }

    /// The explicit postings' imbalance: their sum over every currency.
    pub fn inbalance(&self) -> (v: Valuable)
        requires
            forall|k: int|
                0 <= k < self.postings_spec().len() ==> (#[trigger] self.postings_spec()[k]).1.wf(),
        ensures
            v.wf(),
            v@ == msum(pair_moneys(self.postings_spec())),
    {
        let n = self.postings.len();
        let mut v = Valuable::new();
        proof {
            assert(pair_moneys(self.postings@.take(0int)) =~= Seq::<Money>::empty());
        }
        let mut i: usize = 0;
        while i < n
            invariant
                0 <= i <= n == self.postings@.len(),
                v.wf(),
                v@ == msum(pair_moneys(self.postings@.take(i as int))),
            decreases n - i,
        {
            let m = self.postings[i].1;
            proof {
                let pm = pair_moneys(self.postings@.take(i as int));
                assert forall|q: int| 0 <= q < pm.len() implies (#[trigger] pm[q]).wf() by {
                    assert(self.postings@.take(i as int)[q] == self.postings_spec()[q]);
                    assert(pm[q] == self.postings_spec()[q].1);
                }
                lemma_msum_bound(pm);
                let cid = m.currency_spec().id_spec();
                assert(msum(pm)[cid] == v@[cid]);
                assert(m.wf()) by {
                    assert(m == self.postings_spec()[i as int].1);
                }
                assert(i128_ok(v@[cid] + m.amount_spec())) by {
                    assert(-(pm.len() * AMOUNT_MAX as int) <= msum(pm)[cid] <= pm.len() * (
                    AMOUNT_MAX as int));
                    assert(pm.len() * (AMOUNT_MAX as int) <= 0x1_0000_0000_0000_0000
                        * 1_000_000_000_000_000_000) by (nonlinear_arith)
                        requires 0 <= pm.len() <= 0x1_0000_0000_0000_0000;
                }
            }
            v.add_money(m);
            proof {
                assert(pair_moneys(self.postings@.take(i + 1)).drop_last() =~= pair_moneys(
                    self.postings@.take(i as int),
                ));
                assert(pair_moneys(self.postings@.take(i + 1)).last() == m);
            }
            i = i + 1;
        }
        proof {
            assert(self.postings@.take(n as int) =~= self.postings@);
        }
        v
    }

    /// Commits the transaction.  When the explicit postings are unbalanced
    /// and one inferred posting was designated, that account absorbs the
    /// exact imbalance, one posting per non-zero currency; with no inferred
    /// posting the commit fails and the ledger is untouched.  Success is
    /// atomic: either the transaction and all its postings appear, or
    /// nothing does.
    pub fn build(self, j: &mut Journal) -> (r: Result<Txn, LedgerError>)
        requires
            old(j).wf(),
            self.ok_for(*old(j)),
            forall|c: int|
                -(AMOUNT_MAX as int) <= #[trigger] msum(pair_moneys(self.postings_spec()))[c]
                    <= AMOUNT_MAX as int,
        ensures
            final(j).wf(),
            final(j).accns_spec() == old(j).accns_spec(),
            final(j).currencies_spec() == old(j).currencies_spec(),
            r is Err ==> final(j).txns_spec() == old(j).txns_spec() && final(j).postings_spec()
                == old(j).postings_spec(),
            r == Result::<Txn, LedgerError>::Err(LedgerError::InferredPostingConflict)
                <==> self.conflict_spec(),
            r == Result::<Txn, LedgerError>::Err(LedgerError::Unbalanced) <==> (
            !self.conflict_spec() && !is_zero_map(msum(pair_moneys(self.postings_spec())))
                && self.inferred_spec() is None),
            r is Ok ==> ({
                let t = r->Ok_0.id_spec();
                &&& t == old(j).txns_spec().len()
                &&& final(j).txns_spec().len() == old(j).txns_spec().len() + 1
                &&& forall|q: int|
                    0 <= q < old(j).txns_spec().len() ==> final(j).txns_spec()[q] == old(j).txns_spec()[q]
                &&& final(j).txns_spec().last().desc@ == self.desc_spec()
                &&& final(j).txns_spec().last().date == self.date_spec()
                &&& final(j).txns_spec().last().live
                &&& final(j).postings_spec().len() >= old(j).postings_spec().len()
                    + self.postings_spec().len()
                &&& final(j).postings_spec().take(old(j).postings_spec().len() as int) == old(j).postings_spec()
                &&& forall|k: int|
                    0 <= k < self.postings_spec().len() ==> final(j).postings_spec()[old(j).postings_spec().len() + k] == (PostingRec {
                        txn: old(j).txns_spec().len() as usize,
                        accn: (#[trigger] self.postings_spec()[k]).0,
                        money: self.postings_spec()[k].1,
                    })
                &&& forall|k: int|
                    old(j).postings_spec().len() + self.postings_spec().len() <= k < final(j).postings_spec().len() ==> (#[trigger] final(j).postings_spec()[k]).accn
                        == self.inferred_spec()->Some_0 && final(j).postings_spec()[k].txn as int
                        == t
                &&& forall|k: int|
                    old(j).postings_spec().len() + self.postings_spec().len() <= k < final(j).postings_spec().len() ==> (#[trigger] final(j).postings_spec()[k]).money.amount_spec()
                        == -msum(pair_moneys(self.postings_spec()))[final(j).postings_spec()[k].money.currency_spec().id_spec()]
                        && msum(pair_moneys(self.postings_spec()))[final(j).postings_spec()[k].money.currency_spec().id_spec()]
                        != 0
                &&& forall|k1: int, k2: int| #![auto]
                    old(j).postings_spec().len() + self.postings_spec().len() <= k1 < k2 < final(j).postings_spec().len() ==> final(j).postings_spec()[k1].money.currency_spec().id_spec()
                        != final(j).postings_spec()[k2].money.currency_spec().id_spec()
                &&& forall|c: int|
                    #[trigger] msum(pair_moneys(self.postings_spec()))[c] != 0 ==> exists|k: int|
                        old(j).postings_spec().len() + self.postings_spec().len() <= k < final(j).postings_spec().len() && (#[trigger] final(j).postings_spec()[k]).money.currency_spec().id_spec()
                            == c
                &&& (is_zero_map(msum(pair_moneys(self.postings_spec()))) ==> final(j).postings_spec().len() == old(j).postings_spec().len()
                    + self.postings_spec().len())
                &&& is_zero_map(msum(txn_moneys(final(j).postings_spec(), t)))
            }),
    {
        if self.conflict {
            return Err(LedgerError::InferredPostingConflict);
        }
        let v = self.inbalance();
        let balanced = v.is_zero();
        if !balanced && self.inferred.is_none() {
            return Err(LedgerError::Unbalanced);
        }
        let t: usize = j.txns.len();
        let ghost oldps = j.postings@;
        let ghost oldtxns = j.txns@;
        let TxnBuilder { date, desc, postings, inferred, conflict } = self;
        j.txns.push(TxnRec { date, desc, live: true });
        proof {
            assert(j.postings@ == old(j).postings_spec());
            assert forall|k: int|
                0 <= k < j.postings@.len() implies (#[trigger] j.postings@[k]).txn < t by {
                assert(old(j).postings_spec()[k].txn < old(j).txns_spec().len());
            }
            assert forall|k1: int, k2: int| #![auto]
                0 <= k1 < k2 < j.postings@.len() implies j.postings@[k1].txn
                <= j.postings@[k2].txn by {
                assert(old(j).postings_spec()[k1].txn <= old(j).postings_spec()[k2].txn);
            }
            lemma_txn_moneys_missing(j.postings@, t as int);
            assert(pair_moneys(postings@.take(0int)) =~= Seq::<Money>::empty());
            assert(txn_moneys(j.postings@, t as int) =~= pair_moneys(postings@.take(0int)));
            assert(j.postings@.take(oldps.len() as int) =~= oldps);
        }
        let n = postings.len();
        let mut i: usize = 0;
        while i < n
            invariant
                0 <= i <= n == postings@.len(),
                j.txns@ == oldtxns.push(TxnRec { date, desc, live: true }),
                t == oldtxns.len(),
                j.accns == old(j).accns_spec(),
                j.currencies == old(j).currencies_spec(),
                j.postings@.len() == oldps.len() + i,
                j.postings@.take(oldps.len() as int) == oldps,
                forall|k: int|
                    0 <= k < i ==> j.postings@[oldps.len() + k] == (PostingRec {
                        txn: t,
                        accn: (#[trigger] postings@[k]).0,
                        money: postings@[k].1,
                    }),
                txn_moneys(j.postings@, t as int) == pair_moneys(postings@.take(i as int)),
                forall|tt: int|
                    0 <= tt < t ==> txn_moneys(j.postings@, tt) == txn_moneys(oldps, tt),
                forall|k1: int, k2: int| #![auto]
                    0 <= k1 < k2 < j.postings@.len() ==> j.postings@[k1].txn
                        <= j.postings@[k2].txn,
                forall|k: int|
                    0 <= k < j.postings@.len() ==> (#[trigger] j.postings@[k]).txn <= t,
                forall|k: int|
                    0 <= k < j.postings@.len() ==> 1 <= (#[trigger] j.postings@[k]).accn.id_spec()
                        < j.accns@.len(),
                forall|k: int|
                    0 <= k < j.postings@.len() ==> (#[trigger] j.postings@[k]).money.wf()
                        && j.currencies.valid(j.postings@[k].money.currency_spec()),
            decreases n - i,
        {
            let e = postings[i];
            let p = PostingRec { txn: t, accn: e.0, money: e.1 };
            proof {
                lemma_txn_moneys_push(j.postings@, p, t as int);
                assert forall|tt: int|
                    0 <= tt < t implies txn_moneys(j.postings@.push(p), tt) == txn_moneys(
                    oldps,
                    tt,
                ) by {
                    lemma_txn_moneys_push(j.postings@, p, tt);
                }
                assert(j.postings@.push(p).take(oldps.len() as int) =~= oldps);
                assert(pair_moneys(postings@.take(i as int)).push(e.1) =~= pair_moneys(
                    postings@.take(i + 1),
                ));
            }
            j.postings.push(p);
            i = i + 1;
        }
        proof {
            assert(postings@.take(n as int) =~= postings@);
        }
        if !balanced {
            let a = match inferred {
                Some(a) => a,
                None => unreached(),
            };
            let ghost basis = j.postings@;
            proof {
                assert(v.entry_seq().take(0int) =~= Seq::<(Currency, i128)>::empty());
            }
            let en = v.entry_count();
            let mut k: usize = 0;
            while k < en
                invariant
                    0 <= k <= en == v.entry_seq().len(),
                    v.wf(),
                    v@ == msum(pair_moneys(postings@)),
                    forall|c: int| -(AMOUNT_MAX as int) <= #[trigger] v@[c] <= AMOUNT_MAX as int,
                    1 <= a.id_spec() < j.accns@.len(),
                    j.txns@ == oldtxns.push(TxnRec { date, desc, live: true }),
                    t == oldtxns.len(),
                    j.accns == old(j).accns_spec(),
                    j.currencies == old(j).currencies_spec(),
                    j.postings@.len() == basis.len() + k,
                    j.postings@.take(basis.len() as int) == basis,
                    basis.take(oldps.len() as int) == oldps,
                    basis.len() == oldps.len() + postings@.len(),
                    forall|q: int|
                        0 <= q < postings@.len() ==> j.postings@[oldps.len() + q] == (PostingRec {
                            txn: t,
                            accn: (#[trigger] postings@[q]).0,
                            money: postings@[q].1,
                        }),
                    forall|q: int|
                        basis.len() <= q < j.postings@.len() ==> (#[trigger] j.postings@[q]).accn
                            == a && j.postings@[q].txn == t && j.postings@[
                            q].money.currency_spec() == v.entry_seq()[q - basis.len()].0
                            && j.postings@[q].money.amount_spec() == -(v.entry_seq()[q
                            - basis.len()].1 as int),
                    forall|tt: int|
                        0 <= tt < t ==> txn_moneys(j.postings@, tt) == txn_moneys(oldps, tt),
                    forall|k1: int, k2: int| #![auto]
                        0 <= k1 < k2 < j.postings@.len() ==> j.postings@[k1].txn
                            <= j.postings@[k2].txn,
                    forall|q: int|
                        0 <= q < j.postings@.len() ==> (#[trigger] j.postings@[q]).txn <= t,
                    forall|q: int|
                        0 <= q < j.postings@.len() ==> 1 <= (
                        #[trigger] j.postings@[q]).accn.id_spec() < j.accns@.len(),
                    forall|q: int|
                        0 <= q < j.postings@.len() ==> (#[trigger] j.postings@[q]).money.wf()
                            && j.currencies.valid(j.postings@[q].money.currency_spec()),
                    forall|c: int|
                        #[trigger] msum(txn_moneys(j.postings@, t as int))[c] == v@[c]
                            - entries_lookup(v.entry_seq().take(k as int), c),
                decreases en - k,
            {
                let e = v.entry_at(k);
                let ghost cid = e.0.id_spec();
                proof {
                    v.lemma_entries();
                    assert(v@[cid] == e.1 as int);
                    assert(amount_ok(e.1 as int));
                    assert(j.currencies.valid(e.0)) by {
                        lemma_currency_from_sum(v, postings@, k as int, *old(j));
                    }
                }
                let neg_amount: i64 = -(e.1 as i64);
                let m = Money::new(neg_amount, e.0);
                let p = PostingRec { txn: t, accn: a, money: m };
                let ghost tm = txn_moneys(j.postings@, t as int);
                proof {
                    lemma_txn_moneys_push(j.postings@, p, t as int);
                    assert forall|tt: int|
                        0 <= tt < t implies txn_moneys(j.postings@.push(p), tt) == txn_moneys(
                        oldps,
                        tt,
                    ) by {
                        lemma_txn_moneys_push(j.postings@, p, tt);
                    }
                    assert(j.postings@.push(p).take(basis.len() as int) =~= basis);
                    assert forall|c: int|
                        #[trigger] entries_lookup(v.entry_seq().take(k + 1), c) == entries_lookup(
                        v.entry_seq().take(k as int),
                        c,
                    ) + (if c == cid { e.1 as int } else { 0int }) by {
                        lemma_take_lookup_step(v.entry_seq(), k as int, c);
                    }
                    assert(msum(tm.push(m)) == msum(tm).insert(
                        cid,
                        msum(tm)[cid] + m.amount_spec(),
                    )) by {
                        assert(tm.push(m).drop_last() =~= tm);
                    }
                }
                j.postings.push(p);
                k = k + 1;
            }
            proof {
                assert(v.entry_seq().take(en as int) =~= v.entry_seq());
                crate::valuable::lemma_view_lookup(v);
                assert forall|c: int| #[trigger] msum(txn_moneys(j.postings@, t as int))[c]
                    == 0 by {
                    assert(entries_lookup(v.entry_seq(), c) == v@[c]);
                }
                lemma_journal_wf_after(*j, t as int, oldps, oldtxns);
                assert(j.postings@.take(oldps.len() as int) =~= oldps) by {
                    assert forall|q: int| 0 <= q < oldps.len() implies j.postings@[q] == oldps[q]
                        by {
                        assert(j.postings@.take(basis.len() as int)[q] == j.postings@[q]);
                        assert(basis.take(oldps.len() as int)[q] == basis[q]);
                    }
                }
                // the suffix is exactly one posting per non-zero currency,
                // with the negated imbalance as its amount
                let suffix_base = oldps.len() + postings@.len();
                v.lemma_entries();
                assert forall|q: int|
                    suffix_base <= q < j.postings@.len() implies (
                #[trigger] j.postings@[q]).money.amount_spec() == -msum(pair_moneys(postings@))[
                    j.postings@[q].money.currency_spec().id_spec()] && msum(pair_moneys(
                    postings@,
                ))[j.postings@[q].money.currency_spec().id_spec()] != 0 by {
                    let ent = v.entry_seq()[q - basis.len()];
                    assert(v@[ent.0.id_spec()] == ent.1);
                    assert(ent.1 != 0);
                }
                assert forall|k1: int, k2: int| #![auto]
                    suffix_base <= k1 < k2 < j.postings@.len() implies j.postings@[
                k1].money.currency_spec().id_spec() != j.postings@[
                k2].money.currency_spec().id_spec() by {
                    assert(v.entry_seq()[k1 - basis.len()].0.id_spec() != v.entry_seq()[k2
                        - basis.len()].0.id_spec());
                }
                assert forall|c: int|
                    #[trigger] msum(pair_moneys(postings@))[c] != 0 implies exists|q: int|
                        suffix_base <= q < j.postings@.len() && (
                        #[trigger] j.postings@[q]).money.currency_spec().id_spec() == c by {
                    assert(entries_lookup(v.entry_seq(), c) != 0);
                    crate::valuable::lemma_lookup_by_index(v.entry_seq(), c);
                    let i = choose|i: int|
                        0 <= i < v.entry_seq().len() && (
                        #[trigger] v.entry_seq()[i].0.id_spec()) == c && v.entry_seq()[i].1
                            == entries_lookup(v.entry_seq(), c);
                    assert(j.postings@[basis.len() + i].money.currency_spec()
                        == v.entry_seq()[i].0);
                }
            }
            Ok(Txn { id: t })
        } else {
            proof {
                assert forall|c: int| #[trigger] msum(txn_moneys(j.postings@, t as int))[c]
                    == 0 by {}
                lemma_journal_wf_after(*j, t as int, oldps, oldtxns);
            }
            Ok(Txn { id: t })
        }
    }
}

/// Each currency in the explicit postings' sum is one that some posting
/// carries, and so is registered in the ledger's catalog.
proof fn lemma_currency_from_sum(v: Valuable, ps: Seq<(Accn, Money)>, k: int, j: Journal)
    requires
        v.wf(),
        v@ == msum(pair_moneys(ps)),
        0 <= k < v.entry_seq().len(),
        forall|q: int|
            0 <= q < ps.len() ==> j.currencies_spec().valid((#[trigger] ps[q]).1.currency_spec()),
    ensures
        j.currencies_spec().valid(v.entry_seq()[k].0),
{
    v.lemma_entries();
    let cid = v.entry_seq()[k].0.id_spec();
    assert(v@[cid] == v.entry_seq()[k].1);
    assert(v.entry_seq()[k].1 != 0);
    lemma_msum_support(pair_moneys(ps), cid);
    let q = choose|q: int|
        0 <= q < pair_moneys(ps).len() && (#[trigger] pair_moneys(ps)[q]).currency_spec().id_spec()
            == cid;
    assert(pair_moneys(ps)[q] == ps[q].1);
    crate::currency::lemma_currency_eq(ps[q].1.currency_spec(), v.entry_seq()[k].0);
}

/// A currency with a non-zero sum is carried by some summand.
proof fn lemma_msum_support(s: Seq<Money>, c: int)
    requires
        msum(s)[c] != 0,
    ensures
        exists|q: int|
            0 <= q < s.len() && (#[trigger] s[q]).currency_spec().id_spec() == c,
    decreases s.len(),
{
    if s.len() > 0 {
        if s.last().currency_spec().id_spec() == c {
            assert(s[s.len() - 1] == s.last());
        } else {
            assert(msum(s)[c] == msum(s.drop_last())[c]);
            lemma_msum_support(s.drop_last(), c);
            let q = choose|q: int|
                0 <= q < s.drop_last().len() && (
                #[trigger] s.drop_last()[q]).currency_spec().id_spec() == c;
            assert(s[q] == s.drop_last()[q]);
        }
    } else {
        assert(msum(s)[c] == 0);
    }
}

/// With no posting on the account, there is nothing to combine into.
pub proof fn lemma_find_combined_none(ps: Seq<(Accn, Money)>, accn: Accn, m: Money, k: int)
    requires
        forall|q: int| 0 <= q < ps.len() ==> (#[trigger] ps[q]).0 != accn,
        0 <= k,
    ensures
        find_combined(ps, accn, m, k) is None,
    decreases ps.len() - k,
{
    if k < ps.len() {
        lemma_find_combined_none(ps, accn, m, k + 1);
    }
}

/// A lookup over one more entry grows by exactly that entry's amount, the
/// entries' currencies being distinct.
proof fn lemma_take_lookup_step(s: Seq<(Currency, i128)>, k: int, c: int)
    requires
        entries_distinct(s),
        0 <= k < s.len(),
    ensures
        entries_lookup(s.take(k + 1), c) == entries_lookup(s.take(k), c) + (if c == s[
            k].0.id_spec() {
            s[k].1 as int
        } else {
            0int
        }),
{
    let pre = s.take(k);
    let cur = s.take(k + 1);
    if c == s[k].0.id_spec() {
        assert forall|q: int| #![auto] 0 <= q < pre.len() implies pre[q].0.id_spec() != c by {}
        lemma_lookup_absent(pre, c);
        assert(entries_distinct(cur)) by {
            assert forall|x: int, y: int| #![auto]
                0 <= x < y < cur.len() implies cur[x].0.id_spec() != cur[y].0.id_spec() by {}
        }
        lemma_lookup_found(cur, k);
    } else {
        if exists|q: int| 0 <= q < pre.len() && (#[trigger] pre[q].0.id_spec()) == c {
            let q = choose|q: int| 0 <= q < pre.len() && (#[trigger] pre[q].0.id_spec()) == c;
            assert(entries_distinct(pre)) by {
                assert forall|x: int, y: int| #![auto]
                    0 <= x < y < pre.len() implies pre[x].0.id_spec() != pre[y].0.id_spec() by {}
            }
            assert(entries_distinct(cur)) by {
                assert forall|x: int, y: int| #![auto]
                    0 <= x < y < cur.len() implies cur[x].0.id_spec() != cur[y].0.id_spec() by {}
            }
            lemma_lookup_found(pre, q);
            lemma_lookup_found(cur, q);
        } else {
            assert forall|q: int| #![auto] 0 <= q < pre.len() implies pre[q].0.id_spec() != c
                by {}
            lemma_lookup_absent(pre, c);
            assert forall|q: int| #![auto] 0 <= q < cur.len() implies cur[q].0.id_spec() != c by {
                if q < k {
                    assert(cur[q] == pre[q]);
                }
            }
            lemma_lookup_absent(cur, c);
        }
    }
}

/// A transaction yet to be issued has no postings.
proof fn lemma_txn_moneys_missing(ps: Seq<PostingRec>, t: int)
    requires
        forall|k: int| 0 <= k < ps.len() ==> (#[trigger] ps[k]).txn < t,
    ensures
        txn_moneys(ps, t) == Seq::<Money>::empty(),
    decreases ps.len(),
{
    reveal(Seq::filter);
    if ps.len() > 0 {
        assert forall|k: int| 0 <= k < ps.drop_last().len() implies (
        #[trigger] ps.drop_last()[k]).txn < t by {
            assert(ps.drop_last()[k] == ps[k]);
        }
        lemma_txn_moneys_missing(ps.drop_last(), t);
        assert(ps.filter(|p: PostingRec| p.txn as int == t) == ps.drop_last().filter(
            |p: PostingRec| p.txn as int == t,
        ));
    } else {
        assert(ps.filter(|p: PostingRec| p.txn as int == t) =~= Seq::<PostingRec>::empty());
    }
    assert(txn_moneys(ps, t) =~= Seq::<Money>::empty());
}

/// Appending a posting extends exactly its own transaction's amounts.
proof fn lemma_txn_moneys_push(ps: Seq<PostingRec>, p: PostingRec, t: int)
    ensures
        p.txn as int == t ==> txn_moneys(ps.push(p), t) == txn_moneys(ps, t).push(p.money),
        p.txn as int != t ==> txn_moneys(ps.push(p), t) == txn_moneys(ps, t),
{
    reveal(Seq::filter);
    let pred = |q: PostingRec| q.txn as int == t;
    assert(ps.push(p).drop_last() =~= ps);
    assert(ps.push(p).last() == p);
    if p.txn as int == t {
        assert(ps.push(p).filter(pred) == ps.filter(pred).push(p));
        assert(ps.filter(pred).push(p).map_values(|q: PostingRec| q.money) =~= ps.filter(
            pred,
        ).map_values(|q: PostingRec| q.money).push(p.money));
    } else {
        assert(ps.push(p).filter(pred) == ps.filter(pred));
    }
}

/// Packaging of the commit proof: with the new transaction balanced and all
/// older ones untouched, the extended ledger is well formed.
proof fn lemma_journal_wf_after(j: Journal, t: int, oldps: Seq<PostingRec>, oldtxns: Seq<TxnRec>)
    requires
        j.accns_spec().wf(),
        j.currencies_spec().wf(),
        j.txns_spec().len() == oldtxns.len() + 1,
        t == oldtxns.len(),
        forall|q: int| 0 <= q < oldtxns.len() ==> j.txns_spec()[q] == oldtxns[q],
        j.txns_spec().last().live,
        forall|k: int|
            0 <= k < j.postings_spec().len() ==> (#[trigger] j.postings_spec()[k]).txn <= t,
        forall|k: int|
            0 <= k < j.postings_spec().len() ==> 1 <= (
            #[trigger] j.postings_spec()[k]).accn.id_spec() < j.accns_spec()@.len(),
        forall|k: int|
            0 <= k < j.postings_spec().len() ==> (#[trigger] j.postings_spec()[k]).money.wf()
                && j.currencies_spec().valid(j.postings_spec()[k].money.currency_spec()),
        forall|k1: int, k2: int| #![auto]
            0 <= k1 < k2 < j.postings_spec().len() ==> j.postings_spec()[k1].txn
                <= j.postings_spec()[k2].txn,
        forall|tt: int|
            0 <= tt < t ==> txn_moneys(j.postings_spec(), tt) == txn_moneys(oldps, tt),
        forall|tt: int|
            0 <= tt < oldtxns.len() && (#[trigger] oldtxns[tt]).live ==> is_zero_map(
                msum(txn_moneys(oldps, tt)),
            ),
        is_zero_map(msum(txn_moneys(j.postings_spec(), t))),
    ensures
        j.wf(),
{
    assert forall|tt: int|
        0 <= tt < j.txns_spec().len() && (#[trigger] j.txns_spec()[tt]).live implies is_zero_map(
        msum(txn_moneys(j.postings_spec(), tt))) by {
        if tt < t {
            assert(j.txns_spec()[tt] == oldtxns[tt]);
        }
    }
    assert forall|k: int|
        0 <= k < j.postings_spec().len() implies (#[trigger] j.postings_spec()[k]).txn
        < j.txns_spec().len() by {}
}

/// A ledger whose transactions and postings are untouched stays well formed
/// when its account tree only grows and no dead transaction comes back.
proof fn lemma_wf_unchanged_ledger(j: Journal, oldj: Journal)
    requires
        oldj.wf(),
        j.accns_spec().wf(),
        j.accns_spec()@.len() >= oldj.accns_spec()@.len(),
        j.currencies_spec() == oldj.currencies_spec(),
        j.postings_spec() == oldj.postings_spec(),
        j.txns_spec().len() == oldj.txns_spec().len(),
        forall|tt: int|
            0 <= tt < j.txns_spec().len() && (#[trigger] j.txns_spec()[tt]).live
                ==> oldj.txns_spec()[tt].live,
    ensures
        j.wf(),
{
    assert forall|k: int|
        0 <= k < j.postings_spec().len() implies (#[trigger] j.postings_spec()[k]).txn
        < j.txns_spec().len() by {
        assert(oldj.postings_spec()[k].txn < oldj.txns_spec().len());
    }
    assert forall|k: int|
        0 <= k < j.postings_spec().len() implies 1 <= (
    #[trigger] j.postings_spec()[k]).accn.id_spec() < j.accns_spec()@.len() by {
        assert(1 <= oldj.postings_spec()[k].accn.id_spec() < oldj.accns_spec()@.len());
    }
    assert forall|k: int|
        0 <= k < j.postings_spec().len() implies (#[trigger] j.postings_spec()[k]).money.wf()
        && j.currencies_spec().valid(j.postings_spec()[k].money.currency_spec()) by {
        assert(oldj.postings_spec()[k].money.wf());
        assert(oldj.currencies_spec().valid(oldj.postings_spec()[k].money.currency_spec()));
    }
    assert forall|k1: int, k2: int| #![auto]
        0 <= k1 < k2 < j.postings_spec().len() implies j.postings_spec()[k1].txn
        <= j.postings_spec()[k2].txn by {
        assert(oldj.postings_spec()[k1].txn <= oldj.postings_spec()[k2].txn);
    }
    assert forall|tt: int|
        0 <= tt < j.txns_spec().len() && (#[trigger] j.txns_spec()[tt]).live implies is_zero_map(
        msum(txn_moneys(j.postings_spec(), tt))) by {
        assert(oldj.txns_spec()[tt].live);
        assert(is_zero_map(msum(txn_moneys(oldj.postings_spec(), tt))));
    }
}

/// Every committed transaction's postings sum to zero in every currency:
/// the ledger's balance invariant.
pub proof fn lemma_committed_balanced(j: Journal, t: int)
    requires
        j.wf(),
        0 <= t < j.txns_spec().len(),
        j.txns_spec()[t].live,
    ensures
        is_zero_map(msum(txn_moneys(j.postings_spec(), t))),
{
}

} // verus!

