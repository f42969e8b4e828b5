//! The query and aggregation engine: a small filter algebra over postings,
//! and the statements built from the matches — totals, per-day changes with
//! gap filling, and running daily balances.

use vstd::prelude::*;

use crate::accn::{in_ancestors, Accn, AccnNodeV};
use crate::date::Date;
use crate::journal::{Journal, PostingRec, TxnRec};
use crate::money::{Money, AMOUNT_MAX};
use vstd::multiset::Multiset;

use crate::valuable::{i128_ok, lemma_msum_bound, msum, vmap_zero, Valuable};

verus! {

/// The filter algebra: by account (descendant-or-self), by several accounts,
/// by date bounds, and conjunction.
pub enum Query {
    All,
    Account(Accn),
    Accounts(Vec<Accn>),
    Since(Date),
    Until(Date),
    And(Box<Query>, Box<Query>),
}

impl Query {
    pub fn new() -> (q: Query)
        ensures
            q == Query::All,
    {
        Query::All
    }

    pub fn accn(self, a: Accn) -> (q: Query)
        ensures
            q == Query::And(Box::new(self), Box::new(Query::Account(a))),
    {
        Query::And(Box::new(self), Box::new(Query::Account(a)))
    }

    pub fn accns(list: Vec<Accn>) -> (q: Query)
        ensures
            q == Query::Accounts(list),
    {
        Query::Accounts(list)
    }

    pub fn since(self, d: Date) -> (q: Query)
        ensures
            q == Query::And(Box::new(self), Box::new(Query::Since(d))),
    {
        Query::And(Box::new(self), Box::new(Query::Since(d)))
    }

    pub fn until(self, d: Date) -> (q: Query)
        ensures
            q == Query::And(Box::new(self), Box::new(Query::Until(d))),
    {
        Query::And(Box::new(self), Box::new(Query::Until(d)))
    }
}

/// Every account a query names exists in the tree.
pub open spec fn q_wf(nodes: Seq<AccnNodeV>, q: Query) -> bool
    decreases q,
{
    match q {
        Query::All => true,
        Query::Account(a) => 0 <= a.id_spec() < nodes.len(),
        Query::Accounts(list) => forall|k: int|
            0 <= k < list@.len() ==> 0 <= (#[trigger] list@[k]).id_spec() < nodes.len(),
        Query::Since(d) => true,
        Query::Until(d) => true,
        Query::And(a, b) => q_wf(nodes, *a) && q_wf(nodes, *b),
    }
}

/// Does a posting on account `accn`, dated `date`, answer the query?
pub open spec fn q_matches(nodes: Seq<AccnNodeV>, q: Query, accn: int, date: Date) -> bool
    decreases q,
{
    match q {
        Query::All => true,
        Query::Account(a) => accn == a.id_spec() || in_ancestors(nodes, accn, a.id_spec()),
        Query::Accounts(list) => exists|k: int|
            0 <= k < list@.len() && (accn == (#[trigger] list@[k]).id_spec() || in_ancestors(
                nodes,
                accn,
                list@[k].id_spec(),
            )),
        Query::Since(d) => d.day_spec() <= date.day_spec(),
        Query::Until(d) => date.day_spec() <= d.day_spec(),
        Query::And(a, b) => q_matches(nodes, *a, accn, date) && q_matches(nodes, *b, accn, date),
    }
}

/// The tightest lower date bound a query promises, if any.
pub open spec fn q_since(q: Query) -> Option<int>
    decreases q,
{
    match q {
        Query::Since(d) => Some(d.day_spec()),
        Query::And(a, b) => opt_max(q_since(*a), q_since(*b)),
        _ => None,
    }
}

/// The tightest upper date bound a query promises, if any.
pub open spec fn q_until(q: Query) -> Option<int>
    decreases q,
{
    match q {
        Query::Until(d) => Some(d.day_spec()),
        Query::And(a, b) => opt_min(q_until(*a), q_until(*b)),
        _ => None,
    }
}

pub open spec fn opt_max(a: Option<int>, b: Option<int>) -> Option<int> {
    match (a, b) {
        (Some(x), Some(y)) => Some(if x >= y { x } else { y }),
        (Some(x), None) => Some(x),
        (None, Some(y)) => Some(y),
        (None, None) => None,
    }
}

pub open spec fn opt_min(a: Option<int>, b: Option<int>) -> Option<int> {
    match (a, b) {
        (Some(x), Some(y)) => Some(if x <= y { x } else { y }),
        (Some(x), None) => Some(x),
        (None, Some(y)) => Some(y),
        (None, None) => None,
    }
}

/// A date bound promised by the query really holds of every match.
pub proof fn lemma_q_bounds(nodes: Seq<AccnNodeV>, q: Query, accn: int, date: Date)
    requires
        q_matches(nodes, q, accn, date),
    ensures
        q_since(q) is Some ==> q_since(q)->Some_0 <= date.day_spec(),
        q_until(q) is Some ==> date.day_spec() <= q_until(q)->Some_0,
    decreases q,
{
    match q {
        Query::And(a, b) => {
            lemma_q_bounds(nodes, *a, accn, date);
            lemma_q_bounds(nodes, *b, accn, date);
        },
        _ => {},
    }
}

/// One matched posting, carrying its transaction's identity and date.
#[derive(Clone, Copy)]
pub struct Hit {
    pub txn: usize,
    pub date: Date,
    pub accn: Accn,
    pub money: Money,
}

/// Does a posting of the ledger answer the query (and belong to a live
/// transaction)?
pub open spec fn posting_hits(
    txns: Seq<TxnRec>,
    nodes: Seq<AccnNodeV>,
    q: Query,
    p: PostingRec,
) -> bool {
    &&& p.txn < txns.len()
    &&& txns[p.txn as int].live
    &&& q_matches(nodes, q, p.accn.id_spec(), txns[p.txn as int].date)
}

/// The matched postings of a ledger, in ledger order.
pub open spec fn hits_of(
    txns: Seq<TxnRec>,
    ps: Seq<PostingRec>,
    nodes: Seq<AccnNodeV>,
    q: Query,
) -> Seq<Hit> {
    ps.filter(|p: PostingRec| posting_hits(txns, nodes, q, p)).map_values(
        |p: PostingRec| Hit {
            txn: p.txn,
            date: txns[p.txn as int].date,
            accn: p.accn,
            money: p.money,
        },
    )
}

/// The amounts of the hits.
pub open spec fn hit_moneys(hits: Seq<Hit>) -> Seq<Money> {
    hits.map_values(|h: Hit| h.money)
}

/// The amounts of the hits dated exactly `d`.
pub open spec fn date_moneys(hits: Seq<Hit>, d: int) -> Seq<Money> {
    hit_moneys(hits.filter(|h: Hit| h.date.day_spec() == d))
}

/// The amounts of the hits dated `d` or earlier.
pub open spec fn upto_moneys(hits: Seq<Hit>, d: int) -> Seq<Money> {
    hit_moneys(hits.filter(|h: Hit| h.date.day_spec() <= d))
}

/// The amounts of the hits of one transaction.
pub open spec fn txn_hit_moneys(hits: Seq<Hit>, t: int) -> Seq<Money> {
    hit_moneys(hits.filter(|h: Hit| h.txn as int == t))
}

/// The lowest hit day.
pub open spec fn is_min_hit_day(hits: Seq<Hit>, d: int) -> bool {
    &&& exists|k: int| 0 <= k < hits.len() && (#[trigger] hits[k]).date.day_spec() == d
    &&& forall|k: int| 0 <= k < hits.len() ==> d <= (#[trigger] hits[k]).date.day_spec()
}

/// The highest hit day.
pub open spec fn is_max_hit_day(hits: Seq<Hit>, d: int) -> bool {
    &&& exists|k: int| 0 <= k < hits.len() && (#[trigger] hits[k]).date.day_spec() == d
    &&& forall|k: int| 0 <= k < hits.len() ==> (#[trigger] hits[k]).date.day_spec() <= d
}

/// The matched postings of one query, with the date bounds the query
/// promised; every hit is dated within them.
pub struct PostingQuerys {
    hits: Vec<Hit>,
    since: Option<Date>,
    until: Option<Date>,
}

impl PostingQuerys {
    pub closed spec fn hits_spec(self) -> Seq<Hit> {
        self.hits@
    }

    pub closed spec fn since_spec(self) -> Option<Date> {
        self.since
    }

    pub closed spec fn until_spec(self) -> Option<Date> {
        self.until
    }

    /// Dates within bounds, well-formed amounts, hits grouped by their
    /// transactions in commit order, one date per transaction.
    pub open spec fn wf(self) -> bool {
        &&& forall|k: int|
            0 <= k < self.hits_spec().len() ==> (#[trigger] self.hits_spec()[k]).money.wf()
        &&& self.since_spec() is Some ==> forall|k: int|
            0 <= k < self.hits_spec().len() ==> self.since_spec()->Some_0.day_spec() <= (
            #[trigger] self.hits_spec()[k]).date.day_spec()
        &&& self.until_spec() is Some ==> forall|k: int|
            0 <= k < self.hits_spec().len() ==> (#[trigger] self.hits_spec()[k]).date.day_spec()
                <= self.until_spec()->Some_0.day_spec()
        &&& forall|k1: int, k2: int| #![auto]
            0 <= k1 < k2 < self.hits_spec().len() ==> self.hits_spec()[k1].txn
                <= self.hits_spec()[k2].txn
        &&& forall|k1: int, k2: int| #![auto]
            0 <= k1 < k2 < self.hits_spec().len() && self.hits_spec()[k1].txn
                == self.hits_spec()[k2].txn ==> self.hits_spec()[k1].date
                == self.hits_spec()[k2].date
    }

    pub fn hit_count(&self) -> (n: usize)
        ensures
            n == self.hits_spec().len(),
    {
        self.hits.len()
    }

    pub fn hit_at(&self, k: usize) -> (h: Hit)
        requires
            k < self.hits_spec().len(),
        ensures
            h == self.hits_spec()[k as int],
    {
        self.hits[k]
    }

    /// The sum of every matched posting, over all currencies.
    pub fn total(&self) -> (v: Valuable)
        requires
            self.wf(),
        ensures
            v.wf(),
            v@ == msum(hit_moneys(self.hits_spec())),
    {
        sum_hits(&self.hits)
    }

    /// Per-day net change over the matched span.  Every day from the lower
    /// bound (the `since` bound when known, else the earliest hit) to the
    /// upper bound (`until`, else the latest hit) appears, days without
    /// postings with a zero change; with no matches the result is empty.
    pub fn daily_change(&self) -> (r: Vec<(Date, Valuable)>)
        requires
            self.wf(),
        ensures
            self.hits_spec().len() == 0 ==> r@.len() == 0,
            self.hits_spec().len() > 0 ==> daily_rows_ok(*self, r@),
    {
        let n = self.hits.len();
        if n == 0 {
            return Vec::new();
        }
        let lo: Date = match self.since {
            Some(s) => s,
            None => min_hit_date(&self.hits),
        };
        let hi: Date = match self.until {
            Some(u) => u,
            None => max_hit_date(&self.hits),
        };
        proof {
            assert(lo.day_spec() <= self.hits_spec()[0].date.day_spec());
            assert(self.hits_spec()[0].date.day_spec() <= hi.day_spec());
        }
        let span_wide: i64 = hi.day() as i64 - lo.day() as i64 + 1;
        let span: u64 = span_wide as u64;
        let mut r: Vec<(Date, Valuable)> = Vec::new();
        let mut k: u64 = 0;
        while k < span
            invariant
                0 <= k <= span,
                span == hi.day_spec() - lo.day_spec() + 1,
                lo.day_spec() <= hi.day_spec(),
                i32::MIN <= lo.day_spec() <= hi.day_spec() <= i32::MAX,
                r@.len() == k,
                forall|q: int|
                    0 <= q < r@.len() ==> (#[trigger] r@[q]).0.day_spec() == lo.day_spec() + q,
                forall|q: int|
                    0 <= q < r@.len() ==> (#[trigger] r@[q]).1@ == msum(
                        date_moneys(self.hits_spec(), lo.day_spec() + q),
                    ) && r@[q].1.wf(),
            decreases span - k,
        {
            let day = Date::new((lo.day() as i64 + k as i64) as i32);
            let v = sum_hits_on_day(&self.hits, day);
            r.push((day, v));
            k = k + 1;
        }
        r
    }

    /// Daily balance: the per-day changes of `daily_change`, each paired
    /// with the running balance — the sum of every matched posting dated
    /// that day or earlier.
    pub fn daily_balance(&self) -> (r: Vec<(Date, Valuable, Valuable)>)
        requires
            self.wf(),
        ensures
            self.hits_spec().len() == 0 ==> r@.len() == 0,
            self.hits_spec().len() > 0 ==> balance_rows_ok(*self, r@),
    {
        let changes = self.daily_change();
        let mut r: Vec<(Date, Valuable, Valuable)> = Vec::new();
        let mut bal = Valuable::new();
        let n = changes.len();
        let hcount = self.hits.len();
        let ghost hits = self.hits_spec();
        let ghost lo = if n > 0 {
            changes@[0].0.day_spec()
        } else {
            0int
        };
        proof {
            if n > 0 {
                assert forall|q: int|
                    0 <= q < hits.len() implies (#[trigger] hits[q]).date.day_spec() > lo
                    - 1 by {
                    match self.since_spec() {
                        Some(s) => {},
                        None => {},
                    }
                }
                lemma_upto_empty(hits, lo - 1);
                assert(bal@ == msum(upto_moneys(hits, lo - 1)));
            }
        }
        let mut i: usize = 0;
        while i < n
            invariant
                0 <= i <= n == changes@.len(),
                self.wf(),
                hits == self.hits_spec(),
                hits.len() == hcount,
                n > 0 ==> lo == changes@[0].0.day_spec(),
                r@.len() == i,
                bal.wf(),
                forall|q: int|
                    0 <= q < i ==> (#[trigger] r@[q]).0 == changes@[q].0 && r@[q].1@
                        == changes@[q].1@,
                n > 0 ==> bal@ == msum(upto_moneys(hits, lo - 1 + i)),
                n > 0 ==> forall|q: int|
                    0 <= q < i ==> (#[trigger] r@[q]).2@ == msum(upto_moneys(hits, lo + q)),
                forall|q: int|
                    0 <= q < changes@.len() ==> (#[trigger] changes@[q]).0.day_spec() == lo + q,
                forall|q: int|
                    0 <= q < changes@.len() ==> (#[trigger] changes@[q]).1@ == msum(
                        date_moneys(hits, lo + q),
                    ) && changes@[q].1.wf(),
            decreases n - i,
        {
            let ghost d = lo + i;
            let e = &changes[i];
            proof {
                lemma_upto_wf(hits, d - 1);
                lemma_upto_wf(hits, d);
                lemma_date_wf(hits, d);
                lemma_msum_bound(upto_moneys(hits, d - 1));
                lemma_msum_bound(date_moneys(hits, d));
                lemma_msum_bound(upto_moneys(hits, d));
                assert forall|c: int| #[trigger] i128_ok(bal@[c] + e.1@[c]) by {
                    lemma_daily_split(hits, d, c);
                    assert(upto_moneys(hits, d - 1).len() * (AMOUNT_MAX as int)
                        <= 0x1_0000_0000_0000_0000 * 1_000_000_000_000_000_000
                        && date_moneys(hits, d).len() * (AMOUNT_MAX as int)
                        <= 0x1_0000_0000_0000_0000 * 1_000_000_000_000_000_000)
                        by (nonlinear_arith)
                        requires
                            0 <= upto_moneys(hits, d - 1).len() <= 0x1_0000_0000_0000_0000
                                && 0 <= date_moneys(hits, d).len()
                                <= 0x1_0000_0000_0000_0000;
                }
            }
            bal.add_valuable(&e.1);
            proof {
                assert forall|c: int| #[trigger] msum(upto_moneys(hits, d))[c] == bal@[c] by {
                    lemma_daily_split(hits, d, c);
                }
                crate::valuable::lemma_msum_total(upto_moneys(hits, d));
                crate::valuable::lemma_valuable_ext(bal, msum(upto_moneys(hits, d)));
            }
            let copy_bal = bal.duplicate();
            let change = e.1.duplicate();
            r.push((e.0, change, copy_bal));
            i = i + 1;
        }
        r
    }
}

/// Shape of the rows `daily_change` hands back for a non-empty match.
pub open spec fn daily_rows_ok(pq: PostingQuerys, rows: Seq<(Date, Valuable)>) -> bool {
    let lo = rows[0].0.day_spec();
    let hi = rows[rows.len() - 1].0.day_spec();
    &&& rows.len() >= 1
    &&& forall|k: int| 0 <= k < rows.len() ==> (#[trigger] rows[k]).0.day_spec() == lo + k
    &&& (match pq.since_spec() {
        Some(s) => lo == s.day_spec(),
        None => is_min_hit_day(pq.hits_spec(), lo),
    })
    &&& (match pq.until_spec() {
        Some(u) => hi == u.day_spec(),
        None => is_max_hit_day(pq.hits_spec(), hi),
    })
    &&& forall|k: int|
        0 <= k < rows.len() ==> (#[trigger] rows[k]).1@ == msum(
            date_moneys(pq.hits_spec(), lo + k),
        ) && rows[k].1.wf()
}

/// Shape of the rows `daily_balance` hands back for a non-empty match.
pub open spec fn balance_rows_ok(pq: PostingQuerys, rows: Seq<(Date, Valuable, Valuable)>) -> bool {
    let lo = rows[0].0.day_spec();
    let hi = rows[rows.len() - 1].0.day_spec();
    &&& rows.len() >= 1
    &&& forall|k: int| 0 <= k < rows.len() ==> (#[trigger] rows[k]).0.day_spec() == lo + k
    &&& (match pq.since_spec() {
        Some(s) => lo == s.day_spec(),
        None => is_min_hit_day(pq.hits_spec(), lo),
    })
    &&& (match pq.until_spec() {
        Some(u) => hi == u.day_spec(),
        None => is_max_hit_day(pq.hits_spec(), hi),
    })
    &&& forall|k: int|
        0 <= k < rows.len() ==> (#[trigger] rows[k]).1@ == msum(
            date_moneys(pq.hits_spec(), lo + k),
        )
    &&& forall|k: int|
        0 <= k < rows.len() ==> (#[trigger] rows[k]).2@ == msum(
            upto_moneys(pq.hits_spec(), lo + k),
        )
}

fn min_hit_date(hits: &Vec<Hit>) -> (d: Date)
    requires
        hits@.len() > 0,
    ensures
        is_min_hit_day(hits@, d.day_spec()),
{
    let mut d = hits[0].date;
    let n = hits.len();
    let mut i: usize = 1;
    while i < n
        invariant
            1 <= i <= n == hits@.len(),
            exists|k: int| 0 <= k < i && (#[trigger] hits@[k]).date.day_spec() == d.day_spec(),
            forall|k: int| 0 <= k < i ==> d.day_spec() <= (#[trigger] hits@[k]).date.day_spec(),
        decreases n - i,
    {
        let hd = hits[i].date;
        if hd.lt(d) {
            d = hd;
        }
        i = i + 1;
    }
    d
}

fn max_hit_date(hits: &Vec<Hit>) -> (d: Date)
    requires
        hits@.len() > 0,
    ensures
        is_max_hit_day(hits@, d.day_spec()),
{
    let mut d = hits[0].date;
    let n = hits.len();
    let mut i: usize = 1;
    while i < n
        invariant
            1 <= i <= n == hits@.len(),
            exists|k: int| 0 <= k < i && (#[trigger] hits@[k]).date.day_spec() == d.day_spec(),
            forall|k: int| 0 <= k < i ==> (#[trigger] hits@[k]).date.day_spec() <= d.day_spec(),
        decreases n - i,
    {
        let hd = hits[i].date;
        if d.lt(hd) {
            d = hd;
        }
        i = i + 1;
    }
    d
}

/// Sums every hit's amount.
fn sum_hits(hits: &Vec<Hit>) -> (v: Valuable)
    requires
        forall|k: int| 0 <= k < hits@.len() ==> (#[trigger] hits@[k]).money.wf(),
    ensures
        v.wf(),
        v@ == msum(hit_moneys(hits@)),
{
    let n = hits.len();
    let mut v = Valuable::new();
    proof {
        assert(hit_moneys(hits@.take(0int)) =~= Seq::<Money>::empty());
    }
    let mut i: usize = 0;
    while i < n
        invariant
            0 <= i <= n == hits@.len(),
            v.wf(),
            v@ == msum(hit_moneys(hits@.take(i as int))),
        decreases n - i,
    {
        let m = hits[i].money;
        proof {
            let pm = hit_moneys(hits@.take(i as int));
            assert forall|q: int| 0 <= q < pm.len() implies (#[trigger] pm[q]).wf() by {
                assert(hits@.take(i as int)[q] == hits@[q]);
                assert(pm[q] == hits@[q].money);
            }
            lemma_msum_bound(pm);
            let cid = m.currency_spec().id_spec();
            assert(msum(pm)[cid] == v@[cid]);
            assert(i128_ok(v@[cid] + m.amount_spec())) by {
                assert(-(pm.len() * AMOUNT_MAX as int) <= msum(pm)[cid] <= pm.len() * (
                AMOUNT_MAX as int));
                assert(pm.len() * (AMOUNT_MAX as int) <= 0x1_0000_0000_0000_0000
                    * 1_000_000_000_000_000_000) by (nonlinear_arith)
                    requires 0 <= pm.len() <= 0x1_0000_0000_0000_0000;
            }
        }
        v.add_money(m);
        proof {
            assert(hit_moneys(hits@.take(i + 1)).drop_last() =~= hit_moneys(hits@.take(i as int)));
            assert(hit_moneys(hits@.take(i + 1)).last() == m);
        }
        i = i + 1;
    }
    proof {
        assert(hits@.take(n as int) =~= hits@);
    }
    v
}

/// Sums the hits dated exactly `day`.
fn sum_hits_on_day(hits: &Vec<Hit>, day: Date) -> (v: Valuable)
    requires
        forall|k: int| 0 <= k < hits@.len() ==> (#[trigger] hits@[k]).money.wf(),
    ensures
        v.wf(),
        v@ == msum(date_moneys(hits@, day.day_spec())),
{
    let mut matched: Vec<Hit> = Vec::new();
    let n = hits.len();
    proof {
        reveal(Seq::filter);
        assert(date_moneys(hits@.take(0int), day.day_spec()) =~= Seq::<Money>::empty());
    }
    let mut i: usize = 0;
    while i < n
        invariant
            0 <= i <= n == hits@.len(),
            forall|k: int| 0 <= k < matched@.len() ==> (#[trigger] matched@[k]).money.wf(),
            hit_moneys(matched@) == date_moneys(hits@.take(i as int), day.day_spec()),
        decreases n - i,
    {
        let h = hits[i];
        proof {
            reveal(Seq::filter);
            assert(hits@.take(i + 1).drop_last() =~= hits@.take(i as int));
            assert(hits@.take(i + 1).last() == h);
        }
        if h.date.day() == day.day() {
            matched.push(h);
            proof {
                assert(date_moneys(hits@.take(i + 1), day.day_spec()) =~= date_moneys(
                    hits@.take(i as int),
                    day.day_spec(),
                ).push(h.money));
                assert(hit_moneys(matched@) =~= date_moneys(
                    hits@.take(i as int),
                    day.day_spec(),
                ).push(h.money));
            }
        } else {
            proof {
                assert(date_moneys(hits@.take(i + 1), day.day_spec()) == date_moneys(
                    hits@.take(i as int),
                    day.day_spec(),
                ));
            }
        }
        i = i + 1;
    }
    proof {
        assert(hits@.take(n as int) =~= hits@);
    }
    let v = sum_hits(&matched);
    v
}

/// Amounts of the hits up to a day stay well formed.
proof fn lemma_upto_wf(hits: Seq<Hit>, d: int)
    requires
        forall|k: int| 0 <= k < hits.len() ==> (#[trigger] hits[k]).money.wf(),
    ensures
        forall|k: int|
            0 <= k < upto_moneys(hits, d).len() ==> (#[trigger] upto_moneys(hits, d)[k]).wf(),
        upto_moneys(hits, d).len() <= hits.len(),
    decreases hits.len(),
{
    reveal(Seq::filter);
    if hits.len() == 0 {
        assert(hits.filter(|h: Hit| h.date.day_spec() <= d) =~= Seq::<Hit>::empty());
    } else {
        assert forall|k: int| 0 <= k < hits.drop_last().len() implies (
        #[trigger] hits.drop_last()[k]).money.wf() by {
            assert(hits.drop_last()[k] == hits[k]);
        }
        lemma_upto_wf(hits.drop_last(), d);
        let f = hits.filter(|h: Hit| h.date.day_spec() <= d);
        let fd = hits.drop_last().filter(|h: Hit| h.date.day_spec() <= d);
        if hits.last().date.day_spec() <= d {
            assert(f == fd.push(hits.last()));
            assert forall|k: int| 0 <= k < upto_moneys(hits, d).len() implies (
            #[trigger] upto_moneys(hits, d)[k]).wf() by {
                if k < fd.len() {
                    assert(upto_moneys(hits, d)[k] == upto_moneys(hits.drop_last(), d)[k]);
                } else {
                    assert(upto_moneys(hits, d)[k] == hits.last().money);
                }
            }
        } else {
            assert(f == fd);
            assert forall|k: int| 0 <= k < upto_moneys(hits, d).len() implies (
            #[trigger] upto_moneys(hits, d)[k]).wf() by {
                assert(upto_moneys(hits, d)[k] == upto_moneys(hits.drop_last(), d)[k]);
            }
        }
    }
}

/// Amounts of the hits on one day stay well formed.
proof fn lemma_date_wf(hits: Seq<Hit>, d: int)
    requires
        forall|k: int| 0 <= k < hits.len() ==> (#[trigger] hits[k]).money.wf(),
    ensures
        forall|k: int|
            0 <= k < date_moneys(hits, d).len() ==> (#[trigger] date_moneys(hits, d)[k]).wf(),
        date_moneys(hits, d).len() <= hits.len(),
    decreases hits.len(),
{
    reveal(Seq::filter);
    if hits.len() == 0 {
        assert(hits.filter(|h: Hit| h.date.day_spec() == d) =~= Seq::<Hit>::empty());
    } else {
        assert forall|k: int| 0 <= k < hits.drop_last().len() implies (
        #[trigger] hits.drop_last()[k]).money.wf() by {
            assert(hits.drop_last()[k] == hits[k]);
        }
        lemma_date_wf(hits.drop_last(), d);
        let f = hits.filter(|h: Hit| h.date.day_spec() == d);
        let fd = hits.drop_last().filter(|h: Hit| h.date.day_spec() == d);
        if hits.last().date.day_spec() == d {
            assert(f == fd.push(hits.last()));
            assert forall|k: int| 0 <= k < date_moneys(hits, d).len() implies (
            #[trigger] date_moneys(hits, d)[k]).wf() by {
                if k < fd.len() {
                    assert(date_moneys(hits, d)[k] == date_moneys(hits.drop_last(), d)[k]);
                } else {
                    assert(date_moneys(hits, d)[k] == hits.last().money);
                }
            }
        } else {
            assert(f == fd);
            assert forall|k: int| 0 <= k < date_moneys(hits, d).len() implies (
            #[trigger] date_moneys(hits, d)[k]).wf() by {
                assert(date_moneys(hits, d)[k] == date_moneys(hits.drop_last(), d)[k]);
            }
        }
    }
}

/// The sum of hits up to day `d` splits into the sum up to the day before
/// and the day's own sum, in every currency.
proof fn lemma_daily_split(hits: Seq<Hit>, d: int, c: int)
    ensures
        msum(upto_moneys(hits, d))[c] == msum(upto_moneys(hits, d - 1))[c] + msum(
            date_moneys(hits, d),
        )[c],
    decreases hits.len(),
{
    reveal(Seq::filter);
    if hits.len() == 0 {
        assert(hits.filter(|h: Hit| h.date.day_spec() <= d) =~= Seq::<Hit>::empty());
        assert(hits.filter(|h: Hit| h.date.day_spec() <= d - 1) =~= Seq::<Hit>::empty());
        assert(hits.filter(|h: Hit| h.date.day_spec() == d) =~= Seq::<Hit>::empty());
        assert(msum(upto_moneys(hits, d))[c] == 0 && msum(upto_moneys(hits, d - 1))[c] == 0
            && msum(date_moneys(hits, d))[c] == 0) by {
            assert(upto_moneys(hits, d) =~= Seq::<Money>::empty());
            assert(upto_moneys(hits, d - 1) =~= Seq::<Money>::empty());
            assert(date_moneys(hits, d) =~= Seq::<Money>::empty());
        }
    } else {
        lemma_daily_split(hits.drop_last(), d, c);
        let h = hits.last();
        let rest = hits.drop_last();
        assert(rest.push(h) =~= hits);
        if h.date.day_spec() <= d - 1 {
            lemma_msum_filter_push_upto(rest, h, d, c);
            lemma_msum_filter_push_upto(rest, h, d - 1, c);
            assert(date_moneys(hits, d) == date_moneys(rest, d));
        } else if h.date.day_spec() == d {
            lemma_msum_filter_push_upto(rest, h, d, c);
            lemma_msum_filter_push_date(rest, h, d, c);
            assert(upto_moneys(hits, d - 1) == upto_moneys(rest, d - 1));
        } else {
            assert(upto_moneys(hits, d) == upto_moneys(rest, d));
            assert(upto_moneys(hits, d - 1) == upto_moneys(rest, d - 1));
            assert(date_moneys(hits, d) == date_moneys(rest, d));
        }
    }
}

/// Appending a hit dated at or before `d` adds its amount to the up-to sum.
proof fn lemma_msum_filter_push_upto(rest: Seq<Hit>, h: Hit, d: int, c: int)
    requires
        h.date.day_spec() <= d,
    ensures
        msum(upto_moneys(rest.push(h), d))[c] == msum(upto_moneys(rest, d))[c] + (if c
            == h.money.currency_spec().id_spec() {
            h.money.amount_spec()
        } else {
            0int
        }),
{
    reveal(Seq::filter);
    assert(rest.push(h).drop_last() =~= rest);
    assert(rest.push(h).filter(|x: Hit| x.date.day_spec() <= d) == rest.filter(
        |x: Hit| x.date.day_spec() <= d,
    ).push(h));
    assert(upto_moneys(rest.push(h), d).drop_last() =~= upto_moneys(rest, d));
    assert(upto_moneys(rest.push(h), d).last() == h.money);
}

/// Appending a hit dated exactly `d` adds its amount to the day's sum.
proof fn lemma_msum_filter_push_date(rest: Seq<Hit>, h: Hit, d: int, c: int)
    requires
        h.date.day_spec() == d,
    ensures
        msum(date_moneys(rest.push(h), d))[c] == msum(date_moneys(rest, d))[c] + (if c
            == h.money.currency_spec().id_spec() {
            h.money.amount_spec()
        } else {
            0int
        }),
{
    reveal(Seq::filter);
    assert(rest.push(h).drop_last() =~= rest);
    assert(rest.push(h).filter(|x: Hit| x.date.day_spec() == d) == rest.filter(
        |x: Hit| x.date.day_spec() == d,
    ).push(h));
    assert(date_moneys(rest.push(h), d).drop_last() =~= date_moneys(rest, d));
    assert(date_moneys(rest.push(h), d).last() == h.money);
}

/// No hit is dated at or before a day below every hit.
proof fn lemma_upto_empty(hits: Seq<Hit>, d: int)
    requires
        forall|k: int| 0 <= k < hits.len() ==> (#[trigger] hits[k]).date.day_spec() > d,
    ensures
        msum(upto_moneys(hits, d)) == vmap_zero(),
    decreases hits.len(),
{
    reveal(Seq::filter);
    if hits.len() > 0 {
        assert forall|k: int| 0 <= k < hits.drop_last().len() implies (
        #[trigger] hits.drop_last()[k]).date.day_spec() > d by {
            assert(hits.drop_last()[k] == hits[k]);
        }
        lemma_upto_empty(hits.drop_last(), d);
        assert(hits.filter(|h: Hit| h.date.day_spec() <= d) == hits.drop_last().filter(
            |h: Hit| h.date.day_spec() <= d,
        ));
    } else {
        assert(hits.filter(|h: Hit| h.date.day_spec() <= d) =~= Seq::<Hit>::empty());
        assert(upto_moneys(hits, d) =~= Seq::<Money>::empty());
    }
}

impl Journal {
    /// Runs a query over the ledger: every posting of a live transaction
    /// whose account and date answer it, in ledger order, with the query's
    /// own date bounds attached for later gap filling.
    pub fn query_posting(&self, q: &Query) -> (pq: PostingQuerys)
        requires
            self.wf(),
            q_wf(self.accns_spec()@, *q),
        ensures
            pq.hits_spec() == hits_of(
                self.txns_spec(),
                self.postings_spec(),
                self.accns_spec()@,
                *q,
            ),
            (match pq.since_spec() {
                Some(s) => q_since(*q) == Some(s.day_spec()),
                None => q_since(*q) is None,
            }),
            (match pq.until_spec() {
                Some(u) => q_until(*q) == Some(u.day_spec()),
                None => q_until(*q) is None,
            }),
            pq.wf(),
    {
        let ghost txns = self.txns_spec();
        let ghost nodes = self.accns_spec()@;
        let mut hits: Vec<Hit> = Vec::new();
        let n = self.posting_count();
        proof {
            reveal(Seq::filter);
            assert(hits_of(txns, self.postings_spec().take(0int), nodes, *q) =~= Seq::<
                Hit,
            >::empty()) by {
                assert(self.postings_spec().take(0int).filter(
                    |p: PostingRec| posting_hits(txns, nodes, *q, p),
                ) =~= Seq::<PostingRec>::empty());
            }
        }
        let mut i: usize = 0;
        while i < n
            invariant
                0 <= i <= n == self.postings_spec().len(),
                self.wf(),
                q_wf(nodes, *q),
                txns == self.txns_spec(),
                nodes == self.accns_spec()@,
                hits@ == hits_of(txns, self.postings_spec().take(i as int), nodes, *q),
                forall|k: int| 0 <= k < hits@.len() ==> (#[trigger] hits@[k]).money.wf(),
                forall|k1: int, k2: int| #![auto]
                    0 <= k1 < k2 < hits@.len() ==> hits@[k1].txn <= hits@[k2].txn,
                forall|k: int|
                    0 <= k < hits@.len() ==> (#[trigger] hits@[k]).date == txns[hits@[
                        k].txn as int].date && hits@[k].txn < txns.len(),
                i > 0 && hits@.len() > 0 ==> hits@.last().txn
                    <= self.postings_spec()[i - 1].txn,
                forall|k: int|
                    0 <= k < hits@.len() ==> (q_since(*q) is Some ==> q_since(*q)->Some_0 <= (
                    #[trigger] hits@[k]).date.day_spec()) && (q_until(*q) is Some ==> hits@[
                        k].date.day_spec() <= q_until(*q)->Some_0),
            decreases n - i,
        {
            let p = self.posting_at(i);
            proof {
                reveal(Seq::filter);
                assert(self.postings_spec().take(i + 1).drop_last() =~= self.postings_spec().take(
                    i as int,
                ));
                assert(self.postings_spec().take(i + 1).last() == p);
            }
            proof {
                assert(self.postings_spec()[i as int].txn < self.txns_spec().len());
            }
            let t = self.nth_txn(p.txn);
            let live = self.txn_live(t);
            let ghost pred = |pp: PostingRec| posting_hits(txns, nodes, *q, pp);
            if live {
                let date = self.txn_date(t);
                proof {
                    assert(1 <= self.postings_spec()[i as int].accn.id_spec()
                        < self.accns_spec()@.len());
                }
                let is_hit = self.q_eval(q, p.accn, date);
                if is_hit {
                    let h = Hit { txn: p.txn, date, accn: p.accn, money: p.money };
                    hits.push(h);
                    proof {
                        assert(posting_hits(txns, nodes, *q, p));
                        let f0 = self.postings_spec().take(i as int).filter(pred);
                        let f1 = self.postings_spec().take(i + 1).filter(pred);
                        assert(f1 == f0.push(p));
                        assert(hits_of(txns, self.postings_spec().take(i + 1), nodes, *q)
                            =~= hits_of(
                            txns,
                            self.postings_spec().take(i as int),
                            nodes,
                            *q,
                        ).push(h));
                        lemma_q_bounds(nodes, *q, p.accn.id_spec(), date);
                        assert(forall|k1: int, k2: int| #![auto]
                            0 <= k1 < k2 < hits@.len() - 1 ==> hits@[k1].txn <= hits@[k2].txn);
                        assert(hits@.last().txn == p.txn);
                        assert forall|k1: int, k2: int| #![auto]
                            0 <= k1 < k2 < hits@.len() implies hits@[k1].txn <= hits@[k2].txn
                            by {
                            if k2 == hits@.len() - 1 && k1 < k2 {
                                assert(hits@[k1].txn <= self.postings_spec()[i - 1].txn || i
                                    == 0 || hits@.len() - 1 == 0);
                                assert(self.postings_spec()[i - 1].txn
                                    <= self.postings_spec()[i as int].txn || i == 0);
                            }
                        }
                    }
                } else {
                    proof {
                        assert(!posting_hits(txns, nodes, *q, p));
                        assert(self.postings_spec().take(i + 1).filter(pred)
                            == self.postings_spec().take(i as int).filter(pred));
                    }
                }
            } else {
                proof {
                    assert(!posting_hits(txns, nodes, *q, p));
                    assert(self.postings_spec().take(i + 1).filter(pred)
                        == self.postings_spec().take(i as int).filter(pred));
                }
            }
            i = i + 1;
        }
        proof {
            assert(self.postings_spec().take(n as int) =~= self.postings_spec());
        }
        let since = self.q_since_date(q);
        let until = self.q_until_date(q);
        PostingQuerys { hits, since, until }
    }

    /// Evaluates the filter on one posting.
    fn q_eval(&self, q: &Query, accn: Accn, date: Date) -> (r: bool)
        requires
            self.wf(),
            q_wf(self.accns_spec()@, *q),
            0 <= accn.id_spec() < self.accns_spec()@.len(),
        ensures
            r == q_matches(self.accns_spec()@, *q, accn.id_spec(), date),
        decreases *q,
    {
        match q {
            Query::All => true,
            Query::Account(a) => {
                if *a == accn {
                    true
                } else {
                    proof {
                        crate::accn::lemma_accn_ne(*a, accn);
                    }
                    self.accn_tree().is_ancestor(*a, accn)
                }
            },
            Query::Accounts(list) => {
                let n = list.len();
                let mut i: usize = 0;
                let mut found = false;
                while i < n
                    invariant
                        0 <= i <= n == list@.len(),
                        self.wf(),
                        q_wf(self.accns_spec()@, Query::Accounts(*list)),
                        found == exists|k: int|
                            0 <= k < i && (accn.id_spec() == (#[trigger] list@[k]).id_spec()
                                || in_ancestors(
                                self.accns_spec()@,
                                accn.id_spec(),
                                list@[k].id_spec(),
                            )),
                    decreases n - i,
                {
                    let a = list[i];
                    if !found {
                        let same = a == accn;
                        proof {
                            if !same {
                                crate::accn::lemma_accn_ne(a, accn);
                            }
                        }
                        if same || self.accn_tree().is_ancestor(a, accn) {
                            found = true;
                            proof {
                                assert(accn.id_spec() == list@[i as int].id_spec()
                                    || in_ancestors(
                                    self.accns_spec()@,
                                    accn.id_spec(),
                                    list@[i as int].id_spec(),
                                ));
                            }
                        }
                    }
                    i = i + 1;
                }
                found
            },
            Query::Since(d) => d.le(date),
            Query::Until(d) => date.le(*d),
            Query::And(a, b) => {
                let ra = self.q_eval(a, accn, date);
                let rb = self.q_eval(b, accn, date);
                ra && rb
            },
        }
    }

    /// The query's own lower date bound.
    fn q_since_date(&self, q: &Query) -> (r: Option<Date>)
        ensures
            (match r {
                Some(s) => q_since(*q) == Some(s.day_spec()),
                None => q_since(*q) is None,
            }),
        decreases *q,
    {
        match q {
            Query::Since(d) => Some(*d),
            Query::And(a, b) => {
                let ra = self.q_since_date(a);
                let rb = self.q_since_date(b);
                match (ra, rb) {
                    (Some(x), Some(y)) => if y.le(x) {
                        Some(x)
                    } else {
                        Some(y)
                    },
                    (Some(x), None) => Some(x),
                    (None, Some(y)) => Some(y),
                    (None, None) => None,
                }
            },
            Query::All => None,
            Query::Account(_) => None,
            Query::Accounts(_) => None,
            Query::Until(_) => None,
        }
    }

    /// The query's own upper date bound.
    fn q_until_date(&self, q: &Query) -> (r: Option<Date>)
        ensures
            (match r {
                Some(u) => q_until(*q) == Some(u.day_spec()),
                None => q_until(*q) is None,
            }),
        decreases *q,
    {
        match q {
            Query::Until(d) => Some(*d),
            Query::And(a, b) => {
                let ra = self.q_until_date(a);
                let rb = self.q_until_date(b);
                match (ra, rb) {
                    (Some(x), Some(y)) => if x.le(y) {
                        Some(x)
                    } else {
                        Some(y)
                    },
                    (Some(x), None) => Some(x),
                    (None, Some(y)) => Some(y),
                    (None, None) => None,
                }
            },
            Query::All => None,
            Query::Account(_) => None,
            Query::Accounts(_) => None,
            Query::Since(_) => None,
        }
    }
}


/// Is `t` one of the listed transactions?
pub open spec fn in_txns(keys: Seq<usize>, t: int) -> bool {
    exists|q: int| 0 <= q < keys.len() && (#[trigger] keys[q]) as int == t
}

/// The amounts of the hits belonging to any of the listed transactions.
pub open spec fn txnset_moneys(hits: Seq<Hit>, keys: Seq<usize>) -> Seq<Money> {
    hit_moneys(hits.filter(|h: Hit| in_txns(keys, h.txn as int)))
}

/// Lexicographic order on register keys: date first, commit order second.
pub open spec fn key_le(a: (usize, Date), b: (usize, Date)) -> bool {
    a.1.day_spec() < b.1.day_spec() || (a.1.day_spec() == b.1.day_spec() && a.0 <= b.0)
}

/// One register row: a transaction, its date, the net change of its matched
/// postings, and the running balance so far.
pub struct BalanceRow {
    pub txn: usize,
    pub date: Date,
    pub change: Valuable,
    pub balance: Valuable,
}

/// Amounts filtered to a transaction set stay well formed and no more
/// numerous.
proof fn lemma_txnset_wf(hits: Seq<Hit>, keys: Seq<usize>)
    requires
        forall|k: int| 0 <= k < hits.len() ==> (#[trigger] hits[k]).money.wf(),
    ensures
        forall|k: int|
            0 <= k < txnset_moneys(hits, keys).len() ==> (#[trigger] txnset_moneys(hits, keys)[
                k]).wf(),
        txnset_moneys(hits, keys).len() <= hits.len(),
    decreases hits.len(),
{
    reveal(Seq::filter);
    if hits.len() == 0 {
        assert(hits.filter(|h: Hit| in_txns(keys, h.txn as int)) =~= Seq::<Hit>::empty());
    } else {
        assert forall|k: int| 0 <= k < hits.drop_last().len() implies (
        #[trigger] hits.drop_last()[k]).money.wf() by {
            assert(hits.drop_last()[k] == hits[k]);
        }
        lemma_txnset_wf(hits.drop_last(), keys);
        let f = hits.filter(|h: Hit| in_txns(keys, h.txn as int));
        let fd = hits.drop_last().filter(|h: Hit| in_txns(keys, h.txn as int));
        if in_txns(keys, hits.last().txn as int) {
            assert(f == fd.push(hits.last()));
            assert forall|k: int| 0 <= k < txnset_moneys(hits, keys).len() implies (
            #[trigger] txnset_moneys(hits, keys)[k]).wf() by {
                if k < fd.len() {
                    assert(txnset_moneys(hits, keys)[k] == txnset_moneys(hits.drop_last(), keys)[
                        k]);
                } else {
                    assert(txnset_moneys(hits, keys)[k] == hits.last().money);
                }
            }
        } else {
            assert(f == fd);
            assert forall|k: int| 0 <= k < txnset_moneys(hits, keys).len() implies (
            #[trigger] txnset_moneys(hits, keys)[k]).wf() by {
                assert(txnset_moneys(hits, keys)[k] == txnset_moneys(hits.drop_last(), keys)[k]);
            }
        }
    }
}

/// Adding one more transaction to the set adds exactly that transaction's
/// sum, in every currency.
proof fn lemma_txnset_split(hits: Seq<Hit>, keys: Seq<usize>, t: usize, c: int)
    requires
        !in_txns(keys, t as int),
    ensures
        msum(txnset_moneys(hits, keys.push(t)))[c] == msum(txnset_moneys(hits, keys))[c] + msum(
            txn_hit_moneys(hits, t as int),
        )[c],
    decreases hits.len(),
{
    reveal(Seq::filter);
    if hits.len() == 0 {
        assert(hits.filter(|h: Hit| in_txns(keys.push(t), h.txn as int)) =~= Seq::<Hit>::empty());
        assert(hits.filter(|h: Hit| in_txns(keys, h.txn as int)) =~= Seq::<Hit>::empty());
        assert(hits.filter(|h: Hit| h.txn as int == t as int) =~= Seq::<Hit>::empty());
        assert(txnset_moneys(hits, keys.push(t)) =~= Seq::<Money>::empty());
        assert(txnset_moneys(hits, keys) =~= Seq::<Money>::empty());
        assert(txn_hit_moneys(hits, t as int) =~= Seq::<Money>::empty());
    } else {
        lemma_txnset_split(hits.drop_last(), keys, t, c);
        let h = hits.last();
        let rest = hits.drop_last();
        assert(rest.push(h) =~= hits);
        // membership in the grown set splits into the two cases
        assert(in_txns(keys.push(t), h.txn as int) == (in_txns(keys, h.txn as int) || h.txn
            == t)) by {
            if in_txns(keys.push(t), h.txn as int) {
                let q = choose|q: int|
                    0 <= q < keys.push(t).len() && (#[trigger] keys.push(t)[q]) as int
                        == h.txn as int;
                if q < keys.len() {
                    assert(keys[q] as int == h.txn as int);
                }
            }
            if in_txns(keys, h.txn as int) {
                let q = choose|q: int|
                    0 <= q < keys.len() && (#[trigger] keys[q]) as int == h.txn as int;
                assert(keys.push(t)[q] as int == h.txn as int);
            }
            if h.txn == t {
                assert(keys.push(t)[keys.len() as int] as int == h.txn as int);
            }
        }
        if h.txn == t {
            lemma_msum_filter_push_set(rest, h, keys.push(t), c);
            lemma_msum_filter_push_txn(rest, h, t, c);
            assert(txnset_moneys(hits, keys) == txnset_moneys(rest, keys));
        } else if in_txns(keys, h.txn as int) {
            lemma_msum_filter_push_set(rest, h, keys.push(t), c);
            lemma_msum_filter_push_set(rest, h, keys, c);
            assert(txn_hit_moneys(hits, t as int) == txn_hit_moneys(rest, t as int));
        } else {
            assert(txnset_moneys(hits, keys.push(t)) == txnset_moneys(rest, keys.push(t)));
            assert(txnset_moneys(hits, keys) == txnset_moneys(rest, keys));
            assert(txn_hit_moneys(hits, t as int) == txn_hit_moneys(rest, t as int));
        }
    }
}

/// Appending a hit of a listed transaction adds its amount to the set sum.
proof fn lemma_msum_filter_push_set(rest: Seq<Hit>, h: Hit, keys: Seq<usize>, c: int)
    requires
        in_txns(keys, h.txn as int),
    ensures
        msum(txnset_moneys(rest.push(h), keys))[c] == msum(txnset_moneys(rest, keys))[c] + (if c
            == h.money.currency_spec().id_spec() {
            h.money.amount_spec()
        } else {
            0int
        }),
{
    reveal(Seq::filter);
    assert(rest.push(h).drop_last() =~= rest);
    assert(rest.push(h).filter(|x: Hit| in_txns(keys, x.txn as int)) == rest.filter(
        |x: Hit| in_txns(keys, x.txn as int),
    ).push(h));
    assert(txnset_moneys(rest.push(h), keys).drop_last() =~= txnset_moneys(rest, keys));
    assert(txnset_moneys(rest.push(h), keys).last() == h.money);
}

/// Appending a hit of one transaction adds its amount to that sum.
proof fn lemma_msum_filter_push_txn(rest: Seq<Hit>, h: Hit, t: usize, c: int)
    requires
        h.txn == t,
    ensures
        msum(txn_hit_moneys(rest.push(h), t as int))[c] == msum(txn_hit_moneys(rest, t as int))[
            c] + (if c == h.money.currency_spec().id_spec() {
            h.money.amount_spec()
        } else {
            0int
        }),
{
    reveal(Seq::filter);
    assert(rest.push(h).drop_last() =~= rest);
    assert(rest.push(h).filter(|x: Hit| x.txn as int == t as int) == rest.filter(
        |x: Hit| x.txn as int == t as int,
    ).push(h));
    assert(txn_hit_moneys(rest.push(h), t as int).drop_last() =~= txn_hit_moneys(
        rest,
        t as int,
    ));
    assert(txn_hit_moneys(rest.push(h), t as int).last() == h.money);
}

/// Amounts of the hits of a transaction stay well formed.
proof fn lemma_txn_hit_wf(hits: Seq<Hit>, t: int)
    requires
        forall|k: int| 0 <= k < hits.len() ==> (#[trigger] hits[k]).money.wf(),
    ensures
        forall|k: int|
            0 <= k < txn_hit_moneys(hits, t).len() ==> (#[trigger] txn_hit_moneys(hits, t)[
                k]).wf(),
        txn_hit_moneys(hits, t).len() <= hits.len(),
    decreases hits.len(),
{
    reveal(Seq::filter);
    if hits.len() == 0 {
        assert(hits.filter(|h: Hit| h.txn as int == t) =~= Seq::<Hit>::empty());
    } else {
        assert forall|k: int| 0 <= k < hits.drop_last().len() implies (
        #[trigger] hits.drop_last()[k]).money.wf() by {
            assert(hits.drop_last()[k] == hits[k]);
        }
        lemma_txn_hit_wf(hits.drop_last(), t);
        let f = hits.filter(|h: Hit| h.txn as int == t);
        let fd = hits.drop_last().filter(|h: Hit| h.txn as int == t);
        if hits.last().txn as int == t {
            assert(f == fd.push(hits.last()));
            assert forall|k: int| 0 <= k < txn_hit_moneys(hits, t).len() implies (
            #[trigger] txn_hit_moneys(hits, t)[k]).wf() by {
                if k < fd.len() {
                    assert(txn_hit_moneys(hits, t)[k] == txn_hit_moneys(hits.drop_last(), t)[k]);
                } else {
                    assert(txn_hit_moneys(hits, t)[k] == hits.last().money);
                }
            }
        } else {
            assert(f == fd);
            assert forall|k: int| 0 <= k < txn_hit_moneys(hits, t).len() implies (
            #[trigger] txn_hit_moneys(hits, t)[k]).wf() by {
                assert(txn_hit_moneys(hits, t)[k] == txn_hit_moneys(hits.drop_last(), t)[k]);
            }
        }
    }
}

/// Sums the hits of one transaction.
fn sum_hits_on_txn(hits: &Vec<Hit>, t: usize) -> (v: Valuable)
    requires
        forall|k: int| 0 <= k < hits@.len() ==> (#[trigger] hits@[k]).money.wf(),
    ensures
        v.wf(),
        v@ == msum(txn_hit_moneys(hits@, t as int)),
{
    let mut matched: Vec<Hit> = Vec::new();
    let n = hits.len();
    proof {
        reveal(Seq::filter);
        assert(txn_hit_moneys(hits@.take(0int), t as int) =~= Seq::<Money>::empty());
    }
    let mut i: usize = 0;
    while i < n
        invariant
            0 <= i <= n == hits@.len(),
            forall|k: int| 0 <= k < matched@.len() ==> (#[trigger] matched@[k]).money.wf(),
            hit_moneys(matched@) == txn_hit_moneys(hits@.take(i as int), t as int),
        decreases n - i,
    {
        let h = hits[i];
        proof {
            reveal(Seq::filter);
            assert(hits@.take(i + 1).drop_last() =~= hits@.take(i as int));
            assert(hits@.take(i + 1).last() == h);
        }
        if h.txn == t {
            matched.push(h);
            proof {
                assert(txn_hit_moneys(hits@.take(i + 1), t as int) =~= txn_hit_moneys(
                    hits@.take(i as int),
                    t as int,
                ).push(h.money));
                assert(hit_moneys(matched@) =~= txn_hit_moneys(
                    hits@.take(i as int),
                    t as int,
                ).push(h.money));
            }
        } else {
            proof {
                assert(txn_hit_moneys(hits@.take(i + 1), t as int) == txn_hit_moneys(
                    hits@.take(i as int),
                    t as int,
                ));
            }
        }
        i = i + 1;
    }
    proof {
        assert(hits@.take(n as int) =~= hits@);
    }
    sum_hits(&matched)
}

/// Sorts register keys by date, ties by commit order: the result holds the
/// same keys, in order.
fn sort_keys(input: Vec<(usize, Date)>) -> (r: Vec<(usize, Date)>)
    ensures
        r@.len() == input@.len(),
        r@.to_multiset() == input@.to_multiset(),
        forall|a: int, b: int| 0 <= a < b < r@.len() ==> key_le(#[trigger] r@[a], #[trigger] r@[b]),
{
    broadcast use vstd::seq_lib::group_to_multiset_ensures;

    let mut src = input;
    let ghost orig = src@;
    let mut out: Vec<(usize, Date)> = Vec::new();
    while src.len() > 0
        invariant
            out@.len() + src@.len() == orig.len(),
            out@.to_multiset().add(src@.to_multiset()) == orig.to_multiset(),
            forall|a: int, b: int|
                0 <= a < b < out@.len() ==> key_le(#[trigger] out@[a], #[trigger] out@[b]),
            forall|a: int, b: int|
                0 <= a < out@.len() && 0 <= b < src@.len() ==> key_le(
                    #[trigger] out@[a],
                    #[trigger] src@[b],
                ),
        decreases src@.len(),
    {
        let n = src.len();
        let mut best: usize = 0;
        let mut i: usize = 1;
        while i < n
            invariant
                0 <= best < i <= n == src@.len(),
                forall|k: int| 0 <= k < i ==> key_le(src@[best as int], #[trigger] src@[k]),
            decreases n - i,
        {
            let cand = src[i];
            let cur = src[best];
            let better = cand.1.day() < cur.1.day() || (cand.1.day() == cur.1.day() && cand.0
                < cur.0);
            if better {
                best = i;
            }
            i = i + 1;
        }
        let ghost presrc = src@;
        let ghost preout = out@;
        let e = src.remove(best);
        out.push(e);
        proof {
            assert(src@ == presrc.remove(best as int));
            assert(out@ == preout.push(e));
            assert(out@.to_multiset().add(src@.to_multiset()) =~= orig.to_multiset()) by {
                assert(presrc.remove(best as int).to_multiset() =~= presrc.to_multiset().remove(
                    e,
                ));
                assert(preout.push(e).to_multiset() =~= preout.to_multiset().insert(e));
                assert(presrc.to_multiset().count(e) > 0) by {
                    assert(presrc[best as int] == e);
                    assert(presrc.contains(e));
                }
            }
            assert forall|a: int, b: int|
                0 <= a < out@.len() && 0 <= b < src@.len() implies key_le(
                #[trigger] out@[a],
                #[trigger] src@[b],
            ) by {
                let pre_b = if b < best { b } else { b + 1 };
                assert(src@[b] == presrc[pre_b]);
                if a < out@.len() - 1 {
                } else {
                    assert(out@[a] == e);
                    assert(key_le(presrc[best as int], presrc[pre_b]));
                }
            }
        }
    }
    out
}

/// Some hit carries this transaction and date.
pub open spec fn key_from_hits(hits: Seq<Hit>, key: (usize, Date)) -> bool {
    exists|p: int|
        0 <= p < hits.len() && (#[trigger] hits[p]).txn == key.0 && hits[p].date == key.1
}

/// Some key names this transaction.
pub open spec fn txn_covered(keys: Seq<(usize, Date)>, t: usize) -> bool {
    exists|k: int| 0 <= k < keys.len() && (#[trigger] keys[k]).0 == t
}

/// Some row names this transaction.
pub open spec fn txn_in_rows(rows: Seq<BalanceRow>, t: usize) -> bool {
    exists|k: int| 0 <= k < rows.len() && (#[trigger] rows[k]).txn == t
}

/// One key (transaction and date) per matched transaction, in commit
/// order.
fn collect_txn_keys(hits: &Vec<Hit>) -> (keys0: Vec<(usize, Date)>)
    requires
        forall|k1: int, k2: int| #![auto]
            0 <= k1 < k2 < hits@.len() ==> hits@[k1].txn <= hits@[k2].txn,
    ensures
        forall|a: int, b: int|
            0 <= a < b < keys0@.len() ==> (#[trigger] keys0@[a]).0 < (#[trigger] keys0@[b]).0,
        forall|k: int| 0 <= k < keys0@.len() ==> key_from_hits(hits@, #[trigger] keys0@[k]),
        forall|p: int| 0 <= p < hits@.len() ==> txn_covered(keys0@, (#[trigger] hits@[p]).txn),
{
    let hn = hits.len();
    let mut keys0: Vec<(usize, Date)> = Vec::new();
    let mut q: usize = 0;
    while q < hn
        invariant
            0 <= q <= hn == hits@.len(),
            forall|k1: int, k2: int| #![auto]
                0 <= k1 < k2 < hits@.len() ==> hits@[k1].txn <= hits@[k2].txn,
            forall|a: int, b: int|
                0 <= a < b < keys0@.len() ==> (#[trigger] keys0@[a]).0 < (#[trigger] keys0@[b]).0,
            forall|k: int| 0 <= k < keys0@.len() ==> key_from_hits(hits@, #[trigger] keys0@[k]),
            forall|p: int| 0 <= p < q ==> txn_covered(keys0@, (#[trigger] hits@[p]).txn),
            q > 0 && keys0@.len() > 0 ==> keys0@.last().0 == hits@[q - 1].txn,
            q > 0 ==> keys0@.len() > 0,
            q == 0 ==> keys0@.len() == 0,
        decreases hn - q,
    {
        let h = hits[q];
        let ghost oldkeys = keys0@;
        let is_new = if keys0.len() == 0 {
            true
        } else {
            let last = keys0[keys0.len() - 1];
            last.0 != h.txn
        };
        if is_new {
            proof {
                if keys0@.len() > 0 {
                    assert(keys0@.last().0 == hits@[q - 1].txn);
                    assert(hits@[q - 1].txn <= hits@[q as int].txn);
                }
            }
            keys0.push((h.txn, h.date));
            proof {
                assert(key_from_hits(hits@, keys0@[keys0@.len() - 1])) by {
                    assert(hits@[q as int].txn == keys0@[keys0@.len() - 1].0 && hits@[
                        q as int].date == keys0@[keys0@.len() - 1].1);
                }
                assert forall|k: int|
                    0 <= k < keys0@.len() implies key_from_hits(hits@, #[trigger] keys0@[k]) by {
                    if k < keys0@.len() - 1 {
                        assert(keys0@[k] == oldkeys[k]);
                    }
                }
                assert forall|p: int|
                    0 <= p < q + 1 implies txn_covered(keys0@, (#[trigger] hits@[p]).txn) by {
                    if p < q {
                        let k = choose|k: int|
                            0 <= k < oldkeys.len() && (#[trigger] oldkeys[k]).0 == hits@[p].txn;
                        assert(keys0@[k].0 == hits@[p].txn);
                    } else {
                        assert(keys0@[keys0@.len() - 1].0 == hits@[p].txn);
                    }
                }
            }
        } else {
            proof {
                assert(keys0@.last().0 == h.txn);
                assert forall|p: int|
                    0 <= p < q + 1 implies txn_covered(keys0@, (#[trigger] hits@[p]).txn) by {
                    if p == q {
                        assert(keys0@[keys0@.len() - 1].0 == hits@[p].txn);
                    }
                }
            }
        }
        q = q + 1;
    }
    keys0
}

/// Sorting the keys keeps their membership facts and their distinctness.
proof fn lemma_sorted_keys_props(keys0: Seq<(usize, Date)>, keys: Seq<(usize, Date)>, hits: Seq<Hit>)
    requires
        keys.to_multiset() == keys0.to_multiset(),
        forall|a: int, b: int|
            0 <= a < b < keys0.len() ==> (#[trigger] keys0[a]).0 < (#[trigger] keys0[b]).0,
        forall|k: int| 0 <= k < keys0.len() ==> key_from_hits(hits, #[trigger] keys0[k]),
        forall|p: int| 0 <= p < hits.len() ==> txn_covered(keys0, (#[trigger] hits[p]).txn),
    ensures
        forall|a: int, b: int|
            0 <= a < b < keys.len() ==> (#[trigger] keys[a]).0 != (#[trigger] keys[b]).0,
        forall|k: int| 0 <= k < keys.len() ==> key_from_hits(hits, #[trigger] keys[k]),
        forall|p: int| 0 <= p < hits.len() ==> txn_covered(keys, (#[trigger] hits[p]).txn),
{
    broadcast use vstd::seq_lib::group_to_multiset_ensures;

    assert forall|k: int| 0 <= k < keys.len() implies key_from_hits(hits, #[trigger] keys[k]) by {
        assert(keys.to_multiset().count(keys[k]) > 0) by {
            assert(keys.contains(keys[k]));
        }
        assert(keys0.to_multiset().count(keys[k]) > 0);
        assert(keys0.contains(keys[k]));
        let k0 = choose|k0: int| 0 <= k0 < keys0.len() && keys0[k0] == keys[k];
        assert(key_from_hits(hits, keys0[k0]));
    }
    assert forall|p: int|
        0 <= p < hits.len() implies txn_covered(keys, (#[trigger] hits[p]).txn) by {
        let k0 = choose|k0: int| 0 <= k0 < keys0.len() && (#[trigger] keys0[k0]).0 == hits[p].txn;
        assert(keys0.to_multiset().count(keys0[k0]) > 0) by {
            assert(keys0.contains(keys0[k0]));
        }
        assert(keys.to_multiset().count(keys0[k0]) > 0);
        assert(keys.contains(keys0[k0]));
        let k = choose|k: int| 0 <= k < keys.len() && keys[k] == keys0[k0];
        assert(keys[k].0 == hits[p].txn);
    }
    assert forall|a: int, b: int|
        0 <= a < b < keys.len() implies (#[trigger] keys[a]).0 != (#[trigger] keys[b]).0 by {
        lemma_sorted_keys_distinct(keys0, keys, a, b);
    }
}

impl PostingQuerys {
    /// The register: one row per matched transaction, sorted by date with
    /// ties in commit order, each carrying the transaction's net change and
    /// the running balance of everything so far.
    pub fn balances(&self) -> (r: Vec<BalanceRow>)
        requires
            self.wf(),
        ensures
            forall|a: int, b: int|
                0 <= a < b < r@.len() ==> ((#[trigger] r@[a]).date.day_spec() < (
                #[trigger] r@[b]).date.day_spec() || (r@[a].date.day_spec()
                    == r@[b].date.day_spec() && r@[a].txn < r@[b].txn)),
            forall|k: int|
                0 <= k < r@.len() ==> (#[trigger] r@[k]).change@ == msum(
                    txn_hit_moneys(self.hits_spec(), r@[k].txn as int),
                ) && key_from_hits(self.hits_spec(), (r@[k].txn, r@[k].date)),
            forall|q: int|
                0 <= q < self.hits_spec().len() ==> txn_in_rows(
                    r@,
                    (#[trigger] self.hits_spec()[q]).txn,
                ),
            r@.len() > 0 ==> r@[0].balance@ == r@[0].change@,
            forall|k: int|
                1 <= k < r@.len() ==> (#[trigger] r@[k]).balance@ == crate::valuable::vmap_add(
                    r@[k - 1].balance@,
                    r@[k].change@,
                ),
    {
        let ghost hits = self.hits_spec();
        let hcount = self.hits.len();
        let keys0 = collect_txn_keys(&self.hits);
        let keys = sort_keys(keys0);
        proof {
            lemma_sorted_keys_props(keys0@, keys@, hits);
        }
        let kn = keys.len();
        let mut r: Vec<BalanceRow> = Vec::new();
        let mut bal = Valuable::new();
        let ghost mut done: Seq<usize> = Seq::empty();
        proof {
            lemma_txnset_empty(hits, done);
            assert(bal@ == msum(txnset_moneys(hits, done)));
        }
        let mut k: usize = 0;
        while k < kn
            invariant
                0 <= k <= kn == keys@.len(),
                self.wf(),
                hits == self.hits_spec(),
                forall|a: int, b: int|
                    0 <= a < b < keys@.len() ==> key_le(#[trigger] keys@[a], #[trigger] keys@[b]),
                forall|a: int, b: int|
                    0 <= a < b < keys@.len() ==> (#[trigger] keys@[a]).0 != (
                    #[trigger] keys@[b]).0,
                forall|kk: int| 0 <= kk < keys@.len() ==> key_from_hits(hits, #[trigger] keys@[kk]),
                forall|p: int| 0 <= p < hits.len() ==> txn_covered(keys@, (#[trigger] hits[p]).txn),
                hits.len() == hcount,
                r@.len() == k,
                bal.wf(),
                done.len() == k,
                forall|kk: int| 0 <= kk < k ==> (#[trigger] done[kk]) == keys@[kk].0,
                bal@ == msum(txnset_moneys(hits, done)),
                forall|kk: int|
                    0 <= kk < k ==> (#[trigger] r@[kk]).txn == keys@[kk].0 && r@[kk].date
                        == keys@[kk].1 && r@[kk].change@ == msum(
                        txn_hit_moneys(hits, keys@[kk].0 as int),
                    ),
                k > 0 ==> r@[0].balance@ == r@[0].change@,
                k > 0 ==> r@[k - 1].balance@ == bal@,
                forall|kk: int|
                    1 <= kk < k ==> (#[trigger] r@[kk]).balance@ == crate::valuable::vmap_add(
                        r@[kk - 1].balance@,
                        r@[kk].change@,
                    ),
            decreases kn - k,
        {
            let (t, d) = keys[k];
            let change = sum_hits_on_txn(&self.hits, t);
            proof {
                assert(!in_txns(done, t as int)) by {
                    if in_txns(done, t as int) {
                        let qq = choose|qq: int|
                            0 <= qq < done.len() && (#[trigger] done[qq]) as int == t as int;
                        assert(done[qq] == keys@[qq].0);
                        assert(keys@[qq].0 != keys@[k as int].0);
                    }
                }
                lemma_txnset_wf(hits, done);
                lemma_txn_hit_wf(hits, t as int);
                lemma_msum_bound(txnset_moneys(hits, done));
                lemma_msum_bound(txn_hit_moneys(hits, t as int));
                assert forall|c: int| #[trigger] i128_ok(bal@[c] + change@[c]) by {
                    assert(hits.len() * (AMOUNT_MAX as int) <= 0x1_0000_0000_0000_0000
                        * 1_000_000_000_000_000_000) by (nonlinear_arith)
                        requires 0 <= hits.len() <= 0x1_0000_0000_0000_0000;
                }
            }
            bal.add_valuable(&change);
            proof {
                let newdone = done.push(t);
                assert forall|c: int| #[trigger] msum(txnset_moneys(hits, newdone))[c]
                    == bal@[c] by {
                    lemma_txnset_split(hits, done, t, c);
                }
                crate::valuable::lemma_msum_total(txnset_moneys(hits, newdone));
                crate::valuable::lemma_valuable_ext(bal, msum(txnset_moneys(hits, newdone)));
                if k == 0 {
                    assert forall|c: int| #[trigger] bal@[c] == change@[c] by {
                        lemma_txnset_split(hits, done, t, c);
                        lemma_txnset_empty(hits, done);
                    }
                    crate::valuable::lemma_msum_total(txn_hit_moneys(hits, t as int));
                    crate::valuable::lemma_valuable_ext(bal, msum(txn_hit_moneys(hits, t as int)));
                    assert(bal@ == change@);
                }
                done = newdone;
            }
            let row_bal = bal.duplicate();
            r.push(BalanceRow { txn: t, date: d, change, balance: row_bal });
            k = k + 1;
        }
        proof {
            assert forall|q: int|
                0 <= q < self.hits_spec().len() implies txn_in_rows(
                r@,
                (#[trigger] self.hits_spec()[q]).txn,
            ) by {
                let kk = choose|kk: int|
                    0 <= kk < keys@.len() && (#[trigger] keys@[kk]).0 == hits[q].txn;
                assert(r@[kk].txn == keys@[kk].0);
            }
            assert forall|a: int, b: int|
                0 <= a < b < r@.len() implies ((#[trigger] r@[a]).date.day_spec() < (
            #[trigger] r@[b]).date.day_spec() || (r@[a].date.day_spec() == r@[b].date.day_spec()
                && r@[a].txn < r@[b].txn)) by {
                assert(key_le(keys@[a], keys@[b]));
                assert(keys@[a].0 != keys@[b].0);
            }
            assert forall|k2: int|
                0 <= k2 < r@.len() implies (#[trigger] r@[k2]).change@ == msum(
                txn_hit_moneys(self.hits_spec(), r@[k2].txn as int),
            ) && key_from_hits(self.hits_spec(), (r@[k2].txn, r@[k2].date)) by {
                assert(key_from_hits(hits, keys@[k2]));
                assert((r@[k2].txn, r@[k2].date) == keys@[k2]);
            }
        }
        r
    }
}

/// An empty transaction set selects nothing.
proof fn lemma_txnset_empty(hits: Seq<Hit>, keys: Seq<usize>)
    requires
        keys.len() == 0,
    ensures
        txnset_moneys(hits, keys) == Seq::<Money>::empty(),
    decreases hits.len(),
{
    reveal(Seq::filter);
    if hits.len() > 0 {
        lemma_txnset_empty(hits.drop_last(), keys);
        assert(!in_txns(keys, hits.last().txn as int));
        assert(hits.filter(|h: Hit| in_txns(keys, h.txn as int)) == hits.drop_last().filter(
            |h: Hit| in_txns(keys, h.txn as int),
        ));
    } else {
        assert(hits.filter(|h: Hit| in_txns(keys, h.txn as int)) =~= Seq::<Hit>::empty());
    }
    assert(txnset_moneys(hits, keys) =~= Seq::<Money>::empty());
}

/// A sort of keys with distinct transactions keeps them distinct.
proof fn lemma_sorted_keys_distinct(
    keys0: Seq<(usize, Date)>,
    keys: Seq<(usize, Date)>,
    a: int,
    b: int,
)
    requires
        keys.to_multiset() == keys0.to_multiset(),
        forall|x: int, y: int| 0 <= x < y < keys0.len() ==> (#[trigger] keys0[x]).0 != (
        #[trigger] keys0[y]).0,
        0 <= a < b < keys.len(),
    ensures
        keys[a].0 != keys[b].0,
{
    broadcast use vstd::seq_lib::group_to_multiset_ensures;

    if keys[a].0 == keys[b].0 {
        if keys[a] == keys[b] {
            // the same key twice: its count is at least two, impossible for
            // distinct transactions
            lemma_dup_count(keys, a, b);
            assert(keys0.to_multiset().count(keys[a]) >= 2);
            lemma_count_two_indices(keys0, keys[a]);
            let (x, y) = choose|x: int, y: int|
                0 <= x < y < keys0.len() && (#[trigger] keys0[x]) == keys[a] && (
                #[trigger] keys0[y]) == keys[a];
            assert(keys0[x].0 != keys0[y].0);
        } else {
            assert(keys.contains(keys[a]) && keys.contains(keys[b]));
            assert(keys.to_multiset().count(keys[a]) > 0);
            assert(keys.to_multiset().count(keys[b]) > 0);
            assert(keys0.contains(keys[a]) && keys0.contains(keys[b]));
            let x = choose|x: int| 0 <= x < keys0.len() && keys0[x] == keys[a];
            let y = choose|y: int| 0 <= y < keys0.len() && keys0[y] == keys[b];
            assert(x != y);
            if x < y {
                assert(keys0[x].0 != keys0[y].0);
            } else {
                assert(keys0[y].0 != keys0[x].0);
            }
        }
    }
}

/// A value at two indices counts at least twice.
proof fn lemma_dup_count(s: Seq<(usize, Date)>, a: int, b: int)
    requires
        0 <= a < b < s.len(),
        s[a] == s[b],
    ensures
        s.to_multiset().count(s[a]) >= 2,
    decreases s.len(),
{
    broadcast use vstd::seq_lib::group_to_multiset_ensures;

    if b == s.len() - 1 {
        assert(s.drop_last().contains(s[a])) by {
            assert(s.drop_last()[a] == s[a]);
        }
        assert(s =~= s.drop_last().push(s[b]));
        assert(s.to_multiset() =~= s.drop_last().to_multiset().insert(s[b]));
        assert(s.drop_last().to_multiset().count(s[a]) > 0);
    } else {
        assert forall|j: int| 0 <= j < s.drop_last().len() implies s.drop_last()[j] == s[j] by {}
        lemma_dup_count(s.drop_last(), a, b);
        assert(s =~= s.drop_last().push(s.last()));
        assert(s.to_multiset() =~= s.drop_last().to_multiset().insert(s.last()));
    }
}

/// A count of two comes from two positions.
proof fn lemma_count_two_indices(s: Seq<(usize, Date)>, v: (usize, Date))
    requires
        s.to_multiset().count(v) >= 2,
    ensures
        exists|x: int, y: int| 0 <= x < y < s.len() && (#[trigger] s[x]) == v && (#[trigger] s[y])
            == v,
    decreases s.len(),
{
    broadcast use vstd::seq_lib::group_to_multiset_ensures;

    assert(s.len() >= 1) by {
        if s.len() == 0 {
            assert(s.to_multiset() =~= Multiset::<(usize, Date)>::empty());
        }
    }
    assert(s =~= s.drop_last().push(s.last()));
    assert(s.to_multiset() =~= s.drop_last().to_multiset().insert(s.last()));
    if s.last() == v {
        assert(s.drop_last().to_multiset().count(v) >= 1);
        assert(s.drop_last().contains(v));
        let x = choose|x: int| 0 <= x < s.drop_last().len() && s.drop_last()[x] == v;
        assert(s[x] == v && s[s.len() - 1] == v);
    } else {
        assert(s.drop_last().to_multiset().count(v) >= 2);
        lemma_count_two_indices(s.drop_last(), v);
        let (x, y) = choose|x: int, y: int|
            0 <= x < y < s.drop_last().len() && (#[trigger] s.drop_last()[x]) == v && (
            #[trigger] s.drop_last()[y]) == v;
        assert(s[x] == v && s[y] == v);
    }
}

} // verus!
