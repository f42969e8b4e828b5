//! Ledger behaviour: balanced commits, inference, rejection, removal,
//! queries and the daily statements.

use coinjar::accn::AccnTree;
use coinjar::currency::CurrencyStore;
use coinjar::date::Date;
use coinjar::journal::{Journal, LedgerError, TxnBuilder};
use coinjar::money::Money;
use coinjar::query::Query;
use coinjar::split_cmd::{build_split_txn, parse_split_cmd};

const ONE: i64 = 1_000_000_000_000;

fn fresh_journal() -> Journal {
    Journal::new(AccnTree::new(), CurrencyStore::new())
}

fn segs(path: &str) -> Vec<String> {
    path.split(':').map(|s| s.to_string()).collect()
}

/// A salary payment with the income side inferred balances exactly.
#[test]
fn basic_balanced_transaction() {
    let mut j = fresh_journal();
    let cash = j.open_accn_path(&segs("asset:cash"));
    let salary = j.open_accn_path(&segs("income:salary"));
    let usd = j.currency_store().get_by_code("USD").unwrap();

    let mut b = TxnBuilder::new(Date::new(18628), "Salary".to_string());
    b.with_posting(cash, Some(Money::new(1000 * ONE, usd)));
    b.with_posting(salary, None);
    let t = b.build(&mut j).unwrap();

    assert_eq!(j.txn_count(), 1);
    assert_eq!(j.txn_desc(t), "Salary");
    assert_eq!(j.posting_count(), 2);
    let inferred = j.posting_at(1);
    assert_eq!(inferred.accn, salary);
    assert_eq!(inferred.money.amount(), -1000 * ONE);
    assert_eq!(inferred.money.currency(), usd);
}

/// Without an inferred posting an unbalanced commit is refused and nothing
/// is stored.
#[test]
fn unbalanced_rejection() {
    let mut j = fresh_journal();
    let cash = j.open_accn_path(&segs("asset:cash"));
    let usd = j.currency_store().get_by_code("USD").unwrap();

    let mut b = TxnBuilder::new(Date::new(18628), "Salary".to_string());
    b.with_posting(cash, Some(Money::new(1000 * ONE, usd)));
    let r = b.build(&mut j);

    assert_eq!(r, Err(LedgerError::Unbalanced));
    assert_eq!(j.txn_count(), 0);
    assert_eq!(j.posting_count(), 0);
}

/// Designating the inferred posting twice is a conflict.
#[test]
fn inferred_conflict_rejection() {
    let mut j = fresh_journal();
    let cash = j.open_accn_path(&segs("asset:cash"));
    let salary = j.open_accn_path(&segs("income:salary"));
    let other = j.open_accn_path(&segs("income:bonus"));
    let usd = j.currency_store().get_by_code("USD").unwrap();

    let mut b = TxnBuilder::new(Date::new(18628), "Salary".to_string());
    b.with_posting(cash, Some(Money::new(1000 * ONE, usd)));
    b.with_posting(salary, None);
    b.with_posting(other, None);
    let r = b.build(&mut j);

    assert_eq!(r, Err(LedgerError::InferredPostingConflict));
    assert_eq!(j.txn_count(), 0);
}

/// Merged postings accumulate on the same account and currency.
#[test]
fn combined_postings_merge() {
    let mut j = fresh_journal();
    let cash = j.open_accn_path(&segs("asset:cash"));
    let food = j.open_accn_path(&segs("expense:food"));
    let usd = j.currency_store().get_by_code("USD").unwrap();

    let mut b = TxnBuilder::new(Date::new(1), "Groceries".to_string());
    b.with_posting_combined(food, Some(Money::new(30 * ONE, usd)));
    b.with_posting_combined(food, Some(Money::new(12 * ONE, usd)));
    b.with_posting(cash, None);
    b.build(&mut j).unwrap();

    // one merged expense posting plus the inferred cash posting
    assert_eq!(j.posting_count(), 2);
    assert_eq!(j.posting_at(0).money.amount(), 42 * ONE);
    assert_eq!(j.posting_at(1).money.amount(), -42 * ONE);
}

/// A removed transaction stops answering queries; its postings stay gone.
#[test]
fn removal_hides_the_transaction() {
    let mut j = fresh_journal();
    let cash = j.open_accn_path(&segs("asset:cash"));
    let salary = j.open_accn_path(&segs("income:salary"));
    let usd = j.currency_store().get_by_code("USD").unwrap();

    let mut b = TxnBuilder::new(Date::new(5), "Salary".to_string());
    b.with_posting(cash, Some(Money::new(7 * ONE, usd)));
    b.with_posting(salary, None);
    let t = b.build(&mut j).unwrap();

    let before = j.query_posting(&Query::new());
    assert_eq!(before.hit_count(), 2);

    j.remove(t);
    assert!(!j.txn_live(t));
    let after = j.query_posting(&Query::new());
    assert_eq!(after.hit_count(), 0);
}

fn commit_simple(j: &mut Journal, day: i32, desc: &str, amount: i64) {
    let cash = j.open_accn_path(&segs("asset:cash"));
    let salary = j.open_accn_path(&segs("income:salary"));
    let usd = j.currency_store().get_by_code("USD").unwrap();
    let mut b = TxnBuilder::new(Date::new(day), desc.to_string());
    b.with_posting(cash, Some(Money::new(amount, usd)));
    b.with_posting(salary, None);
    b.build(j).unwrap();
}

/// Postings on day 1 and day 3 of a three-day window: the middle day shows
/// a zero change and the first day's balance carries forward.
#[test]
fn daily_balance_with_gaps() {
    let mut j = fresh_journal();
    commit_simple(&mut j, 1, "first", 10 * ONE);
    commit_simple(&mut j, 3, "third", 5 * ONE);
    let cash = j.open_accn_path(&segs("asset:cash"));
    let usd = j.currency_store().get_by_code("USD").unwrap();

    let q = Query::new().accn(cash).since(Date::new(1)).until(Date::new(3));
    let pq = j.query_posting(&q);
    assert_eq!(pq.hit_count(), 2);

    let rows = pq.daily_balance();
    assert_eq!(rows.len(), 3);
    assert_eq!(rows[0].0.day(), 1);
    assert_eq!(rows[1].0.day(), 2);
    assert_eq!(rows[2].0.day(), 3);

    // day 2 has no change and carries day 1's balance forward
    assert_eq!(rows[0].1.get(usd), 10 * ONE as i128);
    assert_eq!(rows[1].1.entry_count(), 0);
    assert_eq!(rows[2].1.get(usd), 5 * ONE as i128);
    assert_eq!(rows[0].2.get(usd), 10 * ONE as i128);
    assert_eq!(rows[1].2.get(usd), 10 * ONE as i128);
    assert_eq!(rows[2].2.get(usd), 15 * ONE as i128);
}

/// Totals sum every matched posting; account filters follow ancestry.
#[test]
fn totals_and_account_filters() {
    let mut j = fresh_journal();
    commit_simple(&mut j, 1, "first", 10 * ONE);
    commit_simple(&mut j, 2, "second", 20 * ONE);
    let usd = j.currency_store().get_by_code("USD").unwrap();

    // the asset root catches the cash postings through ancestry
    let asset = j.open_accn_path(&segs("asset"));
    let pq = j.query_posting(&Query::new().accn(asset));
    assert_eq!(pq.hit_count(), 2);
    assert_eq!(pq.total().get(usd), 30 * ONE as i128);

    // the whole ledger sums to zero
    let all = j.query_posting(&Query::new());
    let total = all.total();
    assert_eq!(total.get(usd), 0);
    assert_eq!(total.entry_count(), 0);

    // a date bound filters
    let pq = j.query_posting(&Query::new().accn(asset).since(Date::new(2)));
    assert_eq!(pq.hit_count(), 1);
    assert_eq!(pq.total().get(usd), 20 * ONE as i128);
}

/// The split command's little grammar.
#[test]
fn test_parse_split() {
    let cmd = parse_split_cmd("split 100 usd from food to groceries    , snacks ");
    let cmd = cmd.expect("split command should parse");
    assert_eq!(cmd.money, "100 usd");
    assert_eq!(cmd.from, "food");
    assert_eq!(cmd.to, vec!["groceries".to_string(), "snacks".to_string()]);

    assert!(parse_split_cmd("split 100 usd from food").is_none());
    assert!(parse_split_cmd("split from food to x").is_none());
    assert!(parse_split_cmd("pay 100 usd from food to x").is_none());
    assert!(parse_split_cmd("split 100 usd from food to x ,, y").is_none());
}

/// A split builds one balanced transaction: the payer gives the whole
/// amount and each receiver takes an exact share.
#[test]
fn split_transaction_balances() {
    let mut j = fresh_journal();
    let food = j.open_accn_path(&segs("expense:food"));
    let groceries = j.open_accn_path(&segs("expense:groceries"));
    let snacks = j.open_accn_path(&segs("expense:snacks"));
    let m = j.parse_money("100 USD").unwrap();
    let usd = j.currency_store().get_by_code("USD").unwrap();

    let payees = vec![groceries, snacks];
    let t = build_split_txn(&mut j, Date::new(7), "lunch".to_string(), food, &payees, m)
        .unwrap();

    assert_eq!(j.txn_desc(t), "lunch");
    assert_eq!(j.posting_count(), 3);
    assert_eq!(j.posting_at(0).accn, food);
    assert_eq!(j.posting_at(0).money.amount(), -100 * ONE);
    assert_eq!(j.posting_at(1).money.amount(), 50 * ONE);
    assert_eq!(j.posting_at(2).money.amount(), 50 * ONE);

    // the committed transaction balances
    let pq = j.query_posting(&Query::new());
    assert_eq!(pq.total().get(usd), 0);
}

/// A receiver listed twice — or the payer among the receivers — has its
/// shares merged into one posting.
#[test]
fn split_merges_duplicate_receivers() {
    let mut j = fresh_journal();
    let food = j.open_accn_path(&segs("expense:food"));
    let groceries = j.open_accn_path(&segs("expense:groceries"));
    let m = j.parse_money("90 USD").unwrap();
    let usd = j.currency_store().get_by_code("USD").unwrap();

    // groceries twice: its two 30-unit shares merge into one 60-unit posting
    let payees = vec![groceries, food, groceries];
    build_split_txn(&mut j, Date::new(9), "thirds".to_string(), food, &payees, m).unwrap();

    assert_eq!(j.posting_count(), 2);
    // the payer's posting gave 90 and took its own 30-unit share back
    assert_eq!(j.posting_at(0).accn, food);
    assert_eq!(j.posting_at(0).money.amount(), -60 * ONE);
    assert_eq!(j.posting_at(1).accn, groceries);
    assert_eq!(j.posting_at(1).money.amount(), 60 * ONE);

    let pq = j.query_posting(&Query::new());
    assert_eq!(pq.total().get(usd), 0);
}

/// An amount finer than two decimal places cannot split into cent shares.
#[test]
fn split_refuses_sub_cent_amounts() {
    let mut j = fresh_journal();
    let food = j.open_accn_path(&segs("expense:food"));
    let groceries = j.open_accn_path(&segs("expense:groceries"));
    let m = j.parse_money("0.001 USD").unwrap();

    let payees = vec![groceries];
    let r = build_split_txn(&mut j, Date::new(7), "x".to_string(), food, &payees, m);
    assert_eq!(r, Err(LedgerError::Unbalanced));
    assert_eq!(j.txn_count(), 0);
}

/// The register: one row per transaction, date-sorted with commit-order
/// ties, changes and running balances per transaction.
#[test]
fn register_rows_per_transaction() {
    let mut j = fresh_journal();
    // commit out of date order so the register must sort
    commit_simple(&mut j, 3, "third", 5 * ONE);
    commit_simple(&mut j, 1, "first", 10 * ONE);
    commit_simple(&mut j, 1, "also first", 2 * ONE);
    let cash = j.open_accn_path(&segs("asset:cash"));
    let usd = j.currency_store().get_by_code("USD").unwrap();

    let pq = j.query_posting(&Query::new().accn(cash));
    let rows = pq.balances();
    assert_eq!(rows.len(), 3);

    // day 1 rows first, in commit order, then day 3
    assert_eq!(rows[0].date.day(), 1);
    assert_eq!(rows[1].date.day(), 1);
    assert_eq!(rows[2].date.day(), 3);
    assert!(rows[0].txn < rows[1].txn);
    assert_eq!(j.txn_desc(j.nth_txn(rows[0].txn)), "first");
    assert_eq!(j.txn_desc(j.nth_txn(rows[1].txn)), "also first");
    assert_eq!(j.txn_desc(j.nth_txn(rows[2].txn)), "third");

    assert_eq!(rows[0].change.get(usd), 10 * ONE as i128);
    assert_eq!(rows[1].change.get(usd), 2 * ONE as i128);
    assert_eq!(rows[2].change.get(usd), 5 * ONE as i128);
    assert_eq!(rows[0].balance.get(usd), 10 * ONE as i128);
    assert_eq!(rows[1].balance.get(usd), 12 * ONE as i128);
    assert_eq!(rows[2].balance.get(usd), 17 * ONE as i128);
}

/// Contacts provisioned through the ledger are stable identities.
#[test]
fn journal_contacts() {
    let mut j = fresh_journal();
    let c1 = j.provision_contact("bob");
    let c2 = j.provision_contact("bob");
    assert_eq!(c1, c2);
}
