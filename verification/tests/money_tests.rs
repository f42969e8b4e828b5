//! Money behaviour: exact splitting, parsing, display, and the reparse
//! round trip.

use coinjar::currency::CurrencyStore;
use coinjar::money::{Money, AMOUNT_MAX, SCALE};
use coinjar::money_text::{MoneyBuilder, MoneyParseError};

/// One whole unit as a mantissa.
const ONE: i64 = 1_000_000_000_000;

fn usd(store: &CurrencyStore) -> coinjar::currency::Currency {
    store.get_by_code("USD").unwrap()
}

/// Splitting 100.00 eleven ways at eleven decimal places: the parts sum
/// exactly and spread by at most 1e-11.
#[test]
fn test_split() {
    let store = CurrencyStore::new();
    let money = Money::new(100 * ONE, usd(&store));
    let dp = 11;
    let n = 11;
    let parts = money.split(n, dp);
    let amounts: Vec<i64> = parts.iter().map(|m| m.amount()).collect();

    let sum: i64 = amounts.iter().sum();
    let max = *amounts.iter().max().unwrap();
    let min = *amounts.iter().min().unwrap();
    // 1e-11 at twelve decimal places is a mantissa of 10
    let precision: i64 = 10;

    assert_eq!(sum, 100 * ONE);
    assert!(max - min <= precision);
}

/// An uneven split at two decimal places: the odd cent lands on the first
/// share and nothing is lost.
#[test]
fn split_spreads_the_remainder() {
    let store = CurrencyStore::new();
    // 100.01 split three ways
    let money = Money::new(100 * ONE + ONE / 100, usd(&store));
    let parts = money.split(3, 2);
    let amounts: Vec<i64> = parts.iter().map(|m| m.amount()).collect();

    let sum: i64 = amounts.iter().sum();
    assert_eq!(sum, 100 * ONE + ONE / 100);
    // round half even gives 33.34 per share, one share handing back a cent
    assert_eq!(amounts, vec![33 * ONE + 33 * ONE / 100, 34 * ONE / 100 + 33 * ONE, 34 * ONE / 100 + 33 * ONE]);
}

#[test]
fn split_single_share_is_exact() {
    let store = CurrencyStore::new();
    // a whole-cent amount splits into itself
    let money = Money::new(12 * ONE + 34 * ONE / 100, usd(&store));
    let parts = money.split(1, 2);
    assert_eq!(parts.len(), 1);
    assert_eq!(parts[0].amount(), 12 * ONE + 34 * ONE / 100);

    // finer than the asked precision, a lone share is rounded: the sum
    // changes, which is why exactness asks for a representable amount
    let money = Money::new(12_345_678_900_000, usd(&store));
    let parts = money.split(1, 2);
    assert_eq!(parts[0].amount(), 12 * ONE + 35 * ONE / 100);
}

#[test]
fn parse_symbol_first() {
    let store = CurrencyStore::new();
    let m = Money::from_string("$10", &store).unwrap();
    assert_eq!(m.amount(), 10 * ONE);
    assert_eq!(m.currency(), usd(&store));

    let m = Money::from_string("-$10", &store).unwrap();
    assert_eq!(m.amount(), -10 * ONE);

    let m = Money::from_string("$-10.00", &store).unwrap();
    assert_eq!(m.amount(), -10 * ONE);
}

#[test]
fn parse_symbol_trailing_and_code() {
    let store = CurrencyStore::new();
    let gbp = store.get_by_code("GBP").unwrap();

    let m = Money::from_string("10\u{a3}", &store).unwrap();
    assert_eq!(m.amount(), 10 * ONE);
    assert_eq!(m.currency(), gbp);

    let m = Money::from_string("-10.50\u{a3}", &store).unwrap();
    assert_eq!(m.amount(), -(10 * ONE + ONE / 2));

    let m = Money::from_string("10 GBP", &store).unwrap();
    assert_eq!(m.currency(), gbp);

    let m = Money::from_string("-10.00 gbp", &store).unwrap();
    assert_eq!(m.amount(), -10 * ONE);
    assert_eq!(m.currency(), gbp);
}

#[test]
fn parse_errors() {
    let store = CurrencyStore::new();
    assert_eq!(Money::from_string("", &store), Err(MoneyParseError::BadFormat));
    assert_eq!(Money::from_string("$abc", &store), Err(MoneyParseError::BadFormat));
    assert_eq!(Money::from_string("10", &store), Err(MoneyParseError::BadFormat));
    assert_eq!(Money::from_string("10.", &store), Err(MoneyParseError::BadFormat));
    assert_eq!(
        Money::from_string("10.1234567890123 USD", &store),
        Err(MoneyParseError::BadFormat)
    );
    // the unknown code or symbol comes back with the error
    assert_eq!(
        Money::from_string("100.00 XYZ", &store),
        Err(MoneyParseError::CurrencyNotFound("XYZ".to_string()))
    );
    assert_eq!(
        Money::from_string("?10.00", &store),
        Err(MoneyParseError::CurrencyNotFound("?".to_string()))
    );
    // beyond the largest representable amount
    assert_eq!(
        Money::from_string("1000001 USD", &store),
        Err(MoneyParseError::BadFormat)
    );
    assert_eq!(Money::from_string("1000000 USD", &store).unwrap().amount(), AMOUNT_MAX);
}

#[test]
fn display_conventions() {
    let store = CurrencyStore::new();
    let gbp = store.get_by_code("GBP").unwrap();

    let m = Money::new(10 * ONE, usd(&store));
    assert_eq!(m.display(&store), "$10.00");

    let m = Money::new(-10 * ONE, usd(&store));
    assert_eq!(m.display(&store), "-$10.00");

    let m = Money::new(10 * ONE, gbp);
    assert_eq!(m.display(&store), "10.00\u{a3}");

    let m = Money::new(-(10 * ONE + 5 * ONE / 10), gbp);
    assert_eq!(m.display(&store), "-10.50\u{a3}");

    let m = Money::new(0, usd(&store));
    assert_eq!(m.display(&store), "$0.00");

    // display rounds half to even at two decimal places
    let m = Money::new(ONE / 100 / 2, usd(&store));
    assert_eq!(m.display(&store), "$0.00");
    let m = Money::new(3 * (ONE / 100) / 2, usd(&store));
    assert_eq!(m.display(&store), "$0.02");
}

/// Reparse equality: what display writes, from_string reads back.
#[test]
fn display_reparse_round_trip() {
    let store = CurrencyStore::new();
    let gbp = store.get_by_code("GBP").unwrap();
    let cases: Vec<i64> = vec![
        0,
        10 * ONE,
        -10 * ONE,
        10 * ONE + 5 * ONE / 10,
        123_456 * ONE + 78 * ONE / 100,
        -(99 * ONE / 100),
    ];
    for amount in cases {
        for cur in [usd(&store), gbp] {
            let m = Money::new(amount, cur);
            let text = m.display(&store);
            let back = Money::from_string(&text, &store).unwrap();
            assert_eq!(back, m, "reparse failed for {}", text);
        }
    }
}

#[test]
fn builder_resolves_code_over_symbol() {
    let store = CurrencyStore::new();
    let mut b = MoneyBuilder::new();
    b.with_amount(5 * ONE);
    b.with_code("eur".to_string());
    b.with_symbol("$".to_string());
    let m = b.into_money(&store).unwrap();
    assert_eq!(m.currency(), store.get_by_code("EUR").unwrap());

    let mut b = MoneyBuilder::new();
    b.with_amount(5 * ONE);
    b.neg();
    b.with_symbol("$".to_string());
    let m = b.into_money(&store).unwrap();
    assert_eq!(m.amount(), -5 * ONE);
    assert_eq!(m.currency(), usd(&store));

    let mut b = MoneyBuilder::new();
    b.with_symbol("$".to_string());
    assert_eq!(b.into_money(&store), Err(MoneyParseError::BadFormat));

    let mut b = MoneyBuilder::new();
    b.with_amount(ONE);
    b.with_code("XYZ".to_string());
    assert_eq!(
        b.into_money(&store),
        Err(MoneyParseError::CurrencyNotFound("XYZ".to_string()))
    );
}

#[test]
fn money_arithmetic() {
    let store = CurrencyStore::new();
    let usd = store.get_by_code("USD").unwrap();
    let z = Money::zero(usd);
    assert_eq!(z.amount(), 0);

    let mut m = Money::new(7 * ONE, usd);
    m.add_assign(Money::new(3 * ONE, usd));
    assert_eq!(m.amount(), 10 * ONE);
    assert_eq!(m.neg().amount(), -10 * ONE);
    assert!(m.eq_currency(&z));
}

#[test]
fn date_ordering_and_shift() {
    let d = coinjar::date::Date::new(100);
    assert!(d.lt(d.succ()));
    assert!(d.le(d));
    assert_eq!(d.shifted(-3).day(), 97);
    assert_eq!(d.shifted(5).day(), 105);
}

#[test]
fn currency_store_rejects_duplicates() {
    let mut store = CurrencyStore::new();
    assert!(!store.insert("USD", "u", true));
    assert!(!store.insert("ABC", "$", true));
    assert!(store.insert("ABC", "a", true));
    assert!(store.get_by_code("abc").is_some());
    let _ = SCALE;
}
