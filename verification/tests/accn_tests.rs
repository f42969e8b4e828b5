//! Account store behaviour: creation, ancestry, naming, fuzzy lookup,
//! elders and contacts.

use coinjar::accn::{AccnQuery, AccnTree};

fn tokens(path: &str) -> Vec<String> {
    path.split(':').map(|s| s.to_string()).collect()
}

/// A chain of accounts mirroring nested names; the trailing two-segment
/// window of `a:a` must match even across the `b` branch.
#[test]
fn test_by_name_fuzzy() {
    let mut tree = AccnTree::new();
    let root = tree.root();
    let a = tree.or_open_child(root, "a");
    let aa = tree.or_open_child(a, "aa");
    let aab = tree.or_open_child(aa, "aab");
    let aaab = tree.or_open_child(aab, "aaab");
    let b = tree.or_open_child(aaab, "b");
    let ba = tree.or_open_child(b, "ba");
    let bab = tree.or_open_child(ba, "bab");
    let _baab = tree.or_open_child(bab, "baab");

    let hits = tree.by_name_fuzzy(&tokens("a:a"));
    let names: Vec<String> = hits.iter().map(|h| tree.name(*h).clone()).collect();
    assert_eq!(names, vec!["aa", "aab", "aaab", "bab", "baab"]);
}

#[test]
fn test_by_name_fuzzy_root() {
    let tree = AccnTree::new();
    let hits = tree.by_name_fuzzy(&tokens("r:aasdf"));
    assert_eq!(hits.len(), 0);
}

#[test]
fn test_parent() {
    let mut tree = AccnTree::new();
    let root = tree.root();
    let assets = tree.or_open_child(root, "assets");
    let bank = tree.or_open_child(assets, "bank");
    let checking = tree.or_open_child(bank, "checking");

    assert_eq!(tree.parent(checking), Some(bank));
    assert_eq!(tree.parent(bank), Some(assets));
    assert_eq!(tree.parent(assets), Some(tree.root()));
}

#[test]
fn test_ancestor() {
    let mut tree = AccnTree::new();
    let root = tree.root();
    let assets = tree.or_open_child(root, "assets");
    let bank = tree.or_open_child(assets, "bank");
    let checking = tree.or_open_child(bank, "checking");

    // the account itself, two ancestors, and the root
    let mut count = 0;
    let mut cur = Some(checking);
    while let Some(a) = cur {
        count += 1;
        cur = tree.parent(a);
    }
    assert_eq!(count, 4);
}

#[test]
fn test_display() {
    let mut tree = AccnTree::new();
    let root = tree.root();
    let assets = tree.or_open_child(root, "assets");
    let bank = tree.or_open_child(assets, "bank");
    let checking = tree.or_open_child(bank, "checking");

    assert_eq!(tree.abs_name(checking), "assets:bank:checking");
}

/// Nested matches keep only the outermost account.
#[test]
fn test_elders() {
    let mut tree = AccnTree::new();
    let expense = tree.expense();
    let food = tree.or_open_child(expense, "food");
    let drinks = tree.or_open_child(food, "drinks");
    let _beer = tree.or_open_child(drinks, "beer-drinks");

    let q = AccnQuery::new().name("drinks".to_string());
    let hits = tree.query(&q);
    assert_eq!(hits.len(), 2);

    let elders = tree.elders(&hits);
    let names: Vec<String> = elders.iter().map(|a| tree.abs_name(*a)).collect();
    assert_eq!(names, vec!["expense:food:drinks"]);
}

/// Asking twice returns the same identity and never duplicates a sibling.
#[test]
fn open_or_create_is_idempotent() {
    let mut tree = AccnTree::new();
    let root = tree.root();
    let before = tree.count();
    let x1 = tree.or_open_child(root, "x");
    let after_first = tree.count();
    let x2 = tree.or_open_child(root, "x");
    let after_second = tree.count();

    assert_eq!(x1, x2);
    assert_eq!(after_first, before + 1);
    assert_eq!(after_second, after_first);
}

/// Resolving a path and reading the absolute name are inverse.
#[test]
fn path_round_trip() {
    let mut tree = AccnTree::new();
    let segs: Vec<String> = vec!["expense".to_string(), "food".to_string(), "drinks".to_string()];
    let accn = tree.resolve_path(&segs);
    assert_eq!(tree.abs_name(accn), "expense:food:drinks");

    let deep = tree.resolve_path(&tokens("asset:bank:checking"));
    assert_eq!(tree.abs_name(deep), "asset:bank:checking");
}

/// The spread forest: leaves under roots `a` and `b`, queried with `a:a`.
#[test]
fn fuzzy_forest_two_roots() {
    let mut tree = AccnTree::new();
    let root = tree.root();
    let a = tree.or_open_child(root, "a");
    let aa = tree.or_open_child(a, "aa");
    let aab = tree.or_open_child(aa, "aab");
    let _aaab = tree.or_open_child(aab, "aaab");
    let b = tree.or_open_child(root, "b");
    let ba = tree.or_open_child(b, "ba");
    let bab = tree.or_open_child(ba, "bab");
    let _baab = tree.or_open_child(bab, "baab");

    let hits = tree.by_name_fuzzy(&tokens("a:a"));
    let mut names: Vec<String> = hits.iter().map(|h| tree.name(*h).clone()).collect();
    names.sort();
    let mut expected = vec!["aa", "aab", "aaab", "bab", "baab"];
    expected.sort();
    assert_eq!(names, expected);
    // the root never appears
    assert!(hits.iter().all(|h| *h != tree.root()));
}

/// Exact-name lookup answers only for a unique holder of the name.
#[test]
fn by_name_unique_cardinality() {
    let mut tree = AccnTree::new();
    let expense = tree.expense();
    let food = tree.or_open_child(expense, "food");
    let _drinks = tree.or_open_child(food, "drinks");

    let hit = tree.by_name_unique("drinks").unwrap();
    assert_eq!(tree.abs_name(hit), "expense:food:drinks");

    // no holder: the empty candidate list
    let miss = tree.by_name_unique("fuel");
    assert_eq!(miss.unwrap_err().len(), 0);

    // two holders: both reported
    let income = tree.income();
    let _also = tree.or_open_child(income, "drinks");
    let ambiguous = tree.by_name_unique("drinks");
    assert_eq!(ambiguous.unwrap_err().len(), 2);
}

/// Fuzzy ingestion: `ex:fo:drinks` lands on `expense:food:drinks`, and
/// with creation allowed a missing leaf is opened as written.
#[test]
fn fuzzy_resolution_descends_unique_matches() {
    let mut tree = AccnTree::new();
    let expense = tree.expense();
    let food = tree.or_open_child(expense, "food");
    let drinks = tree.or_open_child(food, "drinks");

    let hit = tree.fuzzy_resolve_path(&tokens("ex:fo:drin"), false);
    assert_eq!(hit, Some(drinks));

    // an ambiguous first segment gives up: "e" matches expense and equity
    assert_eq!(tree.fuzzy_resolve_path(&tokens("e:food"), false), None);

    // an unmatched leaf is refused without creation, opened with it
    assert_eq!(tree.fuzzy_resolve_path(&tokens("ex:fo:beer"), false), None);
    let before = tree.count();
    let beer = tree.fuzzy_resolve_path(&tokens("ex:fo:beer"), true).unwrap();
    assert_eq!(tree.count(), before + 1);
    assert_eq!(tree.abs_name(beer), "expense:food:beer");
}

/// Contacts get their payable and receivable accounts once.
#[test]
fn provision_contact_is_idempotent() {
    let mut tree = AccnTree::new();
    let c1 = tree.provision_contact("alice");
    let n1 = tree.count();
    let c2 = tree.provision_contact("alice");
    let n2 = tree.count();

    assert_eq!(c1, c2);
    assert_eq!(n1, n2);
    assert_eq!(tree.abs_name(c1.payable), "liability:@alice:payable");
    assert_eq!(tree.abs_name(c1.receivable), "asset:@alice:receivable");
}
