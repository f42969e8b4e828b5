//! The currency catalog: codes, display symbols and display conventions.

use vstd::prelude::*;
use vstd::string::StringExecFns;
use vstd::string::StrSliceExecFns;

use crate::text::{
    char_ieq, is_digit_char, is_upper_char, lower_code, str_eq,
};

verus! {

/// An opaque currency identity, handed out by the catalog that issued it.
#[derive(Clone, Copy, PartialEq, Eq, Structural, Debug)]
pub struct Currency {
    id: usize,
}

impl Currency {
    pub closed spec fn id_spec(self) -> int {
        self.id as int
    }
}

/// What the catalog records of one currency: its upper-case code, its single
/// display symbol, and whether the symbol is written before the magnitude.
pub struct CurrencyData {
    pub code: String,
    pub symbol: String,
    pub symbol_first: bool,
}

/// Shape of a well-formed catalog entry.  The symbol is one character and can
/// never be confused with a digit, a sign, a decimal point or a blank.
pub open spec fn data_wf(d: CurrencyData) -> bool {
    &&& d.code@.len() >= 1
    &&& forall|i: int| 0 <= i < d.code@.len() ==> is_upper_char(#[trigger] d.code@[i])
    &&& d.symbol@.len() == 1
    &&& !is_digit_char(d.symbol@[0])
    &&& d.symbol@[0] != '-'
    &&& d.symbol@[0] != '.'
    &&& d.symbol@[0] != ' '
}

/// The stored code equals the given text once the text's small letters are
/// folded to capitals.
pub open spec fn code_matches(stored: Seq<char>, given: Seq<char>) -> bool {
    &&& stored.len() == given.len()
    &&& forall|j: int| 0 <= j < given.len() ==> lower_code(#[trigger] given[j]) == lower_code(
        stored[j],
    )
}

/// The first catalog index whose code matches the given text, folding case.
pub open spec fn find_code(cat: Seq<CurrencyData>, code: Seq<char>) -> Option<int>
    decreases cat.len(),
{
    if cat.len() == 0 {
        None
    } else if code_matches(cat[0].code@, code) {
        Some(0int)
    } else {
        match find_code(cat.skip(1), code) {
            Some(i) => Some(i + 1),
            None => None,
        }
    }
}

/// The first catalog index whose symbol is exactly the given text.
pub open spec fn find_symbol(cat: Seq<CurrencyData>, symbol: Seq<char>) -> Option<int>
    decreases cat.len(),
{
    if cat.len() == 0 {
        None
    } else if cat[0].symbol@ == symbol {
        Some(0int)
    } else {
        match find_symbol(cat.skip(1), symbol) {
            Some(i) => Some(i + 1),
            None => None,
        }
    }
}

/// Shape of a well-formed catalog: well-formed entries, no two sharing a
/// code (up to case) or a symbol.
pub open spec fn catalog_wf(cat: Seq<CurrencyData>) -> bool {
    &&& forall|i: int| 0 <= i < cat.len() ==> data_wf(#[trigger] cat[i])
    &&& forall|i: int, j: int| #![auto]
        0 <= i < j < cat.len() ==> !code_matches(cat[i].code@, cat[j].code@)
    &&& forall|i: int, j: int| #![auto] 0 <= i < j < cat.len() ==> cat[i].symbol@ != cat[j].symbol@
}

pub struct CurrencyStore {
    list: Vec<CurrencyData>,
}

impl CurrencyStore {
    /// The catalog's entries, in insertion order.
    pub closed spec fn catalog(self) -> Seq<CurrencyData> {
        self.list@
    }

    pub open spec fn wf(self) -> bool {
        catalog_wf(self.catalog())
    }

    pub open spec fn valid(self, c: Currency) -> bool {
        0 <= c.id_spec() < self.catalog().len()
    }

    /// A catalog seeded with the stock currencies.
    pub fn new() -> (s: CurrencyStore)
        ensures
            s.wf(),
            s.catalog().len() == 6,
            s.catalog()[0].code@ == "USD"@ && s.catalog()[0].symbol@ == "$"@
                && s.catalog()[0].symbol_first,
            s.catalog()[1].code@ == "GBP"@ && s.catalog()[1].symbol@ == "\u{a3}"@
                && !s.catalog()[1].symbol_first,
            s.catalog()[2].code@ == "EUR"@ && s.catalog()[2].symbol@ == "\u{20ac}"@
                && s.catalog()[2].symbol_first,
            s.catalog()[3].code@ == "RUB"@ && s.catalog()[3].symbol@ == "\u{20bd}"@
                && !s.catalog()[3].symbol_first,
            s.catalog()[4].code@ == "CNY"@ && s.catalog()[4].symbol@ == "\u{a5}"@
                && s.catalog()[4].symbol_first,
            s.catalog()[5].code@ == "BTC"@ && s.catalog()[5].symbol@ == "\u{20bf}"@
                && s.catalog()[5].symbol_first,
    {
        proof {
            reveal_strlit("USD");
            reveal_strlit("GBP");
            reveal_strlit("EUR");
            reveal_strlit("RUB");
            reveal_strlit("CNY");
            reveal_strlit("BTC");
            reveal_strlit("$");
            reveal_strlit("\u{a3}");
            reveal_strlit("\u{20ac}");
            reveal_strlit("\u{20bd}");
            reveal_strlit("\u{a5}");
            reveal_strlit("\u{20bf}");
        }
        let mut list: Vec<CurrencyData> = Vec::new();
        list.push(CurrencyData {
            code: String::from_str("USD"),
            symbol: String::from_str("$"),
            symbol_first: true,
        });
        list.push(CurrencyData {
            code: String::from_str("GBP"),
            symbol: String::from_str("\u{a3}"),
            symbol_first: false,
        });
        list.push(CurrencyData {
            code: String::from_str("EUR"),
            symbol: String::from_str("\u{20ac}"),
            symbol_first: true,
        });
        list.push(CurrencyData {
            code: String::from_str("RUB"),
            symbol: String::from_str("\u{20bd}"),
            symbol_first: false,
        });
        list.push(CurrencyData {
            code: String::from_str("CNY"),
            symbol: String::from_str("\u{a5}"),
            symbol_first: true,
        });
        list.push(CurrencyData {
            code: String::from_str("BTC"),
            symbol: String::from_str("\u{20bf}"),
            symbol_first: true,
        });
        proof {
            let cat = list@;
            assert(data_wf(cat[0]));
            assert(data_wf(cat[1]));
            assert(data_wf(cat[2]));
            assert(data_wf(cat[3]));
            assert(data_wf(cat[4]));
            assert(data_wf(cat[5]));
            assert forall|i: int, j: int| #![auto]
                0 <= i < j < cat.len() implies !code_matches(cat[i].code@, cat[j].code@) by {
                assert(lower_code(cat[i].code@[0]) != lower_code(cat[j].code@[0]));
            }
            assert forall|i: int, j: int| #![auto]
                0 <= i < j < cat.len() implies cat[i].symbol@ != cat[j].symbol@ by {
                assert(cat[i].symbol@[0] != cat[j].symbol@[0]);
            }
        }
        CurrencyStore { list }
    }

    /// The currency whose code matches `code` up to ASCII case, if any.
    pub fn get_by_code(&self, code: &str) -> (r: Option<Currency>)
        ensures
            r is Some <==> find_code(self.catalog(), code@) is Some,
            r is Some ==> r->Some_0.id_spec() == find_code(self.catalog(), code@)->Some_0,
    {
        let n = self.list.len();
        proof {
            assert(self.catalog().skip(0) =~= self.catalog());
            if find_code(self.catalog(), code@) is Some {
                lemma_find_code_some(self.catalog(), code@);
            }
        }
        let mut i: usize = 0;
        while i < n
            invariant
                n == self.catalog().len(),
                0 <= i <= n,
                find_code(self.catalog().skip(i as int), code@) == (match find_code(
                    self.catalog(),
                    code@,
                ) {
                    Some(k) => if k >= i { Some(k - i) } else { None::<int> },
                    None => None::<int>,
                }),
                forall|k: int| #![auto]
                    0 <= k < i ==> !code_matches(self.catalog()[k].code@, code@),
            decreases n - i,
        {
            let entry = &self.list[i];
            let hit = Self::code_eq(&entry.code, code);
            proof {
                assert(self.catalog().skip(i as int)[0] == self.catalog()[i as int]);
                assert(self.catalog().skip(i as int).skip(1) =~= self.catalog().skip(
                    i as int + 1,
                ));
            }
            if hit {
                return Some(Currency { id: i });
            }
            i = i + 1;
        }
        proof {
            assert(self.catalog().skip(n as int) =~= Seq::<CurrencyData>::empty());
            if find_code(self.catalog(), code@) is Some {
                lemma_find_code_some(self.catalog(), code@);
            }
        }
        None
    }

    /// Case-folded string comparison used for codes.
    fn code_eq(stored: &String, given: &str) -> (r: bool)
        ensures
            r == code_matches(stored@, given@),
    {
        let sn = stored.as_str().unicode_len();
        let gn = given.unicode_len();
        if sn != gn {
            return false;
        }
        let mut j: usize = 0;
        while j < gn
            invariant
                sn == stored@.len(),
                gn == given@.len(),
                sn == gn,
                0 <= j <= gn,
                forall|q: int|
                    0 <= q < j ==> lower_code(#[trigger] given@[q]) == lower_code(stored@[q]),
            decreases gn - j,
        {
            if !char_ieq(stored.as_str().get_char(j), given.get_char(j)) {
                return false;
            }
            j = j + 1;
        }
        true
    }

    /// The currency with exactly this display symbol, if any.
    pub fn get_by_symbol(&self, symbol: &str) -> (r: Option<Currency>)
        ensures
            r is Some <==> find_symbol(self.catalog(), symbol@) is Some,
            r is Some ==> r->Some_0.id_spec() == find_symbol(self.catalog(), symbol@)->Some_0,
    {
        let n = self.list.len();
        proof {
            assert(self.catalog().skip(0) =~= self.catalog());
            if find_symbol(self.catalog(), symbol@) is Some {
                lemma_find_symbol_some(self.catalog(), symbol@);
            }
        }
        let mut i: usize = 0;
        while i < n
            invariant
                n == self.catalog().len(),
                0 <= i <= n,
                find_symbol(self.catalog().skip(i as int), symbol@) == (match find_symbol(
                    self.catalog(),
                    symbol@,
                ) {
                    Some(k) => if k >= i { Some(k - i) } else { None::<int> },
                    None => None::<int>,
                }),
                forall|k: int| #![auto] 0 <= k < i ==> self.catalog()[k].symbol@ != symbol@,
            decreases n - i,
        {
            let entry = &self.list[i];
            let hit = str_eq(entry.symbol.as_str(), symbol);
            proof {
                assert(self.catalog().skip(i as int)[0] == self.catalog()[i as int]);
                assert(self.catalog().skip(i as int).skip(1) =~= self.catalog().skip(
                    i as int + 1,
                ));
            }
            if hit {
                return Some(Currency { id: i });
            }
            i = i + 1;
        }
        proof {
            assert(self.catalog().skip(n as int) =~= Seq::<CurrencyData>::empty());
            if find_symbol(self.catalog(), symbol@) is Some {
                lemma_find_symbol_some(self.catalog(), symbol@);
            }
        }
        None
    }

    /// The currency whose display symbol is exactly this character, if any.
    pub fn get_by_symbol_char(&self, c: char) -> (r: Option<Currency>)
        ensures
            r is Some <==> find_symbol(self.catalog(), seq![c]) is Some,
            r is Some ==> r->Some_0.id_spec() == find_symbol(self.catalog(), seq![c])->Some_0,
    {
        let n = self.list.len();
        proof {
            assert(self.catalog().skip(0) =~= self.catalog());
            if find_symbol(self.catalog(), seq![c]) is Some {
                lemma_find_symbol_some(self.catalog(), seq![c]);
            }
        }
        let mut i: usize = 0;
        while i < n
            invariant
                n == self.catalog().len(),
                0 <= i <= n,
                find_symbol(self.catalog().skip(i as int), seq![c]) == (match find_symbol(
                    self.catalog(),
                    seq![c],
                ) {
                    Some(k) => if k >= i { Some(k - i) } else { None::<int> },
                    None => None::<int>,
                }),
                forall|k: int| #![auto] 0 <= k < i ==> self.catalog()[k].symbol@ != seq![c],
            decreases n - i,
        {
            let entry = &self.list[i];
            let sy = entry.symbol.as_str();
            let hit = sy.unicode_len() == 1 && sy.get_char(0) == c;
            proof {
                if hit {
                    assert(self.catalog()[i as int].symbol@ =~= seq![c]);
                } else {
                    assert(self.catalog()[i as int].symbol@ != seq![c]) by {
                        if self.catalog()[i as int].symbol@ == seq![c] {
                            assert(self.catalog()[i as int].symbol@.len() == 1);
                            assert(self.catalog()[i as int].symbol@[0] == c);
                        }
                    }
                }
                assert(self.catalog().skip(i as int)[0] == self.catalog()[i as int]);
                assert(self.catalog().skip(i as int).skip(1) =~= self.catalog().skip(
                    i as int + 1,
                ));
            }
            if hit {
                return Some(Currency { id: i });
            }
            i = i + 1;
        }
        proof {
            assert(self.catalog().skip(n as int) =~= Seq::<CurrencyData>::empty());
            if find_symbol(self.catalog(), seq![c]) is Some {
                lemma_find_symbol_some(self.catalog(), seq![c]);
            }
        }
        None
    }

    /// Registers a currency.  Returns false, changing nothing, when the code
    /// or symbol has the wrong shape or is already taken.
    pub fn insert(&mut self, code: &str, symbol: &str, symbol_first: bool) -> (ok: bool)
        requires
            old(self).wf(),
        ensures
            final(self).wf(),
            ok == ({
                &&& code@.len() >= 1
                &&& (forall|i: int| 0 <= i < code@.len() ==> is_upper_char(#[trigger] code@[i]))
                &&& symbol@.len() == 1
                &&& !is_digit_char(symbol@[0])
                &&& symbol@[0] != '-' && symbol@[0] != '.' && symbol@[0] != ' '
                &&& find_code(old(self).catalog(), code@) is None
                &&& find_symbol(old(self).catalog(), symbol@) is None
            }),
            ok ==> final(self).catalog().len() == old(self).catalog().len() + 1
                && final(self).catalog().last().code@ == code@
                && final(self).catalog().last().symbol@ == symbol@
                && final(self).catalog().last().symbol_first == symbol_first
                && final(self).catalog().drop_last() == old(self).catalog(),
            !ok ==> *final(self) == *old(self),
    {
        if !Self::shape_ok(code, symbol) {
            return false;
        }
        if self.get_by_code(code).is_some() {
            return false;
        }
        if self.get_by_symbol(symbol).is_some() {
            return false;
        }
        let data = CurrencyData {
            code: String::from_str(code),
            symbol: String::from_str(symbol),
            symbol_first,
        };
        proof {
            lemma_find_code_none(self.catalog(), code@);
            lemma_find_symbol_none(self.catalog(), symbol@);
            assert(self.catalog().push(data).drop_last() =~= self.catalog());
        }
        self.list.push(data);
        true
    }

    fn shape_ok(code: &str, symbol: &str) -> (r: bool)
        ensures
            r == ({
                &&& code@.len() >= 1
                &&& (forall|i: int| 0 <= i < code@.len() ==> is_upper_char(#[trigger] code@[i]))
                &&& symbol@.len() == 1
                &&& !is_digit_char(symbol@[0])
                &&& symbol@[0] != '-' && symbol@[0] != '.' && symbol@[0] != ' '
            }),
    {
        let cn = code.unicode_len();
        if cn == 0 {
            return false;
        }
        let mut i: usize = 0;
        while i < cn
            invariant
                cn == code@.len(),
                0 <= i <= cn,
                forall|q: int| 0 <= q < i ==> is_upper_char(#[trigger] code@[q]),
            decreases cn - i,
        {
            let c = code.get_char(i) as u32;
            if !(65 <= c && c <= 90) {
                return false;
            }
            i = i + 1;
        }
        if symbol.unicode_len() != 1 {
            return false;
        }
        let s = symbol.get_char(0);
        let sv = s as u32;
        if 48 <= sv && sv <= 57 {
            return false;
        }
        if s == '-' || s == '.' || s == ' ' {
            return false;
        }
        true
    }

    /// The record of a currency this catalog issued.
    pub fn data(&self, c: Currency) -> (d: &CurrencyData)
        requires
            self.valid(c),
        ensures
            *d == self.catalog()[c.id_spec()],
    {
        &self.list[c.id]
    }

    /// A `Currency` handle for a catalog index; used by the lookup contracts.
    pub fn nth(&self, i: usize) -> (c: Currency)
        requires
            i < self.catalog().len(),
        ensures
            c.id_spec() == i,
    {
        Currency { id: i }
    }
}

/// Currencies with one identity are one currency.
pub proof fn lemma_currency_eq(a: Currency, b: Currency)
    requires
        a.id_spec() == b.id_spec(),
    ensures
        a == b,
{
}

/// A `None` lookup means no entry matches.
pub proof fn lemma_find_code_none(cat: Seq<CurrencyData>, code: Seq<char>)
    requires
        find_code(cat, code) is None,
    ensures
        forall|i: int| 0 <= i < cat.len() ==> !code_matches(#[trigger] cat[i].code@, code),
    decreases cat.len(),
{
    if cat.len() > 0 {
        lemma_find_code_none(cat.skip(1), code);
        assert forall|i: int| 0 <= i < cat.len() implies !code_matches(
            #[trigger] cat[i].code@,
            code,
        ) by {
            if i > 0 {
                assert(cat.skip(1)[i - 1] == cat[i]);
            }
        }
    }
}

/// A `None` lookup means no entry carries the symbol.
pub proof fn lemma_find_symbol_none(cat: Seq<CurrencyData>, symbol: Seq<char>)
    requires
        find_symbol(cat, symbol) is None,
    ensures
        forall|i: int| 0 <= i < cat.len() ==> #[trigger] cat[i].symbol@ != symbol,
    decreases cat.len(),
{
    if cat.len() > 0 {
        lemma_find_symbol_none(cat.skip(1), symbol);
        assert forall|i: int| 0 <= i < cat.len() implies #[trigger] cat[i].symbol@ != symbol by {
            if i > 0 {
                assert(cat.skip(1)[i - 1] == cat[i]);
            }
        }
    }
}

/// A successful lookup returns a matching entry, and the first one.
pub proof fn lemma_find_code_some(cat: Seq<CurrencyData>, code: Seq<char>)
    requires
        find_code(cat, code) is Some,
    ensures
        0 <= find_code(cat, code)->Some_0 < cat.len(),
        code_matches(cat[find_code(cat, code)->Some_0].code@, code),
    decreases cat.len(),
{
    if cat.len() > 0 && !code_matches(cat[0].code@, code) {
        lemma_find_code_some(cat.skip(1), code);
        let i = find_code(cat.skip(1), code)->Some_0;
        assert(cat.skip(1)[i] == cat[i + 1]);
    }
}

/// In a well-formed catalog, looking an entry's own symbol up finds it.
pub proof fn lemma_find_symbol_exact(cat: Seq<CurrencyData>, ci: int)
    requires
        catalog_wf(cat),
        0 <= ci < cat.len(),
    ensures
        find_symbol(cat, cat[ci].symbol@) == Some(ci),
{
    let symbol = cat[ci].symbol@;
    match find_symbol(cat, symbol) {
        None => {
            lemma_find_symbol_none(cat, symbol);
        },
        Some(j) => {
            lemma_find_symbol_some(cat, symbol);
            assert(cat[j].symbol@ == symbol);
        },
    }
}

/// A successful symbol lookup returns the first entry with that symbol.
pub proof fn lemma_find_symbol_some(cat: Seq<CurrencyData>, symbol: Seq<char>)
    requires
        find_symbol(cat, symbol) is Some,
    ensures
        0 <= find_symbol(cat, symbol)->Some_0 < cat.len(),
        cat[find_symbol(cat, symbol)->Some_0].symbol@ == symbol,
    decreases cat.len(),
{
    if cat.len() > 0 && cat[0].symbol@ != symbol {
        lemma_find_symbol_some(cat.skip(1), symbol);
        let i = find_symbol(cat.skip(1), symbol)->Some_0;
        assert(cat.skip(1)[i] == cat[i + 1]);
    }
}

} // verus!
