//! The textual form of an amount: parsing (`Money::from_string`) and
//! display.  A text is either symbol-first (`$10.00`, `-$10`), magnitude
//! with a trailing symbol (`10.00£`), or magnitude with a trailing ISO code
//! (`10.00 USD`); the sign may precede the whole token.  Display always
//! writes two decimal places, rounding half to even.

use vstd::prelude::*;
use vstd::math::abs;
use vstd::string::StringExecFns;
use vstd::string::StrSliceExecFns;

use crate::currency::{
    find_code, find_symbol, Currency, CurrencyData, CurrencyStore,
};
use crate::money::{amount_ok, Money, AMOUNT_MAX, SCALE};
use crate::num::{lemma_pow10_18, lemma_pow10_adds, lemma_pow10_mono, lemma_pow10_pos, pow10,
    pow10_i64, rhe, rhe_i128};
use crate::text::{digit_char_val, is_alpha_char, is_digit_char};

verus! {

/// Why a money text was refused.
#[derive(Clone, PartialEq, Eq, Debug)]
pub enum MoneyParseError {
    /// The text does not have the shape of an amount, or the amount does
    /// not fit the engine's range or scale.
    BadFormat,
    /// The shape is right but the named symbol or code is not in the
    /// catalog; the offending text is carried for the caller to surface.
    CurrencyNotFound(String),
}

/// The mathematical shadow of a refusal.
pub enum MoneyParseErrV {
    BadFormat,
    CurrencyNotFound(Seq<char>),
}

impl View for MoneyParseError {
    type V = MoneyParseErrV;

    open spec fn view(&self) -> MoneyParseErrV {
        match self {
            MoneyParseError::BadFormat => MoneyParseErrV::BadFormat,
            MoneyParseError::CurrencyNotFound(text) => MoneyParseErrV::CurrencyNotFound(text@),
        }
    }
}

pub open spec fn all_digits(s: Seq<char>) -> bool {
    forall|i: int| 0 <= i < s.len() ==> is_digit_char(#[trigger] s[i])
}

pub open spec fn all_alpha(s: Seq<char>) -> bool {
    forall|i: int| 0 <= i < s.len() ==> is_alpha_char(#[trigger] s[i])
}

/// The value of a digit string.
pub open spec fn digits_val(s: Seq<char>) -> int
    decreases s.len(),
{
    if s.len() == 0 {
        0
    } else {
        digits_val(s.drop_last()) * 10 + digit_char_val(s.last())
    }
}

/// The mantissa a number text denotes: digits with an optional point and at
/// most [`SCALE`] fraction digits.
pub open spec fn num_mantissa(s: Seq<char>) -> Option<int> {
    match s.index_of_first('.') {
        None => if s.len() >= 1 && all_digits(s) {
            Some(digits_val(s) * pow10(SCALE as nat))
        } else {
            None
        },
        Some(p) => {
            let ip = s.take(p);
            let fp = s.skip(p + 1);
            if ip.len() >= 1 && fp.len() >= 1 && fp.len() <= SCALE && all_digits(ip)
                && all_digits(fp) {
                Some(
                    digits_val(ip) * pow10(SCALE as nat) + digits_val(fp) * pow10(
                        (SCALE - fp.len()) as nat,
                    ),
                )
            } else {
                None
            }
        },
    }
}

/// The first position at or after `k` that cannot belong to a number.
pub open spec fn num_end(s: Seq<char>, k: int) -> int
    decreases s.len() - k,
{
    if k < 0 || k >= s.len() {
        s.len() as int
    } else if is_digit_char(s[k]) || s[k] == '.' {
        num_end(s, k + 1)
    } else {
        k
    }
}

/// The first position at or after `k` that is not a blank.
pub open spec fn blank_end(s: Seq<char>, k: int) -> int
    decreases s.len() - k,
{
    if k < 0 || k >= s.len() {
        s.len() as int
    } else if s[k] == ' ' {
        blank_end(s, k + 1)
    } else {
        k
    }
}

/// What a money text denotes against a catalog: a signed mantissa and the
/// catalog index of its currency, or the reason it is refused.
pub open spec fn parse_money_spec(s: Seq<char>, cat: Seq<CurrencyData>) -> Result<
    (int, int),
    MoneyParseErrV,
> {
    let neg1 = s.len() > 0 && s[0] == '-';
    let t = if neg1 {
        s.skip(1)
    } else {
        s
    };
    if t.len() == 0 {
        Err(MoneyParseErrV::BadFormat)
    } else if !is_digit_char(t[0]) && t[0] != '.' {
        // a leading currency symbol
        let sym = t[0];
        let neg2 = t.len() > 1 && t[1] == '-';
        let u = if neg2 {
            t.skip(2)
        } else {
            t.skip(1)
        };
        if neg1 && neg2 {
            Err(MoneyParseErrV::BadFormat)
        } else {
            match num_mantissa(u) {
                None => Err(MoneyParseErrV::BadFormat),
                Some(a) => if a > AMOUNT_MAX as int {
                    Err(MoneyParseErrV::BadFormat)
                } else {
                    match find_symbol(cat, seq![sym]) {
                        None => Err(MoneyParseErrV::CurrencyNotFound(seq![sym])),
                        Some(ci) => Ok(
                            (
                                if neg1 || neg2 {
                                    -a
                                } else {
                                    a
                                },
                                ci,
                            ),
                        ),
                    }
                },
            }
        }
    } else {
        // the magnitude first, then a symbol or a code
        let nend = num_end(t, 0);
        let numpart = t.take(nend);
        let rest = t.skip(nend);
        match num_mantissa(numpart) {
            None => Err(MoneyParseErrV::BadFormat),
            Some(a) => if a > AMOUNT_MAX as int {
                Err(MoneyParseErrV::BadFormat)
            } else {
                let signed = if neg1 {
                    -a
                } else {
                    a
                };
                if rest.len() == 0 {
                    Err(MoneyParseErrV::BadFormat)
                } else if rest[0] == ' ' {
                    let code = rest.skip(blank_end(rest, 0));
                    if code.len() >= 1 && all_alpha(code) {
                        match find_code(cat, code) {
                            None => Err(MoneyParseErrV::CurrencyNotFound(code)),
                            Some(ci) => Ok((signed, ci)),
                        }
                    } else {
                        Err(MoneyParseErrV::BadFormat)
                    }
                } else if rest.len() == 1 {
                    match find_symbol(cat, rest) {
                        None => Err(MoneyParseErrV::CurrencyNotFound(rest)),
                        Some(ci) => Ok((signed, ci)),
                    }
                } else {
                    Err(MoneyParseErrV::BadFormat)
                }
            },
        }
    }
}

/// A decimal digit as a character.
pub open spec fn digit_char(d: int) -> char {
    if d == 0 {
        '0'
    } else if d == 1 {
        '1'
    } else if d == 2 {
        '2'
    } else if d == 3 {
        '3'
    } else if d == 4 {
        '4'
    } else if d == 5 {
        '5'
    } else if d == 6 {
        '6'
    } else if d == 7 {
        '7'
    } else if d == 8 {
        '8'
    } else {
        '9'
    }
}

/// The decimal digits of a non-negative integer, most significant first.
pub open spec fn dec_digits(n: int) -> Seq<char>
    decreases n,
{
    if n <= 9 {
        seq![digit_char(n)]
    } else {
        dec_digits(n / 10).push(digit_char(n % 10))
    }
}

/// What display writes: sign, then symbol and magnitude in the currency's
/// order; the magnitude has exactly two decimal places, rounded half to
/// even.
pub open spec fn display_spec(amount: int, data: CurrencyData) -> Seq<char> {
    let cents = rhe(abs(amount) as int, pow10((SCALE - 2) as nat));
    let sign: Seq<char> = if amount < 0 {
        seq!['-']
    } else {
        Seq::<char>::empty()
    };
    let mag = dec_digits(cents / 100) + seq!['.'] + seq![
        digit_char((cents / 10) % 10),
        digit_char(cents % 10),
    ];
    if data.symbol_first {
        sign + data.symbol@ + mag
    } else {
        sign + mag + data.symbol@
    }
}

impl Money {
    /// Renders the amount for people: two decimal places, rounded half to
    /// even, the currency's symbol placed by its convention, the sign first.
    pub fn display(&self, store: &CurrencyStore) -> (r: String)
        requires
            self.wf(),
            store.wf(),
            store.valid(self.currency_spec()),
        ensures
            r@ == display_spec(
                self.amount_spec(),
                store.catalog()[self.currency_spec().id_spec()],
            ),
    {
        proof {
            lemma_pow10_pos((SCALE - 2) as nat);
            lemma_pow10_mono((SCALE - 2) as nat, 18);
            lemma_pow10_18();
        }
        let unit: i64 = pow10_i64(SCALE - 2);
        let amount = self.amount();
        let mag: i128 = if amount >= 0 {
            amount as i128
        } else {
            -(amount as i128)
        };
        proof {
            assert(mag as int == abs(self.amount_spec()));
        }
        let cents128: i128 = rhe_i128(mag, unit as i128);
        let cents: u64 = cents128 as u64;
        proof {
            assert(0 <= cents128 <= mag);
        }
        let data = store.data(self.currency());
        let mut out = String::new();
        if amount < 0 {
            out.append("-");
            proof {
                reveal_strlit("-");
                assert("-"@ =~= seq!['-']);
            }
        }
        proof {
            assert(out@ == (if self.amount_spec() < 0 {
                seq!['-']
            } else {
                Seq::<char>::empty()
            }));
        }
        if data.symbol_first {
            out.append(data.symbol.as_str());
            push_u64_digits(&mut out, cents / 100);
            out.append(".");
            push_digit(&mut out, (cents / 10) % 10);
            push_digit(&mut out, cents % 10);
        } else {
            push_u64_digits(&mut out, cents / 100);
            out.append(".");
            push_digit(&mut out, (cents / 10) % 10);
            push_digit(&mut out, cents % 10);
            out.append(data.symbol.as_str());
        }
        proof {
            reveal_strlit(".");
            reveal_strlit("-");
            assert("."@ =~= seq!['.']);
            assert(out@ =~= display_spec(
                self.amount_spec(),
                store.catalog()[self.currency_spec().id_spec()],
            ));
        }
        out
    }

    /// Reads an amount from text and resolves its currency in the catalog.
    /// The shape must be a leading symbol, a trailing symbol, or a trailing
    /// code after a blank; unknown symbols and codes are reported, not
    /// guessed at.
    #[verifier::rlimit(60)]
    pub fn from_string(s: &str, store: &CurrencyStore) -> (r: Result<Money, MoneyParseError>)
        ensures
            (match parse_money_spec(s@, store.catalog()) {
                Ok(pair) => r is Ok && r->Ok_0.amount_spec() == pair.0
                    && r->Ok_0.currency_spec().id_spec() == pair.1 && r->Ok_0.wf(),
                Err(ev) => r is Err && r->Err_0@ == ev,
            }),
    {
        let n = s.unicode_len();
        let neg1 = n > 0 && s.get_char(0) == '-';
        let toff: usize = if neg1 {
            1
        } else {
            0
        };
        let ghost t = if neg1 {
            s@.skip(1)
        } else {
            s@
        };
        proof {
            assert(t =~= s@.skip(toff as int));
            assert forall|i: int| 0 <= i < t.len() implies t[i] == s@[toff + i] by {}
        }
        if n - toff == 0 {
            return Err(MoneyParseError::BadFormat);
        }
        let c0 = s.get_char(toff);
        proof {
            assert(t[0] == s@[toff as int]);
        }
        let c0d = is_digit_exec(c0);
        if !c0d && c0 != '.' {
            // a leading currency symbol
            let sym = c0;
            let neg2 = n - toff > 1 && s.get_char(toff + 1) == '-';
            let uoff: usize = if neg2 {
                toff + 2
            } else {
                toff + 1
            };
            let ghost u = if neg2 {
                t.skip(2)
            } else {
                t.skip(1)
            };
            proof {
                assert(u =~= s@.skip(uoff as int));
            }
            if neg1 && neg2 {
                return Err(MoneyParseError::BadFormat);
            }
            let am = scan_mantissa(s, uoff, n);
            let a: i64 = match am {
                Some(a) => a,
                None => {
                    return Err(MoneyParseError::BadFormat);
                },
            };
            let ci = match store.get_by_symbol_char(sym) {
                Some(c) => c,
                None => {
                    let symtext = s.substring_char(toff, toff + 1);
                    proof {
                        assert(symtext@ =~= seq![sym]);
                    }
                    return Err(MoneyParseError::CurrencyNotFound(String::from_str(symtext)));
                },
            };
            let signed: i64 = if neg1 || neg2 {
                -a
            } else {
                a
            };
            Ok(Money::new(signed, ci))
        } else {
            // the magnitude first, then a symbol or a code
            let nend = scan_num_end(s, toff, n);
            let ghost nend_rel = nend - toff;
            proof {
                assert(num_end(t, 0) == nend_rel) by {
                    lemma_num_end_shift(s@, toff as int, nend as int);
                    assert(t =~= s@.skip(toff as int));
                }
                assert(t.take(nend_rel) =~= s@.subrange(toff as int, nend as int));
                assert(t.skip(nend_rel) =~= s@.skip(nend as int));
            }
            let am = scan_mantissa_until(s, toff, nend);
            let a: i64 = match am {
                Some(a) => a,
                None => {
                    return Err(MoneyParseError::BadFormat);
                },
            };
            let signed: i64 = if neg1 {
                -a
            } else {
                a
            };
            if nend == n {
                return Err(MoneyParseError::BadFormat);
            }
            proof {
                assert(t.skip(nend_rel)[0] == s@[nend as int]);
            }
            let cr = s.get_char(nend);
            if cr == ' ' {
                let coff = scan_blank_end(s, nend, n);
                proof {
                    lemma_blank_end_shift(s@, nend as int, coff as int);
                    assert(blank_end(t.skip(nend_rel), 0) == coff - nend) by {
                        assert(t.skip(nend_rel) == s@.skip(nend as int));
                    }
                    assert(t.skip(nend_rel).skip(coff - nend) =~= s@.skip(coff as int));
                    assert(s@.skip(coff as int) =~= s@.subrange(coff as int, n as int));
                }
                let code_ok = check_alpha(s, coff, n);
                if !code_ok || coff == n {
                    return Err(MoneyParseError::BadFormat);
                }
                let code = s.substring_char(coff, n);
                proof {
                    assert(code@ =~= s@.subrange(coff as int, n as int));
                    assert(code@ == t.skip(nend_rel).skip(blank_end(t.skip(nend_rel), 0)));
                }
                let ci = match store.get_by_code(code) {
                    Some(c) => c,
                    None => {
                        return Err(MoneyParseError::CurrencyNotFound(String::from_str(code)));
                    },
                };
                Ok(Money::new(signed, ci))
            } else {
                if n - nend != 1 {
                    return Err(MoneyParseError::BadFormat);
                }
                let sympart = s.substring_char(nend, n);
                proof {
                    assert(sympart@ =~= t.skip(nend_rel));
                }
                let ci = match store.get_by_symbol(sympart) {
                    Some(c) => c,
                    None => {
                        return Err(MoneyParseError::CurrencyNotFound(String::from_str(
                            sympart,
                        )));
                    },
                };
                Ok(Money::new(signed, ci))
            }
        }
    }
}

/// Appends one digit character.
fn push_digit(s: &mut String, d: u64)
    requires
        d < 10,
    ensures
        final(s)@ == old(s)@ + seq![digit_char(d as int)],
{
    proof {
        reveal_strlit("0");
        reveal_strlit("1");
        reveal_strlit("2");
        reveal_strlit("3");
        reveal_strlit("4");
        reveal_strlit("5");
        reveal_strlit("6");
        reveal_strlit("7");
        reveal_strlit("8");
        reveal_strlit("9");
    }
    if d == 0 {
        s.append("0");
        proof {
            assert(s@ =~= old(s)@ + seq![digit_char(d as int)]);
        }
    } else if d == 1 {
        s.append("1");
        proof {
            assert(s@ =~= old(s)@ + seq![digit_char(d as int)]);
        }
    } else if d == 2 {
        s.append("2");
        proof {
            assert(s@ =~= old(s)@ + seq![digit_char(d as int)]);
        }
    } else if d == 3 {
        s.append("3");
        proof {
            assert(s@ =~= old(s)@ + seq![digit_char(d as int)]);
        }
    } else if d == 4 {
        s.append("4");
        proof {
            assert(s@ =~= old(s)@ + seq![digit_char(d as int)]);
        }
    } else if d == 5 {
        s.append("5");
        proof {
            assert(s@ =~= old(s)@ + seq![digit_char(d as int)]);
        }
    } else if d == 6 {
        s.append("6");
        proof {
            assert(s@ =~= old(s)@ + seq![digit_char(d as int)]);
        }
    } else if d == 7 {
        s.append("7");
        proof {
            assert(s@ =~= old(s)@ + seq![digit_char(d as int)]);
        }
    } else if d == 8 {
        s.append("8");
        proof {
            assert(s@ =~= old(s)@ + seq![digit_char(d as int)]);
        }
    } else {
        s.append("9");
        proof {
            assert(s@ =~= old(s)@ + seq![digit_char(d as int)]);
        }
    }
}

/// Appends the decimal digits of `n`, most significant first.
fn push_u64_digits(s: &mut String, n: u64)
    ensures
        final(s)@ == old(s)@ + dec_digits(n as int),
    decreases n,
{
    if n >= 10 {
        push_u64_digits(s, n / 10);
        push_digit(s, n % 10);
        proof {
            assert(s@ =~= old(s)@ + dec_digits(n as int));
        }
    } else {
        push_digit(s, n);
    }
}

fn is_digit_exec(c: char) -> (r: bool)
    ensures
        r == is_digit_char(c),
{
    let v = c as u32;
    48 <= v && v <= 57
}

/// `num_end` is unmoved by where the scan starts inside the text.
proof fn lemma_num_end_shift(s: Seq<char>, off: int, res: int)
    requires
        0 <= off <= s.len(),
        num_end(s, off) == res,
    ensures
        num_end(s.skip(off), 0) == res - off,
{
    lemma_num_end_shift_rec(s, off, off);
}

proof fn lemma_num_end_shift_rec(s: Seq<char>, off: int, k: int)
    requires
        0 <= off <= k,
        off <= s.len(),
    ensures
        num_end(s.skip(off), k - off) == num_end(s, k) - off,
    decreases s.len() - k,
{
    let t = s.skip(off);
    assert(t.len() == s.len() - off);
    if k >= s.len() {
        assert(num_end(s, k) == s.len());
        assert(num_end(t, k - off) == t.len());
    } else {
        assert(t[k - off] == s[k]);
        if is_digit_char(s[k]) || s[k] == '.' {
            lemma_num_end_shift_rec(s, off, k + 1);
        }
    }
}

/// `blank_end` is unmoved by where the scan starts inside the text.
proof fn lemma_blank_end_shift(s: Seq<char>, off: int, res: int)
    requires
        0 <= off <= s.len(),
        blank_end(s, off) == res,
    ensures
        blank_end(s.skip(off), 0) == res - off,
{
    lemma_blank_end_shift_rec(s, off, off);
}

proof fn lemma_blank_end_shift_rec(s: Seq<char>, off: int, k: int)
    requires
        0 <= off <= k,
        off <= s.len(),
    ensures
        blank_end(s.skip(off), k - off) == blank_end(s, k) - off,
    decreases s.len() - k,
{
    let t = s.skip(off);
    assert(t.len() == s.len() - off);
    if k >= s.len() {
        assert(blank_end(s, k) == s.len());
        assert(blank_end(t, k - off) == t.len());
    } else {
        assert(t[k - off] == s[k]);
        if s[k] == ' ' {
            lemma_blank_end_shift_rec(s, off, k + 1);
        }
    }
}

/// The first index at or after `off` that is not a digit and not a point.
fn scan_num_end(s: &str, off: usize, n: usize) -> (r: usize)
    requires
        off <= n == s@.len(),
    ensures
        r == num_end(s@, off as int),
        off <= r <= n,
{
    let mut i: usize = off;
    while i < n
        invariant
            off <= i <= n == s@.len(),
            num_end(s@, off as int) == num_end(s@, i as int),
        decreases n - i,
    {
        let c = s.get_char(i);
        let cd = is_digit_exec(c);
        if !cd && c != '.' {
            return i;
        }
        i = i + 1;
    }
    n
}

/// The first index at or after `off` that is not a blank.
fn scan_blank_end(s: &str, off: usize, n: usize) -> (r: usize)
    requires
        off <= n == s@.len(),
    ensures
        r == blank_end(s@, off as int),
        off <= r <= n,
{
    let mut i: usize = off;
    while i < n
        invariant
            off <= i <= n == s@.len(),
            blank_end(s@, off as int) == blank_end(s@, i as int),
        decreases n - i,
    {
        let c = s.get_char(i);
        if c != ' ' {
            return i;
        }
        i = i + 1;
    }
    n
}

/// Are the characters in `[off, n)` all ASCII letters?
fn check_alpha(s: &str, off: usize, n: usize) -> (r: bool)
    requires
        off <= n == s@.len(),
    ensures
        r == all_alpha(s@.skip(off as int)),
{
    let mut i: usize = off;
    while i < n
        invariant
            off <= i <= n == s@.len(),
            forall|q: int| 0 <= q < i - off ==> is_alpha_char(#[trigger] s@.skip(off as int)[q]),
        decreases n - i,
    {
        let c = s.get_char(i);
        let v = c as u32;
        if !((65 <= v && v <= 90) || (97 <= v && v <= 122)) {
            proof {
                assert(s@.skip(off as int)[i - off] == s@[i as int]);
                assert(!is_alpha_char(s@.skip(off as int)[i - off]));
            }
            return false;
        }
        proof {
            assert(s@.skip(off as int)[i - off] == s@[i as int]);
        }
        i = i + 1;
    }
    true
}

/// Reads the mantissa the whole tail `[off, n)` denotes.
fn scan_mantissa(s: &str, off: usize, n: usize) -> (r: Option<i64>)
    requires
        off <= n == s@.len(),
    ensures
        (match num_mantissa(s@.skip(off as int)) {
            Some(a) => if a <= AMOUNT_MAX as int {
                r == Some(a as i64) && a >= 0
            } else {
                r is None
            },
            None => r is None,
        }),
{
    proof {
        assert(s@.skip(off as int) =~= s@.subrange(off as int, n as int));
    }
    scan_mantissa_until(s, off, n)
}

/// Reads the mantissa that `[off, stop)` denotes, refusing texts beyond the
/// engine's range.
fn scan_mantissa_until(s: &str, off: usize, stop: usize) -> (r: Option<i64>)
    requires
        off <= stop <= s@.len(),
    ensures
        (match num_mantissa(s@.subrange(off as int, stop as int)) {
            Some(a) => if a <= AMOUNT_MAX as int {
                r == Some(a as i64) && a >= 0
            } else {
                r is None
            },
            None => r is None,
        }),
{
    let ghost u = s@.subrange(off as int, stop as int);
    // find the point inside the window
    let mut dot: usize = stop;
    let mut i: usize = off;
    while i < stop
        invariant
            off <= i <= stop <= s@.len(),
            dot == stop || (off <= dot < i && s@[dot as int] == '.'),
            dot == stop ==> forall|q: int| off <= q < i ==> s@[q] != '.',
            dot < stop ==> forall|q: int| off <= q < dot ==> s@[q] != '.',
        decreases stop - i,
    {
        if dot == stop {
            let c = s.get_char(i);
            if c == '.' {
                dot = i;
            }
        }
        i = i + 1;
    }
    proof {
        if dot == stop {
            assert(u.index_of_first('.') is None) by {
                u.index_of_first_ensures('.');
                if u.index_of_first('.') is Some {
                    let p = u.index_of_first('.')->Some_0;
                    assert(u[p] == '.');
                    assert(s@[off + p] == '.');
                }
            }
        } else {
            assert(u.index_of_first('.') == Some(dot - off)) by {
                u.index_of_first_ensures('.');
                assert(u[dot - off] == '.');
                if u.index_of_first('.') is None {
                    assert(!u.contains('.'));
                    assert(u[dot - off] == '.');
                }
                let p = u.index_of_first('.')->Some_0;
                assert(u[p] == '.');
                if p < dot - off {
                    assert(s@[off + p] == '.');
                }
                if p > dot - off {
                    assert(u.index_of_first('.') is Some ==> !u.take(p).contains(u[p]));
                    assert(u.take(p)[dot - off] == '.');
                    assert(u.take(p).contains('.'));
                }
            }
        }
    }
    let int_stop: usize = if dot == stop {
        stop
    } else {
        dot
    };
    if int_stop == off {
        // no integer digits
        return None;
    }
    let ghost ip = if dot == stop {
        u
    } else {
        u.take(dot - off)
    };
    proof {
        assert(ip =~= s@.subrange(off as int, int_stop as int));
    }
    let iv = scan_digits(s, off, int_stop);
    let iv: i64 = match iv {
        Some(v) => v,
        None => {
            proof {
                if all_digits(ip) {
                    lemma_pow10_pos(SCALE as nat);
                    lemma_pow10_val12_money();
                    assert(digits_val(ip) * pow10(SCALE as nat) > AMOUNT_MAX as int)
                        by (nonlinear_arith)
                        requires
                            digits_val(ip) > 1_000_000_000_000_000_000 && pow10(SCALE as nat)
                                == 1_000_000_000_000 && AMOUNT_MAX == 1_000_000_000_000_000_000;
                    if u.index_of_first('.') is Some {
                        let fp0 = u.skip(dot - off + 1);
                        if fp0.len() >= 1 && fp0.len() <= SCALE && all_digits(fp0) {
                            lemma_digits_val_bound(fp0);
                            lemma_pow10_pos((SCALE - fp0.len()) as nat);
                            assert(digits_val(fp0) * pow10((SCALE - fp0.len()) as nat) >= 0)
                                by (nonlinear_arith)
                                requires
                                    digits_val(fp0) >= 0 && pow10((SCALE - fp0.len()) as nat)
                                        >= 1;
                        }
                    }
                }
            }
            return None;
        },
    };
    if dot == stop {
        // integer only
        proof {
            lemma_pow10_18();
            lemma_pow10_mono(SCALE as nat, 18);
            lemma_pow10_pos(SCALE as nat);
            lemma_pow10_val12_money();
        }
        let unit = pow10_i64(SCALE);
        if iv > 1_000_000 {
            proof {
                assert(digits_val(ip) * pow10(SCALE as nat) > AMOUNT_MAX as int)
                    by (nonlinear_arith)
                    requires
                        digits_val(ip) > 1_000_000 && pow10(SCALE as nat) == 1_000_000_000_000
                            && AMOUNT_MAX == 1_000_000_000_000_000_000;
            }
            return None;
        }
        proof {
            assert(iv * unit <= AMOUNT_MAX as int) by (nonlinear_arith)
                requires 0 <= iv as int <= 1_000_000 && unit == 1_000_000_000_000
                    && AMOUNT_MAX == 1_000_000_000_000_000_000;
        }
        return Some(iv * unit);
    }
    // fraction digits
    let foff = dot + 1;
    let flen_wide = stop - foff;
    let ghost fp = u.skip(dot - off + 1);
    proof {
        assert(fp =~= s@.subrange(foff as int, stop as int));
    }
    if flen_wide == 0 || flen_wide > 12 {
        return None;
    }
    let fv = scan_digits(s, foff, stop);
    let fv: i64 = match fv {
        Some(v) => v,
        None => {
            proof {
                if all_digits(fp) {
                    lemma_digits_val_bound(fp);
                    lemma_pow10_mono(fp.len() as nat, 12);
                    lemma_pow10_val12_money();
                }
            }
            return None;
        },
    };
    proof {
        lemma_pow10_18();
        lemma_pow10_mono(SCALE as nat, 18);
        lemma_pow10_pos(SCALE as nat);
        lemma_pow10_val12_money();
        lemma_pow10_pos((SCALE - flen_wide as u32) as nat);
        lemma_pow10_mono((SCALE - flen_wide as u32) as nat, 18);
        lemma_digits_val_bound(fp);
        lemma_pow10_adds(fp.len() as nat, (SCALE - flen_wide as u32) as nat);
    }
    let unit = pow10_i64(SCALE);
    let funit = pow10_i64(SCALE - flen_wide as u32);
    if iv > 1_000_000 {
        proof {
            assert(digits_val(ip) * pow10(SCALE as nat) + digits_val(fp) * pow10(
                (SCALE - fp.len()) as nat,
            ) > AMOUNT_MAX as int) by (nonlinear_arith)
                requires
                    digits_val(ip) > 1_000_000 && pow10(SCALE as nat) == 1_000_000_000_000
                        && AMOUNT_MAX == 1_000_000_000_000_000_000 && digits_val(fp) >= 0
                        && pow10((SCALE - fp.len()) as nat) >= 1;
        }
        return None;
    }
    proof {
        assert((iv as int) * (unit as int) <= 1_000_000_000_000_000_000 && (iv as int) * (
        unit as int) >= 0) by (nonlinear_arith)
            requires 0 <= iv as int <= 1_000_000 && unit == 1_000_000_000_000;
        assert(0 <= (fv as int) * (funit as int) && (fv as int) * (funit as int) < pow10(
            fp.len() as nat,
        ) * (funit as int)) by (nonlinear_arith)
            requires
                0 <= fv as int && (fv as int) < pow10(fp.len() as nat) && funit >= 1;
        assert(pow10(fp.len() as nat) * (funit as int) == pow10(SCALE as nat));
    }
    let mantissa128: i128 = (iv as i128) * (unit as i128) + (fv as i128) * (funit as i128);
    if mantissa128 > AMOUNT_MAX as i128 {
        return None;
    }
    Some(mantissa128 as i64)
}

/// Reads the value of the digit window `[off, stop)`; refuses a window with
/// a non-digit, and one whose value cannot fit.
fn scan_digits(s: &str, off: usize, stop: usize) -> (r: Option<i64>)
    requires
        off <= stop <= s@.len(),
    ensures
        (match r {
            Some(v) => all_digits(s@.subrange(off as int, stop as int)) && v as int == digits_val(
                s@.subrange(off as int, stop as int),
            ) && v >= 0,
            None => !all_digits(s@.subrange(off as int, stop as int)) || digits_val(
                s@.subrange(off as int, stop as int),
            ) > 1_000_000_000_000_000_000,
        }),
{
    let ghost w = s@.subrange(off as int, stop as int);
    let mut acc: i64 = 0;
    let mut big: bool = false;
    let mut i: usize = off;
    while i < stop
        invariant
            off <= i <= stop <= s@.len(),
            w == s@.subrange(off as int, stop as int),
            all_digits(s@.subrange(off as int, i as int)),
            !big ==> acc as int == digits_val(s@.subrange(off as int, i as int)) && 0 <= acc
                <= 1_000_000_000_000_000_009,
            big ==> digits_val(s@.subrange(off as int, i as int)) > 1_000_000_000_000_000_000,
        decreases stop - i,
    {
        let c = s.get_char(i);
        let cd = is_digit_exec(c);
        if !cd {
            proof {
                assert(w[i - off] == s@[i as int]);
                assert(!all_digits(w));
            }
            return None;
        }
        let d: i64 = (c as u32 - 48) as i64;
        proof {
            assert(s@.subrange(off as int, i + 1).drop_last() =~= s@.subrange(
                off as int,
                i as int,
            ));
            assert(s@.subrange(off as int, i + 1).last() == s@[i as int]);
            assert(d as int == digit_char_val(s@[i as int]));
        }
        if !big {
            if acc > 100_000_000_000_000_000 {
                proof {
                    assert(digits_val(s@.subrange(off as int, i + 1)) > 1_000_000_000_000_000_000)
                        by (nonlinear_arith)
                        requires
                            digits_val(s@.subrange(off as int, i + 1)) == digits_val(
                                s@.subrange(off as int, i as int),
                            ) * 10 + digit_char_val(s@[i as int]) && digits_val(
                                s@.subrange(off as int, i as int),
                            ) > 100_000_000_000_000_000 && digit_char_val(s@[i as int]) >= 0;
                }
                big = true;
            } else {
                acc = acc * 10 + d;
            }
        } else {
            proof {
                assert(digits_val(s@.subrange(off as int, i + 1)) > 1_000_000_000_000_000_000)
                    by (nonlinear_arith)
                    requires
                        digits_val(s@.subrange(off as int, i + 1)) == digits_val(
                            s@.subrange(off as int, i as int),
                        ) * 10 + digit_char_val(s@[i as int]) && digits_val(
                            s@.subrange(off as int, i as int),
                        ) > 1_000_000_000_000_000_000 && digit_char_val(s@[i as int]) >= 0;
            }
        }
        i = i + 1;
    }
    proof {
        assert(s@.subrange(off as int, stop as int) == w);
    }
    if big {
        None
    } else {
        Some(acc)
    }
}

proof fn lemma_pow10_val12_money()
    ensures
        pow10(12) == 1_000_000_000_000,
{
    reveal_with_fuel(pow10, 13);
}

/// A digit string's value is below one followed by as many zeros.
proof fn lemma_digits_val_bound(s: Seq<char>)
    requires
        all_digits(s),
    ensures
        0 <= digits_val(s) < pow10(s.len() as nat),
    decreases s.len(),
{
    lemma_pow10_pos(s.len() as nat);
    if s.len() > 0 {
        assert forall|i: int| 0 <= i < s.drop_last().len() implies is_digit_char(
            #[trigger] s.drop_last()[i],
        ) by {
            assert(s.drop_last()[i] == s[i]);
        }
        lemma_digits_val_bound(s.drop_last());
        assert(is_digit_char(s.last())) by {
            assert(s[s.len() - 1] == s.last());
        }
        assert(digits_val(s) < pow10(s.len() as nat)) by (nonlinear_arith)
            requires
                digits_val(s) == digits_val(s.drop_last()) * 10 + digit_char_val(s.last())
                    && 0 <= digits_val(s.drop_last()) < pow10(s.drop_last().len() as nat)
                    && digit_char_val(s.last()) <= 9 && pow10(s.len() as nat) == 10 * pow10(
                    s.drop_last().len() as nat,
                );
        assert(digits_val(s) >= 0) by (nonlinear_arith)
            requires
                digits_val(s) == digits_val(s.drop_last()) * 10 + digit_char_val(s.last())
                    && digits_val(s.drop_last()) >= 0 && digit_char_val(s.last()) >= 0;
    }
}


/// Accumulates the parts of an amount text before resolution: an optional
/// leading sign, the mantissa, and a symbol or code to resolve.
pub struct MoneyBuilder {
    symbol: Option<String>,
    amount: Option<i64>,
    code: Option<String>,
    neg: bool,
}

impl MoneyBuilder {
    pub closed spec fn symbol_spec(self) -> Option<String> {
        self.symbol
    }

    pub closed spec fn amount_spec(self) -> Option<i64> {
        self.amount
    }

    pub closed spec fn code_spec(self) -> Option<String> {
        self.code
    }

    pub closed spec fn neg_spec(self) -> bool {
        self.neg
    }

    pub fn new() -> (b: MoneyBuilder)
        ensures
            b.symbol_spec() is None,
            b.amount_spec() is None,
            b.code_spec() is None,
            !b.neg_spec(),
    {
        MoneyBuilder { symbol: None, amount: None, code: None, neg: false }
    }

    pub fn neg(&mut self)
        ensures
            final(self).neg_spec(),
            final(self).symbol_spec() == old(self).symbol_spec(),
            final(self).amount_spec() == old(self).amount_spec(),
            final(self).code_spec() == old(self).code_spec(),
    {
        self.neg = true;
    }

    pub fn with_symbol(&mut self, symbol: String)
        ensures
            final(self).symbol_spec() == Some(symbol),
            final(self).amount_spec() == old(self).amount_spec(),
            final(self).code_spec() == old(self).code_spec(),
            final(self).neg_spec() == old(self).neg_spec(),
    {
        self.symbol = Some(symbol);
    }

    pub fn with_amount(&mut self, amount: i64)
        ensures
            final(self).amount_spec() == Some(amount),
            final(self).symbol_spec() == old(self).symbol_spec(),
            final(self).code_spec() == old(self).code_spec(),
            final(self).neg_spec() == old(self).neg_spec(),
    {
        self.amount = Some(amount);
    }

    pub fn with_code(&mut self, code: String)
        ensures
            final(self).code_spec() == Some(code),
            final(self).symbol_spec() == old(self).symbol_spec(),
            final(self).amount_spec() == old(self).amount_spec(),
            final(self).neg_spec() == old(self).neg_spec(),
    {
        self.code = Some(code);
    }

    /// Resolves the collected parts against the catalog: the code wins over
    /// the symbol; a missing amount or currency is a bad format, an unknown
    /// one is reported as such.
    pub fn into_money(self, store: &CurrencyStore) -> (r: Result<Money, MoneyParseError>)
        ensures
            (match self.amount_spec() {
                None => r is Err && r->Err_0@ == MoneyParseErrV::BadFormat,
                Some(a) => if !amount_ok(a as int) {
                    r is Err && r->Err_0@ == MoneyParseErrV::BadFormat
                } else {
                    let signed: int = if self.neg_spec() {
                        -(a as int)
                    } else {
                        a as int
                    };
                    match self.code_spec() {
                        Some(c) => (match find_code(store.catalog(), c@) {
                            None => r is Err && r->Err_0@ == MoneyParseErrV::CurrencyNotFound(
                                c@,
                            ),
                            Some(ci) => r is Ok && r->Ok_0.amount_spec() == signed && r
                                ->Ok_0.currency_spec().id_spec() == ci,
                        }),
                        None => (match self.symbol_spec() {
                            None => r is Err && r->Err_0@ == MoneyParseErrV::BadFormat,
                            Some(sy) => (match find_symbol(store.catalog(), sy@) {
                                None => r is Err && r->Err_0@
                                    == MoneyParseErrV::CurrencyNotFound(sy@),
                                Some(ci) => r is Ok && r->Ok_0.amount_spec() == signed && r
                                    ->Ok_0.currency_spec().id_spec() == ci,
                            }),
                        }),
                    }
                },
            }),
    {
        let a = match self.amount {
            Some(a) => a,
            None => {
                return Err(MoneyParseError::BadFormat);
            },
        };
        if a > AMOUNT_MAX || a < -AMOUNT_MAX {
            return Err(MoneyParseError::BadFormat);
        }
        let signed: i64 = if self.neg {
            -a
        } else {
            a
        };
        match self.code {
            Some(c) => {
                match store.get_by_code(c.as_str()) {
                    Some(ci) => Ok(Money::new(signed, ci)),
                    None => Err(MoneyParseError::CurrencyNotFound(c)),
                }
            },
            None => {
                match self.symbol {
                    None => Err(MoneyParseError::BadFormat),
                    Some(sy) => {
                        match store.get_by_symbol(sy.as_str()) {
                            Some(ci) => Ok(Money::new(signed, ci)),
                            None => Err(MoneyParseError::CurrencyNotFound(sy)),
                        }
                    },
                }
            },
        }
    }
}

impl crate::journal::Journal {
    /// Reads an amount in the ledger's own currency catalog.
    pub fn parse_money(&self, s: &str) -> (r: Result<Money, MoneyParseError>)
        ensures
            (match parse_money_spec(s@, self.currencies_spec().catalog()) {
                Ok(pair) => r is Ok && r->Ok_0.amount_spec() == pair.0
                    && r->Ok_0.currency_spec().id_spec() == pair.1 && r->Ok_0.wf(),
                Err(ev) => r is Err && r->Err_0@ == ev,
            }),
    {
        Money::from_string(s, self.currency_store())
    }
}


/// The decimal digits of a non-negative integer are digits, at least one of
/// them, reading back to the same value.
proof fn lemma_dec_digits_props(n: int)
    requires
        n >= 0,
    ensures
        dec_digits(n).len() >= 1,
        all_digits(dec_digits(n)),
        digits_val(dec_digits(n)) == n,
    decreases n,
{
    if n <= 9 {
        let s = dec_digits(n);
        assert(s =~= seq![digit_char(n)]);
        assert(is_digit_char(digit_char(n)));
        assert(s.drop_last() =~= Seq::<char>::empty());
        assert(digits_val(s) == digits_val(s.drop_last()) * 10 + digit_char_val(s.last()));
        assert(digit_char_val(digit_char(n)) == n);
    } else {
        lemma_fundamental_div_mod_10(n);
        lemma_dec_digits_props(n / 10);
        let s = dec_digits(n);
        let prev = dec_digits(n / 10);
        assert(s == prev.push(digit_char(n % 10)));
        assert(s.drop_last() =~= prev);
        assert(s.last() == digit_char(n % 10));
        assert(is_digit_char(digit_char(n % 10)));
        assert(digit_char_val(digit_char(n % 10)) == n % 10);
        assert(digits_val(s) == (n / 10) * 10 + n % 10);
        assert forall|i: int| 0 <= i < s.len() implies is_digit_char(#[trigger] s[i]) by {
            if i < prev.len() {
                assert(s[i] == prev[i]);
            }
        }
    }
}

/// Division by ten, spelled out.
proof fn lemma_fundamental_div_mod_10(n: int)
    requires
        n >= 0,
    ensures
        n == (n / 10) * 10 + n % 10,
        0 <= n % 10 < 10,
        0 <= n / 10 < n || n <= 9,
{
    vstd::arithmetic::div_mod::lemma_fundamental_div_mod(n, 10);
    vstd::arithmetic::div_mod::lemma_mod_bound(n, 10);
    assert(n == (n / 10) * 10 + n % 10) by (nonlinear_arith)
        requires n == 10 * (n / 10) + n % 10;
    if n > 9 {
        assert(0 <= n / 10 < n) by (nonlinear_arith)
            requires n == (n / 10) * 10 + n % 10 && 0 <= n % 10 < 10 && n > 9;
    } else {
        assert(n / 10 == 0) by (nonlinear_arith)
            requires n == (n / 10) * 10 + n % 10 && 0 <= n % 10 < 10 && 0 <= n <= 9;
    }
}

/// Scanning a run of number characters stops right after it.
proof fn lemma_num_end_run(s: Seq<char>, k: int, e: int)
    requires
        0 <= k <= e <= s.len(),
        forall|j: int| k <= j < e ==> is_digit_char(#[trigger] s[j]) || s[j] == '.',
        e == s.len() || (!is_digit_char(s[e]) && s[e] != '.'),
    ensures
        num_end(s, k) == e,
    decreases e - k,
{
    if k < e {
        lemma_num_end_run(s, k + 1, e);
    }
}

/// A sign never divides a unit's power of ten; the divisibility carries to
/// the absolute value.
proof fn lemma_abs_divisible(a: int, u: int)
    requires
        u >= 1,
        a % u == 0,
    ensures
        (abs(a) as int) % u == 0,
{
    vstd::arithmetic::div_mod::lemma_fundamental_div_mod(a, u);
    if a < 0 {
        let q = a / u;
        assert(-a == (-q) * u + 0) by (nonlinear_arith)
            requires a == u * q;
        vstd::arithmetic::div_mod::lemma_fundamental_div_mod_converse(-a, u, -q, 0);
    }
}

/// The reparse round trip: what `display` writes for a whole-cent amount,
/// `from_string` reads back to the same amount and the same currency.
pub proof fn lemma_display_reparse(amount: int, cat: Seq<CurrencyData>, ci: int)
    requires
        crate::currency::catalog_wf(cat),
        0 <= ci < cat.len(),
        amount % pow10((SCALE - 2) as nat) == 0,
        amount_ok(amount),
    ensures
        parse_money_spec(display_spec(amount, cat[ci]), cat) == Result::<
            (int, int),
            MoneyParseErrV,
        >::Ok((amount, ci)),
{
    let data = cat[ci];
    let u2 = pow10((SCALE - 2) as nat);
    lemma_pow10_pos((SCALE - 2) as nat);
    lemma_abs_divisible(amount, u2);
    crate::num::lemma_rhe_exact(abs(amount) as int, u2);
    let cents = rhe(abs(amount) as int, u2);
    vstd::arithmetic::div_mod::lemma_fundamental_div_mod(abs(amount) as int, u2);
    assert(cents * u2 == abs(amount));
    assert(cents >= 0) by (nonlinear_arith)
        requires cents * u2 == abs(amount) && u2 >= 1 && abs(amount) >= 0;
    // the digit pieces of the magnitude
    lemma_fundamental_div_mod_10(cents);
    lemma_fundamental_div_mod_10(cents / 10);
    vstd::arithmetic::div_mod::lemma_fundamental_div_mod(cents, 100);
    vstd::arithmetic::div_mod::lemma_mod_bound(cents, 100);
    vstd::arithmetic::div_mod::lemma_div_denominator(cents, 10, 10);
    assert(cents / 10 / 10 == cents / 100);
    assert(cents % 100 == ((cents / 10) % 10) * 10 + cents % 10) by (nonlinear_arith)
        requires
            cents == 100 * (cents / 100) + cents % 100 && cents == (cents / 10) * 10 + cents
                % 10 && cents / 10 == (cents / 10 / 10) * 10 + (cents / 10) % 10 && cents / 10
                / 10 == cents / 100 && 0 <= cents % 10 < 10 && 0 <= (cents / 10) % 10 < 10 && 0
                <= cents % 100 < 100;
    let whole = cents / 100;
    lemma_dec_digits_props(whole);
    let dd = dec_digits(whole);
    let d1 = digit_char((cents / 10) % 10);
    let d2 = digit_char(cents % 10);
    let mag = dd + seq!['.'] + seq![d1, d2];
    let sym = data.symbol@;
    let sign: Seq<char> = if amount < 0 {
        seq!['-']
    } else {
        Seq::<char>::empty()
    };
    let s = display_spec(amount, data);
    assert(s == (if data.symbol_first {
        sign + sym + mag
    } else {
        sign + mag + sym
    }));
    // the magnitude parses back to the absolute amount
    assert(is_digit_char(d1) && is_digit_char(d2));
    assert(digit_char_val(d1) == (cents / 10) % 10 && digit_char_val(d2) == cents % 10);
    let p = dd.len() as int;
    assert(mag[p] == '.');
    assert forall|j: int| 0 <= j < p implies is_digit_char(#[trigger] mag[j]) && mag[j] != '.'
        by {
        assert(mag[j] == dd[j]);
    }
    assert(mag[p + 1] == d1 && mag[p + 2] == d2);
    assert(mag.len() == p + 3);
    assert(mag.index_of_first('.') == Some(p)) by {
        mag.index_of_first_ensures('.');
        match mag.index_of_first('.') {
            None => {
                assert(mag[p] == '.');
                assert(mag.contains('.'));
            },
            Some(q) => {
                if q < p {
                    assert(mag[q] != '.');
                } else if q > p {
                    assert(mag[p] == '.');
                }
            },
        }
    }
    let ip = mag.take(p);
    let fp = mag.skip(p + 1);
    assert(ip =~= dd);
    assert(fp =~= seq![d1, d2]);
    assert(all_digits(fp)) by {
        assert(fp[0] == d1 && fp[1] == d2);
    }
    assert(digits_val(fp) == ((cents / 10) % 10) * 10 + cents % 10) by {
        reveal_with_fuel(digits_val, 4);
        assert(fp.drop_last() =~= seq![d1]);
        assert(seq![d1].drop_last() =~= Seq::<char>::empty());
        assert(fp.last() == d2);
        assert(seq![d1].last() == d1);
    }
    lemma_pow10_val12_money();
    lemma_pow10_18();
    assert(pow10(10) == 10_000_000_000) by {
        reveal_with_fuel(pow10, 11);
    }
    assert(num_mantissa(mag) == Some(abs(amount) as int)) by {
        assert(digits_val(ip) * pow10(SCALE as nat) + digits_val(fp) * pow10(
            (SCALE - 2) as nat,
        ) == abs(amount)) by (nonlinear_arith)
            requires
                digits_val(ip) == cents / 100 && digits_val(fp) == cents % 100 && pow10(
                    SCALE as nat,
                ) == 1_000_000_000_000 && pow10((SCALE - 2) as nat) == 10_000_000_000 && cents
                    == 100 * (cents / 100) + cents % 100 && cents * pow10((SCALE - 2) as nat)
                    == abs(amount);
    }
    assert(abs(amount) <= AMOUNT_MAX as int);
    // the symbol is one character that can head or trail the magnitude
    assert(sym.len() == 1);
    let sc = sym[0];
    assert(!is_digit_char(sc) && sc != '-' && sc != '.' && sc != ' ');
    crate::currency::lemma_find_symbol_exact(cat, ci);
    if data.symbol_first {
        // sign, symbol, then the magnitude
        let t = if amount < 0 {
            s.skip(1)
        } else {
            s
        };
        assert(t =~= sym + mag);
        assert(t[0] == sc);
        assert(t[1] == mag[0] && mag[0] == dd[0]);
        assert(is_digit_char(t[1]));
        let u = t.skip(1);
        assert(u =~= mag);
        assert(seq![t[0]] =~= sym);
        if amount < 0 {
            assert(s[0] == '-');
            assert(parse_money_spec(s, cat) == Result::<(int, int), MoneyParseErrV>::Ok(
                ((-(abs(amount) as int)), ci),
            ));
        } else {
            assert(s[0] == sc);
            assert(parse_money_spec(s, cat) == Result::<(int, int), MoneyParseErrV>::Ok(
                (abs(amount) as int, ci),
            ));
        }
    } else {
        // sign, the magnitude, then the symbol
        let t = if amount < 0 {
            s.skip(1)
        } else {
            s
        };
        assert(t =~= mag + sym);
        assert(t[0] == mag[0] && mag[0] == dd[0]);
        assert(is_digit_char(t[0]));
        assert forall|j: int| 0 <= j < mag.len() implies is_digit_char(#[trigger] t[j]) || t[j]
            == '.' by {
            assert(t[j] == mag[j]);
            if j < p {
            } else if j == p {
            } else {
                assert(mag[j] == fp[j - p - 1]);
            }
        }
        assert(t[mag.len() as int] == sc);
        lemma_num_end_run(t, 0, mag.len() as int);
        let nend = num_end(t, 0);
        assert(nend == mag.len());
        assert(t.take(nend) =~= mag);
        let rest = t.skip(nend);
        assert(rest =~= sym);
        assert(rest.len() == 1);
        assert(rest[0] == sc && sc != ' ');
        if amount < 0 {
            assert(s[0] == '-');
            assert(parse_money_spec(s, cat) == Result::<(int, int), MoneyParseErrV>::Ok(
                ((-(abs(amount) as int)), ci),
            ));
        } else {
            assert(parse_money_spec(s, cat) == Result::<(int, int), MoneyParseErrV>::Ok(
                (abs(amount) as int, ci),
            ));
        }
    }
    assert((if amount < 0 {
        -(abs(amount) as int)
    } else {
        abs(amount) as int
    }) == amount);
}

} // verus!
