//! Character and string helpers: ASCII classes, case folding, equality and
//! substring tests, written over `Seq<char>` views.

use vstd::prelude::*;
use vstd::string::StrSliceExecFns;

verus! {

pub open spec fn is_digit_char(c: char) -> bool {
    48 <= c as int <= 57
}

pub open spec fn digit_char_val(c: char) -> int {
    c as int - 48
}

pub open spec fn is_upper_char(c: char) -> bool {
    65 <= c as int <= 90
}

pub open spec fn is_lower_char(c: char) -> bool {
    97 <= c as int <= 122
}

pub open spec fn is_alpha_char(c: char) -> bool {
    is_upper_char(c) || is_lower_char(c)
}

/// The character's code point with an ASCII capital folded to its small
/// letter; other characters keep their code point.
pub open spec fn lower_code(c: char) -> int {
    if is_upper_char(c) {
        c as int + 32
    } else {
        c as int
    }
}

/// Case-insensitive (ASCII fold) character equality.
pub open spec fn chars_ieq(a: char, b: char) -> bool {
    lower_code(a) == lower_code(b)
}

/// `needle` occurs in `hay` at position `at`, comparing case-insensitively.
pub open spec fn matches_ci_at(hay: Seq<char>, needle: Seq<char>, at: int) -> bool {
    &&& 0 <= at
    &&& at + needle.len() <= hay.len()
    &&& forall|j: int| 0 <= j < needle.len() ==> chars_ieq(hay[at + j], #[trigger] needle[j])
}

/// `needle` occurs somewhere in `hay`, comparing case-insensitively.
pub open spec fn contains_ci(hay: Seq<char>, needle: Seq<char>) -> bool {
    exists|at: int| matches_ci_at(hay, needle, at)
}

/// `needle` occurs in `hay` at position `at`, character for character.
pub open spec fn matches_at(hay: Seq<char>, needle: Seq<char>, at: int) -> bool {
    &&& 0 <= at
    &&& at + needle.len() <= hay.len()
    &&& forall|j: int| 0 <= j < needle.len() ==> hay[at + j] == #[trigger] needle[j]
}

/// `needle` occurs somewhere in `hay`, character for character.
pub open spec fn contains_seq(hay: Seq<char>, needle: Seq<char>) -> bool {
    exists|at: int| matches_at(hay, needle, at)
}

/// Case-insensitive character comparison, on character values.
pub fn char_ieq(a: char, b: char) -> (r: bool)
    ensures
        r == chars_ieq(a, b),
{
    let x = a as u32;
    let y = b as u32;
    let xf = if 65 <= x && x <= 90 { x + 32 } else { x };
    let yf = if 65 <= y && y <= 90 { y + 32 } else { y };
    xf == yf
}

/// String equality on views.
pub fn str_eq(a: &str, b: &str) -> (r: bool)
    ensures
        r == (a@ == b@),
{
    let an = a.unicode_len();
    let bn = b.unicode_len();
    if an != bn {
        assert(a@ != b@) by {
            assert(a@.len() != b@.len());
        }
        return false;
    }
    let mut i: usize = 0;
    while i < an
        invariant
            a@.len() == an == bn == b@.len(),
            0 <= i <= an,
            forall|j: int| 0 <= j < i ==> a@[j] == b@[j],
        decreases an - i,
    {
        if a.get_char(i) != b.get_char(i) {
            assert(a@ != b@);
            return false;
        }
        i = i + 1;
    }
    proof {
        assert(a@ =~= b@);
    }
    true
}

/// Does `needle` occur in `hay`, comparing case-insensitively?
pub fn str_contains_ci(hay: &str, needle: &str) -> (r: bool)
    ensures
        r == contains_ci(hay@, needle@),
{
    let hn = hay.unicode_len();
    let nn = needle.unicode_len();
    if nn > hn {
        assert(!contains_ci(hay@, needle@)) by {
            assert(forall|at: int| !matches_ci_at(hay@, needle@, at));
        }
        return false;
    }
    let mut at: usize = 0;
    while at <= hn - nn
        invariant
            nn <= hn == hay@.len(),
            nn == needle@.len(),
            0 <= at,
            forall|p: int| 0 <= p < at ==> !matches_ci_at(hay@, needle@, p),
        decreases hn - at,
    {
        let mut j: usize = 0;
        let mut all: bool = true;
        while j < nn
            invariant
                nn <= hn == hay@.len(),
                nn == needle@.len(),
                at + nn <= hn,
                0 <= j <= nn,
                all == forall|q: int| 0 <= q < j ==> chars_ieq(hay@[at + q], #[trigger] needle@[q]),
            decreases nn - j,
        {
            let ok = char_ieq(hay.get_char(at + j), needle.get_char(j));
            all = all && ok;
            j = j + 1;
        }
        if all {
            assert(matches_ci_at(hay@, needle@, at as int));
            return true;
        }
        assert(!matches_ci_at(hay@, needle@, at as int));
        at = at + 1;
    }
    proof {
        assert forall|p: int| !matches_ci_at(hay@, needle@, p) by {
            if 0 <= p && p + needle@.len() <= hay@.len() {
                assert(p < at);
            }
        }
    }
    false
}

/// Does `needle` occur in `hay`, character for character?
pub fn str_contains(hay: &str, needle: &str) -> (r: bool)
    ensures
        r == contains_seq(hay@, needle@),
{
    let hn = hay.unicode_len();
    let nn = needle.unicode_len();
    if nn > hn {
        assert(!contains_seq(hay@, needle@)) by {
            assert(forall|at: int| !matches_at(hay@, needle@, at));
        }
        return false;
    }
    let mut at: usize = 0;
    while at <= hn - nn
        invariant
            nn <= hn == hay@.len(),
            nn == needle@.len(),
            0 <= at,
            forall|p: int| 0 <= p < at ==> !matches_at(hay@, needle@, p),
        decreases hn - at,
    {
        let mut j: usize = 0;
        let mut all: bool = true;
        while j < nn
            invariant
                nn <= hn == hay@.len(),
                nn == needle@.len(),
                at + nn <= hn,
                0 <= j <= nn,
                all == forall|q: int| 0 <= q < j ==> hay@[at + q] == #[trigger] needle@[q],
            decreases nn - j,
        {
            let ok = hay.get_char(at + j) == needle.get_char(j);
            all = all && ok;
            j = j + 1;
        }
        if all {
            assert(matches_at(hay@, needle@, at as int));
            return true;
        }
        assert(!matches_at(hay@, needle@, at as int));
        at = at + 1;
    }
    proof {
        assert forall|p: int| !matches_at(hay@, needle@, p) by {
            if 0 <= p && p + needle@.len() <= hay@.len() {
                assert(p < at);
            }
        }
    }
    false
}

} // verus!
