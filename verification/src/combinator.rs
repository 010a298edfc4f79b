//! The cursor model and the primitive combinators shared by both grammars.
//!
//! A parsing position is a pair of the input text and a character offset
//! into it: the offset is the cursor. Every primitive either returns an
//! advanced offset on success or reports a failure, leaving the caller free
//! to try another alternative from the same offset.

use vstd::prelude::*;

verus! {

/// The failure tiers: a token or structural mismatch, a literal-to-enum
/// conversion failure, and a numeric or calendar format failure.
#[derive(Clone, Copy, Debug, PartialEq, Eq, Structural)]
pub enum ErrorKind {
    Token,
    Conversion,
    Format,
}

/// A parse failure: its tier and the character offset at which it arose.
#[derive(Clone, Copy, Debug, PartialEq, Eq, Structural)]
pub struct ParseError {
    pub kind: ErrorKind,
    pub at: usize,
}

/// The outcome of a parser in the mathematical model: a value together
/// with the offset just past what was consumed, or a failure.
pub enum PRes<T> {
    Parsed { v: T, next: int },
    Failed { kind: ErrorKind, at: int },
}

/// The model result `r` is a success with value `v` ending at `next`.
pub open spec fn res_ok<T>(r: PRes<T>, v: T, next: int) -> bool {
    r == (PRes::Parsed { v, next })
}

/// The model result `r` is the failure `kind` at offset `at`.
pub open spec fn res_err<T>(r: PRes<T>, kind: ErrorKind, at: int) -> bool {
    r == (PRes::<T>::Failed { kind, at })
}

/// Whitespace accepted between JSON tokens.
pub open spec fn is_ws_char(c: char) -> bool {
    c == ' ' || c == '\t' || c == '\n' || c == '\r'
}

/// The horizontal space accepted between log-line fields.
pub open spec fn is_space_char(c: char) -> bool {
    c == ' ' || c == '\t'
}

/// Decimal digit test.
pub open spec fn is_digit_char(c: char) -> bool {
    '0' <= c && c <= '9'
}

/// Numeric value of a decimal digit character.
pub open spec fn digit_val(c: char) -> int {
    c as int - 48
}

/// Offset of the first non-whitespace character at or after `i`.
pub open spec fn spec_skip_ws(s: Seq<char>, i: int) -> int
    recommends
        0 <= i <= s.len(),
    decreases s.len() - i,
{
    if i < s.len() && is_ws_char(s[i]) {
        spec_skip_ws(s, i + 1)
    } else {
        i
    }
}

/// Offset of the first character at or after `i` that is not a space run
/// character.
pub open spec fn spec_skip_spaces(s: Seq<char>, i: int) -> int
    recommends
        0 <= i <= s.len(),
    decreases s.len() - i,
{
    if i < s.len() && is_space_char(s[i]) {
        spec_skip_spaces(s, i + 1)
    } else {
        i
    }
}

/// Offset of the first non-digit character at or after `i`.
pub open spec fn spec_digits_end(s: Seq<char>, i: int) -> int
    recommends
        0 <= i <= s.len(),
    decreases s.len() - i,
{
    if i < s.len() && is_digit_char(s[i]) {
        spec_digits_end(s, i + 1)
    } else {
        i
    }
}

/// The number denoted by a run of decimal digits, most significant first.
pub open spec fn digits_val(s: Seq<char>) -> int
    decreases s.len(),
{
    if s.len() == 0 {
        0
    } else {
        digits_val(s.drop_last()) * 10 + digit_val(s.last())
    }
}

/// The exact literal `lit` occurs in `s` starting at offset `i`.
pub open spec fn spec_has_lit(s: Seq<char>, i: int, lit: Seq<char>) -> bool {
    0 <= i && i + lit.len() <= s.len() && s.subrange(i, i + lit.len()) == lit
}

/// Offset of the first occurrence of `c` at or after `i`, or `s.len()` if
/// there is none.
pub open spec fn spec_find_char(s: Seq<char>, i: int, c: char) -> int
    recommends
        0 <= i <= s.len(),
    decreases s.len() - i,
{
    if i < s.len() {
        if s[i] == c {
            i
        } else {
            spec_find_char(s, i + 1, c)
        }
    } else {
        i
    }
}

/// The delimiting primitive for a single punctuation token: whitespace,
/// then exactly `t`, then whitespace; `None` when `t` is not the first
/// non-whitespace character.
pub open spec fn spec_sep_with_space(s: Seq<char>, i: int, t: char) -> Option<int>
    recommends
        0 <= i <= s.len(),
{
    let a = spec_skip_ws(s, i);
    if a < s.len() && s[a] == t {
        Some(spec_skip_ws(s, a + 1))
    } else {
        None
    }
}

pub proof fn lemma_digits_val_nonneg(ds: Seq<char>)
    requires
        forall|t: int| 0 <= t < ds.len() ==> is_digit_char(ds[t]),
    ensures
        digits_val(ds) >= 0,
    decreases ds.len(),
{
    if ds.len() > 0 {
        lemma_digits_val_nonneg(ds.drop_last());
    }
}

/// Appending one digit multiplies the run's value by ten and adds it.
pub proof fn lemma_digits_val_step(s: Seq<char>, i: int, k: int)
    requires
        0 <= i <= k < s.len(),
    ensures
        digits_val(s.subrange(i, k + 1)) == digits_val(s.subrange(i, k)) * 10 + digit_val(s[k]),
{
    let t = s.subrange(i, k + 1);
    assert(t.drop_last() =~= s.subrange(i, k));
    assert(t.last() == s[k]);
}

/// A digit run is worth at least as much as any of its prefixes.
pub proof fn lemma_digits_val_mono(s: Seq<char>, i: int, k: int, j: int)
    requires
        0 <= i <= k <= j <= s.len(),
        forall|t: int| i <= t < j ==> is_digit_char(s[t]),
    ensures
        digits_val(s.subrange(i, j)) >= digits_val(s.subrange(i, k)),
        digits_val(s.subrange(i, k)) >= 0,
    decreases j - k,
{
    assert forall|t: int| 0 <= t < s.subrange(i, k).len() implies is_digit_char(
        s.subrange(i, k)[t],
    ) by {}
    lemma_digits_val_nonneg(s.subrange(i, k));
    if k < j {
        lemma_digits_val_step(s, i, k);
        lemma_digits_val_mono(s, i, k + 1, j);
    }
}

/// True when offset `i` holds exactly the character `c`.
pub fn char_at_is(s: &str, i: usize, c: char) -> (r: bool)
    ensures
        r == (i < s@.len() && s@[i as int] == c),
        s@.len() <= usize::MAX,
{
    if i < s.unicode_len() {
        s.get_char(i) == c
    } else {
        false
    }
}

fn is_ws_at(s: &str, i: usize) -> (r: bool)
    ensures
        r == (i < s@.len() && is_ws_char(s@[i as int])),
{
    if i < s.unicode_len() {
        let c = s.get_char(i);
        c == ' ' || c == '\t' || c == '\n' || c == '\r'
    } else {
        false
    }
}

fn is_space_at(s: &str, i: usize) -> (r: bool)
    ensures
        r == (i < s@.len() && is_space_char(s@[i as int])),
{
    if i < s.unicode_len() {
        let c = s.get_char(i);
        c == ' ' || c == '\t'
    } else {
        false
    }
}

fn is_digit_at(s: &str, i: usize) -> (r: bool)
    ensures
        r == (i < s@.len() && is_digit_char(s@[i as int])),
{
    if i < s.unicode_len() {
        let c = s.get_char(i);
        '0' <= c && c <= '9'
    } else {
        false
    }
}

/// Consume the run of whitespace starting at `i`.
pub fn skip_ws(s: &str, i: usize) -> (j: usize)
    requires
        i <= s@.len(),
    ensures
        j as int == spec_skip_ws(s@, i as int),
        i <= j <= s@.len(),
{
    let n = s.unicode_len();
    let mut j: usize = i;
    while is_ws_at(s, j)
        invariant
            i <= j <= s@.len(),
            n == s@.len(),
            spec_skip_ws(s@, i as int) == spec_skip_ws(s@, j as int),
        decreases s@.len() - j,
    {
        j = j + 1;
    }
    j
}

/// Consume the run of field-separating spaces starting at `i`.
pub fn skip_spaces(s: &str, i: usize) -> (j: usize)
    requires
        i <= s@.len(),
    ensures
        j as int == spec_skip_spaces(s@, i as int),
        i <= j <= s@.len(),
{
    let n = s.unicode_len();
    let mut j: usize = i;
    while is_space_at(s, j)
        invariant
            i <= j <= s@.len(),
            n == s@.len(),
            spec_skip_spaces(s@, i as int) == spec_skip_spaces(s@, j as int),
        decreases s@.len() - j,
    {
        j = j + 1;
    }
    j
}

/// Consume the run of decimal digits starting at `i`.
pub fn scan_digits(s: &str, i: usize) -> (j: usize)
    requires
        i <= s@.len(),
    ensures
        j as int == spec_digits_end(s@, i as int),
        i <= j <= s@.len(),
        forall|t: int| i <= t < j ==> is_digit_char(s@[t]),
        j < s@.len() ==> !is_digit_char(s@[j as int]),
{
    let n = s.unicode_len();
    let mut j: usize = i;
    while is_digit_at(s, j)
        invariant
            i <= j <= s@.len(),
            n == s@.len(),
            spec_digits_end(s@, i as int) == spec_digits_end(s@, j as int),
            forall|t: int| i <= t < j ==> is_digit_char(s@[t]),
        decreases s@.len() - j,
    {
        j = j + 1;
    }
    j
}

/// Find the first occurrence of `c` at or after `i`; `s.len()` if none.
pub fn find_char(s: &str, i: usize, c: char) -> (j: usize)
    requires
        i <= s@.len(),
    ensures
        j as int == spec_find_char(s@, i as int, c),
        i <= j <= s@.len(),
        j < s@.len() ==> s@[j as int] == c,
        forall|t: int| i <= t < j ==> s@[t] != c,
{
    let n = s.unicode_len();
    let mut j: usize = i;
    loop
        invariant
            i <= j <= s@.len(),
            n == s@.len(),
            spec_find_char(s@, i as int, c) == spec_find_char(s@, j as int, c),
            forall|t: int| i <= t < j ==> s@[t] != c,
        decreases s@.len() - j,
    {
        if j == n {
            return j;
        }
        if s.get_char(j) == c {
            return j;
        }
        j = j + 1;
    }
}

/// The exact literal `lit` occurs at offset `i` of `s`.
pub fn match_lit(s: &str, i: usize, lit: &str) -> (r: bool)
    ensures
        r == spec_has_lit(s@, i as int, lit@),
        s@.len() <= usize::MAX,
{
    let n = s.unicode_len();
    let m = lit.unicode_len();
    if i > n || m > n - i {
        return false;
    }
    let mut k: usize = 0;
    while k < m
        invariant
            0 <= k <= m,
            m == lit@.len(),
            n == s@.len(),
            i + m <= n,
            forall|t: int| 0 <= t < k ==> s@[i + t] == lit@[t],
        decreases m - k,
    {
        if s.get_char(i + k) != lit.get_char(k) {
            proof {
                assert(s@.subrange(i as int, i + lit@.len())[k as int] == s@[i + k]);
            }
            return false;
        }
        k = k + 1;
    }
    proof {
        assert(s@.subrange(i as int, i + lit@.len()) =~= lit@);
    }
    true
}

/// The characters of `s` between offsets `i` and `j`, as an owned string.
pub fn take_range(s: &str, i: usize, j: usize) -> (r: String)
    requires
        i <= j <= s@.len(),
    ensures
        r@ == s@.subrange(i as int, j as int),
{
    s.substring_char(i, j).to_owned()
}

/// The two strings hold the same characters.
pub fn str_eq_str(s: &str, t: &str) -> (r: bool)
    ensures
        r == (s@ == t@),
{
    let n = s.unicode_len();
    if n != t.unicode_len() {
        return false;
    }
    let r = match_lit(s, 0, t);
    proof {
        if spec_has_lit(s@, 0, t@) {
            assert(s@.subrange(0, s@.len() as int) =~= s@);
        } else {
            assert(s@.subrange(0, t@.len() as int) =~= s@);
        }
    }
    r
}

/// The digit run between `i` and `j`, read as an unsigned 64-bit value;
/// `None` exactly when the run's value does not fit.
pub fn digits_to_u64(s: &str, i: usize, j: usize) -> (r: Option<u64>)
    requires
        i <= j <= s@.len(),
        forall|t: int| i <= t < j ==> is_digit_char(s@[t]),
    ensures
        (r is Some <==> digits_val(s@.subrange(i as int, j as int)) <= u64::MAX as int),
        (match r {
            Some(v) => v as int == digits_val(s@.subrange(i as int, j as int)),
            None => digits_val(s@.subrange(i as int, j as int)) > u64::MAX as int,
        }),
{
    let mut acc: u128 = 0;
    let mut k: usize = i;
    proof {
        assert(s@.subrange(i as int, i as int) =~= Seq::<char>::empty());
    }
    while k < j
        invariant
            i <= k <= j <= s@.len(),
            forall|t: int| i <= t < j ==> is_digit_char(s@[t]),
            acc as int == digits_val(s@.subrange(i as int, k as int)),
            acc <= u64::MAX as u128,
        decreases j - k,
    {
        let c = s.get_char(k);
        proof {
            assert(is_digit_char(s@[k as int]));
        }
        let d: u128 = c as u128 - 48;
        let next_acc: u128 = acc * 10 + d;
        proof {
            lemma_digits_val_step(s@, i as int, k as int);
        }
        if next_acc > u64::MAX as u128 {
            proof {
                lemma_digits_val_mono(s@, i as int, k as int + 1, j as int);
            }
            return None;
        }
        acc = next_acc;
        k = k + 1;
    }
    proof {
        assert(s@.subrange(i as int, j as int) == s@.subrange(i as int, k as int));
    }
    Some(acc as u64)
}

/// Match a single punctuation token with whitespace tolerated on both
/// sides: the offset past the trailing whitespace, or `None` when the
/// first non-whitespace character is not `t`.
pub fn sep_with_space(s: &str, i: usize, t: char) -> (r: Option<usize>)
    requires
        i <= s@.len(),
    ensures
        (match r {
            Some(j) => spec_sep_with_space(s@, i as int, t) == Some(j as int) && i < j
                <= s@.len(),
            None => spec_sep_with_space(s@, i as int, t) is None,
        }),
{
    let n = s.unicode_len();
    let a = skip_ws(s, i);
    if char_at_is(s, a, t) {
        proof {
            assert(a < n);
        }
        let j = skip_ws(s, a + 1);
        Some(j)
    } else {
        None
    }
}

} // verus!
