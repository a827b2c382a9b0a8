//! Filename normalization and the hidden-entry predicate.
//!
//! A filename matches the enumeration pattern when it consists of a non-empty
//! base, optional whitespace, a parenthesized positive integer (a run of
//! digits, at least one of them nonzero, so `(0)` is no suffix), and an
//! optional extension (a dot followed by word characters) reaching the end of
//! the name. Normalization strips the whitespace and the parenthesized
//! number, keeping base and extension; a name that does not match is returned
//! unchanged. The base is as short as possible, so of several parenthesized
//! groups only the final one is treated as the enumeration suffix.
//!
//! Whitespace, digits and word characters are the ASCII classes; a name
//! whose whitespace, number or extension uses characters beyond them does
//! not match.

use vstd::prelude::*;
use vstd::string::StrSliceExecFns;
use vstd::string::StringExecFns;

verus! {

/// True exactly when the entry name begins with a dot. Hidden entries (and
/// their subtrees) are pruned from traversal.
pub open spec fn is_hidden_spec(name: Seq<char>) -> bool {
    name.len() > 0 && name[0] == '.'
}

pub fn is_hidden(name: &str) -> (r: bool)
    ensures
        r == is_hidden_spec(name@),
{
    if name.is_empty() {
        false
    } else {
        name.get_char(0) == '.'
    }
}

/// Whitespace that may separate the base from the parenthesized number.
pub open spec fn is_space_char(c: char) -> bool {
    c == ' ' || c == '\t' || c == '\n' || c == '\r' || c == '\u{b}' || c == '\u{c}'
}

/// A decimal digit.
pub open spec fn is_digit_char(c: char) -> bool {
    '0' <= c && c <= '9'
}

/// A word character, as an extension may contain.
pub open spec fn is_word_char(c: char) -> bool {
    is_digit_char(c) || ('a' <= c && c <= 'z') || ('A' <= c && c <= 'Z') || c == '_'
}

/// End of the whitespace run of `s` that starts at `i`.
pub open spec fn space_run_end(s: Seq<char>, i: int) -> int
    decreases s.len() - i,
{
    if 0 <= i < s.len() && is_space_char(s[i]) {
        space_run_end(s, i + 1)
    } else {
        i
    }
}

/// End of the digit run of `s` that starts at `i`.
pub open spec fn digit_run_end(s: Seq<char>, i: int) -> int
    decreases s.len() - i,
{
    if 0 <= i < s.len() && is_digit_char(s[i]) {
        digit_run_end(s, i + 1)
    } else {
        i
    }
}

/// The characters of `s` from `j` to the end form a valid extension part:
/// either nothing at all, or a dot followed by at least one word character.
pub open spec fn is_ext_at(s: Seq<char>, j: int) -> bool {
    ||| j == s.len()
    ||| (j + 1 < s.len() && s[j] == '.' && forall|k: int|
        j + 1 <= k < s.len() ==> is_word_char(#[trigger] s[k]))
}

/// The characters of `s` from `i` to the end form an enumeration suffix:
/// optional whitespace, `(`, the digits of a positive integer — at least one
/// of them nonzero — `)`, optional extension.
pub open spec fn tail_match_at(s: Seq<char>, i: int) -> bool {
    let p = space_run_end(s, i);
    let q = digit_run_end(s, p + 1);
    &&& p < s.len()
    &&& s[p] == '('
    &&& q > p + 1
    &&& q < s.len()
    &&& s[q] == ')'
    &&& exists|k: int| p + 1 <= k < q && (#[trigger] s[k]) != '0'
    &&& is_ext_at(s, q + 1)
}

/// Where the extension part of the suffix starting at `i` begins (just after
/// the closing parenthesis); meaningful only when `tail_match_at(s, i)`.
pub open spec fn ext_start_at(s: Seq<char>, i: int) -> int {
    digit_run_end(s, space_run_end(s, i) + 1) + 1
}

/// The least position `>= i` at which an enumeration suffix begins, if any.
/// The search starts at 1 so that the base is never empty.
pub open spec fn first_match(s: Seq<char>, i: int) -> Option<int>
    decreases s.len() - i,
{
    if !(0 <= i < s.len()) {
        None
    } else if tail_match_at(s, i) {
        Some(i)
    } else {
        first_match(s, i + 1)
    }
}

/// A filename carries an enumeration suffix after a non-empty base.
pub open spec fn matches_pat(s: Seq<char>) -> bool {
    first_match(s, 1) is Some
}

/// The canonical identity of a filename: base and extension with the
/// enumeration suffix stripped, or the name itself when none is present.
pub open spec fn norm_spec(s: Seq<char>) -> Seq<char> {
    match first_match(s, 1) {
        None => s,
        Some(i) => s.take(i) + s.skip(ext_start_at(s, i)),
    }
}

proof fn lemma_space_run_end_bounds(s: Seq<char>, i: int)
    requires
        0 <= i <= s.len(),
    ensures
        i <= space_run_end(s, i) <= s.len(),
    decreases s.len() - i,
{
    if i < s.len() && is_space_char(s[i]) {
        lemma_space_run_end_bounds(s, i + 1);
    }
}

proof fn lemma_digit_run_end_bounds(s: Seq<char>, i: int)
    requires
        0 <= i <= s.len(),
    ensures
        i <= digit_run_end(s, i) <= s.len(),
    decreases s.len() - i,
{
    if i < s.len() && is_digit_char(s[i]) {
        lemma_digit_run_end_bounds(s, i + 1);
    }
}

proof fn lemma_first_match_bounds(s: Seq<char>, j: int)
    ensures
        match first_match(s, j) {
            Some(i) => j <= i < s.len() && tail_match_at(s, i),
            None => true,
        },
    decreases s.len() - j,
{
    if 0 <= j < s.len() && !tail_match_at(s, j) {
        lemma_first_match_bounds(s, j + 1);
    }
}

proof fn lemma_first_match_found(s: Seq<char>, i: int, j: int)
    requires
        0 <= i <= j < s.len(),
        tail_match_at(s, j),
        forall|m: int| i <= m < j ==> !tail_match_at(s, m),
    ensures
        first_match(s, i) == Some(j),
    decreases j - i,
{
    if i < j {
        lemma_first_match_found(s, i + 1, j);
    }
}

proof fn lemma_first_match_none(s: Seq<char>, i: int)
    requires
        forall|m: int| i <= m < s.len() ==> !tail_match_at(s, m),
    ensures
        first_match(s, i) is None,
    decreases s.len() - i,
{
    if 0 <= i < s.len() {
        lemma_first_match_none(s, i + 1);
    }
}

fn is_space(c: char) -> (r: bool)
    ensures
        r == is_space_char(c),
{
    c == ' ' || c == '\t' || c == '\n' || c == '\r' || c == '\u{b}' || c == '\u{c}'
}

fn is_digit(c: char) -> (r: bool)
    ensures
        r == is_digit_char(c),
{
    '0' <= c && c <= '9'
}

fn is_word(c: char) -> (r: bool)
    ensures
        r == is_word_char(c),
{
    ('0' <= c && c <= '9') || ('a' <= c && c <= 'z') || ('A' <= c && c <= 'Z') || c == '_'
}

/// Checks whether an enumeration suffix begins at position `i` of `s`, and
/// if so returns the position where its extension part begins.
fn check_tail(s: &str, i: usize, n: usize) -> (r: Option<usize>)
    requires
        1 <= i < n,
        n == s@.len(),
    ensures
        r is Some <==> tail_match_at(s@, i as int),
        r matches Some(es) ==> es == ext_start_at(s@, i as int) && i < es <= n,
{
    let ghost seq = s@;
    let mut p: usize = i;
    while p < n && is_space(s.get_char(p))
        invariant
            i <= p <= n,
            n == seq.len(),
            s@ == seq,
            space_run_end(seq, i as int) == space_run_end(seq, p as int),
        decreases n - p,
    {
        p += 1;
    }
    assert(space_run_end(seq, p as int) == p as int);
    if p >= n || s.get_char(p) != '(' {
        return None;
    }
    let mut q: usize = p + 1;
    let mut nonzero: bool = false;
    while q < n && is_digit(s.get_char(q))
        invariant
            p + 1 <= q <= n,
            n == seq.len(),
            s@ == seq,
            digit_run_end(seq, p + 1 as int) == digit_run_end(seq, q as int),
            nonzero == exists|k: int| p + 1 <= k < q && (#[trigger] seq[k]) != '0',
        decreases n - q,
    {
        if s.get_char(q) != '0' {
            nonzero = true;
        }
        q += 1;
    }
    assert(digit_run_end(seq, q as int) == q as int);
    if q == p + 1 {
        return None;
    }
    if q >= n || s.get_char(q) != ')' {
        return None;
    }
    if !nonzero {
        return None;
    }
    let es = q + 1;
    if es == n {
        return Some(es);
    }
    if s.get_char(es) != '.' {
        return None;
    }
    if es + 1 == n {
        return None;
    }
    assert(tail_match_at(seq, i as int) <==> is_ext_at(seq, es as int));
    let mut k: usize = es + 1;
    while k < n
        invariant
            es + 1 <= k <= n,
            i < es,
            es + 1 < n,
            n == seq.len(),
            s@ == seq,
            es == ext_start_at(seq, i as int),
            seq[es as int] == '.',
            tail_match_at(seq, i as int) <==> is_ext_at(seq, es as int),
            forall|t: int| es + 1 <= t < k ==> is_word_char(#[trigger] seq[t]),
        decreases n - k,
    {
        if !is_word(s.get_char(k)) {
            return None;
        }
        k += 1;
    }
    Some(es)
}

/// Strips the enumeration suffix from a filename, returning the
/// concatenation of base and extension; a name with no such suffix is
/// returned unchanged. The result is `norm_spec` of the input exactly.
pub fn normalize(filename: &str) -> (r: String)
    ensures
        r@ == norm_spec(filename@),
{
    let ghost seq = filename@;
    let n = filename.unicode_len();
    let mut i: usize = 1;
    while i < n
        invariant
            1 <= i,
            n == seq.len(),
            filename@ == seq,
            forall|m: int| 1 <= m < i ==> !tail_match_at(seq, m),
        decreases n - i,
    {
        match check_tail(filename, i, n) {
            Some(es) => {
                proof {
                    lemma_first_match_found(seq, 1, i as int);
                }
                let base = filename.substring_char(0, i);
                let ext = filename.substring_char(es, n);
                let r = base.to_owned().concat(ext);
                assert(r@ == norm_spec(seq));
                return r;
            },
            None => {
                i += 1;
            },
        }
    }
    proof {
        lemma_first_match_none(seq, 1);
    }
    filename.to_owned()
}

/// Normalization is idempotent on every filename whose normalized form does
/// not itself end in an enumeration suffix. (A name such as `a (1) (2)`
/// normalizes to `a (1)`, which still matches and would be stripped further
/// by a second pass; such names are excluded here.)
pub proof fn lemma_normalize_idempotent(s: Seq<char>)
    requires
        !matches_pat(norm_spec(s)),
    ensures
        norm_spec(norm_spec(s)) == norm_spec(s),
{
}

/// A name that carries an enumeration suffix loses at least the
/// parenthesized number: its normalized form is strictly shorter.
pub proof fn lemma_normalize_shrinks(s: Seq<char>)
    requires
        matches_pat(s),
    ensures
        norm_spec(s).len() < s.len(),
{
    lemma_first_match_bounds(s, 1);
    let i = choose|i: int| first_match(s, 1) == Some(i);
    assert(1 <= i < s.len() && tail_match_at(s, i));
    let p = space_run_end(s, i);
    lemma_space_run_end_bounds(s, i);
    let q = digit_run_end(s, p + 1);
    lemma_digit_run_end_bounds(s, p + 1);
    assert(q + 1 >= i + 3);
    assert(norm_spec(s) == s.take(i) + s.skip(q + 1));
}

/// Idempotence genuinely fails on every name excluded from
/// `lemma_normalize_idempotent`: a normalized form that still matches is
/// stripped further by a second pass.
pub proof fn lemma_idempotence_fails_on_rematch(s: Seq<char>)
    requires
        matches_pat(norm_spec(s)),
    ensures
        norm_spec(norm_spec(s)) != norm_spec(s),
{
    lemma_normalize_shrinks(norm_spec(s));
}

} // verus!
