//! Character classes and forward/backward scanning primitives over the
//! character sequence of a text line.  All positions are character indices.

use vstd::prelude::*;

verus! {

/// Whitespace as the line grammar understands it (ASCII blanks that can
/// appear inside a line of an IR file).
pub open spec fn is_space_spec(c: char) -> bool {
    c == ' ' || c == '\t' || c == '\r'
}

pub fn is_space(c: char) -> (r: bool)
    ensures
        r == is_space_spec(c),
{
    c == ' ' || c == '\t' || c == '\r'
}

/// Identifier characters: letters, digits and underscore.
pub open spec fn is_word_spec(c: char) -> bool {
    ('a' as u32 <= c as u32 && c as u32 <= 'z' as u32) || ('A' as u32 <= c as u32 && c as u32
        <= 'Z' as u32) || ('0' as u32 <= c as u32 && c as u32 <= '9' as u32) || c == '_'
}

pub fn is_word(c: char) -> (r: bool)
    ensures
        r == is_word_spec(c),
{
    let u = c as u32;
    ('a' as u32 <= u && u <= 'z' as u32) || ('A' as u32 <= u && u <= 'Z' as u32) || ('0' as u32 <= u
        && u <= '9' as u32) || c == '_'
}

/// Characters allowed in an operand token: identifier characters or `%`.
pub open spec fn is_operand_spec(c: char) -> bool {
    is_word_spec(c) || c == '%'
}

pub fn is_operand(c: char) -> (r: bool)
    ensures
        r == is_operand_spec(c),
{
    is_word(c) || c == '%'
}

/// First index at or after `i` whose character is not a blank (or the end).
pub open spec fn skip_spaces_spec(s: Seq<char>, i: int) -> int
    decreases s.len() - i,
{
    if 0 <= i < s.len() && is_space_spec(s[i]) {
        skip_spaces_spec(s, i + 1)
    } else {
        i
    }
}

#[verifier::loop_isolation(false)]
pub fn skip_spaces(s: &str, n: usize, start: usize) -> (r: usize)
    requires
        n == s@.len(),
        start <= n,
    ensures
        r == skip_spaces_spec(s@, start as int),
        start <= r <= n,
{
    let mut i = start;
    while i < n && is_space(s.get_char(i))
        invariant
            start <= i <= n,
            skip_spaces_spec(s@, start as int) == skip_spaces_spec(s@, i as int),
        decreases n - i,
    {
        i = i + 1;
    }
    i
}

/// First index at or after `i` whose character is not a word character.
pub open spec fn word_end_spec(s: Seq<char>, i: int) -> int
    decreases s.len() - i,
{
    if 0 <= i < s.len() && is_word_spec(s[i]) {
        word_end_spec(s, i + 1)
    } else {
        i
    }
}

pub proof fn lemma_word_end_bounds(s: Seq<char>, i: int)
    requires
        0 <= i <= s.len(),
    ensures
        i <= word_end_spec(s, i) <= s.len(),
    decreases s.len() - i,
{
    if i < s.len() && is_word_spec(s[i]) {
        lemma_word_end_bounds(s, i + 1);
    }
}

#[verifier::loop_isolation(false)]
pub fn word_end(s: &str, n: usize, start: usize) -> (r: usize)
    requires
        n == s@.len(),
        start <= n,
    ensures
        r == word_end_spec(s@, start as int),
        start <= r <= n,
{
    let mut i = start;
    while i < n && is_word(s.get_char(i))
        invariant
            start <= i <= n,
            word_end_spec(s@, start as int) == word_end_spec(s@, i as int),
        decreases n - i,
    {
        i = i + 1;
    }
    i
}

/// First index at or after `i` whose character is not an operand character.
pub open spec fn operand_end_spec(s: Seq<char>, i: int) -> int
    decreases s.len() - i,
{
    if 0 <= i < s.len() && is_operand_spec(s[i]) {
        operand_end_spec(s, i + 1)
    } else {
        i
    }
}

#[verifier::loop_isolation(false)]
pub fn operand_end(s: &str, n: usize, start: usize) -> (r: usize)
    requires
        n == s@.len(),
        start <= n,
    ensures
        r == operand_end_spec(s@, start as int),
        start <= r <= n,
{
    let mut i = start;
    while i < n && is_operand(s.get_char(i))
        invariant
            start <= i <= n,
            operand_end_spec(s@, start as int) == operand_end_spec(s@, i as int),
        decreases n - i,
    {
        i = i + 1;
    }
    i
}

/// First index at or after `i` whose character is a blank (or the end):
/// where a blank-delimited token ends.
pub open spec fn token_end_spec(s: Seq<char>, i: int) -> int
    decreases s.len() - i,
{
    if 0 <= i < s.len() && !is_space_spec(s[i]) {
        token_end_spec(s, i + 1)
    } else {
        i
    }
}

#[verifier::loop_isolation(false)]
pub fn token_end(s: &str, n: usize, start: usize) -> (r: usize)
    requires
        n == s@.len(),
        start <= n,
    ensures
        r == token_end_spec(s@, start as int),
        start <= r <= n,
{
    let mut i = start;
    while i < n && !is_space(s.get_char(i))
        invariant
            start <= i <= n,
            token_end_spec(s@, start as int) == token_end_spec(s@, i as int),
        decreases n - i,
    {
        i = i + 1;
    }
    i
}

/// End of a register token (`%` followed by at least one word character)
/// starting at `i`; the sentinel `i` itself means there is no register here.
pub open spec fn reg_end_spec(s: Seq<char>, i: int) -> int {
    if 0 <= i < s.len() && s[i] == '%' && word_end_spec(s, i + 1) > i + 1 {
        word_end_spec(s, i + 1)
    } else {
        i
    }
}

pub fn reg_end(s: &str, n: usize, start: usize) -> (r: usize)
    requires
        n == s@.len(),
        start <= n,
    ensures
        r == reg_end_spec(s@, start as int),
        start <= r <= n,
{
    proof {
        if (start as int) < s@.len() {
            lemma_word_end_bounds(s@, start as int + 1);
        }
    }
    if start < n && s.get_char(start) == '%' {
        let e = word_end(s, n, start + 1);
        if e > start + 1 {
            e
        } else {
            start
        }
    } else {
        start
    }
}

/// Does `lit` occur in `s` starting at index `i`?
pub open spec fn lit_at_spec(s: Seq<char>, i: int, lit: Seq<char>) -> bool {
    0 <= i && i + lit.len() <= s.len() && s.subrange(i, i + lit.len() as int) == lit
}

#[verifier::loop_isolation(false)]
pub fn lit_at(s: &str, n: usize, i: usize, lit: &str) -> (r: bool)
    requires
        n == s@.len(),
        i <= n,
    ensures
        r == lit_at_spec(s@, i as int, lit@),
{
    let m = lit.unicode_len();
    if m > n - i {
        return false;
    }
    let mut j: usize = 0;
    while j < m
        invariant
            0 <= j <= m,
            i + m <= n,
            forall|k: int| 0 <= k < j ==> s@[i + k] == lit@[k],
        decreases m - j,
    {
        if s.get_char(i + j) != lit.get_char(j) {
            proof {
                assert(s@.subrange(i as int, i + m as int)[j as int] == s@[i + j]);
            }
            return false;
        }
        j = j + 1;
    }
    proof {
        assert(s@.subrange(i as int, i + m as int) =~= lit@);
    }
    true
}

/// Character-by-character string equality.
#[verifier::loop_isolation(false)]
pub fn str_eq(a: &str, b: &str) -> (r: bool)
    ensures
        r == (a@ == b@),
{
    let na = a.unicode_len();
    let nb = b.unicode_len();
    if na != nb {
        return false;
    }
    let mut j: usize = 0;
    while j < na
        invariant
            0 <= j <= na,
            na == a@.len() == b@.len(),
            forall|k: int| 0 <= k < j ==> a@[k] == b@[k],
        decreases na - j,
    {
        if a.get_char(j) != b.get_char(j) {
            return false;
        }
        j = j + 1;
    }
    proof {
        assert(a@ =~= b@);
    }
    true
}

/// First index at or after `i` holding character `c`; `s.len()` if none.
pub open spec fn find_char_spec(s: Seq<char>, i: int, c: char) -> int
    decreases s.len() - i,
{
    if 0 <= i < s.len() {
        if s[i] == c {
            i
        } else {
            find_char_spec(s, i + 1, c)
        }
    } else {
        s.len() as int
    }
}

pub proof fn lemma_find_char_bounds(s: Seq<char>, i: int, c: char)
    requires
        0 <= i <= s.len(),
    ensures
        i <= find_char_spec(s, i, c) <= s.len(),
        find_char_spec(s, i, c) < s.len() ==> s[find_char_spec(s, i, c)] == c,
    decreases s.len() - i,
{
    if i < s.len() && s[i] != c {
        lemma_find_char_bounds(s, i + 1, c);
    }
}

#[verifier::loop_isolation(false)]
pub fn find_char(s: &str, n: usize, start: usize, c: char) -> (r: usize)
    requires
        n == s@.len(),
        start <= n,
    ensures
        r == find_char_spec(s@, start as int, c),
        start <= r <= n,
{
    let mut i = start;
    while i < n && s.get_char(i) != c
        invariant
            start <= i <= n,
            find_char_spec(s@, start as int, c) == find_char_spec(s@, i as int, c),
        decreases n - i,
    {
        i = i + 1;
    }
    i
}

/// Index of the last blank character in `[lo, hi)`; the sentinel `lo - 1`
/// means the range holds no blank.
pub open spec fn last_space_spec(s: Seq<char>, lo: int, hi: int) -> int
    decreases hi - lo,
{
    if lo < hi && 0 <= hi - 1 < s.len() {
        if is_space_spec(s[hi - 1]) {
            hi - 1
        } else {
            last_space_spec(s, lo, hi - 1)
        }
    } else {
        lo - 1
    }
}

/// Finds the last blank in `[lo, hi)`, returned as `Some(index)`.
#[verifier::loop_isolation(false)]
pub fn last_space(s: &str, n: usize, lo: usize, hi: usize) -> (r: Option<usize>)
    requires
        n == s@.len(),
        lo <= hi <= n,
    ensures
        match r {
            Some(j) => j == last_space_spec(s@, lo as int, hi as int) && lo <= j < hi,
            None => last_space_spec(s@, lo as int, hi as int) == lo - 1,
        },
{
    let mut h = hi;
    while h > lo && !is_space(s.get_char(h - 1))
        invariant
            lo <= h <= hi,
            last_space_spec(s@, lo as int, hi as int) == last_space_spec(s@, lo as int, h as int),
        decreases h,
    {
        h = h - 1;
    }
    if h > lo {
        Some(h - 1)
    } else {
        None
    }
}

} // verus!
