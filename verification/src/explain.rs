//! The pattern catalog and the line explainer: recognizes the textual shape
//! of a single IR instruction line and renders a sentence describing it.
//! Patterns are tried in a fixed priority order; a line no pattern accepts
//! gets the fallback explanation, so explaining never fails.

use vstd::prelude::*;
use vstd::string::*;
use crate::scan::{
    is_space_spec, is_space, is_word_spec, is_word, skip_spaces_spec, skip_spaces, word_end_spec,
    word_end, operand_end_spec, operand_end, reg_end_spec, reg_end, lit_at_spec, lit_at,
    find_char_spec, find_char, last_space_spec, last_space,
};

verus! {

// ---------------------------------------------------------------------------
// Cleaning: drop a trailing `!dbg` annotation, then trim surrounding blanks.
// ---------------------------------------------------------------------------

/// Is the debug-metadata marker `!dbg` present at index `i`?
pub open spec fn is_dbg_at(s: Seq<char>, i: int) -> bool {
    0 <= i && i + 4 <= s.len() && s[i] == '!' && s[i + 1] == 'd' && s[i + 2] == 'b' && s[i + 3]
        == 'g'
}

/// First index at or after `i` where the marker starts; `s.len()` if none.
pub open spec fn dbg_pos_spec(s: Seq<char>, i: int) -> int
    decreases s.len() - i,
{
    if 0 <= i && i + 4 <= s.len() {
        if is_dbg_at(s, i) {
            i
        } else {
            dbg_pos_spec(s, i + 1)
        }
    } else {
        s.len() as int
    }
}

pub proof fn lemma_dbg_pos_bounds(s: Seq<char>, i: int)
    requires
        0 <= i <= s.len(),
    ensures
        i <= dbg_pos_spec(s, i) <= s.len(),
    decreases s.len() - i,
{
    if i + 4 <= s.len() && !is_dbg_at(s, i) {
        lemma_dbg_pos_bounds(s, i + 1);
    }
}

#[verifier::loop_isolation(false)]
fn dbg_pos(s: &str, n: usize) -> (r: usize)
    requires
        n == s@.len(),
    ensures
        r == dbg_pos_spec(s@, 0),
        r <= n,
{
    let mut i: usize = 0;
    while n - i >= 4 && !(s.get_char(i) == '!' && s.get_char(i + 1) == 'd' && s.get_char(i + 2)
        == 'b' && s.get_char(i + 3) == 'g')
        invariant
            0 <= i <= n,
            dbg_pos_spec(s@, 0) == dbg_pos_spec(s@, i as int),
        decreases n - i,
    {
        i = i + 1;
    }
    if n - i >= 4 {
        i
    } else {
        n
    }
}

/// Walks back from `h` over blanks: the end of the trimmed text.
pub open spec fn trim_hi_spec(s: Seq<char>, h: int) -> int
    decreases h,
{
    if 0 < h && h <= s.len() && is_space_spec(s[h - 1]) {
        trim_hi_spec(s, h - 1)
    } else {
        h
    }
}

pub proof fn lemma_trim_hi_bounds(s: Seq<char>, h: int)
    requires
        0 <= h <= s.len(),
    ensures
        0 <= trim_hi_spec(s, h) <= h,
    decreases h,
{
    if 0 < h && is_space_spec(s[h - 1]) {
        lemma_trim_hi_bounds(s, h - 1);
    }
}

/// Skips blanks from `i` but never beyond `hi`: the start of the trimmed text.
pub open spec fn skip_spaces_to_spec(s: Seq<char>, i: int, hi: int) -> int
    decreases hi - i,
{
    if 0 <= i < hi && i < s.len() && is_space_spec(s[i]) {
        skip_spaces_to_spec(s, i + 1, hi)
    } else {
        i
    }
}

/// The cleaned form of a raw line: everything from the first `!dbg` marker on
/// is dropped, then surrounding blanks are trimmed away.
pub open spec fn clean_spec(s: Seq<char>) -> Seq<char> {
    let cut = dbg_pos_spec(s, 0);
    let hi = trim_hi_spec(s, cut);
    let lo = skip_spaces_to_spec(s, 0, hi);
    s.subrange(lo, hi)
}

/// Cuts the raw line down to its cleaned form, returning the slice and its
/// character length.
#[verifier::loop_isolation(false)]
pub fn clean_line<'a>(line: &'a str) -> (r: (&'a str, usize))
    ensures
        r.0@ == clean_spec(line@),
        r.1 == clean_spec(line@).len(),
{
    let n = line.unicode_len();
    let cut = dbg_pos(line, n);
    proof {
        lemma_dbg_pos_bounds(line@, 0);
        lemma_trim_hi_bounds(line@, cut as int);
    }
    let mut hi = cut;
    while hi > 0 && is_space(line.get_char(hi - 1))
        invariant
            0 <= hi <= cut,
            trim_hi_spec(line@, cut as int) == trim_hi_spec(line@, hi as int),
        decreases hi,
    {
        hi = hi - 1;
    }
    let mut lo: usize = 0;
    while lo < hi && is_space(line.get_char(lo))
        invariant
            0 <= lo <= hi,
            skip_spaces_to_spec(line@, 0, hi as int) == skip_spaces_to_spec(
                line@,
                lo as int,
                hi as int,
            ),
        decreases hi - lo,
    {
        lo = lo + 1;
    }
    let cleaned = line.substring_char(lo, hi);
    (cleaned, hi - lo)
}

/// After a keyword there must be at least one blank; the result is the index
/// of the first character after those blanks, or the sentinel `-1` when the
/// keyword (or the blank) is missing.
pub open spec fn kw_ws_spec(s: Seq<char>, i: int, kw: Seq<char>) -> int {
    if lit_at_spec(s, i, kw) && i + kw.len() < s.len() && is_space_spec(s[i + kw.len()]) {
        skip_spaces_spec(s, i + kw.len() as int)
    } else {
        -1
    }
}

pub fn kw_ws(s: &str, n: usize, i: usize, kw: &str) -> (r: Option<usize>)
    requires
        n == s@.len(),
        i <= n,
    ensures
        match r {
            Some(j) => kw_ws_spec(s@, i as int, kw@) == j && i <= j <= n,
            None => kw_ws_spec(s@, i as int, kw@) == -1,
        },
{
    let m = kw.unicode_len();
    if lit_at(s, n, i, kw) && i + m < n && is_space(s.get_char(i + m)) {
        Some(skip_spaces(s, n, i + m))
    } else {
        None
    }
}

// ---------------------------------------------------------------------------
// Character classes special to single patterns.
// ---------------------------------------------------------------------------

/// Characters allowed in a stored value token.
pub open spec fn is_val_spec(c: char) -> bool {
    is_word_spec(c) || c == '%' || c == '.' || c == '-'
}

/// Characters allowed in the value-type part of a store.
pub open spec fn is_valty_spec(c: char) -> bool {
    is_word_spec(c) || is_space_spec(c) || c == '*'
}

#[verifier::loop_isolation(false)]
fn all_val(s: &str, n: usize, lo: usize, hi: usize) -> (r: bool)
    requires
        n == s@.len(),
        lo <= hi <= n,
    ensures
        r == (forall|k: int| lo <= k < hi ==> is_val_spec(s@[k])),
{
    let mut i = lo;
    while i < hi
        invariant
            lo <= i <= hi,
            forall|k: int| lo <= k < i ==> is_val_spec(s@[k]),
        decreases hi - i,
    {
        let c = s.get_char(i);
        if !(is_word(c) || c == '%' || c == '.' || c == '-') {
            return false;
        }
        i = i + 1;
    }
    true
}

#[verifier::loop_isolation(false)]
fn all_valty(s: &str, n: usize, lo: usize, hi: usize) -> (r: bool)
    requires
        n == s@.len(),
        lo <= hi <= n,
    ensures
        r == (forall|k: int| lo <= k < hi ==> is_valty_spec(s@[k])),
{
    let mut i = lo;
    while i < hi
        invariant
            lo <= i <= hi,
            forall|k: int| lo <= k < i ==> is_valty_spec(s@[k]),
        decreases hi - i,
    {
        let c = s.get_char(i);
        if !(is_word(c) || is_space(c) || c == '*') {
            return false;
        }
        i = i + 1;
    }
    true
}

// ---------------------------------------------------------------------------
// The common `<dest> = ` prefix.
// ---------------------------------------------------------------------------

/// A destination register, blanks, `=`, blanks: yields the end of the
/// register token and the position after the `=` and its blanks.
pub open spec fn dest_eq_spec(s: Seq<char>) -> Option<(int, int)> {
    let d = reg_end_spec(s, 0);
    if d <= 0 {
        None
    } else {
        let i = skip_spaces_spec(s, d);
        if i < s.len() && s[i] == '=' {
            Some((d, skip_spaces_spec(s, i + 1)))
        } else {
            None
        }
    }
}

fn dest_eq(s: &str, n: usize) -> (r: Option<(usize, usize)>)
    requires
        n == s@.len(),
    ensures
        match r {
            Some(t) => dest_eq_spec(s@) == Some((t.0 as int, t.1 as int)) && t.0 <= n && t.1 <= n,
            None => dest_eq_spec(s@) is None,
        },
{
    let d = reg_end(s, n, 0);
    if d == 0 {
        return None;
    }
    let i = skip_spaces(s, n, d);
    if i < n && s.get_char(i) == '=' {
        Some((d, skip_spaces(s, n, i + 1)))
    } else {
        None
    }
}

// ---------------------------------------------------------------------------
// The catalog, one recognizer per instruction shape.  Each spec function
// yields the rendered explanation when the cleaned line has the shape.
// ---------------------------------------------------------------------------

/// `<dest> = load <type>, ptr <src>[, ...]`
pub open spec fn try_load_spec(s: Seq<char>) -> Option<Seq<char>> {
    match dest_eq_spec(s) {
        None => None,
        Some(di) => {
            let j = kw_ws_spec(s, di.1, "load"@);
            if j < 0 {
                None
            } else {
                let te = word_end_spec(s, j);
                if te > j && te < s.len() && s[te] == ',' {
                    let p = skip_spaces_spec(s, te + 1);
                    let q = kw_ws_spec(s, p, "ptr"@);
                    if q < 0 {
                        None
                    } else {
                        let re = reg_end_spec(s, q);
                        if re > q && (re == s.len() || s[re] == ',') {
                            Some(
                                "Load the value pointed to by register "@ + s.subrange(q, re)
                                    + " into register "@ + s.subrange(0, di.0) + " (type "@
                                    + s.subrange(j, te) + ")."@,
                            )
                        } else {
                            None
                        }
                    }
                } else {
                    None
                }
            }
        },
    }
}

fn try_load(s: &str, n: usize) -> (r: Option<String>)
    requires
        n == s@.len(),
    ensures
        match r {
            Some(m) => try_load_spec(s@) == Some(m@),
            None => try_load_spec(s@) is None,
        },
{
    let (d, i) = match dest_eq(s, n) {
        Some(t) => t,
        None => {
            return None;
        },
    };
    let j = match kw_ws(s, n, i, "load") {
        Some(j) => j,
        None => {
            return None;
        },
    };
    let te = word_end(s, n, j);
    if !(te > j && te < n && s.get_char(te) == ',') {
        return None;
    }
    let p = skip_spaces(s, n, te + 1);
    let q = match kw_ws(s, n, p, "ptr") {
        Some(q) => q,
        None => {
            return None;
        },
    };
    let re = reg_end(s, n, q);
    if !(re > q && (re == n || s.get_char(re) == ',')) {
        return None;
    }
    let msg = String::from_str("Load the value pointed to by register ").concat(
        s.substring_char(q, re),
    ).concat(" into register ").concat(s.substring_char(0, d)).concat(" (type ").concat(
        s.substring_char(j, te),
    ).concat(").");
    Some(msg)
}

/// `store <valtype> <val>, ptr <dest>[, ...]`
pub open spec fn try_store_spec(s: Seq<char>) -> Option<Seq<char>> {
    let i = kw_ws_spec(s, 0, "store"@);
    if i < 0 {
        None
    } else {
        let c = find_char_spec(s, i, ',');
        if c >= s.len() {
            None
        } else {
            let w = last_space_spec(s, i, c);
            if w <= i || w + 1 >= c {
                None
            } else {
                if (forall|k: int| w + 1 <= k < c ==> is_val_spec(s[k])) && (forall|k: int|
                    i <= k < w ==> is_valty_spec(s[k])) {
                    let p = skip_spaces_spec(s, c + 1);
                    let q = kw_ws_spec(s, p, "ptr"@);
                    if q < 0 {
                        None
                    } else {
                        let de = reg_end_spec(s, q);
                        if de > q && (de == s.len() || s[de] == ',') {
                            Some(
                                "Store the value "@ + s.subrange(w + 1, c)
                                    + " into the memory pointed to by register "@ + s.subrange(
                                    q,
                                    de,
                                ) + "."@,
                            )
                        } else {
                            None
                        }
                    }
                } else {
                    None
                }
            }
        }
    }
}

fn try_store(s: &str, n: usize) -> (r: Option<String>)
    requires
        n == s@.len(),
    ensures
        match r {
            Some(m) => try_store_spec(s@) == Some(m@),
            None => try_store_spec(s@) is None,
        },
{
    let i = match kw_ws(s, n, 0, "store") {
        Some(i) => i,
        None => {
            return None;
        },
    };
    let c = find_char(s, n, i, ',');
    if c >= n {
        return None;
    }
    let w = match last_space(s, n, i, c) {
        Some(w) => w,
        None => {
            return None;
        },
    };
    if w <= i || w + 1 >= c {
        return None;
    }
    if !(all_val(s, n, w + 1, c) && all_valty(s, n, i, w)) {
        return None;
    }
    let p = skip_spaces(s, n, c + 1);
    let q = match kw_ws(s, n, p, "ptr") {
        Some(q) => q,
        None => {
            return None;
        },
    };
    let de = reg_end(s, n, q);
    if !(de > q && (de == n || s.get_char(de) == ',')) {
        return None;
    }
    let msg = String::from_str("Store the value ").concat(s.substring_char(w + 1, c)).concat(
        " into the memory pointed to by register ",
    ).concat(s.substring_char(q, de)).concat(".");
    Some(msg)
}

/// `<dest> = add|mul <flags-and-type> <op1>, <op2>[, ...]`; the keyword picks
/// the verb of the rendered sentence.
pub open spec fn try_arith_spec(s: Seq<char>, kw: Seq<char>, intro: Seq<char>) -> Option<
    Seq<char>,
> {
    match dest_eq_spec(s) {
        None => None,
        Some(di) => {
            let j = kw_ws_spec(s, di.1, kw);
            if j < 0 {
                None
            } else {
                let c = find_char_spec(s, j, ',');
                if c >= s.len() {
                    None
                } else {
                    let w = last_space_spec(s, j, c);
                    if w <= j || w + 1 >= c {
                        None
                    } else {
                        let p = skip_spaces_spec(s, c + 1);
                        if p >= s.len() {
                            None
                        } else {
                            let c2 = find_char_spec(s, p, ',');
                            if c2 <= p {
                                None
                            } else {
                                Some(
                                    intro + s.subrange(w + 1, c) + " and "@ + s.subrange(p, c2)
                                        + ", store the result in register "@ + s.subrange(0, di.0)
                                        + "."@,
                                )
                            }
                        }
                    }
                }
            }
        },
    }
}

fn try_arith(s: &str, n: usize, kw: &str, intro: &str) -> (r: Option<String>)
    requires
        n == s@.len(),
    ensures
        match r {
            Some(m) => try_arith_spec(s@, kw@, intro@) == Some(m@),
            None => try_arith_spec(s@, kw@, intro@) is None,
        },
{
    let (d, i) = match dest_eq(s, n) {
        Some(t) => t,
        None => {
            return None;
        },
    };
    let j = match kw_ws(s, n, i, kw) {
        Some(j) => j,
        None => {
            return None;
        },
    };
    let c = find_char(s, n, j, ',');
    if c >= n {
        return None;
    }
    let w = match last_space(s, n, j, c) {
        Some(w) => w,
        None => {
            return None;
        },
    };
    if w <= j || w + 1 >= c {
        return None;
    }
    let p = skip_spaces(s, n, c + 1);
    if p >= n {
        return None;
    }
    let c2 = find_char(s, n, p, ',');
    if c2 <= p {
        return None;
    }
    let msg = String::from_str(intro).concat(s.substring_char(w + 1, c)).concat(" and ").concat(
        s.substring_char(p, c2),
    ).concat(", store the result in register ").concat(s.substring_char(0, d)).concat(".");
    Some(msg)
}

/// Is there a viable called-function name starting with the `@` at `a`?
pub open spec fn call_at_spec(s: Seq<char>, a: int) -> bool {
    &&& 0 <= a < s.len()
    &&& s[a] == '@'
    &&& word_end_spec(s, a + 1) > a + 1
    &&& call_after_ok(s, word_end_spec(s, a + 1))
}

/// What may follow the called-function name: the end of the line, a comma,
/// or an argument list `(...)` followed by the end or a comma.
pub open spec fn call_after_ok(s: Seq<char>, f: int) -> bool {
    ||| f == s.len()
    ||| (0 <= f < s.len() && s[f] == ',')
    ||| (0 <= f < s.len() && s[f] == '(' && exists|k: int|
        f < k < s.len() && #[trigger] s[k] == ')' && (k == s.len() - 1 || s[k + 1] == ','))
}

/// The rightmost viable `@` at or before `a` (and at or after `j`);
/// the sentinel `j - 1` means there is none.
pub open spec fn rfind_call_spec(s: Seq<char>, j: int, a: int) -> int
    decreases a - j + 1,
{
    if a < j {
        j - 1
    } else if call_at_spec(s, a) {
        a
    } else {
        rfind_call_spec(s, j, a - 1)
    }
}

#[verifier::loop_isolation(false)]
fn paren_ok(s: &str, n: usize, f: usize) -> (r: bool)
    requires
        n == s@.len(),
        f < n,
    ensures
        r == exists|k: int| f < k < s@.len() && #[trigger] s@[k] == ')' && (k == s@.len() - 1 || s@[k
            + 1] == ','),
{
    let mut i = f + 1;
    while i < n
        invariant
            f + 1 <= i <= n,
            forall|k: int| f < k < i ==> !(#[trigger] s@[k] == ')' && (k == s@.len() - 1 || s@[k + 1]
                == ',')),
        decreases n - i,
    {
        if s.get_char(i) == ')' && (i == n - 1 || s.get_char(i + 1) == ',') {
            return true;
        }
        i = i + 1;
    }
    false
}

fn call_at(s: &str, n: usize, a: usize) -> (r: bool)
    requires
        n == s@.len(),
        a < n,
    ensures
        r == call_at_spec(s@, a as int),
{
    if s.get_char(a) != '@' {
        return false;
    }
    let f = word_end(s, n, a + 1);
    if f <= a + 1 {
        return false;
    }
    if f == n || s.get_char(f) == ',' {
        return true;
    }
    if s.get_char(f) == '(' {
        paren_ok(s, n, f)
    } else {
        false
    }
}

/// `[<dest> =] call <...> @<func>[(...)][, ...]`
pub open spec fn try_call_spec(s: Seq<char>) -> Option<Seq<char>> {
    let dest = dest_eq_spec(s);
    let i0: int = match dest {
        Some(di) => di.1,
        None => 0,
    };
    let j = kw_ws_spec(s, i0, "call"@);
    if j < 0 {
        None
    } else {
        let a = rfind_call_spec(s, j, s.len() - 1);
        if a < j {
            None
        } else {
            let f = word_end_spec(s, a + 1);
            match dest {
                Some(di) => Some(
                    "Call function '"@ + s.subrange(a + 1, f)
                        + "' and store the return value in register "@ + s.subrange(0, di.0)
                        + "."@,
                ),
                None => Some("Call function '"@ + s.subrange(a + 1, f) + "'."@),
            }
        }
    }
}

#[verifier::loop_isolation(false)]
fn rfind_call(s: &str, n: usize, j: usize) -> (r: Option<usize>)
    requires
        n == s@.len(),
        n >= 1,
        j <= n,
    ensures
        match r {
            Some(a) => a == rfind_call_spec(s@, j as int, n as int - 1) && j <= a < n && call_at_spec(
                s@,
                a as int,
            ),
            None => rfind_call_spec(s@, j as int, n as int - 1) < j,
        },
{
    let mut a = n - 1;
    loop
        invariant
            a <= n - 1,
            rfind_call_spec(s@, j as int, n as int - 1) == rfind_call_spec(s@, j as int, a as int),
        decreases a,
    {
        if a < j {
            return None;
        }
        if call_at(s, n, a) {
            return Some(a);
        }
        if a == 0 {
            proof {
                assert(rfind_call_spec(s@, j as int, 0) == rfind_call_spec(s@, j as int, -1));
                assert(rfind_call_spec(s@, j as int, -1) == j - 1);
            }
            return None;
        }
        a = a - 1;
    }
}

fn try_call(s: &str, n: usize) -> (r: Option<String>)
    requires
        n == s@.len(),
    ensures
        match r {
            Some(m) => try_call_spec(s@) == Some(m@),
            None => try_call_spec(s@) is None,
        },
{
    let dest = dest_eq(s, n);
    let i0: usize = match dest {
        Some(t) => t.1,
        None => 0,
    };
    let j = match kw_ws(s, n, i0, "call") {
        Some(j) => j,
        None => {
            return None;
        },
    };
    let a = match rfind_call(s, n, j) {
        Some(a) => a,
        None => {
            return None;
        },
    };
    let f = word_end(s, n, a + 1);
    match dest {
        Some(t) => {
            let msg = String::from_str("Call function '").concat(
                s.substring_char(a + 1, f),
            ).concat("' and store the return value in register ").concat(
                s.substring_char(0, t.0),
            ).concat(".");
            Some(msg)
        },
        None => {
            let msg = String::from_str("Call function '").concat(
                s.substring_char(a + 1, f),
            ).concat("'.");
            Some(msg)
        },
    }
}

/// `<dest> = alloca <type>[, ...]`
pub open spec fn try_alloca_spec(s: Seq<char>) -> Option<Seq<char>> {
    match dest_eq_spec(s) {
        None => None,
        Some(di) => {
            let j = kw_ws_spec(s, di.1, "alloca"@);
            if j < 0 {
                None
            } else {
                let te = word_end_spec(s, j);
                if te > j && (te == s.len() || s[te] == ',') {
                    Some(
                        "Allocate space on the stack for type "@ + s.subrange(j, te)
                            + " and assign its pointer to register "@ + s.subrange(0, di.0)
                            + "."@,
                    )
                } else {
                    None
                }
            }
        },
    }
}

fn try_alloca(s: &str, n: usize) -> (r: Option<String>)
    requires
        n == s@.len(),
    ensures
        match r {
            Some(m) => try_alloca_spec(s@) == Some(m@),
            None => try_alloca_spec(s@) is None,
        },
{
    let (d, i) = match dest_eq(s, n) {
        Some(t) => t,
        None => {
            return None;
        },
    };
    let j = match kw_ws(s, n, i, "alloca") {
        Some(j) => j,
        None => {
            return None;
        },
    };
    let te = word_end(s, n, j);
    if !(te > j && (te == n || s.get_char(te) == ',')) {
        return None;
    }
    let msg = String::from_str("Allocate space on the stack for type ").concat(
        s.substring_char(j, te),
    ).concat(" and assign its pointer to register ").concat(s.substring_char(0, d)).concat(".");
    Some(msg)
}

/// `ret <type> <val>[, ...]`
pub open spec fn try_ret_spec(s: Seq<char>) -> Option<Seq<char>> {
    let j = kw_ws_spec(s, 0, "ret"@);
    if j < 0 {
        None
    } else {
        let te = word_end_spec(s, j);
        if te > j && te < s.len() && is_space_spec(s[te]) {
            let p = skip_spaces_spec(s, te);
            let ve = operand_end_spec(s, p);
            if ve > p && (ve == s.len() || s[ve] == ',') {
                Some(
                    "Return the value "@ + s.subrange(p, ve) + " of type "@ + s.subrange(j, te)
                        + " from the function."@,
                )
            } else {
                None
            }
        } else {
            None
        }
    }
}

fn try_ret(s: &str, n: usize) -> (r: Option<String>)
    requires
        n == s@.len(),
    ensures
        match r {
            Some(m) => try_ret_spec(s@) == Some(m@),
            None => try_ret_spec(s@) is None,
        },
{
    let j = match kw_ws(s, n, 0, "ret") {
        Some(j) => j,
        None => {
            return None;
        },
    };
    let te = word_end(s, n, j);
    if !(te > j && te < n && is_space(s.get_char(te))) {
        return None;
    }
    let p = skip_spaces(s, n, te);
    let ve = operand_end(s, n, p);
    if !(ve > p && (ve == n || s.get_char(ve) == ',')) {
        return None;
    }
    let msg = String::from_str("Return the value ").concat(s.substring_char(p, ve)).concat(
        " of type ",
    ).concat(s.substring_char(j, te)).concat(" from the function.");
    Some(msg)
}

/// `br <condition-and-targets>`
pub open spec fn try_br_spec(s: Seq<char>) -> Option<Seq<char>> {
    let j = kw_ws_spec(s, 0, "br"@);
    if j < 0 || j >= s.len() {
        None
    } else {
        Some("Branch instruction: "@ + s.subrange(j, s.len() as int) + "."@)
    }
}

fn try_br(s: &str, n: usize) -> (r: Option<String>)
    requires
        n == s@.len(),
    ensures
        match r {
            Some(m) => try_br_spec(s@) == Some(m@),
            None => try_br_spec(s@) is None,
        },
{
    let j = match kw_ws(s, n, 0, "br") {
        Some(j) => j,
        None => {
            return None;
        },
    };
    if j >= n {
        return None;
    }
    let msg = String::from_str("Branch instruction: ").concat(s.substring_char(j, n)).concat(".");
    Some(msg)
}

/// `<dest> = icmp <predicate> <type> <op1>, <op2>[, ...]`
pub open spec fn try_icmp_spec(s: Seq<char>) -> Option<Seq<char>> {
    match dest_eq_spec(s) {
        None => None,
        Some(di) => {
            let j = kw_ws_spec(s, di.1, "icmp"@);
            if j < 0 {
                None
            } else {
                let pe = word_end_spec(s, j);
                if pe > j && pe < s.len() && is_space_spec(s[pe]) {
                    let t0 = skip_spaces_spec(s, pe);
                    let t1 = word_end_spec(s, t0);
                    if t1 > t0 && t1 < s.len() && is_space_spec(s[t1]) {
                        let o0 = skip_spaces_spec(s, t1);
                        let o1 = operand_end_spec(s, o0);
                        if o1 > o0 && o1 < s.len() && s[o1] == ',' {
                            let p = skip_spaces_spec(s, o1 + 1);
                            let q = operand_end_spec(s, p);
                            if q > p && (q == s.len() || s[q] == ',') {
                                Some(
                                    "Integer compare ("@ + s.subrange(j, pe)
                                        + ") between registers "@ + s.subrange(o0, o1) + " and "@
                                        + s.subrange(p, q) + ", result stored in "@ + s.subrange(
                                        0,
                                        di.0,
                                    ) + "."@,
                                )
                            } else {
                                None
                            }
                        } else {
                            None
                        }
                    } else {
                        None
                    }
                } else {
                    None
                }
            }
        },
    }
}

fn try_icmp(s: &str, n: usize) -> (r: Option<String>)
    requires
        n == s@.len(),
    ensures
        match r {
            Some(m) => try_icmp_spec(s@) == Some(m@),
            None => try_icmp_spec(s@) is None,
        },
{
    let (d, i) = match dest_eq(s, n) {
        Some(t) => t,
        None => {
            return None;
        },
    };
    let j = match kw_ws(s, n, i, "icmp") {
        Some(j) => j,
        None => {
            return None;
        },
    };
    let pe = word_end(s, n, j);
    if !(pe > j && pe < n && is_space(s.get_char(pe))) {
        return None;
    }
    let t0 = skip_spaces(s, n, pe);
    let t1 = word_end(s, n, t0);
    if !(t1 > t0 && t1 < n && is_space(s.get_char(t1))) {
        return None;
    }
    let o0 = skip_spaces(s, n, t1);
    let o1 = operand_end(s, n, o0);
    if !(o1 > o0 && o1 < n && s.get_char(o1) == ',') {
        return None;
    }
    let p = skip_spaces(s, n, o1 + 1);
    let q = operand_end(s, n, p);
    if !(q > p && (q == n || s.get_char(q) == ',')) {
        return None;
    }
    let msg = String::from_str("Integer compare (").concat(s.substring_char(j, pe)).concat(
        ") between registers ",
    ).concat(s.substring_char(o0, o1)).concat(" and ").concat(s.substring_char(p, q)).concat(
        ", result stored in ",
    ).concat(s.substring_char(0, d)).concat(".");
    Some(msg)
}

/// `<dest> = phi <type> <value-list>`
pub open spec fn try_phi_spec(s: Seq<char>) -> Option<Seq<char>> {
    match dest_eq_spec(s) {
        None => None,
        Some(di) => {
            let j = kw_ws_spec(s, di.1, "phi"@);
            if j < 0 {
                None
            } else {
                let t1 = word_end_spec(s, j);
                if t1 > j && t1 < s.len() && is_space_spec(s[t1]) {
                    let v = skip_spaces_spec(s, t1);
                    if v < s.len() {
                        Some(
                            "PHI node in register "@ + s.subrange(0, di.0)
                                + " selecting among values: "@ + s.subrange(v, s.len() as int)
                                + "."@,
                        )
                    } else {
                        None
                    }
                } else {
                    None
                }
            }
        },
    }
}

fn try_phi(s: &str, n: usize) -> (r: Option<String>)
    requires
        n == s@.len(),
    ensures
        match r {
            Some(m) => try_phi_spec(s@) == Some(m@),
            None => try_phi_spec(s@) is None,
        },
{
    let (d, i) = match dest_eq(s, n) {
        Some(t) => t,
        None => {
            return None;
        },
    };
    let j = match kw_ws(s, n, i, "phi") {
        Some(j) => j,
        None => {
            return None;
        },
    };
    let t1 = word_end(s, n, j);
    if !(t1 > j && t1 < n && is_space(s.get_char(t1))) {
        return None;
    }
    let v = skip_spaces(s, n, t1);
    if v >= n {
        return None;
    }
    let msg = String::from_str("PHI node in register ").concat(s.substring_char(0, d)).concat(
        " selecting among values: ",
    ).concat(s.substring_char(v, n)).concat(".");
    Some(msg)
}

/// `<dest> = bitcast <fromtype> <fromval> to <totype>[, ...]`
pub open spec fn try_bitcast_spec(s: Seq<char>) -> Option<Seq<char>> {
    match dest_eq_spec(s) {
        None => None,
        Some(di) => {
            let j = kw_ws_spec(s, di.1, "bitcast"@);
            if j < 0 {
                None
            } else {
                let t1 = word_end_spec(s, j);
                if t1 > j && t1 < s.len() && is_space_spec(s[t1]) {
                    let f0 = skip_spaces_spec(s, t1);
                    let f1 = operand_end_spec(s, f0);
                    if f1 > f0 && f1 < s.len() && is_space_spec(s[f1]) {
                        let k = skip_spaces_spec(s, f1);
                        let g = kw_ws_spec(s, k, "to"@);
                        if g < 0 {
                            None
                        } else {
                            let g1 = word_end_spec(s, g);
                            if g1 > g && (g1 == s.len() || s[g1] == ',') {
                                Some(
                                    "Bitcast value in register "@ + s.subrange(f0, f1)
                                        + " from type "@ + s.subrange(j, t1) + " to type "@
                                        + s.subrange(g, g1) + ", store in "@ + s.subrange(0, di.0)
                                        + "."@,
                                )
                            } else {
                                None
                            }
                        }
                    } else {
                        None
                    }
                } else {
                    None
                }
            }
        },
    }
}

fn try_bitcast(s: &str, n: usize) -> (r: Option<String>)
    requires
        n == s@.len(),
    ensures
        match r {
            Some(m) => try_bitcast_spec(s@) == Some(m@),
            None => try_bitcast_spec(s@) is None,
        },
{
    let (d, i) = match dest_eq(s, n) {
        Some(t) => t,
        None => {
            return None;
        },
    };
    let j = match kw_ws(s, n, i, "bitcast") {
        Some(j) => j,
        None => {
            return None;
        },
    };
    let t1 = word_end(s, n, j);
    if !(t1 > j && t1 < n && is_space(s.get_char(t1))) {
        return None;
    }
    let f0 = skip_spaces(s, n, t1);
    let f1 = operand_end(s, n, f0);
    if !(f1 > f0 && f1 < n && is_space(s.get_char(f1))) {
        return None;
    }
    let k = skip_spaces(s, n, f1);
    let g = match kw_ws(s, n, k, "to") {
        Some(g) => g,
        None => {
            return None;
        },
    };
    let g1 = word_end(s, n, g);
    if !(g1 > g && (g1 == n || s.get_char(g1) == ',')) {
        return None;
    }
    let msg = String::from_str("Bitcast value in register ").concat(
        s.substring_char(f0, f1),
    ).concat(" from type ").concat(s.substring_char(j, t1)).concat(" to type ").concat(
        s.substring_char(g, g1),
    ).concat(", store in ").concat(s.substring_char(0, d)).concat(".");
    Some(msg)
}

/// The fallback explanation, echoing the cleaned line.
pub open spec fn fallback_spec(s: Seq<char>) -> Seq<char> {
    "No detailed explanation available for this instruction: "@ + s
}

// ---------------------------------------------------------------------------
// The explainer: clean, then first match in priority order, else fallback.
// ---------------------------------------------------------------------------

/// What explaining a raw line yields: the catalog applied to the cleaned
/// line, patterns in fixed priority order, first match winning.
pub open spec fn explain_spec(line: Seq<char>) -> Seq<char> {
    let s = clean_spec(line);
    match try_load_spec(s) {
        Some(m) => m,
        None => match try_store_spec(s) {
            Some(m) => m,
            None => match try_arith_spec(s, "add"@, "Add the values of registers "@) {
                Some(m) => m,
                None => match try_arith_spec(s, "mul"@, "Multiply the values of registers "@) {
                    Some(m) => m,
                    None => match try_call_spec(s) {
                        Some(m) => m,
                        None => match try_alloca_spec(s) {
                            Some(m) => m,
                            None => match try_ret_spec(s) {
                                Some(m) => m,
                                None => match try_br_spec(s) {
                                    Some(m) => m,
                                    None => match try_icmp_spec(s) {
                                        Some(m) => m,
                                        None => match try_phi_spec(s) {
                                            Some(m) => m,
                                            None => match try_bitcast_spec(s) {
                                                Some(m) => m,
                                                None => fallback_spec(s),
                                            },
                                        },
                                    },
                                },
                            },
                        },
                    },
                },
            },
        },
    }
}

/// Explaining is total: whatever the raw line holds, the explanation that
/// comes back is never empty — a matched pattern renders a sentence, and an
/// unmatched line still gets the fallback text.
pub proof fn lemma_explain_nonempty(line: Seq<char>)
    ensures
        explain_spec(line).len() > 0,
{
    reveal_strlit("Load the value pointed to by register ");
    reveal_strlit("Store the value ");
    reveal_strlit("Add the values of registers ");
    reveal_strlit("Multiply the values of registers ");
    reveal_strlit("Call function '");
    reveal_strlit("Allocate space on the stack for type ");
    reveal_strlit("Return the value ");
    reveal_strlit("Branch instruction: ");
    reveal_strlit("Integer compare (");
    reveal_strlit("PHI node in register ");
    reveal_strlit("Bitcast value in register ");
    reveal_strlit("No detailed explanation available for this instruction: ");
}

/// Explains one raw source line in readable form.  Total: every input line
/// gets an explanation, matched or not.
pub fn explain_llvm_line(line: &str) -> (r: String)
    ensures
        r@ == explain_spec(line@),
        r@.len() > 0,
{
    proof {
        lemma_explain_nonempty(line@);
    }
    let (s, n) = clean_line(line);
    if let Some(m) = try_load(s, n) {
        return m;
    }
    if let Some(m) = try_store(s, n) {
        return m;
    }
    if let Some(m) = try_arith(s, n, "add", "Add the values of registers ") {
        return m;
    }
    if let Some(m) = try_arith(s, n, "mul", "Multiply the values of registers ") {
        return m;
    }
    if let Some(m) = try_call(s, n) {
        return m;
    }
    if let Some(m) = try_alloca(s, n) {
        return m;
    }
    if let Some(m) = try_ret(s, n) {
        return m;
    }
    if let Some(m) = try_br(s, n) {
        return m;
    }
    if let Some(m) = try_icmp(s, n) {
        return m;
    }
    if let Some(m) = try_phi(s, n) {
        return m;
    }
    if let Some(m) = try_bitcast(s, n) {
        return m;
    }
    String::from_str("No detailed explanation available for this instruction: ").concat(s)
}

} // verus!
