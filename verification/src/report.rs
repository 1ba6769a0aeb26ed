//! The report assembler: renders the aggregate as text lines — per
//! function its opcode counts in lexicographic order and their total —
//! and, when a function filter is given, that function's source lines
//! with line numbers, one explained line on request, and the explicit
//! notices for a missing function or an out-of-range line number.

use vstd::prelude::*;
use vstd::string::*;
use crate::explain::{explain_spec, explain_llvm_line};
use crate::ir::{FuncCount, FuncCountModel, CountEntry, sum_counts};
use crate::scan::str_eq;
use crate::spans::{LineSpan, SpanModel, lookup_spec, lookup_span};

verus! {

// ---------------------------------------------------------------------------
// Decimal rendering and padding.
// ---------------------------------------------------------------------------

/// The digit character for one decimal digit.
pub open spec fn digit_char(d: int) -> char {
    if d == 0 {
        '0'
    } else if d == 1 {
        '1'
    } else if d == 2 {
        '2'
    } else if d == 3 {
        '3'
    } else if d == 4 {
        '4'
    } else if d == 5 {
        '5'
    } else if d == 6 {
        '6'
    } else if d == 7 {
        '7'
    } else if d == 8 {
        '8'
    } else {
        '9'
    }
}

/// The decimal rendering of a number, most significant digit first.
pub open spec fn dec_str(n: nat) -> Seq<char>
    decreases n,
{
    if n < 10 {
        seq![digit_char(n as int)]
    } else {
        dec_str(n / 10) + seq![digit_char((n % 10) as int)]
    }
}

fn digit_str(d: usize) -> (r: &'static str)
    requires
        d < 10,
    ensures
        r@ == seq![digit_char(d as int)],
{
    proof {
        reveal_strlit("0");
        reveal_strlit("1");
        reveal_strlit("2");
        reveal_strlit("3");
        reveal_strlit("4");
        reveal_strlit("5");
        reveal_strlit("6");
        reveal_strlit("7");
        reveal_strlit("8");
        reveal_strlit("9");
    }
    let r = if d == 0 {
        "0"
    } else if d == 1 {
        "1"
    } else if d == 2 {
        "2"
    } else if d == 3 {
        "3"
    } else if d == 4 {
        "4"
    } else if d == 5 {
        "5"
    } else if d == 6 {
        "6"
    } else if d == 7 {
        "7"
    } else if d == 8 {
        "8"
    } else {
        "9"
    };
    proof {
        assert(r@ =~= seq![digit_char(d as int)]);
    }
    r
}

/// Renders a number in decimal.
pub fn usize_to_string(v: usize) -> (r: String)
    ensures
        r@ == dec_str(v as nat),
    decreases v,
{
    if v < 10 {
        String::from_str(digit_str(v))
    } else {
        usize_to_string(v / 10).concat(digit_str(v % 10))
    }
}

/// `k` blanks (none when `k` is not positive).
pub open spec fn spaces(k: int) -> Seq<char>
    decreases k,
{
    if k <= 0 {
        seq![]
    } else {
        spaces(k - 1) + seq![' ']
    }
}

/// A run of `k` blanks.
#[verifier::loop_isolation(false)]
fn make_spaces(k: usize) -> (r: String)
    ensures
        r@ == spaces(k as int),
{
    let mut out = String::new();
    let mut j: usize = 0;
    while j < k
        invariant
            j <= k,
            out@ == spaces(j as int),
        decreases k - j,
    {
        proof {
            reveal_strlit(" ");
        }
        out.append(" ");
        j = j + 1;
    }
    out
}

/// Text padded on the left with blanks up to `w` characters.
pub open spec fn pad_left_spec(s: Seq<char>, w: int) -> Seq<char> {
    spaces(w - s.len()) + s
}

/// Text padded on the right with blanks up to `w` characters.
pub open spec fn pad_right_spec(s: Seq<char>, w: int) -> Seq<char> {
    s + spaces(w - s.len())
}

fn pad_left(s: &str, w: usize) -> (r: String)
    ensures
        r@ == pad_left_spec(s@, w as int),
{
    let n = s.unicode_len();
    let pad = if n >= w {
        0
    } else {
        w - n
    };
    make_spaces(pad).concat(s)
}

fn pad_right(s: &str, w: usize) -> (r: String)
    ensures
        r@ == pad_right_spec(s@, w as int),
{
    let n = s.unicode_len();
    let pad = if n >= w {
        0
    } else {
        w - n
    };
    String::from_str(s).concat(make_spaces(pad).as_str())
}

// ---------------------------------------------------------------------------
// Ordering the opcode counters.
// ---------------------------------------------------------------------------

/// Lexicographic order on character sequences.
pub open spec fn lex_le(a: Seq<char>, b: Seq<char>) -> bool
    decreases a.len(),
{
    if a.len() == 0 {
        true
    } else if b.len() == 0 {
        false
    } else if (a[0] as u32) < (b[0] as u32) {
        true
    } else if (a[0] as u32) > (b[0] as u32) {
        false
    } else {
        lex_le(a.drop_first(), b.drop_first())
    }
}

#[verifier::loop_isolation(false)]
fn lex_le_exec(a: &str, b: &str) -> (r: bool)
    ensures
        r == lex_le(a@, b@),
{
    let na = a.unicode_len();
    let nb = b.unicode_len();
    proof {
        assert(a@.skip(0) =~= a@);
        assert(b@.skip(0) =~= b@);
    }
    let mut i: usize = 0;
    loop
        invariant
            i <= na,
            i <= nb,
            lex_le(a@, b@) == lex_le(a@.skip(i as int), b@.skip(i as int)),
        decreases na - i,
    {
        proof {
            if i < na {
                assert(a@.skip(i as int).drop_first() =~= a@.skip(i as int + 1));
            }
            if i < nb {
                assert(b@.skip(i as int).drop_first() =~= b@.skip(i as int + 1));
            }
        }
        if i >= na {
            return true;
        }
        if i >= nb {
            return false;
        }
        let ca = a.get_char(i);
        let cb = b.get_char(i);
        if (ca as u32) < (cb as u32) {
            return true;
        }
        if (ca as u32) > (cb as u32) {
            return false;
        }
        i = i + 1;
    }
}

/// Inserts a counter into an already ordered run, keeping the order.
pub open spec fn insert_ord(
    s: Seq<(Seq<char>, nat)>,
    e: (Seq<char>, nat),
) -> Seq<(Seq<char>, nat)>
    decreases s.len(),
{
    if s.len() == 0 {
        seq![e]
    } else if lex_le(s.last().0, e.0) {
        s.push(e)
    } else {
        insert_ord(s.drop_last(), e).push(s.last())
    }
}

/// The counters ordered by opcode name, ascending: insertion sort.
pub open spec fn sort_spec(s: Seq<(Seq<char>, nat)>) -> Seq<(Seq<char>, nat)>
    decreases s.len(),
{
    if s.len() == 0 {
        seq![]
    } else {
        insert_ord(sort_spec(s.drop_last()), s.last())
    }
}

/// The counters stand in ascending opcode order.
pub open spec fn keys_sorted(s: Seq<(Seq<char>, nat)>) -> bool {
    forall|i: int, j: int|
        #![trigger s[i], s[j]]
        0 <= i < j < s.len() ==> lex_le(s[i].0, s[j].0)
}

proof fn lemma_lex_le_total(a: Seq<char>, b: Seq<char>)
    ensures
        lex_le(a, b) || lex_le(b, a),
    decreases a.len(),
{
    if a.len() > 0 && b.len() > 0 && (a[0] as u32) == (b[0] as u32) {
        lemma_lex_le_total(a.drop_first(), b.drop_first());
    }
}

proof fn lemma_lex_le_trans(a: Seq<char>, b: Seq<char>, c: Seq<char>)
    requires
        lex_le(a, b),
        lex_le(b, c),
    ensures
        lex_le(a, c),
    decreases a.len(),
{
    if a.len() > 0 {
        if (a[0] as u32) == (b[0] as u32) && (b[0] as u32) == (c[0] as u32) {
            lemma_lex_le_trans(a.drop_first(), b.drop_first(), c.drop_first());
        }
    }
}

proof fn lemma_insert_ord_sorted(s: Seq<(Seq<char>, nat)>, e: (Seq<char>, nat))
    requires
        keys_sorted(s),
    ensures
        keys_sorted(insert_ord(s, e)),
        insert_ord(s, e).len() == s.len() + 1,
        forall|i: int|
            #![trigger insert_ord(s, e)[i]]
            0 <= i < insert_ord(s, e).len() ==> (insert_ord(s, e)[i] == e || exists|j: int|
                #![trigger s[j]]
                0 <= j < s.len() && insert_ord(s, e)[i] == s[j]),
    decreases s.len(),
{
    let r = insert_ord(s, e);
    if s.len() == 0 {
        assert(r[0] == e);
    } else if lex_le(s.last().0, e.0) {
        assert(r == s.push(e));
        assert forall|i: int, j: int|
            #![trigger r[i], r[j]]
            0 <= i < j < r.len() implies lex_le(r[i].0, r[j].0) by {
            if j < s.len() {
                assert(r[i] == s[i] && r[j] == s[j]);
            } else {
                assert(r[j] == e);
                assert(r[i] == s[i]);
                if i < s.len() - 1 {
                    assert(lex_le(s[i].0, s[s.len() - 1].0));
                    lemma_lex_le_trans(s[i].0, s.last().0, e.0);
                } else {
                    assert(s[i] == s.last());
                }
            }
        }
        assert forall|i: int|
            #![trigger r[i]]
            0 <= i < r.len() implies (r[i] == e || exists|j: int|
            #![trigger s[j]]
            0 <= j < s.len() && r[i] == s[j]) by {
            if i < s.len() {
                assert(r[i] == s[i]);
            }
        }
    } else {
        let dl = s.drop_last();
        assert forall|i: int, j: int|
            #![trigger dl[i], dl[j]]
            0 <= i < j < dl.len() implies lex_le(dl[i].0, dl[j].0) by {
            assert(dl[i] == s[i] && dl[j] == s[j]);
        }
        lemma_insert_ord_sorted(dl, e);
        let t = insert_ord(dl, e);
        assert(r == t.push(s.last()));
        lemma_lex_le_total(s.last().0, e.0);
        assert forall|i: int|
            #![trigger t[i]]
            0 <= i < t.len() implies lex_le(t[i].0, s.last().0) by {
            if t[i] == e {
            } else {
                let j = choose|j: int| #![trigger dl[j]] 0 <= j < dl.len() && t[i] == dl[j];
                assert(dl[j] == s[j]);
                assert(s.last() == s[s.len() - 1]);
                assert(lex_le(s[j].0, s[s.len() - 1].0));
            }
        }
        assert forall|i: int, j: int|
            #![trigger r[i], r[j]]
            0 <= i < j < r.len() implies lex_le(r[i].0, r[j].0) by {
            if j < t.len() {
                assert(r[i] == t[i] && r[j] == t[j]);
            } else {
                assert(r[j] == s.last());
                assert(r[i] == t[i]);
            }
        }
        assert forall|i: int|
            #![trigger r[i]]
            0 <= i < r.len() implies (r[i] == e || exists|j: int|
            #![trigger s[j]]
            0 <= j < s.len() && r[i] == s[j]) by {
            if i < t.len() {
                assert(r[i] == t[i]);
                if t[i] != e {
                    let j = choose|j: int| #![trigger dl[j]] 0 <= j < dl.len() && t[i] == dl[j];
                    assert(dl[j] == s[j]);
                }
            } else {
                assert(r[i] == s[s.len() - 1]);
            }
        }
    }
}

/// Ordering the counters keeps them all and leaves them in ascending
/// opcode order.
pub proof fn lemma_sort_ordered(s: Seq<(Seq<char>, nat)>)
    ensures
        keys_sorted(sort_spec(s)),
        sort_spec(s).len() == s.len(),
    decreases s.len(),
{
    if s.len() > 0 {
        lemma_sort_ordered(s.drop_last());
        lemma_insert_ord_sorted(sort_spec(s.drop_last()), s.last());
    }
}

proof fn lemma_insert_ord_sum(s: Seq<(Seq<char>, nat)>, e: (Seq<char>, nat))
    ensures
        sum_counts(insert_ord(s, e)) == sum_counts(s) + e.1,
    decreases s.len(),
{
    if s.len() == 0 {
        assert(seq![e].drop_last() =~= Seq::<(Seq<char>, nat)>::empty());
        assert(seq![e].last() == e);
        assert(sum_counts(Seq::<(Seq<char>, nat)>::empty()) == 0);
        assert(seq![e].len() == 1);
        assert(sum_counts(seq![e]) == e.1);
    } else if lex_le(s.last().0, e.0) {
        assert(s.push(e).drop_last() =~= s);
        assert(s.push(e).last() == e);
    } else {
        lemma_insert_ord_sum(s.drop_last(), e);
        let t = insert_ord(s.drop_last(), e);
        assert(t.push(s.last()).drop_last() =~= t);
        assert(t.push(s.last()).last() == s.last());
    }
}

/// Ordering the counters does not change their total.
pub proof fn lemma_sort_sum(s: Seq<(Seq<char>, nat)>)
    ensures
        sum_counts(sort_spec(s)) == sum_counts(s),
    decreases s.len(),
{
    if s.len() > 0 {
        lemma_sort_sum(s.drop_last());
        lemma_insert_ord_sum(sort_spec(s.drop_last()), s.last());
    }
}

fn insert_entry(out: &mut Vec<CountEntry>, e: CountEntry) -> (nothing: ())
    ensures
        final(out)@.map_values(|x: CountEntry| x@) == insert_ord(
            old(out)@.map_values(|x: CountEntry| x@),
            e@,
        ),
    decreases old(out)@.len(),
{
    let ghost h = out@.map_values(|x: CountEntry| x@);
    if out.len() == 0 {
        let ghost ev = e@;
        out.push(e);
        proof {
            assert(out@.map_values(|x: CountEntry| x@) =~= seq![ev]);
        }
    } else if lex_le_exec(out[out.len() - 1].opcode.as_str(), e.opcode.as_str()) {
        let ghost ev = e@;
        proof {
            assert(h.last() == out@[out@.len() - 1]@);
        }
        out.push(e);
        proof {
            assert(out@.map_values(|x: CountEntry| x@) =~= h.push(ev));
        }
    } else {
        proof {
            assert(h.last() == out@[out@.len() - 1]@);
        }
        let last = match out.pop() {
            Some(x) => x,
            None => {
                proof {
                    assert(false);
                }
                return ;
            },
        };
        let ghost lastv = last@;
        proof {
            assert(out@.map_values(|x: CountEntry| x@) =~= h.drop_last());
        }
        insert_entry(out, e);
        let ghost mid = out@.map_values(|x: CountEntry| x@);
        out.push(last);
        proof {
            assert(out@.map_values(|x: CountEntry| x@) =~= mid.push(lastv));
        }
    }
}

/// Copies the counters and orders them by opcode name.
#[verifier::loop_isolation(false)]
fn sort_counts(v: &Vec<CountEntry>) -> (r: Vec<CountEntry>)
    ensures
        r@.map_values(|x: CountEntry| x@) == sort_spec(v@.map_values(|x: CountEntry| x@)),
{
    let ghost h = v@.map_values(|x: CountEntry| x@);
    let mut out: Vec<CountEntry> = Vec::new();
    proof {
        assert(h.take(0) =~= Seq::<(Seq<char>, nat)>::empty());
        assert(out@.map_values(|x: CountEntry| x@) =~= Seq::<(Seq<char>, nat)>::empty());
    }
    let mut i: usize = 0;
    while i < v.len()
        invariant
            i <= v@.len(),
            out@.map_values(|x: CountEntry| x@) == sort_spec(h.take(i as int)),
        decreases v@.len() - i,
    {
        let e = CountEntry { opcode: v[i].opcode.clone(), count: v[i].count };
        proof {
            assert(e@ == h[i as int]);
            assert(h.take(i as int + 1).drop_last() =~= h.take(i as int));
            assert(h.take(i as int + 1).last() == h[i as int]);
        }
        insert_entry(&mut out, e);
        i = i + 1;
    }
    proof {
        assert(h.take(v@.len() as int) =~= h);
    }
    out
}

// ---------------------------------------------------------------------------
// The rendered report, line by line.
// ---------------------------------------------------------------------------

/// One counter line: two blanks, the opcode padded to 15 characters, a
/// blank, the count.
pub open spec fn count_line(e: (Seq<char>, nat)) -> Seq<char> {
    "  "@ + pad_right_spec(e.0, 15) + " "@ + dec_str(e.1)
}

/// The counter lines of an ordered run.
pub open spec fn count_lines(h: Seq<(Seq<char>, nat)>) -> Seq<Seq<char>> {
    h.map_values(|e: (Seq<char>, nat)| count_line(e))
}

/// The lines one aggregate entry renders to: a header, the counters in
/// lexicographic opcode order, their total, and a separating blank line.
pub open spec fn entry_lines(e: FuncCountModel) -> Seq<Seq<char>> {
    let sorted = sort_spec(e.counts);
    seq!["Function: "@ + e.name] + count_lines(sorted) + seq![
        "  Total: "@ + dec_str(sum_counts(sorted)),
        Seq::<char>::empty(),
    ]
}

/// The counts section: every entry's lines, in table order.
pub open spec fn counts_section(t: Seq<FuncCountModel>) -> Seq<Seq<char>>
    decreases t.len(),
{
    if t.len() == 0 {
        seq![]
    } else {
        counts_section(t.drop_last()) + entry_lines(t.last())
    }
}

/// Does the aggregate hold an entry for this name?
pub open spec fn table_has(t: Seq<FuncCountModel>, nm: Seq<char>) -> bool {
    exists|k: int| 0 <= k < t.len() && (#[trigger] t[k]).name == nm
}

/// The numbered source lines of the inclusive range `[s0, e0]`, each with
/// its one-based line number padded to 4 characters.
pub open spec fn line_block(lines: Seq<Seq<char>>, s0: int, e0: int) -> Seq<Seq<char>>
    decreases e0 - s0 + 1,
{
    if e0 < s0 {
        seq![]
    } else {
        line_block(lines, s0, e0 - 1) + seq![
            pad_left_spec(dec_str((e0 + 1) as nat), 4) + " | "@ + lines[e0],
        ]
    }
}

/// What the whole report reads: the counts section; then, when a function
/// filter was given, a missing-from-module notice if the aggregate has no
/// entry for it, and either that function's numbered source lines (with
/// one explained line, or an out-of-range notice, if a line number was
/// requested) or the missing-from-source notice when the span table does
/// not know the name.
pub open spec fn report_spec(
    t: Seq<FuncCountModel>,
    spans: Seq<SpanModel>,
    lines: Seq<Seq<char>>,
    filter: Option<Seq<char>>,
    explain_line: Option<usize>,
) -> Seq<Seq<char>> {
    let base = counts_section(t);
    match filter {
        None => base,
        Some(nm) => {
            let base2 = if table_has(t, nm) {
                base
            } else {
                base + seq!["Function '"@ + nm + "' not found in module."@]
            };
            match lookup_spec(spans, nm) {
                None => base2 + seq!["Function '"@ + nm + "' not found in source file."@],
                Some(se) => {
                    let hdr = "Lines for function '"@ + nm + "' (lines "@ + dec_str(
                        (se.0 + 1) as nat,
                    ) + " to "@ + dec_str((se.1 + 1) as nat) + "):"@;
                    let body = line_block(lines, se.0, se.1);
                    let expl: Seq<Seq<char>> = match explain_line {
                        None => seq![],
                        Some(el) => if se.0 + 1 <= el <= se.1 + 1 {
                            seq![explain_spec(lines[el - 1])]
                        } else {
                            seq![
                                Seq::<char>::empty(),
                                "Line number "@ + dec_str(el as nat)
                                    + " is out of range for function '"@ + nm + "'."@,
                            ]
                        },
                    };
                    base2 + seq![hdr] + body + expl
                },
            }
        },
    }
}

proof fn lemma_sum_take_le(h: Seq<(Seq<char>, nat)>, k: int)
    requires
        0 <= k <= h.len(),
    ensures
        sum_counts(h.take(k)) <= sum_counts(h),
    decreases h.len(),
{
    if k == h.len() {
        assert(h.take(k) =~= h);
    } else {
        assert(h.take(k) =~= h.drop_last().take(k));
        lemma_sum_take_le(h.drop_last(), k);
    }
}

/// Renders one aggregate entry onto the output lines.
#[verifier::loop_isolation(false)]
fn push_entry_lines(out: &mut Vec<String>, f: &FuncCount)
    requires
        sum_counts(f@.counts) <= usize::MAX,
    ensures
        final(out)@.map_values(|l: String| l@) == old(out)@.map_values(|l: String| l@)
            + entry_lines(f@),
{
    let ghost pre = out@.map_values(|l: String| l@);
    let sorted = sort_counts(&f.counts);
    let ghost sm = sort_spec(f@.counts);
    proof {
        lemma_sort_sum(f@.counts);
    }
    let hdr = String::from_str("Function: ").concat(f.name.as_str());
    out.push(hdr);
    proof {
        assert(out@.map_values(|l: String| l@) =~= pre + seq!["Function: "@ + f@.name]);
        assert(sm.take(0) =~= Seq::<(Seq<char>, nat)>::empty());
        assert(count_lines(sm.take(0)) =~= Seq::<Seq<char>>::empty());
        assert(pre + seq!["Function: "@ + f@.name] + count_lines(sm.take(0)) =~= pre + seq![
            "Function: "@ + f@.name,
        ]);
    }
    let mut total: usize = 0;
    let mut j: usize = 0;
    while j < sorted.len()
        invariant
            j <= sorted@.len(),
            total == sum_counts(sm.take(j as int)),
            out@.map_values(|l: String| l@) == pre + seq!["Function: "@ + f@.name] + count_lines(
                sm.take(j as int),
            ),
        decreases sorted@.len() - j,
    {
        let ghost mid = out@.map_values(|l: String| l@);
        let e = &sorted[j];
        proof {
            assert(e@ == sm[j as int]);
            assert(sm.take(j as int + 1).drop_last() =~= sm.take(j as int));
            assert(sm.take(j as int + 1).last() == sm[j as int]);
            lemma_sum_take_le(sm, j as int + 1);
        }
        let line = String::from_str("  ").concat(pad_right(e.opcode.as_str(), 15).as_str()).concat(
            " ",
        ).concat(usize_to_string(e.count).as_str());
        total = total + e.count;
        out.push(line);
        proof {
            assert(out@.map_values(|l: String| l@) =~= mid + seq![count_line(sm[j as int])]);
            assert(count_lines(sm.take(j as int + 1)) =~= count_lines(sm.take(j as int)).push(
                count_line(sm[j as int]),
            ));
            assert(mid + seq![count_line(sm[j as int])] =~= pre + seq!["Function: "@ + f@.name]
                + count_lines(sm.take(j as int + 1)));
        }
        j = j + 1;
    }
    proof {
        assert(sm.take(sorted@.len() as int) =~= sm);
    }
    let ghost mid = out@.map_values(|l: String| l@);
    let tline = String::from_str("  Total: ").concat(usize_to_string(total).as_str());
    out.push(tline);
    out.push(String::new());
    proof {
        assert(out@.map_values(|l: String| l@) =~= mid + seq![
            "  Total: "@ + dec_str(sum_counts(sm)),
            Seq::<char>::empty(),
        ]);
        assert(out@.map_values(|l: String| l@) =~= pre + entry_lines(f@));
    }
}

#[verifier::loop_isolation(false)]
fn table_has_exec(table: &Vec<FuncCount>, nm: &str) -> (r: bool)
    ensures
        r == table_has(table@.map_values(|f: FuncCount| f@), nm@),
{
    let ghost tv = table@.map_values(|f: FuncCount| f@);
    let mut i: usize = 0;
    while i < table.len()
        invariant
            i <= table@.len(),
            forall|k: int| 0 <= k < i ==> (#[trigger] tv[k]).name != nm@,
        decreases table@.len() - i,
    {
        if str_eq(table[i].name.as_str(), nm) {
            proof {
                assert(tv[i as int].name == nm@);
            }
            return true;
        }
        i = i + 1;
    }
    false
}

/// Assembles the whole report: the per-function opcode counts (opcodes in
/// lexicographic order, each function closed by its total), and — when a
/// function filter is given — that function's numbered source lines, an
/// explained line on request (or the out-of-range notice), or the
/// missing-function notices.
#[verifier::loop_isolation(false)]
pub fn assemble_report(
    table: &Vec<FuncCount>,
    spans: &Vec<LineSpan>,
    lines: &Vec<String>,
    function_filter: Option<&str>,
    explain_line: Option<usize>,
) -> (r: Vec<String>)
    requires
        forall|k: int|
            0 <= k < table@.len() ==> sum_counts((#[trigger] table@[k])@.counts) <= usize::MAX,
        forall|k: int|
            0 <= k < spans@.len() ==> 0 <= (#[trigger] spans@[k])@.start <= spans@[k]@.end
                < lines@.len(),
    ensures
        r@.map_values(|l: String| l@) == report_spec(
            table@.map_values(|f: FuncCount| f@),
            spans@.map_values(|s: LineSpan| s@),
            lines@.map_values(|l: String| l@),
            crate::ir::filter_view(function_filter),
            explain_line,
        ),
{
    let ghost tv = table@.map_values(|f: FuncCount| f@);
    let ghost sv = spans@.map_values(|s: LineSpan| s@);
    let ghost lv = lines@.map_values(|l: String| l@);
    let mut out: Vec<String> = Vec::new();
    proof {
        assert(tv.take(0) =~= Seq::<FuncCountModel>::empty());
        assert(out@.map_values(|l: String| l@) =~= counts_section(tv.take(0)));
    }
    let mut i: usize = 0;
    while i < table.len()
        invariant
            i <= table@.len(),
            out@.map_values(|l: String| l@) == counts_section(tv.take(i as int)),
        decreases table@.len() - i,
    {
        proof {
            assert(tv.take(i as int + 1).drop_last() =~= tv.take(i as int));
            assert(tv.take(i as int + 1).last() == tv[i as int]);
        }
        push_entry_lines(&mut out, &table[i]);
        i = i + 1;
    }
    proof {
        assert(tv.take(table@.len() as int) =~= tv);
    }
    let nm = match function_filter {
        Some(nm) => nm,
        None => {
            return out;
        },
    };
    if !table_has_exec(table, nm) {
        let ghost mid = out@.map_values(|l: String| l@);
        out.push(
            String::from_str("Function '").concat(nm).concat("' not found in module."),
        );
        proof {
            assert(out@.map_values(|l: String| l@) =~= mid + seq![
                "Function '"@ + nm@ + "' not found in module."@,
            ]);
        }
    }
    let ghost base2 = out@.map_values(|l: String| l@);
    let (s0, e0) = match lookup_span(spans, nm) {
        Some(t) => t,
        None => {
            out.push(
                String::from_str("Function '").concat(nm).concat("' not found in source file."),
            );
            proof {
                assert(out@.map_values(|l: String| l@) =~= base2 + seq![
                    "Function '"@ + nm@ + "' not found in source file."@,
                ]);
            }
            return out;
        },
    };
    proof {
        crate::spans::lemma_lookup_in(sv, nm@);
        let k0 = choose|k: int|
            #![trigger sv[k]]
            0 <= k < sv.len() && sv[k].start == s0 as int && sv[k].end == e0 as int;
        assert(sv[k0] == spans@[k0]@);
        assert(0 <= s0 <= e0 < lv.len());
    }
    let nlines = lines.len();
    assert(e0 < nlines);
    let hdr = String::from_str("Lines for function '").concat(nm).concat("' (lines ").concat(
        usize_to_string(s0 + 1).as_str(),
    ).concat(" to ").concat(usize_to_string(e0 + 1).as_str()).concat("):");
    out.push(hdr);
    proof {
        assert(line_block(lv, s0 as int, s0 as int - 1) =~= Seq::<Seq<char>>::empty());
        assert(out@.map_values(|l: String| l@) =~= base2 + seq![
            "Lines for function '"@ + nm@ + "' (lines "@ + dec_str((s0 + 1) as nat) + " to "@
                + dec_str((e0 + 1) as nat) + "):"@,
        ] + line_block(lv, s0 as int, s0 as int - 1));
    }
    let ghost hdrv = "Lines for function '"@ + nm@ + "' (lines "@ + dec_str((s0 + 1) as nat)
        + " to "@ + dec_str((e0 + 1) as nat) + "):"@;
    let mut li: usize = s0;
    while li <= e0
        invariant
            s0 <= li <= e0 + 1,
            e0 < lv.len(),
            out@.map_values(|l: String| l@) == base2 + seq![hdrv] + line_block(
                lv,
                s0 as int,
                li as int - 1,
            ),
        decreases e0 + 1 - li,
    {
        let ghost mid = out@.map_values(|l: String| l@);
        let numbered = pad_left(usize_to_string(li + 1).as_str(), 4).concat(" | ").concat(
            lines[li].as_str(),
        );
        out.push(numbered);
        proof {
            assert(lv[li as int] == lines@[li as int]@);
            assert(out@.map_values(|l: String| l@) =~= mid + seq![
                pad_left_spec(dec_str((li + 1) as nat), 4) + " | "@ + lv[li as int],
            ]);
            assert(out@.map_values(|l: String| l@) =~= base2 + seq![hdrv] + line_block(
                lv,
                s0 as int,
                li as int,
            ));
        }
        li = li + 1;
    }
    let ghost withbody = out@.map_values(|l: String| l@);
    let el = match explain_line {
        Some(el) => el,
        None => {
            proof {
                assert(withbody + Seq::<Seq<char>>::empty() =~= withbody);
            }
            return out;
        },
    };
    if s0 + 1 <= el && el <= e0 + 1 {
        let ex = explain_llvm_line(lines[el - 1].as_str());
        out.push(ex);
        proof {
            assert(lv[el as int - 1] == lines@[el as int - 1]@);
            assert(out@.map_values(|l: String| l@) =~= withbody + seq![
                explain_spec(lv[el as int - 1]),
            ]);
        }
    } else {
        out.push(String::new());
        out.push(
            String::from_str("Line number ").concat(usize_to_string(el).as_str()).concat(
                " is out of range for function '",
            ).concat(nm).concat("'."),
        );
        proof {
            assert(out@.map_values(|l: String| l@) =~= withbody + seq![
                Seq::<char>::empty(),
                "Line number "@ + dec_str(el as nat) + " is out of range for function '"@ + nm@
                    + "'."@,
            ]);
        }
    }
    out
}

} // verus!
