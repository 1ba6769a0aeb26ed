//! The line-span indexer: a forward scan over the raw source lines that
//! attributes to every function definition the inclusive line range it
//! occupies, keyed off two textual markers — a definition line (`define`
//! with a `@name(`) and a closing line whose trimmed content is `}`.

use vstd::prelude::*;
use vstd::string::*;
use crate::scan::{
    skip_spaces_spec, skip_spaces, lit_at_spec, lit_at, find_char_spec, find_char,
    lemma_find_char_bounds,
};

verus! {

/// One function's inclusive line range, both bounds zero-based.
pub struct LineSpan {
    pub name: String,
    pub start: usize,
    pub end: usize,
}

/// The mathematical image of a `LineSpan`.
pub struct SpanModel {
    pub name: Seq<char>,
    pub start: int,
    pub end: int,
}

impl View for LineSpan {
    type V = SpanModel;

    open spec fn view(&self) -> SpanModel {
        SpanModel { name: self.name@, start: self.start as int, end: self.end as int }
    }
}

/// A definition line: after leading blanks it starts with the keyword.
pub open spec fn is_define_spec(line: Seq<char>) -> bool {
    lit_at_spec(line, skip_spaces_spec(line, 0), "define"@)
}

fn is_define(line: &str, n: usize) -> (r: bool)
    requires
        n == line@.len(),
    ensures
        r == is_define_spec(line@),
{
    let i = skip_spaces(line, n, 0);
    lit_at(line, n, i, "define")
}

/// The name on a definition line sits between the first `@` and the first
/// `(` that follows it; if either marker is missing there is no name.
pub open spec fn fname_range_spec(line: Seq<char>) -> Option<(int, int)> {
    let a = find_char_spec(line, 0, '@');
    if a >= line.len() {
        None
    } else {
        let p = find_char_spec(line, a, '(');
        if p >= line.len() {
            None
        } else {
            Some((a + 1, p))
        }
    }
}

/// A start marker: a definition line whose name can be extracted.
pub open spec fn start_marker_spec(line: Seq<char>) -> Option<Seq<char>> {
    if is_define_spec(line) {
        match fname_range_spec(line) {
            Some(r) => Some(line.subrange(r.0, r.1)),
            None => None,
        }
    } else {
        None
    }
}

fn start_marker(line: &str, n: usize) -> (r: Option<String>)
    requires
        n == line@.len(),
    ensures
        match r {
            Some(nm) => start_marker_spec(line@) == Some(nm@),
            None => start_marker_spec(line@) is None,
        },
{
    if !is_define(line, n) {
        return None;
    }
    let a = find_char(line, n, 0, '@');
    if a >= n {
        return None;
    }
    let p = find_char(line, n, a, '(');
    if p >= n {
        return None;
    }
    proof {
        lemma_find_char_bounds(line@, 0, '@');
        lemma_find_char_bounds(line@, a as int, '(');
        assert(line@[a as int] == '@');
    }
    let nm = line.substring_char(a + 1, p);
    Some(String::from_str(nm))
}

/// An end marker: the trimmed content of the line is exactly `}`.
pub open spec fn is_close_spec(line: Seq<char>) -> bool {
    let lo = skip_spaces_spec(line, 0);
    lo < line.len() && line[lo] == '}' && skip_spaces_spec(line, lo + 1) == line.len()
}

fn is_close(line: &str, n: usize) -> (r: bool)
    requires
        n == line@.len(),
    ensures
        r == is_close_spec(line@),
{
    let lo = skip_spaces(line, n, 0);
    if lo < n && line.get_char(lo) == '}' {
        skip_spaces(line, n, lo + 1) == n
    } else {
        false
    }
}

/// The scan from line `i` on, with at most one function currently open
/// (its name and start line): the spans it closes, in closing order.  A
/// function still open when the lines run out closes at the last line.
pub open spec fn scan_spec(
    lines: Seq<Seq<char>>,
    i: int,
    open: Option<(Seq<char>, int)>,
) -> Seq<SpanModel>
    decreases lines.len() - i,
{
    if i < 0 || i >= lines.len() {
        match open {
            Some(o) => seq![SpanModel { name: o.0, start: o.1, end: lines.len() - 1 }],
            None => seq![],
        }
    } else {
        match start_marker_spec(lines[i]) {
            Some(nm) => match open {
                Some(o) => seq![SpanModel { name: o.0, start: o.1, end: i - 1 }] + scan_spec(
                    lines,
                    i + 1,
                    Some((nm, i)),
                ),
                None => scan_spec(lines, i + 1, Some((nm, i))),
            },
            None => if is_close_spec(lines[i]) {
                match open {
                    Some(o) => seq![SpanModel { name: o.0, start: o.1, end: i }] + scan_spec(
                        lines,
                        i + 1,
                        None,
                    ),
                    None => scan_spec(lines, i + 1, None),
                }
            } else {
                scan_spec(lines, i + 1, open)
            },
        }
    }
}

/// The whole span table of a module text.
pub open spec fn spans_spec(lines: Seq<Seq<char>>) -> Seq<SpanModel> {
    scan_spec(lines, 0, None)
}

/// The view of an optional open function.
pub open spec fn open_view(o: Option<(String, usize)>) -> Option<(Seq<char>, int)> {
    match o {
        Some(t) => Some((t.0@, t.1 as int)),
        None => None,
    }
}

/// Finds function start and end lines in the raw IR source lines: the span
/// table, in the order the functions close.  Both line numbers of a span
/// are zero-based indexes into `lines`.
#[verifier::loop_isolation(false)]
pub fn find_function_line_spans(lines: &Vec<String>) -> (r: Vec<LineSpan>)
    ensures
        r@.map_values(|sp: LineSpan| sp@) == spans_spec(lines@.map_values(|l: String| l@)),
{
    let ghost ls = lines@.map_values(|l: String| l@);
    let mut spans: Vec<LineSpan> = Vec::new();
    let mut open: Option<(String, usize)> = None;
    let mut i: usize = 0;
    while i < lines.len()
        invariant
            i <= lines.len(),
            match open {
                Some(t) => t.1 < i,
                None => true,
            },
            spans_spec(ls) == spans@.map_values(|sp: LineSpan| sp@) + scan_spec(
                ls,
                i as int,
                open_view(open),
            ),
        decreases lines.len() - i,
    {
        let ghost pre_spans = spans@.map_values(|sp: LineSpan| sp@);
        let ghost pre_open = open_view(open);
        let line = lines[i].as_str();
        let n = line.unicode_len();
        proof {
            assert(ls[i as int] == lines@[i as int]@);
        }
        match start_marker(line, n) {
            Some(nm) => {
                match open {
                    Some(o) => {
                        let ghost spm = SpanModel {
                            name: o.0@,
                            start: o.1 as int,
                            end: i as int - 1,
                        };
                        let sp = LineSpan { name: o.0, start: o.1, end: i - 1 };
                        spans.push(sp);
                        open = Some((nm, i));
                        proof {
                            assert(scan_spec(ls, i as int, pre_open) == seq![spm] + scan_spec(
                                ls,
                                i as int + 1,
                                open_view(open),
                            ));
                            assert(spans@.map_values(|sp: LineSpan| sp@) =~= pre_spans + seq![spm]);
                            assert(pre_spans + (seq![spm] + scan_spec(
                                ls,
                                i as int + 1,
                                open_view(open),
                            )) =~= (pre_spans + seq![spm]) + scan_spec(
                                ls,
                                i as int + 1,
                                open_view(open),
                            ));
                        }
                    },
                    None => {
                        open = Some((nm, i));
                        proof {
                            assert(scan_spec(ls, i as int, pre_open) == scan_spec(
                                ls,
                                i as int + 1,
                                open_view(open),
                            ));
                        }
                    },
                }
            },
            None => {
                if is_close(line, n) {
                    match open {
                        Some(o) => {
                            let ghost spm = SpanModel {
                                name: o.0@,
                                start: o.1 as int,
                                end: i as int,
                            };
                            let sp = LineSpan { name: o.0, start: o.1, end: i };
                            spans.push(sp);
                            open = None;
                            proof {
                                assert(scan_spec(ls, i as int, pre_open) == seq![spm] + scan_spec(
                                    ls,
                                    i as int + 1,
                                    open_view(open),
                                ));
                                assert(spans@.map_values(|sp: LineSpan| sp@) =~= pre_spans + seq![
                                    spm,
                                ]);
                                assert(pre_spans + (seq![spm] + scan_spec(
                                    ls,
                                    i as int + 1,
                                    open_view(open),
                                )) =~= (pre_spans + seq![spm]) + scan_spec(
                                    ls,
                                    i as int + 1,
                                    open_view(open),
                                ));
                            }
                        },
                        None => {
                            proof {
                                assert(scan_spec(ls, i as int, pre_open) == scan_spec(
                                    ls,
                                    i as int + 1,
                                    open_view(open),
                                ));
                            }
                        },
                    }
                } else {
                    proof {
                        assert(scan_spec(ls, i as int, pre_open) == scan_spec(
                            ls,
                            i as int + 1,
                            open_view(open),
                        ));
                    }
                }
            },
        }
        i = i + 1;
    }
    let ghost pre_spans = spans@.map_values(|sp: LineSpan| sp@);
    let ghost pre_open = open_view(open);
    match open {
        Some(o) => {
            let ghost spm = SpanModel {
                name: o.0@,
                start: o.1 as int,
                end: ls.len() as int - 1,
            };
            let sp = LineSpan { name: o.0, start: o.1, end: lines.len() - 1 };
            spans.push(sp);
            proof {
                assert(scan_spec(ls, ls.len() as int, pre_open) == seq![spm]);
                assert(spans@.map_values(|sp: LineSpan| sp@) =~= pre_spans + seq![spm]);
            }
        },
        None => {
            proof {
                assert(scan_spec(ls, ls.len() as int, pre_open) == Seq::<SpanModel>::empty());
                assert(pre_spans + Seq::<SpanModel>::empty() =~= pre_spans);
            }
        },
    }
    spans
}

/// The lower bound on where spans produced by the scan may start.
pub open spec fn scan_floor(i: int, open: Option<(Seq<char>, int)>) -> int {
    match open {
        Some(o) => o.1,
        None => i,
    }
}

/// Bounds and ordering of the scan's output: every span lies within the
/// file, starts no earlier than the open function (or the current line),
/// and spans follow one another without overlap.
pub proof fn lemma_scan_bounds(lines: Seq<Seq<char>>, i: int, open: Option<(Seq<char>, int)>)
    requires
        0 <= i <= lines.len(),
        match open {
            Some(o) => 0 <= o.1 < i,
            None => true,
        },
    ensures
        ({
            let r = scan_spec(lines, i, open);
            &&& forall|k: int|
                #![trigger r[k]]
                0 <= k < r.len() ==> scan_floor(i, open) <= r[k].start <= r[k].end < lines.len()
            &&& forall|k: int| #![trigger r[k]] 0 <= k < r.len() - 1 ==> r[k].end < r[k + 1].start
        }),
    decreases lines.len() - i,
{
    let r = scan_spec(lines, i, open);
    if i >= lines.len() {
        match open {
            Some(o) => {
                assert(r == seq![SpanModel { name: o.0, start: o.1, end: lines.len() - 1 }]);
                assert(r[0] == SpanModel { name: o.0, start: o.1, end: lines.len() - 1 });
            },
            None => {
                assert(r.len() == 0);
            },
        }
    } else {
        match start_marker_spec(lines[i]) {
            Some(nm) => {
                match open {
                    Some(o) => {
                        let sp = SpanModel { name: o.0, start: o.1, end: i - 1 };
                        let rest = scan_spec(lines, i + 1, Some((nm, i)));
                        lemma_scan_bounds(lines, i + 1, Some((nm, i)));
                        assert(r == seq![sp] + rest);
                        assert(r[0] == sp);
                        assert forall|k: int|
                            #![trigger r[k]]
                            0 <= k < r.len() implies scan_floor(i, open) <= r[k].start <= r[k].end
                            < lines.len() by {
                            if k > 0 {
                                assert(r[k] == rest[k - 1]);
                            }
                        }
                        assert forall|k: int| #![trigger r[k]] 0 <= k < r.len() - 1 implies r[k].end
                            < r[k + 1].start by {
                            if k > 0 {
                                assert(r[k] == rest[k - 1]);
                            }
                            assert(r[k + 1] == rest[k]);
                        }
                    },
                    None => {
                        lemma_scan_bounds(lines, i + 1, Some((nm, i)));
                        assert(r == scan_spec(lines, i + 1, Some((nm, i))));
                    },
                }
            },
            None => {
                if is_close_spec(lines[i]) {
                    match open {
                        Some(o) => {
                            let sp = SpanModel { name: o.0, start: o.1, end: i };
                            let rest = scan_spec(lines, i + 1, None);
                            lemma_scan_bounds(lines, i + 1, None);
                            assert(r == seq![sp] + rest);
                            assert(r[0] == sp);
                            assert forall|k: int|
                                #![trigger r[k]]
                                0 <= k < r.len() implies scan_floor(i, open) <= r[k].start
                                <= r[k].end < lines.len() by {
                                if k > 0 {
                                    assert(r[k] == rest[k - 1]);
                                }
                            }
                            assert forall|k: int|
                                #![trigger r[k]]
                                0 <= k < r.len() - 1 implies r[k].end < r[k + 1].start by {
                                if k > 0 {
                                    assert(r[k] == rest[k - 1]);
                                }
                                assert(r[k + 1] == rest[k]);
                            }
                        },
                        None => {
                            lemma_scan_bounds(lines, i + 1, None);
                            assert(r == scan_spec(lines, i + 1, None));
                        },
                    }
                } else {
                    lemma_scan_bounds(lines, i + 1, open);
                    assert(r == scan_spec(lines, i + 1, open));
                }
            },
        }
    }
}

/// Every line that is a start marker opens a span the scan records: the
/// span table has an entry whose start is that line and whose name is the
/// one extracted there (and the currently open function is recorded too).
pub proof fn lemma_scan_markers(lines: Seq<Seq<char>>, i: int, open: Option<(Seq<char>, int)>)
    requires
        0 <= i <= lines.len(),
        match open {
            Some(o) => 0 <= o.1 < i,
            None => true,
        },
    ensures
        ({
            let r = scan_spec(lines, i, open);
            &&& match open {
                Some(o) => exists|k: int|
                    #![trigger r[k]]
                    0 <= k < r.len() && r[k].start == o.1 && r[k].name == o.0,
                None => true,
            }
            &&& forall|m: int|
                0 <= i <= m < lines.len() && (#[trigger] start_marker_spec(lines[m])) is Some
                    ==> exists|k: int|
                    #![trigger r[k]]
                    0 <= k < r.len() && r[k].start == m && r[k].name == start_marker_spec(
                        lines[m],
                    )->0
        }),
    decreases lines.len() - i,
{
    let r = scan_spec(lines, i, open);
    if i >= lines.len() {
        match open {
            Some(o) => {
                assert(r == seq![SpanModel { name: o.0, start: o.1, end: lines.len() - 1 }]);
                assert(r[0] == SpanModel { name: o.0, start: o.1, end: lines.len() - 1 });
            },
            None => {},
        }
    } else {
        match start_marker_spec(lines[i]) {
            Some(nm) => {
                match open {
                    Some(o) => {
                        let sp = SpanModel { name: o.0, start: o.1, end: i - 1 };
                        let rest = scan_spec(lines, i + 1, Some((nm, i)));
                        lemma_scan_markers(lines, i + 1, Some((nm, i)));
                        assert(r == seq![sp] + rest);
                        assert(r[0] == sp);
                        assert forall|m: int|
                            0 <= i <= m < lines.len() && (#[trigger] start_marker_spec(
                                lines[m],
                            )) is Some implies exists|k: int|
                            #![trigger r[k]]
                            0 <= k < r.len() && r[k].start == m && r[k].name == start_marker_spec(
                                lines[m],
                            )->0 by {
                            if m == i {
                                let k0 = choose|k: int|
                                    #![trigger rest[k]]
                                    0 <= k < rest.len() && rest[k].start == i && rest[k].name
                                        == nm;
                                assert(r[k0 + 1] == rest[k0]);
                            } else {
                                let k0 = choose|k: int|
                                    #![trigger rest[k]]
                                    0 <= k < rest.len() && rest[k].start == m && rest[k].name
                                        == start_marker_spec(lines[m])->0;
                                assert(r[k0 + 1] == rest[k0]);
                            }
                        }
                    },
                    None => {
                        let rest = scan_spec(lines, i + 1, Some((nm, i)));
                        lemma_scan_markers(lines, i + 1, Some((nm, i)));
                        assert(r == rest);
                        assert forall|m: int|
                            0 <= i <= m < lines.len() && (#[trigger] start_marker_spec(
                                lines[m],
                            )) is Some implies exists|k: int|
                            #![trigger r[k]]
                            0 <= k < r.len() && r[k].start == m && r[k].name == start_marker_spec(
                                lines[m],
                            )->0 by {
                            if m == i {
                                let k0 = choose|k: int|
                                    #![trigger rest[k]]
                                    0 <= k < rest.len() && rest[k].start == i && rest[k].name
                                        == nm;
                                assert(r[k0] == rest[k0]);
                            }
                        }
                    },
                }
            },
            None => {
                if is_close_spec(lines[i]) {
                    match open {
                        Some(o) => {
                            let sp = SpanModel { name: o.0, start: o.1, end: i };
                            let rest = scan_spec(lines, i + 1, None);
                            lemma_scan_markers(lines, i + 1, None);
                            assert(r == seq![sp] + rest);
                            assert(r[0] == sp);
                            assert forall|m: int|
                                0 <= i <= m < lines.len() && (#[trigger] start_marker_spec(
                                    lines[m],
                                )) is Some implies exists|k: int|
                                #![trigger r[k]]
                                0 <= k < r.len() && r[k].start == m && r[k].name
                                    == start_marker_spec(lines[m])->0 by {
                                let k0 = choose|k: int|
                                    #![trigger rest[k]]
                                    0 <= k < rest.len() && rest[k].start == m && rest[k].name
                                        == start_marker_spec(lines[m])->0;
                                assert(r[k0 + 1] == rest[k0]);
                            }
                        },
                        None => {
                            lemma_scan_markers(lines, i + 1, None);
                            assert(r == scan_spec(lines, i + 1, None));
                        },
                    }
                } else {
                    lemma_scan_markers(lines, i + 1, open);
                    assert(r == scan_spec(lines, i + 1, open));
                }
            },
        }
    }
}

/// The well-formedness law of the span table: spans lie within the file,
/// are pairwise disjoint and strictly ordered, and every start marker in
/// the text appears as the start of a recorded span whose name is the one
/// extracted from that marker line.
#[verifier::rlimit(60)]
pub proof fn lemma_spans_wf(lines: Seq<Seq<char>>)
    ensures
        ({
            let r = spans_spec(lines);
            &&& forall|k: int|
                #![trigger r[k]]
                0 <= k < r.len() ==> 0 <= r[k].start <= r[k].end < lines.len()
            &&& forall|k: int| #![trigger r[k]] 0 <= k < r.len() - 1 ==> r[k].end < r[k + 1].start
            &&& forall|m: int|
                0 <= m < lines.len() && (#[trigger] start_marker_spec(lines[m])) is Some
                    ==> exists|k: int|
                    #![trigger r[k]]
                    0 <= k < r.len() && r[k].start == m && r[k].name == start_marker_spec(
                        lines[m],
                    )->0
        }),
{
    lemma_scan_bounds(lines, 0, None);
    lemma_scan_markers(lines, 0, None);
    let r = spans_spec(lines);
    let r0 = scan_spec(lines, 0, None);
    assert(r == r0);
    assert(scan_floor(0, None) == 0);
    assert forall|k: int| #![trigger r[k]] 0 <= k < r.len() implies 0 <= r[k].start <= r[k].end
        < lines.len() by {
        assert(r[k] == r0[k]);
    }
    assert forall|k: int| #![trigger r[k]] 0 <= k < r.len() - 1 implies r[k].end < r[k
        + 1].start by {
        assert(r[k] == r0[k]);
        assert(r[k + 1] == r0[k + 1]);
    }
    assert forall|m: int|
        0 <= m < lines.len() && (#[trigger] start_marker_spec(lines[m])) is Some implies exists|
            k: int,
        |
            #![trigger r[k]]
            0 <= k < r.len() && r[k].start == m && r[k].name == start_marker_spec(lines[m])->0 by {
        let k0 = choose|k: int|
            #![trigger r0[k]]
            0 <= k < r0.len() && r0[k].start == m && r0[k].name == start_marker_spec(lines[m])->0;
        assert(r[k0] == r0[k0]);
    }
}

/// The span recorded for `name`: the last entry carrying that name, so a
/// repeated name keeps only its latest closing.
pub open spec fn lookup_spec(spans: Seq<SpanModel>, name: Seq<char>) -> Option<(int, int)>
    decreases spans.len(),
{
    if spans.len() == 0 {
        None
    } else if spans.last().name == name {
        Some((spans.last().start, spans.last().end))
    } else {
        lookup_spec(spans.drop_last(), name)
    }
}

/// A successful lookup hands back the bounds of one recorded span.
pub proof fn lemma_lookup_in(spans: Seq<SpanModel>, nm: Seq<char>)
    ensures
        match lookup_spec(spans, nm) {
            Some(t) => exists|k: int|
                #![trigger spans[k]]
                0 <= k < spans.len() && spans[k].start == t.0 && spans[k].end == t.1,
            None => true,
        },
    decreases spans.len(),
{
    if spans.len() > 0 {
        if spans.last().name == nm {
            assert(spans[spans.len() - 1] == spans.last());
        } else {
            lemma_lookup_in(spans.drop_last(), nm);
            match lookup_spec(spans.drop_last(), nm) {
                Some(t) => {
                    let k0 = choose|k: int|
                        #![trigger spans.drop_last()[k]]
                        0 <= k < spans.drop_last().len() && spans.drop_last()[k].start == t.0
                            && spans.drop_last()[k].end == t.1;
                    assert(spans[k0] == spans.drop_last()[k0]);
                },
                None => {},
            }
        }
    }
}

/// Looks a function's span up in the table.
#[verifier::loop_isolation(false)]
pub fn lookup_span(spans: &Vec<LineSpan>, name: &str) -> (r: Option<(usize, usize)>)
    ensures
        match r {
            Some(t) => lookup_spec(spans@.map_values(|sp: LineSpan| sp@), name@) == Some(
                (t.0 as int, t.1 as int),
            ),
            None => lookup_spec(spans@.map_values(|sp: LineSpan| sp@), name@) is None,
        },
{
    let ghost sm = spans@.map_values(|sp: LineSpan| sp@);
    proof {
        assert(sm.take(spans@.len() as int) =~= sm);
    }
    let mut k = spans.len();
    while k > 0
        invariant
            k <= spans.len(),
            lookup_spec(sm, name@) == lookup_spec(sm.take(k as int), name@),
        decreases k,
    {
        proof {
            assert(sm.take(k as int).last() == sm[k - 1]);
            assert(sm.take(k as int).drop_last() =~= sm.take(k as int - 1));
        }
        if crate::scan::str_eq(spans[k - 1].name.as_str(), name) {
            return Some((spans[k - 1].start, spans[k - 1].end));
        }
        k = k - 1;
    }
    proof {
        assert(sm.take(0) =~= Seq::<SpanModel>::empty());
    }
    None
}

} // verus!
