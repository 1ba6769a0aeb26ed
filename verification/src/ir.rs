//! The structured module model and the opcode aggregator: functions hold
//! basic blocks, blocks hold instructions, and every instruction carries
//! its textual rendering, whose leading token classifies its opcode.  The
//! aggregator walks a module (optionally restricted to one function name)
//! and tallies instructions per function by opcode.

use vstd::prelude::*;
use vstd::string::*;
use crate::scan::{skip_spaces_spec, skip_spaces, token_end_spec, token_end, str_eq};

verus! {

/// One instruction, carried as its textual rendering.
pub struct Instruction {
    pub text: String,
}

/// A straight-line run of instructions.
pub struct BasicBlock {
    pub instrs: Vec<Instruction>,
}

/// A function: its name and its basic blocks in order.
pub struct Function {
    pub name: String,
    pub basic_blocks: Vec<BasicBlock>,
}

/// A whole module: its functions in order.
pub struct Module {
    pub functions: Vec<Function>,
}

/// The opcode name of an instruction rendering: its first blank-delimited
/// token, or `Unknown` when the rendering holds no token at all.
pub open spec fn opcode_of(s: Seq<char>) -> Seq<char> {
    let i = skip_spaces_spec(s, 0);
    if i >= s.len() {
        "Unknown"@
    } else {
        s.subrange(i, token_end_spec(s, i))
    }
}

impl Instruction {
    /// Classifies this instruction by the leading token of its rendering.
    pub fn opcode_name(&self) -> (r: String)
        ensures
            r@ == opcode_of(self.text@),
    {
        let s = self.text.as_str();
        let n = s.unicode_len();
        let i = skip_spaces(s, n, 0);
        if i >= n {
            String::from_str("Unknown")
        } else {
            let t = token_end(s, n, i);
            String::from_str(s.substring_char(i, t))
        }
    }
}

/// The opcodes of one block, in instruction order.
pub open spec fn block_opcodes(b: BasicBlock) -> Seq<Seq<char>> {
    b.instrs@.map_values(|ins: Instruction| opcode_of(ins.text@))
}

/// The opcodes of a run of blocks, in order.
pub open spec fn blocks_opcodes(blocks: Seq<BasicBlock>) -> Seq<Seq<char>>
    decreases blocks.len(),
{
    if blocks.len() == 0 {
        seq![]
    } else {
        blocks_opcodes(blocks.drop_last()) + block_opcodes(blocks.last())
    }
}

/// All opcodes of a function, block by block.
pub open spec fn func_opcodes(f: Function) -> Seq<Seq<char>> {
    blocks_opcodes(f.basic_blocks@)
}

/// How many instructions a run of blocks holds.
pub open spec fn blocks_instr_count(blocks: Seq<BasicBlock>) -> nat
    decreases blocks.len(),
{
    if blocks.len() == 0 {
        0
    } else {
        blocks_instr_count(blocks.drop_last()) + blocks.last().instrs@.len()
    }
}

/// How many instructions a function holds, over all its basic blocks.
pub open spec fn func_instr_count(f: Function) -> nat {
    blocks_instr_count(f.basic_blocks@)
}

/// A function has exactly one opcode per instruction.
pub proof fn lemma_func_opcodes_count(f: Function)
    ensures
        func_opcodes(f).len() == func_instr_count(f),
{
    lemma_blocks_opcodes_count(f.basic_blocks@);
}

proof fn lemma_blocks_opcodes_count(blocks: Seq<BasicBlock>)
    ensures
        blocks_opcodes(blocks).len() == blocks_instr_count(blocks),
    decreases blocks.len(),
{
    if blocks.len() > 0 {
        lemma_blocks_opcodes_count(blocks.drop_last());
    }
}

/// The opcodes still to come from block `k` on.
pub open spec fn blocks_tail_opcodes(blocks: Seq<BasicBlock>, k: int) -> Seq<Seq<char>>
    decreases blocks.len() - k,
{
    if k < 0 || k >= blocks.len() {
        seq![]
    } else {
        block_opcodes(blocks[k]) + blocks_tail_opcodes(blocks, k + 1)
    }
}

/// Splitting the opcode stream at block `k`.
pub proof fn lemma_blocks_decomp(blocks: Seq<BasicBlock>, k: int)
    requires
        0 <= k <= blocks.len(),
    ensures
        blocks_opcodes(blocks) == blocks_opcodes(blocks.take(k)) + blocks_tail_opcodes(blocks, k),
    decreases blocks.len() - k,
{
    if k == blocks.len() {
        assert(blocks.take(k) =~= blocks);
        assert(blocks_opcodes(blocks) + blocks_tail_opcodes(blocks, k) =~= blocks_opcodes(blocks));
    } else {
        lemma_blocks_decomp(blocks, k + 1);
        assert(blocks.take(k + 1).drop_last() =~= blocks.take(k));
        assert(blocks.take(k + 1).last() == blocks[k]);
        assert(blocks_opcodes(blocks.take(k + 1)) == blocks_opcodes(blocks.take(k))
            + block_opcodes(blocks[k]));
        assert((blocks_opcodes(blocks.take(k)) + block_opcodes(blocks[k])) + blocks_tail_opcodes(
            blocks,
            k + 1,
        ) =~= blocks_opcodes(blocks.take(k)) + (block_opcodes(blocks[k]) + blocks_tail_opcodes(
            blocks,
            k + 1,
        )));
    }
}

// ---------------------------------------------------------------------------
// Histograms: per-opcode counts, keys in first-appearance order.
// ---------------------------------------------------------------------------

/// One per-opcode counter.
pub struct CountEntry {
    pub opcode: String,
    pub count: usize,
}

impl View for CountEntry {
    type V = (Seq<char>, nat);

    open spec fn view(&self) -> (Seq<char>, nat) {
        (self.opcode@, self.count as nat)
    }
}

/// The index of `op` among the histogram's keys, `-1` if absent.
pub open spec fn hist_idx(h: Seq<(Seq<char>, nat)>, op: Seq<char>) -> int
    decreases h.len(),
{
    if h.len() == 0 {
        -1
    } else if h[0].0 == op {
        0
    } else {
        let r = hist_idx(h.drop_first(), op);
        if r == -1 {
            -1
        } else {
            r + 1
        }
    }
}

/// Where the key sits, what it maps to, and that no earlier entry has it.
pub proof fn lemma_hist_idx(h: Seq<(Seq<char>, nat)>, op: Seq<char>)
    ensures
        hist_idx(h, op) == -1 ==> forall|k: int| #![trigger h[k]] 0 <= k < h.len() ==> h[k].0 != op,
        hist_idx(h, op) != -1 ==> {
            &&& 0 <= hist_idx(h, op) < h.len()
            &&& h[hist_idx(h, op)].0 == op
            &&& forall|k: int| #![trigger h[k]] 0 <= k < hist_idx(h, op) ==> h[k].0 != op
        },
    decreases h.len(),
{
    if h.len() > 0 && h[0].0 != op {
        lemma_hist_idx(h.drop_first(), op);
        let t = h.drop_first();
        assert forall|k: int| #![trigger h[k]] 1 <= k < h.len() implies h[k] == t[k - 1] by {}
    }
}

/// Tallies one more occurrence of `op`.
pub open spec fn hist_insert(h: Seq<(Seq<char>, nat)>, op: Seq<char>) -> Seq<(Seq<char>, nat)> {
    let i = hist_idx(h, op);
    if i == -1 {
        h.push((op, 1nat))
    } else {
        h.update(i, (op, (h[i].1 + 1) as nat))
    }
}

/// The per-opcode histogram of an opcode stream, keys in first-appearance
/// order.
pub open spec fn histogram(ops: Seq<Seq<char>>) -> Seq<(Seq<char>, nat)>
    decreases ops.len(),
{
    if ops.len() == 0 {
        seq![]
    } else {
        hist_insert(histogram(ops.drop_last()), ops.last())
    }
}

/// The sum of a histogram's counters.
pub open spec fn sum_counts(h: Seq<(Seq<char>, nat)>) -> nat
    decreases h.len(),
{
    if h.len() == 0 {
        0
    } else {
        sum_counts(h.drop_last()) + h.last().1
    }
}

proof fn lemma_sum_update(h: Seq<(Seq<char>, nat)>, i: int)
    requires
        0 <= i < h.len(),
    ensures
        sum_counts(h.update(i, (h[i].0, (h[i].1 + 1) as nat))) == sum_counts(h) + 1,
    decreases h.len(),
{
    let u = h.update(i, (h[i].0, (h[i].1 + 1) as nat));
    if i == h.len() - 1 {
        assert(u.drop_last() =~= h.drop_last());
        assert(u.last() == (h[i].0, (h[i].1 + 1) as nat));
    } else {
        lemma_sum_update(h.drop_last(), i);
        assert(u.drop_last() =~= h.drop_last().update(i, (h[i].0, (h[i].1 + 1) as nat)));
        assert(h.drop_last()[i] == h[i]);
        assert(u.last() == h.last());
    }
}

proof fn lemma_sum_push(h: Seq<(Seq<char>, nat)>, e: (Seq<char>, nat))
    ensures
        sum_counts(h.push(e)) == sum_counts(h) + e.1,
{
    assert(h.push(e).drop_last() =~= h);
    assert(h.push(e).last() == e);
}

/// Tallying one opcode raises the total by one.
pub proof fn lemma_hist_insert_sum(h: Seq<(Seq<char>, nat)>, op: Seq<char>)
    ensures
        sum_counts(hist_insert(h, op)) == sum_counts(h) + 1,
{
    let i = hist_idx(h, op);
    lemma_hist_idx(h, op);
    if i == -1 {
        lemma_sum_push(h, (op, 1nat));
    } else {
        assert(h[i].0 == op);
        lemma_sum_update(h, i);
    }
}

/// The histogram's counters add up to the stream's length.
pub proof fn lemma_hist_sum(ops: Seq<Seq<char>>)
    ensures
        sum_counts(histogram(ops)) == ops.len(),
    decreases ops.len(),
{
    if ops.len() > 0 {
        lemma_hist_sum(ops.drop_last());
        lemma_hist_insert_sum(histogram(ops.drop_last()), ops.last());
    }
}

/// No single counter exceeds the total.
pub proof fn lemma_count_le_sum(h: Seq<(Seq<char>, nat)>, j: int)
    requires
        0 <= j < h.len(),
    ensures
        h[j].1 <= sum_counts(h),
    decreases h.len(),
{
    if j == h.len() - 1 {
    } else {
        lemma_count_le_sum(h.drop_last(), j);
        assert(h.drop_last()[j] == h[j]);
    }
}

// ---------------------------------------------------------------------------
// The aggregator.
// ---------------------------------------------------------------------------

/// One function's tally in the aggregate: its name and its per-opcode
/// counters.
pub struct FuncCount {
    pub name: String,
    pub counts: Vec<CountEntry>,
}

/// The mathematical image of a `FuncCount`.
pub struct FuncCountModel {
    pub name: Seq<char>,
    pub counts: Seq<(Seq<char>, nat)>,
}

impl View for FuncCount {
    type V = FuncCountModel;

    open spec fn view(&self) -> FuncCountModel {
        FuncCountModel {
            name: self.name@,
            counts: self.counts@.map_values(|e: CountEntry| e@),
        }
    }
}

/// Does a function name pass the optional filter?
pub open spec fn passes_filter(name: Seq<char>, filter: Option<Seq<char>>) -> bool {
    match filter {
        Some(f) => name == f,
        None => true,
    }
}

/// The view of the optional filter argument.
pub open spec fn filter_view(filter: Option<&str>) -> Option<Seq<char>> {
    match filter {
        Some(f) => Some(f@),
        None => None,
    }
}

/// Function names are pairwise distinct, as the module model demands.
pub open spec fn names_distinct(funcs: Seq<Function>) -> bool {
    forall|a: int, b: int|
        0 <= a < b < funcs.len() ==> (#[trigger] funcs[a].name@) != (#[trigger] funcs[b].name@)
}

/// What aggregation yields: one entry per function passing the filter, in
/// module order, counting that function's instructions by opcode.
pub open spec fn agg_spec(funcs: Seq<Function>, filter: Option<Seq<char>>) -> Seq<FuncCountModel>
    decreases funcs.len(),
{
    if funcs.len() == 0 {
        seq![]
    } else {
        let rest = agg_spec(funcs.drop_last(), filter);
        let f = funcs.last();
        if passes_filter(f.name@, filter) {
            rest.push(FuncCountModel { name: f.name@, counts: histogram(func_opcodes(f)) })
        } else {
            rest
        }
    }
}

/// Finds the counter for `op`, if one exists yet.
#[verifier::loop_isolation(false)]
fn find_opcode(counts: &Vec<CountEntry>, op: &str) -> (r: Option<usize>)
    ensures
        ({
            let h = counts@.map_values(|e: CountEntry| e@);
            match r {
                Some(ix) => ix < counts@.len() && ix == hist_idx(h, op@),
                None => hist_idx(h, op@) == -1,
            }
        }),
{
    let ghost h = counts@.map_values(|e: CountEntry| e@);
    proof {
        lemma_hist_idx(h, op@);
    }
    let mut j: usize = 0;
    while j < counts.len()
        invariant
            j <= counts.len(),
            forall|k: int| #![trigger h[k]] 0 <= k < j ==> h[k].0 != op@,
        decreases counts.len() - j,
    {
        if str_eq(counts[j].opcode.as_str(), op) {
            proof {
                assert(h[j as int].0 == op@);
                assert(hist_idx(h, op@) != -1);
                let i = hist_idx(h, op@);
                if i < j {
                    assert(h[i].0 == op@);
                    assert(false);
                }
                if i > j {
                    assert(h[j as int].0 != op@);
                    assert(false);
                }
            }
            return Some(j);
        }
        j = j + 1;
    }
    proof {
        if hist_idx(h, op@) != -1 {
            assert(h[hist_idx(h, op@)].0 == op@);
            assert(false);
        }
    }
    None
}

/// Counts one function's instructions by opcode.
#[verifier::loop_isolation(false)]
pub fn count_function(f: &Function) -> (r: Vec<CountEntry>)
    requires
        func_opcodes(*f).len() <= usize::MAX,
    ensures
        r@.map_values(|e: CountEntry| e@) == histogram(func_opcodes(*f)),
{
    let ghost blocks = f.basic_blocks@;
    let mut counts: Vec<CountEntry> = Vec::new();
    let mut bi: usize = 0;
    while bi < f.basic_blocks.len()
        invariant
            bi <= blocks.len(),
            counts@.map_values(|e: CountEntry| e@) == histogram(blocks_opcodes(blocks.take(
                bi as int,
            ))),
        decreases blocks.len() - bi,
    {
        let b = &f.basic_blocks[bi];
        let ghost done = blocks_opcodes(blocks.take(bi as int));
        let mut ii: usize = 0;
        proof {
            assert(block_opcodes(*b).take(0) =~= Seq::<Seq<char>>::empty());
            assert(done + block_opcodes(*b).take(0) =~= done);
        }
        while ii < b.instrs.len()
            invariant
                ii <= b.instrs@.len(),
                counts@.map_values(|e: CountEntry| e@) == histogram(
                    done + block_opcodes(*b).take(ii as int),
                ),
            decreases b.instrs@.len() - ii,
        {
            let ghost ops_done = done + block_opcodes(*b).take(ii as int);
            let ghost h = counts@.map_values(|e: CountEntry| e@);
            let op = b.instrs[ii].opcode_name();
            proof {
                lemma_blocks_decomp(blocks, bi as int);
                assert(blocks_tail_opcodes(blocks, bi as int) == block_opcodes(blocks[bi as int])
                    + blocks_tail_opcodes(blocks, bi as int + 1));
                assert(block_opcodes(*b).take(ii as int).len() <= block_opcodes(*b).len());
                assert(ops_done.len() + 1 <= func_opcodes(*f).len());
                lemma_hist_sum(ops_done);
                assert(ops_done.push(op@).drop_last() =~= ops_done);
                assert(ops_done.push(op@).last() == op@);
                assert(histogram(ops_done.push(op@)) == hist_insert(h, op@));
                assert(block_opcodes(*b).take(ii as int).push(op@) =~= block_opcodes(*b).take(
                    ii as int + 1,
                ));
                assert(done + block_opcodes(*b).take(ii as int + 1) =~= ops_done.push(op@));
            }
            match find_opcode(&counts, op.as_str()) {
                Some(ix) => {
                    proof {
                        lemma_hist_idx(h, op@);
                        lemma_count_le_sum(h, ix as int);
                    }
                    let newcount = counts[ix].count + 1;
                    counts.set(ix, CountEntry { opcode: op, count: newcount });
                    proof {
                        assert(counts@.map_values(|e: CountEntry| e@) =~= h.update(
                            ix as int,
                            (op@, (h[ix as int].1 + 1) as nat),
                        ));
                        assert(hist_idx(h, op@) == ix as int);
                        assert(h[ix as int].0 == op@);
                    }
                },
                None => {
                    counts.push(CountEntry { opcode: op, count: 1 });
                    proof {
                        assert(counts@.map_values(|e: CountEntry| e@) =~= h.push((op@, 1nat)));
                    }
                },
            }
            ii = ii + 1;
        }
        proof {
            assert(blocks.take(bi as int + 1).drop_last() =~= blocks.take(bi as int));
            assert(blocks.take(bi as int + 1).last() == blocks[bi as int]);
            assert(block_opcodes(*b).take(b.instrs@.len() as int) =~= block_opcodes(*b));
            assert(blocks_opcodes(blocks.take(bi as int + 1)) == done + block_opcodes(*b));
        }
        bi = bi + 1;
    }
    proof {
        assert(blocks.take(blocks.len() as int) =~= blocks);
    }
    counts
}

/// Walks the module and tallies instruction opcodes per function, keeping
/// only the functions that pass the optional name filter; a function that
/// fails the filter contributes no entry at all.
#[verifier::loop_isolation(false)]
pub fn aggregate(module: &Module, function_filter: Option<&str>) -> (r: Vec<FuncCount>)
    requires
        names_distinct(module.functions@),
        forall|k: int|
            0 <= k < module.functions@.len() ==> (#[trigger] func_opcodes(
                module.functions@[k],
            )).len() <= usize::MAX,
    ensures
        r@.map_values(|fc: FuncCount| fc@) == agg_spec(
            module.functions@,
            filter_view(function_filter),
        ),
{
    let ghost funcs = module.functions@;
    let ghost fv = filter_view(function_filter);
    let mut r: Vec<FuncCount> = Vec::new();
    let mut fi: usize = 0;
    while fi < module.functions.len()
        invariant
            fi <= funcs.len(),
            r@.map_values(|fc: FuncCount| fc@) == agg_spec(funcs.take(fi as int), fv),
        decreases funcs.len() - fi,
    {
        let ghost pre = r@.map_values(|fc: FuncCount| fc@);
        let f = &module.functions[fi];
        let passes = match function_filter {
            Some(flt) => str_eq(flt, f.name.as_str()),
            None => true,
        };
        proof {
            assert(funcs.take(fi as int + 1).drop_last() =~= funcs.take(fi as int));
            assert(funcs.take(fi as int + 1).last() == funcs[fi as int]);
        }
        if passes {
            let counts = count_function(f);
            let fc = FuncCount { name: f.name.clone(), counts };
            r.push(fc);
            proof {
                assert(r@.map_values(|fc: FuncCount| fc@) =~= pre.push(
                    FuncCountModel {
                        name: funcs[fi as int].name@,
                        counts: histogram(func_opcodes(funcs[fi as int])),
                    },
                ));
            }
        }
        fi = fi + 1;
    }
    proof {
        assert(funcs.take(funcs.len() as int) =~= funcs);
    }
    r
}

// ---------------------------------------------------------------------------
// Laws of the aggregate.
// ---------------------------------------------------------------------------

/// A function's per-opcode counts add up to its total instruction count,
/// for every function, always.
pub proof fn lemma_counts_total(f: Function)
    ensures
        sum_counts(histogram(func_opcodes(f))) == func_instr_count(f),
{
    lemma_hist_sum(func_opcodes(f));
    lemma_func_opcodes_count(f);
}

/// The total instruction count a whole aggregate accounts for.
pub open spec fn table_total(t: Seq<FuncCountModel>) -> nat
    decreases t.len(),
{
    if t.len() == 0 {
        0
    } else {
        table_total(t.drop_last()) + sum_counts(t.last().counts)
    }
}

/// The summed totals of aggregating each function individually, from
/// function `k` on.
pub open spec fn sum_filtered(funcs: Seq<Function>, k: int) -> nat
    decreases funcs.len() - k,
{
    if k < 0 || k >= funcs.len() {
        0
    } else {
        table_total(agg_spec(funcs, Some(funcs[k].name@))) + sum_filtered(funcs, k + 1)
    }
}

/// The summed per-function histogram totals, from function `k` on.
pub open spec fn all_totals(funcs: Seq<Function>, k: int) -> nat
    decreases funcs.len() - k,
{
    if k < 0 || k >= funcs.len() {
        0
    } else {
        sum_counts(histogram(func_opcodes(funcs[k]))) + all_totals(funcs, k + 1)
    }
}

proof fn lemma_agg_filter_none(funcs: Seq<Function>, nm: Seq<char>)
    requires
        forall|j: int| 0 <= j < funcs.len() ==> (#[trigger] funcs[j].name@) != nm,
    ensures
        agg_spec(funcs, Some(nm)) == Seq::<FuncCountModel>::empty(),
    decreases funcs.len(),
{
    if funcs.len() > 0 {
        assert forall|j: int| 0 <= j < funcs.drop_last().len() implies (#[trigger] funcs.drop_last(
        )[j].name@) != nm by {
            assert(funcs.drop_last()[j] == funcs[j]);
        }
        lemma_agg_filter_none(funcs.drop_last(), nm);
        assert(funcs.last() == funcs[funcs.len() - 1]);
    }
}

proof fn lemma_agg_filter_single(funcs: Seq<Function>, k: int)
    requires
        names_distinct(funcs),
        0 <= k < funcs.len(),
    ensures
        agg_spec(funcs, Some(funcs[k].name@)) == seq![
            FuncCountModel { name: funcs[k].name@, counts: histogram(func_opcodes(funcs[k])) },
        ],
    decreases funcs.len(),
{
    let nm = funcs[k].name@;
    let e = FuncCountModel { name: nm, counts: histogram(func_opcodes(funcs[k])) };
    if k == funcs.len() - 1 {
        assert forall|j: int| 0 <= j < funcs.drop_last().len() implies (#[trigger] funcs.drop_last(
        )[j].name@) != nm by {
            assert(funcs.drop_last()[j] == funcs[j]);
        }
        lemma_agg_filter_none(funcs.drop_last(), nm);
        assert(funcs.last() == funcs[k]);
        assert(Seq::<FuncCountModel>::empty().push(e) =~= seq![e]);
    } else {
        let dl = funcs.drop_last();
        assert forall|a: int, b: int| 0 <= a < b < dl.len() implies (#[trigger] dl[a].name@) != (
        #[trigger] dl[b].name@) by {
            assert(dl[a] == funcs[a]);
            assert(dl[b] == funcs[b]);
        }
        assert(dl[k] == funcs[k]);
        lemma_agg_filter_single(dl, k);
        assert(funcs.last() == funcs[funcs.len() - 1]);
        assert(funcs[funcs.len() - 1].name@ != nm);
    }
}

proof fn lemma_all_totals_drop(funcs: Seq<Function>, k: int)
    requires
        0 <= k <= funcs.len() - 1,
    ensures
        all_totals(funcs, k) == all_totals(funcs.drop_last(), k) + sum_counts(
            histogram(func_opcodes(funcs.last())),
        ),
    decreases funcs.len() - k,
{
    if k == funcs.len() - 1 {
        assert(funcs[k] == funcs.last());
        assert(all_totals(funcs, k + 1) == 0);
        assert(all_totals(funcs.drop_last(), k) == 0);
        assert(all_totals(funcs, k) == sum_counts(histogram(func_opcodes(funcs[k]))));
    } else {
        lemma_all_totals_drop(funcs, k + 1);
        assert(funcs.drop_last()[k] == funcs[k]);
        assert(all_totals(funcs, k) == sum_counts(histogram(func_opcodes(funcs[k])))
            + all_totals(funcs, k + 1));
        assert(all_totals(funcs.drop_last(), k) == sum_counts(
            histogram(func_opcodes(funcs.drop_last()[k])),
        ) + all_totals(funcs.drop_last(), k + 1));
    }
}

proof fn lemma_none_total(funcs: Seq<Function>)
    ensures
        table_total(agg_spec(funcs, None)) == all_totals(funcs, 0),
    decreases funcs.len(),
{
    if funcs.len() > 0 {
        let dl = funcs.drop_last();
        let e = FuncCountModel {
            name: funcs.last().name@,
            counts: histogram(func_opcodes(funcs.last())),
        };
        lemma_none_total(dl);
        assert(agg_spec(funcs, None) == agg_spec(dl, None).push(e));
        assert(agg_spec(dl, None).push(e).drop_last() =~= agg_spec(dl, None));
        assert(agg_spec(dl, None).push(e).last() == e);
        lemma_all_totals_drop(funcs, 0);
    }
}

proof fn lemma_filtered_eq_all(funcs: Seq<Function>, k: int)
    requires
        names_distinct(funcs),
        0 <= k <= funcs.len(),
    ensures
        sum_filtered(funcs, k) == all_totals(funcs, k),
    decreases funcs.len() - k,
{
    if k < funcs.len() {
        lemma_agg_filter_single(funcs, k);
        let e = FuncCountModel { name: funcs[k].name@, counts: histogram(func_opcodes(funcs[k])) };
        assert(seq![e].drop_last() =~= Seq::<FuncCountModel>::empty());
        assert(seq![e].last() == e);
        assert(table_total(Seq::<FuncCountModel>::empty()) == 0);
        assert(seq![e].len() == 1);
        assert(table_total(seq![e]) == sum_counts(e.counts));
        lemma_filtered_eq_all(funcs, k + 1);
    }
}

/// Aggregating a module with no filter accounts for exactly as many
/// instructions as aggregating every function individually and summing
/// the per-function totals.
pub proof fn lemma_aggregate_filter_totals(funcs: Seq<Function>)
    requires
        names_distinct(funcs),
    ensures
        table_total(agg_spec(funcs, None)) == sum_filtered(funcs, 0),
{
    lemma_none_total(funcs);
    lemma_filtered_eq_all(funcs, 0);
}

} // verus!
