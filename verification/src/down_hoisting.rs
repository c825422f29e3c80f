//! Down-hoisting: when every block jumping into a block computes the value it
//! passes for a parameter with the same operation, the operation moves into
//! the block and its operands are passed instead.

use vstd::prelude::*;
use crate::cfg::{BasicBlock, BlockId, Condition, GraphBuilder, InstrId, OpEffect, OptInstr, OptOp, ValueId, ValueInfo, C_IMIN};
use crate::implications::{computes, def_of, first_def, is_computed, lemma_first_def_unique};
use crate::ranges::union_range;
use crate::seqs::{valid_positions, without_positions, RemoveAll};

verus! {

/// `b` keeps the blocks, their ids and jumps, and the values of `a`; values may
/// only be added after them.
pub open spec fn keeps_jumps(a: GraphBuilder, b: GraphBuilder) -> bool {
    &&& b.blocks@.len() == a.blocks@.len()
    &&& forall|k: int| 0 <= k < a.blocks@.len() ==> {
            &&& (#[trigger] b.blocks@[k]).id == a.blocks@[k].id
            &&& b.blocks@[k].incoming_jumps == a.blocks@[k].incoming_jumps
            &&& b.blocks@[k].outgoing_jumps == a.blocks@[k].outgoing_jumps
        }
    &&& a.values@.len() <= b.values@.len() <= u32::MAX
    &&& forall|v: int| 0 <= v < a.values@.len() ==> #[trigger] b.values@[v] == a.values@[v]
    &&& forall|v: int| a.values@.len() <= v < b.values@.len() ==> #[trigger] b.values@[v].id == ValueId(v as u32)
    &&& b.current_block == a.current_block
}

/// A graph that keeps the jumps and values of a well-formed graph is well-formed.
proof fn lemma_keeps_wf(a: GraphBuilder, b: GraphBuilder)
    requires
        a.wf(),
        keeps_jumps(a, b),
    ensures
        b.wf(),
{
    assert forall|i: int, k: int| 0 <= i < b.blocks@.len() && 0 <= k < b.blocks@[i].outgoing_jumps@.len()
        implies (#[trigger] b.blocks@[i].outgoing_jumps@[k]).1.0 < b.blocks@.len() by {
        assert(b.blocks@[i].outgoing_jumps == a.blocks@[i].outgoing_jumps);
    }
    assert forall|i: int, k: int| 0 <= i < b.blocks@.len() && 0 <= k < b.blocks@[i].incoming_jumps@.len()
        implies (#[trigger] b.blocks@[i].incoming_jumps@[k]).0.0 < b.blocks@.len() by {
        assert(b.blocks@[i].incoming_jumps == a.blocks@[i].incoming_jumps);
    }
    assert forall|i: int| 0 <= i < b.blocks@.len() implies #[trigger] b.blocks@[i].id == BlockId(i as u32) by {
        assert(b.blocks@[i].id == a.blocks@[i].id);
    }
    assert forall|i: int| 0 <= i < b.values@.len() implies #[trigger] b.values@[i].id == ValueId(i as u32) by {
        if i < a.values@.len() { assert(b.values@[i] == a.values@[i]); }
    }
    crate::cfg::lemma_constants_kept(a.values@, b.values@);
}

/// Keeping the jumps composes.
proof fn lemma_keeps_trans(a: GraphBuilder, b: GraphBuilder, c: GraphBuilder)
    requires
        keeps_jumps(a, b),
        keeps_jumps(b, c),
    ensures
        keeps_jumps(a, c),
{
    assert forall|k: int| 0 <= k < a.blocks@.len() implies {
        &&& (#[trigger] c.blocks@[k]).id == a.blocks@[k].id
        &&& c.blocks@[k].incoming_jumps == a.blocks@[k].incoming_jumps
        &&& c.blocks@[k].outgoing_jumps == a.blocks@[k].outgoing_jumps
    } by {
        assert(b.blocks@[k].id == a.blocks@[k].id);
    }
    assert forall|v: int| 0 <= v < a.values@.len() implies #[trigger] c.values@[v] == a.values@[v] by {
        assert(b.values@[v] == a.values@[v]);
    }
    assert forall|v: int| a.values@.len() <= v < c.values@.len() implies #[trigger] c.values@[v].id == ValueId(v as u32) by {
        if v < b.values@.len() { assert(c.values@[v] == b.values@[v]); }
    }
}

/// Instruction `j` of the block that `id` names is the first there with the id `id`.
pub open spec fn first_pos(g: GraphBuilder, id: InstrId, j: int) -> bool {
    let b = id.0.0 as int;
    &&& 0 <= b < g.blocks@.len()
    &&& 0 <= j < g.blocks@[b].instructions@.len()
    &&& g.blocks@[b].instructions@[j].id == id
    &&& forall|q: int| 0 <= q < j ==> (#[trigger] g.blocks@[b].instructions@[q]).id != id
}

/// There is only one first instruction with a given id.
proof fn lemma_first_pos_unique(g: GraphBuilder, id: InstrId, j1: int, j2: int)
    requires
        first_pos(g, id, j1),
        first_pos(g, id, j2),
    ensures
        j1 == j2,
{
    let b = id.0.0 as int;
    if j1 < j2 {
        assert(g.blocks@[b].instructions@[j1].id != id);
    } else if j2 < j1 {
        assert(g.blocks@[b].instructions@[j2].id != id);
    }
}

/// Where the instruction with the id `id` stands (meaningful when there is one).
pub open spec fn jump_at(g: GraphBuilder, id: InstrId) -> (usize, usize) {
    (id.0.0 as usize, (choose|j: int| first_pos(g, id, j)) as usize)
}

/// Block `q` holds instructions with the same ids, at the same places, in both graphs.
pub open spec fn same_ids_in(a: GraphBuilder, b: GraphBuilder, q: int) -> bool {
    &&& b.blocks@[q].instructions@.len() == a.blocks@[q].instructions@.len()
    &&& forall|j: int| 0 <= j < a.blocks@[q].instructions@.len() ==>
            (#[trigger] b.blocks@[q].instructions@[j]).id == a.blocks@[q].instructions@[j].id
}

/// Every block holds instructions with the same ids, at the same places, in both graphs.
pub open spec fn same_ids(a: GraphBuilder, b: GraphBuilder) -> bool {
    &&& b.blocks@.len() == a.blocks@.len()
    &&& forall|q: int| 0 <= q < a.blocks@.len() ==> #[trigger] same_ids_in(a, b, q)
}

/// Where an instruction stands depends only on the ids of its block.
proof fn lemma_ids_found(a: GraphBuilder, b: GraphBuilder, id: InstrId)
    requires
        b.blocks@.len() == a.blocks@.len(),
        0 <= id.0.0 < a.blocks@.len() ==> same_ids_in(a, b, id.0.0 as int),
    ensures
        found(a, id) == found(b, id),
        found(a, id) ==> jump_at(a, id) == jump_at(b, id),
{
    let q = id.0.0 as int;
    assert forall|j: int| first_pos(a, id, j) implies first_pos(b, id, j) by {
        assert forall|x: int| 0 <= x < j implies (#[trigger] b.blocks@[q].instructions@[x]).id != id by {
            assert(a.blocks@[q].instructions@[x].id != id);
        }
    }
    assert forall|j: int| first_pos(b, id, j) implies first_pos(a, id, j) by {
        assert(b.blocks@[q].instructions@[j].id == a.blocks@[q].instructions@[j].id);
        assert forall|x: int| 0 <= x < j implies (#[trigger] a.blocks@[q].instructions@[x]).id != id by {
            assert(b.blocks@[q].instructions@[x].id != id);
        }
    }
    if found(a, id) {
        let ja = choose|j: int| first_pos(a, id, j);
        let jb = choose|j: int| first_pos(b, id, j);
        assert(first_pos(b, id, ja));
        lemma_first_pos_unique(b, id, ja, jb);
    }
}

/// No two instructions of the sequence share an id.
pub open spec fn ids_unique(ins: Seq<OptInstr>) -> bool {
    forall|x: int, y: int| 0 <= x < y < ins.len() ==> (#[trigger] ins[x]).id != (#[trigger] ins[y]).id
}

/// Each element left after removing positions was an element before.
proof fn lemma_without_elem<A>(s: Seq<A>, ixs: Seq<usize>, i: int)
    requires
        0 <= i < without_positions(s, ixs).len(),
    ensures
        exists|j: int| 0 <= j < s.len() && without_positions(s, ixs)[i] == #[trigger] s[j],
    decreases s.len(),
{
    let init = without_positions(s.drop_last(), ixs);
    if i < init.len() {
        lemma_without_elem(s.drop_last(), ixs, i);
        let j = choose|j: int| 0 <= j < s.drop_last().len() && init[i] == #[trigger] s.drop_last()[j];
        assert(s[j] == s.drop_last()[j]);
    } else {
        assert(without_positions(s, ixs)[i] == s[s.len() - 1]);
    }
}

/// After instructions of its block leave, an instruction found by its id is
/// the one found before, when the ids of the block were distinct.
proof fn lemma_removed_found(a: GraphBuilder, b: GraphBuilder, id: InstrId, pos: Seq<usize>)
    requires
        b.blocks@.len() == a.blocks@.len(),
        0 <= id.0.0 < a.blocks@.len(),
        b.blocks@[id.0.0 as int].instructions@ == without_positions(a.blocks@[id.0.0 as int].instructions@, pos),
        ids_unique(a.blocks@[id.0.0 as int].instructions@),
        found(b, id),
    ensures
        found(a, id),
        b.blocks@[jump_at(b, id).0 as int].instructions@[jump_at(b, id).1 as int]
            == a.blocks@[jump_at(a, id).0 as int].instructions@[jump_at(a, id).1 as int],
{
    let q = id.0.0 as int;
    let jb = choose|j: int| first_pos(b, id, j);
    lemma_without_elem(a.blocks@[q].instructions@, pos, jb);
    let ja = choose|j: int| 0 <= j < a.blocks@[q].instructions@.len()
        && without_positions(a.blocks@[q].instructions@, pos)[jb] == #[trigger] a.blocks@[q].instructions@[j];
    assert(a.blocks@[q].instructions@[ja].id == id);
    assert(first_pos(a, id, ja)) by {
        assert forall|x: int| 0 <= x < ja implies (#[trigger] a.blocks@[q].instructions@[x]).id != id by {
            if a.blocks@[q].instructions@[x].id == id {
                assert(a.blocks@[q].instructions@[x].id != a.blocks@[q].instructions@[ja].id);
            }
        }
    }
    let jc = choose|j: int| first_pos(a, id, j);
    lemma_first_pos_unique(a, id, ja, jc);
    assert(0 <= jb < b.blocks@[q].instructions.len());
    assert(0 <= ja < a.blocks@[q].instructions.len());
    assert(jump_at(b, id).1 as int == jb);
    assert(jump_at(a, id).1 as int == ja);
    assert(b.blocks@[q].instructions@[jb] == a.blocks@[q].instructions@[ja]);
}

/// Editing one block, keeping its ids, keeps the ids of the graph.
proof fn lemma_same_ids_step(a: GraphBuilder, before: GraphBuilder, after: GraphBuilder, b: int)
    requires
        same_ids(a, before),
        after.blocks@.len() == before.blocks@.len(),
        forall|q: int| 0 <= q < before.blocks@.len() && q != b ==> #[trigger] after.blocks@[q] == before.blocks@[q],
        0 <= b < before.blocks@.len() ==> same_ids_in(before, after, b),
    ensures
        same_ids(a, after),
{
    assert forall|q: int| 0 <= q < a.blocks@.len() implies #[trigger] same_ids_in(a, after, q) by {
        assert(same_ids_in(a, before, q));
        if q == b {
            assert(same_ids_in(before, after, q));
            assert forall|jj: int| 0 <= jj < a.blocks@[q].instructions@.len() implies
                (#[trigger] after.blocks@[q].instructions@[jj]).id == a.blocks@[q].instructions@[jj].id by {
                assert(before.blocks@[q].instructions@[jj].id == a.blocks@[q].instructions@[jj].id);
            }
        } else {
            assert(after.blocks@[q] == before.blocks@[q]);
        }
    }
}

/// Each jump of `inc` that stands in the graph passes one value per parameter of block `t`.
pub open spec fn args_match(g: GraphBuilder, t: int, inc: Seq<InstrId>) -> bool {
    forall|k: int| 0 <= k < inc.len() && found(g, #[trigger] inc[k]) ==>
        inputs_at(g, jump_at(g, inc[k])).len() == g.blocks@[t].parameters@.len()
}

/// No two instructions of a block share an id.
pub open spec fn block_ids_unique(g: GraphBuilder) -> bool {
    forall|q: int| 0 <= q < g.blocks@.len() ==> ids_unique(#[trigger] g.blocks@[q].instructions@)
}

/// The operands of the instruction standing at `p`.
pub open spec fn inputs_at(g: GraphBuilder, p: (usize, usize)) -> Seq<ValueId> {
    g.blocks@[p.0 as int].instructions@[p.1 as int].inputs@
}

/// An instruction that is found stands where `jump_at` says, and has the id.
proof fn lemma_jump_at(g: GraphBuilder, id: InstrId)
    requires
        found(g, id),
    ensures
        jump_at(g, id).0 as int == id.0.0 as int,
        0 <= jump_at(g, id).0 < g.blocks@.len(),
        0 <= jump_at(g, id).1 < g.blocks@[jump_at(g, id).0 as int].instructions@.len(),
        first_pos(g, id, jump_at(g, id).1 as int),
        g.blocks@[jump_at(g, id).0 as int].instructions@[jump_at(g, id).1 as int].id == id,
{
    let j = choose|j: int| first_pos(g, id, j);
    let q = id.0.0 as int;
    assert(0 <= j < g.blocks@[q].instructions.len());
    assert(jump_at(g, id).1 as int == j);
}

/// Where the instruction with the id `id` stands: its block and index.
fn find_instr(g: &GraphBuilder, id: InstrId) -> (r: Option<(usize, usize)>)
    requires
        g.wf(),
    ensures
        r is None <==> !exists|j: int| first_pos(*g, id, j),
        r matches Some((b, j)) ==> b < g.n() && j < g.blocks@[b as int].instructions@.len()
            && first_pos(*g, id, j as int) && (b, j) == jump_at(*g, id),
{
    let b = id.0.0 as usize;
    if b >= g.blocks.len() {
        return None;
    }
    let instrs = &g.blocks[b].instructions;
    let mut j: usize = 0;
    while j < instrs.len()
        invariant
            j <= instrs@.len(),
            b < g.n(),
            b == id.0.0,
            *instrs == g.blocks@[b as int].instructions,
            forall|q: int| 0 <= q < j ==> (#[trigger] instrs@[q]).id != id,
        decreases instrs@.len() - j,
    {
        if instrs[j].id == id {
            proof {
                assert(first_pos(*g, id, j as int));
                let c = choose|j: int| first_pos(*g, id, j);
                lemma_first_pos_unique(*g, id, c, j as int);
            }
            return Some((b, j));
        }
        j += 1;
    }
    assert forall|jj: int| !first_pos(*g, id, jj) by {
        if first_pos(*g, id, jj) {
            assert(instrs@[jj].id == id);
        }
    }
    None
}

/// The operands of a condition.
pub open spec fn cond_operands(c: Condition<ValueId>) -> Seq<ValueId> {
    match c {
        Condition::True | Condition::False => Seq::empty(),
        Condition::Eq(a, b) | Condition::Neq(a, b) | Condition::Lt(a, b) | Condition::Leq(a, b)
        | Condition::Gt(a, b) | Condition::Geq(a, b) | Condition::Divides(a, b) | Condition::NotDivides(a, b) => seq![a, b],
    }
}

/// The operands of the condition of an operation, if it has one.
pub open spec fn op_operands(op: OptOp) -> Seq<ValueId> {
    match op {
        OptOp::KsplangOpsIncrement(c) | OptOp::Jump(c, _) | OptOp::DeoptAssert(c) => cond_operands(c),
        _ => Seq::empty(),
    }
}

/// The values an instruction reads: its inputs, then the operands of its condition.
pub open spec fn reads_of(ins: OptInstr) -> Seq<ValueId> {
    ins.inputs@ + op_operands(ins.op)
}

/// The values an instruction reads: its inputs, then the operands of its condition.
fn reads(ins: &OptInstr) -> (r: Vec<ValueId>)
    ensures
        r@ == reads_of(*ins),
{
    let mut r = copy_vals(&ins.inputs);
    let c = match ins.op {
        OptOp::KsplangOpsIncrement(c) => Some(c),
        OptOp::Jump(c, _) => Some(c),
        OptOp::DeoptAssert(c) => Some(c),
        _ => None,
    };
    if let Some(c) = c {
        match c {
            Condition::True | Condition::False => {}
            Condition::Eq(a, b) | Condition::Neq(a, b) | Condition::Lt(a, b) | Condition::Leq(a, b)
            | Condition::Gt(a, b) | Condition::Geq(a, b) | Condition::Divides(a, b) | Condition::NotDivides(a, b) => {
                r.push(a);
                r.push(b);
            }
        }
    }
    assert(r@ =~= reads_of(*ins));
    r
}

/// All values of the list are the same.
pub open spec fn all_same_spec(vals: Seq<ValueId>) -> bool {
    forall|i: int| 0 <= i < vals.len() ==> #[trigger] vals[i] == vals[0]
}

/// Whether all values of the list are the same.
fn all_same(vals: &Vec<ValueId>) -> (r: bool)
    ensures
        r == all_same_spec(vals@),
{
    let mut i: usize = 1;
    while i < vals.len()
        invariant
            1 <= i,
            forall|k: int| 0 <= k < i && k < vals@.len() ==> #[trigger] vals@[k] == vals@[0],
        decreases vals@.len() - i,
    {
        if vals[i].0 != vals[0].0 {
            assert(vals@[i as int] != vals@[0]);
            return false;
        }
        i += 1;
    }
    true
}

/// Number of times `x` occurs in `s`.
pub open spec fn occ(s: Seq<(usize, usize)>, x: (usize, usize)) -> nat
    decreases s.len(),
{
    if s.len() == 0 { 0 } else { occ(s.drop_last(), x) + if s.last() == x { 1nat } else { 0nat } }
}

/// The two lists hold the same pairs, as often each (in any order).
pub open spec fn same_uses(a: Seq<(usize, usize)>, b: Seq<(usize, usize)>) -> bool {
    a.len() == b.len() && forall|x: (usize, usize)| #[trigger] occ(a, x) == occ(b, x)
}

/// A pair that occurs is in the list.
proof fn lemma_occ_contains(s: Seq<(usize, usize)>, x: (usize, usize))
    ensures
        occ(s, x) > 0 ==> s.contains(x),
    decreases s.len(),
{
    if s.len() > 0 {
        lemma_occ_contains(s.drop_last(), x);
        if occ(s.drop_last(), x) > 0 {
            let k = choose|k: int| 0 <= k < s.drop_last().len() && s.drop_last()[k] == x;
            assert(s[k] == x);
        } else if s.last() == x {
            assert(s[s.len() - 1] == x);
        }
    }
}

/// Number of times `x` occurs in `s`.
fn count_pair(s: &Vec<(usize, usize)>, x: (usize, usize)) -> (c: usize)
    ensures
        c == occ(s@, x),
{
    let mut c: usize = 0;
    let mut i: usize = 0;
    while i < s.len()
        invariant
            i <= s@.len(),
            c == occ(s@.take(i as int), x),
            c <= i,
        decreases s@.len() - i,
    {
        assert(s@.take(i + 1).drop_last() == s@.take(i as int));
        if s[i].0 == x.0 && s[i].1 == x.1 {
            c += 1;
        }
        i += 1;
    }
    assert(s@.take(s@.len() as int) == s@);
    c
}

/// Whether the two lists hold the same pairs, as often each.
fn same_uses_exec(a: &Vec<(usize, usize)>, b: &Vec<(usize, usize)>) -> (r: bool)
    ensures
        r == same_uses(a@, b@),
{
    if a.len() != b.len() {
        return false;
    }
    let mut k: usize = 0;
    while k < a.len()
        invariant
            a@.len() == b@.len(),
            forall|q: int| 0 <= q < k ==> occ(a@, #[trigger] a@[q]) == occ(b@, a@[q]),
        decreases a@.len() - k,
    {
        if count_pair(a, a[k]) != count_pair(b, a[k]) {
            return false;
        }
        k += 1;
    }
    let mut k: usize = 0;
    while k < b.len()
        invariant
            a@.len() == b@.len(),
            forall|q: int| 0 <= q < a@.len() ==> occ(a@, #[trigger] a@[q]) == occ(b@, a@[q]),
            forall|q: int| 0 <= q < k ==> occ(a@, #[trigger] b@[q]) == occ(b@, b@[q]),
        decreases b@.len() - k,
    {
        if count_pair(a, b[k]) != count_pair(b, b[k]) {
            return false;
        }
        k += 1;
    }
    assert forall|x: (usize, usize)| #[trigger] occ(a@, x) == occ(b@, x) by {
        lemma_occ_contains(a@, x);
        lemma_occ_contains(b@, x);
        if occ(a@, x) > 0 {
            let q = choose|q: int| 0 <= q < a@.len() && a@[q] == x;
            assert(occ(a@, a@[q]) == occ(b@, a@[q]));
        } else if occ(b@, x) > 0 {
            let q = choose|q: int| 0 <= q < b@.len() && b@[q] == x;
            assert(occ(a@, b@[q]) == occ(b@, b@[q]));
        }
    }
    true
}

/// A computation that every block jumping into the target performs alike:
/// its operation, the value each block computes, where each computes it, and
/// for each operand the value each block reads.
pub struct DownCandidate {
    pub op: OptOp,
    pub out_vals: Vec<ValueId>,
    pub source_instrs: Vec<(usize, usize)>,
    pub arg_values: Vec<Vec<ValueId>>,
    pub program_position: usize,
}

/// The candidate number of the first entry of `allowed` for instruction
/// `(b, j)`, looking from entry `k` on.
pub open spec fn first_allowed(allowed: Seq<((usize, usize), usize)>, b: int, j: int, k: int) -> Option<usize>
    decreases allowed.len() - k,
{
    if k < 0 || k >= allowed.len() {
        None
    } else if allowed[k].0.0 == b && allowed[k].0.1 == j {
        Some(allowed[k].1)
    } else {
        first_allowed(allowed, b, j, k + 1)
    }
}

/// The candidate number under which instruction `(b, j)` is taken, if it is.
pub open spec fn allowed_at(allowed: Seq<((usize, usize), usize)>, b: int, j: int) -> Option<usize> {
    first_allowed(allowed, b, j, 0)
}

/// An instruction is taken exactly when some entry names it.
proof fn lemma_allowed_at(allowed: Seq<((usize, usize), usize)>, b: int, j: int, k: int)
    requires
        0 <= k,
    ensures
        first_allowed(allowed, b, j, k) is None <==>
            forall|q: int| k <= q < allowed.len() ==> !(#[trigger] allowed[q].0.0 == b && allowed[q].0.1 == j),
    decreases allowed.len() - k,
{
    if k < allowed.len() {
        lemma_allowed_at(allowed, b, j, k + 1);
    }
}

/// The candidate number under which instruction `(b, j)` is already taken, if any.
fn allowed_get(allowed: &Vec<((usize, usize), usize)>, b: usize, j: usize) -> (r: Option<usize>)
    ensures
        r == allowed_at(allowed@, b as int, j as int),
{
    let mut k: usize = 0;
    while k < allowed.len()
        invariant
            k <= allowed@.len(),
            allowed_at(allowed@, b as int, j as int) == first_allowed(allowed@, b as int, j as int, k as int),
        decreases allowed@.len() - k,
    {
        if allowed[k].0.0 == b && allowed[k].0.1 == j {
            return Some(allowed[k].1);
        }
        k += 1;
    }
    None
}

/// `(cand, i)` for each position `i < k` at which `rs` holds `val`.
pub open spec fn positions_of(rs: Seq<ValueId>, val: ValueId, cand: usize, k: int) -> Seq<(usize, usize)>
    decreases k,
{
    if k <= 0 {
        Seq::empty()
    } else {
        positions_of(rs, val, cand, k - 1) + if rs[k - 1] == val { seq![(cand, (k - 1) as usize)] } else { Seq::empty() }
    }
}

/// Every instruction that reads `val` lies in block `def_block` and is taken.
pub open spec fn uses_ok(g: GraphBuilder, allowed: Seq<((usize, usize), usize)>, val: ValueId, def_block: int) -> bool {
    forall|b: int, j: int| 0 <= b < g.n() && 0 <= j < g.blocks@[b].instructions@.len()
        && #[trigger] reads_of(g.blocks@[b].instructions@[j]).contains(val)
        ==> b == def_block && allowed_at(allowed, b, j) is Some
}

/// The uses of `val` by the first `jn` instructions of block `b`: for each
/// reading position, the candidate number of the instruction and the position.
pub open spec fn block_uses(g: GraphBuilder, allowed: Seq<((usize, usize), usize)>, val: ValueId, b: int, jn: int) -> Seq<(usize, usize)>
    decreases jn,
{
    if jn <= 0 {
        Seq::empty()
    } else {
        let rs = reads_of(g.blocks@[b].instructions@[jn - 1]);
        block_uses(g, allowed, val, b, jn - 1) + if rs.contains(val) {
            positions_of(rs, val, allowed_at(allowed, b, jn - 1)->0, rs.len() as int)
        } else {
            Seq::empty()
        }
    }
}

/// The uses of `val` by the instructions of the first `bn` blocks.
pub open spec fn graph_uses(g: GraphBuilder, allowed: Seq<((usize, usize), usize)>, val: ValueId, bn: int) -> Seq<(usize, usize)>
    decreases bn,
{
    if bn <= 0 {
        Seq::empty()
    } else {
        graph_uses(g, allowed, val, bn - 1) + block_uses(g, allowed, val, bn - 1, g.blocks@[bn - 1].instructions@.len() as int)
    }
}

/// Where value `val` is read, as pairs of the candidate number of the reading
/// instruction and the operand position; `None` when a reading instruction
/// lies outside block `def_block` or is not yet taken.
fn usage_signature(g: &GraphBuilder, allowed: &Vec<((usize, usize), usize)>, val: ValueId, def_block: usize)
    -> (r: Option<Vec<(usize, usize)>>)
    requires
        g.wf(),
    ensures
        r is Some <==> uses_ok(*g, allowed@, val, def_block as int),
        r matches Some(sig) ==> sig@ == graph_uses(*g, allowed@, val, g.n()),
{
    let mut result: Vec<(usize, usize)> = Vec::new();
    let mut b: usize = 0;
    while b < g.blocks.len()
        invariant
            g.wf(),
            b <= g.n(),
            result@ == graph_uses(*g, allowed@, val, b as int),
            forall|bb: int, j: int| 0 <= bb < b && 0 <= j < g.blocks@[bb].instructions@.len()
                && #[trigger] reads_of(g.blocks@[bb].instructions@[j]).contains(val)
                ==> bb == def_block && allowed_at(allowed@, bb, j) is Some,
        decreases g.n() - b,
    {
        let instrs = &g.blocks[b].instructions;
        let mut j: usize = 0;
        while j < instrs.len()
            invariant
                g.wf(),
                b < g.n(),
                *instrs == g.blocks@[b as int].instructions,
                j <= instrs@.len(),
                result@ == graph_uses(*g, allowed@, val, b as int) + block_uses(*g, allowed@, val, b as int, j as int),
                forall|bb: int, jj: int| 0 <= bb < b && 0 <= jj < g.blocks@[bb].instructions@.len()
                    && #[trigger] reads_of(g.blocks@[bb].instructions@[jj]).contains(val)
                    ==> bb == def_block && allowed_at(allowed@, bb, jj) is Some,
                forall|jj: int| 0 <= jj < j && #[trigger] reads_of(g.blocks@[b as int].instructions@[jj]).contains(val)
                    ==> b == def_block && allowed_at(allowed@, b as int, jj) is Some,
            decreases instrs@.len() - j,
        {
            let rs = reads(&instrs[j]);
            let mut uses = false;
            let mut i: usize = 0;
            while i < rs.len()
                invariant
                    i <= rs@.len(),
                    uses == rs@.take(i as int).contains(val),
                decreases rs@.len() - i,
            {
                assert(rs@.take(i + 1) == rs@.take(i as int).push(rs@[i as int]));
                if rs[i].0 == val.0 {
                    assert(rs@.take(i + 1)[i as int] == val);
                    uses = true;
                } else {
                    assert(rs@[i as int] != val);
                    proof {
                        if rs@.take(i + 1).contains(val) {
                            let q = choose|q: int| #![trigger rs@.take(i + 1)[q]] 0 <= q < i + 1 && rs@.take(i + 1)[q] == val;
                            assert(rs@.take(i as int)[q] == val);
                        }
                    }
                }
                i += 1;
            }
            assert(rs@.take(rs@.len() as int) == rs@);
            let ghost prefix = result@;
            assert(block_uses(*g, allowed@, val, b as int, j + 1) == block_uses(*g, allowed@, val, b as int, j as int)
                + if rs@.contains(val) { positions_of(rs@, val, allowed_at(allowed@, b as int, j as int)->0, rs@.len() as int) } else { Seq::empty() });
            if uses {
                if b != def_block {
                    return None;
                }
                let cand = match allowed_get(allowed, b, j) {
                    Some(c) => c,
                    None => { return None; }
                };
                let mut i: usize = 0;
                while i < rs.len()
                    invariant
                        i <= rs@.len(),
                        result@ == prefix + positions_of(rs@, val, cand, i as int),
                    decreases rs@.len() - i,
                {
                    if rs[i].0 == val.0 {
                        assert(rs@[i as int] == val);
                        result.push((cand, i));
                        assert(result@ =~= prefix + positions_of(rs@, val, cand, i + 1));
                    } else {
                        assert(rs@[i as int] != val);
                        assert(positions_of(rs@, val, cand, i + 1) =~= positions_of(rs@, val, cand, i as int));
                    }
                    i += 1;
                }
                assert(result@ =~= graph_uses(*g, allowed@, val, b as int) + block_uses(*g, allowed@, val, b as int, j + 1));
            } else {
                assert(block_uses(*g, allowed@, val, b as int, j + 1) =~= block_uses(*g, allowed@, val, b as int, j as int));
            }
            j += 1;
        }
        assert(result@ =~= graph_uses(*g, allowed@, val, b + 1));
        b += 1;
    }
    Some(result)
}

/// A copy of a list of values.
fn copy_vals(s: &Vec<ValueId>) -> (r: Vec<ValueId>)
    ensures
        r@ == s@,
{
    let mut r: Vec<ValueId> = Vec::new();
    let mut i: usize = 0;
    while i < s.len()
        invariant
            i <= s@.len(),
            r@ == s@.take(i as int),
        decreases s@.len() - i,
    {
        r.push(s[i]);
        assert(s@.take(i + 1) == s@.take(i as int).push(s@[i as int]));
        i += 1;
    }
    assert(s@.take(s@.len() as int) == s@);
    r
}

/// Where the instruction that first computes `v` stands (meaningful when it is computed).
pub open spec fn def_pos(g: GraphBuilder, v: ValueId) -> (int, int) {
    choose|p: (int, int)| first_def(g, v, p.0, p.1)
}

/// The values one per block jumping into the target, `values`, can move down
/// together: one is computed (not a constant); each is computed, first, in
/// its own block `jump_blocks[i]`, with no effect but counting, by the same
/// operation on as many inputs; not all those instructions are taken yet;
/// and each value is read only by taken instructions of its block, at the
/// same places in every block.
pub open spec fn make_ok(g: GraphBuilder, jump_blocks: Seq<usize>, allowed: Seq<((usize, usize), usize)>, values: Seq<ValueId>) -> bool {
    let d0 = def_of(g, values[0]);
    &&& values.len() > 0
    &&& exists|i: int| 0 <= i < values.len() && #[trigger] values[i].0 > C_IMIN
    &&& forall|i: int| 0 <= i < values.len() ==> is_computed(g, #[trigger] values[i])
    &&& forall|i: int| 0 <= i < values.len() ==> def_pos(g, #[trigger] values[i]).0 == jump_blocks[i]
    &&& forall|i: int| 0 <= i < values.len() ==>
            (def_of(g, #[trigger] values[i]).effect == OpEffect::Pure || def_of(g, values[i]).effect == OpEffect::CtrIncrement)
    &&& forall|i: int| 0 <= i < values.len() ==>
            def_of(g, #[trigger] values[i]).op == d0.op && def_of(g, values[i]).inputs@.len() == d0.inputs@.len()
    &&& exists|k: int| 0 <= k < values.len() && #[trigger] allowed_at(allowed, def_pos(g, values[k]).0, def_pos(g, values[k]).1) is None
    &&& forall|i: int| 0 <= i < values.len() ==> uses_ok(g, allowed, #[trigger] values[i], jump_blocks[i] as int)
    &&& forall|i: int| 0 <= i < values.len() ==>
            same_uses(graph_uses(g, allowed, values[0], g.n()), graph_uses(g, allowed, #[trigger] values[i], g.n()))
}

/// The candidate that `values` make: their defining instructions, the
/// common operation, and for each operand the values the blocks pass.
pub open spec fn candidate_of(g: GraphBuilder, values: Seq<ValueId>, c: DownCandidate) -> bool {
    let d0 = def_of(g, values[0]);
    &&& c.out_vals@ == values
    &&& c.op == d0.op
    &&& c.program_position == d0.program_position
    &&& c.source_instrs@.len() == values.len()
    &&& forall|i: int| 0 <= i < values.len() ==>
            (#[trigger] c.source_instrs@[i]).0 as int == def_pos(g, values[i]).0 && c.source_instrs@[i].1 as int == def_pos(g, values[i]).1
    &&& c.arg_values@.len() == d0.inputs@.len()
    &&& forall|a: int| 0 <= a < c.arg_values@.len() ==> (#[trigger] c.arg_values@[a])@.len() == values.len()
    &&& forall|a: int, k: int| 0 <= a < c.arg_values@.len() && 0 <= k < values.len() ==>
            (#[trigger] c.arg_values@[a]@[k]) == def_of(g, values[k]).inputs@[a]
}

/// Tries to make a candidate of the values that the blocks jumping into the
/// target pass, one per block (see `make_ok`).
fn try_make_candidate(
    g: &GraphBuilder,
    jump_blocks: &Vec<usize>,
    allowed: &Vec<((usize, usize), usize)>,
    values: &Vec<ValueId>,
) -> (r: Option<(DownCandidate, usize)>)
    requires
        g.wf(),
        values@.len() == jump_blocks@.len(),
    ensures
        r is Some <==> make_ok(*g, jump_blocks@, allowed@, values@),
        r matches Some((c, f)) ==> {
            &&& candidate_of(*g, values@, c)
            &&& forall|k: int| 0 <= k < c.source_instrs@.len() ==>
                    (#[trigger] c.source_instrs@[k]).0 < g.n() && c.source_instrs@[k].1 < g.blocks@[c.source_instrs@[k].0 as int].instructions@.len()
            &&& f < c.source_instrs@.len()
            &&& forall|q: int| 0 <= q < allowed@.len() ==> (#[trigger] allowed@[q]).0 != c.source_instrs@[f as int]
        },
{
    let ghost gv = *g;
    let mut any_computed = false;
    let mut i: usize = 0;
    while i < values.len()
        invariant
            i <= values@.len(),
            any_computed == exists|k: int| 0 <= k < i && #[trigger] values@[k].0 > C_IMIN,
        decreases values@.len() - i,
    {
        if values[i].0 > C_IMIN {
            assert(values@[i as int].0 > C_IMIN);
            any_computed = true;
        }
        i += 1;
    }
    if !any_computed || values.len() == 0 {
        return None;
    }
    let mut srcs: Vec<(usize, usize)> = Vec::new();
    let mut op = OptOp::BinNot;
    let mut arity: usize = 0;
    let mut pred_ix: usize = 0;
    while pred_ix < values.len()
        invariant
            g.wf(),
            values@.len() == jump_blocks@.len(),
            values@.len() > 0,
            pred_ix <= values@.len(),
            srcs@.len() == pred_ix,
            forall|k: int| 0 <= k < srcs@.len() ==>
                (#[trigger] srcs@[k]).0 < g.n() && srcs@[k].1 < g.blocks@[srcs@[k].0 as int].instructions@.len(),
            forall|k: int| 0 <= k < pred_ix ==> {
                &&& is_computed(*g, #[trigger] values@[k])
                &&& def_pos(*g, values@[k]) == (srcs@[k].0 as int, srcs@[k].1 as int)
                &&& def_pos(*g, values@[k]).0 == jump_blocks@[k]
                &&& (def_of(*g, values@[k]).effect == OpEffect::Pure || def_of(*g, values@[k]).effect == OpEffect::CtrIncrement)
                &&& def_of(*g, values@[k]).op == op && def_of(*g, values@[k]).inputs@.len() == arity
            },
            pred_ix > 0 ==> op == def_of(*g, values@[0]).op && arity == def_of(*g, values@[0]).inputs@.len(),
        decreases values@.len() - pred_ix,
    {
        let v = values[pred_ix];
        let (b, j) = match g.get_defined_at(v) {
            Some(p) => p,
            None => { return None; }
        };
        proof {
            let p = def_pos(*g, v);
            assert(first_def(*g, v, b as int, j as int));
            lemma_first_def_unique(*g, v, p.0, p.1, b as int, j as int);
            assert(computes(*g, b as int, j as int, v));
        }
        if b != jump_blocks[pred_ix] {
            return None;
        }
        let ins = &g.blocks[b].instructions[j];
        assert(def_of(*g, v) == *ins);
        if !(ins.effect == OpEffect::Pure || ins.effect == OpEffect::CtrIncrement) {
            return None;
        }
        if pred_ix == 0 {
            op = ins.op;
            arity = ins.inputs.len();
        } else if ins.op != op || ins.inputs.len() != arity {
            return None;
        }
        srcs.push((b, j));
        pred_ix += 1;
    }
    let mut fresh = false;
    let mut fk: usize = 0;
    let mut k: usize = 0;
    while k < srcs.len()
        invariant
            k <= srcs@.len(),
            fresh ==> fk < srcs@.len()
                && allowed_at(allowed@, srcs@[fk as int].0 as int, srcs@[fk as int].1 as int) is None
                && forall|q: int| 0 <= q < allowed@.len() ==> (#[trigger] allowed@[q]).0 != srcs@[fk as int],
            !fresh ==> forall|q: int| 0 <= q < k ==> allowed_at(allowed@, (#[trigger] srcs@[q]).0 as int, srcs@[q].1 as int) is Some,
        decreases srcs@.len() - k,
    {
        let found = allowed_get(allowed, srcs[k].0, srcs[k].1).is_some();
        if !found && !fresh {
            proof {
                lemma_allowed_at(allowed@, srcs@[k as int].0 as int, srcs@[k as int].1 as int, 0);
                assert forall|q: int| 0 <= q < allowed@.len() implies (#[trigger] allowed@[q]).0 != srcs@[k as int] by {
                    if allowed@[q].0 == srcs@[k as int] {
                        assert(allowed@[q].0.0 == srcs@[k as int].0 && allowed@[q].0.1 == srcs@[k as int].1);
                    }
                }
            }
            fresh = true;
            fk = k;
        }
        k += 1;
    }
    if !fresh {
        proof {
            assert forall|q: int| 0 <= q < values@.len() implies
                !(allowed_at(allowed@, def_pos(*g, #[trigger] values@[q]).0, def_pos(*g, values@[q]).1) is None) by {
                assert(def_pos(*g, values@[q]) == (srcs@[q].0 as int, srcs@[q].1 as int));
            }
        }
        return None;
    }
    let s0 = match usage_signature(g, allowed, values[0], srcs[0].0) {
        Some(s) => s,
        None => {
            assert(!uses_ok(*g, allowed@, values@[0], jump_blocks@[0] as int));
            return None;
        }
    };
    assert forall|k: int| 0 <= k < values@.len() implies srcs@[k].0 == jump_blocks@[k] by {
        assert(is_computed(*g, values@[k]));
    }
    let mut i: usize = 1;
    while i < values.len()
        invariant
            g.wf(),
            values@.len() == srcs@.len(),
            values@.len() == jump_blocks@.len(),
            1 <= i,
            s0@ == graph_uses(*g, allowed@, values@[0], g.n()),
            uses_ok(*g, allowed@, values@[0], jump_blocks@[0] as int),
            forall|k: int| 0 <= k < values@.len() ==> srcs@[k].0 == jump_blocks@[k],
            forall|k: int| 1 <= k < i && k < values@.len() ==> uses_ok(*g, allowed@, #[trigger] values@[k], jump_blocks@[k] as int)
                && same_uses(s0@, graph_uses(*g, allowed@, values@[k], g.n())),
        decreases values@.len() - i,
    {
        let si = match usage_signature(g, allowed, values[i], srcs[i].0) {
            Some(s) => s,
            None => {
                assert(!uses_ok(*g, allowed@, values@[i as int], jump_blocks@[i as int] as int));
                return None;
            }
        };
        if !same_uses_exec(&s0, &si) {
            assert(!same_uses(graph_uses(*g, allowed@, values@[0], g.n()), graph_uses(*g, allowed@, values@[i as int], g.n())));
            return None;
        }
        i += 1;
    }
    let mut arg_values: Vec<Vec<ValueId>> = Vec::new();
    let mut a: usize = 0;
    while a < arity
        invariant
            g.wf(),
            srcs@.len() == values@.len(),
            values@.len() > 0,
            a <= arity,
            arity == def_of(*g, values@[0]).inputs@.len(),
            arg_values@.len() == a,
            forall|k: int| 0 <= k < srcs@.len() ==>
                (#[trigger] srcs@[k]).0 < g.n() && srcs@[k].1 < g.blocks@[srcs@[k].0 as int].instructions@.len(),
            forall|k: int| 0 <= k < values@.len() ==> {
                &&& def_pos(*g, #[trigger] values@[k]) == (srcs@[k].0 as int, srcs@[k].1 as int)
                &&& def_of(*g, values@[k]).inputs@.len() == arity
            },
            forall|aa: int| 0 <= aa < a ==> (#[trigger] arg_values@[aa])@.len() == values@.len(),
            forall|aa: int, k: int| 0 <= aa < a && 0 <= k < values@.len() ==>
                (#[trigger] arg_values@[aa]@[k]) == def_of(*g, values@[k]).inputs@[aa],
        decreases arity - a,
    {
        let mut col: Vec<ValueId> = Vec::new();
        let mut k: usize = 0;
        while k < srcs.len()
            invariant
                g.wf(),
                a < arity,
                srcs@.len() == values@.len(),
                k <= srcs@.len(),
                col@.len() == k,
                forall|k: int| 0 <= k < srcs@.len() ==>
                    (#[trigger] srcs@[k]).0 < g.n() && srcs@[k].1 < g.blocks@[srcs@[k].0 as int].instructions@.len(),
                forall|k: int| 0 <= k < values@.len() ==> {
                    &&& def_pos(*g, #[trigger] values@[k]) == (srcs@[k].0 as int, srcs@[k].1 as int)
                    &&& def_of(*g, values@[k]).inputs@.len() == arity
                },
                forall|q: int| 0 <= q < k ==> #[trigger] col@[q] == def_of(*g, values@[q]).inputs@[a as int],
            decreases srcs@.len() - k,
        {
            let ins = &g.blocks[srcs[k].0].instructions[srcs[k].1];
            assert(def_of(*g, values@[k as int]) == *ins);
            col.push(ins.inputs[a]);
            k += 1;
        }
        arg_values.push(col);
        a += 1;
    }
    let program_position = g.blocks[srcs[0].0].instructions[srcs[0].1].program_position;
    assert(def_of(*g, values@[0]) == g.blocks@[srcs@[0].0 as int].instructions@[srcs@[0].1 as int]);
    let out_vals = copy_vals(values);
    let cand = DownCandidate { op, out_vals, source_instrs: srcs, arg_values, program_position };
    proof {
        assert(make_ok(*g, jump_blocks@, allowed@, values@)) by {
            assert(values@[fk as int].0 >= 0);
            assert(def_pos(*g, values@[fk as int]) == (cand.source_instrs@[fk as int].0 as int, cand.source_instrs@[fk as int].1 as int));
            assert(allowed_at(allowed@, def_pos(*g, values@[fk as int]).0, def_pos(*g, values@[fk as int]).1) is None);
            assert forall|q: int| 0 <= q < values@.len() implies
                same_uses(graph_uses(*g, allowed@, values@[0], g.n()), graph_uses(*g, allowed@, #[trigger] values@[q], g.n())) by {
                if q == 0 {
                    assert forall|x: (usize, usize)| #[trigger] occ(s0@, x) == occ(s0@, x) by {}
                }
            }
        }
    }
    Some((cand, fk))
}

/// What moving an instruction down costs in new values: its result and one
/// parameter per operand at most.
pub open spec fn weight(ins: OptInstr) -> nat {
    1 + ins.inputs@.len()
}

/// The weight of the instructions whose entries of the row are not set.
pub open spec fn row_free(r: Seq<bool>, ins: Seq<OptInstr>) -> nat
    decreases r.len(),
{
    if r.len() == 0 {
        0
    } else {
        row_free(r.drop_last(), ins) + if r.last() { 0nat } else { weight(ins[r.len() - 1]) }
    }
}

/// The weight of the instructions of the blocks whose entries are not set.
pub open spec fn free_count(m: Seq<Vec<bool>>, blocks: Seq<BasicBlock>) -> nat
    decreases m.len(),
{
    if m.len() == 0 { 0 } else { free_count(m.drop_last(), blocks) + row_free(m.last()@, blocks[m.len() - 1].instructions@) }
}

/// The weight of the instructions of a block.
pub open spec fn row_total(ins: Seq<OptInstr>) -> nat
    decreases ins.len(),
{
    if ins.len() == 0 { 0 } else { row_total(ins.drop_last()) + weight(ins.last()) }
}

/// The weight of the first `n` blocks' instructions.
pub open spec fn blocks_total(blocks: Seq<BasicBlock>, n: int) -> nat
    decreases n,
{
    if n <= 0 { 0 } else { blocks_total(blocks, n - 1) + row_total(blocks[n - 1].instructions@) }
}

/// The weight of all the instructions of the graph: a bound on the values
/// that moving computations down can need.
pub open spec fn input_total(g: GraphBuilder) -> nat {
    blocks_total(g.blocks@, g.blocks@.len() as int)
}

/// A row with nothing set weighs its instructions.
proof fn lemma_row_unset(r: Seq<bool>, ins: Seq<OptInstr>)
    requires
        r.len() == ins.len(),
        forall|j: int| 0 <= j < r.len() ==> !#[trigger] r[j],
    ensures
        row_free(r, ins) == row_total(ins),
    decreases r.len(),
{
    if r.len() > 0 {
        lemma_row_unset(r.drop_last(), ins.drop_last());
        lemma_row_same(r.drop_last(), ins, ins.drop_last());
        assert(!r[r.len() - 1]);
    }
}

/// The weight of a row looks only at the instructions it has entries for.
proof fn lemma_row_same(r: Seq<bool>, ins: Seq<OptInstr>, ins2: Seq<OptInstr>)
    requires
        r.len() <= ins.len(),
        r.len() <= ins2.len(),
        forall|j: int| 0 <= j < r.len() ==> ins[j] == ins2[j],
    ensures
        row_free(r, ins) == row_free(r, ins2),
    decreases r.len(),
{
    if r.len() > 0 {
        lemma_row_same(r.drop_last(), ins, ins2);
        assert(ins[r.len() - 1] == ins2[r.len() - 1]);
    }
}

/// Rows with nothing set weigh the instructions of their blocks.
proof fn lemma_free_unset(m: Seq<Vec<bool>>, blocks: Seq<BasicBlock>)
    requires
        m.len() <= blocks.len(),
        forall|q: int| 0 <= q < m.len() ==> (#[trigger] m[q])@.len() == blocks[q].instructions@.len(),
        forall|q: int, jj: int| 0 <= q < m.len() && 0 <= jj < m[q]@.len() ==> !#[trigger] m[q]@[jj],
    ensures
        free_count(m, blocks) == blocks_total(blocks, m.len() as int),
    decreases m.len(),
{
    if m.len() > 0 {
        let l = m.len() - 1;
        lemma_free_unset(m.drop_last(), blocks);
        assert forall|jj: int| 0 <= jj < m[l]@.len() implies !#[trigger] m[l]@[jj] by {}
        lemma_row_unset(m.last()@, blocks[l].instructions@);
    }
}

/// Setting an unset entry of a row lowers its weight by that of the instruction.
proof fn lemma_row_flip(r: Seq<bool>, ins: Seq<OptInstr>, j: int)
    requires
        0 <= j < r.len(),
        !r[j],
    ensures
        row_free(r.update(j, true), ins) + weight(ins[j]) == row_free(r, ins),
    decreases r.len(),
{
    if j == r.len() - 1 {
        assert(r.update(j, true).drop_last() == r.drop_last());
    } else {
        lemma_row_flip(r.drop_last(), ins, j);
        assert(r.update(j, true).drop_last() == r.drop_last().update(j, true));
    }
}

/// Setting an unset entry lowers the weight of the rows by that of the instruction.
proof fn lemma_free_flip(m: Seq<Vec<bool>>, m2: Seq<Vec<bool>>, blocks: Seq<BasicBlock>, b: int, j: int)
    requires
        0 <= b < m.len(),
        m2.len() == m.len(),
        forall|k: int| 0 <= k < m.len() && k != b ==> #[trigger] m2[k] == m[k],
        0 <= j < m[b]@.len(),
        !m[b]@[j],
        m2[b]@ == m[b]@.update(j, true),
    ensures
        free_count(m2, blocks) + weight(blocks[b].instructions@[j]) == free_count(m, blocks),
    decreases m.len(),
{
    if b == m.len() - 1 {
        assert(m2.drop_last() =~= m.drop_last()) by {
            assert forall|k: int| 0 <= k < m.len() - 1 implies m2.drop_last()[k] == m.drop_last()[k] by {
                assert(m2[k] == m[k]);
            }
        }
        lemma_row_flip(m[b]@, blocks[b].instructions@, j);
    } else {
        assert forall|k: int| 0 <= k < m.drop_last().len() && k != b implies #[trigger] m2.drop_last()[k] == m.drop_last()[k] by {
            assert(m2[k] == m[k]);
        }
        lemma_free_flip(m.drop_last(), m2.drop_last(), blocks, b, j);
        assert(m2.last() == m.last()) by { assert(m2[m.len() - 1] == m[m.len() - 1]); }
    }
}

/// The new values the candidates can need: one result and one parameter per operand each.
pub open spec fn need_sum(cands: Seq<DownCandidate>) -> nat
    decreases cands.len(),
{
    if cands.len() == 0 { 0 } else { need_sum(cands.drop_last()) + 1 + cands.last().arg_values@.len() }
}

/// A prefix of the candidates needs no more than all of them.
proof fn lemma_need_prefix(cands: Seq<DownCandidate>, c: int)
    requires
        0 <= c <= cands.len(),
    ensures
        need_sum(cands.take(c)) <= need_sum(cands),
    decreases cands.len(),
{
    if c < cands.len() {
        lemma_need_prefix(cands.drop_last(), c);
        assert(cands.drop_last().take(c) == cands.take(c));
    } else {
        assert(cands.take(c) == cands);
    }
}

/// The blocks of the jumps.
pub open spec fn jump_blocks_of(jumps: Seq<(usize, usize)>) -> Seq<usize> {
    jumps.map_values(|p: (usize, usize)| p.0)
}

/// The jumps, taken before any candidate.
pub open spec fn allowed0(jumps: Seq<(usize, usize)>) -> Seq<((usize, usize), usize)> {
    jumps.map_values(|p: (usize, usize)| (p, usize::MAX))
}

/// The values the jumps pass for parameter `pi`, one per jump.
pub open spec fn param_args(g: GraphBuilder, jumps: Seq<(usize, usize)>, pi: int) -> Seq<ValueId> {
    Seq::new(jumps.len(), |k: int| g.blocks@[jumps[k].0 as int].instructions@[jumps[k].1 as int].inputs@[pi])
}

/// Parameter `pi` starts a candidate, and no later parameter does.
pub open spec fn first_start(g: GraphBuilder, jumps: Seq<(usize, usize)>, nparams: int, pi: int) -> bool {
    &&& 0 <= pi < nparams
    &&& make_ok(g, jump_blocks_of(jumps), allowed0(jumps), param_args(g, jumps, pi))
    &&& forall|pj: int| pi < pj < nparams ==> !#[trigger] make_ok(g, jump_blocks_of(jumps), allowed0(jumps), param_args(g, jumps, pj))
}

/// All computations that can move down into the target, found by following
/// the operands of the parameters' values, transitively. There is one
/// exactly when the values passed for some parameter make a candidate; the
/// first is made of the last such parameter.
fn find_down_hoist_candidates(g: &GraphBuilder, jumps: &Vec<(usize, usize)>, nparams: usize) -> (r: Vec<DownCandidate>)
    requires
        g.wf(),
        forall|k: int| 0 <= k < jumps@.len() ==>
            (#[trigger] jumps@[k]).0 < g.n() && jumps@[k].1 < g.blocks@[jumps@[k].0 as int].instructions@.len()
            && g.blocks@[jumps@[k].0 as int].instructions@[jumps@[k].1 as int].inputs@.len() == nparams,
    ensures
        r@.len() > 0 <==> exists|pi: int| 0 <= pi < nparams
            && #[trigger] make_ok(*g, jump_blocks_of(jumps@), allowed0(jumps@), param_args(*g, jumps@, pi)),
        r@.len() > 0 ==> exists|pi: int| #[trigger] first_start(*g, jumps@, nparams as int, pi)
            && candidate_of(*g, param_args(*g, jumps@, pi), r@[0]),
        need_sum(r@) <= input_total(*g),
        forall|c: int| 0 <= c < r@.len() ==> {
            &&& candidate_of(*g, (#[trigger] r@[c]).out_vals@, r@[c])
            &&& r@[c].source_instrs@.len() == jumps@.len()
            &&& forall|k: int| 0 <= k < r@[c].source_instrs@.len() ==>
                    (#[trigger] r@[c].source_instrs@[k]).0 < g.n()
                    && r@[c].source_instrs@[k].1 < g.blocks@[r@[c].source_instrs@[k].0 as int].instructions@.len()
        },
{
    let mut jump_blocks: Vec<usize> = Vec::new();
    let mut allowed: Vec<((usize, usize), usize)> = Vec::new();
    let mut k: usize = 0;
    while k < jumps.len()
        invariant
            k <= jumps@.len(),
            jump_blocks@ == jump_blocks_of(jumps@.take(k as int)),
            allowed@ == allowed0(jumps@.take(k as int)),
        decreases jumps@.len() - k,
    {
        jump_blocks.push(jumps[k].0);
        allowed.push((jumps[k], usize::MAX));
        assert(jumps@.take(k + 1) == jumps@.take(k as int).push(jumps@[k as int]));
        assert(jump_blocks@ =~= jump_blocks_of(jumps@.take(k + 1)));
        assert(allowed@ =~= allowed0(jumps@.take(k + 1)));
        k += 1;
    }
    assert(jumps@.take(jumps@.len() as int) == jumps@);
    let mut queue: Vec<Vec<ValueId>> = Vec::new();
    let mut pi: usize = 0;
    while pi < nparams
        invariant
            pi <= nparams,
            queue@.len() == pi,
            forall|q: int| 0 <= q < pi ==> (#[trigger] queue@[q])@ == param_args(*g, jumps@, q),
            forall|k: int| 0 <= k < jumps@.len() ==>
                (#[trigger] jumps@[k]).0 < g.n() && jumps@[k].1 < g.blocks@[jumps@[k].0 as int].instructions@.len()
                && g.blocks@[jumps@[k].0 as int].instructions@[jumps@[k].1 as int].inputs@.len() == nparams,
            g.wf(),
        decreases nparams - pi,
    {
        let mut vals: Vec<ValueId> = Vec::new();
        let mut k: usize = 0;
        while k < jumps.len()
            invariant
                pi < nparams,
                vals@.len() == k,
                k <= jumps@.len(),
                forall|q: int| 0 <= q < k ==> #[trigger] vals@[q] == param_args(*g, jumps@, pi as int)[q],
                forall|k: int| 0 <= k < jumps@.len() ==>
                    (#[trigger] jumps@[k]).0 < g.n() && jumps@[k].1 < g.blocks@[jumps@[k].0 as int].instructions@.len()
                    && g.blocks@[jumps@[k].0 as int].instructions@[jumps@[k].1 as int].inputs@.len() == nparams,
                g.wf(),
            decreases jumps@.len() - k,
        {
            let ins = &g.blocks[jumps[k].0].instructions[jumps[k].1];
            vals.push(ins.inputs[pi]);
            k += 1;
        }
        assert(vals@ =~= param_args(*g, jumps@, pi as int));
        queue.push(vals);
        pi += 1;
    }

    let mut claimed: Vec<Vec<bool>> = Vec::new();
    let mut b: usize = 0;
    while b < g.blocks.len()
        invariant
            g.wf(),
            b <= g.n(),
            claimed@.len() == b,
            forall|q: int| 0 <= q < b ==> (#[trigger] claimed@[q])@.len() == g.blocks@[q].instructions@.len(),
            forall|q: int, jj: int| 0 <= q < b && 0 <= jj < claimed@[q]@.len() ==> !#[trigger] claimed@[q]@[jj],
        decreases g.n() - b,
    {
        let mut row: Vec<bool> = Vec::new();
        let mut j: usize = 0;
        while j < g.blocks[b].instructions.len()
            invariant
                b < g.n(),
                row@.len() == j,
                forall|jj: int| 0 <= jj < j ==> !#[trigger] row@[jj],
                j <= g.blocks@[b as int].instructions@.len(),
            decreases g.blocks@[b as int].instructions@.len() - j,
        {
            row.push(false);
            j += 1;
        }
        claimed.push(row);
        b += 1;
    }
    proof { lemma_free_unset(claimed@, g.blocks@); }

    let ghost mut m: int = nparams as int;
    let ghost mut pstar: int = 0;
    let mut candidates: Vec<DownCandidate> = Vec::new();
    while queue.len() > 0
        invariant
            g.wf(),
            jump_blocks@ == jump_blocks_of(jumps@),
            jump_blocks@.len() == jumps@.len(),
            forall|q: int| 0 <= q < queue@.len() ==> (#[trigger] queue@[q])@.len() == jumps@.len(),
            claimed@.len() == g.n(),
            forall|q: int| 0 <= q < g.n() ==> (#[trigger] claimed@[q])@.len() == g.blocks@[q].instructions@.len(),
            forall|bb: int, jj: int| 0 <= bb < g.n() && 0 <= jj < g.blocks@[bb].instructions@.len() && #[trigger] claimed@[bb]@[jj]
                ==> exists|q: int| 0 <= q < allowed@.len() && (#[trigger] allowed@[q]).0 == (bb as usize, jj as usize),
            candidates@.len() == 0 ==> {
                &&& allowed@ == allowed0(jumps@)
                &&& 0 <= m <= nparams
                &&& queue@.len() == m
                &&& forall|q: int| 0 <= q < m ==> (#[trigger] queue@[q])@ == param_args(*g, jumps@, q)
                &&& forall|pj: int| m <= pj < nparams ==> !#[trigger] make_ok(*g, jump_blocks_of(jumps@), allowed0(jumps@), param_args(*g, jumps@, pj))
            },
            candidates@.len() > 0 ==> first_start(*g, jumps@, nparams as int, pstar)
                && candidate_of(*g, param_args(*g, jumps@, pstar), candidates@[0]),
            need_sum(candidates@) + free_count(claimed@, g.blocks@) <= input_total(*g),
            forall|c: int| 0 <= c < candidates@.len() ==> {
                &&& candidate_of(*g, (#[trigger] candidates@[c]).out_vals@, candidates@[c])
                &&& candidates@[c].source_instrs@.len() == jumps@.len()
                &&& forall|k: int| 0 <= k < candidates@[c].source_instrs@.len() ==>
                        (#[trigger] candidates@[c].source_instrs@[k]).0 < g.n()
                        && candidates@[c].source_instrs@[k].1 < g.blocks@[candidates@[c].source_instrs@[k].0 as int].instructions@.len()
            },
        decreases free_count(claimed@, g.blocks@), queue@.len(),
    {
        let ghost q0 = queue@;
        let values = queue.pop().unwrap();
        proof {
            if candidates@.len() == 0 {
                assert(values@ == param_args(*g, jumps@, m - 1));
                m = m - 1;
                assert forall|q: int| 0 <= q < m implies (#[trigger] queue@[q])@ == param_args(*g, jumps@, q) by {
                    assert(queue@[q] == q0[q]);
                }
            }
            assert forall|q: int| 0 <= q < queue@.len() implies (#[trigger] queue@[q])@.len() == jumps@.len() by {
                assert(queue@[q] == q0[q]);
            }
            assert(values@.len() == jumps@.len()) by { assert(values == q0[q0.len() - 1]); }
        }
        let res = try_make_candidate(g, &jump_blocks, &allowed, &values);
        match res {
            None => {}
            Some((cand, fresh_ix)) => {
                proof {
                    if candidates@.len() == 0 {
                        pstar = m;
                    }
                }
                let ghost start = free_count(claimed@, g.blocks@);
                let ghost start_claimed = claimed@;
                let ghost fk = fresh_ix as int;
                let ghost fb = cand.source_instrs@[fk].0 as int;
                let ghost fj = cand.source_instrs@[fk].1 as int;
                let ghost wf = weight(g.blocks@[fb].instructions@[fj]);
                assert(wf == 1 + cand.arg_values@.len()) by {
                    assert(def_pos(*g, values@[fk]) == (fb, fj));
                    assert(def_of(*g, values@[fk]) == g.blocks@[fb].instructions@[fj]);
                }
                assert(0 <= fk < cand.source_instrs@.len());
                assert(!claimed@[fb]@[fj]) by {
                    if claimed@[fb]@[fj] {
                        let q = choose|q: int| 0 <= q < allowed@.len() && (#[trigger] allowed@[q]).0 == (fb as usize, fj as usize);
                        assert(allowed@[q].0 != cand.source_instrs@[fk]);
                        assert((fb as usize, fj as usize) == cand.source_instrs@[fk]);
                    }
                }
                let cid = candidates.len();
                let mut k: usize = 0;
                while k < cand.source_instrs.len()
                    invariant
                        g.wf(),
                        claimed@.len() == g.n(),
                        forall|q: int| 0 <= q < g.n() ==> (#[trigger] claimed@[q])@.len() == g.blocks@[q].instructions@.len(),
                        !claimed@[fb]@[fj] ==> free_count(claimed@, g.blocks@) <= start,
                        claimed@[fb]@[fj] ==> free_count(claimed@, g.blocks@) + wf <= start,
                        wf == weight(g.blocks@[fb].instructions@[fj]),
                        0 <= fk < cand.source_instrs@.len(),
                        fb == cand.source_instrs@[fk].0, fj == cand.source_instrs@[fk].1,
                        !start_claimed[fb]@[fj],
                        fk < k ==> claimed@[fb]@[fj],
                        forall|k: int| 0 <= k < cand.source_instrs@.len() ==>
                            (#[trigger] cand.source_instrs@[k]).0 < g.n() && cand.source_instrs@[k].1 < g.blocks@[cand.source_instrs@[k].0 as int].instructions@.len(),
                        forall|bb: int, jj: int| 0 <= bb < g.n() && 0 <= jj < g.blocks@[bb].instructions@.len() && #[trigger] claimed@[bb]@[jj]
                            ==> exists|q: int| 0 <= q < allowed@.len() && (#[trigger] allowed@[q]).0 == (bb as usize, jj as usize),
                    decreases cand.source_instrs@.len() - k,
                {
                    let (sb, sj) = cand.source_instrs[k];
                    let ghost old_allowed = allowed@;
                    let ghost old_claimed = claimed@;
                    allowed.push(((sb, sj), cid));
                    assert(allowed@[allowed@.len() - 1].0 == (sb, sj));
                    if !claimed[sb][sj] {
                        let ghost mm = claimed@;
                        claimed[sb].set(sj, true);
                        proof {
                            lemma_free_flip(mm, claimed@, g.blocks@, sb as int, sj as int);
                            if sb as int != fb || sj as int != fj {
                                assert(claimed@[fb]@[fj] == mm[fb]@[fj]);
                            }
                        }
                    }
                    proof {
                        assert forall|bb: int, jj: int| 0 <= bb < g.n() && 0 <= jj < g.blocks@[bb].instructions@.len() && #[trigger] claimed@[bb]@[jj]
                            implies exists|q: int| 0 <= q < allowed@.len() && (#[trigger] allowed@[q]).0 == (bb as usize, jj as usize) by {
                            if bb == sb && jj == sj {
                                assert(allowed@[allowed@.len() - 1].0 == (bb as usize, jj as usize));
                            } else {
                                assert(old_claimed[bb]@[jj]);
                                let q = choose|q: int| 0 <= q < old_allowed.len() && (#[trigger] old_allowed[q]).0 == (bb as usize, jj as usize);
                                assert(allowed@[q] == old_allowed[q]);
                            }
                        }
                    }
                    k += 1;
                }
                assert(free_count(claimed@, g.blocks@) + 1 + cand.arg_values@.len() <= start);
                let ghost qa = queue@;
                let mut a: usize = 0;
                while a < cand.arg_values.len()
                    invariant
                        forall|q: int| 0 <= q < queue@.len() ==> (#[trigger] queue@[q])@.len() == jumps@.len(),
                        cand.source_instrs@.len() == jumps@.len(),
                    decreases cand.arg_values@.len() - a,
                {
                    if !all_same(&cand.arg_values[a]) && cand.arg_values[a].len() == jumps.len() {
                        queue.push(copy_vals(&cand.arg_values[a]));
                    }
                    a += 1;
                }
                let ghost before = candidates@;
                candidates.push(cand);
                proof {
                    assert(candidates@.drop_last() == before);
                    assert forall|c: int| 0 <= c < candidates@.len() implies {
                        &&& candidate_of(*g, (#[trigger] candidates@[c]).out_vals@, candidates@[c])
                        &&& candidates@[c].source_instrs@.len() == jumps@.len()
                        &&& forall|k: int| 0 <= k < candidates@[c].source_instrs@.len() ==>
                                (#[trigger] candidates@[c].source_instrs@[k]).0 < g.n()
                                && candidates@[c].source_instrs@[k].1 < g.blocks@[candidates@[c].source_instrs@[k].0 as int].instructions@.len()
                    } by {
                        if c < before.len() { assert(candidates@[c] == before[c]); }
                    }
                    if before.len() > 0 {
                        assert(candidates@[0] == before[0]);
                    }
                }
            }
        }
    }
    proof {
        if candidates@.len() == 0 {
            assert forall|pi: int| 0 <= pi < nparams implies
                !#[trigger] make_ok(*g, jump_blocks_of(jumps@), allowed0(jumps@), param_args(*g, jumps@, pi)) by {}
        } else {
            assert(make_ok(*g, jump_blocks_of(jumps@), allowed0(jumps@), param_args(*g, jumps@, pstar)));
        }
    }
    candidates
}

/// Editing one block but its id and jumps keeps the jumps.
proof fn lemma_block_edit(a: GraphBuilder, before: GraphBuilder, after: GraphBuilder, b: int)
    requires
        keeps_jumps(a, before),
        after.blocks@.len() == before.blocks@.len(),
        forall|k: int| 0 <= k < before.blocks@.len() && k != b ==> #[trigger] after.blocks@[k] == before.blocks@[k],
        0 <= b < before.blocks@.len() ==> {
            &&& after.blocks@[b].id == before.blocks@[b].id
            &&& after.blocks@[b].incoming_jumps == before.blocks@[b].incoming_jumps
            &&& after.blocks@[b].outgoing_jumps == before.blocks@[b].outgoing_jumps
        },
        after.values == before.values,
        after.current_block == before.current_block,
    ensures
        keeps_jumps(a, after),
{
    assert forall|k: int| 0 <= k < a.blocks@.len() implies {
        &&& (#[trigger] after.blocks@[k]).id == a.blocks@[k].id
        &&& after.blocks@[k].incoming_jumps == a.blocks@[k].incoming_jumps
        &&& after.blocks@[k].outgoing_jumps == a.blocks@[k].outgoing_jumps
    } by {
        assert(before.blocks@[k].id == a.blocks@[k].id);
    }
}

/// Adding a value at the end keeps the jumps.
proof fn lemma_value_push(a: GraphBuilder, before: GraphBuilder, after: GraphBuilder)
    requires
        keeps_jumps(a, before),
        after.blocks == before.blocks,
        after.values@ == before.values@.push(after.values@.last()),
        after.values@.last().id == ValueId(before.values@.len() as u32),
        after.values@.len() <= u32::MAX,
        after.current_block == before.current_block,
    ensures
        keeps_jumps(a, after),
{
    assert forall|k: int| 0 <= k < a.blocks@.len() implies {
        &&& (#[trigger] after.blocks@[k]).id == a.blocks@[k].id
        &&& after.blocks@[k].incoming_jumps == a.blocks@[k].incoming_jumps
        &&& after.blocks@[k].outgoing_jumps == a.blocks@[k].outgoing_jumps
    } by {
        assert(before.blocks@[k].id == a.blocks@[k].id);
    }
    assert forall|v: int| 0 <= v < a.values@.len() implies #[trigger] after.values@[v] == a.values@[v] by {
        assert(before.values@[v] == a.values@[v]);
    }
    assert forall|v: int| a.values@.len() <= v < after.values@.len() implies #[trigger] after.values@[v].id == ValueId(v as u32) by {
        if v < before.values@.len() { assert(after.values@[v] == before.values@[v]); }
    }
}

/// The value `val` was replaced by, if it was.
fn lookup(map: &Vec<(ValueId, ValueId)>, val: ValueId) -> Option<ValueId> {
    let mut i: usize = 0;
    while i < map.len()
        decreases map@.len() - i,
    {
        if map[i].0.0 == val.0 {
            return Some(map[i].1);
        }
        i += 1;
    }
    None
}

/// Whether the list holds the value.
fn holds_value(s: &Vec<ValueId>, val: ValueId) -> bool {
    let mut i: usize = 0;
    while i < s.len()
        decreases s@.len() - i,
    {
        if s[i].0 == val.0 {
            return true;
        }
        i += 1;
    }
    false
}

/// Jump `id` passes `v` for parameter `pi`.
pub open spec fn passes(g: GraphBuilder, id: InstrId, pi: int, v: ValueId) -> bool {
    let p = jump_at(g, id);
    &&& found(g, id)
    &&& 0 <= pi < g.blocks@[p.0 as int].instructions@[p.1 as int].inputs@.len()
    &&& g.blocks@[p.0 as int].instructions@[p.1 as int].inputs@[pi] == v
}

/// Every jump of `incoming` passes its value of `vals` for parameter `pi`.
pub open spec fn param_filled(g: GraphBuilder, incoming: Seq<InstrId>, vals: Seq<ValueId>, pi: int) -> bool {
    forall|k: int| 0 <= k < incoming.len() ==> passes(g, #[trigger] incoming[k], pi, vals[k])
}

/// Parameter `pi` of block `t` is the first that the jumps fill with `vals`.
pub open spec fn least_filled(g: GraphBuilder, t: int, incoming: Seq<InstrId>, vals: Seq<ValueId>, pi: int) -> bool {
    &&& 0 <= pi < g.blocks@[t].parameters@.len()
    &&& param_filled(g, incoming, vals, pi)
    &&& forall|pj: int| 0 <= pj < pi ==> !#[trigger] param_filled(g, incoming, vals, pj)
}

/// The lower bound of the range of a value (the lowest number when it has none).
pub open spec fn val_lo(g: GraphBuilder, v: ValueId) -> int {
    if v.0 < g.values@.len() { g.values@[v.0 as int].range@.start as int } else { i64::MIN as int }
}

/// The upper bound of the range of a value (the highest number when it has none).
pub open spec fn val_hi(g: GraphBuilder, v: ValueId) -> int {
    if v.0 < g.values@.len() { g.values@[v.0 as int].range@.end as int } else { i64::MAX as int }
}

/// The least lower bound of the values' ranges.
pub open spec fn vals_lo(g: GraphBuilder, vals: Seq<ValueId>) -> int
    decreases vals.len(),
{
    if vals.len() <= 1 { val_lo(g, vals[0]) } else { vstd::math::min(vals_lo(g, vals.drop_last()), val_lo(g, vals.last())) }
}

/// The greatest upper bound of the values' ranges.
pub open spec fn vals_hi(g: GraphBuilder, vals: Seq<ValueId>) -> int
    decreases vals.len(),
{
    if vals.len() <= 1 { val_hi(g, vals[0]) } else { vstd::math::max(vals_hi(g, vals.drop_last()), val_hi(g, vals.last())) }
}

/// The bounds of the range of a value.
fn val_bounds(g: &GraphBuilder, v: ValueId) -> (r: (i64, i64))
    ensures
        r.0 == val_lo(*g, v),
        r.1 == val_hi(*g, v),
{
    if (v.0 as usize) < g.values.len() {
        (*g.values[v.0 as usize].range.start(), *g.values[v.0 as usize].range.end())
    } else {
        (i64::MIN, i64::MAX)
    }
}

/// The parameter of block `t` that every jump in `incoming` fills with the
/// value `vals` gives for it, the first such; when there is none, a new
/// parameter, whose range covers those of the values, filled so by every jump.
fn find_or_create_param(g: &mut GraphBuilder, t: usize, incoming: &Vec<InstrId>, vals: &Vec<ValueId>) -> (r: Option<ValueId>)
    requires
        old(g).wf(),
        t < old(g).n(),
        incoming@.len() == vals@.len(),
        vals@.len() > 0,
    ensures
        final(g).wf(),
        keeps_jumps(*old(g), *final(g)),
        forall|k: int| 0 <= k < old(g).blocks@.len() ==>
            (#[trigger] final(g).blocks@[k]).instructions@.len() == old(g).blocks@[k].instructions@.len(),
        final(g).values@.len() <= old(g).values@.len() + 1,
        forall|pi: int| #[trigger] least_filled(*old(g), t as int, incoming@, vals@, pi) ==>
            r == Some(old(g).blocks@[t as int].parameters@[pi]) && *final(g) == *old(g),
        (forall|pi: int| 0 <= pi < old(g).blocks@[t as int].parameters@.len() ==>
            !#[trigger] param_filled(*old(g), incoming@, vals@, pi)) ==> {
            &&& old(g).values@.len() >= u32::MAX ==> r is None && *final(g) == *old(g)
            &&& old(g).values@.len() < u32::MAX ==> {
                &&& r == Some(ValueId(old(g).values@.len() as u32))
                &&& final(g).values@.len() == old(g).values@.len() + 1
                &&& crate::ranges::is_irange(final(g).values@[old(g).values@.len() as int].range,
                        vals_lo(*old(g), vals@), vals_hi(*old(g), vals@))
                &&& final(g).blocks@[t as int].parameters@ == old(g).blocks@[t as int].parameters@.push(ValueId(old(g).values@.len() as u32))
            }
        },
        same_ids(*old(g), *final(g)),
        final(g).values@.len() == old(g).values@.len() ==> *final(g) == *old(g),
        final(g).values@.len() == old(g).values@.len() + 1 ==>
            final(g).blocks@[t as int].parameters@ == old(g).blocks@[t as int].parameters@.push(ValueId(old(g).values@.len() as u32)),
        final(g).values@.len() == old(g).values@.len() + 1 && incoming@.no_duplicates() ==>
            forall|k: int| 0 <= k < incoming@.len() && found(*old(g), #[trigger] incoming@[k]) ==>
                inputs_at(*final(g), jump_at(*old(g), incoming@[k])) == inputs_at(*old(g), jump_at(*old(g), incoming@[k])).push(vals@[k]),
{
    let ghost a = *g;
    let np = g.blocks[t].parameters.len();
    let mut pi: usize = 0;
    while pi < np
        invariant
            *g == a,
            a.wf(),
            t < a.n(),
            np == a.blocks@[t as int].parameters@.len(),
            incoming@.len() == vals@.len(),
            pi <= np,
            forall|pj: int| 0 <= pj < pi ==> !#[trigger] param_filled(a, incoming@, vals@, pj),
        decreases np - pi,
    {
        let mut all = true;
        let mut k: usize = 0;
        while k < incoming.len()
            invariant
                *g == a,
                a.wf(),
                incoming@.len() == vals@.len(),
                k <= incoming@.len(),
                all == forall|q: int| 0 <= q < k ==> passes(a, #[trigger] incoming@[q], pi as int, vals@[q]),
            decreases incoming@.len() - k,
        {
            match find_instr(g, incoming[k]) {
                Some((b, j)) => {
                    let ins = &g.blocks[b].instructions[j];
                    if pi >= ins.inputs.len() || ins.inputs[pi].0 != vals[k].0 {
                        assert(!passes(a, incoming@[k as int], pi as int, vals@[k as int]));
                        all = false;
                    }
                }
                None => { all = false; }
            }
            k += 1;
        }
        if all {
            proof { lemma_block_edit(a, a, a, -1); }
            assert(param_filled(a, incoming@, vals@, pi as int));
            assert forall|pk: int| #[trigger] least_filled(a, t as int, incoming@, vals@, pk) implies pk == pi by {
                if pk < pi {
                } else if pi < pk {
                    assert(!param_filled(a, incoming@, vals@, pi as int));
                }
            }
            return Some(g.blocks[t].parameters[pi]);
        }
        pi += 1;
    }
    if g.values.len() >= u32::MAX as usize {
        proof { lemma_block_edit(a, a, a, -1); }
        return None;
    }
    let (lo0, hi0) = val_bounds(g, vals[0]);
    let mut range = lo0..=hi0;
    let mut k: usize = 1;
    while k < vals.len()
        invariant
            *g == a,
            1 <= k <= vals@.len(),
            crate::ranges::is_irange(range, vals_lo(a, vals@.take(k as int)), vals_hi(a, vals@.take(k as int))),
        decreases vals@.len() - k,
    {
        let (lo, hi) = val_bounds(g, vals[k]);
        range = union_range(&range, &(lo..=hi));
        assert(vals@.take(k + 1).drop_last() == vals@.take(k as int));
        k += 1;
    }
    assert(vals@.take(vals@.len() as int) == vals@);
    let id = ValueId(g.values.len() as u32);
    proof { lemma_block_edit(a, a, a, -1); }
    g.values.push(ValueInfo { id, range });
    proof { lemma_value_push(a, a, *g); }
    let ghost g1 = *g;
    g.blocks[t].parameters.push(id);
    proof { lemma_block_edit(a, g1, *g, t as int); }
    assert forall|q: int| 0 <= q < a.blocks@.len() implies
        (#[trigger] g.blocks@[q]).instructions@.len() == a.blocks@[q].instructions@.len() by {
        if q != t { assert(g.blocks@[q] == g1.blocks@[q]); }
    }
    let ghost g2 = *g;
    let mut k: usize = 0;
    while k < incoming.len()
        invariant
            a.wf(),
            keeps_jumps(a, *g),
            incoming@.len() == vals@.len(),
            forall|q: int| 0 <= q < a.blocks@.len() ==>
                (#[trigger] g.blocks@[q]).instructions@.len() == a.blocks@[q].instructions@.len(),
            g.values@ == g2.values@,
            g.values@.len() == a.values@.len() + 1,
            g.blocks@[t as int].parameters@ == g2.blocks@[t as int].parameters@,
            t < a.n(),
            k <= incoming@.len(),
            same_ids(a, *g),
            incoming@.no_duplicates() ==> forall|q: int| 0 <= q < incoming@.len() && found(a, #[trigger] incoming@[q]) ==>
                inputs_at(*g, jump_at(a, incoming@[q]))
                    == if q < k { inputs_at(a, jump_at(a, incoming@[q])).push(vals@[q]) } else { inputs_at(a, jump_at(a, incoming@[q])) },
        decreases incoming@.len() - k,
    {
        proof { lemma_keeps_wf(a, *g); }
        proof { lemma_ids_found(a, *g, incoming@[k as int]); }
        match find_instr(g, incoming[k]) {
            Some((b, j)) => {
                let ghost before = *g;
                g.blocks[b].instructions[j].inputs.push(vals[k]);
                proof { lemma_block_edit(a, before, *g, b as int); }
                assert(g.blocks@[t as int].parameters@ == before.blocks@[t as int].parameters@);
                proof {
                    assert forall|q: int| 0 <= q < a.blocks@.len() implies #[trigger] same_ids_in(a, *g, q) by {
                        assert(same_ids_in(a, before, q));
                        if q == b {
                            assert forall|jj: int| 0 <= jj < a.blocks@[q].instructions@.len() implies
                                (#[trigger] g.blocks@[q].instructions@[jj]).id == a.blocks@[q].instructions@[jj].id by {
                                assert(before.blocks@[q].instructions@[jj].id == a.blocks@[q].instructions@[jj].id);
                            }
                        } else {
                            assert(g.blocks@[q] == before.blocks@[q]);
                        }
                    }
                    if incoming@.no_duplicates() {
                        lemma_jump_at(a, incoming@[k as int]);
                        assert forall|q: int| 0 <= q < incoming@.len() && found(a, #[trigger] incoming@[q]) implies
                            inputs_at(*g, jump_at(a, incoming@[q]))
                                == if q < k + 1 { inputs_at(a, jump_at(a, incoming@[q])).push(vals@[q]) } else { inputs_at(a, jump_at(a, incoming@[q])) } by {
                            lemma_jump_at(a, incoming@[q]);
                            if q != k {
                                assert(incoming@[q] != incoming@[k as int]);
                                assert(jump_at(a, incoming@[q]) != (b, j));
                            }
                        }
                    }
                }
                assert forall|q: int| 0 <= q < a.blocks@.len() implies
                    (#[trigger] g.blocks@[q]).instructions@.len() == a.blocks@[q].instructions@.len() by {
                    if q != b { assert(g.blocks@[q] == before.blocks@[q]); }
                }
            }
            None => {}
        }
        k += 1;
    }
    proof { lemma_keeps_wf(a, *g); }
    Some(id)
}


/// A graph that keeps the frame of another keeps its jumps.
proof fn lemma_frame_keeps(a: GraphBuilder, b: GraphBuilder, c: GraphBuilder)
    requires
        keeps_jumps(a, b),
        crate::hoisting::same_frame(b, c),
        c.values@ == b.values@,
    ensures
        keeps_jumps(a, c),
{
    assert forall|k: int| 0 <= k < a.blocks@.len() implies {
        &&& (#[trigger] c.blocks@[k]).id == a.blocks@[k].id
        &&& c.blocks@[k].incoming_jumps == a.blocks@[k].incoming_jumps
        &&& c.blocks@[k].outgoing_jumps == a.blocks@[k].outgoing_jumps
    } by {
        assert(crate::hoisting::same_shape(b.blocks@[k], c.blocks@[k]));
        assert(b.blocks@[k].id == a.blocks@[k].id);
    }
}

/// Whether instruction `j` of block `b` is a source of one of the candidates.
fn is_source(cands: &Vec<DownCandidate>, b: usize, j: usize) -> (r: bool)
    ensures
        r == exists|c: int, k: int| 0 <= c < cands@.len() && 0 <= k < cands@[c].source_instrs@.len()
            && #[trigger] cands@[c].source_instrs@[k] == (b, j),
{
    let mut c: usize = 0;
    while c < cands.len()
        invariant
            c <= cands@.len(),
            forall|cc: int, kk: int| 0 <= cc < c && 0 <= kk < cands@[cc].source_instrs@.len()
                ==> #[trigger] cands@[cc].source_instrs@[kk] != (b, j),
        decreases cands@.len() - c,
    {
        let srcs = &cands[c].source_instrs;
        let mut k: usize = 0;
        while k < srcs.len()
            invariant
                c < cands@.len(),
                *srcs == cands@[c as int].source_instrs,
                k <= srcs@.len(),
                forall|cc: int, kk: int| 0 <= cc < c && 0 <= kk < cands@[cc].source_instrs@.len()
                    ==> #[trigger] cands@[cc].source_instrs@[kk] != (b, j),
                forall|kk: int| 0 <= kk < k ==> #[trigger] srcs@[kk] != (b, j),
            decreases srcs@.len() - k,
        {
            if srcs[k].0 == b && srcs[k].1 == j {
                assert(cands@[c as int].source_instrs@[k as int] == (b, j));
                return true;
            }
            k += 1;
        }
        c += 1;
    }
    false
}

/// Some instruction has the id `id`.
pub open spec fn found(g: GraphBuilder, id: InstrId) -> bool {
    exists|j: int| first_pos(g, id, j)
}

/// Where the jumps into `target` stand, in the order of its incoming jumps.
pub open spec fn down_jumps(g: GraphBuilder, target: BlockId) -> Seq<(usize, usize)> {
    g.blocks@[target.0 as int].incoming_jumps@.map_values(|id: InstrId| jump_at(g, id))
}

/// Something can move down into `target`: at least two jumps enter it, it
/// has parameters, each block jumping into it has that one jump out, each
/// jump passes one value per parameter, and the values passed for some
/// parameter make a candidate (`make_ok`).
pub open spec fn down_applies(g: GraphBuilder, target: BlockId) -> bool {
    let inc = g.blocks@[target.0 as int].incoming_jumps@;
    let np = g.blocks@[target.0 as int].parameters@.len();
    let jumps = down_jumps(g, target);
    &&& inc.len() >= 2
    &&& np > 0
    &&& forall|k: int| 0 <= k < inc.len() ==> g.blocks@[(#[trigger] inc[k]).0.0 as int].outgoing_jumps@.len() == 1
    &&& forall|k: int| 0 <= k < inc.len() ==> found(g, #[trigger] inc[k])
    &&& forall|k: int| 0 <= k < inc.len() ==>
            g.blocks@[(#[trigger] jumps[k]).0 as int].instructions@[jumps[k].1 as int].inputs@.len() == np
    &&& exists|pi: int| 0 <= pi < np && #[trigger] make_ok(g, jump_blocks_of(jumps), allowed0(jumps), param_args(g, jumps, pi))
}

/// Moves into block `target` the computations that every block jumping into
/// it performs alike to produce what it passes for a parameter: the blocks
/// then pass the operands, and the target computes the value once. Returns
/// whether anything moved.
pub fn hoist_down(g: &mut GraphBuilder, target: BlockId) -> (hoisted: bool)
    requires
        old(g).wf(),
        old(g).current_block == target,
        target.0 < old(g).n(),
        old(g).blocks@[target.0 as int].instructions@.len() == 0,
    ensures
        final(g).wf(),
        keeps_jumps(*old(g), *final(g)),
        !hoisted ==> *final(g) == *old(g),
        hoisted ==> down_applies(*old(g), target),
        down_applies(*old(g), target) && old(g).values@.len() + input_total(*old(g)) < u32::MAX ==> hoisted,
        hoisted ==> forall|k: int| 0 <= k < old(g).blocks@[target.0 as int].incoming_jumps@.len() ==>
            final(g).blocks@[(#[trigger] old(g).blocks@[target.0 as int].incoming_jumps@[k]).0.0 as int].instructions@.len()
                < old(g).blocks@[old(g).blocks@[target.0 as int].incoming_jumps@[k].0.0 as int].instructions@.len(),
        hoisted && block_ids_unique(*old(g)) && old(g).blocks@[target.0 as int].incoming_jumps@.no_duplicates() ==>
            args_match(*final(g), target.0 as int, old(g).blocks@[target.0 as int].incoming_jumps@),
        hoisted ==> final(g).blocks@[target.0 as int].instructions@.len() > 0,
{
    let ghost a = *g;
    proof { lemma_block_edit(a, a, a, -1); }
    let t = target.0 as usize;
    let incoming = copy_ids(&g.blocks[t].incoming_jumps);
    let np = g.blocks[t].parameters.len();
    if incoming.len() < 2 || np == 0 {
        return false;
    }
    let mut jumps: Vec<(usize, usize)> = Vec::new();
    let mut k: usize = 0;
    while k < incoming.len()
        invariant
            *g == a,
            a.wf(),
            k <= incoming@.len(),
            forall|q: int| 0 <= q < jumps@.len() ==>
                (#[trigger] jumps@[q]).0 < a.n() && jumps@[q].1 < a.blocks@[jumps@[q].0 as int].instructions@.len()
                && a.blocks@[jumps@[q].0 as int].instructions@[jumps@[q].1 as int].inputs@.len() == np,
            np == a.blocks@[target.0 as int].parameters@.len(),
            jumps@.len() == k,
            incoming@ == a.blocks@[target.0 as int].incoming_jumps@,
            forall|q: int| 0 <= q < k ==> a.blocks@[(#[trigger] incoming@[q]).0.0 as int].outgoing_jumps@.len() == 1,
            forall|q: int| 0 <= q < k ==> found(a, #[trigger] incoming@[q]),
            jumps@ == down_jumps(a, target).take(k as int),
        decreases incoming@.len() - k,
    {
        let pb = incoming[k].0.0 as usize;
        if pb >= g.blocks.len() || g.blocks[pb].outgoing_jumps.len() != 1 {
            return false;
        }
        match find_instr(g, incoming[k]) {
            None => { return false; }
            Some(p) => {
                if g.blocks[p.0].instructions[p.1].inputs.len() != np {
                    assert(down_jumps(a, target)[k as int] == p);
                    return false;
                }
                jumps.push(p);
                assert(jumps@ =~= down_jumps(a, target).take(k + 1));
            }
        }
        k += 1;
    }
    assert(jumps@ =~= down_jumps(a, target));
    let candidates = find_down_hoist_candidates(g, &jumps, np);
    if candidates.len() == 0 {
        return false;
    }
    assert(down_applies(a, target));
    proof {
        let pi = choose|pi: int| #[trigger] first_start(a, jumps@, np as int, pi)
            && candidate_of(a, param_args(a, jumps@, pi), candidates@[0]);
        let vals = param_args(a, jumps@, pi);
        assert forall|k: int| 0 <= k < incoming@.len() implies
            (#[trigger] candidates@[0].source_instrs@[k]).0 as int == incoming@[k].0.0 as int by {
            assert(make_ok(a, jump_blocks_of(jumps@), allowed0(jumps@), vals));
            assert(def_pos(a, vals[k]).0 == jump_blocks_of(jumps@)[k]);
            assert(jumps@[k] == jump_at(a, incoming@[k]));
            assert(found(a, incoming@[k]));
            lemma_jump_at(a, incoming@[k]);
        }
    }
    let mut need: u64 = 0;
    let mut c: usize = 0;
    while c < candidates.len()
        invariant
            *g == a,
            a.wf(),
            keeps_jumps(a, a),
            down_applies(a, target),
            c <= candidates@.len(),
            need == need_sum(candidates@.take(c as int)),
            need_sum(candidates@) <= input_total(a),
            need <= 3 * (u32::MAX as u64),
            forall|q: int| 0 <= q < c ==> 1 + (#[trigger] candidates@[q]).arg_values@.len() <= need,
        decreases candidates@.len() - c,
    {
        proof {
            lemma_need_prefix(candidates@, c + 1);
            assert(candidates@.take(c + 1).drop_last() == candidates@.take(c as int));
        }
        let more = candidates[c].arg_values.len() as u64;
        if need > u32::MAX as u64 || more > u32::MAX as u64 {
            return false;
        }
        need = need + 1 + more;
        c += 1;
    }
    assert(candidates@.take(candidates@.len() as int) == candidates@);
    if g.values.len() as u64 + need >= u32::MAX as u64 {
        return false;
    }

    let orig_params = copy_vals(&g.blocks[t].parameters);
    let orig_args = copy_vals(&g.blocks[jumps[0].0].instructions[jumps[0].1].inputs);
    let mut removed: Vec<ValueId> = Vec::new();
    let mut c: usize = 0;
    while c < candidates.len()
        decreases candidates@.len() - c,
    {
        let outs = &candidates[c].out_vals;
        let mut k: usize = 0;
        while k < outs.len()
            decreases outs@.len() - k,
        {
            removed.push(outs[k]);
            k += 1;
        }
        c += 1;
    }
    let mut param_indices: Vec<usize> = Vec::new();
    let mut i: usize = 0;
    while i < orig_args.len() && i < np
        invariant
            i <= np,
            forall|q: int| 0 <= q < param_indices@.len() ==> #[trigger] param_indices@[q] < i,
            valid_positions(param_indices@, np as nat),
        decreases np - i,
    {
        if holds_value(&removed, orig_args[i]) {
            let ghost before = param_indices@;
            param_indices.push(i);
            assert(valid_positions(param_indices@, np as nat)) by {
                assert forall|x: int, y: int| 0 <= x < y < param_indices@.len() implies
                    (#[trigger] param_indices@[x]) < (#[trigger] param_indices@[y]) by {
                    if y < param_indices@.len() - 1 {
                        assert(before[x] < before[y]);
                    } else {
                        assert(before[x] < i);
                    }
                }
            }
        }
        i += 1;
    }

    // the parameters that moved computations produce are passed no more
    let ghost law = block_ids_unique(a) && incoming@.no_duplicates();
    let ghost np2 = np - param_indices@.len();
    assert(*g == a);
    let ghost g0 = *g;
    g.blocks[t].parameters.remove_all(param_indices.as_slice());
    proof {
        lemma_block_edit(a, g0, *g, t as int);
        crate::seqs::lemma_without_positions_len(a.blocks@[t as int].parameters@, param_indices@);
        lemma_same_ids_step(a, a, *g, t as int);
        assert forall|q: int| 0 <= q < incoming@.len() implies (#[trigger] incoming@[q]).0.0 != t by {
            assert(found(a, incoming@[q]));
            lemma_jump_at(a, incoming@[q]);
        }
        assert forall|q: int| 0 <= q < incoming@.len() implies
            inputs_at(*g, jump_at(a, #[trigger] incoming@[q])).len() == np as int by {
            assert(down_jumps(a, target)[q] == jump_at(a, incoming@[q]));
            lemma_jump_at(a, incoming@[q]);
            let p = jump_at(a, incoming@[q]);
            assert(g.blocks@[p.0 as int].instructions == a.blocks@[p.0 as int].instructions);
        }
    }
    let mut k: usize = 0;
    while k < incoming.len()
        invariant
            a.wf(),
            keeps_jumps(a, *g),
            g.current_block == target,
            valid_positions(param_indices@, np as nat),
            g.values@ == a.values@,
            forall|q: int| 0 <= q < a.blocks@.len() ==>
                (#[trigger] g.blocks@[q]).instructions@.len() == a.blocks@[q].instructions@.len(),
            t == target.0,
            t < a.n(),
            np == a.blocks@[t as int].parameters@.len(),
            incoming@ == a.blocks@[target.0 as int].incoming_jumps@,
            down_applies(a, target),
            law == (block_ids_unique(a) && incoming@.no_duplicates()),
            np2 == np - param_indices@.len(),
            g.blocks@[t as int].parameters@.len() == np2,
            same_ids(a, *g),
            k <= incoming@.len(),
            forall|q: int| 0 <= q < incoming@.len() ==> (#[trigger] incoming@[q]).0.0 != t,
            law ==> forall|q: int| 0 <= q < incoming@.len() ==>
                inputs_at(*g, jump_at(a, #[trigger] incoming@[q])).len() == if q < k { np2 } else { np as int },
        decreases incoming@.len() - k,
    {
        proof {
            lemma_keeps_wf(a, *g);
            lemma_ids_found(a, *g, incoming@[k as int]);
            assert(found(a, incoming@[k as int]));
            lemma_jump_at(a, incoming@[k as int]);
        }
        match find_instr(g, incoming[k]) {
            Some((b, j)) => {
                if g.blocks[b].instructions[j].inputs.len() == np {
                    let ghost before = *g;
                    g.blocks[b].instructions[j].inputs.remove_all(param_indices.as_slice());
                    proof {
                        lemma_block_edit(a, before, *g, b as int);
                        crate::seqs::lemma_without_positions_len(before.blocks@[b as int].instructions@[j as int].inputs@, param_indices@);
                        assert(same_ids_in(before, *g, b as int)) by {
                            assert forall|jj: int| 0 <= jj < before.blocks@[b as int].instructions@.len() implies
                                (#[trigger] g.blocks@[b as int].instructions@[jj]).id == before.blocks@[b as int].instructions@[jj].id by {}
                        }
                        lemma_same_ids_step(a, before, *g, b as int);
                        assert(g.blocks@[t as int].parameters@.len() == np2) by {
                            if b == t { assert(g.blocks@[t as int].parameters == before.blocks@[t as int].parameters); }
                            else { assert(g.blocks@[t as int] == before.blocks@[t as int]); }
                        }
                        if law {
                            assert forall|q: int| 0 <= q < incoming@.len() implies
                                inputs_at(*g, jump_at(a, #[trigger] incoming@[q])).len() == if q < k + 1 { np2 } else { np as int } by {
                                assert(found(a, incoming@[q]));
                                lemma_jump_at(a, incoming@[q]);
                                if q != k {
                                    assert(incoming@[q] != incoming@[k as int]);
                                    assert(jump_at(a, incoming@[q]) != (b, j));
                                }
                            }
                        }
                    }
                } else {
                    assert(!law);
                }
            }
            None => {}
        }
        k += 1;
    }

    // the computations leave the blocks that jump here
    proof {
        if law {
            assert forall|q: int| 0 <= q < incoming@.len() && found(*g, #[trigger] incoming@[q]) implies
                inputs_at(*g, jump_at(*g, incoming@[q])).len() == g.blocks@[t as int].parameters@.len() by {
                lemma_ids_found(a, *g, incoming@[q]);
            }
            assert forall|q: int| 0 <= q < g.blocks@.len() implies ids_unique(#[trigger] g.blocks@[q].instructions@) by {
                assert(same_ids_in(a, *g, q));
                assert(ids_unique(a.blocks@[q].instructions@));
                assert forall|x: int, y: int| 0 <= x < y < g.blocks@[q].instructions@.len() implies
                    (#[trigger] g.blocks@[q].instructions@[x]).id != (#[trigger] g.blocks@[q].instructions@[y]).id by {
                    assert(a.blocks@[q].instructions@[x].id != a.blocks@[q].instructions@[y].id);
                }
            }
        }
    }
    let mut b: usize = 0;
    while b < g.blocks.len()
        invariant
            a.wf(),
            keeps_jumps(a, *g),
            g.current_block == target,
            g.values@ == a.values@,
            t == target.0,
            t < a.n(),
            incoming@ == a.blocks@[target.0 as int].incoming_jumps@,
            forall|q: int| 0 <= q < incoming@.len() ==> (#[trigger] incoming@[q]).0.0 != t,
            law ==> incoming@.no_duplicates(),
            law ==> args_match(*g, t as int, incoming@),
            law ==> forall|q: int| b <= q < g.blocks@.len() ==> ids_unique(#[trigger] g.blocks@[q].instructions@),
            b <= g.blocks@.len(),
            candidates@.len() > 0,
            candidates@[0].source_instrs@.len() == incoming@.len(),
            forall|k: int| 0 <= k < incoming@.len() ==> (#[trigger] candidates@[0].source_instrs@[k]).0 as int == incoming@[k].0.0 as int
                && candidates@[0].source_instrs@[k].1 < a.blocks@[candidates@[0].source_instrs@[k].0 as int].instructions@.len(),
            forall|q: int| b <= q < g.blocks@.len() ==> (#[trigger] g.blocks@[q]).instructions@.len() == a.blocks@[q].instructions@.len(),
            forall|q: int| 0 <= q < incoming@.len() && (incoming@[q].0.0 as int) < b ==>
                g.blocks@[(#[trigger] incoming@[q]).0.0 as int].instructions@.len() < a.blocks@[incoming@[q].0.0 as int].instructions@.len(),
        decreases g.blocks@.len() - b,
    {
        let mut pos: Vec<usize> = Vec::new();
        let n_instrs = g.blocks[b].instructions.len();
        let mut j: usize = 0;
        while j < n_instrs
            invariant
                j <= n_instrs,
                forall|q: int| 0 <= q < pos@.len() ==> #[trigger] pos@[q] < j,
                valid_positions(pos@, n_instrs as nat),
                forall|k: int| 0 <= k < candidates@[0].source_instrs@.len() && (#[trigger] candidates@[0].source_instrs@[k]).0 == b
                    && candidates@[0].source_instrs@[k].1 < j ==> pos@.contains(candidates@[0].source_instrs@[k].1),
                candidates@.len() > 0,
            decreases n_instrs - j,
        {
            let src = is_source(&candidates, b, j);
            let ghost pos0 = pos@;
            proof {
                assert forall|k: int| 0 <= k < candidates@[0].source_instrs@.len() && (#[trigger] candidates@[0].source_instrs@[k]) == (b, j)
                    implies src by {}
            }
            if src {
                let ghost before = pos@;
                pos.push(j);
                assert(pos@[pos@.len() - 1] == j);
                assert(valid_positions(pos@, n_instrs as nat)) by {
                    assert forall|x: int, y: int| 0 <= x < y < pos@.len() implies
                        (#[trigger] pos@[x]) < (#[trigger] pos@[y]) by {
                        if y < pos@.len() - 1 {
                            assert(before[x] < before[y]);
                        } else {
                            assert(before[x] < j);
                        }
                    }
                }
            }
            proof {
                assert forall|k: int| 0 <= k < candidates@[0].source_instrs@.len() && (#[trigger] candidates@[0].source_instrs@[k]).0 == b
                    && candidates@[0].source_instrs@[k].1 < j + 1 implies pos@.contains(candidates@[0].source_instrs@[k].1) by {
                    let x = candidates@[0].source_instrs@[k].1;
                    if x == j {
                        assert(candidates@[0].source_instrs@[k] == (b, j));
                        assert(src);
                        assert(pos@ == pos0.push(j));
                        assert(pos@[pos@.len() - 1] == j);
                    } else {
                        assert(pos0.contains(x));
                        let i = choose|i: int| 0 <= i < pos0.len() && pos0[i] == x;
                        assert(pos@[i] == pos0[i]);
                    }
                }
            }
            j += 1;
        }
        let ghost before = *g;
        g.blocks[b].instructions.remove_all(pos.as_slice());
        proof {
            lemma_block_edit(a, before, *g, b as int);
            crate::seqs::lemma_without_positions_len(before.blocks@[b as int].instructions@, pos@);
            assert forall|q: int| 0 <= q < incoming@.len() && (incoming@[q].0.0 as int) < b + 1 implies
                g.blocks@[(#[trigger] incoming@[q]).0.0 as int].instructions@.len() < a.blocks@[incoming@[q].0.0 as int].instructions@.len() by {
                if incoming@[q].0.0 as int == b as int {
                    assert(candidates@[0].source_instrs@[q].0 as int == b as int);
                    assert(pos@.contains(candidates@[0].source_instrs@[q].1));
                } else {
                    assert(g.blocks@[incoming@[q].0.0 as int] == before.blocks@[incoming@[q].0.0 as int]);
                }
            }
            assert forall|q: int| b + 1 <= q < g.blocks@.len() implies (#[trigger] g.blocks@[q]).instructions@.len() == a.blocks@[q].instructions@.len() by {
                assert(g.blocks@[q] == before.blocks@[q]);
            }
            if law {
                assert(g.blocks@[t as int].parameters == before.blocks@[t as int].parameters);
                assert forall|q: int| 0 <= q < incoming@.len() && found(*g, #[trigger] incoming@[q]) implies
                    inputs_at(*g, jump_at(*g, incoming@[q])).len() == g.blocks@[t as int].parameters@.len() by {
                    let id = incoming@[q];
                    lemma_jump_at(*g, id);
                    if id.0.0 == b {
                        lemma_removed_found(before, *g, id, pos@);
                        assert(found(before, id));
                    } else {
                        assert(g.blocks@[id.0.0 as int] == before.blocks@[id.0.0 as int]);
                        lemma_ids_found(before, *g, id);
                    }
                }
                assert forall|q: int| b + 1 <= q < g.blocks@.len() implies ids_unique(#[trigger] g.blocks@[q].instructions@) by {
                    assert(g.blocks@[q] == before.blocks@[q]);
                }
            }
        }
        b += 1;
    }

    assert forall|q: int| 0 <= q < incoming@.len() implies
        g.blocks@[(#[trigger] incoming@[q]).0.0 as int].instructions@.len() < a.blocks@[incoming@[q].0.0 as int].instructions@.len() by {
        assert(a.blocks@[t as int].incoming_jumps@[q] == incoming@[q]);
        assert((incoming@[q].0.0 as int) < b);
    }
    // the candidates in the order of their first source
    let mut order: Vec<usize> = Vec::new();
    let mut c: usize = 0;
    while c < candidates.len()
        invariant
            c <= candidates@.len(),
            order@.len() == c,
            forall|q: int| 0 <= q < order@.len() ==> #[trigger] order@[q] < candidates@.len(),
        decreases candidates@.len() - c,
    {
        order.push(c);
        c += 1;
    }
    let ghost olen = order@.len();
    assert(olen == candidates@.len());
    let mut i: usize = 1;
    while i < order.len()
        invariant
            order@.len() == olen,
            forall|q: int| 0 <= q < order@.len() ==> #[trigger] order@[q] < candidates@.len(),
        decreases olen - i,
    {
        let mut j: usize = i;
        while j > 0
            invariant
                order@.len() == olen,
                j < order@.len(),
                forall|q: int| 0 <= q < order@.len() ==> #[trigger] order@[q] < candidates@.len(),
            decreases j,
        {
            let x = order[j - 1];
            let y = order[j];
            let kx = if candidates[x].source_instrs.len() > 0 { candidates[x].source_instrs[0].1 } else { 0 };
            let ky = if candidates[y].source_instrs.len() > 0 { candidates[y].source_instrs[0].1 } else { 0 };
            if kx <= ky {
                break;
            }
            order.set(j - 1, y);
            order.set(j, x);
            j -= 1;
        }
        i += 1;
    }

    // each computation is done once, in the target
    let mut resolve: Vec<(ValueId, ValueId)> = Vec::new();
    let mut pushed = false;
    let mut oi: usize = 0;
    assert(order@.len() == candidates@.len());
    while oi < order.len()
        invariant
            a.wf(),
            keeps_jumps(a, *g),
            g.current_block == target,
            t == target.0,
            t < g.n(),
            incoming@.len() >= 2,
            order@.len() == candidates@.len(),
            forall|q: int| 0 <= q < order@.len() ==> #[trigger] order@[q] < candidates@.len(),
            oi == 0 ==> g.values@.len() == a.values@.len(),
            a.values@.len() + need < u32::MAX,
            forall|q: int| 0 <= q < candidates@.len() ==> 1 + (#[trigger] candidates@[q]).arg_values@.len() <= need,
            oi > 0 ==> pushed,
            pushed ==> g.blocks@[t as int].instructions@.len() > 0,
            incoming@ == a.blocks@[target.0 as int].incoming_jumps@,
            forall|q: int| 0 <= q < incoming@.len() ==> (#[trigger] incoming@[q]).0.0 != t,
            law ==> incoming@.no_duplicates(),
            law ==> args_match(*g, t as int, incoming@),
            forall|q: int| 0 <= q < incoming@.len() ==>
                g.blocks@[(#[trigger] incoming@[q]).0.0 as int].instructions@.len() < a.blocks@[incoming@[q].0.0 as int].instructions@.len(),
        decreases order@.len() - oi,
    {
        proof { lemma_keeps_wf(a, *g); }
        let cand = &candidates[order[oi]];
        let ghost base = g.values@.len();
        let mut new_inputs: Vec<ValueId> = Vec::new();
        let mut ai: usize = 0;
        while ai < cand.arg_values.len()
            invariant
                a.wf(),
                keeps_jumps(a, *g),
                g.current_block == target,
                t < g.n(),
                incoming@.len() >= 2,
                ai <= cand.arg_values@.len(),
                g.values@.len() <= base + ai,
                pushed ==> g.blocks@[t as int].instructions@.len() > 0,
                t == target.0,
                incoming@ == a.blocks@[target.0 as int].incoming_jumps@,
                forall|q: int| 0 <= q < incoming@.len() ==> (#[trigger] incoming@[q]).0.0 != t,
                law ==> incoming@.no_duplicates(),
                law ==> args_match(*g, t as int, incoming@),
                forall|q: int| 0 <= q < incoming@.len() ==>
                    g.blocks@[(#[trigger] incoming@[q]).0.0 as int].instructions@.len() < a.blocks@[incoming@[q].0.0 as int].instructions@.len(),
                decreases cand.arg_values@.len() - ai,
        {
            proof { lemma_keeps_wf(a, *g); }
            let arg_vals = &cand.arg_values[ai];
            let mut resolved: Option<ValueId> = None;
            let mut q: usize = 0;
            while q < arg_vals.len()
                decreases arg_vals@.len() - q,
            {
                if resolved.is_none() {
                    resolved = lookup(&resolve, arg_vals[q]);
                }
                q += 1;
            }
            match resolved {
                Some(r) => { new_inputs.push(r); }
                None => {
                    if arg_vals.len() == incoming.len() {
                        let ghost before = *g;
                        let p = find_or_create_param(g, t, &incoming, arg_vals);
                        proof {
                            lemma_keeps_trans(a, before, *g);
                            assert forall|q: int| 0 <= q < incoming@.len() implies
                                g.blocks@[(#[trigger] incoming@[q]).0.0 as int].instructions@.len() < a.blocks@[incoming@[q].0.0 as int].instructions@.len() by {
                                assert(g.blocks@[incoming@[q].0.0 as int].instructions@.len() == before.blocks@[incoming@[q].0.0 as int].instructions@.len());
                            }
                            if law {
                                assert forall|q: int| 0 <= q < incoming@.len() && found(*g, #[trigger] incoming@[q]) implies
                                    inputs_at(*g, jump_at(*g, incoming@[q])).len() == g.blocks@[t as int].parameters@.len() by {
                                    let id = incoming@[q];
                                    lemma_jump_at(*g, id);
                                    assert(same_ids_in(before, *g, id.0.0 as int));
                                    lemma_ids_found(before, *g, id);
                                }
                            }
                        }
                        assert(g.blocks@[t as int].instructions@.len() == before.blocks@[t as int].instructions@.len());
                        match p {
                            Some(p) => { new_inputs.push(p); }
                            None => {}
                        }
                    }
                }
            }
            ai += 1;
        }
        proof { lemma_keeps_wf(a, *g); }
        assert(oi == 0 ==> g.values@.len() < u32::MAX) by {
            if oi == 0 {
                assert(1 + candidates@[order@[0] as int].arg_values@.len() <= need);
            }
        }
        if g.values.len() < u32::MAX as usize {
            let out = ValueId(g.values.len() as u32);
            let ghost before = *g;
            g.values.push(ValueInfo { id: out, range: i64::MIN..=i64::MAX });
            proof {
                lemma_value_push(a, before, *g);
                if law {
                    assert forall|q: int| 0 <= q < incoming@.len() && found(*g, #[trigger] incoming@[q]) implies
                        inputs_at(*g, jump_at(*g, incoming@[q])).len() == g.blocks@[t as int].parameters@.len() by {
                        let id = incoming@[q];
                        lemma_jump_at(*g, id);
                        assert(g.blocks@[id.0.0 as int] == before.blocks@[id.0.0 as int]);
                        lemma_ids_found(before, *g, id);
                    }
                }
            }
            let ix = g.blocks[t].instructions.len() as u32;
            let count = g.blocks[t].ksplang_instr_count;
            let ins = OptInstr {
                id: InstrId(target, ix),
                op: cand.op,
                inputs: new_inputs,
                out,
                effect: OpEffect::Pure,
                program_position: cand.program_position,
                ksp_instr_count: count,
            };
            let ghost before = *g;
            g.blocks[t].instructions.push(ins);
            proof {
                lemma_block_edit(a, before, *g, t as int);
                assert forall|q: int| 0 <= q < incoming@.len() implies
                    g.blocks@[(#[trigger] incoming@[q]).0.0 as int].instructions@.len() < a.blocks@[incoming@[q].0.0 as int].instructions@.len() by {
                    assert(incoming@[q].0.0 != t);
                    assert(g.blocks@[incoming@[q].0.0 as int] == before.blocks@[incoming@[q].0.0 as int]);
                }
                if law {
                    assert(g.blocks@[t as int].parameters == before.blocks@[t as int].parameters);
                    assert forall|q: int| 0 <= q < incoming@.len() && found(*g, #[trigger] incoming@[q]) implies
                        inputs_at(*g, jump_at(*g, incoming@[q])).len() == g.blocks@[t as int].parameters@.len() by {
                        let id = incoming@[q];
                        lemma_jump_at(*g, id);
                        assert(id.0.0 != t);
                        assert(g.blocks@[id.0.0 as int] == before.blocks@[id.0.0 as int]);
                        lemma_ids_found(before, *g, id);
                    }
                }
            }
            pushed = true;
            let mut k: usize = 0;
            while k < cand.out_vals.len()
                decreases cand.out_vals@.len() - k,
            {
                resolve.push((cand.out_vals[k], out));
                k += 1;
            }
        }
        oi += 1;
    }

    // the parameters that are passed no more now stand for the values computed here
    let mut i: usize = 0;
    while i < param_indices.len()
        invariant
            a.wf(),
            keeps_jumps(a, *g),
            g.current_block == target,
            t == target.0,
            t < g.n(),
            g.blocks@[t as int].instructions@.len() > 0,
            incoming@ == a.blocks@[target.0 as int].incoming_jumps@,
            forall|q: int| 0 <= q < incoming@.len() ==> (#[trigger] incoming@[q]).0.0 != t,
            law ==> incoming@.no_duplicates(),
            law ==> args_match(*g, t as int, incoming@),
            forall|q: int| 0 <= q < incoming@.len() ==>
                g.blocks@[(#[trigger] incoming@[q]).0.0 as int].instructions@.len() < a.blocks@[incoming@[q].0.0 as int].instructions@.len(),
        decreases param_indices@.len() - i,
    {
        proof { lemma_keeps_wf(a, *g); }
        let pix = param_indices[i];
        if pix < orig_params.len() && pix < orig_args.len() {
            match lookup(&resolve, orig_args[pix]) {
                Some(to) => {
                    let from = vec![orig_params[pix]];
                    let ghost before = *g;
                    crate::hoisting::replace_uses(g, &from, to);
                    proof {
                        lemma_frame_keeps(a, before, *g);
                        assert forall|q: int| 0 <= q < incoming@.len() implies
                            g.blocks@[(#[trigger] incoming@[q]).0.0 as int].instructions@.len() < a.blocks@[incoming@[q].0.0 as int].instructions@.len() by {
                            assert(g.blocks@[incoming@[q].0.0 as int].instructions@.len() == before.blocks@[incoming@[q].0.0 as int].instructions@.len());
                        }
                        if law {
                            assert(crate::hoisting::same_shape(before.blocks@[t as int], g.blocks@[t as int]));
                            assert forall|q: int| 0 <= q < incoming@.len() && found(*g, #[trigger] incoming@[q]) implies
                                inputs_at(*g, jump_at(*g, incoming@[q])).len() == g.blocks@[t as int].parameters@.len() by {
                                let id = incoming@[q];
                                lemma_jump_at(*g, id);
                                let bq = id.0.0 as int;
                                assert(same_ids_in(before, *g, bq)) by {
                                    assert forall|jj: int| 0 <= jj < before.blocks@[bq].instructions@.len() implies
                                        (#[trigger] g.blocks@[bq].instructions@[jj]).id == before.blocks@[bq].instructions@[jj].id by {
                                        assert(crate::hoisting::substituted(before.blocks@[bq].instructions@[jj], g.blocks@[bq].instructions@[jj], from@, to));
                                    }
                                }
                                lemma_ids_found(before, *g, id);
                                let pj = jump_at(*g, id).1 as int;
                                assert(crate::hoisting::substituted(before.blocks@[bq].instructions@[pj], g.blocks@[bq].instructions@[pj], from@, to));
                            }
                        }
                    }
                    assert(g.blocks@[t as int].instructions@.len() == before.blocks@[t as int].instructions@.len());
                }
                None => {}
            }
        }
        i += 1;
    }
    proof { lemma_keeps_wf(a, *g); }
    true
}

/// A copy of a list of instruction ids.
fn copy_ids(s: &Vec<InstrId>) -> (r: Vec<InstrId>)
    ensures
        r@ == s@,
{
    let mut r: Vec<InstrId> = Vec::new();
    let mut i: usize = 0;
    while i < s.len()
        invariant
            i <= s@.len(),
            r@ == s@.take(i as int),
        decreases s@.len() - i,
    {
        r.push(s[i]);
        assert(s@.take(i + 1) == s@.take(i as int).push(s@[i as int]));
        i += 1;
    }
    assert(s@.take(s@.len() as int) == s@);
    r
}

} // verus!
