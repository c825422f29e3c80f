//! Hoisting: moving an instruction that every successor of a block computes
//! in the same way up into that block, once.

use vstd::prelude::*;
use crate::cfg::{BasicBlock, BlockId, Condition, GraphBuilder, InstrId, OpEffect, OptInstr, OptOp, ValueId, C_IMIN};
use crate::ranges::{full_range, is_irange};

verus! {

/// `s` lists, once each and in increasing order, the blocks that the jumps of
/// block `b` lead to.
pub open spec fn is_successor_list(g: GraphBuilder, b: int, s: Seq<BlockId>) -> bool {
    &&& forall|i: int, j: int| 0 <= i < j < s.len() ==> (#[trigger] s[i]).0 < (#[trigger] s[j]).0
    &&& forall|x: BlockId| s.contains(x) <==> g.edge(b, x.0 as int)
}

/// The ids of `s` increase strictly.
pub open spec fn strictly_sorted(s: Seq<BlockId>) -> bool {
    forall|i: int, j: int| 0 <= i < j < s.len() ==> (#[trigger] s[i]).0 < (#[trigger] s[j]).0
}

/// Puts `t` into the sorted list `s` unless it is there already.
fn insert_sorted(s: &mut Vec<BlockId>, t: BlockId)
    requires
        strictly_sorted(old(s)@),
    ensures
        strictly_sorted(final(s)@),
        forall|x: BlockId| final(s)@.contains(x) <==> (old(s)@.contains(x) || x == t),
{
    let mut i: usize = 0;
    while i < s.len() && s[i].0 < t.0
        invariant
            i <= s@.len(),
            s@ == old(s)@,
            strictly_sorted(s@),
            forall|k: int| 0 <= k < i ==> (#[trigger] s@[k]).0 < t.0,
        decreases s@.len() - i,
    {
        i += 1;
    }
    if i < s.len() && s[i].0 == t.0 {
        assert(s@[i as int] == t);
        return;
    }
    let ghost o = s@;
    assert(o == old(s)@);
    assert(i < o.len() ==> o[i as int].0 > t.0);
    s.insert(i, t);
    assert forall|a: int, b: int| 0 <= a < b < s@.len() implies (#[trigger] s@[a]).0 < (#[trigger] s@[b]).0 by {
        if b < i {
            assert(s@[a] == o[a] && s@[b] == o[b]);
        } else if b == i {
            assert(s@[a] == o[a]);
        } else if a < i {
            assert(s@[a] == o[a] && s@[b] == o[b - 1]);
            assert(o[i as int].0 > t.0);
            if i < b - 1 { assert(o[i as int].0 < o[b - 1].0); }
        } else if a == i {
            assert(s@[b] == o[b - 1]);
            if i < b - 1 { assert(o[i as int].0 < o[b - 1].0); }
        } else {
            assert(s@[a] == o[a - 1] && s@[b] == o[b - 1]);
        }
    }
    assert forall|x: BlockId| s@.contains(x) <==> (o.contains(x) || x == t) by {
        if s@.contains(x) {
            let k = choose|k: int| 0 <= k < s@.len() && s@[k] == x;
            if k < i { assert(o[k] == x); } else if k > i { assert(o[k - 1] == x); }
        }
        if o.contains(x) {
            let k = choose|k: int| 0 <= k < o.len() && o[k] == x;
            if k < i { assert(s@[k] == x); } else { assert(s@[k + 1] == x); }
        }
        if x == t { assert(s@[i as int] == x); }
    }
    assert(forall|x: BlockId| s@.contains(x) <==> (old(s)@.contains(x) || x == t));
}

/// The blocks that the jumps of block `b` lead to, once each, in increasing order.
pub fn following_blocks(g: &GraphBuilder, b: BlockId) -> (s: Vec<BlockId>)
    requires
        g.wf(),
        b.0 < g.n(),
    ensures
        is_successor_list(*g, b.0 as int, s@),
{
    let jumps = &g.blocks[b.0 as usize].outgoing_jumps;
    let mut s: Vec<BlockId> = Vec::new();
    let mut k: usize = 0;
    while k < jumps.len()
        invariant
            k <= jumps@.len(),
            jumps == g.blocks@[b.0 as int].outgoing_jumps,
            strictly_sorted(s@),
            forall|x: BlockId| s@.contains(x) <==>
                exists|kk: int| 0 <= kk < k && #[trigger] g.target(b.0 as int, kk) == x.0 as int,
        decreases jumps@.len() - k,
    {
        let t = jumps[k].1;
        let ghost before = s@;
        insert_sorted(&mut s, t);
        assert forall|x: BlockId| s@.contains(x) <==>
            exists|kk: int| 0 <= kk < k + 1 && #[trigger] g.target(b.0 as int, kk) == x.0 as int by {
            if x == t {
                assert(g.target(b.0 as int, k as int) == x.0 as int);
            }
            if exists|kk: int| 0 <= kk < k + 1 && #[trigger] g.target(b.0 as int, kk) == x.0 as int {
                let kk = choose|kk: int| 0 <= kk < k + 1 && #[trigger] g.target(b.0 as int, kk) == x.0 as int;
                if kk == k {
                    assert(x.0 == t.0);
                    assert(x == t);
                }
            }
        }
        k += 1;
    }
    s
}

/// The instruction computes `op` on `inputs`.
pub open spec fn same_key(a: OptInstr, op: OptOp, inputs: Seq<ValueId>) -> bool {
    a.op == op && a.inputs@ == inputs
}

/// Instruction `j` is the first of `instrs` that computes `op` on `inputs`.
pub open spec fn first_with(instrs: Seq<OptInstr>, op: OptOp, inputs: Seq<ValueId>, j: int) -> bool {
    &&& 0 <= j < instrs.len()
    &&& same_key(instrs[j], op, inputs)
    &&& forall|k: int| 0 <= k < j ==> !same_key(#[trigger] instrs[k], op, inputs)
}

/// There is one first instruction of a kind.
proof fn lemma_first_unique(instrs: Seq<OptInstr>, op: OptOp, inputs: Seq<ValueId>, a: int, b: int)
    requires
        first_with(instrs, op, inputs, a),
        first_with(instrs, op, inputs, b),
    ensures
        a == b,
{
    if a < b {
        assert(!same_key(instrs[a], op, inputs));
    } else if b < a {
        assert(!same_key(instrs[b], op, inputs));
    }
}

/// Whether two lists of values are equal.
fn same_values(a: &Vec<ValueId>, b: &Vec<ValueId>) -> (r: bool)
    ensures
        r == (a@ == b@),
{
    if a.len() != b.len() {
        return false;
    }
    let mut i: usize = 0;
    while i < a.len()
        invariant
            a@.len() == b@.len(),
            i <= a@.len(),
            forall|k: int| 0 <= k < i ==> a@[k] == b@[k],
        decreases a@.len() - i,
    {
        if a[i].0 != b[i].0 {
            assert(a@[i as int] != b@[i as int]);
            return false;
        }
        i += 1;
    }
    assert(a@ =~= b@);
    true
}

/// The first instruction of `instrs` that computes `op` on `inputs`, if any.
fn find_first(instrs: &Vec<OptInstr>, op: OptOp, inputs: &Vec<ValueId>) -> (r: Option<usize>)
    ensures
        match r {
            Some(j) => first_with(instrs@, op, inputs@, j as int),
            None => forall|k: int| 0 <= k < instrs@.len() ==> !same_key(#[trigger] instrs@[k], op, inputs@),
        },
{
    let mut j: usize = 0;
    while j < instrs.len()
        invariant
            j <= instrs@.len(),
            forall|k: int| 0 <= k < j ==> !same_key(#[trigger] instrs@[k], op, inputs@),
        decreases instrs@.len() - j,
    {
        if instrs[j].op == op && same_values(&instrs[j].inputs, inputs) {
            return Some(j);
        }
        j += 1;
    }
    None
}

/// Some instruction before `j` has an effect.
pub open spec fn prior_effect(instrs: Seq<OptInstr>, j: int) -> bool {
    exists|k: int| 0 <= k < j && (#[trigger] instrs[k]).effect != OpEffect::Pure
}

/// Some instruction before `j` is a checkpoint.
pub open spec fn prior_checkpoint(instrs: Seq<OptInstr>, j: int) -> bool {
    exists|k: int| 0 <= k < j && (#[trigger] instrs[k]).op == OptOp::Checkpoint
}

/// Whether an instruction with an effect, or a checkpoint, comes before
/// instruction `j` of the block.
fn check_prior_effect(block: &BasicBlock, j: usize) -> (r: (bool, bool))
    requires
        j <= block.instructions@.len(),
    ensures
        r.0 == prior_effect(block.instructions@, j as int),
        r.1 == prior_checkpoint(block.instructions@, j as int),
{
    let mut pe = false;
    let mut pc = false;
    let mut k: usize = 0;
    while k < j
        invariant
            k <= j <= block.instructions@.len(),
            pe == prior_effect(block.instructions@, k as int),
            pc == prior_checkpoint(block.instructions@, k as int),
        decreases j - k,
    {
        let ins = &block.instructions[k];
        pe = pe || ins.effect != OpEffect::Pure;
        pc = pc || ins.op == OptOp::Checkpoint;
        proof {
            let s = block.instructions@;
            if pe { if !prior_effect(s, k as int) { assert(s[k as int].effect != OpEffect::Pure); } }
            if pc { if !prior_checkpoint(s, k as int) { assert(s[k as int].op == OptOp::Checkpoint); } }
        }
        k += 1;
    }
    (pe, pc)
}

/// Whether the instruction may move into the preceding block, given whether
/// an instruction with an effect (`pe`) or a checkpoint (`pc`) precedes it
/// in its own block.
pub open spec fn hoistable(ins: OptInstr, pe: bool, pc: bool) -> bool {
    if ins.op != OptOp::Checkpoint && ins.op.worst_effect() == OpEffect::Pure {
        true
    } else if !pe && !pc {
        true
    } else if ins.op is KsplangOpsIncrement {
        !pc
    } else if ins.op == OptOp::Checkpoint {
        !pc && !pe
    } else if !(ins.effect == OpEffect::Pure || ins.effect == OpEffect::MayFail) {
        !pe && !pc
    } else {
        match ins.op.worst_effect() {
            OpEffect::Pure => true,
            OpEffect::MayFail => !pe,
            _ => false,
        }
    }
}

/// Whether the instruction may move into the preceding block.
fn can_hoist_from_block(ins: &OptInstr, pe: bool, pc: bool) -> (r: bool)
    ensures
        r == hoistable(*ins, pe, pc),
{
    let worst = ins.op.worst_case_effect();
    if ins.op != OptOp::Checkpoint && worst == OpEffect::Pure {
        return true;
    }
    if !pe && !pc {
        return true;
    }
    if let OptOp::KsplangOpsIncrement(_) = ins.op {
        return !pc;
    }
    if ins.op == OptOp::Checkpoint {
        return !pc && !pe;
    }
    if !(ins.effect == OpEffect::Pure || ins.effect == OpEffect::MayFail) {
        return !pe && !pc;
    }
    match worst {
        OpEffect::Pure => true,
        OpEffect::MayFail => !pe,
        _ => false,
    }
}

/// The instructions of block `b`.
pub open spec fn instrs_of(g: GraphBuilder, b: BlockId) -> Seq<OptInstr> {
    g.blocks@[b.0 as int].instructions@
}

/// `ixs[i]` picks an instruction in each block `succs[i]`: all compute the
/// operation of the one picked in the last block on the same inputs, each is
/// the first such in its block, none is a jump, each may move up, and
/// checkpoints agree on the program position and count they record.
pub open spec fn candidate(g: GraphBuilder, succs: Seq<BlockId>, ixs: Seq<usize>) -> bool {
    let h = instrs_of(g, succs.last())[ixs.last() as int];
    &&& succs.len() > 0
    &&& ixs.len() == succs.len()
    &&& forall|i: int| 0 <= i < succs.len() ==> first_with(instrs_of(g, #[trigger] succs[i]), h.op, h.inputs@, ixs[i] as int)
    &&& !(h.op is Jump)
    &&& forall|i: int| 0 <= i < succs.len() ==> hoistable(instrs_of(g, #[trigger] succs[i])[ixs[i] as int],
            prior_effect(instrs_of(g, succs[i]), ixs[i] as int), prior_checkpoint(instrs_of(g, succs[i]), ixs[i] as int))
    &&& h.op == OptOp::Checkpoint ==> forall|i: int| 0 <= i < succs.len() ==>
            (#[trigger] instrs_of(g, succs[i])[ixs[i] as int]).program_position == h.program_position
            && instrs_of(g, succs[i])[ixs[i] as int].ksp_instr_count == h.ksp_instr_count
}

/// An instruction that moves up keeps its place relative to what must stay
/// before it (the instruction a round moves is picked by a `candidate`, see
/// `hoist_step`): a checkpoint, or an operation that may do more than fail
/// (a counter increment aside), moves only when every instruction before it
/// in its block is pure and none is a checkpoint; a counter increment never
/// passes a checkpoint; an operation that may fail never passes an
/// instruction with an effect.
pub proof fn lemma_moved_keeps_order(g: GraphBuilder, succs: Seq<BlockId>, ixs: Seq<usize>, i: int, k: int)
    requires
        candidate(g, succs, ixs),
        0 <= i < succs.len(),
        0 <= k < ixs[i],
    ensures
        ({
            let s = instrs_of(g, succs[i]);
            let h = s[ixs[i] as int];
            &&& (h.op == OptOp::Checkpoint || (!(h.op is KsplangOpsIncrement) && h.op.worst_effect() != OpEffect::Pure
                    && h.op.worst_effect() != OpEffect::MayFail))
                    ==> s[k].effect == OpEffect::Pure && s[k].op != OptOp::Checkpoint
            &&& h.op is KsplangOpsIncrement ==> s[k].op != OptOp::Checkpoint
            &&& h.op.worst_effect() == OpEffect::MayFail ==> s[k].effect == OpEffect::Pure
        }),
{
    let s = instrs_of(g, succs[i]);
    let j = ixs[i] as int;
    assert(hoistable(s[j], prior_effect(s, j), prior_checkpoint(s, j)));
    assert(first_with(s, picked(g, succs, ixs, succs.len() - 1).op, picked(g, succs, ixs, succs.len() - 1).inputs@, j));
    if s[k].effect != OpEffect::Pure {
        assert(prior_effect(s, j));
    }
    if s[k].op == OptOp::Checkpoint {
        assert(prior_checkpoint(s, j));
    }
}

/// The value `v` once each of `outs` is replaced by `to`.
pub open spec fn subst_value(v: ValueId, outs: Seq<ValueId>, to: ValueId) -> ValueId {
    if outs.contains(v) { to } else { v }
}

/// A list of values once each of `outs` is replaced by `to`.
pub open spec fn subst_values(s: Seq<ValueId>, outs: Seq<ValueId>, to: ValueId) -> Seq<ValueId> {
    s.map_values(|v: ValueId| subst_value(v, outs, to))
}

/// A condition once each of `outs` is replaced by `to` in it.
pub open spec fn subst_cond(c: Condition<ValueId>, outs: Seq<ValueId>, to: ValueId) -> Condition<ValueId> {
    match c {
        Condition::True => Condition::True,
        Condition::False => Condition::False,
        Condition::Eq(a, b) => Condition::Eq(subst_value(a, outs, to), subst_value(b, outs, to)),
        Condition::Neq(a, b) => Condition::Neq(subst_value(a, outs, to), subst_value(b, outs, to)),
        Condition::Lt(a, b) => Condition::Lt(subst_value(a, outs, to), subst_value(b, outs, to)),
        Condition::Leq(a, b) => Condition::Leq(subst_value(a, outs, to), subst_value(b, outs, to)),
        Condition::Gt(a, b) => Condition::Gt(subst_value(a, outs, to), subst_value(b, outs, to)),
        Condition::Geq(a, b) => Condition::Geq(subst_value(a, outs, to), subst_value(b, outs, to)),
        Condition::Divides(a, b) => Condition::Divides(subst_value(a, outs, to), subst_value(b, outs, to)),
        Condition::NotDivides(a, b) => Condition::NotDivides(subst_value(a, outs, to), subst_value(b, outs, to)),
    }
}

/// An operation once each of `outs` is replaced by `to` in its condition.
pub open spec fn subst_op(op: OptOp, outs: Seq<ValueId>, to: ValueId) -> OptOp {
    match op {
        OptOp::KsplangOpsIncrement(c) => OptOp::KsplangOpsIncrement(subst_cond(c, outs, to)),
        OptOp::Jump(c, t) => OptOp::Jump(subst_cond(c, outs, to), t),
        OptOp::DeoptAssert(c) => OptOp::DeoptAssert(subst_cond(c, outs, to)),
        _ => op,
    }
}

/// `b` is the instruction `a` once each of `outs` is replaced by `to` in what it reads.
pub open spec fn substituted(a: OptInstr, b: OptInstr, outs: Seq<ValueId>, to: ValueId) -> bool {
    &&& b.id == a.id
    &&& b.op == subst_op(a.op, outs, to)
    &&& b.inputs@ == subst_values(a.inputs@, outs, to)
    &&& b.out == a.out
    &&& b.effect == a.effect
    &&& b.program_position == a.program_position
    &&& b.ksp_instr_count == a.ksp_instr_count
}

/// The two blocks differ at most in their instructions.
pub open spec fn same_shape(a: BasicBlock, b: BasicBlock) -> bool {
    &&& b.id == a.id
    &&& b.incoming_jumps == a.incoming_jumps
    &&& b.outgoing_jumps == a.outgoing_jumps
    &&& b.ksplang_instr_count == a.ksplang_instr_count
    &&& b.parameters == a.parameters
    &&& b.is_sealed == a.is_sealed
}

/// The graph `b` keeps the blocks, jumps and values of `a`, but for the
/// ranges of values past the constants.
pub open spec fn same_frame(a: GraphBuilder, b: GraphBuilder) -> bool {
    &&& b.blocks@.len() == a.blocks@.len()
    &&& forall|k: int| 0 <= k < a.blocks@.len() ==> same_shape(a.blocks@[k], #[trigger] b.blocks@[k])
    &&& b.values@.len() == a.values@.len()
    &&& forall|v: int| 0 <= v < a.values@.len() ==> (#[trigger] b.values@[v]).id == a.values@[v].id
    &&& forall|v: int| 0 <= v <= C_IMIN ==> (#[trigger] b.values@[v]) == a.values@[v]
    &&& b.current_block == a.current_block
}

/// A graph that keeps the frame of a well-formed graph is well-formed.
proof fn lemma_frame_wf(a: GraphBuilder, b: GraphBuilder)
    requires
        a.wf(),
        same_frame(a, b),
    ensures
        b.wf(),
{
    assert forall|i: int, k: int| 0 <= i < b.blocks@.len() && 0 <= k < b.blocks@[i].outgoing_jumps@.len()
        implies (#[trigger] b.blocks@[i].outgoing_jumps@[k]).1.0 < b.blocks@.len() by {
        assert(same_shape(a.blocks@[i], b.blocks@[i]));
    }
    assert forall|i: int, k: int| 0 <= i < b.blocks@.len() && 0 <= k < b.blocks@[i].incoming_jumps@.len()
        implies (#[trigger] b.blocks@[i].incoming_jumps@[k]).0.0 < b.blocks@.len() by {
        assert(same_shape(a.blocks@[i], b.blocks@[i]));
    }
    assert forall|i: int| 0 <= i < b.blocks@.len() implies #[trigger] b.blocks@[i].id == BlockId(i as u32) by {
        assert(same_shape(a.blocks@[i], b.blocks@[i]));
    }
    assert forall|i: int| 0 <= i < b.values@.len() implies #[trigger] b.values@[i].id == ValueId(i as u32) by {
        assert(a.values@[i].id == ValueId(i as u32));
    }
    reveal(crate::cfg::constants_in);
    assert(b.values@[crate::cfg::C_ZERO as int] == a.values@[crate::cfg::C_ZERO as int]);
    assert(b.values@[crate::cfg::C_ONE as int] == a.values@[crate::cfg::C_ONE as int]);
    assert(b.values@[crate::cfg::C_TWO as int] == a.values@[crate::cfg::C_TWO as int]);
    assert(b.values@[crate::cfg::C_THREE as int] == a.values@[crate::cfg::C_THREE as int]);
    assert(b.values@[C_IMIN as int] == a.values@[C_IMIN as int]);
}

/// `v` once each of `outs` is replaced by `to`.
fn subst_value_exec(v: ValueId, outs: &Vec<ValueId>, to: ValueId) -> (r: ValueId)
    ensures
        r == subst_value(v, outs@, to),
{
    let mut i: usize = 0;
    while i < outs.len()
        invariant
            i <= outs@.len(),
            forall|k: int| 0 <= k < i ==> outs@[k] != v,
        decreases outs@.len() - i,
    {
        if outs[i].0 == v.0 {
            assert(outs@[i as int] == v);
            return to;
        }
        i += 1;
    }
    v
}

/// A list of values once each of `outs` is replaced by `to`.
fn subst_vec(s: &Vec<ValueId>, outs: &Vec<ValueId>, to: ValueId) -> (r: Vec<ValueId>)
    ensures
        r@ == subst_values(s@, outs@, to),
{
    let mut r: Vec<ValueId> = Vec::new();
    let mut i: usize = 0;
    while i < s.len()
        invariant
            i <= s@.len(),
            r@ == subst_values(s@.take(i as int), outs@, to),
        decreases s@.len() - i,
    {
        let x = subst_value_exec(s[i], outs, to);
        r.push(x);
        assert(s@.take(i + 1) == s@.take(i as int).push(s@[i as int]));
        i += 1;
    }
    assert(s@.take(s@.len() as int) == s@);
    r
}

/// A condition once each of `outs` is replaced by `to` in it.
fn subst_cond_exec(c: Condition<ValueId>, outs: &Vec<ValueId>, to: ValueId) -> (r: Condition<ValueId>)
    ensures
        r == subst_cond(c, outs@, to),
{
    match c {
        Condition::True => Condition::True,
        Condition::False => Condition::False,
        Condition::Eq(a, b) => Condition::Eq(subst_value_exec(a, outs, to), subst_value_exec(b, outs, to)),
        Condition::Neq(a, b) => Condition::Neq(subst_value_exec(a, outs, to), subst_value_exec(b, outs, to)),
        Condition::Lt(a, b) => Condition::Lt(subst_value_exec(a, outs, to), subst_value_exec(b, outs, to)),
        Condition::Leq(a, b) => Condition::Leq(subst_value_exec(a, outs, to), subst_value_exec(b, outs, to)),
        Condition::Gt(a, b) => Condition::Gt(subst_value_exec(a, outs, to), subst_value_exec(b, outs, to)),
        Condition::Geq(a, b) => Condition::Geq(subst_value_exec(a, outs, to), subst_value_exec(b, outs, to)),
        Condition::Divides(a, b) => Condition::Divides(subst_value_exec(a, outs, to), subst_value_exec(b, outs, to)),
        Condition::NotDivides(a, b) => Condition::NotDivides(subst_value_exec(a, outs, to), subst_value_exec(b, outs, to)),
    }
}

/// An operation once each of `outs` is replaced by `to` in its condition.
fn subst_op_exec(op: OptOp, outs: &Vec<ValueId>, to: ValueId) -> (r: OptOp)
    ensures
        r == subst_op(op, outs@, to),
{
    match op {
        OptOp::KsplangOpsIncrement(c) => OptOp::KsplangOpsIncrement(subst_cond_exec(c, outs, to)),
        OptOp::Jump(c, t) => OptOp::Jump(subst_cond_exec(c, outs, to), t),
        OptOp::DeoptAssert(c) => OptOp::DeoptAssert(subst_cond_exec(c, outs, to)),
        _ => op,
    }
}

/// Replaces each of `outs` by `to` wherever the instructions of a block read it.
fn subst_block(b: &mut BasicBlock, outs: &Vec<ValueId>, to: ValueId)
    ensures
        same_shape(*old(b), *final(b)),
        final(b).instructions@.len() == old(b).instructions@.len(),
        forall|j: int| 0 <= j < old(b).instructions@.len() ==>
            substituted(old(b).instructions@[j], #[trigger] final(b).instructions@[j], outs@, to),
{
    let mut j: usize = 0;
    while j < b.instructions.len()
        invariant
            j <= b.instructions@.len(),
            same_shape(*old(b), *b),
            b.instructions@.len() == old(b).instructions@.len(),
            forall|k: int| 0 <= k < j ==> substituted(old(b).instructions@[k], #[trigger] b.instructions@[k], outs@, to),
            forall|k: int| j <= k < b.instructions@.len() ==> #[trigger] b.instructions@[k] == old(b).instructions@[k],
        decreases b.instructions@.len() - j,
    {
        let ins = subst_vec(&b.instructions[j].inputs, outs, to);
        let op = subst_op_exec(b.instructions[j].op, outs, to);
        b.instructions[j].inputs = ins;
        b.instructions[j].op = op;
        j += 1;
    }
}

/// Replaces each of `outs` by `to` wherever the graph reads it: in the
/// instructions and on the abstract stack.
pub(crate) fn replace_uses(g: &mut GraphBuilder, outs: &Vec<ValueId>, to: ValueId)
    requires
        old(g).wf(),
    ensures
        same_frame(*old(g), *final(g)),
        final(g).values@ == old(g).values@,
        final(g).stack@ == subst_values(old(g).stack@, outs@, to),
        forall|k: int| 0 <= k < old(g).blocks@.len() ==> (#[trigger] final(g).blocks@[k]).instructions@.len() == old(g).blocks@[k].instructions@.len(),
        forall|k: int, j: int| 0 <= k < old(g).blocks@.len() && 0 <= j < old(g).blocks@[k].instructions@.len() ==>
            substituted(old(g).blocks@[k].instructions@[j], #[trigger] final(g).blocks@[k].instructions@[j], outs@, to),
{
    let mut i: usize = 0;
    while i < g.blocks.len()
        invariant
            i <= g.blocks@.len(),
            g.blocks@.len() == old(g).blocks@.len(),
            g.values@ == old(g).values@,
            g.stack@ == old(g).stack@,
            g.current_block == old(g).current_block,
            forall|k: int| 0 <= k < g.blocks@.len() ==> same_shape(old(g).blocks@[k], #[trigger] g.blocks@[k]),
            forall|k: int| 0 <= k < g.blocks@.len() ==> (#[trigger] g.blocks@[k]).instructions@.len() == old(g).blocks@[k].instructions@.len(),
            forall|k: int, j: int| 0 <= k < i && 0 <= j < old(g).blocks@[k].instructions@.len() ==>
                substituted(old(g).blocks@[k].instructions@[j], #[trigger] g.blocks@[k].instructions@[j], outs@, to),
            forall|k: int| i <= k < g.blocks@.len() ==> #[trigger] g.blocks@[k] == old(g).blocks@[k],
        decreases g.blocks@.len() - i,
    {
        subst_block(&mut g.blocks[i], outs, to);
        i += 1;
    }
    let st = subst_vec(&g.stack, outs, to);
    g.stack = st;
}

/// Every block in `succs` is a block of the graph.
pub open spec fn blocks_in(g: GraphBuilder, succs: Seq<BlockId>) -> bool {
    forall|i: int| 0 <= i < succs.len() ==> (#[trigger] succs[i]).0 < g.blocks@.len()
}


/// `v` is a value that an instruction computed: neither one of the constants
/// nor outside the graph.
pub open spec fn computed(g: GraphBuilder, v: ValueId) -> bool {
    C_IMIN < v.0 < g.values@.len()
}

/// The instruction picked by `ixs[i]` in block `succs[i]`.
pub open spec fn picked(g: GraphBuilder, succs: Seq<BlockId>, ixs: Seq<usize>, i: int) -> OptInstr {
    instrs_of(g, succs[i])[ixs[i] as int]
}

/// The computed outputs of the instructions picked in the first `n` blocks.
pub open spec fn outs_upto(g: GraphBuilder, succs: Seq<BlockId>, ixs: Seq<usize>, n: int) -> Seq<ValueId>
    decreases n,
{
    if n <= 0 {
        Seq::empty()
    } else {
        let o = picked(g, succs, ixs, n - 1).out;
        if computed(g, o) { outs_upto(g, succs, ixs, n - 1).push(o) } else { outs_upto(g, succs, ixs, n - 1) }
    }
}

/// The value of least index in a nonempty list.
pub open spec fn least_id(s: Seq<ValueId>) -> ValueId
    decreases s.len(),
{
    if s.len() <= 1 {
        s[0]
    } else {
        let m = least_id(s.drop_last());
        if s.last().0 < m.0 { s.last() } else { m }
    }
}

/// The least start of the ranges of the values in a nonempty list.
pub open spec fn lo_of(g: GraphBuilder, s: Seq<ValueId>) -> int
    decreases s.len(),
{
    let r = g.values@[s.last().0 as int].range@.start as int;
    if s.len() <= 1 { r } else { vstd::math::min(lo_of(g, s.drop_last()), r) }
}

/// The greatest end of the ranges of the values in a nonempty list.
pub open spec fn hi_of(g: GraphBuilder, s: Seq<ValueId>) -> int
    decreases s.len(),
{
    let r = g.values@[s.last().0 as int].range@.end as int;
    if s.len() <= 1 { r } else { vstd::math::max(hi_of(g, s.drop_last()), r) }
}

/// Some picked instruction follows an instruction with an effect.
pub open spec fn crosses(g: GraphBuilder, succs: Seq<BlockId>, ixs: Seq<usize>) -> bool {
    exists|i: int| 0 <= i < succs.len() && #[trigger] prior_effect(instrs_of(g, succs[i]), ixs[i] as int)
}

/// The worst effect among the instructions picked in the first `n` blocks.
pub open spec fn worst_upto(g: GraphBuilder, succs: Seq<BlockId>, ixs: Seq<usize>, n: int) -> OpEffect
    decreases n,
{
    if n <= 0 {
        OpEffect::Pure
    } else {
        let a = worst_upto(g, succs, ixs, n - 1);
        let b = picked(g, succs, ixs, n - 1).effect;
        if a.rank() < b.rank() { b } else { a }
    }
}

/// Index of the last instruction that is no jump, or -1.
pub open spec fn last_non_jump(s: Seq<OptInstr>) -> int
    decreases s.len(),
{
    if s.len() == 0 {
        -1
    } else if s.last().op is Jump {
        last_non_jump(s.drop_last())
    } else {
        s.len() - 1
    }
}

/// Where an instruction moved up goes: after the last instruction that is no
/// jump, else after the first instruction.
pub open spec fn insert_pos(s: Seq<OptInstr>) -> int {
    if last_non_jump(s) >= 0 {
        last_non_jump(s) + 1
    } else if s.len() > 0 {
        1
    } else {
        0
    }
}

/// The value the moved instruction computes into: the least of the computed
/// outputs, or value 0 when it has none.
pub open spec fn hoist_target(g: GraphBuilder, succs: Seq<BlockId>, ixs: Seq<usize>) -> ValueId {
    let outs = outs_upto(g, succs, ixs, succs.len() as int);
    if picked(g, succs, ixs, succs.len() - 1).op.outputs() && outs.len() > 0 { least_id(outs) } else { ValueId(0) }
}

/// Whether the moved instruction has a computed output whose range is set.
pub open spec fn has_target(g: GraphBuilder, succs: Seq<BlockId>, ixs: Seq<usize>) -> bool {
    picked(g, succs, ixs, succs.len() - 1).op.outputs() && outs_upto(g, succs, ixs, succs.len() as int).len() > 0
}

/// `b` is `a` after the picked instructions moved up, as one, into block `p`:
/// each is gone from its block, one copy stands in `p` before its jumps, its
/// outputs are merged into one value that every instruction and the stack
/// read in their place, and that value's range covers theirs (the whole
/// range when an instruction with an effect came before one of them).
pub open spec fn moved(a: GraphBuilder, b: GraphBuilder, p: int, succs: Seq<BlockId>, ixs: Seq<usize>) -> bool {
    let outs = outs_upto(a, succs, ixs, succs.len() as int);
    let h = picked(a, succs, ixs, succs.len() - 1);
    let to = hoist_target(a, succs, ixs);
    let pa = a.blocks@[p].instructions@;
    let pb = b.blocks@[p].instructions@;
    let pos = insert_pos(pa);
    &&& same_frame(a, b)
    &&& forall|k: int| 0 <= k < a.blocks@.len() && k != p && !succs.contains(BlockId(k as u32)) ==> {
            &&& (#[trigger] b.blocks@[k]).instructions@.len() == a.blocks@[k].instructions@.len()
            &&& forall|j: int| 0 <= j < a.blocks@[k].instructions@.len() ==>
                    substituted(a.blocks@[k].instructions@[j], #[trigger] b.blocks@[k].instructions@[j], outs, to)
        }
    &&& forall|i: int| 0 <= i < succs.len() ==> {
            let sa = instrs_of(a, #[trigger] succs[i]);
            let sb = instrs_of(b, succs[i]);
            let x = ixs[i] as int;
            &&& sb.len() == sa.len() - 1
            &&& forall|j: int| 0 <= j < x ==> substituted(sa[j], #[trigger] sb[j], outs, to)
            &&& forall|j: int| x <= j < sb.len() ==> substituted(sa[j + 1], #[trigger] sb[j], outs, to)
        }
    &&& pb.len() == pa.len() + 1
    &&& forall|j: int| 0 <= j < pos ==> substituted(pa[j], #[trigger] pb[j], outs, to)
    &&& forall|j: int| pos <= j < pa.len() ==> substituted(pa[j], #[trigger] pb[j + 1], outs, to)
    &&& pb[pos].id == InstrId(BlockId(p as u32), pos as u32)
    &&& pb[pos].op == subst_op(h.op, outs, to)
    &&& pb[pos].inputs@ == subst_values(h.inputs@, outs, to)
    &&& pb[pos].out == to
    &&& pb[pos].effect == worst_upto(a, succs, ixs, succs.len() as int)
    &&& pb[pos].program_position == h.program_position
    &&& pb[pos].ksp_instr_count as int == vstd::math::min(h.ksp_instr_count + a.blocks@[p].ksplang_instr_count, u32::MAX as int)
    &&& forall|v: int| 0 <= v < a.values@.len() && !(has_target(a, succs, ixs) && v == to.0) ==> #[trigger] b.values@[v] == a.values@[v]
    &&& has_target(a, succs, ixs) ==> if crosses(a, succs, ixs) {
            is_irange(b.values@[to.0 as int].range, i64::MIN as int, i64::MAX as int)
        } else {
            is_irange(b.values@[to.0 as int].range, lo_of(a, outs), hi_of(a, outs))
        }
    &&& b.stack@ == subst_values(a.stack@, outs, to)
}


/// Where an instruction moved up into the block goes (see `insert_pos`).
fn insert_position(block: &BasicBlock) -> (pos: usize)
    ensures
        pos as int == insert_pos(block.instructions@),
{
    let s = &block.instructions;
    let mut k: usize = s.len();
    assert(s@.take(k as int) == s@);
    while k > 0
        invariant
            s@ == block.instructions@,
            k <= s@.len(),
            last_non_jump(s@) == last_non_jump(s@.take(k as int)),
            forall|j: int| k <= j < s@.len() ==> (#[trigger] s@[j]).op is Jump,
        decreases k,
    {
        assert(s@.take(k as int).drop_last() == s@.take(k - 1));
        assert(s@.take(k as int).last() == s@[k - 1]);
        if let OptOp::Jump(_, _) = s[k - 1].op {
            k -= 1;
        } else {
            assert(s@.take(k as int).last() == s@[k - 1]);
            assert(last_non_jump(s@.take(k as int)) == k - 1);
            return k;
        }
    }
    assert(last_non_jump(s@.take(0)) == -1);
    assert(s@.take(0) == Seq::<OptInstr>::empty());
    if s.len() > 0 { 1 } else { 0 }
}

/// A copy of a list of values.
fn copy_values(s: &Vec<ValueId>) -> (r: Vec<ValueId>)
    ensures
        r@ == s@,
{
    let mut r: Vec<ValueId> = Vec::new();
    let mut i: usize = 0;
    while i < s.len()
        invariant
            i <= s@.len(),
            r@ == s@.take(i as int),
        decreases s@.len() - i,
    {
        r.push(s[i]);
        assert(s@.take(i + 1) == s@.take(i as int).push(s@[i as int]));
        i += 1;
    }
    assert(s@.take(s@.len() as int) == s@);
    r
}

/// Moves the picked instructions, which compute the same thing in every
/// block of `succs`, up into block `pred` as one instruction.
#[verifier::rlimit(100)]
fn move_up(g: &mut GraphBuilder, pred: BlockId, succs: &Vec<BlockId>, ixs: &Vec<usize>)
    requires
        old(g).wf(),
        pred.0 < old(g).n(),
        blocks_in(*old(g), succs@),
        strictly_sorted(succs@),
        !succs@.contains(pred),
        candidate(*old(g), succs@, ixs@),
    ensures
        final(g).wf(),
        moved(*old(g), *final(g), pred.0 as int, succs@, ixs@),
{
    let ghost a = *g;
    let n = succs.len();
    let last = succs[n - 1].0 as usize;
    let hx = ixs[n - 1];
    assert(first_with(instrs_of(a, succs@[n - 1]), picked(a, succs@, ixs@, n - 1).op,
        picked(a, succs@, ixs@, n - 1).inputs@, ixs@[n - 1] as int));
    let op = g.blocks[last].instructions[hx].op;
    let inputs = copy_values(&g.blocks[last].instructions[hx].inputs);
    let program_position = g.blocks[last].instructions[hx].program_position;
    let hksp = g.blocks[last].instructions[hx].ksp_instr_count;

    let mut outs: Vec<ValueId> = Vec::new();
    let mut effect = OpEffect::Pure;
    let mut cross = false;
    let mut least = ValueId(0);
    let mut lo: i64 = 0;
    let mut hi: i64 = 0;
    let mut i: usize = 0;
    while i < n
        invariant
            n == succs@.len(),
            i <= n,
            *g == a,
            a.wf(),
            blocks_in(a, succs@),
            candidate(a, succs@, ixs@),
            outs@ == outs_upto(a, succs@, ixs@, i as int),
            effect == worst_upto(a, succs@, ixs@, i as int),
            cross == exists|k: int| 0 <= k < i && #[trigger] prior_effect(instrs_of(a, succs@[k]), ixs@[k] as int),
            outs@.len() > 0 ==> least == least_id(outs@) && lo == lo_of(a, outs@) && hi == hi_of(a, outs@),
        decreases n - i,
    {
        let s = succs[i].0 as usize;
        let x = ixs[i];
        let ghost hh = picked(a, succs@, ixs@, n - 1);
        assert(first_with(instrs_of(a, succs@[i as int]), hh.op, hh.inputs@, ixs@[i as int] as int));
        let e = g.blocks[s].instructions[x].effect;
        effect = OpEffect::worse_of(effect, e);
        let (pe, _) = check_prior_effect(&g.blocks[s], x);
        let ghost was = cross;
        cross = cross || pe;
        proof {
            if cross && !was {
                assert(prior_effect(instrs_of(a, succs@[i as int]), ixs@[i as int] as int));
            }
        }
        let o = g.blocks[s].instructions[x].out;
        if C_IMIN < o.0 && (o.0 as usize) < g.values.len() {
            let st = *g.values[o.0 as usize].range.start();
            let en = *g.values[o.0 as usize].range.end();
            let ghost prev = outs@;
            if outs.len() == 0 {
                least = o;
                lo = st;
                hi = en;
            } else {
                if o.0 < least.0 {
                    least = o;
                }
                if st < lo {
                    lo = st;
                }
                if en > hi {
                    hi = en;
                }
            }
            outs.push(o);
            assert(outs@.drop_last() == prev);
        }
        i += 1;
    }

    let pos = insert_position(&g.blocks[pred.0 as usize]);
    proof { lemma_insert_pos_bound(a.blocks@[pred.0 as int].instructions@); }
    let has_t = op.has_output() && outs.len() > 0;
    let to = if has_t { least } else { ValueId(0) };
    assert(to == hoist_target(a, succs@, ixs@));
    assert(has_t == has_target(a, succs@, ixs@));
    assert(cross == crosses(a, succs@, ixs@));
    proof {
        if has_t {
            lemma_least_in(outs@);
            assert(computed(a, to)) by { lemma_outs_computed(a, succs@, ixs@, n as int, outs@.len() as int); }
        }
    }

    replace_uses(g, &outs, to);
    let ghost b1 = *g;
    if has_t {
        let range = if cross { full_range() } else { lo..=hi };
        g.values[to.0 as usize].range = range;
    }
    let ghost c = *g;
    assert(same_frame(a, c));

    let mut i: usize = 0;
    while i < n
        invariant
            n == succs@.len(),
            i <= n,
            same_frame(a, c),
            same_frame(c, *g),
            g.values@ == c.values@,
            g.stack@ == c.stack@,
            blocks_in(a, succs@),
            strictly_sorted(succs@),
            candidate(a, succs@, ixs@),
            forall|k: int| 0 <= k < a.blocks@.len() ==> (#[trigger] c.blocks@[k]).instructions@.len() == a.blocks@[k].instructions@.len(),
            forall|k: int| 0 <= k < i ==> instrs_of(*g, #[trigger] succs@[k]) == instrs_of(c, succs@[k]).remove(ixs@[k] as int),
            forall|k: int| 0 <= k < c.blocks@.len() && !succs@.take(i as int).contains(BlockId(k as u32)) ==>
                #[trigger] g.blocks@[k] == c.blocks@[k],
        decreases n - i,
    {
        let s = succs[i].0 as usize;
        let x = ixs[i];
        let ghost hh = picked(a, succs@, ixs@, n - 1);
        assert(first_with(instrs_of(a, succs@[i as int]), hh.op, hh.inputs@, ixs@[i as int] as int));
        assert(!succs@.take(i as int).contains(succs@[i as int])) by {
            if succs@.take(i as int).contains(succs@[i as int]) {
                let k = choose|k: int| 0 <= k < i && succs@.take(i as int)[k] == succs@[i as int];
                assert(succs@[k].0 < succs@[i as int].0);
            }
        }
        assert(BlockId(s as u32) == succs@[i as int]);
        let ghost before = *g;
        g.blocks[s].instructions.remove(x);
        assert forall|k: int| 0 <= k < c.blocks@.len() && !succs@.take(i + 1).contains(BlockId(k as u32)) implies
            #[trigger] g.blocks@[k] == c.blocks@[k] by {
            assert(!succs@.take(i as int).contains(BlockId(k as u32))) by {
                if succs@.take(i as int).contains(BlockId(k as u32)) {
                    let q = choose|q: int| 0 <= q < i && succs@.take(i as int)[q] == BlockId(k as u32);
                    assert(succs@.take(i + 1)[q] == BlockId(k as u32));
                }
            }
            if k == s {
                assert(succs@.take(i + 1)[i as int] == BlockId(k as u32));
            }
        }
        assert forall|k: int| 0 <= k < i + 1 implies instrs_of(*g, #[trigger] succs@[k]) == instrs_of(c, succs@[k]).remove(ixs@[k] as int) by {
            if k < i {
                assert(succs@[k].0 < succs@[i as int].0);
                assert(g.blocks@[succs@[k].0 as int] == before.blocks@[succs@[k].0 as int]);
            }
        }
        assert forall|k: int| 0 <= k < c.blocks@.len() implies same_shape(c.blocks@[k], #[trigger] g.blocks@[k]) by {
            if k != s { assert(g.blocks@[k] == before.blocks@[k]); }
        }
        i += 1;
    }
    let ghost d = *g;

    let new_inputs = subst_vec(&inputs, &outs, to);
    let new_op = subst_op_exec(op, &outs, to);
    let count = g.blocks[pred.0 as usize].ksplang_instr_count;
    let ksp: u32 = if hksp as u64 + count as u64 > u32::MAX as u64 { u32::MAX } else { hksp + count };
    let h = OptInstr {
        id: InstrId(pred, pos as u32),
        op: new_op,
        inputs: new_inputs,
        out: to,
        effect,
        program_position,
        ksp_instr_count: ksp,
    };
    assert(!succs@.take(n as int).contains(pred)) by { assert(succs@.take(n as int) == succs@); }
    assert(g.blocks@[pred.0 as int] == c.blocks@[pred.0 as int]);
    g.blocks[pred.0 as usize].instructions.insert(pos, h);
    proof {
        assert(same_frame(a, *g)) by {
            assert forall|k: int| 0 <= k < a.blocks@.len() implies same_shape(a.blocks@[k], #[trigger] g.blocks@[k]) by {
                assert(same_shape(a.blocks@[k], c.blocks@[k]));
                assert(same_shape(c.blocks@[k], d.blocks@[k]));
            }
        }
        lemma_frame_wf(a, *g);
        assert(succs@.take(n as int) == succs@);
        assert forall|k: int| 0 <= k < a.blocks@.len() && k != pred.0 && !succs@.contains(BlockId(k as u32)) implies {
            &&& (#[trigger] g.blocks@[k]).instructions@.len() == a.blocks@[k].instructions@.len()
            &&& forall|j: int| 0 <= j < a.blocks@[k].instructions@.len() ==>
                    substituted(a.blocks@[k].instructions@[j], #[trigger] g.blocks@[k].instructions@[j], outs@, to)
        } by {
            assert(g.blocks@[k] == d.blocks@[k]);
            assert(d.blocks@[k] == c.blocks@[k]);
            assert(c.blocks@[k] == b1.blocks@[k]);
        }
        assert forall|q: int| 0 <= q < succs@.len() implies {
            let sa = instrs_of(a, #[trigger] succs@[q]);
            let sb = instrs_of(*g, succs@[q]);
            let x = ixs@[q] as int;
            &&& sb.len() == sa.len() - 1
            &&& forall|j: int| 0 <= j < x ==> substituted(sa[j], #[trigger] sb[j], outs@, to)
            &&& forall|j: int| x <= j < sb.len() ==> substituted(sa[j + 1], #[trigger] sb[j], outs@, to)
        } by {
            let ghost hh = picked(a, succs@, ixs@, n - 1);
            assert(first_with(instrs_of(a, succs@[q]), hh.op, hh.inputs@, ixs@[q] as int));
            assert(succs@[q] != pred);
            assert(instrs_of(*g, succs@[q]) == instrs_of(d, succs@[q]));
            assert(instrs_of(c, succs@[q]) == instrs_of(b1, succs@[q]));
        }
    }
}

/// The least value of a nonempty list is in it.
proof fn lemma_least_in(s: Seq<ValueId>)
    requires
        s.len() > 0,
    ensures
        s.contains(least_id(s)),
    decreases s.len(),
{
    if s.len() > 1 {
        lemma_least_in(s.drop_last());
        let m = least_id(s.drop_last());
        let k = choose|k: int| 0 <= k < s.drop_last().len() && s.drop_last()[k] == m;
        assert(s[k] == m);
        assert(s[s.len() - 1] == s.last());
    } else {
        assert(s[0] == least_id(s));
    }
}

/// Every value of `outs_upto` is computed.
proof fn lemma_outs_computed(g: GraphBuilder, succs: Seq<BlockId>, ixs: Seq<usize>, n: int, m: int)
    ensures
        forall|k: int| 0 <= k < outs_upto(g, succs, ixs, n).len() ==> computed(g, #[trigger] outs_upto(g, succs, ixs, n)[k]),
    decreases n,
{
    if n > 0 {
        lemma_outs_computed(g, succs, ixs, n - 1, m);
        let prev = outs_upto(g, succs, ixs, n - 1);
        let o = picked(g, succs, ixs, n - 1).out;
        if computed(g, o) {
            assert forall|k: int| 0 <= k < outs_upto(g, succs, ixs, n).len() implies computed(g, #[trigger] outs_upto(g, succs, ixs, n)[k]) by {
                if k < prev.len() { assert(outs_upto(g, succs, ixs, n)[k] == prev[k]); }
            }
        }
    }
}

/// The insert position lies within the block, or just past it.
proof fn lemma_insert_pos_bound(s: Seq<OptInstr>)
    ensures
        -1 <= last_non_jump(s) < s.len(),
        0 <= insert_pos(s) <= s.len(),
    decreases s.len(),
{
    if s.len() > 0 && s.last().op is Jump {
        lemma_insert_pos_bound(s.drop_last());
    }
}


/// The instruction `j` of the last block passes the tests of the first `i`
/// blocks: `ixs[k]` is the first instruction of block `succs[k]` of its kind,
/// and it may move up.
pub open spec fn passes_upto(g: GraphBuilder, succs: Seq<BlockId>, h: OptInstr, ixs: Seq<usize>, i: int) -> bool {
    &&& ixs.len() == i
    &&& forall|k: int| 0 <= k < i ==> first_with(instrs_of(g, #[trigger] succs[k]), h.op, h.inputs@, ixs[k] as int)
    &&& forall|k: int| 0 <= k < i ==> hoistable(instrs_of(g, #[trigger] succs[k])[ixs[k] as int],
            prior_effect(instrs_of(g, succs[k]), ixs[k] as int), prior_checkpoint(instrs_of(g, succs[k]), ixs[k] as int))
    &&& h.op == OptOp::Checkpoint ==> forall|k: int| 0 <= k < i ==>
            (#[trigger] instrs_of(g, succs[k])[ixs[k] as int]).program_position == h.program_position
            && instrs_of(g, succs[k])[ixs[k] as int].ksp_instr_count == h.ksp_instr_count
}

/// The first instruction of the last block that, with the first instruction of
/// its kind in every other block, may move up; the instructions picked, one
/// per block.
fn find_candidate(g: &GraphBuilder, succs: &Vec<BlockId>) -> (r: Option<Vec<usize>>)
    requires
        g.wf(),
        blocks_in(*g, succs@),
        succs@.len() > 0,
    ensures
        match r {
            Some(ixs) => candidate(*g, succs@, ixs@)
                && forall|o: Seq<usize>| #[trigger] candidate(*g, succs@, o) ==> ixs@.last() <= o.last(),
            None => forall|o: Seq<usize>| !#[trigger] candidate(*g, succs@, o),
        },
{
    let n = succs.len();
    let last = succs[n - 1].0 as usize;
    let li = &g.blocks[last].instructions;
    let mut j: usize = 0;
    while j < li.len()
        invariant
            n == succs@.len() > 0,
            g.wf(),
            blocks_in(*g, succs@),
            last == succs@[n - 1].0,
            li@ == instrs_of(*g, succs@.last()),
            j <= li@.len(),
            forall|o: Seq<usize>| #[trigger] candidate(*g, succs@, o) ==> o.last() >= j,
        decreases li@.len() - j,
    {
        let h = &li[j];
        let ghost hv = *h;
        let is_jump = match h.op { OptOp::Jump(_, _) => true, _ => false };
        let first = find_first(li, h.op, &h.inputs);
        if !is_jump && first == Some(j) {
            let mut ixs: Vec<usize> = Vec::new();
            let mut ok = true;
            let mut i: usize = 0;
            let ghost mut bad: int = -1;
            while i < n && ok
                invariant
                    n == succs@.len() > 0,
                    g.wf(),
                    blocks_in(*g, succs@),
                    li@ == instrs_of(*g, succs@.last()),
                    j < li@.len(),
                    hv == li@[j as int],
                    *h == hv,
                    i <= n,
                    ok ==> passes_upto(*g, succs@, hv, ixs@, i as int),
                    !ok ==> 0 <= bad < n && forall|o: Seq<usize>| #[trigger] candidate(*g, succs@, o) ==> o.last() != j,
                decreases n - i, (if ok { 1int } else { 0int }),
            {
                let s = succs[i].0 as usize;
                let blk = &g.blocks[s];
                assert(blk.instructions@ == instrs_of(*g, succs@[i as int]));
                assert(h.op == hv.op && h.inputs@ == hv.inputs@);
                match find_first(&blk.instructions, h.op, &h.inputs) {
                    None => {
                        proof {
                            bad = i as int;
                            assert forall|o: Seq<usize>| #[trigger] candidate(*g, succs@, o) implies o.last() != j by {
                                if o.last() == j {
                                    assert(instrs_of(*g, succs@.last())[o.last() as int] == hv);
                                    assert(first_with(instrs_of(*g, succs@[i as int]), hv.op, hv.inputs@, o[i as int] as int));
                                    assert(!same_key(instrs_of(*g, succs@[i as int])[o[i as int] as int], hv.op, hv.inputs@));
                                }
                            }
                        }
                        ok = false;
                    }
                    Some(x) => {
                        let (pe, pc) = check_prior_effect(blk, x);
                        let ins = &blk.instructions[x];
                        let fits = can_hoist_from_block(ins, pe, pc) && (h.op != OptOp::Checkpoint
                            || (ins.program_position == h.program_position && ins.ksp_instr_count == h.ksp_instr_count));
                        if fits {
                            let ghost before = ixs@;
                            assert(passes_upto(*g, succs@, hv, before, i as int));
                            ixs.push(x);
                            proof {
                                assert forall|k: int| 0 <= k < i + 1 implies first_with(instrs_of(*g, #[trigger] succs@[k]), hv.op, hv.inputs@, ixs@[k] as int) by {
                                    if k < i { assert(before[k] == ixs@[k]); }
                                }
                                assert forall|k: int| 0 <= k < i + 1 implies hoistable(instrs_of(*g, #[trigger] succs@[k])[ixs@[k] as int],
                                    prior_effect(instrs_of(*g, succs@[k]), ixs@[k] as int), prior_checkpoint(instrs_of(*g, succs@[k]), ixs@[k] as int)) by {
                                    if k < i { assert(before[k] == ixs@[k]); }
                                }
                                if hv.op == OptOp::Checkpoint {
                                    assert forall|k: int| 0 <= k < i + 1 implies
                                        (#[trigger] instrs_of(*g, succs@[k])[ixs@[k] as int]).program_position == hv.program_position
                                        && instrs_of(*g, succs@[k])[ixs@[k] as int].ksp_instr_count == hv.ksp_instr_count by {
                                        if k < i { assert(before[k] == ixs@[k]); }
                                    }
                                }
                            }
                        } else {
                            proof {
                                bad = i as int;
                                assert forall|o: Seq<usize>| #[trigger] candidate(*g, succs@, o) implies o.last() != j by {
                                    if o.last() == j {
                                        assert(instrs_of(*g, succs@.last())[o.last() as int] == hv);
                                        assert(first_with(instrs_of(*g, succs@[i as int]), hv.op, hv.inputs@, o[i as int] as int));
                                        lemma_first_unique(instrs_of(*g, succs@[i as int]), hv.op, hv.inputs@, o[i as int] as int, x as int);
                                    }
                                }
                            }
                            ok = false;
                        }
                    }
                }
                i += 1;
            }
            if ok {
                proof {
                    assert forall|o: Seq<usize>| #[trigger] candidate(*g, succs@, o) implies ixs@.last() <= o.last() by {
                        assert(passes_upto(*g, succs@, hv, ixs@, n as int));
                        assert(first_with(instrs_of(*g, succs@[n - 1]), hv.op, hv.inputs@, ixs@[n - 1] as int));
                        assert(first_with(instrs_of(*g, succs@[n - 1]), hv.op, hv.inputs@, j as int));
                        lemma_first_unique(instrs_of(*g, succs@[n - 1]), hv.op, hv.inputs@, ixs@[n - 1] as int, j as int);
                    }
                    assert(ixs@.last() == j) by {
                        lemma_first_unique(instrs_of(*g, succs@[n - 1]), hv.op, hv.inputs@, ixs@[n - 1] as int, j as int);
                    }
                }
                return Some(ixs);
            }
        } else {
            proof {
                assert forall|o: Seq<usize>| #[trigger] candidate(*g, succs@, o) implies o.last() != j by {
                    if o.last() == j {
                        let hh = instrs_of(*g, succs@.last())[o.last() as int];
                        assert(hh == hv);
                        assert(first_with(instrs_of(*g, succs@[n - 1]), hv.op, hv.inputs@, o[n - 1] as int));
                        assert(first_with(li@, hv.op, hv.inputs@, j as int));
                        if first != Some(j) {
                            match first {
                                Some(x) => { lemma_first_unique(li@, hv.op, hv.inputs@, x as int, j as int); }
                                None => { assert(!same_key(li@[j as int], hv.op, hv.inputs@)); }
                            }
                        }
                    }
                }
            }
        }
        j += 1;
    }
    None
}


/// Number of instructions in the blocks of `succs`.
pub open spec fn count_in(g: GraphBuilder, succs: Seq<BlockId>) -> nat
    decreases succs.len(),
{
    if succs.len() == 0 {
        0
    } else {
        count_in(g, succs.drop_last()) + g.blocks@[succs.last().0 as int].instructions@.len()
    }
}

/// Each block of `succs` lost one instruction from `a` to `b`.
proof fn lemma_count_drops(a: GraphBuilder, b: GraphBuilder, succs: Seq<BlockId>)
    requires
        forall|i: int| 0 <= i < succs.len() ==>
            instrs_of(b, #[trigger] succs[i]).len() == instrs_of(a, succs[i]).len() - 1,
    ensures
        count_in(b, succs) == count_in(a, succs) - succs.len(),
    decreases succs.len(),
{
    if succs.len() > 0 {
        assert forall|i: int| 0 <= i < succs.drop_last().len() implies
            instrs_of(b, #[trigger] succs.drop_last()[i]).len() == instrs_of(a, succs.drop_last()[i]).len() - 1 by {
            assert(succs.drop_last()[i] == succs[i]);
        }
        lemma_count_drops(a, b, succs.drop_last());
        assert(instrs_of(b, succs[succs.len() - 1]).len() == instrs_of(a, succs[succs.len() - 1]).len() - 1);
    }
}

/// Hoisting from block `p` into the blocks `succs` that follow it may start:
/// there are at least two, `p` is none of them, and each is sealed and
/// entered by at most one jump.
pub open spec fn may_hoist(g: GraphBuilder, p: int, succs: Seq<BlockId>) -> bool {
    &&& succs.len() >= 2
    &&& !succs.contains(BlockId(p as u32))
    &&& forall|i: int| 0 <= i < succs.len() ==> (#[trigger] g.blocks@[succs[i].0 as int]).is_sealed
            && g.blocks@[succs[i].0 as int].incoming_jumps@.len() <= 1
}

/// One round of hoisting: `b` is `a` after the first instruction that may
/// move up (in the order of the last block of `succs`) moved into block `p`.
/// When the moved instruction is terminal, nothing after it runs: the rest of
/// block `p` and its jumps go, and nothing jumps into `succs` any more.
pub open spec fn hoist_step(a: GraphBuilder, b: GraphBuilder, p: int, succs: Seq<BlockId>) -> bool {
    exists|ixs: Seq<usize>, m: GraphBuilder| #[trigger] candidate(a, succs, ixs)
        && (forall|o: Seq<usize>| #[trigger] candidate(a, succs, o) ==> ixs.last() <= o.last())
        && #[trigger] moved(a, m, p, succs, ixs)
        && if picked(a, succs, ixs, succs.len() - 1).op.terminal() {
            cut(m, b, p, insert_pos(a.blocks@[p].instructions@), succs)
        } else {
            b == m
        }
}

/// `b` is `m` with nothing after instruction `pos` of block `p`: the
/// instructions after it and the jumps of `p` are gone, and the blocks of
/// `succs` are entered by no jump.
pub open spec fn cut(m: GraphBuilder, b: GraphBuilder, p: int, pos: int, succs: Seq<BlockId>) -> bool {
    &&& b.blocks@.len() == m.blocks@.len()
    &&& b.values@ == m.values@
    &&& b.stack@ == m.stack@
    &&& b.current_block == m.current_block
    &&& forall|k: int| 0 <= k < m.blocks@.len() ==> {
            let mb = m.blocks@[k];
            let bb = #[trigger] b.blocks@[k];
            &&& bb.id == mb.id
            &&& bb.ksplang_instr_count == mb.ksplang_instr_count
            &&& bb.parameters == mb.parameters
            &&& bb.is_sealed == mb.is_sealed
            &&& bb.instructions@ == if k == p { mb.instructions@.take(pos + 1) } else { mb.instructions@ }
            &&& bb.outgoing_jumps@ == if k == p { Seq::empty() } else { mb.outgoing_jumps@ }
            &&& bb.incoming_jumps@ == if succs.contains(BlockId(k as u32)) { Seq::empty() } else { mb.incoming_jumps@ }
        }
}

/// Drops what follows the terminal instruction `pos` of block `p`.
fn cut_after(g: &mut GraphBuilder, p: usize, pos: usize, succs: &Vec<BlockId>)
    requires
        old(g).wf(),
        p < old(g).n(),
        pos < old(g).blocks@[p as int].instructions@.len(),
        blocks_in(*old(g), succs@),
    ensures
        final(g).wf(),
        cut(*old(g), *final(g), p as int, pos as int, succs@),
{
    let ghost a = *g;
    while g.blocks[p].instructions.len() > pos + 1
        invariant
            g.blocks@.len() == a.blocks@.len(),
            p < a.blocks@.len(),
            pos < g.blocks@[p as int].instructions@.len(),
            g.blocks@[p as int].instructions@.len() <= a.blocks@[p as int].instructions@.len(),
            g.blocks@[p as int].instructions@ == a.blocks@[p as int].instructions@.take(g.blocks@[p as int].instructions@.len() as int),
            g.blocks@[p as int].id == a.blocks@[p as int].id,
            g.blocks@[p as int].ksplang_instr_count == a.blocks@[p as int].ksplang_instr_count,
            g.blocks@[p as int].parameters == a.blocks@[p as int].parameters,
            g.blocks@[p as int].is_sealed == a.blocks@[p as int].is_sealed,
            g.blocks@[p as int].incoming_jumps == a.blocks@[p as int].incoming_jumps,
            g.blocks@[p as int].outgoing_jumps == a.blocks@[p as int].outgoing_jumps,
            forall|k: int| 0 <= k < a.blocks@.len() && k != p ==> #[trigger] g.blocks@[k] == a.blocks@[k],
            g.values == a.values,
            g.stack == a.stack,
            g.current_block == a.current_block,
        decreases g.blocks@[p as int].instructions@.len(),
    {
        let ghost l = g.blocks@[p as int].instructions@.len();
        g.blocks[p].instructions.pop();
        assert(a.blocks@[p as int].instructions@.take(l as int).drop_last() == a.blocks@[p as int].instructions@.take(l - 1));
    }
    g.blocks[p].outgoing_jumps = Vec::new();
    let mut i: usize = 0;
    while i < succs.len()
        invariant
            g.blocks@.len() == a.blocks@.len(),
            a.wf(),
            p < a.blocks@.len(),
            pos < a.blocks@[p as int].instructions@.len(),
            i <= succs@.len(),
            blocks_in(a, succs@),
            g.blocks@[p as int].instructions@ == a.blocks@[p as int].instructions@.take(pos + 1),
            g.blocks@[p as int].outgoing_jumps@ == Seq::<(InstrId, BlockId)>::empty(),
            forall|k: int| 0 <= k < a.blocks@.len() ==> {
                let mb = a.blocks@[k];
                let bb = #[trigger] g.blocks@[k];
                &&& bb.id == mb.id
                &&& bb.ksplang_instr_count == mb.ksplang_instr_count
                &&& bb.parameters == mb.parameters
                &&& bb.is_sealed == mb.is_sealed
                &&& bb.instructions@ == if k == p { mb.instructions@.take(pos + 1) } else { mb.instructions@ }
                &&& bb.outgoing_jumps@ == if k == p { Seq::empty() } else { mb.outgoing_jumps@ }
                &&& bb.incoming_jumps@ == if succs@.take(i as int).contains(BlockId(k as u32)) { Seq::empty() } else { mb.incoming_jumps@ }
            },
            g.values == a.values,
            g.stack == a.stack,
            g.current_block == a.current_block,
        decreases succs@.len() - i,
    {
        let s = succs[i].0 as usize;
        let ghost before = *g;
        g.blocks[s].incoming_jumps = Vec::new();
        assert forall|k: int| 0 <= k < a.blocks@.len() implies
            (#[trigger] succs@.take(i + 1).contains(BlockId(k as u32)) <==> (succs@.take(i as int).contains(BlockId(k as u32)) || k == s)) by {
            if succs@.take(i + 1).contains(BlockId(k as u32)) {
                let q = choose|q: int| #![trigger succs@.take(i + 1)[q]] 0 <= q < i + 1 && succs@.take(i + 1)[q] == BlockId(k as u32);
                if q < i { assert(succs@.take(i as int)[q] == BlockId(k as u32)); } else { assert(succs@[i as int] == BlockId(k as u32)); }
            }
            if succs@.take(i as int).contains(BlockId(k as u32)) {
                let q = choose|q: int| #![trigger succs@.take(i as int)[q]] 0 <= q < i && succs@.take(i as int)[q] == BlockId(k as u32);
                assert(succs@.take(i + 1)[q] == BlockId(k as u32));
            }
            if k == s {
                assert(succs@.take(i + 1)[i as int] == BlockId(k as u32));
            }
        }
        assert forall|k: int| 0 <= k < a.blocks@.len() && k != s implies #[trigger] g.blocks@[k] == before.blocks@[k] by {}
        i += 1;
    }
    assert(succs@.take(succs@.len() as int) == succs@);
    proof {
        assert forall|i: int, k: int| 0 <= i < g.blocks@.len() && 0 <= k < g.blocks@[i].outgoing_jumps@.len()
            implies (#[trigger] g.blocks@[i].outgoing_jumps@[k]).1.0 < g.blocks@.len() by {
            assert(g.blocks@[i].outgoing_jumps@ == a.blocks@[i].outgoing_jumps@);
        }
        assert forall|i: int, k: int| 0 <= i < g.blocks@.len() && 0 <= k < g.blocks@[i].incoming_jumps@.len()
            implies (#[trigger] g.blocks@[i].incoming_jumps@[k]).0.0 < g.blocks@.len() by {
            assert(g.blocks@[i].incoming_jumps@ == a.blocks@[i].incoming_jumps@);
        }
        assert forall|i: int| 0 <= i < g.blocks@.len() implies #[trigger] g.blocks@[i].id == BlockId(i as u32) by {
            assert(g.blocks@[i].id == a.blocks@[i].id);
        }
    }
}

/// `gs` is a run of rounds of hoisting from block `p` into `succs`.
pub open spec fn hoist_run(gs: Seq<GraphBuilder>, p: int, succs: Seq<BlockId>) -> bool {
    &&& gs.len() >= 1
    &&& forall|i: int| 0 <= i < gs.len() - 1 ==> hoist_step(#[trigger] gs[i], gs[i + 1], p, succs)
}

/// Hoists the instructions that all the blocks following `predecessor`
/// compute in the same way into `predecessor`, one round at a time, until
/// none is left that may move. Returns whether anything moved.
pub fn hoist_up(g: &mut GraphBuilder, predecessor: BlockId) -> (hoisted: bool)
    requires
        old(g).wf(),
        predecessor.0 < old(g).n(),
    ensures
        final(g).wf(),
        !hoisted ==> *final(g) == *old(g),
        exists|succs: Seq<BlockId>| #[trigger] is_successor_list(*old(g), predecessor.0 as int, succs) && {
            ||| !may_hoist(*old(g), predecessor.0 as int, succs) && !hoisted
            ||| may_hoist(*old(g), predecessor.0 as int, succs)
                && (forall|o: Seq<usize>| !#[trigger] candidate(*final(g), succs, o))
                && exists|gs: Seq<GraphBuilder>| #[trigger] hoist_run(gs, predecessor.0 as int, succs)
                    && gs[0] == *old(g) && gs.last() == *final(g) && (gs.len() > 1) == hoisted
        },
{
    let ghost a = *g;
    let ghost p = predecessor.0 as int;
    let succs = following_blocks(g, predecessor);
    assert(blocks_in(a, succs@)) by {
        assert forall|i: int| 0 <= i < succs@.len() implies (#[trigger] succs@[i]).0 < a.blocks@.len() by {
            assert(succs@.contains(succs@[i]));
            let k = choose|k: int| 0 <= k < a.blocks@[p].outgoing_jumps@.len() && #[trigger] a.target(p, k) == succs@[i].0 as int;
            assert(a.blocks@[p].outgoing_jumps@[k].1.0 < a.blocks@.len());
        }
    }
    if succs.len() < 2 {
        return false;
    }
    let mut i: usize = 0;
    while i < succs.len()
        invariant
            *g == a,
            a.wf(),
            p == predecessor.0 as int,
            is_successor_list(a, p, succs@),
            blocks_in(a, succs@),
            i <= succs@.len(),
            forall|k: int| 0 <= k < i ==> (#[trigger] a.blocks@[succs@[k].0 as int]).is_sealed
                && a.blocks@[succs@[k].0 as int].incoming_jumps@.len() <= 1,
            forall|k: int| 0 <= k < i ==> (#[trigger] succs@[k]).0 != predecessor.0,
        decreases succs@.len() - i,
    {
        let b = &g.blocks[succs[i].0 as usize];
        assert(*b == a.blocks@[succs@[i as int].0 as int]);
        if !b.is_sealed || b.incoming_jumps.len() > 1 || succs[i].0 == predecessor.0 {
            proof {
                if succs@[i as int].0 == predecessor.0 {
                    assert(succs@[i as int] == BlockId(p as u32));
                    assert(succs@.contains(BlockId(p as u32)));
                } else {
                    assert(!(a.blocks@[succs@[i as int].0 as int].is_sealed
                        && a.blocks@[succs@[i as int].0 as int].incoming_jumps@.len() <= 1));
                }
            }
            return false;
        }
        i += 1;
    }
    assert(may_hoist(a, p, succs@)) by {
        if succs@.contains(BlockId(p as u32)) {
            let k = choose|k: int| 0 <= k < succs@.len() && succs@[k] == BlockId(p as u32);
            assert(succs@[k].0 != predecessor.0);
        }
    }

    assert(strictly_sorted(succs@));
    assert(BlockId(p as u32) == predecessor);
    let ghost mut gs: Seq<GraphBuilder> = seq![a];
    let mut hoisted_any = false;
    let mut done = false;
    while !done
        invariant
            g.wf(),
            p == predecessor.0 as int,
            predecessor.0 < g.n(),
            blocks_in(*g, succs@),
            strictly_sorted(succs@),
            !succs@.contains(predecessor),
            succs@.len() >= 2,
            hoist_run(gs, p, succs@),
            gs[0] == a,
            gs.last() == *g,
            hoisted_any == (gs.len() > 1),
            done ==> forall|o: Seq<usize>| !#[trigger] candidate(*g, succs@, o),
        decreases count_in(*g, succs@), (if done { 0int } else { 1int }),
    {
        match find_candidate(g, &succs) {
            None => {
                done = true;
            }
            Some(ixs) => {
                let ghost before = *g;
                let pos = insert_position(&g.blocks[predecessor.0 as usize]);
                let last = succs[succs.len() - 1].0 as usize;
                let terminal = g.blocks[last].instructions[ixs[ixs.len() - 1]].op.is_terminal();
                move_up(g, predecessor, &succs, &ixs);
                let ghost mid = *g;
                if terminal {
                    proof { lemma_insert_pos_bound(before.blocks@[p].instructions@); }
                    cut_after(g, predecessor.0 as usize, pos, &succs);
                }
                proof {
                    assert(moved(before, mid, p, succs@, ixs@));
                    assert(hoist_step(before, *g, p, succs@));
                    let ng = gs.push(*g);
                    assert forall|k: int| 0 <= k < ng.len() - 1 implies hoist_step(#[trigger] ng[k], ng[k + 1], p, succs@) by {
                        if k < gs.len() - 1 {
                            assert(ng[k] == gs[k] && ng[k + 1] == gs[k + 1]);
                        } else {
                            assert(ng[k] == before);
                        }
                    }
                    gs = ng;
                    assert(blocks_in(*g, succs@)) by {
                        assert forall|q: int| 0 <= q < succs@.len() implies (#[trigger] succs@[q]).0 < g.blocks@.len() by {
                            assert(succs@[q].0 < before.blocks@.len());
                        }
                    }
                    assert forall|q: int| 0 <= q < succs@.len() implies
                        instrs_of(*g, #[trigger] succs@[q]).len() == instrs_of(before, succs@[q]).len() - 1 by {
                        assert(moved(before, mid, p, succs@, ixs@));
                        assert(succs@[q].0 != predecessor.0) by {
                            if succs@[q].0 == predecessor.0 { assert(succs@[q] == predecessor); }
                        }
                    }
                    lemma_count_drops(before, *g, succs@);
                }
                hoisted_any = true;
            }
        }
    }
    hoisted_any
}

} // verus!
