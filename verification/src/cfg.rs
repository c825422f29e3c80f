//! The control-flow graph that the optimizer builds: basic blocks joined by
//! jumps, instructions over abstract values, and the value ranges known for
//! them. Only what the analyses read is held here.

use vstd::prelude::*;
use std::ops::RangeInclusive;

verus! {

/// Identifies a basic block: its index in `GraphBuilder::blocks`.
#[derive(Clone, Copy, Debug, PartialEq, Eq, Structural, Hash, PartialOrd, Ord)]
pub struct BlockId(pub u32);

/// Identifies an instruction: its block and its index within the block.
#[derive(Clone, Copy, Debug, PartialEq, Eq, Structural, Hash, PartialOrd, Ord)]
pub struct InstrId(pub BlockId, pub u32);

impl InstrId {
    pub fn block_id(&self) -> (b: BlockId)
        ensures
            b == self.0,
    {
        self.0
    }

    pub fn instr_ix(&self) -> (i: u32)
        ensures
            i == self.1,
    {
        self.1
    }
}

/// Identifies a value: its index in `GraphBuilder::values`.
#[derive(Clone, Copy, Debug, PartialEq, Eq, Structural, Hash, PartialOrd, Ord)]
pub struct ValueId(pub u32);

/// Index of the value that holds the constant 0.
pub const C_ZERO: u32 = 0;

/// Index of the value that holds the constant 1.
pub const C_ONE: u32 = 1;

/// Index of the value that holds the constant 2.
pub const C_TWO: u32 = 2;

/// Index of the value that holds the constant 3.
pub const C_THREE: u32 = 3;

/// Index of the value that holds the constant `i64::MIN`.
pub const C_IMIN: u32 = 4;

/// What is known of a value: the range it lies in.
pub struct ValueInfo {
    pub id: ValueId,
    pub range: RangeInclusive<i64>,
}

/// A comparison between two values, or a constant truth value.
#[derive(Clone, Copy, Debug, PartialEq, Eq, Structural)]
pub enum Condition<T> {
    True,
    False,
    Eq(T, T),
    Neq(T, T),
    Lt(T, T),
    Leq(T, T),
    Gt(T, T),
    Geq(T, T),
    /// The second operand is a nonzero divisor of the first.
    Divides(T, T),
    /// The first operand is not a multiple of the second (or the second is 0).
    NotDivides(T, T),
}

/// `d` is a nonzero divisor of `x`.
pub open spec fn divides(x: int, d: int) -> bool {
    d != 0 && crate::stdlib::abs_int(x) % crate::stdlib::abs_int(d) == 0
}

impl<T: Copy> Condition<T> {
    /// The logical negation of a condition.
    pub open spec fn negated(self) -> Condition<T> {
        match self {
            Condition::True => Condition::False,
            Condition::False => Condition::True,
            Condition::Eq(a, b) => Condition::Neq(a, b),
            Condition::Neq(a, b) => Condition::Eq(a, b),
            Condition::Lt(a, b) => Condition::Geq(a, b),
            Condition::Leq(a, b) => Condition::Gt(a, b),
            Condition::Gt(a, b) => Condition::Leq(a, b),
            Condition::Geq(a, b) => Condition::Lt(a, b),
            Condition::Divides(a, b) => Condition::NotDivides(a, b),
            Condition::NotDivides(a, b) => Condition::Divides(a, b),
        }
    }

    /// Whether the condition holds when each operand has the value `val` gives it.
    pub open spec fn holds(self, val: spec_fn(T) -> int) -> bool {
        match self {
            Condition::True => true,
            Condition::False => false,
            Condition::Eq(a, b) => val(a) == val(b),
            Condition::Neq(a, b) => val(a) != val(b),
            Condition::Lt(a, b) => val(a) < val(b),
            Condition::Leq(a, b) => val(a) <= val(b),
            Condition::Gt(a, b) => val(a) > val(b),
            Condition::Geq(a, b) => val(a) >= val(b),
            Condition::Divides(a, b) => divides(val(a), val(b)),
            Condition::NotDivides(a, b) => !divides(val(a), val(b)),
        }
    }

    /// The negated condition.
    pub fn neg(self) -> (r: Condition<T>)
        ensures
            r == self.negated(),
    {
        match self {
            Condition::True => Condition::False,
            Condition::False => Condition::True,
            Condition::Eq(a, b) => Condition::Neq(a, b),
            Condition::Neq(a, b) => Condition::Eq(a, b),
            Condition::Lt(a, b) => Condition::Geq(a, b),
            Condition::Leq(a, b) => Condition::Gt(a, b),
            Condition::Gt(a, b) => Condition::Leq(a, b),
            Condition::Geq(a, b) => Condition::Lt(a, b),
            Condition::Divides(a, b) => Condition::NotDivides(a, b),
            Condition::NotDivides(a, b) => Condition::Divides(a, b),
        }
    }
}

/// The negation of a condition holds exactly when the condition does not.
pub proof fn lemma_neg_holds<T: Copy>(c: Condition<T>, val: spec_fn(T) -> int)
    ensures
        c.negated().holds(val) == !c.holds(val),
{
}

/// Negating twice gives back the condition.
pub proof fn lemma_neg_involutive<T: Copy>(c: Condition<T>)
    ensures
        c.negated().negated() == c,
{
}

/// An operation of the intermediate representation.
#[derive(Clone, Copy, Debug, PartialEq, Eq, Structural)]
pub enum OptOp {
    /// Bitwise negation of the input.
    BinNot,
    /// Adds the input to the count of executed source instructions when the condition holds.
    KsplangOpsIncrement(Condition<ValueId>),
    /// The least of the inputs.
    Min,
    /// The greatest of the inputs.
    Max,
    /// Records the program position and instruction count for deoptimization.
    Checkpoint,
    /// Jumps to the block when the condition holds.
    Jump(Condition<ValueId>, BlockId),
    /// The sum of the inputs.
    Add,
    /// The product of the inputs.
    Mul,
    /// Takes the value on top of the program's stack.
    Pop,
    /// Leaves the compiled code for the interpreter unless the condition holds.
    DeoptAssert(Condition<ValueId>),
}

/// What running an instruction may do besides computing its output, from
/// the harmless to the worst.
#[derive(Clone, Copy, Debug, PartialEq, Eq, Structural)]
pub enum OpEffect {
    /// Nothing but its output.
    Pure,
    /// Only adds to the count of executed source instructions.
    CtrIncrement,
    /// May stop the program with an error.
    MayFail,
    /// May leave the compiled code for the interpreter.
    MayDeopt,
    /// Changes the program's state (its stack, or where it goes next).
    SideEffect,
}

impl OpEffect {
    /// Position of the effect from the harmless to the worst.
    pub open spec fn rank(self) -> int {
        match self {
            OpEffect::Pure => 0,
            OpEffect::CtrIncrement => 1,
            OpEffect::MayFail => 2,
            OpEffect::MayDeopt => 3,
            OpEffect::SideEffect => 4,
        }
    }

    /// The worse of two effects.
    pub fn worse_of(a: OpEffect, b: OpEffect) -> (r: OpEffect)
        ensures
            r == (if a.rank() < b.rank() { b } else { a }),
    {
        let ra: u8 = match a { OpEffect::Pure => 0, OpEffect::CtrIncrement => 1, OpEffect::MayFail => 2, OpEffect::MayDeopt => 3, OpEffect::SideEffect => 4 };
        let rb: u8 = match b { OpEffect::Pure => 0, OpEffect::CtrIncrement => 1, OpEffect::MayFail => 2, OpEffect::MayDeopt => 3, OpEffect::SideEffect => 4 };
        if ra < rb { b } else { a }
    }
}

impl OptOp {
    /// The worst effect an instruction with this operation can have.
    pub open spec fn worst_effect(self) -> OpEffect {
        match self {
            OptOp::BinNot | OptOp::Min | OptOp::Max => OpEffect::Pure,
            OptOp::KsplangOpsIncrement(_) => OpEffect::CtrIncrement,
            OptOp::Checkpoint => OpEffect::MayDeopt,
            OptOp::Jump(_, _) => OpEffect::SideEffect,
            OptOp::Add | OptOp::Mul => OpEffect::MayFail,
            OptOp::Pop => OpEffect::SideEffect,
            OptOp::DeoptAssert(_) => OpEffect::MayDeopt,
        }
    }

    /// The worst effect an instruction with this operation can have.
    pub fn worst_case_effect(&self) -> (e: OpEffect)
        ensures
            e == self.worst_effect(),
    {
        match self {
            OptOp::BinNot | OptOp::Min | OptOp::Max => OpEffect::Pure,
            OptOp::KsplangOpsIncrement(_) => OpEffect::CtrIncrement,
            OptOp::Checkpoint => OpEffect::MayDeopt,
            OptOp::Jump(_, _) => OpEffect::SideEffect,
            OptOp::Add | OptOp::Mul => OpEffect::MayFail,
            OptOp::Pop => OpEffect::SideEffect,
            OptOp::DeoptAssert(_) => OpEffect::MayDeopt,
        }
    }

    /// Whether an instruction with this operation computes an output value.
    pub open spec fn outputs(self) -> bool {
        match self {
            OptOp::BinNot | OptOp::Min | OptOp::Max | OptOp::Add | OptOp::Mul | OptOp::Pop => true,
            _ => false,
        }
    }

    /// Whether an instruction with this operation computes an output value.
    pub fn has_output(&self) -> (r: bool)
        ensures
            r == self.outputs(),
    {
        match self {
            OptOp::BinNot | OptOp::Min | OptOp::Max | OptOp::Add | OptOp::Mul | OptOp::Pop => true,
            _ => false,
        }
    }

    /// Whether nothing runs after an instruction with this operation: a
    /// deoptimization whose condition never holds.
    pub open spec fn terminal(self) -> bool {
        self == OptOp::DeoptAssert(Condition::False)
    }

    /// Whether nothing runs after an instruction with this operation.
    pub fn is_terminal(&self) -> (r: bool)
        ensures
            r == self.terminal(),
    {
        match self {
            OptOp::DeoptAssert(Condition::False) => true,
            _ => false,
        }
    }

    /// A deoptimization that always happens.
    pub fn deopt_always() -> (r: OptOp)
        ensures
            r == OptOp::DeoptAssert(Condition::False),
            r.terminal(),
    {
        OptOp::DeoptAssert(Condition::False)
    }
}

/// One instruction of a basic block.
pub struct OptInstr {
    pub id: InstrId,
    pub op: OptOp,
    pub inputs: Vec<ValueId>,
    pub out: ValueId,
    /// What this instruction may do besides computing `out`.
    pub effect: OpEffect,
    /// Position in the source program that this instruction stands for.
    pub program_position: usize,
    /// Number of source instructions executed in the block before this one.
    pub ksp_instr_count: u32,
}

/// A basic block.
pub struct BasicBlock {
    pub id: BlockId,
    /// The jump instructions (in other blocks) that lead here.
    pub incoming_jumps: Vec<InstrId>,
    /// The jumps leaving this block, each with its target.
    pub outgoing_jumps: Vec<(InstrId, BlockId)>,
    /// Number of source instructions executed by this block, besides those
    /// counted by `KsplangOpsIncrement` instructions.
    pub ksplang_instr_count: u32,
    pub instructions: Vec<OptInstr>,
    /// Values that the incoming jumps pass to this block, in order.
    pub parameters: Vec<ValueId>,
    /// No more jumps into this block will be added.
    pub is_sealed: bool,
}

/// The graph under construction. Block 0 is the entry.
pub struct GraphBuilder {
    pub blocks: Vec<BasicBlock>,
    pub values: Vec<ValueInfo>,
    pub current_block: BlockId,
    /// The abstract stack: the values on top of the program's stack, top last.
    pub stack: Vec<ValueId>,
}

impl GraphBuilder {
    /// Every block sits at the index its id names, every jump leads to and
    /// comes from a block of the graph, and every value sits at its index.
    pub open spec fn wf(&self) -> bool {
        &&& 0 < self.blocks@.len() <= u32::MAX
        &&& forall|i: int| 0 <= i < self.blocks@.len() ==> #[trigger] self.blocks@[i].id == BlockId(i as u32)
        &&& forall|i: int, k: int| 0 <= i < self.blocks@.len() && 0 <= k < self.blocks@[i].outgoing_jumps@.len()
                ==> (#[trigger] self.blocks@[i].outgoing_jumps@[k]).1.0 < self.blocks@.len()
        &&& forall|i: int, k: int| 0 <= i < self.blocks@.len() && 0 <= k < self.blocks@[i].incoming_jumps@.len()
                ==> (#[trigger] self.blocks@[i].incoming_jumps@[k]).0.0 < self.blocks@.len()
        &&& self.values@.len() <= u32::MAX
        &&& forall|i: int| 0 <= i < self.values@.len() ==> #[trigger] self.values@[i].id == ValueId(i as u32)
        &&& constants_in(self.values@)
    }


    /// Number of blocks.
    pub open spec fn n(&self) -> int {
        self.blocks@.len() as int
    }

    /// Target of the `k`-th jump leaving block `u`.
    pub open spec fn target(&self, u: int, k: int) -> int {
        self.blocks@[u].outgoing_jumps@[k].1.0 as int
    }

    /// There is a jump from block `u` to block `v`.
    pub open spec fn edge(&self, u: int, v: int) -> bool {
        exists|k: int| 0 <= k < self.blocks@[u].outgoing_jumps@.len() && #[trigger] self.target(u, k) == v
    }

    /// `p` is a walk along jumps.
    pub open spec fn is_path(&self, p: Seq<int>) -> bool {
        &&& p.len() >= 1
        &&& forall|i: int| 0 <= i < p.len() ==> 0 <= #[trigger] p[i] < self.n()
        &&& forall|i: int| 0 <= i < p.len() - 1 ==> self.edge(#[trigger] p[i], p[i + 1])
    }

    /// Block `b` can be reached from block `a` by following jumps.
    pub open spec fn reaches(&self, a: int, b: int) -> bool {
        exists|p: Seq<int>| #[trigger] self.is_path(p) && p[0] == a && p.last() == b
    }

    /// Block `b` can be reached from the entry block.
    pub open spec fn reachable(&self, b: int) -> bool {
        self.reaches(0, b)
    }

    /// Every input of every instruction is a value of the graph.
    pub open spec fn inputs_defined(&self) -> bool {
        forall|i: int, j: int, k: int|
            0 <= i < self.blocks@.len() && 0 <= j < self.blocks@[i].instructions@.len()
            && 0 <= k < self.blocks@[i].instructions@[j].inputs@.len()
            ==> (#[trigger] self.blocks@[i].instructions@[j].inputs@[k]).0 < self.values@.len()
    }

    /// The range known for value `v` at instruction `at`; this graph keeps one
    /// range per value, valid everywhere.
    pub fn val_range_at(&self, v: ValueId, at: InstrId) -> (r: &RangeInclusive<i64>)
        requires
            self.wf(),
            v.0 < self.values@.len(),
        ensures
            *r == self.values@[v.0 as int].range,
    {
        &self.values[v.0 as usize].range
    }

    /// Index of the block being built.
    pub open spec fn cur(&self) -> int {
        self.current_block.0 as int
    }

    /// The current block is a block of the graph.
    pub open spec fn has_current(&self) -> bool {
        0 <= self.cur() < self.n()
    }

    /// Every value on the abstract stack is a value of the graph.
    pub open spec fn stack_defined(&self) -> bool {
        forall|k: int| 0 <= k < self.stack@.len() ==> (#[trigger] self.stack@[k]).0 < self.values@.len()
    }

    /// The stack after looking at its top: a fresh value (the unknown top of
    /// the program's stack) is put there when the abstract stack is empty.
    pub open spec fn peeked_stack(&self) -> Seq<ValueId> {
        if self.stack@.len() == 0 {
            seq![ValueId(self.values@.len() as u32)]
        } else {
            self.stack@
        }
    }

    /// Number of values after looking at the top of the stack.
    pub open spec fn peeked_values_len(&self) -> int {
        if self.stack@.len() == 0 {
            self.values@.len() + 1int
        } else {
            self.values@.len() as int
        }
    }

    /// Records a constant as a new value whose range is that single number.
    pub fn store_constant(&mut self, c: i64) -> (v: ValueId)
        requires
            old(self).wf(),
            old(self).values@.len() < u32::MAX,
        ensures
            final(self).wf(),
            v == ValueId(old(self).values@.len() as u32),
            final(self).values@.len() == old(self).values@.len() + 1,
            forall|i: int| 0 <= i < old(self).values@.len() ==> final(self).values@[i] == old(self).values@[i],
            crate::ranges::is_irange(final(self).values@[v.0 as int].range, c as int, c as int),
            final(self).blocks@ == old(self).blocks@,
            final(self).stack@ == old(self).stack@,
            final(self).current_block == old(self).current_block,
    {
        let id = ValueId(self.values.len() as u32);
        self.values.push(ValueInfo { id, range: c..=c });
        proof { lemma_constants_kept(old(self).values@, self.values@); }
        id
    }

    /// The value on top of the stack; when the abstract stack is empty, a fresh
    /// value of unknown range stands for the top of the program's stack and is
    /// put on it.
    pub fn peek_stack(&mut self) -> (v: ValueId)
        requires
            old(self).wf(),
            old(self).stack_defined(),
            old(self).values@.len() < u32::MAX,
        ensures
            final(self).wf(),
            final(self).stack_defined(),
            final(self).stack@ == old(self).peeked_stack(),
            v == final(self).stack@.last(),
            final(self).values@.len() == old(self).peeked_values_len(),
            forall|i: int| 0 <= i < old(self).values@.len() ==> final(self).values@[i] == old(self).values@[i],
            old(self).stack@.len() == 0 ==> crate::ranges::is_irange(final(self).values@[v.0 as int].range, i64::MIN as int, i64::MAX as int),
            final(self).blocks@ == old(self).blocks@,
            final(self).current_block == old(self).current_block,
    {
        if self.stack.len() == 0 {
            let id = ValueId(self.values.len() as u32);
            self.values.push(ValueInfo { id, range: i64::MIN..=i64::MAX });
            self.stack.push(id);
            assert(self.stack@ == seq![id]);
        }
        proof { lemma_constants_kept(old(self).values@, self.values@); }
        self.stack[self.stack.len() - 1]
    }

    /// Takes the value on top of the stack (see `peek_stack`).
    pub fn pop_stack(&mut self) -> (v: ValueId)
        requires
            old(self).wf(),
            old(self).stack_defined(),
            old(self).values@.len() < u32::MAX,
        ensures
            final(self).wf(),
            final(self).stack_defined(),
            final(self).stack@ == old(self).peeked_stack().drop_last(),
            v == old(self).peeked_stack().last(),
            v.0 < final(self).values@.len(),
            final(self).values@.len() == old(self).peeked_values_len(),
            forall|i: int| 0 <= i < old(self).values@.len() ==> final(self).values@[i] == old(self).values@[i],
            old(self).stack@.len() == 0 ==> crate::ranges::is_irange(final(self).values@[v.0 as int].range, i64::MIN as int, i64::MAX as int),
            final(self).blocks@ == old(self).blocks@,
            final(self).current_block == old(self).current_block,
    {
        let v = self.peek_stack();
        self.stack.pop();
        v
    }

    /// Appends an instruction to the current block. Its output is a new value
    /// of unknown range.
    pub fn push_instr(&mut self, op: OptOp, inputs: &[ValueId]) -> (out: ValueId)
        requires
            old(self).wf(),
            old(self).inputs_defined(),
            old(self).has_current(),
            old(self).values@.len() < u32::MAX,
            old(self).blocks@[old(self).cur()].instructions@.len() < u32::MAX,
            forall|k: int| 0 <= k < inputs@.len() ==> (#[trigger] inputs@[k]).0 < old(self).values@.len(),
        ensures
            final(self).wf(),
            final(self).inputs_defined(),
            out == ValueId(old(self).values@.len() as u32),
            final(self).values@.len() == old(self).values@.len() + 1,
            forall|i: int| 0 <= i < old(self).values@.len() ==> final(self).values@[i] == old(self).values@[i],
            crate::ranges::is_irange(final(self).values@[out.0 as int].range, i64::MIN as int, i64::MAX as int),
            final(self).blocks@.len() == old(self).blocks@.len(),
            forall|i: int| 0 <= i < old(self).n() && i != old(self).cur() ==> final(self).blocks@[i] == old(self).blocks@[i],
            ({
                let ob = old(self).blocks@[old(self).cur()];
                let nb = final(self).blocks@[old(self).cur()];
                &&& nb.id == ob.id
                &&& nb.incoming_jumps == ob.incoming_jumps
                &&& nb.outgoing_jumps == ob.outgoing_jumps
                &&& nb.ksplang_instr_count == ob.ksplang_instr_count
                &&& nb.parameters == ob.parameters
                &&& nb.is_sealed == ob.is_sealed
                &&& nb.instructions@.len() == ob.instructions@.len() + 1
                &&& forall|j: int| 0 <= j < ob.instructions@.len() ==> nb.instructions@[j] == ob.instructions@[j]
                &&& nb.instructions@.last().id == InstrId(old(self).current_block, ob.instructions@.len() as u32)
                &&& nb.instructions@.last().op == op
                &&& nb.instructions@.last().inputs@ == inputs@
                &&& nb.instructions@.last().out == out
            }),
            final(self).stack@ == old(self).stack@,
            final(self).current_block == old(self).current_block,
    {
        let out = ValueId(self.values.len() as u32);
        self.values.push(ValueInfo { id: out, range: i64::MIN..=i64::MAX });
        let mut ins: Vec<ValueId> = Vec::new();
        let mut k: usize = 0;
        while k < inputs.len()
            invariant
                k <= inputs@.len(),
                ins@ == inputs@.take(k as int),
            decreases inputs@.len() - k,
        {
            ins.push(inputs[k]);
            assert(inputs@.take(k + 1) == inputs@.take(k as int).push(inputs@[k as int]));
            k += 1;
        }
        assert(inputs@.take(inputs@.len() as int) == inputs@);
        let cur = self.current_block.0 as usize;
        let ix = self.blocks[cur].instructions.len() as u32;
        let effect = op.worst_case_effect();
        let count = self.blocks[cur].ksplang_instr_count;
        let instr = OptInstr {
            id: InstrId(self.current_block, ix),
            op,
            inputs: ins,
            out,
            effect,
            program_position: usize::MAX,
            ksp_instr_count: count,
        };
        self.blocks[cur].instructions.push(instr);
        proof { lemma_constants_kept(old(self).values@, self.values@); }
        proof {
            assert forall|i: int, j: int, k: int|
                0 <= i < self.blocks@.len() && 0 <= j < self.blocks@[i].instructions@.len()
                && 0 <= k < self.blocks@[i].instructions@[j].inputs@.len()
                implies (#[trigger] self.blocks@[i].instructions@[j].inputs@[k]).0 < self.values@.len() by {
                if i == cur && j == self.blocks@[i].instructions@.len() - 1 {
                    assert(self.blocks@[i].instructions@[j].inputs@ == inputs@);
                } else if i == cur {
                    assert(self.blocks@[i].instructions@[j] == old(self).blocks@[i].instructions@[j]);
                } else {
                    assert(self.blocks@[i] == old(self).blocks@[i]);
                }
            }
        }
        out
    }

    pub fn block_(&self, id: BlockId) -> (b: &BasicBlock)
        requires
            self.wf(),
            id.0 < self.blocks@.len(),
        ensures
            *b == self.blocks@[id.0 as int],
    {
        &self.blocks[id.0 as usize]
    }
}

/// The first values hold the constants `C_ZERO`, `C_ONE`, `C_TWO`,
/// `C_THREE` and `C_IMIN` name.
#[verifier::opaque]
pub open spec fn constants_in(values: Seq<ValueInfo>) -> bool {
    &&& values.len() > C_IMIN
    &&& crate::ranges::is_irange(values[C_ZERO as int].range, 0, 0)
    &&& crate::ranges::is_irange(values[C_ONE as int].range, 1, 1)
    &&& crate::ranges::is_irange(values[C_TWO as int].range, 2, 2)
    &&& crate::ranges::is_irange(values[C_THREE as int].range, 3, 3)
    &&& crate::ranges::is_irange(values[C_IMIN as int].range, i64::MIN as int, i64::MIN as int)
}

/// The constants stay defined when values are only added.
pub proof fn lemma_constants_kept(o: Seq<ValueInfo>, n: Seq<ValueInfo>)
    requires
        constants_in(o),
        n.len() >= o.len(),
        forall|i: int| 0 <= i < o.len() ==> n[i] == o[i],
    ensures
        constants_in(n),
{
    reveal(constants_in);
    assert(n[C_ZERO as int] == o[C_ZERO as int]);
    assert(n[C_ONE as int] == o[C_ONE as int]);
    assert(n[C_TWO as int] == o[C_TWO as int]);
    assert(n[C_THREE as int] == o[C_THREE as int]);
    assert(n[C_IMIN as int] == o[C_IMIN as int]);
}

} // verus!
