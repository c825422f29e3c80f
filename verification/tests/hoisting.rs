use ksplang_opt::cfg::{BasicBlock, BlockId, Condition, GraphBuilder, InstrId, OpEffect, OptInstr, OptOp, ValueId, ValueInfo};
use ksplang_opt::hoisting::{following_blocks, hoist_up};
use ksplang_opt::down_hoisting::hoist_down;

fn ins(block: u32, ix: u32, op: OptOp, inputs: &[u32], out: u32) -> OptInstr {
    OptInstr {
        id: InstrId(BlockId(block), ix),
        op,
        inputs: inputs.iter().map(|&i| ValueId(i)).collect(),
        out: ValueId(out),
        effect: op.worst_case_effect(),
        program_position: 7,
        ksp_instr_count: 0,
    }
}

fn block(id: u32, incoming: &[(u32, u32)], outgoing: &[u32], sealed: bool, instructions: Vec<OptInstr>) -> BasicBlock {
    BasicBlock {
        id: BlockId(id),
        incoming_jumps: incoming.iter().map(|&(b, i)| InstrId(BlockId(b), i)).collect(),
        outgoing_jumps: outgoing.iter().enumerate().map(|(k, &t)| (InstrId(BlockId(id), k as u32), BlockId(t))).collect(),
        ksplang_instr_count: 1,
        instructions,
        parameters: vec![],
        is_sealed: sealed,
    }
}

/// Five constants (0, 1, 2, 3, i64::MIN), then one value per extra range.
fn graph(blocks: Vec<BasicBlock>, extra: Vec<std::ops::RangeInclusive<i64>>) -> GraphBuilder {
    let mut ranges = vec![0..=0, 1..=1, 2..=2, 3..=3, i64::MIN..=i64::MIN];
    ranges.extend(extra);
    GraphBuilder {
        blocks,
        values: ranges.into_iter().enumerate().map(|(i, range)| ValueInfo { id: ValueId(i as u32), range }).collect(),
        current_block: BlockId(0),
        stack: vec![],
    }
}

/// bb0 branches on value 5 to bb1 and bb2.
fn branch0() -> Vec<OptInstr> {
    vec![
        ins(0, 0, OptOp::Jump(Condition::Eq(ValueId(5), ValueId(0)), BlockId(1)), &[], 0),
        ins(0, 1, OptOp::Jump(Condition::True, BlockId(2)), &[], 0),
    ]
}

fn ops(g: &GraphBuilder, b: usize) -> Vec<OptOp> {
    g.blocks[b].instructions.iter().map(|i| i.op).collect()
}

#[test]
fn hoisting_merges_outputs_and_their_ranges() {
    // bb1: v6 = !v5, v8 = max(v6, v1); bb2: v7 = !v5, v9 = max(v7, v1); bb3 reads v6 and v7
    let mut g = graph(
        vec![
            block(0, &[], &[1, 2], true, vec![ins(0, 0, OptOp::Min, &[5, 1], 10)]),
            block(1, &[(0, 0)], &[3], true, vec![ins(1, 0, OptOp::BinNot, &[5], 6), ins(1, 1, OptOp::Max, &[6, 1], 8)]),
            block(2, &[(0, 1)], &[3], true, vec![ins(2, 0, OptOp::BinNot, &[5], 7), ins(2, 1, OptOp::Max, &[7, 1], 9)]),
            block(3, &[(1, 0), (2, 0)], &[], true, vec![ins(3, 0, OptOp::Min, &[6, 7], 11)]),
        ],
        vec![0..=10, -11..=-5, -3..=-1, 1..=1, 1..=1, 0..=1, -11..=-1],
    );
    g.stack = vec![ValueId(7), ValueId(5)];
    assert!(hoist_up(&mut g, BlockId(0)));
    // the negation moved into bb0, after its own instruction, as value 6
    assert_eq!(g.blocks[0].instructions.len(), 3);
    let h = &g.blocks[0].instructions[1];
    assert_eq!(h.op, OptOp::BinNot);
    assert_eq!(h.inputs, vec![ValueId(5)]);
    assert_eq!(h.out, ValueId(6));
    assert_eq!(h.id, InstrId(BlockId(0), 1));
    assert_eq!(h.ksp_instr_count, 1);
    assert_eq!(g.values[6].range, -11..=-1);
    // the two maxima now read the same value, are the same, and moved too
    assert_eq!(g.blocks[1].instructions.len(), 0);
    assert_eq!(g.blocks[2].instructions.len(), 0);
    assert_eq!(g.blocks[0].instructions[2].op, OptOp::Max);
    assert_eq!(g.blocks[0].instructions[2].inputs, vec![ValueId(6), ValueId(1)]);
    assert_eq!(g.blocks[0].instructions[2].out, ValueId(8));
    assert_eq!(g.values[8].range, 1..=1);
    assert_eq!(g.blocks[3].instructions[0].inputs, vec![ValueId(6), ValueId(6)]);
    assert_eq!(g.stack, vec![ValueId(6), ValueId(5)]);
}

#[test]
fn hoisting_after_an_effect_widens_the_range() {
    // a counted step precedes the negation in bb2
    let mut g = graph(
        vec![
            block(0, &[], &[1, 2], true, vec![]),
            block(1, &[(0, 0)], &[], true, vec![ins(1, 0, OptOp::BinNot, &[5], 6)]),
            block(2, &[(0, 1)], &[], true, vec![
                ins(2, 0, OptOp::KsplangOpsIncrement(Condition::True), &[1], 0),
                ins(2, 1, OptOp::BinNot, &[5], 7),
            ]),
        ],
        vec![0..=10, -11..=-1, -11..=-1],
    );
    assert!(hoist_up(&mut g, BlockId(0)));
    assert_eq!(g.blocks[0].instructions.len(), 1);
    assert_eq!(g.blocks[0].instructions[0].out, ValueId(6));
    assert_eq!(g.values[6].range, i64::MIN..=i64::MAX);
    assert_eq!(g.blocks[2].instructions.len(), 1);
}

#[test]
fn no_hoisting_without_two_sealed_single_entry_successors() {
    let one = graph(
        vec![
            block(0, &[], &[1, 1], true, vec![]),
            block(1, &[(0, 0)], &[], true, vec![ins(1, 0, OptOp::BinNot, &[5], 6)]),
        ],
        vec![0..=10, -11..=-1],
    );
    let mut g = one;
    assert!(!hoist_up(&mut g, BlockId(0)));
    assert_eq!(g.blocks[1].instructions.len(), 1);

    let mk = |sealed: bool, incoming2: &[(u32, u32)]| graph(
        vec![
            block(0, &[], &[1, 2], true, vec![]),
            block(1, &[(0, 0)], &[], sealed, vec![ins(1, 0, OptOp::BinNot, &[5], 6)]),
            block(2, incoming2, &[], true, vec![ins(2, 0, OptOp::BinNot, &[5], 7)]),
        ],
        vec![0..=10, -11..=-1, -11..=-1],
    );
    let mut g = mk(false, &[(0, 1)]);
    assert!(!hoist_up(&mut g, BlockId(0)));
    assert_eq!(g.blocks[0].instructions.len(), 0);
    let mut g = mk(true, &[(0, 1), (1, 0)]);
    assert!(!hoist_up(&mut g, BlockId(0)));
    let mut g = mk(true, &[(0, 1)]);
    assert!(hoist_up(&mut g, BlockId(0)));
}

#[test]
fn checkpoints_must_agree_to_move() {
    let mut cp = ins(2, 0, OptOp::Checkpoint, &[], 0);
    cp.program_position = 8;
    let mut g = graph(
        vec![
            block(0, &[], &[1, 2], true, vec![]),
            block(1, &[(0, 0)], &[], true, vec![ins(1, 0, OptOp::Checkpoint, &[], 0)]),
            block(2, &[(0, 1)], &[], true, vec![cp]),
        ],
        vec![],
    );
    assert!(!hoist_up(&mut g, BlockId(0)));
}

#[test]
fn counted_steps_do_not_pass_a_checkpoint() {
    let mut g = graph(
        vec![
            block(0, &[], &[1, 2], true, vec![]),
            block(1, &[(0, 0)], &[], true, vec![
                ins(1, 0, OptOp::Checkpoint, &[], 0),
                ins(1, 1, OptOp::KsplangOpsIncrement(Condition::True), &[1], 0),
            ]),
            block(2, &[(0, 1)], &[], true, vec![
                ins(2, 0, OptOp::BinNot, &[1], 5),
                ins(2, 1, OptOp::KsplangOpsIncrement(Condition::True), &[1], 0),
            ]),
        ],
        vec![-2..=-2],
    );
    assert!(!hoist_up(&mut g, BlockId(0)));
}

#[test]
fn following_blocks_are_sorted_and_distinct() {
    let g = graph(
        vec![
            block(0, &[], &[2, 1, 2], true, vec![]),
            block(1, &[(0, 1)], &[], true, vec![]),
            block(2, &[(0, 0), (0, 2)], &[], true, vec![]),
        ],
        vec![],
    );
    assert_eq!(following_blocks(&g, BlockId(0)), vec![BlockId(1), BlockId(2)]);
}

fn jump_to(block: u32, ix: u32, target: u32, args: &[u32]) -> OptInstr {
    ins(block, ix, OptOp::Jump(Condition::True, BlockId(target)), args, 0)
}

#[test]
fn test_hoist_down_basic() {
    // bb1: v7 = add(param, 2), jump bb3 [v7]; bb2: v8 = add(param, 2), jump bb3 [v8]; bb3(v6)
    let mut bb3 = block(3, &[(1, 1), (2, 1)], &[], true, vec![]);
    bb3.parameters = vec![ValueId(6)];
    let mut g = graph(
        vec![
            block(0, &[], &[1, 2], true, branch0()),
            block(1, &[(0, 0)], &[3], true, vec![pure(1, 0, OptOp::Add, &[5, 2], 7), jump_to(1, 1, 3, &[7])]),
            block(2, &[(0, 1)], &[3], true, vec![pure(2, 0, OptOp::Add, &[5, 2], 8), jump_to(2, 1, 3, &[8])]),
            bb3,
        ],
        vec![0..=10, i64::MIN..=i64::MAX, 2..=12, 2..=12],
    );
    g.current_block = BlockId(3);
    let hoisted = hoist_down(&mut g, BlockId(3));
    assert!(hoisted);
    assert!(ops(&g, 1).iter().all(|op| matches!(op, OptOp::Jump(..))));
    assert!(ops(&g, 2).iter().all(|op| matches!(op, OptOp::Jump(..))));
    assert!(ops(&g, 3).iter().any(|op| matches!(op, OptOp::Add)));
}

#[test]
fn down_hoisting_passes_operands_as_parameters() {
    // the same graph: the jumps now pass the operands, which bb3 receives as parameters
    let mut bb3 = block(3, &[(1, 1), (2, 1)], &[], true, vec![]);
    bb3.parameters = vec![ValueId(6)];
    let mut g = graph(
        vec![
            block(0, &[], &[1, 2], true, branch0()),
            block(1, &[(0, 0)], &[3], true, vec![pure(1, 0, OptOp::Add, &[5, 2], 7), jump_to(1, 1, 3, &[7])]),
            block(2, &[(0, 1)], &[3], true, vec![pure(2, 0, OptOp::Add, &[5, 2], 8), jump_to(2, 1, 3, &[8])]),
            bb3,
        ],
        vec![0..=10, i64::MIN..=i64::MAX, 2..=12, 2..=12],
    );
    g.current_block = BlockId(3);
    assert!(hoist_down(&mut g, BlockId(3)));
    let n = g.values.len() as u32;
    assert_eq!(g.blocks[3].parameters, vec![ValueId(n - 3), ValueId(n - 2)]);
    assert_eq!(g.blocks[1].instructions[0].inputs, vec![ValueId(5), ValueId(2)]);
    assert_eq!(g.blocks[2].instructions[0].inputs, vec![ValueId(5), ValueId(2)]);
    assert_eq!(g.values[(n - 3) as usize].range, 0..=10);
    assert_eq!(g.blocks[3].instructions[0].inputs, vec![ValueId(n - 3), ValueId(n - 2)]);
    assert_eq!(g.blocks[3].instructions[0].out, ValueId(n - 1));
    assert_eq!(g.blocks[3].instructions.len(), 1);
}

#[test]
fn down_hoisting_moves_a_chain_of_computations() {
    // bb1: v7 = max(param, 2), v8 = mul(v7, v11), jump bb3 [v8]; bb2 alike with v9, v10;
    // v11 is a value of range 100..=100
    let mut bb3 = block(3, &[(1, 2), (2, 2)], &[], true, vec![]);
    bb3.parameters = vec![ValueId(6)];
    let mut g = graph(
        vec![
            block(0, &[], &[1, 2], true, branch0()),
            block(1, &[(0, 0)], &[3], true, vec![
                pure(1, 0, OptOp::Max, &[5, 2], 7),
                pure(1, 1, OptOp::Mul, &[7, 11], 8),
                jump_to(1, 2, 3, &[8]),
            ]),
            block(2, &[(0, 1)], &[3], true, vec![
                pure(2, 0, OptOp::Max, &[5, 2], 9),
                pure(2, 1, OptOp::Mul, &[9, 11], 10),
                jump_to(2, 2, 3, &[10]),
            ]),
            bb3,
        ],
        vec![0..=10, i64::MIN..=i64::MAX, 2..=10, 200..=1000, 2..=10, 200..=1000, 100..=100],
    );
    g.current_block = BlockId(3);
    let hoisted = hoist_down(&mut g, BlockId(3));
    assert!(hoisted);
    assert_eq!(g.blocks[1].instructions.len(), 1);
    assert_eq!(g.blocks[2].instructions.len(), 1);
    let bb3 = &g.blocks[3].instructions;
    let max_pos = bb3.iter().position(|i| i.op == OptOp::Max).unwrap();
    let mul_pos = bb3.iter().position(|i| i.op == OptOp::Mul).unwrap();
    assert!(max_pos < mul_pos, "Max should come before Mul in bb3");
    let max_out = bb3[max_pos].out;
    let mul_instr = &bb3[mul_pos];
    assert!(mul_instr.inputs.contains(&max_out));
    // the value of range 100..=100 reaches the target through a parameter that both jumps fill with it
    let p = mul_instr.inputs[1];
    let pi = g.blocks[3].parameters.iter().position(|&x| x == p).unwrap();
    assert_eq!(g.blocks[1].instructions[0].inputs[pi], ValueId(11));
    assert_eq!(g.blocks[2].instructions[0].inputs[pi], ValueId(11));
}

#[test]
fn no_down_hoisting_of_different_operations() {
    let mut bb3 = block(3, &[(1, 1), (2, 1)], &[], true, vec![]);
    bb3.parameters = vec![ValueId(6)];
    let mut g = graph(
        vec![
            block(0, &[], &[1, 2], true, branch0()),
            block(1, &[(0, 0)], &[3], true, vec![ins(1, 0, OptOp::Max, &[5, 2], 7), jump_to(1, 1, 3, &[7])]),
            block(2, &[(0, 1)], &[3], true, vec![ins(2, 0, OptOp::Min, &[5, 2], 8), jump_to(2, 1, 3, &[8])]),
            bb3,
        ],
        vec![0..=10, 0..=10, 2..=10, 0..=2],
    );
    g.current_block = BlockId(3);
    assert!(!hoist_down(&mut g, BlockId(3)));
    assert_eq!(g.blocks[1].instructions.len(), 2);
    assert_eq!(g.blocks[3].parameters, vec![ValueId(6)]);
}

#[test]
fn no_down_hoisting_without_plain_jumps_in() {
    // bb1 ends in two jumps: nothing moves down into bb3
    let mut bb3 = block(3, &[(1, 1), (2, 1)], &[], true, vec![]);
    bb3.parameters = vec![ValueId(6)];
    let mut g = graph(
        vec![
            block(0, &[], &[1, 2], true, branch0()),
            block(1, &[(0, 0)], &[3, 2], true, vec![ins(1, 0, OptOp::Max, &[5, 2], 7), jump_to(1, 1, 3, &[7])]),
            block(2, &[(0, 1), (1, 2)], &[3], true, vec![ins(2, 0, OptOp::Max, &[5, 2], 8), jump_to(2, 1, 3, &[8])]),
            bb3,
        ],
        vec![0..=10, 2..=10, 2..=10, 2..=10],
    );
    g.current_block = BlockId(3);
    assert!(!hoist_down(&mut g, BlockId(3)));
    // a block entered once has nothing to merge
    let mut one = block(3, &[(1, 1)], &[], true, vec![]);
    one.parameters = vec![ValueId(6)];
    let mut g = graph(
        vec![
            block(0, &[], &[1], true, vec![]),
            block(1, &[(0, 0)], &[3], true, vec![ins(1, 0, OptOp::Max, &[5, 2], 7), jump_to(1, 1, 3, &[7])]),
            block(2, &[], &[], true, vec![]),
            one,
        ],
        vec![0..=10, 2..=10, 2..=10],
    );
    g.current_block = BlockId(3);
    assert!(!hoist_down(&mut g, BlockId(3)));
}

/// A pure instruction as the graph builder records it when its inputs cannot overflow.
fn pure(block: u32, ix: u32, op: OptOp, inputs: &[u32], out: u32) -> OptInstr {
    let mut i = ins(block, ix, op, inputs, out);
    i.effect = OpEffect::Pure;
    i
}

/// The graph of the hoisting tests: value 5 is the parameter (0..=10), then
/// the given extra values.
fn param_graph(blocks: Vec<BasicBlock>, extra: Vec<std::ops::RangeInclusive<i64>>) -> GraphBuilder {
    let mut ranges = vec![0..=10];
    ranges.extend(extra);
    let mut g = graph(blocks, ranges);
    g.stack.push(ValueId(5));
    g
}

#[test]
fn test_hoist_pure_instruction() {
    // bb0: if param == 0 goto bb1 else goto bb2; bb1 and bb2: add param, 1; deopt
    let mut g = param_graph(
        vec![
            block(0, &[], &[1, 2], true, branch0()),
            block(1, &[(0, 0)], &[], true, vec![pure(1, 0, OptOp::Add, &[5, 1], 6), ins(1, 1, OptOp::deopt_always(), &[], 0)]),
            block(2, &[(0, 1)], &[], true, vec![pure(2, 0, OptOp::Add, &[5, 1], 7), ins(2, 1, OptOp::deopt_always(), &[], 0)]),
        ],
        vec![1..=11, 1..=11],
    );
    assert_eq!(g.blocks[1].instructions.len(), 2);
    assert_eq!(g.blocks[2].instructions.len(), 2);
    let hoisted = hoist_up(&mut g, BlockId(0));
    assert!(hoisted, "Should have hoisted the common instructions");
    assert_eq!(g.blocks[1].instructions.len(), 0, "bb1 should be empty after hoisting");
    assert_eq!(g.blocks[2].instructions.len(), 0, "bb2 should be empty after hoisting");
    let bb0 = ops(&g, 0);
    assert!(bb0.iter().any(|op| matches!(op, OptOp::Add)), "Should have Add");
    assert!(bb0.iter().any(|op| matches!(op, OptOp::DeoptAssert(_))), "Should have deopt");
    // the deopt always leaves, so bb0 jumps nowhere any more
    assert!(g.blocks[0].outgoing_jumps.is_empty());
    assert!(g.blocks[1].incoming_jumps.is_empty() && g.blocks[2].incoming_jumps.is_empty());
}

/// bb0 branches on value 5 > 4 (value 6 is the constant 4) to bb1 and bb2,
/// which each pop and then branch on value 5 > 3 (value 7 is the constant 3)
/// to bb3 and bb4.
fn pop_then_branch(sealed: bool) -> GraphBuilder {
    let tail = |b: u32, out: u32| vec![
        ins(b, 0, OptOp::Pop, &[], out),
        ins(b, 1, OptOp::Jump(Condition::Gt(ValueId(5), ValueId(7)), BlockId(3)), &[], 0),
        ins(b, 2, OptOp::Jump(Condition::True, BlockId(4)), &[], 0),
    ];
    graph(
        vec![
            block(0, &[], &[1, 2], true, vec![
                ins(0, 0, OptOp::Jump(Condition::Gt(ValueId(5), ValueId(6)), BlockId(1)), &[], 0),
                ins(0, 1, OptOp::Jump(Condition::True, BlockId(2)), &[], 0),
            ]),
            block(1, &[(0, 0)], &[3, 4], sealed, tail(1, 8)),
            block(2, &[(0, 1)], &[3, 4], sealed, tail(2, 9)),
            block(3, &[(1, 1), (2, 1)], &[], false, vec![]),
            block(4, &[(1, 2), (2, 2)], &[], false, vec![]),
        ],
        vec![i64::MIN..=i64::MAX, 4..=4, 3..=3, i64::MIN..=i64::MAX, i64::MIN..=i64::MAX],
    )
}

#[test]
fn test_hoist_pop_with_nested_branches() {
    let mut g = pop_then_branch(false);
    // seal the blocks in the order they would be sealed during compilation
    g.blocks[1].is_sealed = true;
    g.blocks[2].is_sealed = true;
    assert_eq!(g.blocks[1].instructions.len(), 3);
    assert_eq!(g.blocks[2].instructions.len(), 3);
    let hoisted = hoist_up(&mut g, BlockId(0));
    assert!(hoisted, "Should have hoisted instructions");
    assert_eq!(g.blocks[1].instructions.len(), 2, "bb1 should have its two jumps left");
    assert_eq!(g.blocks[2].instructions.len(), 2, "bb2 should have its two jumps left");
    assert!(ops(&g, 1).iter().all(|op| matches!(op, OptOp::Jump(..))), "bb1 should only contain jumps");
    assert!(ops(&g, 2).iter().all(|op| matches!(op, OptOp::Jump(..))), "bb2 should only contain jumps");
    let bb0 = ops(&g, 0);
    assert!(bb0.iter().any(|op| matches!(op, OptOp::Pop)), "Should have Pop");
    assert!(bb0.iter().filter(|op| matches!(op, OptOp::Jump(..))).count() >= 2, "Original jumps should remain");
    let targets: Vec<BlockId> = g.blocks[0].outgoing_jumps.iter().map(|(_, t)| *t).collect();
    assert!(targets.contains(&BlockId(1)) && targets.contains(&BlockId(2)), "Original branch targets should remain");
}

#[test]
fn test_hoist_non_first_instruction() {
    // bb1: Pop, Max, deopt; bb2: Add (no effect), Max, deopt
    let mut g = param_graph(
        vec![
            block(0, &[], &[1, 2], true, branch0()),
            block(1, &[(0, 0)], &[], true, vec![
                ins(1, 0, OptOp::Pop, &[], 6),
                ins(1, 1, OptOp::Max, &[5, 1], 7),
                ins(1, 2, OptOp::deopt_always(), &[], 0),
            ]),
            block(2, &[(0, 1)], &[], true, vec![
                pure(2, 0, OptOp::Add, &[5, 1], 8),
                ins(2, 1, OptOp::Max, &[5, 1], 9),
                ins(2, 2, OptOp::deopt_always(), &[], 0),
            ]),
        ],
        vec![i64::MIN..=i64::MAX, 1..=10, 1..=11, 1..=10],
    );
    assert_eq!(g.blocks[1].instructions.len(), 3);
    assert_eq!(g.blocks[2].instructions.len(), 3);
    let hoisted = hoist_up(&mut g, BlockId(0));
    assert!(hoisted, "Should have hoisted Max");
    assert_eq!(g.blocks[1].instructions.len(), 2, "bb1 should have Pop + deopt left");
    assert_eq!(g.blocks[2].instructions.len(), 2, "bb2 should have Add + deopt left");
    assert!(ops(&g, 0).iter().any(|op| matches!(op, OptOp::Max)), "Should have Max");
}

#[test]
fn test_hoist_jumps() {
    let mut g = pop_then_branch(false);
    g.blocks[1].is_sealed = true;
    g.blocks[2].is_sealed = true;
    assert_eq!(g.blocks[1].instructions.len(), 3);
    assert_eq!(g.blocks[2].instructions.len(), 3);
    let hoisted = hoist_up(&mut g, BlockId(0));
    assert!(hoisted, "Should have hoisted instructions");
    assert_eq!(g.blocks[1].instructions.len(), 2, "bb1 should have jumps left");
    assert_eq!(g.blocks[2].instructions.len(), 2, "bb2 should have jumps left");
    assert!(ops(&g, 1).iter().all(|op| matches!(op, OptOp::Jump(..))), "bb1 should only have jumps");
    assert!(ops(&g, 2).iter().all(|op| matches!(op, OptOp::Jump(..))), "bb2 should only have jumps");
    let bb0 = ops(&g, 0);
    assert!(bb0.iter().any(|op| matches!(op, OptOp::Pop)), "Should have Pop");
    assert_eq!(bb0.iter().filter(|op| matches!(op, OptOp::Jump(..))).count(), 2, "Original two jumps should remain in predecessor");
    let targets: Vec<BlockId> = g.blocks[0].outgoing_jumps.iter().map(|(_, t)| *t).collect();
    assert!(targets.contains(&BlockId(1)) && targets.contains(&BlockId(2)), "Predecessor should still branch to bb1 and bb2");
}

#[test]
fn test_hoist_pop_after_pure_instructions() {
    // bb1: Max (no effect), val1 = Pop, Add(param, val1); bb2: Min (no effect), val2 = Pop, Mul(param, val2)
    let mut g = param_graph(
        vec![
            block(0, &[], &[1, 2], true, branch0()),
            block(1, &[(0, 0)], &[], true, vec![
                pure(1, 0, OptOp::Max, &[5, 1], 6),
                ins(1, 1, OptOp::Pop, &[], 7),
                ins(1, 2, OptOp::Add, &[5, 7], 8),
            ]),
            block(2, &[(0, 1)], &[], true, vec![
                pure(2, 0, OptOp::Min, &[5, 1], 9),
                ins(2, 1, OptOp::Pop, &[], 10),
                ins(2, 2, OptOp::Mul, &[5, 10], 11),
            ]),
        ],
        vec![1..=10, i64::MIN..=i64::MAX, i64::MIN..=i64::MAX, 0..=1, i64::MIN..=i64::MAX, i64::MIN..=i64::MAX],
    );
    assert_eq!(g.blocks[1].instructions.len(), 3);
    assert_eq!(g.blocks[2].instructions.len(), 3);
    let hoisted = hoist_up(&mut g, BlockId(0));
    assert!(hoisted, "Should have hoisted common instructions");
    let bb1_len = g.blocks[1].instructions.len();
    let bb2_len = g.blocks[2].instructions.len();
    assert_eq!(bb1_len, 2, "bb1 should have Max and Add left, got {} instructions", bb1_len);
    assert_eq!(bb2_len, 2, "bb2 should have Min and Mul left, got {} instructions", bb2_len);
    assert!(ops(&g, 0).iter().any(|op| matches!(op, OptOp::Pop)), "Should have Pop hoisted");
}
