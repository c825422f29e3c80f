use ksplang_opt::analyzer::{dataflow, get_max_instructions_executed, postorder, reverse_postorder, BBOrderInfo};
use ksplang_opt::cfg::{BasicBlock, BlockId, Condition, GraphBuilder, InstrId, OpEffect, OptInstr, OptOp, ValueId, ValueInfo};

fn block(id: u32, count: u32, incoming: &[(u32, u32)], outgoing: &[u32]) -> BasicBlock {
    BasicBlock {
        id: BlockId(id),
        incoming_jumps: incoming.iter().map(|&(b, i)| InstrId(BlockId(b), i)).collect(),
        outgoing_jumps: outgoing.iter().enumerate().map(|(k, &t)| (InstrId(BlockId(id), k as u32), BlockId(t))).collect(),
        ksplang_instr_count: count,
        instructions: vec![],
        parameters: vec![],
        is_sealed: true,
    }
}

fn graph(blocks: Vec<BasicBlock>, values: Vec<std::ops::RangeInclusive<i64>>) -> GraphBuilder {
    let mut ranges = vec![0..=0, 1..=1, 2..=2, 3..=3, i64::MIN..=i64::MIN];
    ranges.extend(values);
    GraphBuilder {
        blocks,
        values: ranges.into_iter().enumerate().map(|(i, range)| ValueInfo { id: ValueId(i as u32), range }).collect(),
        current_block: BlockId(0),
        stack: vec![],
    }
}

/// 0 -> 1, 0 -> 2, 1 -> 3, 2 -> 3
fn diamond(counts: [u32; 4]) -> GraphBuilder {
    graph(
        vec![
            block(0, counts[0], &[], &[1, 2]),
            block(1, counts[1], &[(0, 0)], &[3]),
            block(2, counts[2], &[(0, 1)], &[3]),
            block(3, counts[3], &[(1, 0), (2, 0)], &[]),
        ],
        vec![0..=0],
    )
}

#[test]
fn postorder_of_diamond() {
    let g = diamond([0; 4]);
    assert_eq!(postorder(&g), vec![BlockId(3), BlockId(1), BlockId(2), BlockId(0)]);
    assert_eq!(reverse_postorder(&g), vec![BlockId(0), BlockId(2), BlockId(1), BlockId(3)]);
}

#[test]
fn postorder_skips_unreachable_and_handles_cycles() {
    // 0 -> 1 -> 2 -> 1, block 3 is unreachable and jumps to 0
    let g = graph(
        vec![
            block(0, 0, &[(3, 0)], &[1]),
            block(1, 0, &[(0, 0), (2, 0)], &[2]),
            block(2, 0, &[(1, 0)], &[1]),
            block(3, 0, &[], &[0]),
        ],
        vec![],
    );
    assert_eq!(postorder(&g), vec![BlockId(2), BlockId(1), BlockId(0)]);
    assert_eq!(reverse_postorder(&g), vec![BlockId(0), BlockId(1), BlockId(2)]);
}

#[test]
fn postorder_single_block() {
    let g = graph(vec![block(0, 0, &[], &[])], vec![]);
    assert_eq!(postorder(&g), vec![BlockId(0)]);
}

#[test]
fn dataflow_distance_from_entry() {
    let g = diamond([0; 4]);
    let r = dataflow(
        &g,
        false,
        |_b: &BasicBlock| 0u32,
        |_b: &BasicBlock, _s: &u32, ins: &[&u32], _outs: &[&u32]| ins.iter().map(|x| **x + 1).max().unwrap_or(0).min(100),
    )
    .unwrap();
    assert_eq!(r.len(), 4);
    assert_eq!(r[&BlockId(0)], 0);
    assert_eq!(r[&BlockId(1)], 1);
    assert_eq!(r[&BlockId(2)], 1);
    assert_eq!(r[&BlockId(3)], 2);
}

#[test]
fn dataflow_reverse_distance_to_exit() {
    let g = diamond([0; 4]);
    let r = dataflow(
        &g,
        true,
        |_b: &BasicBlock| 0u32,
        |_b: &BasicBlock, _s: &u32, _ins: &[&u32], outs: &[&u32]| outs.iter().map(|x| **x + 1).max().unwrap_or(0).min(100),
    )
    .unwrap();
    assert_eq!(r.len(), 4);
    assert_eq!(r[&BlockId(0)], 2);
    assert_eq!(r[&BlockId(1)], 1);
    assert_eq!(r[&BlockId(2)], 1);
    assert_eq!(r[&BlockId(3)], 0);
}

#[test]
fn dataflow_leaves_out_unreachable_blocks() {
    // block 2 is unreachable
    let g = graph(
        vec![block(0, 0, &[], &[1]), block(1, 0, &[(0, 0)], &[]), block(2, 0, &[], &[1])],
        vec![],
    );
    let r = dataflow(&g, false, |b: &BasicBlock| b.id.0, |b: &BasicBlock, _s: &u32, _ins: &[&u32], _outs: &[&u32]| b.id.0 * 10).unwrap();
    assert_eq!(r.len(), 2);
    assert_eq!(r[&BlockId(0)], 0);
    assert_eq!(r[&BlockId(1)], 10);
    assert!(!r.contains_key(&BlockId(2)));
}

#[test]
fn dataflow_that_never_settles() {
    // a counter that grows without bound never reaches a fixed point
    let g = diamond([0; 4]);
    let r = dataflow(&g, false, |_b: &BasicBlock| 0u64, |_b: &BasicBlock, s: &u64, _ins: &[&u64], _outs: &[&u64]| s + 1);
    assert!(r.is_none());
}

#[test]
fn max_instructions_of_diamond() {
    let g = diamond([5, 3, 10, 1]);
    assert_eq!(get_max_instructions_executed(&g), Some(16));
    let g = diamond([5, 30, 10, 1]);
    assert_eq!(get_max_instructions_executed(&g), Some(36));
}

#[test]
fn max_instructions_counts_conditional_increments() {
    let mut g = diamond([5, 3, 10, 1]);
    let v = ValueId(g.values.len() as u32);
    g.values.push(ValueInfo { id: v, range: 0..=100 });
    g.blocks[1].instructions.push(OptInstr {
        id: InstrId(BlockId(1), 0),
        op: OptOp::KsplangOpsIncrement(Condition::True),
        inputs: vec![v],
        out: ValueId(0),
        effect: OpEffect::Pure,
        program_position: 0,
        ksp_instr_count: 0,
    });
    // a BinNot instruction does not count
    g.blocks[2].instructions.push(OptInstr {
        id: InstrId(BlockId(2), 0),
        op: OptOp::BinNot,
        inputs: vec![v],
        out: ValueId(0),
        effect: OpEffect::Pure,
        program_position: 0,
        ksp_instr_count: 0,
    });
    assert_eq!(get_max_instructions_executed(&g), Some(109));
}

#[test]
fn max_instructions_of_loop_does_not_settle() {
    // 0 -> 1 -> 1
    let g = graph(vec![block(0, 1, &[], &[1]), block(1, 1, &[(0, 0), (1, 0)], &[1])], vec![]);
    assert_eq!(get_max_instructions_executed(&g), None);
}

#[test]
fn order_info_default_is_empty() {
    let info = BBOrderInfo::default();
    assert!(info.always_before.is_empty());
    assert!(info.always_after.is_empty());
    assert_eq!(info, BBOrderInfo::default());
}

#[test]
fn max_instructions_bounds_every_path() {
    let g = diamond([5, 3, 10, 1]);
    let m = get_max_instructions_executed(&g).unwrap();
    // the paths from the entry: 0, 0-1, 0-2, 0-1-3, 0-2-3
    for total in [5, 8, 15, 9, 16] {
        assert!(m >= total);
    }
}

#[test]
fn max_instructions_with_weightless_cycle() {
    // 0 -> 1 -> 1, block 1 adds nothing, so the counts settle
    let g = graph(vec![block(0, 5, &[], &[1]), block(1, 0, &[(0, 0), (1, 0)], &[1])], vec![]);
    assert_eq!(get_max_instructions_executed(&g), Some(5));
}

#[test]
fn dataflow_order_does_not_change_the_result() {
    let g = diamond([0; 4]);
    let init = |_b: &BasicBlock| 0u32;
    let step = |b: &BasicBlock, _s: &u32, ins: &[&u32], outs: &[&u32]| {
        let depth = ins.iter().map(|x| **x + 1).max().unwrap_or(0).min(100);
        depth * 10 + outs.len() as u32 + b.id.0 * 1000
    };
    let forward = dataflow(&g, false, init, step);
    let backward = dataflow(&g, true, init, step);
    assert!(forward.is_some());
    assert_eq!(forward, backward);
    let grow = |_b: &BasicBlock, s: &u64, _ins: &[&u64], _outs: &[&u64]| s + 1;
    assert!(dataflow(&g, false, |_b: &BasicBlock| 0u64, grow).is_none());
    assert!(dataflow(&g, true, |_b: &BasicBlock| 0u64, grow).is_none());
}
