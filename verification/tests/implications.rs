use ksplang_opt::cfg::{BasicBlock, BlockId, Condition, GraphBuilder, InstrId, OpEffect, OptInstr, OptOp, ValueId, ValueInfo};
use ksplang_opt::implications::{cond_implies, interesting_implications, is_multiple_of};

fn v(i: u32) -> ValueId {
    ValueId(i)
}

/// Five constant values, then one value per extra range; block 0 holds the instructions.
fn graph(extra: Vec<std::ops::RangeInclusive<i64>>, instructions: Vec<OptInstr>) -> GraphBuilder {
    let mut ranges = vec![0..=0, 1..=1, 2..=2, 3..=3, i64::MIN..=i64::MIN];
    ranges.extend(extra);
    GraphBuilder {
        blocks: vec![BasicBlock {
            id: BlockId(0),
            incoming_jumps: vec![],
            outgoing_jumps: vec![],
            ksplang_instr_count: 0,
            instructions,
            parameters: vec![],
            is_sealed: true,
        }],
        values: ranges.into_iter().enumerate().map(|(i, range)| ValueInfo { id: ValueId(i as u32), range }).collect(),
        current_block: BlockId(0),
        stack: vec![],
    }
}

fn instr(ix: u32, op: OptOp, inputs: &[u32], out: u32) -> OptInstr {
    OptInstr {
        id: InstrId(BlockId(0), ix),
        op,
        inputs: inputs.iter().map(|&i| ValueId(i)).collect(),
        out: ValueId(out),
        effect: OpEffect::Pure,
        program_position: 0,
        ksp_instr_count: 0,
    }
}

const AT: InstrId = InstrId(BlockId(0), 0);

#[test]
fn implies_trivial_cases() {
    let g = graph(vec![0..=10, 0..=10], vec![]);
    let c = Condition::Lt(v(5), v(6));
    assert_eq!(cond_implies(&g, &Condition::False, &c, AT), Some(Condition::True));
    assert_eq!(cond_implies(&g, &Condition::True, &c, AT), Some(c));
    assert_eq!(cond_implies(&g, &c, &c, AT), Some(Condition::True));
    assert_eq!(cond_implies(&g, &c, &c.neg(), AT), Some(Condition::False));
}

#[test]
fn implies_strict_and_equal() {
    let g = graph(vec![0..=10, 0..=10, 0..=10], vec![]);
    assert_eq!(cond_implies(&g, &Condition::Lt(v(5), v(6)), &Condition::Neq(v(5), v(6)), AT), Some(Condition::True));
    assert_eq!(cond_implies(&g, &Condition::Gt(v(6), v(5)), &Condition::Eq(v(5), v(6)), AT), Some(Condition::False));
    assert_eq!(cond_implies(&g, &Condition::Eq(v(5), v(6)), &Condition::Leq(v(6), v(5)), AT), Some(Condition::True));
    assert_eq!(cond_implies(&g, &Condition::Eq(v(5), v(6)), &Condition::Gt(v(5), v(6)), AT), Some(Condition::False));
    assert_eq!(cond_implies(&g, &Condition::Lt(v(5), v(6)), &Condition::Lt(v(6), v(7)), AT), None);
}

#[test]
fn implies_divisibility_by_constants() {
    // value 6 is the constant 6, value 7 the constant 3
    let g = graph(vec![-100..=100, 6..=6, 3..=3], vec![]);
    assert_eq!(cond_implies(&g, &Condition::Divides(v(5), v(6)), &Condition::Divides(v(5), v(7)), AT), Some(Condition::True));
    assert_eq!(cond_implies(&g, &Condition::Divides(v(5), v(7)), &Condition::Divides(v(5), v(6)), AT), None);
}

#[test]
fn implies_equality_rewrites_through_the_assumption() {
    // value 5 is computed by an instruction; with v7 == v5, v5 == v8 means v7 == v8
    let g = graph(vec![0..=10, 0..=10, 0..=10, 0..=10], vec![instr(0, OptOp::BinNot, &[6], 5)]);
    assert_eq!(
        cond_implies(&g, &Condition::Eq(v(7), v(5)), &Condition::Eq(v(5), v(8)), AT),
        Some(Condition::Eq(v(7), v(8)))
    );
    assert_eq!(
        cond_implies(&g, &Condition::Eq(v(7), v(5)), &Condition::Eq(v(8), v(5)), AT),
        Some(Condition::Eq(v(7), v(8)))
    );
    // not computed: no rewrite
    assert_eq!(cond_implies(&g, &Condition::Eq(v(7), v(6)), &Condition::Eq(v(6), v(8)), AT), None);
}

#[test]
fn implies_divisibility_only_by_a_nonzero_divisor() {
    // value 5 may be 0, value 6 may not
    let g = graph(vec![0..=10, 1..=10], vec![]);
    assert_eq!(cond_implies(&g, &Condition::Eq(v(6), v(6)), &Condition::Divides(v(6), v(6)), AT), Some(Condition::True));
    assert_eq!(cond_implies(&g, &Condition::Eq(v(5), v(5)), &Condition::Divides(v(5), v(5)), AT), None);
    assert_eq!(cond_implies(&g, &Condition::Eq(v(6), v(5)), &Condition::Divides(v(6), v(5)), AT), None);
    assert_eq!(cond_implies(&g, &Condition::Eq(v(5), v(6)), &Condition::Divides(v(5), v(6)), AT), Some(Condition::True));
    assert_eq!(cond_implies(&g, &Condition::Eq(v(5), v(6)), &Condition::NotDivides(v(5), v(6)), AT), Some(Condition::False));
    assert_eq!(cond_implies(&g, &Condition::NotDivides(v(6), v(5)), &Condition::Neq(v(6), v(5)), AT), None);
    assert_eq!(cond_implies(&g, &Condition::NotDivides(v(5), v(6)), &Condition::Neq(v(5), v(6)), AT), Some(Condition::True));
    assert_eq!(cond_implies(&g, &Condition::NotDivides(v(5), v(6)), &Condition::Eq(v(5), v(6)), AT), Some(Condition::False));
}

#[test]
fn implications_of_min() {
    // value 6 = min(value 5, value 7); value 8 is the constant 4
    let mut g = graph(vec![0..=10, 0..=10, 0..=10, 4..=4], vec![instr(0, OptOp::Min, &[5, 7], 6)]);
    assert_eq!(
        interesting_implications(&mut g, &Condition::Leq(v(8), v(6)), AT),
        vec![Condition::Leq(v(8), v(5)), Condition::Leq(v(8), v(7))]
    );
    assert_eq!(
        interesting_implications(&mut g, &Condition::Lt(v(8), v(6)), AT),
        vec![Condition::Lt(v(8), v(5)), Condition::Lt(v(8), v(7))]
    );
    assert_eq!(interesting_implications(&mut g, &Condition::Gt(v(8), v(6)), AT), vec![]);
}

#[test]
fn implications_of_max() {
    // value 6 = max(value 5, value 7); value 8 is the constant 4
    let mut g = graph(vec![0..=10, 0..=10, 0..=10, 4..=4], vec![instr(0, OptOp::Max, &[5, 7], 6)]);
    assert_eq!(
        interesting_implications(&mut g, &Condition::Gt(v(8), v(6)), AT),
        vec![Condition::Gt(v(8), v(5)), Condition::Gt(v(8), v(7))]
    );
}

#[test]
fn implications_of_divisibility() {
    // value 5 lies in 10..=20 and never is 0: its divisor lies in -20..=20
    let mut g = graph(vec![10..=20, -100..=100], vec![]);
    let n = g.values.len() as u32;
    let r = interesting_implications(&mut g, &Condition::Divides(v(5), v(6)), AT);
    assert_eq!(r, vec![
        Condition::Neq(v(0), v(6)),
        Condition::Geq(v(n), v(6)),
        Condition::Leq(v(n + 1), v(6)),
    ]);
    assert_eq!(g.values[n as usize].range, 20..=20);
    assert_eq!(g.values[n as usize + 1].range, -20..=-20);
    // a range holding 0 gives only the nonzero divisor
    let mut g = graph(vec![-5..=5, -100..=100], vec![]);
    let r = interesting_implications(&mut g, &Condition::Divides(v(5), v(6)), AT);
    assert_eq!(r, vec![Condition::Neq(v(0), v(6))]);
}

#[test]
fn multiples() {
    assert!(is_multiple_of(6, 3));
    assert!(is_multiple_of(-6, 3));
    assert!(is_multiple_of(0, 0));
    assert!(!is_multiple_of(5, 0));
    assert!(!is_multiple_of(7, 2));
    assert!(is_multiple_of(i64::MIN, -1));
}
