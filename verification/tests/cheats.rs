use ksplang_opt::cfg::{BasicBlock, BlockId, Condition, GraphBuilder, InstrId, OptOp, ValueId, ValueInfo};
use ksplang_opt::cheats::{
    cheat_bitnot1, cheat_bitnot2, cheat_dup1_trochu_jina, cheat_erikova_dup, cheat_sejselova2_dup,
    cheat_sejselova_dup, cheat_vzorakova_dup, choose_cheat, starts_with, try_cheat, Cheat, PrecompileStepResult,
    Precompiler, PrecompilerConf,
};
use ksplang_opt::ops::{parse_program, Op, ParseError};

const SEJSELOVA_DUP: &str = "CS CS lensum CS funkcia CS ++ ++ ++ m\n\
CS CS ++ gcd ++ max CS CS % qeq\n\
CS CS CS ++ ++ qeq pop2 CS j ++\n\
CS praise qeq qeq pop2 funkcia funkcia ++ % bitshift\n\
CS CS gcd CS ++ lroll CS u CS CS\n\
pop2 CS lensum m pop2 pop2";

const SEJSELOVA2_DUP: &str = "CS CS lensum CS funkcia CS ++ ++ ++ m\n\
CS CS ++ gcd ++ max CS CS % qeq\n\
CS CS CS ++ ++ qeq pop2 CS CS ^^\n\
CS praise qeq qeq pop2 funkcia funkcia ++ % bitshift\n\
CS CS gcd CS ++ lroll CS u CS CS\n\
pop2 CS lensum m pop2 pop2";

const ERIKOVA_DUP: &str = "CS CS lensum CS funkcia CS ++ ++ ++ m\n\
CS CS ++ gcd ++ max CS CS REM qeq\n\
CS CS CS ++ ++ qeq pop2 CS CS ++\n\
gcd CS CS CS CS bitshift bitshift CS bitshift CS\n\
CS pop2 u bitshift CS CS gcd CS ++ lroll\n\
CS u CS CS ++ gcd ++ ++ m pop2\n\
pop2";

const VZORAKOVA_DUP: &str = "CS CS lensum ++ CS lensum m CS CS lensum\n\
CS funkcia CS ++ CS qeq u CS CS lensum\n\
CS funkcia ++ bitshift CS CS lensum ++ CS lensum\n\
m CS CS lensum CS funkcia CS ++ CS qeq\n\
u CS CS lensum CS funkcia ++ bitshift pop2 CS\n\
CS lensum ++ CS lensum CS ++ ++ lroll m\n\
CS CS lensum CS funkcia ++ CS CS funkcia qeq\n\
CS CS lensum CS funkcia ++ bitshift pop2 CS CS\n\
lensum CS funkcia u ++ ++ ++ CS CS CS\n\
CS lensum CS funkcia CS ++ CS qeq u CS\n\
++ CS lensum CS ++ ++ lroll CS funkcia u\n\
CS CS lensum CS funkcia ++ CS ++ ++ lroll\n\
CS CS lensum CS funkcia CS ++ CS qeq u\n\
CS CS funkcia u";

#[test]
fn lala() {
    assert_eq!(&cheat_sejselova_dup()[..], &parse_program(SEJSELOVA_DUP).unwrap()[..]);
    assert_eq!(&cheat_sejselova2_dup()[..], &parse_program(SEJSELOVA2_DUP).unwrap()[..]);
    assert_eq!(&cheat_erikova_dup()[..], &parse_program(ERIKOVA_DUP).unwrap()[..]);
    assert_eq!(&cheat_vzorakova_dup()[..], &parse_program(VZORAKOVA_DUP).unwrap()[..]);
}

#[test]
fn sequence_lengths() {
    assert_eq!(cheat_bitnot1().len(), 284);
    assert_eq!(cheat_bitnot2().len(), 284);
    assert_eq!(cheat_dup1_trochu_jina().len(), 137);
    assert_eq!(cheat_vzorakova_dup().len(), 134);
    assert_eq!(cheat_erikova_dup().len(), 61);
    assert_eq!(cheat_sejselova_dup().len(), 56);
    assert_eq!(cheat_sejselova2_dup().len(), 56);
}

#[test]
fn parse_unknown_instruction() {
    match parse_program("CS CS foo lensum") {
        Err(ParseError::UnknownInstruction(w)) => assert_eq!(w, "foo"),
        Ok(_) => panic!("parsed a program with an unknown word"),
    }
}

#[test]
fn parse_whitespace_and_names() {
    let ops = parse_program("  praise\tpop2\n\n^^ tetr  REM %  ").unwrap();
    assert_eq!(ops, vec![Op::Praise, Op::Pop2, Op::TetrationItersNum, Op::TetrationNumIters, Op::Remainder, Op::Modulo]);
    assert_eq!(parse_program("").unwrap(), Vec::<Op>::new());
}

#[test]
fn op_names_round_trip() {
    for op in Op::all() {
        let name = op.name();
        assert_eq!(Op::by_name(&name), Some(op));
    }
    assert_eq!(Op::by_name(&['x']), None);
}

#[test]
fn starts_with_prefix() {
    let s = [Op::Pop, Op::Max, Op::Sum];
    assert!(starts_with(&s, &[Op::Pop, Op::Max]));
    assert!(starts_with(&s, &[]));
    assert!(!starts_with(&s, &[Op::Max]));
    assert!(!starts_with(&[Op::Pop], &[Op::Pop, Op::Pop]));
}

#[test]
fn choose_cheat_by_mode() {
    let bitnot = cheat_bitnot1();
    assert_eq!(choose_cheat(0, &bitnot, None), None);
    assert_eq!(choose_cheat(1, &bitnot, None), Some(Cheat::PushConstant(0, 5)));
    assert_eq!(choose_cheat(2, &bitnot, None), Some(Cheat::Bitnot(284, 235, 238, 236)));
    assert_eq!(choose_cheat(2, &cheat_bitnot2(), None), Some(Cheat::Bitnot(284, 235, 238, 238)));
    assert_eq!(choose_cheat(2, &cheat_dup1_trochu_jina(), None), Some(Cheat::DupSimple(137, 137)));
    assert_eq!(choose_cheat(2, &cheat_vzorakova_dup(), None), Some(Cheat::DupSimple(134, 134)));
    assert_eq!(choose_cheat(2, &cheat_erikova_dup(), None), Some(Cheat::DupSimple(61, 61)));
    assert_eq!(choose_cheat(2, &cheat_sejselova_dup(), None), Some(Cheat::DupWithBranch(56, 55, 1)));
    assert_eq!(choose_cheat(2, &cheat_sejselova2_dup(), None), Some(Cheat::DupSimple(56, 56)));
}

#[test]
fn choose_cheat_constants() {
    let max = parse_program("CS CS lensum CS funkcia ++ praise qeq pop2 pop2 funkcia ++ bitshift pop2 pop2 pop2 ++ CS CS lensum CS funkcia ++ CS CS % qeq").unwrap();
    assert_eq!(choose_cheat(1, &max, None), Some(Cheat::PushConstant(i64::MAX, 27)));
    let min = parse_program("CS CS lensum CS funkcia ++ praise qeq pop2 pop2 funkcia ++ bitshift pop2 pop2 pop2 pop").unwrap();
    assert_eq!(choose_cheat(1, &min, None), Some(Cheat::PushConstant(i64::MIN, 16)));
    let minus_one = parse_program("CS CS lensum ++ CS CS CS REM qeq").unwrap();
    assert_eq!(choose_cheat(1, &minus_one, None), Some(Cheat::PushConstant(-1, 9)));
    // the sequence for -1 is only recognized as the whole remaining program
    let mut longer = minus_one.clone();
    longer.push(Op::Pop);
    assert_eq!(choose_cheat(1, &longer, None), None);
    let zero = parse_program("CS CS lensum ++ CS % pop").unwrap();
    assert_eq!(choose_cheat(1, &zero, None), Some(Cheat::PushConstant(0, 6)));
    let two = parse_program("CS CS ++ lensum CS lensum").unwrap();
    assert_eq!(choose_cheat(1, &two, None), Some(Cheat::PushConstant(2, 6)));
    assert_eq!(choose_cheat(1, &[Op::Pop, Op::Pop], None), None);
}

#[test]
fn choose_cheat_depends_on_top_range() {
    let swap = parse_program("CS CS ^^ CS praise qeq qeq pop2 funkcia funkcia ++ % bitshift CS CS gcd CS ++ lroll").unwrap();
    assert_eq!(choose_cheat(1, &swap, Some((-1, 0))), Some(Cheat::PushMinSwapped));
    assert_eq!(choose_cheat(1, &swap, Some((0, 0))), Some(Cheat::PushMinSwapped));
    assert_eq!(choose_cheat(1, &swap, Some((-1, 1))), None);
    assert_eq!(choose_cheat(1, &swap, None), None);
    let short = &swap[..13];
    assert_eq!(choose_cheat(1, short, Some((-1, -1))), Some(Cheat::PushConstant(i64::MIN, 13)));
    assert_eq!(choose_cheat(1, short, Some((-2, -1))), None);
}

fn constants() -> Vec<ValueInfo> {
    vec![
        ValueInfo { id: ValueId(0), range: 0..=0 },
        ValueInfo { id: ValueId(1), range: 1..=1 },
        ValueInfo { id: ValueId(2), range: 2..=2 },
        ValueInfo { id: ValueId(3), range: 3..=3 },
        ValueInfo { id: ValueId(4), range: i64::MIN..=i64::MIN },
    ]
}

fn precompiler(ops: Vec<Op>, mode: u32, stack: Vec<ValueId>, extra: Vec<std::ops::RangeInclusive<i64>>) -> Precompiler {
    let mut values = constants();
    for r in extra {
        let id = ValueId(values.len() as u32);
        values.push(ValueInfo { id, range: r });
    }
    let block = BasicBlock {
        id: BlockId(0),
        incoming_jumps: vec![],
        outgoing_jumps: vec![],
        ksplang_instr_count: 0,
        instructions: vec![],
        parameters: vec![],
        is_sealed: true,
    };
    Precompiler {
        ops,
        position: 0,
        step_count: 0,
        conf: PrecompilerConf { cheat_mode: mode },
        g: GraphBuilder { blocks: vec![block], values, current_block: BlockId(0), stack },
    }
}

#[test]
fn try_cheat_off() {
    let mut p = precompiler(cheat_bitnot1(), 0, vec![], vec![]);
    assert_eq!(try_cheat(&mut p), None);
    assert_eq!(p.position, 0);
    assert_eq!(p.g.values.len(), 5);
    assert!(p.g.stack.is_empty());
}

#[test]
fn try_cheat_nothing_recognized() {
    let mut p = precompiler(vec![Op::Pop, Op::Max], 2, vec![], vec![]);
    assert_eq!(try_cheat(&mut p), None);
    assert_eq!(p.position, 0);
    assert_eq!(p.step_count, 0);
}

#[test]
fn try_cheat_push_minus_one() {
    let ops = parse_program("CS CS lensum ++ CS CS CS % qeq").unwrap();
    let mut p = precompiler(ops, 1, vec![], vec![]);
    assert_eq!(try_cheat(&mut p), Some(PrecompileStepResult::Continue));
    // the unknown top of the stack was looked at, then the constant pushed
    assert_eq!(p.g.stack, vec![ValueId(5), ValueId(6)]);
    assert_eq!(p.g.values[5].range, i64::MIN..=i64::MAX);
    assert_eq!(p.g.values[6].range, -1..=-1);
    assert_eq!(p.position, 8);
    assert_eq!(p.step_count, 8);
    assert_eq!(p.g.blocks[0].ksplang_instr_count, 8);
    assert!(p.g.blocks[0].instructions.is_empty());
}

#[test]
fn try_cheat_push_max_keeps_stack() {
    let mut ops = parse_program("CS CS lensum CS funkcia ++ praise qeq pop2 pop2 funkcia ++ bitshift pop2 pop2 pop2 ++ CS CS lensum CS funkcia ++ CS CS % qeq").unwrap();
    ops.push(Op::Pop);
    let mut p = precompiler(ops, 1, vec![ValueId(1)], vec![]);
    p.position = 0;
    assert_eq!(try_cheat(&mut p), Some(PrecompileStepResult::Continue));
    assert_eq!(p.g.stack, vec![ValueId(1), ValueId(5)]);
    assert_eq!(p.g.values[5].range, i64::MAX..=i64::MAX);
    assert_eq!(p.position, 26);
    assert_eq!(p.g.blocks[0].ksplang_instr_count, 26);
}

#[test]
fn try_cheat_from_position() {
    let mut ops = vec![Op::Pop, Op::Pop];
    ops.extend(parse_program("CS CS lensum CS funkcia").unwrap());
    let mut p = precompiler(ops, 1, vec![ValueId(2)], vec![]);
    p.position = 2;
    p.step_count = 2;
    assert_eq!(try_cheat(&mut p), Some(PrecompileStepResult::Continue));
    assert_eq!(p.g.stack, vec![ValueId(2), ValueId(5)]);
    assert_eq!(p.g.values[5].range, 0..=0);
    assert_eq!(p.position, 6);
    assert_eq!(p.step_count, 6);
}

#[test]
fn try_cheat_dup_simple() {
    let mut p = precompiler(cheat_erikova_dup(), 2, vec![ValueId(2)], vec![]);
    assert_eq!(try_cheat(&mut p), Some(PrecompileStepResult::Continue));
    assert_eq!(p.g.stack, vec![ValueId(2), ValueId(2)]);
    assert_eq!(p.g.values.len(), 5);
    assert_eq!(p.position, 60);
    assert_eq!(p.g.blocks[0].ksplang_instr_count, 60);
}

#[test]
fn try_cheat_dup_with_branch() {
    let mut p = precompiler(cheat_sejselova_dup(), 2, vec![ValueId(5)], vec![0..=10]);
    assert_eq!(try_cheat(&mut p), Some(PrecompileStepResult::Continue));
    assert_eq!(p.g.stack, vec![ValueId(5), ValueId(5)]);
    assert_eq!(p.position, 55);
    assert_eq!(p.step_count, 54);
    assert_eq!(p.g.blocks[0].ksplang_instr_count, 54);
    let instrs = &p.g.blocks[0].instructions;
    assert_eq!(instrs.len(), 1);
    assert_eq!(instrs[0].op, OptOp::KsplangOpsIncrement(Condition::Gt(ValueId(3), ValueId(5))));
    assert_eq!(instrs[0].id, InstrId(BlockId(0), 0));
    assert_eq!(instrs[0].inputs.len(), 1);
    assert_eq!(p.g.values[instrs[0].inputs[0].0 as usize].range, 1..=1);
}

#[test]
fn try_cheat_bitnot() {
    let mut p = precompiler(cheat_bitnot1(), 2, vec![ValueId(5)], vec![-7..=7]);
    assert_eq!(try_cheat(&mut p), Some(PrecompileStepResult::Continue));
    let instrs = &p.g.blocks[0].instructions;
    assert_eq!(instrs.len(), 3);
    assert_eq!(instrs[0].op, OptOp::BinNot);
    assert_eq!(instrs[0].inputs, vec![ValueId(5)]);
    let out = instrs[0].out;
    assert_eq!(p.g.stack, vec![out]);
    // the run executes 235 instructions for i64::MIN, 238 for other values
    // below 3 and 236 from 3 on
    assert_eq!(instrs[1].op, OptOp::KsplangOpsIncrement(Condition::Neq(ValueId(4), ValueId(5))));
    assert_eq!(p.g.values[instrs[1].inputs[0].0 as usize].range, 3..=3);
    assert_eq!(instrs[2].op, OptOp::KsplangOpsIncrement(Condition::Gt(ValueId(3), ValueId(5))));
    assert_eq!(p.g.values[instrs[2].inputs[0].0 as usize].range, 2..=2);
    assert_eq!(p.g.blocks[0].ksplang_instr_count, 232);
    assert_eq!(p.position, 283);
    assert_eq!(p.step_count, 237);
}

#[test]
fn try_cheat_bitnot2_no_branch_above_three() {
    let mut p = precompiler(cheat_bitnot2(), 2, vec![ValueId(0)], vec![]);
    assert_eq!(try_cheat(&mut p), Some(PrecompileStepResult::Continue));
    let instrs = &p.g.blocks[0].instructions;
    assert_eq!(instrs.len(), 2);
    assert_eq!(p.g.blocks[0].ksplang_instr_count, 234);
}

#[test]
fn try_cheat_min_swapped() {
    let ops = parse_program("CS CS ^^ CS praise qeq qeq pop2 funkcia funkcia ++ % bitshift CS CS gcd CS ++ lroll pop").unwrap();
    let mut p = precompiler(ops, 1, vec![ValueId(1), ValueId(5)], vec![-1..=0]);
    assert_eq!(try_cheat(&mut p), Some(PrecompileStepResult::Continue));
    assert_eq!(p.g.stack, vec![ValueId(1), ValueId(6), ValueId(5)]);
    assert_eq!(p.g.values[6].range, i64::MIN..=i64::MIN);
    assert_eq!(p.position, 18);
    assert_eq!(p.g.blocks[0].ksplang_instr_count, 18);
}

#[test]
fn try_cheat_min_needs_small_top() {
    let ops = parse_program("CS CS ^^ CS praise qeq qeq pop2 funkcia funkcia ++ % bitshift").unwrap();
    let mut p = precompiler(ops, 1, vec![ValueId(5)], vec![0..=4]);
    assert_eq!(try_cheat(&mut p), None);
    assert_eq!(p.g.stack, vec![ValueId(5)]);
}

/// Instructions a run of the compiled block executes when the value on top
/// of the stack is `x`: the block's own count, the counting instructions
/// whose condition holds, and the one of the step itself.
fn executed(p: &Precompiler, x: i64) -> i64 {
    let val = |v: ValueId| -> i64 {
        match v.0 {
            3 => 3,
            4 => i64::MIN,
            5 => x,
            _ => panic!("no value for {:?}", v),
        }
    };
    let mut total = p.g.blocks[0].ksplang_instr_count as i64 + 1;
    for i in &p.g.blocks[0].instructions {
        if let OptOp::KsplangOpsIncrement(c) = i.op {
            let holds = match c {
                Condition::True => true,
                Condition::False => false,
                Condition::Eq(a, b) => val(a) == val(b),
                Condition::Neq(a, b) => val(a) != val(b),
                Condition::Lt(a, b) => val(a) < val(b),
                Condition::Leq(a, b) => val(a) <= val(b),
                Condition::Gt(a, b) => val(a) > val(b),
                Condition::Geq(a, b) => val(a) >= val(b),
                Condition::Divides(a, b) => val(b) != 0 && val(a) % val(b) == 0,
                Condition::NotDivides(a, b) => !(val(b) != 0 && val(a) % val(b) == 0),
            };
            if holds {
                total += *p.g.values[i.inputs[0].0 as usize].range.end();
            }
        }
    }
    total
}

#[test]
fn bitnot_counts_each_branch() {
    let mut p = precompiler(cheat_bitnot1(), 2, vec![ValueId(5)], vec![i64::MIN..=i64::MAX]);
    try_cheat(&mut p).unwrap();
    assert_eq!(executed(&p, i64::MIN), 235);
    assert_eq!(executed(&p, -7), 238);
    assert_eq!(executed(&p, 2), 238);
    assert_eq!(executed(&p, 3), 236);
    assert_eq!(executed(&p, 4), 236);
    let mut p = precompiler(cheat_bitnot2(), 2, vec![ValueId(5)], vec![i64::MIN..=i64::MAX]);
    try_cheat(&mut p).unwrap();
    assert_eq!(executed(&p, i64::MIN), 235);
    assert_eq!(executed(&p, 0), 238);
    assert_eq!(executed(&p, 100), 238);
}

#[test]
fn dup_with_branch_counts_each_branch() {
    let mut p = precompiler(cheat_sejselova_dup(), 2, vec![ValueId(5)], vec![i64::MIN..=i64::MAX]);
    try_cheat(&mut p).unwrap();
    assert_eq!(executed(&p, 2), 56);
    assert_eq!(executed(&p, 3), 55);
    assert_eq!(executed(&p, 1000), 55);
}

#[test]
fn instruction_names_are_distinct() {
    let all = Op::all();
    for a in &all {
        for b in &all {
            if a != b {
                assert_ne!(a.name(), b.name());
            }
        }
    }
}
