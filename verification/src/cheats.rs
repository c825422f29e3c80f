//! Recognizing well-known instruction sequences whose effect is known, so
//! that they can be compiled in one step instead of instruction by instruction.

use vstd::prelude::*;
use crate::ops::Op;
use crate::cfg::{BlockId, Condition, GraphBuilder, InstrId, OptInstr, OptOp, ValueId, C_IMIN, C_THREE};
use crate::ranges::is_irange;

verus! {

/// A program that replaces the top of the stack by its bitwise negation.
pub open spec fn pattern_bitnot1() -> Seq<Op> {
    seq![Op::DigitSum, Op::DigitSum, Op::LenSum, Op::DigitSum, Op::Funkcia, Op::DigitSum, Op::Increment, Op::Increment, Op::Increment, Op::Median, Op::DigitSum, Op::DigitSum, Op::Increment, Op::Gcd2, Op::Increment, Op::Max, Op::DigitSum, Op::DigitSum, Op::Modulo, Op::Qeq, Op::DigitSum, Op::DigitSum, Op::DigitSum, Op::Increment, Op::Increment, Op::Qeq, Op::Pop2, Op::DigitSum, Op::Jump, Op::Increment, Op::DigitSum, Op::Praise, Op::Qeq, Op::Qeq, Op::Pop2, Op::Funkcia, Op::Funkcia, Op::Increment, Op::Modulo, Op::Bitshift, Op::DigitSum, Op::DigitSum, Op::Gcd2, Op::DigitSum, Op::Increment, Op::Roll, Op::DigitSum, Op::Universal, Op::DigitSum, Op::DigitSum, Op::Pop2, Op::DigitSum, Op::LenSum, Op::Median, Op::Pop2, Op::Pop2, Op::DigitSum, Op::DigitSum, Op::LenSum, Op::DigitSum, Op::Funkcia, Op::DigitSum, Op::Increment, Op::Increment, Op::Increment, Op::Median, Op::DigitSum, Op::DigitSum, Op::Increment, Op::Gcd2, Op::Increment, Op::Max, Op::DigitSum, Op::DigitSum, Op::Modulo, Op::Qeq, Op::DigitSum, Op::DigitSum, Op::DigitSum, Op::Increment, Op::Increment, Op::Qeq, Op::Pop2, Op::DigitSum, Op::Jump, Op::Increment, Op::DigitSum, Op::Praise, Op::Qeq, Op::Qeq, Op::Pop2, Op::Funkcia, Op::Funkcia, Op::Increment, Op::Modulo, Op::Bitshift, Op::DigitSum, Op::DigitSum, Op::Gcd2, Op::DigitSum, Op::Increment, Op::Roll, Op::DigitSum, Op::Universal, Op::DigitSum, Op::DigitSum, Op::Pop2, Op::DigitSum, Op::LenSum, Op::Median, Op::Pop2, Op::Pop2, Op::DigitSum, Op::DigitSum, Op::LenSum, Op::Increment, Op::DigitSum, Op::LenSum, Op::Increment, Op::Increment, Op::Increment, Op::Universal, Op::DigitSum, Op::DigitSum, Op::LenSum, Op::DigitSum, Op::Funkcia, Op::Increment, Op::Universal, Op::DigitSum, Op::DigitSum, Op::LenSum, Op::DigitSum, Op::Funkcia, Op::Increment, Op::Praise, Op::Qeq, Op::Pop2, Op::Pop2, Op::Funkcia, Op::Increment, Op::Bitshift, Op::Pop2, Op::Pop2, Op::Pop2, Op::Increment, Op::DigitSum, Op::DigitSum, Op::LenSum, Op::DigitSum, Op::Funkcia, Op::Increment, Op::DigitSum, Op::DigitSum, Op::Modulo, Op::Qeq, Op::DigitSum, Op::DigitSum, Op::LenSum, Op::DigitSum, Op::Funkcia, Op::Increment, Op::Universal, Op::DigitSum, Op::DigitSum, Op::LenSum, Op::DigitSum, Op::Funkcia, Op::Increment, Op::Praise, Op::Qeq, Op::Qeq, Op::Funkcia, Op::And, Op::Pop2, Op::Pop2, Op::DigitSum, Op::Funkcia, Op::DigitSum, Op::DigitSum, Op::LenSum, Op::DigitSum, Op::Funkcia, Op::Increment, Op::DigitSum, Op::Increment, Op::Roll, Op::BranchIfZero, Op::Pop2, Op::DigitSum, Op::DigitSum, Op::LenSum, Op::DigitSum, Op::Funkcia, Op::Increment, Op::Praise, Op::Qeq, Op::Qeq, Op::Remainder, Op::Bitshift, Op::Remainder, Op::Pop2, Op::DigitSum, Op::Pop, Op::Jump, Op::Pop2, Op::Pop, Op::DigitSum, Op::DigitSum, Op::LenSum, Op::DigitSum, Op::Funkcia, Op::Increment, Op::Praise, Op::Qeq, Op::Pop2, Op::Pop2, Op::Funkcia, Op::Increment, Op::Bitshift, Op::Pop2, Op::Pop2, Op::Pop2, Op::Increment, Op::DigitSum, Op::DigitSum, Op::LenSum, Op::DigitSum, Op::Funkcia, Op::Increment, Op::DigitSum, Op::DigitSum, Op::Modulo, Op::Qeq, Op::Pop2, Op::DigitSum, Op::DigitSum, Op::LenSum, Op::Increment, Op::DigitSum, Op::LenSum, Op::DigitSum, Op::Increment, Op::Increment, Op::Bitshift, Op::DigitSum, Op::Increment, Op::Increment, Op::Increment, Op::Pop, Op::Jump, Op::Pop, Op::Pop, Op::DigitSum, Op::DigitSum, Op::LenSum, Op::Increment, Op::DigitSum, Op::DigitSum, Op::DigitSum, Op::Modulo, Op::Qeq, Op::DigitSum, Op::DigitSum, Op::Increment, Op::Roll, Op::DigitSum, Op::DigitSum, Op::LenSum, Op::DigitSum, Op::Funkcia, Op::Increment, Op::DigitSum, Op::DigitSum, Op::Modulo, Op::Qeq, Op::DigitSum, Op::DigitSum, Op::LenSum, Op::DigitSum, Op::Funkcia, Op::Universal, Op::DigitSum, Op::Pop]
}

/// The instructions of `pattern_bitnot1`.
pub fn cheat_bitnot1() -> (v: Vec<Op>)
    ensures
        v@ == pattern_bitnot1(),
{
    vec![Op::DigitSum, Op::DigitSum, Op::LenSum, Op::DigitSum, Op::Funkcia, Op::DigitSum, Op::Increment, Op::Increment, Op::Increment, Op::Median, Op::DigitSum, Op::DigitSum, Op::Increment, Op::Gcd2, Op::Increment, Op::Max, Op::DigitSum, Op::DigitSum, Op::Modulo, Op::Qeq, Op::DigitSum, Op::DigitSum, Op::DigitSum, Op::Increment, Op::Increment, Op::Qeq, Op::Pop2, Op::DigitSum, Op::Jump, Op::Increment, Op::DigitSum, Op::Praise, Op::Qeq, Op::Qeq, Op::Pop2, Op::Funkcia, Op::Funkcia, Op::Increment, Op::Modulo, Op::Bitshift, Op::DigitSum, Op::DigitSum, Op::Gcd2, Op::DigitSum, Op::Increment, Op::Roll, Op::DigitSum, Op::Universal, Op::DigitSum, Op::DigitSum, Op::Pop2, Op::DigitSum, Op::LenSum, Op::Median, Op::Pop2, Op::Pop2, Op::DigitSum, Op::DigitSum, Op::LenSum, Op::DigitSum, Op::Funkcia, Op::DigitSum, Op::Increment, Op::Increment, Op::Increment, Op::Median, Op::DigitSum, Op::DigitSum, Op::Increment, Op::Gcd2, Op::Increment, Op::Max, Op::DigitSum, Op::DigitSum, Op::Modulo, Op::Qeq, Op::DigitSum, Op::DigitSum, Op::DigitSum, Op::Increment, Op::Increment, Op::Qeq, Op::Pop2, Op::DigitSum, Op::Jump, Op::Increment, Op::DigitSum, Op::Praise, Op::Qeq, Op::Qeq, Op::Pop2, Op::Funkcia, Op::Funkcia, Op::Increment, Op::Modulo, Op::Bitshift, Op::DigitSum, Op::DigitSum, Op::Gcd2, Op::DigitSum, Op::Increment, Op::Roll, Op::DigitSum, Op::Universal, Op::DigitSum, Op::DigitSum, Op::Pop2, Op::DigitSum, Op::LenSum, Op::Median, Op::Pop2, Op::Pop2, Op::DigitSum, Op::DigitSum, Op::LenSum, Op::Increment, Op::DigitSum, Op::LenSum, Op::Increment, Op::Increment, Op::Increment, Op::Universal, Op::DigitSum, Op::DigitSum, Op::LenSum, Op::DigitSum, Op::Funkcia, Op::Increment, Op::Universal, Op::DigitSum, Op::DigitSum, Op::LenSum, Op::DigitSum, Op::Funkcia, Op::Increment, Op::Praise, Op::Qeq, Op::Pop2, Op::Pop2, Op::Funkcia, Op::Increment, Op::Bitshift, Op::Pop2, Op::Pop2, Op::Pop2, Op::Increment, Op::DigitSum, Op::DigitSum, Op::LenSum, Op::DigitSum, Op::Funkcia, Op::Increment, Op::DigitSum, Op::DigitSum, Op::Modulo, Op::Qeq, Op::DigitSum, Op::DigitSum, Op::LenSum, Op::DigitSum, Op::Funkcia, Op::Increment, Op::Universal, Op::DigitSum, Op::DigitSum, Op::LenSum, Op::DigitSum, Op::Funkcia, Op::Increment, Op::Praise, Op::Qeq, Op::Qeq, Op::Funkcia, Op::And, Op::Pop2, Op::Pop2, Op::DigitSum, Op::Funkcia, Op::DigitSum, Op::DigitSum, Op::LenSum, Op::DigitSum, Op::Funkcia, Op::Increment, Op::DigitSum, Op::Increment, Op::Roll, Op::BranchIfZero, Op::Pop2, Op::DigitSum, Op::DigitSum, Op::LenSum, Op::DigitSum, Op::Funkcia, Op::Increment, Op::Praise, Op::Qeq, Op::Qeq, Op::Remainder, Op::Bitshift, Op::Remainder, Op::Pop2, Op::DigitSum, Op::Pop, Op::Jump, Op::Pop2, Op::Pop, Op::DigitSum, Op::DigitSum, Op::LenSum, Op::DigitSum, Op::Funkcia, Op::Increment, Op::Praise, Op::Qeq, Op::Pop2, Op::Pop2, Op::Funkcia, Op::Increment, Op::Bitshift, Op::Pop2, Op::Pop2, Op::Pop2, Op::Increment, Op::DigitSum, Op::DigitSum, Op::LenSum, Op::DigitSum, Op::Funkcia, Op::Increment, Op::DigitSum, Op::DigitSum, Op::Modulo, Op::Qeq, Op::Pop2, Op::DigitSum, Op::DigitSum, Op::LenSum, Op::Increment, Op::DigitSum, Op::LenSum, Op::DigitSum, Op::Increment, Op::Increment, Op::Bitshift, Op::DigitSum, Op::Increment, Op::Increment, Op::Increment, Op::Pop, Op::Jump, Op::Pop, Op::Pop, Op::DigitSum, Op::DigitSum, Op::LenSum, Op::Increment, Op::DigitSum, Op::DigitSum, Op::DigitSum, Op::Modulo, Op::Qeq, Op::DigitSum, Op::DigitSum, Op::Increment, Op::Roll, Op::DigitSum, Op::DigitSum, Op::LenSum, Op::DigitSum, Op::Funkcia, Op::Increment, Op::DigitSum, Op::DigitSum, Op::Modulo, Op::Qeq, Op::DigitSum, Op::DigitSum, Op::LenSum, Op::DigitSum, Op::Funkcia, Op::Universal, Op::DigitSum, Op::Pop]
}

/// Another program that replaces the top of the stack by its bitwise negation.
pub open spec fn pattern_bitnot2() -> Seq<Op> {
    seq![Op::DigitSum, Op::DigitSum, Op::LenSum, Op::DigitSum, Op::Funkcia, Op::DigitSum, Op::Increment, Op::Increment, Op::Increment, Op::Median, Op::DigitSum, Op::DigitSum, Op::Increment, Op::Gcd2, Op::Increment, Op::Max, Op::DigitSum, Op::DigitSum, Op::Modulo, Op::Qeq, Op::DigitSum, Op::DigitSum, Op::DigitSum, Op::Increment, Op::Increment, Op::Qeq, Op::Pop2, Op::DigitSum, Op::DigitSum, Op::TetrationItersNum, Op::DigitSum, Op::Praise, Op::Qeq, Op::Qeq, Op::Pop2, Op::Funkcia, Op::Funkcia, Op::Increment, Op::Modulo, Op::Bitshift, Op::DigitSum, Op::DigitSum, Op::Gcd2, Op::DigitSum, Op::Increment, Op::Roll, Op::DigitSum, Op::Universal, Op::DigitSum, Op::DigitSum, Op::Pop2, Op::DigitSum, Op::LenSum, Op::Median, Op::Pop2, Op::Pop2, Op::DigitSum, Op::DigitSum, Op::LenSum, Op::DigitSum, Op::Funkcia, Op::DigitSum, Op::Increment, Op::Increment, Op::Increment, Op::Median, Op::DigitSum, Op::DigitSum, Op::Increment, Op::Gcd2, Op::Increment, Op::Max, Op::DigitSum, Op::DigitSum, Op::Modulo, Op::Qeq, Op::DigitSum, Op::DigitSum, Op::DigitSum, Op::Increment, Op::Increment, Op::Qeq, Op::Pop2, Op::DigitSum, Op::DigitSum, Op::TetrationItersNum, Op::DigitSum, Op::Praise, Op::Qeq, Op::Qeq, Op::Pop2, Op::Funkcia, Op::Funkcia, Op::Increment, Op::Modulo, Op::Bitshift, Op::DigitSum, Op::DigitSum, Op::Gcd2, Op::DigitSum, Op::Increment, Op::Roll, Op::DigitSum, Op::Universal, Op::DigitSum, Op::DigitSum, Op::Pop2, Op::DigitSum, Op::LenSum, Op::Median, Op::Pop2, Op::Pop2, Op::DigitSum, Op::DigitSum, Op::LenSum, Op::Increment, Op::DigitSum, Op::LenSum, Op::Increment, Op::Increment, Op::Increment, Op::Universal, Op::DigitSum, Op::DigitSum, Op::LenSum, Op::DigitSum, Op::Funkcia, Op::Increment, Op::Universal, Op::DigitSum, Op::DigitSum, Op::LenSum, Op::DigitSum, Op::Funkcia, Op::Increment, Op::Praise, Op::Qeq, Op::Pop2, Op::Pop2, Op::Funkcia, Op::Increment, Op::Bitshift, Op::Pop2, Op::Pop2, Op::Pop2, Op::Increment, Op::DigitSum, Op::DigitSum, Op::LenSum, Op::DigitSum, Op::Funkcia, Op::Increment, Op::DigitSum, Op::DigitSum, Op::Modulo, Op::Qeq, Op::DigitSum, Op::DigitSum, Op::LenSum, Op::DigitSum, Op::Funkcia, Op::Increment, Op::Universal, Op::DigitSum, Op::DigitSum, Op::LenSum, Op::DigitSum, Op::Funkcia, Op::Increment, Op::Praise, Op::Qeq, Op::Qeq, Op::Funkcia, Op::And, Op::Pop2, Op::Pop2, Op::DigitSum, Op::Funkcia, Op::DigitSum, Op::DigitSum, Op::LenSum, Op::DigitSum, Op::Funkcia, Op::Increment, Op::DigitSum, Op::Increment, Op::Roll, Op::BranchIfZero, Op::Pop2, Op::DigitSum, Op::DigitSum, Op::LenSum, Op::DigitSum, Op::Funkcia, Op::Increment, Op::Praise, Op::Qeq, Op::Qeq, Op::Remainder, Op::Bitshift, Op::Remainder, Op::Pop2, Op::DigitSum, Op::Pop, Op::Jump, Op::Pop2, Op::Pop, Op::DigitSum, Op::DigitSum, Op::LenSum, Op::DigitSum, Op::Funkcia, Op::Increment, Op::Praise, Op::Qeq, Op::Pop2, Op::Pop2, Op::Funkcia, Op::Increment, Op::Bitshift, Op::Pop2, Op::Pop2, Op::Pop2, Op::Increment, Op::DigitSum, Op::DigitSum, Op::LenSum, Op::DigitSum, Op::Funkcia, Op::Increment, Op::DigitSum, Op::DigitSum, Op::Modulo, Op::Qeq, Op::Pop2, Op::DigitSum, Op::DigitSum, Op::LenSum, Op::Increment, Op::DigitSum, Op::LenSum, Op::DigitSum, Op::Increment, Op::Increment, Op::Bitshift, Op::DigitSum, Op::Increment, Op::Increment, Op::Increment, Op::Pop, Op::Jump, Op::Pop, Op::Pop, Op::DigitSum, Op::DigitSum, Op::LenSum, Op::Increment, Op::DigitSum, Op::DigitSum, Op::DigitSum, Op::Modulo, Op::Qeq, Op::DigitSum, Op::DigitSum, Op::Increment, Op::Roll, Op::DigitSum, Op::DigitSum, Op::LenSum, Op::DigitSum, Op::Funkcia, Op::Increment, Op::DigitSum, Op::DigitSum, Op::Modulo, Op::Qeq, Op::DigitSum, Op::DigitSum, Op::LenSum, Op::DigitSum, Op::Funkcia, Op::Universal, Op::DigitSum, Op::Pop]
}

/// The instructions of `pattern_bitnot2`.
pub fn cheat_bitnot2() -> (v: Vec<Op>)
    ensures
        v@ == pattern_bitnot2(),
{
    vec![Op::DigitSum, Op::DigitSum, Op::LenSum, Op::DigitSum, Op::Funkcia, Op::DigitSum, Op::Increment, Op::Increment, Op::Increment, Op::Median, Op::DigitSum, Op::DigitSum, Op::Increment, Op::Gcd2, Op::Increment, Op::Max, Op::DigitSum, Op::DigitSum, Op::Modulo, Op::Qeq, Op::DigitSum, Op::DigitSum, Op::DigitSum, Op::Increment, Op::Increment, Op::Qeq, Op::Pop2, Op::DigitSum, Op::DigitSum, Op::TetrationItersNum, Op::DigitSum, Op::Praise, Op::Qeq, Op::Qeq, Op::Pop2, Op::Funkcia, Op::Funkcia, Op::Increment, Op::Modulo, Op::Bitshift, Op::DigitSum, Op::DigitSum, Op::Gcd2, Op::DigitSum, Op::Increment, Op::Roll, Op::DigitSum, Op::Universal, Op::DigitSum, Op::DigitSum, Op::Pop2, Op::DigitSum, Op::LenSum, Op::Median, Op::Pop2, Op::Pop2, Op::DigitSum, Op::DigitSum, Op::LenSum, Op::DigitSum, Op::Funkcia, Op::DigitSum, Op::Increment, Op::Increment, Op::Increment, Op::Median, Op::DigitSum, Op::DigitSum, Op::Increment, Op::Gcd2, Op::Increment, Op::Max, Op::DigitSum, Op::DigitSum, Op::Modulo, Op::Qeq, Op::DigitSum, Op::DigitSum, Op::DigitSum, Op::Increment, Op::Increment, Op::Qeq, Op::Pop2, Op::DigitSum, Op::DigitSum, Op::TetrationItersNum, Op::DigitSum, Op::Praise, Op::Qeq, Op::Qeq, Op::Pop2, Op::Funkcia, Op::Funkcia, Op::Increment, Op::Modulo, Op::Bitshift, Op::DigitSum, Op::DigitSum, Op::Gcd2, Op::DigitSum, Op::Increment, Op::Roll, Op::DigitSum, Op::Universal, Op::DigitSum, Op::DigitSum, Op::Pop2, Op::DigitSum, Op::LenSum, Op::Median, Op::Pop2, Op::Pop2, Op::DigitSum, Op::DigitSum, Op::LenSum, Op::Increment, Op::DigitSum, Op::LenSum, Op::Increment, Op::Increment, Op::Increment, Op::Universal, Op::DigitSum, Op::DigitSum, Op::LenSum, Op::DigitSum, Op::Funkcia, Op::Increment, Op::Universal, Op::DigitSum, Op::DigitSum, Op::LenSum, Op::DigitSum, Op::Funkcia, Op::Increment, Op::Praise, Op::Qeq, Op::Pop2, Op::Pop2, Op::Funkcia, Op::Increment, Op::Bitshift, Op::Pop2, Op::Pop2, Op::Pop2, Op::Increment, Op::DigitSum, Op::DigitSum, Op::LenSum, Op::DigitSum, Op::Funkcia, Op::Increment, Op::DigitSum, Op::DigitSum, Op::Modulo, Op::Qeq, Op::DigitSum, Op::DigitSum, Op::LenSum, Op::DigitSum, Op::Funkcia, Op::Increment, Op::Universal, Op::DigitSum, Op::DigitSum, Op::LenSum, Op::DigitSum, Op::Funkcia, Op::Increment, Op::Praise, Op::Qeq, Op::Qeq, Op::Funkcia, Op::And, Op::Pop2, Op::Pop2, Op::DigitSum, Op::Funkcia, Op::DigitSum, Op::DigitSum, Op::LenSum, Op::DigitSum, Op::Funkcia, Op::Increment, Op::DigitSum, Op::Increment, Op::Roll, Op::BranchIfZero, Op::Pop2, Op::DigitSum, Op::DigitSum, Op::LenSum, Op::DigitSum, Op::Funkcia, Op::Increment, Op::Praise, Op::Qeq, Op::Qeq, Op::Remainder, Op::Bitshift, Op::Remainder, Op::Pop2, Op::DigitSum, Op::Pop, Op::Jump, Op::Pop2, Op::Pop, Op::DigitSum, Op::DigitSum, Op::LenSum, Op::DigitSum, Op::Funkcia, Op::Increment, Op::Praise, Op::Qeq, Op::Pop2, Op::Pop2, Op::Funkcia, Op::Increment, Op::Bitshift, Op::Pop2, Op::Pop2, Op::Pop2, Op::Increment, Op::DigitSum, Op::DigitSum, Op::LenSum, Op::DigitSum, Op::Funkcia, Op::Increment, Op::DigitSum, Op::DigitSum, Op::Modulo, Op::Qeq, Op::Pop2, Op::DigitSum, Op::DigitSum, Op::LenSum, Op::Increment, Op::DigitSum, Op::LenSum, Op::DigitSum, Op::Increment, Op::Increment, Op::Bitshift, Op::DigitSum, Op::Increment, Op::Increment, Op::Increment, Op::Pop, Op::Jump, Op::Pop, Op::Pop, Op::DigitSum, Op::DigitSum, Op::LenSum, Op::Increment, Op::DigitSum, Op::DigitSum, Op::DigitSum, Op::Modulo, Op::Qeq, Op::DigitSum, Op::DigitSum, Op::Increment, Op::Roll, Op::DigitSum, Op::DigitSum, Op::LenSum, Op::DigitSum, Op::Funkcia, Op::Increment, Op::DigitSum, Op::DigitSum, Op::Modulo, Op::Qeq, Op::DigitSum, Op::DigitSum, Op::LenSum, Op::DigitSum, Op::Funkcia, Op::Universal, Op::DigitSum, Op::Pop]
}

/// A program that duplicates the top of the stack.
pub open spec fn pattern_dup1_trochu_jina() -> Seq<Op> {
    seq![Op::DigitSum, Op::DigitSum, Op::LenSum, Op::DigitSum, Op::Funkcia, Op::Increment, Op::Increment, Op::Median, Op::DigitSum, Op::DigitSum, Op::LenSum, Op::DigitSum, Op::Funkcia, Op::DigitSum, Op::Increment, Op::DigitSum, Op::Qeq, Op::Universal, Op::DigitSum, Op::DigitSum, Op::LenSum, Op::DigitSum, Op::Funkcia, Op::Increment, Op::Bitshift, Op::DigitSum, Op::DigitSum, Op::LenSum, Op::DigitSum, Op::Funkcia, Op::Increment, Op::Increment, Op::Median, Op::DigitSum, Op::DigitSum, Op::LenSum, Op::DigitSum, Op::Funkcia, Op::DigitSum, Op::Increment, Op::DigitSum, Op::Qeq, Op::Universal, Op::DigitSum, Op::DigitSum, Op::LenSum, Op::DigitSum, Op::Funkcia, Op::Increment, Op::Bitshift, Op::Pop2, Op::DigitSum, Op::DigitSum, Op::LenSum, Op::DigitSum, Op::Funkcia, Op::Increment, Op::Increment, Op::DigitSum, Op::Increment, Op::Increment, Op::Roll, Op::Median, Op::DigitSum, Op::DigitSum, Op::LenSum, Op::DigitSum, Op::Funkcia, Op::Increment, Op::DigitSum, Op::DigitSum, Op::Funkcia, Op::Qeq, Op::DigitSum, Op::DigitSum, Op::LenSum, Op::DigitSum, Op::Funkcia, Op::Increment, Op::Bitshift, Op::Pop2, Op::DigitSum, Op::DigitSum, Op::LenSum, Op::DigitSum, Op::Funkcia, Op::Universal, Op::Increment, Op::Increment, Op::Increment, Op::DigitSum, Op::DigitSum, Op::DigitSum, Op::DigitSum, Op::LenSum, Op::DigitSum, Op::Funkcia, Op::DigitSum, Op::Increment, Op::DigitSum, Op::Qeq, Op::Universal, Op::DigitSum, Op::Increment, Op::DigitSum, Op::LenSum, Op::DigitSum, Op::Increment, Op::Increment, Op::Roll, Op::DigitSum, Op::Funkcia, Op::Universal, Op::DigitSum, Op::DigitSum, Op::LenSum, Op::DigitSum, Op::Funkcia, Op::Increment, Op::DigitSum, Op::Increment, Op::Increment, Op::Roll, Op::DigitSum, Op::DigitSum, Op::LenSum, Op::DigitSum, Op::Funkcia, Op::DigitSum, Op::Increment, Op::DigitSum, Op::Qeq, Op::Universal, Op::DigitSum, Op::DigitSum, Op::Funkcia, Op::Universal]
}

/// The instructions of `pattern_dup1_trochu_jina`.
pub fn cheat_dup1_trochu_jina() -> (v: Vec<Op>)
    ensures
        v@ == pattern_dup1_trochu_jina(),
{
    vec![Op::DigitSum, Op::DigitSum, Op::LenSum, Op::DigitSum, Op::Funkcia, Op::Increment, Op::Increment, Op::Median, Op::DigitSum, Op::DigitSum, Op::LenSum, Op::DigitSum, Op::Funkcia, Op::DigitSum, Op::Increment, Op::DigitSum, Op::Qeq, Op::Universal, Op::DigitSum, Op::DigitSum, Op::LenSum, Op::DigitSum, Op::Funkcia, Op::Increment, Op::Bitshift, Op::DigitSum, Op::DigitSum, Op::LenSum, Op::DigitSum, Op::Funkcia, Op::Increment, Op::Increment, Op::Median, Op::DigitSum, Op::DigitSum, Op::LenSum, Op::DigitSum, Op::Funkcia, Op::DigitSum, Op::Increment, Op::DigitSum, Op::Qeq, Op::Universal, Op::DigitSum, Op::DigitSum, Op::LenSum, Op::DigitSum, Op::Funkcia, Op::Increment, Op::Bitshift, Op::Pop2, Op::DigitSum, Op::DigitSum, Op::LenSum, Op::DigitSum, Op::Funkcia, Op::Increment, Op::Increment, Op::DigitSum, Op::Increment, Op::Increment, Op::Roll, Op::Median, Op::DigitSum, Op::DigitSum, Op::LenSum, Op::DigitSum, Op::Funkcia, Op::Increment, Op::DigitSum, Op::DigitSum, Op::Funkcia, Op::Qeq, Op::DigitSum, Op::DigitSum, Op::LenSum, Op::DigitSum, Op::Funkcia, Op::Increment, Op::Bitshift, Op::Pop2, Op::DigitSum, Op::DigitSum, Op::LenSum, Op::DigitSum, Op::Funkcia, Op::Universal, Op::Increment, Op::Increment, Op::Increment, Op::DigitSum, Op::DigitSum, Op::DigitSum, Op::DigitSum, Op::LenSum, Op::DigitSum, Op::Funkcia, Op::DigitSum, Op::Increment, Op::DigitSum, Op::Qeq, Op::Universal, Op::DigitSum, Op::Increment, Op::DigitSum, Op::LenSum, Op::DigitSum, Op::Increment, Op::Increment, Op::Roll, Op::DigitSum, Op::Funkcia, Op::Universal, Op::DigitSum, Op::DigitSum, Op::LenSum, Op::DigitSum, Op::Funkcia, Op::Increment, Op::DigitSum, Op::Increment, Op::Increment, Op::Roll, Op::DigitSum, Op::DigitSum, Op::LenSum, Op::DigitSum, Op::Funkcia, Op::DigitSum, Op::Increment, Op::DigitSum, Op::Qeq, Op::Universal, Op::DigitSum, Op::DigitSum, Op::Funkcia, Op::Universal]
}

/// A program that duplicates the top of the stack.
pub open spec fn pattern_vzorakova_dup() -> Seq<Op> {
    seq![Op::DigitSum, Op::DigitSum, Op::LenSum, Op::Increment, Op::DigitSum, Op::LenSum, Op::Median, Op::DigitSum, Op::DigitSum, Op::LenSum, Op::DigitSum, Op::Funkcia, Op::DigitSum, Op::Increment, Op::DigitSum, Op::Qeq, Op::Universal, Op::DigitSum, Op::DigitSum, Op::LenSum, Op::DigitSum, Op::Funkcia, Op::Increment, Op::Bitshift, Op::DigitSum, Op::DigitSum, Op::LenSum, Op::Increment, Op::DigitSum, Op::LenSum, Op::Median, Op::DigitSum, Op::DigitSum, Op::LenSum, Op::DigitSum, Op::Funkcia, Op::DigitSum, Op::Increment, Op::DigitSum, Op::Qeq, Op::Universal, Op::DigitSum, Op::DigitSum, Op::LenSum, Op::DigitSum, Op::Funkcia, Op::Increment, Op::Bitshift, Op::Pop2, Op::DigitSum, Op::DigitSum, Op::LenSum, Op::Increment, Op::DigitSum, Op::LenSum, Op::DigitSum, Op::Increment, Op::Increment, Op::Roll, Op::Median, Op::DigitSum, Op::DigitSum, Op::LenSum, Op::DigitSum, Op::Funkcia, Op::Increment, Op::DigitSum, Op::DigitSum, Op::Funkcia, Op::Qeq, Op::DigitSum, Op::DigitSum, Op::LenSum, Op::DigitSum, Op::Funkcia, Op::Increment, Op::Bitshift, Op::Pop2, Op::DigitSum, Op::DigitSum, Op::LenSum, Op::DigitSum, Op::Funkcia, Op::Universal, Op::Increment, Op::Increment, Op::Increment, Op::DigitSum, Op::DigitSum, Op::DigitSum, Op::DigitSum, Op::LenSum, Op::DigitSum, Op::Funkcia, Op::DigitSum, Op::Increment, Op::DigitSum, Op::Qeq, Op::Universal, Op::DigitSum, Op::Increment, Op::DigitSum, Op::LenSum, Op::DigitSum, Op::Increment, Op::Increment, Op::Roll, Op::DigitSum, Op::Funkcia, Op::Universal, Op::DigitSum, Op::DigitSum, Op::LenSum, Op::DigitSum, Op::Funkcia, Op::Increment, Op::DigitSum, Op::Increment, Op::Increment, Op::Roll, Op::DigitSum, Op::DigitSum, Op::LenSum, Op::DigitSum, Op::Funkcia, Op::DigitSum, Op::Increment, Op::DigitSum, Op::Qeq, Op::Universal, Op::DigitSum, Op::DigitSum, Op::Funkcia, Op::Universal]
}

/// The instructions of `pattern_vzorakova_dup`.
pub fn cheat_vzorakova_dup() -> (v: Vec<Op>)
    ensures
        v@ == pattern_vzorakova_dup(),
{
    vec![Op::DigitSum, Op::DigitSum, Op::LenSum, Op::Increment, Op::DigitSum, Op::LenSum, Op::Median, Op::DigitSum, Op::DigitSum, Op::LenSum, Op::DigitSum, Op::Funkcia, Op::DigitSum, Op::Increment, Op::DigitSum, Op::Qeq, Op::Universal, Op::DigitSum, Op::DigitSum, Op::LenSum, Op::DigitSum, Op::Funkcia, Op::Increment, Op::Bitshift, Op::DigitSum, Op::DigitSum, Op::LenSum, Op::Increment, Op::DigitSum, Op::LenSum, Op::Median, Op::DigitSum, Op::DigitSum, Op::LenSum, Op::DigitSum, Op::Funkcia, Op::DigitSum, Op::Increment, Op::DigitSum, Op::Qeq, Op::Universal, Op::DigitSum, Op::DigitSum, Op::LenSum, Op::DigitSum, Op::Funkcia, Op::Increment, Op::Bitshift, Op::Pop2, Op::DigitSum, Op::DigitSum, Op::LenSum, Op::Increment, Op::DigitSum, Op::LenSum, Op::DigitSum, Op::Increment, Op::Increment, Op::Roll, Op::Median, Op::DigitSum, Op::DigitSum, Op::LenSum, Op::DigitSum, Op::Funkcia, Op::Increment, Op::DigitSum, Op::DigitSum, Op::Funkcia, Op::Qeq, Op::DigitSum, Op::DigitSum, Op::LenSum, Op::DigitSum, Op::Funkcia, Op::Increment, Op::Bitshift, Op::Pop2, Op::DigitSum, Op::DigitSum, Op::LenSum, Op::DigitSum, Op::Funkcia, Op::Universal, Op::Increment, Op::Increment, Op::Increment, Op::DigitSum, Op::DigitSum, Op::DigitSum, Op::DigitSum, Op::LenSum, Op::DigitSum, Op::Funkcia, Op::DigitSum, Op::Increment, Op::DigitSum, Op::Qeq, Op::Universal, Op::DigitSum, Op::Increment, Op::DigitSum, Op::LenSum, Op::DigitSum, Op::Increment, Op::Increment, Op::Roll, Op::DigitSum, Op::Funkcia, Op::Universal, Op::DigitSum, Op::DigitSum, Op::LenSum, Op::DigitSum, Op::Funkcia, Op::Increment, Op::DigitSum, Op::Increment, Op::Increment, Op::Roll, Op::DigitSum, Op::DigitSum, Op::LenSum, Op::DigitSum, Op::Funkcia, Op::DigitSum, Op::Increment, Op::DigitSum, Op::Qeq, Op::Universal, Op::DigitSum, Op::DigitSum, Op::Funkcia, Op::Universal]
}

/// A program that duplicates the top of the stack.
pub open spec fn pattern_erikova_dup() -> Seq<Op> {
    seq![Op::DigitSum, Op::DigitSum, Op::LenSum, Op::DigitSum, Op::Funkcia, Op::DigitSum, Op::Increment, Op::Increment, Op::Increment, Op::Median, Op::DigitSum, Op::DigitSum, Op::Increment, Op::Gcd2, Op::Increment, Op::Max, Op::DigitSum, Op::DigitSum, Op::Remainder, Op::Qeq, Op::DigitSum, Op::DigitSum, Op::DigitSum, Op::Increment, Op::Increment, Op::Qeq, Op::Pop2, Op::DigitSum, Op::DigitSum, Op::Increment, Op::Gcd2, Op::DigitSum, Op::DigitSum, Op::DigitSum, Op::DigitSum, Op::Bitshift, Op::Bitshift, Op::DigitSum, Op::Bitshift, Op::DigitSum, Op::DigitSum, Op::Pop2, Op::Universal, Op::Bitshift, Op::DigitSum, Op::DigitSum, Op::Gcd2, Op::DigitSum, Op::Increment, Op::Roll, Op::DigitSum, Op::Universal, Op::DigitSum, Op::DigitSum, Op::Increment, Op::Gcd2, Op::Increment, Op::Increment, Op::Median, Op::Pop2, Op::Pop2]
}

/// The instructions of `pattern_erikova_dup`.
pub fn cheat_erikova_dup() -> (v: Vec<Op>)
    ensures
        v@ == pattern_erikova_dup(),
{
    vec![Op::DigitSum, Op::DigitSum, Op::LenSum, Op::DigitSum, Op::Funkcia, Op::DigitSum, Op::Increment, Op::Increment, Op::Increment, Op::Median, Op::DigitSum, Op::DigitSum, Op::Increment, Op::Gcd2, Op::Increment, Op::Max, Op::DigitSum, Op::DigitSum, Op::Remainder, Op::Qeq, Op::DigitSum, Op::DigitSum, Op::DigitSum, Op::Increment, Op::Increment, Op::Qeq, Op::Pop2, Op::DigitSum, Op::DigitSum, Op::Increment, Op::Gcd2, Op::DigitSum, Op::DigitSum, Op::DigitSum, Op::DigitSum, Op::Bitshift, Op::Bitshift, Op::DigitSum, Op::Bitshift, Op::DigitSum, Op::DigitSum, Op::Pop2, Op::Universal, Op::Bitshift, Op::DigitSum, Op::DigitSum, Op::Gcd2, Op::DigitSum, Op::Increment, Op::Roll, Op::DigitSum, Op::Universal, Op::DigitSum, Op::DigitSum, Op::Increment, Op::Gcd2, Op::Increment, Op::Increment, Op::Median, Op::Pop2, Op::Pop2]
}

/// A program that duplicates the top of the stack, running one more instruction when the value is below 3.
pub open spec fn pattern_sejselova_dup() -> Seq<Op> {
    seq![Op::DigitSum, Op::DigitSum, Op::LenSum, Op::DigitSum, Op::Funkcia, Op::DigitSum, Op::Increment, Op::Increment, Op::Increment, Op::Median, Op::DigitSum, Op::DigitSum, Op::Increment, Op::Gcd2, Op::Increment, Op::Max, Op::DigitSum, Op::DigitSum, Op::Modulo, Op::Qeq, Op::DigitSum, Op::DigitSum, Op::DigitSum, Op::Increment, Op::Increment, Op::Qeq, Op::Pop2, Op::DigitSum, Op::Jump, Op::Increment, Op::DigitSum, Op::Praise, Op::Qeq, Op::Qeq, Op::Pop2, Op::Funkcia, Op::Funkcia, Op::Increment, Op::Modulo, Op::Bitshift, Op::DigitSum, Op::DigitSum, Op::Gcd2, Op::DigitSum, Op::Increment, Op::Roll, Op::DigitSum, Op::Universal, Op::DigitSum, Op::DigitSum, Op::Pop2, Op::DigitSum, Op::LenSum, Op::Median, Op::Pop2, Op::Pop2]
}

/// The instructions of `pattern_sejselova_dup`.
pub fn cheat_sejselova_dup() -> (v: Vec<Op>)
    ensures
        v@ == pattern_sejselova_dup(),
{
    vec![Op::DigitSum, Op::DigitSum, Op::LenSum, Op::DigitSum, Op::Funkcia, Op::DigitSum, Op::Increment, Op::Increment, Op::Increment, Op::Median, Op::DigitSum, Op::DigitSum, Op::Increment, Op::Gcd2, Op::Increment, Op::Max, Op::DigitSum, Op::DigitSum, Op::Modulo, Op::Qeq, Op::DigitSum, Op::DigitSum, Op::DigitSum, Op::Increment, Op::Increment, Op::Qeq, Op::Pop2, Op::DigitSum, Op::Jump, Op::Increment, Op::DigitSum, Op::Praise, Op::Qeq, Op::Qeq, Op::Pop2, Op::Funkcia, Op::Funkcia, Op::Increment, Op::Modulo, Op::Bitshift, Op::DigitSum, Op::DigitSum, Op::Gcd2, Op::DigitSum, Op::Increment, Op::Roll, Op::DigitSum, Op::Universal, Op::DigitSum, Op::DigitSum, Op::Pop2, Op::DigitSum, Op::LenSum, Op::Median, Op::Pop2, Op::Pop2]
}

/// A program that duplicates the top of the stack.
pub open spec fn pattern_sejselova2_dup() -> Seq<Op> {
    seq![Op::DigitSum, Op::DigitSum, Op::LenSum, Op::DigitSum, Op::Funkcia, Op::DigitSum, Op::Increment, Op::Increment, Op::Increment, Op::Median, Op::DigitSum, Op::DigitSum, Op::Increment, Op::Gcd2, Op::Increment, Op::Max, Op::DigitSum, Op::DigitSum, Op::Modulo, Op::Qeq, Op::DigitSum, Op::DigitSum, Op::DigitSum, Op::Increment, Op::Increment, Op::Qeq, Op::Pop2, Op::DigitSum, Op::DigitSum, Op::TetrationItersNum, Op::DigitSum, Op::Praise, Op::Qeq, Op::Qeq, Op::Pop2, Op::Funkcia, Op::Funkcia, Op::Increment, Op::Modulo, Op::Bitshift, Op::DigitSum, Op::DigitSum, Op::Gcd2, Op::DigitSum, Op::Increment, Op::Roll, Op::DigitSum, Op::Universal, Op::DigitSum, Op::DigitSum, Op::Pop2, Op::DigitSum, Op::LenSum, Op::Median, Op::Pop2, Op::Pop2]
}

/// The instructions of `pattern_sejselova2_dup`.
pub fn cheat_sejselova2_dup() -> (v: Vec<Op>)
    ensures
        v@ == pattern_sejselova2_dup(),
{
    vec![Op::DigitSum, Op::DigitSum, Op::LenSum, Op::DigitSum, Op::Funkcia, Op::DigitSum, Op::Increment, Op::Increment, Op::Increment, Op::Median, Op::DigitSum, Op::DigitSum, Op::Increment, Op::Gcd2, Op::Increment, Op::Max, Op::DigitSum, Op::DigitSum, Op::Modulo, Op::Qeq, Op::DigitSum, Op::DigitSum, Op::DigitSum, Op::Increment, Op::Increment, Op::Qeq, Op::Pop2, Op::DigitSum, Op::DigitSum, Op::TetrationItersNum, Op::DigitSum, Op::Praise, Op::Qeq, Op::Qeq, Op::Pop2, Op::Funkcia, Op::Funkcia, Op::Increment, Op::Modulo, Op::Bitshift, Op::DigitSum, Op::DigitSum, Op::Gcd2, Op::DigitSum, Op::Increment, Op::Roll, Op::DigitSum, Op::Universal, Op::DigitSum, Op::DigitSum, Op::Pop2, Op::DigitSum, Op::LenSum, Op::Median, Op::Pop2, Op::Pop2]
}

/// Pushes `i64::MAX`.
pub open spec fn pattern_push_max() -> Seq<Op> {
    seq![Op::DigitSum, Op::DigitSum, Op::LenSum, Op::DigitSum, Op::Funkcia, Op::Increment, Op::Praise, Op::Qeq, Op::Pop2, Op::Pop2, Op::Funkcia, Op::Increment, Op::Bitshift, Op::Pop2, Op::Pop2, Op::Pop2, Op::Increment, Op::DigitSum, Op::DigitSum, Op::LenSum, Op::DigitSum, Op::Funkcia, Op::Increment, Op::DigitSum, Op::DigitSum, Op::Modulo, Op::Qeq]
}

/// The instructions of `pattern_push_max`.
fn cheat_push_max() -> (v: Vec<Op>)
    ensures
        v@ == pattern_push_max(),
{
    vec![Op::DigitSum, Op::DigitSum, Op::LenSum, Op::DigitSum, Op::Funkcia, Op::Increment, Op::Praise, Op::Qeq, Op::Pop2, Op::Pop2, Op::Funkcia, Op::Increment, Op::Bitshift, Op::Pop2, Op::Pop2, Op::Pop2, Op::Increment, Op::DigitSum, Op::DigitSum, Op::LenSum, Op::DigitSum, Op::Funkcia, Op::Increment, Op::DigitSum, Op::DigitSum, Op::Modulo, Op::Qeq]
}

/// Pushes `i64::MIN`.
pub open spec fn pattern_push_min() -> Seq<Op> {
    seq![Op::DigitSum, Op::DigitSum, Op::LenSum, Op::DigitSum, Op::Funkcia, Op::Increment, Op::Praise, Op::Qeq, Op::Pop2, Op::Pop2, Op::Funkcia, Op::Increment, Op::Bitshift, Op::Pop2, Op::Pop2, Op::Pop2]
}

/// The instructions of `pattern_push_min`.
fn cheat_push_min() -> (v: Vec<Op>)
    ensures
        v@ == pattern_push_min(),
{
    vec![Op::DigitSum, Op::DigitSum, Op::LenSum, Op::DigitSum, Op::Funkcia, Op::Increment, Op::Praise, Op::Qeq, Op::Pop2, Op::Pop2, Op::Funkcia, Op::Increment, Op::Bitshift, Op::Pop2, Op::Pop2, Op::Pop2]
}

/// Pushes `i64::MIN` under the top of the stack when the top is 0 or -1.
pub open spec fn pattern_min_swap() -> Seq<Op> {
    seq![Op::DigitSum, Op::DigitSum, Op::TetrationItersNum, Op::DigitSum, Op::Praise, Op::Qeq, Op::Qeq, Op::Pop2, Op::Funkcia, Op::Funkcia, Op::Increment, Op::Modulo, Op::Bitshift, Op::DigitSum, Op::DigitSum, Op::Gcd2, Op::DigitSum, Op::Increment, Op::Roll]
}

/// The instructions of `pattern_min_swap`.
fn cheat_min_swap() -> (v: Vec<Op>)
    ensures
        v@ == pattern_min_swap(),
{
    vec![Op::DigitSum, Op::DigitSum, Op::TetrationItersNum, Op::DigitSum, Op::Praise, Op::Qeq, Op::Qeq, Op::Pop2, Op::Funkcia, Op::Funkcia, Op::Increment, Op::Modulo, Op::Bitshift, Op::DigitSum, Op::DigitSum, Op::Gcd2, Op::DigitSum, Op::Increment, Op::Roll]
}

/// Pushes `i64::MIN` when the top of the stack is 0 or -1.
pub open spec fn pattern_min_if_small() -> Seq<Op> {
    seq![Op::DigitSum, Op::DigitSum, Op::TetrationItersNum, Op::DigitSum, Op::Praise, Op::Qeq, Op::Qeq, Op::Pop2, Op::Funkcia, Op::Funkcia, Op::Increment, Op::Modulo, Op::Bitshift]
}

/// The instructions of `pattern_min_if_small`.
fn cheat_min_if_small() -> (v: Vec<Op>)
    ensures
        v@ == pattern_min_if_small(),
{
    vec![Op::DigitSum, Op::DigitSum, Op::TetrationItersNum, Op::DigitSum, Op::Praise, Op::Qeq, Op::Qeq, Op::Pop2, Op::Funkcia, Op::Funkcia, Op::Increment, Op::Modulo, Op::Bitshift]
}


/// `p` is a prefix of `s`.
pub open spec fn has_prefix(s: Seq<Op>, p: Seq<Op>) -> bool {
    p.len() <= s.len() && s.take(p.len() as int) == p
}

/// Whether `s` starts with `p`.
pub fn starts_with(s: &[Op], p: &[Op]) -> (r: bool)
    ensures
        r == has_prefix(s@, p@),
{
    if p.len() > s.len() {
        return false;
    }
    let mut i: usize = 0;
    while i < p.len()
        invariant
            p@.len() <= s@.len(),
            i <= p@.len(),
            forall|j: int| 0 <= j < i ==> s@[j] == p@[j],
        decreases p@.len() - i,
    {
        if s[i] != p[i] {
            assert(s@.take(p@.len() as int)[i as int] == s@[i as int]);
            return false;
        }
        i += 1;
    }
    assert(s@.take(p@.len() as int) == p@);
    true
}

/// A recognized sequence, with what compiling it in one step does.
#[derive(Clone, Copy, Debug, PartialEq, Eq, Structural)]
pub enum Cheat {
    /// Push a constant; the sequence has this many instructions.
    PushConstant(i64, usize),
    /// Push `i64::MIN` under the top of the stack (nineteen instructions).
    PushMinSwapped,
    /// Duplicate the top: skip this many instructions, count that many executed.
    DupSimple(usize, usize),
    /// Duplicate the top as `DupSimple`; when the value is below 3 the run
    /// executes this many more instructions.
    DupWithBranch(usize, usize, i64),
    /// Negate the top bitwise: skip this many instructions; the run executes
    /// the first count when the value is `i64::MIN`, the second when it is
    /// otherwise below 3 and the third when it is 3 or more.
    Bitnot(usize, usize, usize, usize),
}

/// The top of the stack is known to lie in `-1..=0`.
pub open spec fn top_is_zero_or_minus_one(top: Option<(i64, i64)>) -> bool {
    top matches Some((s, e)) && s >= -1 && e <= 0
}

/// The sequence recognized at the start of `rem` (the instructions not yet
/// compiled), given the cheat mode (0 turns recognition off, 2 or more also
/// recognizes the long sequences) and the range of the value on top of the
/// stack, if any. The first sequence that matches wins.
pub open spec fn cheat_for(mode: u32, rem: Seq<Op>, top: Option<(i64, i64)>) -> Option<Cheat> {
    if mode == 0 {
        None
    } else if mode >= 2 && has_prefix(rem, pattern_bitnot1()) {
        Some(Cheat::Bitnot(284, 235, 238, 236))
    } else if mode >= 2 && has_prefix(rem, pattern_bitnot2()) {
        Some(Cheat::Bitnot(284, 235, 238, 238))
    } else if mode >= 2 && has_prefix(rem, pattern_dup1_trochu_jina()) {
        Some(Cheat::DupSimple(137, 137))
    } else if mode >= 2 && has_prefix(rem, pattern_vzorakova_dup()) {
        Some(Cheat::DupSimple(134, 134))
    } else if mode >= 2 && has_prefix(rem, pattern_erikova_dup()) {
        Some(Cheat::DupSimple(61, 61))
    } else if mode >= 2 && has_prefix(rem, pattern_sejselova_dup()) {
        Some(Cheat::DupWithBranch(56, 55, 1))
    } else if mode >= 2 && has_prefix(rem, pattern_sejselova2_dup()) {
        Some(Cheat::DupSimple(56, 56))
    } else if has_prefix(rem, pattern_push_max()) {
        Some(Cheat::PushConstant(i64::MAX, 27))
    } else if has_prefix(rem, pattern_push_min()) {
        Some(Cheat::PushConstant(i64::MIN, 16))
    } else if rem == seq![Op::DigitSum, Op::DigitSum, Op::LenSum, Op::Increment, Op::DigitSum, Op::DigitSum, Op::DigitSum, Op::Modulo, Op::Qeq]
        || rem == seq![Op::DigitSum, Op::DigitSum, Op::LenSum, Op::Increment, Op::DigitSum, Op::DigitSum, Op::DigitSum, Op::Remainder, Op::Qeq] {
        Some(Cheat::PushConstant(-1i64, 9))
    } else if has_prefix(rem, seq![Op::DigitSum, Op::DigitSum, Op::LenSum, Op::DigitSum, Op::Funkcia]) {
        Some(Cheat::PushConstant(0, 5))
    } else if has_prefix(rem, seq![Op::DigitSum, Op::DigitSum, Op::LenSum, Op::Increment, Op::DigitSum, Op::Remainder])
        || has_prefix(rem, seq![Op::DigitSum, Op::DigitSum, Op::LenSum, Op::Increment, Op::DigitSum, Op::Modulo]) {
        Some(Cheat::PushConstant(0, 6))
    } else if has_prefix(rem, seq![Op::DigitSum, Op::DigitSum, Op::LenSum, Op::Increment, Op::DigitSum, Op::LenSum])
        || has_prefix(rem, seq![Op::DigitSum, Op::DigitSum, Op::Increment, Op::LenSum, Op::DigitSum, Op::LenSum]) {
        Some(Cheat::PushConstant(2, 6))
    } else if has_prefix(rem, pattern_min_swap()) && top_is_zero_or_minus_one(top) {
        Some(Cheat::PushMinSwapped)
    } else if has_prefix(rem, pattern_min_if_small()) && top_is_zero_or_minus_one(top) {
        Some(Cheat::PushConstant(i64::MIN, 13))
    } else {
        None
    }
}

/// Recognizes the sequence at the start of `rem`, as `cheat_for` describes.
pub fn choose_cheat(mode: u32, rem: &[Op], top: Option<(i64, i64)>) -> (r: Option<Cheat>)
    ensures
        r == cheat_for(mode, rem@, top),
{
    if mode == 0 {
        return None;
    }
    if mode >= 2 {
        if starts_with(rem, cheat_bitnot1().as_slice()) {
            return Some(Cheat::Bitnot(284, 235, 238, 236));
        }
        if starts_with(rem, cheat_bitnot2().as_slice()) {
            return Some(Cheat::Bitnot(284, 235, 238, 238));
        }
        if starts_with(rem, cheat_dup1_trochu_jina().as_slice()) {
            return Some(Cheat::DupSimple(137, 137));
        }
        if starts_with(rem, cheat_vzorakova_dup().as_slice()) {
            return Some(Cheat::DupSimple(134, 134));
        }
        if starts_with(rem, cheat_erikova_dup().as_slice()) {
            return Some(Cheat::DupSimple(61, 61));
        }
        if starts_with(rem, cheat_sejselova_dup().as_slice()) {
            return Some(Cheat::DupWithBranch(56, 55, 1));
        }
        if starts_with(rem, cheat_sejselova2_dup().as_slice()) {
            return Some(Cheat::DupSimple(56, 56));
        }
    }
    if starts_with(rem, cheat_push_max().as_slice()) {
        return Some(Cheat::PushConstant(i64::MAX, 27));
    }
    if starts_with(rem, cheat_push_min().as_slice()) {
        return Some(Cheat::PushConstant(i64::MIN, 16));
    }
    let minus_one_a = vec![Op::DigitSum, Op::DigitSum, Op::LenSum, Op::Increment, Op::DigitSum, Op::DigitSum, Op::DigitSum, Op::Modulo, Op::Qeq];
    let minus_one_b = vec![Op::DigitSum, Op::DigitSum, Op::LenSum, Op::Increment, Op::DigitSum, Op::DigitSum, Op::DigitSum, Op::Remainder, Op::Qeq];
    if (rem.len() == 9 && starts_with(rem, minus_one_a.as_slice())) || (rem.len() == 9 && starts_with(rem, minus_one_b.as_slice())) {
        proof {
            assert(rem@.take(9) == rem@);
        }
        return Some(Cheat::PushConstant(-1, 9));
    }
    proof {
        if rem@ == minus_one_a@ || rem@ == minus_one_b@ {
            assert(rem@.take(9) == rem@);
        }
    }
    if starts_with(rem, vec![Op::DigitSum, Op::DigitSum, Op::LenSum, Op::DigitSum, Op::Funkcia].as_slice()) {
        return Some(Cheat::PushConstant(0, 5));
    }
    if starts_with(rem, vec![Op::DigitSum, Op::DigitSum, Op::LenSum, Op::Increment, Op::DigitSum, Op::Remainder].as_slice())
        || starts_with(rem, vec![Op::DigitSum, Op::DigitSum, Op::LenSum, Op::Increment, Op::DigitSum, Op::Modulo].as_slice()) {
        return Some(Cheat::PushConstant(0, 6));
    }
    if starts_with(rem, vec![Op::DigitSum, Op::DigitSum, Op::LenSum, Op::Increment, Op::DigitSum, Op::LenSum].as_slice())
        || starts_with(rem, vec![Op::DigitSum, Op::DigitSum, Op::Increment, Op::LenSum, Op::DigitSum, Op::LenSum].as_slice()) {
        return Some(Cheat::PushConstant(2, 6));
    }
    let small = match top {
        Some((s, e)) => s >= -1 && e <= 0,
        None => false,
    };
    if starts_with(rem, cheat_min_swap().as_slice()) && small {
        return Some(Cheat::PushMinSwapped);
    }
    if starts_with(rem, cheat_min_if_small().as_slice()) && small {
        return Some(Cheat::PushConstant(i64::MIN, 13));
    }
    None
}


/// Settings of the precompiler.
pub struct PrecompilerConf {
    /// 0 turns recognition of sequences off; 2 or more also recognizes the long ones.
    pub cheat_mode: u32,
}

/// What the precompiler does after a step.
#[derive(Clone, Copy, Debug, PartialEq, Eq, Structural)]
pub enum PrecompileStepResult {
    Continue,
}

/// The precompiler: the program, the position of the next instruction to
/// compile, the number of instructions compiled, and the graph being built.
pub struct Precompiler {
    pub ops: Vec<Op>,
    pub position: usize,
    pub step_count: usize,
    pub conf: PrecompilerConf,
    pub g: GraphBuilder,
}

impl Precompiler {
    /// Count of executed instructions kept in the current block.
    pub open spec fn count(&self) -> int {
        self.g.blocks@[self.g.cur()].ksplang_instr_count as int
    }

    /// The instructions of the current block.
    pub open spec fn instrs(&self) -> Seq<OptInstr> {
        self.g.blocks@[self.g.cur()].instructions@
    }

    /// The graph is well formed, and there is room for what one step adds.
    pub open spec fn ready(&self) -> bool {
        &&& self.g.wf()
        &&& self.g.inputs_defined()
        &&& self.g.stack_defined()
        &&& self.g.has_current()
        &&& self.position <= self.ops@.len()
        &&& self.g.values@.len() + 16 <= u32::MAX
        &&& self.instrs().len() + 8 <= u32::MAX
        &&& self.count() + 300 <= u32::MAX
        &&& self.step_count + 300 <= usize::MAX
    }

    /// The range of the value on top of the abstract stack, if there is one.
    pub open spec fn top_range(&self) -> Option<(i64, i64)> {
        if self.g.stack@.len() == 0 {
            None
        } else {
            let r = self.g.values@[self.g.stack@.last().0 as int].range;
            Some((r@.start, r@.end))
        }
    }
}

/// What stays the same over a step: the program, the settings, the other
/// blocks and the shape of the current one, and the values known before.
pub open spec fn frame(o: Precompiler, n: Precompiler) -> bool {
    &&& n.ops@ == o.ops@
    &&& n.conf == o.conf
    &&& n.g.wf()
    &&& n.g.inputs_defined()
    &&& n.g.stack_defined()
    &&& n.g.current_block == o.g.current_block
    &&& n.g.blocks@.len() == o.g.blocks@.len()
    &&& forall|i: int| 0 <= i < o.g.n() && i != o.g.cur() ==> n.g.blocks@[i] == o.g.blocks@[i]
    &&& n.g.blocks@[o.g.cur()].id == o.g.blocks@[o.g.cur()].id
    &&& n.g.blocks@[o.g.cur()].incoming_jumps == o.g.blocks@[o.g.cur()].incoming_jumps
    &&& n.g.blocks@[o.g.cur()].outgoing_jumps == o.g.blocks@[o.g.cur()].outgoing_jumps
    &&& n.g.values@.len() >= o.g.values@.len()
    &&& forall|i: int| 0 <= i < o.g.values@.len() ==> n.g.values@[i] == o.g.values@[i]
    &&& n.instrs().take(o.instrs().len() as int) == o.instrs()
}

/// The instruction counts `k` more executed instructions when `c` holds.
pub open spec fn counts_when(g: GraphBuilder, i: OptInstr, c: Condition<ValueId>, k: int) -> bool {
    &&& i.op == OptOp::KsplangOpsIncrement(c)
    &&& i.inputs@.len() == 1
    &&& is_irange(g.values@[i.inputs@[0].0 as int].range, k, k)
}

/// The counting instruction that `move_instr_cond(c, k)` adds, if any: a
/// negative count is moved from the block's own count to the negated condition.
pub open spec fn cond_increment(c: Condition<ValueId>, k: int) -> Option<(Condition<ValueId>, int)> {
    if k == 0 || c == Condition::<ValueId>::False {
        None
    } else if k > 0 {
        Some((c, k))
    } else if c.negated() == Condition::<ValueId>::False {
        None
    } else {
        Some((c.negated(), -k))
    }
}

/// The change of the block's own count by `move_instr_cond(c, k)`.
pub open spec fn cond_count_delta(c: Condition<ValueId>, k: int) -> int {
    if k < 0 && c != Condition::<ValueId>::False { k } else { 0 }
}

/// Number of values `move_instr_cond(c, k)` adds (a constant and an output).
pub open spec fn cond_new_values(c: Condition<ValueId>, k: int) -> int {
    if cond_increment(c, k) is Some { 2 } else { 0 }
}

/// `n` is `o` after `move_instr_cond(c, k)`, the current block then having
/// `base` instructions before the ones added.
pub open spec fn cond_moved(o: Precompiler, n: Precompiler, c: Condition<ValueId>, k: int) -> bool {
    &&& frame(o, n)
    &&& n.position == o.position
    &&& n.step_count == o.step_count
    &&& n.g.stack@ == o.g.stack@
    &&& n.count() == o.count() + cond_count_delta(c, k)
    &&& n.g.values@.len() == o.g.values@.len() + cond_new_values(c, k)
    &&& match cond_increment(c, k) {
        None => n.instrs() == o.instrs(),
        Some((c2, k2)) => n.instrs().len() == o.instrs().len() + 1 && counts_when(n.g, n.instrs().last(), c2, k2),
    }
}

/// Moves the position past `skip_len - 1` more instructions and counts
/// `instrs - 1` more executed ones (the caller's step accounts for one).
fn move_pos(p: &mut Precompiler, skip_len: usize, instrs: usize)
    requires
        old(p).g.wf(),
        old(p).g.has_current(),
        skip_len >= 1,
        instrs >= 1,
        old(p).position + skip_len - 1 <= usize::MAX,
        old(p).step_count + instrs - 1 <= usize::MAX,
        old(p).count() + instrs - 1 <= u32::MAX,
    ensures
        final(p).position == old(p).position + skip_len - 1,
        final(p).step_count == old(p).step_count + instrs - 1,
        final(p).count() == old(p).count() + instrs - 1,
        final(p).ops == old(p).ops,
        final(p).conf == old(p).conf,
        final(p).g.wf(),
        old(p).g.inputs_defined() ==> final(p).g.inputs_defined(),
        final(p).g.values == old(p).g.values,
        final(p).g.stack == old(p).g.stack,
        final(p).g.current_block == old(p).g.current_block,
        final(p).g.blocks@.len() == old(p).g.blocks@.len(),
        forall|i: int| 0 <= i < old(p).g.n() && i != old(p).g.cur() ==> final(p).g.blocks@[i] == old(p).g.blocks@[i],
        final(p).g.blocks@[old(p).g.cur()].id == old(p).g.blocks@[old(p).g.cur()].id,
        final(p).g.blocks@[old(p).g.cur()].incoming_jumps == old(p).g.blocks@[old(p).g.cur()].incoming_jumps,
        final(p).g.blocks@[old(p).g.cur()].outgoing_jumps == old(p).g.blocks@[old(p).g.cur()].outgoing_jumps,
        final(p).g.blocks@[old(p).g.cur()].instructions == old(p).g.blocks@[old(p).g.cur()].instructions,
{
    p.position += skip_len - 1;
    let cur = p.g.current_block.0 as usize;
    p.g.blocks[cur].ksplang_instr_count += (instrs - 1) as u32;
    p.step_count += instrs - 1;
    proof {
        assert forall|i: int| 0 <= i < p.g.blocks@.len() implies #[trigger] p.g.blocks@[i].id == BlockId(i as u32) by {
            if i != cur {
                assert(p.g.blocks@[i] == old(p).g.blocks@[i]);
            }
        }
        assert forall|i: int, k: int| 0 <= i < p.g.blocks@.len() && 0 <= k < p.g.blocks@[i].outgoing_jumps@.len()
            implies (#[trigger] p.g.blocks@[i].outgoing_jumps@[k]).1.0 < p.g.blocks@.len() by {
            assert(p.g.blocks@[i].outgoing_jumps == old(p).g.blocks@[i].outgoing_jumps);
        }
        assert forall|i: int, k: int| 0 <= i < p.g.blocks@.len() && 0 <= k < p.g.blocks@[i].incoming_jumps@.len()
            implies (#[trigger] p.g.blocks@[i].incoming_jumps@[k]).0.0 < p.g.blocks@.len() by {
            assert(p.g.blocks@[i].incoming_jumps == old(p).g.blocks@[i].incoming_jumps);
        }
        if old(p).g.inputs_defined() {
            assert forall|i: int, j: int, k: int|
                0 <= i < p.g.blocks@.len() && 0 <= j < p.g.blocks@[i].instructions@.len()
                && 0 <= k < p.g.blocks@[i].instructions@[j].inputs@.len()
                implies (#[trigger] p.g.blocks@[i].instructions@[j].inputs@[k]).0 < p.g.values@.len() by {
                if i != cur {
                    assert(p.g.blocks@[i] == old(p).g.blocks@[i]);
                } else {
                    assert(p.g.blocks@[i].instructions == old(p).g.blocks@[i].instructions);
                    assert(old(p).g.blocks@[i].instructions@[j].inputs@[k] == p.g.blocks@[i].instructions@[j].inputs@[k]);
                }
            }
        }
    }
}


/// Makes the run count `instr` more executed instructions when `cond` holds.
/// A negative number is taken from the block's own count and added back when
/// the condition does not hold.
fn move_instr_cond(p: &mut Precompiler, cond: Condition<ValueId>, instr: i64)
    requires
        old(p).g.wf(),
        old(p).g.inputs_defined(),
        old(p).g.stack_defined(),
        old(p).g.has_current(),
        old(p).g.values@.len() + 2 <= u32::MAX,
        old(p).instrs().len() + 1 < u32::MAX,
        instr > i64::MIN,
        instr < 0 && cond != Condition::<ValueId>::False ==> old(p).count() >= -instr,
    ensures
        cond_moved(*old(p), *final(p), cond, instr as int),
    decreases if instr < 0 { 1int } else { 0int },
{
    if instr == 0 || cond == Condition::False {
        assert(final(p).instrs().take(old(p).instrs().len() as int) == old(p).instrs());
        return;
    }
    if instr < 0 {
        let cur = p.g.current_block.0 as usize;
        p.g.blocks[cur].ksplang_instr_count -= (-instr) as u32;
        assert(p.g.wf());
        assert(p.g.inputs_defined()) by {
            assert forall|i: int, j: int, k: int|
                0 <= i < p.g.blocks@.len() && 0 <= j < p.g.blocks@[i].instructions@.len()
                && 0 <= k < p.g.blocks@[i].instructions@[j].inputs@.len()
                implies (#[trigger] p.g.blocks@[i].instructions@[j].inputs@[k]).0 < p.g.values@.len() by {
                if i != cur {
                    assert(p.g.blocks@[i] == old(p).g.blocks@[i]);
                } else {
                    assert(p.g.blocks@[i].instructions == old(p).g.blocks@[i].instructions);
                    assert(old(p).g.blocks@[i].instructions@[j].inputs@[k] == p.g.blocks@[i].instructions@[j].inputs@[k]);
                }
            }
        }
        proof {
            lemma_neg_not_false(cond);
        }
        move_instr_cond(p, cond.neg(), -instr);
        return;
    }
    let ghost o = *p;
    let c = p.g.store_constant(instr);
    assert(p.g.inputs_defined()) by {
        assert forall|i: int, j: int, k: int|
            0 <= i < p.g.blocks@.len() && 0 <= j < p.g.blocks@[i].instructions@.len()
            && 0 <= k < p.g.blocks@[i].instructions@[j].inputs@.len()
            implies (#[trigger] p.g.blocks@[i].instructions@[j].inputs@[k]).0 < p.g.values@.len() by {
            assert(p.g.blocks@[i] == o.g.blocks@[i]);
        }
    }
    let ghost mid = *p;
    let ins = [c];
    p.g.push_instr(OptOp::KsplangOpsIncrement(cond), &ins);
    assert(p.instrs().take(o.instrs().len() as int) == o.instrs());
    assert(p.g.values@[c.0 as int] == mid.g.values@[c.0 as int]);
}

/// `n` stands `skip - 1` instructions further in the program than `o` and has
/// counted `k - 1` more executed ones (the step that follows accounts for one
/// of each).
pub open spec fn advanced(o: Precompiler, n: Precompiler, skip: int, k: int) -> bool {
    &&& n.position == o.position + skip - 1
    &&& n.step_count == o.step_count + k - 1
    &&& n.count() == o.count() + k - 1
}

/// When the abstract stack of `o` was empty, the value that `n` created for
/// the unknown top of the program's stack has the full range.
pub open spec fn fresh_top(o: Precompiler, n: Precompiler) -> bool {
    o.g.stack@.len() == 0 ==> is_irange(n.g.values@[o.g.values@.len() as int].range, i64::MIN as int, i64::MAX as int)
}

/// `n` is `o` after a sequence of `k` instructions that pushes the constant `value`.
pub open spec fn pushed_constant(o: Precompiler, n: Precompiler, value: i64, k: int) -> bool {
    let c = o.g.peeked_values_len();
    &&& frame(o, n)
    &&& advanced(o, n, k, k)
    &&& fresh_top(o, n)
    &&& n.g.stack@ == o.g.peeked_stack().push(ValueId(c as u32))
    &&& n.g.values@.len() == c + 1
    &&& is_irange(n.g.values@[c].range, value as int, value as int)
    &&& n.instrs() == o.instrs()
}

/// `n` is `o` after the sequence of nineteen instructions that puts
/// `i64::MIN` under the top of the (non-empty) stack.
pub open spec fn pushed_min_under_top(o: Precompiler, n: Precompiler) -> bool {
    let c = o.g.values@.len() as int;
    &&& frame(o, n)
    &&& advanced(o, n, 19, 19)
    &&& n.g.stack@ == o.g.stack@.drop_last().push(ValueId(c as u32)).push(o.g.stack@.last())
    &&& n.g.values@.len() == c + 1
    &&& is_irange(n.g.values@[c].range, i64::MIN as int, i64::MIN as int)
    &&& n.instrs() == o.instrs()
}

/// `n` is `o` after a sequence of `skip` instructions, `k` of them executed,
/// that duplicates the top of the stack.
pub open spec fn duplicated(o: Precompiler, n: Precompiler, skip: int, k: int) -> bool {
    &&& frame(o, n)
    &&& advanced(o, n, skip, k)
    &&& fresh_top(o, n)
    &&& n.g.stack@ == o.g.peeked_stack().push(o.g.peeked_stack().last())
    &&& n.g.values@.len() == o.g.peeked_values_len()
    &&& n.instrs() == o.instrs()
}

/// `n` is `o` after the top of the stack was replaced by a new instruction
/// computing its bitwise negation, for a sequence of `skip` instructions of
/// which `k` were counted.
pub open spec fn negated_top(o: Precompiler, n: Precompiler, skip: int, k: int) -> bool {
    let x = o.g.peeked_stack().last();
    let out = o.g.peeked_values_len();
    let last = n.instrs().last();
    &&& frame(o, n)
    &&& advanced(o, n, skip, k)
    &&& fresh_top(o, n)
    &&& n.g.stack@ == o.g.peeked_stack().drop_last().push(ValueId(out as u32))
    &&& n.g.values@.len() == out + 1
    &&& n.instrs().len() == o.instrs().len() + 1
    &&& last.id == InstrId(o.g.current_block, o.instrs().len() as u32)
    &&& last.op == OptOp::BinNot
    &&& last.inputs@ == seq![x]
    &&& last.out == ValueId(out as u32)
}

/// `n` is `o` after compiling the recognized sequence `c` in one step.
pub open spec fn cheat_effect(o: Precompiler, n: Precompiler, c: Cheat) -> bool {
    match c {
        Cheat::PushConstant(value, k) => pushed_constant(o, n, value, k as int),
        Cheat::PushMinSwapped => pushed_min_under_top(o, n),
        Cheat::DupSimple(skip, k) => duplicated(o, n, skip as int, k as int),
        Cheat::DupWithBranch(skip, k, extra) => duplicated_with_branch(o, n, skip, k, extra),
        Cheat::Bitnot(skip, at_min, below3, from3) => negated_top_counted(o, n, skip, at_min, below3, from3),
    }
}

/// `n` is `o` after the top of the stack was duplicated by a sequence of
/// `skip` instructions, `k` of them counted, the run executing `extra` more
/// instructions when the value is below 3.
pub open spec fn duplicated_with_branch(o: Precompiler, n: Precompiler, skip: usize, k: usize, extra: i64) -> bool {
    exists|m: Precompiler|
        #[trigger] duplicated(o, m, skip as int, k as int)
        && cond_moved(m, n, Condition::Gt(ValueId(C_THREE), o.g.peeked_stack().last()), extra as int)
}

/// `n` is `o` after the bitwise negation of the top of the stack by a
/// sequence of `skip` instructions, of which the run executes `at_min` when
/// the value is `i64::MIN`, `below3` when it is otherwise below 3 and
/// `from3` when it is 3 or more.
pub open spec fn negated_top_counted(
    o: Precompiler,
    n: Precompiler,
    skip: usize,
    at_min: usize,
    below3: usize,
    from3: usize,
) -> bool {
    exists|m1: Precompiler, m2: Precompiler|
        #[trigger] bitnot_steps(o, m1, m2, n, skip as int, at_min as int, below3 as int, from3 as int)
}

/// `n` is `o` after the bitwise negation of the top of the stack (giving
/// `m1`), then the counts of the branches for `i64::MIN` (giving `m2`) and for
/// values of 3 or more, each taken relative to the count of the values below 3.
pub open spec fn bitnot_steps(
    o: Precompiler,
    m1: Precompiler,
    m2: Precompiler,
    n: Precompiler,
    skip: int,
    at_min: int,
    below3: int,
    from3: int,
) -> bool {
    let x = o.g.peeked_stack().last();
    &&& negated_top(o, m1, skip, below3)
    &&& cond_moved(m1, m2, Condition::Eq(ValueId(C_IMIN), x), at_min - below3)
    &&& cond_moved(m2, n, Condition::Leq(ValueId(C_THREE), x), from3 - below3)
}

/// The sequence recognized where the precompiler stands, if any.
pub open spec fn recognized(p: Precompiler) -> Option<Cheat> {
    cheat_for(p.conf.cheat_mode, p.ops@.skip(p.position as int), p.top_range())
}

/// How far `x` lies below 0.
pub open spec fn negative_part(x: int) -> int {
    if x < 0 { -x } else { 0 }
}

/// The numbers a recognized sequence carries fit the program and the counters.
pub open spec fn cheat_fits(c: Cheat, len: int) -> bool {
    match c {
        Cheat::PushConstant(_, k) => 1 <= k <= len && k <= 300,
        Cheat::PushMinSwapped => 19 <= len,
        Cheat::DupSimple(skip, k) => 1 <= skip <= len && 1 <= k <= 300,
        Cheat::DupWithBranch(skip, k, extra) => 1 <= skip <= len && 1 <= k <= 300 && 0 <= extra <= 300,
        Cheat::Bitnot(skip, at_min, below3, from3) => 1 <= skip <= len && at_min <= 300 && 1 <= below3 <= 300
            && from3 <= 300 && below3 - 1 >= negative_part(at_min - below3) + negative_part(from3 - below3),
    }
}

/// The numbers of every recognized sequence fit it, as `cheat_fits` says.
proof fn lemma_cheat_fits(mode: u32, rem: Seq<Op>, top: Option<(i64, i64)>)
    ensures
        cheat_for(mode, rem, top) matches Some(c) ==> cheat_fits(c, rem.len() as int),
{
    lemma_pattern_lengths();
}

/// Every input of every instruction stays a value of the graph when the
/// blocks stay and values are added.
proof fn lemma_inputs_kept(o: GraphBuilder, n: GraphBuilder)
    requires
        o.inputs_defined(),
        n.blocks@ == o.blocks@,
        n.values@.len() >= o.values@.len(),
    ensures
        n.inputs_defined(),
{
    assert forall|i: int, j: int, k: int|
        0 <= i < n.blocks@.len() && 0 <= j < n.blocks@[i].instructions@.len()
        && 0 <= k < n.blocks@[i].instructions@[j].inputs@.len()
        implies (#[trigger] n.blocks@[i].instructions@[j].inputs@[k]).0 < n.values@.len() by {
        assert(n.blocks@[i] == o.blocks@[i]);
    }
}

/// Compiles a sequence of `instrs` instructions that pushes `value`. The top
/// of the stack is looked at first, as running the sequence would.
fn cheat_push_constant(p: &mut Precompiler, value: i64, instrs: usize) -> (r: PrecompileStepResult)
    requires
        old(p).ready(),
        1 <= instrs <= 300,
        old(p).position + instrs <= usize::MAX,
    ensures
        pushed_constant(*old(p), *final(p), value, instrs as int),
        r == PrecompileStepResult::Continue,
{
    let ghost o = *p;
    p.g.peek_stack();
    proof { lemma_inputs_kept(o.g, p.g); }
    let c = p.g.store_constant(value);
    proof { lemma_inputs_kept(o.g, p.g); }
    p.g.stack.push(c);
    let ghost mid = *p;
    move_pos(p, instrs, instrs);
    assert(p.instrs() == o.instrs());
    assert(p.instrs().take(o.instrs().len() as int) == o.instrs());
    PrecompileStepResult::Continue
}

/// Compiles a sequence of `skip_len` instructions, `instrs` of them executed,
/// that duplicates the top of the stack.
fn cheat_dup_simple(p: &mut Precompiler, skip_len: usize, instrs: usize) -> (r: PrecompileStepResult)
    requires
        old(p).ready(),
        1 <= instrs <= 300,
        1 <= skip_len,
        old(p).position + skip_len <= usize::MAX,
    ensures
        duplicated(*old(p), *final(p), skip_len as int, instrs as int),
        r == PrecompileStepResult::Continue,
{
    let ghost o = *p;
    let x = p.g.peek_stack();
    proof { lemma_inputs_kept(o.g, p.g); }
    p.g.stack.push(x);
    move_pos(p, skip_len, instrs);
    assert(p.instrs().take(o.instrs().len() as int) == o.instrs());
    PrecompileStepResult::Continue
}

/// Compiles a duplicating sequence whose run executes `cond_instrs` more
/// instructions when `branching_condition` of the duplicated value holds.
fn cheat_dup_with_branch(
    p: &mut Precompiler,
    skip_len: usize,
    base_instrs: usize,
    branching_condition: impl Fn(ValueId) -> Condition<ValueId>,
    cond_instrs: i64,
) -> (r: PrecompileStepResult)
    requires
        old(p).ready(),
        1 <= base_instrs <= 300,
        1 <= skip_len,
        old(p).position + skip_len <= usize::MAX,
        0 <= cond_instrs,
        forall|v: ValueId| branching_condition.requires((v,)),
    ensures
        exists|m: Precompiler, cond: Condition<ValueId>|
            #[trigger] duplicated(*old(p), m, skip_len as int, base_instrs as int)
            && #[trigger] branching_condition.ensures((old(p).g.peeked_stack().last(),), cond)
            && cond_moved(m, *final(p), cond, cond_instrs as int),
        r == PrecompileStepResult::Continue,
{
    let ghost o = *p;
    let x = p.g.peek_stack();
    proof { lemma_inputs_kept(o.g, p.g); }
    p.g.stack.push(x);
    move_pos(p, skip_len, base_instrs);
    assert(p.instrs().take(o.instrs().len() as int) == o.instrs());
    let ghost m = *p;
    assert(duplicated(o, m, skip_len as int, base_instrs as int));
    let cond = branching_condition(x);
    move_instr_cond(p, cond, cond_instrs);
    assert(branching_condition.ensures((o.g.peeked_stack().last(),), cond));
    PrecompileStepResult::Continue
}

/// Compiles a sequence that replaces the top of the stack by its bitwise
/// negation; the run executes `instr_min` instructions for `i64::MIN`,
/// `instr_le3` for other values below 3 and `instr_gt3` from 3 on.
fn cheat_bitnot(
    p: &mut Precompiler,
    skip_len: usize,
    instr_min: usize,
    instr_le3: usize,
    instr_gt3: usize,
) -> (r: PrecompileStepResult)
    requires
        old(p).ready(),
        1 <= skip_len,
        old(p).position + skip_len <= usize::MAX,
        instr_min <= i64::MAX,
        1 <= instr_le3 <= i64::MAX,
        instr_gt3 <= i64::MAX,
        old(p).step_count + instr_le3 - 1 <= usize::MAX,
        old(p).count() + instr_le3 - 1 <= u32::MAX,
        old(p).count() + instr_le3 - 1 >= negative_part(instr_min - instr_le3) + negative_part(instr_gt3 - instr_le3),
    ensures
        cheat_effect(*old(p), *final(p), Cheat::Bitnot(skip_len, instr_min, instr_le3, instr_gt3)),
        r == PrecompileStepResult::Continue,
{
    let ghost o = *p;
    let x = p.g.pop_stack();
    proof { lemma_inputs_kept(o.g, p.g); }
    let ins = [x];
    assert(ins@ == seq![x]);
    let out = p.g.push_instr(OptOp::BinNot, &ins);
    p.g.stack.push(out);
    move_pos(p, skip_len, instr_le3);
    let ghost m1 = *p;
    assert(m1.instrs().take(o.instrs().len() as int) == o.instrs());
    assert(negated_top(o, m1, skip_len as int, instr_le3 as int));
    move_instr_cond(p, Condition::Eq(ValueId(C_IMIN), x), instr_min as i64 - instr_le3 as i64);
    let ghost m2 = *p;
    move_instr_cond(p, Condition::Leq(ValueId(C_THREE), x), instr_gt3 as i64 - instr_le3 as i64);
    assert(bitnot_steps(o, m1, m2, *p, skip_len as int, instr_min as int, instr_le3 as int, instr_gt3 as int));
    assert(cheat_effect(o, *p, Cheat::Bitnot(skip_len, instr_min, instr_le3, instr_gt3)));
    PrecompileStepResult::Continue
}

/// Recognizes a well-known sequence where the precompiler stands (when the
/// cheat mode allows it) and compiles it in one step. Returns `None`, leaving
/// the precompiler unchanged, when no sequence is recognized.
pub fn try_cheat(p: &mut Precompiler) -> (r: Option<PrecompileStepResult>)
    requires
        old(p).ready(),
    ensures
        match recognized(*old(p)) {
            None => r is None && *final(p) == *old(p),
            Some(c) => r == Some(PrecompileStepResult::Continue) && cheat_effect(*old(p), *final(p), c),
        },
{
    if p.conf.cheat_mode == 0 {
        return None;
    }
    let top: Option<(i64, i64)> = if p.g.stack.len() == 0 {
        None
    } else {
        let v = p.g.stack[p.g.stack.len() - 1];
        let range = &p.g.values[v.0 as usize].range;
        Some((*range.start(), *range.end()))
    };
    assert(top == p.top_range());
    let remaining = &p.ops[p.position..p.ops.len()];
    assert(remaining@ == p.ops@.skip(p.position as int));
    let cheat = choose_cheat(p.conf.cheat_mode, remaining, top);
    proof {
        lemma_cheat_fits(p.conf.cheat_mode, remaining@, top);
    }
    match cheat {
        None => None,
        Some(Cheat::PushConstant(value, k)) => Some(cheat_push_constant(p, value, k)),
        Some(Cheat::PushMinSwapped) => {
            let ghost o = *p;
            cheat_push_constant(p, i64::MIN, 19);
            let ghost mid = *p;
            let a = p.g.pop_stack();
            let b = p.g.pop_stack();
            p.g.stack.push(a);
            p.g.stack.push(b);
            proof {
                lemma_inputs_kept(mid.g, p.g);
                assert(p.instrs().take(o.instrs().len() as int) == o.instrs());
                let s = o.g.stack@;
                let c = ValueId(o.g.values@.len() as u32);
                assert(s.len() > 0);
                assert(mid.g.stack@ == s.push(c));
                assert(s.push(c).drop_last() == s);
                assert(p.g.stack@ == s.drop_last().push(c).push(s.last()));
            }
            Some(PrecompileStepResult::Continue)
        }
        Some(Cheat::DupSimple(skip, k)) => Some(cheat_dup_simple(p, skip, k)),
        Some(Cheat::DupWithBranch(skip, k, extra)) => {
            let ghost o = *p;
            let below_three = |v: ValueId| -> (c: Condition<ValueId>)
                ensures
                    c == Condition::Gt(ValueId(C_THREE), v),
                { Condition::Gt(ValueId(C_THREE), v) };
            let r = cheat_dup_with_branch(p, skip, k, below_three, extra);
            proof {
                let (m, cond) = choose|m: Precompiler, cond: Condition<ValueId>|
                    #[trigger] duplicated(o, m, skip as int, k as int)
                    && #[trigger] below_three.ensures((o.g.peeked_stack().last(),), cond)
                    && cond_moved(m, *p, cond, extra as int);
                assert(duplicated(o, m, skip as int, k as int));
            }
            Some(r)
        }
        Some(Cheat::Bitnot(skip, at_min, below3, from3)) => Some(cheat_bitnot(p, skip, at_min, below3, from3)),
    }
}

/// The lengths of the recognized sequences.
proof fn lemma_pattern_lengths()
    ensures
        pattern_bitnot1().len() == 284,
        pattern_bitnot2().len() == 284,
        pattern_dup1_trochu_jina().len() == 137,
        pattern_vzorakova_dup().len() == 134,
        pattern_erikova_dup().len() == 61,
        pattern_sejselova_dup().len() == 56,
        pattern_sejselova2_dup().len() == 56,
        pattern_push_max().len() == 27,
        pattern_push_min().len() == 16,
        pattern_min_swap().len() == 19,
        pattern_min_if_small().len() == 13,
{
}

/// Instructions a run executes by an increment of `k` under condition `c`,
/// the operands taking the values `val` gives them.
pub open spec fn counted(c: Condition<ValueId>, k: int, val: spec_fn(ValueId) -> int) -> int {
    if c.holds(val) { k } else { 0 }
}

/// What `move_instr_cond(c, k)` leaves behind (a change of the block's own
/// count and at most one conditional increment) makes a run execute exactly
/// `k` more instructions when `c` holds and no more when it does not, for
/// every valuation of the operands.
pub proof fn lemma_cond_increment_counts(c: Condition<ValueId>, k: int, val: spec_fn(ValueId) -> int)
    ensures
        cond_count_delta(c, k) + match cond_increment(c, k) {
            None => 0,
            Some((c2, k2)) => counted(c2, k2, val),
        } == counted(c, k, val),
{
    crate::cfg::lemma_neg_holds(c, val);
}

proof fn lemma_neg_not_false(c: Condition<ValueId>)
    requires
        c != Condition::<ValueId>::False,
    ensures
        c.negated() != Condition::<ValueId>::True,
{
}

} // verus!
