//! The instructions of the ksplang language and the parser of its programs:
//! whitespace-separated instruction names.

use vstd::prelude::*;
use vstd::string::StrSliceExecFns;

verus! {

/// A ksplang instruction.
#[derive(Clone, Copy, Debug, PartialEq, Eq, Structural, Hash)]
pub enum Op {
    Praise,
    Pop,
    Pop2,
    Max,
    LSwap,
    Roll,
    FF,
    Swap,
    KPi,
    Increment,
    Universal,
    Remainder,
    Modulo,
    TetrationNumIters,
    TetrationItersNum,
    Median,
    DigitSum,
    LenSum,
    Bitshift,
    And,
    Sum,
    Gcd2,
    GcdN,
    Qeq,
    Funkcia,
    BulkXor,
    BranchIfZero,
    Call,
    Goto,
    Jump,
    Rev,
    Sleep,
    Deez,
}

/// The name of an instruction in program text.
pub open spec fn op_name(op: Op) -> Seq<char> {
    match op {
        Op::Praise => seq!['p', 'r', 'a', 'i', 's', 'e'],
        Op::Pop => seq!['p', 'o', 'p'],
        Op::Pop2 => seq!['p', 'o', 'p', '2'],
        Op::Max => seq!['m', 'a', 'x'],
        Op::LSwap => seq!['L', '-', 's', 'w', 'a', 'p'],
        Op::Roll => seq!['l', 'r', 'o', 'l', 'l'],
        Op::FF => seq!['-', 'f', 'f'],
        Op::Swap => seq!['s', 'w', 'a', 'p'],
        Op::KPi => seq!['k', 'P', 'i'],
        Op::Increment => seq!['+', '+'],
        Op::Universal => seq!['u'],
        Op::Remainder => seq!['R', 'E', 'M'],
        Op::Modulo => seq!['%'],
        Op::TetrationNumIters => seq!['t', 'e', 't', 'r'],
        Op::TetrationItersNum => seq!['^', '^'],
        Op::Median => seq!['m'],
        Op::DigitSum => seq!['C', 'S'],
        Op::LenSum => seq!['l', 'e', 'n', 's', 'u', 'm'],
        Op::Bitshift => seq!['b', 'i', 't', 's', 'h', 'i', 'f', 't'],
        Op::And => seq!['A', 'n', 'd'],
        Op::Sum => seq!['S', 'u', 'm'],
        Op::Gcd2 => seq!['g', 'c', 'd'],
        Op::GcdN => seq!['d'],
        Op::Qeq => seq!['q', 'e', 'q'],
        Op::Funkcia => seq!['f', 'u', 'n', 'k', 'c', 'i', 'a'],
        Op::BulkXor => seq!['b', 'u', 'l', 'k', 'x', 'o', 'r'],
        Op::BranchIfZero => seq!['B', 'R', 'Z'],
        Op::Call => seq!['c', 'a', 'l', 'l'],
        Op::Goto => seq!['G', 'O', 'T', 'O'],
        Op::Jump => seq!['j'],
        Op::Rev => seq!['r', 'e', 'v'],
        Op::Sleep => seq!['S', 'P', 'A', 'N', 'E', 'K'],
        Op::Deez => seq!['d', 'e', 'e', 'z'],
    }
}

impl Op {
    /// Every instruction, in the order of the language's table.
    pub fn all() -> (v: Vec<Op>)
        ensures
            forall|op: Op| v@.contains(op),
    {
        let v = vec![Op::Praise, Op::Pop, Op::Pop2, Op::Max, Op::LSwap, Op::Roll, Op::FF, Op::Swap, Op::KPi, Op::Increment, Op::Universal, Op::Remainder, Op::Modulo, Op::TetrationNumIters, Op::TetrationItersNum, Op::Median, Op::DigitSum, Op::LenSum, Op::Bitshift, Op::And, Op::Sum, Op::Gcd2, Op::GcdN, Op::Qeq, Op::Funkcia, Op::BulkXor, Op::BranchIfZero, Op::Call, Op::Goto, Op::Jump, Op::Rev, Op::Sleep, Op::Deez];
        proof {
            assert forall|op: Op| v@.contains(op) by {
                match op {
                    Op::Praise => { assert(v@[0] == op); }
                    Op::Pop => { assert(v@[1] == op); }
                    Op::Pop2 => { assert(v@[2] == op); }
                    Op::Max => { assert(v@[3] == op); }
                    Op::LSwap => { assert(v@[4] == op); }
                    Op::Roll => { assert(v@[5] == op); }
                    Op::FF => { assert(v@[6] == op); }
                    Op::Swap => { assert(v@[7] == op); }
                    Op::KPi => { assert(v@[8] == op); }
                    Op::Increment => { assert(v@[9] == op); }
                    Op::Universal => { assert(v@[10] == op); }
                    Op::Remainder => { assert(v@[11] == op); }
                    Op::Modulo => { assert(v@[12] == op); }
                    Op::TetrationNumIters => { assert(v@[13] == op); }
                    Op::TetrationItersNum => { assert(v@[14] == op); }
                    Op::Median => { assert(v@[15] == op); }
                    Op::DigitSum => { assert(v@[16] == op); }
                    Op::LenSum => { assert(v@[17] == op); }
                    Op::Bitshift => { assert(v@[18] == op); }
                    Op::And => { assert(v@[19] == op); }
                    Op::Sum => { assert(v@[20] == op); }
                    Op::Gcd2 => { assert(v@[21] == op); }
                    Op::GcdN => { assert(v@[22] == op); }
                    Op::Qeq => { assert(v@[23] == op); }
                    Op::Funkcia => { assert(v@[24] == op); }
                    Op::BulkXor => { assert(v@[25] == op); }
                    Op::BranchIfZero => { assert(v@[26] == op); }
                    Op::Call => { assert(v@[27] == op); }
                    Op::Goto => { assert(v@[28] == op); }
                    Op::Jump => { assert(v@[29] == op); }
                    Op::Rev => { assert(v@[30] == op); }
                    Op::Sleep => { assert(v@[31] == op); }
                    Op::Deez => { assert(v@[32] == op); }
                }
            }
        }
        v
    }

    /// The name of the instruction, as its characters.
    pub fn name(&self) -> (s: Vec<char>)
        ensures
            s@ == op_name(*self),
    {
        match self {
            Op::Praise => vec!['p', 'r', 'a', 'i', 's', 'e'],
            Op::Pop => vec!['p', 'o', 'p'],
            Op::Pop2 => vec!['p', 'o', 'p', '2'],
            Op::Max => vec!['m', 'a', 'x'],
            Op::LSwap => vec!['L', '-', 's', 'w', 'a', 'p'],
            Op::Roll => vec!['l', 'r', 'o', 'l', 'l'],
            Op::FF => vec!['-', 'f', 'f'],
            Op::Swap => vec!['s', 'w', 'a', 'p'],
            Op::KPi => vec!['k', 'P', 'i'],
            Op::Increment => vec!['+', '+'],
            Op::Universal => vec!['u'],
            Op::Remainder => vec!['R', 'E', 'M'],
            Op::Modulo => vec!['%'],
            Op::TetrationNumIters => vec!['t', 'e', 't', 'r'],
            Op::TetrationItersNum => vec!['^', '^'],
            Op::Median => vec!['m'],
            Op::DigitSum => vec!['C', 'S'],
            Op::LenSum => vec!['l', 'e', 'n', 's', 'u', 'm'],
            Op::Bitshift => vec!['b', 'i', 't', 's', 'h', 'i', 'f', 't'],
            Op::And => vec!['A', 'n', 'd'],
            Op::Sum => vec!['S', 'u', 'm'],
            Op::Gcd2 => vec!['g', 'c', 'd'],
            Op::GcdN => vec!['d'],
            Op::Qeq => vec!['q', 'e', 'q'],
            Op::Funkcia => vec!['f', 'u', 'n', 'k', 'c', 'i', 'a'],
            Op::BulkXor => vec!['b', 'u', 'l', 'k', 'x', 'o', 'r'],
            Op::BranchIfZero => vec!['B', 'R', 'Z'],
            Op::Call => vec!['c', 'a', 'l', 'l'],
            Op::Goto => vec!['G', 'O', 'T', 'O'],
            Op::Jump => vec!['j'],
            Op::Rev => vec!['r', 'e', 'v'],
            Op::Sleep => vec!['S', 'P', 'A', 'N', 'E', 'K'],
            Op::Deez => vec!['d', 'e', 'e', 'z'],
        }
    }

    /// The instruction with the given name.
    pub fn by_name(word: &[char]) -> (r: Option<Op>)
        ensures
            r matches Some(op) ==> op_name(op) == word@,
            r is None ==> forall|op: Op| op_name(op) != word@,
    {
        let all = Op::all();
        let mut i: usize = 0;
        while i < all.len()
            invariant
                forall|op: Op| all@.contains(op),
                i <= all@.len(),
                forall|j: int| 0 <= j < i ==> op_name(#[trigger] all@[j]) != word@,
            decreases all@.len() - i,
        {
            let name = all[i].name();
            if chars_eq(&name, word) {
                return Some(all[i]);
            }
            i += 1;
        }
        proof {
            assert forall|op: Op| op_name(op) != word@ by {
                assert(all@.contains(op));
                let j = choose|j: int| 0 <= j < all@.len() && all@[j] == op;
                assert(op_name(all@[j]) != word@);
            }
        }
        None
    }
}

/// Whether two character sequences are equal.
fn chars_eq(a: &Vec<char>, b: &[char]) -> (r: bool)
    ensures
        r == (a@ == b@),
{
    if a.len() != b.len() {
        return false;
    }
    let mut i: usize = 0;
    while i < a.len()
        invariant
            a@.len() == b@.len(),
            i <= a@.len(),
            forall|j: int| 0 <= j < i ==> a@[j] == b@[j],
        decreases a@.len() - i,
    {
        if a[i] != b[i] {
            return false;
        }
        i += 1;
    }
    assert(a@ == b@);
    true
}


/// The characters that separate words of a program.
pub open spec fn is_ws(c: char) -> bool {
    c == ' ' || c == '\t' || c == '\n' || c == '\r'
}

/// The words of `s`: its maximal runs of characters other than whitespace.
pub open spec fn words(s: Seq<char>) -> Seq<Seq<char>>
    decreases s.len(),
{
    if s.len() == 0 {
        seq![]
    } else if is_ws(s.last()) {
        words(s.drop_last())
    } else if s.len() >= 2 && !is_ws(s[s.len() - 2]) {
        let w = words(s.drop_last());
        w.update(w.len() - 1, w.last().push(s.last()))
    } else {
        words(s.drop_last()).push(seq![s.last()])
    }
}

/// No two instructions have the same name, so a name read back gives the
/// instruction it was written for.
pub proof fn lemma_op_name_injective(a: Op, b: Op)
    ensures
        op_name(a) == op_name(b) ==> a == b,
{
    if op_name(a) == op_name(b) && a != b {
        let x = op_name(a);
        let y = op_name(b);
        assert(x.len() == y.len());
        assert(x[0] == y[0]);
        if x.len() > 1 {
            assert(x[1] == y[1]);
        }
        if x.len() > 2 {
            assert(x[2] == y[2]);
        }
        if x.len() > 3 {
            assert(x[3] == y[3]);
        }
    }
}

/// Some instruction is named `w`.
pub open spec fn is_op_name(w: Seq<char>) -> bool {
    exists|op: Op| op_name(op) == w
}

/// Why a program text is not a program.
#[derive(Debug)]
pub enum ParseError {
    /// A word that names no instruction.
    UnknownInstruction(String),
}

fn is_ws_char(c: char) -> (r: bool)
    ensures
        r == is_ws(c),
{
    c == ' ' || c == '\t' || c == '\n' || c == '\r'
}

proof fn lemma_words_nonempty(s: Seq<char>)
    requires
        s.len() >= 1,
        !is_ws(s.last()),
    ensures
        words(s).len() >= 1,
    decreases s.len(),
{
    if s.len() >= 2 && !is_ws(s[s.len() - 2]) {
        lemma_words_nonempty(s.drop_last());
    }
}

/// Splits a text into its words.
fn split_words(src: &str) -> (ws: Vec<Vec<char>>)
    ensures
        ws@.len() == words(src@).len(),
        forall|i: int| 0 <= i < ws@.len() ==> (#[trigger] ws@[i])@ == words(src@)[i],
{
    let n = src.unicode_len();
    let mut ws: Vec<Vec<char>> = Vec::new();
    let mut prev_ws = true;
    let mut i: usize = 0;
    while i < n
        invariant
            n == src@.len(),
            i <= n,
            ws@.len() == words(src@.take(i as int)).len(),
            forall|j: int| 0 <= j < ws@.len() ==> (#[trigger] ws@[j])@ == words(src@.take(i as int))[j],
            prev_ws == (i == 0 || is_ws(src@[i - 1])),
        decreases n - i,
    {
        let c = src.get_char(i);
        let ghost t = src@.take(i + 1);
        assert(t.drop_last() == src@.take(i as int));
        assert(t.last() == c);
        if is_ws_char(c) {
        } else if !prev_ws {
            assert(t[t.len() - 2] == src@[i - 1]);
            proof {
                lemma_words_nonempty(src@.take(i as int));
            }
            let mut last = ws.pop().unwrap();
            last.push(c);
            ws.push(last);
        } else {
            let mut w: Vec<char> = Vec::new();
            w.push(c);
            assert(w@ == seq![c]);
            ws.push(w);
        }
        prev_ws = is_ws_char(c);
        i += 1;
    }
    assert(src@.take(n as int) == src@);
    ws
}

/// Parses a program: the words of the text, each the name of an instruction.
/// Fails on the first word that names no instruction.
pub fn parse_program(src: &str) -> (r: Result<Vec<Op>, ParseError>)
    ensures
        r is Ok <==> forall|i: int| 0 <= i < words(src@).len() ==> is_op_name(#[trigger] words(src@)[i]),
        r matches Ok(ops) ==> ops@.len() == words(src@).len()
            && forall|i: int| 0 <= i < ops@.len() ==> op_name(#[trigger] ops@[i]) == words(src@)[i],
        r matches Err(ParseError::UnknownInstruction(w)) ==> exists|i: int|
            0 <= i < words(src@).len() && #[trigger] words(src@)[i] == w@ && !is_op_name(w@)
            && forall|j: int| 0 <= j < i ==> is_op_name(#[trigger] words(src@)[j]),
{
    let ws = split_words(src);
    let ghost wd = words(src@);
    let mut ops: Vec<Op> = Vec::new();
    let mut i: usize = 0;
    while i < ws.len()
        invariant
            wd == words(src@),
            ws@.len() == wd.len(),
            forall|j: int| 0 <= j < ws@.len() ==> (#[trigger] ws@[j])@ == wd[j],
            i <= ws@.len(),
            ops@.len() == i,
            forall|j: int| 0 <= j < i ==> op_name(#[trigger] ops@[j]) == wd[j],
        decreases ws@.len() - i,
    {
        match Op::by_name(ws[i].as_slice()) {
            Some(op) => {
                ops.push(op);
            }
            None => {
                let mut name = String::new();
                crate::text::push_all(&mut name, &ws[i]);
                proof {
                    assert(name@ == wd[i as int]);
                    assert(!is_op_name(wd[i as int]));
                    assert forall|j: int| 0 <= j < i implies is_op_name(#[trigger] wd[j]) by {
                        assert(op_name(ops@[j]) == wd[j]);
                    }
                }
                return Err(ParseError::UnknownInstruction(name));
            }
        }
        i += 1;
    }
    proof {
        assert forall|j: int| 0 <= j < wd.len() implies is_op_name(#[trigger] wd[j]) by {
            assert(op_name(ops@[j]) == wd[j]);
        }
    }
    Ok(ops)
}

} // verus!
