//! What a few ksplang instructions do to the stack, and why the sequences
//! that the compiler replaces by pushing a constant push that constant.

use vstd::prelude::*;
use crate::cheats::{
    cheat_for, has_prefix, pattern_bitnot1, pattern_bitnot2, pattern_dup1_trochu_jina, pattern_erikova_dup, pattern_min_if_small,
    pattern_min_swap, pattern_push_max, pattern_push_min, pattern_sejselova2_dup, pattern_sejselova_dup, pattern_vzorakova_dup,
    top_is_zero_or_minus_one, Cheat,
};
use crate::ops::Op;
use crate::stdlib::abs_int;

verus! {

/// The sum of the decimal digits of `n`.
pub open spec fn digits_sum(n: nat) -> nat
    decreases n,
{
    if n < 10 { n } else { (n % 10) + digits_sum(n / 10) }
}

/// The number of decimal digits of `n`; 0 has none.
pub open spec fn digits_len(n: nat) -> nat
    decreases n,
{
    if n == 0 { 0 } else { 1 + digits_len(n / 10) }
}

/// The sum of the digits of `x`, whatever its sign.
pub open spec fn digit_sum(x: int) -> int {
    digits_sum(abs_int(x) as nat) as int
}

/// The number of digits of `x`, whatever its sign.
pub open spec fn dec_len(x: int) -> int {
    digits_len(abs_int(x) as nat) as int
}

/// The stack after one instruction, for the instructions modelled here:
/// `CS` pushes the digit sum of the top, which stays; `lensum` replaces the
/// two top values by the sum of their numbers of digits; `++` adds one to the
/// top; `%` and `REM` replace two equal nonzero top values by their
/// remainder, 0 (the model leaves other operands out). `None` for what is
/// not modelled, or would fail.
pub open spec fn step(op: Op, s: Seq<int>) -> Option<Seq<int>> {
    let n = s.len() as int;
    match op {
        Op::DigitSum => if n >= 1 { Some(s.push(digit_sum(s[n - 1]))) } else { None },
        Op::LenSum => if n >= 2 { Some(s.take(n - 2).push(dec_len(s[n - 1]) + dec_len(s[n - 2]))) } else { None },
        Op::Increment => if n >= 1 && s[n - 1] < i64::MAX { Some(s.take(n - 1).push(s[n - 1] + 1)) } else { None },
        Op::Modulo | Op::Remainder => if n >= 2 && s[n - 1] == s[n - 2] && s[n - 1] != 0 {
            Some(s.take(n - 2).push(0))
        } else {
            None
        },
        _ => None,
    }
}

/// The stack after the instructions `ops`, one after the other.
pub open spec fn run(ops: Seq<Op>, s: Seq<int>) -> Option<Seq<int>>
    decreases ops.len(),
{
    if ops.len() == 0 {
        Some(s)
    } else {
        match step(ops[0], s) {
            Some(t) => run(ops.subrange(1, ops.len() as int), t),
            None => None,
        }
    }
}

/// Every instruction of `ops` is one that `step` models.
pub open spec fn modelled(ops: Seq<Op>) -> bool {
    forall|i: int| 0 <= i < ops.len() ==> match #[trigger] ops[i] {
        Op::DigitSum | Op::LenSum | Op::Increment | Op::Modulo | Op::Remainder => true,
        _ => false,
    }
}

/// Every value of the stack fits in `i64`.
pub open spec fn on_i64(s: Seq<int>) -> bool {
    forall|i: int| 0 <= i < s.len() ==> i64::MIN <= #[trigger] s[i] <= i64::MAX
}

/// `10` to the power `k`.
pub open spec fn pow10(k: nat) -> nat
    decreases k,
{
    if k == 0 { 1 } else { 10 * pow10((k - 1) as nat) }
}

/// Running instructions that each step from one listed stack to the next
/// ends at the last listed stack.
proof fn lemma_run_chain(p: Seq<Op>, st: Seq<Seq<int>>)
    requires
        st.len() == p.len() + 1,
        forall|i: int| 0 <= i < p.len() ==> step(#[trigger] p[i], st[i]) == Some(st[i + 1]),
    ensures
        run(p, st[0]) == Some(st[p.len() as int]),
    decreases p.len(),
{
    if p.len() > 0 {
        let q = p.subrange(1, p.len() as int);
        let sq = st.subrange(1, st.len() as int);
        assert forall|i: int| 0 <= i < q.len() implies step(#[trigger] q[i], sq[i]) == Some(sq[i + 1]) by {
            assert(q[i] == p[i + 1]);
            assert(step(p[i + 1], st[i + 1]) == Some(st[i + 2]));
        }
        lemma_run_chain(q, sq);
        assert(step(p[0], st[0]) == Some(st[1]));
    }
}

/// A number has at most 9 per digit as its digit sum.
proof fn lemma_digits_sum_le(n: nat)
    ensures
        digits_sum(n) <= 9 * digits_len(n),
    decreases n,
{
    if n >= 10 {
        lemma_digits_sum_le(n / 10);
    }
}

/// A number below `10^k` has at most `k` digits.
proof fn lemma_digits_len_le(n: nat, k: nat)
    requires
        n < pow10(k),
    ensures
        digits_len(n) <= k,
    decreases k,
{
    if n > 0 {
        assert(k > 0);
        let p = pow10((k - 1) as nat);
        assert(n / 10 < p) by (nonlinear_arith)
            requires n < 10 * p;
        lemma_digits_len_le(n / 10, (k - 1) as nat);
    }
}

/// A digit from 1 to 9 is its own digit sum and has one digit.
proof fn lemma_one_digit(x: int)
    requires
        1 <= x <= 9,
    ensures
        digit_sum(x) == x,
        dec_len(x) == 1,
{
    assert(abs_int(x) == x);
    assert((x as nat) / 10 == 0);
    assert(digits_len(0) == 0);
}

/// After two digit sums of a value of `i64`, the numbers of digits of the two
/// sums are small: at most 3 and at most 2, and the second sum is at most 27.
proof fn lemma_two_sums(x: int)
    requires
        i64::MIN <= x <= i64::MAX,
    ensures
        0 <= digit_sum(x) <= 171,
        0 <= dec_len(digit_sum(x)) <= 3,
        0 <= digit_sum(digit_sum(x)) <= 27,
        0 <= dec_len(digit_sum(digit_sum(x))) <= 2,
        1 <= dec_len(digit_sum(digit_sum(x)) + 1) <= 2,
{
    let n = abs_int(x) as nat;
    assert(pow10(19) == 10000000000000000000nat) by { reveal_with_fuel(pow10, 20); }
    lemma_digits_len_le(n, 19);
    lemma_digits_sum_le(n);
    let a = digit_sum(x);
    assert(abs_int(a) == a);
    assert(pow10(3) == 1000nat) by { reveal_with_fuel(pow10, 4); }
    lemma_digits_len_le(a as nat, 3);
    lemma_digits_sum_le(a as nat);
    let b = digit_sum(a);
    assert(abs_int(b) == b);
    assert(pow10(2) == 100nat) by { reveal_with_fuel(pow10, 3); }
    lemma_digits_len_le(b as nat, 2);
    lemma_digits_len_le((b + 1) as nat, 2);
    assert(abs_int(b + 1) == b + 1);
    assert(((b + 1) as nat) / 10 < (b + 1) as nat);
}

/// `CS CS lensum ++ CS lensum`, or `CS CS ++ lensum CS lensum` when `late` holds.
pub open spec fn six_ops(late: bool) -> Seq<Op> {
    if late { seq![Op::DigitSum, Op::DigitSum, Op::Increment, Op::LenSum, Op::DigitSum, Op::LenSum] }
    else { seq![Op::DigitSum, Op::DigitSum, Op::LenSum, Op::Increment, Op::DigitSum, Op::LenSum] }
}

/// The stacks `CS CS lensum ++ CS lensum` (or `CS CS ++ lensum CS lensum`
/// when `late` holds) go through from `s`, and the value left on top after
/// the fourth instruction, `k`, from 1 to 6.
proof fn lemma_small_then_two(s: Seq<int>, late: bool) -> (r: (Seq<Seq<int>>, int))
    requires
        s.len() >= 1,
        on_i64(s),
    ensures
        r.0.len() == 7,
        r.0[0] == s,
        1 <= r.1 <= 6,
        r.0[4] == s.push(r.1),
        r.0[5] == s.push(r.1).push(r.1),
        r.0[6] == s.push(2),
        forall|i: int| 0 <= i < 6 ==> #[trigger] step(six_ops(late)[i], r.0[i]) == Some(r.0[i + 1]),
{
    let n = s.len() as int;
    let x = s[n - 1];
    lemma_two_sums(x);
    let a = digit_sum(x);
    let b = digit_sum(a);
    let s1 = s.push(a);
    let s2 = s1.push(b);
    let (s3, k) = if late {
        (s1.push(b + 1), dec_len(b + 1) + dec_len(a))
    } else {
        (s.push(dec_len(b) + dec_len(a)), dec_len(b) + dec_len(a) + 1)
    };
    let s4 = s.push(k);
    let s5 = s4.push(k);
    let s6 = s.push(2);
    lemma_one_digit(k);
    let p = six_ops(late);
    let st = seq![s, s1, s2, s3, s4, s5, s6];
    assert(step(p[0], s) == Some(s1));
    assert(step(p[1], s1) == Some(s2));
    if late {
        assert(s2.take(s2.len() - 1) =~= s1);
        assert(step(p[2], s2) == Some(s3));
        assert(s3.take(s3.len() - 2) =~= s);
        assert(step(p[3], s3) == Some(s4));
    } else {
        assert(s2.take(s2.len() - 2) =~= s);
        assert(step(p[2], s2) == Some(s3));
        assert(s3.take(s3.len() - 1) =~= s);
        assert(step(p[3], s3) == Some(s4));
    }
    assert(step(p[4], s4) == Some(s5));
    assert(s5.take(s5.len() - 2) =~= s);
    assert(step(p[5], s5) == Some(s6));
    assert forall|i: int| 0 <= i < 6 implies #[trigger] step(six_ops(late)[i], st[i]) == Some(st[i + 1]) by {
        if i == 0 {} else if i == 1 {} else if i == 2 {} else if i == 3 {} else if i == 4 {} else {}
    }
    (st, k)
}

/// A sequence that the compiler replaces by pushing a constant (see
/// `cheat_for` and `try_cheat`), when it is made of instructions that `step`
/// models, pushes exactly that constant on every stack of `i64` values that
/// is not empty, and leaves the rest of the stack as it was.
pub proof fn lemma_pushed_constant_is_computed(mode: u32, rem: Seq<Op>, top: Option<(i64, i64)>, s: Seq<int>, c: i64, n: usize)
    requires
        cheat_for(mode, rem, top) == Some(Cheat::PushConstant(c, n)),
        modelled(rem.take(n as int)),
        s.len() >= 1,
        on_i64(s),
    ensures
        run(rem.take(n as int), s) == Some(s.push(c as int)),
{
    let p = rem.take(n as int);
    let six_a = seq![Op::DigitSum, Op::DigitSum, Op::LenSum, Op::Increment, Op::DigitSum, Op::LenSum];
    let six_b = seq![Op::DigitSum, Op::DigitSum, Op::Increment, Op::LenSum, Op::DigitSum, Op::LenSum];
    let zero_a = seq![Op::DigitSum, Op::DigitSum, Op::LenSum, Op::Increment, Op::DigitSum, Op::Remainder];
    let zero_b = seq![Op::DigitSum, Op::DigitSum, Op::LenSum, Op::Increment, Op::DigitSum, Op::Modulo];
    if mode >= 2 && (has_prefix(rem, pattern_bitnot1()) || has_prefix(rem, pattern_bitnot2())
        || has_prefix(rem, pattern_dup1_trochu_jina()) || has_prefix(rem, pattern_vzorakova_dup())
        || has_prefix(rem, pattern_erikova_dup()) || has_prefix(rem, pattern_sejselova_dup())
        || has_prefix(rem, pattern_sejselova2_dup())) {
        assert(false);
    } else if has_prefix(rem, pattern_push_max()) {
        assert(p[4] == Op::Funkcia);
    } else if has_prefix(rem, pattern_push_min()) {
        assert(p[4] == Op::Funkcia);
    } else if rem == seq![Op::DigitSum, Op::DigitSum, Op::LenSum, Op::Increment, Op::DigitSum, Op::DigitSum, Op::DigitSum, Op::Modulo, Op::Qeq]
        || rem == seq![Op::DigitSum, Op::DigitSum, Op::LenSum, Op::Increment, Op::DigitSum, Op::DigitSum, Op::DigitSum, Op::Remainder, Op::Qeq] {
        assert(p[8] == Op::Qeq);
    } else if has_prefix(rem, seq![Op::DigitSum, Op::DigitSum, Op::LenSum, Op::DigitSum, Op::Funkcia]) {
        assert(p[4] == Op::Funkcia);
    } else if has_prefix(rem, zero_a) || has_prefix(rem, zero_b) {
        assert(c == 0 && n == 6);
        let (st, k) = lemma_small_then_two(s, false);
        let s6 = s.push(0);
        assert(st[5].take(st[5].len() - 2) =~= s);
        let st2 = st.take(5).push(st[5]).push(s6);
        assert forall|i: int| 0 <= i < 6 implies step(#[trigger] p[i], st2[i]) == Some(st2[i + 1]) by {
            assert(p[i] == if has_prefix(rem, zero_a) { zero_a[i] } else { zero_b[i] });
            if i < 5 {
                assert(p[i] == six_a[i]);
                assert(st2[i] == st[i] && st2[i + 1] == st[i + 1]);
            }
        }
        lemma_run_chain(p, st2);
    } else if has_prefix(rem, six_a) || has_prefix(rem, six_b) {
        assert(c == 2 && n == 6);
        let late = !has_prefix(rem, six_a);
        let (st, k) = lemma_small_then_two(s, late);
        assert(p =~= if late { six_b } else { six_a });
        lemma_run_chain(p, st);
    } else if has_prefix(rem, pattern_min_swap()) && top_is_zero_or_minus_one(top) {
        assert(false);
    } else if has_prefix(rem, pattern_min_if_small()) && top_is_zero_or_minus_one(top) {
        assert(p[2] == Op::TetrationItersNum);
    } else {
        assert(false);
    }
}

} // verus!
