//! Reasoning about branch conditions: simplifying a condition under an
//! assumption, and the simpler facts that a condition implies.

use vstd::prelude::*;
use std::ops::RangeInclusive;
use crate::cfg::{divides, Condition, GraphBuilder, InstrId, OptInstr, OptOp, ValueId, C_ZERO};
use crate::convert::SaturatingInto;
use crate::ranges::{abs_range, in_irange, u64neg};
use crate::stdlib::abs_int;

verus! {

/// The number that value `v` holds when its range is a single number.
pub open spec fn constant_of(g: GraphBuilder, v: ValueId) -> Option<i64> {
    let r = g.values@[v.0 as int].range;
    if !r@.exhausted && r@.start == r@.end { Some(r@.start) } else { None }
}

/// Instruction `j` of block `i` computes value `v`.
pub open spec fn computes(g: GraphBuilder, i: int, j: int, v: ValueId) -> bool {
    &&& 0 <= i < g.n()
    &&& 0 <= j < g.blocks@[i].instructions@.len()
    &&& g.blocks@[i].instructions@[j].out == v
}

/// Instruction `j` of block `i` is the first (by block, then position)
/// that computes `v`.
pub open spec fn first_def(g: GraphBuilder, v: ValueId, i: int, j: int) -> bool {
    &&& computes(g, i, j, v)
    &&& forall|i2: int, j2: int| (0 <= i2 < i || (i2 == i && 0 <= j2 < j)) ==> !#[trigger] computes(g, i2, j2, v)
}

/// There is one first instruction that computes a value.
pub proof fn lemma_first_def_unique(g: GraphBuilder, v: ValueId, i: int, j: int, i2: int, j2: int)
    requires
        first_def(g, v, i, j),
        first_def(g, v, i2, j2),
    ensures
        i == i2 && j == j2,
{
    if i < i2 || (i == i2 && j < j2) {
        assert(!computes(g, i, j, v));
    } else if i2 < i || (i == i2 && j2 < j) {
        assert(!computes(g, i2, j2, v));
    }
}

/// The instruction that first computes `v` (meaningful when `v` is computed).
pub open spec fn def_of(g: GraphBuilder, v: ValueId) -> OptInstr {
    let p = choose|p: (int, int)| first_def(g, v, p.0, p.1);
    g.blocks@[p.0].instructions@[p.1]
}

/// Some instruction of the graph computes `v`.
pub open spec fn is_computed(g: GraphBuilder, v: ValueId) -> bool {
    exists|i: int, j: int| #[trigger] computes(g, i, j, v)
}

/// The least element of a non-empty sequence.
pub open spec fn seq_min(s: Seq<int>) -> int
    decreases s.len(),
{
    if s.len() <= 1 { s[0] } else { vstd::math::min(seq_min(s.drop_last()), s.last()) }
}

/// The greatest element of a non-empty sequence.
pub open spec fn seq_max(s: Seq<int>) -> int
    decreases s.len(),
{
    if s.len() <= 1 { s[0] } else { vstd::math::max(seq_max(s.drop_last()), s.last()) }
}

/// The numbers `val` gives to the inputs of an instruction.
pub open spec fn input_values(ins: OptInstr, val: spec_fn(ValueId) -> int) -> Seq<int> {
    ins.inputs@.map_values(|x: ValueId| val(x))
}

/// `val` gives the output of a `Min` or `Max` instruction the least or the
/// greatest number among its inputs.
pub open spec fn computed_right(ins: OptInstr, val: spec_fn(ValueId) -> int) -> bool {
    match ins.op {
        OptOp::Min => ins.inputs@.len() > 0 ==> val(ins.out) == seq_min(input_values(ins, val)),
        OptOp::Max => ins.inputs@.len() > 0 ==> val(ins.out) == seq_max(input_values(ins, val)),
        _ => true,
    }
}

/// `val` is a possible valuation of the values of the graph: every value
/// lies in its range, and `Min` and `Max` instructions compute what they say.
pub open spec fn consistent(g: GraphBuilder, val: spec_fn(ValueId) -> int) -> bool {
    &&& forall|v: int| 0 <= v < g.values@.len() ==> #[trigger] in_irange(g.values@[v].range, val(ValueId(v as u32)))
    &&& forall|i: int, j: int| 0 <= i < g.n() && 0 <= j < g.blocks@[i].instructions@.len()
        ==> #[trigger] computed_right(g.blocks@[i].instructions@[j], val)
}

/// The operands of `c` are values of the graph.
pub open spec fn cond_defined(g: GraphBuilder, c: Condition<ValueId>) -> bool {
    match c {
        Condition::True | Condition::False => true,
        Condition::Eq(a, b) | Condition::Neq(a, b) | Condition::Lt(a, b) | Condition::Leq(a, b)
        | Condition::Gt(a, b) | Condition::Geq(a, b) | Condition::Divides(a, b)
        | Condition::NotDivides(a, b) => a.0 < g.values@.len() && b.0 < g.values@.len(),
    }
}

/// `a` is a multiple of `b` (0 is the only multiple of 0).
pub open spec fn multiple(a: int, b: int) -> bool {
    if b == 0 { a == 0 } else { abs_int(a) % abs_int(b) == 0 }
}

/// Whether `a` is a multiple of `b` (`Integer::is_multiple_of`).
pub fn is_multiple_of(a: i64, b: i64) -> (r: bool)
    ensures
        r == multiple(a as int, b as int),
{
    if b == 0 {
        a == 0
    } else {
        a.abs_diff(0) % b.abs_diff(0) == 0
    }
}

impl GraphBuilder {
    /// The number value `v` holds, when its range is a single number.
    pub fn get_constant(&self, v: ValueId) -> (r: Option<i64>)
        requires
            self.wf(),
            v.0 < self.values@.len(),
        ensures
            r == constant_of(*self, v),
    {
        let r = &self.values[v.0 as usize].range;
        if !r.is_empty() && *r.start() == *r.end() {
            Some(*r.start())
        } else {
            None
        }
    }

    /// Where the instruction that computes `v` stands: its block and index.
    pub fn get_defined_at(&self, v: ValueId) -> (r: Option<(usize, usize)>)
        requires
            self.wf(),
        ensures
            r matches Some((i, j)) ==> first_def(*self, v, i as int, j as int),
            r is None ==> !is_computed(*self, v),
    {
        let mut i: usize = 0;
        while i < self.blocks.len()
            invariant
                self.wf(),
                i <= self.n(),
                forall|bi: int, j: int| 0 <= bi < i ==> !#[trigger] computes(*self, bi, j, v),
            decreases self.n() - i,
        {
            let instrs = &self.blocks[i].instructions;
            let mut j: usize = 0;
            while j < instrs.len()
                invariant
                    self.wf(),
                    i < self.n(),
                    *instrs == self.blocks@[i as int].instructions,
                    j <= instrs@.len(),
                    forall|bi: int, jj: int| 0 <= bi < i ==> !#[trigger] computes(*self, bi, jj, v),
                    forall|jj: int| 0 <= jj < j ==> !#[trigger] computes(*self, i as int, jj, v),
                decreases instrs@.len() - j,
            {
                if instrs[j].out == v {
                    return Some((i, j));
                }
                j += 1;
            }
            i += 1;
        }
        None
    }
}

/// No number in the range of value `v` is 0.
pub open spec fn nonzero(g: GraphBuilder, v: ValueId) -> bool {
    !in_irange(g.values@[v.0 as int].range, 0)
}

/// A strict assumption decides equality only when its divisor cannot be 0:
/// `NotDivides(x, 0)` holds for `x == 0`.
pub open spec fn strict_sure(g: GraphBuilder, given: Condition<ValueId>, y: ValueId) -> bool {
    given is NotDivides ==> nonzero(g, y)
}

/// Equality decides a divisibility condition only when its divisor cannot
/// be 0: `Divides(0, 0)` does not hold.
pub open spec fn divisor_sure(g: GraphBuilder, b: Condition<ValueId>) -> bool {
    match b {
        Condition::Divides(_, d) | Condition::NotDivides(_, d) => nonzero(g, d),
        _ => true,
    }
}

/// The operand of `Eq(p, q)` other than `a1` (`p` when both are `a1`).
pub open spec fn other_operand(p: ValueId, q: ValueId, a1: ValueId) -> ValueId {
    if p == a1 { q } else { p }
}

/// `b` simplified under the assumption `given`: `True` or `False` when
/// the assumption decides it, a simpler condition, or `None`.
pub open spec fn simplified(g: GraphBuilder, given: Condition<ValueId>, b: Condition<ValueId>) -> Option<Condition<ValueId>> {
    if given == Condition::<ValueId>::False || b == Condition::<ValueId>::True {
        Some(Condition::True)
    } else if given == Condition::<ValueId>::True || b == Condition::<ValueId>::False {
        Some(b)
    } else if given == b {
        Some(Condition::True)
    } else if given == b.negated() {
        Some(Condition::False)
    } else {
        match (given, b) {
            (Condition::Eq(a2, a1), Condition::Eq(p, q)) if (p == a1 || q == a1) && is_computed(g, a1) =>
                Some(Condition::Eq(a2, other_operand(p, q, a1))),
            _ => match (strict_of(given), b) {
                (Some((x, y)), Condition::Neq(p, q)) if x == p && y == q && strict_sure(g, given, y) => Some(Condition::True),
                (Some((x, y)), Condition::Eq(p, q)) if x == p && y == q && strict_sure(g, given, y) => Some(Condition::False),
                _ => match (given, b) {
                    (Condition::Eq(x, y), _) if excludes_equal(b, x, y) && divisor_sure(g, b) => Some(Condition::False),
                    (Condition::Eq(x, y), _) if includes_equal(b, x, y) && divisor_sure(g, b) => Some(Condition::True),
                    (Condition::Divides(x1, d1), Condition::Divides(x2, d2)) if x1 == x2 =>
                        match (constant_of(g, d1), constant_of(g, d2)) {
                            (Some(c1), Some(c2)) if multiple(c1 as int, c2 as int) => Some(Condition::True),
                            _ => None,
                        },
                    _ => None,
                },
            },
        }
    }
}

/// For `Lt(a1, a2)`, `Gt(a2, a1)` and `NotDivides(a1, a2)`: the pair `(a1, a2)`.
pub open spec fn strict_of(c: Condition<ValueId>) -> Option<(ValueId, ValueId)> {
    match c {
        Condition::Lt(a1, a2) => Some((a1, a2)),
        Condition::Gt(a2, a1) => Some((a1, a2)),
        Condition::NotDivides(a1, a2) => Some((a1, a2)),
        _ => None,
    }
}

/// `b` is `Neq`, `Lt`, `Gt` or `NotDivides` of `x` and `y`, in either order.
pub open spec fn excludes_equal(b: Condition<ValueId>, x: ValueId, y: ValueId) -> bool {
    match b {
        Condition::Neq(p, q) | Condition::Lt(p, q) | Condition::Gt(p, q) | Condition::NotDivides(p, q) =>
            (p == x && q == y) || (p == y && q == x),
        _ => false,
    }
}

/// `b` is `Leq`, `Geq` or `Divides` of `x` and `y`, in either order.
pub open spec fn includes_equal(b: Condition<ValueId>, x: ValueId, y: ValueId) -> bool {
    match b {
        Condition::Leq(p, q) | Condition::Geq(p, q) | Condition::Divides(p, q) =>
            (p == x && q == y) || (p == y && q == x),
        _ => false,
    }
}


fn excludes_equal_exec(b: Condition<ValueId>, x: ValueId, y: ValueId) -> (r: bool)
    ensures
        r == excludes_equal(b, x, y),
{
    match b {
        Condition::Neq(p, q) | Condition::Lt(p, q) | Condition::Gt(p, q) | Condition::NotDivides(p, q) =>
            (p == x && q == y) || (p == y && q == x),
        _ => false,
    }
}

fn includes_equal_exec(b: Condition<ValueId>, x: ValueId, y: ValueId) -> (r: bool)
    ensures
        r == includes_equal(b, x, y),
{
    match b {
        Condition::Leq(p, q) | Condition::Geq(p, q) | Condition::Divides(p, q) =>
            (p == x && q == y) || (p == y && q == x),
        _ => false,
    }
}

/// Simplifies `b` assuming `given` holds (see `simplified`): the result
/// holds exactly when `b` does, for every valuation the graph allows under
/// which `given` holds. `at` names where the conditions are evaluated; the
/// graph keeps one range per value, so it does not change the answer.
pub fn cond_implies(g: &GraphBuilder, given: &Condition<ValueId>, b: &Condition<ValueId>, at: InstrId) -> (r: Option<Condition<ValueId>>)
    requires
        g.wf(),
        cond_defined(*g, *given),
        cond_defined(*g, *b),
    ensures
        r == simplified(*g, *given, *b),
        r matches Some(c) ==> forall|val: spec_fn(ValueId) -> int|
            consistent(*g, val) && given.holds(val) ==> (#[trigger] c.holds(val) == b.holds(val)),
{
    let r = cond_implies_core(g, given, b, at);
    proof {
        if r is Some {
            assert forall|val: spec_fn(ValueId) -> int|
                consistent(*g, val) && given.holds(val) implies (#[trigger] r->0.holds(val) == b.holds(val)) by {
                lemma_simplified_sound(*g, *given, *b, val);
            }
        }
    }
    r
}

/// Whether no number in the range of `v` is 0.
fn nonzero_exec(g: &GraphBuilder, v: ValueId, at: InstrId) -> (r: bool)
    requires
        g.wf(),
        v.0 < g.values@.len(),
    ensures
        r == nonzero(*g, v),
{
    !g.val_range_at(v, at).contains(&0)
}

fn cond_implies_core(g: &GraphBuilder, given: &Condition<ValueId>, b: &Condition<ValueId>, at: InstrId) -> (r: Option<Condition<ValueId>>)
    requires
        g.wf(),
        cond_defined(*g, *given),
        cond_defined(*g, *b),
    ensures
        r == simplified(*g, *given, *b),
{
    let given = *given;
    let b = *b;
    if given == Condition::False || b == Condition::True {
        return Some(Condition::True);
    }
    if given == Condition::True || b == Condition::False {
        return Some(b);
    }
    if given == b {
        return Some(Condition::True);
    }
    if given == b.neg() {
        return Some(Condition::False);
    }
    if let Condition::Eq(a2, a1) = given {
        if let Condition::Eq(p, q) = b {
            if (p == a1 || q == a1) && g.get_defined_at(a1).is_some() {
                let other = if p == a1 { q } else { p };
                return Some(Condition::Eq(a2, other));
            }
        }
    }
    let strict: Option<(ValueId, ValueId)> = match given {
        Condition::Lt(a1, a2) => Some((a1, a2)),
        Condition::Gt(a2, a1) => Some((a1, a2)),
        Condition::NotDivides(a1, a2) => Some((a1, a2)),
        _ => None,
    };
    assert(strict == strict_of(given));
    if let Some((x, y)) = strict {
        let sure = match given {
            Condition::NotDivides(_, _) => nonzero_exec(g, y, at),
            _ => true,
        };
        match b {
            Condition::Neq(p, q) => {
                if x == p && y == q && sure {
                    return Some(Condition::True);
                }
            }
            Condition::Eq(p, q) => {
                if x == p && y == q && sure {
                    return Some(Condition::False);
                }
            }
            _ => {}
        }
    }
    match given {
        Condition::Eq(x, y) => {
            let sure = match b {
                Condition::Divides(_, d) | Condition::NotDivides(_, d) => nonzero_exec(g, d, at),
                _ => true,
            };
            if excludes_equal_exec(b, x, y) && sure {
                Some(Condition::False)
            } else if includes_equal_exec(b, x, y) && sure {
                Some(Condition::True)
            } else {
                None
            }
        }
        Condition::Divides(x1, d1) => {
            if let Condition::Divides(x2, d2) = b {
                if x1 == x2 {
                    match (g.get_constant(d1), g.get_constant(d2)) {
                        (Some(c1), Some(c2)) => {
                            if is_multiple_of(c1, c2) {
                                Some(Condition::True)
                            } else {
                                None
                            }
                        }
                        _ => None,
                    }
                } else {
                    None
                }
            } else {
                None
            }
        }
        _ => None,
    }
}

proof fn lemma_mod_trans(x: int, m: int, n: int)
    requires
        x >= 0,
        m > 0,
        n > 0,
        x % m == 0,
        m % n == 0,
    ensures
        x % n == 0,
{
    vstd::arithmetic::div_mod::lemma_fundamental_div_mod(x, m);
    vstd::arithmetic::div_mod::lemma_fundamental_div_mod(m, n);
    let q1 = x / m;
    let q2 = m / n;
    assert(x == (q2 * q1) * n) by (nonlinear_arith)
        requires
            x == m * q1,
            m == n * q2,
    ;
    vstd::arithmetic::div_mod::lemma_mod_multiples_basic(q2 * q1, n);
}

proof fn lemma_divides_self(a: int)
    requires
        a != 0,
    ensures
        divides(a, a),
{
    vstd::arithmetic::div_mod::lemma_mod_multiples_basic(1, abs_int(a));
}

/// A value whose range leaves out 0 is not 0 in any valuation the graph allows.
proof fn lemma_nonzero(g: GraphBuilder, val: spec_fn(ValueId) -> int, v: ValueId)
    requires
        consistent(g, val),
        v.0 < g.values@.len(),
        nonzero(g, v),
    ensures
        val(v) != 0,
{
    let i = v.0 as int;
    assert(ValueId(i as u32) == v);
    assert(in_irange(g.values@[i].range, val(ValueId(i as u32))));
}

/// The simplification keeps the meaning of `b` wherever `given` holds.
pub proof fn lemma_simplified_sound(g: GraphBuilder, given: Condition<ValueId>, b: Condition<ValueId>, val: spec_fn(ValueId) -> int)
    requires
        g.wf(),
        cond_defined(g, given),
        cond_defined(g, b),
        consistent(g, val),
        given.holds(val),
        simplified(g, given, b) is Some,
    ensures
        simplified(g, given, b)->0.holds(val) == b.holds(val),
{
    crate::cfg::lemma_neg_holds(b, val);
    match b {
        Condition::Divides(_, d) | Condition::NotDivides(_, d) => {
            if nonzero(g, d) { lemma_nonzero(g, val, d); }
        }
        _ => {}
    }
    match given {
        Condition::NotDivides(_, y) => {
            if nonzero(g, y) { lemma_nonzero(g, val, y); }
            if val(y) != 0 { lemma_divides_self(val(y)); }
        }
        _ => {}
    }
    match given {
        Condition::Eq(x, y) => {
            if val(x) != 0 {
                lemma_divides_self(val(x));
            }
            match b {
                Condition::Divides(p, q) | Condition::NotDivides(p, q) => {
                    if ((p == x && q == y) || (p == y && q == x)) && nonzero(g, q) {
                        assert(val(q) != 0);
                        assert(val(p) == val(q));
                        lemma_divides_self(val(q));
                        assert(divides(val(p), val(q)));
                    }
                }
                _ => {}
            }
            if let Condition::Eq(p, q) = b {
                if (p == y || q == y) && is_computed(g, y) && given != b && given != b.negated() {
                    assert(simplified(g, given, b) == Some(Condition::Eq(x, other_operand(p, q, y))));
                    assert(Condition::Eq(x, other_operand(p, q, y)).holds(val) == b.holds(val));
                }
            }
        }
        Condition::Divides(x1, d1) => {
            if let Condition::Divides(x2, d2) = b {
                if x1 == x2 {
                    if let (Some(c1), Some(c2)) = (constant_of(g, d1), constant_of(g, d2)) {
                        let v1 = d1.0 as int;
                        let v2 = d2.0 as int;
                        assert(ValueId(v1 as u32) == d1);
                        assert(ValueId(v2 as u32) == d2);
                        assert(in_irange(g.values@[v1].range, val(ValueId(v1 as u32))));
                        assert(in_irange(g.values@[v2].range, val(ValueId(v2 as u32))));
                        if multiple(c1 as int, c2 as int) && c2 != 0 {
                            lemma_mod_trans(abs_int(val(x1)), abs_int(c1 as int), abs_int(c2 as int));
                        }
                    }
                }
            }
        }
        _ => {}
    }
}

/// The condition of the same kind as `kind` (one of `Leq`, `Lt`, `Geq`,
/// `Gt`) on `a` and `b`.
pub open spec fn same_kind(kind: Condition<ValueId>, a: ValueId, b: ValueId) -> Condition<ValueId> {
    match kind {
        Condition::Leq(_, _) => Condition::Leq(a, b),
        Condition::Lt(_, _) => Condition::Lt(a, b),
        Condition::Geq(_, _) => Condition::Geq(a, b),
        _ => Condition::Gt(a, b),
    }
}

/// `kind` of `a` and each of `inputs`, in order.
fn compare_each(inputs: &Vec<ValueId>, a: ValueId, kind: Condition<ValueId>) -> (r: Vec<Condition<ValueId>>)
    ensures
        r@.len() == inputs@.len(),
        forall|k: int| 0 <= k < r@.len() ==> #[trigger] r@[k] == same_kind(kind, a, inputs@[k]),
{
    let mut r: Vec<Condition<ValueId>> = Vec::new();
    let mut k: usize = 0;
    while k < inputs.len()
        invariant
            k <= inputs@.len(),
            r@.len() == k,
            forall|j: int| 0 <= j < k ==> #[trigger] r@[j] == same_kind(kind, a, inputs@[j]),
        decreases inputs@.len() - k,
    {
        let x = inputs[k];
        let c = match kind {
            Condition::Leq(_, _) => Condition::Leq(a, x),
            Condition::Lt(_, _) => Condition::Lt(a, x),
            Condition::Geq(_, _) => Condition::Geq(a, x),
            _ => Condition::Gt(a, x),
        };
        r.push(c);
        k += 1;
    }
    r
}

proof fn lemma_seq_min_le(s: Seq<int>, k: int)
    requires
        0 <= k < s.len(),
    ensures
        seq_min(s) <= s[k],
    decreases s.len(),
{
    if s.len() > 1 && k < s.len() - 1 {
        lemma_seq_min_le(s.drop_last(), k);
    }
}

proof fn lemma_seq_max_ge(s: Seq<int>, k: int)
    requires
        0 <= k < s.len(),
    ensures
        seq_max(s) >= s[k],
    decreases s.len(),
{
    if s.len() > 1 && k < s.len() - 1 {
        lemma_seq_max_ge(s.drop_last(), k);
    }
}

/// A nonzero multiple of `d` is at least as large as `d` in magnitude.
proof fn lemma_divisor_le(x: int, d: int)
    requires
        divides(x, d),
        x != 0,
    ensures
        abs_int(d) <= abs_int(x),
{
    let ax = abs_int(x);
    let ad = abs_int(d);
    vstd::arithmetic::div_mod::lemma_fundamental_div_mod(ax, ad);
    let q = ax / ad;
    assert(q >= 0) by (nonlinear_arith)
        requires
            ax >= 0,
            ad > 0,
            q == ax / ad,
    ;
    assert(ad <= ax) by (nonlinear_arith)
        requires
            ax == ad * q,
            q >= 0,
            ax > 0,
            ad > 0,
    ;
}

/// Value `v` takes the number its single-number range holds.
proof fn lemma_constant_value(g: GraphBuilder, val: spec_fn(ValueId) -> int, v: ValueId, c: int)
    requires
        consistent(g, val),
        v.0 < g.values@.len(),
        crate::ranges::is_irange(g.values@[v.0 as int].range, c, c),
    ensures
        val(v) == c,
{
    let i = v.0 as int;
    assert(ValueId(i as u32) == v);
    assert(in_irange(g.values@[i].range, val(ValueId(i as u32))));
}

/// For the comparison `c` of the constant `a` (value `con`) with value `b`,
/// computed by `def` and known to lie in `range`: the comparison that `c`
/// implies between `con` and each input of `def`, if any. `a <= min(..)`,
/// `a == min(..)` with `a` the top of the range, give `a <= ` each input;
/// `a < min(..)`, `a != min(..)` with `a` the bottom of the range, give
/// `a < ` each input; `Max` alike the other way.
pub open spec fn bound_kind(c: Condition<ValueId>, con: ValueId, b: ValueId, def: OptInstr, range: RangeInclusive<i64>, a: i64) -> Option<Condition<ValueId>> {
    match def.op {
        OptOp::Min => if c is Leq || (c is Eq && range@.end == a) {
            Some(Condition::Leq(con, b))
        } else if c is Lt || (c is Neq && range@.start == a) {
            Some(Condition::Lt(con, b))
        } else {
            None
        },
        OptOp::Max => if c is Geq || (c is Eq && range@.start == a) {
            Some(Condition::Geq(con, b))
        } else if c is Gt || (c is Neq && range@.end == a) {
            Some(Condition::Gt(con, b))
        } else {
            None
        },
        _ => None,
    }
}

/// The largest magnitude of the bounds of a range.
pub open spec fn abs_max(r: RangeInclusive<i64>) -> int {
    vstd::math::max(abs_int(r@.start as int), abs_int(r@.end as int))
}

/// What `interesting_implications` gives for `c` in the graph `g0`, which it
/// turns into `g1`, as the list `r`.
pub open spec fn implications_made(g0: GraphBuilder, g1: GraphBuilder, c: Condition<ValueId>, r: Seq<Condition<ValueId>>) -> bool {
    let n = g0.values@.len();
    match c {
        Condition::Eq(con, b) | Condition::Neq(con, b) | Condition::Gt(con, b)
        | Condition::Geq(con, b) | Condition::Lt(con, b) | Condition::Leq(con, b) => {
            &&& g1.values@ == g0.values@
            &&& if constant_of(g0, con) is Some && is_computed(g0, b) {
                    match bound_kind(c, con, b, def_of(g0, b), g0.values@[b.0 as int].range, constant_of(g0, con)->0) {
                        Some(k) => r == def_of(g0, b).inputs@.map_values(|x: ValueId| same_kind(k, con, x)),
                        None => r.len() == 0,
                    }
                } else {
                    r.len() == 0
                }
        }
        Condition::Divides(x, div) => {
            if constant_of(g0, div) is Some {
                g1.values@ == g0.values@ && r.len() == 0
            } else if in_irange(g0.values@[x.0 as int].range, 0) {
                g1.values@ == g0.values@ && r == seq![Condition::Neq(ValueId(C_ZERO), div)]
            } else {
                let m = abs_max(g0.values@[x.0 as int].range);
                &&& g1.values@.len() == n + 2
                &&& g1.values@.take(n as int) == g0.values@
                &&& crate::ranges::is_irange(g1.values@[n as int].range, vstd::math::min(m, i64::MAX as int), vstd::math::min(m, i64::MAX as int))
                &&& crate::ranges::is_irange(g1.values@[n + 1int].range, -m, -m)
                &&& r == seq![Condition::Neq(ValueId(C_ZERO), div), Condition::Geq(ValueId(n as u32), div),
                        Condition::Leq(ValueId((n + 1) as u32), div)]
            }
        }
        _ => g1.values@ == g0.values@ && r.len() == 0,
    }
}

/// Simpler facts that `cond` implies. For a comparison of a constant with
/// the least or the greatest of some values: the same comparison with each
/// of them. For `x` divisible by a value `d` that is not a constant: `d` is
/// not 0, and when `x` cannot be 0, `d` lies within the magnitude of `x`
/// (two new constants hold the bounds).
pub fn interesting_implications(g: &mut GraphBuilder, cond: &Condition<ValueId>, at: InstrId) -> (r: Vec<Condition<ValueId>>)
    requires
        old(g).wf(),
        old(g).inputs_defined(),
        cond_defined(*old(g), *cond),
        old(g).values@.len() + 2 < u32::MAX,
    ensures
        final(g).wf(),
        final(g).blocks@ == old(g).blocks@,
        final(g).stack@ == old(g).stack@,
        final(g).current_block == old(g).current_block,
        old(g).values@.len() <= final(g).values@.len() <= old(g).values@.len() + 2,
        forall|i: int| 0 <= i < old(g).values@.len() ==> final(g).values@[i] == old(g).values@[i],
        forall|k: int| 0 <= k < r@.len() ==> cond_defined(*final(g), #[trigger] r@[k]),
        forall|val: spec_fn(ValueId) -> int| consistent(*final(g), val) && cond.holds(val) ==>
            forall|k: int| 0 <= k < r@.len() ==> (#[trigger] r@[k]).holds(val),
        implications_made(*old(g), *final(g), *cond, r@),
{
    let c = *cond;
    let r: Vec<Condition<ValueId>> = Vec::new();
    match c {
        Condition::Eq(con, b) | Condition::Neq(con, b) | Condition::Gt(con, b)
        | Condition::Geq(con, b) | Condition::Lt(con, b) | Condition::Leq(con, b) => {
            if let Some(a) = g.get_constant(con) {
                if let Some((bi, ij)) = g.get_defined_at(b) {
                    let def = &g.blocks[bi].instructions[ij];
                    let range = g.val_range_at(b, at);
                    let is_eq = matches!(c, Condition::Eq(_, _));
                    let is_neq = matches!(c, Condition::Neq(_, _));
                    let kind: Option<Condition<ValueId>> = match def.op {
                        OptOp::Min => {
                            if matches!(c, Condition::Leq(_, _)) || (is_eq && *range.end() == a) {
                                Some(Condition::Leq(con, b))
                            } else if matches!(c, Condition::Lt(_, _)) || (is_neq && *range.start() == a) {
                                Some(Condition::Lt(con, b))
                            } else {
                                None
                            }
                        }
                        OptOp::Max => {
                            if matches!(c, Condition::Geq(_, _)) || (is_eq && *range.start() == a) {
                                Some(Condition::Geq(con, b))
                            } else if matches!(c, Condition::Gt(_, _)) || (is_neq && *range.end() == a) {
                                Some(Condition::Gt(con, b))
                            } else {
                                None
                            }
                        }
                        _ => None,
                    };
                    proof {
                        let pp = choose|pp: (int, int)| first_def(*g, b, pp.0, pp.1);
                        assert(first_def(*g, b, bi as int, ij as int));
                        lemma_first_def_unique(*g, b, pp.0, pp.1, bi as int, ij as int);
                        assert(def_of(*g, b) == *def);
                        assert(computes(*g, bi as int, ij as int, b));
                        assert(is_computed(*g, b));
                        assert(kind == bound_kind(c, con, b, *def, g.values@[b.0 as int].range, a));
                    }
                    if let Some(kind) = kind {
                        let out = compare_each(&def.inputs, con, kind);
                        assert(out@ == def.inputs@.map_values(|x: ValueId| same_kind(kind, con, x)));
                        proof {
                            let ghost ins = *def;
                            assert forall|val: spec_fn(ValueId) -> int| consistent(*g, val) && cond.holds(val) implies
                                forall|k: int| 0 <= k < out@.len() ==> (#[trigger] out@[k]).holds(val) by {
                                lemma_constant_value(*g, val, con, a as int);
                                assert(computed_right(g.blocks@[bi as int].instructions@[ij as int], val));
                                let vb = b.0 as int;
                                assert(ValueId(vb as u32) == b);
                                assert(in_irange(g.values@[vb].range, val(ValueId(vb as u32))));
                                assert forall|k: int| 0 <= k < out@.len() implies (#[trigger] out@[k]).holds(val) by {
                                    assert(input_values(ins, val)[k] == val(ins.inputs@[k]));
                                    if ins.op == OptOp::Min {
                                        lemma_seq_min_le(input_values(ins, val), k);
                                    } else {
                                        lemma_seq_max_ge(input_values(ins, val), k);
                                    }
                                }
                            }
                            assert forall|k: int| 0 <= k < out@.len() implies cond_defined(*g, #[trigger] out@[k]) by {
                                assert(ins.inputs@[k].0 < g.values@.len()) by {
                                    assert(g.blocks@[bi as int].instructions@[ij as int].inputs@[k] == ins.inputs@[k]);
                                }
                            }
                        }
                        return out;
                    }
                }
            }
            r
        }
        Condition::Divides(x, div) => {
            if g.get_constant(div).is_none() {
                let ghost g0 = *g;
                let xr = g.val_range_at(x, at);
                let contains0 = xr.contains(&0);
                let x_max = *abs_range(xr).end();
                let mut r = r;
                r.push(Condition::Neq(ValueId(C_ZERO), div));
                if !contains0 {
                    let k: i64 = x_max.saturating_into();
                    let kv = g.store_constant(k);
                    r.push(Condition::Geq(kv, div));
                    let l = u64neg(x_max);
                    let lv = g.store_constant(l);
                    r.push(Condition::Leq(lv, div));
                    proof {
                        let n = g0.values@.len();
                        assert(g.values@.take(n as int) =~= g0.values@);
                        assert(r@ =~= seq![Condition::Neq(ValueId(C_ZERO), div), Condition::Geq(ValueId(n as u32), div),
                            Condition::Leq(ValueId((n + 1) as u32), div)]);
                        assert(x_max as int == abs_max(g0.values@[x.0 as int].range));
                        assert(x_max <= 0x8000_0000_0000_0000u64);
                        assert(l as int == -(x_max as int)) by (nonlinear_arith)
                            requires
                                (l + x_max) % 0x1_0000_0000_0000_0000int == 0,
                                x_max <= 0x8000_0000_0000_0000u64,
                        ;
                    }
                } else {
                    assert(r@ =~= seq![Condition::Neq(ValueId(C_ZERO), div)]);
                }
                proof {
                    reveal(crate::cfg::constants_in);
                    assert forall|val: spec_fn(ValueId) -> int| consistent(*g, val) && cond.holds(val) implies
                        forall|k: int| 0 <= k < r@.len() ==> (#[trigger] r@[k]).holds(val) by {
                        lemma_constant_value(*g, val, ValueId(C_ZERO), 0);
                        let vx = x.0 as int;
                        let vd = div.0 as int;
                        assert(ValueId(vx as u32) == x);
                        assert(ValueId(vd as u32) == div);
                        assert(in_irange(g.values@[vx].range, val(ValueId(vx as u32))));
                        assert(in_irange(g.values@[vd].range, val(ValueId(vd as u32))));
                        assert(g.values@[vx] == g0.values@[vx]);
                        assert(g.values@[vd] == g0.values@[vd]);
                        if !contains0 {
                            assert(val(x) != 0);
                            lemma_divisor_le(val(x), val(div));
                            lemma_constant_value(*g, val, ValueId(g0.values@.len() as u32), clamp_to_i64(x_max as int));
                            lemma_constant_value(*g, val, ValueId((g0.values@.len() + 1) as u32), -(x_max as int));
                        }
                    }
                }
                r
            } else {
                r
            }
        }
        _ => r,
    }
}

/// `x` clamped to at most `i64::MAX`.
pub open spec fn clamp_to_i64(x: int) -> int {
    if x > i64::MAX { i64::MAX as int } else { x }
}
} // verus!
