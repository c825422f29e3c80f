//! What the condition analyses promise beyond soundness: the facts that a
//! comparison with a least or greatest value implies, and the conditions an
//! equality decides.

use vstd::prelude::*;
use crate::cfg::{Condition, GraphBuilder, OptOp, ValueId};
use crate::implications::{abs_max, constant_of, def_of, implications_made, is_computed, nonzero, same_kind, simplified};
use crate::cfg::C_ZERO;
use crate::ranges::in_irange;

verus! {

/// `con` is a constant and `b` is computed by an instruction with the operation `op`.
pub open spec fn extreme_of(g: GraphBuilder, con: ValueId, b: ValueId, op: OptOp) -> bool {
    constant_of(g, con) is Some && is_computed(g, b) && def_of(g, b).op == op
}

/// A comparison of a constant with the greatest (`Max`) or the least (`Min`)
/// of some values carries over to each of them, and `interesting_implications`
/// lists it for each, in order: `con >= max(..)` gives `con >= x` and
/// `con > max(..)` gives `con > x` for every input `x`; `con == max(..)` at
/// the lower bound of its range gives `con >= x`, and `con != max(..)` at its
/// upper bound gives `con > x`. Likewise `con <= min(..)` gives `con <= x`,
/// `con < min(..)` gives `con < x`, `con == min(..)` at the upper bound of its
/// range gives `con <= x`, and `con != min(..)` at its lower bound gives `con < x`.
pub proof fn lemma_implications_of_extremes(g0: GraphBuilder, g1: GraphBuilder, c: Condition<ValueId>, r: Seq<Condition<ValueId>>)
    requires
        implications_made(g0, g1, c, r),
    ensures
        match c {
            Condition::Geq(con, b) => extreme_of(g0, con, b, OptOp::Max) ==>
                r == def_of(g0, b).inputs@.map_values(|x: ValueId| Condition::Geq(con, x)),
            Condition::Gt(con, b) => extreme_of(g0, con, b, OptOp::Max) ==>
                r == def_of(g0, b).inputs@.map_values(|x: ValueId| Condition::Gt(con, x)),
            Condition::Leq(con, b) => extreme_of(g0, con, b, OptOp::Min) ==>
                r == def_of(g0, b).inputs@.map_values(|x: ValueId| Condition::Leq(con, x)),
            Condition::Lt(con, b) => extreme_of(g0, con, b, OptOp::Min) ==>
                r == def_of(g0, b).inputs@.map_values(|x: ValueId| Condition::Lt(con, x)),
            Condition::Eq(con, b) => {
                &&& extreme_of(g0, con, b, OptOp::Max) && g0.values@[b.0 as int].range@.start == constant_of(g0, con)->0 ==>
                    r == def_of(g0, b).inputs@.map_values(|x: ValueId| Condition::Geq(con, x))
                &&& extreme_of(g0, con, b, OptOp::Min) && g0.values@[b.0 as int].range@.end == constant_of(g0, con)->0 ==>
                    r == def_of(g0, b).inputs@.map_values(|x: ValueId| Condition::Leq(con, x))
            },
            Condition::Neq(con, b) => {
                &&& extreme_of(g0, con, b, OptOp::Max) && g0.values@[b.0 as int].range@.end == constant_of(g0, con)->0 ==>
                    r == def_of(g0, b).inputs@.map_values(|x: ValueId| Condition::Gt(con, x))
                &&& extreme_of(g0, con, b, OptOp::Min) && g0.values@[b.0 as int].range@.start == constant_of(g0, con)->0 ==>
                    r == def_of(g0, b).inputs@.map_values(|x: ValueId| Condition::Lt(con, x))
            },
            _ => true,
        },
{
    match c {
        Condition::Geq(con, b) | Condition::Gt(con, b) | Condition::Leq(con, b) | Condition::Lt(con, b)
        | Condition::Eq(con, b) | Condition::Neq(con, b) => {
            let ins = def_of(g0, b).inputs@;
            assert(ins.map_values(|x: ValueId| Condition::Geq(con, x)) =~= ins.map_values(|x: ValueId| same_kind(Condition::Geq(con, b), con, x)));
            assert(ins.map_values(|x: ValueId| Condition::Gt(con, x)) =~= ins.map_values(|x: ValueId| same_kind(Condition::Gt(con, b), con, x)));
            assert(ins.map_values(|x: ValueId| Condition::Leq(con, x)) =~= ins.map_values(|x: ValueId| same_kind(Condition::Leq(con, b), con, x)));
            assert(ins.map_values(|x: ValueId| Condition::Lt(con, x)) =~= ins.map_values(|x: ValueId| same_kind(Condition::Lt(con, b), con, x)));
        },
        _ => {},
    }
}

/// `b` compares `x` and `y`, in either order, by the comparison `kind`
/// names (its operands are ignored).
pub open spec fn compares(b: Condition<ValueId>, kind: Condition<ValueId>, x: ValueId, y: ValueId) -> bool {
    match (kind, b) {
        (Condition::Eq(_, _), Condition::Eq(p, q)) | (Condition::Neq(_, _), Condition::Neq(p, q))
        | (Condition::Lt(_, _), Condition::Lt(p, q)) | (Condition::Leq(_, _), Condition::Leq(p, q))
        | (Condition::Gt(_, _), Condition::Gt(p, q)) | (Condition::Geq(_, _), Condition::Geq(p, q))
        | (Condition::Divides(_, _), Condition::Divides(p, q)) | (Condition::NotDivides(_, _), Condition::NotDivides(p, q)) =>
            (p == x && q == y) || (p == y && q == x),
        _ => false,
    }
}

/// An equality decides the other comparisons of its two values: assuming
/// `x == y`, `cond_implies` (which gives `simplified`) turns `x <= y` and
/// `x >= y` (either way round), and divisibility of one by the other when
/// the divisor cannot be 0, into `True`; and `x != y`, `x < y`, `x > y`, and
/// non-divisibility when the divisor cannot be 0, into `False`.
pub proof fn lemma_equality_decides(g: GraphBuilder, x: ValueId, y: ValueId, b: Condition<ValueId>)
    ensures
        compares(b, Condition::Leq(x, y), x, y) || compares(b, Condition::Geq(x, y), x, y)
            || (compares(b, Condition::Divides(x, y), x, y) && (b matches Condition::Divides(_, d) && nonzero(g, d)))
            ==> simplified(g, Condition::Eq(x, y), b) == Some(Condition::<ValueId>::True),
        compares(b, Condition::Neq(x, y), x, y) || compares(b, Condition::Lt(x, y), x, y) || compares(b, Condition::Gt(x, y), x, y)
            || (compares(b, Condition::NotDivides(x, y), x, y) && (b matches Condition::NotDivides(_, d) && nonzero(g, d)))
            ==> simplified(g, Condition::Eq(x, y), b) == Some(Condition::<ValueId>::False),
{
}

/// A strict order decides whether its two values differ: assuming `x < y`
/// (or `y > x`, or `x` not divisible by a `y` that cannot be 0),
/// `cond_implies` turns `x != y` into `True` and `x == y` into `False`.
pub proof fn lemma_strict_decides(g: GraphBuilder, given: Condition<ValueId>, x: ValueId, y: ValueId)
    requires
        given == Condition::Lt(x, y) || given == Condition::Gt(y, x) || (given == Condition::NotDivides(x, y) && nonzero(g, y)),
    ensures
        simplified(g, given, Condition::Neq(x, y)) == Some(Condition::<ValueId>::True),
        simplified(g, given, Condition::Eq(x, y)) == Some(Condition::<ValueId>::False),
{
}

/// Assuming `a2 == a1` for a computed `a1`, an equality of `a1` with `q`
/// becomes the equality of `a2` with `q`.
pub proof fn lemma_equality_substitutes(g: GraphBuilder, a2: ValueId, a1: ValueId, q: ValueId)
    requires
        is_computed(g, a1),
        q != a2,
        a1 != a2,
    ensures
        simplified(g, Condition::Eq(a2, a1), Condition::Eq(a1, q)) == Some(Condition::Eq(a2, q)),
        simplified(g, Condition::Eq(a2, a1), Condition::Eq(q, a1)) == Some(Condition::Eq(a2, q)),
{
}

/// Divisibility by a constant implies divisibility by each divisor of it:
/// assuming `x` divisible by `d1` holding `c1`, `x` divisible by `d2` holding a
/// nonzero `c2` that divides `c1` becomes `True`.
pub proof fn lemma_divisibility_carries(g: GraphBuilder, x: ValueId, d1: ValueId, d2: ValueId, c1: i64, c2: i64, k: int)
    requires
        d1 != d2,
        constant_of(g, d1) == Some(c1),
        constant_of(g, d2) == Some(c2),
        c2 != 0,
        c1 == k * c2,
    ensures
        simplified(g, Condition::Divides(x, d1), Condition::Divides(x, d2)) == Some(Condition::<ValueId>::True),
{
    let a = crate::stdlib::abs_int(c1 as int);
    let b = crate::stdlib::abs_int(c2 as int);
    assert(a == crate::stdlib::abs_int(k) * b) by (nonlinear_arith)
        requires c1 == k * c2, a == crate::stdlib::abs_int(c1 as int), b == crate::stdlib::abs_int(c2 as int);
    assert(a % b == 0) by (nonlinear_arith)
        requires a == crate::stdlib::abs_int(k) * b, b > 0, crate::stdlib::abs_int(k) >= 0;
}

/// Divisibility by a value that is not a constant bounds that value: `x`
/// divisible by `div` gives that `div` is not 0; when `x` cannot be 0 it
/// also gives `div >= -m` and `div <= m` for the largest magnitude `m` of the
/// range of `x`, through two new constants (of the graph `g1` that
/// `interesting_implications` leaves), `m` capped at `i64::MAX`.
pub proof fn lemma_divisor_bounds_listed(g0: GraphBuilder, g1: GraphBuilder, x: ValueId, div: ValueId, r: Seq<Condition<ValueId>>)
    requires
        implications_made(g0, g1, Condition::Divides(x, div), r),
        constant_of(g0, div) is None,
        g1.values@.len() <= u32::MAX,
    ensures
        r.contains(Condition::Neq(ValueId(C_ZERO), div)),
        !in_irange(g0.values@[x.0 as int].range, 0) ==> exists|u: ValueId, l: ValueId|
            r.contains(Condition::Geq(u, div)) && r.contains(Condition::Leq(l, div))
            && constant_of(g1, u) == Some(vstd::math::min(abs_max(g0.values@[x.0 as int].range), i64::MAX as int) as i64)
            && constant_of(g1, l) == Some((-abs_max(g0.values@[x.0 as int].range)) as i64),
{
    assert(r[0] == Condition::Neq(ValueId(C_ZERO), div));
    if !in_irange(g0.values@[x.0 as int].range, 0) {
        let n = g0.values@.len();
        assert(r[1] == Condition::Geq(ValueId(n as u32), div));
        assert(r[2] == Condition::Leq(ValueId((n + 1) as u32), div));
        assert((n as u32) as int == n);
        assert(((n + 1) as u32) as int == n + 1);
        let u = ValueId(n as u32);
        let l = ValueId((n + 1) as u32);
        let m = abs_max(g0.values@[x.0 as int].range);
        assert(0 <= m <= 0x8000_0000_0000_0000);
        assert(g1.values@[u.0 as int].range@.start == vstd::math::min(m, i64::MAX as int));
        assert(g1.values@[l.0 as int].range@.start == -m);
        assert(r.contains(Condition::Geq(u, div))) by { assert(r[1] == Condition::Geq(u, div)); }
        assert(r.contains(Condition::Leq(l, div))) by { assert(r[2] == Condition::Leq(l, div)); }
        assert(constant_of(g1, u) == Some(vstd::math::min(m, i64::MAX as int) as i64));
        assert(constant_of(g1, l) == Some((-m) as i64));
    }
}

} // verus!
