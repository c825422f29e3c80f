//! Analyses over the control-flow graph: depth-first orders, a generic
//! fixed-point data-flow solver, and a bound on executed instructions.

use vstd::prelude::*;
use crate::cfg::{BlockId, InstrId, BasicBlock, GraphBuilder, OptInstr, OptOp, ValueId};
use crate::stdlib::{clamp_i64, fx_map_values};
use vstd::std_specs::cmp::PartialEqSpec;

verus! {

/// The blocks known to run before, and after, a given block on every path.
#[derive(Debug, PartialEq, Eq, Default)]
pub struct BBOrderInfo {
    pub always_before: rustc_hash::FxHashSet<BlockId>,
    pub always_after: rustc_hash::FxHashSet<BlockId>,
}

/// Number of `false` entries of `s`.
pub open spec fn count_false(s: Seq<bool>) -> nat
    decreases s.len(),
{
    if s.len() == 0 {
        0
    } else {
        count_false(s.drop_last()) + if s.last() { 0nat } else { 1nat }
    }
}

/// Marking an unmarked entry leaves one fewer unmarked.
pub proof fn lemma_count_false_set(s: Seq<bool>, i: int)
    requires
        0 <= i < s.len(),
        !s[i],
    ensures
        count_false(s.update(i, true)) + 1 == count_false(s),
    decreases s.len(),
{
    let t = s.update(i, true);
    if i == s.len() - 1 {
        assert(t.drop_last() == s.drop_last());
    } else {
        assert(t.drop_last() == s.drop_last().update(i, true));
        lemma_count_false_set(s.drop_last(), i);
    }
}

proof fn lemma_count_false_mono(s: Seq<bool>, t: Seq<bool>)
    requires
        s.len() == t.len(),
        forall|i: int| 0 <= i < s.len() && s[i] ==> t[i],
    ensures
        count_false(t) <= count_false(s),
    decreases s.len(),
{
    if s.len() > 0 {
        lemma_count_false_mono(s.drop_last(), t.drop_last());
    }
}

/// Block `v` occurs in `result`.
pub open spec fn occurs(result: Seq<BlockId>, v: int) -> bool {
    exists|j: int| 0 <= j < result.len() && #[trigger] result[j].0 == v
}

/// Block `v` occurs in `result` before position `i`.
pub open spec fn occurs_before(result: Seq<BlockId>, v: int, i: int) -> bool {
    exists|j: int| 0 <= j < i && #[trigger] result[j].0 == v
}

/// No block occurs twice.
pub open spec fn distinct_blocks(result: Seq<BlockId>) -> bool {
    forall|i: int, j: int| 0 <= i < j < result.len() ==> result[i].0 != result[j].0
}

/// The defining property of a depth-first postorder: when `u` comes before
/// `v` and there is a jump from `u` to `v`, then `v` reaches `u` (the jump
/// closes a cycle).
pub open spec fn postorder_edges(g: GraphBuilder, result: Seq<BlockId>) -> bool {
    forall|i: int, k: int|
        0 <= i < result.len() && 0 <= k < g.blocks@[result[i].0 as int].outgoing_jumps@.len() ==>
            occurs_before(result, #[trigger] g.target(result[i].0 as int, k), i)
            || g.reaches(g.target(result[i].0 as int, k), result[i].0 as int)
}

/// `o` lists the blocks reachable from the entry, each once, in a depth-first
/// postorder: the entry comes last, and a jump from a block to a later one
/// always closes a cycle.
pub open spec fn is_dfs_postorder(g: GraphBuilder, o: Seq<BlockId>) -> bool {
    &&& o.len() > 0
    &&& o.last() == BlockId(0)
    &&& distinct_blocks(o)
    &&& forall|j: int| 0 <= j < o.len() ==> 0 <= #[trigger] o[j].0 < g.n()
    &&& forall|v: int| 0 <= v < g.n() ==> (occurs(o, v) <==> g.reachable(v))
    &&& postorder_edges(g, o)
}

/// The depth-first search from block `u`: when `u` is not yet marked in
/// `visited`, marks it, searches from each target of its jumps that is still
/// unmarked (in the order of the jumps), then appends `u` to `result`. Gives
/// the marks and the result afterwards.
pub open spec fn dfs_visit(g: GraphBuilder, u: int, visited: Seq<bool>, result: Seq<BlockId>) -> (Seq<bool>, Seq<BlockId>)
    decreases count_false(visited), 0nat, 0nat,
{
    if !(0 <= u < visited.len()) || visited[u] {
        (visited, result)
    } else {
        proof {
            lemma_count_false_set(visited, u);
        }
        let (v2, r2) = dfs_jumps(g, u, 0, visited.update(u, true), result);
        (v2, r2.push(BlockId(u as u32)))
    }
}

/// The part of `dfs_visit(u)` that searches from the targets of the jumps of
/// `u` from the `k`-th on.
pub open spec fn dfs_jumps(g: GraphBuilder, u: int, k: int, visited: Seq<bool>, result: Seq<BlockId>) -> (Seq<bool>, Seq<BlockId>)
    decreases count_false(visited), 1nat, (g.blocks@[u].outgoing_jumps@.len() - k) as nat,
{
    if k < 0 || k >= g.blocks@[u].outgoing_jumps@.len() {
        (visited, result)
    } else {
        let t = g.target(u, k);
        if !(0 <= t < visited.len()) || visited[t] {
            dfs_jumps(g, u, k + 1, visited, result)
        } else {
            let (v2, r2) = dfs_visit(g, t, visited, result);
            if count_false(v2) <= count_false(visited) {
                dfs_jumps(g, u, k + 1, v2, r2)
            } else {
                (v2, r2)
            }
        }
    }
}

/// The depth-first postorder of the blocks reachable from the entry, the
/// jumps of each block followed in their order.
pub open spec fn dfs_postorder(g: GraphBuilder) -> Seq<BlockId> {
    dfs_visit(g, 0, Seq::new(g.n() as nat, |i: int| false), Seq::empty()).1
}

/// State of the depth-first search: `visited` marks the blocks finished (in
/// `result`) and those in progress (`stack`, a path from the entry).
#[verifier::opaque]
spec fn dfs_state(g: GraphBuilder, visited: Seq<bool>, result: Seq<BlockId>, stack: Seq<int>) -> bool {
    &&& visited.len() == g.n()
    &&& stack.len() > 0 ==> g.is_path(stack) && stack[0] == 0
    &&& stack.no_duplicates()
    &&& distinct_blocks(result)
    &&& forall|j: int| 0 <= j < result.len() ==> 0 <= #[trigger] result[j].0 < g.n()
    &&& forall|v: int| 0 <= v < g.n() ==> (visited[v] <==> (occurs(result, v) || stack.contains(v)))
    &&& forall|j: int| 0 <= j < result.len() ==> !stack.contains(#[trigger] result[j].0 as int)
    &&& forall|v: int| 0 <= v < g.n() && #[trigger] visited[v] ==> g.reachable(v)
    &&& forall|i: int, k: int|
        0 <= i < result.len() && 0 <= k < g.blocks@[result[i].0 as int].outgoing_jumps@.len() ==>
            visited[#[trigger] g.target(result[i].0 as int, k)]
    &&& postorder_edges(g, result)
}


proof fn lemma_path_suffix_reaches(g: GraphBuilder, p: Seq<int>, m: int)
    requires
        g.is_path(p),
        0 <= m < p.len(),
    ensures
        g.reaches(p[m], p.last()),
{
    let q = p.subrange(m, p.len() as int);
    assert forall|i: int| 0 <= i < q.len() - 1 implies g.edge(#[trigger] q[i], q[i + 1]) by {
        assert(q[i] == p[m + i]);
        assert(q[i + 1] == p[m + i + 1]);
    }
    assert forall|i: int| 0 <= i < q.len() implies 0 <= #[trigger] q[i] < g.n() by {
        assert(q[i] == p[m + i]);
    }
    assert(g.is_path(q));
}

proof fn lemma_path_extend(g: GraphBuilder, p: Seq<int>, v: int)
    requires
        g.is_path(p),
        0 <= v < g.n(),
        g.edge(p.last(), v),
    ensures
        g.is_path(p.push(v)),
{
    let q = p.push(v);
    assert forall|i: int| 0 <= i < q.len() - 1 implies g.edge(#[trigger] q[i], q[i + 1]) by {
        if i < p.len() - 1 {
            assert(q[i] == p[i] && q[i + 1] == p[i + 1]);
        }
    }
    assert forall|i: int| 0 <= i < q.len() implies 0 <= #[trigger] q[i] < g.n() by {
        if i < p.len() {
            assert(q[i] == p[i]);
        }
    }
}

/// In a set of blocks that holds the start of a path and is closed under
/// jumps, the whole path stays inside the set.
proof fn lemma_closed_contains_path(g: GraphBuilder, visited: Seq<bool>, p: Seq<int>)
    requires
        g.is_path(p),
        visited.len() == g.n(),
        visited[p[0]],
        forall|u: int, k: int| 0 <= u < g.n() && visited[u] && 0 <= k < g.blocks@[u].outgoing_jumps@.len()
            ==> visited[#[trigger] g.target(u, k)],
    ensures
        visited[p.last()],
    decreases p.len(),
{
    if p.len() > 1 {
        let q = p.drop_last();
        assert forall|i: int| 0 <= i < q.len() - 1 implies g.edge(#[trigger] q[i], q[i + 1]) by {
            assert(q[i] == p[i] && q[i + 1] == p[i + 1]);
        }
        assert forall|i: int| 0 <= i < q.len() implies 0 <= #[trigger] q[i] < g.n() by {
            assert(q[i] == p[i]);
        }
        lemma_closed_contains_path(g, visited, q);
        let u = p[p.len() - 2];
        assert(g.edge(u, p.last()));
        let k = choose|k: int| 0 <= k < g.blocks@[u].outgoing_jumps@.len() && #[trigger] g.target(u, k) == p.last();
    }
}

#[verifier::rlimit(60)]
fn postorder_visit(
    g: &GraphBuilder,
    id: BlockId,
    visited: &mut Vec<bool>,
    result: &mut Vec<BlockId>,
    Ghost(stack): Ghost<Seq<int>>,
)
    requires
        g.wf(),
        0 <= id.0 < g.n(),
        old(visited)@.len() == g.n(),
        !old(visited)@[id.0 as int],
        dfs_state(*g, old(visited)@, old(result)@, stack),
        (stack.len() == 0 && id.0 == 0) || (stack.len() > 0 && g.edge(stack.last(), id.0 as int)),
    ensures
        dfs_state(*g, final(visited)@, final(result)@, stack),
        final(visited)@.len() == g.n(),
        final(visited)@[id.0 as int],
        forall|i: int| 0 <= i < old(visited)@.len() && old(visited)@[i] ==> final(visited)@[i],
        final(result)@.len() > old(result)@.len(),
        final(result)@.take(old(result)@.len() as int) == old(result)@,
        final(result)@.last() == id,
        count_false(final(visited)@) < count_false(old(visited)@),
        (final(visited)@, final(result)@) == dfs_visit(*g, id.0 as int, old(visited)@, old(result)@),
    decreases count_false(old(visited)@),
{
    let ghost n = g.n();
    let ghost v0 = visited@;
    let ghost r0 = result@;
    let ghost u = id.0 as int;
    let b = g.block_(id);
    proof {
        reveal(dfs_state);
    }
    visited.set(id.0 as usize, true);
    let ghost stack2 = stack.push(u);
    proof {
        lemma_count_false_set(v0, u);
        assert(!stack.contains(u));
        if stack.len() > 0 {
            lemma_path_extend(*g, stack, u);
        } else {
            assert(stack2 == seq![u]);
        }
        assert(g.is_path(stack2) && stack2[0] == 0);
        assert(g.reachable(u));
        assert forall|v: int| 0 <= v < n implies (visited@[v] <==> (occurs(result@, v) || stack2.contains(v))) by {
            if v == u {
                assert(stack2[stack2.len() - 1] == u);
            }
            if stack2.contains(v) && v != u {
                let m = choose|m: int| 0 <= m < stack2.len() && stack2[m] == v;
                assert(stack[m] == v);
            }
            if stack.contains(v) {
                let m = choose|m: int| 0 <= m < stack.len() && stack[m] == v;
                assert(stack2[m] == v);
            }
        }
        assert forall|j: int| 0 <= j < result@.len() implies !stack2.contains(#[trigger] result@[j].0 as int) by {
            if stack2.contains(result@[j].0 as int) {
                let m = choose|m: int| 0 <= m < stack2.len() && stack2[m] == result@[j].0 as int;
                if m < stack.len() {
                    assert(stack[m] == stack2[m]);
                } else {
                    assert(occurs(r0, u));
                }
            }
        }
        assert forall|v: int| 0 <= v < n && #[trigger] visited@[v] implies g.reachable(v) by {
            if v != u {
                assert(v0[v]);
            }
        }
        assert(dfs_state(*g, visited@, result@, stack2));
    }
    let mut k: usize = 0;
    while k < b.outgoing_jumps.len()
        invariant
            g.wf(),
            n == g.n(),
            0 <= u < n,
            u == id.0,
            *b == g.blocks@[u],
            stack2 == stack.push(u),
            v0 == old(visited)@,
            v0.len() == n,
            dfs_state(*g, visited@, result@, stack2),
            visited@.len() == n,
            visited@[u],
            forall|i: int| 0 <= i < v0.len() && v0[i] ==> visited@[i],
            forall|j: int| 0 <= j < k ==> visited@[#[trigger] g.target(u, j)],
            result@.len() >= r0.len(),
            result@.take(r0.len() as int) == r0,
            count_false(visited@) < count_false(v0),
            k <= b.outgoing_jumps@.len(),
            dfs_jumps(*g, u, k as int, visited@, result@) == dfs_jumps(*g, u, 0, v0.update(u, true), r0),
        decreases b.outgoing_jumps@.len() - k,
    {
        let next = b.outgoing_jumps[k].1;
        assert(next.0 == g.target(u, k as int));
        if !visited[next.0 as usize] {
            assert(g.edge(stack2.last(), next.0 as int));
            let ghost vb = visited@;
            let ghost rb = result@;
            assert(count_false(visited@) < count_false(old(visited)@));
            postorder_visit(g, next, visited, result, Ghost(stack2));
            proof {
                assert forall|i: int| 0 <= i < v0.len() && v0[i] implies visited@[i] by {
                    assert(vb[i]);
                }
                assert(result@.take(r0.len() as int) == r0) by {
                    assert(result@.take(rb.len() as int).take(r0.len() as int) == result@.take(r0.len() as int));
                }
            }
        }
        k += 1;
    }
    let ghost vf = visited@;
    let ghost rf = result@;
    result.push(id);
    proof {
        reveal(dfs_state);
        let r = result@;
        assert(r.take(r0.len() as int) == r0) by {
            assert(r.take(r0.len() as int) == rf.take(r0.len() as int));
        }
        assert(r[r.len() - 1] == id);
        assert(stack2.contains(u)) by {
            assert(stack2[stack2.len() - 1] == u);
        }
        assert(!occurs(rf, u));
        assert forall|v: int| 0 <= v < n implies (visited@[v] <==> (occurs(r, v) || stack.contains(v))) by {
            if occurs(rf, v) {
                let j = choose|j: int| 0 <= j < rf.len() && #[trigger] rf[j].0 == v;
                assert(r[j] == rf[j]);
            }
            if occurs(r, v) && v != u {
                let j = choose|j: int| 0 <= j < r.len() && #[trigger] r[j].0 == v;
                assert(r[j] == rf[j]);
            }
            if stack2.contains(v) && v != u {
                let m = choose|m: int| 0 <= m < stack2.len() && stack2[m] == v;
                assert(stack[m] == v);
            }
            if stack.contains(v) {
                let m = choose|m: int| 0 <= m < stack.len() && stack[m] == v;
                assert(stack2[m] == v);
            }
            if v == u {
                assert(r[r.len() - 1].0 == v);
            }
        }
        assert(!stack.contains(u)) by {
            if stack.contains(u) {
                let m = choose|m: int| 0 <= m < stack.len() && stack[m] == u;
                assert(stack2[m] == u);
                assert(stack2[stack.len() as int] == u);
            }
        }
        assert forall|j: int| 0 <= j < r.len() implies !stack.contains(#[trigger] r[j].0 as int) by {
            if j < rf.len() {
                assert(r[j] == rf[j]);
                if stack.contains(r[j].0 as int) {
                    let m = choose|m: int| 0 <= m < stack.len() && stack[m] == r[j].0 as int;
                    assert(stack2[m] == stack[m]);
                }
            }
        }
        assert(distinct_blocks(r)) by {
            assert forall|i: int, j: int| 0 <= i < j < r.len() implies r[i].0 != r[j].0 by {
                assert(r[i] == rf[i]);
                if j < rf.len() {
                    assert(r[j] == rf[j]);
                } else {
                    assert(rf[i].0 != u);
                }
            }
        }
        assert forall|i: int, k: int|
            0 <= i < r.len() && 0 <= k < g.blocks@[r[i].0 as int].outgoing_jumps@.len() implies
                visited@[#[trigger] g.target(r[i].0 as int, k)] by {
            if i < rf.len() {
                assert(r[i] == rf[i]);
            }
        }
        assert forall|i: int, k: int|
            0 <= i < r.len() && 0 <= k < g.blocks@[r[i].0 as int].outgoing_jumps@.len() implies
                occurs_before(r, #[trigger] g.target(r[i].0 as int, k), i)
                || g.reaches(g.target(r[i].0 as int, k), r[i].0 as int) by {
            let y = g.target(r[i].0 as int, k);
            if i < rf.len() {
                assert(r[i] == rf[i]);
                if occurs_before(rf, y, i) {
                    let j = choose|j: int| 0 <= j < i && #[trigger] rf[j].0 == y;
                    assert(r[j] == rf[j]);
                }
            } else {
                assert(visited@[y]);
                if occurs(rf, y) {
                    let j = choose|j: int| 0 <= j < rf.len() && #[trigger] rf[j].0 == y;
                    assert(r[j] == rf[j]);
                    assert(occurs_before(r, y, i));
                } else {
                    assert(stack2.contains(y));
                    let m = choose|m: int| 0 <= m < stack2.len() && stack2[m] == y;
                    lemma_path_suffix_reaches(*g, stack2, m);
                }
            }
        }
        assert(dfs_state(*g, visited@, r, stack));
    }
}


/// The blocks reachable from the entry, in depth-first postorder (the entry
/// last): each block occurs once, exactly the reachable blocks occur, and a
/// jump from a block to a later one always closes a cycle.
pub fn postorder(g: &GraphBuilder) -> (result: Vec<BlockId>)
    requires
        g.wf(),
    ensures
        result@ == dfs_postorder(*g),
        is_dfs_postorder(*g, result@),
{
    let mut visited = vec![false; g.blocks.len()];
    let mut result: Vec<BlockId> = vec![];
    assert(visited@ == Seq::new(g.n() as nat, |i: int| false));
    proof {
        reveal(dfs_state);
        assert forall|v: int| 0 <= v < g.n() implies (visited@[v] <==> (occurs(result@, v) || Seq::<int>::empty().contains(v))) by {}
        assert(dfs_state(*g, visited@, result@, Seq::empty()));
    }
    postorder_visit(g, BlockId(0), &mut visited, &mut result, Ghost(Seq::empty()));
    proof {
        reveal(dfs_state);
        assert(visited@[0]);
        assert forall|u: int, k: int| 0 <= u < g.n() && visited@[u] && 0 <= k < g.blocks@[u].outgoing_jumps@.len()
            implies visited@[#[trigger] g.target(u, k)] by {
            assert(occurs(result@, u));
            let j = choose|j: int| 0 <= j < result@.len() && #[trigger] result@[j].0 == u;
        }
        assert forall|v: int| 0 <= v < g.n() implies (occurs(result@, v) <==> g.reachable(v)) by {
            if g.reachable(v) {
                let p = choose|p: Seq<int>| #[trigger] g.is_path(p) && p[0] == 0 && p.last() == v;
                lemma_closed_contains_path(*g, visited@, p);
            }
        }
    }
    result
}

/// The reachable blocks in reverse postorder (the entry first).
pub fn reverse_postorder(g: &GraphBuilder) -> (result: Vec<BlockId>)
    requires
        g.wf(),
    ensures
        result@ == dfs_postorder(*g).reverse(),
        is_dfs_postorder(*g, result@.reverse()),
{
    let o = postorder(g);
    let ghost p = o@;
    let r = reversed(o);
    assert(r@.reverse() == p);
    r
}

/// The elements of `v` in reverse order.
fn reversed<T>(v: Vec<T>) -> (r: Vec<T>)
    ensures
        r@ == v@.reverse(),
{
    let mut v = v;
    let ghost orig = v@;
    let mut r: Vec<T> = Vec::new();
    while v.len() > 0
        invariant
            orig == v@ + r@.reverse(),
        decreases v@.len(),
    {
        let ghost before = v@;
        let x = v.pop().unwrap();
        proof {
            assert(before == v@.push(x));
            assert(r@.push(x).reverse() == seq![x] + r@.reverse()) by {
                assert(r@.push(x).reverse().drop_first() == r@.reverse());
            }
        }
        r.push(x);
    }
    assert(r@.reverse().reverse() == r@);
    r
}


/// The jumps into reachable blocks come from reachable blocks.
pub open spec fn preds_reachable(g: GraphBuilder) -> bool {
    forall|v: int, k: int| 0 <= v < g.n() && g.reachable(v) && 0 <= k < g.blocks@[v].incoming_jumps@.len()
        ==> g.reachable((#[trigger] g.blocks@[v].incoming_jumps@[k]).0.0 as int)
}

/// Position of block `b` in `keys`.
pub open spec fn pos(keys: Seq<BlockId>, b: int) -> int {
    keys.index_of(BlockId(b as u32))
}

/// `ins` holds, for each jump into `blk`, the state of the block it comes from.
pub open spec fn ins_match<T>(keys: Seq<BlockId>, st: Seq<T>, blk: BasicBlock, ins: Seq<&T>) -> bool {
    &&& ins.len() == blk.incoming_jumps@.len()
    &&& forall|k: int| 0 <= k < ins.len() ==> *#[trigger] ins[k] == st[pos(keys, blk.incoming_jumps@[k].0.0 as int)]
}

/// `outs` holds, for each jump out of `blk`, the state of its target.
pub open spec fn outs_match<T>(keys: Seq<BlockId>, st: Seq<T>, blk: BasicBlock, outs: Seq<&T>) -> bool {
    &&& outs.len() == blk.outgoing_jumps@.len()
    &&& forall|k: int| 0 <= k < outs.len() ==> *#[trigger] outs[k] == st[pos(keys, blk.outgoing_jumps@[k].1.0 as int)]
}

/// `v` is a value that `step` may give for the block at position `i` of
/// `keys` when every block's state is taken from `st`.
pub open spec fn stepped<T, S: Fn(&BasicBlock, &T, &[&T], &[&T]) -> T>(
    g: GraphBuilder,
    step: S,
    keys: Seq<BlockId>,
    st: Seq<T>,
    i: int,
    v: T,
) -> bool {
    exists|b: &BasicBlock, s: &T, ins: &[&T], outs: &[&T]|
        *b == g.blocks@[keys[i].0 as int] && *s == st[i]
        && ins_match(keys, st, *b, ins@) && outs_match(keys, st, *b, outs@)
        && #[trigger] call_ensures(step, (b, s, ins, outs), v)
}

/// The order in which the solver steps the blocks: depth-first postorder,
/// or its reverse.
pub open spec fn dataflow_order(g: GraphBuilder, reverse: bool) -> Seq<BlockId> {
    if reverse { dfs_postorder(g).reverse() } else { dfs_postorder(g) }
}

/// The result of a converged data-flow run: each reachable block once, in
/// (reverse, when asked) depth-first postorder, with a state that is a fixed
/// point of `step`: stepping the previous states gave these values, which
/// compare equal to the previous ones.
pub open spec fn dataflow_fixpoint<T: PartialEq, S: Fn(&BasicBlock, &T, &[&T], &[&T]) -> T>(
    g: GraphBuilder,
    reverse: bool,
    step: S,
    r: Seq<(BlockId, T)>,
) -> bool {
    let keys = r.map_values(|p: (BlockId, T)| p.0);
    &&& keys == dataflow_order(g, reverse)
    &&& is_dfs_postorder(g, if reverse { keys.reverse() } else { keys })
    &&& exists|st: Seq<T>| {
        &&& st.len() == r.len()
        &&& forall|i: int| 0 <= i < r.len() ==> #[trigger] stepped(g, step, keys, st, i, r[i].1)
        &&& T::obeys_eq_spec() ==> forall|i: int| 0 <= i < r.len() ==> (#[trigger] r[i].1).eq_spec(&st[i])
    }
}


/// `v` is a state that `init` may give for the block at position `i` of `keys`.
pub open spec fn initialized<T, I: Fn(&BasicBlock) -> T>(g: GraphBuilder, init: I, keys: Seq<BlockId>, i: int, v: T) -> bool {
    exists|b: &BasicBlock| *b == g.blocks@[keys[i].0 as int] && #[trigger] call_ensures(init, (b,), v)
}

/// `st` holds, for each block of `keys`, a state that `init` may give for it.
pub open spec fn initial_states<T, I: Fn(&BasicBlock) -> T>(g: GraphBuilder, init: I, keys: Seq<BlockId>, st: Seq<T>) -> bool {
    &&& st.len() == keys.len()
    &&& forall|i: int| 0 <= i < keys.len() ==> #[trigger] initialized(g, init, keys, i, st[i])
}

/// `nx` is one round of `step` from the states `st`: every block stepped
/// from its state and the states of its neighbours in `st`.
pub open spec fn next_states<T, S: Fn(&BasicBlock, &T, &[&T], &[&T]) -> T>(
    g: GraphBuilder,
    step: S,
    keys: Seq<BlockId>,
    st: Seq<T>,
    nx: Seq<T>,
) -> bool {
    &&& nx.len() == st.len()
    &&& forall|i: int| 0 <= i < st.len() ==> #[trigger] stepped(g, step, keys, st, i, nx[i])
}

/// The two rounds compare equal block by block.
pub open spec fn same_states<T: PartialEq>(a: Seq<T>, b: Seq<T>) -> bool {
    &&& a.len() == b.len()
    &&& forall|i: int| 0 <= i < a.len() ==> (#[trigger] a[i]).eq_spec(&b[i])
}

/// Round `k + 1` of `rounds` is one round of `step` from round `k`.
pub open spec fn stepped_round<T, S: Fn(&BasicBlock, &T, &[&T], &[&T]) -> T>(
    g: GraphBuilder,
    step: S,
    keys: Seq<BlockId>,
    rounds: Seq<Seq<T>>,
    k: int,
) -> bool {
    next_states(g, step, keys, rounds[k], rounds[k + 1])
}

/// Round `k + 1` of `rounds` does not compare equal to round `k`.
pub open spec fn changed_round<T: PartialEq>(rounds: Seq<Seq<T>>, k: int) -> bool {
    !same_states(rounds[k + 1], rounds[k])
}

/// `rounds` is a run of the solver over the blocks `keys`: the initial
/// states, then each round stepped from the one before, each of them
/// differing from the one before.
pub open spec fn changing_rounds<T: PartialEq, I: Fn(&BasicBlock) -> T, S: Fn(&BasicBlock, &T, &[&T], &[&T]) -> T>(
    g: GraphBuilder,
    init: I,
    step: S,
    keys: Seq<BlockId>,
    rounds: Seq<Seq<T>>,
) -> bool {
    &&& rounds.len() >= 1
    &&& initial_states(g, init, keys, rounds[0])
    &&& forall|k: int| 0 <= k < rounds.len() - 1 ==> #[trigger] stepped_round(g, step, keys, rounds, k)
    &&& forall|k: int| 0 <= k < rounds.len() - 1 ==> #[trigger] changed_round(rounds, k)
}

/// The states of a converged run `r`: after the changing rounds `rounds`
/// (at most `blocks.len() + 11` of them), one more round gave the states of
/// `r`, which compare equal to the last of them.
pub open spec fn converged_run<T: PartialEq, I: Fn(&BasicBlock) -> T, S: Fn(&BasicBlock, &T, &[&T], &[&T]) -> T>(
    g: GraphBuilder,
    init: I,
    step: S,
    r: Seq<(BlockId, T)>,
    rounds: Seq<Seq<T>>,
) -> bool {
    let keys = r.map_values(|p: (BlockId, T)| p.0);
    let vals = r.map_values(|p: (BlockId, T)| p.1);
    &&& changing_rounds(g, init, step, keys, rounds)
    &&& rounds.len() <= g.n() + 11
    &&& next_states(g, step, keys, rounds.last(), vals)
    &&& same_states(vals, rounds.last())
}

/// A run over the blocks `keys` (in depth-first postorder, reversed when
/// asked) whose `blocks.len() + 12` rounds all differ from the round before.
#[verifier::opaque]
pub open spec fn unsettled_run<T: PartialEq, I: Fn(&BasicBlock) -> T, S: Fn(&BasicBlock, &T, &[&T], &[&T]) -> T>(
    g: GraphBuilder,
    reverse: bool,
    init: I,
    step: S,
    keys: Seq<BlockId>,
    rounds: Seq<Seq<T>>,
) -> bool {
    &&& keys == dataflow_order(g, reverse)
    &&& is_dfs_postorder(g, if reverse { keys.reverse() } else { keys })
    &&& changing_rounds(g, init, step, keys, rounds)
    &&& rounds.len() == g.n() + 12
}

proof fn lemma_pos(keys: Seq<BlockId>, j: int)
    requires
        distinct_blocks(keys),
        0 <= j < keys.len(),
    ensures
        pos(keys, keys[j].0 as int) == j,
{
    let b = BlockId(keys[j].0);
    assert(keys[j] == b);
    assert(keys.contains(b));
    let i = keys.index_of(b);
    assert(keys[i] == b);
    if i != j {
        if i < j {
            assert(keys[i].0 != keys[j].0);
        } else {
            assert(keys[j].0 != keys[i].0);
        }
    }
}

/// The blocks reachable from the entry, in the solver's order, each with
/// its state in the fixed point; see `dataflow`.
fn dataflow_pairs<T: PartialEq, I: Fn(&BasicBlock) -> T, S: Fn(&BasicBlock, &T, &[&T], &[&T]) -> T>(
    g: &GraphBuilder,
    reverse: bool,
    init: I,
    step: S,
) -> (res: Option<Vec<(BlockId, T)>>)
    requires
        g.wf(),
        preds_reachable(*g),
        forall|i: int| 0 <= i < g.n() ==> call_requires(init, (&g.blocks@[i],)),
        forall|i: int, s: &T, ins: &[&T], outs: &[&T]| 0 <= i < g.n() ==> call_requires(step, (&g.blocks@[i], s, ins, outs)),
    ensures
        res matches Some(r) ==> dataflow_fixpoint(*g, reverse, step, r@),
        T::obeys_eq_spec() ==> match res {
            Some(r) => exists|rounds: Seq<Seq<T>>| #[trigger] converged_run(*g, init, step, r@, rounds),
            None => exists|keys: Seq<BlockId>, rounds: Seq<Seq<T>>| #[trigger] unsettled_run(*g, reverse, init, step, keys, rounds),
        },
{
    let post = postorder(g);
    let ghost p = post@;
    let order = if reverse { reversed(post) } else { post };
    let ghost keys = order@;
    assert(keys == dataflow_order(*g, reverse));
    proof {
        if reverse {
            assert(keys.reverse() == p);
            assert(distinct_blocks(keys)) by {
                assert forall|i: int, j: int| 0 <= i < j < keys.len() implies keys[i].0 != keys[j].0 by {
                    assert(keys[i] == p[keys.len() - 1 - i]);
                    assert(keys[j] == p[keys.len() - 1 - j]);
                }
            }
            assert forall|j: int| 0 <= j < keys.len() implies 0 <= #[trigger] keys[j].0 < g.n() by {
                assert(keys[j] == p[keys.len() - 1 - j]);
            }
            assert forall|v: int| 0 <= v < g.n() implies (occurs(keys, v) <==> g.reachable(v)) by {
                if occurs(keys, v) {
                    let j = choose|j: int| 0 <= j < keys.len() && #[trigger] keys[j].0 == v;
                    assert(p[keys.len() - 1 - j] == keys[j]);
                }
                if occurs(p, v) {
                    let j = choose|j: int| 0 <= j < p.len() && #[trigger] p[j].0 == v;
                    assert(keys[keys.len() - 1 - j] == p[j]);
                }
            }
        }
    }
    let n = g.blocks.len();
    let mut lookup: Vec<usize> = vec![usize::MAX; n];
    let mut i: usize = 0;
    while i < order.len()
        invariant
            g.wf(),
            n == g.n(),
            keys == order@,
            distinct_blocks(keys),
            forall|j: int| 0 <= j < keys.len() ==> 0 <= #[trigger] keys[j].0 < g.n(),
            i <= keys.len(),
            lookup@.len() == n,
            forall|j: int| 0 <= j < i ==> lookup@[#[trigger] keys[j].0 as int] == j,
        decreases keys.len() - i,
    {
        let ghost before = lookup@;
        lookup.set(order[i].0 as usize, i);
        assert forall|j: int| 0 <= j < i + 1 implies lookup@[#[trigger] keys[j].0 as int] == j by {
            if j < i {
                assert(keys[j].0 != keys[i as int].0);
            }
        }
        i += 1;
    }
    proof {
        assert forall|j: int| 0 <= j < keys.len() implies lookup@[#[trigger] keys[j].0 as int] == pos(keys, keys[j].0 as int) by {
            lemma_pos(keys, j);
        }
    }

    let mut state: Vec<T> = Vec::new();
    let mut i: usize = 0;
    while i < order.len()
        invariant
            g.wf(),
            keys == order@,
            forall|j: int| 0 <= j < keys.len() ==> 0 <= #[trigger] keys[j].0 < g.n(),
            forall|i: int| 0 <= i < g.n() ==> call_requires(init, (&g.blocks@[i],)),
            i <= keys.len(),
            state@.len() == i,
            forall|j: int| 0 <= j < i ==> #[trigger] initialized(*g, init, keys, j, state@[j]),
        decreases keys.len() - i,
    {
        let b = g.block_(order[i]);
        let v = init(b);
        assert(initialized(*g, init, keys, i as int, v));
        state.push(v);
        i += 1;
    }

    let mut iters: u64 = 0;
    let ghost mut rounds: Seq<Seq<T>> = seq![state@];
    assert(initial_states(*g, init, keys, rounds[0]));
    loop
        invariant
            rounds.len() == iters + 1,
            rounds.last() == state@,
            initial_states(*g, init, keys, rounds[0]),
            forall|k: int| 0 <= k < rounds.len() - 1 ==> #[trigger] stepped_round(*g, step, keys, rounds, k),
            T::obeys_eq_spec() ==> forall|k: int| 0 <= k < rounds.len() - 1 ==> #[trigger] changed_round(rounds, k),
            is_dfs_postorder(*g, p),
            keys == dataflow_order(*g, reverse),
            reverse ==> keys.reverse() == p,
            !reverse ==> keys == p,
            g.wf(),
            preds_reachable(*g),
            n == g.n(),
            keys == order@,
            distinct_blocks(keys),
            forall|j: int| 0 <= j < keys.len() ==> 0 <= #[trigger] keys[j].0 < g.n(),
            forall|v: int| 0 <= v < g.n() ==> (occurs(keys, v) <==> g.reachable(v)),
            lookup@.len() == n,
            forall|j: int| 0 <= j < keys.len() ==> lookup@[#[trigger] keys[j].0 as int] == pos(keys, keys[j].0 as int),
            forall|j: int| 0 <= j < keys.len() ==> lookup@[#[trigger] keys[j].0 as int] == j,
            forall|i: int, s: &T, ins: &[&T], outs: &[&T]| 0 <= i < g.n() ==> call_requires(step, (&g.blocks@[i], s, ins, outs)),
            state@.len() == keys.len(),
            iters <= n + 10,
        decreases n + 10 - iters,
    {
        let mut next_state: Vec<T> = Vec::new();
        let mut i: usize = 0;
        while i < order.len()
            invariant
                g.wf(),
                preds_reachable(*g),
                n == g.n(),
                keys == order@,
                distinct_blocks(keys),
                forall|j: int| 0 <= j < keys.len() ==> 0 <= #[trigger] keys[j].0 < g.n(),
                forall|v: int| 0 <= v < g.n() ==> (occurs(keys, v) <==> g.reachable(v)),
                lookup@.len() == n,
                forall|j: int| 0 <= j < keys.len() ==> lookup@[#[trigger] keys[j].0 as int] == pos(keys, keys[j].0 as int),
                forall|j: int| 0 <= j < keys.len() ==> lookup@[#[trigger] keys[j].0 as int] == j,
                forall|i: int, s: &T, ins: &[&T], outs: &[&T]| 0 <= i < g.n() ==> call_requires(step, (&g.blocks@[i], s, ins, outs)),
                state@.len() == keys.len(),
                i <= keys.len(),
                next_state@.len() == i,
                forall|j: int| 0 <= j < i ==> #[trigger] stepped(*g, step, keys, state@, j, next_state@[j]),
            decreases keys.len() - i,
        {
            let bid = order[i];
            let b = g.block_(bid);
            proof {
                assert(occurs(keys, bid.0 as int));
                assert(g.reachable(bid.0 as int));
            }
            let mut ins: Vec<&T> = Vec::new();
            let mut k: usize = 0;
            while k < b.incoming_jumps.len()
                invariant
                    g.wf(),
                    preds_reachable(*g),
                    n == g.n(),
                    *b == g.blocks@[bid.0 as int],
                    0 <= bid.0 < n,
                    g.reachable(bid.0 as int),
                    forall|v: int| 0 <= v < g.n() ==> (occurs(keys, v) <==> g.reachable(v)),
                    lookup@.len() == n,
                    forall|j: int| 0 <= j < keys.len() ==> lookup@[#[trigger] keys[j].0 as int] == pos(keys, keys[j].0 as int),
                    forall|j: int| 0 <= j < keys.len() ==> lookup@[#[trigger] keys[j].0 as int] == j,
                    state@.len() == keys.len(),
                    k <= b.incoming_jumps@.len(),
                    ins@.len() == k,
                    forall|m: int| 0 <= m < k ==> *#[trigger] ins@[m] == state@[pos(keys, b.incoming_jumps@[m].0.0 as int)],
                decreases b.incoming_jumps@.len() - k,
            {
                let src = b.incoming_jumps[k].0.0;
                proof {
                    assert(g.reachable(src as int));
                    assert(occurs(keys, src as int));
                    let j = choose|j: int| 0 <= j < keys.len() && #[trigger] keys[j].0 == src as int;
                    assert(lookup@[keys[j].0 as int] == j);
                }
                ins.push(&state[lookup[src as usize]]);
                k += 1;
            }
            let mut outs: Vec<&T> = Vec::new();
            let mut k: usize = 0;
            while k < b.outgoing_jumps.len()
                invariant
                    g.wf(),
                    n == g.n(),
                    *b == g.blocks@[bid.0 as int],
                    0 <= bid.0 < n,
                    g.reachable(bid.0 as int),
                    forall|v: int| 0 <= v < g.n() ==> (occurs(keys, v) <==> g.reachable(v)),
                    lookup@.len() == n,
                    forall|j: int| 0 <= j < keys.len() ==> lookup@[#[trigger] keys[j].0 as int] == pos(keys, keys[j].0 as int),
                    forall|j: int| 0 <= j < keys.len() ==> lookup@[#[trigger] keys[j].0 as int] == j,
                    state@.len() == keys.len(),
                    k <= b.outgoing_jumps@.len(),
                    outs@.len() == k,
                    forall|m: int| 0 <= m < k ==> *#[trigger] outs@[m] == state@[pos(keys, b.outgoing_jumps@[m].1.0 as int)],
                decreases b.outgoing_jumps@.len() - k,
            {
                let dst = b.outgoing_jumps[k].1.0;
                proof {
                    let u = bid.0 as int;
                    assert(g.target(u, k as int) == dst);
                    assert(g.edge(u, dst as int));
                    let pth = choose|pth: Seq<int>| #[trigger] g.is_path(pth) && pth[0] == 0 && pth.last() == u;
                    lemma_path_extend(*g, pth, dst as int);
                    assert(g.is_path(pth.push(dst as int)));
                    assert(g.reachable(dst as int));
                    assert(occurs(keys, dst as int));
                    let j = choose|j: int| 0 <= j < keys.len() && #[trigger] keys[j].0 == dst as int;
                    assert(lookup@[keys[j].0 as int] == j);
                }
                outs.push(&state[lookup[dst as usize]]);
                k += 1;
            }
            let ins_s = ins.as_slice();
            let outs_s = outs.as_slice();
            let v = step(b, &state[i], ins_s, outs_s);
            proof {
                assert(ins_match(keys, state@, *b, ins_s@));
                assert(outs_match(keys, state@, *b, outs_s@));
                assert(stepped(*g, step, keys, state@, i as int, v));
            }
            next_state.push(v);
            i += 1;
        }

        let mut same = true;
        let mut j: usize = 0;
        while j < next_state.len()
            invariant_except_break
                same,
            invariant
                next_state@.len() == state@.len(),
                j <= next_state@.len(),
                T::obeys_eq_spec() ==> forall|m: int| 0 <= m < j ==> next_state@[m].eq_spec(&state@[m]),
            ensures
                same ==> (T::obeys_eq_spec() ==> forall|m: int| 0 <= m < next_state@.len() ==> next_state@[m].eq_spec(&state@[m])),
                !same ==> (T::obeys_eq_spec() ==> !same_states(next_state@, state@)),
            decreases next_state@.len() - j,
        {
            if !(next_state[j] == state[j]) {
                same = false;
                proof {
                    if T::obeys_eq_spec() {
                        assert(!next_state@[j as int].eq_spec(&state@[j as int]));
                    }
                }
                break;
            }
            j += 1;
        }

        proof {
            assert(next_states(*g, step, keys, state@, next_state@));
        }
        if same {
            let ghost st = state@;
            let ghost nx = next_state@;
            let mut out: Vec<(BlockId, T)> = Vec::new();
            let olen = order.len();
            let mut i: usize = 0;
            for v in it: next_state
                invariant
                    nx == it.seq(),
                    keys == order@,
                    nx.len() == keys.len(),
                    olen == keys.len(),
                    i == it.index(),
                    out@.len() == i,
                    forall|m: int| 0 <= m < i ==> #[trigger] out@[m] == (keys[m], nx[m]),
            {
                out.push((order[i], v));
                i += 1;
            }
            proof {
                let r = out@;
                let rk = r.map_values(|p: (BlockId, T)| p.0);
                assert(rk == keys);
                assert forall|m: int| 0 <= m < r.len() implies #[trigger] stepped(*g, step, keys, st, m, r[m].1) by {
                    assert(r[m] == (keys[m], nx[m]));
                }
                assert(st.len() == r.len());
                if reverse {
                    assert(keys.reverse() == p);
                } else {
                    assert(keys == p);
                }
                assert(dataflow_fixpoint(*g, reverse, step, r));
                let vals = r.map_values(|p: (BlockId, T)| p.1);
                assert(vals == nx);
                if T::obeys_eq_spec() {
                    assert(same_states(vals, rounds.last()));
                    assert(changing_rounds(*g, init, step, rk, rounds));
                    assert(converged_run(*g, init, step, out@, rounds));
                    assert(exists|rs: Seq<Seq<T>>| #[trigger] converged_run(*g, init, step, out@, rs));
                }
            }
            assert(T::obeys_eq_spec() ==> converged_run(*g, init, step, out@, rounds));
            let result = Some(out);
            assert(T::obeys_eq_spec() ==> converged_run(*g, init, step, result->0@, rounds));
            assert(T::obeys_eq_spec() ==> exists|rs: Seq<Seq<T>>| #[trigger] converged_run(*g, init, step, result->0@, rs));
            return result;
        }
        proof {
            let nr = rounds.push(next_state@);
            assert forall|k: int| 0 <= k < nr.len() - 1 implies #[trigger] stepped_round(*g, step, keys, nr, k) by {
                if k < rounds.len() - 1 {
                    assert(stepped_round(*g, step, keys, rounds, k));
                }
            }
            if T::obeys_eq_spec() {
                assert forall|k: int| 0 <= k < nr.len() - 1 implies #[trigger] changed_round(nr, k) by {
                    if k < rounds.len() - 1 {
                        assert(changed_round(rounds, k));
                    } else {
                        assert(!same_states(next_state@, state@));
                    }
                }
            }
            rounds = nr;
        }

        state = next_state;
        if iters >= n as u64 + 10 {
            proof {
                if T::obeys_eq_spec() {
                    assert(changing_rounds(*g, init, step, keys, rounds));
                    if reverse {
                        assert(keys.reverse() == p);
                    }
                    assert(unsettled_run(*g, reverse, init, step, keys, rounds)) by {
                        reveal(unsettled_run);
                    }
                }
            }
            return None;
        }
        iters += 1;
    }
}

/// The map of a sequence of pairs: the later of two pairs with the same key wins.
pub open spec fn pairs_map<T>(r: Seq<(BlockId, T)>) -> Map<BlockId, T>
    decreases r.len(),
{
    if r.len() == 0 {
        Map::empty()
    } else {
        pairs_map(r.drop_last()).insert(r.last().0, r.last().1)
    }
}

/// `m` maps each reachable block to its state in the converged run `r`.
#[verifier::opaque]
pub open spec fn solved<T: PartialEq, I: Fn(&BasicBlock) -> T, S: Fn(&BasicBlock, &T, &[&T], &[&T]) -> T>(
    g: GraphBuilder,
    reverse: bool,
    init: I,
    step: S,
    r: Seq<(BlockId, T)>,
    m: Map<BlockId, T>,
) -> bool {
    &&& m == pairs_map(r)
    &&& dataflow_fixpoint(g, reverse, step, r)
    &&& T::obeys_eq_spec() ==> exists|rounds: Seq<Seq<T>>| #[trigger] converged_run(g, init, step, r, rounds)
}

/// Solves a data-flow problem over the blocks reachable from the entry by
/// iterating from the initial states until nothing changes. Each round steps
/// every block (in postorder, or reverse postorder when `reverse`) from its
/// state in the previous round and the previous states of its predecessors
/// and successors. Returns the fixed point reached, block by block; `None`
/// when each of the first `blocks.len() + 11` rounds still changed a state.
pub fn dataflow<T: PartialEq, I: Fn(&BasicBlock) -> T, S: Fn(&BasicBlock, &T, &[&T], &[&T]) -> T>(
    g: &GraphBuilder,
    reverse: bool,
    init: I,
    step: S,
) -> (res: Option<rustc_hash::FxHashMap<BlockId, T>>)
    requires
        g.wf(),
        preds_reachable(*g),
        forall|i: int| 0 <= i < g.n() ==> call_requires(init, (&g.blocks@[i],)),
        forall|i: int, s: &T, ins: &[&T], outs: &[&T]| 0 <= i < g.n() ==> call_requires(step, (&g.blocks@[i], s, ins, outs)),
    ensures
        res matches Some(m) ==> exists|r: Seq<(BlockId, T)>| #[trigger] solved(*g, reverse, init, step, r, m@),
        T::obeys_eq_spec() && res is None ==>
            exists|keys: Seq<BlockId>, rounds: Seq<Seq<T>>| #[trigger] unsettled_run(*g, reverse, init, step, keys, rounds),
{
    match dataflow_pairs(g, reverse, init, step) {
        None => None,
        Some(pairs) => {
            let ghost r = pairs@;
            let mut m: rustc_hash::FxHashMap<BlockId, T> = rustc_hash::FxHashMap::default();
            for pair in it: pairs
                invariant
                    r == it.seq(),
                    m@ == pairs_map(r.take(it.index() as int)),
            {
                proof {
                    let i = it.index() as int;
                    assert(r.take(i + 1).drop_last() == r.take(i));
                    assert(r[i] == pair);
                }
                let (b, v) = pair;
                crate::stdlib::fx_map_insert(&mut m, b, v);
            }
            assert(r.take(r.len() as int) == r);
            assert(solved(*g, reverse, init, step, r, m@)) by {
                reveal(solved);
            }
            let result = Some(m);
            assert(solved(*g, reverse, init, step, r, result->0@));
            assert(exists|rr: Seq<(BlockId, T)>| #[trigger] solved(*g, reverse, init, step, rr, result->0@));
            result
        }
    }
}


/// Sum of the upper bounds of the ranges of the given values.
pub open spec fn ends_sum(g: GraphBuilder, vals: Seq<ValueId>) -> int
    decreases vals.len(),
{
    if vals.len() == 0 {
        0
    } else {
        ends_sum(g, vals.drop_last()) + g.values@[vals.last().0 as int].range@.end
    }
}

/// Whether an instruction counts executed source instructions.
pub open spec fn is_increment(i: OptInstr) -> bool {
    i.op matches OptOp::KsplangOpsIncrement(_)
}

/// What the counting instructions of a block add at most: the upper bounds of
/// their inputs, summed.
pub open spec fn increments(g: GraphBuilder, instrs: Seq<OptInstr>) -> int
    decreases instrs.len(),
{
    if instrs.len() == 0 {
        0
    } else {
        increments(g, instrs.drop_last()) + if is_increment(instrs.last()) { ends_sum(g, instrs.last().inputs@) } else { 0 }
    }
}

/// The most source instructions block `b` executes.
pub open spec fn block_weight(g: GraphBuilder, b: int) -> int {
    g.blocks@[b].ksplang_instr_count + increments(g, g.blocks@[b].instructions@)
}

/// The sum of the values `val` gives the listed values.
pub open spec fn vals_total(vals: Seq<ValueId>, val: spec_fn(ValueId) -> int) -> int
    decreases vals.len(),
{
    if vals.len() == 0 { 0 } else { vals_total(vals.drop_last(), val) + val(vals.last()) }
}

/// The source instructions counted by the instructions `instrs` on a run:
/// each `KsplangOpsIncrement`, whatever its condition, that `fires` selects
/// (by its index) adds its inputs' values.
pub open spec fn run_increments(instrs: Seq<OptInstr>, fires: spec_fn(int) -> bool, val: spec_fn(ValueId) -> int) -> int
    decreases instrs.len(),
{
    if instrs.len() == 0 {
        0
    } else {
        run_increments(instrs.drop_last(), fires, val) + match instrs.last().op {
            OptOp::KsplangOpsIncrement(_) => if fires(instrs.len() - 1) { vals_total(instrs.last().inputs@, val) } else { 0 },
            _ => 0,
        }
    }
}

/// The inputs of every counting instruction have a value, not above the
/// upper bound of its range and not negative (a count).
pub open spec fn counts_in_ranges(g: GraphBuilder, instrs: Seq<OptInstr>, val: spec_fn(ValueId) -> int) -> bool {
    forall|j: int, k: int| 0 <= j < instrs.len() && (instrs[j].op is KsplangOpsIncrement) && 0 <= k < instrs[j].inputs@.len() ==>
        0 <= val(#[trigger] instrs[j].inputs@[k]) <= g.values@[instrs[j].inputs@[k].0 as int].range@.end
}

/// The sum over values within their ranges is at most the sum of the upper bounds.
proof fn lemma_vals_total_le(g: GraphBuilder, vals: Seq<ValueId>, val: spec_fn(ValueId) -> int)
    requires
        forall|k: int| 0 <= k < vals.len() ==> 0 <= val(#[trigger] vals[k]) <= g.values@[vals[k].0 as int].range@.end,
    ensures
        0 <= vals_total(vals, val) <= ends_sum(g, vals),
    decreases vals.len(),
{
    if vals.len() > 0 {
        let d = vals.drop_last();
        assert forall|k: int| 0 <= k < d.len() implies 0 <= val(#[trigger] d[k]) <= g.values@[d[k].0 as int].range@.end by {
            assert(d[k] == vals[k]);
        }
        lemma_vals_total_le(g, d, val);
        assert(vals.last() == vals[vals.len() - 1]);
    }
}

/// What counting instructions add on a run is at most what they add at most.
proof fn lemma_run_increments_le(g: GraphBuilder, instrs: Seq<OptInstr>, fires: spec_fn(int) -> bool, val: spec_fn(ValueId) -> int)
    requires
        counts_in_ranges(g, instrs, val),
    ensures
        run_increments(instrs, fires, val) <= increments(g, instrs),
    decreases instrs.len(),
{
    if instrs.len() > 0 {
        let d = instrs.drop_last();
        let l = instrs.len() - 1;
        assert forall|j: int, k: int| 0 <= j < d.len() && (d[j].op is KsplangOpsIncrement) && 0 <= k < d[j].inputs@.len() implies
            0 <= val(#[trigger] d[j].inputs@[k]) <= g.values@[d[j].inputs@[k].0 as int].range@.end by {
            assert(d[j] == instrs[j]);
        }
        lemma_run_increments_le(g, d, fires, val);
        assert(instrs.last() == instrs[l]);
        if instrs[l].op is KsplangOpsIncrement {
            assert forall|k: int| 0 <= k < instrs[l].inputs@.len() implies
                0 <= val(#[trigger] instrs[l].inputs@[k]) <= g.values@[instrs[l].inputs@[k].0 as int].range@.end by {}
            lemma_vals_total_le(g, instrs[l].inputs@, val);
        }
    }
}

/// The weight of a block bounds the source instructions it executes on every
/// run: its own count plus, for each `KsplangOpsIncrement` that runs,
/// whatever its condition, the values of its inputs, each within its range
/// and not negative.
pub proof fn lemma_weight_bounds_runs(g: GraphBuilder, b: int, fires: spec_fn(int) -> bool, val: spec_fn(ValueId) -> int)
    requires
        0 <= b < g.n(),
        counts_in_ranges(g, g.blocks@[b].instructions@, val),
    ensures
        g.blocks@[b].ksplang_instr_count + run_increments(g.blocks@[b].instructions@, fires, val) <= block_weight(g, b),
{
    lemma_run_increments_le(g, g.blocks@[b].instructions@, fires, val);
}

/// `x` fits in `i64`.
pub open spec fn fits_i64(x: int) -> bool {
    i64::MIN <= x <= i64::MAX
}

/// Summing the upper bounds of the ranges of `vals`, in order, never leaves `i64`.
pub open spec fn ends_fit(g: GraphBuilder, vals: Seq<ValueId>) -> bool {
    forall|k: int| 0 <= k <= vals.len() ==> fits_i64(#[trigger] ends_sum(g, vals.take(k)))
}

/// Computing the weight of block `b` never leaves `i64`: neither the sum for
/// one counting instruction, nor the running total of those sums, nor the
/// block's own count added to it.
pub open spec fn weight_fits(g: GraphBuilder, b: int) -> bool {
    let instrs = g.blocks@[b].instructions@;
    &&& forall|j: int| 0 <= j < instrs.len() && is_increment(instrs[j]) ==> ends_fit(g, #[trigger] instrs[j].inputs@)
    &&& forall|j: int| 0 <= j <= instrs.len() ==> fits_i64(#[trigger] increments(g, instrs.take(j)))
    &&& fits_i64(block_weight(g, b))
}

/// The weights of all blocks are computed without leaving `i64`.
pub open spec fn weights_fit(g: GraphBuilder) -> bool {
    forall|b: int| 0 <= b < g.n() ==> #[trigger] weight_fits(g, b)
}

/// The largest element of `s`; 0 for an empty sequence.
pub open spec fn max_or_zero(s: Seq<i64>) -> int
    decreases s.len(),
{
    if s.len() == 0 {
        0
    } else if s.len() == 1 {
        s[0] as int
    } else {
        vstd::math::max(max_or_zero(s.drop_last()), s.last() as int)
    }
}

/// The values held at the predecessors of `v`, one per jump into `v`.
pub open spec fn pred_values(g: GraphBuilder, r: Seq<(BlockId, i64)>, v: int) -> Seq<i64> {
    let keys = r.map_values(|p: (BlockId, i64)| p.0);
    Seq::new(g.blocks@[v].incoming_jumps@.len(), |k: int| r[pos(keys, g.blocks@[v].incoming_jumps@[k].0.0 as int)].1)
}

/// `r` gives each reachable block (in depth-first postorder) the most source
/// instructions executed up to and including it: its own weight plus the
/// largest value among its predecessors (saturating at the bounds of `i64`).
pub open spec fn longest_counts(g: GraphBuilder, r: Seq<(BlockId, i64)>) -> bool {
    &&& is_dfs_postorder(g, r.map_values(|p: (BlockId, i64)| p.0))
    &&& forall|i: int| 0 <= i < r.len() ==>
        (#[trigger] r[i]).1 == clamp_i64(block_weight(g, r[i].0.0 as int) + max_or_zero(pred_values(g, r, r[i].0.0 as int)))
}

/// The largest second component, or 0 if that is larger.
pub open spec fn max_count(r: Seq<(BlockId, i64)>) -> int
    decreases r.len(),
{
    if r.len() == 0 {
        0
    } else {
        vstd::math::max(max_count(r.drop_last()), r.last().1 as int)
    }
}

/// The counts after `k` rounds of the solver that `get_max_instructions_executed`
/// runs: every block starts at its weight, and a round sets each block to its
/// weight plus the largest count among its predecessors (0 without any),
/// saturating at the bounds of `i64`.
pub open spec fn count_after(g: GraphBuilder, k: nat, v: int) -> i64
    decreases k, 0nat,
{
    if k == 0 {
        block_weight(g, v) as i64
    } else {
        clamp_i64(block_weight(g, v) + max_or_zero(pred_counts(g, (k - 1) as nat, v))) as i64
    }
}

/// The counts after `k` rounds of the blocks that jump to `v`, one per jump.
pub open spec fn pred_counts(g: GraphBuilder, k: nat, v: int) -> Seq<i64>
    decreases k, 1nat,
{
    Seq::new(
        g.blocks@[v].incoming_jumps@.len(),
        |j: int| count_after(g, k, g.blocks@[v].incoming_jumps@[j].0.0 as int),
    )
}

/// Round `k + 1` leaves the count of every reachable block as round `k` left it.
pub open spec fn settles_at(g: GraphBuilder, k: nat) -> bool {
    forall|v: int| 0 <= v < g.n() && g.reachable(v) ==> #[trigger] count_after(g, k + 1, v) == count_after(g, k, v)
}

/// `m` is the largest count of a reachable block after `k` rounds, or 0 when
/// that is larger.
pub open spec fn max_count_after(g: GraphBuilder, k: nat, m: int) -> bool {
    &&& m >= 0
    &&& forall|v: int| 0 <= v < g.n() && g.reachable(v) ==> #[trigger] count_after(g, k, v) <= m
    &&& m == 0 || exists|v: int| 0 <= v < g.n() && g.reachable(v) && #[trigger] count_after(g, k, v) == m
}

/// `keys` lists each reachable block once, and nothing else.
pub open spec fn block_keys(g: GraphBuilder, keys: Seq<BlockId>) -> bool {
    &&& distinct_blocks(keys)
    &&& forall|j: int| 0 <= j < keys.len() ==> 0 <= #[trigger] keys[j].0 < g.n()
    &&& forall|v: int| 0 <= v < g.n() ==> (occurs(keys, v) <==> g.reachable(v))
}

/// What the closures of `get_max_instructions_executed` give.
#[verifier::opaque]
pub open spec fn counting_init<I: Fn(&BasicBlock) -> i64>(g: GraphBuilder, init: I) -> bool {
    forall|b: &BasicBlock, v: i64| b.id.0 < g.n() && #[trigger] call_ensures(init, (b,), v) ==> v == count_after(g, 0, b.id.0 as int)
}

/// See `counting_init`.
#[verifier::opaque]
pub open spec fn counting_step<S: Fn(&BasicBlock, &i64, &[&i64], &[&i64]) -> i64>(g: GraphBuilder, step: S) -> bool {
    forall|b: &BasicBlock, s: &i64, ins: &[&i64], outs: &[&i64], r: i64|
        b.id.0 < g.n() && #[trigger] call_ensures(step, (b, s, ins, outs), r)
        ==> r == clamp_i64(block_weight(g, b.id.0 as int) + max_or_zero(ins@.map_values(|x: &i64| *x)))
}

/// One round of the counting step takes the counts after `k` rounds to those after `k + 1`.
proof fn lemma_count_step<S: Fn(&BasicBlock, &i64, &[&i64], &[&i64]) -> i64>(
    g: GraphBuilder,
    step: S,
    keys: Seq<BlockId>,
    st: Seq<i64>,
    nx: Seq<i64>,
    k: nat,
)
    requires
        g.wf(),
        preds_reachable(g),
        block_keys(g, keys),
        counting_step(g, step),
        st.len() == keys.len(),
        forall|i: int| 0 <= i < keys.len() ==> #[trigger] st[i] == count_after(g, k, keys[i].0 as int),
        next_states(g, step, keys, st, nx),
    ensures
        forall|i: int| 0 <= i < keys.len() ==> #[trigger] nx[i] == count_after(g, k + 1, keys[i].0 as int),
{
    reveal(counting_step);
    assert forall|i: int| 0 <= i < keys.len() implies #[trigger] nx[i] == count_after(g, k + 1, keys[i].0 as int) by {
        assert(stepped(g, step, keys, st, i, nx[i]));
        let (b, s, ins, outs) = choose|b: &BasicBlock, s: &i64, ins: &[&i64], outs: &[&i64]|
            *b == g.blocks@[keys[i].0 as int] && *s == st[i]
            && ins_match(keys, st, *b, ins@) && outs_match(keys, st, *b, outs@)
            && #[trigger] call_ensures(step, (b, s, ins, outs), nx[i]);
        let v = keys[i].0 as int;
        assert(b.id == BlockId(v as u32));
        assert(occurs(keys, v));
        let preds = pred_counts(g, k, v);
        assert(ins@.map_values(|x: &i64| *x) == preds) by {
            assert forall|j: int| 0 <= j < ins@.len() implies ins@.map_values(|x: &i64| *x)[j] == preds[j] by {
                let u = g.blocks@[v].incoming_jumps@[j].0.0 as int;
                assert(g.reachable(u));
                assert(occurs(keys, u));
                let jj = choose|jj: int| 0 <= jj < keys.len() && #[trigger] keys[jj].0 == u;
                lemma_pos(keys, jj);
                assert(*ins@[j] == st[jj]);
            }
        }
    }
}

/// The rounds of a run of the counting solver are the counts after as many rounds.
proof fn lemma_count_rounds<I: Fn(&BasicBlock) -> i64, S: Fn(&BasicBlock, &i64, &[&i64], &[&i64]) -> i64>(
    g: GraphBuilder,
    init: I,
    step: S,
    keys: Seq<BlockId>,
    rounds: Seq<Seq<i64>>,
    k: int,
)
    requires
        g.wf(),
        preds_reachable(g),
        block_keys(g, keys),
        counting_init(g, init),
        counting_step(g, step),
        rounds.len() >= 1,
        initial_states(g, init, keys, rounds[0]),
        forall|k: int| 0 <= k < rounds.len() - 1 ==> #[trigger] stepped_round(g, step, keys, rounds, k),
        0 <= k < rounds.len(),
    ensures
        rounds[k].len() == keys.len(),
        forall|i: int| 0 <= i < keys.len() ==> #[trigger] rounds[k][i] == count_after(g, k as nat, keys[i].0 as int),
    decreases k,
{
    reveal(counting_init);
    if k == 0 {
        assert forall|i: int| 0 <= i < keys.len() implies #[trigger] rounds[0][i] == count_after(g, 0, keys[i].0 as int) by {
            assert(initialized(g, init, keys, i, rounds[0][i]));
            let b = choose|b: &BasicBlock| *b == g.blocks@[keys[i].0 as int] && #[trigger] call_ensures(init, (b,), rounds[0][i]);
            assert(b.id == BlockId(keys[i].0));
        }
    } else {
        lemma_count_rounds(g, init, step, keys, rounds, k - 1);
        assert(stepped_round(g, step, keys, rounds, k - 1));
        lemma_count_step(g, step, keys, rounds[k - 1], rounds[k], (k - 1) as nat);
    }
}

/// A round of a counting run that changed some state shows that the counts
/// had not settled at that round.
proof fn lemma_changed_not_settled<I: Fn(&BasicBlock) -> i64, S: Fn(&BasicBlock, &i64, &[&i64], &[&i64]) -> i64>(
    g: GraphBuilder,
    init: I,
    step: S,
    keys: Seq<BlockId>,
    rounds: Seq<Seq<i64>>,
    j: int,
)
    requires
        g.wf(),
        preds_reachable(g),
        block_keys(g, keys),
        counting_init(g, init),
        counting_step(g, step),
        rounds.len() >= 1,
        initial_states(g, init, keys, rounds[0]),
        forall|k: int| 0 <= k < rounds.len() - 1 ==> #[trigger] stepped_round(g, step, keys, rounds, k),
        0 <= j < rounds.len() - 1,
        changed_round(rounds, j),
    ensures
        !settles_at(g, j as nat),
{
    lemma_count_rounds(g, init, step, keys, rounds, j);
    lemma_count_rounds(g, init, step, keys, rounds, j + 1);
    assert(!same_states(rounds[j + 1], rounds[j]));
    let i = choose|i: int| 0 <= i < rounds[j + 1].len() && !(#[trigger] rounds[j + 1][i]).eq_spec(&rounds[j][i]);
    let v = keys[i].0 as int;
    assert(occurs(keys, v));
    assert(count_after(g, (j + 1) as nat, v) != count_after(g, j as nat, v));
}

/// The largest second component, with 0, is at least 0 and each of them,
/// and is 0 or one of them.
proof fn lemma_max_count(r: Seq<(BlockId, i64)>)
    ensures
        max_count(r) >= 0,
        forall|i: int| 0 <= i < r.len() ==> #[trigger] r[i].1 <= max_count(r),
        max_count(r) == 0 || exists|i: int| 0 <= i < r.len() && #[trigger] r[i].1 == max_count(r),
    decreases r.len(),
{
    if r.len() > 0 {
        let init = r.drop_last();
        lemma_max_count(init);
        assert forall|i: int| 0 <= i < r.len() implies #[trigger] r[i].1 <= max_count(r) by {
            if i < r.len() - 1 {
                assert(init[i] == r[i]);
            }
        }
        if max_count(r) != 0 && max_count(r) == max_count(init) {
            let i = choose|i: int| 0 <= i < init.len() && #[trigger] init[i].1 == max_count(init);
            assert(r[i] == init[i]);
        }
    }
}

/// The largest element, or 0 when that is larger.
pub open spec fn max_with_zero(s: Seq<i64>) -> int
    decreases s.len(),
{
    if s.len() == 0 {
        0
    } else {
        vstd::math::max(max_with_zero(s.drop_last()), s.last() as int)
    }
}

proof fn lemma_max_with_zero(s: Seq<i64>)
    ensures
        max_with_zero(s) >= 0,
        forall|i: int| 0 <= i < s.len() ==> #[trigger] s[i] <= max_with_zero(s),
        max_with_zero(s) == 0 || exists|i: int| 0 <= i < s.len() && #[trigger] s[i] == max_with_zero(s),
    decreases s.len(),
{
    if s.len() > 0 {
        let init = s.drop_last();
        lemma_max_with_zero(init);
        assert forall|i: int| 0 <= i < s.len() implies #[trigger] s[i] <= max_with_zero(s) by {
            if i < s.len() - 1 {
                assert(init[i] == s[i]);
            }
        }
        if max_with_zero(s) != 0 && max_with_zero(s) == max_with_zero(init) {
            let i = choose|i: int| 0 <= i < init.len() && #[trigger] init[i] == max_with_zero(init);
            assert(s[i] == init[i]);
        }
    }
}

/// With distinct keys, the map of the pairs sends each key to its value and
/// has no other key.
proof fn lemma_pairs_map<T>(r: Seq<(BlockId, T)>)
    requires
        distinct_blocks(r.map_values(|p: (BlockId, T)| p.0)),
    ensures
        forall|i: int| #![trigger r[i]] 0 <= i < r.len() ==> pairs_map(r).dom().contains(r[i].0) && pairs_map(r)[r[i].0] == r[i].1,
        forall|k: BlockId| #[trigger] pairs_map(r).dom().contains(k) ==> exists|i: int| 0 <= i < r.len() && #[trigger] r[i].0 == k,
    decreases r.len(),
{
    if r.len() > 0 {
        let init = r.drop_last();
        let keys = r.map_values(|p: (BlockId, T)| p.0);
        let ikeys = init.map_values(|p: (BlockId, T)| p.0);
        assert(distinct_blocks(ikeys)) by {
            assert forall|i: int, j: int| 0 <= i < j < ikeys.len() implies #[trigger] ikeys[i].0 != #[trigger] ikeys[j].0 by {
                assert(keys[i] == r[i].0);
                assert(keys[j] == r[j].0);
                assert(ikeys[i] == init[i].0);
                assert(ikeys[j] == init[j].0);
            }
        }
        lemma_pairs_map(init);
        let last = r.last();
        let pm = pairs_map(init);
        assert(pairs_map(r) == pm.insert(last.0, last.1));
        assert forall|i: int| #![trigger r[i]] 0 <= i < r.len() implies pairs_map(r).dom().contains(r[i].0) && pairs_map(r)[r[i].0] == r[i].1 by {
            if i < r.len() - 1 {
                assert(init[i] == r[i]);
                assert(pm.dom().contains(init[i].0) && pm[init[i].0] == init[i].1);
                assert(keys[i] == r[i].0);
                assert(keys[r.len() - 1] == last.0);
                assert(keys[i].0 != keys[r.len() - 1].0);
            } else {
                assert(r[i] == last);
            }
        }
        assert forall|k: BlockId| #[trigger] pairs_map(r).dom().contains(k) implies exists|i: int| 0 <= i < r.len() && #[trigger] r[i].0 == k by {
            if k != last.0 {
                assert(pm.dom().contains(k));
                let i = choose|i: int| 0 <= i < init.len() && #[trigger] init[i].0 == k;
                assert(r[i] == init[i]);
            } else {
                assert(r[r.len() - 1].0 == k);
            }
        }
    }
}

/// Every value of `vals` is the value of some key of `m`, and the value of
/// every key is among them.
pub open spec fn lists_values(m: Map<BlockId, i64>, vals: Seq<i64>) -> bool {
    &&& forall|i: int| 0 <= i < vals.len() ==> exists|k: BlockId| m.contains_key(k) && #[trigger] vals[i] == m[k]
    &&& forall|k: BlockId| #[trigger] m.contains_key(k) ==> exists|i: int| 0 <= i < vals.len() && vals[i] == m[k]
}

/// The values of the map of pairs with distinct keys have the same largest
/// element as the pairs.
proof fn lemma_values_max(r: Seq<(BlockId, i64)>, m: Map<BlockId, i64>, vals: Seq<i64>)
    requires
        distinct_blocks(r.map_values(|p: (BlockId, i64)| p.0)),
        m == pairs_map(r),
        lists_values(m, vals),
    ensures
        max_with_zero(vals) == max_count(r),
{
    lemma_pairs_map(r);
    lemma_max_count(r);
    lemma_max_with_zero(vals);
    assert forall|j: int| 0 <= j < vals.len() implies vals[j] <= max_count(r) by {
        let k = choose|k: BlockId| m.contains_key(k) && #[trigger] vals[j] == m[k];
        let i = choose|i: int| 0 <= i < r.len() && #[trigger] r[i].0 == k;
        assert(r[i].1 <= max_count(r));
    }
    assert forall|i: int| 0 <= i < r.len() implies #[trigger] r[i].1 <= max_with_zero(vals) by {
        assert(m.contains_key(r[i].0));
        let j = choose|j: int| 0 <= j < vals.len() && vals[j] == m[r[i].0];
        assert(vals[j] <= max_with_zero(vals));
    }
    if max_count(r) != 0 {
        let i = choose|i: int| 0 <= i < r.len() && #[trigger] r[i].1 == max_count(r);
        assert(r[i].1 <= max_with_zero(vals));
    }
    if max_with_zero(vals) != 0 {
        let j = choose|j: int| 0 <= j < vals.len() && #[trigger] vals[j] == max_with_zero(vals);
        assert(vals[j] <= max_count(r));
    }
}

/// The largest element, or 0 when there is none.
fn max_of_refs(s: &[&i64]) -> (m: i64)
    ensures
        m == max_or_zero(s@.map_values(|x: &i64| *x)),
{
    let ghost vs = s@.map_values(|x: &i64| *x);
    if s.len() == 0 {
        return 0;
    }
    let mut m: i64 = *s[0];
    let mut i: usize = 1;
    while i < s.len()
        invariant
            vs == s@.map_values(|x: &i64| *x),
            1 <= i <= s@.len(),
            m == max_or_zero(vs.take(i as int)),
        decreases s@.len() - i,
    {
        assert(vs.take(i + 1).drop_last() == vs.take(i as int));
        if *s[i] > m {
            m = *s[i];
        }
        i += 1;
    }
    assert(vs.take(s@.len() as int) == vs);
    m
}

/// Sum of the upper bounds of the ranges of `vals`.
fn sum_ends(g: &GraphBuilder, instr: &OptInstr, Ghost(b): Ghost<int>, Ghost(j): Ghost<int>) -> (s: i64)
    requires
        g.wf(),
        g.inputs_defined(),
        0 <= b < g.n(),
        0 <= j < g.blocks@[b].instructions@.len(),
        *instr == g.blocks@[b].instructions@[j],
        ends_fit(*g, instr.inputs@),
    ensures
        s == ends_sum(*g, instr.inputs@),
{
    let vals = &instr.inputs;
    let mut s: i64 = 0;
    let mut k: usize = 0;
    assert(vals@.take(0) == Seq::<ValueId>::empty());
    while k < vals.len()
        invariant
            g.wf(),
            g.inputs_defined(),
            0 <= b < g.n(),
            0 <= j < g.blocks@[b].instructions@.len(),
            *vals == g.blocks@[b].instructions@[j].inputs,
            ends_fit(*g, vals@),
            k <= vals@.len(),
            s == ends_sum(*g, vals@.take(k as int)),
        decreases vals@.len() - k,
    {
        let v = vals[k];
        assert(v.0 < g.values@.len());
        let e = *g.val_range_at(v, instr.id).end();
        assert(vals@.take(k + 1).drop_last() == vals@.take(k as int));
        assert(fits_i64(ends_sum(*g, vals@.take(k + 1))));
        s = s + e;
        k += 1;
    }
    assert(vals@.take(vals@.len() as int) == vals@);
    s
}

/// The weight of block `b`: its own instruction count plus what its counting
/// instructions add.
fn compute_block_weight(g: &GraphBuilder, b: &BasicBlock, Ghost(bi): Ghost<int>) -> (w: i64)
    requires
        g.wf(),
        g.inputs_defined(),
        weights_fit(*g),
        0 <= bi < g.n(),
        *b == g.blocks@[bi],
    ensures
        w == block_weight(*g, bi),
{
    let ghost instrs = b.instructions@;
    let mut inc: i64 = 0;
    let mut j: usize = 0;
    assert(weight_fits(*g, bi));
    assert(instrs.take(0) == Seq::<OptInstr>::empty());
    while j < b.instructions.len()
        invariant
            g.wf(),
            g.inputs_defined(),
            0 <= bi < g.n(),
            *b == g.blocks@[bi],
            instrs == b.instructions@,
            weight_fits(*g, bi),
            j <= instrs.len(),
            inc == increments(*g, instrs.take(j as int)),
        decreases instrs.len() - j,
    {
        let instr = &b.instructions[j];
        assert(instrs.take(j + 1).drop_last() == instrs.take(j as int));
        assert(instrs.take(j + 1).last() == *instr);
        assert(fits_i64(increments(*g, instrs.take(j + 1))));
        if let OptOp::KsplangOpsIncrement(_) = instr.op {
            assert(is_increment(instrs[j as int]));
            let e = sum_ends(g, instr, Ghost(bi), Ghost(j as int));
            inc = inc + e;
        }
        j += 1;
    }
    assert(instrs.take(instrs.len() as int) == instrs);
    b.ksplang_instr_count as i64 + inc
}

/// An upper bound on the number of source instructions one run executes: the
/// largest count over the reachable blocks, where a block's count is its
/// weight plus the largest count of its predecessors, once these counts have
/// settled (they then bound the weight of every path from the entry). At
/// least 0. `None` when each of the first `blocks.len() + 11` rounds still
/// changed a count.
pub fn get_max_instructions_executed(g: &GraphBuilder) -> (res: Option<u64>)
    requires
        g.wf(),
        g.inputs_defined(),
        weights_fit(*g),
        preds_reachable(*g),
    ensures
        res matches Some(m) ==> exists|r: Seq<(BlockId, i64)>| longest_counts(*g, r) && m == max_count(r),
        res matches Some(m) ==> exists|k: nat|
            #[trigger] settles_at(*g, k) && k <= g.n() + 10
            && (forall|j: nat| j < k ==> !#[trigger] settles_at(*g, j))
            && max_count_after(*g, k + 1, m as int),
        res is None ==> forall|j: nat| j <= g.n() + 10 ==> !#[trigger] settles_at(*g, j),
{
    let mut block_count: Vec<i64> = Vec::new();
    let mut i: usize = 0;
    while i < g.blocks.len()
        invariant
            g.wf(),
            g.inputs_defined(),
            weights_fit(*g),
            i <= g.n(),
            block_count@.len() == i,
            forall|j: int| 0 <= j < i ==> #[trigger] block_count@[j] == block_weight(*g, j),
        decreases g.n() - i,
    {
        let w = compute_block_weight(g, &g.blocks[i], Ghost(i as int));
        block_count.push(w);
        i += 1;
    }
    let bc = &block_count;
    let init = |b: &BasicBlock| -> (r: i64)
        requires
            b.id.0 < bc@.len(),
        ensures
            r == bc@[b.id.0 as int],
    {
        bc[b.id.0 as usize]
    };
    let step = |b: &BasicBlock, _s: &i64, ins: &[&i64], _outs: &[&i64]| -> (r: i64)
        requires
            b.id.0 < bc@.len(),
        ensures
            r == clamp_i64(bc@[b.id.0 as int] + max_or_zero(ins@.map_values(|x: &i64| *x))),
    {
        bc[b.id.0 as usize].saturating_add(max_of_refs(ins))
    };
    proof {
        assert(counting_init(*g, init)) by {
            reveal(counting_init);
            assert forall|b: &BasicBlock, v: i64| b.id.0 < g.n() && #[trigger] call_ensures(init, (b,), v)
                implies v == count_after(*g, 0, b.id.0 as int) by {
                assert(bc@[b.id.0 as int] == block_weight(*g, b.id.0 as int));
            }
        }
        assert(counting_step(*g, step)) by {
            reveal(counting_step);
            assert forall|b: &BasicBlock, s: &i64, ins: &[&i64], outs: &[&i64], r: i64|
                b.id.0 < g.n() && #[trigger] call_ensures(step, (b, s, ins, outs), r)
                implies r == clamp_i64(block_weight(*g, b.id.0 as int) + max_or_zero(ins@.map_values(|x: &i64| *x))) by {
                assert(bc@[b.id.0 as int] == block_weight(*g, b.id.0 as int));
            }
        }
        assert forall|i: int| 0 <= i < g.n() implies call_requires(init, (&g.blocks@[i],)) by {
            assert(g.blocks@[i].id == BlockId(i as u32));
        }
        assert forall|i: int, s: &i64, ins: &[&i64], outs: &[&i64]| 0 <= i < g.n()
            implies call_requires(step, (&g.blocks@[i], s, ins, outs)) by {
            assert(g.blocks@[i].id == BlockId(i as u32));
        }
    }
    let df = dataflow(g, false, init, step);
    match df {
        None => {
            proof {
                lemma_counts_unsettled(*g, init, step);
            }
            None
        }
        Some(df) => {
            let vals = fx_map_values(&df);
            let mut m: i64 = 0;
            let mut i: usize = 0;
            while i < vals.len()
                invariant
                    i <= vals@.len(),
                    m == max_with_zero(vals@.take(i as int)),
                decreases vals@.len() - i,
            {
                assert(vals@.take(i + 1).drop_last() == vals@.take(i as int));
                if vals[i] > m {
                    m = vals[i];
                }
                i += 1;
            }
            assert(vals@.take(vals@.len() as int) == vals@);
            proof {
                lemma_counts_result(*g, init, step, df@, vals@);
            }
            Some(m as u64)
        }
    }
}


/// When the counting solver does not settle, neither do the counts.
proof fn lemma_counts_unsettled<I: Fn(&BasicBlock) -> i64, S: Fn(&BasicBlock, &i64, &[&i64], &[&i64]) -> i64>(
    g: GraphBuilder,
    init: I,
    step: S,
)
    requires
        g.wf(),
        preds_reachable(g),
        counting_init(g, init),
        counting_step(g, step),
        exists|keys: Seq<BlockId>, rounds: Seq<Seq<i64>>| #[trigger] unsettled_run(g, false, init, step, keys, rounds),
    ensures
        forall|j: nat| j <= g.n() + 10 ==> !#[trigger] settles_at(g, j),
{
    reveal(unsettled_run);
    let (keys, rounds) = choose|keys: Seq<BlockId>, rounds: Seq<Seq<i64>>|
        #[trigger] unsettled_run(g, false, init, step, keys, rounds);
    assert(block_keys(g, keys));
    assert forall|j: nat| j <= g.n() + 10 implies !#[trigger] settles_at(g, j) by {
        assert(changed_round(rounds, j as int));
        lemma_changed_not_settled(g, init, step, keys, rounds, j as int);
    }
}

/// What the counting solver's result says: longest counts, the round at
/// which the counts settle, and their largest value there.
proof fn lemma_counts_result<I: Fn(&BasicBlock) -> i64, S: Fn(&BasicBlock, &i64, &[&i64], &[&i64]) -> i64>(
    g: GraphBuilder,
    init: I,
    step: S,
    m: Map<BlockId, i64>,
    vals: Seq<i64>,
)
    requires
        g.wf(),
        preds_reachable(g),
        counting_init(g, init),
        counting_step(g, step),
        exists|r: Seq<(BlockId, i64)>| #[trigger] solved(g, false, init, step, r, m),
        lists_values(m, vals),
    ensures
        exists|r: Seq<(BlockId, i64)>| longest_counts(g, r) && max_with_zero(vals) == max_count(r),
        exists|k: nat|
            #[trigger] settles_at(g, k) && k <= g.n() + 10
            && (forall|j: nat| j < k ==> !#[trigger] settles_at(g, j))
            && max_count_after(g, k + 1, max_with_zero(vals)),
{
    reveal(solved);
    let r = choose|r: Seq<(BlockId, i64)>| #[trigger] solved(g, false, init, step, r, m);
    assert(dataflow_fixpoint(g, false, step, r));
    lemma_longest_counts(g, step, r);
    assert(is_dfs_postorder(g, r.map_values(|p: (BlockId, i64)| p.0)));
    lemma_values_max(r, m, vals);
    lemma_counts_settle(g, init, step, r, max_with_zero(vals));
}

/// The states of a converged counting run are longest counts.
proof fn lemma_longest_counts<S: Fn(&BasicBlock, &i64, &[&i64], &[&i64]) -> i64>(
    g: GraphBuilder,
    step: S,
    r: Seq<(BlockId, i64)>,
)
    requires
        g.wf(),
        preds_reachable(g),
        counting_step(g, step),
        dataflow_fixpoint(g, false, step, r),
    ensures
        longest_counts(g, r),
{
    reveal(counting_step);
    let keys = r.map_values(|p: (BlockId, i64)| p.0);
    let st = choose|st: Seq<i64>| {
        &&& st.len() == r.len()
        &&& forall|i: int| 0 <= i < r.len() ==> #[trigger] stepped(g, step, keys, st, i, r[i].1)
        &&& i64::obeys_eq_spec() ==> forall|i: int| 0 <= i < r.len() ==> (#[trigger] r[i].1).eq_spec(&st[i])
    };
    assert forall|i: int| 0 <= i < r.len() implies
        (#[trigger] r[i]).1 == clamp_i64(block_weight(g, r[i].0.0 as int) + max_or_zero(pred_values(g, r, r[i].0.0 as int))) by {
        assert(stepped(g, step, keys, st, i, r[i].1));
        let (b, s, ins, outs) = choose|b: &BasicBlock, s: &i64, ins: &[&i64], outs: &[&i64]|
            *b == g.blocks@[keys[i].0 as int] && *s == st[i]
            && ins_match(keys, st, *b, ins@) && outs_match(keys, st, *b, outs@)
            && #[trigger] call_ensures(step, (b, s, ins, outs), r[i].1);
        assert(keys[i] == r[i].0);
        let v = r[i].0.0 as int;
        assert(b.id == BlockId(v as u32));
        assert(ins@.map_values(|x: &i64| *x) == pred_values(g, r, v)) by {
            assert forall|k: int| 0 <= k < ins@.len() implies
                ins@.map_values(|x: &i64| *x)[k] == pred_values(g, r, v)[k] by {
                let u = b.incoming_jumps@[k].0.0 as int;
                let j = pos(keys, u);
                assert(occurs(keys, v)) by {
                    assert(keys[i].0 == v);
                }
                assert(g.reachable(u));
                assert(occurs(keys, u));
                let jj = choose|jj: int| 0 <= jj < keys.len() && #[trigger] keys[jj].0 == u;
                lemma_pos(keys, jj);
                assert(*ins@[k] == st[j]);
                assert(r[j].1.eq_spec(&st[j]));
            }
        }
    }
}

/// The states of a converged counting run settle where the counts after as
/// many rounds do, and their largest is the largest count then.
proof fn lemma_counts_settle<I: Fn(&BasicBlock) -> i64, S: Fn(&BasicBlock, &i64, &[&i64], &[&i64]) -> i64>(
    g: GraphBuilder,
    init: I,
    step: S,
    r: Seq<(BlockId, i64)>,
    m: int,
)
    requires
        g.wf(),
        preds_reachable(g),
        counting_init(g, init),
        counting_step(g, step),
        dataflow_fixpoint(g, false, step, r),
        exists|rounds: Seq<Seq<i64>>| #[trigger] converged_run(g, init, step, r, rounds),
        m == max_count(r),
    ensures
        exists|k: nat|
            #[trigger] settles_at(g, k) && k <= g.n() + 10
            && (forall|j: nat| j < k ==> !#[trigger] settles_at(g, j))
            && max_count_after(g, k + 1, m),
{
    let rounds = choose|rounds: Seq<Seq<i64>>| #[trigger] converged_run(g, init, step, r, rounds);
    let keys = r.map_values(|p: (BlockId, i64)| p.0);
    let vals = r.map_values(|p: (BlockId, i64)| p.1);
    assert(is_dfs_postorder(g, keys));
    assert(block_keys(g, keys));
    let l = rounds.len() as int;
    lemma_count_rounds(g, init, step, keys, rounds, l - 1);
    lemma_count_step(g, step, keys, rounds.last(), vals, (l - 1) as nat);
    let k = (l - 1) as nat;
    assert forall|v: int| 0 <= v < g.n() && g.reachable(v) implies
        #[trigger] count_after(g, k + 1, v) == count_after(g, k, v) by {
        assert(occurs(keys, v));
        let i = choose|i: int| 0 <= i < keys.len() && #[trigger] keys[i].0 == v;
        assert(vals[i].eq_spec(&rounds.last()[i]));
    }
    assert(settles_at(g, k));
    assert forall|j: nat| j < k implies !#[trigger] settles_at(g, j) by {
        assert(changed_round(rounds, j as int));
        lemma_changed_not_settled(g, init, step, keys, rounds, j as int);
    }
    lemma_max_count(r);
    assert forall|v: int| 0 <= v < g.n() && g.reachable(v) implies #[trigger] count_after(g, k + 1, v) <= m by {
        assert(occurs(keys, v));
        let i = choose|i: int| 0 <= i < keys.len() && #[trigger] keys[i].0 == v;
        assert(r[i].1 == vals[i]);
    }
    if m != 0 {
        let i = choose|i: int| 0 <= i < r.len() && #[trigger] r[i].1 == max_count(r);
        assert(r[i].1 == vals[i]);
        assert(keys[i].0 == r[i].0.0);
        assert(occurs(keys, keys[i].0 as int));
        assert(count_after(g, k + 1, keys[i].0 as int) == m);
    }
    assert(max_count_after(g, k + 1, m));
}

/// Every jump is listed at its target: when block `u` jumps to `v`, one of
/// the jumps into `v` comes from `u`.
pub open spec fn jumps_listed(g: GraphBuilder) -> bool {
    forall|u: int, k: int| 0 <= u < g.n() && 0 <= k < g.blocks@[u].outgoing_jumps@.len() ==>
        exists|j: int| 0 <= j < g.blocks@[#[trigger] g.target(u, k)].incoming_jumps@.len()
            && g.blocks@[g.target(u, k)].incoming_jumps@[j].0.0 == u
}

/// No reachable block has a negative weight.
pub open spec fn nonneg_weights(g: GraphBuilder) -> bool {
    forall|v: int| 0 <= v < g.n() && g.reachable(v) ==> #[trigger] block_weight(g, v) >= 0
}

/// Total weight of the blocks along `p`.
pub open spec fn path_weight(g: GraphBuilder, p: Seq<int>) -> int
    decreases p.len(),
{
    if p.len() == 0 {
        0
    } else {
        path_weight(g, p.drop_last()) + block_weight(g, p.last())
    }
}

proof fn lemma_max_or_zero_ge(s: Seq<i64>, j: int)
    requires
        0 <= j < s.len(),
    ensures
        max_or_zero(s) >= s[j],
    decreases s.len(),
{
    if s.len() > 1 && j < s.len() - 1 {
        lemma_max_or_zero_ge(s.drop_last(), j);
    }
}

proof fn lemma_max_or_zero_nonneg(s: Seq<i64>)
    requires
        forall|j: int| 0 <= j < s.len() ==> s[j] >= 0,
    ensures
        max_or_zero(s) >= 0,
    decreases s.len(),
{
    if s.len() > 1 {
        lemma_max_or_zero_nonneg(s.drop_last());
    }
}

/// With weights that are not negative, no count is.
proof fn lemma_counts_nonneg(g: GraphBuilder, k: nat, v: int)
    requires
        g.wf(),
        weights_fit(g),
        preds_reachable(g),
        nonneg_weights(g),
        0 <= v < g.n(),
        g.reachable(v),
    ensures
        count_after(g, k, v) >= 0,
    decreases k,
{
    assert(block_weight(g, v) >= 0);
    assert(weight_fits(g, v));
    if k > 0 {
        let preds = pred_counts(g, (k - 1) as nat, v);
        assert forall|j: int| 0 <= j < preds.len() implies preds[j] >= 0 by {
            let u = g.blocks@[v].incoming_jumps@[j].0.0 as int;
            assert(g.reachable(u));
            lemma_counts_nonneg(g, (k - 1) as nat, u);
        }
        lemma_max_or_zero_nonneg(preds);
    }
}

/// Once the counts have settled, they bound the weight of every path from
/// the entry: the count of the last block of a path is at least the total
/// weight of its blocks, as long as that total fits in `i64`.
proof fn lemma_count_bounds_path(g: GraphBuilder, k: nat, p: Seq<int>)
    requires
        g.wf(),
        weights_fit(g),
        preds_reachable(g),
        jumps_listed(g),
        nonneg_weights(g),
        settles_at(g, k),
        g.is_path(p),
        p[0] == 0,
        path_weight(g, p) <= i64::MAX,
    ensures
        count_after(g, k + 1, p.last()) >= path_weight(g, p),
        forall|i: int| 0 <= i < p.len() ==> g.reachable(#[trigger] p[i]),
    decreases p.len(),
{
    let v = p.last();
    assert(weight_fits(g, v));
    assert(g.reachable(v)) by {
        assert(g.is_path(p) && p[0] == 0 && p.last() == v);
    }
    assert forall|i: int| 0 <= i < p.len() implies g.reachable(#[trigger] p[i]) by {
        lemma_path_prefix_reaches(g, p, i);
    }
    if p.len() == 1 {
        let preds = pred_counts(g, k, v);
        assert forall|j: int| 0 <= j < preds.len() implies preds[j] >= 0 by {
            let u = g.blocks@[v].incoming_jumps@[j].0.0 as int;
            assert(g.reachable(u));
            lemma_counts_nonneg(g, k, u);
        }
        lemma_max_or_zero_nonneg(preds);
        assert(path_weight(g, p) == block_weight(g, v)) by {
            assert(p.drop_last().len() == 0);
            assert(path_weight(g, p.drop_last()) == 0);
        }
    } else {
        let q = p.drop_last();
        let u = q.last();
        assert(g.is_path(q)) by {
            assert forall|i: int| 0 <= i < q.len() implies 0 <= #[trigger] q[i] < g.n() by {
                assert(q[i] == p[i]);
            }
            assert forall|i: int| 0 <= i < q.len() - 1 implies g.edge(#[trigger] q[i], q[i + 1]) by {
                assert(q[i] == p[i]);
                assert(q[i + 1] == p[i + 1]);
            }
        }
        assert(path_weight(g, q) <= path_weight(g, p));
        lemma_count_bounds_path(g, k, q);
        assert(q[q.len() - 1] == p[p.len() - 2]);
        assert(g.edge(u, v)) by {
            assert(g.edge(p[p.len() - 2], p[p.len() - 1]));
        }
        let kk = choose|kk: int| 0 <= kk < g.blocks@[u].outgoing_jumps@.len() && #[trigger] g.target(u, kk) == v;
        assert(g.target(u, kk) == v);
        let j = choose|j: int| 0 <= j < g.blocks@[g.target(u, kk)].incoming_jumps@.len()
            && g.blocks@[g.target(u, kk)].incoming_jumps@[j].0.0 == u;
        let preds = pred_counts(g, k, v);
        lemma_max_or_zero_ge(preds, j);
        assert(preds[j] == count_after(g, k, u));
        assert(count_after(g, k + 1, u) == count_after(g, k, u));
    }
}

proof fn lemma_path_prefix_reaches(g: GraphBuilder, p: Seq<int>, i: int)
    requires
        g.is_path(p),
        p[0] == 0,
        0 <= i < p.len(),
    ensures
        g.reachable(p[i]),
{
    let q = p.take(i + 1);
    assert forall|m: int| 0 <= m < q.len() implies 0 <= #[trigger] q[m] < g.n() by {
        assert(q[m] == p[m]);
    }
    assert forall|m: int| 0 <= m < q.len() - 1 implies g.edge(#[trigger] q[m], q[m + 1]) by {
        assert(q[m] == p[m]);
        assert(q[m + 1] == p[m + 1]);
    }
    assert(g.is_path(q));
    assert(q[0] == 0 && q.last() == p[i]);
}

/// When the counts settle, the bound that `get_max_instructions_executed`
/// gives covers every path from the entry: it is at least the total weight of
/// the blocks along the path (weights not negative, total within `i64`).
pub proof fn lemma_max_bounds_paths(g: GraphBuilder, k: nat, m: int, p: Seq<int>)
    requires
        g.wf(),
        weights_fit(g),
        preds_reachable(g),
        jumps_listed(g),
        nonneg_weights(g),
        settles_at(g, k),
        max_count_after(g, k + 1, m),
        g.is_path(p),
        p[0] == 0,
        path_weight(g, p) <= i64::MAX,
    ensures
        m >= path_weight(g, p),
{
    lemma_count_bounds_path(g, k, p);
    assert(g.reachable(p[p.len() - 1]));
}

} // verus!
