//! The data-flow solver's order does not matter: stepping the blocks in
//! postorder or in reverse postorder gives the same states, since each round
//! steps every block from the states of the round before.

use vstd::prelude::*;
use vstd::std_specs::cmp::PartialEqSpec;
use crate::analyzer::{
    changed_round, changing_rounds, converged_run, distinct_blocks, dfs_postorder, initial_states,
    initialized, ins_match, is_dfs_postorder, next_states, occurs, outs_match, pairs_map, pos, preds_reachable,
    same_states, solved, stepped, stepped_round, unsettled_run,
};
use crate::cfg::{BasicBlock, BlockId, GraphBuilder};

verus! {

/// `init` gives one state for each block.
pub open spec fn init_deterministic<T, I: Fn(&BasicBlock) -> T>(init: I) -> bool {
    forall|b1: &BasicBlock, b2: &BasicBlock, v1: T, v2: T|
        *b1 == *b2 && #[trigger] call_ensures(init, (b1,), v1) && #[trigger] call_ensures(init, (b2,), v2) ==> v1 == v2
}

/// `step` gives one state for each block, state and neighbour states.
pub open spec fn step_deterministic<T, S: Fn(&BasicBlock, &T, &[&T], &[&T]) -> T>(step: S) -> bool {
    forall|b1: &BasicBlock, s1: &T, i1: &[&T], o1: &[&T], b2: &BasicBlock, s2: &T, i2: &[&T], o2: &[&T], v1: T, v2: T|
        *b1 == *b2 && *s1 == *s2 && i1@ == i2@ && o1@ == o2@
        && #[trigger] call_ensures(step, (b1, s1, i1, o1), v1) && #[trigger] call_ensures(step, (b2, s2, i2, o2), v2)
        ==> v1 == v2
}

/// In a list of distinct blocks, a block's position counted from the end is
/// its position in the reversed list.
proof fn lemma_rev_pos(keys: Seq<BlockId>, x: int)
    requires
        distinct_blocks(keys),
        occurs(keys, x),
    ensures
        0 <= pos(keys, x) < keys.len(),
        keys[pos(keys, x)] == BlockId(x as u32),
        pos(keys.reverse(), x) == keys.len() - 1 - pos(keys, x),
{
    let j = choose|j: int| 0 <= j < keys.len() && #[trigger] keys[j].0 == x;
    assert(keys[j] == BlockId(x as u32));
    assert(keys.contains(BlockId(x as u32)));
    let i = pos(keys, x);
    assert(0 <= i < keys.len() && keys[i] == BlockId(x as u32));
    let r = keys.reverse();
    assert(r[keys.len() - 1 - i] == BlockId(x as u32));
    assert(r.contains(BlockId(x as u32)));
    let k = pos(r, x);
    assert(0 <= k < r.len() && r[k] == BlockId(x as u32));
    assert(keys[keys.len() - 1 - k] == BlockId(x as u32));
    if keys.len() - 1 - k != i {
        if keys.len() - 1 - k < i {
            assert(keys[keys.len() - 1 - k].0 != keys[i].0);
        } else {
            assert(keys[i].0 != keys[keys.len() - 1 - k].0);
        }
    }
}

/// Every block that a reachable block jumps to is reachable.
proof fn lemma_succ_reachable(g: GraphBuilder, u: int, k: int)
    requires
        g.wf(),
        0 <= u < g.n(),
        g.reachable(u),
        0 <= k < g.blocks@[u].outgoing_jumps@.len(),
    ensures
        g.reachable(g.target(u, k)),
{
    let p = choose|p: Seq<int>| #[trigger] g.is_path(p) && p[0] == 0 && p.last() == u;
    let v = g.target(u, k);
    assert(0 <= v < g.n());
    let q = p.push(v);
    assert(g.edge(u, v));
    assert forall|i: int| 0 <= i < q.len() - 1 implies g.edge(#[trigger] q[i], q[i + 1]) by {
        if i < p.len() - 1 { assert(q[i] == p[i] && q[i + 1] == p[i + 1]); } else { assert(q[i] == u); }
    }
    assert forall|i: int| 0 <= i < q.len() implies 0 <= #[trigger] q[i] < g.n() by {
        if i < p.len() { assert(q[i] == p[i]); }
    }
    assert(g.is_path(q));
    assert(q[0] == 0 && q.last() == v);
}

/// Stepping the block at position `i` of the postorder from states `st` is
/// stepping it at the mirrored position of the reversed order from the
/// reversed states.
proof fn lemma_stepped_rev<T, S: Fn(&BasicBlock, &T, &[&T], &[&T]) -> T>(
    g: GraphBuilder,
    step: S,
    keys: Seq<BlockId>,
    st: Seq<T>,
    i: int,
    v: T,
)
    requires
        g.wf(),
        preds_reachable(g),
        is_dfs_postorder(g, keys),
        st.len() == keys.len(),
        0 <= i < keys.len(),
    ensures
        stepped(g, step, keys, st, i, v) <==> stepped(g, step, keys.reverse(), st.reverse(), keys.len() - 1 - i, v),
{
    let n = keys.len();
    let rk = keys.reverse();
    let rs = st.reverse();
    let j = n - 1 - i;
    assert(rk[j] == keys[i]);
    assert(rs[j] == st[i]);
    let blk = g.blocks@[keys[i].0 as int];
    let u = keys[i].0 as int;
    assert(occurs(keys, u));
    assert(g.reachable(u));
    assert forall|k: int| 0 <= k < blk.incoming_jumps@.len() implies
        #[trigger] rs[pos(rk, blk.incoming_jumps@[k].0.0 as int)] == st[pos(keys, blk.incoming_jumps@[k].0.0 as int)] by {
        let x = blk.incoming_jumps@[k].0.0 as int;
        assert(g.reachable(x));
        assert(0 <= x < g.n());
        assert(occurs(keys, x));
        lemma_rev_pos(keys, x);
    }
    assert forall|k: int| 0 <= k < blk.outgoing_jumps@.len() implies
        #[trigger] rs[pos(rk, blk.outgoing_jumps@[k].1.0 as int)] == st[pos(keys, blk.outgoing_jumps@[k].1.0 as int)] by {
        let x = blk.outgoing_jumps@[k].1.0 as int;
        lemma_succ_reachable(g, u, k);
        assert(g.target(u, k) == x);
        assert(occurs(keys, x));
        lemma_rev_pos(keys, x);
    }
    if stepped(g, step, keys, st, i, v) {
        let (b, s, ins, outs) = choose|b: &BasicBlock, s: &T, ins: &[&T], outs: &[&T]|
            *b == g.blocks@[keys[i].0 as int] && *s == st[i]
            && ins_match(keys, st, *b, ins@) && outs_match(keys, st, *b, outs@)
            && #[trigger] call_ensures(step, (b, s, ins, outs), v);
        assert(ins_match(rk, rs, *b, ins@));
        assert(outs_match(rk, rs, *b, outs@));
        assert(stepped(g, step, rk, rs, j, v));
    }
    if stepped(g, step, rk, rs, j, v) {
        let (b, s, ins, outs) = choose|b: &BasicBlock, s: &T, ins: &[&T], outs: &[&T]|
            *b == g.blocks@[rk[j].0 as int] && *s == rs[j]
            && ins_match(rk, rs, *b, ins@) && outs_match(rk, rs, *b, outs@)
            && #[trigger] call_ensures(step, (b, s, ins, outs), v);
        assert(ins_match(keys, st, *b, ins@));
        assert(outs_match(keys, st, *b, outs@));
        assert(stepped(g, step, keys, st, i, v));
    }
}

/// A deterministic step gives one state.
proof fn lemma_stepped_unique<T, S: Fn(&BasicBlock, &T, &[&T], &[&T]) -> T>(
    g: GraphBuilder,
    step: S,
    keys: Seq<BlockId>,
    st: Seq<T>,
    i: int,
    v1: T,
    v2: T,
)
    requires
        step_deterministic(step),
        stepped(g, step, keys, st, i, v1),
        stepped(g, step, keys, st, i, v2),
    ensures
        v1 == v2,
{
    let (b1, s1, i1, o1) = choose|b: &BasicBlock, s: &T, ins: &[&T], outs: &[&T]|
        *b == g.blocks@[keys[i].0 as int] && *s == st[i]
        && ins_match(keys, st, *b, ins@) && outs_match(keys, st, *b, outs@)
        && #[trigger] call_ensures(step, (b, s, ins, outs), v1);
    let (b2, s2, i2, o2) = choose|b: &BasicBlock, s: &T, ins: &[&T], outs: &[&T]|
        *b == g.blocks@[keys[i].0 as int] && *s == st[i]
        && ins_match(keys, st, *b, ins@) && outs_match(keys, st, *b, outs@)
        && #[trigger] call_ensures(step, (b, s, ins, outs), v2);
    assert(i1@ =~= i2@);
    assert(o1@ =~= o2@);
}

/// The rounds of a run in reversed order are the reversed rounds of a run
/// in postorder, as far as both go.
proof fn lemma_rounds_rev<T: PartialEq, I: Fn(&BasicBlock) -> T, S: Fn(&BasicBlock, &T, &[&T], &[&T]) -> T>(
    g: GraphBuilder,
    init: I,
    step: S,
    keys: Seq<BlockId>,
    fw: Seq<Seq<T>>,
    bw: Seq<Seq<T>>,
    k: int,
)
    requires
        g.wf(),
        preds_reachable(g),
        is_dfs_postorder(g, keys),
        init_deterministic(init),
        step_deterministic(step),
        fw.len() >= 1,
        bw.len() >= 1,
        initial_states(g, init, keys, fw[0]),
        initial_states(g, init, keys.reverse(), bw[0]),
        forall|q: int| 0 <= q < fw.len() - 1 ==> #[trigger] stepped_round(g, step, keys, fw, q),
        forall|q: int| 0 <= q < bw.len() - 1 ==> #[trigger] stepped_round(g, step, keys.reverse(), bw, q),
        0 <= k < fw.len(),
        k < bw.len(),
    ensures
        bw[k] == fw[k].reverse(),
        fw[k].len() == keys.len(),
    decreases k,
{
    let n = keys.len();
    if k == 0 {
        assert forall|i: int| 0 <= i < n implies #[trigger] bw[0][i] == fw[0].reverse()[i] by {
            let j = n - 1 - i;
            assert(initialized(g, init, keys.reverse(), i, bw[0][i]));
            assert(initialized(g, init, keys, j, fw[0][j]));
            assert(keys.reverse()[i] == keys[j]);
            let b1 = choose|b: &BasicBlock| *b == g.blocks@[keys.reverse()[i].0 as int] && #[trigger] call_ensures(init, (b,), bw[0][i]);
            let b2 = choose|b: &BasicBlock| *b == g.blocks@[keys[j].0 as int] && #[trigger] call_ensures(init, (b,), fw[0][j]);
        }
        assert(bw[0] =~= fw[0].reverse());
    } else {
        lemma_rounds_rev(g, init, step, keys, fw, bw, k - 1);
        assert(stepped_round(g, step, keys, fw, k - 1));
        assert(stepped_round(g, step, keys.reverse(), bw, k - 1));
        assert(fw[k].len() == n);
        assert forall|i: int| 0 <= i < n implies #[trigger] bw[k][i] == fw[k].reverse()[i] by {
            let j = n - 1 - i;
            assert(stepped(g, step, keys, fw[k - 1], j, fw[k][j]));
            lemma_stepped_rev(g, step, keys, fw[k - 1], j, fw[k][j]);
            assert(n - 1 - j == i);
            assert(stepped(g, step, keys.reverse(), bw[k - 1], i, bw[k][i]));
            lemma_stepped_unique(g, step, keys.reverse(), bw[k - 1], i, bw[k][i], fw[k][j]);
        }
        assert(bw[k] =~= fw[k].reverse());
    }
}


/// One round from reversed states over the reversed order gives the reversed round.
proof fn lemma_next_rev<T, S: Fn(&BasicBlock, &T, &[&T], &[&T]) -> T>(
    g: GraphBuilder,
    step: S,
    keys: Seq<BlockId>,
    st: Seq<T>,
    fw: Seq<T>,
    bw: Seq<T>,
)
    requires
        g.wf(),
        preds_reachable(g),
        is_dfs_postorder(g, keys),
        step_deterministic(step),
        st.len() == keys.len(),
        next_states(g, step, keys, st, fw),
        next_states(g, step, keys.reverse(), st.reverse(), bw),
    ensures
        bw == fw.reverse(),
{
    let n = keys.len();
    assert forall|i: int| 0 <= i < n implies #[trigger] bw[i] == fw.reverse()[i] by {
        let j = n - 1 - i;
        assert(stepped(g, step, keys, st, j, fw[j]));
        lemma_stepped_rev(g, step, keys, st, j, fw[j]);
        assert(stepped(g, step, keys.reverse(), st.reverse(), i, bw[i]));
        lemma_stepped_unique(g, step, keys.reverse(), st.reverse(), i, bw[i], fw[j]);
    }
    assert(bw =~= fw.reverse());
}

/// Rounds compare equal exactly when their reversals do.
proof fn lemma_same_rev<T: PartialEq>(a: Seq<T>, b: Seq<T>)
    requires
        same_states(a, b),
    ensures
        same_states(a.reverse(), b.reverse()),
{
    assert forall|i: int| 0 <= i < a.len() implies (#[trigger] a.reverse()[i]).eq_spec(&b.reverse()[i]) by {
        assert(a[a.len() - 1 - i].eq_spec(&b[a.len() - 1 - i]));
    }
}

/// With distinct keys, the map of a list of pairs holds each pair.
proof fn lemma_pairs_map_at<T>(r: Seq<(BlockId, T)>, i: int)
    requires
        distinct_blocks(r.map_values(|p: (BlockId, T)| p.0)),
        0 <= i < r.len(),
    ensures
        pairs_map(r).contains_key(r[i].0),
        pairs_map(r)[r[i].0] == r[i].1,
    decreases r.len(),
{
    let keys = r.map_values(|p: (BlockId, T)| p.0);
    if i < r.len() - 1 {
        let d = r.drop_last();
        assert(d.map_values(|p: (BlockId, T)| p.0) =~= keys.drop_last());
        assert(d[i] == r[i]);
        lemma_pairs_map_at(d, i);
        assert(keys[i].0 != keys[r.len() - 1].0);
        assert(r[i].0 != r.last().0);
    }
}

/// The keys of the map of a list of pairs are the keys of its pairs.
proof fn lemma_pairs_map_dom<T>(r: Seq<(BlockId, T)>, x: BlockId)
    requires
        pairs_map(r).contains_key(x),
    ensures
        exists|i: int| 0 <= i < r.len() && (#[trigger] r[i]).0 == x,
    decreases r.len(),
{
    if r.len() > 0 && r.last().0 != x {
        lemma_pairs_map_dom(r.drop_last(), x);
        let i = choose|i: int| 0 <= i < r.drop_last().len() && (#[trigger] r.drop_last()[i]).0 == x;
        assert(r[i] == r.drop_last()[i]);
    } else if r.len() > 0 {
        assert(r[r.len() - 1].0 == x);
    }
}

/// With distinct keys, reversing a list of pairs keeps its map.
proof fn lemma_pairs_map_rev<T>(r: Seq<(BlockId, T)>)
    requires
        distinct_blocks(r.map_values(|p: (BlockId, T)| p.0)),
    ensures
        pairs_map(r.reverse()) == pairs_map(r),
{
    let rr = r.reverse();
    let n = r.len();
    let keys = r.map_values(|p: (BlockId, T)| p.0);
    let rkeys = rr.map_values(|p: (BlockId, T)| p.0);
    assert(distinct_blocks(rkeys)) by {
        assert forall|i: int, j: int| 0 <= i < j < rr.len() implies (#[trigger] rkeys[i]).0 != (#[trigger] rkeys[j]).0 by {
            assert(keys[n - 1 - j].0 != keys[n - 1 - i].0);
            assert(rkeys[i] == keys[n - 1 - i]);
            assert(rkeys[j] == keys[n - 1 - j]);
        }
    }
    assert forall|x: BlockId| pairs_map(rr).contains_key(x) <==> pairs_map(r).contains_key(x) by {
        if pairs_map(rr).contains_key(x) {
            lemma_pairs_map_dom(rr, x);
            let i = choose|i: int| 0 <= i < rr.len() && (#[trigger] rr[i]).0 == x;
            lemma_pairs_map_at(r, n - 1 - i);
        }
        if pairs_map(r).contains_key(x) {
            lemma_pairs_map_dom(r, x);
            let i = choose|i: int| 0 <= i < r.len() && (#[trigger] r[i]).0 == x;
            lemma_pairs_map_at(rr, n - 1 - i);
        }
    }
    assert forall|x: BlockId| #[trigger] pairs_map(rr).contains_key(x) implies pairs_map(rr)[x] == pairs_map(r)[x] by {
        lemma_pairs_map_dom(rr, x);
        let i = choose|i: int| 0 <= i < rr.len() && (#[trigger] rr[i]).0 == x;
        lemma_pairs_map_at(rr, i);
        lemma_pairs_map_at(r, n - 1 - i);
    }
    assert(pairs_map(rr) =~= pairs_map(r));
}

/// When a run converges after the rounds `fw`, a run over the reversed order
/// whose rounds all change has no more rounds.
proof fn lemma_no_longer_run<T: PartialEq, I: Fn(&BasicBlock) -> T, S: Fn(&BasicBlock, &T, &[&T], &[&T]) -> T>(
    g: GraphBuilder,
    init: I,
    step: S,
    keys: Seq<BlockId>,
    fw: Seq<Seq<T>>,
    vals: Seq<T>,
    bw: Seq<Seq<T>>,
    forward: bool,
)
    requires
        g.wf(),
        preds_reachable(g),
        is_dfs_postorder(g, keys),
        init_deterministic(init),
        step_deterministic(step),
        changing_rounds(g, init, step, if forward { keys } else { keys.reverse() }, fw),
        next_states(g, step, if forward { keys } else { keys.reverse() }, fw.last(), vals),
        same_states(vals, fw.last()),
        changing_rounds(g, init, step, if forward { keys.reverse() } else { keys }, bw),
    ensures
        bw.len() <= fw.len(),
{
    let l = fw.len() as int;
    let n = keys.len();
    assert(keys.reverse().reverse() =~= keys);
    if bw.len() <= fw.len() {
    } else if forward {
        lemma_rounds_rev(g, init, step, keys, fw, bw, l - 1);
        assert(stepped_round(g, step, keys.reverse(), bw, l - 1));
        assert(fw.last() == fw[l - 1]);
        lemma_next_rev(g, step, keys, fw.last(), vals, bw[l]);
        lemma_same_rev(vals, fw.last());
        assert(changed_round(bw, l - 1));
    } else {
        lemma_rounds_rev(g, init, step, keys, bw, fw, l - 1);
        assert(stepped_round(g, step, keys, bw, l - 1));
        assert(fw.last() == fw[l - 1]);
        assert(bw[l - 1].reverse().reverse() =~= bw[l - 1]);
        lemma_next_rev(g, step, keys, bw[l - 1], bw[l], vals);
        assert(bw[l].reverse().reverse() =~= bw[l]);
        lemma_same_rev(vals, fw.last());
        assert(vals.reverse() =~= bw[l].reverse().reverse());
        assert(fw.last().reverse() =~= bw[l - 1]);
        assert(changed_round(bw, l - 1));
    }
}

/// Running the solver in postorder and in reverse postorder gives the same
/// result, when `init` and `step` give one state for each input: the same
/// state for every reachable block, or no result either way. Each round steps
/// every block from the states of the round before, so the order in which
/// the blocks are visited does not matter.
pub proof fn lemma_dataflow_direction<T: PartialEq, I: Fn(&BasicBlock) -> T, S: Fn(&BasicBlock, &T, &[&T], &[&T]) -> T>(
    g: GraphBuilder,
    init: I,
    step: S,
    fwd: Option<Map<BlockId, T>>,
    bwd: Option<Map<BlockId, T>>,
)
    requires
        g.wf(),
        preds_reachable(g),
        T::obeys_eq_spec(),
        init_deterministic(init),
        step_deterministic(step),
        fwd matches Some(m) ==> exists|r: Seq<(BlockId, T)>| #[trigger] solved(g, false, init, step, r, m),
        fwd is None ==> exists|keys: Seq<BlockId>, rounds: Seq<Seq<T>>| #[trigger] unsettled_run(g, false, init, step, keys, rounds),
        bwd matches Some(m) ==> exists|r: Seq<(BlockId, T)>| #[trigger] solved(g, true, init, step, r, m),
        bwd is None ==> exists|keys: Seq<BlockId>, rounds: Seq<Seq<T>>| #[trigger] unsettled_run(g, true, init, step, keys, rounds),
    ensures
        fwd == bwd,
{
    reveal(solved);
    reveal(unsettled_run);
    let p = dfs_postorder(g);
    assert(p.reverse().reverse() =~= p);
    match (fwd, bwd) {
        (Some(m1), Some(m2)) => {
            let r1 = choose|r: Seq<(BlockId, T)>| #[trigger] solved(g, false, init, step, r, m1);
            let r2 = choose|r: Seq<(BlockId, T)>| #[trigger] solved(g, true, init, step, r, m2);
            let k1 = r1.map_values(|q: (BlockId, T)| q.0);
            let k2 = r2.map_values(|q: (BlockId, T)| q.0);
            let v1 = r1.map_values(|q: (BlockId, T)| q.1);
            let v2 = r2.map_values(|q: (BlockId, T)| q.1);
            assert(k1 == p);
            assert(k2 == p.reverse());
            assert(is_dfs_postorder(g, p));
            let fw = choose|rounds: Seq<Seq<T>>| #[trigger] converged_run(g, init, step, r1, rounds);
            let bw = choose|rounds: Seq<Seq<T>>| #[trigger] converged_run(g, init, step, r2, rounds);
            if bw.len() > fw.len() {
                lemma_no_longer_run(g, init, step, p, fw, v1, bw, true);
            }
            if fw.len() > bw.len() {
                lemma_no_longer_run(g, init, step, p, bw, v2, fw, false);
            }
            let l = fw.len();
            lemma_rounds_rev(g, init, step, p, fw, bw, l - 1);
            assert(fw.last() == fw[l - 1] && bw.last() == bw[l - 1]);
            lemma_next_rev(g, step, p, fw.last(), v1, v2);
            assert(r2 =~= r1.reverse()) by {
                assert forall|i: int| 0 <= i < r2.len() implies #[trigger] r2[i] == r1.reverse()[i] by {
                    assert(k2[i] == r2[i].0 && v2[i] == r2[i].1);
                    assert(k1[r1.len() - 1 - i] == r1[r1.len() - 1 - i].0);
                    assert(v1[r1.len() - 1 - i] == r1[r1.len() - 1 - i].1);
                }
            }
            lemma_pairs_map_rev(r1);
        }
        (Some(m1), None) => {
            let r1 = choose|r: Seq<(BlockId, T)>| #[trigger] solved(g, false, init, step, r, m1);
            let v1 = r1.map_values(|q: (BlockId, T)| q.1);
            let (keys, bw) = choose|keys: Seq<BlockId>, rounds: Seq<Seq<T>>| #[trigger] unsettled_run(g, true, init, step, keys, rounds);
            assert(r1.map_values(|q: (BlockId, T)| q.0) == p);
            let fw = choose|rounds: Seq<Seq<T>>| #[trigger] converged_run(g, init, step, r1, rounds);
            lemma_no_longer_run(g, init, step, p, fw, v1, bw, true);
        }
        (None, Some(m2)) => {
            let r2 = choose|r: Seq<(BlockId, T)>| #[trigger] solved(g, true, init, step, r, m2);
            let v2 = r2.map_values(|q: (BlockId, T)| q.1);
            let (keys, fw) = choose|keys: Seq<BlockId>, rounds: Seq<Seq<T>>| #[trigger] unsettled_run(g, false, init, step, keys, rounds);
            assert(r2.map_values(|q: (BlockId, T)| q.0) == p.reverse());
            assert(is_dfs_postorder(g, p));
            let bw = choose|rounds: Seq<Seq<T>>| #[trigger] converged_run(g, init, step, r2, rounds);
            lemma_no_longer_run(g, init, step, p, bw, v2, fw, false);
        }
        (None, None) => {}
    }
}

} // verus!
