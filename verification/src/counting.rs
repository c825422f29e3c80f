//! How many source instructions a run executes, and why the bound that
//! `get_max_instructions_executed` gives covers every run.

use vstd::prelude::*;
use crate::analyzer::{
    counts_in_ranges, jumps_listed, lemma_max_bounds_paths, lemma_weight_bounds_runs, max_count_after,
    nonneg_weights, path_weight, preds_reachable, run_increments, settles_at, weights_fit,
};
use crate::cfg::{GraphBuilder, ValueId};

verus! {

/// The source instructions a run along the blocks `p` executes: each
/// block's own count plus what its counting instructions that run add
/// (`fires(i, j)`: instruction `j` runs on the `i`-th visit).
pub open spec fn path_run(g: GraphBuilder, p: Seq<int>, fires: spec_fn(int, int) -> bool, val: spec_fn(ValueId) -> int) -> int
    decreases p.len(),
{
    if p.len() == 0 {
        0
    } else {
        path_run(g, p.drop_last(), fires, val) + g.blocks@[p.last()].ksplang_instr_count
            + run_increments(g.blocks@[p.last()].instructions@, |j: int| fires(p.len() - 1, j), val)
    }
}

/// A run executes no more than the weights of its blocks add up to.
proof fn lemma_path_run_le(g: GraphBuilder, p: Seq<int>, fires: spec_fn(int, int) -> bool, val: spec_fn(ValueId) -> int)
    requires
        forall|i: int| 0 <= i < p.len() ==> 0 <= #[trigger] p[i] < g.n(),
        forall|i: int| 0 <= i < p.len() ==> counts_in_ranges(g, g.blocks@[#[trigger] p[i]].instructions@, val),
    ensures
        path_run(g, p, fires, val) <= path_weight(g, p),
    decreases p.len(),
{
    if p.len() > 0 {
        let d = p.drop_last();
        assert forall|i: int| 0 <= i < d.len() implies 0 <= #[trigger] d[i] < g.n() by { assert(d[i] == p[i]); }
        assert forall|i: int| 0 <= i < d.len() implies counts_in_ranges(g, g.blocks@[#[trigger] d[i]].instructions@, val) by {
            assert(d[i] == p[i]);
        }
        lemma_path_run_le(g, d, fires, val);
        let l = p.len() - 1;
        assert(p.last() == p[l]);
        lemma_weight_bounds_runs(g, p[l], |j: int| fires(p.len() - 1, j), val);
    }
}

/// The bound `get_max_instructions_executed` gives (see its contract: the
/// largest settled count `m`) is at least the number of source instructions
/// any run from the entry executes, counting every `KsplangOpsIncrement`
/// that runs, whatever its condition, by the values of its inputs.
pub proof fn lemma_max_bounds_runs(g: GraphBuilder, k: nat, m: int, p: Seq<int>, fires: spec_fn(int, int) -> bool,
    val: spec_fn(ValueId) -> int)
    requires
        g.wf(),
        weights_fit(g),
        preds_reachable(g),
        jumps_listed(g),
        nonneg_weights(g),
        settles_at(g, k),
        max_count_after(g, k + 1, m),
        g.is_path(p),
        p[0] == 0,
        path_weight(g, p) <= i64::MAX,
        forall|i: int| 0 <= i < p.len() ==> counts_in_ranges(g, g.blocks@[#[trigger] p[i]].instructions@, val),
    ensures
        m >= path_run(g, p, fires, val),
{
    lemma_max_bounds_paths(g, k, m, p);
    lemma_path_run_le(g, p, fires, val);
}

} // verus!
