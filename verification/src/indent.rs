//! Paths and shortest-path distances in a proof DAG, the specification that
//! `calc_indent` is proved against.

use vstd::prelude::*;

use crate::tree::{nodes_wf, ProofTree};

verus! {

/// There is a path of exactly `k` parent-to-child edges from node `a` to
/// node `b`.
#[verifier::opaque]
pub open spec fn has_path(ts: Seq<ProofTree>, a: int, b: int, k: nat) -> bool
    decreases k,
{
    if k == 0 {
        a == b
    } else {
        exists|j: int|
            0 <= j < ts[a].children@.len() && has_path(
                ts,
                (#[trigger] ts[a].children@[j]) as int,
                b,
                (k - 1) as nat,
            )
    }
}

/// Node `b` can be reached from node `a` along parent-to-child edges.
pub open spec fn reachable(ts: Seq<ProofTree>, a: int, b: int) -> bool {
    exists|k: nat| has_path(ts, a, b, k)
}

/// Node `p` lists node `b` among its children.
pub open spec fn is_parent(ts: Seq<ProofTree>, p: int, b: int) -> bool {
    exists|j: int| 0 <= j < ts[p].children@.len() && (#[trigger] ts[p].children@[j]) as int == b
}

/// `d` is the correct indentation for node `n`: the minimum number of edges
/// on a path from `qed` to `n`, or the sentinel `u16::MAX` when `n` is not
/// reachable from `qed`.
pub open spec fn indent_correct(ts: Seq<ProofTree>, qed: int, n: int, d: u16) -> bool {
    if reachable(ts, qed, n) {
        &&& has_path(ts, qed, n, d as nat)
        &&& forall|k: nat| #[trigger] has_path(ts, qed, n, k) ==> d as nat <= k
    } else {
        d == 0xffffu16
    }
}

/// Every node reaches itself by the empty path.
pub proof fn lemma_path_zero(ts: Seq<ProofTree>, a: int)
    ensures
        has_path(ts, a, a, 0),
{
    reveal_with_fuel(has_path, 2);
}

/// Indices strictly decrease along every path, so a path of length `k`
/// starting at `a` ends at an index no larger than `a - k`.
pub proof fn lemma_path_bound(ts: Seq<ProofTree>, a: int, b: int, k: nat)
    requires
        nodes_wf(ts),
        0 <= a < ts.len(),
        has_path(ts, a, b, k),
    ensures
        0 <= b,
        b + k <= a,
    decreases k,
{
    reveal_with_fuel(has_path, 2);
    if k > 0 {
        let j = choose|j: int|
            0 <= j < ts[a].children@.len() && has_path(
                ts,
                (#[trigger] ts[a].children@[j]) as int,
                b,
                (k - 1) as nat,
            );
        let c = ts[a].children@[j] as int;
        assert(c < a);
        lemma_path_bound(ts, c, b, (k - 1) as nat);
    }
}

/// A path can be extended by one edge at its end: if `a` reaches `m` in `k`
/// edges, it reaches each child of `m` in `k + 1` edges.
pub proof fn lemma_path_snoc(ts: Seq<ProofTree>, a: int, m: int, k: nat, j: int)
    requires
        nodes_wf(ts),
        0 <= a < ts.len(),
        has_path(ts, a, m, k),
        0 <= j < ts[m].children@.len(),
    ensures
        has_path(ts, a, ts[m].children@[j] as int, (k + 1) as nat),
    decreases k,
{
    reveal_with_fuel(has_path, 2);
    let c = ts[m].children@[j] as int;
    if k == 0 {
        assert(has_path(ts, c, c, 0));
        assert(has_path(ts, a, c, 1));
    } else {
        let j0 = choose|j0: int|
            0 <= j0 < ts[a].children@.len() && has_path(
                ts,
                (#[trigger] ts[a].children@[j0]) as int,
                m,
                (k - 1) as nat,
            );
        let c0 = ts[a].children@[j0] as int;
        lemma_path_bound(ts, a, m, k);
        lemma_path_snoc(ts, c0, m, (k - 1) as nat, j);
        assert(has_path(ts, a, c, (k + 1) as nat));
    }
}

/// A path of positive length decomposes at its back: its next-to-last node
/// is a parent of its endpoint.
pub proof fn lemma_path_back(ts: Seq<ProofTree>, a: int, b: int, k: nat) -> (p: int)
    requires
        nodes_wf(ts),
        0 <= a < ts.len(),
        has_path(ts, a, b, k),
        k >= 1,
    ensures
        0 <= p < ts.len(),
        has_path(ts, a, p, (k - 1) as nat),
        is_parent(ts, p, b),
    decreases k,
{
    reveal_with_fuel(has_path, 2);
    let j0 = choose|j0: int|
        0 <= j0 < ts[a].children@.len() && has_path(
            ts,
            (#[trigger] ts[a].children@[j0]) as int,
            b,
            (k - 1) as nat,
        );
    let c = ts[a].children@[j0] as int;
    if k == 1 {
        assert(b == c);
        assert(has_path(ts, a, a, 0));
        a
    } else {
        let p = lemma_path_back(ts, c, b, (k - 1) as nat);
        assert(has_path(ts, a, p, (k - 1) as nat));
        p
    }
}

/// A step of reachability: whatever `a` reaches beyond itself, one of its
/// children reaches.
pub proof fn lemma_reach_step(ts: Seq<ProofTree>, a: int, b: int)
    requires
        reachable(ts, a, b),
        a != b,
    ensures
        exists|j: int|
            0 <= j < ts[a].children@.len() && reachable(
                ts,
                (#[trigger] ts[a].children@[j]) as int,
                b,
            ),
{
    reveal_with_fuel(has_path, 2);
    let k = choose|k: nat| has_path(ts, a, b, k);
    assert(k != 0);
    let j = choose|j: int|
        0 <= j < ts[a].children@.len() && has_path(
            ts,
            (#[trigger] ts[a].children@[j]) as int,
            b,
            (k - 1) as nat,
        );
    assert(reachable(ts, ts[a].children@[j] as int, b));
}

/// Once every finite distance is witnessed by a path and every edge out of a
/// finitely-distanced node has been relaxed, `dist` is a lower bound on the
/// length of every path from `qed`.
pub proof fn lemma_dist_minimal(ts: Seq<ProofTree>, qed: int, dist: Seq<u16>, m: int, k: nat)
    requires
        nodes_wf(ts),
        dist.len() == ts.len(),
        ts.len() < 0xffff,
        0 <= qed < ts.len(),
        dist[qed] == 0,
        forall|p: int, j: int|
            0 <= p < ts.len() && dist[p] != 0xffff && 0 <= j < ts[p].children@.len() ==> dist[(
            #[trigger] ts[p].children@[j]) as int] as int <= dist[p] + 1,
        has_path(ts, qed, m, k),
    ensures
        0 <= m < ts.len(),
        dist[m] as nat <= k,
    decreases k,
{
    reveal_with_fuel(has_path, 2);
    lemma_path_bound(ts, qed, m, k);
    if k > 0 {
        let p = lemma_path_back(ts, qed, m, k);
        lemma_dist_minimal(ts, qed, dist, p, (k - 1) as nat);
        lemma_path_bound(ts, qed, p, (k - 1) as nat);
        assert(dist[p] as int <= k - 1 < 0xffff);
        let j = choose|j: int|
            0 <= j < ts[p].children@.len() && (#[trigger] ts[p].children@[j]) as int == m;
        assert(dist[m] as int <= dist[p] + 1);
    }
}

} // verus!
