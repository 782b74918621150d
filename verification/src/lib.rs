//! Aggregate queries and updates over paths of a rooted tree, in
//! O(log^2 n), by heavy-light decomposition: a binary-lifting ancestor
//! table answers lowest-common-ancestor queries, every heavy chain occupies
//! one contiguous interval of positions in a lazily propagating segment
//! tree, and a path query or update becomes a bounded sequence of segment
//! range operations.

pub mod ancestry;
pub mod node;
pub mod segment_tree;
pub mod tree;

pub use node::Node;
pub use segment_tree::{CombineFn, DefaultLazyApply, DefaultLazyFunc, LazyApplyFn, LazyFunc,
    SegmentTree};
pub use tree::InitError;
pub use tree::Tree;

use crate::tree::{reaches, spanning_map_ok};

use crate::ancestry::{is_anc, kth_opt, lca_spec, lemma_anc_comparable, lemma_anc_refl,
    lemma_anc_same_depth, lemma_anc_trans, lemma_kth_compose, lemma_kth_opt, lemma_lca_is_common,
    parent_wf};
use crate::segment_tree::{assign_range, cfold, combine_associative, combine_commutative,
    combine_identity, combine_idempotent, lemma_cfold_concat, lemma_cfold_constant,
    lemma_cfold_reverse};
use vstd::prelude::*;

verus! {

/// Node `x` has been marked in the visit map.
spec fn marked(visited: Seq<bool>, x: int) -> bool {
    0 <= x < visited.len() && visited[x]
}

/// Once a traversal from the root has finished — the labeled set matches
/// the visit map and is closed under children — every node is labeled,
/// since in a well-formed tree every node's parent chain reaches the root.
proof fn lemma_reaches_all<T>(
    t: &Tree<T>,
    visited: Seq<bool>,
    lab: Set<int>,
    root: usize,
    v: usize,
)
    requires
        t.inv(),
        t.initialized,
        t.root == root,
        v < t.n(),
        visited.len() == t.n(),
        forall|x: int| lab.contains(x) <==> marked(visited, x),
        marked(visited, root as int),
        forall|x: int| 0 <= x < t.n() && (t.par@[x] matches Some(p)
            && lab.contains(p as int)) ==> marked(visited, x),
    ensures
        lab.contains(v as int),
    decreases t.depth@[v as int],
{
    if v != root {
        assert(t.par@[v as int] is Some);
        let p = t.par@[v as int]->0;
        lemma_reaches_all(t, visited, lab, root, p);
        assert(marked(visited, v as int));
    }
}

/// Walking `k` steps up from `v` while staying within the heavy run between
/// `v` and its chain head lands on a node of the same chain whose label sits
/// exactly `k` positions earlier: heavy chains occupy contiguous label
/// intervals.
proof fn lemma_chain_run(
    par: Seq<Option<usize>>,
    depth: Seq<usize>,
    label: Seq<usize>,
    chain: Seq<usize>,
    bigchild: Seq<Option<usize>>,
    n: int,
    v: usize,
    k: nat,
)
    requires
        parent_wf(par, depth),
        par.len() == n,
        label.len() == n,
        chain.len() == n,
        bigchild.len() == n,
        v < n,
        forall|y: int| 0 <= y < n ==> match #[trigger] bigchild[y] {
            Some(c) => c < n && par[c as int] == Some(y as usize)
                && label[c as int] == label[y] + 1,
            None => true,
        },
        forall|y: int| 0 <= y < n ==> (#[trigger] chain[y]) < n,
        forall|y: int| 0 <= y < n ==> (chain[y] == y || (par[y] matches Some(p)
            && bigchild[p as int] == Some(y as usize)
            && #[trigger] chain[y] == chain[p as int])),
    ensures
        depth[chain[v as int] as int] <= depth[v as int],
        k + depth[chain[v as int] as int] <= depth[v as int]
            ==> (kth_opt(par, v, k) matches Some(w) && w < n
                && depth[w as int] + k == depth[v as int]
                && label[w as int] + k == label[v as int]
                && chain[w as int] == chain[v as int]
                && (k + depth[chain[v as int] as int] == depth[v as int]
                    ==> w == chain[v as int])),
    decreases depth[v as int],
{
    if chain[v as int] == v {
        if k == 0 {
            assert(kth_opt(par, v, 0) == Some(v));
        }
    } else {
        let p = par[v as int]->0;
        assert(bigchild[p as int] == Some(v));
        assert(label[v as int] == label[p as int] + 1);
        lemma_chain_run(par, depth, label, chain, bigchild, n, p, 0);
        if k >= 1 && k + depth[chain[v as int] as int] <= depth[v as int] {
            lemma_chain_run(par, depth, label, chain, bigchild, n, p, (k - 1) as nat);
        }
        if k == 0 {
            assert(kth_opt(par, v, 0) == Some(v));
        }
    }
}

/// The chain segment a hop of the path walk covers: the chain head of `v`,
/// clamped to the node just below the stop node `p` when the head lies at or
/// above it.
pub open spec fn hop_top(
    par: Seq<Option<usize>>,
    depth: Seq<usize>,
    chain: Seq<usize>,
    v: usize,
    p: usize,
) -> usize {
    if depth[chain[v as int] as int] > depth[p as int] {
        chain[v as int]
    } else {
        kth_opt(par, v, (depth[v as int] - depth[p as int] - 1) as nat)->0
    }
}

/// The aggregate a chain walk from `v` up to (excluding) `p` accumulates
/// onto `acc`: one contiguous label interval per heavy-chain hop, each
/// folded over the stored contents and combined in walk order.  `fuel`
/// bounds the number of hops; any bound at least the depth of `v` yields
/// the same value.
pub open spec fn walk_fold<T, C: CombineFn<T>>(
    c: C,
    e: T,
    par: Seq<Option<usize>>,
    depth: Seq<usize>,
    label: Seq<usize>,
    chain: Seq<usize>,
    contents: Seq<T>,
    acc: T,
    v: usize,
    p: usize,
    fuel: nat,
) -> T
    decreases fuel,
{
    if fuel == 0 || depth[p as int] >= depth[v as int] {
        acc
    } else {
        let top = hop_top(par, depth, chain, v, p);
        let seg = cfold(c, e, contents.subrange(label[top as int] as int,
            label[v as int] + 1));
        walk_fold(c, e, par, depth, label, chain, contents, c.spec_combine(acc, seg),
            par[top as int]->0, p, (fuel - 1) as nat)
    }
}

/// Any fuel bound covering the whole walk yields the same accumulated
/// aggregate: each hop strictly decreases the depth.
proof fn lemma_walk_fold_fuel<T, C: CombineFn<T>>(
    c: C,
    e: T,
    par: Seq<Option<usize>>,
    depth: Seq<usize>,
    label: Seq<usize>,
    chain: Seq<usize>,
    bigchild: Seq<Option<usize>>,
    contents: Seq<T>,
    n: int,
    acc: T,
    v: usize,
    p: usize,
    fuel1: nat,
    fuel2: nat,
)
    requires
        parent_wf(par, depth),
        par.len() == n,
        label.len() == n,
        chain.len() == n,
        bigchild.len() == n,
        v < n,
        p < n,
        forall|y: int| 0 <= y < n ==> match #[trigger] bigchild[y] {
            Some(c2) => c2 < n && par[c2 as int] == Some(y as usize)
                && label[c2 as int] == label[y] + 1,
            None => true,
        },
        forall|y: int| 0 <= y < n ==> (#[trigger] chain[y]) < n,
        forall|y: int| 0 <= y < n ==> (chain[y] == y || (par[y] matches Some(q)
            && bigchild[q as int] == Some(y as usize)
            && #[trigger] chain[y] == chain[q as int])),
        is_anc(par, depth, p, v),
        fuel1 + depth[p as int] >= depth[v as int],
        fuel2 + depth[p as int] >= depth[v as int],
    ensures
        walk_fold(c, e, par, depth, label, chain, contents, acc, v, p, fuel1)
            == walk_fold(c, e, par, depth, label, chain, contents, acc, v, p, fuel2),
    decreases depth[v as int],
{
    reveal_with_fuel(walk_fold, 2);
    let dv = depth[v as int];
    let dp = depth[p as int];
    if dp >= dv {
    } else {
        let top = hop_top(par, depth, chain, v, p);
        lemma_chain_run(par, depth, label, chain, bigchild, n, v, 0);
        if depth[chain[v as int] as int] > dp {
            lemma_chain_run(par, depth, label, chain, bigchild, n, v,
                (dv - depth[chain[v as int] as int]) as nat);
        } else {
            lemma_kth_opt(par, depth, v, (dv - dp - 1) as nat);
        }
        let dt = depth[top as int];
        assert(dp < dt <= dv);
        assert(is_anc(par, depth, top, v)) by {
            lemma_kth_opt(par, depth, v, (dv - dt) as nat);
        }
        assert(par[top as int] is Some) by {
            if par[top as int] is None {
                assert(depth[top as int] == 0);
            }
        }
        let nxt = par[top as int]->0;
        assert(depth[nxt as int] + 1 == dt);
        lemma_anc_comparable(par, depth, p, top, v);
        assert(kth_opt(par, top, (dt - dp) as nat) == Some(p));
        assert(kth_opt(par, nxt, (dt - 1 - dp) as nat) == Some(p));
        assert(is_anc(par, depth, p, nxt));
        let seg = cfold(c, e, contents.subrange(label[top as int] as int,
            label[v as int] + 1));
        lemma_walk_fold_fuel(c, e, par, depth, label, chain, bigchild, contents, n,
            c.spec_combine(acc, seg), nxt, p, (fuel1 - 1) as nat, (fuel2 - 1) as nat);
    }
}

/// One hop of the walk: combining the current chain segment's fold into the
/// accumulator and moving above the segment preserves the walk's value.
/// A finished walk returns its accumulator.
proof fn lemma_walk_done<T, C: CombineFn<T>>(
    c: C,
    e: T,
    par: Seq<Option<usize>>,
    depth: Seq<usize>,
    label: Seq<usize>,
    chain: Seq<usize>,
    contents: Seq<T>,
    acc: T,
    v: usize,
    p: usize,
    fuel: nat,
)
    requires
        depth[p as int] >= depth[v as int] || fuel == 0,
    ensures
        walk_fold(c, e, par, depth, label, chain, contents, acc, v, p, fuel) == acc,
{
    reveal_with_fuel(walk_fold, 1);
}

/// Definitional unfolding of one hop of the walk.
proof fn lemma_walk_unfold<T, C: CombineFn<T>>(
    c: C,
    e: T,
    par: Seq<Option<usize>>,
    depth: Seq<usize>,
    label: Seq<usize>,
    chain: Seq<usize>,
    contents: Seq<T>,
    acc: T,
    cur: usize,
    p: usize,
    top: usize,
    q: usize,
    fuel: nat,
)
    requires
        fuel >= 1,
        depth[p as int] < depth[cur as int],
        top == hop_top(par, depth, chain, cur, p),
        par[top as int] == Some(q),
    ensures
        walk_fold(c, e, par, depth, label, chain, contents, acc, cur, p, fuel)
            == walk_fold(c, e, par, depth, label, chain, contents, c.spec_combine(acc,
                cfold(c, e, contents.subrange(label[top as int] as int,
                label[cur as int] + 1))), q, p, (fuel - 1) as nat),
{
}

#[verifier::rlimit(100)]
#[verifier::spinoff_prover]
proof fn lemma_walk_step<T, C: CombineFn<T>>(
    c: C,
    e: T,
    par: Seq<Option<usize>>,
    depth: Seq<usize>,
    label: Seq<usize>,
    chain: Seq<usize>,
    bigchild: Seq<Option<usize>>,
    contents: Seq<T>,
    n: int,
    acc: T,
    cur: usize,
    p: usize,
    top: usize,
    q: usize,
)
    requires
        parent_wf(par, depth),
        par.len() == n,
        label.len() == n,
        chain.len() == n,
        bigchild.len() == n,
        cur < n,
        p < n,
        forall|y: int| 0 <= y < n ==> match #[trigger] bigchild[y] {
            Some(c2) => c2 < n && par[c2 as int] == Some(y as usize)
                && label[c2 as int] == label[y] + 1,
            None => true,
        },
        forall|y: int| 0 <= y < n ==> (#[trigger] chain[y]) < n,
        forall|y: int| 0 <= y < n ==> (chain[y] == y || (par[y] matches Some(q2)
            && bigchild[q2 as int] == Some(y as usize)
            && #[trigger] chain[y] == chain[q2 as int])),
        is_anc(par, depth, p, cur),
        depth[p as int] < depth[cur as int],
        top == hop_top(par, depth, chain, cur, p),
        top < n,
        depth[p as int] < depth[top as int],
        depth[top as int] <= depth[cur as int],
        par[top as int] == Some(q),
        q < n,
        is_anc(par, depth, p, q),
    ensures
        walk_fold(c, e, par, depth, label, chain, contents, acc, cur, p,
            (depth[cur as int] + 1) as nat)
            == walk_fold(c, e, par, depth, label, chain, contents, c.spec_combine(acc,
                cfold(c, e, contents.subrange(label[top as int] as int,
                label[cur as int] + 1))), q, p, (depth[q as int] + 1) as nat),
{
    let seg = cfold(c, e, contents.subrange(label[top as int] as int,
        label[cur as int] + 1));
    lemma_walk_unfold(c, e, par, depth, label, chain, contents, acc, cur, p, top, q,
        (depth[cur as int] + 1) as nat);
    lemma_walk_fold_fuel(c, e, par, depth, label, chain, bigchild, contents, n,
        c.spec_combine(acc, seg), q, p, depth[cur as int] as nat,
        (depth[q as int] + 1) as nat);
}

/// The arrays `sub_sz` recurses over are consistent: a well-formed parent
/// map whose depths and adjacency entries stay below the node count.
pub open spec fn size_ctx(
    edges: Seq<Vec<usize>>,
    par: Seq<Option<usize>>,
    depth: Seq<usize>,
) -> bool {
    &&& par.len() == edges.len()
    &&& depth.len() == edges.len()
    &&& parent_wf(par, depth)
    &&& forall|x: int| 0 <= x < depth.len() ==> (#[trigger] depth[x]) < edges.len()
    &&& forall|x: int, j: int| 0 <= x < edges.len() && 0 <= j < edges[x]@.len()
            ==> (#[trigger] edges[x]@[j]) < edges.len()
}

/// The subtree size of `v`: one plus the sizes of the children its
/// adjacency row lists, each child counted once per row entry — exactly one
/// per child when each undirected edge was recorded once.
pub open spec fn sub_sz(
    edges: Seq<Vec<usize>>,
    par: Seq<Option<usize>>,
    depth: Seq<usize>,
    v: usize,
) -> int
    decreases edges.len() - depth[v as int], edges[v as int]@.len() + 1
        when size_ctx(edges, par, depth) && v < edges.len()
{
    1 + row_sz(edges, par, depth, v, edges[v as int]@.len() as int)
}

/// The summed sizes of the children among the first `k` entries of `v`'s
/// adjacency row.
pub open spec fn row_sz(
    edges: Seq<Vec<usize>>,
    par: Seq<Option<usize>>,
    depth: Seq<usize>,
    v: usize,
    k: int,
) -> int
    decreases edges.len() - depth[v as int], k
        when size_ctx(edges, par, depth) && v < edges.len()
            && k <= edges[v as int]@.len()
        via row_sz_decreases
{
    if k <= 0 {
        0
    } else {
        row_sz(edges, par, depth, v, k - 1) + (if par[edges[v as int]@[k - 1] as int]
            == Some(v) {
            sub_sz(edges, par, depth, edges[v as int]@[k - 1])
        } else {
            0
        })
    }
}

#[via_fn]
proof fn row_sz_decreases(
    edges: Seq<Vec<usize>>,
    par: Seq<Option<usize>>,
    depth: Seq<usize>,
    v: usize,
    k: int,
) {
    if size_ctx(edges, par, depth) && v < edges.len() && 0 < k <= edges[v as int]@.len() {
        let c = edges[v as int]@[k - 1];
        assert(c < edges.len());
        if par[c as int] == Some(v) {
            assert(depth[c as int] == depth[v as int] + 1);
        }
    }
}

/// Sizes are positive and row sums grow along the row.
proof fn lemma_sz_bounds(
    edges: Seq<Vec<usize>>,
    par: Seq<Option<usize>>,
    depth: Seq<usize>,
    v: usize,
    k: int,
)
    requires
        size_ctx(edges, par, depth),
        v < edges.len(),
        0 <= k <= edges[v as int]@.len(),
    ensures
        0 <= row_sz(edges, par, depth, v, k),
        k == edges[v as int]@.len() ==> sub_sz(edges, par, depth, v) >= 1,
        forall|k2: int| 0 <= k2 <= k
            ==> #[trigger] row_sz(edges, par, depth, v, k2)
                <= row_sz(edges, par, depth, v, k),
    decreases edges.len() - depth[v as int], k + 1,
{
    if k > 0 {
        lemma_sz_bounds(edges, par, depth, v, k - 1);
        let c = edges[v as int]@[k - 1];
        assert(c < edges.len());
        if par[c as int] == Some(v) {
            assert(depth[c as int] == depth[v as int] + 1);
            lemma_sz_bounds(edges, par, depth, c, edges[c as int]@.len() as int);
        }
        assert forall|k2: int| 0 <= k2 <= k
            implies #[trigger] row_sz(edges, par, depth, v, k2)
                <= row_sz(edges, par, depth, v, k) by {
            if k2 < k {
                assert(row_sz(edges, par, depth, v, k2)
                    <= row_sz(edges, par, depth, v, k - 1));
            }
        }
    }
}

/// The heavy-child selection a left-to-right scan of `v`'s adjacency row
/// makes over the first `k` entries: the first child in adjacency order
/// whose recorded subtree size strictly exceeds every earlier candidate's —
/// so the first child of maximal size wins ties.  Returns the pick and the
/// size to beat.
pub open spec fn heavy_pick(
    row: Seq<usize>,
    par: Seq<Option<usize>>,
    sz: Seq<usize>,
    v: usize,
    k: int,
) -> (Option<usize>, usize)
    decreases k,
{
    if k <= 0 {
        (None, 0)
    } else {
        let prev = heavy_pick(row, par, sz, v, k - 1);
        let x = row[k - 1];
        if par[x as int] == Some(v) && sz[x as int] > prev.1 {
            (Some(x), sz[x as int])
        } else {
            prev
        }
    }
}

/// Every hop of the walk from `v` up to (excluding) `p` covers a single
/// label: the chain walk issues only point assignments.  This is what keeps
/// stored aggregates exact for non-idempotent combines.
pub open spec fn walk_single(
    par: Seq<Option<usize>>,
    depth: Seq<usize>,
    label: Seq<usize>,
    chain: Seq<usize>,
    v: usize,
    p: usize,
    fuel: nat,
) -> bool
    decreases fuel,
{
    if fuel == 0 || depth[p as int] >= depth[v as int] {
        true
    } else {
        let top = hop_top(par, depth, chain, v, p);
        &&& label[top as int] == label[v as int]
        &&& walk_single(par, depth, label, chain, par[top as int]->0, p, (fuel - 1) as nat)
    }
}

/// Definitional unfolding of one hop of the single-label predicate.
proof fn lemma_walk_single_unfold(
    par: Seq<Option<usize>>,
    depth: Seq<usize>,
    label: Seq<usize>,
    chain: Seq<usize>,
    cur: usize,
    p: usize,
    top: usize,
    q: usize,
    fuel: nat,
)
    requires
        fuel >= 1,
        depth[p as int] < depth[cur as int],
        top == hop_top(par, depth, chain, cur, p),
        par[top as int] == Some(q),
    ensures
        walk_single(par, depth, label, chain, cur, p, fuel)
            == (label[top as int] == label[cur as int]
                && walk_single(par, depth, label, chain, q, p, (fuel - 1) as nat)),
{
    reveal_with_fuel(walk_single, 2);
    let t2 = hop_top(par, depth, chain, cur, p);
    assert(t2 == top);
    assert(par[t2 as int]->0 == q);
}

/// A finished single-label walk holds trivially.
proof fn lemma_walk_single_done(
    par: Seq<Option<usize>>,
    depth: Seq<usize>,
    label: Seq<usize>,
    chain: Seq<usize>,
    v: usize,
    p: usize,
    fuel: nat,
)
    requires
        depth[p as int] >= depth[v as int] || fuel == 0,
    ensures
        walk_single(par, depth, label, chain, v, p, fuel),
{
    reveal_with_fuel(walk_single, 1);
}

/// Any fuel bound covering the whole walk yields the same single-label
/// verdict.
proof fn lemma_walk_single_fuel(
    par: Seq<Option<usize>>,
    depth: Seq<usize>,
    label: Seq<usize>,
    chain: Seq<usize>,
    bigchild: Seq<Option<usize>>,
    n: int,
    v: usize,
    p: usize,
    fuel1: nat,
    fuel2: nat,
)
    requires
        parent_wf(par, depth),
        par.len() == n,
        label.len() == n,
        chain.len() == n,
        bigchild.len() == n,
        v < n,
        p < n,
        forall|y: int| 0 <= y < n ==> match #[trigger] bigchild[y] {
            Some(c2) => c2 < n && par[c2 as int] == Some(y as usize)
                && label[c2 as int] == label[y] + 1,
            None => true,
        },
        forall|y: int| 0 <= y < n ==> (#[trigger] chain[y]) < n,
        forall|y: int| 0 <= y < n ==> (chain[y] == y || (par[y] matches Some(q)
            && bigchild[q as int] == Some(y as usize)
            && #[trigger] chain[y] == chain[q as int])),
        is_anc(par, depth, p, v),
        fuel1 + depth[p as int] >= depth[v as int],
        fuel2 + depth[p as int] >= depth[v as int],
    ensures
        walk_single(par, depth, label, chain, v, p, fuel1)
            == walk_single(par, depth, label, chain, v, p, fuel2),
    decreases depth[v as int],
{
    if depth[p as int] >= depth[v as int] {
        lemma_walk_single_done(par, depth, label, chain, v, p, fuel1);
        lemma_walk_single_done(par, depth, label, chain, v, p, fuel2);
    } else {
        lemma_hop_facts(par, depth, label, chain, bigchild, n, v, p);
        let top = hop_top(par, depth, chain, v, p);
        let nxt = par[top as int]->0;
        lemma_walk_single_unfold(par, depth, label, chain, v, p, top, nxt, fuel1);
        lemma_walk_single_unfold(par, depth, label, chain, v, p, top, nxt, fuel2);
        lemma_walk_single_fuel(par, depth, label, chain, bigchild, n, nxt, p,
            (fuel1 - 1) as nat, (fuel2 - 1) as nat);
    }
}

/// The stored values along the strict upward walk from `v`: entry `i`
/// holds the value of `v`'s ancestor at distance `i`, for the `k` nodes
/// from `v` up to, but not including, the ancestor at distance `k`.
pub open spec fn chain_vals<T>(
    par: Seq<Option<usize>>,
    label: Seq<usize>,
    contents: Seq<T>,
    v: usize,
    k: nat,
) -> Seq<T> {
    Seq::new(k, |i: int| contents[label[kth_opt(par, v, i as nat)->0 as int] as int])
}

/// The stored values along the simple path from `a` to `b`, in path order:
/// from `a` up to just below the lowest common ancestor, the ancestor
/// itself, then down to `b`.
pub open spec fn path_vals<T>(
    par: Seq<Option<usize>>,
    depth: Seq<usize>,
    label: Seq<usize>,
    contents: Seq<T>,
    a: usize,
    b: usize,
) -> Seq<T> {
    let l = lca_spec(par, depth, a, b);
    chain_vals(par, label, contents, a, (depth[a as int] - depth[l as int]) as nat)
        + seq![contents[label[l as int] as int]]
        + chain_vals(par, label, contents, b,
            (depth[b as int] - depth[l as int]) as nat).reverse()
}

/// For a commutative monoidal combine, a chain walk accumulates exactly the
/// fold of the walked nodes' values in upward order: each hop's label
/// interval holds those values reversed, and reversal does not change a
/// commutative fold.
#[verifier::rlimit(100)]
#[verifier::spinoff_prover]
proof fn lemma_walk_fold_is_chain_fold<T, C: CombineFn<T>>(
    c: C,
    e: T,
    par: Seq<Option<usize>>,
    depth: Seq<usize>,
    label: Seq<usize>,
    chain: Seq<usize>,
    bigchild: Seq<Option<usize>>,
    contents: Seq<T>,
    n: int,
    acc: T,
    v: usize,
    p: usize,
    fuel: nat,
)
    requires
        parent_wf(par, depth),
        par.len() == n,
        label.len() == n,
        chain.len() == n,
        bigchild.len() == n,
        contents.len() == n,
        v < n,
        p < n,
        forall|y: int| 0 <= y < n ==> (#[trigger] label[y]) < n,
        forall|y: int| 0 <= y < n ==> match #[trigger] bigchild[y] {
            Some(c2) => c2 < n && par[c2 as int] == Some(y as usize)
                && label[c2 as int] == label[y] + 1,
            None => true,
        },
        forall|y: int| 0 <= y < n ==> (#[trigger] chain[y]) < n,
        forall|y: int| 0 <= y < n ==> (chain[y] == y || (par[y] matches Some(q)
            && bigchild[q as int] == Some(y as usize)
            && #[trigger] chain[y] == chain[q as int])),
        combine_associative(c),
        combine_identity(c, e),
        combine_commutative(c),
        is_anc(par, depth, p, v),
        fuel + depth[p as int] >= depth[v as int],
    ensures
        walk_fold(c, e, par, depth, label, chain, contents, acc, v, p, fuel)
            == c.spec_combine(acc, cfold(c, e, chain_vals(par, label, contents, v,
                (depth[v as int] - depth[p as int]) as nat))),
    decreases depth[v as int],
{
    let dv = depth[v as int];
    let dp = depth[p as int];
    if dp >= dv {
        lemma_walk_done(c, e, par, depth, label, chain, contents, acc, v, p, fuel);
        assert(chain_vals(par, label, contents, v, (dv - dp) as nat)
            =~= Seq::<T>::empty());
    } else {
        lemma_hop_facts(par, depth, label, chain, bigchild, n, v, p);
        let top = hop_top(par, depth, chain, v, p);
        let dt = depth[top as int];
        let nxt = par[top as int]->0;
        lemma_walk_unfold(c, e, par, depth, label, chain, contents, acc, v, p, top, nxt,
            fuel);
        let seg_seq = contents.subrange(label[top as int] as int, label[v as int] + 1);
        let part = chain_vals(par, label, contents, v, (dv - dt + 1) as nat);
        // The chain head sits at or above the hop's top either way, so every
        // distance up to the hop length stays on the heavy run.
        assert(depth[chain[v as int] as int] <= dt) by {
            lemma_chain_run(par, depth, label, chain, bigchild, n, v, 0);
        }
        assert(seg_seq =~= part.reverse()) by {
            assert(label[top as int] + (dv - dt) == label[v as int]);
            assert forall|jj: int| 0 <= jj < seg_seq.len()
                implies seg_seq[jj] == part.reverse()[jj] by {
                let i = dv - dt - jj;
                lemma_chain_run(par, depth, label, chain, bigchild, n, v, i as nat);
                let w = kth_opt(par, v, i as nat)->0;
                assert(label[w as int] + i == label[v as int]);
                assert(part.reverse()[jj] == part[dv - dt - jj]);
            }
        }
        lemma_cfold_reverse(c, e, part);
        let rest = chain_vals(par, label, contents, nxt, (depth[nxt as int] - dp) as nat);
        let full = chain_vals(par, label, contents, v, (dv - dp) as nat);
        assert(full =~= part + rest) by {
            assert(kth_opt(par, v, (dv - dt + 1) as nat) == Some(nxt)) by {
                assert(is_anc(par, depth, nxt, v));
            }
            assert forall|j: int| 0 <= j < full.len() implies full[j] == (part + rest)[j] by {
                if j >= part.len() {
                    lemma_kth_compose(par, v, (dv - dt + 1) as nat,
                        (j - (dv - dt + 1)) as nat);
                    assert((part + rest)[j] == rest[j - part.len()]);
                }
            }
        }
        lemma_cfold_concat(c, e, part, rest);
        lemma_walk_fold_is_chain_fold(c, e, par, depth, label, chain, bigchild, contents,
            n, c.spec_combine(acc, cfold(c, e, seg_seq)), nxt, p, (fuel - 1) as nat);
    }
}

/// The facts one hop of the walk rests on: the hop's top node lies on the
/// same heavy run as the start (its label exactly the run distance earlier),
/// strictly below the stop node, and its parent continues the walk.
#[verifier::rlimit(100)]
#[verifier::spinoff_prover]
proof fn lemma_hop_facts(
    par: Seq<Option<usize>>,
    depth: Seq<usize>,
    label: Seq<usize>,
    chain: Seq<usize>,
    bigchild: Seq<Option<usize>>,
    n: int,
    v: usize,
    p: usize,
)
    requires
        parent_wf(par, depth),
        par.len() == n,
        label.len() == n,
        chain.len() == n,
        bigchild.len() == n,
        v < n,
        p < n,
        forall|y: int| 0 <= y < n ==> match #[trigger] bigchild[y] {
            Some(c2) => c2 < n && par[c2 as int] == Some(y as usize)
                && label[c2 as int] == label[y] + 1,
            None => true,
        },
        forall|y: int| 0 <= y < n ==> (#[trigger] chain[y]) < n,
        forall|y: int| 0 <= y < n ==> (chain[y] == y || (par[y] matches Some(q)
            && bigchild[q as int] == Some(y as usize)
            && #[trigger] chain[y] == chain[q as int])),
        is_anc(par, depth, p, v),
        depth[p as int] < depth[v as int],
    ensures
        ({
            let top = hop_top(par, depth, chain, v, p);
            &&& top < n
            &&& depth[p as int] < depth[top as int] <= depth[v as int]
            &&& label[top as int] + (depth[v as int] - depth[top as int])
                == label[v as int]
            &&& is_anc(par, depth, top, v)
            &&& (par[top as int] matches Some(nxt) && nxt < n
                && depth[nxt as int] + 1 == depth[top as int]
                && is_anc(par, depth, p, nxt) && is_anc(par, depth, nxt, v))
        }),
{
    let dv = depth[v as int];
    let dp = depth[p as int];
    let top = hop_top(par, depth, chain, v, p);
    lemma_chain_run(par, depth, label, chain, bigchild, n, v, 0);
    if depth[chain[v as int] as int] > dp {
        lemma_chain_run(par, depth, label, chain, bigchild, n, v,
            (dv - depth[chain[v as int] as int]) as nat);
    } else {
        lemma_kth_opt(par, depth, v, (dv - dp - 1) as nat);
        lemma_chain_run(par, depth, label, chain, bigchild, n, v, (dv - dp - 1) as nat);
    }
    let dt = depth[top as int];
    assert(dp < dt <= dv);
    assert(is_anc(par, depth, top, v)) by {
        lemma_kth_opt(par, depth, v, (dv - dt) as nat);
    }
    assert(par[top as int] is Some) by {
        if par[top as int] is None {
            assert(depth[top as int] == 0);
        }
    }
    let nxt = par[top as int]->0;
    assert(depth[nxt as int] + 1 == dt);
    lemma_anc_comparable(par, depth, p, top, v);
    assert(kth_opt(par, top, (dt - dp) as nat) == Some(p));
    assert(kth_opt(par, nxt, (dt - 1 - dp) as nat) == Some(p));
    assert(is_anc(par, depth, p, nxt));
    assert(is_anc(par, depth, nxt, v)) by {
        lemma_kth_compose(par, v, (dv - dt) as nat, 1);
        assert(kth_opt(par, nxt, 0) == Some(nxt));
        assert(kth_opt(par, top, 1) == Some(nxt));
        assert(kth_opt(par, v, (dv - dt + 1) as nat) == Some(nxt));
    }
}

/// A walk over nodes that all hold `val` accumulates `val` itself, for an
/// idempotent monoidal combine: every hop's label interval covers only
/// ancestors of the walk's start that lie strictly below the stop node.
#[verifier::rlimit(100)]
#[verifier::spinoff_prover]
proof fn lemma_walk_fold_constant<T, C: CombineFn<T>>(
    c: C,
    e: T,
    par: Seq<Option<usize>>,
    depth: Seq<usize>,
    label: Seq<usize>,
    chain: Seq<usize>,
    bigchild: Seq<Option<usize>>,
    contents: Seq<T>,
    n: int,
    acc: T,
    a: usize,
    v: usize,
    p: usize,
    val: T,
    fuel: nat,
)
    requires
        parent_wf(par, depth),
        par.len() == n,
        label.len() == n,
        chain.len() == n,
        bigchild.len() == n,
        contents.len() == n,
        a < n,
        v < n,
        p < n,
        forall|y: int| 0 <= y < n ==> (#[trigger] label[y]) < n,
        forall|y: int, w: int| 0 <= y < n && 0 <= w < n && y != w ==> label[y] != label[w],
        forall|y: int| 0 <= y < n ==> match #[trigger] bigchild[y] {
            Some(c2) => c2 < n && par[c2 as int] == Some(y as usize)
                && label[c2 as int] == label[y] + 1,
            None => true,
        },
        forall|y: int| 0 <= y < n ==> (#[trigger] chain[y]) < n,
        forall|y: int| 0 <= y < n ==> (chain[y] == y || (par[y] matches Some(q)
            && bigchild[q as int] == Some(y as usize)
            && #[trigger] chain[y] == chain[q as int])),
        combine_associative(c),
        combine_identity(c, e),
        combine_idempotent(c),
        is_anc(par, depth, p, v),
        is_anc(par, depth, v, a),
        fuel + depth[p as int] >= depth[v as int],
        acc == val || acc == e,
        forall|x: usize| x < n && #[trigger] is_anc(par, depth, x, a)
            && depth[x as int] > depth[p as int] ==> contents[label[x as int] as int] == val,
        depth[p as int] < depth[v as int] || acc == val,
    ensures
        walk_fold(c, e, par, depth, label, chain, contents, acc, v, p, fuel) == val,
    decreases depth[v as int],
{
    let dv = depth[v as int];
    let dp = depth[p as int];
    if dp >= dv {
    } else {
        lemma_hop_facts(par, depth, label, chain, bigchild, n, v, p);
        let top = hop_top(par, depth, chain, v, p);
        let dt = depth[top as int];
        let nxt = par[top as int]->0;
        // Every position of the hop's interval is the label of an ancestor
        // of `a` strictly below `p`, so the segment holds `val` throughout.
        assert(0 <= label[top as int] <= label[v as int] < n);
        let s = contents.subrange(label[top as int] as int, label[v as int] + 1);
        assert(s.len() == label[v as int] + 1 - label[top as int]);
        assert forall|j: int| 0 <= j < s.len() implies s[j] == val by {
            let k = label[v as int] - (label[top as int] + j);
            lemma_chain_run(par, depth, label, chain, bigchild, n, v, k as nat);
            let w = kth_opt(par, v, k as nat)->0;
            lemma_kth_opt(par, depth, v, k as nat);
            assert(depth[w as int] + k == dv);
            assert(kth_opt(par, v, (dv - depth[w as int]) as nat) == Some(w));
            assert(is_anc(par, depth, w, v));
            lemma_anc_trans(par, depth, w, v, a);
            assert(depth[w as int] >= dt > dp);
            assert(contents[label[w as int] as int] == val);
            assert(label[w as int] == label[top as int] + j);
        }
        lemma_cfold_constant(c, e, s, val);
        assert(c.spec_combine(acc, cfold(c, e, s)) == val);
        lemma_anc_trans(par, depth, nxt, v, a);
        lemma_walk_unfold(c, e, par, depth, label, chain, contents, acc, v, p, top, nxt,
            fuel);
        lemma_walk_fold_constant(c, e, par, depth, label, chain, bigchild, contents, n,
            val, a, nxt, p, val, (fuel - 1) as nat);
    }
}

/// The heavy-light decomposition engine: a `Tree` for ancestor queries, a
/// `SegmentTree` over node labels, and the derived chain structure.
///
/// After `init`, every node `v` carries a label — its position in the
/// segment tree — assigned in a depth-first order that always visits the
/// heavy child (the child with the largest subtree) first, so that every
/// heavy chain occupies one contiguous label interval.
pub struct Halide<T, C> {
    pub tree: Tree<T>,
    pub sz: Vec<usize>,
    pub bigchild: Vec<Option<usize>>,
    pub chain: Vec<usize>,
    pub label: Vec<usize>,
    pub seg_tree: SegmentTree<T, C, DefaultLazyApply, DefaultLazyFunc>,
    pub sentinel: T,
    pub initialized: bool,
}

impl<T: Copy, C: CombineFn<T>> Halide<T, C> {
    /// The number of nodes.
    pub open spec fn n(&self) -> int {
        self.tree.n()
    }

    /// The combine strategy.
    pub open spec fn cmb(&self) -> C {
        self.seg_tree.combine_fn
    }

    /// The current value of node `v`, as stored in the segment tree.
    pub open spec fn val_of(&self, v: int) -> T {
        self.seg_tree.contents()[self.label@[v] as int]
    }

    /// `x` lies on the simple path between `u` and `v`.
    pub open spec fn on_path(&self, x: usize, u: usize, v: usize) -> bool {
        let l = lca_spec(self.tree.par@, self.tree.depth@, u, v);
        &&& is_anc(self.tree.par@, self.tree.depth@, l, x)
        &&& (is_anc(self.tree.par@, self.tree.depth@, x, u)
            || is_anc(self.tree.par@, self.tree.depth@, x, v))
    }

    /// The aggregate the path decomposition between `a` and `b` denotes:
    /// the chain-interval folds of both climbing legs, combined, then the
    /// meeting node's own value.  `query` returns exactly this for a
    /// monoidal combine whenever the stored aggregates are exact (an
    /// idempotent combine, or only single positions assigned so far).
    pub open spec fn path_walk(&self, a: usize, b: usize) -> T {
        let l = lca_spec(self.tree.par@, self.tree.depth@, a, b);
        let wa = walk_fold(self.cmb(), self.sentinel, self.tree.par@, self.tree.depth@,
            self.label@, self.chain@, self.seg_tree.contents(), self.sentinel, a, l,
            (self.tree.depth@[a as int] + 1) as nat);
        let wb = walk_fold(self.cmb(), self.sentinel, self.tree.par@, self.tree.depth@,
            self.label@, self.chain@, self.seg_tree.contents(), self.sentinel, b, l,
            (self.tree.depth@[b as int] + 1) as nat);
        self.cmb().spec_combine(self.cmb().spec_combine(wa, wb), self.val_of(l as int))
    }

    /// The oracle behind the decomposition: for a commutative monoidal
    /// combine, the aggregate `query` returns equals the fold of the stored
    /// values of exactly the nodes on the simple path from `u` to `v`, in
    /// path order — under sum-combine, the path sum.  (Together with
    /// `query`'s ensures this pins the result whenever the stored aggregates
    /// are exact: an idempotent combine, or only single positions assigned.)
    pub proof fn lemma_query_is_path_fold(&self, u: usize, v: usize)
        requires
            self.wf(),
            self.initialized,
            u < self.n(),
            v < self.n(),
            combine_associative(self.cmb()),
            combine_identity(self.cmb(), self.sentinel),
            combine_commutative(self.cmb()),
        ensures
            self.path_walk(u, v) == cfold(self.cmb(), self.sentinel,
                path_vals(self.tree.par@, self.tree.depth@, self.label@,
                    self.seg_tree.contents(), u, v)),
    {
        let par = self.tree.par@;
        let depth = self.tree.depth@;
        let lbl = self.label@;
        let cont = self.seg_tree.contents();
        let c = self.cmb();
        let e = self.sentinel;
        let n = self.n();
        let l = lca_spec(par, depth, u, v);
        lemma_lca_is_common(par, depth, u, v);
        self.seg_tree.lemma_contents_len();
        lemma_walk_fold_is_chain_fold(c, e, par, depth, lbl, self.chain@, self.bigchild@,
            cont, n, e, u, l, (depth[u as int] + 1) as nat);
        lemma_walk_fold_is_chain_fold(c, e, par, depth, lbl, self.chain@, self.bigchild@,
            cont, n, e, v, l, (depth[v as int] + 1) as nat);
        let leg_u = chain_vals(par, lbl, cont, u, (depth[u as int] - depth[l as int]) as nat);
        let leg_v = chain_vals(par, lbl, cont, v, (depth[v as int] - depth[l as int]) as nat);
        let vl = cont[lbl[l as int] as int];
        let wu = cfold(c, e, leg_u);
        let wv = cfold(c, e, leg_v);
        // the decomposition value
        assert(self.path_walk(u, v) == c.spec_combine(c.spec_combine(wu, wv), vl));
        // the path fold, split at the meeting node
        lemma_cfold_concat(c, e, leg_u + seq![vl], leg_v.reverse());
        lemma_cfold_reverse(c, e, leg_v);
        assert((leg_u + seq![vl]).drop_last() =~= leg_u);
        assert((leg_u + seq![vl]).last() == vl);
        assert(cfold(c, e, leg_u + seq![vl]) == c.spec_combine(wu, vl));
        assert(cfold(c, e, path_vals(par, depth, lbl, cont, u, v))
            == c.spec_combine(c.spec_combine(wu, vl), wv));
        // commutative juggling of the meeting node's value
        assert(c.spec_combine(c.spec_combine(wu, vl), wv)
            == c.spec_combine(wu, c.spec_combine(vl, wv)));
        assert(c.spec_combine(vl, wv) == c.spec_combine(wv, vl));
        assert(c.spec_combine(wu, c.spec_combine(wv, vl))
            == c.spec_combine(c.spec_combine(wu, wv), vl));
    }

    /// For a commutative combine the two legs of the decomposition swap
    /// freely: `query(u, v)` and `query(v, u)` return the same aggregate.
    pub proof fn lemma_query_symmetric(&self, u: usize, v: usize)
        requires
            self.wf(),
            self.initialized,
            u < self.n(),
            v < self.n(),
            combine_commutative(self.cmb()),
        ensures
            self.path_walk(u, v) == self.path_walk(v, u),
    {
        crate::ancestry::lemma_lca_sym(self.tree.par@, self.tree.depth@, u, v);
    }

    /// The label structure built by `init`: labels are distinct positions
    /// below `n`, the heavy child always sits one label after its parent,
    /// and every chain pointer follows heavy edges upward.
    pub open spec fn hld_wf(&self) -> bool {
        &&& self.tree.initialized
        &&& forall|v: int| 0 <= v < self.n() ==> (#[trigger] self.label@[v]) < self.n()
        &&& forall|v: int, w: int| 0 <= v < self.n() && 0 <= w < self.n() && v != w
                ==> self.label@[v] != self.label@[w]
        &&& forall|v: int| 0 <= v < self.n() ==> match #[trigger] self.bigchild@[v] {
                Some(c) => c < self.n() && self.tree.par@[c as int] == Some(v as usize)
                    && self.label@[c as int] == self.label@[v] + 1,
                None => true,
            }
        &&& forall|v: int| 0 <= v < self.n() ==> (#[trigger] self.chain@[v]) < self.n()
        &&& forall|v: int| 0 <= v < self.n() ==> (self.chain@[v] == v || (
                self.tree.par@[v] matches Some(p)
                && self.bigchild@[p as int] == Some(v as usize)
                && #[trigger] self.chain@[v] == self.chain@[p as int]))
        &&& forall|v: int| 0 <= v < self.n() ==> match #[trigger] self.bigchild@[v] {
                Some(c) => self.chain@[c as int] == self.chain@[v],
                None => true,
            }
        &&& forall|v: int| 0 <= v < self.n() ==> #[trigger] self.bigchild@[v]
                == heavy_pick(self.tree.edges@[v]@, self.tree.par@, self.sz@, v as usize,
                    self.tree.edges@[v]@.len() as int).0
        &&& forall|v: usize| v < self.n()
                ==> (sub_sz(self.tree.edges@, self.tree.par@, self.tree.depth@, v)
                    <= usize::MAX
                    ==> (#[trigger] self.sz@[v as int])
                        == sub_sz(self.tree.edges@, self.tree.par@, self.tree.depth@, v))
    }

    /// The invariant every method preserves.
    pub open spec fn wf(&self) -> bool {
        &&& self.tree.inv()
        &&& self.initialized == self.tree.initialized
        &&& self.sz@.len() == self.n()
        &&& self.bigchild@.len() == self.n()
        &&& self.chain@.len() == self.n()
        &&& self.label@.len() == self.n()
        &&& self.seg_tree.wf()
        &&& self.seg_tree.n == self.n()
        &&& self.seg_tree.sentinel == self.sentinel
        &&& self.initialized ==> self.hld_wf()
    }

    /// Create an engine over `values.len()` nodes; node `i` initially holds
    /// `values[i]`.  `lg` is the width of the binary-lifting table: `init`
    /// fails unless `2^lg - 1` is at least the realized tree depth.
    /// `sentinel` must be the identity element of `combine_fn`, and is
    /// returned for empty ranges.  At least one node is required: the
    /// segment tree lays out one position per node over `[0, n)`.
    pub fn new(values: Vec<T>, lg: usize, combine_fn: C, sentinel: T) -> (h: Halide<T, C>)
        where T: Default
        requires
            1 <= values.len() <= usize::MAX / 64,
            lg <= 64,
        ensures
            h.wf(),
            !h.initialized,
            h.n() == values.len(),
            h.cmb() == combine_fn,
            h.sentinel == sentinel,
            h.tree.lg == lg,
            forall|i: int| 0 <= i < values.len()
                ==> (#[trigger] h.tree.nodes@[i]).value == values@[i],
            forall|i: int| 0 <= i < values.len()
                ==> (#[trigger] h.tree.edges@[i])@.len() == 0,
    {
        let n = values.len();
        let tree = Tree::new(n, values, lg);
        let lazy_apply = DefaultLazyApply;
        let lazy_func = DefaultLazyFunc;
        let lazy_sentinel: Option<T> = None;
        let seg_tree = SegmentTree::new(n, combine_fn, lazy_apply, lazy_func, sentinel,
            lazy_sentinel);
        let mut sz: Vec<usize> = Vec::new();
        let mut bigchild: Vec<Option<usize>> = Vec::new();
        let mut chain: Vec<usize> = Vec::new();
        let mut label: Vec<usize> = Vec::new();
        let mut i: usize = 0;
        while i < n
            invariant
                i <= n,
                sz@.len() == i,
                bigchild@.len() == i,
                chain@.len() == i,
                label@.len() == i,
            decreases n - i,
        {
            sz.push(0);
            bigchild.push(None);
            chain.push(i);
            label.push(0);
            i = i + 1;
        }
        Halide { tree, sz, bigchild, chain, label, seg_tree, sentinel, initialized: false }
    }

    /// Root the structure at `root` and build every derived array: the
    /// tree's ancestor tables, subtree sizes, heavy children, chain heads,
    /// and the heavy-first depth-first labels that seed the segment tree.
    /// Re-running `init`, possibly with a different root, rebuilds
    /// everything from the stored node values.
    ///
    /// Fails with `AncestorTableTooNarrow` when `2^lg - 1` is smaller than
    /// the realized tree depth, and with `Disconnected` when the recorded
    /// edges do not connect every node to `root`.
    pub fn init(&mut self, root: usize) -> (res: Result<(), InitError>)
        requires
            old(self).wf(),
            root < old(self).n(),
        ensures
            final(self).wf(),
            final(self).n() == old(self).n(),
            final(self).tree.nodes@ == old(self).tree.nodes@,
            final(self).tree.edges@ == old(self).tree.edges@,
            final(self).tree.lg == old(self).tree.lg,
            final(self).cmb() == old(self).cmb(),
            final(self).sentinel == old(self).sentinel,
            res is Ok ==> final(self).initialized && final(self).tree.root == root
                && final(self).label@[root as int] == 0
                && final(self).seg_tree.point_safe@
                && forall|v: int| 0 <= v < old(self).n()
                    ==> #[trigger] final(self).val_of(v)
                        == old(self).tree.nodes@[v].value,
            res is Err ==> !final(self).initialized,
            res == Err::<(), InitError>(InitError::AncestorTableTooNarrow)
                ==> vstd::arithmetic::power2::pow2(old(self).tree.lg as nat) < old(self).n(),
            res == Err::<(), InitError>(InitError::Disconnected)
                ==> exists|v: usize| v < old(self).n()
                    && !reaches(old(self).tree.edges@, root, v),
            (exists|pm: Seq<Option<usize>>, dm: Seq<usize>| spanning_map_ok(
                old(self).tree.edges@, root, pm, dm,
                vstd::arithmetic::power2::pow2(old(self).tree.lg as nat)))
                ==> res is Ok,
    {
        self.initialized = false;
        let r = self.tree.init(root);
        if let Err(e) = r {
            return Err(e);
        }
        let n = self.tree.node_count();
        let ghost t0 = self.tree;
        let ghost seg0 = self.seg_tree;

        // Subtree sizes, accumulated from the deepest level upward.
        proof {
            assert(size_ctx(t0.edges@, t0.par@, t0.depth@));
        }
        let mut buckets: Vec<Vec<usize>> = Vec::new();
        let mut i: usize = 0;
        while i < n
            invariant
                i <= n,
                buckets@.len() == i,
                forall|b: int| 0 <= b < i ==> (#[trigger] buckets@[b])@.len() == 0,
            decreases n - i,
        {
            buckets.push(Vec::new());
            i = i + 1;
        }
        let mut v: usize = 0;
        while v < n
            invariant
                v <= n,
                self.tree == t0,
                t0.inv() && t0.initialized && t0.n() == n,
                buckets@.len() == n,
                forall|b: int, jj: int| 0 <= b < n && 0 <= jj < buckets@[b]@.len()
                    ==> (#[trigger] buckets@[b]@[jj]) < v,
                forall|b: int, jj: int| 0 <= b < n && 0 <= jj < buckets@[b]@.len()
                    ==> t0.depth@[(#[trigger] buckets@[b]@[jj]) as int] == b,
                forall|b: int, j1: int, j2: int| 0 <= b < n
                    && 0 <= j1 < j2 < buckets@[b]@.len()
                    ==> buckets@[b]@[j1] != buckets@[b]@[j2],
                forall|y: int| 0 <= y < v
                    ==> (#[trigger] buckets@[t0.depth@[y] as int])@.contains(y as usize),
            decreases n - v,
        {
            let d = self.tree.depth[v];
            let ghost bpre = buckets@;
            buckets[d].push(v);
            proof {
                assert(buckets@ =~= bpre.update(d as int, buckets@[d as int]));
                assert(buckets@[d as int]@ == bpre[d as int]@.push(v));
                assert forall|y: int| 0 <= y < v + 1
                    implies (#[trigger] buckets@[t0.depth@[y] as int])@.contains(
                        y as usize) by {
                    if y == v {
                        let bl = buckets@[d as int]@;
                        assert(bl[bl.len() - 1] == v);
                    } else {
                        let b = t0.depth@[y] as int;
                        let jj = choose|jj: int| 0 <= jj < bpre[b]@.len()
                            && bpre[b]@[jj] == y as usize;
                        assert(buckets@[b]@[jj] == y as usize);
                    }
                }
            }
            v = v + 1;
        }
        let mut v2: usize = 0;
        while v2 < n
            invariant
                v2 <= n,
                self.tree == t0,
                self.seg_tree == seg0,
                self.sentinel == old(self).sentinel,
                t0.n() == n,
                self.sz@.len() == n,
                self.bigchild@.len() == n,
                self.chain@.len() == n,
                self.label@.len() == n,
                forall|y: int| 0 <= y < v2 ==> (#[trigger] self.sz@[y]) == 1,
            decreases n - v2,
        {
            self.sz.set(v2, 1);
            v2 = v2 + 1;
        }
        let mut d = n;
        while d > 0
            invariant
                d <= n,
                self.tree == t0,
                self.seg_tree == seg0,
                t0.inv() && t0.initialized && t0.n() == n,
                size_ctx(t0.edges@, t0.par@, t0.depth@),
                self.sentinel == old(self).sentinel,
                buckets@.len() == n,
                forall|b: int, jj: int| 0 <= b < n && 0 <= jj < buckets@[b]@.len()
                    ==> (#[trigger] buckets@[b]@[jj]) < n,
                forall|b: int, jj: int| 0 <= b < n && 0 <= jj < buckets@[b]@.len()
                    ==> t0.depth@[(#[trigger] buckets@[b]@[jj]) as int] == b,
                forall|b: int, j1: int, j2: int| 0 <= b < n
                    && 0 <= j1 < j2 < buckets@[b]@.len()
                    ==> buckets@[b]@[j1] != buckets@[b]@[j2],
                forall|y: int| 0 <= y < n
                    ==> (#[trigger] buckets@[t0.depth@[y] as int])@.contains(y as usize),
                self.sz@.len() == n,
                self.bigchild@.len() == n,
                self.chain@.len() == n,
                self.label@.len() == n,
                forall|y: usize| y < n && t0.depth@[y as int] >= d
                    ==> (sub_sz(t0.edges@, t0.par@, t0.depth@, y) <= usize::MAX
                        ==> (#[trigger] self.sz@[y as int])
                            == sub_sz(t0.edges@, t0.par@, t0.depth@, y)),
                forall|y: int| 0 <= y < n && t0.depth@[y] < d
                    ==> (#[trigger] self.sz@[y]) == 1,
            decreases d,
        {
            d = d - 1;
            let cnt = buckets[d].len();
            let mut j: usize = 0;
            while j < cnt
                invariant
                    j <= cnt,
                    d < n,
                    self.tree == t0,
                    self.seg_tree == seg0,
                    t0.inv() && t0.initialized && t0.n() == n,
                    size_ctx(t0.edges@, t0.par@, t0.depth@),
                    self.sentinel == old(self).sentinel,
                    buckets@.len() == n,
                    cnt == buckets@[d as int]@.len(),
                    forall|b: int, jj: int| 0 <= b < n && 0 <= jj < buckets@[b]@.len()
                        ==> (#[trigger] buckets@[b]@[jj]) < n,
                    forall|b: int, jj: int| 0 <= b < n && 0 <= jj < buckets@[b]@.len()
                        ==> t0.depth@[(#[trigger] buckets@[b]@[jj]) as int] == b,
                    forall|b: int, j1: int, j2: int| 0 <= b < n
                        && 0 <= j1 < j2 < buckets@[b]@.len()
                        ==> buckets@[b]@[j1] != buckets@[b]@[j2],
                    forall|y: int| 0 <= y < n
                        ==> (#[trigger] buckets@[t0.depth@[y] as int])@.contains(
                            y as usize),
                    self.sz@.len() == n,
                    self.bigchild@.len() == n,
                    self.chain@.len() == n,
                    self.label@.len() == n,
                    forall|y: usize| y < n && t0.depth@[y as int] > d
                        ==> (sub_sz(t0.edges@, t0.par@, t0.depth@, y) <= usize::MAX
                            ==> (#[trigger] self.sz@[y as int])
                                == sub_sz(t0.edges@, t0.par@, t0.depth@, y)),
                    forall|j2: int| 0 <= j2 < j
                        ==> (sub_sz(t0.edges@, t0.par@, t0.depth@,
                            buckets@[d as int]@[j2]) <= usize::MAX
                            ==> self.sz@[(#[trigger] buckets@[d as int]@[j2]) as int]
                                == sub_sz(t0.edges@, t0.par@, t0.depth@,
                                    buckets@[d as int]@[j2])),
                    forall|j2: int| j <= j2 < cnt
                        ==> self.sz@[(#[trigger] buckets@[d as int]@[j2]) as int] == 1,
                    forall|y: int| 0 <= y < n && t0.depth@[y] < d
                        ==> (#[trigger] self.sz@[y]) == 1,
                decreases cnt - j,
            {
                let w = buckets[d][j];
                let deg = self.tree.edges[w].len();
                let mut idx: usize = 0;
                while idx < deg
                    invariant
                        idx <= deg,
                        w < n,
                        j < cnt,
                        d < n,
                        w == buckets@[d as int]@[j as int],
                        t0.depth@[w as int] == d,
                        self.tree == t0,
                        self.seg_tree == seg0,
                        t0.inv() && t0.initialized && t0.n() == n,
                        size_ctx(t0.edges@, t0.par@, t0.depth@),
                        self.sentinel == old(self).sentinel,
                        deg == t0.edges@[w as int]@.len(),
                        buckets@.len() == n,
                        cnt == buckets@[d as int]@.len(),
                        forall|b: int, jj: int| 0 <= b < n && 0 <= jj < buckets@[b]@.len()
                            ==> (#[trigger] buckets@[b]@[jj]) < n,
                        forall|b: int, jj: int| 0 <= b < n && 0 <= jj < buckets@[b]@.len()
                            ==> t0.depth@[(#[trigger] buckets@[b]@[jj]) as int] == b,
                        forall|b: int, j1: int, j2: int| 0 <= b < n
                            && 0 <= j1 < j2 < buckets@[b]@.len()
                            ==> buckets@[b]@[j1] != buckets@[b]@[j2],
                        forall|y: int| 0 <= y < n
                            ==> (#[trigger] buckets@[t0.depth@[y] as int])@.contains(
                                y as usize),
                        self.sz@.len() == n,
                        self.bigchild@.len() == n,
                        self.chain@.len() == n,
                        self.label@.len() == n,
                        sub_sz(t0.edges@, t0.par@, t0.depth@, w) <= usize::MAX
                            ==> self.sz@[w as int]
                                == 1 + row_sz(t0.edges@, t0.par@, t0.depth@, w,
                                    idx as int),
                        forall|y: usize| y < n && t0.depth@[y as int] > d
                            ==> (sub_sz(t0.edges@, t0.par@, t0.depth@, y) <= usize::MAX
                                ==> (#[trigger] self.sz@[y as int])
                                    == sub_sz(t0.edges@, t0.par@, t0.depth@, y)),
                        forall|j2: int| 0 <= j2 < j
                            ==> (sub_sz(t0.edges@, t0.par@, t0.depth@,
                                buckets@[d as int]@[j2]) <= usize::MAX
                                ==> self.sz@[(#[trigger] buckets@[d as int]@[j2]) as int]
                                    == sub_sz(t0.edges@, t0.par@, t0.depth@,
                                        buckets@[d as int]@[j2])),
                        forall|j2: int| j < j2 < cnt
                            ==> self.sz@[(#[trigger] buckets@[d as int]@[j2]) as int]
                                == 1,
                        forall|y: int| 0 <= y < n && t0.depth@[y] < d
                            ==> (#[trigger] self.sz@[y]) == 1,
                    decreases deg - idx,
                {
                    let x = self.tree.edges[w][idx];
                    let is_child = match self.tree.par[x] {
                        Some(p) => p == w,
                        None => false,
                    };
                    proof {
                        assert(row_sz(t0.edges@, t0.par@, t0.depth@, w, idx + 1)
                            == row_sz(t0.edges@, t0.par@, t0.depth@, w, idx as int)
                                + (if t0.par@[x as int] == Some(w) {
                                    sub_sz(t0.edges@, t0.par@, t0.depth@, x)
                                } else {
                                    0
                                }));
                    }
                    if is_child {
                        let sw = self.sz[w];
                        let sx = self.sz[x];
                        proof {
                            if sub_sz(t0.edges@, t0.par@, t0.depth@, w) <= usize::MAX {
                                // The running total and the child's size both
                                // sit inside the full subtree size, so the
                                // addition cannot saturate.
                                assert(t0.depth@[x as int] == d + 1);
                                lemma_sz_bounds(t0.edges@, t0.par@, t0.depth@, w,
                                    idx as int);
                                lemma_sz_bounds(t0.edges@, t0.par@, t0.depth@, w,
                                    deg as int);
                                lemma_sz_bounds(t0.edges@, t0.par@, t0.depth@, x,
                                    t0.edges@[x as int]@.len() as int);
                                assert(row_sz(t0.edges@, t0.par@, t0.depth@, w, idx + 1)
                                    <= row_sz(t0.edges@, t0.par@, t0.depth@, w,
                                        deg as int));
                                assert(sub_sz(t0.edges@, t0.par@, t0.depth@, x)
                                    <= usize::MAX);
                                assert(sx == sub_sz(t0.edges@, t0.par@, t0.depth@, x));
                                assert(sw + sx <= usize::MAX);
                            }
                        }
                        if sw <= usize::MAX - sx {
                            self.sz.set(w, sw + sx);
                        } else {
                            self.sz.set(w, usize::MAX);
                        }
                        proof {
                            assert forall|j2: int| j < j2 < cnt
                                implies self.sz@[
                                    (#[trigger] buckets@[d as int]@[j2]) as int]
                                    == 1 by {
                                assert(buckets@[d as int]@[j2] != w);
                            }
                        }
                    }
                    idx = idx + 1;
                }
                proof {
                    if sub_sz(t0.edges@, t0.par@, t0.depth@, w) <= usize::MAX {
                        assert(self.sz@[w as int]
                            == sub_sz(t0.edges@, t0.par@, t0.depth@, w));
                    }
                }
                j = j + 1;
            }
            proof {
                assert forall|y: usize| y < n && t0.depth@[y as int] >= d
                    implies (sub_sz(t0.edges@, t0.par@, t0.depth@, y) <= usize::MAX
                        ==> (#[trigger] self.sz@[y as int])
                            == sub_sz(t0.edges@, t0.par@, t0.depth@, y)) by {
                    if t0.depth@[y as int] == d {
                        assert(buckets@[d as int]@.contains(y));
                        let j2 = choose|j2: int| 0 <= j2 < buckets@[d as int]@.len()
                            && buckets@[d as int]@[j2] == y;
                        assert(buckets@[d as int]@[j2] == y);
                    }
                }
            }
        }

        // Heavy children: for each node, the child with the strictly largest
        // subtree, the first such child in adjacency order winning ties.
        let mut v3: usize = 0;
        while v3 < n
            invariant
                v3 <= n,
                self.tree == t0,
                self.seg_tree == seg0,
                t0.inv() && t0.initialized && t0.n() == n,
                self.sentinel == old(self).sentinel,
                self.sz@.len() == n,
                self.bigchild@.len() == n,
                self.chain@.len() == n,
                self.label@.len() == n,
                forall|y: int| 0 <= y < v3 ==> match #[trigger] self.bigchild@[y] {
                    Some(c) => c < n && t0.par@[c as int] == Some(y as usize),
                    None => true,
                },
                forall|y: usize| y < n
                    ==> (sub_sz(t0.edges@, t0.par@, t0.depth@, y) <= usize::MAX
                        ==> (#[trigger] self.sz@[y as int])
                            == sub_sz(t0.edges@, t0.par@, t0.depth@, y)),
                forall|y: int| 0 <= y < v3 ==> #[trigger] self.bigchild@[y]
                    == heavy_pick(t0.edges@[y]@, t0.par@, self.sz@, y as usize,
                        t0.edges@[y]@.len() as int).0,
            decreases n - v3,
        {
            let deg = self.tree.edges[v3].len();
            let mut bigc: Option<usize> = None;
            let mut bigv: usize = 0;
            let mut idx: usize = 0;
            while idx < deg
                invariant
                    idx <= deg,
                    v3 < n,
                    self.tree == t0,
                    t0.inv() && t0.initialized && t0.n() == n,
                    deg == t0.edges@[v3 as int]@.len(),
                    self.sz@.len() == n,
                    match bigc {
                        Some(c) => c < n && t0.par@[c as int] == Some(v3),
                        None => true,
                    },
                    self.bigchild@.len() == n,
                    self.chain@.len() == n,
                    self.label@.len() == n,
                    self.seg_tree == seg0,
                    self.sentinel == old(self).sentinel,
                    forall|y: int| 0 <= y < v3 ==> #[trigger] self.bigchild@[y]
                        == heavy_pick(t0.edges@[y]@, t0.par@, self.sz@, y as usize,
                            t0.edges@[y]@.len() as int).0,
                    forall|y: int| 0 <= y < v3 ==> match #[trigger] self.bigchild@[y] {
                        Some(c) => c < n && t0.par@[c as int] == Some(y as usize),
                        None => true,
                    },
                    forall|y: usize| y < n
                        ==> (sub_sz(t0.edges@, t0.par@, t0.depth@, y) <= usize::MAX
                            ==> (#[trigger] self.sz@[y as int])
                                == sub_sz(t0.edges@, t0.par@, t0.depth@, y)),
                    (bigc, bigv) == heavy_pick(t0.edges@[v3 as int]@, t0.par@, self.sz@,
                        v3, idx as int),
                decreases deg - idx,
            {
                let x = self.tree.edges[v3][idx];
                let is_child = match self.tree.par[x] {
                    Some(p) => p == v3,
                    None => false,
                };
                if is_child {
                    let sx = self.sz[x];
                    if sx > bigv {
                        bigc = Some(x);
                        bigv = sx;
                    }
                }
                idx = idx + 1;
            }
            self.bigchild.set(v3, bigc);
            v3 = v3 + 1;
        }

        // Chain heads start out at every node and propagate across heavy
        // edges during the labeling pass.
        let mut v4: usize = 0;
        while v4 < n
            invariant
                v4 <= n,
                self.tree == t0,
                self.seg_tree == seg0,
                t0.n() == n,
                self.sentinel == old(self).sentinel,
                self.sz@.len() == n,
                self.bigchild@.len() == n,
                self.chain@.len() == n,
                self.label@.len() == n,
                forall|y: int| 0 <= y < n ==> match #[trigger] self.bigchild@[y] {
                    Some(c) => c < n && t0.par@[c as int] == Some(y as usize),
                    None => true,
                },
                forall|y: usize| y < n
                    ==> (sub_sz(t0.edges@, t0.par@, t0.depth@, y) <= usize::MAX
                        ==> (#[trigger] self.sz@[y as int])
                            == sub_sz(t0.edges@, t0.par@, t0.depth@, y)),
                forall|y: int| 0 <= y < n ==> #[trigger] self.bigchild@[y]
                    == heavy_pick(t0.edges@[y]@, t0.par@, self.sz@, y as usize,
                        t0.edges@[y]@.len() as int).0,
                forall|y: int| 0 <= y < v4 ==> (#[trigger] self.chain@[y]) == y,
            decreases n - v4,
        {
            self.chain.set(v4, v4);
            v4 = v4 + 1;
        }

        self.label_pass(root);
        self.initialized = true;
        Ok(())
    }

    /// The labeling pass: a depth-first traversal from the root that visits
    /// the heavy child of every node first, assigns labels from a running
    /// counter, propagates chain heads across heavy edges, and seeds the
    /// segment tree position of every node with its stored value.
    #[verifier::rlimit(100)]
    fn label_pass(&mut self, root: usize)
        requires
            old(self).tree.inv(),
            old(self).tree.initialized,
            old(self).tree.root == root,
            root < old(self).n(),
            old(self).sz@.len() == old(self).n(),
            old(self).bigchild@.len() == old(self).n(),
            old(self).chain@.len() == old(self).n(),
            old(self).label@.len() == old(self).n(),
            old(self).seg_tree.wf(),
            old(self).seg_tree.n == old(self).n(),
            forall|y: int| 0 <= y < old(self).n() ==> match #[trigger] old(self).bigchild@[y] {
                Some(c) => c < old(self).n()
                    && old(self).tree.par@[c as int] == Some(y as usize),
                None => true,
            },
            forall|y: int| 0 <= y < old(self).n() ==> (#[trigger] old(self).chain@[y]) == y,
        ensures
            final(self).tree == old(self).tree,
            final(self).sz == old(self).sz,
            final(self).bigchild@ == old(self).bigchild@,
            final(self).sentinel == old(self).sentinel,
            final(self).initialized == old(self).initialized,
            final(self).chain@.len() == old(self).n(),
            final(self).label@.len() == old(self).n(),
            final(self).seg_tree.wf(),
            final(self).seg_tree.n == old(self).seg_tree.n,
            final(self).seg_tree.combine_fn == old(self).seg_tree.combine_fn,
            final(self).seg_tree.sentinel == old(self).seg_tree.sentinel,
            final(self).seg_tree.point_safe@,
            forall|v: int| 0 <= v < old(self).n() ==> (#[trigger] final(self).label@[v])
                < old(self).n(),
            forall|v: int, w: int| 0 <= v < old(self).n() && 0 <= w < old(self).n() && v != w
                ==> final(self).label@[v] != final(self).label@[w],
            forall|v: int| 0 <= v < old(self).n()
                ==> match #[trigger] final(self).bigchild@[v] {
                    Some(c) => final(self).label@[c as int] == final(self).label@[v] + 1,
                    None => true,
                },
            forall|v: int| 0 <= v < old(self).n() ==> (#[trigger] final(self).chain@[v])
                < old(self).n(),
            forall|v: int| 0 <= v < old(self).n() ==> (final(self).chain@[v] == v || (
                old(self).tree.par@[v] matches Some(p)
                && old(self).bigchild@[p as int] == Some(v as usize)
                && #[trigger] final(self).chain@[v] == final(self).chain@[p as int])),
            forall|v: int| 0 <= v < old(self).n()
                ==> match #[trigger] old(self).bigchild@[v] {
                    Some(c) => final(self).chain@[c as int] == final(self).chain@[v],
                    None => true,
                },
            final(self).label@[root as int] == 0,
            forall|v: int| 0 <= v < old(self).n()
                ==> #[trigger] final(self).seg_tree.contents()[final(self).label@[v] as int]
                    == old(self).tree.nodes@[v].value,
    {
        let n = self.tree.node_count();
        let ghost t0 = self.tree;
        let ghost bc0 = self.bigchild@;
        self.seg_tree.reset();

        let mut visited: Vec<bool> = Vec::new();
        let mut i: usize = 0;
        while i < n
            invariant
                i <= n,
                visited@.len() == i,
                forall|j: int| 0 <= j < i ==> !(#[trigger] visited@[j]),
            decreases n - i,
        {
            visited.push(false);
            i = i + 1;
        }
        visited.set(root, true);
        let mut stack_v: Vec<usize> = Vec::new();
        stack_v.push(root);
        let mut t: usize = 0;
        let ghost mut lab: Set<int> = Set::empty();
        let ghost mut pend: Option<usize> = None;
        proof {
            vstd::set_lib::lemma_int_range(0, n as int);
            vstd::set_lib::lemma_len_subset(lab, vstd::set_lib::set_int_range(0, n as int));
            assert(stack_v@[0] == root);
            assert(stack_v@ =~= seq![root]);
            assert forall|x: int| lab.contains(x) <==> (marked(visited@, x)
                && !stack_v@.contains(x as usize)) by {
                assert(!lab.contains(x));
                if marked(visited@, x) {
                    if x == root {
                        assert(stack_v@.contains(root));
                    }
                }
            }
        }

        while stack_v.len() > 0
            invariant
                self.tree == t0,
                self.bigchild@ == bc0,
                bc0.len() == n,
                self.sz == old(self).sz,
                self.sentinel == old(self).sentinel,
                self.initialized == old(self).initialized,
                t0.inv(),
                t0.initialized,
                t0.root == root,
                t0.n() == n,
                root < n,
                self.chain@.len() == n,
                self.label@.len() == n,
                self.seg_tree.wf(),
                self.seg_tree.n == n,
                self.seg_tree.combine_fn == old(self).seg_tree.combine_fn,
                self.seg_tree.sentinel == old(self).seg_tree.sentinel,
                self.seg_tree.point_safe@,
                self.seg_tree.replace_laws(),
                self.seg_tree.contents().len() == n,
                forall|y: int| 0 <= y < n ==> match #[trigger] bc0[y] {
                    Some(c) => c < n && t0.par@[c as int] == Some(y as usize),
                    None => true,
                },
                visited@.len() == n,
                marked(visited@, root as int),
                forall|a: int, b: int| 0 <= a < b < stack_v@.len()
                    ==> stack_v@[a] != stack_v@[b],
                forall|a: int| 0 <= a < stack_v@.len()
                    ==> marked(visited@, #[trigger] stack_v@[a] as int),
                lab.finite(),
                t == lab.len(),
                lab.len() <= n,
                forall|x: int| lab.contains(x) <==> (marked(visited@, x)
                    && !stack_v@.contains(x as usize)),
                forall|x: int| #[trigger] lab.contains(x) ==> self.label@[x] < t,
                forall|x: int, y: int| lab.contains(x) && lab.contains(y) && x != y
                    ==> self.label@[x] != self.label@[y],
                forall|x: int| #[trigger] lab.contains(x)
                    ==> self.seg_tree.contents()[self.label@[x] as int]
                        == t0.nodes@[x].value,
                match pend {
                    None => forall|x: int| #[trigger] lab.contains(x)
                        ==> (bc0[x] matches Some(c) ==> lab.contains(c as int)
                            && self.label@[c as int] == self.label@[x] + 1),
                    Some(xs) => {
                        &&& xs < n
                        &&& lab.contains(xs as int)
                        &&& bc0[xs as int] matches Some(c) && !lab.contains(c as int)
                            && stack_v@.len() >= 1
                            && stack_v@[stack_v@.len() - 1] == c
                            && t == self.label@[xs as int] + 1
                        &&& forall|x: int| #[trigger] lab.contains(x) && x != xs
                            ==> (bc0[x] matches Some(c2) ==> lab.contains(c2 as int)
                                && self.label@[c2 as int] == self.label@[x] + 1)
                    },
                },
                forall|x: int| marked(visited@, x) ==> x == root
                    || (t0.par@[x] matches Some(p) && lab.contains(p as int)),
                forall|x: int| 0 <= x < n && (t0.par@[x] matches Some(p)
                    && lab.contains(p as int)) ==> marked(visited@, x),
                forall|x: int| 0 <= x < n ==> (#[trigger] self.chain@[x]) < n,
                forall|x: int| 0 <= x < n ==> (self.chain@[x] == x || (
                    t0.par@[x] matches Some(p) && bc0[p as int] == Some(x as usize)
                    && lab.contains(p as int)
                    && #[trigger] self.chain@[x] == self.chain@[p as int])),
                forall|x: int| #[trigger] lab.contains(x) ==> match bc0[x] {
                    Some(c) => self.chain@[c as int] == self.chain@[x],
                    None => true,
                },
                !lab.contains(root as int) ==> (t == 0 && stack_v@ == seq![root]),
                lab.contains(root as int) ==> self.label@[root as int] == 0,
            decreases n - lab.len(),
        {
            let ghost stack_pre = stack_v@;
            let v = stack_v.pop().unwrap();
            let ghost stack_now = stack_v@;
            proof {
                assert(!stack_now.contains(v)) by {
                    if stack_now.contains(v) {
                        let a = choose|a: int| 0 <= a < stack_now.len() && stack_now[a] == v;
                        assert(stack_pre[a] == stack_pre[stack_pre.len() - 1]);
                        assert(false);
                    }
                }
                assert(!lab.contains(v as int));
                vstd::set_lib::lemma_int_range(0, n as int);
                vstd::set_lib::lemma_len_subset(lab,
                    vstd::set_lib::set_int_range(0, n as int).remove(v as int));
                assert(lab.len() <= n - 1);
            }
            let ghost lab2 = lab.insert(v as int);
            self.label.set(v, t);
            let val = self.tree.nodes[v].value;
            self.seg_tree.point_update(t, val);
            proof {
                vstd::set_lib::lemma_int_range(0, n as int);
                vstd::set_lib::lemma_len_subset(lab2,
                    vstd::set_lib::set_int_range(0, n as int));
            }
            proof {
                assert forall|x: int| lab2.contains(x) <==> (marked(visited@, x)
                    && !stack_now.contains(x as usize)) by {
                    if x == v as int {
                    } else {
                        if stack_now.contains(x as usize) {
                            let a = choose|a: int| 0 <= a < stack_now.len()
                                && stack_now[a] == x as usize;
                            assert(stack_pre[a] == x as usize);
                        }
                        if stack_pre.contains(x as usize) {
                            let a = choose|a: int| 0 <= a < stack_pre.len()
                                && stack_pre[a] == x as usize;
                            if a < stack_pre.len() - 1 {
                                assert(stack_now[a] == x as usize);
                            }
                        }
                    }
                }
            }
            proof {
                match bc0[v as int] {
                    Some(c) => {
                        assert(t0.par@[c as int] == Some(v));
                        if marked(visited@, c as int) {
                            // A marked non-root node has a labeled parent; v
                            // is not labeled yet, and the root never has one.
                            assert(c != root);
                            assert(lab.contains(v as int));
                            assert(false);
                        }
                    }
                    None => {}
                }
            }
            let bc = self.bigchild[v];
            let deg = self.tree.edges[v].len();
            let mut idx = deg;
            while idx > 0
                invariant
                    idx <= deg,
                    v < n,
                    self.tree == t0,
                    self.bigchild@ == bc0,
                    self.sz == old(self).sz,
                    self.sentinel == old(self).sentinel,
                    self.initialized == old(self).initialized,
                    t0.inv(),
                    t0.initialized,
                    t0.root == root,
                    t0.n() == n,
                    root < n,
                    deg == t0.edges@[v as int]@.len(),
                    bc == bc0[v as int],
                    self.chain@.len() == n,
                    self.label@.len() == n,
                    self.seg_tree.wf(),
                    self.seg_tree.n == n,
                    self.seg_tree.combine_fn == old(self).seg_tree.combine_fn,
                    self.seg_tree.sentinel == old(self).seg_tree.sentinel,
                    self.seg_tree.point_safe@,
                    self.seg_tree.contents().len() == n,
                    forall|y: int| 0 <= y < n ==> match #[trigger] bc0[y] {
                        Some(c) => c < n && t0.par@[c as int] == Some(y as usize),
                        None => true,
                    },
                    visited@.len() == n,
                    marked(visited@, root as int),
                    marked(visited@, v as int),
                    !stack_v@.contains(v),
                    lab2 == lab.insert(v as int),
                    !lab.contains(v as int),
                    lab2.finite(),
                    lab2.len() == lab.len() + 1,
                    lab2.len() <= n,
                    t + 1 == lab2.len(),
                    self.label@[v as int] == t,
                    forall|a: int, b: int| 0 <= a < b < stack_v@.len()
                        ==> stack_v@[a] != stack_v@[b],
                    forall|a: int| 0 <= a < stack_v@.len()
                        ==> marked(visited@, #[trigger] stack_v@[a] as int),
                    forall|x: int| lab2.contains(x) <==> (marked(visited@, x)
                        && !stack_v@.contains(x as usize)),
                    forall|x: int| #[trigger] lab2.contains(x) ==> self.label@[x] < t + 1,
                    forall|x: int, y: int| lab2.contains(x) && lab2.contains(y) && x != y
                        ==> self.label@[x] != self.label@[y],
                    forall|x: int| #[trigger] lab2.contains(x)
                        ==> self.seg_tree.contents()[self.label@[x] as int]
                            == t0.nodes@[x].value,
                    // The node just labeled still owes its heavy child.
                    forall|x: int| #[trigger] lab2.contains(x) && x != v
                        ==> (bc0[x] matches Some(c2) ==> lab2.contains(c2 as int)
                            && self.label@[c2 as int] == self.label@[x] + 1),
                    bc0[v as int] matches Some(c) ==> c < n
                        && !marked(visited@, c as int),
                    forall|x: int| marked(visited@, x) ==> x == root
                        || (t0.par@[x] matches Some(p) && lab2.contains(p as int)),
                    forall|x: int| 0 <= x < n && (t0.par@[x] matches Some(p)
                        && lab.contains(p as int)) ==> marked(visited@, x),
                    // Children of v scanned so far are marked, except the
                    // heavy child.
                    forall|jj: int| idx <= jj < deg
                        && (t0.par@[t0.edges@[v as int]@[jj] as int] matches Some(p) && p == v)
                        ==> marked(visited@, #[trigger] t0.edges@[v as int]@[jj] as int)
                            || bc0[v as int] == Some(t0.edges@[v as int]@[jj]),
                    forall|x: int| 0 <= x < n ==> (#[trigger] self.chain@[x]) < n,
                    forall|x: int| 0 <= x < n ==> (self.chain@[x] == x || (
                        t0.par@[x] matches Some(p) && bc0[p as int] == Some(x as usize)
                        && lab2.contains(p as int)
                        && #[trigger] self.chain@[x] == self.chain@[p as int])),
                    forall|x: int| #[trigger] lab.contains(x) ==> match bc0[x] {
                        Some(c) => self.chain@[c as int] == self.chain@[x],
                        None => true,
                    },
                    !lab.contains(root as int) ==> (v == root && t == 0),
                    lab.contains(root as int) ==> self.label@[root as int] == 0,
                decreases idx,
            {
                idx = idx - 1;
                let x = self.tree.edges[v][idx];
                let is_child = match self.tree.par[x] {
                    Some(p) => p == v,
                    None => false,
                };
                let is_heavy = match bc {
                    Some(c) => c == x,
                    None => false,
                };
                if is_child && !is_heavy && !visited[x] {
                    let ghost stack_before = stack_v@;
                    let ghost visited_before = visited@;
                    visited.set(x, true);
                    stack_v.push(x);
                    proof {
                        let stack_mid = stack_v@;
                        assert(stack_mid == stack_before.push(x));
                        assert(!stack_before.contains(x));
                        assert forall|y: int| lab2.contains(y) <==> (marked(visited@, y)
                            && !stack_mid.contains(y as usize)) by {
                            if lab2.contains(y) || marked(visited@, y) {
                                if y == x as int {
                                    assert(stack_mid[stack_mid.len() - 1] == x);
                                    assert(stack_mid.contains(x));
                                    assert(!lab2.contains(x as int));
                                } else {
                                    assert(0 <= y < n);
                                    assert(marked(visited_before, y) == marked(visited@, y));
                                    if stack_mid.contains(y as usize) {
                                        let a = choose|a: int| 0 <= a < stack_mid.len()
                                            && stack_mid[a] == y as usize;
                                        assert(a < stack_mid.len() - 1);
                                        assert(stack_before[a] == y as usize);
                                    }
                                    if stack_before.contains(y as usize) {
                                        let a = choose|a: int| 0 <= a < stack_before.len()
                                            && stack_before[a] == y as usize;
                                        assert(stack_mid[a] == y as usize);
                                    }
                                }
                            }
                        }
                        assert forall|y: int| marked(visited@, y) implies y == root
                            || (t0.par@[y] matches Some(p) && lab2.contains(p as int)) by {
                            if y != x as int {
                                assert(marked(visited_before, y));
                            }
                        }
                        assert forall|y: int| 0 <= y < n && (t0.par@[y] matches Some(p)
                            && lab.contains(p as int)) implies marked(visited@, y) by {
                            if y != x as int {
                                assert(marked(visited_before, y));
                            }
                        }
                    }
                }
            }
            if let Some(c) = bc {
                proof {
                    assert(!marked(visited@, c as int));
                    assert(!stack_v@.contains(c)) by {
                        if stack_v@.contains(c) {
                            let a = choose|a: int| 0 <= a < stack_v@.len()
                                && stack_v@[a] == c;
                        }
                    }
                }
                let ghost stack_before = stack_v@;
                let ghost visited_pre_heavy = visited@;
                let ch = self.chain[v];
                self.chain.set(c, ch);
                visited.set(c, true);
                stack_v.push(c);
                proof {
                    pend = Some(v);
                    // the new chain entry serves exactly the pair (v, c);
                    // every other heavy pair is untouched, since c has no
                    // other parent and is itself still unlabeled
                    assert forall|x: int| #[trigger] lab2.contains(x)
                        implies match bc0[x] {
                            Some(c2) => self.chain@[c2 as int] == self.chain@[x],
                            None => true,
                        } by {
                        if x != v as int {
                            match bc0[x] {
                                Some(c2) => {
                                    assert(t0.par@[c2 as int] == Some(x as usize));
                                    assert(c2 != c);
                                    assert(x != c as int);
                                }
                                None => {}
                            }
                        }
                    }
                    let stack_mid = stack_v@;
                    assert(stack_mid == stack_before.push(c));
                    assert(stack_mid[stack_mid.len() - 1] == c);
                    assert(stack_mid.contains(c));
                    assert forall|y: int| lab2.contains(y) <==> (marked(visited@, y)
                        && !stack_mid.contains(y as usize)) by {
                        if lab2.contains(y) || marked(visited@, y) {
                            if y == c as int {
                                assert(!lab2.contains(c as int));
                            } else {
                                assert(0 <= y < n);
                                if stack_mid.contains(y as usize) {
                                    let a = choose|a: int| 0 <= a < stack_mid.len()
                                        && stack_mid[a] == y as usize;
                                    assert(a < stack_mid.len() - 1);
                                    assert(stack_before[a] == y as usize);
                                }
                                if stack_before.contains(y as usize) {
                                    let a = choose|a: int| 0 <= a < stack_before.len()
                                        && stack_before[a] == y as usize;
                                    assert(stack_mid[a] == y as usize);
                                }
                            }
                        }
                    }
                    assert forall|y: int| marked(visited@, y) implies y == root
                        || (t0.par@[y] matches Some(p) && lab2.contains(p as int)) by {
                        if y != c as int {
                            assert(marked(visited_pre_heavy, y));
                        }
                    }
                    assert forall|y: int| 0 <= y < n && (t0.par@[y] matches Some(p)
                        && lab.contains(p as int)) implies marked(visited@, y) by {
                        if y != c as int {
                            assert(marked(visited_pre_heavy, y));
                        }
                    }
                    assert forall|x: int| 0 <= x < n implies (self.chain@[x] == x || (
                        t0.par@[x] matches Some(p) && bc0[p as int] == Some(x as usize)
                        && lab2.contains(p as int)
                        && #[trigger] self.chain@[x] == self.chain@[p as int])) by {
                        if x != c {
                            if !(self.chain@[x] == x) {
                                let p = t0.par@[x]->0;
                                assert(p != c as int || bc0[c as int] != Some(x as usize)
                                    || lab.contains(c as int) == false);
                            }
                        }
                    }
                }
            } else {
                proof {
                    pend = None;
                }
            }
            let ghost visited_end = visited@;
            proof {
                assert forall|x: int| 0 <= x < n && (t0.par@[x] matches Some(p)
                    && lab2.contains(p as int)) implies marked(visited_end, x) by {
                    let p = t0.par@[x]->0;
                    if p as int == v as int {
                        assert(t0.edges@[v as int]@.contains(x as usize));
                        let jj = choose|jj: int| 0 <= jj < t0.edges@[v as int]@.len()
                            && t0.edges@[v as int]@[jj] == x as usize;
                        // Every scanned child is marked, except the heavy
                        // child, which the final push marked.
                        assert(marked(visited_end, x) || bc0[v as int] == Some(x as usize));
                    } else {
                        assert(lab.contains(p as int));
                    }
                }
                lab = lab2;
            }
            t = t + 1;
        }

        // The stack is empty, so the visited set is closed under children;
        // every node is therefore labeled.
        proof {
            assert forall|x: int| 0 <= x < n implies lab.contains(x) by {
                lemma_reaches_all(&t0, visited@, lab, root, x as usize);
            }
            if pend matches Some(xs) {
                assert(false);
            }
            assert forall|v: int| 0 <= v < n implies (#[trigger] self.label@[v]) < n by {
                assert(lab.contains(v));
            }
            assert forall|v: int, w: int| 0 <= v < n && 0 <= w < n && v != w
                implies self.label@[v] != self.label@[w] by {
                assert(lab.contains(v));
                assert(lab.contains(w));
            }
            assert forall|v: int| 0 <= v < n
                implies #[trigger] self.seg_tree.contents()[self.label@[v] as int]
                    == t0.nodes@[v].value by {
                assert(lab.contains(v));
            }
            assert forall|v: int| 0 <= v < n implies (match #[trigger] self.bigchild@[v] {
                Some(c) => self.label@[c as int] == self.label@[v] + 1,
                None => true,
            }) by {
                assert(lab.contains(v));
            }
            assert forall|v: int| 0 <= v < n implies (match #[trigger] bc0[v] {
                Some(c) => self.chain@[c as int] == self.chain@[v],
                None => true,
            }) by {
                assert(lab.contains(v));
            }
        }
    }

    /// Record the undirected edge `u - v`.  Edges can only be added before
    /// `init`.
    pub fn add_edge(&mut self, u: usize, v: usize)
        requires
            old(self).wf(),
            !old(self).initialized,
            u < old(self).n(),
            v < old(self).n(),
            u != v,
        ensures
            final(self).wf(),
            !final(self).initialized,
            final(self).n() == old(self).n(),
            final(self).tree.nodes@ == old(self).tree.nodes@,
            final(self).tree.lg == old(self).tree.lg,
            final(self).tree.edges@[u as int]@ == old(self).tree.edges@[u as int]@.push(v),
            final(self).tree.edges@[v as int]@ == old(self).tree.edges@[v as int]@.push(u),
            forall|i: int| 0 <= i < old(self).n() && i != u && i != v
                ==> final(self).tree.edges@[i] == old(self).tree.edges@[i],
            final(self).seg_tree == old(self).seg_tree,
            final(self).sentinel == old(self).sentinel,
            final(self).cmb() == old(self).cmb(),
            final(self).sz == old(self).sz,
            final(self).bigchild == old(self).bigchild,
            final(self).chain == old(self).chain,
            final(self).label == old(self).label,
    {
        self.tree.add_edge(u, v);
    }

    /// The tree, for ancestor, depth and parent queries.
    pub fn tree(&self) -> (r: &Tree<T>)
        ensures
            *r == self.tree,
    {
        &self.tree
    }

    /// The lowest common ancestor of `a` and `b`.
    pub fn lca(&self, a: usize, b: usize) -> (r: usize)
        requires
            self.wf(),
            self.initialized,
            a < self.n(),
            b < self.n(),
        ensures
            r < self.n(),
            r == lca_spec(self.tree.par@, self.tree.depth@, a, b),
    {
        self.tree.lca(a, b)
    }

    /// The ancestor of `v` at distance `k`, or the sentinel `usize::MAX`
    /// when `k` exceeds the depth of `v`.
    pub fn get_kth_ancestor(&self, v: usize, k: usize) -> (r: usize)
        requires
            self.wf(),
            self.initialized,
            v < self.n(),
        ensures
            k <= self.tree.depth_of(v) ==> Some(r) == kth_opt(self.tree.par@, v, k as nat)
                && r < self.n(),
            k > self.tree.depth_of(v) ==> r == usize::MAX,
            k == 0 ==> r == v,
            k == self.tree.depth_of(v) ==> r == self.tree.root,
    {
        self.tree.get_kth_ancestor(v, k)
    }

    /// Assign `val` to every node on the path from `v` up to, but not
    /// including, its ancestor `p`, one heavy-chain label interval at a time.
    #[verifier::rlimit(100)]
    #[verifier::spinoff_prover]
    fn update_chain(&mut self, v: usize, p: usize, val: T)
        requires
            old(self).wf(),
            old(self).initialized,
            v < old(self).n(),
            p < old(self).n(),
            is_anc(old(self).tree.par@, old(self).tree.depth@, p, v),
        ensures
            final(self).wf(),
            final(self).initialized,
            final(self).tree == old(self).tree,
            final(self).label@ == old(self).label@,
            final(self).chain@ == old(self).chain@,
            final(self).bigchild@ == old(self).bigchild@,
            final(self).sz == old(self).sz,
            final(self).sentinel == old(self).sentinel,
            final(self).cmb() == old(self).cmb(),
            final(self).seg_tree.contents().len() == old(self).n(),
            final(self).seg_tree.point_safe@ == (old(self).seg_tree.point_safe@
                && walk_single(old(self).tree.par@, old(self).tree.depth@,
                    old(self).label@, old(self).chain@, v, p,
                    (old(self).tree.depth@[v as int] + 1) as nat)),
            forall|x: usize| x < old(self).n()
                && is_anc(old(self).tree.par@, old(self).tree.depth@, x, v)
                && old(self).tree.depth@[x as int] > old(self).tree.depth@[p as int]
                ==> #[trigger] final(self).val_of(x as int) == val,
            forall|x: usize| x < old(self).n()
                && !(is_anc(old(self).tree.par@, old(self).tree.depth@, x, v)
                    && old(self).tree.depth@[x as int] > old(self).tree.depth@[p as int])
                ==> #[trigger] final(self).val_of(x as int) == old(self).val_of(x as int),
    {
        let ghost t0 = self.tree;
        let ghost par = self.tree.par@;
        let ghost depth = self.tree.depth@;
        let ghost lbl = self.label@;
        let ghost n = self.n();
        let ghost v0 = v;
        let ghost mut single_ok: bool = true;
        let mut cur = v;
        proof {
            lemma_anc_refl(par, depth, v);
            self.seg_tree.lemma_contents_len();
        }
        while self.tree.depth[p] < self.tree.depth[cur]
            invariant
                self.wf(),
                self.initialized,
                self.tree == t0,
                par == t0.par@,
                depth == t0.depth@,
                self.label@ == lbl,
                self.chain@ == old(self).chain@,
                self.bigchild@ == old(self).bigchild@,
                self.sz == old(self).sz,
                self.sentinel == old(self).sentinel,
                self.cmb() == old(self).cmb(),
                self.tree == old(self).tree,
                lbl == old(self).label@,
                n == self.n(),
                self.seg_tree.contents().len() == n,
                self.seg_tree.point_safe@ == (old(self).seg_tree.point_safe@ && single_ok),
                walk_single(par, depth, lbl, old(self).chain@, v0, p,
                    (depth[v0 as int] + 1) as nat) == (single_ok && walk_single(par,
                    depth, lbl, old(self).chain@, cur, p, (depth[cur as int] + 1) as nat)),
                v0 < n,
                p < n,
                cur < n,
                is_anc(par, depth, p, cur),
                is_anc(par, depth, cur, v0),
                forall|x: usize| x < n && is_anc(par, depth, x, v0)
                    && depth[x as int] > depth[cur as int]
                    ==> #[trigger] self.val_of(x as int) == val,
                forall|x: usize| x < n && !(is_anc(par, depth, x, v0)
                    && depth[x as int] > depth[cur as int])
                    ==> #[trigger] self.val_of(x as int) == old(self).val_of(x as int),
            decreases self.tree.depth@[cur as int],
        {
            let ghost hpre = *self;
            let ghost segpre = self.seg_tree;
            let dp = self.tree.depth[p];
            let dc = self.tree.depth[cur];
            let top0 = self.chain[cur];
            proof {
                lemma_chain_run(par, depth, lbl, self.chain@, self.bigchild@, n, cur, 0);
            }
            let top = if self.tree.depth[top0] <= dp {
                // The chain head lies at or above the stop node: clamp to
                // the node just below p.
                let diff = dc - dp;
                proof {
                    lemma_kth_opt(par, depth, cur, (diff - 1) as nat);
                    lemma_chain_run(par, depth, lbl, self.chain@, self.bigchild@, n, cur,
                        (diff - 1) as nat);
                }
                self.tree.get_kth_ancestor(cur, diff - 1)
            } else {
                top0
            };
            let ghost dist = depth[cur as int] - depth[top as int];
            proof {
                lemma_chain_run(par, depth, lbl, self.chain@, self.bigchild@, n, cur,
                    dist as nat);
                assert(lbl[top as int] + dist == lbl[cur as int]);
                assert(depth[top as int] > dp);
            }
            let l1 = self.label[top];
            let l2 = self.label[cur];
            self.seg_tree.update(l1, l2, val);
            let qo = self.tree.get_parent(top);
            proof {
                assert(par[top as int] is Some) by {
                    if par[top as int] is None {
                        assert(depth[top as int] == 0);
                    }
                }
            }
            let q = match qo {
                Some(q) => q,
                None => top,
            };
            proof {
                self.seg_tree.lemma_contents_len();
                let dt = depth[top as int];
                // top lies on the heavy run from cur, strictly below p.
                assert(kth_opt(par, cur, dist as nat) == Some(top));
                assert(is_anc(par, depth, top, cur));
                lemma_anc_trans(par, depth, top, cur, v0);
                assert(kth_opt(par, v0, (depth[v0 as int] - dt) as nat) == Some(top));
                // q is top's parent, still at or below p.
                assert(kth_opt(par, q, 0) == Some(q));
                assert(kth_opt(par, top, 1) == Some(q));
                lemma_kth_compose(par, v0, (depth[v0 as int] - dt) as nat, 1);
                assert(kth_opt(par, v0, (depth[v0 as int] - dt + 1) as nat) == Some(q));
                assert(is_anc(par, depth, q, v0));
                lemma_anc_comparable(par, depth, p, top, cur);
                assert(kth_opt(par, top, (dt - dp) as nat) == Some(p));
                assert(kth_opt(par, q, (dt - 1 - dp) as nat) == Some(p));
                assert(is_anc(par, depth, p, q));
                // The hop is a single assignment exactly when the covered
                // label interval is a point; fold it into the running flag.
                single_ok = single_ok && (l1 == l2);
                assert(hop_top(par, depth, old(self).chain@, cur, p) == top);
                lemma_walk_single_unfold(par, depth, lbl, old(self).chain@, cur, p, top,
                    q, (depth[cur as int] + 1) as nat);
                lemma_walk_single_fuel(par, depth, lbl, old(self).chain@,
                    old(self).bigchild@, n, q, p, depth[cur as int] as nat,
                    (depth[q as int] + 1) as nat);
                // What this hop assigned: the labels of the run nodes.
                assert(self.seg_tree.contents() == assign_range(segpre.contents(), 0,
                    l1 as int, l2 as int, val));
                assert forall|x: usize| x < n implies #[trigger] self.val_of(x as int)
                    == (if is_anc(par, depth, x, v0) && depth[x as int] > depth[q as int] {
                        val
                    } else {
                        old(self).val_of(x as int)
                    }) by {
                    let lx = lbl[x as int];
                    assert(0 <= lx < n);
                    assert(self.val_of(x as int) == (if l1 <= lx <= l2 {
                        val
                    } else {
                        segpre.contents()[lx as int]
                    }));
                    if l1 <= lx <= l2 {
                        // the label interval holds exactly the run nodes
                        let j = l2 - lx;
                        lemma_chain_run(par, depth, lbl, self.chain@, self.bigchild@, n,
                            cur, j as nat);
                        let w = kth_opt(par, cur, j as nat)->0;
                        assert(lbl[w as int] == lx);
                        assert(w == x);
                        lemma_kth_opt(par, depth, cur, j as nat);
                        assert(is_anc(par, depth, x, cur));
                        lemma_anc_trans(par, depth, x, cur, v0);
                        assert(depth[x as int] + j == dc);
                        assert(depth[x as int] >= dt > depth[q as int]);
                        assert(is_anc(par, depth, x, v0)
                            && depth[x as int] > depth[q as int]);
                    } else {
                        if is_anc(par, depth, x, v0) && depth[x as int] > depth[q as int] {
                            if depth[x as int] > dc {
                                // assigned on an earlier hop
                                assert(hpre.val_of(x as int) == val);
                                assert(segpre.contents()[lx as int] == val);
                            } else {
                                // x lies between cur and top on this hop, so
                                // its label would be inside the interval
                                lemma_anc_comparable(par, depth, x, cur, v0);
                                let j = dc - depth[x as int];
                                assert(kth_opt(par, cur, j as nat) == Some(x));
                                lemma_chain_run(par, depth, lbl, self.chain@,
                                    self.bigchild@, n, cur, j as nat);
                                assert(lbl[x as int] + j == l2);
                                assert(l1 <= lx <= l2);
                                assert(false);
                            }
                        } else {
                            assert(hpre.val_of(x as int) == old(self).val_of(x as int));
                            assert(segpre.contents()[lx as int]
                                == old(self).val_of(x as int));
                        }
                    }
                }
            }
            cur = q;
        }
        proof {
            lemma_anc_same_depth(par, depth, p, cur);
            lemma_walk_single_done(par, depth, lbl, old(self).chain@, cur, p,
                (depth[cur as int] + 1) as nat);
        }
    }

    /// Assign `val` to every node on the simple path between `u` and `v`
    /// (inclusive), through the lowest common ancestor.  The segment tree
    /// stays point-safe — so later queries stay exact for any monoidal
    /// combine — exactly when both climbing legs assigned single labels
    /// only, as `walk_single` states.
    pub fn update(&mut self, u: usize, v: usize, val: T)
        requires
            old(self).wf(),
            old(self).initialized,
            u < old(self).n(),
            v < old(self).n(),
        ensures
            final(self).wf(),
            final(self).initialized,
            final(self).tree == old(self).tree,
            final(self).label@ == old(self).label@,
            final(self).chain@ == old(self).chain@,
            final(self).bigchild@ == old(self).bigchild@,
            final(self).sentinel == old(self).sentinel,
            final(self).cmb() == old(self).cmb(),
            final(self).seg_tree.point_safe@ == (old(self).seg_tree.point_safe@
                && walk_single(old(self).tree.par@, old(self).tree.depth@,
                    old(self).label@, old(self).chain@, u,
                    lca_spec(old(self).tree.par@, old(self).tree.depth@, u, v),
                    (old(self).tree.depth@[u as int] + 1) as nat)
                && walk_single(old(self).tree.par@, old(self).tree.depth@,
                    old(self).label@, old(self).chain@, v,
                    lca_spec(old(self).tree.par@, old(self).tree.depth@, u, v),
                    (old(self).tree.depth@[v as int] + 1) as nat)),
            forall|x: usize| x < old(self).n() && old(self).on_path(x, u, v)
                ==> #[trigger] final(self).val_of(x as int) == val,
            forall|x: usize| x < old(self).n() && !old(self).on_path(x, u, v)
                ==> #[trigger] final(self).val_of(x as int) == old(self).val_of(x as int),
    {
        let ghost par = self.tree.par@;
        let ghost depth = self.tree.depth@;
        let ghost n = self.n();
        let lc = self.lca(u, v);
        proof {
            lemma_lca_is_common(par, depth, u, v);
        }
        let ghost s0 = *self;
        self.update_chain(u, lc, val);
        let ghost s1 = *self;
        self.update_chain(v, lc, val);
        let ghost s2 = *self;
        let llc = self.label[lc];
        self.seg_tree.update(llc, llc, val);
        proof {
            self.seg_tree.lemma_contents_len();
            let ghost lbl = s0.label@;
            assert(self.seg_tree.contents() == assign_range(s2.seg_tree.contents(), 0,
                llc as int, llc as int, val));
            assert forall|x: usize| x < n implies #[trigger] self.val_of(x as int)
                == (if s0.on_path(x, u, v) { val } else { s0.val_of(x as int) }) by {
                let lx = lbl[x as int];
                assert(0 <= lx < n);
                assert(self.val_of(x as int) == (if lx == llc {
                    val
                } else {
                    s2.val_of(x as int)
                }));
                if x == lc {
                    lemma_anc_refl(par, depth, lc);
                    assert(s0.on_path(x, u, v));
                    assert(self.val_of(x as int) == val);
                } else {
                    assert(lx != llc);
                    assert(self.val_of(x as int) == s2.val_of(x as int));
                    if s0.on_path(x, u, v) {
                        if depth[x as int] == depth[lc as int] {
                            if is_anc(par, depth, x, u) {
                                lemma_anc_comparable(par, depth, x, lc, u);
                                lemma_anc_same_depth(par, depth, x, lc);
                            } else {
                                lemma_anc_comparable(par, depth, x, lc, v);
                                lemma_anc_same_depth(par, depth, x, lc);
                            }
                            assert(false);
                        }
                        assert(depth[x as int] > depth[lc as int]);
                        if is_anc(par, depth, x, v) {
                            assert(s2.val_of(x as int) == val);
                        } else {
                            assert(is_anc(par, depth, x, u));
                            assert(s1.val_of(x as int) == val);
                            assert(s2.val_of(x as int) == s1.val_of(x as int));
                        }
                    } else {
                        if is_anc(par, depth, x, u) && depth[x as int] > depth[lc as int] {
                            lemma_anc_comparable(par, depth, lc, x, u);
                            assert(s0.on_path(x, u, v));
                            assert(false);
                        }
                        if is_anc(par, depth, x, v) && depth[x as int] > depth[lc as int] {
                            lemma_anc_comparable(par, depth, lc, x, v);
                            assert(s0.on_path(x, u, v));
                            assert(false);
                        }
                        assert(s2.val_of(x as int) == s1.val_of(x as int));
                        assert(s1.val_of(x as int) == s0.val_of(x as int));
                    }
                }
            }
        }
    }

    /// Aggregate over the path from `v` up to, but not including, its
    /// ancestor `p`, one heavy-chain label interval at a time.  Flushing
    /// pending segment values mutates the backing arrays, but never the
    /// logical contents.
    #[verifier::rlimit(100)]
    #[verifier::spinoff_prover]
    fn query_chain(&mut self, v: usize, p: usize) -> (res: T)
        requires
            old(self).wf(),
            old(self).initialized,
            v < old(self).n(),
            p < old(self).n(),
            is_anc(old(self).tree.par@, old(self).tree.depth@, p, v),
        ensures
            final(self).wf(),
            final(self).initialized,
            final(self).tree == old(self).tree,
            final(self).label@ == old(self).label@,
            final(self).chain@ == old(self).chain@,
            final(self).bigchild@ == old(self).bigchild@,
            final(self).sz == old(self).sz,
            final(self).sentinel == old(self).sentinel,
            final(self).cmb() == old(self).cmb(),
            final(self).seg_tree.point_safe == old(self).seg_tree.point_safe,
            final(self).seg_tree.contents() == old(self).seg_tree.contents(),
            old(self).tree.depth@[p as int] == old(self).tree.depth@[v as int]
                ==> res == old(self).sentinel,
            old(self).seg_tree.monoid_laws() && (combine_idempotent(old(self).cmb())
                || old(self).seg_tree.point_safe@)
                ==> res == walk_fold(old(self).cmb(), old(self).sentinel,
                    old(self).tree.par@, old(self).tree.depth@, old(self).label@,
                    old(self).chain@, old(self).seg_tree.contents(), old(self).sentinel,
                    v, p, (old(self).tree.depth@[v as int] + 1) as nat),
    {
        let ghost dv0 = old(self).tree.depth@[v as int];
        let ghost t0 = self.tree;
        let ghost par = self.tree.par@;
        let ghost depth = self.tree.depth@;
        let ghost lbl = self.label@;
        let ghost n = self.n();
        let mut val = self.seg_tree.get_sentinel();
        let mut cur = v;
        proof {
            lemma_anc_refl(par, depth, v);
            self.seg_tree.lemma_contents_len();
        }
        while self.tree.depth[p] < self.tree.depth[cur]
            invariant
                self.wf(),
                self.initialized,
                self.tree == t0,
                par == t0.par@,
                depth == t0.depth@,
                self.label@ == lbl,
                self.chain@ == old(self).chain@,
                self.bigchild@ == old(self).bigchild@,
                self.sz == old(self).sz,
                self.sentinel == old(self).sentinel,
                self.cmb() == old(self).cmb(),
                self.tree == old(self).tree,
                lbl == old(self).label@,
                n == self.n(),
                self.seg_tree.point_safe == old(self).seg_tree.point_safe,
                self.seg_tree.contents() == old(self).seg_tree.contents(),
                p < n,
                cur < n,
                is_anc(par, depth, p, cur),
                depth[cur as int] <= dv0,
                depth[p as int] < dv0 || (val == old(self).sentinel && cur == v),
                old(self).seg_tree.sentinel == old(self).sentinel,
                old(self).seg_tree.monoid_laws() && (combine_idempotent(old(self).cmb())
                    || old(self).seg_tree.point_safe@)
                    ==> walk_fold(old(self).cmb(), old(self).sentinel, par, depth, lbl,
                        old(self).chain@, old(self).seg_tree.contents(), val, cur, p,
                        (depth[cur as int] + 1) as nat)
                        == walk_fold(old(self).cmb(), old(self).sentinel, par, depth, lbl,
                            old(self).chain@, old(self).seg_tree.contents(),
                            old(self).sentinel, v, p, (dv0 + 1) as nat),
            decreases self.tree.depth@[cur as int],
        {
            let dp = self.tree.depth[p];
            let dc = self.tree.depth[cur];
            let top0 = self.chain[cur];
            proof {
                lemma_chain_run(par, depth, lbl, self.chain@, self.bigchild@, n, cur, 0);
            }
            let top = if self.tree.depth[top0] <= dp {
                let diff = dc - dp;
                proof {
                    lemma_kth_opt(par, depth, cur, (diff - 1) as nat);
                    lemma_chain_run(par, depth, lbl, self.chain@, self.bigchild@, n, cur,
                        (diff - 1) as nat);
                }
                self.tree.get_kth_ancestor(cur, diff - 1)
            } else {
                top0
            };
            let ghost dist = depth[cur as int] - depth[top as int];
            proof {
                lemma_chain_run(par, depth, lbl, self.chain@, self.bigchild@, n, cur,
                    dist as nat);
                assert(depth[top as int] > dp);
            }
            let l1 = self.label[top];
            let l2 = self.label[cur];
            let ghost segpre = self.seg_tree;
            let part = self.seg_tree.query(l1, l2);
            let ghost valpre = val;
            val = self.seg_tree.combine_fn.combine(val, part);
            let qo = self.tree.get_parent(top);
            proof {
                assert(par[top as int] is Some) by {
                    if par[top as int] is None {
                        assert(depth[top as int] == 0);
                    }
                }
            }
            let q = match qo {
                Some(q) => q,
                None => top,
            };
            proof {
                let dt = depth[top as int];
                assert(kth_opt(par, cur, dist as nat) == Some(top));
                assert(is_anc(par, depth, top, cur));
                lemma_anc_comparable(par, depth, p, top, cur);
                assert(kth_opt(par, top, (dt - dp) as nat) == Some(p));
                assert(kth_opt(par, q, (dt - 1 - dp) as nat) == Some(p));
                assert(is_anc(par, depth, p, q));
                let c = old(self).cmb();
                let e = old(self).sentinel;
                let cont = old(self).seg_tree.contents();
                if old(self).seg_tree.monoid_laws() && (combine_idempotent(c)
                    || old(self).seg_tree.point_safe@) {
                    // This hop contributes exactly the fold of its label
                    // interval; the spec walk takes the same step.
                    assert(segpre.replace_laws());
                    assert(segpre.combine_fn == c && segpre.sentinel == e);
                    assert(combine_associative(c) && combine_identity(c, e));
                    assert(segpre.monoid_laws());
                    assert(part == cfold(c, e, cont.subrange(l1 as int, l2 as int + 1)));
                    assert(hop_top(par, depth, old(self).chain@, cur, p) == top);
                    lemma_walk_step(c, e, par, depth, lbl, old(self).chain@,
                        old(self).bigchild@, cont, n, valpre, cur, p, top, q);
                }
            }
            cur = q;
        }
        proof {
            if old(self).seg_tree.monoid_laws() && (combine_idempotent(old(self).cmb())
                || old(self).seg_tree.point_safe@) {
                lemma_walk_done(old(self).cmb(), old(self).sentinel, par, depth, lbl,
                    old(self).chain@, old(self).seg_tree.contents(), val, cur, p,
                    (depth[cur as int] + 1) as nat);
            }
        }
        val
    }

    /// The aggregate of the values on the simple path between `u` and `v`
    /// (inclusive), combined through the lowest common ancestor.  Querying
    /// flushes pending segment values but never changes any node's value.
    pub fn query(&mut self, u: usize, v: usize) -> (res: T)
        requires
            old(self).wf(),
            old(self).initialized,
            u < old(self).n(),
            v < old(self).n(),
        ensures
            final(self).wf(),
            final(self).initialized,
            final(self).tree == old(self).tree,
            final(self).label@ == old(self).label@,
            final(self).chain@ == old(self).chain@,
            final(self).bigchild@ == old(self).bigchild@,
            final(self).sentinel == old(self).sentinel,
            final(self).cmb() == old(self).cmb(),
            final(self).seg_tree.point_safe == old(self).seg_tree.point_safe,
            forall|x: int| 0 <= x < old(self).n()
                ==> #[trigger] final(self).val_of(x) == old(self).val_of(x),
            u == v && combine_associative(old(self).cmb())
                && combine_identity(old(self).cmb(), old(self).sentinel)
                ==> res == old(self).val_of(u as int),
            old(self).seg_tree.monoid_laws() && (combine_idempotent(old(self).cmb())
                || old(self).seg_tree.point_safe@)
                ==> res == old(self).path_walk(u, v),
    {
        let ghost par = self.tree.par@;
        let ghost depth = self.tree.depth@;
        let ghost n = self.n();
        let lc = self.lca(u, v);
        proof {
            lemma_lca_is_common(par, depth, u, v);
            self.seg_tree.lemma_contents_len();
        }
        let val1 = self.query_chain(u, lc);
        let val2 = self.query_chain(v, lc);
        let combined = self.seg_tree.combine_fn.combine(val1, val2);
        let llc = self.label[lc];
        let lc_val = self.seg_tree.query(llc, llc);
        let res = self.seg_tree.combine_fn.combine(combined, lc_val);
        proof {
            if u == v && combine_associative(old(self).cmb())
                && combine_identity(old(self).cmb(), old(self).sentinel) {
                assert(lc == u);
                assert(val1 == old(self).sentinel);
                assert(val2 == old(self).sentinel);
                assert(combined == old(self).sentinel);
                assert(lc_val == old(self).val_of(u as int));
                assert(res == lc_val);
            }
            if old(self).seg_tree.monoid_laws() && (combine_idempotent(old(self).cmb())
                || old(self).seg_tree.point_safe@) {
                assert(lc_val == old(self).val_of(lc as int));
            }
        }
        res
    }

    /// The path between `u` and `v` does not depend on the order of its
    /// endpoints: updating `(u, v)` and updating `(v, u)` assign the same
    /// values to the same nodes.
    pub proof fn lemma_path_symmetric(&self, x: usize, u: usize, v: usize)
        requires
            self.wf(),
            self.initialized,
            u < self.n(),
            v < self.n(),
        ensures
            self.on_path(x, u, v) == self.on_path(x, v, u),
    {
        crate::ancestry::lemma_lca_sym(self.tree.par@, self.tree.depth@, u, v);
    }

    /// Round trip for an idempotent monoidal combine: once every node on the
    /// path between `a` and `b` holds `val` — as after `update(a, b, val)`,
    /// or between any two nodes of a freshly updated path — the aggregate
    /// `query(a, b)` returns is `val` itself.
    pub proof fn lemma_query_on_assigned_path(&self, a: usize, b: usize, val: T)
        requires
            self.wf(),
            self.initialized,
            a < self.n(),
            b < self.n(),
            combine_associative(self.cmb()),
            combine_identity(self.cmb(), self.sentinel),
            combine_idempotent(self.cmb()),
            forall|x: usize| x < self.n() && #[trigger] self.on_path(x, a, b)
                ==> self.val_of(x as int) == val,
        ensures
            self.path_walk(a, b) == val,
    {
        let par = self.tree.par@;
        let depth = self.tree.depth@;
        let n = self.n();
        let c = self.cmb();
        let e = self.sentinel;
        let cont = self.seg_tree.contents();
        let l = lca_spec(par, depth, a, b);
        lemma_lca_is_common(par, depth, a, b);
        self.seg_tree.lemma_contents_len();
        assert(self.on_path(l, a, b)) by {
            lemma_anc_refl(par, depth, l);
        }
        assert(cont[self.label@[l as int] as int] == val);
        assert forall|x: usize| x < n && #[trigger] is_anc(par, depth, x, a)
            && depth[x as int] > depth[l as int]
            implies cont[self.label@[x as int] as int] == val by {
            lemma_anc_comparable(par, depth, l, x, a);
            assert(self.on_path(x, a, b));
        }
        assert forall|x: usize| x < n && #[trigger] is_anc(par, depth, x, b)
            && depth[x as int] > depth[l as int]
            implies cont[self.label@[x as int] as int] == val by {
            lemma_anc_comparable(par, depth, l, x, b);
            crate::ancestry::lemma_lca_sym(par, depth, a, b);
            assert(self.on_path(x, a, b));
        }
        let wa = walk_fold(c, e, par, depth, self.label@, self.chain@, cont, e, a, l,
            (depth[a as int] + 1) as nat);
        let wb = walk_fold(c, e, par, depth, self.label@, self.chain@, cont, e, b, l,
            (depth[b as int] + 1) as nat);
        if depth[l as int] < depth[a as int] {
            lemma_walk_fold_constant(c, e, par, depth, self.label@, self.chain@,
                self.bigchild@, cont, n, e, a, a, l, val, (depth[a as int] + 1) as nat);
            assert(wa == val);
        } else {
            lemma_walk_done(c, e, par, depth, self.label@, self.chain@, cont, e, a, l,
                (depth[a as int] + 1) as nat);
            assert(wa == e);
        }
        if depth[l as int] < depth[b as int] {
            lemma_walk_fold_constant(c, e, par, depth, self.label@, self.chain@,
                self.bigchild@, cont, n, e, b, b, l, val, (depth[b as int] + 1) as nat);
            assert(wb == val);
        } else {
            lemma_walk_done(c, e, par, depth, self.label@, self.chain@, cont, e, b, l,
                (depth[b as int] + 1) as nat);
            assert(wb == e);
        }
        assert(self.path_walk(a, b) == c.spec_combine(c.spec_combine(wa, wb), val));
    }

    /// The path from a node to itself holds exactly that node.
    pub proof fn lemma_path_self(&self, x: usize, v: usize)
        requires
            self.wf(),
            self.initialized,
            x < self.n(),
            v < self.n(),
        ensures
            self.on_path(x, v, v) == (x == v),
    {
        let par = self.tree.par@;
        let depth = self.tree.depth@;
        if x == v {
            lemma_anc_refl(par, depth, v);
        }
        if self.on_path(x, v, v) {
            lemma_anc_same_depth(par, depth, lca_spec(par, depth, v, v), x);
            crate::ancestry::lemma_anc_antisym(par, depth, v, x);
        }
    }

    /// The label of a node: its position in the segment tree.
    pub fn get_label(&self, node: usize) -> (r: usize)
        requires
            self.wf(),
            node < self.n(),
        ensures
            r == self.label@[node as int],
    {
        self.label[node]
    }

    /// The depth of a node.
    pub fn get_depth(&self, node: usize) -> (r: usize)
        requires
            self.wf(),
            node < self.n(),
        ensures
            r == self.tree.depth_of(node),
    {
        self.tree.get_depth(node)
    }

    /// The parent of a node (`None` at the root).
    pub fn get_parent(&self, node: usize) -> (r: Option<usize>)
        requires
            self.wf(),
            node < self.n(),
        ensures
            r == self.tree.par@[node as int],
    {
        self.tree.get_parent(node)
    }

    /// The node with the given id, or `None` for an id out of range.
    pub fn get_node(&self, id: usize) -> (r: Option<&Node<T>>)
        ensures
            id < self.n() ==> (r matches Some(node) && *node == self.tree.nodes@[id as int]),
            id >= self.n() ==> r is None,
    {
        self.tree.get_node(id)
    }

    /// Mutable access to a node's stored value.  This changes only the node
    /// itself: the segment tree — and with it every `query` answer — is
    /// deliberately untouched, so a direct mutation becomes visible to
    /// queries only after a new `init` re-seeds the index.
    pub fn get_node_mut(&mut self, id: usize) -> (r: &mut Node<T>)
        requires
            old(self).wf(),
            id < old(self).n(),
        ensures
            *r == old(self).tree.nodes@[id as int],
            final(self).tree.nodes@ == old(self).tree.nodes@.update(id as int, *final(r)),
            final(r).id == id ==> final(self).wf(),
            final(self).initialized == old(self).initialized,
            final(self).seg_tree == old(self).seg_tree,
            final(self).sentinel == old(self).sentinel,
            final(self).label@ == old(self).label@,
            final(self).chain@ == old(self).chain@,
            final(self).bigchild@ == old(self).bigchild@,
            final(self).sz == old(self).sz,
            final(self).tree.par@ == old(self).tree.par@,
            final(self).tree.depth@ == old(self).tree.depth@,
            final(self).tree.edges@ == old(self).tree.edges@,
            final(self).tree.lift@ == old(self).tree.lift@,
            final(self).tree.lg == old(self).tree.lg,
            final(self).tree.root == old(self).tree.root,
            final(self).n() == old(self).n(),
            forall|v: int| 0 <= v < old(self).n()
                ==> #[trigger] final(self).val_of(v) == old(self).val_of(v),
    {
        self.tree.get_node_mut(id)
    }
}

} // verus!
