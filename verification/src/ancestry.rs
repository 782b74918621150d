//! The mathematical theory of rooted parent maps.
//!
//! A tree (or forest) is modelled by a parent map `par` together with a depth
//! map `depth`: every non-root node points to its parent, one level up.  All
//! ancestor, root and lowest-common-ancestor notions used in the contracts of
//! this crate are defined here, over plain sequences, together with the
//! lemmas that relate them.

use vstd::prelude::*;

verus! {

/// A parent map is well formed when every parent link stays inside the map
/// and decreases the recorded depth by exactly one, and every root (a node
/// without a parent) sits at depth zero.
pub open spec fn parent_wf(par: Seq<Option<usize>>, depth: Seq<usize>) -> bool {
    &&& par.len() == depth.len()
    &&& forall|v: int| 0 <= v < par.len() ==> match #[trigger] par[v] {
            None => depth[v] == 0,
            Some(p) => 0 <= p < par.len() && depth[v] == depth[p as int] + 1,
        }
}

/// The ancestor of `v` at distance `k`: `v` itself for `k == 0`, otherwise
/// `k` parent steps up; `None` once the walk runs past a root.
pub open spec fn kth_opt(par: Seq<Option<usize>>, v: usize, k: nat) -> Option<usize>
    decreases k,
{
    if k == 0 {
        Some(v)
    } else {
        match par[v as int] {
            None => None,
            Some(p) => kth_opt(par, p, (k - 1) as nat),
        }
    }
}

/// `w` lies on the root path of `v` (ancestor-or-self).
pub open spec fn is_anc(
    par: Seq<Option<usize>>,
    depth: Seq<usize>,
    w: usize,
    v: usize,
) -> bool {
    &&& depth[w as int] <= depth[v as int]
    &&& kth_opt(par, v, (depth[v as int] - depth[w as int]) as nat) == Some(w)
}

/// The root above `v`: the end of its parent chain.
pub open spec fn root_of(par: Seq<Option<usize>>, depth: Seq<usize>, v: usize) -> Option<usize> {
    kth_opt(par, v, depth[v as int] as nat)
}

/// The lowest common ancestor of `a` and `b`: walk the deeper node up until
/// the depths agree, then walk both up in step until they meet.
pub open spec fn lca_spec(par: Seq<Option<usize>>, depth: Seq<usize>, a: usize, b: usize) -> usize
    decreases depth[a as int] + depth[b as int],
        when parent_wf(par, depth) && 0 <= a < par.len() && 0 <= b < par.len()
{
    if a == b {
        a
    } else if depth[a as int] > depth[b as int] {
        match par[a as int] {
            Some(p) => lca_spec(par, depth, p, b),
            None => a,
        }
    } else if depth[b as int] > depth[a as int] {
        match par[b as int] {
            Some(p) => lca_spec(par, depth, a, p),
            None => b,
        }
    } else {
        match (par[a as int], par[b as int]) {
            (Some(pa), Some(pb)) => lca_spec(par, depth, pa, pb),
            _ => a,
        }
    }
}

/// The `k`-step walk stays in the map, loses exactly `k` depth, and exists
/// exactly as long as `k` does not exceed the depth of `v`.
pub proof fn lemma_kth_opt(par: Seq<Option<usize>>, depth: Seq<usize>, v: usize, k: nat)
    requires
        parent_wf(par, depth),
        v < par.len(),
    ensures
        k <= depth[v as int] ==> (kth_opt(par, v, k) matches Some(w) && w < par.len()
            && depth[w as int] + k == depth[v as int]),
        k > depth[v as int] ==> kth_opt(par, v, k) is None,
    decreases k,
{
    if k > 0 {
        match par[v as int] {
            None => {}
            Some(p) => {
                lemma_kth_opt(par, depth, p, (k - 1) as nat);
            }
        }
    }
}

/// Walking `a + b` steps is walking `a` steps, then `b` more.
pub proof fn lemma_kth_compose(par: Seq<Option<usize>>, v: usize, a: nat, b: nat)
    ensures
        kth_opt(par, v, a + b) == (match kth_opt(par, v, a) {
            None => None::<usize>,
            Some(w) => kth_opt(par, w, b),
        }),
    decreases a,
{
    if a > 0 {
        match par[v as int] {
            None => {
                assert(kth_opt(par, v, a + b) is None);
            }
            Some(p) => {
                lemma_kth_compose(par, p, (a - 1) as nat, b);
            }
        }
    }
}

/// Ancestor walks that start inside a parent-closed set of nodes are
/// unaffected by changes to the parent map outside that set.
pub proof fn lemma_kth_frame(
    par1: Seq<Option<usize>>,
    par2: Seq<Option<usize>>,
    s: Set<usize>,
    v: usize,
    k: nat,
)
    requires
        s.contains(v),
        forall|x: usize| #[trigger] s.contains(x) ==> x < par1.len()
            && par1[x as int] == par2[x as int]
            && (par1[x as int] matches Some(p) ==> s.contains(p)),
    ensures
        kth_opt(par1, v, k) == kth_opt(par2, v, k),
    decreases k,
{
    if k > 0 {
        match par1[v as int] {
            None => {}
            Some(p) => {
                lemma_kth_frame(par1, par2, s, p, (k - 1) as nat);
            }
        }
    }
}

/// Ancestor-or-self is reflexive.
pub proof fn lemma_anc_refl(par: Seq<Option<usize>>, depth: Seq<usize>, v: usize)
    ensures
        is_anc(par, depth, v, v),
{
}

/// A parent is an ancestor.
pub proof fn lemma_parent_anc(par: Seq<Option<usize>>, depth: Seq<usize>, v: usize, p: usize)
    requires
        parent_wf(par, depth),
        v < par.len(),
        par[v as int] == Some(p),
    ensures
        is_anc(par, depth, p, v),
{
    assert(kth_opt(par, p, 0) == Some(p));
    assert(kth_opt(par, v, 1) == Some(p));
}

/// Ancestor-or-self is transitive.
pub proof fn lemma_anc_trans(
    par: Seq<Option<usize>>,
    depth: Seq<usize>,
    w: usize,
    x: usize,
    v: usize,
)
    requires
        parent_wf(par, depth),
        w < par.len(),
        x < par.len(),
        v < par.len(),
        is_anc(par, depth, w, x),
        is_anc(par, depth, x, v),
    ensures
        is_anc(par, depth, w, v),
{
    let a = (depth[v as int] - depth[x as int]) as nat;
    let b = (depth[x as int] - depth[w as int]) as nat;
    lemma_kth_compose(par, v, a, b);
}

/// Two ancestors of the same node are comparable: the shallower one is an
/// ancestor of the deeper one.
pub proof fn lemma_anc_comparable(
    par: Seq<Option<usize>>,
    depth: Seq<usize>,
    w1: usize,
    w2: usize,
    v: usize,
)
    requires
        parent_wf(par, depth),
        w1 < par.len(),
        w2 < par.len(),
        v < par.len(),
        is_anc(par, depth, w1, v),
        is_anc(par, depth, w2, v),
        depth[w1 as int] <= depth[w2 as int],
    ensures
        is_anc(par, depth, w1, w2),
{
    let a = (depth[v as int] - depth[w2 as int]) as nat;
    let b = (depth[w2 as int] - depth[w1 as int]) as nat;
    lemma_kth_compose(par, v, a, b);
}

/// An ancestor at the same depth is the node itself.
pub proof fn lemma_anc_same_depth(
    par: Seq<Option<usize>>,
    depth: Seq<usize>,
    w: usize,
    v: usize,
)
    requires
        is_anc(par, depth, w, v),
        depth[w as int] == depth[v as int],
    ensures
        w == v,
{
    assert(kth_opt(par, v, 0) == Some(v));
}

/// Ancestor-or-self is antisymmetric.
pub proof fn lemma_anc_antisym(
    par: Seq<Option<usize>>,
    depth: Seq<usize>,
    w: usize,
    v: usize,
)
    requires
        is_anc(par, depth, w, v),
        is_anc(par, depth, v, w),
    ensures
        w == v,
{
    lemma_anc_same_depth(par, depth, w, v);
}

/// An ancestor has the same root.
pub proof fn lemma_anc_same_root(
    par: Seq<Option<usize>>,
    depth: Seq<usize>,
    w: usize,
    v: usize,
)
    requires
        parent_wf(par, depth),
        w < par.len(),
        v < par.len(),
        is_anc(par, depth, w, v),
    ensures
        root_of(par, depth, v) == root_of(par, depth, w),
{
    let a = (depth[v as int] - depth[w as int]) as nat;
    lemma_kth_compose(par, v, a, depth[w as int] as nat);
}

/// The lowest common ancestor is itself a common ancestor.
pub proof fn lemma_lca_is_common(
    par: Seq<Option<usize>>,
    depth: Seq<usize>,
    a: usize,
    b: usize,
)
    requires
        parent_wf(par, depth),
        a < par.len(),
        b < par.len(),
        root_of(par, depth, a) == root_of(par, depth, b),
    ensures
        lca_spec(par, depth, a, b) < par.len(),
        is_anc(par, depth, lca_spec(par, depth, a, b), a),
        is_anc(par, depth, lca_spec(par, depth, a, b), b),
    decreases depth[a as int] + depth[b as int],
{
    lemma_kth_opt(par, depth, a, depth[a as int] as nat);
    lemma_kth_opt(par, depth, b, depth[b as int] as nat);
    if a == b {
        lemma_anc_refl(par, depth, a);
    } else if depth[a as int] > depth[b as int] {
        let p = par[a as int].unwrap();
        lemma_parent_anc(par, depth, a, p);
        lemma_anc_same_root(par, depth, p, a);
        lemma_lca_is_common(par, depth, p, b);
        lemma_anc_trans(par, depth, lca_spec(par, depth, p, b), p, a);
    } else if depth[b as int] > depth[a as int] {
        let p = par[b as int].unwrap();
        lemma_parent_anc(par, depth, b, p);
        lemma_anc_same_root(par, depth, p, b);
        lemma_lca_is_common(par, depth, a, p);
        lemma_anc_trans(par, depth, lca_spec(par, depth, a, p), p, b);
    } else {
        // Equal depths, distinct nodes.  Depth zero would make each node its
        // own root, contradicting the shared root; so both parents exist.
        if depth[a as int] == 0 {
            assert(root_of(par, depth, a) == Some(a));
            assert(root_of(par, depth, b) == Some(b));
            assert(false);
        }
        let pa = par[a as int].unwrap();
        let pb = par[b as int].unwrap();
        lemma_parent_anc(par, depth, a, pa);
        lemma_parent_anc(par, depth, b, pb);
        lemma_anc_same_root(par, depth, pa, a);
        lemma_anc_same_root(par, depth, pb, b);
        lemma_lca_is_common(par, depth, pa, pb);
        lemma_anc_trans(par, depth, lca_spec(par, depth, pa, pb), pa, a);
        lemma_anc_trans(par, depth, lca_spec(par, depth, pa, pb), pb, b);
    }
}

/// Every common ancestor of `a` and `b` lies on the root path of their
/// lowest common ancestor: `lca_spec` is the deepest common ancestor.
pub proof fn lemma_lca_greatest(
    par: Seq<Option<usize>>,
    depth: Seq<usize>,
    a: usize,
    b: usize,
    w: usize,
)
    requires
        parent_wf(par, depth),
        a < par.len(),
        b < par.len(),
        w < par.len(),
        root_of(par, depth, a) == root_of(par, depth, b),
        is_anc(par, depth, w, a),
        is_anc(par, depth, w, b),
    ensures
        is_anc(par, depth, w, lca_spec(par, depth, a, b)),
    decreases depth[a as int] + depth[b as int],
{
    lemma_kth_opt(par, depth, a, (depth[a as int] - depth[w as int]) as nat);
    if a == b {
    } else if depth[a as int] > depth[b as int] {
        let p = par[a as int].unwrap();
        lemma_parent_anc(par, depth, a, p);
        lemma_anc_same_root(par, depth, p, a);
        // w is an ancestor of a that is at most as deep as p.
        lemma_anc_comparable(par, depth, w, p, a);
        lemma_lca_greatest(par, depth, p, b, w);
    } else if depth[b as int] > depth[a as int] {
        let p = par[b as int].unwrap();
        lemma_parent_anc(par, depth, b, p);
        lemma_anc_same_root(par, depth, p, b);
        lemma_anc_comparable(par, depth, w, p, b);
        lemma_lca_greatest(par, depth, a, p, w);
    } else {
        if depth[w as int] == depth[a as int] {
            lemma_anc_same_depth(par, depth, w, a);
            lemma_anc_same_depth(par, depth, w, b);
        } else {
            if depth[a as int] == 0 {
                assert(root_of(par, depth, a) == Some(a));
                assert(root_of(par, depth, b) == Some(b));
                assert(false);
            }
            let pa = par[a as int].unwrap();
            let pb = par[b as int].unwrap();
            lemma_parent_anc(par, depth, a, pa);
            lemma_parent_anc(par, depth, b, pb);
            lemma_anc_same_root(par, depth, pa, a);
            lemma_anc_same_root(par, depth, pb, b);
            lemma_anc_comparable(par, depth, w, pa, a);
            lemma_anc_comparable(par, depth, w, pb, b);
            lemma_lca_greatest(par, depth, pa, pb, w);
        }
    }
}

/// A node that is a common ancestor and at least as deep as every common
/// ancestor is the lowest common ancestor.
pub proof fn lemma_lca_char(
    par: Seq<Option<usize>>,
    depth: Seq<usize>,
    a: usize,
    b: usize,
    l: usize,
)
    requires
        parent_wf(par, depth),
        a < par.len(),
        b < par.len(),
        l < par.len(),
        root_of(par, depth, a) == root_of(par, depth, b),
        is_anc(par, depth, l, a),
        is_anc(par, depth, l, b),
        forall|w: usize| w < par.len() && #[trigger] is_anc(par, depth, w, a)
            && is_anc(par, depth, w, b) ==> depth[w as int] <= depth[l as int],
    ensures
        lca_spec(par, depth, a, b) == l,
{
    let lc = lca_spec(par, depth, a, b);
    lemma_lca_is_common(par, depth, a, b);
    lemma_lca_greatest(par, depth, a, b, l);
    assert(depth[lc as int] <= depth[l as int]);
    lemma_anc_same_depth(par, depth, l, lc);
}

/// The lowest common ancestor does not depend on the order of its arguments.
pub proof fn lemma_lca_sym(par: Seq<Option<usize>>, depth: Seq<usize>, a: usize, b: usize)
    requires
        parent_wf(par, depth),
        a < par.len(),
        b < par.len(),
        root_of(par, depth, a) == root_of(par, depth, b),
    ensures
        lca_spec(par, depth, a, b) == lca_spec(par, depth, b, a),
{
    let l = lca_spec(par, depth, b, a);
    lemma_lca_is_common(par, depth, b, a);
    assert forall|w: usize| w < par.len() && #[trigger] is_anc(par, depth, w, a)
        && is_anc(par, depth, w, b) implies depth[w as int] <= depth[l as int] by {
        lemma_lca_greatest(par, depth, b, a, w);
    }
    lemma_lca_char(par, depth, a, b, l);
}

/// The lowest common ancestor of a node and one of its ancestors is that
/// ancestor.
pub proof fn lemma_lca_of_anc(par: Seq<Option<usize>>, depth: Seq<usize>, a: usize, b: usize)
    requires
        parent_wf(par, depth),
        a < par.len(),
        b < par.len(),
        is_anc(par, depth, b, a),
    ensures
        lca_spec(par, depth, a, b) == b,
{
    lemma_anc_same_root(par, depth, b, a);
    lemma_anc_refl(par, depth, b);
    assert forall|w: usize| w < par.len() && #[trigger] is_anc(par, depth, w, a)
        && is_anc(par, depth, w, b) implies depth[w as int] <= depth[b as int] by {}
    lemma_lca_char(par, depth, a, b, b);
}

} // verus!
