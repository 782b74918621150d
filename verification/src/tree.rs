//! The rooted tree: node storage, adjacency, and — once initialized — depth,
//! parent and a binary-lifting ancestor table answering k-th-ancestor and
//! lowest-common-ancestor queries in O(log n).

use crate::ancestry::{is_anc, kth_opt, lca_spec, lemma_anc_same_depth, lemma_anc_trans,
    lemma_kth_compose, lemma_kth_frame, lemma_kth_opt, lemma_lca_char, lemma_lca_greatest,
    lemma_lca_is_common, lemma_lca_of_anc, lemma_lca_sym, parent_wf, root_of};
use crate::node::Node;
use vstd::arithmetic::power2::*;
use vstd::pervasive::VecAdditionalExecFns;
use vstd::prelude::*;
use vstd::set_lib::{lemma_int_range, lemma_len_subset, set_int_range};

verus! {

/// The binary-lifting entry for node `v` at level `k`, in a flat table of
/// `lg`-wide rows.
pub open spec fn lift_entry(lift: Seq<Option<usize>>, lg: int, v: int, k: int) -> Option<usize> {
    lift[v * lg + k]
}

/// Node `x` has been marked in the visit map.
spec fn seen(visited: Seq<bool>, x: int) -> bool {
    0 <= x < visited.len() && visited[x]
}

/// The facts the depth-first traversal establishes for one node: a visited
/// node is the root with no parent, or its parent is a visited node that is
/// no longer on the stack, one level up, with the connecting edge recorded.
spec fn dfs_node_ok<T>(
    t: Tree<T>,
    root: usize,
    visited: Seq<bool>,
    stack: Seq<usize>,
    x: int,
) -> bool {
    seen(visited, x) ==> match t.par@[x] {
        None => x == root,
        Some(p) => {
            &&& seen(visited, p as int)
            &&& !stack.contains(p)
            &&& t.depth@[x] == t.depth@[p as int] + 1
            &&& t.edges@[p as int]@.contains(x as usize)
        },
    }
}

/// `s` is a walk from `root` to `v` along the recorded adjacency lists.
pub open spec fn adj_walk(edges: Seq<Vec<usize>>, root: usize, s: Seq<usize>, v: usize) -> bool {
    &&& s.len() >= 1
    &&& s[0] == root
    &&& s[s.len() - 1] == v
    &&& forall|i: int| 0 <= i < s.len() - 1 ==> 0 <= #[trigger] s[i] < edges.len()
            && edges[s[i] as int]@.contains(s[i + 1])
}

/// `v` can be reached from `root` along the recorded edges.
pub open spec fn reaches(edges: Seq<Vec<usize>>, root: usize, v: usize) -> bool {
    exists|s: Seq<usize>| adj_walk(edges, root, s, v)
}

/// `pm` and `dm` form a well-formed parent and depth map, rooted exactly at
/// `root`, that retraces the recorded edges — every parent link follows a
/// recorded edge downward, every recorded edge is a parent link one way or
/// the other — with every depth below `bound`.  This is what the supplied
/// edges being a tree of fitting depth means: `init` must succeed whenever
/// such a map exists.
pub open spec fn spanning_map_ok(
    edges: Seq<Vec<usize>>,
    root: usize,
    pm: Seq<Option<usize>>,
    dm: Seq<usize>,
    bound: nat,
) -> bool {
    &&& pm.len() == edges.len()
    &&& dm.len() == edges.len()
    &&& parent_wf(pm, dm)
    &&& root < edges.len()
    &&& pm[root as int] is None
    &&& forall|x: int| 0 <= x < pm.len() && x != root ==> (#[trigger] pm[x]) is Some
    &&& forall|x: int| 0 <= x < pm.len() ==> ((#[trigger] pm[x]) matches Some(p)
            ==> edges[p as int]@.contains(x as usize))
    &&& forall|x: int, j: int| 0 <= x < edges.len() && 0 <= j < edges[x]@.len()
            ==> (pm[x] == Some(#[trigger] edges[x]@[j])
                || pm[edges[x]@[j] as int] == Some(x as usize))
    &&& forall|x: int| 0 <= x < dm.len() ==> (#[trigger] dm[x]) < bound
}

/// Every spanning map agrees with the computed parent and depth arrays on
/// the visited nodes: the traversal admits no other ancestry.
spec fn maps_agree(
    edges: Seq<Vec<usize>>,
    root: usize,
    bound: nat,
    par: Seq<Option<usize>>,
    depth: Seq<usize>,
    visited: Seq<bool>,
) -> bool {
    forall|pm: Seq<Option<usize>>, dm: Seq<usize>, x: int|
        #![trigger spanning_map_ok(edges, root, pm, dm, bound), pm[x]]
        spanning_map_ok(edges, root, pm, dm, bound) && seen(visited, x)
        ==> pm[x] == par[x] && dm[x] == depth[x]
}

/// A walk from a visited node stays within the visited set, once the
/// visited set is closed under adjacency.
proof fn lemma_walk_visited(
    edges: Seq<Vec<usize>>,
    visited: Seq<bool>,
    root: usize,
    s: Seq<usize>,
    v: usize,
)
    requires
        adj_walk(edges, root, s, v),
        visited.len() == edges.len(),
        seen(visited, root as int),
        forall|x: int, j: int| 0 <= x < edges.len() && seen(visited, x)
            && 0 <= j < edges[x]@.len() ==> seen(visited, (#[trigger] edges[x]@[j]) as int),
    ensures
        seen(visited, v as int),
    decreases s.len(),
{
    if s.len() == 1 {
    } else {
        let u = s[s.len() - 2];
        assert(adj_walk(edges, root, s.drop_last(), u)) by {
            assert forall|i: int| 0 <= i < s.drop_last().len() - 1
                implies 0 <= s.drop_last()[i] < edges.len()
                    && (#[trigger] edges[s.drop_last()[i] as int])@.contains(
                        s.drop_last()[i + 1]) by {
                assert(s.drop_last()[i] == s[i]);
                assert(s.drop_last()[i + 1] == s[i + 1]);
                assert(0 <= s[i] < edges.len()
                    && edges[s[i] as int]@.contains(s[i + 1]));
            }
        }
        lemma_walk_visited(edges, visited, root, s.drop_last(), u);
        assert(edges[u as int]@.contains(v));
        let j = choose|j: int| 0 <= j < edges[u as int]@.len() && edges[u as int]@[j] == v;
        assert(seen(visited, edges[u as int]@[j] as int));
    }
}

/// Every node of a spanning map is reachable from the root: the reversed
/// parent chain is a walk along recorded edges.
proof fn lemma_map_reaches(
    edges: Seq<Vec<usize>>,
    pm: Seq<Option<usize>>,
    dm: Seq<usize>,
    root: usize,
    v: usize,
    bound: nat,
)
    requires
        spanning_map_ok(edges, root, pm, dm, bound),
        v < edges.len(),
    ensures
        reaches(edges, root, v),
    decreases dm[v as int],
{
    if v == root {
        let s = seq![root];
        assert(adj_walk(edges, root, s, root));
        assert(reaches(edges, root, root));
    } else {
        let p = pm[v as int]->0;
        lemma_map_reaches(edges, pm, dm, root, p, bound);
        let s = choose|s: Seq<usize>| adj_walk(edges, root, s, p);
        let s2 = s.push(v);
        assert(adj_walk(edges, root, s2, v)) by {
            assert(s2[s2.len() - 1] == v);
            assert(s2[0] == root);
            assert forall|i: int| 0 <= i < s2.len() - 1
                implies 0 <= s2[i] < edges.len()
                    && (#[trigger] edges[s2[i] as int])@.contains(s2[i + 1]) by {
                if i < s.len() - 1 {
                    assert(s2[i] == s[i]);
                    assert(s2[i + 1] == s[i + 1]);
                    assert(0 <= s[i] < edges.len()
                        && edges[s[i] as int]@.contains(s[i + 1]));
                } else {
                    assert(s2[i] == p);
                    assert(s2[i + 1] == v);
                    assert(edges[p as int]@.contains(v));
                }
            }
        }
        assert(reaches(edges, root, v));
    }
}

/// Positions in the flattened lifting table collide only for the same node
/// and level.
proof fn lemma_flat_index(n: int, lg: int, v: int, k: int, v2: int, k2: int)
    requires
        0 <= v < n,
        0 <= k < lg,
        0 <= v2 < n,
        0 <= k2 < lg,
    ensures
        0 <= v * lg + k < n * lg,
        v * lg + k == v2 * lg + k2 ==> v == v2 && k == k2,
{
    assert(0 <= v * lg + k < n * lg) by (nonlinear_arith)
        requires
            0 <= v < n,
            0 <= k < lg,
    {}
    assert(v * lg + k == v2 * lg + k2 ==> v == v2 && k == k2) by (nonlinear_arith)
        requires
            0 <= v < n,
            0 <= k < lg,
            0 <= v2 < n,
            0 <= k2 < lg,
    {}
}

/// The flattened lifting table fits the address space.
proof fn lemma_table_fits(n: int, lg: int)
    requires
        0 <= n <= usize::MAX as int / 64,
        0 <= lg <= 64,
    ensures
        n * lg <= usize::MAX as int,
{
    assert(n * lg <= (usize::MAX as int / 64) * 64) by (nonlinear_arith)
        requires
            0 <= n <= usize::MAX as int / 64,
            0 <= lg <= 64,
    {}
}

/// One level of the lifting table: the ancestor at distance `2^k` is the
/// ancestor at distance `2^(k-1)` of the ancestor at distance `2^(k-1)`.
proof fn lemma_lift_level(par: Seq<Option<usize>>, v: usize, k: nat)
    requires
        k >= 1,
    ensures
        kth_opt(par, v, pow2(k)) == (match kth_opt(par, v, pow2((k - 1) as nat)) {
            None => None::<usize>,
            Some(p) => kth_opt(par, p, pow2((k - 1) as nat)),
        }),
{
    lemma_pow2_unfold(k);
    assert(pow2(k) == pow2((k - 1) as nat) + pow2((k - 1) as nat));
    lemma_kth_compose(par, v, pow2((k - 1) as nat), pow2((k - 1) as nat));
}

/// `lca(v, v) == v`: the lowest common ancestor of a node with itself is
/// that node.
pub proof fn lemma_lca_self<T>(t: &Tree<T>, v: usize)
    requires
        t.inv(),
        t.initialized,
        v < t.n(),
    ensures
        lca_spec(t.par@, t.depth@, v, v) == v,
{
}

/// `lca(a, b) == lca(b, a)`: the lowest common ancestor does not depend on
/// the order of its arguments.
pub proof fn lemma_lca_symmetric<T>(t: &Tree<T>, a: usize, b: usize)
    requires
        t.inv(),
        t.initialized,
        a < t.n(),
        b < t.n(),
    ensures
        lca_spec(t.par@, t.depth@, a, b) == lca_spec(t.par@, t.depth@, b, a),
{
    lemma_lca_sym(t.par@, t.depth@, a, b);
}

/// The lowest common ancestor lies on the root path of both arguments, and
/// is therefore at most as deep as either of them.
pub proof fn lemma_lca_on_both_root_paths<T>(t: &Tree<T>, a: usize, b: usize)
    requires
        t.inv(),
        t.initialized,
        a < t.n(),
        b < t.n(),
    ensures
        is_anc(t.par@, t.depth@, lca_spec(t.par@, t.depth@, a, b), a),
        is_anc(t.par@, t.depth@, lca_spec(t.par@, t.depth@, a, b), b),
        t.depth@[lca_spec(t.par@, t.depth@, a, b) as int] <= t.depth@[a as int],
        t.depth@[lca_spec(t.par@, t.depth@, a, b) as int] <= t.depth@[b as int],
{
    lemma_lca_is_common(t.par@, t.depth@, a, b);
}

/// Why `init` refused to build the ancestor structures.
#[derive(Debug, Clone, Copy, PartialEq, Eq)]
pub enum InitError {
    /// The realized depth of some node does not fit the ancestor table:
    /// `2^lg - 1` is smaller than the maximum node depth.
    AncestorTableTooNarrow,
    /// The supplied edges do not connect every node to the root.
    Disconnected,
}

/// A tree over nodes `0 .. n`, rooted by `init`.
///
/// The binary-lifting table is stored flat: the ancestor of `v` at distance
/// `2^k` sits at `lift[v * lg + k]`.
pub struct Tree<T> {
    pub nodes: Vec<Node<T>>,
    pub edges: Vec<Vec<usize>>,
    pub depth: Vec<usize>,
    pub par: Vec<Option<usize>>,
    pub lift: Vec<Option<usize>>,
    pub lg: usize,
    pub root: usize,
    pub initialized: bool,
}

impl<T> Tree<T> {
    /// The number of nodes.
    pub open spec fn n(&self) -> int {
        self.nodes@.len() as int
    }

    /// Shape of the backing storage, independent of initialization.
    pub open spec fn wf_basic(&self) -> bool {
        &&& self.par@.len() == self.n()
        &&& self.depth@.len() == self.n()
        &&& self.edges@.len() == self.n()
        &&& self.lift@.len() == self.n() * self.lg as int
        &&& self.n() <= usize::MAX as int / 64
        &&& self.lg <= 64
        &&& forall|i: int| 0 <= i < self.n() ==> (#[trigger] self.nodes@[i]).id == i
        &&& forall|i: int, j: int| 0 <= i < self.n() && 0 <= j < self.edges@[i]@.len()
                ==> (#[trigger] self.edges@[i]@[j]) < self.n()
    }

    /// The ancestor structures built by `init`: a well-formed parent map in
    /// which every node reaches the root, depths that fit the lifting table,
    /// a lifting table holding exactly the `2^k`-distance ancestors, and
    /// parent links that retrace supplied edges.
    pub open spec fn wf_init(&self) -> bool {
        &&& parent_wf(self.par@, self.depth@)
        &&& self.root < self.n()
        &&& self.par@[self.root as int] is None
        &&& forall|v: usize| v < self.n()
                ==> #[trigger] root_of(self.par@, self.depth@, v) == Some(self.root)
        &&& forall|v: int| 0 <= v < self.n() ==> (#[trigger] self.depth@[v]) < pow2(self.lg as nat)
        &&& forall|v: int| 0 <= v < self.n() ==> (#[trigger] self.depth@[v]) < self.n()
        &&& forall|v: int, k: int| 0 <= v < self.n() && 0 <= k < self.lg
                ==> #[trigger] lift_entry(self.lift@, self.lg as int, v, k)
                    == kth_opt(self.par@, v as usize, pow2(k as nat))
        &&& forall|v: int| 0 <= v < self.n() ==> match #[trigger] self.par@[v] {
                Some(p) => self.edges@[p as int]@.contains(v as usize),
                None => v == self.root,
            }
    }

    /// The invariant every method preserves.
    pub open spec fn inv(&self) -> bool {
        &&& self.wf_basic()
        &&& self.initialized ==> self.wf_init()
    }

    /// Depth of `v`, as the contracts speak of it.
    pub open spec fn depth_of(&self, v: usize) -> usize {
        self.depth@[v as int]
    }

    /// Create a tree of `n` nodes holding `values`, with no edges yet.
    pub fn new(n: usize, values: Vec<T>, lg: usize) -> (tree: Tree<T>) where T: Copy
        requires
            values.len() == n,
            n <= usize::MAX / 64,
            lg <= 64,
        ensures
            tree.inv(),
            !tree.initialized,
            tree.n() == n,
            tree.lg == lg,
            forall|i: int| 0 <= i < n ==> (#[trigger] tree.nodes@[i]).value == values@[i],
            forall|i: int| 0 <= i < n ==> (#[trigger] tree.edges@[i])@.len() == 0,
    {
        let mut nodes: Vec<Node<T>> = Vec::new();
        let mut edges: Vec<Vec<usize>> = Vec::new();
        let mut depth: Vec<usize> = Vec::new();
        let mut par: Vec<Option<usize>> = Vec::new();
        let mut i: usize = 0;
        while i < n
            invariant
                i <= n,
                n == values.len(),
                nodes@.len() == i,
                edges@.len() == i,
                depth@.len() == i,
                par@.len() == i,
                forall|j: int| 0 <= j < i ==> (#[trigger] nodes@[j]).id == j,
                forall|j: int| 0 <= j < i ==> (#[trigger] nodes@[j]).value == values@[j],
                forall|j: int| 0 <= j < i ==> (#[trigger] edges@[j])@.len() == 0,
            decreases n - i,
        {
            nodes.push(Node::new(i, values[i]));
            edges.push(Vec::new());
            depth.push(0);
            par.push(None);
            i = i + 1;
        }
        proof {
            assert(n * lg <= (usize::MAX / 64) * 64) by (nonlinear_arith)
                requires
                    n <= usize::MAX / 64,
                    lg <= 64,
            {}
        }
        let table = n * lg;
        let mut lift: Vec<Option<usize>> = Vec::new();
        let mut j: usize = 0;
        while j < table
            invariant
                j <= table,
                lift@.len() == j,
            decreases table - j,
        {
            lift.push(None);
            j = j + 1;
        }
        Tree { nodes, edges, depth, par, lift, lg, root: 0, initialized: false }
    }

    /// Record the undirected edge `u - v`: each endpoint is appended to the
    /// other's adjacency list.  Edges can only be added before `init`.
    pub fn add_edge(&mut self, u: usize, v: usize)
        requires
            old(self).inv(),
            !old(self).initialized,
            u < old(self).n(),
            v < old(self).n(),
            u != v,
        ensures
            final(self).inv(),
            !final(self).initialized,
            final(self).n() == old(self).n(),
            final(self).lg == old(self).lg,
            final(self).nodes@ == old(self).nodes@,
            final(self).edges@[u as int]@ == old(self).edges@[u as int]@.push(v),
            final(self).edges@[v as int]@ == old(self).edges@[v as int]@.push(u),
            forall|i: int| 0 <= i < old(self).n() && i != u && i != v
                ==> final(self).edges@[i] == old(self).edges@[i],
    {
        self.edges[u].push(v);
        self.edges[v].push(u);
    }

    /// Root the tree at `root`: a depth-first traversal over the recorded
    /// edges computes depth and parent for every node, and a second pass
    /// fills the binary-lifting ancestor table.  Re-running `init` with a
    /// different root is the supported way to rebuild.
    ///
    /// Fails with `AncestorTableTooNarrow` when some realized depth does not
    /// fit the table (`2^lg - 1` below the maximum depth), and with
    /// `Disconnected` when the edges do not connect every node to `root`.
    #[verifier::rlimit(100)]
    #[verifier::spinoff_prover]
    pub fn init(&mut self, root: usize) -> (res: Result<(), InitError>)
        requires
            old(self).inv(),
            root < old(self).n(),
        ensures
            final(self).inv(),
            final(self).n() == old(self).n(),
            final(self).lg == old(self).lg,
            final(self).nodes@ == old(self).nodes@,
            final(self).edges@ == old(self).edges@,
            res is Ok ==> final(self).initialized && final(self).root == root,
            res is Err ==> !final(self).initialized,
            res == Err::<(), InitError>(InitError::AncestorTableTooNarrow)
                ==> pow2(old(self).lg as nat) < old(self).n(),
            res == Err::<(), InitError>(InitError::Disconnected)
                ==> exists|v: usize| v < old(self).n()
                    && !reaches(old(self).edges@, root, v),
            (exists|pm: Seq<Option<usize>>, dm: Seq<usize>| spanning_map_ok(
                old(self).edges@, root, pm, dm, pow2(old(self).lg as nat)))
                ==> res is Ok,
    {
        let n = self.nodes.len();
        let lg = self.lg;
        self.initialized = false;

        // The depth threshold: depths must stay below 2^lg.  Once the
        // running power exceeds n it can no longer be crossed, since every
        // depth stays below n.
        let mut cap: usize = 1;
        let mut kk: usize = 0;
        proof {
            lemma2_to64();
        }
        while kk < lg && cap <= n
            invariant
                kk <= lg,
                cap == pow2(kk as nat),
                cap <= 2 * n + 1,
                n <= usize::MAX / 64,
            decreases lg - kk,
        {
            proof {
                lemma_pow2_unfold((kk + 1) as nat);
            }
            cap = cap * 2;
            kk = kk + 1;
        }
        let bounded = kk == lg;
        proof {
            lemma_pow2_pos(lg as nat);
            if !bounded {
                // pow2(kk) > n, so every depth below n also fits 2^lg.
                lemma_pow2_strictly_increases(kk as nat, lg as nat);
            }
        }

        let mut visited: Vec<bool> = Vec::new();
        let mut i: usize = 0;
        while i < n
            invariant
                i <= n,
                visited@.len() == i,
                forall|j: int| 0 <= j < i ==> !(#[trigger] visited@[j]),
            decreases n - i,
        {
            visited.push(false);
            i = i + 1;
        }

        self.par.set(root, None);
        self.depth.set(root, 0);
        visited.set(root, true);
        let ghost mut vis: Set<int> = Set::empty().insert(root as int);
        let mut stack_v: Vec<usize> = Vec::new();
        stack_v.push(root);
        proof {
            lemma_int_range(0, n as int);
            lemma_len_subset(vis, set_int_range(0, n as int));
            assert(stack_v@[0] == root);
            assert forall|x: int, j: int| 0 <= x < n && seen(visited@, x)
                && !stack_v@.contains(x as usize) && 0 <= j < self.edges@[x]@.len()
                implies seen(visited@, (#[trigger] self.edges@[x]@[j]) as int) by {
                assert(x == root);
                assert(stack_v@.contains(root));
            }
        }

        while stack_v.len() > 0
            invariant
                self.wf_basic(),
                !self.initialized,
                self.n() == n,
                self.lg == lg,
                self.n() == old(self).n(),
                self.lg == old(self).lg,
                self.nodes@ == old(self).nodes@,
                self.edges@ == old(self).edges@,
                visited@.len() == n,
                root < n,
                seen(visited@, root as int),
                self.par@[root as int] is None,
                self.depth@[root as int] == 0,
                bounded ==> cap == pow2(lg as nat),
                !bounded ==> n < pow2(lg as nat),
                vis.finite(),
                vis.len() <= n,
                forall|x: int| vis.contains(x) <==> seen(visited@, x),
                forall|a: int, b: int| 0 <= a < b < stack_v@.len()
                    ==> stack_v@[a] != stack_v@[b],
                forall|a: int| 0 <= a < stack_v@.len()
                    ==> seen(visited@, #[trigger] stack_v@[a] as int),
                forall|x: int| #[trigger] dfs_node_ok(*self, root, visited@, stack_v@, x),
                forall|x: int| seen(visited@, x)
                    ==> (#[trigger] self.depth@[x]) < vis.len(),
                forall|x: int| seen(visited@, x)
                    ==> (#[trigger] self.depth@[x]) < pow2(lg as nat),
                forall|x: usize| seen(visited@, x as int)
                    ==> #[trigger] root_of(self.par@, self.depth@, x) == Some(root),
                forall|x: int, j: int| 0 <= x < n && seen(visited@, x)
                    && !stack_v@.contains(x as usize) && 0 <= j < self.edges@[x]@.len()
                    ==> seen(visited@, (#[trigger] self.edges@[x]@[j]) as int),
                maps_agree(old(self).edges@, root, pow2(lg as nat), self.par@,
                    self.depth@, visited@),
            decreases n - vis.len(), stack_v@.len(),
        {
            let ghost stack_pre = stack_v@;
            let v = stack_v.pop().unwrap();
            let ghost stack_now = stack_v@;
            proof {
                assert(!stack_now.contains(v)) by {
                    if stack_now.contains(v) {
                        let a = choose|a: int| 0 <= a < stack_now.len() && stack_now[a] == v;
                        assert(stack_pre[a] == stack_pre[stack_pre.len() - 1]);
                        assert(false);
                    }
                }
                assert forall|x: int| #[trigger] dfs_node_ok(*self, root, visited@, stack_now,
                    x) by {
                    assert(dfs_node_ok(*self, root, visited@, stack_pre, x));
                    if seen(visited@, x) {
                        match self.par@[x] {
                            None => {}
                            Some(p) => {
                                if stack_now.contains(p) {
                                    let a = choose|a: int| 0 <= a < stack_now.len()
                                        && stack_now[a] == p;
                                    assert(stack_pre[a] == p);
                                    assert(false);
                                }
                            }
                        }
                    }
                }
            }
            proof {
                // A node popped earlier keeps its closure under the shorter
                // stack: nothing re-enters the stack by popping.
                assert forall|x: int, j: int| 0 <= x < n && seen(visited@, x)
                    && !stack_now.contains(x as usize) && x != v as int
                    && 0 <= j < self.edges@[x]@.len()
                    implies seen(visited@, (#[trigger] self.edges@[x]@[j]) as int) by {
                    if stack_pre.contains(x as usize) {
                        let a = choose|a: int| 0 <= a < stack_pre.len()
                            && stack_pre[a] == x as usize;
                        assert(a < stack_pre.len() - 1);
                        assert(stack_now[a] == x as usize);
                        assert(false);
                    }
                }
            }
            let ghost vis0 = vis;
            let ghost stack0 = stack_v@;
            let deg = self.edges[v].len();
            let mut idx: usize = 0;
            while idx < deg
                invariant
                    self.wf_basic(),
                    !self.initialized,
                    self.n() == n,
                    self.lg == lg,
                    self.n() == old(self).n(),
                    self.lg == old(self).lg,
                    self.nodes@ == old(self).nodes@,
                    self.edges@ == old(self).edges@,
                    visited@.len() == n,
                    root < n,
                    v < n,
                    idx <= deg,
                    deg == self.edges@[v as int]@.len(),
                    seen(visited@, root as int),
                    seen(visited@, v as int),
                    !stack_v@.contains(v),
                    self.par@[root as int] is None,
                    self.depth@[root as int] == 0,
                    bounded ==> cap == pow2(lg as nat),
                    !bounded ==> n < pow2(lg as nat),
                    vis.finite(),
                    vis.len() <= n,
                    forall|x: int| vis.contains(x) <==> seen(visited@, x),
                    forall|a: int, b: int| 0 <= a < b < stack_v@.len()
                        ==> stack_v@[a] != stack_v@[b],
                    forall|a: int| 0 <= a < stack_v@.len()
                        ==> seen(visited@, #[trigger] stack_v@[a] as int),
                    forall|x: int| #[trigger] dfs_node_ok(*self, root, visited@, stack_v@, x),
                    forall|x: int| seen(visited@, x)
                        ==> (#[trigger] self.depth@[x]) < vis.len(),
                    forall|x: int| seen(visited@, x)
                        ==> (#[trigger] self.depth@[x]) < pow2(lg as nat),
                    forall|x: usize| seen(visited@, x as int)
                        ==> #[trigger] root_of(self.par@, self.depth@, x)
                            == Some(root),
                    forall|x: int, j: int| 0 <= x < n && seen(visited@, x)
                        && !stack_v@.contains(x as usize) && x != v
                        && 0 <= j < self.edges@[x]@.len()
                        ==> seen(visited@, (#[trigger] self.edges@[x]@[j]) as int),
                    forall|jj: int| 0 <= jj < idx
                        ==> seen(visited@, (#[trigger] self.edges@[v as int]@[jj]) as int),
                    maps_agree(old(self).edges@, root, pow2(lg as nat), self.par@,
                        self.depth@, visited@),
                    vis0.subset_of(vis),
                    stack0.len() <= stack_v@.len(),
                    vis.len() - vis0.len() == stack_v@.len() - stack0.len(),
                decreases deg - idx,
            {
                let x = self.edges[v][idx];
                if !visited[x] {
                    let d = self.depth[v];
                    proof {
                        assert(vis.contains(v as int));
                        assert(!vis.contains(x as int));
                        lemma_int_range(0, n as int);
                        lemma_len_subset(vis, set_int_range(0, n as int).remove(x as int));
                        assert(vis.len() <= n - 1);
                    }
                    if bounded && d + 1 >= cap {
                        proof {
                            // No spanning map fits: it would have to give
                            // the fresh node this very depth.
                            assert forall|pm: Seq<Option<usize>>, dm: Seq<usize>|
                                !spanning_map_ok(old(self).edges@, root, pm, dm,
                                    pow2(lg as nat)) by {
                                if spanning_map_ok(old(self).edges@, root, pm, dm,
                                    pow2(lg as nat)) {
                                    assert(maps_agree(old(self).edges@, root,
                                        pow2(lg as nat), self.par@, self.depth@,
                                        visited@));
                                    assert(old(self).edges@[v as int]@[idx as int] == x);
                                    if pm[v as int] == Some(x) {
                                        assert(pm[v as int] == self.par@[v as int]);
                                        assert(dfs_node_ok(*self, root, visited@,
                                            stack_v@, v as int));
                                        assert(seen(visited@, x as int));
                                        assert(false);
                                    }
                                    assert(pm[x as int] == Some(v));
                                    assert(dm[x as int] == dm[v as int] + 1);
                                    assert(dm[v as int] == self.depth@[v as int]);
                                    assert(dm[x as int] >= pow2(lg as nat));
                                    assert(false);
                                }
                            }
                        }
                        return Err(InitError::AncestorTableTooNarrow);
                    }
                    let ghost self_before = *self;
                    let ghost par_before = self.par@;
                    let ghost seen_before = visited@;
                    let ghost stack_snap = stack_v@;
                    self.par.set(x, Some(v));
                    self.depth.set(x, d + 1);
                    visited.set(x, true);
                    stack_v.push(x);
                    proof {
                        vis = vis.insert(x as int);
                        lemma_int_range(0, n as int);
                        lemma_len_subset(vis, set_int_range(0, n as int));
                        let s = Set::new(|u: usize| seen(seen_before, u as int));
                        assert forall|u: usize| #[trigger] s.contains(u)
                            implies u < par_before.len()
                                && par_before[u as int] == self.par@[u as int]
                                && (par_before[u as int] matches Some(p)
                                    ==> s.contains(p)) by {
                            assert(dfs_node_ok(self_before, root, seen_before, stack_snap,
                                u as int));
                        }
                        assert forall|y: usize| seen(visited@, y as int)
                            implies #[trigger] root_of(self.par@, self.depth@, y)
                                == Some(root) by {
                            if y == x {
                                assert(kth_opt(self.par@, x, (d + 1) as nat)
                                    == kth_opt(self.par@, v, d as nat));
                                lemma_kth_frame(par_before, self.par@, s, v, d as nat);
                                assert(root_of(par_before, self_before.depth@, v)
                                    == Some(root));
                            } else {
                                assert(seen(seen_before, y as int));
                                assert(root_of(par_before, self_before.depth@, y)
                                    == Some(root));
                                lemma_kth_frame(par_before, self.par@, s, y,
                                    self.depth@[y as int] as nat);
                            }
                        }
                        assert forall|y: int| #[trigger] dfs_node_ok(*self, root, visited@,
                            stack_v@, y) by {
                            assert(dfs_node_ok(self_before, root, seen_before, stack_snap, y));
                            assert(stack_v@ == stack_snap.push(x));
                            if seen(visited@, y) && y != x {
                                assert(seen(seen_before, y));
                                match self.par@[y] {
                                    None => {}
                                    Some(p) => {
                                        assert(p != x);
                                        assert(!stack_snap.contains(p));
                                        if stack_v@.contains(p) {
                                            let a = choose|a: int| 0 <= a < stack_v@.len()
                                                && stack_v@[a] == p;
                                            assert(stack_snap[a] == p);
                                            assert(false);
                                        }
                                    }
                                }
                            }
                            if y == x {
                                assert(self.edges@[v as int]@[idx as int] == x);
                                assert(self.edges@[v as int]@.contains(x));
                                assert(seen(visited@, v as int));
                                assert(!stack_snap.contains(v));
                                if stack_v@.contains(v) {
                                    let a = choose|a: int| 0 <= a < stack_v@.len()
                                        && stack_v@[a] == v;
                                    assert(stack_snap[a] == v);
                                    assert(false);
                                }
                            }
                        }
                        assert forall|x2: int, j: int| 0 <= x2 < n && seen(visited@, x2)
                            && !stack_v@.contains(x2 as usize) && x2 != v as int
                            && 0 <= j < self.edges@[x2]@.len()
                            implies seen(visited@,
                                (#[trigger] self.edges@[x2]@[j]) as int) by {
                            if x2 == x as int {
                                assert(stack_v@[stack_v@.len() - 1] == x);
                                assert(stack_v@.contains(x));
                                assert(false);
                            } else {
                                assert(seen(seen_before, x2));
                                if stack_snap.contains(x2 as usize) {
                                    let a = choose|a: int| 0 <= a < stack_snap.len()
                                        && stack_snap[a] == x2 as usize;
                                    assert(stack_v@[a] == x2 as usize);
                                    assert(false);
                                }
                                assert(seen(seen_before,
                                    self_before.edges@[x2]@[j] as int));
                            }
                        }
                        // Any spanning map must give the fresh node exactly
                        // this parent and depth: the recorded edge is a
                        // parent link, and the upward direction would make
                        // the fresh node an already-visited parent.
                        assert(maps_agree(old(self).edges@, root, pow2(lg as nat),
                            self.par@, self.depth@, visited@)) by {
                        assert forall|pm: Seq<Option<usize>>, dm: Seq<usize>, x2: int|
                            #![trigger spanning_map_ok(old(self).edges@, root, pm, dm,
                                pow2(lg as nat)), pm[x2]]
                            spanning_map_ok(old(self).edges@, root, pm, dm,
                                pow2(lg as nat)) && seen(visited@, x2)
                            implies pm[x2] == self.par@[x2]
                                && dm[x2] == self.depth@[x2] by {
                            assert(maps_agree(old(self).edges@, root, pow2(lg as nat),
                                par_before, self_before.depth@, seen_before));
                            if x2 == x as int {
                                assert(old(self).edges@[v as int]@[idx as int] == x);
                                if pm[v as int] == Some(x) {
                                    assert(seen(seen_before, v as int));
                                    assert(pm[v as int] == par_before[v as int]
                                        && dm[v as int] == self_before.depth@[v as int]);
                                    assert(dfs_node_ok(self_before, root, seen_before,
                                        stack_snap, v as int));
                                    assert(seen(seen_before, x as int));
                                    assert(false);
                                }
                                assert(pm[x2] == Some(v));
                                assert(dm[x2] == dm[v as int] + 1);
                                assert(seen(seen_before, v as int));
                                assert(dm[v as int] == self_before.depth@[v as int]);
                            } else {
                                assert(seen(seen_before, x2));
                                assert(pm[x2] == par_before[x2]);
                                assert(dm[x2] == self_before.depth@[x2]);
                            }
                        }
                        }
                    }
                }
                idx = idx + 1;
            }
        }

        // Every node must have been reached.
        let mut w: usize = 0;
        while w < n
            invariant
                w <= n,
                visited@.len() == n,
                self.wf_basic(),
                !self.initialized,
                self.n() == n,
                self.n() == old(self).n(),
                self.lg == old(self).lg,
                lg == old(self).lg,
                self.nodes@ == old(self).nodes@,
                self.edges@ == old(self).edges@,
                root < n,
                seen(visited@, root as int),
                forall|x: int, j: int| 0 <= x < n && seen(visited@, x)
                    && 0 <= j < self.edges@[x]@.len()
                    ==> seen(visited@, (#[trigger] self.edges@[x]@[j]) as int),
                forall|x: int| 0 <= x < w ==> seen(visited@, x),
            decreases n - w,
        {
            if !visited[w] {
                proof {
                    // The visited set is closed under adjacency, so no walk
                    // from the root leaves it: w is unreachable, and hence
                    // no spanning map exists either.
                    assert(!reaches(old(self).edges@, root, w)) by {
                        if reaches(old(self).edges@, root, w) {
                            let s = choose|s: Seq<usize>| adj_walk(old(self).edges@, root,
                                s, w);
                            lemma_walk_visited(old(self).edges@, visited@, root, s, w);
                            assert(false);
                        }
                    }
                    assert forall|pm: Seq<Option<usize>>, dm: Seq<usize>|
                        !spanning_map_ok(old(self).edges@, root, pm, dm,
                            pow2(lg as nat)) by {
                        if spanning_map_ok(old(self).edges@, root, pm, dm,
                            pow2(lg as nat)) {
                            lemma_map_reaches(old(self).edges@, pm, dm, root, w,
                                pow2(lg as nat));
                            assert(!reaches(old(self).edges@, root, w));
                            assert(false);
                        }
                    }
                }
                return Err(InitError::Disconnected);
            }
            w = w + 1;
        }

        proof {
            assert forall|y: int| 0 <= y < self.par@.len() implies (match #[trigger] self.par@[y] {
                None => self.depth@[y] == 0,
                Some(p) => 0 <= p < self.par@.len()
                    && self.depth@[y] == self.depth@[p as int] + 1,
            }) by {
                assert(dfs_node_ok(*self, root, visited@, stack_v@, y));
                assert(seen(visited@, y));
            }
            assert(parent_wf(self.par@, self.depth@));
        }
        let ghost before = *self;
        self.build_lift();
        let ghost mid = *self;
        self.root = root;
        self.initialized = true;
        proof {
            assert forall|v: int, k: int| 0 <= v < self.n() && 0 <= k < self.lg
                implies #[trigger] lift_entry(self.lift@, self.lg as int, v, k)
                    == kth_opt(self.par@, v as usize, pow2(k as nat)) by {
                assert(lift_entry(mid.lift@, mid.lg as int, v, k)
                    == kth_opt(before.par@, v as usize, pow2(k as nat)));
            }
            assert forall|y: usize| y < self.n()
                implies #[trigger] root_of(self.par@, self.depth@, y)
                    == Some(root) by {
                assert(seen(visited@, y as int));
                assert(root_of(before.par@, before.depth@, y) == Some(root));
            }
            assert forall|y: int| 0 <= y < self.n() implies (match #[trigger] self.par@[y] {
                Some(p) => self.edges@[p as int]@.contains(y as usize),
                None => y == self.root,
            }) by {
                assert(dfs_node_ok(before, root, visited@, stack_v@, y));
                assert(seen(visited@, y));
            }
            assert(self.wf_init());
        }
        Ok(())
    }

    /// Fill the binary-lifting table level by level from the parent map: the
    /// ancestor at distance `2^k` is the `2^(k-1)`-ancestor of the
    /// `2^(k-1)`-ancestor.
    fn build_lift(&mut self)
        requires
            old(self).wf_basic(),
            parent_wf(old(self).par@, old(self).depth@),
        ensures
            final(self).wf_basic(),
            final(self).nodes@ == old(self).nodes@,
            final(self).edges@ == old(self).edges@,
            final(self).depth@ == old(self).depth@,
            final(self).par@ == old(self).par@,
            final(self).lg == old(self).lg,
            final(self).root == old(self).root,
            final(self).initialized == old(self).initialized,
            forall|v: int, k: int| 0 <= v < old(self).n() && 0 <= k < old(self).lg
                ==> #[trigger] lift_entry(final(self).lift@, old(self).lg as int, v, k)
                    == kth_opt(old(self).par@, v as usize, pow2(k as nat)),
    {
        let n = self.nodes.len();
        let lg = self.lg;
        let mut k: usize = 0;
        while k < lg
            invariant
                self.wf_basic(),
                parent_wf(self.par@, self.depth@),
                self.n() == n,
                self.lg == lg,
                self.nodes@ == old(self).nodes@,
                self.edges@ == old(self).edges@,
                self.depth@ == old(self).depth@,
                self.par@ == old(self).par@,
                self.root == old(self).root,
                self.initialized == old(self).initialized,
                k <= lg,
                forall|v2: int, j: int| 0 <= v2 < n && 0 <= j < k
                    ==> #[trigger] lift_entry(self.lift@, lg as int, v2, j)
                        == kth_opt(self.par@, v2 as usize, pow2(j as nat)),
            decreases lg - k,
        {
            let mut v: usize = 0;
            while v < n
                invariant
                    self.wf_basic(),
                    parent_wf(self.par@, self.depth@),
                    self.n() == n,
                    self.lg == lg,
                    self.nodes@ == old(self).nodes@,
                    self.edges@ == old(self).edges@,
                    self.depth@ == old(self).depth@,
                    self.par@ == old(self).par@,
                    self.root == old(self).root,
                    self.initialized == old(self).initialized,
                    k < lg,
                    v <= n,
                    forall|v2: int, j: int| 0 <= v2 < n && 0 <= j < k
                        ==> #[trigger] lift_entry(self.lift@, lg as int, v2, j)
                            == kth_opt(self.par@, v2 as usize, pow2(j as nat)),
                    forall|v2: int| 0 <= v2 < v
                        ==> #[trigger] lift_entry(self.lift@, lg as int, v2, k as int)
                            == kth_opt(self.par@, v2 as usize, pow2(k as nat)),
                decreases n - v,
            {
                proof {
                    lemma_table_fits(n as int, lg as int);
                    lemma_flat_index(n as int, lg as int, v as int, k as int, v as int,
                        k as int);
                }
                let entry = if k == 0 {
                    proof {
                        lemma2_to64();
                        assert(kth_opt(self.par@, v, 1) == self.par@[v as int]) by {
                            reveal_with_fuel(kth_opt, 3);
                        }
                    }
                    self.par[v]
                } else {
                    proof {
                        lemma_flat_index(n as int, lg as int, v as int, k as int - 1,
                            v as int, k as int - 1);
                        assert(lift_entry(self.lift@, lg as int, v as int, k as int - 1)
                            == kth_opt(self.par@, v, pow2((k - 1) as nat)));
                    }
                    match self.lift[v * lg + (k - 1)] {
                        None => None,
                        Some(p) => {
                            proof {
                                lemma_kth_opt(self.par@, self.depth@, v,
                                    pow2((k - 1) as nat));
                                assert(p < n);
                                lemma_flat_index(n as int, lg as int, p as int,
                                    k as int - 1, v as int, k as int);
                                assert(lift_entry(self.lift@, lg as int, p as int,
                                    k as int - 1)
                                    == kth_opt(self.par@, p, pow2((k - 1) as nat)));
                            }
                            self.lift[p * lg + (k - 1)]
                        }
                    }
                };
                let ghost pre = *self;
                self.lift.set(v * lg + k, entry);
                proof {
                    if k == 0 {
                        lemma2_to64();
                    } else {
                        lemma_lift_level(self.par@, v, k as nat);
                    }
                    assert(lift_entry(self.lift@, lg as int, v as int, k as int)
                        == kth_opt(self.par@, v, pow2(k as nat)));
                    assert forall|v2: int, j: int| 0 <= v2 < n && 0 <= j < k
                        implies #[trigger] lift_entry(self.lift@, lg as int, v2, j)
                            == kth_opt(self.par@, v2 as usize, pow2(j as nat)) by {
                        assert(lift_entry(pre.lift@, lg as int, v2, j)
                            == kth_opt(pre.par@, v2 as usize, pow2(j as nat)));
                        lemma_flat_index(n as int, lg as int, v2, j, v as int, k as int);
                        assert(self.lift@[v2 * lg as int + j] == pre.lift@[v2 * lg as int + j]);
                    }
                    assert forall|v2: int| 0 <= v2 < v + 1
                        implies #[trigger] lift_entry(self.lift@, lg as int, v2, k as int)
                            == kth_opt(self.par@, v2 as usize, pow2(k as nat)) by {
                        lemma_flat_index(n as int, lg as int, v2, k as int, v as int,
                            k as int);
                        if v2 < v {
                            assert(lift_entry(pre.lift@, lg as int, v2, k as int)
                                == kth_opt(pre.par@, v2 as usize, pow2(k as nat)));
                            assert(self.lift@[v2 * lg as int + k]
                                == pre.lift@[v2 * lg as int + k]);
                        }
                    }
                }
                v = v + 1;
            }
            k = k + 1;
        }
    }

    /// The ancestor of `v` at distance `k`, walking the lifting table along
    /// the binary decomposition of `k`.  Returns the reserved sentinel
    /// `usize::MAX` (never a valid id) when `k` exceeds the depth of `v`:
    /// callers must check for it before using the result as an id.
    pub fn get_kth_ancestor(&self, v: usize, k: usize) -> (r: usize)
        requires
            self.inv(),
            self.initialized,
            v < self.n(),
        ensures
            k <= self.depth_of(v) ==> Some(r) == kth_opt(self.par@, v, k as nat) && r < self.n(),
            k > self.depth_of(v) ==> r == usize::MAX,
            k == 0 ==> r == v,
            k == self.depth_of(v) ==> r == self.root,
    {
        let n = self.nodes.len();
        let lg = self.lg;
        if k > self.depth[v] {
            return usize::MAX;
        }
        proof {
            lemma_kth_opt(self.par@, self.depth@, v, k as nat);
            lemma2_to64();
        }
        let ghost v0 = v;
        let mut cur = v;
        let mut rem = k;
        let mut level: usize = 0;
        while rem > 0
            invariant
                self.inv(),
                self.initialized,
                n == self.n(),
                lg == self.lg,
                v0 < n,
                cur < n,
                k <= self.depth@[v0 as int],
                rem * pow2(level as nat) <= k,
                kth_opt(self.par@, v0, (k - rem * pow2(level as nat)) as nat) == Some(cur),
                self.depth@[cur as int] + (k - rem * pow2(level as nat))
                    == self.depth@[v0 as int],
            decreases rem,
        {
            let ghost p2 = pow2(level as nat) as int;
            let ghost jumped = k - rem * p2;
            proof {
                lemma_pow2_pos(level as nat);
                assert(p2 <= rem * p2) by (nonlinear_arith)
                    requires
                        rem >= 1,
                        p2 >= 1,
                {}
                // The level stays inside the table: 2^level fits below 2^lg.
                if level >= lg {
                    if level > lg {
                        lemma_pow2_strictly_increases(lg as nat, level as nat);
                    }
                    assert(false);
                }
            }
            if rem % 2 == 1 {
                proof {
                    // The next jump of 2^level stays within the remaining
                    // distance, so the table entry exists.
                    assert(pow2(level as nat) <= self.depth@[cur as int]);
                    lemma_table_fits(n as int, lg as int);
                    lemma_flat_index(n as int, lg as int, cur as int, level as int,
                        cur as int, level as int);
                    lemma_kth_opt(self.par@, self.depth@, cur, pow2(level as nat));
                }
                let entry = self.lift[cur * lg + level];
                proof {
                    assert(lift_entry(self.lift@, lg as int, cur as int, level as int)
                        == kth_opt(self.par@, cur, pow2(level as nat)));
                    assert(entry is Some);
                    lemma_kth_compose(self.par@, v0, jumped as nat, pow2(level as nat));
                }
                cur = entry.unwrap();
            }
            proof {
                lemma_pow2_unfold((level + 1) as nat);
                assert(pow2((level + 1) as nat) == 2 * p2);
                let r2 = (rem / 2) as int;
                if rem % 2 == 1 {
                    assert(r2 * (2 * p2) == rem * p2 - p2) by (nonlinear_arith)
                        requires
                            r2 == rem as int / 2,
                            rem as int % 2 == 1,
                            rem >= 1,
                            p2 >= 0,
                    {}
                    assert((rem / 2) * pow2((level + 1) as nat) == rem * p2 - p2);
                } else {
                    assert(r2 * (2 * p2) == rem * p2) by (nonlinear_arith)
                        requires
                            r2 == rem as int / 2,
                            rem as int % 2 == 0,
                            p2 >= 0,
                    {}
                    assert((rem / 2) * pow2((level + 1) as nat) == rem * p2);
                }
            }
            rem = rem / 2;
            level = level + 1;
        }
        proof {
            if k == self.depth@[v0 as int] {
                assert(kth_opt(self.par@, v0, k as nat)
                    == root_of(self.par@, self.depth@, v0));
            }
        }
        cur
    }

    /// The lowest common ancestor of `a` and `b`: lift the deeper node to the
    /// depth of the shallower; if the nodes now agree, that is the answer,
    /// otherwise walk both upward jointly from the highest lifting level,
    /// advancing both wherever their table entries differ.
    pub fn lca(&self, a: usize, b: usize) -> (r: usize)
        requires
            self.inv(),
            self.initialized,
            a < self.n(),
            b < self.n(),
        ensures
            r < self.n(),
            r == lca_spec(self.par@, self.depth@, a, b),
    {
        let n = self.nodes.len();
        let lg = self.lg;
        let ghost par = self.par@;
        let ghost depth = self.depth@;
        let (x, y) = if self.depth[a] < self.depth[b] {
            (b, a)
        } else {
            (a, b)
        };
        proof {
            lemma_lca_sym(par, depth, a, b);
        }
        let ghost l = lca_spec(par, depth, x, y);
        let d = self.depth[x] - self.depth[y];
        let v = self.get_kth_ancestor(x, d);
        if v == y {
            proof {
                assert(is_anc(par, depth, y, x));
                lemma_lca_of_anc(par, depth, x, y);
            }
            return v;
        }
        proof {
            lemma_kth_opt(par, depth, x, d as nat);
            assert(is_anc(par, depth, v, x));
            lemma_lca_is_common(par, depth, x, y);
            // l is an ancestor of x no deeper than v; both lie on the root
            // path of x, so l is an ancestor of v as well.
            assert(depth[l as int] <= depth[y as int]);
            crate::ancestry::lemma_anc_comparable(par, depth, l, v, x);
            assert forall|w: usize| w < n && #[trigger] is_anc(par, depth, w, v)
                && is_anc(par, depth, w, y) implies depth[w as int] <= depth[l as int] by {
                lemma_anc_trans(par, depth, w, v, x);
                lemma_lca_greatest(par, depth, x, y, w);
            }
            lemma_lca_char(par, depth, v, y, l);
            lemma_pow2_pos(lg as nat);
        }
        let mut vv = v;
        let mut bb = y;
        let mut i = lg;
        while i > 0
            invariant
                self.inv(),
                self.initialized,
                par == self.par@,
                depth == self.depth@,
                n == self.n(),
                lg == self.lg,
                i <= lg,
                vv < n,
                bb < n,
                l < n,
                vv != bb,
                depth[vv as int] == depth[bb as int],
                is_anc(par, depth, l, vv),
                is_anc(par, depth, l, bb),
                lca_spec(par, depth, vv, bb) == l,
                depth[vv as int] - depth[l as int] <= pow2(i as nat),
            decreases i,
        {
            i = i - 1;
            proof {
                lemma_table_fits(n as int, lg as int);
                lemma_flat_index(n as int, lg as int, vv as int, i as int, bb as int,
                    i as int);
                lemma_flat_index(n as int, lg as int, bb as int, i as int, vv as int,
                    i as int);
                lemma_kth_opt(par, depth, vv, pow2(i as nat));
                lemma_kth_opt(par, depth, bb, pow2(i as nat));
            }
            let lv = self.lift[vv * lg + i];
            let lb = self.lift[bb * lg + i];
            proof {
                assert(lift_entry(self.lift@, lg as int, vv as int, i as int)
                    == kth_opt(par, vv, pow2(i as nat)));
                assert(lift_entry(self.lift@, lg as int, bb as int, i as int)
                    == kth_opt(par, bb, pow2(i as nat)));
            }
            let ghost dist = depth[vv as int] - depth[l as int];
            proof {
                lemma_pow2_unfold((i + 1) as nat);
            }
            match (lv, lb) {
                (Some(p), Some(q)) => {
                    if p != q {
                        proof {
                            let step = pow2(i as nat) as int;
                            // The two table entries differ, so the common
                            // ancestor lies strictly more than 2^i above.
                            if dist <= step {
                                lemma_kth_compose(par, vv, dist as nat, (step - dist) as nat);
                                lemma_kth_compose(par, bb, dist as nat, (step - dist) as nat);
                                assert(false);
                            }
                            // Both jumps stay strictly below l, preserving
                            // the lowest common ancestor.
                            lemma_kth_compose(par, vv, step as nat, (dist - step) as nat);
                            lemma_kth_compose(par, bb, step as nat, (dist - step) as nat);
                            assert(is_anc(par, depth, l, p));
                            assert(is_anc(par, depth, l, q));
                            assert(is_anc(par, depth, p, vv));
                            assert(is_anc(par, depth, q, bb));
                            if p == q {
                                assert(false);
                            }
                            assert forall|w: usize| w < n && #[trigger] is_anc(par, depth, w, p)
                                && is_anc(par, depth, w, q)
                                implies depth[w as int] <= depth[l as int] by {
                                lemma_anc_trans(par, depth, w, p, vv);
                                lemma_anc_trans(par, depth, w, q, bb);
                                lemma_lca_greatest(par, depth, vv, bb, w);
                            }
                            lemma_lca_char(par, depth, p, q, l);
                        }
                        vv = p;
                        bb = q;
                    } else {
                        proof {
                            let step = pow2(i as nat) as int;
                            if dist > step {
                                // A matching entry this high would be a
                                // common ancestor deeper than l.
                                lemma_kth_opt(par, depth, vv, pow2(i as nat));
                                assert(is_anc(par, depth, p, vv));
                                assert(is_anc(par, depth, p, bb));
                                lemma_lca_greatest(par, depth, vv, bb, p);
                                assert(depth[p as int] <= depth[l as int]);
                                assert(false);
                            }
                        }
                    }
                }
                _ => {
                    proof {
                        let step = pow2(i as nat) as int;
                        if dist > step {
                            assert(false);
                        }
                    }
                }
            }
        }
        proof {
            lemma2_to64();
            if depth[vv as int] == depth[l as int] {
                lemma_anc_same_depth(par, depth, l, vv);
                lemma_anc_same_depth(par, depth, l, bb);
                assert(false);
            }
            assert(depth[vv as int] - depth[l as int] == 1);
            assert(kth_opt(par, bb, 1) == Some(l));
            assert(par[bb as int] == Some(l)) by {
                reveal_with_fuel(kth_opt, 3);
            }
        }
        let res = match self.par[bb] {
            Some(p) => p,
            None => bb,
        };
        res
    }

    /// The number of nodes.
    pub fn node_count(&self) -> (r: usize)
        ensures
            r == self.n(),
    {
        self.nodes.len()
    }

    /// The node with the given id, or `None` for an id out of range.
    pub fn get_node(&self, id: usize) -> (r: Option<&Node<T>>)
        ensures
            id < self.n() ==> (r matches Some(node) && *node == self.nodes@[id as int]),
            id >= self.n() ==> r is None,
    {
        if id < self.nodes.len() {
            Some(&self.nodes[id])
        } else {
            None
        }
    }

    /// Mutable access to a node.  Only the stored node value can change
    /// through the returned reference; every derived structure, including
    /// the ancestor table, is untouched.
    pub fn get_node_mut(&mut self, id: usize) -> (r: &mut Node<T>)
        requires
            id < old(self).n(),
        ensures
            *r == old(self).nodes@[id as int],
            final(self).nodes@ == old(self).nodes@.update(id as int, *final(r)),
            final(self).edges@ == old(self).edges@,
            final(self).depth@ == old(self).depth@,
            final(self).par@ == old(self).par@,
            final(self).lift@ == old(self).lift@,
            final(self).lg == old(self).lg,
            final(self).root == old(self).root,
            final(self).initialized == old(self).initialized,
    {
        &mut self.nodes[id]
    }

    /// The depth of a node, as computed by `init`.
    pub fn get_depth(&self, v: usize) -> (r: usize)
        requires
            v < self.n(),
            self.wf_basic(),
        ensures
            r == self.depth_of(v),
    {
        self.depth[v]
    }

    /// The parent of a node (`None` at the root), as computed by `init`.
    pub fn get_parent(&self, v: usize) -> (r: Option<usize>)
        requires
            v < self.n(),
            self.wf_basic(),
        ensures
            r == self.par@[v as int],
    {
        self.par[v]
    }
}

} // verus!
