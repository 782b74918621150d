use halide::{CombineFn, Halide, InitError, Node, SegmentTree};
use halide::{DefaultLazyApply, DefaultLazyFunc};

#[derive(Clone)]
struct SumCombine;
impl CombineFn<u64> for SumCombine {
    fn spec_combine(&self, a: u64, b: u64) -> u64 {
        a + b
    }

    fn combine(&self, a: u64, b: u64) -> u64 {
        a + b
    }
}

#[derive(Clone)]
struct MaxCombine;
impl CombineFn<u64> for MaxCombine {
    fn spec_combine(&self, a: u64, b: u64) -> u64 {
        a.max(b)
    }

    fn combine(&self, a: u64, b: u64) -> u64 {
        a.max(b)
    }
}

fn binary_tree_engine() -> Halide<u64, SumCombine> {
    // 0 -> {1, 2}, 1 -> {3, 4}, 2 -> {5, 6}, values 1..=7
    let values = vec![1u64, 2, 3, 4, 5, 6, 7];
    let mut h = Halide::new(values, 3, SumCombine, 0u64);
    h.add_edge(0, 1);
    h.add_edge(0, 2);
    h.add_edge(1, 3);
    h.add_edge(1, 4);
    h.add_edge(2, 5);
    h.add_edge(2, 6);
    assert!(h.init(0).is_ok());
    h
}

#[test]
fn test_lca_self_and_symmetry() {
    let h = binary_tree_engine();
    let tree = h.tree();
    for v in 0..7 {
        assert_eq!(tree.lca(v, v), v);
    }
    for a in 0..7 {
        for b in 0..7 {
            assert_eq!(tree.lca(a, b), tree.lca(b, a));
        }
    }
}

#[test]
fn test_lca_depth_bound_and_root_paths() {
    let h = binary_tree_engine();
    let tree = h.tree();
    for a in 0..7 {
        for b in 0..7 {
            let l = tree.lca(a, b);
            // never deeper than either argument
            assert!(tree.get_depth(l) <= tree.get_depth(a));
            assert!(tree.get_depth(l) <= tree.get_depth(b));
            // lies on the root path of both
            let da = tree.get_depth(a) - tree.get_depth(l);
            let db = tree.get_depth(b) - tree.get_depth(l);
            assert_eq!(tree.get_kth_ancestor(a, da), l);
            assert_eq!(tree.get_kth_ancestor(b, db), l);
        }
    }
}

#[test]
fn test_kth_ancestor_contract() {
    let h = binary_tree_engine();
    let tree = h.tree();
    for v in 0..7 {
        let d = tree.get_depth(v);
        assert_eq!(tree.get_kth_ancestor(v, 0), v);
        assert_eq!(tree.get_kth_ancestor(v, d), 0); // the root
        assert_eq!(tree.get_kth_ancestor(v, d + 1), usize::MAX);
    }
}

#[test]
fn test_query_single_node_after_init() {
    let h = binary_tree_engine();
    let mut h = h;
    for v in 0..7u64 {
        assert_eq!(h.query(v as usize, v as usize), v + 1);
    }
}

#[test]
fn test_update_assigns_whole_path() {
    let mut h = binary_tree_engine();
    // Path 3 .. 5 is 3 -> 1 -> 0 -> 2 -> 5.
    h.update(3, 5, 9);
    for on in [3usize, 1, 0, 2, 5] {
        assert_eq!(h.query(on, on), 9);
    }
    for off in [4usize, 6] {
        let expected = (off + 1) as u64;
        assert_eq!(h.query(off, off), expected);
    }
}

#[test]
fn test_update_round_trip_idempotent_combine() {
    // With an idempotent combine (max), a query over any sub-range of an
    // updated path returns the assigned value.
    let values = vec![1u64, 2, 3, 4, 5];
    let mut h = Halide::new(values, 3, MaxCombine, 0u64);
    h.add_edge(0, 1);
    h.add_edge(1, 2);
    h.add_edge(2, 3);
    h.add_edge(3, 4);
    assert!(h.init(0).is_ok());
    h.update(1, 4, 7);
    assert_eq!(h.query(1, 4), 7);
    assert_eq!(h.query(2, 3), 7);
    assert_eq!(h.query(3, 3), 7);
    assert_eq!(h.query(0, 0), 1);
}

#[test]
fn test_update_order_irrelevant() {
    let mut h1 = binary_tree_engine();
    let mut h2 = binary_tree_engine();
    h1.update(3, 6, 42);
    h2.update(6, 3, 42);
    for v in 0..7 {
        assert_eq!(h1.query(v, v), h2.query(v, v));
    }
}

#[test]
fn test_init_rejects_narrow_ancestor_table() {
    // A chain of depth 4 does not fit a table of width 2 (2^2 - 1 = 3).
    let values = vec![1u64, 2, 3, 4, 5];
    let mut h = Halide::new(values, 2, SumCombine, 0u64);
    h.add_edge(0, 1);
    h.add_edge(1, 2);
    h.add_edge(2, 3);
    h.add_edge(3, 4);
    assert!(matches!(h.init(0), Err(InitError::AncestorTableTooNarrow)));
}

#[test]
fn test_init_rejects_disconnected_edges() {
    let values = vec![1u64, 2, 3];
    let mut h = Halide::new(values, 2, SumCombine, 0u64);
    h.add_edge(0, 1); // node 2 stays unreachable
    assert!(matches!(h.init(0), Err(InitError::Disconnected)));
}

#[test]
fn test_reinit_with_other_root() {
    let mut h = binary_tree_engine();
    h.update(3, 3, 50);
    assert_eq!(h.query(3, 3), 50);
    // Re-running init rebuilds from the stored node values.
    assert!(h.init(2).is_ok());
    assert_eq!(h.tree().get_depth(2), 0);
    assert_eq!(h.query(3, 3), 4);
    assert_eq!(h.query(5, 5), 6);
}

#[test]
fn test_labels_deterministic_heavy_first() {
    // 0 -> {1, 2}, 1 -> {3, 4}: node 1 has the larger subtree, so it is the
    // heavy child of 0; among 3 and 4 the first in adjacency order wins the
    // tie.  The heavy-first depth-first labeling is therefore fixed.
    let values = vec![1u64, 2, 3, 4, 5];
    let mut h = Halide::new(values, 3, SumCombine, 0u64);
    h.add_edge(0, 1);
    h.add_edge(0, 2);
    h.add_edge(1, 3);
    h.add_edge(1, 4);
    assert!(h.init(0).is_ok());
    assert_eq!(h.get_label(0), 0);
    assert_eq!(h.get_label(1), 1);
    assert_eq!(h.get_label(3), 2);
    assert_eq!(h.get_label(4), 3);
    assert_eq!(h.get_label(2), 4);
    // a second build from scratch reproduces the same labels
    let values2 = vec![1u64, 2, 3, 4, 5];
    let mut h2 = Halide::new(values2, 3, SumCombine, 0u64);
    h2.add_edge(0, 1);
    h2.add_edge(0, 2);
    h2.add_edge(1, 3);
    h2.add_edge(1, 4);
    assert!(h2.init(0).is_ok());
    for v in 0..5 {
        assert_eq!(h.get_label(v), h2.get_label(v));
    }
}

#[test]
fn test_node_accessors() {
    let mut node = Node::new(3, 17u64);
    assert_eq!(node.id(), 3);
    assert_eq!(*node.value(), 17);
    node.set_value(21);
    assert_eq!(node.id(), 3);
    assert_eq!(*node.value(), 21);
}

#[test]
fn test_node_count_and_sentinel() {
    let h = binary_tree_engine();
    assert_eq!(h.tree().node_count(), 7);
    assert_eq!(h.seg_tree.get_sentinel(), 0);
}

#[test]
fn test_segment_tree_directly() {
    let mut st: SegmentTree<u64, SumCombine, DefaultLazyApply, DefaultLazyFunc> =
        SegmentTree::new(6, SumCombine, DefaultLazyApply, DefaultLazyFunc, 0u64, None);
    assert_eq!(st.get_sentinel(), 0);
    for i in 0..6 {
        st.point_update(i, (i + 1) as u64);
    }
    assert_eq!(st.query(0, 5), 21);
    assert_eq!(st.query(2, 4), 12);
    assert_eq!(st.query(3, 3), 4);
    st.point_update(3, 10);
    assert_eq!(st.query(0, 5), 27);
    st.update(1, 2, 0);
    assert_eq!(st.query(0, 5), 22);
}

#[test]
fn test_segment_tree_range_assign_max() {
    let mut st: SegmentTree<u64, MaxCombine, DefaultLazyApply, DefaultLazyFunc> =
        SegmentTree::new(8, MaxCombine, DefaultLazyApply, DefaultLazyFunc, 0u64, None);
    for i in 0..8 {
        st.point_update(i, i as u64);
    }
    assert_eq!(st.query(0, 7), 7);
    st.update(2, 5, 9);
    assert_eq!(st.query(0, 7), 9);
    assert_eq!(st.query(0, 1), 1);
    assert_eq!(st.query(3, 4), 9);
    assert_eq!(st.query(6, 7), 7);
}

#[test]
fn test_deep_chain_updates() {
    // Deep chain: path updates and queries stay exact under sum.
    let n: usize = 1000;
    let values: Vec<u64> = vec![1u64; n];
    let mut h = Halide::new(values, 10, SumCombine, 0u64);
    for i in 0..n - 1 {
        h.add_edge(i, i + 1);
    }
    assert!(h.init(0).is_ok());
    assert_eq!(h.query(0, n - 1), n as u64);
    assert_eq!(h.query(250, 749), 500);
    for v in [0usize, 1, 499, 500, 998, 999] {
        let d = h.tree().get_depth(v);
        assert_eq!(d, v);
        assert_eq!(h.tree().get_kth_ancestor(v, d), 0);
        assert_eq!(h.tree().get_kth_ancestor(v, d + 1), usize::MAX);
    }
    h.update(100, 199, 3);
    // Every node on the updated path now holds 3; point queries are exact
    // for any combine, while wide sums after a wide assignment are exact
    // only for idempotent combines.
    for v in [100usize, 150, 199] {
        assert_eq!(h.query(v, v), 3);
    }
    assert_eq!(h.query(200, 200), 1);
    assert_eq!(h.query(0, 99), 100);
}
