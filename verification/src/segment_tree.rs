//! An array-backed segment tree with lazy propagation over positions
//! `0 .. n`, generic over an associative *combine* strategy and a
//! *lazy-apply / lazy-evaluate* strategy pair.
//!
//! The contracts speak of the tree's *contents*: the logical value sequence
//! obtained by resolving every pending assignment.  Under the default
//! (replace) strategy pair a range update assigns a value to every position
//! of the range, and queries never change the contents.  A caller may
//! supply a different strategy pair (say add-sum); the operations then run
//! that pair faithfully, but the contracts of `update` and `query` pin
//! values only for the replacing pair — no claim is made for others.

use vstd::arithmetic::power2::*;
use vstd::pervasive::VecAdditionalExecFns;
use vstd::prelude::*;

verus! {

/// Combining strategy for two aggregate values.  `spec_combine` gives the
/// mathematical meaning; `combine` must return exactly that value.
pub trait CombineFn<T>: Sized {
    /// What combining means.
    spec fn spec_combine(&self, a: T, b: T) -> T;

    /// Combine two values.
    fn combine(&self, a: T, b: T) -> (r: T)
        ensures
            r == self.spec_combine(a, b),
    ;
}

/// Strategy composing a new lazy value onto an already pending one.
pub trait LazyApplyFn<T>: Sized {
    /// What composing means.
    spec fn spec_apply(&self, lazy_val: T, new_val: T) -> T;

    /// Compose `new_val` onto the pending `lazy_val`.
    fn apply(&self, lazy_val: T, new_val: T) -> (r: T)
        ensures
            r == self.spec_apply(lazy_val, new_val),
    ;
}

/// Strategy applying a pending lazy value to a node's stored aggregate,
/// given the node's range `[l, r]`.
pub trait LazyFunc<T>: Sized {
    /// What applying means.
    spec fn spec_apply(&self, cur_val: T, lazy_val: T, l: usize, r: usize) -> T;

    /// Apply the pending `lazy_val` to the aggregate `cur_val`.
    fn apply(&self, cur_val: T, lazy_val: T, l: usize, r: usize) -> (res: T)
        ensures
            res == self.spec_apply(cur_val, lazy_val, l, r),
    ;
}

/// Default lazy-apply strategy: the newest pending value wins.
#[derive(Clone, Copy)]
pub struct DefaultLazyApply;

impl<T> LazyApplyFn<T> for DefaultLazyApply {
    open spec fn spec_apply(&self, lazy_val: T, new_val: T) -> T {
        new_val
    }

    fn apply(&self, lazy_val: T, new_val: T) -> (r: T) {
        new_val
    }
}

/// Default lazy-evaluate strategy: the pending value replaces the aggregate.
#[derive(Clone, Copy)]
pub struct DefaultLazyFunc;

impl<T> LazyFunc<T> for DefaultLazyFunc {
    open spec fn spec_apply(&self, cur_val: T, lazy_val: T, l: usize, r: usize) -> T {
        lazy_val
    }

    fn apply(&self, cur_val: T, lazy_val: T, l: usize, r: usize) -> (res: T) {
        lazy_val
    }
}

/// The combine strategy is associative.
pub open spec fn combine_associative<T, C: CombineFn<T>>(c: C) -> bool {
    forall|a: T, b: T, d: T| #[trigger] c.spec_combine(c.spec_combine(a, b), d)
        == c.spec_combine(a, c.spec_combine(b, d))
}

/// `e` is a two-sided identity of the combine strategy.
pub open spec fn combine_identity<T, C: CombineFn<T>>(c: C, e: T) -> bool {
    &&& forall|a: T| #[trigger] c.spec_combine(e, a) == a
    &&& forall|a: T| #[trigger] c.spec_combine(a, e) == a
}

/// The combine strategy is commutative.
pub open spec fn combine_commutative<T, C: CombineFn<T>>(c: C) -> bool {
    forall|a: T, b: T| #[trigger] c.spec_combine(a, b) == c.spec_combine(b, a)
}

/// The combine strategy is idempotent (as max and min are).
pub open spec fn combine_idempotent<T, C: CombineFn<T>>(c: C) -> bool {
    forall|a: T| #[trigger] c.spec_combine(a, a) == a
}

/// The lazy-apply strategy discards the old pending value.
pub open spec fn replace_apply<T, LA: LazyApplyFn<T>>(la: LA) -> bool {
    forall|l: T, v: T| #[trigger] la.spec_apply(l, v) == v
}

/// The lazy-evaluate strategy replaces the aggregate with the pending value.
pub open spec fn replace_eval<T, LF: LazyFunc<T>>(lf: LF) -> bool {
    forall|c: T, l: T, a: usize, b: usize| #[trigger] lf.spec_apply(c, l, a, b) == l
}

/// Folding the combine strategy over a sequence, starting from `e`.
pub open spec fn cfold<T, C: CombineFn<T>>(c: C, e: T, s: Seq<T>) -> T
    decreases s.len(),
{
    if s.len() == 0 {
        e
    } else {
        c.spec_combine(cfold(c, e, s.drop_last()), s.last())
    }
}

/// `s`, the contents of positions starting at `tl`, with the positions
/// falling in `[ql, qr]` assigned `x`.
pub open spec fn assign_range<T>(s: Seq<T>, tl: int, ql: int, qr: int, x: T) -> Seq<T> {
    Seq::new(s.len(), |j: int| if ql <= j + tl <= qr { x } else { s[j] })
}

/// The fold of the positions of `s` (which starts at position `tl`) that
/// fall within `[ql, qr]`; `e` when none does.
pub open spec fn range_fold<T, C: CombineFn<T>>(
    c: C,
    e: T,
    s: Seq<T>,
    tl: int,
    ql: int,
    qr: int,
) -> T {
    let lo = if ql - tl > 0 { ql - tl } else { 0 };
    let hi = if qr - tl + 1 < s.len() { qr - tl + 1 } else { s.len() as int };
    if lo >= hi {
        e
    } else {
        cfold(c, e, s.subrange(lo, hi))
    }
}

/// The logical contents of the subtree rooted at node `i` over positions
/// `[tl, tr]`: a pending value covers the whole range, a leaf contributes
/// its aggregate, and an inner node concatenates its children.
pub open spec fn view_of<T>(
    agg: Seq<T>,
    pending: Seq<Option<T>>,
    i: int,
    tl: int,
    tr: int,
) -> Seq<T>
    decreases tr - tl,
{
    if tl > tr {
        Seq::empty()
    } else if pending[i] is Some {
        Seq::new((tr - tl + 1) as nat, |j: int| pending[i]->0)
    } else if tl == tr {
        seq![agg[i]]
    } else {
        let mid = (tl + tr) / 2;
        view_of(agg, pending, 2 * i + 1, tl, mid) + view_of(agg, pending, 2 * i + 2, mid + 1, tr)
    }
}

/// Pending values sit at leaves only, below node `i`.
pub open spec fn point_only<T>(pending: Seq<Option<T>>, i: int, tl: int, tr: int) -> bool
    decreases tr - tl,
{
    tl < tr ==> {
        &&& pending[i] is None
        &&& point_only(pending, 2 * i + 1, tl, (tl + tr) / 2)
        &&& point_only(pending, 2 * i + 2, (tl + tr) / 2 + 1, tr)
    }
}

/// Every node of the subtree at `i` whose pending slot is clear stores the
/// fold of its logical contents.
pub open spec fn aggs_ok<T, C: CombineFn<T>>(
    c: C,
    e: T,
    agg: Seq<T>,
    pending: Seq<Option<T>>,
    i: int,
    tl: int,
    tr: int,
) -> bool
    decreases tr - tl,
{
    tl <= tr ==> {
        &&& (pending[i] is None ==> agg[i] == cfold(c, e, view_of(agg, pending, i, tl, tr)))
        &&& (tl < tr ==> aggs_ok(c, e, agg, pending, 2 * i + 1, tl, (tl + tr) / 2)
                && aggs_ok(c, e, agg, pending, 2 * i + 2, (tl + tr) / 2 + 1, tr))
    }
}

/// Array index `j` belongs to the subtree rooted at node `i` over `[tl, tr]`.
pub open spec fn in_subtree(i: int, tl: int, tr: int, j: int) -> bool
    decreases tr - tl,
{
    tl <= tr && (j == i || (tl < tr && (in_subtree(2 * i + 1, tl, (tl + tr) / 2, j)
        || in_subtree(2 * i + 2, (tl + tr) / 2 + 1, tr, j))))
}

/// The shape bookkeeping the recursion over the implicit tree maintains:
/// `pw` is `2^depth`, and every visited node index stays below `4n`.
pub open spec fn node_bounds(n: int, i: int, tl: int, tr: int, pw: int) -> bool {
    &&& 0 <= tl <= tr < n
    &&& 1 <= pw
    &&& i + 2 <= 2 * pw
    &&& (tr - tl) * pw <= n - 1
    &&& 0 <= i < 4 * n
}

/// The root satisfies the shape bookkeeping.
pub proof fn lemma_root_bounds(n: int)
    requires
        n >= 1,
    ensures
        node_bounds(n, 0, 0, n - 1, 1),
{
}

/// The shape bookkeeping carries to both children of an inner node.
pub proof fn lemma_child_bounds(n: int, i: int, tl: int, tr: int, pw: int)
    requires
        node_bounds(n, i, tl, tr, pw),
        tl < tr,
    ensures
        node_bounds(n, 2 * i + 1, tl, (tl + tr) / 2, 2 * pw),
        node_bounds(n, 2 * i + 2, (tl + tr) / 2 + 1, tr, 2 * pw),
{
    let mid = (tl + tr) / 2;
    assert(pw <= (tr - tl) * pw) by (nonlinear_arith)
        requires
            1 <= tr - tl,
            1 <= pw,
    {}
    assert((mid - tl) * (2 * pw) <= (tr - tl) * pw) by (nonlinear_arith)
        requires
            mid == (tl + tr) / 2,
            tl < tr,
            1 <= pw,
    {}
    assert((tr - mid - 1) * (2 * pw) <= (tr - tl) * pw) by (nonlinear_arith)
        requires
            mid == (tl + tr) / 2,
            tl < tr,
            1 <= pw,
    {}
}

/// Subtree indices never fall below the root's index.
pub proof fn lemma_subtree_at_least(i: int, tl: int, tr: int, j: int)
    requires
        in_subtree(i, tl, tr, j),
        i >= 0,
    ensures
        j >= i,
    decreases tr - tl,
{
    if j != i && tl < tr {
        let mid = (tl + tr) / 2;
        if in_subtree(2 * i + 1, tl, mid, j) {
            lemma_subtree_at_least(2 * i + 1, tl, mid, j);
        } else {
            lemma_subtree_at_least(2 * i + 2, mid + 1, tr, j);
        }
    }
}

/// A child's subtree sits inside the parent's.
pub proof fn lemma_subtree_step(i: int, tl: int, tr: int, j: int)
    requires
        tl < tr,
        in_subtree(2 * i + 1, tl, (tl + tr) / 2, j) || in_subtree(2 * i + 2, (tl + tr) / 2 + 1,
            tr, j),
    ensures
        in_subtree(i, tl, tr, j),
{
}

/// Every subtree index is covered by a dyadic interval anchored at the root.
proof fn lemma_subtree_covered(i: int, tl: int, tr: int, j: int)
    requires
        in_subtree(i, tl, tr, j),
        i >= 0,
    ensures
        exists|d: nat| (i + 1) * pow2(d) <= j + 1 < (i + 2) * (#[trigger] pow2(d)),
    decreases tr - tl,
{
    if j == i {
        lemma2_to64();
        assert((i + 1) * pow2(0) <= j + 1 < (i + 2) * pow2(0));
    } else {
        let mid = (tl + tr) / 2;
        let child = if in_subtree(2 * i + 1, tl, mid, j) {
            2 * i + 1
        } else {
            2 * i + 2
        };
        if in_subtree(2 * i + 1, tl, mid, j) {
            lemma_subtree_covered(2 * i + 1, tl, mid, j);
        } else {
            lemma_subtree_covered(2 * i + 2, mid + 1, tr, j);
        }
        let d = choose|d: nat| (child + 1) * pow2(d) <= j + 1 < (child + 2) * (#[trigger] pow2(
            d));
        lemma_pow2_unfold((d + 1) as nat);
        lemma_pow2_pos(d);
        assert(pow2((d + 1) as nat) == 2 * pow2(d));
        let p = pow2(d) as int;
        assert((i + 1) * (2 * p) <= j + 1 < (i + 2) * (2 * p)) by (nonlinear_arith)
            requires
                1 <= p,
                child == 2 * i + 1 || child == 2 * i + 2,
                (child + 1) * p <= j + 1 < (child + 2) * p,
        {}
        assert((i + 1) * pow2((d + 1) as nat) <= j + 1 < (i + 2) * pow2((d + 1) as nat));
    }
}

/// The two children of a node own disjoint sets of array indices.
pub proof fn lemma_siblings_disjoint(i: int, tl: int, tr: int, j: int)
    requires
        i >= 0,
        tl < tr,
        in_subtree(2 * i + 1, tl, (tl + tr) / 2, j),
    ensures
        !in_subtree(2 * i + 2, (tl + tr) / 2 + 1, tr, j),
{
    let mid = (tl + tr) / 2;
    if in_subtree(2 * i + 2, mid + 1, tr, j) {
        lemma_subtree_covered(2 * i + 1, tl, mid, j);
        lemma_subtree_covered(2 * i + 2, mid + 1, tr, j);
        let d1 = choose|d: nat| (2 * i + 2) * pow2(d) <= j + 1 < (2 * i + 3) * (
            #[trigger] pow2(d));
        let d2 = choose|d: nat| (2 * i + 3) * pow2(d) <= j + 1 < (2 * i + 4) * (
            #[trigger] pow2(d));
        let p1 = pow2(d1) as int;
        let p2 = pow2(d2) as int;
        lemma_pow2_pos(d1);
        lemma_pow2_pos(d2);
        if d2 >= d1 {
            if d2 > d1 {
                lemma_pow2_strictly_increases(d1, d2);
            }
            assert((2 * i + 3) * p2 >= (2 * i + 3) * p1) by (nonlinear_arith)
                requires
                    p2 >= p1,
                    i >= 0,
            {}
            assert(false);
        } else {
            lemma_pow2_unfold((d2 + 1) as nat);
            if d2 + 1 < d1 {
                lemma_pow2_strictly_increases((d2 + 1) as nat, d1);
            }
            assert(2 * p2 <= p1);
            assert((2 * i + 4) * p2 <= (2 * i + 2) * p1) by (nonlinear_arith)
                requires
                    i >= 0,
                    p2 >= 1,
                    2 * p2 <= p1,
            {}
            assert(false);
        }
    }
}

/// Subtree indices stay below `4n`.
pub proof fn lemma_subtree_upper(n: int, i: int, tl: int, tr: int, pw: int, j: int)
    requires
        node_bounds(n, i, tl, tr, pw),
        in_subtree(i, tl, tr, j),
    ensures
        0 <= j < 4 * n,
    decreases tr - tl,
{
    if j != i && tl < tr {
        let mid = (tl + tr) / 2;
        lemma_child_bounds(n, i, tl, tr, pw);
        if in_subtree(2 * i + 1, tl, mid, j) {
            lemma_subtree_upper(n, 2 * i + 1, tl, mid, 2 * pw, j);
        } else {
            lemma_subtree_upper(n, 2 * i + 2, mid + 1, tr, 2 * pw, j);
        }
    }
}

/// After a flush pushed the pending value `p` onto both children, the
/// children's subtrees are consistent again: their own pending slots are
/// set, and nothing below them changed.
proof fn lemma_eval_keeps_children_ok<T, C: CombineFn<T>>(
    c: C,
    e: T,
    agg0: Seq<T>,
    pend0: Seq<Option<T>>,
    agg1: Seq<T>,
    pend1: Seq<Option<T>>,
    i: int,
    tl: int,
    tr: int,
    pw: int,
    n: int,
    p: T,
)
    requires
        tl < tr,
        node_bounds(n, i, tl, tr, pw),
        agg0.len() == 4 * n,
        pend0.len() == 4 * n,
        agg1.len() == 4 * n,
        pend1.len() == 4 * n,
        aggs_ok(c, e, agg0, pend0, i, tl, tr),
        pend1[2 * i + 1] == Some(p),
        pend1[2 * i + 2] == Some(p),
        forall|j: int| 0 <= j < 4 * n && j != i ==> agg1[j] == agg0[j],
        forall|j: int| 0 <= j < 4 * n && j != i && j != 2 * i + 1 && j != 2 * i + 2
            ==> pend1[j] == pend0[j],
    ensures
        aggs_ok(c, e, agg1, pend1, 2 * i + 1, tl, (tl + tr) / 2),
        aggs_ok(c, e, agg1, pend1, 2 * i + 2, (tl + tr) / 2 + 1, tr),
{
    let mid = (tl + tr) / 2;
    lemma_child_bounds(n, i, tl, tr, pw);
    assert(aggs_ok(c, e, agg0, pend0, 2 * i + 1, tl, mid));
    assert(aggs_ok(c, e, agg0, pend0, 2 * i + 2, mid + 1, tr));
    if tl < mid {
        lemma_child_bounds(n, 2 * i + 1, tl, mid, 2 * pw);
        let gl = 2 * (2 * i + 1) + 1;
        let gr = 2 * (2 * i + 1) + 2;
        let gmid = (tl + mid) / 2;
        assert forall|j: int| #[trigger] in_subtree(gl, tl, gmid, j)
            implies agg1[j] == agg0[j] && pend1[j] == pend0[j] by {
            lemma_subtree_at_least(gl, tl, gmid, j);
            lemma_subtree_upper(n, gl, tl, gmid, 4 * pw, j);
        }
        assert forall|j: int| #[trigger] in_subtree(gr, gmid + 1, mid, j)
            implies agg1[j] == agg0[j] && pend1[j] == pend0[j] by {
            lemma_subtree_at_least(gr, gmid + 1, mid, j);
            lemma_subtree_upper(n, gr, gmid + 1, mid, 4 * pw, j);
        }
        lemma_subtree_congruence(c, e, agg0, pend0, agg1, pend1, gl, tl, gmid);
        lemma_subtree_congruence(c, e, agg0, pend0, agg1, pend1, gr, gmid + 1, mid);
    }
    if mid + 1 < tr {
        lemma_child_bounds(n, 2 * i + 2, mid + 1, tr, 2 * pw);
        let gl = 2 * (2 * i + 2) + 1;
        let gr = 2 * (2 * i + 2) + 2;
        let gmid = (mid + 1 + tr) / 2;
        assert forall|j: int| #[trigger] in_subtree(gl, mid + 1, gmid, j)
            implies agg1[j] == agg0[j] && pend1[j] == pend0[j] by {
            lemma_subtree_at_least(gl, mid + 1, gmid, j);
            lemma_subtree_upper(n, gl, mid + 1, gmid, 4 * pw, j);
        }
        assert forall|j: int| #[trigger] in_subtree(gr, gmid + 1, tr, j)
            implies agg1[j] == agg0[j] && pend1[j] == pend0[j] by {
            lemma_subtree_at_least(gr, gmid + 1, tr, j);
            lemma_subtree_upper(n, gr, gmid + 1, tr, 4 * pw, j);
        }
        lemma_subtree_congruence(c, e, agg0, pend0, agg1, pend1, gl, mid + 1, gmid);
        lemma_subtree_congruence(c, e, agg0, pend0, agg1, pend1, gr, gmid + 1, tr);
    }
}

/// The clipped fold of a concatenation combines the clipped folds of the
/// parts.
pub proof fn lemma_range_fold_concat<T, C: CombineFn<T>>(
    c: C,
    e: T,
    s: Seq<T>,
    t: Seq<T>,
    tl: int,
    ql: int,
    qr: int,
)
    requires
        combine_associative(c),
        combine_identity(c, e),
        ql <= qr,
    ensures
        range_fold(c, e, s + t, tl, ql, qr) == c.spec_combine(range_fold(c, e, s, tl, ql, qr),
            range_fold(c, e, t, tl + s.len(), ql, qr)),
{
    let u = s + t;
    let lo = if ql - tl > 0 { ql - tl } else { 0 };
    let hi = if qr - tl + 1 < u.len() { qr - tl + 1 } else { u.len() as int };
    let hi_s = if qr - tl + 1 < s.len() { qr - tl + 1 } else { s.len() as int };
    let lo_t = if ql - (tl + s.len()) > 0 { ql - (tl + s.len()) } else { 0 };
    let hi_t = if qr - (tl + s.len()) + 1 < t.len() { qr - (tl + s.len()) + 1 } else {
        t.len() as int
    };
    if lo >= hi {
        // No overlap at all, hence none with either part.
        assert(lo >= hi_s || lo_t >= hi_t || u.len() == 0);
        if u.len() == 0 {
            assert(s.len() == 0 && t.len() == 0);
        }
        assert(range_fold(c, e, s, tl, ql, qr) == e);
        assert(range_fold(c, e, t, tl + s.len(), ql, qr) == e);
    } else if hi <= s.len() {
        // Overlap confined to the left part.
        assert(u.subrange(lo, hi) =~= s.subrange(lo, hi));
        assert(hi == hi_s);
        assert(range_fold(c, e, t, tl + s.len(), ql, qr) == e);
    } else if lo >= s.len() {
        // Overlap confined to the right part.
        assert(u.subrange(lo, hi) =~= t.subrange(lo - s.len(), hi - s.len()));
        assert(lo - s.len() == lo_t && hi - s.len() == hi_t);
        assert(range_fold(c, e, s, tl, ql, qr) == e);
    } else {
        // Overlap straddles the boundary.
        assert(u.subrange(lo, hi) =~= s.subrange(lo, s.len() as int)
            + t.subrange(0, hi - s.len()));
        assert(hi_s == s.len() as int);
        assert(lo_t == 0 && hi_t == hi - s.len());
        lemma_cfold_concat(c, e, s.subrange(lo, s.len() as int), t.subrange(0, hi - s.len()));
    }
}

/// Setting the pending slot at an inner node keeps its subtree consistent:
/// the node's own aggregate clause lapses, and nothing below it changed.
proof fn lemma_pending_set_ok<T, C: CombineFn<T>>(
    c: C,
    e: T,
    agg: Seq<T>,
    pend1: Seq<Option<T>>,
    pend2: Seq<Option<T>>,
    i: int,
    tl: int,
    tr: int,
    pw: int,
    n: int,
)
    requires
        tl < tr,
        node_bounds(n, i, tl, tr, pw),
        agg.len() == 4 * n,
        pend1.len() == 4 * n,
        pend2.len() == 4 * n,
        aggs_ok(c, e, agg, pend1, i, tl, tr),
        pend2[i] is Some,
        forall|j: int| 0 <= j < 4 * n && j != i ==> pend2[j] == pend1[j],
    ensures
        aggs_ok(c, e, agg, pend2, i, tl, tr),
{
    let mid = (tl + tr) / 2;
    lemma_child_bounds(n, i, tl, tr, pw);
    assert forall|j: int| #[trigger] in_subtree(2 * i + 1, tl, mid, j)
        implies agg[j] == agg[j] && pend2[j] == pend1[j] by {
        lemma_subtree_at_least(2 * i + 1, tl, mid, j);
        lemma_subtree_upper(n, 2 * i + 1, tl, mid, 2 * pw, j);
    }
    assert forall|j: int| #[trigger] in_subtree(2 * i + 2, mid + 1, tr, j)
        implies agg[j] == agg[j] && pend2[j] == pend1[j] by {
        lemma_subtree_at_least(2 * i + 2, mid + 1, tr, j);
        lemma_subtree_upper(n, 2 * i + 2, mid + 1, tr, 2 * pw, j);
    }
    lemma_subtree_congruence(c, e, agg, pend1, agg, pend2, 2 * i + 1, tl, mid);
    lemma_subtree_congruence(c, e, agg, pend1, agg, pend2, 2 * i + 2, mid + 1, tr);
}

/// The logical contents of a subtree over `[tl, tr]` hold one value per
/// position.
pub proof fn lemma_view_len<T>(agg: Seq<T>, pending: Seq<Option<T>>, i: int, tl: int, tr: int)
    ensures
        tl <= tr ==> view_of(agg, pending, i, tl, tr).len() == tr - tl + 1,
        tl > tr ==> view_of(agg, pending, i, tl, tr).len() == 0,
    decreases tr - tl,
{
    if tl <= tr && !(pending[i] is Some) && tl < tr {
        let mid = (tl + tr) / 2;
        lemma_view_len(agg, pending, 2 * i + 1, tl, mid);
        lemma_view_len(agg, pending, 2 * i + 2, mid + 1, tr);
    }
}

/// Subtree predicates depend only on the array entries of that subtree.
pub proof fn lemma_subtree_congruence<T, C: CombineFn<T>>(
    c: C,
    e: T,
    agg1: Seq<T>,
    pending1: Seq<Option<T>>,
    agg2: Seq<T>,
    pending2: Seq<Option<T>>,
    i: int,
    tl: int,
    tr: int,
)
    requires
        forall|j: int| #[trigger] in_subtree(i, tl, tr, j)
            ==> agg1[j] == agg2[j] && pending1[j] == pending2[j],
    ensures
        view_of(agg1, pending1, i, tl, tr) == view_of(agg2, pending2, i, tl, tr),
        aggs_ok(c, e, agg1, pending1, i, tl, tr) == aggs_ok(c, e, agg2, pending2, i, tl, tr),
        point_only(pending1, i, tl, tr) == point_only(pending2, i, tl, tr),
    decreases tr - tl,
{
    if tl <= tr {
        assert(in_subtree(i, tl, tr, i));
        if tl < tr {
            let mid = (tl + tr) / 2;
            assert forall|j: int| #[trigger] in_subtree(2 * i + 1, tl, mid, j)
                implies agg1[j] == agg2[j] && pending1[j] == pending2[j] by {
                lemma_subtree_step(i, tl, tr, j);
            }
            assert forall|j: int| #[trigger] in_subtree(2 * i + 2, mid + 1, tr, j)
                implies agg1[j] == agg2[j] && pending1[j] == pending2[j] by {
                lemma_subtree_step(i, tl, tr, j);
            }
            lemma_subtree_congruence(c, e, agg1, pending1, agg2, pending2, 2 * i + 1, tl, mid);
            lemma_subtree_congruence(c, e, agg1, pending1, agg2, pending2, 2 * i + 2, mid + 1,
                tr);
            if pending1[i] is Some {
                assert(view_of(agg1, pending1, i, tl, tr)
                    =~= view_of(agg2, pending2, i, tl, tr));
            }
        } else {
            if pending1[i] is Some {
                assert(view_of(agg1, pending1, i, tl, tr)
                    =~= view_of(agg2, pending2, i, tl, tr));
            }
        }
    }
}

/// Folding over a concatenation combines the folds of the parts.
pub proof fn lemma_cfold_concat<T, C: CombineFn<T>>(c: C, e: T, s: Seq<T>, t: Seq<T>)
    requires
        combine_associative(c),
        combine_identity(c, e),
    ensures
        cfold(c, e, s + t) == c.spec_combine(cfold(c, e, s), cfold(c, e, t)),
    decreases t.len(),
{
    if t.len() == 0 {
        assert(s + t =~= s);
    } else {
        lemma_cfold_concat(c, e, s, t.drop_last());
        assert((s + t).drop_last() =~= s + t.drop_last());
        assert((s + t).last() == t.last());
    }
}

/// Folding starts with its first element: pulling the head out front.
pub proof fn lemma_cfold_cons<T, C: CombineFn<T>>(c: C, e: T, x: T, s: Seq<T>)
    requires
        combine_associative(c),
        combine_identity(c, e),
    ensures
        cfold(c, e, seq![x] + s) == c.spec_combine(x, cfold(c, e, s)),
    decreases s.len(),
{
    if s.len() == 0 {
        assert(seq![x] + s =~= seq![x]);
        assert(seq![x].drop_last() =~= Seq::<T>::empty());
        assert(cfold(c, e, seq![x].drop_last()) == e);
        assert(seq![x].last() == x);
        assert(cfold(c, e, seq![x])
            == c.spec_combine(cfold(c, e, seq![x].drop_last()), seq![x].last()));
    } else {
        lemma_cfold_cons(c, e, x, s.drop_last());
        assert((seq![x] + s).drop_last() =~= seq![x] + s.drop_last());
        assert((seq![x] + s).last() == s.last());
    }
}

/// For a commutative combine, folding a sequence in reverse order yields
/// the same aggregate.
pub proof fn lemma_cfold_reverse<T, C: CombineFn<T>>(c: C, e: T, s: Seq<T>)
    requires
        combine_associative(c),
        combine_identity(c, e),
        combine_commutative(c),
    ensures
        cfold(c, e, s.reverse()) == cfold(c, e, s),
    decreases s.len(),
{
    if s.len() > 0 {
        lemma_cfold_reverse(c, e, s.drop_last());
        assert(s.reverse() =~= seq![s.last()] + s.drop_last().reverse());
        lemma_cfold_cons(c, e, s.last(), s.drop_last().reverse());
    }
}

/// Folding a constant sequence yields the constant, for an idempotent
/// combine or when the constant is the identity itself.
pub proof fn lemma_cfold_constant<T, C: CombineFn<T>>(c: C, e: T, s: Seq<T>, x: T)
    requires
        combine_identity(c, e),
        combine_idempotent(c) || x == e,
        s.len() >= 1,
        forall|j: int| 0 <= j < s.len() ==> s[j] == x,
    ensures
        cfold(c, e, s) == x,
    decreases s.len(),
{
    if s.len() == 1 {
        assert(cfold(c, e, s.drop_last()) == e);
    } else {
        lemma_cfold_constant(c, e, s.drop_last(), x);
    }
}

/// A generic segment tree with lazy propagation over positions `0 .. n`.
pub struct SegmentTree<T, C, LA, LF> {
    pub n: usize,
    /// Records that every update so far assigned a single position, so that
    /// pending values sit at leaves and aggregates are exact for any
    /// monoidal combine.
    pub point_safe: Ghost<bool>,
    pub seg_tree: Vec<T>,
    pub seg_lazy: Vec<Option<T>>,
    pub combine_fn: C,
    pub lazy_apply_fn: LA,
    pub lazy_func: LF,
    pub sentinel: T,
    pub lazy_sentinel: Option<T>,
}

impl<T: Copy, C: CombineFn<T>, LA: LazyApplyFn<T>, LF: LazyFunc<T>> SegmentTree<T, C, LA, LF> {
    /// The lazy strategy pair is the replacing one.
    pub open spec fn replace_laws(&self) -> bool {
        replace_apply::<T, LA>(self.lazy_apply_fn) && replace_eval::<T, LF>(self.lazy_func)
    }

    /// The combine strategy together with the sentinel forms a monoid.
    pub open spec fn monoid_laws(&self) -> bool {
        combine_associative(self.combine_fn) && combine_identity(self.combine_fn, self.sentinel)
    }

    /// The logical contents: one value per position in `0 .. n`.
    pub open spec fn contents(&self) -> Seq<T> {
        view_of(self.seg_tree@, self.seg_lazy@, 0, 0, self.n - 1)
    }

    /// No pending value sits at an inner node.
    pub open spec fn pending_at_leaves(&self) -> bool {
        point_only(self.seg_lazy@, 0, 0, self.n - 1)
    }

    /// Stored aggregates agree with the contents wherever the strategies
    /// make that meaningful.
    pub open spec fn aggs_consistent(&self) -> bool {
        aggs_ok(self.combine_fn, self.sentinel, self.seg_tree@, self.seg_lazy@, 0, 0,
            self.n - 1)
    }

    /// The invariant every method preserves.
    pub open spec fn wf(&self) -> bool {
        &&& self.seg_tree@.len() == 4 * self.n
        &&& self.seg_lazy@.len() == 4 * self.n
        &&& 1 <= self.n <= usize::MAX as int / 64
        &&& self.lazy_sentinel is None
        &&& (self.replace_laws() && self.monoid_laws()
                && combine_idempotent(self.combine_fn) ==> self.aggs_consistent())
        &&& (self.replace_laws() && self.monoid_laws() && self.point_safe@
                ==> self.aggs_consistent() && self.pending_at_leaves())
    }

    /// The parts of the structure no operation changes.
    pub open spec fn same_config(&self, other: &Self) -> bool {
        &&& self.n == other.n
        &&& self.combine_fn == other.combine_fn
        &&& self.lazy_apply_fn == other.lazy_apply_fn
        &&& self.lazy_func == other.lazy_func
        &&& self.sentinel == other.sentinel
        &&& self.lazy_sentinel == other.lazy_sentinel
    }

    /// Create a tree over `n` positions, each initially holding one
    /// `T::default()` value (positions only become meaningful once
    /// assigned).  The pending slots use `Option`: `None` is the "no
    /// pending op" sentinel, so the supplied `lazy_sentinel` must be `None`.
    pub fn new(
        n: usize,
        combine_fn: C,
        lazy_apply_fn: LA,
        lazy_func: LF,
        sentinel: T,
        lazy_sentinel: Option<T>,
    ) -> (st: Self) where T: Default
        requires
            1 <= n <= usize::MAX / 64,
            lazy_sentinel is None,
        ensures
            st.wf(),
            st.n == n,
            st.combine_fn == combine_fn,
            st.lazy_apply_fn == lazy_apply_fn,
            st.lazy_func == lazy_func,
            st.sentinel == sentinel,
            st.pending_at_leaves(),
            !st.point_safe@,
            st.contents().len() == n,
            forall|j1: int, j2: int| 0 <= j1 < n && 0 <= j2 < n
                ==> st.contents()[j1] == st.contents()[j2],
    {
        let size = 4 * n;
        let fill: T = T::default();
        let mut seg_tree: Vec<T> = Vec::new();
        let mut seg_lazy: Vec<Option<T>> = Vec::new();
        let mut i: usize = 0;
        while i < size
            invariant
                i <= size,
                seg_tree@.len() == i,
                seg_lazy@.len() == i,
                forall|j: int| 0 <= j < i ==> seg_tree@[j] == fill,
                forall|j: int| 0 <= j < i ==> seg_lazy@[j] is None,
            decreases size - i,
        {
            seg_tree.push(fill);
            seg_lazy.push(None);
            i = i + 1;
        }
        let st = SegmentTree {
            n,
            point_safe: Ghost(false),
            seg_tree,
            seg_lazy,
            combine_fn,
            lazy_apply_fn,
            lazy_func,
            sentinel,
            lazy_sentinel,
        };
        proof {
            lemma_root_bounds(n as int);
            lemma_fresh_tree(st.combine_fn, st.sentinel, fill, st.seg_tree@, st.seg_lazy@,
                0, 0, n as int - 1, 1, n as int);
        }
        st
    }

    /// Structural shape alone, without the aggregate consistency clauses.
    pub open spec fn shape(&self) -> bool {
        &&& self.seg_tree@.len() == 4 * self.n
        &&& self.seg_lazy@.len() == 4 * self.n
        &&& 1 <= self.n <= usize::MAX as int / 64
        &&& self.lazy_sentinel is None
    }

    /// Flush the pending value at node `i` over `[l, r]`: apply it to the
    /// node's aggregate, push it onto both children of an inner node, then
    /// clear the slot.
    fn eval_lazy(&mut self, i: usize, l: usize, r: usize, Ghost(pw): Ghost<int>)
        requires
            old(self).shape(),
            node_bounds(old(self).n as int, i as int, l as int, r as int, pw),
        ensures
            final(self).shape(),
            final(self).same_config(old(self)),
            final(self).point_safe == old(self).point_safe,
            final(self).seg_lazy@[i as int] is None,
            forall|j: int| 0 <= j < 4 * old(self).n && j != i
                ==> final(self).seg_tree@[j] == old(self).seg_tree@[j],
            forall|j: int| 0 <= j < 4 * old(self).n && j != i && j != 2 * i + 1
                && j != 2 * i + 2 ==> final(self).seg_lazy@[j] == old(self).seg_lazy@[j],
            l == r ==> forall|j: int| 0 <= j < 4 * old(self).n && j != i
                ==> final(self).seg_lazy@[j] == old(self).seg_lazy@[j],
            old(self).seg_lazy@[i as int] is None ==> final(self).seg_tree@
                == old(self).seg_tree@ && final(self).seg_lazy@ == old(self).seg_lazy@,
            old(self).replace_laws() ==> {
                &&& view_of(final(self).seg_tree@, final(self).seg_lazy@, i as int, l as int,
                    r as int) == view_of(old(self).seg_tree@, old(self).seg_lazy@, i as int,
                    l as int, r as int)
                &&& final(self).seg_tree@[i as int] == (match old(self).seg_lazy@[i as int] {
                    Some(p) => p,
                    None => old(self).seg_tree@[i as int],
                })
            },
            point_only(old(self).seg_lazy@, i as int, l as int, r as int)
                ==> point_only(final(self).seg_lazy@, i as int, l as int, r as int),
            old(self).replace_laws() && old(self).monoid_laws()
                && combine_idempotent(old(self).combine_fn)
                && aggs_ok(old(self).combine_fn, old(self).sentinel, old(self).seg_tree@,
                    old(self).seg_lazy@, i as int, l as int, r as int)
                ==> aggs_ok(old(self).combine_fn, old(self).sentinel, final(self).seg_tree@,
                    final(self).seg_lazy@, i as int, l as int, r as int),
            old(self).replace_laws() && old(self).monoid_laws()
                && point_only(old(self).seg_lazy@, i as int, l as int, r as int)
                && aggs_ok(old(self).combine_fn, old(self).sentinel, old(self).seg_tree@,
                    old(self).seg_lazy@, i as int, l as int, r as int)
                ==> aggs_ok(old(self).combine_fn, old(self).sentinel, final(self).seg_tree@,
                    final(self).seg_lazy@, i as int, l as int, r as int),
    {
        let ghost c = self.combine_fn;
        let ghost e = self.sentinel;
        let ghost s0 = *self;
        if let Some(lazy_val) = self.seg_lazy[i] {
            let cur = self.seg_tree[i];
            let newv = self.lazy_func.apply(cur, lazy_val, l, r);
            self.seg_tree.set(i, newv);
            if l != r {
                proof {
                    lemma_child_bounds(self.n as int, i as int, l as int, r as int, pw);
                }
                let li = 2 * i + 1;
                let ri = 2 * i + 2;
                let base_l = match self.seg_lazy[li] {
                    Some(x) => x,
                    None => lazy_val,
                };
                let nl = self.lazy_apply_fn.apply(base_l, lazy_val);
                self.seg_lazy.set(li, Some(nl));
                let base_r = match self.seg_lazy[ri] {
                    Some(x) => x,
                    None => lazy_val,
                };
                let nr = self.lazy_apply_fn.apply(base_r, lazy_val);
                self.seg_lazy.set(ri, Some(nr));
            }
            self.seg_lazy.set(i, None);
            proof {
                let p = s0.seg_lazy@[i as int]->0;
                let ii = i as int;
                let tl = l as int;
                let tr = r as int;
                lemma_view_len(s0.seg_tree@, s0.seg_lazy@, ii, tl, tr);
                lemma_view_len(self.seg_tree@, self.seg_lazy@, ii, tl, tr);
                if s0.replace_laws() {
                    let v_old = view_of(s0.seg_tree@, s0.seg_lazy@, ii, tl, tr);
                    let v_new = view_of(self.seg_tree@, self.seg_lazy@, ii, tl, tr);
                    if tl == tr {
                        assert(v_new =~= v_old);
                    } else {
                        let mid = (tl + tr) / 2;
                        lemma_view_len(self.seg_tree@, self.seg_lazy@, 2 * ii + 1, tl, mid);
                        lemma_view_len(self.seg_tree@, self.seg_lazy@, 2 * ii + 2, mid + 1, tr);
                        assert(self.seg_lazy@[2 * ii + 1] == Some(p));
                        assert(self.seg_lazy@[2 * ii + 2] == Some(p));
                        assert(v_new =~= v_old);
                    }
                    if s0.monoid_laws() && (combine_idempotent(c) || point_only(s0.seg_lazy@,
                        ii, tl, tr)) && aggs_ok(c, e, s0.seg_tree@, s0.seg_lazy@, ii, tl, tr) {
                        if tl < tr && combine_idempotent(c) {
                            lemma_eval_keeps_children_ok(c, e, s0.seg_tree@, s0.seg_lazy@,
                                self.seg_tree@, self.seg_lazy@, ii, tl, tr, pw,
                                self.n as int, p);
                            lemma_cfold_constant(c, e, v_new, p);
                        } else {
                            // point_only at an inner node forces a clear
                            // pending slot, so only the leaf case remains.
                            assert(tl == tr);
                            let s1 = view_of(self.seg_tree@, self.seg_lazy@, ii, tl, tr);
                            assert(s1 =~= seq![p]);
                            assert(s1.drop_last() =~= Seq::<T>::empty());
                            assert(cfold(c, e, Seq::<T>::empty()) == e);
                            assert(s1.last() == p);
                            assert(cfold(c, e, s1)
                                == c.spec_combine(cfold(c, e, s1.drop_last()), s1.last()));
                            assert(cfold(c, e, s1) == c.spec_combine(e, p));
                        }
                    }
                }
                if point_only(s0.seg_lazy@, ii, tl, tr) {
                    assert(tl == tr);
                }
            }
        }
    }

    /// Assign `val` to every position of `[ql, qr]` within the subtree at
    /// node `i`, and return the node's refreshed aggregate.
    fn update_rec(
        &mut self,
        i: usize,
        tl: usize,
        tr: usize,
        ql: usize,
        qr: usize,
        val: T,
        Ghost(pw): Ghost<int>,
    ) -> (res: T)
        requires
            old(self).shape(),
            node_bounds(old(self).n as int, i as int, tl as int, tr as int, pw),
            ql <= qr < old(self).n,
        ensures
            final(self).shape(),
            final(self).same_config(old(self)),
            final(self).point_safe == old(self).point_safe,
            final(self).seg_lazy@[i as int] is None,
            res == final(self).seg_tree@[i as int],
            forall|j: int| 0 <= j < 4 * old(self).n
                && !in_subtree(i as int, tl as int, tr as int, j)
                ==> final(self).seg_tree@[j] == old(self).seg_tree@[j]
                    && final(self).seg_lazy@[j] == old(self).seg_lazy@[j],
            old(self).replace_laws() ==> view_of(final(self).seg_tree@, final(self).seg_lazy@,
                i as int, tl as int, tr as int) == assign_range(view_of(old(self).seg_tree@,
                old(self).seg_lazy@, i as int, tl as int, tr as int), tl as int, ql as int,
                qr as int, val),
            old(self).replace_laws() && old(self).monoid_laws()
                && combine_idempotent(old(self).combine_fn)
                && aggs_ok(old(self).combine_fn, old(self).sentinel, old(self).seg_tree@,
                    old(self).seg_lazy@, i as int, tl as int, tr as int)
                ==> aggs_ok(old(self).combine_fn, old(self).sentinel, final(self).seg_tree@,
                        final(self).seg_lazy@, i as int, tl as int, tr as int)
                    && res == cfold(old(self).combine_fn, old(self).sentinel,
                        view_of(final(self).seg_tree@, final(self).seg_lazy@, i as int,
                        tl as int, tr as int)),
            old(self).replace_laws() && old(self).monoid_laws() && ql == qr
                && point_only(old(self).seg_lazy@, i as int, tl as int, tr as int)
                && aggs_ok(old(self).combine_fn, old(self).sentinel, old(self).seg_tree@,
                    old(self).seg_lazy@, i as int, tl as int, tr as int)
                ==> aggs_ok(old(self).combine_fn, old(self).sentinel, final(self).seg_tree@,
                        final(self).seg_lazy@, i as int, tl as int, tr as int)
                    && point_only(final(self).seg_lazy@, i as int, tl as int, tr as int)
                    && res == cfold(old(self).combine_fn, old(self).sentinel,
                        view_of(final(self).seg_tree@, final(self).seg_lazy@, i as int,
                        tl as int, tr as int)),
        decreases tr - tl,
    {
        let ghost c = self.combine_fn;
        let ghost e = self.sentinel;
        let ghost nn = self.n as int;
        let ghost ii = i as int;
        let ghost tli = tl as int;
        let ghost tri = tr as int;
        let ghost s0 = *self;
        self.eval_lazy(i, tl, tr, Ghost(pw));
        let ghost s1 = *self;
        proof {
            lemma_view_len(s0.seg_tree@, s0.seg_lazy@, ii, tli, tri);
            lemma_view_len(s1.seg_tree@, s1.seg_lazy@, ii, tli, tri);
        }

        if tr < ql || qr < tl {
            // Disjoint: nothing to assign.
            let res = self.seg_tree[i];
            proof {
                if s0.replace_laws() {
                    assert(view_of(self.seg_tree@, self.seg_lazy@, ii, tli, tri)
                        =~= assign_range(view_of(s0.seg_tree@, s0.seg_lazy@, ii, tli, tri),
                            tli, ql as int, qr as int, val));
                }
                if tl == tr {
                } else {
                    assert(in_subtree(2 * ii + 1, tli, (tli + tri) / 2, 2 * ii + 1));
                    assert(in_subtree(2 * ii + 2, (tli + tri) / 2 + 1, tri, 2 * ii + 2));
                    assert(in_subtree(ii, tli, tri, 2 * ii + 1));
                    assert(in_subtree(ii, tli, tri, 2 * ii + 2));
                }
            }
            return res;
        }

        if ql <= tl && tr <= qr {
            // Covered: record the assignment lazily, then refresh at once.
            let cur = self.seg_lazy[i];
            let base = match cur {
                Some(x) => x,
                None => val,
            };
            let nl = self.lazy_apply_fn.apply(base, val);
            self.seg_lazy.set(i, Some(nl));
            let ghost s2 = *self;
            proof {
                if s0.replace_laws() && s0.monoid_laws()
                    && (combine_idempotent(c)
                        || (ql == qr && point_only(s0.seg_lazy@, ii, tli, tri)))
                    && aggs_ok(c, e, s0.seg_tree@, s0.seg_lazy@, ii, tli, tri) {
                    if tli < tri {
                        // An assignment of a single position covers the
                        // whole range only at a leaf.
                        assert(combine_idempotent(c));
                        lemma_pending_set_ok(c, e, s1.seg_tree@, s1.seg_lazy@,
                            s2.seg_lazy@, ii, tli, tri, pw, nn);
                    }
                }
            }
            self.eval_lazy(i, tl, tr, Ghost(pw));
            let res = self.seg_tree[i];
            proof {
                let s3 = *self;
                lemma_view_len(s2.seg_tree@, s2.seg_lazy@, ii, tli, tri);
                lemma_view_len(s3.seg_tree@, s3.seg_lazy@, ii, tli, tri);
                if s0.replace_laws() {
                    assert(self.seg_lazy@[ii] is None);
                    assert(nl == val);
                    assert(view_of(s2.seg_tree@, s2.seg_lazy@, ii, tli, tri)
                        =~= assign_range(view_of(s0.seg_tree@, s0.seg_lazy@, ii, tli, tri),
                            tli, ql as int, qr as int, val));
                    if s0.monoid_laws() && (combine_idempotent(c)
                        || (ql == qr && point_only(s0.seg_lazy@, ii, tli, tri)))
                        && aggs_ok(c, e, s0.seg_tree@, s0.seg_lazy@, ii, tli, tri) {
                        if tli < tri {
                            assert(combine_idempotent(c));
                            assert(aggs_ok(c, e, s2.seg_tree@, s2.seg_lazy@, ii, tli, tri));
                        } else {
                            assert(aggs_ok(c, e, s2.seg_tree@, s2.seg_lazy@, ii, tli, tri));
                        }
                        assert(aggs_ok(c, e, s3.seg_tree@, s3.seg_lazy@, ii, tli, tri));
                    }
                }
                if tl == tr {
                } else {
                    assert(in_subtree(2 * ii + 1, tli, (tli + tri) / 2, 2 * ii + 1));
                    assert(in_subtree(2 * ii + 2, (tli + tri) / 2 + 1, tri, 2 * ii + 2));
                    assert(in_subtree(ii, tli, tri, 2 * ii + 1));
                    assert(in_subtree(ii, tli, tri, 2 * ii + 2));
                }
            }
            return res;
        }

        proof {
            // A leaf is either disjoint from or covered by the range.
            assert(tl < tr);
            lemma_child_bounds(nn, ii, tli, tri, pw);
        }
        let mid = (tl + tr) / 2;
        let ghost midi = mid as int;
        let a = self.update_rec(2 * i + 1, tl, mid, ql, qr, val, Ghost(2 * pw));
        let ghost s2 = *self;
        let b = self.update_rec(2 * i + 2, mid + 1, tr, ql, qr, val, Ghost(2 * pw));
        let ghost s3 = *self;
        let combined = self.combine_fn.combine(a, b);
        self.seg_tree.set(i, combined);
        let res = self.seg_tree[i];
        proof {
            let s4 = *self;
            let li = 2 * ii + 1;
            let ri = 2 * ii + 2;
            // The root index sits in no child subtree.
            if in_subtree(li, tli, midi, ii) {
                lemma_subtree_at_least(li, tli, midi, ii);
            }
            if in_subtree(ri, midi + 1, tri, ii) {
                lemma_subtree_at_least(ri, midi + 1, tri, ii);
            }
            // The left subtree is untouched by the right call and the final
            // write; the right subtree only by the final write.
            assert forall|j: int| #[trigger] in_subtree(li, tli, midi, j)
                implies s4.seg_tree@[j] == s2.seg_tree@[j]
                    && s4.seg_lazy@[j] == s2.seg_lazy@[j] by {
                lemma_subtree_at_least(li, tli, midi, j);
                lemma_subtree_upper(nn, li, tli, midi, 2 * pw, j);
                lemma_siblings_disjoint(ii, tli, tri, j);
            }
            assert forall|j: int| #[trigger] in_subtree(ri, midi + 1, tri, j)
                implies s4.seg_tree@[j] == s3.seg_tree@[j]
                    && s4.seg_lazy@[j] == s3.seg_lazy@[j] by {
                lemma_subtree_at_least(ri, midi + 1, tri, j);
                lemma_subtree_upper(nn, ri, midi + 1, tri, 2 * pw, j);
            }
            assert forall|j: int| #[trigger] in_subtree(ri, midi + 1, tri, j)
                implies s2.seg_tree@[j] == s1.seg_tree@[j]
                    && s2.seg_lazy@[j] == s1.seg_lazy@[j] by {
                lemma_subtree_at_least(ri, midi + 1, tri, j);
                lemma_subtree_upper(nn, ri, midi + 1, tri, 2 * pw, j);
                if in_subtree(li, tli, midi, j) {
                    lemma_siblings_disjoint(ii, tli, tri, j);
                }
            }
            lemma_subtree_congruence(c, e, s2.seg_tree@, s2.seg_lazy@, s4.seg_tree@,
                s4.seg_lazy@, li, tli, midi);
            lemma_subtree_congruence(c, e, s3.seg_tree@, s3.seg_lazy@, s4.seg_tree@,
                s4.seg_lazy@, ri, midi + 1, tri);
            lemma_subtree_congruence(c, e, s1.seg_tree@, s1.seg_lazy@, s2.seg_tree@,
                s2.seg_lazy@, ri, midi + 1, tri);
            // Frame of the whole call.
            assert forall|j: int| 0 <= j < 4 * nn && !in_subtree(ii, tli, tri, j)
                implies s4.seg_tree@[j] == s0.seg_tree@[j]
                    && s4.seg_lazy@[j] == s0.seg_lazy@[j] by {
                assert(in_subtree(ii, tli, tri, ii));
                if in_subtree(li, tli, midi, j) {
                    lemma_subtree_step(ii, tli, tri, j);
                }
                if in_subtree(ri, midi + 1, tri, j) {
                    lemma_subtree_step(ii, tli, tri, j);
                }
                assert(in_subtree(2 * ii + 1, tli, midi, 2 * ii + 1));
                assert(in_subtree(2 * ii + 2, midi + 1, tri, 2 * ii + 2));
                assert(in_subtree(ii, tli, tri, 2 * ii + 1));
                assert(in_subtree(ii, tli, tri, 2 * ii + 2));
            }
            lemma_view_len(s1.seg_tree@, s1.seg_lazy@, li, tli, midi);
            lemma_view_len(s1.seg_tree@, s1.seg_lazy@, ri, midi + 1, tri);
            lemma_view_len(s2.seg_tree@, s2.seg_lazy@, li, tli, midi);
            lemma_view_len(s3.seg_tree@, s3.seg_lazy@, ri, midi + 1, tri);
            if s0.replace_laws() {
                let vl1 = view_of(s1.seg_tree@, s1.seg_lazy@, li, tli, midi);
                let vr1 = view_of(s1.seg_tree@, s1.seg_lazy@, ri, midi + 1, tri);
                let vl4 = view_of(s4.seg_tree@, s4.seg_lazy@, li, tli, midi);
                let vr4 = view_of(s4.seg_tree@, s4.seg_lazy@, ri, midi + 1, tri);
                assert(vl4 == assign_range(vl1, tli, ql as int, qr as int, val));
                assert(vr4 == assign_range(vr1, midi + 1, ql as int, qr as int, val));
                assert(view_of(s4.seg_tree@, s4.seg_lazy@, ii, tli, tri) == vl4 + vr4);
                assert(view_of(s1.seg_tree@, s1.seg_lazy@, ii, tli, tri) == vl1 + vr1);
                assert(vl4 + vr4 =~= assign_range(vl1 + vr1, tli, ql as int, qr as int, val));
                if s0.monoid_laws() && (combine_idempotent(c)
                    || (ql == qr && point_only(s0.seg_lazy@, ii, tli, tri)))
                    && aggs_ok(c, e, s0.seg_tree@, s0.seg_lazy@, ii, tli, tri) {
                    assert(aggs_ok(c, e, s1.seg_tree@, s1.seg_lazy@, ii, tli, tri));
                    if !combine_idempotent(c) {
                        assert(point_only(s1.seg_lazy@, ii, tli, tri));
                    }
                    assert(s4.seg_tree@[ii] == c.spec_combine(cfold(c, e, vl4),
                        cfold(c, e, vr4)));
                    lemma_cfold_concat(c, e, vl4, vr4);
                    assert(s4.seg_lazy@[ii] is None);
                    assert(aggs_ok(c, e, s4.seg_tree@, s4.seg_lazy@, ii, tli, tri));
                    if !combine_idempotent(c) {
                        assert(point_only(s4.seg_lazy@, ii, tli, tri));
                    }
                }
            }
        }
        res
    }

    /// Assign `val` to every position of the inclusive range `[l, r]`.
    ///
    /// Under the replacing strategy pair this sets `contents()[l ..= r]` to
    /// `val`; what the stored aggregates then answer is exact for an
    /// idempotent combine, and for any monoidal combine as long as only
    /// single positions have ever been assigned.
    pub fn update(&mut self, l: usize, r: usize, val: T)
        requires
            old(self).wf(),
            l <= r < old(self).n,
        ensures
            final(self).wf(),
            final(self).same_config(old(self)),
            final(self).point_safe@ == (old(self).point_safe@ && l == r),
            old(self).replace_laws() ==> final(self).contents() == assign_range(
                old(self).contents(), 0, l as int, r as int, val),
    {
        proof {
            lemma_root_bounds(self.n as int);
        }
        let ghost s0 = *self;
        let last = self.n - 1;
        let _ = self.update_rec(0, 0, last, l, r, val, Ghost(1));
        proof {
            self.point_safe = Ghost(s0.point_safe@ && l == r);
        }
        proof {
            if self.replace_laws() && self.monoid_laws() && self.point_safe@ {
                assert(aggs_ok(s0.combine_fn, s0.sentinel, self.seg_tree@, self.seg_lazy@, 0,
                    0, self.n - 1));
            }
        }
    }

    /// Assign `val` to the single position `idx`.
    pub fn point_update(&mut self, idx: usize, val: T)
        requires
            old(self).wf(),
            idx < old(self).n,
        ensures
            final(self).wf(),
            final(self).same_config(old(self)),
            final(self).point_safe@ == old(self).point_safe@,
            old(self).replace_laws() ==> final(self).contents() == assign_range(
                old(self).contents(), 0, idx as int, idx as int, val),
    {
        self.update(idx, idx, val);
    }

    /// The aggregate over the inclusive range `[l, r]`: the fold of
    /// `contents()[l ..= r]`.  Pending values are flushed along the visited
    /// paths, but the contents never change.
    pub fn query(&mut self, l: usize, r: usize) -> (res: T)
        requires
            old(self).wf(),
            l <= r < old(self).n,
        ensures
            final(self).wf(),
            final(self).same_config(old(self)),
            final(self).point_safe == old(self).point_safe,
            old(self).replace_laws() ==> final(self).contents() == old(self).contents(),
            old(self).replace_laws() && old(self).monoid_laws() && l == r
                ==> res == old(self).contents()[l as int],
            old(self).replace_laws() && old(self).monoid_laws()
                && (combine_idempotent(old(self).combine_fn) || old(self).point_safe@)
                ==> res == cfold(old(self).combine_fn, old(self).sentinel,
                    old(self).contents().subrange(l as int, r as int + 1)),
    {
        proof {
            lemma_root_bounds(self.n as int);
            lemma_view_len(self.seg_tree@, self.seg_lazy@, 0, 0, self.n - 1);
        }
        let last = self.n - 1;
        let res = self.query_rec(0, 0, last, l, r, Ghost(1));
        proof {
            if old(self).replace_laws() && old(self).monoid_laws()
                && (combine_idempotent(old(self).combine_fn) || old(self).point_safe@) {
                let v = old(self).contents();
                assert(res == range_fold(old(self).combine_fn, old(self).sentinel, v, 0,
                    l as int, r as int));
                assert(v.subrange(l as int, r as int + 1) == v.subrange(
                    if l as int > 0 { l as int } else { 0 },
                    if r as int + 1 < v.len() { r as int + 1 } else { v.len() as int }));
            }
        }
        res
    }

    /// The aggregate over `[ql, qr]` within the subtree at node `i`.
    fn query_rec(
        &mut self,
        i: usize,
        tl: usize,
        tr: usize,
        ql: usize,
        qr: usize,
        Ghost(pw): Ghost<int>,
    ) -> (res: T)
        requires
            old(self).shape(),
            node_bounds(old(self).n as int, i as int, tl as int, tr as int, pw),
            ql <= qr < old(self).n,
        ensures
            final(self).shape(),
            final(self).same_config(old(self)),
            final(self).point_safe == old(self).point_safe,
            forall|j: int| 0 <= j < 4 * old(self).n
                && !in_subtree(i as int, tl as int, tr as int, j)
                ==> final(self).seg_tree@[j] == old(self).seg_tree@[j]
                    && final(self).seg_lazy@[j] == old(self).seg_lazy@[j],
            old(self).replace_laws() ==> view_of(final(self).seg_tree@, final(self).seg_lazy@,
                i as int, tl as int, tr as int) == view_of(old(self).seg_tree@,
                old(self).seg_lazy@, i as int, tl as int, tr as int),
            point_only(old(self).seg_lazy@, i as int, tl as int, tr as int)
                ==> point_only(final(self).seg_lazy@, i as int, tl as int, tr as int),
            old(self).replace_laws() && old(self).monoid_laws()
                && (combine_idempotent(old(self).combine_fn)
                    || point_only(old(self).seg_lazy@, i as int, tl as int, tr as int))
                && aggs_ok(old(self).combine_fn, old(self).sentinel, old(self).seg_tree@,
                    old(self).seg_lazy@, i as int, tl as int, tr as int)
                ==> aggs_ok(old(self).combine_fn, old(self).sentinel, final(self).seg_tree@,
                        final(self).seg_lazy@, i as int, tl as int, tr as int)
                    && res == range_fold(old(self).combine_fn, old(self).sentinel,
                        view_of(old(self).seg_tree@, old(self).seg_lazy@, i as int, tl as int,
                        tr as int), tl as int, ql as int, qr as int),
            old(self).replace_laws() && old(self).monoid_laws() && ql == qr
                && tl <= ql <= tr ==> res == view_of(old(self).seg_tree@, old(self).seg_lazy@,
                    i as int, tl as int, tr as int)[ql - tl],
            tr < ql || qr < tl ==> res == old(self).sentinel,
        decreases tr - tl,
    {
        let ghost c = self.combine_fn;
        let ghost e = self.sentinel;
        let ghost nn = self.n as int;
        let ghost ii = i as int;
        let ghost tli = tl as int;
        let ghost tri = tr as int;
        let ghost s0 = *self;
        self.eval_lazy(i, tl, tr, Ghost(pw));
        let ghost s1 = *self;
        proof {
            lemma_view_len(s0.seg_tree@, s0.seg_lazy@, ii, tli, tri);
            lemma_view_len(s1.seg_tree@, s1.seg_lazy@, ii, tli, tri);
        }

        if ql <= tl && tr <= qr {
            // Covered: the refreshed aggregate answers for the whole range.
            let res = self.seg_tree[i];
            proof {
                let v0 = view_of(s0.seg_tree@, s0.seg_lazy@, ii, tli, tri);
                if s0.replace_laws() && s0.monoid_laws()
                    && (combine_idempotent(c) || point_only(s0.seg_lazy@, ii, tli, tri))
                    && aggs_ok(c, e, s0.seg_tree@, s0.seg_lazy@, ii, tli, tri) {
                    assert(aggs_ok(c, e, s1.seg_tree@, s1.seg_lazy@, ii, tli, tri));
                    assert(res == cfold(c, e, v0));
                    assert(v0.subrange(0, v0.len() as int) =~= v0);
                }
                if s0.replace_laws() && s0.monoid_laws() && ql == qr && tl <= ql <= tr {
                    assert(tli == tri);
                    assert(v0 =~= seq![v0[0]]);
                    assert(v0.drop_last() =~= Seq::<T>::empty());
                    assert(res == c.spec_combine(e, v0[0]));
                }
                if tl == tr {
                } else {
                    assert(in_subtree(2 * ii + 1, tli, (tli + tri) / 2, 2 * ii + 1));
                    assert(in_subtree(2 * ii + 2, (tli + tri) / 2 + 1, tri, 2 * ii + 2));
                    assert(in_subtree(ii, tli, tri, 2 * ii + 1));
                    assert(in_subtree(ii, tli, tri, 2 * ii + 2));
                }
            }
            return res;
        }

        if tr < ql || qr < tl {
            // Disjoint: the identity element.
            let res = self.sentinel;
            proof {
                if tl == tr {
                } else {
                    assert(in_subtree(2 * ii + 1, tli, (tli + tri) / 2, 2 * ii + 1));
                    assert(in_subtree(2 * ii + 2, (tli + tri) / 2 + 1, tri, 2 * ii + 2));
                    assert(in_subtree(ii, tli, tri, 2 * ii + 1));
                    assert(in_subtree(ii, tli, tri, 2 * ii + 2));
                }
                if s0.replace_laws() && s0.monoid_laws()
                    && (combine_idempotent(c) || point_only(s0.seg_lazy@, ii, tli, tri))
                    && aggs_ok(c, e, s0.seg_tree@, s0.seg_lazy@, ii, tli, tri) {
                    assert(aggs_ok(c, e, s1.seg_tree@, s1.seg_lazy@, ii, tli, tri));
                }
            }
            return res;
        }

        proof {
            assert(tl < tr);
            lemma_child_bounds(nn, ii, tli, tri, pw);
        }
        let mid = (tl + tr) / 2;
        let ghost midi = mid as int;
        let a = self.query_rec(2 * i + 1, tl, mid, ql, qr, Ghost(2 * pw));
        let ghost s2 = *self;
        let b = self.query_rec(2 * i + 2, mid + 1, tr, ql, qr, Ghost(2 * pw));
        let ghost s3 = *self;
        let res = self.combine_fn.combine(a, b);
        proof {
            let li = 2 * ii + 1;
            let ri = 2 * ii + 2;
            if in_subtree(li, tli, midi, ii) {
                lemma_subtree_at_least(li, tli, midi, ii);
            }
            if in_subtree(ri, midi + 1, tri, ii) {
                lemma_subtree_at_least(ri, midi + 1, tri, ii);
            }
            assert forall|j: int| #[trigger] in_subtree(li, tli, midi, j)
                implies s3.seg_tree@[j] == s2.seg_tree@[j]
                    && s3.seg_lazy@[j] == s2.seg_lazy@[j] by {
                lemma_subtree_at_least(li, tli, midi, j);
                lemma_subtree_upper(nn, li, tli, midi, 2 * pw, j);
                lemma_siblings_disjoint(ii, tli, tri, j);
            }
            assert forall|j: int| #[trigger] in_subtree(ri, midi + 1, tri, j)
                implies s2.seg_tree@[j] == s1.seg_tree@[j]
                    && s2.seg_lazy@[j] == s1.seg_lazy@[j] by {
                lemma_subtree_at_least(ri, midi + 1, tri, j);
                lemma_subtree_upper(nn, ri, midi + 1, tri, 2 * pw, j);
                if in_subtree(li, tli, midi, j) {
                    lemma_siblings_disjoint(ii, tli, tri, j);
                }
            }
            lemma_subtree_congruence(c, e, s2.seg_tree@, s2.seg_lazy@, s3.seg_tree@,
                s3.seg_lazy@, li, tli, midi);
            lemma_subtree_congruence(c, e, s1.seg_tree@, s1.seg_lazy@, s2.seg_tree@,
                s2.seg_lazy@, ri, midi + 1, tri);
            assert forall|j: int| 0 <= j < 4 * nn && !in_subtree(ii, tli, tri, j)
                implies s3.seg_tree@[j] == s0.seg_tree@[j]
                    && s3.seg_lazy@[j] == s0.seg_lazy@[j] by {
                assert(in_subtree(ii, tli, tri, ii));
                if in_subtree(li, tli, midi, j) {
                    lemma_subtree_step(ii, tli, tri, j);
                }
                if in_subtree(ri, midi + 1, tri, j) {
                    lemma_subtree_step(ii, tli, tri, j);
                }
                assert(in_subtree(li, tli, midi, li));
                assert(in_subtree(ri, midi + 1, tri, ri));
                assert(in_subtree(ii, tli, tri, 2 * ii + 1));
                assert(in_subtree(ii, tli, tri, 2 * ii + 2));
            }
            lemma_view_len(s1.seg_tree@, s1.seg_lazy@, li, tli, midi);
            lemma_view_len(s1.seg_tree@, s1.seg_lazy@, ri, midi + 1, tri);
            if s0.replace_laws() {
                let vl1 = view_of(s1.seg_tree@, s1.seg_lazy@, li, tli, midi);
                let vr1 = view_of(s1.seg_tree@, s1.seg_lazy@, ri, midi + 1, tri);
                let v0 = view_of(s0.seg_tree@, s0.seg_lazy@, ii, tli, tri);
                assert(view_of(s2.seg_tree@, s2.seg_lazy@, li, tli, midi) == vl1);
                assert(view_of(s3.seg_tree@, s3.seg_lazy@, li, tli, midi) == vl1);
                assert(view_of(s3.seg_tree@, s3.seg_lazy@, ri, midi + 1, tri) == vr1);
                assert(v0 == vl1 + vr1);
                assert(view_of(s3.seg_tree@, s3.seg_lazy@, ii, tli, tri) == v0);
                if s0.monoid_laws() && (combine_idempotent(c)
                    || point_only(s0.seg_lazy@, ii, tli, tri))
                    && aggs_ok(c, e, s0.seg_tree@, s0.seg_lazy@, ii, tli, tri) {
                    assert(aggs_ok(c, e, s1.seg_tree@, s1.seg_lazy@, ii, tli, tri));
                    if !combine_idempotent(c) {
                        assert(point_only(s1.seg_lazy@, ii, tli, tri));
                    }
                    assert(a == range_fold(c, e, vl1, tli, ql as int, qr as int));
                    assert(b == range_fold(c, e, vr1, midi + 1, ql as int, qr as int));
                    lemma_range_fold_concat(c, e, vl1, vr1, tli, ql as int, qr as int);
                    assert(aggs_ok(c, e, s3.seg_tree@, s3.seg_lazy@, ii, tli, tri));
                }
                if s0.monoid_laws() && ql == qr && tl <= ql <= tr {
                    if ql <= mid {
                        assert(a == vl1[ql - tli]);
                        assert(b == e);
                        assert(v0[ql - tli] == vl1[ql - tli]);
                    } else {
                        assert(a == e);
                        assert(b == vr1[ql - (midi + 1)]);
                        assert(v0[ql - tli] == vr1[ql - (midi + 1)]);
                    }
                }
            }
        }
        res
    }

    /// Clear the whole structure back to its freshly built state: every
    /// position holds `sentinel` again and nothing is pending.
    pub fn reset(&mut self)
        requires
            old(self).wf(),
        ensures
            final(self).wf(),
            final(self).same_config(old(self)),
            final(self).point_safe@,
            final(self).pending_at_leaves(),
            final(self).contents().len() == old(self).n as int,
            forall|j: int| 0 <= j < old(self).n
                ==> final(self).contents()[j] == old(self).sentinel,
    {
        let size = 4 * self.n;
        let sentinel = self.sentinel;
        let mut i: usize = 0;
        while i < size
            invariant
                i <= size,
                size == 4 * self.n,
                self.seg_tree@.len() == 4 * self.n,
                self.seg_lazy@.len() == 4 * self.n,
                self.n == old(self).n,
                self.combine_fn == old(self).combine_fn,
                self.lazy_apply_fn == old(self).lazy_apply_fn,
                self.lazy_func == old(self).lazy_func,
                self.sentinel == old(self).sentinel,
                self.lazy_sentinel == old(self).lazy_sentinel,
                sentinel == old(self).sentinel,
                1 <= self.n <= usize::MAX as int / 64,
                forall|j: int| 0 <= j < i ==> self.seg_tree@[j] == sentinel,
                forall|j: int| 0 <= j < i ==> self.seg_lazy@[j] is None,
            decreases size - i,
        {
            self.seg_tree.set(i, sentinel);
            self.seg_lazy.set(i, None);
            i = i + 1;
        }
        proof {
            self.point_safe = Ghost(true);
            lemma_root_bounds(self.n as int);
            lemma_fresh_tree(self.combine_fn, self.sentinel, self.sentinel, self.seg_tree@,
                self.seg_lazy@, 0, 0, self.n as int - 1, 1, self.n as int);
        }
    }

    /// A well-formed tree holds one logical value per position.
    pub proof fn lemma_contents_len(&self)
        requires
            self.wf(),
        ensures
            self.contents().len() == self.n as int,
    {
        lemma_view_len(self.seg_tree@, self.seg_lazy@, 0, 0, self.n - 1);
    }

    /// The identity element supplied at construction.
    pub fn get_sentinel(&self) -> (r: T)
        ensures
            r == self.sentinel,
    {
        self.sentinel
    }
}

/// A uniformly filled tree with nothing pending holds only leaf pendings
/// and reads as the fill value everywhere; its stored aggregates are exact
/// whenever folding copies of the fill value gives it back (an idempotent
/// combine, or the fill being the identity itself).
proof fn lemma_fresh_tree<T, C: CombineFn<T>>(
    c: C,
    e: T,
    fill: T,
    agg: Seq<T>,
    pending: Seq<Option<T>>,
    i: int,
    tl: int,
    tr: int,
    pw: int,
    n: int,
)
    requires
        agg.len() == 4 * n,
        pending.len() == 4 * n,
        node_bounds(n, i, tl, tr, pw),
        forall|j: int| 0 <= j < agg.len() ==> agg[j] == fill,
        forall|j: int| 0 <= j < pending.len() ==> pending[j] is None,
    ensures
        point_only(pending, i, tl, tr),
        combine_identity(c, e) && combine_associative(c)
            && (combine_idempotent(c) || fill == e)
            ==> aggs_ok(c, e, agg, pending, i, tl, tr),
        view_of(agg, pending, i, tl, tr).len() == tr - tl + 1,
        forall|j: int| 0 <= j < tr - tl + 1 ==> view_of(agg, pending, i, tl, tr)[j] == fill,
    decreases tr - tl,
{
    lemma_view_len(agg, pending, i, tl, tr);
    if tl < tr {
        let mid = (tl + tr) / 2;
        lemma_child_bounds(n, i, tl, tr, pw);
        lemma_fresh_tree(c, e, fill, agg, pending, 2 * i + 1, tl, mid, 2 * pw, n);
        lemma_fresh_tree(c, e, fill, agg, pending, 2 * i + 2, mid + 1, tr, 2 * pw, n);
        if combine_identity(c, e) && combine_associative(c)
            && (combine_idempotent(c) || fill == e) {
            lemma_cfold_constant(c, e, view_of(agg, pending, i, tl, tr), fill);
        }
    } else {
        if combine_identity(c, e) {
            let s1 = view_of(agg, pending, i, tl, tr);
            assert(s1.len() == 1 && s1.last() == agg[i]);
            assert(s1.drop_last() =~= Seq::<T>::empty());
            assert(cfold(c, e, s1.drop_last()) == e);
            assert(cfold(c, e, s1) == c.spec_combine(e, agg[i]));
        }
    }
}

} // verus!
