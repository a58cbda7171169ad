//! The array-backed segment tree: a complete binary tree of `2P-1` optional
//! aggregates over a sequence of `len` elements, where `P` is the smallest
//! power of two at least `len`.  Internal slots hold the combine of their two
//! children; leaf slots hold the elements in order, padded with identity.

use vstd::prelude::*;

use crate::algebra::{TreeType, combine_opt, combine_values, op_fits, opt_val};
use crate::fold::{
    lemma_seq_val_in_i64, seq_val,
    fits_ok, fold_range, is_pow2, lemma_fold_fits, lemma_fold_split, lemma_min_pow2,
    lemma_min_pow2_unique, min_pow2, seq_in_i64,
};

verus! {

/// A half-open interval `[start, end)` of sequence indices.  Its fields
/// are private so that its invariant, `start < end`, can only be
/// established by its constructor.
#[derive(Debug, Clone, Copy, PartialEq, Eq, Structural)]
pub struct Range {
    start: usize,
    end: usize,
}

impl Range {
    /// The first index the interval includes.
    pub closed spec fn spec_start(self) -> int {
        self.start as int
    }

    /// The first index past the interval.
    pub closed spec fn spec_end(self) -> int {
        self.end as int
    }

    pub fn new(start: usize, end: usize) -> (r: Self)
        requires
            start < end,
        ensures
            r.spec_start() == start as int,
            r.spec_end() == end as int,
    {
        Range { start, end }
    }
}

/// One tree slot: an optional aggregate value, absence being the identity.
#[derive(Debug, Clone, Copy)]
pub struct Node(pub Option<i64>);

impl View for Node {
    type V = Option<int>;

    open spec fn view(&self) -> Option<int> {
        opt_val(self.0)
    }
}

/// The slot values of a container.
pub open spec fn nodes_view(c: Seq<Node>) -> Seq<Option<int>> {
    Seq::new(c.len(), |i: int| opt_val(c[i].0))
}

/// A present value, or zero; under well-formedness the default is never read.
pub open spec fn opt_or0(o: Option<int>) -> int {
    match o {
        Some(v) => v,
        None => 0,
    }
}

/// The elements stored in the leaf region `[p2 - 1, p2 - 1 + len)` of a container.
pub open spec fn leaves_of(c: Seq<Option<int>>, len: int, p2: int) -> Seq<int> {
    Seq::new(len as nat, |i: int| opt_or0(c[p2 - 1 + i]))
}

/// The layout invariant of one slot: a leaf holds its element (or identity
/// padding past the end), an internal slot holds the combine of its children.
pub open spec fn slot_ok(t: TreeType, c: Seq<Option<int>>, s: Seq<int>, p2: int, i: int) -> bool {
    if i >= p2 - 1 {
        c[i] == if i - (p2 - 1) < s.len() {
            Some(s[i - (p2 - 1)])
        } else {
            None::<int>
        }
    } else {
        c[i] == combine_opt(t, c[2 * i + 1], c[2 * i + 2])
    }
}

/// The layout invariant of every slot from `k` up.
pub open spec fn slots_ok_from(
    t: TreeType,
    c: Seq<Option<int>>,
    s: Seq<int>,
    p2: int,
    k: int,
) -> bool {
    forall|j: int| k <= j < 2 * p2 - 1 ==> #[trigger] slot_ok(t, c, s, p2, j)
}

/// A container is a well-formed tree over its own leaves: the layout size
/// and shape of the data model, the per-slot invariant, and the magnitude
/// bound that keeps every combine within `i64`.
pub open spec fn slots_wf(t: TreeType, c: Seq<Option<int>>, len: int, p2: int) -> bool {
    &&& 0 <= len <= p2
    &&& p2 == min_pow2(len)
    &&& c.len() == 2 * p2 - 1
    &&& 2 * p2 - 1 <= usize::MAX
    &&& slots_ok_from(t, c, leaves_of(c, len, p2), p2, 0)
    &&& fits_ok(t, leaves_of(c, len, p2))
}

/// An array-backed segment tree over a sequence of `i64` values,
/// aggregated under one fixed policy.
#[derive(Debug, Clone)]
pub struct SegmentTree {
    container: Vec<Node>,
    len: usize,
    len_next_power_of_two: usize,
    tree_type: TreeType,
}

impl View for SegmentTree {
    type V = Seq<int>;

    /// The sequence of elements the tree currently stores.
    closed spec fn view(&self) -> Seq<int> {
        leaves_of(
            nodes_view(self.container@),
            self.len as int,
            self.len_next_power_of_two as int,
        )
    }
}

/// What a query must answer: the reference fold over a valid range,
/// absence when the range reaches past the stored sequence.
pub open spec fn query_spec(t: TreeType, s: Seq<int>, a: int, b: int) -> Option<int> {
    if b <= s.len() {
        fold_range(t, s, a, b)
    } else {
        None
    }
}

impl SegmentTree {
    /// The aggregation policy this tree was built for.
    pub closed spec fn ttype(self) -> TreeType {
        self.tree_type
    }

    /// The tree is well formed.
    pub closed spec fn wf(self) -> bool {
        slots_wf(
            self.tree_type,
            nodes_view(self.container@),
            self.len as int,
            self.len_next_power_of_two as int,
        )
    }

    /// The count of real elements.
    pub fn len(&self) -> (r: usize)
        ensures
            r == self@.len(),
    {
        self.len
    }

    pub fn is_empty(&self) -> (r: bool)
        ensures
            r == (self@.len() == 0),
    {
        self.len == 0
    }

    /// Reconstructs a tree directly from a previously exported container,
    /// without rebuilding; the caller owes the container's consistency.
    pub fn take_from(
        container: Vec<Node>,
        len: usize,
        len_next_power_of_two: usize,
        tree_type: TreeType,
    ) -> (r: Self)
        requires
            slots_wf(
                tree_type,
                nodes_view(container@),
                len as int,
                len_next_power_of_two as int,
            ),
        ensures
            r.wf(),
            r.ttype() == tree_type,
            r@ == leaves_of(nodes_view(container@), len as int, len_next_power_of_two as int),
            r@.len() == len,
    {
        SegmentTree { container, len, len_next_power_of_two, tree_type }
    }
}

/// The width of the sub-range covered by slot `i`: the root covers the whole
/// padded range of width `p2`, and each step down halves the width.
pub open spec fn slot_width(p2: int, i: int) -> int
    decreases i,
{
    if i <= 0 {
        p2
    } else {
        slot_width(p2, (i - 1) / 2) / 2
    }
}

/// The start of the sub-range covered by slot `i`.
pub open spec fn slot_lo(p2: int, i: int) -> int {
    (i + 1) * slot_width(p2, i) - p2
}

/// Every slot covers a power-of-two-aligned sub-range of the padded range:
/// internal slots have width at least two, leaf slots exactly one.
pub proof fn lemma_slot_geom(p2: int, i: int)
    requires
        is_pow2(p2),
        0 <= i < 2 * p2 - 1,
    ensures
        is_pow2(slot_width(p2, i)),
        slot_width(p2, i) >= 1,
        0 <= slot_lo(p2, i),
        slot_lo(p2, i) + slot_width(p2, i) <= p2,
        i < p2 - 1 ==> slot_width(p2, i) >= 2,
        i >= p2 - 1 ==> slot_width(p2, i) == 1,
    decreases i,
{
    let w = slot_width(p2, i);
    let lo = slot_lo(p2, i);
    if i == 0 {
        assert(w == p2);
        assert((0 + 1) * w == w) by (nonlinear_arith);
        assert(lo == 0);
    } else {
        let pa = (i - 1) / 2;
        let wp = slot_width(p2, pa);
        let lop = slot_lo(p2, pa);
        assert(pa < p2 - 1);
        lemma_slot_geom(p2, pa);
        assert(w == wp / 2);
        if i == 2 * pa + 1 {
            assert((i + 1) * w == (pa + 1) * wp) by (nonlinear_arith)
                requires
                    i == 2 * pa + 1,
                    wp == 2 * w,
            ;
            assert(lo == lop);
        } else {
            assert(i == 2 * pa + 2);
            assert((i + 1) * w == (pa + 1) * wp + w) by (nonlinear_arith)
                requires
                    i == 2 * pa + 2,
                    wp == 2 * w,
            ;
            assert(lo == lop + w);
        }
    }
    // width versus region: a slot of width one sits in the leaf region,
    // a wider slot sits strictly above it.
    if w >= 2 {
        assert((i + 2) * 2 <= (i + 2) * w) by (nonlinear_arith)
            requires
                i >= 0,
                w >= 2,
        ;
        assert((i + 2) * w == lo + w + p2) by (nonlinear_arith)
            requires
                lo == (i + 1) * w - p2,
        ;
        assert(i <= p2 - 2);
    } else {
        assert(w == 1);
        assert(lo == i + 1 - p2) by (nonlinear_arith)
            requires
                lo == (i + 1) * w - p2,
                w == 1,
        ;
        assert(i >= p2 - 1);
    }
}

/// If every slot strictly below `i` satisfies the layout invariant, the
/// combine of slot `i`'s two children is the reference fold of the sub-range
/// `[lo, lo + w)` that slot `i` covers, clipped to the stored sequence.
pub proof fn lemma_children_fold(
    t: TreeType,
    c: Seq<Option<int>>,
    s: Seq<int>,
    p2: int,
    i: int,
    lo: int,
    w: int,
)
    requires
        is_pow2(p2),
        is_pow2(w),
        w >= 2,
        s.len() <= p2,
        c.len() == 2 * p2 - 1,
        slots_ok_from(t, c, s, p2, 2 * i + 1),
        0 <= i,
        lo == (i + 1) * w - p2,
        0 <= lo,
        lo + w <= p2,
    ensures
        combine_opt(t, c[2 * i + 1], c[2 * i + 2]) == fold_range(
            t,
            s,
            lo,
            vstd::math::min(lo + w, s.len() as int),
        ),
    decreases w, 0int,
{
    let n = s.len() as int;
    let w2 = w / 2;
    let mid = lo + w2;
    let i1 = 2 * i + 1;
    let i2 = 2 * i + 2;
    assert(w % 2 == 0 && is_pow2(w2));
    assert((i + 2) * 2 <= (i + 2) * w) by (nonlinear_arith)
        requires
            i >= 0,
            w >= 2,
    ;
    assert((i + 2) * w == lo + w + p2) by (nonlinear_arith)
        requires
            lo == (i + 1) * w - p2,
    ;
    assert(i <= p2 - 2);
    assert((i1 + 1) * w2 == (i + 1) * w) by (nonlinear_arith)
        requires
            w == 2 * w2,
            i1 == 2 * i + 1,
    ;
    assert((i2 + 1) * w2 == (i + 1) * w + w2) by (nonlinear_arith)
        requires
            w == 2 * w2,
            i2 == 2 * i + 2,
    ;
    lemma_slot_fold(t, c, s, p2, i1, lo, w2);
    lemma_slot_fold(t, c, s, p2, i2, mid, w2);
    if mid <= n {
        lemma_fold_split(t, s, lo, mid, vstd::math::min(lo + w, n));
    }
}

/// If every slot of a subtree satisfies the layout invariant, the slot at its
/// root holds exactly the reference fold of the sub-range it covers, clipped
/// to the stored sequence.  Slot `i` at width `w` covers `[lo, lo + w)` with
/// `lo == (i + 1) * w - p2`.
pub proof fn lemma_slot_fold(
    t: TreeType,
    c: Seq<Option<int>>,
    s: Seq<int>,
    p2: int,
    i: int,
    lo: int,
    w: int,
)
    requires
        is_pow2(p2),
        is_pow2(w),
        s.len() <= p2,
        c.len() == 2 * p2 - 1,
        slots_ok_from(t, c, s, p2, i),
        0 <= i < 2 * p2 - 1,
        lo == (i + 1) * w - p2,
        0 <= lo,
        lo + w <= p2,
    ensures
        c[i] == fold_range(t, s, lo, vstd::math::min(lo + w, s.len() as int)),
    decreases w, 1int,
{
    let n = s.len() as int;
    assert(slot_ok(t, c, s, p2, i));
    if w == 1 {
        assert(lo == i + 1 - p2) by (nonlinear_arith)
            requires
                lo == (i + 1) * w - p2,
                w == 1,
        ;
        assert(i >= p2 - 1);
        assert(i - (p2 - 1) == lo);
        if lo < n {
            assert(fold_range(t, s, lo, lo + 1) == combine_opt(
                t,
                fold_range(t, s, lo, lo),
                Some(s[lo]),
            ));
        }
    } else {
        assert(w >= 2 && w % 2 == 0 && is_pow2(w / 2));
        assert((i + 2) * 2 <= (i + 2) * w) by (nonlinear_arith)
            requires
                i >= 0,
                w >= 2,
        ;
        assert((i + 2) * w == lo + w + p2) by (nonlinear_arith)
            requires
                lo == (i + 1) * w - p2,
        ;
        assert(i <= p2 - 2);
        lemma_children_fold(t, c, s, p2, i, lo, w);
    }
}

/// Combine two tree slots under the given policy.
fn combine_nodes(t: TreeType, a: &Node, b: &Node) -> (r: Node)
    requires
        op_fits(t, a@, b@),
    ensures
        r@ == combine_opt(t, a@, b@),
{
    Node(combine_values(t, a.0, b.0))
}

impl SegmentTree {
    /// Builds a tree over the given elements: real leaves in order, identity
    /// padding up to the next power of two, internal slots filled bottom-up
    /// by the policy's combine.
    pub fn build_from(values: &[i64], tree_type: TreeType) -> (r: Self)
        requires
            2 * min_pow2(values@.len() as int) - 1 <= usize::MAX,
            fits_ok(tree_type, seq_val(values@)),
        ensures
            r.wf(),
            r.ttype() == tree_type,
            r@ == seq_val(values@),
            r@.len() == values@.len(),
    {
        let ghost s = seq_val(values@);
        let len = values.len();
        proof {
            lemma_min_pow2(len as int);
        }
        let p2 = next_pow2(len);
        let mut container: Vec<Node> = Vec::new();
        let mut i: usize = 0;
        while i < p2 - 1
            invariant
                i <= p2 - 1,
                container@.len() == i as int,
                forall|j: int| 0 <= j < i as int ==> (#[trigger] container@[j]).0 is None,
            decreases p2 - 1 - i,
        {
            container.push(Node(None));
            i = i + 1;
        }
        let mut j: usize = 0;
        while j < len
            invariant
                j <= len,
                len == values@.len(),
                p2 >= 1,
                container@.len() == p2 - 1 + j as int,
                forall|k: int| 0 <= k < p2 - 1 ==> (#[trigger] container@[k]).0 is None,
                forall|k: int|
                    p2 - 1 <= k < p2 - 1 + j as int ==> (#[trigger] container@[k]).0 == Some(
                        values@[k - (p2 - 1)],
                    ),
            decreases len - j,
        {
            container.push(Node(Some(values[j])));
            j = j + 1;
        }
        let mut pad: usize = len;
        while pad < p2
            invariant
                len <= pad <= p2,
                len == values@.len(),
                p2 >= 1,
                container@.len() == p2 - 1 + pad as int,
                forall|k: int| 0 <= k < p2 - 1 ==> (#[trigger] container@[k]).0 is None,
                forall|k: int|
                    p2 - 1 <= k < p2 - 1 + len as int ==> (#[trigger] container@[k]).0 == Some(
                        values@[k - (p2 - 1)],
                    ),
                forall|k: int|
                    p2 - 1 + len as int <= k < p2 - 1 + pad as int ==> (#[trigger] container@[k]).0
                        is None,
            decreases p2 - pad,
        {
            container.push(Node(None));
            pad = pad + 1;
        }
        proof {
            assert(container@.len() == 2 * p2 - 1);
            assert forall|jj: int| p2 - 1 <= jj < 2 * p2 - 1 implies #[trigger] slot_ok(
                tree_type,
                nodes_view(container@),
                s,
                p2 as int,
                jj,
            ) by {
                if jj - (p2 - 1) < len as int {
                    assert(nodes_view(container@)[jj] == Some(s[jj - (p2 - 1)]));
                } else {
                    assert(nodes_view(container@)[jj] == None::<int>);
                }
            }
            lemma_seq_val_in_i64(values@);
        }
        let mut k: usize = p2 - 1;
        while k > 0
            invariant
                k <= p2 - 1,
                p2 as int == min_pow2(len as int),
                is_pow2(p2 as int),
                len <= p2,
                len == values@.len(),
                s == seq_val(values@),
                seq_in_i64(s),
                fits_ok(tree_type, s),
                container@.len() == 2 * p2 - 1,
                2 * (p2 as int) - 1 <= usize::MAX,
                slots_ok_from(tree_type, nodes_view(container@), s, p2 as int, k as int),
            decreases k,
        {
            k = k - 1;
            let ghost c_old = nodes_view(container@);
            proof {
                lemma_slot_geom(p2 as int, k as int);
                let lo = slot_lo(p2 as int, k as int);
                let w = slot_width(p2 as int, k as int);
                lemma_children_fold(tree_type, c_old, s, p2 as int, k as int, lo, w);
                lemma_fold_fits(tree_type, s, lo, vstd::math::min(lo + w, s.len() as int));
            }
            let left = container[2 * k + 1];
            let right = container[2 * k + 2];
            let combined = combine_nodes(tree_type, &left, &right);
            container[k] = combined;
            proof {
                let c_new = nodes_view(container@);
                assert(c_new =~= c_old.update(k as int, combined@));
                assert forall|jj: int| k as int <= jj < 2 * p2 - 1 implies #[trigger] slot_ok(
                    tree_type,
                    c_new,
                    s,
                    p2 as int,
                    jj,
                ) by {
                    if jj > k as int {
                        assert(slot_ok(tree_type, c_old, s, p2 as int, jj));
                    }
                }
            }
        }
        let r = SegmentTree { container, len, len_next_power_of_two: p2, tree_type };
        proof {
            let c = nodes_view(r.container@);
            assert forall|ii: int| 0 <= ii < len as int implies leaves_of(
                c,
                len as int,
                p2 as int,
            )[ii] == s[ii] by {
                assert(slot_ok(tree_type, c, s, p2 as int, p2 - 1 + ii));
            }
            assert(leaves_of(c, len as int, p2 as int) =~= s);
            assert(r@ == s);
        }
        r
    }
}

/// Whether slot `a` lies on the path from slot `i` up to the root.
pub open spec fn on_path(i: int, a: int) -> bool
    decreases i,
{
    if i <= 0 {
        i == a
    } else {
        i == a || on_path((i - 1) / 2, a)
    }
}

/// Every slot on the path from `i` to the root has an index at most `i`.
proof fn lemma_on_path_le(i: int, a: int)
    requires
        0 <= i,
        on_path(i, a),
    ensures
        0 <= a <= i,
    decreases i,
{
    if i > 0 && a != i {
        lemma_on_path_le((i - 1) / 2, a);
    }
}

/// The proper ancestors of a slot are its parent and the parent's ancestors.
proof fn lemma_on_path_step(i: int, a: int)
    requires
        0 < i,
    ensures
        (on_path(i, a) && a != i) <==> on_path((i - 1) / 2, a),
{
    if on_path((i - 1) / 2, a) {
        lemma_on_path_le((i - 1) / 2, a);
    }
}

/// The elements read from the leaf region of a container of machine
/// integers are machine integers.
proof fn lemma_view_in_i64(cc: Seq<Node>, len: int, p2: int)
    requires
        0 <= len,
        1 <= p2,
        p2 - 1 + len <= cc.len(),
    ensures
        seq_in_i64(leaves_of(nodes_view(cc), len, p2)),
{
    let s = leaves_of(nodes_view(cc), len, p2);
    assert forall|j: int| 0 <= j < s.len() implies i64::MIN <= #[trigger] s[j] <= i64::MAX by {
        assert(s[j] == opt_or0(opt_val(cc[p2 - 1 + j].0)));
    }
}

impl SegmentTree {
    /// Overwrites the element at index `at` with `value` and recomputes the
    /// aggregate on every slot from that leaf up to the root.
    pub fn update(&mut self, value: i64, at: usize)
        requires
            old(self).wf(),
            at < old(self)@.len(),
            fits_ok(old(self).ttype(), old(self)@.update(at as int, value as int)),
        ensures
            final(self).wf(),
            final(self).ttype() == old(self).ttype(),
            final(self)@ == old(self)@.update(at as int, value as int),
    {
        let ghost s_new = old(self)@.update(at as int, value as int);
        let ghost t = self.tree_type;
        let ghost p2i = self.len_next_power_of_two as int;
        proof {
            lemma_min_pow2(self.len as int);
            lemma_view_in_i64(self.container@, self.len as int, p2i);
            assert(seq_in_i64(s_new));
        }
        let p2 = self.len_next_power_of_two;
        let leaf = at + p2 - 1;
        self.container[leaf] = Node(Some(value));
        proof {
            assert(self@ =~= s_new);
            let c = nodes_view(self.container@);
            let c0 = nodes_view(old(self).container@);
            assert forall|j: int|
                0 <= j < 2 * p2i - 1 && !(on_path(leaf as int, j) && j != leaf as int) implies #[trigger] slot_ok(
                t,
                c,
                s_new,
                p2i,
                j,
            ) by {
                assert(slot_ok(t, c0, old(self)@, p2i, j));
                if j >= p2i - 1 {
                    assert(j != leaf as int ==> c[j] == c0[j]);
                } else {
                    if 2 * j + 1 == leaf as int || 2 * j + 2 == leaf as int {
                        assert(j == (leaf as int - 1) / 2);
                        assert(on_path(j, j));
                        assert(on_path(leaf as int, j));
                    }
                }
            }
        }
        let mut idx: usize = leaf;
        while idx > 0
            invariant
                self.tree_type == t,
                self.len == old(self).len,
                self.len_next_power_of_two == old(self).len_next_power_of_two,
                p2i == self.len_next_power_of_two as int,
                p2i == min_pow2(self.len as int),
                is_pow2(p2i),
                self.len <= self.len_next_power_of_two,
                self.container@.len() == 2 * p2i - 1,
                2 * p2i - 1 <= usize::MAX,
                s_new == old(self)@.update(at as int, value as int),
                s_new.len() == self.len as int,
                seq_in_i64(s_new),
                fits_ok(t, s_new),
                self@ == s_new,
                idx < 2 * p2i - 1,
                forall|j: int|
                    0 <= j < 2 * p2i - 1 && !(on_path(idx as int, j) && j != idx as int)
                        ==> #[trigger] slot_ok(t, nodes_view(self.container@), s_new, p2i, j),
            decreases idx,
        {
            let ghost oldidx = idx as int;
            idx = (idx - 1) / 2;
            let ghost p = idx as int;
            let ghost c_old = nodes_view(self.container@);
            proof {
                lemma_on_path_step(oldidx, p);
                assert(on_path(oldidx, p));
                // every slot strictly below the parent satisfies the invariant
                assert forall|j: int| 2 * p + 1 <= j < 2 * p2i - 1 implies #[trigger] slot_ok(
                    t,
                    c_old,
                    s_new,
                    p2i,
                    j,
                ) by {
                    if on_path(oldidx, j) && j != oldidx {
                        lemma_on_path_step(oldidx, j);
                        lemma_on_path_le(p, j);
                    }
                }
                lemma_slot_geom(p2i, p);
                let lo = slot_lo(p2i, p);
                let w = slot_width(p2i, p);
                lemma_children_fold(t, c_old, s_new, p2i, p, lo, w);
                lemma_fold_fits(t, s_new, lo, vstd::math::min(lo + w, s_new.len() as int));
            }
            let lft = self.container[2 * idx + 1];
            let rgt = self.container[2 * idx + 2];
            let combined = combine_nodes(self.tree_type, &lft, &rgt);
            self.container[idx] = combined;
            proof {
                let c_new = nodes_view(self.container@);
                assert(c_new =~= c_old.update(p, combined@));
                assert(self@ =~= s_new);
                assert forall|j: int|
                    0 <= j < 2 * p2i - 1 && !(on_path(p, j) && j != p) implies #[trigger] slot_ok(
                    t,
                    c_new,
                    s_new,
                    p2i,
                    j,
                ) by {
                    if j == p {
                    } else {
                        lemma_on_path_step(oldidx, j);
                        assert(slot_ok(t, c_old, s_new, p2i, j));
                        if j < p2i - 1 && (2 * j + 1 == p || 2 * j + 2 == p) {
                            assert(p > 0 ==> on_path(p, j) && j != p) by {
                                if p > 0 {
                                    lemma_on_path_step(p, j);
                                }
                            }
                        }
                    }
                }
            }
        }
        proof {
            let c = nodes_view(self.container@);
            assert forall|j: int| 0 <= j < 2 * p2i - 1 implies #[trigger] slot_ok(
                t,
                c,
                s_new,
                p2i,
                j,
            ) by {
                assert(!(on_path(0, j) && j != 0));
            }
            assert(self@ == leaves_of(c, self.len as int, p2i));
        }
    }
}

/// A query stack entry is a slot index together with the bounds of the
/// sub-range it covers.
pub open spec fn entry_valid(p2: int, e: (usize, usize, usize)) -> bool {
    let i = e.0 as int;
    let lo = e.1 as int;
    let hi = e.2 as int;
    &&& 0 <= i < 2 * p2 - 1
    &&& 0 <= lo < hi <= p2
    &&& is_pow2(hi - lo)
    &&& lo == (i + 1) * (hi - lo) - p2
}

/// The traversal's invariant over the work stack: every entry is a valid
/// slot, the stacked sub-ranges are adjacent from the top (leftmost) down,
/// the bottom entry reaches the query's end, and the top entry continues
/// exactly at the already-folded prefix `[qa, pos)`.
pub open spec fn stack_inv(
    p2: int,
    qa: int,
    qb: int,
    pos: int,
    st: Seq<(usize, usize, usize)>,
) -> bool {
    &&& forall|k: int| 0 <= k < st.len() ==> entry_valid(p2, #[trigger] st[k])
    &&& forall|k: int| 1 <= k < st.len() ==> (#[trigger] st[k]).2 as int == st[k - 1].1 as int
    &&& (st.len() > 0 ==> st[0].2 as int >= qb)
    &&& (st.len() > 0 ==> {
        let tp = st[st.len() - 1];
        ||| vstd::math::max(tp.1 as int, qa) == pos
        ||| (pos == qb && tp.1 as int >= qb)
    })
    &&& (st.len() == 0 ==> pos == qb)
}

/// The traversal's termination measure: the number of slots in the subtrees
/// still stacked.
pub open spec fn st_measure(st: Seq<(usize, usize, usize)>) -> int
    decreases st.len(),
{
    if st.len() == 0 {
        0
    } else {
        st_measure(st.drop_last()) + 2 * (st.last().2 - st.last().1) - 1
    }
}

proof fn lemma_st_measure_nonneg(st: Seq<(usize, usize, usize)>)
    requires
        forall|k: int| 0 <= k < st.len() ==> (#[trigger] st[k]).1 < st[k].2,
    ensures
        st_measure(st) >= 0,
    decreases st.len(),
{
    if st.len() > 0 {
        lemma_st_measure_nonneg(st.drop_last());
    }
}

/// Popping the top entry lowers the measure by the popped subtree's size
/// and keeps it non-negative.
proof fn lemma_measure_pop(st0: Seq<(usize, usize, usize)>)
    requires
        st0.len() > 0,
        forall|k: int| 0 <= k < st0.len() ==> (#[trigger] st0[k]).1 < st0[k].2,
    ensures
        st_measure(st0.drop_last()) == st_measure(st0) - (2 * (st0.last().2 - st0.last().1)
            - 1),
        st_measure(st0.drop_last()) >= 0,
        st_measure(st0.drop_last()) < st_measure(st0),
{
    lemma_st_measure_nonneg(st0.drop_last());
}

proof fn lemma_measure_push(st: Seq<(usize, usize, usize)>, e: (usize, usize, usize))
    ensures
        st_measure(st.push(e)) == st_measure(st) + 2 * (e.2 - e.1) - 1,
{
    assert(st.push(e).drop_last() =~= st);
    assert(st.push(e).last() == e);
}

/// How popping the top entry carries the stack invariant on: a disjoint
/// sub-range leaves the folded prefix alone; a contained sub-range starts
/// exactly at `pos` and extends the prefix to its end.
proof fn lemma_pop_transition(
    p2: int,
    qa: int,
    qb: int,
    pos: int,
    st0: Seq<(usize, usize, usize)>,
)
    requires
        st0.len() > 0,
        stack_inv(p2, qa, qb, pos, st0),
        qa < qb,
        qa <= pos <= qb,
    ensures
        ({
            let lo = st0.last().1 as int;
            let hi = st0.last().2 as int;
            let st = st0.drop_last();
            &&& ((hi <= qa || lo >= qb) ==> stack_inv(p2, qa, qb, pos, st))
            &&& ((qa <= lo && hi <= qb) ==> pos == lo && stack_inv(p2, qa, qb, hi, st))
        }),
{
    let lo = st0.last().1 as int;
    let hi = st0.last().2 as int;
    let st = st0.drop_last();
    let m = st0.len() - 1;
    assert(entry_valid(p2, st0[m as int]));
    if st.len() > 0 {
        assert(st[st.len() - 1].1 as int == hi);
    }
    if hi <= qa {
        assert(vstd::math::max(lo, qa) == pos);
        assert(pos == qa);
        if st.len() == 0 {
            assert(st0[0].2 as int >= qb);
            assert(false);
        }
    } else if lo >= qb {
        assert(pos == qb);
    } else if qa <= lo && hi <= qb {
        assert(vstd::math::max(lo, qa) == pos);
        assert(pos == lo);
        if st.len() == 0 {
            assert(st0[0].2 as int >= qb);
            assert(hi == qb);
        }
    }
}

/// A sub-range that neither misses the query nor lies inside it has width
/// at least two, so its slot is internal and can be split.
proof fn lemma_split_geom(p2: int, qa: int, qb: int, e: (usize, usize, usize))
    requires
        entry_valid(p2, e),
        !(e.2 as int <= qa || e.1 as int >= qb),
        !(qa <= e.1 as int && e.2 as int <= qb),
    ensures
        e.2 as int - e.1 as int >= 2,
        e.0 as int <= p2 - 2,
{
    let i = e.0 as int;
    let lo = e.1 as int;
    let hi = e.2 as int;
    let w = hi - lo;
    assert(w >= 1);
    assert(w != 1);
    assert(w >= 2);
    assert((i + 2) * 2 <= (i + 2) * w) by (nonlinear_arith)
        requires
            i >= 0,
            w >= 2,
    ;
    assert((i + 2) * w == lo + w + p2) by (nonlinear_arith)
        requires
            lo == (i + 1) * w - p2,
    ;
    assert(i <= p2 - 2);
}

/// How splitting the top entry at its midpoint carries the stack invariant
/// on: the two child entries are valid slots, adjacent, and the left one
/// still continues at `pos`.
proof fn lemma_split_transition(
    p2: int,
    qa: int,
    qb: int,
    pos: int,
    st0: Seq<(usize, usize, usize)>,
    left_child: (usize, usize, usize),
    right_child: (usize, usize, usize),
)
    requires
        st0.len() > 0,
        stack_inv(p2, qa, qb, pos, st0),
        qa < qb,
        qa <= pos <= qb,
        ({
            let i = st0.last().0 as int;
            let lo = st0.last().1 as int;
            let hi = st0.last().2 as int;
            let w = hi - lo;
            &&& !(hi <= qa || lo >= qb)
            &&& !(qa <= lo && hi <= qb)
            &&& left_child.0 as int == 2 * i + 1
            &&& left_child.1 as int == lo
            &&& left_child.2 as int == lo + w / 2
            &&& right_child.0 as int == 2 * i + 2
            &&& right_child.1 as int == lo + w / 2
            &&& right_child.2 as int == hi
        }),
    ensures
        st0.last().2 as int - st0.last().1 as int >= 2,
        st0.last().0 as int <= p2 - 2,
        stack_inv(p2, qa, qb, pos, st0.drop_last().push(right_child).push(left_child)),
{
    let i = st0.last().0 as int;
    let lo = st0.last().1 as int;
    let hi = st0.last().2 as int;
    let w = hi - lo;
    let st = st0.drop_last();
    assert(entry_valid(p2, st0[st0.len() - 1]));
    assert(w >= 2);
    assert(w % 2 == 0 && is_pow2(w / 2));
    let w2 = w / 2;
    assert((i + 2) * 2 <= (i + 2) * w) by (nonlinear_arith)
        requires
            i >= 0,
            w >= 2,
    ;
    assert((i + 2) * w == lo + w + p2) by (nonlinear_arith)
        requires
            lo == (i + 1) * w - p2,
    ;
    assert(i <= p2 - 2);
    assert((2 * i + 2) * w2 == (i + 1) * w) by (nonlinear_arith)
        requires
            w == 2 * w2,
    ;
    assert((2 * i + 3) * w2 == (i + 1) * w + w2) by (nonlinear_arith)
        requires
            w == 2 * w2,
    ;
    assert(entry_valid(p2, left_child));
    assert(entry_valid(p2, right_child));
    let st2 = st.push(right_child).push(left_child);
    assert forall|k: int| 0 <= k < st2.len() implies entry_valid(p2, #[trigger] st2[k]) by {
        if k < st.len() {
            assert(st2[k] == st0[k]);
        }
    }
    assert forall|k: int| 1 <= k < st2.len() implies (#[trigger] st2[k]).2 as int == st2[k
        - 1].1 as int by {
        if k < st.len() {
            assert(st2[k] == st0[k] && st2[k - 1] == st0[k - 1]);
        } else if k == st.len() && st.len() > 0 {
            assert(st2[k] == right_child && st2[k - 1] == st0[k - 1]);
            assert(st0[st0.len() - 1].2 as int == st0[st0.len() - 2].1 as int);
        }
    }
    if st.len() == 0 {
        assert(st2[0] == right_child);
        assert(st0[0].2 as int >= qb);
    } else {
        assert(st2[0] == st0[0]);
    }
    assert(st2[st2.len() - 1] == left_child);
    assert(lo < qb);
    assert(!(pos == qb && lo >= qb));
    assert(vstd::math::max(lo, qa) == pos);
}

impl SegmentTree {
    /// Answers the aggregate of the elements of `range`, by an iterative
    /// depth-first traversal of the implicit tree with an explicit,
    /// bounded work stack.  A range reaching past the stored sequence is
    /// answered with absence rather than a failure.
    #[verifier::rlimit(100)]
    pub fn query(&self, range: Range) -> (r: Option<i64>)
        requires
            self.wf(),
            range.spec_start() < range.spec_end(),
        ensures
            opt_val(r) == query_spec(self.ttype(), self@, range.spec_start(), range.spec_end()),
            range.spec_end() <= self@.len() ==> r is Some,
    {
        if range.end > self.len {
            return None;
        }
        let ghost t = self.tree_type;
        let ghost s = self@;
        let ghost p2i = self.len_next_power_of_two as int;
        let ghost qa = range.start as int;
        let ghost qb = range.end as int;
        let ghost n = s.len() as int;
        proof {
            lemma_min_pow2(self.len as int);
            lemma_view_in_i64(self.container@, self.len as int, p2i);
            assert((0 + 1) * (p2i - 0) - p2i == 0) by (nonlinear_arith);
        }
        let p2 = self.len_next_power_of_two;
        let mut stack: Vec<(usize, usize, usize)> = Vec::new();
        stack.push((0, 0, p2));
        let mut acc: Node = Node(None);
        let ghost mut pos: int = qa;
        while stack.len() > 0
            invariant
                t == self.tree_type,
                s == self@,
                n == s.len() as int,
                p2i == self.len_next_power_of_two as int,
                is_pow2(p2i),
                self.container@.len() == 2 * p2i - 1,
                2 * p2i - 1 <= usize::MAX,
                n <= p2i,
                seq_in_i64(s),
                fits_ok(t, s),
                slots_ok_from(t, nodes_view(self.container@), s, p2i, 0),
                qa == range.start as int,
                qb == range.end as int,
                0 <= qa < qb <= n,
                qa <= pos <= qb,
                acc@ == fold_range(t, s, qa, pos),
                stack_inv(p2i, qa, qb, pos, stack@),
            decreases st_measure(stack@),
        {
            let ghost st0 = stack@;
            proof {
                lemma_pop_transition(p2i, qa, qb, pos, st0);
                lemma_measure_pop(st0);
            }
            let entry = stack.pop().unwrap();
            let i = entry.0;
            let lo = entry.1;
            let hi = entry.2;
            let ghost w = hi as int - lo as int;
            proof {
                assert(stack@ =~= st0.drop_last());
                assert(entry_valid(p2i, entry));
            }
            if lo >= range.end || hi <= range.start {
                // the covered sub-range is disjoint from the query: discard it
            } else if lo >= range.start && hi <= range.end {
                // the covered sub-range lies inside the query: fold the slot in
                proof {
                    assert(pos == lo as int);
                    lemma_slot_fold(
                        t,
                        nodes_view(self.container@),
                        s,
                        p2i,
                        i as int,
                        lo as int,
                        w,
                    );
                    assert(vstd::math::min(lo as int + w, n) == hi as int);
                    lemma_fold_split(t, s, qa, lo as int, hi as int);
                    lemma_fold_fits(t, s, qa, hi as int);
                    lemma_fold_fits(t, s, qa, lo as int);
                    lemma_fold_fits(t, s, lo as int, hi as int);
                }
                let node = self.container[i];
                acc = combine_nodes(self.tree_type, &acc, &node);
                proof {
                    pos = hi as int;
                }
            } else {
                // partial overlap: split into the two child sub-ranges,
                // right first, so the left one is processed first
                proof {
                    assert(entry == st0.last());
                    lemma_split_geom(p2i, qa, qb, entry);
                }
                let mid = lo + (hi - lo) / 2;
                let right_child: (usize, usize, usize) = (2 * i + 2, mid, hi);
                let left_child: (usize, usize, usize) = (2 * i + 1, lo, mid);
                proof {
                    lemma_split_transition(p2i, qa, qb, pos, st0, left_child, right_child);
                }
                stack.push(right_child);
                let ghost st1 = stack@;
                stack.push(left_child);
                proof {
                    assert(st1 =~= st0.drop_last().push(right_child));
                    assert(stack@ =~= st1.push(left_child));
                    lemma_measure_push(st0.drop_last(), right_child);
                    lemma_measure_push(st1, left_child);
                    assert(st_measure(stack@) == st_measure(st0) - 1);
                }
            }
        }
        proof {
            assert(pos == qb);
        }
        acc.0
    }
}


/// The values of a sequence of optional machine integers.
pub open spec fn opt_seq_val(c: Seq<Option<i64>>) -> Seq<Option<int>> {
    Seq::new(c.len(), |i: int| opt_val(c[i]))
}

impl SegmentTree {
    /// The slot values of the tree's container, root first.
    pub closed spec fn slots(self) -> Seq<Option<int>> {
        nodes_view(self.container@)
    }

    /// A well-formed tree's slots form a well-formed container over its
    /// own stored sequence, in the minimal power-of-two layout.
    pub proof fn lemma_wf_slots(self)
        requires
            self.wf(),
        ensures
            slots_wf(self.ttype(), self.slots(), self@.len() as int, min_pow2(self@.len() as int)),
            self@ == leaves_of(self.slots(), self@.len() as int, min_pow2(self@.len() as int)),
    {
    }

    /// The exported container: one optional integer per tree slot, in the
    /// exact slot order of the tree array; the wire format a tree can later
    /// be reconstructed from with `take_from`.
    pub fn export_container(&self) -> (r: Vec<Option<i64>>)
        ensures
            opt_seq_val(r@) == self.slots(),
            r@.len() == self.slots().len(),
    {
        let mut out: Vec<Option<i64>> = Vec::new();
        let mut i: usize = 0;
        while i < self.container.len()
            invariant
                i <= self.container@.len(),
                out@.len() == i as int,
                forall|k: int| 0 <= k < i as int ==> #[trigger] out@[k] == self.container@[k].0,
            decreases self.container@.len() - i,
        {
            out.push(self.container[i].0);
            i = i + 1;
        }
        proof {
            assert(opt_seq_val(out@) =~= self.slots());
        }
        out
    }
}

/// Round-trip law: a tree reconstructed from a previously exported
/// container (`take_from` handed the very slots, length and tag a
/// well-formed tree holds) stores the same sequence, and therefore
/// answers every query identically to the tree it was exported from.
pub proof fn lemma_round_trip(orig: SegmentTree, rebuilt: SegmentTree, a: int, b: int)
    requires
        orig.wf(),
        rebuilt.wf(),
        rebuilt.ttype() == orig.ttype(),
        rebuilt.slots() == orig.slots(),
        rebuilt@.len() == orig@.len(),
    ensures
        rebuilt@ == orig@,
        query_spec(rebuilt.ttype(), rebuilt@, a, b) == query_spec(orig.ttype(), orig@, a, b),
{
    orig.lemma_wf_slots();
    rebuilt.lemma_wf_slots();
}

/// The smallest power of two at least `len`.
pub fn next_pow2(len: usize) -> (r: usize)
    requires
        len <= usize::MAX / 2 + 1,
    ensures
        r as int == min_pow2(len as int),
        r >= len,
        r >= 1,
        is_pow2(r as int),
{
    let mut p: usize = 1;
    while p < len
        invariant
            1 <= p,
            is_pow2(p as int),
            p == 1 || p / 2 < len,
            len <= usize::MAX / 2 + 1,
        decreases 2 * len - p,
    {
        p = 2 * p;
    }
    proof {
        lemma_min_pow2_unique(len as int, p as int);
        lemma_min_pow2(len as int);
    }
    p
}

} // verus!
