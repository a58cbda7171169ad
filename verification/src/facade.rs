//! The host-facing facade: a tagged tree handle that stores the exported
//! container format, rebuilds a tree from it on demand, and marshals whole
//! batches of queries and updates.  Every entry point owes the aggregation
//! tag it is named after.

use vstd::prelude::*;

use crate::algebra::{TreeType, opt_val};
use crate::fold::{
    apply_updates, fits_ok, lemma_apply_updates_len, lemma_min_pow2, min_pow2, seq_val,
};
use crate::tree::{Node, Range, SegmentTree, leaves_of, next_pow2, opt_seq_val, query_spec, slots_wf};

verus! {

/// A tagged tree over machine integers, held in its exported container
/// form: one optional integer per tree slot, with the element count and
/// the aggregation tag the tree was built for.
pub struct PySegmentTree {
    container: Vec<Option<i64>>,
    len: usize,
    tree_type: TreeType,
}

impl View for PySegmentTree {
    type V = Seq<int>;

    /// The sequence of elements the handle currently stores.
    closed spec fn view(&self) -> Seq<int> {
        leaves_of(opt_seq_val(self.container@), self.len as int, min_pow2(self.len as int))
    }
}

impl PySegmentTree {
    /// The aggregation tag this handle was built for.
    pub closed spec fn ttype(self) -> TreeType {
        self.tree_type
    }

    /// The slot values of the stored container.
    pub closed spec fn slots(self) -> Seq<Option<int>> {
        opt_seq_val(self.container@)
    }

    /// The handle holds a well-formed container for its length and tag.
    pub closed spec fn wf(self) -> bool {
        slots_wf(
            self.tree_type,
            opt_seq_val(self.container@),
            self.len as int,
            min_pow2(self.len as int),
        )
    }

    /// A well-formed handle's slots form a well-formed container over its
    /// own stored sequence, in the minimal power-of-two layout: `2P - 1`
    /// slots, the real leaves holding the elements in order, identity
    /// padding behind them, and every internal slot the combine of its two
    /// children.  Together with `container`'s contract this pins the whole
    /// exported wire format, and lets the export be handed back to
    /// `SegmentTree::take_from`, whose precondition it establishes.
    pub proof fn lemma_wf_slots(self)
        requires
            self.wf(),
        ensures
            slots_wf(self.ttype(), self.slots(), self@.len() as int, min_pow2(self@.len() as int)),
            self@ == leaves_of(self.slots(), self@.len() as int, min_pow2(self@.len() as int)),
    {
    }

    pub fn len(&self) -> (r: usize)
        ensures
            r as int == self@.len(),
    {
        self.len
    }

    pub fn is_empty(&self) -> (r: bool)
        ensures
            r == (self@.len() == 0),
    {
        self.len == 0
    }

    /// The aggregation tag this handle was built for.
    pub fn tree_type(&self) -> (r: TreeType)
        ensures
            r == self.ttype(),
    {
        self.tree_type
    }

    /// The exported container: the wire format of the stored tree.
    pub fn container(&self) -> (r: Vec<Option<i64>>)
        ensures
            opt_seq_val(r@) == self.slots(),
            r@.len() == self.slots().len(),
    {
        let mut out: Vec<Option<i64>> = Vec::new();
        let mut i: usize = 0;
        while i < self.container.len()
            invariant
                i <= self.container@.len(),
                out@.len() == i as int,
                forall|k: int| 0 <= k < i as int ==> #[trigger] out@[k] == self.container@[k],
            decreases self.container@.len() - i,
        {
            out.push(self.container[i]);
            i = i + 1;
        }
        proof {
            assert(opt_seq_val(out@) =~= self.slots());
        }
        out
    }

    /// Rebuilds a tree handle from the stored container without rebuilding
    /// the aggregates.
    fn to_tree(&self) -> (r: SegmentTree)
        requires
            self.wf(),
        ensures
            r.wf(),
            r.ttype() == self.ttype(),
            r@ == self@,
    {
        proof {
            lemma_min_pow2(self.len as int);
        }
        let mut nodes: Vec<Node> = Vec::new();
        let mut i: usize = 0;
        while i < self.container.len()
            invariant
                i <= self.container@.len(),
                nodes@.len() == i as int,
                forall|k: int| 0 <= k < i as int ==> (#[trigger] nodes@[k]).0 == self.container@[k],
            decreases self.container@.len() - i,
        {
            nodes.push(Node(self.container[i]));
            i = i + 1;
        }
        let p2 = next_pow2(self.len);
        proof {
            assert(crate::tree::nodes_view(nodes@) =~= opt_seq_val(self.container@));
        }
        SegmentTree::take_from(nodes, self.len, p2, self.tree_type)
    }

    /// Answers one query per `(start, end)` pair, in input order.
    fn batch_query(&self, ranges: &Vec<(usize, usize)>) -> (r: Vec<i64>)
        requires
            self.wf(),
            forall|k: int|
                0 <= k < ranges@.len() ==> (#[trigger] ranges@[k]).0 < ranges@[k].1
                    && ranges@[k].1 as int <= self@.len(),
        ensures
            r@.len() == ranges@.len(),
            forall|k: int|
                0 <= k < r@.len() ==> Some(#[trigger] r@[k] as int) == query_spec(
                    self.ttype(),
                    self@,
                    ranges@[k].0 as int,
                    ranges@[k].1 as int,
                ),
    {
        let tree = self.to_tree();
        let mut out: Vec<i64> = Vec::new();
        let mut idx: usize = 0;
        while idx < ranges.len()
            invariant
                tree.wf(),
                tree.ttype() == self.ttype(),
                tree@ == self@,
                idx <= ranges@.len(),
                forall|k: int|
                    0 <= k < ranges@.len() ==> (#[trigger] ranges@[k]).0 < ranges@[k].1
                        && ranges@[k].1 as int <= self@.len(),
                out@.len() == idx as int,
                forall|k: int|
                    0 <= k < idx as int ==> Some(#[trigger] out@[k] as int) == query_spec(
                        self.ttype(),
                        self@,
                        ranges@[k].0 as int,
                        ranges@[k].1 as int,
                    ),
            decreases ranges@.len() - idx,
        {
            let pair = ranges[idx];
            let range = Range::new(pair.0, pair.1);
            let answer = tree.query(range);
            out.push(answer.unwrap());
            idx = idx + 1;
        }
        out
    }

    /// Applies one point update per `(value, index)` pair, in list order,
    /// rebuilding the stored container from the resulting tree.
    fn batch_update(&mut self, updates: &Vec<(i64, usize)>)
        requires
            old(self).wf(),
            forall|k: int|
                0 <= k < updates@.len() ==> ((#[trigger] updates@[k]).1 as int) < old(self)@.len(),
            forall|k: int|
                0 <= k <= updates@.len() ==> fits_ok(
                    old(self).ttype(),
                    apply_updates(old(self)@, #[trigger] updates@.take(k)),
                ),
        ensures
            final(self).wf(),
            final(self).ttype() == old(self).ttype(),
            final(self)@ == apply_updates(old(self)@, updates@),
            final(self)@.len() == old(self)@.len(),
    {
        let ghost s0 = self@;
        let ghost t = self.tree_type;
        let mut tree = self.to_tree();
        proof {
            assert(updates@.take(0) =~= Seq::<(i64, usize)>::empty());
            assert(apply_updates(s0, updates@.take(0)) =~= s0);
        }
        let mut idx: usize = 0;
        while idx < updates.len()
            invariant
                tree.wf(),
                tree.ttype() == t,
                tree@ == apply_updates(s0, updates@.take(idx as int)),
                tree@.len() == s0.len(),
                idx <= updates@.len(),
                forall|k: int|
                    0 <= k < updates@.len() ==> ((#[trigger] updates@[k]).1 as int) < s0.len(),
                forall|k: int|
                    0 <= k <= updates@.len() ==> fits_ok(
                        t,
                        apply_updates(s0, #[trigger] updates@.take(k)),
                    ),
            decreases updates@.len() - idx,
        {
            let pair = updates[idx];
            proof {
                assert(updates@.take(idx + 1).drop_last() =~= updates@.take(idx as int));
                assert(updates@.take(idx + 1).last() == updates@[idx as int]);
                assert(apply_updates(s0, updates@.take(idx + 1)) == tree@.update(
                    pair.1 as int,
                    pair.0 as int,
                ));
                lemma_apply_updates_len(s0, updates@.take(idx + 1));
            }
            tree.update(pair.0, pair.1);
            idx = idx + 1;
            proof {
                assert(tree@ == apply_updates(s0, updates@.take(idx as int)));
            }
        }
        proof {
            assert(updates@.take(updates@.len() as int) =~= updates@);
            tree.lemma_wf_slots();
        }
        let exported = tree.export_container();
        let new_len = tree.len();
        self.container = exported;
        self.len = new_len;
        proof {
            assert(self@ =~= tree@);
        }
    }
}

/// Builds a tagged handle over the given elements, under the given policy.
fn build_tagged(arr: &Vec<i64>, tree_type: TreeType) -> (r: PySegmentTree)
    requires
        2 * min_pow2(arr@.len() as int) - 1 <= usize::MAX,
        fits_ok(tree_type, seq_val(arr@)),
    ensures
        r.wf(),
        r.ttype() == tree_type,
        r@ == seq_val(arr@),
        r@.len() == arr@.len(),
{
    let tree = SegmentTree::build_from(arr.as_slice(), tree_type);
    proof {
        tree.lemma_wf_slots();
    }
    let container = tree.export_container();
    let len = tree.len();
    let r = PySegmentTree { container, len, tree_type };
    proof {
        assert(r@ =~= tree@);
    }
    r
}

/// Builds a sum-aggregated handle over the given elements.
pub fn build_sum_tree(arr: Vec<i64>) -> (r: PySegmentTree)
    requires
        2 * min_pow2(arr@.len() as int) - 1 <= usize::MAX,
        fits_ok(TreeType::Sum, seq_val(arr@)),
    ensures
        r.wf(),
        r.ttype() == TreeType::Sum,
        r@ == seq_val(arr@),
{
    build_tagged(&arr, TreeType::Sum)
}

/// Builds a minimum-aggregated handle over the given elements.
pub fn build_min_tree(arr: Vec<i64>) -> (r: PySegmentTree)
    requires
        2 * min_pow2(arr@.len() as int) - 1 <= usize::MAX,
    ensures
        r.wf(),
        r.ttype() == TreeType::Min,
        r@ == seq_val(arr@),
{
    build_tagged(&arr, TreeType::Min)
}

/// Builds a maximum-aggregated handle over the given elements.
pub fn build_max_tree(arr: Vec<i64>) -> (r: PySegmentTree)
    requires
        2 * min_pow2(arr@.len() as int) - 1 <= usize::MAX,
    ensures
        r.wf(),
        r.ttype() == TreeType::Max,
        r@ == seq_val(arr@),
{
    build_tagged(&arr, TreeType::Max)
}

impl PySegmentTree {
    /// Answers one sum query per `(start, end)` pair, in input order.
    pub fn query_sum(&self, ranges: Vec<(usize, usize)>) -> (r: Vec<i64>)
        requires
            self.wf(),
            self.ttype() == TreeType::Sum,
            forall|k: int|
                0 <= k < ranges@.len() ==> (#[trigger] ranges@[k]).0 < ranges@[k].1
                    && ranges@[k].1 as int <= self@.len(),
        ensures
            r@.len() == ranges@.len(),
            forall|k: int|
                0 <= k < r@.len() ==> Some(#[trigger] r@[k] as int) == query_spec(
                    TreeType::Sum,
                    self@,
                    ranges@[k].0 as int,
                    ranges@[k].1 as int,
                ),
    {
        self.batch_query(&ranges)
    }

    /// Answers one minimum query per `(start, end)` pair, in input order.
    pub fn query_min(&self, ranges: Vec<(usize, usize)>) -> (r: Vec<i64>)
        requires
            self.wf(),
            self.ttype() == TreeType::Min,
            forall|k: int|
                0 <= k < ranges@.len() ==> (#[trigger] ranges@[k]).0 < ranges@[k].1
                    && ranges@[k].1 as int <= self@.len(),
        ensures
            r@.len() == ranges@.len(),
            forall|k: int|
                0 <= k < r@.len() ==> Some(#[trigger] r@[k] as int) == query_spec(
                    TreeType::Min,
                    self@,
                    ranges@[k].0 as int,
                    ranges@[k].1 as int,
                ),
    {
        self.batch_query(&ranges)
    }

    /// Answers one maximum query per `(start, end)` pair, in input order.
    pub fn query_max(&self, ranges: Vec<(usize, usize)>) -> (r: Vec<i64>)
        requires
            self.wf(),
            self.ttype() == TreeType::Max,
            forall|k: int|
                0 <= k < ranges@.len() ==> (#[trigger] ranges@[k]).0 < ranges@[k].1
                    && ranges@[k].1 as int <= self@.len(),
        ensures
            r@.len() == ranges@.len(),
            forall|k: int|
                0 <= k < r@.len() ==> Some(#[trigger] r@[k] as int) == query_spec(
                    TreeType::Max,
                    self@,
                    ranges@[k].0 as int,
                    ranges@[k].1 as int,
                ),
    {
        self.batch_query(&ranges)
    }

    /// Applies one sum-tree point update per `(value, index)` pair, in order.
    pub fn update_sum(&mut self, values_n_indexes: Vec<(i64, usize)>)
        requires
            old(self).wf(),
            old(self).ttype() == TreeType::Sum,
            forall|k: int|
                0 <= k < values_n_indexes@.len() ==> ((#[trigger] values_n_indexes@[k]).1 as int)
                    < old(self)@.len(),
            forall|k: int|
                0 <= k <= values_n_indexes@.len() ==> fits_ok(
                    TreeType::Sum,
                    apply_updates(old(self)@, #[trigger] values_n_indexes@.take(k)),
                ),
        ensures
            final(self).wf(),
            final(self).ttype() == TreeType::Sum,
            final(self)@ == apply_updates(old(self)@, values_n_indexes@),
    {
        self.batch_update(&values_n_indexes)
    }

    /// Applies one minimum-tree point update per `(value, index)` pair, in order.
    pub fn update_min(&mut self, values_n_indexes: Vec<(i64, usize)>)
        requires
            old(self).wf(),
            old(self).ttype() == TreeType::Min,
            forall|k: int|
                0 <= k < values_n_indexes@.len() ==> ((#[trigger] values_n_indexes@[k]).1 as int)
                    < old(self)@.len(),
        ensures
            final(self).wf(),
            final(self).ttype() == TreeType::Min,
            final(self)@ == apply_updates(old(self)@, values_n_indexes@),
    {
        self.batch_update(&values_n_indexes)
    }

    /// Applies one maximum-tree point update per `(value, index)` pair, in order.
    pub fn update_max(&mut self, values_n_indexes: Vec<(i64, usize)>)
        requires
            old(self).wf(),
            old(self).ttype() == TreeType::Max,
            forall|k: int|
                0 <= k < values_n_indexes@.len() ==> ((#[trigger] values_n_indexes@[k]).1 as int)
                    < old(self)@.len(),
        ensures
            final(self).wf(),
            final(self).ttype() == TreeType::Max,
            final(self)@ == apply_updates(old(self)@, values_n_indexes@),
    {
        self.batch_update(&values_n_indexes)
    }
}

} // verus!
