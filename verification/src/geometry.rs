//! The pure index geometry of the tree layout: for every slot of a tree
//! over a given number of elements, the sub-range of original indices it
//! covers, independent of any stored values.

use vstd::prelude::*;

use crate::fold::min_pow2;
use crate::tree::next_pow2;

verus! {

/// How an internal slot's covered range arises from its children's:
/// both present join end to end, one present is adopted, none stays absent.
pub open spec fn merge_ranges(a: Option<(usize, usize)>, b: Option<(usize, usize)>) -> Option<
    (usize, usize),
> {
    match (a, b) {
        (Some(l), Some(r)) => Some((l.0, r.1)),
        (Some(l), None) => Some(l),
        (None, Some(r)) => Some(r),
        (None, None) => None,
    }
}

/// The slot-to-range map of a tree over `n` elements: real leaf slots map
/// to their unit ranges, padding leaves to absence, and every internal slot
/// to the merge of its two children.
pub open spec fn geometry_ok(g: Seq<Option<(usize, usize)>>, n: int, p2: int) -> bool {
    &&& g.len() == 2 * p2 - 1
    &&& forall|i: int|
        p2 - 1 <= i < 2 * p2 - 1 ==> #[trigger] g[i] == (if i - (p2 - 1) < n {
            Some((((i - (p2 - 1)) as usize), ((i - (p2 - 1) + 1) as usize)))
        } else {
            None::<(usize, usize)>
        })
    &&& forall|i: int| 0 <= i < p2 - 1 ==> #[trigger] g[i] == merge_ranges(g[2 * i + 1], g[2 * i + 2])
}

/// For every tree slot of a tree over `tree_len` elements, the sub-range of
/// original indices covered by that slot, or absence where only padding
/// lies beneath; built bottom-up, mirroring the build layout.
pub fn tree_container_indexes_manager(tree_len: usize) -> (r: Vec<Option<(usize, usize)>>)
    requires
        2 * min_pow2(tree_len as int) - 1 <= usize::MAX,
    ensures
        geometry_ok(r@, tree_len as int, min_pow2(tree_len as int)),
{
    proof {
        crate::fold::lemma_min_pow2(tree_len as int);
    }
    let p2 = next_pow2(tree_len);
    let mut manager: Vec<Option<(usize, usize)>> = Vec::new();
    let mut i: usize = 0;
    while i < p2 - 1
        invariant
            i <= p2 - 1,
            manager@.len() == i as int,
        decreases p2 - 1 - i,
    {
        manager.push(None);
        i = i + 1;
    }
    let mut j: usize = 0;
    while j < tree_len
        invariant
            j <= tree_len,
            p2 >= 1,
            tree_len <= p2,
            2 * (p2 as int) - 1 <= usize::MAX,
            manager@.len() == p2 - 1 + j as int,
            forall|k: int|
                p2 - 1 <= k < p2 - 1 + j as int ==> #[trigger] manager@[k] == Some(
                    (((k - (p2 - 1)) as usize), ((k - (p2 - 1) + 1) as usize)),
                ),
        decreases tree_len - j,
    {
        manager.push(Some((j, j + 1)));
        j = j + 1;
    }
    let mut pad: usize = tree_len;
    while pad < p2
        invariant
            tree_len <= pad <= p2,
            p2 >= 1,
            2 * (p2 as int) - 1 <= usize::MAX,
            manager@.len() == p2 - 1 + pad as int,
            forall|k: int|
                p2 - 1 <= k < p2 - 1 + tree_len as int ==> #[trigger] manager@[k] == Some(
                    (((k - (p2 - 1)) as usize), ((k - (p2 - 1) + 1) as usize)),
                ),
            forall|k: int|
                p2 - 1 + tree_len as int <= k < p2 - 1 + pad as int ==> #[trigger] manager@[k]
                    is None,
        decreases p2 - pad,
    {
        manager.push(None);
        pad = pad + 1;
    }
    let mut k: usize = p2 - 1;
    while k > 0
        invariant
            k <= p2 - 1,
            p2 >= 1,
            tree_len <= p2,
            2 * (p2 as int) - 1 <= usize::MAX,
            manager@.len() == 2 * p2 - 1,
            forall|m: int|
                p2 - 1 <= m < 2 * p2 - 1 ==> #[trigger] manager@[m] == (if m - (p2 - 1)
                    < tree_len as int {
                    Some((((m - (p2 - 1)) as usize), ((m - (p2 - 1) + 1) as usize)))
                } else {
                    None::<(usize, usize)>
                }),
            forall|m: int|
                k as int <= m < p2 - 1 ==> #[trigger] manager@[m] == merge_ranges(
                    manager@[2 * m + 1],
                    manager@[2 * m + 2],
                ),
        decreases k,
    {
        k = k - 1;
        let left = manager[2 * k + 1];
        let right = manager[2 * k + 2];
        let merged: Option<(usize, usize)> = match (left, right) {
            (Some(l), Some(r)) => Some((l.0, r.1)),
            (Some(l), None) => Some(l),
            (None, Some(r)) => Some(r),
            (None, None) => None,
        };
        let ghost before = manager@;
        manager[k] = merged;
        proof {
            assert(manager@ =~= before.update(k as int, merged));
        }
    }
    manager
}

} // verus!
