//! Finding a cell by its identifier without going through the grid.

use std::collections::{HashMap, HashSet};
use vstd::prelude::*;
use crate::matrix::Matrix;

verus! {

broadcast use vstd::std_specs::hash::group_hash_axioms;

/// Whether `index` holds the identifiers `ids`, and no others, each with its
/// place in `ids`.
pub open spec fn is_index(index: Map<usize, usize>, ids: Seq<usize>) -> bool {
    forall|id: usize|
        #![trigger index.contains_key(id)]
        #![trigger ids.contains(id)]
        (index.contains_key(id) <==> ids.contains(id)) && (ids.contains(id) ==> index[id]
            == ids.index_of(id))
}

/// The place that `index` holds for `id`.
pub fn place_in(index: &HashMap<usize, usize>, id: usize) -> (found: Option<usize>)
    ensures
        match found {
            Some(p) => index@.contains_key(id) && index@[id] == p,
            None => !index@.contains_key(id),
        },
{
    match index.get(&id) {
        Some(p) => Some(*p),
        None => None,
    }
}

/// Whether no two of `ids` are equal.
pub fn has_no_duplicates(ids: &Vec<usize>) -> (yes: bool)
    ensures
        yes == ids@.no_duplicates(),
{
    let mut seen: HashSet<usize> = HashSet::new();
    let mut k: usize = 0;
    while k < ids.len()
        invariant
            k <= ids@.len(),
            forall|i: int, j: int| 0 <= i < j < k ==> ids@[i] != ids@[j],
            forall|id: usize|
                seen@.contains(id) <==> exists|i: int| 0 <= i < k && #[trigger] ids@[i] == id,
        decreases ids@.len() - k,
    {
        let id: usize = ids[k];
        if seen.contains(&id) {
            proof {
                let i = choose|i: int| 0 <= i < k && #[trigger] ids@[i] == id;
                assert(ids@[i] == ids@[k as int]);
            }
            return false;
        }
        seen.insert(id);
        proof {
            assert forall|other: usize| seen@.contains(other) implies exists|i: int|
                0 <= i < k + 1 && #[trigger] ids@[i] == other by {
                if other == id {
                    assert(ids@[k as int] == other);
                } else {
                    let i = choose|i: int| 0 <= i < k && #[trigger] ids@[i] == other;
                    assert(ids@[i] == other);
                }
            }
        }
        k += 1;
    }
    true
}

impl<T: Copy> Matrix<T> {
    /// For each identifier of the grid, the place of its cell.
    pub fn index(&self) -> (index: HashMap<usize, usize>)
        requires
            self.wf(),
        ensures
            is_index(index@, self.original_indices@),
    {
        let ghost ids = self.original_indices@;
        let mut index: HashMap<usize, usize> = HashMap::new();
        let mut k: usize = 0;
        while k < self.original_indices.len()
            invariant
                ids == self.original_indices@,
                ids.no_duplicates(),
                k <= ids.len(),
                forall|id: usize|
                    index@.contains_key(id) <==> exists|i: int|
                        0 <= i < k && #[trigger] ids[i] == id,
                forall|i: int| 0 <= i < k ==> index@[#[trigger] ids[i]] == i,
            decreases ids.len() - k,
        {
            let ghost before = index@;
            index.insert(self.original_indices[k], k);
            proof {
                assert forall|id: usize| index@.contains_key(id) implies exists|i: int|
                    0 <= i < k + 1 && #[trigger] ids[i] == id by {
                    if id == ids[k as int] {
                    } else {
                        assert(before.contains_key(id));
                        let i = choose|i: int| 0 <= i < k && #[trigger] ids[i] == id;
                        assert(ids[i] == id);
                    }
                }
            }
            k += 1;
        }
        proof {
            assert forall|id: usize|
                #![trigger index@.contains_key(id)]
                #![trigger ids.contains(id)]
                (index@.contains_key(id) <==> ids.contains(id)) && (ids.contains(id)
                    ==> index@[id] == ids.index_of(id)) by {
                if ids.contains(id) {
                    let i = choose|i: int| 0 <= i < ids.len() && ids[i] == id;
                    assert(ids[i] == id);
                    let j = ids.index_of(id);
                    assert(ids[j] == id);
                }
                if index@.contains_key(id) {
                    let i = choose|i: int| 0 <= i < k && #[trigger] ids[i] == id;
                    assert(ids[i] == id);
                }
            }
        }
        index
    }
}

} // verus!
