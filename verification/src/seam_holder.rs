//! The seams that were carved, kept so that they can be put back in the
//! reverse of the order in which they were carved.

use vstd::prelude::*;
use crate::seam::Seam;

verus! {

/// Two logs of seams, one for each orientation; the seam pushed last is the
/// last of its log.
pub struct SeamHolder {
    pub vertical_seams: Vec<Seam>,
    pub horizontal_seams: Vec<Seam>,
}

/// The first place of `path` whose identifier is not below `id`, or the
/// length of `path` if every one is.
pub open spec fn first_not_below(path: Seq<usize>, id: usize) -> int
    decreases path.len(),
{
    if path.len() == 0 {
        0
    } else if path[0] >= id {
        0
    } else {
        1 + first_not_below(path.drop_first(), id)
    }
}

/// `path` with `id` put in front of the first identifier that is not below
/// it, or at the end if every one is.
pub open spec fn spliced(path: Seq<usize>, id: usize) -> Seq<usize> {
    path.insert(first_not_below(path, id), id)
}

/// The last `n` seams of `log`, the last one first; all of them if there are
/// fewer.
pub open spec fn last_first(log: Seq<Seam>, n: int) -> Seq<Seam> {
    let k = if n < log.len() {
        n
    } else {
        log.len() as int
    };
    Seq::new(k as nat, |i: int| log[log.len() - 1 - i])
}

/// `log` without its last `n` seams; empty if there are fewer.
pub open spec fn without_last(log: Seq<Seam>, n: int) -> Seq<Seam> {
    if n < log.len() {
        log.subrange(0, log.len() - n)
    } else {
        Seq::empty()
    }
}

/// Whether `after` is `before` with `ids[i]` spliced into the `i`-th of its
/// last `ids.len()` seams.
pub open spec fn is_reconciled(before: Seq<Seam>, ids: Seq<usize>, after: Seq<Seam>) -> bool {
    &&& after.len() == before.len()
    &&& forall|j: int|
        0 <= j < before.len() - ids.len() ==> #[trigger] after[j] == before[j]
    &&& forall|i: int|
        0 <= i < ids.len() ==> (#[trigger] after[before.len() - ids.len() + i]).indices@ == spliced(
            before[before.len() - ids.len() + i].indices@,
            ids[i],
        ) && after[before.len() - ids.len() + i].is_vertical == before[before.len() - ids.len()
            + i].is_vertical
}

/// The first place of `path` whose identifier is not below `id`.
fn first_place_not_below(path: &Vec<usize>, id: usize) -> (place: usize)
    ensures
        place == first_not_below(path@, id),
        place <= path@.len(),
{
    let mut place: usize = 0;
    proof {
        assert(path@.subrange(0, path@.len() as int) =~= path@);
    }
    while place < path.len() && path[place] < id
        invariant
            place <= path@.len(),
            first_not_below(path@, id) == place + first_not_below(
                path@.subrange(place as int, path@.len() as int),
                id,
            ),
        decreases path@.len() - place,
    {
        proof {
            let rest = path@.subrange(place as int, path@.len() as int);
            assert(rest.drop_first() =~= path@.subrange(place + 1, path@.len() as int));
        }
        place += 1;
    }
    place
}

/// Takes the last `n` seams off `log`, the last one first.
fn pop_last(log: &mut Vec<Seam>, n: usize) -> (popped: Vec<Seam>)
    ensures
        popped@ == last_first(old(log)@, n as int),
        final(log)@ == without_last(old(log)@, n as int),
{
    let ghost before = log@;
    let mut popped: Vec<Seam> = Vec::new();
    let mut taken: usize = 0;
    while taken < n && log.len() > 0
        invariant
            taken <= n,
            taken <= before.len(),
            log@ == before.subrange(0, before.len() - taken),
            popped@ == Seq::new(taken as nat, |i: int| before[before.len() - 1 - i]),
        decreases n - taken,
    {
        let seam = log.pop().unwrap();
        popped.push(seam);
        taken += 1;
        proof {
            assert(log@ =~= before.subrange(0, before.len() - taken));
            assert(popped@ =~= Seq::new(taken as nat, |i: int| before[before.len() - 1 - i]));
        }
    }
    proof {
        assert(popped@ =~= last_first(before, n as int));
        assert(log@ =~= without_last(before, n as int));
    }
    popped
}

/// Splices `ids[i]` into the `i`-th of the last `ids.len()` seams of `log`.
fn reconcile(log: &mut Vec<Seam>, ids: &Vec<usize>)
    requires
        ids@.len() <= old(log)@.len(),
    ensures
        is_reconciled(old(log)@, ids@, final(log)@),
{
    let ghost before = log@;
    let k: usize = ids.len();
    let ghost start: int = before.len() - k;
    let mut held: Vec<Seam> = Vec::new();
    let mut i: usize = k;
    while i > 0
        invariant
            i <= k,
            k == ids@.len(),
            k <= before.len(),
            start == before.len() - k,
            log@ == before.subrange(0, start + i),
            held@.len() == k - i,
            forall|j: int|
                0 <= j < k - i ==> (#[trigger] held@[j]).indices@ == spliced(
                    before[before.len() - 1 - j].indices@,
                    ids@[k - 1 - j],
                ) && held@[j].is_vertical == before[before.len() - 1 - j].is_vertical,
        decreases i,
    {
        i -= 1;
        let mut seam = log.pop().unwrap();
        let id: usize = ids[i];
        let place: usize = first_place_not_below(&seam.indices, id);
        seam.indices.insert(place, id);
        held.push(seam);
        proof {
            assert(log@ =~= before.subrange(0, start + i));
        }
    }
    let ghost spliced_seams = held@;
    while held.len() > 0
        invariant
            k == ids@.len(),
            k <= before.len(),
            start == before.len() - k,
            held@.len() <= k,
            held@ == spliced_seams.subrange(0, held@.len() as int),
            spliced_seams.len() == k,
            log@.len() == before.len() - held@.len(),
            forall|j: int| 0 <= j < start ==> #[trigger] log@[j] == before[j],
            forall|j: int|
                start <= j < log@.len() ==> #[trigger] log@[j] == spliced_seams[before.len() - 1
                    - j],
        decreases held@.len(),
    {
        let seam = held.pop().unwrap();
        log.push(seam);
        proof {
            assert(held@ =~= spliced_seams.subrange(0, held@.len() as int));
        }
    }
}

impl SeamHolder {
    /// A holder with two empty logs.
    pub fn new() -> (holder: Self)
        ensures
            holder.vertical_seams@.len() == 0,
            holder.horizontal_seams@.len() == 0,
    {
        SeamHolder { vertical_seams: Vec::new(), horizontal_seams: Vec::new() }
    }

    /// Appends `seam` to the log of its orientation.
    pub fn push_seam(&mut self, seam: Seam)
        ensures
            seam.is_vertical ==> {
                &&& final(self).vertical_seams@ == old(self).vertical_seams@.push(seam)
                &&& final(self).horizontal_seams@ == old(self).horizontal_seams@
            },
            !seam.is_vertical ==> {
                &&& final(self).horizontal_seams@ == old(self).horizontal_seams@.push(seam)
                &&& final(self).vertical_seams@ == old(self).vertical_seams@
            },
    {
        if seam.is_vertical {
            self.vertical_seams.push(seam);
        } else {
            self.horizontal_seams.push(seam);
        }
    }

    /// Takes the `n` seams pushed last off the vertical log, or off the
    /// horizontal one, and returns them, the one pushed last first. A log
    /// with fewer seams gives all it has.
    pub fn pop_n_seams(&mut self, n: usize, vertical: bool) -> (popped: Vec<Seam>)
        ensures
            vertical ==> {
                &&& popped@ == last_first(old(self).vertical_seams@, n as int)
                &&& final(self).vertical_seams@ == without_last(
                    old(self).vertical_seams@,
                    n as int,
                )
                &&& final(self).horizontal_seams@ == old(self).horizontal_seams@
            },
            !vertical ==> {
                &&& popped@ == last_first(old(self).horizontal_seams@, n as int)
                &&& final(self).horizontal_seams@ == without_last(
                    old(self).horizontal_seams@,
                    n as int,
                )
                &&& final(self).vertical_seams@ == old(self).vertical_seams@
            },
    {
        if vertical {
            pop_last(&mut self.vertical_seams, n)
        } else {
            pop_last(&mut self.horizontal_seams, n)
        }
    }

    /// Splices each of `overflowing_indices` into one of the seams pushed
    /// last on the vertical log, or on the horizontal one: the first of
    /// them into the earliest of those seams, the last into the seam pushed
    /// last. Every such seam grows by one identifier.
    pub fn insert_overflowing_indices(&mut self, overflowing_indices: Vec<usize>, vertical: bool)
        requires
            vertical ==> overflowing_indices@.len() <= old(self).vertical_seams@.len(),
            !vertical ==> overflowing_indices@.len() <= old(self).horizontal_seams@.len(),
        ensures
            vertical ==> is_reconciled(
                old(self).vertical_seams@,
                overflowing_indices@,
                final(self).vertical_seams@,
            ) && final(self).horizontal_seams@ == old(self).horizontal_seams@,
            !vertical ==> is_reconciled(
                old(self).horizontal_seams@,
                overflowing_indices@,
                final(self).horizontal_seams@,
            ) && final(self).vertical_seams@ == old(self).vertical_seams@,
    {
        if vertical {
            reconcile(&mut self.vertical_seams, &overflowing_indices);
        } else {
            reconcile(&mut self.horizontal_seams, &overflowing_indices);
        }
    }
}

/// Popping as many seams as were pushed returns them, the one pushed last
/// first, and leaves the log as it was before they were pushed.
pub proof fn lemma_pop_undoes_push(log: Seq<Seam>, pushed: Seq<Seam>)
    ensures
        last_first(log + pushed, pushed.len() as int) == pushed.reverse(),
        without_last(log + pushed, pushed.len() as int) == log,
{
    assert(last_first(log + pushed, pushed.len() as int) =~= pushed.reverse());
    assert(without_last(log + pushed, pushed.len() as int) =~= log);
}

/// Popping `n` seams and pushing them back, the one popped last first,
/// leaves the log as it was.
pub proof fn lemma_push_undoes_pop(log: Seq<Seam>, n: int)
    requires
        n >= 0,
    ensures
        without_last(log, n) + last_first(log, n).reverse() == log,
{
    assert(without_last(log, n) + last_first(log, n).reverse() =~= log);
}

} // verus!
