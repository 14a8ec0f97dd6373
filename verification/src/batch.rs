//! Removing several seams of one orientation in one pass over the grid.

use std::collections::HashSet;
use vstd::prelude::*;
use crate::grid::{lemma_cell, lemma_is_grid, lemma_transpose_twice, row_of, transpose};
use crate::matrix::Matrix;
use crate::seam::{CarveError, Seam};

verus! {

broadcast use vstd::std_specs::hash::group_hash_axioms;

/// The identifiers that the seams name for line `r`, one for each seam.
pub open spec fn line_targets(seams: Seq<Seam>, r: int) -> Seq<usize> {
    Seq::new(seams.len(), |k: int| seams[k].indices@[r])
}

/// The test that a cell passes if no seam names it for line `r`.
pub open spec fn keeps<T>(seams: Seq<Seam>, r: int) -> spec_fn((T, usize)) -> bool {
    |cell: (T, usize)| !line_targets(seams, r).contains(cell.1)
}

/// Row `r` of the grid without the cells that the seams name for it.
pub open spec fn kept_row<T>(cells: Seq<(T, usize)>, w: int, r: int, seams: Seq<Seam>) -> Seq<
    (T, usize),
> {
    row_of(cells, w, r).filter(keeps(seams, r))
}

/// Why the seams cannot be carved together from the rows of the grid;
/// `None` where they can: there are fewer seams than columns, each seam has
/// one identifier for each row, and in each row they name as many cells as
/// there are seams.
pub open spec fn batch_fault<T>(cells: Seq<(T, usize)>, w: int, seams: Seq<Seam>) -> Option<
    CarveError,
> {
    let h = cells.len() as int / w;
    if seams.len() >= w {
        Some(CarveError::DimensionExhausted)
    } else if !(forall|k: int| 0 <= k < seams.len() ==> (#[trigger] seams[k]).indices@.len() == h) {
        Some(CarveError::SeamLengthMismatch)
    } else if !(forall|r: int|
        0 <= r < h ==> (#[trigger] kept_row(cells, w, r, seams)).len() == w - seams.len()) {
        Some(CarveError::CellNotFound)
    } else {
        None
    }
}

/// Whether `after` is the grid `before` of width `w` without the cells that
/// the seams name in its rows: every row keeps its other cells in their
/// order.
pub open spec fn is_batch_carved<T>(
    before: Seq<(T, usize)>,
    w: int,
    seams: Seq<Seam>,
    after: Seq<(T, usize)>,
) -> bool {
    let h = before.len() as int / w;
    &&& after.len() == h * (w - seams.len())
    &&& forall|r: int|
        0 <= r < h ==> #[trigger] row_of(after, w - seams.len(), r) == kept_row(
            before,
            w,
            r,
            seams,
        )
}

/// Why the seams cannot be carved together from the columns of the grid;
/// `None` where they can: what [`batch_fault`] says of the grid with rows
/// and columns exchanged. Carving no seam from a grid without cells is no
/// fault.
pub open spec fn column_batch_fault<T>(
    cells: Seq<(T, usize)>,
    w: int,
    seams: Seq<Seam>,
) -> Option<CarveError> {
    if cells.len() == 0 {
        if seams.len() == 0 {
            None
        } else {
            Some(CarveError::DimensionExhausted)
        }
    } else {
        batch_fault(transpose(cells, w), cells.len() as int / w, seams)
    }
}

/// Whether `after` is the grid `before` of width `w` without the cells that
/// the seams name in its columns: every column keeps its other cells in
/// their order.
pub open spec fn is_batch_carved_in_columns<T>(
    before: Seq<(T, usize)>,
    w: int,
    seams: Seq<Seam>,
    after: Seq<(T, usize)>,
) -> bool {
    if before.len() == 0 {
        after == before
    } else {
        is_batch_carved(transpose(before, w), before.len() as int / w, seams, transpose(after, w))
    }
}

/// The identifiers that the seams name for line `r`, as a set.
#[verifier::loop_isolation(false)]
fn targets_of_line(seams: &Vec<Seam>, r: usize) -> (targets: HashSet<usize>)
    requires
        forall|k: int| 0 <= k < seams@.len() ==> r < (#[trigger] seams@[k]).indices@.len(),
    ensures
        forall|id: usize| targets@.contains(id) <==> line_targets(seams@, r as int).contains(id),
{
    let ghost named = line_targets(seams@, r as int);
    let mut targets: HashSet<usize> = HashSet::new();
    let mut k: usize = 0;
    while k < seams.len()
        invariant
            k <= seams@.len(),
            forall|id: usize|
                targets@.contains(id) <==> exists|j: int| 0 <= j < k && #[trigger] named[j] == id,
        decreases seams@.len() - k,
    {
        let ghost before = targets@;
        targets.insert(seams[k].indices[r]);
        proof {
            assert(named[k as int] == seams@[k as int].indices@[r as int]);
            assert forall|id: usize| targets@.contains(id) implies exists|j: int|
                0 <= j < k + 1 && #[trigger] named[j] == id by {
                if before.contains(id) {
                    let j = choose|j: int| 0 <= j < k && #[trigger] named[j] == id;
                    assert(named[j] == id);
                } else {
                    assert(named[k as int] == id);
                }
            }
        }
        k += 1;
    }
    targets
}

impl<T: Copy> Matrix<T> {
    /// Removes the cells that the seams name, one from each row for each
    /// seam, in one pass over every row. The grid loses as many columns as
    /// there are seams, and no identifier occurs twice afterwards. On an
    /// error the grid stays as it was.
    #[verifier::loop_isolation(false)]
    pub fn carve_vertical_seams(&mut self, seams: Vec<Seam>) -> (done: Result<(), CarveError>)
        requires
            old(self).wf(),
        ensures
            final(self).wf(),
            match done {
                Ok(()) => {
                    &&& batch_fault(old(self).cells(), old(self).width as int, seams@) is None
                    &&& final(self).width == old(self).width - seams@.len()
                    &&& final(self).height() == old(self).height()
                    &&& is_batch_carved(
                        old(self).cells(),
                        old(self).width as int,
                        seams@,
                        final(self).cells(),
                    )
                },
                Err(err) => {
                    &&& batch_fault(old(self).cells(), old(self).width as int, seams@) == Some(err)
                    &&& *final(self) == *old(self)
                },
            },
    {
        let w: usize = self.width;
        let h: usize = self.height();
        let n: usize = seams.len();
        let ghost cells = self.cells();
        let ghost ids = self.original_indices@;
        proof {
            self.lemma_shape();
        }
        if n >= w {
            return Err(CarveError::DimensionExhausted);
        }
        let mut k: usize = 0;
        while k < n
            invariant
                k <= n,
                forall|j: int| 0 <= j < k ==> (#[trigger] seams@[j]).indices@.len() == h,
            decreases n - k,
        {
            if seams[k].indices.len() != h {
                return Err(CarveError::SeamLengthMismatch);
            }
            k += 1;
        }
        let narrow: usize = w - n;
        let mut vector: Vec<T> = Vec::with_capacity(self.vector.len());
        let mut original_indices: Vec<usize> = Vec::with_capacity(self.vector.len());
        let ghost mut out: Seq<(T, usize)> = Seq::empty();
        let ghost mut from: Seq<int> = Seq::empty();
        let mut r: usize = 0;
        while r < h
            invariant
                r <= h,
                vector@.len() == r * narrow,
                original_indices@.len() == r * narrow,
                out == Seq::new(vector@.len(), |i: int| (vector@[i], original_indices@[i])),
                from.len() == out.len(),
                forall|i: int|
                    0 <= i < from.len() ==> 0 <= #[trigger] from[i] < r * w && out[i].1
                        == ids[from[i]],
                forall|i: int, j: int| 0 <= i < j < from.len() ==> from[i] < from[j],
                forall|rr: int|
                    0 <= rr < r ==> #[trigger] row_of(out, narrow as int, rr) == kept_row(
                        cells,
                        w as int,
                        rr,
                        seams@,
                    ),
            decreases h - r,
        {
            let ghost row = row_of(cells, w as int, r as int);
            let ghost test = keeps::<T>(seams@, r as int);
            let ghost before_row = out;
            proof {
                lemma_cell(w as int, h as int, r as int, 0);
                assert(row.take(0) =~= Seq::<(T, usize)>::empty());
                assert(out.subrange(r * narrow, out.len() as int) =~= Seq::<(T, usize)>::empty());
                reveal(Seq::filter);
                assert(row.take(0).filter(test) =~= Seq::<(T, usize)>::empty());
            }
            let base: usize = r * w;
            let start: usize = vector.len();
            let targets = targets_of_line(&seams, r);
            let mut c: usize = 0;
            while c < w
                invariant
                    r < h,
                    c <= w,
                    base == r * w,
                    start == r * narrow,
                    row == row_of(cells, w as int, r as int),
                    test == keeps::<T>(seams@, r as int),
                    start <= vector@.len() <= start + c,
                    original_indices@.len() == vector@.len(),
                    out == Seq::new(vector@.len(), |i: int| (vector@[i], original_indices@[i])),
                    out.subrange(0, start as int) == before_row,
                    out.subrange(start as int, out.len() as int) == row.take(c as int).filter(test),
                    from.len() == out.len(),
                    forall|i: int|
                        0 <= i < from.len() ==> 0 <= #[trigger] from[i] < r * w + c && out[i].1
                            == ids[from[i]],
                    forall|i: int, j: int| 0 <= i < j < from.len() ==> from[i] < from[j],
                decreases w - c,
            {
                proof {
                    lemma_cell(w as int, h as int, r as int, c as int);
                }
                let id: usize = self.original_indices[base + c];
                let cell: T = self.vector[base + c];
                let named: bool = targets.contains(&id);
                proof {
                    assert(row[c as int] == (cell, id));
                    assert(row.take(c + 1) =~= row.take(c as int).push((cell, id)));
                    row.take(c as int).lemma_filter_push((cell, id), test);
                    assert(test((cell, id)) == !named);
                }
                let ghost before = out;
                if !named {
                    vector.push(cell);
                    original_indices.push(id);
                    proof {
                        out = out.push((cell, id));
                        from = from.push(base + c);
                        assert(out =~= Seq::new(
                            vector@.len(),
                            |i: int| (vector@[i], original_indices@[i]),
                        ));
                        assert(out.subrange(0, start as int) =~= before_row);
                        assert(out.subrange(start as int, out.len() as int) =~= before.subrange(
                            start as int,
                            before.len() as int,
                        ).push((cell, id)));
                    }
                }
                c += 1;
            }
            proof {
                assert(row.take(w as int) =~= row);
            }
            if vector.len() - start != narrow {
                proof {
                    assert(kept_row(cells, w as int, r as int, seams@).len() != w - n);
                }
                return Err(CarveError::CellNotFound);
            }
            proof {
                assert((r + 1) * narrow == r * narrow + narrow) by (nonlinear_arith);
                assert((r + 1) * w == r * w + w) by (nonlinear_arith);
                assert(row_of(out, narrow as int, r as int) =~= out.subrange(
                    start as int,
                    out.len() as int,
                ));
                assert forall|rr: int| 0 <= rr < r implies #[trigger] row_of(
                    out,
                    narrow as int,
                    rr,
                ) == kept_row(cells, w as int, rr, seams@) by {
                    assert(row_of(out, narrow as int, rr) =~= row_of(
                        before_row,
                        narrow as int,
                        rr,
                    )) by {
                        assert forall|j: int| 0 <= j < narrow implies #[trigger] row_of(
                            out,
                            narrow as int,
                            rr,
                        )[j] == row_of(before_row, narrow as int, rr)[j] by {
                            lemma_cell(narrow as int, r as int, rr, j);
                            assert(before_row[rr * narrow + j] == out.subrange(
                                0,
                                start as int,
                            )[rr * narrow + j]);
                        }
                    }
                }
            }
            r += 1;
        }
        proof {
            lemma_is_grid(narrow as int, h as int);
            assert(original_indices@.no_duplicates()) by {
                assert forall|i: int, j: int|
                    0 <= i < original_indices@.len() && 0 <= j < original_indices@.len() && i
                        != j implies original_indices@[i] != original_indices@[j] by {
                    assert(out[i].1 == original_indices@[i]);
                    assert(out[j].1 == original_indices@[j]);
                    if i < j {
                        assert(from[i] < from[j]);
                    } else {
                        assert(from[j] < from[i]);
                    }
                }
            }
        }
        self.width = narrow;
        self.vector = vector;
        self.original_indices = original_indices;
        proof {
            assert(self.cells() =~= out);
            assert forall|rr: int| 0 <= rr < h implies (#[trigger] kept_row(
                cells,
                w as int,
                rr,
                seams@,
            )).len() == w - n by {
                assert(row_of(out, narrow as int, rr).len() == narrow);
            }
            assert(batch_fault(cells, w as int, seams@) is None);
            assert(self.height() == h);
            assert(is_batch_carved(cells, w as int, seams@, self.cells()));
        }
        Ok(())
    }

    /// Removes the cells that the seams name, one from each column for each
    /// seam. The grid loses as many rows as there are seams, and no
    /// identifier occurs twice afterwards. On an error the grid stays as it
    /// was.
    pub fn carve_horizontal_seams(&mut self, seams: Vec<Seam>) -> (done: Result<(), CarveError>)
        requires
            old(self).wf(),
        ensures
            final(self).wf(),
            match done {
                Ok(()) => {
                    &&& column_batch_fault(old(self).cells(), old(self).width as int, seams@)
                        is None
                    &&& final(self).width == old(self).width
                    &&& final(self).height() == old(self).height() - seams@.len()
                    &&& is_batch_carved_in_columns(
                        old(self).cells(),
                        old(self).width as int,
                        seams@,
                        final(self).cells(),
                    )
                },
                Err(err) => {
                    &&& column_batch_fault(old(self).cells(), old(self).width as int, seams@)
                        == Some(err)
                    &&& *final(self) == *old(self)
                },
            },
    {
        let ghost w: int = self.width as int;
        let ghost h: int = self.height() as int;
        let ghost cells = self.cells();
        proof {
            self.lemma_shape();
        }
        if self.vector.len() == 0 {
            if seams.len() == 0 {
                return Ok(());
            }
            return Err(CarveError::DimensionExhausted);
        }
        let mut turned = self.transposed();
        proof {
            turned.lemma_shape();
            self.lemma_transposed_cells(&turned);
        }
        match turned.carve_vertical_seams(seams) {
            Ok(()) => {
                let back = turned.transposed();
                proof {
                    turned.lemma_shape();
                    back.lemma_shape();
                    let narrow = h - seams@.len();
                    lemma_is_grid(narrow, w);
                    assert(turned.vector@.len() == w * narrow);
                    assert(w * narrow > 0) by (nonlinear_arith)
                        requires
                            w > 0,
                            narrow > 0,
                    ;
                    lemma_transpose_twice(turned.cells(), narrow);
                    turned.lemma_transposed_cells(&back);
                }
                *self = back;
                Ok(())
            },
            Err(err) => Err(err),
        }
    }
}

} // verus!
