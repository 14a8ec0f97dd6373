//! Removing a seam from the grid.

use vstd::prelude::*;
use crate::grid::{
    lemma_cell, lemma_is_grid, lemma_without_columns_distinct, lemma_without_rows_distinct,
    places_within, without_columns, without_rows,
};
use crate::locate::{columns_of_ids, rows_of_ids, seam_in_columns, seam_in_rows};
use crate::matrix::Matrix;
use crate::seam::{CarveError, HorizontalSeam, Seam, VerticalSeam};

verus! {

/// Why the cells at `places`, one in each of `lines` lines of `across` cells,
/// cannot be carved; `None` where they can.
pub open spec fn place_fault(places: Seq<usize>, lines: int, across: int) -> Option<CarveError> {
    if across <= 1 {
        Some(CarveError::DimensionExhausted)
    } else if places.len() != lines {
        Some(CarveError::SeamLengthMismatch)
    } else if !places_within(places, lines, across) {
        Some(CarveError::CellNotFound)
    } else {
        None
    }
}

impl<T: Copy> Matrix<T> {
    /// Why `seam` cannot be carved from the grid; `None` where it can.
    pub open spec fn carve_fault(&self, seam: &Seam) -> Option<CarveError> {
        if seam.is_vertical {
            if self.width <= 1 {
                Some(CarveError::DimensionExhausted)
            } else if seam.indices@.len() != self.height() {
                Some(CarveError::SeamLengthMismatch)
            } else if !seam_in_rows(self.original_indices@, self.width as int, seam.indices@) {
                Some(CarveError::CellNotFound)
            } else {
                None
            }
        } else {
            if self.height() <= 1 {
                Some(CarveError::DimensionExhausted)
            } else if seam.indices@.len() != self.width {
                Some(CarveError::SeamLengthMismatch)
            } else if !seam_in_columns(self.original_indices@, self.width as int, seam.indices@) {
                Some(CarveError::CellNotFound)
            } else {
                None
            }
        }
    }

    /// Whether `after` is this grid without the cells that `seam` names: the
    /// other cells, with their identifiers, in the order they had.
    pub open spec fn is_carved(&self, seam: &Seam, after: &Self) -> bool {
        if seam.is_vertical {
            let places = columns_of_ids(self.original_indices@, self.width as int, seam.indices@);
            &&& after.width == self.width - 1
            &&& after.vector@ == without_columns(self.vector@, self.width as int, places)
            &&& after.original_indices@ == without_columns(
                self.original_indices@,
                self.width as int,
                places,
            )
        } else {
            let places = rows_of_ids(self.original_indices@, self.width as int, seam.indices@);
            &&& after.width == self.width
            &&& after.vector@ == without_rows(self.vector@, self.width as int, places)
            &&& after.original_indices@ == without_rows(
                self.original_indices@,
                self.width as int,
                places,
            )
        }
    }

    /// Removes the cells that `seam` names by their identifiers: one from
    /// each row when the seam is vertical, one from each column when it is
    /// horizontal. The grid loses one column or one row, and no identifier
    /// occurs twice afterwards. On an error the grid stays as it was.
    pub fn carve_seam(&mut self, seam: &Seam) -> (done: Result<(), CarveError>)
        requires
            old(self).wf(),
        ensures
            final(self).wf(),
            match done {
                Ok(()) => {
                    &&& old(self).carve_fault(seam) is None
                    &&& old(self).is_carved(seam, final(self))
                    &&& seam.is_vertical ==> {
                        &&& final(self).width == old(self).width - 1
                        &&& final(self).height() == old(self).height()
                        &&& final(self).vector@.len() + old(self).height()
                            == old(self).vector@.len()
                    }
                    &&& !seam.is_vertical ==> {
                        &&& final(self).width == old(self).width
                        &&& final(self).height() == old(self).height() - 1
                        &&& final(self).vector@.len() == old(self).vector@.len() - old(self).width
                    }
                },
                Err(err) => {
                    &&& old(self).carve_fault(seam) == Some(err)
                    &&& *final(self) == *old(self)
                },
            },
    {
        proof {
            self.lemma_shape();
        }
        let ghost w: int = self.width as int;
        let ghost h: int = self.height() as int;
        if seam.is_vertical {
            if self.width <= 1 {
                return Err(CarveError::DimensionExhausted);
            }
            match self.columns_of_seam(seam) {
                Ok(places) => {
                    let done = self.carve_vertical_seam(&places);
                    proof {
                        self.lemma_shape();
                        assert(h * w - h == h * (w - 1)) by (nonlinear_arith);
                    }
                    done
                },
                Err(err) => Err(err),
            }
        } else {
            if self.height() <= 1 {
                return Err(CarveError::DimensionExhausted);
            }
            match self.rows_of_seam(seam) {
                Ok(places) => {
                    let done = self.carve_horizontal_seam(&places);
                    proof {
                        self.lemma_shape();
                        assert(h * w - w == (h - 1) * w) by (nonlinear_arith);
                    }
                    done
                },
                Err(err) => Err(err),
            }
        }
    }

    /// Removes from each row the cell at the column that `seam` names for it.
    /// The cells right of it move one column to the left, and the grid loses
    /// one column. On an error the grid stays as it was.
    #[verifier::loop_isolation(false)]
    pub fn carve_vertical_seam(&mut self, seam: &VerticalSeam) -> (done: Result<(), CarveError>)
        requires
            old(self).wf(),
        ensures
            final(self).wf(),
            match done {
                Ok(()) => {
                    &&& place_fault(
                        seam.columns@,
                        old(self).height() as int,
                        old(self).width as int,
                    ) is None
                    &&& final(self).width == old(self).width - 1
                    &&& final(self).height() == old(self).height()
                    &&& final(self).vector@ == without_columns(
                        old(self).vector@,
                        old(self).width as int,
                        seam.columns@,
                    )
                    &&& final(self).original_indices@ == without_columns(
                        old(self).original_indices@,
                        old(self).width as int,
                        seam.columns@,
                    )
                },
                Err(err) => {
                    &&& *final(self) == *old(self)
                    &&& place_fault(
                        seam.columns@,
                        old(self).height() as int,
                        old(self).width as int,
                    ) == Some(err)
                },
            },
    {
        let w: usize = self.width;
        let h: usize = self.height();
        let ghost gaps = seam.columns@;
        let ghost cells = without_columns(self.vector@, w as int, gaps);
        let ghost ids = without_columns(self.original_indices@, w as int, gaps);
        proof {
            self.lemma_shape();
        }
        if w <= 1 {
            return Err(CarveError::DimensionExhausted);
        }
        if seam.columns.len() != h {
            return Err(CarveError::SeamLengthMismatch);
        }
        let mut r: usize = 0;
        while r < h
            invariant
                r <= h,
                forall|i: int| 0 <= i < r ==> #[trigger] gaps[i] < w,
            decreases h - r,
        {
            if seam.columns[r] >= w {
                return Err(CarveError::CellNotFound);
            }
            r += 1;
        }
        let narrow: usize = w - 1;
        let mut vector: Vec<T> = Vec::with_capacity(self.vector.len());
        let mut original_indices: Vec<usize> = Vec::with_capacity(self.vector.len());
        r = 0;
        while r < h
            invariant
                r <= h,
                vector@.len() == r * narrow,
                original_indices@.len() == r * narrow,
                forall|k: int| 0 <= k < r * narrow ==> #[trigger] vector@[k] == cells[k],
                forall|k: int| 0 <= k < r * narrow ==> #[trigger] original_indices@[k] == ids[k],
            decreases h - r,
        {
            let gap: usize = seam.columns[r];
            proof {
                lemma_cell(w as int, h as int, r as int, 0);
            }
            let base: usize = r * w;
            let mut c: usize = 0;
            while c < narrow
                invariant
                    r < h,
                    c <= narrow,
                    vector@.len() == r * narrow + c,
                    original_indices@.len() == r * narrow + c,
                    forall|k: int| 0 <= k < r * narrow + c ==> #[trigger] vector@[k] == cells[k],
                    forall|k: int|
                        0 <= k < r * narrow + c ==> #[trigger] original_indices@[k] == ids[k],
                decreases narrow - c,
            {
                let from: usize = if c < gap {
                    c
                } else {
                    c + 1
                };
                proof {
                    lemma_cell(w as int, h as int, r as int, from as int);
                    lemma_cell(narrow as int, h as int, r as int, c as int);
                }
                vector.push(self.vector[base + from]);
                original_indices.push(self.original_indices[base + from]);
                c += 1;
            }
            proof {
                assert((r + 1) * narrow == r * narrow + narrow) by (nonlinear_arith);
            }
            r += 1;
        }
        proof {
            lemma_is_grid(narrow as int, h as int);
            assert(vector@ =~= cells);
            assert(original_indices@ =~= ids);
            lemma_without_columns_distinct(self.original_indices@, w as int, gaps);
        }
        self.width = narrow;
        self.vector = vector;
        self.original_indices = original_indices;
        Ok(())
    }

    /// Removes from each column the cell at the row that `seam` names for it.
    /// The cells below it move one row up, and the grid loses one row. On an
    /// error the grid stays as it was.
    #[verifier::loop_isolation(false)]
    pub fn carve_horizontal_seam(&mut self, seam: &HorizontalSeam) -> (done: Result<
        (),
        CarveError,
    >)
        requires
            old(self).wf(),
        ensures
            final(self).wf(),
            match done {
                Ok(()) => {
                    &&& place_fault(
                        seam.rows@,
                        old(self).width as int,
                        old(self).height() as int,
                    ) is None
                    &&& final(self).width == old(self).width
                    &&& final(self).height() == old(self).height() - 1
                    &&& final(self).vector@ == without_rows(
                        old(self).vector@,
                        old(self).width as int,
                        seam.rows@,
                    )
                    &&& final(self).original_indices@ == without_rows(
                        old(self).original_indices@,
                        old(self).width as int,
                        seam.rows@,
                    )
                },
                Err(err) => {
                    &&& *final(self) == *old(self)
                    &&& place_fault(
                        seam.rows@,
                        old(self).width as int,
                        old(self).height() as int,
                    ) == Some(err)
                },
            },
    {
        let w: usize = self.width;
        let h: usize = self.height();
        let ghost gaps = seam.rows@;
        let ghost cells = without_rows(self.vector@, w as int, gaps);
        let ghost ids = without_rows(self.original_indices@, w as int, gaps);
        proof {
            self.lemma_shape();
        }
        if h <= 1 {
            return Err(CarveError::DimensionExhausted);
        }
        if seam.rows.len() != w {
            return Err(CarveError::SeamLengthMismatch);
        }
        let mut c: usize = 0;
        while c < w
            invariant
                c <= w,
                forall|i: int| 0 <= i < c ==> #[trigger] gaps[i] < h,
            decreases w - c,
        {
            if seam.rows[c] >= h {
                return Err(CarveError::CellNotFound);
            }
            c += 1;
        }
        proof {
            assert((h - 1) * w == h * w - w) by (nonlinear_arith);
        }
        let mut vector: Vec<T> = Vec::with_capacity(self.vector.len());
        let mut original_indices: Vec<usize> = Vec::with_capacity(self.vector.len());
        let mut r: usize = 0;
        while r < h - 1
            invariant
                r <= h - 1,
                vector@.len() == r * w,
                original_indices@.len() == r * w,
                forall|k: int| 0 <= k < r * w ==> #[trigger] vector@[k] == cells[k],
                forall|k: int| 0 <= k < r * w ==> #[trigger] original_indices@[k] == ids[k],
            decreases h - 1 - r,
        {
            c = 0;
            while c < w
                invariant
                    r < h - 1,
                    c <= w,
                    vector@.len() == r * w + c,
                    original_indices@.len() == r * w + c,
                    forall|k: int| 0 <= k < r * w + c ==> #[trigger] vector@[k] == cells[k],
                    forall|k: int|
                        0 <= k < r * w + c ==> #[trigger] original_indices@[k] == ids[k],
                decreases w - c,
            {
                let from: usize = if r < seam.rows[c] {
                    r
                } else {
                    r + 1
                };
                proof {
                    lemma_cell(w as int, h as int, from as int, c as int);
                    lemma_cell(w as int, h - 1, r as int, c as int);
                }
                let place: usize = from * w + c;
                vector.push(self.vector[place]);
                original_indices.push(self.original_indices[place]);
                c += 1;
            }
            proof {
                assert((r + 1) * w == r * w + w) by (nonlinear_arith);
            }
            r += 1;
        }
        proof {
            lemma_is_grid(w as int, h - 1);
            assert(vector@ =~= cells);
            assert(original_indices@ =~= ids);
            lemma_without_rows_distinct(self.original_indices@, w as int, gaps);
        }
        self.vector = vector;
        self.original_indices = original_indices;
        Ok(())
    }
}

} // verus!
