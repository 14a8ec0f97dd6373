//! Between the two ways of naming a seam: by the places of its cells in the
//! grid, and by their identifiers.

use vstd::prelude::*;
use crate::grid::{at, cells_at_columns, cells_at_rows, lemma_cell, places_within};
use crate::matrix::Matrix;
use crate::seam::{CarveError, HorizontalSeam, Seam, VerticalSeam};

verus! {

/// Whether a cell of row `r` has the identifier `id`.
pub open spec fn in_row(ids: Seq<usize>, w: int, r: int, id: usize) -> bool {
    exists|c: int| 0 <= c < w && #[trigger] at(ids, w, r, c) == id
}

/// Whether a cell of column `c` has the identifier `id`.
pub open spec fn in_column(ids: Seq<usize>, w: int, c: int, id: usize) -> bool {
    exists|r: int| 0 <= r < ids.len() as int / w && #[trigger] at(ids, w, r, c) == id
}

/// The column of the cell of row `r` that has the identifier `id`.
pub open spec fn column_of_id(ids: Seq<usize>, w: int, r: int, id: usize) -> int {
    choose|c: int| 0 <= c < w && #[trigger] at(ids, w, r, c) == id
}

/// The row of the cell of column `c` that has the identifier `id`.
pub open spec fn row_of_id(ids: Seq<usize>, w: int, c: int, id: usize) -> int {
    choose|r: int| 0 <= r < ids.len() as int / w && #[trigger] at(ids, w, r, c) == id
}

/// Whether `path` names, for each row from the first on, a cell of that row.
pub open spec fn seam_in_rows(ids: Seq<usize>, w: int, path: Seq<usize>) -> bool {
    forall|r: int| 0 <= r < path.len() ==> in_row(ids, w, r, #[trigger] path[r])
}

/// Whether `path` names, for each column from the first on, a cell of that
/// column.
pub open spec fn seam_in_columns(ids: Seq<usize>, w: int, path: Seq<usize>) -> bool {
    forall|c: int| 0 <= c < path.len() ==> in_column(ids, w, c, #[trigger] path[c])
}

/// For each row, the column of the cell that `path` names in it.
pub open spec fn columns_of_ids(ids: Seq<usize>, w: int, path: Seq<usize>) -> Seq<usize> {
    Seq::new(path.len(), |r: int| column_of_id(ids, w, r, path[r]) as usize)
}

/// For each column, the row of the cell that `path` names in it.
pub open spec fn rows_of_ids(ids: Seq<usize>, w: int, path: Seq<usize>) -> Seq<usize> {
    Seq::new(path.len(), |c: int| row_of_id(ids, w, c, path[c]) as usize)
}

impl<T: Copy> Matrix<T> {
    /// The columns at which the cells of `seam` stand, one in each row.
    #[verifier::loop_isolation(false)]
    pub fn columns_of_seam(&self, seam: &Seam) -> (found: Result<VerticalSeam, CarveError>)
        requires
            self.wf(),
        ensures
            match found {
                Ok(places) => {
                    &&& seam.indices@.len() == self.height()
                    &&& seam_in_rows(self.original_indices@, self.width as int, seam.indices@)
                    &&& places.columns@ == columns_of_ids(
                        self.original_indices@,
                        self.width as int,
                        seam.indices@,
                    )
                    &&& places_within(places.columns@, self.height() as int, self.width as int)
                    &&& cells_at_columns(self.original_indices@, self.width as int, places.columns@)
                        == seam.indices@
                },
                Err(err) => {
                    &&& err == CarveError::SeamLengthMismatch <==> seam.indices@.len()
                        != self.height()
                    &&& err == CarveError::CellNotFound <==> seam.indices@.len() == self.height()
                        && !seam_in_rows(self.original_indices@, self.width as int, seam.indices@)
                    &&& err == CarveError::SeamLengthMismatch || err == CarveError::CellNotFound
                },
            },
    {
        let w: usize = self.width;
        let h: usize = self.height();
        let ghost ids = self.original_indices@;
        let ghost path = seam.indices@;
        proof {
            self.lemma_shape();
        }
        if seam.indices.len() != h {
            return Err(CarveError::SeamLengthMismatch);
        }
        let mut columns: Vec<usize> = Vec::with_capacity(h);
        let mut r: usize = 0;
        while r < h
            invariant
                r <= h,
                columns@.len() == r,
                forall|i: int|
                    0 <= i < r ==> #[trigger] columns@[i] < w && at(
                        ids,
                        w as int,
                        i,
                        columns@[i] as int,
                    ) == path[i],
            decreases h - r,
        {
            let id: usize = seam.indices[r];
            proof {
                lemma_cell(w as int, h as int, r as int, 0);
            }
            let base: usize = r * w;
            let mut c: usize = 0;
            while c < w && self.original_indices[base + c] != id
                invariant
                    c <= w,
                    forall|j: int| 0 <= j < c ==> #[trigger] at(ids, w as int, r as int, j) != id,
                    c < w ==> base + c < ids.len(),
                decreases w - c,
            {
                c += 1;
                proof {
                    if c < w {
                        lemma_cell(w as int, h as int, r as int, c as int);
                    }
                }
            }
            if c == w {
                proof {
                    assert(!in_row(ids, w as int, r as int, path[r as int]));
                }
                return Err(CarveError::CellNotFound);
            }
            columns.push(c);
            r += 1;
        }
        proof {
            assert forall|i: int| 0 <= i < path.len() implies in_row(
                ids,
                w as int,
                i,
                #[trigger] path[i],
            ) && columns@[i] == column_of_id(ids, w as int, i, path[i]) by {
                assert(at(ids, w as int, i, columns@[i] as int) == path[i]);
                let other = column_of_id(ids, w as int, i, path[i]);
                lemma_cell(w as int, h as int, i, other);
                lemma_cell(w as int, h as int, i, columns@[i] as int);
            }
            assert(columns@ =~= columns_of_ids(ids, w as int, path));
            assert(cells_at_columns(ids, w as int, columns@) =~= path);
        }
        Ok(VerticalSeam { columns })
    }

    /// The rows at which the cells of `seam` stand, one in each column.
    #[verifier::loop_isolation(false)]
    pub fn rows_of_seam(&self, seam: &Seam) -> (found: Result<HorizontalSeam, CarveError>)
        requires
            self.wf(),
        ensures
            match found {
                Ok(places) => {
                    &&& seam.indices@.len() == self.width
                    &&& seam_in_columns(self.original_indices@, self.width as int, seam.indices@)
                    &&& places.rows@ == rows_of_ids(
                        self.original_indices@,
                        self.width as int,
                        seam.indices@,
                    )
                    &&& places_within(places.rows@, self.width as int, self.height() as int)
                    &&& cells_at_rows(self.original_indices@, self.width as int, places.rows@)
                        == seam.indices@
                },
                Err(err) => {
                    &&& err == CarveError::SeamLengthMismatch <==> seam.indices@.len()
                        != self.width
                    &&& err == CarveError::CellNotFound <==> seam.indices@.len() == self.width
                        && !seam_in_columns(
                        self.original_indices@,
                        self.width as int,
                        seam.indices@,
                    )
                    &&& err == CarveError::SeamLengthMismatch || err == CarveError::CellNotFound
                },
            },
    {
        let w: usize = self.width;
        let h: usize = self.height();
        let ghost ids = self.original_indices@;
        let ghost path = seam.indices@;
        proof {
            self.lemma_shape();
        }
        if seam.indices.len() != w {
            return Err(CarveError::SeamLengthMismatch);
        }
        let mut rows: Vec<usize> = Vec::with_capacity(w);
        let mut c: usize = 0;
        while c < w
            invariant
                c <= w,
                rows@.len() == c,
                forall|i: int|
                    0 <= i < c ==> #[trigger] rows@[i] < h && at(ids, w as int, rows@[i] as int, i)
                        == path[i],
            decreases w - c,
        {
            let id: usize = seam.indices[c];
            let mut r: usize = 0;
            let mut place: usize = c;
            proof {
                if h > 0 {
                    lemma_cell(w as int, h as int, 0, c as int);
                }
            }
            while r < h && self.original_indices[place] != id
                invariant
                    r <= h,
                    forall|j: int| 0 <= j < r ==> #[trigger] at(ids, w as int, j, c as int) != id,
                    r < h ==> place == r * w + c && place < ids.len(),
                decreases h - r,
            {
                r += 1;
                proof {
                    if r < h {
                        lemma_cell(w as int, h as int, r as int, c as int);
                        assert(r * w + c == place + w) by (nonlinear_arith)
                            requires
                                place == (r - 1) * w + c,
                        ;
                    }
                }
                if r < h {
                    place += w;
                }
            }
            if r == h {
                proof {
                    assert(!in_column(ids, w as int, c as int, path[c as int]));
                }
                return Err(CarveError::CellNotFound);
            }
            rows.push(r);
            c += 1;
        }
        proof {
            assert forall|i: int| 0 <= i < path.len() implies in_column(
                ids,
                w as int,
                i,
                #[trigger] path[i],
            ) && rows@[i] == row_of_id(ids, w as int, i, path[i]) by {
                assert(at(ids, w as int, rows@[i] as int, i) == path[i]);
                let other = row_of_id(ids, w as int, i, path[i]);
                lemma_cell(w as int, h as int, other, i);
                lemma_cell(w as int, h as int, rows@[i] as int, i);
            }
            assert(rows@ =~= rows_of_ids(ids, w as int, path));
            assert(cells_at_rows(ids, w as int, rows@) =~= path);
        }
        Ok(HorizontalSeam { rows })
    }

    /// The vertical seam named by the identifiers of its cells.
    #[verifier::loop_isolation(false)]
    pub fn seam_of_columns(&self, seam: &VerticalSeam) -> (found: Result<Seam, CarveError>)
        requires
            self.wf(),
        ensures
            match found {
                Ok(named) => {
                    &&& places_within(seam.columns@, self.height() as int, self.width as int)
                    &&& named.is_vertical
                    &&& named.indices@ == cells_at_columns(
                        self.original_indices@,
                        self.width as int,
                        seam.columns@,
                    )
                },
                Err(err) => {
                    &&& err == CarveError::SeamLengthMismatch <==> seam.columns@.len()
                        != self.height()
                    &&& err == CarveError::CellNotFound <==> seam.columns@.len() == self.height()
                        && !places_within(seam.columns@, self.height() as int, self.width as int)
                    &&& err == CarveError::SeamLengthMismatch || err == CarveError::CellNotFound
                },
            },
    {
        let w: usize = self.width;
        let h: usize = self.height();
        let ghost ids = self.original_indices@;
        proof {
            self.lemma_shape();
        }
        if seam.columns.len() != h {
            return Err(CarveError::SeamLengthMismatch);
        }
        let mut indices: Vec<usize> = Vec::with_capacity(h);
        let mut r: usize = 0;
        while r < h
            invariant
                r <= h,
                indices@.len() == r,
                forall|i: int|
                    0 <= i < r ==> #[trigger] seam.columns@[i] < w && indices@[i] == ids[i * w
                        + seam.columns@[i]],
            decreases h - r,
        {
            let c: usize = seam.columns[r];
            if c >= w {
                return Err(CarveError::CellNotFound);
            }
            proof {
                lemma_cell(w as int, h as int, r as int, c as int);
            }
            indices.push(self.original_indices[r * w + c]);
            r += 1;
        }
        proof {
            assert(indices@ =~= cells_at_columns(ids, w as int, seam.columns@));
        }
        Ok(Seam { indices, is_vertical: true })
    }

    /// The horizontal seam named by the identifiers of its cells.
    #[verifier::loop_isolation(false)]
    pub fn seam_of_rows(&self, seam: &HorizontalSeam) -> (found: Result<Seam, CarveError>)
        requires
            self.wf(),
        ensures
            match found {
                Ok(named) => {
                    &&& places_within(seam.rows@, self.width as int, self.height() as int)
                    &&& !named.is_vertical
                    &&& named.indices@ == cells_at_rows(
                        self.original_indices@,
                        self.width as int,
                        seam.rows@,
                    )
                },
                Err(err) => {
                    &&& err == CarveError::SeamLengthMismatch <==> seam.rows@.len() != self.width
                    &&& err == CarveError::CellNotFound <==> seam.rows@.len() == self.width
                        && !places_within(seam.rows@, self.width as int, self.height() as int)
                    &&& err == CarveError::SeamLengthMismatch || err == CarveError::CellNotFound
                },
            },
    {
        let w: usize = self.width;
        let h: usize = self.height();
        let ghost ids = self.original_indices@;
        proof {
            self.lemma_shape();
        }
        if seam.rows.len() != w {
            return Err(CarveError::SeamLengthMismatch);
        }
        let mut indices: Vec<usize> = Vec::with_capacity(w);
        let mut c: usize = 0;
        while c < w
            invariant
                c <= w,
                indices@.len() == c,
                forall|i: int|
                    0 <= i < c ==> #[trigger] seam.rows@[i] < h && indices@[i] == ids[seam.rows@[i]
                        * w + i],
            decreases w - c,
        {
            let r: usize = seam.rows[c];
            if r >= h {
                return Err(CarveError::CellNotFound);
            }
            proof {
                lemma_cell(w as int, h as int, r as int, c as int);
            }
            indices.push(self.original_indices[r * w + c]);
            c += 1;
        }
        proof {
            assert(indices@ =~= cells_at_rows(ids, w as int, seam.rows@));
        }
        Ok(Seam { indices, is_vertical: false })
    }
}

} // verus!
