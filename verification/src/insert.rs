//! Putting a seam back into the grid.
//!
//! The cells of the seam come from a source grid that still holds them. Each
//! returns to its line of the grid in front of the first cell of that line
//! which follows it in the source: which stands in a column further right
//! there, for a vertical seam, or in a row further down, for a horizontal
//! one. Cells that the source does not hold follow none. Where no cell of
//! the line follows it, it goes to the end of the line.
//!
//! So a seam returns to the place it was carved from whenever the lines of
//! the grid are in the order of the source: from the grid as it was before
//! the seam was carved, always; from the grid that the carving began with,
//! as long as the seams of one orientation were all carved before those of
//! the other.

use std::collections::HashMap;
use vstd::prelude::*;
use crate::index::{has_no_duplicates, is_index, place_in};
use crate::grid::{
    lemma_cell, lemma_is_grid, lemma_with_columns_distinct, lemma_with_rows_distinct,
    places_within, with_columns, with_rows,
};
use crate::matrix::Matrix;
use crate::seam::{CarveError, Seam};

verus! {

/// Whether every one of `items` occurs in `pool`.
pub open spec fn all_in(items: Seq<usize>, pool: Seq<usize>) -> bool {
    forall|i: int| 0 <= i < items.len() ==> pool.contains(#[trigger] items[i])
}

/// Whether none of `items` occurs in `pool`.
pub open spec fn none_in(items: Seq<usize>, pool: Seq<usize>) -> bool {
    forall|i: int| 0 <= i < items.len() ==> !pool.contains(#[trigger] items[i])
}

/// Whether the source holds the cell `id` in a column right of the column of
/// place `p`.
pub open spec fn follows_in_row(src: Seq<usize>, sw: int, p: int, id: usize) -> bool {
    src.contains(id) && src.index_of(id) % sw > p % sw
}

/// Whether the source holds the cell `id` in a row below the row of place
/// `p`.
pub open spec fn follows_in_column(src: Seq<usize>, sw: int, p: int, id: usize) -> bool {
    src.contains(id) && src.index_of(id) / sw > p / sw
}

/// The first column from `from` on whose cell in row `r` stands right of
/// place `p` in the source, or `w` if there is none.
pub open spec fn first_follower_in_row(
    ids: Seq<usize>,
    w: int,
    r: int,
    src: Seq<usize>,
    sw: int,
    p: int,
    from: int,
) -> int
    decreases w - from,
{
    if from >= w {
        w
    } else if follows_in_row(src, sw, p, ids[r * w + from]) {
        from
    } else {
        first_follower_in_row(ids, w, r, src, sw, p, from + 1)
    }
}

/// The first row from `from` on whose cell in column `c` stands below place
/// `p` in the source, or the number of rows if there is none.
pub open spec fn first_follower_in_column(
    ids: Seq<usize>,
    w: int,
    c: int,
    src: Seq<usize>,
    sw: int,
    p: int,
    from: int,
) -> int
    decreases ids.len() as int / w - from,
{
    if from >= ids.len() as int / w {
        ids.len() as int / w
    } else if follows_in_column(src, sw, p, ids[from * w + c]) {
        from
    } else {
        first_follower_in_column(ids, w, c, src, sw, p, from + 1)
    }
}

/// For each row, the column at which the cell of `path` returns to it.
pub open spec fn insertion_columns(
    ids: Seq<usize>,
    w: int,
    src: Seq<usize>,
    sw: int,
    path: Seq<usize>,
) -> Seq<usize> {
    Seq::new(
        path.len(),
        |r: int| first_follower_in_row(ids, w, r, src, sw, src.index_of(path[r]), 0) as usize,
    )
}

/// For each column, the row at which the cell of `path` returns to it.
pub open spec fn insertion_rows(
    ids: Seq<usize>,
    w: int,
    src: Seq<usize>,
    sw: int,
    path: Seq<usize>,
) -> Seq<usize> {
    Seq::new(
        path.len(),
        |c: int| first_follower_in_column(ids, w, c, src, sw, src.index_of(path[c]), 0) as usize,
    )
}

impl<T: Copy> Matrix<T> {
    /// Why the cells of `path` cannot be put back from `source` into the
    /// `lines` lines of the grid; `None` where they can.
    pub open spec fn insert_fault(&self, path: Seq<usize>, lines: int, source: &Self) -> Option<
        CarveError,
    > {
        if path.len() != lines {
            Some(CarveError::SeamLengthMismatch)
        } else if !all_in(path, source.original_indices@) {
            Some(CarveError::CellNotFound)
        } else if !path.no_duplicates() || !none_in(path, self.original_indices@) {
            Some(CarveError::OriginAlreadyPresent)
        } else {
            None
        }
    }

    /// The values that the cells of `path` have in this grid.
    pub open spec fn values_of(&self, path: Seq<usize>) -> Seq<T> {
        Seq::new(path.len(), |i: int| self.vector@[self.original_indices@.index_of(path[i])])
    }

    /// Whether `after` is this grid with one cell of `path` put back into
    /// each row, with the value it has in `source`.
    pub open spec fn is_restored_in_rows(
        &self,
        path: Seq<usize>,
        source: &Self,
        after: &Self,
    ) -> bool {
        let columns = insertion_columns(
            self.original_indices@,
            self.width as int,
            source.original_indices@,
            source.width as int,
            path,
        );
        &&& after.width == self.width + 1
        &&& after.vector@ == with_columns(
            self.vector@,
            self.width as int,
            columns,
            source.values_of(path),
        )
        &&& after.original_indices@ == with_columns(
            self.original_indices@,
            self.width as int,
            columns,
            path,
        )
    }

    /// Whether `after` is this grid with one cell of `path` put back into
    /// each column, with the value it has in `source`.
    pub open spec fn is_restored_in_columns(
        &self,
        path: Seq<usize>,
        source: &Self,
        after: &Self,
    ) -> bool {
        let rows = insertion_rows(
            self.original_indices@,
            self.width as int,
            source.original_indices@,
            source.width as int,
            path,
        );
        &&& after.width == self.width
        &&& after.vector@ == with_rows(
            self.vector@,
            self.width as int,
            rows,
            source.values_of(path),
        )
        &&& after.original_indices@ == with_rows(
            self.original_indices@,
            self.width as int,
            rows,
            path,
        )
    }

    /// Whether `after` is this grid with the cells of `seam` put back from
    /// `source`: each with the value and the identifier it has there, at the
    /// place in its line that the source gives it.
    pub open spec fn is_restored(&self, seam: &Seam, source: &Self, after: &Self) -> bool {
        if seam.is_vertical {
            self.is_restored_in_rows(seam.indices@, source, after)
        } else {
            self.is_restored_in_columns(seam.indices@, source, after)
        }
    }

    /// For each of `ids`, the place of the cell that has it; `None` where one
    /// of them is the identifier of no cell. `index` is the index of the
    /// grid.
    #[verifier::loop_isolation(false)]
    fn places_of_ids(&self, index: &HashMap<usize, usize>, ids: &Vec<usize>) -> (found: Option<
        Vec<usize>,
    >)
        requires
            self.wf(),
            is_index(index@, self.original_indices@),
        ensures
            match found {
                Some(places) => {
                    &&& all_in(ids@, self.original_indices@)
                    &&& places@.len() == ids@.len()
                    &&& forall|i: int|
                        0 <= i < ids@.len() ==> #[trigger] places@[i]
                            == self.original_indices@.index_of(ids@[i]) && places@[i]
                            < self.vector@.len()
                },
                None => !all_in(ids@, self.original_indices@),
            },
    {
        let mut places: Vec<usize> = Vec::with_capacity(ids.len());
        let mut i: usize = 0;
        while i < ids.len()
            invariant
                i <= ids@.len(),
                places@.len() == i,
                forall|k: int| 0 <= k < i ==> self.original_indices@.contains(#[trigger] ids@[k]),
                forall|k: int|
                    0 <= k < i ==> #[trigger] places@[k] == self.original_indices@.index_of(ids@[k])
                        && places@[k] < self.vector@.len(),
            decreases ids@.len() - i,
        {
            match place_in(index, ids[i]) {
                Some(p) => {
                    proof {
                        assert(self.original_indices@.contains(ids@[i as int]));
                        let q = self.original_indices@.index_of(ids@[i as int]);
                        assert(self.original_indices@[q] == ids@[i as int]);
                    }
                    places.push(p);
                },
                None => {
                    return None;
                },
            }
            i += 1;
        }
        Some(places)
    }

    /// Whether none of `ids` is the identifier of a cell. `index` is the
    /// index of the grid.
    #[verifier::loop_isolation(false)]
    fn holds_none_of(&self, index: &HashMap<usize, usize>, ids: &Vec<usize>) -> (yes: bool)
        requires
            self.wf(),
            is_index(index@, self.original_indices@),
        ensures
            yes == none_in(ids@, self.original_indices@),
    {
        let mut i: usize = 0;
        while i < ids.len()
            invariant
                i <= ids@.len(),
                forall|k: int| 0 <= k < i ==> !self.original_indices@.contains(#[trigger] ids@[k]),
            decreases ids@.len() - i,
        {
            if place_in(index, ids[i]).is_some() {
                assert(self.original_indices@.contains(ids@[i as int]));
                return false;
            }
            i += 1;
        }
        true
    }

    /// Puts `cells[r]`, with the identifier `ids[r]`, into each row `r` at
    /// column `columns[r]`.
    #[verifier::loop_isolation(false)]
    fn put_columns(&mut self, columns: &Vec<usize>, cells: &Vec<T>, ids: &Vec<usize>)
        requires
            old(self).wf(),
            places_within(columns@, old(self).height() as int, old(self).width + 1),
            cells@.len() == old(self).height(),
            ids@.len() == old(self).height(),
            ids@.no_duplicates(),
            none_in(ids@, old(self).original_indices@),
            old(self).width < usize::MAX,
            old(self).vector@.len() + old(self).height() <= usize::MAX,
        ensures
            final(self).wf(),
            final(self).width == old(self).width + 1,
            final(self).height() == old(self).height(),
            final(self).vector@ == with_columns(
                old(self).vector@,
                old(self).width as int,
                columns@,
                cells@,
            ),
            final(self).original_indices@ == with_columns(
                old(self).original_indices@,
                old(self).width as int,
                columns@,
                ids@,
            ),
    {
        let w: usize = self.width;
        let h: usize = self.height();
        let ghost wide: int = w + 1;
        let ghost target = with_columns(self.vector@, w as int, columns@, cells@);
        let ghost names = with_columns(self.original_indices@, w as int, columns@, ids@);
        proof {
            self.lemma_shape();
            assert(h * wide == h * w + h) by (nonlinear_arith)
                requires
                    wide == w + 1,
            ;
        }
        let mut vector: Vec<T> = Vec::with_capacity(self.vector.len() + h);
        let mut original_indices: Vec<usize> = Vec::with_capacity(self.vector.len() + h);
        let mut r: usize = 0;
        while r < h
            invariant
                r <= h,
                vector@.len() == r * wide,
                original_indices@.len() == r * wide,
                forall|k: int| 0 <= k < r * wide ==> #[trigger] vector@[k] == target[k],
                forall|k: int| 0 <= k < r * wide ==> #[trigger] original_indices@[k] == names[k],
            decreases h - r,
        {
            let gap: usize = columns[r];
            proof {
                lemma_cell(w as int, h as int, r as int, 0);
            }
            let base: usize = r * w;
            let mut c: usize = 0;
            while c <= w
                invariant
                    r < h,
                    c <= w + 1,
                    vector@.len() == r * wide + c,
                    original_indices@.len() == r * wide + c,
                    forall|k: int| 0 <= k < r * wide + c ==> #[trigger] vector@[k] == target[k],
                    forall|k: int|
                        0 <= k < r * wide + c ==> #[trigger] original_indices@[k] == names[k],
                decreases w + 1 - c,
            {
                proof {
                    lemma_cell(wide, h as int, r as int, c as int);
                }
                if c < gap {
                    proof {
                        lemma_cell(w as int, h as int, r as int, c as int);
                    }
                    vector.push(self.vector[base + c]);
                    original_indices.push(self.original_indices[base + c]);
                } else if c == gap {
                    vector.push(cells[r]);
                    original_indices.push(ids[r]);
                } else {
                    proof {
                        lemma_cell(w as int, h as int, r as int, c - 1);
                    }
                    vector.push(self.vector[base + c - 1]);
                    original_indices.push(self.original_indices[base + c - 1]);
                }
                c += 1;
            }
            proof {
                assert((r + 1) * wide == r * wide + w + 1) by (nonlinear_arith)
                    requires
                        wide == w + 1,
                ;
            }
            r += 1;
        }
        proof {
            lemma_is_grid(wide, h as int);
            assert(vector@ =~= target);
            assert(original_indices@ =~= names);
            assert forall|i: int, k: int|
                0 <= i < ids@.len() && 0 <= k < self.original_indices@.len() implies ids@[i]
                != self.original_indices@[k] by {
                assert(!self.original_indices@.contains(ids@[i]));
            }
            lemma_with_columns_distinct(self.original_indices@, w as int, columns@, ids@);
        }
        self.width = w + 1;
        self.vector = vector;
        self.original_indices = original_indices;
    }

    /// Puts `cells[c]`, with the identifier `ids[c]`, into each column `c` at
    /// row `rows[c]`.
    #[verifier::loop_isolation(false)]
    fn put_rows(&mut self, rows: &Vec<usize>, cells: &Vec<T>, ids: &Vec<usize>)
        requires
            old(self).wf(),
            places_within(rows@, old(self).width as int, old(self).height() + 1),
            cells@.len() == old(self).width,
            ids@.len() == old(self).width,
            ids@.no_duplicates(),
            none_in(ids@, old(self).original_indices@),
            old(self).vector@.len() + old(self).width <= usize::MAX,
        ensures
            final(self).wf(),
            final(self).width == old(self).width,
            final(self).height() == old(self).height() + 1,
            final(self).vector@ == with_rows(
                old(self).vector@,
                old(self).width as int,
                rows@,
                cells@,
            ),
            final(self).original_indices@ == with_rows(
                old(self).original_indices@,
                old(self).width as int,
                rows@,
                ids@,
            ),
    {
        let w: usize = self.width;
        let h: usize = self.height();
        let ghost target = with_rows(self.vector@, w as int, rows@, cells@);
        let ghost names = with_rows(self.original_indices@, w as int, rows@, ids@);
        proof {
            self.lemma_shape();
            assert((h + 1) * w == h * w + w) by (nonlinear_arith);
        }
        let mut vector: Vec<T> = Vec::with_capacity(self.vector.len() + w);
        let mut original_indices: Vec<usize> = Vec::with_capacity(self.vector.len() + w);
        let mut r: usize = 0;
        while r <= h
            invariant
                r <= h + 1,
                vector@.len() == r * w,
                original_indices@.len() == r * w,
                forall|k: int| 0 <= k < r * w ==> #[trigger] vector@[k] == target[k],
                forall|k: int| 0 <= k < r * w ==> #[trigger] original_indices@[k] == names[k],
            decreases h + 1 - r,
        {
            let mut c: usize = 0;
            while c < w
                invariant
                    r <= h,
                    c <= w,
                    vector@.len() == r * w + c,
                    original_indices@.len() == r * w + c,
                    forall|k: int| 0 <= k < r * w + c ==> #[trigger] vector@[k] == target[k],
                    forall|k: int|
                        0 <= k < r * w + c ==> #[trigger] original_indices@[k] == names[k],
                decreases w - c,
            {
                let gap: usize = rows[c];
                proof {
                    lemma_cell(w as int, h + 1, r as int, c as int);
                }
                if r < gap {
                    proof {
                        lemma_cell(w as int, h as int, r as int, c as int);
                    }
                    vector.push(self.vector[r * w + c]);
                    original_indices.push(self.original_indices[r * w + c]);
                } else if r == gap {
                    vector.push(cells[c]);
                    original_indices.push(ids[c]);
                } else {
                    proof {
                        lemma_cell(w as int, h as int, r - 1, c as int);
                        assert((r - 1) * w + c == r * w + c - w) by (nonlinear_arith);
                    }
                    vector.push(self.vector[(r - 1) * w + c]);
                    original_indices.push(self.original_indices[(r - 1) * w + c]);
                }
                c += 1;
            }
            proof {
                assert((r + 1) * w == r * w + w) by (nonlinear_arith);
            }
            r += 1;
        }
        proof {
            lemma_is_grid(w as int, h + 1);
            assert(vector@ =~= target);
            assert(original_indices@ =~= names);
            assert forall|i: int, k: int|
                0 <= i < ids@.len() && 0 <= k < self.original_indices@.len() implies ids@[i]
                != self.original_indices@[k] by {
                assert(!self.original_indices@.contains(ids@[i]));
            }
            lemma_with_rows_distinct(self.original_indices@, w as int, rows@, ids@);
        }
        self.vector = vector;
        self.original_indices = original_indices;
    }

    /// The values of the cells at `places`.
    #[verifier::loop_isolation(false)]
    fn values_at(&self, places: &Vec<usize>) -> (values: Vec<T>)
        requires
            forall|i: int| 0 <= i < places@.len() ==> #[trigger] places@[i] < self.vector@.len(),
        ensures
            values@.len() == places@.len(),
            forall|i: int|
                0 <= i < places@.len() ==> #[trigger] values@[i] == self.vector@[places@[i] as int],
    {
        let mut values: Vec<T> = Vec::with_capacity(places.len());
        let mut i: usize = 0;
        while i < places.len()
            invariant
                i <= places@.len(),
                values@.len() == i,
                forall|k: int|
                    0 <= k < i ==> #[trigger] values@[k] == self.vector@[places@[k] as int],
            decreases places@.len() - i,
        {
            values.push(self.vector[places[i]]);
            i += 1;
        }
        values
    }

    /// For each row, the column in front of the first cell that stands
    /// right of place `places[r]` in `source`. `index` is the index of
    /// `source`.
    #[verifier::loop_isolation(false)]
    fn plan_columns(
        &self,
        source: &Self,
        index: &HashMap<usize, usize>,
        places: &Vec<usize>,
    ) -> (columns: Vec<usize>)
        requires
            self.wf(),
            source.wf(),
            is_index(index@, source.original_indices@),
            places@.len() == self.height(),
        ensures
            places_within(columns@, self.height() as int, self.width + 1),
            forall|r: int|
                0 <= r < self.height() ==> #[trigger] columns@[r] == first_follower_in_row(
                    self.original_indices@,
                    self.width as int,
                    r,
                    source.original_indices@,
                    source.width as int,
                    places@[r] as int,
                    0,
                ),
    {
        let w: usize = self.width;
        let h: usize = self.height();
        let ghost ids = self.original_indices@;
        let ghost src = source.original_indices@;
        let ghost sw = source.width as int;
        proof {
            self.lemma_shape();
        }
        let mut columns: Vec<usize> = Vec::with_capacity(h);
        let mut r: usize = 0;
        while r < h
            invariant
                r <= h,
                columns@.len() == r,
                forall|i: int|
                    0 <= i < r ==> #[trigger] columns@[i] <= w && columns@[i]
                        == first_follower_in_row(ids, w as int, i, src, sw, places@[i] as int, 0),
            decreases h - r,
        {
            let p: usize = places[r];
            proof {
                lemma_cell(w as int, h as int, r as int, 0);
            }
            let base: usize = r * w;
            let mut c: usize = 0;
            let mut found: bool = false;
            while c < w && !found
                invariant
                    c <= w,
                    first_follower_in_row(ids, w as int, r as int, src, sw, p as int, 0)
                        == first_follower_in_row(
                        ids,
                        w as int,
                        r as int,
                        src,
                        sw,
                        p as int,
                        c as int,
                    ),
                    found ==> c < w && follows_in_row(src, sw, p as int, ids[r * w + c]),
                decreases w - c + if found { 0int } else { 1int },
            {
                proof {
                    lemma_cell(w as int, h as int, r as int, c as int);
                }
                let follows: bool = match place_in(index, self.original_indices[base + c]) {
                    Some(q) => q % source.width > p % source.width,
                    None => false,
                };
                if follows {
                    found = true;
                } else {
                    c += 1;
                }
            }
            columns.push(c);
            r += 1;
        }
        columns
    }

    /// For each column, the row in front of the first cell that stands below
    /// place `places[c]` in `source`. `index` is the index of `source`.
    #[verifier::loop_isolation(false)]
    fn plan_rows(
        &self,
        source: &Self,
        index: &HashMap<usize, usize>,
        places: &Vec<usize>,
    ) -> (rows: Vec<usize>)
        requires
            self.wf(),
            source.wf(),
            is_index(index@, source.original_indices@),
            places@.len() == self.width,
        ensures
            places_within(rows@, self.width as int, self.height() + 1),
            forall|c: int|
                0 <= c < self.width ==> #[trigger] rows@[c] == first_follower_in_column(
                    self.original_indices@,
                    self.width as int,
                    c,
                    source.original_indices@,
                    source.width as int,
                    places@[c] as int,
                    0,
                ),
    {
        let w: usize = self.width;
        let h: usize = self.height();
        let ghost ids = self.original_indices@;
        let ghost src = source.original_indices@;
        let ghost sw = source.width as int;
        proof {
            self.lemma_shape();
        }
        let mut rows: Vec<usize> = Vec::with_capacity(w);
        let mut c: usize = 0;
        while c < w
            invariant
                c <= w,
                rows@.len() == c,
                forall|i: int|
                    0 <= i < c ==> #[trigger] rows@[i] <= h && rows@[i]
                        == first_follower_in_column(
                        ids,
                        w as int,
                        i,
                        src,
                        sw,
                        places@[i] as int,
                        0,
                    ),
            decreases w - c,
        {
            let p: usize = places[c];
            let mut r: usize = 0;
            let mut found: bool = false;
            while r < h && !found
                invariant
                    r <= h,
                    first_follower_in_column(ids, w as int, c as int, src, sw, p as int, 0)
                        == first_follower_in_column(
                        ids,
                        w as int,
                        c as int,
                        src,
                        sw,
                        p as int,
                        r as int,
                    ),
                    found ==> r < h && follows_in_column(src, sw, p as int, ids[r * w + c]),
                decreases h - r + if found { 0int } else { 1int },
            {
                proof {
                    lemma_cell(w as int, h as int, r as int, c as int);
                }
                let follows: bool = match place_in(index, self.original_indices[r * w + c]) {
                    Some(q) => q / source.width > p / source.width,
                    None => false,
                };
                if follows {
                    found = true;
                } else {
                    r += 1;
                }
            }
            rows.push(r);
            c += 1;
        }
        rows
    }

    /// Puts the cells of `seam` back, one into each row, with the values
    /// they have in `source`; `seam` is taken as vertical. The grid gains one
    /// column, and no identifier occurs twice afterwards. On an error the
    /// grid stays as it was.
    pub fn insert_vertical_seam(&mut self, seam: &Seam, source: &Matrix<T>) -> (done: Result<
        (),
        CarveError,
    >)
        requires
            old(self).wf(),
            source.wf(),
            old(self).width < usize::MAX,
            old(self).vector@.len() + old(self).height() <= usize::MAX,
        ensures
            final(self).wf(),
            match done {
                Ok(()) => {
                    &&& old(self).insert_fault(seam.indices@, old(self).height() as int, source)
                        is None
                    &&& old(self).is_restored_in_rows(seam.indices@, source, final(self))
                    &&& final(self).width == old(self).width + 1
                    &&& final(self).height() == old(self).height()
                    &&& final(self).vector@.len() == old(self).vector@.len() + old(self).height()
                },
                Err(err) => {
                    &&& old(self).insert_fault(seam.indices@, old(self).height() as int, source)
                        == Some(err)
                    &&& *final(self) == *old(self)
                },
            },
    {
        let ghost w: int = self.width as int;
        let ghost h: int = self.height() as int;
        proof {
            self.lemma_shape();
        }
        if seam.indices.len() != self.height() {
            return Err(CarveError::SeamLengthMismatch);
        }
        let source_index = source.index();
        let places = match source.places_of_ids(&source_index, &seam.indices) {
            Some(places) => places,
            None => {
                return Err(CarveError::CellNotFound);
            },
        };
        if !has_no_duplicates(&seam.indices) {
            return Err(CarveError::OriginAlreadyPresent);
        }
        let index = self.index();
        if !self.holds_none_of(&index, &seam.indices) {
            return Err(CarveError::OriginAlreadyPresent);
        }
        let columns = self.plan_columns(source, &source_index, &places);
        let cells = source.values_at(&places);
        proof {
            assert(columns@ =~= insertion_columns(
                self.original_indices@,
                w,
                source.original_indices@,
                source.width as int,
                seam.indices@,
            ));
            assert(cells@ =~= source.values_of(seam.indices@));
        }
        self.put_columns(&columns, &cells, &seam.indices);
        proof {
            self.lemma_shape();
            assert(h * (w + 1) == h * w + h) by (nonlinear_arith);
        }
        Ok(())
    }

    /// Puts the cells of `seam` back, one into each column, with the values
    /// they have in `source`; `seam` is taken as horizontal. The grid gains
    /// one row, and no identifier occurs twice afterwards. On an error the
    /// grid stays as it was.
    pub fn insert_horizontal_seam(&mut self, seam: &Seam, source: &Matrix<T>) -> (done: Result<
        (),
        CarveError,
    >)
        requires
            old(self).wf(),
            source.wf(),
            old(self).vector@.len() + old(self).width <= usize::MAX,
        ensures
            final(self).wf(),
            match done {
                Ok(()) => {
                    &&& old(self).insert_fault(seam.indices@, old(self).width as int, source)
                        is None
                    &&& old(self).is_restored_in_columns(seam.indices@, source, final(self))
                    &&& final(self).width == old(self).width
                    &&& final(self).height() == old(self).height() + 1
                    &&& final(self).vector@.len() == old(self).vector@.len() + old(self).width
                },
                Err(err) => {
                    &&& old(self).insert_fault(seam.indices@, old(self).width as int, source)
                        == Some(err)
                    &&& *final(self) == *old(self)
                },
            },
    {
        let ghost w: int = self.width as int;
        let ghost h: int = self.height() as int;
        proof {
            self.lemma_shape();
        }
        if seam.indices.len() != self.width {
            return Err(CarveError::SeamLengthMismatch);
        }
        let source_index = source.index();
        let places = match source.places_of_ids(&source_index, &seam.indices) {
            Some(places) => places,
            None => {
                return Err(CarveError::CellNotFound);
            },
        };
        if !has_no_duplicates(&seam.indices) {
            return Err(CarveError::OriginAlreadyPresent);
        }
        let index = self.index();
        if !self.holds_none_of(&index, &seam.indices) {
            return Err(CarveError::OriginAlreadyPresent);
        }
        let rows = self.plan_rows(source, &source_index, &places);
        let cells = source.values_at(&places);
        proof {
            assert(rows@ =~= insertion_rows(
                self.original_indices@,
                w,
                source.original_indices@,
                source.width as int,
                seam.indices@,
            ));
            assert(cells@ =~= source.values_of(seam.indices@));
        }
        self.put_rows(&rows, &cells, &seam.indices);
        proof {
            self.lemma_shape();
            assert((h + 1) * w == h * w + w) by (nonlinear_arith);
        }
        Ok(())
    }

    /// Puts the cells of `seam` back from `source`: into the rows when the
    /// seam is vertical, into the columns when it is horizontal.
    pub fn insert_seam(&mut self, seam: &Seam, source: &Matrix<T>) -> (done: Result<(), CarveError>)
        requires
            old(self).wf(),
            source.wf(),
            seam.is_vertical ==> old(self).width < usize::MAX,
            seam.is_vertical ==> old(self).vector@.len() + old(self).height() <= usize::MAX,
            !seam.is_vertical ==> old(self).vector@.len() + old(self).width <= usize::MAX,
        ensures
            final(self).wf(),
            match done {
                Ok(()) => {
                    &&& old(self).insert_fault(
                        seam.indices@,
                        if seam.is_vertical {
                            old(self).height() as int
                        } else {
                            old(self).width as int
                        },
                        source,
                    ) is None
                    &&& old(self).is_restored(seam, source, final(self))
                    &&& seam.is_vertical ==> {
                        &&& final(self).width == old(self).width + 1
                        &&& final(self).height() == old(self).height()
                        &&& final(self).vector@.len() == old(self).vector@.len()
                            + old(self).height()
                    }
                    &&& !seam.is_vertical ==> {
                        &&& final(self).width == old(self).width
                        &&& final(self).height() == old(self).height() + 1
                        &&& final(self).vector@.len() == old(self).vector@.len() + old(self).width
                    }
                },
                Err(err) => {
                    &&& old(self).insert_fault(
                        seam.indices@,
                        if seam.is_vertical {
                            old(self).height() as int
                        } else {
                            old(self).width as int
                        },
                        source,
                    ) == Some(err)
                    &&& *final(self) == *old(self)
                },
            },
    {
        if seam.is_vertical {
            self.insert_vertical_seam(seam, source)
        } else {
            self.insert_horizontal_seam(seam, source)
        }
    }
}

} // verus!
