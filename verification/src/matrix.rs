//! The pixel grid: cells in row-major order, each with the identifier it was
//! given when the grid was made.

use vstd::prelude::*;
use vstd::arithmetic::mul::lemma_mul_is_commutative;
use crate::grid::{
    is_grid, lemma_cell, lemma_is_grid, lemma_place, lemma_rows, lemma_transpose_places,
    transpose,
};

verus! {

/// A grid of `width` columns. `vector` holds the cells row by row and
/// `original_indices` holds, at the same place, each cell's identifier.
#[derive(Clone, Debug)]
pub struct Matrix<T> {
    pub width: usize,
    pub vector: Vec<T>,
    pub original_indices: Vec<usize>,
}

impl<T: Copy> Matrix<T> {
    /// The number of rows.
    pub open spec fn spec_height(&self) -> usize {
        (self.vector.len() / self.width) as usize
    }

    /// The number of columns.
    pub open spec fn spec_width(&self) -> usize {
        self.width
    }

    /// The cells are a whole number of rows, every cell has an identifier,
    /// and no identifier occurs twice.
    pub open spec fn wf(&self) -> bool {
        &&& is_grid(self.vector@.len() as int, self.width as int)
        &&& self.original_indices@.len() == self.vector@.len()
        &&& self.original_indices@.no_duplicates()
    }

    /// The cells, each paired with its identifier.
    pub open spec fn cells(&self) -> Seq<(T, usize)> {
        Seq::new(self.vector@.len(), |k: int| (self.vector@[k], self.original_indices@[k]))
    }

    /// The cells fill `height` rows of `width` cells.
    pub proof fn lemma_shape(&self)
        requires
            self.wf(),
        ensures
            self.spec_height() as int == self.vector@.len() as int / self.width as int,
            self.vector@.len() == self.spec_height() * self.width,
    {
        let len = self.vector.len() as int;
        let w = self.width as int;
        lemma_rows(len, w);
        let q = len / w;
        assert(q <= len) by (nonlinear_arith)
            requires
                len == q * w,
                q >= 0,
                w >= 1,
        ;
    }

    /// The number of columns.
    #[verifier::when_used_as_spec(spec_width)]
    pub fn width(&self) -> (w: usize)
        ensures
            w == self.width,
    {
        self.width
    }

    /// The number of rows: the cells that fill whole rows, counted by the
    /// row.
    #[verifier::when_used_as_spec(spec_height)]
    pub fn height(&self) -> (h: usize)
        requires
            self.width > 0,
        ensures
            h == self.spec_height(),
            h == self.vector@.len() as int / self.width as int,
    {
        self.vector.len() / self.width
    }

    /// Makes a grid of the given cells, numbering them in order from zero.
    pub fn new(vector: Vec<T>, width: usize) -> (m: Self)
        ensures
            m.width == width,
            m.vector == vector,
            m.original_indices@ == Seq::new(vector@.len(), |k: int| k as usize),
            m.wf() <==> is_grid(vector@.len() as int, width as int),
    {
        let n: usize = vector.len();
        let mut original_indices: Vec<usize> = Vec::with_capacity(n);
        let mut k: usize = 0;
        while k < n
            invariant
                k <= n,
                original_indices@ == Seq::new(k as nat, |i: int| i as usize),
            decreases n - k,
        {
            original_indices.push(k);
            k += 1;
            assert(original_indices@ =~= Seq::new(k as nat, |i: int| i as usize));
        }
        Matrix { width, vector, original_indices }
    }

    /// The grid with rows and columns exchanged. Every cell keeps its
    /// identifier.
    #[verifier::loop_isolation(false)]
    pub fn transposed(&self) -> (t: Self)
        requires
            self.wf(),
        ensures
            t.width == self.height(),
            t.vector@ == transpose(self.vector@, self.width as int),
            t.original_indices@ == transpose(self.original_indices@, self.width as int),
            self.height() > 0 ==> t.wf() && t.height() == self.width,
    {
        let w: usize = self.width;
        let h: usize = self.height();
        let ghost cells = transpose(self.vector@, w as int);
        let ghost ids = transpose(self.original_indices@, w as int);
        proof {
            self.lemma_shape();
            lemma_mul_is_commutative(w as int, h as int);
        }
        let mut vector: Vec<T> = Vec::with_capacity(self.vector.len());
        let mut original_indices: Vec<usize> = Vec::with_capacity(self.vector.len());
        let mut c: usize = 0;
        while c < w
            invariant
                c <= w,
                vector@.len() == c * h,
                original_indices@.len() == c * h,
                forall|k: int| 0 <= k < c * h ==> #[trigger] vector@[k] == cells[k],
                forall|k: int| 0 <= k < c * h ==> #[trigger] original_indices@[k] == ids[k],
            decreases w - c,
        {
            let mut r: usize = 0;
            while r < h
                invariant
                    c < w,
                    r <= h,
                    vector@.len() == c * h + r,
                    original_indices@.len() == c * h + r,
                    forall|k: int| 0 <= k < c * h + r ==> #[trigger] vector@[k] == cells[k],
                    forall|k: int|
                        0 <= k < c * h + r ==> #[trigger] original_indices@[k] == ids[k],
                decreases h - r,
            {
                proof {
                    lemma_cell(w as int, h as int, r as int, c as int);
                    lemma_cell(h as int, w as int, c as int, r as int);
                }
                let place: usize = r * w + c;
                vector.push(self.vector[place]);
                original_indices.push(self.original_indices[place]);
                r += 1;
            }
            proof {
                assert((c + 1) * h == c * h + h) by (nonlinear_arith);
            }
            c += 1;
        }
        proof {
            assert(vector@ =~= cells);
            assert(original_indices@ =~= ids);
            if h > 0 {
                lemma_is_grid(h as int, w as int);
                assert forall|j: int, k: int|
                    0 <= j < ids.len() && 0 <= k < ids.len() && j != k implies ids[j]
                    != ids[k] by {
                    lemma_place(h as int, w as int, j);
                    lemma_place(h as int, w as int, k);
                    lemma_cell(w as int, h as int, j % (h as int), j / (h as int));
                    lemma_cell(w as int, h as int, k % (h as int), k / (h as int));
                    if (j % (h as int)) * w + j / (h as int) == (k % (h as int)) * w + k / (
                    h as int) {
                        lemma_transpose_places(w as int, h as int, j, k);
                    }
                }
            }
        }
        Matrix { width: h, vector, original_indices }
    }

    /// The cells of the transposed grid are the cells of the grid with rows
    /// and columns exchanged.
    pub proof fn lemma_transposed_cells(&self, turned: &Self)
        requires
            self.wf(),
            self.height() > 0,
            turned.vector@ == transpose(self.vector@, self.width as int),
            turned.original_indices@ == transpose(self.original_indices@, self.width as int),
        ensures
            turned.cells() == transpose(self.cells(), self.width as int),
    {
        let w = self.width as int;
        let h = self.height() as int;
        self.lemma_shape();
        lemma_mul_is_commutative(w, h);
        assert forall|k: int| 0 <= k < self.vector@.len() implies turned.cells()[k] == transpose(
            self.cells(),
            w,
        )[k] by {
            lemma_place(h, w, k);
            lemma_cell(w, h, k % h, k / h);
        }
        assert(turned.cells() =~= transpose(self.cells(), w));
    }

    /// Whether the two grids have the same width, cells and identifiers.
    pub open spec fn same_as(&self, other: &Self) -> bool {
        &&& self.width == other.width
        &&& self.vector@ == other.vector@
        &&& self.original_indices@ == other.original_indices@
    }

    /// A grid with the same width, cells and identifiers.
    pub fn duplicate(&self) -> (copy: Self)
        ensures
            copy.same_as(self),
    {
        let n: usize = self.vector.len();
        let m: usize = self.original_indices.len();
        let mut vector: Vec<T> = Vec::with_capacity(n);
        let mut original_indices: Vec<usize> = Vec::with_capacity(m);
        let mut k: usize = 0;
        while k < n
            invariant
                n == self.vector@.len(),
                k <= n,
                vector@ == self.vector@.subrange(0, k as int),
            decreases n - k,
        {
            vector.push(self.vector[k]);
            k += 1;
            assert(vector@ =~= self.vector@.subrange(0, k as int));
        }
        k = 0;
        while k < m
            invariant
                m == self.original_indices@.len(),
                k <= m,
                original_indices@ == self.original_indices@.subrange(0, k as int),
            decreases m - k,
        {
            original_indices.push(self.original_indices[k]);
            k += 1;
            assert(original_indices@ =~= self.original_indices@.subrange(0, k as int));
        }
        assert(vector@ =~= self.vector@);
        assert(original_indices@ =~= self.original_indices@);
        Matrix { width: self.width, vector, original_indices }
    }
}

} // verus!
