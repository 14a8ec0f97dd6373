//! Index arithmetic of a grid stored row by row in one sequence.

use vstd::prelude::*;
use vstd::arithmetic::div_mod::{lemma_fundamental_div_mod, lemma_fundamental_div_mod_converse};
use vstd::arithmetic::mul::lemma_mul_is_commutative;

verus! {

/// Whether a sequence of `len` cells is a whole number of rows of `w` cells.
pub open spec fn is_grid(len: int, w: int) -> bool {
    w > 0 && len >= 0 && len % w == 0
}

/// The cell in row `r` and column `c` of the grid `s` of width `w`.
pub open spec fn at<A>(s: Seq<A>, w: int, r: int, c: int) -> A {
    s[r * w + c]
}

/// Row `r` of the grid `s` of width `w`.
pub open spec fn row_of<A>(s: Seq<A>, w: int, r: int) -> Seq<A> {
    Seq::new(w as nat, |c: int| s[r * w + c])
}

/// The place of row `r`, column `c` lies inside the grid, and dividing it
/// by the width gives the row and the column back.
pub proof fn lemma_cell(w: int, h: int, r: int, c: int)
    requires
        0 <= r < h,
        0 <= c < w,
    ensures
        0 <= r * w + c < h * w,
        (r * w + c) / w == r,
        (r * w + c) % w == c,
{
    lemma_fundamental_div_mod_converse(r * w + c, w, r, c);
    assert(r * w >= 0) by (nonlinear_arith)
        requires r >= 0, w > 0;
    assert((r + 1) * w <= h * w) by (nonlinear_arith)
        requires r + 1 <= h, w > 0;
    assert((r + 1) * w == r * w + w) by (nonlinear_arith);
}

/// Every place `k` of a grid is the place of one row and one column.
pub proof fn lemma_place(w: int, h: int, k: int)
    requires
        w > 0,
        0 <= k < h * w,
    ensures
        0 <= k / w < h,
        0 <= k % w < w,
        k == (k / w) * w + k % w,
{
    lemma_fundamental_div_mod(k, w);
    lemma_mul_is_commutative(w, k / w);
    let q = k / w;
    assert(0 <= k % w < w);
    assert(q >= 0) by (nonlinear_arith)
        requires k == q * w + k % w, k >= 0, k % w < w, w > 0;
    assert(q < h) by (nonlinear_arith)
        requires k == q * w + k % w, k < h * w, k % w >= 0, w > 0;
}

/// A grid of `len` cells has `len / w` full rows.
pub proof fn lemma_rows(len: int, w: int)
    requires
        is_grid(len, w),
    ensures
        len == (len / w) * w,
        len / w >= 0,
{
    lemma_fundamental_div_mod(len, w);
    lemma_mul_is_commutative(w, len / w);
    let q = len / w;
    assert(q >= 0) by (nonlinear_arith)
        requires len == q * w, len >= 0, w > 0;
}

/// The grid `s` of width `w` with rows and columns exchanged: a grid whose
/// width is the height of `s`.
pub open spec fn transpose<A>(s: Seq<A>, w: int) -> Seq<A> {
    let h = s.len() as int / w;
    Seq::new(s.len(), |k: int| s[(k % h) * w + k / h])
}

/// The cell in row `c` and column `r` of the transposed grid is the cell in
/// row `r` and column `c` of the grid.
pub proof fn lemma_transpose_at<A>(s: Seq<A>, w: int, r: int, c: int)
    requires
        is_grid(s.len() as int, w),
        0 <= r < s.len() as int / w,
        0 <= c < w,
    ensures
        0 <= c * (s.len() as int / w) + r < s.len(),
        transpose(s, w)[c * (s.len() as int / w) + r] == s[r * w + c],
{
    let h = s.len() as int / w;
    lemma_rows(s.len() as int, w);
    lemma_cell(h, w, c, r);
    lemma_mul_is_commutative(h, w);
}

/// Exchanging rows and columns moves no two cells to one place.
pub proof fn lemma_transpose_places(w: int, h: int, j: int, k: int)
    requires
        w > 0,
        h > 0,
        0 <= j < w * h,
        0 <= k < w * h,
        (j % h) * w + j / h == (k % h) * w + k / h,
    ensures
        j == k,
{
    lemma_place(h, w, j);
    lemma_place(h, w, k);
    lemma_cell(w, h, j % h, j / h);
    lemma_cell(w, h, k % h, k / h);
}

/// Where the cell at place `c` of a line comes from once the cell at place
/// `gap` has left the line.
pub open spec fn past(c: int, gap: int) -> int {
    if c < gap {
        c
    } else {
        c + 1
    }
}

/// The grid `s` of width `w` without the cell at column `columns[r]` of each
/// row `r`: a grid of width `w - 1`.
pub open spec fn without_columns<A>(s: Seq<A>, w: int, columns: Seq<usize>) -> Seq<A> {
    Seq::new(
        ((s.len() as int / w) * (w - 1)) as nat,
        |k: int| s[(k / (w - 1)) * w + past(k % (w - 1), columns[k / (w - 1)] as int)],
    )
}

/// The grid `s` of width `w` without the cell at row `rows[c]` of each
/// column `c`: a grid with one row less.
pub open spec fn without_rows<A>(s: Seq<A>, w: int, rows: Seq<usize>) -> Seq<A> {
    Seq::new((s.len() - w) as nat, |k: int| s[past(k / w, rows[k % w] as int) * w + k % w])
}

/// The grid `s` of width `w` with `items[r]` put into each row `r` at column
/// `columns[r]`: a grid of width `w + 1`.
pub open spec fn with_columns<A>(s: Seq<A>, w: int, columns: Seq<usize>, items: Seq<A>) -> Seq<A> {
    Seq::new(
        ((s.len() as int / w) * (w + 1)) as nat,
        |k: int|
            {
                let r = k / (w + 1);
                let c = k % (w + 1);
                if c < columns[r] {
                    s[r * w + c]
                } else if c == columns[r] {
                    items[r]
                } else {
                    s[r * w + c - 1]
                }
            },
    )
}

/// The grid `s` of width `w` with `items[c]` put into each column `c` at row
/// `rows[c]`: a grid with one row more.
pub open spec fn with_rows<A>(s: Seq<A>, w: int, rows: Seq<usize>, items: Seq<A>) -> Seq<A> {
    Seq::new(
        (s.len() + w) as nat,
        |k: int|
            {
                let r = k / w;
                let c = k % w;
                if r < rows[c] {
                    s[k]
                } else if r == rows[c] {
                    items[c]
                } else {
                    s[k - w]
                }
            },
    )
}

/// The cells at column `columns[r]` of each row `r`.
pub open spec fn cells_at_columns<A>(s: Seq<A>, w: int, columns: Seq<usize>) -> Seq<A> {
    Seq::new(columns.len(), |r: int| s[r * w + columns[r]])
}

/// The cells at row `rows[c]` of each column `c`.
pub open spec fn cells_at_rows<A>(s: Seq<A>, w: int, rows: Seq<usize>) -> Seq<A> {
    Seq::new(rows.len(), |c: int| s[rows[c] * w + c])
}

/// Whether `places` names one place below `limit` for each of `lines` lines.
pub open spec fn places_within(places: Seq<usize>, lines: int, limit: int) -> bool {
    places.len() == lines && forall|i: int| 0 <= i < lines ==> #[trigger] places[i] < limit
}

/// A grid of `h` rows of `w` cells is a grid of `h * w` cells.
pub proof fn lemma_is_grid(w: int, h: int)
    requires
        w > 0,
        h >= 0,
    ensures
        is_grid(h * w, w),
        (h * w) / w == h,
{
    lemma_fundamental_div_mod_converse(h * w, w, h, 0);
    assert(h * w >= 0) by (nonlinear_arith)
        requires
            h >= 0,
            w > 0,
    ;
}

/// Taking one cell from every row of a grid in which no cell occurs twice
/// leaves a grid in which no cell occurs twice.
pub proof fn lemma_without_columns_distinct<A>(s: Seq<A>, w: int, columns: Seq<usize>)
    requires
        is_grid(s.len() as int, w),
        w >= 2,
        places_within(columns, s.len() as int / w, w),
        s.no_duplicates(),
    ensures
        without_columns(s, w, columns).no_duplicates(),
{
    let h = s.len() as int / w;
    let t = without_columns(s, w, columns);
    lemma_rows(s.len() as int, w);
    assert forall|j: int, k: int| 0 <= j < t.len() && 0 <= k < t.len() && j != k implies t[j]
        != t[k] by {
        lemma_place(w - 1, h, j);
        lemma_place(w - 1, h, k);
        let rj = j / (w - 1);
        let rk = k / (w - 1);
        let cj = past(j % (w - 1), columns[rj] as int);
        let ck = past(k % (w - 1), columns[rk] as int);
        lemma_cell(w, h, rj, cj);
        lemma_cell(w, h, rk, ck);
        assert(rj * w + cj != rk * w + ck);
    }
}

/// Taking one cell from every column of a grid in which no cell occurs
/// twice leaves a grid in which no cell occurs twice.
pub proof fn lemma_without_rows_distinct<A>(s: Seq<A>, w: int, rows: Seq<usize>)
    requires
        is_grid(s.len() as int, w),
        s.len() as int / w >= 1,
        places_within(rows, w, s.len() as int / w),
        s.no_duplicates(),
    ensures
        without_rows(s, w, rows).no_duplicates(),
{
    let h = s.len() as int / w;
    let t = without_rows(s, w, rows);
    lemma_rows(s.len() as int, w);
    assert((h - 1) * w == h * w - w) by (nonlinear_arith);
    assert forall|j: int, k: int| 0 <= j < t.len() && 0 <= k < t.len() && j != k implies t[j]
        != t[k] by {
        lemma_place(w, h - 1, j);
        lemma_place(w, h - 1, k);
        let rj = past(j / w, rows[j % w] as int);
        let rk = past(k / w, rows[k % w] as int);
        lemma_cell(w, h, rj, j % w);
        lemma_cell(w, h, rk, k % w);
        assert(rj * w + j % w != rk * w + k % w);
    }
}

/// Putting one new cell into every row of a grid in which no cell occurs
/// twice gives a grid in which no cell occurs twice, if the new cells differ
/// from each other and from the cells of the grid.
pub proof fn lemma_with_columns_distinct<A>(s: Seq<A>, w: int, columns: Seq<usize>, items: Seq<A>)
    requires
        is_grid(s.len() as int, w),
        places_within(columns, s.len() as int / w, w + 1),
        items.len() == s.len() as int / w,
        s.no_duplicates(),
        items.no_duplicates(),
        forall|i: int, k: int| 0 <= i < items.len() && 0 <= k < s.len() ==> items[i] != s[k],
    ensures
        with_columns(s, w, columns, items).no_duplicates(),
{
    let h = s.len() as int / w;
    let t = with_columns(s, w, columns, items);
    lemma_rows(s.len() as int, w);
    assert forall|j: int, k: int| 0 <= j < t.len() && 0 <= k < t.len() && j != k implies t[j]
        != t[k] by {
        lemma_place(w + 1, h, j);
        lemma_place(w + 1, h, k);
        let rj = j / (w + 1);
        let rk = k / (w + 1);
        let cj = j % (w + 1);
        let ck = k % (w + 1);
        if cj < columns[rj] {
            lemma_cell(w, h, rj, cj);
        } else if cj > columns[rj] {
            lemma_cell(w, h, rj, cj - 1);
        }
        if ck < columns[rk] {
            lemma_cell(w, h, rk, ck);
        } else if ck > columns[rk] {
            lemma_cell(w, h, rk, ck - 1);
        }
    }
}

/// Putting one new cell into every column of a grid in which no cell occurs
/// twice gives a grid in which no cell occurs twice, if the new cells differ
/// from each other and from the cells of the grid.
pub proof fn lemma_with_rows_distinct<A>(s: Seq<A>, w: int, rows: Seq<usize>, items: Seq<A>)
    requires
        is_grid(s.len() as int, w),
        places_within(rows, w, s.len() as int / w + 1),
        items.len() == w,
        s.no_duplicates(),
        items.no_duplicates(),
        forall|i: int, k: int| 0 <= i < items.len() && 0 <= k < s.len() ==> items[i] != s[k],
    ensures
        with_rows(s, w, rows, items).no_duplicates(),
{
    let h = s.len() as int / w;
    let t = with_rows(s, w, rows, items);
    lemma_rows(s.len() as int, w);
    assert((h + 1) * w == h * w + w) by (nonlinear_arith);
    assert forall|j: int, k: int| 0 <= j < t.len() && 0 <= k < t.len() && j != k implies t[j]
        != t[k] by {
        lemma_place(w, h + 1, j);
        lemma_place(w, h + 1, k);
        let rj = j / w;
        let rk = k / w;
        let cj = j % w;
        let ck = k % w;
        if rj < rows[cj] {
            lemma_cell(w, h, rj, cj);
        } else if rj > rows[cj] {
            lemma_cell(w, h, rj - 1, cj);
            assert((rj - 1) * w + cj == j - w) by (nonlinear_arith)
                requires
                    j == rj * w + cj,
            ;
        }
        if rk < rows[ck] {
            lemma_cell(w, h, rk, ck);
        } else if rk > rows[ck] {
            lemma_cell(w, h, rk - 1, ck);
            assert((rk - 1) * w + ck == k - w) by (nonlinear_arith)
                requires
                    k == rk * w + ck,
            ;
        }
    }
}

/// Putting back into every row the cell that was taken from it, at the
/// column it was taken from, gives the grid back.
pub proof fn lemma_columns_round_trip<A>(s: Seq<A>, w: int, columns: Seq<usize>)
    requires
        is_grid(s.len() as int, w),
        w >= 2,
        places_within(columns, s.len() as int / w, w),
    ensures
        with_columns(
            without_columns(s, w, columns),
            w - 1,
            columns,
            cells_at_columns(s, w, columns),
        ) == s,
{
    let h = s.len() as int / w;
    let t = without_columns(s, w, columns);
    let u = with_columns(t, w - 1, columns, cells_at_columns(s, w, columns));
    lemma_rows(s.len() as int, w);
    lemma_is_grid(w - 1, h);
    assert forall|k: int| 0 <= k < s.len() implies u[k] == s[k] by {
        lemma_place(w, h, k);
        let r = k / w;
        let c = k % w;
        if c < columns[r] {
            lemma_cell(w - 1, h, r, c);
        } else if c > columns[r] {
            lemma_cell(w - 1, h, r, c - 1);
        }
    }
    assert(u =~= s);
}

/// Putting back into every column the cell that was taken from it, at the
/// row it was taken from, gives the grid back.
pub proof fn lemma_rows_round_trip<A>(s: Seq<A>, w: int, rows: Seq<usize>)
    requires
        is_grid(s.len() as int, w),
        s.len() as int / w >= 1,
        places_within(rows, w, s.len() as int / w),
    ensures
        with_rows(without_rows(s, w, rows), w, rows, cells_at_rows(s, w, rows)) == s,
{
    let h = s.len() as int / w;
    let t = without_rows(s, w, rows);
    let u = with_rows(t, w, rows, cells_at_rows(s, w, rows));
    lemma_rows(s.len() as int, w);
    assert((h - 1) * w == h * w - w) by (nonlinear_arith);
    assert forall|k: int| 0 <= k < s.len() implies u[k] == s[k] by {
        lemma_place(w, h, k);
        let r = k / w;
        let c = k % w;
        if r < rows[c] {
            lemma_cell(w, h - 1, r, c);
        } else if r > rows[c] {
            lemma_cell(w, h - 1, r - 1, c);
            assert((r - 1) * w + c == k - w) by (nonlinear_arith)
                requires
                    k == r * w + c,
            ;
            assert(past(r - 1, rows[c] as int) == r);
        }
    }
    assert(u =~= s);
}

/// Exchanging rows and columns twice gives the grid back.
pub proof fn lemma_transpose_twice<A>(s: Seq<A>, w: int)
    requires
        is_grid(s.len() as int, w),
        s.len() > 0,
    ensures
        transpose(transpose(s, w), s.len() as int / w) == s,
{
    let h = s.len() as int / w;
    let t = transpose(s, w);
    lemma_rows(s.len() as int, w);
    assert(h > 0) by (nonlinear_arith)
        requires
            s.len() == h * w,
            s.len() > 0,
            w > 0,
    ;
    lemma_mul_is_commutative(h, w);
    lemma_is_grid(h, w);
    assert forall|k: int| 0 <= k < s.len() implies transpose(t, h)[k] == s[k] by {
        lemma_place(w, h, k);
        lemma_cell(h, w, k % w, k / w);
    }
    assert(transpose(t, h) =~= s);
}

/// A grid with rows and columns exchanged is a grid as wide as the grid is
/// high.
pub proof fn lemma_turned<A>(s: Seq<A>, w: int)
    requires
        is_grid(s.len() as int, w),
        s.len() > 0,
    ensures
        is_grid(transpose(s, w).len() as int, s.len() as int / w),
        transpose(s, w).len() as int / (s.len() as int / w) == w,
{
    let h = s.len() as int / w;
    lemma_rows(s.len() as int, w);
    assert(h > 0) by (nonlinear_arith)
        requires
            s.len() == h * w,
            s.len() > 0,
            w > 0,
    ;
    lemma_is_grid(h, w);
    assert(w * h == h * w) by (nonlinear_arith);
}

} // verus!
