//! Carving a seam and putting it back undo each other.

use vstd::prelude::*;
use crate::grid::{
    at, cells_at_columns, cells_at_rows, is_grid, lemma_cell, lemma_columns_round_trip,
    lemma_is_grid, lemma_place, lemma_rows, lemma_rows_round_trip,
    lemma_without_columns_distinct, lemma_without_rows_distinct, past, places_within,
    without_columns, without_rows,
};
use crate::insert::{
    all_in, first_follower_in_column, first_follower_in_row, insertion_columns, insertion_rows,
};
use crate::locate::{
    column_of_id, columns_of_ids, in_column, in_row, row_of_id, rows_of_ids, seam_in_columns,
    seam_in_rows,
};
use crate::matrix::Matrix;
use crate::seam::Seam;

verus! {

/// Where every cell of `path` is found in its row, the columns found lie
/// inside the grid and hold those cells, and each cell has no other place.
pub proof fn lemma_columns_of_ids(ids: Seq<usize>, w: int, path: Seq<usize>)
    requires
        is_grid(ids.len() as int, w),
        w <= usize::MAX,
        ids.no_duplicates(),
        path.len() == ids.len() as int / w,
        seam_in_rows(ids, w, path),
    ensures
        places_within(columns_of_ids(ids, w, path), path.len() as int, w),
        cells_at_columns(ids, w, columns_of_ids(ids, w, path)) == path,
        forall|r: int|
            0 <= r < path.len() ==> ids.index_of(#[trigger] path[r]) == r * w + columns_of_ids(
                ids,
                w,
                path,
            )[r],
        all_in(path, ids),
        path.no_duplicates(),
{
    let h = ids.len() as int / w;
    let cols = columns_of_ids(ids, w, path);
    lemma_rows(ids.len() as int, w);
    assert forall|r: int| 0 <= r < h implies #[trigger] cols[r] < w && ids[r * w + cols[r]]
        == path[r] && ids.index_of(path[r]) == r * w + cols[r] && ids.contains(path[r]) by {
        assert(in_row(ids, w, r, path[r]));
        let c = column_of_id(ids, w, r, path[r]);
        assert(at(ids, w, r, c) == path[r]);
        lemma_cell(w, h, r, c);
        let p = ids.index_of(path[r]);
        assert(ids[r * w + c] == path[r]);
    }
    assert(cells_at_columns(ids, w, cols) =~= path);
    assert forall|i: int, j: int| 0 <= i < h && 0 <= j < h && i != j implies path[i]
        != path[j] by {
        lemma_cell(w, h, i, cols[i] as int);
        lemma_cell(w, h, j, cols[j] as int);
        assert(cols[i] < w && cols[j] < w);
    }
}

/// Where every cell of `path` is found in its column, the rows found lie
/// inside the grid and hold those cells, and each cell has no other place.
pub proof fn lemma_rows_of_ids(ids: Seq<usize>, w: int, path: Seq<usize>)
    requires
        is_grid(ids.len() as int, w),
        ids.len() <= usize::MAX,
        ids.no_duplicates(),
        path.len() == w,
        seam_in_columns(ids, w, path),
    ensures
        places_within(rows_of_ids(ids, w, path), w, ids.len() as int / w),
        cells_at_rows(ids, w, rows_of_ids(ids, w, path)) == path,
        forall|c: int|
            0 <= c < path.len() ==> ids.index_of(#[trigger] path[c]) == rows_of_ids(
                ids,
                w,
                path,
            )[c] * w + c,
        all_in(path, ids),
        path.no_duplicates(),
{
    let h = ids.len() as int / w;
    let rows = rows_of_ids(ids, w, path);
    lemma_rows(ids.len() as int, w);
    assert forall|c: int| 0 <= c < w implies #[trigger] rows[c] < h && ids[rows[c] * w + c]
        == path[c] && ids.index_of(path[c]) == rows[c] * w + c && ids.contains(path[c]) by {
        assert(in_column(ids, w, c, path[c]));
        let r = row_of_id(ids, w, c, path[c]);
        assert(at(ids, w, r, c) == path[c]);
        lemma_cell(w, h, r, c);
        assert(r <= ids.len()) by (nonlinear_arith)
            requires
                r < h,
                ids.len() == h * w,
                w >= 1,
                r >= 0,
        ;
        let p = ids.index_of(path[c]);
        assert(ids[r * w + c] == path[c]);
    }
    assert(cells_at_rows(ids, w, rows) =~= path);
    assert forall|i: int, j: int| 0 <= i < w && 0 <= j < w && i != j implies path[i]
        != path[j] by {
        lemma_cell(w, h, rows[i] as int, i);
        lemma_cell(w, h, rows[j] as int, j);
        assert(rows[i] < h && rows[j] < h);
    }
}

/// A seam named by the identifiers of the cells at `places`, one in each
/// line, can be carved from a grid that has more than one cell across, and
/// carving it takes the cells at those places.
pub proof fn lemma_named_seam_can_be_carved<T: Copy>(m: Matrix<T>, places: Seq<usize>, seam: Seam)
    requires
        m.wf(),
        seam.is_vertical ==> m.width > 1 && places_within(
            places,
            m.height() as int,
            m.width as int,
        ) && seam.indices@ == cells_at_columns(m.original_indices@, m.width as int, places),
        !seam.is_vertical ==> m.height() > 1 && places_within(
            places,
            m.width as int,
            m.height() as int,
        ) && seam.indices@ == cells_at_rows(m.original_indices@, m.width as int, places),
    ensures
        m.carve_fault(&seam) is None,
        seam.is_vertical ==> columns_of_ids(m.original_indices@, m.width as int, seam.indices@)
            == places,
        !seam.is_vertical ==> rows_of_ids(m.original_indices@, m.width as int, seam.indices@)
            == places,
{
    let w = m.width as int;
    let h = m.height() as int;
    let ids = m.original_indices@;
    let path = seam.indices@;
    m.lemma_shape();
    if seam.is_vertical {
        assert forall|r: int| 0 <= r < path.len() implies in_row(ids, w, r, #[trigger] path[r]) by {
            assert(at(ids, w, r, places[r] as int) == path[r]);
        }
        lemma_columns_of_ids(ids, w, path);
        let found = columns_of_ids(ids, w, path);
        assert forall|r: int| 0 <= r < h implies found[r] == places[r] by {
            lemma_cell(w, h, r, found[r] as int);
            lemma_cell(w, h, r, places[r] as int);
            assert(cells_at_columns(ids, w, found)[r] == path[r]);
        }
        assert(found =~= places);
    } else {
        assert forall|c: int| 0 <= c < path.len() implies in_column(
            ids,
            w,
            c,
            #[trigger] path[c],
        ) by {
            assert(at(ids, w, places[c] as int, c) == path[c]);
        }
        lemma_rows_of_ids(ids, w, path);
        let found = rows_of_ids(ids, w, path);
        assert forall|c: int| 0 <= c < w implies found[c] == places[c] by {
            lemma_cell(w, h, found[c] as int, c);
            lemma_cell(w, h, places[c] as int, c);
            assert(cells_at_rows(ids, w, found)[c] == path[c]);
        }
        assert(found =~= places);
    }
}

/// Whether the source holds every cell of the grid and the cells of each
/// row stand, from left to right, in columns further and further right in
/// the source.
pub open spec fn rows_follow(ids: Seq<usize>, w: int, src: Seq<usize>, sw: int) -> bool {
    &&& all_in(ids, src)
    &&& forall|r: int, c: int, d: int|
        0 <= r < ids.len() as int / w && 0 <= c < d < w ==> src.index_of(
            #[trigger] at(ids, w, r, c),
        ) % sw < src.index_of(#[trigger] at(ids, w, r, d)) % sw
}

/// Whether the source holds every cell of the grid and the cells of each
/// column stand, from top to bottom, in rows further and further down in
/// the source.
pub open spec fn columns_follow(ids: Seq<usize>, w: int, src: Seq<usize>, sw: int) -> bool {
    &&& all_in(ids, src)
    &&& forall|c: int, r: int, q: int|
        0 <= c < w && 0 <= r < q < ids.len() as int / w ==> src.index_of(
            #[trigger] at(ids, w, r, c),
        ) / sw < src.index_of(#[trigger] at(ids, w, q, c)) / sw
}

/// Whether the source holds every cell of the grid in the row in which the
/// grid holds it.
pub open spec fn rows_kept(ids: Seq<usize>, w: int, src: Seq<usize>, sw: int) -> bool {
    &&& all_in(ids, src)
    &&& forall|r: int, c: int|
        0 <= r < ids.len() as int / w && 0 <= c < w ==> src.index_of(#[trigger] at(ids, w, r, c))
            / sw == r
}

/// Whether the source holds every cell of the grid in the column in which
/// the grid holds it.
pub open spec fn columns_kept(ids: Seq<usize>, w: int, src: Seq<usize>, sw: int) -> bool {
    &&& all_in(ids, src)
    &&& forall|r: int, c: int|
        0 <= r < ids.len() as int / w && 0 <= c < w ==> src.index_of(#[trigger] at(ids, w, r, c))
            % sw == c
}

/// Whether the source holds every cell of the grid `m`, with the value it
/// has in `m`.
pub open spec fn agrees<T>(m: &Matrix<T>, source: &Matrix<T>) -> bool {
    &&& all_in(m.original_indices@, source.original_indices@)
    &&& forall|k: int|
        0 <= k < m.original_indices@.len() ==> m.vector@[k]
            == source.vector@[source.original_indices@.index_of(#[trigger] m.original_indices@[k])]
}

/// A grid holds its own cells with their own values, and the cells of its
/// rows and columns stand in its own order.
pub proof fn lemma_own_order<T: Copy>(m: &Matrix<T>)
    requires
        m.wf(),
    ensures
        agrees(m, m),
        rows_follow(m.original_indices@, m.width as int, m.original_indices@, m.width as int),
        columns_follow(m.original_indices@, m.width as int, m.original_indices@, m.width as int),
        rows_kept(m.original_indices@, m.width as int, m.original_indices@, m.width as int),
        columns_kept(m.original_indices@, m.width as int, m.original_indices@, m.width as int),
{
    let ids = m.original_indices@;
    let w = m.width as int;
    let h = m.height() as int;
    m.lemma_shape();
    assert forall|k: int| 0 <= k < ids.len() implies ids.contains(#[trigger] ids[k])
        && ids.index_of(ids[k]) == k by {
        let p = ids.index_of(ids[k]);
    }
    assert forall|r: int, c: int| 0 <= r < h && 0 <= c < w implies ids.index_of(
        #[trigger] at(ids, w, r, c),
    ) == r * w + c by {
        lemma_cell(w, h, r, c);
        assert(ids.index_of(ids[r * w + c]) == r * w + c);
    }
    assert forall|r: int, c: int, d: int| 0 <= r < h && 0 <= c < d < w implies ids.index_of(
        #[trigger] at(ids, w, r, c),
    ) % w < ids.index_of(#[trigger] at(ids, w, r, d)) % w by {
        lemma_cell(w, h, r, c);
        lemma_cell(w, h, r, d);
    }
    assert forall|c: int, r: int, q: int| 0 <= c < w && 0 <= r < q < h implies ids.index_of(
        #[trigger] at(ids, w, r, c),
    ) / w < ids.index_of(#[trigger] at(ids, w, q, c)) / w by {
        lemma_cell(w, h, r, c);
        lemma_cell(w, h, q, c);
    }
    assert forall|r: int, c: int| 0 <= r < h && 0 <= c < w implies ids.index_of(
        #[trigger] at(ids, w, r, c),
    ) / w == r && ids.index_of(at(ids, w, r, c)) % w == c by {
        lemma_cell(w, h, r, c);
    }
}

/// Where every cell is in the row in which the source holds it, the cells
/// of each column stand in the order of the source; and likewise for the
/// columns and the cells of each row.
pub proof fn lemma_kept_lines_follow(ids: Seq<usize>, w: int, src: Seq<usize>, sw: int)
    ensures
        rows_kept(ids, w, src, sw) ==> columns_follow(ids, w, src, sw),
        columns_kept(ids, w, src, sw) ==> rows_follow(ids, w, src, sw),
{
}

/// Carving a vertical seam leaves every cell in its row, and carving a
/// horizontal seam leaves every cell in its column.
pub proof fn lemma_carve_keeps_lines(
    ids: Seq<usize>,
    w: int,
    places: Seq<usize>,
    src: Seq<usize>,
    sw: int,
)
    requires
        is_grid(ids.len() as int, w),
    ensures
        w >= 2 && places_within(places, ids.len() as int / w, w) && rows_kept(ids, w, src, sw)
            ==> rows_kept(without_columns(ids, w, places), w - 1, src, sw),
        ids.len() as int / w >= 1 && places_within(places, w, ids.len() as int / w)
            && columns_kept(ids, w, src, sw) ==> columns_kept(
            without_rows(ids, w, places),
            w,
            src,
            sw,
        ),
{
    let h = ids.len() as int / w;
    lemma_rows(ids.len() as int, w);
    if w >= 2 && places_within(places, h, w) && rows_kept(ids, w, src, sw) {
        let left = without_columns(ids, w, places);
        lemma_is_grid(w - 1, h);
        assert forall|k: int| 0 <= k < left.len() implies src.contains(#[trigger] left[k]) by {
            lemma_place(w - 1, h, k);
            let r = k / (w - 1);
            lemma_cell(w, h, r, past(k % (w - 1), places[r] as int));
            assert(src.contains(ids[r * w + past(k % (w - 1), places[r] as int)]));
        }
        assert forall|r: int, c: int| 0 <= r < h && 0 <= c < w - 1 implies src.index_of(
            #[trigger] at(left, w - 1, r, c),
        ) / sw == r by {
            lemma_cell(w - 1, h, r, c);
            assert(at(left, w - 1, r, c) == at(ids, w, r, past(c, places[r] as int)));
        }
    }
    if h >= 1 && places_within(places, w, h) && columns_kept(ids, w, src, sw) {
        let left = without_rows(ids, w, places);
        lemma_is_grid(w, h - 1);
        assert((h - 1) * w == h * w - w) by (nonlinear_arith);
        assert forall|k: int| 0 <= k < left.len() implies src.contains(#[trigger] left[k]) by {
            lemma_place(w, h - 1, k);
            let c = k % w;
            lemma_cell(w, h, past(k / w, places[c] as int), c);
            assert(src.contains(ids[past(k / w, places[c] as int) * w + c]));
        }
        assert forall|r: int, c: int| 0 <= r < h - 1 && 0 <= c < w implies src.index_of(
            #[trigger] at(left, w, r, c),
        ) % sw == c by {
            lemma_cell(w, h - 1, r, c);
            assert(at(left, w, r, c) == at(ids, w, past(r, places[c] as int), c));
        }
    }
}

/// Carving a vertical seam leaves the cells of each row in the order of the
/// source.
pub proof fn lemma_rows_follow_without_columns(
    ids: Seq<usize>,
    w: int,
    columns: Seq<usize>,
    src: Seq<usize>,
    sw: int,
)
    requires
        is_grid(ids.len() as int, w),
        w >= 2,
        places_within(columns, ids.len() as int / w, w),
        rows_follow(ids, w, src, sw),
    ensures
        rows_follow(without_columns(ids, w, columns), w - 1, src, sw),
{
    let h = ids.len() as int / w;
    let left = without_columns(ids, w, columns);
    lemma_rows(ids.len() as int, w);
    lemma_is_grid(w - 1, h);
    assert forall|k: int| 0 <= k < left.len() implies src.contains(#[trigger] left[k]) by {
        lemma_place(w - 1, h, k);
        let r = k / (w - 1);
        lemma_cell(w, h, r, past(k % (w - 1), columns[r] as int));
        assert(src.contains(ids[r * w + past(k % (w - 1), columns[r] as int)]));
    }
    assert forall|r: int, c: int, d: int| 0 <= r < h && 0 <= c < d < w - 1 implies src.index_of(
        #[trigger] at(left, w - 1, r, c),
    ) % sw < src.index_of(#[trigger] at(left, w - 1, r, d)) % sw by {
        lemma_cell(w - 1, h, r, c);
        lemma_cell(w - 1, h, r, d);
        let from_c = past(c, columns[r] as int);
        let from_d = past(d, columns[r] as int);
        assert(at(left, w - 1, r, c) == at(ids, w, r, from_c));
        assert(at(left, w - 1, r, d) == at(ids, w, r, from_d));
    }
}

/// Carving a horizontal seam leaves the cells of each column in the order
/// of the source.
pub proof fn lemma_columns_follow_without_rows(
    ids: Seq<usize>,
    w: int,
    rows: Seq<usize>,
    src: Seq<usize>,
    sw: int,
)
    requires
        is_grid(ids.len() as int, w),
        ids.len() as int / w >= 1,
        places_within(rows, w, ids.len() as int / w),
        columns_follow(ids, w, src, sw),
    ensures
        columns_follow(without_rows(ids, w, rows), w, src, sw),
{
    let h = ids.len() as int / w;
    let left = without_rows(ids, w, rows);
    lemma_rows(ids.len() as int, w);
    lemma_is_grid(w, h - 1);
    assert((h - 1) * w == h * w - w) by (nonlinear_arith);
    assert forall|k: int| 0 <= k < left.len() implies src.contains(#[trigger] left[k]) by {
        lemma_place(w, h - 1, k);
        let c = k % w;
        lemma_cell(w, h, past(k / w, rows[c] as int), c);
        assert(src.contains(ids[past(k / w, rows[c] as int) * w + c]));
    }
    assert forall|c: int, r: int, q: int| 0 <= c < w && 0 <= r < q < h - 1 implies src.index_of(
        #[trigger] at(left, w, r, c),
    ) / sw < src.index_of(#[trigger] at(left, w, q, c)) / sw by {
        lemma_cell(w, h - 1, r, c);
        lemma_cell(w, h - 1, q, c);
        let from_r = past(r, rows[c] as int);
        let from_q = past(q, rows[c] as int);
        assert(at(left, w, r, c) == at(ids, w, from_r, c));
        assert(at(left, w, q, c) == at(ids, w, from_q, c));
    }
}

/// A cell taken from a row whose cells stand in the order of the source
/// returns to the column it was taken from.
pub proof fn lemma_returns_to_column(
    ids: Seq<usize>,
    w: int,
    columns: Seq<usize>,
    src: Seq<usize>,
    sw: int,
    r: int,
    from: int,
)
    requires
        is_grid(ids.len() as int, w),
        w >= 2,
        places_within(columns, ids.len() as int / w, w),
        rows_follow(ids, w, src, sw),
        0 <= r < ids.len() as int / w,
        0 <= from <= columns[r],
    ensures
        first_follower_in_row(
            without_columns(ids, w, columns),
            w - 1,
            r,
            src,
            sw,
            src.index_of(ids[r * w + columns[r]]),
            from,
        ) == columns[r],
    decreases columns[r] - from,
{
    let h = ids.len() as int / w;
    let left = without_columns(ids, w, columns);
    lemma_rows(ids.len() as int, w);
    lemma_cell(w, h, r, columns[r] as int);
    if from < w - 1 {
        let came_from = past(from, columns[r] as int);
        lemma_cell(w - 1, h, r, from);
        lemma_cell(w, h, r, came_from);
        assert(left[r * (w - 1) + from] == at(ids, w, r, came_from));
        assert(ids[r * w + columns[r]] == at(ids, w, r, columns[r] as int));
        assert(src.contains(ids[r * w + came_from]));
        if from < columns[r] {
            lemma_returns_to_column(ids, w, columns, src, sw, r, from + 1);
        }
    }
}

/// A cell taken from a column whose cells stand in the order of the source
/// returns to the row it was taken from.
pub proof fn lemma_returns_to_row(
    ids: Seq<usize>,
    w: int,
    rows: Seq<usize>,
    src: Seq<usize>,
    sw: int,
    c: int,
    from: int,
)
    requires
        is_grid(ids.len() as int, w),
        ids.len() as int / w >= 1,
        places_within(rows, w, ids.len() as int / w),
        columns_follow(ids, w, src, sw),
        0 <= c < w,
        0 <= from <= rows[c],
    ensures
        first_follower_in_column(
            without_rows(ids, w, rows),
            w,
            c,
            src,
            sw,
            src.index_of(ids[rows[c] * w + c]),
            from,
        ) == rows[c],
    decreases rows[c] - from,
{
    let h = ids.len() as int / w;
    let left = without_rows(ids, w, rows);
    lemma_rows(ids.len() as int, w);
    lemma_is_grid(w, h - 1);
    assert((h - 1) * w == h * w - w) by (nonlinear_arith);
    assert(left.len() as int / w == h - 1);
    lemma_cell(w, h, rows[c] as int, c);
    if from < h - 1 {
        let came_from = past(from, rows[c] as int);
        lemma_cell(w, h - 1, from, c);
        lemma_cell(w, h, came_from, c);
        assert(left[from * w + c] == at(ids, w, came_from, c));
        assert(ids[rows[c] * w + c] == at(ids, w, rows[c] as int, c));
        assert(src.contains(ids[came_from * w + c]));
        if from < rows[c] {
            lemma_returns_to_row(ids, w, rows, src, sw, c, from + 1);
        }
    }
}

/// The round trip of a vertical seam: see [`lemma_carve_then_insert_from`].
proof fn lemma_round_trip_in_rows<T: Copy>(
    m: Matrix<T>,
    seam: Seam,
    source: Matrix<T>,
    carved: Matrix<T>,
    restored: Matrix<T>,
)
    requires
        m.wf(),
        source.wf(),
        agrees(&m, &source),
        seam.is_vertical,
        rows_follow(
            m.original_indices@,
            m.width as int,
            source.original_indices@,
            source.width as int,
        ),
        m.carve_fault(&seam) is None,
        m.is_carved(&seam, &carved),
        carved.is_restored(&seam, &source, &restored),
    ensures
        carved.wf(),
        agrees(&carved, &source),
        rows_follow(
            carved.original_indices@,
            carved.width as int,
            source.original_indices@,
            source.width as int,
        ),
        carved.insert_fault(seam.indices@, carved.height() as int, &source) is None,
        restored.same_as(&m),
{
    let w = m.width as int;
    let h = m.height() as int;
    let ids = m.original_indices@;
    let cells = m.vector@;
    let src = source.original_indices@;
    let sw = source.width as int;
    let path = seam.indices@;
    let cols = columns_of_ids(ids, w, path);
    let left = carved.original_indices@;
    m.lemma_shape();
    lemma_columns_of_ids(ids, w, path);
    lemma_is_grid(w - 1, h);
    assert(carved.vector@.len() == h * (w - 1));
    assert(h * (w - 1) <= h * w) by (nonlinear_arith)
        requires
            h >= 0,
            w >= 1,
    ;
    assert(carved.height() == h);
    lemma_without_columns_distinct(ids, w, cols);
    lemma_rows_follow_without_columns(ids, w, cols, src, sw);
    assert forall|r: int| 0 <= r < h implies #[trigger] insertion_columns(
        left,
        w - 1,
        src,
        sw,
        path,
    )[r] == cols[r] && source.values_of(path)[r] == cells_at_columns(cells, w, cols)[r]
        && src.contains(path[r]) by {
        lemma_cell(w, h, r, cols[r] as int);
        assert(path[r] == ids[r * w + cols[r]]);
        lemma_returns_to_column(ids, w, cols, src, sw, r, 0);
    }
    assert(insertion_columns(left, w - 1, src, sw, path) =~= cols);
    assert(source.values_of(path) =~= cells_at_columns(cells, w, cols));
    lemma_columns_round_trip(cells, w, cols);
    lemma_columns_round_trip(ids, w, cols);
    assert forall|i: int| 0 <= i < path.len() implies !left.contains(#[trigger] path[i]) by {
        if left.contains(path[i]) {
            let k = choose|k: int| 0 <= k < left.len() && left[k] == path[i];
            lemma_place(w - 1, h, k);
            let rk = k / (w - 1);
            let ck = past(k % (w - 1), cols[rk] as int);
            lemma_cell(w, h, rk, ck);
            lemma_cell(w, h, i, cols[i] as int);
            assert(ids[rk * w + ck] == ids[i * w + cols[i]]);
        }
    }
    assert forall|k: int| 0 <= k < left.len() implies carved.vector@[k]
        == source.vector@[src.index_of(#[trigger] left[k])] by {
        lemma_place(w - 1, h, k);
        let rk = k / (w - 1);
        lemma_cell(w, h, rk, past(k % (w - 1), cols[rk] as int));
    }
}

/// The round trip of a horizontal seam: see
/// [`lemma_carve_then_insert_from`].
proof fn lemma_round_trip_in_columns<T: Copy>(
    m: Matrix<T>,
    seam: Seam,
    source: Matrix<T>,
    carved: Matrix<T>,
    restored: Matrix<T>,
)
    requires
        m.wf(),
        source.wf(),
        agrees(&m, &source),
        !seam.is_vertical,
        columns_follow(
            m.original_indices@,
            m.width as int,
            source.original_indices@,
            source.width as int,
        ),
        m.carve_fault(&seam) is None,
        m.is_carved(&seam, &carved),
        carved.is_restored(&seam, &source, &restored),
    ensures
        carved.wf(),
        agrees(&carved, &source),
        columns_follow(
            carved.original_indices@,
            carved.width as int,
            source.original_indices@,
            source.width as int,
        ),
        carved.insert_fault(seam.indices@, carved.width as int, &source) is None,
        restored.same_as(&m),
{
    let w = m.width as int;
    let h = m.height() as int;
    let ids = m.original_indices@;
    let cells = m.vector@;
    let src = source.original_indices@;
    let sw = source.width as int;
    let path = seam.indices@;
    let rows = rows_of_ids(ids, w, path);
    let left = carved.original_indices@;
    m.lemma_shape();
    lemma_rows_of_ids(ids, w, path);
    lemma_is_grid(w, h - 1);
    assert((h - 1) * w == h * w - w) by (nonlinear_arith);
    assert(carved.vector@.len() == (h - 1) * w);
    assert(carved.height() == h - 1);
    lemma_without_rows_distinct(ids, w, rows);
    lemma_columns_follow_without_rows(ids, w, rows, src, sw);
    assert forall|c: int| 0 <= c < w implies #[trigger] insertion_rows(left, w, src, sw, path)[c]
        == rows[c] && source.values_of(path)[c] == cells_at_rows(cells, w, rows)[c]
        && src.contains(path[c]) by {
        lemma_cell(w, h, rows[c] as int, c);
        assert(path[c] == ids[rows[c] * w + c]);
        lemma_returns_to_row(ids, w, rows, src, sw, c, 0);
    }
    assert(insertion_rows(left, w, src, sw, path) =~= rows);
    assert(source.values_of(path) =~= cells_at_rows(cells, w, rows));
    lemma_rows_round_trip(cells, w, rows);
    lemma_rows_round_trip(ids, w, rows);
    assert forall|i: int| 0 <= i < path.len() implies !left.contains(#[trigger] path[i]) by {
        if left.contains(path[i]) {
            let k = choose|k: int| 0 <= k < left.len() && left[k] == path[i];
            lemma_place(w, h - 1, k);
            let rk = past(k / w, rows[k % w] as int);
            lemma_cell(w, h, rk, k % w);
            lemma_cell(w, h, rows[i] as int, i);
            assert(ids[rk * w + k % w] == ids[rows[i] * w + i]);
        }
    }
    assert forall|k: int| 0 <= k < left.len() implies carved.vector@[k]
        == source.vector@[src.index_of(#[trigger] left[k])] by {
        lemma_place(w, h - 1, k);
        lemma_cell(w, h, past(k / w, rows[k % w] as int), k % w);
    }
}

/// Carving a seam from a grid and putting it back from a source gives the
/// grid back, cell by cell and identifier by identifier, if the source holds
/// the cells of the grid with their values and the lines that the seam
/// crosses stand in the order of the source: the rows for a vertical seam,
/// the columns for a horizontal one. The seam can always be put back, and
/// the carved grid stands to the source as the grid did. So seams of one
/// orientation, carved one after another, return in the reverse order from
/// the grid that the carving began with.
pub proof fn lemma_carve_then_insert_from<T: Copy>(
    m: Matrix<T>,
    seam: Seam,
    source: Matrix<T>,
    carved: Matrix<T>,
    restored: Matrix<T>,
)
    requires
        m.wf(),
        source.wf(),
        agrees(&m, &source),
        seam.is_vertical ==> rows_follow(
            m.original_indices@,
            m.width as int,
            source.original_indices@,
            source.width as int,
        ),
        !seam.is_vertical ==> columns_follow(
            m.original_indices@,
            m.width as int,
            source.original_indices@,
            source.width as int,
        ),
        m.carve_fault(&seam) is None,
        m.is_carved(&seam, &carved),
        carved.is_restored(&seam, &source, &restored),
    ensures
        carved.wf(),
        agrees(&carved, &source),
        seam.is_vertical ==> rows_follow(
            carved.original_indices@,
            carved.width as int,
            source.original_indices@,
            source.width as int,
        ),
        !seam.is_vertical ==> columns_follow(
            carved.original_indices@,
            carved.width as int,
            source.original_indices@,
            source.width as int,
        ),
        carved.insert_fault(
            seam.indices@,
            if seam.is_vertical {
                carved.height() as int
            } else {
                carved.width as int
            },
            &source,
        ) is None,
        restored.same_as(&m),
{
    if seam.is_vertical {
        lemma_round_trip_in_rows(m, seam, source, carved, restored);
    } else {
        lemma_round_trip_in_columns(m, seam, source, carved, restored);
    }
}

/// Carving a seam from a grid and putting it back from the grid as it was
/// gives that grid back, cell by cell and identifier by identifier; the
/// seam can always be put back.
pub proof fn lemma_carve_then_insert<T: Copy>(
    m: Matrix<T>,
    seam: Seam,
    carved: Matrix<T>,
    restored: Matrix<T>,
)
    requires
        m.wf(),
        m.carve_fault(&seam) is None,
        m.is_carved(&seam, &carved),
        carved.is_restored(&seam, &m, &restored),
    ensures
        carved.wf(),
        carved.insert_fault(
            seam.indices@,
            if seam.is_vertical {
                carved.height() as int
            } else {
                carved.width as int
            },
            &m,
        ) is None,
        restored.width == m.width,
        restored.vector@ == m.vector@,
        restored.original_indices@ == m.original_indices@,
{
    lemma_own_order(&m);
    lemma_carve_then_insert_from(m, seam, m, carved, restored);
}

} // verus!
