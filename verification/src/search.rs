//! The search for the cheapest seam of an energy field.
//!
//! A vertical seam takes one cell from every row. From a cell it may go on to
//! the cell straight above or to the nearest cell to the left or right of that
//! one which has not been removed. The cost of a seam is the sum of what its
//! cells cost; cells that are removed, and inserted cells when they are to be
//! avoided, cannot be part of one. A horizontal seam is a vertical seam of the
//! field with rows and columns exchanged.

use vstd::prelude::*;
use crate::grid::{is_grid, lemma_rows};

verus! {

/// The importance of one cell of an energy field.
#[derive(Clone, Copy, Debug, PartialEq, Eq, Structural)]
pub struct GradientMagnitudePoint {
    /// The energy of the cell.
    pub value: u64,
    /// The cell was synthesized by an insertion.
    pub is_inserted: bool,
    /// The cell has been removed and only marks a gap.
    pub is_removed: bool,
}

/// What it costs a seam to pass through `p`; `None` where it cannot.
pub open spec fn step_cost(p: GradientMagnitudePoint, avoid_inserted: bool) -> Option<nat> {
    if p.is_removed {
        None
    } else if p.is_inserted {
        if avoid_inserted {
            None
        } else {
            Some(0)
        }
    } else {
        Some(p.value as nat)
    }
}

/// Whether `a` is strictly less than `b`, where `None` exceeds every number.
pub open spec fn cheaper(a: Option<nat>, b: Option<nat>) -> bool {
    a is Some && (b is None || a->0 < b->0)
}

/// The lesser of two costs.
pub open spec fn least(a: Option<nat>, b: Option<nat>) -> Option<nat> {
    if cheaper(b, a) {
        b
    } else {
        a
    }
}

/// The sum of two costs.
pub open spec fn plus(a: Option<nat>, b: Option<nat>) -> Option<nat> {
    if a is Some && b is Some {
        Some(a->0 + b->0)
    } else {
        None
    }
}

/// The nearest column left of `c` whose cell in row `r` is not removed, or
/// `-1` if there is none.
pub open spec fn left_of(e: Seq<GradientMagnitudePoint>, w: int, r: int, c: int) -> int
    decreases c,
{
    if c <= 0 {
        -1
    } else if !e[r * w + c - 1].is_removed {
        c - 1
    } else {
        left_of(e, w, r, c - 1)
    }
}

/// The nearest column right of `c` whose cell in row `r` is not removed, or
/// `w` if there is none.
pub open spec fn right_of(e: Seq<GradientMagnitudePoint>, w: int, r: int, c: int) -> int
    decreases w - c,
{
    if c + 1 >= w {
        w
    } else if !e[r * w + c + 1].is_removed {
        c + 1
    } else {
        right_of(e, w, r, c + 1)
    }
}

/// The nearest row above `r` whose cell in column `c` is not removed, or
/// `-1` if there is none.
pub open spec fn above_of(e: Seq<GradientMagnitudePoint>, w: int, r: int, c: int) -> int
    decreases r,
{
    if r <= 0 {
        -1
    } else if !e[(r - 1) * w + c].is_removed {
        r - 1
    } else {
        above_of(e, w, r - 1, c)
    }
}

/// The nearest row below `r` whose cell in column `c` is not removed, or
/// the number of rows if there is none.
pub open spec fn below_of(e: Seq<GradientMagnitudePoint>, w: int, r: int, c: int) -> int
    decreases e.len() as int / w - r,
{
    if r + 1 >= e.len() as int / w {
        e.len() as int / w
    } else if !e[(r + 1) * w + c].is_removed {
        r + 1
    } else {
        below_of(e, w, r + 1, c)
    }
}

/// The cost of the cheapest seam from the first row to row `r`, column `c`.
pub open spec fn cost_at(
    e: Seq<GradientMagnitudePoint>,
    w: int,
    r: int,
    c: int,
    avoid_inserted: bool,
) -> Option<nat>
    decreases r,
{
    if r <= 0 {
        step_cost(e[c], avoid_inserted)
    } else {
        let l = left_of(e, w, r - 1, c);
        let rt = right_of(e, w, r - 1, c);
        let above = cost_at(e, w, r - 1, c, avoid_inserted);
        let left = if l >= 0 {
            cost_at(e, w, r - 1, l, avoid_inserted)
        } else {
            None
        };
        let right = if rt < w {
            cost_at(e, w, r - 1, rt, avoid_inserted)
        } else {
            None
        };
        plus(step_cost(e[r * w + c], avoid_inserted), least(least(above, left), right))
    }
}

/// Whether a seam can end at column `c` of row `r` and none that ends in one
/// of the first `limit` columns of that row is cheaper.
pub open spec fn is_cheapest(
    e: Seq<GradientMagnitudePoint>,
    w: int,
    r: int,
    c: int,
    limit: int,
    avoid_inserted: bool,
) -> bool {
    &&& 0 <= c < limit
    &&& cost_at(e, w, r, c, avoid_inserted) is Some
    &&& forall|d: int|
        0 <= d < limit ==> !cheaper(
            #[trigger] cost_at(e, w, r, d, avoid_inserted),
            cost_at(e, w, r, c, avoid_inserted),
        )
}

/// Whether a cheapest seam through all rows of the field ends at column `c`.
pub open spec fn is_cheapest_end(
    e: Seq<GradientMagnitudePoint>,
    w: int,
    c: int,
    avoid_inserted: bool,
) -> bool {
    is_cheapest(e, w, e.len() as int / w - 1, c, w, avoid_inserted)
}

/// The cost of the cheapest seam through all rows that ends at column `c`.
pub open spec fn end_cost(
    e: Seq<GradientMagnitudePoint>,
    w: int,
    c: int,
    avoid_inserted: bool,
) -> Option<nat> {
    cost_at(e, w, e.len() as int / w - 1, c, avoid_inserted)
}

/// Whether no seam can pass through all rows of the field: it has no cells,
/// or no seam can end in its last row.
pub open spec fn has_no_seam(e: Seq<GradientMagnitudePoint>, w: int, avoid_inserted: bool) -> bool {
    e.len() == 0 || forall|c: int|
        0 <= c < w ==> #[trigger] end_cost(e, w, c, avoid_inserted) is None
}

/// The column in row `r` from which the cheapest seam goes on to column `c`
/// of the row below. The straight way is left only for a strictly cheaper
/// left neighbour, and either of them for a right neighbour that is not
/// dearer.
pub open spec fn step_back(
    e: Seq<GradientMagnitudePoint>,
    w: int,
    r: int,
    c: int,
    avoid_inserted: bool,
) -> int {
    let l = left_of(e, w, r, c);
    let rt = right_of(e, w, r, c);
    let left = if l >= 0 {
        l
    } else {
        c
    };
    let right = if rt < w {
        rt
    } else {
        c
    };
    let first = if cheaper(
        cost_at(e, w, r, left, avoid_inserted),
        cost_at(e, w, r, c, avoid_inserted),
    ) {
        left
    } else {
        c
    };
    if cheaper(cost_at(e, w, r, first, avoid_inserted), cost_at(e, w, r, right, avoid_inserted)) {
        first
    } else {
        right
    }
}

/// The column in row `r` of the seam that ends at column `last` of the last
/// of `h` rows.
pub open spec fn seam_column(
    e: Seq<GradientMagnitudePoint>,
    w: int,
    h: int,
    last: int,
    r: int,
    avoid_inserted: bool,
) -> int
    decreases h - r,
{
    if r >= h - 1 {
        last
    } else {
        step_back(e, w, r, seam_column(e, w, h, last, r + 1, avoid_inserted), avoid_inserted)
    }
}

/// The seam that ends at column `last` of the last of `h` rows.
pub open spec fn seam_columns(
    e: Seq<GradientMagnitudePoint>,
    w: int,
    h: int,
    last: int,
    avoid_inserted: bool,
) -> Seq<usize> {
    Seq::new(h as nat, |r: int| seam_column(e, w, h, last, r, avoid_inserted) as usize)
}

/// The sum of the energies of the cells that `columns` names in the rows
/// from `r` on.
pub open spec fn energy_from(
    e: Seq<GradientMagnitudePoint>,
    w: int,
    columns: Seq<usize>,
    r: int,
) -> nat
    decreases columns.len() - r,
{
    if r < 0 || r >= columns.len() {
        0
    } else {
        e[r * w + columns[r]].value as nat + energy_from(e, w, columns, r + 1)
    }
}

/// The sum of the energies of the cells that `columns` names, one in each
/// row.
pub open spec fn total_energy(
    e: Seq<GradientMagnitudePoint>,
    w: int,
    columns: Seq<usize>,
) -> nat {
    energy_from(e, w, columns, 0)
}

/// The nearest neighbour to the left lies left, inside the row, and is not
/// removed.
pub proof fn lemma_left_of(e: Seq<GradientMagnitudePoint>, w: int, r: int, c: int)
    ensures
        -1 <= left_of(e, w, r, c),
        c > 0 ==> left_of(e, w, r, c) < c,
        left_of(e, w, r, c) >= 0 ==> !e[r * w + left_of(e, w, r, c)].is_removed,
        forall|j: int| left_of(e, w, r, c) < j < c ==> (#[trigger] e[r * w + j]).is_removed,
    decreases c,
{
    if c > 0 && e[r * w + c - 1].is_removed {
        lemma_left_of(e, w, r, c - 1);
    }
}

/// The nearest neighbour to the right lies right, inside the row, and is not
/// removed.
pub proof fn lemma_right_of(e: Seq<GradientMagnitudePoint>, w: int, r: int, c: int)
    ensures
        right_of(e, w, r, c) <= w || right_of(e, w, r, c) == c + 1,
        c + 1 < w ==> c < right_of(e, w, r, c) <= w,
        c + 1 >= w ==> right_of(e, w, r, c) == w,
        c < right_of(e, w, r, c) < w ==> !e[r * w + right_of(e, w, r, c)].is_removed,
        forall|j: int| c < j < right_of(e, w, r, c) ==> (#[trigger] e[r * w + j]).is_removed,
    decreases w - c,
{
    if c + 1 < w && e[r * w + c + 1].is_removed {
        lemma_right_of(e, w, r, c + 1);
    }
}

/// A seam that reaches row `r` costs at most `r + 1` times the largest
/// energy.
pub proof fn lemma_cost_bound(
    e: Seq<GradientMagnitudePoint>,
    w: int,
    r: int,
    c: int,
    avoid_inserted: bool,
)
    requires
        r >= 0,
    ensures
        cost_at(e, w, r, c, avoid_inserted) is Some ==> cost_at(e, w, r, c, avoid_inserted)->0 <= (r
            + 1) * u64::MAX,
    decreases r,
{
    if r > 0 {
        let l = left_of(e, w, r - 1, c);
        let rt = right_of(e, w, r - 1, c);
        lemma_cost_bound(e, w, r - 1, c, avoid_inserted);
        lemma_cost_bound(e, w, r - 1, l, avoid_inserted);
        lemma_cost_bound(e, w, r - 1, rt, avoid_inserted);
        assert((r + 1) * u64::MAX == r * u64::MAX + u64::MAX) by (nonlinear_arith);
    }
}

/// A seam goes on from a column to the same column or to the nearest cell
/// left or right of it that is not removed.
pub proof fn lemma_step_back(
    e: Seq<GradientMagnitudePoint>,
    w: int,
    r: int,
    c: int,
    avoid_inserted: bool,
)
    requires
        0 <= c < w,
    ensures
        0 <= step_back(e, w, r, c, avoid_inserted) < w,
        step_back(e, w, r, c, avoid_inserted) == c || step_back(e, w, r, c, avoid_inserted)
            == left_of(e, w, r, c) || step_back(e, w, r, c, avoid_inserted) == right_of(
            e,
            w,
            r,
            c,
        ),
{
    lemma_left_of(e, w, r, c);
    lemma_right_of(e, w, r, c);
}

/// Every column of a seam lies inside the field.
pub proof fn lemma_seam_column(
    e: Seq<GradientMagnitudePoint>,
    w: int,
    h: int,
    last: int,
    r: int,
    avoid_inserted: bool,
)
    requires
        0 <= last < w,
    ensures
        0 <= seam_column(e, w, h, last, r, avoid_inserted) < w,
    decreases h - r,
{
    if r < h - 1 {
        lemma_seam_column(e, w, h, last, r + 1, avoid_inserted);
        lemma_step_back(e, w, r, seam_column(e, w, h, last, r + 1, avoid_inserted), avoid_inserted);
    }
}

/// Whether a seam may go from column `below` of one row to column `above`
/// of row `r` above it.
pub open spec fn connects(
    e: Seq<GradientMagnitudePoint>,
    w: int,
    r: int,
    above: int,
    below: int,
) -> bool {
    above == below || above == left_of(e, w, r, below) || above == right_of(e, w, r, below)
}

/// Whether `columns` names one cell in each of the `h` rows of the field so
/// that each is joined to the next.
pub open spec fn is_seam(
    e: Seq<GradientMagnitudePoint>,
    w: int,
    h: int,
    columns: Seq<usize>,
) -> bool {
    &&& columns.len() == h
    &&& forall|r: int| 0 <= r < h ==> 0 <= #[trigger] columns[r] < w
    &&& forall|r: int|
        0 <= r < h - 1 ==> connects(e, w, r, #[trigger] columns[r] as int, columns[r + 1] as int)
}

/// What the cells of `columns` in the rows up to `r` cost together; `None`
/// where a seam cannot pass through one of them.
pub open spec fn seam_cost(
    e: Seq<GradientMagnitudePoint>,
    w: int,
    columns: Seq<usize>,
    r: int,
    avoid_inserted: bool,
) -> Option<nat>
    decreases r + 1,
{
    if r < 0 {
        Some(0)
    } else {
        plus(
            step_cost(e[r * w + columns[r]], avoid_inserted),
            seam_cost(e, w, columns, r - 1, avoid_inserted),
        )
    }
}

/// No seam reaches a cell for less than the cost computed for that cell.
pub proof fn lemma_cost_is_least(
    e: Seq<GradientMagnitudePoint>,
    w: int,
    h: int,
    columns: Seq<usize>,
    r: int,
    avoid_inserted: bool,
)
    requires
        is_seam(e, w, h, columns),
        0 <= r < h,
    ensures
        !cheaper(
            seam_cost(e, w, columns, r, avoid_inserted),
            cost_at(e, w, r, columns[r] as int, avoid_inserted),
        ),
    decreases r,
{
    if r > 0 {
        lemma_cost_is_least(e, w, h, columns, r - 1, avoid_inserted);
        assert(connects(e, w, r - 1, columns[r - 1] as int, columns[r] as int));
        lemma_left_of(e, w, r - 1, columns[r] as int);
        lemma_right_of(e, w, r - 1, columns[r] as int);
    } else {
        assert(seam_cost(e, w, columns, -1, avoid_inserted) == Some(0nat));
    }
}

/// Going back from a cell leads to the cheapest of the cells it is joined
/// to in the row above.
pub proof fn lemma_step_back_is_least(
    e: Seq<GradientMagnitudePoint>,
    w: int,
    r: int,
    c: int,
    avoid_inserted: bool,
)
    requires
        r >= 0,
        0 <= c < w,
    ensures
        cost_at(e, w, r + 1, c, avoid_inserted) == plus(
            step_cost(e[(r + 1) * w + c], avoid_inserted),
            cost_at(e, w, r, step_back(e, w, r, c, avoid_inserted), avoid_inserted),
        ),
{
    lemma_left_of(e, w, r, c);
    lemma_right_of(e, w, r, c);
}

/// The seam that ends at column `last` is a seam of the field, and its
/// cells cost together what was computed for the cell it ends at.
pub proof fn lemma_seam_attains_cost(
    e: Seq<GradientMagnitudePoint>,
    w: int,
    h: int,
    last: int,
    avoid_inserted: bool,
)
    requires
        h > 0,
        0 <= last < w <= usize::MAX,
    ensures
        is_seam(e, w, h, seam_columns(e, w, h, last, avoid_inserted)),
        seam_cost(e, w, seam_columns(e, w, h, last, avoid_inserted), h - 1, avoid_inserted)
            == cost_at(e, w, h - 1, last, avoid_inserted),
{
    let path = seam_columns(e, w, h, last, avoid_inserted);
    assert forall|r: int| 0 <= r < h implies 0 <= #[trigger] path[r] < w && path[r]
        == seam_column(e, w, h, last, r, avoid_inserted) by {
        lemma_seam_column(e, w, h, last, r, avoid_inserted);
    }
    assert forall|r: int| 0 <= r < h - 1 implies connects(
        e,
        w,
        r,
        #[trigger] path[r] as int,
        path[r + 1] as int,
    ) by {
        lemma_step_back(e, w, r, path[r + 1] as int, avoid_inserted);
    }
    lemma_seam_cost_upto(e, w, h, last, h - 1, avoid_inserted);
}

/// The cells of the seam that ends at column `last` cost, up to row `r`,
/// what was computed for its cell in row `r`.
pub proof fn lemma_seam_cost_upto(
    e: Seq<GradientMagnitudePoint>,
    w: int,
    h: int,
    last: int,
    r: int,
    avoid_inserted: bool,
)
    requires
        0 <= r < h,
        0 <= last < w <= usize::MAX,
    ensures
        seam_cost(e, w, seam_columns(e, w, h, last, avoid_inserted), r, avoid_inserted) == cost_at(
            e,
            w,
            r,
            seam_column(e, w, h, last, r, avoid_inserted),
            avoid_inserted,
        ),
    decreases r,
{
    let path = seam_columns(e, w, h, last, avoid_inserted);
    lemma_seam_column(e, w, h, last, r, avoid_inserted);
    assert(path[r] == seam_column(e, w, h, last, r, avoid_inserted));
    if r > 0 {
        lemma_seam_cost_upto(e, w, h, last, r - 1, avoid_inserted);
        lemma_step_back_is_least(
            e,
            w,
            r - 1,
            seam_column(e, w, h, last, r, avoid_inserted),
            avoid_inserted,
        );
    } else {
        assert(seam_cost(e, w, path, -1, avoid_inserted) == Some(0nat));
    }
}

/// The seam that ends where a cheapest seam ends is a seam of the field,
/// a seam can pass through all its cells, and no seam of the field is
/// cheaper.
pub proof fn lemma_extracted_seam_is_cheapest(
    e: Seq<GradientMagnitudePoint>,
    w: int,
    last: int,
    other: Seq<usize>,
    avoid_inserted: bool,
)
    requires
        is_grid(e.len() as int, w),
        w <= usize::MAX,
        e.len() > 0,
        is_cheapest_end(e, w, last, avoid_inserted),
        is_seam(e, w, e.len() as int / w, other),
    ensures
        is_seam(
            e,
            w,
            e.len() as int / w,
            seam_columns(e, w, e.len() as int / w, last, avoid_inserted),
        ),
        seam_cost(
            e,
            w,
            seam_columns(e, w, e.len() as int / w, last, avoid_inserted),
            e.len() as int / w - 1,
            avoid_inserted,
        ) is Some,
        !cheaper(
            seam_cost(e, w, other, e.len() as int / w - 1, avoid_inserted),
            seam_cost(
                e,
                w,
                seam_columns(e, w, e.len() as int / w, last, avoid_inserted),
                e.len() as int / w - 1,
                avoid_inserted,
            ),
        ),
{
    let h = e.len() as int / w;
    lemma_rows(e.len() as int, w);
    assert(h > 0) by (nonlinear_arith)
        requires
            e.len() == h * w,
            e.len() > 0,
            h >= 0,
    ;
    lemma_seam_attains_cost(e, w, h, last, avoid_inserted);
    lemma_cost_is_least(e, w, h, other, h - 1, avoid_inserted);
    assert(!cheaper(
        cost_at(e, w, h - 1, other[h - 1] as int, avoid_inserted),
        cost_at(e, w, h - 1, last, avoid_inserted),
    ));
}

} // verus!
