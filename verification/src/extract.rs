//! Finding the cheapest seam of an energy field.

use vstd::prelude::*;
use rand::rngs::ThreadRng;
use crate::grid::{is_grid, lemma_cell, lemma_rows, places_within, transpose};
use crate::matrix::Matrix;
use crate::random::random_below;
use crate::seam::{CarveError, HorizontalSeam, VerticalSeam};
use crate::search::{
    above_of, below_of, cheaper, cost_at, end_cost, energy_from, has_no_seam, is_cheapest,
    is_cheapest_end, least, left_of, lemma_cost_bound, lemma_left_of, lemma_right_of,
    lemma_seam_attains_cost, plus, right_of, seam_column, seam_columns, step_back, step_cost,
    total_energy, GradientMagnitudePoint,
};

verus! {

/// A computed cost as the number it stands for.
pub open spec fn lift(x: Option<u128>) -> Option<nat> {
    match x {
        Some(v) => Some(v as nat),
        None => None,
    }
}

/// Whether `costs` holds, for every cell of the field, the cost of the
/// cheapest seam that ends there.
pub open spec fn is_cost_table(
    e: Seq<GradientMagnitudePoint>,
    w: int,
    costs: Seq<Option<u128>>,
    avoid_inserted: bool,
) -> bool {
    &&& costs.len() == e.len()
    &&& forall|r: int, c: int|
        0 <= r && 0 <= c < w && r * w + c < e.len() ==> lift(costs[r * w + c])
            == #[trigger] cost_at(e, w, r, c, avoid_inserted)
}

/// Whether `found` is what the search for a vertical seam may give on the
/// field `e` of width `w`: a seam that ends where a cheapest seam ends and
/// goes back from there, with the sum of the energies of its cells; or no
/// seam, where none can pass through the field.
pub open spec fn is_search_result(
    e: Seq<GradientMagnitudePoint>,
    w: int,
    avoid_inserted: bool,
    found: Result<(Seq<usize>, u128), CarveError>,
) -> bool {
    let h = e.len() as int / w;
    match found {
        Ok((columns, total)) => {
            &&& h > 0
            &&& columns.len() == h
            &&& is_cheapest_end(e, w, columns[h - 1] as int, avoid_inserted)
            &&& columns == seam_columns(e, w, h, columns[h - 1] as int, avoid_inserted)
            &&& total == total_energy(e, w, columns)
        },
        Err(err) => {
            &&& err == CarveError::EmptySearchSpace
            &&& has_no_seam(e, w, avoid_inserted)
        },
    }
}

/// A seam that the search gives has one cell in each row, inside the
/// field; and the search gives one wherever a seam can pass through the
/// field.
pub proof fn lemma_search_result(
    e: Seq<GradientMagnitudePoint>,
    w: int,
    avoid_inserted: bool,
    found: Result<(Seq<usize>, u128), CarveError>,
)
    requires
        is_grid(e.len() as int, w),
        w <= usize::MAX,
        is_search_result(e, w, avoid_inserted, found),
    ensures
        found is Ok ==> places_within(found->Ok_0.0, e.len() as int / w, w) && !has_no_seam(
            e,
            w,
            avoid_inserted,
        ),
        found is Err ==> has_no_seam(e, w, avoid_inserted),
{
    let h = e.len() as int / w;
    lemma_rows(e.len() as int, w);
    match found {
        Ok((columns, total)) => {
            let last = columns[h - 1] as int;
            lemma_seam_attains_cost(e, w, h, last, avoid_inserted);
            assert(end_cost(e, w, last, avoid_inserted) is Some);
        },
        Err(_) => {},
    }
}

/// What the search for a vertical seam gave, with the seam as a sequence.
pub open spec fn vertical_result(found: Result<(VerticalSeam, u128), CarveError>) -> Result<
    (Seq<usize>, u128),
    CarveError,
> {
    match found {
        Ok((seam, total)) => Ok((seam.columns@, total)),
        Err(err) => Err(err),
    }
}

/// What the search for a horizontal seam gave, with the seam as a sequence.
pub open spec fn horizontal_result(found: Result<(HorizontalSeam, u128), CarveError>) -> Result<
    (Seq<usize>, u128),
    CarveError,
> {
    match found {
        Ok((seam, total)) => Ok((seam.rows@, total)),
        Err(err) => Err(err),
    }
}

/// What it costs a seam to pass through `p`.
fn step_of(p: GradientMagnitudePoint, avoid_inserted: bool) -> (x: Option<u128>)
    ensures
        lift(x) == step_cost(p, avoid_inserted),
{
    if p.is_removed {
        None
    } else if p.is_inserted {
        if avoid_inserted {
            None
        } else {
            Some(0)
        }
    } else {
        Some(p.value as u128)
    }
}

/// Whether `a` is strictly less than `b`, where `None` exceeds every number.
fn is_cheaper(a: Option<u128>, b: Option<u128>) -> (yes: bool)
    ensures
        yes == cheaper(lift(a), lift(b)),
{
    match a {
        None => false,
        Some(x) => match b {
            None => true,
            Some(y) => x < y,
        },
    }
}

/// The lesser of two costs.
fn least_of(a: Option<u128>, b: Option<u128>) -> (x: Option<u128>)
    ensures
        lift(x) == least(lift(a), lift(b)),
{
    if is_cheaper(b, a) {
        b
    } else {
        a
    }
}

/// The sum of two costs.
fn plus_of(a: Option<u128>, b: Option<u128>) -> (x: Option<u128>)
    requires
        a is Some && b is Some ==> a->0 + b->0 <= u128::MAX,
    ensures
        lift(x) == plus(lift(a), lift(b)),
{
    match a {
        None => None,
        Some(x) => match b {
            None => None,
            Some(y) => Some(x + y),
        },
    }
}

impl Matrix<GradientMagnitudePoint> {
    /// The nearest column left of `column` whose cell in `row` is not
    /// removed.
    pub fn nearest_left(&self, row: usize, column: usize) -> (found: Option<usize>)
        requires
            self.wf(),
            row < self.height(),
            column < self.width,
        ensures
            match found {
                Some(j) => j == left_of(
                    self.vector@,
                    self.width as int,
                    row as int,
                    column as int,
                ) && j < column,
                None => left_of(self.vector@, self.width as int, row as int, column as int) == -1,
            },
    {
        proof {
            self.lemma_shape();
            lemma_cell(self.width as int, self.height() as int, row as int, 0);
        }
        let base: usize = row * self.width;
        let mut j: usize = column;
        while j > 0
            invariant
                self.wf(),
                row < self.height(),
                j <= column < self.width,
                base == row * self.width,
                left_of(self.vector@, self.width as int, row as int, column as int) == left_of(
                    self.vector@,
                    self.width as int,
                    row as int,
                    j as int,
                ),
            decreases j,
        {
            proof {
                self.lemma_shape();
                lemma_cell(self.width as int, self.height() as int, row as int, j - 1);
            }
            if !self.vector[base + (j - 1)].is_removed {
                return Some(j - 1);
            }
            j -= 1;
        }
        None
    }

    /// The nearest column right of `column` whose cell in `row` is not
    /// removed.
    pub fn nearest_right(&self, row: usize, column: usize) -> (found: Option<usize>)
        requires
            self.wf(),
            row < self.height(),
            column < self.width,
        ensures
            match found {
                Some(j) => j == right_of(
                    self.vector@,
                    self.width as int,
                    row as int,
                    column as int,
                ) && j < self.width,
                None => right_of(self.vector@, self.width as int, row as int, column as int)
                    == self.width,
            },
    {
        proof {
            self.lemma_shape();
            lemma_cell(self.width as int, self.height() as int, row as int, 0);
        }
        let base: usize = row * self.width;
        let mut j: usize = column;
        while j + 1 < self.width
            invariant
                self.wf(),
                row < self.height(),
                column <= j < self.width,
                base == row * self.width,
                right_of(self.vector@, self.width as int, row as int, column as int) == right_of(
                    self.vector@,
                    self.width as int,
                    row as int,
                    j as int,
                ),
            decreases self.width - j,
        {
            proof {
                self.lemma_shape();
                lemma_cell(self.width as int, self.height() as int, row as int, j + 1);
            }
            if !self.vector[base + (j + 1)].is_removed {
                return Some(j + 1);
            }
            j += 1;
        }
        None
    }

    /// The nearest row above `row` whose cell in `column` is not removed.
    #[verifier::loop_isolation(false)]
    pub fn nearest_above(&self, row: usize, column: usize) -> (found: Option<usize>)
        requires
            self.wf(),
            row < self.height(),
            column < self.width,
        ensures
            match found {
                Some(i) => i == above_of(
                    self.vector@,
                    self.width as int,
                    row as int,
                    column as int,
                ) && i < row,
                None => above_of(self.vector@, self.width as int, row as int, column as int) == -1,
            },
    {
        proof {
            self.lemma_shape();
        }
        let mut i: usize = row;
        while i > 0
            invariant
                i <= row,
                above_of(self.vector@, self.width as int, row as int, column as int) == above_of(
                    self.vector@,
                    self.width as int,
                    i as int,
                    column as int,
                ),
            decreases i,
        {
            proof {
                lemma_cell(self.width as int, self.height() as int, i - 1, column as int);
            }
            if !self.vector[(i - 1) * self.width + column].is_removed {
                return Some(i - 1);
            }
            i -= 1;
        }
        None
    }

    /// The nearest row below `row` whose cell in `column` is not removed.
    #[verifier::loop_isolation(false)]
    pub fn nearest_below(&self, row: usize, column: usize) -> (found: Option<usize>)
        requires
            self.wf(),
            row < self.height(),
            column < self.width,
        ensures
            match found {
                Some(i) => i == below_of(
                    self.vector@,
                    self.width as int,
                    row as int,
                    column as int,
                ) && i < self.height(),
                None => below_of(self.vector@, self.width as int, row as int, column as int)
                    == self.height(),
            },
    {
        proof {
            self.lemma_shape();
        }
        let h: usize = self.height();
        let mut i: usize = row;
        while i + 1 < h
            invariant
                row <= i < h,
                below_of(self.vector@, self.width as int, row as int, column as int) == below_of(
                    self.vector@,
                    self.width as int,
                    i as int,
                    column as int,
                ),
            decreases h - i,
        {
            proof {
                lemma_cell(self.width as int, h as int, i + 1, column as int);
            }
            if !self.vector[(i + 1) * self.width + column].is_removed {
                return Some(i + 1);
            }
            i += 1;
        }
        None
    }

    /// For every cell, the cost of the cheapest vertical seam from the first
    /// row to that cell.
    pub fn vertical_costs(&self, avoid_inserted: bool) -> (costs: Vec<Option<u128>>)
        requires
            self.wf(),
        ensures
            is_cost_table(self.vector@, self.width as int, costs@, avoid_inserted),
    {
        let w: usize = self.width;
        let h: usize = self.height();
        let ghost e = self.vector@;
        proof {
            self.lemma_shape();
        }
        let mut costs: Vec<Option<u128>> = Vec::with_capacity(self.vector.len());
        let mut r: usize = 0;
        let mut base: usize = 0;
        while r < h
            invariant
                self.wf(),
                e == self.vector@,
                w == self.width,
                h == self.height(),
                e.len() == h * w,
                r <= h,
                base == r * w,
                costs@.len() == base,
                forall|rr: int, cc: int|
                    0 <= rr < r && 0 <= cc < w ==> lift(costs@[rr * w + cc]) == #[trigger] cost_at(
                        e,
                        w as int,
                        rr,
                        cc,
                        avoid_inserted,
                    ),
            decreases h - r,
        {
            let mut c: usize = 0;
            while c < w
                invariant
                    self.wf(),
                    e == self.vector@,
                    w == self.width,
                    h == self.height(),
                    e.len() == h * w,
                    r < h,
                    c <= w,
                    base == r * w,
                    costs@.len() == base + c,
                    forall|rr: int, cc: int|
                        0 <= rr < r && 0 <= cc < w ==> lift(costs@[rr * w + cc])
                            == #[trigger] cost_at(e, w as int, rr, cc, avoid_inserted),
                    forall|cc: int|
                        0 <= cc < c ==> lift(costs@[base + cc]) == #[trigger] cost_at(
                            e,
                            w as int,
                            r as int,
                            cc,
                            avoid_inserted,
                        ),
                decreases w - c,
            {
                proof {
                    lemma_cell(w as int, h as int, r as int, c as int);
                }
                let here = step_of(self.vector[base + c], avoid_inserted);
                let cost = if r == 0 {
                    here
                } else {
                    proof {
                        lemma_cell(w as int, h as int, r - 1, c as int);
                        lemma_left_of(e, w as int, r - 1, c as int);
                        lemma_right_of(e, w as int, r - 1, c as int);
                        assert((r - 1) * w == base - w) by (nonlinear_arith)
                            requires
                                base == r * w,
                        ;
                    }
                    let prev: usize = base - w;
                    let above = costs[prev + c];
                    let left = match self.nearest_left(r - 1, c) {
                        Some(j) => costs[prev + j],
                        None => None,
                    };
                    let right = match self.nearest_right(r - 1, c) {
                        Some(j) => costs[prev + j],
                        None => None,
                    };
                    let best = least_of(least_of(above, left), right);
                    proof {
                        let l = left_of(e, w as int, r - 1, c as int);
                        let rt = right_of(e, w as int, r - 1, c as int);
                        assert(lift(above) == cost_at(
                            e,
                            w as int,
                            r - 1,
                            c as int,
                            avoid_inserted,
                        ));
                        assert(l >= 0 ==> lift(left) == cost_at(
                            e,
                            w as int,
                            r - 1,
                            l,
                            avoid_inserted,
                        ));
                        assert(rt < w ==> lift(right) == cost_at(
                            e,
                            w as int,
                            r - 1,
                            rt,
                            avoid_inserted,
                        ));
                        lemma_cost_bound(e, w as int, r - 1, c as int, avoid_inserted);
                        lemma_cost_bound(e, w as int, r - 1, l, avoid_inserted);
                        lemma_cost_bound(e, w as int, r - 1, rt, avoid_inserted);
                        assert(r * u64::MAX + u64::MAX <= u128::MAX) by (nonlinear_arith)
                            requires
                                r <= usize::MAX,
                                usize::MAX <= u64::MAX,
                        ;
                    }
                    plus_of(here, best)
                };
                proof {
                    assert(lift(cost) == cost_at(e, w as int, r as int, c as int, avoid_inserted));
                }
                let ghost before = costs@;
                costs.push(cost);
                c += 1;
                proof {
                    assert forall|rr: int, cc: int| 0 <= rr < r && 0 <= cc < w implies lift(
                        costs@[rr * w + cc],
                    ) == #[trigger] cost_at(e, w as int, rr, cc, avoid_inserted) by {
                        lemma_cell(w as int, r as int, rr, cc);
                        assert(costs@[rr * w + cc] == before[rr * w + cc]);
                    }
                }
            }
            proof {
                assert((r + 1) * w == base + w && (r + 1) * w <= h * w) by (nonlinear_arith)
                    requires
                        base == r * w,
                        r < h,
                ;
                assert forall|rr: int, cc: int| 0 <= rr < r + 1 && 0 <= cc < w implies lift(
                    costs@[rr * w + cc],
                ) == #[trigger] cost_at(e, w as int, rr, cc, avoid_inserted) by {
                    if rr == r {
                    }
                }
            }
            base += w;
            r += 1;
        }
        proof {
            assert forall|rr: int, cc: int|
                0 <= rr && 0 <= cc < w && rr * w + cc < e.len() implies lift(costs@[rr * w + cc])
                == #[trigger] cost_at(e, w as int, rr, cc, avoid_inserted) by {
                assert(rr < h) by (nonlinear_arith)
                    requires
                        rr * w + cc < h * w,
                        0 <= cc,
                        w > 0,
                ;
            }
        }
        costs
    }

    /// The columns of the last row at which a cheapest vertical seam ends,
    /// from left to right. `costs` is the table of `vertical_costs`.
    pub fn cheapest_ends(&self, costs: &Vec<Option<u128>>, avoid_inserted: bool) -> (ends: Vec<
        usize,
    >)
        requires
            self.wf(),
            self.height() > 0,
            is_cost_table(self.vector@, self.width as int, costs@, avoid_inserted),
        ensures
            forall|i: int|
                0 <= i < ends@.len() ==> is_cheapest_end(
                    self.vector@,
                    self.width as int,
                    #[trigger] ends@[i] as int,
                    avoid_inserted,
                ),
            forall|c: int| #[trigger]
                is_cheapest_end(self.vector@, self.width as int, c, avoid_inserted)
                    ==> ends@.contains(c as usize),
            forall|i: int, j: int| 0 <= i < j < ends@.len() ==> ends@[i] < ends@[j],
            ends@.len() == 0 ==> forall|c: int|
                0 <= c < self.width ==> #[trigger] end_cost(
                    self.vector@,
                    self.width as int,
                    c,
                    avoid_inserted,
                ) is None,
    {
        let w: usize = self.width;
        let h: usize = self.height();
        let ghost e = self.vector@;
        proof {
            self.lemma_shape();
            lemma_cell(w as int, h as int, h - 1, 0);
        }
        let ghost last: int = h - 1;
        let base: usize = (h - 1) * w;
        let mut ends: Vec<usize> = Vec::new();
        let mut best: Option<u128> = None;
        let mut c: usize = 0;
        while c < w
            invariant
                self.wf(),
                e == self.vector@,
                w == self.width,
                h == self.height(),
                h > 0,
                e.len() == h * w,
                base == (h - 1) * w,
                last == h - 1,
                is_cost_table(e, w as int, costs@, avoid_inserted),
                c <= w,
                forall|i: int|
                    0 <= i < ends@.len() ==> is_cheapest(
                        e,
                        w as int,
                        last,
                        #[trigger] ends@[i] as int,
                        c as int,
                        avoid_inserted,
                    ),
                forall|d: int| #[trigger]
                    is_cheapest(e, w as int, last, d, c as int, avoid_inserted)
                        ==> ends@.contains(d as usize),
                forall|i: int, j: int| 0 <= i < j < ends@.len() ==> ends@[i] < ends@[j],
                ends@.len() > 0 ==> lift(best) == cost_at(
                    e,
                    w as int,
                    last,
                    ends@[0] as int,
                    avoid_inserted,
                ),
                ends@.len() == 0 ==> best is None && forall|d: int|
                    0 <= d < c ==> #[trigger] cost_at(e, w as int, last, d, avoid_inserted) is None,
            decreases w - c,
        {
            proof {
                lemma_cell(w as int, h as int, h - 1, c as int);
            }
            let x = costs[base + c];
            assert(lift(x) == cost_at(e, w as int, last, c as int, avoid_inserted));
            let ghost before = ends@;
            let ghost next: int = c + 1;
            if is_cheaper(x, best) {
                ends.clear();
                ends.push(c);
                best = x;
                proof {
                    assert(ends@ =~= seq![c]);
                    assert forall|d: int|
                        is_cheapest(
                            e,
                            w as int,
                            last,
                            d,
                            next,
                            avoid_inserted,
                        ) implies ends@.contains(d as usize) by {
                        if d != c {
                            assert(cheaper(
                                cost_at(e, w as int, last, c as int, avoid_inserted),
                                cost_at(e, w as int, last, d, avoid_inserted),
                            )) by {
                                if before.len() > 0 {
                                    assert(is_cheapest(
                                        e,
                                        w as int,
                                        last,
                                        before[0] as int,
                                        c as int,
                                        avoid_inserted,
                                    ));
                                }
                            }
                        } else {
                            assert(ends@[0] == c);
                        }
                    }
                    assert(is_cheapest(e, w as int, last, c as int, next, avoid_inserted)) by {
                        assert forall|d: int| 0 <= d < c + 1 implies !cheaper(
                            #[trigger] cost_at(e, w as int, last, d, avoid_inserted),
                            cost_at(e, w as int, last, c as int, avoid_inserted),
                        ) by {
                            if before.len() > 0 {
                                assert(is_cheapest(
                                    e,
                                    w as int,
                                    last,
                                    before[0] as int,
                                    c as int,
                                    avoid_inserted,
                                ));
                            }
                        }
                    }
                }
            } else if x.is_some() && !is_cheaper(best, x) {
                ends.push(c);
                proof {
                    assert(before.len() > 0);
                    assert(is_cheapest(
                        e,
                        w as int,
                        last,
                        before[0] as int,
                        c as int,
                        avoid_inserted,
                    ));
                    assert(lift(x) == lift(best));
                    assert forall|i: int| 0 <= i < ends@.len() implies is_cheapest(
                        e,
                        w as int,
                        last,
                        #[trigger] ends@[i] as int,
                        next,
                        avoid_inserted,
                    ) by {
                        if i < before.len() {
                            assert(ends@[i] == before[i]);
                            assert(is_cheapest(
                                e,
                                w as int,
                                last,
                                before[i] as int,
                                c as int,
                                avoid_inserted,
                            ));
                        }
                    }
                    assert forall|d: int|
                        is_cheapest(
                            e,
                            w as int,
                            last,
                            d,
                            next,
                            avoid_inserted,
                        ) implies ends@.contains(d as usize) by {
                        if d != c {
                            assert(is_cheapest(e, w as int, last, d, c as int, avoid_inserted));
                            let i = choose|i: int| 0 <= i < before.len() && before[i] == d as usize;
                            assert(ends@[i] == d as usize);
                        } else {
                            assert(ends@[before.len() as int] == c);
                        }
                    }
                    assert forall|i: int, j: int| 0 <= i < j < ends@.len() implies ends@[i]
                        < ends@[j] by {
                        if j == before.len() {
                            assert(is_cheapest(
                                e,
                                w as int,
                                last,
                                before[i] as int,
                                c as int,
                                avoid_inserted,
                            ));
                        }
                    }
                }
            } else {
                proof {
                    assert forall|i: int| 0 <= i < ends@.len() implies is_cheapest(
                        e,
                        w as int,
                        last,
                        #[trigger] ends@[i] as int,
                        next,
                        avoid_inserted,
                    ) by {
                        assert(is_cheapest(
                            e,
                            w as int,
                            last,
                            ends@[i] as int,
                            c as int,
                            avoid_inserted,
                        ));
                        assert(is_cheapest(
                            e,
                            w as int,
                            last,
                            ends@[0] as int,
                            c as int,
                            avoid_inserted,
                        ));
                    }
                    assert forall|d: int|
                        is_cheapest(
                            e,
                            w as int,
                            last,
                            d,
                            next,
                            avoid_inserted,
                        ) implies ends@.contains(d as usize) by {
                        if d == c {
                            if before.len() > 0 {
                                assert(is_cheapest(
                                    e,
                                    w as int,
                                    last,
                                    before[0] as int,
                                    c as int,
                                    avoid_inserted,
                                ));
                            }
                        } else {
                            assert(is_cheapest(e, w as int, last, d, c as int, avoid_inserted));
                        }
                    }
                }
            }
            c += 1;
        }
        ends
    }

    /// The vertical seam that ends at column `last` of the last row, with the
    /// sum of the energies of its cells. `costs` is the table of
    /// `vertical_costs`.
    pub fn trace_back(
        &self,
        costs: &Vec<Option<u128>>,
        avoid_inserted: bool,
        last: usize,
    ) -> (found: (VerticalSeam, u128))
        requires
            self.wf(),
            self.height() > 0,
            last < self.width,
            is_cost_table(self.vector@, self.width as int, costs@, avoid_inserted),
        ensures
            found.0.columns@ == seam_columns(
                self.vector@,
                self.width as int,
                self.height() as int,
                last as int,
                avoid_inserted,
            ),
            found.1 == total_energy(self.vector@, self.width as int, found.0.columns@),
    {
        let w: usize = self.width;
        let h: usize = self.height();
        let ghost e = self.vector@;
        let ghost path = seam_columns(e, w as int, h as int, last as int, avoid_inserted);
        proof {
            self.lemma_shape();
            lemma_cell(w as int, h as int, h - 1, last as int);
        }
        let mut columns: Vec<usize> = Vec::with_capacity(h);
        let mut k: usize = 0;
        while k < h
            invariant
                k <= h,
                columns@.len() == k,
                forall|i: int| 0 <= i < k ==> columns@[i] == last,
            decreases h - k,
        {
            columns.push(last);
            k += 1;
        }
        let mut row: usize = h - 1;
        let mut base: usize = (h - 1) * w;
        let mut below: usize = last;
        let mut total: u128 = self.vector[base + last].value as u128;
        proof {
            assert(energy_from(e, w as int, path, h as int) == 0);
            assert(path[h - 1] == last);
            assert(total == energy_from(e, w as int, path, h - 1));
            assert(1 * u64::MAX == u64::MAX) by (nonlinear_arith);
        }
        while row > 0
            invariant
                self.wf(),
                e == self.vector@,
                w == self.width,
                h == self.height(),
                e.len() == h * w,
                is_cost_table(e, w as int, costs@, avoid_inserted),
                path == seam_columns(e, w as int, h as int, last as int, avoid_inserted),
                last < w,
                row < h,
                base == row * w,
                below < w,
                below == seam_column(
                    e,
                    w as int,
                    h as int,
                    last as int,
                    row as int,
                    avoid_inserted,
                ),
                columns@.len() == h,
                forall|rr: int| row <= rr < h ==> #[trigger] columns@[rr] == path[rr],
                total == energy_from(e, w as int, path, row as int),
                total <= (h - row) * u64::MAX,
            decreases row,
        {
            let up: usize = row - 1;
            proof {
                lemma_cell(w as int, h as int, up as int, below as int);
                lemma_left_of(e, w as int, up as int, below as int);
                lemma_right_of(e, w as int, up as int, below as int);
                assert(up * w == base - w) by (nonlinear_arith)
                    requires
                        base == row * w,
                        up == row - 1,
                ;
            }
            let above: usize = base - w;
            let left: usize = match self.nearest_left(up, below) {
                Some(j) => j,
                None => below,
            };
            let right: usize = match self.nearest_right(up, below) {
                Some(j) => j,
                None => below,
            };
            proof {
                lemma_cell(w as int, h as int, up as int, left as int);
                lemma_cell(w as int, h as int, up as int, right as int);
                assert(lift(costs@[up * w + left]) == cost_at(
                    e,
                    w as int,
                    up as int,
                    left as int,
                    avoid_inserted,
                ));
                assert(lift(costs@[up * w + right]) == cost_at(
                    e,
                    w as int,
                    up as int,
                    right as int,
                    avoid_inserted,
                ));
                assert(lift(costs@[up * w + below]) == cost_at(
                    e,
                    w as int,
                    up as int,
                    below as int,
                    avoid_inserted,
                ));
            }
            let first: usize = if is_cheaper(costs[above + left], costs[above + below]) {
                left
            } else {
                below
            };
            let chosen: usize = if is_cheaper(costs[above + first], costs[above + right]) {
                first
            } else {
                right
            };
            proof {
                assert(chosen == step_back(e, w as int, up as int, below as int, avoid_inserted));
                assert(chosen == seam_column(
                    e,
                    w as int,
                    h as int,
                    last as int,
                    up as int,
                    avoid_inserted,
                ));
                assert(path[up as int] == chosen);
                lemma_cell(w as int, h as int, up as int, chosen as int);
                assert((h - up) * u64::MAX == (h - row) * u64::MAX + u64::MAX) by (nonlinear_arith)
                    requires
                        up == row - 1,
                ;
                assert((h - up) * u64::MAX <= u128::MAX) by (nonlinear_arith)
                    requires
                        0 <= h - up <= usize::MAX,
                        usize::MAX <= u64::MAX,
                ;
            }
            columns.set(up, chosen);
            total = total + self.vector[above + chosen].value as u128;
            below = chosen;
            base = above;
            row = up;
        }
        proof {
            assert(columns@ =~= path);
        }
        (VerticalSeam { columns }, total)
    }

    /// The cheapest vertical seam that ends at column `last` of the last row,
    /// with the sum of the energies of its cells.
    pub fn vertical_seam_ending_at(&self, avoid_inserted: bool, last: usize) -> (found: (
        VerticalSeam,
        u128,
    ))
        requires
            self.wf(),
            self.height() > 0,
            last < self.width,
        ensures
            found.0.columns@ == seam_columns(
                self.vector@,
                self.width as int,
                self.height() as int,
                last as int,
                avoid_inserted,
            ),
            found.1 == total_energy(self.vector@, self.width as int, found.0.columns@),
    {
        let costs = self.vertical_costs(avoid_inserted);
        self.trace_back(&costs, avoid_inserted, last)
    }

    /// The cheapest vertical seam of the field, with the sum of the energies
    /// of its cells. Where several columns of the last row end a cheapest
    /// seam, `rng` picks one of them; from there the seam is fixed.
    pub fn extract_vertical_seam(&self, rng: &mut ThreadRng, avoid_inserted: bool) -> (found:
        Result<(VerticalSeam, u128), CarveError>)
        requires
            self.wf(),
        ensures
            is_search_result(
                self.vector@,
                self.width as int,
                avoid_inserted,
                vertical_result(found),
            ),
    {
        proof {
            self.lemma_shape();
        }
        if self.height() == 0 {
            return Err(CarveError::EmptySearchSpace);
        }
        let costs = self.vertical_costs(avoid_inserted);
        let ends = self.cheapest_ends(&costs, avoid_inserted);
        if ends.len() == 0 {
            return Err(CarveError::EmptySearchSpace);
        }
        let k: usize = random_below(rng, ends.len());
        let last: usize = ends[k];
        proof {
            assert(is_cheapest_end(
                self.vector@,
                self.width as int,
                ends@[k as int] as int,
                avoid_inserted,
            ));
        }
        Ok(self.trace_back(&costs, avoid_inserted, last))
    }

    /// The cheapest horizontal seam that ends at row `last` of the last
    /// column, with the sum of the energies of its cells: the vertical seam
    /// of the transposed field that ends at column `last`.
    pub fn horizontal_seam_ending_at(&self, avoid_inserted: bool, last: usize) -> (found: (
        HorizontalSeam,
        u128,
    ))
        requires
            self.wf(),
            last < self.height(),
        ensures
            found.0.rows@ == seam_columns(
                transpose(self.vector@, self.width as int),
                self.height() as int,
                self.width as int,
                last as int,
                avoid_inserted,
            ),
            found.1 == total_energy(
                transpose(self.vector@, self.width as int),
                self.height() as int,
                found.0.rows@,
            ),
    {
        let turned = self.transposed();
        let (seam, total) = turned.vertical_seam_ending_at(avoid_inserted, last);
        (HorizontalSeam { rows: seam.columns }, total)
    }

    /// The cheapest horizontal seam of the field, with the sum of the
    /// energies of its cells: the cheapest vertical seam of the transposed
    /// field. Where several rows of the last column end a cheapest seam,
    /// `rng` picks one of them; from there the seam is fixed.
    pub fn extract_horizontal_seam(&self, rng: &mut ThreadRng, avoid_inserted: bool) -> (found:
        Result<(HorizontalSeam, u128), CarveError>)
        requires
            self.wf(),
        ensures
            is_search_result(
                transpose(self.vector@, self.width as int),
                self.height() as int,
                avoid_inserted,
                horizontal_result(found),
            ),
    {
        proof {
            self.lemma_shape();
        }
        if self.height() == 0 {
            return Err(CarveError::EmptySearchSpace);
        }
        let turned = self.transposed();
        proof {
            turned.lemma_shape();
        }
        match turned.extract_vertical_seam(rng, avoid_inserted) {
            Ok((seam, total)) => Ok((HorizontalSeam { rows: seam.columns }, total)),
            Err(err) => Err(err),
        }
    }
}

} // verus!
