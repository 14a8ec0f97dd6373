//! The energy model: how important each cell of an image is.
//!
//! The gray value of a cell is the weighted sum of its three channels, in
//! thousandths of a channel step. The energy of a cell is the magnitude of
//! the gradient of the gray values around it, rounded down: the root of the
//! squared difference between the neighbours above and below plus the
//! squared difference between the neighbours left and right. A neighbour is
//! the nearest cell in its direction that is not removed; where the edge of
//! the field is reached first, it counts as zero.

use vstd::prelude::*;
use crate::color::CustomColor;
use crate::grid::lemma_cell;
use crate::matrix::Matrix;
use crate::search::{above_of, below_of, left_of, right_of, GradientMagnitudePoint};

verus! {

/// The gray value of a colour, in thousandths of a channel step.
pub open spec fn luma(color: CustomColor) -> nat {
    (299 * color.r + 587 * color.g + 114 * color.b) as nat
}

/// The gray cell that stands for a colour.
pub open spec fn gray_point(color: CustomColor) -> GradientMagnitudePoint {
    GradientMagnitudePoint {
        value: luma(color) as u64,
        is_inserted: color.is_inserted,
        is_removed: false,
    }
}

/// Whether `v` is the root of `s`, rounded down.
pub open spec fn is_root(v: nat, s: nat) -> bool {
    v * v <= s < (v + 1) * (v + 1)
}

/// The value of the nearest cell above that is not removed, or zero.
pub open spec fn north(e: Seq<GradientMagnitudePoint>, w: int, r: int, c: int) -> nat {
    let i = above_of(e, w, r, c);
    if i >= 0 {
        e[i * w + c].value as nat
    } else {
        0
    }
}

/// The value of the nearest cell below that is not removed, or zero.
pub open spec fn south(e: Seq<GradientMagnitudePoint>, w: int, r: int, c: int) -> nat {
    let i = below_of(e, w, r, c);
    if i < e.len() as int / w {
        e[i * w + c].value as nat
    } else {
        0
    }
}

/// The value of the nearest cell to the left that is not removed, or zero.
pub open spec fn west(e: Seq<GradientMagnitudePoint>, w: int, r: int, c: int) -> nat {
    let j = left_of(e, w, r, c);
    if j >= 0 {
        e[r * w + j].value as nat
    } else {
        0
    }
}

/// The value of the nearest cell to the right that is not removed, or zero.
pub open spec fn east(e: Seq<GradientMagnitudePoint>, w: int, r: int, c: int) -> nat {
    let j = right_of(e, w, r, c);
    if j < w {
        e[r * w + j].value as nat
    } else {
        0
    }
}

/// The square of the gradient magnitude at row `r`, column `c`.
pub open spec fn squared_gradient(e: Seq<GradientMagnitudePoint>, w: int, r: int, c: int) -> nat {
    let down = north(e, w, r, c) - south(e, w, r, c);
    let across = west(e, w, r, c) - east(e, w, r, c);
    (down * down + across * across) as nat
}

/// Whether the cell of `field` at row `r`, column `c` holds the gradient
/// magnitude of the gray values `gray` there: a removed cell stays as it is,
/// and any other cell keeps its mark and takes the root of the squared
/// gradient as its value.
pub open spec fn is_gradient_at(
    gray: Seq<GradientMagnitudePoint>,
    w: int,
    field: Seq<GradientMagnitudePoint>,
    r: int,
    c: int,
) -> bool {
    let before = gray[r * w + c];
    let after = field[r * w + c];
    if before.is_removed {
        after == before
    } else {
        &&& is_root(after.value as nat, squared_gradient(gray, w, r, c))
        &&& after.is_inserted == before.is_inserted
        &&& !after.is_removed
    }
}

/// Whether `field` holds the gradient magnitudes of the gray values `gray`.
pub open spec fn is_gradient_of(
    gray: Seq<GradientMagnitudePoint>,
    w: int,
    field: Seq<GradientMagnitudePoint>,
) -> bool {
    &&& field.len() == gray.len()
    &&& forall|r: int, c: int|
        0 <= r < gray.len() as int / w && 0 <= c < w ==> #[trigger] is_gradient_at(
            gray,
            w,
            field,
            r,
            c,
        )
}

/// The root of `s`, rounded down.
pub fn integer_root(s: u128) -> (v: u64)
    ensures
        is_root(v as nat, s as nat),
{
    let mut low: u128 = 0;
    let mut high: u128 = 0x1_0000_0000_0000_0000;
    proof {
        assert(0x1_0000_0000_0000_0000u128 * 0x1_0000_0000_0000_0000u128 > u128::MAX)
            by (nonlinear_arith);
    }
    while high - low > 1
        invariant
            low < high <= 0x1_0000_0000_0000_0000,
            low * low <= s < high * high,
        decreases high - low,
    {
        let middle: u128 = low + (high - low) / 2;
        proof {
            assert(middle * middle < 0x1_0000_0000_0000_0000 * 0x1_0000_0000_0000_0000)
                by (nonlinear_arith)
                requires
                    0 <= middle < 0x1_0000_0000_0000_0000,
            ;
            assert(0x1_0000_0000_0000_0000 * 0x1_0000_0000_0000_0000 == u128::MAX + 1)
                by (nonlinear_arith);
        }
        if middle * middle <= s {
            low = middle;
        } else {
            high = middle;
        }
    }
    low as u64
}

/// The difference of two values, squared.
fn squared_difference(a: u64, b: u64) -> (s: u128)
    requires
        a <= u32::MAX,
        b <= u32::MAX,
    ensures
        s == (a - b) * (a - b),
        s <= u32::MAX * u32::MAX,
{
    let d: u128 = if a >= b {
        (a - b) as u128
    } else {
        (b - a) as u128
    };
    proof {
        assert(d * d == (a - b) * (a - b)) by (nonlinear_arith)
            requires
                d == a - b || d == b - a,
        ;
        assert(d * d <= u32::MAX * u32::MAX) by (nonlinear_arith)
            requires
                0 <= d <= u32::MAX,
        ;
    }
    d * d
}

/// The gray value of every cell, in thousandths of a channel step. Marks
/// and identifiers pass through; no cell is removed.
pub fn grayscale(matrix: &Matrix<CustomColor>) -> (gray: Matrix<GradientMagnitudePoint>)
    ensures
        gray.width == matrix.width,
        gray.original_indices@ == matrix.original_indices@,
        gray.vector@ == matrix.vector@.map_values(|color: CustomColor| gray_point(color)),
        matrix.wf() ==> gray.wf(),
{
    let n: usize = matrix.vector.len();
    let mut vector: Vec<GradientMagnitudePoint> = Vec::with_capacity(n);
    let mut k: usize = 0;
    while k < n
        invariant
            n == matrix.vector@.len(),
            k <= n,
            vector@.len() == k,
            forall|i: int| 0 <= i < k ==> #[trigger] vector@[i] == gray_point(matrix.vector@[i]),
        decreases n - k,
    {
        let color = matrix.vector[k];
        let value: u64 = 299 * (color.r as u64) + 587 * (color.g as u64) + 114 * (color.b as u64);
        vector.push(
            GradientMagnitudePoint { value, is_inserted: color.is_inserted, is_removed: false },
        );
        k += 1;
    }
    proof {
        assert(vector@ =~= matrix.vector@.map_values(|color: CustomColor| gray_point(color)));
    }
    let copy = matrix.duplicate();
    Matrix { width: matrix.width, vector, original_indices: copy.original_indices }
}

/// The gradient magnitude of every cell of the gray values `gray`.
/// Identifiers pass through.
#[verifier::loop_isolation(false)]
pub fn gradient_magnitude(gray: &Matrix<GradientMagnitudePoint>) -> (field: Matrix<
    GradientMagnitudePoint,
>)
    requires
        gray.wf(),
        forall|k: int|
            0 <= k < gray.vector@.len() ==> (#[trigger] gray.vector@[k]).value <= u32::MAX,
    ensures
        field.wf(),
        field.width == gray.width,
        field.original_indices@ == gray.original_indices@,
        is_gradient_of(gray.vector@, gray.width as int, field.vector@),
{
    let w: usize = gray.width;
    let h: usize = gray.height();
    let ghost e = gray.vector@;
    proof {
        gray.lemma_shape();
    }
    let mut vector: Vec<GradientMagnitudePoint> = Vec::with_capacity(gray.vector.len());
    let mut r: usize = 0;
    while r < h
        invariant
            r <= h,
            vector@.len() == r * w,
            forall|i: int, j: int|
                0 <= i < r && 0 <= j < w ==> #[trigger] is_gradient_at(e, w as int, vector@, i, j),
        decreases h - r,
    {
        let mut c: usize = 0;
        while c < w
            invariant
                r < h,
                c <= w,
                vector@.len() == r * w + c,
                forall|i: int, j: int|
                    0 <= i < r && 0 <= j < w ==> #[trigger] is_gradient_at(
                        e,
                        w as int,
                        vector@,
                        i,
                        j,
                    ),
                forall|j: int|
                    0 <= j < c ==> #[trigger] is_gradient_at(e, w as int, vector@, r as int, j),
            decreases w - c,
        {
            proof {
                lemma_cell(w as int, h as int, r as int, c as int);
            }
            let here = gray.vector[r * w + c];
            let ghost before = vector@;
            if here.is_removed {
                vector.push(here);
            } else {
                let up: u64 = match gray.nearest_above(r, c) {
                    Some(i) => {
                        proof {
                            lemma_cell(w as int, h as int, i as int, c as int);
                        }
                        gray.vector[i * w + c].value
                    },
                    None => 0,
                };
                let down: u64 = match gray.nearest_below(r, c) {
                    Some(i) => {
                        proof {
                            lemma_cell(w as int, h as int, i as int, c as int);
                        }
                        gray.vector[i * w + c].value
                    },
                    None => 0,
                };
                let left: u64 = match gray.nearest_left(r, c) {
                    Some(j) => {
                        proof {
                            lemma_cell(w as int, h as int, r as int, j as int);
                        }
                        gray.vector[r * w + j].value
                    },
                    None => 0,
                };
                let right: u64 = match gray.nearest_right(r, c) {
                    Some(j) => {
                        proof {
                            lemma_cell(w as int, h as int, r as int, j as int);
                        }
                        gray.vector[r * w + j].value
                    },
                    None => 0,
                };
                let squared: u128 = squared_difference(up, down) + squared_difference(left, right);
                let value: u64 = integer_root(squared);
                vector.push(
                    GradientMagnitudePoint {
                        value,
                        is_inserted: here.is_inserted,
                        is_removed: false,
                    },
                );
            }
            proof {
                assert forall|i: int, j: int|
                    0 <= i < r && 0 <= j < w implies #[trigger] is_gradient_at(
                    e,
                    w as int,
                    vector@,
                    i,
                    j,
                ) by {
                    lemma_cell(w as int, r as int, i, j);
                    assert(is_gradient_at(e, w as int, before, i, j));
                }
                assert forall|j: int| 0 <= j < c implies #[trigger] is_gradient_at(
                    e,
                    w as int,
                    vector@,
                    r as int,
                    j,
                ) by {
                    assert(is_gradient_at(e, w as int, before, r as int, j));
                }
                assert(is_gradient_at(e, w as int, vector@, r as int, c as int));
            }
            c += 1;
        }
        proof {
            assert((r + 1) * w == r * w + w) by (nonlinear_arith);
        }
        r += 1;
    }
    let copy = gray.duplicate();
    Matrix { width: w, vector, original_indices: copy.original_indices }
}

/// Whether `field` is the energy field of the image `matrix`: the gradient
/// magnitudes of its gray values, with its width and its identifiers.
pub open spec fn is_energy_field_of(
    matrix: &Matrix<CustomColor>,
    field: &Matrix<GradientMagnitudePoint>,
) -> bool {
    &&& field.width == matrix.width
    &&& field.original_indices@ == matrix.original_indices@
    &&& is_gradient_of(
        matrix.vector@.map_values(|color: CustomColor| gray_point(color)),
        matrix.width as int,
        field.vector@,
    )
}

/// The energy field of an image: the gradient magnitudes of its gray
/// values.
pub fn energy_field(matrix: &Matrix<CustomColor>) -> (field: Matrix<GradientMagnitudePoint>)
    requires
        matrix.wf(),
    ensures
        field.wf(),
        is_energy_field_of(matrix, &field),
{
    let gray = grayscale(matrix);
    gradient_magnitude(&gray)
}

} // verus!
