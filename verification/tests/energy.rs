use seam_carving::color::CustomColor;
use seam_carving::energy::{energy_field, gradient_magnitude, grayscale, integer_root};
use seam_carving::matrix::Matrix;
use seam_carving::search::GradientMagnitudePoint;

fn colour(r: u8, g: u8, b: u8) -> CustomColor {
    CustomColor {
        r,
        g,
        b,
        is_inserted: false,
    }
}

fn gray(value: u8) -> CustomColor {
    colour(value, value, value)
}

fn point(value: u64) -> GradientMagnitudePoint {
    GradientMagnitudePoint {
        value,
        is_inserted: false,
        is_removed: false,
    }
}

fn removed(value: u64) -> GradientMagnitudePoint {
    GradientMagnitudePoint {
        value,
        is_inserted: false,
        is_removed: true,
    }
}

fn values(field: &Matrix<GradientMagnitudePoint>) -> Vec<u64> {
    field.vector.iter().map(|point| point.value).collect()
}

#[test]
fn the_gray_value_weighs_the_channels() {
    let mut marked = colour(255, 255, 255);
    marked.is_inserted = true;
    let image = Matrix {
        width: 2,
        vector: vec![
            colour(10, 20, 30),
            colour(0, 0, 0),
            marked,
            colour(1, 0, 0),
            colour(0, 1, 0),
            colour(0, 0, 1),
        ],
        original_indices: vec![7, 3, 9, 1, 0, 4],
    };
    let field = grayscale(&image);
    assert_eq!(field.width(), 2);
    assert_eq!(field.original_indices, vec![7, 3, 9, 1, 0, 4]);
    assert_eq!(values(&field), vec![18150, 0, 255000, 299, 587, 114]);
    assert!(field.vector[2].is_inserted);
    assert!(!field.vector[0].is_inserted);
    assert!(field.vector.iter().all(|point| !point.is_removed));
}

#[test]
fn the_root_is_rounded_down() {
    assert_eq!(integer_root(0), 0);
    assert_eq!(integer_root(1), 1);
    assert_eq!(integer_root(2), 1);
    assert_eq!(integer_root(3), 1);
    assert_eq!(integer_root(4), 2);
    assert_eq!(integer_root(15), 3);
    assert_eq!(integer_root(16), 4);
    assert_eq!(integer_root(17), 4);
    assert_eq!(integer_root(999_999_999_999), 999_999);
    assert_eq!(integer_root(1_000_000_000_000), 1_000_000);
    assert_eq!(integer_root(u128::MAX), u64::MAX);
    assert_eq!(integer_root((u64::MAX as u128) * (u64::MAX as u128)), u64::MAX);
    assert_eq!(
        integer_root((u64::MAX as u128) * (u64::MAX as u128) - 1),
        u64::MAX - 1
    );
}

#[test]
fn the_gradient_takes_the_neighbours_on_four_sides() {
    let field = Matrix::new(
        [1, 2, 3, 4, 5, 6, 7, 8, 9]
            .iter()
            .map(|value| point(*value))
            .collect(),
        3,
    );
    let gradient = gradient_magnitude(&field);
    assert_eq!(gradient.width(), 3);
    assert_eq!(gradient.original_indices, field.original_indices);
    // in the middle: (2 - 8)^2 + (4 - 6)^2 = 40
    assert_eq!(gradient.vector[4].value, 6);
    // in the first corner the edge counts as zero: (0 - 4)^2 + (0 - 2)^2 = 20
    assert_eq!(gradient.vector[0].value, 4);
    // in the last corner: (6 - 0)^2 + (8 - 0)^2 = 100
    assert_eq!(gradient.vector[8].value, 10);
    assert_eq!(values(&gradient), vec![4, 5, 6, 7, 6, 7, 8, 5, 10]);
}

#[test]
fn the_gradient_skips_removed_cells() {
    let field = Matrix::new(
        vec![
            point(10),
            removed(99),
            point(30),
            removed(77),
            point(40),
            point(50),
        ],
        3,
    );
    let gradient = gradient_magnitude(&field);
    // the right neighbour of the first cell is the third; below it the edge
    assert_eq!(gradient.vector[0].value, 30);
    assert_eq!(gradient.vector[1], removed(99));
    // left of the third cell stands the first, below it the sixth:
    // (0 - 50)^2 + (10 - 0)^2 = 2600, one short of 51^2
    assert_eq!(gradient.vector[2].value, 50);
    assert_eq!(gradient.vector[3], removed(77));
    // above the fifth cell the edge is reached: 0^2 + (0 - 50)^2
    assert_eq!(gradient.vector[4].value, 50);
    // (30 - 0)^2 + (40 - 0)^2
    assert_eq!(gradient.vector[5].value, 50);
}

#[test]
fn the_gradient_keeps_the_marks() {
    let mut marked = point(5);
    marked.is_inserted = true;
    let field = Matrix::new(vec![marked, point(8)], 2);
    let gradient = gradient_magnitude(&field);
    assert!(gradient.vector[0].is_inserted);
    assert!(!gradient.vector[1].is_inserted);
    assert_eq!(values(&gradient), vec![8, 5]);
    let empty: Matrix<GradientMagnitudePoint> = Matrix::new(vec![], 4);
    assert!(gradient_magnitude(&empty).vector.is_empty());
}

#[test]
fn the_energy_of_an_image_is_the_gradient_of_its_gray_values() {
    let image = Matrix::new(vec![gray(0), gray(10), gray(0), gray(10)], 2);
    let field = energy_field(&image);
    assert_eq!(field.width(), 2);
    assert_eq!(field.original_indices, vec![0, 1, 2, 3]);
    // every cell has one neighbour of 10 000 or none on each axis
    assert_eq!(values(&field), vec![10000, 10000, 10000, 10000]);
    let flat = Matrix::new(vec![gray(200); 9], 3);
    let field = energy_field(&flat);
    // the middle cell has the same gray value on all sides
    assert_eq!(field.vector[4].value, 0);
    // a corner has the edge on two sides: 200 000 times the root of 2
    assert_eq!(field.vector[0].value, 282_842);
    assert_eq!(field.vector[1].value, 200_000);
}

#[test]
fn colours_are_equal_if_their_channels_are() {
    let plain = colour(1, 2, 3);
    let mut marked = colour(1, 2, 3);
    marked.is_inserted = true;
    assert!(plain == marked);
    assert!(plain != colour(1, 2, 4));
    assert!(plain != colour(1, 3, 3));
    assert!(plain != colour(0, 2, 3));
}
