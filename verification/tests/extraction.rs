use seam_carving::matrix::Matrix;
use seam_carving::seam::{CarveError, VerticalSeam};
use seam_carving::search::GradientMagnitudePoint;

fn point(value: u64) -> GradientMagnitudePoint {
    GradientMagnitudePoint {
        value,
        is_inserted: false,
        is_removed: false,
    }
}

fn removed() -> GradientMagnitudePoint {
    GradientMagnitudePoint {
        value: 0,
        is_inserted: false,
        is_removed: true,
    }
}

fn inserted(value: u64) -> GradientMagnitudePoint {
    GradientMagnitudePoint {
        value,
        is_inserted: true,
        is_removed: false,
    }
}

fn field(values: &[u64], width: usize) -> Matrix<GradientMagnitudePoint> {
    Matrix::new(values.iter().map(|value| point(*value)).collect(), width)
}

#[test]
fn horizontal_seam_extraction() {
    let mut rng = rand::thread_rng();
    let energy_matrix = field(&[0, 1, 3, 2, 0, 1, 3, 2, 0], 3);
    let (seam, total_energy) = energy_matrix
        .extract_horizontal_seam(&mut rng, false)
        .unwrap();
    assert_eq!(seam.rows, [0, 1, 2]);
    assert_eq!(total_energy, 0);
}

#[test]
fn vertical_seam_extraction() {
    let mut rng = rand::thread_rng();
    let energy_matrix = field(&[0, 1, 3, 2, 0, 1, 3, 2, 0], 3);
    let (seam, total_energy) = energy_matrix
        .extract_vertical_seam(&mut rng, false)
        .unwrap();
    assert_eq!(seam.columns, [0, 1, 2]);
    assert_eq!(total_energy, 0);
}

#[test]
fn the_diagonal_of_zeros_is_named_by_its_identifiers() {
    let mut rng = rand::thread_rng();
    let energy = field(&[0, 1, 3, 2, 0, 1, 3, 2, 0], 3);
    let (vertical, _) = energy.extract_vertical_seam(&mut rng, false).unwrap();
    let named = energy.seam_of_columns(&vertical).unwrap();
    assert_eq!(named.indices, vec![0, 4, 8]);
    assert!(named.is_vertical);
    let (horizontal, _) = energy.extract_horizontal_seam(&mut rng, false).unwrap();
    let named = energy.seam_of_rows(&horizontal).unwrap();
    assert_eq!(named.indices, vec![0, 4, 8]);
    assert!(!named.is_vertical);
}

#[test]
fn costs_add_the_cheapest_way_from_above() {
    let energy = field(&[0, 1, 3, 2, 0, 1, 3, 2, 0], 3);
    let costs = energy.vertical_costs(false);
    assert_eq!(
        costs,
        vec![
            Some(0),
            Some(1),
            Some(3),
            Some(2),
            Some(0),
            Some(2),
            Some(3),
            Some(2),
            Some(0)
        ]
    );
    assert_eq!(energy.cheapest_ends(&costs, false), vec![2]);
}

#[test]
fn a_seam_has_one_cell_in_each_line_and_its_energy_is_their_sum() {
    let mut rng = rand::thread_rng();
    let values = [9, 4, 7, 1, 8, 2, 6, 3, 5, 3, 8, 2, 7, 9, 1, 4, 6, 2, 5, 8];
    let energy = field(&values, 5);
    let (seam, total) = energy.extract_vertical_seam(&mut rng, false).unwrap();
    assert_eq!(seam.columns.len(), 4);
    let mut sum: u128 = 0;
    for (row, column) in seam.columns.iter().enumerate() {
        assert!(*column < 5);
        sum += values[row * 5 + *column] as u128;
    }
    assert_eq!(total, sum);
    // 1 in the first row, then 3, 2 and 2 below it
    assert_eq!(total, 1 + 3 + 2 + 2);
    assert_eq!(seam.columns, vec![3, 2, 1, 2]);
    let (seam, total) = energy.extract_horizontal_seam(&mut rng, false).unwrap();
    assert_eq!(seam.rows.len(), 5);
    let mut sum: u128 = 0;
    for (column, row) in seam.rows.iter().enumerate() {
        assert!(*row < 4);
        sum += values[*row * 5 + column] as u128;
    }
    assert_eq!(total, sum);
}

#[test]
fn equally_cheap_ends_are_all_chosen_from() {
    let mut rng = rand::thread_rng();
    let energy = field(&[1, 1, 1, 0, 5, 0], 3);
    let costs = energy.vertical_costs(false);
    assert_eq!(energy.cheapest_ends(&costs, false), vec![0, 2]);
    let mut seen_left = false;
    let mut seen_right = false;
    for _ in 0..200 {
        let (seam, total) = energy.extract_vertical_seam(&mut rng, false).unwrap();
        assert_eq!(total, 1);
        if seam.columns == vec![1, 0] {
            seen_left = true;
        } else {
            assert_eq!(seam.columns, vec![2, 2]);
            seen_right = true;
        }
    }
    assert!(seen_left && seen_right);
}

#[test]
fn a_right_neighbour_that_is_not_dearer_is_preferred() {
    let energy = field(&[1, 1, 1, 5, 0, 5], 3);
    let (seam, total) = energy.vertical_seam_ending_at(false, 1);
    assert_eq!(seam.columns, vec![2, 1]);
    assert_eq!(total, 1);
    let (seam, total) = energy.vertical_seam_ending_at(false, 0);
    assert_eq!(seam.columns, vec![1, 0]);
    assert_eq!(total, 6);
    let (seam, _) = energy.vertical_seam_ending_at(false, 2);
    assert_eq!(seam.columns, vec![2, 2]);
}

#[test]
fn the_straight_way_is_left_only_for_a_cheaper_neighbour() {
    let energy = field(&[2, 3, 4, 0, 0, 0], 3);
    let (seam, total) = energy.vertical_seam_ending_at(false, 1);
    assert_eq!(seam.columns, vec![0, 1]);
    assert_eq!(total, 2);
    let energy = field(&[4, 3, 2, 0, 0, 0], 3);
    let (seam, total) = energy.vertical_seam_ending_at(false, 1);
    assert_eq!(seam.columns, vec![2, 1]);
    assert_eq!(total, 2);
    let energy = field(&[4, 3, 4, 0, 0, 0], 3);
    let (seam, _) = energy.vertical_seam_ending_at(false, 1);
    assert_eq!(seam.columns, vec![1, 1]);
}

#[test]
fn a_seam_skips_removed_cells() {
    let mut rng = rand::thread_rng();
    let energy = Matrix::new(
        vec![point(5), removed(), point(1), point(9), point(2), removed()],
        3,
    );
    let costs = energy.vertical_costs(false);
    assert_eq!(
        costs,
        vec![Some(5), None, Some(1), Some(10), Some(3), None]
    );
    let (seam, total) = energy.extract_vertical_seam(&mut rng, false).unwrap();
    assert_eq!(seam.columns, vec![2, 1]);
    assert_eq!(total, 3);
}

#[test]
fn the_nearest_neighbour_is_the_next_cell_that_is_not_removed() {
    let energy = Matrix::new(
        vec![
            point(1),
            removed(),
            removed(),
            point(2),
            removed(),
            point(3),
            point(4),
            point(5),
            removed(),
            removed(),
            point(6),
            removed(),
            removed(),
            point(7),
            point(8),
        ],
        5,
    );
    assert_eq!(energy.nearest_left(0, 3), Some(0));
    assert_eq!(energy.nearest_left(0, 0), None);
    assert_eq!(energy.nearest_left(0, 4), Some(3));
    assert_eq!(energy.nearest_right(0, 0), Some(3));
    assert_eq!(energy.nearest_right(0, 3), None);
    assert_eq!(energy.nearest_right(1, 3), None);
    assert_eq!(energy.nearest_right(2, 1), Some(3));
    assert_eq!(energy.nearest_left(2, 1), Some(0));
    assert_eq!(energy.nearest_left(2, 0), None);
    assert_eq!(energy.nearest_above(2, 1), Some(1));
    assert_eq!(energy.nearest_above(2, 4), None);
    assert_eq!(energy.nearest_above(1, 1), None);
    assert_eq!(energy.nearest_above(0, 0), None);
    assert_eq!(energy.nearest_below(0, 0), Some(1));
    assert_eq!(energy.nearest_below(0, 4), Some(2));
    assert_eq!(energy.nearest_below(0, 2), Some(1));
    assert_eq!(energy.nearest_below(1, 1), None);
    assert_eq!(energy.nearest_below(2, 3), None);
}

#[test]
fn inserted_cells_cost_nothing_unless_avoided() {
    let mut rng = rand::thread_rng();
    let energy = Matrix::new(vec![inserted(7), point(4), point(9)], 3);
    let (seam, total) = energy.extract_vertical_seam(&mut rng, false).unwrap();
    assert_eq!(seam.columns, vec![0]);
    assert_eq!(total, 7);
    let (seam, total) = energy.extract_vertical_seam(&mut rng, true).unwrap();
    assert_eq!(seam.columns, vec![1]);
    assert_eq!(total, 4);
    assert_eq!(energy.vertical_costs(false), vec![Some(0), Some(4), Some(9)]);
    assert_eq!(energy.vertical_costs(true), vec![None, Some(4), Some(9)]);
}

#[test]
fn a_field_without_a_way_through_has_no_seam() {
    let mut rng = rand::thread_rng();
    let all_removed = Matrix::new(vec![removed(), removed(), removed(), removed()], 2);
    assert_eq!(
        all_removed
            .extract_vertical_seam(&mut rng, false)
            .unwrap_err(),
        CarveError::EmptySearchSpace
    );
    assert_eq!(
        all_removed
            .extract_horizontal_seam(&mut rng, false)
            .unwrap_err(),
        CarveError::EmptySearchSpace
    );
    let row_removed = Matrix::new(vec![point(1), point(2), removed(), removed()], 2);
    assert_eq!(
        row_removed
            .extract_vertical_seam(&mut rng, false)
            .unwrap_err(),
        CarveError::EmptySearchSpace
    );
    assert!(row_removed.extract_horizontal_seam(&mut rng, false).is_ok());
    let all_inserted = Matrix::new(vec![inserted(1), inserted(2)], 2);
    assert_eq!(
        all_inserted
            .extract_vertical_seam(&mut rng, true)
            .unwrap_err(),
        CarveError::EmptySearchSpace
    );
    assert!(all_inserted.extract_vertical_seam(&mut rng, false).is_ok());
    let empty = field(&[], 3);
    assert_eq!(
        empty.extract_vertical_seam(&mut rng, false).unwrap_err(),
        CarveError::EmptySearchSpace
    );
    assert_eq!(
        empty.extract_horizontal_seam(&mut rng, false).unwrap_err(),
        CarveError::EmptySearchSpace
    );
}

#[test]
fn a_field_of_one_column_or_one_row_has_a_straight_seam() {
    let mut rng = rand::thread_rng();
    let column = field(&[3, 1, 4, 1, 5], 1);
    let (seam, total) = column.extract_vertical_seam(&mut rng, false).unwrap();
    assert_eq!(seam.columns, vec![0, 0, 0, 0, 0]);
    assert_eq!(total, 14);
    let (seam, total) = column.extract_horizontal_seam(&mut rng, false).unwrap();
    assert!(seam.rows == vec![1] || seam.rows == vec![3]);
    assert_eq!(total, 1);
    let row = field(&[3, 1, 4, 2, 5], 5);
    let (seam, total) = row.extract_vertical_seam(&mut rng, false).unwrap();
    assert_eq!(seam.columns, vec![1]);
    assert_eq!(total, 1);
    let (seam, total) = row.extract_horizontal_seam(&mut rng, false).unwrap();
    assert_eq!(seam.rows, vec![0, 0, 0, 0, 0]);
    assert_eq!(total, 15);
}

#[test]
fn a_horizontal_seam_is_a_vertical_seam_of_the_transposed_field() {
    let values = [9, 4, 7, 1, 8, 2, 6, 3, 5, 3, 8, 2];
    let energy = field(&values, 4);
    let turned = energy.transposed();
    for last in 0..3 {
        let (across, total) = energy.horizontal_seam_ending_at(false, last);
        let (down, same) = turned.vertical_seam_ending_at(false, last);
        assert_eq!(across.rows, down.columns);
        assert_eq!(total, same);
    }
    let (seam, total) = energy.horizontal_seam_ending_at(false, 0);
    // 2 at the right end of the first row, then 3, 2 and 5 to the left
    assert_eq!(seam.rows, vec![2, 1, 1, 0]);
    assert_eq!(total, 5 + 2 + 6 + 1);
}

#[test]
fn no_seam_is_cheaper_than_the_one_found() {
    let mut rng = rand::thread_rng();
    let values = [5, 1, 9, 4, 7, 3, 8, 2, 6, 2, 9, 1];
    let energy = field(&values, 3);
    let (_, total) = energy.extract_vertical_seam(&mut rng, false).unwrap();
    let mut least = u128::MAX;
    for a in 0..3usize {
        for b in 0..3usize {
            for c in 0..3usize {
                for d in 0..3usize {
                    let path = VerticalSeam {
                        columns: vec![a, b, c, d],
                    };
                    let joined = path
                        .columns
                        .windows(2)
                        .all(|pair| pair[0].abs_diff(pair[1]) <= 1);
                    if joined {
                        let cost: u128 = path
                            .columns
                            .iter()
                            .enumerate()
                            .map(|(row, column)| values[row * 3 + column] as u128)
                            .sum();
                        least = least.min(cost);
                    }
                }
            }
        }
    }
    assert_eq!(total, least);
    assert_eq!(total, 1 + 3 + 2 + 1);
}
