use seam_carving::matrix::Matrix;
use seam_carving::seam::{CarveError, HorizontalSeam, Seam, VerticalSeam};

#[derive(Clone, Copy, PartialEq, Debug)]
enum BgColor {
    Black,
    Red,
    Green,
    Yellow,
    Blue,
    Magenta,
    Cyan,
    White,
}

fn assert_matrices_equal(
    input: Matrix<BgColor>,
    output: Matrix<BgColor>,
    expected: Matrix<BgColor>,
) {
    assert!(
        output.width == expected.width && output.vector == expected.vector,
        "Original: \n{:?}Output: \n{:?}Expected: \n{:?}",
        input.vector,
        output.vector,
        expected.vector
    );
}

fn colours() -> Vec<BgColor> {
    Vec::from([
        BgColor::Black,
        BgColor::Red,
        BgColor::Green,
        BgColor::Yellow,
        BgColor::Blue,
        BgColor::Magenta,
        BgColor::Red,
        BgColor::White,
        BgColor::Cyan,
        BgColor::Black,
        BgColor::Blue,
        BgColor::Yellow,
        BgColor::Cyan,
        BgColor::Red,
        BgColor::Green,
        BgColor::White,
    ])
}

fn without_one_row() -> Vec<BgColor> {
    Vec::from([
        BgColor::Blue,
        BgColor::Red,
        BgColor::Green,
        BgColor::Yellow,
        BgColor::Cyan,
        BgColor::Black,
        BgColor::Blue,
        BgColor::White,
        BgColor::Cyan,
        BgColor::Red,
        BgColor::Green,
        BgColor::White,
    ])
}

fn without_one_column() -> Vec<BgColor> {
    Vec::from([
        BgColor::Red,
        BgColor::Green,
        BgColor::Yellow,
        BgColor::Blue,
        BgColor::Red,
        BgColor::White,
        BgColor::Cyan,
        BgColor::Black,
        BgColor::Yellow,
        BgColor::Cyan,
        BgColor::Red,
        BgColor::Green,
    ])
}

fn numbers(n: usize) -> Matrix<usize> {
    Matrix::new((0..n).map(|k| 100 + k).collect(), 4)
}

#[test]
fn test_horizontal_carving() {
    let matrix = Matrix::new(colours(), 4);
    let mut output = matrix.clone();
    output
        .carve_seam(&Seam {
            indices: vec![0, 5, 6, 11],
            is_vertical: false,
        })
        .unwrap();
    assert_matrices_equal(matrix, output, Matrix::new(without_one_row(), 4));
}

#[test]
fn test_vertical_carving() {
    let matrix = Matrix::new(colours(), 4);
    let mut output = matrix.clone();
    output
        .carve_seam(&Seam {
            indices: vec![0, 5, 10, 15],
            is_vertical: true,
        })
        .unwrap();
    assert_matrices_equal(matrix, output, Matrix::new(without_one_column(), 3));
}

// after horizontal carving not all identifiers are in order
#[test]
fn test_vertical_incorrect_original_index_order() {
    let matrix = Matrix {
        vector: colours(),
        width: 4,
        original_indices: Vec::from([0, 5, 2, 3, 4, 9, 6, 7, 8, 13, 10, 11, 12, 17, 14, 15]),
    };
    let mut output = matrix.clone();
    output
        .carve_seam(&Seam {
            indices: vec![0, 9, 10, 15],
            is_vertical: true,
        })
        .unwrap();
    assert_eq!(
        output.original_indices,
        vec![5, 2, 3, 4, 6, 7, 8, 13, 11, 12, 17, 14]
    );
    assert_matrices_equal(matrix, output, Matrix::new(without_one_column(), 3));
}

#[test]
fn horizontal_carving() {
    let matrix = Matrix::new(colours(), 4);
    let mut output = matrix.clone();
    output
        .carve_horizontal_seam(&HorizontalSeam {
            rows: vec![0, 1, 1, 2],
        })
        .unwrap();
    assert_matrices_equal(matrix, output, Matrix::new(without_one_row(), 4));
}

#[test]
fn vertical_carving() {
    let matrix = Matrix::new(colours(), 4);
    let mut output = matrix.clone();
    output
        .carve_vertical_seam(&VerticalSeam {
            columns: vec![0, 1, 2, 3],
        })
        .unwrap();
    assert_matrices_equal(matrix, output, Matrix::new(without_one_column(), 3));
}

#[test]
fn new_numbers_the_cells_in_order() {
    let matrix = Matrix::new(vec!['a', 'b', 'c', 'd', 'e', 'f'], 3);
    assert_eq!(matrix.width(), 3);
    assert_eq!(matrix.height(), 2);
    assert_eq!(matrix.original_indices, vec![0, 1, 2, 3, 4, 5]);
    assert_eq!(matrix.vector, vec!['a', 'b', 'c', 'd', 'e', 'f']);
}

#[test]
fn vertical_carve_keeps_the_other_cells_in_order() {
    let mut matrix = numbers(16);
    matrix
        .carve_seam(&Seam {
            indices: vec![0, 5, 10, 15],
            is_vertical: true,
        })
        .unwrap();
    assert_eq!(matrix.width(), 3);
    assert_eq!(matrix.height(), 4);
    assert_eq!(
        matrix.original_indices,
        vec![1, 2, 3, 4, 6, 7, 8, 9, 11, 12, 13, 14]
    );
    assert_eq!(
        matrix.vector,
        vec![101, 102, 103, 104, 106, 107, 108, 109, 111, 112, 113, 114]
    );
}

#[test]
fn carve_changes_one_side_by_one() {
    let mut matrix = numbers(12);
    matrix
        .carve_seam(&Seam {
            indices: vec![1, 4, 9],
            is_vertical: true,
        })
        .unwrap();
    assert_eq!((matrix.width(), matrix.height()), (3, 3));
    assert_eq!(matrix.vector.len(), 12 - 3);
    matrix
        .carve_seam(&Seam {
            indices: vec![0, 6, 11],
            is_vertical: false,
        })
        .unwrap();
    assert_eq!((matrix.width(), matrix.height()), (3, 2));
    assert_eq!(matrix.vector.len(), 9 - 3);
    assert_eq!(matrix.original_indices.len(), 6);
}

#[test]
fn identifiers_stay_distinct_after_mixed_carves() {
    let mut matrix = numbers(16);
    matrix
        .carve_seam(&Seam {
            indices: vec![0, 5, 6, 11],
            is_vertical: false,
        })
        .unwrap();
    assert_eq!(
        matrix.original_indices,
        vec![4, 1, 2, 3, 8, 9, 10, 7, 12, 13, 14, 15]
    );
    matrix
        .carve_seam(&Seam {
            indices: vec![1, 9, 13],
            is_vertical: true,
        })
        .unwrap();
    let ids = matrix.original_indices.clone();
    assert_eq!(ids, vec![4, 2, 3, 8, 10, 7, 12, 14, 15]);
    for (i, a) in ids.iter().enumerate() {
        assert!(*a < 16);
        for b in ids.iter().skip(i + 1) {
            assert_ne!(a, b);
        }
    }
    for (cell, id) in matrix.vector.iter().zip(ids.iter()) {
        assert_eq!(*cell, 100 + *id);
    }
}

#[test]
fn carving_the_last_column_is_refused() {
    let mut matrix = Matrix::new(vec![1, 2, 3], 1);
    let done = matrix.carve_seam(&Seam {
        indices: vec![0, 1, 2],
        is_vertical: true,
    });
    assert_eq!(done, Err(CarveError::DimensionExhausted));
    assert_eq!(matrix.vector, vec![1, 2, 3]);
    assert_eq!(matrix.width(), 1);
    let done = matrix.carve_vertical_seam(&VerticalSeam {
        columns: vec![0, 0, 0],
    });
    assert_eq!(done, Err(CarveError::DimensionExhausted));
}

#[test]
fn carving_the_last_row_is_refused() {
    let mut matrix = Matrix::new(vec![1, 2, 3], 3);
    let done = matrix.carve_seam(&Seam {
        indices: vec![0, 1, 2],
        is_vertical: false,
    });
    assert_eq!(done, Err(CarveError::DimensionExhausted));
    let done = matrix.carve_horizontal_seam(&HorizontalSeam {
        rows: vec![0, 0, 0],
    });
    assert_eq!(done, Err(CarveError::DimensionExhausted));
    assert_eq!(matrix.vector, vec![1, 2, 3]);
    assert_eq!(matrix.height(), 1);
}

#[test]
fn a_seam_of_the_wrong_length_is_refused() {
    let mut matrix = numbers(16);
    let done = matrix.carve_seam(&Seam {
        indices: vec![0, 5, 10],
        is_vertical: true,
    });
    assert_eq!(done, Err(CarveError::SeamLengthMismatch));
    let done = matrix.carve_seam(&Seam {
        indices: vec![0, 5, 10, 15, 3],
        is_vertical: false,
    });
    assert_eq!(done, Err(CarveError::SeamLengthMismatch));
    let done = matrix.carve_vertical_seam(&VerticalSeam { columns: vec![0] });
    assert_eq!(done, Err(CarveError::SeamLengthMismatch));
    let done = matrix.carve_horizontal_seam(&HorizontalSeam { rows: vec![] });
    assert_eq!(done, Err(CarveError::SeamLengthMismatch));
    assert_eq!(matrix.vector.len(), 16);
}

#[test]
fn a_seam_outside_its_line_is_refused() {
    let mut matrix = numbers(16);
    // 4 stands in the second row, not in the first
    let done = matrix.carve_seam(&Seam {
        indices: vec![4, 5, 10, 15],
        is_vertical: true,
    });
    assert_eq!(done, Err(CarveError::CellNotFound));
    // 1 stands in the second column, not in the first
    let done = matrix.carve_seam(&Seam {
        indices: vec![1, 5, 10, 15],
        is_vertical: false,
    });
    assert_eq!(done, Err(CarveError::CellNotFound));
    let done = matrix.carve_vertical_seam(&VerticalSeam {
        columns: vec![0, 1, 2, 4],
    });
    assert_eq!(done, Err(CarveError::CellNotFound));
    let done = matrix.carve_horizontal_seam(&HorizontalSeam {
        rows: vec![4, 0, 0, 0],
    });
    assert_eq!(done, Err(CarveError::CellNotFound));
    assert_eq!(matrix.vector, numbers(16).vector);
    assert_eq!(matrix.original_indices, numbers(16).original_indices);
}

#[test]
fn seams_are_named_and_found_again() {
    let mut matrix = numbers(12);
    matrix
        .carve_horizontal_seam(&HorizontalSeam {
            rows: vec![0, 1, 2, 0],
        })
        .unwrap();
    // rows are now [4, 1, 2, 7] and [8, 9, 6, 11]
    let places = VerticalSeam {
        columns: vec![2, 0],
    };
    let named = matrix.seam_of_columns(&places).unwrap();
    assert!(named.is_vertical);
    assert_eq!(named.indices, vec![2, 8]);
    assert_eq!(matrix.columns_of_seam(&named).unwrap().columns, vec![2, 0]);
    let places = HorizontalSeam {
        rows: vec![1, 0, 1, 0],
    };
    let named = matrix.seam_of_rows(&places).unwrap();
    assert!(!named.is_vertical);
    assert_eq!(named.indices, vec![8, 1, 6, 7]);
    assert_eq!(matrix.rows_of_seam(&named).unwrap().rows, vec![1, 0, 1, 0]);
    assert_eq!(
        matrix
            .seam_of_columns(&VerticalSeam { columns: vec![4, 0] })
            .unwrap_err(),
        CarveError::CellNotFound
    );
    assert_eq!(
        matrix
            .seam_of_rows(&HorizontalSeam { rows: vec![0, 0] })
            .unwrap_err(),
        CarveError::SeamLengthMismatch
    );
}

#[test]
fn transposing_exchanges_rows_and_columns() {
    let matrix = Matrix::new(vec![1, 2, 3, 4, 5, 6], 3);
    let turned = matrix.transposed();
    assert_eq!(turned.width(), 2);
    assert_eq!(turned.height(), 3);
    assert_eq!(turned.vector, vec![1, 4, 2, 5, 3, 6]);
    assert_eq!(turned.original_indices, vec![0, 3, 1, 4, 2, 5]);
    let back = turned.transposed();
    assert_eq!(back.width(), 3);
    assert_eq!(back.vector, matrix.vector);
    assert_eq!(back.original_indices, matrix.original_indices);
}
