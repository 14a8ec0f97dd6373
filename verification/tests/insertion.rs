use seam_carving::index::{has_no_duplicates, place_in};
use seam_carving::matrix::Matrix;
use seam_carving::seam::{CarveError, HorizontalSeam, Seam, VerticalSeam};

fn numbers(n: usize, width: usize) -> Matrix<usize> {
    Matrix::new((0..n).map(|k| 100 + k).collect(), width)
}

fn assert_same(left: &Matrix<usize>, right: &Matrix<usize>) {
    assert_eq!(left.width(), right.width());
    assert_eq!(left.vector, right.vector);
    assert_eq!(left.original_indices, right.original_indices);
}

#[test]
fn vertical_seam_insertion() {
    let first_color = 0;
    let second_color = 100;
    let mid_color = 50;
    // the grid with the seam in place, which the cells are taken from
    let source = Matrix::new(
        Vec::from([
            first_color,
            mid_color,
            second_color,
            second_color,
            first_color,
            mid_color,
            second_color,
            second_color,
            first_color,
            mid_color,
            second_color,
            second_color,
        ]),
        4,
    );
    let mut matrix = source.clone();
    matrix
        .carve_vertical_seam(&VerticalSeam {
            columns: Vec::from([1, 1, 1]),
        })
        .unwrap();
    assert_eq!(
        matrix.vector,
        Vec::from([
            first_color,
            second_color,
            second_color,
            first_color,
            second_color,
            second_color,
            first_color,
            second_color,
            second_color,
        ])
    );

    let seam = Seam {
        indices: Vec::from([1, 5, 9]),
        is_vertical: true,
    };
    matrix.insert_vertical_seam(&seam, &source).unwrap();

    assert_eq!(
        matrix.vector,
        Vec::from([
            first_color,
            mid_color,
            second_color,
            second_color,
            first_color,
            mid_color,
            second_color,
            second_color,
            first_color,
            mid_color,
            second_color,
            second_color,
        ])
    );
}

#[test]
fn horizontal_seam_insertion() {
    let first_color = 50;
    let second_color = 100;
    let third_color = 150;
    // the grid with the seam in place, which the cells are taken from
    let source = Matrix::new(
        Vec::from([
            first_color,
            second_color,
            third_color,
            second_color,
            75,
            third_color,
            second_color,
            first_color,
            third_color,
            third_color,
            second_color,
            third_color,
        ]),
        3,
    );
    let mut matrix = source.clone();
    matrix
        .carve_horizontal_seam(&HorizontalSeam {
            rows: Vec::from([2, 1, 2]),
        })
        .unwrap();
    assert_eq!(
        matrix.vector,
        Vec::from([
            first_color,
            second_color,
            third_color,
            second_color,
            first_color,
            third_color,
            third_color,
            second_color,
            third_color,
        ])
    );

    let seam = Seam {
        indices: Vec::from([6, 4, 8]),
        is_vertical: false,
    };
    matrix.insert_horizontal_seam(&seam, &source).unwrap();

    assert_eq!(
        matrix.vector,
        Vec::from([
            first_color,
            second_color,
            third_color,
            second_color,
            75,
            third_color,
            second_color,
            first_color,
            third_color,
            third_color,
            second_color,
            third_color,
        ])
    );
}

#[test]
fn carving_and_putting_back_gives_the_grid_back() {
    let pristine = numbers(16, 4);
    let seams = [
        Seam {
            indices: vec![0, 5, 10, 15],
            is_vertical: true,
        },
        Seam {
            indices: vec![3, 7, 11, 15],
            is_vertical: true,
        },
        Seam {
            indices: vec![1, 4, 8, 13],
            is_vertical: true,
        },
        Seam {
            indices: vec![0, 5, 6, 11],
            is_vertical: false,
        },
        Seam {
            indices: vec![12, 13, 14, 15],
            is_vertical: false,
        },
        Seam {
            indices: vec![4, 1, 2, 7],
            is_vertical: false,
        },
    ];
    for seam in seams.iter() {
        let mut matrix = pristine.clone();
        matrix.carve_seam(seam).unwrap();
        assert_eq!(matrix.vector.len(), 12);
        matrix.insert_seam(seam, &pristine).unwrap();
        assert_same(&matrix, &pristine);
    }
}

#[test]
fn the_round_trip_holds_where_identifiers_are_out_of_order() {
    let mut mixed = numbers(16, 4);
    mixed
        .carve_seam(&Seam {
            indices: vec![0, 5, 6, 11],
            is_vertical: false,
        })
        .unwrap();
    assert_eq!(
        mixed.original_indices,
        vec![4, 1, 2, 3, 8, 9, 10, 7, 12, 13, 14, 15]
    );
    let vertical = Seam {
        indices: vec![1, 8, 15],
        is_vertical: true,
    };
    let mut matrix = mixed.clone();
    matrix.carve_seam(&vertical).unwrap();
    assert_eq!(matrix.original_indices, vec![4, 2, 3, 9, 10, 7, 12, 13, 14]);
    matrix.insert_seam(&vertical, &mixed).unwrap();
    assert_same(&matrix, &mixed);
    let horizontal = Seam {
        indices: vec![4, 13, 10, 3],
        is_vertical: false,
    };
    let mut matrix = mixed.clone();
    matrix.carve_seam(&horizontal).unwrap();
    assert_eq!(matrix.original_indices, vec![8, 1, 2, 7, 12, 9, 14, 15]);
    matrix.insert_seam(&horizontal, &mixed).unwrap();
    assert_same(&matrix, &mixed);
}

#[test]
fn seams_of_one_orientation_return_from_the_original_last_first() {
    let pristine = numbers(15, 5);
    let first = Seam {
        indices: vec![0, 6, 12],
        is_vertical: true,
    };
    let second = Seam {
        indices: vec![1, 7, 11],
        is_vertical: true,
    };
    let third = Seam {
        indices: vec![4, 9, 14],
        is_vertical: true,
    };
    let mut matrix = pristine.clone();
    matrix.carve_seam(&first).unwrap();
    let after_first = matrix.clone();
    matrix.carve_seam(&second).unwrap();
    let after_second = matrix.clone();
    matrix.carve_seam(&third).unwrap();
    assert_eq!(matrix.original_indices, vec![2, 3, 5, 8, 10, 13]);
    matrix.insert_seam(&third, &pristine).unwrap();
    assert_same(&matrix, &after_second);
    matrix.insert_seam(&second, &pristine).unwrap();
    assert_same(&matrix, &after_first);
    matrix.insert_seam(&first, &pristine).unwrap();
    assert_same(&matrix, &pristine);

    let pristine = numbers(12, 3);
    let first = Seam {
        indices: vec![0, 4, 8],
        is_vertical: false,
    };
    let second = Seam {
        indices: vec![3, 1, 2],
        is_vertical: false,
    };
    let mut matrix = pristine.clone();
    matrix.carve_seam(&first).unwrap();
    let after_first = matrix.clone();
    matrix.carve_seam(&second).unwrap();
    assert_eq!(matrix.original_indices, vec![6, 7, 5, 9, 10, 11]);
    matrix.insert_seam(&second, &pristine).unwrap();
    assert_same(&matrix, &after_first);
    matrix.insert_seam(&first, &pristine).unwrap();
    assert_same(&matrix, &pristine);
}

#[test]
fn inserting_changes_one_side_by_one() {
    let pristine = numbers(12, 4);
    let mut matrix = pristine.clone();
    matrix
        .carve_seam(&Seam {
            indices: vec![2, 5, 8],
            is_vertical: true,
        })
        .unwrap();
    assert_eq!((matrix.width(), matrix.height()), (3, 3));
    matrix
        .insert_seam(
            &Seam {
                indices: vec![2, 5, 8],
                is_vertical: true,
            },
            &pristine,
        )
        .unwrap();
    assert_eq!((matrix.width(), matrix.height()), (4, 3));
    assert_eq!(matrix.vector.len(), 9 + 3);
    matrix
        .carve_seam(&Seam {
            indices: vec![0, 5, 10, 3],
            is_vertical: false,
        })
        .unwrap();
    assert_eq!((matrix.width(), matrix.height()), (4, 2));
    matrix
        .insert_seam(
            &Seam {
                indices: vec![0, 5, 10, 3],
                is_vertical: false,
            },
            &pristine,
        )
        .unwrap();
    assert_eq!((matrix.width(), matrix.height()), (4, 3));
    assert_eq!(matrix.vector.len(), 8 + 4);
    assert_same(&matrix, &pristine);
}

#[test]
fn seams_return_from_the_original_after_carves_of_both_orientations() {
    let pristine = numbers(20, 5);
    let down = [
        Seam {
            indices: vec![2, 6, 10, 16],
            is_vertical: true,
        },
        Seam {
            indices: vec![0, 5, 11, 15],
            is_vertical: true,
        },
    ];
    let across = [
        Seam {
            indices: vec![1, 8, 4],
            is_vertical: false,
        },
        Seam {
            indices: vec![7, 3, 19],
            is_vertical: false,
        },
    ];
    let mut matrix = pristine.clone();
    let mut states = Vec::new();
    for seam in down.iter().chain(across.iter()) {
        states.push(matrix.clone());
        matrix.carve_seam(seam).unwrap();
    }
    assert_eq!((matrix.width(), matrix.height()), (3, 2));
    assert_eq!(matrix.original_indices, vec![12, 13, 9, 17, 18, 14]);
    for seam in across.iter().rev().chain(down.iter().rev()) {
        matrix.insert_seam(seam, &pristine).unwrap();
        assert_same(&matrix, &states.pop().unwrap());
    }
    assert_same(&matrix, &pristine);
}

#[test]
fn a_cell_without_a_follower_goes_to_the_end_of_its_line() {
    let source = numbers(6, 3);
    let mut matrix = Matrix {
        width: 2,
        vector: vec![100, 101, 103, 104],
        original_indices: vec![0, 1, 3, 4],
    };
    matrix
        .insert_vertical_seam(
            &Seam {
                indices: vec![2, 5],
                is_vertical: true,
            },
            &source,
        )
        .unwrap();
    assert_same(&matrix, &source);
    let mut matrix = Matrix {
        width: 3,
        vector: vec![100, 101, 102],
        original_indices: vec![0, 1, 2],
    };
    matrix
        .insert_horizontal_seam(
            &Seam {
                indices: vec![3, 4, 5],
                is_vertical: false,
            },
            &source,
        )
        .unwrap();
    assert_same(&matrix, &source);
}

#[test]
fn a_grid_without_rows_takes_a_first_row() {
    let source = numbers(3, 3);
    let mut matrix: Matrix<usize> = Matrix::new(vec![], 3);
    matrix
        .insert_horizontal_seam(
            &Seam {
                indices: vec![2, 0, 1],
                is_vertical: false,
            },
            &source,
        )
        .unwrap();
    assert_eq!(matrix.height(), 1);
    assert_eq!(matrix.vector, vec![102, 100, 101]);
    assert_eq!(matrix.original_indices, vec![2, 0, 1]);
}

#[test]
fn a_seam_that_cannot_be_put_back_is_refused() {
    let pristine = numbers(12, 4);
    let seam = Seam {
        indices: vec![1, 5, 9],
        is_vertical: true,
    };
    let mut carved = pristine.clone();
    carved.carve_seam(&seam).unwrap();
    let before = carved.clone();

    let short = Seam {
        indices: vec![1, 5],
        is_vertical: true,
    };
    assert_eq!(
        carved.insert_seam(&short, &pristine),
        Err(CarveError::SeamLengthMismatch)
    );
    let as_horizontal = Seam {
        indices: vec![1, 5, 9, 0],
        is_vertical: false,
    };
    assert_eq!(
        carved.insert_horizontal_seam(&as_horizontal, &pristine),
        Err(CarveError::SeamLengthMismatch)
    );
    let unknown = Seam {
        indices: vec![1, 5, 40],
        is_vertical: true,
    };
    assert_eq!(
        carved.insert_seam(&unknown, &pristine),
        Err(CarveError::CellNotFound)
    );
    let present = Seam {
        indices: vec![1, 5, 10],
        is_vertical: true,
    };
    assert_eq!(
        carved.insert_seam(&present, &pristine),
        Err(CarveError::OriginAlreadyPresent)
    );
    let twice = Seam {
        indices: vec![1, 5, 5],
        is_vertical: true,
    };
    assert_eq!(
        carved.insert_vertical_seam(&twice, &pristine),
        Err(CarveError::OriginAlreadyPresent)
    );
    let present_in_column = Seam {
        indices: vec![0, 5, 9],
        is_vertical: false,
    };
    assert_eq!(
        carved.insert_horizontal_seam(&present_in_column, &pristine),
        Err(CarveError::OriginAlreadyPresent)
    );
    assert_same(&carved, &before);
}

#[test]
fn cells_are_found_by_their_identifiers() {
    let mut matrix = numbers(12, 4);
    matrix
        .carve_horizontal_seam(&HorizontalSeam {
            rows: vec![0, 1, 2, 0],
        })
        .unwrap();
    // the rows are now [4, 1, 2, 7] and [8, 9, 6, 11]
    let index = matrix.index();
    assert_eq!(index.len(), 8);
    assert_eq!(place_in(&index, 4), Some(0));
    assert_eq!(place_in(&index, 7), Some(3));
    assert_eq!(place_in(&index, 6), Some(6));
    assert_eq!(place_in(&index, 11), Some(7));
    assert_eq!(place_in(&index, 0), None);
    assert_eq!(place_in(&index, 5), None);
    for (place, id) in matrix.original_indices.iter().enumerate() {
        assert_eq!(place_in(&index, *id), Some(place));
    }
    assert!(has_no_duplicates(&vec![]));
    assert!(has_no_duplicates(&vec![3, 1, 2]));
    assert!(!has_no_duplicates(&vec![3, 1, 3]));
    assert!(!has_no_duplicates(&vec![1, 1]));
}
