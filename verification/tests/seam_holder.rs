use seam_carving::seam::Seam;
use seam_carving::seam_holder::SeamHolder;

#[test]
pub fn vertical_seam_popping() {
    let mut seam_holder = SeamHolder::new();

    for index in 0..11 {
        seam_holder.push_seam(Seam {
            indices: (index..100).step_by(10).collect(),
            is_vertical: true,
        });
    }

    let popped_seams = seam_holder.pop_n_seams(3, true);

    // the seam pushed last comes first
    assert_eq!(
        popped_seams
            .iter()
            .map(|seam| seam.indices.clone())
            .collect::<Vec<Vec<usize>>>(),
        (8..11)
            .rev()
            .map(|index| (index..100).step_by(10).collect())
            .collect::<Vec<Vec<usize>>>()
    );

    assert_eq!(
        seam_holder
            .vertical_seams
            .iter()
            .map(|seam| seam.indices.clone())
            .collect::<Vec<Vec<usize>>>(),
        (0..8)
            .map(|index| (index..100).step_by(10).collect())
            .collect::<Vec<Vec<usize>>>()
    );
}

#[test]
pub fn horizontal_seam_popping() {
    let mut seam_holder = SeamHolder::new();

    for index in 0..11 {
        seam_holder.push_seam(Seam {
            indices: ((index * 10)..(index * 10 + 10)).collect(),
            is_vertical: false,
        });
    }

    let popped_seams = seam_holder.pop_n_seams(3, false);

    // the seam pushed last comes first
    assert_eq!(
        popped_seams
            .iter()
            .map(|seam| seam.indices.clone())
            .collect::<Vec<Vec<usize>>>(),
        (8..11)
            .rev()
            .map(|index| ((index * 10)..(index * 10 + 10)).collect())
            .collect::<Vec<Vec<usize>>>()
    );

    assert_eq!(
        seam_holder
            .horizontal_seams
            .iter()
            .map(|seam| seam.indices.clone())
            .collect::<Vec<Vec<usize>>>(),
        (0..8)
            .map(|index| ((index * 10)..(index * 10 + 10)).collect())
            .collect::<Vec<Vec<usize>>>()
    );
}

#[test]
pub fn seam_popping_overflow() {
    let mut seam_holder = SeamHolder::new();

    let expected: Vec<Vec<usize>> = vec![];

    let popped_seams = seam_holder.pop_n_seams(3, true);
    assert_eq!(
        popped_seams
            .iter()
            .map(|seam| seam.indices.clone())
            .collect::<Vec<Vec<usize>>>(),
        expected
    );

    let popped_seams = seam_holder.pop_n_seams(3, false);
    assert_eq!(
        popped_seams
            .iter()
            .map(|seam| seam.indices.clone())
            .collect::<Vec<Vec<usize>>>(),
        expected
    );
}

#[test]
pub fn vertical_overflowing_indices() {
    let mut seam_holder = SeamHolder::new();
    seam_holder.push_seam(Seam {
        indices: [
            (0..5).collect::<Vec<usize>>(),
            (6..10).collect::<Vec<usize>>(),
        ]
        .concat(),
        is_vertical: true,
    });

    let overflowing_indices: Vec<usize> = Vec::from([5]);

    seam_holder.insert_overflowing_indices(overflowing_indices, true);

    assert_eq!(
        seam_holder.vertical_seams[0].indices,
        (0..10).collect::<Vec<usize>>()
    );
}

#[test]
fn horizontal_overflowing_indices() {
    let mut seam_holder = SeamHolder::new();
    seam_holder.push_seam(Seam {
        indices: [
            (0..5).collect::<Vec<usize>>(),
            (6..10).collect::<Vec<usize>>(),
        ]
        .concat(),
        is_vertical: false,
    });
    seam_holder.push_seam(Seam {
        indices: [
            (10..17).collect::<Vec<usize>>(),
            (18..20).collect::<Vec<usize>>(),
        ]
        .concat(),
        is_vertical: false,
    });

    let overflowing_indices: Vec<usize> = Vec::from([5, 17]);

    seam_holder.insert_overflowing_indices(overflowing_indices, false);

    assert_eq!(
        seam_holder.pop_n_seams(1, false)[0].indices,
        (10..20).collect::<Vec<usize>>()
    );
    assert_eq!(
        seam_holder.pop_n_seams(1, false)[0].indices,
        (0..10).collect::<Vec<usize>>()
    );
}

fn seam(first: usize, is_vertical: bool) -> Seam {
    Seam {
        indices: vec![first, first + 1],
        is_vertical,
    }
}

fn firsts(seams: &[Seam]) -> Vec<usize> {
    seams.iter().map(|seam| seam.indices[0]).collect()
}

#[test]
fn popping_more_than_was_pushed_gives_all() {
    let mut holder = SeamHolder::new();
    holder.push_seam(seam(10, true));
    holder.push_seam(seam(20, true));
    holder.push_seam(seam(30, false));
    let popped = holder.pop_n_seams(5, true);
    assert_eq!(firsts(&popped), vec![20, 10]);
    assert!(popped.iter().all(|seam| seam.is_vertical));
    assert!(holder.vertical_seams.is_empty());
    assert_eq!(firsts(&holder.horizontal_seams), vec![30]);
}

#[test]
fn popping_none_changes_nothing() {
    let mut holder = SeamHolder::new();
    holder.push_seam(seam(10, false));
    holder.push_seam(seam(20, false));
    assert!(holder.pop_n_seams(0, false).is_empty());
    assert_eq!(firsts(&holder.horizontal_seams), vec![10, 20]);
}

#[test]
fn pop_undoes_push() {
    let mut holder = SeamHolder::new();
    holder.push_seam(seam(1, true));
    holder.push_seam(seam(2, true));
    holder.push_seam(seam(3, true));
    holder.push_seam(seam(4, true));
    let popped = holder.pop_n_seams(2, true);
    assert_eq!(firsts(&popped), vec![4, 3]);
    assert_eq!(firsts(&holder.vertical_seams), vec![1, 2]);
    let popped = holder.pop_n_seams(1, true);
    assert_eq!(firsts(&popped), vec![2]);
    assert_eq!(firsts(&holder.vertical_seams), vec![1]);
}

#[test]
fn pushing_goes_by_orientation() {
    let mut holder = SeamHolder::new();
    holder.push_seam(seam(1, true));
    holder.push_seam(seam(2, false));
    holder.push_seam(seam(3, true));
    assert_eq!(firsts(&holder.vertical_seams), vec![1, 3]);
    assert_eq!(firsts(&holder.horizontal_seams), vec![2]);
}

#[test]
fn an_identifier_above_all_others_goes_to_the_end() {
    let mut holder = SeamHolder::new();
    holder.push_seam(Seam {
        indices: vec![1, 4, 7],
        is_vertical: true,
    });
    holder.insert_overflowing_indices(vec![9], true);
    assert_eq!(holder.vertical_seams[0].indices, vec![1, 4, 7, 9]);
    holder.insert_overflowing_indices(vec![0], true);
    assert_eq!(holder.vertical_seams[0].indices, vec![0, 1, 4, 7, 9]);
    holder.insert_overflowing_indices(vec![4], true);
    assert_eq!(holder.vertical_seams[0].indices, vec![0, 1, 4, 4, 7, 9]);
}

#[test]
fn only_the_last_seams_take_overflowing_identifiers() {
    let mut holder = SeamHolder::new();
    holder.push_seam(Seam {
        indices: vec![0, 10],
        is_vertical: false,
    });
    holder.push_seam(Seam {
        indices: vec![1, 11],
        is_vertical: false,
    });
    holder.push_seam(Seam {
        indices: vec![2, 12],
        is_vertical: false,
    });
    holder.push_seam(Seam {
        indices: vec![3],
        is_vertical: true,
    });
    holder.insert_overflowing_indices(vec![5, 20], false);
    assert_eq!(holder.horizontal_seams[0].indices, vec![0, 10]);
    assert_eq!(holder.horizontal_seams[1].indices, vec![1, 5, 11]);
    assert_eq!(holder.horizontal_seams[2].indices, vec![2, 12, 20]);
    assert!(!holder.horizontal_seams[1].is_vertical);
    assert_eq!(holder.vertical_seams[0].indices, vec![3]);
    holder.insert_overflowing_indices(vec![], false);
    assert_eq!(holder.horizontal_seams[2].indices, vec![2, 12, 20]);
}
