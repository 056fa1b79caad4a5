use msmp::two_d_array::{RowSizeIterator, TwoDArray};
use msmp::{ElcAlgorithm, Kind, WordList};

#[test]
fn two_d_array_unit_test() {
    let hash_algorithm: ElcAlgorithm = ElcAlgorithm::default();

    let mut word_list = WordList::new();
    word_list.push("WORD");

    match TwoDArray::new(&word_list, &hash_algorithm) {
        Ok(a) => {
            assert_eq!(a.get_num_entries(), 1);
            assert_eq!(a.get_num_rows(), 1);
            println!("{a:?}");
        }
        Err(e) => panic!("Unexpected 2D array creation failure. {}", e.to_string()),
    }

    word_list.push("WIRE");
    word_list.push("ABLE");
    match TwoDArray::new(&word_list, &hash_algorithm) {
        Ok(a) => {
            assert_eq!(a.get_num_entries(), 3);
            assert_eq!(a.get_num_rows(), 2);
            let mut it = RowSizeIterator::new(&a);
            println!("{it:?}");
            if let Some((row_index, row)) = it.next_biggest() {
                assert_eq!(row_index, 22);
                assert_eq!(row.get_col_indices().len(), 2);
                assert_eq!(row.get_col_indices(), vec![3, 4]);
                assert_eq!(row.get_col_values(), vec![1, 2]);
            } else {
                panic!("Unexpected iterator None");
            }
            if let Some((row_index, row)) = it.next_biggest() {
                assert_eq!(row_index, 0);
                assert_eq!(row.get_col_indices().len(), 1);
            } else {
                panic!("Unexpected iterator None");
            }
            if let Some((_, _)) = it.next_biggest() {
                panic!("Unexpected iterator Some");
            }
        }
        Err(e) => panic!("Unexpected 2D array creation failure. {}", e.to_string()),
    }

    word_list.push("WILD");
    if let Ok(_a) = TwoDArray::new(&word_list, &hash_algorithm) {
        panic!("Undetected collision.");
    }
}

#[test]
fn two_d_array_collision_names_both_words() {
    let hash_algorithm = ElcAlgorithm::default();
    let mut word_list = WordList::new();
    for word in ["WORD", "WIRE", "ABLE", "WILD"] {
        word_list.push(word);
    }
    match TwoDArray::new(&word_list, &hash_algorithm).unwrap_err().kind() {
        Kind::TwoDArrayError(s) => assert_eq!(s, "Collision: WORD === WILD"),
        _ => panic!("Unexpected error type"),
    }
}

#[test]
fn two_d_array_reports_first_hash_failure() {
    let hash_algorithm = ElcAlgorithm::new(3, 26);
    let mut word_list = WordList::new();
    for word in ["WORD", "AB", "A"] {
        word_list.push(word);
    }
    match TwoDArray::new(&word_list, &hash_algorithm).unwrap_err().kind() {
        Kind::ElcAlgorithmError(s) => assert_eq!(
            s,
            "Expected word length (2) to be greater than or equal to elc (3)."
        ),
        _ => panic!("Unexpected error type"),
    }
}

#[test]
fn two_d_array_rows_come_by_size_then_by_index() {
    let hash_algorithm = ElcAlgorithm::default();
    let mut word_list = WordList::new();
    // Rows: C has 1 cell, B has 2, A has 2, D has 3.
    for word in ["CA", "BB", "BA", "AZ", "AC", "DD", "DA", "DC"] {
        word_list.push(word);
    }
    let a = TwoDArray::new(&word_list, &hash_algorithm).unwrap();
    assert_eq!(a.get_num_entries(), 8);
    assert_eq!(a.get_num_rows(), 4);
    assert_eq!(a.get_last_row_index(), 3);
    let mut it = RowSizeIterator::new(&a);
    let mut seen = Vec::new();
    while let Some((row_index, row)) = it.next_biggest() {
        seen.push((row_index, row.get_col_indices(), row.get_col_values()));
    }
    assert_eq!(
        seen,
        vec![
            (3, vec![0, 2, 3], vec![7, 8, 6]),
            (0, vec![2, 25], vec![5, 4]),
            (1, vec![0, 1], vec![3, 2]),
            (2, vec![0], vec![1]),
        ]
    );
}
