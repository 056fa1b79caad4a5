use msmp::one_d_packed_array::OneDPackedArray;
use msmp::two_d_array::TwoDArray;
use msmp::{ElcAlgorithm, HashAlgorithm, Kind, WordList};

#[test]
fn one_d_packed_array_unit_test() {
    let hash_algorithm: ElcAlgorithm = ElcAlgorithm::default();

    let mut word_list = WordList::new();
    word_list.push("AXXA");
    word_list.push("AXXC");
    word_list.push("AXXD");
    word_list.push("BXXA");
    word_list.push("BXXC");

    if let Ok(tda) = TwoDArray::new(&word_list, &hash_algorithm) {
        if let Ok(odpa) = OneDPackedArray::new(&tda) {
            println!("{odpa:?}");
            assert_eq!(*odpa.get_array(), vec![1, 5, 2, 3, 4]);
            assert_eq!(odpa.get_rlt().get(0), Some(&0));
            assert_eq!(odpa.get_rlt().get(1), Some(&4));
            assert_eq!(odpa.get_array().len(), 5);
            assert!(!odpa.is_empty());
        } else {
            panic!("Unable to create OneDPackedArray");
        }
    } else {
        panic!("Unable to create TwoDArray");
    }

    word_list.push("BXXZ");
    if let Ok(tda) = TwoDArray::new(&word_list, &hash_algorithm) {
        match OneDPackedArray::new(&tda) {
            Ok(_) => panic!("Should not be able to create OneDPackedArray"),
            Err(e) => match e.kind() {
                Kind::OneDPackedArrayError(s) => {
                    assert_eq!(s, "unable to minimally pack array");
                }
                _ => panic!("Unexpected error type"),
            },
        }
    } else {
        panic!("Unable to create TwoDArray");
    }

    let mut word_list2 = WordList::new();
    word_list2.push("WORD");
    word_list2.push("WORF");

    if let Ok(tda) = TwoDArray::new(&word_list2, &hash_algorithm) {
        match OneDPackedArray::new(&tda) {
            Ok(_) => panic!("Should not be able to create OneDPackedArray"),
            Err(e) => match e.kind() {
                Kind::OneDPackedArrayError(s) => {
                    assert_eq!(s, "unable to minimally pack array");
                }
                _ => panic!("Unexpected error type"),
            },
        }
    } else {
        panic!("Unable to create TwoDArray");
    }
}

fn packed(words: &[&str], algorithm: &ElcAlgorithm) -> Result<OneDPackedArray, msmp::Error> {
    let mut word_list = WordList::new();
    for word in words {
        word_list.push(word);
    }
    let tda = TwoDArray::new(&word_list, algorithm).unwrap();
    OneDPackedArray::new(&tda)
}

fn table(odpa: &OneDPackedArray) -> Vec<isize> {
    let mut table = Vec::new();
    let mut index = 0;
    while let Some(value) = odpa.get_rlt().get(index) {
        table.push(*value);
        index += 1;
    }
    table
}

#[test]
fn packing_takes_the_first_fit_of_each_row() {
    let odpa = packed(
        &["AND", "ARRAY", "BEGIN", "CHAR", "CONST", "DIV", "DO", "EOF"],
        &ElcAlgorithm::default(),
    )
    .unwrap();
    assert_eq!(table(&odpa), vec![-3, -11, -16, -7, -1]);
    assert_eq!(odpa.get_rlt().get_num_entries(), 8);
    // Row A has the slots 0 and 5, row C the slots 1 and 3. Row D wraps
    // around: its columns 14 and 21 fall on the slots 7 and 6.
    assert_eq!(*odpa.get_array(), vec![1, 4, 3, 5, 8, 2, 6, 7]);
}

#[test]
fn packing_leaves_unused_rows_at_zero() {
    let odpa = packed(&["AA", "DB", "DC"], &ElcAlgorithm::default()).unwrap();
    assert_eq!(table(&odpa), vec![2, 0, 0, -1]);
    assert_eq!(*odpa.get_array(), vec![2, 3, 1]);
}

#[test]
fn packing_fails_on_a_column_beyond_the_signed_range() {
    let algorithm = ElcAlgorithm::new(14, 26);
    assert_eq!(algorithm.h1("AAAAAAAAAAAAAE").unwrap(), 4);
    let col = algorithm.h2("AAAAAAAAAAAAAE").unwrap();
    assert_eq!(col as u128, 4 * 26u128.pow(13));
    assert!(col > isize::MAX as usize);
    match packed(&["AAAAAAAAAAAAAE"], &algorithm).unwrap_err().kind() {
        Kind::OneDPackedArrayError(s) => assert_eq!(s, "Unexpected index overflow"),
        _ => panic!("Unexpected error type"),
    }
}

/// Every word in one cell.
#[derive(Debug)]
struct OneCell {
    row: usize,
    col: usize,
}

impl HashAlgorithm for OneCell {
    fn h1(&self, _word: &str) -> Result<usize, msmp::Error> {
        Ok(self.row)
    }

    fn h2(&self, _word: &str) -> Result<usize, msmp::Error> {
        Ok(self.col)
    }

    fn h1_as_text(&self) -> String {
        format!("{}", self.row)
    }

    fn h2_as_text(&self) -> String {
        format!("{}", self.col)
    }
}

#[test]
fn packing_fails_on_the_last_row_index_there_is() {
    let mut word_list = WordList::new();
    word_list.push("A");
    let tda = TwoDArray::new(
        &word_list,
        &OneCell {
            row: usize::MAX,
            col: 0,
        },
    )
    .unwrap();
    assert_eq!(tda.get_last_row_index(), usize::MAX);
    match OneDPackedArray::new(&tda).unwrap_err().kind() {
        Kind::OneDPackedArrayError(s) => assert_eq!(s, "Unexpected index overflow"),
        _ => panic!("Unexpected error type"),
    }
}

#[test]
fn packing_of_one_word_in_a_far_column() {
    let mut word_list = WordList::new();
    word_list.push("A");
    let tda = TwoDArray::new(
        &word_list,
        &OneCell {
            row: 2,
            col: isize::MAX as usize,
        },
    )
    .unwrap();
    let odpa = OneDPackedArray::new(&tda).unwrap();
    assert_eq!(table(&odpa), vec![0, 0, -isize::MAX]);
    assert_eq!(*odpa.get_array(), vec![1]);
}

#[test]
fn every_word_stands_in_its_slot() {
    let words = ["AND", "ARRAY", "BEGIN", "CHAR", "CONST", "DIV", "DO", "EOF"];
    let algorithm = ElcAlgorithm::default();
    let odpa = packed(&words, &algorithm).unwrap();
    let n = words.len() as isize;
    for (i, word) in words.iter().enumerate() {
        let row = algorithm.h1(word).unwrap();
        let col = algorithm.h2(word).unwrap() as isize;
        let slot = (odpa.get_rlt().get(row).unwrap() + col).rem_euclid(n) as usize;
        assert_eq!(odpa.get_array()[slot], i + 1);
    }
    let mut ordinals = odpa.get_array().clone();
    ordinals.sort();
    assert_eq!(ordinals, vec![1, 2, 3, 4, 5, 6, 7, 8]);
}

#[test]
fn adjust_index_gives_the_residue_that_is_not_negative() {
    assert_eq!(OneDPackedArray::adjust_index(2, 4, 5), 1);
    assert_eq!(OneDPackedArray::adjust_index(25, 5, 6), 0);
    assert_eq!(OneDPackedArray::adjust_index(0, -1, 5), 4);
    assert_eq!(OneDPackedArray::adjust_index(3, -3, 5), 0);
    assert_eq!(OneDPackedArray::adjust_index(3, -13, 5), 0);
    assert_eq!(OneDPackedArray::adjust_index(3, -14, 5), 4);
    assert_eq!(OneDPackedArray::adjust_index(7, -2, 5), 0);
    assert_eq!(OneDPackedArray::adjust_index(0, isize::MIN, 1), 0);
    assert_eq!(
        OneDPackedArray::adjust_index(0, isize::MIN, usize::MAX),
        (usize::MAX as u128 - (1u128 << (isize::BITS - 1)) % usize::MAX as u128) as usize
    );
    assert_eq!(
        OneDPackedArray::adjust_index(usize::MAX, isize::MAX, usize::MAX),
        isize::MAX as usize
    );
    assert_eq!(OneDPackedArray::adjust_index(usize::MAX, isize::MAX, 1), 0);
}
