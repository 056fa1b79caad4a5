use msmp::generate::{hash, text, verify};
use msmp::rlt::Rlt;
use msmp::{generate_hash, ElcAlgorithm, Error, HashAlgorithm, Kind, WordList};

fn list(words: &[&str]) -> WordList {
    let mut word_list = WordList::new();
    for word in words {
        word_list.push(word);
    }
    word_list
}

fn image(words: &[&str], call: impl Fn(&str) -> usize) -> Vec<usize> {
    let mut slots: Vec<usize> = words.iter().map(|w| call(w)).collect();
    slots.sort();
    slots
}

const PASCAL: [&str; 8] = ["AND", "ARRAY", "BEGIN", "CHAR", "CONST", "DIV", "DO", "EOF"];

#[test]
fn pascal_keywords_hash_is_minimal_and_perfect() {
    let word_list = list(&PASCAL);
    assert_eq!(word_list.len(), 8);
    let hash = match generate_hash(&word_list, ElcAlgorithm::default()) {
        Ok(hash) => hash,
        Err(e) => panic!("generate_hash failed {}", e.to_string()),
    };
    assert!(hash.as_string.len() > 1);
    assert_eq!(
        image(&PASCAL, |w| hash.as_closure.call(w)),
        vec![0, 1, 2, 3, 4, 5, 6, 7]
    );
    let slots: Vec<usize> = PASCAL.iter().map(|w| hash.as_closure.call(w)).collect();
    assert_eq!(slots, vec![0, 5, 2, 1, 3, 6, 7, 4]);
    assert_eq!(
        hash.as_string,
        "row_lookup_table = [-3, -11, -16, -7, -1]\n\
         row_index = ord(word[0]) - ord('A')\n\
         col_index = ord(word[len-1]) - ord('A')\n\
         hash_value = (row_lookup_table[row_index] + col_index) % 8\n"
    );
}

#[test]
fn eight_words_hash_to_expected_slots() {
    let words = ["AND", "BEGIN", "CHAR", "EOF", "BEING", "CATCH", "EMPTY", "ZINC"];
    let word_list = list(&words);
    assert_eq!(word_list.len(), 8);
    match generate_hash(&word_list, ElcAlgorithm::default()) {
        Ok(hash) => {
            assert!(hash.as_string.len() > 1);
            assert_eq!(hash.as_closure.call("AND"), 4);
            assert_eq!(hash.as_closure.call("BEGIN"), 7);
            assert_eq!(hash.as_closure.call("CHAR"), 3);
            assert_eq!(hash.as_closure.call("EOF"), 2);
            assert_eq!(
                image(&words, |w| hash.as_closure.call(w)),
                vec![0, 1, 2, 3, 4, 5, 6, 7]
            );
        }
        Err(e) => panic!("generate_hash failed {}", e.to_string()),
    }
}

#[test]
fn generate_hash_gives_equal_results_for_equal_input() {
    let first = generate_hash(&list(&PASCAL), ElcAlgorithm::new(1, 26)).unwrap();
    let second = generate_hash(&list(&PASCAL), ElcAlgorithm::default()).unwrap();
    assert_eq!(first.as_string, second.as_string);
    for word in PASCAL.iter().chain(["", "XYZZY", "lower", "A"].iter()) {
        assert_eq!(first.as_closure.call(word), second.as_closure.call(word));
    }
}

#[test]
fn generate_hash_does_not_depend_on_word_order() {
    let words = ["AND", "BEGIN", "CHAR", "EOF", "BEING", "CATCH", "EMPTY", "ZINC"];
    let shuffled = ["EOF", "ZINC", "CHAR", "BEING", "AND", "EMPTY", "CATCH", "BEGIN"];
    let first = generate_hash(&list(&words), ElcAlgorithm::default()).unwrap();
    let second = generate_hash(&list(&shuffled), ElcAlgorithm::default()).unwrap();
    assert_eq!(first.as_string, second.as_string);
    for word in words {
        assert_eq!(first.as_closure.call(word), second.as_closure.call(word));
    }
}

#[test]
fn pseudo_code_parses_back_to_the_hash() {
    let words = ["AND", "BEGIN", "CHAR", "EOF", "BEING", "CATCH", "EMPTY", "ZINC"];
    let hash = generate_hash(&list(&words), ElcAlgorithm::default()).unwrap();
    let lines: Vec<&str> = hash.as_string.split('\n').collect();
    assert_eq!(lines.len(), 5);
    assert_eq!(lines[4], "");
    let table: Vec<isize> = lines[0]
        .strip_prefix("row_lookup_table = [")
        .unwrap()
        .strip_suffix("]")
        .unwrap()
        .split(", ")
        .map(|x| x.parse().unwrap())
        .collect();
    assert_eq!(table.len(), 26);
    assert_eq!(&table[..5], &[1, -6, -6, 0, -3]);
    assert_eq!(table[25], 4);
    assert_eq!(lines[1], "row_index = ord(word[0]) - ord('A')");
    assert_eq!(lines[2], "col_index = ord(word[len-1]) - ord('A')");
    let n: usize = lines[3]
        .strip_prefix("hash_value = (row_lookup_table[row_index] + col_index) % ")
        .unwrap()
        .parse()
        .unwrap();
    assert_eq!(n, words.len());
    for word in words {
        let row = (word.as_bytes()[0] - b'A') as usize;
        let col = (word.as_bytes()[word.len() - 1] - b'A') as isize;
        let value = ((table[row] + col) as usize) % n;
        assert_eq!(hash.as_closure.call(word), value);
    }
}

#[test]
fn generate_hash_with_two_letters() {
    let words = ["WORD", "WORF", "WILD", "WIRE", "ABLE", "AXLE"];
    assert!(generate_hash(&list(&words), ElcAlgorithm::default()).is_err());
    let hash = generate_hash(&list(&words), ElcAlgorithm::new(2, 26)).unwrap();
    assert_eq!(
        image(&words, |w| hash.as_closure.call(w)),
        vec![0, 1, 2, 3, 4, 5]
    );
    let lines: Vec<&str> = hash.as_string.split('\n').collect();
    assert_eq!(
        lines[1],
        "row_index = (ord(word[0]) - ord('A')) * 26 + (ord(word[1]) - ord('A'))"
    );
    assert_eq!(
        lines[2],
        "col_index = (ord(word[len-1]) - ord('A')) * 26 + (ord(word[len-2]) - ord('A'))"
    );
}

fn kind_of(e: &Error) -> (&'static str, String) {
    match e.kind() {
        Kind::HashError(s) => ("hash", s.clone()),
        Kind::WordListError(s) => ("word list", s.clone()),
        Kind::TwoDArrayError(s) => ("2d", s.clone()),
        Kind::OneDPackedArrayError(s) => ("1d", s.clone()),
        Kind::ElcAlgorithmError(s) => ("elc", s.clone()),
    }
}

fn failure(words: &[&str], algorithm: ElcAlgorithm) -> (&'static str, String) {
    match generate_hash(&list(words), algorithm) {
        Ok(_) => panic!("generate_hash should fail"),
        Err(e) => kind_of(&e),
    }
}

#[test]
fn generate_hash_returns_the_error_of_the_stage_that_fails() {
    assert_eq!(
        failure(&[], ElcAlgorithm::default()),
        ("word list", "Empty word list.".to_string())
    );
    assert_eq!(
        failure(&["WORD", "WORD"], ElcAlgorithm::default()),
        ("word list", "Duplicate word detected: WORD at position 2".to_string())
    );
    assert_eq!(
        failure(&["WORD", "AB"], ElcAlgorithm::new(3, 26)),
        (
            "elc",
            "Expected word length (2) to be greater than or equal to elc (3).".to_string()
        )
    );
    assert_eq!(
        failure(&["WORD", "WIRE", "ABLE", "WILD"], ElcAlgorithm::default()),
        ("2d", "Collision: WORD === WILD".to_string())
    );
    assert_eq!(
        failure(&["WORD", "WORF"], ElcAlgorithm::default()),
        ("1d", "unable to minimally pack array".to_string())
    );
    assert_eq!(
        failure(
            &["AXXA", "AXXC", "AXXD", "BXXA", "BXXC", "BXXZ"],
            ElcAlgorithm::default()
        ),
        ("1d", "unable to minimally pack array".to_string())
    );
}

#[test]
fn closure_gives_some_slot_for_other_words() {
    let hash = generate_hash(&list(&PASCAL), ElcAlgorithm::default()).unwrap();
    for word in ["", "a", "ZZ", "QUIT", "\u{e9}t\u{e9}", "AND "] {
        assert!(hash.as_closure.call(word) < 8);
    }
    // Both sub-hashes fail on the empty word and count as zero: the slot
    // is that of row 0 and column 0, which is no slot before the array.
    assert_eq!(hash.as_closure.call(""), 0);
    // Row 25 is beyond the table, so its displacement counts as zero.
    assert_eq!(hash.as_closure.call("ZD"), 3);
}

#[test]
fn hash_of_hand_made_table() {
    let algorithm = ElcAlgorithm::default();
    let mut rlt = Rlt::new(3);
    rlt.insert(0, 4);
    rlt.insert(1, -3);
    rlt.insert(2, -30);
    rlt.set_num_entries(5);
    assert_eq!(hash("AB", &rlt, &algorithm), 0);
    assert_eq!(hash("AC", &rlt, &algorithm), 1);
    assert_eq!(hash("BD", &rlt, &algorithm), 0);
    assert_eq!(hash("BZ", &rlt, &algorithm), 2);
    // A negative sum counts as zero.
    assert_eq!(hash("BA", &rlt, &algorithm), 0);
    assert_eq!(hash("CZ", &rlt, &algorithm), 0);
    // A row beyond the table has displacement zero.
    assert_eq!(hash("DZ", &rlt, &algorithm), 0);
    assert_eq!(hash("DY", &rlt, &algorithm), 4);
}

#[test]
fn text_of_hand_made_table() {
    let mut rlt = Rlt::new(3);
    rlt.insert(0, 4);
    rlt.insert(1, -3);
    rlt.set_num_entries(12);
    assert_eq!(
        text(&rlt, &ElcAlgorithm::new(3, 7)),
        "row_lookup_table = [4, -3, 0]\n\
         row_index = ((ord(word[0]) - ord('A')) * 7 + (ord(word[1]) - ord('A'))) * 7 + (ord(word[2]) - ord('A'))\n\
         col_index = ((ord(word[len-1]) - ord('A')) * 7 + (ord(word[len-2]) - ord('A'))) * 7 + (ord(word[len-3]) - ord('A'))\n\
         hash_value = (row_lookup_table[row_index] + col_index) % 12\n"
    );
    assert_eq!(
        text(&rlt, &ElcAlgorithm::new(0, 26)),
        "row_lookup_table = [4, -3, 0]\n\
         row_index = 0\n\
         col_index = 0\n\
         hash_value = (row_lookup_table[row_index] + col_index) % 12\n"
    );
}

#[test]
fn verify_finds_collisions_and_gaps() {
    let algorithm = ElcAlgorithm::default();
    let word_list = list(&["AA", "AB", "BC"]);

    let mut rlt = Rlt::new(2);
    rlt.set_num_entries(3);
    assert!(verify(&word_list, &rlt, &algorithm).is_ok());

    // Row 1 shifted onto the slot of the first word.
    rlt.insert(1, -2);
    assert_eq!(
        kind_of(&verify(&word_list, &rlt, &algorithm).unwrap_err()),
        ("hash", "Collision detected while verifying the hash.".to_string())
    );

    // More slots than words: a word falls beyond the words.
    rlt.insert(1, 2);
    rlt.set_num_entries(7);
    assert_eq!(
        kind_of(&verify(&word_list, &rlt, &algorithm).unwrap_err()),
        ("hash", "Unexpected gap found in index list.".to_string())
    );

    // Two words beyond the words on one slot: the collision comes first.
    rlt.insert(0, 5);
    rlt.insert(1, 3);
    assert_eq!(
        kind_of(&verify(&list(&["AA", "BC", "AC"]), &rlt, &algorithm).unwrap_err()),
        ("hash", "Collision detected while verifying the hash.".to_string())
    );
}

/// Rows by the length of the word, columns by its first letter.
#[derive(Debug)]
struct ByLength;

impl HashAlgorithm for ByLength {
    fn h1(&self, word: &str) -> Result<usize, Error> {
        Ok(word.len())
    }

    fn h2(&self, word: &str) -> Result<usize, Error> {
        match word.bytes().next() {
            Some(b) if b.is_ascii_uppercase() => Ok((b - b'A') as usize),
            _ => Err(Error::new(Kind::HashError("no first letter".to_string()))),
        }
    }

    fn h1_as_text(&self) -> String {
        "len".to_string()
    }

    fn h2_as_text(&self) -> String {
        "ord(word[0]) - ord('A')".to_string()
    }
}

#[test]
fn generate_hash_with_an_algorithm_of_the_caller() {
    let words = ["A", "BB", "AB", "CCC", "ACC", "BCC"];
    let hash = generate_hash(&list(&words), ByLength).unwrap();
    assert_eq!(
        image(&words, |w| hash.as_closure.call(w)),
        vec![0, 1, 2, 3, 4, 5]
    );
    assert_eq!(
        hash.as_string,
        "row_lookup_table = [0, 5, 3, 0]\n\
         row_index = len\n\
         col_index = ord(word[0]) - ord('A')\n\
         hash_value = (row_lookup_table[row_index] + col_index) % 6\n"
    );
}

#[test]
fn every_three_letter_word_has_its_slot() {
    let mut words = Vec::new();
    for a in b'A'..=b'Z' {
        for b in b'A'..=b'Z' {
            for c in b'A'..=b'Z' {
                words.push(String::from_utf8(vec![c, a, b]).unwrap());
            }
        }
    }
    let mut word_list = WordList::new();
    for word in &words {
        word_list.push(word);
    }
    let hash = generate_hash(&word_list, ElcAlgorithm::new(3, 26)).unwrap();
    let mut seen = vec![false; words.len()];
    for word in &words {
        let slot = hash.as_closure.call(word);
        assert!(!seen[slot]);
        seen[slot] = true;
    }
    assert!(seen.iter().all(|s| *s));
}
