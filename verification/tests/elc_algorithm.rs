use msmp::{ElcAlgorithm, HashAlgorithm, Kind};

#[test]
fn elc_algorithm_unit_test() {
    assert_eq!(ElcAlgorithm::char_to_index('A'), 0);
    assert_eq!(ElcAlgorithm::char_to_index('B'), 1);
    assert_eq!(ElcAlgorithm::char_to_index('Z'), 25);

    // ----
    let hash_algorithm: ElcAlgorithm = ElcAlgorithm::default();

    assert_eq!(hash_algorithm.h1("A").unwrap(), 0);
    assert_eq!(hash_algorithm.h1("B").unwrap(), 1);
    assert_eq!(hash_algorithm.h1("Z").unwrap(), 25);
    assert_eq!(hash_algorithm.h1("AA").unwrap(), 0);

    assert_eq!(hash_algorithm.h2("A").unwrap(), 0);
    assert_eq!(hash_algorithm.h2("B").unwrap(), 1);
    assert_eq!(hash_algorithm.h2("Z").unwrap(), 25);
    assert_eq!(hash_algorithm.h2("AA").unwrap(), 0);
    assert_eq!(hash_algorithm.h2("AB").unwrap(), 1);
    assert_eq!(hash_algorithm.h2("AZ").unwrap(), 25);
    assert_eq!(hash_algorithm.h2("BA").unwrap(), 0);

    assert_eq!(hash_algorithm.step(0, 0), 0);
    assert_eq!(hash_algorithm.step(0, 1), 1);
    assert_eq!(hash_algorithm.step(1, 0), 26);
    assert_eq!(hash_algorithm.step(1, 1), 27);

    // ----
    let hash_algorithm: ElcAlgorithm = ElcAlgorithm::new(2, 26);

    assert_eq!(hash_algorithm.h1("AA").unwrap(), 0);
    assert_eq!(hash_algorithm.h1("AB").unwrap(), 1);
    assert_eq!(hash_algorithm.h1("AZ").unwrap(), 25);
    assert_eq!(hash_algorithm.h1("BA").unwrap(), 26);
    assert_eq!(hash_algorithm.h1("BB").unwrap(), 27);

    assert_eq!(hash_algorithm.h2("AA").unwrap(), 0);
    assert_eq!(hash_algorithm.h2("AB").unwrap(), 26);
    assert_eq!(hash_algorithm.h2("AZ").unwrap(), 650);
    assert_eq!(hash_algorithm.h2("BA").unwrap(), 1);
    assert_eq!(hash_algorithm.h2("BB").unwrap(), 27);
    assert_eq!(hash_algorithm.h2("BZ").unwrap(), 651);
    assert_eq!(hash_algorithm.h2("CA").unwrap(), 2);
    assert_eq!(hash_algorithm.h2("ZZ").unwrap(), 675);

    assert_eq!(hash_algorithm.step(0, 0), 0);
    assert_eq!(hash_algorithm.step(0, 1), 1);
    assert_eq!(hash_algorithm.step(1, 0), 26);
    assert_eq!(hash_algorithm.step(1, 1), 27);

    match hash_algorithm.h1("A").unwrap_err().kind() {
        Kind::ElcAlgorithmError(msg) => {
            assert_eq!(
                msg,
                "Expected word length (1) to be greater than or equal to elc (2)."
            );
        }
        _ => panic!("Unexpected error type."),
    };

    match hash_algorithm.h1("aA").unwrap_err().kind() {
        Kind::ElcAlgorithmError(msg) => {
            assert_eq!(
                msg,
                "Unexpected character(s) encountered (aA) in indices (0..2)."
            );
        }
        _ => panic!("Unexpected error type."),
    };

    match hash_algorithm.h2("A").unwrap_err().kind() {
        Kind::ElcAlgorithmError(msg) => {
            assert_eq!(
                msg,
                "Expected word length (1) to be greater than or equal to elc (2)."
            );
        }
        _ => panic!("Unexpected error type."),
    };

    match hash_algorithm.h2("aA").unwrap_err().kind() {
        Kind::ElcAlgorithmError(msg) => {
            assert_eq!(
                msg,
                "Unexpected character(s) encountered (aA) in indices (0..2)."
            );
        }
        _ => panic!("Unexpected error type."),
    };

    println!("{hash_algorithm:?}");
}

fn message(r: Result<usize, msmp::Error>) -> String {
    match r.unwrap_err().kind() {
        Kind::ElcAlgorithmError(msg) => msg.clone(),
        _ => panic!("Unexpected error type."),
    }
}

#[test]
fn elc_reads_leading_and_trailing_letters() {
    let algorithm = ElcAlgorithm::new(3, 26);
    assert_eq!(algorithm.h1("BCDXYZ").unwrap(), 1 * 676 + 2 * 26 + 3);
    assert_eq!(algorithm.h2("BCDXYZ").unwrap(), 25 * 676 + 24 * 26 + 23);
    assert_eq!(algorithm.h1("BCD").unwrap(), 731);
    assert_eq!(algorithm.h2("BCD").unwrap(), 3 * 676 + 2 * 26 + 1);

    let algorithm = ElcAlgorithm::new(2, 10);
    assert_eq!(algorithm.h1("CZQ").unwrap(), 2 * 10 + 25);
    assert_eq!(algorithm.h2("CZQ").unwrap(), 16 * 10 + 25);
}

#[test]
fn elc_reads_only_its_window() {
    let algorithm = ElcAlgorithm::new(2, 26);
    // What lies outside the window may be anything.
    assert_eq!(algorithm.h1("BAxy").unwrap(), 26);
    assert_eq!(
        message(algorithm.h2("BAxy")),
        "Unexpected character(s) encountered (BAxy) in indices (0..2)."
    );
    assert_eq!(algorithm.h2("xyBA").unwrap(), 1);
    // The length is counted in bytes.
    assert_eq!(
        message(algorithm.h1("\u{e9}")),
        "Unexpected character(s) encountered (\u{e9}) in indices (0..2)."
    );
    assert_eq!(
        message(algorithm.h2("\u{e9}")),
        "Unexpected character(s) encountered (\u{e9}) in indices (0..2)."
    );
    assert_eq!(algorithm.h1("AB\u{e9}").unwrap(), 1);
    assert_eq!(algorithm.h2("\u{e9}AB").unwrap(), 26);
}

#[test]
fn elc_of_no_letters_is_zero() {
    let algorithm = ElcAlgorithm::new(0, 26);
    assert_eq!(algorithm.h1("").unwrap(), 0);
    assert_eq!(algorithm.h2("word").unwrap(), 0);
    assert_eq!(algorithm.h1_as_text(), "0");
}

#[test]
fn elc_fails_on_a_number_that_is_no_index() {
    let algorithm = ElcAlgorithm::new(20, 26);
    assert_eq!(algorithm.h1("AAAAAAAAAAAAAAAAAAAZ").unwrap(), 25);
    assert_eq!(
        message(algorithm.h1("ZZZZZZZZZZZZZZZZZZZZ")),
        "Unexpected index overflow encountered (ZZZZZZZZZZZZZZZZZZZZ) in indices (0..20)."
    );
    assert_eq!(algorithm.h2("ZAAAAAAAAAAAAAAAAAAA").unwrap(), 25);
    // In base zero only the last digit counts.
    let algorithm = ElcAlgorithm::new(20, 0);
    assert_eq!(algorithm.h1("ZZZZZZZZZZZZZZZZZZZC").unwrap(), 2);
}

#[test]
fn elc_as_text() {
    let algorithm = ElcAlgorithm::default();
    assert_eq!(algorithm.h1_as_text(), "ord(word[0]) - ord('A')");
    assert_eq!(algorithm.h2_as_text(), "ord(word[len-1]) - ord('A')");
    let algorithm = ElcAlgorithm::new(2, 26);
    assert_eq!(
        algorithm.h1_as_text(),
        "(ord(word[0]) - ord('A')) * 26 + (ord(word[1]) - ord('A'))"
    );
    assert_eq!(
        algorithm.h2_as_text(),
        "(ord(word[len-1]) - ord('A')) * 26 + (ord(word[len-2]) - ord('A'))"
    );
}
