use msmp::{Kind, WordList};

#[test]
fn word_list_unit_test() {
    let mut wl: WordList = WordList::default();
    assert!(wl.is_empty());
    if let Ok(()) = wl.is_valid() {
        panic!("Empty not detected.")
    }

    wl.push("HELLO");
    assert!(wl.len() == 1);
    assert!(!wl.is_empty());
    if let Err(e) = wl.is_valid() {
        panic!("Unexpected invalid. {}", e.to_string());
    }

    wl.push("HELLO");
    assert!(wl.len() == 2);
    assert!(!wl.is_empty());
    if let Ok(()) = wl.is_valid() {
        panic!("Duplicate not detected.");
    }
    println!("{wl:?}");

    let mut wl2 = WordList::new();
    assert!(wl2.is_empty());

    wl2.push("hELLO");
    assert!(wl2.len() == 1);
    assert!(!wl2.is_empty());
    if let Ok(()) = wl2.is_valid() {
        panic!("lower case not detected");
    }

    let wl3: WordList = ["HELLO", "WORLD", "TEST"]
        .iter()
        .map(std::string::ToString::to_string)
        .collect::<Vec<String>>()
        .into();
    assert!(wl3.len() == 3);
}

fn message(wl: &WordList) -> String {
    match wl.is_valid().unwrap_err().kind() {
        Kind::WordListError(s) => s.clone(),
        _ => panic!("Unexpected error type"),
    }
}

#[test]
fn word_list_errors_name_the_first_fault() {
    let wl = WordList::new();
    assert_eq!(message(&wl), "Empty word list.");

    let mut wl = WordList::new();
    wl.push("HELLO");
    wl.push("WORLD");
    wl.push("HELLO");
    wl.push("wORLD");
    assert_eq!(message(&wl), "Duplicate word detected: HELLO at position 3");

    let mut wl = WordList::new();
    wl.push("HELLO");
    wl.push("WOR LD");
    wl.push("HELLO");
    assert_eq!(
        message(&wl),
        "Non ASCII upper case alphabetic word detected at 2."
    );

    let mut wl = WordList::new();
    for word in ["A", "B", "C", "D", "E", "F", "G", "H", "I", "\u{c9}T\u{c9}"] {
        wl.push(word);
    }
    assert_eq!(
        message(&wl),
        "Non ASCII upper case alphabetic word detected at 10."
    );
}

#[test]
fn word_list_rejects_blank_word() {
    let mut wl = WordList::new();
    wl.push("HELLO");
    wl.push("");
    assert_eq!(
        message(&wl),
        "Non ASCII upper case alphabetic word detected at 2."
    );
}

#[test]
fn word_list_from_words_keeps_them() {
    let wl = WordList::from(vec!["WORLD".to_string(), "HELLO".to_string()]);
    assert_eq!(wl.list, vec!["WORLD".to_string(), "HELLO".to_string()]);
    assert!(wl.is_valid().is_ok());
}

#[test]
fn word_list_keeps_insertion_order() {
    let mut wl = WordList::new();
    wl.push("B");
    wl.push("A");
    assert_eq!(wl.list, vec!["B".to_string(), "A".to_string()]);
    assert!(wl.is_valid().is_ok());
}
