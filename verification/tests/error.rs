use msmp::{Error, Kind};

#[test]
fn error_unit_test() {
    let e: Error = Error::new(Kind::HashError(String::from("idk")));
    match e.kind() {
        Kind::HashError(s) => assert!(s == "idk"),
        _ => panic!("Unexpected Kind: {}", e.to_string()),
    }
    println!("{}, {e:?}", e.to_string());

    let e: Error = Error::new(Kind::WordListError(String::from("idk")));
    match e.kind() {
        Kind::WordListError(s) => assert!(s == "idk"),
        _ => panic!("Unexpected Kind: {}", e.to_string()),
    }
    println!("{}", e.to_string());

    let e: Error = Error::new(Kind::TwoDArrayError(String::from("idk")));
    match e.kind() {
        Kind::TwoDArrayError(s) => assert!(s == "idk"),
        _ => panic!("Unexpected Kind: {}", e.to_string()),
    }
    println!("{}", e.to_string());

    let e: Error = Error::new(Kind::OneDPackedArrayError(String::from("idk")));
    match e.kind() {
        Kind::OneDPackedArrayError(s) => assert!(s == "idk"),
        _ => panic!("Unexpected Kind: {}", e.to_string()),
    }
    println!("{}", e.to_string());

    let e: Error = Error::new(Kind::ElcAlgorithmError(String::from("idk")));
    match e.kind() {
        Kind::ElcAlgorithmError(s) => assert!(s == "idk"),
        _ => panic!("Unexpected Kind: {}", e.to_string()),
    }
    println!("{}", e.to_string());
}

#[test]
fn error_text_has_label_and_message() {
    let texts = [
        (Kind::HashError(String::from("idk")), "Hash Error: idk"),
        (Kind::WordListError(String::from("idk")), "Word List Error: idk"),
        (Kind::TwoDArrayError(String::from("idk")), "2D Array Error: idk"),
        (
            Kind::OneDPackedArrayError(String::from("idk")),
            "1D Packed Array Error: idk",
        ),
        (
            Kind::ElcAlgorithmError(String::from("idk")),
            "ELC Algorithm Error: idk",
        ),
    ];
    for (kind, text) in texts {
        assert_eq!(Error::new(kind).to_string(), text);
    }
}
