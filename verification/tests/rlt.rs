use msmp::rlt::Rlt;

#[test]
fn rlt_unit_test() {
    let mut rlt = Rlt::new(5);
    rlt.insert(0, 1);
    rlt.insert(1, 2);
    rlt.insert(2, 3);
    rlt.insert(3, 4);
    rlt.insert(4, 5);

    assert_eq!(rlt.get(0), Some(&1));
    assert_eq!(rlt.get(1), Some(&2));
    assert_eq!(rlt.get(2), Some(&3));
    assert_eq!(rlt.get(3), Some(&4));
    assert_eq!(rlt.get(4), Some(&5));
    assert_eq!(rlt.get(5), None);
    assert_eq!(rlt.get(6), None);
    assert_eq!(rlt.get(7), None);
    assert_eq!(rlt.get(8), None);
    assert_eq!(rlt.get(9), None);

    assert_eq!(rlt.get_num_entries(), 0);
    rlt.set_num_entries(10);
    assert_eq!(rlt.get_num_entries(), 10);

    assert_eq!(rlt.get_as_text(), "1, 2, 3, 4, 5");
}

#[test]
fn rlt_text_of_signed_and_large_values() {
    let mut rlt = Rlt::new(6);
    rlt.insert(0, -1);
    rlt.insert(1, 0);
    rlt.insert(2, 10);
    rlt.insert(3, -120);
    rlt.insert(4, isize::MAX);
    rlt.insert(5, isize::MIN);
    assert_eq!(
        rlt.get_as_text(),
        format!("-1, 0, 10, -120, {}, {}", isize::MAX, isize::MIN)
    );
}

#[test]
fn rlt_text_of_empty_and_single_table() {
    assert_eq!(Rlt::new(0).get_as_text(), "");
    assert_eq!(Rlt::new(1).get_as_text(), "0");
    assert_eq!(Rlt::new(3).get_as_text(), "0, 0, 0");
}
