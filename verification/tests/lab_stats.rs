use brp::lab::stats::histogram;

#[test]
fn the_histogram_is_ordered_by_count_then_value() {
    let h = histogram(&vec![16, 8, 16, 32, 8, 16]);
    assert_eq!(h, vec![(16, 3), (8, 2), (32, 1)]);
}

#[test]
fn an_empty_sample_has_an_empty_histogram() {
    assert_eq!(histogram(&Vec::new()), Vec::<(u64, usize)>::new());
}

#[test]
fn ties_in_count_go_to_the_smaller_value() {
    assert_eq!(histogram(&vec![9, 3, 7, 3, 9, 7]), vec![(3, 2), (7, 2), (9, 2)]);
}
