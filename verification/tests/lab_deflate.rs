use brp::lab::deflate::{deflate, inflate, DeflateError};

#[test]
fn deflate_round_trips() {
    let data: Vec<u8> = (0..5000).map(|i| (i % 40) as u8).collect();
    assert_eq!(inflate(&deflate(&data).unwrap()).unwrap(), data);
    assert_eq!(inflate(&deflate(&[]).unwrap()).unwrap(), Vec::<u8>::new());
}

#[test]
fn deflate_shrinks_a_repetitive_stream() {
    let data: Vec<u8> = (0..5000u32).map(|i| (i * 7 % 13) as u8).collect();
    let packed = deflate(&data).unwrap();
    assert!(packed.len() < data.len());
    assert_eq!(inflate(&packed).unwrap(), data);
}

#[test]
fn deflate_of_nothing_inflates_to_nothing() {
    let packed = deflate(&[]).unwrap();
    assert!(!packed.is_empty());
    assert_eq!(inflate(&packed).unwrap(), Vec::<u8>::new());
}

#[test]
fn garbage_is_not_a_deflate_stream() {
    assert_eq!(inflate(&[0xFF, 0xFF, 0xFF, 0xFF]), Err(DeflateError::Malformed));
}
