use brp::block_arg::{parse_block_size, BlockAxis, BlockSizeError};

#[test]
fn block_size_accepts_square_and_rectangle() {
    assert_eq!(parse_block_size("16"), Ok((16, 16)));
    assert_eq!(parse_block_size("8x32"), Ok((8, 32)));
    assert_eq!(parse_block_size("8X32"), Ok((8, 32)));
}

#[test]
fn block_size_rejects_nonsense() {
    assert!(parse_block_size("0").is_err());
    assert!(parse_block_size("16x0").is_err());
    assert!(parse_block_size("abc").is_err());
    assert!(parse_block_size("16x").is_err());
    assert!(parse_block_size("-4").is_err());
}

#[test]
fn block_size_trims_whitespace_and_takes_a_plus_sign() {
    assert_eq!(parse_block_size(" 8 x\t4 "), Ok((8, 4)));
    assert_eq!(parse_block_size("+8"), Ok((8, 8)));
    assert_eq!(parse_block_size("\u{3000}12"), Ok((12, 12)));
}

#[test]
fn block_size_errors_name_the_field() {
    assert_eq!(
        parse_block_size("0x8"),
        Err(BlockSizeError::Zero { axis: BlockAxis::Width })
    );
    assert_eq!(
        parse_block_size("8xz"),
        Err(BlockSizeError::NotANumber { axis: BlockAxis::Height, from: 2, to: 3 })
    );
    assert_eq!(
        parse_block_size("4294967296"),
        Err(BlockSizeError::NotANumber { axis: BlockAxis::Width, from: 0, to: 10 })
    );
    assert_eq!(parse_block_size("4294967295x1"), Ok((4294967295, 1)));
}
