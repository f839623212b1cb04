use brp::alphabet::{
    apply_in_place, plan, undo_in_place, AlphabetMap, AlphabetMaps, RemapChoice, FORM_BITMAP,
    FORM_LIST, FORM_NONE,
};
use brp::error::BrpError;

fn map_of(values: &[u8]) -> AlphabetMap {
    let mut used = vec![false; 256];
    for &v in values {
        used[usize::from(v)] = true;
    }
    AlphabetMap::from_used(&used).unwrap()
}

#[test]
fn a_two_valued_channel_becomes_two_ranks() {
    let map = map_of(&[0, 255]);
    assert_eq!(map.alphabet_size(), 2);
    assert_eq!(map.interior_gaps(), 254);
    assert_eq!(map.rank(0), 0);
    assert_eq!(map.rank(255), 1);
    assert_eq!(map.value(1).unwrap(), 255);
    assert!(map.value(2).is_err(), "rank 2 has no value");
}

#[test]
fn both_forms_round_trip() {
    // Sparse: the bitmap is cheaper. Dense: the list is.
    for values in [
        vec![0u8, 255],
        vec![10, 11, 12, 200],
        (0..=255u8).filter(|v| v % 3 != 0).collect(),
        (40..=60u8).collect(),
    ] {
        let map = map_of(&values);
        let mut bytes = Vec::new();
        map.write_to(&mut bytes);
        assert_eq!(bytes.len(), map.byte_len(), "{values:?}");

        let (parsed, used) = AlphabetMap::parse(bytes[0], &bytes[1..]).unwrap();
        assert_eq!(used, bytes.len() - 1);
        assert_eq!(parsed, map, "{values:?}");
    }
}

#[test]
fn the_cheaper_form_is_the_one_written() {
    // Two values 255 apart: 254 interior gaps. A list would be 255 bytes, a bitmap 32.
    let mut bytes = Vec::new();
    map_of(&[0, 255]).write_to(&mut bytes);
    assert_eq!(bytes[0], FORM_BITMAP);
    assert_eq!(bytes.len(), 3 + 32);

    // One gap in a long range: a list of one beats a bitmap of forty-nine bits.
    let dense: Vec<u8> = (10..=60u8).filter(|v| *v != 33).collect();
    let mut bytes = Vec::new();
    map_of(&dense).write_to(&mut bytes);
    assert_eq!(bytes[0], FORM_LIST);
    assert_eq!(bytes.len(), 3 + 2, "a count and one missing value");
}

#[test]
fn section_round_trips_and_skips_unmapped_channels() {
    let mut maps = AlphabetMaps::none(3);
    maps.set_map(0, map_of(&[0, 255]));
    maps.set_map(2, map_of(&[7, 9, 11]));

    let mut bytes = Vec::new();
    maps.write_to(&mut bytes);
    assert_eq!(bytes.len(), maps.byte_len());

    let (parsed, used) = AlphabetMaps::parse(&bytes, 3).unwrap();
    assert_eq!(used, bytes.len());
    assert_eq!(parsed, maps);
}

#[test]
fn an_empty_section_is_never_written_and_never_accepted() {
    let maps = AlphabetMaps::none(3);
    let mut bytes = Vec::new();
    maps.write_to(&mut bytes);
    assert!(bytes.is_empty(), "nothing to say costs nothing");

    assert_eq!(
        AlphabetMaps::parse(&[FORM_NONE, FORM_NONE, FORM_NONE], 3).unwrap_err(),
        BrpError::AlphabetSectionEmpty
    );
}

#[test]
fn malformed_sections_are_rejected() {
    // Unknown form.
    assert!(matches!(
        AlphabetMaps::parse(&[9, 0, 255], 1),
        Err(BrpError::UnsupportedAlphabetForm(9))
    ));
    // lo above hi.
    assert!(matches!(
        AlphabetMaps::parse(&[FORM_LIST, 200, 100, 0], 1),
        Err(BrpError::AlphabetRangeInverted { .. })
    ));
    // A list that is not ascending, and one that leaves the range.
    assert!(matches!(
        AlphabetMaps::parse(&[FORM_LIST, 0, 10, 2, 5, 5], 1),
        Err(BrpError::AlphabetListDisordered(5))
    ));
    assert!(matches!(
        AlphabetMaps::parse(&[FORM_LIST, 0, 10, 1, 10], 1),
        Err(BrpError::AlphabetListDisordered(10))
    ));
    // Truncation at every length short of a complete section.
    let mut whole = Vec::new();
    let mut one = AlphabetMaps::none(1);
    one.set_map(0, map_of(&[0, 255]));
    one.write_to(&mut whole);
    for cut in 0..whole.len() {
        assert!(
            AlphabetMaps::parse(&whole[..cut], 1).is_err(),
            "{cut} bytes should not parse"
        );
    }
    assert!(AlphabetMaps::parse(&whole, 1).is_ok());
}

#[test]
fn bitmap_padding_must_be_zero() {
    // lo = 0, hi = 10: nine interior values, so seven padding bits in the second byte.
    let mut bytes = Vec::new();
    map_of(&[0, 5, 10]).write_to(&mut bytes);
    assert_eq!(bytes[0], FORM_BITMAP);
    let last = bytes.len() - 1;
    bytes[last] |= 1;
    assert_eq!(
        AlphabetMaps::parse(&bytes, 1).unwrap_err(),
        BrpError::AlphabetPaddingSet
    );
}

#[test]
fn planning_fires_only_on_interior_gaps() {
    let stride = 3;
    // Channel 0: a contiguous band high in the range, nothing to gain.
    // Channel 1: two values far apart, everything to gain.
    // Channel 2: the full alphabet.
    let mut data = Vec::new();
    for i in 0..256u32 {
        data.push(200 + (i % 16) as u8);
        data.push(if i % 2 == 0 { 0 } else { 255 });
        data.push(i as u8);
    }
    let maps = plan(&data, stride, RemapChoice::Gaps);
    assert!(maps.map(0).is_none(), "a contiguous band is left alone");
    assert_eq!(maps.map(1).map(AlphabetMap::alphabet_size), Some(2));
    assert!(maps.map(2).is_none(), "a full alphabet has no gaps");

    let mut mapped = data.clone();
    apply_in_place(&mut mapped, stride, &maps);
    assert!(mapped.iter().skip(1).step_by(3).all(|&v| v <= 1));
    undo_in_place(&mut mapped, stride, &maps).unwrap();
    assert_eq!(mapped, data);
}

#[test]
fn a_table_that_cannot_pay_for_itself_is_declined() {
    // Sixteen samples of two far-apart values: the map would cost 35 bytes.
    let data: Vec<u8> = (0..16).map(|i| if i % 2 == 0 { 0 } else { 255 }).collect();
    assert!(!plan(&data, 1, RemapChoice::Gaps).any());
}

#[test]
fn undo_rejects_a_rank_the_map_has_no_value_for() {
    let mut maps = AlphabetMaps::none(1);
    maps.set_map(0, map_of(&[0, 255]));
    let mut data = vec![0u8, 1, 2];
    assert!(matches!(
        undo_in_place(&mut data, 1, &maps),
        Err(BrpError::AlphabetRankOutOfRange { rank: 2, size: 2 })
    ));
}
