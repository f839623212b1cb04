use brp::channels::{
    plan, ChannelMode, ChannelOptions, ChannelPlan, MODE_ALIAS, MODE_CONSTANT,
};
use brp::error::BrpError;

/// RGB pixels laid out so red climbs, green is constant, blue equals red.
fn rgb_sample() -> Vec<u8> {
    vec![10, 77, 10, 40, 77, 40, 200, 77, 200]
}

#[test]
fn detects_constant_and_aliased_channels() {
    let p = plan(&rgb_sample(), 3, &ChannelOptions::default());
    assert_eq!(p.mode(0), ChannelMode::Coded);
    assert_eq!(p.mode(1), ChannelMode::Constant(77));
    assert_eq!(p.mode(2), ChannelMode::Alias(0));
    assert_eq!(p.coded_count(), 1);
}

#[test]
fn grayscale_stored_as_rgb_codes_one_channel() {
    let data: Vec<u8> = (0..12u8).flat_map(|v| [v, v, v]).collect();
    let p = plan(&data, 3, &ChannelOptions::default());
    assert_eq!(p.mode(1), ChannelMode::Alias(0));
    assert_eq!(
        p.mode(2),
        ChannelMode::Alias(0),
        "both alias the root, not a chain"
    );
    assert_eq!(p.coded_count(), 1);
}

#[test]
fn a_solid_colour_codes_nothing() {
    let data: Vec<u8> = [9u8, 8, 7, 255].repeat(16);
    let p = plan(&data, 4, &ChannelOptions::default());
    assert_eq!(p.coded_count(), 0);
    assert!(p.coded_indices().is_empty());
}

#[test]
fn options_disable_each_stage_independently() {
    let data = rgb_sample();

    let no_const = plan(
        &data,
        3,
        &ChannelOptions {
            constants: false,
            aliases: true,
        },
    );
    assert_eq!(no_const.mode(1), ChannelMode::Coded);
    assert_eq!(no_const.mode(2), ChannelMode::Alias(0));

    let no_alias = plan(
        &data,
        3,
        &ChannelOptions {
            constants: true,
            aliases: false,
        },
    );
    assert_eq!(no_alias.mode(1), ChannelMode::Constant(77));
    assert_eq!(no_alias.mode(2), ChannelMode::Coded);

    let neither = plan(
        &data,
        3,
        &ChannelOptions {
            constants: false,
            aliases: false,
        },
    );
    assert_eq!(neither, ChannelPlan::all_coded(3));
}

#[test]
fn coded_indices_are_not_always_a_prefix() {
    // Green aliases red; blue is independent. Coded channels are 0 and 2.
    let data = vec![1, 1, 9, 2, 2, 3, 3, 3, 200];
    let p = plan(&data, 3, &ChannelOptions::default());
    let idx = p.coded_indices();
    assert_eq!(idx.len(), 2);
    assert_eq!(idx.channel(0), 0);
    assert_eq!(idx.channel(1), 2);
}

fn round_trip(p: &ChannelPlan) {
    let mut bytes = Vec::new();
    p.write_to(&mut bytes);
    assert_eq!(bytes.len(), p.byte_len());
    let (parsed, used) = ChannelPlan::parse(&bytes, p.channels()).unwrap();
    assert_eq!(&parsed, p);
    assert_eq!(used, bytes.len());
}

#[test]
fn serialization_round_trips() {
    round_trip(&ChannelPlan::all_coded(1));
    round_trip(&ChannelPlan::all_coded(4));
    round_trip(&plan(&rgb_sample(), 3, &ChannelOptions::default()));
    let gray: Vec<u8> = (0..12u8).flat_map(|v| [v, v, v, 255]).collect();
    round_trip(&plan(&gray, 4, &ChannelOptions::default()));
}

#[test]
fn rejects_a_reserved_mode() {
    // Channel 0 mode 3.
    assert_eq!(
        ChannelPlan::parse(&[0b11], 1).unwrap_err(),
        BrpError::ReservedChannelMode(3)
    );
}

#[test]
fn rejects_mode_bits_for_absent_channels() {
    // One channel, but channel 1's bits are set.
    assert_eq!(
        ChannelPlan::parse(&[0b0100], 1).unwrap_err(),
        BrpError::ChannelModeBitsSet(0b0100)
    );
}

#[test]
fn rejects_an_alias_on_the_first_channel() {
    assert_eq!(
        ChannelPlan::parse(&[MODE_ALIAS, 0], 2).unwrap_err(),
        BrpError::AliasOnFirstChannel
    );
}

#[test]
fn rejects_a_forward_alias() {
    // Two channels, channel 1 aliases target 1 (itself).
    let modes = MODE_ALIAS << 2;
    assert_eq!(
        ChannelPlan::parse(&[modes, 0b01], 2).unwrap_err(),
        BrpError::InvalidAliasTarget {
            channel: 1,
            target: 1
        }
    );
}

#[test]
fn rejects_an_alias_to_a_non_coded_channel() {
    // Channel 0 constant, channel 1 aliases it: a chain the encoder never produces.
    let modes = MODE_CONSTANT | (MODE_ALIAS << 2);
    assert_eq!(
        ChannelPlan::parse(&[modes, 0b00, 42], 2).unwrap_err(),
        BrpError::AliasTargetNotCoded {
            channel: 1,
            target: 0
        }
    );
}

#[test]
fn rejects_stray_alias_target_bits() {
    // One alias, so only bits 0-1 are meaningful; bit 4 must be clear.
    let modes = MODE_ALIAS << 2;
    assert_eq!(
        ChannelPlan::parse(&[modes, 0b0001_0000], 2).unwrap_err(),
        BrpError::AliasTargetBitsSet(0b0001_0000)
    );
}

#[test]
fn channels_rejects_truncation() {
    assert!(matches!(
        ChannelPlan::parse(&[], 3).unwrap_err(),
        BrpError::HeaderTooShort { .. }
    ));
    // Declares a constant but supplies no value byte.
    assert!(matches!(
        ChannelPlan::parse(&[MODE_CONSTANT], 1).unwrap_err(),
        BrpError::HeaderTooShort { .. }
    ));
    // Declares an alias but supplies no target byte.
    assert!(matches!(
        ChannelPlan::parse(&[MODE_ALIAS << 2], 2).unwrap_err(),
        BrpError::HeaderTooShort { .. }
    ));
}
