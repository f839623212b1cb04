use brp::lab::grid::rice_bits_from_mean;

#[test]
fn the_parameter_rule_matches_the_context_coder_s() {
    assert_eq!(rice_bits_from_mean(4, 0), 0);
    assert_eq!(rice_bits_from_mean(4, 4), 8);
    assert_eq!(rice_bits_from_mean(4, 16), 16);
}

#[test]
fn the_parameter_is_capped_where_the_coder_caps_it() {
    assert_eq!(rice_bits_from_mean(1, 1 << 20), 9 + ((1 << 20) >> 8));
}

#[test]
fn a_total_just_past_the_scaled_count_takes_the_next_parameter() {
    // 4 << 1 = 8 < 9, 4 << 2 = 16 >= 9: k = 2, so 4 * 3 + (9 >> 2).
    assert_eq!(rice_bits_from_mean(4, 9), 14);
    // Zero residuals with a positive total still search to the cap.
    assert_eq!(rice_bits_from_mean(0, 5), 0);
}
