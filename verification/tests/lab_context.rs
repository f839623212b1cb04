use brp::lab::context::{ContextSource, Thresholds};

#[test]
fn the_quantiser_matches_jpeg_ls_boundaries() {
    let t = Thresholds::default();
    assert_eq!(t.quantise(0), 0);
    assert_eq!(t.quantise(3), 1);
    assert_eq!(t.quantise(4), 2);
    assert_eq!(t.quantise(7), 2);
    assert_eq!(t.quantise(8), 3);
    assert_eq!(t.quantise(21), 3);
    assert_eq!(t.quantise(22), 4);
    for d in -128..=127 {
        assert_eq!(t.quantise(d), -t.quantise(-d));
    }
}

#[test]
fn other_thresholds_move_the_boundaries() {
    let t = Thresholds { t1: 1, t2: 2, t3: 3 };
    assert_eq!(t.quantise(2), 2);
    assert_eq!(t.quantise(-4), -4);
    assert_eq!(t.quantise(i32::MIN), -4);
}

#[test]
fn context_sources_have_codes() {
    for s in [ContextSource::Sample, ContextSource::Residual] {
        assert_eq!(ContextSource::from_code(s.code()), Some(s));
    }
    assert_eq!(ContextSource::from_code(2), None);
    assert_eq!(ContextSource::Sample.name(), "loco");
}
