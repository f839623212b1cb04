use brp::context::{fold, quantise, signed_error, ContextModel, Plane, CONTEXTS, RESET};
use brp::rice::MAX_K;

#[test]
fn the_quantiser_matches_the_specified_boundaries() {
    assert_eq!(quantise(0), 0);
    assert_eq!(quantise(1), 1);
    assert_eq!(quantise(3), 1);
    assert_eq!(quantise(4), 2);
    assert_eq!(quantise(7), 2);
    assert_eq!(quantise(8), 3);
    assert_eq!(quantise(21), 3);
    assert_eq!(quantise(22), 4);
    assert_eq!(quantise(255), 4);
    for d in -255..=255 {
        assert_eq!(quantise(d), -quantise(-d), "asymmetric at {d}");
    }
}

#[test]
fn zigzag_becomes_a_signed_error_again() {
    assert_eq!(signed_error(0), 0);
    assert_eq!(signed_error(1), -1);
    assert_eq!(signed_error(2), 1);
    assert_eq!(signed_error(255), -128);
    assert_eq!(signed_error(254), 127);
}

/// Folding must merge a context with its mirror, and reach exactly the 365 the format claims.
#[test]
fn context_folding_halves_the_context_space() {
    let mut seen = std::collections::HashSet::new();
    for q1 in -4..=4 {
        for q2 in -4..=4 {
            for q3 in -4..=4 {
                let f = fold(q1, q2, q3);
                assert_eq!(f, fold(-q1, -q2, -q3));
                assert!(f < CONTEXTS);
                seen.insert(f);
            }
        }
    }
    assert_eq!(seen.len(), 365);
}

/// The parameter search must agree with the obvious loop over every state the counters can
/// reach.
#[test]
fn context_the_two_parameter_searches_agree() {
    fn reference(a: u32, n: u32) -> u32 {
        let mut k = 0;
        while k < MAX_K && (n << k) < a {
            k += 1;
        }
        k
    }
    let mut m = ContextModel::new();
    for a in 0..=16_200u32 {
        for n in 1..=RESET {
            m.set_counters(0, a, n);
            assert_eq!(m.parameter(0), reference(a, n), "a {a}, n {n}");
        }
    }
}

#[test]
fn a_fresh_model_starts_where_jpeg_ls_starts() {
    let m = ContextModel::new();
    assert_eq!(m.parameter(0), 2, "A = 4 over N = 1 wants k = 2");
}

/// The parameter is derived, so it must follow the magnitudes a context has actually seen.
#[test]
fn context_the_model_follows_the_data() {
    let mut m = ContextModel::new();
    for _ in 0..200 {
        m.update(0, 0);
    }
    assert_eq!(m.parameter(0), 0, "a context of zeros must fall to k = 0");
    for _ in 0..400 {
        m.update(0, 200);
    }
    assert!(m.parameter(0) >= 7, "a context of large values must climb");
}

/// The bound the update rule's documentation claims, checked against the worst input.
#[test]
fn the_accumulator_cannot_run_away() {
    let mut m = ContextModel::new();
    for _ in 0..100_000 {
        m.update(0, 255);
        let (a, n) = m.counters(0);
        assert!(a <= 16_128, "accumulator reached {}", a);
        assert!(n <= RESET);
    }
}

/// Contexts are read from neighbours only, so the edges of the image must be well defined.
#[test]
fn edges_read_absent_neighbours_as_zero() {
    let plane = Plane::new(3, 1);
    let data = vec![0u8; 9];
    // Every neighbour of (0, 0) is outside the image, so every gradient is zero.
    assert_eq!(plane.context(&data, 0, 0, 0), fold(0, 0, 0));
}
