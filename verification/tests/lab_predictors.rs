use brp::lab::predictors::{
    code, from_code, gap, kind_name, med, Menu, PredictorCodeError, Scope, Variant, GAP, KINDS,
    MED,
};

/// MED is exactly the median of the three candidates LOCO-I names.
#[test]
fn med_matches_its_definition() {
    for a in 0..=255u8 {
        for b in [0u8, 1, 17, 128, 254, 255] {
            for c in [0u8, 1, 17, 128, 254, 255] {
                let want = {
                    let mut v = [
                        i32::from(a),
                        i32::from(b),
                        i32::from(a) + i32::from(b) - i32::from(c),
                    ];
                    v.sort_unstable();
                    v[1].clamp(0, 255) as u8
                };
                assert_eq!(med(a, b, c), want, "a={a} b={b} c={c}");
            }
        }
    }
}

#[test]
fn predictor_codes_round_trip() {
    let mut variants = vec![None, Some(Variant::Fixed(MED)), Some(Variant::Fixed(GAP))];
    for menu in [Menu::Png5, Menu::Png6, Menu::Png7] {
        for scope in [Scope::Row, Scope::Block(4), Scope::Block(8)] {
            variants.push(Some(Variant::Choice { scope, menu }));
        }
    }
    for v in variants {
        assert_eq!(from_code(code(v)), Ok(v), "{v:?}");
    }
    assert_eq!(code(Some(Variant::shipped())), [2, 0, 0]);
}

#[test]
fn malformed_predictor_codes_are_refused() {
    assert_eq!(from_code([1, KINDS, 0]), Err(PredictorCodeError::KindOutOfRange(KINDS)));
    assert_eq!(from_code([2, 3, 0]), Err(PredictorCodeError::UnknownMenu(3)));
    assert_eq!(from_code([3, 0, 0]), Err(PredictorCodeError::MissingBlockSide));
    assert_eq!(from_code([4, 0, 0]), Err(PredictorCodeError::UnknownCode(4)));
}

#[test]
fn units_count_rows_or_blocks() {
    assert_eq!(Variant::Fixed(MED).units(17, 5), 0);
    assert_eq!(Variant::shipped().units(17, 5), 5);
    let b4 = Variant::Choice { scope: Scope::Block(4), menu: Menu::Png7 };
    assert_eq!(b4.units(17, 5), 5 * 2);
    assert_eq!(Menu::Png6.kinds(), vec![0, 1, 2, 3, 4, MED]);
    assert_eq!(kind_name(GAP), "gap");
}

#[test]
fn gap_follows_a_strong_edge_and_blends_otherwise() {
    // Vertical activity far above horizontal (170 against 0): the left neighbour wins.
    assert_eq!(gap(30, 100, 100, 100, 30, 0, 100), 30);
    // A flat neighbourhood predicts the flat value.
    assert_eq!(gap(50, 50, 50, 50, 50, 50, 50), 50);
    // A negative diagonal trend truncates toward zero: (40 + 40) / 2 + (10 - 13) / 4 = 40.
    assert_eq!(gap(40, 40, 13, 10, 40, 40, 10), 40);
}
