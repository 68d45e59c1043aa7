use field_element::{FieldElement, FieldElementError};

#[test]
fn add_works() {
    let f1 = FieldElement::new(6, 17).unwrap();
    let f2 = FieldElement::new(13, 17).unwrap();
    let f3 = FieldElement::new(2, 17).unwrap();

    assert_eq!(f1.add(f2), f3);
}

#[test]
fn subtract_works() {
    let f1 = FieldElement::new(6, 17).unwrap();
    let f2 = FieldElement::new(13, 17).unwrap();
    let f3 = FieldElement::new(10, 17).unwrap();

    assert_eq!(f1.sub(f2), f3);
}

#[test]
fn multiply_works() {
    let f1 = FieldElement::new(6, 17).unwrap();
    let f2 = FieldElement::new(13, 17).unwrap();
    let f3 = FieldElement::new(10, 17).unwrap();

    assert_eq!(f1.mul(f2), f3);
}

#[test]
fn pow_works() {
    let f1 = FieldElement::new(6, 17).unwrap();
    let f3 = FieldElement::new(2, 17).unwrap();

    let f2 = f1.pow(2);

    assert_eq!(f2, f3);
}

#[test]
fn div_works() {
    let f1 = FieldElement::new(10, 17).unwrap();
    let f2 = FieldElement::new(13, 17).unwrap();
    let f3 = FieldElement::new(6, 17).unwrap();

    assert_eq!(f1.div(f2), f3);
}

#[test]
fn closure_keeps_results_in_range() {
    for x in 0..17i64 {
        for y in 0..17i64 {
            let a = FieldElement::new(x, 17).unwrap();
            let b = FieldElement::new(y, 17).unwrap();
            for r in [a.add(b), a.sub(b), a.mul(b)] {
                assert_eq!(r.order, 17);
                assert!(0 <= r.number && r.number < r.order);
            }
        }
    }
}

#[test]
fn subtracting_undoes_adding() {
    for x in 0..17i64 {
        for y in 0..17i64 {
            let a = FieldElement::new(x, 17).unwrap();
            let b = FieldElement::new(y, 17).unwrap();
            assert_eq!(a.add(b).sub(b), a);
        }
    }
}

#[test]
fn pow_one_is_identity() {
    for x in 0..17i64 {
        let a = FieldElement::new(x, 17).unwrap();
        assert_eq!(a.pow(1), a);
    }
}

#[test]
fn pow_zero_is_one() {
    let one = FieldElement::new(1, 17).unwrap();
    for x in 0..17i64 {
        let a = FieldElement::new(x, 17).unwrap();
        assert_eq!(a.pow(0), one);
    }
}

#[test]
fn multiplying_undoes_dividing() {
    for x in 0..17i64 {
        for y in 1..17i64 {
            let a = FieldElement::new(x, 17).unwrap();
            let b = FieldElement::new(y, 17).unwrap();
            assert_eq!(a.div(b).mul(b), a);
        }
    }
}

#[test]
fn negative_order_is_rejected() {
    for n in [-100, -1, 0, 1, 20] {
        assert_eq!(
            FieldElement::new(n, -1),
            Err(FieldElementError::NegativeOrderError)
        );
    }
    assert_eq!(
        FieldElement::new(3, -40),
        Err(FieldElementError::NegativeOrderError)
    );
}

#[test]
fn number_above_order_is_rejected() {
    assert_eq!(
        FieldElement::new(20, 17),
        Err(FieldElementError::NumberGreaterThanOrderError)
    );
    assert_eq!(
        FieldElement::new(1, 0),
        Err(FieldElementError::NumberGreaterThanOrderError)
    );
}

#[test]
fn number_equal_to_order_wraps_to_zero() {
    let f = FieldElement::new(17, 17).unwrap();
    assert_eq!(f, FieldElement::new(0, 17).unwrap());
}

#[test]
fn negative_number_keeps_truncated_residue() {
    let f = FieldElement::new(-5, 17).unwrap();
    assert_eq!(f.number, -5);
    assert_eq!(f.order, 17);
    let g = FieldElement::new(-20, 17).unwrap();
    assert_eq!(g.number, -3);
}

#[test]
fn order_one_collapses_to_zero() {
    let f = FieldElement::new(1, 1).unwrap();
    assert_eq!(f.number, 0);
    assert_eq!(f.pow(0).number, 0);
    assert_eq!(f.pow(5).number, 0);
}

#[test]
fn pow_negative_exponent_is_inverse() {
    let f = FieldElement::new(13, 17).unwrap();
    let inv = f.pow(-1);
    assert_eq!(inv, FieldElement::new(4, 17).unwrap());
    assert_eq!(f.mul(inv), FieldElement::new(1, 17).unwrap());
}

#[test]
fn pow_exponent_below_one_period_is_not_reduced() {
    let f = FieldElement::new(6, 17).unwrap();
    let r = f.pow(-20);
    assert_eq!(r, FieldElement::new(1, 17).unwrap());
}

#[test]
fn pow_linear_exponent_matches_repeated_multiplication() {
    let f = FieldElement::new(3, 17).unwrap();
    let mut acc = FieldElement::new(1, 17).unwrap();
    for _ in 0..10 {
        acc = acc.mul(f);
    }
    assert_eq!(f.pow(10), acc);
    assert_eq!(f.pow(10).number, 8);
}
