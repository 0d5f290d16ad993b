use ed420::curve::{EdwardsPoint, base_point, l_order, cofactor, edw_a, edw_d};
use ed420::field::FieldElement;
use ed420::scalar::Scalar;
use ed420::schnorr::keygen;

#[test]
fn test_base_point_on_curve() {
    let (gx, gy) = base_point().coords();
    let gx2 = gx.mul(&gx);
    let gy2 = gy.mul(&gy);
    let lhs = edw_a().mul(&gx2).add(&gy2);
    let rhs = FieldElement::one().add(&edw_d().mul(&gx2).mul(&gy2));
    assert_eq!(lhs, rhs, "Base point G must be on the curve");
}

#[test]
fn test_base_point_order() {
    // l*G should be the identity element
    let g = base_point();
    let l_times_g = g.mul(&l_order());
    let identity = EdwardsPoint::Affine(FieldElement::zero(), FieldElement::one());
    assert_eq!(l_times_g, identity, "l*G must be the identity element");

    // h*G should not be the identity element
    let h_times_g = g.mul(&cofactor());
    assert_ne!(h_times_g, identity, "h*G must not be the identity element");
}

#[test]
fn neutral_element_laws() {
    let g = base_point();
    // P + neutral == P, neutral + P == P
    assert_eq!(g.add(&EdwardsPoint::Infinity), g);
    assert_eq!(EdwardsPoint::Infinity.add(&g), g);
    // P + (-P) == neutral, in its affine representation (0, 1)
    let sum = g.add(&g.neg());
    let identity = EdwardsPoint::Affine(FieldElement::zero(), FieldElement::one());
    assert_eq!(sum, identity);
}

#[test]
fn addition_is_associative_on_random_points() {
    let (_, p) = keygen();
    let (_, q) = keygen();
    let (_, r) = keygen();
    let lhs = p.add(&q).add(&r);
    let rhs = p.add(&q.add(&r));
    assert_eq!(lhs, rhs);
}

#[test]
fn small_multiples_never_neutral() {
    // k*G for k in [1, L) never equals the neutral element; spot-check a few
    let g = base_point();
    let identity = EdwardsPoint::Affine(FieldElement::zero(), FieldElement::one());
    for k in 1u64..=16 {
        let kp = g.mul(&Scalar::from_u64(k));
        assert_ne!(kp, identity);
        assert!(!matches!(kp, EdwardsPoint::Infinity));
    }
}

#[test]
fn scalar_mul_matches_repeated_addition() {
    let g = base_point();
    let three = g.add(&g).add(&g);
    assert_eq!(g.mul(&Scalar::from_u64(3)), three);
    let five = three.add(&g).add(&g);
    assert_eq!(g.mul(&Scalar::from_u64(5)), five);
    // subtraction: 5G - 2G == 3G
    let two_g = g.add(&g);
    assert_eq!(five.sub(&two_g), three);
}
