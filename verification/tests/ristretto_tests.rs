use ed420::ristretto::{RistrettoPoint, RistrettoError};
use ed420::curve::{base_point, EdwardsPoint};
use ed420::field::FieldElement;
use ed420::scalar::Scalar;

#[test]
fn test_prime_order_wrapper() {
    // G is prime-order in the Edwards model; the wrapper should accept it
    let g = base_point();
    let rp = RistrettoPoint::from_edwards_checked(&g).expect("G must be in prime-order subgroup");
    // Basic group ops
    let two = Scalar::from_u64(2);
    let rp2 = rp.mul(&two);
    assert_ne!(rp2, rp, "2*G != 1*G");
}

#[test]
fn test_encode_decode_roundtrip() {
    let g = base_point();
    let rp = RistrettoPoint::from_edwards_checked(&g).unwrap();
    let bytes = rp.encode();
    let rp2 = RistrettoPoint::decode(&bytes).unwrap();
    assert_eq!(rp, rp2);
}

#[test]
fn encode_is_53_bytes_and_stable() {
    let g = base_point();
    let rp = RistrettoPoint::from_edwards_checked(&g).unwrap();
    let b1 = rp.encode();
    let b2 = rp.encode();
    assert_eq!(b1.len(), 53);
    assert_eq!(b1, b2);
}

#[test]
fn roundtrip_of_random_multiples() {
    let g = base_point();
    let rp = RistrettoPoint::from_edwards_checked(&g).unwrap();
    for k in [2u64, 3, 12345, 99999999] {
        let q = rp.mul(&Scalar::from_u64(k));
        let bytes = q.encode();
        let q2 = RistrettoPoint::decode(&bytes).unwrap();
        assert_eq!(q, q2);
    }
}

#[test]
fn group_ops_through_wrapper() {
    let g = base_point();
    let rp = RistrettoPoint::from_edwards_checked(&g).unwrap();
    let two = rp.add(&rp);
    assert_eq!(two.inner(), &g.add(&g));
    let back = two.add(&rp.neg());
    assert_eq!(back.to_edwards(), g);
}

#[test]
fn decode_rejects_non_canonical() {
    // 53 bytes of 0xff: both decoding paths read a field value >= p
    let bytes = vec![0xffu8; 53];
    let r = RistrettoPoint::decode(&bytes);
    assert!(matches!(r, Err(RistrettoError::InvalidEncoding)));
    // wrong length is rejected outright
    let r2 = RistrettoPoint::decode(&vec![0u8; 10]);
    assert!(matches!(r2, Err(RistrettoError::InvalidEncoding)));
}

#[test]
fn decode_error_variants() {
    // x = 5: y^2 is a non-residue, so no root exists
    let mut five = vec![0u8; 53];
    five[0] = 5;
    assert!(matches!(RistrettoPoint::decode(&five), Err(RistrettoError::InvalidEncoding)));
    // x = 7: the recovered point lies outside the prime-order subgroup
    let mut seven = vec![0u8; 53];
    seven[0] = 7;
    assert!(matches!(RistrettoPoint::decode(&seven), Err(RistrettoError::InvalidEncoding)));
    // x = 3: a valid encoding of a prime-order point
    let mut three = vec![0u8; 53];
    three[0] = 3;
    let rp = RistrettoPoint::decode(&three).unwrap();
    // accepted points re-encode to exactly the input
    assert_eq!(rp.encode(), three);
}

#[test]
fn identity_rejected_by_checked_constructor() {
    let identity = EdwardsPoint::Affine(FieldElement::zero(), FieldElement::one());
    assert!(RistrettoPoint::from_edwards_checked(&identity).is_none());
    assert!(RistrettoPoint::from_edwards_checked(&EdwardsPoint::Infinity).is_none());
}
