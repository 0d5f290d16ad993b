use ed420::field::FieldElement;
use ed420::scalar::Scalar;
use ed420::ristretto::{sqrt_ratio, sqrt_m1, d_m1};
use ed420::montgomery::mont_a;

fn fe(x: u64) -> FieldElement {
    FieldElement::from_u64(x)
}

#[test]
fn test_sqrt_m1_property() {
    // Verify (SQRT_M1)^2 == -1 mod p
    let one = FieldElement::one();
    let minus_one = FieldElement::zero().sub(&one);
    let sm1 = sqrt_m1();
    let sq = sm1.mul(&sm1);
    assert_eq!(sq, minus_one);
    // And sqrt(-1) returns one of +-SQRT_M1
    let root = minus_one.sqrt().expect("-1 should be a square in this field");
    let neg = sm1.neg();
    assert!(root == sm1 || root == neg);
}

#[test]
fn test_sqrt_ratio_basic() {
    // Choose t, set u = t^2, v = 1 => sqrt_ratio(u,v) should return +-t
    let t = fe(7);
    let u = t.mul(&t);
    let v = FieldElement::one();
    let r = sqrt_ratio(&u, &v).expect("should have sqrt");
    // r^2 == u
    assert_eq!(r.mul(&r), u);

    // For non-residue try u = -1 (if -1 is non-residue, here it's residue so pick 2 which is likely NR)
    let two = fe(2);
    let r2 = sqrt_ratio(&two, &v);
    // May or may not be Some depending on 2's residue status; at least it should not panic.
    let _ = r2;
}

#[test]
fn test_d_m1_matches_relation() {
    // Check D_M1 == (2 - A)/(A + 2) mod p
    let two = fe(2);
    let a = mont_a();
    let num = two.sub(&a);
    let den = a.add(&two);
    let den_inv = den.inv();
    let d_calc = num.mul(&den_inv);
    assert_eq!(d_calc, d_m1());
}

#[test]
fn field_laws_on_sample_values() {
    let a = fe(123456789);
    let b = fe(987654321);
    let c = fe(555555);
    // commutativity and associativity
    assert_eq!(a.add(&b), b.add(&a));
    assert_eq!(a.mul(&b), b.mul(&a));
    assert_eq!(a.add(&b).add(&c), a.add(&b.add(&c)));
    assert_eq!(a.mul(&b).mul(&c), a.mul(&b.mul(&c)));
    // distributivity
    assert_eq!(a.mul(&b.add(&c)), a.mul(&b).add(&a.mul(&c)));
    // a * inv(a) == 1 for a != 0
    assert!(a.mul(&a.inv()).is_one());
    // Fermat: a^(p-1) == 1
    let p = FieldElement::zero().sub(&FieldElement::one());
    // p - 1 as an exponent: (p - 1) is the value of -1 in the field
    let pm1 = p.to_biguint();
    assert!(a.pow_big(&pm1).is_one());
}

#[test]
fn legendre_one_iff_square() {
    // r^2 always has legendre +1, and sqrt returns a root that squares back
    let r = fe(424242);
    let a = r.mul(&r);
    assert_eq!(a.legendre(), 1);
    let s = a.sqrt().expect("square must have a root");
    assert_eq!(s.mul(&s), a);
    // a known value and its negation cannot both be squares unless -1 is a
    // square; here -1 is a square, so just check legendre of 0
    assert_eq!(FieldElement::zero().legendre(), 0);
}

#[test]
fn sqrt_rejects_non_residues() {
    // scan for a small non-residue and check that sqrt refuses it
    let mut z = 2u64;
    loop {
        let f = fe(z);
        if f.legendre() == -1 {
            assert!(f.sqrt().is_none());
            break;
        }
        z += 1;
        assert!(z < 1000, "no small non-residue found");
    }
}

#[test]
fn sqrt_of_zero_is_zero() {
    let z = FieldElement::zero().sqrt().expect("0 has root 0");
    assert!(z.is_zero());
}

#[test]
fn sqrt_ratio_of_zero_succeeds() {
    // u = 0 always has the root 0, whatever the divisor
    let r = sqrt_ratio(&FieldElement::zero(), &fe(12345)).expect("0/v has root 0");
    assert!(r.is_zero());
}

#[test]
fn byte_codec_round_trip() {
    let a = fe(0xdeadbeef);
    let bytes = a.to_le_bytes_len(53);
    assert_eq!(bytes.len(), 53);
    let b = FieldElement::from_le_bytes_canonical(&bytes).expect("canonical");
    assert_eq!(a, b);
}

#[test]
fn non_canonical_bytes_rejected() {
    // 53 bytes of 0xff encode a value over p
    let bytes = vec![0xffu8; 53];
    assert!(FieldElement::from_le_bytes_canonical(&bytes).is_none());
}

#[test]
fn from_hex_parses_values() {
    let v = FieldElement::from_hex(b"ff");
    assert_eq!(v, fe(255));
    let w = FieldElement::from_hex(b"1A2b3C");
    assert_eq!(w, fe(0x1a2b3c));
}

#[test]
fn exact_small_arithmetic() {
    assert_eq!(fe(2).add(&fe(3)), fe(5));
    assert_eq!(fe(6).mul(&fe(7)), fe(42));
    assert_eq!(fe(10).sub(&fe(4)), fe(6));
    // 0 - 1 == p - 1: check by adding 1 back
    let pm1 = fe(0).sub(&fe(1));
    assert_eq!(pm1.add(&fe(1)), fe(0));
    assert_eq!(fe(5).neg().add(&fe(5)), fe(0));
    // exponentiation: 2^10 = 1024
    assert_eq!(fe(2).pow_big(&Scalar::from_u64(10)), fe(1024));
}

#[test]
fn parity_and_small_values() {
    assert_eq!(fe(6).parity(), 0);
    assert_eq!(fe(7).parity(), 1);
    assert!(fe(0).is_zero());
    assert!(fe(1).is_one());
    let s = Scalar::from_u64(10);
    assert_eq!(FieldElement::new(&s), fe(10));
}
