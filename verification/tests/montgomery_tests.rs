use ed420::montgomery::{montgomery_ladder, mont_base_point, mont_base_v};
use ed420::curve::base_point;
use ed420::field::FieldElement;
use ed420::scalar::Scalar;
use ed420::curve::l_order;
use num_bigint::RandBigInt;

fn random_scalar_below_l() -> Scalar {
    let mut rng = rand::thread_rng();
    let l = num_bigint::BigUint::from_bytes_le(&l_order().to_le_bytes());
    let x = rng.gen_biguint_below(&l);
    Scalar::from_le_bytes(&x.to_bytes_le())
}

#[test]
fn test_diffie_hellman() {
    // Alice
    let a_sk = random_scalar_below_l();
    let a_pk = montgomery_ladder(&mont_base_point(), &a_sk);

    // Bob
    let b_sk = random_scalar_below_l();
    let b_pk = montgomery_ladder(&mont_base_point(), &b_sk);

    assert_ne!(a_pk, b_pk);

    // Shared secrets
    let shared_secret_a = montgomery_ladder(&b_pk, &a_sk);
    let shared_secret_b = montgomery_ladder(&a_pk, &b_sk);

    assert_eq!(shared_secret_a, shared_secret_b);
}

#[test]
fn test_mapping_basepoints_between_models() {
    // Edwards from Montgomery: x = u/v, y = (u-1)/(u+1)
    let u = mont_base_point().0;
    let v = mont_base_v();
    let x = u.mul(&v.inv());
    let one = FieldElement::one();
    let y = u.sub(&one).mul(&u.add(&one).inv());

    let (gx, gy) = base_point().coords();
    assert_eq!(x, gx, "Mapped x must match Edwards base x");
    assert_eq!(y, gy, "Mapped y must match Edwards base y");

    // Back to Montgomery: u = (1+y)/(1-y), v = u/x
    let um = one.add(&y).mul(&one.sub(&y).inv());
    let vm = um.mul(&x.inv());
    assert_eq!(um, u, "Round-trip u must match");
    assert_eq!(vm, v, "Round-trip v must match");
}

#[test]
fn ladder_agrees_with_edwards_model() {
    // For a random k, the u-coordinate of k*G computed in the Edwards model
    // equals the ladder output on the Montgomery base point.
    let k = random_scalar_below_l();
    let ed = base_point().mul(&k);
    let (_, y) = ed.coords();
    let one = FieldElement::one();
    let u = one.add(&y).mul(&one.sub(&y).inv());
    let ladder_u = montgomery_ladder(&mont_base_point(), &k).0;
    assert_eq!(u, ladder_u);
}

#[test]
fn ladder_small_scalars() {
    // 1 * P returns the base u-coordinate itself
    let p = mont_base_point();
    let one = montgomery_ladder(&p, &Scalar::from_u64(1));
    assert_eq!(one, p);
    // 0 * P is the point at infinity, read as u = 0
    let zero = montgomery_ladder(&p, &Scalar::from_u64(0));
    assert!(zero.0.is_zero());
}
