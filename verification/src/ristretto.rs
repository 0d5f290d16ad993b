//! A prime-order wrapper around the Edwards curve: subgroup-checked
//! construction, lifted group operations, and a canonical 53-byte encoding
//! (little-endian x with the parity of y in the top bit).  The Edwards-style
//! code is the sole encoding path, so that equal points give equal bytes and
//! accepted bytes are exactly the encoding of the accepted point.

use vstd::prelude::*;
use crate::field::{
    FieldElement, p_nat, fadd, fsub, fmul, finv, legendre_sym, le_bytes_of,
    lemma_fmul_associative, lemma_fmul_commutative, lemma_fmul_square_distributes,
};
use crate::curve::{
    EdwardsPoint, EdPt, l_nat, edw_a, edw_d, spec_edwards_add, spec_edwards_neg, spec_edwards_mul,
};
use crate::scalar::Scalar;
use crate::bignum::{le_val, limbs_val};
use vstd::arithmetic::div_mod::lemma_small_mod;

verus! {

/// The constant d' = (2 - A)/(A + 2) mod p of the a = -1 curve view.
pub open spec fn d_m1_nat() -> nat {
    2452716181725381856644875084906193393415092913133662187679137757399562559402223776760896555937275583243540028031723320155896995nat
}

/// A square root of -1 modulo p.
pub open spec fn sqrt_m1_nat() -> nat {
    1125536906516536500462288751072116878795238505010065672221134269135451808572734403962317328989539260645101783109609626216749877nat
}

/// Whether a point is the identity in either of its representations:
/// the neutral marker or the affine pair (0, 1).
pub open spec fn spec_is_identity(p: EdPt) -> bool {
    p == EdPt::Inf || p == EdPt::Aff(0, 1)
}

/// Membership in the prime-order subgroup, identity excluded.
pub open spec fn rp_wf(p: EdPt) -> bool {
    spec_is_identity(spec_edwards_mul(p, l_nat())) && !spec_is_identity(p)
}

/// The coordinates read from a point (the neutral element is (0, 1)).
pub open spec fn spec_coords(p: EdPt) -> (nat, nat) {
    match p {
        EdPt::Inf => (0, 1),
        EdPt::Aff(x, y) => (x, y),
    }
}

/// The canonical 53-byte encoding: little-endian x, with the parity of y
/// in the top bit of the last byte.
pub open spec fn spec_ristretto_encode(p: EdPt) -> Seq<u8> {
    let x = spec_coords(p).0;
    let y = spec_coords(p).1;
    let xb = le_bytes_of(x, 53);
    xb.update(
        52,
        ((xb[52] & 0x7f) | (if y % 2 == 1 {
            0x80u8
        } else {
            0u8
        })),
    )
}

/// Errors of the prime-order wrapper.
#[derive(Debug, Clone, PartialEq, Eq)]
pub enum RistrettoError {
    InvalidEncoding,
    NotImplemented,
}

/// An Edwards point accepted by the prime-order subgroup check.
#[derive(Debug, PartialEq, Eq)]
pub struct RistrettoPoint(EdwardsPoint);

impl Clone for RistrettoPoint {
    fn clone(&self) -> (r: Self)
        ensures
            r@ == self@,
    {
        RistrettoPoint(self.0.clone())
    }
}

impl View for RistrettoPoint {
    type V = EdPt;

    closed spec fn view(&self) -> EdPt {
        self.0@
    }
}

/// Whether a point is the identity (neutral marker or (0, 1)).
fn is_identity_point(q: &EdwardsPoint) -> (r: bool)
    ensures
        r == spec_is_identity(q@),
{
    match q {
        EdwardsPoint::Infinity => true,
        EdwardsPoint::Affine(x, y) => x.is_zero() && y.is_one(),
    }
}

impl RistrettoPoint {
    /// Construct from an Edwards point after checking that it lies in the
    /// prime-order subgroup and is not the identity.
    pub fn from_edwards_checked(p: &EdwardsPoint) -> (r: Option<Self>)
        ensures
            r is Some <==> rp_wf(p@),
            r matches Some(rp) ==> rp@ == p@,
    {
        let l = crate::curve::l_order();
        let l_p = p.mul(&l);
        let is_identity = is_identity_point(&l_p);
        let p_is_identity = is_identity_point(p);
        if is_identity && !p_is_identity {
            Some(RistrettoPoint(p.clone()))
        } else {
            None
        }
    }

    /// The inner Edwards point, by value.
    pub fn to_edwards(&self) -> (r: EdwardsPoint)
        ensures
            r@ == self@,
    {
        self.0.clone()
    }

    /// The inner Edwards point, by reference.
    pub fn inner(&self) -> (r: &EdwardsPoint)
        ensures
            r@ == self@,
    {
        &self.0
    }

    /// Add two wrapped points.  The subgroup is closed under addition, so
    /// the result is again prime-order; that closure is a group-theoretic
    /// fact (it needs the full group laws) which this development cannot
    /// prove, so the contract states the sum alone.  A caller that needs
    /// the subgroup fact re-established can pass the result through
    /// `from_edwards_checked`.
    pub fn add(&self, rhs: &RistrettoPoint) -> (r: RistrettoPoint)
        ensures
            r@ == spec_edwards_add(self@, rhs@),
    {
        RistrettoPoint(self.0.add(&rhs.0))
    }

    /// Negate a wrapped point.  Unlike addition, negation provably keeps
    /// the prime-order invariant: the formula commutes with negation.
    pub fn neg(&self) -> (r: RistrettoPoint)
        ensures
            r@ == spec_edwards_neg(self@),
            rp_wf(self@) ==> rp_wf(r@),
    {
        self.0.canonical_fact();
        proof {
            if rp_wf(self@) {
                lemma_neg_preserves_wf(self@);
            }
        }
        RistrettoPoint(self.0.neg())
    }

    /// Multiply by a scalar.
    pub fn mul(&self, k: &Scalar) -> (r: RistrettoPoint)
        ensures
            r@ == spec_edwards_mul(self@, k@),
    {
        RistrettoPoint(self.0.mul(k))
    }

    /// Encode to the canonical 53 bytes.
    pub fn encode(&self) -> (r: Vec<u8>)
        ensures
            r@ == spec_ristretto_encode(self@),
            r@.len() == 53,
    {
        let (x, y) = self.0.coords();
        let mut xb = x.to_le_bytes_len(53);
        let last = xb[52];
        let par = y.parity();
        let top: u8 = (last & 0x7f) | (par << 7);
        proof {
            assert(par << 7 == (if par == 1 {
                0x80u8
            } else {
                0u8
            })) by (bit_vector)
                requires
                    par == 0u8 || par == 1u8,
            ;
        }
        xb.set(52, top);
        proof {
            assert(xb@ =~= spec_ristretto_encode(self@));
        }
        xb
    }

    /// Decode a canonical 53-byte encoding: parse x from the low 420 bits,
    /// recover y^2 = (1 - a*x^2)/(1 - d*x^2), take the root whose parity
    /// matches the top bit, and accept only prime-order points.  Accepted
    /// points re-encode to exactly the input bytes, and under the field
    /// facts named by `prime_field_facts` the encoding of every prime-order
    /// curve point decodes back to that point.
    pub fn decode(bytes: &Vec<u8>) -> (r: Result<RistrettoPoint, RistrettoError>)
        ensures
            r matches Ok(rp) ==> rp_wf(rp@) && spec_ristretto_encode(rp@) == bytes@,
            bytes@.len() != 53 ==> r == Err::<RistrettoPoint, RistrettoError>(
                RistrettoError::InvalidEncoding,
            ),
            bytes@.len() == 53 && le_val(spec_masked(bytes@)) >= p_nat() ==> r == Err::<
                RistrettoPoint,
                RistrettoError,
            >(RistrettoError::InvalidEncoding),
            bytes@.len() == 53 && le_val(spec_masked(bytes@)) < p_nat() && fsub(
                1,
                fmul(
                    crate::curve::edw_d_nat(),
                    fmul(le_val(spec_masked(bytes@)), le_val(spec_masked(bytes@))),
                ),
            ) == 0 ==> r == Err::<RistrettoPoint, RistrettoError>(RistrettoError::InvalidEncoding),
            bytes@.len() == 53 && le_val(spec_masked(bytes@)) < p_nat() && fsub(
                1,
                fmul(
                    crate::curve::edw_d_nat(),
                    fmul(le_val(spec_masked(bytes@)), le_val(spec_masked(bytes@))),
                ),
            ) != 0 && spec_decode_y2(le_val(spec_masked(bytes@))) != 0 && legendre_sym(
                spec_decode_y2(le_val(spec_masked(bytes@))),
            ) != 1 ==> r == Err::<RistrettoPoint, RistrettoError>(RistrettoError::InvalidEncoding),
            crate::field::prime_field_facts() ==> (forall|q: EdPt|
                #[trigger] spec_encodes(bytes@, q) ==> (r matches Ok(rp) && rp@ == q)),
    {
        if bytes.len() != 53 {
            proof {
                if crate::field::prime_field_facts() {
                    assert forall|q: EdPt| #[trigger] spec_encodes(bytes@, q) implies false by {
                        lemma_encode_extraction(q);
                    }
                }
            }
            return Err(RistrettoError::InvalidEncoding);
        }
        let mut xb = crate::bignum::copy_bytes(bytes);
        let sign = (xb[52] >> 7) & 1;
        let masked_top = xb[52] & 0x7f;
        xb.set(52, masked_top);
        proof {
            assert(xb@ =~= spec_masked(bytes@));
        }
        let x = match FieldElement::from_le_bytes_canonical(xb.as_slice()) {
            Some(x) => x,
            None => {
                proof {
                    if crate::field::prime_field_facts() {
                        assert forall|q: EdPt| #[trigger] spec_encodes(bytes@, q) implies false by {
                            lemma_encode_extraction(q);
                        }
                    }
                }
                return Err(RistrettoError::InvalidEncoding);
            },
        };
        let x2 = x.mul(&x);
        // y^2 = (1 - a*x^2) / (1 - d*x^2)
        let one = FieldElement::one();
        let num = one.sub(&edw_a().mul(&x2));
        let den = one.sub(&edw_d().mul(&x2));
        if den.is_zero() {
            proof {
                if crate::field::prime_field_facts() {
                    assert forall|q: EdPt| #[trigger] spec_encodes(bytes@, q) implies false by {
                        lemma_encode_extraction(q);
                        lemma_decode_preimage(q);
                    }
                }
            }
            return Err(RistrettoError::InvalidEncoding);
        }
        let y2 = num.mul(&den.inv());
        let y0 = match y2.sqrt() {
            Some(y0) => y0,
            None => {
                proof {
                    if crate::field::prime_field_facts() {
                        assert forall|q: EdPt| #[trigger] spec_encodes(bytes@, q) implies false by {
                            lemma_encode_extraction(q);
                            lemma_decode_preimage(q);
                            let yq = spec_coords(q).1;
                            if yq == 0 {
                                crate::field::lemma_fmul_zero(0);
                            } else {
                                crate::field::lemma_h_square_residue(yq);
                            }
                        }
                    }
                }
                return Err(RistrettoError::InvalidEncoding);
            },
        };
        let y = if y0.parity() != sign {
            y0.neg()
        } else {
            y0
        };
        if y.parity() != sign {
            proof {
                if crate::field::prime_field_facts() {
                    assert forall|q: EdPt| #[trigger] spec_encodes(bytes@, q) implies false by {
                        lemma_encode_extraction(q);
                        lemma_decode_preimage(q);
                        lemma_selected_root(spec_coords(q).1, y0@, sign, y@);
                    }
                }
            }
            return Err(RistrettoError::InvalidEncoding);
        }
        let cand = EdwardsPoint::Affine(x, y);
        match RistrettoPoint::from_edwards_checked(&cand) {
            Some(rp) => {
                proof {
                    lemma_decode_reencodes(bytes@, x@, y@);
                    if crate::field::prime_field_facts() {
                        assert forall|q: EdPt| #[trigger] spec_encodes(bytes@, q) implies rp@
                            == q by {
                            lemma_encode_extraction(q);
                            lemma_decode_preimage(q);
                            lemma_selected_root(spec_coords(q).1, y0@, sign, y@);
                        }
                    }
                }
                Ok(rp)
            },
            None => {
                proof {
                    if crate::field::prime_field_facts() {
                        assert forall|q: EdPt| #[trigger] spec_encodes(bytes@, q) implies false by {
                            lemma_encode_extraction(q);
                            lemma_decode_preimage(q);
                            lemma_selected_root(spec_coords(q).1, y0@, sign, y@);
                            assert(cand@ == q);
                        }
                    }
                }
                Err(RistrettoError::InvalidEncoding)
            },
        }
    }
}

/// The y^2 candidate a decoder recovers from the x-coordinate:
/// (1 - a*x^2) / (1 - d*x^2).
pub open spec fn spec_decode_y2(x: nat) -> nat {
    fmul(
        fsub(1, fmul(crate::curve::edw_a_nat(), fmul(x, x))),
        finv(fsub(1, fmul(crate::curve::edw_d_nat(), fmul(x, x)))),
    )
}

/// Whether q is a prime-order, canonical, on-curve point whose encoding is
/// exactly `bytes`.
pub open spec fn spec_encodes(bytes: Seq<u8>, q: EdPt) -> bool {
    &&& rp_wf(q)
    &&& crate::curve::canonical_pt(q)
    &&& crate::curve::on_curve(q)
    &&& bytes == spec_ristretto_encode(q)
}

/// The parity-selected square root of y^2 is y itself, under the stated
/// field facts.
proof fn lemma_selected_root(yq: nat, y0: nat, sign: u8, ysel: nat)
    requires
        crate::field::prime_field_facts(),
        yq < p_nat(),
        y0 < p_nat(),
        fmul(y0, y0) == fmul(yq, yq),
        sign == (if yq % 2 == 1 {
            1u8
        } else {
            0u8
        }),
        ysel == (if (y0 % 2) as u8 != sign {
            crate::field::fneg(y0)
        } else {
            y0
        }),
    ensures
        ysel == yq,
        (ysel % 2) as u8 == sign,
{
    crate::field::lemma_h_root_pair(y0, yq);
    vstd::arithmetic::div_mod::lemma_mod_self_0(p_nat() as int);
    if y0 == yq {
        assert((y0 % 2) as u8 == sign);
    } else {
        assert(y0 == crate::field::fneg(yq));
        if yq == 0 {
            assert(crate::field::fneg(0nat) == 0);
        } else {
            crate::field::lemma_parity_flip(yq);
            assert((y0 % 2) as u8 != sign);
            crate::field::lemma_fneg_involutive(yq);
        }
    }
}

/// The top byte of a canonical field element's 53-byte encoding leaves the
/// sign bit clear: every element is below 2^423.
proof fn lemma_top_byte_bound(x: nat)
    requires
        x < p_nat(),
    ensures
        x / (crate::bignum::pow256(52) as nat) < 128,
{
    crate::bignum::lemma_pow256_is_pow2(52);
    vstd::arithmetic::power2::lemma2_to64_rest();
    vstd::arithmetic::power2::lemma_pow2_adds(52, 52);
    vstd::arithmetic::power2::lemma_pow2_adds(104, 104);
    vstd::arithmetic::power2::lemma_pow2_adds(208, 208);
    assert(vstd::arithmetic::power2::pow2(104) == 0x100000000000000000000000000nat)
        by (nonlinear_arith)
        requires
            vstd::arithmetic::power2::pow2(104) == vstd::arithmetic::power2::pow2(52)
                * vstd::arithmetic::power2::pow2(52),
            vstd::arithmetic::power2::pow2(52) == 0x10000000000000,
    ;
    assert(vstd::arithmetic::power2::pow2(208)
        == 0x10000000000000000000000000000000000000000000000000000nat) by (nonlinear_arith)
        requires
            vstd::arithmetic::power2::pow2(208) == vstd::arithmetic::power2::pow2(104)
                * vstd::arithmetic::power2::pow2(104),
            vstd::arithmetic::power2::pow2(104) == 0x100000000000000000000000000nat,
    ;
    assert(vstd::arithmetic::power2::pow2(416)
        == 0x100000000000000000000000000000000000000000000000000000000000000000000000000000000000000000000000000000000nat)
        by (nonlinear_arith)
        requires
            vstd::arithmetic::power2::pow2(416) == vstd::arithmetic::power2::pow2(208)
                * vstd::arithmetic::power2::pow2(208),
            vstd::arithmetic::power2::pow2(208)
                == 0x10000000000000000000000000000000000000000000000000000nat,
    ;
    let d = crate::bignum::pow256(52) as nat;
    assert(d
        == 0x100000000000000000000000000000000000000000000000000000000000000000000000000000000000000000000000000000000nat);
    vstd::arithmetic::div_mod::lemma_fundamental_div_mod(x as int, d as int);
    if x / d >= 128 {
        assert(x >= d * 128) by (nonlinear_arith)
            requires
                x as int == d * (x as int / d as int) + x as int % d as int,
                x as int % d as int >= 0,
                x as int / d as int >= 128,
                d > 0,
        ;
        assert(false);
    }
}

/// Reading the x-coordinate and sign bit back out of an encoding: the
/// masked bytes are exactly the fixed-length bytes of x, and the top bit
/// is the parity of y.
proof fn lemma_encode_extraction(q: EdPt)
    requires
        q is Aff,
        crate::curve::canonical_pt(q),
    ensures
        spec_ristretto_encode(q).len() == 53,
        spec_masked(spec_ristretto_encode(q)) == le_bytes_of(spec_coords(q).0, 53),
        le_val(spec_masked(spec_ristretto_encode(q))) == spec_coords(q).0,
        ((spec_ristretto_encode(q)[52] >> 7u8) & 1) == (if spec_coords(q).1 % 2 == 1 {
            1u8
        } else {
            0u8
        }),
{
    let x = spec_coords(q).0;
    let y = spec_coords(q).1;
    let xb = le_bytes_of(x, 53);
    let enc = spec_ristretto_encode(q);
    let pb: u8 = if y % 2 == 1 {
        0x80
    } else {
        0
    };
    let b52 = xb[52];
    lemma_top_byte_bound(x);
    lemma_small_mod(x / (crate::bignum::pow256(52) as nat), 256);
    assert(b52 < 128);
    assert((((b52 & 0x7f) | pb) & 0x7f) == b52 && ((((b52 & 0x7f) | pb) >> 7u8) & 1) == (if pb
        == 0x80 {
        1u8
    } else {
        0u8
    })) by (bit_vector)
        requires
            b52 < 128,
            pb == 0x80 || pb == 0,
    ;
    assert(spec_masked(enc) =~= xb);
    crate::field::lemma_field_codec_roundtrip(x);
}

/// Facts a decoder can rely on about the preimage point of an encoding,
/// under the stated field facts: the recovered y^2 really is the square of
/// the point's y, and the y-denominator is nonzero.
proof fn lemma_decode_preimage(q: EdPt)
    requires
        crate::field::prime_field_facts(),
        rp_wf(q),
        crate::curve::canonical_pt(q),
        crate::curve::on_curve(q),
    ensures
        q is Aff,
        fsub(1, fmul(crate::curve::edw_d_nat(), fmul(spec_coords(q).0, spec_coords(q).0))) != 0,
        fmul(
            fsub(1, fmul(crate::curve::edw_a_nat(), fmul(spec_coords(q).0, spec_coords(q).0))),
            finv(
                fsub(
                    1,
                    fmul(crate::curve::edw_d_nat(), fmul(spec_coords(q).0, spec_coords(q).0)),
                ),
            ),
        ) == fmul(spec_coords(q).1, spec_coords(q).1),
{
    assert(q is Aff);
    let x = spec_coords(q).0;
    let y = spec_coords(q).1;
    let a = crate::curve::edw_a_nat();
    let d = crate::curve::edw_d_nat();
    let xx = fmul(x, x);
    let yy = fmul(y, y);
    let axx = fmul(a, xx);
    let dxx = fmul(d, xx);
    let dd2 = fmul(dxx, yy);
    let den = fsub(1, dxx);
    let num = fsub(1, axx);
    crate::field::lemma_fmul_lt(x, x);
    crate::field::lemma_fmul_lt(y, y);
    crate::field::lemma_fmul_lt(a, xx);
    crate::field::lemma_fmul_lt(d, xx);
    crate::field::lemma_fmul_lt(dxx, yy);
    // the curve equation, with its d-term reassociated
    lemma_fmul_associative(d, xx, yy);
    assert(fadd(axx, yy) == fadd(1, dd2));
    // the y-denominator cannot vanish
    if den == 0 {
        crate::field::lemma_fsub_eq_zero(1, dxx);
        assert(dxx == 1);
        crate::field::lemma_fmul_one(yy);
        assert(dd2 == yy);
        crate::field::lemma_fadd_swap_fsub(axx, yy, yy);
        crate::field::lemma_fsub_eq_zero(yy, yy);
        crate::field::lemma_fsub_eq_zero(1, axx);
        assert(axx == 1);
        // then (a - d) * x^2 == 0 with a - d == 4, forcing x == 0
        crate::field::lemma_fmul_fsub_distributes(xx, a, d);
        lemma_fmul_commutative(xx, a);
        lemma_fmul_commutative(xx, d);
        crate::field::lemma_fsub_eq_zero(axx, dxx);
        assert(fmul(xx, fsub(a, d)) == 0);
        assert(fsub(crate::curve::edw_a_nat(), crate::curve::edw_d_nat()) == 4)
            by (nonlinear_arith);
        lemma_fmul_commutative(xx, 4);
        assert(fmul(4, xx) == 0);
        assert(xx == 0);
        crate::field::lemma_fmul_zero(d);
        assert(dxx == 0);
        assert(false);
    }
    // y^2 * den == num, so the recovered ratio is y^2
    crate::field::lemma_fadd_swap_fsub(axx, yy, dd2);
    crate::field::lemma_fmul_fsub_distributes(yy, 1, dxx);
    crate::field::lemma_fmul_one(yy);
    lemma_fmul_commutative(yy, dxx);
    assert(fmul(yy, den) == num);
    crate::field::lemma_fsub_lt(1, dxx);
    crate::field::lemma_h_fermat_inv(den);
    lemma_fmul_associative(yy, den, finv(den));
    crate::field::lemma_fmul_one(yy);
    assert(fmul(num, finv(den)) == fmul(fmul(yy, den), finv(den)));
    assert(fmul(fmul(yy, den), finv(den)) == fmul(yy, fmul(den, finv(den))));
    assert(fmul(num, finv(den)) == yy);
}

/// The input bytes with the sign bit cleared: the x-coordinate field.
pub open spec fn spec_masked(s: Seq<u8>) -> Seq<u8>
    recommends
        s.len() == 53,
{
    s.update(52, (s[52] & 0x7f) as u8)
}

/// A point whose x-coordinate reads back from the masked bytes and whose
/// y-parity matches the sign bit re-encodes to exactly those bytes.
proof fn lemma_decode_reencodes(bytes: Seq<u8>, x: nat, y: nat)
    requires
        bytes.len() == 53,
        x == le_val(spec_masked(bytes)),
        x < p_nat(),
        (y % 2) as u8 == ((bytes[52] >> 7u8) & 1),
    ensures
        spec_ristretto_encode(EdPt::Aff(x, y)) == bytes,
{
    let m = spec_masked(bytes);
    crate::field::lemma_field_codec_roundtrip(x);
    crate::bignum::lemma_le_val_injective_fixed(le_bytes_of(x, 53), m);
    let xb = le_bytes_of(x, 53);
    let enc = spec_ristretto_encode(EdPt::Aff(x, y));
    let b52 = bytes[52];
    let par = (y % 2) as u8;
    assert((((b52 & 0x7f) & 0x7f) | (if par == 1 {
        0x80u8
    } else {
        0u8
    })) == b52) by (bit_vector)
        requires
            par == ((b52 >> 7u8) & 1),
    ;
    assert(enc[52] == b52);
    assert forall|i: int| 0 <= i < 53 implies enc[i] == bytes[i] by {
        if i < 52 {
            assert(enc[i] == m[i]);
        }
    }
    assert(enc =~= bytes);
}

/// Negating a prime-order point gives a prime-order point: scalar
/// multiplication commutes with negation, and the identity is fixed by it.
pub proof fn lemma_neg_preserves_wf(p: EdPt)
    requires
        crate::curve::canonical_pt(p),
        rp_wf(p),
    ensures
        rp_wf(spec_edwards_neg(p)),
{
    crate::curve::lemma_mul_neg(p, l_nat());
    vstd::arithmetic::div_mod::lemma_mod_self_0(p_nat() as int);
    assert(crate::field::fneg(0) == 0);
    let lp = spec_edwards_mul(p, l_nat());
    assert(spec_edwards_mul(spec_edwards_neg(p), l_nat()) == spec_edwards_neg(lp));
    // the identity is fixed by negation, in either representation
    assert(spec_is_identity(spec_edwards_neg(lp)));
    // and a negation is the identity only if the point was
    if spec_is_identity(spec_edwards_neg(p)) {
        match p {
            EdPt::Aff(x, y) => {
                if crate::field::fneg(x) == 0 && x != 0 {
                    vstd::arithmetic::div_mod::lemma_small_mod(
                        (p_nat() - x) as nat,
                        p_nat(),
                    );
                }
            },
            EdPt::Inf => {},
        }
        assert(false);
    }
}

/// The ratio u/v as computed by `sqrt_ratio`: u times the Fermat inverse
/// of v.
pub open spec fn spec_ratio(u: nat, v: nat) -> nat {
    fmul(u, finv(v))
}

/// sqrt(u/v) when u/v is a square; otherwise sqrt(-u/v) rotated by
/// sqrt(-1), which again squares to u/v; otherwise no root.  Success on a
/// residue, and failure exactly on nonzero non-residues, are promised
/// under the number-theoretic facts named by `prime_field_facts`.
pub fn sqrt_ratio(u: &FieldElement, v: &FieldElement) -> (r: Option<FieldElement>)
    ensures
        r matches Some(x) ==> fmul(x@, x@) == spec_ratio(u@, v@),
        u@ == 0 ==> (r matches Some(x) && x@ == 0),
        crate::field::prime_field_facts() && spec_ratio(u@, v@) != 0 && legendre_sym(
            spec_ratio(u@, v@),
        ) == 1 ==> r is Some,
        crate::field::prime_field_facts() && fmul(spec_ratio(u@, v@), (p_nat() - 1) as nat) != 0
            && legendre_sym(fmul(spec_ratio(u@, v@), (p_nat() - 1) as nat)) == 1 ==> r is Some,
        crate::field::prime_field_facts() && r is None ==> spec_ratio(u@, v@) != 0
            && legendre_sym(spec_ratio(u@, v@)) != 1 && legendre_sym(
            fmul(spec_ratio(u@, v@), (p_nat() - 1) as nat),
        ) != 1,
{
    let inv_v = v.inv();
    let x = u.mul(&inv_v);
    proof {
        if u@ == 0 {
            assert(u@ * inv_v@ == 0) by (nonlinear_arith)
                requires
                    u@ == 0,
            ;
            lemma_small_mod(0, p_nat());
        }
    }
    if let Some(r) = x.sqrt() {
        return Some(r);
    }
    // try sqrt(-x)
    let one = FieldElement::one();
    let minus_one = FieldElement::zero().sub(&one);
    let x_neg = x.mul(&minus_one);
    proof {
        lemma_small_mod((p_nat() - 1) as nat, p_nat());
        assert(x_neg@ == fmul(spec_ratio(u@, v@), (p_nat() - 1) as nat));
    }
    if let Some(r2) = x_neg.sqrt() {
        let sm1 = sqrt_m1();
        let out = sm1.mul(&r2);
        proof {
            vstd::arithmetic::div_mod::lemma_mod_bound(
                (u@ * inv_v@) as int,
                p_nat() as int,
            );
            lemma_small_mod((p_nat() - 1) as nat, p_nat());
            lemma_rotation_squares_back(x@, r2@);
        }
        return Some(out);
    }
    None
}

/// If w^2 = x * (p - 1), then (sqrt(-1) * w)^2 = x, for canonical x.
proof fn lemma_rotation_squares_back(x: nat, w: nat)
    requires
        x < p_nat(),
        fmul(w, w) == fmul(x, (p_nat() - 1) as nat),
    ensures
        fmul(fmul(sqrt_m1_nat(), w), fmul(sqrt_m1_nat(), w)) == x,
{
    let s = sqrt_m1_nat();
    let m1 = (p_nat() - 1) as nat;
    lemma_fmul_square_distributes(s, w);
    lemma_sqrt_m1_square();
    // fmul(fmul(s,s), fmul(w,w)) == fmul(m1, fmul(x, m1))
    lemma_fmul_commutative(x, m1);
    lemma_fmul_associative(m1, m1, x);
    // fmul(m1, fmul(m1, x)) == fmul(fmul(m1, m1), x)
    assert(fmul(m1, m1) == 1) by (nonlinear_arith)
        requires
            m1 == (p_nat() - 1) as nat,
    ;
    lemma_small_mod(x, p_nat());
}

/// Select `a` when choice is 0, else `b` (best-effort constant time).
#[allow(dead_code)]
fn ct_select_fe(a: &FieldElement, b: &FieldElement, choice: u8) -> (r: FieldElement)
    ensures
        choice == 0 ==> r@ == a@,
        choice != 0 ==> r@ == b@,
{
    if choice == 0 {
        a.clone()
    } else {
        b.clone()
    }
}

/// 1 when the canonical representative is odd ("negative"), else 0.
#[allow(dead_code)]
fn is_negative(x: &FieldElement) -> (r: u8)
    ensures
        r == x@ % 2,
{
    x.parity()
}

/// The constant d' = (2 - A)/(A + 2) mod p as a field element.
pub fn d_m1() -> (r: FieldElement)
    ensures
        r@ == d_m1_nat(),
{
    let limbs: Vec<u64> = vec![0x4030f69e06cfca3u64, 0x60fc8b32934f3423, 0x7afe20ce95b3bae5, 0x697f9802604b1514, 0xd6f1f136d39cf2e6, 0x9e909daffd7a8009, 0xe7e4ce2ae];
    proof {
        assert(limbs@ =~= seq![0x4030f69e06cfca3u64, 0x60fc8b32934f3423, 0x7afe20ce95b3bae5, 0x697f9802604b1514, 0xd6f1f136d39cf2e6, 0x9e909daffd7a8009, 0xe7e4ce2ae]);
        assert(limbs_val(limbs@) == d_m1_nat()) by {
            reveal_with_fuel(limbs_val, 9);
        }
    }
    FieldElement::from_limbs(&limbs)
}

/// The constant sqrt(-1) mod p as a field element.
pub fn sqrt_m1() -> (r: FieldElement)
    ensures
        r@ == sqrt_m1_nat(),
{
    let limbs: Vec<u64> = vec![0x77ca8b56a798db35u64, 0xd98089815d8b7738, 0x9daa6db2bbc1bd3f, 0xc0c116a4ecb936fc, 0x9617bfd139e9828f, 0xe9589117f63ec6da, 0x6a6a2832c];
    proof {
        assert(limbs@ =~= seq![0x77ca8b56a798db35u64, 0xd98089815d8b7738, 0x9daa6db2bbc1bd3f, 0xc0c116a4ecb936fc, 0x9617bfd139e9828f, 0xe9589117f63ec6da, 0x6a6a2832c]);
        assert(limbs_val(limbs@) == sqrt_m1_nat()) by {
            reveal_with_fuel(limbs_val, 9);
        }
    }
    FieldElement::from_limbs(&limbs)
}

/// d' * (A + 2) is congruent to 2 - A modulo p.
pub proof fn lemma_d_m1_relation()
    ensures
        fmul(d_m1_nat(), fadd(crate::montgomery::mont_a_nat(), 2)) == fsub(
            2,
            crate::montgomery::mont_a_nat(),
        ),
{
    assert(fadd(crate::montgomery::mont_a_nat(), 2)
        == 763975519699500577645754547835125169481986463482154078046572648671788968290548038674290307302429817161505744408446033521089604nat)
        by (nonlinear_arith);
    assert(fmul(
        d_m1_nat(),
        763975519699500577645754547835125169481986463482154078046572648671788968290548038674290307302429817161505744408446033521089604nat,
    )
        == 1943709728465357683661290553867105009655159117939541796143348816772177152613383233825684698658643989574227860046049642093142641nat)
        by (nonlinear_arith);
    assert(fsub(2, crate::montgomery::mont_a_nat())
        == 1943709728465357683661290553867105009655159117939541796143348816772177152613383233825684698658643989574227860046049642093142641nat)
        by (nonlinear_arith);
}

/// sqrt(-1) squared is congruent to -1 modulo p.
pub proof fn lemma_sqrt_m1_square()
    ensures
        fmul(sqrt_m1_nat(), sqrt_m1_nat()) == (p_nat() - 1) as nat,
{
    assert(fmul(sqrt_m1_nat(), sqrt_m1_nat()) == (p_nat() - 1) as nat) by (nonlinear_arith);
}

/// Under the stated field facts, the named constant and its negation are
/// the only square roots of -1: any root `sqrt` returns for -1 is one of
/// the two.
pub proof fn lemma_sqrt_m1_roots(w: nat)
    requires
        crate::field::prime_field_facts(),
        w < p_nat(),
        fmul(w, w) == (p_nat() - 1) as nat,
    ensures
        w == sqrt_m1_nat() || w == crate::field::fneg(sqrt_m1_nat()),
{
    lemma_sqrt_m1_square();
    assert(sqrt_m1_nat() < p_nat()) by (nonlinear_arith);
    crate::field::lemma_h_root_pair(w, sqrt_m1_nat());
}

} // verus!
