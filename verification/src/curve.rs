//! The twisted Edwards model a*x^2 + y^2 = 1 + d*x^2*y^2 with a = A + 2 and
//! d = A - 2: affine point addition, negation, and variable-time
//! double-and-add scalar multiplication.

use vstd::prelude::*;
use crate::field::{FieldElement, fadd, fsub, fmul, fneg, finv};
use crate::scalar::Scalar;
use crate::bignum::limbs_val;

verus! {

/// The Edwards curve constant a = A + 2.
pub open spec fn edw_a_nat() -> nat {
    763975519699500577645754547835125169481986463482154078046572648671788968290548038674290307302429817161505744408446033521089604nat
}

/// The Edwards curve constant d = A - 2.
pub open spec fn edw_d_nat() -> nat {
    763975519699500577645754547835125169481986463482154078046572648671788968290548038674290307302429817161505744408446033521089600nat
}

/// x-coordinate of the Edwards base point G.
pub open spec fn gx_nat() -> nat {
    2554519045303036994902077297242990796196199161457630080356703041833906288977089421513471756737913123939108844302244613830350009nat
}

/// y-coordinate of the Edwards base point G.
pub open spec fn gy_nat() -> nat {
    1554004282195909523747673681974014268960308454695342458183393593582942692590987497223833263666951454840260505456918987028153736nat
}

/// The prime order L of the subgroup generated by G.
pub open spec fn l_nat() -> nat {
    338460656020607282663380637712778772392143197677711984273740183501508577674026655281164768623743539442603492250355597371718719nat
}

/// A point of the curve model: the neutral element, or an affine pair.
pub enum EdPt {
    Inf,
    Aff(nat, nat),
}

/// Whether a point satisfies the curve equation (the neutral element is
/// taken to lie on the curve).
pub open spec fn on_curve(p: EdPt) -> bool {
    match p {
        EdPt::Inf => true,
        EdPt::Aff(x, y) => fadd(fmul(edw_a_nat(), fmul(x, x)), fmul(y, y)) == fadd(
            1,
            fmul(edw_d_nat(), fmul(fmul(x, x), fmul(y, y))),
        ),
    }
}

/// The affine addition formula, with explicit identity rules for the
/// neutral element.  Both coordinates divide by their own denominator,
/// computed through one shared inversion of the denominators' product (for
/// points with nonzero denominators this equals inverting each one).
pub open spec fn spec_edwards_add(p1: EdPt, p2: EdPt) -> EdPt {
    match (p1, p2) {
        (EdPt::Inf, q) => q,
        (q, EdPt::Inf) => q,
        (EdPt::Aff(x1, y1), EdPt::Aff(x2, y2)) => {
            let x1y2 = fmul(x1, y2);
            let y1x2 = fmul(y1, x2);
            let x1x2 = fmul(x1, x2);
            let y1y2 = fmul(y1, y2);
            let dxxyy = fmul(fmul(edw_d_nat(), x1x2), y1y2);
            let x3_den = fadd(1, dxxyy);
            let y3_den = fsub(1, dxxyy);
            let den_inv = finv(fmul(x3_den, y3_den));
            let x3 = fmul(fadd(x1y2, y1x2), fmul(den_inv, y3_den));
            let y3 = fmul(fsub(y1y2, fmul(edw_a_nat(), x1x2)), fmul(den_inv, x3_den));
            EdPt::Aff(x3, y3)
        },
    }
}

/// The addition formula in the per-coordinate quotient form of the model:
/// x3 = (x1*y2 + y1*x2)/(1 + d*x1*x2*y1*y2) and
/// y3 = (y1*y2 - a*x1*x2)/(1 - d*x1*x2*y1*y2).
pub open spec fn spec_edwards_add_quotients(p1: EdPt, p2: EdPt) -> EdPt {
    match (p1, p2) {
        (EdPt::Inf, q) => q,
        (q, EdPt::Inf) => q,
        (EdPt::Aff(x1, y1), EdPt::Aff(x2, y2)) => {
            let x1y2 = fmul(x1, y2);
            let y1x2 = fmul(y1, x2);
            let x1x2 = fmul(x1, x2);
            let y1y2 = fmul(y1, y2);
            let dxxyy = fmul(fmul(edw_d_nat(), x1x2), y1y2);
            let x3 = fmul(fadd(x1y2, y1x2), finv(fadd(1, dxxyy)));
            let y3 = fmul(fsub(y1y2, fmul(edw_a_nat(), x1x2)), finv(fsub(1, dxxyy)));
            EdPt::Aff(x3, y3)
        },
    }
}

/// The x-coordinate denominator 1 + d*x1*x2*y1*y2 of the addition formula
/// (1 in the neutral cases).
pub open spec fn add_den_x(p1: EdPt, p2: EdPt) -> nat {
    match (p1, p2) {
        (EdPt::Aff(x1, y1), EdPt::Aff(x2, y2)) => fadd(
            1,
            fmul(fmul(edw_d_nat(), fmul(x1, x2)), fmul(y1, y2)),
        ),
        _ => 1,
    }
}

/// The y-coordinate denominator 1 - d*x1*x2*y1*y2 of the addition formula
/// (1 in the neutral cases).
pub open spec fn add_den_y(p1: EdPt, p2: EdPt) -> nat {
    match (p1, p2) {
        (EdPt::Aff(x1, y1), EdPt::Aff(x2, y2)) => fsub(
            1,
            fmul(fmul(edw_d_nat(), fmul(x1, x2)), fmul(y1, y2)),
        ),
        _ => 1,
    }
}

/// Whether both coordinates of a point are canonical representatives.
pub open spec fn canonical_pt(p: EdPt) -> bool {
    match p {
        EdPt::Inf => true,
        EdPt::Aff(x, y) => x < crate::field::p_nat() && y < crate::field::p_nat(),
    }
}

/// Doubling reuses the addition formula.
pub open spec fn spec_edwards_double(p: EdPt) -> EdPt {
    match p {
        EdPt::Inf => EdPt::Inf,
        EdPt::Aff(x, y) => spec_edwards_add(p, p),
    }
}

/// Negation: (x, y) goes to (-x, y).
pub open spec fn spec_edwards_neg(p: EdPt) -> EdPt {
    match p {
        EdPt::Inf => EdPt::Inf,
        EdPt::Aff(x, y) => EdPt::Aff(fneg(x), y),
    }
}

/// One step per low bit: the state of binary double-and-add, least
/// significant bit first.
pub open spec fn spec_mul_loop(res: EdPt, temp: EdPt, k: nat) -> EdPt
    decreases k,
{
    if k == 0 {
        res
    } else {
        spec_mul_loop(
            if k % 2 == 1 {
                spec_edwards_add(res, temp)
            } else {
                res
            },
            spec_edwards_double(temp),
            k / 2,
        )
    }
}

/// Scalar multiplication k * P as computed by double-and-add.
pub open spec fn spec_edwards_mul(p: EdPt, k: nat) -> EdPt {
    spec_mul_loop(EdPt::Inf, p, k)
}

/// A point on the twisted Edwards curve: the neutral element (logically
/// (0, 1)) or an affine coordinate pair.
#[derive(Debug, PartialEq, Eq)]
pub enum EdwardsPoint {
    Infinity,
    Affine(FieldElement, FieldElement),
}

impl Clone for EdwardsPoint {
    fn clone(&self) -> (r: Self)
        ensures
            r@ == self@,
    {
        match self {
            EdwardsPoint::Infinity => EdwardsPoint::Infinity,
            EdwardsPoint::Affine(x, y) => EdwardsPoint::Affine(x.clone(), y.clone()),
        }
    }
}

impl View for EdwardsPoint {
    type V = EdPt;

    open spec fn view(&self) -> EdPt {
        match self {
            EdwardsPoint::Infinity => EdPt::Inf,
            EdwardsPoint::Affine(x, y) => EdPt::Aff(x@, y@),
        }
    }
}

impl EdwardsPoint {
    /// The coordinates of this point; the neutral element reads as (0, 1).
    pub fn coords(&self) -> (r: (FieldElement, FieldElement))
        ensures
            self@ matches EdPt::Aff(x, y) ==> r.0@ == x && r.1@ == y,
            self@ is Inf ==> r.0@ == 0 && r.1@ == 1,
    {
        match self {
            EdwardsPoint::Affine(x, y) => (x.clone(), y.clone()),
            EdwardsPoint::Infinity => (FieldElement::zero(), FieldElement::one()),
        }
    }

    /// Yield the canonicity of this point's coordinates (field elements
    /// are representatives below p) to the caller's proof context.
    pub fn canonical_fact(&self)
        ensures
            canonical_pt(self@),
    {
        match self {
            EdwardsPoint::Affine(x, y) => {
                x.canonical_fact();
                y.canonical_fact();
            },
            EdwardsPoint::Infinity => {},
        }
    }

    /// Value equality of points.
    pub fn equals(&self, other: &EdwardsPoint) -> (r: bool)
        ensures
            r == (self@ == other@),
    {
        match (self, other) {
            (EdwardsPoint::Infinity, EdwardsPoint::Infinity) => true,
            (EdwardsPoint::Affine(x1, y1), EdwardsPoint::Affine(x2, y2)) => x1.ct_eq(x2)
                && y1.ct_eq(y2),
            _ => false,
        }
    }

    /// Point addition.
    pub fn add(&self, rhs: &EdwardsPoint) -> (r: EdwardsPoint)
        ensures
            r@ == spec_edwards_add(self@, rhs@),
    {
        point_add(self, rhs)
    }

    /// Point negation.
    pub fn neg(&self) -> (r: EdwardsPoint)
        ensures
            r@ == spec_edwards_neg(self@),
    {
        match self {
            EdwardsPoint::Infinity => EdwardsPoint::Infinity,
            EdwardsPoint::Affine(x, y) => EdwardsPoint::Affine(
                FieldElement::zero().sub(x),
                y.clone(),
            ),
        }
    }

    /// Point subtraction: add the negation.
    pub fn sub(&self, rhs: &EdwardsPoint) -> (r: EdwardsPoint)
        ensures
            r@ == spec_edwards_add(self@, spec_edwards_neg(rhs@)),
    {
        point_add(self, &rhs.neg())
    }

    /// Variable-time scalar multiplication by binary double-and-add, least
    /// significant bit first.  Not for secret scalars.
    pub fn mul(&self, k: &Scalar) -> (r: EdwardsPoint)
        ensures
            r@ == spec_edwards_mul(self@, k@),
    {
        let mut res = EdwardsPoint::Infinity;
        let mut temp = self.clone();
        let mut s = k.clone();
        while !s.is_zero()
            invariant
                spec_mul_loop(res@, temp@, s@) == spec_edwards_mul(self@, k@),
            decreases s@,
        {
            let ghost pre = (res@, temp@, s@);
            if s.is_odd() {
                res = point_add(&res, &temp);
            }
            temp = point_double(&temp);
            s = s.half();
            proof {
                vstd::arithmetic::div_mod::lemma_fundamental_div_mod(pre.2 as int, 2);
                assert(spec_mul_loop(pre.0, pre.1, pre.2) == spec_mul_loop(res@, temp@, s@));
            }
        }
        res
    }
}

/// The affine twisted Edwards addition formula; doubling uses the same
/// formula.
pub fn point_add(p1: &EdwardsPoint, p2: &EdwardsPoint) -> (r: EdwardsPoint)
    ensures
        r@ == spec_edwards_add(p1@, p2@),
{
    match (p1, p2) {
        (EdwardsPoint::Infinity, p) => p.clone(),
        (p, EdwardsPoint::Infinity) => p.clone(),
        (EdwardsPoint::Affine(x1, y1), EdwardsPoint::Affine(x2, y2)) => {
            let x1y2 = x1.mul(y2);
            let y1x2 = y1.mul(x2);
            let x1x2 = x1.mul(x2);
            let y1y2 = y1.mul(y2);
            let d = edw_d();
            let a = edw_a();
            let dxxyy = d.mul(&x1x2).mul(&y1y2);
            let one = FieldElement::one();
            let x3_num = x1y2.add(&y1x2);
            let x3_den = one.add(&dxxyy);
            let y3_num = y1y2.sub(&a.mul(&x1x2));
            let y3_den = one.sub(&dxxyy);
            // one shared inversion serves both coordinates:
            // 1/(x3_den * y3_den) times the other denominator
            let den_inv = (x3_den.mul(&y3_den)).inv();
            let x3 = x3_num.mul(&den_inv.mul(&y3_den));
            let y3 = y3_num.mul(&den_inv.mul(&x3_den));
            EdwardsPoint::Affine(x3, y3)
        },
    }
}

/// Doubling: the addition formula applied to a point and itself.
pub fn point_double(p: &EdwardsPoint) -> (r: EdwardsPoint)
    ensures
        r@ == spec_edwards_double(p@),
{
    match p {
        EdwardsPoint::Affine(_, _) => point_add(p, p),
        EdwardsPoint::Infinity => EdwardsPoint::Infinity,
    }
}

/// The Edwards constant a = A + 2 as a field element.
pub fn edw_a() -> (r: FieldElement)
    ensures
        r@ == edw_a_nat(),
{
    let limbs: Vec<u64> = vec![0x1257dd4f6f311c44u64, 0x1c726ae2e2289e99, 0x7151d1c589085a9, 0x8b7b6cc52604ad12, 0xb6b6d5cd5273a4d6, 0x4da40fd0ae8ab3a5, 0x483b08ac5];
    proof {
        assert(limbs@ =~= seq![0x1257dd4f6f311c44u64, 0x1c726ae2e2289e99, 0x7151d1c589085a9, 0x8b7b6cc52604ad12, 0xb6b6d5cd5273a4d6, 0x4da40fd0ae8ab3a5, 0x483b08ac5]);
        assert(limbs_val(limbs@) == edw_a_nat()) by {
            reveal_with_fuel(limbs_val, 9);
        }
    }
    FieldElement::from_limbs(&limbs)
}

/// The Edwards constant d = A - 2 as a field element.
pub fn edw_d() -> (r: FieldElement)
    ensures
        r@ == edw_d_nat(),
{
    let limbs: Vec<u64> = vec![0x1257dd4f6f311c40u64, 0x1c726ae2e2289e99, 0x7151d1c589085a9, 0x8b7b6cc52604ad12, 0xb6b6d5cd5273a4d6, 0x4da40fd0ae8ab3a5, 0x483b08ac5];
    proof {
        assert(limbs@ =~= seq![0x1257dd4f6f311c40u64, 0x1c726ae2e2289e99, 0x7151d1c589085a9, 0x8b7b6cc52604ad12, 0xb6b6d5cd5273a4d6, 0x4da40fd0ae8ab3a5, 0x483b08ac5]);
        assert(limbs_val(limbs@) == edw_d_nat()) by {
            reveal_with_fuel(limbs_val, 9);
        }
    }
    FieldElement::from_limbs(&limbs)
}

/// The Edwards base point G.
pub fn base_point() -> (r: EdwardsPoint)
    ensures
        r@ == EdPt::Aff(gx_nat(), gy_nat()),
{
    let xl: Vec<u64> = vec![0x64dc377f06d214b9u64, 0xf028d6389a781fa2, 0x2dd375234f6b6439, 0x97a8c2de3d98ea9, 0x6fda0fe9366cc680, 0xf12c145b6794ca79, 0xf184cfae8];
    let yl: Vec<u64> = vec![0xa6eecfa49fb5c588u64, 0x4c1efb3c671f0d00, 0xf99574926968a445, 0xf0a76a93949bd503, 0x25a8b515d282991c, 0x86d7f1cdadbe858a, 0x92eca711f];
    proof {
        assert(xl@ =~= seq![0x64dc377f06d214b9u64, 0xf028d6389a781fa2, 0x2dd375234f6b6439, 0x97a8c2de3d98ea9, 0x6fda0fe9366cc680, 0xf12c145b6794ca79, 0xf184cfae8]);
        assert(yl@ =~= seq![0xa6eecfa49fb5c588u64, 0x4c1efb3c671f0d00, 0xf99574926968a445, 0xf0a76a93949bd503, 0x25a8b515d282991c, 0x86d7f1cdadbe858a, 0x92eca711f]);
        assert(limbs_val(xl@) == gx_nat() && limbs_val(yl@) == gy_nat()) by {
            reveal_with_fuel(limbs_val, 9);
        }
    }
    EdwardsPoint::Affine(FieldElement::from_limbs(&xl), FieldElement::from_limbs(&yl))
}

/// The prime subgroup order L as a scalar.
pub fn l_order() -> (r: Scalar)
    ensures
        r@ == l_nat(),
{
    let limbs: Vec<u64> = vec![0xb791042a29ef3c3fu64, 0x6d70f1108a3d7a48, 0x4aa0249361c8ff23, 0xc7c4, 0x0, 0x0, 0x200000000];
    let b = crate::bignum::bytes_from_limbs(&limbs);
    proof {
        assert(limbs@ =~= seq![0xb791042a29ef3c3fu64, 0x6d70f1108a3d7a48, 0x4aa0249361c8ff23, 0xc7c4, 0x0, 0x0, 0x200000000]);
        assert(limbs_val(limbs@) == l_nat()) by {
            reveal_with_fuel(limbs_val, 9);
        }
    }
    Scalar::from_canonical(b)
}

/// The cofactor h = 8 as a scalar.
pub fn cofactor() -> (r: Scalar)
    ensures
        r@ == 8,
{
    Scalar::from_u64(8)
}

/// The neutral element is the identity of the addition formula, on either
/// side.
pub proof fn lemma_add_neutral(p: EdPt)
    ensures
        spec_edwards_add(p, EdPt::Inf) == p,
        spec_edwards_add(EdPt::Inf, p) == p,
{
}

/// When Fermat exponentiation actually inverts the two denominators and
/// their product -- which holds whenever the denominators are nonzero, by
/// Fermat's little theorem, a fact that rests on the primality of p and is
/// outside what this development can prove -- the shared-inversion addition
/// formula agrees with the per-coordinate quotients of the model.
pub proof fn lemma_add_matches_quotients(p1: EdPt, p2: EdPt)
    requires
        fmul(finv(add_den_x(p1, p2)), add_den_x(p1, p2)) == 1,
        fmul(finv(add_den_y(p1, p2)), add_den_y(p1, p2)) == 1,
        fmul(
            finv(fmul(add_den_x(p1, p2), add_den_y(p1, p2))),
            fmul(add_den_x(p1, p2), add_den_y(p1, p2)),
        ) == 1,
    ensures
        spec_edwards_add(p1, p2) == spec_edwards_add_quotients(p1, p2),
{
    match (p1, p2) {
        (EdPt::Aff(x1, y1), EdPt::Aff(x2, y2)) => {
            let dx = add_den_x(p1, p2);
            let dy = add_den_y(p1, p2);
            let i = finv(fmul(dx, dy));
            crate::field::lemma_fmul_lt(i, dy);
            crate::field::lemma_fmul_lt(i, dx);
            crate::field::lemma_finv_lt(dx);
            crate::field::lemma_finv_lt(dy);
            // (i * dy) * dx == i * (dx * dy) == 1, so i * dy inverts dx
            crate::field::lemma_fmul_associative(i, dy, dx);
            crate::field::lemma_fmul_commutative(dy, dx);
            crate::field::lemma_inverse_unique(dx, fmul(i, dy), finv(dx));
            // (i * dx) * dy == i * (dx * dy) == 1, so i * dx inverts dy
            crate::field::lemma_fmul_associative(i, dx, dy);
            crate::field::lemma_inverse_unique(dy, fmul(i, dx), finv(dy));
        },
        _ => {},
    }
}

/// The quotient correspondence under the stated field facts alone: when
/// both denominators are nonzero (guaranteed within the prime-order
/// subgroup), the shared-inversion formula equals the per-coordinate
/// quotients of the model.
pub proof fn lemma_add_matches_quotients_under_facts(p1: EdPt, p2: EdPt)
    requires
        crate::field::prime_field_facts(),
        add_den_x(p1, p2) != 0,
        add_den_y(p1, p2) != 0,
    ensures
        spec_edwards_add(p1, p2) == spec_edwards_add_quotients(p1, p2),
{
    let dx = add_den_x(p1, p2);
    let dy = add_den_y(p1, p2);
    lemma_add_den_bounds(p1, p2);
    lemma_den_inverses(dx, dy);
    lemma_add_matches_quotients(p1, p2);
}

/// Both denominators of the addition formula are canonical.
proof fn lemma_add_den_bounds(p1: EdPt, p2: EdPt)
    ensures
        add_den_x(p1, p2) < crate::field::p_nat(),
        add_den_y(p1, p2) < crate::field::p_nat(),
{
    match (p1, p2) {
        (EdPt::Aff(x1, y1), EdPt::Aff(x2, y2)) => {
            let dxxyy = fmul(fmul(edw_d_nat(), fmul(x1, x2)), fmul(y1, y2));
            crate::field::lemma_fadd_lt(1, dxxyy);
            crate::field::lemma_fmul_lt(fmul(edw_d_nat(), fmul(x1, x2)), fmul(y1, y2));
            crate::field::lemma_fsub_lt(1, dxxyy);
        },
        _ => {},
    }
}

/// Under the stated field facts, Fermat exponentiation inverts two nonzero
/// denominators and their product.
proof fn lemma_den_inverses(dx: nat, dy: nat)
    requires
        crate::field::prime_field_facts(),
        dx != 0,
        dy != 0,
        dx < crate::field::p_nat(),
        dy < crate::field::p_nat(),
    ensures
        fmul(finv(dx), dx) == 1,
        fmul(finv(dy), dy) == 1,
        fmul(finv(fmul(dx, dy)), fmul(dx, dy)) == 1,
{
    crate::field::lemma_h_fermat_inv(dx);
    crate::field::lemma_h_fermat_inv(dy);
    crate::field::lemma_fmul_lt(dx, dy);
    if fmul(dx, dy) == 0 {
        assert(false);
    }
    crate::field::lemma_h_fermat_inv(fmul(dx, dy));
}

/// Under the stated field facts, a canonical curve point and its negation
/// add to the affine neutral (0, 1) whenever the formula's denominators
/// are nonzero.
pub proof fn lemma_add_neg_cancels_under_facts(p: EdPt)
    requires
        crate::field::prime_field_facts(),
        canonical_pt(p),
        on_curve(p),
        p is Aff,
        add_den_x(p, spec_edwards_neg(p)) != 0,
        add_den_y(p, spec_edwards_neg(p)) != 0,
    ensures
        spec_edwards_add(p, spec_edwards_neg(p)) == EdPt::Aff(0, 1),
{
    let dx = add_den_x(p, spec_edwards_neg(p));
    let dy = add_den_y(p, spec_edwards_neg(p));
    lemma_add_den_bounds(p, spec_edwards_neg(p));
    lemma_den_inverses(dx, dy);
    lemma_add_neg_cancels(p);
}

/// The addition formula is commutative in its two points.
pub proof fn lemma_edwards_add_commutative(p1: EdPt, p2: EdPt)
    ensures
        spec_edwards_add(p1, p2) == spec_edwards_add(p2, p1),
{
    match (p1, p2) {
        (EdPt::Aff(x1, y1), EdPt::Aff(x2, y2)) => {
            crate::field::lemma_fmul_commutative(x1, y2);
            crate::field::lemma_fmul_commutative(y1, x2);
            crate::field::lemma_fmul_commutative(x1, x2);
            crate::field::lemma_fmul_commutative(y1, y2);
            crate::field::lemma_fadd_commutative(fmul(x1, y2), fmul(y1, x2));
        },
        _ => {},
    }
}

/// Negating twice gives the point back, on canonical coordinates.
pub proof fn lemma_edwards_neg_involutive(p: EdPt)
    requires
        canonical_pt(p),
    ensures
        spec_edwards_neg(spec_edwards_neg(p)) == p,
{
    match p {
        EdPt::Aff(x, y) => {
            crate::field::lemma_fneg_involutive(x);
        },
        EdPt::Inf => {},
    }
}

/// Negation keeps a canonical point on the curve.
pub proof fn lemma_neg_preserves_curve(p: EdPt)
    requires
        canonical_pt(p),
        on_curve(p),
    ensures
        on_curve(spec_edwards_neg(p)),
{
    match p {
        EdPt::Aff(x, y) => {
            let xx = fmul(x, x);
            crate::field::lemma_fmul_lt(x, x);
            // (-x) * (-x) == -((-x) * x) == -(-(x * x)) == x * x
            crate::field::lemma_finv_lt(x);
            crate::field::lemma_fmul_fneg(fneg(x), x);
            crate::field::lemma_fmul_commutative(fneg(x), x);
            crate::field::lemma_fmul_fneg(x, x);
            crate::field::lemma_fneg_involutive(xx);
            assert(fmul(fneg(x), fneg(x)) == xx);
        },
        EdPt::Inf => {},
    }
}

/// Adding a canonical curve point to its negation yields the affine
/// neutral (0, 1), provided Fermat exponentiation inverts the formula's
/// denominator product (true for nonzero denominators by Fermat's little
/// theorem, which is outside what this development can prove).
pub proof fn lemma_add_neg_cancels(p: EdPt)
    requires
        canonical_pt(p),
        on_curve(p),
        p is Aff,
        fmul(
            finv(fmul(add_den_x(p, spec_edwards_neg(p)), add_den_y(p, spec_edwards_neg(p)))),
            fmul(add_den_x(p, spec_edwards_neg(p)), add_den_y(p, spec_edwards_neg(p))),
        ) == 1,
    ensures
        spec_edwards_add(p, spec_edwards_neg(p)) == EdPt::Aff(0, 1),
{
    let x = p->Aff_0;
    let y = p->Aff_1;
    let n = spec_edwards_neg(p);
    let xy = fmul(x, y);
    let xx = fmul(x, x);
    let yy = fmul(y, y);
    let d = edw_d_nat();
    let a = edw_a_nat();
    crate::field::lemma_fmul_lt(x, y);
    crate::field::lemma_fmul_lt(x, x);
    crate::field::lemma_fmul_lt(y, y);
    // y1x2 = y * (-x) == -(x * y)
    crate::field::lemma_fmul_fneg(y, x);
    crate::field::lemma_fmul_commutative(y, x);
    // x3 numerator: x*y + -(x*y) == 0
    crate::field::lemma_fadd_fneg_zero(xy);
    // x1x2 = x * (-x) == -(x * x)
    crate::field::lemma_fmul_fneg(x, x);
    // dxxyy = (d * -(xx)) * yy == -((d * xx) * yy)
    crate::field::lemma_fmul_fneg(d, xx);
    crate::field::lemma_fmul_lt(d, xx);
    crate::field::lemma_fmul_commutative(fneg(fmul(d, xx)), yy);
    crate::field::lemma_fmul_fneg(yy, fmul(d, xx));
    crate::field::lemma_fmul_commutative(yy, fmul(d, xx));
    let dd = fmul(fmul(d, xx), yy);
    crate::field::lemma_fmul_lt(fmul(d, xx), yy);
    assert(fmul(fmul(d, fmul(x, fneg(x))), yy) == fneg(dd));
    // denominators: 1 + (-dd) == 1 - dd and 1 - (-dd) == 1 + dd
    crate::field::lemma_fadd_fneg_is_fsub(1, dd);
    crate::field::lemma_fsub_fneg(1, dd);
    // y3 numerator: yy - a * (-(xx)) == yy + a * xx, which equals
    // 1 + d*xx*yy by the curve equation
    crate::field::lemma_fmul_fneg(a, xx);
    crate::field::lemma_fmul_lt(a, xx);
    crate::field::lemma_fsub_fneg(yy, fmul(a, xx));
    crate::field::lemma_fadd_commutative(yy, fmul(a, xx));
    crate::field::lemma_fmul_associative(d, xx, yy);
    assert(fsub(yy, fmul(a, fmul(x, fneg(x)))) == fadd(1, dd));
    // x3 = 0 * (...) == 0
    let i = finv(fmul(fsub(1, dd), fadd(1, dd)));
    crate::field::lemma_fmul_zero(fmul(i, fadd(1, dd)));
    // y3 = (1 + dd) * (i * (1 - dd)) == i * ((1 - dd) * (1 + dd)) == 1
    crate::field::lemma_fmul_commutative(fadd(1, dd), fmul(i, fsub(1, dd)));
    crate::field::lemma_fmul_associative(i, fsub(1, dd), fadd(1, dd));
    assert(add_den_x(p, n) == fsub(1, dd));
    assert(add_den_y(p, n) == fadd(1, dd));
    assert(spec_edwards_add(p, n) == EdPt::Aff(0, 1));
}

/// The addition formula produces canonical coordinates.
pub proof fn lemma_add_canonical(p1: EdPt, p2: EdPt)
    requires
        canonical_pt(p1),
        canonical_pt(p2),
    ensures
        canonical_pt(spec_edwards_add(p1, p2)),
{
    match (p1, p2) {
        (EdPt::Aff(x1, y1), EdPt::Aff(x2, y2)) => {
            crate::field::lemma_fmul_lt(
                fadd(fmul(x1, y2), fmul(y1, x2)),
                fmul(finv(fmul(add_den_x(p1, p2), add_den_y(p1, p2))), add_den_y(p1, p2)),
            );
            crate::field::lemma_fmul_lt(
                fsub(fmul(y1, y2), fmul(edw_a_nat(), fmul(x1, x2))),
                fmul(finv(fmul(add_den_x(p1, p2), add_den_y(p1, p2))), add_den_x(p1, p2)),
            );
        },
        _ => {},
    }
}

/// Negation keeps coordinates canonical.
pub proof fn lemma_neg_canonical(p: EdPt)
    requires
        canonical_pt(p),
    ensures
        canonical_pt(spec_edwards_neg(p)),
{
    match p {
        EdPt::Aff(x, y) => {
            crate::field::lemma_fneg_lt(x);
        },
        EdPt::Inf => {},
    }
}

/// Negation distributes over the addition formula, on canonical points.
pub proof fn lemma_neg_distributes_add(p1: EdPt, p2: EdPt)
    requires
        canonical_pt(p1),
        canonical_pt(p2),
    ensures
        spec_edwards_add(spec_edwards_neg(p1), spec_edwards_neg(p2)) == spec_edwards_neg(
            spec_edwards_add(p1, p2),
        ),
{
    match (p1, p2) {
        (EdPt::Aff(x1, y1), EdPt::Aff(x2, y2)) => {
            let a = fmul(x1, y2);
            let b = fmul(y1, x2);
            crate::field::lemma_fmul_lt(x1, y2);
            crate::field::lemma_fmul_lt(y1, x2);
            // (-x1)*y2 == -(x1*y2) and y1*(-x2) == -(y1*x2)
            crate::field::lemma_fmul_commutative(fneg(x1), y2);
            crate::field::lemma_fmul_fneg(y2, x1);
            crate::field::lemma_fmul_commutative(y2, x1);
            crate::field::lemma_fmul_fneg(y1, x2);
            // numerator: (-a) + (-b) == -(a + b)
            crate::field::lemma_fneg_fadd(a, b);
            // (-x1)*(-x2) == x1*x2
            crate::field::lemma_fmul_fneg(fneg(x1), x2);
            crate::field::lemma_fmul_commutative(fneg(x1), x2);
            crate::field::lemma_fmul_fneg(x2, x1);
            crate::field::lemma_fmul_commutative(x2, x1);
            crate::field::lemma_fmul_lt(x1, x2);
            crate::field::lemma_fneg_involutive(fmul(x1, x2));
            assert(fmul(fneg(x1), fneg(x2)) == fmul(x1, x2));
            // the shared factor of both coordinates
            let w = fmul(
                finv(fmul(add_den_x(p1, p2), add_den_y(p1, p2))),
                add_den_y(p1, p2),
            );
            crate::field::lemma_fadd_lt(a, b);
            crate::field::lemma_fmul_commutative(fneg(fadd(a, b)), w);
            crate::field::lemma_fmul_fneg(w, fadd(a, b));
            crate::field::lemma_fmul_commutative(w, fadd(a, b));
        },
        _ => {},
    }
}

/// Double-and-add commutes with negation, on canonical points.
pub proof fn lemma_mul_loop_neg(res: EdPt, temp: EdPt, k: nat)
    requires
        canonical_pt(res),
        canonical_pt(temp),
    ensures
        spec_mul_loop(spec_edwards_neg(res), spec_edwards_neg(temp), k) == spec_edwards_neg(
            spec_mul_loop(res, temp, k),
        ),
    decreases k,
{
    if k != 0 {
        let res1 = if k % 2 == 1 {
            spec_edwards_add(res, temp)
        } else {
            res
        };
        lemma_neg_distributes_add(res, temp);
        lemma_neg_distributes_add(temp, temp);
        lemma_add_canonical(res, temp);
        lemma_add_canonical(temp, temp);
        lemma_mul_loop_neg(res1, spec_edwards_double(temp), k / 2);
    }
}

/// Scalar multiplication commutes with negation, on canonical points.
pub proof fn lemma_mul_neg(p: EdPt, k: nat)
    requires
        canonical_pt(p),
    ensures
        spec_edwards_mul(spec_edwards_neg(p), k) == spec_edwards_neg(spec_edwards_mul(p, k)),
{
    lemma_mul_loop_neg(EdPt::Inf, p, k);
}

/// The base point satisfies the curve equation.
pub proof fn lemma_base_point_on_curve()
    ensures
        on_curve(EdPt::Aff(gx_nat(), gy_nat())),
{
    let gx2 =
        1145689351057764007481001377416827420331261694373239130057519604651859483551336106158032322784271317275420877999357667521048773nat;
    let gy2 =
        1425574869635236002871294543475764503509437934476360260847374333631472803551651707619270508258053108333378058249068162116048080nat;
    let t1 =
        494797378096250296447226541740465559432170455309660278567627569705802233177372664079085666742316490117159324387043146860938750nat;
    let t2 =
        1197281602481291164368864314772575832750572869008684860525622823089293239391159313378225698709802199250155119856028923031575833nat;
    let t3 =
        1920372247731486299318521085216230062941608389786020539415001903337275036729024371698356175000369598450537382636111308976986829nat;
    assert(fmul(gx_nat(), gx_nat()) == gx2) by (nonlinear_arith)
        requires
            gx2 == 1145689351057764007481001377416827420331261694373239130057519604651859483551336106158032322784271317275420877999357667521048773nat,
    ;
    assert(fmul(gy_nat(), gy_nat()) == gy2) by (nonlinear_arith)
        requires
            gy2 == 1425574869635236002871294543475764503509437934476360260847374333631472803551651707619270508258053108333378058249068162116048080nat,
    ;
    assert(fmul(edw_a_nat(), gx2) == t1) by (nonlinear_arith)
        requires
            gx2 == 1145689351057764007481001377416827420331261694373239130057519604651859483551336106158032322784271317275420877999357667521048773nat,
            t1 == 494797378096250296447226541740465559432170455309660278567627569705802233177372664079085666742316490117159324387043146860938750nat,
    ;
    assert(fmul(gx2, gy2) == t2) by (nonlinear_arith)
        requires
            gx2 == 1145689351057764007481001377416827420331261694373239130057519604651859483551336106158032322784271317275420877999357667521048773nat,
            gy2 == 1425574869635236002871294543475764503509437934476360260847374333631472803551651707619270508258053108333378058249068162116048080nat,
            t2 == 1197281602481291164368864314772575832750572869008684860525622823089293239391159313378225698709802199250155119856028923031575833nat,
    ;
    assert(fmul(edw_d_nat(), t2) == t3) by (nonlinear_arith)
        requires
            t2 == 1197281602481291164368864314772575832750572869008684860525622823089293239391159313378225698709802199250155119856028923031575833nat,
            t3 == 1920372247731486299318521085216230062941608389786020539415001903337275036729024371698356175000369598450537382636111308976986829nat,
    ;
    assert(fadd(t1, gy2) == fadd(1, t3)) by (nonlinear_arith)
        requires
            t1 == 494797378096250296447226541740465559432170455309660278567627569705802233177372664079085666742316490117159324387043146860938750nat,
            gy2 == 1425574869635236002871294543475764503509437934476360260847374333631472803551651707619270508258053108333378058249068162116048080nat,
            t3 == 1920372247731486299318521085216230062941608389786020539415001903337275036729024371698356175000369598450537382636111308976986829nat,
    ;
}

} // verus!
