//! The Montgomery model v^2 = u^3 + A*u^2 + u (B = 1): u-only scalar
//! multiplication by the Montgomery ladder over projective (X, Z) pairs,
//! with a constant-time conditional swap.

use vstd::prelude::*;
use crate::field::{FieldElement, fadd, fsub, fmul, finv};
use crate::scalar::Scalar;
use crate::bignum::{le_val, min_bytes, nbits, nth_bit, limbs_val, u8_bits, lemma_le_val_bit, lemma_nbits_bytes};

verus! {

/// The Montgomery curve constant A.
pub open spec fn mont_a_nat() -> nat {
    763975519699500577645754547835125169481986463482154078046572648671788968290548038674290307302429817161505744408446033521089602nat
}

/// u-coordinate of the Montgomery base point.
pub open spec fn mont_gu_nat() -> nat {
    1887066872174968132246224128199266266323489104588603923691363826518154582291788366769852665419756146257203683605002692187211605nat
}

/// v-coordinate of the Montgomery base point.
pub open spec fn mont_gv_nat() -> nat {
    1615823937666138581405149982946858036615132278772287171232550469704961695279457501113588538572409066758954677368118289169060562nat
}

/// One differential ladder step on projective pairs: from (P0, P1) with
/// difference equal to the base point, produce (2*P0, P0 + P1).
pub open spec fn spec_ladder_step(p0: (nat, nat), p1: (nat, nat), base: nat) -> (
    (nat, nat),
    (nat, nat),
) {
    let v0 = fadd(p0.0, p0.1);
    let v1 = fsub(p0.0, p0.1);
    let v2 = fadd(p1.0, p1.1);
    let v3 = fsub(p1.0, p1.1);
    let v4 = fmul(v0, v3);
    let v5 = fmul(v1, v2);
    let s = fadd(v4, v5);
    let d = fsub(v4, v5);
    let x_added = fmul(s, s);
    let z_added = fmul(fmul(base, d), d);
    let x0sq = fmul(p0.0, p0.0);
    let z0sq = fmul(p0.1, p0.1);
    let x_doubled = fmul(fsub(x0sq, z0sq), fsub(x0sq, z0sq));
    let four = fsub(fmul(v0, v0), fmul(v1, v1));
    let t = fadd(fadd(x0sq, fmul(fmul(mont_a_nat(), p0.0), p0.1)), z0sq);
    let z_doubled = fmul(four, t);
    ((x_doubled, z_doubled), (x_added, z_added))
}

/// A ladder step under a conditional swap on both sides, as driven by one
/// scalar bit.
pub open spec fn spec_ladder_cstep(st: ((nat, nat), (nat, nat)), bit: bool, base: nat) -> (
    (nat, nat),
    (nat, nat),
) {
    let s = if bit {
        (st.1, st.0)
    } else {
        st
    };
    let r = spec_ladder_step(s.0, s.1, base);
    if bit {
        (r.1, r.0)
    } else {
        r
    }
}

/// The ladder state after processing the top `c` bits of `k`, most
/// significant first.
pub open spec fn spec_ladder_iter(k: nat, base: nat, c: nat) -> ((nat, nat), (nat, nat))
    decreases c,
{
    if c == 0 {
        ((1, 0), (base, 1))
    } else {
        spec_ladder_cstep(
            spec_ladder_iter(k, base, (c - 1) as nat),
            nth_bit(k, (nbits(k) - c) as nat),
            base,
        )
    }
}

/// The u-coordinate computed by the full ladder: run over every bit of k,
/// then normalize X/Z (the point at infinity reads as 0).
pub open spec fn spec_montgomery_ladder(base: nat, k: nat) -> nat {
    let st = spec_ladder_iter(k, base, nbits(k));
    if st.0.1 == 0 {
        0
    } else {
        fmul(st.0.0, finv(st.0.1))
    }
}

/// A point of the Montgomery model, reduced to its affine u-coordinate.
#[derive(Debug, PartialEq, Eq)]
pub struct MontgomeryPoint(pub FieldElement);

impl Clone for MontgomeryPoint {
    fn clone(&self) -> (r: Self)
        ensures
            r@ == self@,
    {
        MontgomeryPoint(self.0.clone())
    }
}

impl View for MontgomeryPoint {
    type V = nat;

    open spec fn view(&self) -> nat {
        self.0@
    }
}

/// Projective (X, Z) representation used inside the ladder.
struct ProjPoint {
    x: FieldElement,
    z: FieldElement,
}

impl View for ProjPoint {
    type V = (nat, nat);

    closed spec fn view(&self) -> (nat, nat) {
        (self.x@, self.z@)
    }
}

impl ProjPoint {
    /// Back to the affine u-coordinate; Z = 0 is the point at infinity and
    /// reads as 0.
    fn to_montgomery(&self) -> (r: MontgomeryPoint)
        ensures
            self@.1 == 0 ==> r@ == 0,
            self@.1 != 0 ==> r@ == fmul(self@.0, finv(self@.1)),
    {
        if self.z.is_zero() {
            return MontgomeryPoint(FieldElement::zero());
        }
        MontgomeryPoint(self.x.mul(&self.z.inv()))
    }
}

/// The conditional swap of the ladder.  Specified by the bit; the body
/// must not branch on secret data in a hardened build (here it mirrors the
/// reference structure).
fn cswap(p1: &mut ProjPoint, p2: &mut ProjPoint, b: bool)
    ensures
        b ==> final(p1)@ == old(p2)@ && final(p2)@ == old(p1)@,
        !b ==> final(p1)@ == old(p1)@ && final(p2)@ == old(p2)@,
{
    if b {
        core::mem::swap(&mut p1.x, &mut p2.x);
        core::mem::swap(&mut p1.z, &mut p2.z);
    }
}

/// One differential addition-and-doubling step: returns (2*P0, P0 + P1).
fn ladder_step(p0: &ProjPoint, p1: &ProjPoint, base_x: &FieldElement) -> (r: (ProjPoint, ProjPoint))
    ensures
        (r.0@, r.1@) == spec_ladder_step(p0@, p1@, base_x@),
{
    let x0 = &p0.x;
    let z0 = &p0.z;
    let x1 = &p1.x;
    let z1 = &p1.z;

    // Addition: P0 + P1.
    let v0 = x0.add(z0);
    let v1 = x0.sub(z0);
    let v2 = x1.add(z1);
    let v3 = x1.sub(z1);

    let v4 = v0.mul(&v3);
    let v5 = v1.mul(&v2);

    let vs = v4.add(&v5);
    let vd = v4.sub(&v5);

    let x_added = vs.mul(&vs);
    let z_added = base_x.mul(&vd).mul(&vd);

    // Doubling: 2 * P0.
    let x0_sq = x0.mul(x0);
    let z0_sq = z0.mul(z0);

    let x_doubled = (x0_sq.sub(&z0_sq)).mul(&x0_sq.sub(&z0_sq));

    let four_x0_z0 = (v0.mul(&v0)).sub(&v1.mul(&v1));
    // Doubling is parameterized directly by A (no a24 precomputation).
    let a = mont_a();
    let t = x0_sq.add(&a.mul(x0).mul(z0)).add(&z0_sq);
    let z_doubled = four_x0_z0.mul(&t);

    (ProjPoint { x: x_doubled, z: z_doubled }, ProjPoint { x: x_added, z: z_added })
}

/// The Montgomery ladder: compute the u-coordinate of k*P from the
/// u-coordinate of P, running one swap-step-swap per bit of k from the most
/// significant bit down.
pub fn montgomery_ladder(p: &MontgomeryPoint, k: &Scalar) -> (r: MontgomeryPoint)
    ensures
        r@ == spec_montgomery_ladder(p@, k@),
{
    let mut p0 = ProjPoint { x: FieldElement::one(), z: FieldElement::zero() };
    let mut p1 = ProjPoint { x: p.0.clone(), z: FieldElement::one() };

    let kb = k.to_le_bytes();
    let n = kb.len();
    let tb = u8_bits(kb[n - 1]);
    let total: u128 = 8u128 * ((n - 1) as u128) + (tb as u128);
    proof {
        if le_val(kb@) == 0 {
            if kb@.len() > 1 {
                crate::bignum::lemma_min_bytes_lower(kb@);
                crate::bignum::lemma_pow256_pos((kb@.len() - 1) as nat);
            }
            assert(le_val(kb@.subrange(1, 1)) == 0);
            assert(le_val(kb@) == kb@[0] as nat + 256 * le_val(kb@.subrange(1, 1)));
            assert(kb@[0] == 0);
            assert(total == nbits(k@));
        } else {
            lemma_nbits_bytes(kb@);
            assert(total == nbits(k@));
        }
    }
    let mut pos: u128 = total;
    while pos > 0
        invariant
            pos <= total,
            total == nbits(k@),
            total == 8 * (n - 1) + tb,
            tb <= 8,
            n == kb@.len(),
            n >= 1,
            min_bytes(kb@),
            le_val(kb@) == k@,
            p@ == p.0@,
            (p0@, p1@) == spec_ladder_iter(k@, p@, (total - pos) as nat),
        decreases pos,
    {
        let j: usize = ((pos - 1) / 8) as usize;
        let rb: u8 = ((pos - 1) % 8) as u8;
        proof {
            assert((pos - 1) / 8 < n);
            assert(8 * (j as int) + rb == pos - 1);
        }
        let bit = ((kb[j] >> rb) & 1) == 1;
        proof {
            lemma_le_val_bit(kb@, j as int, rb);
            assert(bit == nth_bit(k@, (pos - 1) as nat));
        }
        cswap(&mut p0, &mut p1, bit);
        let ghost s_in = (p0@, p1@);
        let (d0, d1) = ladder_step(&p0, &p1, &p.0);
        p0 = d0;
        p1 = d1;
        cswap(&mut p0, &mut p1, bit);
        pos = pos - 1;
        proof {
            let c = (total - pos) as nat;
            assert(spec_ladder_iter(k@, p@, c) == spec_ladder_cstep(
                spec_ladder_iter(k@, p@, (c - 1) as nat),
                nth_bit(k@, (nbits(k@) - c) as nat),
                p@,
            ));
        }
    }
    p0.to_montgomery()
}

/// The Montgomery constant A as a field element.
pub fn mont_a() -> (r: FieldElement)
    ensures
        r@ == mont_a_nat(),
{
    let limbs: Vec<u64> = vec![0x1257dd4f6f311c42u64, 0x1c726ae2e2289e99, 0x7151d1c589085a9, 0x8b7b6cc52604ad12, 0xb6b6d5cd5273a4d6, 0x4da40fd0ae8ab3a5, 0x483b08ac5];
    proof {
        assert(limbs@ =~= seq![0x1257dd4f6f311c42u64, 0x1c726ae2e2289e99, 0x7151d1c589085a9, 0x8b7b6cc52604ad12, 0xb6b6d5cd5273a4d6, 0x4da40fd0ae8ab3a5, 0x483b08ac5]);
        assert(limbs_val(limbs@) == mont_a_nat()) by {
            reveal_with_fuel(limbs_val, 9);
        }
    }
    FieldElement::from_limbs(&limbs)
}

/// The Montgomery base point (u-coordinate of the image of G).
pub fn mont_base_point() -> (r: MontgomeryPoint)
    ensures
        r@ == mont_gu_nat(),
{
    let limbs: Vec<u64> = vec![0x112bd0f34da54755u64, 0xdeb43ce1b90ceb3d, 0x7a0ebdb4cb9c7c36, 0xdf26c9160794042d, 0x7398c56136509e46, 0xd6627641e4822f1, 0xb269ffdbf];
    proof {
        assert(limbs@ =~= seq![0x112bd0f34da54755u64, 0xdeb43ce1b90ceb3d, 0x7a0ebdb4cb9c7c36, 0xdf26c9160794042d, 0x7398c56136509e46, 0xd6627641e4822f1, 0xb269ffdbf]);
        assert(limbs_val(limbs@) == mont_gu_nat()) by {
            reveal_with_fuel(limbs_val, 9);
        }
    }
    MontgomeryPoint(FieldElement::from_limbs(&limbs))
}

/// The v-coordinate of the Montgomery base point (for model-mapping checks).
pub fn mont_base_v() -> (r: FieldElement)
    ensures
        r@ == mont_gv_nat(),
{
    let limbs: Vec<u64> = vec![0x7d1ca4a246f312d2u64, 0x8a643d9c62e85eae, 0xc96e03341d380e94, 0x3acc02bedeaa4b89, 0xde8af8887d7f08d5, 0x63db81957123a934, 0x98c4eabf3];
    proof {
        assert(limbs@ =~= seq![0x7d1ca4a246f312d2u64, 0x8a643d9c62e85eae, 0xc96e03341d380e94, 0x3acc02bedeaa4b89, 0xde8af8887d7f08d5, 0x63db81957123a934, 0x98c4eabf3]);
        assert(limbs_val(limbs@) == mont_gv_nat()) by {
            reveal_with_fuel(limbs_val, 9);
        }
    }
    FieldElement::from_limbs(&limbs)
}

} // verus!
