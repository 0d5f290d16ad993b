//! The prime field GF(p) with p = 2^420 - 335: canonical elements, modular
//! arithmetic, inversion and exponentiation, the Legendre symbol, the
//! Tonelli-Shanks square root, and the fixed-length little-endian byte codec.

use vstd::prelude::*;
use crate::bignum::{
    le_val, min_bytes, pow256, pow_mod, big_add, big_sub, big_mul, big_rem, big_modpow, big_lt,
    copy_bytes, bytes_eq, u64_to_min_bytes, lemma_le_val_injective, lemma_le_val_parity,
    lemma_le_val_bound, lemma_le_val_split, lemma_le_val_head, lemma_pow256_pos,
};
use crate::scalar::Scalar;
use vstd::arithmetic::power::pow;
use vstd::arithmetic::power2::pow2;
use vstd::arithmetic::div_mod::{
    lemma_small_mod, lemma_mod_bound, lemma_mul_mod_noop_general, lemma_add_mod_noop,
    lemma_mod_add_multiples_vanish, lemma_fundamental_div_mod_converse,
};

verus! {

/// The field characteristic p = 2^420 - 335.
pub open spec fn p_nat() -> nat {
    2707685248164858261307045101702230179137145581421695874189921465443966120903931272499975005961073806735733604454495675614232241nat
}

/// Addition in GF(p).
pub open spec fn fadd(a: nat, b: nat) -> nat {
    (a + b) % p_nat()
}

/// Subtraction in GF(p), on canonical representatives.
pub open spec fn fsub(a: nat, b: nat) -> nat
    recommends
        b <= p_nat(),
{
    (((a + p_nat()) - b) % (p_nat() as int)) as nat
}

/// Negation in GF(p).
pub open spec fn fneg(a: nat) -> nat
    recommends
        a <= p_nat(),
{
    fsub(0, a)
}

/// Multiplication in GF(p).
pub open spec fn fmul(a: nat, b: nat) -> nat {
    (a * b) % p_nat()
}

/// Exponentiation in GF(p).
pub open spec fn fpow(a: nat, e: nat) -> nat {
    pow_mod(a, e, p_nat())
}

/// Multiplicative inverse in GF(p) by Fermat exponentiation; maps 0 to 0.
pub open spec fn finv(a: nat) -> nat {
    fpow(a, (p_nat() - 2) as nat)
}

/// The Legendre symbol as computed by Euler's criterion: 0 for 0, +1 when
/// a^((p-1)/2) is 1, and -1 otherwise.
pub open spec fn legendre_sym(a: nat) -> int {
    if a == 0 {
        0
    } else {
        let r = fpow(a, (p_nat() - 1) as nat / 2);
        if r == 0 {
            0
        } else if r == 1 {
            1
        } else {
            -1
        }
    }
}

/// Whether a byte is an ASCII hex digit.
pub open spec fn is_hex_digit(b: u8) -> bool {
    (48 <= b <= 57) || (65 <= b <= 70) || (97 <= b <= 102)
}

/// The numeric value of one ASCII hex digit.
pub open spec fn hex_digit_val(b: u8) -> nat {
    if b >= 97 {
        (b - 87) as nat
    } else if b >= 65 {
        (b - 55) as nat
    } else {
        (b - 48) as nat
    }
}

/// The value of a big-endian sequence of ASCII hex digits.
pub open spec fn hex_val(s: Seq<u8>) -> nat
    decreases s.len(),
{
    if s.len() == 0 {
        0
    } else {
        16 * hex_val(s.drop_last()) + hex_digit_val(s.last())
    }
}

/// The `len` little-endian bytes of `n` (dropping anything above byte `len`).
pub open spec fn le_bytes_of(n: nat, len: nat) -> Seq<u8> {
    Seq::new(len, |i: int| ((n / pow256(i as nat) as nat) % 256) as u8)
}

/// The canonical little-endian bytes of p.
#[verifier::rlimit(60)]
pub fn p_bytes() -> (r: Vec<u8>)
    ensures
        le_val(r@) == p_nat(),
        min_bytes(r@),
{
    let limbs: Vec<u64> = vec![0xfffffffffffffeb1u64, 0xffffffffffffffff, 0xffffffffffffffff, 0xffffffffffffffff, 0xffffffffffffffff, 0xffffffffffffffff, 0xfffffffff];
    let r = crate::bignum::bytes_from_limbs(&limbs);
    proof {
        assert(limbs@ =~= seq![0xfffffffffffffeb1u64, 0xffffffffffffffff, 0xffffffffffffffff, 0xffffffffffffffff, 0xffffffffffffffff, 0xffffffffffffffff, 0xfffffffff]);
        assert(crate::bignum::limbs_val(limbs@) == p_nat()) by {
            reveal_with_fuel(crate::bignum::limbs_val, 9);
        }
    }
    r
}

/// A canonical element of GF(p): a value in [0, p).
#[derive(Debug, PartialEq, Eq)]
pub struct FieldElement {
    b: Vec<u8>,
}

impl Clone for FieldElement {
    fn clone(&self) -> (r: Self)
        ensures
            r@ == self@,
    {
        proof {
            use_type_invariant(self);
        }
        FieldElement { b: copy_bytes(&self.b) }
    }
}

impl View for FieldElement {
    type V = nat;

    closed spec fn view(&self) -> nat {
        le_val(self.b@)
    }
}

impl FieldElement {
    #[verifier::type_invariant]
    pub closed spec fn wf(self) -> bool {
        min_bytes(self.b@) && le_val(self.b@) < p_nat()
    }

    /// Wrap canonical bytes known to be below p.
    pub(crate) fn from_canonical(b: Vec<u8>) -> (r: Self)
        requires
            min_bytes(b@),
            le_val(b@) < p_nat(),
        ensures
            r@ == le_val(b@),
            r@ < p_nat(),
    {
        FieldElement { b }
    }

    /// Yield the canonicity of this element (every constructed element is
    /// a representative below p) to the caller's proof context.
    pub fn canonical_fact(&self)
        ensures
            self@ < p_nat(),
    {
        proof {
            use_type_invariant(self);
        }
    }

    /// Canonical bytes, by reference, for the arithmetic layer.
    pub(crate) fn bytes(&self) -> (r: &Vec<u8>)
        ensures
            le_val(r@) == self@,
            min_bytes(r@),
            self@ < p_nat(),
    {
        proof {
            use_type_invariant(self);
        }
        &self.b
    }

    /// Build a constant element from 64-bit limbs known to be below p.
    pub(crate) fn from_limbs(limbs: &Vec<u64>) -> (r: Self)
        requires
            crate::bignum::limbs_val(limbs@) < p_nat(),
        ensures
            r@ == crate::bignum::limbs_val(limbs@),
            r@ < p_nat(),
    {
        let b = crate::bignum::bytes_from_limbs(limbs);
        FieldElement::from_canonical(b)
    }

    /// Reduce arbitrary canonical bytes modulo p.
    fn reduce(v: &Vec<u8>) -> (r: Self)
        ensures
            r@ == le_val(v@) % p_nat(),
            r@ < p_nat(),
    {
        let p = p_bytes();
        let m = big_rem(v, &p);
        proof {
            lemma_mod_bound(le_val(v@) as int, p_nat() as int);
        }
        FieldElement { b: m }
    }

    /// The element `n mod p`.
    pub fn new(n: &Scalar) -> (r: Self)
        ensures
            r@ == n@ % p_nat(),
            r@ < p_nat(),
    {
        let t = n.to_le_bytes();
        Self::reduce(&t)
    }

    /// Parse big-endian ASCII hex digits, reduced mod p.
    pub fn from_hex(hex: &[u8]) -> (r: Self)
        requires
            forall|i: int| 0 <= i < hex@.len() ==> is_hex_digit(hex@[i]),
        ensures
            r@ == hex_val(hex@) % p_nat(),
            r@ < p_nat(),
    {
        let mut acc = Scalar::from_u64(0);
        let sixteen = Scalar::from_u64(16);
        let mut i: usize = 0;
        while i < hex.len()
            invariant
                i <= hex@.len(),
                sixteen@ == 16,
                forall|k: int| 0 <= k < hex@.len() ==> is_hex_digit(hex@[k]),
                acc@ == hex_val(hex@.subrange(0, i as int)),
            decreases hex@.len() - i,
        {
            let b = hex[i];
            proof {
                assert(is_hex_digit(hex@[i as int]));
            }
            let d: u64 = if b >= 97 {
                (b - 87) as u64
            } else if b >= 65 {
                (b - 55) as u64
            } else {
                (b - 48) as u64
            };
            proof {
                assert(d == hex_digit_val(b));
            }
            let ghost pre = acc@;
            let shifted = big_mul(acc.bytes(), sixteen.bytes());
            let dig = u64_to_min_bytes(d);
            let next = crate::bignum::big_add(&shifted, &dig);
            acc = Scalar::from_canonical(next);
            i += 1;
            proof {
                let cur = hex@.subrange(0, i as int);
                assert(cur.drop_last() =~= hex@.subrange(0, i - 1));
                assert(cur.last() == hex@[i - 1]);
                assert(pre * sixteen@ == 16 * pre) by (nonlinear_arith)
                    requires
                        sixteen@ == 16,
                ;
                assert(acc@ == 16 * pre + d);
                assert(hex_val(cur) == 16 * hex_val(cur.drop_last()) + hex_digit_val(cur.last()));
            }
        }
        proof {
            assert(hex@.subrange(0, hex@.len() as int) =~= hex@);
        }
        Self::new(&acc)
    }

    /// The zero element.
    pub fn zero() -> (r: Self)
        ensures
            r@ == 0,
            r@ < p_nat(),
    {
        let b = u64_to_min_bytes(0);
        FieldElement { b }
    }

    /// The one element.
    pub fn one() -> (r: Self)
        ensures
            r@ == 1,
            r@ < p_nat(),
    {
        let b = u64_to_min_bytes(1);
        FieldElement { b }
    }

    /// The element of a small constant.
    pub fn from_u64(x: u64) -> (r: Self)
        ensures
            r@ == x as nat % p_nat(),
            r@ < p_nat(),
    {
        let b = u64_to_min_bytes(x);
        Self::reduce(&b)
    }

    /// The canonical value as a scalar.
    pub fn to_biguint(&self) -> (r: Scalar)
        ensures
            r@ == self@,
            r@ < p_nat(),
    {
        proof {
            use_type_invariant(self);
        }
        Scalar::from_canonical(copy_bytes(&self.b))
    }

    /// Whether this element is 0.
    pub fn is_zero(&self) -> (r: bool)
        ensures
            r == (self@ == 0),
    {
        proof {
            use_type_invariant(self);
        }
        let z = u64_to_min_bytes(0);
        proof {
            if self@ == 0 {
                lemma_le_val_injective(self.b@, z@);
            }
        }
        bytes_eq(&self.b, &z)
    }

    /// Whether this element is 1.
    pub fn is_one(&self) -> (r: bool)
        ensures
            r == (self@ == 1),
    {
        proof {
            use_type_invariant(self);
        }
        let z = u64_to_min_bytes(1);
        proof {
            if self@ == 1 {
                lemma_le_val_injective(self.b@, z@);
            }
        }
        bytes_eq(&self.b, &z)
    }

    /// Value equality, in time depending only on the length.
    pub fn ct_eq(&self, other: &Self) -> (r: bool)
        ensures
            r == (self@ == other@),
    {
        proof {
            use_type_invariant(self);
            use_type_invariant(other);
            if self@ == other@ {
                lemma_le_val_injective(self.b@, other.b@);
            }
        }
        bytes_eq(&self.b, &other.b)
    }

    /// The low bit of the canonical representative.
    pub fn parity(&self) -> (r: u8)
        ensures
            r == self@ % 2,
    {
        proof {
            use_type_invariant(self);
            lemma_le_val_parity(self.b@);
        }
        self.b[0] % 2
    }

    /// Field addition.
    pub fn add(&self, rhs: &Self) -> (r: Self)
        ensures
            r@ == fadd(self@, rhs@),
            r@ < p_nat(),
    {
        proof {
            use_type_invariant(self);
            use_type_invariant(rhs);
        }
        let s = big_add(&self.b, &rhs.b);
        Self::reduce(&s)
    }

    /// Field multiplication.
    pub fn mul(&self, rhs: &Self) -> (r: Self)
        ensures
            r@ == fmul(self@, rhs@),
            r@ < p_nat(),
    {
        proof {
            use_type_invariant(self);
            use_type_invariant(rhs);
        }
        let s = big_mul(&self.b, &rhs.b);
        Self::reduce(&s)
    }

    /// Field subtraction.
    pub fn sub(&self, rhs: &Self) -> (r: Self)
        ensures
            r@ == fsub(self@, rhs@),
            r@ < p_nat(),
    {
        proof {
            use_type_invariant(self);
            use_type_invariant(rhs);
        }
        let p = p_bytes();
        if big_lt(&self.b, &rhs.b) {
            // self < rhs: take self + p - rhs, already in [0, p).
            let t = big_add(&self.b, &p);
            let d = big_sub(&t, &rhs.b);
            proof {
                lemma_small_mod((self@ + p_nat() - rhs@) as nat, p_nat());
            }
            FieldElement { b: d }
        } else {
            let d = big_sub(&self.b, &rhs.b);
            proof {
                let diff = (self@ - rhs@) as int;
                lemma_mod_add_multiples_vanish(diff, p_nat() as int);
                lemma_small_mod((self@ - rhs@) as nat, p_nat());
            }
            FieldElement { b: d }
        }
    }

    /// Field negation.
    pub fn neg(&self) -> (r: Self)
        ensures
            r@ == fneg(self@),
            r@ < p_nat(),
    {
        proof {
            use_type_invariant(self);
        }
        Self::zero().sub(self)
    }

    /// Exponentiation: `self^e mod p`.
    pub fn pow_big(&self, e: &Scalar) -> (r: Self)
        ensures
            r@ == fpow(self@, e@),
            r@ < p_nat(),
    {
        proof {
            use_type_invariant(self);
        }
        let p = p_bytes();
        let m = big_modpow(&self.b, e.bytes(), &p);
        proof {
            lemma_mod_bound(pow(self@ as int, e@), p_nat() as int);
        }
        FieldElement { b: m }
    }

    /// Multiplicative inverse by Fermat's little theorem; `inv(0)` is 0 and
    /// must be avoided by callers.
    pub fn inv(&self) -> (r: Self)
        ensures
            r@ == finv(self@),
            r@ < p_nat(),
    {
        let p = p_bytes();
        let two = u64_to_min_bytes(2);
        let pm2 = big_sub(&p, &two);
        let e = Scalar::from_canonical(pm2);
        self.pow_big(&e)
    }

    /// The Legendre symbol of this element: 0, +1 or -1.
    pub fn legendre(&self) -> (r: i8)
        ensures
            r as int == legendre_sym(self@),
    {
        proof {
            use_type_invariant(self);
        }
        if self.is_zero() {
            return 0;
        }
        let p = p_bytes();
        let one = u64_to_min_bytes(1);
        let pm1 = big_sub(&p, &one);
        let e = Scalar::from_canonical(pm1).half();
        let r = self.pow_big(&e);
        if r.is_zero() {
            0
        } else if r.is_one() {
            1
        } else {
            -1
        }
    }

    /// Square root by Tonelli-Shanks.  Every root returned squares back to
    /// this element; 0 has root 0; a non-residue has no root; and under
    /// the field facts named by `prime_field_facts` every nonzero residue
    /// gets a root (the classical completeness argument, carried through
    /// the loop invariants t^(2^(m-1)) == 1 and c^(2^(m-1)) == -1).
    pub fn sqrt(&self) -> (r: Option<Self>)
        ensures
            r matches Some(x) ==> fmul(x@, x@) == self@ && x@ < p_nat(),
            self@ == 0 ==> (r matches Some(x) && x@ == 0),
            self@ != 0 && legendre_sym(self@) != 1 ==> r is None,
            prime_field_facts() && self@ != 0 && legendre_sym(self@) == 1 ==> r is Some,
    {
        proof {
            use_type_invariant(self);
        }
        let ghost a = self@;
        if self.is_zero() {
            let zz = Self::zero();
            proof {
                lemma_small_mod(0, p_nat());
                assert(zz@ * zz@ == 0) by (nonlinear_arith)
                    requires
                        zz@ == 0,
                ;
            }
            return Some(zz);
        }
        if self.legendre() != 1 {
            return None;
        }
        // From here on, a^((p-1)/2) == 1.
        let ghost eh = (p_nat() - 1) as nat / 2;
        // Factor p - 1 = q * 2^s with q odd.
        let p = p_bytes();
        let one = u64_to_min_bytes(1);
        let mut q = Scalar::from_canonical(big_sub(&p, &one));
        let mut s: u32 = 0;
        proof {
            assert(pow2(0) == 1) by {
                vstd::arithmetic::power2::lemma2_to64();
            }
        }
        while !q.is_odd()
            invariant
                a == self@,
                a != 0,
                a < p_nat(),
                fpow(a, (p_nat() - 1) as nat / 2) == 1,
                q@ >= 1,
                q@ * pow2(s as nat) == p_nat() - 1,
                pow2(s as nat) <= p_nat() - 1,
            decreases q@,
        {
            let ghost q0 = q@;
            let ghost s0 = s as nat;
            proof {
                // q is even here, so halving keeps the product exact.
                vstd::arithmetic::power2::lemma_pow2_unfold((s0 + 1) as nat);
                vstd::arithmetic::div_mod::lemma_fundamental_div_mod(q0 as int, 2);
                assert((q0 / 2) * pow2((s0 + 1) as nat) == q0 * pow2(s0)) by (nonlinear_arith)
                    requires
                        q0 % 2 == 0,
                        q0 == 2 * (q0 / 2) + q0 % 2,
                        pow2((s0 + 1) as nat) == 2 * pow2(s0),
                ;
                assert(pow2((s0 + 1) as nat) <= (q0 / 2) * pow2((s0 + 1) as nat))
                    by (nonlinear_arith)
                    requires
                        q0 / 2 >= 1,
                        pow2((s0 + 1) as nat) >= 0,
                ;
                lemma_u32_bound_from_pow2((s0 + 1) as nat);
            }
            q = q.half();
            s = s + 1;
        }
        proof {
            // p - 1 is even and q is odd, so s >= 1 and q*2^(s-1) == (p-1)/2.
            assert(pow2(0) == 1) by {
                vstd::arithmetic::power2::lemma2_to64();
            }
            if s == 0 {
                assert(q@ == p_nat() - 1) by (nonlinear_arith)
                    requires
                        q@ * pow2(s as nat) == p_nat() - 1,
                        pow2(s as nat) == 1,
                ;
                assert((p_nat() - 1) % 2 == 0) by (nonlinear_arith);
                assert(false);
            }
            vstd::arithmetic::power2::lemma_pow2_unfold(s as nat);
            let half_exp = q@ * pow2((s - 1) as nat);
            assert(q@ * pow2(s as nat) == 2 * half_exp) by (nonlinear_arith)
                requires
                    pow2(s as nat) == 2 * pow2((s - 1) as nat),
                    half_exp == q@ * pow2((s - 1) as nat),
            ;
            vstd::arithmetic::div_mod::lemma_fundamental_div_mod_converse(
                (p_nat() - 1) as int,
                2,
                half_exp as int,
                0,
            );
            assert(half_exp == eh);
        }
        // Find a quadratic non-residue z by trial.
        let mut z_val: u64 = 2;
        let mut z_opt: Option<FieldElement> = None;
        while z_opt.is_none() && z_val < 100000
            invariant
                a == self@,
                a != 0,
                a < p_nat(),
                2 <= z_val,
                z_opt matches Some(z) ==> legendre_sym(z@) == -1 && 0 < z@ < p_nat(),
                z_opt is None ==> (forall|w: nat|
                    2 <= w < z_val ==> #[trigger] legendre_sym(w) != -1),
            decreases (if z_opt is Some { 0int } else { 1int }), 100000 - z_val,
        {
            let zf = Self::from_u64(z_val);
            proof {
                lemma_small_mod(z_val as nat, p_nat());
            }
            if zf.legendre() == -1 {
                z_opt = Some(zf);
            } else {
                z_val = z_val + 1;
            }
        }
        let z = match z_opt {
            Some(z) => z,
            None => {
                proof {
                    // under the stated field facts a non-residue exists
                    // below the bound, so the exhausted search is absurd
                    if prime_field_facts() {
                        let w = choose|w: nat| 2 <= w < 100000 && legendre_sym(w) == -1;
                        assert(legendre_sym(w) != -1);
                        assert(false);
                    }
                }
                return None;
            },
        };
        // c = z^q, t = a^q, r = a^((q+1)/2), m = s.
        let c0 = z.pow_big(&q);
        let t0 = self.pow_big(&q);
        let qp1 = Scalar::from_canonical(big_add(q.bytes(), &one));
        let e_init = qp1.half();
        let mut r = self.pow_big(&e_init);
        let mut t = t0;
        let mut c = c0;
        let mut m = s;
        proof {
            // r^2 = a^(q+1) = a * a^q = a * t.
            let h = (q@ + 1) as nat / 2;
            vstd::arithmetic::div_mod::lemma_fundamental_div_mod((q@ + 1) as int, 2);
            assert(h + h == q@ + 1);
            lemma_fpow_adds(a, h, h);
            lemma_fpow_adds(a, 1, q@);
            lemma_fpow_one(a);
            // t^(2^(m-1)) == a^(q*2^(s-1)) == a^((p-1)/2) == 1
            lemma_fpow_fpow(a, q@, pow2((s - 1) as nat));
            // under the stated facts, c^(2^(m-1)) == z^((p-1)/2) == -1:
            // Euler's criterion leaves 1 or -1, and 1 would contradict
            // legendre(z) == -1
            if prime_field_facts() {
                lemma_fpow_fpow(z@, q@, pow2((s - 1) as nat));
                assert(fpow(z@, eh) == 1 || fpow(z@, eh) == (p_nat() - 1) as nat);
            }
        }
        while !t.is_one()
            invariant
                a == self@,
                a != 0,
                a < p_nat(),
                t@ < p_nat(),
                c@ < p_nat(),
                m >= 1,
                fmul(r@, r@) == fmul(a, t@),
                prime_field_facts() ==> fpow(t@, pow2((m - 1) as nat)) == 1,
                prime_field_facts() ==> fpow(c@, pow2((m - 1) as nat)) == (p_nat() - 1) as nat,
            decreases m,
        {
            // Find the least i in [1, m) with t^(2^i) == 1.
            let mut i: u32 = 1;
            let mut t2i = t.clone();
            let mut found = false;
            proof {
                lemma_fpow_one(t@);
                assert(pow2(0) == 1) by {
                    vstd::arithmetic::power2::lemma2_to64();
                }
            }
            while i < m && !found
                invariant
                    1 <= i <= m,
                    t@ < p_nat(),
                    !found ==> t2i@ == fpow(t@, pow2((i - 1) as nat)),
                    !found ==> (forall|j: nat| 1 <= j < i ==> #[trigger] fpow(t@, pow2(j)) != 1),
                    found ==> i < m && fpow(t@, pow2(i as nat)) == 1 && (forall|j: nat|
                        1 <= j < i ==> #[trigger] fpow(t@, pow2(j)) != 1),
                decreases (m - i) as int, (if found { 0int } else { 1int }),
            {
                let ghost i0 = i as nat;
                let ghost pre = t2i@;
                t2i = t2i.mul(&t2i);
                proof {
                    lemma_fpow_adds(t@, pow2((i0 - 1) as nat), pow2((i0 - 1) as nat));
                    vstd::arithmetic::power2::lemma_pow2_unfold(i0);
                    assert(t2i@ == fpow(t@, pow2(i0)));
                }
                if t2i.is_one() {
                    found = true;
                } else {
                    i = i + 1;
                }
            }
            if !found {
                proof {
                    // the search is exhaustive: under the stated facts,
                    // t^(2^(m-1)) == 1 forces a hit before i reaches m
                    if prime_field_facts() {
                        assert(pow2(0) == 1) by {
                            vstd::arithmetic::power2::lemma2_to64();
                        }
                        if m == 1 {
                            lemma_fpow_one(t@);
                        } else {
                            assert(fpow(t@, pow2((m - 1) as nat)) != 1);
                        }
                        assert(false);
                    }
                }
                return None;
            }
            // the value one squaring before the hit: it squares to 1 and is
            // not 1, so under the stated facts it is -1
            let ghost w_pre = fpow(t@, pow2((i - 1) as nat));
            proof {
                lemma_fpow_adds(t@, pow2((i - 1) as nat), pow2((i - 1) as nat));
                vstd::arithmetic::power2::lemma_pow2_unfold(i as nat);
                assert(fmul(w_pre, w_pre) == fpow(t@, pow2(i as nat)));
                lemma_fpow_lt(t@, pow2((i - 1) as nat));
                assert(pow2(0) == 1) by {
                    vstd::arithmetic::power2::lemma2_to64();
                }
                if i == 1 {
                    lemma_fpow_one(t@);
                } else {
                    assert(fpow(t@, pow2((i - 1) as nat)) != 1);
                }
            }
            // b = c^(2^(m - i - 1)).
            let mut e = m - i - 1;
            let mut bb = c.clone();
            proof {
                lemma_fpow_one(c@);
                assert(pow2(0) == 1) by {
                    vstd::arithmetic::power2::lemma2_to64();
                }
            }
            while e > 0
                invariant
                    e <= m - i - 1,
                    i < m,
                    c@ < p_nat(),
                    bb@ == fpow(c@, pow2((m - i - 1 - e) as nat)),
                    bb@ < p_nat(),
                decreases e,
            {
                let ghost k0 = (m - i - 1 - e) as nat;
                bb = bb.mul(&bb);
                proof {
                    lemma_fpow_adds(c@, pow2(k0), pow2(k0));
                    vstd::arithmetic::power2::lemma_pow2_unfold((k0 + 1) as nat);
                }
                e = e - 1;
                proof {
                    lemma_fpow_lt(c@, pow2((k0 + 1) as nat));
                }
            }
            // r <- r*b, t <- t*b^2, c <- b^2, m <- i.
            proof {
                lemma_sqrt_step(r@, bb@, a, t@);
            }
            let r2 = r.mul(&bb);
            let b2 = bb.mul(&bb);
            let t2 = t.mul(&b2);
            proof {
                if prime_field_facts() {
                    // b^2 == c^(2^(m-i))
                    lemma_fpow_adds(c@, pow2((m - i - 1) as nat), pow2((m - i - 1) as nat));
                    vstd::arithmetic::power2::lemma_pow2_unfold((m - i) as nat);
                    assert(b2@ == fpow(c@, pow2((m - i) as nat)));
                    // new c: (b^2)^(2^(i-1)) == c^(2^(m-1)) == -1
                    lemma_fpow_fpow(c@, pow2((m - i) as nat), pow2((i - 1) as nat));
                    vstd::arithmetic::power2::lemma_pow2_adds((m - i) as nat, (i - 1) as nat);
                    // new t: (t*b^2)^(2^(i-1)) == (-1)*(-1) == 1
                    lemma_fpow_distributes(t@, b2@, pow2((i - 1) as nat));
                    assert(fmul((p_nat() - 1) as nat, (p_nat() - 1) as nat) == 1)
                        by (nonlinear_arith);
                }
            }
            r = r2;
            t = t2;
            c = b2;
            m = i;
        }
        proof {
            lemma_small_mod(a, p_nat());
            use_type_invariant(&r);
        }
        Some(r)
    }

    /// Parse a canonical little-endian encoding; reject any value >= p.
    pub fn from_le_bytes_canonical(bytes: &[u8]) -> (r: Option<Self>)
        ensures
            r is Some <==> le_val(bytes@) < p_nat(),
            r matches Some(x) ==> x@ == le_val(bytes@),
    {
        let s = Scalar::from_le_bytes(bytes);
        let p = p_bytes();
        if big_lt(s.bytes(), &p) {
            Some(FieldElement { b: s.to_le_bytes() })
        } else {
            None
        }
    }

    /// Serialize to exactly `len` little-endian bytes (padding with zeros,
    /// dropping high bytes if `len` is too short).
    pub fn to_le_bytes_len(&self, len: usize) -> (r: Vec<u8>)
        ensures
            r@ == le_bytes_of(self@, len as nat),
    {
        proof {
            use_type_invariant(self);
        }
        let mut out: Vec<u8> = Vec::new();
        let mut i: usize = 0;
        while i < len
            invariant
                i <= len,
                out@.len() == i,
                min_bytes(self.b@),
                le_val(self.b@) == self@,
                forall|k: int| 0 <= k < i ==> out@[k] == le_bytes_of(self@, len as nat)[k],
            decreases len - i,
        {
            let byte: u8 = if i < self.b.len() {
                self.b[i]
            } else {
                0
            };
            proof {
                if i < self.b@.len() {
                    lemma_le_val_index(self.b@, i as int);
                } else {
                    lemma_le_val_bound(self.b@);
                    lemma_pow256_le(self.b@.len(), i as nat);
                    vstd::arithmetic::div_mod::lemma_basic_div(
                        self@ as int,
                        crate::bignum::pow256(i as nat),
                    );
                }
            }
            out.push(byte);
            i += 1;
        }
        proof {
            assert(out@ =~= le_bytes_of(self@, len as nat));
        }
        out
    }
}

/// 2^424 exceeds p, computed by repeated squaring from known powers of two.
proof fn lemma_pow2_424()
    ensures
        pow2(424) > p_nat() - 1,
{
    vstd::arithmetic::power2::lemma2_to64();
    vstd::arithmetic::power2::lemma2_to64_rest();
    vstd::arithmetic::power2::lemma_pow2_adds(53, 53);
    vstd::arithmetic::power2::lemma_pow2_adds(106, 106);
    vstd::arithmetic::power2::lemma_pow2_adds(212, 212);
    assert(pow2(106) == 0x400000000000000000000000000nat) by (nonlinear_arith)
        requires
            pow2(106) == pow2(53) * pow2(53),
            pow2(53) == 0x20000000000000,
    ;
    assert(pow2(212) == 0x100000000000000000000000000000000000000000000000000000nat)
        by (nonlinear_arith)
        requires
            pow2(212) == pow2(106) * pow2(106),
            pow2(106) == 0x400000000000000000000000000nat,
    ;
    assert(pow2(424)
        == 0x10000000000000000000000000000000000000000000000000000000000000000000000000000000000000000000000000000000000nat)
        by (nonlinear_arith)
        requires
            pow2(424) == pow2(212) * pow2(212),
            pow2(212) == 0x100000000000000000000000000000000000000000000000000000nat,
    ;
}

/// A power of two below p has an exponent below 424.
proof fn lemma_u32_bound_from_pow2(n: nat)
    requires
        pow2(n) <= p_nat() - 1,
    ensures
        n < 424,
{
    lemma_pow2_424();
    if n >= 424 {
        if n > 424 {
            vstd::arithmetic::power2::lemma_pow2_strictly_increases(424, n);
        }
        assert(false);
    }
}

/// Each byte of a little-endian encoding, read off arithmetically.
proof fn lemma_le_val_index(s: Seq<u8>, i: int)
    requires
        0 <= i < s.len(),
    ensures
        s[i] as nat == (le_val(s) / crate::bignum::pow256(i as nat) as nat) % 256,
{
    lemma_le_val_split(s, i);
    let a = le_val(s.subrange(0, i)) as int;
    let hi = s.subrange(i, s.len() as int);
    let b = le_val(hi) as int;
    lemma_le_val_bound(s.subrange(0, i));
    lemma_pow256_pos(i as nat);
    assert(le_val(s) as int == b * crate::bignum::pow256(i as nat) + a) by {
        vstd::arithmetic::mul::lemma_mul_is_commutative(b, crate::bignum::pow256(i as nat));
    }
    lemma_fundamental_div_mod_converse(le_val(s) as int, crate::bignum::pow256(i as nat), b, a);
    lemma_le_val_head(hi);
}

/// Monotonicity of byte weights.
proof fn lemma_pow256_le(a: nat, b: nat)
    requires
        a <= b,
    ensures
        crate::bignum::pow256(a) <= crate::bignum::pow256(b),
        crate::bignum::pow256(b) > 0,
{
    lemma_pow256_pos(a);
    lemma_pow256_pos(b);
    if a < b {
        vstd::arithmetic::power::lemma_pow_strictly_increases(256, a, b);
    }
}

/// The value of a fixed-length little-endian encoding is the encoded
/// number, reduced by the weight one past the last byte.  In particular a
/// canonical field element round-trips through its 53-byte encoding.
pub proof fn lemma_le_bytes_of_value(n: nat, len: nat)
    ensures
        le_val(le_bytes_of(n, len)) == n % (crate::bignum::pow256(len) as nat),
    decreases len,
{
    let s = le_bytes_of(n, len);
    lemma_pow256_pos(len);
    if len == 0 {
        assert(crate::bignum::pow256(0) == 1) by {
            vstd::arithmetic::power::lemma_pow0(256);
        }
        assert(n % 1 == 0) by {
            vstd::arithmetic::div_mod::lemma_mod_self_0(1);
            vstd::arithmetic::div_mod::lemma_mod_mod(n as int, 1, 1);
            lemma_small_mod(0, 1);
        }
    } else {
        lemma_le_bytes_of_value(n / 256, (len - 1) as nat);
        let t = s.subrange(1, s.len() as int);
        assert forall|i: int| 0 <= i < t.len() implies t[i] == le_bytes_of(
            n / 256,
            (len - 1) as nat,
        )[i] by {
            lemma_pow256_pos(i as nat);
            vstd::arithmetic::div_mod::lemma_div_denominator(
                n as int,
                256,
                crate::bignum::pow256(i as nat),
            );
            crate::bignum::lemma_pow256_unfold((i + 1) as nat);
        }
        assert(t =~= le_bytes_of(n / 256, (len - 1) as nat));
        assert(le_val(s) == s[0] as nat + 256 * le_val(t));
        crate::bignum::lemma_pow256_unfold(len);
        lemma_pow256_pos((len - 1) as nat);
        assert(n as int % (256 * crate::bignum::pow256((len - 1) as nat)) == 256 * ((n as int
            / 256) % (crate::bignum::pow256((len - 1) as nat))) + n as int % 256) by {
            vstd::arithmetic::div_mod::lemma_mod_breakdown(
                n as int,
                256,
                crate::bignum::pow256((len - 1) as nat),
            );
        }
        assert(s[0] == (n / (crate::bignum::pow256(0) as nat)) % 256);
        assert(crate::bignum::pow256(0) == 1) by {
            vstd::arithmetic::power::lemma_pow0(256);
        }
        assert(n as int / 1 == n) by {
            vstd::arithmetic::div_mod::lemma_div_basics(n as int);
        }
        assert(s[0] as nat == n % 256);
        assert(le_val(t) == (n / 256) % (crate::bignum::pow256((len - 1) as nat) as nat));
        assert(256 * crate::bignum::pow256((len - 1) as nat) == crate::bignum::pow256(len));
    }
}

/// Canonical field elements survive the fixed 53-byte codec: the value of
/// `le_bytes_of(x, 53)` is x itself for any x below p.
pub proof fn lemma_field_codec_roundtrip(x: nat)
    requires
        x < p_nat(),
    ensures
        le_val(le_bytes_of(x, 53)) == x,
{
    lemma_le_bytes_of_value(x, 53);
    assert(crate::bignum::pow256(53) >= p_nat()) by {
        crate::bignum::lemma_pow256_is_pow2(53);
        lemma_pow2_424();
    }
    lemma_small_mod(x, crate::bignum::pow256(53) as nat);
}

/// Multiplication in GF(p) is commutative.
pub proof fn lemma_fmul_commutative(a: nat, b: nat)
    ensures
        fmul(a, b) == fmul(b, a),
{
}

/// Addition in GF(p) is commutative.
pub proof fn lemma_fadd_commutative(a: nat, b: nat)
    ensures
        fadd(a, b) == fadd(b, a),
{
}

/// Addition in GF(p) is associative.
pub proof fn lemma_fadd_associative(a: nat, b: nat, c: nat)
    ensures
        fadd(fadd(a, b), c) == fadd(a, fadd(b, c)),
{
    let p = p_nat() as int;
    vstd::arithmetic::div_mod::lemma_add_mod_noop_right(c as int, (a + b) as int, p);
    vstd::arithmetic::div_mod::lemma_add_mod_noop_right(a as int, (b + c) as int, p);
}

/// Multiplication in GF(p) is associative.
pub proof fn lemma_fmul_associative(a: nat, b: nat, c: nat)
    ensures
        fmul(fmul(a, b), c) == fmul(a, fmul(b, c)),
{
    let p = p_nat() as int;
    lemma_mul_mod_noop_general(a as int * b as int, c as int, p);
    lemma_mul_mod_noop_general(a as int, b as int * c as int, p);
    assert((a as int * b as int) * c as int == a as int * (b as int * c as int)) by {
        vstd::arithmetic::mul::lemma_mul_is_associative(a as int, b as int, c as int);
    }
}

/// Multiplication distributes over addition in GF(p).
pub proof fn lemma_field_distributive(a: nat, b: nat, c: nat)
    ensures
        fmul(a, fadd(b, c)) == fadd(fmul(a, b), fmul(a, c)),
{
    let p = p_nat() as int;
    let ai = a as int;
    let bi = b as int;
    let ci = c as int;
    lemma_mul_mod_noop_general(ai, bi + ci, p);
    assert(ai * (bi + ci) == ai * bi + ai * ci) by {
        vstd::arithmetic::mul::lemma_mul_is_distributive_add(ai, bi, ci);
    }
    lemma_add_mod_noop(ai * bi, ai * ci, p);
}

/// Products in GF(p) are canonical.
pub proof fn lemma_fmul_lt(a: nat, b: nat)
    ensures
        fmul(a, b) < p_nat(),
{
    lemma_mod_bound((a * b) as int, p_nat() as int);
}

/// Fermat inverses are canonical.
pub proof fn lemma_finv_lt(a: nat)
    ensures
        finv(a) < p_nat(),
{
    lemma_mod_bound(pow(a as int, (p_nat() - 2) as nat), p_nat() as int);
}

/// One is the multiplicative identity on canonical elements.
pub proof fn lemma_fmul_one(a: nat)
    requires
        a < p_nat(),
    ensures
        fmul(a, 1) == a,
        fmul(1, a) == a,
{
    lemma_small_mod(a, p_nat());
}

/// Zero annihilates under field multiplication.
pub proof fn lemma_fmul_zero(a: nat)
    ensures
        fmul(0, a) == 0,
        fmul(a, 0) == 0,
{
    assert(0 * a == 0) by (nonlinear_arith);
    assert(a * 0 == 0) by (nonlinear_arith);
    lemma_small_mod(0, p_nat());
}

/// Sums in GF(p) are canonical.
pub proof fn lemma_fadd_lt(a: nat, b: nat)
    ensures
        fadd(a, b) < p_nat(),
{
    lemma_mod_bound((a + b) as int, p_nat() as int);
}

/// Differences in GF(p) are canonical.
pub proof fn lemma_fsub_lt(a: nat, b: nat)
    requires
        b <= p_nat(),
    ensures
        fsub(a, b) < p_nat(),
{
    lemma_mod_bound(((a + p_nat()) - b) as int, p_nat() as int);
}

/// Negations in GF(p) are canonical.
pub proof fn lemma_fneg_lt(a: nat)
    requires
        a <= p_nat(),
    ensures
        fneg(a) < p_nat(),
{
    lemma_mod_bound((p_nat() - a) as int, p_nat() as int);
}

/// Negation distributes over addition of canonical elements.
pub proof fn lemma_fneg_fadd(a: nat, b: nat)
    requires
        a < p_nat(),
        b < p_nat(),
    ensures
        fadd(fneg(a), fneg(b)) == fneg(fadd(a, b)),
{
    let p = p_nat();
    let pi = p as int;
    vstd::arithmetic::div_mod::lemma_mod_self_0(pi);
    if a == 0 && b == 0 {
        assert(fneg(0) == 0);
        lemma_small_mod(0, p);
    } else if a == 0 {
        assert(fneg(0) == 0);
        lemma_small_mod(b, p);
        lemma_small_mod((p - b) as nat, p);
    } else if b == 0 {
        assert(fneg(0) == 0);
        lemma_small_mod(a, p);
        lemma_small_mod((p - a) as nat, p);
    } else {
        lemma_small_mod((p - a) as nat, p);
        lemma_small_mod((p - b) as nat, p);
        let s = a + b;
        if s < p {
            lemma_small_mod(s, p);
            // (2p - s) % p == (p - s) % p == p - s
            vstd::arithmetic::div_mod::lemma_mod_add_multiples_vanish((p - s) as int, pi);
            lemma_small_mod((p - s) as nat, p);
        } else if s == p {
            lemma_small_mod(0, p);
            vstd::arithmetic::div_mod::lemma_mod_add_multiples_vanish(0, pi);
        } else {
            // s % p == s - p, and (2p - s) % p == 2p - s since it is in (0, p)
            vstd::arithmetic::div_mod::lemma_mod_add_multiples_vanish((s - p) as int, pi);
            lemma_small_mod((s - p) as nat, p);
            lemma_small_mod((2 * p - s) as nat, p);
        }
    }
}

/// An element has at most one multiplicative inverse.
pub proof fn lemma_inverse_unique(d: nat, u: nat, v: nat)
    requires
        u < p_nat(),
        v < p_nat(),
        fmul(u, d) == 1,
        fmul(v, d) == 1,
    ensures
        u == v,
{
    // u == u * 1 == u * (d * v) == (u * d) * v == 1 * v == v
    lemma_fmul_commutative(v, d);
    lemma_fmul_one(u);
    lemma_fmul_associative(u, d, v);
    lemma_fmul_one(v);
}

/// Negation passes through field multiplication.
pub proof fn lemma_fmul_fneg(a: nat, b: nat)
    requires
        b < p_nat(),
    ensures
        fmul(a, fneg(b)) == fneg(fmul(a, b)),
{
    let p = p_nat() as int;
    let ai = a as int;
    let bi = b as int;
    vstd::arithmetic::div_mod::lemma_mod_self_0(p);
    if b == 0 {
        assert(fneg(0) == 0);
        lemma_fmul_zero(a);
    } else {
        lemma_small_mod((p_nat() - b) as nat, p_nat());
        assert(fneg(b) == p_nat() - b);
        // a * (p - b) == p * a - a * b
        assert(ai * (p - bi) == p * ai + (-(ai * bi))) by (nonlinear_arith);
        let t = (ai * bi) % p;
        lemma_mod_bound(ai * bi, p);
        vstd::arithmetic::div_mod::lemma_mod_multiples_vanish(ai, -(ai * bi), p);
        // (-(a*b)) % p == (p - (a*b) % p) % p
        vstd::arithmetic::div_mod::lemma_sub_mod_noop(p, ai * bi, p);
        assert((p - (ai * bi)) % p == (p % p - t) % p);
        vstd::arithmetic::div_mod::lemma_mod_multiples_vanish(1, -(ai * bi), p);
        assert((-(ai * bi)) % p == (p - (ai * bi)) % p);
        if t == 0 {
            assert(fneg(fmul(a, b)) == 0);
            assert((0int - t) % p == 0) by {
                lemma_small_mod(0, p_nat());
            }
        } else {
            vstd::arithmetic::div_mod::lemma_mod_add_multiples_vanish(-t, p);
            lemma_small_mod((p_nat() - t) as nat, p_nat());
            assert(fneg(fmul(a, b)) == p - t);
        }
    }
}

/// Negation on canonical elements is an involution.
pub proof fn lemma_fneg_involutive(a: nat)
    requires
        a < p_nat(),
    ensures
        fneg(fneg(a)) == a,
{
    vstd::arithmetic::div_mod::lemma_mod_self_0(p_nat() as int);
    if a == 0 {
        assert(fneg(0) == 0);
    } else {
        lemma_small_mod((p_nat() - a) as nat, p_nat());
        lemma_small_mod(a, p_nat());
    }
}

/// Subtracting a negation is adding.
pub proof fn lemma_fsub_fneg(u: nat, t: nat)
    requires
        t < p_nat(),
    ensures
        fsub(u, fneg(t)) == fadd(u, t),
{
    vstd::arithmetic::div_mod::lemma_mod_self_0(p_nat() as int);
    if t == 0 {
        assert(fneg(0) == 0);
        vstd::arithmetic::div_mod::lemma_mod_add_multiples_vanish(u as int, p_nat() as int);
    } else {
        lemma_small_mod((p_nat() - t) as nat, p_nat());
    }
}

/// Adding a negation is subtracting.
pub proof fn lemma_fadd_fneg_is_fsub(u: nat, t: nat)
    requires
        t < p_nat(),
    ensures
        fadd(u, fneg(t)) == fsub(u, t),
{
    vstd::arithmetic::div_mod::lemma_mod_self_0(p_nat() as int);
    if t == 0 {
        assert(fneg(0) == 0);
        vstd::arithmetic::div_mod::lemma_mod_add_multiples_vanish(u as int, p_nat() as int);
    } else {
        lemma_small_mod((p_nat() - t) as nat, p_nat());
    }
}

/// A canonical element plus its negation is zero.
pub proof fn lemma_fadd_fneg_zero(t: nat)
    requires
        t < p_nat(),
    ensures
        fadd(t, fneg(t)) == 0,
{
    vstd::arithmetic::div_mod::lemma_mod_self_0(p_nat() as int);
    if t == 0 {
        assert(fneg(0) == 0);
        lemma_small_mod(0, p_nat());
    } else {
        lemma_small_mod((p_nat() - t) as nat, p_nat());
    }
}

/// Number-theoretic facts of GF(p) that hold because p is prime, but admit
/// no proof in this development (no primality certificate for a 420-bit
/// modulus can be checked here): Fermat's little theorem; the absence of
/// zero divisors; Euler's criterion taking only the values 1 and -1 on
/// nonzero elements; and the existence of a quadratic non-residue below
/// the trial bound of `sqrt`.  Success clauses that depend on these facts
/// name this predicate as their hypothesis.
pub open spec fn prime_field_facts() -> bool {
    &&& (forall|w: nat| 0 < w < p_nat() ==> #[trigger] fpow(w, (p_nat() - 1) as nat) == 1)
    &&& (forall|x: nat, y: nat|
        x < p_nat() && y < p_nat() && #[trigger] fmul(x, y) == 0 ==> x == 0 || y == 0)
    &&& (forall|w: nat|
        0 < w < p_nat() ==> #[trigger] fpow(w, (p_nat() - 1) as nat / 2) == 1 || fpow(
            w,
            (p_nat() - 1) as nat / 2,
        ) == (p_nat() - 1) as nat)
    &&& (forall|x: nat|
        x < p_nat() && #[trigger] fmul(x, x) == 1 ==> x == 1 || x == (p_nat() - 1) as nat)
    &&& (exists|w: nat| 2 <= w < 100000 && #[trigger] legendre_sym(w) == -1)
}

/// Under the stated field facts, every nonzero canonical element has
/// multiplicative order dividing p - 1 (Fermat's little theorem, named).
pub proof fn lemma_h_fermat(a: nat)
    requires
        prime_field_facts(),
        0 < a < p_nat(),
    ensures
        fpow(a, (p_nat() - 1) as nat) == 1,
{
}

/// Under the stated field facts, Fermat exponentiation inverts every
/// nonzero canonical element.
pub proof fn lemma_h_fermat_inv(d: nat)
    requires
        prime_field_facts(),
        0 < d < p_nat(),
    ensures
        fmul(d, finv(d)) == 1,
        fmul(finv(d), d) == 1,
{
    lemma_fpow_one(d);
    lemma_fpow_adds(d, 1, (p_nat() - 2) as nat);
    assert(fpow(d, (p_nat() - 1) as nat) == 1);
    lemma_fmul_commutative(d, finv(d));
}

/// A field subtraction of canonical elements vanishes exactly on equality.
pub proof fn lemma_fsub_eq_zero(u: nat, t: nat)
    requires
        u < p_nat(),
        t < p_nat(),
    ensures
        fsub(u, t) == 0 <==> u == t,
{
    let p = p_nat();
    vstd::arithmetic::div_mod::lemma_mod_self_0(p as int);
    if u == t {
        vstd::arithmetic::div_mod::lemma_mod_add_multiples_vanish(0, p as int);
        lemma_small_mod(0, p);
    } else if u > t {
        vstd::arithmetic::div_mod::lemma_mod_add_multiples_vanish((u - t) as int, p as int);
        lemma_small_mod((u - t) as nat, p);
    } else {
        lemma_small_mod((u + p - t) as nat, p);
    }
}

/// A vanishing field addition of canonical elements means negation.
pub proof fn lemma_fadd_eq_zero(u: nat, t: nat)
    requires
        u < p_nat(),
        t < p_nat(),
        fadd(u, t) == 0,
    ensures
        u == fneg(t),
{
    let p = p_nat();
    vstd::arithmetic::div_mod::lemma_mod_self_0(p as int);
    if u + t < p {
        lemma_small_mod((u + t) as nat, p);
        // u + t == 0, so both are 0 and fneg(0) == 0
        assert(u == 0 && t == 0);
    } else {
        vstd::arithmetic::div_mod::lemma_mod_add_multiples_vanish((u + t - p) as int, p as int);
        lemma_small_mod((u + t - p) as nat, p);
        // u + t == p, so u == p - t with t > 0
        lemma_small_mod((p - t) as nat, p);
    }
}

/// Multiplication distributes over field subtraction of canonical elements.
pub proof fn lemma_fmul_fsub_distributes(z: nat, u: nat, t: nat)
    requires
        t < p_nat(),
    ensures
        fmul(z, fsub(u, t)) == fsub(fmul(z, u), fmul(z, t)),
{
    lemma_fadd_fneg_is_fsub(u, t);
    lemma_field_distributive(z, u, fneg(t));
    lemma_fmul_fneg(z, t);
    lemma_fmul_lt(z, t);
    lemma_fadd_fneg_is_fsub(fmul(z, u), fmul(z, t));
}

/// Subtractions telescope: (a - b) + (b - c) == a - c.
pub proof fn lemma_fsub_telescope(a: nat, b: nat, c: nat)
    requires
        b < p_nat(),
        c < p_nat(),
    ensures
        fadd(fsub(a, b), fsub(b, c)) == fsub(a, c),
{
    let p = p_nat() as int;
    vstd::arithmetic::div_mod::lemma_add_mod_noop((a + p - b) as int, (b + p - c) as int, p);
    vstd::arithmetic::div_mod::lemma_mod_add_multiples_vanish((a + p - c) as int, p);
}

/// Rearranging the curve equation: from a' + y' == 1 + d' follows
/// y' - d' == 1 - a', on canonical elements.
pub proof fn lemma_fadd_swap_fsub(aa: nat, yy: nat, dd: nat)
    requires
        aa < p_nat(),
        yy < p_nat(),
        dd < p_nat(),
        fadd(aa, yy) == fadd(1, dd),
    ensures
        fsub(yy, dd) == fsub(1, aa),
{
    let p = p_nat() as int;
    let r = fadd(aa, yy) as int;
    vstd::arithmetic::div_mod::lemma_fundamental_div_mod((aa + yy) as int, p);
    vstd::arithmetic::div_mod::lemma_fundamental_div_mod((1 + dd) as int, p);
    let k1 = (aa + yy) as int / p;
    let k2 = (1 + dd) as int / p;
    assert((yy + p - dd) as int == (1 + p - aa) + p * (k1 - k2)) by (nonlinear_arith)
        requires
            (aa + yy) as int == p * k1 + r,
            (1 + dd) as int == p * k2 + r,
    ;
    assert(((k1 - k2) * p + (1 + p - aa)) % p == (1 + p - aa) % p) by {
        vstd::arithmetic::div_mod::lemma_mod_multiples_vanish(k1 - k2, (1 + p - aa) as int, p);
    }
    assert((k1 - k2) * p == p * (k1 - k2)) by (nonlinear_arith);
}

/// Under the stated field facts, an element whose square equals another
/// canonical element's square is that element or its negation.
pub proof fn lemma_h_root_pair(y0: nat, y: nat)
    requires
        prime_field_facts(),
        y0 < p_nat(),
        y < p_nat(),
        fmul(y0, y0) == fmul(y, y),
    ensures
        y0 == y || y0 == fneg(y),
{
    let t1 = fsub(y0, y);
    let t2 = fadd(y0, y);
    crate::field::lemma_fadd_lt(y0, y);
    lemma_fmul_lt(y0, y);
    lemma_fmul_lt(y0, y0);
    lemma_fmul_lt(y, y);
    // (y0 - y) * (y0 + y) == y0^2 - y^2 == 0
    lemma_field_distributive(t1, y0, y);
    lemma_fmul_commutative(t1, y0);
    lemma_fmul_commutative(t1, y);
    lemma_fmul_fsub_distributes(y0, y0, y);
    lemma_fmul_fsub_distributes(y, y0, y);
    lemma_fmul_commutative(y0, y);
    lemma_fmul_commutative(y, y0);
    lemma_fsub_telescope(fmul(y0, y0), fmul(y0, y), fmul(y, y));
    assert(fmul(t1, t2) == fsub(fmul(y0, y0), fmul(y, y)));
    lemma_fsub_eq_zero(fmul(y0, y0), fmul(y, y));
    assert(fmul(t1, t2) == 0);
    // no zero divisors: one factor vanishes
    crate::field::lemma_fsub_lt(y0, y);
    assert(t1 == 0 || t2 == 0);
    if t1 == 0 {
        lemma_fsub_eq_zero(y0, y);
    } else {
        lemma_fadd_eq_zero(y0, y);
    }
}

/// Under the stated field facts, the square of a nonzero canonical element
/// is a quadratic residue.
pub proof fn lemma_h_square_residue(y: nat)
    requires
        prime_field_facts(),
        0 < y < p_nat(),
    ensures
        legendre_sym(fmul(y, y)) == 1,
{
    let p = p_nat();
    let yy = fmul(y, y);
    lemma_fmul_lt(y, y);
    assert(yy != 0);
    // yy == y^2 as a power
    assert(pow(y as int, 2) == y * y) by {
        vstd::arithmetic::power::lemma_pow_adds(y as int, 1, 1);
        vstd::arithmetic::power::lemma_pow1(y as int);
    }
    assert(fpow(y, 2) == yy);
    lemma_fpow_fpow(y, 2, (p - 1) as nat / 2);
    assert(2 * ((p_nat() - 1) as nat / 2) == (p_nat() - 1) as nat) by (nonlinear_arith);
    assert(fpow(y, (p_nat() - 1) as nat) == 1);
}

/// The negation of a nonzero canonical element has the opposite parity:
/// the two values sum to the odd modulus p.
pub proof fn lemma_parity_flip(y: nat)
    requires
        0 < y < p_nat(),
    ensures
        fneg(y) % 2 != y % 2,
{
    let p = p_nat();
    lemma_small_mod((p - y) as nat, p);
    assert(fneg(y) == p - y);
    let a = (p - y) as int;
    let b = y as int;
    vstd::arithmetic::div_mod::lemma_fundamental_div_mod(a, 2);
    vstd::arithmetic::div_mod::lemma_fundamental_div_mod(b, 2);
    if a % 2 == b % 2 {
        assert(p as int == 2 * (a / 2 + b / 2 + (a % 2)) + 0) by (nonlinear_arith)
            requires
                a == 2 * (a / 2) + a % 2,
                b == 2 * (b / 2) + b % 2,
                a % 2 == b % 2,
                (a % 2 == 0 || a % 2 == 1),
                p as int == a + b,
        ;
        vstd::arithmetic::div_mod::lemma_fundamental_div_mod_converse(
            p as int,
            2,
            a / 2 + b / 2 + (a % 2),
            0,
        );
        assert(p_nat() % 2 == 1) by (nonlinear_arith);
        assert(false);
    }
}

/// Powers in GF(p) are canonical.
pub proof fn lemma_fpow_lt(a: nat, e: nat)
    ensures
        fpow(a, e) < p_nat(),
{
    lemma_mod_bound(pow(a as int, e), p_nat() as int);
}

/// A power of a power is the power of the product of the exponents.
pub proof fn lemma_fpow_fpow(a: nat, e1: nat, e2: nat)
    ensures
        fpow(fpow(a, e1), e2) == fpow(a, e1 * e2),
{
    let p = p_nat() as int;
    let ai = a as int;
    lemma_mod_bound(pow(ai, e1), p);
    vstd::arithmetic::power::lemma_pow_mod_noop(pow(ai, e1), e2, p);
    vstd::arithmetic::power::lemma_pow_multiplies(ai, e1, e2);
}

/// Exponentiation distributes over field multiplication.
pub proof fn lemma_fpow_distributes(x: nat, y: nat, e: nat)
    ensures
        fpow(fmul(x, y), e) == fmul(fpow(x, e), fpow(y, e)),
{
    let p = p_nat() as int;
    let xi = x as int;
    let yi = y as int;
    vstd::arithmetic::power::lemma_pow_mod_noop(xi * yi, e, p);
    vstd::arithmetic::power::lemma_pow_distributes(xi, yi, e);
    lemma_mul_mod_noop_general(pow(xi, e), pow(yi, e), p);
}

/// Exponents add under field multiplication of powers.
pub proof fn lemma_fpow_adds(a: nat, e1: nat, e2: nat)
    ensures
        fmul(fpow(a, e1), fpow(a, e2)) == fpow(a, (e1 + e2) as nat),
{
    let p = p_nat() as int;
    let ai = a as int;
    vstd::arithmetic::power::lemma_pow_adds(ai, e1, e2);
    lemma_mul_mod_noop_general(pow(ai, e1), pow(ai, e2), p);
}

/// A canonical element is its own first power.
pub proof fn lemma_fpow_one(a: nat)
    requires
        a < p_nat(),
    ensures
        fpow(a, 1) == a,
{
    vstd::arithmetic::power::lemma_pow1(a as int);
    lemma_small_mod(a, p_nat());
}

/// Squaring distributes over field multiplication.
pub proof fn lemma_fmul_square_distributes(x: nat, y: nat)
    ensures
        fmul(fmul(x, y), fmul(x, y)) == fmul(fmul(x, x), fmul(y, y)),
{
    let p = p_nat() as int;
    let xi = x as int;
    let yi = y as int;
    lemma_mul_mod_noop_general(xi * yi, xi * yi, p);
    assert((xi * yi) * (xi * yi) == (xi * xi) * (yi * yi)) by (nonlinear_arith);
    lemma_mul_mod_noop_general(xi * xi, yi * yi, p);
}

/// The square-root loop invariant is preserved by multiplying the root
/// candidate by b and the cofactor by b^2.
proof fn lemma_sqrt_step(r: nat, b: nat, a: nat, t: nat)
    requires
        fmul(r, r) == fmul(a, t),
    ensures
        fmul(fmul(r, b), fmul(r, b)) == fmul(a, fmul(t, fmul(b, b))),
{
    let p = p_nat() as int;
    let ri = r as int;
    let bi = b as int;
    let ai = a as int;
    let ti = t as int;
    lemma_mul_mod_noop_general(ri * bi, ri * bi, p);
    assert((ri * bi) * (ri * bi) == (ri * ri) * (bi * bi)) by (nonlinear_arith);
    lemma_mul_mod_noop_general(ri * ri, bi * bi, p);
    // fmul(rb, rb) == ((r*r)%p * (b*b))%p == (fmul(a,t) * (b*b))%p
    lemma_mul_mod_noop_general(ai * ti, bi * bi, p);
    assert((ai * ti) * (bi * bi) == ai * (ti * (bi * bi))) by (nonlinear_arith);
    lemma_mul_mod_noop_general(ai, ti * (bi * bi), p);
    lemma_mul_mod_noop_general(ti, bi * bi, p);
    lemma_mul_mod_noop_general(ai, (ti * ((bi * bi) % p)) % p, p);
    assert(fmul(t, fmul(b, b)) == (ti * (bi * bi)) % p) by {
        lemma_mul_mod_noop_general(ti, bi * bi, p);
    }
    lemma_mul_mod_noop_general(ai, ti * (bi * bi), p);
}

} // verus!
