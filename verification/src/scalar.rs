//! Unbounded non-negative integers used as exponents and signature scalars,
//! held in canonical little-endian bytes.  The view of a `Scalar` is its
//! mathematical value.

use vstd::prelude::*;
use crate::bignum::{
    le_val, min_bytes, trim_bytes, u64_to_min_bytes, bytes_eq, lemma_le_val_parity,
    lemma_le_val_injective,
};
use vstd::arithmetic::div_mod::{lemma_fundamental_div_mod, lemma_fundamental_div_mod_converse};
use vstd::bits::lemma_u8_shr_is_div;
use vstd::arithmetic::power2::pow2;

verus! {

/// An arbitrary-precision non-negative integer scalar.
#[derive(Debug, PartialEq, Eq)]
pub struct Scalar {
    b: Vec<u8>,
}

impl Clone for Scalar {
    fn clone(&self) -> (r: Self)
        ensures
            r@ == self@,
    {
        proof {
            use_type_invariant(self);
        }
        Scalar { b: crate::bignum::copy_bytes(&self.b) }
    }
}

impl View for Scalar {
    type V = nat;

    closed spec fn view(&self) -> nat {
        le_val(self.b@)
    }
}

impl Scalar {
    #[verifier::type_invariant]
    pub closed spec fn wf(self) -> bool {
        min_bytes(self.b@)
    }

    /// The scalar with the given machine-word value.
    pub fn from_u64(x: u64) -> (r: Scalar)
        ensures
            r@ == x,
    {
        Scalar { b: u64_to_min_bytes(x) }
    }

    /// The scalar read from little-endian bytes (of any length).
    pub fn from_le_bytes(bytes: &[u8]) -> (r: Scalar)
        ensures
            r@ == le_val(bytes@),
    {
        let mut v: Vec<u8> = Vec::new();
        let mut i: usize = 0;
        while i < bytes.len()
            invariant
                i <= bytes@.len(),
                v@ == bytes@.subrange(0, i as int),
            decreases bytes@.len() - i,
        {
            v.push(bytes[i]);
            i += 1;
            proof {
                assert(v@ =~= bytes@.subrange(0, i as int));
            }
        }
        proof {
            assert(v@ =~= bytes@);
        }
        Scalar { b: trim_bytes(v) }
    }

    /// The canonical little-endian bytes of this scalar.
    pub fn to_le_bytes(&self) -> (r: Vec<u8>)
        ensures
            le_val(r@) == self@,
            min_bytes(r@),
    {
        proof {
            use_type_invariant(self);
        }
        crate::bignum::copy_bytes(&self.b)
    }

    /// Wrap canonical bytes produced by the arithmetic layer.
    pub(crate) fn from_canonical(b: Vec<u8>) -> (r: Scalar)
        requires
            min_bytes(b@),
        ensures
            r@ == le_val(b@),
    {
        Scalar { b }
    }

    /// Canonical bytes, by reference, for the arithmetic layer.
    pub(crate) fn bytes(&self) -> (r: &Vec<u8>)
        ensures
            le_val(r@) == self@,
            min_bytes(r@),
    {
        proof {
            use_type_invariant(self);
        }
        &self.b
    }

    /// Value equality.
    pub fn equals(&self, other: &Scalar) -> (r: bool)
        ensures
            r == (self@ == other@),
    {
        proof {
            use_type_invariant(self);
            use_type_invariant(other);
            if self@ == other@ {
                lemma_le_val_injective(self.b@, other.b@);
            }
        }
        bytes_eq(&self.b, &other.b)
    }

    /// Whether this scalar is zero.
    pub fn is_zero(&self) -> (r: bool)
        ensures
            r == (self@ == 0),
    {
        proof {
            use_type_invariant(self);
            if self.b@.len() == 1 {
                assert(le_val(self.b@.subrange(1, 1)) == 0);
                assert(le_val(self.b@) == self.b@[0] as nat + 256 * le_val(
                    self.b@.subrange(1, 1),
                ));
            } else {
                crate::bignum::lemma_min_bytes_lower(self.b@);
                crate::bignum::lemma_pow256_pos((self.b@.len() - 1) as nat);
            }
        }
        self.b.len() == 1 && self.b[0] == 0
    }

    /// Whether this scalar is odd.
    pub fn is_odd(&self) -> (r: bool)
        ensures
            r == (self@ % 2 == 1),
    {
        proof {
            use_type_invariant(self);
            lemma_le_val_parity(self.b@);
        }
        self.b[0] % 2 == 1
    }

    /// Half of this scalar, rounded down.
    pub fn half(&self) -> (r: Scalar)
        ensures
            r@ == self@ / 2,
    {
        proof {
            use_type_invariant(self);
        }
        let n = self.b.len();
        let mut out: Vec<u8> = Vec::new();
        let mut i: usize = 0;
        while i < n
            invariant
                i <= n,
                n == self.b@.len(),
                n >= 1,
                out@.len() == i,
                min_bytes(self.b@),
                forall|k: int|
                    0 <= k < i && k < n - 1 ==> out@[k] == ((self.b@[k] >> 1u8) | ((self.b@[k + 1]
                        & 1u8) << 7u8)),
                i == n ==> out@[n - 1] == (self.b@[n - 1] >> 1u8),
            decreases n - i,
        {
            let byte: u8 = if i + 1 < n {
                (self.b[i] >> 1) | ((self.b[i + 1] & 1) << 7)
            } else {
                self.b[i] >> 1
            };
            out.push(byte);
            i += 1;
        }
        proof {
            lemma_shr1_seq(self.b@, out@);
        }
        Scalar { b: trim_bytes(out) }
    }
}

/// A byte-wise right shift by one bit halves the value.
proof fn lemma_shr1_seq(s: Seq<u8>, t: Seq<u8>)
    requires
        s.len() == t.len(),
        s.len() >= 1,
        forall|k: int|
            0 <= k < s.len() - 1 ==> t[k] == ((s[k] >> 1u8) | ((s[k + 1] & 1u8) << 7u8)),
        t[s.len() - 1] == (s[s.len() - 1] >> 1u8),
    ensures
        le_val(t) == le_val(s) / 2,
    decreases s.len(),
{
    lemma_u8_shr_is_div(s[s.len() - 1], 1);
    assert(pow2(1) == 2) by {
        vstd::arithmetic::power2::lemma2_to64();
    }
    if s.len() == 1 {
        assert(le_val(s.subrange(1, 1)) == 0);
        assert(le_val(s) == s[0] as nat + 256 * le_val(s.subrange(1, 1)));
        assert(le_val(t.subrange(1, 1)) == 0);
        assert(le_val(t) == t[0] as nat + 256 * le_val(t.subrange(1, 1)));
        assert(t[0] == s[0] / 2);
    } else {
        let s1 = s.subrange(1, s.len() as int);
        let t1 = t.subrange(1, t.len() as int);
        assert(t1[s1.len() - 1] == (s1[s1.len() - 1] >> 1u8));
        assert forall|k: int| 0 <= k < s1.len() - 1 implies t1[k] == ((s1[k] >> 1u8) | ((s1[k + 1]
            & 1u8) << 7u8)) by {
            assert(t[k + 1] == ((s[k + 1] >> 1u8) | ((s[k + 2] & 1u8) << 7u8)));
        }
        lemma_shr1_seq(s1, t1);
        let v = le_val(s1) as int;
        let s0 = s[0] as int;
        lemma_le_val_parity(s1);
        assert(t[0] == ((s[0] >> 1u8) | ((s[1] & 1u8) << 7u8)));
        let q0 = s0 / 2;
        let b0 = s0 % 2;
        let t0 = t[0];
        let sa = s[0];
        let sb = s[1];
        assert(t0 == sa / 2 + 128 * (sb % 2)) by (bit_vector)
            requires
                t0 == ((sa >> 1u8) | ((sb & 1u8) << 7u8)),
        ;
        assert(t[0] as int == q0 + 128 * (s[1] as int % 2));
        lemma_fundamental_div_mod(s0, 2);
        lemma_fundamental_div_mod(v, 2);
        let h = v / 2;
        let r0 = v % 2;
        assert(le_val(s) == s0 + 256 * v);
        assert(le_val(t) == t[0] as nat + 256 * le_val(t1));
        assert(le_val(t) == q0 + 128 * r0 + 256 * h);
        assert(le_val(s) == 2 * (q0 + 128 * r0 + 256 * h) + b0);
        lemma_fundamental_div_mod_converse(le_val(s) as int, 2, q0 + 128 * r0 + 256 * h, b0);
    }
}

} // verus!
