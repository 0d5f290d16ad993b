//! Arbitrary-precision natural numbers, carried as little-endian byte
//! vectors.  The mathematical value of a byte vector is given by `le_val`;
//! every operation is specified exactly against that value.  The arithmetic
//! itself is done by the `num_bigint` crate behind trusted wrappers whose
//! contracts state the documented integer semantics of each operation.

use vstd::prelude::*;
use vstd::arithmetic::power::pow;
use vstd::arithmetic::power2::pow2;
use vstd::arithmetic::div_mod::{
    lemma_fundamental_div_mod, lemma_fundamental_div_mod_converse, lemma_mod_multiples_vanish,
};
use vstd::arithmetic::mul::{lemma_mul_is_distributive_add, lemma_mul_inequality};

verus! {

broadcast use vstd::arithmetic::mul::lemma_mul_nonnegative;

/// Value of a little-endian byte sequence as a natural number.
pub open spec fn le_val(s: Seq<u8>) -> nat
    decreases s.len(),
{
    if s.len() == 0 {
        0
    } else {
        s[0] as nat + 256 * le_val(s.subrange(1, s.len() as int))
    }
}

/// 256 raised to the power `n`: the weight of byte `n` in a little-endian
/// byte sequence.
pub open spec fn pow256(n: nat) -> int {
    pow(256, n)
}

/// A canonical (minimal) little-endian representation: at least one byte,
/// and no trailing zero byte except for the single byte of the number 0.
pub open spec fn min_bytes(s: Seq<u8>) -> bool {
    s.len() >= 1 && (s.len() > 1 ==> s[s.len() - 1] != 0)
}

/// `b^e mod m`, the result of modular exponentiation.
pub open spec fn pow_mod(b: nat, e: nat, m: nat) -> nat
    recommends
        m > 0,
{
    (pow(b as int, e) % (m as int)) as nat
}

pub proof fn lemma_pow256_unfold(n: nat)
    requires
        n > 0,
    ensures
        pow256(n) == 256 * pow256((n - 1) as nat),
        pow256(n) > 0,
{
    vstd::arithmetic::power::lemma_pow_positive(256, n);
    vstd::arithmetic::power::lemma_pow_positive(256, (n - 1) as nat);
    assert(pow(256, n) == 256 * pow(256, (n - 1) as nat)) by {
        vstd::arithmetic::power::lemma_pow_adds(256, 1, (n - 1) as nat);
        vstd::arithmetic::power::lemma_pow1(256);
    }
}

pub proof fn lemma_pow256_pos(n: nat)
    ensures
        pow256(n) > 0,
{
    vstd::arithmetic::power::lemma_pow_positive(256, n);
}

/// Every `len`-byte sequence has a value below `256^len`.
pub proof fn lemma_le_val_bound(s: Seq<u8>)
    ensures
        le_val(s) < pow256(s.len()),
    decreases s.len(),
{
    if s.len() == 0 {
        assert(pow256(0) == 1) by {
            vstd::arithmetic::power::lemma_pow0(256);
        }
    } else {
        let t = s.subrange(1, s.len() as int);
        lemma_le_val_bound(t);
        lemma_pow256_unfold(s.len());
        assert(256 * le_val(t) <= 256 * (pow256(t.len()) - 1)) by {
            lemma_mul_inequality(le_val(t) as int, pow256(t.len()) - 1, 256);
        }
    }
}

/// Splitting a byte sequence splits its value by the weight of the cut.
pub proof fn lemma_le_val_split(s: Seq<u8>, j: int)
    requires
        0 <= j <= s.len(),
    ensures
        le_val(s) == le_val(s.subrange(0, j)) + pow256(j as nat) * le_val(
            s.subrange(j, s.len() as int),
        ),
    decreases j,
{
    if j == 0 {
        assert(s.subrange(0, 0).len() == 0);
        assert(le_val(s.subrange(0, 0)) == 0);
        assert(s.subrange(0, s.len() as int) =~= s);
        assert(pow256(0) == 1) by {
            vstd::arithmetic::power::lemma_pow0(256);
        }
    } else {
        let t = s.subrange(1, s.len() as int);
        lemma_le_val_split(t, j - 1);
        assert(t.subrange(0, j - 1) =~= s.subrange(0, j).subrange(1, j));
        assert(t.subrange(j - 1, t.len() as int) =~= s.subrange(j, s.len() as int));
        let low = s.subrange(0, j);
        let s0 = s[0] as int;
        let a = le_val(t.subrange(0, j - 1)) as int;
        let b = le_val(s.subrange(j, s.len() as int)) as int;
        let w = pow256((j - 1) as nat) as int;
        let sv = le_val(s) as int;
        let tv = le_val(t) as int;
        let lowv = le_val(low) as int;
        assert(sv == s0 + 256 * tv);
        assert(tv == a + w * b);
        assert(lowv == s0 + 256 * a);
        lemma_pow256_unfold(j as nat);
        assert((j as nat - 1) as nat == (j - 1) as nat);
        assert(pow256(j as nat) == 256 * w);
        assert(sv == lowv + (256 * w) * b) by (nonlinear_arith)
            requires
                sv == s0 + 256 * tv,
                tv == a + w * b,
                lowv == s0 + 256 * a,
        ;
    }
}

/// The value of a sequence extended by one byte.
pub proof fn lemma_le_val_push(s: Seq<u8>, b: u8)
    ensures
        le_val(s.push(b)) == le_val(s) + pow256(s.len()) * b,
{
    let e = s.push(b);
    lemma_le_val_split(e, s.len() as int);
    assert(e.subrange(0, s.len() as int) =~= s);
    let last = e.subrange(s.len() as int, e.len() as int);
    assert(last.len() == 1);
    assert(le_val(last) == last[0] as nat + 256 * le_val(last.subrange(1, 1)));
    assert(last.subrange(1, 1).len() == 0);
    assert(le_val(last) == b as nat);
}

/// Dropping a trailing zero byte does not change the value.
pub proof fn lemma_le_val_drop_last_zero(s: Seq<u8>)
    requires
        s.len() > 0,
        s[s.len() - 1] == 0,
    ensures
        le_val(s.subrange(0, s.len() - 1)) == le_val(s),
{
    lemma_le_val_split(s, s.len() - 1);
    let last = s.subrange(s.len() - 1, s.len() as int);
    assert(le_val(last.subrange(1, 1)) == 0);
    assert(le_val(last) == last[0] as nat + 256 * le_val(last.subrange(1, 1)));
    assert(le_val(last) == 0);
    assert(pow256((s.len() - 1) as nat) * le_val(last) == 0) by (nonlinear_arith)
        requires
            le_val(last) == 0,
    ;
}

/// A canonical representation of more than one byte is at least the weight
/// of its top byte.
pub proof fn lemma_min_bytes_lower(s: Seq<u8>)
    requires
        min_bytes(s),
        s.len() > 1,
    ensures
        le_val(s) >= pow256((s.len() - 1) as nat),
{
    lemma_le_val_split(s, s.len() - 1);
    let last = s.subrange(s.len() - 1, s.len() as int);
    assert(le_val(last.subrange(1, 1)) == 0);
    assert(le_val(last) == last[0] as nat + 256 * le_val(last.subrange(1, 1)));
    assert(le_val(last) >= 1);
    lemma_pow256_pos((s.len() - 1) as nat);
    assert(pow256((s.len() - 1) as nat) * 1 <= pow256((s.len() - 1) as nat) * le_val(last)) by {
        lemma_mul_inequality(1, le_val(last) as int, pow256((s.len() - 1) as nat) as int);
    }
}

/// The first byte and the rest of a value, read off arithmetically.
pub proof fn lemma_le_val_head(s: Seq<u8>)
    requires
        s.len() > 0,
    ensures
        le_val(s) % 256 == s[0] as nat,
        le_val(s) / 256 == le_val(s.subrange(1, s.len() as int)),
{
    let v = le_val(s.subrange(1, s.len() as int)) as int;
    assert(le_val(s) == 256 * v + s[0]);
    vstd::arithmetic::div_mod::lemma_fundamental_div_mod_converse(
        le_val(s) as int,
        256,
        v,
        s[0] as int,
    );
}

/// A value is even exactly when its first byte is.
pub proof fn lemma_le_val_parity(s: Seq<u8>)
    requires
        s.len() > 0,
    ensures
        le_val(s) % 2 == s[0] as nat % 2,
{
    let v = le_val(s.subrange(1, s.len() as int)) as int;
    assert(le_val(s) == 256 * v + s[0]);
    assert((2 * (128 * v) + s[0]) % 2 == s[0] as int % 2) by {
        lemma_mod_multiples_vanish(128 * v, s[0] as int, 2);
    }
    assert(256 * v == 2 * (128 * v)) by {
        vstd::arithmetic::mul::lemma_mul_is_associative(2, 128, v);
    }
}

/// Two representations of the same value with the same length are the
/// same bytes (fixed-length little-endian encodings are unique).
pub proof fn lemma_le_val_injective_fixed(s: Seq<u8>, t: Seq<u8>)
    requires
        s.len() == t.len(),
        le_val(s) == le_val(t),
    ensures
        s == t,
    decreases s.len(),
{
    if s.len() > 0 {
        lemma_le_val_head(s);
        lemma_le_val_head(t);
        assert(s[0] == t[0]);
        let s1 = s.subrange(1, s.len() as int);
        let t1 = t.subrange(1, t.len() as int);
        lemma_le_val_injective_fixed(s1, t1);
        assert forall|i: int| 0 <= i < s.len() implies s[i] == t[i] by {
            if i > 0 {
                assert(s1[i - 1] == t1[i - 1]);
            }
        }
        assert(s =~= t);
    } else {
        assert(s =~= t);
    }
}

/// Two canonical representations of the same value are the same bytes.
pub proof fn lemma_le_val_injective(s: Seq<u8>, t: Seq<u8>)
    requires
        min_bytes(s),
        min_bytes(t),
        le_val(s) == le_val(t),
    ensures
        s == t,
    decreases s.len(),
{
    if s.len() < t.len() {
        lemma_le_val_bound(s);
        lemma_min_bytes_lower(t);
        assert(pow256(s.len()) <= pow256((t.len() - 1) as nat)) by {
            lemma_pow256_pos(s.len());
            lemma_pow256_pos((t.len() - 1) as nat);
            if s.len() < t.len() - 1 {
                vstd::arithmetic::power::lemma_pow_strictly_increases(
                    256,
                    s.len(),
                    (t.len() - 1) as nat,
                );
            }
        }
        assert(false);
    } else if t.len() < s.len() {
        lemma_le_val_bound(t);
        lemma_min_bytes_lower(s);
        assert(pow256(t.len()) <= pow256((s.len() - 1) as nat)) by {
            lemma_pow256_pos(t.len());
            lemma_pow256_pos((s.len() - 1) as nat);
            if t.len() < s.len() - 1 {
                vstd::arithmetic::power::lemma_pow_strictly_increases(
                    256,
                    t.len(),
                    (s.len() - 1) as nat,
                );
            }
        }
        assert(false);
    } else {
        lemma_le_val_head(s);
        lemma_le_val_head(t);
        assert(s[0] == t[0]);
        if s.len() == 1 {
            assert(s =~= t);
        } else {
            let s1 = s.subrange(1, s.len() as int);
            let t1 = t.subrange(1, t.len() as int);
            lemma_le_val_injective(s1, t1);
            assert forall|i: int| 0 <= i < s.len() implies s[i] == t[i] by {
                if i > 0 {
                    assert(s1[i - 1] == t1[i - 1]);
                }
            }
            assert(s =~= t);
        }
    }
}

/// Canonicalize a little-endian byte vector by dropping trailing zeros.
pub fn trim_bytes(v: Vec<u8>) -> (r: Vec<u8>)
    ensures
        min_bytes(r@),
        le_val(r@) == le_val(v@),
{
    let mut v = v;
    if v.len() == 0 {
        proof {
            lemma_le_val_push(v@, 0);
        }
        v.push(0);
        proof {
            assert(le_val(v@) == 0);
        }
    }
    let ghost orig = le_val(v@);
    while v.len() > 1 && v[v.len() - 1] == 0
        invariant
            v.len() >= 1,
            le_val(v@) == orig,
        decreases v.len(),
    {
        let ghost pre = v@;
        v.pop();
        proof {
            lemma_le_val_drop_last_zero(pre);
            assert(v@ =~= pre.subrange(0, pre.len() - 1));
        }
    }
    v
}

/// The canonical bytes of a machine word.
pub fn u64_to_min_bytes(x: u64) -> (r: Vec<u8>)
    ensures
        min_bytes(r@),
        le_val(r@) == x,
{
    let mut out: Vec<u8> = Vec::new();
    let mut cur: u64 = x;
    proof {
        assert(pow256(0) == 1) by {
            vstd::arithmetic::power::lemma_pow0(256);
        }
    }
    while cur > 0
        invariant
            le_val(out@) + pow256(out@.len()) * cur == x,
            cur == 0 && out@.len() > 0 ==> out@[out@.len() - 1] != 0,
        decreases cur,
    {
        let b: u8 = (cur % 256) as u8;
        let ghost len0 = out@.len();
        let ghost cur0 = cur as int;
        let ghost v0 = le_val(out@) as int;
        proof {
            lemma_le_val_push(out@, b);
            lemma_pow256_unfold(len0 + 1);
            lemma_fundamental_div_mod(cur0, 256);
        }
        out.push(b);
        cur = cur / 256;
        proof {
            let w = pow256(len0) as int;
            assert(le_val(out@) == v0 + w * (cur0 % 256));
            assert(pow256(out@.len()) == 256 * w);
            assert(v0 + w * (cur0 % 256) + (256 * w) * (cur0 / 256) == v0 + w * cur0)
                by (nonlinear_arith)
                requires
                    cur0 == 256 * (cur0 / 256) + cur0 % 256,
            ;
            if cur == 0 {
                assert(cur0 / 256 == 0);
                assert(cur0 < 256) by (nonlinear_arith)
                    requires
                        cur0 / 256 == 0,
                        cur0 >= 0,
                ;
                assert(b != 0);
            }
        }
    }
    if out.len() == 0 {
        proof {
            lemma_le_val_push(out@, 0);
            assert(pow256(0) * x == x) by (nonlinear_arith)
                requires
                    pow256(0) == 1,
            ;
        }
        out.push(0);
    } else {
        proof {
            assert(pow256(out@.len()) * cur == 0) by (nonlinear_arith)
                requires
                    cur == 0,
            ;
        }
    }
    out
}

/// Bit `i` of `n` (bit 0 is the least significant).
pub open spec fn nth_bit(n: nat, i: nat) -> bool {
    (n / pow2(i)) % 2 == 1
}

/// The bit length of `n`: 0 for 0, and otherwise the least m with n < 2^m.
pub open spec fn nbits(n: nat) -> nat
    decreases n,
{
    if n == 0 {
        0
    } else {
        1 + nbits(n / 2)
    }
}

/// Any number below 2^m has bit length at most m.
pub proof fn lemma_nbits_bound(n: nat, m: nat)
    requires
        n < pow2(m),
    ensures
        nbits(n) <= m,
    decreases m,
{
    if n > 0 {
        assert(pow2(0) == 1) by {
            vstd::arithmetic::power2::lemma2_to64();
        }
        assert(m > 0);
        vstd::arithmetic::power2::lemma_pow2_unfold(m);
        lemma_fundamental_div_mod(n as int, 2);
        assert(n / 2 < pow2((m - 1) as nat));
        lemma_nbits_bound(n / 2, (m - 1) as nat);
    }
}

/// A number in [2^(m-1), 2^m) has bit length exactly m.
pub proof fn lemma_nbits_from_range(n: nat, m: nat)
    requires
        m >= 1,
        pow2((m - 1) as nat) <= n < pow2(m),
    ensures
        nbits(n) == m,
    decreases m,
{
    vstd::arithmetic::power2::lemma_pow2_pos((m - 1) as nat);
    if m == 1 {
        assert(pow2(0) == 1 && pow2(1) == 2) by {
            vstd::arithmetic::power2::lemma2_to64();
        }
        assert(n == 1);
        assert(nbits(0) == 0);
        assert(nbits(1) == 1 + nbits(0));
    } else {
        vstd::arithmetic::power2::lemma_pow2_unfold(m);
        vstd::arithmetic::power2::lemma_pow2_unfold((m - 1) as nat);
        lemma_fundamental_div_mod(n as int, 2);
        assert(pow2((m - 2) as nat) <= n / 2 < pow2((m - 1) as nat));
        lemma_nbits_from_range(n / 2, (m - 1) as nat);
    }
}

/// The bit length of a positive number bounds it by powers of two.
pub proof fn lemma_nbits_range(n: nat)
    requires
        n > 0,
    ensures
        nbits(n) >= 1,
        pow2((nbits(n) - 1) as nat) <= n < pow2(nbits(n)),
    decreases n,
{
    if n == 1 {
        assert(nbits(1) == 1 + nbits(0));
        assert(pow2(0) == 1 && pow2(1) == 2) by {
            vstd::arithmetic::power2::lemma2_to64();
        }
    } else {
        lemma_nbits_range(n / 2);
        let m = nbits(n / 2);
        assert(nbits(n) == m + 1);
        vstd::arithmetic::power2::lemma_pow2_unfold((m + 1) as nat);
        vstd::arithmetic::power2::lemma_pow2_unfold(m);
        lemma_fundamental_div_mod(n as int, 2);
    }
}

/// Byte weights are powers of two.
pub proof fn lemma_pow256_is_pow2(j: nat)
    ensures
        pow256(j) == pow2((8 * j) as nat),
{
    assert(pow(2, 8) == 256) by {
        vstd::arithmetic::power2::lemma2_to64();
        vstd::arithmetic::power::lemma_pow_positive(2, 8);
    }
    vstd::arithmetic::power::lemma_pow_multiplies(2, 8, j);
    vstd::arithmetic::power::lemma_pow_positive(2, (8 * j) as nat);
}

/// Bit `8*j + r` of a byte sequence's value is bit `r` of byte `j`.
pub proof fn lemma_le_val_bit(s: Seq<u8>, j: int, r: u8)
    requires
        0 <= j < s.len(),
        r < 8,
    ensures
        nth_bit(le_val(s), (8 * j + r) as nat) == (((s[j] >> r) & 1) == 1),
{
    lemma_le_val_split(s, j);
    let a = le_val(s.subrange(0, j)) as int;
    let hi = s.subrange(j, s.len() as int);
    let b = le_val(hi) as int;
    lemma_le_val_bound(s.subrange(0, j));
    lemma_pow256_is_pow2(j as nat);
    vstd::arithmetic::power2::lemma_pow2_pos((8 * j) as nat);
    assert(le_val(s) as int == b * pow2((8 * j) as nat) + a) by {
        vstd::arithmetic::mul::lemma_mul_is_commutative(b, pow256(j as nat));
    }
    lemma_fundamental_div_mod_converse(le_val(s) as int, pow2((8 * j) as nat) as int, b, a);
    // b = s[j] + 256 * c
    let c = le_val(hi.subrange(1, hi.len() as int)) as int;
    assert(b == s[j] + 256 * c);
    // s[j] = pow2(r) * q + rem
    let q = s[j] as int / pow2(r as nat) as int;
    let rem = s[j] as int % pow2(r as nat) as int;
    vstd::arithmetic::power2::lemma_pow2_pos(r as nat);
    lemma_fundamental_div_mod(s[j] as int, pow2(r as nat) as int);
    // 256 = pow2(r) * pow2(8 - r)
    vstd::arithmetic::power2::lemma_pow2_adds(r as nat, (8 - r) as nat);
    assert(pow2(8) == 256) by {
        vstd::arithmetic::power2::lemma2_to64();
    }
    let w = pow2((8 - r) as nat) as int;
    vstd::arithmetic::power2::lemma_pow2_pos((8 - r) as nat);
    assert(b == pow2(r as nat) * (q + w * c) + rem) by (nonlinear_arith)
        requires
            b == s[j as int] + 256 * c,
            s[j as int] == pow2(r as nat) * q + rem,
            256 == pow2(r as nat) * w,
    ;
    assert(0 <= rem < pow2(r as nat));
    lemma_fundamental_div_mod_converse(b, pow2(r as nat) as int, q + w * c, rem);
    // divide in two stages: by 2^(8j), then by 2^r
    vstd::arithmetic::power2::lemma_pow2_adds((8 * j) as nat, r as nat);
    vstd::arithmetic::div_mod::lemma_div_denominator(
        le_val(s) as int,
        pow2((8 * j) as nat) as int,
        pow2(r as nat) as int,
    );
    assert(le_val(s) as int / pow2((8 * j + r) as nat) as int == q + w * c);
    // modulo 2: the w * c part is even since r < 8
    vstd::arithmetic::power2::lemma_pow2_unfold((8 - r) as nat);
    let e = pow2((7 - r) as nat) as int;
    assert(w * c == 2 * (e * c)) by (nonlinear_arith)
        requires
            w == 2 * e,
    ;
    lemma_mod_multiples_vanish(e * c, q, 2);
    assert((q + w * c) % 2 == q % 2);
    // the executable read of the bit
    let sj = s[j];
    assert(((sj >> r) & 1) == (if (sj as nat / pow2(r as nat)) % 2 == 1 {
        1u8
    } else {
        0u8
    })) by {
        vstd::bits::lemma_u8_shr_is_div(sj, r);
        let sq = sj >> r;
        assert((sq & 1) == (if sq as nat % 2 == 1 {
            1u8
        } else {
            0u8
        })) by (bit_vector);
    }
}

/// The bit length of a canonical byte sequence: full bytes below the top
/// byte, plus the top byte's own bit length.
pub proof fn lemma_nbits_bytes(s: Seq<u8>)
    requires
        min_bytes(s),
        le_val(s) > 0,
    ensures
        nbits(le_val(s)) == 8 * (s.len() - 1) + nbits(s[s.len() - 1] as nat),
{
    let n = s.len() as int;
    let top = s[n - 1] as nat;
    lemma_le_val_split(s, n - 1);
    let a = le_val(s.subrange(0, n - 1)) as int;
    let last = s.subrange(n - 1, n);
    assert(le_val(last.subrange(1, 1)) == 0);
    assert(le_val(last) == last[0] as nat + 256 * le_val(last.subrange(1, 1)));
    assert(le_val(last) == top);
    lemma_le_val_bound(s.subrange(0, n - 1));
    lemma_pow256_is_pow2((n - 1) as nat);
    let w = pow2((8 * (n - 1)) as nat) as int;
    vstd::arithmetic::power2::lemma_pow2_pos((8 * (n - 1)) as nat);
    if top == 0 {
        // canonical bytes with a zero top byte hold a single zero byte
        assert(s.len() == 1);
        assert(last =~= s);
        assert(false);
    }
    lemma_nbits_range(top);
    let m = nbits(top);
    assert(m >= 1);
    assert(pow2(8) == 256) by {
        vstd::arithmetic::power2::lemma2_to64();
    }
    lemma_nbits_bound(top, 8);
    // lower bound: w * pow2(m - 1) <= le_val(s)
    vstd::arithmetic::power2::lemma_pow2_adds((8 * (n - 1)) as nat, (m - 1) as nat);
    vstd::arithmetic::power2::lemma_pow2_adds((8 * (n - 1)) as nat, m);
    vstd::arithmetic::power2::lemma_pow2_pos((m - 1) as nat);
    vstd::arithmetic::power2::lemma_pow2_pos(m);
    assert(pow2((8 * (n - 1) + (m - 1)) as nat) <= le_val(s)) by (nonlinear_arith)
        requires
            le_val(s) == a + w * top,
            a >= 0,
            pow2((m - 1) as nat) <= top,
            w > 0,
            pow2((8 * (n - 1) + (m - 1)) as nat) == w * pow2((m - 1) as nat),
    ;
    assert(le_val(s) < pow2((8 * (n - 1) + m) as nat)) by (nonlinear_arith)
        requires
            le_val(s) == a + w * top,
            a < w,
            top < pow2(m),
            w > 0,
            pow2((8 * (n - 1) + m) as nat) == w * pow2(m),
    ;
    lemma_nbits_from_range(le_val(s), (8 * (n - 1) + m) as nat);
}

/// The bit length of a byte.
pub fn u8_bits(x: u8) -> (r: u8)
    ensures
        r as nat == nbits(x as nat),
        r <= 8,
{
    proof {
        assert(pow2(8) == 256) by {
            vstd::arithmetic::power2::lemma2_to64();
        }
        lemma_nbits_bound(x as nat, 8);
    }
    let mut v: u8 = x;
    let mut c: u8 = 0;
    while v > 0
        invariant
            c as nat + nbits(v as nat) == nbits(x as nat),
            nbits(x as nat) <= 8,
        decreases v,
    {
        v = v / 2;
        c = c + 1;
    }
    c
}

/// Value of a little-endian sequence of 64-bit limbs.
pub open spec fn limbs_val(s: Seq<u64>) -> nat
    decreases s.len(),
{
    if s.len() == 0 {
        0
    } else {
        s[0] as nat + 0x10000000000000000 * limbs_val(s.subrange(1, s.len() as int))
    }
}

/// The canonical bytes of a number given as little-endian 64-bit limbs.
pub fn bytes_from_limbs(limbs: &Vec<u64>) -> (r: Vec<u8>)
    ensures
        le_val(r@) == limbs_val(limbs@),
        min_bytes(r@),
{
    let half = u64_to_min_bytes(0x8000000000000000);
    let base = big_add(&half, &half);
    assert(le_val(base@) == 0x10000000000000000);
    let mut acc = u64_to_min_bytes(0);
    let mut i: usize = limbs.len();
    while i > 0
        invariant
            i <= limbs@.len(),
            le_val(base@) == 0x10000000000000000,
            le_val(acc@) == limbs_val(limbs@.subrange(i as int, limbs@.len() as int)),
            min_bytes(acc@),
        decreases i,
    {
        i -= 1;
        let ghost pre = le_val(acc@) as int;
        let t = big_mul(&acc, &base);
        let u = u64_to_min_bytes(limbs[i]);
        acc = big_add(&t, &u);
        proof {
            let tail = limbs@.subrange(i + 1, limbs@.len() as int);
            let cur = limbs@.subrange(i as int, limbs@.len() as int);
            assert(cur.subrange(1, cur.len() as int) =~= tail);
            assert(limbs_val(cur) == cur[0] as nat + 0x10000000000000000 * limbs_val(tail));
            assert(le_val(acc@) == limbs[i as int] as nat + pre * 0x10000000000000000);
            assert(pre * 0x10000000000000000 == 0x10000000000000000 * pre);
        }
    }
    proof {
        assert(limbs@.subrange(0, limbs@.len() as int) =~= limbs@);
    }
    acc
}

/// A fresh copy of a byte vector.
pub fn copy_bytes(v: &Vec<u8>) -> (r: Vec<u8>)
    ensures
        r@ == v@,
{
    let mut out: Vec<u8> = Vec::new();
    let mut i: usize = 0;
    while i < v.len()
        invariant
            i <= v@.len(),
            out@ == v@.subrange(0, i as int),
        decreases v@.len() - i,
    {
        out.push(v[i]);
        i += 1;
        proof {
            assert(out@ =~= v@.subrange(0, i as int));
        }
    }
    proof {
        assert(out@ =~= v@);
    }
    out
}

/// Byte-for-byte equality of two vectors.
pub fn bytes_eq(a: &Vec<u8>, b: &Vec<u8>) -> (r: bool)
    ensures
        r == (a@ == b@),
{
    if a.len() != b.len() {
        return false;
    }
    let mut i: usize = 0;
    while i < a.len()
        invariant
            i <= a.len(),
            a@.len() == b@.len(),
            forall|j: int| 0 <= j < i ==> a@[j] == b@[j],
        decreases a.len() - i,
    {
        if a[i] != b[i] {
            return false;
        }
        i += 1;
    }
    proof {
        assert(a@ =~= b@);
    }
    true
}

/// Relies on `num_bigint::BigUint` addition: the sum of the two integer
/// values, returned in canonical little-endian bytes.
#[verifier::external_body]
pub fn big_add(a: &Vec<u8>, b: &Vec<u8>) -> (r: Vec<u8>)
    ensures
        le_val(r@) == le_val(a@) + le_val(b@),
        min_bytes(r@),
{
    let x = num_bigint::BigUint::from_bytes_le(a.as_slice())
        + num_bigint::BigUint::from_bytes_le(b.as_slice());
    x.to_bytes_le()
}

/// Relies on `num_bigint::BigUint` subtraction, which requires the
/// difference to be non-negative.
#[verifier::external_body]
pub fn big_sub(a: &Vec<u8>, b: &Vec<u8>) -> (r: Vec<u8>)
    requires
        le_val(b@) <= le_val(a@),
    ensures
        le_val(r@) == le_val(a@) - le_val(b@),
        min_bytes(r@),
{
    let x = num_bigint::BigUint::from_bytes_le(a.as_slice())
        - num_bigint::BigUint::from_bytes_le(b.as_slice());
    x.to_bytes_le()
}

/// Relies on `num_bigint::BigUint` multiplication.
#[verifier::external_body]
pub fn big_mul(a: &Vec<u8>, b: &Vec<u8>) -> (r: Vec<u8>)
    ensures
        le_val(r@) == le_val(a@) * le_val(b@),
        min_bytes(r@),
{
    let x = num_bigint::BigUint::from_bytes_le(a.as_slice())
        * num_bigint::BigUint::from_bytes_le(b.as_slice());
    x.to_bytes_le()
}

/// Relies on `num_bigint::BigUint` remainder, which requires a nonzero
/// divisor.
#[verifier::external_body]
pub fn big_rem(a: &Vec<u8>, m: &Vec<u8>) -> (r: Vec<u8>)
    requires
        le_val(m@) > 0,
    ensures
        le_val(r@) == le_val(a@) % le_val(m@),
        min_bytes(r@),
{
    let x = num_bigint::BigUint::from_bytes_le(a.as_slice())
        % num_bigint::BigUint::from_bytes_le(m.as_slice());
    x.to_bytes_le()
}

/// Relies on `num_bigint::BigUint::modpow`: `b^e mod m`, with a nonzero
/// modulus.
#[verifier::external_body]
pub fn big_modpow(b: &Vec<u8>, e: &Vec<u8>, m: &Vec<u8>) -> (r: Vec<u8>)
    requires
        le_val(m@) > 0,
    ensures
        le_val(r@) == pow_mod(le_val(b@), le_val(e@), le_val(m@)),
        min_bytes(r@),
{
    let x = num_bigint::BigUint::from_bytes_le(b.as_slice()).modpow(
        &num_bigint::BigUint::from_bytes_le(e.as_slice()),
        &num_bigint::BigUint::from_bytes_le(m.as_slice()),
    );
    x.to_bytes_le()
}

/// Relies on the `num_bigint::BigUint` ordering, which is the integer order.
#[verifier::external_body]
pub fn big_lt(a: &Vec<u8>, b: &Vec<u8>) -> (r: bool)
    ensures
        r == (le_val(a@) < le_val(b@)),
{
    num_bigint::BigUint::from_bytes_le(a.as_slice()) < num_bigint::BigUint::from_bytes_le(
        b.as_slice(),
    )
}

} // verus!
