//! Schnorr signatures over the Edwards curve: domain-separated challenge
//! hashing, key generation, signing and verification, and the blind and
//! partially-blind three-message protocols.

use vstd::prelude::*;
use sha2::{Digest, Sha512};
use num_bigint::RandBigInt;
use crate::bignum::{
    le_val, min_bytes, big_add, big_rem, big_sub, big_lt, u64_to_min_bytes, copy_bytes,
    lemma_le_val_injective,
};
use crate::scalar::Scalar;
use crate::field::FieldElement;
use crate::curve::{EdwardsPoint, EdPt, l_nat, gx_nat, gy_nat, base_point, l_order, spec_edwards_add, spec_edwards_neg, spec_edwards_mul};
use vstd::arithmetic::div_mod::{lemma_fundamental_div_mod, lemma_mod_bound};

verus! {

/// The Edwards base point, as a model value.
pub open spec fn g_pt() -> EdPt {
    EdPt::Aff(gx_nat(), gy_nat())
}

/// The 64-byte SHA-512 digest of a byte sequence.  Named, not stated: the
/// trusted wrapper below ties it to the outside implementation.
pub uninterp spec fn sha512_of(data: Seq<u8>) -> Seq<u8>;

/// Relies on sha2::Sha512: the digest is 64 bytes and a function of the
/// input bytes alone.
#[verifier::external_body]
fn sha512(data: &Vec<u8>) -> (r: Vec<u8>)
    ensures
        r@ == sha512_of(data@),
        r@.len() == 64,
{
    Sha512::digest(data.as_slice()).to_vec()
}

/// Relies on rand::thread_rng for the process-local random generator.
#[verifier::external_body]
fn new_rng() -> rand::rngs::ThreadRng {
    rand::thread_rng()
}

/// Declares rand's ThreadRng so that generator state can cross the
/// trusted boundary; nothing is assumed of its values.
#[verifier::external_type_specification]
#[verifier::external_body]
pub struct ExThreadRng(rand::rngs::ThreadRng);

/// Relies on num_bigint's RandBigInt::gen_biguint_range: a draw uniform in
/// [lo, hi), defined only for lo < hi.
#[verifier::external_body]
fn rng_range(rng: &mut rand::rngs::ThreadRng, lo: &Vec<u8>, hi: &Vec<u8>) -> (r: Vec<u8>)
    requires
        le_val(lo@) < le_val(hi@),
    ensures
        le_val(lo@) <= le_val(r@) < le_val(hi@),
        min_bytes(r@),
{
    let x = rng.gen_biguint_range(
        &num_bigint::BigUint::from_bytes_le(lo.as_slice()),
        &num_bigint::BigUint::from_bytes_le(hi.as_slice()),
    );
    x.to_bytes_le()
}

/// A signing secret: drawn uniformly from [1, L).
fn random_unit_scalar() -> (r: Scalar)
    ensures
        1 <= r@ < l_nat(),
{
    let mut rng = new_rng();
    let one = u64_to_min_bytes(1);
    let l = l_order();
    let b = rng_range(&mut rng, &one, l.bytes());
    Scalar::from_canonical(b)
}

/// The canonical little-endian bytes of a value, in the model.
pub open spec fn min_le_bytes(n: nat) -> Seq<u8>
    decreases n,
{
    if n < 256 {
        seq![n as u8]
    } else {
        seq![(n % 256) as u8].add(min_le_bytes(n / 256))
    }
}

/// `min_le_bytes` is the canonical representation of its value.
pub proof fn lemma_min_le_bytes(n: nat)
    ensures
        min_bytes(min_le_bytes(n)),
        le_val(min_le_bytes(n)) == n,
        n > 0 ==> min_le_bytes(n)[min_le_bytes(n).len() - 1] != 0,
    decreases n,
{
    if n < 256 {
        let s = min_le_bytes(n);
        assert(s.len() == 1);
        assert(le_val(s.subrange(1, 1)) == 0);
        assert(le_val(s) == s[0] as nat + 256 * le_val(s.subrange(1, 1)));
    } else {
        lemma_fundamental_div_mod(n as int, 256);
        assert(n / 256 > 0);
        lemma_min_le_bytes(n / 256);
        let s = min_le_bytes(n);
        let rest = min_le_bytes(n / 256);
        assert(s =~= seq![(n % 256) as u8].add(rest));
        assert(s.subrange(1, s.len() as int) =~= rest);
        assert(le_val(s) == s[0] as nat + 256 * le_val(s.subrange(1, s.len() as int)));
        assert(s[s.len() - 1] == rest[rest.len() - 1]);
    }
}

/// The big-endian bytes of a value: the canonical bytes, reversed.
pub open spec fn be_bytes(n: nat) -> Seq<u8> {
    min_le_bytes(n).reverse()
}

/// The hashed image of a sequence of points: for each point in order, the
/// big-endian x coordinate then the big-endian y coordinate.
pub open spec fn points_bytes(ps: Seq<EdPt>) -> Seq<u8>
    decreases ps.len(),
{
    if ps.len() == 0 {
        Seq::empty()
    } else {
        points_bytes(ps.drop_last()) + be_bytes(crate::ristretto::spec_coords(ps.last()).0)
            + be_bytes(crate::ristretto::spec_coords(ps.last()).1)
    }
}

/// The domain-separation tag of the plain Schnorr challenge hash.
pub open spec fn h1_tag() -> Seq<u8> {
    seq![101u8, 100, 52, 50, 48, 45, 115, 99, 104, 110, 111, 114, 114, 45, 118, 49]
}

/// The domain-separation tag of the partially-blind challenge hash.
pub open spec fn h2_tag() -> Seq<u8> {
    seq![101u8, 100, 52, 50, 48, 45, 112, 97, 114, 116, 105, 97, 108, 108, 121, 45, 98, 108, 105, 110, 100, 45, 115, 99, 104, 110, 111, 114, 114, 45, 118, 49]
}

/// The value of a big-endian byte sequence.
pub open spec fn be_val(s: Seq<u8>) -> nat {
    le_val(s.reverse())
}

/// The plain Schnorr challenge: SHA-512 over the tag, the points and the
/// message, read big-endian and reduced mod L.
pub open spec fn spec_h1(ps: Seq<EdPt>, msg: Seq<u8>) -> nat {
    be_val(sha512_of(h1_tag() + points_bytes(ps) + msg)) % l_nat()
}

/// The partially-blind challenge: as `spec_h1`, with the info bytes bound
/// in after the message, under its own tag.
pub open spec fn spec_h2(ps: Seq<EdPt>, msg: Seq<u8>, info: Seq<u8>) -> nat {
    be_val(sha512_of(h2_tag() + points_bytes(ps) + msg + info)) % l_nat()
}

/// Append a slice to a buffer.
fn push_bytes(buf: &mut Vec<u8>, src: &[u8])
    ensures
        final(buf)@ == old(buf)@ + src@,
{
    let mut i: usize = 0;
    while i < src.len()
        invariant
            i <= src@.len(),
            buf@ == old(buf)@ + src@.subrange(0, i as int),
        decreases src@.len() - i,
    {
        buf.push(src[i]);
        i += 1;
        proof {
            assert(buf@ =~= old(buf)@ + src@.subrange(0, i as int));
        }
    }
    proof {
        assert(buf@ =~= old(buf)@ + src@);
    }
}

/// A byte vector, reversed.
fn rev_bytes(v: &Vec<u8>) -> (r: Vec<u8>)
    ensures
        r@ == v@.reverse(),
{
    let mut out: Vec<u8> = Vec::new();
    let mut i: usize = v.len();
    while i > 0
        invariant
            i <= v@.len(),
            out@.len() == v@.len() - i,
            forall|k: int| 0 <= k < out@.len() ==> out@[k] == v@[v@.len() - 1 - k],
        decreases i,
    {
        i -= 1;
        out.push(v[i]);
    }
    proof {
        assert(out@ =~= v@.reverse());
    }
    out
}

/// The big-endian bytes of a field element, as hashed.
fn fe_be_bytes(x: &FieldElement) -> (r: Vec<u8>)
    ensures
        r@ == be_bytes(x@),
{
    let s = x.to_biguint();
    let le = s.to_le_bytes();
    proof {
        lemma_min_le_bytes(x@);
        lemma_le_val_injective(le@, min_le_bytes(x@));
    }
    rev_bytes(&le)
}

/// Append both big-endian coordinates of a point to the hash buffer.
fn push_point(buf: &mut Vec<u8>, p: &EdwardsPoint)
    ensures
        final(buf)@ == old(buf)@ + be_bytes(crate::ristretto::spec_coords(p@).0) + be_bytes(
            crate::ristretto::spec_coords(p@).1,
        ),
{
    let (x, y) = p.coords();
    let xb = fe_be_bytes(&x);
    let yb = fe_be_bytes(&y);
    push_bytes(buf, xb.as_slice());
    push_bytes(buf, yb.as_slice());
}

/// Reduce the digest bytes, read big-endian, modulo L.
fn digest_mod_l(digest: &Vec<u8>) -> (r: Scalar)
    ensures
        r@ == be_val(digest@) % l_nat(),
{
    let le = rev_bytes(digest);
    let l = l_order();
    let m = big_rem(&le, l.bytes());
    proof {
        lemma_mod_bound(le_val(le@) as int, l_nat() as int);
    }
    Scalar::from_canonical(m)
}

/// Hash (points, message) to a challenge scalar mod L under the plain
/// Schnorr domain tag.
pub fn hash_points_and_message(points: &[EdwardsPoint], msg: &[u8]) -> (r: Scalar)
    ensures
        r@ == spec_h1(points@.map_values(|p: EdwardsPoint| p@), msg@),
{
    let ghost views = points@.map_values(|p: EdwardsPoint| p@);
    let mut buf: Vec<u8> = vec![101u8, 100, 52, 50, 48, 45, 115, 99, 104, 110, 111, 114, 114, 45, 118, 49];
    proof {
        assert(buf@ =~= h1_tag());
        assert(views.subrange(0, 0) =~= Seq::<EdPt>::empty());
    }
    let mut i: usize = 0;
    while i < points.len()
        invariant
            i <= points@.len(),
            views == points@.map_values(|p: EdwardsPoint| p@),
            views.len() == points@.len(),
            buf@ == h1_tag() + points_bytes(views.subrange(0, i as int)),
        decreases points@.len() - i,
    {
        push_point(&mut buf, &points[i]);
        i += 1;
        proof {
            let pre = views.subrange(0, i - 1);
            let cur = views.subrange(0, i as int);
            assert(cur.drop_last() =~= pre);
            assert(cur.last() == views[i - 1]);
            assert(buf@ =~= h1_tag() + points_bytes(cur));
        }
    }
    push_bytes(&mut buf, msg);
    proof {
        assert(views.subrange(0, views.len() as int) =~= views);
        assert(buf@ =~= h1_tag() + points_bytes(views) + msg@);
    }
    let digest = sha512(&buf);
    digest_mod_l(&digest)
}

/// Hash (points, message, info) to a challenge scalar mod L under the
/// partially-blind domain tag.
pub fn hash_points_message_and_info(points: &[EdwardsPoint], msg: &[u8], info: &[u8]) -> (r: Scalar)
    ensures
        r@ == spec_h2(points@.map_values(|p: EdwardsPoint| p@), msg@, info@),
{
    let ghost views = points@.map_values(|p: EdwardsPoint| p@);
    let mut buf: Vec<u8> = vec![101u8, 100, 52, 50, 48, 45, 112, 97, 114, 116, 105, 97, 108, 108, 121, 45, 98, 108, 105, 110, 100, 45, 115, 99, 104, 110, 111, 114, 114, 45, 118, 49];
    proof {
        assert(buf@ =~= h2_tag());
        assert(views.subrange(0, 0) =~= Seq::<EdPt>::empty());
    }
    let mut i: usize = 0;
    while i < points.len()
        invariant
            i <= points@.len(),
            views == points@.map_values(|p: EdwardsPoint| p@),
            views.len() == points@.len(),
            buf@ == h2_tag() + points_bytes(views.subrange(0, i as int)),
        decreases points@.len() - i,
    {
        push_point(&mut buf, &points[i]);
        i += 1;
        proof {
            let pre = views.subrange(0, i - 1);
            let cur = views.subrange(0, i as int);
            assert(cur.drop_last() =~= pre);
            assert(cur.last() == views[i - 1]);
            assert(buf@ =~= h2_tag() + points_bytes(cur));
        }
    }
    push_bytes(&mut buf, msg);
    push_bytes(&mut buf, info);
    proof {
        assert(views.subrange(0, views.len() as int) =~= views);
        assert(buf@ =~= h2_tag() + points_bytes(views) + msg@ + info@);
    }
    let digest = sha512(&buf);
    digest_mod_l(&digest)
}

/// x mod L.
pub fn mod_l(x: &Scalar) -> (r: Scalar)
    ensures
        r@ == x@ % l_nat(),
{
    let l = l_order();
    let m = big_rem(x.bytes(), l.bytes());
    proof {
        lemma_mod_bound(x@ as int, l_nat() as int);
    }
    Scalar::from_canonical(m)
}

/// (a + b) mod L.
pub fn add_mod_l(a: &Scalar, b: &Scalar) -> (r: Scalar)
    ensures
        r@ == (a@ + b@) % l_nat(),
{
    let s = big_add(a.bytes(), b.bytes());
    let l = l_order();
    let m = big_rem(&s, l.bytes());
    proof {
        lemma_mod_bound((a@ + b@) as int, l_nat() as int);
    }
    Scalar::from_canonical(m)
}

/// a - b, or L + a - b when a < b: the difference mod L, for canonical
/// inputs below L.
pub fn sub_mod_l(a: &Scalar, b: &Scalar) -> (r: Scalar)
    requires
        b@ <= l_nat() + a@,
    ensures
        r@ == (if b@ <= a@ {
            (a@ - b@) as nat
        } else {
            (l_nat() + a@ - b@) as nat
        }),
{
    if big_lt(a.bytes(), b.bytes()) {
        let l = l_order();
        let t = big_add(l.bytes(), a.bytes());
        let d = big_sub(&t, b.bytes());
        Scalar::from_canonical(d)
    } else {
        let d = big_sub(a.bytes(), b.bytes());
        Scalar::from_canonical(d)
    }
}

/// e * sk, unreduced.
fn scalar_mul(a: &Scalar, b: &Scalar) -> (r: Scalar)
    ensures
        r@ == a@ * b@,
{
    Scalar::from_canonical(crate::bignum::big_mul(a.bytes(), b.bytes()))
}

/// Draw a key pair: sk uniform in [1, L), pk = sk * G.
pub fn keygen() -> (r: (Scalar, EdwardsPoint))
    ensures
        1 <= r.0@ < l_nat(),
        r.1@ == spec_edwards_mul(g_pt(), r.0@),
{
    let sk = random_unit_scalar();
    let pk = base_point().mul(&sk);
    (sk, pk)
}

/// A plain Schnorr signature: the commitment R and the response scalar s.
#[derive(Debug, PartialEq, Eq)]
pub struct Signature {
    pub r: EdwardsPoint,
    pub s: Scalar,
}

impl Clone for Signature {
    fn clone(&self) -> (r: Self)
        ensures
            r.r@ == self.r@,
            r.s@ == self.s@,
    {
        Signature { r: self.r.clone(), s: self.s.clone() }
    }
}

/// Sign with an explicit nonce k: R = k*G, e = H1([R, pk], msg),
/// s = (k + e*sk) mod L.
pub fn sign_with_nonce(sk: &Scalar, pk: &EdwardsPoint, msg: &[u8], k: &Scalar) -> (sig: Signature)
    ensures
        sig.r@ == spec_edwards_mul(g_pt(), k@),
        sig.s@ == (k@ + spec_h1(seq![sig.r@, pk@], msg@) * sk@) % l_nat(),
{
    let r = base_point().mul(k);
    let pts: Vec<EdwardsPoint> = vec![r.clone(), pk.clone()];
    proof {
        assert(pts@.map_values(|p: EdwardsPoint| p@) =~= seq![r@, pk@]);
    }
    let e = hash_points_and_message(pts.as_slice(), msg);
    let esk = scalar_mul(&e, sk);
    let s = add_mod_l(k, &esk);
    Signature { r, s }
}

/// Sign under a fresh random nonce from [1, L).
pub fn sign(sk: &Scalar, pk: &EdwardsPoint, msg: &[u8]) -> (sig: Signature)
    ensures
        exists|k: nat|
            1 <= k < l_nat() && sig.r@ == spec_edwards_mul(g_pt(), k) && sig.s@ == (k + spec_h1(
                seq![sig.r@, pk@],
                msg@,
            ) * sk@) % l_nat(),
{
    let k = random_unit_scalar();
    let sig = sign_with_nonce(sk, pk, msg, &k);
    proof {
        let kk = k@;
        assert(1 <= kk < l_nat() && sig.r@ == spec_edwards_mul(g_pt(), kk) && sig.s@ == (kk
            + spec_h1(seq![sig.r@, pk@], msg@) * sk@) % l_nat());
    }
    sig
}

/// What it means for a plain Schnorr signature to verify: s in [1, L) and
/// s*G = R + e*pk with e = H1([R, pk], msg).
pub open spec fn spec_verify(pk: EdPt, msg: Seq<u8>, sig_r: EdPt, sig_s: nat) -> bool {
    &&& sig_s != 0
    &&& sig_s < l_nat()
    &&& spec_edwards_mul(g_pt(), sig_s) == spec_edwards_add(
        sig_r,
        spec_edwards_mul(pk, spec_h1(seq![sig_r, pk], msg)),
    )
}

/// Verify a plain Schnorr signature.
pub fn verify(pk: &EdwardsPoint, msg: &[u8], sig: &Signature) -> (r: bool)
    ensures
        r == spec_verify(pk@, msg@, sig.r@, sig.s@),
{
    let l = l_order();
    if sig.s.is_zero() || !big_lt(sig.s.bytes(), l.bytes()) {
        return false;
    }
    let pts: Vec<EdwardsPoint> = vec![sig.r.clone(), pk.clone()];
    proof {
        assert(pts@.map_values(|p: EdwardsPoint| p@) =~= seq![sig.r@, pk@]);
    }
    let e = hash_points_and_message(pts.as_slice(), msg);
    let s_g = base_point().mul(&sig.s);
    let r_plus_e_pk = sig.r.add(&pk.mul(&e));
    s_g.equals(&r_plus_e_pk)
}

/// The signer's side of the blind-signing protocol: a single-use
/// commitment (k, R = k*G) next to the signing key.
pub struct BlindSignatureSigner {
    sk: Scalar,
    k: Scalar,
    pub r: EdwardsPoint,
}

impl BlindSignatureSigner {
    /// The signing key held by this signer.
    pub closed spec fn sk_spec(&self) -> nat {
        self.sk@
    }

    /// The committed nonce.
    pub closed spec fn k_spec(&self) -> nat {
        self.k@
    }

    /// The commitment point R = k*G.
    pub closed spec fn r_spec(&self) -> EdPt {
        self.r@
    }

    /// Commit with an explicit nonce k: R = k*G.
    pub fn new_with_nonce(sk: Scalar, _pk: EdwardsPoint, k: Scalar) -> (r: Self)
        ensures
            r.sk_spec() == sk@,
            r.k_spec() == k@,
            r.r_spec() == spec_edwards_mul(g_pt(), k@),
    {
        let r = base_point().mul(&k);
        BlindSignatureSigner { sk, k, r }
    }

    /// Commit with a fresh nonce from [1, L).
    pub fn new(sk: Scalar, pk: EdwardsPoint) -> (r: Self)
        ensures
            r.sk_spec() == sk@,
            1 <= r.k_spec() < l_nat(),
            r.r_spec() == spec_edwards_mul(g_pt(), r.k_spec()),
    {
        let k = random_unit_scalar();
        Self::new_with_nonce(sk, pk, k)
    }

    /// Answer a blinded challenge: s = (k + e_blinded * sk) mod L.  The
    /// commitment must be used at most once.
    pub fn sign(&self, e_blinded: &Scalar) -> (s: Scalar)
        ensures
            s@ == (self.k_spec() + e_blinded@ * self.sk_spec()) % l_nat(),
    {
        let t = scalar_mul(e_blinded, &self.sk);
        add_mod_l(&self.k, &t)
    }
}

/// The requester's side of the blind-signing protocol: blinding scalars
/// alpha and beta, the blinded commitment R' and the challenge e'.
pub struct BlindSignatureRequester {
    alpha: Scalar,
    beta: Scalar,
    pub signer_pk: EdwardsPoint,
    pub r_prime: EdwardsPoint,
    pub e_prime: Scalar,
}

impl BlindSignatureRequester {
    /// The blinding scalar added to the response.
    pub closed spec fn alpha_spec(&self) -> nat {
        self.alpha@
    }

    /// The blinding scalar subtracted from the challenge.
    pub closed spec fn beta_spec(&self) -> nat {
        self.beta@
    }

    /// The signer's public key.
    pub closed spec fn signer_pk_spec(&self) -> EdPt {
        self.signer_pk@
    }

    /// The blinded commitment R'.
    pub closed spec fn r_prime_spec(&self) -> EdPt {
        self.r_prime@
    }

    /// The challenge e' = H1([R', pk], msg).
    pub closed spec fn e_prime_spec(&self) -> nat {
        self.e_prime@
    }

    /// Blind with explicit alpha and beta: R' = R + alpha*G - beta*pk and
    /// e' = H1([R', pk], msg).
    pub fn new_with_blinding(
        signer_pk: EdwardsPoint,
        message: &[u8],
        r_from_signer: &EdwardsPoint,
        alpha: Scalar,
        beta: Scalar,
    ) -> (r: Self)
        ensures
            r.alpha_spec() == alpha@,
            r.beta_spec() == beta@,
            r.signer_pk_spec() == signer_pk@,
            r.r_prime_spec() == spec_edwards_add(
                spec_edwards_add(r_from_signer@, spec_edwards_mul(g_pt(), alpha@)),
                spec_edwards_neg(spec_edwards_mul(signer_pk@, beta@)),
            ),
            r.e_prime_spec() == spec_h1(seq![r.r_prime_spec(), signer_pk@], message@),
    {
        let r_prime = r_from_signer.add(&base_point().mul(&alpha)).sub(&signer_pk.mul(&beta));
        let pts: Vec<EdwardsPoint> = vec![r_prime.clone(), signer_pk.clone()];
        proof {
            assert(pts@.map_values(|p: EdwardsPoint| p@) =~= seq![r_prime@, signer_pk@]);
        }
        let e_prime = hash_points_and_message(pts.as_slice(), message);
        BlindSignatureRequester { alpha, beta, signer_pk, r_prime, e_prime }
    }

    /// Blind with fresh alpha and beta from [1, L).
    pub fn new(signer_pk: EdwardsPoint, message: &[u8], r_from_signer: &EdwardsPoint) -> (r: Self)
        ensures
            1 <= r.alpha_spec() < l_nat(),
            1 <= r.beta_spec() < l_nat(),
            r.signer_pk_spec() == signer_pk@,
            r.r_prime_spec() == spec_edwards_add(
                spec_edwards_add(r_from_signer@, spec_edwards_mul(g_pt(), r.alpha_spec())),
                spec_edwards_neg(spec_edwards_mul(signer_pk@, r.beta_spec())),
            ),
            r.e_prime_spec() == spec_h1(seq![r.r_prime_spec(), signer_pk@], message@),
    {
        let alpha = random_unit_scalar();
        let beta = random_unit_scalar();
        Self::new_with_blinding(signer_pk, message, r_from_signer, alpha, beta)
    }

    /// The blinded challenge e_blinded = (e' - beta) mod L.
    pub fn create_blinded_challenge(&self) -> (r: Scalar)
        requires
            self.beta_spec() <= l_nat() + self.e_prime_spec(),
        ensures
            r@ == (if self.beta_spec() <= self.e_prime_spec() {
                (self.e_prime_spec() - self.beta_spec()) as nat
            } else {
                (l_nat() + self.e_prime_spec() - self.beta_spec()) as nat
            }),
    {
        sub_mod_l(&self.e_prime, &self.beta)
    }

    /// Unblind the signer's response: the signature is (R', (s + alpha) mod L).
    pub fn unblind_signature(&self, s_from_signer: &Scalar) -> (sig: Signature)
        ensures
            sig.r@ == self.r_prime_spec(),
            sig.s@ == (s_from_signer@ + self.alpha_spec()) % l_nat(),
    {
        let s_prime = add_mod_l(s_from_signer, &self.alpha);
        Signature { r: self.r_prime.clone(), s: s_prime }
    }
}

/// Verify a blind signature: plain Schnorr verification of the unblinded
/// pair (R', s').
pub fn verify_blind_signature(pk: &EdwardsPoint, msg: &[u8], sig: &Signature) -> (r: bool)
    ensures
        r == spec_verify(pk@, msg@, sig.r@, sig.s@),
{
    verify(pk, msg, sig)
}

/// A partially-blind signature: (R, s) together with the public info tag
/// bound into its challenge.
#[derive(Debug, PartialEq, Eq)]
pub struct PartiallyBlindSignature {
    pub r: EdwardsPoint,
    pub s: Scalar,
    pub info: Vec<u8>,
}

impl Clone for PartiallyBlindSignature {
    fn clone(&self) -> (r: Self)
        ensures
            r.r@ == self.r@,
            r.s@ == self.s@,
            r.info@ == self.info@,
    {
        PartiallyBlindSignature {
            r: self.r.clone(),
            s: self.s.clone(),
            info: copy_bytes(&self.info),
        }
    }
}

/// The requester's side of the partially-blind protocol; the challenge
/// binds the public info tag.
pub struct PartiallyBlindSignatureRequester {
    alpha: Scalar,
    beta: Scalar,
    r_prime: EdwardsPoint,
    e_prime: Scalar,
    info: Vec<u8>,
}

impl PartiallyBlindSignatureRequester {
    /// The blinding scalar added to the response.
    pub closed spec fn alpha_spec(&self) -> nat {
        self.alpha@
    }

    /// The blinding scalar subtracted from the challenge.
    pub closed spec fn beta_spec(&self) -> nat {
        self.beta@
    }

    /// The blinded commitment R'.
    pub closed spec fn r_prime_spec(&self) -> EdPt {
        self.r_prime@
    }

    /// The challenge e' = H2([R', pk], msg, info).
    pub closed spec fn e_prime_spec(&self) -> nat {
        self.e_prime@
    }

    /// The public info tag.
    pub closed spec fn info_spec(&self) -> Seq<u8> {
        self.info@
    }

    /// Blind with explicit alpha and beta: R' = R + alpha*G - beta*pk and
    /// e' = H2([R', pk], msg, info).
    pub fn new_with_blinding(
        signer_pk: EdwardsPoint,
        message: &[u8],
        info: &[u8],
        r_from_signer: &EdwardsPoint,
        alpha: Scalar,
        beta: Scalar,
    ) -> (r: Self)
        ensures
            r.alpha_spec() == alpha@,
            r.beta_spec() == beta@,
            r.info_spec() == info@,
            r.r_prime_spec() == spec_edwards_add(
                spec_edwards_add(r_from_signer@, spec_edwards_mul(g_pt(), alpha@)),
                spec_edwards_neg(spec_edwards_mul(signer_pk@, beta@)),
            ),
            r.e_prime_spec() == spec_h2(seq![r.r_prime_spec(), signer_pk@], message@, info@),
    {
        let r_prime = r_from_signer.add(&base_point().mul(&alpha)).sub(&signer_pk.mul(&beta));
        let pts: Vec<EdwardsPoint> = vec![r_prime.clone(), signer_pk.clone()];
        proof {
            assert(pts@.map_values(|p: EdwardsPoint| p@) =~= seq![r_prime@, signer_pk@]);
        }
        let e_prime = hash_points_message_and_info(pts.as_slice(), message, info);
        let mut info_vec: Vec<u8> = Vec::new();
        push_bytes(&mut info_vec, info);
        proof {
            assert(info_vec@ =~= info@);
        }
        PartiallyBlindSignatureRequester { alpha, beta, r_prime, e_prime, info: info_vec }
    }

    /// Blind with fresh alpha and beta from [1, L).
    pub fn new(
        signer_pk: EdwardsPoint,
        message: &[u8],
        info: &[u8],
        r_from_signer: &EdwardsPoint,
    ) -> (r: Self)
        ensures
            1 <= r.alpha_spec() < l_nat(),
            1 <= r.beta_spec() < l_nat(),
            r.info_spec() == info@,
            r.r_prime_spec() == spec_edwards_add(
                spec_edwards_add(r_from_signer@, spec_edwards_mul(g_pt(), r.alpha_spec())),
                spec_edwards_neg(spec_edwards_mul(signer_pk@, r.beta_spec())),
            ),
            r.e_prime_spec() == spec_h2(seq![r.r_prime_spec(), signer_pk@], message@, info@),
    {
        let alpha = random_unit_scalar();
        let beta = random_unit_scalar();
        Self::new_with_blinding(signer_pk, message, info, r_from_signer, alpha, beta)
    }

    /// The blinded challenge e_blinded = (e' - beta) mod L.
    pub fn create_blinded_challenge(&self) -> (r: Scalar)
        requires
            self.beta_spec() <= l_nat() + self.e_prime_spec(),
        ensures
            r@ == (if self.beta_spec() <= self.e_prime_spec() {
                (self.e_prime_spec() - self.beta_spec()) as nat
            } else {
                (l_nat() + self.e_prime_spec() - self.beta_spec()) as nat
            }),
    {
        sub_mod_l(&self.e_prime, &self.beta)
    }

    /// Unblind: the signature is (R', (s + alpha) mod L, info).
    pub fn unblind_signature(&self, s_from_signer: &Scalar) -> (sig: PartiallyBlindSignature)
        ensures
            sig.r@ == self.r_prime_spec(),
            sig.s@ == (s_from_signer@ + self.alpha_spec()) % l_nat(),
            sig.info@ == self.info_spec(),
    {
        let s_prime = add_mod_l(s_from_signer, &self.alpha);
        PartiallyBlindSignature {
            r: self.r_prime.clone(),
            s: s_prime,
            info: copy_bytes(&self.info),
        }
    }
}

/// What it means for a partially-blind signature to verify: s in [1, L)
/// and s*G = R + e*pk with e = H2([R, pk], msg, info).
pub open spec fn spec_verify_partially_blind(
    pk: EdPt,
    msg: Seq<u8>,
    sig_r: EdPt,
    sig_s: nat,
    info: Seq<u8>,
) -> bool {
    &&& sig_s != 0
    &&& sig_s < l_nat()
    &&& spec_edwards_mul(g_pt(), sig_s) == spec_edwards_add(
        sig_r,
        spec_edwards_mul(pk, spec_h2(seq![sig_r, pk], msg, info)),
    )
}

/// Verify a partially-blind signature.
pub fn verify_partially_blind_signature(
    pk: &EdwardsPoint,
    msg: &[u8],
    sig: &PartiallyBlindSignature,
) -> (r: bool)
    ensures
        r == spec_verify_partially_blind(pk@, msg@, sig.r@, sig.s@, sig.info@),
{
    let l = l_order();
    if sig.s.is_zero() || !big_lt(sig.s.bytes(), l.bytes()) {
        return false;
    }
    let pts: Vec<EdwardsPoint> = vec![sig.r.clone(), pk.clone()];
    proof {
        assert(pts@.map_values(|p: EdwardsPoint| p@) =~= seq![sig.r@, pk@]);
    }
    let e = hash_points_message_and_info(pts.as_slice(), msg, sig.info.as_slice());
    let s_g = base_point().mul(&sig.s);
    let r_plus_e_pk = sig.r.add(&pk.mul(&e));
    s_g.equals(&r_plus_e_pk)
}

} // verus!
