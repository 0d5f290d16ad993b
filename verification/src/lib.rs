//! Elliptic-curve primitives over the 420-bit prime field GF(2^420 - 335):
//! a twisted Edwards model with Schnorr-style signatures (plain, blind and
//! partially blind), a Montgomery ladder for u-only Diffie-Hellman, and a
//! prime-order wrapper with a canonical point encoding.

pub mod bignum;
pub mod scalar;
pub mod field;
pub mod curve;
pub mod montgomery;
pub mod ristretto;
pub mod schnorr;
