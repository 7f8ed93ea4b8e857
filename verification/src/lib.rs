//! Paillier's additively homomorphic public-key cryptosystem over
//! arbitrary-precision integers.

pub mod arith;
pub mod big;
pub mod bigint_extensions;
pub mod homomorphism;
pub mod key_pair;
pub mod key_pair_builder;
pub mod prime;
pub mod private_key;
pub mod public_key;

pub use key_pair::KeyPair;
pub use key_pair_builder::{BuildError, KeyPairBuilder};
pub use private_key::PrivateKey;
pub use public_key::PublicKey;
