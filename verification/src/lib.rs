//! A 1024-bit elliptic-curve library: big integers, prime fields in
//! Montgomery form, short Weierstrass curves, and Schnorr and ECDSA signatures.
pub mod affine;
pub mod arith;
pub mod config;
mod ct;
pub mod curve_closure;
pub mod keypair;
pub mod montgomery;
pub mod prime_field;
pub mod projective;
pub mod projective_laws;
pub mod runtime_field;
pub mod signature;
pub mod signed_file;
pub mod u1024;

pub use affine::{AffinePoint, SWCurveConfig};
pub use config::{Curve1024BaseField, Curve1024Config, Curve1024ScalarField};
pub use keypair::KeyPair;
pub use prime_field::{PrimeFieldConfig, PrimeFieldElement};
pub use projective::ProjectivePoint;
pub use signature::{ecdsa::EcdsaSignature, schnorr::SchnorrSignature};
pub use u1024::U1024;
