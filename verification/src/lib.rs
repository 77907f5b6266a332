//! SHRINCS hash-based signatures with verified building blocks.
//!
//! Every hash is SHA-256, handed in by the caller as a function from bytes to
//! a 32-byte digest; the contracts speak of what that function gives.
//!
//! Three parameter sets are provided as marker types implementing
//! [`Params`]: [`SHRINCS_L`], [`SHRINCS_B`] (the recommended default, with the
//! smallest signatures) and [`SHRINCS_B32`].

pub mod address;
pub mod constants;
pub mod hash;
pub mod wots_c;
pub mod xmss;
pub mod uxmss;
pub mod shrincs;
pub mod pors_fp;
pub mod pors_recovery;
pub mod rng;
pub mod wasm;
pub mod hexargs;

pub use constants::{Params, SHRINCS_B, SHRINCS_B32, SHRINCS_L};
pub use shrincs::{
    key_gen, restore, sign_stateful, sign_stateless, verify, verify_stateful, verify_stateless,
    PublicKey, SecretKey, State,
};
