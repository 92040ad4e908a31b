//! Collision search for a truncated cryptographic hash, by Pollard's rho
//! method with distinguished points.
//!
//! The search iterates a deterministic walk function (encode a digest as a
//! message, hash it, truncate) from random starting digests until a sparse
//! distinguished point is reached, records the resulting trails in a
//! rendezvous table keyed by endpoint, and, once two trails share an
//! endpoint, replays both to recover the exact pair of distinct digests
//! whose walk outputs collide.

pub mod config;
pub mod digest;
pub mod refine;
pub mod rendezvous;
pub mod trail;
pub mod walk;
