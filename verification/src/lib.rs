//! Private interval intersection: a Diffie-Hellman style set intersection,
//! an order-revealing encryption scheme over 32-bit values, and the plain
//! decisions around a homomorphic intersection of intervals.

pub mod bytes;
pub mod crypto;
pub mod dh;
pub mod interval;
pub mod psi;
pub mod ore;
pub mod fhe;
pub mod csv;
