//! A consistent-hashing ring: weighted nodes are placed at hashed points of a
//! 64-bit circle, and a key is served by the node at the first point at or
//! after the key's own hash, wrapping past the largest point to the smallest.

pub mod hashing;
pub mod model;
pub mod order;
pub mod ring;

pub use ring::Consistent;
pub use ring::RingError;
