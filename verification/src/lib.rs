//! In-memory result columns of a database driver: typed storage, zero-copy
//! views, type casts and the binary wire codec.

pub mod binary;
pub mod column;
pub mod decimal;
pub mod errors;
pub mod naming;
pub mod roundtrip;
pub mod shared;
pub mod types;
pub mod value;
pub mod wire;
