//! Exact minimum set cover by branch and bound over packed bit-vectors.
pub mod bitset;
pub mod cover;
pub mod completion;
pub mod search;
pub mod instance;
