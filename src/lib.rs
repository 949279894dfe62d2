//! Finite hyperstructures: bit-packed tags of hyperoperation tables, axiom checks,
//! the symmetric group acting on tables, the beta relation and searches over tags.
pub mod bits;
pub mod codec;
pub mod enumeration;
pub mod error;
pub mod hs;
pub mod hypergroups;
pub mod outside;
pub mod perm;
pub mod relations;
pub mod search;
pub mod utilities;
pub mod wide;
