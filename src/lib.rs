//! S-expression programs for a reduction-based virtual machine: canonical
//! serialization, structural tree hashing, integer encoding and currying.

pub mod api;
pub mod codec;
pub mod error;
pub mod hash;
pub mod hex;
pub mod integer;
pub mod tree;
pub mod vm;
