use vstd::prelude::*;

pub mod block;
pub mod cache;
pub mod codec;
pub mod hashing;
pub mod laws;

verus! {

/// Number of bytes in a content digest.
pub const DIGEST_LEN: usize = 32;

} // verus!
