pub mod caches;
pub mod codec;
pub mod config;
pub mod crypto;
pub mod dedupe;
pub mod event;
pub mod framing;
pub mod hexutil;
pub mod kvmap;
pub mod laws;
pub mod relay;
pub mod router;
pub mod store;
pub mod subscription;
pub mod text;

use vstd::prelude::*;

verus! {

/// The smaller of two sizes; used when draining a batch from the pending buffer.
pub fn min_usize(a: usize, b: usize) -> (r: usize)
    ensures
        r == if a <= b { a as int } else { b as int },
{
    if a <= b {
        a
    } else {
        b
    }
}

} // verus!
