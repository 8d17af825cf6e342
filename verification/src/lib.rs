//! Local synchronization and Bloom-digest construction for a node that hosts
//! several agents inside one shared space.
//!
//! Before a node can gossip efficiently with remote peers, its own local
//! agents must agree on what they hold. This crate collects each local
//! agent's known record keys, reconciles the differences by direct in-process
//! delivery, and summarises the converged key set in a Bloom filter at a
//! fixed one-percent false-positive target for the following remote round.

pub mod bloom;
pub mod keys;
pub mod source;
pub mod store;
pub mod sync;

use vstd::prelude::*;

verus! {

/// Equality of two byte vectors, decided by their contents.
pub fn bytes_eq(a: &Vec<u8>, b: &Vec<u8>) -> (r: bool)
    ensures
        r <==> a@ == b@,
{
    if a.len() != b.len() {
        return false;
    }
    let mut i: usize = 0;
    while i < a.len()
        invariant
            0 <= i <= a.len(),
            a.len() == b.len(),
            forall|t: int| 0 <= t < i ==> a@[t] == b@[t],
        decreases a.len() - i,
    {
        if a[i] != b[i] {
            return false;
        }
        i = i + 1;
    }
    proof {
        assert(a@ =~= b@);
    }
    true
}

/// A fresh byte vector with the same contents.
pub fn clone_bytes(v: &Vec<u8>) -> (r: Vec<u8>)
    ensures
        r@ == v@,
{
    let mut out: Vec<u8> = Vec::new();
    let mut i: usize = 0;
    while i < v.len()
        invariant
            0 <= i <= v.len(),
            out@ == v@.take(i as int),
        decreases v.len() - i,
    {
        out.push(v[i]);
        proof {
            assert(out@ =~= v@.take(i + 1 as int));
        }
        i = i + 1;
    }
    proof {
        assert(v@.take(v@.len() as int) =~= v@);
    }
    out
}

} // verus!
