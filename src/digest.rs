//! The digest engine: commitments to node contents, computed with the RPO hash.

use vstd::prelude::*;

use miden_core::crypto::hash::{Rpo256, RpoDigest};
use miden_core::Felt;

verus! {

/// A commitment of four field elements, each held in its canonical integer form.
#[derive(Debug, Clone, Copy, PartialEq, Eq, Structural)]
pub struct Digest {
    pub e0: u64,
    pub e1: u64,
    pub e2: u64,
    pub e3: u64,
}

/// The all-zero digest, which fills the unused half of a single-child combinator.
pub open spec fn zero_digest() -> Digest {
    Digest { e0: 0, e1: 0, e2: 0, e3: 0 }
}

/// Domain of a sequence combinator (the VM's `join` opcode).
pub const JOIN_DOMAIN: u8 = 0x57;

/// Domain of a conditional combinator (the VM's `split` opcode).
pub const SPLIT_DOMAIN: u8 = 0x54;

/// Domain of a loop combinator (the VM's `loop` opcode).
pub const LOOP_DOMAIN: u8 = 0x55;

/// Domain of a call combinator (the VM's `call` opcode).
pub const CALL_DOMAIN: u8 = 0x6c;

/// The RPO hash of a batch of operation codes, each taken as one field element.
pub uninterp spec fn hash_ops(ops: Seq<u8>) -> Digest;

/// The RPO hash of two digests in the given domain.
pub uninterp spec fn merge_in_domain(a: Digest, b: Digest, domain: u8) -> Digest;

impl Digest {
    /// The all-zero digest.
    pub fn zero() -> (r: Digest)
        ensures
            r == zero_digest(),
    {
        Digest { e0: 0, e1: 0, e2: 0, e3: 0 }
    }
}

/// Relies on `Rpo256::hash_elements`: hashes the operation codes, each as one field
/// element; the result depends on the codes alone.
#[verifier::external_body]
pub(crate) fn rpo_hash_ops(ops: &Vec<u8>) -> (r: Digest)
    ensures
        r == hash_ops(ops@),
{
    let elements: Vec<Felt> = ops.iter().map(|op| Felt::from(*op)).collect();
    let words: [u64; 4] = Rpo256::hash_elements(&elements).into();
    Digest { e0: words[0], e1: words[1], e2: words[2], e3: words[3] }
}

/// Relies on `Rpo256::merge_in_domain`: hashes two digests with the domain in the
/// capacity; the result depends on its three arguments alone.
#[verifier::external_body]
pub(crate) fn rpo_merge_in_domain(a: Digest, b: Digest, domain: u8) -> (r: Digest)
    ensures
        r == merge_in_domain(a, b, domain),
{
    let left = RpoDigest::new([Felt::new(a.e0), Felt::new(a.e1), Felt::new(a.e2), Felt::new(a.e3)]);
    let right = RpoDigest::new([Felt::new(b.e0), Felt::new(b.e1), Felt::new(b.e2), Felt::new(b.e3)]);
    let words: [u64; 4] = Rpo256::merge_in_domain(&[left, right], Felt::from(domain)).into();
    Digest { e0: words[0], e1: words[1], e2: words[2], e3: words[3] }
}

} // verus!
