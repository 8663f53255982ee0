//! Domain-separated hashing, supplied by the caller.
//!
//! The digest function lives outside this crate: whoever runs the logic
//! hands it in as a function of a domain and the byte strings to hash.
//! Contracts speak of its result through [`digest_of`].

use vstd::prelude::*;

use crate::ids::Digest32;
use crate::ordered::views;

verus! {

/// What a digest is taken for; digests of different domains never meet.
#[derive(Clone, Copy, Debug, PartialEq, Eq, Hash, Structural)]
pub enum HashDomain {
    /// Dependency paths of commands.
    DependencyPath,
    /// Journal batches, recovery reports and their pages.
    JournalBatch,
    /// Command identities.
    CommandId,
    /// Admission receipts.
    AdmissionReceipt,
}

/// `r` is a digest `hash` may give for these byte strings.
pub open spec fn hashes_to<H: Fn(HashDomain, Vec<Vec<u8>>) -> Digest32>(
    hash: H,
    domain: HashDomain,
    parts: Seq<Seq<u8>>,
    r: Digest32,
) -> bool {
    exists|p: Vec<Vec<u8>>| #[trigger] views(p@) == parts && call_ensures(hash, (domain, p), r)
}

/// `hash` can be called on anything, and equal inputs give equal digests.
pub open spec fn is_hash<H: Fn(HashDomain, Vec<Vec<u8>>) -> Digest32>(hash: H) -> bool {
    &&& forall|domain: HashDomain, p: Vec<Vec<u8>>| #[trigger] call_requires(hash, (domain, p))
    &&& forall|domain: HashDomain, parts: Seq<Seq<u8>>, a: Digest32, b: Digest32|
        #[trigger] hashes_to(hash, domain, parts, a) && #[trigger] hashes_to(hash, domain, parts, b)
            ==> a == b
}

/// The digest of these byte strings.
pub closed spec fn digest_of<H: Fn(HashDomain, Vec<Vec<u8>>) -> Digest32>(
    hash: H,
    domain: HashDomain,
    parts: Seq<Seq<u8>>,
) -> Digest32 {
    choose|r: Digest32| hashes_to(hash, domain, parts, r)
}

/// What a call of `hash` gives back is the digest.
pub proof fn lemma_digest_of<H: Fn(HashDomain, Vec<Vec<u8>>) -> Digest32>(
    hash: H,
    domain: HashDomain,
    parts: Vec<Vec<u8>>,
    r: Digest32,
)
    requires
        is_hash(hash),
        call_ensures(hash, (domain, parts), r),
    ensures
        r == digest_of(hash, domain, views(parts@)),
{
    assert(hashes_to(hash, domain, views(parts@), r));
    let d = digest_of(hash, domain, views(parts@));
    assert(hashes_to(hash, domain, views(parts@), d));
}

/// Take the digest of these byte strings.
pub fn digest<H: Fn(HashDomain, Vec<Vec<u8>>) -> Digest32>(
    hash: &H,
    domain: HashDomain,
    parts: Vec<Vec<u8>>,
) -> (r: Digest32)
    requires
        is_hash(*hash),
    ensures
        r == digest_of(*hash, domain, views(parts@)),
{
    let ghost p = parts;
    let r = hash(domain, parts);
    proof {
        lemma_digest_of(*hash, domain, p, r);
    }
    r
}

} // verus!
