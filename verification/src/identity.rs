use vstd::prelude::*;

verus! {

/// The identifier derived from a feed URL's text: a fixed digest, the same
/// for the same text in every run.
pub uninterp spec fn feed_id_of(url: Seq<char>) -> u64;

/// Derives the stable catalog identifier for a feed URL.
///
/// Relies on std's DefaultHasher, through DefaultHasher::new, str::hash and
/// Hasher::finish: `new` seeds the hasher with fixed keys, so the digest
/// depends on the hashed text alone.
#[verifier::external_body]
pub fn assign(url: &str) -> (r: u64)
    ensures
        r == feed_id_of(url@),
{
    let mut hasher = std::collections::hash_map::DefaultHasher::new();
    std::hash::Hash::hash(url, &mut hasher);
    std::hash::Hasher::finish(&hasher)
}

/// Identity is deterministic: two derivations from the same URL text give
/// the same identifier.
pub proof fn lemma_identity_deterministic(u: Seq<char>, a: u64, b: u64)
    requires
        a == feed_id_of(u),
        b == feed_id_of(u),
    ensures
        a == b,
{
}

} // verus!
