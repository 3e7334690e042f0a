//! The hash oracle: a deterministic map from byte strings to fixed-width
//! digests, supplied to the tree operations as a capability.
use vstd::prelude::*;

verus! {

/// A one-way function from byte strings to digests of one fixed width.
///
/// `spec_digest` is the mathematical function; `digest` computes it.
pub trait HashOracle {
    /// The digest of `data`.
    spec fn spec_digest(&self, data: Seq<u8>) -> Seq<u8>;

    /// The width, in bytes, of every digest.
    spec fn width(&self) -> nat;

    /// Every digest has the oracle's width.
    proof fn lemma_digest_width(&self, data: Seq<u8>)
        ensures
            self.spec_digest(data).len() == self.width(),
    ;

    /// Computes the digest of `data`.
    fn digest(&self, data: &[u8]) -> (r: Vec<u8>)
        ensures
            r@ == self.spec_digest(data@),
    ;
}

/// The value that std's default hasher, freshly made, gives for a byte
/// string.
pub uninterp spec fn std_hash_of(data: Seq<u8>) -> u64;

/// The eight bytes of `x`, least significant first.
pub open spec fn u64_le_bytes(x: u64) -> Seq<u8> {
    Seq::new(8, |i: int| (x >> ((8 * i) as u64)) as u8)
}

/// The digest that [`hash`] computes: std's default hash, as eight bytes.
pub open spec fn std_digest(data: Seq<u8>) -> Seq<u8> {
    u64_le_bytes(std_hash_of(data))
}

/// Relies on `BuildHasher::hash_one` with the default-built
/// `std::collections::hash_map::DefaultHasher`: that hasher is unkeyed (every
/// one made by `new` or `default` is the same), so the value depends on the
/// bytes alone.
#[verifier::external_body]
fn default_hasher_value(data: &[u8]) -> (r: u64)
    ensures
        r == std_hash_of(data@),
{
    let builder = std::hash::BuildHasherDefault::<std::collections::hash_map::DefaultHasher>::default();
    std::hash::BuildHasher::hash_one(&builder, data)
}

/// The eight bytes of `x`, least significant first.
fn u64_to_le_bytes(x: u64) -> (r: Vec<u8>)
    ensures
        r@ == u64_le_bytes(x),
{
    let mut r: Vec<u8> = Vec::new();
    let mut i: u64 = 0;
    while i < 8
        invariant
            i <= 8,
            r@.len() == i,
            forall|k: int| 0 <= k < i ==> r@[k] == (x >> ((8 * k) as u64)) as u8,
        decreases 8 - i,
    {
        r.push((x >> (8 * i)) as u8);
        i = i + 1;
    }
    assert(r@ =~= u64_le_bytes(x));
    r
}

/// Hashes `data` with std's default hasher and returns the 64-bit value as
/// eight bytes, least significant first.
///
/// This is a fast, non-cryptographic digest: collisions can be found with
/// little effort, so a tree built on it is no binding commitment. It serves
/// testing and demonstration; use a cryptographic oracle otherwise.
pub fn hash(data: &[u8]) -> (r: Vec<u8>)
    ensures
        r@ == std_digest(data@),
{
    let v = default_hasher_value(data);
    u64_to_le_bytes(v)
}

/// The oracle backed by [`hash`]: eight-byte digests from std's default
/// hasher. Not collision resistant.
#[derive(Clone, Copy, Debug)]
pub struct StdHash;

impl HashOracle for StdHash {
    open spec fn spec_digest(&self, data: Seq<u8>) -> Seq<u8> {
        std_digest(data)
    }

    open spec fn width(&self) -> nat {
        8
    }

    proof fn lemma_digest_width(&self, data: Seq<u8>) {
    }

    fn digest(&self, data: &[u8]) -> (r: Vec<u8>) {
        hash(data)
    }
}

} // verus!
