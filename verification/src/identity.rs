//! Node identity: a deterministic, platform-stable 32-bit identifier
//! computed from a node's title.

use vstd::prelude::*;

verus! {

/// What `murmur3::murmur3_32`, with seed zero, computes of a byte sequence.
pub uninterp spec fn murmur3_of(bytes: Seq<u8>) -> u32;

/// The stable identifier of a title: the 32-bit murmur3 hash (seed zero) of
/// its UTF-8 byte representation.
pub open spec fn compute_id_spec(title: Seq<char>) -> u32 {
    murmur3_of(vstd::utf8::encode_utf8(title))
}

/// Relies on `murmur3::murmur3_32` with seed zero, fed from an in-memory
/// cursor: the hash is a pure function of the bytes read, and reading from a
/// cursor cannot fail.
#[verifier::external_body]
fn murmur3_hash(bytes: &[u8]) -> (r: u32)
    ensures
        r == murmur3_of(bytes@),
{
    let mut reader = std::io::Cursor::new(bytes);
    murmur3::murmur3_32(&mut reader, 0).unwrap_or(0)
}

/// The id of a node title: deterministic, total, side-effect-free.
pub fn compute_id(title: &str) -> (r: u32)
    ensures
        r == compute_id_spec(title@),
{
    murmur3_hash(title.as_bytes())
}

/// Identity determinism: the id is a pure function of the title text alone,
/// so re-deriving it from the same title always yields the same id.
pub proof fn lemma_compute_id_deterministic(t1: Seq<char>, t2: Seq<char>)
    requires
        t1 == t2,
    ensures
        compute_id_spec(t1) == compute_id_spec(t2),
{
}

} // verus!
