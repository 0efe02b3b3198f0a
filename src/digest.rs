//! Leaf and node digests.
//!
//! A digest is the decimal text of the 64-bit value that std's
//! `DefaultHasher` yields for a byte buffer. A leaf is the digest of its
//! item; an inner node is the digest of the UTF-8 bytes of its left child's
//! digest followed by those of its right child's digest.
use vstd::prelude::*;
use vstd::utf8::encode_utf8;

verus! {

/// An input item: an arbitrary byte buffer.
pub type Data = Vec<u8>;

/// A digest, held as the decimal text of a 64-bit hash value.
pub type Digest = String;

/// The value std's `DefaultHasher`, made with its fixed default keys, yields
/// after hashing a byte vector through `Hash for Vec<u8>`.
pub uninterp spec fn sip_of(data: Seq<u8>) -> u64;

/// The character of a decimal digit.
pub open spec fn digit(d: nat) -> char
    recommends
        d < 10,
{
    (d + 48) as char
}

/// The decimal text of `n`, most significant digit first, without leading zeros.
pub open spec fn decimal(n: nat) -> Seq<char>
    decreases n,
{
    if n < 10 {
        seq![digit(n)]
    } else {
        decimal(n / 10).push(digit(n % 10))
    }
}

/// The digest of one item.
pub open spec fn leaf_digest(data: Seq<u8>) -> Seq<char> {
    decimal(sip_of(data) as nat)
}

/// The digest of an inner node from the digests of its two children, left first.
pub open spec fn combine(left: Seq<char>, right: Seq<char>) -> Seq<char> {
    leaf_digest(encode_utf8(left) + encode_utf8(right))
}

/// Relies on `BuildHasher::hash_one` over `BuildHasherDefault<DefaultHasher>`:
/// every `DefaultHasher` made by `default` starts from the same fixed keys, so
/// the value depends on the bytes alone.
#[verifier::external_body]
fn sip_hash(data: &Data) -> (r: u64)
    ensures
        r == sip_of(data@),
{
    let builder =
        std::hash::BuildHasherDefault::<std::collections::hash_map::DefaultHasher>::default();
    std::hash::BuildHasher::hash_one(&builder, data)
}

/// Relies on `ToString` for `u64`, which writes the value in decimal digits.
#[verifier::external_body]
fn decimal_text(n: u64) -> (r: String)
    ensures
        r@ == decimal(n as nat),
{
    n.to_string()
}

/// The digest of one item.
pub fn hash_data(data: &Data) -> (r: Digest)
    ensures
        r@ == leaf_digest(data@),
{
    let value = sip_hash(data);
    decimal_text(value)
}

/// The digest of an inner node whose children have the digests `left` and `right`.
pub fn concatenate_and_hash(left: &Digest, right: &Digest) -> (r: Digest)
    ensures
        r@ == combine(left@, right@),
{
    let left_bytes = left.as_str().as_bytes();
    let right_bytes = right.as_str().as_bytes();
    let mut joined: Vec<u8> = Vec::new();
    let mut i: usize = 0;
    while i < left_bytes.len()
        invariant
            i <= left_bytes@.len(),
            joined@ == left_bytes@.subrange(0, i as int),
        decreases left_bytes@.len() - i,
    {
        joined.push(left_bytes[i]);
        i = i + 1;
    }
    let mut j: usize = 0;
    while j < right_bytes.len()
        invariant
            j <= right_bytes@.len(),
            joined@ == left_bytes@ + right_bytes@.subrange(0, j as int),
        decreases right_bytes@.len() - j,
    {
        joined.push(right_bytes[j]);
        j = j + 1;
    }
    assert(left_bytes@.subrange(0, left_bytes@.len() as int) == left_bytes@);
    assert(right_bytes@.subrange(0, right_bytes@.len() as int) == right_bytes@);
    hash_data(&joined)
}

} // verus!
