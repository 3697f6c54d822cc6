//! The hash oracle: an abstract, collision-resistant digest function,
//! realized by Keccak-256 from the `crypto` crate.

use vstd::prelude::*;

verus! {

/// The digest that the hash oracle assigns to a byte sequence.
/// Abstract: contracts speak of it only through the trusted wrappers below.
pub uninterp spec fn keccak256(input: Seq<u8>) -> Seq<u8>;

/// Digest of the concatenation of two digests, left bytes first.
/// This is the combining step of every interior tree level.
pub open spec fn pair_hash(left: Seq<u8>, right: Seq<u8>) -> Seq<u8> {
    keccak256(left + right)
}

/// Digest of one raw item: the hash of its UTF-8 bytes.
pub open spec fn item_digest(item: Seq<char>) -> Seq<u8> {
    keccak256(vstd::utf8::encode_utf8(item))
}

/// Relies on `crypto::sha3::Sha3::keccak256` with `Digest::input` and
/// `Digest::result`: the one-shot Keccak-256 digest of `input`, 32 bytes,
/// a function of the input bytes alone.
#[verifier::external_body]
pub(crate) fn calculate_hash(input: &[u8]) -> (digest: [u8; 32])
    ensures
        digest@ == keccak256(input@),
{
    let mut hasher = crypto::sha3::Sha3::keccak256();
    crypto::digest::Digest::input(&mut hasher, input);
    let mut output = [0u8; 32];
    crypto::digest::Digest::result(&mut hasher, &mut output);
    output
}

/// The lowercase hexadecimal rendering of the digest that the hash oracle
/// assigns to a byte sequence. Abstract, like `keccak256`.
pub uninterp spec fn keccak256_hex(input: Seq<u8>) -> Seq<char>;

/// Relies on `crypto::sha3::Sha3::keccak256` with `Digest::input` and
/// `Digest::result_str`: the Keccak-256 digest of `input` rendered as a
/// lowercase hexadecimal string, a function of the input bytes alone.
#[verifier::external_body]
pub(crate) fn calculate_hash_hex(input: &[u8]) -> (digest: String)
    ensures
        digest@ == keccak256_hex(input@),
{
    let mut hasher = crypto::sha3::Sha3::keccak256();
    crypto::digest::Digest::input(&mut hasher, input);
    crypto::digest::Digest::result_str(&mut hasher)
}

/// Hash the concatenation of two digests, left bytes first: the combining
/// step that builds each parent level of the tree.
pub(crate) fn combine(left: &[u8; 32], right: &[u8; 32]) -> (out: [u8; 32])
    ensures
        out@ == pair_hash(left@, right@),
{
    let mut bytes: Vec<u8> = Vec::new();
    let mut i: usize = 0;
    while i < 32
        invariant
            i <= 32,
            bytes@.len() == i,
            forall|j: int| 0 <= j < i ==> bytes@[j] == left@[j],
        decreases 32 - i,
    {
        bytes.push(left[i]);
        i += 1;
    }
    let mut k: usize = 0;
    while k < 32
        invariant
            k <= 32,
            bytes@.len() == 32 + k,
            forall|j: int| 0 <= j < 32 ==> bytes@[j] == left@[j],
            forall|j: int| 0 <= j < k ==> bytes@[32 + j] == right@[j],
        decreases 32 - k,
    {
        bytes.push(right[k]);
        k += 1;
    }
    proof {
        assert(bytes@ =~= left@ + right@);
    }
    calculate_hash(bytes.as_slice())
}

/// Byte-exact comparison of two digests.
pub(crate) fn digests_equal(a: &[u8; 32], b: &[u8; 32]) -> (eq: bool)
    ensures
        eq == (a@ == b@),
{
    let mut i: usize = 0;
    while i < 32
        invariant
            i <= 32,
            forall|j: int| 0 <= j < i ==> a@[j] == b@[j],
        decreases 32 - i,
    {
        if a[i] != b[i] {
            return false;
        }
        i += 1;
    }
    proof {
        assert(a@ =~= b@);
    }
    true
}

} // verus!
