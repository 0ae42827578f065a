//! Hash primitives over the field-element domain: SHA-256 digests of byte
//! strings, reduced into the BLS12-381 scalar field and carried around in
//! their canonical 32-byte little-endian form.

use vstd::prelude::*;
use ark_ff::BigInteger;
use ark_ff::PrimeField;
use sha2::Digest;

verus! {

/// Width in bytes of the canonical little-endian form of a field element.
pub const FE_BYTES: usize = 32;

/// The 32-byte digest that SHA-256 assigns to a byte sequence; it depends on
/// the input bytes alone.
pub uninterp spec fn sha256_of(bytes: Seq<u8>) -> Seq<u8>;

/// The canonical 32-byte little-endian form of the integer that `bytes`
/// denotes in little-endian order, reduced modulo the order of the BLS12-381
/// scalar field; it depends on the input bytes alone.
pub uninterp spec fn fr_reduce(bytes: Seq<u8>) -> Seq<u8>;

/// The decimal digits of the integer that `bytes` denotes in little-endian
/// order, reduced modulo the order of the BLS12-381 scalar field; it depends
/// on the input bytes alone.
pub uninterp spec fn fr_decimal(bytes: Seq<u8>) -> Seq<char>;

/// Relies on `sha2::Sha256::digest`: the digest is 32 bytes long and is a
/// function of the input bytes alone.
#[verifier::external_body]
pub fn sha256(input: &[u8]) -> (r: Vec<u8>)
    ensures
        r@ == sha256_of(input@),
        r@.len() == FE_BYTES,
{
    sha2::Sha256::digest(input).to_vec()
}

/// Relies on `ark_ff::PrimeField::from_le_bytes_mod_order` (reads the bytes
/// little-endian and reduces modulo the field order) and
/// `ark_ff::BigInteger::to_bytes_le` (the canonical little-endian bytes of the
/// reduced value, 32 of them for the four 64-bit limbs of the BLS12-381
/// scalar field). Both depend on the input bytes alone.
#[verifier::external_body]
pub fn fr_reduce_le(bytes: &[u8]) -> (r: Vec<u8>)
    ensures
        r@ == fr_reduce(bytes@),
        r@.len() == FE_BYTES,
{
    <ark_bls12_381::Fr as PrimeField>::from_le_bytes_mod_order(bytes)
        .into_bigint()
        .to_bytes_le()
}

/// Relies on `ark_ff::PrimeField::from_le_bytes_mod_order` and the `Display`
/// of `ark_ff::BigInt`, which prints the reduced value in decimal: a nonempty
/// string of decimal digits, a function of the input bytes alone.
#[verifier::external_body]
pub fn fr_decimal_le(bytes: &[u8]) -> (r: String)
    ensures
        r@ == fr_decimal(bytes@),
        r@.len() >= 1,
        forall|i: int| 0 <= i < r@.len() ==> '0' <= #[trigger] r@[i] <= '9',
{
    <ark_bls12_381::Fr as PrimeField>::from_le_bytes_mod_order(bytes)
        .into_bigint()
        .to_string()
}

/// The field-zero element in canonical form: 32 zero bytes.
pub open spec fn zero_fe() -> Seq<u8> {
    Seq::new(FE_BYTES as nat, |i: int| 0u8)
}

/// The hash of a text leaf: the SHA-256 digest of its UTF-8 bytes, reduced
/// into the field.
pub open spec fn str_hash(s: Seq<char>) -> Seq<u8> {
    fr_reduce(sha256_of(vstd::utf8::encode_utf8(s)))
}

/// The two-to-one hash: the digest of the two canonical byte forms
/// concatenated, reduced into the field.
pub open spec fn hash_pair(left: Seq<u8>, right: Seq<u8>) -> Seq<u8> {
    fr_reduce(sha256_of(left + right))
}

/// The field-zero element as a vector.
pub fn zero_fe_vec() -> (r: Vec<u8>)
    ensures
        r@ == zero_fe(),
{
    let mut v: Vec<u8> = Vec::new();
    while v.len() < FE_BYTES
        invariant
            v@.len() <= FE_BYTES,
            forall|i: int| 0 <= i < v@.len() ==> v@[i] == 0u8,
        decreases FE_BYTES - v.len(),
    {
        v.push(0u8);
    }
    proof {
        assert(v@ =~= zero_fe());
    }
    v
}

/// Hash a string into the field.
pub fn hash_string(s: &str) -> (r: Vec<u8>)
    ensures
        r@ == str_hash(s@),
        r@.len() == FE_BYTES,
{
    let digest = sha256(s.as_bytes());
    fr_reduce_le(digest.as_slice())
}

/// Copy a byte vector.
pub fn clone_fe(v: &Vec<u8>) -> (r: Vec<u8>)
    ensures
        r@ == v@,
{
    let mut out: Vec<u8> = Vec::new();
    out.extend_from_slice(v.as_slice());
    proof {
        assert(out@ =~= v@);
    }
    out
}

/// Hash a character vector into the field, as the string it spells.
pub fn hash_chars(v: &Vec<char>) -> (r: Vec<u8>)
    ensures
        r@ == str_hash(v@),
        r@.len() == FE_BYTES,
{
    let s = crate::text::chars_to_string(v);
    hash_string(s.as_str())
}

/// Hash two field elements (in canonical byte form) into one.
pub fn hash_two_to_one(left: &Vec<u8>, right: &Vec<u8>) -> (r: Vec<u8>)
    ensures
        r@ == hash_pair(left@, right@),
        r@.len() == FE_BYTES,
{
    let mut joined: Vec<u8> = Vec::new();
    joined.extend_from_slice(left.as_slice());
    joined.extend_from_slice(right.as_slice());
    proof {
        assert(joined@ =~= left@ + right@);
    }
    let digest = sha256(joined.as_slice());
    fr_reduce_le(digest.as_slice())
}

} // verus!
