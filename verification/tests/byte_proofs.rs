//! The byte-level proof check behind the oldest verification entry point.

use ark_ff::{BigInteger, PrimeField};
use sha2::{Digest, Sha256};
use zk_smt::api::{verify_query_result, VerifyRequestOld};
use zk_smt::tree::verify_proof;

type Fr = ark_bls12_381::Fr;

fn hash_str(s: &str) -> Fr {
    Fr::from_le_bytes_mod_order(&Sha256::digest(s.as_bytes()))
}

fn hash2(a: Fr, b: Fr) -> Fr {
    let mut h = Sha256::new();
    h.update(a.into_bigint().to_bytes_le());
    h.update(b.into_bigint().to_bytes_le());
    Fr::from_le_bytes_mod_order(&h.finalize())
}

fn seed(name: &str, id: u64) -> Fr {
    hash2(hash_str(name), hash_str(&id.to_string()))
}

#[test]
fn byte_proof_accepts_the_folded_root() {
    let chunk1 = Fr::from(5u64);
    let chunk2 = Fr::from(6u64);
    let mut proof_bytes = chunk1.into_bigint().to_bytes_le();
    proof_bytes.extend(chunk2.into_bigint().to_bytes_le());
    let folded = hash2(hash2(seed("doc", 77), chunk1), chunk2);
    let req = VerifyRequestOld {
        name: "doc".to_string(),
        id: 77,
        root: hex::encode(folded.into_bigint().to_bytes_le()),
        zk_proof: hex::encode(&proof_bytes),
    };
    assert!(verify_query_result(req));
}

#[test]
fn byte_proof_rejects_a_wrong_root() {
    let chunk1 = Fr::from(5u64);
    let proof_bytes = chunk1.into_bigint().to_bytes_le();
    let wrong = Fr::from(9u64);
    let req = VerifyRequestOld {
        name: "doc".to_string(),
        id: 77,
        root: hex::encode(wrong.into_bigint().to_bytes_le()),
        zk_proof: hex::encode(&proof_bytes),
    };
    assert!(!verify_query_result(req));
}

#[test]
fn byte_proof_rejects_a_ragged_length() {
    let folded = seed("doc", 77);
    let req = VerifyRequestOld {
        name: "doc".to_string(),
        id: 77,
        root: hex::encode(folded.into_bigint().to_bytes_le()),
        zk_proof: "aa".repeat(31),
    };
    assert!(!verify_query_result(req));
}

#[test]
fn byte_proof_accepts_an_empty_proof_for_the_seed() {
    let folded = seed("doc", 77);
    let req = VerifyRequestOld {
        name: "doc".to_string(),
        id: 77,
        root: hex::encode(folded.into_bigint().to_bytes_le()),
        zk_proof: String::new(),
    };
    assert!(verify_query_result(req));
}

#[test]
fn byte_proof_treats_bad_hex_as_no_bytes() {
    let req = VerifyRequestOld {
        name: "doc".to_string(),
        id: 77,
        root: "zz".to_string(),
        zk_proof: "zz".to_string(),
    };
    assert!(!verify_query_result(req));
}

#[test]
fn verify_proof_matches_direct_fold() {
    let chunk = Fr::from(1234u64);
    let proof_bytes = chunk.into_bigint().to_bytes_le();
    let folded = hash2(seed("n", 1), chunk);
    let root_bytes = folded.into_bigint().to_bytes_le();
    assert!(verify_proof(proof_bytes.clone(), ("n", 1, root_bytes.as_slice())));
    let other = Fr::from(4321u64).into_bigint().to_bytes_le();
    assert!(!verify_proof(proof_bytes, ("n", 1, other.as_slice())));
}
