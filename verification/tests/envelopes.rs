//! Envelope generation and the membership verification paths.

use ark_ff::{BigInteger, PrimeField};
use sha2::{Digest, Sha256};
use zk_smt::api::{
    generate_zk_proof, generate_zk_proof_for_user, get_smt_data_for_zk_proof, insert,
    verify_real_zk_membership, verify_zk_membership, ZKVerifyRequest,
};
use zk_smt::tree::{insert_to_tree, SparseMerkleTree};

type Fr = ark_bls12_381::Fr;

fn hash_str(s: &str) -> Fr {
    Fr::from_le_bytes_mod_order(&Sha256::digest(s.as_bytes()))
}

fn hash2(a: Fr, b: Fr) -> Fr {
    let mut h = Sha256::new();
    h.update(a.into_bigint().to_bytes_le());
    h.update(b.into_bigint().to_bytes_le());
    Fr::from_le_bytes_mod_order(&h.finalize())
}

fn expected_root(entries: &[(&str, &str)]) -> Fr {
    let mut acc = Fr::from(0u64);
    for (k, v) in entries {
        let leaf = hash2(hash_str(k), hash_str(v));
        acc = hash2(acc, leaf);
    }
    acc
}

fn hash31(s: &str) -> u64 {
    s.chars().map(|c| c as u64).fold(0u64, |acc, x| acc.wrapping_mul(31).wrapping_add(x))
}

#[test]
fn keyed_generation_emits_exact_text() {
    let mut tree = SparseMerkleTree::new();
    let hex_text = generate_zk_proof(&mut tree, 5, 7, 9);
    let root_decimal = expected_root(&[("5", "7")]).into_bigint().to_string();
    let expected = format!(
        "{{\"pi_a\":[\"51000000000\",\"72000000000\"],\"pi_b\":[[\"93000000000\",\"{}4000000000\"],[\"125000000000\",\"186000000000\"]],\"pi_c\":[\"{}7000000000\",\"358000000000\"],\"smt_root\":\"{}\",\"key\":5,\"value\":7,\"siblings\":[9,10,11]}}",
        root_decimal, root_decimal, root_decimal
    );
    assert_eq!(hex_text, hex::encode(expected.as_bytes()));
}

#[test]
fn keyed_generation_auto_inserts_the_subject() {
    let mut tree = SparseMerkleTree::new();
    let _ = generate_zk_proof(&mut tree, 5, 7, 9);
    let entries = zk_smt::api::get_all_smt_entries(&tree);
    assert_eq!(entries, vec![("5".to_string(), "7".to_string())]);
}

#[test]
fn keyed_proof_verifies_against_current_root() {
    let mut tree = SparseMerkleTree::new();
    insert(&mut tree, "5".to_string(), 7);
    let proof = generate_zk_proof(&mut tree, 5, 7, 9);
    let req = ZKVerifyRequest {
        key: "5".to_string(),
        root: String::new(),
        zk_proof: proof,
    };
    assert!(verify_zk_membership(&tree, req));
}

#[test]
fn keyed_proof_rejected_after_root_moves() {
    let mut tree = SparseMerkleTree::new();
    insert(&mut tree, "5".to_string(), 7);
    let proof = generate_zk_proof(&mut tree, 5, 7, 9);
    insert(&mut tree, "6".to_string(), 8);
    let req = ZKVerifyRequest {
        key: "5".to_string(),
        root: String::new(),
        zk_proof: proof,
    };
    assert!(!verify_zk_membership(&tree, req));
}

#[test]
fn keyed_proof_rejected_for_other_key() {
    let mut tree = SparseMerkleTree::new();
    insert(&mut tree, "5".to_string(), 7);
    insert(&mut tree, "6".to_string(), 8);
    let proof = generate_zk_proof(&mut tree, 5, 7, 9);
    let req = ZKVerifyRequest {
        key: "6".to_string(),
        root: String::new(),
        zk_proof: proof,
    };
    assert!(!verify_zk_membership(&tree, req));
}

#[test]
fn user_generation_emits_exact_text() {
    let mut tree = SparseMerkleTree::new();
    insert(&mut tree, "alice".to_string(), 1);
    insert(&mut tree, "bob".to_string(), 2);
    let hex_text = generate_zk_proof_for_user(&tree, "alice".to_string(), 4);
    let root_decimal = expected_root(&[("alice", "1"), ("bob", "2")]).into_bigint().to_string();
    let pk = hash31("alice");
    let sib0 = (hash31("bob").wrapping_add(2)) % 1000000;
    let rl = (root_decimal.len() as u64) % 1000;
    let expected = format!(
        "{{\"pi_a\":[\"{}1000000000\",\"12000000000\"],\"pi_b\":[[\"43000000000\",\"{}4000000000\"],[\"{}5000000000\",\"{}6000000000\"]],\"pi_c\":[\"{}7000000000\",\"{}8000000000\"],\"smt_root\":\"{}\",\"username\":\"alice\",\"public_key\":{},\"secret_value\":1,\"nonce\":4,\"siblings\":[{},200,300]}}",
        pk % 1000,
        rl,
        pk.wrapping_add(1) % 1000,
        (4u64.wrapping_add(sib0)) % 1000,
        rl,
        pk.wrapping_mul(1) % 1000,
        root_decimal,
        pk,
        sib0
    );
    assert_eq!(hex_text, hex::encode(expected.as_bytes()));
}

#[test]
fn user_generation_reports_missing_user() {
    let tree = SparseMerkleTree::new();
    let hex_text = generate_zk_proof_for_user(&tree, "ghost".to_string(), 1);
    assert_eq!(hex_text, hex::encode("ERROR: User ghost not found in SMT".as_bytes()));
}

#[test]
fn user_generation_reports_unparsable_value() {
    let mut tree = SparseMerkleTree::new();
    insert_to_tree(&mut tree, "weird", "abc");
    let hex_text = generate_zk_proof_for_user(&tree, "weird".to_string(), 1);
    assert_eq!(
        hex_text,
        hex::encode("ERROR: Invalid ID format for user weird: abc".as_bytes())
    );
}

#[test]
fn user_proof_accepts_matching_subject_and_value() {
    let mut tree = SparseMerkleTree::new();
    insert(&mut tree, "alice".to_string(), 1);
    let proof = generate_zk_proof_for_user(&tree, "alice".to_string(), 42);
    let req = ZKVerifyRequest {
        key: "alice".to_string(),
        root: String::new(),
        zk_proof: proof,
    };
    assert!(verify_zk_membership(&tree, req));
}

#[test]
fn user_proof_accepts_despite_stale_embedded_root() {
    let mut tree = SparseMerkleTree::new();
    insert(&mut tree, "alice".to_string(), 1);
    let proof = generate_zk_proof_for_user(&tree, "alice".to_string(), 42);
    insert(&mut tree, "zeta".to_string(), 9);
    let req = ZKVerifyRequest {
        key: "alice".to_string(),
        root: String::new(),
        zk_proof: proof,
    };
    assert!(verify_zk_membership(&tree, req));
}

fn handmade_user_envelope(username: &str, secret_value: u64) -> String {
    let text = format!(
        "{{\"pi_a\":[\"1\",\"2\"],\"pi_b\":[[\"3\",\"4\"],[\"5\",\"6\"]],\"pi_c\":[\"7\",\"8\"],\"smt_root\":\"0\",\"username\":\"{}\",\"public_key\":1,\"secret_value\":{},\"nonce\":0,\"siblings\":[1,2,3]}}",
        username, secret_value
    );
    hex::encode(text.as_bytes())
}

#[test]
fn user_proof_rejected_when_subject_absent() {
    let mut tree = SparseMerkleTree::new();
    insert(&mut tree, "alice".to_string(), 1);
    let req = ZKVerifyRequest {
        key: "ghost".to_string(),
        root: String::new(),
        zk_proof: handmade_user_envelope("ghost", 1),
    };
    assert!(!verify_zk_membership(&tree, req));
}

#[test]
fn user_proof_rejected_when_value_disagrees() {
    let mut tree = SparseMerkleTree::new();
    insert(&mut tree, "alice".to_string(), 1);
    let req = ZKVerifyRequest {
        key: "alice".to_string(),
        root: String::new(),
        zk_proof: handmade_user_envelope("alice", 5),
    };
    assert!(!verify_zk_membership(&tree, req));
}

#[test]
fn user_proof_rejected_when_subject_mismatches_request() {
    let mut tree = SparseMerkleTree::new();
    insert(&mut tree, "alice".to_string(), 1);
    insert(&mut tree, "bob".to_string(), 1);
    let req = ZKVerifyRequest {
        key: "bob".to_string(),
        root: String::new(),
        zk_proof: handmade_user_envelope("alice", 1),
    };
    assert!(!verify_zk_membership(&tree, req));
}

#[test]
fn membership_rejects_undecodable_wire_text() {
    let mut tree = SparseMerkleTree::new();
    insert(&mut tree, "alice".to_string(), 1);
    for bad in ["zz", "f", "ff", "00ff20", ""] {
        let req = ZKVerifyRequest {
            key: "alice".to_string(),
            root: String::new(),
            zk_proof: bad.to_string(),
        };
        assert!(!verify_zk_membership(&tree, req));
    }
}

fn handmade_signal_envelope(a0: &str, signals: &[&str]) -> String {
    let signal_text = signals
        .iter()
        .map(|s| format!("\"{}\"", s))
        .collect::<Vec<_>>()
        .join(",");
    let text = format!(
        "{{\"proof\":{{\"pi_a\":[\"{}\",\"456\"],\"pi_b\":[[\"1\",\"2\"],[\"3\",\"4\"]],\"pi_c\":[\"5\",\"6\"]}},\"public_signals\":[{}]}}",
        a0, signal_text
    );
    hex::encode(text.as_bytes())
}

#[test]
fn signal_proof_accepts_matching_signals() {
    let proof = handmade_signal_envelope("123", &["mykey", "myroot"]);
    assert!(verify_real_zk_membership("mykey".to_string(), "myroot".to_string(), proof));
}

#[test]
fn signal_proof_rejects_wrong_public_key() {
    let proof = handmade_signal_envelope("123", &["mykey", "myroot"]);
    assert!(!verify_real_zk_membership("other".to_string(), "myroot".to_string(), proof));
}

#[test]
fn signal_proof_rejects_wrong_root() {
    let proof = handmade_signal_envelope("123", &["mykey", "myroot"]);
    assert!(!verify_real_zk_membership("mykey".to_string(), "other".to_string(), proof));
}

#[test]
fn signal_proof_rejects_wrong_signal_count() {
    let one = handmade_signal_envelope("123", &["mykey"]);
    assert!(!verify_real_zk_membership("mykey".to_string(), "myroot".to_string(), one));
    let three = handmade_signal_envelope("123", &["mykey", "myroot", "extra"]);
    assert!(!verify_real_zk_membership("mykey".to_string(), "myroot".to_string(), three));
}

#[test]
fn signal_proof_rejects_non_numeric_pi_a() {
    let proof = handmade_signal_envelope("12a", &["mykey", "myroot"]);
    assert!(!verify_real_zk_membership("mykey".to_string(), "myroot".to_string(), proof));
}

#[test]
fn proof_data_helper_reports_root_and_siblings() {
    let mut tree = SparseMerkleTree::new();
    insert(&mut tree, "alice".to_string(), 1);
    insert(&mut tree, "5".to_string(), 7);
    let data = get_smt_data_for_zk_proof(&tree, "alice".to_string()).unwrap();
    let root_decimal = expected_root(&[("5", "7"), ("alice", "1")]).into_bigint().to_string();
    let expected = format!(
        "{{\"expectedRoot\":\"{}\",\"siblings\":[12,200,300]}}",
        root_decimal
    );
    assert_eq!(data, expected);
}

#[test]
fn proof_data_helper_is_silent_for_absent_key() {
    let tree = SparseMerkleTree::new();
    assert!(get_smt_data_for_zk_proof(&tree, "ghost".to_string()).is_none());
}

#[test]
fn envelope_numbers_stop_at_the_64_bit_boundary() {
    let mut tree = SparseMerkleTree::new();
    insert(&mut tree, "alice".to_string(), u64::MAX);
    let at_max = handmade_user_envelope("alice", u64::MAX);
    let req = ZKVerifyRequest {
        key: "alice".to_string(),
        root: String::new(),
        zk_proof: at_max,
    };
    assert!(verify_zk_membership(&tree, req));
    let text = "{\"pi_a\":[\"1\",\"2\"],\"pi_b\":[[\"3\",\"4\"],[\"5\",\"6\"]],\"pi_c\":[\"7\",\"8\"],\"smt_root\":\"0\",\"username\":\"alice\",\"public_key\":1,\"secret_value\":18446744073709551616,\"nonce\":0,\"siblings\":[1,2,3]}";
    let req = ZKVerifyRequest {
        key: "alice".to_string(),
        root: String::new(),
        zk_proof: hex::encode(text.as_bytes()),
    };
    assert!(!verify_zk_membership(&tree, req));
}

#[test]
fn stored_value_with_leading_plus_counts_as_its_number() {
    let mut tree = SparseMerkleTree::new();
    insert_to_tree(&mut tree, "alice", "+5");
    let req = ZKVerifyRequest {
        key: "alice".to_string(),
        root: String::new(),
        zk_proof: handmade_user_envelope("alice", 5),
    };
    assert!(verify_zk_membership(&tree, req));
    let generated = generate_zk_proof_for_user(&tree, "alice".to_string(), 1);
    let text = String::from_utf8(hex::decode(&generated).unwrap()).unwrap();
    assert!(text.contains("\"secret_value\":5,"));
}

#[test]
fn request_key_with_leading_plus_counts_as_its_number() {
    let mut tree = SparseMerkleTree::new();
    insert(&mut tree, "7".to_string(), 1);
    let proof = generate_zk_proof(&mut tree, 7, 1, 0);
    let req = ZKVerifyRequest {
        key: "+7".to_string(),
        root: String::new(),
        zk_proof: proof,
    };
    assert!(verify_zk_membership(&tree, req));
}
