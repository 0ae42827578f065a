//! Store behaviour: roots, order independence, delete/reinsert, witnesses.

use ark_ff::{BigInteger, PrimeField};
use sha2::{Digest, Sha256};
use zk_smt::api::{delete, get_all_smt_entries, get_merkle_proof, get_root, greet, insert};
use zk_smt::tree::SparseMerkleTree;

type Fr = ark_bls12_381::Fr;

fn hash_str(s: &str) -> Fr {
    Fr::from_le_bytes_mod_order(&Sha256::digest(s.as_bytes()))
}

fn hash2(a: Fr, b: Fr) -> Fr {
    let mut h = Sha256::new();
    h.update(a.into_bigint().to_bytes_le());
    h.update(b.into_bigint().to_bytes_le());
    Fr::from_le_bytes_mod_order(&h.finalize())
}

fn expected_root(entries: &[(&str, &str)]) -> Fr {
    let mut acc = Fr::from(0u64);
    for (k, v) in entries {
        let leaf = hash2(hash_str(k), hash_str(v));
        acc = hash2(acc, leaf);
    }
    acc
}

fn root_hex(r: Fr) -> String {
    hex::encode(r.into_bigint().to_bytes_le())
}

#[test]
fn fresh_tree_root_is_ladder_top() {
    let tree = SparseMerkleTree::new();
    let mut cur = Fr::from(0u64);
    for _ in 0..256 {
        cur = hash2(cur, cur);
    }
    assert_eq!(get_root(&tree), root_hex(cur));
}

#[test]
fn root_matches_direct_computation() {
    let mut tree = SparseMerkleTree::new();
    insert(&mut tree, "alice".to_string(), 1);
    insert(&mut tree, "bob".to_string(), 2);
    let expected = expected_root(&[("alice", "1"), ("bob", "2")]);
    assert_eq!(get_root(&tree), root_hex(expected));
}

#[test]
fn emptied_tree_commits_to_field_zero() {
    let mut tree = SparseMerkleTree::new();
    insert(&mut tree, "alice".to_string(), 1);
    delete(&mut tree, "alice".to_string());
    let zeros = vec![0u8; 32];
    assert_eq!(get_root(&tree), hex::encode(&zeros));
}

#[test]
fn root_is_order_independent() {
    let mut t1 = SparseMerkleTree::new();
    insert(&mut t1, "alice".to_string(), 1);
    insert(&mut t1, "bob".to_string(), 2);
    insert(&mut t1, "carol".to_string(), 3);
    let mut t2 = SparseMerkleTree::new();
    insert(&mut t2, "carol".to_string(), 3);
    insert(&mut t2, "alice".to_string(), 7);
    insert(&mut t2, "bob".to_string(), 2);
    insert(&mut t2, "alice".to_string(), 1);
    assert_eq!(get_root(&t1), get_root(&t2));
}

#[test]
fn delete_then_reinsert_restores_root() {
    let mut tree = SparseMerkleTree::new();
    insert(&mut tree, "alice".to_string(), 1);
    insert(&mut tree, "bob".to_string(), 2);
    let before = get_root(&tree);
    delete(&mut tree, "bob".to_string());
    assert_ne!(get_root(&tree), before);
    insert(&mut tree, "bob".to_string(), 2);
    assert_eq!(get_root(&tree), before);
}

#[test]
fn reinsert_with_different_value_changes_root() {
    let mut tree = SparseMerkleTree::new();
    insert(&mut tree, "alice".to_string(), 1);
    insert(&mut tree, "bob".to_string(), 2);
    let before = get_root(&tree);
    delete(&mut tree, "bob".to_string());
    insert(&mut tree, "bob".to_string(), 3);
    assert_ne!(get_root(&tree), before);
}

#[test]
fn root_hex_round_trips_to_stored_bytes() {
    let mut tree = SparseMerkleTree::new();
    insert(&mut tree, "alice".to_string(), 1);
    let hex_text = get_root(&tree);
    let bytes = hex::decode(&hex_text).unwrap();
    assert_eq!(bytes, tree.root);
    let reread = Fr::from_le_bytes_mod_order(&bytes);
    let direct = expected_root(&[("alice", "1")]);
    assert_eq!(reread, direct);
}

#[test]
fn entries_come_back_sorted() {
    let mut tree = SparseMerkleTree::new();
    insert(&mut tree, "bob".to_string(), 2);
    insert(&mut tree, "alice".to_string(), 1);
    let entries = get_all_smt_entries(&tree);
    assert_eq!(
        entries,
        vec![("alice".to_string(), "1".to_string()), ("bob".to_string(), "2".to_string())]
    );
}

#[test]
fn scenario_two_inserts_delete_reinsert() {
    let mut tree = SparseMerkleTree::new();
    insert(&mut tree, "alice".to_string(), 1);
    insert(&mut tree, "bob".to_string(), 2);
    let entries = get_all_smt_entries(&tree);
    assert_eq!(
        entries,
        vec![("alice".to_string(), "1".to_string()), ("bob".to_string(), "2".to_string())]
    );
    let h = get_root(&tree);
    delete(&mut tree, "bob".to_string());
    insert(&mut tree, "bob".to_string(), 2);
    assert_eq!(get_root(&tree), h);
}

#[test]
fn merkle_proof_absent_key_is_empty() {
    let mut tree = SparseMerkleTree::new();
    insert(&mut tree, "alice".to_string(), 1);
    let proof = get_merkle_proof(&tree, "nobody".to_string());
    assert_eq!(proof.len(), 0);
}

#[test]
fn merkle_proof_present_key_covers_other_entries() {
    let mut tree = SparseMerkleTree::new();
    insert(&mut tree, "alice".to_string(), 1);
    insert(&mut tree, "bob".to_string(), 2);
    insert(&mut tree, "carol".to_string(), 3);
    let proof = get_merkle_proof(&tree, "bob".to_string());
    assert_eq!(proof.len(), 2);
    for entry in &proof {
        assert!(entry.is_left);
    }
    let alice_leaf = hash2(hash_str("alice"), hash_str("1"));
    let carol_leaf = hash2(hash_str("carol"), hash_str("3"));
    assert_eq!(proof[0].hash, hex::encode(alice_leaf.into_bigint().to_bytes_le()));
    assert_eq!(proof[1].hash, hex::encode(carol_leaf.into_bigint().to_bytes_le()));
}

#[test]
fn greet_wraps_the_name() {
    assert_eq!(
        greet("Ala".to_string()),
        "Witaj, Ala! U\u{017C}ywasz zkSMT aplikacji na Internet Computer."
    );
}
