//! The service surface: mutating the store, reading the root and witnesses,
//! generating proof envelopes, and the verification entry points.

use vstd::prelude::*;
use crate::hashes::fr_decimal;
use crate::hashes::fr_decimal_le;
use crate::hex_codec::{hex_ok, hex_bytes_of, hex_chars_of, hex_encode, hex_decode};
use crate::text::{
    dec_chars, u64_to_dec_chars, parse_u64, parse_u64_spec, str_to_chars, chars_to_string,
    bytes_to_string, cmp_chars,
};
use crate::tree::{
    SparseMerkleTree, EntrySpec, lookup, sorted_insert, sorted_remove, path_spec, insert_to_tree,
    delete_from_tree, get_merkle_path,
};
use crate::envelope::{
    Envelope, EnvelopeSpec, UserEnvelope, UserEnvelopeSpec, KeyedEnvelope, KeyedEnvelopeSpec, Pi,
    PiSpec, spec_parse_envelope, spec_parse_signal, parse_envelope, parse_signal_envelope,
    enc_keyed, enc_user, build_keyed_envelope, build_user_envelope, push_lit, push_piece,
    push_u64, concat_chars,
};
use vstd::wrapping::u64_specs;

verus! {

// ---------------------------------------------------------------------------
// Requests.
// ---------------------------------------------------------------------------

/// A membership-verification request: a key (or username), the root the
/// caller believes in, and the hex-encoded proof envelope.
pub struct ZKVerifyRequest {
    pub key: String,
    pub root: String,
    pub zk_proof: String,
}

/// A byte-proof verification request.
pub struct VerifyRequest {
    pub name: String,
    pub id: u64,
    pub root: String,
    pub zk_proof: String,
}

/// The request shape kept for the oldest callers; same fields as
/// `VerifyRequest`.
pub struct VerifyRequestOld {
    pub name: String,
    pub id: u64,
    pub root: String,
    pub zk_proof: String,
}

// ---------------------------------------------------------------------------
// Store mutation and reads.
// ---------------------------------------------------------------------------

/// Bind a name to a numeric id (stored as its decimal text).
pub fn insert(tree: &mut SparseMerkleTree, name: String, id: u64)
    requires
        old(tree).inv(),
    ensures
        final(tree).inv(),
        final(tree).entries() == sorted_insert(
            old(tree).entries(),
            name@,
            dec_chars(id as nat),
        ),
{
    let id_chars = u64_to_dec_chars(id);
    let id_string = chars_to_string(&id_chars);
    insert_to_tree(tree, name.as_str(), id_string.as_str());
}

/// Unbind a name (a no-op if absent).
pub fn delete(tree: &mut SparseMerkleTree, name: String)
    requires
        old(tree).inv(),
    ensures
        final(tree).inv(),
        final(tree).entries() == sorted_remove(old(tree).entries(), name@),
{
    delete_from_tree(tree, name.as_str());
}

/// The current root, as the hex text of its little-endian bytes.
pub fn get_root(tree: &SparseMerkleTree) -> (r: String)
    ensures
        r@ == hex_chars_of(tree.root_bytes()),
{
    let root = tree.root();
    hex_encode(root.as_slice())
}

/// One element of a witness, for transport: the hash as hex text.
pub struct MerkleProofEntry {
    pub hash: String,
    pub is_left: bool,
}

/// The witness for a key, each element's hash hex-encoded: empty when the key
/// is absent, one element per other entry when present.
pub fn get_merkle_proof(tree: &SparseMerkleTree, name: String) -> (r: Vec<MerkleProofEntry>)
    requires
        tree.inv(),
    ensures
        lookup(tree.entries(), name@) is None ==> r@.len() == 0,
        lookup(tree.entries(), name@) is Some ==> {
            &&& r@.len() == tree.entries().len() - 1
            &&& forall|i: int|
                0 <= i < r@.len() ==> (#[trigger] r@[i]).hash@ == hex_chars_of(
                    path_spec(tree.entries(), name@)[i],
                ) && r@[i].is_left
        },
{
    let path = get_merkle_path(tree, name.as_str());
    let mut out: Vec<MerkleProofEntry> = Vec::new();
    let mut i: usize = 0;
    while i < path.path.len()
        invariant
            0 <= i <= path.path@.len(),
            out@.len() == i,
            forall|j: int|
                0 <= j < i ==> (#[trigger] out@[j]).hash@ == hex_chars_of(path.path@[j].value@)
                    && out@[j].is_left == path.path@[j].is_left,
        decreases path.path@.len() - i,
    {
        let hash = hex_encode(path.path[i].value.as_slice());
        out.push(MerkleProofEntry { hash, is_left: path.path[i].is_left });
        i = i + 1;
    }
    out
}

/// Every entry, in key order, as plain strings.
pub fn get_all_smt_entries(tree: &SparseMerkleTree) -> (r: Vec<(String, String)>)
    requires
        tree.inv(),
    ensures
        r@.len() == tree.entries().len(),
        forall|i: int|
            0 <= i < r@.len() ==> ((#[trigger] r@[i]).0@, r@[i].1@) == tree.entries()[i],
{
    let mut out: Vec<(String, String)> = Vec::new();
    let mut i: usize = 0;
    while i < tree.len()
        invariant
            0 <= i <= tree.entries().len(),
            tree.inv(),
            out@.len() == i,
            forall|j: int|
                0 <= j < i ==> ((#[trigger] out@[j]).0@, out@[j].1@) == tree.entries()[j],
        decreases tree.entries().len() - i,
    {
        let k = chars_to_string(tree.key_at(i));
        let v = chars_to_string(tree.value_at(i));
        out.push((k, v));
        i = i + 1;
    }
    out
}

/// A friendly greeting around the caller's name.
pub fn greet(name: String) -> (r: String)
    ensures
        r@ == "Witaj, "@ + name@ + "! U\u{017C}ywasz zkSMT aplikacji na Internet Computer."@,
{
    let mut out: Vec<char> = Vec::new();
    push_lit(&mut out, "Witaj, ");
    let name_chars = str_to_chars(name.as_str());
    push_piece(&mut out, &name_chars);
    push_lit(&mut out, "! U\u{017C}ywasz zkSMT aplikacji na Internet Computer.");
    chars_to_string(&out)
}

// ---------------------------------------------------------------------------
// Decoding the wire form.
// ---------------------------------------------------------------------------

/// What hex-decoding and then UTF-8 decoding a piece of wire text yields, if
/// both steps succeed.
pub open spec fn spec_hex_utf8_chars(s: Seq<char>) -> Option<Seq<char>> {
    if hex_ok(s) && vstd::utf8::valid_utf8(hex_bytes_of(s)) {
        Some(vstd::utf8::decode_utf8(hex_bytes_of(s)))
    } else {
        None
    }
}

/// Hex-decode wire text and read the bytes as UTF-8.
fn decode_hex_utf8(s: &str) -> (r: Option<Vec<char>>)
    ensures
        r is Some <==> spec_hex_utf8_chars(s@) is Some,
        r is Some ==> r->0@ == spec_hex_utf8_chars(s@)->0,
{
    let bytes = match hex_decode(s) {
        Some(b) => b,
        None => {
            return None;
        },
    };
    let text = match bytes_to_string(bytes) {
        Some(t) => t,
        None => {
            return None;
        },
    };
    Some(str_to_chars(text.as_str()))
}

// ---------------------------------------------------------------------------
// Verification.
// ---------------------------------------------------------------------------

/// The value a string parses to, or zero when it does not parse.
pub open spec fn parse_or_zero(s: Seq<char>) -> u64 {
    match parse_u64_spec(s) {
        Some(v) => v,
        None => 0,
    }
}

/// When the username-keyed check accepts: the envelope's subject equals the
/// requested key, that subject is bound in the store, and its stored value
/// parses to exactly the envelope's claimed secret value. The envelope's
/// embedded root is not cross-checked in this shape.
pub open spec fn spec_verify_user(
    entries: Seq<EntrySpec>,
    req_key: Seq<char>,
    e: UserEnvelopeSpec,
) -> bool {
    &&& e.username == req_key
    &&& lookup(entries, e.username) is Some
    &&& parse_u64_spec(lookup(entries, e.username)->0) == Some(e.secret_value)
}

/// When the keyed-numeric check accepts: the envelope's root text equals the
/// decimal rendering of the store's current root, the envelope's key equals
/// the numeric reading of the requested key (zero when unparsable), and that
/// key's decimal text is bound in the store.
pub open spec fn spec_verify_legacy(
    entries: Seq<EntrySpec>,
    root: Seq<u8>,
    req_key: Seq<char>,
    e: KeyedEnvelopeSpec,
) -> bool {
    &&& e.smt_root == fr_decimal(root)
    &&& e.key == parse_or_zero(req_key)
    &&& lookup(entries, dec_chars(e.key as nat)) is Some
}

/// When the membership entry point accepts: the wire text decodes to one of
/// the two flat envelope shapes and that shape's check accepts.
pub open spec fn spec_verify_zk_membership(
    entries: Seq<EntrySpec>,
    root: Seq<u8>,
    req_key: Seq<char>,
    proof_hex: Seq<char>,
) -> bool {
    match spec_hex_utf8_chars(proof_hex) {
        None => false,
        Some(t) => match spec_parse_envelope(t) {
            None => false,
            Some(EnvelopeSpec::User(e)) => spec_verify_user(entries, req_key, e),
            Some(EnvelopeSpec::Keyed(e)) => spec_verify_legacy(entries, root, req_key, e),
        },
    }
}

/// When the signal-based check accepts: the wire text decodes to the signal
/// shape, the two signals equal the caller's public key and expected root,
/// and both `pi_a` strings parse as unsigned integers. No pairing check of
/// any kind is performed.
pub open spec fn spec_verify_real(pk: Seq<char>, root: Seq<char>, proof_hex: Seq<char>) -> bool {
    match spec_hex_utf8_chars(proof_hex) {
        None => false,
        Some(t) => match spec_parse_signal(t) {
            None => false,
            Some(e) => e.signal0 == pk && e.signal1 == root && parse_u64_spec(e.pi.a0) is Some
                && parse_u64_spec(e.pi.a1) is Some,
        },
    }
}

/// When the byte-proof check accepts; a failed hex decode of either field
/// stands for the empty byte string, as the oldest callers expect.
pub open spec fn spec_verify_query(
    name: Seq<char>,
    id: u64,
    root_hex: Seq<char>,
    proof_hex: Seq<char>,
) -> bool {
    let rb = if hex_ok(root_hex) {
        hex_bytes_of(root_hex)
    } else {
        Seq::<u8>::empty()
    };
    let pb = if hex_ok(proof_hex) {
        hex_bytes_of(proof_hex)
    } else {
        Seq::<u8>::empty()
    };
    crate::tree::verify_proof_spec(pb, name, id, rb)
}

/// Check a username-keyed envelope against the request and the store.
pub fn verify_user_zk_proof(
    tree: &SparseMerkleTree,
    req: &ZKVerifyRequest,
    proof_data: &UserEnvelope,
) -> (r: bool)
    requires
        tree.inv(),
    ensures
        r == spec_verify_user(tree.entries(), req.key@, proof_data@),
{
    let req_key = str_to_chars(req.key.as_str());
    if cmp_chars(&proof_data.username, &req_key) != 0 {
        return false;
    }
    let stored = match tree.get_value(&proof_data.username) {
        Some(v) => v,
        None => {
            return false;
        },
    };
    let stored_id = match parse_u64(stored) {
        Some(v) => v,
        None => {
            return false;
        },
    };
    if proof_data.secret_value != stored_id {
        return false;
    }
    let leaf_hash = proof_data.public_key.wrapping_mul(proof_data.public_key).wrapping_add(
        proof_data.secret_value.wrapping_mul(proof_data.secret_value),
    );
    let intermediate_hash1 = leaf_hash.wrapping_add(proof_data.sib0);
    let intermediate_hash2 = intermediate_hash1.wrapping_add(proof_data.sib1);
    let _computed_root = intermediate_hash2.wrapping_add(proof_data.sib2);
    true
}

/// Check a keyed-numeric envelope against the request and the store.
pub fn verify_legacy_zk_proof(
    tree: &SparseMerkleTree,
    req: &ZKVerifyRequest,
    proof_data: &KeyedEnvelope,
) -> (r: bool)
    requires
        tree.inv(),
    ensures
        r == spec_verify_legacy(tree.entries(), tree.root_bytes(), req.key@, proof_data@),
{
    let root = tree.root();
    let root_decimal = fr_decimal_le(root.as_slice());
    let root_chars = str_to_chars(root_decimal.as_str());
    if cmp_chars(&proof_data.smt_root, &root_chars) != 0 {
        return false;
    }
    let req_key = str_to_chars(req.key.as_str());
    let requested_key = match parse_u64(&req_key) {
        Some(v) => v,
        None => 0,
    };
    if proof_data.key != requested_key {
        return false;
    }
    let key_str = u64_to_dec_chars(proof_data.key);
    if !tree.contains_key(&key_str) {
        return false;
    }
    let leaf_hash = proof_data.key.wrapping_mul(proof_data.key).wrapping_add(
        proof_data.value.wrapping_mul(proof_data.value),
    );
    let intermediate_hash1 = leaf_hash.wrapping_add(proof_data.sib0);
    let intermediate_hash2 = intermediate_hash1.wrapping_add(proof_data.sib1);
    let _computed_root = intermediate_hash2.wrapping_add(proof_data.sib2);
    true
}

/// The membership entry point: decode the hex wire text, parse the envelope
/// (its shape decided once, by the field that follows the shared root), and
/// run the matching check.
pub fn verify_zk_membership(tree: &SparseMerkleTree, req: ZKVerifyRequest) -> (r: bool)
    requires
        tree.inv(),
    ensures
        r == spec_verify_zk_membership(
            tree.entries(),
            tree.root_bytes(),
            req.key@,
            req.zk_proof@,
        ),
{
    let chars = match decode_hex_utf8(req.zk_proof.as_str()) {
        Some(c) => c,
        None => {
            return false;
        },
    };
    match parse_envelope(&chars) {
        Some(Envelope::User(e)) => verify_user_zk_proof(tree, &req, &e),
        Some(Envelope::Keyed(e)) => verify_legacy_zk_proof(tree, &req, &e),
        None => false,
    }
}

/// The signal-based entry point: decode, parse the signal shape, and check
/// the two public signals and the `pi_a` integers.
pub fn verify_real_zk_membership(
    public_key: String,
    expected_root: String,
    zk_proof_hex: String,
) -> (r: bool)
    ensures
        r == spec_verify_real(public_key@, expected_root@, zk_proof_hex@),
{
    let chars = match decode_hex_utf8(zk_proof_hex.as_str()) {
        Some(c) => c,
        None => {
            return false;
        },
    };
    let envelope = match parse_signal_envelope(&chars) {
        Some(e) => e,
        None => {
            return false;
        },
    };
    let pk_chars = str_to_chars(public_key.as_str());
    if cmp_chars(&envelope.signal0, &pk_chars) != 0 {
        return false;
    }
    let root_chars = str_to_chars(expected_root.as_str());
    if cmp_chars(&envelope.signal1, &root_chars) != 0 {
        return false;
    }
    let a0_ok = match parse_u64(&envelope.pi.a0) {
        Some(_) => true,
        None => false,
    };
    if !a0_ok {
        return false;
    }
    let a1_ok = match parse_u64(&envelope.pi.a1) {
        Some(_) => true,
        None => false,
    };
    a1_ok
}

/// The byte-proof entry point kept for the oldest callers: hex-decode the
/// root and proof (an undecodable field stands for no bytes) and run the
/// chunk-fold check.
pub fn verify_query_result(req_old: VerifyRequestOld) -> (r: bool)
    ensures
        r == spec_verify_query(req_old.name@, req_old.id, req_old.root@, req_old.zk_proof@),
{
    let root_bytes = match hex_decode(req_old.root.as_str()) {
        Some(b) => b,
        None => Vec::new(),
    };
    let proof_bytes = match hex_decode(req_old.zk_proof.as_str()) {
        Some(b) => b,
        None => Vec::new(),
    };
    crate::tree::verify_proof(
        proof_bytes,
        (req_old.name.as_str(), req_old.id, root_bytes.as_slice()),
    )
}

// ---------------------------------------------------------------------------
// Proof generation.
// ---------------------------------------------------------------------------

/// Addition modulo two to the sixty-fourth.
pub open spec fn wadd(a: u64, b: u64) -> u64 {
    u64_specs::wrapping_add(a, b)
}

/// Multiplication modulo two to the sixty-fourth.
pub open spec fn wmul(a: u64, b: u64) -> u64 {
    u64_specs::wrapping_mul(a, b)
}

/// The simple rolling hash over a name's characters: accumulate by
/// multiplying by 31 and adding each code point, wrapping.
pub open spec fn hash31(s: Seq<char>) -> u64
    decreases s.len(),
{
    if s.len() == 0 {
        0
    } else {
        wadd(wmul(hash31(s.drop_last()), 31), (s.last() as u32) as u64)
    }
}

/// The sibling value an entry contributes in the keyed-numeric generator:
/// the sum of the squares of its parsed key and value.
pub open spec fn keyed_combine(e: EntrySpec) -> u64 {
    wadd(
        wmul(parse_or_zero(e.0), parse_or_zero(e.0)),
        wmul(parse_or_zero(e.1), parse_or_zero(e.1)),
    )
}

/// The sibling value an entry contributes in the username-keyed generator.
pub open spec fn user_combine(e: EntrySpec) -> u64 {
    wadd(hash31(e.0), parse_or_zero(e.1)) % 1000000
}

/// The sibling value an entry contributes in the proof-data helper.
pub open spec fn data_combine(e: EntrySpec) -> u64 {
    wadd(parse_or_zero(e.0), parse_or_zero(e.1))
}

/// The sibling values the keyed-numeric generator draws from every entry
/// other than the subject, in key order.
pub open spec fn keyed_cands(s: Seq<EntrySpec>, key: Seq<char>) -> Seq<u64>
    decreases s.len(),
{
    if s.len() == 0 {
        Seq::empty()
    } else if s.last().0 == key {
        keyed_cands(s.drop_last(), key)
    } else {
        keyed_cands(s.drop_last(), key).push(keyed_combine(s.last()))
    }
}

/// The sibling values the username-keyed generator draws from every entry
/// other than the subject, in key order.
pub open spec fn user_cands(s: Seq<EntrySpec>, username: Seq<char>) -> Seq<u64>
    decreases s.len(),
{
    if s.len() == 0 {
        Seq::empty()
    } else if s.last().0 == username {
        user_cands(s.drop_last(), username)
    } else {
        user_cands(s.drop_last(), username).push(user_combine(s.last()))
    }
}

/// The sibling values the proof-data helper draws from every entry other
/// than the subject, in key order.
pub open spec fn data_cands(s: Seq<EntrySpec>, key: Seq<char>) -> Seq<u64>
    decreases s.len(),
{
    if s.len() == 0 {
        Seq::empty()
    } else if s.last().0 == key {
        data_cands(s.drop_last(), key)
    } else {
        data_cands(s.drop_last(), key).push(data_combine(s.last()))
    }
}

/// The envelope that the keyed-numeric generator assembles.
pub open spec fn keyed_env_spec(
    entries: Seq<EntrySpec>,
    root: Seq<u8>,
    key: u64,
    value: u64,
    nonce: u64,
) -> KeyedEnvelopeSpec {
    let rd = fr_decimal(root);
    let c = keyed_cands(entries, dec_chars(key as nat));
    let s0 = if c.len() > 0 {
        c[0]
    } else {
        wadd(nonce, 0)
    };
    let s1 = if c.len() > 1 {
        c[1]
    } else {
        wadd(nonce, 1)
    };
    let s2 = if c.len() > 2 {
        c[2]
    } else {
        wadd(nonce, 2)
    };
    KeyedEnvelopeSpec {
        pi: PiSpec {
            a0: dec_chars(key as nat) + "1000000000"@,
            a1: dec_chars(value as nat) + "2000000000"@,
            b00: dec_chars(nonce as nat) + "3000000000"@,
            b01: rd + "4000000000"@,
            b10: dec_chars(wadd(key, value) as nat) + "5000000000"@,
            b11: dec_chars(wadd(nonce, s0) as nat) + "6000000000"@,
            c0: rd + "7000000000"@,
            c1: dec_chars(wmul(key, value) as nat) + "8000000000"@,
        },
        smt_root: rd,
        key: key,
        value: value,
        sib0: s0,
        sib1: s1,
        sib2: s2,
    }
}

/// The envelope that the username-keyed generator assembles for a user whose
/// stored value parsed to `user_id`.
pub open spec fn user_env_spec(
    entries: Seq<EntrySpec>,
    root: Seq<u8>,
    username: Seq<char>,
    user_id: u64,
    nonce: u64,
) -> UserEnvelopeSpec {
    let rd = fr_decimal(root);
    let pk = hash31(username);
    let c = user_cands(entries, username);
    let s0 = if c.len() > 0 {
        c[0]
    } else {
        100
    };
    let s1 = if c.len() > 1 {
        c[1]
    } else {
        200
    };
    let s2 = if c.len() > 2 {
        c[2]
    } else {
        300
    };
    UserEnvelopeSpec {
        pi: PiSpec {
            a0: dec_chars((pk % 1000) as nat) + "1000000000"@,
            a1: dec_chars((user_id % 1000) as nat) + "2000000000"@,
            b00: dec_chars((nonce % 1000) as nat) + "3000000000"@,
            b01: dec_chars((rd.len() % 1000) as nat) + "4000000000"@,
            b10: dec_chars((wadd(pk, user_id) % 1000) as nat) + "5000000000"@,
            b11: dec_chars((wadd(nonce, s0) % 1000) as nat) + "6000000000"@,
            c0: dec_chars((rd.len() % 1000) as nat) + "7000000000"@,
            c1: dec_chars((wmul(pk, user_id) % 1000) as nat) + "8000000000"@,
        },
        smt_root: rd,
        username: username,
        public_key: pk,
        secret_value: user_id,
        nonce: nonce,
        sib0: s0,
        sib1: s1,
        sib2: s2,
    }
}

/// The rolling hash of a name.
pub fn hash31_chars(v: &Vec<char>) -> (r: u64)
    ensures
        r == hash31(v@),
{
    let mut acc: u64 = 0;
    let mut i: usize = 0;
    while i < v.len()
        invariant
            0 <= i <= v@.len(),
            acc == hash31(v@.take(i as int)),
        decreases v@.len() - i,
    {
        proof {
            assert(v@.take(i + 1).drop_last() =~= v@.take(i as int));
            assert(v@.take(i + 1).last() == v@[i as int]);
        }
        acc = acc.wrapping_mul(31).wrapping_add((v[i] as u32) as u64);
        i = i + 1;
    }
    proof {
        assert(v@.take(i as int) =~= v@);
    }
    acc
}

/// The parsed value of a character vector, or zero.
fn parse_or_zero_exec(v: &Vec<char>) -> (r: u64)
    ensures
        r == parse_or_zero(v@),
{
    match parse_u64(v) {
        Some(n) => n,
        None => 0,
    }
}

/// Generate a keyed-numeric membership envelope: if the key is absent it is
/// first bound to the value (a deliberate side effect of generation); the
/// envelope over the resulting root and up to three sibling values is then
/// assembled, serialised to its compact text, and hex-encoded.
pub fn generate_zk_proof(
    tree: &mut SparseMerkleTree,
    key: u64,
    value: u64,
    nonce: u64,
) -> (r: String)
    requires
        old(tree).inv(),
    ensures
        final(tree).inv(),
        final(tree).entries() == if lookup(old(tree).entries(), dec_chars(key as nat)) is Some {
            old(tree).entries()
        } else {
            sorted_insert(old(tree).entries(), dec_chars(key as nat), dec_chars(value as nat))
        },
        r@ == hex_chars_of(
            vstd::utf8::encode_utf8(
                enc_keyed(
                    keyed_env_spec(
                        final(tree).entries(),
                        final(tree).root_bytes(),
                        key,
                        value,
                        nonce,
                    ),
                ),
            ),
        ),
{
    let key_chars = u64_to_dec_chars(key);
    if !tree.contains_key(&key_chars) {
        tree.bind(u64_to_dec_chars(key), u64_to_dec_chars(value));
    }
    let root_vec = tree.root();
    let root_decimal = fr_decimal_le(root_vec.as_slice());
    let ghost s = tree.entries();
    let mut cand: Vec<u64> = Vec::new();
    proof {
        assert(s.take(0) =~= Seq::<EntrySpec>::empty());
    }
    let mut i: usize = 0;
    while i < tree.len()
        invariant
            0 <= i <= s.len(),
            s == tree.entries(),
            tree.inv(),
            key_chars@ == dec_chars(key as nat),
            cand@.len() <= 3,
            keyed_cands(s.take(i as int), key_chars@).len() <= 3 ==> cand@ == keyed_cands(
                s.take(i as int),
                key_chars@,
            ),
            keyed_cands(s.take(i as int), key_chars@).len() > 3 ==> cand@ == keyed_cands(
                s.take(i as int),
                key_chars@,
            ).take(3),
        decreases s.len() - i,
    {
        proof {
            assert(s.take(i + 1).drop_last() =~= s.take(i as int));
            assert(s.take(i + 1).last() == s[i as int]);
        }
        if cmp_chars(tree.key_at(i), &key_chars) != 0 {
            let k_num = parse_or_zero_exec(tree.key_at(i));
            let v_num = parse_or_zero_exec(tree.value_at(i));
            let sval = k_num.wrapping_mul(k_num).wrapping_add(v_num.wrapping_mul(v_num));
            proof {
                assert(sval == keyed_combine(s[i as int]));
            }
            if cand.len() < 3 {
                cand.push(sval);
            }
            proof {
                let pre = keyed_cands(s.take(i as int), key_chars@);
                let post = keyed_cands(s.take(i + 1), key_chars@);
                assert(post == pre.push(keyed_combine(s[i as int])));
                if pre.len() >= 3 {
                    assert(post.take(3) =~= pre.take(3));
                }
            }
        } else {
            proof {
                assert(keyed_cands(s.take(i + 1), key_chars@) == keyed_cands(
                    s.take(i as int),
                    key_chars@,
                ));
            }
        }
        i = i + 1;
    }
    proof {
        assert(s.take(i as int) =~= s);
    }
    let s0 = if cand.len() > 0 {
        cand[0]
    } else {
        nonce.wrapping_add(0)
    };
    let s1 = if cand.len() > 1 {
        cand[1]
    } else {
        nonce.wrapping_add(1)
    };
    let s2 = if cand.len() > 2 {
        cand[2]
    } else {
        nonce.wrapping_add(2)
    };
    let a0 = concat_chars(&u64_to_dec_chars(key), "1000000000");
    let a1 = concat_chars(&u64_to_dec_chars(value), "2000000000");
    let b00 = concat_chars(&u64_to_dec_chars(nonce), "3000000000");
    let root_chars = str_to_chars(root_decimal.as_str());
    let b01 = concat_chars(&root_chars, "4000000000");
    let b10 = concat_chars(&u64_to_dec_chars(key.wrapping_add(value)), "5000000000");
    let b11 = concat_chars(&u64_to_dec_chars(nonce.wrapping_add(s0)), "6000000000");
    let c0 = concat_chars(&root_chars, "7000000000");
    let c1 = concat_chars(&u64_to_dec_chars(key.wrapping_mul(value)), "8000000000");
    let env = KeyedEnvelope {
        pi: Pi { a0, a1, b00, b01, b10, b11, c0, c1 },
        smt_root: str_to_chars(root_decimal.as_str()),
        key: key,
        value: value,
        sib0: s0,
        sib1: s1,
        sib2: s2,
    };
    proof {
        let es = keyed_env_spec(tree.entries(), tree.root_bytes(), key, value, nonce);
        let c = keyed_cands(tree.entries(), dec_chars(key as nat));
        assert(c == keyed_cands(s, key_chars@));
        assert(env@.sib0 == es.sib0 && env@.sib1 == es.sib1 && env@.sib2 == es.sib2);
        assert(env@.pi == es.pi);
        assert(env@ == es);
    }
    let text = build_keyed_envelope(&env);
    let text_string = chars_to_string(&text);
    hex_encode(text_string.as_str().as_bytes())
}

/// Generate a username-keyed membership envelope for a stored user, or a
/// hex-encoded literal error text when the username is absent or its stored
/// value does not parse as a number.
pub fn generate_zk_proof_for_user(
    tree: &SparseMerkleTree,
    username: String,
    nonce: u64,
) -> (r: String)
    requires
        tree.inv(),
    ensures
        lookup(tree.entries(), username@) is None ==> r@ == hex_chars_of(
            vstd::utf8::encode_utf8("ERROR: User "@ + username@ + " not found in SMT"@),
        ),
        lookup(tree.entries(), username@) is Some && parse_u64_spec(
            lookup(tree.entries(), username@)->0,
        ) is None ==> r@ == hex_chars_of(
            vstd::utf8::encode_utf8(
                "ERROR: Invalid ID format for user "@ + username@ + ": "@ + lookup(
                    tree.entries(),
                    username@,
                )->0,
            ),
        ),
        lookup(tree.entries(), username@) is Some && parse_u64_spec(
            lookup(tree.entries(), username@)->0,
        ) is Some ==> r@ == hex_chars_of(
            vstd::utf8::encode_utf8(
                enc_user(
                    user_env_spec(
                        tree.entries(),
                        tree.root_bytes(),
                        username@,
                        parse_u64_spec(lookup(tree.entries(), username@)->0)->0,
                        nonce,
                    ),
                ),
            ),
        ),
{
    let user_chars = str_to_chars(username.as_str());
    let stored = match tree.get_value(&user_chars) {
        Some(v) => v,
        None => {
            let mut out: Vec<char> = Vec::new();
            push_lit(&mut out, "ERROR: User ");
            push_piece(&mut out, &user_chars);
            push_lit(&mut out, " not found in SMT");
            proof {
                assert(out@ =~= "ERROR: User "@ + username@ + " not found in SMT"@);
            }
            let out_string = chars_to_string(&out);
            return hex_encode(out_string.as_str().as_bytes());
        },
    };
    let user_id = match parse_u64(stored) {
        Some(v) => v,
        None => {
            let mut out: Vec<char> = Vec::new();
            push_lit(&mut out, "ERROR: Invalid ID format for user ");
            push_piece(&mut out, &user_chars);
            push_lit(&mut out, ": ");
            push_piece(&mut out, stored);
            proof {
                assert(out@ =~= "ERROR: Invalid ID format for user "@ + username@ + ": "@
                    + lookup(tree.entries(), username@)->0);
            }
            let out_string = chars_to_string(&out);
            return hex_encode(out_string.as_str().as_bytes());
        },
    };
    let public_key = hash31_chars(&user_chars);
    let root_vec = tree.root();
    let root_decimal = fr_decimal_le(root_vec.as_slice());
    let root_chars = str_to_chars(root_decimal.as_str());
    let ghost s = tree.entries();
    let mut cand: Vec<u64> = Vec::new();
    proof {
        assert(s.take(0) =~= Seq::<EntrySpec>::empty());
    }
    let mut i: usize = 0;
    while i < tree.len()
        invariant
            0 <= i <= s.len(),
            s == tree.entries(),
            tree.inv(),
            user_chars@ == username@,
            cand@.len() <= 3,
            user_cands(s.take(i as int), username@).len() <= 3 ==> cand@ == user_cands(
                s.take(i as int),
                username@,
            ),
            user_cands(s.take(i as int), username@).len() > 3 ==> cand@ == user_cands(
                s.take(i as int),
                username@,
            ).take(3),
        decreases s.len() - i,
    {
        proof {
            assert(s.take(i + 1).drop_last() =~= s.take(i as int));
            assert(s.take(i + 1).last() == s[i as int]);
        }
        if cmp_chars(tree.key_at(i), &user_chars) != 0 {
            let other_id = parse_or_zero_exec(tree.value_at(i));
            let other_hash = hash31_chars(tree.key_at(i));
            let sval = other_hash.wrapping_add(other_id) % 1000000;
            proof {
                assert(sval == user_combine(s[i as int]));
            }
            if cand.len() < 3 {
                cand.push(sval);
            }
            proof {
                let pre = user_cands(s.take(i as int), username@);
                let post = user_cands(s.take(i + 1), username@);
                assert(post == pre.push(user_combine(s[i as int])));
                if pre.len() >= 3 {
                    assert(post.take(3) =~= pre.take(3));
                }
            }
        } else {
            proof {
                assert(user_cands(s.take(i + 1), username@) == user_cands(
                    s.take(i as int),
                    username@,
                ));
            }
        }
        i = i + 1;
    }
    proof {
        assert(s.take(i as int) =~= s);
    }
    let s0 = if cand.len() > 0 {
        cand[0]
    } else {
        100
    };
    let s1 = if cand.len() > 1 {
        cand[1]
    } else {
        200
    };
    let s2 = if cand.len() > 2 {
        cand[2]
    } else {
        300
    };
    let root_len = (root_chars.len() as u64) % 1000;
    let a0 = concat_chars(&u64_to_dec_chars(public_key % 1000), "1000000000");
    let a1 = concat_chars(&u64_to_dec_chars(user_id % 1000), "2000000000");
    let b00 = concat_chars(&u64_to_dec_chars(nonce % 1000), "3000000000");
    let b01 = concat_chars(&u64_to_dec_chars(root_len), "4000000000");
    let b10 = concat_chars(
        &u64_to_dec_chars(public_key.wrapping_add(user_id) % 1000),
        "5000000000",
    );
    let b11 = concat_chars(&u64_to_dec_chars(nonce.wrapping_add(s0) % 1000), "6000000000");
    let c0 = concat_chars(&u64_to_dec_chars(root_len), "7000000000");
    let c1 = concat_chars(
        &u64_to_dec_chars(public_key.wrapping_mul(user_id) % 1000),
        "8000000000",
    );
    let env = UserEnvelope {
        pi: Pi { a0, a1, b00, b01, b10, b11, c0, c1 },
        smt_root: root_chars,
        username: user_chars,
        public_key: public_key,
        secret_value: user_id,
        nonce: nonce,
        sib0: s0,
        sib1: s1,
        sib2: s2,
    };
    proof {
        let es = user_env_spec(tree.entries(), tree.root_bytes(), username@, user_id, nonce);
        let c = user_cands(tree.entries(), username@);
        assert(env@.sib0 == es.sib0 && env@.sib1 == es.sib1 && env@.sib2 == es.sib2);
        assert(env@.pi == es.pi);
        assert(env@ == es);
    }
    let text = build_user_envelope(&env);
    let text_string = chars_to_string(&text);
    hex_encode(text_string.as_str().as_bytes())
}

/// The helper that hands a prover its inputs: the expected root in decimal
/// and up to three sibling values, as compact JSON text; nothing for an
/// absent key.
pub fn get_smt_data_for_zk_proof(tree: &SparseMerkleTree, public_key: String) -> (r: Option<
    String,
>)
    requires
        tree.inv(),
    ensures
        r is Some <==> lookup(tree.entries(), public_key@) is Some,
        r is Some ==> r->0@ == {
            let c = data_cands(tree.entries(), public_key@);
            let s0 = if c.len() > 0 {
                c[0]
            } else {
                100
            };
            let s1 = if c.len() > 1 {
                c[1]
            } else {
                200
            };
            let s2 = if c.len() > 2 {
                c[2]
            } else {
                300
            };
            "{\"expectedRoot\":\""@ + fr_decimal(tree.root_bytes()) + "\",\"siblings\":["@
                + dec_chars(s0 as nat) + ","@ + dec_chars(s1 as nat) + ","@ + dec_chars(s2 as nat)
                + "]}"@
        },
{
    let key_chars = str_to_chars(public_key.as_str());
    if !tree.contains_key(&key_chars) {
        return None;
    }
    let root_vec = tree.root();
    let root_decimal = fr_decimal_le(root_vec.as_slice());
    let root_chars = str_to_chars(root_decimal.as_str());
    let ghost s = tree.entries();
    let mut cand: Vec<u64> = Vec::new();
    proof {
        assert(s.take(0) =~= Seq::<EntrySpec>::empty());
    }
    let mut i: usize = 0;
    while i < tree.len()
        invariant
            0 <= i <= s.len(),
            s == tree.entries(),
            tree.inv(),
            key_chars@ == public_key@,
            cand@.len() <= 3,
            data_cands(s.take(i as int), public_key@).len() <= 3 ==> cand@ == data_cands(
                s.take(i as int),
                public_key@,
            ),
            data_cands(s.take(i as int), public_key@).len() > 3 ==> cand@ == data_cands(
                s.take(i as int),
                public_key@,
            ).take(3),
        decreases s.len() - i,
    {
        proof {
            assert(s.take(i + 1).drop_last() =~= s.take(i as int));
            assert(s.take(i + 1).last() == s[i as int]);
        }
        if cmp_chars(tree.key_at(i), &key_chars) != 0 {
            let k_num = parse_or_zero_exec(tree.key_at(i));
            let v_num = parse_or_zero_exec(tree.value_at(i));
            let sval = k_num.wrapping_add(v_num);
            proof {
                assert(sval == data_combine(s[i as int]));
            }
            if cand.len() < 3 {
                cand.push(sval);
            }
            proof {
                let pre = data_cands(s.take(i as int), public_key@);
                let post = data_cands(s.take(i + 1), public_key@);
                assert(post == pre.push(data_combine(s[i as int])));
                if pre.len() >= 3 {
                    assert(post.take(3) =~= pre.take(3));
                }
            }
        } else {
            proof {
                assert(data_cands(s.take(i + 1), public_key@) == data_cands(
                    s.take(i as int),
                    public_key@,
                ));
            }
        }
        i = i + 1;
    }
    proof {
        assert(s.take(i as int) =~= s);
    }
    let s0 = if cand.len() > 0 {
        cand[0]
    } else {
        100
    };
    let s1 = if cand.len() > 1 {
        cand[1]
    } else {
        200
    };
    let s2 = if cand.len() > 2 {
        cand[2]
    } else {
        300
    };
    let mut out: Vec<char> = Vec::new();
    push_lit(&mut out, "{\"expectedRoot\":\"");
    push_piece(&mut out, &root_chars);
    push_lit(&mut out, "\",\"siblings\":[");
    push_u64(&mut out, s0);
    push_lit(&mut out, ",");
    push_u64(&mut out, s1);
    push_lit(&mut out, ",");
    push_u64(&mut out, s2);
    push_lit(&mut out, "]}");
    proof {
        let c = data_cands(tree.entries(), public_key@);
        assert(out@ =~= "{\"expectedRoot\":\""@ + fr_decimal(tree.root_bytes())
            + "\",\"siblings\":["@ + dec_chars(s0 as nat) + ","@ + dec_chars(s1 as nat) + ","@
            + dec_chars(s2 as nat) + "]}"@);
    }
    Some(chars_to_string(&out))
}

// ---------------------------------------------------------------------------
// Generation meets verification.
// ---------------------------------------------------------------------------

/// A digit string holds no double quote.
proof fn lemma_digits_quote_free(s: Seq<char>)
    requires
        crate::text::all_digits(s),
    ensures
        crate::envelope::quote_free(s),
{
}

/// Digit text followed by digit text holds no double quote.
proof fn lemma_dec_concat_quote_free(n: nat, sfx: Seq<char>)
    requires
        crate::text::all_digits(sfx),
    ensures
        crate::envelope::quote_free(dec_chars(n) + sfx),
{
    crate::text::lemma_dec_chars_val(n);
    let s = dec_chars(n) + sfx;
    assert forall|k: int| 0 <= k < s.len() implies s[k] != '"' by {
        if k < dec_chars(n).len() {
            assert(crate::text::is_digit(dec_chars(n)[k]));
        } else {
            assert(crate::text::is_digit(sfx[k - dec_chars(n).len()]));
        }
    }
}

/// Any well-formed username-keyed envelope whose subject is bound in the
/// store with a value parsing to its claimed secret is accepted, under the
/// request for that subject.
#[verifier::rlimit(100)]
#[verifier::spinoff_prover]
proof fn lemma_user_envelope_accepted(
    entries: Seq<EntrySpec>,
    root: Seq<u8>,
    e: UserEnvelopeSpec,
)
    requires
        crate::envelope::pi_quote_free(e.pi),
        crate::envelope::quote_free(e.smt_root),
        crate::envelope::quote_free(e.username),
        lookup(entries, e.username) is Some,
        parse_u64_spec(lookup(entries, e.username)->0) == Some(e.secret_value),
    ensures
        spec_verify_zk_membership(
            entries,
            root,
            e.username,
            hex_chars_of(vstd::utf8::encode_utf8(enc_user(e))),
        ),
{
    crate::envelope::lemma_user_round_trip(e);
    let t = enc_user(e);
    let b = vstd::utf8::encode_utf8(t);
    crate::hex_codec::lemma_hex_round_trip(b);
    vstd::utf8::encode_utf8_valid_utf8(t);
    vstd::utf8::encode_utf8_decode_utf8(t);
    assert(spec_hex_utf8_chars(hex_chars_of(b)) == Some(t));
    assert(spec_verify_user(entries, e.username, e));
}

/// The envelope the username-keyed generator assembles has quote-free
/// proof-system strings, and its root text is the root's decimal rendering.
#[verifier::rlimit(100)]
#[verifier::spinoff_prover]
proof fn lemma_user_env_spec_quote_free(
    entries: Seq<EntrySpec>,
    root: Seq<u8>,
    username: Seq<char>,
    user_id: u64,
    nonce: u64,
)
    ensures
        crate::envelope::pi_quote_free(user_env_spec(entries, root, username, user_id, nonce).pi),
{
    let e = user_env_spec(entries, root, username, user_id, nonce);
    reveal_strlit("1000000000");
    reveal_strlit("2000000000");
    reveal_strlit("3000000000");
    reveal_strlit("4000000000");
    reveal_strlit("5000000000");
    reveal_strlit("6000000000");
    reveal_strlit("7000000000");
    reveal_strlit("8000000000");
    lemma_dec_concat_quote_free((e.public_key % 1000) as nat, "1000000000"@);
    lemma_dec_concat_quote_free((user_id % 1000) as nat, "2000000000"@);
    lemma_dec_concat_quote_free((nonce % 1000) as nat, "3000000000"@);
    lemma_dec_concat_quote_free((fr_decimal(root).len() % 1000) as nat, "4000000000"@);
    lemma_dec_concat_quote_free((wadd(e.public_key, user_id) % 1000) as nat, "5000000000"@);
    lemma_dec_concat_quote_free((wadd(nonce, e.sib0) % 1000) as nat, "6000000000"@);
    lemma_dec_concat_quote_free((fr_decimal(root).len() % 1000) as nat, "7000000000"@);
    lemma_dec_concat_quote_free((wmul(e.public_key, user_id) % 1000) as nat, "8000000000"@);
}

/// A proof envelope freshly generated for a stored user is accepted by the
/// membership verifier of the same store: its subject matches the requested
/// key and its claimed secret value matches the stored one.
#[verifier::rlimit(100)]
#[verifier::spinoff_prover]
pub proof fn lemma_generated_user_proof_accepted(
    entries: Seq<EntrySpec>,
    root: Seq<u8>,
    username: Seq<char>,
    user_id: u64,
    nonce: u64,
)
    requires
        crate::envelope::quote_free(username),
        crate::envelope::quote_free(fr_decimal(root)),
        lookup(entries, username) is Some,
        parse_u64_spec(lookup(entries, username)->0) == Some(user_id),
    ensures
        spec_verify_zk_membership(
            entries,
            root,
            username,
            hex_chars_of(
                vstd::utf8::encode_utf8(
                    enc_user(user_env_spec(entries, root, username, user_id, nonce)),
                ),
            ),
        ),
{
    let e = user_env_spec(entries, root, username, user_id, nonce);
    lemma_user_env_spec_quote_free(entries, root, username, user_id, nonce);
    lemma_user_envelope_accepted(entries, root, e);
}

} // verus!
