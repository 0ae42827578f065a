//! The authenticated key-value store: entries kept sorted by key, a root that
//! is the sequential commitment over the sorted entry set, witness ("merkle
//! path") construction, and the byte-level proof check.

use vstd::prelude::*;
use crate::hashes::{
    zero_fe, str_hash, hash_pair, zero_fe_vec, hash_string, hash_two_to_one, fr_reduce,
    fr_reduce_le, FE_BYTES,
};
use crate::text::{chars_lt, lemma_chars_lt_asym, lemma_chars_lt_trans, cmp_chars, str_to_chars,
    chars_to_string, dec_chars, u64_to_dec_chars};

verus! {

/// Depth of the default-hash ladder built at creation.
pub const TREE_DEPTH: usize = 256;

/// One entry: a key and a value, as character sequences.
pub type EntrySpec = (Seq<char>, Seq<char>);

// ---------------------------------------------------------------------------
// The mathematical model: sorted association sequences.
// ---------------------------------------------------------------------------

/// Entries are strictly sorted by key (hence keys are unique).
pub open spec fn wf_entries(s: Seq<EntrySpec>) -> bool {
    forall|i: int, j: int| 0 <= i < j < s.len() ==> chars_lt(#[trigger] s[i].0, #[trigger] s[j].0)
}

/// The value bound to a key, if any.
pub open spec fn lookup(s: Seq<EntrySpec>, k: Seq<char>) -> Option<Seq<char>>
    decreases s.len(),
{
    if s.len() == 0 {
        None
    } else if s[0].0 == k {
        Some(s[0].1)
    } else {
        lookup(s.drop_first(), k)
    }
}

/// The sorted sequence after binding `k` to `v` (inserting or replacing).
pub open spec fn sorted_insert(s: Seq<EntrySpec>, k: Seq<char>, v: Seq<char>) -> Seq<EntrySpec>
    decreases s.len(),
{
    if s.len() == 0 {
        seq![(k, v)]
    } else if chars_lt(k, s[0].0) {
        seq![(k, v)] + s
    } else if k == s[0].0 {
        seq![(k, v)] + s.drop_first()
    } else {
        seq![s[0]] + sorted_insert(s.drop_first(), k, v)
    }
}

/// The sequence after unbinding `k` (a no-op if absent).
pub open spec fn sorted_remove(s: Seq<EntrySpec>, k: Seq<char>) -> Seq<EntrySpec>
    decreases s.len(),
{
    if s.len() == 0 {
        s
    } else if s[0].0 == k {
        sorted_remove(s.drop_first(), k)
    } else {
        seq![s[0]] + sorted_remove(s.drop_first(), k)
    }
}

/// Lexicographic order is irreflexive.
pub proof fn lemma_chars_lt_irrefl(a: Seq<char>)
    ensures
        !chars_lt(a, a),
    decreases a.len(),
{
    if a.len() > 0 {
        lemma_chars_lt_irrefl(a.drop_first());
    }
}

/// Lexicographic order is total: two sequences are ordered or equal.
pub proof fn lemma_chars_lt_total(a: Seq<char>, b: Seq<char>)
    ensures
        chars_lt(a, b) || chars_lt(b, a) || a == b,
    decreases a.len(),
{
    if b.len() == 0 {
        if a.len() == 0 {
            assert(a =~= b);
        } else {
            assert(chars_lt(b, a));
        }
    } else if a.len() == 0 {
        assert(chars_lt(a, b));
    } else if a[0] < b[0] || b[0] < a[0] {
    } else {
        assert(a[0] == b[0]) by {
            assert(a[0] as u32 == b[0] as u32);
            vstd::utf8::char_u32_cast(a[0], a[0] as u32);
            vstd::utf8::char_u32_cast(b[0], a[0] as u32);
        }
        lemma_chars_lt_total(a.drop_first(), b.drop_first());
        if a.drop_first() == b.drop_first() {
            assert(a =~= b) by {
                assert(a.drop_first().len() == a.len() - 1);
                assert(b.drop_first().len() == b.len() - 1);
                assert(a.len() == b.len());
                assert forall|j: int| 0 <= j < a.len() implies a[j] == b[j] by {
                    if j > 0 {
                        assert(a[j] == a.drop_first()[j - 1] && b[j] == b.drop_first()[j - 1]);
                    }
                }
            }
        }
    }
}

/// Binding a key keeps the entries sorted, and adds no key but the bound one.
pub proof fn lemma_sorted_insert_wf(s: Seq<EntrySpec>, k: Seq<char>, v: Seq<char>)
    requires
        wf_entries(s),
    ensures
        wf_entries(sorted_insert(s, k, v)),
        forall|j: int|
            0 <= j < sorted_insert(s, k, v).len() ==> (#[trigger] sorted_insert(s, k, v)[j].0 == k
                || (exists|i: int| 0 <= i < s.len() && #[trigger] s[i].0 == sorted_insert(s, k, v)[j].0)),
    decreases s.len(),
{
    let r = sorted_insert(s, k, v);
    if s.len() == 0 {
    } else if chars_lt(k, s[0].0) {
        assert forall|i: int, j: int| 0 <= i < j < r.len() implies chars_lt(
            #[trigger] r[i].0,
            #[trigger] r[j].0,
        ) by {
            if i == 0 {
                if j > 1 {
                    lemma_chars_lt_trans(k, s[0].0, s[j - 1].0);
                }
            }
        }
    } else if k == s[0].0 {
        assert forall|i: int, j: int| 0 <= i < j < r.len() implies chars_lt(
            #[trigger] r[i].0,
            #[trigger] r[j].0,
        ) by {
            if i == 0 {
                assert(r[j].0 == s[j].0);
            } else {
                assert(r[i].0 == s[i].0 && r[j].0 == s[j].0);
            }
        }
    } else {
        lemma_chars_lt_total(k, s[0].0);
        assert(chars_lt(s[0].0, k));
        let d = s.drop_first();
        assert(wf_entries(d)) by {
            assert(forall|i: int, j: int|
                0 <= i < j < d.len() ==> chars_lt(#[trigger] d[i].0, #[trigger] d[j].0)) by {
                assert(forall|i: int, j: int|
                    0 <= i < j < d.len() ==> d[i] == s[i + 1] && d[j] == s[j + 1]);
            }
        }
        lemma_sorted_insert_wf(d, k, v);
        let rd = sorted_insert(d, k, v);
        assert(r == seq![s[0]] + rd);
        assert forall|i: int, j: int| 0 <= i < j < r.len() implies chars_lt(
            #[trigger] r[i].0,
            #[trigger] r[j].0,
        ) by {
            if i == 0 {
                assert(r[j].0 == rd[j - 1].0);
                if rd[j - 1].0 == k {
                    assert(chars_lt(s[0].0, k));
                } else {
                    let w = choose|w: int| 0 <= w < d.len() && #[trigger] d[w].0 == rd[j - 1].0;
                    assert(d[w] == s[w + 1]);
                    assert(chars_lt(s[0].0, s[w + 1].0));
                }
            } else {
                assert(r[i].0 == rd[i - 1].0 && r[j].0 == rd[j - 1].0);
            }
        }
        assert forall|j: int| 0 <= j < r.len() implies (#[trigger] r[j].0 == k || (exists|i: int|
            0 <= i < s.len() && #[trigger] s[i].0 == r[j].0)) by {
            if j == 0 {
                assert(s[0].0 == r[0].0);
            } else if rd[j - 1].0 != k {
                let w = choose|w: int| 0 <= w < d.len() && #[trigger] d[w].0 == rd[j - 1].0;
                assert(s[w + 1].0 == r[j].0);
            }
        }
    }
}

/// Some entry of `s`, with a key other than `k`, equals `e`.
pub open spec fn stems_from(s: Seq<EntrySpec>, k: Seq<char>, e: EntrySpec) -> bool {
    exists|i: int| 0 <= i < s.len() && #[trigger] s[i] == e && s[i].0 != k
}

/// Unbinding a key keeps the entries sorted, and every surviving entry stems
/// from the original sequence.
pub proof fn lemma_sorted_remove_wf(s: Seq<EntrySpec>, k: Seq<char>)
    requires
        wf_entries(s),
    ensures
        wf_entries(sorted_remove(s, k)),
        forall|j: int|
            0 <= j < sorted_remove(s, k).len() ==> stems_from(
                s,
                k,
                #[trigger] sorted_remove(s, k)[j],
            ),
    decreases s.len(),
{
    let r = sorted_remove(s, k);
    if s.len() == 0 {
    } else {
        let d = s.drop_first();
        assert(wf_entries(d)) by {
            assert(forall|i: int, j: int|
                0 <= i < j < d.len() ==> d[i] == s[i + 1] && d[j] == s[j + 1]);
        }
        lemma_sorted_remove_wf(d, k);
        let rd = sorted_remove(d, k);
        if s[0].0 == k {
            assert(r == rd);
            assert forall|j: int| 0 <= j < r.len() implies stems_from(s, k, #[trigger] r[j]) by {
                assert(stems_from(d, k, rd[j]));
                let w = choose|w: int| 0 <= w < d.len() && #[trigger] d[w] == rd[j] && d[w].0 != k;
                assert(s[w + 1] == r[j] && s[w + 1].0 != k);
            }
        } else {
            assert(r == seq![s[0]] + rd);
            assert forall|i: int, j: int| 0 <= i < j < r.len() implies chars_lt(
                #[trigger] r[i].0,
                #[trigger] r[j].0,
            ) by {
                if i == 0 {
                    assert(stems_from(d, k, rd[j - 1]));
                    let w = choose|w: int|
                        0 <= w < d.len() && #[trigger] d[w] == rd[j - 1] && d[w].0 != k;
                    assert(d[w] == s[w + 1]);
                    assert(chars_lt(s[0].0, s[w + 1].0));
                } else {
                    assert(r[i] == rd[i - 1] && r[j] == rd[j - 1]);
                    assert(wf_entries(rd));
                    assert(chars_lt(rd[i - 1].0, rd[j - 1].0));
                }
            }
            assert forall|j: int| 0 <= j < r.len() implies stems_from(s, k, #[trigger] r[j]) by {
                if j == 0 {
                    assert(s[0] == r[0] && s[0].0 != k);
                } else {
                    assert(stems_from(d, k, rd[j - 1]));
                    let w = choose|w: int|
                        0 <= w < d.len() && #[trigger] d[w] == rd[j - 1] && d[w].0 != k;
                    assert(s[w + 1] == r[j] && s[w + 1].0 != k);
                }
            }
        }
    }
}

/// What a binding does to every lookup.
pub proof fn lemma_lookup_insert(s: Seq<EntrySpec>, k: Seq<char>, v: Seq<char>, q: Seq<char>)
    requires
        wf_entries(s),
    ensures
        lookup(sorted_insert(s, k, v), q) == if q == k {
            Some(v)
        } else {
            lookup(s, q)
        },
    decreases s.len(),
{
    let r = sorted_insert(s, k, v);
    if s.len() == 0 {
        assert(r == seq![(k, v)]);
        assert(r.drop_first() =~= Seq::<EntrySpec>::empty());
    } else if chars_lt(k, s[0].0) {
        assert(r == seq![(k, v)] + s);
        assert(r.drop_first() =~= s);
        if q == k {
        } else {
            assert(lookup(r, q) == lookup(s, q));
        }
    } else if k == s[0].0 {
        assert(r == seq![(k, v)] + s.drop_first());
        assert(r.drop_first() =~= s.drop_first());
    } else {
        let d = s.drop_first();
        assert(wf_entries(d)) by {
            assert(forall|i: int, j: int|
                0 <= i < j < d.len() ==> d[i] == s[i + 1] && d[j] == s[j + 1]);
        }
        lemma_chars_lt_total(k, s[0].0);
        lemma_chars_lt_irrefl(s[0].0);
        lemma_lookup_insert(d, k, v, q);
        assert(r == seq![s[0]] + sorted_insert(d, k, v));
        assert(r.drop_first() =~= sorted_insert(d, k, v));
        assert(r[0] == s[0]);
    }
}

/// What an unbinding does to every lookup.
pub proof fn lemma_lookup_remove(s: Seq<EntrySpec>, k: Seq<char>, q: Seq<char>)
    requires
        wf_entries(s),
    ensures
        lookup(sorted_remove(s, k), q) == if q == k {
            None::<Seq<char>>
        } else {
            lookup(s, q)
        },
    decreases s.len(),
{
    let r = sorted_remove(s, k);
    if s.len() == 0 {
    } else {
        let d = s.drop_first();
        assert(wf_entries(d)) by {
            assert(forall|i: int, j: int|
                0 <= i < j < d.len() ==> d[i] == s[i + 1] && d[j] == s[j + 1]);
        }
        lemma_lookup_remove(d, k, q);
        if s[0].0 == k {
            assert(r == sorted_remove(d, k));
        } else {
            assert(r == seq![s[0]] + sorted_remove(d, k));
            assert(r.drop_first() =~= sorted_remove(d, k));
            assert(r[0] == s[0]);
        }
    }
}

/// An entry at any position is found by lookup.
pub proof fn lemma_lookup_index(s: Seq<EntrySpec>, i: int)
    requires
        wf_entries(s),
        0 <= i < s.len(),
    ensures
        lookup(s, s[i].0) == Some(s[i].1),
    decreases i,
{
    if i == 0 {
    } else {
        let d = s.drop_first();
        assert(wf_entries(d)) by {
            assert(forall|x: int, y: int|
                0 <= x < y < d.len() ==> d[x] == s[x + 1] && d[y] == s[y + 1]);
        }
        assert(chars_lt(s[0].0, s[i].0));
        lemma_chars_lt_irrefl(s[0].0);
        assert(s[0].0 != s[i].0);
        lemma_lookup_index(d, i - 1);
        assert(d[i - 1] == s[i]);
    }
}

/// A successful lookup names an entry of the sequence.
pub proof fn lemma_lookup_exists(s: Seq<EntrySpec>, k: Seq<char>)
    requires
        lookup(s, k) is Some,
    ensures
        exists|i: int| 0 <= i < s.len() && #[trigger] s[i].0 == k && s[i].1 == lookup(s, k)->0,
    decreases s.len(),
{
    if s.len() > 0 && s[0].0 != k {
        lemma_lookup_exists(s.drop_first(), k);
        let w = choose|w: int|
            0 <= w < s.drop_first().len() && #[trigger] s.drop_first()[w].0 == k
                && s.drop_first()[w].1 == lookup(s.drop_first(), k)->0;
        assert(s[w + 1].0 == k && s[w + 1].1 == lookup(s, k)->0);
    }
}

/// A key held by no entry is not found.
pub proof fn lemma_lookup_absent(s: Seq<EntrySpec>, k: Seq<char>)
    requires
        forall|i: int| 0 <= i < s.len() ==> (#[trigger] s[i].0) != k,
    ensures
        lookup(s, k) is None,
    decreases s.len(),
{
    if s.len() > 0 {
        assert(forall|i: int|
            0 <= i < s.drop_first().len() ==> #[trigger] s.drop_first()[i] == s[i + 1]);
        lemma_lookup_absent(s.drop_first(), k);
    }
}

/// Two sorted entry sequences with the same lookups are the same sequence:
/// the sorted form is canonical in the key-to-value mapping.
pub proof fn lemma_entries_canonical(s1: Seq<EntrySpec>, s2: Seq<EntrySpec>)
    requires
        wf_entries(s1),
        wf_entries(s2),
        forall|k: Seq<char>| #[trigger] lookup(s1, k) == lookup(s2, k),
    ensures
        s1 == s2,
    decreases s1.len(),
{
    if s1.len() == 0 {
        if s2.len() > 0 {
            lemma_lookup_index(s2, 0);
            assert(lookup(s1, s2[0].0) is None);
        }
        assert(s1 =~= s2);
    } else if s2.len() == 0 {
        lemma_lookup_index(s1, 0);
        assert(lookup(s2, s1[0].0) is None);
        assert(s1 =~= s2);
    } else {
        lemma_lookup_index(s1, 0);
        lemma_lookup_index(s2, 0);
        assert(lookup(s2, s1[0].0) is Some);
        lemma_lookup_exists(s2, s1[0].0);
        let i2 = choose|i: int|
            0 <= i < s2.len() && #[trigger] s2[i].0 == s1[0].0 && s2[i].1 == lookup(s2, s1[0].0)->0;
        assert(lookup(s1, s2[0].0) is Some);
        lemma_lookup_exists(s1, s2[0].0);
        let i1 = choose|i: int|
            0 <= i < s1.len() && #[trigger] s1[i].0 == s2[0].0 && s1[i].1 == lookup(s1, s2[0].0)->0;
        if i1 > 0 && i2 > 0 {
            assert(chars_lt(s1[0].0, s1[i1].0));
            assert(chars_lt(s2[0].0, s2[i2].0));
            lemma_chars_lt_trans(s1[0].0, s2[0].0, s2[i2].0);
            lemma_chars_lt_irrefl(s1[0].0);
        }
        assert(s1[0].0 == s2[0].0);
        assert(s1[0].1 == s2[0].1);
        let d1 = s1.drop_first();
        let d2 = s2.drop_first();
        assert(wf_entries(d1)) by {
            assert(forall|x: int, y: int|
                0 <= x < y < d1.len() ==> d1[x] == s1[x + 1] && d1[y] == s1[y + 1]);
        }
        assert(wf_entries(d2)) by {
            assert(forall|x: int, y: int|
                0 <= x < y < d2.len() ==> d2[x] == s2[x + 1] && d2[y] == s2[y + 1]);
        }
        assert forall|k: Seq<char>| #[trigger] lookup(d1, k) == lookup(d2, k) by {
            if k == s1[0].0 {
                assert(forall|i: int| 0 <= i < d1.len() ==> (#[trigger] d1[i].0) != k) by {
                    assert(forall|i: int| 0 <= i < d1.len() ==> d1[i] == s1[i + 1]);
                    lemma_chars_lt_irrefl(k);
                }
                assert(forall|i: int| 0 <= i < d2.len() ==> (#[trigger] d2[i].0) != k) by {
                    assert(forall|i: int| 0 <= i < d2.len() ==> d2[i] == s2[i + 1]);
                    lemma_chars_lt_irrefl(k);
                }
                lemma_lookup_absent(d1, k);
                lemma_lookup_absent(d2, k);
            } else {
                assert(lookup(s1, k) == lookup(d1, k));
                assert(lookup(s2, k) == lookup(d2, k));
            }
        }
        lemma_entries_canonical(d1, d2);
        assert(s1 =~= s2) by {
            assert(s1.len() == s2.len());
            assert forall|j: int| 0 <= j < s1.len() implies s1[j] == s2[j] by {
                if j > 0 {
                    assert(s1[j] == d1[j - 1] && s2[j] == d2[j - 1]);
                }
            }
        }
    }
}

/// Unbinding a key and rebinding it to the value it held reproduces the exact
/// entry sequence.
pub proof fn lemma_remove_insert_restores(s: Seq<EntrySpec>, k: Seq<char>, v: Seq<char>)
    requires
        wf_entries(s),
        lookup(s, k) == Some(v),
    ensures
        sorted_insert(sorted_remove(s, k), k, v) == s,
{
    lemma_sorted_remove_wf(s, k);
    lemma_sorted_insert_wf(sorted_remove(s, k), k, v);
    assert forall|q: Seq<char>|
        #[trigger] lookup(sorted_insert(sorted_remove(s, k), k, v), q) == lookup(s, q) by {
        lemma_lookup_remove(s, k, q);
        lemma_lookup_insert(sorted_remove(s, k), k, v, q);
    }
    lemma_entries_canonical(sorted_insert(sorted_remove(s, k), k, v), s);
}

// ---------------------------------------------------------------------------
// The root: a sequential commitment over the sorted entry set.
// ---------------------------------------------------------------------------

/// The hash of one entry's leaf.
pub open spec fn leaf_hash(k: Seq<char>, v: Seq<char>) -> Seq<u8> {
    hash_pair(str_hash(k), str_hash(v))
}

/// Folding the entries into an accumulator, first entry first.
pub open spec fn fold_root(s: Seq<EntrySpec>, acc: Seq<u8>) -> Seq<u8>
    decreases s.len(),
{
    if s.len() == 0 {
        acc
    } else {
        fold_root(s.drop_first(), hash_pair(acc, leaf_hash(s[0].0, s[0].1)))
    }
}

/// The root value of a (sorted) entry sequence: the zero-seeded fold. An
/// empty sequence commits to the field-zero element.
pub open spec fn root_spec(s: Seq<EntrySpec>) -> Seq<u8> {
    fold_root(s, zero_fe())
}

/// The ladder of default hashes for empty subtrees.
pub open spec fn default_hash(n: nat) -> Seq<u8>
    decreases n,
{
    if n == 0 {
        zero_fe()
    } else {
        hash_pair(default_hash((n - 1) as nat), default_hash((n - 1) as nat))
    }
}

// ---------------------------------------------------------------------------
// The witness path.
// ---------------------------------------------------------------------------

/// The leaf hashes of every entry other than the one for `k`, in key order.
pub open spec fn path_spec(s: Seq<EntrySpec>, k: Seq<char>) -> Seq<Seq<u8>>
    decreases s.len(),
{
    if s.len() == 0 {
        Seq::empty()
    } else if s[0].0 == k {
        path_spec(s.drop_first(), k)
    } else {
        seq![leaf_hash(s[0].0, s[0].1)] + path_spec(s.drop_first(), k)
    }
}

/// When the key is bound, the path covers every other entry: one element
/// fewer than the entry count.
pub proof fn lemma_path_spec_len(s: Seq<EntrySpec>, k: Seq<char>)
    requires
        wf_entries(s),
    ensures
        lookup(s, k) is Some ==> path_spec(s, k).len() == s.len() - 1,
        lookup(s, k) is None ==> path_spec(s, k).len() == s.len(),
    decreases s.len(),
{
    if s.len() > 0 {
        let d = s.drop_first();
        assert(wf_entries(d)) by {
            assert(forall|x: int, y: int|
                0 <= x < y < d.len() ==> d[x] == s[x + 1] && d[y] == s[y + 1]);
        }
        lemma_path_spec_len(d, k);
        if s[0].0 == k {
            assert(forall|i: int| 0 <= i < d.len() ==> (#[trigger] d[i].0) != k) by {
                assert(forall|i: int| 0 <= i < d.len() ==> d[i] == s[i + 1]);
                lemma_chars_lt_irrefl(k);
            }
            lemma_lookup_absent(d, k);
        }
    }
}

// ---------------------------------------------------------------------------
// The tree itself.
// ---------------------------------------------------------------------------

/// A witness element: the hash of another entry, with a side flag.
pub struct PathElement {
    /// Canonical bytes of the other entry's leaf hash.
    pub value: Vec<u8>,
    /// Side flag; this construction always reports "left".
    pub is_left: bool,
}

/// A witness: one element per other entry.
pub struct MerkleTreePath {
    pub path: Vec<PathElement>,
}

/// The authenticated store: entries sorted by key, the current root, and the
/// precomputed default-hash ladder.
pub struct SparseMerkleTree {
    /// The entries, sorted strictly by key.
    pub data: Vec<(Vec<char>, Vec<char>)>,
    /// The current root, in canonical byte form.
    pub root: Vec<u8>,
    /// The precomputed ladder of default hashes for empty subtrees.
    pub default_hashes: Vec<Vec<u8>>,
}

impl SparseMerkleTree {
    /// The entries as a sequence of character-sequence pairs, in key order.
    pub open spec fn entries(&self) -> Seq<EntrySpec> {
        Seq::new(self.data@.len(), |i: int| (self.data@[i].0@, self.data@[i].1@))
    }

    /// The current root, in canonical byte form.
    pub open spec fn root_bytes(&self) -> Seq<u8> {
        self.root@
    }

    /// The data portion of well-formedness: sorted unique entries and a full
    /// default-hash ladder.
    pub open spec fn wf_data(&self) -> bool {
        &&& wf_entries(self.entries())
        &&& self.default_hashes@.len() == TREE_DEPTH + 1
        &&& forall|i: int|
            0 <= i <= TREE_DEPTH ==> (#[trigger] self.default_hashes@[i]@) == default_hash(i as nat)
    }

    /// Well-formedness: well-formed data and a root that commits to the
    /// entries — except that a freshly created, never-mutated empty tree
    /// carries the ladder top instead.
    pub open spec fn inv(&self) -> bool {
        &&& self.wf_data()
        &&& self.root@.len() == FE_BYTES
        &&& if self.entries().len() == 0 {
            self.root@ == root_spec(self.entries()) || self.root@ == default_hash(TREE_DEPTH as nat)
        } else {
            self.root@ == root_spec(self.entries())
        }
    }

    /// Build the default-hash ladder and start empty, with the ladder top as
    /// the initial root.
    pub fn new() -> (t: Self)
        ensures
            t.inv(),
            t.entries().len() == 0,
            t.root_bytes() == default_hash(TREE_DEPTH as nat),
    {
        let mut default_hashes: Vec<Vec<u8>> = Vec::new();
        default_hashes.push(zero_fe_vec());
        let mut i: usize = 0;
        while i < TREE_DEPTH
            invariant
                default_hashes@.len() == i + 1,
                i <= TREE_DEPTH,
                forall|j: int|
                    0 <= j <= i ==> (#[trigger] default_hashes@[j]@) == default_hash(j as nat),
                forall|j: int| 0 <= j <= i ==> (#[trigger] default_hashes@[j]@).len() == FE_BYTES,
            decreases TREE_DEPTH - i,
        {
            let prev = &default_hashes[i];
            let next = hash_two_to_one(prev, prev);
            default_hashes.push(next);
            i = i + 1;
        }
        let root = crate::hashes::clone_fe(&default_hashes[TREE_DEPTH]);
        let t = SparseMerkleTree { data: Vec::new(), root, default_hashes };
        proof {
            assert(t.entries() =~= Seq::<EntrySpec>::empty());
        }
        t
    }

    /// The current root in canonical byte form (no recomputation).
    pub fn root(&self) -> (r: Vec<u8>)
        ensures
            r@ == self.root_bytes(),
    {
        crate::hashes::clone_fe(&self.root)
    }

    /// How many entries the store holds.
    pub fn len(&self) -> (n: usize)
        ensures
            n == self.entries().len(),
    {
        self.data.len()
    }

    /// The key of the entry at a position, in key order.
    pub fn key_at(&self, i: usize) -> (k: &Vec<char>)
        requires
            i < self.entries().len(),
        ensures
            k@ == self.entries()[i as int].0,
    {
        &self.data[i].0
    }

    /// The value of the entry at a position, in key order.
    pub fn value_at(&self, i: usize) -> (v: &Vec<char>)
        requires
            i < self.entries().len(),
        ensures
            v@ == self.entries()[i as int].1,
    {
        &self.data[i].1
    }

    /// The value bound to a key, if any.
    pub fn get_value(&self, key: &Vec<char>) -> (r: Option<&Vec<char>>)
        requires
            self.inv(),
        ensures
            r is Some <==> lookup(self.entries(), key@) is Some,
            r is Some ==> r->0@ == lookup(self.entries(), key@)->0,
    {
        let s = Ghost(self.entries());
        let mut i: usize = 0;
        while i < self.data.len()
            invariant
                0 <= i <= self.data@.len(),
                s@ == self.entries(),
                self.inv(),
                forall|j: int| 0 <= j < i ==> (#[trigger] s@[j].0) != key@,
            decreases self.data@.len() - i,
        {
            if cmp_chars(&self.data[i].0, key) == 0 {
                proof {
                    lemma_lookup_index(s@, i as int);
                }
                return Some(&self.data[i].1);
            }
            i = i + 1;
        }
        proof {
            lemma_lookup_absent(s@, key@);
        }
        None
    }

    /// Whether a key is bound.
    pub fn contains_key(&self, key: &Vec<char>) -> (r: bool)
        requires
            self.inv(),
        ensures
            r == (lookup(self.entries(), key@) is Some),
    {
        match self.get_value(key) {
            Some(_) => true,
            None => false,
        }
    }

    /// Recompute the root as the zero-seeded fold over the sorted entries.
    fn compute_root(&mut self)
        requires
            old(self).wf_data(),
        ensures
            final(self).inv(),
            final(self).data == old(self).data,
            final(self).default_hashes == old(self).default_hashes,
            final(self).root@ == root_spec(final(self).entries()),
    {
        let s = Ghost(self.entries());
        let mut acc = zero_fe_vec();
        proof {
            assert(s@.skip(0) =~= s@);
        }
        let mut i: usize = 0;
        while i < self.data.len()
            invariant
                0 <= i <= self.data@.len(),
                s@ == self.entries(),
                self.wf_data(),
                acc@.len() == FE_BYTES,
                fold_root(s@.skip(i as int), acc@) == root_spec(s@),
            decreases self.data@.len() - i,
        {
            let key_hash = crate::hashes::hash_chars(&self.data[i].0);
            let value_hash = crate::hashes::hash_chars(&self.data[i].1);
            let pair_hash = hash_two_to_one(&key_hash, &value_hash);
            proof {
                assert(s@.skip(i as int)[0] == s@[i as int]);
                assert(s@.skip(i as int).drop_first() =~= s@.skip(i + 1));
                assert(pair_hash@ == leaf_hash(s@[i as int].0, s@[i as int].1));
            }
            acc = hash_two_to_one(&acc, &pair_hash);
            i = i + 1;
        }
        proof {
            assert(s@.skip(i as int) =~= Seq::<EntrySpec>::empty());
        }
        self.root = acc;
    }
}

/// Bind a key to a value (inserting or replacing) and recompute the root.
pub fn insert_to_tree(tree: &mut SparseMerkleTree, key: &str, value: &str)
    requires
        old(tree).inv(),
    ensures
        final(tree).inv(),
        final(tree).entries() == sorted_insert(old(tree).entries(), key@, value@),
        final(tree).root_bytes() == root_spec(final(tree).entries()),
        lookup(final(tree).entries(), key@) == Some(value@),
        forall|q: Seq<char>|
            q != key@ ==> #[trigger] lookup(final(tree).entries(), q) == lookup(
                old(tree).entries(),
                q,
            ),
{
    let key_chars = str_to_chars(key);
    let value_chars = str_to_chars(value);
    tree.bind(key_chars, value_chars);
    proof {
        lemma_lookup_insert(old(tree).entries(), key@, value@, key@);
        assert forall|q: Seq<char>| q != key@ implies #[trigger] lookup(tree.entries(), q)
            == lookup(old(tree).entries(), q) by {
            lemma_lookup_insert(old(tree).entries(), key@, value@, q);
        }
    }
}

/// Unbind a key (a no-op if absent) and recompute the root.
pub fn delete_from_tree(tree: &mut SparseMerkleTree, key: &str)
    requires
        old(tree).inv(),
    ensures
        final(tree).inv(),
        final(tree).entries() == sorted_remove(old(tree).entries(), key@),
        final(tree).root_bytes() == root_spec(final(tree).entries()),
        lookup(final(tree).entries(), key@) is None,
        forall|q: Seq<char>|
            q != key@ ==> #[trigger] lookup(final(tree).entries(), q) == lookup(
                old(tree).entries(),
                q,
            ),
{
    let key_chars = str_to_chars(key);
    tree.unbind(&key_chars);
    proof {
        lemma_lookup_remove(old(tree).entries(), key@, key@);
        assert forall|q: Seq<char>| q != key@ implies #[trigger] lookup(tree.entries(), q)
            == lookup(old(tree).entries(), q) by {
            lemma_lookup_remove(old(tree).entries(), key@, q);
        }
    }
}

impl SparseMerkleTree {
    /// Splice a binding into the sorted entries and recompute the root.
    pub fn bind(&mut self, key: Vec<char>, value: Vec<char>)
        requires
            old(self).inv(),
        ensures
            final(self).inv(),
            final(self).entries() == sorted_insert(old(self).entries(), key@, value@),
            final(self).root_bytes() == root_spec(final(self).entries()),
    {
        let s = Ghost(self.entries());
        let mut idx: usize = 0;
        while idx < self.data.len() && cmp_chars(&self.data[idx].0, &key) == -1
            invariant
                0 <= idx <= self.data@.len(),
                s@ == self.entries(),
                old(self) == self,
                forall|j: int| 0 <= j < idx ==> chars_lt(#[trigger] s@[j].0, key@),
            decreases self.data@.len() - idx,
        {
            idx = idx + 1;
        }
        let ghost at_end = idx as int == s@.len();
        let replace = if idx < self.data.len() {
            cmp_chars(&self.data[idx].0, &key) == 0
        } else {
            false
        };
        proof {
            if !at_end {
                lemma_chars_lt_total(key@, s@[idx as int].0);
            }
        }
        if replace {
            self.data.remove(idx);
        }
        self.data.insert(idx, (key, value));
        proof {
            let kv = (key@, value@);
            let olds = s@;
            if replace {
                assert(self.entries() =~= olds.take(idx as int) + seq![kv] + olds.skip(
                    idx as int + 1,
                ));
            } else {
                assert(self.entries() =~= olds.take(idx as int) + seq![kv] + olds.skip(idx as int));
            }
            lemma_sorted_insert_at(olds, key@, value@, idx as int, replace);
            lemma_sorted_insert_wf(olds, key@, value@);
            assert(self.wf_data());
        }
        self.compute_root();
    }

    /// Splice a binding out of the sorted entries (a no-op if the key is
    /// absent) and recompute the root.
    pub fn unbind(&mut self, key: &Vec<char>)
        requires
            old(self).inv(),
        ensures
            final(self).inv(),
            final(self).entries() == sorted_remove(old(self).entries(), key@),
            final(self).root_bytes() == root_spec(final(self).entries()),
    {
        let s = Ghost(self.entries());
        let mut idx: usize = 0;
        while idx < self.data.len() && cmp_chars(&self.data[idx].0, key) == -1
            invariant
                0 <= idx <= self.data@.len(),
                s@ == self.entries(),
                old(self) == self,
                forall|j: int| 0 <= j < idx ==> chars_lt(#[trigger] s@[j].0, key@),
            decreases self.data@.len() - idx,
        {
            idx = idx + 1;
        }
        let found = if idx < self.data.len() {
            cmp_chars(&self.data[idx].0, key) == 0
        } else {
            false
        };
        proof {
            if (idx as int) < s@.len() {
                lemma_chars_lt_total(key@, s@[idx as int].0);
            }
        }
        if found {
            self.data.remove(idx);
            proof {
                assert(self.entries() =~= s@.take(idx as int) + s@.skip(idx as int + 1));
            }
        }
        proof {
            lemma_sorted_remove_at(s@, key@, idx as int, found);
            lemma_sorted_remove_wf(s@, key@);
            if !found {
                assert(self.entries() == s@);
            }
            assert(self.wf_data());
        }
        self.compute_root();
    }
}

/// Where the scan stopped determines the spliced form of a binding.
proof fn lemma_sorted_insert_at(
    s: Seq<EntrySpec>,
    k: Seq<char>,
    v: Seq<char>,
    idx: int,
    replace: bool,
)
    requires
        wf_entries(s),
        0 <= idx <= s.len(),
        forall|j: int| 0 <= j < idx ==> chars_lt(#[trigger] s[j].0, k),
        replace ==> idx < s.len() && s[idx].0 == k,
        !replace ==> (idx == s.len() || chars_lt(k, s[idx].0)),
    ensures
        replace ==> sorted_insert(s, k, v) == s.take(idx) + seq![(k, v)] + s.skip(idx + 1),
        !replace ==> sorted_insert(s, k, v) == s.take(idx) + seq![(k, v)] + s.skip(idx),
    decreases idx,
{
    if idx == 0 {
        if replace {
            assert(s.take(0) + seq![(k, v)] + s.skip(1) =~= seq![(k, v)] + s.drop_first());
            lemma_chars_lt_irrefl(k);
            assert(!chars_lt(k, s[0].0));
        } else if s.len() == 0 {
            assert(s.take(0) + seq![(k, v)] + s.skip(0) =~= seq![(k, v)]);
        } else {
            assert(chars_lt(k, s[0].0));
            assert(s.take(0) + seq![(k, v)] + s.skip(0) =~= seq![(k, v)] + s);
        }
    } else {
        assert(chars_lt(s[0].0, k));
        lemma_chars_lt_asym(s[0].0, k);
        lemma_chars_lt_irrefl(k);
        assert(!chars_lt(k, s[0].0) && k != s[0].0);
        let d = s.drop_first();
        assert(wf_entries(d)) by {
            assert(forall|x: int, y: int|
                0 <= x < y < d.len() ==> d[x] == s[x + 1] && d[y] == s[y + 1]);
        }
        assert(forall|j: int| 0 <= j < idx - 1 ==> chars_lt(#[trigger] d[j].0, k)) by {
            assert(forall|j: int| 0 <= j < idx - 1 ==> d[j] == s[j + 1]);
        }
        assert(idx - 1 < d.len() ==> d[idx - 1] == s[idx]);
        lemma_sorted_insert_at(d, k, v, idx - 1, replace);
        assert(sorted_insert(s, k, v) == seq![s[0]] + sorted_insert(d, k, v));
        if replace {
            assert(seq![s[0]] + (d.take(idx - 1) + seq![(k, v)] + d.skip(idx)) =~= s.take(idx)
                + seq![(k, v)] + s.skip(idx + 1));
        } else {
            assert(seq![s[0]] + (d.take(idx - 1) + seq![(k, v)] + d.skip(idx - 1)) =~= s.take(idx)
                + seq![(k, v)] + s.skip(idx));
        }
    }
}

/// Where the scan stopped determines the spliced form of an unbinding.
proof fn lemma_sorted_remove_at(s: Seq<EntrySpec>, k: Seq<char>, idx: int, found: bool)
    requires
        wf_entries(s),
        0 <= idx <= s.len(),
        forall|j: int| 0 <= j < idx ==> chars_lt(#[trigger] s[j].0, k),
        found ==> idx < s.len() && s[idx].0 == k,
        !found ==> (idx == s.len() || chars_lt(k, s[idx].0)),
    ensures
        found ==> sorted_remove(s, k) == s.take(idx) + s.skip(idx + 1),
        !found ==> sorted_remove(s, k) == s,
    decreases s.len(),
{
    if s.len() == 0 {
        assert(sorted_remove(s, k) == s);
    } else {
        let d = s.drop_first();
        assert(wf_entries(d)) by {
            assert(forall|x: int, y: int|
                0 <= x < y < d.len() ==> d[x] == s[x + 1] && d[y] == s[y + 1]);
        }
        if idx == 0 {
            if found {
                assert(s[0].0 == k);
                assert(forall|i: int| 0 <= i < d.len() ==> (#[trigger] d[i].0) != k) by {
                    assert(forall|i: int| 0 <= i < d.len() ==> d[i] == s[i + 1]);
                    lemma_chars_lt_irrefl(k);
                }
                lemma_sorted_remove_absent(d, k);
                assert(sorted_remove(s, k) == sorted_remove(d, k));
                assert(s.take(0) + s.skip(1) =~= d);
            } else {
                assert(chars_lt(k, s[0].0));
                lemma_chars_lt_asym(k, s[0].0);
                lemma_chars_lt_irrefl(k);
                assert(s[0].0 != k);
                assert(forall|i: int| 0 <= i < d.len() ==> (#[trigger] d[i].0) != k) by {
                    assert(forall|i: int| 0 <= i < d.len() ==> d[i] == s[i + 1]);
                    assert(forall|i: int|
                        0 <= i < d.len() ==> chars_lt(s[0].0, #[trigger] d[i].0)) by {
                        assert(forall|i: int| 0 <= i < d.len() ==> d[i] == s[i + 1]);
                    }
                    assert forall|i: int| 0 <= i < d.len() implies (#[trigger] d[i].0) != k by {
                        lemma_chars_lt_trans(k, s[0].0, d[i].0);
                        lemma_chars_lt_irrefl(k);
                    }
                }
                lemma_sorted_remove_absent(d, k);
                assert(sorted_remove(s, k) == seq![s[0]] + sorted_remove(d, k));
                assert(seq![s[0]] + d =~= s);
            }
        } else {
            assert(chars_lt(s[0].0, k));
            lemma_chars_lt_irrefl(k);
            assert(s[0].0 != k);
            assert(forall|j: int| 0 <= j < idx - 1 ==> chars_lt(#[trigger] d[j].0, k)) by {
                assert(forall|j: int| 0 <= j < idx - 1 ==> d[j] == s[j + 1]);
            }
            assert(idx - 1 < d.len() ==> d[idx - 1] == s[idx]);
            lemma_sorted_remove_at(d, k, idx - 1, found);
            assert(sorted_remove(s, k) == seq![s[0]] + sorted_remove(d, k));
            if found {
                assert(seq![s[0]] + (d.take(idx - 1) + d.skip(idx)) =~= s.take(idx) + s.skip(
                    idx + 1,
                ));
            } else {
                assert(seq![s[0]] + d =~= s);
            }
        }
    }
}

/// Unbinding a key that no entry holds changes nothing.
proof fn lemma_sorted_remove_absent(s: Seq<EntrySpec>, k: Seq<char>)
    requires
        forall|i: int| 0 <= i < s.len() ==> (#[trigger] s[i].0) != k,
    ensures
        sorted_remove(s, k) == s,
    decreases s.len(),
{
    if s.len() > 0 {
        assert(forall|i: int|
            0 <= i < s.drop_first().len() ==> #[trigger] s.drop_first()[i] == s[i + 1]);
        lemma_sorted_remove_absent(s.drop_first(), k);
        assert(seq![s[0]] + s.drop_first() =~= s);
    }
}

/// Build the witness for a key: if the key is absent the witness is empty;
/// otherwise one element per other entry, in key order, each the hash of that
/// entry's leaf, flagged "left".
pub fn get_merkle_path(tree: &SparseMerkleTree, key: &str) -> (r: MerkleTreePath)
    requires
        tree.inv(),
    ensures
        lookup(tree.entries(), key@) is None ==> r.path@.len() == 0,
        lookup(tree.entries(), key@) is Some ==> {
            &&& r.path@.len() == path_spec(tree.entries(), key@).len()
            &&& r.path@.len() == tree.entries().len() - 1
            &&& forall|i: int|
                0 <= i < r.path@.len() ==> (#[trigger] r.path@[i]).value@ == path_spec(
                    tree.entries(),
                    key@,
                )[i] && r.path@[i].is_left
        },
{
    let key_chars = str_to_chars(key);
    let mut path: Vec<PathElement> = Vec::new();
    if !tree.contains_key(&key_chars) {
        return MerkleTreePath { path };
    }
    let s = Ghost(tree.entries());
    let p = Ghost(path_spec(tree.entries(), key@));
    proof {
        assert(s@.skip(0) =~= s@);
        assert(Seq::new(path@.len(), |j: int| path@[j].value@) + path_spec(s@, key@) =~= path_spec(
            s@,
            key@,
        ));
    }
    let mut i: usize = 0;
    while i < tree.len()
        invariant
            0 <= i <= s@.len(),
            s@ == tree.entries(),
            p@ == path_spec(tree.entries(), key@),
            tree.inv(),
            key_chars@ == key@,
            Seq::new(path@.len(), |j: int| path@[j].value@) + path_spec(s@.skip(i as int), key@)
                == p@,
            forall|j: int| 0 <= j < path@.len() ==> (#[trigger] path@[j]).is_left,
        decreases s@.len() - i,
    {
        proof {
            assert(s@.skip(i as int)[0] == s@[i as int]);
            assert(s@.skip(i as int).drop_first() =~= s@.skip(i + 1));
        }
        if cmp_chars(tree.key_at(i), &key_chars) != 0 {
            let other_key_hash = crate::hashes::hash_chars(tree.key_at(i));
            let other_value_hash = crate::hashes::hash_chars(tree.value_at(i));
            let combined_hash = hash_two_to_one(&other_key_hash, &other_value_hash);
            let ghost prev = path@;
            let ghost leaf = leaf_hash(s@[i as int].0, s@[i as int].1);
            path.push(PathElement { value: combined_hash, is_left: true });
            proof {
                assert(path_spec(s@.skip(i as int), key@) == seq![leaf] + path_spec(
                    s@.skip(i + 1),
                    key@,
                ));
                assert(Seq::new(path@.len(), |j: int| path@[j].value@) =~= Seq::new(
                    prev.len(),
                    |j: int| prev[j].value@,
                ).push(leaf));
                assert(Seq::new(prev.len(), |j: int| prev[j].value@).push(leaf) + path_spec(
                    s@.skip(i + 1),
                    key@,
                ) =~= Seq::new(prev.len(), |j: int| prev[j].value@) + (seq![leaf] + path_spec(
                    s@.skip(i + 1),
                    key@,
                )));
            }
        } else {
            proof {
                assert(path_spec(s@.skip(i as int), key@) == path_spec(s@.skip(i + 1), key@));
            }
        }
        i = i + 1;
    }
    proof {
        assert(s@.skip(i as int) =~= Seq::<EntrySpec>::empty());
        assert(path_spec(s@.skip(i as int), key@) == Seq::<Seq<u8>>::empty());
        assert(Seq::new(path@.len(), |j: int| path@[j].value@) + Seq::<Seq<u8>>::empty() =~= Seq::new(
            path@.len(),
            |j: int| path@[j].value@,
        ));
        lemma_path_spec_len(s@, key@);
        assert forall|j: int| 0 <= j < path@.len() implies (#[trigger] path@[j]).value@ == p@[j] by {
            assert(Seq::new(path@.len(), |x: int| path@[x].value@)[j] == path@[j].value@);
        }
    }
    MerkleTreePath { path }
}

// ---------------------------------------------------------------------------
// The byte-level proof check.
// ---------------------------------------------------------------------------

/// Folding fixed-width chunks of proof bytes into the running hash.
pub open spec fn chunk_fold(p: Seq<u8>, acc: Seq<u8>) -> Seq<u8>
    decreases p.len(),
{
    if p.len() < FE_BYTES {
        acc
    } else {
        chunk_fold(p.skip(FE_BYTES as int), hash_pair(acc, fr_reduce(p.take(FE_BYTES as int))))
    }
}

/// What the byte-level check accepts: proofs whose length is a whole number
/// of field-element widths and whose chunk fold, seeded with the hash of the
/// (name, id) pair, equals the field element the root bytes decode to.
pub open spec fn verify_proof_spec(p: Seq<u8>, name: Seq<char>, id: u64, root: Seq<u8>) -> bool {
    &&& p.len() % (FE_BYTES as nat) == 0
    &&& chunk_fold(p, hash_pair(str_hash(name), str_hash(dec_chars(id as nat)))) == fr_reduce(root)
}

/// Check a byte proof against a name, an id and expected root bytes.
pub fn verify_proof(proof_bytes: Vec<u8>, inputs: (&str, u64, &[u8])) -> (r: bool)
    ensures
        r == verify_proof_spec(proof_bytes@, inputs.0@, inputs.1, inputs.2@),
{
    let (name, id, expected_root_bytes) = inputs;
    if proof_bytes.len() % FE_BYTES != 0 {
        return false;
    }
    let name_hash = hash_string(name);
    let id_chars = u64_to_dec_chars(id);
    let id_string = chars_to_string(&id_chars);
    let id_hash = hash_string(id_string.as_str());
    let mut current_hash = hash_two_to_one(&name_hash, &id_hash);
    let n = proof_bytes.len();
    let p = Ghost(proof_bytes@);
    let seed = Ghost(current_hash@);
    proof {
        assert(p@.skip(0) =~= p@);
    }
    let mut off: usize = 0;
    while off < n
        invariant
            0 <= off <= n,
            n == p@.len(),
            off % FE_BYTES == 0,
            p@.len() % (FE_BYTES as nat) == 0,
            p@ == proof_bytes@,
            current_hash@.len() == FE_BYTES,
            chunk_fold(p@.skip(off as int), current_hash@) == chunk_fold(p@, seed@),
        decreases p@.len() - off,
    {
        proof {
            let l = p@.len() as int;
            let o = off as int;
            assert(l % (FE_BYTES as int) == 0 && o % (FE_BYTES as int) == 0);
            assert(l - o >= FE_BYTES as int) by (nonlinear_arith)
                requires
                    l % (FE_BYTES as int) == 0,
                    o % (FE_BYTES as int) == 0,
                    o < l,
                    FE_BYTES as int == 32,
            ;
        }
        let mut chunk: Vec<u8> = Vec::new();
        let mut j: usize = 0;
        while j < FE_BYTES
            invariant
                0 <= j <= FE_BYTES,
                off + FE_BYTES <= n,
                n == p@.len(),
                p@ == proof_bytes@,
                chunk@ =~= p@.subrange(off as int, off + j),
            decreases FE_BYTES - j,
        {
            chunk.push(proof_bytes[off + j]);
            j = j + 1;
        }
        let proof_hash = fr_reduce_le(chunk.as_slice());
        proof {
            assert(chunk@ =~= p@.skip(off as int).take(FE_BYTES as int));
            assert(p@.skip(off as int).skip(FE_BYTES as int) =~= p@.skip(off + FE_BYTES));
        }
        current_hash = hash_two_to_one(&current_hash, &proof_hash);
        off = off + FE_BYTES;
    }
    proof {
        assert(p@.skip(off as int) =~= Seq::<u8>::empty());
    }
    let expected_root = fr_reduce_le(expected_root_bytes);
    compare_bytes(&current_hash, &expected_root)
}

/// Byte-for-byte equality of two byte vectors.
pub fn compare_bytes(a: &Vec<u8>, b: &Vec<u8>) -> (r: bool)
    ensures
        r == (a@ == b@),
{
    if a.len() != b.len() {
        proof {
            assert(a@.len() != b@.len());
        }
        return false;
    }
    let mut i: usize = 0;
    while i < a.len()
        invariant
            0 <= i <= a@.len(),
            a@.len() == b@.len(),
            forall|j: int| 0 <= j < i ==> a@[j] == b@[j],
        decreases a@.len() - i,
    {
        if a[i] != b[i] {
            return false;
        }
        i = i + 1;
    }
    proof {
        assert(a@ =~= b@);
    }
    true
}

// ---------------------------------------------------------------------------
// Laws: the root is a function of the final mapping alone.
// ---------------------------------------------------------------------------

/// Order independence: two well-formed stores binding exactly the same keys
/// to the same values — however those bindings were arrived at — have the
/// same entry sequence and hence the same root.
pub proof fn lemma_root_order_independent(s1: Seq<EntrySpec>, s2: Seq<EntrySpec>)
    requires
        wf_entries(s1),
        wf_entries(s2),
        forall|k: Seq<char>| #[trigger] lookup(s1, k) == lookup(s2, k),
    ensures
        s1 == s2,
        root_spec(s1) == root_spec(s2),
{
    lemma_entries_canonical(s1, s2);
}

/// Bindings of distinct keys commute: applying them in either order leaves
/// the same entries and hence the same root.
pub proof fn lemma_insert_commutes(
    s: Seq<EntrySpec>,
    k1: Seq<char>,
    v1: Seq<char>,
    k2: Seq<char>,
    v2: Seq<char>,
)
    requires
        wf_entries(s),
        k1 != k2,
    ensures
        sorted_insert(sorted_insert(s, k1, v1), k2, v2) == sorted_insert(
            sorted_insert(s, k2, v2),
            k1,
            v1,
        ),
{
    lemma_sorted_insert_wf(s, k1, v1);
    lemma_sorted_insert_wf(s, k2, v2);
    lemma_sorted_insert_wf(sorted_insert(s, k1, v1), k2, v2);
    lemma_sorted_insert_wf(sorted_insert(s, k2, v2), k1, v1);
    assert forall|q: Seq<char>|
        #[trigger] lookup(sorted_insert(sorted_insert(s, k1, v1), k2, v2), q) == lookup(
        sorted_insert(sorted_insert(s, k2, v2), k1, v1),
        q,
    ) by {
        lemma_lookup_insert(s, k1, v1, q);
        lemma_lookup_insert(s, k2, v2, q);
        lemma_lookup_insert(sorted_insert(s, k1, v1), k2, v2, q);
        lemma_lookup_insert(sorted_insert(s, k2, v2), k1, v1, q);
    }
    lemma_entries_canonical(
        sorted_insert(sorted_insert(s, k1, v1), k2, v2),
        sorted_insert(sorted_insert(s, k2, v2), k1, v1),
    );
}

/// Rebinding a key forgets the earlier binding: only the final value of each
/// key reaches the entries and hence the root.
pub proof fn lemma_insert_absorbs(s: Seq<EntrySpec>, k: Seq<char>, v1: Seq<char>, v2: Seq<char>)
    requires
        wf_entries(s),
    ensures
        sorted_insert(sorted_insert(s, k, v1), k, v2) == sorted_insert(s, k, v2),
{
    lemma_sorted_insert_wf(s, k, v1);
    lemma_sorted_insert_wf(s, k, v2);
    lemma_sorted_insert_wf(sorted_insert(s, k, v1), k, v2);
    assert forall|q: Seq<char>|
        #[trigger] lookup(sorted_insert(sorted_insert(s, k, v1), k, v2), q) == lookup(
        sorted_insert(s, k, v2),
        q,
    ) by {
        lemma_lookup_insert(s, k, v1, q);
        lemma_lookup_insert(s, k, v2, q);
        lemma_lookup_insert(sorted_insert(s, k, v1), k, v2, q);
    }
    lemma_entries_canonical(sorted_insert(sorted_insert(s, k, v1), k, v2), sorted_insert(s, k, v2));
}

/// Unbinding a key and rebinding it to the value it held reproduces the
/// prior root exactly.
pub proof fn lemma_delete_insert_restores_root(s: Seq<EntrySpec>, k: Seq<char>, v: Seq<char>)
    requires
        wf_entries(s),
        lookup(s, k) == Some(v),
    ensures
        sorted_insert(sorted_remove(s, k), k, v) == s,
        root_spec(sorted_insert(sorted_remove(s, k), k, v)) == root_spec(s),
{
    lemma_remove_insert_restores(s, k, v);
}

} // verus!
