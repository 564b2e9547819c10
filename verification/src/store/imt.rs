//! The tree adapter over the ordered byte-keyed store: node records are
//! serialized under prefixed keys, and the low-nullifier lookup is the
//! store's own predecessor scan.

use vstd::prelude::*;

verus! {

use crate::Hash256;
use crate::bytes::{lemma_lex_lt_skip, lex_lt, push_bytes32};
use crate::node::IMTNode;
use crate::storage::{ImtStorageReader, ImtStorageWriter, StoreModel, is_ln_key};
use crate::store::btree::{BTreeStorage, BTreeTransaction};
use crate::store::keys::{
    HASH_STORAGE_PREFIX,
    NODE_STORAGE_PREFIX,
    ROOT_STORAGE_PREFIX,
    SIZE_STORAGE_PREFIX,
    hash_storage_key,
    hash_storage_key_spec,
    node_storage_key,
    node_storage_key_spec,
    root_storage_key,
    root_storage_key_spec,
    size_storage_key,
    size_storage_key_spec,
};
use crate::store::{StorageReader, StorageWriter};
use vstd::bytes::{
    lemma_auto_spec_u64_to_from_le_bytes,
    spec_u64_from_le_bytes,
    spec_u64_to_le_bytes,
    u64_from_le_bytes,
    u64_to_le_bytes,
};

/// The serialized form of a node record: the slot index in little-endian,
/// then the key, value and next key verbatim.
pub open spec fn encode_node_spec(n: IMTNode) -> Seq<u8> {
    spec_u64_to_le_bytes(n.index) + n.key@ + n.value@ + n.next_key@
}

/// Two nodes with the same serialized form are the same node.
pub proof fn lemma_encode_node_injective(a: IMTNode, b: IMTNode)
    requires
        encode_node_spec(a) == encode_node_spec(b),
    ensures
        a == b,
{
    lemma_auto_spec_u64_to_from_le_bytes();
    let ea = encode_node_spec(a);
    let eb = encode_node_spec(b);
    assert(spec_u64_to_le_bytes(a.index) =~= spec_u64_to_le_bytes(b.index)) by {
        assert forall|i: int|
            0 <= i < 8 implies spec_u64_to_le_bytes(a.index)[i] == spec_u64_to_le_bytes(
            b.index,
        )[i] by {
            assert(ea[i] == eb[i]);
        }
    }
    assert(a.index == b.index) by {
        assert(spec_u64_from_le_bytes(spec_u64_to_le_bytes(a.index)) == a.index);
    }
    assert(a.key =~= b.key) by {
        assert forall|i: int| 0 <= i < 32 implies a.key[i] == b.key[i] by {
            assert(ea[8 + i] == eb[8 + i]);
        }
    }
    assert(a.value =~= b.value) by {
        assert forall|i: int| 0 <= i < 32 implies a.value[i] == b.value[i] by {
            assert(ea[40 + i] == eb[40 + i]);
        }
    }
    assert(a.next_key =~= b.next_key) by {
        assert forall|i: int| 0 <= i < 32 implies a.next_key[i] == b.next_key[i] by {
            assert(ea[72 + i] == eb[72 + i]);
        }
    }
}

/// Serializes a node record.
pub fn encode_node(n: &IMTNode) -> (r: Vec<u8>)
    ensures
        r@ == encode_node_spec(*n),
{
    let mut out = u64_to_le_bytes(n.index);
    push_bytes32(&mut out, &n.key);
    push_bytes32(&mut out, &n.value);
    push_bytes32(&mut out, &n.next_key);
    out
}

/// Deserializes a node record; fails exactly on byte strings of the wrong
/// length.
pub fn decode_node(bytes: &Vec<u8>) -> (r: Option<IMTNode>)
    ensures
        (match r {
            Some(n) => bytes@ == encode_node_spec(n),
            None => bytes@.len() != 104,
        }),
{
    if bytes.len() != 104 {
        return None;
    }
    let index = u64_from_le_bytes(vstd::slice::slice_subrange(bytes.as_slice(), 0, 8));
    let mut key = [0u8; 32];
    let mut value = [0u8; 32];
    let mut next_key = [0u8; 32];
    let mut i: usize = 0;
    while i < 32
        invariant
            0 <= i <= 32,
            bytes@.len() == 104,
            forall|j: int| 0 <= j < i ==> key@[j] == bytes@[8 + j],
            forall|j: int| 0 <= j < i ==> value@[j] == bytes@[40 + j],
            forall|j: int| 0 <= j < i ==> next_key@[j] == bytes@[72 + j],
        decreases 32 - i,
    {
        key[i] = bytes[8 + i];
        value[i] = bytes[40 + i];
        next_key[i] = bytes[72 + i];
        i = i + 1;
    }
    let n = IMTNode { index: index, key: key, value: value, next_key: next_key };
    proof {
        lemma_auto_spec_u64_to_from_le_bytes();
        assert(bytes@.subrange(0, 8) =~= spec_u64_to_le_bytes(n.index)) by {
            assert(spec_u64_to_le_bytes(spec_u64_from_le_bytes(bytes@.subrange(0, 8)))
                =~= bytes@.subrange(0, 8));
        }
        assert(bytes@ =~= encode_node_spec(n));
    }
    Some(n)
}

/// The node record a well-formed serialized entry holds.
pub open spec fn decoded_node(bytes: Seq<u8>) -> IMTNode {
    choose|n: IMTNode| encode_node_spec(n) == bytes
}

/// The well-formedness of the adapter's key space: every entry is one of
/// the four record shapes, under its proper prefix.
pub open spec fn adapter_inv(kv: Map<Seq<u8>, Seq<u8>>) -> bool {
    forall|k: Seq<u8>| #[trigger] kv.contains_key(k) ==> adapter_entry_ok(kv, k)
}

/// One entry is well formed: node entries carry a 33-byte key whose tail
/// is the serialized node's own key; hash entries hold 32 bytes; the size
/// entry holds a little-endian 64-bit size; the root entry holds 32 bytes.
pub open spec fn adapter_entry_ok(kv: Map<Seq<u8>, Seq<u8>>, k: Seq<u8>) -> bool {
    &&& k.len() >= 1
    &&& (k[0] == NODE_STORAGE_PREFIX ==> {
        &&& k.len() == 33
        &&& (exists|n: IMTNode| #[trigger] encode_node_spec(n) == kv[k] && n.key@ == k.skip(1))
    })
    &&& (k[0] == HASH_STORAGE_PREFIX ==> kv[k].len() == 32)
    &&& (k == size_storage_key_spec() ==> kv[k].len() == 8)
    &&& (k == root_storage_key_spec() ==> kv[k].len() == 32)
}

/// The tree-level content of a byte store laid out by the adapter.
pub open spec fn adapter_model(kv: Map<Seq<u8>, Seq<u8>>) -> StoreModel {
    StoreModel {
        nodes: Map::new(
            |k: Seq<u8>| k.len() == 32 && kv.contains_key(node_storage_key_spec(k)),
            |k: Seq<u8>| decoded_node(kv[node_storage_key_spec(k)]),
        ),
        hashes: Map::new(
            |p: (u8, u64)| kv.contains_key(hash_storage_key_spec(p.0, p.1)),
            |p: (u8, u64)| kv[hash_storage_key_spec(p.0, p.1)],
        ),
        size: if kv.contains_key(size_storage_key_spec()) {
            Some(spec_u64_from_le_bytes(kv[size_storage_key_spec()]))
        } else {
            None
        },
        root: if kv.contains_key(root_storage_key_spec()) {
            Some(kv[root_storage_key_spec()])
        } else {
            None
        },
    }
}

/// Prepending one equal byte to both strings does not change their order.
pub proof fn lemma_lex_lt_same_head(h: u8, a: Seq<u8>, b: Seq<u8>)
    ensures
        lex_lt(seq![h] + a, seq![h] + b) == lex_lt(a, b),
{
    let ha = seq![h] + a;
    let hb = seq![h] + b;
    lemma_lex_lt_skip(ha, hb, 1);
    assert(ha.skip(1) =~= a);
    assert(hb.skip(1) =~= b);
}

/// Big-endian 64-bit encodings of distinct integers are distinct.
pub proof fn lemma_u64_be_injective(x: u64, y: u64)
    requires
        crate::bytes::u64_be(x) == crate::bytes::u64_be(y),
    ensures
        x == y,
{
    let bx = crate::bytes::u64_be(x);
    let by = crate::bytes::u64_be(y);
    assert(bx[0] == by[0] && bx[1] == by[1] && bx[2] == by[2] && bx[3] == by[3] && bx[4] == by[4]
        && bx[5] == by[5] && bx[6] == by[6] && bx[7] == by[7]);
    assert((x >> 56) as u8 == (y >> 56) as u8 && (x >> 48) as u8 == (y >> 48) as u8 && (x >> 40)
        as u8 == (y >> 40) as u8 && (x >> 32) as u8 == (y >> 32) as u8 && (x >> 24) as u8 == (y
        >> 24) as u8 && (x >> 16) as u8 == (y >> 16) as u8 && (x >> 8) as u8 == (y >> 8) as u8 && x
        as u8 == y as u8 ==> x == y) by (bit_vector);
}

/// Fetches and deserializes the node stored under `key`.
fn adapter_get_node<S: StorageReader>(s: &S, key: &Hash256) -> (r: Option<IMTNode>)
    requires
        s.inv(),
        adapter_inv(s.kv()),
    ensures
        r == crate::storage::node_at(adapter_model(s.kv()), key@),
{
    let sk = node_storage_key(key.as_slice());
    match s.get(&sk) {
        Some(v) => {
            proof {
                lemma_auto_spec_u64_to_from_le_bytes();
                assert(adapter_entry_ok(s.kv(), sk@));
                let n0 = choose|n: IMTNode|
                    #[trigger] encode_node_spec(n) == s.kv()[sk@] && n.key@ == sk@.skip(1);
                assert(v@.len() == 104);
            }
            match decode_node(&v) {
                Some(n) => {
                    proof {
                        let d = decoded_node(s.kv()[sk@]);
                        assert(encode_node_spec(n) == s.kv()[sk@]);
                        assert(encode_node_spec(d) == s.kv()[sk@]);
                        lemma_encode_node_injective(n, d);
                        assert(adapter_model(s.kv()).nodes.contains_key(key@));
                    }
                    Some(n)
                },
                None => {
                    proof {
                        assert(false);
                    }
                    None
                },
            }
        },
        None => {
            proof {
                assert(!adapter_model(s.kv()).nodes.contains_key(key@));
            }
            None
        },
    }
}

/// Fetches the node stored under the largest key strictly below `key`,
/// through the store's own predecessor scan: the node prefix is the
/// numerically smallest, so the scan can only land on a node entry.
fn adapter_get_ln_node<S: StorageReader>(s: &S, key: &Hash256) -> (r: Option<IMTNode>)
    requires
        s.inv(),
        adapter_inv(s.kv()),
    ensures
        crate::storage::ln_lookup_ok(adapter_model(s.kv()), key@, r),
{
    let ghost kv = s.kv();
    let ghost m = adapter_model(kv);
    let sk = node_storage_key(key.as_slice());
    match s.get_lt(&sk) {
        None => {
            proof {
                assert forall|k: Seq<u8>| #[trigger] m.nodes.contains_key(k) implies !lex_lt(
                    k,
                    key@,
                ) by {
                    assert(kv.contains_key(node_storage_key_spec(k)));
                    lemma_lex_lt_same_head(NODE_STORAGE_PREFIX, k, key@);
                    assert(!lex_lt(node_storage_key_spec(k), sk@));
                }
            }
            None
        },
        Some((bk, bv)) => {
            proof {
                assert(kv.contains_key(bk@));
                assert(adapter_entry_ok(kv, bk@));
                assert(lex_lt(bk@, sk@));
                assert(bk@[0] == NODE_STORAGE_PREFIX) by {
                    if bk@[0] != sk@[0] {
                        assert(lex_lt(bk@, sk@) == (bk@[0] < sk@[0]));
                    }
                }
                assert(bk@.len() == 33);
                assert(bk@ =~= node_storage_key_spec(bk@.skip(1)));
                lemma_auto_spec_u64_to_from_le_bytes();
                let n0 = choose|n: IMTNode|
                    #[trigger] encode_node_spec(n) == kv[bk@] && n.key@ == bk@.skip(1);
                assert(bv@.len() == 104);
            }
            match decode_node(&bv) {
                Some(n) => {
                    proof {
                        let n0 = choose|n1: IMTNode|
                            #[trigger] encode_node_spec(n1) == kv[bk@] && n1.key@ == bk@.skip(1);
                        lemma_encode_node_injective(n, n0);
                        assert(n.key@ == bk@.skip(1));
                        let nk = n.key@;
                        assert(m.nodes.contains_key(nk));
                        assert(n == m.nodes[nk]) by {
                            let d = decoded_node(kv[bk@]);
                            assert(encode_node_spec(d) == kv[bk@]);
                            lemma_encode_node_injective(n, d);
                        }
                        assert(lex_lt(nk, key@)) by {
                            lemma_lex_lt_same_head(NODE_STORAGE_PREFIX, nk, key@);
                        }
                        assert forall|k2: Seq<u8>|
                            #[trigger] m.nodes.contains_key(k2) && lex_lt(k2, key@) implies !lex_lt(
                            nk,
                            k2,
                        ) by {
                            assert(kv.contains_key(node_storage_key_spec(k2)));
                            lemma_lex_lt_same_head(NODE_STORAGE_PREFIX, k2, key@);
                            assert(lex_lt(node_storage_key_spec(k2), sk@));
                            assert(!lex_lt(bk@, node_storage_key_spec(k2)));
                            lemma_lex_lt_same_head(NODE_STORAGE_PREFIX, nk, k2);
                        }
                        assert(is_ln_key(m, key@, nk));
                    }
                    Some(n)
                },
                None => {
                    proof {
                        assert(false);
                    }
                    None
                },
            }
        },
    }
}

/// Fetches the cached hash at `(level, index)`.
fn adapter_get_hash<S: StorageReader>(s: &S, level: u8, index: u64) -> (r: Option<Hash256>)
    requires
        s.inv(),
        adapter_inv(s.kv()),
    ensures
        (match r {
            Some(h) => crate::storage::hash_at(adapter_model(s.kv()), level, index) == Some(h@),
            None => crate::storage::hash_at(adapter_model(s.kv()), level, index) is None,
        }),
{
    let sk = hash_storage_key(level, index);
    match s.get(&sk) {
        Some(v) => {
            proof {
                assert(adapter_entry_ok(s.kv(), sk@));
                assert(sk@[0] == HASH_STORAGE_PREFIX);
                assert(v@.len() == 32);
            }
            Some(to_hash256(&v))
        },
        None => None,
    }
}

/// Fetches the persisted size.
fn adapter_get_size<S: StorageReader>(s: &S) -> (r: Option<u64>)
    requires
        s.inv(),
        adapter_inv(s.kv()),
    ensures
        r == adapter_model(s.kv()).size,
{
    let sk = size_storage_key();
    match s.get(&sk) {
        Some(v) => {
            proof {
                assert(adapter_entry_ok(s.kv(), sk@));
                assert(v@.len() == 8);
            }
            Some(u64_from_le_bytes(v.as_slice()))
        },
        None => None,
    }
}

/// Fetches the persisted root.
fn adapter_get_root<S: StorageReader>(s: &S) -> (r: Option<Hash256>)
    requires
        s.inv(),
        adapter_inv(s.kv()),
    ensures
        (match r {
            Some(h) => adapter_model(s.kv()).root == Some(h@),
            None => adapter_model(s.kv()).root is None,
        }),
{
    let sk = root_storage_key();
    match s.get(&sk) {
        Some(v) => {
            proof {
                assert(adapter_entry_ok(s.kv(), sk@));
                assert(v@.len() == 32);
            }
            Some(to_hash256(&v))
        },
        None => None,
    }
}

/// The four record shapes live under distinct keys.
proof fn lemma_adapter_keys_distinct()
    ensures
        forall|k: Seq<u8>, l: u8, i: u64|
            (#[trigger] node_storage_key_spec(k))[0] == NODE_STORAGE_PREFIX && (
            #[trigger] hash_storage_key_spec(l, i))[0] == HASH_STORAGE_PREFIX,
        size_storage_key_spec()[0] == SIZE_STORAGE_PREFIX,
        root_storage_key_spec()[0] == ROOT_STORAGE_PREFIX,
        size_storage_key_spec().len() == 1,
        root_storage_key_spec().len() == 1,
        forall|l: u8, i: u64| (#[trigger] hash_storage_key_spec(l, i)).len() == 10,
{
}

/// Serializes and stores a node record under its key.
fn adapter_set_node<S: StorageWriter>(s: &mut S, node: IMTNode)
    requires
        old(s).inv(),
        adapter_inv(old(s).kv()),
    ensures
        final(s).inv(),
        adapter_inv(final(s).kv()),
        adapter_model(final(s).kv()) == (StoreModel {
            nodes: adapter_model(old(s).kv()).nodes.insert(node.key@, node),
            ..adapter_model(old(s).kv())
        }),
{
    let ghost kv0 = s.kv();
    let sk = node_storage_key(node.key.as_slice());
    let bytes = encode_node(&node);
    s.set(sk, bytes);
    proof {
        let kv1 = s.kv();
        lemma_adapter_keys_distinct();
        // The written entry is well formed, and no other entry changed.
        assert forall|k: Seq<u8>| #[trigger] kv1.contains_key(k) implies adapter_entry_ok(
            kv1,
            k,
        ) by {
            if k == sk@ {
                assert(encode_node_spec(node) == kv1[k] && node.key@ == k.skip(1)) by {
                    assert(sk@.skip(1) =~= node.key@);
                }
            } else {
                assert(kv0.contains_key(k));
                assert(adapter_entry_ok(kv0, k));
            }
        }
        // Node lookups change exactly at the written key.
        assert(adapter_model(kv1).nodes =~= adapter_model(kv0).nodes.insert(node.key@, node)) by {
            assert forall|k: Seq<u8>| true implies node_storage_key_spec(k) == sk@ <==> k
                == node.key@ by {
                if node_storage_key_spec(k) == sk@ {
                    assert(k.len() == 32) by {
                        assert(node_storage_key_spec(k).len() == sk@.len());
                    }
                    assert(k =~= node.key@) by {
                        assert forall|i: int| 0 <= i < 32 implies k[i] == node.key@[i] by {
                            assert(node_storage_key_spec(k)[i + 1] == sk@[i + 1]);
                        }
                    }
                }
            }
            assert(decoded_node(kv1[sk@]) == node) by {
                let d = decoded_node(kv1[sk@]);
                assert(encode_node_spec(node) == kv1[sk@]);
                assert(encode_node_spec(d) == kv1[sk@]);
                lemma_encode_node_injective(node, d);
            }
        }
        // Hash, size and root lookups are untouched: their keys differ.
        assert(adapter_model(kv1).hashes =~= adapter_model(kv0).hashes) by {
            assert forall|p: (u8, u64)| true implies hash_storage_key_spec(p.0, p.1) != sk@ by {
                assert(hash_storage_key_spec(p.0, p.1)[0] != sk@[0]);
            }
        }
        assert(size_storage_key_spec() != sk@);
        assert(root_storage_key_spec() != sk@);
        assert(adapter_model(kv1) == (StoreModel {
            nodes: adapter_model(kv0).nodes.insert(node.key@, node),
            ..adapter_model(kv0)
        }));
    }
}

/// Caches a hash at `(level, index)`.
fn adapter_set_hash<S: StorageWriter>(s: &mut S, level: u8, index: u64, hash: Hash256)
    requires
        old(s).inv(),
        adapter_inv(old(s).kv()),
    ensures
        final(s).inv(),
        adapter_inv(final(s).kv()),
        adapter_model(final(s).kv()) == (StoreModel {
            hashes: adapter_model(old(s).kv()).hashes.insert((level, index), hash@),
            ..adapter_model(old(s).kv())
        }),
{
    let ghost kv0 = s.kv();
    let sk = hash_storage_key(level, index);
    let mut bytes: Vec<u8> = Vec::new();
    push_bytes32(&mut bytes, &hash);
    s.set(sk, bytes);
    proof {
        let kv1 = s.kv();
        lemma_adapter_keys_distinct();
        assert forall|k: Seq<u8>| #[trigger] kv1.contains_key(k) implies adapter_entry_ok(
            kv1,
            k,
        ) by {
            if k != sk@ {
                assert(kv0.contains_key(k));
                assert(adapter_entry_ok(kv0, k));
            }
        }
        assert(adapter_model(kv1).hashes =~= adapter_model(kv0).hashes.insert(
            (level, index),
            hash@,
        )) by {
            assert forall|p: (u8, u64)| true implies hash_storage_key_spec(p.0, p.1) == sk@ <==> p
                == (level, index) by {
                if hash_storage_key_spec(p.0, p.1) == sk@ {
                    assert(p.0 == level) by {
                        assert(hash_storage_key_spec(p.0, p.1)[1] == sk@[1]);
                    }
                    assert(crate::bytes::u64_be(p.1) =~= crate::bytes::u64_be(index)) by {
                        assert forall|i: int|
                            0 <= i < 8 implies crate::bytes::u64_be(p.1)[i] == crate::bytes::u64_be(
                            index,
                        )[i] by {
                            assert(hash_storage_key_spec(p.0, p.1)[i + 2] == sk@[i + 2]);
                        }
                    }
                    lemma_u64_be_injective(p.1, index);
                }
            }
        }
        assert(adapter_model(kv1).nodes =~= adapter_model(kv0).nodes) by {
            assert forall|k: Seq<u8>| true implies node_storage_key_spec(k) != sk@ by {
                assert(node_storage_key_spec(k)[0] != sk@[0]);
            }
        }
        assert(size_storage_key_spec() != sk@);
        assert(root_storage_key_spec() != sk@);
        assert(adapter_model(kv1) == (StoreModel {
            hashes: adapter_model(kv0).hashes.insert((level, index), hash@),
            ..adapter_model(kv0)
        }));
    }
}

/// Persists the size, little-endian.
fn adapter_set_size<S: StorageWriter>(s: &mut S, size: u64)
    requires
        old(s).inv(),
        adapter_inv(old(s).kv()),
    ensures
        final(s).inv(),
        adapter_inv(final(s).kv()),
        adapter_model(final(s).kv()) == (StoreModel {
            size: Some(size),
            ..adapter_model(old(s).kv())
        }),
{
    let ghost kv0 = s.kv();
    let sk = size_storage_key();
    let bytes = u64_to_le_bytes(size);
    s.set(sk, bytes);
    proof {
        let kv1 = s.kv();
        lemma_adapter_keys_distinct();
        lemma_auto_spec_u64_to_from_le_bytes();
        assert forall|k: Seq<u8>| #[trigger] kv1.contains_key(k) implies adapter_entry_ok(
            kv1,
            k,
        ) by {
            if k != sk@ {
                assert(kv0.contains_key(k));
                assert(adapter_entry_ok(kv0, k));
            }
        }
        assert(adapter_model(kv1).nodes =~= adapter_model(kv0).nodes) by {
            assert forall|k: Seq<u8>| true implies node_storage_key_spec(k) != sk@ by {
                assert(node_storage_key_spec(k)[0] != sk@[0]);
            }
        }
        assert(adapter_model(kv1).hashes =~= adapter_model(kv0).hashes) by {
            assert forall|p: (u8, u64)| true implies hash_storage_key_spec(p.0, p.1) != sk@ by {
                assert(hash_storage_key_spec(p.0, p.1).len() == 10);
            }
        }
        assert(root_storage_key_spec() != sk@);
        assert(adapter_model(kv1) == (StoreModel { size: Some(size), ..adapter_model(kv0) }));
    }
}

/// Persists the root, raw.
fn adapter_set_root<S: StorageWriter>(s: &mut S, root: Hash256)
    requires
        old(s).inv(),
        adapter_inv(old(s).kv()),
    ensures
        final(s).inv(),
        adapter_inv(final(s).kv()),
        adapter_model(final(s).kv()) == (StoreModel {
            root: Some(root@),
            ..adapter_model(old(s).kv())
        }),
{
    let ghost kv0 = s.kv();
    let sk = root_storage_key();
    let mut bytes: Vec<u8> = Vec::new();
    push_bytes32(&mut bytes, &root);
    s.set(sk, bytes);
    proof {
        let kv1 = s.kv();
        lemma_adapter_keys_distinct();
        assert forall|k: Seq<u8>| #[trigger] kv1.contains_key(k) implies adapter_entry_ok(
            kv1,
            k,
        ) by {
            if k != sk@ {
                assert(kv0.contains_key(k));
                assert(adapter_entry_ok(kv0, k));
            }
        }
        assert(adapter_model(kv1).nodes =~= adapter_model(kv0).nodes) by {
            assert forall|k: Seq<u8>| true implies node_storage_key_spec(k) != sk@ by {
                assert(node_storage_key_spec(k)[0] != sk@[0]);
            }
        }
        assert(adapter_model(kv1).hashes =~= adapter_model(kv0).hashes) by {
            assert forall|p: (u8, u64)| true implies hash_storage_key_spec(p.0, p.1) != sk@ by {
                assert(hash_storage_key_spec(p.0, p.1).len() == 10);
            }
        }
        assert(size_storage_key_spec() != sk@);
        assert(adapter_model(kv1) == (StoreModel { root: Some(root@), ..adapter_model(kv0) }));
    }
}

impl ImtStorageReader for BTreeStorage {
    closed spec fn inv(&self) -> bool {
        &&& StorageReader::inv(self)
        &&& adapter_inv(StorageReader::kv(self))
    }

    closed spec fn model(&self) -> StoreModel {
        adapter_model(StorageReader::kv(self))
    }

    fn get_node(&self, key: &Hash256) -> (r: Option<IMTNode>) {
        adapter_get_node(self, key)
    }

    fn get_ln_node(&self, key: &Hash256) -> (r: Option<IMTNode>) {
        adapter_get_ln_node(self, key)
    }

    fn get_hash(&self, level: u8, index: u64) -> (r: Option<Hash256>) {
        adapter_get_hash(self, level, index)
    }

    fn get_size(&self) -> (r: Option<u64>) {
        adapter_get_size(self)
    }

    fn get_root(&self) -> (r: Option<Hash256>) {
        adapter_get_root(self)
    }
}

impl ImtStorageWriter for BTreeStorage {
    fn set_node(&mut self, node: IMTNode) {
        adapter_set_node(self, node)
    }

    fn set_hash(&mut self, level: u8, index: u64, hash: Hash256) {
        adapter_set_hash(self, level, index, hash)
    }

    fn set_size(&mut self, size: u64) {
        adapter_set_size(self, size)
    }

    fn set_root(&mut self, root: Hash256) {
        adapter_set_root(self, root)
    }
}

impl ImtStorageReader for BTreeTransaction {
    closed spec fn inv(&self) -> bool {
        &&& StorageReader::inv(self)
        &&& adapter_inv(StorageReader::kv(self))
    }

    closed spec fn model(&self) -> StoreModel {
        adapter_model(StorageReader::kv(self))
    }

    fn get_node(&self, key: &Hash256) -> (r: Option<IMTNode>) {
        adapter_get_node(self, key)
    }

    fn get_ln_node(&self, key: &Hash256) -> (r: Option<IMTNode>) {
        adapter_get_ln_node(self, key)
    }

    fn get_hash(&self, level: u8, index: u64) -> (r: Option<Hash256>) {
        adapter_get_hash(self, level, index)
    }

    fn get_size(&self) -> (r: Option<u64>) {
        adapter_get_size(self)
    }

    fn get_root(&self) -> (r: Option<Hash256>) {
        adapter_get_root(self)
    }
}

impl ImtStorageWriter for BTreeTransaction {
    fn set_node(&mut self, node: IMTNode) {
        adapter_set_node(self, node)
    }

    fn set_hash(&mut self, level: u8, index: u64, hash: Hash256) {
        adapter_set_hash(self, level, index, hash)
    }

    fn set_size(&mut self, size: u64) {
        adapter_set_size(self, size)
    }

    fn set_root(&mut self, root: Hash256) {
        adapter_set_root(self, root)
    }
}

/// Copies a 32-byte value out of a vector.
fn to_hash256(v: &Vec<u8>) -> (r: Hash256)
    requires
        v@.len() == 32,
    ensures
        r@ == v@,
{
    let mut out = [0u8; 32];
    let mut i: usize = 0;
    while i < 32
        invariant
            0 <= i <= 32,
            v@.len() == 32,
            forall|j: int| 0 <= j < i ==> out@[j] == v@[j],
        decreases 32 - i,
    {
        out[i] = v[i];
        i = i + 1;
    }
    proof {
        assert(out@ =~= v@);
    }
    out
}

} // verus!
