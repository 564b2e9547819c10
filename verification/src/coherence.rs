//! Coherence of the cached hashes: every cached hash is the digest of the
//! subtree of leaves below its position, so every proof object the engine
//! hands out recomputes exactly the persisted root.

use vstd::prelude::*;

verus! {

use crate::Hash256;
use crate::hash::keccak256;
use crate::node::{IMTNode, leaf_hash};
use crate::proofs::{combine, hash_at_level, idx_at};
use crate::storage::{StoreModel, hash_at};
use crate::tree::{
    depth_spec,
    lemma_depth_spec_is_ceil_log2,
    lemma_depth_spec_le_64,
    lemma_idx_at_bounds,
    path_updated_hashes,
    sib_of,
    sibs_of,
    size_of,
    write_node_model,
};
use vstd::arithmetic::power2::pow2;

/// Some node sits in slot `i`.
pub open spec fn slot_filled(m: StoreModel, i: u64) -> bool {
    exists|k: Seq<u8>| #[trigger] m.nodes.contains_key(k) && m.nodes[k].index == i
}

/// The node sitting in slot `i`.
pub open spec fn node_in_slot(m: StoreModel, i: u64) -> IMTNode {
    m.nodes[choose|k: Seq<u8>| m.nodes.contains_key(k) && m.nodes[k].index == i]
}

/// The leaf hash at slot `i`, absent when no node sits there.
pub open spec fn leaf_at(m: StoreModel, i: int) -> Option<Seq<u8>> {
    if 0 <= i <= u64::MAX && slot_filled(m, i as u64) {
        Some(leaf_hash(node_in_slot(m, i as u64)))
    } else {
        None
    }
}

/// Folds two child subtree digests into their parent's: an empty side
/// contributes nothing, and the one present side is hashed alone.
pub open spec fn combine_opt(l: Option<Seq<u8>>, r: Option<Seq<u8>>) -> Option<Seq<u8>> {
    match (l, r) {
        (None, None) => None,
        (Some(x), None) => Some(keccak256(x)),
        (None, Some(y)) => Some(keccak256(y)),
        (Some(x), Some(y)) => Some(keccak256(x + y)),
    }
}

/// The digest of the subtree at level `l`, position `i`: what the cached
/// hash there ought to hold.
pub open spec fn subtree(m: StoreModel, l: int, i: int) -> Option<Seq<u8>>
    decreases l,
{
    if l <= 0 {
        leaf_at(m, i)
    } else {
        combine_opt(subtree(m, l - 1, 2 * i), subtree(m, l - 1, 2 * i + 1))
    }
}

/// No two stored nodes share a slot.
pub open spec fn indices_unique(m: StoreModel) -> bool {
    forall|k1: Seq<u8>, k2: Seq<u8>|
        #![trigger m.nodes[k1], m.nodes[k2]]
        m.nodes.contains_key(k1) && m.nodes.contains_key(k2) && m.nodes[k1].index
            == m.nodes[k2].index ==> k1 == k2
}

/// The cache is coherent at depth `d`: every position up to level `d`
/// caches exactly its subtree digest, and nothing is cached above.
pub open spec fn cache_ok(m: StoreModel, d: int) -> bool {
    &&& forall|lu: u8, iu: u64|
        lu as int <= d ==> #[trigger] hash_at(m, lu, iu) == subtree(m, lu as int, iu as int)
    &&& forall|lu: u8, iu: u64| lu as int > d ==> #[trigger] hash_at(m, lu, iu) is None
}

/// The node stored under `k` is what its slot holds.
pub proof fn lemma_slot_of_key(m: StoreModel, k: Seq<u8>)
    requires
        indices_unique(m),
        m.nodes.contains_key(k),
    ensures
        leaf_at(m, m.nodes[k].index as int) == Some(leaf_hash(m.nodes[k])),
{
    let i = m.nodes[k].index;
    assert(slot_filled(m, i));
    let kk = choose|kk: Seq<u8>| m.nodes.contains_key(kk) && m.nodes[kk].index == i;
    assert(m.nodes[kk].index == m.nodes[k].index);
    assert(kk == k);
}

/// A subtree away from a slot is untouched by a change in that slot.
pub proof fn lemma_subtree_stable(m1: StoreModel, m2: StoreModel, index: u64, l: int, i: int)
    requires
        forall|j: int| j != index as int ==> #[trigger] leaf_at(m1, j) == leaf_at(m2, j),
        0 <= l,
        i != idx_at(index, l),
    ensures
        subtree(m1, l, i) == subtree(m2, l, i),
    decreases l,
{
    if l > 0 {
        assert(2 * i != idx_at(index, l - 1) && 2 * i + 1 != idx_at(index, l - 1)) by {
            assert(idx_at(index, l) == idx_at(index, l - 1) / 2);
        }
        lemma_subtree_stable(m1, m2, index, l - 1, 2 * i);
        lemma_subtree_stable(m1, m2, index, l - 1, 2 * i + 1);
    }
}

/// A subtree with no slot below it is empty.
pub proof fn lemma_subtree_empty(m: StoreModel, l: int, i: int)
    requires
        0 <= l,
        forall|j: int|
            0 <= j <= u64::MAX && idx_at(j as u64, l) == i ==> #[trigger] leaf_at(m, j) is None,
    ensures
        subtree(m, l, i) is None,
    decreases l,
{
    if l == 0 {
        if 0 <= i <= u64::MAX {
            assert(idx_at(i as u64, 0) == i);
            assert(leaf_at(m, i) is None);
        }
    } else {
        assert forall|j: int|
            0 <= j <= u64::MAX && idx_at(j as u64, l - 1) == 2 * i implies #[trigger] leaf_at(
            m,
            j,
        ) is None by {
            assert(idx_at(j as u64, l) == idx_at(j as u64, l - 1) / 2);
        }
        assert forall|j: int|
            0 <= j <= u64::MAX && idx_at(j as u64, l - 1) == 2 * i + 1 implies #[trigger] leaf_at(
            m,
            j,
        ) is None by {
            assert(idx_at(j as u64, l) == idx_at(j as u64, l - 1) / 2);
        }
        lemma_subtree_empty(m, l - 1, 2 * i);
        lemma_subtree_empty(m, l - 1, 2 * i + 1);
    }
}

/// The Merkle climb of a leaf through the cached siblings computes exactly
/// the subtree digest along its path: in `m2` the leaf sits in its slot,
/// all other slots agree with `m1`, and the siblings are read from `m1`'s
/// coherent cache.
pub proof fn lemma_climb(m2: StoreModel, m1: StoreModel, node: IMTNode, d: int, l: int)
    requires
        0 <= l <= d < 256,
        leaf_at(m2, node.index as int) == Some(leaf_hash(node)),
        forall|j: int| j != node.index as int ==> #[trigger] leaf_at(m2, j) == leaf_at(m1, j),
        forall|lu: u8, iu: u64|
            (lu as int) < d ==> #[trigger] hash_at(m1, lu, iu) == subtree(m1, lu as int, iu as int),
    ensures
        subtree(m2, l, idx_at(node.index, l)) == Some(
            hash_at_level(node, sibs_of(m1, node.index, d), l),
        ),
    decreases l,
{
    if l == 0 {
        assert(idx_at(node.index, 0) == node.index as int);
    } else {
        lemma_climb(m2, m1, node, d, l - 1);
        lemma_idx_at_bounds(node.index, l - 1);
        let p = idx_at(node.index, l - 1);
        let q = idx_at(node.index, l);
        assert(q == p / 2);
        let s = sib_of(p);
        assert(s != p);
        assert(0 <= s <= u64::MAX) by {
            assert(p % 2 == 0 ==> p < u64::MAX);
        }
        lemma_subtree_stable(m2, m1, node.index, l - 1, s);
        assert(hash_at(m1, (l - 1) as u8, s as u64) == subtree(m1, l - 1, s));
        assert(subtree(m1, l - 1, s) == subtree(m2, l - 1, s));
        let sibs = sibs_of(m1, node.index, d);
        assert(sibs[l - 1] == hash_at(m1, (l - 1) as u8, s as u64));
        let h = hash_at_level(node, sibs, l - 1);
        if p % 2 == 0 {
            assert(2 * q == p && 2 * q + 1 == s);
            assert(subtree(m2, l, q) == combine_opt(Some(h), subtree(m2, l - 1, s)));
            assert(combine_opt(Some(h), sibs[l - 1]) == Some(combine(h, p, sibs[l - 1])));
        } else {
            assert(2 * q == s && 2 * q + 1 == p);
            assert(subtree(m2, l, q) == combine_opt(subtree(m2, l - 1, s), Some(h)));
            assert(combine_opt(sibs[l - 1], Some(h)) == Some(combine(h, p, sibs[l - 1])));
        }
    }
}

/// What a node write does to the slots: the written node takes its slot,
/// every other slot is untouched, and slots stay unique. The write must
/// not move a key to a new slot.
pub proof fn lemma_leaves_after_write(m: StoreModel, node: IMTNode, d: int)
    requires
        indices_unique(m),
        (m.nodes.contains_key(node.key@) && m.nodes[node.key@].index == node.index) || (
        !m.nodes.contains_key(node.key@) && (forall|k: Seq<u8>|
            #[trigger] m.nodes.contains_key(k) ==> m.nodes[k].index != node.index)),
    ensures
        indices_unique(write_node_model(m, node, d)),
        leaf_at(write_node_model(m, node, d), node.index as int) == Some(leaf_hash(node)),
        forall|j: int|
            j != node.index as int ==> #[trigger] leaf_at(write_node_model(m, node, d), j)
                == leaf_at(m, j),
{
    let mp = write_node_model(m, node, d);
    assert(mp.nodes == m.nodes.insert(node.key@, node));
    assert forall|k1: Seq<u8>, k2: Seq<u8>|
        #![trigger mp.nodes[k1], mp.nodes[k2]]
        mp.nodes.contains_key(k1) && mp.nodes.contains_key(k2) && mp.nodes[k1].index
            == mp.nodes[k2].index implies k1 == k2 by {
        if k1 != node.key@ && k2 != node.key@ {
            assert(m.nodes[k1].index == m.nodes[k2].index);
        } else if k1 == node.key@ && k2 != node.key@ {
            assert(m.nodes.contains_key(k2) && m.nodes[k2].index == node.index);
        } else if k1 != node.key@ && k2 == node.key@ {
            assert(m.nodes.contains_key(k1) && m.nodes[k1].index == node.index);
        }
    }
    lemma_slot_of_key(mp, node.key@);
    assert forall|j: int| j != node.index as int implies #[trigger] leaf_at(mp, j) == leaf_at(
        m,
        j,
    ) by {
        if 0 <= j <= u64::MAX {
            if slot_filled(mp, j as u64) {
                let k = choose|k: Seq<u8>|
                    mp.nodes.contains_key(k) && mp.nodes[k].index == j as u64;
                assert(k != node.key@);
                assert(m.nodes.contains_key(k) && m.nodes[k].index == j as u64);
                assert(slot_filled(m, j as u64));
                lemma_slot_of_key(m, k);
                lemma_slot_of_key(mp, k);
            }
            if slot_filled(m, j as u64) {
                let k = choose|k: Seq<u8>| m.nodes.contains_key(k) && m.nodes[k].index == j as u64;
                assert(k != node.key@);
                assert(mp.nodes.contains_key(k) && mp.nodes[k].index == j as u64);
                assert(slot_filled(mp, j as u64));
            }
        }
    }
}

/// The refreshed path holds the climb value at every level it covers.
proof fn lemma_path_hit(m: StoreModel, node: IMTNode, d: int, upto: int, l: int)
    requires
        0 <= l <= upto < 256,
    ensures
        path_updated_hashes(m, node, d, upto).contains_key(
            (l as u8, idx_at(node.index, l) as u64),
        ),
        path_updated_hashes(m, node, d, upto)[(l as u8, idx_at(node.index, l) as u64)]
            == hash_at_level(node, sibs_of(m, node.index, d), l),
    decreases upto,
{
    lemma_idx_at_bounds(node.index, l);
    if l < upto {
        lemma_path_hit(m, node, d, upto - 1, l);
        assert(l as u8 != upto as u8);
    }
}

/// A node write leaves the cache coherent: the refreshed path now holds
/// the written node's climb, which is its subtree digest, and everything
/// else is untouched. When the write completes a new level (a depth
/// increase), the level is filled in the same stroke.
pub proof fn lemma_write_preserves_cache(m: StoreModel, node: IMTNode, d0: int, d: int)
    requires
        0 <= d0 <= d <= d0 + 1,
        d < 256,
        cache_ok(m, d0),
        indices_unique(m),
        (m.nodes.contains_key(node.key@) && m.nodes[node.key@].index == node.index) || (
        !m.nodes.contains_key(node.key@) && (forall|k: Seq<u8>|
            #[trigger] m.nodes.contains_key(k) ==> m.nodes[k].index != node.index)),
        idx_at(node.index, d) == 0,
        forall|k: Seq<u8>| #[trigger] m.nodes.contains_key(k) ==> idx_at(m.nodes[k].index, d) == 0,
    ensures
        cache_ok(write_node_model(m, node, d), d),
        indices_unique(write_node_model(m, node, d)),
{
    let mp = write_node_model(m, node, d);
    lemma_leaves_after_write(m, node, d);
    assert(mp.hashes == path_updated_hashes(m, node, d, d));

    assert forall|lu: u8, iu: u64| lu as int <= d implies #[trigger] hash_at(mp, lu, iu)
        == subtree(mp, lu as int, iu as int) by {
        let l = lu as int;
        let i = iu as int;
        if i == idx_at(node.index, l) {
            lemma_path_hit(m, node, d, d, l);
            lemma_climb(mp, m, node, d, l);
            assert(hash_at(mp, lu, iu) == Some(
                hash_at_level(node, sibs_of(m, node.index, d), l),
            ));
        } else {
            crate::tree::lemma_path_updated_hashes_off_path(m, node, d, d, l, i);
            lemma_subtree_stable(mp, m, node.index, l, i);
            if l <= d0 {
                assert(hash_at(m, lu, iu) == subtree(m, l, i));
            } else {
                // A freshly completed level: away from the path it is empty.
                assert(l == d);
                assert(hash_at(m, lu, iu) is None);
                assert(i != 0);
                assert forall|j: int|
                    0 <= j <= u64::MAX && idx_at(j as u64, l) == i implies #[trigger] leaf_at(
                    m,
                    j,
                ) is None by {
                    if leaf_at(m, j) is Some {
                        let k = choose|k: Seq<u8>|
                            m.nodes.contains_key(k) && m.nodes[k].index == j as u64;
                        assert(m.nodes.contains_key(k) && m.nodes[k].index == j as u64);
                        assert(idx_at(j as u64, d) == 0);
                        assert(false);
                    }
                }
                lemma_subtree_empty(m, l, i);
            }
            assert(hash_at(mp, lu, iu) == hash_at(m, lu, iu));
        }
    }
    assert forall|lu: u8, iu: u64| lu as int > d implies #[trigger] hash_at(mp, lu, iu) is None by {
        crate::tree::lemma_path_updated_hashes_off_path(m, node, d, d, lu as int, iu as int);
        assert(hash_at(m, lu, iu) is None);
        assert(hash_at(mp, lu, iu) == hash_at(m, lu, iu));
    }
}

/// Subtree digests depend on the stored nodes alone.
proof fn lemma_subtree_same_nodes(ma: StoreModel, mb: StoreModel, l: int, i: int)
    requires
        ma.nodes == mb.nodes,
        0 <= l,
    ensures
        subtree(ma, l, i) == subtree(mb, l, i),
    decreases l,
{
    if l > 0 {
        lemma_subtree_same_nodes(ma, mb, l - 1, 2 * i);
        lemma_subtree_same_nodes(ma, mb, l - 1, 2 * i + 1);
    }
}

/// The engine state is coherent: the cache matches the subtree digests at
/// the tree's depth, slots are unique, and the persisted root is the
/// size-bound digest of the top cached hash.
pub open spec fn coherent(m: StoreModel) -> bool {
    &&& cache_ok(m, depth_spec(size_of(m) as int))
    &&& indices_unique(m)
    &&& m.root == Some(
        keccak256(
            crate::tree::hash_or_zero(m, depth_spec(size_of(m) as int) as u8, 0) + crate::bytes::u64_be(
                size_of(m),
            ),
        ),
    )
}

/// Attaching a writer to an empty storage leaves a coherent state.
pub proof fn lemma_init_coherent(m: StoreModel)
    requires
        m.size is None,
        m.nodes == Map::<Seq<u8>, IMTNode>::empty(),
        m.hashes == Map::<(u8, u64), Seq<u8>>::empty(),
    ensures
        coherent(crate::tree::init_model(m)),
{
    let m0 = StoreModel { size: Some(1u64), ..m };
    assert forall|lu: u8, iu: u64| lu as int <= 0 implies #[trigger] hash_at(m0, lu, iu)
        == subtree(m0, lu as int, iu as int) by {
        assert(hash_at(m0, lu, iu) is None);
        assert(!slot_filled(m0, iu));
        assert(subtree(m0, lu as int, iu as int) is None);
    }
    assert forall|lu: u8, iu: u64| lu as int > 0 implies #[trigger] hash_at(m0, lu, iu) is None by {}
    assert(cache_ok(m0, 0));
    lemma_write_preserves_cache(m0, crate::tree::sentinel_node(), 0, 0);
    assert(crate::tree::init_model(m) == write_node_model(m0, crate::tree::sentinel_node(), 0));
    assert(depth_spec(1) == 0);
}

/// An update leaves a coherent state.
pub proof fn lemma_update_coherent(
    m: StoreModel,
    key: Hash256,
    value: Hash256,
    m2: StoreModel,
    p: crate::proofs::update::UpdateProof,
)
    requires
        coherent(m),
        crate::tree::nodes_ok(m),
        crate::laws::indices_ok(m),
        1 <= size_of(m),
        m.nodes.contains_key(key@),
        crate::tree::update_post(m, key, value, m2, p),
    ensures
        coherent(m2),
{
    let d = depth_spec(size_of(m) as int);
    let un = IMTNode { value: value, ..m.nodes[key@] };
    lemma_depth_spec_le_64(size_of(m) as int);
    lemma_depth_spec_is_ceil_log2(size_of(m) as int);
    assert(un.key@ == key@);
    assert forall|k: Seq<u8>| #[trigger] m.nodes.contains_key(k) implies idx_at(
        m.nodes[k].index,
        d,
    ) == 0 by {
        crate::laws::lemma_idx_at_zero(m.nodes[k].index, d);
    }
    lemma_write_preserves_cache(m, un, d, d);
    assert(m2 == write_node_model(m, un, d));
    assert(size_of(m2) == size_of(m));
}

/// An insertion leaves a coherent state: the retargeted low nullifier is
/// rewritten at the old depth, the size grows, and the new node's write
/// completes any newly opened level.
pub proof fn lemma_insert_coherent(
    m: StoreModel,
    key: Hash256,
    value: Hash256,
    m2: StoreModel,
    p: crate::proofs::insert::InsertProof,
)
    requires
        coherent(m),
        crate::tree::nodes_ok(m),
        crate::laws::indices_ok(m),
        1 <= size_of(m) < u64::MAX,
        !m.nodes.contains_key(key@),
        crate::tree::insert_post(m, key, value, m2, p),
    ensures
        coherent(m2),
{
    let size = size_of(m);
    let d0 = depth_spec(size as int);
    let new_d = depth_spec((size + 1) as int);
    let nk = p.ln_node.key@;
    let updated_ln = IMTNode { next_key: key, ..p.ln_node };
    lemma_depth_spec_le_64((size + 1) as int);
    crate::tree::lemma_depth_spec_step(size as int);
    lemma_depth_spec_is_ceil_log2(size as int);
    lemma_depth_spec_is_ceil_log2((size + 1) as int);
    assert(updated_ln.key@ == nk && updated_ln.index == m.nodes[nk].index);

    // The low nullifier is rewritten in place at the old depth.
    assert forall|k: Seq<u8>| #[trigger] m.nodes.contains_key(k) implies idx_at(
        m.nodes[k].index,
        d0,
    ) == 0 by {
        crate::laws::lemma_idx_at_zero(m.nodes[k].index, d0);
    }
    crate::laws::lemma_idx_at_zero(updated_ln.index, d0);
    lemma_write_preserves_cache(m, updated_ln, d0, d0);
    let m1 = write_node_model(m, updated_ln, d0);
    let mid = crate::tree::insert_mid_model(m, updated_ln);
    assert(mid.nodes == m1.nodes && mid.hashes == m1.hashes);

    // Growing the size does not touch the cache or the slots.
    assert(cache_ok(mid, d0)) by {
        assert forall|lu: u8, iu: u64| lu as int <= d0 implies #[trigger] hash_at(mid, lu, iu)
            == subtree(mid, lu as int, iu as int) by {
            lemma_subtree_same_nodes(mid, m1, lu as int, iu as int);
            assert(hash_at(m1, lu, iu) == subtree(m1, lu as int, iu as int));
        }
        assert forall|lu: u8, iu: u64| lu as int > d0 implies #[trigger] hash_at(
            mid,
            lu,
            iu,
        ) is None by {
            assert(hash_at(m1, lu, iu) is None);
        }
    }
    assert(indices_unique(mid));

    // The new node takes the next slot, at the new depth.
    assert(!mid.nodes.contains_key(key@)) by {
        assert(nk != key@) by {
            crate::bytes::lemma_lex_lt_asymmetric(nk, key@);
        }
    }
    assert forall|k: Seq<u8>| #[trigger] mid.nodes.contains_key(k) implies mid.nodes[k].index
        != p.node.index by {
        if k == nk {
        } else {
            assert(m.nodes.contains_key(k));
        }
    }
    assert forall|k: Seq<u8>| #[trigger] mid.nodes.contains_key(k) implies idx_at(
        mid.nodes[k].index,
        new_d,
    ) == 0 by {
        crate::laws::lemma_idx_at_zero(mid.nodes[k].index, new_d);
    }
    crate::laws::lemma_idx_at_zero(p.node.index, new_d);
    lemma_write_preserves_cache(mid, p.node, d0, new_d);
    assert(m2 == write_node_model(mid, p.node, new_d));
    assert(size_of(m2) == size + 1);
}

/// Every node the tree stores is committed to in the persisted root: the
/// Merkle climb from its leaf through the cached siblings, bound to the
/// size, recomputes exactly that root.
pub proof fn lemma_node_committed(m: StoreModel, k: Seq<u8>)
    requires
        coherent(m),
        crate::laws::indices_ok(m),
        1 <= size_of(m),
        m.nodes.contains_key(k),
    ensures
        crate::proofs::node_exists_spec(
            crate::tree::root_of(m),
            size_of(m),
            m.nodes[k],
            sibs_of(m, m.nodes[k].index, depth_spec(size_of(m) as int)),
        ),
{
    let n = m.nodes[k];
    let d = depth_spec(size_of(m) as int);
    lemma_depth_spec_le_64(size_of(m) as int);
    lemma_depth_spec_is_ceil_log2(size_of(m) as int);
    lemma_slot_of_key(m, k);
    lemma_climb(m, m, n, d, d);
    crate::laws::lemma_idx_at_zero(n.index, d);
    assert(hash_at(m, d as u8, 0u64) == subtree(m, d, 0));
    assert(sibs_of(m, n.index, d).len() == d);
    assert(crate::tree::hash_or_zero(m, d as u8, 0) == hash_at_level(
        n,
        sibs_of(m, n.index, d),
        d,
    ));
}

/// Every exclusion proof the engine builds for an absent key verifies: the
/// low nullifier it carries is committed to in the root and covers the
/// key.
pub proof fn lemma_exclusion_proof_verifies(m: StoreModel, key: Hash256, nk: Seq<u8>)
    requires
        coherent(m),
        crate::tree::nodes_ok(m),
        crate::laws::indices_ok(m),
        crate::laws::links_ok(m),
        1 <= size_of(m),
        !m.nodes.contains_key(key@),
        crate::storage::is_ln_key(m, key@, nk),
    ensures
        crate::proofs::node_exists_spec(
            crate::tree::root_of(m),
            size_of(m),
            m.nodes[nk],
            sibs_of(m, m.nodes[nk].index, depth_spec(size_of(m) as int)),
        ),
        crate::node::is_ln_of_spec(m.nodes[nk], key@),
{
    lemma_node_committed(m, nk);
    crate::laws::lemma_pred_is_ln(m, key@, nk);
}

/// Every insertion proof the engine returns verifies against the engine's
/// pre-insertion root and steps to exactly its post-insertion root.
pub proof fn lemma_insert_proof_verifies(
    m: StoreModel,
    key: Hash256,
    value: Hash256,
    m2: StoreModel,
    p: crate::proofs::insert::InsertProof,
)
    requires
        coherent(m),
        crate::tree::nodes_ok(m),
        crate::laws::indices_ok(m),
        crate::laws::links_ok(m),
        1 <= size_of(m) < u64::MAX,
        !m.nodes.contains_key(key@),
        crate::tree::insert_post(m, key, value, m2, p),
    ensures
        p.old_root@ == crate::tree::root_of(m),
        p.old_size < u64::MAX,
        p.is_valid_ln_spec(),
        p.roots_consistent_spec(),
        p.new_root_spec() == crate::tree::root_of(m2),
{
    let nk = p.ln_node.key@;
    let new_size = (size_of(m) + 1) as u64;
    let new_d = depth_spec(new_size as int);
    let updated_ln = IMTNode { next_key: key, ..p.ln_node };

    // The carried low nullifier is valid for the inserted key.
    crate::laws::lemma_pred_is_ln(m, key@, nk);
    lemma_node_committed(m, nk);
    assert(p.is_valid_ln_spec());

    // The recomputed roots agree: both are the engine's new root. First,
    // the root climbed from the inserted node.
    crate::laws::lemma_insert_proof_new_root(m, key, value, m2, p);

    // Second, the root climbed from the retargeted low nullifier, which
    // is a committed node of the new state.
    lemma_insert_coherent(m, key, value, m2, p);
    crate::laws::lemma_insert_preserves_indices(m, key, value, m2, p);
    assert(nk != key@) by {
        crate::bytes::lemma_lex_lt_asymmetric(nk, key@);
    }
    assert(m2.nodes == m.nodes.insert(nk, updated_ln).insert(key@, p.node));
    assert(m2.nodes.contains_key(nk) && m2.nodes[nk] == updated_ln);
    assert(crate::tree::nodes_ok(m2)) by {
        assert forall|k: Seq<u8>| #[trigger] m2.nodes.contains_key(k) implies m2.nodes[k].key@
            == k by {
            if k != nk && k != key@ {
                assert(m.nodes.contains_key(k));
            }
        }
    }
    lemma_node_committed(m2, nk);
    assert(p.updated_ln_spec() == updated_ln);
    assert(size_of(m2) == new_size);
    assert(crate::proofs::root_from_node_spec(
        new_size,
        updated_ln,
        crate::proofs::view_siblings(p.updated_ln_siblings@),
    ) == crate::tree::root_of(m2));
}

/// Every update proof the engine returns verifies against the engine's
/// pre-update root and steps to exactly its post-update root.
pub proof fn lemma_update_proof_verifies(
    m: StoreModel,
    key: Hash256,
    value: Hash256,
    m2: StoreModel,
    p: crate::proofs::update::UpdateProof,
)
    requires
        coherent(m),
        crate::tree::nodes_ok(m),
        crate::laws::indices_ok(m),
        1 <= size_of(m),
        m.nodes.contains_key(key@),
        crate::tree::update_post(m, key, value, m2, p),
    ensures
        p.old_root@ == crate::tree::root_of(m),
        p.node_in_tree_spec(),
        p.new_root_spec() == crate::tree::root_of(m2),
{
    lemma_node_committed(m, key@);
    crate::laws::lemma_update_proof_new_root(m, key, value, m2, p);
}

/// Everything the engine maintains of its storage, in one predicate: the
/// records are keyed and slotted consistently, the sentinel is present,
/// the sorted-linked-list overlay is intact, and the hash cache and root
/// are coherent.
pub open spec fn state_ok(m: StoreModel) -> bool {
    &&& m.size is Some
    &&& 1 <= size_of(m)
    &&& crate::tree::nodes_ok(m)
    &&& crate::laws::indices_ok(m)
    &&& crate::laws::links_ok(m)
    &&& crate::laws::has_sentinel(m)
    &&& coherent(m)
}

/// Attaching a writer to an empty storage establishes the state invariant.
pub proof fn lemma_state_ok_init(m: StoreModel)
    requires
        m.size is None,
        m.nodes == Map::<Seq<u8>, IMTNode>::empty(),
        m.hashes == Map::<(u8, u64), Seq<u8>>::empty(),
    ensures
        state_ok(crate::tree::init_model(m)),
{
    crate::laws::lemma_init_model_sentinel(m);
    crate::laws::lemma_init_model_indices(m);
    lemma_init_coherent(m);
    let mf = crate::tree::init_model(m);
    assert forall|k: Seq<u8>| #[trigger] mf.nodes.contains_key(k) implies mf.nodes[k].key@ == k by {
        assert(k == crate::bytes::zero32());
        assert(crate::tree::zero_hash()@ =~= crate::bytes::zero32());
    }
}

/// A successful insertion preserves the state invariant.
pub proof fn lemma_state_ok_insert(
    m: StoreModel,
    key: Hash256,
    value: Hash256,
    m2: StoreModel,
    p: crate::proofs::insert::InsertProof,
)
    requires
        state_ok(m),
        size_of(m) < u64::MAX,
        !m.nodes.contains_key(key@),
        crate::tree::insert_post(m, key, value, m2, p),
    ensures
        state_ok(m2),
{
    crate::laws::lemma_insert_preserves_links(m, key, value, m2, p);
    crate::laws::lemma_insert_preserves_indices(m, key, value, m2, p);
    lemma_insert_coherent(m, key, value, m2, p);
    let nk = p.ln_node.key@;
    let updated_ln = IMTNode { next_key: key, ..p.ln_node };
    assert(m2.nodes == m.nodes.insert(nk, updated_ln).insert(key@, p.node));
    assert forall|k: Seq<u8>| #[trigger] m2.nodes.contains_key(k) implies m2.nodes[k].key@ == k by {
        if k != nk && k != key@ {
            assert(m.nodes.contains_key(k));
        }
    }
}

/// A successful update preserves the state invariant.
pub proof fn lemma_state_ok_update(
    m: StoreModel,
    key: Hash256,
    value: Hash256,
    m2: StoreModel,
    p: crate::proofs::update::UpdateProof,
)
    requires
        state_ok(m),
        m.nodes.contains_key(key@),
        crate::tree::update_post(m, key, value, m2, p),
    ensures
        state_ok(m2),
{
    crate::laws::lemma_update_preserves_links(m, key@, value);
    crate::laws::lemma_update_preserves_indices(m, key@, value);
    lemma_update_coherent(m, key, value, m2, p);
    assert(m2.nodes == m.nodes.insert(key@, IMTNode { value: value, ..m.nodes[key@] }));
    assert forall|k: Seq<u8>| #[trigger] m2.nodes.contains_key(k) implies m2.nodes[k].key@ == k by {
        if k != key@ {
            assert(m.nodes.contains_key(k));
        }
    }
}

} // verus!
