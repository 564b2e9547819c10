//! The structural laws of the tree's state.
//!
//! These lemmas state, over the storage model, the invariants the engine
//! maintains: the sentinel's presence, the sorted-linked-list discipline of
//! the `next_key` links, the shape of the persisted root, and the
//! determinism of replayed mutations.

use vstd::prelude::*;

verus! {

use crate::Hash256;
use crate::bytes::{
    lemma_lex_lt_asymmetric,
    lemma_lex_lt_total,
    lemma_lex_lt_transitive,
    lex_lt,
    u64_be,
    zero32,
};
use crate::hash::keccak256;
use crate::node::IMTNode;
use crate::proofs::insert::InsertProof;
use crate::proofs::update::UpdateProof;
use crate::storage::{StoreModel, is_ln_key};
use crate::tree::{
    depth_spec,
    hash_or_zero,
    init_model,
    insert_mid_model,
    lemma_depth_spec_is_ceil_log2,
    insert_model,
    insert_post,
    nodes_ok,
    sentinel_node,
    size_of,
    update_model,
    update_post,
    write_node_model,
    zero_hash,
};
use crate::proofs::idx_at;
use crate::tree::root_of;
use vstd::arithmetic::power2::{lemma2_to64, lemma_pow2_unfold, pow2};
use vstd::relations::total_ordering;

/// The sentinel sits in the store: a node under the all-zero key, at slot
/// zero.
pub open spec fn has_sentinel(m: StoreModel) -> bool {
    &&& m.nodes.contains_key(zero32())
    &&& m.nodes[zero32()].index == 0
}

/// The `next_key` discipline of one stored node: a node with a zero next
/// key holds the largest key in the store; any other node's next key is a
/// stored key strictly above its own, with no stored key strictly between
/// the two.
pub open spec fn node_links_ok(m: StoreModel, k: Seq<u8>) -> bool {
    let n = m.nodes[k];
    if n.next_key@ == zero32() {
        forall|k2: Seq<u8>| #[trigger] m.nodes.contains_key(k2) ==> k2 == k || lex_lt(k2, k)
    } else {
        &&& m.nodes.contains_key(n.next_key@)
        &&& lex_lt(k, n.next_key@)
        &&& forall|k2: Seq<u8>| #[trigger] m.nodes.contains_key(k2) ==> !(lex_lt(k, k2) && lex_lt(
            k2,
            n.next_key@,
        ))
    }
}

/// The sorted-linked-list overlay is intact: every stored node obeys the
/// `next_key` discipline.
pub open spec fn links_ok(m: StoreModel) -> bool {
    forall|k: Seq<u8>| #[trigger] m.nodes.contains_key(k) ==> node_links_ok(m, k)
}

/// At most one node carries a zero next key, and it is the one with the
/// largest key.
pub proof fn lemma_zero_next_unique(m: StoreModel, a: Seq<u8>, b: Seq<u8>)
    requires
        links_ok(m),
        m.nodes.contains_key(a),
        m.nodes.contains_key(b),
        m.nodes[a].next_key@ == zero32(),
        m.nodes[b].next_key@ == zero32(),
    ensures
        a == b,
        forall|k2: Seq<u8>| #[trigger] m.nodes.contains_key(k2) ==> k2 == a || lex_lt(k2, a),
{
    assert(node_links_ok(m, a));
    assert(node_links_ok(m, b));
    if a != b {
        assert(lex_lt(a, b) && lex_lt(b, a));
        lemma_lex_lt_asymmetric(a, b);
    }
}

/// In a finite, non-empty store with intact links, some node carries a
/// zero next key: the one holding the largest key.
pub proof fn lemma_zero_next_exists(m: StoreModel)
    requires
        links_ok(m),
        m.nodes.dom().finite(),
        m.nodes.dom().len() > 0,
    ensures
        exists|k: Seq<u8>| #[trigger] m.nodes.contains_key(k) && m.nodes[k].next_key@ == zero32(),
{
    let leq = |x: Seq<u8>, y: Seq<u8>| x == y || lex_lt(x, y);
    assert forall|x: Seq<u8>| #[trigger] leq(x, x) by {}
    assert forall|x: Seq<u8>, y: Seq<u8>| #[trigger] leq(x, y) && #[trigger] leq(y, x) implies x
        == y by {
        lemma_lex_lt_asymmetric(x, y);
    }
    assert forall|x: Seq<u8>, y: Seq<u8>, z: Seq<u8>|
        #[trigger] leq(x, y) && #[trigger] leq(y, z) implies leq(x, z) by {
        if lex_lt(x, y) && lex_lt(y, z) {
            lemma_lex_lt_transitive(x, y, z);
        }
    }
    assert forall|x: Seq<u8>, y: Seq<u8>| true implies #[trigger] leq(x, y) || #[trigger] leq(
        y,
        x,
    ) by {
        lemma_lex_lt_total(x, y);
    }
    assert(total_ordering(leq));
    let dom = m.nodes.dom();
    dom.find_unique_maximal_ensures(leq);
    let kmax = dom.find_unique_maximal(leq);
    assert(m.nodes.contains_key(kmax));
    assert(node_links_ok(m, kmax));
    if m.nodes[kmax].next_key@ != zero32() {
        let nk = m.nodes[kmax].next_key@;
        assert(m.nodes.contains_key(nk) && lex_lt(kmax, nk));
        assert(dom.contains(nk) && leq(kmax, nk));
        assert(leq(nk, kmax));
        lemma_lex_lt_asymmetric(kmax, nk);
        assert(false);
    }
}

/// Attaching a writer to an empty storage creates exactly the sentinel:
/// one node, under the all-zero key, with all-zero fields, and the links
/// trivially intact.
pub proof fn lemma_init_model_sentinel(m: StoreModel)
    requires
        m.size is None,
        m.nodes == Map::<Seq<u8>, IMTNode>::empty(),
    ensures
        has_sentinel(init_model(m)),
        links_ok(init_model(m)),
        init_model(m).nodes[zero32()] == sentinel_node(),
        sentinel_node().key@ == zero32(),
        sentinel_node().value@ == zero32(),
        sentinel_node().next_key@ == zero32(),
        init_model(m).size == Some(1u64),
{
    assert(zero_hash()@ =~= zero32());
    let mf = init_model(m);
    assert(mf.nodes == m.nodes.insert(zero32(), sentinel_node()));
    assert forall|k: Seq<u8>| #[trigger] mf.nodes.contains_key(k) implies node_links_ok(mf, k) by {
        assert(k == zero32());
    }
}

/// The persisted root always has the size-bound shape: after any node
/// write it equals `H(cached_hash(depth, 0) || size_be_64)` over the
/// resulting state.
pub proof fn lemma_root_formula(m: StoreModel, node: IMTNode, depth: int)
    ensures
        ({
            let mf = write_node_model(m, node, depth);
            mf.root == Some(
                keccak256(hash_or_zero(mf, depth as u8, 0) + u64_be(size_of(mf))),
            )
        }),
{
}

/// A key has at most one low nullifier position in a store.
pub proof fn lemma_ln_key_unique(m: StoreModel, key: Seq<u8>, a: Seq<u8>, b: Seq<u8>)
    requires
        is_ln_key(m, key, a),
        is_ln_key(m, key, b),
    ensures
        a == b,
{
    assert(!lex_lt(a, b) && !lex_lt(b, a));
    lemma_lex_lt_total(a, b);
}

/// Replaying an insertion: two successful insertions of the same pair on
/// equal states return the same proof content and leave equal states —
/// in particular, equal roots at every step.
pub proof fn lemma_insert_replay(
    m: StoreModel,
    key: Hash256,
    value: Hash256,
    ma: StoreModel,
    pa: InsertProof,
    mb: StoreModel,
    pb: InsertProof,
)
    requires
        insert_post(m, key, value, ma, pa),
        insert_post(m, key, value, mb, pb),
    ensures
        pa.ln_node == pb.ln_node,
        pa.node == pb.node,
        pa.old_root == pb.old_root,
        pa.old_size == pb.old_size,
        crate::proofs::view_siblings(pa.ln_siblings@) == crate::proofs::view_siblings(
            pb.ln_siblings@,
        ),
        crate::proofs::view_siblings(pa.node_siblings@) == crate::proofs::view_siblings(
            pb.node_siblings@,
        ),
        crate::proofs::view_siblings(pa.updated_ln_siblings@) == crate::proofs::view_siblings(
            pb.updated_ln_siblings@,
        ),
        ma == mb,
{
    lemma_ln_key_unique(m, key@, pa.ln_node.key@, pb.ln_node.key@);
    assert(pa.ln_node == pb.ln_node);
    assert(pa.old_root@ == pb.old_root@);
    assert(pa.old_root =~= pb.old_root);
    assert(pa.node == pb.node);
    assert(ma == mb);
}

/// Replaying an update: two successful updates of the same pair on equal
/// states return the same proof content and leave equal states.
pub proof fn lemma_update_replay(
    m: StoreModel,
    key: Hash256,
    value: Hash256,
    ma: StoreModel,
    pa: UpdateProof,
    mb: StoreModel,
    pb: UpdateProof,
)
    requires
        update_post(m, key, value, ma, pa),
        update_post(m, key, value, mb, pb),
    ensures
        pa.node == pb.node,
        pa.old_root == pb.old_root,
        pa.size == pb.size,
        pa.new_value == pb.new_value,
        crate::proofs::view_siblings(pa.node_siblings@) == crate::proofs::view_siblings(
            pb.node_siblings@,
        ),
        ma == mb,
{
    assert(pa.old_root@ == pb.old_root@);
    assert(pa.old_root =~= pb.old_root);
}

/// An update rewrites only a node's value: the sentinel and the links are
/// unaffected, whichever key is updated — the sentinel's own value
/// included.
pub proof fn lemma_update_preserves_links(m: StoreModel, key: Seq<u8>, value: Hash256)
    requires
        nodes_ok(m),
        m.nodes.contains_key(key),
        links_ok(m),
    ensures
        links_ok(update_model(m, key, value)),
        has_sentinel(m) ==> has_sentinel(update_model(m, key, value)),
{
    let mf = update_model(m, key, value);
    assert(mf.nodes == m.nodes.insert(key, IMTNode { value: value, ..m.nodes[key] }));
    assert(mf.nodes.dom() =~= m.nodes.dom());
    assert forall|k: Seq<u8>| #[trigger] mf.nodes.contains_key(k) implies node_links_ok(mf, k) by {
        assert(m.nodes.contains_key(k));
        assert(node_links_ok(m, k));
        assert(mf.nodes[k].key@ == m.nodes[k].key@);
        assert(mf.nodes[k].next_key@ == m.nodes[k].next_key@);
    }
}

/// An insertion preserves the sorted-linked-list overlay: the new node
/// takes over its low nullifier's gap, and the low nullifier is retargeted
/// to the new key.
pub proof fn lemma_insert_preserves_links(
    m: StoreModel,
    key: Hash256,
    value: Hash256,
    m2: StoreModel,
    p: InsertProof,
)
    requires
        nodes_ok(m),
        links_ok(m),
        !m.nodes.contains_key(key@),
        insert_post(m, key, value, m2, p),
    ensures
        links_ok(m2),
        has_sentinel(m) ==> has_sentinel(m2),
{
    let nk = p.ln_node.key@;
    let ln = m.nodes[nk];
    let updated_ln = IMTNode { next_key: key, ..p.ln_node };
    let node = p.node;
    assert(ln == p.ln_node);
    assert(ln.key@ == nk);
    assert(node.key == key);
    assert(node.next_key == ln.next_key);
    assert(m2.nodes == m.nodes.insert(nk, updated_ln).insert(key@, node));
    assert(lex_lt(nk, key@));
    assert(node_links_ok(m, nk));

    // The inserted key cannot be the all-zero key: it has a stored key
    // strictly below it, and no 32-byte key sorts below all-zero.
    assert(key@ != zero32()) by {
        if key@ == zero32() {
            assert(nk.len() == 32) by {
                assert(m.nodes[nk].key@ == nk);
            }
            lemma_lex_lt_zero32(nk);
            assert(false);
        }
    }

    // The inserted key falls strictly inside its low nullifier's gap.
    if ln.next_key@ != zero32() {
        assert(m.nodes.contains_key(ln.next_key@));
        assert(ln.next_key@ != key@);
        if lex_lt(ln.next_key@, key@) {
            assert(!lex_lt(nk, ln.next_key@));
            assert(false);
        }
        lemma_lex_lt_total(key@, ln.next_key@);
        assert(lex_lt(key@, ln.next_key@));
    }

    assert forall|k: Seq<u8>| #[trigger] m2.nodes.contains_key(k) implies node_links_ok(m2, k) by {
        if k == key@ {
            // The new node inherits the low nullifier's next key.
            if node.next_key@ == zero32() {
                assert forall|k2: Seq<u8>| #[trigger] m2.nodes.contains_key(k2) implies k2 == key@
                    || lex_lt(k2, key@) by {
                    if k2 != key@ && k2 != nk {
                        assert(m.nodes.contains_key(k2));
                        assert(k2 == nk || lex_lt(k2, nk));
                        lemma_lex_lt_transitive(k2, nk, key@);
                    }
                }
            } else {
                assert(m2.nodes.contains_key(node.next_key@)) by {
                    assert(m.nodes.contains_key(ln.next_key@));
                    assert(ln.next_key@ != nk) by {
                        lemma_lex_lt_asymmetric(nk, ln.next_key@);
                    }
                }
                assert(lex_lt(key@, node.next_key@));
                assert forall|k2: Seq<u8>| #[trigger] m2.nodes.contains_key(k2) implies !(lex_lt(
                    key@,
                    k2,
                ) && lex_lt(k2, node.next_key@)) by {
                    lemma_lex_lt_asymmetric(key@, key@);
                    if k2 != key@ && lex_lt(key@, k2) && lex_lt(k2, node.next_key@) {
                        assert(m.nodes.contains_key(k2) || k2 == key@);
                        assert(lex_lt(nk, k2)) by {
                            lemma_lex_lt_transitive(nk, key@, k2);
                        }
                        assert(!(lex_lt(nk, k2) && lex_lt(k2, ln.next_key@)));
                        assert(false);
                    }
                }
            }
        } else if k == nk {
            // The low nullifier now points at the new key, which sits
            // directly above it.
            assert(m2.nodes[nk] == updated_ln);
            assert(updated_ln.next_key@ == key@);
            assert(m2.nodes.contains_key(key@));
            assert forall|k2: Seq<u8>| #[trigger] m2.nodes.contains_key(k2) implies !(lex_lt(
                nk,
                k2,
            ) && lex_lt(k2, key@)) by {
                lemma_lex_lt_asymmetric(key@, key@);
                if k2 != key@ && lex_lt(nk, k2) && lex_lt(k2, key@) {
                    assert(m.nodes.contains_key(k2));
                    assert(!lex_lt(nk, k2));
                    assert(false);
                }
            }
        } else {
            // Any other node's gap is untouched: the new key lies inside
            // the low nullifier's gap, which is disjoint from it.
            assert(m.nodes.contains_key(k));
            assert(node_links_ok(m, k));
            let n = m.nodes[k];
            assert(m2.nodes[k] == n);
            if n.next_key@ == zero32() {
                assert forall|k2: Seq<u8>| #[trigger] m2.nodes.contains_key(k2) implies k2 == k
                    || lex_lt(k2, k) by {
                    if k2 == key@ {
                        // `k` holds the largest key, so the low nullifier
                        // of the new key is `k` itself — excluded here.
                        assert(nk == k || lex_lt(nk, k));
                        if lex_lt(key@, k) {
                        } else {
                            lemma_lex_lt_total(key@, k);
                            assert(lex_lt(k, key@));
                            assert(!lex_lt(nk, k));
                            assert(nk == k);
                            assert(false);
                        }
                    }
                }
            } else {
                assert(m2.nodes.contains_key(n.next_key@));
                assert forall|k2: Seq<u8>| #[trigger] m2.nodes.contains_key(k2) implies !(lex_lt(
                    k,
                    k2,
                ) && lex_lt(k2, n.next_key@)) by {
                    if k2 == key@ && lex_lt(k, key@) && lex_lt(key@, n.next_key@) {
                        // The new key would sit inside `k`'s gap, so `k`
                        // would be a larger low-nullifier candidate than
                        // the one found.
                        assert(!lex_lt(nk, k));
                        assert(k != nk);
                        lemma_lex_lt_total(nk, k);
                        assert(lex_lt(k, nk));
                        assert(lex_lt(nk, key@));
                        assert(!(lex_lt(k, nk) && lex_lt(nk, n.next_key@)));
                        assert(!lex_lt(nk, n.next_key@));
                        lemma_lex_lt_total(nk, n.next_key@);
                        if nk == n.next_key@ {
                            assert(lex_lt(key@, nk));
                            lemma_lex_lt_asymmetric(nk, key@);
                            assert(false);
                        } else {
                            assert(lex_lt(n.next_key@, nk));
                            lemma_lex_lt_transitive(key@, n.next_key@, nk);
                            lemma_lex_lt_asymmetric(nk, key@);
                            assert(false);
                        }
                    }
                }
            }
        }
    }
}

/// Every stored node sits at a slot below the tree size.
pub open spec fn indices_ok(m: StoreModel) -> bool {
    forall|k: Seq<u8>| #[trigger] m.nodes.contains_key(k) ==> (m.nodes[k].index as int) < size_of(
        m,
    ) as int
}

/// A fresh tree holds only the sentinel, at slot zero.
pub proof fn lemma_init_model_indices(m: StoreModel)
    requires
        m.size is None,
        m.nodes == Map::<Seq<u8>, IMTNode>::empty(),
    ensures
        indices_ok(init_model(m)),
{
    assert(zero_hash()@ =~= zero32());
    let mf = init_model(m);
    assert forall|k: Seq<u8>| #[trigger] mf.nodes.contains_key(k) implies (mf.nodes[k].index as int)
        < size_of(mf) as int by {
        assert(k == zero32());
    }
}

/// An insertion assigns the next slot and keeps every other slot: all
/// slots stay below the grown size.
pub proof fn lemma_insert_preserves_indices(
    m: StoreModel,
    key: Hash256,
    value: Hash256,
    m2: StoreModel,
    p: InsertProof,
)
    requires
        indices_ok(m),
        size_of(m) < u64::MAX,
        insert_post(m, key, value, m2, p),
    ensures
        indices_ok(m2),
{
    let nk = p.ln_node.key@;
    let updated_ln = IMTNode { next_key: key, ..p.ln_node };
    assert(m2.nodes == m.nodes.insert(nk, updated_ln).insert(key@, p.node));
    assert(size_of(m2) == size_of(m) + 1);
    assert forall|k: Seq<u8>| #[trigger] m2.nodes.contains_key(k) implies (m2.nodes[k].index as int)
        < size_of(m2) as int by {
        if k == key@ {
        } else if k == nk {
            assert(updated_ln.index == m.nodes[nk].index);
        } else {
            assert(m.nodes.contains_key(k));
        }
    }
}

/// An update keeps every slot: all slots stay below the unchanged size.
pub proof fn lemma_update_preserves_indices(m: StoreModel, key: Seq<u8>, value: Hash256)
    requires
        nodes_ok(m),
        indices_ok(m),
        m.nodes.contains_key(key),
    ensures
        indices_ok(update_model(m, key, value)),
{
    let mf = update_model(m, key, value);
    assert(mf.nodes == m.nodes.insert(key, IMTNode { value: value, ..m.nodes[key] }));
    assert forall|k: Seq<u8>| #[trigger] mf.nodes.contains_key(k) implies (mf.nodes[k].index as int)
        < size_of(mf) as int by {
        assert(m.nodes.contains_key(k));
        if k == key {
            assert(mf.nodes[k].index == m.nodes[k].index);
        }
    }
}

/// A leaf below `pow2(d)` has its level-`l` ancestor below `pow2(d - l)`.
proof fn lemma_idx_at_lt(index: u64, d: int, l: int)
    requires
        0 <= l <= d,
        (index as int) < pow2(d as nat),
    ensures
        idx_at(index, l) < pow2((d - l) as nat),
    decreases l,
{
    if l == 0 {
    } else {
        lemma_idx_at_lt(index, d, l - 1);
        lemma_pow2_unfold((d - l + 1) as nat);
        crate::tree::lemma_idx_at_bounds(index, l);
    }
}

/// A leaf below `pow2(d)` has its level-`d` ancestor at position zero.
pub proof fn lemma_idx_at_zero(index: u64, d: int)
    requires
        0 <= d,
        (index as int) < pow2(d as nat),
    ensures
        idx_at(index, d) == 0,
{
    lemma_idx_at_lt(index, d, d);
    lemma2_to64();
    crate::tree::lemma_idx_at_bounds(index, d);
}

/// The root an update proof recomputes from the rewritten node and its
/// siblings is exactly the root the engine persists after that update.
pub proof fn lemma_update_proof_new_root(
    m: StoreModel,
    key: Hash256,
    value: Hash256,
    m2: StoreModel,
    p: UpdateProof,
)
    requires
        1 <= size_of(m),
        m.nodes.contains_key(key@),
        indices_ok(m),
        update_post(m, key, value, m2, p),
    ensures
        p.new_root_spec() == root_of(m2),
{
    let d = depth_spec(size_of(m) as int);
    let un = IMTNode { value: value, ..m.nodes[key@] };
    lemma_depth_spec_is_ceil_log2(size_of(m) as int);
    lemma_idx_at_zero(un.index, d);
    assert(m2 == write_node_model(m, un, d));
    assert(p.updated_node_spec() == un);
    let m1hashes = crate::tree::path_updated_hashes(m, un, d, d);
    assert(m1hashes.contains_key((d as u8, 0u64)));
    assert(m1hashes[(d as u8, 0u64)] == crate::proofs::hash_at_level(
        un,
        crate::tree::sibs_of(m, un.index, d),
        d,
    ));
    assert(crate::tree::sibs_of(m, un.index, d).len() == d);
}

/// The root an insertion proof recomputes from the inserted node and its
/// siblings is exactly the root the engine persists after that insertion.
pub proof fn lemma_insert_proof_new_root(
    m: StoreModel,
    key: Hash256,
    value: Hash256,
    m2: StoreModel,
    p: InsertProof,
)
    requires
        1 <= size_of(m),
        size_of(m) < u64::MAX,
        insert_post(m, key, value, m2, p),
    ensures
        p.new_root_spec() == root_of(m2),
{
    let new_size = (size_of(m) + 1) as u64;
    let nd = depth_spec(new_size as int);
    let updated_ln = IMTNode { next_key: key, ..p.ln_node };
    let mid = insert_mid_model(m, updated_ln);
    lemma_depth_spec_is_ceil_log2(new_size as int);
    lemma_idx_at_zero(p.node.index, nd);
    assert(m2 == write_node_model(mid, p.node, nd));
    assert(size_of(mid) == new_size);
    let m1hashes = crate::tree::path_updated_hashes(mid, p.node, nd, nd);
    assert(m1hashes.contains_key((nd as u8, 0u64)));
    assert(m1hashes[(nd as u8, 0u64)] == crate::proofs::hash_at_level(
        p.node,
        crate::tree::sibs_of(mid, p.node.index, nd),
        nd,
    ));
    assert(crate::tree::sibs_of(mid, p.node.index, nd).len() == nd);
}

/// In a store with intact links, the node under the largest key below an
/// absent key is that key's low nullifier: what the engine hands out as an
/// exclusion witness does witness the absence.
pub proof fn lemma_pred_is_ln(m: StoreModel, key: Seq<u8>, nk: Seq<u8>)
    requires
        nodes_ok(m),
        links_ok(m),
        is_ln_key(m, key, nk),
        !m.nodes.contains_key(key),
    ensures
        crate::node::is_ln_of_spec(m.nodes[nk], key),
{
    let n = m.nodes[nk];
    assert(n.key@ == nk);
    assert(node_links_ok(m, nk));
    if n.next_key@ != zero32() {
        assert(m.nodes.contains_key(n.next_key@));
        assert(n.next_key@ != key);
        if lex_lt(n.next_key@, key) {
            assert(!lex_lt(nk, n.next_key@));
            assert(false);
        }
        lemma_lex_lt_total(key, n.next_key@);
    }
}

/// In a store with intact links, no node covers a key that is present:
/// once a key is inserted, no node of the tree can serve as its exclusion
/// witness any more.
pub proof fn lemma_no_ln_for_present_key(m: StoreModel, key: Seq<u8>)
    requires
        nodes_ok(m),
        links_ok(m),
        m.nodes.contains_key(key),
    ensures
        forall|k: Seq<u8>| #[trigger] m.nodes.contains_key(k) ==> !crate::node::is_ln_of_spec(
            m.nodes[k],
            key,
        ),
{
    assert forall|k: Seq<u8>| #[trigger] m.nodes.contains_key(k) implies !crate::node::is_ln_of_spec(
        m.nodes[k],
        key,
    ) by {
        let n = m.nodes[k];
        assert(n.key@ == k);
        assert(node_links_ok(m, k));
        if crate::node::is_ln_of_spec(n, key) {
            if n.next_key@ == zero32() {
                assert(key == k || lex_lt(key, k));
                lemma_lex_lt_asymmetric(k, key);
            } else {
                assert(!(lex_lt(k, key) && lex_lt(key, n.next_key@)));
            }
        }
    }
}

/// After construction the sentinel sorts below every other 32-byte key, so
/// every nonzero key has a low nullifier: the `LowNullifierNotFound` error
/// cannot occur for such a key.
pub proof fn lemma_sentinel_gives_ln(m: StoreModel, key: Seq<u8>)
    requires
        has_sentinel(m),
        key.len() == 32,
        key != zero32(),
    ensures
        crate::storage::has_lower_key(m, key),
{
    lemma_lex_lt_zero32(key);
    lemma_lex_lt_total(zero32(), key);
    if !lex_lt(zero32(), key) {
        assert(key =~= zero32());
    }
    assert(m.nodes.contains_key(zero32()) && lex_lt(zero32(), key));
}

/// No 32-byte key sorts strictly below the all-zero key.
pub proof fn lemma_lex_lt_zero32(k: Seq<u8>)
    requires
        k.len() == 32,
    ensures
        !lex_lt(k, zero32()),
    decreases k.len(),
{
    lemma_lex_lt_zero_n(k, zero32());
}

proof fn lemma_lex_lt_zero_n(k: Seq<u8>, z: Seq<u8>)
    requires
        k.len() == z.len(),
        forall|i: int| 0 <= i < z.len() ==> z[i] == 0u8,
    ensures
        !lex_lt(k, z),
    decreases k.len(),
{
    if k.len() > 0 {
        if k[0] == z[0] {
            lemma_lex_lt_zero_n(k.skip(1), z.skip(1));
        }
    }
}

} // verus!
