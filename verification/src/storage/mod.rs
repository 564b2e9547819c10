//! The tree's storage abstraction.
//!
//! A storage holds the node records, the cached hash at every `(level,
//! index)` position, and the persisted size and root. Its observable content
//! is captured by a [`StoreModel`], and every operation is specified against
//! that model alone, so the engine's guarantees hold over any conforming
//! storage.

use vstd::prelude::*;

pub mod btree_imt_storage;

verus! {

use crate::Hash256;
use crate::bytes::lex_lt;
use crate::node::IMTNode;

/// The mathematical content of a tree storage: the node records keyed by
/// their 32-byte key, the cached hashes keyed by tree position, and the
/// persisted size and root, each absent until first written.
pub struct StoreModel {
    pub nodes: Map<Seq<u8>, IMTNode>,
    pub hashes: Map<(u8, u64), Seq<u8>>,
    pub size: Option<u64>,
    pub root: Option<Seq<u8>>,
}

/// The node stored under `key`, if any.
pub open spec fn node_at(m: StoreModel, key: Seq<u8>) -> Option<IMTNode> {
    if m.nodes.contains_key(key) {
        Some(m.nodes[key])
    } else {
        None
    }
}

/// The cached hash at `(level, index)`, if any.
pub open spec fn hash_at(m: StoreModel, level: u8, index: u64) -> Option<Seq<u8>> {
    if m.hashes.contains_key((level, index)) {
        Some(m.hashes[(level, index)])
    } else {
        None
    }
}

/// Some node key strictly below `key` exists in the storage.
pub open spec fn has_lower_key(m: StoreModel, key: Seq<u8>) -> bool {
    exists|k: Seq<u8>| #[trigger] m.nodes.contains_key(k) && lex_lt(k, key)
}

/// `nk` is the largest stored node key strictly below `key`.
pub open spec fn is_ln_key(m: StoreModel, key: Seq<u8>, nk: Seq<u8>) -> bool {
    &&& m.nodes.contains_key(nk)
    &&& lex_lt(nk, key)
    &&& forall|k2: Seq<u8>| #[trigger] m.nodes.contains_key(k2) && lex_lt(k2, key) ==> !lex_lt(
        nk,
        k2,
    )
}

/// What a low-nullifier lookup must return: the node stored under the
/// largest key strictly below `key`, or nothing if no key sorts below it.
pub open spec fn ln_lookup_ok(m: StoreModel, key: Seq<u8>, r: Option<IMTNode>) -> bool {
    match r {
        None => !has_lower_key(m, key),
        Some(n) => exists|nk: Seq<u8>| #[trigger] is_ln_key(m, key, nk) && n == m.nodes[nk],
    }
}

/// Read access to a tree storage.
pub trait ImtStorageReader: Sized {
    /// The internal representation is well formed.
    spec fn inv(&self) -> bool;

    /// The observable content of this storage.
    spec fn model(&self) -> StoreModel;

    /// Returns the node stored under `key`.
    fn get_node(&self, key: &Hash256) -> (r: Option<IMTNode>)
        requires
            self.inv(),
        ensures
            r == node_at(self.model(), key@),
    ;

    /// Returns the node stored under the largest key strictly below `key`.
    fn get_ln_node(&self, key: &Hash256) -> (r: Option<IMTNode>)
        requires
            self.inv(),
        ensures
            ln_lookup_ok(self.model(), key@, r),
    ;

    /// Returns the cached hash at `(level, index)`.
    fn get_hash(&self, level: u8, index: u64) -> (r: Option<Hash256>)
        requires
            self.inv(),
        ensures
            (match r {
                Some(h) => hash_at(self.model(), level, index) == Some(h@),
                None => hash_at(self.model(), level, index) is None,
            }),
    ;

    /// Returns the persisted tree size.
    fn get_size(&self) -> (r: Option<u64>)
        requires
            self.inv(),
        ensures
            r == self.model().size,
    ;

    /// Returns the persisted tree root.
    fn get_root(&self) -> (r: Option<Hash256>)
        requires
            self.inv(),
        ensures
            (match r {
                Some(h) => self.model().root == Some(h@),
                None => self.model().root is None,
            }),
    ;
}

/// Write access to a tree storage.
pub trait ImtStorageWriter: ImtStorageReader {
    /// Stores `node` under its own key.
    fn set_node(&mut self, node: IMTNode)
        requires
            old(self).inv(),
        ensures
            final(self).inv(),
            final(self).model() == (StoreModel {
                nodes: old(self).model().nodes.insert(node.key@, node),
                ..old(self).model()
            }),
    ;

    /// Caches `hash` at `(level, index)`.
    fn set_hash(&mut self, level: u8, index: u64, hash: Hash256)
        requires
            old(self).inv(),
        ensures
            final(self).inv(),
            final(self).model() == (StoreModel {
                hashes: old(self).model().hashes.insert((level, index), hash@),
                ..old(self).model()
            }),
    ;

    /// Persists the tree size.
    fn set_size(&mut self, size: u64)
        requires
            old(self).inv(),
        ensures
            final(self).inv(),
            final(self).model() == (StoreModel { size: Some(size), ..old(self).model() }),
    ;

    /// Persists the tree root.
    fn set_root(&mut self, root: Hash256)
        requires
            old(self).inv(),
        ensures
            final(self).inv(),
            final(self).model() == (StoreModel { root: Some(root@), ..old(self).model() }),
    ;
}

} // verus!
