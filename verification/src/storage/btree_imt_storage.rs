//! An in-memory tree storage: node records kept sorted by key, cached
//! hashes kept unique by position.

use vstd::prelude::*;

verus! {

use crate::Hash256;
use crate::bytes::{
    bytes32_eq,
    bytes32_lt,
    lemma_lex_lt_asymmetric,
    lemma_lex_lt_total,
    lemma_lex_lt_transitive,
    lex_lt,
};
use crate::node::IMTNode;
use crate::storage::{ImtStorageReader, ImtStorageWriter, StoreModel, is_ln_key};

/// One cached hash at a `(level, index)` tree position.
#[derive(Debug, Clone, Copy)]
struct HashEntry {
    level: u8,
    index: u64,
    hash: Hash256,
}

/// An in-memory tree storage.
///
/// Node records are kept strictly sorted by key in lexicographic byte
/// order, which makes the low-nullifier lookup a predecessor scan; cached
/// hashes are kept unique by position.
#[derive(Debug, Clone)]
pub struct BTreeImtStorage {
    root: Option<Hash256>,
    size: Option<u64>,
    nodes: Vec<IMTNode>,
    hashes: Vec<HashEntry>,
}

/// The map held by a sequence of node records, later entries winning.
spec fn nodes_map(s: Seq<IMTNode>) -> Map<Seq<u8>, IMTNode>
    decreases s.len(),
{
    if s.len() == 0 {
        Map::empty()
    } else {
        nodes_map(s.drop_last()).insert(s.last().key@, s.last())
    }
}

/// The map held by a sequence of cached hashes, later entries winning.
spec fn hashes_map(s: Seq<HashEntry>) -> Map<(u8, u64), Seq<u8>>
    decreases s.len(),
{
    if s.len() == 0 {
        Map::empty()
    } else {
        hashes_map(s.drop_last()).insert((s.last().level, s.last().index), s.last().hash@)
    }
}

/// Node records are strictly sorted by key.
spec fn nodes_sorted(s: Seq<IMTNode>) -> bool {
    forall|i: int, j: int| #![trigger s[i], s[j]] 0 <= i < j < s.len() ==> lex_lt(s[i].key@, s[j].key@)
}

/// No two cached hashes share a position.
spec fn hashes_unique(s: Seq<HashEntry>) -> bool {
    forall|i: int, j: int|
        #![trigger s[i], s[j]]
        0 <= i < j < s.len() ==> !(s[i].level == s[j].level && s[i].index == s[j].index)
}

proof fn lemma_nodes_map_contains(s: Seq<IMTNode>, k: Seq<u8>)
    ensures
        nodes_map(s).contains_key(k) <==> (exists|i: int| 0 <= i < s.len() && s[i].key@ == k),
    decreases s.len(),
{
    if s.len() > 0 {
        lemma_nodes_map_contains(s.drop_last(), k);
        if nodes_map(s).contains_key(k) {
            if s.last().key@ == k {
                assert(s[s.len() - 1].key@ == k);
            } else {
                let i = choose|i: int| 0 <= i < s.drop_last().len() && s.drop_last()[i].key@ == k;
                assert(s[i].key@ == k);
            }
        }
        if exists|i: int| 0 <= i < s.len() && s[i].key@ == k {
            let i = choose|i: int| 0 <= i < s.len() && s[i].key@ == k;
            if i < s.len() - 1 {
                assert(s.drop_last()[i].key@ == k);
            }
        }
    }
}

proof fn lemma_nodes_map_index(s: Seq<IMTNode>, i: int)
    requires
        0 <= i < s.len(),
        forall|j: int| i < j < s.len() ==> s[j].key@ != s[i].key@,
    ensures
        nodes_map(s).contains_key(s[i].key@),
        nodes_map(s)[s[i].key@] == s[i],
    decreases s.len(),
{
    if i < s.len() - 1 {
        lemma_nodes_map_index(s.drop_last(), i);
    }
}

proof fn lemma_nodes_map_insert(s: Seq<IMTNode>, i: int, node: IMTNode)
    requires
        0 <= i <= s.len(),
        forall|j: int| 0 <= j < s.len() ==> s[j].key@ != node.key@,
    ensures
        nodes_map(s.insert(i, node)) == nodes_map(s).insert(node.key@, node),
    decreases s.len() - i,
{
    let t = s.insert(i, node);
    if i == s.len() {
        assert(t.drop_last() =~= s);
        assert(t.last() == node);
    } else {
        assert(t.last() == s.last());
        assert(t.drop_last() =~= s.drop_last().insert(i, node));
        lemma_nodes_map_insert(s.drop_last(), i, node);
        assert(s.last().key@ != node.key@);
        assert(nodes_map(t) == nodes_map(s.drop_last()).insert(node.key@, node).insert(
            s.last().key@,
            s.last(),
        ));
        assert(nodes_map(s.drop_last()).insert(node.key@, node).insert(s.last().key@, s.last())
            =~= nodes_map(s.drop_last()).insert(s.last().key@, s.last()).insert(
            node.key@,
            node,
        ));
    }
}

proof fn lemma_nodes_map_update(s: Seq<IMTNode>, i: int, node: IMTNode)
    requires
        0 <= i < s.len(),
        s[i].key@ == node.key@,
        forall|j: int| 0 <= j < s.len() && j != i ==> s[j].key@ != node.key@,
    ensures
        nodes_map(s.update(i, node)) == nodes_map(s).insert(node.key@, node),
    decreases s.len(),
{
    let t = s.update(i, node);
    if i == s.len() - 1 {
        assert(t.drop_last() =~= s.drop_last());
        assert(t.last() == node);
        assert(nodes_map(s.drop_last()).insert(s.last().key@, s.last()).insert(node.key@, node)
            =~= nodes_map(s.drop_last()).insert(node.key@, node));
    } else {
        assert(t.last() == s.last());
        assert(t.drop_last() =~= s.drop_last().update(i, node));
        lemma_nodes_map_update(s.drop_last(), i, node);
        assert(s.last().key@ != node.key@);
        assert(nodes_map(s.drop_last()).insert(node.key@, node).insert(s.last().key@, s.last())
            =~= nodes_map(s.drop_last()).insert(s.last().key@, s.last()).insert(
            node.key@,
            node,
        ));
    }
}

proof fn lemma_hashes_map_contains(s: Seq<HashEntry>, level: u8, index: u64)
    ensures
        hashes_map(s).contains_key((level, index)) <==> (exists|i: int|
            0 <= i < s.len() && s[i].level == level && s[i].index == index),
    decreases s.len(),
{
    if s.len() > 0 {
        lemma_hashes_map_contains(s.drop_last(), level, index);
        if hashes_map(s).contains_key((level, index)) {
            if s.last().level == level && s.last().index == index {
                assert(s[s.len() - 1].level == level && s[s.len() - 1].index == index);
            } else {
                let i = choose|i: int|
                    0 <= i < s.drop_last().len() && s.drop_last()[i].level == level
                        && s.drop_last()[i].index == index;
                assert(s[i].level == level && s[i].index == index);
            }
        }
        if exists|i: int| 0 <= i < s.len() && s[i].level == level && s[i].index == index {
            let i = choose|i: int| 0 <= i < s.len() && s[i].level == level && s[i].index == index;
            if i < s.len() - 1 {
                assert(s.drop_last()[i].level == level && s.drop_last()[i].index == index);
            }
        }
    }
}

proof fn lemma_hashes_map_index(s: Seq<HashEntry>, i: int)
    requires
        0 <= i < s.len(),
        forall|j: int|
            i < j < s.len() ==> !(s[j].level == s[i].level && s[j].index == s[i].index),
    ensures
        hashes_map(s).contains_key((s[i].level, s[i].index)),
        hashes_map(s)[(s[i].level, s[i].index)] == s[i].hash@,
    decreases s.len(),
{
    if i < s.len() - 1 {
        lemma_hashes_map_index(s.drop_last(), i);
    }
}

proof fn lemma_hashes_map_update(s: Seq<HashEntry>, i: int, e: HashEntry)
    requires
        0 <= i < s.len(),
        s[i].level == e.level,
        s[i].index == e.index,
        forall|j: int|
            0 <= j < s.len() && j != i ==> !(s[j].level == e.level && s[j].index == e.index),
    ensures
        hashes_map(s.update(i, e)) == hashes_map(s).insert((e.level, e.index), e.hash@),
    decreases s.len(),
{
    let t = s.update(i, e);
    if i == s.len() - 1 {
        assert(t.drop_last() =~= s.drop_last());
        assert(t.last() == e);
        assert(hashes_map(s.drop_last()).insert((s.last().level, s.last().index), s.last().hash@)
            .insert((e.level, e.index), e.hash@) =~= hashes_map(s.drop_last()).insert(
            (e.level, e.index),
            e.hash@,
        ));
    } else {
        assert(t.last() == s.last());
        assert(t.drop_last() =~= s.drop_last().update(i, e));
        lemma_hashes_map_update(s.drop_last(), i, e);
        assert(!(s.last().level == e.level && s.last().index == e.index));
        assert(hashes_map(s.drop_last()).insert((e.level, e.index), e.hash@).insert(
            (s.last().level, s.last().index),
            s.last().hash@,
        ) =~= hashes_map(s.drop_last()).insert(
            (s.last().level, s.last().index),
            s.last().hash@,
        ).insert((e.level, e.index), e.hash@));
    }
}

impl BTreeImtStorage {
    /// An empty storage.
    pub fn new() -> (r: Self)
        ensures
            r.inv(),
            r.model() == (StoreModel {
                nodes: Map::<Seq<u8>, IMTNode>::empty(),
                hashes: Map::<(u8, u64), Seq<u8>>::empty(),
                size: None,
                root: None,
            }),
    {
        BTreeImtStorage { root: None, size: None, nodes: Vec::new(), hashes: Vec::new() }
    }

    /// The number of stored node records whose key sorts strictly below
    /// `key`; by sortedness those records form a prefix.
    fn lower_count(&self, key: &Hash256) -> (i: usize)
        requires
            self.inv(),
        ensures
            i <= self.nodes@.len(),
            forall|j: int| 0 <= j < i ==> lex_lt(self.nodes@[j].key@, key@),
            forall|j: int| i <= j < self.nodes@.len() ==> !lex_lt(self.nodes@[j].key@, key@),
    {
        let ghost s = self.nodes@;
        let mut c: usize = 0;
        let mut j: usize = 0;
        while j < self.nodes.len()
            invariant
                self.inv(),
                s == self.nodes@,
                0 <= c <= j <= s.len(),
                forall|k: int| 0 <= k < c ==> lex_lt(s[k].key@, key@),
                forall|k: int| c <= k < j ==> !lex_lt(s[k].key@, key@),
                c < j ==> forall|k: int| c <= k < j ==> !lex_lt(s[k].key@, key@),
            decreases s.len() - j,
        {
            if bytes32_lt(&self.nodes[j].key, key) {
                proof {
                    if c < j {
                        // A sorted sequence cannot sink below `key` again
                        // after once reaching it.
                        assert(lex_lt(s[c as int].key@, s[j as int].key@));
                        lemma_lex_lt_transitive(s[c as int].key@, s[j as int].key@, key@);
                        assert(false);
                    }
                }
                c = c + 1;
            }
            j = j + 1;
        }
        c
    }
}

impl Default for BTreeImtStorage {
    /// An empty storage.
    fn default() -> (r: Self)
        ensures
            r.inv(),
            r.model() == (StoreModel {
                nodes: Map::<Seq<u8>, IMTNode>::empty(),
                hashes: Map::<(u8, u64), Seq<u8>>::empty(),
                size: None,
                root: None,
            }),
    {
        BTreeImtStorage::new()
    }
}

impl ImtStorageReader for BTreeImtStorage {
    closed spec fn inv(&self) -> bool {
        &&& nodes_sorted(self.nodes@)
        &&& hashes_unique(self.hashes@)
    }

    closed spec fn model(&self) -> StoreModel {
        StoreModel {
            nodes: nodes_map(self.nodes@),
            hashes: hashes_map(self.hashes@),
            size: self.size,
            root: match self.root {
                Some(h) => Some(h@),
                None => None,
            },
        }
    }

    fn get_node(&self, key: &Hash256) -> (r: Option<IMTNode>) {
        let ghost s = self.nodes@;
        let mut i: usize = 0;
        while i < self.nodes.len()
            invariant
                self.inv(),
                s == self.nodes@,
                0 <= i <= s.len(),
                forall|j: int| 0 <= j < i ==> s[j].key@ != key@,
            decreases s.len() - i,
        {
            if bytes32_eq(&self.nodes[i].key, key) {
                proof {
                    assert forall|j: int| i < j < s.len() implies s[j].key@ != s[i as int].key@ by {
                        assert(lex_lt(s[i as int].key@, s[j].key@));
                        lemma_lex_lt_asymmetric(s[i as int].key@, s[i as int].key@);
                    }
                    lemma_nodes_map_index(s, i as int);
                }
                return Some(self.nodes[i]);
            }
            i = i + 1;
        }
        proof {
            lemma_nodes_map_contains(s, key@);
        }
        None
    }

    fn get_ln_node(&self, key: &Hash256) -> (r: Option<IMTNode>) {
        let ghost s = self.nodes@;
        let i = self.lower_count(key);
        if i == 0 {
            proof {
                assert forall|k: Seq<u8>|
                    #[trigger] nodes_map(s).contains_key(k) implies !lex_lt(k, key@) by {
                    lemma_nodes_map_contains(s, k);
                    let j = choose|j: int| 0 <= j < s.len() && s[j].key@ == k;
                    assert(!lex_lt(s[j].key@, key@));
                }
            }
            None
        } else {
            let ghost b = i - 1;
            proof {
                assert forall|j: int| b < j < s.len() implies s[j].key@ != s[b as int].key@ by {
                    assert(lex_lt(s[b as int].key@, s[j].key@));
                    lemma_lex_lt_asymmetric(s[b as int].key@, s[b as int].key@);
                }
                lemma_nodes_map_index(s, b as int);
                let nk = s[b as int].key@;
                assert forall|k2: Seq<u8>|
                    #[trigger] nodes_map(s).contains_key(k2) && lex_lt(k2, key@) implies !lex_lt(
                    nk,
                    k2,
                ) by {
                    lemma_nodes_map_contains(s, k2);
                    let j = choose|j: int| 0 <= j < s.len() && s[j].key@ == k2;
                    if j < b {
                        assert(lex_lt(s[j].key@, nk));
                        lemma_lex_lt_asymmetric(s[j].key@, nk);
                    } else if j == b {
                        lemma_lex_lt_asymmetric(nk, nk);
                    } else {
                        assert(!lex_lt(s[j].key@, key@));
                    }
                }
                assert(is_ln_key(self.model(), key@, nk));
            }
            Some(self.nodes[i - 1])
        }
    }

    fn get_hash(&self, level: u8, index: u64) -> (r: Option<Hash256>) {
        let ghost s = self.hashes@;
        let mut i: usize = 0;
        while i < self.hashes.len()
            invariant
                self.inv(),
                s == self.hashes@,
                0 <= i <= s.len(),
                forall|j: int| 0 <= j < i ==> !(s[j].level == level && s[j].index == index),
            decreases s.len() - i,
        {
            if self.hashes[i].level == level && self.hashes[i].index == index {
                proof {
                    lemma_hashes_map_index(s, i as int);
                }
                return Some(self.hashes[i].hash);
            }
            i = i + 1;
        }
        proof {
            lemma_hashes_map_contains(s, level, index);
        }
        None
    }

    fn get_size(&self) -> (r: Option<u64>) {
        self.size
    }

    fn get_root(&self) -> (r: Option<Hash256>) {
        self.root
    }
}

impl ImtStorageWriter for BTreeImtStorage {
    fn set_node(&mut self, node: IMTNode) {
        let ghost s = self.nodes@;
        let i = self.lower_count(&node.key);
        if i < self.nodes.len() && bytes32_eq(&self.nodes[i].key, &node.key) {
            proof {
                assert forall|j: int| 0 <= j < s.len() && j != i implies s[j].key@ != node.key@ by {
                    if j < i {
                        lemma_lex_lt_asymmetric(s[j].key@, s[j].key@);
                    } else {
                        assert(lex_lt(s[i as int].key@, s[j].key@));
                        lemma_lex_lt_asymmetric(s[j].key@, s[j].key@);
                    }
                }
                lemma_nodes_map_update(s, i as int, node);
            }
            self.nodes[i] = node;
            proof {
                assert(nodes_sorted(self.nodes@)) by {
                    assert forall|a: int, b: int|
                        0 <= a < b < self.nodes@.len() implies lex_lt(
                        self.nodes@[a].key@,
                        self.nodes@[b].key@,
                    ) by {
                        assert(lex_lt(s[a].key@, s[b].key@));
                    }
                }
            }
        } else {
            proof {
                assert forall|j: int| 0 <= j < s.len() implies s[j].key@ != node.key@ by {
                    if j < i {
                        lemma_lex_lt_asymmetric(s[j].key@, s[j].key@);
                    } else {
                        assert(!lex_lt(s[j].key@, node.key@));
                        if j == i {
                            assert(s[j].key@ != node.key@);
                        } else {
                            assert(lex_lt(s[i as int].key@, s[j].key@));
                            if s[j].key@ == node.key@ {
                                assert(lex_lt(s[i as int].key@, node.key@));
                                assert(false);
                            }
                        }
                    }
                }
                lemma_nodes_map_insert(s, i as int, node);
            }
            self.nodes.insert(i, node);
            proof {
                assert(self.nodes@ == s.insert(i as int, node));
                assert forall|a: int, b: int|
                    0 <= a < b < self.nodes@.len() implies lex_lt(
                    self.nodes@[a].key@,
                    self.nodes@[b].key@,
                ) by {
                    let t = self.nodes@;
                    if b < i {
                        assert(t[a] == s[a] && t[b] == s[b]);
                    } else if a > i {
                        assert(t[a] == s[a - 1] && t[b] == s[b - 1]);
                    } else if a < i && b == i {
                        assert(t[a] == s[a] && t[b] == node);
                    } else if a < i && b > i {
                        assert(t[a] == s[a] && t[b] == s[b - 1]);
                    } else if a == i {
                        assert(t[a] == node && t[b] == s[b - 1]);
                        assert(!lex_lt(s[b - 1].key@, node.key@));
                        assert(s[b - 1].key@ != node.key@);
                        lemma_lex_lt_total(node.key@, s[b - 1].key@);
                    }
                }
            }
        }
    }

    #[verifier::loop_isolation(false)]
    fn set_hash(&mut self, level: u8, index: u64, hash: Hash256) {
        let ghost s = self.hashes@;
        let e = HashEntry { level: level, index: index, hash: hash };
        let mut i: usize = 0;
        while i < self.hashes.len()
            invariant
                self.inv(),
                s == self.hashes@,
                s == old(self).hashes@,
                self.nodes@ == old(self).nodes@,
                self.size == old(self).size,
                self.root == old(self).root,
                0 <= i <= s.len(),
                forall|j: int| 0 <= j < i ==> !(s[j].level == level && s[j].index == index),
            decreases s.len() - i,
        {
            if self.hashes[i].level == level && self.hashes[i].index == index {
                let e = HashEntry { level: level, index: index, hash: hash };
                proof {
                    assert(s[i as int].level == e.level && s[i as int].index == e.index);
                    assert forall|j: int|
                        0 <= j < s.len() && j != i implies !(s[j].level == e.level && s[j].index
                        == e.index) by {
                        if j > i {
                            assert(!(s[i as int].level == s[j].level && s[i as int].index
                                == s[j].index));
                        }
                    }
                    lemma_hashes_map_update(s, i as int, e);
                }
                self.hashes[i] = e;
                proof {
                    let t = self.hashes@;
                    assert(t == s.update(i as int, e));
                    assert(hashes_map(t) == hashes_map(s).insert((level, index), hash@));
                    assert forall|a: int, b: int|
                        0 <= a < b < t.len() implies !(t[a].level == t[b].level && t[a].index
                        == t[b].index) by {
                        assert(!(s[a].level == s[b].level && s[a].index == s[b].index));
                        assert(t[a].level == s[a].level && t[a].index == s[a].index);
                        assert(t[b].level == s[b].level && t[b].index == s[b].index);
                    }
                }
                return;
            }
            i = i + 1;
        }
        self.hashes.push(e);
        proof {
            assert(self.hashes@.drop_last() =~= s);
            assert(self.hashes@.last() == e);
            assert(hashes_map(self.hashes@) == hashes_map(s).insert((level, index), hash@));
            assert forall|a: int, b: int|
                0 <= a < b < self.hashes@.len() implies !(self.hashes@[a].level
                == self.hashes@[b].level && self.hashes@[a].index == self.hashes@[b].index) by {
                if b < s.len() {
                    assert(!(s[a].level == s[b].level && s[a].index == s[b].index));
                } else {
                    assert(self.hashes@[b] == e);
                    assert(!(s[a].level == level && s[a].index == index));
                }
            }
        }
    }

    fn set_size(&mut self, size: u64) {
        self.size = Some(size);
    }

    fn set_root(&mut self, root: Hash256) {
        self.root = Some(root);
    }
}

} // verus!
