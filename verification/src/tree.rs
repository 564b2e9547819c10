//! The tree engine: owns a storage, performs insertions and updates, and
//! returns self-verifying proof objects for every operation.

use vstd::prelude::*;

verus! {

use crate::Hash256;
use crate::bytes::{push_bytes32, push_u64_be, u64_be, zero32};
use crate::hash::{keccak256, keccak256_hash};
use crate::node::IMTNode;
use crate::proofs::exclusion::ExclusionProof;
use crate::proofs::inclusion::InclusionProof;
use crate::proofs::insert::InsertProof;
use crate::proofs::mutate::MutateProof;
use crate::proofs::node::NodeProof;
use crate::proofs::update::UpdateProof;
use crate::proofs::{hash_at_level, idx_at, view_siblings};
use crate::storage::{
    ImtStorageReader,
    ImtStorageWriter,
    StoreModel,
    hash_at,
    has_lower_key,
    is_ln_key,
};
use vstd::arithmetic::power2::{lemma2_to64, lemma_pow2_strictly_increases, lemma_pow2_unfold, pow2};

/// An error raised by the tree engine.
#[derive(Debug, Clone, Copy, PartialEq, Eq)]
pub enum ImtError {
    /// The key to insert is already present; it carries the key.
    NodeAlreadyExist(Hash256),
    /// The key to read or update is absent; it carries the key.
    NodeDoesNotExist(Hash256),
    /// No stored key sorts below the given key, so it has no low nullifier;
    /// it carries the key. After construction the sentinel sorts below
    /// every other key, so this signals a malformed storage.
    LowNullifierNotFound(Hash256),
}

impl ImtError {
    /// A stable textual tag for this error.
    pub fn message(&self) -> (r: &'static str)
        ensures
            r@ == self.message_spec(),
    {
        match self {
            ImtError::NodeAlreadyExist(_) => "node already exists",
            ImtError::NodeDoesNotExist(_) => "node does not exist",
            ImtError::LowNullifierNotFound(_) => "low nullifier not found",
        }
    }

    /// The characters of this error's textual tag.
    pub open spec fn message_spec(self) -> Seq<char> {
        match self {
            ImtError::NodeAlreadyExist(_) => "node already exists"@,
            ImtError::NodeDoesNotExist(_) => "node does not exist"@,
            ImtError::LowNullifierNotFound(_) => "low nullifier not found"@,
        }
    }
}

/// The persisted size of a storage, zero until first written.
pub open spec fn size_of(m: StoreModel) -> u64 {
    match m.size {
        Some(s) => s,
        None => 0,
    }
}

/// The persisted root of a storage, all-zero until first written.
pub open spec fn root_of(m: StoreModel) -> Seq<u8> {
    match m.root {
        Some(r) => r,
        None => zero32(),
    }
}

/// The depth of a tree of `size` nodes: `⌈log2(size)⌉`, with `depth(1) == 0`.
pub open spec fn depth_spec(size: int) -> int
    decreases size,
{
    if size <= 1 {
        0
    } else {
        1 + depth_spec((size + 1) / 2)
    }
}

/// `depth_spec` is the ceiling of the base-2 logarithm: the tree of `size`
/// nodes fits at depth `depth_spec(size)` and in no shallower tree.
pub proof fn lemma_depth_spec_is_ceil_log2(size: int)
    requires
        1 <= size,
    ensures
        0 <= depth_spec(size),
        size <= pow2(depth_spec(size) as nat),
        depth_spec(size) > 0 ==> pow2((depth_spec(size) - 1) as nat) < size,
    decreases size,
{
    lemma2_to64();
    if size > 1 {
        let h = (size + 1) / 2;
        lemma_depth_spec_is_ceil_log2(h);
        let d = depth_spec(h);
        lemma_pow2_unfold((d + 1) as nat);
        assert(size <= 2 * h);
        if d > 0 {
            lemma_pow2_unfold(d as nat);
            assert(pow2((d - 1) as nat) < h);
            assert(2 * h <= size + 1);
            assert(pow2(d as nat) == 2 * pow2((d - 1) as nat));
            assert(pow2(d as nat) < size + 1);
        } else {
            assert(h == 1);
            assert(size == 2);
        }
    }
}

/// A 64-bit tree size never needs a depth beyond 64.
pub proof fn lemma_depth_spec_le_64(size: int)
    requires
        1 <= size <= u64::MAX,
    ensures
        0 <= depth_spec(size) <= 64,
{
    lemma_depth_spec_is_ceil_log2(size);
    let d = depth_spec(size);
    if d > 64 {
        lemma2_to64();
        if d - 1 > 64 {
            lemma_pow2_strictly_increases(64, (d - 1) as nat);
        }
        assert(pow2(64) <= pow2((d - 1) as nat));
        assert(false);
    }
}

/// One insertion deepens the tree by at most one level.
pub proof fn lemma_depth_spec_step(s: int)
    requires
        1 <= s,
    ensures
        depth_spec(s) <= depth_spec(s + 1) <= depth_spec(s) + 1,
{
    lemma_depth_spec_is_ceil_log2(s);
    lemma_depth_spec_is_ceil_log2(s + 1);
    lemma2_to64();
    let d = depth_spec(s);
    let d1 = depth_spec(s + 1);
    if d1 < d {
        if d1 < d - 1 {
            lemma_pow2_strictly_increases(d1 as nat, (d - 1) as nat);
        }
        assert(pow2(d1 as nat) <= pow2((d - 1) as nat));
        assert(pow2((d - 1) as nat) < s);
        assert(false);
    }
    if d1 > d + 1 {
        if d + 1 < d1 - 1 {
            lemma_pow2_strictly_increases((d + 1) as nat, (d1 - 1) as nat);
        }
        assert(pow2((d + 1) as nat) <= pow2((d1 - 1) as nat));
        lemma_pow2_unfold((d + 1) as nat);
        vstd::arithmetic::power2::lemma_pow2_pos(d as nat);
        assert(pow2((d1 - 1) as nat) < s + 1);
        assert(2 * pow2(d as nat) < s + 1);
        assert(s <= pow2(d as nat));
        assert(false);
    }
}

/// Computes the depth of the tree from its `size`.
pub fn depth(size: u64) -> (r: u8)
    requires
        1 <= size,
    ensures
        r as int == depth_spec(size as int),
        r <= 64,
    decreases size,
{
    proof {
        lemma_depth_spec_le_64(size as int);
    }
    if size <= 1 {
        0
    } else {
        let half = size / 2 + size % 2;
        assert(half as int == (size as int + 1) / 2);
        let d = depth(half);
        1 + d
    }
}

/// The sibling position of a tree position.
pub open spec fn sib_of(i: int) -> int {
    if i % 2 == 0 {
        i + 1
    } else {
        i - 1
    }
}

/// An ancestor position never exceeds the leaf position.
pub proof fn lemma_idx_at_bounds(index: u64, l: int)
    ensures
        0 <= idx_at(index, l) <= index,
    decreases l,
{
    if l > 0 {
        lemma_idx_at_bounds(index, l - 1);
    }
}

/// The sibling vector a storage yields for a leaf at `index` in a tree of
/// the given `depth`: at each level, the cached hash at the sibling of the
/// leaf's ancestor.
pub open spec fn sibs_of(m: StoreModel, index: u64, depth: int) -> Seq<Option<Seq<u8>>> {
    Seq::new(
        depth as nat,
        |l: int| hash_at(m, l as u8, sib_of(idx_at(index, l)) as u64),
    )
}

/// The cached hashes after writing a leaf at `node.index` and refreshing
/// the path above it up to level `upto`: position `(l, idx_at(node.index,
/// l))` now holds the Merkle climb of `node` through the previously cached
/// siblings.
pub open spec fn path_updated_hashes(
    m: StoreModel,
    node: IMTNode,
    depth: int,
    upto: int,
) -> Map<(u8, u64), Seq<u8>>
    decreases upto + 1,
{
    if upto < 0 {
        m.hashes
    } else {
        path_updated_hashes(m, node, depth, upto - 1).insert(
            (upto as u8, idx_at(node.index, upto) as u64),
            hash_at_level(node, sibs_of(m, node.index, depth), upto),
        )
    }
}

/// A position off the refreshed path reads the same cached hash before and
/// after the path update.
pub proof fn lemma_path_updated_hashes_off_path(
    m: StoreModel,
    node: IMTNode,
    depth: int,
    upto: int,
    level: int,
    index: int,
)
    requires
        -1 <= upto < 256,
        0 <= level < 256,
        0 <= index <= u64::MAX,
        !(level <= upto && index == idx_at(node.index, level)),
    ensures
        path_updated_hashes(m, node, depth, upto).contains_key((level as u8, index as u64))
            == m.hashes.contains_key((level as u8, index as u64)),
        m.hashes.contains_key((level as u8, index as u64)) ==> path_updated_hashes(
            m,
            node,
            depth,
            upto,
        )[(level as u8, index as u64)] == m.hashes[(level as u8, index as u64)],
    decreases upto + 1,
{
    if upto >= 0 {
        lemma_path_updated_hashes_off_path(m, node, depth, upto - 1, level, index);
        lemma_idx_at_bounds(node.index, upto);
        if level == upto {
            assert(index != idx_at(node.index, level));
            assert((level as u8, index as u64) != (upto as u8, idx_at(node.index, upto) as u64));
        } else {
            assert(level as u8 != upto as u8);
        }
    }
}

/// The content of a storage after setting a leaf and refreshing its path:
/// the node record is stored under its key, the cached hashes along the
/// path are recomputed, and the root is refreshed from the level-`depth`
/// hash and the persisted size.
pub open spec fn write_node_model(m: StoreModel, node: IMTNode, depth: int) -> StoreModel {
    let m1 = StoreModel {
        nodes: m.nodes.insert(node.key@, node),
        hashes: path_updated_hashes(m, node, depth, depth),
        ..m
    };
    StoreModel { root: Some(root_with_size(m1, depth)), ..m1 }
}

/// The cached hash at `(level, index)`, or all-zero when absent.
pub open spec fn hash_or_zero(m: StoreModel, level: u8, index: u64) -> Seq<u8> {
    match hash_at(m, level, index) {
        Some(h) => h,
        None => zero32(),
    }
}

/// The size-bound root a refresh persists: `H(cached_hash(depth, 0) ||
/// size_be_64)`.
pub open spec fn root_with_size(m: StoreModel, depth: int) -> Seq<u8> {
    keccak256(hash_or_zero(m, depth as u8, 0) + u64_be(size_of(m)))
}

/// Every stored node record sits under its own key.
pub open spec fn nodes_ok(m: StoreModel) -> bool {
    forall|k: Seq<u8>| #[trigger] m.nodes.contains_key(k) ==> m.nodes[k].key@ == k
}

/// The all-zero 32-byte value.
pub open spec fn zero_hash() -> Hash256 {
    vstd::array::spec_array_fill_for_copy_type::<u8, 32>(0u8)
}

/// The sentinel: the node automatically created at slot 0 with all-zero
/// key, value and next key.
pub open spec fn sentinel_node() -> IMTNode {
    IMTNode { index: 0, key: zero_hash(), value: zero_hash(), next_key: zero_hash() }
}

/// The content of a storage after attaching a writer to it: untouched if a
/// size was already persisted, otherwise the sentinel is inserted and the
/// size set to one.
pub open spec fn init_model(m: StoreModel) -> StoreModel {
    if m.size is Some {
        m
    } else {
        write_node_model(StoreModel { size: Some(1), ..m }, sentinel_node(), 0)
    }
}

/// The content of a storage in the middle of an insertion: the low
/// nullifier retargeted and its path refreshed at the old depth, then the
/// size incremented.
pub open spec fn insert_mid_model(m: StoreModel, updated_ln: IMTNode) -> StoreModel {
    let m1 = write_node_model(m, updated_ln, depth_spec(size_of(m) as int));
    StoreModel { size: Some((size_of(m) + 1) as u64), ..m1 }
}

/// The content of a storage after a full insertion: the retargeted low
/// nullifier written at the old depth, the size incremented, and the new
/// node written at the new depth.
pub open spec fn insert_model(m: StoreModel, updated_ln: IMTNode, node: IMTNode) -> StoreModel {
    write_node_model(
        insert_mid_model(m, updated_ln),
        node,
        depth_spec((size_of(m) + 1) as int),
    )
}

/// The content of a storage after an update: the stored node rewritten
/// with the new value and its path refreshed at the current depth.
pub open spec fn update_model(m: StoreModel, key: Seq<u8>, value: Hash256) -> StoreModel {
    write_node_model(
        m,
        IMTNode { value: value, ..m.nodes[key] },
        depth_spec(size_of(m) as int),
    )
}

/// What a successful insertion returns and leaves behind: the proof binds
/// the pre-insertion state (old root, old size, the low nullifier as it
/// stood, and its siblings), carries the new node with the sibling vectors
/// recorded while rehashing, and the storage holds the fully reinserted
/// state.
pub open spec fn insert_post(
    m: StoreModel,
    key: Hash256,
    value: Hash256,
    m2: StoreModel,
    p: InsertProof,
) -> bool {
    let old_size = size_of(m);
    let old_depth = depth_spec(old_size as int);
    let new_depth = depth_spec((old_size + 1) as int);
    let updated_ln = IMTNode { next_key: key, ..p.ln_node };
    let mid = insert_mid_model(m, updated_ln);
    &&& is_ln_key(m, key@, p.ln_node.key@)
    &&& p.ln_node == m.nodes[p.ln_node.key@]
    &&& p.old_root@ == root_of(m)
    &&& p.old_size == old_size
    &&& view_siblings(p.ln_siblings@) == sibs_of(m, p.ln_node.index, old_depth)
    &&& p.node == (IMTNode { index: old_size, key: key, value: value, next_key: p.ln_node.next_key })
    &&& view_siblings(p.node_siblings@) == sibs_of(mid, old_size, new_depth)
    &&& view_siblings(p.updated_ln_siblings@) == sibs_of(m2, p.ln_node.index, new_depth)
    &&& m2 == insert_model(m, updated_ln, p.node)
}

/// What a successful update returns and leaves behind: the proof binds the
/// pre-update state (old root, size, the node as it stood, and its
/// siblings) together with the new value, and the storage holds the
/// rewritten node.
pub open spec fn update_post(
    m: StoreModel,
    key: Hash256,
    value: Hash256,
    m2: StoreModel,
    p: UpdateProof,
) -> bool {
    &&& p.old_root@ == root_of(m)
    &&& p.size == size_of(m)
    &&& p.node == m.nodes[key@]
    &&& p.new_value == value
    &&& view_siblings(p.node_siblings@) == sibs_of(m, p.node.index, depth_spec(size_of(m) as int))
    &&& m2 == update_model(m, key@, value)
}

/// An indexed Merkle tree bound to a storage.
#[derive(Debug, Clone)]
pub struct Imt<S> {
    storage: S,
}

impl<S: ImtStorageReader> Imt<S> {
    /// The storage representation is well formed.
    pub closed spec fn wf(self) -> bool {
        self.storage.inv()
    }

    /// The observable content of the underlying storage.
    pub closed spec fn model(self) -> StoreModel {
        self.storage.model()
    }

    /// The engine is attached to an initialized, well-formed tree: a size
    /// of at least one is persisted and the full state invariant holds —
    /// consistent records, an intact linked-list overlay, and a coherent
    /// hash cache.
    pub open spec fn ready(self) -> bool {
        &&& self.wf()
        &&& crate::coherence::state_ok(self.model())
    }

    /// Creates a tree that only provides read access, attached to an
    /// initialized storage.
    pub fn reader(storage: S) -> (r: Self)
        requires
            storage.inv(),
            crate::coherence::state_ok(storage.model()),
        ensures
            r.ready(),
            r.model() == storage.model(),
    {
        Imt { storage }
    }

    /// Consumes the tree and hands its storage back, so that a
    /// transactional storage can be committed or discarded.
    pub fn into_storage(self) -> (r: S)
        ensures
            r.model() == self.model(),
            self.wf() ==> r.inv(),
    {
        self.storage
    }

    /// Returns the tree size (including the sentinel), or zero if the
    /// storage was never initialized.
    pub fn size(&self) -> (r: u64)
        requires
            self.wf(),
        ensures
            r == size_of(self.model()),
    {
        match self.storage.get_size() {
            Some(s) => s,
            None => 0,
        }
    }

    /// Returns the size-bound tree root, or all-zero if the storage was
    /// never initialized.
    pub fn root(&self) -> (r: Hash256)
        requires
            self.wf(),
        ensures
            r@ == root_of(self.model()),
    {
        match self.storage.get_root() {
            Some(r) => r,
            None => {
                let z = [0u8; 32];
                proof {
                    assert(z@ =~= zero32());
                }
                z
            },
        }
    }

    /// Returns the tree depth, derived from the size.
    pub fn depth(&self) -> (r: u8)
        requires
            self.wf(),
            1 <= size_of(self.model()),
        ensures
            r as int == depth_spec(size_of(self.model()) as int),
    {
        depth(self.size())
    }

    /// Returns the low nullifier node for `node_key`.
    fn low_nullifier(&self, node_key: &Hash256) -> (r: Option<IMTNode>)
        requires
            self.wf(),
        ensures
            crate::storage::ln_lookup_ok(self.model(), node_key@, r),
    {
        self.storage.get_ln_node(node_key)
    }

    /// Returns the list of siblings for the given node.
    fn siblings(&self, depth: u8, node: &IMTNode) -> (r: Vec<Option<Hash256>>)
        requires
            self.wf(),
        ensures
            r@.len() == depth as int,
            view_siblings(r@) == sibs_of(self.model(), node.index, depth as int),
    {
        let ghost m = self.model();
        let mut siblings: Vec<Option<Hash256>> = Vec::new();
        let mut index = node.index;

        let mut level: u8 = 0;
        while level < depth
            invariant
                self.wf(),
                m == self.model(),
                0 <= level <= depth,
                siblings@.len() == level as int,
                index as int == idx_at(node.index, level as int),
                forall|l: int|
                    0 <= l < level as int ==> view_siblings(siblings@)[l] == sibs_of(
                        m,
                        node.index,
                        depth as int,
                    )[l],
            decreases depth as int - level as int,
        {
            proof {
                lemma_idx_at_bounds(node.index, level as int);
            }
            let sibling_index = if index % 2 == 0 {
                index + 1
            } else {
                index - 1
            };
            let sibling_hash = self.storage.get_hash(level, sibling_index);
            let ghost prev = siblings@;
            siblings.push(sibling_hash);
            proof {
                let l = level as int;
                assert(sibling_index as int == sib_of(idx_at(node.index, l)));
                assert(sibs_of(m, node.index, depth as int)[l] == hash_at(
                    m,
                    level,
                    sibling_index,
                ));
                assert(view_siblings(siblings@)[l] == (match sibling_hash {
                    Some(h) => Some(h@),
                    None => None,
                }));
                assert(view_siblings(siblings@)[l] == sibs_of(m, node.index, depth as int)[l]);
                assert forall|j: int| 0 <= j < l + 1 implies view_siblings(siblings@)[j]
                    == sibs_of(m, node.index, depth as int)[j] by {
                    if j < l {
                        assert(siblings@[j] == prev[j]);
                        assert(view_siblings(siblings@)[j] == view_siblings(prev)[j]);
                        assert(view_siblings(prev)[j] == sibs_of(m, node.index, depth as int)[j]);
                    }
                }
                assert(idx_at(node.index, l + 1) == idx_at(node.index, l) / 2);
            }
            index = index / 2;
            level = level + 1;
        }
        proof {
            assert(view_siblings(siblings@) =~= sibs_of(m, node.index, depth as int));
        }
        siblings
    }

    /// Generates an [`InclusionProof`] for a present key.
    pub fn inclusion_proof(&self, node_key: Hash256) -> (r: Result<InclusionProof, ImtError>)
        requires
            self.ready(),
        ensures
            !self.model().nodes.contains_key(node_key@) ==> r == Err::<InclusionProof, ImtError>(
                ImtError::NodeDoesNotExist(node_key),
            ),
            self.model().nodes.contains_key(node_key@) ==> (r matches Ok(p) && {
                &&& p.root@ == root_of(self.model())
                &&& p.size == size_of(self.model())
                &&& p.node == self.model().nodes[node_key@]
                &&& view_siblings(p.siblings@) == sibs_of(
                    self.model(),
                    p.node.index,
                    depth_spec(size_of(self.model()) as int),
                )
                &&& crate::proofs::node_exists_spec(
                    p.root@,
                    p.size,
                    p.node,
                    view_siblings(p.siblings@),
                )
            }),
    {
        let node = match self.storage.get_node(&node_key) {
            Some(n) => n,
            None => {
                return Err(ImtError::NodeDoesNotExist(node_key));
            },
        };
        let d = self.depth();
        let siblings = self.siblings(d, &node);
        proof {
            crate::coherence::lemma_node_committed(self.model(), node_key@);
        }
        Ok(InclusionProof { root: self.root(), size: self.size(), node: node, siblings: siblings })
    }

    /// Generates an [`ExclusionProof`] for an absent key.
    pub fn exclusion_proof(&self, node_key: Hash256) -> (r: Result<ExclusionProof, ImtError>)
        requires
            self.ready(),
        ensures
            !has_lower_key(self.model(), node_key@) ==> r == Err::<ExclusionProof, ImtError>(
                ImtError::LowNullifierNotFound(node_key),
            ),
            has_lower_key(self.model(), node_key@) ==> (r matches Ok(p) && {
                &&& p.root@ == root_of(self.model())
                &&& p.size == size_of(self.model())
                &&& p.node_key == node_key
                &&& is_ln_key(self.model(), node_key@, p.ln_node.key@)
                &&& p.ln_node == self.model().nodes[p.ln_node.key@]
                &&& view_siblings(p.ln_siblings@) == sibs_of(
                    self.model(),
                    p.ln_node.index,
                    depth_spec(size_of(self.model()) as int),
                )
                &&& crate::proofs::node_exists_spec(
                    p.root@,
                    p.size,
                    p.ln_node,
                    view_siblings(p.ln_siblings@),
                )
            }),
            !self.model().nodes.contains_key(node_key@) && has_lower_key(self.model(), node_key@)
                ==> (r matches Ok(p) && crate::node::is_ln_of_spec(p.ln_node, node_key@)),
    {
        let ln_node = match self.low_nullifier(&node_key) {
            Some(n) => n,
            None => {
                return Err(ImtError::LowNullifierNotFound(node_key));
            },
        };
        proof {
            let nk = choose|nk: Seq<u8>|
                #[trigger] is_ln_key(self.model(), node_key@, nk) && ln_node
                    == self.model().nodes[nk];
            assert(self.model().nodes.contains_key(nk));
            assert(ln_node.key@ == nk);
            crate::coherence::lemma_node_committed(self.model(), nk);
            if !self.model().nodes.contains_key(node_key@) {
                crate::laws::lemma_pred_is_ln(self.model(), node_key@, nk);
            }
        }
        let d = self.depth();
        let ln_siblings = self.siblings(d, &ln_node);
        Ok(
            ExclusionProof {
                root: self.root(),
                size: self.size(),
                ln_node: ln_node,
                ln_siblings: ln_siblings,
                node_key: node_key,
            },
        )
    }

    /// Generates a [`NodeProof`]: an inclusion proof if `node_key` is
    /// present, an exclusion proof otherwise.
    pub fn node_proof(&self, node_key: Hash256) -> (r: Result<NodeProof, ImtError>)
        requires
            self.ready(),
        ensures
            self.model().nodes.contains_key(node_key@) ==> (r matches Ok(p) && p matches
                NodeProof::Inclusion(_)),
            !self.model().nodes.contains_key(node_key@) && has_lower_key(self.model(), node_key@)
                ==> (r matches Ok(p) && p matches NodeProof::Exclusion(_)),
            !self.model().nodes.contains_key(node_key@) && !has_lower_key(self.model(), node_key@)
                ==> r == Err::<NodeProof, ImtError>(ImtError::LowNullifierNotFound(node_key)),
    {
        if self.storage.get_node(&node_key).is_some() {
            match self.inclusion_proof(node_key) {
                Ok(p) => Ok(NodeProof::Inclusion(p)),
                Err(e) => Err(e),
            }
        } else {
            match self.exclusion_proof(node_key) {
                Ok(p) => Ok(NodeProof::Exclusion(p)),
                Err(e) => Err(e),
            }
        }
    }
}

impl<S: ImtStorageWriter> Imt<S> {
    /// Creates a tree that provides read and write access. If the storage
    /// was never initialized, the sentinel is inserted and the size set to
    /// one.
    pub fn writer(storage: S) -> (r: Self)
        requires
            storage.inv(),
            storage.model().size is Some ==> crate::coherence::state_ok(storage.model()),
            storage.model().size is None ==> storage.model().nodes == Map::<
                Seq<u8>,
                IMTNode,
            >::empty() && storage.model().hashes == Map::<(u8, u64), Seq<u8>>::empty(),
        ensures
            r.ready(),
            r.model() == init_model(storage.model()),
    {
        let ghost m0 = storage.model();
        let size = storage.get_size();
        let mut imt = Imt { storage };
        if size.is_none() {
            let zk = [0u8; 32];
            let init_node = IMTNode { index: 0, key: zk, value: zk, next_key: zk };
            proof {
                assert(init_node == sentinel_node());
            }
            imt.storage.set_size(1);
            let _siblings = imt.write_node(0, init_node);
            proof {
                assert(imt.model() == init_model(m0));
                crate::coherence::lemma_state_ok_init(m0);
            }
        }
        imt
    }

    /// Refreshes the persisted root from the cached hash at `(depth, 0)`
    /// and the persisted size.
    fn refresh_root(&mut self, depth: u8)
        requires
            old(self).wf(),
        ensures
            final(self).wf(),
            final(self).model() == (StoreModel {
                root: Some(root_with_size(old(self).model(), depth as int)),
                ..old(self).model()
            }),
    {
        let size = self.size();

        let root = match self.storage.get_hash(depth, 0) {
            Some(h) => h,
            None => {
                let z = [0u8; 32];
                proof {
                    assert(z@ =~= zero32());
                }
                z
            },
        };

        let mut data: Vec<u8> = Vec::new();
        push_bytes32(&mut data, &root);
        push_u64_be(&mut data, size);
        proof {
            assert(data@ =~= root@ + u64_be(size));
        }
        let new_root = keccak256_hash(&data);

        self.storage.set_root(new_root);
    }

    /// Sets the given node in the tree, refreshing the cached hashes along
    /// its path and the root, and returns the node's sibling vector as it
    /// stood before the write.
    fn write_node(&mut self, depth: u8, node: IMTNode) -> (r: Vec<Option<Hash256>>)
        requires
            old(self).wf(),
        ensures
            final(self).wf(),
            final(self).model() == write_node_model(old(self).model(), node, depth as int),
            r@.len() == depth as int,
            view_siblings(r@) == sibs_of(old(self).model(), node.index, depth as int),
    {
        let ghost m = self.storage.model();
        let mut index = node.index;
        let mut hash = node.hash();

        self.storage.set_node(node);

        // Cache the node hash.
        self.storage.set_hash(0, index, hash);
        proof {
            assert(self.model().hashes == m.hashes.insert((0u8, node.index), hash@));
            assert(hash@ == hash_at_level(node, sibs_of(m, node.index, depth as int), 0));
            assert(idx_at(node.index, 0) == node.index as int);
            assert(path_updated_hashes(m, node, depth as int, -1) == m.hashes);
            assert(path_updated_hashes(m, node, depth as int, 0) == m.hashes.insert(
                (0u8, node.index),
                hash_at_level(node, sibs_of(m, node.index, depth as int), 0),
            ));
            assert(self.model().hashes == path_updated_hashes(m, node, depth as int, 0));
        }

        // Climb up the tree and refresh the hashes.
        let mut siblings: Vec<Option<Hash256>> = Vec::new();
        let mut level: u8 = 0;
        while level < depth
            invariant
                self.wf(),
                0 <= level <= depth,
                siblings@.len() == level as int,
                index as int == idx_at(node.index, level as int),
                hash@ == hash_at_level(node, sibs_of(m, node.index, depth as int), level as int),
                self.model().nodes == m.nodes.insert(node.key@, node),
                self.model().hashes == path_updated_hashes(m, node, depth as int, level as int),
                self.model().size == m.size,
                self.model().root == m.root,
                forall|l: int|
                    0 <= l < level as int ==> view_siblings(siblings@)[l] == sibs_of(
                        m,
                        node.index,
                        depth as int,
                    )[l],
            decreases depth as int - level as int,
        {
            proof {
                lemma_idx_at_bounds(node.index, level as int);
            }
            let sibling_index = if index % 2 == 0 {
                index + 1
            } else {
                index - 1
            };
            let sibling_hash = self.storage.get_hash(level, sibling_index);
            proof {
                lemma_path_updated_hashes_off_path(
                    m,
                    node,
                    depth as int,
                    level as int,
                    level as int,
                    sibling_index as int,
                );
                assert(hash_at(self.model(), level, sibling_index) == hash_at(
                    m,
                    level,
                    sibling_index,
                ));
            }
            let ghost prev = siblings@;
            siblings.push(sibling_hash);

            let mut data: Vec<u8> = Vec::new();
            match &sibling_hash {
                None => {
                    push_bytes32(&mut data, &hash);
                    proof {
                        assert(data@ =~= hash@);
                    }
                },
                Some(sh) => {
                    if index % 2 == 0 {
                        push_bytes32(&mut data, &hash);
                        push_bytes32(&mut data, sh);
                        proof {
                            assert(data@ =~= hash@ + sh@);
                        }
                    } else {
                        push_bytes32(&mut data, sh);
                        push_bytes32(&mut data, &hash);
                        proof {
                            assert(data@ =~= sh@ + hash@);
                        }
                    }
                },
            }
            let new_hash = keccak256_hash(&data);
            proof {
                let l = level as int;
                let sibs = sibs_of(m, node.index, depth as int);
                assert(sibling_index as int == sib_of(idx_at(node.index, l)));
                assert(sibs[l] == hash_at(m, level, sibling_index));
                assert(sibs[l] == (match sibling_hash {
                    Some(h) => Some(h@),
                    None => None,
                }));
                assert(new_hash@ == crate::proofs::combine(hash@, idx_at(node.index, l), sibs[l]));
                assert(new_hash@ == hash_at_level(node, sibs, l + 1));
                assert(view_siblings(siblings@)[l] == sibs[l]);
                assert forall|j: int| 0 <= j < l implies view_siblings(siblings@)[j] == sibs[j] by {
                    assert(siblings@[j] == prev[j]);
                    assert(view_siblings(siblings@)[j] == view_siblings(prev)[j]);
                }
                assert(idx_at(node.index, l + 1) == idx_at(node.index, l) / 2);
            }
            hash = new_hash;
            index = index / 2;
            level = level + 1;

            self.storage.set_hash(level, index, hash);
            proof {
                assert(self.model().hashes == path_updated_hashes(
                    m,
                    node,
                    depth as int,
                    level as int,
                ));
            }
        }

        // Refresh the tree root.
        self.refresh_root(depth);
        proof {
            assert(view_siblings(siblings@) =~= sibs_of(m, node.index, depth as int));
            assert(self.model() == write_node_model(m, node, depth as int));
        }

        siblings
    }

    /// Inserts a new `(key, value)` pair and returns the corresponding
    /// [`InsertProof`].
    pub fn insert_node(&mut self, key: Hash256, value: Hash256) -> (r: Result<
        InsertProof,
        ImtError,
    >)
        requires
            old(self).ready(),
            size_of(old(self).model()) < u64::MAX,
        ensures
            final(self).ready(),
            old(self).model().nodes.contains_key(key@) ==> r == Err::<InsertProof, ImtError>(
                ImtError::NodeAlreadyExist(key),
            ) && final(self).model() == old(self).model(),
            !old(self).model().nodes.contains_key(key@) && !has_lower_key(
                old(self).model(),
                key@,
            ) ==> r == Err::<InsertProof, ImtError>(ImtError::LowNullifierNotFound(key))
                && final(self).model() == old(self).model(),
            !old(self).model().nodes.contains_key(key@) && has_lower_key(old(self).model(), key@)
                ==> (r matches Ok(p) && {
                &&& insert_post(old(self).model(), key, value, final(self).model(), p)
                &&& p.is_valid_ln_spec()
                &&& p.roots_consistent_spec()
                &&& p.new_root_spec() == root_of(final(self).model())
            }),
    {
        let ghost m = self.storage.model();

        // Ensure key does not already exist in the tree.
        if self.storage.get_node(&key).is_some() {
            return Err(ImtError::NodeAlreadyExist(key));
        }

        let old_size = self.size();
        let old_root = self.root();
        let old_depth = depth(old_size);

        // Get the ln node.
        let mut ln_node = match self.low_nullifier(&key) {
            Some(n) => n,
            None => {
                return Err(ImtError::LowNullifierNotFound(key));
            },
        };
        let ghost ln0 = ln_node;
        proof {
            let nk = choose|nk: Seq<u8>|
                #[trigger] is_ln_key(m, key@, nk) && ln_node == m.nodes[nk];
            assert(m.nodes.contains_key(nk));
            assert(ln_node.key@ == nk);
        }

        let ln_siblings = self.siblings(old_depth, &ln_node);

        // Create the new node.
        let node = IMTNode {
            index: old_size,
            key: key,
            value: value,
            next_key: ln_node.next_key,
        };

        // Update the ln node and refresh the tree.
        ln_node.next_key = key;
        let ghost updated_ln = ln_node;
        let _ln_refresh = self.write_node(old_depth, ln_node);

        // Increment the tree size. This must be done prior to inserting
        // the new node, so that the refreshed root commits to it.
        let new_size = old_size + 1;
        self.storage.set_size(new_size);
        proof {
            assert(self.model() == insert_mid_model(m, updated_ln));
        }

        // Insert the new node and refresh the tree.
        let new_depth = depth(new_size);
        let node_siblings = self.write_node(new_depth, node);
        let updated_ln_siblings = self.siblings(new_depth, &ln_node);

        // Restore the ln node's next key before binding it into the proof,
        // so that the proof speaks of the pre-insertion state.
        ln_node.next_key = node.next_key;
        let result = InsertProof {
            old_root: old_root,
            old_size: old_size,
            ln_node: ln_node,
            ln_siblings: ln_siblings,
            node: node,
            node_siblings: node_siblings,
            updated_ln_siblings: updated_ln_siblings,
        };
        proof {
            assert(ln_node == ln0);
            assert(updated_ln == (IMTNode { next_key: key, ..ln0 }));
            assert(self.model() == insert_model(m, updated_ln, node));
            assert(insert_post(m, key, value, self.model(), result));
            crate::coherence::lemma_state_ok_insert(m, key, value, self.model(), result);
            crate::coherence::lemma_insert_proof_verifies(m, key, value, self.model(), result);
        }

        Ok(result)
    }

    /// Updates the value stored under `key` and returns the corresponding
    /// [`UpdateProof`].
    pub fn update_node(&mut self, key: Hash256, value: Hash256) -> (r: Result<
        UpdateProof,
        ImtError,
    >)
        requires
            old(self).ready(),
        ensures
            final(self).ready(),
            !old(self).model().nodes.contains_key(key@) ==> r == Err::<UpdateProof, ImtError>(
                ImtError::NodeDoesNotExist(key),
            ) && final(self).model() == old(self).model(),
            old(self).model().nodes.contains_key(key@) ==> (r matches Ok(p) && {
                &&& update_post(old(self).model(), key, value, final(self).model(), p)
                &&& p.node_in_tree_spec()
                &&& p.new_root_spec() == root_of(final(self).model())
            }),
    {
        let ghost m = self.storage.model();

        let old_root = self.root();
        let size = self.size();

        let mut node = match self.storage.get_node(&key) {
            Some(n) => n,
            None => {
                return Err(ImtError::NodeDoesNotExist(key));
            },
        };
        let old_node = node;
        node.value = value;

        let d = depth(size);
        let node_siblings = self.write_node(d, node);
        let result = UpdateProof {
            old_root: old_root,
            size: size,
            node: old_node,
            node_siblings: node_siblings,
            new_value: value,
        };
        proof {
            assert(node == (IMTNode { value: value, ..m.nodes[key@] }));
            assert(self.model() == update_model(m, key@, value));
            assert(update_post(m, key, value, self.model(), result));
            crate::coherence::lemma_state_ok_update(m, key, value, self.model(), result);
            crate::coherence::lemma_update_proof_verifies(m, key, value, self.model(), result);
        }

        Ok(result)
    }

    /// Sets a `(key, value)` pair: an update if the key is present, an
    /// insertion otherwise. Returns the corresponding [`MutateProof`].
    pub fn set_node(&mut self, key: Hash256, value: Hash256) -> (r: Result<MutateProof, ImtError>)
        requires
            old(self).ready(),
            old(self).model().nodes.contains_key(key@) || size_of(old(self).model()) < u64::MAX,
        ensures
            final(self).ready(),
            old(self).model().nodes.contains_key(key@) ==> (r matches Ok(MutateProof::Update(p))
                && {
                &&& update_post(old(self).model(), key, value, final(self).model(), p)
                &&& p.node_in_tree_spec()
                &&& p.new_root_spec() == root_of(final(self).model())
            }),
            !old(self).model().nodes.contains_key(key@) && !has_lower_key(
                old(self).model(),
                key@,
            ) ==> r == Err::<MutateProof, ImtError>(ImtError::LowNullifierNotFound(key))
                && final(self).model() == old(self).model(),
            !old(self).model().nodes.contains_key(key@) && has_lower_key(old(self).model(), key@)
                ==> (r matches Ok(MutateProof::Insert(p)) && {
                &&& insert_post(old(self).model(), key, value, final(self).model(), p)
                &&& p.is_valid_ln_spec()
                &&& p.roots_consistent_spec()
                &&& p.new_root_spec() == root_of(final(self).model())
            }),
    {
        if self.storage.get_node(&key).is_some() {
            match self.update_node(key, value) {
                Ok(p) => Ok(MutateProof::Update(p)),
                Err(e) => Err(e),
            }
        } else {
            match self.insert_node(key, value) {
                Ok(p) => Ok(MutateProof::Insert(p)),
                Err(e) => Err(e),
            }
        }
    }
}

} // verus!
