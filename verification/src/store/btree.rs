//! An in-memory ordered byte-keyed store, and its transactional overlay.

use vstd::prelude::*;

verus! {

use crate::bytes::{
    bytes_eq,
    bytes_lt,
    lemma_lex_lt_asymmetric,
    lemma_lex_lt_total,
    lemma_lex_lt_transitive,
    lex_lt,
};
use crate::store::{StorageReader, StorageWriter, is_pred_key, kv_has_lower_key};

/// Copies a byte vector.
fn clone_bytes(v: &Vec<u8>) -> (r: Vec<u8>)
    ensures
        r@ == v@,
{
    let mut r: Vec<u8> = Vec::new();
    crate::bytes::push_bytes(&mut r, v.as_slice());
    proof {
        assert(r@ =~= v@);
    }
    r
}

/// An in-memory ordered store: entries kept strictly sorted by key in
/// lexicographic byte order.
#[derive(Debug)]
pub struct BTreeStorage {
    data: Vec<(Vec<u8>, Vec<u8>)>,
}

/// The map held by a sequence of entries, later entries winning.
spec fn kv_map(s: Seq<(Vec<u8>, Vec<u8>)>) -> Map<Seq<u8>, Seq<u8>>
    decreases s.len(),
{
    if s.len() == 0 {
        Map::empty()
    } else {
        kv_map(s.drop_last()).insert(s.last().0@, s.last().1@)
    }
}

/// Entries are strictly sorted by key.
spec fn kv_sorted(s: Seq<(Vec<u8>, Vec<u8>)>) -> bool {
    forall|i: int, j: int| #![trigger s[i], s[j]] 0 <= i < j < s.len() ==> lex_lt(s[i].0@, s[j].0@)
}

proof fn lemma_kv_map_contains(s: Seq<(Vec<u8>, Vec<u8>)>, k: Seq<u8>)
    ensures
        kv_map(s).contains_key(k) <==> (exists|i: int| 0 <= i < s.len() && s[i].0@ == k),
    decreases s.len(),
{
    if s.len() > 0 {
        lemma_kv_map_contains(s.drop_last(), k);
        if kv_map(s).contains_key(k) {
            if s.last().0@ == k {
                assert(s[s.len() - 1].0@ == k);
            } else {
                let i = choose|i: int| 0 <= i < s.drop_last().len() && s.drop_last()[i].0@ == k;
                assert(s[i].0@ == k);
            }
        }
        if exists|i: int| 0 <= i < s.len() && s[i].0@ == k {
            let i = choose|i: int| 0 <= i < s.len() && s[i].0@ == k;
            if i < s.len() - 1 {
                assert(s.drop_last()[i].0@ == k);
            }
        }
    }
}

proof fn lemma_kv_map_index(s: Seq<(Vec<u8>, Vec<u8>)>, i: int)
    requires
        0 <= i < s.len(),
        forall|j: int| i < j < s.len() ==> s[j].0@ != s[i].0@,
    ensures
        kv_map(s).contains_key(s[i].0@),
        kv_map(s)[s[i].0@] == s[i].1@,
    decreases s.len(),
{
    if i < s.len() - 1 {
        lemma_kv_map_index(s.drop_last(), i);
    }
}

proof fn lemma_kv_map_insert(s: Seq<(Vec<u8>, Vec<u8>)>, i: int, e: (Vec<u8>, Vec<u8>))
    requires
        0 <= i <= s.len(),
        forall|j: int| 0 <= j < s.len() ==> s[j].0@ != e.0@,
    ensures
        kv_map(s.insert(i, e)) == kv_map(s).insert(e.0@, e.1@),
    decreases s.len() - i,
{
    let t = s.insert(i, e);
    if i == s.len() {
        assert(t.drop_last() =~= s);
        assert(t.last() == e);
    } else {
        assert(t.last() == s.last());
        assert(t.drop_last() =~= s.drop_last().insert(i, e));
        lemma_kv_map_insert(s.drop_last(), i, e);
        assert(s.last().0@ != e.0@);
        assert(kv_map(t) == kv_map(s.drop_last()).insert(e.0@, e.1@).insert(
            s.last().0@,
            s.last().1@,
        ));
        assert(kv_map(s.drop_last()).insert(e.0@, e.1@).insert(s.last().0@, s.last().1@)
            =~= kv_map(s.drop_last()).insert(s.last().0@, s.last().1@).insert(e.0@, e.1@));
    }
}

proof fn lemma_kv_map_update(s: Seq<(Vec<u8>, Vec<u8>)>, i: int, e: (Vec<u8>, Vec<u8>))
    requires
        0 <= i < s.len(),
        s[i].0@ == e.0@,
        forall|j: int| 0 <= j < s.len() && j != i ==> s[j].0@ != e.0@,
    ensures
        kv_map(s.update(i, e)) == kv_map(s).insert(e.0@, e.1@),
    decreases s.len(),
{
    let t = s.update(i, e);
    if i == s.len() - 1 {
        assert(t.drop_last() =~= s.drop_last());
        assert(t.last() == e);
        assert(kv_map(s.drop_last()).insert(s.last().0@, s.last().1@).insert(e.0@, e.1@)
            =~= kv_map(s.drop_last()).insert(e.0@, e.1@));
    } else {
        assert(t.last() == s.last());
        assert(t.drop_last() =~= s.drop_last().update(i, e));
        lemma_kv_map_update(s.drop_last(), i, e);
        assert(s.last().0@ != e.0@);
        assert(kv_map(s.drop_last()).insert(e.0@, e.1@).insert(s.last().0@, s.last().1@)
            =~= kv_map(s.drop_last()).insert(s.last().0@, s.last().1@).insert(e.0@, e.1@));
    }
}

impl BTreeStorage {
    /// Creates a new empty [`BTreeStorage`].
    pub fn new() -> (r: Self)
        ensures
            r.inv(),
            r.kv() == Map::<Seq<u8>, Seq<u8>>::empty(),
    {
        BTreeStorage { data: Vec::new() }
    }

    /// The number of entries whose key sorts strictly below `key`; by
    /// sortedness those entries form a prefix.
    fn lower_count(&self, key: &Vec<u8>) -> (i: usize)
        requires
            self.inv(),
        ensures
            i <= self.data@.len(),
            forall|j: int| 0 <= j < i ==> lex_lt(self.data@[j].0@, key@),
            forall|j: int| i <= j < self.data@.len() ==> !lex_lt(self.data@[j].0@, key@),
    {
        let ghost s = self.data@;
        let mut c: usize = 0;
        let mut j: usize = 0;
        while j < self.data.len()
            invariant
                self.inv(),
                s == self.data@,
                0 <= c <= j <= s.len(),
                forall|k: int| 0 <= k < c ==> lex_lt(s[k].0@, key@),
                forall|k: int| c <= k < j ==> !lex_lt(s[k].0@, key@),
            decreases s.len() - j,
        {
            if bytes_lt(self.data[j].0.as_slice(), key.as_slice()) {
                proof {
                    if c < j {
                        assert(lex_lt(s[c as int].0@, s[j as int].0@));
                        lemma_lex_lt_transitive(s[c as int].0@, s[j as int].0@, key@);
                        assert(false);
                    }
                }
                c = c + 1;
            }
            j = j + 1;
        }
        c
    }

    /// Applies every entry of `other` over this store.
    fn merge_from(&mut self, other: &BTreeStorage)
        requires
            old(self).inv(),
            other.inv(),
        ensures
            final(self).inv(),
            final(self).kv() == old(self).kv().union_prefer_right(other.kv()),
    {
        let ghost s = other.data@;
        let mut i: usize = 0;
        proof {
            assert(self.kv().union_prefer_right(kv_map(s.take(0))) =~= self.kv());
        }
        while i < other.data.len()
            invariant
                self.inv(),
                other.inv(),
                s == other.data@,
                0 <= i <= s.len(),
                self.kv() == old(self).kv().union_prefer_right(kv_map(s.take(i as int))),
            decreases s.len() - i,
        {
            let k = clone_bytes(&other.data[i].0);
            let v = clone_bytes(&other.data[i].1);
            self.set(k, v);
            proof {
                let t = s.take(i as int + 1);
                assert(t.drop_last() =~= s.take(i as int));
                assert(t.last() == s[i as int]);
                assert(kv_map(t) == kv_map(s.take(i as int)).insert(s[i as int].0@, s[i as int].1@));
                assert(old(self).kv().union_prefer_right(kv_map(s.take(i as int))).insert(
                    s[i as int].0@,
                    s[i as int].1@,
                ) =~= old(self).kv().union_prefer_right(kv_map(t)));
            }
            i = i + 1;
        }
        proof {
            assert(s.take(s.len() as int) =~= s);
        }
    }
}

impl StorageReader for BTreeStorage {
    closed spec fn inv(&self) -> bool {
        kv_sorted(self.data@)
    }

    closed spec fn kv(&self) -> Map<Seq<u8>, Seq<u8>> {
        kv_map(self.data@)
    }

    fn get(&self, key: &Vec<u8>) -> (r: Option<Vec<u8>>) {
        let ghost s = self.data@;
        let mut i: usize = 0;
        while i < self.data.len()
            invariant
                self.inv(),
                s == self.data@,
                0 <= i <= s.len(),
                forall|j: int| 0 <= j < i ==> s[j].0@ != key@,
            decreases s.len() - i,
        {
            if bytes_eq(self.data[i].0.as_slice(), key.as_slice()) {
                proof {
                    assert forall|j: int| i < j < s.len() implies s[j].0@ != s[i as int].0@ by {
                        assert(lex_lt(s[i as int].0@, s[j].0@));
                        lemma_lex_lt_asymmetric(s[i as int].0@, s[i as int].0@);
                    }
                    lemma_kv_map_index(s, i as int);
                }
                return Some(clone_bytes(&self.data[i].1));
            }
            i = i + 1;
        }
        proof {
            lemma_kv_map_contains(s, key@);
        }
        None
    }

    fn get_lt(&self, key: &Vec<u8>) -> (r: Option<(Vec<u8>, Vec<u8>)>) {
        let ghost s = self.data@;
        let i = self.lower_count(key);
        if i == 0 {
            proof {
                assert forall|k: Seq<u8>| #[trigger] kv_map(s).contains_key(k) implies !lex_lt(
                    k,
                    key@,
                ) by {
                    lemma_kv_map_contains(s, k);
                    let j = choose|j: int| 0 <= j < s.len() && s[j].0@ == k;
                    assert(!lex_lt(s[j].0@, key@));
                }
            }
            None
        } else {
            let ghost b = i - 1;
            proof {
                assert forall|j: int| b < j < s.len() implies s[j].0@ != s[b as int].0@ by {
                    assert(lex_lt(s[b as int].0@, s[j].0@));
                    lemma_lex_lt_asymmetric(s[b as int].0@, s[b as int].0@);
                }
                lemma_kv_map_index(s, b as int);
                let nk = s[b as int].0@;
                assert forall|k2: Seq<u8>|
                    #[trigger] kv_map(s).contains_key(k2) && lex_lt(k2, key@) implies !lex_lt(
                    nk,
                    k2,
                ) by {
                    lemma_kv_map_contains(s, k2);
                    let j = choose|j: int| 0 <= j < s.len() && s[j].0@ == k2;
                    if j < b {
                        assert(lex_lt(s[j].0@, nk));
                        lemma_lex_lt_asymmetric(s[j].0@, nk);
                    } else if j == b {
                        lemma_lex_lt_asymmetric(nk, nk);
                    } else {
                        assert(!lex_lt(s[j].0@, key@));
                    }
                }
                assert(is_pred_key(self.kv(), key@, nk));
            }
            Some((clone_bytes(&self.data[i - 1].0), clone_bytes(&self.data[i - 1].1)))
        }
    }
}

impl StorageWriter for BTreeStorage {
    fn set(&mut self, key: Vec<u8>, value: Vec<u8>) {
        let ghost s = self.data@;
        let i = self.lower_count(&key);
        let e = (key, value);
        if i < self.data.len() && bytes_eq(self.data[i].0.as_slice(), e.0.as_slice()) {
            proof {
                assert forall|j: int| 0 <= j < s.len() && j != i implies s[j].0@ != e.0@ by {
                    if j < i {
                        lemma_lex_lt_asymmetric(s[j].0@, s[j].0@);
                    } else {
                        assert(lex_lt(s[i as int].0@, s[j].0@));
                        lemma_lex_lt_asymmetric(s[j].0@, s[j].0@);
                    }
                }
                lemma_kv_map_update(s, i as int, e);
            }
            self.data[i] = e;
            proof {
                assert forall|a: int, b: int|
                    0 <= a < b < self.data@.len() implies lex_lt(
                    self.data@[a].0@,
                    self.data@[b].0@,
                ) by {
                    assert(lex_lt(s[a].0@, s[b].0@));
                }
            }
        } else {
            proof {
                assert forall|j: int| 0 <= j < s.len() implies s[j].0@ != e.0@ by {
                    if j < i {
                        lemma_lex_lt_asymmetric(s[j].0@, s[j].0@);
                    } else {
                        assert(!lex_lt(s[j].0@, e.0@));
                        if j == i {
                            assert(s[j].0@ != e.0@);
                        } else {
                            assert(lex_lt(s[i as int].0@, s[j].0@));
                            if s[j].0@ == e.0@ {
                                assert(lex_lt(s[i as int].0@, e.0@));
                                assert(false);
                            }
                        }
                    }
                }
                lemma_kv_map_insert(s, i as int, e);
            }
            self.data.insert(i, e);
            proof {
                assert(self.data@ == s.insert(i as int, e));
                assert forall|a: int, b: int|
                    0 <= a < b < self.data@.len() implies lex_lt(
                    self.data@[a].0@,
                    self.data@[b].0@,
                ) by {
                    let t = self.data@;
                    if b < i {
                        assert(t[a] == s[a] && t[b] == s[b]);
                    } else if a > i {
                        assert(t[a] == s[a - 1] && t[b] == s[b - 1]);
                    } else if a < i && b == i {
                        assert(t[a] == s[a] && t[b] == e);
                    } else if a < i && b > i {
                        assert(t[a] == s[a] && t[b] == s[b - 1]);
                    } else if a == i {
                        assert(t[a] == e && t[b] == s[b - 1]);
                        assert(!lex_lt(s[b - 1].0@, e.0@));
                        assert(s[b - 1].0@ != e.0@);
                        lemma_lex_lt_total(e.0@, s[b - 1].0@);
                    }
                }
            }
        }
    }
}

/// A transactional overlay over a [`BTreeStorage`].
///
/// The transaction owns the underlying store for its lifetime: reads fall
/// through to it for keys the transaction has not written, writes go to a
/// private buffer, and `commit` or `discard` consumes the transaction and
/// hands the store back, with or without the buffered writes applied.
#[derive(Debug)]
pub struct BTreeTransaction {
    storage: BTreeStorage,
    buffer: BTreeStorage,
}

impl BTreeTransaction {
    /// The underlying store's entries.
    pub closed spec fn base_kv(&self) -> Map<Seq<u8>, Seq<u8>> {
        self.storage.kv()
    }

    /// The buffered writes.
    pub closed spec fn buffered_kv(&self) -> Map<Seq<u8>, Seq<u8>> {
        self.buffer.kv()
    }

    /// Creates a new [`BTreeTransaction`] over the given store.
    pub fn new(storage: BTreeStorage) -> (r: Self)
        requires
            storage.inv(),
        ensures
            r.inv(),
            r.base_kv() == storage.kv(),
            r.buffered_kv() == Map::<Seq<u8>, Seq<u8>>::empty(),
            r.kv() == storage.kv(),
    {
        let r = BTreeTransaction { storage: storage, buffer: BTreeStorage::new() };
        proof {
            assert(r.kv() =~= r.base_kv());
        }
        r
    }

    /// Consumes the transaction and applies its buffered writes to the
    /// store, which is handed back.
    pub fn commit(self) -> (r: BTreeStorage)
        requires
            self.inv(),
        ensures
            r.inv(),
            r.kv() == self.kv(),
    {
        let BTreeTransaction { mut storage, buffer } = self;
        storage.merge_from(&buffer);
        storage
    }

    /// Consumes the transaction and hands the store back untouched.
    pub fn discard(self) -> (r: BTreeStorage)
        requires
            self.inv(),
        ensures
            r.inv(),
            r.kv() == self.base_kv(),
    {
        let BTreeTransaction { storage, buffer: _ } = self;
        storage
    }
}

impl StorageReader for BTreeTransaction {
    closed spec fn inv(&self) -> bool {
        &&& self.storage.inv()
        &&& self.buffer.inv()
    }

    closed spec fn kv(&self) -> Map<Seq<u8>, Seq<u8>> {
        self.storage.kv().union_prefer_right(self.buffer.kv())
    }

    fn get(&self, key: &Vec<u8>) -> (r: Option<Vec<u8>>) {
        match self.buffer.get(key) {
            Some(v) => Some(v),
            None => self.storage.get(key),
        }
    }

    fn get_lt(&self, key: &Vec<u8>) -> (r: Option<(Vec<u8>, Vec<u8>)>) {
        let ghost kv = self.kv();
        let ghost kv_s = self.storage.kv();
        let ghost kv_b = self.buffer.kv();
        let closest_buffer_entry = self.buffer.get_lt(key);
        let closest_storage_entry = self.storage.get_lt(key);

        match (closest_buffer_entry, closest_storage_entry) {
            (None, None) => {
                proof {
                    assert forall|k: Seq<u8>| #[trigger] kv.contains_key(k) implies !lex_lt(
                        k,
                        key@,
                    ) by {
                        assert(kv_s.contains_key(k) || kv_b.contains_key(k));
                    }
                }
                None
            },
            (None, Some(se)) => {
                proof {
                    if kv_b.contains_key(se.0@) {
                        assert(false);
                    }
                    assert(se.1@ == kv[se.0@]);
                    assert forall|k: Seq<u8>|
                        #[trigger] kv.contains_key(k) && lex_lt(k, key@) implies !lex_lt(
                        se.0@,
                        k,
                    ) by {
                        assert(kv_s.contains_key(k) || kv_b.contains_key(k));
                    }
                    assert(is_pred_key(kv, key@, se.0@));
                }
                Some(se)
            },
            (Some(be), None) => {
                proof {
                    assert(be.1@ == kv[be.0@]);
                    assert forall|k: Seq<u8>|
                        #[trigger] kv.contains_key(k) && lex_lt(k, key@) implies !lex_lt(
                        be.0@,
                        k,
                    ) by {
                        assert(kv_s.contains_key(k) || kv_b.contains_key(k));
                    }
                    assert(is_pred_key(kv, key@, be.0@));
                }
                Some(be)
            },
            (Some(be), Some(se)) => {
                // On equal keys the buffered write wins, as in `get`.
                if bytes_lt(be.0.as_slice(), se.0.as_slice()) {
                    proof {
                        if kv_b.contains_key(se.0@) {
                            // The buffer's own predecessor would then be at
                            // least as large as the store's.
                            assert(!lex_lt(be.0@, se.0@));
                            assert(false);
                        }
                        assert(se.1@ == kv[se.0@]);
                        assert forall|k: Seq<u8>|
                            #[trigger] kv.contains_key(k) && lex_lt(k, key@) implies !lex_lt(
                            se.0@,
                            k,
                        ) by {
                            if lex_lt(se.0@, k) {
                                if kv_s.contains_key(k) {
                                    assert(false);
                                } else {
                                    assert(kv_b.contains_key(k));
                                    assert(!lex_lt(be.0@, k));
                                    lemma_lex_lt_total(be.0@, k);
                                    if lex_lt(k, be.0@) {
                                        lemma_lex_lt_transitive(se.0@, k, be.0@);
                                    }
                                    lemma_lex_lt_asymmetric(be.0@, se.0@);
                                }
                            }
                        }
                        assert(is_pred_key(kv, key@, se.0@));
                    }
                    Some(se)
                } else {
                    proof {
                        assert(be.1@ == kv[be.0@]);
                        lemma_lex_lt_total(be.0@, se.0@);
                        assert forall|k: Seq<u8>|
                            #[trigger] kv.contains_key(k) && lex_lt(k, key@) implies !lex_lt(
                            be.0@,
                            k,
                        ) by {
                            if lex_lt(be.0@, k) {
                                if kv_b.contains_key(k) {
                                    assert(false);
                                } else {
                                    assert(kv_s.contains_key(k));
                                    assert(!lex_lt(se.0@, k));
                                    lemma_lex_lt_total(se.0@, k);
                                    if lex_lt(k, se.0@) {
                                        lemma_lex_lt_transitive(be.0@, k, se.0@);
                                    }
                                    lemma_lex_lt_asymmetric(be.0@, se.0@);
                                }
                            }
                        }
                        assert(is_pred_key(kv, key@, be.0@));
                    }
                    Some(be)
                }
            },
        }
    }
}

impl StorageWriter for BTreeTransaction {
    fn set(&mut self, key: Vec<u8>, value: Vec<u8>) {
        self.buffer.set(key, value);
        proof {
            assert(old(self).storage.kv().union_prefer_right(
                old(self).buffer.kv().insert(key@, value@),
            ) =~= old(self).kv().insert(key@, value@));
        }
    }
}

} // verus!
