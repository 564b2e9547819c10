//! An ordered byte-keyed store and the key encoding that lays tree
//! entities out in it.

use vstd::prelude::*;

pub mod btree;
pub mod imt;
pub mod keys;

verus! {

use crate::bytes::lex_lt;

/// Some stored key sorts strictly below `key`.
pub open spec fn kv_has_lower_key(kv: Map<Seq<u8>, Seq<u8>>, key: Seq<u8>) -> bool {
    exists|k: Seq<u8>| #[trigger] kv.contains_key(k) && lex_lt(k, key)
}

/// `nk` is the largest stored key strictly below `key`.
pub open spec fn is_pred_key(kv: Map<Seq<u8>, Seq<u8>>, key: Seq<u8>, nk: Seq<u8>) -> bool {
    &&& kv.contains_key(nk)
    &&& lex_lt(nk, key)
    &&& forall|k2: Seq<u8>| #[trigger] kv.contains_key(k2) && lex_lt(k2, key) ==> !lex_lt(nk, k2)
}

/// What a predecessor lookup must return: the entry under the largest key
/// strictly below `key`, or nothing if no key sorts below it.
pub open spec fn pred_lookup_ok(
    kv: Map<Seq<u8>, Seq<u8>>,
    key: Seq<u8>,
    r: Option<(Vec<u8>, Vec<u8>)>,
) -> bool {
    match r {
        None => !kv_has_lower_key(kv, key),
        Some(e) => is_pred_key(kv, key, e.0@) && e.1@ == kv[e.0@],
    }
}

/// Read access to an ordered byte-keyed store.
pub trait StorageReader: Sized {
    /// The internal representation is well formed.
    spec fn inv(&self) -> bool;

    /// The stored entries.
    spec fn kv(&self) -> Map<Seq<u8>, Seq<u8>>;

    /// Fetches the value stored under `key`.
    fn get(&self, key: &Vec<u8>) -> (r: Option<Vec<u8>>)
        requires
            self.inv(),
        ensures
            (match r {
                Some(v) => self.kv().contains_key(key@) && v@ == self.kv()[key@],
                None => !self.kv().contains_key(key@),
            }),
    ;

    /// Fetches the entry under the largest key strictly below `key` in
    /// lexicographic byte order.
    fn get_lt(&self, key: &Vec<u8>) -> (r: Option<(Vec<u8>, Vec<u8>)>)
        requires
            self.inv(),
        ensures
            pred_lookup_ok(self.kv(), key@, r),
    ;
}

/// Write access to an ordered byte-keyed store.
pub trait StorageWriter: StorageReader {
    /// Sets the `(key, value)` pair in the store.
    fn set(&mut self, key: Vec<u8>, value: Vec<u8>)
        requires
            old(self).inv(),
        ensures
            final(self).inv(),
            final(self).kv() == old(self).kv().insert(key@, value@),
    ;
}

} // verus!
