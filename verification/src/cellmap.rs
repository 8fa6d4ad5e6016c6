//! The grid's cell store: a hash map from wrapped cell coordinates to the
//! bucket of entries whose position fell in that cell.
//!
//! The map itself is `hashbrown::HashMap`; Verus sees it only through the
//! trusted wrappers below, whose contracts speak of the abstract contents.
//! An entry is `(element, x, y)`: the stored value and the fixed-point
//! position it was filed under.

use vstd::prelude::*;

verus! {

/// A cell bucket store backed by `hashbrown::HashMap`, keyed by wrapped
/// cell coordinates. Opaque to Verus; described by `cell_map_contents`.
#[verifier::external_body]
pub struct CellMap {
    map: hashbrown::HashMap<(i16, i16), std::vec::Vec<(usize, i64, i64)>>,
}

/// The abstract contents of a `CellMap`: which buckets exist, and the
/// sequence of entries in each, in insertion order.
pub uninterp spec fn cell_map_contents(m: CellMap) -> Map<(i16, i16), Seq<(usize, i64, i64)>>;

impl CellMap {
    /// Relies on `hashbrown::HashMap::new`: a freshly created map is empty.
    #[verifier::external_body]
    pub fn new() -> (r: CellMap)
        ensures
            forall|k: (i16, i16)| !cell_map_contents(r).dom().contains(k),
    {
        CellMap { map: hashbrown::HashMap::new() }
    }

    /// Relies on `hashbrown::HashMap::contains_key`: true exactly when the
    /// key is present.
    #[verifier::external_body]
    pub fn contains_key(&self, k: (i16, i16)) -> (r: bool)
        ensures
            r == cell_map_contents(*self).dom().contains(k),
    {
        self.map.contains_key(&k)
    }

    /// Relies on `hashbrown::HashMap::get`: returns the value stored under
    /// the key, if any. The bucket is handed back as a copy.
    #[verifier::external_body]
    pub fn get(&self, k: (i16, i16)) -> (r: Option<Vec<(usize, i64, i64)>>)
        ensures
            cell_map_contents(*self).dom().contains(k) ==> r is Some
                && r.unwrap()@ == cell_map_contents(*self)[k],
            !cell_map_contents(*self).dom().contains(k) ==> r is None,
    {
        self.map.get(&k).cloned()
    }

    /// Relies on `hashbrown::HashMap::insert`: after the call the key maps
    /// to the given value, and no other key changed.
    #[verifier::external_body]
    pub fn insert(&mut self, k: (i16, i16), v: Vec<(usize, i64, i64)>)
        ensures
            cell_map_contents(*final(self)) == cell_map_contents(*old(self)).insert(k, v@),
    {
        self.map.insert(k, v);
    }
}

} // verus!
