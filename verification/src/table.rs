//! The worker-local aggregation table: a hashbrown hash map keyed by raw
//! station bytes, hashed with ahash, hidden behind a model of its contents.
//! Verus sees the table only through `table_contents` and the small trusted
//! methods below; all aggregation logic on top of them is verified.

use vstd::prelude::*;

use crate::measurement::{Measurement, StatsModel};

verus! {

/// One worker's station-to-bucket table.
#[verifier::external_body]
pub struct AggTable {
    inner: hashbrown::HashMap<Vec<u8>, Measurement, ahash::RandomState>,
}

/// The mapping from station key bytes to bucket statistics that a table
/// holds.
pub uninterp spec fn table_contents(t: AggTable) -> Map<Seq<u8>, StatsModel>;

impl AggTable {
    /// Relies on hashbrown::HashMap::default: a freshly built map is empty.
    #[verifier::external_body]
    pub fn new() -> (r: AggTable)
        ensures
            table_contents(r) == crate::model::empty_table(),
    {
        AggTable { inner: hashbrown::HashMap::default() }
    }

    /// Relies on hashbrown::HashMap::get: returns a copy of the bucket stored
    /// under a key equal to these bytes, if one is stored.
    #[verifier::external_body]
    pub fn get_copy(&self, key: &[u8]) -> (r: Option<Measurement>)
        ensures
            match r {
                Some(m) => table_contents(*self).dom().contains(key@) && m@ == table_contents(
                    *self,
                )[key@],
                None => !table_contents(*self).dom().contains(key@),
            },
    {
        self.inner.get(key).copied()
    }

    /// Relies on hashbrown::HashMap::insert: stores this bucket under these
    /// key bytes, replacing any previous bucket for them and leaving every
    /// other key unchanged.
    #[verifier::external_body]
    pub fn set(&mut self, key: &[u8], m: Measurement)
        ensures
            table_contents(*final(self)) == table_contents(*old(self)).insert(key@, m@),
    {
        self.inner.insert(key.to_vec(), m);
    }

    /// Relies on hashbrown::HashMap::iter: yields each stored pair exactly
    /// once, in no promised order.
    #[verifier::external_body]
    pub fn entries(&self) -> (v: Vec<(Vec<u8>, Measurement)>)
        ensures
            forall|i: int, j: int|
                #![trigger v@[i], v@[j]]
                0 <= i < j < v@.len() ==> v@[i].0@ != v@[j].0@,
            forall|i: int|
                0 <= i < v@.len() ==> #[trigger] table_contents(*self).contains_pair(
                    v@[i].0@,
                    v@[i].1@,
                ),
            forall|k: Seq<u8>|
                #[trigger] table_contents(*self).dom().contains(k) ==> exists|i: int|
                    0 <= i < v@.len() && v@[i].0@ == k,
    {
        self.inner.iter().map(|(k, m)| (k.clone(), *m)).collect()
    }
}

} // verus!
