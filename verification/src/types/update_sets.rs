//! Updates to the state of the application.

use vstd::prelude::*;

use std::sync::Arc;

use crate::types::data_types::Bytes;

verus! {

/// Updates to a key-value state: values to set and keys to remove.
#[derive(PartialEq, Eq, Debug)]
pub struct AppStateUpdates {
    pub inserts: Arc<Vec<(Bytes, Bytes)>>,
    pub deletes: Arc<Vec<Bytes>>,
}

impl Clone for AppStateUpdates {
    fn clone(&self) -> (r: Self)
        ensures
            r == *self,
    {
        AppStateUpdates { inserts: self.inserts.clone(), deletes: self.deletes.clone() }
    }
}

impl AppStateUpdates {
    /// No updates.
    pub fn new() -> (r: Self)
        ensures
            r.inserts@ == Seq::<(Bytes, Bytes)>::empty(),
            r.deletes@ == Seq::<Bytes>::empty(),
    {
        AppStateUpdates { inserts: Arc::new(Vec::new()), deletes: Arc::new(Vec::new()) }
    }

    /// The updates that set the values `inserts` and then remove the keys `deletes`.
    pub fn from_parts(inserts: Vec<(Bytes, Bytes)>, deletes: Vec<Bytes>) -> (r: Self)
        ensures
            r.inserts@ == inserts@,
            r.deletes@ == deletes@,
    {
        AppStateUpdates { inserts: Arc::new(inserts), deletes: Arc::new(deletes) }
    }
}

} // verus!
