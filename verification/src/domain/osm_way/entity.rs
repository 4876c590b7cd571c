use vstd::prelude::*;

verus! {

/// A way: its id, its node references in order, and its tags (one value per key).
pub struct osm_way {
    pub id: i64,
    pub refs: Vec<i64>,
    pub tags: Vec<(String, String)>,
}

} // verus!
