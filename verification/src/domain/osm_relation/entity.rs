use vstd::prelude::*;

verus! {

/// A relation: its id, its tags (one value per key) and its members in order.
pub struct osm_relation {
    pub id: i64,
    pub tags: Vec<(String, String)>,
    pub members: Vec<osm_relation_member>,
}

/// The kind of element a relation member points at.
#[derive(Clone, Copy, PartialEq, Eq, Debug, Structural)]
pub enum osm_member_type {
    node,
    way,
    relation,
}

/// A relation member: the kind and id of the element it points at, and its role.
pub struct osm_relation_member {
    pub osm_member_type: osm_member_type,
    pub id: i64,
    pub role: String,
}

} // verus!
