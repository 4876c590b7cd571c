// the PrimitiveBlock messages of an osm pbf file (osmformat.proto), as plain values. the wire
// decoding is done before the library is reached; what is here is what the decoders read.
use vstd::prelude::*;

verus! {

/// Per-element metadata (`Info`).
pub struct info_msg {
    pub version: i32,
    pub timestamp: i64,
    pub changeset: i64,
    pub uid: i32,
    pub user_sid: u32,
    pub visible: bool,
}

/// Columnar metadata of a dense node group (`DenseInfo`).
pub struct dense_info_msg {
    pub version: Vec<i32>,
    pub timestamp: Vec<i64>,
    pub changeset: Vec<i64>,
    pub uid: Vec<i32>,
    pub user_sid: Vec<i32>,
    pub visible: Vec<bool>,
}

/// A plain node (`Node`): tags as parallel key/value string-table indexes.
pub struct node_msg {
    pub id: i64,
    pub keys: Vec<u32>,
    pub vals: Vec<u32>,
    pub info: Option<info_msg>,
    pub lat: i64,
    pub lon: i64,
}

/// A dense node group (`DenseNodes`): ids, lat and lon are delta-encoded, and `keys_vals` holds
/// each node's key/value indexes followed by a 0.
pub struct dense_nodes_msg {
    pub id: Vec<i64>,
    pub denseinfo: Option<dense_info_msg>,
    pub lat: Vec<i64>,
    pub lon: Vec<i64>,
    pub keys_vals: Vec<i32>,
}

/// A way (`Way`): node references are delta-encoded.
pub struct way_msg {
    pub id: i64,
    pub keys: Vec<u32>,
    pub vals: Vec<u32>,
    pub info: Option<info_msg>,
    pub refs: Vec<i64>,
    pub lat: Vec<i64>,
    pub lon: Vec<i64>,
}

/// A relation (`Relation`): member ids are delta-encoded, and the three member arrays line up by
/// position.
pub struct relation_msg {
    pub id: i64,
    pub keys: Vec<u32>,
    pub vals: Vec<u32>,
    pub info: Option<info_msg>,
    pub roles_sid: Vec<i32>,
    pub memids: Vec<i64>,
    pub types: Vec<i32>,
}

} // verus!
