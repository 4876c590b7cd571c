// an openstreetmap relation: an ordered list of members, each pointing at another element with a
// role. every administrative boundary above street level is one.
pub mod decoder;
pub mod entity;
pub mod payload;

pub use entity::osm_relation;
