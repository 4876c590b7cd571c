// an openstreetmap way — an ordered list of node references with tags. streets and neighbourhood
// outlines are both ways; which tags make one or the other is a per-level decision, expressed by
// `filter`.
pub mod decoder;
pub mod entity;
pub mod filter;
pub mod payload;

pub use entity::osm_way;
pub use filter::way_filter;
