pub mod osm_relation;
pub mod osm_tag;
pub mod osm_way;
