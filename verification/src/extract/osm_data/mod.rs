// the data pass of an extraction: what is kept of the nodes, ways and relations of a block.
pub mod element_payload;
pub mod jsonb_encode;
pub mod options;
pub mod osm_nodes;
pub mod osm_relations;
pub mod osm_ways;

pub use crate::pbf::message::{dense_nodes_msg, node_msg, relation_msg, way_msg};
pub use options::{data_opts, filter_tags, tag_passes};
