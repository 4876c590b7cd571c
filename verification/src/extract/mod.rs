pub mod blob_chunks;
pub mod header;
pub mod admin_levels;
pub mod house_numbers;
pub mod osm_data;
