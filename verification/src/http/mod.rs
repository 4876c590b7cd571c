pub mod params;
pub mod status;

pub use params::{parse_last_admin_levels, query_param, url_decode};
