pub mod admin_levels_hierarchy_tantivy;
pub mod coordinates;
pub mod hierarchy;
pub mod user_friendly_name;
pub mod search_plan;
