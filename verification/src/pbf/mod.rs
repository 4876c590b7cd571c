pub mod delta;
pub mod message;
pub mod tag_policy;
