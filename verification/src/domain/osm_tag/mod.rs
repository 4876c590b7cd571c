// the openstreetmap tag vocabulary: the keys geolite interprets, the values it treats as closed
// sets, and how a tag is read back out of a stored payload.
pub mod key;
pub mod select;
pub mod value;

pub use key::osm_tag;
