// what the file header contributes to the record of an osm pbf file, besides its bounding box.
use vstd::prelude::*;
use crate::text::strings_view;

verus! {

/// The replication sequence number as stored: the header's value when it is a `u32`, else none.
pub fn replication_sequence(v: Option<i64>) -> (r: Option<u32>)
    ensures
        r == match v {
            Some(n) => if 0 <= n <= u32::MAX {
                Some(n as u32)
            } else {
                None
            },
            None => None,
        },
{
    match v {
        Some(n) => if 0 <= n && n <= 0xFFFF_FFFF {
            Some(n as u32)
        } else {
            None
        },
        None => None,
    }
}

/// The bytes `serde_json::to_vec` writes for a list of strings (a JSON array of strings), or
/// none when it fails.
pub uninterp spec fn json_string_array(items: Seq<Seq<char>>) -> Option<Seq<u8>>;

/// `serde_json::to_vec` of a list of strings: claimed to be a function of the strings alone
/// (named `json_string_array`), none when serde_json reports an error. The JSON text itself is
/// left to serde_json.
#[verifier::external_body]
fn strings_to_json(items: &Vec<String>) -> (r: Option<Vec<u8>>)
    ensures
        match r {
            Some(b) => json_string_array(strings_view(items@)) == Some(b@),
            None => json_string_array(strings_view(items@)) is None,
        },
{
    serde_json::to_vec(items).ok()
}

/// A header's list of features as stored: none when the list is empty, else the list as a JSON
/// array of strings.
pub fn features_json(features: &Vec<String>) -> (r: Option<Vec<u8>>)
    ensures
        features@.len() == 0 ==> r is None,
        features@.len() > 0 ==> match r {
            Some(b) => json_string_array(strings_view(features@)) == Some(b@),
            None => json_string_array(strings_view(features@)) is None,
        },
{
    if features.len() == 0 {
        None
    } else {
        strings_to_json(features)
    }
}

} // verus!
