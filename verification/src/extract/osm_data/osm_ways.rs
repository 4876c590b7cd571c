use vstd::prelude::*;
pub use crate::domain::osm_way::entity::osm_way;
use crate::domain::osm_way::decoder::{decode_ways, way_decodes_to, ways_fit};
use crate::extract::osm_data::options::data_opts;
use crate::pbf::message::way_msg;
use crate::pbf::tag_policy::{lists_admit, table_view};

verus! {

/// Decodes the ways of a block, keeping the tags the options pass.
pub fn decode(ways: &[way_msg], strings: &[&str], opts: &data_opts) -> (out: Vec<osm_way>)
    requires
        ways_fit(ways@),
    ensures
        out@.len() == ways@.len(),
        forall|i: int|
            0 <= i < ways@.len() ==> way_decodes_to(
                ways@[i],
                table_view(strings@),
                |k: Seq<char>| opts.admits(k),
                #[trigger] out@[i],
            ),
{
    let out = decode_ways(ways, strings, &opts.tags_include, &opts.tags_ignore);
    proof {
        let a = |k: Seq<char>| opts.admits(k);
        let b = |k: Seq<char>| lists_admit(opts.tags_include, opts.tags_ignore, k);
        assert(a =~= b);
    }
    out
}

} // verus!
