use vstd::prelude::*;
pub use crate::domain::osm_relation::entity::{osm_member_type, osm_relation, osm_relation_member};
use crate::domain::osm_relation::decoder::{decode_relations, relation_decodes_to, relations_fit};
use crate::extract::osm_data::options::data_opts;
use crate::pbf::message::relation_msg;
use crate::pbf::tag_policy::{lists_admit, table_view};

verus! {

/// Decodes the relations of a block, keeping the tags the options pass.
pub fn decode(relations: &[relation_msg], strings: &[&str], opts: &data_opts) -> (out: Vec<
    osm_relation,
>)
    requires
        relations_fit(relations@),
    ensures
        out@.len() == relations@.len(),
        forall|i: int|
            0 <= i < relations@.len() ==> relation_decodes_to(
                relations@[i],
                table_view(strings@),
                |k: Seq<char>| opts.admits(k),
                #[trigger] out@[i],
            ),
{
    let out = decode_relations(relations, strings, &opts.tags_include, &opts.tags_ignore);
    proof {
        let a = |k: Seq<char>| opts.admits(k);
        let b = |k: Seq<char>| lists_admit(opts.tags_include, opts.tags_ignore, k);
        assert(a =~= b);
    }
    out
}

} // verus!
