// how a way and a relation are written into their `payload` column.
use vstd::prelude::*;
use crate::extract::osm_data::jsonb_encode::{encoder, members_view, relation_payload, way_payload};
use crate::extract::osm_data::osm_relations::osm_relation;
use crate::extract::osm_data::osm_ways::osm_way;
use crate::pbf::tag_policy::tags_view;

verus! {

/// Appends the JSONB object `{refs, tags}` of `way`.
pub fn encode_way(encoder: &mut encoder, out: &mut Vec<u8>, way: &osm_way)
    requires
        old(encoder).wf(),
    ensures
        final(encoder).wf(),
        final(out)@ == old(out)@ + way_payload(way.refs@, tags_view(way.tags@)),
{
    encoder.encode_osm_way(out, way)
}

/// Appends the JSONB object `{tags, members}` of `rel`.
pub fn encode_relation(encoder: &mut encoder, out: &mut Vec<u8>, rel: &osm_relation)
    requires
        old(encoder).wf(),
    ensures
        final(encoder).wf(),
        final(out)@ == old(out)@ + relation_payload(
            tags_view(rel.tags@),
            members_view(rel.members@),
        ),
{
    encoder.encode_osm_relation(out, rel)
}

} // verus!
