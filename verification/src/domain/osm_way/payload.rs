// how a way is written into the `payload` column: `{refs, tags}`. the id is not in the payload —
// it is the primary key of the row.
use vstd::prelude::*;
use super::entity::osm_way;
use crate::extract::osm_data::jsonb_encode::{encoder, way_payload};
use crate::pbf::tag_policy::tags_view;

verus! {

/// Appends the JSONB object `{refs, tags}` of `way`.
pub fn encode(encoder: &mut encoder, out: &mut Vec<u8>, way: &osm_way)
    requires
        old(encoder).wf(),
    ensures
        final(encoder).wf(),
        final(out)@ == old(out)@ + way_payload(way.refs@, tags_view(way.tags@)),
{
    encoder.encode_osm_way(out, way)
}

} // verus!
