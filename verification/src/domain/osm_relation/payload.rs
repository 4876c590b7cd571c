// how a relation is written into the `payload` column: `{tags, members}`, each member an object
// `{type, id, role}` with the type as its one-letter code.
use vstd::prelude::*;
use super::entity::{osm_member_type, osm_relation};
use crate::extract::osm_data::jsonb_encode::{encoder, members_view, relation_payload};
use crate::pbf::tag_policy::tags_view;

verus! {

/// The one-letter code of a member kind.
pub open spec fn member_code(t: osm_member_type) -> Seq<char> {
    match t {
        osm_member_type::node => "n"@,
        osm_member_type::way => "w"@,
        osm_member_type::relation => "r"@,
    }
}

/// The one-letter code of a member kind: `n`, `w` or `r`.
pub fn member_type_code(member_type: &osm_member_type) -> (code: &'static str)
    ensures
        code@ == member_code(*member_type),
{
    match member_type {
        osm_member_type::node => "n",
        osm_member_type::way => "w",
        osm_member_type::relation => "r",
    }
}

/// Appends the JSONB object `{tags, members}` of `relation`.
pub fn encode(encoder: &mut encoder, out: &mut Vec<u8>, relation: &osm_relation)
    requires
        old(encoder).wf(),
    ensures
        final(encoder).wf(),
        final(out)@ == old(out)@ + relation_payload(
            tags_view(relation.tags@),
            members_view(relation.members@),
        ),
{
    encoder.encode_osm_relation(out, relation)
}

} // verus!
