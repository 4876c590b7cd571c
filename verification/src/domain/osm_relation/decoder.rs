// member ids are delta-encoded against the previous member, and the role is an index into the
// block's string table. the three parallel arrays — memids, roles_sid, types — line up by
// position, so a short or missing entry falls back rather than shifting everything after it.
use vstd::prelude::*;
use super::entity::{osm_member_type, osm_relation, osm_relation_member};
use crate::domain::osm_way::decoder::decoded_tags;
use crate::pbf::delta::{decode_deltas, sums_fit, undelta};
use crate::pbf::message::relation_msg;
use crate::pbf::tag_policy::{
    collect_pairs, filter_pairs, lists_admit, table_view, tag_policy, tags_view,
};
use crate::text::to_owned_string;

verus! {

/// The string-table index of member `i`'s role: 0 when `roles_sid` is too short.
pub open spec fn role_index(r: relation_msg, i: int) -> int {
    if i < r.roles_sid@.len() {
        r.roles_sid@[i] as int
    } else {
        0
    }
}

/// The text at `idx` of the string table, or empty text when `idx` is outside it.
pub open spec fn table_text(table: Seq<Seq<char>>, idx: int) -> Seq<char> {
    if 0 <= idx < table.len() {
        table[idx]
    } else {
        seq![]
    }
}

/// The type code of member `i`: 0 when `types` is too short.
pub open spec fn type_code(r: relation_msg, i: int) -> i32 {
    if i < r.types@.len() {
        r.types@[i]
    } else {
        0
    }
}

/// The member kind a type code names: 1 is a way, 2 a relation, anything else a node.
pub open spec fn member_type_of(code: i32) -> osm_member_type {
    if code == 1 {
        osm_member_type::way
    } else if code == 2 {
        osm_member_type::relation
    } else {
        osm_member_type::node
    }
}

/// `m` is member `i` of `r` decoded against the string table.
pub open spec fn member_decodes_to(
    r: relation_msg,
    table: Seq<Seq<char>>,
    i: int,
    m: osm_relation_member,
) -> bool {
    &&& m.id as int == undelta(r.memids@)[i]
    &&& m.osm_member_type == member_type_of(type_code(r, i))
    &&& m.role@ == table_text(table, role_index(r, i))
}

/// `out` is what decoding the relation `r` against the string table gives.
pub open spec fn relation_decodes_to(
    r: relation_msg,
    table: Seq<Seq<char>>,
    admits: spec_fn(Seq<char>) -> bool,
    out: osm_relation,
) -> bool {
    &&& out.id == r.id
    &&& tags_view(out.tags@) == decoded_tags(table, r.keys@, r.vals@, admits)
    &&& out.members@.len() == r.memids@.len()
    &&& forall|i: int|
        0 <= i < r.memids@.len() ==> member_decodes_to(r, table, i, #[trigger] out.members@[i])
}

/// Every relation's member ids can be summed within `i64`.
pub open spec fn relations_fit(relations: Seq<relation_msg>) -> bool {
    forall|i: int| 0 <= i < relations.len() ==> sums_fit(#[trigger] relations[i].memids@)
}

fn decode_members(r: &relation_msg, strings: &[&str]) -> (members: Vec<osm_relation_member>)
    requires
        sums_fit(r.memids@),
    ensures
        members@.len() == r.memids@.len(),
        forall|i: int|
            0 <= i < r.memids@.len() ==> member_decodes_to(
                *r,
                table_view(strings@),
                i,
                #[trigger] members@[i],
            ),
{
    let ids = decode_deltas(&r.memids);
    assert(ids@.len() == r.memids@.len()) by {
        assert(ids@.map_values(|x: i64| x as int).len() == ids@.len());
    }
    let ghost table = table_view(strings@);
    let mut members: Vec<osm_relation_member> = Vec::new();
    let mut i: usize = 0;
    while i < ids.len()
        invariant
            i <= ids@.len(),
            ids@.len() == r.memids@.len(),
            ids@.map_values(|x: i64| x as int) == undelta(r.memids@),
            table == table_view(strings@),
            members@.len() == i,
            forall|j: int| 0 <= j < i ==> member_decodes_to(*r, table, j, #[trigger] members@[j]),
        decreases ids@.len() - i,
    {
        let role_sid: i32 = if i < r.roles_sid.len() {
            r.roles_sid[i]
        } else {
            0
        };
        let role = if role_sid >= 0 && (role_sid as usize) < strings.len() {
            to_owned_string(strings[role_sid as usize])
        } else {
            String::new()
        };
        let code: i32 = if i < r.types.len() {
            r.types[i]
        } else {
            0
        };
        let kind = if code == 1 {
            osm_member_type::way
        } else if code == 2 {
            osm_member_type::relation
        } else {
            osm_member_type::node
        };
        assert(ids@.map_values(|x: i64| x as int)[i as int] == ids@[i as int] as int);
        members.push(osm_relation_member { osm_member_type: kind, id: ids[i], role });
        i = i + 1;
    }
    members
}

/// Decodes relations keeping the tags that pass the two lists.
pub fn decode_relations(
    relations: &[relation_msg],
    strings: &[&str],
    included: &Option<Vec<String>>,
    ignore: &Option<Vec<String>>,
) -> (out: Vec<osm_relation>)
    requires
        relations_fit(relations@),
    ensures
        out@.len() == relations@.len(),
        forall|i: int|
            0 <= i < relations@.len() ==> relation_decodes_to(
                relations@[i],
                table_view(strings@),
                |k: Seq<char>| lists_admit(*included, *ignore, k),
                #[trigger] out@[i],
            ),
{
    let ghost admits = |k: Seq<char>| lists_admit(*included, *ignore, k);
    let mut out: Vec<osm_relation> = Vec::new();
    let mut i: usize = 0;
    while i < relations.len()
        invariant
            i <= relations@.len(),
            relations_fit(relations@),
            admits == (|k: Seq<char>| lists_admit(*included, *ignore, k)),
            out@.len() == i,
            forall|j: int|
                0 <= j < i ==> relation_decodes_to(
                    relations@[j],
                    table_view(strings@),
                    admits,
                    #[trigger] out@[j],
                ),
        decreases relations@.len() - i,
    {
        let r = &relations[i];
        assert(sums_fit(relations@[i as int].memids@));
        let kept = filter_pairs(included, ignore, strings, &r.keys, &r.vals);
        let tags = collect_pairs(&kept);
        let members = decode_members(r, strings);
        out.push(osm_relation { id: r.id, tags, members });
        i = i + 1;
    }
    out
}

/// Decodes relations keeping the tags that `tags` passes.
pub fn decode(relations: &[relation_msg], strings: &[&str], tags: &tag_policy) -> (out: Vec<
    osm_relation,
>)
    requires
        relations_fit(relations@),
    ensures
        out@.len() == relations@.len(),
        forall|i: int|
            0 <= i < relations@.len() ==> relation_decodes_to(
                relations@[i],
                table_view(strings@),
                |k: Seq<char>| tags.admits(k),
                #[trigger] out@[i],
            ),
{
    let out = decode_relations(relations, strings, &tags.included, &tags.ignore);
    proof {
        let a = |k: Seq<char>| tags.admits(k);
        let b = |k: Seq<char>| lists_admit(tags.included, tags.ignore, k);
        assert(a =~= b);
    }
    out
}

} // verus!
