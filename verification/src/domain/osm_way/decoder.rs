// ways arrive with their node references delta-encoded and their tags as indexes into the block's
// string table.
use vstd::prelude::*;
use super::entity::osm_way;
use crate::pbf::delta::{decode_deltas, sums_fit, undelta};
use crate::pbf::message::way_msg;
use crate::pbf::tag_policy::{
    collect_pairs, collect_tags, filter_pairs, kept_pairs, lists_admit, pair_count, table_view,
    tag_policy, tag_text, tags_view,
};

verus! {

/// The tags an element keeps: the pairs that pass, inserted one after another into a map.
pub open spec fn decoded_tags(
    table: Seq<Seq<char>>,
    keys: Seq<u32>,
    vals: Seq<u32>,
    admits: spec_fn(Seq<char>) -> bool,
) -> Seq<tag_text> {
    collect_tags(kept_pairs(table, keys, vals, pair_count(keys, vals), admits))
}

/// `out` is what decoding the way `w` against the string table gives.
pub open spec fn way_decodes_to(
    w: way_msg,
    table: Seq<Seq<char>>,
    admits: spec_fn(Seq<char>) -> bool,
    out: osm_way,
) -> bool {
    &&& out.id == w.id
    &&& out.refs@.map_values(|x: i64| x as int) == undelta(w.refs@)
    &&& tags_view(out.tags@) == decoded_tags(table, w.keys@, w.vals@, admits)
}

/// Every way's node references can be summed within `i64`.
pub open spec fn ways_fit(ways: Seq<way_msg>) -> bool {
    forall|i: int| 0 <= i < ways.len() ==> sums_fit(#[trigger] ways[i].refs@)
}

/// Decodes ways keeping the tags that pass the two lists.
pub fn decode_ways(
    ways: &[way_msg],
    strings: &[&str],
    included: &Option<Vec<String>>,
    ignore: &Option<Vec<String>>,
) -> (out: Vec<osm_way>)
    requires
        ways_fit(ways@),
    ensures
        out@.len() == ways@.len(),
        forall|i: int|
            0 <= i < ways@.len() ==> way_decodes_to(
                ways@[i],
                table_view(strings@),
                |k: Seq<char>| lists_admit(*included, *ignore, k),
                #[trigger] out@[i],
            ),
{
    let ghost admits = |k: Seq<char>| lists_admit(*included, *ignore, k);
    let mut out: Vec<osm_way> = Vec::new();
    let mut i: usize = 0;
    while i < ways.len()
        invariant
            i <= ways@.len(),
            ways_fit(ways@),
            admits == (|k: Seq<char>| lists_admit(*included, *ignore, k)),
            out@.len() == i,
            forall|j: int|
                0 <= j < i ==> way_decodes_to(ways@[j], table_view(strings@), admits, #[trigger] out@[j]),
        decreases ways@.len() - i,
    {
        let w = &ways[i];
        assert(sums_fit(ways@[i as int].refs@));
        let kept = filter_pairs(included, ignore, strings, &w.keys, &w.vals);
        let tags = collect_pairs(&kept);
        let refs = decode_deltas(&w.refs);
        out.push(osm_way { id: w.id, refs, tags });
        i = i + 1;
    }
    out
}

/// Decodes ways keeping the tags that `tags` passes.
pub fn decode(ways: &[way_msg], strings: &[&str], tags: &tag_policy) -> (out: Vec<osm_way>)
    requires
        ways_fit(ways@),
    ensures
        out@.len() == ways@.len(),
        forall|i: int|
            0 <= i < ways@.len() ==> way_decodes_to(
                ways@[i],
                table_view(strings@),
                |k: Seq<char>| tags.admits(k),
                #[trigger] out@[i],
            ),
{
    let out = decode_ways(ways, strings, &tags.included, &tags.ignore);
    proof {
        let a = |k: Seq<char>| tags.admits(k);
        let b = |k: Seq<char>| lists_admit(tags.included, tags.ignore, k);
        assert(a =~= b);
    }
    out
}

} // verus!
