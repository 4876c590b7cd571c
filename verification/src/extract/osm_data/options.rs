use vstd::prelude::*;
use crate::pbf::tag_policy::{
    filter_pairs, kept_pairs, lists_admit, lists_pass, pair_count, pairs_view, table_view,
};

verus! {

/// What the data pass keeps: which element kinds, whether element metadata is skipped, the two
/// tag lists, and how many bytes of decoded rows it buffers before writing.
pub struct data_opts {
    pub include_nodes: bool,
    pub include_ways: bool,
    pub include_relations: bool,
    pub ignore_info: bool,
    pub tags_include: Option<Vec<String>>,
    pub tags_ignore: Option<Vec<String>>,
    pub buffer_bytes: usize,
}

impl data_opts {
    /// Whether these options keep a tag with key `key`.
    pub open spec fn admits(&self, key: Seq<char>) -> bool {
        lists_admit(self.tags_include, self.tags_ignore, key)
    }
}

/// Whether a tag with key `key` is kept: it is on `tags_include` when that list is given, and not
/// on `tags_ignore`.
pub fn tag_passes(key: &str, opts: &data_opts) -> (r: bool)
    ensures
        r == opts.admits(key@),
{
    lists_pass(&opts.tags_include, &opts.tags_ignore, key)
}

/// Resolves key/value index pairs against the string table and keeps, in order, the pairs whose
/// key passes; a pair with an index outside the table is dropped.
pub fn filter_tags<'a>(strings: &[&'a str], keys: &[u32], vals: &[u32], opts: &data_opts) -> (out:
    Vec<(&'a str, &'a str)>)
    ensures
        pairs_view(out@) == kept_pairs(
            table_view(strings@),
            keys@,
            vals@,
            pair_count(keys@, vals@),
            |k: Seq<char>| opts.admits(k),
        ),
{
    let out = filter_pairs(&opts.tags_include, &opts.tags_ignore, strings, keys, vals);
    proof {
        let a = |k: Seq<char>| opts.admits(k);
        let b = |k: Seq<char>| lists_admit(opts.tags_include, opts.tags_ignore, k);
        assert(a =~= b);
    }
    out
}

} // verus!
