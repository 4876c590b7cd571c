// which tags the pipeline keeps. stringly-typed on purpose: the list of kept keys, when present, names
// the only keys kept; the ignore list names keys dropped even when included. an absent list does
// not constrain anything.
use vstd::prelude::*;
use crate::text::{list_contains, str_eq, to_owned_string};

verus! {

/// A tag as text: key and value.
pub type tag_text = (Seq<char>, Seq<char>);

/// Whether some string of `list` holds the text `s`.
pub open spec fn seq_has(list: Seq<String>, s: Seq<char>) -> bool {
    exists|i: int| 0 <= i < list.len() && #[trigger] list[i]@ == s
}

/// Whether a key passes a list of kept keys and an ignore list.
pub open spec fn lists_admit(
    included: Option<Vec<String>>,
    ignore: Option<Vec<String>>,
    key: Seq<char>,
) -> bool {
    &&& match included {
        None => true,
        Some(l) => seq_has(l@, key),
    }
    &&& match ignore {
        None => true,
        Some(l) => !seq_has(l@, key),
    }
}

/// Whether `key` passes the two lists.
pub fn lists_pass(included: &Option<Vec<String>>, ignore: &Option<Vec<String>>, key: &str) -> (r:
    bool)
    ensures
        r == lists_admit(*included, *ignore, key@),
{
    let wanted = match included {
        None => true,
        Some(l) => list_contains(l, key),
    };
    let ignored = match ignore {
        None => false,
        Some(l) => list_contains(l, key),
    };
    wanted && !ignored
}

/// The texts of a string table.
pub open spec fn table_view(strings: Seq<&str>) -> Seq<Seq<char>> {
    strings.map_values(|s: &str| s@)
}

/// The tag pairs kept from the first `n` key/value index pairs: a pair whose key or value index
/// falls outside the string table is skipped, and so is one whose key `admits` rejects.
pub open spec fn kept_pairs(
    table: Seq<Seq<char>>,
    keys: Seq<u32>,
    vals: Seq<u32>,
    n: nat,
    admits: spec_fn(Seq<char>) -> bool,
) -> Seq<tag_text>
    decreases n,
{
    if n == 0 {
        seq![]
    } else {
        let prev = kept_pairs(table, keys, vals, (n - 1) as nat, admits);
        let k = keys[n - 1] as int;
        let v = vals[n - 1] as int;
        if k < table.len() && v < table.len() && admits(table[k]) {
            prev.push((table[k], table[v]))
        } else {
            prev
        }
    }
}

/// The number of key/value pairs: the shorter of the two index lists.
pub open spec fn pair_count(keys: Seq<u32>, vals: Seq<u32>) -> nat {
    if keys.len() <= vals.len() {
        keys.len()
    } else {
        vals.len()
    }
}

/// The texts of a list of tag references.
pub open spec fn pairs_view(pairs: Seq<(&str, &str)>) -> Seq<tag_text> {
    pairs.map_values(|p: (&str, &str)| (p.0@, p.1@))
}

/// The texts of a list of owned tags.
pub open spec fn tags_view(tags: Seq<(String, String)>) -> Seq<tag_text> {
    tags.map_values(|p: (String, String)| (p.0@, p.1@))
}

/// The tag pairs of the first `n` index pairs that pass the two lists.
pub fn filter_pairs<'a>(
    included: &Option<Vec<String>>,
    ignore: &Option<Vec<String>>,
    strings: &[&'a str],
    keys: &[u32],
    vals: &[u32],
) -> (out: Vec<(&'a str, &'a str)>)
    ensures
        pairs_view(out@) == kept_pairs(
            table_view(strings@),
            keys@,
            vals@,
            pair_count(keys@, vals@),
            |k: Seq<char>| lists_admit(*included, *ignore, k),
        ),
{
    let ghost table = table_view(strings@);
    let ghost admits = |k: Seq<char>| lists_admit(*included, *ignore, k);
    let n = if keys.len() <= vals.len() {
        keys.len()
    } else {
        vals.len()
    };
    let mut out: Vec<(&'a str, &'a str)> = Vec::new();
    let mut i: usize = 0;
    while i < n
        invariant
            n == pair_count(keys@, vals@),
            n <= keys@.len(),
            n <= vals@.len(),
            i <= n,
            table == table_view(strings@),
            admits == (|k: Seq<char>| lists_admit(*included, *ignore, k)),
            pairs_view(out@) == kept_pairs(table, keys@, vals@, i as nat, admits),
        decreases n - i,
    {
        let k = keys[i] as usize;
        let v = vals[i] as usize;
        let ghost prev = out@;
        if k < strings.len() && v < strings.len() && lists_pass(included, ignore, strings[k]) {
            out.push((strings[k], strings[v]));
            assert(pairs_view(out@) =~= pairs_view(prev).push((table[k as int], table[v as int])));
        }
        i = i + 1;
    }
    out
}

/// The position of the tag with key `k`, if any.
pub open spec fn key_position(tags: Seq<tag_text>, k: Seq<char>) -> Option<int>
    decreases tags.len(),
{
    if tags.len() == 0 {
        None
    } else if tags.last().0 == k {
        Some(tags.len() - 1)
    } else {
        key_position(tags.drop_last(), k)
    }
}

/// Map insertion: a present key gets the new value in place, an absent one is added at the end.
pub open spec fn insert_tag(tags: Seq<tag_text>, k: Seq<char>, v: Seq<char>) -> Seq<tag_text> {
    match key_position(tags, k) {
        Some(i) => tags.update(i, (k, v)),
        None => tags.push((k, v)),
    }
}

/// The tags that inserting `pairs` one after another into an empty map leaves.
pub open spec fn collect_tags(pairs: Seq<tag_text>) -> Seq<tag_text>
    decreases pairs.len(),
{
    if pairs.len() == 0 {
        seq![]
    } else {
        insert_tag(collect_tags(pairs.drop_last()), pairs.last().0, pairs.last().1)
    }
}

/// No two tags share a key.
pub open spec fn distinct_keys(tags: Seq<tag_text>) -> bool {
    forall|i: int, j: int| 0 <= i < j < tags.len() ==> tags[i].0 != tags[j].0
}

proof fn lemma_key_position(tags: Seq<tag_text>, k: Seq<char>)
    ensures
        key_position(tags, k) matches Some(i) ==> 0 <= i < tags.len() && tags[i].0 == k,
        key_position(tags, k) is None ==> forall|j: int| 0 <= j < tags.len() ==> tags[j].0 != k,
    decreases tags.len(),
{
    if tags.len() > 0 && tags.last().0 != k {
        lemma_key_position(tags.drop_last(), k);
        assert forall|j: int| 0 <= j < tags.len() - 1 implies tags[j] == tags.drop_last()[j] by {}
    }
}

/// Collecting tags never leaves two tags with one key.
pub proof fn lemma_collect_distinct(pairs: Seq<tag_text>)
    ensures
        distinct_keys(collect_tags(pairs)),
    decreases pairs.len(),
{
    if pairs.len() > 0 {
        let prev = collect_tags(pairs.drop_last());
        lemma_collect_distinct(pairs.drop_last());
        lemma_key_position(prev, pairs.last().0);
    }
}

/// Every pair collected has its key among the tags, holding the value of the last such pair.
pub proof fn lemma_collect_keeps_last_value(pairs: Seq<tag_text>)
    requires
        pairs.len() > 0,
    ensures
        exists|i: int|
            0 <= i < collect_tags(pairs).len() && #[trigger] collect_tags(pairs)[i] == pairs.last(),
{
    let prev = collect_tags(pairs.drop_last());
    lemma_key_position(prev, pairs.last().0);
    let c = collect_tags(pairs);
    match key_position(prev, pairs.last().0) {
        Some(i) => {
            assert(c[i] == pairs.last());
        },
        None => {
            assert(c[c.len() - 1] == pairs.last());
        },
    }
}

/// Inserts a tag as a map would: a present key takes the new value in place.
pub fn insert_tag_into(tags: &mut Vec<(String, String)>, k: &str, v: &str)
    ensures
        tags_view(final(tags)@) == insert_tag(tags_view(old(tags)@), k@, v@),
{
    let ghost view = tags_view(tags@);
    let mut i: usize = tags.len();
    assert(view.subrange(0, i as int) =~= view);
    while i > 0
        invariant
            i <= tags@.len(),
            view == tags_view(tags@),
            tags@ == old(tags)@,
            key_position(view, k@) == key_position(view.subrange(0, i as int), k@),
        decreases i,
    {
        proof {
            assert(view.subrange(0, i as int).drop_last() =~= view.subrange(0, i - 1));
        }
        if str_eq(tags[i - 1].0.as_str(), k) {
            let ghost before = tags@;
            tags.set(i - 1, (to_owned_string(k), to_owned_string(v)));
            proof {
                assert(key_position(view.subrange(0, i as int), k@) == Some(i - 1));
                assert(tags_view(tags@) =~= view.update(i - 1, (k@, v@)));
            }
            return;
        }
        i = i - 1;
    }
    proof {
        assert(view.subrange(0, 0) =~= Seq::<tag_text>::empty());
    }
    tags.push((to_owned_string(k), to_owned_string(v)));
    assert(tags_view(tags@) =~= view.push((k@, v@)));
}

/// The owned tags that inserting `pairs` one after another leaves.
pub fn collect_pairs(pairs: &Vec<(&str, &str)>) -> (tags: Vec<(String, String)>)
    ensures
        tags_view(tags@) == collect_tags(pairs_view(pairs@)),
{
    let ghost pv = pairs_view(pairs@);
    let mut tags: Vec<(String, String)> = Vec::new();
    let mut i: usize = 0;
    while i < pairs.len()
        invariant
            i <= pairs@.len(),
            pv == pairs_view(pairs@),
            tags_view(tags@) == collect_tags(pv.subrange(0, i as int)),
        decreases pairs@.len() - i,
    {
        let (k, v) = pairs[i];
        insert_tag_into(&mut tags, k, v);
        proof {
            assert(pv.subrange(0, i + 1).drop_last() =~= pv.subrange(0, i as int));
        }
        i = i + 1;
    }
    assert(pv.subrange(0, i as int) =~= pv);
    tags
}

/// The tag policy of an extraction: an optional list of kept keys and an optional ignore list.
pub struct tag_policy {
    pub included: Option<Vec<String>>,
    pub ignore: Option<Vec<String>>,
}

impl Default for tag_policy {
    fn default() -> (p: Self)
        ensures
            p.included is None,
            p.ignore is None,
    {
        tag_policy { included: None, ignore: None }
    }
}

impl tag_policy {
    /// Whether this policy keeps a tag with key `key`.
    pub open spec fn admits(&self, key: Seq<char>) -> bool {
        lists_admit(self.included, self.ignore, key)
    }

    /// Whether a tag with key `key` is kept: it is on the list of kept keys when there is one, and
    /// not on the ignore list.
    pub fn passes(&self, key: &str) -> (r: bool)
        ensures
            r == self.admits(key@),
    {
        lists_pass(&self.included, &self.ignore, key)
    }

    /// Resolves the key/value index pairs against the string table and keeps the pairs that pass,
    /// in order; a pair pointing outside the table is skipped.
    pub fn filter<'a>(&self, strings: &[&'a str], keys: &[u32], vals: &[u32]) -> (out: Vec<
        (&'a str, &'a str),
    >)
        ensures
            pairs_view(out@) == kept_pairs(
                table_view(strings@),
                keys@,
                vals@,
                pair_count(keys@, vals@),
                |k: Seq<char>| self.admits(k),
            ),
    {
        let out = filter_pairs(&self.included, &self.ignore, strings, keys, vals);
        proof {
            let a = |k: Seq<char>| self.admits(k);
            let b = |k: Seq<char>| lists_admit(self.included, self.ignore, k);
            assert(a =~= b);
        }
        out
    }
}

} // verus!
