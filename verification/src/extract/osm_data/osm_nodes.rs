// nodes, plain and dense. a coordinate is stored as `offset + granularity * value` nanodegrees;
// the library keeps it as that integer.
use vstd::prelude::*;
use crate::domain::osm_relation::decoder::table_text;
use crate::domain::osm_way::decoder::decoded_tags;
use crate::extract::osm_data::options::{data_opts, filter_tags, tag_passes};
use crate::pbf::delta::{prefix_sum, sums_fit, undelta};
use crate::pbf::message::{dense_nodes_msg, node_msg};
use crate::pbf::tag_policy::{
    collect_pairs, collect_tags, insert_tag_into, table_view, tag_text, tags_view,
};

verus! {

/// A node: its id, its coordinates in nanodegrees, and its tags (one value per key).
pub struct osm_node {
    pub id: i64,
    pub lat_nano: i64,
    pub lon_nano: i64,
    pub tags: Vec<(String, String)>,
}

/// The nanodegree coordinate that `value` stands for.
pub open spec fn coordinate(offset: i64, granularity: i64, value: int) -> int {
    offset + granularity * value
}

/// The coordinate of `value`, and the product inside it, fit in an `i64`.
pub open spec fn coordinate_fits(offset: i64, granularity: i64, value: int) -> bool {
    &&& i64::MIN <= granularity * value <= i64::MAX
    &&& i64::MIN <= coordinate(offset, granularity, value) <= i64::MAX
}

/// `out` is what decoding the plain node `n` gives.
pub open spec fn node_decodes_to(
    n: node_msg,
    table: Seq<Seq<char>>,
    granularity: i64,
    lat_offset: i64,
    lon_offset: i64,
    admits: spec_fn(Seq<char>) -> bool,
    out: osm_node,
) -> bool {
    &&& out.id == n.id
    &&& out.lat_nano == coordinate(lat_offset, granularity, n.lat as int)
    &&& out.lon_nano == coordinate(lon_offset, granularity, n.lon as int)
    &&& tags_view(out.tags@) == decoded_tags(table, n.keys@, n.vals@, admits)
}

fn coordinate_of(offset: i64, granularity: i64, value: i64) -> (c: i64)
    requires
        coordinate_fits(offset, granularity, value as int),
    ensures
        c == coordinate(offset, granularity, value as int),
{
    offset + granularity * value
}

/// Decodes plain nodes, keeping the tags the options pass.
pub fn decode_nodes(
    nodes: &[node_msg],
    strings: &[&str],
    granularity: i64,
    lat_offset: i64,
    lon_offset: i64,
    _date_granularity: i64,
    opts: &data_opts,
) -> (out: Vec<osm_node>)
    requires
        forall|i: int|
            0 <= i < nodes@.len() ==> coordinate_fits(lat_offset, granularity, #[trigger] nodes@[i].lat as int)
                && coordinate_fits(lon_offset, granularity, nodes@[i].lon as int),
    ensures
        out@.len() == nodes@.len(),
        forall|i: int|
            0 <= i < nodes@.len() ==> node_decodes_to(
                nodes@[i],
                table_view(strings@),
                granularity,
                lat_offset,
                lon_offset,
                |k: Seq<char>| opts.admits(k),
                #[trigger] out@[i],
            ),
{
    let ghost admits = |k: Seq<char>| opts.admits(k);
    let mut out: Vec<osm_node> = Vec::new();
    let mut i: usize = 0;
    while i < nodes.len()
        invariant
            i <= nodes@.len(),
            admits == (|k: Seq<char>| opts.admits(k)),
            forall|j: int|
                0 <= j < nodes@.len() ==> coordinate_fits(lat_offset, granularity, #[trigger] nodes@[j].lat as int)
                    && coordinate_fits(lon_offset, granularity, nodes@[j].lon as int),
            out@.len() == i,
            forall|j: int|
                0 <= j < i ==> node_decodes_to(
                    nodes@[j],
                    table_view(strings@),
                    granularity,
                    lat_offset,
                    lon_offset,
                    admits,
                    #[trigger] out@[j],
                ),
        decreases nodes@.len() - i,
    {
        let n = &nodes[i];
        assert(coordinate_fits(lat_offset, granularity, nodes@[i as int].lat as int));
        let kept = filter_tags(strings, &n.keys, &n.vals, opts);
        let tags = collect_pairs(&kept);
        let lat = coordinate_of(lat_offset, granularity, n.lat);
        let lon = coordinate_of(lon_offset, granularity, n.lon);
        out.push(osm_node { id: n.id, lat_nano: lat, lon_nano: lon, tags });
        i = i + 1;
    }
    out
}

/// The entry of `kv` at `p`, or 0 past its end.
pub open spec fn kv_at(kv: Seq<i32>, p: int) -> i32 {
    if 0 <= p < kv.len() {
        kv[p]
    } else {
        0
    }
}

/// Where the tag section that starts at `p` ends: one past its terminating 0. Past the end of
/// `kv` every entry reads as 0 and nothing is left to consume.
pub open spec fn section_end(kv: Seq<i32>, p: nat) -> nat
    decreases kv.len() + 1 - p,
{
    if p >= kv.len() {
        kv.len()
    } else if kv[p as int] == 0 {
        p + 1
    } else {
        section_end(kv, p + 2)
    }
}

/// The tags of the section that starts at `p`, in order, keeping those whose key `admits`
/// passes; an index outside the string table reads as empty text.
pub open spec fn section_tags(
    kv: Seq<i32>,
    p: nat,
    table: Seq<Seq<char>>,
    admits: spec_fn(Seq<char>) -> bool,
) -> Seq<tag_text>
    decreases kv.len() + 1 - p,
{
    if p >= kv.len() || kv[p as int] == 0 {
        seq![]
    } else {
        let k = table_text(table, kv[p as int] as int);
        let v = table_text(table, kv_at(kv, (p + 1) as int) as int);
        let rest = section_tags(kv, p + 2, table, admits);
        if admits(k) {
            seq![(k, v)] + rest
        } else {
            rest
        }
    }
}

/// Where the tag section of dense node `i` starts.
pub open spec fn node_start(kv: Seq<i32>, i: nat) -> nat
    decreases i,
{
    if i == 0 {
        0
    } else {
        section_end(kv, node_start(kv, (i - 1) as nat))
    }
}

/// A tag section read from `p` consumes its terminating 0: it ends past `p`, no key position
/// before its last entry holds a 0, and when it ends before the end of `kv` its last entry is the
/// 0 that terminates it, at a key position.
pub proof fn lemma_section_consumes_terminator(kv: Seq<i32>, p: nat)
    requires
        p < kv.len(),
    ensures
        p < section_end(kv, p) <= kv.len(),
        forall|q: int|
            p <= q < section_end(kv, p) - 1 && (q - p) % 2 == 0 ==> #[trigger] kv[q] != 0,
        section_end(kv, p) < kv.len() ==> kv[section_end(kv, p) - 1] == 0 && (section_end(kv, p)
            - 1 - p) % 2 == 0,
    decreases kv.len() - p,
{
    if kv[p as int] == 0 {
        assert(section_end(kv, p) == p + 1);
    } else if p + 2 >= kv.len() {
        assert(section_end(kv, p + 2) == kv.len());
        assert(section_end(kv, p) == kv.len());
        assert forall|q: int| p <= q < section_end(kv, p) - 1 && (q - p) % 2 == 0 implies #[trigger] kv[q]
            != 0 by {
            assert(q == p);
        }
    } else {
        lemma_section_consumes_terminator(kv, p + 2);
        let e = section_end(kv, p);
        assert forall|q: int| p <= q < e - 1 && (q - p) % 2 == 0 implies #[trigger] kv[q] != 0 by {
            if q >= p + 2 {
                assert((q - (p + 2)) % 2 == 0);
            }
        }
    }
}

/// Each dense node's tag section starts right after the previous node's: past its start, and
/// one past the 0 that ends the previous section, unless the entries ran out.
pub proof fn lemma_node_sections_follow(kv: Seq<i32>, i: nat)
    requires
        node_start(kv, i) < kv.len(),
    ensures
        node_start(kv, i) < node_start(kv, i + 1) <= kv.len(),
        node_start(kv, i + 1) < kv.len() ==> kv[node_start(kv, i + 1) - 1] == 0,
{
    lemma_section_consumes_terminator(kv, node_start(kv, i));
}

/// The first `n` entries of `s`, a missing one read as 0.
pub open spec fn padded(s: Seq<i64>, n: nat) -> Seq<i64> {
    Seq::new(n, |i: int| if i < s.len() { s[i] } else { 0 })
}

/// Every sum and coordinate of a dense group fits in an `i64`.
pub open spec fn dense_fits(
    dense: dense_nodes_msg,
    granularity: i64,
    lat_offset: i64,
    lon_offset: i64,
) -> bool {
    let n = dense.id@.len();
    &&& sums_fit(dense.id@)
    &&& sums_fit(padded(dense.lat@, n))
    &&& sums_fit(padded(dense.lon@, n))
    &&& forall|i: int|
        0 <= i < n ==> coordinate_fits(lat_offset, granularity, #[trigger] undelta(padded(dense.lat@, n))[i])
            && coordinate_fits(lon_offset, granularity, undelta(padded(dense.lon@, n))[i])
}

/// `out` is dense node `i` of `dense`.
pub open spec fn dense_node_decodes_to(
    dense: dense_nodes_msg,
    table: Seq<Seq<char>>,
    granularity: i64,
    lat_offset: i64,
    lon_offset: i64,
    admits: spec_fn(Seq<char>) -> bool,
    i: int,
    out: osm_node,
) -> bool {
    let n = dense.id@.len();
    &&& out.id as int == undelta(dense.id@)[i]
    &&& out.lat_nano == coordinate(lat_offset, granularity, undelta(padded(dense.lat@, n))[i])
    &&& out.lon_nano == coordinate(lon_offset, granularity, undelta(padded(dense.lon@, n))[i])
    &&& tags_view(out.tags@) == collect_tags(
        section_tags(dense.keys_vals@, node_start(dense.keys_vals@, i as nat), table, admits),
    )
}

proof fn lemma_section_step(kv: Seq<i32>, p: nat, table: Seq<Seq<char>>, admits: spec_fn(Seq<char>) -> bool)
    requires
        p < kv.len(),
        kv[p as int] != 0,
    ensures
        section_end(kv, p) == section_end(kv, p + 2),
        section_tags(kv, p, table, admits) == if admits(table_text(table, kv[p as int] as int)) {
            seq![(table_text(table, kv[p as int] as int), table_text(table, kv_at(kv, (p + 1) as int) as int))]
                + section_tags(kv, p + 2, table, admits)
        } else {
            section_tags(kv, p + 2, table, admits)
        },
{
}

/// The text at `idx` of the string table, or empty text outside it.
fn table_str<'a>(strings: &[&'a str], idx: i32) -> (s: &'a str)
    ensures
        s@ == table_text(table_view(strings@), idx as int),
{
    if idx >= 0 && (idx as usize) < strings.len() {
        strings[idx as usize]
    } else {
        proof {
            reveal_strlit("");
        }
        ""
    }
}

/// Reads the tag section that starts at `*pos`, leaving `*pos` one past its terminator.
fn read_section(kv: &Vec<i32>, pos: &mut usize, strings: &[&str], opts: &data_opts) -> (tags: Vec<
    (String, String),
>)
    requires
        *old(pos) <= kv@.len(),
    ensures
        *final(pos) == section_end(kv@, *old(pos) as nat),
        *final(pos) <= kv@.len(),
        tags_view(tags@) == collect_tags(
            section_tags(kv@, *old(pos) as nat, table_view(strings@), |k: Seq<char>| opts.admits(k)),
        ),
{
    let ghost table = table_view(strings@);
    let ghost admits = |k: Seq<char>| opts.admits(k);
    let ghost start = *pos as nat;
    let ghost mut acc: Seq<tag_text> = seq![];
    let mut tags: Vec<(String, String)> = Vec::new();
    let mut done = false;
    while !done
        invariant
            table == table_view(strings@),
            admits == (|k: Seq<char>| opts.admits(k)),
            tags_view(tags@) == collect_tags(acc),
            done ==> *pos == section_end(kv@, start) && acc == section_tags(kv@, start, table, admits),
            *pos <= kv@.len(),
            !done ==> section_end(kv@, *pos as nat) == section_end(kv@, start)
                && acc + section_tags(kv@, *pos as nat, table, admits) == section_tags(kv@, start, table, admits),
        decreases kv@.len() + 2 - *pos, if done { 0int } else { 1int },
    {
        let p = *pos;
        let k_raw: i32 = if p < kv.len() {
            kv[p]
        } else {
            0
        };
        if p < kv.len() {
            *pos = p + 1;
        }
        if k_raw == 0 {
            assert(section_tags(kv@, p as nat, table, admits) =~= Seq::<tag_text>::empty());
            assert(acc =~= acc + Seq::<tag_text>::empty());
            done = true;
        } else {
            proof {
                lemma_section_step(kv@, p as nat, table, admits);
            }
            let v_raw: i32 = if p + 1 < kv.len() {
                kv[p + 1]
            } else {
                0
            };
            if p + 1 < kv.len() {
                *pos = p + 2;
            } else {
                *pos = kv.len();
            }
            let k = table_str(strings, k_raw);
            let v = table_str(strings, v_raw);
            if tag_passes(k, opts) {
                insert_tag_into(&mut tags, k, v);
                proof {
                    let old_acc = acc;
                    acc = acc.push((k@, v@));
                    assert(acc.drop_last() =~= old_acc);
                    assert(old_acc + seq![(k@, v@)] + section_tags(kv@, (p + 2) as nat, table, admits)
                        =~= acc + section_tags(kv@, (p + 2) as nat, table, admits));
                }
            }
        }
    }
    tags
}

fn lookup_or_zero(s: &Vec<i64>, i: usize) -> (v: i64)
    ensures
        v == if i < s@.len() { s@[i as int] } else { 0 },
{
    if i < s.len() {
        s[i]
    } else {
        0
    }
}

/// Decodes a dense node group: ids and coordinates are running sums (a missing coordinate
/// delta reads as 0), and each node's tags are the next 0-terminated run of `keys_vals`.
pub fn decode_dense_nodes(
    dense: &dense_nodes_msg,
    strings: &[&str],
    granularity: i64,
    lat_offset: i64,
    lon_offset: i64,
    _date_granularity: i64,
    opts: &data_opts,
) -> (out: Vec<osm_node>)
    requires
        dense_fits(*dense, granularity, lat_offset, lon_offset),
    ensures
        out@.len() == dense.id@.len(),
        forall|i: int|
            0 <= i < dense.id@.len() ==> dense_node_decodes_to(
                *dense,
                table_view(strings@),
                granularity,
                lat_offset,
                lon_offset,
                |k: Seq<char>| opts.admits(k),
                i,
                #[trigger] out@[i],
            ),
{
    let ghost table = table_view(strings@);
    let ghost admits = |k: Seq<char>| opts.admits(k);
    let n = dense.id.len();
    let ghost lats = padded(dense.lat@, n as nat);
    let ghost lons = padded(dense.lon@, n as nat);
    let mut out: Vec<osm_node> = Vec::new();
    let mut id_acc: i64 = 0;
    let mut lat_acc: i64 = 0;
    let mut lon_acc: i64 = 0;
    let mut kv_pos: usize = 0;
    let mut i: usize = 0;
    while i < n
        invariant
            n == dense.id@.len(),
            i <= n,
            table == table_view(strings@),
            admits == (|k: Seq<char>| opts.admits(k)),
            lats == padded(dense.lat@, n as nat),
            lons == padded(dense.lon@, n as nat),
            dense_fits(*dense, granularity, lat_offset, lon_offset),
            id_acc == prefix_sum(dense.id@, i as nat),
            lat_acc == prefix_sum(lats, i as nat),
            lon_acc == prefix_sum(lons, i as nat),
            kv_pos == node_start(dense.keys_vals@, i as nat),
            kv_pos <= dense.keys_vals@.len(),
            out@.len() == i,
            forall|j: int|
                0 <= j < i ==> dense_node_decodes_to(
                    *dense,
                    table,
                    granularity,
                    lat_offset,
                    lon_offset,
                    admits,
                    j,
                    #[trigger] out@[j],
                ),
        decreases n - i,
    {
        assert(i64::MIN <= prefix_sum(dense.id@, (i + 1) as nat) <= i64::MAX);
        assert(i64::MIN <= prefix_sum(lats, (i + 1) as nat) <= i64::MAX);
        assert(i64::MIN <= prefix_sum(lons, (i + 1) as nat) <= i64::MAX);
        id_acc = id_acc + dense.id[i];
        lat_acc = lat_acc + lookup_or_zero(&dense.lat, i);
        lon_acc = lon_acc + lookup_or_zero(&dense.lon, i);
        assert(undelta(lats)[i as int] == lat_acc);
        assert(undelta(lons)[i as int] == lon_acc);
        assert(coordinate_fits(lat_offset, granularity, undelta(lats)[i as int]));
        let lat = coordinate_of(lat_offset, granularity, lat_acc);
        let lon = coordinate_of(lon_offset, granularity, lon_acc);
        let tags = read_section(&dense.keys_vals, &mut kv_pos, strings, opts);
        proof {
            assert(kv_pos == node_start(dense.keys_vals@, (i + 1) as nat));
        }
        out.push(osm_node { id: id_acc, lat_nano: lat, lon_nano: lon, tags });
        i = i + 1;
    }
    out
}

} // verus!
