// the hierarchy pass: each admin level learns its ancestors and a readable name that chains them.
use vstd::prelude::*;
use crate::text::{decimal_chars, joined, push_decimal, trim, trimmed};

verus! {

/// Progress of the hierarchy pass: entries resolved so far out of all.
pub struct progress_report {
    pub total: Option<u64>,
    pub processed: u64,
}

/// `base`, followed by `, ` and the postal code when one is given and not blank (trimmed).
pub open spec fn with_postcode_text(base: Seq<char>, own_post_code: Option<Seq<char>>) -> Seq<char> {
    match own_post_code {
        Some(pc) => if trimmed(pc).len() > 0 {
            base + ", "@ + trimmed(pc)
        } else {
            base
        },
        None => base,
    }
}

/// Appends the postal code, trimmed, to a readable name: `<base>, <post code>`; a missing or
/// blank code leaves the name as it is.
pub fn with_postcode(base: &str, own_post_code: Option<&str>) -> (r: String)
    ensures
        r@ == with_postcode_text(
            base@,
            match own_post_code {
                Some(p) => Some(p@),
                None => None,
            },
        ),
{
    let mut r = base.to_owned();
    match own_post_code {
        Some(pc) => {
            let t = trim(pc);
            if t.unicode_len() > 0 {
                r.append(", ");
                r.append(t);
            }
        },
        None => {},
    }
    r
}

/// An admin level as the hierarchy pass reads and fills it. `area_rank` orders the entries by
/// the area of their geometry: a larger area has a larger rank, equal areas an equal rank.
pub struct hierarchy_entry {
    pub id: i64,
    pub admin_level: u8,
    pub area_rank: u64,
    pub name: String,
    pub own_post_code: Option<String>,
    pub ancestor_ids: Vec<i64>,
    pub user_friendly_name: String,
}

/// A hierarchy entry, its text as character sequences.
pub struct entry_spec {
    pub id: i64,
    pub admin_level: u8,
    pub area_rank: u64,
    pub name: Seq<char>,
    pub own_post_code: Option<Seq<char>>,
    pub ancestor_ids: Seq<i64>,
    pub user_friendly_name: Seq<char>,
}

pub open spec fn opt_view(o: Option<String>) -> Option<Seq<char>> {
    match o {
        Some(s) => Some(s@),
        None => None,
    }
}

pub open spec fn entry_view(e: hierarchy_entry) -> entry_spec {
    entry_spec {
        id: e.id,
        admin_level: e.admin_level,
        area_rank: e.area_rank,
        name: e.name@,
        own_post_code: opt_view(e.own_post_code),
        ancestor_ids: e.ancestor_ids@,
        user_friendly_name: e.user_friendly_name@,
    }
}

pub open spec fn entries_view(v: Seq<hierarchy_entry>) -> Seq<entry_spec> {
    v.map_values(|e: hierarchy_entry| entry_view(e))
}

fn copy_opt(o: &Option<String>) -> (r: Option<String>)
    ensures
        opt_view(r) == opt_view(*o),
{
    match o {
        Some(s) => Some(s.clone()),
        None => None,
    }
}

/// A fresh entry: no ancestors yet, and a readable name that is its own name with its postal
/// code.
pub fn new_entry(id: i64, admin_level: u8, area_rank: u64, name: &str, own_post_code: Option<&str>) -> (e:
    hierarchy_entry)
    ensures
        entry_view(e) == (entry_spec {
            id,
            admin_level,
            area_rank,
            name: name@,
            own_post_code: match own_post_code {
                Some(p) => Some(p@),
                None => None,
            },
            ancestor_ids: seq![],
            user_friendly_name: with_postcode_text(
                name@,
                match own_post_code {
                    Some(p) => Some(p@),
                    None => None,
                },
            ),
        }),
{
    let user_friendly_name = with_postcode(name, own_post_code);
    let pc = match own_post_code {
        Some(p) => Some(p.to_owned()),
        None => None,
    };
    let e = hierarchy_entry {
        id,
        admin_level,
        area_rank,
        name: name.to_owned(),
        own_post_code: pc,
        ancestor_ids: Vec::new(),
        user_friendly_name,
    };
    assert(entry_view(e).ancestor_ids =~= Seq::<i64>::empty());
    e
}

/// Whether entry `c` may be an ancestor of the entry `id` at `level` with area rank `rank`: it
/// is another entry, at the same level or above (a smaller number), and at the same level only
/// when its area is larger.
pub open spec fn may_be_ancestor(c: entry_spec, id: i64, level: u8, rank: u64) -> bool {
    &&& c.id != id
    &&& c.admin_level <= level
    &&& !(c.admin_level == level && c.area_rank <= rank)
}

/// The hits that may be ancestors and sit at `at_level`, in hit order.
pub open spec fn hits_at_level(
    entries: Seq<entry_spec>,
    hits: Seq<usize>,
    id: i64,
    level: u8,
    rank: u64,
    at_level: u8,
) -> Seq<usize>
    decreases hits.len(),
{
    if hits.len() == 0 {
        seq![]
    } else {
        let prev = hits_at_level(entries, hits.drop_last(), id, level, rank, at_level);
        let c = entries[hits.last() as int];
        if may_be_ancestor(c, id, level, rank) && c.admin_level == at_level {
            prev.push(hits.last())
        } else {
            prev
        }
    }
}

/// The candidate ancestors among the hits, grouped by level from `from` down to 0, leaving out
/// levels without any.
pub open spec fn candidate_groups(
    entries: Seq<entry_spec>,
    hits: Seq<usize>,
    id: i64,
    level: u8,
    rank: u64,
    from: int,
) -> Seq<(u8, Seq<usize>)>
    decreases from + 1,
{
    if from < 0 {
        seq![]
    } else {
        let g = hits_at_level(entries, hits, id, level, rank, from as u8);
        let rest = candidate_groups(entries, hits, id, level, rank, from - 1);
        if g.len() > 0 {
            seq![(from as u8, g)] + rest
        } else {
            rest
        }
    }
}

fn group_at_level(
    entries: &Vec<hierarchy_entry>,
    hits: &Vec<usize>,
    id: i64,
    level: u8,
    rank: u64,
    at_level: u8,
) -> (g: Vec<usize>)
    requires
        forall|k: int| 0 <= k < hits@.len() ==> (#[trigger] hits@[k]) < entries@.len(),
    ensures
        g@ == hits_at_level(entries_view(entries@), hits@, id, level, rank, at_level),
{
    let ghost ev = entries_view(entries@);
    let mut g: Vec<usize> = Vec::new();
    let mut k: usize = 0;
    while k < hits.len()
        invariant
            k <= hits@.len(),
            ev == entries_view(entries@),
            forall|j: int| 0 <= j < hits@.len() ==> (#[trigger] hits@[j]) < entries@.len(),
            g@ == hits_at_level(ev, hits@.subrange(0, k as int), id, level, rank, at_level),
        decreases hits@.len() - k,
    {
        let h = hits[k];
        let c = &entries[h];
        proof {
            assert(hits@.subrange(0, k + 1).drop_last() =~= hits@.subrange(0, k as int));
            assert(ev[h as int] == entry_view(*c));
        }
        if c.id != id && c.admin_level <= level && !(c.admin_level == level && c.area_rank <= rank)
            && c.admin_level == at_level {
            g.push(h);
        }
        k = k + 1;
    }
    assert(hits@.subrange(0, k as int) =~= hits@);
    g
}

/// The candidate ancestors of the entry `id` at `level` with area rank `rank` among the entries
/// whose boxes hold its centre (`hits`): those that may be ancestors, grouped by level from its
/// own level up to the top, the closest level first, each group in hit order.
pub fn candidate_levels(
    entries: &Vec<hierarchy_entry>,
    hits: &Vec<usize>,
    id: i64,
    level: u8,
    rank: u64,
) -> (groups: Vec<(u8, Vec<usize>)>)
    requires
        forall|k: int| 0 <= k < hits@.len() ==> (#[trigger] hits@[k]) < entries@.len(),
    ensures
        groups@.map_values(|g: (u8, Vec<usize>)| (g.0, g.1@)) == candidate_groups(
            entries_view(entries@),
            hits@,
            id,
            level,
            rank,
            level as int,
        ),
{
    let ghost ev = entries_view(entries@);
    let mut groups: Vec<(u8, Vec<usize>)> = Vec::new();
    let mut next: u16 = level as u16 + 1;
    assert(groups@.map_values(|g: (u8, Vec<usize>)| (g.0, g.1@)) =~= Seq::<(u8, Seq<usize>)>::empty());
    while next > 0
        invariant
            ev == entries_view(entries@),
            forall|k: int| 0 <= k < hits@.len() ==> (#[trigger] hits@[k]) < entries@.len(),
            next <= level as u16 + 1,
            groups@.map_values(|g: (u8, Vec<usize>)| (g.0, g.1@)) + candidate_groups(
                ev,
                hits@,
                id,
                level,
                rank,
                next - 1,
            ) == candidate_groups(ev, hits@, id, level, rank, level as int),
        decreases next,
    {
        let l: u8 = (next - 1) as u8;
        let g = group_at_level(entries, hits, id, level, rank, l);
        let ghost before = groups@.map_values(|x: (u8, Vec<usize>)| (x.0, x.1@));
        let ghost gv = g@;
        if g.len() > 0 {
            groups.push((l, g));
            assert(groups@.map_values(|x: (u8, Vec<usize>)| (x.0, x.1@)) =~= before.push((l, gv)));
            assert(before.push((l, gv)) + candidate_groups(ev, hits@, id, level, rank, l - 1)
                =~= before + candidate_groups(ev, hits@, id, level, rank, l as int));
        }
        next = l as u16;
    }
    assert(candidate_groups(ev, hits@, id, level, rank, -1) =~= Seq::<(u8, Seq<usize>)>::empty());
    assert(groups@.map_values(|g: (u8, Vec<usize>)| (g.0, g.1@)) =~= candidate_groups(
        ev,
        hits@,
        id,
        level,
        rank,
        level as int,
    ));
    groups
}

/// `p` is the member of `group` that holds the point with the smallest area, the first one on a
/// tie; `contains[k]` says whether `group[k]` holds it.
pub open spec fn is_smallest_containing(
    entries: Seq<entry_spec>,
    group: Seq<usize>,
    contains: Seq<bool>,
    p: usize,
) -> bool {
    exists|k: int|
        0 <= k < group.len() && group[k] == p && contains[k] && (forall|j: int|
            0 <= j < group.len() && contains[j] ==> entries[group[j] as int].area_rank
                >= entries[p as int].area_rank) && (forall|j: int|
            0 <= j < k && contains[j] ==> entries[group[j] as int].area_rank
                > entries[p as int].area_rank)
}

/// The parent among one level's candidates: the smallest one that holds the point, the first
/// one on a tie; none when no candidate holds it.
pub fn pick_parent(entries: &Vec<hierarchy_entry>, group: &Vec<usize>, contains: &Vec<bool>) -> (p:
    Option<usize>)
    requires
        contains@.len() == group@.len(),
        forall|k: int| 0 <= k < group@.len() ==> (#[trigger] group@[k]) < entries@.len(),
    ensures
        p is None <==> forall|k: int| 0 <= k < contains@.len() ==> !#[trigger] contains@[k],
        p matches Some(i) ==> is_smallest_containing(entries_view(entries@), group@, contains@, i),
{
    let ghost ev = entries_view(entries@);
    let mut best: Option<usize> = None;
    let ghost mut best_k: int = 0;
    let mut k: usize = 0;
    while k < group.len()
        invariant
            k <= group@.len(),
            contains@.len() == group@.len(),
            ev == entries_view(entries@),
            forall|j: int| 0 <= j < group@.len() ==> (#[trigger] group@[j]) < entries@.len(),
            best is None ==> forall|j: int| 0 <= j < k ==> !#[trigger] contains@[j],
            best matches Some(b) ==> {
                &&& 0 <= best_k < k
                &&& group@[best_k] == b
                &&& contains@[best_k]
                &&& forall|j: int|
                    0 <= j < k && contains@[j] ==> ev[group@[j] as int].area_rank >= ev[b as int].area_rank
                &&& forall|j: int|
                    0 <= j < best_k && contains@[j] ==> ev[group@[j] as int].area_rank
                        > ev[b as int].area_rank
            },
        decreases group@.len() - k,
    {
        let c = group[k];
        if contains[k] {
            let better = match best {
                None => true,
                Some(b) => entries[c].area_rank < entries[b].area_rank,
            };
            proof {
                assert(ev[c as int] == entry_view(entries@[c as int]));
                if best is Some {
                    assert(ev[best->0 as int] == entry_view(entries@[best->0 as int]));
                }
            }
            if better {
                best = Some(c);
                proof {
                    best_k = k as int;
                }
            }
        }
        k = k + 1;
    }
    proof {
        if best is Some {
            assert(is_smallest_containing(ev, group@, contains@, best->0)) by {
                assert(group@[best_k] == best->0);
            }
        }
    }
    best
}

/// The ancestors and readable name an entry gets from its parent: the parent then the parent's
/// ancestors, and `<name>, <parent's readable name>` with the entry's postal code; without a
/// parent, no ancestors and its own name with its postal code.
pub open spec fn linked(name: Seq<char>, own_post_code: Option<Seq<char>>, parent: Option<entry_spec>) -> (
    Seq<i64>,
    Seq<char>,
) {
    match parent {
        None => (seq![], with_postcode_text(name, own_post_code)),
        Some(p) => (
            seq![p.id] + p.ancestor_ids,
            with_postcode_text(name + ", "@ + p.user_friendly_name, own_post_code),
        ),
    }
}

/// The ancestors and readable name of an entry named `name` whose parent, if any, is
/// `entries[parent]`.
pub fn link_to_parent(
    entries: &Vec<hierarchy_entry>,
    name: &str,
    own_post_code: Option<&str>,
    parent: Option<usize>,
) -> (r: (Vec<i64>, String))
    requires
        parent matches Some(p) ==> p < entries@.len(),
    ensures
        (r.0@, r.1@) == linked(
            name@,
            match own_post_code {
                Some(p) => Some(p@),
                None => None,
            },
            match parent {
                Some(p) => Some(entry_view(entries@[p as int])),
                None => None,
            },
        ),
{
    match parent {
        None => (Vec::new(), with_postcode(name, own_post_code)),
        Some(p) => {
            let e = &entries[p];
            let mut ids: Vec<i64> = Vec::new();
            ids.push(e.id);
            let mut i: usize = 0;
            while i < e.ancestor_ids.len()
                invariant
                    i <= e.ancestor_ids@.len(),
                    ids@ == seq![e.id] + e.ancestor_ids@.subrange(0, i as int),
                decreases e.ancestor_ids@.len() - i,
            {
                ids.push(e.ancestor_ids[i]);
                i = i + 1;
                assert(ids@ =~= seq![e.id] + e.ancestor_ids@.subrange(0, i as int));
            }
            assert(e.ancestor_ids@.subrange(0, i as int) =~= e.ancestor_ids@);
            let mut base = name.to_owned();
            base.append(", ");
            base.append(e.user_friendly_name.as_str());
            let ufn = with_postcode(base.as_str(), own_post_code);
            (ids, ufn)
        },
    }
}

/// The position of the first entry with id `id`, if any.
pub open spec fn first_with_id(es: Seq<entry_spec>, id: i64) -> Option<int>
    decreases es.len(),
{
    if es.len() == 0 {
        None
    } else {
        match first_with_id(es.drop_last(), id) {
            Some(k) => Some(k),
            None => if es.last().id == id {
                Some(es.len() - 1)
            } else {
                None
            },
        }
    }
}

proof fn lemma_first_with_id(es: Seq<entry_spec>, id: i64)
    ensures
        first_with_id(es, id) matches Some(k) ==> 0 <= k < es.len() && es[k].id == id && forall|j: int|
            0 <= j < k ==> es[j].id != id,
        first_with_id(es, id) is None ==> forall|j: int| 0 <= j < es.len() ==> es[j].id != id,
    decreases es.len(),
{
    if es.len() > 0 {
        lemma_first_with_id(es.drop_last(), id);
        assert forall|j: int| 0 <= j < es.len() - 1 implies es[j] == es.drop_last()[j] by {}
    }
}

/// Entry `idx` linked again to the current state of its first ancestor: the ancestor then the
/// ancestor's ancestors, and its name followed by the ancestor's readable name, with its postal
/// code. An entry without ancestors, or whose first ancestor is not among the entries, stays.
pub open spec fn relink_step(es: Seq<entry_spec>, idx: int) -> Seq<entry_spec> {
    let e = es[idx];
    if e.ancestor_ids.len() == 0 {
        es
    } else {
        match first_with_id(es, e.ancestor_ids[0]) {
            None => es,
            Some(p) => es.update(
                idx,
                entry_spec {
                    ancestor_ids: seq![e.ancestor_ids[0]] + es[p].ancestor_ids,
                    user_friendly_name: with_postcode_text(
                        e.name + ", "@ + es[p].user_friendly_name,
                        e.own_post_code,
                    ),
                    ..e
                },
            ),
        }
    }
}

/// The entries after relinking those at `indices`, one after the other.
pub open spec fn relinked(es: Seq<entry_spec>, indices: Seq<usize>) -> Seq<entry_spec>
    decreases indices.len(),
{
    if indices.len() == 0 {
        es
    } else {
        relink_step(relinked(es, indices.drop_last()), indices.last() as int)
    }
}

/// Relinking an entry gives it exactly what linking it to its first ancestor gives: that
/// ancestor then the ancestor's ancestors, and `<name>, <ancestor's readable name>` closed by the
/// entry's own postal code when it has a non-blank one. Nothing else changes: not the entry's
/// other fields, not the other entries.
pub proof fn lemma_relink_is_link(es: Seq<entry_spec>, idx: int)
    requires
        0 <= idx < es.len(),
    ensures
        relink_step(es, idx).len() == es.len(),
        forall|j: int| 0 <= j < es.len() && j != idx ==> #[trigger] relink_step(es, idx)[j] == es[j],
        relink_step(es, idx)[idx].id == es[idx].id,
        relink_step(es, idx)[idx].name == es[idx].name,
        relink_step(es, idx)[idx].own_post_code == es[idx].own_post_code,
        relink_step(es, idx)[idx].admin_level == es[idx].admin_level,
        relink_step(es, idx)[idx].area_rank == es[idx].area_rank,
        es[idx].ancestor_ids.len() > 0 ==> match first_with_id(es, es[idx].ancestor_ids[0]) {
            Some(p) => {
                &&& 0 <= p < es.len()
                &&& es[p].id == es[idx].ancestor_ids[0]
                &&& (relink_step(es, idx)[idx].ancestor_ids, relink_step(es, idx)[idx].user_friendly_name)
                    == linked(es[idx].name, es[idx].own_post_code, Some(es[p]))
                &&& (es[idx].own_post_code is Some && trimmed(es[idx].own_post_code->0).len() > 0
                    ==> relink_step(es, idx)[idx].user_friendly_name == es[idx].name + ", "@
                    + es[p].user_friendly_name + ", "@ + trimmed(es[idx].own_post_code->0))
            },
            None => relink_step(es, idx)[idx] == es[idx],
        },
        es[idx].ancestor_ids.len() == 0 ==> relink_step(es, idx) == es,
{
    if es[idx].ancestor_ids.len() > 0 {
        lemma_first_with_id(es, es[idx].ancestor_ids[0]);
    }
}

/// The number of entries never changes under relinking.
proof fn lemma_relinked_len(es: Seq<entry_spec>, indices: Seq<usize>)
    requires
        forall|k: int| 0 <= k < indices.len() ==> (#[trigger] indices[k] as int) < es.len(),
    ensures
        relinked(es, indices).len() == es.len(),
    decreases indices.len(),
{
    if indices.len() > 0 {
        lemma_relinked_len(es, indices.drop_last());
    }
}

/// After relinking the entries at `indices`, the last of them holds what linking it to its first
/// ancestor, as the entries stood just before, gives; so its readable name chains the
/// ancestor's and keeps its own postal code.
pub proof fn lemma_relinked_entry_links_to_parent(es: Seq<entry_spec>, indices: Seq<usize>)
    requires
        indices.len() > 0,
        forall|k: int| 0 <= k < indices.len() ==> (#[trigger] indices[k] as int) < es.len(),
    ensures
        ({
            let before = relinked(es, indices.drop_last());
            let idx = indices.last() as int;
            let after = relinked(es, indices);
            before[idx].ancestor_ids.len() > 0 ==> match first_with_id(before, before[idx].ancestor_ids[0]) {
                Some(p) => (after[idx].ancestor_ids, after[idx].user_friendly_name) == linked(
                    before[idx].name,
                    before[idx].own_post_code,
                    Some(before[p]),
                ),
                None => after[idx] == before[idx],
            }
        }),
{
    let rest = indices.drop_last();
    assert forall|k: int| 0 <= k < rest.len() implies (#[trigger] rest[k] as int) < es.len() by {
        assert(rest[k] == indices[k]);
    }
    lemma_relinked_len(es, rest);
    lemma_relink_is_link(relinked(es, rest), indices.last() as int);
}

fn position_of_id(entries: &Vec<hierarchy_entry>, id: i64) -> (r: Option<usize>)
    ensures
        r matches Some(k) ==> k < entries@.len() && first_with_id(entries_view(entries@), id) == Some(
            k as int,
        ),
        r is None ==> first_with_id(entries_view(entries@), id) is None,
{
    let ghost ev = entries_view(entries@);
    proof {
        lemma_first_with_id(ev, id);
    }
    assert(ev.len() == entries@.len());
    let mut k: usize = 0;
    while k < entries.len()
        invariant
            k <= entries@.len(),
            ev == entries_view(entries@),
            forall|j: int| 0 <= j < k ==> ev[j].id != id,
        decreases entries@.len() - k,
    {
        if entries[k].id == id {
            assert(ev[k as int].id == id);
            proof {
                lemma_first_with_id(ev, id);
                if first_with_id(ev, id) is Some {
                    let k2 = first_with_id(ev, id)->0;
                    assert(k2 == k);
                }
            }
            return Some(k);
        }
        assert(ev[k as int].id == entries@[k as int].id);
        k = k + 1;
    }
    proof {
        lemma_first_with_id(ev, id);
    }
    None
}

/// Relinks the entries at `indices`, in order, each to the state its first ancestor has by
/// then. Entries of one level are resolved side by side from the state before the level, so a
/// chain between entries of the same level comes out cut short; going over the level's entries
/// from the largest area down carries each chain through.
pub fn relink_peers(entries: &mut Vec<hierarchy_entry>, indices: &Vec<usize>)
    requires
        forall|k: int| 0 <= k < indices@.len() ==> (#[trigger] indices@[k]) < old(entries)@.len(),
    ensures
        entries_view(final(entries)@) == relinked(entries_view(old(entries)@), indices@),
{
    let ghost start = entries_view(entries@);
    let mut i: usize = 0;
    while i < indices.len()
        invariant
            i <= indices@.len(),
            entries@.len() == old(entries)@.len(),
            start == entries_view(old(entries)@),
            forall|k: int| 0 <= k < indices@.len() ==> (#[trigger] indices@[k]) < entries@.len(),
            entries_view(entries@) == relinked(start, indices@.subrange(0, i as int)),
        decreases indices@.len() - i,
    {
        let idx = indices[i];
        let ghost es = entries_view(entries@);
        assert(es.len() == entries@.len());
        proof {
            assert(indices@.subrange(0, i + 1).drop_last() =~= indices@.subrange(0, i as int));
            assert(es[idx as int] == entry_view(entries@[idx as int]));
        }
        if entries[idx].ancestor_ids.len() > 0 {
            let parent_id = entries[idx].ancestor_ids[0];
            match position_of_id(entries, parent_id) {
                Some(p) => {
                    let (ids, ufn) = {
                        let e = &entries[idx];
                        let pe = &entries[p];
                        let mut ids: Vec<i64> = Vec::new();
                        ids.push(parent_id);
                        let mut j: usize = 0;
                        while j < pe.ancestor_ids.len()
                            invariant
                                j <= pe.ancestor_ids@.len(),
                                ids@ == seq![parent_id] + pe.ancestor_ids@.subrange(0, j as int),
                            decreases pe.ancestor_ids@.len() - j,
                        {
                            ids.push(pe.ancestor_ids[j]);
                            j = j + 1;
                            assert(ids@ =~= seq![parent_id] + pe.ancestor_ids@.subrange(
                                0,
                                j as int,
                            ));
                        }
                        assert(pe.ancestor_ids@.subrange(0, j as int) =~= pe.ancestor_ids@);
                        let mut base = e.name.clone();
                        base.append(", ");
                        base.append(pe.user_friendly_name.as_str());
                        let pc: Option<&str> = match &e.own_post_code {
                            Some(s) => Some(s.as_str()),
                            None => None,
                        };
                        let ufn = with_postcode(base.as_str(), pc);
                        proof {
                            assert(es[p as int] == entry_view(*pe));
                            assert(match pc {
                                Some(x) => Some(x@),
                                None => None,
                            } == opt_view(e.own_post_code));
                        }
                        (ids, ufn)
                    };
                    let new_e = hierarchy_entry {
                        id: entries[idx].id,
                        admin_level: entries[idx].admin_level,
                        area_rank: entries[idx].area_rank,
                        name: entries[idx].name.clone(),
                        own_post_code: copy_opt(&entries[idx].own_post_code),
                        ancestor_ids: ids,
                        user_friendly_name: ufn,
                    };
                    let ghost nv = entry_view(new_e);
                    entries.set(idx, new_e);
                    proof {
                        assert(entries_view(entries@) =~= es.update(idx as int, nv));
                    }
                },
                None => {},
            }
        }
        i = i + 1;
    }
    assert(indices@.subrange(0, i as int) =~= indices@);
}

/// The JSON array text of a list of ids, as `serde_json::to_string` writes it: `[1,2,3]`.
pub open spec fn ids_json_text(ids: Seq<i64>) -> Seq<char> {
    "["@ + joined(ids.map_values(|n: i64| decimal_chars(n as int)), ","@) + "]"@
}

/// The ids as a JSON array text, the way the hierarchy table stores them.
pub fn ids_to_json(ids: &Vec<i64>) -> (r: String)
    ensures
        r@ == ids_json_text(ids@),
{
    let mut r = "[".to_owned();
    let ghost parts = ids@.map_values(|n: i64| decimal_chars(n as int));
    let mut i: usize = 0;
    while i < ids.len()
        invariant
            i <= ids@.len(),
            parts == ids@.map_values(|n: i64| decimal_chars(n as int)),
            r@ == "["@ + joined(parts.subrange(0, i as int), ","@),
        decreases ids@.len() - i,
    {
        if i > 0 {
            r.append(",");
        }
        push_decimal(&mut r, ids[i]);
        proof {
            let p = parts.subrange(0, i + 1);
            assert(p.drop_last() =~= parts.subrange(0, i as int));
            if i == 0 {
                assert(joined(parts.subrange(0, 0), ","@) =~= Seq::<char>::empty());
            }
        }
        i = i + 1;
        assert(r@ =~= "["@ + joined(parts.subrange(0, i as int), ","@));
    }
    assert(parts.subrange(0, i as int) =~= parts);
    r.append("]");
    r
}

/// How many entries each worker takes: `len` split over `n_workers` rounded up, and at least
/// one. So many chunks of that size cover all entries with no more chunks than workers.
pub fn worker_chunk_size(len: usize, n_workers: usize) -> (c: usize)
    requires
        n_workers >= 1,
    ensures
        c == if len == 0 {
            1
        } else {
            (len + n_workers - 1) / (n_workers as int)
        },
        c >= 1,
        c * n_workers >= len,
        len > 0 ==> (c - 1) * n_workers < len,
{
    let q = len / n_workers;
    let rem = len % n_workers;
    proof {
        let n = n_workers as int;
        let l = len as int;
        assert(l == n * q + rem) by (nonlinear_arith)
            requires
                n >= 1,
                q == l / n,
                rem == l % n,
        ;
        assert(0 <= rem < n) by (nonlinear_arith)
            requires
                n >= 1,
                rem == l % n,
        ;
        if rem != 0 {
            assert(q < usize::MAX) by (nonlinear_arith)
                requires
                    n >= 2,
                    l == n * q + rem,
                    l <= usize::MAX,
                    q >= 0,
            ;
        }
    }
    let c = if rem == 0 {
        q
    } else {
        q + 1
    };
    proof {
        let n = n_workers as int;
        let l = len as int;
        if rem == 0 {
            assert((l + n - 1) / n == q) by (nonlinear_arith)
                requires
                    n >= 1,
                    l == n * q,
            ;
        } else {
            assert((l + n - 1) / n == q + 1) by (nonlinear_arith)
                requires
                    n >= 1,
                    l == n * q + rem,
                    0 < rem < n,
            ;
        }
        assert(c * n >= l) by (nonlinear_arith)
            requires
                n >= 1,
                l == n * q + rem,
                0 <= rem < n,
                c == if rem == 0 {
                    q as int
                } else {
                    q + 1
                },
        ;
        assert(l > 0 ==> (c - 1) * n < l && c >= 1) by (nonlinear_arith)
            requires
                n >= 1,
                l == n * q + rem,
                0 <= rem < n,
                c == if rem == 0 {
                    q as int
                } else {
                    q + 1
                },
        ;
    }
    if c == 0 {
        1
    } else {
        c
    }
}

/// Entry `a` comes before entry `b` within a level: a larger area first, the earlier entry first
/// on equal areas.
pub open spec fn before(es: Seq<entry_spec>, a: usize, b: usize) -> bool {
    ||| es[a as int].area_rank > es[b as int].area_rank
    ||| (es[a as int].area_rank == es[b as int].area_rank && a < b)
}

/// The entries `g` are in `before` order.
pub open spec fn ordered(es: Seq<entry_spec>, g: Seq<usize>) -> bool {
    forall|i: int, j: int| 0 <= i < j < g.len() ==> before(es, #[trigger] g[i], #[trigger] g[j])
}

/// Every member of `g` is an entry.
pub open spec fn members_in(g: Seq<usize>, n: nat) -> bool {
    forall|k: int| 0 <= k < g.len() ==> (#[trigger] g[k]) < n
}

fn merge_by_area(es: &Vec<hierarchy_entry>, a: Vec<usize>, b: Vec<usize>) -> (r: Vec<usize>)
    requires
        ordered(entries_view(es@), a@),
        ordered(entries_view(es@), b@),
        members_in(a@, es@.len()),
        members_in(b@, es@.len()),
        forall|x: usize| !(a@.contains(x) && b@.contains(x)),
    ensures
        ordered(entries_view(es@), r@),
        members_in(r@, es@.len()),
        r@.len() == a@.len() + b@.len(),
        forall|x: usize| r@.contains(x) <==> (a@.contains(x) || b@.contains(x)),
{
    let ghost ev = entries_view(es@);
    assert(ev.len() == es@.len());
    let mut r: Vec<usize> = Vec::new();
    let mut i: usize = 0;
    let mut j: usize = 0;
    while i < a.len() || j < b.len()
        invariant
            ev == entries_view(es@),
            ev.len() == es@.len(),
            ordered(ev, a@),
            ordered(ev, b@),
            members_in(a@, es@.len()),
            members_in(b@, es@.len()),
            forall|x: usize| !(a@.contains(x) && b@.contains(x)),
            i <= a@.len(),
            j <= b@.len(),
            r@.len() == i + j,
            ordered(ev, r@),
            members_in(r@, es@.len()),
            forall|x: usize|
                r@.contains(x) <==> (a@.subrange(0, i as int).contains(x) || b@.subrange(
                    0,
                    j as int,
                ).contains(x)),
            forall|k: int, t: int|
                0 <= k < r@.len() && i <= t < a@.len() ==> before(ev, #[trigger] r@[k], #[trigger] a@[t]),
            forall|k: int, t: int|
                0 <= k < r@.len() && j <= t < b@.len() ==> before(ev, #[trigger] r@[k], #[trigger] b@[t]),
        decreases a@.len() + b@.len() - i - j,
    {
        let take_a = if i < a.len() && j < b.len() {
            let x = a[i];
            let y = b[j];
            proof {
                assert(ev[x as int] == entry_view(es@[x as int]));
                assert(ev[y as int] == entry_view(es@[y as int]));
                assert(x != y) by {
                    assert(a@.contains(x));
                    assert(b@.contains(y));
                }
            }
            es[x].area_rank > es[y].area_rank || (es[x].area_rank == es[y].area_rank && x < y)
        } else {
            i < a.len()
        };
        let ghost r0 = r@;
        if take_a {
            let x = a[i];
            r.push(x);
            proof {
                assert forall|t: int| i < t < a@.len() implies before(ev, x, a@[t]) by {
                    assert(before(ev, a@[i as int], a@[t]));
                }
                assert forall|t: int| j <= t < b@.len() implies before(ev, x, b@[t]) by {
                    if t > j {
                        assert(before(ev, b@[j as int], b@[t]));
                    }
                }
                assert forall|p: int, q: int| 0 <= p < q < r@.len() implies before(
                    ev,
                    #[trigger] r@[p],
                    #[trigger] r@[q],
                ) by {
                    if q == r0.len() {
                        assert(before(ev, r0[p], a@[i as int]));
                    } else {
                        assert(before(ev, r0[p], r0[q]));
                    }
                }
                let na = a@.subrange(0, i + 1);
                let oa = a@.subrange(0, i as int);
                let ob = b@.subrange(0, j as int);
                assert(na =~= oa.push(x));
                assert forall|y: usize| r@.contains(y) <==> (na.contains(y) || ob.contains(y)) by {
                    assert(r0.contains(y) <==> (oa.contains(y) || ob.contains(y)));
                    if r@.contains(y) {
                        let k = choose|k: int| 0 <= k < r@.len() && r@[k] == y;
                        if k < r0.len() {
                            assert(r0[k] == y);
                            assert(r0.contains(y));
                            if oa.contains(y) {
                                let m = choose|m: int| 0 <= m < oa.len() && oa[m] == y;
                                assert(na[m] == y);
                            }
                        } else {
                            assert(y == x);
                            assert(na[i as int] == x);
                        }
                    }
                    if na.contains(y) {
                        let m = choose|m: int| 0 <= m < na.len() && na[m] == y;
                        if m < i {
                            assert(oa[m] == y);
                            assert(oa.contains(y));
                            let k = choose|k: int| 0 <= k < r0.len() && r0[k] == y;
                            assert(r@[k] == y);
                        } else {
                            assert(r@[r0.len() as int] == x);
                        }
                    }
                    if ob.contains(y) {
                        assert(r0.contains(y));
                        let k = choose|k: int| 0 <= k < r0.len() && r0[k] == y;
                        assert(r@[k] == y);
                    }
                }
            }
            i = i + 1;
        } else {
            let y = b[j];
            r.push(y);
            proof {
                if i < a@.len() {
                    let x = a@[i as int];
                    assert(ev[x as int] == entry_view(es@[x as int]));
                    assert(ev[y as int] == entry_view(es@[y as int]));
                    assert(x != y) by {
                        assert(a@.contains(x));
                        assert(b@.contains(y));
                    }
                    assert(before(ev, y, x));
                }
                assert forall|t: int| j < t < b@.len() implies before(ev, y, b@[t]) by {
                    assert(before(ev, b@[j as int], b@[t]));
                }
                assert forall|t: int| i <= t < a@.len() implies before(ev, y, a@[t]) by {
                    if t > i {
                        assert(before(ev, a@[i as int], a@[t]));
                    }
                }
                assert forall|p: int, q: int| 0 <= p < q < r@.len() implies before(
                    ev,
                    #[trigger] r@[p],
                    #[trigger] r@[q],
                ) by {
                    if q == r0.len() {
                        assert(before(ev, r0[p], b@[j as int]));
                    } else {
                        assert(before(ev, r0[p], r0[q]));
                    }
                }
                let nb = b@.subrange(0, j + 1);
                let oa = a@.subrange(0, i as int);
                let ob = b@.subrange(0, j as int);
                assert(nb =~= ob.push(y));
                assert forall|z: usize| r@.contains(z) <==> (oa.contains(z) || nb.contains(z)) by {
                    assert(r0.contains(z) <==> (oa.contains(z) || ob.contains(z)));
                    if r@.contains(z) {
                        let k = choose|k: int| 0 <= k < r@.len() && r@[k] == z;
                        if k < r0.len() {
                            assert(r0[k] == z);
                            assert(r0.contains(z));
                            if ob.contains(z) {
                                let m = choose|m: int| 0 <= m < ob.len() && ob[m] == z;
                                assert(nb[m] == z);
                            }
                        } else {
                            assert(z == y);
                            assert(nb[j as int] == y);
                        }
                    }
                    if nb.contains(z) {
                        let m = choose|m: int| 0 <= m < nb.len() && nb[m] == z;
                        if m < j {
                            assert(ob[m] == z);
                            assert(ob.contains(z));
                            let k = choose|k: int| 0 <= k < r0.len() && r0[k] == z;
                            assert(r@[k] == z);
                        } else {
                            assert(r@[r0.len() as int] == y);
                        }
                    }
                    if oa.contains(z) {
                        assert(r0.contains(z));
                        let k = choose|k: int| 0 <= k < r0.len() && r0[k] == z;
                        assert(r@[k] == z);
                    }
                }
            }
            j = j + 1;
        }
    }
    assert(a@.subrange(0, i as int) =~= a@);
    assert(b@.subrange(0, j as int) =~= b@);
    r
}

fn copy_range(v: &Vec<usize>, lo: usize, hi: usize) -> (r: Vec<usize>)
    requires
        lo <= hi <= v@.len(),
    ensures
        r@ == v@.subrange(lo as int, hi as int),
{
    let mut r: Vec<usize> = Vec::new();
    let mut i: usize = lo;
    while i < hi
        invariant
            lo <= i <= hi,
            hi <= v@.len(),
            r@ == v@.subrange(lo as int, i as int),
        decreases hi - i,
    {
        r.push(v[i]);
        i = i + 1;
        assert(r@ =~= v@.subrange(lo as int, i as int));
    }
    r
}

/// The entries `v` in `before` order: largest area first, earlier entry first on a tie.
pub fn sort_by_area(es: &Vec<hierarchy_entry>, v: Vec<usize>) -> (r: Vec<usize>)
    requires
        v@.no_duplicates(),
        members_in(v@, es@.len()),
    ensures
        ordered(entries_view(es@), r@),
        members_in(r@, es@.len()),
        r@.len() == v@.len(),
        forall|x: usize| r@.contains(x) <==> v@.contains(x),
    decreases v@.len(),
{
    if v.len() <= 1 {
        return v;
    }
    let mid = v.len() / 2;
    let left = copy_range(&v, 0, mid);
    let right = copy_range(&v, mid, v.len());
    proof {
        assert forall|x: usize| !(left@.contains(x) && right@.contains(x)) by {
            if left@.contains(x) && right@.contains(x) {
                let p = choose|p: int| 0 <= p < left@.len() && left@[p] == x;
                let q = choose|q: int| 0 <= q < right@.len() && right@[q] == x;
                assert(v@[p] == v@[mid + q]);
            }
        }
        assert forall|x: usize| v@.contains(x) <==> (left@.contains(x) || right@.contains(x)) by {
            if v@.contains(x) {
                let p = choose|p: int| 0 <= p < v@.len() && v@[p] == x;
                if p < mid {
                    assert(left@[p] == x);
                } else {
                    assert(right@[p - mid] == x);
                }
            }
            if left@.contains(x) {
                let p = choose|p: int| 0 <= p < left@.len() && left@[p] == x;
                assert(v@[p] == x);
            }
            if right@.contains(x) {
                let p = choose|p: int| 0 <= p < right@.len() && right@[p] == x;
                assert(v@[mid + p] == x);
            }
        }
        assert(left@.no_duplicates());
        assert(right@.no_duplicates());
    }
    let ls = sort_by_area(es, left);
    let rs = sort_by_area(es, right);
    merge_by_area(es, ls, rs)
}

/// Entry `x` lies in one of the groups.
pub open spec fn grouped(groups: Seq<Vec<usize>>, x: usize) -> bool {
    exists|r: int| 0 <= r < groups.len() && #[trigger] groups[r]@.contains(x)
}

/// The level of a group: that of its first member.
pub open spec fn group_level(es: Seq<entry_spec>, g: Seq<usize>) -> u8 {
    es[g[0] as int].admin_level
}

/// The entries below `k` at `level`, in entry order.
fn members_at(es: &Vec<hierarchy_entry>, level: u8) -> (m: Vec<usize>)
    ensures
        m@.no_duplicates(),
        members_in(m@, es@.len()),
        forall|x: usize| m@.contains(x) <==> (x < es@.len() && es@[x as int].admin_level == level),
{
    let mut m: Vec<usize> = Vec::new();
    let mut i: usize = 0;
    while i < es.len()
        invariant
            i <= es@.len(),
            m@.no_duplicates(),
            members_in(m@, es@.len()),
            forall|k: int| 0 <= k < m@.len() ==> (#[trigger] m@[k]) < i,
            forall|x: usize| m@.contains(x) <==> (x < i && es@[x as int].admin_level == level),
        decreases es@.len() - i,
    {
        if es[i].admin_level == level {
            let ghost m0 = m@;
            m.push(i);
            proof {
                assert forall|x: usize| m@.contains(x) <==> (x < i + 1 && es@[x as int].admin_level
                    == level) by {
                    if m@.contains(x) {
                        let k = choose|k: int| 0 <= k < m@.len() && m@[k] == x;
                        if k < m0.len() {
                            assert(m0[k] == x);
                            assert(m0.contains(x));
                        }
                    }
                    if x < i && es@[x as int].admin_level == level {
                        assert(m0.contains(x));
                        let k = choose|k: int| 0 <= k < m0.len() && m0[k] == x;
                        assert(m@[k] == x);
                    }
                    if x == i {
                        assert(m@[m0.len() as int] == i);
                    }
                }
                assert forall|a: int, b: int| 0 <= a < b < m@.len() implies m@[a] != m@[b] by {
                    if b == m0.len() {
                        assert(m0[a] < i);
                    } else {
                        assert(m0.no_duplicates());
                    }
                }
            }
        }
        i = i + 1;
    }
    m
}

/// The entries grouped by level, the levels in ascending order and only those present; each
/// group holds exactly the entries of its level, largest area first (the earlier entry first on
/// a tie). The hierarchy is resolved level by level in this order, so that parents are resolved
/// before their children.
pub fn level_order(es: &Vec<hierarchy_entry>) -> (groups: Vec<Vec<usize>>)
    ensures
        forall|r: int|
            0 <= r < groups@.len() ==> {
                let g = #[trigger] groups@[r]@;
                &&& g.len() > 0
                &&& members_in(g, es@.len())
                &&& ordered(entries_view(es@), g)
                &&& forall|x: usize|
                    g.contains(x) <==> (x < es@.len() && es@[x as int].admin_level == group_level(
                        entries_view(es@),
                        g,
                    ))
            },
        forall|r: int, q: int|
            0 <= r < q < groups@.len() ==> group_level(entries_view(es@), #[trigger] groups@[r]@)
                < group_level(entries_view(es@), #[trigger] groups@[q]@),
        forall|x: usize| x < es@.len() ==> #[trigger] grouped(groups@, x),
{
    let ghost ev = entries_view(es@);
    assert(ev.len() == es@.len());
    let mut present: Vec<bool> = Vec::new();
    while present.len() < 256
        invariant
            present@.len() <= 256,
            forall|l: int| 0 <= l < present@.len() ==> !present@[l],
        decreases 256 - present@.len(),
    {
        present.push(false);
    }
    let mut i: usize = 0;
    while i < es.len()
        invariant
            i <= es@.len(),
            present@.len() == 256,
            forall|x: int| 0 <= x < i ==> present@[es@[x].admin_level as int],
        decreases es@.len() - i,
    {
        let l = es[i].admin_level as usize;
        present.set(l, true);
        i = i + 1;
    }
    let mut groups: Vec<Vec<usize>> = Vec::new();
    let mut l: usize = 0;
    while l < 256
        invariant
            ev == entries_view(es@),
            ev.len() == es@.len(),
            l <= 256,
            present@.len() == 256,
            forall|x: int| 0 <= x < es@.len() ==> present@[es@[x].admin_level as int],
            forall|r: int|
                0 <= r < groups@.len() ==> {
                    let g = #[trigger] groups@[r]@;
                    &&& g.len() > 0
                    &&& members_in(g, es@.len())
                    &&& ordered(ev, g)
                    &&& group_level(ev, g) < l
                    &&& forall|x: usize|
                        g.contains(x) <==> (x < es@.len() && es@[x as int].admin_level
                            == group_level(ev, g))
                },
            forall|r: int, q: int|
                0 <= r < q < groups@.len() ==> group_level(ev, #[trigger] groups@[r]@)
                    < group_level(ev, #[trigger] groups@[q]@),
            forall|x: usize|
                x < es@.len() && es@[x as int].admin_level < l ==> #[trigger] grouped(groups@, x),
        decreases 256 - l,
    {
        if present[l] {
            let level = l as u8;
            let m = members_at(es, level);
            let g = sort_by_area(es, m);
            if g.len() > 0 {
                let ghost g0 = groups@;
                let ghost gv = g@;
                proof {
                    assert(gv.contains(gv[0]));
                    assert(ev[gv[0] as int] == entry_view(es@[gv[0] as int]));
                    assert(group_level(ev, gv) == level);
                }
                groups.push(g);
                proof {
                    assert forall|x: usize|
                        x < es@.len() && es@[x as int].admin_level < l + 1 implies #[trigger] grouped(
                        groups@,
                        x,
                    ) by {
                        if es@[x as int].admin_level < l {
                            assert(grouped(g0, x));
                            let r = choose|r: int| 0 <= r < g0.len() && #[trigger] g0[r]@.contains(x);
                            assert(groups@[r]@.contains(x));
                        } else {
                            assert(gv.contains(x));
                            assert(groups@[g0.len() as int]@.contains(x));
                        }
                    }
                }
            } else {
                proof {
                    assert forall|x: usize|
                        x < es@.len() && es@[x as int].admin_level < l + 1 implies #[trigger] grouped(
                        groups@,
                        x,
                    ) by {
                        if es@[x as int].admin_level == l {
                            assert(m@.contains(x));
                            assert(g@.contains(x));
                        }
                    }
                }
            }
        } else {
            proof {
                assert forall|x: usize|
                    x < es@.len() && es@[x as int].admin_level < l + 1 implies #[trigger] grouped(
                    groups@,
                    x,
                ) by {
                    assert(present@[es@[x as int].admin_level as int]);
                }
            }
        }
        l = l + 1;
    }
    groups
}

} // verus!
