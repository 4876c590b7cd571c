// the text of what the search index stores for an admin level, and where the index lives.
use vstd::prelude::*;
use std::collections::HashMap;
use crate::pbf::tag_policy::pairs_view;
use crate::text::{
    contains, contains_text, is_digit, join, joined, lowercase, replace, replaced, str_eq,
    strings_view, to_lowercase, to_owned_string, trim, trimmed,
};

verus! {

/// The ascii digits of `s`, in order.
pub open spec fn digits_of(s: Seq<char>) -> Seq<char>
    decreases s.len(),
{
    if s.len() == 0 {
        seq![]
    } else if is_digit(s.last()) {
        digits_of(s.drop_last()).push(s.last())
    } else {
        digits_of(s.drop_last())
    }
}

/// The indexed text of an entity: its name, then its postal code (trimmed) when there is one,
/// then the code's digits alone when they differ from the code — so that `01310-100` and
/// `01310100` both find it.
pub open spec fn entity_text(name: Seq<char>, post_code: Option<Seq<char>>) -> Seq<char> {
    match post_code {
        Some(pc) => {
            let t = trimmed(pc);
            if t.len() == 0 {
                name
            } else if digits_of(t).len() == 0 || digits_of(t) == t {
                name + " "@ + t
            } else {
                name + " "@ + t + " "@ + digits_of(t)
            }
        },
        None => name,
    }
}

fn ascii_digits(s: &str) -> (d: String)
    ensures
        d@ == digits_of(s@),
{
    let n = s.unicode_len();
    let mut d = String::new();
    let mut i: usize = 0;
    while i < n
        invariant
            n == s@.len(),
            i <= n,
            d@ == digits_of(s@.subrange(0, i as int)),
        decreases n - i,
    {
        let c = s.get_char(i);
        proof {
            assert(s@.subrange(0, i + 1).drop_last() =~= s@.subrange(0, i as int));
        }
        if '0' <= c && c <= '9' {
            d.append(s.substring_char(i, i + 1));
            assert(s@.subrange(i as int, i + 1) =~= seq![c]);
        }
        i = i + 1;
        assert(d@ =~= digits_of(s@.subrange(0, i as int)));
    }
    assert(s@.subrange(0, i as int) =~= s@);
    d
}

/// The indexed text of an entity: name, postal code, and the code's digits when they differ.
pub fn build_entity_text(name: &str, post_code: Option<&str>) -> (r: String)
    ensures
        r@ == entity_text(
            name@,
            match post_code {
                Some(p) => Some(p@),
                None => None,
            },
        ),
{
    match post_code {
        Some(pc) => {
            let t = trim(pc);
            if t.unicode_len() == 0 {
                return to_owned_string(name);
            }
            let digits = ascii_digits(t);
            let mut r = name.to_owned();
            r.append(" ");
            r.append(t);
            if digits.as_str().unicode_len() == 0 || str_eq(digits.as_str(), t) {
                r
            } else {
                r.append(" ");
                r.append(digits.as_str());
                r
            }
        },
        None => to_owned_string(name),
    }
}

/// The edit distance a fuzzy match of `token` tolerates: 1 below four characters, 2 from there.
pub fn fuzzy_distance_for(token: &str) -> (d: u8)
    ensures
        d == if token@.len() < 4 {
            1u8
        } else {
            2u8
        },
{
    if token.unicode_len() < 4 {
        1
    } else {
        2
    }
}

/// The variants an abbreviation list adds to the lowercased text: for each pair in order, the
/// expansion replaced by the abbreviation when the expansion occurs, or else the abbreviation
/// replaced by the expansion when it occurs.
pub open spec fn abbreviation_variants(
    lower: Seq<char>,
    abbreviations: Seq<(Seq<char>, Seq<char>)>,
) -> Seq<Seq<char>>
    decreases abbreviations.len(),
{
    if abbreviations.len() == 0 {
        seq![]
    } else {
        let prev = abbreviation_variants(lower, abbreviations.drop_last());
        let (abbrev, expansion) = abbreviations.last();
        if contains_text(lower, expansion) {
            prev.push(replaced(lower, expansion, abbrev))
        } else if contains_text(lower, abbrev) {
            prev.push(replaced(lower, abbrev, expansion))
        } else {
            prev
        }
    }
}

/// `text` followed by its abbreviation variants, joined by spaces; without abbreviations, `text`.
pub open spec fn expanded_text(text: Seq<char>, abbreviations: Seq<(Seq<char>, Seq<char>)>) -> Seq<
    char,
> {
    if abbreviations.len() == 0 {
        text
    } else {
        joined(seq![text] + abbreviation_variants(lowercase(text), abbreviations), " "@)
    }
}

/// Expands abbreviations both ways, so that a query and an indexed name may use either form: with
/// `("r.", "rua")`, a name holding `rua` gets `r.` added and one holding `r.` gets `rua` added.
pub fn expand_abbreviations(text: &str, abbreviations: &[(&str, &str)]) -> (r: String)
    ensures
        r@ == expanded_text(text@, pairs_view(abbreviations@)),
{
    if abbreviations.len() == 0 {
        return to_owned_string(text);
    }
    let lower = to_lowercase(text);
    let ghost pairs = pairs_view(abbreviations@);
    let mut variants: Vec<String> = Vec::new();
    variants.push(to_owned_string(text));
    let mut i: usize = 0;
    while i < abbreviations.len()
        invariant
            i <= abbreviations@.len(),
            pairs == pairs_view(abbreviations@),
            lower@ == lowercase(text@),
            strings_view(variants@) == seq![text@] + abbreviation_variants(
                lower@,
                pairs.subrange(0, i as int),
            ),
        decreases abbreviations@.len() - i,
    {
        let (abbrev, expansion) = abbreviations[i];
        let ghost before = strings_view(variants@);
        proof {
            assert(pairs.subrange(0, i + 1).drop_last() =~= pairs.subrange(0, i as int));
            assert(pairs.subrange(0, i + 1).last() == (abbrev@, expansion@));
        }
        if contains(lower.as_str(), expansion) {
            let v = replace(lower.as_str(), expansion, abbrev);
            let ghost vv = v@;
            variants.push(v);
            assert(strings_view(variants@) =~= before.push(vv));
        } else if contains(lower.as_str(), abbrev) {
            let v = replace(lower.as_str(), abbrev, expansion);
            let ghost vv = v@;
            variants.push(v);
            assert(strings_view(variants@) =~= before.push(vv));
        }
        i = i + 1;
        assert(strings_view(variants@) =~= seq![text@] + abbreviation_variants(
            lower@,
            pairs.subrange(0, i as int),
        ));
    }
    assert(pairs.subrange(0, i as int) =~= pairs);
    join(&variants, " ")
}

/// The file name without its extension that `Path::file_stem` gives for `path`, if any.
pub uninterp spec fn file_stem_of(path: Seq<char>) -> Option<Seq<char>>;

/// The parent directory that `Path::parent` gives for `path`, if any.
pub uninterp spec fn parent_of(path: Seq<char>) -> Option<Seq<char>>;

/// The path that `Path::join` makes of a directory and a file name.
pub uninterp spec fn joined_path(dir: Seq<char>, file: Seq<char>) -> Seq<char>;

/// `Path::file_stem`, read back as text: claimed to be a function of the path alone (named
/// `file_stem_of`); the stem of a UTF-8 path is UTF-8. How the stem is cut is left unstated.
#[verifier::external_body]
fn path_file_stem(path: &str) -> (r: Option<String>)
    ensures
        r matches Some(s) ==> file_stem_of(path@) == Some(s@),
        r is None ==> file_stem_of(path@) is None,
{
    std::path::Path::new(path).file_stem().and_then(|s| s.to_str()).map(|s| s.to_string())
}

/// `Path::parent`, read back as text: claimed to be a function of the path alone (named
/// `parent_of`). How the parent is cut is left unstated.
#[verifier::external_body]
fn path_parent(path: &str) -> (r: Option<String>)
    ensures
        r matches Some(s) ==> parent_of(path@) == Some(s@),
        r is None ==> parent_of(path@) is None,
{
    std::path::Path::new(path).parent().and_then(|p| p.to_str()).map(|s| s.to_string())
}

/// `Path::join` of a directory and a file name, read back as text: claimed to be a function of
/// the two alone (named `joined_path`). Where a separator goes is left unstated.
#[verifier::external_body]
fn path_join(dir: &str, file: &str) -> (r: String)
    ensures
        r@ == joined_path(dir@, file@),
{
    std::path::Path::new(dir).join(file).to_string_lossy().into_owned()
}

/// Where the search index of the database at `sqlite_path` lives: beside it, named after its
/// stem with `.tantivy` (stem `database` when the path has none). An empty path or `:memory:`
/// has no file, so no index path.
pub open spec fn default_index_path(sqlite_path: Seq<char>) -> Option<Seq<char>> {
    if sqlite_path.len() == 0 || sqlite_path == ":memory:"@ {
        None
    } else {
        let stem = match file_stem_of(sqlite_path) {
            Some(s) => s,
            None => "database"@,
        };
        let dir = match parent_of(sqlite_path) {
            Some(p) => p,
            None => seq![],
        };
        Some(joined_path(dir, stem + ".tantivy"@))
    }
}

/// The path of the search index beside the database at `sqlite_path`, as text.
pub fn default_path_for(sqlite_path: &str) -> (r: Option<String>)
    ensures
        match default_index_path(sqlite_path@) {
            None => r is None,
            Some(p) => r matches Some(s) && s@ == p,
        },
{
    if sqlite_path.unicode_len() == 0 || str_eq(sqlite_path, ":memory:") {
        return None;
    }
    let mut file = match path_file_stem(sqlite_path) {
        Some(s) => s,
        None => "database".to_owned(),
    };
    file.append(".tantivy");
    let dir = match path_parent(sqlite_path) {
        Some(p) => p,
        None => String::new(),
    };
    Some(path_join(dir.as_str(), file.as_str()))
}

/// The ids a JSON array of integers holds, as `serde_json::from_str::<Vec<i64>>` reads it; none
/// when the text is not such an array.
pub uninterp spec fn json_ids(text: Seq<char>) -> Option<Seq<i64>>;

/// `serde_json::from_str::<Vec<i64>>`: claimed to be a function of the text alone (named
/// `json_ids`), none when it fails. What it accepts is left to serde_json.
#[verifier::external_body]
fn parse_json_ids(text: &str) -> (r: Option<Vec<i64>>)
    ensures
        match r {
            Some(v) => json_ids(text@) == Some(v@),
            None => json_ids(text@) is None,
        },
{
    serde_json::from_str::<Vec<i64>>(text).ok()
}

/// What the index stores of one admin level: its id and level, its name and its hierarchy (the
/// names of its ancestors) as written, and both again with abbreviations expanded.
pub struct index_document {
    pub id: i64,
    pub admin_level: u64,
    pub name: String,
    pub hier: String,
    pub name_folded: String,
    pub hier_folded: String,
}

/// The entity text and level of every admin level, by id; a later entry for an id replaces an
/// earlier one.
pub struct entity_names {
    entries: HashMap<i64, (String, u64)>,
}

/// The names of the ancestors that have one, in ancestor order.
pub open spec fn ancestor_names(names: Map<i64, (Seq<char>, u64)>, ancestors: Seq<i64>) -> Seq<
    Seq<char>,
>
    decreases ancestors.len(),
{
    if ancestors.len() == 0 {
        seq![]
    } else {
        let prev = ancestor_names(names, ancestors.drop_last());
        if names.contains_key(ancestors.last()) {
            prev.push(names[ancestors.last()].0)
        } else {
            prev
        }
    }
}

impl entity_names {
    /// The entity text and level recorded for each id.
    pub closed spec fn view_map(&self) -> Map<i64, (Seq<char>, u64)> {
        self.entries@.map_values(|e: (String, u64)| (e.0@, e.1))
    }

    /// No admin level recorded.
    pub fn new() -> (r: Self)
        ensures
            r.view_map() == Map::<i64, (Seq<char>, u64)>::empty(),
    {
        let r = entity_names { entries: HashMap::new() };
        assert(r.view_map() =~= Map::<i64, (Seq<char>, u64)>::empty());
        r
    }

    /// Records an admin level: its entity text (name, postal code and the code's digits) and
    /// its level.
    pub fn add(&mut self, id: i64, name: &str, post_code: Option<&str>, admin_level: u8)
        ensures
            final(self).view_map() == old(self).view_map().insert(
                id,
                (
                    entity_text(
                        name@,
                        match post_code {
                            Some(p) => Some(p@),
                            None => None,
                        },
                    ),
                    admin_level as u64,
                ),
            ),
    {
        broadcast use vstd::std_specs::hash::group_hash_axioms;

        let text = build_entity_text(name, post_code);
        let ghost t = text@;
        self.entries.insert(id, (text, admin_level as u64));
        assert(self.view_map() =~= old(self).view_map().insert(id, (t, admin_level as u64)));
    }

    fn text_of(&self, id: i64) -> (r: (String, u64))
        ensures
            self.view_map().contains_key(id) ==> (r.0@, r.1) == self.view_map()[id],
            !self.view_map().contains_key(id) ==> r.0@ == Seq::<char>::empty() && r.1 == 0,
    {
        broadcast use vstd::std_specs::hash::group_hash_axioms;

        match self.entries.get(&id) {
            Some(e) => (to_owned_string(e.0.as_str()), e.1),
            None => (String::new(), 0),
        }
    }

    /// The document of admin level `id` whose ancestors are the JSON array `ancestors_json`
    /// (none when it does not parse): its recorded text and level (empty and 0 when it has
    /// none), the recorded texts of its ancestors joined by spaces, and both with `abbreviations`
    /// expanded.
    pub fn document(&self, id: i64, ancestors_json: &str, abbreviations: &[(&str, &str)]) -> (d:
        index_document)
        ensures
            d.id == id,
            self.view_map().contains_key(id) ==> d.name@ == self.view_map()[id].0 && d.admin_level
                == self.view_map()[id].1,
            !self.view_map().contains_key(id) ==> d.name@ == Seq::<char>::empty() && d.admin_level
                == 0,
            d.hier@ == joined(
                ancestor_names(
                    self.view_map(),
                    match json_ids(ancestors_json@) {
                        Some(a) => a,
                        None => seq![],
                    },
                ),
                " "@,
            ),
            d.name_folded@ == expanded_text(d.name@, pairs_view(abbreviations@)),
            d.hier_folded@ == expanded_text(d.hier@, pairs_view(abbreviations@)),
    {
        let ancestors = match parse_json_ids(ancestors_json) {
            Some(v) => v,
            None => Vec::new(),
        };
        let ghost anc = ancestors@;
        let (name, admin_level) = self.text_of(id);
        let mut parts: Vec<String> = Vec::new();
        let mut i: usize = 0;
        while i < ancestors.len()
            invariant
                i <= ancestors@.len(),
                anc == ancestors@,
                strings_view(parts@) == ancestor_names(self.view_map(), anc.subrange(0, i as int)),
            decreases ancestors@.len() - i,
        {
            let aid = ancestors[i];
            proof {
                assert(anc.subrange(0, i + 1).drop_last() =~= anc.subrange(0, i as int));
                assert(anc.subrange(0, i + 1).last() == aid);
            }
            if self.contains(aid) {
                let (t, _) = self.text_of(aid);
                let ghost before = strings_view(parts@);
                let ghost tv = t@;
                parts.push(t);
                assert(strings_view(parts@) =~= before.push(tv));
            }
            i = i + 1;
        }
        assert(anc.subrange(0, i as int) =~= anc);
        let hier = join(&parts, " ");
        let name_folded = expand_abbreviations(name.as_str(), abbreviations);
        let hier_folded = expand_abbreviations(hier.as_str(), abbreviations);
        index_document { id, admin_level, name, hier, name_folded, hier_folded }
    }

    fn contains(&self, id: i64) -> (r: bool)
        ensures
            r == self.view_map().contains_key(id),
    {
        broadcast use vstd::std_specs::hash::group_hash_axioms;

        self.entries.contains_key(&id)
    }
}

} // verus!
