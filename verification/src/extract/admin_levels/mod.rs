// the administrative levels geolite extracts, and which ways each level's extraction wants.
use vstd::prelude::*;
use crate::domain::osm_way::filter::way_filter;
pub mod grouping;
pub mod rings;

verus! {

/// An administrative level, from continent down to house numbers.
#[derive(Clone, Copy, PartialEq, Eq, Debug, Structural)]
pub enum osm_admin_level {
    continent,
    country,
    region,
    state,
    district,
    county,
    municipality,
    city,
    locality,
    neighborhood,
    street,
    address,
    house_numbers,
}

/// The number of a level, as osm's `admin_level` tag writes it.
pub open spec fn level_number(l: osm_admin_level) -> u8 {
    match l {
        osm_admin_level::continent => 1,
        osm_admin_level::country => 2,
        osm_admin_level::region => 3,
        osm_admin_level::state => 4,
        osm_admin_level::district => 5,
        osm_admin_level::county => 6,
        osm_admin_level::municipality => 7,
        osm_admin_level::city => 8,
        osm_admin_level::locality => 9,
        osm_admin_level::neighborhood => 10,
        osm_admin_level::street => 12,
        osm_admin_level::address => 14,
        osm_admin_level::house_numbers => 30,
    }
}

/// The level a number names, if any.
pub open spec fn level_of(v: u8) -> Option<osm_admin_level> {
    if v == 1 {
        Some(osm_admin_level::continent)
    } else if v == 2 {
        Some(osm_admin_level::country)
    } else if v == 3 {
        Some(osm_admin_level::region)
    } else if v == 4 {
        Some(osm_admin_level::state)
    } else if v == 5 {
        Some(osm_admin_level::district)
    } else if v == 6 {
        Some(osm_admin_level::county)
    } else if v == 7 {
        Some(osm_admin_level::municipality)
    } else if v == 8 {
        Some(osm_admin_level::city)
    } else if v == 9 {
        Some(osm_admin_level::locality)
    } else if v == 10 {
        Some(osm_admin_level::neighborhood)
    } else if v == 12 {
        Some(osm_admin_level::street)
    } else if v == 14 {
        Some(osm_admin_level::address)
    } else if v == 30 {
        Some(osm_admin_level::house_numbers)
    } else {
        None
    }
}

/// Reading back the number of a level gives the level, and a number names a level only when it
/// is that level's number.
pub proof fn lemma_level_number_roundtrip(l: osm_admin_level, v: u8)
    ensures
        level_of(level_number(l)) == Some(l),
        level_of(v) matches Some(m) ==> level_number(m) == v,
{
}

impl osm_admin_level {
    /// The number of the level.
    pub fn value(self) -> (v: u8)
        ensures
            v == level_number(self),
    {
        match self {
            osm_admin_level::continent => 1,
            osm_admin_level::country => 2,
            osm_admin_level::region => 3,
            osm_admin_level::state => 4,
            osm_admin_level::district => 5,
            osm_admin_level::county => 6,
            osm_admin_level::municipality => 7,
            osm_admin_level::city => 8,
            osm_admin_level::locality => 9,
            osm_admin_level::neighborhood => 10,
            osm_admin_level::street => 12,
            osm_admin_level::address => 14,
            osm_admin_level::house_numbers => 30,
        }
    }

    /// The level a number names; a number naming no level is handed back as the error.
    pub fn try_from(v: u8) -> (r: Result<Self, u8>)
        ensures
            r == match level_of(v) {
                Some(l) => Ok::<osm_admin_level, u8>(l),
                None => Err(v),
            },
    {
        match v {
            1 => Ok(osm_admin_level::continent),
            2 => Ok(osm_admin_level::country),
            3 => Ok(osm_admin_level::region),
            4 => Ok(osm_admin_level::state),
            5 => Ok(osm_admin_level::district),
            6 => Ok(osm_admin_level::county),
            7 => Ok(osm_admin_level::municipality),
            8 => Ok(osm_admin_level::city),
            9 => Ok(osm_admin_level::locality),
            10 => Ok(osm_admin_level::neighborhood),
            12 => Ok(osm_admin_level::street),
            14 => Ok(osm_admin_level::address),
            30 => Ok(osm_admin_level::house_numbers),
            _ => Err(v),
        }
    }
}

/// Progress of a level's extraction: items stored so far out of the candidates.
pub struct progress_report {
    pub total: Option<u64>,
    pub processed: u64,
}

/// The way filters of one level, overriding that level's defaults.
pub struct extraction_rules {
    pub level: u8,
    pub included: Vec<way_filter>,
    pub exclude: Vec<way_filter>,
}

/// How many relations or ways a level's extraction loads at a time.
pub const CHUNK_SIZE: usize = 500;

/// The ways a level keeps by default: neighbourhoods and suburbs at level 10, nothing forced
/// elsewhere.
pub open spec fn default_include_spec(level: u8) -> Seq<way_filter> {
    if level == 10 {
        seq![way_filter::include_place_neighbourhood, way_filter::include_place_suburb]
    } else {
        seq![]
    }
}

/// The ways a level drops by default: at level 12, places, parks, buildings and waterways.
pub open spec fn default_exclude_spec(level: u8) -> Seq<way_filter> {
    if level == 12 {
        seq![
            way_filter::exclude_place_neighbourhood,
            way_filter::exclude_place_suburb,
            way_filter::exclude_leisure_park,
            way_filter::exclude_building,
            way_filter::exclude_waterway,
        ]
    } else {
        seq![]
    }
}

/// The filters a level keeps by default.
pub fn default_include(level: u8) -> (r: Vec<way_filter>)
    ensures
        r@ == default_include_spec(level),
{
    let mut r: Vec<way_filter> = Vec::new();
    if level == 10 {
        r.push(way_filter::include_place_neighbourhood);
        r.push(way_filter::include_place_suburb);
    }
    assert(r@ =~= default_include_spec(level));
    r
}

/// The filters a level drops by default.
pub fn default_exclude(level: u8) -> (r: Vec<way_filter>)
    ensures
        r@ == default_exclude_spec(level),
{
    let mut r: Vec<way_filter> = Vec::new();
    if level == 12 {
        r.push(way_filter::exclude_place_neighbourhood);
        r.push(way_filter::exclude_place_suburb);
        r.push(way_filter::exclude_leisure_park);
        r.push(way_filter::exclude_building);
        r.push(way_filter::exclude_waterway);
    }
    assert(r@ =~= default_exclude_spec(level));
    r
}

/// The position of the first override for `level`, if any.
pub open spec fn first_override(overrides: Seq<extraction_rules>, level: u8) -> Option<int>
    decreases overrides.len(),
{
    if overrides.len() == 0 {
        None
    } else if overrides[0].level == level {
        Some(0)
    } else {
        match first_override(overrides.drop_first(), level) {
            Some(i) => Some(i + 1),
            None => None,
        }
    }
}

proof fn lemma_first_override(overrides: Seq<extraction_rules>, level: u8)
    ensures
        first_override(overrides, level) matches Some(i) ==> 0 <= i < overrides.len()
            && overrides[i].level == level && forall|j: int| 0 <= j < i ==> overrides[j].level != level,
        first_override(overrides, level) is None ==> forall|j: int|
            0 <= j < overrides.len() ==> overrides[j].level != level,
    decreases overrides.len(),
{
    if overrides.len() > 0 {
        lemma_first_override(overrides.drop_first(), level);
        assert forall|j: int| 1 <= j < overrides.len() implies overrides[j] == overrides.drop_first()[j - 1] by {}
    }
}

fn copy_filters(v: &Vec<way_filter>) -> (r: Vec<way_filter>)
    ensures
        r@ == v@,
{
    let mut r: Vec<way_filter> = Vec::new();
    let mut i: usize = 0;
    while i < v.len()
        invariant
            i <= v@.len(),
            r@ == v@.subrange(0, i as int),
        decreases v@.len() - i,
    {
        r.push(v[i]);
        i = i + 1;
        assert(r@ =~= v@.subrange(0, i as int));
    }
    assert(v@.subrange(0, i as int) =~= v@);
    r
}

/// The filters a level keeps and drops: those of the first override for the level, or else the
/// level's defaults.
pub fn resolve_rules(level: u8, overrides: &[extraction_rules]) -> (r: (Vec<way_filter>, Vec<
    way_filter,
>))
    ensures
        match first_override(overrides@, level) {
            Some(i) => r.0@ == overrides@[i].included@ && r.1@ == overrides@[i].exclude@,
            None => r.0@ == default_include_spec(level) && r.1@ == default_exclude_spec(level),
        },
{
    proof {
        lemma_first_override(overrides@, level);
    }
    let mut i: usize = 0;
    while i < overrides.len()
        invariant
            i <= overrides@.len(),
            forall|j: int| 0 <= j < i ==> overrides@[j].level != level,
        decreases overrides@.len() - i,
    {
        if overrides[i].level == level {
            proof {
                lemma_first_override(overrides@, level);
            }
            return (copy_filters(&overrides[i].included), copy_filters(&overrides[i].exclude));
        }
        i = i + 1;
    }
    (default_include(level), default_exclude(level))
}

} // verus!
