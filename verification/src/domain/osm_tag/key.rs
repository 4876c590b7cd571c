use vstd::prelude::*;

verus! {

/// The tag keys geolite interprets.
#[derive(Clone, Copy, PartialEq, Eq, Debug, Structural)]
pub enum osm_tag {
    name,
    place,
    highway,
    leisure,
    building,
    waterway,
    postal_code,
    addr_postcode,
    iso3166_1,
    iso3166_1_alpha2,
}

/// The osm literal of a key.
pub open spec fn tag_key(t: osm_tag) -> Seq<char> {
    match t {
        osm_tag::name => "name"@,
        osm_tag::place => "place"@,
        osm_tag::highway => "highway"@,
        osm_tag::leisure => "leisure"@,
        osm_tag::building => "building"@,
        osm_tag::waterway => "waterway"@,
        osm_tag::postal_code => "postal_code"@,
        osm_tag::addr_postcode => "addr:postcode"@,
        osm_tag::iso3166_1 => "ISO3166-1"@,
        osm_tag::iso3166_1_alpha2 => "ISO3166-1:alpha2"@,
    }
}

/// The json path of a tag key inside a payload, the key always quoted: `$.tags."<key>"`.
pub open spec fn json_path_text(key: Seq<char>) -> Seq<char> {
    "$.tags.\""@ + key + "\""@
}

impl osm_tag {
    /// The osm literal of the key.
    pub fn key(self) -> (k: &'static str)
        ensures
            k@ == tag_key(self),
    {
        match self {
            osm_tag::name => "name",
            osm_tag::place => "place",
            osm_tag::highway => "highway",
            osm_tag::leisure => "leisure",
            osm_tag::building => "building",
            osm_tag::waterway => "waterway",
            osm_tag::postal_code => "postal_code",
            osm_tag::addr_postcode => "addr:postcode",
            osm_tag::iso3166_1 => "ISO3166-1",
            osm_tag::iso3166_1_alpha2 => "ISO3166-1:alpha2",
        }
    }

    /// The json path of the key.
    pub fn json_path(self) -> (p: String)
        ensures
            p@ == json_path_text(tag_key(self)),
    {
        json_path_of(self.key())
    }
}

/// The keys a postal code may be stored under, in the order they are tried.
pub const POST_CODE: [osm_tag; 2] = [osm_tag::postal_code, osm_tag::addr_postcode];

/// The keys a country code may be stored under, in the order they are tried.
pub const COUNTRY_ISO: [osm_tag; 2] = [osm_tag::iso3166_1, osm_tag::iso3166_1_alpha2];

/// The json path of `key`: `$.tags."<key>"`. The key is always quoted, so a dot or a bracket in
/// it is not read as path syntax.
pub fn json_path_of(key: &str) -> (p: String)
    ensures
        p@ == json_path_text(key@),
{
    let mut p = "$.tags.\"".to_owned();
    p.append(key);
    p.append("\"");
    p
}

/// The characters a key may hold: ascii letters and digits, `:`, `-` and `_`.
pub open spec fn key_char(c: char) -> bool {
    ||| ('a' <= c && c <= 'z')
    ||| ('A' <= c && c <= 'Z')
    ||| ('0' <= c && c <= '9')
    ||| c == ':'
    ||| c == '-'
    ||| c == '_'
}

fn is_key_char(c: char) -> (r: bool)
    ensures
        r == key_char(c),
{
    ('a' <= c && c <= 'z') || ('A' <= c && c <= 'Z') || ('0' <= c && c <= '9') || c == ':' || c
        == '-' || c == '_'
}

/// Whether `key` is a non-empty run of ascii letters, digits, `:`, `-` and `_`.
pub fn is_valid_key(key: &str) -> (r: bool)
    ensures
        r == (key@.len() > 0 && forall|i: int| 0 <= i < key@.len() ==> key_char(#[trigger] key@[i])),
{
    let n = key.unicode_len();
    if n == 0 {
        return false;
    }
    let mut i: usize = 0;
    while i < n
        invariant
            n == key@.len(),
            i <= n,
            forall|j: int| 0 <= j < i ==> key_char(#[trigger] key@[j]),
        decreases n - i,
    {
        if !is_key_char(key.get_char(i)) {
            return false;
        }
        i = i + 1;
    }
    true
}

} // verus!
