// how a tag is read back out of a stored payload, as sql expressions over `JSON_EXTRACT`.
use vstd::prelude::*;
use super::key::{json_path_of, json_path_text, osm_tag, tag_key};

verus! {

/// `JSON_EXTRACT(<payload>, '<json path of key>')`.
pub open spec fn extract_text(payload: Seq<char>, key: Seq<char>) -> Seq<char> {
    "JSON_EXTRACT("@ + payload + ", '"@ + json_path_text(key) + "')"@
}

/// `parts` joined by `sep`.
pub open spec fn join_texts(parts: Seq<Seq<char>>, sep: Seq<char>) -> Seq<char>
    decreases parts.len(),
{
    if parts.len() == 0 {
        seq![]
    } else if parts.len() == 1 {
        parts[0]
    } else {
        join_texts(parts.drop_last(), sep) + sep + parts.last()
    }
}

/// The first of `keys` present in the payload: `COALESCE` over their extractions, a single
/// extraction for one key, and the `name` tag when no key is given.
pub open spec fn coalesce_text(payload: Seq<char>, keys: Seq<Seq<char>>) -> Seq<char> {
    if keys.len() == 0 {
        extract_text(payload, "name"@)
    } else if keys.len() == 1 {
        extract_text(payload, keys[0])
    } else {
        "COALESCE("@ + join_texts(keys.map_values(|k: Seq<char>| extract_text(payload, k)), ", "@)
            + ")"@
    }
}

/// The texts of a list of string slices.
pub open spec fn strs_view(s: Seq<&str>) -> Seq<Seq<char>> {
    s.map_values(|k: &str| k@)
}

/// `s` with every single quote doubled, as a sql string literal needs it.
pub open spec fn sql_escape(s: Seq<char>) -> Seq<char>
    decreases s.len(),
{
    if s.len() == 0 {
        seq![]
    } else if s.last() == '\'' {
        sql_escape(s.drop_last()) + seq!['\'', '\'']
    } else {
        sql_escape(s.drop_last()) + seq![s.last()]
    }
}

/// `s` as a sql string literal.
pub open spec fn quoted(s: Seq<char>) -> Seq<char> {
    "'"@ + sql_escape(s) + "'"@
}

fn push_extract(out: &mut String, payload_expr: &str, key: &str)
    ensures
        final(out)@ == old(out)@ + extract_text(payload_expr@, key@),
{
    out.append("JSON_EXTRACT(");
    out.append(payload_expr);
    out.append(", '");
    let path = json_path_of(key);
    out.append(path.as_str());
    out.append("')");
    assert(final(out)@ =~= old(out)@ + extract_text(payload_expr@, key@));
}

/// The extractions of `keys` joined by `, `.
fn push_joined_extracts(out: &mut String, payload_expr: &str, keys: &[&str])
    ensures
        final(out)@ == old(out)@ + join_texts(
            strs_view(keys@).map_values(|k: Seq<char>| extract_text(payload_expr@, k)),
            ", "@,
        ),
{
    let ghost start = out@;
    let ghost parts = strs_view(keys@).map_values(|k: Seq<char>| extract_text(payload_expr@, k));
    let mut i: usize = 0;
    while i < keys.len()
        invariant
            i <= keys@.len(),
            parts == strs_view(keys@).map_values(|k: Seq<char>| extract_text(payload_expr@, k)),
            out@ == start + join_texts(parts.subrange(0, i as int), ", "@),
        decreases keys@.len() - i,
    {
        if i > 0 {
            out.append(", ");
        }
        push_extract(out, payload_expr, keys[i]);
        proof {
            let p = parts.subrange(0, i + 1);
            assert(p.drop_last() =~= parts.subrange(0, i as int));
            assert(p.last() == extract_text(payload_expr@, keys@[i as int]@));
            if i == 0 {
                assert(join_texts(parts.subrange(0, 0), ", "@) =~= Seq::<char>::empty());
            }
        }
        i = i + 1;
        assert(out@ =~= start + join_texts(parts.subrange(0, i as int), ", "@));
    }
    assert(parts.subrange(0, i as int) =~= parts);
}

/// The first of `keys` present in the payload at `payload_expr`, in the order given; a single key
/// skips `COALESCE`, and no key falls back to the `name` tag.
pub fn coalesce_of(payload_expr: &str, keys: &[&str]) -> (r: String)
    ensures
        r@ == coalesce_text(payload_expr@, strs_view(keys@)),
{
    let mut r = String::new();
    if keys.len() == 0 {
        push_extract(&mut r, payload_expr, "name");
    } else if keys.len() == 1 {
        push_extract(&mut r, payload_expr, keys[0]);
    } else {
        r.append("COALESCE(");
        push_joined_extracts(&mut r, payload_expr, keys);
        r.append(")");
        assert(r@ =~= coalesce_text(payload_expr@, strs_view(keys@)));
    }
    r
}

/// The keys of a list of tags.
pub open spec fn tag_keys(tags: Seq<osm_tag>) -> Seq<Seq<char>> {
    tags.map_values(|t: osm_tag| tag_key(t))
}

/// The first of an alias group present in the payload, trimmed and upper-cased, empty text
/// read as absent: `NULLIF(UPPER(TRIM(<coalesce>)), '')`.
pub fn normalized_coalesce(payload_expr: &str, tags: &[osm_tag]) -> (r: String)
    ensures
        r@ == "NULLIF(UPPER(TRIM("@ + coalesce_text(payload_expr@, tag_keys(tags@))
            + ")), '')"@,
{
    let mut keys: Vec<&str> = Vec::new();
    let mut i: usize = 0;
    while i < tags.len()
        invariant
            i <= tags@.len(),
            keys@.len() == i,
            strs_view(keys@) == tag_keys(tags@).subrange(0, i as int),
        decreases tags@.len() - i,
    {
        let k = tags[i].key();
        let ghost before = keys@;
        keys.push(k);
        proof {
            assert forall|j: int| 0 <= j <= i implies #[trigger] strs_view(keys@)[j] == tag_keys(
                tags@,
            )[j] by {
                if j < i {
                    assert(keys@[j] == before[j]);
                    assert(strs_view(before)[j] == strs_view(keys@)[j]);
                }
            }
        }
        i = i + 1;
        assert(strs_view(keys@) =~= tag_keys(tags@).subrange(0, i as int));
    }
    assert(tag_keys(tags@).subrange(0, i as int) =~= tag_keys(tags@));
    let mut r = "NULLIF(UPPER(TRIM(".to_owned();
    let inner = coalesce_of(payload_expr, keys.as_slice());
    r.append(inner.as_str());
    r.append(")), '')");
    r
}

/// Appends `s` with every single quote doubled.
fn push_escaped(out: &mut String, s: &str)
    ensures
        final(out)@ == old(out)@ + sql_escape(s@),
{
    let ghost start = out@;
    let n = s.unicode_len();
    let mut i: usize = 0;
    while i < n
        invariant
            n == s@.len(),
            i <= n,
            out@ == start + sql_escape(s@.subrange(0, i as int)),
        decreases n - i,
    {
        let c = s.get_char(i);
        if c == '\'' {
            proof {
                reveal_strlit("''");
            }
            out.append("''");
        } else {
            out.append(s.substring_char(i, i + 1));
        }
        proof {
            let p = s@.subrange(0, i + 1);
            assert(p.drop_last() =~= s@.subrange(0, i as int));
            assert(p.last() == c);
            assert(s@.subrange(i as int, i + 1) =~= seq![c]);
        }
        i = i + 1;
        assert(out@ =~= start + sql_escape(s@.subrange(0, i as int)));
    }
    assert(s@.subrange(0, i as int) =~= s@);
}

/// Appends `s` as a sql string literal.
fn push_quoted(out: &mut String, s: &str)
    ensures
        final(out)@ == old(out)@ + quoted(s@),
{
    out.append("'");
    push_escaped(out, s);
    out.append("'");
    assert(final(out)@ =~= old(out)@ + quoted(s@));
}

/// `<extraction of tag> = '<value>'`, the value escaped.
pub fn equals(payload_expr: &str, tag: osm_tag, value: &str) -> (r: String)
    ensures
        r@ == extract_text(payload_expr@, tag_key(tag)) + " = "@ + quoted(value@),
{
    let mut r = String::new();
    push_extract(&mut r, payload_expr, tag.key());
    r.append(" = ");
    push_quoted(&mut r, value);
    assert(r@ =~= extract_text(payload_expr@, tag_key(tag)) + " = "@ + quoted(value@));
    r
}

/// `COALESCE(<extraction of tag>, '') NOT IN (<values>)`: a missing tag reads as empty text,
/// so it is kept unless empty text is listed.
pub fn not_in(payload_expr: &str, tag: osm_tag, values: &[&str]) -> (r: String)
    ensures
        r@ == "COALESCE("@ + extract_text(payload_expr@, tag_key(tag)) + ", '') NOT IN ("@
            + join_texts(strs_view(values@).map_values(|v: Seq<char>| quoted(v)), ", "@) + ")"@,
{
    let mut r = "COALESCE(".to_owned();
    push_extract(&mut r, payload_expr, tag.key());
    r.append(", '') NOT IN (");
    let ghost start = r@;
    let ghost parts = strs_view(values@).map_values(|v: Seq<char>| quoted(v));
    let mut i: usize = 0;
    while i < values.len()
        invariant
            i <= values@.len(),
            parts == strs_view(values@).map_values(|v: Seq<char>| quoted(v)),
            r@ == start + join_texts(parts.subrange(0, i as int), ", "@),
        decreases values@.len() - i,
    {
        if i > 0 {
            r.append(", ");
        }
        push_quoted(&mut r, values[i]);
        proof {
            let p = parts.subrange(0, i + 1);
            assert(p.drop_last() =~= parts.subrange(0, i as int));
            if i == 0 {
                assert(join_texts(parts.subrange(0, 0), ", "@) =~= Seq::<char>::empty());
            }
        }
        i = i + 1;
        assert(r@ =~= start + join_texts(parts.subrange(0, i as int), ", "@));
    }
    assert(parts.subrange(0, i as int) =~= parts);
    r.append(")");
    r
}

/// `<extraction of tag> IS NULL`.
pub fn is_null(payload_expr: &str, tag: osm_tag) -> (r: String)
    ensures
        r@ == extract_text(payload_expr@, tag_key(tag)) + " IS NULL"@,
{
    let mut r = String::new();
    push_extract(&mut r, payload_expr, tag.key());
    r.append(" IS NULL");
    r
}

/// `<extraction of tag> IS NOT NULL`.
pub fn is_not_null(payload_expr: &str, tag: osm_tag) -> (r: String)
    ensures
        r@ == extract_text(payload_expr@, tag_key(tag)) + " IS NOT NULL"@,
{
    let mut r = String::new();
    push_extract(&mut r, payload_expr, tag.key());
    r.append(" IS NOT NULL");
    r
}

} // verus!
