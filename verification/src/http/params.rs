// the query string of a request: percent-decoding, parameter lookup, and the list of admin levels a
// search may be restricted to.
use vstd::prelude::*;
use crate::text::{
    find_char, first_index, lemma_first_index, parse_u8, parse_u8_spec, split_on, str_eq,
    text_from_bytes, trim, trimmed, utf8_lossy,
};

verus! {

/// The value of a hexadecimal digit byte, if it is one.
pub open spec fn hex_value(b: u8) -> Option<u8> {
    if 48 <= b && b <= 57 {
        Some((b - 48) as u8)
    } else if 97 <= b && b <= 102 {
        Some((b - 87) as u8)
    } else if 65 <= b && b <= 70 {
        Some((b - 55) as u8)
    } else {
        None
    }
}

/// The bytes that percent-decoding `b` gives: `+` is a space, `%` and two hexadecimal digits are
/// the byte they spell, and anything else — a `%` not followed by two hexadecimal digits too — is
/// kept as it is.
pub open spec fn percent_decoded(b: Seq<u8>) -> Seq<u8>
    decreases b.len(),
{
    if b.len() == 0 {
        seq![]
    } else if b[0] == 43 {
        seq![32u8] + percent_decoded(b.drop_first())
    } else if b[0] == 37 && b.len() >= 3 && hex_value(b[1]) is Some && hex_value(b[2]) is Some {
        seq![(hex_value(b[1]).unwrap() * 16 + hex_value(b[2]).unwrap()) as u8] + percent_decoded(
            b.subrange(3, b.len() as int),
        )
    } else {
        seq![b[0]] + percent_decoded(b.drop_first())
    }
}

/// The text that url-decoding `s` gives: its UTF-8 bytes percent-decoded, read back as UTF-8
/// with invalid sequences replaced.
pub open spec fn url_decoded(s: Seq<char>) -> Seq<char> {
    utf8_lossy(percent_decoded(vstd::utf8::encode_utf8(s)))
}

fn hex_digit(b: u8) -> (r: Option<u8>)
    ensures
        r == hex_value(b),
{
    if 48 <= b && b <= 57 {
        Some(b - 48)
    } else if 97 <= b && b <= 102 {
        Some(b - 87)
    } else if 65 <= b && b <= 70 {
        Some(b - 55)
    } else {
        None
    }
}

/// Percent-decodes `b`.
pub fn percent_decode(b: &[u8]) -> (out: Vec<u8>)
    ensures
        out@ == percent_decoded(b@),
{
    let n = b.len();
    let mut out: Vec<u8> = Vec::new();
    let mut i: usize = 0;
    assert(b@.subrange(0, n as int) =~= b@);
    assert(out@ + percent_decoded(b@) =~= percent_decoded(b@));
    while i < n
        invariant
            n == b@.len(),
            i <= n,
            percent_decoded(b@) == out@ + percent_decoded(b@.subrange(i as int, n as int)),
        decreases n - i,
    {
        let ghost rest = b@.subrange(i as int, n as int);
        let c = b[i];
        if c == 43 {
            out.push(32u8);
            proof {
                assert(rest.drop_first() =~= b@.subrange(i + 1, n as int));
            }
            i = i + 1;
        } else {
            let mut decoded: Option<u8> = None;
            if c == 37 && n - i >= 3 {
                match (hex_digit(b[i + 1]), hex_digit(b[i + 2])) {
                    (Some(h), Some(l)) => {
                        decoded = Some(h * 16 + l);
                    },
                    _ => {},
                }
            }
            match decoded {
                Some(v) => {
                    out.push(v);
                    proof {
                        assert(rest.subrange(3, rest.len() as int) =~= b@.subrange(
                            i + 3,
                            n as int,
                        ));
                    }
                    i = i + 3;
                },
                None => {
                    out.push(c);
                    proof {
                        assert(rest.drop_first() =~= b@.subrange(i + 1, n as int));
                    }
                    i = i + 1;
                },
            }
        }
        proof {
            assert(percent_decoded(b@) =~= out@ + percent_decoded(b@.subrange(i as int, n as int)));
        }
    }
    assert(b@.subrange(n as int, n as int) =~= Seq::<u8>::empty());
    out
}

/// Url-decodes `s`: `+` is a space, `%XX` the byte it spells; a malformed escape is kept as it
/// is, and the bytes are read back as UTF-8.
pub fn url_decode(s: &str) -> (r: String)
    ensures
        r@ == url_decoded(s@),
{
    let bytes = percent_decode(s.as_bytes());
    text_from_bytes(bytes.as_slice())
}

proof fn lemma_plain_bytes_decode_to_themselves(b: Seq<u8>)
    requires
        forall|i: int| 0 <= i < b.len() ==> b[i] != 43 && b[i] != 37,
    ensures
        percent_decoded(b) == b,
    decreases b.len(),
{
    if b.len() > 0 {
        lemma_plain_bytes_decode_to_themselves(b.drop_first());
        assert(seq![b[0]] + b.drop_first() =~= b);
    }
}

/// Text holding no `+` and no `%` url-decodes to itself.
pub proof fn lemma_url_decode_plain_text(s: Seq<char>)
    requires
        forall|i: int| 0 <= i < vstd::utf8::encode_utf8(s).len() ==> {
            let c = #[trigger] vstd::utf8::encode_utf8(s)[i];
            c != 43 && c != 37
        },
    ensures
        percent_decoded(vstd::utf8::encode_utf8(s)) == vstd::utf8::encode_utf8(s),
{
    lemma_plain_bytes_decode_to_themselves(vstd::utf8::encode_utf8(s));
}

/// The name of a `name=value` parameter: everything before the first `=`.
pub open spec fn param_name(p: Seq<char>) -> Seq<char> {
    match first_index(p, '=') {
        None => p,
        Some(i) => p.subrange(0, i),
    }
}

/// The raw value of a parameter: everything after the first `=`, or empty text.
pub open spec fn param_value(p: Seq<char>) -> Seq<char> {
    match first_index(p, '=') {
        None => seq![],
        Some(i) => p.subrange(i + 1, p.len() as int),
    }
}

/// The raw value of the first parameter named `key`.
pub open spec fn find_param(pieces: Seq<Seq<char>>, key: Seq<char>) -> Option<Seq<char>>
    decreases pieces.len(),
{
    if pieces.len() == 0 {
        None
    } else if param_name(pieces[0]) == key {
        Some(param_value(pieces[0]))
    } else {
        find_param(pieces.drop_first(), key)
    }
}

/// The first index of `c` in `s` is `e` when `s` holds `c` at `e` and nowhere before.
proof fn lemma_first_index_is(s: Seq<char>, c: char, e: int)
    requires
        0 <= e <= s.len(),
        e < s.len() ==> s[e] == c,
        forall|j: int| 0 <= j < e ==> s[j] != c,
    ensures
        first_index(s, c) == if e < s.len() {
            Some(e)
        } else {
            None::<int>
        },
{
    lemma_first_index(s, c);
}

/// Splitting at the first `c` of `s`, at `e`, gives the piece before it and the split of the rest.
proof fn lemma_split_step(s: Seq<char>, c: char, e: int)
    requires
        0 <= e <= s.len(),
        e < s.len() ==> s[e] == c,
        forall|j: int| 0 <= j < e ==> s[j] != c,
    ensures
        e < s.len() ==> split_on(s, c) == seq![s.subrange(0, e)] + split_on(
            s.subrange(e + 1, s.len() as int),
            c,
        ),
        e == s.len() ==> split_on(s, c) == seq![s],
{
    lemma_first_index_is(s, c, e);
}

/// The value of the first parameter named `key` in a query string, url-decoded.
pub fn query_param(query: &str, key: &str) -> (r: Option<String>)
    ensures
        match find_param(split_on(query@, '&'), key@) {
            None => r is None,
            Some(v) => r matches Some(s) && s@ == url_decoded(v),
        },
{
    let n = query.unicode_len();
    let mut start: usize = 0;
    assert(query@.subrange(0, n as int) =~= query@);
    loop
        invariant
            n == query@.len(),
            start <= n,
            find_param(split_on(query@, '&'), key@) == find_param(
                split_on(query@.subrange(start as int, n as int), '&'),
                key@,
            ),
        decreases n - start,
    {
        let ghost rest = query@.subrange(start as int, n as int);
        let end = find_char(query, start, '&');
        proof {
            lemma_split_step(rest, '&', end - start);
            assert(rest.subrange(0, end - start) =~= query@.subrange(start as int, end as int));
            if end < n {
                assert(rest.subrange(end - start + 1, rest.len() as int) =~= query@.subrange(
                    end + 1,
                    n as int,
                ));
            } else {
                assert(rest =~= query@.subrange(start as int, end as int));
            }
        }
        let piece = query.substring_char(start, end);
        let ghost tail = if end < n {
            split_on(query@.subrange(end + 1, n as int), '&')
        } else {
            Seq::<Seq<char>>::empty()
        };
        proof {
            let pieces = split_on(rest, '&');
            assert(pieces.drop_first() =~= tail);
            assert(pieces[0] == piece@);
        }
        let m = piece.unicode_len();
        let eq = find_char(piece, 0, '=');
        proof {
            lemma_first_index_is(piece@, '=', eq as int);
        }
        let name = piece.substring_char(0, eq);
        if str_eq(name, key) {
            proof {
                if eq < m {
                } else {
                    assert(piece@.subrange(0, eq as int) =~= piece@);
                }
            }
            if eq < m {
                let value = piece.substring_char(eq + 1, m);
                return Some(url_decode(value));
            } else {
                proof {
                    reveal_strlit("");
                }
                return Some(url_decode(""));
            }
        }
        proof {
            if eq == m {
                assert(piece@.subrange(0, eq as int) =~= piece@);
            }
            assert(param_name(piece@) == name@);
            assert(find_param(split_on(rest, '&'), key@) == find_param(tail, key@));
            if end == n {
                assert(find_param(tail, key@) is None);
            }
        }
        if end == n {
            return None;
        }
        start = end + 1;
    }
}

/// Folds one parsed level in front of the rest of a parse.
pub open spec fn prepend_level(v: u8, rest: Result<Seq<u8>, Seq<char>>) -> Result<
    Seq<u8>,
    Seq<char>,
> {
    match rest {
        Ok(l) => Ok(seq![v] + l),
        Err(e) => Err(e),
    }
}

/// The levels of the comma-separated pieces, each trimmed and blank ones skipped; the first piece
/// that is not a number from 0 to 255 is the error.
pub open spec fn levels_of(pieces: Seq<Seq<char>>) -> Result<Seq<u8>, Seq<char>>
    decreases pieces.len(),
{
    if pieces.len() == 0 {
        Ok(seq![])
    } else {
        let t = trimmed(pieces[0]);
        if t.len() == 0 {
            levels_of(pieces.drop_first())
        } else {
            match parse_u8_spec(t) {
                None => Err(t),
                Some(v) => prepend_level(v, levels_of(pieces.drop_first())),
            }
        }
    }
}

/// The message for a piece that is not a level.
pub open spec fn invalid_level_message(piece: Seq<char>) -> Seq<char> {
    "invalid admin level: "@ + piece
}

/// The message for a list holding no level.
pub open spec fn empty_levels_message() -> Seq<char> {
    "last_admin_levels must name at least one level"@
}

/// What parsing a `last_admin_levels` value gives.
pub open spec fn parsed_levels(value: Seq<char>) -> Result<Seq<u8>, Seq<char>> {
    match levels_of(split_on(value, ',')) {
        Err(t) => Err(invalid_level_message(t)),
        Ok(l) => if l.len() == 0 {
            Err(empty_levels_message())
        } else {
            Ok(l)
        },
    }
}

/// Parses a comma-separated list of admin levels: whitespace around a level is tolerated, blank
/// entries are skipped, a level must be a number from 0 to 255, and at least one must be given.
pub fn parse_last_admin_levels(value: &str) -> (r: Result<Vec<u8>, String>)
    ensures
        match parsed_levels(value@) {
            Ok(l) => r matches Ok(v) && v@ == l,
            Err(m) => r matches Err(e) && e@ == m,
        },
{
    let n = value.unicode_len();
    let mut levels: Vec<u8> = Vec::new();
    let mut start: usize = 0;
    let ghost whole = levels_of(split_on(value@, ','));
    assert(value@.subrange(0, n as int) =~= value@);
    proof {
        match whole {
            Ok(l) => {
                assert(levels@ + l =~= l);
            },
            Err(_) => {},
        }
    }
    loop
        invariant
            n == value@.len(),
            start <= n,
            whole == levels_of(split_on(value@, ',')),
            whole == match levels_of(split_on(value@.subrange(start as int, n as int), ',')) {
                Ok(l) => Ok(levels@ + l),
                Err(e) => Err(e),
            },
        decreases n - start,
    {
        let ghost rest = value@.subrange(start as int, n as int);
        let end = find_char(value, start, ',');
        proof {
            lemma_split_step(rest, ',', end - start);
            assert(rest.subrange(0, end - start) =~= value@.subrange(start as int, end as int));
            if end < n {
                assert(rest.subrange(end - start + 1, rest.len() as int) =~= value@.subrange(
                    end + 1,
                    n as int,
                ));
            } else {
                assert(rest =~= value@.subrange(start as int, end as int));
            }
        }
        let piece = trim(value.substring_char(start, end));
        let ghost tail = if end < n {
            split_on(value@.subrange(end + 1, n as int), ',')
        } else {
            Seq::<Seq<char>>::empty()
        };
        proof {
            let pieces = split_on(rest, ',');
            assert(pieces.drop_first() =~= tail);
            assert(trimmed(pieces[0]) == piece@);
            if end == n {
                assert(levels_of(tail) == Ok::<Seq<u8>, Seq<char>>(seq![]));
            }
        }
        if piece.unicode_len() > 0 {
            match parse_u8(piece) {
                None => {
                    let mut msg = "invalid admin level: ".to_owned();
                    msg.append(piece);
                    return Err(msg);
                },
                Some(v) => {
                    let ghost before = levels@;
                    levels.push(v);
                    proof {
                        match levels_of(tail) {
                            Ok(l) => {
                                assert(before + (seq![v] + l) =~= levels@ + l);
                            },
                            Err(_) => {},
                        }
                    }
                },
            }
        }
        if end == n {
            proof {
                assert(levels@ + seq![] =~= levels@);
            }
            if levels.len() == 0 {
                return Err("last_admin_levels must name at least one level".to_owned());
            }
            return Ok(levels);
        }
        start = end + 1;
    }
}

} // verus!
