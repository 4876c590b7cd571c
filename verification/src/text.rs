// small string helpers shared by the decoders and the sql builders.
use vstd::prelude::*;

verus! {

/// Two strings are equal exactly when their UTF-8 bytes are.
pub proof fn lemma_bytes_determine_text(a: Seq<char>, b: Seq<char>)
    requires
        vstd::utf8::encode_utf8(a) == vstd::utf8::encode_utf8(b),
    ensures
        a == b,
{
    vstd::utf8::encode_utf8_decode_utf8(a);
    vstd::utf8::encode_utf8_decode_utf8(b);
}

/// Whether `a` and `b` hold the same text.
pub fn str_eq(a: &str, b: &str) -> (r: bool)
    ensures
        r == (a@ == b@),
{
    let x = a.as_bytes();
    let y = b.as_bytes();
    if x.len() != y.len() {
        return false;
    }
    let mut i: usize = 0;
    while i < x.len()
        invariant
            x@.len() == y@.len(),
            x@ == vstd::utf8::encode_utf8(a@),
            y@ == vstd::utf8::encode_utf8(b@),
            i <= x@.len(),
            forall|j: int| 0 <= j < i ==> x@[j] == y@[j],
        decreases x@.len() - i,
    {
        if x[i] != y[i] {
            return false;
        }
        i = i + 1;
    }
    proof {
        assert(x@ =~= y@);
        lemma_bytes_determine_text(a@, b@);
    }
    true
}

/// Whether some string of `list` holds the text `s`.
pub fn list_contains(list: &Vec<String>, s: &str) -> (r: bool)
    ensures
        r == exists|i: int| 0 <= i < list@.len() && #[trigger] list@[i]@ == s@,
{
    let mut i: usize = 0;
    while i < list.len()
        invariant
            i <= list@.len(),
            forall|j: int| 0 <= j < i ==> #[trigger] list@[j]@ != s@,
        decreases list@.len() - i,
    {
        if str_eq(list[i].as_str(), s) {
            return true;
        }
        i = i + 1;
    }
    false
}

/// An owned copy of `s`.
pub fn to_owned_string(s: &str) -> (r: String)
    ensures
        r@ == s@,
{
    s.to_owned()
}


/// The characters `char::is_whitespace` accepts: the Unicode `White_Space` property.
pub open spec fn is_white(c: char) -> bool {
    ||| c == ' '
    ||| ('\t' <= c && c <= '\r')
    ||| c == '\u{85}'
    ||| c == '\u{a0}'
    ||| c == '\u{1680}'
    ||| ('\u{2000}' <= c && c <= '\u{200a}')
    ||| c == '\u{2028}'
    ||| c == '\u{2029}'
    ||| c == '\u{202f}'
    ||| c == '\u{205f}'
    ||| c == '\u{3000}'
}

/// Whether `c` is whitespace.
pub fn is_whitespace(c: char) -> (r: bool)
    ensures
        r == is_white(c),
{
    c == ' ' || ('\t' <= c && c <= '\r') || c == '\u{85}' || c == '\u{a0}' || c == '\u{1680}' || (
    '\u{2000}' <= c && c <= '\u{200a}') || c == '\u{2028}' || c == '\u{2029}' || c == '\u{202f}'
        || c == '\u{205f}' || c == '\u{3000}'
}

/// `s` without its leading whitespace.
pub open spec fn trim_start(s: Seq<char>) -> Seq<char>
    decreases s.len(),
{
    if s.len() > 0 && is_white(s[0]) {
        trim_start(s.drop_first())
    } else {
        s
    }
}

/// `s` without its trailing whitespace.
pub open spec fn trim_end(s: Seq<char>) -> Seq<char>
    decreases s.len(),
{
    if s.len() > 0 && is_white(s.last()) {
        trim_end(s.drop_last())
    } else {
        s
    }
}

/// `s` without leading and trailing whitespace, as `str::trim` gives it.
pub open spec fn trimmed(s: Seq<char>) -> Seq<char> {
    trim_end(trim_start(s))
}

proof fn lemma_trim_start_at(s: Seq<char>, a: int)
    requires
        0 <= a <= s.len(),
        forall|i: int| 0 <= i < a ==> is_white(#[trigger] s[i]),
    ensures
        trim_start(s) == trim_start(s.subrange(a, s.len() as int)),
    decreases a,
{
    if a > 0 {
        assert(s.drop_first().subrange(a - 1, s.len() - 1) =~= s.subrange(a, s.len() as int));
        lemma_trim_start_at(s.drop_first(), a - 1);
    } else {
        assert(s.subrange(0, s.len() as int) =~= s);
    }
}

proof fn lemma_trim_end_at(s: Seq<char>, b: int)
    requires
        0 <= b <= s.len(),
        forall|i: int| b <= i < s.len() ==> is_white(#[trigger] s[i]),
    ensures
        trim_end(s) == trim_end(s.subrange(0, b)),
    decreases s.len() - b,
{
    if b < s.len() {
        assert(s.drop_last().subrange(0, b) =~= s.subrange(0, b));
        lemma_trim_end_at(s.drop_last(), b);
    } else {
        assert(s.subrange(0, b) =~= s);
    }
}

/// `s` without leading and trailing whitespace.
pub fn trim(s: &str) -> (t: &str)
    ensures
        t@ == trimmed(s@),
{
    let n = s.unicode_len();
    let mut a: usize = 0;
    while a < n && is_whitespace(s.get_char(a))
        invariant
            n == s@.len(),
            a <= n,
            forall|i: int| 0 <= i < a ==> is_white(#[trigger] s@[i]),
        decreases n - a,
    {
        a = a + 1;
    }
    let ghost rest = s@.subrange(a as int, n as int);
    proof {
        lemma_trim_start_at(s@, a as int);
        if a < n {
            assert(!is_white(rest[0]));
        }
        assert(trim_start(rest) == rest);
    }
    let mut b: usize = n;
    while b > a && is_whitespace(s.get_char(b - 1))
        invariant
            n == s@.len(),
            a <= b <= n,
            rest == s@.subrange(a as int, n as int),
            forall|i: int| b - a <= i < rest.len() ==> is_white(#[trigger] rest[i]),
        decreases b,
    {
        b = b - 1;
    }
    proof {
        lemma_trim_end_at(rest, b - a);
        assert(rest.subrange(0, b - a) =~= s@.subrange(a as int, b as int));
        let t = rest.subrange(0, b - a);
        if b > a {
            assert(!is_white(t.last()));
        }
        assert(trim_end(t) == t);
    }
    s.substring_char(a, b)
}

/// The index of the first `c` in `s`, if any.
pub open spec fn first_index(s: Seq<char>, c: char) -> Option<int>
    decreases s.len(),
{
    if s.len() == 0 {
        None
    } else if s[0] == c {
        Some(0)
    } else {
        match first_index(s.drop_first(), c) {
            Some(i) => Some(i + 1),
            None => None,
        }
    }
}

pub proof fn lemma_first_index(s: Seq<char>, c: char)
    ensures
        first_index(s, c) matches Some(i) ==> 0 <= i < s.len() && s[i] == c && forall|j: int|
            0 <= j < i ==> s[j] != c,
        first_index(s, c) is None ==> forall|j: int| 0 <= j < s.len() ==> s[j] != c,
    decreases s.len(),
{
    if s.len() > 0 {
        lemma_first_index(s.drop_first(), c);
        assert forall|j: int| 1 <= j < s.len() implies s[j] == s.drop_first()[j - 1] by {}
    }
}

/// The first index at or after `from` where `s` holds `c`, or the length of `s`.
pub fn find_char(s: &str, from: usize, c: char) -> (i: usize)
    requires
        from <= s@.len(),
    ensures
        from <= i <= s@.len(),
        i < s@.len() ==> s@[i as int] == c,
        forall|j: int| from <= j < i ==> s@[j] != c,
{
    let n = s.unicode_len();
    let mut i = from;
    while i < n && s.get_char(i) != c
        invariant
            n == s@.len(),
            from <= i <= n,
            forall|j: int| from <= j < i ==> s@[j] != c,
        decreases n - i,
    {
        i = i + 1;
    }
    i
}

/// `s` split at each `c`, as `str::split` does it: always at least one piece.
pub open spec fn split_on(s: Seq<char>, c: char) -> Seq<Seq<char>>
    decreases s.len(),
{
    match first_index(s, c) {
        None => seq![s],
        Some(i) => {
            if 0 <= i < s.len() {
                seq![s.subrange(0, i)] + split_on(s.subrange(i + 1, s.len() as int), c)
            } else {
                seq![s]
            }
        },
    }
}

/// The value of an ascii digit.
pub open spec fn digit_value(c: char) -> nat {
    (c as u32 - '0' as u32) as nat
}

/// Whether `c` is an ascii digit.
pub open spec fn is_digit(c: char) -> bool {
    '0' <= c && c <= '9'
}

/// The number that a run of ascii digits writes.
pub open spec fn digits_value(d: Seq<char>) -> nat
    decreases d.len(),
{
    if d.len() == 0 {
        0
    } else {
        digits_value(d.drop_last()) * 10 + digit_value(d.last())
    }
}

/// `p` without a leading `+`.
pub open spec fn unsigned_part(p: Seq<char>) -> Seq<char> {
    if p.len() > 0 && p[0] == '+' {
        p.drop_first()
    } else {
        p
    }
}

/// Every character of `d` is an ascii digit.
pub open spec fn all_digits(d: Seq<char>) -> bool {
    forall|i: int| 0 <= i < d.len() ==> is_digit(#[trigger] d[i])
}

/// What `str::parse::<u8>` gives: an optional `+` then at least one ascii digit, of value at most
/// 255.
pub open spec fn parse_u8_spec(p: Seq<char>) -> Option<u8> {
    let d = unsigned_part(p);
    if d.len() == 0 || !all_digits(d) {
        None
    } else if digits_value(d) <= 255 {
        Some(digits_value(d) as u8)
    } else {
        None
    }
}

/// Parses a number from 0 to 255.
pub fn parse_u8(p: &str) -> (r: Option<u8>)
    ensures
        r == parse_u8_spec(p@),
{
    let n = p.unicode_len();
    let mut i: usize = 0;
    if n > 0 && p.get_char(0) == '+' {
        i = 1;
    }
    let ghost d = unsigned_part(p@);
    let start = i;
    assert(d =~= p@.subrange(start as int, n as int));
    if i == n {
        return None;
    }
    let mut acc: u32 = 0;
    while i < n
        invariant
            n == p@.len(),
            start <= i <= n,
            d == p@.subrange(start as int, n as int),
            d == unsigned_part(p@),
            forall|j: int| start <= j < i ==> is_digit(#[trigger] p@[j]),
            acc as nat == if digits_value(p@.subrange(start as int, i as int)) <= 255 {
                digits_value(p@.subrange(start as int, i as int))
            } else {
                256
            },
        decreases n - i,
    {
        let c = p.get_char(i);
        if !('0' <= c && c <= '9') {
            assert(d[i - start] == c);
            assert(!is_digit(d[i - start]));
            return None;
        }
        let v = (c as u32) - ('0' as u32);
        proof {
            let q = p@.subrange(start as int, i + 1);
            assert(q.drop_last() =~= p@.subrange(start as int, i as int));
            assert(q.last() == c);
        }
        acc = if acc * 10 + v > 255 {
            256
        } else {
            acc * 10 + v
        };
        i = i + 1;
    }
    assert(d =~= p@.subrange(start as int, i as int));
    if acc > 255 {
        None
    } else {
        Some(acc as u8)
    }
}

/// The text that `String::from_utf8_lossy` makes of `bytes`.
pub uninterp spec fn utf8_lossy(bytes: Seq<u8>) -> Seq<char>;

/// `String::from_utf8_lossy`: the text of `bytes` with each invalid sequence replaced by
/// U+FFFD. Claimed: the result is a function of the bytes alone (named `utf8_lossy`), and bytes
/// that are valid UTF-8 give exactly the text they encode. What replaces an invalid sequence is
/// left unstated.
#[verifier::external_body]
pub(crate) fn text_from_bytes(bytes: &[u8]) -> (s: String)
    ensures
        s@ == utf8_lossy(bytes@),
        vstd::utf8::valid_utf8(bytes@) ==> s@ == vstd::utf8::decode_utf8(bytes@),
{
    String::from_utf8_lossy(bytes).into_owned()
}


/// `p` occurs in `s` at `i`.
pub open spec fn occurs_at(s: Seq<char>, p: Seq<char>, i: int) -> bool {
    0 <= i && i + p.len() <= s.len() && s.subrange(i, i + p.len()) == p
}

/// `p` occurs somewhere in `s` (empty text occurs everywhere).
pub open spec fn contains_text(s: Seq<char>, p: Seq<char>) -> bool {
    exists|i: int| #[trigger] occurs_at(s, p, i)
}

/// Whether `p` occurs in `s`.
pub fn contains(s: &str, p: &str) -> (r: bool)
    ensures
        r == contains_text(s@, p@),
{
    let n = s.unicode_len();
    let m = p.unicode_len();
    if m > n {
        assert forall|i: int| !occurs_at(s@, p@, i) by {}
        return false;
    }
    if m == 0 {
        assert(s@.subrange(0, 0) =~= p@);
        assert(occurs_at(s@, p@, 0));
        return true;
    }
    let mut i: usize = 0;
    while n - i >= m
        invariant
            n == s@.len(),
            m == p@.len(),
            1 <= m <= n,
            i <= n,
            forall|j: int| 0 <= j < i ==> !#[trigger] occurs_at(s@, p@, j),
        decreases n - i,
    {
        if str_eq(s.substring_char(i, i + m), p) {
            assert(occurs_at(s@, p@, i as int));
            return true;
        }
        i = i + 1;
    }
    assert forall|j: int| !occurs_at(s@, p@, j) by {
        if 0 <= j && j + m <= n {
            assert(j < i);
        }
    }
    false
}

/// `s` with every occurrence of `from` replaced by `to`, left to right and without overlap, as
/// `str::replace` does it; empty `from` matches before every character and at the end.
pub open spec fn replaced(s: Seq<char>, from: Seq<char>, to: Seq<char>) -> Seq<char>
    decreases s.len(),
{
    if s.len() == 0 {
        if from.len() == 0 {
            to
        } else {
            seq![]
        }
    } else if from.len() == 0 {
        to + seq![s[0]] + replaced(s.drop_first(), from, to)
    } else if occurs_at(s, from, 0) {
        to + replaced(s.subrange(from.len() as int, s.len() as int), from, to)
    } else {
        seq![s[0]] + replaced(s.drop_first(), from, to)
    }
}

/// `s` with every occurrence of `from` replaced by `to`.
pub fn replace(s: &str, from: &str, to: &str) -> (r: String)
    ensures
        r@ == replaced(s@, from@, to@),
{
    let n = s.unicode_len();
    let m = from.unicode_len();
    let mut r = String::new();
    let mut i: usize = 0;
    assert(s@.subrange(0, n as int) =~= s@);
    while i < n
        invariant
            n == s@.len(),
            m == from@.len(),
            i <= n,
            replaced(s@, from@, to@) == r@ + replaced(s@.subrange(i as int, n as int), from@, to@),
        decreases n - i,
    {
        let ghost rest = s@.subrange(i as int, n as int);
        if m == 0 {
            r.append(to);
            r.append(s.substring_char(i, i + 1));
            proof {
                assert(rest.drop_first() =~= s@.subrange(i + 1, n as int));
                assert(s@.subrange(i as int, i + 1) =~= seq![rest[0]]);
            }
            i = i + 1;
        } else if n - i >= m && str_eq(s.substring_char(i, i + m), from) {
            r.append(to);
            proof {
                assert(rest.subrange(0, m as int) =~= s@.subrange(i as int, i + m));
                assert(occurs_at(rest, from@, 0));
                assert(rest.subrange(m as int, rest.len() as int) =~= s@.subrange(i + m, n as int));
            }
            i = i + m;
        } else {
            r.append(s.substring_char(i, i + 1));
            proof {
                if occurs_at(rest, from@, 0) {
                    assert(rest.subrange(0, m as int) =~= s@.subrange(i as int, i + m));
                }
                assert(rest.drop_first() =~= s@.subrange(i + 1, n as int));
                assert(s@.subrange(i as int, i + 1) =~= seq![rest[0]]);
            }
            i = i + 1;
        }
        proof {
            assert(replaced(s@, from@, to@) =~= r@ + replaced(
                s@.subrange(i as int, n as int),
                from@,
                to@,
            ));
        }
    }
    if m == 0 {
        r.append(to);
    }
    proof {
        assert(s@.subrange(n as int, n as int) =~= Seq::<char>::empty());
    }
    r
}

/// The text that `str::to_lowercase` makes of `s`.
pub uninterp spec fn lowercase(s: Seq<char>) -> Seq<char>;

/// `str::to_lowercase`: `s` with every character mapped to its Unicode lowercase. Claimed: the
/// result is a function of the text alone, named `lowercase`; the Unicode case tables are left
/// unstated.
#[verifier::external_body]
pub(crate) fn to_lowercase(s: &str) -> (r: String)
    ensures
        r@ == lowercase(s@),
{
    s.to_lowercase()
}

/// `parts` joined by `sep`.
pub open spec fn joined(parts: Seq<Seq<char>>, sep: Seq<char>) -> Seq<char>
    decreases parts.len(),
{
    if parts.len() == 0 {
        seq![]
    } else if parts.len() == 1 {
        parts[0]
    } else {
        joined(parts.drop_last(), sep) + sep + parts.last()
    }
}

/// The texts of a list of strings.
pub open spec fn strings_view(v: Seq<String>) -> Seq<Seq<char>> {
    v.map_values(|s: String| s@)
}

/// `parts` joined by `sep`.
pub fn join(parts: &Vec<String>, sep: &str) -> (r: String)
    ensures
        r@ == joined(strings_view(parts@), sep@),
{
    let ghost view = strings_view(parts@);
    let mut r = String::new();
    let mut i: usize = 0;
    while i < parts.len()
        invariant
            i <= parts@.len(),
            view == strings_view(parts@),
            r@ == joined(view.subrange(0, i as int), sep@),
        decreases parts@.len() - i,
    {
        if i > 0 {
            r.append(sep);
        }
        r.append(parts[i].as_str());
        proof {
            let p = view.subrange(0, i + 1);
            assert(p.drop_last() =~= view.subrange(0, i as int));
            if i == 0 {
                assert(joined(view.subrange(0, 0), sep@) =~= Seq::<char>::empty());
            }
        }
        i = i + 1;
        assert(r@ =~= joined(view.subrange(0, i as int), sep@));
    }
    assert(view.subrange(0, i as int) =~= view);
    r
}

/// The decimal digits of `m`, most significant first, without leading zeros.
pub open spec fn digit_chars(m: nat) -> Seq<char>
    decreases m,
{
    if m < 10 {
        seq![(48 + m) as char]
    } else {
        digit_chars(m / 10) + seq![(48 + m % 10) as char]
    }
}

/// The decimal text of `n`.
pub open spec fn decimal_chars(n: int) -> Seq<char> {
    if n < 0 {
        seq!['-'] + digit_chars((-n) as nat)
    } else {
        digit_chars(n as nat)
    }
}

pub(crate) fn push_digits(out: &mut String, m: u64)
    ensures
        final(out)@ == old(out)@ + digit_chars(m as nat),
    decreases m,
{
    if m >= 10 {
        push_digits(out, m / 10);
    }
    let d = (m % 10) as usize;
    proof {
        reveal_strlit("0123456789");
    }
    let digit = "0123456789".substring_char(d, d + 1);
    assert(digit@ =~= seq![(48 + m % 10) as char]);
    out.append(digit);
}

/// Appends the decimal text of `n`.
pub fn push_decimal(out: &mut String, n: i64)
    ensures
        final(out)@ == old(out)@ + decimal_chars(n as int),
{
    if n < 0 {
        out.append("-");
        let m: u64 = ((-(n + 1)) as u64) + 1;
        push_digits(out, m);
        proof {
            reveal_strlit("-");
        }
        assert(final(out)@ =~= old(out)@ + decimal_chars(n as int));
    } else {
        push_digits(out, n as u64);
    }
}

/// `a` comes before `b` in lexicographic order of their characters (a proper prefix first), the
/// order of `String`'s comparison.
pub open spec fn text_lt(a: Seq<char>, b: Seq<char>) -> bool
    decreases a.len(),
{
    if a.len() == 0 {
        b.len() > 0
    } else if b.len() == 0 {
        false
    } else if a[0] != b[0] {
        (a[0] as int) < (b[0] as int)
    } else {
        text_lt(a.drop_first(), b.drop_first())
    }
}

proof fn lemma_text_lt_irreflexive(a: Seq<char>)
    ensures
        !text_lt(a, a),
    decreases a.len(),
{
    if a.len() > 0 {
        lemma_text_lt_irreflexive(a.drop_first());
    }
}

proof fn lemma_text_lt_asymmetric(a: Seq<char>, b: Seq<char>)
    ensures
        text_lt(a, b) ==> !text_lt(b, a),
    decreases a.len(),
{
    if a.len() > 0 && b.len() > 0 && a[0] == b[0] {
        lemma_text_lt_asymmetric(a.drop_first(), b.drop_first());
    }
}

proof fn lemma_text_lt_transitive(a: Seq<char>, b: Seq<char>, c: Seq<char>)
    ensures
        text_lt(a, b) && text_lt(b, c) ==> text_lt(a, c),
    decreases a.len(),
{
    if a.len() > 0 && b.len() > 0 && c.len() > 0 {
        lemma_text_lt_transitive(a.drop_first(), b.drop_first(), c.drop_first());
    }
}

proof fn lemma_text_lt_total(a: Seq<char>, b: Seq<char>)
    ensures
        a != b ==> text_lt(a, b) || text_lt(b, a),
    decreases a.len(),
{
    if a.len() > 0 && b.len() > 0 {
        lemma_text_lt_total(a.drop_first(), b.drop_first());
        if a != b && a[0] == b[0] {
            assert(a =~= seq![a[0]] + a.drop_first());
            assert(b =~= seq![b[0]] + b.drop_first());
        }
    } else if a.len() == 0 && b.len() == 0 {
        assert(a =~= b);
    }
}

/// `text_lt` is a strict total order: irreflexive, asymmetric, transitive, and of two different
/// texts one comes first.
pub proof fn lemma_text_order(a: Seq<char>, b: Seq<char>, c: Seq<char>)
    ensures
        !text_lt(a, a),
        text_lt(a, b) ==> !text_lt(b, a),
        text_lt(a, b) && text_lt(b, c) ==> text_lt(a, c),
        a != b ==> text_lt(a, b) || text_lt(b, a),
{
    lemma_text_lt_irreflexive(a);
    lemma_text_lt_asymmetric(a, b);
    lemma_text_lt_transitive(a, b, c);
    lemma_text_lt_total(a, b);
}

/// Whether `a` comes before `b` in lexicographic order of their characters.
pub fn text_less(a: &str, b: &str) -> (r: bool)
    ensures
        r == text_lt(a@, b@),
{
    let n = a.unicode_len();
    let m = b.unicode_len();
    let mut i: usize = 0;
    assert(a@.subrange(0, n as int) =~= a@);
    assert(b@.subrange(0, m as int) =~= b@);
    while i < n && i < m
        invariant
            n == a@.len(),
            m == b@.len(),
            i <= n,
            i <= m,
            a@.subrange(0, i as int) == b@.subrange(0, i as int),
            text_lt(a@, b@) == text_lt(a@.subrange(i as int, n as int), b@.subrange(i as int, m as int)),
        decreases n - i,
    {
        let x = a.get_char(i);
        let y = b.get_char(i);
        let ghost ra = a@.subrange(i as int, n as int);
        let ghost rb = b@.subrange(i as int, m as int);
        assert(ra[0] == x && rb[0] == y);
        if x != y {
            return (x as u32) < (y as u32);
        }
        assert(ra.drop_first() =~= a@.subrange(i + 1, n as int));
        assert(rb.drop_first() =~= b@.subrange(i + 1, m as int));
        assert(a@.subrange(0, i + 1) =~= a@.subrange(0, i as int).push(x));
        assert(b@.subrange(0, i + 1) =~= b@.subrange(0, i as int).push(y));
        i = i + 1;
    }
    i < m && i == n
}

/// Ten to the `k`.
pub open spec fn pow10(k: nat) -> nat
    decreases k,
{
    if k == 0 {
        1
    } else {
        10 * pow10((k - 1) as nat)
    }
}

/// A number below ten to the `k` has at most `k` digits.
proof fn lemma_digit_count(m: nat, k: nat)
    requires
        k >= 1,
        m < pow10(k),
    ensures
        digit_chars(m).len() <= k,
    decreases k,
{
    if m >= 10 {
        assert(k >= 2) by {
            if k == 1 {
                assert(pow10(1) == 10) by {
                    assert(pow10(0) == 1);
                }
            }
        }
        assert(m / 10 < pow10((k - 1) as nat));
        lemma_digit_count(m / 10, (k - 1) as nat);
    }
}

/// `k` zeros (none when `k` is not positive).
pub open spec fn zeros(k: int) -> Seq<char> {
    Seq::new(if k > 0 {
        k as nat
    } else {
        0
    }, |_i: int| '0')
}

/// The decimal text of `n` padded with zeros after the sign to at least `width` characters, as
/// `format!("{:0width$}", n)` writes an integer.
pub open spec fn zero_padded(n: int, width: int) -> Seq<char> {
    let sign: Seq<char> = if n < 0 {
        seq!['-']
    } else {
        seq![]
    };
    let digits = if n < 0 {
        digit_chars((-n) as nat)
    } else {
        digit_chars(n as nat)
    };
    sign + zeros(width - sign.len() - digits.len()) + digits
}

/// Appends the decimal text of `n` padded with zeros after the sign to at least `width`
/// characters.
pub fn push_zero_padded(out: &mut String, n: i64, width: usize)
    ensures
        final(out)@ == old(out)@ + zero_padded(n as int, width as int),
{
    let mut digits = String::new();
    let neg = n < 0;
    if neg {
        let m: u64 = ((-(n + 1)) as u64) + 1;
        push_digits(&mut digits, m);
    } else {
        push_digits(&mut digits, n as u64);
    }
    assert(digits@ =~= if n < 0 {
        digit_chars((-n) as nat)
    } else {
        digit_chars(n as nat)
    });
    let sign_len: usize = if neg {
        1
    } else {
        0
    };
    if neg {
        out.append("-");
    }
    let dl = digits.unicode_len();
    proof {
        assert(pow10(20) == 100_000_000_000_000_000_000nat) by {
            reveal_with_fuel(pow10, 21);
        }
        if n < 0 {
            lemma_digit_count((-n) as nat, 20);
        } else {
            lemma_digit_count(n as nat, 20);
        }
    }
    let ghost start = out@;
    let mut k: usize = sign_len + dl;
    while k < width
        invariant
            sign_len + dl <= k,
            k <= width || k == sign_len + dl,
            out@ == start + zeros(k - sign_len - dl),
        decreases width - k,
    {
        out.append("0");
        proof {
            reveal_strlit("0");
        }
        k = k + 1;
        assert(out@ =~= start + zeros(k - sign_len - dl));
    }
    out.append(digits.as_str());
    proof {
        reveal_strlit("-");
        assert(zeros(k - sign_len - dl) =~= zeros(width - sign_len - dl));
        assert(final(out)@ =~= old(out)@ + zero_padded(n as int, width as int));
    }
}

/// The digits of a number are ascii digits, at least one, and read back as the number.
pub proof fn lemma_digit_chars(m: nat)
    ensures
        digit_chars(m).len() >= 1,
        all_digits(digit_chars(m)),
        digits_value(digit_chars(m)) == m,
    decreases m,
{
    let c = (48 + m % 10) as char;
    assert(digit_value(c) == m % 10) by {
        assert((c as u32) == 48 + m % 10);
    }
    if m < 10 {
        let d = digit_chars(m);
        assert(d.drop_last() =~= Seq::<char>::empty());
        assert(digits_value(d.drop_last()) == 0);
        assert(d.last() == c);
        assert(m % 10 == m);
    } else {
        lemma_digit_chars(m / 10);
        let d = digit_chars(m);
        assert(d.drop_last() =~= digit_chars(m / 10));
        assert(d.last() == c);
        assert((m / 10) * 10 + m % 10 == m);
        assert(digits_value(d) == digits_value(d.drop_last()) * 10 + digit_value(d.last()));
        assert forall|i: int| 0 <= i < d.len() implies is_digit(#[trigger] d[i]) by {
            if i < d.len() - 1 {
                assert(d[i] == digit_chars(m / 10)[i]);
            }
        }
    }
}

/// Leading zeros do not change the number a run of digits writes.
pub proof fn lemma_leading_zeros(k: int, s: Seq<char>)
    ensures
        digits_value(zeros(k) + s) == digits_value(s),
    decreases s.len(),
{
    if s.len() == 0 {
        lemma_zeros_value(if k > 0 {
            k as nat
        } else {
            0
        });
        assert(zeros(k) + s =~= zeros(k));
    } else {
        lemma_leading_zeros(k, s.drop_last());
        assert((zeros(k) + s).drop_last() =~= zeros(k) + s.drop_last());
    }
}

proof fn lemma_zeros_value(k: nat)
    ensures
        digits_value(zeros(k as int)) == 0,
        all_digits(zeros(k as int)),
    decreases k,
{
    if k > 0 {
        lemma_zeros_value((k - 1) as nat);
        assert(zeros(k as int).drop_last() =~= zeros(k - 1));
        assert(digit_value('0') == 0);
    }
}

/// The sign, and the run of digits after it, of a zero-padded number.
proof fn lemma_zero_padded_parts(n: int, w: int)
    ensures
        zero_padded(n, w).len() >= 1,
        (zero_padded(n, w)[0] == '-') <==> n < 0,
        n < 0 ==> all_digits(zero_padded(n, w).drop_first()) && digits_value(
            zero_padded(n, w).drop_first(),
        ) == -n,
        n >= 0 ==> all_digits(zero_padded(n, w)) && digits_value(zero_padded(n, w)) == n,
{
    let m: nat = if n < 0 {
        (-n) as nat
    } else {
        n as nat
    };
    lemma_digit_chars(m);
    let d = digit_chars(m);
    let sign: Seq<char> = if n < 0 {
        seq!['-']
    } else {
        seq![]
    };
    let z = zeros(w - sign.len() - d.len());
    lemma_leading_zeros(w - sign.len() - d.len(), d);
    let k = if w - sign.len() - d.len() > 0 {
        (w - sign.len() - d.len()) as nat
    } else {
        0
    };
    lemma_zeros_value(k);
    assert(zero_padded(n, w) =~= sign + z + d);
    assert(all_digits(z + d)) by {
        assert forall|i: int| 0 <= i < (z + d).len() implies is_digit(#[trigger] (z + d)[i]) by {
            if i < z.len() {
                assert((z + d)[i] == z[i]);
            } else {
                assert((z + d)[i] == d[i - z.len()]);
            }
        }
    }
    if n < 0 {
        assert(zero_padded(n, w).drop_first() =~= z + d);
    } else {
        assert(zero_padded(n, w) =~= z + d);
        assert((z + d)[0] != '-') by {
            assert(is_digit((z + d)[0]));
        }
    }
}

/// A zero-padded number writes only one number.
pub proof fn lemma_zero_padded_injective(a: int, b: int, w: int)
    ensures
        zero_padded(a, w) == zero_padded(b, w) ==> a == b,
{
    lemma_zero_padded_parts(a, w);
    lemma_zero_padded_parts(b, w);
}

/// The characters of a zero-padded number are digits and at most a leading `-`.
pub proof fn lemma_zero_padded_chars(n: int, w: int)
    ensures
        forall|i: int|
            0 <= i < zero_padded(n, w).len() ==> is_digit(#[trigger] zero_padded(n, w)[i]) || (i
                == 0 && zero_padded(n, w)[i] == '-'),
{
    lemma_zero_padded_parts(n, w);
    let s = zero_padded(n, w);
    assert forall|i: int| 0 <= i < s.len() implies is_digit(#[trigger] s[i]) || (i == 0 && s[i]
        == '-') by {
        if n < 0 {
            if i > 0 {
                assert(s[i] == s.drop_first()[i - 1]);
            }
        }
    }
}

} // verus!
