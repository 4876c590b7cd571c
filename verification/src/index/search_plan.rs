// the text search over admin levels, as a plan of query clauses. two queries are planned:
//   strict — every query token must match exactly in the name or the hierarchy; bonuses for the
//     tokens in order (a phrase), for the spelling as written, and for the lower-cased spelling.
//   loose — run only when strict finds nothing: each token exact or fuzzy, in either field.
// both are restricted, without scoring, to the admin levels and the ids asked for. the index
// itself runs the clauses; the library decides which clauses there are.
use vstd::prelude::*;
use tantivy::tokenizer::{AsciiFoldingFilter, LowerCaser, SimpleTokenizer, TextAnalyzer};
use crate::index::admin_levels_hierarchy_tantivy::fuzzy_distance_for;
use crate::text::{strings_view, to_owned_string};

verus! {

/// The indexed text fields: an entity's name and its hierarchy (its ancestors' names), each
/// folded (lower-cased, accents removed), strict (as written) and lower (lower-cased only).
#[derive(Clone, Copy, PartialEq, Eq, Debug, Structural)]
pub enum text_field {
    name,
    hier,
    name_strict,
    hier_strict,
    name_lower,
    hier_lower,
}

/// Which of the configured boosts a clause is weighted with.
#[derive(Clone, Copy, PartialEq, Eq, Debug, Structural)]
pub enum boost_of {
    name_exact,
    name_fuzzy,
    name_phrase,
    name_strict,
    name_lower,
    hier_exact,
    hier_fuzzy,
    hier_phrase,
    hier_strict,
    hier_lower,
}

/// What a clause asks of a document.
#[derive(Debug, PartialEq)]
pub enum plan_query {
    /// The token, exactly, in the folded name (boost `name_exact`) or the folded hierarchy
    /// (boost `hier_exact`).
    exact_in_name_or_hier { token: String },
    /// The token, exactly, in the field.
    term { field: text_field, token: String, boost: boost_of },
    /// The token within `distance` edits (a transposition counting as one) in the field.
    fuzzy { field: text_field, token: String, distance: u8, boost: boost_of },
    /// The tokens, in order and next to each other, in the field.
    phrase { field: text_field, tokens: Vec<String>, boost: boost_of },
    /// An admin level among `levels`; it adds nothing to the score.
    admin_levels { levels: Vec<u8> },
    /// An id among `ids`; it adds nothing to the score.
    ids { ids: Vec<i64> },
}

/// A clause of a query: one that a document must match, or one that only adds to its score.
#[derive(Debug, PartialEq)]
pub struct plan_clause {
    pub must: bool,
    pub query: plan_query,
}

/// A clause's query, its text taken as character sequences.
pub enum query_spec {
    exact_in_name_or_hier(Seq<char>),
    term(text_field, Seq<char>, boost_of),
    fuzzy(text_field, Seq<char>, u8, boost_of),
    phrase(text_field, Seq<Seq<char>>, boost_of),
    admin_levels(Seq<u8>),
    ids(Seq<i64>),
}

pub open spec fn query_view(q: plan_query) -> query_spec {
    match q {
        plan_query::exact_in_name_or_hier { token } => query_spec::exact_in_name_or_hier(token@),
        plan_query::term { field, token, boost } => query_spec::term(field, token@, boost),
        plan_query::fuzzy { field, token, distance, boost } => query_spec::fuzzy(
            field,
            token@,
            distance,
            boost,
        ),
        plan_query::phrase { field, tokens, boost } => query_spec::phrase(
            field,
            strings_view(tokens@),
            boost,
        ),
        plan_query::admin_levels { levels } => query_spec::admin_levels(levels@),
        plan_query::ids { ids } => query_spec::ids(ids@),
    }
}

/// The clauses of a query, each as whether it is required and what it asks.
pub open spec fn plan_view(p: Seq<plan_clause>) -> Seq<(bool, query_spec)> {
    p.map_values(|c: plan_clause| (c.must, query_view(c.query)))
}

/// Every token required, exactly, in the name or the hierarchy.
pub open spec fn every_token_clauses(tokens: Seq<Seq<char>>) -> Seq<(bool, query_spec)> {
    tokens.map_values(|t: Seq<char>| (true, query_spec::exact_in_name_or_hier(t)))
}

/// With two tokens or more, a bonus for all of them in order in the name, and one in the
/// hierarchy.
pub open spec fn phrase_clauses(tokens: Seq<Seq<char>>) -> Seq<(bool, query_spec)> {
    if tokens.len() >= 2 {
        seq![
            (false, query_spec::phrase(text_field::name, tokens, boost_of::name_phrase)),
            (false, query_spec::phrase(text_field::hier, tokens, boost_of::hier_phrase)),
        ]
    } else {
        seq![]
    }
}

/// For each token, a bonus for it in one field and then in another.
pub open spec fn bonus_clauses(
    tokens: Seq<Seq<char>>,
    f1: text_field,
    b1: boost_of,
    f2: text_field,
    b2: boost_of,
) -> Seq<(bool, query_spec)>
    decreases tokens.len(),
{
    if tokens.len() == 0 {
        seq![]
    } else {
        bonus_clauses(tokens.drop_last(), f1, b1, f2, b2) + seq![
            (false, query_spec::term(f1, tokens.last(), b1)),
            (false, query_spec::term(f2, tokens.last(), b2)),
        ]
    }
}

/// The restrictions asked for: to the admin levels, then to the ids.
pub open spec fn filter_clauses(levels: Option<Seq<u8>>, ids: Option<Seq<i64>>) -> Seq<
    (bool, query_spec),
> {
    (match levels {
        Some(l) => seq![(true, query_spec::admin_levels(l))],
        None => seq![],
    }) + (match ids {
        Some(i) => seq![(true, query_spec::ids(i))],
        None => seq![],
    })
}

/// The strict query: `tokens` are the folded query tokens, `strict` the tokens as written,
/// `lower` the lower-cased ones.
pub open spec fn strict_plan(
    tokens: Seq<Seq<char>>,
    strict: Seq<Seq<char>>,
    lower: Seq<Seq<char>>,
    levels: Option<Seq<u8>>,
    ids: Option<Seq<i64>>,
) -> Seq<(bool, query_spec)> {
    every_token_clauses(tokens) + phrase_clauses(tokens) + bonus_clauses(
        strict,
        text_field::name_strict,
        boost_of::name_strict,
        text_field::hier_strict,
        boost_of::hier_strict,
    ) + bonus_clauses(
        lower,
        text_field::name_lower,
        boost_of::name_lower,
        text_field::hier_lower,
        boost_of::hier_lower,
    ) + filter_clauses(levels, ids)
}

/// The edit distance a fuzzy match of a token tolerates.
pub open spec fn fuzzy_distance(token: Seq<char>) -> u8 {
    if token.len() < 4 {
        1
    } else {
        2
    }
}

/// For each token: exact in the name, fuzzy in the name, exact in the hierarchy, fuzzy in the
/// hierarchy.
pub open spec fn loose_token_clauses(tokens: Seq<Seq<char>>) -> Seq<(bool, query_spec)>
    decreases tokens.len(),
{
    if tokens.len() == 0 {
        seq![]
    } else {
        let t = tokens.last();
        let d = fuzzy_distance(t);
        loose_token_clauses(tokens.drop_last()) + seq![
            (false, query_spec::term(text_field::name, t, boost_of::name_exact)),
            (false, query_spec::fuzzy(text_field::name, t, d, boost_of::name_fuzzy)),
            (false, query_spec::term(text_field::hier, t, boost_of::hier_exact)),
            (false, query_spec::fuzzy(text_field::hier, t, d, boost_of::hier_fuzzy)),
        ]
    }
}

/// The loose query over the folded query tokens.
pub open spec fn loose_plan(tokens: Seq<Seq<char>>, levels: Option<Seq<u8>>, ids: Option<Seq<i64>>) -> Seq<
    (bool, query_spec),
> {
    loose_token_clauses(tokens) + filter_clauses(levels, ids)
}

/// The loose query keeps the strict query's restrictions: both end with the same required
/// clauses, which restrict to the admin levels when levels are asked for and to the ids when ids
/// are; so the fallback never answers an admin level that the strict query would have excluded.
pub proof fn lemma_plans_share_restrictions(
    tokens: Seq<Seq<char>>,
    strict: Seq<Seq<char>>,
    lower: Seq<Seq<char>>,
    levels: Option<Seq<u8>>,
    ids: Option<Seq<i64>>,
)
    ensures
        ({
            let s = strict_plan(tokens, strict, lower, levels, ids);
            let l = loose_plan(tokens, levels, ids);
            let m = (if levels is Some { 1int } else { 0int }) + (if ids is Some { 1int } else { 0int });
            &&& m <= s.len()
            &&& m <= l.len()
            &&& s.subrange(s.len() - m, s.len() as int) == l.subrange(l.len() - m, l.len() as int)
            &&& (levels matches Some(lv) ==> l.contains((true, query_spec::admin_levels(lv)))
                && s.contains((true, query_spec::admin_levels(lv))))
            &&& (ids matches Some(iv) ==> l.contains((true, query_spec::ids(iv))) && s.contains(
                (true, query_spec::ids(iv)),
            ))
        }),
{
    let s = strict_plan(tokens, strict, lower, levels, ids);
    let l = loose_plan(tokens, levels, ids);
    let f = filter_clauses(levels, ids);
    let m = (if levels is Some { 1int } else { 0int }) + (if ids is Some { 1int } else { 0int });
    assert(f.len() == m);
    assert(s.subrange(s.len() - m, s.len() as int) =~= f);
    assert(l.subrange(l.len() - m, l.len() as int) =~= f);
    if let Some(lv) = levels {
        assert(f[0] == (true, query_spec::admin_levels(lv)));
        assert(s[s.len() - m] == f[0]);
        assert(l[l.len() - m] == f[0]);
    }
    if let Some(iv) = ids {
        assert(f[m - 1] == (true, query_spec::ids(iv)));
        assert(s[s.len() - 1] == f[m - 1]);
        assert(l[l.len() - 1] == f[m - 1]);
    }
}

/// The two queries of a search.
#[derive(Debug, PartialEq)]
pub struct search_plan {
    pub strict: Vec<plan_clause>,
    pub loose: Vec<plan_clause>,
}

fn copy_strings(v: &Vec<String>) -> (r: Vec<String>)
    ensures
        strings_view(r@) == strings_view(v@),
{
    let mut r: Vec<String> = Vec::new();
    let mut i: usize = 0;
    while i < v.len()
        invariant
            i <= v@.len(),
            strings_view(r@) == strings_view(v@).subrange(0, i as int),
        decreases v@.len() - i,
    {
        let s = to_owned_string(v[i].as_str());
        let ghost before = r@;
        r.push(s);
        proof {
            assert(strings_view(r@) =~= strings_view(before).push(v@[i as int]@));
        }
        i = i + 1;
        assert(strings_view(r@) =~= strings_view(v@).subrange(0, i as int));
    }
    assert(strings_view(v@).subrange(0, i as int) =~= strings_view(v@));
    r
}

fn copy_slice<T: Copy>(s: &[T]) -> (r: Vec<T>)
    ensures
        r@ == s@,
{
    let mut r: Vec<T> = Vec::new();
    let mut i: usize = 0;
    while i < s.len()
        invariant
            i <= s@.len(),
            r@ == s@.subrange(0, i as int),
        decreases s@.len() - i,
    {
        r.push(s[i]);
        i = i + 1;
        assert(r@ =~= s@.subrange(0, i as int));
    }
    assert(s@.subrange(0, i as int) =~= s@);
    r
}

fn push_clause(out: &mut Vec<plan_clause>, must: bool, query: plan_query)
    ensures
        plan_view(final(out)@) == plan_view(old(out)@).push((must, query_view(query))),
{
    out.push(plan_clause { must, query });
    assert(plan_view(final(out)@) =~= plan_view(old(out)@).push((must, query_view(query))));
}

fn push_every_token(out: &mut Vec<plan_clause>, tokens: &Vec<String>)
    ensures
        plan_view(final(out)@) == plan_view(old(out)@) + every_token_clauses(strings_view(tokens@)),
{
    let ghost start = plan_view(out@);
    let ghost toks = strings_view(tokens@);
    let mut i: usize = 0;
    while i < tokens.len()
        invariant
            i <= tokens@.len(),
            toks == strings_view(tokens@),
            plan_view(out@) == start + every_token_clauses(toks.subrange(0, i as int)),
        decreases tokens@.len() - i,
    {
        let token = to_owned_string(tokens[i].as_str());
        push_clause(out, true, plan_query::exact_in_name_or_hier { token });
        i = i + 1;
        assert(every_token_clauses(toks.subrange(0, i as int)) =~= every_token_clauses(
            toks.subrange(0, i - 1),
        ).push((true, query_spec::exact_in_name_or_hier(toks[i - 1]))));
        assert(plan_view(out@) =~= start + every_token_clauses(toks.subrange(0, i as int)));
    }
    assert(toks.subrange(0, i as int) =~= toks);
}

fn push_bonus(
    out: &mut Vec<plan_clause>,
    tokens: &Vec<String>,
    f1: text_field,
    b1: boost_of,
    f2: text_field,
    b2: boost_of,
)
    ensures
        plan_view(final(out)@) == plan_view(old(out)@) + bonus_clauses(
            strings_view(tokens@),
            f1,
            b1,
            f2,
            b2,
        ),
{
    let ghost start = plan_view(out@);
    let ghost toks = strings_view(tokens@);
    let mut i: usize = 0;
    while i < tokens.len()
        invariant
            i <= tokens@.len(),
            toks == strings_view(tokens@),
            plan_view(out@) == start + bonus_clauses(toks.subrange(0, i as int), f1, b1, f2, b2),
        decreases tokens@.len() - i,
    {
        let t1 = to_owned_string(tokens[i].as_str());
        let t2 = to_owned_string(tokens[i].as_str());
        push_clause(out, false, plan_query::term { field: f1, token: t1, boost: b1 });
        push_clause(out, false, plan_query::term { field: f2, token: t2, boost: b2 });
        i = i + 1;
        assert(toks.subrange(0, i as int).drop_last() =~= toks.subrange(0, i - 1));
        assert(plan_view(out@) =~= start + bonus_clauses(
            toks.subrange(0, i as int),
            f1,
            b1,
            f2,
            b2,
        ));
    }
    assert(toks.subrange(0, i as int) =~= toks);
}

fn push_filters(out: &mut Vec<plan_clause>, levels: Option<&[u8]>, ids: Option<&[i64]>)
    ensures
        plan_view(final(out)@) == plan_view(old(out)@) + filter_clauses(
            match levels {
                Some(l) => Some(l@),
                None => None,
            },
            match ids {
                Some(i) => Some(i@),
                None => None,
            },
        ),
{
    let ghost start = plan_view(out@);
    match levels {
        Some(l) => {
            push_clause(out, true, plan_query::admin_levels { levels: copy_slice(l) });
        },
        None => {},
    }
    match ids {
        Some(i) => {
            push_clause(out, true, plan_query::ids { ids: copy_slice(i) });
        },
        None => {},
    }
    assert(plan_view(out@) =~= start + filter_clauses(
        match levels {
            Some(l) => Some(l@),
            None => None,
        },
        match ids {
            Some(i) => Some(i@),
            None => None,
        },
    ));
}

fn push_loose_tokens(out: &mut Vec<plan_clause>, tokens: &Vec<String>)
    ensures
        plan_view(final(out)@) == plan_view(old(out)@) + loose_token_clauses(strings_view(tokens@)),
{
    let ghost start = plan_view(out@);
    let ghost toks = strings_view(tokens@);
    let mut i: usize = 0;
    while i < tokens.len()
        invariant
            i <= tokens@.len(),
            toks == strings_view(tokens@),
            plan_view(out@) == start + loose_token_clauses(toks.subrange(0, i as int)),
        decreases tokens@.len() - i,
    {
        let t = tokens[i].as_str();
        let distance = fuzzy_distance_for(t);
        push_clause(
            out,
            false,
            plan_query::term { field: text_field::name, token: to_owned_string(t), boost: boost_of::name_exact },
        );
        push_clause(
            out,
            false,
            plan_query::fuzzy {
                field: text_field::name,
                token: to_owned_string(t),
                distance,
                boost: boost_of::name_fuzzy,
            },
        );
        push_clause(
            out,
            false,
            plan_query::term { field: text_field::hier, token: to_owned_string(t), boost: boost_of::hier_exact },
        );
        push_clause(
            out,
            false,
            plan_query::fuzzy {
                field: text_field::hier,
                token: to_owned_string(t),
                distance,
                boost: boost_of::hier_fuzzy,
            },
        );
        i = i + 1;
        assert(toks.subrange(0, i as int).drop_last() =~= toks.subrange(0, i - 1));
        assert(plan_view(out@) =~= start + loose_token_clauses(toks.subrange(0, i as int)));
    }
    assert(toks.subrange(0, i as int) =~= toks);
}

/// The two queries of a search whose folded tokens are `tokens`, whose tokens as written are
/// `strict_tokens` and lower-cased `lower_tokens`, restricted to `levels` and `ids` when given;
/// none when the query has no token.
pub fn plan_for_tokens(
    tokens: &Vec<String>,
    strict_tokens: &Vec<String>,
    lower_tokens: &Vec<String>,
    levels: Option<&[u8]>,
    ids: Option<&[i64]>,
) -> (p: Option<search_plan>)
    ensures
        p is None <==> tokens@.len() == 0,
        p matches Some(sp) ==> plan_view(sp.strict@) == strict_plan(
            strings_view(tokens@),
            strings_view(strict_tokens@),
            strings_view(lower_tokens@),
            match levels {
                Some(l) => Some(l@),
                None => None,
            },
            match ids {
                Some(i) => Some(i@),
                None => None,
            },
        ) && plan_view(sp.loose@) == loose_plan(
            strings_view(tokens@),
            match levels {
                Some(l) => Some(l@),
                None => None,
            },
            match ids {
                Some(i) => Some(i@),
                None => None,
            },
        ),
        p matches Some(sp) ==> (levels matches Some(l) ==> plan_view(sp.loose@).contains(
            (true, query_spec::admin_levels(l@)),
        ) && plan_view(sp.strict@).contains((true, query_spec::admin_levels(l@)))),
        p matches Some(sp) ==> (ids matches Some(i) ==> plan_view(sp.loose@).contains(
            (true, query_spec::ids(i@)),
        ) && plan_view(sp.strict@).contains((true, query_spec::ids(i@)))),
{
    if tokens.len() == 0 {
        return None;
    }
    let mut strict: Vec<plan_clause> = Vec::new();
    assert(plan_view(strict@) =~= Seq::<(bool, query_spec)>::empty());
    push_every_token(&mut strict, tokens);
    if tokens.len() >= 2 {
        push_clause(
            &mut strict,
            false,
            plan_query::phrase { field: text_field::name, tokens: copy_strings(tokens), boost: boost_of::name_phrase },
        );
        push_clause(
            &mut strict,
            false,
            plan_query::phrase { field: text_field::hier, tokens: copy_strings(tokens), boost: boost_of::hier_phrase },
        );
    }
    let ghost after_phrase = plan_view(strict@);
    assert(after_phrase =~= every_token_clauses(strings_view(tokens@)) + phrase_clauses(
        strings_view(tokens@),
    ));
    push_bonus(
        &mut strict,
        strict_tokens,
        text_field::name_strict,
        boost_of::name_strict,
        text_field::hier_strict,
        boost_of::hier_strict,
    );
    push_bonus(
        &mut strict,
        lower_tokens,
        text_field::name_lower,
        boost_of::name_lower,
        text_field::hier_lower,
        boost_of::hier_lower,
    );
    push_filters(&mut strict, levels, ids);
    let mut loose: Vec<plan_clause> = Vec::new();
    assert(plan_view(loose@) =~= Seq::<(bool, query_spec)>::empty());
    push_loose_tokens(&mut loose, tokens);
    push_filters(&mut loose, levels, ids);
    proof {
        let lv = match levels {
            Some(l) => Some(l@),
            None => None,
        };
        let iv = match ids {
            Some(i) => Some(i@),
            None => None,
        };
        assert(plan_view(strict@) =~= strict_plan(
            strings_view(tokens@),
            strings_view(strict_tokens@),
            strings_view(lower_tokens@),
            lv,
            iv,
        ));
        assert(plan_view(loose@) =~= loose_plan(strings_view(tokens@), lv, iv));
        lemma_plans_share_restrictions(
            strings_view(tokens@),
            strings_view(strict_tokens@),
            strings_view(lower_tokens@),
            lv,
            iv,
        );
    }
    Some(search_plan { strict, loose })
}

/// The tokens the index's folding analyzer makes of `text` (tantivy's simple tokenizer, lower
/// caser and ascii folding), in order.
pub uninterp spec fn folded_tokens(text: Seq<char>) -> Seq<Seq<char>>;

/// The tokens tantivy's simple tokenizer makes of `text`, as written, in order.
pub uninterp spec fn plain_tokens(text: Seq<char>) -> Seq<Seq<char>>;

/// The tokens tantivy's simple tokenizer and lower caser make of `text`, in order.
pub uninterp spec fn lowered_tokens(text: Seq<char>) -> Seq<Seq<char>>;

/// Runs tantivy's `SimpleTokenizer` with `LowerCaser` and `AsciiFoldingFilter` over `text` and
/// collects the token texts: claimed to be a function of the text alone (named `folded_tokens`).
#[verifier::external_body]
fn tokenize_folded(text: &str) -> (tokens: Vec<String>)
    ensures
        strings_view(tokens@) == folded_tokens(text@),
{
    let builder = TextAnalyzer::builder(SimpleTokenizer::default());
    let mut analyzer = builder.filter(LowerCaser).filter(AsciiFoldingFilter).build();
    let mut tokens = Vec::new();
    let mut stream = analyzer.token_stream(text);
    while let Some(t) = stream.next() {
        tokens.push(t.text.clone());
    }
    tokens
}

/// Runs tantivy's `SimpleTokenizer` over `text` and collects the token texts: claimed to be a
/// function of the text alone (named `plain_tokens`).
#[verifier::external_body]
fn tokenize_plain(text: &str) -> (tokens: Vec<String>)
    ensures
        strings_view(tokens@) == plain_tokens(text@),
{
    let mut analyzer = TextAnalyzer::builder(SimpleTokenizer::default()).build();
    let mut tokens = Vec::new();
    let mut stream = analyzer.token_stream(text);
    while let Some(t) = stream.next() {
        tokens.push(t.text.clone());
    }
    tokens
}

/// Runs tantivy's `SimpleTokenizer` with `LowerCaser` over `text` and collects the token texts:
/// claimed to be a function of the text alone (named `lowered_tokens`).
#[verifier::external_body]
fn tokenize_lowered(text: &str) -> (tokens: Vec<String>)
    ensures
        strings_view(tokens@) == lowered_tokens(text@),
{
    let mut analyzer = TextAnalyzer::builder(SimpleTokenizer::default()).filter(LowerCaser).build();
    let mut tokens = Vec::new();
    let mut stream = analyzer.token_stream(text);
    while let Some(t) = stream.next() {
        tokens.push(t.text.clone());
    }
    tokens
}

/// The two queries of a search for `query`, tokenized as the index tokenizes its fields; none
/// when the query has no token.
pub fn search_plan_for(query: &str, levels: Option<&[u8]>, ids: Option<&[i64]>) -> (p: Option<
    search_plan,
>)
    ensures
        p is None <==> folded_tokens(query@).len() == 0,
        p matches Some(sp) ==> plan_view(sp.strict@) == strict_plan(
            folded_tokens(query@),
            plain_tokens(query@),
            lowered_tokens(query@),
            match levels {
                Some(l) => Some(l@),
                None => None,
            },
            match ids {
                Some(i) => Some(i@),
                None => None,
            },
        ) && plan_view(sp.loose@) == loose_plan(
            folded_tokens(query@),
            match levels {
                Some(l) => Some(l@),
                None => None,
            },
            match ids {
                Some(i) => Some(i@),
                None => None,
            },
        ),
{
    let tokens = tokenize_folded(query);
    if tokens.len() == 0 {
        return None;
    }
    let strict_tokens = tokenize_plain(query);
    let lower_tokens = tokenize_lowered(query);
    plan_for_tokens(&tokens, &strict_tokens, &lower_tokens, levels, ids)
}

/// The hits a search answers: the strict query's when it found any; else the loose query's,
/// which is run only then.
pub fn search_hits<T, F: FnOnce() -> Vec<T>>(strict_hits: Vec<T>, run_loose: F) -> (hits: Vec<T>)
    requires
        run_loose.requires(()),
    ensures
        strict_hits@.len() > 0 ==> hits@ == strict_hits@,
        strict_hits@.len() == 0 ==> run_loose.ensures((), hits),
{
    if strict_hits.len() > 0 {
        strict_hits
    } else {
        run_loose()
    }
}

} // verus!
