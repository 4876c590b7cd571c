// matching house-number candidates to streets: a candidate that names its street is matched among
// the streets of that name, compared without regard to case; the distances that pick among them,
// and the nearest street when no name matches, are geometry and stay with the caller.
use vstd::prelude::*;
use crate::text::{lowercase, str_eq, to_lowercase};

verus! {

/// Progress of the house-number pass: candidates matched so far out of all candidates.
pub struct progress_report {
    pub total: u64,
    pub processed: u64,
}

/// How a house number was matched to its street: by proximity, or by the street name it gives.
pub const STRATEGY_BY_PROXIMITY: u8 = 0;

pub const STRATEGY_BY_NAME: u8 = 1;

/// The positions of the streets whose lower-cased name is `name` lower-cased, in order.
pub open spec fn named_streets(names: Seq<Seq<char>>, name: Seq<char>) -> Seq<usize>
    decreases names.len(),
{
    if names.len() == 0 {
        seq![]
    } else {
        let prev = named_streets(names.drop_last(), name);
        if lowercase(names.last()) == lowercase(name) {
            prev.push((names.len() - 1) as usize)
        } else {
            prev
        }
    }
}

/// A name match is exact up to case: every street returned has a lower-cased name equal to the
/// asked name lower-cased, the positions come in increasing order, and every street whose
/// lower-cased name equals it is among them.
pub proof fn lemma_named_streets_match_exactly(names: Seq<Seq<char>>, name: Seq<char>)
    requires
        names.len() <= usize::MAX,
    ensures
        forall|k: int|
            0 <= k < named_streets(names, name).len() ==> {
                let j = #[trigger] named_streets(names, name)[k];
                &&& (j as int) < names.len()
                &&& lowercase(names[j as int]) == lowercase(name)
            },
        forall|a: int, b: int|
            0 <= a < b < named_streets(names, name).len() ==> #[trigger] named_streets(names, name)[a]
                < #[trigger] named_streets(names, name)[b],
        forall|j: int|
            0 <= j < names.len() && lowercase(#[trigger] names[j]) == lowercase(name)
                ==> named_streets(names, name).contains(j as usize),
    decreases names.len(),
{
    if names.len() > 0 {
        let prev = names.drop_last();
        lemma_named_streets_match_exactly(prev, name);
        let r = named_streets(names, name);
        let pr = named_streets(prev, name);
        assert forall|k: int| 0 <= k < pr.len() implies (pr[k] as int) < prev.len() && names[pr[k] as int]
            == prev[pr[k] as int] && lowercase(prev[pr[k] as int]) == lowercase(name) by {
            let j = pr[k];
        }
        if lowercase(names.last()) == lowercase(name) {
            assert(r == pr.push((names.len() - 1) as usize));
            assert forall|k: int| 0 <= k < r.len() implies {
                let j = #[trigger] r[k];
                &&& (j as int) < names.len()
                &&& lowercase(names[j as int]) == lowercase(name)
            } by {
                if k < pr.len() {
                    assert(r[k] == pr[k]);
                }
            }
            assert forall|a: int, b: int| 0 <= a < b < r.len() implies #[trigger] r[a] < #[trigger] r[b] by {
                assert(r[a] == pr[a]);
                if b < pr.len() {
                    assert(r[b] == pr[b]);
                    assert(pr[a] < pr[b]);
                } else {
                    assert((pr[a] as int) < prev.len());
                }
            }
        } else {
            assert(r == pr);
        }
        assert forall|j: int|
            0 <= j < names.len() && lowercase(#[trigger] names[j]) == lowercase(name)
                implies r.contains(j as usize) by {
            if j < names.len() - 1 {
                assert(prev[j] == names[j]);
                assert(pr.contains(j as usize));
                let k = choose|k: int| 0 <= k < pr.len() && pr[k] == j as usize;
                assert(r[k] == j as usize);
            } else {
                assert(r[r.len() - 1] == j as usize);
            }
        }
    }
}

/// The streets a candidate may be matched to by name: those whose name equals, lower-cased, the
/// street the candidate names, in street order; none when it names no street.
pub fn streets_named(street_names: &Vec<String>, addr_street: Option<&str>) -> (r: Vec<usize>)
    ensures
        match addr_street {
            None => r@.len() == 0,
            Some(a) => r@ == named_streets(street_names@.map_values(|s: String| s@), a@),
        },
        addr_street matches Some(a) ==> forall|k: int|
            0 <= k < r@.len() ==> (#[trigger] r@[k] as int) < street_names@.len() && lowercase(
                street_names@[r@[k] as int]@,
            ) == lowercase(a@),
        forall|a: int, b: int| 0 <= a < b < r@.len() ==> #[trigger] r@[a] < #[trigger] r@[b],
        addr_street matches Some(a) ==> forall|j: int|
            0 <= j < street_names@.len() && lowercase(#[trigger] street_names@[j]@) == lowercase(a@)
                ==> r@.contains(j as usize),
{
    let mut r: Vec<usize> = Vec::new();
    match addr_street {
        None => r,
        Some(a) => {
            let ghost names = street_names@.map_values(|s: String| s@);
            let wanted = to_lowercase(a);
            let mut i: usize = 0;
            while i < street_names.len()
                invariant
                    i <= street_names@.len(),
                    names == street_names@.map_values(|s: String| s@),
                    wanted@ == lowercase(a@),
                    r@ == named_streets(names.subrange(0, i as int), a@),
                decreases street_names@.len() - i,
            {
                let lower = to_lowercase(street_names[i].as_str());
                proof {
                    assert(names.subrange(0, i + 1).drop_last() =~= names.subrange(0, i as int));
                    assert(names.subrange(0, i + 1).last() == street_names@[i as int]@);
                }
                if str_eq(lower.as_str(), wanted.as_str()) {
                    r.push(i);
                }
                i = i + 1;
            }
            assert(names.subrange(0, i as int) =~= names);
            proof {
                lemma_named_streets_match_exactly(names, a@);
                assert forall|k: int| 0 <= k < r@.len() implies (#[trigger] r@[k] as int)
                    < street_names@.len() && lowercase(street_names@[r@[k] as int]@) == lowercase(
                    a@,
                ) by {
                    assert(names[r@[k] as int] == street_names@[r@[k] as int]@);
                }
                assert forall|j: int|
                    0 <= j < street_names@.len() && lowercase(#[trigger] street_names@[j]@)
                        == lowercase(a@) implies r@.contains(j as usize) by {
                    assert(names[j] == street_names@[j]@);
                }
            }
            r
        },
    }
}

} // verus!
