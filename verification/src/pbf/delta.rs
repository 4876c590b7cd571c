// delta coding: the pbf format stores each id or coordinate as its difference from the previous
// one, so decoding is a running sum.
use vstd::prelude::*;

verus! {

/// The sum of the first `n` deltas.
pub open spec fn prefix_sum(d: Seq<i64>, n: nat) -> int
    decreases n,
{
    if n == 0 {
        0
    } else {
        prefix_sum(d, (n - 1) as nat) + d[n - 1]
    }
}

/// Every running sum of `d` fits in an `i64`.
pub open spec fn sums_fit(d: Seq<i64>) -> bool {
    forall|n: nat| n <= d.len() ==> i64::MIN <= #[trigger] prefix_sum(d, n) <= i64::MAX
}

/// The values that the deltas `d` encode: the running sums.
pub open spec fn undelta(d: Seq<i64>) -> Seq<int> {
    Seq::new(d.len(), |i: int| prefix_sum(d, (i + 1) as nat))
}

/// The deltas of the values `v`: the first value, then each value minus the one before it.
pub open spec fn delta(v: Seq<int>) -> Seq<int> {
    Seq::new(v.len(), |i: int| if i == 0 { v[0] } else { v[i] - v[i - 1] })
}

/// Delta-encoding what was decoded gives back the deltas.
pub proof fn lemma_delta_of_undelta(d: Seq<i64>)
    ensures
        delta(undelta(d)) == d.map_values(|x: i64| x as int),
{
    let u = undelta(d);
    assert forall|i: int| 0 <= i < d.len() implies #[trigger] delta(u)[i] == d[i] as int by {
        assert(prefix_sum(d, (i + 1) as nat) == prefix_sum(d, i as nat) + d[i]);
        if i > 0 {
            assert(u[i - 1] == prefix_sum(d, i as nat));
        } else {
            assert(prefix_sum(d, 0) == 0);
        }
    }
    assert(delta(undelta(d)) =~= d.map_values(|x: i64| x as int));
}

proof fn lemma_prefix_of_delta(v: Seq<int>, d: Seq<i64>, n: nat)
    requires
        n <= v.len(),
        d.len() == v.len(),
        forall|i: int| 0 <= i < d.len() ==> d[i] as int == delta(v)[i],
    ensures
        n > 0 ==> prefix_sum(d, n) == v[n - 1],
    decreases n,
{
    if n > 0 {
        assert(d[n - 1] as int == delta(v)[n - 1]);
        assert(prefix_sum(d, n) == prefix_sum(d, (n - 1) as nat) + d[n - 1]);
    }
    if n > 1 {
        lemma_prefix_of_delta(v, d, (n - 1) as nat);
    }
}

/// Decoding deltas that were taken of `v` gives back `v`.
pub proof fn lemma_undelta_of_delta(v: Seq<int>, d: Seq<i64>)
    requires
        d.len() == v.len(),
        forall|i: int| 0 <= i < d.len() ==> d[i] as int == delta(v)[i],
    ensures
        undelta(d) == v,
{
    assert forall|i: int| 0 <= i < v.len() implies undelta(d)[i] == v[i] by {
        lemma_prefix_of_delta(v, d, (i + 1) as nat);
    }
    assert(undelta(d) =~= v);
}

/// The running sums of `d`.
pub fn decode_deltas(d: &Vec<i64>) -> (out: Vec<i64>)
    requires
        sums_fit(d@),
    ensures
        out@.map_values(|x: i64| x as int) == undelta(d@),
{
    let mut out: Vec<i64> = Vec::new();
    let mut acc: i64 = 0;
    let mut i: usize = 0;
    while i < d.len()
        invariant
            i <= d@.len(),
            sums_fit(d@),
            acc == prefix_sum(d@, i as nat),
            out@.len() == i,
            forall|j: int| 0 <= j < i ==> out@[j] == prefix_sum(d@, (j + 1) as nat),
        decreases d@.len() - i,
    {
        assert(i64::MIN <= prefix_sum(d@, (i + 1) as nat) <= i64::MAX);
        acc = acc + d[i];
        out.push(acc);
        i = i + 1;
    }
    assert(out@.map_values(|x: i64| x as int) =~= undelta(d@));
    out
}

} // verus!
