// the rows a coordinates query answers come one per point; they are grouped into ways (and ways
// into relations) by key, in the order each key first appears, each group's rows in row order.
use vstd::prelude::*;
use std::collections::HashMap;
use crate::text::{
    all_digits, digit_chars, is_digit, lemma_digit_chars, lemma_text_order,
    lemma_zero_padded_chars, lemma_zero_padded_injective, push_digits, push_zero_padded, text_less,
    text_lt, zero_padded,
};

verus! {

/// Row `r` lies in one of the groups.
pub open spec fn row_grouped(members: Seq<Seq<usize>>, r: usize) -> bool {
    exists|g: int| 0 <= g < members.len() && #[trigger] members[g].contains(r)
}

/// `firsts` and `members` group the rows with keys `keys`: one group per key, in the order the
/// keys first appear; group `g` holds, in row order, every row whose key is that of its first
/// row `firsts[g]`.
pub open spec fn is_grouping(keys: Seq<u128>, firsts: Seq<usize>, members: Seq<Seq<usize>>) -> bool {
    &&& firsts.len() == members.len()
    &&& forall|g: int|
        0 <= g < members.len() ==> (#[trigger] members[g]).len() > 0 && members[g][0] == firsts[g]
    &&& forall|g: int, k: int|
        0 <= g < members.len() && 0 <= k < members[g].len() ==> (#[trigger] members[g][k])
            < keys.len() && keys[members[g][k] as int] == keys[firsts[g] as int]
    &&& forall|g: int, a: int, b: int|
        0 <= g < members.len() && 0 <= a < b < members[g].len() ==> #[trigger] members[g][a]
            < #[trigger] members[g][b]
    &&& forall|g: int, h: int| 0 <= g < h < firsts.len() ==> #[trigger] firsts[g] < #[trigger] firsts[h]
    &&& forall|g: int, h: int|
        0 <= g < firsts.len() && 0 <= h < firsts.len() && g != h ==> keys[#[trigger] firsts[g] as int]
            != keys[#[trigger] firsts[h] as int]
    &&& forall|g: int, r: usize|
        0 <= g < members.len() && r < keys.len() && keys[r as int] == keys[firsts[g] as int]
            ==> #[trigger] members[g].contains(r)
    &&& forall|r: usize| r < keys.len() ==> #[trigger] row_grouped(members, r)
}

pub open spec fn members_view(m: Seq<Vec<usize>>) -> Seq<Seq<usize>> {
    m.map_values(|v: Vec<usize>| v@)
}

/// The rows grouped by key, in the order the keys first appear: the first row of each group and
/// the rows of each group, in row order.
pub fn group_rows(keys: &Vec<u128>) -> (r: (Vec<usize>, Vec<Vec<usize>>))
    ensures
        is_grouping(keys@, r.0@, members_view(r.1@)),
{
    broadcast use vstd::std_specs::hash::group_hash_axioms;

    let mut index: HashMap<u128, usize> = HashMap::new();
    let mut firsts: Vec<usize> = Vec::new();
    let mut members: Vec<Vec<usize>> = Vec::new();
    let mut i: usize = 0;
    while i < keys.len()
        invariant
            i <= keys@.len(),
            is_grouping(keys@.subrange(0, i as int), firsts@, members_view(members@)),
            forall|g: int| 0 <= g < firsts@.len() ==> (#[trigger] firsts@[g]) < i,
            forall|k: u128|
                index@.contains_key(k) <==> exists|g: int|
                    0 <= g < firsts@.len() && keys@[#[trigger] firsts@[g] as int] == k,
            forall|g: int|
                0 <= g < firsts@.len() ==> index@.contains_key(keys@[#[trigger] firsts@[g] as int])
                    && index@[keys@[firsts@[g] as int]] == g,
        decreases keys@.len() - i,
    {
        let k = keys[i];
        let ghost ks = keys@.subrange(0, i as int);
        let ghost ks1 = keys@.subrange(0, i + 1);
        let ghost f0 = firsts@;
        let ghost m0 = members_view(members@);
        assert(ks1 =~= ks.push(k));
        match index.get(&k) {
            Some(gr) => {
                let g = *gr;
                proof {
                    let h = choose|h: int| 0 <= h < f0.len() && keys@[f0[h] as int] == k;
                    assert(index@[keys@[f0[h] as int]] == h);
                    assert(g == h);
                }
                members[g].push(i);
                proof {
                    let mv = members_view(members@);
                    assert(mv =~= m0.update(g as int, m0[g as int].push(i)));
                    assert(is_grouping(ks1, firsts@, mv)) by {
                        assert forall|gg: int, kk: int|
                            0 <= gg < mv.len() && 0 <= kk < mv[gg].len() implies (#[trigger] mv[gg][kk])
                            < ks1.len() && ks1[mv[gg][kk] as int] == ks1[firsts@[gg] as int] by {
                            if gg != g || kk < m0[gg].len() {
                                assert(mv[gg][kk] == m0[gg][kk]);
                            }
                        }
                        assert forall|gg: int, a: int, b: int|
                            0 <= gg < mv.len() && 0 <= a < b < mv[gg].len() implies #[trigger] mv[gg][a]
                            < #[trigger] mv[gg][b] by {
                            if gg == g && b == m0[gg].len() {
                                assert(m0[gg][a] < i);
                            } else {
                                assert(mv[gg][a] == m0[gg][a]);
                                assert(mv[gg][b] == m0[gg][b]);
                            }
                        }
                        assert forall|gg: int, r: usize|
                            0 <= gg < mv.len() && r < ks1.len() && ks1[r as int] == ks1[firsts@[gg] as int]
                            implies #[trigger] mv[gg].contains(r) by {
                            if r < i {
                                assert(m0[gg].contains(r));
                                let kk = choose|kk: int| 0 <= kk < m0[gg].len() && m0[gg][kk] == r;
                                assert(mv[gg][kk] == r);
                            } else {
                                assert(gg == g);
                                assert(mv[gg][m0[gg].len() as int] == i);
                            }
                        }
                        assert forall|r: usize| r < ks1.len() implies #[trigger] row_grouped(mv, r) by {
                            if r < i {
                                assert(row_grouped(m0, r));
                                let gg = choose|gg: int| 0 <= gg < m0.len() && #[trigger] m0[gg].contains(r);
                                let kk = choose|kk: int| 0 <= kk < m0[gg].len() && m0[gg][kk] == r;
                                assert(mv[gg][kk] == r);
                                assert(mv[gg].contains(r));
                            } else {
                                assert(mv[g as int][m0[g as int].len() as int] == i);
                                assert(mv[g as int].contains(r));
                            }
                        }
                    }
                }
            },
            None => {
                let g = firsts.len();
                firsts.push(i);
                let mut v: Vec<usize> = Vec::new();
                v.push(i);
                members.push(v);
                index.insert(k, g);
                proof {
                    let mv = members_view(members@);
                    assert(mv =~= m0.push(seq![i]));
                    assert forall|h: int| 0 <= h < f0.len() implies keys@[f0[h] as int] != k by {
                        if keys@[f0[h] as int] == k {
                            assert(index@.contains_key(k));
                        }
                    }
                    assert(is_grouping(ks1, firsts@, mv)) by {
                        assert forall|gg: int, kk: int|
                            0 <= gg < mv.len() && 0 <= kk < mv[gg].len() implies (#[trigger] mv[gg][kk])
                            < ks1.len() && ks1[mv[gg][kk] as int] == ks1[firsts@[gg] as int] by {
                            if gg < m0.len() {
                                assert(mv[gg][kk] == m0[gg][kk]);
                            }
                        }
                        assert forall|gg: int, a: int, b: int|
                            0 <= gg < mv.len() && 0 <= a < b < mv[gg].len() implies #[trigger] mv[gg][a]
                            < #[trigger] mv[gg][b] by {
                            assert(gg < m0.len());
                            assert(mv[gg][a] == m0[gg][a]);
                            assert(mv[gg][b] == m0[gg][b]);
                        }
                        assert forall|gg: int, hh: int|
                            0 <= gg < hh < firsts@.len() implies #[trigger] firsts@[gg]
                            < #[trigger] firsts@[hh] by {
                            if hh == f0.len() {
                                assert(f0[gg] < i);
                            }
                        }
                        assert forall|gg: int, hh: int|
                            0 <= gg < firsts@.len() && 0 <= hh < firsts@.len() && gg != hh implies ks1[#[trigger] firsts@[gg] as int]
                            != ks1[#[trigger] firsts@[hh] as int] by {
                            if gg == f0.len() {
                                assert(keys@[f0[hh] as int] != k);
                                assert(ks1[f0[hh] as int] == keys@[f0[hh] as int]);
                            } else if hh == f0.len() {
                                assert(keys@[f0[gg] as int] != k);
                                assert(ks1[f0[gg] as int] == keys@[f0[gg] as int]);
                            } else {
                                assert(ks[f0[gg] as int] != ks[f0[hh] as int]);
                            }
                        }
                        assert forall|gg: int, r: usize|
                            0 <= gg < mv.len() && r < ks1.len() && ks1[r as int] == ks1[firsts@[gg] as int]
                            implies #[trigger] mv[gg].contains(r) by {
                            if gg < m0.len() {
                                if r < i {
                                    assert(m0[gg].contains(r));
                                    let kk = choose|kk: int| 0 <= kk < m0[gg].len() && m0[gg][kk] == r;
                                    assert(mv[gg][kk] == r);
                                } else {
                                    assert(keys@[f0[gg] as int] == k);
                                }
                            } else {
                                if r < i {
                                    assert(keys@[r as int] == k);
                                    assert(row_grouped(m0, r));
                                    let g2 = choose|g2: int| 0 <= g2 < m0.len() && #[trigger] m0[g2].contains(r);
                                    let kk = choose|kk: int| 0 <= kk < m0[g2].len() && m0[g2][kk] == r;
                                    assert(ks[m0[g2][kk] as int] == ks[f0[g2] as int]);
                                    assert(keys@[f0[g2] as int] == k);
                                } else {
                                    assert(mv[gg][0] == i);
                                }
                            }
                        }
                        assert forall|r: usize| r < ks1.len() implies #[trigger] row_grouped(mv, r) by {
                            if r < i {
                                assert(row_grouped(m0, r));
                                let gg = choose|gg: int| 0 <= gg < m0.len() && #[trigger] m0[gg].contains(r);
                                let kk = choose|kk: int| 0 <= kk < m0[gg].len() && m0[gg][kk] == r;
                                assert(mv[gg][kk] == r);
                                assert(mv[gg].contains(r));
                            } else {
                                assert(mv[g as int][0] == i);
                                assert(mv[g as int].contains(r));
                            }
                        }
                    }
                    assert forall|kk: u128|
                        index@.contains_key(kk) <==> exists|h: int|
                            0 <= h < firsts@.len() && keys@[#[trigger] firsts@[h] as int] == kk by {
                        if index@.contains_key(kk) && kk != k {
                            let h = choose|h: int| 0 <= h < f0.len() && keys@[f0[h] as int] == kk;
                            assert(firsts@[h] == f0[h]);
                        }
                        if kk == k {
                            assert(firsts@[g as int] == i);
                        }
                        if exists|h: int| 0 <= h < firsts@.len() && keys@[#[trigger] firsts@[h] as int] == kk {
                            let h = choose|h: int| 0 <= h < firsts@.len() && keys@[firsts@[h] as int] == kk;
                            if h < f0.len() {
                                assert(f0[h] == firsts@[h]);
                            }
                        }
                    }
                    assert forall|h: int| 0 <= h < firsts@.len() implies index@.contains_key(
                        keys@[#[trigger] firsts@[h] as int],
                    ) && index@[keys@[firsts@[h] as int]] == h by {
                        if h < f0.len() {
                            assert(firsts@[h] == f0[h]);
                        }
                    }
                }
            },
        }
        i = i + 1;
    }
    assert(keys@.subrange(0, i as int) =~= keys@);
    (firsts, members)
}

/// The key a relation's way is kept under while its points are gathered:
/// `format!("{:010}_{}", way_order, way_id)`. The ways of a relation come in the order of these
/// texts.
pub open spec fn way_key_text(way_order: u32, way_id: u64) -> Seq<char> {
    zero_padded(way_order as int, 10) + "_"@ + digit_chars(way_id as nat)
}

/// The key text of a way.
pub fn way_key(way_order: u32, way_id: u64) -> (k: String)
    ensures
        k@ == way_key_text(way_order, way_id),
{
    let mut k = String::new();
    push_zero_padded(&mut k, way_order as i64, 10);
    k.append("_");
    push_digits(&mut k, way_id);
    k
}

/// The positions `g` are in strictly increasing order of their key texts.
pub open spec fn text_ordered(keys: Seq<Seq<char>>, g: Seq<usize>) -> bool {
    forall|i: int, j: int|
        0 <= i < j < g.len() ==> text_lt(keys[#[trigger] g[i] as int], keys[#[trigger] g[j] as int])
}

pub open spec fn keys_view(keys: Seq<String>) -> Seq<Seq<char>> {
    keys.map_values(|k: String| k@)
}

/// The positions `g` are keys, and no two of them have the same key text.
pub open spec fn distinct_keys_at(keys: Seq<Seq<char>>, g: Seq<usize>) -> bool {
    &&& forall|k: int| 0 <= k < g.len() ==> (#[trigger] g[k]) < keys.len()
    &&& forall|i: int, j: int|
        0 <= i < g.len() && 0 <= j < g.len() && i != j ==> keys[#[trigger] g[i] as int]
            != keys[#[trigger] g[j] as int]
}

fn merge_by_text(keys: &Vec<String>, a: Vec<usize>, b: Vec<usize>) -> (r: Vec<usize>)
    requires
        text_ordered(keys_view(keys@), a@),
        text_ordered(keys_view(keys@), b@),
        distinct_keys_at(keys_view(keys@), a@ + b@),
    ensures
        text_ordered(keys_view(keys@), r@),
        r@.len() == a@.len() + b@.len(),
        forall|x: usize| r@.contains(x) <==> (a@.contains(x) || b@.contains(x)),
        forall|k: int| 0 <= k < r@.len() ==> (#[trigger] r@[k]) < keys@.len(),
{
    let ghost kv = keys_view(keys@);
    let ghost ab = a@ + b@;
    assert(kv.len() == keys@.len());
    assert forall|k: int| 0 <= k < a@.len() implies (#[trigger] a@[k]) < keys@.len() by {
        assert(ab[k] == a@[k]);
    }
    assert forall|k: int| 0 <= k < b@.len() implies (#[trigger] b@[k]) < keys@.len() by {
        assert(ab[a@.len() + k] == b@[k]);
    }
    let mut r: Vec<usize> = Vec::new();
    let mut i: usize = 0;
    let mut j: usize = 0;
    while i < a.len() || j < b.len()
        invariant
            kv == keys_view(keys@),
            kv.len() == keys@.len(),
            ab == a@ + b@,
            text_ordered(kv, a@),
            text_ordered(kv, b@),
            distinct_keys_at(kv, ab),
            forall|k: int| 0 <= k < a@.len() ==> (#[trigger] a@[k]) < keys@.len(),
            forall|k: int| 0 <= k < b@.len() ==> (#[trigger] b@[k]) < keys@.len(),
            i <= a@.len(),
            j <= b@.len(),
            r@.len() == i + j,
            text_ordered(kv, r@),
            forall|k: int| 0 <= k < r@.len() ==> (#[trigger] r@[k]) < keys@.len(),
            forall|x: usize|
                r@.contains(x) <==> (a@.subrange(0, i as int).contains(x) || b@.subrange(
                    0,
                    j as int,
                ).contains(x)),
            forall|k: int, t: int|
                0 <= k < r@.len() && i <= t < a@.len() ==> text_lt(
                    kv[#[trigger] r@[k] as int],
                    kv[#[trigger] a@[t] as int],
                ),
            forall|k: int, t: int|
                0 <= k < r@.len() && j <= t < b@.len() ==> text_lt(
                    kv[#[trigger] r@[k] as int],
                    kv[#[trigger] b@[t] as int],
                ),
        decreases a@.len() + b@.len() - i - j,
    {
        let take_a = if i < a.len() && j < b.len() {
            let x = a[i];
            let y = b[j];
            proof {
                assert(ab[i as int] == x);
                assert(ab[a@.len() + j] == y);
                assert(kv[x as int] != kv[y as int]);
                lemma_text_order(kv[x as int], kv[y as int], kv[y as int]);
            }
            text_less(keys[x].as_str(), keys[y].as_str())
        } else {
            i < a.len()
        };
        let ghost r0 = r@;
        if take_a {
            let x = a[i];
            r.push(x);
            proof {
                let kx = kv[x as int];
                if j < b@.len() {
                    assert(text_lt(kx, kv[b@[j as int] as int]));
                }
                assert forall|t: int| i < t < a@.len() implies text_lt(kx, kv[a@[t] as int]) by {
                    assert(text_lt(kv[a@[i as int] as int], kv[a@[t] as int]));
                }
                assert forall|t: int| j <= t < b@.len() implies text_lt(kx, kv[b@[t] as int]) by {
                    if t > j {
                        assert(text_lt(kv[b@[j as int] as int], kv[b@[t] as int]));
                        lemma_text_order(kx, kv[b@[j as int] as int], kv[b@[t] as int]);
                    }
                }
                assert forall|p: int, q: int| 0 <= p < q < r@.len() implies text_lt(
                    kv[#[trigger] r@[p] as int],
                    kv[#[trigger] r@[q] as int],
                ) by {
                    if q == r0.len() {
                        assert(text_lt(kv[r0[p] as int], kv[a@[i as int] as int]));
                    } else {
                        assert(text_lt(kv[r0[p] as int], kv[r0[q] as int]));
                    }
                }
                let na = a@.subrange(0, i + 1);
                let oa = a@.subrange(0, i as int);
                let ob = b@.subrange(0, j as int);
                assert(na =~= oa.push(x));
                assert forall|y: usize| r@.contains(y) <==> (na.contains(y) || ob.contains(y)) by {
                    assert(r0.contains(y) <==> (oa.contains(y) || ob.contains(y)));
                    if r@.contains(y) {
                        let k = choose|k: int| 0 <= k < r@.len() && r@[k] == y;
                        if k < r0.len() {
                            assert(r0[k] == y);
                            assert(r0.contains(y));
                            if oa.contains(y) {
                                let m = choose|m: int| 0 <= m < oa.len() && oa[m] == y;
                                assert(na[m] == y);
                            }
                        } else {
                            assert(na[i as int] == x);
                        }
                    }
                    if na.contains(y) {
                        let m = choose|m: int| 0 <= m < na.len() && na[m] == y;
                        if m < i {
                            assert(oa[m] == y);
                            assert(oa.contains(y));
                            let k = choose|k: int| 0 <= k < r0.len() && r0[k] == y;
                            assert(r@[k] == y);
                        } else {
                            assert(r@[r0.len() as int] == x);
                        }
                    }
                    if ob.contains(y) {
                        assert(r0.contains(y));
                        let k = choose|k: int| 0 <= k < r0.len() && r0[k] == y;
                        assert(r@[k] == y);
                    }
                }
            }
            i = i + 1;
        } else {
            let y = b[j];
            r.push(y);
            proof {
                let ky = kv[y as int];
                if i < a@.len() {
                    assert(text_lt(ky, kv[a@[i as int] as int]));
                }
                assert forall|t: int| j < t < b@.len() implies text_lt(ky, kv[b@[t] as int]) by {
                    assert(text_lt(kv[b@[j as int] as int], kv[b@[t] as int]));
                }
                assert forall|t: int| i <= t < a@.len() implies text_lt(ky, kv[a@[t] as int]) by {
                    if t > i {
                        assert(text_lt(kv[a@[i as int] as int], kv[a@[t] as int]));
                        lemma_text_order(ky, kv[a@[i as int] as int], kv[a@[t] as int]);
                    }
                }
                assert forall|p: int, q: int| 0 <= p < q < r@.len() implies text_lt(
                    kv[#[trigger] r@[p] as int],
                    kv[#[trigger] r@[q] as int],
                ) by {
                    if q == r0.len() {
                        assert(text_lt(kv[r0[p] as int], kv[b@[j as int] as int]));
                    } else {
                        assert(text_lt(kv[r0[p] as int], kv[r0[q] as int]));
                    }
                }
                let nb = b@.subrange(0, j + 1);
                let oa = a@.subrange(0, i as int);
                let ob = b@.subrange(0, j as int);
                assert(nb =~= ob.push(y));
                assert forall|z: usize| r@.contains(z) <==> (oa.contains(z) || nb.contains(z)) by {
                    assert(r0.contains(z) <==> (oa.contains(z) || ob.contains(z)));
                    if r@.contains(z) {
                        let k = choose|k: int| 0 <= k < r@.len() && r@[k] == z;
                        if k < r0.len() {
                            assert(r0[k] == z);
                            assert(r0.contains(z));
                            if ob.contains(z) {
                                let m = choose|m: int| 0 <= m < ob.len() && ob[m] == z;
                                assert(nb[m] == z);
                            }
                        } else {
                            assert(nb[j as int] == y);
                        }
                    }
                    if nb.contains(z) {
                        let m = choose|m: int| 0 <= m < nb.len() && nb[m] == z;
                        if m < j {
                            assert(ob[m] == z);
                            assert(ob.contains(z));
                            let k = choose|k: int| 0 <= k < r0.len() && r0[k] == z;
                            assert(r@[k] == z);
                        } else {
                            assert(r@[r0.len() as int] == y);
                        }
                    }
                    if oa.contains(z) {
                        assert(r0.contains(z));
                        let k = choose|k: int| 0 <= k < r0.len() && r0[k] == z;
                        assert(r@[k] == z);
                    }
                }
            }
            j = j + 1;
        }
    }
    assert(a@.subrange(0, i as int) =~= a@);
    assert(b@.subrange(0, j as int) =~= b@);
    r
}

fn copy_range(v: &Vec<usize>, lo: usize, hi: usize) -> (r: Vec<usize>)
    requires
        lo <= hi <= v@.len(),
    ensures
        r@ == v@.subrange(lo as int, hi as int),
{
    let mut r: Vec<usize> = Vec::new();
    let mut i: usize = lo;
    while i < hi
        invariant
            lo <= i <= hi,
            hi <= v@.len(),
            r@ == v@.subrange(lo as int, i as int),
        decreases hi - i,
    {
        r.push(v[i]);
        i = i + 1;
        assert(r@ =~= v@.subrange(lo as int, i as int));
    }
    r
}

/// The positions `v` in increasing order of their key texts.
pub fn sort_by_text(keys: &Vec<String>, v: Vec<usize>) -> (r: Vec<usize>)
    requires
        distinct_keys_at(keys_view(keys@), v@),
    ensures
        text_ordered(keys_view(keys@), r@),
        r@.len() == v@.len(),
        forall|x: usize| r@.contains(x) <==> v@.contains(x),
        forall|k: int| 0 <= k < r@.len() ==> (#[trigger] r@[k]) < keys@.len(),
    decreases v@.len(),
{
    let ghost kv = keys_view(keys@);
    assert(kv.len() == keys@.len());
    if v.len() <= 1 {
        proof {
            if v@.len() == 1 {
                assert(v@[0] < keys@.len());
            }
        }
        return v;
    }
    let mid = v.len() / 2;
    let left = copy_range(&v, 0, mid);
    let right = copy_range(&v, mid, v.len());
    proof {
        assert(left@ + right@ =~= v@);
        assert forall|x: usize| v@.contains(x) <==> (left@.contains(x) || right@.contains(x)) by {
            if v@.contains(x) {
                let p = choose|p: int| 0 <= p < v@.len() && v@[p] == x;
                if p < mid {
                    assert(left@[p] == x);
                } else {
                    assert(right@[p - mid] == x);
                }
            }
            if left@.contains(x) {
                let p = choose|p: int| 0 <= p < left@.len() && left@[p] == x;
                assert(v@[p] == x);
            }
            if right@.contains(x) {
                let p = choose|p: int| 0 <= p < right@.len() && right@[p] == x;
                assert(v@[mid + p] == x);
            }
        }
        assert(distinct_keys_at(kv, left@)) by {
            assert forall|i: int, j: int|
                0 <= i < left@.len() && 0 <= j < left@.len() && i != j implies kv[#[trigger] left@[i] as int]
                != kv[#[trigger] left@[j] as int] by {
                assert(left@[i] == v@[i] && left@[j] == v@[j]);
            }
            assert forall|k: int| 0 <= k < left@.len() implies (#[trigger] left@[k]) < kv.len() by {
                assert(left@[k] == v@[k]);
            }
        }
        assert(distinct_keys_at(kv, right@)) by {
            assert forall|i: int, j: int|
                0 <= i < right@.len() && 0 <= j < right@.len() && i != j implies kv[#[trigger] right@[i] as int]
                != kv[#[trigger] right@[j] as int] by {
                assert(right@[i] == v@[mid + i] && right@[j] == v@[mid + j]);
            }
            assert forall|k: int| 0 <= k < right@.len() implies (#[trigger] right@[k]) < kv.len() by {
                assert(right@[k] == v@[mid + k]);
            }
        }
    }
    let ls = sort_by_text(keys, left);
    let rs = sort_by_text(keys, right);
    proof {
        let lr = ls@ + rs@;
        assert(distinct_keys_at(kv, lr)) by {
            assert forall|k: int| 0 <= k < lr.len() implies (#[trigger] lr[k]) < kv.len() by {
                if k < ls@.len() {
                    assert(lr[k] == ls@[k]);
                } else {
                    assert(lr[k] == rs@[k - ls@.len()]);
                }
            }
            assert forall|i: int, j: int|
                0 <= i < lr.len() && 0 <= j < lr.len() && i != j implies kv[#[trigger] lr[i] as int]
                != kv[#[trigger] lr[j] as int] by {
                let xi = lr[i];
                let xj = lr[j];
                assert(v@.contains(xi)) by {
                    if i < ls@.len() {
                        assert(ls@.contains(xi));
                    } else {
                        assert(rs@.contains(xi)) by {
                            assert(rs@[i - ls@.len()] == xi);
                        }
                    }
                }
                assert(v@.contains(xj)) by {
                    if j < ls@.len() {
                        assert(ls@.contains(xj));
                    } else {
                        assert(rs@.contains(xj)) by {
                            assert(rs@[j - ls@.len()] == xj);
                        }
                    }
                }
                let pi = choose|p: int| 0 <= p < v@.len() && v@[p] == xi;
                let pj = choose|p: int| 0 <= p < v@.len() && v@[p] == xj;
                if pi != pj {
                    assert(kv[v@[pi] as int] != kv[v@[pj] as int]);
                } else {
                    // the same position twice: both come from the same half, at different
                    // places of a strictly ordered half, or from the two halves, which hold
                    // different positions.
                    if i < ls@.len() && j < ls@.len() {
                        let a = if i < j { i } else { j };
                        let b = if i < j { j } else { i };
                        assert(text_lt(kv[ls@[a] as int], kv[ls@[b] as int]));
                        lemma_text_order(kv[xi as int], kv[xi as int], kv[xi as int]);
                    } else if i >= ls@.len() && j >= ls@.len() {
                        let a = if i < j { i } else { j };
                        let b = if i < j { j } else { i };
                        assert(text_lt(kv[rs@[a - ls@.len()] as int], kv[rs@[b - ls@.len()] as int]));
                        lemma_text_order(kv[xi as int], kv[xi as int], kv[xi as int]);
                    } else {
                        let (li, ri) = if i < ls@.len() { (i, j) } else { (j, i) };
                        assert(left@.contains(lr[li])) by {
                            assert(ls@.contains(lr[li]));
                        }
                        assert(right@.contains(lr[ri])) by {
                            assert(rs@[ri - ls@.len()] == lr[ri]);
                            assert(rs@.contains(lr[ri]));
                        }
                        let p1 = choose|p: int| 0 <= p < left@.len() && left@[p] == lr[li];
                        let p2 = choose|p: int| 0 <= p < right@.len() && right@[p] == lr[ri];
                        assert(v@[p1] == lr[li]);
                        assert(v@[mid + p2] == lr[ri]);
                        assert(kv[v@[p1] as int] != kv[v@[mid + p2] as int]);
                    }
                }
            }
        }
    }
    merge_by_text(keys, ls, rs)
}

/// Two ways are the same way when their keys are: the same order and the same id.
pub proof fn lemma_way_key_injective(o1: u32, i1: u64, o2: u32, i2: u64)
    requires
        way_key_text(o1, i1) == way_key_text(o2, i2),
    ensures
        o1 == o2 && i1 == i2,
{
    reveal_strlit("_");
    let a1 = zero_padded(o1 as int, 10);
    let a2 = zero_padded(o2 as int, 10);
    let b1 = digit_chars(i1 as nat);
    let b2 = digit_chars(i2 as nat);
    lemma_zero_padded_chars(o1 as int, 10);
    lemma_zero_padded_chars(o2 as int, 10);
    lemma_digit_chars(i1 as nat);
    lemma_digit_chars(i2 as nat);
    let k1 = a1 + seq!['_'] + b1;
    let k2 = a2 + seq!['_'] + b2;
    assert(k1 == way_key_text(o1, i1));
    assert(k2 == way_key_text(o2, i2));
    assert(a1.len() == a2.len()) by {
        if a1.len() < a2.len() {
            assert(k1[a1.len() as int] == '_');
            assert(k2[a1.len() as int] == a2[a1.len() as int]);
            assert(is_digit(a2[a1.len() as int]) || a1.len() == 0);
        } else if a2.len() < a1.len() {
            assert(k2[a2.len() as int] == '_');
            assert(k1[a2.len() as int] == a1[a2.len() as int]);
            assert(is_digit(a1[a2.len() as int]) || a2.len() == 0);
        }
    }
    assert(a1 =~= k1.subrange(0, a1.len() as int));
    assert(a2 =~= k2.subrange(0, a2.len() as int));
    assert(b1 =~= k1.subrange(a1.len() as int + 1, k1.len() as int));
    assert(b2 =~= k2.subrange(a2.len() as int + 1, k2.len() as int));
    lemma_zero_padded_injective(o1 as int, o2 as int, 10);
}

/// The number a way's order and id are gathered under: one number per pair.
pub open spec fn pair_code(way_order: u32, way_id: u64) -> u128 {
    (way_order as u128 * 0x1_0000_0000_0000_0000 + way_id as u128) as u128
}

proof fn lemma_pair_code_injective(o1: u32, i1: u64, o2: u32, i2: u64)
    requires
        pair_code(o1, i1) == pair_code(o2, i2),
    ensures
        o1 == o2 && i1 == i2,
{
    let x1 = o1 as int;
    let y1 = i1 as int;
    let x2 = o2 as int;
    let y2 = i2 as int;
    assert(x1 * 0x1_0000_0000_0000_0000 + y1 < 0x1_0000_0000_0000_0000_0000_0000_0000_0000) by (nonlinear_arith)
        requires
            0 <= x1 < 0x1_0000_0000_0000_0000,
            0 <= y1 < 0x1_0000_0000_0000_0000,
    ;
    assert(x2 * 0x1_0000_0000_0000_0000 + y2 < 0x1_0000_0000_0000_0000_0000_0000_0000_0000) by (nonlinear_arith)
        requires
            0 <= x2 < 0x1_0000_0000_0000_0000,
            0 <= y2 < 0x1_0000_0000_0000_0000,
    ;
    assert(x1 == x2 && y1 == y2) by (nonlinear_arith)
        requires
            x1 * 0x1_0000_0000_0000_0000 + y1 == x2 * 0x1_0000_0000_0000_0000 + y2,
            0 <= y1 < 0x1_0000_0000_0000_0000,
            0 <= y2 < 0x1_0000_0000_0000_0000,
            0 <= x1,
            0 <= x2,
    ;
}

fn pair_key(way_order: u32, way_id: u64) -> (k: u128)
    ensures
        k == pair_code(way_order, way_id),
{
    let x = way_order as u128;
    let y = way_id as u128;
    assert(x * 0x1_0000_0000_0000_0000 + y <= u128::MAX) by (nonlinear_arith)
        requires
            x < 0x1_0000_0000_0000_0000,
            y < 0x1_0000_0000_0000_0000,
    ;
    x * 0x1_0000_0000_0000_0000 + y
}

/// Rows `a` and `b` are points of the same way: the same order and the same id.
pub open spec fn same_way(orders: Seq<u32>, ids: Seq<u64>, a: usize, b: usize) -> bool {
    orders[a as int] == orders[b as int] && ids[a as int] == ids[b as int]
}

/// The key text of the way of row `r`.
pub open spec fn row_key_text(orders: Seq<u32>, ids: Seq<u64>, r: usize) -> Seq<char> {
    way_key_text(orders[r as int], ids[r as int])
}

/// `ways` groups the rows `rows` of one relation into its ways: every row in the way of the
/// rows with its order and id, each way's rows in row order, the ways in order of their key
/// texts.
pub open spec fn is_way_grouping(orders: Seq<u32>, ids: Seq<u64>, rows: Seq<usize>, ways: Seq<Seq<usize>>) -> bool {
    &&& forall|w: int| 0 <= w < ways.len() ==> (#[trigger] ways[w]).len() > 0
    &&& forall|w: int, k: int|
        0 <= w < ways.len() && 0 <= k < ways[w].len() ==> rows.contains(#[trigger] ways[w][k])
            && same_way(orders, ids, ways[w][k], ways[w][0])
    &&& forall|w: int, a: int, b: int|
        0 <= w < ways.len() && 0 <= a < b < ways[w].len() ==> #[trigger] ways[w][a]
            < #[trigger] ways[w][b]
    &&& forall|w: int, r: usize|
        0 <= w < ways.len() && rows.contains(r) && same_way(orders, ids, r, ways[w][0])
            ==> #[trigger] ways[w].contains(r)
    &&& forall|r: usize| rows.contains(r) ==> #[trigger] row_grouped(ways, r)
    &&& forall|w: int, v: int|
        0 <= w < v < ways.len() ==> text_lt(
            row_key_text(orders, ids, #[trigger] ways[w][0]),
            row_key_text(orders, ids, #[trigger] ways[v][0]),
        )
}

/// The rows of one relation: its first row (which carries its name and codes), all its rows in
/// row order, and its ways.
pub struct relation_rows {
    pub first_row: usize,
    pub rows: Vec<usize>,
    pub ways: Vec<Vec<usize>>,
}

fn map_positions(rows: &Vec<usize>, positions: &Vec<usize>) -> (r: Vec<usize>)
    requires
        forall|k: int| 0 <= k < positions@.len() ==> (#[trigger] positions@[k]) < rows@.len(),
    ensures
        r@.len() == positions@.len(),
        forall|k: int| 0 <= k < r@.len() ==> #[trigger] r@[k] == rows@[positions@[k] as int],
{
    let mut r: Vec<usize> = Vec::new();
    let mut k: usize = 0;
    while k < positions.len()
        invariant
            k <= positions@.len(),
            forall|j: int| 0 <= j < positions@.len() ==> (#[trigger] positions@[j]) < rows@.len(),
            r@.len() == k,
            forall|j: int| 0 <= j < k ==> #[trigger] r@[j] == rows@[positions@[j] as int],
        decreases positions@.len() - k,
    {
        r.push(rows[positions[k]]);
        k = k + 1;
    }
    r
}

/// The ways of one relation whose rows are `rows` (in row order), in key order.
fn ways_of_relation(orders: &Vec<u32>, ids: &Vec<u64>, rows: &Vec<usize>) -> (ways: Vec<Vec<usize>>)
    requires
        orders@.len() == ids@.len(),
        forall|k: int| 0 <= k < rows@.len() ==> (#[trigger] rows@[k]) < orders@.len(),
        forall|a: int, b: int| 0 <= a < b < rows@.len() ==> #[trigger] rows@[a] < #[trigger] rows@[b],
    ensures
        is_way_grouping(orders@, ids@, rows@, members_view(ways@)),
{
    let mut sub: Vec<u128> = Vec::new();
    let mut p: usize = 0;
    while p < rows.len()
        invariant
            p <= rows@.len(),
            orders@.len() == ids@.len(),
            forall|k: int| 0 <= k < rows@.len() ==> (#[trigger] rows@[k]) < orders@.len(),
            sub@.len() == p,
            forall|j: int|
                0 <= j < p ==> #[trigger] sub@[j] == pair_code(
                    orders@[rows@[j] as int],
                    ids@[rows@[j] as int],
                ),
        decreases rows@.len() - p,
    {
        let r = rows[p];
        sub.push(pair_key(orders[r], ids[r]));
        p = p + 1;
    }
    let (firsts, members) = group_rows(&sub);
    let ghost mv = members_view(members@);
    let mut unsorted: Vec<Vec<usize>> = Vec::new();
    let mut keys: Vec<String> = Vec::new();
    let mut w: usize = 0;
    while w < members.len()
        invariant
            w <= members@.len(),
            mv == members_view(members@),
            is_grouping(sub@, firsts@, mv),
            orders@.len() == ids@.len(),
            sub@.len() == rows@.len(),
            forall|k: int| 0 <= k < rows@.len() ==> (#[trigger] rows@[k]) < orders@.len(),
            unsorted@.len() == w,
            keys@.len() == w,
            forall|v: int|
                0 <= v < w ==> (#[trigger] unsorted@[v])@.len() == mv[v].len() && forall|k: int|
                    0 <= k < mv[v].len() ==> #[trigger] unsorted@[v]@[k] == rows@[mv[v][k] as int],
            forall|v: int|
                0 <= v < w ==> (#[trigger] keys@[v])@ == row_key_text(
                    orders@,
                    ids@,
                    rows@[firsts@[v] as int],
                ),
        decreases members@.len() - w,
    {
        proof {
            assert(mv[w as int] == members@[w as int]@);
            assert forall|k: int| 0 <= k < members@[w as int]@.len() implies (
            #[trigger] members@[w as int]@[k]) < rows@.len() by {
                assert(mv[w as int][k] < sub@.len());
            }
            assert(mv[w as int].len() > 0);
            assert(mv[w as int][0] == firsts@[w as int]);
        }
        let way = map_positions(rows, &members[w]);
        let first = rows[firsts[w]];
        let key = way_key(orders[first], ids[first]);
        unsorted.push(way);
        keys.push(key);
        w = w + 1;
    }
    let mut all: Vec<usize> = Vec::new();
    let mut v: usize = 0;
    while v < keys.len()
        invariant
            v <= keys@.len(),
            all@.len() == v,
            forall|j: int| 0 <= j < v ==> #[trigger] all@[j] == j,
        decreases keys@.len() - v,
    {
        all.push(v);
        v = v + 1;
    }
    let ghost kv = keys_view(keys@);
    proof {
        assert(firsts@.len() == mv.len());
        assert(kv.len() == keys@.len());
        assert forall|x: usize| all@.contains(x) <==> x < keys@.len() by {
            if x < keys@.len() {
                assert(all@[x as int] == x);
            }
        }
        assert forall|g: int| 0 <= g < firsts@.len() implies (#[trigger] firsts@[g]) < rows@.len() by {
            assert(mv[g][0] == firsts@[g]);
            assert(mv[g][0] < sub@.len());
        }
        assert forall|a: int, b: int|
            0 <= a < all@.len() && 0 <= b < all@.len() && a != b implies kv[#[trigger] all@[a] as int]
            != kv[#[trigger] all@[b] as int] by {
            assert(all@[a] == a && all@[b] == b);
            let fa = rows@[firsts@[a] as int];
            let fb = rows@[firsts@[b] as int];
            assert(kv[a] == keys@[a]@);
            assert(kv[b] == keys@[b]@);
            assert(sub@[firsts@[a] as int] != sub@[firsts@[b] as int]);
            assert(sub@[firsts@[a] as int] == pair_code(orders@[fa as int], ids@[fa as int]));
            assert(sub@[firsts@[b] as int] == pair_code(orders@[fb as int], ids@[fb as int]));
            if kv[a] == kv[b] {
                lemma_way_key_injective(orders@[fa as int], ids@[fa as int], orders@[fb as int], ids@[fb as int]);
            }
        }
    }
    let order = sort_by_text(&keys, all);
    let mut ways: Vec<Vec<usize>> = Vec::new();
    let mut t: usize = 0;
    while t < order.len()
        invariant
            t <= order@.len(),
            forall|k: int| 0 <= k < order@.len() ==> (#[trigger] order@[k]) < unsorted@.len(),
            ways@.len() == t,
            forall|j: int| 0 <= j < t ==> (#[trigger] ways@[j])@ == unsorted@[order@[j] as int]@,
        decreases order@.len() - t,
    {
        let u = &unsorted[order[t]];
        let mut c: Vec<usize> = Vec::new();
        let mut k: usize = 0;
        while k < u.len()
            invariant
                k <= u@.len(),
                c@ == u@.subrange(0, k as int),
            decreases u@.len() - k,
        {
            c.push(u[k]);
            k = k + 1;
            assert(c@ =~= u@.subrange(0, k as int));
        }
        assert(c@ =~= u@);
        ways.push(c);
        t = t + 1;
    }
    proof {
        assert(keys@.len() == mv.len());
        assert forall|x: usize| order@.contains(x) <==> x < mv.len() by {
            assert(order@.contains(x) <==> all@.contains(x));
        }
        lemma_ways_of_relation(orders@, ids@, rows@, sub@, firsts@, mv, members_view(unsorted@), kv, order@, members_view(ways@));
    }
    ways
}

/// What `ways_of_relation` computes makes a way grouping: the position groups, mapped to rows
/// and put in key order.
proof fn lemma_ways_of_relation(
    orders: Seq<u32>,
    ids: Seq<u64>,
    rows: Seq<usize>,
    sub: Seq<u128>,
    firsts: Seq<usize>,
    mv: Seq<Seq<usize>>,
    unsorted: Seq<Seq<usize>>,
    kv: Seq<Seq<char>>,
    order: Seq<usize>,
    ways: Seq<Seq<usize>>,
)
    requires
        orders.len() == ids.len(),
        rows.len() <= usize::MAX,
        mv.len() <= usize::MAX,
        forall|k: int| 0 <= k < rows.len() ==> (#[trigger] rows[k]) < orders.len(),
        forall|a: int, b: int| 0 <= a < b < rows.len() ==> #[trigger] rows[a] < #[trigger] rows[b],
        sub.len() == rows.len(),
        forall|j: int|
            0 <= j < rows.len() ==> #[trigger] sub[j] == pair_code(orders[rows[j] as int], ids[rows[j] as int]),
        is_grouping(sub, firsts, mv),
        unsorted.len() == mv.len(),
        forall|v: int|
            0 <= v < mv.len() ==> (#[trigger] unsorted[v]).len() == mv[v].len() && forall|k: int|
                0 <= k < mv[v].len() ==> #[trigger] unsorted[v][k] == rows[mv[v][k] as int],
        kv.len() == mv.len(),
        forall|v: int|
            0 <= v < mv.len() ==> #[trigger] kv[v] == row_key_text(orders, ids, rows[firsts[v] as int]),
        text_ordered(kv, order),
        order.len() == mv.len(),
        forall|k: int| 0 <= k < order.len() ==> (#[trigger] order[k]) < mv.len(),
        forall|x: usize| order.contains(x) <==> x < mv.len(),
        ways.len() == order.len(),
        forall|j: int| 0 <= j < ways.len() ==> #[trigger] ways[j] == unsorted[order[j] as int],
    ensures
        is_way_grouping(orders, ids, rows, ways),
{
    // a row's position: rows are strictly increasing, so a row is at one position only
    assert forall|j: int| 0 <= j < ways.len() implies (#[trigger] ways[j]).len() > 0 by {
        let v = order[j] as int;
        assert(mv[v].len() > 0);
    }
    assert forall|j: int, k: int|
        0 <= j < ways.len() && 0 <= k < ways[j].len() implies rows.contains(#[trigger] ways[j][k])
        && same_way(orders, ids, ways[j][k], ways[j][0]) by {
        let v = order[j] as int;
        let p = mv[v][k] as int;
        let p0 = mv[v][0] as int;
        assert(p < sub.len());
        assert(ways[j][k] == rows[p]);
        assert(ways[j][0] == rows[p0]);
        assert(sub[p] == sub[firsts[v] as int]);
        assert(p0 == firsts[v]);
        lemma_pair_code_injective(
            orders[rows[p] as int],
            ids[rows[p] as int],
            orders[rows[p0] as int],
            ids[rows[p0] as int],
        );
    }
    assert forall|j: int, a: int, b: int|
        0 <= j < ways.len() && 0 <= a < b < ways[j].len() implies #[trigger] ways[j][a]
        < #[trigger] ways[j][b] by {
        let v = order[j] as int;
        assert(mv[v][a] < mv[v][b]);
        assert(mv[v][b] < sub.len());
    }
    assert forall|j: int, r: usize|
        0 <= j < ways.len() && rows.contains(r) && same_way(orders, ids, r, ways[j][0]) implies #[trigger] ways[j].contains(r) by {
        let v = order[j] as int;
        let p = choose|p: int| 0 <= p < rows.len() && rows[p] == r;
        let p0 = mv[v][0] as int;
        assert(ways[j][0] == rows[p0]);
        assert(sub[p] == sub[p0]);
        assert(p0 == firsts[v]);
        assert(mv[v].contains(p as usize));
        let k = choose|k: int| 0 <= k < mv[v].len() && mv[v][k] == p;
        assert(ways[j][k] == r);
    }
    assert forall|r: usize| rows.contains(r) implies #[trigger] row_grouped(ways, r) by {
        let p = choose|p: int| 0 <= p < rows.len() && rows[p] == r;
        assert(row_grouped(mv, p as usize));
        let v = choose|v: int| 0 <= v < mv.len() && #[trigger] mv[v].contains(p as usize);
        let k = choose|k: int| 0 <= k < mv[v].len() && mv[v][k] == p;
        assert(order.contains(v as usize));
        let j = choose|j: int| 0 <= j < order.len() && order[j] == v as usize;
        assert(order[j] as int == v);
        assert(ways[j] == unsorted[v]);
        assert(unsorted[v][k] == rows[mv[v][k] as int]);
        assert(ways[j][k] == r);
        assert(ways[j].contains(r));
    }
    assert forall|a: int, b: int|
        0 <= a < b < ways.len() implies text_lt(
        row_key_text(orders, ids, #[trigger] ways[a][0]),
        row_key_text(orders, ids, #[trigger] ways[b][0]),
    ) by {
        let va = order[a] as int;
        let vb = order[b] as int;
        assert(text_lt(kv[va], kv[vb]));
        assert(mv[va][0] == firsts[va]);
        assert(mv[vb][0] == firsts[vb]);
        assert(ways[a][0] == rows[firsts[va] as int]);
        assert(ways[b][0] == rows[firsts[vb] as int]);
    }
}

/// The keys rows are grouped into relations by.
pub open spec fn relation_codes(relation_ids: Seq<u64>) -> Seq<u128> {
    relation_ids.map_values(|r: u64| r as u128)
}

/// The rows of a coordinates query grouped into relations, in the order the relations first
/// appear, and each relation's rows into its ways, in order of the ways' key texts (their
/// order in the relation, zero-padded, then their id); every way's points in row order.
pub fn group_relation_rows(relation_ids: &Vec<u64>, way_orders: &Vec<u32>, way_ids: &Vec<u64>) -> (r:
    Vec<relation_rows>)
    requires
        relation_ids@.len() == way_orders@.len(),
        way_orders@.len() == way_ids@.len(),
    ensures
        is_grouping(
            relation_codes(relation_ids@),
            r@.map_values(|g: relation_rows| g.first_row),
            r@.map_values(|g: relation_rows| g.rows@),
        ),
        forall|g: int|
            0 <= g < r@.len() ==> is_way_grouping(
                way_orders@,
                way_ids@,
                (#[trigger] r@[g]).rows@,
                members_view(r@[g].ways@),
            ),
{
    let mut keys: Vec<u128> = Vec::new();
    let mut i: usize = 0;
    while i < relation_ids.len()
        invariant
            i <= relation_ids@.len(),
            keys@ == relation_codes(relation_ids@).subrange(0, i as int),
        decreases relation_ids@.len() - i,
    {
        keys.push(relation_ids[i] as u128);
        i = i + 1;
        assert(keys@ =~= relation_codes(relation_ids@).subrange(0, i as int));
    }
    assert(keys@ =~= relation_codes(relation_ids@));
    let (firsts, members) = group_rows(&keys);
    let ghost mv = members_view(members@);
    let mut out: Vec<relation_rows> = Vec::new();
    let mut g: usize = 0;
    while g < members.len()
        invariant
            g <= members@.len(),
            mv == members_view(members@),
            is_grouping(keys@, firsts@, mv),
            keys@.len() == way_orders@.len(),
            way_orders@.len() == way_ids@.len(),
            out@.len() == g,
            forall|h: int|
                0 <= h < g ==> (#[trigger] out@[h]).first_row == firsts@[h] && out@[h].rows@ == mv[h]
                    && is_way_grouping(way_orders@, way_ids@, out@[h].rows@, members_view(out@[h].ways@)),
        decreases members@.len() - g,
    {
        let rows = copy_range(&members[g], 0, members[g].len());
        proof {
            assert(members@[g as int]@.subrange(0, members@[g as int]@.len() as int) =~= mv[g as int]);
            assert forall|k: int| 0 <= k < rows@.len() implies (#[trigger] rows@[k]) < way_orders@.len() by {
                assert(mv[g as int][k] < keys@.len());
            }
        }
        let ways = ways_of_relation(way_orders, way_ids, &rows);
        out.push(relation_rows { first_row: firsts[g], rows, ways });
        g = g + 1;
    }
    proof {
        assert(out@.map_values(|x: relation_rows| x.first_row) =~= firsts@);
        assert(out@.map_values(|x: relation_rows| x.rows@) =~= mv);
    }
    out
}

/// The ids are in strictly increasing order.
pub open spec fn strictly_increasing(v: Seq<u64>) -> bool {
    forall|i: int, j: int| 0 <= i < j < v.len() ==> #[trigger] v[i] < #[trigger] v[j]
}

fn union_sorted(a: Vec<u64>, b: Vec<u64>) -> (r: Vec<u64>)
    requires
        strictly_increasing(a@),
        strictly_increasing(b@),
    ensures
        strictly_increasing(r@),
        forall|x: u64| r@.contains(x) <==> (a@.contains(x) || b@.contains(x)),
{
    let mut r: Vec<u64> = Vec::new();
    let mut i: usize = 0;
    let mut j: usize = 0;
    while i < a.len() || j < b.len()
        invariant
            strictly_increasing(a@),
            strictly_increasing(b@),
            i <= a@.len(),
            j <= b@.len(),
            strictly_increasing(r@),
            forall|x: u64|
                r@.contains(x) <==> (a@.subrange(0, i as int).contains(x) || b@.subrange(
                    0,
                    j as int,
                ).contains(x)),
            forall|k: int, t: int|
                0 <= k < r@.len() && i <= t < a@.len() ==> #[trigger] r@[k] < #[trigger] a@[t],
            forall|k: int, t: int|
                0 <= k < r@.len() && j <= t < b@.len() ==> #[trigger] r@[k] < #[trigger] b@[t],
        decreases a@.len() + b@.len() - i - j,
    {
        let ghost r0 = r@;
        let ghost oa = a@.subrange(0, i as int);
        let ghost ob = b@.subrange(0, j as int);
        let x: u64;
        if i < a.len() && (j >= b.len() || a[i] < b[j]) {
            x = a[i];
            i = i + 1;
        } else if i < a.len() && a[i] == b[j] {
            x = a[i];
            i = i + 1;
            j = j + 1;
        } else {
            x = b[j];
            j = j + 1;
        }
        r.push(x);
        proof {
            let na = a@.subrange(0, i as int);
            let nb = b@.subrange(0, j as int);
            assert forall|t: int| i <= t < a@.len() implies x < #[trigger] a@[t] by {
                if i > 0 && x == a@[i - 1] {
                    assert(a@[i - 1] < a@[t]);
                }
            }
            assert forall|t: int| j <= t < b@.len() implies x < #[trigger] b@[t] by {
                if j > 0 && x == b@[j - 1] {
                    assert(b@[j - 1] < b@[t]);
                }
            }
            assert forall|p: int, q: int| 0 <= p < q < r@.len() implies #[trigger] r@[p]
                < #[trigger] r@[q] by {
                if q == r0.len() {
                    if oa.len() < a@.len() && x == a@[oa.len() as int] {
                        assert(r0[p] < a@[oa.len() as int]);
                    } else {
                        assert(r0[p] < b@[ob.len() as int]);
                    }
                }
            }
            assert forall|y: u64| r@.contains(y) <==> (na.contains(y) || nb.contains(y)) by {
                assert(r0.contains(y) <==> (oa.contains(y) || ob.contains(y)));
                if r@.contains(y) {
                    let k = choose|k: int| 0 <= k < r@.len() && r@[k] == y;
                    if k < r0.len() {
                        assert(r0[k] == y);
                        assert(r0.contains(y));
                        if oa.contains(y) {
                            let m = choose|m: int| 0 <= m < oa.len() && oa[m] == y;
                            assert(na[m] == y);
                        }
                        if ob.contains(y) {
                            let m = choose|m: int| 0 <= m < ob.len() && ob[m] == y;
                            assert(nb[m] == y);
                        }
                    } else {
                        if na.len() > oa.len() {
                            assert(na[oa.len() as int] == y);
                        } else {
                            assert(nb[ob.len() as int] == y);
                        }
                    }
                }
                if na.contains(y) {
                    let m = choose|m: int| 0 <= m < na.len() && na[m] == y;
                    if m < oa.len() {
                        assert(oa[m] == y);
                        assert(oa.contains(y));
                        let k = choose|k: int| 0 <= k < r0.len() && r0[k] == y;
                        assert(r@[k] == y);
                    } else {
                        assert(r@[r0.len() as int] == y);
                    }
                }
                if nb.contains(y) {
                    let m = choose|m: int| 0 <= m < nb.len() && nb[m] == y;
                    if m < ob.len() {
                        assert(ob[m] == y);
                        assert(ob.contains(y));
                        let k = choose|k: int| 0 <= k < r0.len() && r0[k] == y;
                        assert(r@[k] == y);
                    } else {
                        assert(r@[r0.len() as int] == y);
                    }
                }
            }
        }
    }
    assert(a@.subrange(0, i as int) =~= a@);
    assert(b@.subrange(0, j as int) =~= b@);
    r
}

/// The ids, sorted, each once.
pub fn sorted_unique_ids(v: Vec<u64>) -> (r: Vec<u64>)
    ensures
        strictly_increasing(r@),
        forall|x: u64| r@.contains(x) <==> v@.contains(x),
    decreases v@.len(),
{
    if v.len() <= 1 {
        return v;
    }
    let mid = v.len() / 2;
    let mut left: Vec<u64> = Vec::new();
    let mut right: Vec<u64> = Vec::new();
    let mut k: usize = 0;
    while k < v.len()
        invariant
            k <= v@.len(),
            mid == v@.len() / 2,
            left@ == v@.subrange(0, if k < mid { k as int } else { mid as int }),
            right@ == v@.subrange(mid as int, if k < mid { mid as int } else { k as int }),
        decreases v@.len() - k,
    {
        if k < mid {
            left.push(v[k]);
        } else {
            right.push(v[k]);
        }
        k = k + 1;
        assert(left@ =~= v@.subrange(0, if k < mid { k as int } else { mid as int }));
        assert(right@ =~= v@.subrange(mid as int, if k < mid { mid as int } else { k as int }));
    }
    proof {
        assert forall|x: u64| v@.contains(x) <==> (left@.contains(x) || right@.contains(x)) by {
            if v@.contains(x) {
                let p = choose|p: int| 0 <= p < v@.len() && v@[p] == x;
                if p < mid {
                    assert(left@[p] == x);
                } else {
                    assert(right@[p - mid] == x);
                }
            }
            if left@.contains(x) {
                let p = choose|p: int| 0 <= p < left@.len() && left@[p] == x;
                assert(v@[p] == x);
            }
            if right@.contains(x) {
                let p = choose|p: int| 0 <= p < right@.len() && right@[p] == x;
                assert(v@[mid + p] == x);
            }
        }
    }
    let ls = sorted_unique_ids(left);
    let rs = sorted_unique_ids(right);
    union_sorted(ls, rs)
}

} // verus!
