// joining a relation's ways into rings. a way enters a ring at one of its two ends; the ring is
// grown at its tail with the first unused way that has an end there, and a new ring starts at the
// first unused way. which ends lie at the same place is computed from the coordinates by the
// caller; the library only reads that table.
use vstd::prelude::*;

verus! {

/// One end of a way: the way's position among the relation's ways, and whether it is the way's
/// last point (else its first).
#[derive(Clone, Copy, PartialEq, Eq, Debug, Structural)]
pub struct end_ref {
    pub way: usize,
    pub at_last: bool,
}

/// What ring assembly reads of a way: how many points it has, and the way ends that lie at the
/// same place as its first point and as its last point.
pub struct way_ends {
    pub points: usize,
    pub first_touches: Vec<end_ref>,
    pub last_touches: Vec<end_ref>,
}

/// Every end listed names one of the `n` ways.
pub open spec fn touch_list_wf(l: Seq<end_ref>, n: nat) -> bool {
    forall|k: int| 0 <= k < l.len() ==> (#[trigger] l[k]).way < n
}

/// Every way has at least one point, and every listed end names a way of the relation.
pub open spec fn ends_wf(ends: Seq<way_ends>) -> bool {
    forall|i: int|
        0 <= i < ends.len() ==> (#[trigger] ends[i]).points >= 1 && touch_list_wf(
            ends[i].first_touches@,
            ends.len(),
        ) && touch_list_wf(ends[i].last_touches@, ends.len())
}

/// The other end of the same way.
pub open spec fn opposite(e: end_ref) -> end_ref {
    end_ref { way: e.way, at_last: !e.at_last }
}

/// The order in which ends are tried: by way, a way's first point before its last.
pub open spec fn end_key(e: end_ref) -> int {
    2 * e.way + if e.at_last {
        1int
    } else {
        0int
    }
}

/// The ends that lie at the same place as the end `t`.
pub open spec fn touching(ends: Seq<way_ends>, t: end_ref) -> Seq<end_ref> {
    if t.at_last {
        ends[t.way as int].last_touches@
    } else {
        ends[t.way as int].first_touches@
    }
}

/// Whether way `w` already lies in one of the pieces `done`.
pub open spec fn taken(done: Seq<end_ref>, w: usize) -> bool {
    exists|j: int| 0 <= j < done.len() && (#[trigger] done[j]).way == w
}

/// `e` is how the ring at tail `t` goes on: the first end, in `end_key` order, of an unused way
/// that lies at the tail.
pub open spec fn is_next(ends: Seq<way_ends>, done: Seq<end_ref>, t: end_ref, e: end_ref) -> bool {
    &&& touching(ends, t).contains(e)
    &&& !taken(done, e.way)
    &&& forall|q: end_ref|
        #[trigger] touching(ends, t).contains(q) && !taken(done, q.way) ==> end_key(e) <= end_key(q)
}

/// Some unused way has an end at the tail `t`.
pub open spec fn has_next(ends: Seq<way_ends>, done: Seq<end_ref>, t: end_ref) -> bool {
    exists|q: end_ref| #[trigger] touching(ends, t).contains(q) && !taken(done, q.way)
}

/// `w` is the first way not yet used.
pub open spec fn is_first_free(done: Seq<end_ref>, w: usize) -> bool {
    &&& !taken(done, w)
    &&& forall|v: usize| v < w ==> #[trigger] taken(done, v)
}

/// Piece `i` starts a ring.
pub open spec fn is_start(starts: Seq<usize>, i: int) -> bool {
    exists|r: int| 0 <= r < starts.len() && starts[r] == i
}

/// The end at the tail of the ring once piece `i` is in it: the far end of that piece's way, or,
/// for a one-point way joined to a ring, the tail as it was.
pub open spec fn tail_at(ends: Seq<way_ends>, pieces: Seq<end_ref>, starts: Seq<usize>, i: int) -> end_ref
    decreases i,
{
    if i <= 0 || is_start(starts, i) || ends[pieces[i].way as int].points >= 2 {
        opposite(pieces[i])
    } else {
        tail_at(ends, pieces, starts, i - 1)
    }
}

/// The tail at piece `i` depends only on the pieces up to `i` and on which of them start rings.
proof fn lemma_tail_stable(
    ends: Seq<way_ends>,
    p1: Seq<end_ref>,
    s1: Seq<usize>,
    p2: Seq<end_ref>,
    s2: Seq<usize>,
    i: int,
)
    requires
        0 <= i < p1.len(),
        i < p2.len(),
        forall|j: int| 0 <= j <= i ==> p1[j] == p2[j],
        forall|j: int| 0 <= j <= i ==> (is_start(s1, j) <==> is_start(s2, j)),
    ensures
        tail_at(ends, p1, s1, i) == tail_at(ends, p2, s2, i),
    decreases i,
{
    if i > 0 {
        lemma_tail_stable(ends, p1, s1, p2, s2, i - 1);
    }
}

/// The number of `false` entries.
pub open spec fn count_false(s: Seq<bool>) -> nat
    decreases s.len(),
{
    if s.len() == 0 {
        0
    } else {
        count_false(s.drop_last()) + if s.last() {
            0nat
        } else {
            1nat
        }
    }
}

proof fn lemma_count_false_set(s: Seq<bool>, i: int)
    requires
        0 <= i < s.len(),
        !s[i],
    ensures
        count_false(s.update(i, true)) + 1 == count_false(s),
    decreases s.len(),
{
    let t = s.update(i, true);
    if i == s.len() - 1 {
        assert(t.drop_last() =~= s.drop_last());
    } else {
        assert(t.drop_last() =~= s.drop_last().update(i, true));
        lemma_count_false_set(s.drop_last(), i);
    }
}

/// The first end, in `end_key` order, of a way not marked in `used` among the ends at `t`.
fn pick_next(ends: &Vec<way_ends>, used: &Vec<bool>, t: end_ref) -> (r: Option<end_ref>)
    requires
        ends_wf(ends@),
        t.way < ends@.len(),
        used@.len() == ends@.len(),
    ensures
        match r {
            Some(e) => {
                &&& touching(ends@, t).contains(e)
                &&& !used@[e.way as int]
                &&& forall|q: end_ref|
                    #[trigger] touching(ends@, t).contains(q) && !used@[q.way as int] ==> end_key(e)
                        <= end_key(q)
            },
            None => forall|q: end_ref| #[trigger] touching(ends@, t).contains(q) ==> used@[q.way as int],
        },
{
    let list = if t.at_last {
        &ends[t.way].last_touches
    } else {
        &ends[t.way].first_touches
    };
    assert(list@ == touching(ends@, t));
    assert(touch_list_wf(list@, ends@.len()));
    let mut best: Option<end_ref> = None;
    let mut k: usize = 0;
    while k < list.len()
        invariant
            k <= list@.len(),
            list@ == touching(ends@, t),
            touch_list_wf(list@, ends@.len()),
            used@.len() == ends@.len(),
            match best {
                Some(e) => {
                    &&& list@.contains(e)
                    &&& !used@[e.way as int]
                    &&& forall|j: int|
                        0 <= j < k && !used@[list@[j].way as int] ==> end_key(e) <= end_key(
                            #[trigger] list@[j],
                        )
                },
                None => forall|j: int| 0 <= j < k ==> used@[(#[trigger] list@[j]).way as int],
            },
        decreases list@.len() - k,
    {
        let e = list[k];
        if !used[e.way] {
            let better = match best {
                None => true,
                Some(b) => e.way < b.way || (e.way == b.way && !e.at_last && b.at_last),
            };
            if better {
                best = Some(e);
            }
        }
        k = k + 1;
    }
    proof {
        match best {
            Some(e) => {
                assert forall|q: end_ref|
                    #[trigger] touching(ends@, t).contains(q) && !used@[q.way as int] implies end_key(e)
                    <= end_key(q) by {
                    let j = choose|j: int| 0 <= j < list@.len() && list@[j] == q;
                    assert(list@[j] == q);
                }
            },
            None => {
                assert forall|q: end_ref| #[trigger] touching(ends@, t).contains(q) implies used@[q.way as int] by {
                    let j = choose|j: int| 0 <= j < list@.len() && list@[j] == q;
                    assert(list@[j] == q);
                }
            },
        }
    }
    best
}

/// The pieces `pieces` and ring starts `starts` are the rings the ways `ends` assemble into, as
/// far as `pieces` goes: ring starts are in order, each start is the first way not yet used
/// (entered at its first point), each other piece is how its ring goes on, and every ring closed
/// before the last piece could not go on.
#[verifier::opaque]
pub open spec fn assembled_prefix(ends: Seq<way_ends>, pieces: Seq<end_ref>, starts: Seq<usize>) -> bool {
    &&& forall|i: int| 0 <= i < pieces.len() ==> (#[trigger] pieces[i]).way < ends.len()
    &&& forall|i: int, j: int|
        0 <= i < j < pieces.len() ==> (#[trigger] pieces[i]).way != (#[trigger] pieces[j]).way
    &&& forall|r: int| 0 <= r < starts.len() ==> (#[trigger] starts[r]) < pieces.len()
    &&& forall|r: int, q: int| 0 <= r < q < starts.len() ==> #[trigger] starts[r] < #[trigger] starts[q]
    &&& pieces.len() > 0 ==> starts.len() > 0 && starts[0] == 0
    &&& forall|i: int|
        0 <= i < pieces.len() && #[trigger] is_start(starts, i) ==> !pieces[i].at_last
            && is_first_free(pieces.subrange(0, i), pieces[i].way)
    &&& forall|i: int|
        0 <= i < pieces.len() && !#[trigger] is_start(starts, i) ==> 0 < i && is_next(
            ends,
            pieces.subrange(0, i),
            tail_at(ends, pieces, starts, i - 1),
            pieces[i],
        )
    &&& forall|i: int|
        0 <= i && i + 1 < pieces.len() && #[trigger] is_start(starts, i + 1) ==> !has_next(
            ends,
            pieces.subrange(0, i + 1),
            tail_at(ends, pieces, starts, i),
        )
}

/// A way is taken by the pieces with one more pushed exactly when it was taken before or is the
/// way pushed.
proof fn lemma_taken_push(p0: Seq<end_ref>, e: end_ref, v: usize)
    ensures
        taken(p0.push(e), v) <==> (taken(p0, v) || v == e.way),
{
    let p = p0.push(e);
    if taken(p0, v) {
        let j = choose|j: int| 0 <= j < p0.len() && p0[j].way == v;
        assert(p[j] == p0[j]);
    }
    if v == e.way {
        assert(p[p0.len() as int].way == e.way);
    }
    if taken(p, v) && v != e.way {
        let j = choose|j: int| 0 <= j < p.len() && p[j].way == v;
        assert(p0[j].way == v);
    }
}

/// Starting a ring at the first free way keeps the assembly well formed.
#[verifier::rlimit(40)]
proof fn lemma_start_ring(ends: Seq<way_ends>, p0: Seq<end_ref>, s0: Seq<usize>, w: usize)
    requires
        ends_wf(ends),
        assembled_prefix(ends, p0, s0),
        p0.len() > 0 ==> !has_next(ends, p0, tail_at(ends, p0, s0, p0.len() - 1)),
        w < ends.len(),
        p0.len() <= usize::MAX,
        is_first_free(p0, w),
    ensures
        ({
            let p = p0.push(end_ref { way: w, at_last: false });
            let s = s0.push(p0.len() as usize);
            &&& assembled_prefix(ends, p, s)
            &&& tail_at(ends, p, s, p0.len() as int) == (end_ref { way: w, at_last: true })
        }),
{
    reveal(assembled_prefix);
    let len0 = p0.len() as int;
    let p = p0.push(end_ref { way: w, at_last: false });
    let s = s0.push(p0.len() as usize);
    assert(p.subrange(0, len0) =~= p0);
    assert forall|j: int| 0 <= j < len0 implies (is_start(s0, j) <==> is_start(s, j)) by {
        if is_start(s0, j) {
            let r = choose|r: int| 0 <= r < s0.len() && s0[r] == j;
            assert(s[r] == j);
        }
        if is_start(s, j) {
            let r = choose|r: int| 0 <= r < s.len() && s[r] == j;
            assert(s[s0.len() as int] == len0);
            assert(r < s0.len());
            assert(s0[r] == j);
        }
    }
    assert(is_start(s, len0)) by {
        assert(s[s0.len() as int] == len0);
    }
    assert forall|i: int| 0 <= i < len0 implies tail_at(ends, p0, s0, i) == tail_at(
        ends,
        p,
        s,
        i,
    ) by {
        lemma_tail_stable(ends, p0, s0, p, s, i);
    }
    assert forall|i: int, j: int|
        0 <= i < j < p.len() implies (#[trigger] p[i]).way != (#[trigger] p[j]).way by {
        if j == len0 {
            assert(p0[i] == p[i]);
        }
    }
    assert forall|r: int, q: int| 0 <= r < q < s.len() implies #[trigger] s[r] < #[trigger] s[q] by {
        if q == s0.len() {
            assert(s0[r] < p0.len());
        } else {
            assert(s0[r] < s0[q]);
        }
    }
    assert forall|i: int|
        0 <= i < p.len() && #[trigger] is_start(s, i) implies !p[i].at_last && is_first_free(
        p.subrange(0, i),
        p[i].way,
    ) by {
        if i < len0 {
            assert(p.subrange(0, i) =~= p0.subrange(0, i));
        }
    }
    assert forall|i: int|
        0 <= i < p.len() && !#[trigger] is_start(s, i) implies 0 < i && is_next(
        ends,
        p.subrange(0, i),
        tail_at(ends, p, s, i - 1),
        p[i],
    ) by {
        assert(i < len0);
        assert(p.subrange(0, i) =~= p0.subrange(0, i));
        assert(!is_start(s0, i));
    }
    assert forall|i: int|
        0 <= i && i + 1 < p.len() && #[trigger] is_start(s, i + 1) implies !has_next(
        ends,
        p.subrange(0, i + 1),
        tail_at(ends, p, s, i),
    ) by {
        if i + 1 < len0 {
            assert(p.subrange(0, i + 1) =~= p0.subrange(0, i + 1));
            assert(is_start(s0, i + 1));
        }
    }
}

/// Going on with the next piece of the open ring keeps the assembly well formed, and moves the
/// tail to the far end of the new way unless it has a single point.
proof fn lemma_extend_ring(ends: Seq<way_ends>, p0: Seq<end_ref>, s: Seq<usize>, e: end_ref)
    requires
        ends_wf(ends),
        assembled_prefix(ends, p0, s),
        p0.len() > 0,
        e.way < ends.len(),
        is_next(ends, p0, tail_at(ends, p0, s, p0.len() - 1), e),
    ensures
        ({
            let p = p0.push(e);
            &&& assembled_prefix(ends, p, s)
            &&& tail_at(ends, p, s, p0.len() as int) == if ends[e.way as int].points >= 2 {
                opposite(e)
            } else {
                tail_at(ends, p0, s, p0.len() - 1)
            }
        }),
{
    reveal(assembled_prefix);
    let len0 = p0.len() as int;
    let p = p0.push(e);
    assert(p.subrange(0, len0) =~= p0);
    assert(!is_start(s, len0)) by {
        if is_start(s, len0) {
            let r = choose|r: int| 0 <= r < s.len() && s[r] == len0;
            assert(s[r] < p0.len());
        }
    }
    assert forall|i: int| 0 <= i < len0 implies tail_at(ends, p0, s, i) == tail_at(ends, p, s, i) by {
        lemma_tail_stable(ends, p0, s, p, s, i);
    }
    assert forall|i: int, j: int|
        0 <= i < j < p.len() implies (#[trigger] p[i]).way != (#[trigger] p[j]).way by {
        if j == len0 {
            assert(p0[i] == p[i]);
        }
    }
    assert forall|i: int|
        0 <= i < p.len() && #[trigger] is_start(s, i) implies !p[i].at_last && is_first_free(
        p.subrange(0, i),
        p[i].way,
    ) by {
        assert(i < len0);
        assert(p.subrange(0, i) =~= p0.subrange(0, i));
    }
    assert forall|i: int|
        0 <= i < p.len() && !#[trigger] is_start(s, i) implies 0 < i && is_next(
        ends,
        p.subrange(0, i),
        tail_at(ends, p, s, i - 1),
        p[i],
    ) by {
        if i < len0 {
            assert(p.subrange(0, i) =~= p0.subrange(0, i));
        } else {
            assert(is_start(s, 0)) by {
                assert(s[0] == 0);
            }
        }
    }
    assert forall|i: int|
        0 <= i && i + 1 < p.len() && #[trigger] is_start(s, i + 1) implies !has_next(
        ends,
        p.subrange(0, i + 1),
        tail_at(ends, p, s, i),
    ) by {
        assert(p.subrange(0, i + 1) =~= p0.subrange(0, i + 1));
    }
}

/// An end listed at a tail names one of the ways.
proof fn lemma_touching_way(ends: Seq<way_ends>, t: end_ref, q: end_ref)
    requires
        ends_wf(ends),
        t.way < ends.len(),
        touching(ends, t).contains(q),
    ensures
        q.way < ends.len(),
{
    let l = touching(ends, t);
    let k = choose|k: int| 0 <= k < l.len() && l[k] == q;
    assert(ends_wf(ends) ==> touch_list_wf(ends[t.way as int].first_touches@, ends.len())
        && touch_list_wf(ends[t.way as int].last_touches@, ends.len()));
    assert(l[k].way < ends.len());
}

/// The rings the ways assemble into: `pieces` holds every way once, in ring order, each entered at
/// the end given; ring `r` runs from `starts[r]` to the next start (or the end). Each ring begins
/// at the first way not yet used, entered at its first point, and grows at its tail with the first
/// end (by way, first point before last) of an unused way that lies there; it ends when no unused
/// way has an end at its tail.
pub fn assemble_rings(ends: &Vec<way_ends>) -> (r: (Vec<end_ref>, Vec<usize>))
    requires
        ends_wf(ends@),
    ensures
        assembled_prefix(ends@, r.0@, r.1@),
        forall|w: usize| w < ends@.len() ==> #[trigger] taken(r.0@, w),
        r.0@.len() > 0 ==> !has_next(ends@, r.0@, tail_at(ends@, r.0@, r.1@, r.0@.len() - 1)),
{
    let n = ends.len();
    let mut used: Vec<bool> = Vec::new();
    while used.len() < n
        invariant
            used@.len() <= n,
            forall|v: int| 0 <= v < used@.len() ==> !used@[v],
        decreases n - used@.len(),
    {
        used.push(false);
    }
    let mut pieces: Vec<end_ref> = Vec::new();
    let mut starts: Vec<usize> = Vec::new();
    let mut w: usize = 0;
    proof {
        reveal(assembled_prefix);
    }
    while w < n
        invariant
            n == ends@.len(),
            ends_wf(ends@),
            w <= n,
            used@.len() == n,
            forall|v: usize| v < n ==> (used@[v as int] <==> #[trigger] taken(pieces@, v)),
            forall|v: usize| v < w ==> #[trigger] used@[v as int],
            assembled_prefix(ends@, pieces@, starts@),
            pieces@.len() > 0 ==> !has_next(
                ends@,
                pieces@,
                tail_at(ends@, pieces@, starts@, pieces@.len() - 1),
            ),
        decreases n - w,
    {
        if !used[w] {
            let len0 = pieces.len();
            proof {
                assert forall|v: usize| v < w implies #[trigger] taken(pieces@, v) by {
                    assert(used@[v as int]);
                }
                lemma_start_ring(ends@, pieces@, starts@, w);
                assert forall|v: usize| v < n implies (used@.update(w as int, true)[v as int]
                    <==> #[trigger] taken(pieces@.push(end_ref { way: w, at_last: false }), v)) by {
                    lemma_taken_push(pieces@, end_ref { way: w, at_last: false }, v);
                }
                lemma_count_false_set(used@, w as int);
            }
            starts.push(len0);
            pieces.push(end_ref { way: w, at_last: false });
            used.set(w, true);
            let mut tail = end_ref { way: w, at_last: true };
            loop
                invariant
                    n == ends@.len(),
                    ends_wf(ends@),
                    w < n,
                    used@.len() == n,
                    used@[w as int],
                    forall|v: usize| v < n ==> (used@[v as int] <==> #[trigger] taken(pieces@, v)),
                    forall|v: usize| v < w ==> #[trigger] used@[v as int],
                    assembled_prefix(ends@, pieces@, starts@),
                    pieces@.len() > 0,
                    tail.way < n,
                    tail == tail_at(ends@, pieces@, starts@, pieces@.len() - 1),
                ensures
                    !has_next(ends@, pieces@, tail),
                decreases count_false(used@),
            {
                let next = pick_next(ends, &used, tail);
                match next {
                    Some(e) => {
                        proof {
                            lemma_touching_way(ends@, tail, e);
                            assert(is_next(ends@, pieces@, tail, e)) by {
                                assert forall|q: end_ref|
                                    #[trigger] touching(ends@, tail).contains(q) && !taken(
                                        pieces@,
                                        q.way,
                                    ) implies end_key(e) <= end_key(q) by {
                                    lemma_touching_way(ends@, tail, q);
                                }
                            }
                            lemma_extend_ring(ends@, pieces@, starts@, e);
                            assert forall|v: usize| v < n implies (used@.update(
                                e.way as int,
                                true,
                            )[v as int] <==> #[trigger] taken(pieces@.push(e), v)) by {
                                lemma_taken_push(pieces@, e, v);
                            }
                            lemma_count_false_set(used@, e.way as int);
                        }
                        pieces.push(e);
                        used.set(e.way, true);
                        if ends[e.way].points >= 2 {
                            tail = end_ref { way: e.way, at_last: !e.at_last };
                        }
                    },
                    None => {
                        proof {
                            if has_next(ends@, pieces@, tail) {
                                let q = choose|q: end_ref|
                                    #[trigger] touching(ends@, tail).contains(q) && !taken(
                                        pieces@,
                                        q.way,
                                    );
                                lemma_touching_way(ends@, tail, q);
                            }
                        }
                        break;
                    },
                }
            }
        }
        w = w + 1;
    }
    proof {
        assert forall|v: usize| v < n implies #[trigger] taken(pieces@, v) by {
            assert(used@[v as int]);
        }
    }
    (pieces, starts)
}

/// Where ring `r` ends: at the next ring's start, or after the last piece.
pub open spec fn ring_end(starts: Seq<usize>, r: int, total: int) -> int {
    if r + 1 < starts.len() {
        starts[r + 1] as int
    } else {
        total
    }
}

/// How many points the ring made of pieces `lo` to `hi` has: all of the first way's, then each
/// further way's but the one it shares with the tail.
pub open spec fn ring_points(ends: Seq<way_ends>, pieces: Seq<end_ref>, lo: int, hi: int) -> int
    decreases hi - lo,
{
    if hi <= lo {
        0
    } else if hi == lo + 1 {
        ends[pieces[lo].way as int].points as int
    } else {
        ring_points(ends, pieces, lo, hi - 1) + ends[pieces[hi - 1].way as int].points - 1
    }
}

/// Whether ring `r` closes: its last point lies at the first point of its first way.
pub open spec fn ring_closes(ends: Seq<way_ends>, pieces: Seq<end_ref>, starts: Seq<usize>, r: int) -> bool {
    let lo = starts[r] as int;
    let hi = ring_end(starts, r, pieces.len() as int);
    touching(ends, tail_at(ends, pieces, starts, hi - 1)).contains(
        end_ref { way: pieces[lo].way, at_last: false },
    )
}

/// Whether ring `r` makes a polygon: it closes and has at least four points.
pub open spec fn is_polygon_ring(ends: Seq<way_ends>, pieces: Seq<end_ref>, starts: Seq<usize>, r: int) -> bool {
    &&& ring_points(ends, pieces, starts[r] as int, ring_end(starts, r, pieces.len() as int)) >= 4
    &&& ring_closes(ends, pieces, starts, r)
}

/// The rings among the first `k` that make polygons, in order.
pub open spec fn polygon_ring_indices(
    ends: Seq<way_ends>,
    pieces: Seq<end_ref>,
    starts: Seq<usize>,
    k: int,
) -> Seq<usize>
    decreases k,
{
    if k <= 0 {
        seq![]
    } else if is_polygon_ring(ends, pieces, starts, k - 1) {
        polygon_ring_indices(ends, pieces, starts, k - 1).push((k - 1) as usize)
    } else {
        polygon_ring_indices(ends, pieces, starts, k - 1)
    }
}

/// The rings kept as polygons are exactly the rings that close and have at least four points,
/// each once and in ring order: of the first `k` rings, `r` is kept if and only if ring `r`
/// closes and counts four points or more.
pub proof fn lemma_polygon_rings_are_closed_rings(
    ends: Seq<way_ends>,
    pieces: Seq<end_ref>,
    starts: Seq<usize>,
    k: int,
)
    requires
        0 <= k <= starts.len(),
        starts.len() <= usize::MAX,
    ensures
        forall|j: int|
            0 <= j < polygon_ring_indices(ends, pieces, starts, k).len() ==> (#[trigger] polygon_ring_indices(
                ends,
                pieces,
                starts,
                k,
            )[j] as int) < k,
        forall|a: int, b: int|
            0 <= a < b < polygon_ring_indices(ends, pieces, starts, k).len() ==> #[trigger] polygon_ring_indices(
                ends,
                pieces,
                starts,
                k,
            )[a] < #[trigger] polygon_ring_indices(ends, pieces, starts, k)[b],
        forall|r: int|
            0 <= r < k ==> (#[trigger] polygon_ring_indices(ends, pieces, starts, k).contains(r as usize)
                <==> (ring_points(ends, pieces, starts[r] as int, ring_end(starts, r, pieces.len() as int))
                >= 4 && ring_closes(ends, pieces, starts, r))),
    decreases k,
{
    if k > 0 {
        lemma_polygon_rings_are_closed_rings(ends, pieces, starts, k - 1);
        let prev = polygon_ring_indices(ends, pieces, starts, k - 1);
        let cur = polygon_ring_indices(ends, pieces, starts, k);
        if is_polygon_ring(ends, pieces, starts, k - 1) {
            assert(cur == prev.push((k - 1) as usize));
            assert forall|j: int| 0 <= j < cur.len() implies (#[trigger] cur[j] as int) < k by {
                if j < prev.len() {
                    assert(cur[j] == prev[j]);
                }
            }
            assert forall|a: int, b: int| 0 <= a < b < cur.len() implies #[trigger] cur[a] < #[trigger] cur[b] by {
                assert(cur[a] == prev[a]);
                if b < prev.len() {
                    assert(cur[b] == prev[b]);
                    assert(prev[a] < prev[b]);
                } else {
                    assert((prev[a] as int) < k - 1);
                }
            }
            assert forall|r: int| 0 <= r < k implies (#[trigger] cur.contains(r as usize) <==> (ring_points(
                ends,
                pieces,
                starts[r] as int,
                ring_end(starts, r, pieces.len() as int),
            ) >= 4 && ring_closes(ends, pieces, starts, r))) by {
                if r < k - 1 {
                    if prev.contains(r as usize) {
                        let j = choose|j: int| 0 <= j < prev.len() && prev[j] == r as usize;
                        assert(cur[j] == prev[j]);
                    }
                    if cur.contains(r as usize) {
                        let j = choose|j: int| 0 <= j < cur.len() && cur[j] == r as usize;
                        if j < prev.len() {
                            assert(cur[j] == prev[j]);
                        }
                    }
                } else {
                    assert(cur[cur.len() - 1] == (k - 1) as usize);
                }
            }
        } else {
            assert(cur == prev);
            assert forall|r: int| 0 <= r < k implies (#[trigger] cur.contains(r as usize) <==> (ring_points(
                ends,
                pieces,
                starts[r] as int,
                ring_end(starts, r, pieces.len() as int),
            ) >= 4 && ring_closes(ends, pieces, starts, r))) by {
                if r == k - 1 && cur.contains(r as usize) {
                    let j = choose|j: int| 0 <= j < cur.len() && cur[j] == r as usize;
                    assert((prev[j] as int) < k - 1);
                }
            }
        }
    }
}

/// A start is exactly one of the listed starts.
proof fn lemma_is_start_at(starts: Seq<usize>, r: int, i: int)
    requires
        0 <= r < starts.len(),
        forall|a: int, b: int| 0 <= a < b < starts.len() ==> #[trigger] starts[a] < #[trigger] starts[b],
        starts[r] < i < ring_end(starts, r, i + 1),
    ensures
        !is_start(starts, i),
{
    if is_start(starts, i) {
        let q = choose|q: int| 0 <= q < starts.len() && starts[q] == i;
        if q <= r {
            if q < r {
                assert(starts[q] < starts[r]);
            }
        } else {
            if q > r + 1 {
                assert(starts[r + 1] < starts[q]);
            }
        }
    }
}

/// The rings of an assembly that make polygons: those that close and have at least four points,
/// in ring order.
pub fn polygon_rings(ends: &Vec<way_ends>, pieces: &Vec<end_ref>, starts: &Vec<usize>) -> (kept:
    Vec<usize>)
    requires
        ends_wf(ends@),
        assembled_prefix(ends@, pieces@, starts@),
    ensures
        kept@ == polygon_ring_indices(ends@, pieces@, starts@, starts@.len() as int),
{
    proof {
        reveal(assembled_prefix);
    }
    let total = pieces.len();
    let mut kept: Vec<usize> = Vec::new();
    let mut r: usize = 0;
    while r < starts.len()
        invariant
            ends_wf(ends@),
            assembled_prefix(ends@, pieces@, starts@),
            total == pieces@.len(),
            r <= starts@.len(),
            kept@ == polygon_ring_indices(ends@, pieces@, starts@, r as int),
        decreases starts@.len() - r,
    {
        proof {
            reveal(assembled_prefix);
        }
        let lo = starts[r];
        let hi = if r + 1 < starts.len() {
            starts[r + 1]
        } else {
            total
        };
        assert(lo < hi) by {
            if r + 1 < starts@.len() {
                assert(starts@[r as int] < starts@[r + 1]);
            }
        }
        assert(is_start(starts@, lo as int)) by {
            assert(starts@[r as int] == lo);
        }
        let ghost head = pieces@[lo as int];
        assert(head.way < ends@.len());
        let mut tail = end_ref { way: pieces[lo].way, at_last: true };
        let p0 = ends[pieces[lo].way].points;
        let mut count: usize = if p0 >= 4 {
            4
        } else {
            p0
        };
        let mut i: usize = lo + 1;
        while i < hi
            invariant
                ends_wf(ends@),
                assembled_prefix(ends@, pieces@, starts@),
                r < starts@.len(),
                lo == starts@[r as int],
                hi == ring_end(starts@, r as int, total as int),
                hi <= total,
                total == pieces@.len(),
                lo < i <= hi,
                tail == tail_at(ends@, pieces@, starts@, i - 1),
                tail.way < ends@.len(),
                count == if ring_points(ends@, pieces@, lo as int, i as int) >= 4 {
                    4
                } else {
                    ring_points(ends@, pieces@, lo as int, i as int)
                },
            decreases hi - i,
        {
            proof {
                reveal(assembled_prefix);
                lemma_is_start_at(starts@, r as int, i as int);
            }
            let e = pieces[i];
            assert(e.way < ends@.len());
            let pts = ends[e.way].points;
            assert(pts >= 1);
            if pts >= 2 {
                tail = end_ref { way: e.way, at_last: !e.at_last };
            }
            if pts - 1 >= 4 - count {
                count = 4;
            } else {
                count = count + (pts - 1);
            }
            i = i + 1;
        }
        let first = end_ref { way: pieces[lo].way, at_last: false };
        let list = if tail.at_last {
            &ends[tail.way].last_touches
        } else {
            &ends[tail.way].first_touches
        };
        let mut closes = false;
        let mut k: usize = 0;
        while k < list.len()
            invariant
                k <= list@.len(),
                closes <==> exists|j: int| 0 <= j < k && list@[j] == first,
            decreases list@.len() - k,
        {
            if list[k] == first {
                closes = true;
            }
            k = k + 1;
        }
        proof {
            assert(list@ == touching(ends@, tail));
            if closes {
                let j = choose|j: int| 0 <= j < k && list@[j] == first;
                assert(list@.contains(first));
            }
            if list@.contains(first) {
                let j = choose|j: int| 0 <= j < list@.len() && list@[j] == first;
                assert(closes);
            }
        }
        if count >= 4 && closes {
            kept.push(r);
        }
        r = r + 1;
    }
    kept
}

/// Every way of the relation is empty (so is a relation without ways).
pub open spec fn all_ways_empty(ends: Seq<way_ends>) -> bool {
    forall|i: int| 0 <= i < ends.len() ==> (#[trigger] ends[i]).points == 0
}

/// The rings of a relation: how its ways assemble, and which of the rings make polygons. When
/// none does, the relation is drawn as its ways, as lines.
pub struct relation_rings {
    pub pieces: Vec<end_ref>,
    pub starts: Vec<usize>,
    pub polygons: Vec<usize>,
}

/// The rings of a relation's ways: none when every way is empty (the relation is skipped);
/// otherwise the assembly of all its ways and the rings of it that make polygons.
pub fn relation_rings_of(ends: &Vec<way_ends>) -> (r: Option<relation_rings>)
    requires
        all_ways_empty(ends@) || ends_wf(ends@),
    ensures
        r is None <==> all_ways_empty(ends@),
        r matches Some(rr) ==> {
            &&& assembled_prefix(ends@, rr.pieces@, rr.starts@)
            &&& forall|w: usize| w < ends@.len() ==> #[trigger] taken(rr.pieces@, w)
            &&& rr.pieces@.len() > 0 ==> !has_next(
                ends@,
                rr.pieces@,
                tail_at(ends@, rr.pieces@, rr.starts@, rr.pieces@.len() - 1),
            )
            &&& rr.polygons@ == polygon_ring_indices(
                ends@,
                rr.pieces@,
                rr.starts@,
                rr.starts@.len() as int,
            )
            &&& forall|a: int, b: int|
                0 <= a < b < rr.polygons@.len() ==> #[trigger] rr.polygons@[a] < #[trigger] rr.polygons@[b]
            &&& forall|q: int|
                0 <= q < rr.starts@.len() ==> (#[trigger] rr.polygons@.contains(q as usize) <==> (
                ring_points(
                    ends@,
                    rr.pieces@,
                    rr.starts@[q] as int,
                    ring_end(rr.starts@, q, rr.pieces@.len() as int),
                ) >= 4 && ring_closes(ends@, rr.pieces@, rr.starts@, q)))
        },
{
    let mut i: usize = 0;
    let mut empty = true;
    while i < ends.len()
        invariant
            i <= ends@.len(),
            empty <==> forall|j: int| 0 <= j < i ==> (#[trigger] ends@[j]).points == 0,
        decreases ends@.len() - i,
    {
        if ends[i].points != 0 {
            empty = false;
        }
        i = i + 1;
    }
    if empty {
        return None;
    }
    assert(!all_ways_empty(ends@));
    let (pieces, starts) = assemble_rings(ends);
    let polygons = polygon_rings(ends, &pieces, &starts);
    proof {
        assert(starts@.len() == starts.len());
        lemma_polygon_rings_are_closed_rings(ends@, pieces@, starts@, starts@.len() as int);
    }
    Some(relation_rings { pieces, starts, polygons })
}

/// The points of a way in the order it is walked when entered at `at_last`: as stored when
/// entered at its first point, reversed when entered at its last.
pub open spec fn walked<T>(pts: Seq<T>, at_last: bool) -> Seq<T> {
    if at_last {
        pts.reverse()
    } else {
        pts
    }
}

/// The points of the ring made of pieces `lo` to `hi`: the first way walked whole, then each
/// further way walked without the point it shares with the tail.
pub open spec fn ring_point_seq<T>(ways: Seq<Seq<T>>, pieces: Seq<end_ref>, lo: int, hi: int) -> Seq<T>
    decreases hi - lo,
{
    if hi <= lo {
        seq![]
    } else if hi == lo + 1 {
        walked(ways[pieces[lo].way as int], pieces[lo].at_last)
    } else {
        ring_point_seq(ways, pieces, lo, hi - 1) + walked(
            ways[pieces[hi - 1].way as int],
            pieces[hi - 1].at_last,
        ).drop_first()
    }
}

/// The point at an end of a way.
pub open spec fn end_point<T>(ways: Seq<Seq<T>>, e: end_ref) -> T {
    let pts = ways[e.way as int];
    if e.at_last {
        pts.last()
    } else {
        pts[0]
    }
}

/// Each way's stored points number what `ends` says.
pub open spec fn ways_match_ends<T>(ways: Seq<Seq<T>>, ends: Seq<way_ends>) -> bool {
    &&& ways.len() == ends.len()
    &&& forall|i: int| 0 <= i < ways.len() ==> (#[trigger] ways[i]).len() == ends[i].points
}

/// What an assembly says of a piece of ring `r`: its way is one of the ways; the ring's first
/// piece starts it, entered at its first point, and no later piece of the ring starts one.
proof fn lemma_ring_piece(ends: Seq<way_ends>, pieces: Seq<end_ref>, starts: Seq<usize>, r: int, j: int)
    requires
        assembled_prefix(ends, pieces, starts),
        0 <= r < starts.len(),
        starts[r] <= j < ring_end(starts, r, pieces.len() as int),
    ensures
        j < pieces.len(),
        pieces[j].way < ends.len(),
        j == starts[r] ==> is_start(starts, j) && !pieces[j].at_last,
        j > starts[r] ==> !is_start(starts, j),
{
    reveal(assembled_prefix);
    if r + 1 < starts.len() {
        assert(starts[r + 1] < pieces.len());
    }
    if j == starts[r] {
        assert(is_start(starts, j)) by {
            assert(starts[r] == j);
        }
    } else {
        lemma_is_start_at(starts, r, j);
    }
}

/// The end an assembly tracks as the tail of a ring is the last point of the ring built so far,
/// the ring starts at the first point of its first way, and it has as many points as
/// `ring_points` counts.
pub proof fn lemma_tail_is_last_point<T>(
    ways: Seq<Seq<T>>,
    ends: Seq<way_ends>,
    pieces: Seq<end_ref>,
    starts: Seq<usize>,
    r: int,
    hi: int,
)
    requires
        ends_wf(ends),
        ways_match_ends(ways, ends),
        assembled_prefix(ends, pieces, starts),
        0 <= r < starts.len(),
        starts[r] < hi <= ring_end(starts, r, pieces.len() as int),
    ensures
        ring_point_seq(ways, pieces, starts[r] as int, hi).len() >= 1,
        ring_point_seq(ways, pieces, starts[r] as int, hi).len() == ring_points(
            ends,
            pieces,
            starts[r] as int,
            hi,
        ),
        ring_point_seq(ways, pieces, starts[r] as int, hi).last() == end_point(
            ways,
            tail_at(ends, pieces, starts, hi - 1),
        ),
        ring_point_seq(ways, pieces, starts[r] as int, hi)[0] == end_point(
            ways,
            end_ref { way: pieces[starts[r] as int].way, at_last: false },
        ),
    decreases hi,
{
    let lo = starts[r] as int;
    lemma_ring_piece(ends, pieces, starts, r, hi - 1);
    lemma_ring_piece(ends, pieces, starts, r, lo);
    let e = pieces[hi - 1];
    assert(ends[e.way as int].points >= 1);
    let pts = ways[e.way as int];
    assert(pts.len() == ends[e.way as int].points);
    let w = walked(pts, e.at_last);
    assert(w.len() == pts.len());
    if hi == lo + 1 {
        assert(!e.at_last);
    } else {
        lemma_tail_is_last_point(ways, ends, pieces, starts, r, hi - 1);
        let prev = ring_point_seq(ways, pieces, lo, hi - 1);
        assert(prev.len() >= 1);
        assert((prev + w.drop_first())[0] == prev[0]);
        if pts.len() >= 2 {
            if e.at_last {
                assert(w.drop_first().last() == pts[0]);
            } else {
                assert(w.drop_first().last() == pts.last());
            }
        } else {
            assert(w.drop_first() =~= Seq::<T>::empty());
            assert(prev + w.drop_first() =~= prev);
        }
    }
}

/// The points of ring `lo..hi` of an assembly, built from the ways' points: the first way
/// walked whole, then each further way walked from its entry end, without that end.
pub fn ring_points_of<T: Copy>(ways: &Vec<Vec<T>>, pieces: &Vec<end_ref>, lo: usize, hi: usize) -> (out:
    Vec<T>)
    requires
        lo < hi <= pieces@.len(),
        forall|i: int|
            lo <= i < hi ==> (#[trigger] pieces@[i]).way < ways@.len() && ways@[pieces@[i].way as int]@.len()
                >= 1,
    ensures
        out@ == ring_point_seq(ways@.map_values(|v: Vec<T>| v@), pieces@, lo as int, hi as int),
{
    let ghost wv = ways@.map_values(|v: Vec<T>| v@);
    let mut out: Vec<T> = Vec::new();
    let mut i: usize = lo;
    while i < hi
        invariant
            lo <= i <= hi,
            hi <= pieces@.len(),
            wv == ways@.map_values(|v: Vec<T>| v@),
            forall|j: int|
                lo <= j < hi ==> (#[trigger] pieces@[j]).way < ways@.len() && ways@[pieces@[j].way as int]@.len()
                    >= 1,
            out@ == ring_point_seq(wv, pieces@, lo as int, i as int),
        decreases hi - i,
    {
        let e = pieces[i];
        let pts = &ways[e.way];
        assert(wv[e.way as int] == pts@);
        let n = pts.len();
        let ghost before = out@;
        let ghost w = walked(pts@, e.at_last);
        assert(n >= 1);
        assert(before + w.subrange(0, 0) =~= before);
        assert(before + w.subrange(1, 1) =~= before);
        let skip: usize = if i == lo {
            0
        } else {
            1
        };
        let mut k: usize = skip;
        while k < n
            invariant
                skip <= k <= n,
                n == pts@.len(),
                w == walked(pts@, e.at_last),
                w.len() == n,
                out@ == before + w.subrange(skip as int, k as int),
            decreases n - k,
        {
            let p = if e.at_last {
                pts[n - 1 - k]
            } else {
                pts[k]
            };
            assert(p == w[k as int]);
            out.push(p);
            k = k + 1;
            assert(out@ =~= before + w.subrange(skip as int, k as int));
        }
        proof {
            if i == lo {
                assert(w.subrange(0, w.len() as int) =~= w);
                assert(ring_point_seq(wv, pieces@, lo as int, lo as int) =~= Seq::<T>::empty());
            } else {
                if n >= 1 {
                    assert(w.subrange(1, w.len() as int) =~= w.drop_first());
                }
            }
        }
        i = i + 1;
        assert(out@ =~= ring_point_seq(wv, pieces@, lo as int, i as int));
    }
    out
}

} // verus!
