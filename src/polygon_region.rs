//! The region engine: snapping of points and cracking of edges.
use crate::geometry::{
    clamped_dot, dist2, is_near_segment, lemma_dist2_symmetric, lemma_near_segment_in_box, near_segment,
    properly_cross, segments_cross, LineSegment, Point,
};
use crate::index::{
    all_edges, all_points, contains_edge, drain_points_within, edge_bag, edges_meeting_box,
    envelope_meets, insert_edge, insert_point, point_count, new_edge_tree, new_point_tree, point_bag,
    points_in_box, points_within, remove_edge, EdgeTree, PointTree,
};
use vstd::prelude::*;

verus! {

broadcast use vstd::multiset::group_multiset_axioms, vstd::seq_lib::group_to_multiset_ensures;

/// The tolerance lies in `0..EPSILON_LIMIT`, so that its square and the
/// products of the exact distance test stay in range.
pub const EPSILON_LIMIT: i64 = 33554432;

/// A bound on the work items that one cracking pass handles. Splitting need
/// not come to an end by itself: where the tolerance is close to the distances
/// between points, the pieces of an edge can be split back into each other. The
/// bound keeps every pass finite; items left when it is reached are dropped.
pub const CRACK_STEP_LIMIT: u64 = 0xffff_ffff_ffff_ffff;

/// A violation of the region's invariants, found by `check_region`.
#[derive(Clone, Copy, PartialEq, Eq, Debug, Structural)]
pub enum InvariantError {
    VerticesTooClose { p1: Point, p2: Point },
    VertexEdgeDist { p: Point, e: LineSegment },
    EdgeIntersection { e1: LineSegment, e2: LineSegment },
    BadEdgeOrder { p: Point },
    BadWindingNumber,
}

/// The points that remain after snapping `p` into `s`: every point within the
/// tolerance of `p` gives way to `p`.
pub open spec fn snapped(s: Set<Point>, p: Point, eps2: int) -> Set<Point> {
    s.filter(|q: Point| dist2(q, p) > eps2).insert(p)
}

/// No point of `s` lies within the tolerance of `e`, but its endpoints.
pub open spec fn clean(e: LineSegment, s: Set<Point>, eps2: int) -> bool {
    forall|q: Point| #[trigger] s.contains(q) && near_segment(e.from, e.to, q, eps2)
        ==> q == e.from || q == e.to
}

/// Any two distinct points of `s` lie farther apart than the tolerance.
pub open spec fn separated(s: Set<Point>, eps2: int) -> bool {
    forall|p: Point, q: Point| #[trigger] s.contains(p) && #[trigger] s.contains(q) && p != q
        ==> dist2(p, q) > eps2
}

/// Every edge of `es` is clean with respect to `s`.
pub open spec fn edges_clean(es: Set<LineSegment>, s: Set<Point>, eps2: int) -> bool {
    forall|e: LineSegment| #[trigger] es.contains(e) ==> clean(e, s, eps2)
}

/// Both endpoints of `e` are valid grid points, and they differ.
pub open spec fn valid_edge(e: LineSegment) -> bool {
    e.from.valid() && e.to.valid() && e.from != e.to
}

/// What a reported violation of `check_region` asserts of the region's points
/// `s` and edges `es`.
pub open spec fn reports_violation(
    err: InvariantError,
    s: Set<Point>,
    es: Set<LineSegment>,
    eps2: int,
) -> bool {
    match err {
        InvariantError::VerticesTooClose { p1, p2 } => s.contains(p1) && s.contains(p2) && p1
            != p2 && dist2(p1, p2) <= eps2,
        InvariantError::VertexEdgeDist { p, e } => s.contains(p) && es.contains(e) && near_segment(
            e.from,
            e.to,
            p,
            eps2,
        ) && p != e.from && p != e.to,
        _ => false,
    }
}

/// `err` reports two held edges of `es` that cross.
pub open spec fn reports_crossing(err: InvariantError, es: Set<LineSegment>) -> bool {
    match err {
        InvariantError::EdgeIntersection { e1, e2 } => es.contains(e1) && es.contains(e2)
            && properly_cross(e1, e2),
        _ => false,
    }
}

/// The first edge of a crossing report.
pub open spec fn crossing_edge(err: InvariantError) -> LineSegment {
    match err {
        InvariantError::EdgeIntersection { e1, e2 } => e1,
        _ => LineSegment { from: Point { x: 0, y: 0 }, to: Point { x: 0, y: 0 } },
    }
}

/// No two edges of `es` cross.
pub open spec fn no_crossings(es: Set<LineSegment>) -> bool {
    forall|e1: LineSegment, e2: LineSegment| #[trigger] es.contains(e1) && #[trigger] es.contains(
        e2,
    ) ==> !properly_cross(e1, e2)
}

/// Snapping a point twice leaves the points as snapping it once did.
pub proof fn law_accomodate_same_point_twice(s: Set<Point>, p: Point, eps2: int)
    requires
        eps2 >= 0,
    ensures
        snapped(snapped(s, p, eps2), p, eps2) == snapped(s, p, eps2),
{
    lemma_dist2_symmetric(p, p);
    assert(snapped(snapped(s, p, eps2), p, eps2) =~= snapped(s, p, eps2));
}

/// Snapping a second point within the tolerance of the first keeps the number
/// of points, where no other point lies within the tolerance of the second.
pub proof fn law_accomodate_near_point_twice(s: Set<Point>, p: Point, q: Point, eps2: int)
    requires
        s.finite(),
        eps2 >= 0,
        dist2(p, q) <= eps2,
        forall|x: Point| #[trigger] snapped(s, p, eps2).contains(x) && x != p ==> dist2(x, q) > eps2,
    ensures
        snapped(snapped(s, p, eps2), q, eps2).len() == snapped(s, p, eps2).len(),
{
    let once = snapped(s, p, eps2);
    lemma_dist2_symmetric(p, q);
    lemma_dist2_symmetric(q, q);
    assert(snapped(once, q, eps2) =~= once.remove(p).insert(q));
    assert(once.contains(p));
    if p != q {
        assert(!once.remove(p).contains(q)) by {
            if once.contains(q) && q != p {
                lemma_dist2_symmetric(q, q);
            }
        }
    }
}

/// Two points closer than the tolerance, snapped in either order, leave one
/// point near them: the one snapped last.
pub proof fn law_snapping(s: Set<Point>, p: Point, q: Point, eps2: int)
    requires
        eps2 >= 0,
        dist2(p, q) < eps2,
    ensures
        snapped(snapped(s, p, eps2), q, eps2).contains(q),
        !snapped(snapped(s, p, eps2), q, eps2).contains(p) || p == q,
        forall|x: Point| #[trigger] snapped(snapped(s, p, eps2), q, eps2).contains(x) && dist2(x, q)
            <= eps2 ==> x == q,
        snapped(snapped(s, q, eps2), p, eps2).contains(p),
        !snapped(snapped(s, q, eps2), p, eps2).contains(q) || p == q,
        forall|x: Point| #[trigger] snapped(snapped(s, q, eps2), p, eps2).contains(x) && dist2(x, p)
            <= eps2 ==> x == p,
{
    lemma_dist2_symmetric(p, q);
}

/// Two points farther apart than the tolerance, snapped in either order, both
/// stay.
pub proof fn law_no_snapping(s: Set<Point>, p: Point, q: Point, eps2: int)
    requires
        dist2(p, q) > eps2,
    ensures
        snapped(snapped(s, p, eps2), q, eps2).contains(p),
        snapped(snapped(s, p, eps2), q, eps2).contains(q),
        snapped(snapped(s, q, eps2), p, eps2).contains(p),
        snapped(snapped(s, q, eps2), p, eps2).contains(q),
{
    lemma_dist2_symmetric(p, q);
}

/// The edge from `e.to` to `e.from`.
pub open spec fn rev(e: LineSegment) -> LineSegment {
    LineSegment { from: e.to, to: e.from }
}

/// The edges after one work item `e` is handled without being split: an
/// edge already held stays, a held reverse is cancelled, and a clean edge is
/// stored.
pub open spec fn step_edges(
    es: Set<LineSegment>,
    ps: Set<Point>,
    eps2: int,
    e: LineSegment,
) -> Set<LineSegment> {
    if es.contains(e) {
        es
    } else if es.contains(rev(e)) {
        es.remove(rev(e))
    } else if clean(e, ps, eps2) {
        es.insert(e)
    } else {
        es
    }
}

/// No edge of `es` is held together with its reverse; in particular no edge
/// of `es` is a single point.
pub open spec fn no_reverse_pairs(es: Set<LineSegment>) -> bool {
    forall|e: LineSegment| #[trigger] es.contains(e) ==> !es.contains(rev(e))
}

/// The items of `s` from index `k` on.
pub open spec fn items_from(s: Seq<LineSegment>, k: int) -> Set<LineSegment> {
    Set::new(|x: LineSegment| exists|i: int| k <= i < s.len() && s[i] == x)
}

/// Every item of `work` is clean, neither it nor its reverse is in `es`, and
/// no item equals another or the reverse of any item.
pub open spec fn fresh_clean_batch(
    es: Set<LineSegment>,
    ps: Set<Point>,
    eps2: int,
    work: Seq<LineSegment>,
) -> bool {
    &&& forall|i: int| 0 <= i < work.len() ==> !es.contains(#[trigger] work[i]) && !es.contains(
        rev(work[i]),
    ) && clean(work[i], ps, eps2)
    &&& forall|i: int, j: int| 0 <= i < work.len() && 0 <= j < work.len() ==> (i != j ==> #[trigger] work[i]
        != #[trigger] work[j]) && work[i] != rev(work[j])
}

/// Handling item `w` of a fresh clean batch, with the items after it already
/// stored, stores it too.
proof fn lemma_batch_step(
    base: Set<LineSegment>,
    ps: Set<Point>,
    eps2: int,
    batch: Seq<LineSegment>,
    w: int,
)
    requires
        fresh_clean_batch(base, ps, eps2, batch),
        0 <= w < batch.len(),
    ensures
        !splits(base.union(items_from(batch, w + 1)), ps, eps2, batch[w]),
        step_edges(base.union(items_from(batch, w + 1)), ps, eps2, batch[w]) == base.union(
            items_from(batch, w),
        ),
{
    let e = batch[w];
    let pre = base.union(items_from(batch, w + 1));
    assert(!pre.contains(e)) by {
        if items_from(batch, w + 1).contains(e) {
            let i = choose|i: int| w + 1 <= i < batch.len() && batch[i] == e;
            assert(batch[i] == batch[w]);
        }
    }
    assert(!pre.contains(rev(e))) by {
        if items_from(batch, w + 1).contains(rev(e)) {
            let i = choose|i: int| w + 1 <= i < batch.len() && batch[i] == rev(e);
            assert(batch[i] == rev(batch[w]));
        }
    }
    assert(clean(e, ps, eps2));
    assert forall|x: LineSegment| items_from(batch, w).contains(x) <==> (x == e || items_from(
        batch,
        w + 1,
    ).contains(x)) by {
        if items_from(batch, w).contains(x) && x != e {
            let i = choose|i: int| w <= i < batch.len() && batch[i] == x;
            assert(i != w);
        }
        if x == e {
            assert(batch[w] == x);
        }
    }
    assert(pre.insert(e) =~= base.union(items_from(batch, w)));
}

/// Handling `e` splits it: neither it nor its reverse is held, and a point
/// lies near it.
pub open spec fn splits(es: Set<LineSegment>, ps: Set<Point>, eps2: int, e: LineSegment) -> bool {
    !es.contains(e) && !es.contains(rev(e)) && !clean(e, ps, eps2)
}

/// `pieces` is the chain that replaces `e`: from `e.from` through every point
/// of `ps` near `e` (but its endpoints), in the order of their projections on
/// `e`, to `e.to`.
pub open spec fn is_crack_chain(
    e: LineSegment,
    pieces: Seq<LineSegment>,
    ps: Set<Point>,
    eps2: int,
) -> bool {
    let n = pieces.len() - 1;
    &&& pieces.len() >= 2
    &&& pieces[0].from == e.from
    &&& pieces[n].to == e.to
    &&& forall|i: int| 0 <= i < n ==> (#[trigger] pieces[i]).to == pieces[i + 1].from
    &&& forall|i: int| 0 <= i < n ==> {
        let v = (#[trigger] pieces[i]).to;
        ps.contains(v) && near_segment(e.from, e.to, v, eps2) && v != e.from && v != e.to
    }
    &&& forall|i: int, j: int| 0 <= i < j < n ==> clamped_dot(e.from, e.to, (#[trigger] pieces[i]).to)
        <= clamped_dot(e.from, e.to, (#[trigger] pieces[j]).to)
    &&& forall|i: int, j: int| 0 <= i < j < n ==> (#[trigger] pieces[i]).to != (#[trigger] pieces[j]).to
    &&& forall|v: Point| #[trigger] ps.contains(v) && near_segment(e.from, e.to, v, eps2) && v
        != e.from && v != e.to ==> exists|i: int| 0 <= i < n && (#[trigger] pieces[i]).to == v
}

/// `v` is ordered by its keys.
pub open spec fn sorted_by_key(v: Seq<(i64, Point)>) -> bool {
    forall|i: int, j: int| 0 <= i < j < v.len() ==> v[i].0 <= v[j].0
}

proof fn lemma_push_contains<A>(s: Seq<A>, a: A)
    ensures
        forall|x: A| #[trigger] s.push(a).contains(x) <==> s.contains(x) || x == a,
{
    assert forall|x: A| #[trigger] s.push(a).contains(x) <==> s.contains(x) || x == a by {
        if s.contains(x) {
            let k = choose|k: int| 0 <= k < s.len() && s[k] == x;
            assert(s.push(a)[k] == x);
        }
        if x == a {
            assert(s.push(a)[s.len() as int] == x);
        }
        if s.push(a).contains(x) {
            let k = choose|k: int| 0 <= k < s.len() + 1 && s.push(a)[k] == x;
            if k < s.len() {
                assert(s[k] == x);
            }
        }
    }
}

/// A value at two indices of `s` is counted at least twice.
proof fn lemma_two_copies<A>(s: Seq<A>, a: int, b: int)
    requires
        0 <= a < b < s.len(),
        s[a] == s[b],
    ensures
        s.to_multiset().count(s[a]) >= 2,
{
    let x = s[a];
    assert(s.remove(b).to_multiset() == s.to_multiset().remove(x));
    assert(s.remove(b)[a] == x);
    assert(s.remove(b).contains(x));
    assert(s.remove(b).to_multiset().count(x) > 0);
}

/// Reordering pairs whose second components are distinct keeps them distinct.
proof fn lemma_sorted_points_distinct(
    close: Seq<Point>,
    keyed: Seq<(i64, Point)>,
    sorted: Seq<(i64, Point)>,
)
    requires
        close.no_duplicates(),
        keyed.len() == close.len(),
        forall|j: int| 0 <= j < keyed.len() ==> (#[trigger] keyed[j]).1 == close[j],
        sorted.to_multiset() == keyed.to_multiset(),
    ensures
        forall|a: int, b: int| 0 <= a < b < sorted.len() ==> sorted[a].1 != sorted[b].1,
{
    assert forall|k2: int, k3: int| 0 <= k2 < k3 < keyed.len() implies keyed[k2] != keyed[k3] by {
        assert(close[k2] != close[k3]);
    }
    assert(keyed.no_duplicates());
    keyed.lemma_multiset_has_no_duplicates();
    assert forall|a: int, b: int| 0 <= a < b < sorted.len() implies sorted[a].1 != sorted[b].1 by {
        if sorted[a].1 == sorted[b].1 {
            assert(sorted.contains(sorted[a]));
            assert(sorted.contains(sorted[b]));
            assert(sorted.to_multiset().count(sorted[a]) > 0);
            assert(sorted.to_multiset().count(sorted[b]) > 0);
            assert(keyed.to_multiset().count(sorted[a]) > 0);
            assert(keyed.to_multiset().count(sorted[b]) > 0);
            assert(keyed.contains(sorted[a]));
            assert(keyed.contains(sorted[b]));
            let ka = choose|k: int| 0 <= k < keyed.len() && keyed[k] == sorted[a];
            let kb = choose|k: int| 0 <= k < keyed.len() && keyed[k] == sorted[b];
            assert(close[ka] == close[kb]);
            assert(ka == kb);
            lemma_two_copies(sorted, a, b);
            assert(keyed.to_multiset().contains(sorted[a]));
        }
    }
}

/// The pieces built from the close points `close`, ordered as `sorted`, form
/// the crack chain of `e`.
proof fn lemma_chain_from_sorted(
    e: LineSegment,
    pieces: Seq<LineSegment>,
    sorted: Seq<(i64, Point)>,
    keyed: Seq<(i64, Point)>,
    close: Seq<Point>,
    ps: Set<Point>,
    eps2: int,
)
    requires
        valid_edge(e),
        sorted.len() >= 1,
        pieces.len() == sorted.len() + 1,
        pieces[0].from == e.from,
        pieces[sorted.len() as int].to == e.to,
        pieces[sorted.len() as int].from == sorted[sorted.len() - 1].1,
        forall|i: int| 0 <= i < sorted.len() ==> (#[trigger] pieces[i]).to == sorted[i].1,
        forall|i: int| 0 < i < sorted.len() ==> (#[trigger] pieces[i]).from == sorted[i - 1].1,
        sorted_by_key(sorted),
        sorted.to_multiset() == keyed.to_multiset(),
        keyed.len() == close.len(),
        forall|j: int| 0 <= j < keyed.len() ==> (#[trigger] keyed[j]).1 == close[j],
        forall|t: (i64, Point)| #[trigger] sorted.contains(t) ==> close.contains(t.1) && t.0
            == clamped_dot(e.from, e.to, t.1),
        forall|a: int, b: int| 0 <= a < b < sorted.len() ==> sorted[a].1 != sorted[b].1,
        forall|q: Point| #[trigger] close.contains(q) <==> ps.contains(q) && near_segment(
            e.from,
            e.to,
            q,
            eps2,
        ) && q != e.from && q != e.to,
        forall|q: Point| #[trigger] close.contains(q) ==> q.valid(),
    ensures
        is_crack_chain(e, pieces, ps, eps2),
        forall|i: int| 0 <= i < pieces.len() ==> valid_edge(#[trigger] pieces[i]),
{
    let n = sorted.len() as int;
            assert forall|i: int| 0 <= i < n implies {
                let v = (#[trigger] pieces[i]).to;
                ps.contains(v) && near_segment(e.from, e.to, v, eps2) && v != e.from && v != e.to
            } by {
                assert(sorted.contains(sorted[i]));
                assert(close.contains(pieces[i].to));
            }
            assert forall|i: int, k: int| 0 <= i < k < n implies (#[trigger] pieces[i]).to
                != (#[trigger] pieces[k]).to by {
                assert(pieces[i].to == sorted[i].1 && pieces[k].to == sorted[k].1);
            }
            assert forall|i: int, k: int| 0 <= i < k < n implies clamped_dot(
                e.from,
                e.to,
                (#[trigger] pieces[i]).to,
            ) <= clamped_dot(e.from, e.to, (#[trigger] pieces[k]).to) by {
                assert(sorted.contains(sorted[i]));
                assert(sorted.contains(sorted[k]));
            }
            assert forall|v: Point| #[trigger] ps.contains(v) && near_segment(e.from, e.to, v, eps2)
                && v != e.from && v != e.to implies exists|i: int|
                0 <= i < n && (#[trigger] pieces[i]).to == v by {
                assert(close.contains(v));
                let k = choose|k: int| 0 <= k < close.len() && close[k] == v;
                let t = keyed[k];
                assert(keyed.contains(t));
                assert(keyed.to_multiset().count(t) > 0);
                assert(sorted.contains(t));
                let m = choose|m: int| 0 <= m < sorted.len() && sorted[m] == t;
                assert(pieces[m].to == v);
            }
            assert forall|i: int| 0 <= i < n implies (#[trigger] pieces[i]).to == pieces[i + 1].from by {
                if i + 1 < n {
                    assert(pieces[i + 1].from == sorted[i].1);
                }
            }
            assert forall|i: int| 0 <= i < pieces.len() implies valid_edge(#[trigger] pieces[i]) by {
                if i < n {
                    assert(sorted.contains(sorted[i]));
                    assert(close.contains(sorted[i].1));
                }
                if 0 < i < n {
                    assert(pieces[i].from == sorted[i - 1].1);
                }
                if 0 < i {
                    assert(sorted.contains(sorted[i - 1]));
                    assert(close.contains(sorted[i - 1].1));
                }
            }
}

/// Orders `v` by its keys, keeping its elements.
fn sort_by_key(v: Vec<(i64, Point)>) -> (r: Vec<(i64, Point)>)
    ensures
        sorted_by_key(r@),
        r@.to_multiset() == v@.to_multiset(),
{
    let mut src = v;
    let mut out: Vec<(i64, Point)> = Vec::new();
    while src.len() > 0
        invariant
            sorted_by_key(out@),
            out@.to_multiset().add(src@.to_multiset()) == v@.to_multiset(),
            forall|i: int, j: int| 0 <= i < out.len() && 0 <= j < src.len() ==> out@[i].0 <= src@[j].0,
        decreases src.len(),
    {
        let mut m: usize = 0;
        let mut k: usize = 1;
        while k < src.len()
            invariant
                0 <= m < src.len(),
                1 <= k <= src.len(),
                forall|j: int| 0 <= j < k ==> src@[m as int].0 <= src@[j].0,
            decreases src.len() - k,
        {
            if src[k].0 < src[m].0 {
                m = k;
            }
            k = k + 1;
        }
        let ghost old_src = src@;
        let ghost old_out = out@;
        let x = src.remove(m);
        out.push(x);
        proof {
            assert(old_src.remove(m as int).to_multiset() == old_src.to_multiset().remove(x));
            assert(out@ == old_out.push(x));
            assert(out@.to_multiset() == old_out.to_multiset().insert(x));
            assert(out@.to_multiset().add(src@.to_multiset()) =~= v@.to_multiset());
            assert forall|i: int, j: int| 0 <= i < out.len() && 0 <= j < src.len() implies out@[i].0
                <= src@[j].0 by {
                if j < m {
                    assert(src@[j] == old_src[j]);
                } else {
                    assert(src@[j] == old_src[j + 1]);
                }
            }
        }
    }
    out
}

/// The region: a point index, an edge index and the snapping tolerance.
pub struct PolygonRegion {
    points: PointTree,
    edges: EdgeTree,
    epsilon: i64,
    epsilon2: i64,
}

impl PolygonRegion {
    pub closed spec fn has_point(&self, q: Point) -> bool {
        point_bag(&self.points).count(q) > 0
    }

    pub closed spec fn has_edge(&self, e: LineSegment) -> bool {
        edge_bag(&self.edges).count(e) > 0
    }

    /// The stored points.
    pub open spec fn point_set(&self) -> Set<Point> {
        Set::new(|q: Point| self.has_point(q))
    }

    /// The stored directed edges.
    pub open spec fn edge_set(&self) -> Set<LineSegment> {
        Set::new(|e: LineSegment| self.has_edge(e))
    }

    /// The region's invariants: stored points lie farther apart than the
    /// tolerance, and no stored point lies within the tolerance of an edge it
    /// is not an endpoint of.
    pub open spec fn invariants_hold(&self) -> bool {
        separated(self.point_set(), self.eps2()) && edges_clean(
            self.edge_set(),
            self.point_set(),
            self.eps2(),
        )
    }

    pub closed spec fn eps(&self) -> int {
        self.epsilon as int
    }

    /// The squared tolerance.
    pub open spec fn eps2(&self) -> int {
        self.eps() * self.eps()
    }

    /// The region is well formed: its tolerance is in range, its points and
    /// edges are valid and each is held once, and no edge is a single point.
    pub closed spec fn wf(&self) -> bool {
        &&& 0 <= self.epsilon < EPSILON_LIMIT
        &&& self.epsilon2 == self.epsilon * self.epsilon
        &&& forall|q: Point| #[trigger] point_bag(&self.points).count(q) > 0 ==> q.valid()
            && point_bag(&self.points).count(q) == 1
        &&& forall|e: LineSegment| #[trigger] edge_bag(&self.edges).count(e) > 0 ==> valid_edge(e)
            && edge_bag(&self.edges).count(e) == 1
    }

    proof fn lemma_eps2_bound(&self)
        requires
            self.wf(),
        ensures
            0 <= self.epsilon2 < 0x4_0000_0000_0000,
            self.epsilon2 == self.eps2(),
    {
        assert(0 <= self.epsilon * self.epsilon < 0x4_0000_0000_0000) by (nonlinear_arith)
            requires
                0 <= self.epsilon < EPSILON_LIMIT,
        ;
    }

    /// The stored points within the tolerance of `line`, but its endpoints.
    fn find_points_close_to_line(&self, line: &LineSegment) -> (r: Vec<Point>)
        requires
            self.wf(),
            valid_edge(*line),
        ensures
            forall|q: Point| #[trigger] r@.contains(q) <==> self.has_point(q) && near_segment(
                line.from,
                line.to,
                q,
                self.eps2(),
            ) && q != line.from && q != line.to,
            forall|q: Point| #[trigger] r@.contains(q) ==> q.valid(),
            r@.no_duplicates(),
    {
        proof {
            self.lemma_eps2_bound();
        }
        let e = self.epsilon;
        let lo = Point {
            x: (if line.from.x <= line.to.x { line.from.x } else { line.to.x }) - e,
            y: (if line.from.y <= line.to.y { line.from.y } else { line.to.y }) - e,
        };
        let hi = Point {
            x: (if line.from.x <= line.to.x { line.to.x } else { line.from.x }) + e,
            y: (if line.from.y <= line.to.y { line.to.y } else { line.from.y }) + e,
        };
        let cands = points_in_box(&self.points, lo, hi);
        let mut r: Vec<Point> = Vec::new();
        let mut i: usize = 0;
        while i < cands.len()
            invariant
                self.wf(),
                valid_edge(*line),
                0 <= self.epsilon2 < 0x4_0000_0000_0000,
                self.epsilon2 == self.eps2(),
                forall|q: Point| #[trigger] cands@.contains(q) ==> point_bag(&self.points).count(q) > 0,
                i <= cands.len(),
                forall|q: Point| #[trigger] r@.contains(q) <==> cands@.take(i as int).contains(q)
                    && near_segment(line.from, line.to, q, self.eps2()) && q != line.from && q
                    != line.to,
                forall|q: Point| #[trigger] cands@.to_multiset().count(q) <= point_bag(&self.points).count(q),
                r@.no_duplicates(),
            decreases cands.len() - i,
        {
            let q = cands[i];
            assert(cands@.contains(q));
            assert(point_bag(&self.points).count(q) > 0);
            let near = is_near_segment(line.from, line.to, q, self.epsilon2);
            let ghost old_r = r@;
            if near && q != line.from && q != line.to {
                proof {
                    if old_r.contains(q) {
                        let k = choose|k: int| 0 <= k < i && cands@.take(i as int)[k] == q;
                        assert(cands@[k] == q);
                        lemma_two_copies(cands@, k, i as int);
                    }
                }
                r.push(q);
                proof {
                    lemma_push_contains(old_r, q);
                    assert forall|a: int, b: int| 0 <= a < b < r.len() implies r@[a] != r@[b] by {
                        if b == r.len() - 1 {
                            assert(old_r.contains(r@[a]) ==> r@[a] != q);
                            assert(old_r[a] == r@[a]);
                        } else {
                            assert(old_r[a] == r@[a] && old_r[b] == r@[b]);
                        }
                    }
                }
            }
            assert(cands@.take(i + 1) =~= cands@.take(i as int).push(q));
            proof {
                lemma_push_contains(cands@.take(i as int), q);
            }
            i = i + 1;
        }
        assert(cands@.take(cands.len() as int) =~= cands@);
        assert forall|q: Point| #[trigger] r@.contains(q) implies q.valid() by {
            assert(cands@.contains(q));
            assert(point_bag(&self.points).count(q) > 0);
        }
        assert forall|q: Point| self.has_point(q) && near_segment(line.from, line.to, q, self.eps2())
            implies #[trigger] cands@.contains(q) by {
            lemma_near_segment_in_box(line.from, line.to, q, self.eps());
        }
        r
    }

    /// Handles one work item `e`: an edge already held is dropped, an edge
    /// whose reverse is held cancels it, a clean edge is stored, and any other
    /// edge is split at the points near it, in the order of their projections;
    /// the pieces are returned.
    #[verifier::rlimit(100)]
    fn crack_step(&mut self, e: LineSegment) -> (pieces: Vec<LineSegment>)
        requires
            old(self).wf(),
            valid_edge(e),
        ensures
            final(self).wf(),
            point_bag(&final(self).points) == point_bag(&old(self).points),
            final(self).epsilon == old(self).epsilon,
            final(self).edge_set() == step_edges(
                old(self).edge_set(),
                old(self).point_set(),
                old(self).eps2(),
                e,
            ),
            !splits(old(self).edge_set(), old(self).point_set(), old(self).eps2(), e) ==> pieces.len()
                == 0,
            splits(old(self).edge_set(), old(self).point_set(), old(self).eps2(), e) ==> is_crack_chain(
                e,
                pieces@,
                old(self).point_set(),
                old(self).eps2(),
            ),
            forall|i: int| 0 <= i < pieces.len() ==> valid_edge(#[trigger] pieces@[i]),
            no_reverse_pairs(old(self).edge_set()) ==> no_reverse_pairs(final(self).edge_set()),
    {
        let ghost pre = *self;
        let mut pieces: Vec<LineSegment> = Vec::new();
        if contains_edge(&self.edges, e) {
            assert(self.edge_set().contains(e));
            assert(self.edge_set() =~= step_edges(pre.edge_set(), pre.point_set(), pre.eps2(), e));
            return pieces;
        }
        let rv = LineSegment { from: e.to, to: e.from };
        if contains_edge(&self.edges, rv) {
            remove_edge(&mut self.edges, rv);
            assert(self.edge_set() =~= pre.edge_set().remove(rv));
            return pieces;
        }
        let close = self.find_points_close_to_line(&e);
        if close.len() == 0 {
            proof {
                assert forall|q: Point| #[trigger]
                    self.point_set().contains(q) && near_segment(e.from, e.to, q, self.eps2())
                    implies q == e.from || q == e.to by {
                    if q != e.from && q != e.to {
                        assert(close@.contains(q));
                    }
                }
            }
            insert_edge(&mut self.edges, e);
            assert(self.edge_set() =~= pre.edge_set().insert(e));
            return pieces;
        }
        proof {
            let q = close@[0];
            assert(close@.contains(q));
            assert(self.has_point(q));
            assert(self.point_set().contains(q));
            assert(!clean(e, self.point_set(), self.eps2()));
        }
        let mut keyed: Vec<(i64, Point)> = Vec::new();
        let mut i: usize = 0;
        while i < close.len()
            invariant
                i <= close.len(),
                valid_edge(e),
                keyed.len() == i,
                forall|j: int| 0 <= j < i ==> (#[trigger] keyed@[j]).1 == close@[j],
                forall|j: int| 0 <= j < i ==> (#[trigger] keyed@[j]).0 == clamped_dot(
                    e.from,
                    e.to,
                    keyed@[j].1,
                ),
                forall|q: Point| #[trigger] close@.contains(q) ==> q.valid(),
            decreases close.len() - i,
        {
            let q = close[i];
            assert(close@.contains(q));
            let k = crate::geometry::clamped_dot_of(e.from, e.to, q);
            keyed.push((k, q));
            i = i + 1;
        }
        let sorted = sort_by_key(keyed);
        proof {
            assert forall|t: (i64, Point)| #[trigger] sorted@.contains(t) implies close@.contains(t.1)
                && t.0 == clamped_dot(e.from, e.to, t.1) by {
                assert(sorted@.to_multiset().count(t) > 0);
                assert(keyed@.contains(t));
                let k = choose|k: int| 0 <= k < keyed.len() && keyed@[k] == t;
                assert(keyed@[k].1 == close@[k]);
            }
        }
        proof {
            lemma_sorted_points_distinct(close@, keyed@, sorted@);
        }
        let n = sorted.len();
        assert(n == close.len()) by {
            assert(sorted@.to_multiset().len() == keyed@.to_multiset().len());
        }
        assert(sorted@.contains(sorted@[0]));
        pieces.push(LineSegment { from: e.from, to: sorted[0].1 });
        let mut j: usize = 1;
        while j < n
            invariant
                n == sorted.len(),
                1 <= j <= n,
                pieces.len() == j,
                pieces@[0].from == e.from,
                forall|i: int| 0 <= i < j ==> (#[trigger] pieces@[i]).to == sorted@[i].1,
                forall|i: int| 0 < i < j ==> (#[trigger] pieces@[i]).from == sorted@[i - 1].1,
            decreases n - j,
        {
            pieces.push(LineSegment { from: sorted[j - 1].1, to: sorted[j].1 });
            j = j + 1;
        }
        pieces.push(LineSegment { from: sorted[n - 1].1, to: e.to });
        proof {
            lemma_chain_from_sorted(e, pieces@, sorted@, keyed@, close@, pre.point_set(), pre.eps2());
            assert(self.edge_set() =~= pre.edge_set());
        }
        pieces
    }

    /// Processes a work list of candidate edges, last item first: each item is
    /// handled by `crack_step`, and the pieces of a split item go back on the
    /// work list. At most `CRACK_STEP_LIMIT` items are handled. The ghost
    /// result is the set of items handled.
    #[verifier::rlimit(60)]
    fn crack_edges(&mut self, edges: Vec<LineSegment>) -> (popped: Ghost<Set<LineSegment>>)
        requires
            old(self).wf(),
            forall|i: int| 0 <= i < edges.len() ==> valid_edge(#[trigger] edges@[i]),
        ensures
            final(self).wf(),
            final(self).point_set() == old(self).point_set(),
            final(self).eps() == old(self).eps(),
            forall|e: LineSegment| #[trigger] final(self).has_edge(e) ==> old(self).has_edge(e)
                || clean(e, final(self).point_set(), final(self).eps2()),
            forall|e: LineSegment| #[trigger] old(self).has_edge(e) && !popped@.contains(rev(e))
                ==> final(self).has_edge(e),
            edges.len() == 1 && !splits(old(self).edge_set(), old(self).point_set(), old(self).eps2(), edges@[0])
                ==> final(self).edge_set() == step_edges(
                old(self).edge_set(),
                old(self).point_set(),
                old(self).eps2(),
                edges@[0],
            ),
            fresh_clean_batch(old(self).edge_set(), old(self).point_set(), old(self).eps2(), edges@)
                ==> final(self).edge_set() == old(self).edge_set().union(items_from(edges@, 0)),
            no_reverse_pairs(old(self).edge_set()) ==> no_reverse_pairs(final(self).edge_set()),
            edges.len() == 1 && splits(old(self).edge_set(), old(self).point_set(), old(self).eps2(), edges@[0])
                ==> exists|c: Seq<LineSegment>| is_crack_chain(edges@[0], c, old(self).point_set(), old(self).eps2())
                && (fresh_clean_batch(old(self).edge_set(), old(self).point_set(), old(self).eps2(), c)
                && c.len() < CRACK_STEP_LIMIT ==> final(self).edge_set() == old(self).edge_set().union(
                items_from(c, 0))) && ((forall|i: int| 0 <= i < c.len() ==> old(self).edge_set().contains(
                #[trigger] c[i])) ==> final(self).edge_set() == old(self).edge_set()),
    {
        let mut work = edges;
        let mut steps: u64 = CRACK_STEP_LIMIT;
        let ghost first = *old(self);
        let ghost mut popped: Set<LineSegment> = Set::empty();
        let ghost mut chain: Seq<LineSegment> = Seq::empty();
        proof {
            assert(work@ =~= edges@.take(edges.len() as int));
            assert(items_from(edges@, edges.len() as int) =~= Set::<LineSegment>::empty());
            assert(first.edge_set().union(Set::<LineSegment>::empty()) =~= first.edge_set());
        }
        while work.len() > 0 && steps > 0
            invariant
                self.wf(),
                point_bag(&self.points) == point_bag(&first.points),
                self.epsilon == first.epsilon,
                forall|i: int| 0 <= i < work.len() ==> valid_edge(#[trigger] work@[i]),
                forall|e: LineSegment| #[trigger] self.has_edge(e) ==> first.has_edge(e) || clean(
                    e,
                    self.point_set(),
                    self.eps2(),
                ),
                forall|e: LineSegment| #[trigger] first.has_edge(e) && !popped.contains(rev(e))
                    ==> self.has_edge(e),
                no_reverse_pairs(first.edge_set()) ==> no_reverse_pairs(self.edge_set()),
                edges.len() == 1 && !splits(first.edge_set(), first.point_set(), first.eps2(), edges@[0])
                    ==> (steps == CRACK_STEP_LIMIT && work@ == edges@ && self.edge_set() == first.edge_set())
                    || (work.len() == 0 && self.edge_set() == step_edges(
                    first.edge_set(),
                    first.point_set(),
                    first.eps2(),
                    edges@[0],
                )),
                fresh_clean_batch(first.edge_set(), first.point_set(), first.eps2(), edges@) ==> {
                    &&& work.len() <= edges.len()
                    &&& work@ == edges@.take(work.len() as int)
                    &&& steps as int == CRACK_STEP_LIMIT - (edges.len() - work.len())
                    &&& self.edge_set() == first.edge_set().union(items_from(edges@, work.len() as int))
                },
                edges.len() == 1 && splits(first.edge_set(), first.point_set(), first.eps2(), edges@[0])
                    ==> (steps == CRACK_STEP_LIMIT && work@ == edges@ && self.edge_set() == first.edge_set())
                    || (steps < CRACK_STEP_LIMIT && is_crack_chain(edges@[0], chain, first.point_set(), first.eps2())
                    && (fresh_clean_batch(first.edge_set(), first.point_set(), first.eps2(), chain)
                    && chain.len() < CRACK_STEP_LIMIT ==> {
                    &&& work.len() <= chain.len()
                    &&& work@ == chain.take(work.len() as int)
                    &&& steps as int == CRACK_STEP_LIMIT - 1 - (chain.len() - work.len())
                    &&& self.edge_set() == first.edge_set().union(items_from(chain, work.len() as int))
                }) && ((forall|i: int| 0 <= i < chain.len() ==> first.edge_set().contains(#[trigger] chain[i]))
                    ==> work.len() <= chain.len() && work@ == chain.take(work.len() as int)
                    && self.edge_set() == first.edge_set())),
            decreases steps,
        {
            steps = steps - 1;
            let ghost pre = *self;
            let ghost pre_work = work@;
            let e = work.pop().unwrap();
            assert(valid_edge(e)) by {
                assert(e == pre_work[pre_work.len() - 1]);
            }
            proof {
                popped = popped.insert(e);
                assert(pre.point_set() =~= first.point_set());
            }
            let pieces = self.crack_step(e);
            proof {
                assert(self.point_set() =~= pre.point_set());
                assert forall|x: LineSegment| #[trigger] self.has_edge(x) implies first.has_edge(x)
                    || clean(x, self.point_set(), self.eps2()) by {
                    assert(self.edge_set().contains(x));
                    if x != e {
                        assert(pre.edge_set().contains(x));
                    }
                }
                assert forall|x: LineSegment| #[trigger] first.has_edge(x) && !popped.contains(rev(x))
                    implies self.has_edge(x) by {
                    assert(pre.edge_set().contains(x));
                    if x == rev(e) {
                        assert(rev(x) == e);
                    }
                    assert(self.edge_set().contains(x));
                }
            }
            let mut k: usize = 0;
            while k < pieces.len()
                invariant
                    k <= pieces.len(),
                    forall|i: int| 0 <= i < pieces.len() ==> valid_edge(#[trigger] pieces@[i]),
                    forall|i: int| 0 <= i < work.len() ==> valid_edge(#[trigger] work@[i]),
                    work@ == pre_work.drop_last() + pieces@.take(k as int),
                decreases pieces.len() - k,
            {
                work.push(pieces[k]);
                assert(pieces@.take(k + 1) =~= pieces@.take(k as int).push(pieces@[k as int]));
                k = k + 1;
            }
            assert(pieces@.take(pieces.len() as int) =~= pieces@);
            proof {
                if fresh_clean_batch(first.edge_set(), first.point_set(), first.eps2(), edges@) {
                    let w = work.len() as int;
                    assert(e == edges@[w]);
                    lemma_batch_step(first.edge_set(), first.point_set(), first.eps2(), edges@, w);
                    assert(work@ =~= edges@.take(w));
                }
                if edges.len() == 1 && splits(first.edge_set(), first.point_set(), first.eps2(), edges@[0]) {
                    if steps + 1 == CRACK_STEP_LIMIT && pre_work == edges@ {
                        chain = pieces@;
                        assert(pre.edge_set() =~= first.edge_set());
                        assert(work@ =~= chain);
                        assert(items_from(chain, chain.len() as int) =~= Set::<LineSegment>::empty());
                        assert(first.edge_set().union(Set::<LineSegment>::empty()) =~= first.edge_set());
                        assert(chain.take(chain.len() as int) =~= chain);
                    } else {
                        if fresh_clean_batch(first.edge_set(), first.point_set(), first.eps2(), chain)
                            && chain.len() < CRACK_STEP_LIMIT {
                            let w = work.len() as int;
                            assert(e == chain[w]);
                            lemma_batch_step(first.edge_set(), first.point_set(), first.eps2(), chain, w);
                            assert(work@ =~= chain.take(w));
                        }
                        if forall|i: int| 0 <= i < chain.len() ==> first.edge_set().contains(#[trigger] chain[i]) {
                            let w = work.len() as int;
                            assert(e == chain[w]);
                            assert(first.edge_set().contains(chain[w]));
                            assert(pre.edge_set().contains(e));
                            assert(self.edge_set() =~= pre.edge_set());
                            assert(work@ =~= chain.take(w));
                        }
                    }
                }
                if edges.len() == 1 && !splits(first.edge_set(), first.point_set(), first.eps2(), edges@[0]) {
                    assert(pre_work == edges@);
                    assert(pre.edge_set() =~= first.edge_set());
                    assert(work@ =~= Seq::<LineSegment>::empty());
                }
            }
        }
        proof {
            if fresh_clean_batch(first.edge_set(), first.point_set(), first.eps2(), edges@) {
                assert(work.len() == 0);
            }
            if edges.len() == 1 && splits(first.edge_set(), first.point_set(), first.eps2(), edges@[0]) {
                if fresh_clean_batch(first.edge_set(), first.point_set(), first.eps2(), chain)
                    && chain.len() < CRACK_STEP_LIMIT {
                    assert(work.len() == 0);
                }
                assert(is_crack_chain(edges@[0], chain, first.point_set(), first.eps2()));
            }
        }
        Ghost(popped)
    }

    /// An empty region with tolerance `epsilon`.
    pub fn new(epsilon: i64) -> (r: PolygonRegion)
        requires
            0 <= epsilon < EPSILON_LIMIT,
        ensures
            r.wf(),
            r.eps() == epsilon,
            r.point_set() == Set::<Point>::empty(),
            r.edge_set() == Set::<LineSegment>::empty(),
            r.invariants_hold(),
            no_reverse_pairs(r.edge_set()),
    {
        assert(0 <= epsilon * epsilon < 0x4_0000_0000_0000) by (nonlinear_arith)
            requires
                0 <= epsilon < EPSILON_LIMIT,
        ;
        let r = PolygonRegion {
            points: new_point_tree(),
            edges: new_edge_tree(),
            epsilon,
            epsilon2: epsilon * epsilon,
        };
        assert(r.point_set() =~= Set::<Point>::empty());
        assert(r.edge_set() =~= Set::<LineSegment>::empty());
        r
    }

    /// The snapping tolerance.
    pub fn epsilon(&self) -> (r: i64)
        ensures
            r == self.eps(),
    {
        self.epsilon
    }

    /// Snaps `point` into the region and returns the point committed.
    ///
    /// Every stored point within the tolerance of `point` gives way to it, and
    /// every edge within the tolerance of it is taken out and cracked again.
    #[verifier::rlimit(60)]
    pub fn accomodate(&mut self, point: Point) -> (r: Point)
        requires
            old(self).wf(),
            point.valid(),
        ensures
            final(self).wf(),
            r == point,
            final(self).eps() == old(self).eps(),
            final(self).point_set() == snapped(old(self).point_set(), point, old(self).eps2()),
            forall|e: LineSegment| #[trigger] final(self).has_edge(e) && near_segment(
                e.from,
                e.to,
                point,
                final(self).eps2(),
            ) ==> point == e.from || point == e.to,
            forall|e: LineSegment| #[trigger] final(self).has_edge(e) ==> old(self).has_edge(e)
                || clean(e, final(self).point_set(), final(self).eps2()),
            old(self).invariants_hold() ==> final(self).invariants_hold(),
            (forall|e: LineSegment| #[trigger] old(self).has_edge(e) ==> !near_segment(
                e.from,
                e.to,
                point,
                old(self).eps2(),
            )) ==> final(self).edge_set() == old(self).edge_set(),
            old(self).point_set().contains(point) && old(self).invariants_hold() && no_reverse_pairs(
                old(self).edge_set(),
            ) ==> final(self).point_set() == old(self).point_set()
                && final(self).edge_set() == old(self).edge_set(),
            no_reverse_pairs(old(self).edge_set()) ==> no_reverse_pairs(final(self).edge_set()),
    {
        proof {
            self.lemma_eps2_bound();
        }
        let ghost start = *self;
        if point_count(&self.points) > 0 {
            drain_points_within(&mut self.points, point, self.epsilon2);
        } else {
            proof {
                assert(point_bag(&self.points) =~= point_bag(&self.points).filter(
                    |q: Point| dist2(q, point) > self.epsilon2,
                )) by {
                    assert forall|q: Point| point_bag(&self.points).count(q) == 0 by {
                        vstd::multiset::axiom_count_le_len(point_bag(&self.points), q);
                    }
                }
            }
        }
        insert_point(&mut self.points, point);
        let ghost mid = *self;
        proof {
            assert(dist2(point, point) == 0);
            assert forall|q: Point| #[trigger] point_bag(&self.points).count(q) > 0 implies q.valid()
                && point_bag(&self.points).count(q) == 1 by {
                if q != point {
                    assert(point_bag(&start.points).count(q) > 0);
                }
            }
            assert(self.wf());
            assert(self.point_set() =~= snapped(start.point_set(), point, start.eps2()));
        }
        let lo = Point { x: point.x - self.epsilon, y: point.y - self.epsilon };
        let hi = Point { x: point.x + self.epsilon, y: point.y + self.epsilon };
        let all = edges_meeting_box(&self.edges, lo, hi);
        let mut drained: Vec<LineSegment> = Vec::new();
        let mut i: usize = 0;
        while i < all.len()
            invariant
                self.wf(),
                i <= all.len(),
                self.epsilon == start.epsilon,
                0 <= self.epsilon2 < 0x4_0000_0000_0000,
                self.epsilon2 == self.eps2(),
                point.valid(),
                mid.wf(),
                point_bag(&self.points) == point_bag(&mid.points),
                forall|e: LineSegment| #[trigger] all@.contains(e) ==> edge_bag(&mid.edges).count(e) > 0,
                forall|e: LineSegment| #[trigger]
                    edge_bag(&self.edges).count(e) == if near_segment(
                        e.from,
                        e.to,
                        point,
                        self.eps2(),
                    ) && all@.take(i as int).contains(e) {
                        0
                    } else {
                        edge_bag(&mid.edges).count(e)
                    },
                forall|k: int| 0 <= k < drained.len() ==> valid_edge(#[trigger] drained@[k]),
                forall|k: int| 0 <= k < drained.len() ==> mid.has_edge(#[trigger] drained@[k])
                    && near_segment(drained@[k].from, drained@[k].to, point, self.eps2())
                    && !self.has_edge(drained@[k]),
                forall|a: int, b: int| 0 <= a < b < drained.len() ==> #[trigger] drained@[a]
                    != #[trigger] drained@[b],
                forall|x: LineSegment| #[trigger] mid.has_edge(x) && !self.has_edge(x) ==> exists|k: int|
                    0 <= k < drained.len() && drained@[k] == x,
            decreases all.len() - i,
        {
            let e = all[i];
            assert(all@.contains(e));
            assert(edge_bag(&mid.edges).count(e) > 0);
            let ghost pre = *self;
            let ghost pre_drained = drained@;
            if is_near_segment(e.from, e.to, point, self.epsilon2) {
                let removed = remove_edge(&mut self.edges, e);
                if removed {
                    drained.push(e);
                    proof {
                        assert(drained@[drained.len() - 1] == e);
                        assert forall|k: int| 0 <= k < drained.len() - 1 implies drained@[k] != e by {
                            assert(drained@[k] == pre_drained[k]);
                            assert(!pre.has_edge(pre_drained[k]));
                        }
                    }
                }
                proof {
                    assert forall|x: LineSegment| #[trigger] mid.has_edge(x) && !self.has_edge(x)
                        implies exists|k: int| 0 <= k < drained.len() && drained@[k] == x by {
                        if x == e && removed {
                            assert(drained@[drained.len() - 1] == e);
                        } else {
                            assert(!pre.has_edge(x));
                            let k = choose|k: int| 0 <= k < pre_drained.len() && pre_drained[k] == x;
                            assert(drained@[k] == x);
                        }
                    }
                }
            }
            assert(all@.take(i + 1) =~= all@.take(i as int).push(e));
            proof {
                lemma_push_contains(all@.take(i as int), e);
            }
            i = i + 1;
        }
        let ghost before_crack = *self;
        proof {
            assert(all@.take(all.len() as int) =~= all@);
            assert(before_crack.point_set() =~= mid.point_set());
        }
        let ghost dr = drained@;
        proof {
            assert(edge_bag(&mid.edges) == edge_bag(&start.edges));
            assert(forall|x: LineSegment| mid.has_edge(x) == start.has_edge(x));
            assert(mid.edge_set() =~= start.edge_set());
            assert forall|x: LineSegment| before_crack.edge_set().union(items_from(dr, 0)).contains(x)
                <==> start.edge_set().contains(x) by {
                if start.has_edge(x) && !before_crack.has_edge(x) {
                    assert(mid.has_edge(x));
                    let k = choose|k: int| 0 <= k < dr.len() && dr[k] == x;
                    assert(items_from(dr, 0).contains(x));
                }
                if items_from(dr, 0).contains(x) {
                    let k = choose|k: int| 0 <= k < dr.len() && dr[k] == x;
                    assert(mid.has_edge(dr[k]));
                }
            }
            assert(before_crack.edge_set().union(items_from(dr, 0)) =~= start.edge_set());
            if forall|e: LineSegment| #[trigger] start.has_edge(e) ==> !near_segment(
                e.from,
                e.to,
                point,
                start.eps2(),
            ) {
                assert(dr.len() == 0) by {
                    if dr.len() > 0 {
                        assert(mid.has_edge(dr[0]));
                        assert(start.has_edge(dr[0]));
                        assert(near_segment(dr[0].from, dr[0].to, point, start.eps2()));
                    }
                }
                assert(fresh_clean_batch(before_crack.edge_set(), before_crack.point_set(), before_crack.eps2(), dr));
            }
            if start.point_set().contains(point) && start.invariants_hold() && no_reverse_pairs(
                start.edge_set(),
            ) {
                assert(before_crack.point_set() =~= start.point_set()) by {
                    assert forall|q: Point| start.point_set().contains(q) implies dist2(q, point)
                        > start.eps2() || q == point by {}
                }
                assert forall|k: int| 0 <= k < dr.len() implies !before_crack.edge_set().contains(
                    #[trigger] dr[k],
                ) && !before_crack.edge_set().contains(rev(dr[k])) && clean(
                    dr[k],
                    before_crack.point_set(),
                    before_crack.eps2(),
                ) by {
                    assert(start.edge_set().contains(dr[k]));
                    assert(!start.edge_set().contains(rev(dr[k])));
                    assert(clean(dr[k], start.point_set(), start.eps2()));
                }
                assert forall|a: int, b: int| 0 <= a < dr.len() && 0 <= b < dr.len() implies (a != b
                    ==> #[trigger] dr[a] != #[trigger] dr[b]) && dr[a] != rev(dr[b]) by {
                    assert(start.edge_set().contains(dr[a]));
                    assert(start.edge_set().contains(dr[b]));
                    assert(!start.edge_set().contains(rev(dr[b])));
                }
                assert(fresh_clean_batch(before_crack.edge_set(), before_crack.point_set(), before_crack.eps2(), dr));
            }
        }
        proof {
            if no_reverse_pairs(start.edge_set()) {
                assert forall|e: LineSegment| #[trigger] before_crack.edge_set().contains(e)
                    implies !before_crack.edge_set().contains(rev(e)) by {
                    assert(start.edge_set().contains(e));
                }
            }
        }
        self.crack_edges(drained);
        proof {
            assert forall|e: LineSegment| #[trigger] self.has_edge(e) implies start.has_edge(e)
                || clean(e, self.point_set(), self.eps2()) by {
                if before_crack.has_edge(e) {
                    assert(edge_bag(&mid.edges).count(e) > 0);
                }
            }
            assert forall|e: LineSegment| #[trigger] self.has_edge(e) && near_segment(
                e.from,
                e.to,
                point,
                self.eps2(),
            ) implies point == e.from || point == e.to by {
                if before_crack.has_edge(e) {
                    lemma_near_segment_in_box(e.from, e.to, point, self.eps());
                    assert(envelope_meets(e, lo, hi));
                    assert(all@.contains(e));
                } else {
                    assert(self.point_set().contains(point));
                }
            }
            if start.invariants_hold() {
                assert forall|a: Point, b: Point| #[trigger] self.point_set().contains(a) && #[trigger]
                    self.point_set().contains(b) && a != b implies dist2(a, b) > self.eps2() by {
                    lemma_dist2_symmetric(a, b);
                    if a != point && b != point {
                        assert(start.point_set().contains(a) && start.point_set().contains(b));
                    }
                }
                assert forall|e: LineSegment| #[trigger] self.edge_set().contains(e) implies clean(
                    e,
                    self.point_set(),
                    self.eps2(),
                ) by {
                    if start.has_edge(e) {
                        assert(start.edge_set().contains(e));
                        assert forall|q: Point| #[trigger] self.point_set().contains(q) && near_segment(
                            e.from,
                            e.to,
                            q,
                            self.eps2(),
                        ) implies q == e.from || q == e.to by {
                            if q != point {
                                assert(start.point_set().contains(q));
                            }
                        }
                    }
                }
            }
        }
        point
    }

    /// Adds the directed edge `line`: both endpoints are snapped into the
    /// region, then the edge is cracked in. Its endpoints must differ: a
    /// segment from a point to itself has no direction.
    pub fn add_edge(&mut self, line: LineSegment)
        requires
            old(self).wf(),
            valid_edge(line),
        ensures
            final(self).wf(),
            final(self).eps() == old(self).eps(),
            final(self).point_set() == snapped(
                snapped(old(self).point_set(), line.from, old(self).eps2()),
                line.to,
                old(self).eps2(),
            ),
            forall|e: LineSegment| #[trigger] final(self).has_edge(e) ==> old(self).has_edge(e)
                || clean(e, final(self).point_set(), final(self).eps2()),
            old(self).invariants_hold() ==> final(self).invariants_hold(),
            forall|v: Point| #[trigger] old(self).point_set().contains(v) && near_segment(
                line.from,
                line.to,
                v,
                old(self).eps2(),
            ) && dist2(v, line.from) > old(self).eps2() && dist2(v, line.to) > old(self).eps2()
                && !old(self).has_edge(line) ==> !final(self).has_edge(line),
            old(self).point_set().contains(line.from) && old(self).point_set().contains(line.to)
                && old(self).invariants_hold() && no_reverse_pairs(old(self).edge_set()) && !splits(
                old(self).edge_set(),
                old(self).point_set(),
                old(self).eps2(),
                line,
            ) ==> final(self).point_set() == old(self).point_set() && final(self).edge_set()
                == step_edges(old(self).edge_set(), old(self).point_set(), old(self).eps2(), line),
            old(self).edge_set() == Set::<LineSegment>::empty() && clean(
                line,
                final(self).point_set(),
                final(self).eps2(),
            ) ==> final(self).edge_set() == set![line],
            old(self).point_set().contains(line.from) && old(self).point_set().contains(line.to)
                && old(self).invariants_hold() && no_reverse_pairs(old(self).edge_set()) && splits(
                old(self).edge_set(),
                old(self).point_set(),
                old(self).eps2(),
                line,
            ) ==> final(self).point_set() == old(self).point_set() && exists|c: Seq<LineSegment>|
                is_crack_chain(line, c, old(self).point_set(), old(self).eps2()) && (fresh_clean_batch(
                old(self).edge_set(),
                old(self).point_set(),
                old(self).eps2(),
                c,
            ) && c.len() < CRACK_STEP_LIMIT ==> final(self).edge_set() == old(self).edge_set().union(
                items_from(c, 0),
            )) && ((forall|i: int| 0 <= i < c.len() ==> old(self).edge_set().contains(#[trigger] c[i]))
                ==> final(self).edge_set() == old(self).edge_set()),
            no_reverse_pairs(old(self).edge_set()) ==> no_reverse_pairs(final(self).edge_set()),
    {
        let ghost start = *self;
        self.accomodate(line.from);
        let ghost mid = *self;
        self.accomodate(line.to);
        let ghost before_crack = *self;
        let mut work: Vec<LineSegment> = Vec::new();
        work.push(line);
        proof {
            if start.edge_set() == Set::<LineSegment>::empty() {
                assert forall|e: LineSegment| !start.has_edge(e) by {
                    assert(!start.edge_set().contains(e));
                }
                assert(mid.edge_set() == Set::<LineSegment>::empty());
                assert forall|e: LineSegment| !mid.has_edge(e) by {
                    assert(!mid.edge_set().contains(e));
                }
                assert(before_crack.edge_set() == Set::<LineSegment>::empty());
            }
        }
        self.crack_edges(work);
        proof {
            if start.edge_set() == Set::<LineSegment>::empty() && clean(line, self.point_set(), self.eps2()) {
                assert(before_crack.point_set() == self.point_set());
                assert(!splits(before_crack.edge_set(), before_crack.point_set(), before_crack.eps2(), line));
                assert(self.edge_set() =~= set![line]);
            }
        }
        proof {
            assert forall|e: LineSegment| #[trigger] self.has_edge(e) implies start.has_edge(e)
                || clean(e, self.point_set(), self.eps2()) by {
                if before_crack.has_edge(e) && !start.has_edge(e) {
                    if mid.has_edge(e) {
                        assert(clean(e, mid.point_set(), mid.eps2()));
                        assert forall|q: Point| #[trigger]
                            self.point_set().contains(q) && near_segment(e.from, e.to, q, self.eps2())
                            implies q == e.from || q == e.to by {
                            if q != line.to {
                                assert(mid.point_set().contains(q));
                            }
                        }
                    }
                }
            }
            assert forall|v: Point| #[trigger] start.point_set().contains(v) && near_segment(
                line.from,
                line.to,
                v,
                start.eps2(),
            ) && dist2(v, line.from) > start.eps2() && dist2(v, line.to) > start.eps2()
                && !start.has_edge(line) implies !self.has_edge(line) by {
                lemma_dist2_symmetric(v, line.from);
                lemma_dist2_symmetric(v, line.to);
                assert(mid.point_set().contains(v));
                assert(self.point_set().contains(v));
            }
            if start.invariants_hold() {
                assert(before_crack.invariants_hold());
                assert(self.point_set() == before_crack.point_set());
                assert forall|e: LineSegment| #[trigger] self.edge_set().contains(e) implies clean(
                    e,
                    self.point_set(),
                    self.eps2(),
                ) by {
                    if before_crack.has_edge(e) {
                        assert(before_crack.edge_set().contains(e));
                    }
                }
            }
        }
    }

    /// Re-snaps every stored point, in the order in which the point index
    /// hands them out.
    #[verifier::rlimit(60)]
    pub fn normalize(&mut self)
        requires
            old(self).wf(),
        ensures
            final(self).wf(),
            final(self).eps() == old(self).eps(),
            final(self).point_set().subset_of(old(self).point_set()),
            separated(final(self).point_set(), final(self).eps2()),
            forall|e: LineSegment| #[trigger] final(self).has_edge(e) ==> old(self).has_edge(e)
                || clean(e, final(self).point_set(), final(self).eps2()),
            final(self).invariants_hold(),
            old(self).invariants_hold() && no_reverse_pairs(old(self).edge_set())
                ==> final(self).point_set() == old(self).point_set()
                && final(self).edge_set() == old(self).edge_set(),
            no_reverse_pairs(old(self).edge_set()) ==> no_reverse_pairs(final(self).edge_set()),
    {
        let ghost start = *self;
        let pts = all_points(&self.points);
        let mut i: usize = 0;
        while i < pts.len()
            invariant
                self.wf(),
                start.wf(),
                i <= pts.len(),
                self.eps() == start.eps(),
                pts@.to_multiset() == point_bag(&start.points),
                self.point_set().subset_of(start.point_set()),
                forall|p: Point, q: Point| #[trigger] self.point_set().contains(p) && #[trigger]
                    self.point_set().contains(q) && p != q && pts@.take(i as int).contains(p)
                    ==> dist2(p, q) > self.eps2(),
                forall|e: LineSegment| #[trigger] self.has_edge(e) ==> start.has_edge(e) || clean(
                    e,
                    self.point_set(),
                    self.eps2(),
                ),
                forall|e: LineSegment, q: Point| #[trigger] self.has_edge(e) && #[trigger]
                    self.point_set().contains(q) && pts@.take(i as int).contains(q) && near_segment(
                    e.from,
                    e.to,
                    q,
                    self.eps2(),
                ) ==> q == e.from || q == e.to,
                start.invariants_hold() && no_reverse_pairs(start.edge_set()) ==> self.point_set()
                    == start.point_set() && self.edge_set() == start.edge_set(),
                no_reverse_pairs(start.edge_set()) ==> no_reverse_pairs(self.edge_set()),
            decreases pts.len() - i,
        {
            let p = pts[i];
            assert(pts@.contains(p));
            assert(point_bag(&start.points).count(p) > 0);
            let ghost pre = *self;
            self.accomodate(p);
            proof {
                assert(pts@.take(i + 1) =~= pts@.take(i as int).push(p));
                lemma_push_contains(pts@.take(i as int), p);
                assert forall|a: Point, b: Point| #[trigger] self.point_set().contains(a) && #[trigger]
                    self.point_set().contains(b) && a != b && pts@.take(i + 1).contains(a)
                    implies dist2(a, b) > self.eps2() by {
                    if a != p && b != p {
                        assert(pre.point_set().contains(a));
                        assert(pre.point_set().contains(b));
                    }
                    assert(dist2(a, b) == dist2(b, a)) by (nonlinear_arith);
                }
                assert forall|e: LineSegment, q: Point| #[trigger] self.has_edge(e) && #[trigger]
                    self.point_set().contains(q) && pts@.take(i + 1).contains(q) && near_segment(
                    e.from,
                    e.to,
                    q,
                    self.eps2(),
                ) implies q == e.from || q == e.to by {
                    if q != p {
                        assert(pre.point_set().contains(q));
                        assert(pts@.take(i as int).contains(q));
                        if !pre.has_edge(e) {
                            assert(clean(e, self.point_set(), self.eps2()));
                        }
                    }
                }
                if start.invariants_hold() && no_reverse_pairs(start.edge_set()) {
                    assert(pre.point_set().contains(p));
                }
                assert forall|e: LineSegment| #[trigger] self.has_edge(e) implies start.has_edge(e)
                    || clean(e, self.point_set(), self.eps2()) by {
                    if pre.has_edge(e) && !start.has_edge(e) {
                        assert forall|q: Point| #[trigger]
                            self.point_set().contains(q) && near_segment(e.from, e.to, q, self.eps2())
                            implies q == e.from || q == e.to by {
                            if q != p {
                                assert(pre.point_set().contains(q));
                            }
                        }
                    }
                }
            }
            i = i + 1;
        }
        proof {
            assert(pts@.take(pts.len() as int) =~= pts@);
            assert forall|p: Point, q: Point| #[trigger] self.point_set().contains(p) && #[trigger]
                self.point_set().contains(q) && p != q implies dist2(p, q) > self.eps2() by {
                assert(start.point_set().contains(p));
                assert(point_bag(&start.points).count(p) > 0);
            }
            assert forall|e: LineSegment| #[trigger] self.edge_set().contains(e) implies clean(
                e,
                self.point_set(),
                self.eps2(),
            ) by {
                assert forall|q: Point| #[trigger] self.point_set().contains(q) && near_segment(
                    e.from,
                    e.to,
                    q,
                    self.eps2(),
                ) implies q == e.from || q == e.to by {
                    assert(start.point_set().contains(q));
                    assert(point_bag(&start.points).count(q) > 0);
                    assert(pts@.contains(q));
                    assert(self.has_edge(e));
                }
            }
        }
    }

    /// The stored points, each once.
    pub fn points(&self) -> (r: Vec<Point>)
        requires
            self.wf(),
        ensures
            forall|q: Point| #[trigger] r@.contains(q) <==> self.point_set().contains(q),
            r@.no_duplicates(),
    {
        let r = all_points(&self.points);
        proof {
            assert forall|i: int, j: int| 0 <= i < j < r.len() implies r@[i] != r@[j] by {
                if r@[i] == r@[j] {
                    assert(r@.remove(j).contains(r@[i])) by {
                        assert(r@.remove(j)[i] == r@[i]);
                    }
                    assert(r@.remove(j).to_multiset() == r@.to_multiset().remove(r@[j]));
                    assert(point_bag(&self.points).count(r@[i]) > 0);
                    assert(r@.to_multiset().remove(r@[j]).count(r@[j]) == 0);
                    assert(r@.remove(j).to_multiset().count(r@[i]) > 0);
                }
            }
        }
        r
    }

    /// The stored directed edges, each once.
    pub fn edges(&self) -> (r: Vec<LineSegment>)
        requires
            self.wf(),
        ensures
            forall|e: LineSegment| #[trigger] r@.contains(e) <==> self.edge_set().contains(e),
            forall|e: LineSegment| #[trigger] r@.contains(e) ==> valid_edge(e),
            r@.no_duplicates(),
    {
        let r = all_edges(&self.edges);
        proof {
            assert forall|e: LineSegment| #[trigger] r@.contains(e) implies valid_edge(e) by {
                assert(edge_bag(&self.edges).count(e) > 0);
            }
            assert forall|i: int, j: int| 0 <= i < j < r.len() implies r@[i] != r@[j] by {
                if r@[i] == r@[j] {
                    assert(r@.remove(j).contains(r@[i])) by {
                        assert(r@.remove(j)[i] == r@[i]);
                    }
                    assert(r@.remove(j).to_multiset() == r@.to_multiset().remove(r@[j]));
                    assert(edge_bag(&self.edges).count(r@[i]) > 0);
                    assert(r@.to_multiset().remove(r@[j]).count(r@[j]) == 0);
                    assert(r@.remove(j).to_multiset().count(r@[i]) > 0);
                }
            }
        }
        r
    }

    /// Stores `p` as it is, without snapping or cracking: the way raw data
    /// enters a region before `normalize`.
    pub fn insert_raw_point(&mut self, p: Point)
        requires
            old(self).wf(),
            p.valid(),
        ensures
            final(self).wf(),
            final(self).eps() == old(self).eps(),
            final(self).point_set() == old(self).point_set().insert(p),
            final(self).edge_set() == old(self).edge_set(),
    {
        let ghost start = *self;
        let same = points_within(&self.points, p, 0);
        if same.len() == 0 {
            proof {
                if point_bag(&self.points).count(p) > 0 {
                    assert(same@.contains(p));
                }
            }
            insert_point(&mut self.points, p);
        } else {
            proof {
                let q = same@[0];
                assert(same@.contains(q));
                assert(q == p) by (nonlinear_arith)
                    requires
                        (q.x - p.x) * (q.x - p.x) + (q.y - p.y) * (q.y - p.y) <= 0,
                ;
            }
        }
        assert(self.point_set() =~= start.point_set().insert(p));
        assert(self.edge_set() =~= start.edge_set());
    }

    /// Stores the directed edge `e` as it is, without snapping or cracking: the
    /// way raw data enters a region before `normalize`.
    pub fn insert_raw_edge(&mut self, e: LineSegment)
        requires
            old(self).wf(),
            valid_edge(e),
        ensures
            final(self).wf(),
            final(self).eps() == old(self).eps(),
            final(self).point_set() == old(self).point_set(),
            final(self).edge_set() == old(self).edge_set().insert(e),
    {
        let ghost start = *self;
        if !contains_edge(&self.edges, e) {
            insert_edge(&mut self.edges, e);
        }
        assert(self.point_set() =~= start.point_set());
        assert(self.edge_set() =~= start.edge_set().insert(e));
    }

    /// Checks that stored points lie farther apart than the tolerance, and
    /// that no stored point lies within the tolerance of an edge it is not an
    /// endpoint of. The first violation found is returned.
    #[verifier::rlimit(60)]
    fn check_finite_precision(&self) -> (r: Result<(), InvariantError>)
        requires
            self.wf(),
        ensures
            r is Ok <==> separated(self.point_set(), self.eps2()) && edges_clean(
                self.edge_set(),
                self.point_set(),
                self.eps2(),
            ),
            r is Err ==> reports_violation(r->Err_0, self.point_set(), self.edge_set(), self.eps2()),
    {
        proof {
            self.lemma_eps2_bound();
        }
        let pts = all_points(&self.points);
        let mut i: usize = 0;
        while i < pts.len()
            invariant
                self.wf(),
                i <= pts.len(),
                0 <= self.epsilon2 < 0x4_0000_0000_0000,
                self.epsilon2 == self.eps2(),
                pts@.to_multiset() == point_bag(&self.points),
                forall|p: Point, q: Point| #[trigger] self.point_set().contains(p) && #[trigger]
                    self.point_set().contains(q) && p != q && pts@.take(i as int).contains(p)
                    ==> dist2(p, q) > self.eps2(),
            decreases pts.len() - i,
        {
            let p = pts[i];
            assert(pts@.contains(p));
            assert(point_bag(&self.points).count(p) > 0);
            let near = points_within(&self.points, p, self.epsilon2);
            let mut j: usize = 0;
            while j < near.len()
                invariant
                    self.wf(),
                    j <= near.len(),
                    point_bag(&self.points).count(p) > 0,
                    self.epsilon2 == self.eps2(),
                    forall|q: Point| #[trigger] near@.contains(q) <==> (point_bag(&self.points).count(q)
                        > 0 && dist2(q, p) <= self.epsilon2),
                    forall|k: int| 0 <= k < j ==> near@[k] == p,
                decreases near.len() - j,
            {
                let q = near[j];
                if q != p {
                    assert(near@.contains(q));
                    assert(dist2(p, q) == dist2(q, p)) by (nonlinear_arith);
                    assert(self.point_set().contains(p) && self.point_set().contains(q));
                    return Err(InvariantError::VerticesTooClose { p1: p, p2: q });
                }
                j = j + 1;
            }
            proof {
                assert(pts@.take(i + 1) =~= pts@.take(i as int).push(p));
                lemma_push_contains(pts@.take(i as int), p);
                assert forall|a: Point, b: Point| #[trigger] self.point_set().contains(a) && #[trigger]
                    self.point_set().contains(b) && a != b && pts@.take(i + 1).contains(a)
                    implies dist2(a, b) > self.eps2() by {
                    if a == p && dist2(a, b) <= self.eps2() {
                        assert(dist2(a, b) == dist2(b, a)) by (nonlinear_arith);
                        assert(point_bag(&self.points).count(b) > 0);
                        assert(near@.contains(b));
                    }
                }
            }
            i = i + 1;
        }
        proof {
            assert(pts@.take(pts.len() as int) =~= pts@);
            assert forall|p: Point, q: Point| #[trigger] self.point_set().contains(p) && #[trigger]
                self.point_set().contains(q) && p != q implies dist2(p, q) > self.eps2() by {
                assert(point_bag(&self.points).count(p) > 0);
                assert(pts@.contains(p));
            }
        }
        let mut i: usize = 0;
        while i < pts.len()
            invariant
                self.wf(),
                i <= pts.len(),
                0 <= self.epsilon2 < 0x4_0000_0000_0000,
                self.epsilon2 == self.eps2(),
                pts@.to_multiset() == point_bag(&self.points),
                separated(self.point_set(), self.eps2()),
                forall|e: LineSegment, q: Point| #[trigger] self.edge_set().contains(e) && #[trigger]
                    pts@.take(i as int).contains(q) && near_segment(e.from, e.to, q, self.eps2())
                    ==> q == e.from || q == e.to,
            decreases pts.len() - i,
        {
            let p = pts[i];
            assert(pts@.contains(p));
            assert(point_bag(&self.points).count(p) > 0);
            let lo = Point { x: p.x - self.epsilon, y: p.y - self.epsilon };
            let hi = Point { x: p.x + self.epsilon, y: p.y + self.epsilon };
            let es = edges_meeting_box(&self.edges, lo, hi);
            let mut j: usize = 0;
            while j < es.len()
                invariant
                    self.wf(),
                    j <= es.len(),
                    p.valid(),
                    point_bag(&self.points).count(p) > 0,
                    0 <= self.epsilon2 < 0x4_0000_0000_0000,
                    self.epsilon2 == self.eps2(),
                    forall|e: LineSegment| #[trigger] es@.contains(e) ==> edge_bag(&self.edges).count(e) > 0,
                    forall|k: int| 0 <= k < j && near_segment(
                        es@[k].from,
                        es@[k].to,
                        p,
                        self.eps2(),
                    ) ==> p == (#[trigger] es@[k]).from || p == es@[k].to,
                decreases es.len() - j,
            {
                let e = es[j];
                assert(es@.contains(e));
                assert(edge_bag(&self.edges).count(e) > 0);
                if is_near_segment(e.from, e.to, p, self.epsilon2) && p != e.from && p != e.to {
                    assert(self.point_set().contains(p));
                    assert(self.edge_set().contains(e));
                    return Err(InvariantError::VertexEdgeDist { p, e });
                }
                j = j + 1;
            }
            proof {
                assert(pts@.take(i + 1) =~= pts@.take(i as int).push(p));
                lemma_push_contains(pts@.take(i as int), p);
                assert forall|e: LineSegment, q: Point| #[trigger] self.edge_set().contains(e)
                    && #[trigger] pts@.take(i + 1).contains(q) && near_segment(
                    e.from,
                    e.to,
                    q,
                    self.eps2(),
                ) implies q == e.from || q == e.to by {
                    if q == p {
                        lemma_near_segment_in_box(e.from, e.to, p, self.eps());
                        assert(envelope_meets(e, lo, hi));
                        assert(es@.contains(e));
                        let k = choose|k: int| 0 <= k < es.len() && es@[k] == e;
                        assert(es@[k] == e);
                    }
                }
            }
            i = i + 1;
        }
        proof {
            assert(pts@.take(pts.len() as int) =~= pts@);
            assert forall|e: LineSegment| #[trigger] self.edge_set().contains(e) implies clean(
                e,
                self.point_set(),
                self.eps2(),
            ) by {
                assert forall|q: Point| #[trigger] self.point_set().contains(q) && near_segment(
                    e.from,
                    e.to,
                    q,
                    self.eps2(),
                ) implies q == e.from || q == e.to by {
                    assert(point_bag(&self.points).count(q) > 0);
                    assert(pts@.contains(q));
                }
            }
        }
        Ok(())
    }

    /// Checks the region's invariants: points farther apart than the
    /// tolerance, and no point within the tolerance of an edge it is not an
    /// endpoint of.
    pub fn check_region(&self) -> (r: Result<(), InvariantError>)
        requires
            self.wf(),
        ensures
            r is Ok <==> self.invariants_hold(),
            r is Err ==> reports_violation(r->Err_0, self.point_set(), self.edge_set(), self.eps2()),
    {
        self.check_finite_precision()?;
        Ok(())
    }

    /// Reports, for each edge that crosses another held edge at a point
    /// inside both, one such pair, with that edge first.
    pub fn find_intersections(&self) -> (r: Vec<InvariantError>)
        requires
            self.wf(),
        ensures
            forall|k: int| 0 <= k < r.len() ==> reports_crossing(#[trigger] r@[k], self.edge_set()),
            r.len() == 0 <==> no_crossings(self.edge_set()),
            forall|e1: LineSegment, e2: LineSegment| #[trigger] self.edge_set().contains(e1)
                && #[trigger] self.edge_set().contains(e2) && properly_cross(e1, e2)
                ==> exists|k: int| 0 <= k < r.len() && crossing_edge(#[trigger] r@[k]) == e1,
            forall|a: int, b: int| 0 <= a < b < r.len() ==> crossing_edge(#[trigger] r@[a])
                != crossing_edge(#[trigger] r@[b]),
    {
        let es = self.edges();
        let mut r: Vec<InvariantError> = Vec::new();
        let ghost mut idx: Seq<int> = Seq::empty();
        let mut i: usize = 0;
        while i < es.len()
            invariant
                self.wf(),
                i <= es.len(),
                forall|e: LineSegment| #[trigger] es@.contains(e) <==> self.edge_set().contains(e),
                forall|e: LineSegment| #[trigger] es@.contains(e) ==> valid_edge(e),
                es@.no_duplicates(),
                idx.len() == r.len(),
                forall|k: int| 0 <= k < r.len() ==> reports_crossing(#[trigger] r@[k], self.edge_set()),
                forall|k: int| 0 <= k < r.len() ==> 0 <= #[trigger] idx[k] < i && crossing_edge(r@[k])
                    == es@[idx[k]],
                forall|a: int, b: int| 0 <= a < b < r.len() ==> #[trigger] idx[a] < #[trigger] idx[b],
                forall|a: int, b: int|
                    0 <= a < i && 0 <= b < es.len() && properly_cross(#[trigger] es@[a], #[trigger] es@[b])
                    ==> exists|k: int| 0 <= k < r.len() && idx[k] == a,
            decreases es.len() - i,
        {
            let e1 = es[i];
            assert(es@.contains(e1));
            let mut j: usize = 0;
            let mut found = false;
            let ghost r0 = r@;
            let ghost idx0 = idx;
            while j < es.len() && !found
                invariant
                    self.wf(),
                    j <= es.len(),
                    i < es.len(),
                    e1 == es@[i as int],
                    valid_edge(e1),
                    self.edge_set().contains(e1),
                    forall|e: LineSegment| #[trigger] es@.contains(e) <==> self.edge_set().contains(e),
                    forall|e: LineSegment| #[trigger] es@.contains(e) ==> valid_edge(e),
                    !found ==> r@ == r0,
                    found ==> r@ == r0.push(InvariantError::EdgeIntersection { e1, e2: r@[r0.len() as int]->e2 })
                        && reports_crossing(r@[r0.len() as int], self.edge_set()),
                    !found ==> forall|b: int| 0 <= b < j ==> !properly_cross(e1, #[trigger] es@[b]),
                decreases es.len() - j,
            {
                let e2 = es[j];
                assert(es@.contains(e2));
                if segments_cross(e1, e2) {
                    r.push(InvariantError::EdgeIntersection { e1, e2 });
                    found = true;
                }
                j = j + 1;
            }
            proof {
                if found {
                    idx = idx0.push(i as int);
                    assert forall|k: int| 0 <= k < r.len() implies 0 <= #[trigger] idx[k] < i + 1
                        && crossing_edge(r@[k]) == es@[idx[k]] by {
                        if k < r0.len() {
                            assert(r@[k] == r0[k]);
                            assert(idx[k] == idx0[k]);
                        }
                    }
                    assert forall|k: int| 0 <= k < r.len() implies reports_crossing(#[trigger] r@[k], self.edge_set()) by {
                        if k < r0.len() {
                            assert(r@[k] == r0[k]);
                        }
                    }
                    assert forall|a: int, b: int| 0 <= a < b < r.len() implies #[trigger] idx[a] < #[trigger] idx[b] by {
                        if b < r0.len() {
                            assert(idx[a] == idx0[a] && idx[b] == idx0[b]);
                        } else {
                            assert(idx[a] == idx0[a]);
                        }
                    }
                    assert forall|a: int, b: int|
                        0 <= a < i + 1 && 0 <= b < es.len() && properly_cross(#[trigger] es@[a], #[trigger] es@[b])
                        implies exists|k: int| 0 <= k < r.len() && idx[k] == a by {
                        if a == i {
                            assert(idx[r.len() - 1] == a);
                        } else {
                            let k = choose|k: int| 0 <= k < r0.len() && idx0[k] == a;
                            assert(idx[k] == a);
                        }
                    }
                } else {
                    assert forall|a: int, b: int|
                        0 <= a < i + 1 && 0 <= b < es.len() && properly_cross(#[trigger] es@[a], #[trigger] es@[b])
                        implies exists|k: int| 0 <= k < r.len() && idx[k] == a by {
                        if a == i {
                            assert(!properly_cross(e1, es@[b]));
                        }
                    }
                }
            }
            i = i + 1;
        }
        proof {
            assert forall|e1: LineSegment, e2: LineSegment| #[trigger] self.edge_set().contains(e1)
                && #[trigger] self.edge_set().contains(e2) && properly_cross(e1, e2)
                implies exists|k: int| 0 <= k < r.len() && crossing_edge(#[trigger] r@[k]) == e1 by {
                assert(es@.contains(e1) && es@.contains(e2));
                let a = choose|a: int| 0 <= a < es.len() && es@[a] == e1;
                let b = choose|b: int| 0 <= b < es.len() && es@[b] == e2;
                assert(properly_cross(es@[a], es@[b]));
                let k = choose|k: int| 0 <= k < r.len() && idx[k] == a;
                assert(crossing_edge(r@[k]) == e1);
            }
            assert forall|a: int, b: int| 0 <= a < b < r.len() implies crossing_edge(#[trigger] r@[a])
                != crossing_edge(#[trigger] r@[b]) by {
                assert(idx[a] < idx[b]);
                assert(es@[idx[a]] != es@[idx[b]]);
            }
            if r.len() == 0 {
                assert forall|e1: LineSegment, e2: LineSegment| #[trigger] self.edge_set().contains(e1)
                    && #[trigger] self.edge_set().contains(e2) implies !properly_cross(e1, e2) by {
                    if properly_cross(e1, e2) {
                        assert(es@.contains(e1) && es@.contains(e2));
                        let a = choose|a: int| 0 <= a < es.len() && es@[a] == e1;
                        let b = choose|b: int| 0 <= b < es.len() && es@[b] == e2;
                        assert(properly_cross(es@[a], es@[b]));
                    }
                }
            } else {
                assert(reports_crossing(r@[0], self.edge_set()));
            }
        }
        r
    }
}

} // verus!
