//! Geometry model: points, axis-aligned envelopes, and polygons with a
//! closed boundary ring, over exact signed integer coordinates.

use vstd::prelude::*;

verus! {

/// Largest coordinate magnitude the library accepts.  Keeping coordinates in
/// this range lets every cross-product style computation be carried out in
/// `i128` without overflow.
pub const COORD_LIMIT: i64 = 0x4000_0000_0000_0000;

/// A 2D coordinate (x, y), treated as planar.
#[derive(PartialEq, Eq, Structural, Debug, Copy, Clone)]
pub struct Point {
    pub x: i64,
    pub y: i64,
}

/// A coordinate small enough that all derived products fit in `i128`.
pub open spec fn coord_ok(c: int) -> bool {
    -(COORD_LIMIT as int) <= c <= COORD_LIMIT as int
}

pub open spec fn point_ok(p: Point) -> bool {
    coord_ok(p.x as int) && coord_ok(p.y as int)
}

/// A weighted point: a population center with its scalar contribution.
#[derive(PartialEq, Eq, Structural, Debug, Copy, Clone)]
pub struct PopCenter {
    pub x: i64,
    pub y: i64,
    pub population: i64,
}

impl PopCenter {
    /// The bare coordinate of this center, its weight dropped.
    pub fn as_point(&self) -> (p: Point)
        ensures
            p == (Point { x: self.x, y: self.y }),
    {
        Point { x: self.x, y: self.y }
    }
}

/// An axis-aligned bounding box.  The empty envelope is the identity for
/// `expand`: its minima sit above its maxima, so it contains nothing.
#[derive(PartialEq, Eq, Structural, Debug, Copy, Clone)]
pub struct Envelope {
    pub min_x: i64,
    pub min_y: i64,
    pub max_x: i64,
    pub max_y: i64,
}

pub open spec fn spec_min_i64(a: i64, b: i64) -> i64 {
    if a <= b {
        a
    } else {
        b
    }
}

pub open spec fn spec_max_i64(a: i64, b: i64) -> i64 {
    if a >= b {
        a
    } else {
        b
    }
}

/// The identity element for `spec_merge`.
pub open spec fn spec_empty_env() -> Envelope {
    Envelope { min_x: i64::MAX, min_y: i64::MAX, max_x: i64::MIN, max_y: i64::MIN }
}

/// Componentwise merge of two envelopes: min of minima, max of maxima,
/// each axis tracked independently.
pub open spec fn spec_merge(a: Envelope, b: Envelope) -> Envelope {
    Envelope {
        min_x: spec_min_i64(a.min_x, b.min_x),
        min_y: spec_min_i64(a.min_y, b.min_y),
        max_x: spec_max_i64(a.max_x, b.max_x),
        max_y: spec_max_i64(a.max_y, b.max_y),
    }
}

/// The envelope grown point by point from the left: the tight bounding box
/// of a point sequence, or the empty envelope for an empty sequence.
pub open spec fn spec_env_of(points: Seq<Point>) -> Envelope
    decreases points.len(),
{
    if points.len() == 0 {
        spec_empty_env()
    } else {
        let prev = spec_env_of(points.drop_last());
        let p = points.last();
        Envelope {
            min_x: spec_min_i64(prev.min_x, p.x),
            min_y: spec_min_i64(prev.min_y, p.y),
            max_x: spec_max_i64(prev.max_x, p.x),
            max_y: spec_max_i64(prev.max_y, p.y),
        }
    }
}

/// Inclusive containment of a point in a box.
pub open spec fn spec_env_contains(e: Envelope, p: Point) -> bool {
    e.min_x <= p.x <= e.max_x && e.min_y <= p.y <= e.max_y
}

/// The outer box covers the inner one: any point inside the inner box is
/// inside the outer one.
pub open spec fn spec_env_covers(outer: Envelope, inner: Envelope) -> bool {
    outer.min_x <= inner.min_x && outer.min_y <= inner.min_y && inner.max_x <= outer.max_x
        && inner.max_y <= outer.max_y
}

impl Envelope {
    /// The empty envelope: the identity for `expand`, containing no point.
    pub fn empty() -> (e: Envelope)
        ensures
            e == spec_empty_env(),
    {
        Envelope { min_x: i64::MAX, min_y: i64::MAX, max_x: i64::MIN, max_y: i64::MIN }
    }

    /// The tight bounding box of a point slice; the empty envelope when the
    /// slice is empty.
    pub fn of(points: &Vec<Point>) -> (e: Envelope)
        ensures
            e == spec_env_of(points@),
    {
        let mut min_x: i64 = i64::MAX;
        let mut min_y: i64 = i64::MAX;
        let mut max_x: i64 = i64::MIN;
        let mut max_y: i64 = i64::MIN;
        let mut i: usize = 0;
        while i < points.len()
            invariant
                i <= points.len(),
                spec_env_of(points@.take(i as int)) == (Envelope { min_x, min_y, max_x, max_y }),
            decreases points.len() - i,
        {
            let p = points[i];
            assert(points@.take(i + 1).drop_last() =~= points@.take(i as int));
            assert(points@.take(i + 1).last() == p);
            if p.x < min_x {
                min_x = p.x;
            }
            if p.y < min_y {
                min_y = p.y;
            }
            if p.x > max_x {
                max_x = p.x;
            }
            if p.y > max_y {
                max_y = p.y;
            }
            i = i + 1;
        }
        assert(points@.take(points@.len() as int) =~= points@);
        Envelope { min_x, min_y, max_x, max_y }
    }

    /// Grow this envelope to also cover `other`.
    pub fn expand(&mut self, other: Envelope)
        ensures
            *final(self) == spec_merge(*old(self), other),
    {
        if other.min_x < self.min_x {
            self.min_x = other.min_x;
        }
        if other.min_y < self.min_y {
            self.min_y = other.min_y;
        }
        if other.max_x > self.max_x {
            self.max_x = other.max_x;
        }
        if other.max_y > self.max_y {
            self.max_y = other.max_y;
        }
    }

    /// Inclusive containment test on all four bounds.
    pub fn contains(&self, point: Point) -> (r: bool)
        ensures
            r == spec_env_contains(*self, point),
    {
        self.min_x <= point.x && point.x <= self.max_x && self.min_y <= point.y && point.y
            <= self.max_y
    }
}

/// Merging is commutative.
pub proof fn lemma_merge_commutative(a: Envelope, b: Envelope)
    ensures
        spec_merge(a, b) == spec_merge(b, a),
{
}

/// Merging is associative.
pub proof fn lemma_merge_associative(a: Envelope, b: Envelope, c: Envelope)
    ensures
        spec_merge(spec_merge(a, b), c) == spec_merge(a, spec_merge(b, c)),
{
}

/// The empty envelope is a neutral element for merging.
pub proof fn lemma_merge_empty(a: Envelope)
    ensures
        spec_merge(a, spec_empty_env()) == a,
        spec_merge(spec_empty_env(), a) == a,
{
}

/// Cross-product of the edge vector (s -> e) with the vector (s -> p):
/// positive when p lies to the left of the directed edge.
pub open spec fn spec_cross(s: Point, e: Point, p: Point) -> int {
    (e.x - s.x) * (p.y - s.y) - (e.y - s.y) * (p.x - s.x)
}

/// Winding contribution of the single directed edge (s -> e) for point p:
/// +1 for an upward crossing with p to the left, -1 for a downward crossing
/// with p to the right, 0 otherwise.
pub open spec fn edge_contrib(s: Point, e: Point, p: Point) -> int {
    if s.y <= p.y && e.y > p.y && spec_cross(s, e, p) > 0 {
        1
    } else if s.y > p.y && e.y <= p.y && spec_cross(s, e, p) < 0 {
        -1
    } else {
        0
    }
}

/// Sum of the contributions of the edges (ring[i], ring[i+1]) for a <= i < b.
pub open spec fn winding_range(ring: Seq<Point>, p: Point, a: int, b: int) -> int
    decreases b - a,
{
    if a >= b {
        0
    } else {
        winding_range(ring, p, a, b - 1) + edge_contrib(ring[b - 1], ring[b], p)
    }
}

/// The winding number of the closed ring around p: the sum over all edges.
pub open spec fn spec_winding(ring: Seq<Point>, p: Point) -> int {
    winding_range(ring, p, 0, ring.len() - 1)
}

/// A well-formed boundary ring: more than 3 vertices, closed (first equals
/// last), and every coordinate within the accepted range.
pub open spec fn ring_wf(ring: Seq<Point>) -> bool {
    &&& ring.len() > 3
    &&& ring[0] == ring[ring.len() - 1]
    &&& forall|i: int| 0 <= i < ring.len() ==> point_ok(ring[i])
}

/// Point-in-ring containment: the winding number is non-zero.  A point
/// exactly on the boundary may resolve either way, as the winding rule
/// dictates; that ambiguity is inherent and accepted.
pub open spec fn ring_covers(ring: Seq<Point>, p: Point) -> bool {
    spec_winding(ring, p) != 0
}

/// Every point of a sequence lies inside the envelope computed from it.
pub(crate) proof fn lemma_env_of_covers(points: Seq<Point>, i: int)
    requires
        0 <= i < points.len(),
    ensures
        spec_env_contains(spec_env_of(points), points[i]),
    decreases points.len(),
{
    if i == points.len() - 1 {
    } else {
        lemma_env_of_covers(points.drop_last(), i);
    }
}

/// Rewrites the cross product around the query point itself.
proof fn lemma_cross_identity(s: Point, e: Point, p: Point)
    ensures
        spec_cross(s, e, p) == (e.x - p.x) * (p.y - s.y) + (s.x - p.x) * (e.y - p.y),
{
    assert((e.x - s.x) * (p.y - s.y) - (e.y - s.y) * (p.x - s.x) == (e.x - p.x) * (p.y - s.y) + (
    s.x - p.x) * (e.y - p.y)) by (nonlinear_arith);
}

/// An edge wholly to the strict left of p in x contributes nothing to p's
/// winding number.
proof fn lemma_contrib_right(s: Point, e: Point, p: Point)
    requires
        p.x > s.x,
        p.x > e.x,
    ensures
        edge_contrib(s, e, p) == 0,
{
    lemma_cross_identity(s, e, p);
    if s.y <= p.y && e.y > p.y {
        assert((e.x - p.x) * (p.y - s.y) <= 0 && (s.x - p.x) * (e.y - p.y) < 0)
            by (nonlinear_arith)
            requires
                e.x < p.x && s.x < p.x && s.y <= p.y && e.y > p.y,
        ;
    }
    if s.y > p.y && e.y <= p.y {
        assert((e.x - p.x) * (p.y - s.y) > 0 && (s.x - p.x) * (e.y - p.y) >= 0)
            by (nonlinear_arith)
            requires
                e.x < p.x && s.x < p.x && s.y > p.y && e.y <= p.y,
        ;
    }
}

/// 1 when the vertex lies strictly above p, else 0.
spec fn ybit(v: Point, p: Point) -> int {
    if v.y > p.y {
        1
    } else {
        0
    }
}

/// For an edge wholly to the strict right of p in x, the contribution is the
/// change of `ybit` along the edge: such an edge crosses p's horizontal line
/// with p strictly on the outer side, so the sign test is decided by the
/// crossing direction alone.
proof fn lemma_contrib_left(s: Point, e: Point, p: Point)
    requires
        p.x < s.x,
        p.x < e.x,
    ensures
        edge_contrib(s, e, p) == ybit(e, p) - ybit(s, p),
{
    lemma_cross_identity(s, e, p);
    if s.y <= p.y && e.y > p.y {
        assert((e.x - p.x) * (p.y - s.y) >= 0 && (s.x - p.x) * (e.y - p.y) > 0)
            by (nonlinear_arith)
            requires
                e.x > p.x && s.x > p.x && s.y <= p.y && e.y > p.y,
        ;
    }
    if s.y > p.y && e.y <= p.y {
        assert((e.x - p.x) * (p.y - s.y) < 0 && (s.x - p.x) * (e.y - p.y) <= 0)
            by (nonlinear_arith)
            requires
                e.x > p.x && s.x > p.x && s.y > p.y && e.y <= p.y,
        ;
    }
}

/// Splitting a sum of edge contributions at an interior index.
proof fn lemma_winding_range_split(ring: Seq<Point>, p: Point, a: int, b: int, c: int)
    requires
        a <= b <= c,
    ensures
        winding_range(ring, p, a, c) == winding_range(ring, p, a, b) + winding_range(ring, p, b, c),
    decreases c - b,
{
    if b < c {
        lemma_winding_range_split(ring, p, a, b, c - 1);
    }
}

/// A point strictly to the right of every vertex has winding number zero:
/// every single edge contributes nothing.
proof fn lemma_winding_zero_right(ring: Seq<Point>, p: Point, b: int)
    requires
        0 <= b < ring.len(),
        forall|i: int| 0 <= i < ring.len() ==> p.x > ring[i].x,
    ensures
        winding_range(ring, p, 0, b) == 0,
    decreases b,
{
    if b > 0 {
        lemma_winding_zero_right(ring, p, b - 1);
        lemma_contrib_right(ring[b - 1], ring[b], p);
    }
}

/// For a point strictly to the left of every vertex the contributions
/// telescope along the walk.
proof fn lemma_winding_telescopes_left(ring: Seq<Point>, p: Point, b: int)
    requires
        0 <= b < ring.len(),
        forall|i: int| 0 <= i < ring.len() ==> p.x < ring[i].x,
    ensures
        winding_range(ring, p, 0, b) == ybit(ring[b], p) - ybit(ring[0], p),
    decreases b,
{
    if b > 0 {
        lemma_winding_telescopes_left(ring, p, b - 1);
        lemma_contrib_left(ring[b - 1], ring[b], p);
    }
}

/// A point above or below every vertex meets no crossing edge.
proof fn lemma_winding_zero_y(ring: Seq<Point>, p: Point, b: int)
    requires
        0 <= b < ring.len(),
        (forall|i: int| 0 <= i < ring.len() ==> p.y < ring[i].y) || (forall|i: int|
            0 <= i < ring.len() ==> p.y >= ring[i].y),
    ensures
        winding_range(ring, p, 0, b) == 0,
    decreases b,
{
    if b > 0 {
        lemma_winding_zero_y(ring, p, b - 1);
    }
}

/// Pruning is sound: a point outside the tight envelope of a ring is never
/// inside the ring.
pub proof fn lemma_outside_envelope_not_covered(ring: Seq<Point>, p: Point)
    requires
        ring_wf(ring),
        !spec_env_contains(spec_env_of(ring), p),
    ensures
        !ring_covers(ring, p),
{
    let env = spec_env_of(ring);
    assert forall|i: int| 0 <= i < ring.len() implies spec_env_contains(env, ring[i]) by {
        lemma_env_of_covers(ring, i);
    }
    let b = ring.len() - 1;
    if p.x < env.min_x {
        lemma_winding_telescopes_left(ring, p, b);
        assert(ring[b] == ring[0]);
    } else if p.x > env.max_x {
        lemma_winding_zero_right(ring, p, b);
    } else if p.y < env.min_y {
        lemma_winding_zero_y(ring, p, b);
    } else {
        assert(p.y > env.max_y);
        lemma_winding_zero_y(ring, p, b);
    }
}

/// A point strictly outside a polygon's envelope is never contained in the
/// polygon: envelope pruning produces no false negatives.
pub proof fn lemma_outside_envelope_not_contained(poly: Polygon, p: Point)
    requires
        poly.wf(),
        !spec_env_contains(poly.envelope, p),
    ensures
        !poly.spec_covers(p),
{
    lemma_outside_envelope_not_covered(poly.coords@, p);
}

/// The ring with its starting vertex rotated forward by k: the same closed
/// walk entered at vertex k.
pub open spec fn rotate_ring(ring: Seq<Point>, k: int) -> Seq<Point> {
    ring.subrange(k, ring.len() as int) + ring.subrange(1, k + 1)
}

/// The low half of the rotated ring sums the original edges from k on.
proof fn lemma_rotation_low(ring: Seq<Point>, p: Point, k: int, m: int)
    requires
        ring_wf(ring),
        0 <= k < ring.len() - 1,
        0 <= m <= ring.len() - 1 - k,
    ensures
        winding_range(rotate_ring(ring, k), p, 0, m) == winding_range(ring, p, k, k + m),
    decreases m,
{
    if m > 0 {
        lemma_rotation_low(ring, p, k, m - 1);
        let rot = rotate_ring(ring, k);
        assert(rot[m - 1] == ring[k + m - 1]);
        if m < ring.len() - 1 - k {
            assert(rot[m] == ring[k + m]);
        } else {
            assert(rot[m] == ring[ring.len() - 1]);
        }
    }
}

/// Past the seam the rotated ring replays the original edges from the start.
proof fn lemma_rotation_high(ring: Seq<Point>, p: Point, k: int, m: int)
    requires
        ring_wf(ring),
        0 <= k < ring.len() - 1,
        0 <= m <= k,
    ensures
        winding_range(rotate_ring(ring, k), p, ring.len() - 1 - k, ring.len() - 1 - k + m)
            == winding_range(ring, p, 0, m),
    decreases m,
{
    let n = ring.len() as int;
    let rot = rotate_ring(ring, k);
    if m > 0 {
        lemma_rotation_high(ring, p, k, m - 1);
        if m == 1 {
            assert(rot[n - 1 - k] == ring[n - 1]);
            assert(ring[n - 1] == ring[0]);
        } else {
            assert(rot[n - 1 - k + m - 1] == ring[m - 1]);
        }
        assert(rot[n - 1 - k + m] == ring[m]);
    }
}

/// The winding number, and with it containment, is invariant under rotating
/// the ring's starting vertex: both rings walk the same closed boundary.
pub proof fn lemma_covers_rotation(ring: Seq<Point>, p: Point, k: int)
    requires
        ring_wf(ring),
        0 <= k < ring.len() - 1,
    ensures
        ring_wf(rotate_ring(ring, k)),
        spec_winding(rotate_ring(ring, k), p) == spec_winding(ring, p),
        ring_covers(rotate_ring(ring, k), p) == ring_covers(ring, p),
{
    let n = ring.len() as int;
    let rot = rotate_ring(ring, k);
    assert(rot.len() == n);
    assert(rot[0] == ring[k]);
    assert(rot[n - 1] == ring[k]);
    assert(forall|i: int| 0 <= i < n ==> point_ok(#[trigger] rot[i]));
    lemma_rotation_low(ring, p, k, n - 1 - k);
    lemma_rotation_high(ring, p, k, k);
    lemma_winding_range_split(rot, p, 0, n - 1 - k, n - 1);
    lemma_winding_range_split(ring, p, 0, k, n - 1);
}

/// Exact point-in-ring test by the winding-number method.  Edges wholly to
/// the strict left of the point in x are skipped; `lemma_contrib_right` shows
/// the skip drops nothing.
pub fn point_in_polygon_check(point: Point, coords: &Vec<Point>) -> (r: bool)
    requires
        ring_wf(coords@),
        point_ok(point),
    ensures
        r == ring_covers(coords@, point),
{
    let n = coords.len();
    let mut wn: i128 = 0;
    let mut k: usize = 0;
    while k < n - 1
        invariant
            ring_wf(coords@),
            point_ok(point),
            n == coords@.len(),
            0 <= k <= n - 1,
            wn == winding_range(coords@, point, 0, k as int),
            -(k as int) <= wn <= k as int,
        decreases n - 1 - k,
    {
        let start = coords[k];
        let end = coords[k + 1];
        if point.x > start.x && point.x > end.x {
            // Point is strictly to the right of both endpoints.
            proof {
                lemma_contrib_right(start, end, point);
            }
        } else {
            proof {
                assert((end.x - start.x) * (point.y - start.y) <= 0x4000_0000_0000_0000_0000_0000_0000_0000i128
                    && (end.x - start.x) * (point.y - start.y)
                    >= -0x4000_0000_0000_0000_0000_0000_0000_0000i128 && (end.y - start.y) * (
                point.x - start.x) <= 0x4000_0000_0000_0000_0000_0000_0000_0000i128 && (end.y
                    - start.y) * (point.x - start.x)
                    >= -0x4000_0000_0000_0000_0000_0000_0000_0000i128)
                    by (nonlinear_arith)
                    requires
                        point_ok(start) && point_ok(end) && point_ok(point),
                ;
            }
            // The two halves of the cross product (= lx - rx).
            let lx: i128 = (end.x as i128 - start.x as i128) * (point.y as i128 - start.y as i128);
            let rx: i128 = (end.y as i128 - start.y as i128) * (point.x as i128 - start.x as i128);
            if start.y <= point.y {
                // Possible upward crossing.
                if end.y > point.y && lx > rx {
                    wn = wn + 1;
                }
            } else {
                // Possible downward crossing.
                if end.y <= point.y && lx < rx {
                    wn = wn - 1;
                }
            }
        }
        k = k + 1;
    }
    wn != 0
}

/// A simple polygon: an id, the tight bounding envelope of its boundary, and
/// the closed boundary ring itself.  Only the outer ring is represented.
#[derive(Debug)]
pub struct Polygon {
    pub id: String,
    pub envelope: Envelope,
    pub coords: Vec<Point>,
}

impl Polygon {
    /// A well-formed polygon: a well-formed closed ring, and an envelope
    /// that is exactly the ring's tight bounding box.
    pub open spec fn wf(&self) -> bool {
        ring_wf(self.coords@) && self.envelope == spec_env_of(self.coords@)
    }

    /// Containment of a point, as a predicate on the model.
    pub open spec fn spec_covers(&self, p: Point) -> bool {
        ring_covers(self.coords@, p)
    }

    /// Validates a ring once, at construction: rejects a short or unclosed
    /// ring and out-of-range coordinates; on success the envelope is the
    /// ring's tight bounding box.  Malformed geometry never reaches the
    /// containment test.
    pub fn new(id: String, coords: Vec<Point>) -> (r: Option<Polygon>)
        ensures
            match r {
                Some(poly) => poly.wf() && poly.id@ == id@ && poly.coords@ == coords@,
                None => !ring_wf(coords@),
            },
    {
        if coords.len() <= 3 {
            return None;
        }
        let first = coords[0];
        let last = coords[coords.len() - 1];
        if first.x != last.x || first.y != last.y {
            return None;
        }
        let mut i: usize = 0;
        while i < coords.len()
            invariant
                i <= coords@.len(),
                forall|j: int| 0 <= j < i ==> point_ok(coords@[j]),
            decreases coords@.len() - i,
        {
            let p = coords[i];
            if p.x < -COORD_LIMIT || p.x > COORD_LIMIT || p.y < -COORD_LIMIT || p.y > COORD_LIMIT {
                return None;
            }
            i = i + 1;
        }
        let envelope = Envelope::of(&coords);
        Some(Polygon { id, envelope, coords })
    }

    /// Exact containment test.  Requires a well-formed polygon: geometry is
    /// validated once at construction, not re-checked per query.
    pub fn contains(&self, point: Point) -> (r: bool)
        requires
            self.wf(),
            point_ok(point),
        ensures
            r == self.spec_covers(point),
    {
        point_in_polygon_check(point, &self.coords)
    }
}

} // verus!
