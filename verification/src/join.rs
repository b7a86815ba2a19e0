//! The join driver: stream weighted points through a polygon collection and
//! accumulate each point's weight into the total of every polygon that
//! contains it.  Four strategies of increasing sophistication compute the
//! same mapping; each one's contract pins the result to the same model, so
//! agreement is a theorem rather than a hope.

use crate::models::{
    point_ok, ring_covers, spec_env_contains, Envelope, Point, Polygon, PopCenter,
};
use crate::weights::WeightMap;
use vstd::prelude::*;

verus! {

/// The bare coordinate of a weighted point.
pub open spec fn center_point(c: PopCenter) -> Point {
    Point { x: c.x, y: c.y }
}

/// Polygon j counts toward id's total for point p: it carries the id and
/// contains the point.
pub open spec fn hit(polys: Seq<Polygon>, id: Seq<char>, p: Point, j: int) -> bool {
    polys[j].id@ == id && ring_covers(polys[j].coords@, p)
}

/// Some polygon among the first j counts toward id's total for p.
spec fn scan_hit(polys: Seq<Polygon>, id: Seq<char>, p: Point, j: int) -> bool {
    exists|jj: int| 0 <= jj < j && hit(polys, id, p, jj)
}

/// How many of the first m polygons count toward id's total for p.
pub open spec fn covered_count(polys: Seq<Polygon>, id: Seq<char>, p: Point, m: int) -> int
    decreases m,
{
    if m <= 0 {
        0
    } else {
        covered_count(polys, id, p, m - 1) + if hit(polys, id, p, m - 1) {
            1int
        } else {
            0int
        }
    }
}

/// The weight the first i centers contribute to id: each center adds its
/// weight once per polygon with that id containing it.
pub open spec fn join_total(
    polys: Seq<Polygon>,
    centers: Seq<PopCenter>,
    id: Seq<char>,
    i: int,
) -> int
    decreases i,
{
    if i <= 0 {
        0
    } else {
        join_total(polys, centers, id, i - 1) + centers[i - 1].population * covered_count(
            polys,
            id,
            center_point(centers[i - 1]),
            polys.len() as int,
        )
    }
}

/// id earns an output entry: one of the first i centers lies in a polygon
/// carrying it.  A center inside no polygon is dropped silently; an id whose
/// polygons contain no center never appears, not even with total zero.
pub open spec fn join_hit(polys: Seq<Polygon>, centers: Seq<PopCenter>, id: Seq<char>, i: int) -> bool {
    exists|k: int, j: int|
        0 <= k < i && 0 <= j < polys.len() && hit(polys, id, center_point(centers[k]), j)
}

/// The join's output contract: the mapping holds exactly the ids some center
/// hit, each with the full accumulated weight.
pub open spec fn join_result(
    polys: Seq<Polygon>,
    centers: Seq<PopCenter>,
    m: Map<Seq<char>, int>,
) -> bool {
    &&& forall|id: Seq<char>|
        #[trigger] m.dom().contains(id) <==> join_hit(polys, centers, id, centers.len() as int)
    &&& forall|id: Seq<char>|
        #[trigger] m.dom().contains(id) ==> m[id] == join_total(
            polys,
            centers,
            id,
            centers.len() as int,
        )
}

/// What every strategy asks of its inputs: well-formed polygons, coordinates
/// in range, and few enough point/polygon pairs that an `i128` total cannot
/// overflow.
pub open spec fn join_inputs_ok(polys: Seq<Polygon>, centers: Seq<PopCenter>) -> bool {
    &&& forall|j: int| 0 <= j < polys.len() ==> (#[trigger] polys[j]).wf()
    &&& forall|k: int| 0 <= k < centers.len() ==> point_ok(center_point(#[trigger] centers[k]))
    &&& centers.len() * polys.len() <= 0x4000_0000_0000_0000
}

/// Any two mappings that satisfy the join contract over the same inputs are
/// the same mapping: all strategies agree, keys and totals alike.
pub proof fn lemma_strategies_agree(
    polys: Seq<Polygon>,
    centers: Seq<PopCenter>,
    m1: Map<Seq<char>, int>,
    m2: Map<Seq<char>, int>,
)
    requires
        join_result(polys, centers, m1),
        join_result(polys, centers, m2),
    ensures
        m1 == m2,
{
    assert(m1.dom() =~= m2.dom());
    assert(m1 =~= m2);
}

proof fn lemma_covered_count_bound(polys: Seq<Polygon>, id: Seq<char>, p: Point, m: int)
    requires
        0 <= m,
    ensures
        0 <= covered_count(polys, id, p, m) <= m,
    decreases m,
{
    if m > 0 {
        lemma_covered_count_bound(polys, id, p, m - 1);
    }
}

proof fn lemma_covered_count_zero(polys: Seq<Polygon>, id: Seq<char>, p: Point, m: int)
    requires
        !scan_hit(polys, id, p, m),
        0 <= m,
    ensures
        covered_count(polys, id, p, m) == 0,
    decreases m,
{
    if m > 0 {
        assert(!scan_hit(polys, id, p, m - 1)) by {
            if scan_hit(polys, id, p, m - 1) {
                let jj = choose|jj: int| 0 <= jj < m - 1 && hit(polys, id, p, jj);
                assert(0 <= jj < m && hit(polys, id, p, jj));
            }
        }
        assert(!hit(polys, id, p, m - 1)) by {
            if hit(polys, id, p, m - 1) {
                assert(0 <= m - 1 < m && hit(polys, id, p, m - 1));
            }
        }
        lemma_covered_count_zero(polys, id, p, m - 1);
    }
}

proof fn lemma_join_total_zero(polys: Seq<Polygon>, centers: Seq<PopCenter>, id: Seq<char>, i: int)
    requires
        !join_hit(polys, centers, id, i),
        0 <= i,
    ensures
        join_total(polys, centers, id, i) == 0,
    decreases i,
{
    if i > 0 {
        assert(!join_hit(polys, centers, id, i - 1)) by {
            if join_hit(polys, centers, id, i - 1) {
                let (k, j) = choose|k: int, j: int|
                    0 <= k < i - 1 && 0 <= j < polys.len() && hit(
                        polys,
                        id,
                        center_point(centers[k]),
                        j,
                    );
                assert(0 <= k < i && 0 <= j < polys.len() && hit(
                    polys,
                    id,
                    center_point(centers[k]),
                    j,
                ));
            }
        }
        assert(!scan_hit(polys, id, center_point(centers[i - 1]), polys.len() as int)) by {
            if scan_hit(polys, id, center_point(centers[i - 1]), polys.len() as int) {
                let jj = choose|jj: int|
                    0 <= jj < polys.len() && #[trigger] hit(
                        polys,
                        id,
                        center_point(centers[i - 1]),
                        jj,
                    );
                assert(0 <= i - 1 < i && 0 <= jj < polys.len() && hit(
                    polys,
                    id,
                    center_point(centers[i - 1]),
                    jj,
                ));
            }
        }
        lemma_join_total_zero(polys, centers, id, i - 1);
        lemma_covered_count_zero(polys, id, center_point(centers[i - 1]), polys.len() as int);
    }
}

proof fn lemma_join_total_bound(polys: Seq<Polygon>, centers: Seq<PopCenter>, id: Seq<char>, i: int)
    requires
        0 <= i <= centers.len(),
    ensures
        -(i * (polys.len() * 0x8000_0000_0000_0000)) <= join_total(polys, centers, id, i) <= i * (
        polys.len() * 0x8000_0000_0000_0000),
    decreases i,
{
    let ghost w_lim: int = 0x8000_0000_0000_0000;
    let ghost n = polys.len() as int;
    let ghost m = n * w_lim;
    if i > 0 {
        lemma_join_total_bound(polys, centers, id, i - 1);
        let w = centers[i - 1].population as int;
        let c = covered_count(polys, id, center_point(centers[i - 1]), n);
        lemma_covered_count_bound(polys, id, center_point(centers[i - 1]), n);
        assert(-m <= w * c <= m) by (nonlinear_arith)
            requires
                -w_lim <= w < w_lim,
                0 <= c <= n,
                m == n * w_lim,
        ;
        assert((i - 1) * m + m == i * m) by (nonlinear_arith);
    } else {
        assert(i * (n * w_lim) == 0) by (nonlinear_arith)
            requires
                i == 0,
        ;
    }
}

/// The running total plus one more weighted contribution stays within i128.
proof fn lemma_add_fits(polys: Seq<Polygon>, centers: Seq<PopCenter>, id: Seq<char>, i: int, c: int)
    requires
        join_inputs_ok(polys, centers),
        0 <= i < centers.len(),
        0 <= c <= polys.len(),
    ensures
        i128::MIN <= join_total(polys, centers, id, i) + centers[i].population * c
            + centers[i].population <= i128::MAX,
{
    let ghost w_lim: int = 0x8000_0000_0000_0000;
    let ghost n = polys.len() as int;
    let ghost cn = centers.len() as int;
    let ghost m = n * w_lim;
    lemma_join_total_bound(polys, centers, id, i);
    let t = join_total(polys, centers, id, i);
    let w = centers[i].population as int;
    assert(-m - w_lim <= w * c + w <= m + w_lim) by (nonlinear_arith)
        requires
            -w_lim <= w < w_lim,
            0 <= c <= n,
            m == n * w_lim,
            0 <= w_lim,
    ;
    assert(0 <= m) by (nonlinear_arith)
        requires
            m == n * w_lim,
            0 <= n,
            0 <= w_lim,
    ;
    assert(i * m <= (cn - 1) * m) by (nonlinear_arith)
        requires
            i <= cn - 1,
            0 <= m,
    ;
    assert(cn * m <= 0x4000_0000_0000_0000 * w_lim) by (nonlinear_arith)
        requires
            m == n * w_lim,
            cn * n <= 0x4000_0000_0000_0000,
            0 <= w_lim,
            0 <= n,
            0 <= cn,
    ;
    assert((cn - 1) * m + m == cn * m) by (nonlinear_arith);
}

/// Splitting off the contribution of polygon j for one id and one point.
proof fn lemma_scan_unfold(polys: Seq<Polygon>, id: Seq<char>, p: Point, j: int)
    requires
        0 <= j,
    ensures
        scan_hit(polys, id, p, j + 1) == (scan_hit(polys, id, p, j) || hit(polys, id, p, j)),
{
    if scan_hit(polys, id, p, j + 1) {
        let jj = choose|jj: int| 0 <= jj < j + 1 && hit(polys, id, p, jj);
        if jj < j {
            assert(scan_hit(polys, id, p, j));
        }
    }
    if scan_hit(polys, id, p, j) {
        let jj = choose|jj: int| 0 <= jj < j && hit(polys, id, p, jj);
        assert(0 <= jj < j + 1 && hit(polys, id, p, jj));
    }
    if hit(polys, id, p, j) {
        assert(0 <= j < j + 1 && hit(polys, id, p, j));
    }
}

/// One point-versus-polygon step of the accumulation, when the polygon
/// contains the point: the mapping after bumping that polygon's id matches
/// the model advanced by one polygon.
proof fn lemma_step_hit(
    polys: Seq<Polygon>,
    centers: Seq<PopCenter>,
    i: int,
    p: Point,
    j: int,
    m_old: Map<Seq<char>, int>,
    m_new: Map<Seq<char>, int>,
)
    requires
        0 <= i < centers.len(),
        p == center_point(centers[i]),
        0 <= j < polys.len(),
        ring_covers(polys[j].coords@, p),
        m_new == m_old.insert(
            polys[j].id@,
            (if m_old.dom().contains(polys[j].id@) {
                m_old[polys[j].id@]
            } else {
                0
            }) + centers[i].population,
        ),
        forall|id: Seq<char>|
            #[trigger] m_old.dom().contains(id) <==> (join_hit(polys, centers, id, i) || scan_hit(
                polys,
                id,
                p,
                j,
            )),
        forall|id: Seq<char>|
            #[trigger] m_old.dom().contains(id) ==> m_old[id] == join_total(polys, centers, id, i)
                + centers[i].population * covered_count(polys, id, p, j),
    ensures
        forall|id: Seq<char>|
            #[trigger] m_new.dom().contains(id) <==> (join_hit(polys, centers, id, i) || scan_hit(
                polys,
                id,
                p,
                j + 1,
            )),
        forall|id: Seq<char>|
            #[trigger] m_new.dom().contains(id) ==> m_new[id] == join_total(polys, centers, id, i)
                + centers[i].population * covered_count(polys, id, p, j + 1),
{
    let id0 = polys[j].id@;
    let w = centers[i].population as int;
    assert(hit(polys, id0, p, j));
    assert forall|id: Seq<char>| #[trigger]
        m_new.dom().contains(id) <==> (join_hit(polys, centers, id, i) || scan_hit(
        polys,
        id,
        p,
        j + 1,
    )) by {
        lemma_scan_unfold(polys, id, p, j);
        if id == id0 {
            assert(m_new.dom().contains(id));
            assert(scan_hit(polys, id, p, j + 1));
        } else {
            assert(m_new.dom().contains(id) == m_old.dom().contains(id));
            assert(!hit(polys, id, p, j));
        }
    }
    assert forall|id: Seq<char>| #[trigger]
        m_new.dom().contains(id) implies m_new[id] == join_total(polys, centers, id, i) + centers[i].population
        * covered_count(polys, id, p, j + 1) by {
        lemma_scan_unfold(polys, id, p, j);
        let c = covered_count(polys, id, p, j);
        if id == id0 {
            assert(covered_count(polys, id, p, j + 1) == c + 1);
            if m_old.dom().contains(id) {
                assert(m_new[id] == join_total(polys, centers, id, i) + w * c + w);
            } else {
                lemma_join_total_zero(polys, centers, id, i);
                lemma_covered_count_zero(polys, id, p, j);
                assert(m_new[id] == w);
            }
            assert(w * (c + 1) == w * c + w) by (nonlinear_arith);
        } else {
            assert(!hit(polys, id, p, j));
            assert(covered_count(polys, id, p, j + 1) == c);
            assert(m_new[id] == m_old[id]);
        }
    }
}

/// One point-versus-polygon step when the polygon does not contain the
/// point: nothing changes on either side.
proof fn lemma_step_miss(polys: Seq<Polygon>, p: Point, j: int)
    requires
        0 <= j < polys.len(),
        !ring_covers(polys[j].coords@, p),
    ensures
        forall|id: Seq<char>| #[trigger]
            scan_hit(polys, id, p, j + 1) == scan_hit(polys, id, p, j),
        forall|id: Seq<char>| #[trigger]
            covered_count(polys, id, p, j + 1) == covered_count(polys, id, p, j),
{
    assert forall|id: Seq<char>| #[trigger]
        scan_hit(polys, id, p, j + 1) == scan_hit(polys, id, p, j) by {
        lemma_scan_unfold(polys, id, p, j);
        assert(!hit(polys, id, p, j));
    }
    assert forall|id: Seq<char>| #[trigger]
        covered_count(polys, id, p, j + 1) == covered_count(polys, id, p, j) by {
        assert(!hit(polys, id, p, j));
    }
}

/// Closing out one center: its full scan becomes one more model step.
proof fn lemma_center_step(polys: Seq<Polygon>, centers: Seq<PopCenter>, i: int)
    requires
        0 <= i < centers.len(),
    ensures
        forall|id: Seq<char>| #[trigger]
            join_hit(polys, centers, id, i + 1) == (join_hit(polys, centers, id, i) || scan_hit(
                polys,
                id,
                center_point(centers[i]),
                polys.len() as int,
            )),
        forall|id: Seq<char>| #[trigger]
            join_total(polys, centers, id, i + 1) == join_total(polys, centers, id, i)
                + centers[i].population * covered_count(
                polys,
                id,
                center_point(centers[i]),
                polys.len() as int,
            ),
{
    let p = center_point(centers[i]);
    assert forall|id: Seq<char>| #[trigger]
        join_hit(polys, centers, id, i + 1) == (join_hit(polys, centers, id, i) || scan_hit(
        polys,
        id,
        p,
        polys.len() as int,
    )) by {
        if join_hit(polys, centers, id, i + 1) {
            let (k, j) = choose|k: int, j: int|
                0 <= k < i + 1 && 0 <= j < polys.len() && hit(polys, id, center_point(centers[k]), j);
            if k < i {
                assert(join_hit(polys, centers, id, i));
            } else {
                assert(0 <= j < polys.len() && hit(polys, id, p, j));
                assert(scan_hit(polys, id, p, polys.len() as int));
            }
        }
        if join_hit(polys, centers, id, i) {
            let (k, j) = choose|k: int, j: int|
                0 <= k < i && 0 <= j < polys.len() && hit(polys, id, center_point(centers[k]), j);
            assert(0 <= k < i + 1 && 0 <= j < polys.len() && hit(
                polys,
                id,
                center_point(centers[k]),
                j,
            ));
        }
        if scan_hit(polys, id, p, polys.len() as int) {
            let jj = choose|jj: int| 0 <= jj < polys.len() && hit(polys, id, p, jj);
            assert(0 <= i < i + 1 && 0 <= jj < polys.len() && hit(
                polys,
                id,
                center_point(centers[i]),
                jj,
            ));
        }
    }
}

/// Count over a list of candidate positions: how many of the first m listed
/// polygons count toward id's total for p.
spec fn covered_count_idx(
    polys: Seq<Polygon>,
    idxs: Seq<usize>,
    id: Seq<char>,
    p: Point,
    m: int,
) -> int
    decreases m,
{
    if m <= 0 {
        0
    } else {
        covered_count_idx(polys, idxs, id, p, m - 1) + if hit(polys, id, p, idxs[m - 1] as int) {
            1int
        } else {
            0int
        }
    }
}

/// Some listed polygon among the first m counts toward id's total for p.
spec fn scan_hit_idx(
    polys: Seq<Polygon>,
    idxs: Seq<usize>,
    id: Seq<char>,
    p: Point,
    m: int,
) -> bool {
    exists|t: int| 0 <= t < m && hit(polys, id, p, idxs[t] as int)
}

spec fn hit_set(polys: Seq<Polygon>, id: Seq<char>, p: Point, m: int) -> Set<int> {
    Set::new(|j: int| 0 <= j < m && hit(polys, id, p, j))
}

spec fn hit_set_idx(
    polys: Seq<Polygon>,
    idxs: Seq<usize>,
    id: Seq<char>,
    p: Point,
    m: int,
) -> Set<int> {
    Set::new(
        |j: int| (exists|t: int| 0 <= t < m && (#[trigger] idxs[t]) as int == j) && hit(
            polys,
            id,
            p,
            j,
        ),
    )
}

proof fn lemma_count_card(polys: Seq<Polygon>, id: Seq<char>, p: Point, m: int)
    requires
        0 <= m,
    ensures
        hit_set(polys, id, p, m).finite(),
        covered_count(polys, id, p, m) == hit_set(polys, id, p, m).len(),
    decreases m,
{
    if m == 0 {
        assert(hit_set(polys, id, p, 0) =~= Set::empty());
    } else {
        lemma_count_card(polys, id, p, m - 1);
        let prev = hit_set(polys, id, p, m - 1);
        if hit(polys, id, p, m - 1) {
            assert(hit_set(polys, id, p, m) =~= prev.insert(m - 1));
            vstd::set::axiom_set_insert_len(prev, m - 1);
        } else {
            assert(hit_set(polys, id, p, m) =~= prev);
        }
    }
}

proof fn lemma_idx_count_card(
    polys: Seq<Polygon>,
    idxs: Seq<usize>,
    id: Seq<char>,
    p: Point,
    m: int,
)
    requires
        0 <= m <= idxs.len(),
        idxs.no_duplicates(),
    ensures
        hit_set_idx(polys, idxs, id, p, m).finite(),
        covered_count_idx(polys, idxs, id, p, m) == hit_set_idx(polys, idxs, id, p, m).len(),
    decreases m,
{
    if m == 0 {
        assert(hit_set_idx(polys, idxs, id, p, 0) =~= Set::empty());
    } else {
        lemma_idx_count_card(polys, idxs, id, p, m - 1);
        let prev = hit_set_idx(polys, idxs, id, p, m - 1);
        let j0 = idxs[m - 1] as int;
        if hit(polys, id, p, j0) {
            assert(hit_set_idx(polys, idxs, id, p, m) =~= prev.insert(j0)) by {
                assert forall|j: int|
                    hit_set_idx(polys, idxs, id, p, m).contains(j) implies prev.insert(
                    j0,
                ).contains(j) by {
                    let t = choose|t: int| 0 <= t < m && (#[trigger] idxs[t]) as int == j;
                    if t < m - 1 {
                        assert(prev.contains(j));
                    }
                }
                assert forall|j: int|
                    prev.insert(j0).contains(j) implies hit_set_idx(
                    polys,
                    idxs,
                    id,
                    p,
                    m,
                ).contains(j) by {
                    if prev.contains(j) {
                        let t = choose|t: int| 0 <= t < m - 1 && (#[trigger] idxs[t]) as int == j;
                        assert(0 <= t < m && idxs[t] as int == j);
                    } else {
                        assert(idxs[m - 1] as int == j0);
                    }
                }
            }
            assert(!prev.contains(j0)) by {
                if prev.contains(j0) {
                    let t = choose|t: int| 0 <= t < m - 1 && (#[trigger] idxs[t]) as int == j0;
                    assert(idxs[t] == idxs[m - 1]);
                }
            }
            vstd::set::axiom_set_insert_len(prev, j0);
        } else {
            assert(hit_set_idx(polys, idxs, id, p, m) =~= prev) by {
                assert forall|j: int|
                    hit_set_idx(polys, idxs, id, p, m).contains(j) implies prev.contains(j) by {
                    let t = choose|t: int| 0 <= t < m && (#[trigger] idxs[t]) as int == j;
                    if t == m - 1 {
                        assert(hit(polys, id, p, j0));
                    }
                }
                assert forall|j: int|
                    prev.contains(j) implies hit_set_idx(polys, idxs, id, p, m).contains(j) by {
                    let t = choose|t: int| 0 <= t < m - 1 && (#[trigger] idxs[t]) as int == j;
                    assert(0 <= t < m && idxs[t] as int == j);
                }
            }
        }
    }
}

/// A candidate count never exceeds the polygon count.
proof fn lemma_idx_count_le(polys: Seq<Polygon>, idxs: Seq<usize>, id: Seq<char>, p: Point, m: int)
    requires
        0 <= m <= idxs.len(),
        idxs.no_duplicates(),
        forall|t: int| 0 <= t < idxs.len() ==> ((#[trigger] idxs[t]) as int) < polys.len(),
    ensures
        0 <= covered_count_idx(polys, idxs, id, p, m) <= polys.len(),
{
    let n = polys.len() as int;
    lemma_idx_count_card(polys, idxs, id, p, m);
    lemma_count_card(polys, id, p, n);
    assert(hit_set_idx(polys, idxs, id, p, m).subset_of(hit_set(polys, id, p, n))) by {
        assert forall|j: int|
            hit_set_idx(polys, idxs, id, p, m).contains(j) implies hit_set(
            polys,
            id,
            p,
            n,
        ).contains(j) by {
            let t = choose|t: int| 0 <= t < m && (#[trigger] idxs[t]) as int == j;
        }
    }
    vstd::set_lib::lemma_len_subset(
        hit_set_idx(polys, idxs, id, p, m),
        hit_set(polys, id, p, n),
    );
    lemma_covered_count_bound(polys, id, p, n);
}

/// A candidate list that misses no containing polygon gives, for every id,
/// the same count and the same hit verdict as the full scan.
proof fn lemma_candidates_complete(polys: Seq<Polygon>, idxs: Seq<usize>, p: Point)
    requires
        idxs.no_duplicates(),
        forall|t: int| 0 <= t < idxs.len() ==> ((#[trigger] idxs[t]) as int) < polys.len(),
        forall|j: int|
            0 <= j < polys.len() && ring_covers((#[trigger] polys[j]).coords@, p)
                ==> idxs.contains(j as usize),
        polys.len() <= usize::MAX,
    ensures
        forall|id: Seq<char>| #[trigger]
            covered_count_idx(polys, idxs, id, p, idxs.len() as int) == covered_count(
                polys,
                id,
                p,
                polys.len() as int,
            ),
        forall|id: Seq<char>| #[trigger]
            scan_hit_idx(polys, idxs, id, p, idxs.len() as int) == scan_hit(
                polys,
                id,
                p,
                polys.len() as int,
            ),
{
    let n = polys.len() as int;
    let m = idxs.len() as int;
    assert forall|id: Seq<char>| #[trigger]
        covered_count_idx(polys, idxs, id, p, m) == covered_count(polys, id, p, n) by {
        lemma_idx_count_card(polys, idxs, id, p, m);
        lemma_count_card(polys, id, p, n);
        assert(hit_set_idx(polys, idxs, id, p, m) =~= hit_set(polys, id, p, n)) by {
            assert forall|j: int|
                hit_set_idx(polys, idxs, id, p, m).contains(j) implies hit_set(
                polys,
                id,
                p,
                n,
            ).contains(j) by {
                let t = choose|t: int| 0 <= t < m && (#[trigger] idxs[t]) as int == j;
            }
            assert forall|j: int|
                hit_set(polys, id, p, n).contains(j) implies hit_set_idx(
                polys,
                idxs,
                id,
                p,
                m,
            ).contains(j) by {
                assert(idxs.contains(j as usize));
                let t = choose|t: int| 0 <= t < idxs.len() && idxs[t] == j as usize;
                assert(0 <= t < m && idxs[t] as int == j);
            }
        }
    }
    assert forall|id: Seq<char>| #[trigger]
        scan_hit_idx(polys, idxs, id, p, m) == scan_hit(polys, id, p, n) by {
        if scan_hit_idx(polys, idxs, id, p, m) {
            let t = choose|t: int| 0 <= t < m && hit(polys, id, p, idxs[t] as int);
            assert(0 <= (idxs[t] as int) < n && hit(polys, id, p, idxs[t] as int));
            assert(scan_hit(polys, id, p, n));
        }
        if scan_hit(polys, id, p, n) {
            let j = choose|j: int| 0 <= j < n && hit(polys, id, p, j);
            assert(idxs.contains(j as usize));
            let t = choose|t: int| 0 <= t < idxs.len() && idxs[t] == j as usize;
            assert(0 <= t < m && hit(polys, id, p, idxs[t] as int));
        }
    }
}

proof fn lemma_scan_unfold_idx(polys: Seq<Polygon>, idxs: Seq<usize>, id: Seq<char>, p: Point, t: int)
    requires
        0 <= t,
    ensures
        scan_hit_idx(polys, idxs, id, p, t + 1) == (scan_hit_idx(polys, idxs, id, p, t) || hit(
            polys,
            id,
            p,
            idxs[t] as int,
        )),
{
    if scan_hit_idx(polys, idxs, id, p, t + 1) {
        let tt = choose|tt: int| 0 <= tt < t + 1 && hit(polys, id, p, idxs[tt] as int);
        if tt < t {
            assert(scan_hit_idx(polys, idxs, id, p, t));
        }
    }
    if scan_hit_idx(polys, idxs, id, p, t) {
        let tt = choose|tt: int| 0 <= tt < t && hit(polys, id, p, idxs[tt] as int);
        assert(0 <= tt < t + 1 && hit(polys, id, p, idxs[tt] as int));
    }
    if hit(polys, id, p, idxs[t] as int) {
        assert(0 <= t < t + 1 && hit(polys, id, p, idxs[t] as int));
    }
}

proof fn lemma_covered_count_idx_zero(
    polys: Seq<Polygon>,
    idxs: Seq<usize>,
    id: Seq<char>,
    p: Point,
    m: int,
)
    requires
        !scan_hit_idx(polys, idxs, id, p, m),
        0 <= m,
    ensures
        covered_count_idx(polys, idxs, id, p, m) == 0,
    decreases m,
{
    if m > 0 {
        assert(!scan_hit_idx(polys, idxs, id, p, m - 1)) by {
            if scan_hit_idx(polys, idxs, id, p, m - 1) {
                let t = choose|t: int| 0 <= t < m - 1 && hit(polys, id, p, idxs[t] as int);
                assert(0 <= t < m && hit(polys, id, p, idxs[t] as int));
            }
        }
        assert(!hit(polys, id, p, idxs[m - 1] as int)) by {
            if hit(polys, id, p, idxs[m - 1] as int) {
                assert(0 <= m - 1 < m && hit(polys, id, p, idxs[m - 1] as int));
            }
        }
        lemma_covered_count_idx_zero(polys, idxs, id, p, m - 1);
    }
}

/// One candidate-versus-point step when the candidate contains the point.
proof fn lemma_step_hit_idx(
    polys: Seq<Polygon>,
    centers: Seq<PopCenter>,
    i: int,
    p: Point,
    idxs: Seq<usize>,
    t: int,
    m_old: Map<Seq<char>, int>,
    m_new: Map<Seq<char>, int>,
)
    requires
        0 <= i < centers.len(),
        p == center_point(centers[i]),
        0 <= t < idxs.len(),
        (idxs[t] as int) < polys.len(),
        ring_covers(polys[idxs[t] as int].coords@, p),
        m_new == m_old.insert(
            polys[idxs[t] as int].id@,
            (if m_old.dom().contains(polys[idxs[t] as int].id@) {
                m_old[polys[idxs[t] as int].id@]
            } else {
                0
            }) + centers[i].population,
        ),
        forall|id: Seq<char>|
            #[trigger] m_old.dom().contains(id) <==> (join_hit(polys, centers, id, i)
                || scan_hit_idx(polys, idxs, id, p, t)),
        forall|id: Seq<char>|
            #[trigger] m_old.dom().contains(id) ==> m_old[id] == join_total(polys, centers, id, i)
                + centers[i].population * covered_count_idx(polys, idxs, id, p, t),
    ensures
        forall|id: Seq<char>|
            #[trigger] m_new.dom().contains(id) <==> (join_hit(polys, centers, id, i)
                || scan_hit_idx(polys, idxs, id, p, t + 1)),
        forall|id: Seq<char>|
            #[trigger] m_new.dom().contains(id) ==> m_new[id] == join_total(polys, centers, id, i)
                + centers[i].population * covered_count_idx(polys, idxs, id, p, t + 1),
{
    let j0 = idxs[t] as int;
    let id0 = polys[j0].id@;
    let w = centers[i].population as int;
    assert(hit(polys, id0, p, j0));
    assert forall|id: Seq<char>| #[trigger]
        m_new.dom().contains(id) <==> (join_hit(polys, centers, id, i) || scan_hit_idx(
        polys,
        idxs,
        id,
        p,
        t + 1,
    )) by {
        lemma_scan_unfold_idx(polys, idxs, id, p, t);
        if id == id0 {
            assert(m_new.dom().contains(id));
            assert(scan_hit_idx(polys, idxs, id, p, t + 1));
        } else {
            assert(m_new.dom().contains(id) == m_old.dom().contains(id));
            assert(!hit(polys, id, p, j0));
        }
    }
    assert forall|id: Seq<char>| #[trigger]
        m_new.dom().contains(id) implies m_new[id] == join_total(polys, centers, id, i) + centers[i].population
        * covered_count_idx(polys, idxs, id, p, t + 1) by {
        lemma_scan_unfold_idx(polys, idxs, id, p, t);
        let c = covered_count_idx(polys, idxs, id, p, t);
        if id == id0 {
            assert(covered_count_idx(polys, idxs, id, p, t + 1) == c + 1);
            if m_old.dom().contains(id) {
                assert(m_new[id] == join_total(polys, centers, id, i) + w * c + w);
            } else {
                lemma_join_total_zero(polys, centers, id, i);
                lemma_covered_count_idx_zero(polys, idxs, id, p, t);
                assert(m_new[id] == w);
            }
            assert(w * (c + 1) == w * c + w) by (nonlinear_arith);
        } else {
            assert(!hit(polys, id, p, j0));
            assert(covered_count_idx(polys, idxs, id, p, t + 1) == c);
            assert(m_new[id] == m_old[id]);
        }
    }
}

/// One candidate-versus-point step when the candidate does not contain the
/// point.
proof fn lemma_step_miss_idx(polys: Seq<Polygon>, idxs: Seq<usize>, p: Point, t: int)
    requires
        0 <= t < idxs.len(),
        !ring_covers(polys[idxs[t] as int].coords@, p),
    ensures
        forall|id: Seq<char>| #[trigger]
            scan_hit_idx(polys, idxs, id, p, t + 1) == scan_hit_idx(polys, idxs, id, p, t),
        forall|id: Seq<char>| #[trigger]
            covered_count_idx(polys, idxs, id, p, t + 1) == covered_count_idx(polys, idxs, id, p, t),
{
    assert forall|id: Seq<char>| #[trigger]
        scan_hit_idx(polys, idxs, id, p, t + 1) == scan_hit_idx(polys, idxs, id, p, t) by {
        lemma_scan_unfold_idx(polys, idxs, id, p, t);
        assert(!hit(polys, id, p, idxs[t] as int));
    }
    assert forall|id: Seq<char>| #[trigger]
        covered_count_idx(polys, idxs, id, p, t + 1) == covered_count_idx(polys, idxs, id, p, t) by {
        assert(!hit(polys, id, p, idxs[t] as int));
    }
}

/// A containing polygon is found inside its own envelope.
proof fn lemma_covers_in_env(poly: Polygon, p: Point)
    requires
        poly.wf(),
        ring_covers(poly.coords@, p),
    ensures
        spec_env_contains(poly.envelope, p),
{
    if !spec_env_contains(poly.envelope, p) {
        crate::models::lemma_outside_envelope_not_covered(poly.coords@, p);
    }
}

/// Naive strategy: test every point against every polygon directly.
pub fn do_double_loop(centers: &Vec<PopCenter>, counties: &Vec<Polygon>) -> (m: WeightMap)
    requires
        join_inputs_ok(counties@, centers@),
    ensures
        m.wf(),
        join_result(counties@, centers@, m@),
{
    let mut m = WeightMap::new();
    let cn = centers.len();
    let n = counties.len();
    let mut i: usize = 0;
    while i < cn
        invariant
            join_inputs_ok(counties@, centers@),
            cn == centers@.len(),
            n == counties@.len(),
            i <= cn,
            m.wf(),
            forall|id: Seq<char>|
                #[trigger] m@.dom().contains(id) <==> join_hit(counties@, centers@, id, i as int),
            forall|id: Seq<char>|
                #[trigger] m@.dom().contains(id) ==> m@[id] == join_total(
                    counties@,
                    centers@,
                    id,
                    i as int,
                ),
        decreases cn - i,
    {
        let c = centers[i];
        let point = c.as_point();
        let mut j: usize = 0;
        while j < n
            invariant
                join_inputs_ok(counties@, centers@),
                cn == centers@.len(),
                n == counties@.len(),
                i < cn,
                j <= n,
                m.wf(),
                c == centers@[i as int],
                point == center_point(c),
                forall|id: Seq<char>|
                    #[trigger] m@.dom().contains(id) <==> (join_hit(
                        counties@,
                        centers@,
                        id,
                        i as int,
                    ) || scan_hit(counties@, id, point, j as int)),
                forall|id: Seq<char>|
                    #[trigger] m@.dom().contains(id) ==> m@[id] == join_total(
                        counties@,
                        centers@,
                        id,
                        i as int,
                    ) + c.population * covered_count(counties@, id, point, j as int),
            decreases n - j,
        {
            let county = &counties[j];
            if county.contains(point) {
                let ghost m_old = m@;
                proof {
                    lemma_covered_count_bound(counties@, county.id@, point, j as int);
                    lemma_add_fits(
                        counties@,
                        centers@,
                        county.id@,
                        i as int,
                        covered_count(counties@, county.id@, point, j as int),
                    );
                }
                m.add_weight(&county.id, c.population);
                proof {
                    lemma_step_hit(
                        counties@,
                        centers@,
                        i as int,
                        point,
                        j as int,
                        m_old,
                        m@,
                    );
                }
            } else {
                proof {
                    lemma_step_miss(counties@, point, j as int);
                }
            }
            j = j + 1;
        }
        proof {
            lemma_center_step(counties@, centers@, i as int);
        }
        i = i + 1;
    }
    m
}

/// Envelope-pruned strategy: reject a polygon by its own bounding box before
/// running the exact test.  Strictly an optimization: pruning never drops a
/// containing polygon, so the result is the naive mapping.
pub fn do_double_loop_with_envelope(centers: &Vec<PopCenter>, counties: &Vec<Polygon>) -> (m:
    WeightMap)
    requires
        join_inputs_ok(counties@, centers@),
    ensures
        m.wf(),
        join_result(counties@, centers@, m@),
{
    let mut m = WeightMap::new();
    let cn = centers.len();
    let n = counties.len();
    let mut i: usize = 0;
    while i < cn
        invariant
            join_inputs_ok(counties@, centers@),
            cn == centers@.len(),
            n == counties@.len(),
            i <= cn,
            m.wf(),
            forall|id: Seq<char>|
                #[trigger] m@.dom().contains(id) <==> join_hit(counties@, centers@, id, i as int),
            forall|id: Seq<char>|
                #[trigger] m@.dom().contains(id) ==> m@[id] == join_total(
                    counties@,
                    centers@,
                    id,
                    i as int,
                ),
        decreases cn - i,
    {
        let c = centers[i];
        let point = c.as_point();
        let mut j: usize = 0;
        while j < n
            invariant
                join_inputs_ok(counties@, centers@),
                cn == centers@.len(),
                n == counties@.len(),
                i < cn,
                j <= n,
                m.wf(),
                c == centers@[i as int],
                point == center_point(c),
                forall|id: Seq<char>|
                    #[trigger] m@.dom().contains(id) <==> (join_hit(
                        counties@,
                        centers@,
                        id,
                        i as int,
                    ) || scan_hit(counties@, id, point, j as int)),
                forall|id: Seq<char>|
                    #[trigger] m@.dom().contains(id) ==> m@[id] == join_total(
                        counties@,
                        centers@,
                        id,
                        i as int,
                    ) + c.population * covered_count(counties@, id, point, j as int),
            decreases n - j,
        {
            let county = &counties[j];
            if county.envelope.contains(point) && county.contains(point) {
                let ghost m_old = m@;
                proof {
                    lemma_covered_count_bound(counties@, county.id@, point, j as int);
                    lemma_add_fits(
                        counties@,
                        centers@,
                        county.id@,
                        i as int,
                        covered_count(counties@, county.id@, point, j as int),
                    );
                }
                m.add_weight(&county.id, c.population);
                proof {
                    lemma_step_hit(
                        counties@,
                        centers@,
                        i as int,
                        point,
                        j as int,
                        m_old,
                        m@,
                    );
                }
            } else {
                proof {
                    if !spec_env_contains(county.envelope, point) {
                        crate::models::lemma_outside_envelope_not_covered(county.coords@, point);
                    }
                    lemma_step_miss(counties@, point, j as int);
                }
            }
            j = j + 1;
        }
        proof {
            lemma_center_step(counties@, centers@, i as int);
        }
        i = i + 1;
    }
    m
}

/// Compare two strategies' outputs: success exactly when the mappings agree
/// on every id and total.  A mismatch is a fatal correctness failure.
pub fn check_pop_counts(base_pop: &WeightMap, compare_pop: &WeightMap) -> (r: Result<
    (),
    crate::GeoError,
>)
    requires
        base_pop.wf(),
        compare_pop.wf(),
    ensures
        match r {
            Ok(()) => base_pop@ == compare_pop@,
            Err(e) => e == crate::GeoError::CountMismatch && base_pop@ != compare_pop@,
        },
{
    if !map_subsumed(base_pop, compare_pop) {
        return Err(crate::GeoError::CountMismatch);
    }
    if !map_subsumed(compare_pop, base_pop) {
        return Err(crate::GeoError::CountMismatch);
    }
    proof {
        assert(base_pop@ =~= compare_pop@);
    }
    Ok(())
}

/// Every entry of `a` appears in `b` with the same total.
fn map_subsumed(a: &WeightMap, b: &WeightMap) -> (r: bool)
    requires
        a.wf(),
        b.wf(),
    ensures
        r == forall|id: Seq<char>|
            #[trigger] a@.dom().contains(id) ==> b@.dom().contains(id) && b@[id] == a@[id],
{
    let keys = a.keys();
    let n = keys.len();
    let mut i: usize = 0;
    while i < n
        invariant
            a.wf(),
            b.wf(),
            n == keys@.len(),
            i <= n,
            forall|id: Seq<char>| #[trigger]
                a@.dom().contains(id) <==> exists|t: int| 0 <= t < n && keys@[t]@ == id,
            forall|t: int| 0 <= t < n ==> a@.dom().contains((#[trigger] keys@[t])@),
            forall|t: int|
                0 <= t < i ==> b@.dom().contains((#[trigger] keys@[t])@) && b@[keys@[t]@]
                    == a@[keys@[t]@],
        decreases n - i,
    {
        let key = &keys[i];
        let va = a.get(key).unwrap();
        match b.get(key) {
            Some(vb) => {
                if vb != va {
                    proof {
                        assert(a@.dom().contains(keys@[i as int]@) && !(b@.dom().contains(
                            keys@[i as int]@,
                        ) && b@[keys@[i as int]@] == a@[keys@[i as int]@]));
                    }
                    return false;
                }
            },
            None => {
                return false;
            },
        }
        i = i + 1;
    }
    proof {
        assert forall|id: Seq<char>| #[trigger]
            a@.dom().contains(id) implies b@.dom().contains(id) && b@[id] == a@[id] by {
            let t = choose|t: int| 0 <= t < n && keys@[t]@ == id;
            assert(b@.dom().contains(keys@[t]@));
        }
    }
    true
}

/// No candidate gathered so far belongs to a parent entry that is still
/// unprocessed: entry e and beyond hold keys of no current candidate.
spec fn sids_settled(
    polys: Seq<Polygon>,
    envs: Seq<(String, Envelope)>,
    cands: Seq<usize>,
    e: int,
) -> bool {
    forall|v: int, g: int|
        0 <= v < cands.len() && e <= g < envs.len() ==> (#[trigger] envs[g]).0@
            != crate::utils::spec_state_of(polys[(#[trigger] cands[v]) as int].id@)
}

/// Every containing polygon whose parent entry was processed is already a
/// candidate.
spec fn processed_covered_in(
    polys: Seq<Polygon>,
    envs: Seq<(String, Envelope)>,
    cands: Seq<usize>,
    p: Point,
    e: int,
) -> bool {
    forall|j: int, g: int|
        0 <= j < polys.len() && ring_covers((#[trigger] polys[j]).coords@, p) && 0 <= g < e && (
        #[trigger] envs[g]).0@ == crate::utils::spec_state_of(polys[j].id@) ==> cands.contains(
            j as usize,
        )
}

/// Index-accelerated strategy: query the bounding-box tree once per point
/// for the candidates whose envelope contains it, then run the exact test on
/// each candidate.  Candidate retrieval is a superset filter, so the result
/// is again the naive mapping.
pub fn do_rtree(
    centers: &Vec<PopCenter>,
    counties: &Vec<Polygon>,
    rtree: &crate::rtree::SpatialIndex,
) -> (m: WeightMap)
    requires
        join_inputs_ok(counties@, centers@),
        crate::rtree::index_matches(*rtree, counties@),
    ensures
        m.wf(),
        join_result(counties@, centers@, m@),
{
    let mut m = WeightMap::new();
    let cn = centers.len();
    let n = counties.len();
    let mut i: usize = 0;
    while i < cn
        invariant
            join_inputs_ok(counties@, centers@),
            crate::rtree::index_matches(*rtree, counties@),
            cn == centers@.len(),
            n == counties@.len(),
            i <= cn,
            m.wf(),
            forall|id: Seq<char>|
                #[trigger] m@.dom().contains(id) <==> join_hit(counties@, centers@, id, i as int),
            forall|id: Seq<char>|
                #[trigger] m@.dom().contains(id) ==> m@[id] == join_total(
                    counties@,
                    centers@,
                    id,
                    i as int,
                ),
        decreases cn - i,
    {
        let c = centers[i];
        let point = c.as_point();
        let cands = crate::rtree::query_candidates(rtree, point, Ghost(counties@));
        proof {
            assert forall|tt: int|
                0 <= tt < cands@.len() implies ((#[trigger] cands@[tt]) as int)
                < counties@.len() by {
                assert(cands@.contains(cands@[tt]));
            }
        }
        let tn = cands.len();
        let mut t: usize = 0;
        while t < tn
            invariant
                join_inputs_ok(counties@, centers@),
                cn == centers@.len(),
                n == counties@.len(),
                i < cn,
                t <= tn,
                tn == cands@.len(),
                m.wf(),
                c == centers@[i as int],
                point == center_point(c),
                cands@.no_duplicates(),
                forall|tt: int|
                    0 <= tt < cands@.len() ==> ((#[trigger] cands@[tt]) as int) < counties@.len(),
                forall|id: Seq<char>|
                    #[trigger] m@.dom().contains(id) <==> (join_hit(
                        counties@,
                        centers@,
                        id,
                        i as int,
                    ) || scan_hit_idx(counties@, cands@, id, point, t as int)),
                forall|id: Seq<char>|
                    #[trigger] m@.dom().contains(id) ==> m@[id] == join_total(
                        counties@,
                        centers@,
                        id,
                        i as int,
                    ) + c.population * covered_count_idx(counties@, cands@, id, point, t as int),
            decreases tn - t,
        {
            let jx = cands[t];
            let county = &counties[jx];
            if county.contains(point) {
                let ghost m_old = m@;
                proof {
                    lemma_idx_count_le(counties@, cands@, county.id@, point, t as int);
                    lemma_add_fits(
                        counties@,
                        centers@,
                        county.id@,
                        i as int,
                        covered_count_idx(counties@, cands@, county.id@, point, t as int),
                    );
                }
                m.add_weight(&county.id, c.population);
                proof {
                    lemma_step_hit_idx(
                        counties@,
                        centers@,
                        i as int,
                        point,
                        cands@,
                        t as int,
                        m_old,
                        m@,
                    );
                }
            } else {
                proof {
                    lemma_step_miss_idx(counties@, cands@, point, t as int);
                }
            }
            t = t + 1;
        }
        proof {
            assert forall|j: int|
                0 <= j < counties@.len() && ring_covers(
                    (#[trigger] counties@[j]).coords@,
                    point,
                ) implies cands@.contains(j as usize) by {
                lemma_covers_in_env(counties@[j], point);
            }
            lemma_candidates_complete(counties@, cands@, point);
            lemma_center_step(counties@, centers@, i as int);
        }
        i = i + 1;
    }
    m
}

/// Hierarchically-pruned strategy: group polygons by parent key, skip whole
/// parent groups whose merged envelope misses the point, and apply the
/// envelope-plus-exact test within surviving groups.  A polygon id without a
/// parent separator aborts the run.  The per-parent envelopes are supplied
/// by the caller; soundness of the pruning needs each polygon's envelope to
/// lie inside its parent's, which is what merging the children produces.
pub fn do_loop_with_state_envelopes(
    centers: &Vec<PopCenter>,
    counties: &Vec<Polygon>,
    state_envelopes: &Vec<(String, Envelope)>,
) -> (r: Result<WeightMap, crate::GeoError>)
    requires
        join_inputs_ok(counties@, centers@),
        forall|a: int, b: int|
            0 <= a < b < state_envelopes@.len() ==> state_envelopes@[a].0@
                != state_envelopes@[b].0@,
        forall|k: int|
            0 <= k < counties@.len() && crate::utils::spec_has_sep((#[trigger] counties@[k]).id@)
                ==> exists|g: int|
                0 <= g < state_envelopes@.len() && (#[trigger] state_envelopes@[g]).0@
                    == crate::utils::spec_state_of(counties@[k].id@) && crate::models::spec_env_covers(
                    state_envelopes@[g].1,
                    counties@[k].envelope,
                ),
    ensures
        match r {
            Ok(m) => {
                &&& m.wf()
                &&& join_result(counties@, centers@, m@)
                &&& forall|k: int|
                    0 <= k < counties@.len() ==> crate::utils::spec_has_sep(
                        (#[trigger] counties@[k]).id@,
                    )
            },
            Err(e) => e == crate::GeoError::MissingStateId && exists|k: int|
                0 <= k < counties@.len() && !crate::utils::spec_has_sep(
                    (#[trigger] counties@[k]).id@,
                ),
        },
{
    let groups = match crate::utils::build_state_id_to_counties(counties) {
        Ok(groups) => groups,
        Err(e) => {
            return Err(e);
        },
    };
    let mut m = WeightMap::new();
    let cn = centers.len();
    let n = counties.len();
    let en = state_envelopes.len();
    let mut i: usize = 0;
    while i < cn
        invariant
            join_inputs_ok(counties@, centers@),
            cn == centers@.len(),
            n == counties@.len(),
            en == state_envelopes@.len(),
            i <= cn,
            m.wf(),
            forall|k: int| 0 <= k < counties@.len() ==> crate::utils::spec_has_sep((#[trigger] counties@[k]).id@),
            forall|a: int, b: int|
                0 <= a < b < groups@.len() ==> groups@[a].0@ != groups@[b].0@,
            forall|g: int|
                0 <= g < groups@.len() ==> (#[trigger] groups@[g].1)@ == crate::utils::group_idx_upto(
                    counties@,
                    groups@[g].0@,
                    counties@.len() as int,
                ),
            crate::utils::sids_all_present(counties@, groups@, counties@.len() as int),
            forall|a: int, b: int|
                0 <= a < b < state_envelopes@.len() ==> state_envelopes@[a].0@
                    != state_envelopes@[b].0@,
            forall|k: int|
                0 <= k < counties@.len() && crate::utils::spec_has_sep((#[trigger] counties@[k]).id@)
                    ==> exists|g: int|
                    0 <= g < state_envelopes@.len() && (#[trigger] state_envelopes@[g]).0@
                        == crate::utils::spec_state_of(counties@[k].id@)
                        && crate::models::spec_env_covers(
                        state_envelopes@[g].1,
                        counties@[k].envelope,
                    ),
            forall|id: Seq<char>|
                #[trigger] m@.dom().contains(id) <==> join_hit(counties@, centers@, id, i as int),
            forall|id: Seq<char>|
                #[trigger] m@.dom().contains(id) ==> m@[id] == join_total(
                    counties@,
                    centers@,
                    id,
                    i as int,
                ),
        decreases cn - i,
    {
        let c = centers[i];
        let point = c.as_point();
        let mut cands: Vec<usize> = Vec::new();
        let mut e: usize = 0;
        while e < en
            invariant
                join_inputs_ok(counties@, centers@),
                n == counties@.len(),
                en == state_envelopes@.len(),
                e <= en,
                point == center_point(centers@[i as int]),
                i < cn,
                cn == centers@.len(),
                forall|k: int|
                    0 <= k < counties@.len() ==> crate::utils::spec_has_sep(
                        (#[trigger] counties@[k]).id@,
                    ),
                forall|a: int, b: int|
                    0 <= a < b < groups@.len() ==> groups@[a].0@ != groups@[b].0@,
                forall|g: int|
                    0 <= g < groups@.len() ==> (#[trigger] groups@[g].1)@
                        == crate::utils::group_idx_upto(
                        counties@,
                        groups@[g].0@,
                        counties@.len() as int,
                    ),
                crate::utils::sids_all_present(counties@, groups@, counties@.len() as int),
                forall|a: int, b: int|
                    0 <= a < b < state_envelopes@.len() ==> state_envelopes@[a].0@
                        != state_envelopes@[b].0@,
                forall|k: int|
                    0 <= k < counties@.len() && crate::utils::spec_has_sep(
                        (#[trigger] counties@[k]).id@,
                    ) ==> exists|g: int|
                        0 <= g < state_envelopes@.len() && (#[trigger] state_envelopes@[g]).0@
                            == crate::utils::spec_state_of(counties@[k].id@)
                            && crate::models::spec_env_covers(
                            state_envelopes@[g].1,
                            counties@[k].envelope,
                        ),
                cands@.no_duplicates(),
                forall|tt: int|
                    0 <= tt < cands@.len() ==> ((#[trigger] cands@[tt]) as int) < counties@.len(),
                sids_settled(counties@, state_envelopes@, cands@, e as int),
                processed_covered_in(counties@, state_envelopes@, cands@, point, e as int),
            decreases en - e,
        {
            let entry = &state_envelopes[e];
            let ghost pre_cands = cands@;
            let ghost key = state_envelopes@[e as int].0@;
            if entry.1.contains(point) {
                match crate::utils::group_key_pos(&groups, &entry.0) {
                    Some(g) => {
                        let grp = &groups[g];
                        let gn = grp.1.len();
                        proof {
                            crate::utils::lemma_group_idx_membership(
                                counties@,
                                grp.0@,
                                counties@.len() as int,
                            );
                            assert(grp.0@ == key);
                        }
                        let mut tt: usize = 0;
                        while tt < gn
                            invariant
                                n == counties@.len(),
                                tt <= gn,
                                gn == grp.1@.len(),
                                grp.1@.no_duplicates(),
                                forall|u: usize|
                                    grp.1@.contains(u) <==> ((u as int) < counties@.len()
                                        && crate::utils::hit_sid(counties@, grp.0@, u as int)),
                                forall|v: int|
                                    0 <= v < grp.1@.len() ==> ((#[trigger] grp.1@[v]) as int)
                                        < counties@.len(),
                                cands@ =~= pre_cands + grp.1@.subrange(0, tt as int),
                            decreases gn - tt,
                        {
                            cands.push(grp.1[tt]);
                            proof {
                                assert(cands@ =~= pre_cands + grp.1@.subrange(0, tt as int + 1));
                            }
                            tt = tt + 1;
                        }
                        proof {
                            assert(cands@ =~= pre_cands + grp.1@);
                            assert(sids_settled(counties@, state_envelopes@, pre_cands, e as int));
                            // New members carry the current key; no earlier candidate does.
                            assert forall|v: int|
                                0 <= v < pre_cands.len() implies !crate::utils::hit_sid(
                                counties@,
                                grp.0@,
                                (#[trigger] pre_cands[v]) as int,
                            ) by {
                                assert(state_envelopes@[e as int].0@
                                    != crate::utils::spec_state_of(
                                    counties@[pre_cands[v] as int].id@,
                                ) || !(e as int <= e as int));
                            }
                            assert forall|u: usize|
                                #[trigger] grp.1@.contains(u) implies !pre_cands.contains(u) by {
                                if pre_cands.contains(u) {
                                    let w = choose|w: int|
                                        0 <= w < pre_cands.len() && pre_cands[w] == u;
                                    assert(!crate::utils::hit_sid(counties@, grp.0@, u as int));
                                }
                            }
                            assert(cands@.no_duplicates()) by {
                                assert forall|a: int, b: int|
                                    0 <= a < b < cands@.len() implies cands@[a] != cands@[b] by {
                                    if a < pre_cands.len() && b >= pre_cands.len() {
                                        assert(grp.1@.contains(cands@[b]));
                                    }
                                }
                            }
                            assert(sids_settled(
                                counties@,
                                state_envelopes@,
                                cands@,
                                e as int + 1,
                            )) by {
                                assert forall|v: int, g2: int|
                                    0 <= v < cands@.len() && e as int + 1 <= g2
                                        < state_envelopes@.len() implies (
                                    #[trigger] state_envelopes@[g2]).0@
                                    != crate::utils::spec_state_of(
                                    counties@[(#[trigger] cands@[v]) as int].id@,
                                ) by {
                                    if v < pre_cands.len() {
                                        assert(cands@[v] == pre_cands[v]);
                                    } else {
                                        assert(grp.1@.contains(cands@[v]));
                                        assert(crate::utils::spec_state_of(
                                            counties@[cands@[v] as int].id@,
                                        ) == key);
                                    }
                                }
                            }
                            assert(processed_covered_in(
                                counties@,
                                state_envelopes@,
                                cands@,
                                point,
                                e as int + 1,
                            )) by {
                                assert forall|j: int, g2: int|
                                    0 <= j < counties@.len() && ring_covers(
                                        (#[trigger] counties@[j]).coords@,
                                        point,
                                    ) && 0 <= g2 < e as int + 1 && (
                                    #[trigger] state_envelopes@[g2]).0@
                                        == crate::utils::spec_state_of(counties@[j].id@)
                                        implies cands@.contains(j as usize) by {
                                    if g2 < e as int {
                                        assert(pre_cands.contains(j as usize));
                                        let w = choose|w: int|
                                            0 <= w < pre_cands.len() && pre_cands[w]
                                                == j as usize;
                                        assert(cands@[w] == j as usize);
                                    } else {
                                        assert(crate::utils::hit_sid(counties@, grp.0@, j));
                                        assert(grp.1@.contains(j as usize));
                                        let w = choose|w: int|
                                            0 <= w < grp.1@.len() && grp.1@[w] == j as usize;
                                        assert(cands@[pre_cands.len() + w] == j as usize);
                                    }
                                }
                            }
                        }
                    },
                    None => {
                        proof {
                            assert(processed_covered_in(
                                counties@,
                                state_envelopes@,
                                cands@,
                                point,
                                e as int + 1,
                            )) by {
                                assert forall|j: int, g2: int|
                                    0 <= j < counties@.len() && ring_covers(
                                        (#[trigger] counties@[j]).coords@,
                                        point,
                                    ) && 0 <= g2 < e as int + 1 && (
                                    #[trigger] state_envelopes@[g2]).0@
                                        == crate::utils::spec_state_of(counties@[j].id@)
                                        implies cands@.contains(j as usize) by {
                                    if g2 == e as int {
                                        let gw = choose|gw: int|
                                            0 <= gw < groups@.len() && (#[trigger] groups@[gw]).0@
                                                == crate::utils::spec_state_of(
                                                counties@[j].id@,
                                            );
                                        assert(groups@[gw].0@ == key);
                                    }
                                }
                            }
                        }
                    },
                }
            } else {
                proof {
                    assert(processed_covered_in(
                        counties@,
                        state_envelopes@,
                        cands@,
                        point,
                        e as int + 1,
                    )) by {
                        assert forall|j: int, g2: int|
                            0 <= j < counties@.len() && ring_covers(
                                (#[trigger] counties@[j]).coords@,
                                point,
                            ) && 0 <= g2 < e as int + 1 && (#[trigger] state_envelopes@[g2]).0@
                                == crate::utils::spec_state_of(counties@[j].id@)
                                implies cands@.contains(j as usize) by {
                            if g2 == e as int {
                                lemma_covers_in_env(counties@[j], point);
                                let gc = choose|gc: int|
                                    0 <= gc < state_envelopes@.len() && (
                                    #[trigger] state_envelopes@[gc]).0@
                                        == crate::utils::spec_state_of(counties@[j].id@)
                                        && crate::models::spec_env_covers(
                                        state_envelopes@[gc].1,
                                        counties@[j].envelope,
                                    );
                                assert(gc == e as int);
                                assert(spec_env_contains(state_envelopes@[e as int].1, point));
                            }
                        }
                    }
                }
            }
            e = e + 1;
        }
        proof {
            assert forall|j: int|
                0 <= j < counties@.len() && ring_covers(
                    (#[trigger] counties@[j]).coords@,
                    point,
                ) implies cands@.contains(j as usize) by {
                assert(crate::utils::spec_has_sep(counties@[j].id@));
                let g0 = choose|g: int|
                    0 <= g < state_envelopes@.len() && (#[trigger] state_envelopes@[g]).0@
                        == crate::utils::spec_state_of(counties@[j].id@)
                        && crate::models::spec_env_covers(
                        state_envelopes@[g].1,
                        counties@[j].envelope,
                    );
            }
        }
        let tn = cands.len();
        let mut t: usize = 0;
        while t < tn
            invariant
                join_inputs_ok(counties@, centers@),
                cn == centers@.len(),
                n == counties@.len(),
                i < cn,
                t <= tn,
                tn == cands@.len(),
                m.wf(),
                c == centers@[i as int],
                point == center_point(c),
                cands@.no_duplicates(),
                forall|tt: int|
                    0 <= tt < cands@.len() ==> ((#[trigger] cands@[tt]) as int) < counties@.len(),
                forall|j: int|
                    0 <= j < counties@.len() && ring_covers((#[trigger] counties@[j]).coords@, point)
                        ==> cands@.contains(j as usize),
                forall|id: Seq<char>|
                    #[trigger] m@.dom().contains(id) <==> (join_hit(
                        counties@,
                        centers@,
                        id,
                        i as int,
                    ) || scan_hit_idx(counties@, cands@, id, point, t as int)),
                forall|id: Seq<char>|
                    #[trigger] m@.dom().contains(id) ==> m@[id] == join_total(
                        counties@,
                        centers@,
                        id,
                        i as int,
                    ) + c.population * covered_count_idx(counties@, cands@, id, point, t as int),
            decreases tn - t,
        {
            let jx = cands[t];
            let county = &counties[jx];
            if county.envelope.contains(point) && county.contains(point) {
                let ghost m_old = m@;
                proof {
                    lemma_idx_count_le(counties@, cands@, county.id@, point, t as int);
                    lemma_add_fits(
                        counties@,
                        centers@,
                        county.id@,
                        i as int,
                        covered_count_idx(counties@, cands@, county.id@, point, t as int),
                    );
                }
                m.add_weight(&county.id, c.population);
                proof {
                    lemma_step_hit_idx(
                        counties@,
                        centers@,
                        i as int,
                        point,
                        cands@,
                        t as int,
                        m_old,
                        m@,
                    );
                }
            } else {
                proof {
                    if !spec_env_contains(county.envelope, point) {
                        crate::models::lemma_outside_envelope_not_covered(county.coords@, point);
                    }
                    lemma_step_miss_idx(counties@, cands@, point, t as int);
                }
            }
            t = t + 1;
        }
        proof {
            lemma_candidates_complete(counties@, cands@, point);
            lemma_center_step(counties@, centers@, i as int);
        }
        i = i + 1;
    }
    Ok(m)
}


} // verus!
