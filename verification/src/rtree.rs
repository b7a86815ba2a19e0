//! The spatial index: a bounding-box tree bulk-loaded once from the static
//! polygon collection and queried many times with a single point.  The tree
//! itself comes from the rstar crate; the library stores each polygon's
//! envelope under its position and keeps the exact containment test on its
//! own side.

use crate::models::{spec_env_contains, Point, Polygon};
use vstd::prelude::*;

verus! {

/// An immutable bounding-box tree over polygon envelopes, keyed by the
/// polygon's position in the collection it was built from.
#[verifier::external_body]
pub struct SpatialIndex {
    tree: rstar::RTree<
        rstar::primitives::GeomWithData<rstar::primitives::Rectangle<[i64; 2]>, usize>,
    >,
}

/// What the tree holds: for each stored position, the loaded envelope as
/// plain bounds (min_x, min_y, max_x, max_y).
pub uninterp spec fn index_entries(t: SpatialIndex) -> Map<usize, (i64, i64, i64, i64)>;

/// Inclusive containment of a point in stored bounds: exactly rstar's
/// intersection test between a rectangle and a one-point envelope.
pub open spec fn bounds_contain(b: (i64, i64, i64, i64), x: i64, y: i64) -> bool {
    b.0 <= x <= b.2 && b.1 <= y <= b.3
}

/// Relies on rstar::RTree::bulk_load: the returned tree stores exactly the
/// given elements.  rstar::primitives::Rectangle::from_corners keeps the two
/// corners as given because each envelope here is already ordered per axis.
#[verifier::external_body]
fn index_bulk_load(polygons: &Vec<Polygon>) -> (t: SpatialIndex)
    requires
        forall|i: int|
            0 <= i < polygons@.len() ==> (#[trigger] polygons@[i]).envelope.min_x
                <= polygons@[i].envelope.max_x && polygons@[i].envelope.min_y
                <= polygons@[i].envelope.max_y,
    ensures
        forall|i: usize| index_entries(t).dom().contains(i) <==> (i as int) < polygons@.len(),
        forall|i: usize|
            (i as int) < polygons@.len() ==> index_entries(t)[i] == ((
            #[trigger] polygons@[i as int].envelope.min_x,
            polygons@[i as int].envelope.min_y,
            polygons@[i as int].envelope.max_x,
            polygons@[i as int].envelope.max_y,
            )),
{
    let mut items = Vec::with_capacity(polygons.len());
    for (i, p) in polygons.iter().enumerate() {
        items.push(rstar::primitives::GeomWithData::new(
            rstar::primitives::Rectangle::from_corners(
                [p.envelope.min_x, p.envelope.min_y],
                [p.envelope.max_x, p.envelope.max_y],
            ),
            i,
        ));
    }
    SpatialIndex { tree: rstar::RTree::bulk_load(items) }
}

/// Relies on rstar::RTree::locate_in_envelope_intersecting, queried with a
/// one-point envelope: it yields each stored element whose rectangle
/// intersects the point (all bounds inclusive), and no other, once each.
#[verifier::external_body]
pub(crate) fn index_locate(t: &SpatialIndex, x: i64, y: i64) -> (r: Vec<usize>)
    ensures
        r@.no_duplicates(),
        forall|i: usize|
            #[trigger] r@.contains(i) <==> (index_entries(*t).dom().contains(i) && bounds_contain(
                index_entries(*t)[i],
                x,
                y,
            )),
{
    t.tree.locate_in_envelope_intersecting(rstar::AABB::from_point([x, y])).map(
        |g| g.data,
    ).collect()
}

/// The tree was built over exactly these polygons' envelopes.
pub open spec fn index_matches(t: SpatialIndex, polys: Seq<Polygon>) -> bool {
    &&& forall|i: usize| index_entries(t).dom().contains(i) <==> (i as int) < polys.len()
    &&& forall|i: usize|
        (i as int) < polys.len() ==> index_entries(t)[i] == ((
        #[trigger] polys[i as int].envelope.min_x,
        polys[i as int].envelope.min_y,
        polys[i as int].envelope.max_x,
        polys[i as int].envelope.max_y,
        ))
}

/// Bulk-load the index once over the whole collection.
pub fn build_rtree(polygons: &Vec<Polygon>) -> (t: SpatialIndex)
    requires
        forall|i: int| 0 <= i < polygons@.len() ==> (#[trigger] polygons@[i]).wf(),
    ensures
        index_matches(t, polygons@),
{
    proof {
        assert forall|i: int|
            0 <= i < polygons@.len() implies (#[trigger] polygons@[i]).envelope.min_x
            <= polygons@[i].envelope.max_x && polygons@[i].envelope.min_y
            <= polygons@[i].envelope.max_y by {
            crate::models::lemma_env_of_covers(polygons@[i].coords@, 0);
        }
    }
    index_bulk_load(polygons)
}

/// The candidate positions for a query point: exactly the stored polygons
/// whose envelope contains the point — a superset of the true containers,
/// to be filtered by the exact test.
pub fn query_candidates(t: &SpatialIndex, p: Point, Ghost(polys): Ghost<Seq<Polygon>>) -> (r: Vec<
    usize,
>)
    requires
        index_matches(*t, polys),
    ensures
        r@.no_duplicates(),
        forall|i: usize|
            #[trigger] r@.contains(i) <==> (i as int) < polys.len() && spec_env_contains(
                polys[i as int].envelope,
                p,
            ),
{
    index_locate(t, p.x, p.y)
}

} // verus!
