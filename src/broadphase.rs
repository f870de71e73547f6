use vstd::prelude::*;

use crate::kernel::Kernel;
use crate::polygon::{view_of, Polygon, PolygonView};
use crate::side::{negate, Sign};

verus! {

/// The vertex lists of the polygons, in order.
pub open spec fn vertex_lists<K: Kernel>(polygons: Seq<Polygon<K>>) -> Seq<Seq<K::Vertex>> {
    polygons.map_values(|p: Polygon<K>| p.vertices@)
}

/// `b` grown by each of the vertices in turn.
pub open spec fn grown<K: Kernel>(b: K::Bounds, vs: Seq<K::Vertex>) -> K::Bounds
    decreases vs.len(),
{
    if vs.len() == 0 { b } else { K::spec_grow_bounds(grown::<K>(b, vs.drop_last()), vs.last()) }
}

/// The box around every vertex of the lists: the empty box grown by each
/// vertex, list by list.
pub open spec fn bounds_of<K: Kernel>(lists: Seq<Seq<K::Vertex>>) -> K::Bounds
    decreases lists.len(),
{
    if lists.len() == 0 { K::spec_empty_bounds() } else { grown::<K>(bounds_of::<K>(lists.drop_last()), lists.last()) }
}

/// The box around every vertex of the polygons.
pub fn polygon_bounds<K: Kernel>(polygons: &Vec<Polygon<K>>) -> (r: K::Bounds)
    ensures
        r == bounds_of::<K>(vertex_lists(polygons@)),
{
    let mut b = K::empty_bounds();
    let ghost lists = vertex_lists(polygons@);
    let mut i: usize = 0;
    while i < polygons.len()
        invariant
            i <= polygons@.len(),
            lists == vertex_lists(polygons@),
            b == bounds_of::<K>(lists.subrange(0, i as int)),
        decreases polygons@.len() - i,
    {
        let vs = &polygons[i].vertices;
        let ghost start = b;
        let mut j: usize = 0;
        while j < vs.len()
            invariant
                j <= vs@.len(),
                b == grown::<K>(start, vs@.subrange(0, j as int)),
            decreases vs@.len() - j,
        {
            proof {
                let pre = vs@.subrange(0, j + 1);
                assert(pre.drop_last() =~= vs@.subrange(0, j as int));
                assert(pre.last() == vs@[j as int]);
            }
            b = K::grow_bounds(&b, &vs[j]);
            j = j + 1;
        }
        proof {
            assert(vs@.subrange(0, vs@.len() as int) =~= vs@);
            let pre = lists.subrange(0, i + 1);
            assert(pre.drop_last() =~= lists.subrange(0, i as int));
            assert(pre.last() == vs@);
        }
        i = i + 1;
    }
    proof {
        assert(lists.subrange(0, polygons@.len() as int) =~= lists);
    }
    b
}

/// The nearest of the hits, scanning in order: a hit replaces the nearest
/// so far only when strictly nearer, so ties keep the first.
pub open spec fn nearest<K: Kernel>(hits: Seq<Option<K::Hit>>) -> Option<K::Hit>
    decreases hits.len(),
{
    if hits.len() == 0 {
        None
    } else {
        let r = nearest::<K>(hits.drop_last());
        match hits.last() {
            None => r,
            Some(h) => match r {
                None => Some(h),
                Some(b) => if K::spec_nearer(h, b) { Some(h) } else { r },
            },
        }
    }
}

/// Like [`nearest`], with the index of the hit that is picked.
pub open spec fn nearest_index<K: Kernel>(hits: Seq<Option<K::Hit>>) -> Option<(usize, K::Hit)>
    decreases hits.len(),
{
    if hits.len() == 0 {
        None
    } else {
        let r = nearest_index::<K>(hits.drop_last());
        let i = (hits.len() - 1) as usize;
        match hits.last() {
            None => r,
            Some(h) => match r {
                None => Some((i, h)),
                Some(b) => if K::spec_nearer(h, b.1) { Some((i, h)) } else { r },
            },
        }
    }
}

/// Whether the ray meets the box: it does unless the box lies behind its
/// origin or the slabs do not overlap along it.
pub open spec fn meets_bounds<K: Kernel>(ray: K::Ray, bounds: K::Bounds) -> bool {
    !K::spec_exit_behind(ray, bounds) && !K::spec_slab_gap(ray, bounds)
}

/// The point lies inside every edge of the polygon `vs`, taken round it.
pub open spec fn within_all_edges<K: Kernel>(surface: K::Surface, flipped: bool, vs: Seq<K::Vertex>, point: K::Point) -> bool {
    forall|i: int| 0 <= i < vs.len() ==> K::spec_within_edge(surface, flipped, #[trigger] vs[i], vs[if i + 1 < vs.len() { i + 1 } else { 0 }], point)
}

/// The hit of the ray on a polygon: none for a polygon of fewer than three
/// vertices, one facing away from the ray or edge on, or one whose plane the
/// ray meets behind its origin; otherwise the hit at the point where the
/// ray meets its plane, when that point lies on the plane and inside every
/// edge.
pub open spec fn polygon_hit<K: Kernel>(ray: K::Ray, pv: PolygonView<K>) -> Option<K::Hit> {
    let vs = pv.0;
    let plane = pv.1;
    let raw = K::spec_approach(ray, plane.surface);
    let approach = if plane.flipped { negate(raw) } else { raw };
    if vs.len() < 3 || approach != Sign::Negative {
        None
    } else if K::spec_reach(ray, plane.surface, vs[0]) == Sign::Negative {
        None
    } else {
        let p = K::spec_landing(ray, plane.surface, vs[0]);
        if K::spec_on_plane(plane.surface, vs[0], p) && within_all_edges::<K>(plane.surface, plane.flipped, vs, p) {
            Some(K::spec_make_hit(ray, plane.surface, plane.flipped, vs[0]))
        } else {
            None
        }
    }
}

/// The hit of the ray on each polygon.
pub open spec fn polygon_hits<K: Kernel>(ray: K::Ray, polygons: Seq<Polygon<K>>) -> Seq<Option<K::Hit>> {
    polygons.map_values(|p: Polygon<K>| polygon_hit::<K>(ray, view_of(p)))
}

/// Whether the ray meets the box.
pub fn hits_bounds<K: Kernel>(ray: &K::Ray, bounds: &K::Bounds) -> (r: bool)
    ensures
        r == meets_bounds::<K>(*ray, *bounds),
{
    !K::exit_behind(ray, bounds) && !K::slab_gap(ray, bounds)
}

/// The hit of the ray on the front of a polygon, as [`polygon_hit`] says.
pub fn cast_against_polygon<K: Kernel>(ray: &K::Ray, polygon: &Polygon<K>) -> (r: Option<K::Hit>)
    ensures
        r == polygon_hit::<K>(*ray, view_of(*polygon)),
{
    let vs = &polygon.vertices;
    let plane = &polygon.plane;
    let n = vs.len();
    if n < 3 {
        return None;
    }
    let raw = K::approach(ray, &plane.surface);
    let approach = if plane.flipped { raw.negated() } else { raw };
    if !matches!(approach, Sign::Negative) {
        return None;
    }
    if matches!(K::reach(ray, &plane.surface, &vs[0]), Sign::Negative) {
        return None;
    }
    let p = K::landing(ray, &plane.surface, &vs[0]);
    if !K::on_plane(&plane.surface, &vs[0], &p) {
        return None;
    }
    let mut i: usize = 0;
    while i < n
        invariant
            n == vs@.len(),
            n >= 3,
            i <= n,
            *vs == polygon.vertices,
            *plane == polygon.plane,
            (if plane.flipped { negate(K::spec_approach(*ray, plane.surface)) } else { K::spec_approach(*ray, plane.surface) }) == Sign::Negative,
            K::spec_reach(*ray, plane.surface, vs@[0]) != Sign::Negative,
            p == K::spec_landing(*ray, plane.surface, vs@[0]),
            K::spec_on_plane(plane.surface, vs@[0], p),
            forall|k: int| 0 <= k < i ==> K::spec_within_edge(plane.surface, plane.flipped, #[trigger] vs@[k], vs@[if k + 1 < n { k + 1 } else { 0 }], p),
        decreases n - i,
    {
        let j: usize = if i + 1 < n { i + 1 } else { 0 };
        if !K::within_edge(&plane.surface, plane.flipped, &vs[i], &vs[j], &p) {
            proof {
                assert(!K::spec_within_edge(plane.surface, plane.flipped, vs@[i as int], vs@[if i + 1 < n { i + 1 } else { 0 }], p));
                assert(!within_all_edges::<K>(plane.surface, plane.flipped, vs@, p));
            }
            return None;
        }
        i = i + 1;
    }
    proof {
        assert(within_all_edges::<K>(plane.surface, plane.flipped, vs@, p));
    }
    Some(K::make_hit(ray, &plane.surface, plane.flipped, &vs[0]))
}

pub proof fn lemma_nearest_step<K: Kernel>(hits: Seq<Option<K::Hit>>, i: int)
    requires
        0 <= i < hits.len(),
    ensures
        nearest::<K>(hits.subrange(0, i + 1)) == (match hits[i] {
            None => nearest::<K>(hits.subrange(0, i)),
            Some(h) => match nearest::<K>(hits.subrange(0, i)) {
                None => Some(h),
                Some(b) => if K::spec_nearer(h, b) { Some(h) } else { nearest::<K>(hits.subrange(0, i)) },
            },
        }),
        nearest_index::<K>(hits.subrange(0, i + 1)) == (match hits[i] {
            None => nearest_index::<K>(hits.subrange(0, i)),
            Some(h) => match nearest_index::<K>(hits.subrange(0, i)) {
                None => Some((i as usize, h)),
                Some(b) => if K::spec_nearer(h, b.1) { Some((i as usize, h)) } else { nearest_index::<K>(hits.subrange(0, i)) },
            },
        }),
{
    let s = hits.subrange(0, i + 1);
    assert(s.drop_last() =~= hits.subrange(0, i));
    assert(s.last() == hits[i]);
}

/// The nearest hit of the ray on the polygons; among equally near hits the
/// first one found stays.
pub fn cast_against_polygons<K: Kernel>(ray: &K::Ray, polygons: &Vec<Polygon<K>>) -> (r: Option<K::Hit>)
    ensures
        r == nearest::<K>(polygon_hits(*ray, polygons@)),
{
    let ghost hits = polygon_hits(*ray, polygons@);
    let mut closest: Option<K::Hit> = None;
    let mut i: usize = 0;
    while i < polygons.len()
        invariant
            i <= polygons@.len(),
            hits == polygon_hits(*ray, polygons@),
            closest == nearest::<K>(hits.subrange(0, i as int)),
        decreases polygons@.len() - i,
    {
        proof {
            lemma_nearest_step::<K>(hits, i as int);
        }
        match cast_against_polygon(ray, &polygons[i]) {
            Some(hit) => {
                let better = match &closest {
                    Some(best) => K::nearer(&hit, best),
                    None => true,
                };
                if better {
                    closest = Some(hit);
                }
            },
            None => {},
        }
        i = i + 1;
    }
    proof {
        assert(hits.subrange(0, polygons@.len() as int) =~= hits);
    }
    closest
}

} // verus!
