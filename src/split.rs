use vstd::prelude::*;

use crate::side::{join, join_all, classify_all, PolygonType, Sign};

verus! {

/// One vertex of a fragment produced by splitting a polygon: either one of
/// the polygon's vertices, kept as it is, or the point where an edge crosses the
/// splitting plane.
#[derive(Clone, Copy, Debug, PartialEq, Eq, Structural)]
pub enum Corner {
    /// The vertex at this index.
    Keep(usize),
    /// The crossing of the edge from the first index to the second.
    Cut(usize, usize),
}

/// Where a polygon goes when it is split by a plane.
#[derive(Debug)]
pub enum Route {
    /// On the plane, facing the same way.
    CoplanarFront,
    /// On the plane, facing the other way.
    CoplanarBack,
    /// Wholly in front.
    Front,
    /// Wholly behind.
    Back,
    /// Across the plane: the corners of the front and back fragments. A
    /// fragment with fewer than three corners has no area and is left empty.
    Spanning { front: Vec<Corner>, back: Vec<Corner> },
}

/// The index that follows `i` around a polygon of `n` vertices.
pub open spec fn next_index(i: int, n: int) -> int {
    if i + 1 < n { i + 1 } else { 0 }
}

/// The corners that the edge starting at vertex `i` adds to the front fragment.
pub open spec fn edge_front(ts: Seq<PolygonType>, i: int) -> Seq<Corner> {
    let j = next_index(i, ts.len() as int);
    let keep = if ts[i] != PolygonType::Back { seq![Corner::Keep(i as usize)] } else { seq![] };
    if join(ts[i], ts[j]) == PolygonType::Spanning {
        keep.push(Corner::Cut(i as usize, j as usize))
    } else {
        keep
    }
}

/// The corners that the edge starting at vertex `i` adds to the back fragment.
pub open spec fn edge_back(ts: Seq<PolygonType>, i: int) -> Seq<Corner> {
    let j = next_index(i, ts.len() as int);
    let keep = if ts[i] != PolygonType::Front { seq![Corner::Keep(i as usize)] } else { seq![] };
    if join(ts[i], ts[j]) == PolygonType::Spanning {
        keep.push(Corner::Cut(i as usize, j as usize))
    } else {
        keep
    }
}

/// The front corners contributed by the first `k` edges.
pub open spec fn front_corners(ts: Seq<PolygonType>, k: int) -> Seq<Corner>
    decreases k,
{
    if k <= 0 { seq![] } else { front_corners(ts, k - 1) + edge_front(ts, k - 1) }
}

/// The back corners contributed by the first `k` edges.
pub open spec fn back_corners(ts: Seq<PolygonType>, k: int) -> Seq<Corner>
    decreases k,
{
    if k <= 0 { seq![] } else { back_corners(ts, k - 1) + edge_back(ts, k - 1) }
}

/// A fragment keeps its corners only when it has at least three.
pub open spec fn with_area(cs: Seq<Corner>) -> Seq<Corner> {
    if cs.len() >= 3 { cs } else { seq![] }
}

/// The route of a polygon whose vertices are classified `ts` and whose
/// normal has the sign `facing` against the splitting plane's normal.
pub open spec fn route_matches(ts: Seq<PolygonType>, facing: Sign, r: Route) -> bool {
    match join_all(ts) {
        PolygonType::Coplanar => if facing == Sign::Positive {
            r is CoplanarFront
        } else {
            r is CoplanarBack
        },
        PolygonType::Front => r is Front,
        PolygonType::Back => r is Back,
        PolygonType::Spanning => match r {
            Route::Spanning { front, back } => {
                &&& front@ == with_area(front_corners(ts, ts.len() as int))
                &&& back@ == with_area(back_corners(ts, ts.len() as int))
            },
            _ => false,
        },
    }
}

/// Every corner of `cs` names vertices below `n`.
pub open spec fn corners_below(cs: Seq<Corner>, n: int) -> bool {
    forall|k: int| 0 <= k < cs.len() ==> match #[trigger] cs[k] {
        Corner::Keep(i) => i < n,
        Corner::Cut(i, j) => i < n && j < n,
    }
}

proof fn lemma_corners_below(ts: Seq<PolygonType>, k: int)
    requires
        0 <= k <= ts.len(),
    ensures
        corners_below(front_corners(ts, k), ts.len() as int),
        corners_below(back_corners(ts, k), ts.len() as int),
    decreases k,
{
    if k > 0 {
        lemma_corners_below(ts, k - 1);
        let f = front_corners(ts, k - 1);
        let b = back_corners(ts, k - 1);
        assert forall|m: int| 0 <= m < front_corners(ts, k).len() implies match #[trigger] front_corners(ts, k)[m] {
            Corner::Keep(i) => i < ts.len(),
            Corner::Cut(i, j) => i < ts.len() && j < ts.len(),
        } by {
            if m < f.len() {
                assert(front_corners(ts, k)[m] == f[m]);
            }
        }
        assert forall|m: int| 0 <= m < back_corners(ts, k).len() implies match #[trigger] back_corners(ts, k)[m] {
            Corner::Keep(i) => i < ts.len(),
            Corner::Cut(i, j) => i < ts.len() && j < ts.len(),
        } by {
            if m < b.len() {
                assert(back_corners(ts, k)[m] == b[m]);
            }
        }
    }
}

/// Decides where a polygon goes, from the classification of each of its
/// vertices and the sign of its normal against the plane's.
///
/// When the polygon spans the plane, the edges are walked in order: each
/// vertex not behind goes to the front fragment, each vertex not in front
/// to the back fragment, and each edge whose ends lie strictly on opposite
/// sides adds its crossing to both.
pub fn route_split(types: &Vec<PolygonType>, facing: Sign) -> (r: Route)
    ensures
        route_matches(types@, facing, r),
        r matches Route::Spanning { front, back } ==> corners_below(front@, types@.len() as int)
            && corners_below(back@, types@.len() as int),
{
    let n = types.len();
    match classify_all(types) {
        PolygonType::Coplanar => if matches!(facing, Sign::Positive) {
            Route::CoplanarFront
        } else {
            Route::CoplanarBack
        },
        PolygonType::Front => Route::Front,
        PolygonType::Back => Route::Back,
        PolygonType::Spanning => {
            let mut front: Vec<Corner> = Vec::new();
            let mut back: Vec<Corner> = Vec::new();
            let mut i: usize = 0;
            while i < n
                invariant
                    n == types@.len(),
                    i <= n,
                    front@ == front_corners(types@, i as int),
                    back@ == back_corners(types@, i as int),
                decreases n - i,
            {
                let j: usize = if i + 1 < n { i + 1 } else { 0 };
                let ti = types[i];
                let tj = types[j];
                let ghost f0 = front@;
                let ghost b0 = back@;
                if ti != PolygonType::Back {
                    front.push(Corner::Keep(i));
                }
                if ti != PolygonType::Front {
                    back.push(Corner::Keep(i));
                }
                if ti.combine(tj) == PolygonType::Spanning {
                    front.push(Corner::Cut(i, j));
                    back.push(Corner::Cut(i, j));
                }
                proof {
                    assert(front@ == f0 + edge_front(types@, i as int));
                    assert(back@ == b0 + edge_back(types@, i as int));
                }
                i = i + 1;
            }
            proof {
                lemma_corners_below(types@, n as int);
            }
            if front.len() < 3 {
                front = Vec::new();
            }
            if back.len() < 3 {
                back = Vec::new();
            }
            proof {
                assert(front@ == with_area(front_corners(types@, n as int)));
                assert(back@ == with_area(back_corners(types@, n as int)));
            }
            Route::Spanning { front, back }
        },
    }
}

} // verus!
