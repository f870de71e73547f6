use vstd::prelude::*;

use crate::kernel::Kernel;
use crate::side::{has_back, has_front, join_all, lemma_join_all_bits, mirror, negate, PolygonType, Sign};
use crate::split::{back_corners, corners_below, front_corners, route_split, with_area, Corner, Route};

verus! {

/// A plane quantized to integers: two surfaces with the same key are the
/// same plane, facing the same way.
#[derive(Clone, Copy, Debug, PartialEq, Eq, Structural)]
pub struct PlaneKey {
    pub nx: i64,
    pub ny: i64,
    pub nz: i64,
    pub d: i64,
}

/// An oriented plane: a raw surface, its key, and whether it is reversed.
pub struct Plane<K: Kernel> {
    pub surface: K::Surface,
    pub key: PlaneKey,
    /// When set, the plane is `surface` with its normal and distance negated.
    pub flipped: bool,
}

/// A convex planar polygon, its vertices counterclockwise as seen from the
/// side its plane faces. When the plane is flipped, the vertex normals are
/// read negated as well.
pub struct Polygon<K: Kernel> {
    pub vertices: Vec<K::Vertex>,
    pub plane: Plane<K>,
}

/// The four lists into which a plane sorts a polygon.
pub struct Split<K: Kernel> {
    pub coplanar_front: Vec<Polygon<K>>,
    pub coplanar_back: Vec<Polygon<K>>,
    pub front: Vec<Polygon<K>>,
    pub back: Vec<Polygon<K>>,
}

impl<K: Kernel> Plane<K> {
    /// The same plane facing the other way.
    pub open spec fn reversed(self) -> Plane<K> {
        Plane { surface: self.surface, key: self.key, flipped: !self.flipped }
    }

    /// The plane of `surface`, facing along its normal, keyed by the kernel.
    pub fn from_surface(surface: K::Surface) -> (r: Plane<K>)
        ensures
            r.surface == surface,
            r.key == K::spec_key(surface),
            !r.flipped,
    {
        let key = K::key(&surface);
        Plane { surface, key, flipped: false }
    }

    pub fn copy(&self) -> (r: Plane<K>)
        ensures
            r == *self,
    {
        Plane { surface: self.surface, key: self.key, flipped: self.flipped }
    }

    /// Reverses the plane's normal.
    pub fn flip(&mut self)
        ensures
            *final(self) == old(self).reversed(),
    {
        self.flipped = !self.flipped;
    }
}

/// `q` is `p` turned over: same vertices in reverse order, plane reversed.
pub open spec fn is_flip_of<K: Kernel>(q: Polygon<K>, p: Polygon<K>) -> bool {
    &&& q.vertices@ == p.vertices@.reverse()
    &&& q.plane == p.plane.reversed()
}

/// The index triples of the fan that triangulates a polygon of `n` vertices
/// from its first vertex.
pub open spec fn is_fan(r: Seq<u32>, n: int) -> bool {
    &&& r.len() == if n >= 2 { 3 * (n - 2) } else { 0 }
    &&& forall|k: int| 0 <= k < r.len() / 3 ==> {
        &&& #[trigger] r[3 * k] == 0
        &&& r[3 * k + 1] == k + 1
        &&& r[3 * k + 2] == k + 2
    }
}

impl<K: Kernel> Polygon<K> {
    /// A polygon of at least three vertices on `plane`.
    pub fn new(vertices: Vec<K::Vertex>, plane: Plane<K>) -> (r: Polygon<K>)
        requires
            vertices@.len() >= 3,
        ensures
            r.vertices == vertices,
            r.plane == plane,
    {
        Polygon { vertices, plane }
    }

    /// A copy of the polygon.
    pub fn duplicate(&self) -> (r: Polygon<K>)
        ensures
            r.vertices@ == self.vertices@,
            r.plane == self.plane,
    {
        let mut vertices: Vec<K::Vertex> = Vec::with_capacity(self.vertices.len());
        let mut i: usize = 0;
        while i < self.vertices.len()
            invariant
                i <= self.vertices@.len(),
                vertices@ == self.vertices@.subrange(0, i as int),
            decreases self.vertices@.len() - i,
        {
            vertices.push(self.vertices[i]);
            i = i + 1;
            proof {
                assert(vertices@ =~= self.vertices@.subrange(0, i as int));
            }
        }
        proof {
            assert(vertices@ =~= self.vertices@);
        }
        Polygon { vertices, plane: self.plane.copy() }
    }

    /// Turns the polygon over: reverses the vertex order and the plane.
    pub fn flip(&mut self)
        ensures
            is_flip_of(*final(self), *old(self)),
    {
        let n = self.vertices.len();
        let mut reversed: Vec<K::Vertex> = Vec::with_capacity(n);
        let mut i: usize = n;
        while i > 0
            invariant
                i <= n,
                n == self.vertices@.len(),
                reversed@ == self.vertices@.subrange(i as int, n as int).reverse(),
            decreases i,
        {
            i = i - 1;
            let v = self.vertices[i];
            proof {
                let s = self.vertices@;
                assert(s.subrange(i as int, n as int).reverse() =~= s.subrange(i + 1, n as int).reverse().push(s[i as int]));
            }
            reversed.push(v);
        }
        proof {
            assert(self.vertices@.subrange(0, n as int) =~= self.vertices@);
        }
        self.vertices = reversed;
        self.plane.flip();
    }

    /// Triangle indices for the polygon, as a fan around its first vertex.
    pub fn indices(&self) -> (r: Vec<u32>)
        requires
            1 <= self.vertices@.len() <= u32::MAX,
        ensures
            is_fan(r@, self.vertices@.len() as int),
    {
        let count = self.vertices.len() as u32;
        let mut r: Vec<u32> = Vec::new();
        let mut i: u32 = 1;
        while i < count - 1
            invariant
                count == self.vertices@.len(),
                1 <= count,
                1 <= i,
                count >= 2 ==> i <= count - 1,
                count < 2 ==> i == 1,
                r@.len() == 3 * (i - 1),
                forall|k: int| 0 <= k < i - 1 ==> {
                    &&& #[trigger] r@[3 * k] == 0
                    &&& r@[3 * k + 1] == k + 1
                    &&& r@[3 * k + 2] == k + 2
                },
            decreases count - i,
        {
            let ghost r0 = r@;
            r.push(0);
            r.push(i);
            r.push(i + 1);
            proof {
                assert forall|k: int| 0 <= k < i implies {
                    &&& #[trigger] r@[3 * k] == 0
                    &&& r@[3 * k + 1] == k + 1
                    &&& r@[3 * k + 2] == k + 2
                } by {
                    if k < i - 1 {
                        assert(3 * k + 2 < 3 * (i - 1)) by (nonlinear_arith)
                            requires 0 <= k < i - 1;
                        assert(r@[3 * k] == r0[3 * k]);
                        assert(r@[3 * k + 1] == r0[3 * k + 1]);
                        assert(r@[3 * k + 2] == r0[3 * k + 2]);
                    } else {
                        assert(3 * k == r0.len());
                    }
                }
            }
            i = i + 1;
        }
        proof {
            let q = if count >= 2 { count - 2 } else { 0int };
            assert(r@.len() == 3 * q);
            assert(r@.len() / 3 == q) by (nonlinear_arith)
                requires r@.len() == 3 * q;
        }
        r
    }
}

/// Turning a polygon over twice gives it back, vertex order and plane alike.
pub proof fn lemma_flip_twice<K: Kernel>(p: Polygon<K>, q: Polygon<K>, r: Polygon<K>)
    requires
        is_flip_of(q, p),
        is_flip_of(r, q),
    ensures
        r.vertices@ == p.vertices@,
        r.plane == p.plane,
{
    assert(r.vertices@ =~= p.vertices@);
}

/// The classification of a vertex against `plane` as oriented.
pub open spec fn oriented_side<K: Kernel>(plane: Plane<K>, v: K::Vertex) -> PolygonType {
    let raw = K::spec_side(plane.surface, v);
    if plane.flipped { mirror(raw) } else { raw }
}

/// The classification of each vertex against `plane`.
pub open spec fn sides<K: Kernel>(plane: Plane<K>, vs: Seq<K::Vertex>) -> Seq<PolygonType> {
    vs.map_values(|v: K::Vertex| oriented_side(plane, v))
}

/// The sign of `p`'s normal against `plane`'s, both as oriented.
pub open spec fn facing<K: Kernel>(plane: Plane<K>, p: Plane<K>) -> Sign {
    let raw = K::spec_alignment(plane.surface, p.surface);
    if plane.flipped != p.flipped { negate(raw) } else { raw }
}

/// `out` is the fragment of `poly` with corners `cs`, cut by `surface`:
/// empty when `cs` is, else one polygon on `poly`'s plane whose corners are
/// `poly`'s vertices or the kernel's crossings of its edges.
pub open spec fn fragment_matches<K: Kernel>(surface: K::Surface, poly: Polygon<K>, cs: Seq<Corner>, out: Seq<Polygon<K>>) -> bool {
    if cs.len() == 0 {
        out.len() == 0
    } else {
        &&& out.len() == 1
        &&& out[0].plane == poly.plane
        &&& out[0].vertices@.len() == cs.len()
        &&& forall|k: int| 0 <= k < cs.len() ==> match #[trigger] cs[k] {
            Corner::Keep(i) => out[0].vertices@[k] == poly.vertices@[i as int],
            Corner::Cut(i, j) => out[0].vertices@[k] == K::spec_crossing(surface, poly.vertices@[i as int], poly.vertices@[j as int]),
        }
    }
}

/// `s` is how a plane sorts `poly`, given the classification `ts` of its
/// vertices and the sign `facing` of its normal against the plane's.
pub open spec fn split_matches<K: Kernel>(surface: K::Surface, poly: Polygon<K>, ts: Seq<PolygonType>, facing: Sign, s: Split<K>) -> bool {
    let n = ts.len() as int;
    match join_all(ts) {
        PolygonType::Coplanar => {
            &&& s.front@.len() == 0 && s.back@.len() == 0
            &&& if facing == Sign::Positive {
                s.coplanar_front@ == seq![poly] && s.coplanar_back@.len() == 0
            } else {
                s.coplanar_back@ == seq![poly] && s.coplanar_front@.len() == 0
            }
        },
        PolygonType::Front => {
            &&& s.front@ == seq![poly]
            &&& s.back@.len() == 0 && s.coplanar_front@.len() == 0 && s.coplanar_back@.len() == 0
        },
        PolygonType::Back => {
            &&& s.back@ == seq![poly]
            &&& s.front@.len() == 0 && s.coplanar_front@.len() == 0 && s.coplanar_back@.len() == 0
        },
        PolygonType::Spanning => {
            &&& s.coplanar_front@.len() == 0 && s.coplanar_back@.len() == 0
            &&& fragment_matches(surface, poly, with_area(front_corners(ts, n)), s.front@)
            &&& fragment_matches(surface, poly, with_area(back_corners(ts, n)), s.back@)
        },
    }
}

/// A polygon as a value: its vertices and its plane.
pub type PolygonView<K> = (Seq<<K as Kernel>::Vertex>, Plane<K>);

pub open spec fn view_of<K: Kernel>(p: Polygon<K>) -> PolygonView<K> {
    (p.vertices@, p.plane)
}

pub open spec fn views<K: Kernel>(s: Seq<Polygon<K>>) -> Seq<PolygonView<K>> {
    s.map_values(|p: Polygon<K>| view_of(p))
}

/// The vertex for one corner of a fragment of `vs` cut by `surface`.
pub open spec fn corner_vertex<K: Kernel>(surface: K::Surface, vs: Seq<K::Vertex>, c: Corner) -> K::Vertex {
    match c {
        Corner::Keep(i) => vs[i as int],
        Corner::Cut(i, j) => K::spec_crossing(surface, vs[i as int], vs[j as int]),
    }
}

/// The fragment of `pv` with corners `cs`: none when `cs` is empty.
pub open spec fn fragment_view<K: Kernel>(surface: K::Surface, pv: PolygonView<K>, cs: Seq<Corner>) -> Seq<PolygonView<K>> {
    if cs.len() == 0 {
        seq![]
    } else {
        seq![(cs.map_values(|c: Corner| corner_vertex::<K>(surface, pv.0, c)), pv.1)]
    }
}

/// How `plane` sorts the polygon `pv`: coplanar front, coplanar back,
/// front and back, as [`Plane::split_polygon`] does.
pub open spec fn split_view<K: Kernel>(plane: Plane<K>, pv: PolygonView<K>) -> (
    Seq<PolygonView<K>>,
    Seq<PolygonView<K>>,
    Seq<PolygonView<K>>,
    Seq<PolygonView<K>>,
) {
    let ts = sides(plane, pv.0);
    let n = ts.len() as int;
    match join_all(ts) {
        PolygonType::Coplanar => if facing(plane, pv.1) == Sign::Positive {
            (seq![pv], seq![], seq![], seq![])
        } else {
            (seq![], seq![pv], seq![], seq![])
        },
        PolygonType::Front => (seq![], seq![], seq![pv], seq![]),
        PolygonType::Back => (seq![], seq![], seq![], seq![pv]),
        PolygonType::Spanning => (
            seq![],
            seq![],
            fragment_view(plane.surface, pv, with_area(front_corners(ts, n))),
            fragment_view(plane.surface, pv, with_area(back_corners(ts, n))),
        ),
    }
}

/// How a partition tree node with plane `plane` sorts the polygon `pv`: a
/// polygon on the node's very surface (the same value) is coplanar, in
/// front when it faces the same way and behind otherwise, without being
/// measured; any other polygon is split as [`split_view`] says.
pub open spec fn node_split_view<K: Kernel>(plane: Plane<K>, pv: PolygonView<K>) -> (
    Seq<PolygonView<K>>,
    Seq<PolygonView<K>>,
    Seq<PolygonView<K>>,
    Seq<PolygonView<K>>,
) {
    if pv.1.surface == plane.surface {
        if pv.1.flipped == plane.flipped {
            (seq![pv], seq![], seq![], seq![])
        } else {
            (seq![], seq![pv], seq![], seq![])
        }
    } else {
        split_view(plane, pv)
    }
}

/// The node's rule agrees with measuring: a polygon lying on its own
/// surface (each vertex classified coplanar with it, as a polygon should
/// be) whose surface faces along itself is sorted by [`node_split_view`]
/// exactly as by [`split_view`].
pub proof fn lemma_node_split_agrees<K: Kernel>(plane: Plane<K>, pv: PolygonView<K>)
    requires
        forall|i: int| 0 <= i < pv.0.len() ==> K::spec_side(pv.1.surface, #[trigger] pv.0[i]) == PolygonType::Coplanar,
        K::spec_alignment(pv.1.surface, pv.1.surface) == Sign::Positive,
    ensures
        node_split_view(plane, pv) == split_view(plane, pv),
{
    if pv.1.surface == plane.surface {
        let ts = sides(plane, pv.0);
        assert forall|i: int| 0 <= i < ts.len() implies !has_front(#[trigger] ts[i]) && !has_back(ts[i]) by {
            assert(K::spec_side(plane.surface, pv.0[i]) == PolygonType::Coplanar);
        }
        lemma_join_all_bits(ts);
    }
}

/// Every polygon of `s` lies on the plane `p` (with `p`'s orientation).
pub open spec fn all_on_plane<K: Kernel>(s: Seq<Polygon<K>>, p: Plane<K>) -> bool {
    forall|i: int| 0 <= i < s.len() ==> (#[trigger] s[i]).plane == p
}

impl<K: Kernel> Split<K> {
    /// All four lists, in the order coplanar front, coplanar back, front, back.
    pub open spec fn all(self) -> Seq<Polygon<K>> {
        self.coplanar_front@ + self.coplanar_back@ + self.front@ + self.back@
    }
}

/// The vertices of a fragment, built from its corners.
fn build_fragment<K: Kernel>(surface: &K::Surface, vertices: &Vec<K::Vertex>, corners: &Vec<Corner>) -> (r: Vec<K::Vertex>)
    requires
        corners_below(corners@, vertices@.len() as int),
    ensures
        r@.len() == corners@.len(),
        forall|k: int| 0 <= k < corners@.len() ==> match #[trigger] corners@[k] {
            Corner::Keep(i) => r@[k] == vertices@[i as int],
            Corner::Cut(i, j) => r@[k] == K::spec_crossing(*surface, vertices@[i as int], vertices@[j as int]),
        },
{
    let mut r: Vec<K::Vertex> = Vec::with_capacity(corners.len());
    let mut k: usize = 0;
    while k < corners.len()
        invariant
            k <= corners@.len(),
            corners_below(corners@, vertices@.len() as int),
            r@.len() == k,
            forall|m: int| 0 <= m < k ==> match #[trigger] corners@[m] {
                Corner::Keep(i) => r@[m] == vertices@[i as int],
                Corner::Cut(i, j) => r@[m] == K::spec_crossing(*surface, vertices@[i as int], vertices@[j as int]),
            },
        decreases corners@.len() - k,
    {
        let v = match corners[k] {
            Corner::Keep(i) => vertices[i],
            Corner::Cut(i, j) => K::crossing(surface, &vertices[i], &vertices[j]),
        };
        r.push(v);
        k = k + 1;
    }
    r
}

impl<K: Kernel> Plane<K> {
    /// The classification of a vertex against this plane as oriented.
    fn side_of(&self, v: &K::Vertex) -> (r: PolygonType)
        ensures
            r == oriented_side(*self, *v),
    {
        let raw = K::side(&self.surface, v);
        if self.flipped { raw.mirrored() } else { raw }
    }

    /// Sorts a polygon into coplanar-front, coplanar-back, front and back.
    ///
    /// The polygon is classified vertex by vertex through the kernel and
    /// routed by [`route_split`]; a spanning polygon is cut into at most two
    /// fragments that stay on its plane.
    pub fn split_polygon(&self, polygon: Polygon<K>) -> (r: Split<K>)
        ensures
            split_matches(
                self.surface,
                polygon,
                sides(*self, polygon.vertices@),
                facing(*self, polygon.plane),
                r,
            ),
            all_on_plane(r.all(), polygon.plane),
            views(r.coplanar_front@) == split_view(*self, view_of(polygon)).0,
            views(r.coplanar_back@) == split_view(*self, view_of(polygon)).1,
            views(r.front@) == split_view(*self, view_of(polygon)).2,
            views(r.back@) == split_view(*self, view_of(polygon)).3,
    {
        let mut r = Split {
            coplanar_front: Vec::new(),
            coplanar_back: Vec::new(),
            front: Vec::new(),
            back: Vec::new(),
        };
        let ghost given = polygon;
        let n = polygon.vertices.len();
        let mut types: Vec<PolygonType> = Vec::with_capacity(n);
        let mut i: usize = 0;
        while i < n
            invariant
                n == polygon.vertices@.len(),
                i <= n,
                types@.len() == i,
                forall|k: int| 0 <= k < i ==> types@[k] == oriented_side(*self, polygon.vertices@[k]),
            decreases n - i,
        {
            types.push(self.side_of(&polygon.vertices[i]));
            i = i + 1;
        }
        let raw = K::alignment(&self.surface, &polygon.plane.surface);
        let facing = if self.flipped != polygon.plane.flipped { raw.negated() } else { raw };
        proof {
            assert(types@ =~= sides(*self, polygon.vertices@));
        }
        match route_split(&types, facing) {
            Route::CoplanarFront => r.coplanar_front.push(polygon),
            Route::CoplanarBack => r.coplanar_back.push(polygon),
            Route::Front => r.front.push(polygon),
            Route::Back => r.back.push(polygon),
            Route::Spanning { front, back } => {
                if front.len() > 0 {
                    let vs = build_fragment::<K>(&self.surface, &polygon.vertices, &front);
                    r.front.push(Polygon { vertices: vs, plane: polygon.plane.copy() });
                }
                if back.len() > 0 {
                    let vs = build_fragment::<K>(&self.surface, &polygon.vertices, &back);
                    r.back.push(Polygon { vertices: vs, plane: polygon.plane.copy() });
                }
            },
        }
        proof {
            assert(split_matches(self.surface, given, types@, facing, r));
            let pv = view_of(given);
            let ts = types@;
            let nn = ts.len() as int;
            let fc = with_area(front_corners(ts, nn));
            let bc = with_area(back_corners(ts, nn));
            if join_all(ts) == PolygonType::Spanning {
                if fc.len() > 0 {
                    assert(r.front@[0].vertices@ =~= fc.map_values(|c: Corner| corner_vertex::<K>(self.surface, pv.0, c)));
                }
                if bc.len() > 0 {
                    assert(r.back@[0].vertices@ =~= bc.map_values(|c: Corner| corner_vertex::<K>(self.surface, pv.0, c)));
                }
            }
            assert(views(r.coplanar_front@) =~= split_view(*self, pv).0);
            assert(views(r.coplanar_back@) =~= split_view(*self, pv).1);
            assert(views(r.front@) =~= split_view(*self, pv).2);
            assert(views(r.back@) =~= split_view(*self, pv).3);
            let all = r.all();
            assert forall|i: int| 0 <= i < all.len() implies (#[trigger] all[i]).plane == given.plane by {
                let a = r.coplanar_front@.len() as int;
                let b = a + r.coplanar_back@.len();
                let c = b + r.front@.len();
                if i < a {
                    assert(all[i] == r.coplanar_front@[i]);
                } else if i < b {
                    assert(all[i] == r.coplanar_back@[i - a]);
                } else if i < c {
                    assert(all[i] == r.front@[i - b]);
                } else {
                    assert(all[i] == r.back@[i - c]);
                }
            }
        }
        r
    }
}

} // verus!
