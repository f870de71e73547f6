use vstd::prelude::*;

use crate::broadphase::{
    bounds_of, cast_against_polygons, hits_bounds, meets_bounds, nearest, polygon_bounds, polygon_hits, vertex_lists,
};
use crate::brush::{BooleanOp, MeshData};
use crate::kernel::Kernel;
use crate::node::{
    is_built, is_clipped,
    lemma_planes_of_flipped, lemma_planes_of_same, lemma_reversed_planes_subset, lemma_reversed_planes_twice, planes_of,
    reversed_planes, same_polygons, Node,
};
use crate::operations::{knife_moved, Knife};
use crate::polygon::{is_flip_of, views, Plane, Polygon, PolygonView};
use crate::polytope::{generate_polygons_from_surfaces, polytope_faces};

verus! {

/// What a brushlet is called, how it combines with what comes before it in
/// a brush, its own knives, and whether it is turned inside out.
pub struct BrushletSettings<K: Kernel> {
    pub name: String,
    pub operation: BooleanOp,
    pub knives: Vec<Knife<K>>,
    pub inverted: bool,
}

/// One solid of a brush: its polygons, their bounding box, its settings.
pub struct Brushlet<K: Kernel> {
    pub polygons: Vec<Polygon<K>>,
    pub aabb: K::Bounds,
    pub settings: BrushletSettings<K>,
}

pub open spec fn same_settings<K: Kernel>(a: BrushletSettings<K>, b: BrushletSettings<K>) -> bool {
    &&& a.name@ == b.name@
    &&& a.operation == b.operation
    &&& a.knives@ == b.knives@
    &&& a.inverted == b.inverted
}

/// Copies of the polygons, in order.
pub fn copy_polygons<K: Kernel>(polygons: &Vec<Polygon<K>>) -> (r: Vec<Polygon<K>>)
    ensures
        same_polygons(r@, polygons@),
        planes_of(r@) == planes_of(polygons@),
        views(r@) == views(polygons@),
{
    let mut r: Vec<Polygon<K>> = Vec::with_capacity(polygons.len());
    let mut i: usize = 0;
    while i < polygons.len()
        invariant
            i <= polygons@.len(),
            same_polygons(r@, polygons@.subrange(0, i as int)),
        decreases polygons@.len() - i,
    {
        r.push(polygons[i].duplicate());
        i = i + 1;
    }
    proof {
        assert(polygons@.subrange(0, polygons@.len() as int) =~= polygons@);
        lemma_planes_of_same(r@, polygons@);
        assert(views(r@) =~= views(polygons@));
    }
    r
}

/// The faces of `invert(intersect(invert(a), invert(b)))` lie on face planes
/// of `a` or `b`, facing the same way: the planes that bound `union(a, b)`.
///
/// `ia` and `ib` are `a` and `b` turned over polygon by polygon, `meet` has
/// its faces on their planes (as an intersection does), and `dual` is `meet`
/// turned over.
pub proof fn lemma_de_morgan_planes<K: Kernel>(
    a: Seq<Polygon<K>>,
    b: Seq<Polygon<K>>,
    ia: Seq<Polygon<K>>,
    ib: Seq<Polygon<K>>,
    meet: Seq<Polygon<K>>,
    dual: Seq<Polygon<K>>,
)
    requires
        ia.len() == a.len(),
        forall|i: int| 0 <= i < ia.len() ==> is_flip_of(#[trigger] ia[i], a[i]),
        ib.len() == b.len(),
        forall|i: int| 0 <= i < ib.len() ==> is_flip_of(#[trigger] ib[i], b[i]),
        planes_of(meet).subset_of(planes_of(ia).union(planes_of(ib))),
        dual.len() == meet.len(),
        forall|i: int| 0 <= i < dual.len() ==> is_flip_of(#[trigger] dual[i], meet[i]),
    ensures
        planes_of(dual).subset_of(planes_of(a).union(planes_of(b))),
{
    lemma_planes_of_flipped(ia, a);
    lemma_planes_of_flipped(ib, b);
    lemma_planes_of_flipped(dual, meet);
    crate::node::lemma_reversed_planes_union(planes_of(a), planes_of(b));
    lemma_reversed_planes_subset(planes_of(meet), reversed_planes(planes_of(a).union(planes_of(b))));
    lemma_reversed_planes_twice(planes_of(a).union(planes_of(b)));
}

/// Fresh trees of the polygon lists `a` and `b`.
pub open spec fn fresh_pair<K: Kernel>(a: Seq<PolygonView<K>>, b: Seq<PolygonView<K>>, ta: Node<K>, tb: Node<K>) -> bool {
    is_built(ta, None, seq![], None, None, a) && is_built(tb, None, seq![], None, None, b)
}

/// The trees of a union, step by step: `a.clip_to(b); b.clip_to(a);
/// b.invert(); b.clip_to(a); b.invert(); a.build(b.all_polygons())`.
pub open spec fn union_steps<K: Kernel>(
    a: Seq<PolygonView<K>>, b: Seq<PolygonView<K>>,
    a0: Node<K>, b0: Node<K>, a1: Node<K>, b1: Node<K>, b2: Node<K>, b3: Node<K>, b4: Node<K>, a2: Node<K>,
) -> bool {
    &&& fresh_pair(a, b, a0, b0)
    &&& is_clipped(a1, a0, b0)
    &&& is_clipped(b1, b0, a1)
    &&& b2.is_inverse_of(b1)
    &&& is_clipped(b3, b2, a1)
    &&& b4.is_inverse_of(b3)
    &&& is_built(a2, a1.plane, views(a1.polygons@), a1.front, a1.back, views(b4.all()))
}

/// `r` is the union of the solids bounded by `a` and `b`.
pub open spec fn union_of<K: Kernel>(a: Seq<PolygonView<K>>, b: Seq<PolygonView<K>>, r: Seq<PolygonView<K>>) -> bool {
    exists|a0: Node<K>, b0: Node<K>, a1: Node<K>, b1: Node<K>, b2: Node<K>, b3: Node<K>, b4: Node<K>, a2: Node<K>|
        #[trigger] union_steps(a, b, a0, b0, a1, b1, b2, b3, b4, a2) && r == views(a2.all())
}

/// The trees of a subtraction, step by step: `a.invert(); a.clip_to(b);
/// b.clip_to(a); b.invert(); b.clip_to(a); b.invert();
/// a.build(b.all_polygons()); a.invert()`.
pub open spec fn subtract_steps<K: Kernel>(
    a: Seq<PolygonView<K>>, b: Seq<PolygonView<K>>,
    a0: Node<K>, b0: Node<K>, a1: Node<K>, a2: Node<K>, b1: Node<K>, b2: Node<K>, b3: Node<K>, b4: Node<K>, a3: Node<K>, a4: Node<K>,
) -> bool {
    &&& fresh_pair(a, b, a0, b0)
    &&& a1.is_inverse_of(a0)
    &&& is_clipped(a2, a1, b0)
    &&& is_clipped(b1, b0, a2)
    &&& b2.is_inverse_of(b1)
    &&& is_clipped(b3, b2, a2)
    &&& b4.is_inverse_of(b3)
    &&& is_built(a3, a2.plane, views(a2.polygons@), a2.front, a2.back, views(b4.all()))
    &&& a4.is_inverse_of(a3)
}

/// `r` is the solid bounded by `a` with the one bounded by `b` taken away.
pub open spec fn subtract_of<K: Kernel>(a: Seq<PolygonView<K>>, b: Seq<PolygonView<K>>, r: Seq<PolygonView<K>>) -> bool {
    exists|a0: Node<K>, b0: Node<K>, a1: Node<K>, a2: Node<K>, b1: Node<K>, b2: Node<K>, b3: Node<K>, b4: Node<K>, a3: Node<K>, a4: Node<K>|
        #[trigger] subtract_steps(a, b, a0, b0, a1, a2, b1, b2, b3, b4, a3, a4) && r == views(a4.all())
}

/// The trees of an intersection, step by step: `a.invert(); b.clip_to(a);
/// b.invert(); a.clip_to(b); b.clip_to(a); a.build(b.all_polygons());
/// a.invert()`.
pub open spec fn intersect_steps<K: Kernel>(
    a: Seq<PolygonView<K>>, b: Seq<PolygonView<K>>,
    a0: Node<K>, b0: Node<K>, a1: Node<K>, b1: Node<K>, b2: Node<K>, a2: Node<K>, b3: Node<K>, a3: Node<K>, a4: Node<K>,
) -> bool {
    &&& fresh_pair(a, b, a0, b0)
    &&& a1.is_inverse_of(a0)
    &&& is_clipped(b1, b0, a1)
    &&& b2.is_inverse_of(b1)
    &&& is_clipped(a2, a1, b2)
    &&& is_clipped(b3, b2, a2)
    &&& is_built(a3, a2.plane, views(a2.polygons@), a2.front, a2.back, views(b3.all()))
    &&& a4.is_inverse_of(a3)
}

/// `r` is the common part of the solids bounded by `a` and `b`.
pub open spec fn intersect_of<K: Kernel>(a: Seq<PolygonView<K>>, b: Seq<PolygonView<K>>, r: Seq<PolygonView<K>>) -> bool {
    exists|a0: Node<K>, b0: Node<K>, a1: Node<K>, b1: Node<K>, b2: Node<K>, a2: Node<K>, b3: Node<K>, a3: Node<K>, a4: Node<K>|
        #[trigger] intersect_steps(a, b, a0, b0, a1, b1, b2, a2, b3, a3, a4) && r == views(a4.all())
}

/// `r` is `a` cut by the knife `k`: `a` with the knife's box taken away.
pub open spec fn knife_cut_of<K: Kernel>(k: Knife<K>, a: Seq<PolygonView<K>>, r: Seq<PolygonView<K>>) -> bool {
    exists|cut: Seq<Polygon<K>>|
        #[trigger] polytope_faces(K::spec_cutter(k.half_space, k.material_index)@, cut) && subtract_of(a, views(cut), r)
}

/// `chain` steps from its first entry to its last through the knives:
/// each entry is the one before it cut by the next knife.
pub open spec fn is_cut_chain<K: Kernel>(knives: Seq<Knife<K>>, chain: Seq<Seq<PolygonView<K>>>) -> bool {
    &&& chain.len() == knives.len() + 1
    &&& forall|i: int| 0 <= i < knives.len() ==> knife_cut_of(#[trigger] knives[i], chain[i], chain[i + 1])
}

/// `r` is `a` cut by each of the knives in turn.
pub open spec fn cut_by_all<K: Kernel>(knives: Seq<Knife<K>>, a: Seq<PolygonView<K>>, r: Seq<PolygonView<K>>) -> bool {
    exists|chain: Seq<Seq<PolygonView<K>>>| #[trigger] is_cut_chain(knives, chain) && chain[0] == a && chain.last() == r
}

/// `r` is `a` with every polygon turned over.
pub open spec fn flipped_views<K: Kernel>(r: Seq<PolygonView<K>>, a: Seq<PolygonView<K>>) -> bool {
    &&& r.len() == a.len()
    &&& forall|i: int| 0 <= i < r.len() ==> #[trigger] r[i] == (a[i].0.reverse(), a[i].1.reversed())
}

/// `r` is what the brushlet `b` renders as: its polygons cut by each of its
/// knives, then turned over if it is inverted.
pub open spec fn baked<K: Kernel>(b: Brushlet<K>, r: Seq<PolygonView<K>>) -> bool {
    exists|cut: Seq<PolygonView<K>>| #[trigger] cut_by_all(b.settings.knives@, views(b.polygons@), cut)
        && if b.settings.inverted { flipped_views(r, cut) } else { r == cut }
}

/// `q` is the polygon `p` moved by `t`: every vertex and the surface
/// transformed, the key that of the new surface, the orientation kept.
pub open spec fn polygon_moved<K: Kernel>(q: Polygon<K>, p: Polygon<K>, t: K::Transform) -> bool {
    &&& q.vertices@ == p.vertices@.map_values(|v: K::Vertex| K::spec_transform_vertex(v, t))
    &&& q.plane.surface == K::spec_transform_surface(p.plane.surface, t)
    &&& q.plane.key == K::spec_key(q.plane.surface)
    &&& q.plane.flipped == p.plane.flipped
}

/// `r` is the brushlet `b` moved by `t`: each polygon and knife moved,
/// name, operation and inversion kept, the box that of the new polygons.
pub open spec fn brushlet_moved<K: Kernel>(r: Brushlet<K>, b: Brushlet<K>, t: K::Transform) -> bool {
    &&& r.polygons@.len() == b.polygons@.len()
    &&& forall|i: int| 0 <= i < r.polygons@.len() ==> polygon_moved(#[trigger] r.polygons@[i], b.polygons@[i], t)
    &&& r.settings.knives@ == b.settings.knives@.map_values(|k: Knife<K>| knife_moved(k, t))
    &&& r.settings.name@ == b.settings.name@
    &&& r.settings.operation == b.settings.operation
    &&& r.settings.inverted == b.settings.inverted
    &&& r.aabb == bounds_of::<K>(vertex_lists(r.polygons@))
}

/// The hit of the ray on a brushlet: the nearest on its polygons when the
/// ray meets its box, else none.
pub open spec fn brushlet_hit<K: Kernel>(ray: K::Ray, b: Brushlet<K>) -> Option<K::Hit> {
    if meets_bounds::<K>(ray, b.aabb) {
        nearest::<K>(polygon_hits(ray, b.polygons@))
    } else {
        None
    }
}

impl<K: Kernel> BrushletSettings<K> {
    pub fn new(name: String, operation: BooleanOp, knives: Vec<Knife<K>>, inverted: bool) -> (r: BrushletSettings<K>)
        ensures
            r.name == name,
            r.operation == operation,
            r.knives == knives,
            r.inverted == inverted,
    {
        BrushletSettings { name, operation, knives, inverted }
    }

    pub fn duplicate(&self) -> (r: BrushletSettings<K>)
        ensures
            same_settings(r, *self),
    {
        let mut knives: Vec<Knife<K>> = Vec::with_capacity(self.knives.len());
        let mut i: usize = 0;
        while i < self.knives.len()
            invariant
                i <= self.knives@.len(),
                knives@ == self.knives@.subrange(0, i as int),
            decreases self.knives@.len() - i,
        {
            knives.push(self.knives[i].copy());
            i = i + 1;
            proof {
                assert(knives@ =~= self.knives@.subrange(0, i as int));
            }
        }
        proof {
            assert(knives@ =~= self.knives@);
        }
        BrushletSettings {
            name: self.name.clone(),
            operation: self.operation,
            knives,
            inverted: self.inverted,
        }
    }
}

impl<K: Kernel> Brushlet<K> {
    /// A brushlet of the given polygons, with their bounding box.
    pub fn new(polygons: Vec<Polygon<K>>, settings: BrushletSettings<K>) -> (r: Brushlet<K>)
        ensures
            r.polygons == polygons,
            r.settings == settings,
    {
        let aabb = polygon_bounds(&polygons);
        Brushlet { polygons, aabb, settings }
    }

    pub fn duplicate(&self) -> (r: Brushlet<K>)
        ensures
            same_polygons(r.polygons@, self.polygons@),
            r.aabb == self.aabb,
            same_settings(r.settings, self.settings),
    {
        Brushlet { polygons: copy_polygons(&self.polygons), aabb: self.aabb, settings: self.settings.duplicate() }
    }

    /// The union of the two solids, by the step sequence of [`union_of`].
    /// Every face of the result lies on a face plane of one of them, facing
    /// the same way.
    pub fn union(&self, other: &Brushlet<K>) -> (r: Brushlet<K>)
        ensures
            union_of(views(self.polygons@), views(other.polygons@), views(r.polygons@)),
            r.aabb == bounds_of::<K>(vertex_lists(r.polygons@)),
            same_settings(r.settings, self.settings),
            planes_of(r.polygons@).subset_of(planes_of(self.polygons@).union(planes_of(other.polygons@))),
    {
        let ghost pa = planes_of(self.polygons@);
        let ghost pb = planes_of(other.polygons@);
        let mut a = Node::new(copy_polygons(&self.polygons));
        let mut b = Node::new(copy_polygons(&other.polygons));
        let ghost (a0, b0) = (a, b);
        a.clip_to(&b);
        let ghost a1 = a;
        b.clip_to(&a);
        let ghost b1 = b;
        let ghost clipped = planes_of(b.all());
        b.invert();
        let ghost b2 = b;
        proof {
            lemma_reversed_planes_subset(clipped, pb);
        }
        b.clip_to(&a);
        let ghost b3 = b;
        let ghost before = planes_of(b.all());
        b.invert();
        let ghost b4 = b;
        proof {
            lemma_reversed_planes_subset(before, reversed_planes(pb));
            lemma_reversed_planes_twice(pb);
        }
        let from_b = b.into_polygons();
        a.build(from_b);
        let ghost a2 = a;
        let polygons = a.into_polygons();
        proof {
            assert(union_steps(views(self.polygons@), views(other.polygons@), a0, b0, a1, b1, b2, b3, b4, a2));
        }
        let aabb = polygon_bounds(&polygons);
        Brushlet { polygons, aabb, settings: self.settings.duplicate() }
    }

    /// `self` with `other` taken away, by the step sequence of
    /// [`subtract_of`]. Every face of the result lies on a face plane of
    /// `self` facing the same way, or on one of `other` facing the other way.
    pub fn subtract(&self, other: &Brushlet<K>) -> (r: Brushlet<K>)
        ensures
            subtract_of(views(self.polygons@), views(other.polygons@), views(r.polygons@)),
            r.aabb == bounds_of::<K>(vertex_lists(r.polygons@)),
            same_settings(r.settings, self.settings),
            planes_of(r.polygons@).subset_of(planes_of(self.polygons@).union(reversed_planes(planes_of(other.polygons@)))),
    {
        let ghost pa = planes_of(self.polygons@);
        let ghost pb = planes_of(other.polygons@);
        let mut a = Node::new(copy_polygons(&self.polygons));
        let mut b = Node::new(copy_polygons(&other.polygons));
        let ghost (a0, b0) = (a, b);
        let ghost fresh = planes_of(a.all());
        a.invert();
        let ghost a1 = a;
        proof {
            lemma_reversed_planes_subset(fresh, pa);
        }
        a.clip_to(&b);
        let ghost a2 = a;
        b.clip_to(&a);
        let ghost b1 = b;
        let ghost clipped = planes_of(b.all());
        b.invert();
        let ghost b2 = b;
        proof {
            lemma_reversed_planes_subset(clipped, pb);
        }
        b.clip_to(&a);
        let ghost b3 = b;
        let ghost before = planes_of(b.all());
        b.invert();
        let ghost b4 = b;
        proof {
            lemma_reversed_planes_subset(before, reversed_planes(pb));
            lemma_reversed_planes_twice(pb);
        }
        let from_b = b.into_polygons();
        a.build(from_b);
        let ghost a3 = a;
        let ghost built = planes_of(a.all());
        a.invert();
        let ghost a4 = a;
        proof {
            lemma_reversed_planes_subset(built, reversed_planes(pa).union(pb));
            crate::node::lemma_reversed_planes_union(reversed_planes(pa), pb);
            lemma_reversed_planes_twice(pa);
        }
        let polygons = a.into_polygons();
        proof {
            assert(subtract_steps(views(self.polygons@), views(other.polygons@), a0, b0, a1, a2, b1, b2, b3, b4, a3, a4));
        }
        let aabb = polygon_bounds(&polygons);
        Brushlet { polygons, aabb, settings: self.settings.duplicate() }
    }

    /// The common part of the two solids, by the step sequence of
    /// [`intersect_of`]. Every face of the result lies on a face plane of
    /// one of them, facing the same way.
    pub fn intersect(&self, other: &Brushlet<K>) -> (r: Brushlet<K>)
        ensures
            intersect_of(views(self.polygons@), views(other.polygons@), views(r.polygons@)),
            r.aabb == bounds_of::<K>(vertex_lists(r.polygons@)),
            same_settings(r.settings, self.settings),
            planes_of(r.polygons@).subset_of(planes_of(self.polygons@).union(planes_of(other.polygons@))),
    {
        let ghost pa = planes_of(self.polygons@);
        let ghost pb = planes_of(other.polygons@);
        let mut a = Node::new(copy_polygons(&self.polygons));
        let mut b = Node::new(copy_polygons(&other.polygons));
        let ghost (a0, b0) = (a, b);
        let ghost fresh = planes_of(a.all());
        a.invert();
        let ghost a1 = a;
        proof {
            lemma_reversed_planes_subset(fresh, pa);
        }
        b.clip_to(&a);
        let ghost b1 = b;
        let ghost clipped = planes_of(b.all());
        b.invert();
        let ghost b2 = b;
        proof {
            lemma_reversed_planes_subset(clipped, pb);
        }
        a.clip_to(&b);
        let ghost a2 = a;
        b.clip_to(&a);
        let ghost b3 = b;
        let from_b = b.into_polygons();
        a.build(from_b);
        let ghost a3 = a;
        let ghost built = planes_of(a.all());
        a.invert();
        let ghost a4 = a;
        proof {
            lemma_reversed_planes_subset(built, reversed_planes(pa).union(reversed_planes(pb)));
            crate::node::lemma_reversed_planes_union(reversed_planes(pa), reversed_planes(pb));
            lemma_reversed_planes_twice(pa);
            lemma_reversed_planes_twice(pb);
        }
        let polygons = a.into_polygons();
        proof {
            assert(intersect_steps(views(self.polygons@), views(other.polygons@), a0, b0, a1, b1, b2, a2, b3, a3, a4));
        }
        let aabb = polygon_bounds(&polygons);
        Brushlet { polygons, aabb, settings: self.settings.duplicate() }
    }

    /// The brushlet turned inside out: every polygon turned over.
    pub fn inverse(&self) -> (r: Brushlet<K>)
        ensures
            r.polygons@.len() == self.polygons@.len(),
            forall|i: int| 0 <= i < r.polygons@.len() ==> is_flip_of(#[trigger] r.polygons@[i], self.polygons@[i]),
            r.aabb == self.aabb,
            same_settings(r.settings, self.settings),
    {
        let mut polygons: Vec<Polygon<K>> = Vec::with_capacity(self.polygons.len());
        let mut i: usize = 0;
        while i < self.polygons.len()
            invariant
                i <= self.polygons@.len(),
                polygons@.len() == i,
                forall|k: int| 0 <= k < i ==> is_flip_of(#[trigger] polygons@[k], self.polygons@[k]),
            decreases self.polygons@.len() - i,
        {
            let mut p = self.polygons[i].duplicate();
            p.flip();
            polygons.push(p);
            i = i + 1;
        }
        Brushlet { polygons, aabb: self.aabb, settings: self.settings.duplicate() }
    }

    /// The polygons to render: the brushlet cut by each of its knives in
    /// turn, then turned inside out if it is inverted.
    pub fn to_mesh_data(&self) -> (r: MeshData<K>)
        ensures
            baked(*self, views(r.polygons@)),
            self.settings.knives@.len() == 0 && !self.settings.inverted ==> same_polygons(r.polygons@, self.polygons@),
            self.settings.knives@.len() == 0 && self.settings.inverted ==> r.polygons@.len() == self.polygons@.len()
                && forall|i: int| 0 <= i < r.polygons@.len() ==> is_flip_of(#[trigger] r.polygons@[i], self.polygons@[i]),
    {
        let mut current = self.duplicate();
        let ghost start = views(self.polygons@);
        let ghost mut chain: Seq<Seq<PolygonView<K>>> = seq![start];
        proof {
            assert(views(current.polygons@) =~= start);
        }
        let mut i: usize = 0;
        while i < self.settings.knives.len()
            invariant
                i <= self.settings.knives@.len(),
                start == views(self.polygons@),
                i == 0 ==> same_polygons(current.polygons@, self.polygons@),
                is_cut_chain(self.settings.knives@.subrange(0, i as int), chain),
                chain[0] == start,
                chain.last() == views(current.polygons@),
            decreases self.settings.knives@.len() - i,
        {
            current = self.settings.knives[i].perform(&current);
            proof {
                let old_chain = chain;
                chain = chain.push(views(current.polygons@));
                let ks = self.settings.knives@.subrange(0, i + 1);
                assert forall|j: int| 0 <= j < ks.len() implies knife_cut_of(#[trigger] ks[j], chain[j], chain[j + 1]) by {
                    if j < i {
                        assert(ks[j] == self.settings.knives@.subrange(0, i as int)[j]);
                        assert(chain[j] == old_chain[j] && chain[j + 1] == old_chain[j + 1]);
                    }
                }
            }
            i = i + 1;
        }
        let ghost done = views(current.polygons@);
        proof {
            assert(self.settings.knives@.subrange(0, self.settings.knives@.len() as int) =~= self.settings.knives@);
            assert(is_cut_chain(self.settings.knives@, chain));
        }
        if self.settings.inverted {
            let turned = current.inverse();
            proof {
                if self.settings.knives@.len() == 0 {
                    assert forall|k: int| 0 <= k < turned.polygons@.len() implies is_flip_of(#[trigger] turned.polygons@[k], self.polygons@[k]) by {
                        assert(is_flip_of(turned.polygons@[k], current.polygons@[k]));
                        assert(current.polygons@[k].vertices@ == self.polygons@[k].vertices@);
                    }
                }
                assert(flipped_views(views(turned.polygons@), done));
            }
            current = turned;
        }
        proof {
            assert(cut_by_all(self.settings.knives@, start, done));
            assert(baked(*self, views(current.polygons@)));
        }
        MeshData { polygons: current.polygons }
    }

    /// The nearest hit of the ray on the brushlet, looked for among its
    /// polygons only when the ray meets its bounding box.
    pub fn try_select(&self, ray: &K::Ray) -> (r: Option<K::Hit>)
        ensures
            r == brushlet_hit(*ray, *self),
    {
        if hits_bounds::<K>(ray, &self.aabb) {
            cast_against_polygons(ray, &self.polygons)
        } else {
            None
        }
    }

    /// The convex solid bounded by `surfaces`.
    pub fn from_surfaces(surfaces: Vec<K::Surface>, settings: BrushletSettings<K>) -> (r: Brushlet<K>)
        ensures
            r.settings == settings,
            polytope_faces(surfaces@, r.polygons@),
            r.aabb == bounds_of::<K>(vertex_lists(r.polygons@)),
    {
        let polygons = generate_polygons_from_surfaces::<K>(&surfaces);
        let aabb = polygon_bounds(&polygons);
        Brushlet { polygons, aabb, settings }
    }

    /// The brushlet moved by `transform`: every vertex and surface, and
    /// every knife; the box is recomputed.
    pub fn transform(&self, transform: &K::Transform) -> (r: Brushlet<K>)
        ensures
            brushlet_moved(r, *self, *transform),
    {
        let mut polygons: Vec<Polygon<K>> = Vec::with_capacity(self.polygons.len());
        let mut i: usize = 0;
        while i < self.polygons.len()
            invariant
                i <= self.polygons@.len(),
                polygons@.len() == i,
                forall|k: int| 0 <= k < i ==> polygon_moved(#[trigger] polygons@[k], self.polygons@[k], *transform),
            decreases self.polygons@.len() - i,
        {
            let p = &self.polygons[i];
            let mut vertices: Vec<K::Vertex> = Vec::with_capacity(p.vertices.len());
            let mut j: usize = 0;
            while j < p.vertices.len()
                invariant
                    j <= p.vertices@.len(),
                    vertices@ == p.vertices@.subrange(0, j as int).map_values(|v: K::Vertex| K::spec_transform_vertex(v, *transform)),
                decreases p.vertices@.len() - j,
            {
                vertices.push(K::transform_vertex(&p.vertices[j], transform));
                j = j + 1;
                proof {
                    assert(vertices@ =~= p.vertices@.subrange(0, j as int).map_values(|v: K::Vertex| K::spec_transform_vertex(v, *transform)));
                }
            }
            proof {
                assert(p.vertices@.subrange(0, p.vertices@.len() as int) =~= p.vertices@);
                assert(vertices@ =~= p.vertices@.map_values(|v: K::Vertex| K::spec_transform_vertex(v, *transform)));
            }
            let mut plane = Plane::from_surface(K::transform_surface(&p.plane.surface, transform));
            plane.flipped = p.plane.flipped;
            polygons.push(Polygon { vertices, plane });
            i = i + 1;
        }
        let mut knives: Vec<Knife<K>> = Vec::with_capacity(self.settings.knives.len());
        let mut k: usize = 0;
        while k < self.settings.knives.len()
            invariant
                k <= self.settings.knives@.len(),
                knives@ == self.settings.knives@.subrange(0, k as int).map_values(|n: Knife<K>| knife_moved(n, *transform)),
            decreases self.settings.knives@.len() - k,
        {
            knives.push(self.settings.knives[k].transform(transform));
            k = k + 1;
            proof {
                assert(knives@ =~= self.settings.knives@.subrange(0, k as int).map_values(|n: Knife<K>| knife_moved(n, *transform)));
            }
        }
        proof {
            assert(self.settings.knives@.subrange(0, self.settings.knives@.len() as int) =~= self.settings.knives@);
        }
        let aabb = polygon_bounds(&polygons);
        Brushlet {
            polygons,
            aabb,
            settings: BrushletSettings {
                name: self.settings.name.clone(),
                operation: self.settings.operation,
                knives,
                inverted: self.settings.inverted,
            },
        }
    }
}

} // verus!
