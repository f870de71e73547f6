use vstd::prelude::*;
use vstd::set_lib::lemma_len_subset;

use crate::kernel::Kernel;
use crate::polygon::{all_on_plane, is_flip_of, node_split_view, split_view, view_of, views, Plane, Polygon, PolygonView, Split};

verus! {

/// The planes on which the polygons of `s` lie.
pub open spec fn planes_of<K: Kernel>(s: Seq<Polygon<K>>) -> Set<Plane<K>> {
    Set::new(|p: Plane<K>| exists|i: int| 0 <= i < s.len() && (#[trigger] s[i]).plane == p)
}

/// The planes of `a`, each facing the other way.
pub open spec fn reversed_planes<K: Kernel>(a: Set<Plane<K>>) -> Set<Plane<K>> {
    Set::new(|p: Plane<K>| a.contains(p.reversed()))
}

/// The surfaces on which the polygons of `s` lie.
pub open spec fn surfaces_of<K: Kernel>(s: Seq<Polygon<K>>) -> Set<K::Surface> {
    s.map_values(|p: Polygon<K>| p.plane.surface).to_set()
}

/// Two polygons with the same plane and the same vertices.
pub open spec fn same_polygon<K: Kernel>(a: Polygon<K>, b: Polygon<K>) -> bool {
    a.plane == b.plane && a.vertices@ == b.vertices@
}

/// `a` and `b` hold the same polygons, in the same order.
pub open spec fn same_polygons<K: Kernel>(a: Seq<Polygon<K>>, b: Seq<Polygon<K>>) -> bool {
    a.len() == b.len() && forall|i: int| 0 <= i < a.len() ==> same_polygon(#[trigger] a[i], b[i])
}

pub proof fn lemma_planes_of_concat<K: Kernel>(a: Seq<Polygon<K>>, b: Seq<Polygon<K>>)
    ensures
        planes_of(a + b) == planes_of(a).union(planes_of(b)),
{
    let ab = a + b;
    assert forall|p: Plane<K>| planes_of(ab).contains(p) implies planes_of(a).union(planes_of(b)).contains(p) by {
        let i = choose|i: int| 0 <= i < ab.len() && (#[trigger] ab[i]).plane == p;
        if i < a.len() {
            assert(a[i] == ab[i]);
        } else {
            assert(b[i - a.len()] == ab[i]);
        }
    }
    assert forall|p: Plane<K>| planes_of(a).union(planes_of(b)).contains(p) implies planes_of(ab).contains(p) by {
        if planes_of(a).contains(p) {
            let i = choose|i: int| 0 <= i < a.len() && (#[trigger] a[i]).plane == p;
            assert(ab[i] == a[i]);
        } else {
            let i = choose|i: int| 0 <= i < b.len() && (#[trigger] b[i]).plane == p;
            assert(ab[a.len() + i] == b[i]);
        }
    }
    assert(planes_of(ab) =~= planes_of(a).union(planes_of(b)));
}

pub proof fn lemma_reversed_planes_union<K: Kernel>(a: Set<Plane<K>>, b: Set<Plane<K>>)
    ensures
        reversed_planes(a.union(b)) == reversed_planes(a).union(reversed_planes(b)),
{
    assert(reversed_planes(a.union(b)) =~= reversed_planes(a).union(reversed_planes(b)));
}

pub proof fn lemma_reversed_planes_twice<K: Kernel>(a: Set<Plane<K>>)
    ensures
        reversed_planes(reversed_planes(a)) == a,
{
    assert forall|p: Plane<K>| reversed_planes(reversed_planes(a)).contains(p) <==> a.contains(p) by {
        assert(p.reversed().reversed() == p);
    }
    assert(reversed_planes(reversed_planes(a)) =~= a);
}

pub proof fn lemma_reversed_planes_subset<K: Kernel>(a: Set<Plane<K>>, b: Set<Plane<K>>)
    requires
        a.subset_of(b),
    ensures
        reversed_planes(a).subset_of(reversed_planes(b)),
{
}

pub proof fn lemma_planes_of_flipped<K: Kernel>(a: Seq<Polygon<K>>, b: Seq<Polygon<K>>)
    requires
        a.len() == b.len(),
        forall|i: int| 0 <= i < a.len() ==> is_flip_of(#[trigger] a[i], b[i]),
    ensures
        planes_of(a) == reversed_planes(planes_of(b)),
{
    assert forall|p: Plane<K>| planes_of(a).contains(p) <==> reversed_planes(planes_of(b)).contains(p) by {
        if planes_of(a).contains(p) {
            let i = choose|i: int| 0 <= i < a.len() && (#[trigger] a[i]).plane == p;
            assert(is_flip_of(a[i], b[i]));
            assert(b[i].plane == p.reversed());
        }
        if reversed_planes(planes_of(b)).contains(p) {
            let i = choose|i: int| 0 <= i < b.len() && (#[trigger] b[i]).plane == p.reversed();
            assert(is_flip_of(a[i], b[i]));
            assert(a[i].plane == p);
        }
    }
    assert(planes_of(a) =~= reversed_planes(planes_of(b)));
}

pub proof fn lemma_planes_of_same<K: Kernel>(a: Seq<Polygon<K>>, b: Seq<Polygon<K>>)
    requires
        same_polygons(a, b),
    ensures
        planes_of(a) == planes_of(b),
{
    assert forall|p: Plane<K>| planes_of(a).contains(p) <==> planes_of(b).contains(p) by {
        if planes_of(a).contains(p) {
            let i = choose|i: int| 0 <= i < a.len() && (#[trigger] a[i]).plane == p;
            assert(same_polygon(a[i], b[i]));
        }
        if planes_of(b).contains(p) {
            let i = choose|i: int| 0 <= i < b.len() && (#[trigger] b[i]).plane == p;
            assert(same_polygon(a[i], b[i]));
        }
    }
    assert(planes_of(a) =~= planes_of(b));
}

/// The vector in reverse order.
pub fn reverse_vec<T>(v: Vec<T>) -> (r: Vec<T>)
    ensures
        r@ == v@.reverse(),
{
    let ghost orig = v@;
    let mut v = v;
    let mut r: Vec<T> = Vec::with_capacity(v.len());
    while v.len() > 0
        invariant
            v@.len() + r@.len() == orig.len(),
            v@ == orig.subrange(0, v@.len() as int),
            r@ == orig.subrange(v@.len() as int, orig.len() as int).reverse(),
        decreases v@.len(),
    {
        let ghost k = v@.len() - 1;
        let x = v.pop().unwrap();
        proof {
            assert(x == orig[k]);
            assert(orig.subrange(k, orig.len() as int).reverse() =~= orig.subrange(k + 1, orig.len() as int).reverse().push(orig[k]));
        }
        r.push(x);
    }
    proof {
        assert(orig.subrange(0, orig.len() as int) =~= orig);
    }
    r
}

/// Turns over every polygon of the list, keeping the list's order.
fn flip_each<K: Kernel>(polygons: Vec<Polygon<K>>) -> (r: Vec<Polygon<K>>)
    ensures
        r@.len() == polygons@.len(),
        forall|i: int| 0 <= i < r@.len() ==> is_flip_of(#[trigger] r@[i], polygons@[i]),
{
    let ghost orig = polygons@;
    let n = polygons.len();
    let mut rest = reverse_vec(polygons);
    let mut r: Vec<Polygon<K>> = Vec::with_capacity(n);
    while rest.len() > 0
        invariant
            n == orig.len(),
            r@.len() + rest@.len() == n,
            rest@ == orig.subrange(r@.len() as int, n as int).reverse(),
            forall|i: int| 0 <= i < r@.len() ==> is_flip_of(#[trigger] r@[i], orig[i]),
        decreases rest@.len(),
    {
        let ghost k = r@.len() as int;
        let mut p = rest.pop().unwrap();
        proof {
            assert(p == orig[k]);
            assert(rest@ =~= orig.subrange(k + 1, n as int).reverse());
        }
        p.flip();
        r.push(p);
    }
    r
}

/// Pieces sent on from a node lie on planes other than the node's, so the
/// plane count below the node is smaller than at it.
proof fn lemma_fresh_planes_shrink<K: Kernel>(
    old_plane: Option<Plane<K>>,
    plane: Plane<K>,
    orig: Seq<Polygon<K>>,
    sent: Seq<Polygon<K>>,
)
    requires
        orig.len() > 0,
        old_plane.is_some() ==> old_plane == Some(plane),
        old_plane.is_none() ==> plane == orig[0].plane,
        planes_of(sent).subset_of(planes_of(orig)),
        forall|i: int| 0 <= i < sent.len() ==> (#[trigger] sent[i]).plane.surface != plane.surface,
    ensures
        fresh_planes(None, sent) < fresh_planes(old_plane, orig),
{
    let f = |p: Polygon<K>| p.plane.surface;
    let ko = surfaces_of(orig);
    let ks = surfaces_of(sent);
    let all = ko.insert(plane.surface);
    assert(ko.finite()) by {
        vstd::seq_lib::seq_to_set_is_finite(orig.map_values(f));
    }
    assert forall|x: K::Surface| ks.contains(x) implies all.remove(plane.surface).contains(x) by {
        let i = choose|i: int| 0 <= i < sent.map_values(f).len() && sent.map_values(f)[i] == x;
        assert(sent.map_values(f)[i] == sent[i].plane.surface);
        assert(planes_of(sent).contains(sent[i].plane));
        let j = choose|j: int| 0 <= j < orig.len() && (#[trigger] orig[j]).plane == sent[i].plane;
        assert(orig.map_values(f)[j] == x);
    }
    lemma_len_subset(ks, all.remove(plane.surface));
    vstd::set::axiom_set_remove_len(all, plane.surface);
    if old_plane.is_none() {
        assert(orig.map_values(f)[0] == plane.surface);
        assert(ko.contains(plane.surface));
        assert(all =~= ko);
    }
}

/// How `plane` sorts `pv` for part `sel`: a clip splits every polygon
/// ([`split_view`]); a build sorts by the node's rule ([`node_split_view`]).
pub open spec fn sort_for<K: Kernel>(plane: Plane<K>, pv: PolygonView<K>, sel: int) -> (
    Seq<PolygonView<K>>,
    Seq<PolygonView<K>>,
    Seq<PolygonView<K>>,
    Seq<PolygonView<K>>,
) {
    if sel >= 2 { node_split_view(plane, pv) } else { split_view(plane, pv) }
}

/// One part of how a plane sorts a polygon: `0` what a clip keeps in front
/// (coplanar front and front), `1` what it sends behind (coplanar back and
/// back), `2` what a build keeps in the node (both coplanar lists), `3` the
/// front pieces, `4` the back pieces.
pub open spec fn part<K: Kernel>(
    t: (Seq<PolygonView<K>>, Seq<PolygonView<K>>, Seq<PolygonView<K>>, Seq<PolygonView<K>>),
    sel: int,
) -> Seq<PolygonView<K>> {
    if sel == 0 {
        t.0 + t.2
    } else if sel == 1 {
        t.1 + t.3
    } else if sel == 2 {
        t.0 + t.1
    } else if sel == 3 {
        t.2
    } else {
        t.3
    }
}

/// Part `sel` of every polygon of `s` sorted by `plane`, in order.
pub open spec fn gather<K: Kernel>(plane: Plane<K>, s: Seq<PolygonView<K>>, sel: int) -> Seq<PolygonView<K>>
    decreases s.len(),
{
    if s.len() == 0 {
        seq![]
    } else {
        gather(plane, s.drop_last(), sel) + part(sort_for(plane, s.last(), sel), sel)
    }
}

/// What clipping `s` by the tree `node` leaves: nothing changes without a
/// plane; otherwise the pieces in front go through the front child (or
/// stay), the pieces behind through the back child (or are dropped).
pub open spec fn clip_spec<K: Kernel>(node: Node<K>, s: Seq<PolygonView<K>>) -> Seq<PolygonView<K>>
    decreases node,
{
    match node.plane {
        None => s,
        Some(p) => {
            let f = gather(p, s, 0);
            let b = gather(p, s, 1);
            (match node.front {
                Some(c) => clip_spec(*c, f),
                None => f,
            }) + (match node.back {
                Some(c) => clip_spec(*c, b),
                None => seq![],
            })
        },
    }
}

/// `new` is `old` with every node's polygons clipped by `bsp`.
pub open spec fn is_clipped<K: Kernel>(new: Node<K>, old: Node<K>, bsp: Node<K>) -> bool
    decreases old,
{
    &&& new.plane == old.plane
    &&& views(new.polygons@) == clip_spec(bsp, views(old.polygons@))
    &&& match (new.front, old.front) {
        (Some(x), Some(y)) => is_clipped(*x, *y, bsp),
        (None, None) => true,
        _ => false,
    }
    &&& match (new.back, old.back) {
        (Some(x), Some(y)) => is_clipped(*x, *y, bsp),
        (None, None) => true,
        _ => false,
    }
}

/// `new` is what building the polygons `s` into a node with plane `plane`,
/// polygons `polys` and children `front` and `back` gives. Nothing changes
/// when `s` is empty. Otherwise the node keeps its plane, or takes the first
/// polygon's; each polygon is sorted by [`node_split_view`]; the coplanar
/// pieces join its polygons; the front and back pieces are built into the
/// children, a missing child being made fresh when it receives any.
pub open spec fn is_built<K: Kernel>(
    new: Node<K>,
    plane: Option<Plane<K>>,
    polys: Seq<PolygonView<K>>,
    front: Option<Box<Node<K>>>,
    back: Option<Box<Node<K>>>,
    s: Seq<PolygonView<K>>,
) -> bool
    decreases new, 1nat,
{
    if s.len() == 0 {
        &&& new.plane == plane
        &&& views(new.polygons@) == polys
        &&& new.front == front
        &&& new.back == back
    } else {
        let p = match plane {
            Some(q) => q,
            None => s[0].1,
        };
        &&& new.plane == Some(p)
        &&& views(new.polygons@) == polys + gather(p, s, 2)
        &&& subtree_built(new.front, front, gather(p, s, 3))
        &&& subtree_built(new.back, back, gather(p, s, 4))
    }
}

/// [`is_built`] for an optional child.
pub open spec fn subtree_built<K: Kernel>(new: Option<Box<Node<K>>>, old: Option<Box<Node<K>>>, s: Seq<PolygonView<K>>) -> bool
    decreases new, 0nat,
{
    if s.len() == 0 {
        new == old
    } else {
        match new {
            Some(n) => match old {
                Some(o) => is_built(*n, o.plane, views(o.polygons@), o.front, o.back, s),
                None => is_built(*n, None, seq![], None, None, s),
            },
            None => false,
        }
    }
}

pub proof fn lemma_views_concat<K: Kernel>(a: Seq<Polygon<K>>, b: Seq<Polygon<K>>)
    ensures
        views(a + b) == views(a) + views(b),
{
    assert(views(a + b) =~= views(a) + views(b));
}

proof fn lemma_gather_step<K: Kernel>(plane: Plane<K>, orig: Seq<Polygon<K>>, k: int, sel: int)
    requires
        0 <= k < orig.len(),
    ensures
        gather(plane, views(orig).subrange(0, k + 1), sel)
            == gather(plane, views(orig).subrange(0, k), sel) + part(sort_for(plane, view_of(orig[k]), sel), sel),
{
    let s = views(orig).subrange(0, k + 1);
    assert(s.drop_last() =~= views(orig).subrange(0, k));
    assert(s.last() == view_of(orig[k]));
}

/// A node of a binary space partition tree.
///
/// Each node splits space by its plane. The polygons lying on that plane
/// are kept in the node; the front child partitions what lies in front,
/// the back child what lies behind. A node without a back child stands
/// for solid interior behind its plane.
pub struct Node<K: Kernel> {
    pub plane: Option<Plane<K>>,
    pub front: Option<Box<Node<K>>>,
    pub back: Option<Box<Node<K>>>,
    pub polygons: Vec<Polygon<K>>,
}

/// The polygons of an optional subtree.
pub open spec fn subtree_all<K: Kernel>(n: Option<Box<Node<K>>>) -> Seq<Polygon<K>>
    decreases n,
{
    match n {
        Some(b) => b.all(),
        None => seq![],
    }
}

/// The height of an optional subtree, counting the link to it.
pub open spec fn subtree_height<K: Kernel>(n: Option<Box<Node<K>>>) -> nat
    decreases n,
{
    match n {
        Some(b) => b.height() + 1,
        None => 0,
    }
}

/// `a` is the subtree `b` turned inside out.
pub open spec fn subtree_inverse<K: Kernel>(a: Option<Box<Node<K>>>, b: Option<Box<Node<K>>>) -> bool
    decreases b,
{
    match (a, b) {
        (Some(x), Some(y)) => x.is_inverse_of(*y),
        (None, None) => true,
        _ => false,
    }
}

/// The plane count that bounds how deep new nodes can grow below a node
/// with plane `plane` that receives the polygons `s`.
pub open spec fn fresh_planes<K: Kernel>(plane: Option<Plane<K>>, s: Seq<Polygon<K>>) -> nat {
    match plane {
        Some(p) => surfaces_of(s).insert(p.surface).len(),
        None => surfaces_of(s).len(),
    }
}

impl<K: Kernel> Node<K> {
    /// Every polygon of the tree: this node's, then the front subtree's,
    /// then the back subtree's.
    pub open spec fn all(self) -> Seq<Polygon<K>>
        decreases self,
    {
        self.polygons@ + subtree_all(self.front) + subtree_all(self.back)
    }

    pub open spec fn height(self) -> nat
        decreases self,
    {
        let f = subtree_height(self.front);
        let b = subtree_height(self.back);
        if f >= b { f } else { b }
    }

    /// `self` is `o` turned inside out: every plane and polygon reversed,
    /// and the two children exchanged.
    pub open spec fn is_inverse_of(self, o: Node<K>) -> bool
        decreases o,
    {
        &&& self.polygons@.len() == o.polygons@.len()
        &&& forall|i: int| 0 <= i < self.polygons@.len() ==> is_flip_of(#[trigger] self.polygons@[i], o.polygons@[i])
        &&& match (self.plane, o.plane) {
            (Some(p), Some(q)) => p == q.reversed(),
            (None, None) => true,
            _ => false,
        }
        &&& subtree_inverse(self.front, o.back)
        &&& subtree_inverse(self.back, o.front)
    }

    fn empty() -> (r: Node<K>)
        ensures
            r.plane.is_none(),
            r.front.is_none(),
            r.back.is_none(),
            r.polygons@.len() == 0,
            r.all().len() == 0,
            r.height() == 0,
    {
        let r = Node { plane: None, front: None, back: None, polygons: Vec::new() };
        proof {
            assert(r.all() =~= seq![]);
        }
        r
    }
    /// Turns the tree inside out: the solid it bounds becomes its complement.
    /// Every polygon and plane is reversed and the children are exchanged.
    pub fn invert(&mut self)
        ensures
            final(self).is_inverse_of(*old(self)),
            planes_of(final(self).all()) == reversed_planes(planes_of(old(self).all())),
        decreases *old(self),
    {
        let ghost o = *self;
        let mut own: Vec<Polygon<K>> = Vec::new();
        std::mem::swap(&mut own, &mut self.polygons);
        self.polygons = flip_each(own);
        match self.plane.take() {
            Some(p) => {
                let mut p = p;
                p.flip();
                self.plane = Some(p);
            },
            None => {},
        }
        let new_back = match self.front.take() {
            Some(mut b) => {
                (&mut *b).invert();
                Some(b)
            },
            None => None,
        };
        let new_front = match self.back.take() {
            Some(mut b) => {
                (&mut *b).invert();
                Some(b)
            },
            None => None,
        };
        self.front = new_front;
        self.back = new_back;
        proof {
            lemma_planes_of_flipped(self.polygons@, o.polygons@);
            lemma_planes_of_concat(self.polygons@ + subtree_all(self.front), subtree_all(self.back));
            lemma_planes_of_concat(self.polygons@, subtree_all(self.front));
            lemma_planes_of_concat(o.polygons@ + subtree_all(o.front), subtree_all(o.back));
            lemma_planes_of_concat(o.polygons@, subtree_all(o.front));
            assert(planes_of(subtree_all(self.front)) == reversed_planes(planes_of(subtree_all(o.back))));
            assert(planes_of(subtree_all(self.back)) == reversed_planes(planes_of(subtree_all(o.front))));
            lemma_reversed_planes_union(planes_of(o.polygons@), planes_of(subtree_all(o.front)));
            lemma_reversed_planes_union(planes_of(o.polygons@).union(planes_of(subtree_all(o.front))), planes_of(subtree_all(o.back)));
            assert(planes_of(self.all()) =~= reversed_planes(planes_of(o.all())));
        }
    }
    /// Removes the parts of `polygons` that lie inside the solid this tree
    /// bounds. Without a plane the list comes back unchanged; otherwise each
    /// polygon is split by the plane, coplanar pieces going with the side
    /// they face, the front pieces are clipped by the front child (kept as
    /// they are when there is none) and the back pieces by the back child
    /// (dropped when there is none: behind such a plane is solid).
    pub fn clip_polygons(&self, polygons: Vec<Polygon<K>>) -> (r: Vec<Polygon<K>>)
        ensures
            self.plane.is_none() ==> r@ == polygons@,
            planes_of(r@).subset_of(planes_of(polygons@)),
            views(r@) == clip_spec(*self, views(polygons@)),
        decreases *self,
    {
        let plane = match &self.plane {
            None => return polygons,
            Some(p) => p,
        };
        let ghost orig = polygons@;
        let n = polygons.len();
        let mut rest = reverse_vec(polygons);
        let mut front: Vec<Polygon<K>> = Vec::new();
        let mut back: Vec<Polygon<K>> = Vec::new();
        while rest.len() > 0
            invariant
                rest@.len() <= n == orig.len(),
                rest@ == orig.subrange(n - rest@.len(), n as int).reverse(),
                planes_of(front@).subset_of(planes_of(orig)),
                planes_of(back@).subset_of(planes_of(orig)),
                views(front@) == gather(*plane, views(orig).subrange(0, n - rest@.len()), 0),
                views(back@) == gather(*plane, views(orig).subrange(0, n - rest@.len()), 1),
            decreases rest@.len(),
        {
            let ghost k = n - rest@.len();
            let p = rest.pop().unwrap();
            proof {
                assert(p == orig[k]);
                assert(rest@ =~= orig.subrange(k + 1, n as int).reverse());
            }
            let ghost f0 = front@;
            let ghost b0 = back@;
            let mut parts: Split<K> = plane.split_polygon(p);
            let ghost parts0 = parts;
            front.append(&mut parts.coplanar_front);
            front.append(&mut parts.front);
            back.append(&mut parts.coplanar_back);
            back.append(&mut parts.back);
            proof {
                assert(sort_for(*plane, view_of(orig[k]), 0) == split_view(*plane, view_of(orig[k])));
                assert(sort_for(*plane, view_of(orig[k]), 1) == split_view(*plane, view_of(orig[k])));
                lemma_gather_step(*plane, orig, k, 0);
                lemma_gather_step(*plane, orig, k, 1);
                lemma_views_concat(f0 + parts0.coplanar_front@, parts0.front@);
                lemma_views_concat(f0, parts0.coplanar_front@);
                lemma_views_concat(b0 + parts0.coplanar_back@, parts0.back@);
                lemma_views_concat(b0, parts0.coplanar_back@);
                let pf = parts0.coplanar_front@ + parts0.front@;
                let pb = parts0.coplanar_back@ + parts0.back@;
                assert(front@ == f0 + pf);
                assert(back@ == b0 + pb);
                assert(planes_of(pf).subset_of(planes_of(orig))) by {
                    assert forall|q: Plane<K>| planes_of(pf).contains(q) implies planes_of(orig).contains(q) by {
                        let i = choose|i: int| 0 <= i < pf.len() && (#[trigger] pf[i]).plane == q;
                        let all = parts0.all();
                        if i < parts0.coplanar_front@.len() {
                            assert(all[i] == pf[i]);
                        } else {
                            let j = i - parts0.coplanar_front@.len();
                            assert(all[parts0.coplanar_front@.len() + parts0.coplanar_back@.len() + j] == pf[i]);
                        }
                        assert(orig[k].plane == q);
                    }
                }
                assert(planes_of(pb).subset_of(planes_of(orig))) by {
                    assert forall|q: Plane<K>| planes_of(pb).contains(q) implies planes_of(orig).contains(q) by {
                        let i = choose|i: int| 0 <= i < pb.len() && (#[trigger] pb[i]).plane == q;
                        let all = parts0.all();
                        let a = parts0.coplanar_front@.len() as int;
                        let c = a + parts0.coplanar_back@.len() + parts0.front@.len();
                        if i < parts0.coplanar_back@.len() {
                            assert(all[a + i] == pb[i]);
                        } else {
                            let j = i - parts0.coplanar_back@.len();
                            assert(all[c + j] == pb[i]);
                        }
                        assert(orig[k].plane == q);
                    }
                }
                lemma_planes_of_concat(f0, pf);
                lemma_planes_of_concat(b0, pb);
            }
        }
        let mut front = match &self.front {
            Some(f) => f.clip_polygons(front),
            None => front,
        };
        let mut back = match &self.back {
            Some(b) => b.clip_polygons(back),
            None => Vec::new(),
        };
        let ghost f1 = front@;
        let ghost b1 = back@;
        front.append(&mut back);
        proof {
            lemma_planes_of_concat(f1, b1);
            lemma_views_concat(f1, b1);
            assert(views(orig).subrange(0, n as int) =~= views(orig));
        }
        front
    }

    /// Clips every polygon of this tree by `bsp`, in place.
    pub fn clip_to(&mut self, bsp: &Node<K>)
        ensures
            final(self).plane == old(self).plane,
            planes_of(final(self).all()).subset_of(planes_of(old(self).all())),
            is_clipped(*final(self), *old(self), *bsp),
        decreases *old(self),
    {
        let ghost o = *self;
        let mut own: Vec<Polygon<K>> = Vec::new();
        std::mem::swap(&mut own, &mut self.polygons);
        self.polygons = bsp.clip_polygons(own);
        match self.front.take() {
            Some(mut b) => {
                (&mut *b).clip_to(bsp);
                self.front = Some(b);
            },
            None => {},
        }
        match self.back.take() {
            Some(mut b) => {
                (&mut *b).clip_to(bsp);
                self.back = Some(b);
            },
            None => {},
        }
        proof {
            lemma_planes_of_concat(self.polygons@ + subtree_all(self.front), subtree_all(self.back));
            lemma_planes_of_concat(self.polygons@, subtree_all(self.front));
            lemma_planes_of_concat(o.polygons@ + subtree_all(o.front), subtree_all(o.back));
            lemma_planes_of_concat(o.polygons@, subtree_all(o.front));
        }
    }
    /// Adds `polygons` to the tree. A node without a plane takes the plane
    /// of the first polygon. Each polygon is split by the node's plane: the
    /// coplanar pieces stay in the node, the front and back pieces are
    /// built into the front and back children, which are made when first
    /// needed.
    ///
    /// A polygon on the node's very surface is kept as coplanar without
    /// being measured (see [`node_split_view`]); for a polygon lying on its
    /// own surface that is what measuring gives
    /// ([`crate::polygon::lemma_node_split_agrees`]), and it is what bounds
    /// the depth of the tree.
    pub fn build(&mut self, polygons: Vec<Polygon<K>>)
        ensures
            polygons@.len() == 0 ==> *final(self) == *old(self),
            old(self).plane.is_some() ==> final(self).plane == old(self).plane,
            old(self).plane.is_none() && polygons@.len() > 0 ==> final(self).plane == Some(polygons@[0].plane),
            planes_of(final(self).all()).subset_of(planes_of(old(self).all()).union(planes_of(polygons@))),
            is_built(*final(self), old(self).plane, views(old(self).polygons@), old(self).front, old(self).back, views(polygons@)),
        decreases old(self).height(), fresh_planes(old(self).plane, polygons@),
    {
        if polygons.len() == 0 {
            return;
        }
        let ghost o = *self;
        let ghost orig = polygons@;
        let plane = match &self.plane {
            Some(p) => p.copy(),
            None => polygons[0].plane.copy(),
        };
        if self.plane.is_none() {
            self.plane = Some(plane.copy());
        }
        let n = polygons.len();
        let mut rest = reverse_vec(polygons);
        let mut front: Vec<Polygon<K>> = Vec::new();
        let mut back: Vec<Polygon<K>> = Vec::new();
        while rest.len() > 0
            invariant
                rest@.len() <= n == orig.len(),
                rest@ == orig.subrange(n - rest@.len(), n as int).reverse(),
                self.plane == Some(plane),
                self.front == o.front,
                self.back == o.back,
                planes_of(self.polygons@).subset_of(planes_of(o.polygons@).union(planes_of(orig))),
                planes_of(front@).subset_of(planes_of(orig)),
                planes_of(back@).subset_of(planes_of(orig)),
                forall|i: int| 0 <= i < front@.len() ==> (#[trigger] front@[i]).plane.surface != plane.surface,
                forall|i: int| 0 <= i < back@.len() ==> (#[trigger] back@[i]).plane.surface != plane.surface,
                views(self.polygons@) == views(o.polygons@) + gather(plane, views(orig).subrange(0, n - rest@.len()), 2),
                views(front@) == gather(plane, views(orig).subrange(0, n - rest@.len()), 3),
                views(back@) == gather(plane, views(orig).subrange(0, n - rest@.len()), 4),
            decreases rest@.len(),
        {
            let ghost k = n - rest@.len();
            let p = rest.pop().unwrap();
            proof {
                assert(p == orig[k]);
                assert(rest@ =~= orig.subrange(k + 1, n as int).reverse());
            }
            let ghost own0 = self.polygons@;
            let ghost f0 = front@;
            let ghost b0 = back@;
            let mut parts: Split<K> = if K::same_surface(&plane.surface, &p.plane.surface) {
                let mut on_node = Split { coplanar_front: Vec::new(), coplanar_back: Vec::new(), front: Vec::new(), back: Vec::new() };
                if p.plane.flipped == plane.flipped {
                    on_node.coplanar_front.push(p);
                } else {
                    on_node.coplanar_back.push(p);
                }
                proof {
                    assert(on_node.all() =~= seq![orig[k]]);
                    assert(views(on_node.coplanar_front@) =~= node_split_view(plane, view_of(orig[k])).0);
                    assert(views(on_node.coplanar_back@) =~= node_split_view(plane, view_of(orig[k])).1);
                    assert(views(on_node.front@) =~= node_split_view(plane, view_of(orig[k])).2);
                    assert(views(on_node.back@) =~= node_split_view(plane, view_of(orig[k])).3);
                }
                on_node
            } else {
                plane.split_polygon(p)
            };
            let ghost parts0 = parts;
            proof {
                assert(all_on_plane(parts0.all(), orig[k].plane));
                assert(views(parts0.coplanar_front@) == node_split_view(plane, view_of(orig[k])).0);
                assert(views(parts0.coplanar_back@) == node_split_view(plane, view_of(orig[k])).1);
                assert(views(parts0.front@) == node_split_view(plane, view_of(orig[k])).2);
                assert(views(parts0.back@) == node_split_view(plane, view_of(orig[k])).3);
                assert(orig[k].plane.surface == plane.surface ==> parts0.front@.len() == 0 && parts0.back@.len() == 0);
            }
            self.polygons.append(&mut parts.coplanar_front);
            self.polygons.append(&mut parts.coplanar_back);
            front.append(&mut parts.front);
            back.append(&mut parts.back);
            proof {
                assert(sort_for(plane, view_of(orig[k]), 2) == node_split_view(plane, view_of(orig[k])));
                assert(sort_for(plane, view_of(orig[k]), 3) == node_split_view(plane, view_of(orig[k])));
                assert(sort_for(plane, view_of(orig[k]), 4) == node_split_view(plane, view_of(orig[k])));
                lemma_gather_step(plane, orig, k, 2);
                lemma_gather_step(plane, orig, k, 3);
                lemma_gather_step(plane, orig, k, 4);
                lemma_views_concat(own0 + parts0.coplanar_front@, parts0.coplanar_back@);
                lemma_views_concat(own0, parts0.coplanar_front@);
                lemma_views_concat(f0, parts0.front@);
                lemma_views_concat(b0, parts0.back@);
                assert(views(self.polygons@) == views(o.polygons@) + gather(plane, views(orig).subrange(0, k + 1), 2));
                let all = parts0.all();
                let a = parts0.coplanar_front@.len() as int;
                let b = a + parts0.coplanar_back@.len();
                let c = b + parts0.front@.len();
                let pc = parts0.coplanar_front@ + parts0.coplanar_back@;
                assert(all_on_plane(all, orig[k].plane));
                assert forall|i: int| 0 <= i < pc.len() implies (#[trigger] pc[i]).plane == orig[k].plane by {
                    assert(all[i] == pc[i]);
                }
                assert forall|i: int| 0 <= i < parts0.front@.len() implies (#[trigger] parts0.front@[i]).plane == orig[k].plane by {
                    assert(all[b + i] == parts0.front@[i]);
                }
                assert forall|i: int| 0 <= i < parts0.back@.len() implies (#[trigger] parts0.back@[i]).plane == orig[k].plane by {
                    assert(all[c + i] == parts0.back@[i]);
                }
                assert(planes_of(orig).contains(orig[k].plane));
                assert(planes_of(pc).subset_of(planes_of(orig)));
                assert(planes_of(parts0.front@).subset_of(planes_of(orig)));
                assert(planes_of(parts0.back@).subset_of(planes_of(orig)));
                assert(self.polygons@ == own0 + pc);
                assert(front@ == f0 + parts0.front@);
                assert(back@ == b0 + parts0.back@);
                lemma_planes_of_concat(own0, pc);
                lemma_planes_of_concat(f0, parts0.front@);
                lemma_planes_of_concat(b0, parts0.back@);
                assert forall|i: int| 0 <= i < front@.len() implies (#[trigger] front@[i]).plane.surface != plane.surface by {
                    if i >= f0.len() {
                        assert(front@[i] == parts0.front@[i - f0.len()]);
                    }
                }
                assert forall|i: int| 0 <= i < back@.len() implies (#[trigger] back@[i]).plane.surface != plane.surface by {
                    if i >= b0.len() {
                        assert(back@[i] == parts0.back@[i - b0.len()]);
                    }
                }
            }
        }
        proof {
            lemma_fresh_planes_shrink(o.plane, plane, orig, front@);
            lemma_fresh_planes_shrink(o.plane, plane, orig, back@);
            assert(views(orig).subrange(0, n as int) =~= views(orig));
            assert(views(orig)[0].1 == orig[0].plane);
        }
        let ghost sent_front = views(front@);
        if front.len() > 0 {
            let mut child = match self.front.take() {
                Some(b) => *b,
                None => Node::empty(),
            };
            proof {
                if o.front.is_none() {
                    assert(views(child.polygons@) =~= seq![]);
                }
            }
            child.build(front);
            self.front = Some(Box::new(child));
        }
        proof {
            assert(subtree_built(self.front, o.front, sent_front));
        }
        let ghost sent_back = views(back@);
        if back.len() > 0 {
            let mut child = match self.back.take() {
                Some(b) => *b,
                None => Node::empty(),
            };
            proof {
                if o.back.is_none() {
                    assert(views(child.polygons@) =~= seq![]);
                }
            }
            child.build(back);
            self.back = Some(Box::new(child));
        }
        proof {
            assert(subtree_built(self.back, o.back, sent_back));
        }
        proof {
            lemma_planes_of_concat(self.polygons@ + subtree_all(self.front), subtree_all(self.back));
            lemma_planes_of_concat(self.polygons@, subtree_all(self.front));
            lemma_planes_of_concat(o.polygons@ + subtree_all(o.front), subtree_all(o.back));
            lemma_planes_of_concat(o.polygons@, subtree_all(o.front));
        }
    }
    /// A tree holding `polygons`.
    pub fn new(polygons: Vec<Polygon<K>>) -> (r: Node<K>)
        ensures
            is_built(r, None, seq![], None, None, views(polygons@)),
            polygons@.len() == 0 ==> r.plane.is_none() && r.all().len() == 0,
            polygons@.len() > 0 ==> r.plane == Some(polygons@[0].plane),
            planes_of(r.all()).subset_of(planes_of(polygons@)),
    {
        let mut r = Node::empty();
        proof {
            assert(views(r.polygons@) =~= seq![]);
        }
        r.build(polygons);
        proof {
            assert(planes_of(seq![]) =~= Set::<Plane<K>>::empty());
        }
        r
    }

    /// A copy of every polygon of the tree, in the order of [`Node::all`].
    pub fn all_polygons(&self) -> (r: Vec<Polygon<K>>)
        ensures
            same_polygons(r@, self.all()),
            planes_of(r@) == planes_of(self.all()),
        decreases *self,
    {
        let mut r: Vec<Polygon<K>> = Vec::with_capacity(self.polygons.len());
        let mut i: usize = 0;
        while i < self.polygons.len()
            invariant
                i <= self.polygons@.len(),
                same_polygons(r@, self.polygons@.subrange(0, i as int)),
            decreases self.polygons@.len() - i,
        {
            r.push(self.polygons[i].duplicate());
            i = i + 1;
        }
        proof {
            assert(self.polygons@.subrange(0, self.polygons@.len() as int) =~= self.polygons@);
        }
        let ghost r0 = r@;
        let mut f = match &self.front {
            Some(b) => b.all_polygons(),
            None => Vec::new(),
        };
        let ghost f0 = f@;
        r.append(&mut f);
        let mut b = match &self.back {
            Some(b) => b.all_polygons(),
            None => Vec::new(),
        };
        let ghost b0 = b@;
        r.append(&mut b);
        proof {
            let a = self.all();
            assert(a == self.polygons@ + subtree_all(self.front) + subtree_all(self.back));
            assert(same_polygons(f0, subtree_all(self.front)));
            assert(same_polygons(b0, subtree_all(self.back)));
            assert forall|k: int| 0 <= k < r@.len() implies same_polygon(#[trigger] r@[k], a[k]) by {
                let n0 = r0.len() as int;
                let n1 = n0 + f0.len();
                if k < n0 {
                    assert(r@[k] == r0[k]);
                    assert(a[k] == self.polygons@[k]);
                } else if k < n1 {
                    assert(r@[k] == f0[k - n0]);
                    assert(a[k] == subtree_all(self.front)[k - n0]);
                } else {
                    assert(r@[k] == b0[k - n1]);
                    assert(a[k] == subtree_all(self.back)[k - n1]);
                }
            }
            lemma_planes_of_same(r@, a);
        }
        r
    }

    /// Every polygon of the tree, in the order of [`Node::all`], consuming it.
    pub fn into_polygons(self) -> (r: Vec<Polygon<K>>)
        ensures
            r@ == self.all(),
        decreases self,
    {
        let ghost a = self.all();
        let Node { plane: _, front, back, polygons } = self;
        let mut r = polygons;
        let mut f = match front {
            Some(b) => (*b).into_polygons(),
            None => Vec::new(),
        };
        r.append(&mut f);
        let mut b = match back {
            Some(b) => (*b).into_polygons(),
            None => Vec::new(),
        };
        r.append(&mut b);
        proof {
            assert(r@ =~= a);
        }
        r
    }
}

/// `a` and `b` have the same planes, the same polygons node by node, and
/// the same shape.
pub open spec fn same_tree<K: Kernel>(a: Node<K>, b: Node<K>) -> bool
    decreases b,
{
    &&& a.plane == b.plane
    &&& same_polygons(a.polygons@, b.polygons@)
    &&& match (a.front, b.front) {
        (Some(x), Some(y)) => same_tree(*x, *y),
        (None, None) => true,
        _ => false,
    }
    &&& match (a.back, b.back) {
        (Some(x), Some(y)) => same_tree(*x, *y),
        (None, None) => true,
        _ => false,
    }
}

/// Turning a tree inside out twice gives it back.
pub proof fn lemma_invert_twice<K: Kernel>(a: Node<K>, b: Node<K>, c: Node<K>)
    requires
        b.is_inverse_of(a),
        c.is_inverse_of(b),
    ensures
        same_tree(c, a),
    decreases a,
{
    assert forall|i: int| 0 <= i < c.polygons@.len() implies same_polygon(#[trigger] c.polygons@[i], a.polygons@[i]) by {
        assert(is_flip_of(c.polygons@[i], b.polygons@[i]));
        assert(is_flip_of(b.polygons@[i], a.polygons@[i]));
        assert(c.polygons@[i].vertices@ =~= a.polygons@[i].vertices@);
    }
    match (a.front, b.back, c.front) {
        (Some(x), Some(y), Some(z)) => {
            lemma_invert_twice(*x, *y, *z);
        },
        _ => {},
    }
    match (a.back, b.front, c.back) {
        (Some(x), Some(y), Some(z)) => {
            lemma_invert_twice(*x, *y, *z);
        },
        _ => {},
    }
}

} // verus!
