use vstd::prelude::*;

use crate::kernel::Kernel;
use crate::polygon::{view_of, views, Plane, PlaneKey, Polygon, PolygonView};

verus! {

broadcast use vstd::seq_lib::group_seq_properties;

/// The corners found so far on one plane of a polytope.
pub struct Face<K: Kernel> {
    pub plane: Plane<K>,
    pub corners: Vec<K::Vertex>,
}

/// The faces are keyed by distinct planes, each one of `surfaces`, facing
/// along its normal.
pub open spec fn faces_keyed<K: Kernel>(faces: Seq<Face<K>>, surfaces: Seq<K::Surface>) -> bool {
    &&& forall|a: int, b: int| 0 <= a < b < faces.len() ==> (#[trigger] faces[a]).plane.key != (#[trigger] faces[b]).plane.key
    &&& forall|a: int| 0 <= a < faces.len() ==> !(#[trigger] faces[a]).plane.flipped
        && surfaces.contains(faces[a].plane.surface)
}

/// A face as a value: its plane and its corners.
pub type FaceView<K> = (Plane<K>, Seq<<K as Kernel>::Vertex>);

pub open spec fn face_views<K: Kernel>(fs: Seq<Face<K>>) -> Seq<FaceView<K>> {
    fs.map_values(|f: Face<K>| (f.plane, f.corners@))
}

/// Some face of `fs` has the key.
pub open spec fn has_key<K: Kernel>(fs: Seq<FaceView<K>>, key: PlaneKey) -> bool {
    exists|i: int| 0 <= i < fs.len() && (#[trigger] fs[i]).0.key == key
}

/// The faces with one opened, at the end, for `surface` if none has its key.
pub open spec fn opened<K: Kernel>(fs: Seq<FaceView<K>>, surface: K::Surface) -> Seq<FaceView<K>> {
    let key = K::spec_key(surface);
    if has_key(fs, key) {
        fs
    } else {
        fs.push((Plane { surface, key, flipped: false }, seq![]))
    }
}

/// The index of a face with the key.
pub open spec fn key_slot<K: Kernel>(fs: Seq<FaceView<K>>, key: PlaneKey) -> int {
    choose|i: int| 0 <= i < fs.len() && (#[trigger] fs[i]).0.key == key
}

/// Some corner stands at the point.
pub open spec fn has_corner_at<K: Kernel>(cs: Seq<K::Vertex>, point: K::Point) -> bool {
    exists|m: int| 0 <= m < cs.len() && K::spec_coincide(#[trigger] cs[m], point)
}

/// The faces after `point` is recorded as a corner of the face on
/// `surface`: the face is opened if no face has the surface's key, and the
/// corner is added unless one of the face's corners already stands there.
pub open spec fn add_corner_spec<K: Kernel>(fs: Seq<FaceView<K>>, surface: K::Surface, point: K::Point) -> Seq<FaceView<K>> {
    let fs1 = opened(fs, surface);
    let i = key_slot(fs1, K::spec_key(surface));
    if has_corner_at::<K>(fs1[i].1, point) {
        fs1
    } else {
        fs1.update(i, (fs1[i].0, fs1[i].1.push(K::spec_corner(surface, point))))
    }
}

/// The point lies on or behind every surface.
pub open spec fn holds_all_spec<K: Kernel>(surfaces: Seq<K::Surface>, point: K::Point) -> bool {
    forall|q: int| 0 <= q < surfaces.len() ==> K::spec_holds(#[trigger] surfaces[q], point)
}

/// The faces after the triple `(i, j, k)` of surfaces is considered: if the
/// three meet in a point on or behind every surface, it becomes a corner of
/// each of their faces.
pub open spec fn triple_step<K: Kernel>(ss: Seq<K::Surface>, fs: Seq<FaceView<K>>, i: int, j: int, k: int) -> Seq<FaceView<K>> {
    match K::spec_meet(ss[i], ss[j], ss[k]) {
        Some(p) => if holds_all_spec::<K>(ss, p) {
            add_corner_spec(add_corner_spec(add_corner_spec(fs, ss[i], p), ss[j], p), ss[k], p)
        } else {
            fs
        },
        None => fs,
    }
}

/// The faces after the triples `(i, j, k')`, `j < k' < k`.
pub open spec fn after_k<K: Kernel>(ss: Seq<K::Surface>, fs: Seq<FaceView<K>>, i: int, j: int, k: int) -> Seq<FaceView<K>>
    decreases k - j,
{
    if k <= j + 1 {
        fs
    } else {
        triple_step(ss, after_k(ss, fs, i, j, k - 1), i, j, k - 1)
    }
}

/// The faces after the triples `(i, j', k)`, `i < j' < j`, `j' < k`.
pub open spec fn after_j<K: Kernel>(ss: Seq<K::Surface>, fs: Seq<FaceView<K>>, i: int, j: int) -> Seq<FaceView<K>>
    decreases j - i,
{
    if j <= i + 1 {
        fs
    } else {
        after_k(ss, after_j(ss, fs, i, j - 1), i, j - 1, ss.len() as int)
    }
}

/// The faces after every triple whose first surface comes before `i`, in
/// lexicographic order.
pub open spec fn after_i<K: Kernel>(ss: Seq<K::Surface>, i: int) -> Seq<FaceView<K>>
    decreases i,
{
    if i <= 0 {
        seq![]
    } else {
        after_j(ss, after_i(ss, i - 1), i - 1, ss.len() as int)
    }
}

/// Whether the point lies on or behind every surface.
fn holds_all<K: Kernel>(surfaces: &Vec<K::Surface>, point: &K::Point) -> (r: bool)
    ensures
        r == holds_all_spec::<K>(surfaces@, *point),
{
    let mut i: usize = 0;
    while i < surfaces.len()
        invariant
            i <= surfaces@.len(),
            forall|q: int| 0 <= q < i ==> K::spec_holds(#[trigger] surfaces@[q], *point),
        decreases surfaces@.len() - i,
    {
        if !K::holds(&surfaces[i], point) {
            return false;
        }
        i = i + 1;
    }
    true
}

/// Whether some corner stands at the point already.
fn has_corner<K: Kernel>(corners: &Vec<K::Vertex>, point: &K::Point) -> (r: bool)
    ensures
        r == exists|m: int| 0 <= m < corners@.len() && K::spec_coincide(#[trigger] corners@[m], *point),
{
    let mut i: usize = 0;
    while i < corners.len()
        invariant
            i <= corners@.len(),
            forall|m: int| 0 <= m < i ==> !K::spec_coincide(#[trigger] corners@[m], *point),
        decreases corners@.len() - i,
    {
        if K::coincide(&corners[i], point) {
            return true;
        }
        i = i + 1;
    }
    false
}

/// Records `point` as a corner of the face on `surface`, opening that face
/// if it is new and skipping the point if the face has a corner there.
fn add_corner<K: Kernel>(faces: &mut Vec<Face<K>>, surface: &K::Surface, point: &K::Point, surfaces: Ghost<Seq<K::Surface>>)
    requires
        faces_keyed(old(faces)@, surfaces@),
        surfaces@.contains(*surface),
    ensures
        faces_keyed(final(faces)@, surfaces@),
        final(faces)@.len() >= old(faces)@.len(),
        face_views(final(faces)@) == add_corner_spec(face_views(old(faces)@), *surface, *point),
{
    let ghost fv0 = face_views(faces@);
    let key = K::key(surface);
    let mut f: usize = 0;
    while f < faces.len() && faces[f].plane.key != key
        invariant
            f <= faces@.len(),
            forall|a: int| 0 <= a < f ==> (#[trigger] faces@[a]).plane.key != key,
        decreases faces@.len() - f,
    {
        f = f + 1;
    }
    if f == faces.len() {
        let face = Face { plane: Plane { surface: *surface, key, flipped: false }, corners: Vec::new() };
        proof {
            assert(face.corners@ =~= Seq::<K::Vertex>::empty());
        }
        faces.push(face);
        proof {
            assert(face_views(faces@) =~= fv0.push((Plane { surface: *surface, key, flipped: false }, seq![])));
            let s = faces@;
            assert forall|a: int, b: int| 0 <= a < b < s.len() implies (#[trigger] s[a]).plane.key != (#[trigger] s[b]).plane.key by {
                if b == s.len() - 1 {
                    assert(s[a] == old(faces)@[a]);
                } else {
                    assert(s[a] == old(faces)@[a] && s[b] == old(faces)@[b]);
                }
            }
            assert forall|a: int| 0 <= a < s.len() implies !(#[trigger] s[a]).plane.flipped
                && surfaces@.contains(s[a].plane.surface) by {
                if a < s.len() - 1 {
                    assert(s[a] == old(faces)@[a]);
                }
            }
        }
    }
    let ghost before = faces@;
    proof {
        if f < old(faces)@.len() {
            assert(faces@ == old(faces)@);
            assert(face_views(faces@) == fv0);
            assert(fv0[f as int].0 == old(faces)@[f as int].plane);
            assert(has_key(fv0, key));
        } else {
            assert(face_views(faces@) =~= fv0.push((Plane { surface: *surface, key, flipped: false }, seq![])));
        }
        let fs1 = opened(fv0, *surface);
        if has_key(fv0, key) {
            let j = choose|j: int| 0 <= j < fv0.len() && (#[trigger] fv0[j]).0.key == key;
            assert(fv0[j].0 == old(faces)@[j].plane);
            assert(f < old(faces)@.len());
            assert(before == old(faces)@);
        } else {
            assert forall|j: int| 0 <= j < fv0.len() implies (#[trigger] fv0[j]).0.key != key by {
                assert(fv0[j].0 == old(faces)@[j].plane);
            }
        }
        assert(face_views(before) =~= fs1);
        assert(fs1[f as int].0.key == key);
        let i = key_slot(fs1, key);
        assert(fs1[i].0 == before[i].plane);
        assert(fs1[f as int].0 == before[f as int].plane);
        assert(i == f);
    }
    let mut face = faces.remove(f);
    let ghost face0 = face;
    if !has_corner::<K>(&face.corners, point) {
        face.corners.push(K::corner(surface, point));
    }
    faces.insert(f, face);
    proof {
        let fs1 = face_views(before);
        assert(face0 == before[f as int]);
        assert(fs1[f as int].1 == face0.corners@);
        if exists|m: int| 0 <= m < face0.corners@.len() && K::spec_coincide(#[trigger] face0.corners@[m], *point) {
            assert(face_views(faces@) =~= fs1);
        } else {
            assert(face_views(faces@) =~= fs1.update(f as int, (fs1[f as int].0, fs1[f as int].1.push(K::spec_corner(*surface, *point)))));
        }
        let key = K::spec_key(*surface);
        let sfs1 = opened(fv0, *surface);
        assert(sfs1 == fs1);
        let i = key_slot(sfs1, key);
        assert(sfs1[i].0.key == key);
        assert(i == f);
        let cs = sfs1[i].1;
        assert(cs == face0.corners@);
        if has_corner_at::<K>(cs, *point) {
            let m = choose|m: int| 0 <= m < cs.len() && K::spec_coincide(#[trigger] cs[m], *point);
            assert(K::spec_coincide(face0.corners@[m], *point));
            assert(face_views(faces@) == sfs1);
        } else {
            assert(face_views(faces@) == sfs1.update(i, (sfs1[i].0, cs.push(K::spec_corner(*surface, *point)))));
        }
        assert(face_views(faces@) == add_corner_spec(fv0, *surface, *point));
        let s = faces@;
        assert forall|a: int| 0 <= a < s.len() implies (#[trigger] s[a]).plane == before[a].plane by {
            if a < f {
                assert(s[a] == before[a]);
            } else if a > f {
                assert(s[a] == before[a]);
            }
        }
        assert forall|a: int, b: int| 0 <= a < b < s.len() implies (#[trigger] s[a]).plane.key != (#[trigger] s[b]).plane.key by {
            assert(s[a].plane == before[a].plane && s[b].plane == before[b].plane);
        }
        assert forall|a: int| 0 <= a < s.len() implies !(#[trigger] s[a]).plane.flipped
            && surfaces@.contains(s[a].plane.surface) by {
            assert(s[a].plane == before[a].plane);
        }
    }
}

/// The corners of the convex region bounded by `surfaces`, grouped by
/// plane in the order in which the planes are first met.
///
/// Every three surfaces that meet in one point give a candidate; a
/// candidate outside any surface is dropped, and each survivor becomes a
/// corner of the faces of its three surfaces (once per face).
pub fn generate_vertices<K: Kernel>(surfaces: &Vec<K::Surface>) -> (r: Vec<Face<K>>)
    ensures
        faces_keyed(r@, surfaces@),
        face_views(r@) == after_i::<K>(surfaces@, surfaces@.len() as int),
{
    let n = surfaces.len();
    let mut faces: Vec<Face<K>> = Vec::new();
    let ghost all = surfaces@;
    proof {
        assert(face_views(faces@) =~= after_i::<K>(all, 0));
    }
    let mut i: usize = 0;
    while i < n
        invariant
            n == all.len(),
            all == surfaces@,
            i <= n,
            faces_keyed(faces@, all),
            face_views(faces@) == after_i::<K>(all, i as int),
        decreases n - i,
    {
        let ghost start_i = face_views(faces@);
        let mut j: usize = i + 1;
        while j < n
            invariant
                n == all.len(),
                all == surfaces@,
                i < n,
                i + 1 <= j <= n,
                faces_keyed(faces@, all),
                face_views(faces@) == after_j::<K>(all, start_i, i as int, j as int),
            decreases n - j,
        {
            let ghost start_j = face_views(faces@);
            let mut k: usize = j + 1;
            while k < n
                invariant
                    n == all.len(),
                    all == surfaces@,
                    i < n,
                    j < n,
                    j + 1 <= k <= n,
                    faces_keyed(faces@, all),
                    face_views(faces@) == after_k::<K>(all, start_j, i as int, j as int, k as int),
                decreases n - k,
            {
                let ghost before = face_views(faces@);
                match K::meet(&surfaces[i], &surfaces[j], &surfaces[k]) {
                    Some(point) => {
                        if holds_all::<K>(surfaces, &point) {
                            proof {
                                assert(all.contains(all[i as int]));
                                assert(all.contains(all[j as int]));
                                assert(all.contains(all[k as int]));
                            }
                            add_corner(&mut faces, &surfaces[i], &point, Ghost(all));
                            add_corner(&mut faces, &surfaces[j], &point, Ghost(all));
                            add_corner(&mut faces, &surfaces[k], &point, Ghost(all));
                        }
                    },
                    None => {},
                }
                proof {
                    assert(face_views(faces@) == triple_step::<K>(all, before, i as int, j as int, k as int));
                }
                k = k + 1;
            }
            proof {
                assert(k == n);
                assert(after_j::<K>(all, start_i, i as int, j + 1)
                    == after_k::<K>(all, after_j::<K>(all, start_i, i as int, j as int), i as int, j as int, all.len() as int));
            }
            j = j + 1;
        }
        proof {
            assert(after_i::<K>(all, i + 1) == after_j::<K>(all, after_i::<K>(all, i as int), i as int, all.len() as int));
            if i + 1 >= n {
                assert(j == i + 1);
                assert(after_j::<K>(all, start_i, i as int, n as int) == start_i);
                assert(after_j::<K>(all, start_i, i as int, (i + 1) as int) == start_i);
            } else {
                assert(j == n);
            }
        }
        i = i + 1;
    }
    faces
}

/// Where an insertion sort puts `x` into `sorted`, looking left from `at`:
/// it passes every corner that `x` winds before.
pub open spec fn slot<K: Kernel>(surface: K::Surface, center: K::Point, sorted: Seq<K::Vertex>, x: K::Vertex, at: int) -> int
    decreases at,
{
    if at > 0 && K::spec_winds_before(surface, center, x, sorted[at - 1]) {
        slot::<K>(surface, center, sorted, x, at - 1)
    } else {
        at
    }
}

/// The corners sorted by the kernel's order: an insertion sort, stable.
pub open spec fn insertion_sorted<K: Kernel>(surface: K::Surface, center: K::Point, xs: Seq<K::Vertex>) -> Seq<K::Vertex>
    decreases xs.len(),
{
    if xs.len() == 0 {
        seq![]
    } else {
        let p = insertion_sorted::<K>(surface, center, xs.drop_last());
        p.insert(slot::<K>(surface, center, p, xs.last(), p.len() as int), xs.last())
    }
}

/// The corners of `xs` less than half a turn ahead of `lead`, and the others,
/// each in the order of `xs`.
pub open spec fn split_by_lead<K: Kernel>(surface: K::Surface, center: K::Point, lead: K::Vertex, xs: Seq<K::Vertex>) -> (Seq<K::Vertex>, Seq<K::Vertex>)
    decreases xs.len(),
{
    if xs.len() == 0 {
        (seq![], seq![])
    } else {
        let (a, b) = split_by_lead::<K>(surface, center, lead, xs.drop_last());
        if K::spec_winds_before(surface, center, lead, xs.last()) {
            (a.push(xs.last()), b)
        } else {
            (a, b.push(xs.last()))
        }
    }
}

/// The corners in winding order around `center`: the first corner, then
/// those less than half a turn ahead of it, then the others, each group
/// insertion-sorted by the kernel's order.
pub open spec fn winding_order<K: Kernel>(surface: K::Surface, center: K::Point, corners: Seq<K::Vertex>) -> Seq<K::Vertex> {
    if corners.len() == 0 {
        corners
    } else {
        let (a, b) = split_by_lead::<K>(surface, center, corners[0], corners.drop_first());
        seq![corners[0]] + insertion_sorted::<K>(surface, center, a) + insertion_sorted::<K>(surface, center, b)
    }
}

fn insertion_sort<K: Kernel>(surface: &K::Surface, center: &K::Point, corners: Vec<K::Vertex>) -> (r: Vec<K::Vertex>)
    ensures
        r@ == insertion_sorted::<K>(*surface, *center, corners@),
        r@.to_multiset() == corners@.to_multiset(),
        r@.len() == corners@.len(),
{
    let mut sorted: Vec<K::Vertex> = Vec::with_capacity(corners.len());
    let mut i: usize = 0;
    while i < corners.len()
        invariant
            i <= corners@.len(),
            sorted@ == insertion_sorted::<K>(*surface, *center, corners@.subrange(0, i as int)),
            sorted@.to_multiset() == corners@.subrange(0, i as int).to_multiset(),
            sorted@.len() == i,
        decreases corners@.len() - i,
    {
        let x = corners[i];
        let mut at: usize = sorted.len();
        while at > 0 && K::winds_before(surface, center, &x, &sorted[at - 1])
            invariant
                at <= sorted@.len(),
                slot::<K>(*surface, *center, sorted@, x, sorted@.len() as int) == slot::<K>(*surface, *center, sorted@, x, at as int),
            decreases at,
        {
            at = at - 1;
        }
        proof {
            vstd::seq_lib::to_multiset_insert(sorted@, at as int, x);
            let pre = corners@.subrange(0, i + 1);
            assert(pre.drop_last() =~= corners@.subrange(0, i as int));
            assert(pre.last() == x);
            assert(corners@.subrange(0, i + 1) == corners@.subrange(0, i as int).push(x));
            vstd::seq_lib::to_multiset_build(corners@.subrange(0, i as int), x);
        }
        sorted.insert(at, x);
        i = i + 1;
    }
    proof {
        assert(corners@.subrange(0, corners@.len() as int) == corners@);
    }
    sorted
}

/// The corners of a face put in winding order around `center`.
///
/// The kernel's order ("`b` lies less than half a turn ahead of `a`") is a
/// total order only within half a turn, so the corners are ordered from the
/// first one: it leads, then come the corners less than half a turn ahead
/// of it, then the others, each group sorted by the kernel's order.
pub fn sort_winding<K: Kernel>(surface: &K::Surface, center: &K::Point, corners: Vec<K::Vertex>) -> (r: Vec<K::Vertex>)
    ensures
        r@ == winding_order::<K>(*surface, *center, corners@),
        r@.to_multiset() == corners@.to_multiset(),
        r@.len() == corners@.len(),
{
    let n = corners.len();
    if n == 0 {
        return corners;
    }
    let lead = corners[0];
    let ghost rest = corners@.drop_first();
    let mut ahead: Vec<K::Vertex> = Vec::new();
    let mut behind: Vec<K::Vertex> = Vec::new();
    let mut i: usize = 1;
    while i < n
        invariant
            1 <= i <= n == corners@.len(),
            rest == corners@.drop_first(),
            lead == corners@[0],
            ahead@.to_multiset().add(behind@.to_multiset()) == corners@.subrange(1, i as int).to_multiset(),
            ahead@.len() + behind@.len() == i - 1,
            (ahead@, behind@) == split_by_lead::<K>(*surface, *center, lead, rest.subrange(0, i - 1)),
        decreases n - i,
    {
        let x = corners[i];
        proof {
            assert(corners@.subrange(1, i + 1) == corners@.subrange(1, i as int).push(x));
            vstd::seq_lib::to_multiset_build(corners@.subrange(1, i as int), x);
            vstd::seq_lib::to_multiset_build(ahead@, x);
            vstd::seq_lib::to_multiset_build(behind@, x);
            let pre = rest.subrange(0, i as int);
            assert(pre.drop_last() =~= rest.subrange(0, i - 1));
            assert(pre.last() == x);
        }
        if K::winds_before(surface, center, &lead, &x) {
            ahead.push(x);
        } else {
            behind.push(x);
        }
        i = i + 1;
    }
    proof {
        assert(rest.subrange(0, n - 1) =~= rest);
    }
    let mut ahead = insertion_sort::<K>(surface, center, ahead);
    let mut behind = insertion_sort::<K>(surface, center, behind);
    let mut r: Vec<K::Vertex> = Vec::with_capacity(n);
    r.push(lead);
    let ghost a0 = ahead@;
    let ghost b0 = behind@;
    r.append(&mut ahead);
    r.append(&mut behind);
    proof {
        let c = corners@;
        assert(c == seq![lead] + c.subrange(1, n as int));
        assert(r@ == seq![lead] + a0 + b0);
        vstd::seq_lib::lemma_multiset_commutative(seq![lead], c.subrange(1, n as int));
        vstd::seq_lib::lemma_multiset_commutative(seq![lead] + a0, b0);
        vstd::seq_lib::lemma_multiset_commutative(seq![lead], a0);
        assert(r@.to_multiset() =~= c.to_multiset());
    }
    r
}

/// The sum of the positions, added in order from the origin.
pub open spec fn position_sum<K: Kernel>(vs: Seq<K::Vertex>) -> K::Point
    decreases vs.len(),
{
    if vs.len() == 0 { K::spec_zero_point() } else { K::spec_add_position(position_sum::<K>(vs.drop_last()), vs.last()) }
}

/// The mean position of the vertices.
pub open spec fn centroid_of<K: Kernel>(vs: Seq<K::Vertex>) -> K::Point {
    K::spec_divide(position_sum::<K>(vs), vs.len() as usize)
}

/// The mean position of the vertices.
pub fn centroid<K: Kernel>(vertices: &Vec<K::Vertex>) -> (r: K::Point)
    ensures
        r == centroid_of::<K>(vertices@),
{
    let mut sum = K::zero_point();
    let mut i: usize = 0;
    while i < vertices.len()
        invariant
            i <= vertices@.len(),
            sum == position_sum::<K>(vertices@.subrange(0, i as int)),
        decreases vertices@.len() - i,
    {
        proof {
            let pre = vertices@.subrange(0, i + 1);
            assert(pre.drop_last() =~= vertices@.subrange(0, i as int));
            assert(pre.last() == vertices@[i as int]);
        }
        sum = K::add_position(&sum, &vertices[i]);
        i = i + 1;
    }
    proof {
        assert(vertices@.subrange(0, vertices@.len() as int) =~= vertices@);
    }
    K::divide(&sum, vertices.len())
}

/// The polygon of each face with at least three corners, in face order,
/// its corners in [`winding_order`] around their centroid.
pub open spec fn face_polygons<K: Kernel>(fs: Seq<FaceView<K>>) -> Seq<PolygonView<K>>
    decreases fs.len(),
{
    if fs.len() == 0 {
        seq![]
    } else {
        let r = face_polygons(fs.drop_last());
        let f = fs.last();
        if f.1.len() >= 3 {
            r.push((winding_order::<K>(f.0.surface, centroid_of::<K>(f.1), f.1), f.0))
        } else {
            r
        }
    }
}

/// `polys` are faces of the convex polytope bounded by `surfaces`: each has
/// at least three vertices and lies, facing out, on one of the surfaces,
/// and no two share a plane.
pub open spec fn is_polytope_of<K: Kernel>(surfaces: Seq<K::Surface>, polys: Seq<Polygon<K>>) -> bool {
    &&& forall|a: int| 0 <= a < polys.len() ==> (#[trigger] polys[a]).vertices@.len() >= 3
        && !polys[a].plane.flipped && surfaces.contains(polys[a].plane.surface)
    &&& forall|a: int, b: int| 0 <= a < b < polys.len() ==> (#[trigger] polys[a]).plane.key != (#[trigger] polys[b]).plane.key
}

/// `polys` are the faces generated from `surfaces`: the polygons of the
/// faces that every triple of surfaces gives (see [`after_i`] and
/// [`face_polygons`]).
pub open spec fn polytope_faces<K: Kernel>(surfaces: Seq<K::Surface>, polys: Seq<Polygon<K>>) -> bool {
    &&& is_polytope_of(surfaces, polys)
    &&& views(polys) == face_polygons(after_i::<K>(surfaces, surfaces.len() as int))
}

/// The faces of the convex polytope bounded by `surfaces`: one polygon per
/// plane that has at least three corners, its corners in winding order.
pub fn generate_polygons_from_surfaces<K: Kernel>(surfaces: &Vec<K::Surface>) -> (r: Vec<Polygon<K>>)
    ensures
        polytope_faces(surfaces@, r@),
{
    let faces = generate_vertices::<K>(surfaces);
    let ghost fs = faces@;
    let mut rest = crate::node::reverse_vec(faces);
    let mut r: Vec<Polygon<K>> = Vec::new();
    let ghost taken: Seq<int> = seq![];
    while rest.len() > 0
        invariant
            faces_keyed(fs, surfaces@),
            rest@.len() <= fs.len(),
            rest@ == fs.subrange(fs.len() - rest@.len(), fs.len() as int).reverse(),
            r@.len() == taken.len(),
            forall|a: int| 0 <= a < taken.len() ==> 0 <= #[trigger] taken[a] < fs.len() - rest@.len(),
            forall|a: int, b: int| 0 <= a < b < taken.len() ==> #[trigger] taken[a] < #[trigger] taken[b],
            forall|a: int| 0 <= a < r@.len() ==> (#[trigger] r@[a]).plane == fs[taken[a]].plane
                && r@[a].vertices@.len() >= 3,
            views(r@) == face_polygons(face_views(fs).subrange(0, fs.len() - rest@.len())),
        decreases rest@.len(),
    {
        let ghost k = fs.len() - rest@.len();
        let face = rest.pop().unwrap();
        proof {
            assert(face == fs[k]);
            assert(rest@ =~= fs.subrange(k + 1, fs.len() as int).reverse());
        }
        proof {
            let pre = face_views(fs).subrange(0, k + 1);
            assert(pre.drop_last() =~= face_views(fs).subrange(0, k));
            assert(pre.last() == (face.plane, face.corners@));
        }
        let ghost r0 = r@;
        if face.corners.len() >= 3 {
            let center = centroid::<K>(&face.corners);
            let vertices = sort_winding::<K>(&face.plane.surface, &center, face.corners);
            r.push(Polygon { vertices, plane: face.plane });
            proof {
                taken = taken.push(k);
                assert(views(r@) =~= views(r0).push(view_of(r@[r@.len() - 1])));
            }
        }
    }
    proof {
        assert(face_views(fs).subrange(0, fs.len() as int) =~= face_views(fs));
        assert(face_views(fs) == after_i::<K>(surfaces@, surfaces@.len() as int));
    }
    proof {
        assert forall|a: int, b: int| 0 <= a < b < r@.len() implies (#[trigger] r@[a]).plane.key != (#[trigger] r@[b]).plane.key by {
            assert(taken[a] < taken[b]);
            assert(fs[taken[a]].plane.key != fs[taken[b]].plane.key);
        }
        assert forall|a: int| 0 <= a < r@.len() implies (#[trigger] r@[a]).vertices@.len() >= 3
            && !r@[a].plane.flipped && surfaces@.contains(r@[a].plane.surface) by {
            assert(fs[taken[a]] == fs[taken[a]]);
        }
    }
    r
}

} // verus!
