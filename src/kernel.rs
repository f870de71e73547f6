use vstd::prelude::*;

use crate::polygon::PlaneKey;
use crate::side::{PolygonType, Sign};

verus! {

/// The numeric side of the engine: everything that needs real arithmetic.
///
/// Each measurement is a function of its arguments alone, named by a spec
/// function (`spec_side` for `side`, and so on); the engine's contracts are
/// stated over those names. A kernel measures raw, unoriented surfaces; the
/// engine keeps track of orientation itself (see
/// [`crate::polygon::Plane::flipped`]).
pub trait Kernel: Sized {
    /// A polygon corner: a position and a shading normal.
    type Vertex: Copy;
    /// A supporting plane with its material.
    type Surface: Copy;
    /// A position in space.
    type Point: Copy;
    /// An axis-aligned bounding box.
    type Bounds: Copy;
    /// An oriented cutting plane.
    type HalfSpace: Copy;
    /// A rigid or affine transform.
    type Transform: Copy;
    /// A ray for picking.
    type Ray: Copy;
    /// Where a ray met a solid.
    type Hit: Copy;

    spec fn spec_key(surface: Self::Surface) -> PlaneKey;

    spec fn spec_side(surface: Self::Surface, vertex: Self::Vertex) -> PolygonType;

    spec fn spec_alignment(a: Self::Surface, b: Self::Surface) -> Sign;

    spec fn spec_crossing(surface: Self::Surface, a: Self::Vertex, b: Self::Vertex) -> Self::Vertex;

    spec fn spec_meet(a: Self::Surface, b: Self::Surface, c: Self::Surface) -> Option<Self::Point>;

    spec fn spec_holds(surface: Self::Surface, point: Self::Point) -> bool;

    spec fn spec_coincide(vertex: Self::Vertex, point: Self::Point) -> bool;

    spec fn spec_corner(surface: Self::Surface, point: Self::Point) -> Self::Vertex;

    spec fn spec_zero_point() -> Self::Point;

    spec fn spec_add_position(sum: Self::Point, vertex: Self::Vertex) -> Self::Point;

    spec fn spec_divide(sum: Self::Point, count: usize) -> Self::Point;

    spec fn spec_winds_before(surface: Self::Surface, center: Self::Point, a: Self::Vertex, b: Self::Vertex) -> bool;

    spec fn spec_empty_bounds() -> Self::Bounds;

    spec fn spec_grow_bounds(bounds: Self::Bounds, vertex: Self::Vertex) -> Self::Bounds;

    spec fn spec_cutter(half_space: Self::HalfSpace, material_index: usize) -> Vec<Self::Surface>;

    spec fn spec_transform_vertex(vertex: Self::Vertex, transform: Self::Transform) -> Self::Vertex;

    spec fn spec_transform_surface(surface: Self::Surface, transform: Self::Transform) -> Self::Surface;

    spec fn spec_transform_half_space(half_space: Self::HalfSpace, transform: Self::Transform) -> Self::HalfSpace;

    spec fn spec_exit_behind(ray: Self::Ray, bounds: Self::Bounds) -> bool;

    spec fn spec_slab_gap(ray: Self::Ray, bounds: Self::Bounds) -> bool;

    spec fn spec_approach(ray: Self::Ray, surface: Self::Surface) -> Sign;

    spec fn spec_reach(ray: Self::Ray, surface: Self::Surface, anchor: Self::Vertex) -> Sign;

    spec fn spec_landing(ray: Self::Ray, surface: Self::Surface, anchor: Self::Vertex) -> Self::Point;

    spec fn spec_on_plane(surface: Self::Surface, anchor: Self::Vertex, point: Self::Point) -> bool;

    spec fn spec_within_edge(surface: Self::Surface, flipped: bool, a: Self::Vertex, b: Self::Vertex, point: Self::Point) -> bool;

    spec fn spec_make_hit(ray: Self::Ray, surface: Self::Surface, flipped: bool, anchor: Self::Vertex) -> Self::Hit;

    spec fn spec_nearer(a: Self::Hit, b: Self::Hit) -> bool;

    /// Whether the two surfaces are the same value, bit for bit.
    fn same_surface(a: &Self::Surface, b: &Self::Surface) -> (r: bool)
        ensures
            r <==> *a == *b;

    /// The integer key of a surface: surfaces with equal keys are one plane.
    fn key(surface: &Self::Surface) -> (r: PlaneKey)
        ensures
            r == Self::spec_key(*surface);

    /// Which side of `surface` the vertex lies on, within the kernel's
    /// tolerance: `Coplanar`, `Front` or `Back`.
    fn side(surface: &Self::Surface, vertex: &Self::Vertex) -> (r: PolygonType)
        ensures
            r == Self::spec_side(*surface, *vertex),
            r != PolygonType::Spanning;

    /// The sign of the dot product of the two surfaces' normals.
    fn alignment(a: &Self::Surface, b: &Self::Surface) -> (r: Sign)
        ensures
            r == Self::spec_alignment(*a, *b);

    /// The vertex where the edge from `a` to `b` meets `surface`.
    fn crossing(surface: &Self::Surface, a: &Self::Vertex, b: &Self::Vertex) -> (r: Self::Vertex)
        ensures
            r == Self::spec_crossing(*surface, *a, *b);

    /// The point common to three surfaces, if they meet in a single point.
    fn meet(a: &Self::Surface, b: &Self::Surface, c: &Self::Surface) -> (r: Option<Self::Point>)
        ensures
            r == Self::spec_meet(*a, *b, *c);

    /// Whether the point lies on or behind the surface, within tolerance.
    fn holds(surface: &Self::Surface, point: &Self::Point) -> (r: bool)
        ensures
            r == Self::spec_holds(*surface, *point);

    /// Whether a vertex stands at the point, within tolerance.
    fn coincide(vertex: &Self::Vertex, point: &Self::Point) -> (r: bool)
        ensures
            r == Self::spec_coincide(*vertex, *point);

    /// A vertex at `point` with the surface's normal.
    fn corner(surface: &Self::Surface, point: &Self::Point) -> (r: Self::Vertex)
        ensures
            r == Self::spec_corner(*surface, *point);

    /// The origin, where a sum of positions starts.
    fn zero_point() -> (r: Self::Point)
        ensures
            r == Self::spec_zero_point();

    /// The sum with the vertex's position added.
    fn add_position(sum: &Self::Point, vertex: &Self::Vertex) -> (r: Self::Point)
        ensures
            r == Self::spec_add_position(*sum, *vertex);

    /// The sum divided by the count.
    fn divide(sum: &Self::Point, count: usize) -> (r: Self::Point)
        ensures
            r == Self::spec_divide(*sum, count);

    /// Whether `b` lies less than half a turn ahead of `a` around `center`,
    /// turning as the surface's normal does.
    fn winds_before(surface: &Self::Surface, center: &Self::Point, a: &Self::Vertex, b: &Self::Vertex) -> (r: bool)
        ensures
            r == Self::spec_winds_before(*surface, *center, *a, *b);

    /// The box that holds nothing: every vertex grows it.
    fn empty_bounds() -> (r: Self::Bounds)
        ensures
            r == Self::spec_empty_bounds();

    /// The smallest box holding `bounds` and the vertex's position.
    fn grow_bounds(bounds: &Self::Bounds, vertex: &Self::Vertex) -> (r: Self::Bounds)
        ensures
            r == Self::spec_grow_bounds(*bounds, *vertex);

    /// The six surfaces, carrying `material_index`, of the large box that
    /// a cut by `half_space` removes: the cut plane reversed, and five
    /// planes far beyond it.
    fn cutter(half_space: &Self::HalfSpace, material_index: usize) -> (r: Vec<Self::Surface>)
        ensures
            r == Self::spec_cutter(*half_space, material_index);

    fn transform_vertex(vertex: &Self::Vertex, transform: &Self::Transform) -> (r: Self::Vertex)
        ensures
            r == Self::spec_transform_vertex(*vertex, *transform);

    fn transform_surface(surface: &Self::Surface, transform: &Self::Transform) -> (r: Self::Surface)
        ensures
            r == Self::spec_transform_surface(*surface, *transform);

    fn transform_half_space(half_space: &Self::HalfSpace, transform: &Self::Transform) -> (r: Self::HalfSpace)
        ensures
            r == Self::spec_transform_half_space(*half_space, *transform);

    /// Slab test, first half: whether the ray leaves the box before its
    /// origin (the exit parameter is negative).
    fn exit_behind(ray: &Self::Ray, bounds: &Self::Bounds) -> (r: bool)
        ensures
            r == Self::spec_exit_behind(*ray, *bounds);

    /// Slab test, second half: whether the ray enters the box's slabs only
    /// after leaving one of them (the entry parameter exceeds the exit).
    fn slab_gap(ray: &Self::Ray, bounds: &Self::Bounds) -> (r: bool)
        ensures
            r == Self::spec_slab_gap(*ray, *bounds);

    /// The sign of the dot product of the surface's normal with the ray's
    /// direction.
    fn approach(ray: &Self::Ray, surface: &Self::Surface) -> (r: Sign)
        ensures
            r == Self::spec_approach(*ray, *surface);

    /// The sign of the ray parameter at which the ray meets the plane of
    /// `surface` through `anchor`.
    fn reach(ray: &Self::Ray, surface: &Self::Surface, anchor: &Self::Vertex) -> (r: Sign)
        ensures
            r == Self::spec_reach(*ray, *surface, *anchor);

    /// The point where the ray meets the plane of `surface` through `anchor`.
    fn landing(ray: &Self::Ray, surface: &Self::Surface, anchor: &Self::Vertex) -> (r: Self::Point)
        ensures
            r == Self::spec_landing(*ray, *surface, *anchor);

    /// Whether the point lies on the plane of `surface` through `anchor`,
    /// within tolerance.
    fn on_plane(surface: &Self::Surface, anchor: &Self::Vertex, point: &Self::Point) -> (r: bool)
        ensures
            r == Self::spec_on_plane(*surface, *anchor, *point);

    /// Whether the point lies on the inner side of the edge from `a` to
    /// `b`, turning as the surface's normal does (reversed when `flipped`),
    /// within tolerance.
    fn within_edge(surface: &Self::Surface, flipped: bool, a: &Self::Vertex, b: &Self::Vertex, point: &Self::Point) -> (r: bool)
        ensures
            r == Self::spec_within_edge(*surface, flipped, *a, *b, *point);

    /// The hit where the ray meets the plane through `anchor`: its ray
    /// parameter, point, and the surface's normal (reversed when `flipped`).
    fn make_hit(ray: &Self::Ray, surface: &Self::Surface, flipped: bool, anchor: &Self::Vertex) -> (r: Self::Hit)
        ensures
            r == Self::spec_make_hit(*ray, *surface, flipped, *anchor);

    /// Whether hit `a` is strictly nearer the ray's origin than hit `b`.
    fn nearer(a: &Self::Hit, b: &Self::Hit) -> (r: bool)
        ensures
            r == Self::spec_nearer(*a, *b);
}

} // verus!
