//! The engine driven by a double-precision kernel on glam's `DVec3`, the
//! same arithmetic a renderer would plug in.

use brusher::kernel::Kernel;
use brusher::polygon::{PlaneKey, Polygon};
use brusher::side::{PolygonType, Sign};
use glam::{DAffine3, DVec3};

/// Tolerance of the side tests and of corner merging.
pub const EPSILON: f64 = 1e-5;
const QUANTIZATION_FACTOR: f64 = 1_000_000.0;
/// Half the side of the box a knife subtracts.
const LARGE_VALUE: f64 = 1e5;

/// A polygon corner: a position and a shading normal.
#[derive(Debug, Clone, Copy, PartialEq)]
pub struct Vertex {
    pub pos: DVec3,
    pub normal: DVec3,
}

impl Vertex {
    pub fn new(pos: DVec3, normal: DVec3) -> Self {
        Self { pos, normal }
    }

    /// The vertex a fraction `t` of the way to `other`, its normal renormalised.
    pub fn interpolate(&self, other: &Self, t: f64) -> Self {
        Self {
            pos: self.pos.lerp(other.pos, t),
            normal: self.normal.lerp(other.normal, t).normalize(),
        }
    }
}

/// A plane `dot(normal, p) == distance_from_origin` with a material.
#[derive(Debug, Clone, Copy)]
pub struct Surface {
    pub normal: DVec3,
    pub distance_from_origin: f64,
    pub material_idx: usize,
}

impl Surface {
    pub fn new(normal: DVec3, distance_from_origin: f64, material_idx: usize) -> Self {
        Self { normal, distance_from_origin, material_idx }
    }

    /// The plane through three points, facing by the right-hand rule.
    pub fn from_points(a: DVec3, b: DVec3, c: DVec3, material_index: usize) -> Self {
        let normal = (b - a).cross(c - a).normalize();
        Self::new(normal, normal.dot(a), material_index)
    }

    fn quantize(value: f64) -> i64 {
        (value * QUANTIZATION_FACTOR).round() as i64
    }

    /// UV coordinates of a point on the plane.
    pub fn compute_uv(&self, point: DVec3) -> [f64; 2] {
        let up = if self.normal.x.abs() < 0.9 { DVec3::X } else { DVec3::Y };
        let u_axis = up.cross(self.normal).normalize();
        let v_axis = self.normal.cross(u_axis);
        let projected = point - self.normal * self.distance_from_origin;
        [projected.dot(u_axis), projected.dot(v_axis)]
    }
}

/// The plane of a knife: it removes what lies in front of it.
#[derive(Debug, Clone, Copy)]
pub struct HalfSpace {
    pub normal: DVec3,
    pub distance_from_origin: f64,
}

#[derive(Debug, Clone, Copy, PartialEq)]
pub struct Aabb {
    pub min: DVec3,
    pub max: DVec3,
}

#[derive(Debug, Clone, Copy)]
pub struct Raycast {
    pub origin: DVec3,
    pub direction: DVec3,
}

#[derive(Debug, Clone, Copy, PartialEq)]
pub struct RaycastResult {
    pub distance: f64,
    pub point: DVec3,
    pub normal: DVec3,
}

/// The kernel itself.
#[derive(Debug, Clone, Copy)]
pub struct F64;

/// The polygon's supporting normal, as oriented.
pub fn facing_normal(polygon: &Polygon<F64>) -> DVec3 {
    if polygon.plane.flipped {
        -polygon.plane.surface.normal
    } else {
        polygon.plane.surface.normal
    }
}


impl Raycast {
    pub fn new(origin: DVec3, direction: DVec3) -> Self {
        Self { origin, direction }
    }

    /// The slab parameters of the box along the ray: where the ray crosses
    /// the lower and upper planes on each axis, where it enters all slabs
    /// and where it leaves the first.
    fn slabs(&self, aabb: &Aabb) -> (DVec3, DVec3, f64, f64) {
        let inv_direction = DVec3::splat(1.0) / self.direction;
        let t1 = (aabb.min - self.origin) * inv_direction;
        let t2 = (aabb.max - self.origin) * inv_direction;
        (t1, t2, t1.min(t2).max_element(), t1.max(t2).min_element())
    }

    /// The ray parameter where the ray meets the plane of `surface` through
    /// `anchor`.
    fn parameter(&self, surface: &Surface, anchor: &Vertex) -> f64 {
        (anchor.pos - self.origin).dot(surface.normal) / surface.normal.dot(self.direction)
    }

    /// Slab test against the box; the hit is where the ray enters it (or
    /// its origin, when it starts inside).
    pub fn cast_against_aabb(&self, aabb: &Aabb) -> Option<RaycastResult> {
        let inv_direction = DVec3::splat(1.0) / self.direction;
        let (t1, t2, t_enter, t_exit) = self.slabs(aabb);
        if !brusher::broadphase::hits_bounds::<F64>(self, aabb) {
            return None;
        }
        let distance = t_enter.max(0.0);
        let point = self.origin + self.direction * distance;
        let mut normal = DVec3::ZERO;
        if t_enter == t1.x {
            normal.x = -inv_direction.x.signum();
        } else if t_enter == t2.x {
            normal.x = inv_direction.x.signum();
        } else if t_enter == t1.y {
            normal.y = -inv_direction.y.signum();
        } else if t_enter == t2.y {
            normal.y = inv_direction.y.signum();
        } else if t_enter == t1.z {
            normal.z = -inv_direction.z.signum();
        } else if t_enter == t2.z {
            normal.z = inv_direction.z.signum();
        }
        Some(RaycastResult { distance, point, normal })
    }

    /// Where the ray meets the front of the polygon, if it does.
    pub fn cast_against_polygon(&self, polygon: &Polygon<F64>) -> Option<RaycastResult> {
        brusher::broadphase::cast_against_polygon::<F64>(self, polygon)
    }
}

impl Aabb {
    pub fn new(min: DVec3, max: DVec3) -> Self {
        Self { min, max }
    }

    /// The box around every vertex of the polygons.
    pub fn from_polygons(polygons: &Vec<Polygon<F64>>) -> Self {
        brusher::broadphase::polygon_bounds::<F64>(polygons)
    }
}

impl Kernel for F64 {
    type Vertex = Vertex;
    type Surface = Surface;
    type Point = DVec3;
    type Bounds = Aabb;
    type HalfSpace = HalfSpace;
    type Transform = DAffine3;
    type Ray = Raycast;
    type Hit = RaycastResult;

    // The model functions the library's contracts are stated over; each is
    // the measurement itself.
    fn spec_key(surface: Surface) -> PlaneKey {
        Self::key(&surface)
    }
    fn spec_side(surface: Surface, vertex: Vertex) -> PolygonType {
        Self::side(&surface, &vertex)
    }
    fn spec_alignment(a: Surface, b: Surface) -> Sign {
        Self::alignment(&a, &b)
    }
    fn spec_crossing(surface: Surface, a: Vertex, b: Vertex) -> Vertex {
        Self::crossing(&surface, &a, &b)
    }
    fn spec_meet(a: Surface, b: Surface, c: Surface) -> Option<DVec3> {
        Self::meet(&a, &b, &c)
    }
    fn spec_holds(surface: Surface, point: DVec3) -> bool {
        Self::holds(&surface, &point)
    }
    fn spec_coincide(vertex: Vertex, point: DVec3) -> bool {
        Self::coincide(&vertex, &point)
    }
    fn spec_corner(surface: Surface, point: DVec3) -> Vertex {
        Self::corner(&surface, &point)
    }
    fn spec_winds_before(surface: Surface, center: DVec3, a: Vertex, b: Vertex) -> bool {
        Self::winds_before(&surface, &center, &a, &b)
    }
    fn spec_cutter(half_space: HalfSpace, material_index: usize) -> Vec<Surface> {
        Self::cutter(&half_space, material_index)
    }
    fn spec_transform_vertex(vertex: Vertex, transform: DAffine3) -> Vertex {
        Self::transform_vertex(&vertex, &transform)
    }
    fn spec_transform_surface(surface: Surface, transform: DAffine3) -> Surface {
        Self::transform_surface(&surface, &transform)
    }
    fn spec_transform_half_space(half_space: HalfSpace, transform: DAffine3) -> HalfSpace {
        Self::transform_half_space(&half_space, &transform)
    }
    fn spec_zero_point() -> DVec3 {
        Self::zero_point()
    }
    fn spec_add_position(sum: DVec3, vertex: Vertex) -> DVec3 {
        Self::add_position(&sum, &vertex)
    }
    fn spec_divide(sum: DVec3, count: usize) -> DVec3 {
        Self::divide(&sum, count)
    }
    fn spec_empty_bounds() -> Aabb {
        Self::empty_bounds()
    }
    fn spec_grow_bounds(bounds: Aabb, vertex: Vertex) -> Aabb {
        Self::grow_bounds(&bounds, &vertex)
    }
    fn spec_exit_behind(ray: Raycast, bounds: Aabb) -> bool {
        Self::exit_behind(&ray, &bounds)
    }
    fn spec_slab_gap(ray: Raycast, bounds: Aabb) -> bool {
        Self::slab_gap(&ray, &bounds)
    }
    fn spec_approach(ray: Raycast, surface: Surface) -> Sign {
        Self::approach(&ray, &surface)
    }
    fn spec_reach(ray: Raycast, surface: Surface, anchor: Vertex) -> Sign {
        Self::reach(&ray, &surface, &anchor)
    }
    fn spec_landing(ray: Raycast, surface: Surface, anchor: Vertex) -> DVec3 {
        Self::landing(&ray, &surface, &anchor)
    }
    fn spec_on_plane(surface: Surface, anchor: Vertex, point: DVec3) -> bool {
        Self::on_plane(&surface, &anchor, &point)
    }
    fn spec_within_edge(surface: Surface, flipped: bool, a: Vertex, b: Vertex, point: DVec3) -> bool {
        Self::within_edge(&surface, flipped, &a, &b, &point)
    }
    fn spec_make_hit(ray: Raycast, surface: Surface, flipped: bool, anchor: Vertex) -> RaycastResult {
        Self::make_hit(&ray, &surface, flipped, &anchor)
    }
    fn spec_nearer(a: RaycastResult, b: RaycastResult) -> bool {
        Self::nearer(&a, &b)
    }

    fn same_surface(a: &Surface, b: &Surface) -> bool {
        a.normal.x.to_bits() == b.normal.x.to_bits()
            && a.normal.y.to_bits() == b.normal.y.to_bits()
            && a.normal.z.to_bits() == b.normal.z.to_bits()
            && a.distance_from_origin.to_bits() == b.distance_from_origin.to_bits()
            && a.material_idx == b.material_idx
    }

    fn key(surface: &Surface) -> PlaneKey {
        PlaneKey {
            nx: Surface::quantize(surface.normal.x),
            ny: Surface::quantize(surface.normal.y),
            nz: Surface::quantize(surface.normal.z),
            d: Surface::quantize(surface.distance_from_origin),
        }
    }

    fn side(surface: &Surface, vertex: &Vertex) -> PolygonType {
        let t = surface.normal.dot(vertex.pos) - surface.distance_from_origin;
        if t < -EPSILON {
            PolygonType::Back
        } else if t > EPSILON {
            PolygonType::Front
        } else {
            PolygonType::Coplanar
        }
    }

    fn alignment(a: &Surface, b: &Surface) -> Sign {
        let d = a.normal.dot(b.normal);
        if d > 0.0 {
            Sign::Positive
        } else if d < 0.0 {
            Sign::Negative
        } else {
            Sign::Zero
        }
    }

    fn crossing(surface: &Surface, a: &Vertex, b: &Vertex) -> Vertex {
        let t = (surface.distance_from_origin - surface.normal.dot(a.pos)) / surface.normal.dot(b.pos - a.pos);
        a.interpolate(b, t)
    }

    fn meet(p1: &Surface, p2: &Surface, p3: &Surface) -> Option<DVec3> {
        let (n1, n2, n3) = (p1.normal, p2.normal, p3.normal);
        let denom = n1.dot(n2.cross(n3));
        if denom.abs() < EPSILON {
            return None;
        }
        Some(
            (n2.cross(n3) * p1.distance_from_origin
                + n3.cross(n1) * p2.distance_from_origin
                + n1.cross(n2) * p3.distance_from_origin)
                / denom,
        )
    }

    fn holds(surface: &Surface, point: &DVec3) -> bool {
        surface.normal.dot(*point) <= surface.distance_from_origin + EPSILON
    }

    fn coincide(vertex: &Vertex, point: &DVec3) -> bool {
        (vertex.pos - *point).length_squared() < EPSILON * EPSILON
    }

    fn corner(surface: &Surface, point: &DVec3) -> Vertex {
        Vertex::new(*point, surface.normal)
    }


    fn winds_before(surface: &Surface, center: &DVec3, a: &Vertex, b: &Vertex) -> bool {
        surface.normal.cross(a.pos - *center).dot(b.pos - *center) > 0.0
    }


    fn cutter(half_space: &HalfSpace, material_index: usize) -> Vec<Surface> {
        let normal = half_space.normal;
        let distance = half_space.distance_from_origin;
        let mut u = if normal.x.abs() > normal.y.abs() { DVec3::Y } else { DVec3::X };
        u = u.cross(normal).normalize();
        let v = normal.cross(u).normalize();
        vec![
            Surface::new(-normal, -distance, material_index),
            Surface::new(normal, distance + LARGE_VALUE, material_index),
            Surface::new(u, LARGE_VALUE, material_index),
            Surface::new(-u, LARGE_VALUE, material_index),
            Surface::new(v, LARGE_VALUE, material_index),
            Surface::new(-v, LARGE_VALUE, material_index),
        ]
    }

    fn transform_vertex(vertex: &Vertex, transform: &DAffine3) -> Vertex {
        Vertex::new(transform.transform_point3(vertex.pos), transform.transform_vector3(vertex.normal))
    }

    fn transform_surface(surface: &Surface, transform: &DAffine3) -> Surface {
        let normal = transform.transform_vector3(surface.normal);
        let distance = surface.distance_from_origin + normal.dot(transform.translation);
        Surface::new(normal, distance, surface.material_idx)
    }

    fn transform_half_space(half_space: &HalfSpace, transform: &DAffine3) -> HalfSpace {
        let normal = transform.transform_vector3(half_space.normal).normalize();
        let distance = half_space.distance_from_origin + normal.dot(transform.translation);
        HalfSpace { normal, distance_from_origin: distance }
    }



    fn zero_point() -> DVec3 {
        DVec3::ZERO
    }

    fn add_position(sum: &DVec3, vertex: &Vertex) -> DVec3 {
        *sum + vertex.pos
    }

    fn divide(sum: &DVec3, count: usize) -> DVec3 {
        *sum / count as f64
    }

    fn empty_bounds() -> Aabb {
        Aabb { min: DVec3::splat(f64::INFINITY), max: DVec3::splat(f64::NEG_INFINITY) }
    }

    fn grow_bounds(bounds: &Aabb, vertex: &Vertex) -> Aabb {
        Aabb { min: bounds.min.min(vertex.pos), max: bounds.max.max(vertex.pos) }
    }

    fn exit_behind(ray: &Raycast, bounds: &Aabb) -> bool {
        ray.slabs(bounds).3 < 0.0
    }

    fn slab_gap(ray: &Raycast, bounds: &Aabb) -> bool {
        let (_, _, t_enter, t_exit) = ray.slabs(bounds);
        t_enter > t_exit
    }

    fn approach(ray: &Raycast, surface: &Surface) -> Sign {
        let d = surface.normal.dot(ray.direction);
        if d > 0.0 {
            Sign::Positive
        } else if d < 0.0 {
            Sign::Negative
        } else {
            Sign::Zero
        }
    }

    fn reach(ray: &Raycast, surface: &Surface, anchor: &Vertex) -> Sign {
        let t = ray.parameter(surface, anchor);
        if t < 0.0 {
            Sign::Negative
        } else if t > 0.0 {
            Sign::Positive
        } else {
            Sign::Zero
        }
    }

    fn landing(ray: &Raycast, surface: &Surface, anchor: &Vertex) -> DVec3 {
        ray.origin + ray.direction * ray.parameter(surface, anchor)
    }

    fn on_plane(surface: &Surface, anchor: &Vertex, point: &DVec3) -> bool {
        (surface.normal.dot(*point) - surface.normal.dot(anchor.pos)).abs() < 1e-4
    }

    fn within_edge(surface: &Surface, flipped: bool, a: &Vertex, b: &Vertex, point: &DVec3) -> bool {
        let normal = if flipped { -surface.normal } else { surface.normal };
        (b.pos - a.pos).cross(*point - a.pos).dot(normal) >= -EPSILON
    }

    fn make_hit(ray: &Raycast, surface: &Surface, flipped: bool, anchor: &Vertex) -> RaycastResult {
        let t = ray.parameter(surface, anchor);
        let normal = if flipped { -surface.normal } else { surface.normal };
        RaycastResult { distance: t, point: ray.origin + ray.direction * t, normal }
    }

    fn nearer(a: &RaycastResult, b: &RaycastResult) -> bool {
        a.distance < b.distance
    }
}

use brusher::brush::{BooleanOp, Brush, BrushError};
use brusher::brushlet::{Brushlet, BrushletSettings};
use brusher::node::Node;
use brusher::operations::Knife;
use brusher::polygon::Plane;
use brusher::polytope::{generate_polygons_from_surfaces, generate_vertices, sort_winding};
use brusher::primitives::{CuboidMaterialIndices, Facing};
use brusher::scene::{BrusherScene, Layer};
use brusher::side::classify_all;
use brusher::split::{route_split, Corner, Route};
use std::collections::BTreeSet;

fn cuboid_surfaces(origin: DVec3, size: DVec3, material: usize) -> Vec<Surface> {
    let half = size * 0.5;
    vec![
        Surface::new(DVec3::Z, origin.z + half.z, material),
        Surface::new(-DVec3::Z, -(origin.z - half.z), material),
        Surface::new(DVec3::Y, origin.y + half.y, material),
        Surface::new(-DVec3::Y, -(origin.y - half.y), material),
        Surface::new(DVec3::X, origin.x + half.x, material),
        Surface::new(-DVec3::X, -(origin.x - half.x), material),
    ]
}

fn settings(name: &str, operation: BooleanOp) -> BrushletSettings<F64> {
    BrushletSettings::new(name.to_string(), operation, Vec::new(), false)
}

fn cube(origin: DVec3, size: f64, operation: BooleanOp) -> Brushlet<F64> {
    Brushlet::from_surfaces(cuboid_surfaces(origin, DVec3::splat(size), 0), settings("Test", operation))
}

/// A cuboid laid out face by face as an editor builds it: front, back,
/// top, bottom, right, left, each face's plane taken from its first corners.
fn cuboid_polygons(origin: DVec3, size: f64) -> Vec<Polygon<F64>> {
    box_polygons(origin, DVec3::splat(size), 0)
}

fn box_polygons(origin: DVec3, size: DVec3, material: usize) -> Vec<Polygon<F64>> {
    let h = size * 0.5;
    let c = [
        DVec3::new(-h.x, -h.y, -h.z),
        DVec3::new(h.x, -h.y, -h.z),
        DVec3::new(h.x, h.y, -h.z),
        DVec3::new(-h.x, h.y, -h.z),
        DVec3::new(-h.x, -h.y, h.z),
        DVec3::new(h.x, -h.y, h.z),
        DVec3::new(h.x, h.y, h.z),
        DVec3::new(-h.x, h.y, h.z),
    ];
    let faces: [([usize; 4], DVec3); 6] = [
        ([4, 5, 6, 7], DVec3::Z),
        ([0, 3, 2, 1], -DVec3::Z),
        ([3, 7, 6, 2], DVec3::Y),
        ([0, 1, 5, 4], -DVec3::Y),
        ([1, 2, 6, 5], DVec3::X),
        ([0, 4, 7, 3], -DVec3::X),
    ];
    faces
        .iter()
        .map(|(idx, normal)| {
            let vertices: Vec<Vertex> = idx.iter().map(|i| Vertex::new(origin + c[*i], *normal)).collect();
            let surface = Surface::from_points(vertices[0].pos, vertices[1].pos, vertices[2].pos, material);
            Polygon::new(vertices, Plane::from_surface(surface))
        })
        .collect()
}

fn quantized(p: DVec3) -> (i64, i64, i64) {
    ((p.x * 1e6).round() as i64, (p.y * 1e6).round() as i64, (p.z * 1e6).round() as i64)
}

fn distinct_positions(polygons: &[Polygon<F64>]) -> BTreeSet<(i64, i64, i64)> {
    polygons.iter().flat_map(|p| p.vertices.iter().map(|v| quantized(v.pos))).collect()
}

fn polygon_area(p: &Polygon<F64>) -> f64 {
    let mut sum = DVec3::ZERO;
    for i in 1..p.vertices.len().saturating_sub(1) {
        sum += (p.vertices[i].pos - p.vertices[0].pos).cross(p.vertices[i + 1].pos - p.vertices[0].pos);
    }
    sum.length() * 0.5
}

fn square_on_z0() -> Polygon<F64> {
    let corners = [
        DVec3::new(-1.0, -1.0, 0.0),
        DVec3::new(1.0, -1.0, 0.0),
        DVec3::new(1.0, 1.0, 0.0),
        DVec3::new(-1.0, 1.0, 0.0),
    ];
    let vertices: Vec<Vertex> = corners.iter().map(|c| Vertex::new(*c, DVec3::Z)).collect();
    Polygon::new(vertices, Plane::from_surface(Surface::new(DVec3::Z, 0.0, 3)))
}

#[test]
fn combine_is_bitwise_or() {
    let all = [PolygonType::Coplanar, PolygonType::Front, PolygonType::Back, PolygonType::Spanning];
    for (i, a) in all.iter().enumerate() {
        for (j, b) in all.iter().enumerate() {
            assert_eq!(a.combine(*b), all[i | j]);
        }
    }
}

#[test]
fn classify_all_folds_vertex_types() {
    assert_eq!(classify_all(&vec![]), PolygonType::Coplanar);
    assert_eq!(classify_all(&vec![PolygonType::Coplanar, PolygonType::Front]), PolygonType::Front);
    assert_eq!(classify_all(&vec![PolygonType::Back, PolygonType::Coplanar]), PolygonType::Back);
    assert_eq!(
        classify_all(&vec![PolygonType::Front, PolygonType::Coplanar, PolygonType::Back]),
        PolygonType::Spanning
    );
}

#[test]
fn route_split_spanning_square() {
    let types = vec![PolygonType::Front, PolygonType::Back, PolygonType::Back, PolygonType::Front];
    match route_split(&types, Sign::Positive) {
        Route::Spanning { front, back } => {
            assert_eq!(front, vec![Corner::Keep(0), Corner::Cut(0, 1), Corner::Cut(2, 3), Corner::Keep(3)]);
            assert_eq!(back, vec![Corner::Cut(0, 1), Corner::Keep(1), Corner::Keep(2), Corner::Cut(2, 3)]);
        }
        other => panic!("expected a spanning route, got {:?}", other),
    }
}

#[test]
fn route_split_vertex_on_plane() {
    let types = vec![PolygonType::Front, PolygonType::Coplanar, PolygonType::Back];
    match route_split(&types, Sign::Negative) {
        Route::Spanning { front, back } => {
            assert_eq!(front, vec![Corner::Keep(0), Corner::Keep(1), Corner::Cut(2, 0)]);
            assert_eq!(back, vec![Corner::Keep(1), Corner::Keep(2), Corner::Cut(2, 0)]);
        }
        other => panic!("expected a spanning route, got {:?}", other),
    }
}

#[test]
fn route_split_wholesale_routes() {
    let coplanar = vec![PolygonType::Coplanar; 3];
    assert!(matches!(route_split(&coplanar, Sign::Positive), Route::CoplanarFront));
    assert!(matches!(route_split(&coplanar, Sign::Zero), Route::CoplanarBack));
    assert!(matches!(route_split(&coplanar, Sign::Negative), Route::CoplanarBack));
    let front = vec![PolygonType::Front, PolygonType::Coplanar, PolygonType::Front];
    assert!(matches!(route_split(&front, Sign::Negative), Route::Front));
    let back = vec![PolygonType::Back, PolygonType::Back, PolygonType::Coplanar];
    assert!(matches!(route_split(&back, Sign::Positive), Route::Back));
}

#[test]
fn flip_twice_restores_polygon() {
    let square = square_on_z0();
    let mut p = square.duplicate();
    p.flip();
    assert!(p.plane.flipped);
    assert_eq!(p.vertices[0].pos, square.vertices[3].pos);
    assert_eq!(p.vertices[3].pos, square.vertices[0].pos);
    p.flip();
    assert_eq!(p.vertices, square.vertices);
    assert!(!p.plane.flipped);
    assert_eq!(p.plane.key, square.plane.key);
}

#[test]
fn fan_indices() {
    assert_eq!(square_on_z0().indices(), vec![0, 1, 2, 0, 2, 3]);
    let mut triangle = square_on_z0();
    triangle.vertices.pop();
    assert_eq!(triangle.indices(), vec![0, 1, 2]);
}

#[test]
fn split_polygon_cuts_square() {
    let plane = Plane::<F64>::from_surface(Surface::new(DVec3::X, 0.0, 0));
    let parts = plane.split_polygon(square_on_z0());
    assert!(parts.coplanar_front.is_empty() && parts.coplanar_back.is_empty());
    assert_eq!(parts.front.len(), 1);
    assert_eq!(parts.back.len(), 1);
    let front: Vec<DVec3> = parts.front[0].vertices.iter().map(|v| v.pos).collect();
    let back: Vec<DVec3> = parts.back[0].vertices.iter().map(|v| v.pos).collect();
    assert_eq!(
        front,
        vec![DVec3::new(0.0, -1.0, 0.0), DVec3::new(1.0, -1.0, 0.0), DVec3::new(1.0, 1.0, 0.0), DVec3::new(0.0, 1.0, 0.0)]
    );
    assert_eq!(
        back,
        vec![DVec3::new(-1.0, -1.0, 0.0), DVec3::new(0.0, -1.0, 0.0), DVec3::new(0.0, 1.0, 0.0), DVec3::new(-1.0, 1.0, 0.0)]
    );
    assert_eq!(parts.front[0].plane.key, square_on_z0().plane.key);
    assert_eq!(parts.back[0].plane.surface.material_idx, 3);
}

#[test]
fn split_polygon_by_its_own_plane() {
    let square = square_on_z0();
    let mut plane = square.plane.copy();
    let parts = plane.split_polygon(square_on_z0());
    assert_eq!(parts.coplanar_front.len(), 1);
    assert!(parts.coplanar_back.is_empty() && parts.front.is_empty() && parts.back.is_empty());
    plane.flip();
    let parts = plane.split_polygon(square);
    assert_eq!(parts.coplanar_back.len(), 1);
    assert!(parts.coplanar_front.is_empty());
}

#[test]
fn split_polygon_wholly_in_front() {
    let plane = Plane::<F64>::from_surface(Surface::new(DVec3::Z, -1.0, 0));
    let parts = plane.split_polygon(square_on_z0());
    assert_eq!(parts.front.len(), 1);
    assert!(parts.back.is_empty());
    let mut reversed = Plane::<F64>::from_surface(Surface::new(DVec3::Z, -1.0, 0));
    reversed.flip();
    let parts = reversed.split_polygon(square_on_z0());
    assert_eq!(parts.back.len(), 1);
    assert!(parts.front.is_empty());
}

#[test]
fn unit_cuboid_has_eight_corners_and_six_quads() {
    let polygons = generate_polygons_from_surfaces::<F64>(&cuboid_surfaces(DVec3::ZERO, DVec3::ONE, 0));
    assert_eq!(polygons.len(), 6);
    assert!(polygons.iter().all(|p| p.vertices.len() == 4));
    let corners = distinct_positions(&polygons);
    assert_eq!(corners.len(), 8);
    for x in [-0.5, 0.5] {
        for y in [-0.5, 0.5] {
            for z in [-0.5, 0.5] {
                assert!(corners.contains(&quantized(DVec3::new(x, y, z))));
            }
        }
    }
}

#[test]
fn cuboid_faces_wind_outward() {
    let polygons = generate_polygons_from_surfaces::<F64>(&cuboid_surfaces(DVec3::ZERO, DVec3::ONE, 0));
    for p in &polygons {
        let v = &p.vertices;
        let n = (v[1].pos - v[0].pos).cross(v[2].pos - v[0].pos);
        assert!(n.dot(p.plane.surface.normal) > 0.0);
        assert!((polygon_area(p) - 1.0).abs() < 1e-9);
    }
}

#[test]
fn generate_vertices_groups_by_plane() {
    let faces = generate_vertices::<F64>(&cuboid_surfaces(DVec3::ZERO, DVec3::ONE, 0));
    assert_eq!(faces.len(), 6);
    assert!(faces.iter().all(|f| f.corners.len() == 4));
    let keys: BTreeSet<_> = faces.iter().map(|f| (f.plane.key.nx, f.plane.key.ny, f.plane.key.nz, f.plane.key.d)).collect();
    assert_eq!(keys.len(), 6);
}

#[test]
fn sort_winding_orders_square() {
    let surface = Surface::new(DVec3::Z, 0.0, 0);
    let scrambled = vec![
        Vertex::new(DVec3::new(1.0, 1.0, 0.0), DVec3::Z),
        Vertex::new(DVec3::new(-1.0, -1.0, 0.0), DVec3::Z),
        Vertex::new(DVec3::new(1.0, -1.0, 0.0), DVec3::Z),
        Vertex::new(DVec3::new(-1.0, 1.0, 0.0), DVec3::Z),
    ];
    let sorted = sort_winding::<F64>(&surface, &DVec3::ZERO, scrambled);
    let p = Polygon::<F64>::new(sorted, Plane::from_surface(surface));
    assert!((polygon_area(&p) - 4.0).abs() < 1e-9);
}

#[test]
fn cube_subtract_cube_corners() {
    let a = Brushlet::new(cuboid_polygons(DVec3::ZERO, 1.0), settings("A", BooleanOp::Union));
    let b = Brushlet::new(cuboid_polygons(DVec3::splat(0.5), 1.0), settings("B", BooleanOp::Subtract));
    let result = a.subtract(&b);
    let corners = distinct_positions(&result.polygons);
    let mut expected = vec![
        DVec3::new(0.0, 0.0, 0.5),
        DVec3::new(0.0, 0.5, 0.0),
        DVec3::new(0.5, 0.0, 0.0),
        DVec3::new(0.0, 0.5, 0.5),
        DVec3::new(0.5, 0.0, 0.5),
        DVec3::new(0.5, 0.5, 0.0),
        DVec3::new(0.0, 0.0, 0.0),
    ];
    for x in [-0.5, 0.5] {
        for y in [-0.5, 0.5] {
            for z in [-0.5, 0.5] {
                if (x, y, z) != (0.5, 0.5, 0.5) {
                    expected.push(DVec3::new(x, y, z));
                }
            }
        }
    }
    for p in &expected {
        assert!(corners.contains(&quantized(*p)), "missing {:?}", p);
    }
    assert!(!corners.contains(&quantized(DVec3::splat(0.5))));
    for p in &result.polygons {
        for v in &p.vertices {
            let inside_a = v.pos.abs().max_element() <= 0.5 + EPSILON;
            let inside_b = v.pos.min_element() > EPSILON && v.pos.max_element() < 1.0 - EPSILON;
            assert!(inside_a && !inside_b, "stray vertex {:?}", v.pos);
        }
    }
    let area: f64 = result.polygons.iter().map(polygon_area).sum();
    assert!((area - 6.0).abs() < 1e-9, "area {}", area);
}

#[test]
fn subtract_self_is_empty() {
    let a = cube(DVec3::ZERO, 1.0, BooleanOp::Union);
    let result = a.subtract(&a);
    let area: f64 = result.polygons.iter().map(polygon_area).sum();
    assert!(area < 1e-9, "area left {}", area);
}

#[test]
fn union_matches_de_morgan() {
    let a = cube(DVec3::ZERO, 1.0, BooleanOp::Union);
    let b = cube(DVec3::new(0.5, 0.25, 0.0), 1.0, BooleanOp::Union);
    let union = a.union(&b);
    let dual = a.inverse().intersect(&b.inverse()).inverse();
    assert_eq!(union.aabb, dual.aabb);
    assert_eq!(distinct_positions(&union.polygons), distinct_positions(&dual.polygons));
    assert_eq!(union.aabb.min, DVec3::new(-0.5, -0.5, -0.5));
    assert_eq!(union.aabb.max, DVec3::new(1.0, 0.75, 0.5));
}

#[test]
fn intersect_of_overlapping_cubes() {
    let a = cube(DVec3::ZERO, 1.0, BooleanOp::Union);
    let b = cube(DVec3::splat(0.5), 1.0, BooleanOp::Intersect);
    let result = a.intersect(&b);
    assert_eq!(result.aabb.min, DVec3::ZERO);
    assert_eq!(result.aabb.max, DVec3::splat(0.5));
    assert_eq!(distinct_positions(&result.polygons).len(), 8);
    assert_eq!(result.settings.name, "Test");
}

#[test]
fn knife_keeps_back_half_space() {
    let brushlet = cube(DVec3::ZERO, 1.0, BooleanOp::Union);
    let normal = DVec3::new(1.0, 1.0, 0.0).normalize();
    let knife = Knife::<F64>::new(HalfSpace { normal, distance_from_origin: 0.2 }, 7);
    let cut = knife.perform(&brushlet);
    assert!(!cut.polygons.is_empty());
    for p in &cut.polygons {
        for v in &p.vertices {
            assert!(normal.dot(v.pos) <= 0.2 + EPSILON, "vertex {:?} in front of the cut", v.pos);
        }
    }
    assert!(cut.polygons.iter().any(|p| p.plane.surface.material_idx == 7));
}

#[test]
fn inverse_flips_every_polygon() {
    let brushlet = cube(DVec3::ZERO, 1.0, BooleanOp::Union);
    let inverted = brushlet.inverse();
    assert_eq!(inverted.polygons.len(), brushlet.polygons.len());
    for (a, b) in inverted.polygons.iter().zip(brushlet.polygons.iter()) {
        assert!(a.plane.flipped && !b.plane.flipped);
        let reversed: Vec<Vertex> = b.vertices.iter().rev().copied().collect();
        assert_eq!(a.vertices, reversed);
    }
    assert_eq!(inverted.aabb, brushlet.aabb);
}

#[test]
fn brushlet_to_mesh_data_applies_knives_then_inversion() {
    let mut brushlet = cube(DVec3::ZERO, 2.0, BooleanOp::Union);
    brushlet.settings.inverted = true;
    brushlet.settings.knives.push(Knife::new(HalfSpace { normal: DVec3::Y, distance_from_origin: 0.0 }, 1));
    let mesh = brushlet.to_mesh_data();
    assert!(mesh.polygons.iter().any(|p| p.plane.surface.material_idx == 1));
    for p in &mesh.polygons {
        // the cut face comes from the knife's box reversed, then inverted back
        assert_eq!(p.plane.flipped, p.plane.surface.material_idx != 1);
        assert!(p.vertices.iter().all(|v| v.pos.y <= EPSILON));
    }
}

#[test]
fn node_invert_twice_restores_planes() {
    let polygons = generate_polygons_from_surfaces::<F64>(&cuboid_surfaces(DVec3::ZERO, DVec3::ONE, 0));
    let mut node = Node::new(polygons);
    let before: Vec<_> = node.all_polygons().iter().map(|p| (p.plane.key, p.plane.flipped)).collect();
    node.invert();
    assert!(node.all_polygons().iter().all(|p| p.plane.flipped));
    node.invert();
    let mut after: Vec<_> = node.all_polygons().iter().map(|p| (p.plane.key, p.plane.flipped)).collect();
    let mut expected = before.clone();
    after.sort_by_key(|(k, f)| (k.nx, k.ny, k.nz, k.d, *f));
    expected.sort_by_key(|(k, f)| (k.nx, k.ny, k.nz, k.d, *f));
    assert_eq!(after, expected);
}

#[test]
fn clip_polygons_without_plane_keeps_input() {
    let empty: Node<F64> = Node::new(Vec::new());
    let clipped = empty.clip_polygons(vec![square_on_z0()]);
    assert_eq!(clipped.len(), 1);
    assert_eq!(clipped[0].vertices, square_on_z0().vertices);
}

#[test]
fn clip_polygons_drops_inside() {
    let solid = Node::new(generate_polygons_from_surfaces::<F64>(&cuboid_surfaces(DVec3::ZERO, DVec3::splat(4.0), 0)));
    let clipped = solid.clip_polygons(vec![square_on_z0()]);
    assert!(clipped.is_empty());
    let outside = Node::new(generate_polygons_from_surfaces::<F64>(&cuboid_surfaces(DVec3::splat(10.0), DVec3::ONE, 0)));
    assert_eq!(outside.clip_polygons(vec![square_on_z0()]).len(), 1);
}

#[test]
fn select_brushlet_out_of_range() {
    let mut brush = Brush::<F64>::new("Brush 0");
    assert_eq!(brush.settings.name, "Brush 0");
    assert!(matches!(brush.select_brushlet(0), Err(BrushError::BrushletAtIndexDoesNotExist(0))));
    brush.brushlets.push(cube(DVec3::ZERO, 1.0, BooleanOp::Union));
    assert!(brush.select_brushlet(0).is_ok());
    assert!(matches!(brush.select_brushlet(5), Err(BrushError::BrushletAtIndexDoesNotExist(5))));
}

#[test]
fn get_brushlet_mut_changes_in_place() {
    let mut brush = Brush::<F64>::new("Brush");
    assert!(brush.get_brushlet_mut(0).is_none());
    brush.brushlets.push(cube(DVec3::ZERO, 1.0, BooleanOp::Union));
    brush.get_brushlet_mut(0).unwrap().settings.inverted = true;
    assert!(brush.brushlets[0].settings.inverted);
}

#[test]
fn brush_to_mesh_data_empty_and_single() {
    let mut brush = Brush::<F64>::new("Brush");
    assert!(brush.to_mesh_data().polygons.is_empty());
    brush.brushlets.push(cube(DVec3::ZERO, 1.0, BooleanOp::Union));
    let mesh = brush.to_mesh_data();
    assert_eq!(mesh.polygons.len(), 6);
}

#[test]
fn brush_folds_room_and_knife() {
    let mut brush = Brush::<F64>::new("Room");
    brush.brushlets.push(cube(DVec3::ZERO, 4.0, BooleanOp::Union));
    brush.brushlets.push(cube(DVec3::ZERO, 2.0, BooleanOp::Subtract));
    let hollow = brush.to_mesh_data();
    let area: f64 = hollow.polygons.iter().map(polygon_area).sum();
    assert!((area - 120.0).abs() < 1e-9, "area {}", area);
    let inner = hollow.polygons.iter().filter(|p| p.plane.flipped).map(polygon_area).sum::<f64>();
    assert!((inner - 24.0).abs() < 1e-9, "inner area {}", inner);
    brush.settings.knives.push(Knife::new(HalfSpace { normal: DVec3::Y, distance_from_origin: 0.0 }, 2));
    let cut = brush.to_mesh_data();
    assert!(cut.polygons.iter().all(|p| p.vertices.iter().all(|v| v.pos.y <= EPSILON)));
}

#[test]
fn try_select_picks_nearest_brushlet() {
    let mut brush = Brush::<F64>::new("Row");
    brush.brushlets.push(cube(DVec3::new(0.0, 0.0, 5.0), 1.0, BooleanOp::Union));
    brush.brushlets.push(cube(DVec3::ZERO, 1.0, BooleanOp::Union));
    let ray = Raycast::new(DVec3::new(0.0, 0.0, -2.0), DVec3::Z);
    assert_eq!(brush.try_select_brushlet(&ray), Some(1));
    let hit = brush.try_select(&ray).unwrap();
    assert!((hit.distance - 1.5).abs() < 1e-12);
    assert_eq!(hit.normal, -DVec3::Z);
    let away = Raycast::new(DVec3::new(0.0, 0.0, -2.0), -DVec3::Z);
    assert_eq!(brush.try_select_brushlet(&away), None);
}

#[test]
fn scene_try_select_brush_skips_hidden_layers() {
    let mut scene = BrusherScene::<F64>::new();
    let mut brush = Brush::<F64>::new("Brush 0");
    brush.brushlets.push(cube(DVec3::ZERO, 1.0, BooleanOp::Union));
    let mut hidden = Brush::<F64>::new("Hidden");
    hidden.brushlets.push(cube(DVec3::ZERO, 1.0, BooleanOp::Union));
    scene.layers.push(Layer { name: "Hidden".to_string(), brushes: vec![hidden], hidden: true });
    scene.layers.push(Layer { name: "Test".to_string(), brushes: vec![Brush::new("Test"), brush], hidden: false });
    let ray = Raycast::new(DVec3::new(0.0, 0.0, -2.0), DVec3::Z);
    let selection = scene.try_select_brush(&ray).unwrap();
    assert_eq!((selection.layer_idx, selection.idx), (1, 1));
    let miss = Raycast::new(DVec3::new(10.0, 10.0, 10.0), DVec3::Z);
    assert!(scene.try_select_brush(&miss).is_none());
    assert!(scene.select_brush(1, 2).is_none());
    assert!(scene.get_brush_mut(0, 0).is_some());
}

#[test]
fn transform_moves_brushlet() {
    let brushlet = cube(DVec3::ZERO, 1.0, BooleanOp::Union);
    let moved = brushlet.transform(&DAffine3::from_translation(DVec3::new(2.0, 0.0, 0.0)));
    assert_eq!(moved.aabb.min, DVec3::new(1.5, -0.5, -0.5));
    assert_eq!(moved.aabb.max, DVec3::new(2.5, 0.5, 0.5));
    assert_eq!(moved.polygons.len(), 6);
    let right = moved.polygons.iter().find(|p| p.plane.key.nx == 1_000_000).unwrap();
    assert_eq!(right.plane.key.d, 2_500_000);
}

#[test]
fn cuboid_face_table() {
    let m = CuboidMaterialIndices { top: 1, bottom: 2, front: 3, back: 4, left: 5, right: 6 };
    let faces = m.cuboid_faces();
    assert_eq!(faces.len(), 6);
    assert_eq!((faces[0].a, faces[0].b, faces[0].c, faces[0].d, faces[0].facing, faces[0].material_index), (4, 5, 6, 7, Facing::PosZ, 3));
    assert_eq!((faces[5].a, faces[5].b, faces[5].c, faces[5].d, faces[5].facing, faces[5].material_index), (0, 4, 7, 3, Facing::NegX, 5));
    assert_eq!(faces[2].material_index, 1);
    assert_eq!(faces[4].facing, Facing::PosX);
}

#[test]
fn cuboid_material_indices_default() {
    let m = CuboidMaterialIndices::default();
    assert_eq!((m.top, m.bottom, m.front, m.back, m.left, m.right), (0, 0, 0, 0, 0, 0));
    let u = CuboidMaterialIndices::uniform(4);
    assert_eq!((u.top, u.right), (4, 4));
}

fn room(name: &str) -> Brush<F64> {
    let mut brush = Brush::<F64>::new(name);
    brush.brushlets.push(Brushlet::new(
        box_polygons(DVec3::ZERO, DVec3::new(8.0, 4.0, 8.0), CuboidMaterialIndices::default().front),
        BrushletSettings::new("Room 1".to_string(), BooleanOp::Subtract, vec![], false),
    ));
    brush
}

#[test]
fn test_try_select() {
    let brushlet = Brushlet::new(
        box_polygons(DVec3::ZERO, DVec3::ONE, CuboidMaterialIndices::uniform(1).front),
        BrushletSettings::new("Test".into(), BooleanOp::Union, Vec::new(), false),
    );
    let raycast = Raycast::new(DVec3::new(0.0, 0.0, -2.0), DVec3::Z);
    let selection = brushlet.try_select(&raycast);
    // the back face at z = -0.5 faces the ray; the hit lies `distance` along it
    assert!(
        selection
            == Some(RaycastResult {
                distance: 1.5,
                normal: -DVec3::Z,
                point: DVec3::new(0.0, 0.0, -0.5),
            })
    );
}

#[test]
fn test_try_select_failure() {
    let brushlet = Brushlet::new(
        box_polygons(DVec3::ZERO, DVec3::ONE, CuboidMaterialIndices::uniform(1).front),
        BrushletSettings::new("Test".into(), BooleanOp::Union, Vec::new(), false),
    );
    let raycast = Raycast::new(DVec3::new(0.0, 0.0, 2.0), DVec3::Z);
    let selection = brushlet.try_select(&raycast);
    assert!(selection == None);
}

#[test]
fn test_try_select_brush_hit() {
    let mut scene = BrusherScene::<F64>::new();
    let mut layer = Layer { name: "Test".to_string(), brushes: vec![Brush::new("Test")], hidden: false };
    layer.brushes.push(room("Brush 0"));
    scene.layers.push(layer);
    // from inside the room every face ahead of the ray faces away from it
    let raycast = Raycast::new(DVec3::new(0.0, 0.0, -2.0), DVec3::new(0.0, 0.0, 1.0));
    assert!(scene.try_select_brush(&raycast).is_none());
    // from outside, the room's near face is picked, in the layer's second slot
    let outside = Raycast::new(DVec3::new(0.0, 0.0, -10.0), DVec3::new(0.0, 0.0, 1.0));
    let selection = scene.try_select_brush(&outside).unwrap();
    assert_eq!(selection.idx, 1);
    assert_eq!(selection.raycast_result.distance, 6.0);
}

#[test]
fn test_try_select_brush_miss() {
    let mut scene = BrusherScene::<F64>::new();
    let mut layer = Layer { name: "Test".to_string(), brushes: vec![Brush::new("Test")], hidden: false };
    layer.brushes.push(room("Brush 0"));
    scene.layers.push(layer);
    let raycast = Raycast::new(DVec3::new(10.0, 10.0, 10.0), DVec3::new(0.0, 0.0, 1.0));
    let selection = scene.try_select_brush(&raycast);
    assert!(selection.is_none());
}

#[test]
fn brush_transform_moves_brush_knives() {
    let mut brush = Brush::<F64>::new("Moved");
    brush.brushlets.push(cube(DVec3::ZERO, 1.0, BooleanOp::Union));
    brush.settings.knives.push(Knife::new(HalfSpace { normal: DVec3::X, distance_from_origin: 0.0 }, 2));
    brush.transform(&DAffine3::from_translation(DVec3::new(3.0, 0.0, 0.0)));
    assert_eq!(brush.settings.knives[0].half_space.distance_from_origin, 3.0);
    assert_eq!(brush.settings.knives[0].material_index, 2);
    assert_eq!(brush.brushlets[0].aabb.min, DVec3::new(2.5, -0.5, -0.5));
}

#[test]
fn brush_bakes_each_brushlet_before_the_fold() {
    let mut brush = Brush::<F64>::new("Baked");
    brush.brushlets.push(cube(DVec3::ZERO, 2.0, BooleanOp::Union));
    let mut second = cube(DVec3::new(2.0, 0.0, 0.0), 2.0, BooleanOp::Union);
    second.settings.knives.push(Knife::new(HalfSpace { normal: DVec3::Y, distance_from_origin: 0.0 }, 4));
    brush.brushlets.push(second);
    let mesh = brush.to_mesh_data();
    let max_y_right = mesh
        .polygons
        .iter()
        .flat_map(|p| p.vertices.iter())
        .filter(|v| v.pos.x > 1.0 + EPSILON)
        .map(|v| v.pos.y)
        .fold(f64::NEG_INFINITY, f64::max);
    assert!(max_y_right <= EPSILON, "the second brushlet's knife was not applied: {}", max_y_right);
    let max_y_left = mesh.polygons.iter().flat_map(|p| p.vertices.iter()).map(|v| v.pos.y).fold(f64::NEG_INFINITY, f64::max);
    assert_eq!(max_y_left, 1.0);
}

#[test]
fn split_polygon_measures_polygons_with_the_same_key() {
    let plane = Plane::<F64>::from_surface(Surface::new(DVec3::Z, 0.0, 0));
    let tilted = Surface::new(DVec3::new(1e-7, 0.0, 1.0), 0.0, 0);
    let vertices: Vec<Vertex> = [
        DVec3::new(1000.0, 0.0, 0.001),
        DVec3::new(1001.0, 0.0, 0.001),
        DVec3::new(1001.0, 1.0, 0.001),
    ]
    .iter()
    .map(|p| Vertex::new(*p, DVec3::Z))
    .collect();
    let polygon = Polygon::new(vertices, Plane::from_surface(tilted));
    assert_eq!(polygon.plane.key, plane.key);
    let parts = plane.split_polygon(polygon);
    assert_eq!(parts.front.len(), 1);
    assert!(parts.coplanar_front.is_empty() && parts.coplanar_back.is_empty() && parts.back.is_empty());
}
