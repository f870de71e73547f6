use vstd::prelude::*;

use crate::broadphase::{bounds_of, vertex_lists};
use crate::brushlet::{knife_cut_of, same_settings, Brushlet};
use crate::polygon::views;
use crate::kernel::Kernel;
use crate::node::planes_of;
use crate::polytope::polytope_faces;

verus! {

/// A knife: removes everything in front of a plane. The faces it leaves on
/// the cut carry `material_index`.
pub struct Knife<K: Kernel> {
    pub half_space: K::HalfSpace,
    pub material_index: usize,
}

/// The knife moved by `t`: its plane transformed, its material kept.
pub open spec fn knife_moved<K: Kernel>(k: Knife<K>, t: K::Transform) -> Knife<K> {
    Knife { half_space: K::spec_transform_half_space(k.half_space, t), material_index: k.material_index }
}

impl<K: Kernel> Knife<K> {
    pub fn new(half_space: K::HalfSpace, material_index: usize) -> (r: Knife<K>)
        ensures
            r.half_space == half_space,
            r.material_index == material_index,
    {
        Knife { half_space, material_index }
    }

    pub fn copy(&self) -> (r: Knife<K>)
        ensures
            r == *self,
    {
        Knife { half_space: self.half_space, material_index: self.material_index }
    }

    /// Cuts the brushlet: subtracts from it the large box that the kernel
    /// builds on the far side of the plane. Every face of the result lies
    /// on a face plane of the brushlet, or is a reversed face of that box.
    pub fn perform(&self, brushlet: &Brushlet<K>) -> (r: Brushlet<K>)
        ensures
            knife_cut_of(*self, views(brushlet.polygons@), views(r.polygons@)),
            r.aabb == bounds_of::<K>(vertex_lists(r.polygons@)),
            same_settings(r.settings, brushlet.settings),
            forall|p| #[trigger] planes_of(r.polygons@).contains(p) ==> planes_of(brushlet.polygons@).contains(p) || p.flipped,
    {
        let surfaces = K::cutter(&self.half_space, self.material_index);
        let cutting = Brushlet::from_surfaces(surfaces, brushlet.settings.duplicate());
        let r = brushlet.subtract(&cutting);
        proof {
            assert(polytope_faces(K::spec_cutter(self.half_space, self.material_index)@, cutting.polygons@));
            assert forall|p| #[trigger] planes_of(r.polygons@).contains(p) implies planes_of(brushlet.polygons@).contains(p) || p.flipped by {
                if !planes_of(brushlet.polygons@).contains(p) {
                    assert(planes_of(cutting.polygons@).contains(p.reversed()));
                    let i = choose|i: int| 0 <= i < cutting.polygons@.len() && (#[trigger] cutting.polygons@[i]).plane == p.reversed();
                }
            }
        }
        r
    }

    /// The knife moved by `transform`.
    pub fn transform(&self, transform: &K::Transform) -> (r: Knife<K>)
        ensures
            r == knife_moved(*self, *transform),
    {
        Knife { half_space: K::transform_half_space(&self.half_space, transform), material_index: self.material_index }
    }
}

} // verus!
