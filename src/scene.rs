use vstd::prelude::*;

use crate::broadphase::nearest;
use crate::brush::{brushlet_hits, Brush};
use crate::kernel::Kernel;

verus! {

/// A named group of brushes that can be hidden.
pub struct Layer<K: Kernel> {
    pub name: String,
    pub brushes: Vec<Brush<K>>,
    pub hidden: bool,
}

/// A brush picked by a ray: its layer, its index there, and the hit.
pub struct BrushSelection<K: Kernel> {
    pub idx: usize,
    pub layer_idx: usize,
    pub raycast_result: K::Hit,
}

/// The layers of an editing scene.
pub struct BrusherScene<K: Kernel> {
    pub layers: Vec<Layer<K>>,
}

/// The hit of the ray on a brush: the nearest on its brushlets.
pub open spec fn brush_hit<K: Kernel>(ray: K::Ray, b: Brush<K>) -> Option<K::Hit> {
    nearest::<K>(brushlet_hits(ray, b.brushlets@))
}

/// No visible brush before layer `l`, or before brush `i` of layer `l`,
/// is hit by the ray.
pub open spec fn none_hit_before<K: Kernel>(layers: Seq<Layer<K>>, ray: K::Ray, l: int, i: int) -> bool {
    forall|a: int, b: int|
        0 <= a < layers.len() && !layers[a].hidden && 0 <= b < layers[a].brushes@.len() && (a < l || (a == l && b < i))
            ==> (#[trigger] brush_hit(ray, layers[a].brushes@[b])).is_none()
}

impl<K: Kernel> BrusherScene<K> {
    pub fn new() -> (r: BrusherScene<K>)
        ensures
            r.layers@.len() == 0,
    {
        BrusherScene { layers: Vec::new() }
    }

    /// The brush at `idx` of layer `layer_idx`, if both exist.
    pub fn select_brush(&self, layer_idx: usize, idx: usize) -> (r: Option<&Brush<K>>)
        ensures
            r.is_some() <==> layer_idx < self.layers@.len() && idx < self.layers@[layer_idx as int].brushes@.len(),
            r matches Some(b) ==> *b == self.layers@[layer_idx as int].brushes@[idx as int],
    {
        if layer_idx >= self.layers.len() {
            return None;
        }
        let layer = &self.layers[layer_idx];
        if idx >= layer.brushes.len() {
            return None;
        }
        Some(&layer.brushes[idx])
    }

    /// The first brush, in layer order then brush order, that the ray hits;
    /// hidden layers are passed over.
    pub fn try_select_brush(&self, ray: &K::Ray) -> (r: Option<BrushSelection<K>>)
        ensures
            r matches Some(s) ==> s.layer_idx < self.layers@.len()
                && !self.layers@[s.layer_idx as int].hidden
                && s.idx < self.layers@[s.layer_idx as int].brushes@.len()
                && brush_hit(*ray, self.layers@[s.layer_idx as int].brushes@[s.idx as int]) == Some(s.raycast_result)
                && none_hit_before(self.layers@, *ray, s.layer_idx as int, s.idx as int),
            r.is_none() ==> none_hit_before(self.layers@, *ray, self.layers@.len() as int, 0),
    {
        let mut l: usize = 0;
        while l < self.layers.len()
            invariant
                l <= self.layers@.len(),
                none_hit_before(self.layers@, *ray, l as int, 0),
            decreases self.layers@.len() - l,
        {
            let layer = &self.layers[l];
            if !layer.hidden {
                let mut i: usize = 0;
                while i < layer.brushes.len()
                    invariant
                        l < self.layers@.len(),
                        *layer == self.layers@[l as int],
                        !layer.hidden,
                        i <= layer.brushes@.len(),
                        none_hit_before(self.layers@, *ray, l as int, i as int),
                    decreases layer.brushes@.len() - i,
                {
                    match layer.brushes[i].try_select(ray) {
                        Some(hit) => {
                            return Some(BrushSelection { idx: i, layer_idx: l, raycast_result: hit });
                        },
                        None => {},
                    }
                    i = i + 1;
                }
            }
            proof {
                assert forall|a: int, b: int|
                    0 <= a < self.layers@.len() && !self.layers@[a].hidden && 0 <= b < self.layers@[a].brushes@.len()
                        && (a < l + 1 || (a == l + 1 && b < 0))
                        implies (#[trigger] brush_hit(*ray, self.layers@[a].brushes@[b])).is_none() by {
                    if a < l {
                    } else {
                        assert(a == l);
                    }
                }
            }
            l = l + 1;
        }
        None
    }

    /// The brush at `idx` of layer `layer_idx`, to change in place.
    pub fn get_brush_mut(&mut self, layer_idx: usize, idx: usize) -> (r: Option<&mut Brush<K>>)
        ensures
            !(layer_idx < old(self).layers@.len() && idx < old(self).layers@[layer_idx as int].brushes@.len())
                ==> r.is_none() && *final(self) == *old(self),
            layer_idx < old(self).layers@.len() && idx < old(self).layers@[layer_idx as int].brushes@.len()
                ==> (r matches Some(b) && *b == old(self).layers@[layer_idx as int].brushes@[idx as int]),
    {
        if layer_idx >= self.layers.len() {
            return None;
        }
        if idx >= self.layers[layer_idx].brushes.len() {
            return None;
        }
        Some(&mut self.layers[layer_idx].brushes[idx])
    }
}

} // verus!
