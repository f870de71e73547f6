use vstd::prelude::*;

use crate::broadphase::{lemma_nearest_step, nearest, nearest_index};
use crate::brushlet::{
    baked, brushlet_hit, brushlet_moved, cut_by_all, intersect_of, is_cut_chain, knife_cut_of, subtract_of, union_of, Brushlet,
};
use crate::kernel::Kernel;
use crate::operations::{knife_moved, Knife};
use crate::polygon::{views, Polygon, PolygonView};

verus! {

/// A boolean operation to perform between two brushlets.
#[derive(Clone, Copy, Debug, PartialEq, Eq, Structural)]
pub enum BooleanOp {
    Union,
    Intersect,
    Subtract,
}

/// An operation to perform on a single brushlet.
pub enum BrushletOp<K: Kernel> {
    /// Slices the brushlet with a plane, discarding the part in front of it.
    Knife(Knife<K>),
}

/// The flat polygon list that a brush or brushlet renders as.
pub struct MeshData<K: Kernel> {
    pub polygons: Vec<Polygon<K>>,
}

/// Why a brush operation was refused.
#[derive(Clone, Copy, Debug, PartialEq, Eq, Structural)]
pub enum BrushError {
    /// No brushlet stands at this index.
    BrushletAtIndexDoesNotExist(usize),
}

/// A brush's name and its own knives.
pub struct BrushSettings<K: Kernel> {
    pub name: String,
    /// Cuts applied to the whole brush, after its brushlets are combined.
    pub knives: Vec<Knife<K>>,
}

/// A brush: brushlets folded left to right, each combined with what comes
/// before it by its own operation, then cut by the brush's knives.
pub struct Brush<K: Kernel> {
    pub brushlets: Vec<Brushlet<K>>,
    pub settings: BrushSettings<K>,
}

/// The hit of the ray on each brushlet.
pub open spec fn brushlet_hits<K: Kernel>(ray: K::Ray, bs: Seq<Brushlet<K>>) -> Seq<Option<K::Hit>> {
    bs.map_values(|b: Brushlet<K>| brushlet_hit(ray, b))
}

/// `r` is `a` combined with `b` by `op`.
pub open spec fn combined<K: Kernel>(op: BooleanOp, a: Seq<PolygonView<K>>, b: Seq<PolygonView<K>>, r: Seq<PolygonView<K>>) -> bool {
    match op {
        BooleanOp::Union => union_of(a, b, r),
        BooleanOp::Intersect => intersect_of(a, b, r),
        BooleanOp::Subtract => subtract_of(a, b, r),
    }
}

/// `accs` folds the brushlets `bs` left to right: `outs[i]` is what
/// brushlet `i` renders as on its own, `accs[0]` is `outs[0]`, and each
/// later `accs[i]` is `accs[i - 1]` combined with `outs[i]` by brushlet
/// `i`'s operation.
pub open spec fn is_fold_chain<K: Kernel>(bs: Seq<Brushlet<K>>, accs: Seq<Seq<PolygonView<K>>>, outs: Seq<Seq<PolygonView<K>>>) -> bool {
    &&& accs.len() == bs.len() && outs.len() == bs.len()
    &&& forall|i: int| 0 <= i < bs.len() ==> baked(#[trigger] bs[i], outs[i])
    &&& bs.len() > 0 ==> accs[0] == outs[0]
    &&& forall|i: int| 0 < i < bs.len() ==> combined((#[trigger] bs[i]).settings.operation, accs[i - 1], outs[i], accs[i])
}

/// `r` is the brushlets `bs` folded left to right.
pub open spec fn folded<K: Kernel>(bs: Seq<Brushlet<K>>, r: Seq<PolygonView<K>>) -> bool {
    exists|accs: Seq<Seq<PolygonView<K>>>, outs: Seq<Seq<PolygonView<K>>>|
        #[trigger] is_fold_chain(bs, accs, outs) && accs.last() == r
}

impl<K: Kernel> Brush<K> {
    /// An empty brush with the given name and no knives.
    pub fn new(name: &str) -> (r: Brush<K>)
        ensures
            r.brushlets@.len() == 0,
            r.settings.name@ == name@,
            r.settings.knives@.len() == 0,
    {
        Brush { brushlets: Vec::new(), settings: BrushSettings { name: name.to_owned(), knives: Vec::new() } }
    }

    /// The nearest hit of the ray on any brushlet; among equally near hits
    /// the first brushlet's stays.
    pub fn try_select(&self, ray: &K::Ray) -> (r: Option<K::Hit>)
        ensures
            r == nearest::<K>(brushlet_hits(*ray, self.brushlets@)),
    {
        let ghost hits = brushlet_hits(*ray, self.brushlets@);
        let mut closest: Option<K::Hit> = None;
        let mut i: usize = 0;
        while i < self.brushlets.len()
            invariant
                i <= self.brushlets@.len(),
                hits == brushlet_hits(*ray, self.brushlets@),
                closest == nearest::<K>(hits.subrange(0, i as int)),
            decreases self.brushlets@.len() - i,
        {
            proof {
                lemma_nearest_step::<K>(hits, i as int);
            }
            match self.brushlets[i].try_select(ray) {
                Some(hit) => {
                    let better = match &closest {
                        Some(best) => K::nearer(&hit, best),
                        None => true,
                    };
                    if better {
                        closest = Some(hit);
                    }
                },
                None => {},
            }
            i = i + 1;
        }
        proof {
            assert(hits.subrange(0, self.brushlets@.len() as int) =~= hits);
        }
        closest
    }

    /// The index of the brushlet with the nearest hit of the ray; among
    /// equally near hits the first stays.
    pub fn try_select_brushlet(&self, ray: &K::Ray) -> (r: Option<usize>)
        ensures
            r == (match nearest_index::<K>(brushlet_hits(*ray, self.brushlets@)) {
                Some(p) => Some(p.0),
                None => None,
            }),
    {
        let ghost hits = brushlet_hits(*ray, self.brushlets@);
        let mut closest: Option<(usize, K::Hit)> = None;
        let mut i: usize = 0;
        while i < self.brushlets.len()
            invariant
                i <= self.brushlets@.len(),
                hits == brushlet_hits(*ray, self.brushlets@),
                closest == nearest_index::<K>(hits.subrange(0, i as int)),
            decreases self.brushlets@.len() - i,
        {
            proof {
                lemma_nearest_step::<K>(hits, i as int);
            }
            match self.brushlets[i].try_select(ray) {
                Some(hit) => {
                    let better = match &closest {
                        Some(best) => K::nearer(&hit, &best.1),
                        None => true,
                    };
                    if better {
                        closest = Some((i, hit));
                    }
                },
                None => {},
            }
            i = i + 1;
        }
        proof {
            assert(hits.subrange(0, self.brushlets@.len() as int) =~= hits);
        }
        match closest {
            Some(c) => Some(c.0),
            None => None,
        }
    }

    /// The brushlet at `idx`, to change in place.
    pub fn get_brushlet_mut(&mut self, idx: usize) -> (r: Option<&mut Brushlet<K>>)
        ensures
            idx >= old(self).brushlets@.len() ==> r.is_none() && *final(self) == *old(self),
            idx < old(self).brushlets@.len() ==> (r matches Some(b) && *b == old(self).brushlets@[idx as int]
                && final(self).brushlets@ == old(self).brushlets@.update(idx as int, *final(b))
                && final(self).settings == old(self).settings),
    {
        if idx < self.brushlets.len() {
            Some(&mut self.brushlets[idx])
        } else {
            None
        }
    }

    /// The brushlet at `idx`, or an error naming the index when there is none.
    pub fn select_brushlet(&self, idx: usize) -> (r: Result<&Brushlet<K>, BrushError>)
        ensures
            idx < self.brushlets@.len() <==> r is Ok,
            r matches Ok(b) ==> *b == self.brushlets@[idx as int],
            r matches Err(e) ==> e == BrushError::BrushletAtIndexDoesNotExist(idx),
    {
        if idx >= self.brushlets.len() {
            return Err(BrushError::BrushletAtIndexDoesNotExist(idx));
        }
        Ok(&self.brushlets[idx])
    }

    /// Combines the brushlets and returns the polygons to render.
    ///
    /// Each brushlet is first cut by its own knives and turned over if it
    /// is inverted; the first result is then combined, in order, with each
    /// later one by that brushlet's operation; last, the brush's knives cut
    /// the whole.
    pub fn to_mesh_data(&self) -> (r: MeshData<K>)
        ensures
            self.brushlets@.len() == 0 ==> r.polygons@.len() == 0,
            self.brushlets@.len() > 0 ==> exists|acc: Seq<PolygonView<K>>|
                #[trigger] folded(self.brushlets@, acc) && cut_by_all(self.settings.knives@, acc, views(r.polygons@)),
    {
        if self.brushlets.len() == 0 {
            return MeshData { polygons: Vec::new() };
        }
        let bs = &self.brushlets;
        let first = bs[0].to_mesh_data();
        let mut acc = Brushlet::new(first.polygons, bs[0].settings.duplicate());
        let ghost mut accs: Seq<Seq<PolygonView<K>>> = seq![views(acc.polygons@)];
        let ghost mut outs: Seq<Seq<PolygonView<K>>> = seq![views(acc.polygons@)];
        let mut i: usize = 1;
        while i < bs.len()
            invariant
                1 <= i <= bs@.len(),
                *bs == self.brushlets,
                is_fold_chain(bs@.subrange(0, i as int), accs, outs),
                accs.last() == views(acc.polygons@),
            decreases bs@.len() - i,
        {
            let other = &bs[i];
            let baked_other = other.to_mesh_data();
            let other_solid = Brushlet::new(baked_other.polygons, other.settings.duplicate());
            let ghost before = views(acc.polygons@);
            acc = match other.settings.operation {
                BooleanOp::Union => acc.union(&other_solid),
                BooleanOp::Intersect => acc.intersect(&other_solid),
                BooleanOp::Subtract => acc.subtract(&other_solid),
            };
            proof {
                let a0 = accs;
                let o0 = outs;
                accs = accs.push(views(acc.polygons@));
                outs = outs.push(views(other_solid.polygons@));
                let prefix = bs@.subrange(0, i + 1);
                assert(combined(other.settings.operation, before, views(other_solid.polygons@), views(acc.polygons@)));
                assert forall|j: int| 0 <= j < prefix.len() implies baked(#[trigger] prefix[j], outs[j]) by {
                    if j < i {
                        assert(prefix[j] == bs@.subrange(0, i as int)[j]);
                        assert(outs[j] == o0[j]);
                    }
                }
                assert forall|j: int| 0 < j < prefix.len() implies combined((#[trigger] prefix[j]).settings.operation, accs[j - 1], outs[j], accs[j]) by {
                    if j < i {
                        assert(prefix[j] == bs@.subrange(0, i as int)[j]);
                        assert(accs[j] == a0[j] && accs[j - 1] == a0[j - 1] && outs[j] == o0[j]);
                    }
                }
                assert(is_fold_chain(prefix, accs, outs));
            }
            i = i + 1;
        }
        let ghost folded_views = views(acc.polygons@);
        proof {
            assert(bs@.subrange(0, bs@.len() as int) =~= bs@);
            assert(folded(self.brushlets@, folded_views));
        }
        let ghost mut chain: Seq<Seq<PolygonView<K>>> = seq![folded_views];
        let mut k: usize = 0;
        while k < self.settings.knives.len()
            invariant
                k <= self.settings.knives@.len(),
                is_cut_chain(self.settings.knives@.subrange(0, k as int), chain),
                chain[0] == folded_views,
                chain.last() == views(acc.polygons@),
            decreases self.settings.knives@.len() - k,
        {
            acc = self.settings.knives[k].perform(&acc);
            proof {
                let old_chain = chain;
                chain = chain.push(views(acc.polygons@));
                let ks = self.settings.knives@.subrange(0, k + 1);
                assert forall|j: int| 0 <= j < ks.len() implies knife_cut_of(#[trigger] ks[j], chain[j], chain[j + 1]) by {
                    if j < k {
                        assert(ks[j] == self.settings.knives@.subrange(0, k as int)[j]);
                        assert(chain[j] == old_chain[j] && chain[j + 1] == old_chain[j + 1]);
                    }
                }
            }
            k = k + 1;
        }
        proof {
            assert(self.settings.knives@.subrange(0, self.settings.knives@.len() as int) =~= self.settings.knives@);
            assert(is_cut_chain(self.settings.knives@, chain));
            assert(cut_by_all(self.settings.knives@, folded_views, views(acc.polygons@)));
        }
        MeshData { polygons: acc.polygons }
    }

    /// Moves every brushlet, and the brush's own knives, by `transform`.
    pub fn transform(&mut self, transform: &K::Transform)
        ensures
            final(self).brushlets@.len() == old(self).brushlets@.len(),
            forall|i: int| 0 <= i < final(self).brushlets@.len()
                ==> brushlet_moved(#[trigger] final(self).brushlets@[i], old(self).brushlets@[i], *transform),
            final(self).settings.knives@ == old(self).settings.knives@.map_values(|k: Knife<K>| knife_moved(k, *transform)),
            final(self).settings.name == old(self).settings.name,
    {
        let mut i: usize = 0;
        while i < self.brushlets.len()
            invariant
                i <= self.brushlets@.len(),
                self.brushlets@.len() == old(self).brushlets@.len(),
                self.settings == old(self).settings,
                forall|k: int| 0 <= k < i ==> brushlet_moved(#[trigger] self.brushlets@[k], old(self).brushlets@[k], *transform),
                forall|k: int| i <= k < self.brushlets@.len() ==> self.brushlets@[k] == old(self).brushlets@[k],
            decreases self.brushlets@.len() - i,
        {
            let moved = self.brushlets[i].transform(transform);
            self.brushlets.set(i, moved);
            i = i + 1;
        }
        let mut knives: Vec<Knife<K>> = Vec::with_capacity(self.settings.knives.len());
        let mut k: usize = 0;
        while k < self.settings.knives.len()
            invariant
                k <= self.settings.knives@.len(),
                self.settings == old(self).settings,
                knives@ == self.settings.knives@.subrange(0, k as int).map_values(|n: Knife<K>| knife_moved(n, *transform)),
            decreases self.settings.knives@.len() - k,
        {
            knives.push(self.settings.knives[k].transform(transform));
            k = k + 1;
            proof {
                assert(knives@ =~= self.settings.knives@.subrange(0, k as int).map_values(|n: Knife<K>| knife_moved(n, *transform)));
            }
        }
        proof {
            assert(self.settings.knives@.subrange(0, self.settings.knives@.len() as int) =~= self.settings.knives@);
        }
        self.settings.knives = knives;
    }
}

} // verus!
