//! A whole traversal of a worker's trees, from the arguments of a call to the packed result.

use ahash::AHashMap;
use vstd::prelude::*;
use vstd::seq_lib::group_to_multiset_ensures;

use crate::call_laws::posed;
use crate::entry::{CutNode, Entry, MAX_INSTANCES, MAX_PAGED_INDEX};
use crate::hash::{words, words_get};
use crate::lod_state::{Holdings, LodState, LodTree};
use crate::scale::{nan, rank, scale_le, scale_min, Scale};
use crate::splat::LodSplat;
use crate::traverse::{
    job, lemma_seeded_number, nodes_in, rooted, run_atomic, seeded, seeded_list, unseeded, Progress,
};
use crate::traverse_laws::law_seeded_cut_is_the_roots;
use crate::tree_view::{fits, measured, measures, InstanceParams, TreeView};

verus! {

/// Bits of the value 1.
pub const ONE_BITS: u32 = 0x3f80_0000;

/// Packed indices come in rows of so many.
pub const ROW: usize = 16384;

/// Why a traversal is refused.
#[derive(Debug, Clone, Copy, PartialEq, Eq, Structural)]
pub enum TraverseError {
    ViewToObjectsLength,
    LodScalesLength,
    BehindFoveatesLength,
    ConeFoveatesLength,
    ConeFov0sLength,
    ConeFovsLength,
    /// More instances than a frontier entry can tell apart.
    TooManyInstances(usize),
    /// This tree has so many slots, more than a frontier entry can tell apart.
    TooManySlots(u32, usize),
}

/// The part of a cut that belongs to one instance.
#[derive(Debug)]
pub struct PackedInstance {
    pub lod_id: u32,
    pub num_splats: u32,
    /// Paged indices, filled up with zeros to full rows.
    pub indices: Vec<u32>,
}

/// What a traversal gives back.
#[derive(Debug)]
pub struct Traversal {
    pub instances: Vec<PackedInstance>,
    /// `(lod_id, chunk)` in the order in which they were touched.
    pub chunks: Vec<(u32, u32)>,
    /// How many chunks were touched.
    pub needed_chunks: usize,
    /// The smallest pixel scale that the traversal has worked on.
    pub pixel_limit: Scale,
    /// Nothing is left to do.
    pub done: bool,
}

/// The two computations that turn a call's angles and axes into instance parameters.
pub struct Optics<A, C> {
    /// View direction of a z axis: normalized and turned round.
    pub aim: A,
    /// Cosine of half an angle in degrees, which is kept between 0 and 180 for that.
    pub half_cosine: C,
}

/// `s > 0`.
pub open spec fn positive(s: Scale) -> bool {
    !nan(s) && rank(s) > 0
}

impl<A: Fn([Scale; 3]) -> [Scale; 3], C: Fn(Scale) -> Scale> Optics<A, C> {
    pub open spec fn aimed(self, axis: [Scale; 3]) -> [Scale; 3] {
        choose|r: [Scale; 3]| call_ensures(self.aim, (axis,), r)
    }

    pub open spec fn half_cosine_of(self, fov: Scale) -> Scale {
        choose|r: Scale| call_ensures(self.half_cosine, (fov,), r)
    }

    /// The two accept everything and depend on their arguments alone.
    pub open spec fn lawful(self) -> bool {
        &&& forall|axis: [Scale; 3]| #[trigger] call_requires(self.aim, (axis,))
        &&& forall|fov: Scale| #[trigger] call_requires(self.half_cosine, (fov,))
        &&& forall|axis: [Scale; 3], r: [Scale; 3]| #[trigger]
            call_ensures(self.aim, (axis,), r) ==> r == self.aimed(axis)
        &&& forall|fov: Scale, r: Scale| #[trigger]
            call_ensures(self.half_cosine, (fov,), r) ==> r == self.half_cosine_of(fov)
    }

    /// Cosine at the edge of a cone; without an angle the cone is a line.
    pub open spec fn cone(self, fov: Scale) -> Scale {
        if positive(fov) {
            self.half_cosine_of(fov)
        } else {
            Scale { bits: ONE_BITS }
        }
    }

    /// The parameters of instance `i`, from the columns of a call: the view matrix gives the
    /// direction and the position, and the outer cone is no narrower than the inner one.
    pub open spec fn params(self, call: Columns, i: int) -> InstanceParams {
        let m = |k: int| call.view_to_objects[16 * i + k];
        let cone_dot0 = self.cone(call.cone_fov0s[i]);
        InstanceParams {
            origin: [m(12), m(13), m(14)],
            forward: self.aimed([m(8), m(9), m(10)]),
            lod_scale: call.lod_scales[i],
            behind_foveate: call.behind_foveates[i],
            cone_foveate: call.cone_foveates[i],
            cone_dot0,
            cone_dot: scale_min(self.cone(call.cone_fovs[i]), cone_dot0),
        }
    }

    /// The parameters of the first `n` instances.
    pub open spec fn all_params(self, call: Columns, n: nat) -> Seq<InstanceParams> {
        Seq::new(n, |i: int| self.params(call, i))
    }

    fn cone_of(&self, fov: Scale) -> (r: Scale)
        requires
            self.lawful(),
        ensures
            r == self.cone(fov),
    {
        if !fov.is_nan() && fov.rank() > 0 {
            (self.half_cosine)(fov)
        } else {
            Scale::from_bits(ONE_BITS)
        }
    }
}

/// The columns of a call: 16 values of a matrix, and five values more, for each instance.
pub struct Columns {
    pub view_to_objects: Seq<Scale>,
    pub lod_scales: Seq<Scale>,
    pub behind_foveates: Seq<Scale>,
    pub cone_foveates: Seq<Scale>,
    pub cone_fov0s: Seq<Scale>,
    pub cone_fovs: Seq<Scale>,
}

/// The columns of a call, as they are handed over.
#[derive(Debug, Clone, Copy)]
pub struct Call<'a> {
    pub view_to_objects: &'a [Scale],
    pub lod_scales: &'a [Scale],
    pub behind_foveates: &'a [Scale],
    pub cone_foveates: &'a [Scale],
    pub cone_fov0s: &'a [Scale],
    pub cone_fovs: &'a [Scale],
}

impl<'a> View for Call<'a> {
    type V = Columns;

    open spec fn view(&self) -> Columns {
        Columns {
            view_to_objects: self.view_to_objects@,
            lod_scales: self.lod_scales@,
            behind_foveates: self.behind_foveates@,
            cone_foveates: self.cone_foveates@,
            cone_fov0s: self.cone_fov0s@,
            cone_fovs: self.cone_fovs@,
        }
    }
}

impl Columns {
    /// What is wrong with the lengths of the columns for `n` instances.
    pub open spec fn misfit(self, n: int) -> Option<TraverseError> {
        if self.view_to_objects.len() != 16 * n {
            Some(TraverseError::ViewToObjectsLength)
        } else if self.lod_scales.len() != n {
            Some(TraverseError::LodScalesLength)
        } else if self.behind_foveates.len() != n {
            Some(TraverseError::BehindFoveatesLength)
        } else if self.cone_foveates.len() != n {
            Some(TraverseError::ConeFoveatesLength)
        } else if self.cone_fov0s.len() != n {
            Some(TraverseError::ConeFov0sLength)
        } else if self.cone_fovs.len() != n {
            Some(TraverseError::ConeFovsLength)
        } else if n > MAX_INSTANCES {
            Some(TraverseError::TooManyInstances(n as usize))
        } else {
            None
        }
    }
}

/// How many slots a tree has; none if there is no such tree.
pub open spec fn slots_in(h: Holdings, id: u32) -> int {
    if h.trees.contains_key(id) {
        h.splats(id).len() as int
    } else {
        0
    }
}

/// The first of the trees, from number `i` on, that has too many slots.
pub open spec fn oversized(h: Holdings, lod_ids: Seq<u32>, i: int) -> Option<TraverseError>
    decreases lod_ids.len() - i,
{
    if i < 0 || i >= lod_ids.len() {
        None
    } else if slots_in(h, lod_ids[i]) > MAX_PAGED_INDEX {
        Some(TraverseError::TooManySlots(lod_ids[i], slots_in(h, lod_ids[i]) as usize))
    } else {
        oversized(h, lod_ids, i + 1)
    }
}

/// Why a call is refused, if it is.
pub open spec fn refusal(h: Holdings, lod_ids: Seq<u32>, call: Columns) -> Option<TraverseError> {
    match call.misfit(lod_ids.len() as int) {
        Some(e) => Some(e),
        None => oversized(h, lod_ids, 0),
    }
}

/// The views show the trees as they are held, each under its parameters.
pub open spec fn shows(
    h: Holdings,
    lod_ids: Seq<u32>,
    params: Seq<InstanceParams>,
    trees: Seq<TreeView>,
) -> bool {
    &&& trees.len() == lod_ids.len()
    &&& forall|i: int|
        0 <= i < trees.len() ==> {
            &&& (#[trigger] trees[i]).lod_id == lod_ids[i]
            &&& trees[i].splats@ == h.splats(lod_ids[i])
            &&& trees[i].chunk_to_page@ == h.trees[lod_ids[i]].chunk_to_page
            &&& trees[i].params == params[i]
        }
}

/// The trees have their roots where they are looked for, and a traversal of them comes to its
/// end, whoever shows them.
pub open spec fn traversable<F: Fn(&LodSplat, &InstanceParams) -> Scale>(
    h: Holdings,
    lod_ids: Seq<u32>,
    params: Seq<InstanceParams>,
    root_pages: Seq<u32>,
    scale: F,
    max_splats: usize,
    limit: Scale,
) -> bool {
    forall|trees: Seq<TreeView>| #[trigger]
        shows(h, lod_ids, params, trees) ==> {
            &&& rooted(trees, root_pages)
            &&& job(trees, scale, max_splats, limit).completes(
                seeded(trees, root_pages, measured(scale), unseeded(), trees.len()),
            )
        }
}

/// A traversal of the trees from their roots ends in state `d`, with the frontier in `laid`.
pub open spec fn ends_in<F: Fn(&LodSplat, &InstanceParams) -> Scale>(
    h: Holdings,
    lod_ids: Seq<u32>,
    params: Seq<InstanceParams>,
    root_pages: Seq<u32>,
    scale: F,
    max_splats: usize,
    limit: Scale,
    d: Progress,
    laid: Seq<Entry>,
) -> bool {
    exists|trees: Seq<TreeView>|
        {
            &&& #[trigger] shows(h, lod_ids, params, trees)
            &&& job(trees, scale, max_splats, limit).finishes_laid(
                seeded(trees, root_pages, measured(scale), unseeded(), trees.len()),
                seeded_list(trees, root_pages, measured(scale), Seq::empty(), trees.len()),
                d,
                laid,
            )
        }
}

/// The node is one of instance `inst`.
pub open spec fn belongs_to(inst: int) -> spec_fn(CutNode) -> bool {
    |n: CutNode| n.0 == inst
}

/// The paged indices of one instance in a list of nodes.
pub open spec fn of_instance(nodes: Seq<CutNode>, inst: int) -> Seq<u32> {
    nodes.filter(belongs_to(inst)).map_values(|n: CutNode| n.1)
}

/// `n` rounded up to full rows.
pub open spec fn full_rows(n: int) -> int {
    (n + ROW - 1) / (ROW as int) * ROW
}

/// A traversal runs through at once if it has no time budget, or is not incremental.
pub fn is_atomic(budget_ms: Scale, incremental: bool) -> (r: bool)
    ensures
        r == (scale_le(budget_ms, Scale { bits: 0 }) || !incremental),
{
    budget_ms.le(Scale::zero()) || !incremental
}

/// Sorts the nodes of a cut by instance.
pub fn split_by_instance(cut: &Vec<(u32, u32)>, n: usize) -> (r: Vec<Vec<u32>>)
    requires
        forall|k: int| 0 <= k < cut@.len() ==> (#[trigger] cut@[k]).0 < n,
    ensures
        r@.len() == n,
        forall|i: int| 0 <= i < n ==> (#[trigger] r@[i])@ == of_instance(cut@, i),
{
    let mut outs: Vec<Vec<u32>> = Vec::new();
    while outs.len() < n
        invariant
            outs@.len() <= n,
            forall|i: int| 0 <= i < outs@.len() ==> (#[trigger] outs@[i])@ == Seq::<u32>::empty(),
        decreases n - outs@.len(),
    {
        outs.push(Vec::new());
    }
    let mut k: usize = 0;
    proof {
        reveal(Seq::filter);
        assert forall|i: int| 0 <= i < n implies (#[trigger] outs@[i])@ == of_instance(
            cut@.take(0),
            i,
        ) by {
            assert(of_instance(cut@.take(0), i) =~= Seq::<u32>::empty());
        }
    }
    while k < cut.len()
        invariant
            k <= cut@.len(),
            outs@.len() == n,
            forall|j: int| 0 <= j < cut@.len() ==> (#[trigger] cut@[j]).0 < n,
            forall|i: int|
                0 <= i < n ==> (#[trigger] outs@[i])@ == of_instance(cut@.take(k as int), i),
        decreases cut@.len() - k,
    {
        let (inst, paged) = cut[k];
        assert(cut@[k as int].0 < n);
        let ghost before = outs@;
        outs[inst as usize].push(paged);
        proof {
            let taken = cut@.take(k as int);
            assert(cut@.take(k + 1) =~= taken.push((inst, paged)));
            assert forall|i: int| 0 <= i < n implies (#[trigger] outs@[i])@ == of_instance(
                cut@.take(k + 1),
                i,
            ) by {
                assert(before[i]@ == of_instance(taken, i));
                lemma_of_instance_push(taken, (inst, paged), i);
            }
        }
        k += 1;
    }
    proof {
        assert(cut@.take(k as int) =~= cut@);
    }
    outs
}

pub(crate) proof fn lemma_of_instance_push(nodes: Seq<CutNode>, n: CutNode, inst: int)
    ensures
        of_instance(nodes.push(n), inst) == (if n.0 == inst {
            of_instance(nodes, inst).push(n.1)
        } else {
            of_instance(nodes, inst)
        }),
{
    reveal(Seq::filter);
    let p = belongs_to(inst);
    let f = |n: CutNode| n.1;
    assert(nodes.push(n).drop_last() =~= nodes);
    assert(nodes.filter(p).push(n).map_values(f) =~= nodes.filter(p).map_values(f).push(n.1));
    assert(of_instance(nodes.push(n), inst) =~= nodes.push(n).filter(p).map_values(f));
    assert(of_instance(nodes, inst) =~= nodes.filter(p).map_values(f));
}

/// Fills the indices of every instance up to full rows.
pub fn pack_indices(instance_outputs: &Vec<Vec<u32>>, lod_ids: &[u32]) -> (r: Vec<PackedInstance>)
    requires
        instance_outputs@.len() <= lod_ids@.len(),
        forall|i: int|
            0 <= i < instance_outputs@.len() ==> (#[trigger] instance_outputs@[i])@.len()
                <= u32::MAX - ROW,
    ensures
        r@.len() == instance_outputs@.len(),
        forall|i: int|
            0 <= i < r@.len() ==> (#[trigger] r@[i]).packs(lod_ids@[i], instance_outputs@[i]@),
{
    let mut packed: Vec<PackedInstance> = Vec::new();
    let mut i: usize = 0;
    while i < instance_outputs.len()
        invariant
            i <= instance_outputs@.len(),
            instance_outputs@.len() <= lod_ids@.len(),
            forall|i: int|
                0 <= i < instance_outputs@.len() ==> (#[trigger] instance_outputs@[i])@.len()
                    <= u32::MAX - ROW,
            packed@.len() == i,
            forall|j: int|
                0 <= j < i ==> (#[trigger] packed@[j]).packs(lod_ids@[j], instance_outputs@[j]@),
        decreases instance_outputs@.len() - i,
    {
        let out = &instance_outputs[i];
        assert(instance_outputs@[i as int]@ == out@);
        let len: usize = out.len();
        let capacity: usize = (len + ROW - 1) / ROW * ROW;
        let mut indices: Vec<u32> = Vec::with_capacity(capacity);
        let mut k: usize = 0;
        while k < len
            invariant
                k <= len,
                len == out@.len(),
                indices@ == out@.take(k as int),
            decreases len - k,
        {
            indices.push(out[k]);
            k += 1;
            proof {
                assert(indices@ =~= out@.take(k as int));
            }
        }
        proof {
            assert(out@.take(len as int) =~= out@);
            assert(indices@ =~= out@ + Seq::new(0nat, |k: int| 0u32));
        }
        while indices.len() < capacity
            invariant
                len == out@.len(),
                len <= indices@.len(),
                indices@.len() <= capacity || indices@.len() == len,
                capacity >= len,
                indices@ == out@ + Seq::new((indices@.len() - len) as nat, |k: int| 0u32),
            decreases capacity - indices@.len(),
        {
            let ghost before = indices@;
            indices.push(0);
            proof {
                assert(indices@ =~= out@ + Seq::new((indices@.len() - len) as nat, |k: int| 0u32));
            }
        }
        packed.push(PackedInstance { lod_id: lod_ids[i], num_splats: len as u32, indices });
        i += 1;
    }
    packed
}

/// Sorting a cut by instance keeps how often each node occurs.
pub(crate) proof fn lemma_of_instance_counts(nodes: Seq<CutNode>, inst: u32, paged: u32)
    ensures
        of_instance(nodes, inst as int).to_multiset().count(paged) == nodes.to_multiset().count(
            (inst, paged),
        ),
    decreases nodes.len(),
{
    broadcast use group_to_multiset_ensures;

    reveal(Seq::filter);
    if nodes.len() == 0 {
        assert(of_instance(nodes, inst as int).len() == 0);
        assert(of_instance(nodes, inst as int).to_multiset().len() == 0);
        assert(nodes.to_multiset().len() == 0);
    } else {
        let rest = nodes.drop_last();
        let n = nodes.last();
        lemma_of_instance_counts(rest, inst, paged);
        lemma_of_instance_push(rest, n, inst as int);
        assert(rest.push(n) =~= nodes);
        vstd::seq_lib::to_multiset_build(rest, n);
        vstd::seq_lib::to_multiset_build(of_instance(rest, inst as int), n.1);
    }
}

impl<'a> Call<'a> {
    /// Checks the lengths of the columns.
    pub fn check(&self, n: usize) -> (r: Result<(), TraverseError>)
        ensures
            r == (match self@.misfit(n as int) {
                Some(e) => Err::<(), TraverseError>(e),
                None => Ok::<(), TraverseError>(()),
            }),
    {
        let long: usize = self.view_to_objects.len();
        if long / 16 != n || long % 16 != 0 {
            return Err(TraverseError::ViewToObjectsLength);
        }
        if self.lod_scales.len() != n {
            return Err(TraverseError::LodScalesLength);
        }
        if self.behind_foveates.len() != n {
            return Err(TraverseError::BehindFoveatesLength);
        }
        if self.cone_foveates.len() != n {
            return Err(TraverseError::ConeFoveatesLength);
        }
        if self.cone_fov0s.len() != n {
            return Err(TraverseError::ConeFov0sLength);
        }
        if self.cone_fovs.len() != n {
            return Err(TraverseError::ConeFovsLength);
        }
        if n > MAX_INSTANCES {
            return Err(TraverseError::TooManyInstances(n));
        }
        Ok(())
    }

    /// The parameters of all instances.
    pub fn make_params<A: Fn([Scale; 3]) -> [Scale; 3], C: Fn(Scale) -> Scale>(
        &self,
        optics: &Optics<A, C>,
        n: usize,
    ) -> (r: Vec<InstanceParams>)
        requires
            optics.lawful(),
            self@.misfit(n as int) is None,
        ensures
            r@ == optics.all_params(self@, n as nat),
            r@.len() == n,
            forall|i: int|
                0 <= i < n ==> posed(*optics, self@, i, #[trigger] r@[i]),
            forall|i: int|
                #![trigger r@[i]]
                0 <= i < n ==> {
                    let m = self.view_to_objects@;
                    &&& r@[i].origin == [m[16 * i + 12], m[16 * i + 13], m[16 * i + 14]]
                    &&& r@[i].forward == optics.aimed(
                        [m[16 * i + 8], m[16 * i + 9], m[16 * i + 10]],
                    )
                    &&& r@[i].lod_scale == self.lod_scales@[i]
                    &&& r@[i].behind_foveate == self.behind_foveates@[i]
                    &&& r@[i].cone_foveate == self.cone_foveates@[i]
                },
    {
        let mut all: Vec<InstanceParams> = Vec::new();
        let mut i: usize = 0;
        while i < n
            invariant
                i <= n,
                optics.lawful(),
                self@.misfit(n as int) is None,
                all@ == optics.all_params(self@, i as nat),
            decreases n - i,
        {
            let at: usize = i * 16;
            let m = self.view_to_objects;
            let forward = (optics.aim)([m[at + 8], m[at + 9], m[at + 10]]);
            let cone_dot0 = optics.cone_of(self.cone_fov0s[i]);
            let cone_dot = optics.cone_of(self.cone_fovs[i]);
            let one = InstanceParams {
                origin: [m[at + 12], m[at + 13], m[at + 14]],
                forward,
                lod_scale: self.lod_scales[i],
                behind_foveate: self.behind_foveates[i],
                cone_foveate: self.cone_foveates[i],
                cone_dot0,
                cone_dot: cone_dot.min(cone_dot0),
            };
            proof {
                assert(one == optics.params(self@, i as int));
            }
            all.push(one);
            i += 1;
            proof {
                assert(all@ =~= optics.all_params(self@, i as nat));
            }
        }
        all
    }
}

impl LodState {
    /// Checks that every tree's slots fit a frontier entry.
    pub fn check_slots(&self, lod_ids: &[u32]) -> (r: Result<(), TraverseError>)
        requires
            self.wf(),
        ensures
            r == (match oversized(self@, lod_ids@, 0) {
                Some(e) => Err::<(), TraverseError>(e),
                None => Ok::<(), TraverseError>(()),
            }),
            r is Ok ==> forall|i: int|
                0 <= i < lod_ids@.len() ==> slots_in(self@, #[trigger] lod_ids@[i])
                    <= MAX_PAGED_INDEX,
    {
        let mut i: usize = 0;
        while i < lod_ids.len()
            invariant
                i <= lod_ids@.len(),
                self.wf(),
                oversized(self@, lod_ids@, 0) == oversized(self@, lod_ids@, i as int),
                forall|k: int|
                    0 <= k < i ==> slots_in(self@, #[trigger] lod_ids@[k]) <= MAX_PAGED_INDEX,
            decreases lod_ids@.len() - i,
        {
            let id: u32 = lod_ids[i];
            let n: usize = match words_get(&self.slots, id) {
                Some(slot) => {
                    assert(words(self.slots).contains_key(id));
                    self.stores[self.trees[slot as usize].store].len()
                },
                None => 0,
            };
            assert(n == slots_in(self@, lod_ids@[i as int]));
            if n > MAX_PAGED_INDEX {
                return Err(TraverseError::TooManySlots(id, n));
            }
            i += 1;
        }
        Ok(())
    }

    /// Views of the trees as they are held.
    fn build_views<'a>(
        Ghost(h): Ghost<Holdings>,
        slots: &AHashMap<u32, u32>,
        trees: &'a Vec<LodTree>,
        stores: &'a Vec<Vec<LodSplat>>,
        lod_ids: &[u32],
        params: &[InstanceParams],
    ) -> (r: Vec<TreeView<'a>>)
        requires
            h.trees == words(*slots).map_values(|k: u32| trees@[k as int].table()),
            h.stores == stores@.map_values(|s: Vec<LodSplat>| s@),
            forall|id: u32| #[trigger]
                words(*slots).contains_key(id) ==> words(*slots)[id] < trees@.len()
                    && trees@[words(*slots)[id] as int].store < stores@.len(),
            forall|i: int| 0 <= i < lod_ids@.len() ==> h.trees.contains_key(#[trigger] lod_ids@[i]),
            lod_ids@.len() <= params@.len(),
        ensures
            shows(h, lod_ids@, params@, r@),
    {
        let mut views: Vec<TreeView<'a>> = Vec::new();
        let mut i: usize = 0;
        while i < lod_ids.len()
            invariant
                i <= lod_ids@.len(),
                h.trees == words(*slots).map_values(|k: u32| trees@[k as int].table()),
                h.stores == stores@.map_values(|s: Vec<LodSplat>| s@),
                forall|id: u32| #[trigger]
                    words(*slots).contains_key(id) ==> words(*slots)[id] < trees@.len()
                        && trees@[words(*slots)[id] as int].store < stores@.len(),
                forall|i: int|
                    0 <= i < lod_ids@.len() ==> h.trees.contains_key(#[trigger] lod_ids@[i]),
                lod_ids@.len() <= params@.len(),
                views@.len() == i,
                forall|k: int|
                    0 <= k < i ==> {
                        &&& (#[trigger] views@[k]).lod_id == lod_ids@[k]
                        &&& views@[k].splats@ == h.splats(lod_ids@[k])
                        &&& views@[k].chunk_to_page@ == h.trees[lod_ids@[k]].chunk_to_page
                        &&& views@[k].params == params@[k]
                    },
            decreases lod_ids@.len() - i,
        {
            let id: u32 = lod_ids[i];
            assert(h.trees.contains_key(lod_ids@[i as int]));
            assert(words(*slots).contains_key(id));
            let slot: usize = match words_get(slots, id) {
                Some(slot) => slot as usize,
                None => 0,
            };
            let tree = &trees[slot];
            views.push(
                TreeView {
                    lod_id: id,
                    splats: stores[tree.store].as_slice(),
                    chunk_to_page: tree.chunk_to_page.as_slice(),
                    params: params[i],
                },
            );
            i += 1;
        }
        views
    }

    /// Traverses the trees from their roots, at once, on the scratch core. The trees and the
    /// incremental cut stay as they are. Of each instance the nodes of the output are listed
    /// first, then those of the frontier, each in order.
    pub fn traverse_lod_trees<
        F: Fn(&LodSplat, &InstanceParams) -> Scale,
        A: Fn([Scale; 3]) -> [Scale; 3],
        C: Fn(Scale) -> Scale,
    >(
        &mut self,
        max_splats: u32,
        pixel_scale_limit: Scale,
        lod_ids: &[u32],
        root_pages: &[u32],
        call: &Call,
        optics: &Optics<A, C>,
        scale: &F,
    ) -> (r: Result<Traversal, TraverseError>)
        requires
            old(self).wf(),
            measures(*scale),
            optics.lawful(),
            max_splats <= u32::MAX - ROW,
            refusal(old(self)@, lod_ids@, call@) is None ==> {
                &&& forall|i: int|
                    0 <= i < lod_ids@.len() ==> old(self)@.trees.contains_key(
                        #[trigger] lod_ids@[i],
                    )
                &&& traversable(
                    old(self)@,
                    lod_ids@,
                    optics.all_params(call@, lod_ids@.len()),
                    root_pages@,
                    *scale,
                    max_splats as usize,
                    pixel_scale_limit,
                )
            },
        ensures
            final(self).wf(),
            final(self)@ == old(self)@,
            final(self).cut == old(self).cut,
            refusal(old(self)@, lod_ids@, call@) matches Some(e) ==> r == Err::<
                Traversal,
                TraverseError,
            >(e) && *final(self) == *old(self),
            refusal(old(self)@, lod_ids@, call@) is None ==> {
                &&& r is Ok
                &&& final(self).scratch.wf()
                &&& ends_in(
                    old(self)@,
                    lod_ids@,
                    optics.all_params(call@, lod_ids@.len()),
                    root_pages@,
                    *scale,
                    max_splats as usize,
                    pixel_scale_limit,
                    final(self).scratch@,
                    final(self).scratch.frontier.list(),
                )
                &&& reports(
                    r->Ok_0,
                    lod_ids@,
                    final(self).scratch@,
                    final(self).scratch.frontier.list(),
                )
            },
    {
        let n: usize = lod_ids.len();
        match call.check(n) {
            Err(e) => {
                return Err(e);
            },
            Ok(_) => {},
        }
        match self.check_slots(lod_ids) {
            Err(e) => {
                return Err(e);
            },
            Ok(_) => {},
        }
        let params = call.make_params(optics, n);
        let ghost h = self@;
        let trees = Self::build_views(
            Ghost(h),
            &self.slots,
            &self.trees,
            &self.stores,
            lod_ids,
            params.as_slice(),
        );
        proof {
            assert(shows(h, lod_ids@, params@, trees@));
            assert(fits(trees@)) by {
                assert forall|i: int| 0 <= i < trees@.len() implies (
                #[trigger] trees@[i]).splats@.len() <= MAX_PAGED_INDEX by {
                    assert(h.trees.contains_key(lod_ids@[i]));
                    assert(slots_in(h, lod_ids@[i]) <= MAX_PAGED_INDEX);
                }
            }
        }
        run_atomic(
            &mut self.scratch,
            trees.as_slice(),
            scale,
            root_pages,
            max_splats as usize,
            pixel_scale_limit,
        );
        let cut = self.scratch.snapshot();
        proof {
            let j = job(trees@, *scale, max_splats as usize, pixel_scale_limit);
            let start = seeded(
                trees@,
                root_pages@,
                measured(*scale),
                unseeded(),
                trees@.len(),
            );
            let d = self.scratch@;
            law_seeded_cut_is_the_roots(trees@, root_pages@, measured(*scale));
            lemma_seeded_number(trees@, root_pages@, measured(*scale), unseeded(), trees@.len());
            j.law_end_is_in_trees_and_budget(start, d);
            assert forall|k: int| 0 <= k < cut@.len() implies (#[trigger] cut@[k]).0 < n by {
                broadcast use group_to_multiset_ensures;

                assert(cut@.contains(cut@[k]));
                assert(d.cut().count(cut@[k]) > 0);
            }
        }
        let outs = split_by_instance(&cut, n);
        proof {
            assert forall|i: int| 0 <= i < outs@.len() implies (#[trigger] outs@[i])@.len()
                <= u32::MAX - ROW by {
                cut@.lemma_filter_len(belongs_to(i));
            }
        }
        let instances = pack_indices(&outs, lod_ids);
        let mut chunks: Vec<(u32, u32)> = Vec::new();
        let mut k: usize = 0;
        while k < self.scratch.touched.len()
            invariant
                k <= self.scratch.touched@.len(),
                chunks@ == self.scratch.touched@.take(k as int),
            decreases self.scratch.touched@.len() - k,
        {
            chunks.push(self.scratch.touched[k]);
            k += 1;
            proof {
                assert(chunks@ =~= self.scratch.touched@.take(k as int));
            }
        }
        let r = Traversal {
            instances,
            needed_chunks: chunks.len(),
            chunks,
            pixel_limit: self.scratch.min_pixel_scale,
            done: true,
        };
        proof {
            assert(self.scratch.touched@.take(k as int) =~= self.scratch.touched@);
            assert forall|i: int, paged: u32|
                0 <= i < n implies #[trigger] r.instances@[i].listed().to_multiset().count(paged)
                == self.scratch@.cut().count((i as u32, paged)) by {
                lemma_of_instance_counts(cut@, i as u32, paged);
                assert(r.instances@[i].listed() =~= outs@[i]@);
            }
        }
        Ok(r)
    }
}

impl PackedInstance {
    /// The indices without the filling.
    pub open spec fn listed(&self) -> Seq<u32> {
        self.indices@.take(self.num_splats as int)
    }

    /// These indices of this tree, filled up with zeros to full rows.
    pub open spec fn packs(&self, lod_id: u32, out: Seq<u32>) -> bool {
        &&& self.lod_id == lod_id
        &&& self.num_splats == out.len()
        &&& self.indices@ == out + Seq::new(
            (full_rows(out.len() as int) - out.len()) as nat,
            |k: int| 0u32,
        )
    }
}

/// The result gives, instance by instance, the nodes of the cut: those of the output, then those
/// of the frontier, filled up with zeros to full rows; the chunks touched; and the smallest scale.
pub open spec fn reports(
    r: Traversal,
    lod_ids: Seq<u32>,
    d: Progress,
    laid: Seq<Entry>,
) -> bool {
    &&& r.instances@.len() == lod_ids.len()
    &&& forall|i: int|
        0 <= i < lod_ids.len() ==> (#[trigger] r.instances@[i]).packs(
            lod_ids[i],
            of_instance(d.output + nodes_in(laid), i),
        )
    &&& forall|i: int, paged: u32|
        0 <= i < lod_ids.len() ==> #[trigger] r.instances@[i].listed().to_multiset().count(paged)
            == d.cut().count((i as u32, paged))
    &&& r.chunks@ == d.touched
    &&& r.needed_chunks == d.touched.len()
    &&& r.pixel_limit == d.min_pixel_scale
    &&& r.done
}

} // verus!
