//! What a call's arguments and results say, column by column and row by row.

use vstd::prelude::*;

use crate::entry::{CutNode, Entry};
use crate::heap::is_top;
use crate::lod_query::{
    ends_in, of_instance, oversized, refusal, reports, shows, traversable, Columns, Optics,
    PackedInstance, Traversal, TraverseError,
};
use crate::lod_state::Holdings;
use crate::scale::{nan, rank, scale_le, Scale};
use crate::screen_laws::{in_order, law_seeds_are_in_order};
use crate::splat::LodSplat;
use crate::traverse::{job, nodes_in, seeded, seeded_list, unseeded, LoopExit, Progress, Step};
use crate::tree_view::{fits, measured, InstanceParams, TreeView};

verus! {

/// The parameters `p` of instance `i` come from the columns of that instance alone: position and
/// direction from its own matrix, the scales from its own entries, and the cones from its own
/// angles, the outer one no narrower than the inner one.
pub open spec fn posed<A: Fn([Scale; 3]) -> [Scale; 3], C: Fn(Scale) -> Scale>(
    optics: Optics<A, C>,
    call: Columns,
    i: int,
    p: InstanceParams,
) -> bool {
    let m = call.view_to_objects;
    let inner = call.cone_fov0s[i];
    let outer = call.cone_fovs[i];
    let outer_dot = if !nan(outer) && rank(outer) > 0 {
        optics.half_cosine_of(outer)
    } else {
        (Scale { bits: 0x3f80_0000 })
    };
    &&& p.origin == [m[16 * i + 12], m[16 * i + 13], m[16 * i + 14]]
    &&& p.forward == optics.aimed([m[16 * i + 8], m[16 * i + 9], m[16 * i + 10]])
    &&& p.lod_scale == call.lod_scales[i]
    &&& p.behind_foveate == call.behind_foveates[i]
    &&& p.cone_foveate == call.cone_foveates[i]
    &&& p.cone_dot0 == (if !nan(inner) && rank(inner) > 0 {
        optics.half_cosine_of(inner)
    } else {
        (Scale { bits: 0x3f80_0000 })
    })
    &&& p.cone_dot == outer_dot || p.cone_dot == p.cone_dot0
    &&& !nan(p.cone_dot0) && !nan(outer_dot) ==> {
        &&& rank(p.cone_dot) <= rank(p.cone_dot0)
        &&& rank(p.cone_dot) <= rank(outer_dot)
    }
    &&& nan(p.cone_dot0) && !nan(outer_dot) ==> p.cone_dot == outer_dot
    &&& nan(outer_dot) ==> p.cone_dot == p.cone_dot0
}

/// Each instance is posed by its own matrix and its own entries of the other columns.
pub proof fn law_each_instance_is_posed_by_its_own_columns<
    A: Fn([Scale; 3]) -> [Scale; 3],
    C: Fn(Scale) -> Scale,
>(optics: Optics<A, C>, call: Columns, n: nat, i: int)
    requires
        0 <= i < n,
    ensures
        optics.all_params(call, n).len() == n,
        posed(optics, call, i, optics.all_params(call, n)[i]),
{
}

/// Changing what a call says of one instance changes the parameters of no other.
pub proof fn law_instances_are_posed_apart<
    A: Fn([Scale; 3]) -> [Scale; 3],
    C: Fn(Scale) -> Scale,
>(optics: Optics<A, C>, call: Columns, other: Columns, n: nat, i: int)
    requires
        0 <= i < n,
        forall|k: int|
            16 * i <= k < 16 * i + 16 ==> #[trigger] call.view_to_objects[k]
                == other.view_to_objects[k],
        call.lod_scales[i] == other.lod_scales[i],
        call.behind_foveates[i] == other.behind_foveates[i],
        call.cone_foveates[i] == other.cone_foveates[i],
        call.cone_fov0s[i] == other.cone_fov0s[i],
        call.cone_fovs[i] == other.cone_fovs[i],
    ensures
        optics.all_params(call, n)[i] == optics.all_params(other, n)[i],
{
    assert(optics.params(call, i) == optics.params(other, i));
}

/// The columns of a call have the lengths that `n` instances need.
pub open spec fn complete(call: Columns, n: int) -> bool {
    &&& call.view_to_objects.len() == 16 * n
    &&& call.lod_scales.len() == n
    &&& call.behind_foveates.len() == n
    &&& call.cone_foveates.len() == n
    &&& call.cone_fov0s.len() == n
    &&& call.cone_fovs.len() == n
}

/// A call is accepted exactly if its columns are complete, it has at most 128 instances, and no
/// tree of it has more than 2^25 slots.
pub proof fn law_calls_are_accepted_exactly(h: Holdings, lod_ids: Seq<u32>, call: Columns)
    ensures
        refusal(h, lod_ids, call) is None <==> {
            &&& complete(call, lod_ids.len() as int)
            &&& lod_ids.len() <= 128
            &&& forall|i: int|
                0 <= i < lod_ids.len() && h.trees.contains_key(#[trigger] lod_ids[i])
                    ==> h.stores[h.trees[lod_ids[i]].store].len() <= 0x200_0000
        },
{
    lemma_oversized(h, lod_ids, 0);
}

/// The error names a column whose length is wrong, or how many instances or slots there are.
pub proof fn law_errors_say_what_is_wrong(h: Holdings, lod_ids: Seq<u32>, call: Columns)
    ensures
        refusal(h, lod_ids, call) matches Some(e) ==> {
            let n = lod_ids.len() as int;
            match e {
                TraverseError::ViewToObjectsLength => call.view_to_objects.len() != 16 * n,
                TraverseError::LodScalesLength => call.lod_scales.len() != n,
                TraverseError::BehindFoveatesLength => call.behind_foveates.len() != n,
                TraverseError::ConeFoveatesLength => call.cone_foveates.len() != n,
                TraverseError::ConeFov0sLength => call.cone_fov0s.len() != n,
                TraverseError::ConeFovsLength => call.cone_fovs.len() != n,
                TraverseError::TooManyInstances(m) => n > 128 && m == n as usize,
                TraverseError::TooManySlots(id, m) => exists|i: int|
                    {
                        &&& 0 <= i < n
                        &&& (#[trigger] lod_ids[i]) == id
                        &&& h.trees.contains_key(id)
                        &&& h.stores[h.trees[id].store].len() > 0x200_0000
                        &&& m == h.stores[h.trees[id].store].len() as usize
                        &&& forall|j: int|
                            0 <= j < i && h.trees.contains_key(#[trigger] lod_ids[j])
                                ==> h.stores[h.trees[lod_ids[j]].store].len() <= 0x200_0000
                    },
            }
        },
        // Of several errors that of the first column is told, in the order of the columns; then
        // that of too many instances; and then that of the first tree with too many slots.
        refusal(h, lod_ids, call) matches Some(e) ==> {
            let n = lod_ids.len() as int;
            let first = call.view_to_objects.len() == 16 * n;
            let second = first && call.lod_scales.len() == n;
            let third = second && call.behind_foveates.len() == n;
            let fourth = third && call.cone_foveates.len() == n;
            let fifth = fourth && call.cone_fov0s.len() == n;
            match e {
                TraverseError::ViewToObjectsLength => true,
                TraverseError::LodScalesLength => first,
                TraverseError::BehindFoveatesLength => second,
                TraverseError::ConeFoveatesLength => third,
                TraverseError::ConeFov0sLength => fourth,
                TraverseError::ConeFovsLength => fifth,
                TraverseError::TooManyInstances(_) => complete(call, n),
                TraverseError::TooManySlots(_, _) => complete(call, n) && n <= 128,
            }
        },
{
    lemma_oversized(h, lod_ids, 0);
}

proof fn lemma_oversized(h: Holdings, lod_ids: Seq<u32>, from: int)
    requires
        0 <= from,
    ensures
        oversized(h, lod_ids, from) is None <==> forall|i: int|
            from <= i < lod_ids.len() && h.trees.contains_key(#[trigger] lod_ids[i])
                ==> h.stores[h.trees[lod_ids[i]].store].len() <= 0x200_0000,
        oversized(h, lod_ids, from) matches Some(e) ==> e is TooManySlots && exists|i: int|
            {
                &&& from <= i < lod_ids.len()
                &&& (#[trigger] lod_ids[i]) == e->TooManySlots_0
                &&& h.trees.contains_key(lod_ids[i])
                &&& h.stores[h.trees[lod_ids[i]].store].len() > 0x200_0000
                &&& e->TooManySlots_1 == h.stores[h.trees[lod_ids[i]].store].len() as usize
                &&& forall|j: int|
                    from <= j < i && h.trees.contains_key(#[trigger] lod_ids[j])
                        ==> h.stores[h.trees[lod_ids[j]].store].len() <= 0x200_0000
            },
    decreases lod_ids.len() - from,
{
    if from < lod_ids.len() {
        let id = lod_ids[from];
        lemma_oversized(h, lod_ids, from + 1);
        if !(h.trees.contains_key(id) && h.stores[h.trees[id].store].len() > 0x200_0000) {
            if oversized(h, lod_ids, from + 1) is Some {
                let e = oversized(h, lod_ids, from + 1)->0;
                let i = choose|i: int|
                    {
                        &&& from + 1 <= i < lod_ids.len()
                        &&& (#[trigger] lod_ids[i]) == e->TooManySlots_0
                        &&& h.trees.contains_key(lod_ids[i])
                        &&& h.stores[h.trees[lod_ids[i]].store].len() > 0x200_0000
                        &&& e->TooManySlots_1 == h.stores[h.trees[lod_ids[i]].store].len() as usize
                        &&& forall|j: int|
                            from + 1 <= j < i && h.trees.contains_key(#[trigger] lod_ids[j])
                                ==> h.stores[h.trees[lod_ids[j]].store].len() <= 0x200_0000
                    };
                assert(lod_ids[i] == e->TooManySlots_0);
            }
        } else {
            assert(lod_ids[from] == id);
        }
    }
}

/// Packed indices begin with what is packed and go on with zeros, to the next full row of 16384.
pub proof fn law_rows_are_filled_up(p: PackedInstance, lod_id: u32, out: Seq<u32>)
    requires
        p.packs(lod_id, out),
    ensures
        p.lod_id == lod_id,
        p.num_splats == out.len(),
        p.indices@.len() % 16384 == 0,
        out.len() <= p.indices@.len() < out.len() + 16384,
        forall|k: int| 0 <= k < out.len() ==> #[trigger] p.indices@[k] == out[k],
        forall|k: int| out.len() <= k < p.indices@.len() ==> #[trigger] p.indices@[k] == 0,
{
}

/// The indices of an instance are those of its own nodes, in the order of the list.
pub proof fn law_instances_are_told_apart(nodes: Seq<CutNode>, n: CutNode, inst: int)
    ensures
        of_instance(Seq::empty(), inst).len() == 0,
        of_instance(nodes.push(n), inst) == (if n.0 == inst {
            of_instance(nodes, inst).push(n.1)
        } else {
            of_instance(nodes, inst)
        }),
{
    reveal(Seq::filter);
    crate::lod_query::lemma_of_instance_push(nodes, n, inst);
}

/// The views of a call show, for each instance, the tree that its id names: with that id, the
/// nodes and the page table that are held for it, and the instance's own parameters.
pub proof fn law_views_show_what_is_held(
    h: Holdings,
    lod_ids: Seq<u32>,
    params: Seq<InstanceParams>,
    trees: Seq<TreeView>,
    i: int,
)
    requires
        shows(h, lod_ids, params, trees),
        0 <= i < lod_ids.len(),
    ensures
        trees.len() == lod_ids.len(),
        trees[i].lod_id == lod_ids[i],
        trees[i].splats@ == h.stores[h.trees[lod_ids[i]].store],
        trees[i].chunk_to_page@ == h.trees[lod_ids[i]].chunk_to_page,
        trees[i].params == params[i],
{
    assert(trees[i].lod_id == lod_ids[i]);
}

/// A result lists for each instance, under its own id, the nodes of the output and then those of
/// the frontier, as many as there are, and filled up; with all chunks that were noted, in their
/// order, and the smallest scale.
pub proof fn law_result_tells_what_was_found(
    r: Traversal,
    lod_ids: Seq<u32>,
    d: Progress,
    laid: Seq<Entry>,
    i: int,
    k: int,
)
    requires
        reports(r, lod_ids, d, laid),
        0 <= i < lod_ids.len(),
        0 <= k < laid.len(),
    ensures
        r.instances@.len() == lod_ids.len(),
        r.instances@[i].lod_id == lod_ids[i],
        nodes_in(laid).len() == laid.len(),
        nodes_in(laid)[k] == (laid[k].instance(), laid[k].slot()),
        r.instances@[i].num_splats == of_instance(d.output + nodes_in(laid), i).len(),
        r.instances@[i].indices@.take(r.instances@[i].num_splats as int) == of_instance(
            d.output + nodes_in(laid),
            i,
        ),
        r.instances@[i].indices@.len() % 16384 == 0,
        r.chunks@ == d.touched,
        r.needed_chunks == d.touched.len(),
        r.pixel_limit == d.min_pixel_scale,
        r.done,
{
    let out = of_instance(d.output + nodes_in(laid), i);
    let p = r.instances@[i];
    assert(p.packs(lod_ids[i], out));
    law_rows_are_filled_up(p, lod_ids[i], out);
    assert(p.indices@.take(p.num_splats as int) =~= out);
}

/// Where a traversal of a worker's trees ends: under the pose of each instance and on the nodes
/// and tables that the worker holds, every frontier entry is measured right, and every node of
/// the output is there for a reason; and it ends with nothing left, or with the largest node small
/// enough, or with one whose children do not fit the budget.
pub proof fn law_traversal_ends_in_order<F: Fn(&LodSplat, &InstanceParams) -> Scale>(
    h: Holdings,
    lod_ids: Seq<u32>,
    params: Seq<InstanceParams>,
    root_pages: Seq<u32>,
    scale: F,
    max_splats: usize,
    limit: Scale,
    d: Progress,
    laid: Seq<Entry>,
)
    requires
        traversable(h, lod_ids, params, root_pages, scale, max_splats, limit),
        ends_in(h, lod_ids, params, root_pages, scale, max_splats, limit, d, laid),
        lod_ids.len() <= 128,
        forall|i: int|
            0 <= i < lod_ids.len() ==> h.stores[h.trees[#[trigger] lod_ids[i]].store].len()
                <= 0x200_0000,
    ensures
        exists|trees: Seq<TreeView>|
            {
                &&& #[trigger] shows(h, lod_ids, params, trees)
                &&& in_order(trees, measured(scale), limit, d)
                &&& forall|top: Entry| #[trigger]
                    is_top(d.frontier, top) ==> {
                        let splat = trees[top.instance() as int].splats@[top.slot() as int];
                        ||| scale_le(top.scale(), limit)
                        ||| splat.child_count > 0 && d.num_splats - 1 + splat.child_count
                            > max_splats
                    }
                &&& d.num_splats <= max_splats || d.num_splats == lod_ids.len()
            },
{
    let trees = choose|trees: Seq<TreeView>|
        {
            &&& #[trigger] shows(h, lod_ids, params, trees)
            &&& job(trees, scale, max_splats, limit).finishes_laid(
                seeded(trees, root_pages, measured(scale), unseeded(), trees.len()),
                seeded_list(trees, root_pages, measured(scale), Seq::empty(), trees.len()),
                d,
                laid,
            )
        };
    let j = job(trees, scale, max_splats, limit);
    let start = seeded(trees, root_pages, measured(scale), unseeded(), trees.len());
    assert(fits(trees)) by {
        assert forall|i: int| 0 <= i < trees.len() implies (#[trigger] trees[i]).splats@.len()
            <= 0x200_0000 by {
            assert(h.stores[h.trees[lod_ids[i]].store].len() <= 0x200_0000);
        }
    }
    let k = choose|k: nat| #[trigger] j.comes_back_after(start, k, LoopExit::Done, d);
    let m = j.after(start, k)->0;
    assert(j.after(start, k) matches Some(m) && j.step(m) == Step::Done(d));
    assert(j.finishes(start, d));
    law_seeds_are_in_order(trees, root_pages, measured(scale), limit);
    j.law_run_stays_in_order(start, d);
    crate::screen_laws::law_every_tree_is_seeded(
        trees,
        root_pages,
        measured(scale),
        trees.len(),
    );
    j.law_run_only_adds(start, d);
    assert forall|top: Entry| #[trigger] is_top(d.frontier, top) implies {
        let splat = trees[top.instance() as int].splats@[top.slot() as int];
        ||| scale_le(top.scale(), limit)
        ||| splat.child_count > 0 && d.num_splats - 1 + splat.child_count > max_splats
    } by {
        assert(d.frontier == m.frontier && d.num_splats == m.num_splats);
        j.law_round_ends_the_traversal_exactly_there(m, top);
    }
}

} // verus!
