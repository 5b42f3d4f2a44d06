//! What holds of every traversal of a worker's trees.

use vstd::prelude::*;

use crate::entry::Entry;
use crate::lod_query::{ends_in, reports, shows, traversable, Traversal};
use crate::lod_state::Holdings;
use crate::scale::Scale;
use crate::splat::LodSplat;
use crate::traverse::{job, seeded, seeded_list, unseeded, Progress};
use crate::traverse_runs::{alike, lemma_same_seeds};
use crate::tree_view::{measured, InstanceParams, TreeView};

verus! {

/// Two results are the same, down to the order of the indices.
pub open spec fn agree(r: Traversal, s: Traversal) -> bool {
    &&& r.chunks@ == s.chunks@
    &&& r.needed_chunks == s.needed_chunks
    &&& r.pixel_limit == s.pixel_limit
    &&& r.done == s.done
    &&& r.instances@.len() == s.instances@.len()
    &&& forall|i: int|
        0 <= i < r.instances@.len() ==> {
            &&& (#[trigger] r.instances@[i]).lod_id == s.instances@[i].lod_id
            &&& r.instances@[i].num_splats == s.instances@[i].num_splats
            &&& r.instances@[i].indices@ == s.instances@[i].indices@
        }
}

/// Where a traversal of a worker's trees ends, and in what order it leaves the frontier, is
/// determined by what the trees hold and by the arguments.
pub proof fn law_repeated_traversal_ends_alike<F: Fn(&LodSplat, &InstanceParams) -> Scale>(
    h: Holdings,
    lod_ids: Seq<u32>,
    params: Seq<InstanceParams>,
    root_pages: Seq<u32>,
    scale: F,
    max_splats: usize,
    limit: Scale,
    d: Progress,
    laid: Seq<Entry>,
    e: Progress,
    other_laid: Seq<Entry>,
)
    requires
        traversable(h, lod_ids, params, root_pages, scale, max_splats, limit),
        ends_in(h, lod_ids, params, root_pages, scale, max_splats, limit, d, laid),
        ends_in(h, lod_ids, params, root_pages, scale, max_splats, limit, e, other_laid),
    ensures
        d == e,
        laid == other_laid,
{
    let trees = choose|trees: Seq<TreeView>|
        {
            &&& #[trigger] shows(h, lod_ids, params, trees)
            &&& job(trees, scale, max_splats, limit).finishes_laid(
                seeded(trees, root_pages, measured(scale), unseeded(), trees.len()),
                seeded_list(trees, root_pages, measured(scale), Seq::empty(), trees.len()),
                d,
                laid,
            )
        };
    let others = choose|trees: Seq<TreeView>|
        {
            &&& #[trigger] shows(h, lod_ids, params, trees)
            &&& job(trees, scale, max_splats, limit).finishes_laid(
                seeded(trees, root_pages, measured(scale), unseeded(), trees.len()),
                seeded_list(trees, root_pages, measured(scale), Seq::empty(), trees.len()),
                e,
                other_laid,
            )
        };
    assert(alike(trees, others)) by {
        assert forall|i: int| 0 <= i < trees.len() implies {
            &&& (#[trigger] trees[i]).lod_id == others[i].lod_id
            &&& trees[i].splats@ == others[i].splats@
            &&& trees[i].chunk_to_page@ == others[i].chunk_to_page@
            &&& trees[i].params == others[i].params
        } by {
            assert(others[i].lod_id == lod_ids[i]);
        }
    }
    let list = Seq::<Entry>::empty();
    lemma_same_seeds(trees, others, root_pages, measured(scale), unseeded(), list, trees.len());
    job(trees, scale, max_splats, limit).law_same_job_ends_alike(
        job(others, scale, max_splats, limit),
        seeded(trees, root_pages, measured(scale), unseeded(), trees.len()),
        seeded_list(trees, root_pages, measured(scale), list, trees.len()),
        d,
        laid,
        e,
        other_laid,
    );
}

/// A traversal that is repeated, on trees that hold the same and with the same arguments, gives
/// the same result.
pub proof fn law_repeated_traversal_reports_the_same<
    F: Fn(&LodSplat, &InstanceParams) -> Scale,
>(
    h: Holdings,
    lod_ids: Seq<u32>,
    params: Seq<InstanceParams>,
    root_pages: Seq<u32>,
    scale: F,
    max_splats: usize,
    limit: Scale,
    r: Traversal,
    d: Progress,
    laid: Seq<Entry>,
    s: Traversal,
    e: Progress,
    other_laid: Seq<Entry>,
)
    requires
        traversable(h, lod_ids, params, root_pages, scale, max_splats, limit),
        ends_in(h, lod_ids, params, root_pages, scale, max_splats, limit, d, laid),
        ends_in(h, lod_ids, params, root_pages, scale, max_splats, limit, e, other_laid),
        reports(r, lod_ids, d, laid),
        reports(s, lod_ids, e, other_laid),
    ensures
        agree(r, s),
{
    law_repeated_traversal_ends_alike(
        h,
        lod_ids,
        params,
        root_pages,
        scale,
        max_splats,
        limit,
        d,
        laid,
        e,
        other_laid,
    );
    assert forall|i: int| 0 <= i < r.instances@.len() implies {
        &&& (#[trigger] r.instances@[i]).lod_id == s.instances@[i].lod_id
        &&& r.instances@[i].num_splats == s.instances@[i].num_splats
        &&& r.instances@[i].indices@ == s.instances@[i].indices@
    } by {
        assert(s.instances@[i].lod_id == lod_ids[i]);
    }
}

} // verus!
