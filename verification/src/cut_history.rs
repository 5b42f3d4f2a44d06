//! What holds of an incremental cut over any series of calls.

use vstd::prelude::*;
use vstd::seq_lib::group_to_multiset_ensures;

use crate::cut::{refs_at, refs_match, runs, ExpandOutcome, IncrementalCut, ARENA_BUCKETS};
use crate::cut_laws::{
    cut_of_trees, index_roots, indexed, kids_by_index, law_collapse_leaves_a_cut_of_the_trees,
    law_expand_leaves_a_cut_of_the_trees, law_restart_makes_a_cut_of_the_trees,
};
use crate::cut_model::{in_chunk, lemma_opened, node_ok, run, Child, IndexNode, CUT_LEAF, NONE};
use crate::forest::{is_forest, is_path, reachable, weight};
use crate::geometry::Geometry;
use crate::hash::words;
use crate::scale::Scale;
use crate::traverse::rooted;
use crate::tree_view::TreeView;

verus! {

/// Two tables that count one cut are the same.
proof fn lemma_same_counts(a: IncrementalCut, b: IncrementalCut, inst: int)
    requires
        a.wf(),
        b.wf(),
        a.cut() == b.cut(),
        0 <= inst < a.lod_ids@.len(),
        inst < b.lod_ids@.len(),
    ensures
        words(a.chunk_refs@[inst]) == words(b.chunk_refs@[inst]),
{
    let m = words(a.chunk_refs@[inst]);
    let n = words(b.chunk_refs@[inst]);
    assert(refs_match(m, a.cut(), inst as u8));
    assert(refs_match(n, b.cut(), inst as u8));
    assert forall|c: u32| #[trigger] m.contains_key(c) == n.contains_key(c) && (m.contains_key(c)
        ==> m[c] == n[c]) by {
        assert(refs_at(m, c) == in_chunk(a.cut(), inst as u8, c as int));
        assert(refs_at(n, c) == in_chunk(b.cut(), inst as u8, c as int));
    }
    assert(m =~= n);
}

/// A node that was just expanded can be taken back, and then the cut, its size, the counts of
/// every chunk and the records of all other nodes are as they were, and the node is an unexpanded
/// child of its parent again. Its own record is dead, so that it cannot be taken back twice. The
/// generation has gone on by two.
pub proof fn law_collapse_undoes_expand<
    D: Fn([u16; 3], [u16; 3]) -> Scale,
    W: Fn(u16) -> Scale,
    B: Fn(Scale, Scale) -> (u16, u16),
>(
    trees: Seq<TreeView>,
    geometry: Geometry<D, W, B>,
    before: IncrementalCut,
    between: IncrementalCut,
    after: IncrementalCut,
    slot: u32,
    i: u16,
    ps: Scale,
    max_splats: usize,
    new: u32,
    taken_back: bool,
)
    requires
        before.wf(),
        between.wf(),
        after.wf(),
        before.can_expand(trees, slot, i, max_splats),
        before.expands_to(
            between,
            trees,
            geometry,
            slot,
            i,
            ps,
            max_splats,
            ExpandOutcome::Expanded(new),
        ),
        between.collapses_to(after, trees, new, taken_back),
    ensures
        taken_back,
        after.cut() == before.cut(),
        after.cut_size == before.cut_size,
        after.chunk_refs@.len() == before.chunk_refs@.len(),
        forall|k: int|
            0 <= k < before.chunk_refs@.len() ==> words(#[trigger] after.chunk_refs@[k]) == words(
                before.chunk_refs@[k],
            ),
        forall|t: int|
            0 <= t < before.nodes@.len() && t != new ==> #[trigger] after.nodes@[t]
                == before.nodes@[t],
        slot != new,
        after.arena@[before.nodes@[slot as int].children_base + i] == (Child {
            slot: CUT_LEAF,
            ..before.arena@[before.nodes@[slot as int].children_base + i]
        }),
        !after.nodes@[new as int].alive,
        !after.can_collapse(new),
        after.generation == before.generation + 2,
{
    let insts = before.lod_ids@.len() as int;
    let node = before.nodes@[slot as int];
    let made = between.nodes@[new as int];
    let x = (node.inst, (node.child_start + i) as u32);
    lemma_opened(
        before.nodes@,
        before.arena@,
        between.nodes@,
        between.arena@,
        insts,
        slot as int,
        i as int,
        new as int,
    );
    assert(node_ok(before.nodes@, before.arena@, insts, slot as int));
    assert(between.can_collapse(new));
    assert((made.inst, made.index) == x);
    let kids = run(made.inst, made.child_start, made.child_count as int).to_multiset();
    assert(after.cut() =~= before.cut()) by {
        assert(between.cut() == before.cut().remove(x).add(kids));
        assert(after.cut() == between.cut().sub(kids).insert(x));
    }
    assert forall|k: int| 0 <= k < before.chunk_refs@.len() implies words(
        #[trigger] after.chunk_refs@[k],
    ) == words(before.chunk_refs@[k]) by {
        lemma_same_counts(after, before, k);
    }
    assert forall|t: int| 0 <= t < before.nodes@.len() && t != new implies
        #[trigger] after.nodes@[t] == before.nodes@[t] by {
        if t == slot {
            assert(between.nodes@[t].expanded == before.nodes@[t].expanded + 1);
        } else {
            assert(between.nodes@[t] == before.nodes@[t]);
        }
    }
}

/// A node with few enough children that is expanded, taken back and expanded again gets the slot
/// and the cells that it had: the tables are as large as after the first time.
pub proof fn law_expanding_again_takes_no_more_room<
    D: Fn([u16; 3], [u16; 3]) -> Scale,
    W: Fn(u16) -> Scale,
    B: Fn(Scale, Scale) -> (u16, u16),
>(
    trees: Seq<TreeView>,
    geometry: Geometry<D, W, B>,
    before: IncrementalCut,
    between: IncrementalCut,
    after: IncrementalCut,
    again: IncrementalCut,
    slot: u32,
    i: u16,
    ps: Scale,
    ps_again: Scale,
    max_splats: usize,
    new: u32,
    taken_back: bool,
    r: ExpandOutcome,
)
    requires
        before.wf(),
        between.wf(),
        after.wf(),
        again.wf(),
        before.can_expand(trees, slot, i, max_splats),
        before.expands_to(
            between,
            trees,
            geometry,
            slot,
            i,
            ps,
            max_splats,
            ExpandOutcome::Expanded(new),
        ),
        between.nodes@[new as int].child_count < ARENA_BUCKETS,
        between.collapses_to(after, trees, new, taken_back),
        after.expands_to(again, trees, geometry, slot, i, ps_again, max_splats, r),
    ensures
        r == ExpandOutcome::Expanded(new),
        again.nodes@.len() == between.nodes@.len(),
        again.arena@.len() == between.arena@.len(),
        again.node_free@ == between.node_free@,
        runs(again.arena_free@) == runs(between.arena_free@),
        again.nodes@[new as int].children_base == between.nodes@[new as int].children_base,
        again.arena_leaked == before.arena_leaked,
        again.cut() == between.cut(),
{
    law_collapse_undoes_expand(
        trees,
        geometry,
        before,
        between,
        after,
        slot,
        i,
        ps,
        max_splats,
        new,
        taken_back,
    );
    let count = between.nodes@[new as int].child_count;
    let free = runs(between.arena_free@);
    assert(after.nodes@[slot as int] == before.nodes@[slot as int]);
    assert(after.node_free@.last() == new);
    assert(after.node_free@.drop_last() =~= between.node_free@);
    assert(free.len() == ARENA_BUCKETS);
    assert(runs(after.arena_free@)[count as int] == free[count as int].push(
        between.nodes@[new as int].children_base,
    ));
    assert(free[count as int].push(between.nodes@[new as int].children_base).drop_last()
        =~= free[count as int]);
    assert(runs(again.arena_free@) =~= free);
}

/// Something that happens to an incremental cut.
pub enum CutEvent {
    /// It is started over, with the roots in these pages and down to a limit.
    Restart(Seq<u32>, Scale),
    /// A child (of a slot, by number, at a scale, within a budget) is expanded or not.
    Expand(u32, u16, Scale, usize, ExpandOutcome),
    /// The node in a slot is taken back or not.
    Collapse(u32, bool),
    /// It is packed.
    Pack,
    /// It is told that a chunk of a tree has lost its page.
    Release(u32, u32),
}

/// The event, on trees as they stand then, turns `a` into `b`.
pub open spec fn happens<
    D: Fn([u16; 3], [u16; 3]) -> Scale,
    W: Fn(u16) -> Scale,
    B: Fn(Scale, Scale) -> (u16, u16),
>(
    e: CutEvent,
    a: IncrementalCut,
    b: IncrementalCut,
    trees: Seq<TreeView>,
    geometry: Geometry<D, W, B>,
) -> bool {
    match e {
        CutEvent::Restart(root_pages, limit) => rooted(trees, root_pages) && a.restarts_to(
            b,
            trees,
            root_pages,
            limit,
        ),
        CutEvent::Expand(slot, i, ps, max_splats, r) => a.can_expand(trees, slot, i, max_splats)
            && a.expands_to(b, trees, geometry, slot, i, ps, max_splats, r),
        CutEvent::Collapse(slot, r) => slot < a.nodes@.len() && a.collapses_to(b, trees, slot, r),
        CutEvent::Pack => a.packs_to(b, trees),
        CutEvent::Release(lod_id, chunk) => a.notes_release(b, lod_id, chunk),
    }
}

/// `states` are the states of a cut, one after the other, and `events` what happens between them,
/// each on trees as they stand then.
pub open spec fn is_history<
    D: Fn([u16; 3], [u16; 3]) -> Scale,
    W: Fn(u16) -> Scale,
    B: Fn(Scale, Scale) -> (u16, u16),
>(
    states: Seq<IncrementalCut>,
    events: Seq<CutEvent>,
    trees: Seq<Seq<TreeView>>,
    geometry: Geometry<D, W, B>,
) -> bool {
    &&& states.len() == events.len() + 1
    &&& trees.len() == events.len()
    &&& forall|k: int| 0 <= k < states.len() ==> (#[trigger] states[k]).wf()
    &&& forall|k: int|
        0 <= k < events.len() ==> happens(
            #[trigger] events[k],
            states[k],
            states[k + 1],
            trees[k],
            geometry,
        )
}

/// A cut of the trees holds no node twice.
proof fn lemma_cut_of_trees_has_no_duplicates(
    cut: IncrementalCut,
    trees: Seq<TreeView>,
    roots: Set<IndexNode>,
)
    requires
        cut_of_trees(cut, trees, roots),
    ensures
        cut.list().no_duplicates(),
{
    broadcast use group_to_multiset_ensures;

    let kids = indexed(trees);
    assert forall|x: IndexNode| #[trigger] cut.cut().contains(x) implies cut.cut().count(x)
        == 1 by {
        assert(cut.cut().count(x) > 0);
        assert(reachable(roots, kids, x));
        let path = choose|path: Seq<IndexNode>| #[trigger]
            is_path(roots, kids, path) && path.last() == x;
        assert(weight(cut.cut(), path) <= 1);
    }
    cut.list().lemma_multiset_has_no_duplicates_conv();
}

/// The trees show part of the whole: as many trees, and each node with the children that it has
/// there, or without any as long as they are not resident.
pub open spec fn part_of(trees: Seq<TreeView>, whole: Seq<TreeView>) -> bool {
    &&& trees.len() == whole.len()
    &&& forall|x: IndexNode|
        (#[trigger] kids_by_index(trees, x)).len() > 0 ==> kids_by_index(trees, x)
            == kids_by_index(whole, x)
}

/// An event leaves a cut of the whole.
proof fn lemma_event_leaves_a_cut<
    D: Fn([u16; 3], [u16; 3]) -> Scale,
    W: Fn(u16) -> Scale,
    B: Fn(Scale, Scale) -> (u16, u16),
>(
    e: CutEvent,
    a: IncrementalCut,
    b: IncrementalCut,
    trees: Seq<TreeView>,
    whole: Seq<TreeView>,
    geometry: Geometry<D, W, B>,
)
    requires
        whole.len() <= 256,
        is_forest(index_roots(whole.len() as int), indexed(whole)),
        part_of(trees, whole),
        a.wf(),
        b.wf(),
        happens(e, a, b, trees, geometry),
        e is Restart || cut_of_trees(a, whole, index_roots(whole.len() as int)),
    ensures
        cut_of_trees(b, whole, index_roots(whole.len() as int)),
{
    let roots = index_roots(whole.len() as int);
    match e {
        CutEvent::Restart(root_pages, limit) => {
            assert forall|s: int| 0 <= s < b.nodes@.len() implies (#[trigger] b.nodes@[s]).parent
                == NONE by {
                assert(b.roots@[s] == s);
            }
            law_restart_makes_a_cut_of_the_trees(whole, b);
        },
        CutEvent::Expand(slot, i, ps, max_splats, r) => {
            let node = a.nodes@[slot as int];
            assert(node_ok(a.nodes@, a.arena@, a.lod_ids@.len() as int, slot as int));
            if r is Expanded {
                let new = r->Expanded_0;
                let made = b.nodes@[new as int];
                let x = (node.inst, (node.child_start + i) as u32);
                assert(kids_by_index(trees, x) == run(
                    node.inst,
                    made.child_start,
                    made.child_count as int,
                ));
                law_expand_leaves_a_cut_of_the_trees(
                    whole,
                    roots,
                    a,
                    b,
                    slot as int,
                    i as int,
                    new as int,
                );
            } else {
                assert(b.nodes@ == a.nodes@);
                assert(b.cut() == a.cut());
            }
        },
        CutEvent::Collapse(slot, r) => {
            if r {
                assert(node_ok(a.nodes@, a.arena@, a.lod_ids@.len() as int, slot as int));
                law_collapse_leaves_a_cut_of_the_trees(whole, roots, a, b, slot as int);
            } else {
                assert(b.nodes@ == a.nodes@);
                assert(b.cut() == a.cut());
            }
        },
        CutEvent::Pack => {
            assert forall|s: int|
                0 <= s < b.nodes@.len() && (#[trigger] b.nodes@[s]).alive && b.nodes@[s].parent
                    != NONE implies {
                let x = (b.nodes@[s].inst, b.nodes@[s].index);
                &&& reachable(roots, indexed(whole), x)
                &&& kids_by_index(whole, x) == run(
                    x.0,
                    b.nodes@[s].child_start,
                    b.nodes@[s].child_count as int,
                )
            } by {
                assert(a.nodes@[s].alive);
            }
        },
        CutEvent::Release(lod_id, chunk) => {},
    }
}

/// Whatever is done with a cut, in whatever order, from when it is first started, while chunks of
/// the trees come and go: it stays a valid cut of the whole trees, holds no node twice, and its
/// counters count.
pub proof fn law_every_history_keeps_the_cut_valid<
    D: Fn([u16; 3], [u16; 3]) -> Scale,
    W: Fn(u16) -> Scale,
    B: Fn(Scale, Scale) -> (u16, u16),
>(
    states: Seq<IncrementalCut>,
    events: Seq<CutEvent>,
    trees: Seq<Seq<TreeView>>,
    whole: Seq<TreeView>,
    geometry: Geometry<D, W, B>,
    k: int,
)
    requires
        whole.len() <= 256,
        is_forest(index_roots(whole.len() as int), indexed(whole)),
        forall|j: int| 0 <= j < trees.len() ==> part_of(#[trigger] trees[j], whole),
        is_history(states, events, trees, geometry),
        events.len() > 0,
        events[0] is Restart,
        0 < k < states.len(),
    ensures
        cut_of_trees(states[k], whole, index_roots(whole.len() as int)),
        states[k].list().no_duplicates(),
        states[k].cut_size == states[k].cut().len(),
        forall|inst: int, chunk: u32|
            0 <= inst < states[k].lod_ids@.len() ==> #[trigger] refs_at(
                words(states[k].chunk_refs@[inst]),
                chunk,
            ) == in_chunk(states[k].cut(), inst as u8, chunk as int),
    decreases k,
{
    if k > 1 {
        law_every_history_keeps_the_cut_valid(states, events, trees, whole, geometry, k - 1);
    }
    let e = events[k - 1];
    assert(happens(e, states[k - 1], states[k - 1 + 1], trees[k - 1], geometry));
    assert(states[k].wf() && states[k - 1].wf());
    assert(part_of(trees[k - 1], whole));
    lemma_event_leaves_a_cut(e, states[k - 1], states[k], trees[k - 1], whole, geometry);
    lemma_cut_of_trees_has_no_duplicates(
        states[k],
        whole,
        index_roots(whole.len() as int),
    );
    assert forall|inst: int, chunk: u32|
        0 <= inst < states[k].lod_ids@.len() implies #[trigger] refs_at(
        words(states[k].chunk_refs@[inst]),
        chunk,
    ) == in_chunk(states[k].cut(), inst as u8, chunk as int) by {
        states[k].law_counters_count(inst, chunk);
    }
    vstd::seq_lib::to_multiset_len(states[k].list());
}

/// After `k` events the cut is due for packing: since it was last packed it was started over, a
/// node was expanded or taken back, or a chunk that it refers to was lost.
pub open spec fn due(states: Seq<IncrementalCut>, events: Seq<CutEvent>, k: int) -> bool
    decreases k,
{
    if k <= 0 {
        states[0].packed_generation != states[0].generation
    } else {
        match events[k - 1] {
            CutEvent::Restart(_, _) => true,
            CutEvent::Expand(_, _, _, _, r) => r is Expanded || due(states, events, k - 1),
            CutEvent::Collapse(_, r) => r || due(states, events, k - 1),
            CutEvent::Pack => false,
            CutEvent::Release(lod_id, chunk) => states[k - 1].refers_to(lod_id, chunk) || due(
                states,
                events,
                k - 1,
            ),
        }
    }
}

/// A cut has been packed in a generation that has been, or counts as never packed.
pub open spec fn packed_in_time(cut: IncrementalCut) -> bool {
    cut.packed_generation == u64::MAX || cut.packed_generation <= cut.generation
}

/// Whatever is done with a cut, in whatever order: it says that it needs packing exactly if it
/// has changed, or has lost a chunk that it refers to, since it was packed.
pub proof fn law_needs_pack_exactly_after_a_change<
    D: Fn([u16; 3], [u16; 3]) -> Scale,
    W: Fn(u16) -> Scale,
    B: Fn(Scale, Scale) -> (u16, u16),
>(
    states: Seq<IncrementalCut>,
    events: Seq<CutEvent>,
    trees: Seq<Seq<TreeView>>,
    geometry: Geometry<D, W, B>,
    k: int,
)
    requires
        is_history(states, events, trees, geometry),
        forall|j: int| 0 <= j < states.len() ==> (#[trigger] states[j]).generation < u64::MAX,
        packed_in_time(states[0]),
        0 <= k < states.len(),
    ensures
        packed_in_time(states[k]),
        states[k].packed_generation != states[k].generation <==> due(states, events, k),
    decreases k,
{
    if k > 0 {
        law_needs_pack_exactly_after_a_change(states, events, trees, geometry, k - 1);
        let e = events[k - 1];
        assert(happens(e, states[k - 1], states[k - 1 + 1], trees[k - 1], geometry));
        assert(states[k - 1].generation < u64::MAX && states[k].generation < u64::MAX);
    }
}

} // verus!
