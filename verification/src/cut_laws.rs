//! What holds of every incremental cut.

use vstd::multiset::Multiset;
use vstd::prelude::*;
use vstd::seq_lib::group_to_multiset_ensures;

use crate::cut::{
    first_kid_chunk, last_kid_chunk, refs_at, refs_match, root_list, splat_of, IncrementalCut,
};
use crate::cut_chunks::{is_needed, needed_by, needed_of, with_wanted, Want};
use crate::cut_model::{
    closed_up, cut_list, group, in_chunk, lemma_in_chunk_insert, links_ok, node_ok, opened, run,
    share, Child, IndexNode, Node, NONE,
};
use crate::cut_pack::{missing, placed, present};
use crate::forest::{
    coarsened, is_forest, law_coarsening_keeps_cut_valid, law_refining_keeps_cut_valid,
    law_roots_are_a_valid_cut, reachable, refined, valid_cut,
};
use crate::hash::words;
use crate::tree_view::{chunk_of, TreeView};

verus! {

/// The children of a node, numbered by chunk: none if it is a leaf, or as long as it or a chunk
/// of its children is not resident.
pub open spec fn kids_by_index(trees: Seq<TreeView>, x: IndexNode) -> Seq<IndexNode> {
    let tree = trees[x.0 as int];
    let index = x.1 as int;
    if x.0 < trees.len() && tree.has_chunk(chunk_of(index)) && splat_of(tree, index).child_count > 0
        && tree.has_chunk(first_kid_chunk(tree, index)) && tree.has_chunk(
        last_kid_chunk(tree, index),
    ) {
        run(x.0, splat_of(tree, index).child_start, splat_of(tree, index).child_count as int)
    } else {
        Seq::empty()
    }
}

/// The children of each node, as the description of a forest.
pub open spec fn indexed(trees: Seq<TreeView>) -> spec_fn(IndexNode) -> Seq<IndexNode> {
    |x: IndexNode| kids_by_index(trees, x)
}

/// The root of each of the first `n` instances.
pub open spec fn index_roots(n: int) -> Set<IndexNode> {
    Set::new(|x: IndexNode| x.0 < n && x.1 == 0)
}

/// A cut is valid after one of its nodes was replaced by its children, if it was valid before.
pub proof fn law_expanding_keeps_cut_valid(
    trees: Seq<TreeView>,
    roots: Set<IndexNode>,
    before: Multiset<IndexNode>,
    after: Multiset<IndexNode>,
    x: IndexNode,
)
    requires
        is_forest(roots, indexed(trees)),
        valid_cut(roots, indexed(trees), before),
        before.count(x) > 0,
        kids_by_index(trees, x).len() > 0,
        after == before.remove(x).add(kids_by_index(trees, x).to_multiset()),
    ensures
        valid_cut(roots, indexed(trees), after),
{
    law_refining_keeps_cut_valid(roots, indexed(trees), before, x);
    assert(after == refined(indexed(trees), before, x));
}

/// A cut is valid after the children of a node, all of them in the cut, were replaced by the
/// node, if it was valid before.
pub proof fn law_collapsing_keeps_cut_valid(
    trees: Seq<TreeView>,
    roots: Set<IndexNode>,
    before: Multiset<IndexNode>,
    after: Multiset<IndexNode>,
    x: IndexNode,
)
    requires
        is_forest(roots, indexed(trees)),
        valid_cut(roots, indexed(trees), before),
        reachable(roots, indexed(trees), x),
        kids_by_index(trees, x).len() > 0,
        kids_by_index(trees, x).to_multiset().subset_of(before),
        after == before.sub(kids_by_index(trees, x).to_multiset()).insert(x),
    ensures
        valid_cut(roots, indexed(trees), after),
{
    broadcast use group_to_multiset_ensures;

    let kids = kids_by_index(trees, x);
    assert forall|y: IndexNode| #[trigger] indexed(trees)(x).contains(y) implies before.count(y)
        > 0 by {
        assert(kids.to_multiset().count(y) > 0);
        assert(kids.to_multiset().count(y) <= before.count(y));
    }
    law_coarsening_keeps_cut_valid(roots, indexed(trees), before, x);
    assert(after == coarsened(indexed(trees), before, x));
}

/// A cut that was just restarted is valid: it is the roots.
pub proof fn law_restarted_cut_is_valid(trees: Seq<TreeView>, cut: IncrementalCut)
    requires
        trees.len() <= 256,
        cut.list() == root_list(trees.len() as int),
        is_forest(index_roots(trees.len() as int), indexed(trees)),
    ensures
        valid_cut(index_roots(trees.len() as int), indexed(trees), cut.cut()),
{
    broadcast use group_to_multiset_ensures;

    let n = trees.len() as int;
    let list = root_list(n);
    assert(list.no_duplicates());
    list.lemma_multiset_has_no_duplicates();
    assert forall|x: IndexNode| #[trigger]
        cut.cut().count(x) == (if index_roots(n).contains(x) {
            1nat
        } else {
            0nat
        }) by {
        if index_roots(n).contains(x) {
            assert(list[x.0 as int] == x);
            assert(list.contains(x));
            assert(list.to_multiset().contains(x));
        } else {
            if list.contains(x) {
                let i = choose|i: int| 0 <= i < list.len() && list[i] == x;
                assert(index_roots(n).contains(x));
            }
        }
    }
    law_roots_are_a_valid_cut(index_roots(n), indexed(trees), cut.cut());
}

/// The table agrees with the trees: every expanded node can be reached, and its recorded children
/// are those of the tree.
pub open spec fn faithful(nodes: Seq<Node>, trees: Seq<TreeView>, roots: Set<IndexNode>) -> bool {
    forall|s: int|
        0 <= s < nodes.len() && (#[trigger] nodes[s]).alive && nodes[s].parent != NONE ==> {
            let x = (nodes[s].inst, nodes[s].index);
            &&& reachable(roots, indexed(trees), x)
            &&& kids_by_index(trees, x) == run(
                x.0,
                nodes[s].child_start,
                nodes[s].child_count as int,
            )
        }
}

/// The cut is a valid one of the trees, and the table behind it agrees with them.
pub open spec fn cut_of_trees(
    cut: IncrementalCut,
    trees: Seq<TreeView>,
    roots: Set<IndexNode>,
) -> bool {
    &&& valid_cut(roots, indexed(trees), cut.cut())
    &&& faithful(cut.nodes@, trees, roots)
}

/// A restarted cut is a cut of the trees.
pub proof fn law_restart_makes_a_cut_of_the_trees(trees: Seq<TreeView>, cut: IncrementalCut)
    requires
        trees.len() <= 256,
        cut.list() == root_list(trees.len() as int),
        is_forest(index_roots(trees.len() as int), indexed(trees)),
        forall|s: int| 0 <= s < cut.nodes@.len() ==> (#[trigger] cut.nodes@[s]).parent == NONE,
    ensures
        cut_of_trees(cut, trees, index_roots(trees.len() as int)),
{
    law_restarted_cut_is_valid(trees, cut);
}

/// Expanding a node leaves a cut of the trees.
pub proof fn law_expand_leaves_a_cut_of_the_trees(
    trees: Seq<TreeView>,
    roots: Set<IndexNode>,
    before: IncrementalCut,
    after: IncrementalCut,
    slot: int,
    i: int,
    new: int,
)
    requires
        is_forest(roots, indexed(trees)),
        cut_of_trees(before, trees, roots),
        opened(before.nodes@, before.arena@, after.nodes@, after.arena@, slot, i, new),
        ({
            let node = before.nodes@[slot];
            let made = after.nodes@[new];
            let x = (node.inst, (node.child_start + i) as u32);
            &&& node.child_start + i <= u32::MAX
            &&& before.cut().count(x) > 0
            &&& kids_by_index(trees, x) == run(
                node.inst,
                made.child_start,
                made.child_count as int,
            )
            &&& after.cut() == before.cut().remove(x).add(
                run(node.inst, made.child_start, made.child_count as int).to_multiset(),
            )
        }),
    ensures
        cut_of_trees(after, trees, roots),
{
    let node = before.nodes@[slot];
    let x = (node.inst, (node.child_start + i) as u32);
    law_expanding_keeps_cut_valid(trees, roots, before.cut(), after.cut(), x);
    assert forall|s: int|
        0 <= s < after.nodes@.len() && (#[trigger] after.nodes@[s]).alive && after.nodes@[s].parent
            != NONE implies reachable(
        roots,
        indexed(trees),
        (after.nodes@[s].inst, after.nodes@[s].index),
    ) && kids_by_index(trees, (after.nodes@[s].inst, after.nodes@[s].index)) == run(
        after.nodes@[s].inst,
        after.nodes@[s].child_start,
        after.nodes@[s].child_count as int,
    ) by {
        if s == new {
            assert(before.cut().count(x) > 0);
        } else {
            assert(before.nodes@[s].alive);
        }
    }
}

/// Taking a node back leaves a cut of the trees.
pub proof fn law_collapse_leaves_a_cut_of_the_trees(
    trees: Seq<TreeView>,
    roots: Set<IndexNode>,
    before: IncrementalCut,
    after: IncrementalCut,
    slot: int,
)
    requires
        is_forest(roots, indexed(trees)),
        cut_of_trees(before, trees, roots),
        closed_up(before.nodes@, before.arena@, after.nodes@, after.arena@, slot),
        before.nodes@[slot].child_count > 0,
        ({
            let node = before.nodes@[slot];
            let kids = run(node.inst, node.child_start, node.child_count as int);
            &&& kids.to_multiset().subset_of(before.cut())
            &&& after.cut() == before.cut().sub(kids.to_multiset()).insert((node.inst, node.index))
        }),
    ensures
        cut_of_trees(after, trees, roots),
{
    let node = before.nodes@[slot];
    law_collapsing_keeps_cut_valid(
        trees,
        roots,
        before.cut(),
        after.cut(),
        (node.inst, node.index),
    );
    assert forall|s: int|
        0 <= s < after.nodes@.len() && (#[trigger] after.nodes@[s]).alive && after.nodes@[s].parent
            != NONE implies reachable(
        roots,
        indexed(trees),
        (after.nodes@[s].inst, after.nodes@[s].index),
    ) && kids_by_index(trees, (after.nodes@[s].inst, after.nodes@[s].index)) == run(
        after.nodes@[s].inst,
        after.nodes@[s].child_start,
        after.nodes@[s].child_count as int,
    ) by {
        assert(before.nodes@[s].alive || s == node.parent);
        if s == node.parent {
            assert(after.nodes@[s].alive == before.nodes@[s].alive);
        }
    }
}

impl IncrementalCut {
    /// The counters are right: the size is the number of nodes in the cut, and the count of a
    /// chunk is the number of nodes of the cut that lie in it.
    pub proof fn law_counters_count(&self, inst: int, chunk: u32)
        requires
            self.wf(),
            0 <= inst < self.lod_ids@.len(),
        ensures
            self.cut_size == self.cut().len(),
            refs_at(words(self.chunk_refs@[inst]), chunk) == in_chunk(
                self.cut(),
                inst as u8,
                chunk as int,
            ),
            words(self.chunk_refs@[inst]).contains_key(chunk) <==> in_chunk(
                self.cut(),
                inst as u8,
                chunk as int,
            ) > 0,
    {
        vstd::seq_lib::to_multiset_len(self.list());
        assert(refs_match(words(self.chunk_refs@[inst]), self.cut(), inst as u8));
        assert(refs_at(words(self.chunk_refs@[inst]), chunk) == in_chunk(
            self.cut(),
            inst as u8,
            chunk as int,
        ));
    }

    /// Every chunk that a node of the cut lies in is asked for.
    pub proof fn law_chunks_of_the_cut_are_listed(
        &self,
        list: Seq<(u32, u32)>,
        ws: Seq<Want>,
        x: IndexNode,
    )
        requires
            self.wf(),
            x.0 < self.lod_ids@.len(),
            self.cut().count(x) > 0,
            forall|i: int|
                0 <= i < self.lod_ids@.len() ==> is_needed(
                    needed_of(words(#[trigger] self.chunk_refs@[i])),
                    words(self.chunk_refs@[i]),
                ),
            list == with_wanted(
                self.root_chunks() + self.needed_chunks(),
                self.lod_ids@,
                ws,
                ws.len() as int,
            ),
        ensures
            list.contains((self.lod_ids@[x.0 as int], chunk_of(x.1 as int) as u32)),
    {
        let c = chunk_of(x.1 as int) as u32;
        let inst = x.0 as int;
        let key = (self.lod_ids@[inst], c);
        let first = self.root_chunks() + self.needed_chunks();
        lemma_in_chunk_insert(self.cut().remove(x), x, x.0, c as int);
        assert(self.cut().remove(x).insert(x) =~= self.cut());
        self.law_counters_count(inst, c);
        assert(first.contains(key)) by {
            if c == 0 {
                assert(self.root_chunks()[inst] == key);
                assert(first[inst] == key);
            } else {
                let m = words(self.chunk_refs@[inst]);
                assert(refs_match(m, self.cut(), x.0));
                assert(needed_of(m).contains(c));
                let k = choose|k: int| 0 <= k < needed_of(m).len() && needed_of(m)[k] == c;
                self.lemma_needed_is_listed(self.lod_ids@.len() as int, inst, k);
                let l = choose|l: int|
                    0 <= l < self.needed_chunks().len() && self.needed_chunks()[l] == key;
                assert(first[self.root_chunks().len() + l] == key);
            }
        }
        lemma_with_wanted_keeps(first, self.lod_ids@, ws, ws.len() as int, key);
    }

    proof fn lemma_needed_is_listed(&self, n: int, inst: int, k: int)
        requires
            0 <= inst < n <= self.lod_ids@.len(),
            0 <= k < needed_of(words(self.chunk_refs@[inst])).len(),
        ensures
            needed_by(self.lod_ids@, self.chunk_refs@, n).contains(
                (self.lod_ids@[inst], needed_of(words(self.chunk_refs@[inst]))[k]),
            ),
        decreases n,
    {
        let key = (self.lod_ids@[inst], needed_of(words(self.chunk_refs@[inst]))[k]);
        let less = needed_by(self.lod_ids@, self.chunk_refs@, n - 1);
        let all = needed_by(self.lod_ids@, self.chunk_refs@, n);
        if inst < n - 1 {
            self.lemma_needed_is_listed(n - 1, inst, k);
            let l = choose|l: int| 0 <= l < less.len() && less[l] == key;
            assert(all[l] == key);
        } else {
            assert(all[less.len() + k] == key);
        }
    }
}

proof fn lemma_with_wanted_keeps(
    list: Seq<(u32, u32)>,
    lod_ids: Seq<u32>,
    ws: Seq<Want>,
    n: int,
    key: (u32, u32),
)
    requires
        list.contains(key),
    ensures
        with_wanted(list, lod_ids, ws, n).contains(key),
    decreases n,
{
    if n > 0 {
        lemma_with_wanted_keeps(list, lod_ids, ws, n - 1, key);
        let before = with_wanted(list, lod_ids, ws, n - 1);
        let i = choose|i: int| 0 <= i < before.len() && before[i] == key;
        let more = (lod_ids[ws[n - 1].0.0 as int], ws[n - 1].0.1);
        assert(before.push(more)[i] == key);
    }
}

/// How many paged indices the first `n` instances got.
pub open spec fn placed_total(trees: Seq<TreeView>, list: Seq<IndexNode>, n: int) -> nat
    decreases n,
{
    if n <= 0 {
        0
    } else {
        placed_total(trees, list, n - 1) + placed(trees, n - 1, list).len()
    }
}

proof fn lemma_placed_total_push(
    trees: Seq<TreeView>,
    list: Seq<IndexNode>,
    x: IndexNode,
    n: int,
)
    requires
        0 <= n,
    ensures
        placed_total(trees, list.push(x), n) == placed_total(trees, list, n) + (if x.0 < n
            && trees[x.0 as int].has_chunk(chunk_of(x.1 as int)) {
            1nat
        } else {
            0nat
        }),
    decreases n,
{
    if n > 0 {
        lemma_placed_total_push(trees, list, x, n - 1);
        reveal(Seq::filter);
        assert(list.push(x).drop_last() =~= list);
    }
}

impl IncrementalCut {
    /// Packing loses nothing: every node of the cut gets a paged index or is counted as evicted.
    pub proof fn law_packed_and_evicted_make_the_cut(&self, trees: Seq<TreeView>)
        requires
            self.wf(),
            self.lod_ids@.len() <= trees.len(),
        ensures
            placed_total(trees, self.list(), trees.len() as int) + self.list().filter(
                missing(trees),
            ).len() == self.cut_size,
    {
        lemma_instances_of_list(
            self.nodes@,
            self.arena@,
            self.lod_ids@.len() as int,
            self.nodes@.len() as int,
        );
        lemma_placed_or_missing(trees, self.list());
    }
}

/// Every node of the cut is one of a known instance.
proof fn lemma_instances_of_list(nodes: Seq<Node>, arena: Seq<Child>, insts: int, n: int)
    requires
        links_ok(nodes, arena, insts),
        0 <= n <= nodes.len(),
    ensures
        forall|i: int|
            0 <= i < cut_list(nodes, arena, n).len() ==> (#[trigger] cut_list(nodes, arena, n)[i]).0
                < insts,
    decreases n,
{
    if n > 0 {
        lemma_instances_of_list(nodes, arena, insts, n - 1);
        let less = cut_list(nodes, arena, n - 1);
        let node = nodes[n - 1];
        if node.alive {
            assert(node_ok(nodes, arena, insts, n - 1));
            lemma_instance_of_group(node, arena, node.child_count as int);
        }
        assert forall|i: int| 0 <= i < cut_list(nodes, arena, n).len() implies (
        #[trigger] cut_list(nodes, arena, n)[i]).0 < insts by {
            if i < less.len() {
                assert(cut_list(nodes, arena, n)[i] == less[i]);
            } else {
                assert(cut_list(nodes, arena, n)[i] == share(node, arena)[i - less.len()]);
            }
        }
    }
}

proof fn lemma_instance_of_group(node: Node, arena: Seq<Child>, k: int)
    ensures
        forall|i: int|
            0 <= i < group(node, arena, k).len() ==> (#[trigger] group(node, arena, k)[i]).0
                == node.inst,
    decreases k,
{
    if k > 0 {
        lemma_instance_of_group(node, arena, k - 1);
        let less = group(node, arena, k - 1);
        assert forall|i: int| 0 <= i < group(node, arena, k).len() implies (#[trigger] group(
            node,
            arena,
            k,
        )[i]).0 == node.inst by {
            if i < less.len() {
                assert(less[i].0 == node.inst);
            }
        }
    }
}

proof fn lemma_placed_or_missing(trees: Seq<TreeView>, list: Seq<IndexNode>)
    requires
        forall|i: int| 0 <= i < list.len() ==> (#[trigger] list[i]).0 < trees.len(),
    ensures
        placed_total(trees, list, trees.len() as int) + list.filter(missing(trees)).len()
            == list.len(),
    decreases list.len(),
{
    reveal(Seq::filter);
    if list.len() == 0 {
        lemma_placed_total_of_nothing(trees, list, trees.len() as int);
    } else {
        let rest = list.drop_last();
        let x = list.last();
        assert(list[list.len() - 1] == x);
        assert forall|i: int| 0 <= i < rest.len() implies (#[trigger] rest[i]).0 < trees.len() by {
            assert(rest[i] == list[i]);
        }
        lemma_placed_or_missing(trees, rest);
        assert(rest.push(x) =~= list);
        lemma_placed_total_push(trees, rest, x, trees.len() as int);
    }
}

proof fn lemma_placed_total_of_nothing(trees: Seq<TreeView>, list: Seq<IndexNode>, n: int)
    requires
        list.len() == 0,
    ensures
        placed_total(trees, list, n) == 0,
    decreases n,
{
    if n > 0 {
        lemma_placed_total_of_nothing(trees, list, n - 1);
        reveal(Seq::filter);
    }
}

/// Moving chunks to other pages does not touch the cut: packed under the new page table, each
/// resident node keeps its place within its chunk, and gets the page that its chunk has now.
pub proof fn law_cut_survives_page_remap(
    trees: Seq<TreeView>,
    moved: Seq<TreeView>,
    list: Seq<IndexNode>,
    inst: int,
    j: int,
)
    requires
        0 <= inst < trees.len(),
        moved.len() == trees.len(),
        forall|chunk: int| #[trigger]
            trees[inst].has_chunk(chunk) <==> moved[inst].has_chunk(chunk),
    ensures
        placed(trees, inst, list).len() == placed(moved, inst, list).len(),
        0 <= j < placed(trees, inst, list).len() ==> {
            let x = list.filter(present(trees, inst))[j];
            &&& placed(trees, inst, list)[j] == trees[inst].place(x.1 as int)
            &&& placed(moved, inst, list)[j] == moved[inst].place(x.1 as int)
            &&& placed(trees, inst, list)[j] % 0x1_0000 == placed(moved, inst, list)[j] % 0x1_0000
        },
{
    assert(present(trees, inst) =~= present(moved, inst));
}

} // verus!
