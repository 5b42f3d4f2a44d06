//! A synthetic tree, laid out in pages, is a forest on which every traversal comes to its end.

use vstd::prelude::*;
use vstd::seq_lib::group_to_multiset_ensures;

use crate::entry::CutNode;
use crate::forest::{is_forest, is_path, reachable, valid_cut};
use crate::scale::Scale;
use crate::splat::LodSplat;
use crate::synth::{
    breadth_first, laid_out, law_layout_is_one_to_one, lone, lone_job, lone_start, mirrored,
};
use crate::traverse::{root_slot, seeded, unseeded, Progress};
use crate::traverse_laws::{explored, law_seeded_cut_is_valid, root_nodes};
use crate::tree_view::{
    chunk_of, kid_nodes, kids_in, measured, paged_index, InstanceParams, TreeView, NOT_RESIDENT,
};

verus! {

/// The nodes of a tree lie in so many pages, back to front.
pub open spec fn is_layout(
    nodes: Seq<LodSplat>,
    pages: int,
    splats: Seq<LodSplat>,
    chunk_to_page: Seq<u32>,
) -> bool {
    &&& 0 < pages <= 512
    &&& nodes.len() <= pages * 0x1_0000
    &&& splats.len() == pages * 0x1_0000
    &&& forall|i: int| 0 <= i < nodes.len() ==> splats[laid_out(pages, i)] == #[trigger] nodes[i]
    &&& chunk_to_page == Seq::new(pages as nat, |c: int| mirrored(pages, c) as u32)
}

/// The traversal node that stands for node `i` of the tree.
spec fn at(pages: int, i: int) -> CutNode {
    (0u32, laid_out(pages, i) as u32)
}

/// The children of a laid-out node are its children, laid out.
proof fn lemma_kids(
    nodes: Seq<LodSplat>,
    parent: Seq<u32>,
    pages: int,
    tree: TreeView,
    i: int,
)
    requires
        breadth_first(nodes, parent),
        is_layout(nodes, pages, tree.splats@, tree.chunk_to_page@),
        0 <= i < nodes.len(),
    ensures
        at(pages, i).1 == laid_out(pages, i),
        tree.sound_at(at(pages, i).1),
        kid_nodes(seq![tree], at(pages, i)).len() == nodes[i].child_count,
        forall|g: int|
            0 <= g < nodes[i].child_count ==> #[trigger] kid_nodes(seq![tree], at(pages, i))[g]
                == at(pages, nodes[i].child_start + g),
{
    let slot = at(pages, i).1;
    law_layout_is_one_to_one(pages, i, i);
    assert(tree.splats@[slot as int] == nodes[i]);
    let s = nodes[i];
    if s.child_count > 0 {
        let last = s.child_start + s.child_count - 1;
        assert(last < nodes.len());
        assert(0 <= chunk_of(s.child_start as int) < pages);
        assert(0 <= chunk_of(last) < pages);
        assert(tree.has_chunk(chunk_of(s.child_start as int)));
        assert(tree.has_chunk(chunk_of(last)));
        assert forall|g: int| 0 <= g < s.child_count implies #[trigger] tree.kids(slot)[g]
            == laid_out(pages, s.child_start + g) && laid_out(pages, s.child_start + g)
            < tree.splats@.len() by {
            let c = s.child_start + g;
            assert(0 <= chunk_of(c) < pages);
            law_layout_is_one_to_one(pages, c, c);
            assert(tree.chunk_to_page@[chunk_of(c)] == mirrored(pages, c / 0x1_0000) as u32);
            assert(tree.place(c) == laid_out(pages, c) as u32);
        }
    }
}

/// A laid-out node that can be reached from the root is a node of the tree.
proof fn lemma_reachable_is_laid_out(
    nodes: Seq<LodSplat>,
    parent: Seq<u32>,
    pages: int,
    tree: TreeView,
    roots: Set<CutNode>,
    path: Seq<CutNode>,
) -> (i: int)
    requires
        breadth_first(nodes, parent),
        is_layout(nodes, pages, tree.splats@, tree.chunk_to_page@),
        forall|n: CutNode| #[trigger] roots.contains(n) ==> n == at(pages, 0),
        is_path(roots, kids_in(seq![tree]), path),
    ensures
        0 <= i < nodes.len(),
        path.last() == at(pages, i),
    decreases path.len(),
{
    if path.len() == 1 {
        assert(path[0] == path.last());
        0
    } else {
        let rest = path.drop_last();
        assert forall|k: int| 0 < k < rest.len() implies kids_in(seq![tree])(rest[k - 1]).contains(
            #[trigger] rest[k],
        ) by {
            assert(path[k] == rest[k]);
            assert(path[k - 1] == rest[k - 1]);
        }
        let p = lemma_reachable_is_laid_out(nodes, parent, pages, tree, roots, rest);
        lemma_kids(nodes, parent, pages, tree, p);
        let kids = kid_nodes(seq![tree], at(pages, p));
        let last = path[path.len() - 1];
        assert(kids_in(seq![tree])(path[path.len() - 2]).contains(last));
        assert(kids.contains(last));
        let g = choose|g: int| 0 <= g < kids.len() && kids[g] == last;
        assert(nodes[p].child_count > 0);
        assert(kids[g] == at(pages, nodes[p].child_start + g));
        nodes[p].child_start + g
    }
}

/// A tree that is numbered breadth first is, laid out, a forest.
pub proof fn law_synthetic_tree_is_a_forest(
    nodes: Seq<LodSplat>,
    parent: Seq<u32>,
    pages: int,
    tree: TreeView,
)
    requires
        breadth_first(nodes, parent),
        is_layout(nodes, pages, tree.splats@, tree.chunk_to_page@),
    ensures
        is_forest(root_nodes(seq![tree], seq![(pages - 1) as u32]), kids_in(seq![tree])),
{
    let trees = seq![tree];
    let roots = root_nodes(trees, seq![(pages - 1) as u32]);
    let kids = kids_in(trees);
    assert forall|n: CutNode| #[trigger] roots.contains(n) implies n == at(pages, 0) by {
        assert(root_slot((pages - 1) as u32) == laid_out(pages, 0));
    }
    assert forall|n: CutNode| #[trigger] reachable(roots, kids, n) implies kids(
        n,
    ).no_duplicates() by {
        let path = choose|path: Seq<CutNode>| #[trigger]
            is_path(roots, kids, path) && path.last() == n;
        let i = lemma_reachable_is_laid_out(nodes, parent, pages, tree, roots, path);
        lemma_kids(nodes, parent, pages, tree, i);
        let ks = kids(n);
        assert forall|a: int, b: int| 0 <= a < ks.len() && 0 <= b < ks.len() && a != b implies ks[a]
            != ks[b] by {
            assert(ks[a] == at(pages, nodes[i].child_start + a));
            assert(ks[b] == at(pages, nodes[i].child_start + b));
            law_layout_is_one_to_one(pages, nodes[i].child_start + a, nodes[i].child_start + b);
            law_layout_is_one_to_one(pages, nodes[i].child_start + b, nodes[i].child_start + a);
        }
    }
    assert forall|m: CutNode, n: CutNode, x: CutNode|
        reachable(roots, kids, m) && reachable(roots, kids, n) && #[trigger] kids(m).contains(x)
            && #[trigger] kids(n).contains(x) implies m == n by {
        let i = lemma_child_of(nodes, parent, pages, tree, roots, m, x);
        let j = lemma_child_of(nodes, parent, pages, tree, roots, n, x);
        law_layout_is_one_to_one(pages, i.1, j.1);
        law_layout_is_one_to_one(pages, j.1, i.1);
        assert(parent[i.1] == i.0);
        assert(parent[j.1] == j.0);
    }
    assert forall|n: CutNode, x: CutNode|
        reachable(roots, kids, n) && #[trigger] kids(n).contains(x) implies !roots.contains(x) by {
        let i = lemma_child_of(nodes, parent, pages, tree, roots, n, x);
        law_layout_is_one_to_one(pages, i.1, 0);
        law_layout_is_one_to_one(pages, 0, i.1);
    }
}

/// A child of a reachable node is a node of the tree, and so is its parent.
proof fn lemma_child_of(
    nodes: Seq<LodSplat>,
    parent: Seq<u32>,
    pages: int,
    tree: TreeView,
    roots: Set<CutNode>,
    n: CutNode,
    x: CutNode,
) -> (r: (int, int))
    requires
        breadth_first(nodes, parent),
        is_layout(nodes, pages, tree.splats@, tree.chunk_to_page@),
        forall|n: CutNode| #[trigger] roots.contains(n) ==> n == at(pages, 0),
        reachable(roots, kids_in(seq![tree]), n),
        kid_nodes(seq![tree], n).contains(x),
    ensures
        0 <= r.0 < r.1 < nodes.len(),
        n == at(pages, r.0),
        x == at(pages, r.1),
        x.1 == laid_out(pages, r.1),
        parent[r.1] == r.0,
{
    let kids = kids_in(seq![tree]);
    let path = choose|path: Seq<CutNode>| #[trigger]
        is_path(roots, kids, path) && path.last() == n;
    let i = lemma_reachable_is_laid_out(nodes, parent, pages, tree, roots, path);
    lemma_kids(nodes, parent, pages, tree, i);
    let ks = kid_nodes(seq![tree], n);
    let g = choose|g: int| 0 <= g < ks.len() && ks[g] == x;
    assert(ks[g] == at(pages, nodes[i].child_start + g));
    assert(nodes[i].child_count > 0);
    let c = nodes[i].child_start + g;
    lemma_kids(nodes, parent, pages, tree, c);
    assert(parent[c] == i);
    (i, c)
}

/// A traversal of a synthetic tree, laid out, comes to its end, under any pose and budget.
pub proof fn law_synthetic_traversal_is_finished<
    'a,
    F: Fn(&LodSplat, &InstanceParams) -> Scale,
>(
    nodes: Seq<LodSplat>,
    parent: Seq<u32>,
    pages: int,
    splats: &'a [LodSplat],
    chunk_to_page: &'a [u32],
    p: InstanceParams,
    scale: F,
    max_splats: usize,
)
    requires
        breadth_first(nodes, parent),
        is_layout(nodes, pages, splats@, chunk_to_page@),
    ensures
        lone_job(splats, chunk_to_page, p, scale, max_splats).completes(
            lone_start(splats, chunk_to_page, (pages - 1) as u32, p, scale),
        ),
{
    let tree = TreeView { lod_id: 1, splats, chunk_to_page, params: p };
    let trees = lone(splats, chunk_to_page, p);
    assert(trees =~= seq![tree]);
    let job = lone_job(splats, chunk_to_page, p, scale, max_splats);
    let start = lone_start(splats, chunk_to_page, (pages - 1) as u32, p, scale);
    let depth = Map::new(
        |n: CutNode| exists|i: int| 0 <= i < nodes.len() && n == #[trigger] at(pages, i),
        |n: CutNode| 0nat,
    );
    assert forall|n: CutNode| #[trigger] depth.contains_key(n) implies {
        &&& n.0 < trees.len()
        &&& trees[n.0 as int].sound_at(n.1)
        &&& forall|k: int|
            0 <= k < kid_nodes(trees, n).len() ==> depth.contains_key(
                #[trigger] kid_nodes(trees, n)[k],
            )
        &&& kid_nodes(trees, n).len() == 1 ==> depth[kid_nodes(trees, n)[0]] < depth[n]
    } by {
        let i = choose|i: int| 0 <= i < nodes.len() && n == #[trigger] at(pages, i);
        lemma_kids(nodes, parent, pages, tree, i);
        assert forall|k: int| 0 <= k < kid_nodes(trees, n).len() implies depth.contains_key(
            #[trigger] kid_nodes(trees, n)[k],
        ) by {
            assert(kid_nodes(trees, n)[k] == at(pages, nodes[i].child_start + k));
        }
    }
    assert(explored(trees, depth));
    let root = root_slot((pages - 1) as u32);
    assert(root == laid_out(pages, 0));
    assert(at(pages, 0) == (0u32, root));
    assert(depth.contains_key(at(pages, 0)));
    assert(start.consistent() && job.starts_within(start, depth)) by {
        lemma_lone_start(trees, (pages - 1) as u32, measured(scale));
    }
    job.law_explored_trees_are_finished(start, depth);
}

/// The start of a traversal of one tree: its root in the frontier, and nothing else.
proof fn lemma_lone_start(
    trees: Seq<TreeView>,
    page: u32,
    measure: spec_fn(LodSplat, InstanceParams) -> Scale,
)
    requires
        trees.len() == 1,
        root_slot(page) < 0x200_0000,
    ensures
        ({
            let start = seeded(trees, seq![page], measure, unseeded(), 1);
            &&& start.consistent()
            &&& forall|e: crate::entry::Entry| #[trigger]
                start.frontier.count(e) > 0 ==> e.node() == (0u32, root_slot(page))
        }),
{
    reveal_with_fuel(seeded, 2);
    let key = measure(trees[0].splats@[root_slot(page) as int], trees[0].params);
    crate::traverse_laws::lemma_entry_of(key, (0u32, root_slot(page)));
}

/// The cut that a traversal of a synthetic tree ends with is valid.
pub proof fn law_synthetic_cut_is_valid<'a, F: Fn(&LodSplat, &InstanceParams) -> Scale>(
    nodes: Seq<LodSplat>,
    parent: Seq<u32>,
    pages: int,
    splats: &'a [LodSplat],
    chunk_to_page: &'a [u32],
    p: InstanceParams,
    scale: F,
    max_splats: usize,
    d: Progress,
)
    requires
        breadth_first(nodes, parent),
        is_layout(nodes, pages, splats@, chunk_to_page@),
        lone_job(splats, chunk_to_page, p, scale, max_splats).finishes(
            lone_start(splats, chunk_to_page, (pages - 1) as u32, p, scale),
            d,
        ),
    ensures
        valid_cut(
            root_nodes(lone(splats, chunk_to_page, p), seq![(pages - 1) as u32]),
            kids_in(lone(splats, chunk_to_page, p)),
            d.cut(),
        ),
{
    let tree = TreeView { lod_id: 1, splats, chunk_to_page, params: p };
    let trees = lone(splats, chunk_to_page, p);
    assert(trees =~= seq![tree]);
    let roots = root_nodes(trees, seq![(pages - 1) as u32]);
    assert(root_slot((pages - 1) as u32) == laid_out(pages, 0));
    law_synthetic_tree_is_a_forest(nodes, parent, pages, tree);
    law_synthetic_traversal_is_finished(
        nodes,
        parent,
        pages,
        splats,
        chunk_to_page,
        p,
        scale,
        max_splats,
    );
    law_seeded_cut_is_valid(trees, seq![(pages - 1) as u32], measured(scale));
    lone_job(splats, chunk_to_page, p, scale, max_splats).law_every_exit_leaves_a_valid_cut(
        roots,
        lone_start(splats, chunk_to_page, (pages - 1) as u32, p, scale),
        d,
    );
}

} // verus!
