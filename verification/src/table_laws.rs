//! What the table behind an incremental cut says, and what taking back, starting over and packing
//! make of it.

use vstd::prelude::*;

use crate::cut::{runs, IncrementalCut};
use crate::cut_model::{
    cut_list, group, links_ok, node_ok, share, Child, IndexNode, Node,
};
use crate::cut_pack::{lacks, marked, missing, newly_forced, placed, present};
use crate::hash::wants;
use crate::scale::Scale;
use crate::screen_laws::paged_in;
use crate::step_laws::{law_run_holds_each_node_once, noted, slot_of};
use crate::tree_view::TreeView;

verus! {

/// The cell stands for a child that is not expanded.
pub open spec fn is_open(c: Child) -> bool {
    c.slot == 0xffff_fffe || c.slot == 0xffff_fffd
}

/// Child `p.1` of the live node in slot `p.0` is in the cut.
pub open spec fn in_cut(nodes: Seq<Node>, arena: Seq<Child>, p: (int, int)) -> bool {
    &&& 0 <= p.0 < nodes.len()
    &&& nodes[p.0].alive
    &&& 0 <= p.1 < nodes[p.0].child_count
    &&& is_open(arena[nodes[p.0].children_base + p.1])
}

proof fn lemma_group_places(node: Node, arena: Seq<Child>, k: int) -> (ps: Seq<int>)
    requires
        0 <= k,
    ensures
        ps.len() == group(node, arena, k).len(),
        forall|j: int|
            0 <= j < ps.len() ==> {
                &&& 0 <= #[trigger] ps[j] < k
                &&& group(node, arena, k)[j] == (node.inst, (node.child_start + ps[j]) as u32)
            },
        forall|i: int, j: int| 0 <= i < j < ps.len() ==> (#[trigger] ps[i]) < (#[trigger] ps[j]),
        forall|i: int| #[trigger]
            ps.contains(i) <==> 0 <= i < k && is_open(arena[node.children_base + i]),
    decreases k,
{
    if k == 0 {
        Seq::empty()
    } else {
        let less = lemma_group_places(node, arena, k - 1);
        if is_open(arena[node.children_base + (k - 1)]) {
            let ps = less.push(k - 1);
            assert forall|i: int| #[trigger]
                ps.contains(i) <==> 0 <= i < k && is_open(arena[node.children_base + i]) by {
                if ps.contains(i) {
                    let j = choose|j: int| 0 <= j < ps.len() && ps[j] == i;
                    if j < less.len() {
                        assert(less[j] == i);
                        assert(less.contains(i));
                    }
                }
                if less.contains(i) {
                    let j = choose|j: int| 0 <= j < less.len() && less[j] == i;
                    assert(ps[j] == i);
                }
                assert(ps[less.len() as int] == k - 1);
                assert(less.contains(i) <==> 0 <= i < k - 1 && is_open(
                    arena[node.children_base + i],
                ));
            }
            assert forall|j: int| 0 <= j < ps.len() implies {
                &&& 0 <= #[trigger] ps[j] < k
                &&& group(node, arena, k)[j] == (node.inst, (node.child_start + ps[j]) as u32)
            } by {
                if j < less.len() {
                    assert(ps[j] == less[j]);
                }
            }
            ps
        } else {
            assert forall|i: int| #[trigger]
                less.contains(i) <==> 0 <= i < k && is_open(arena[node.children_base + i]) by {
                assert(less.contains(i) <==> 0 <= i < k - 1 && is_open(
                    arena[node.children_base + i],
                ));
            }
            less
        }
    }
}

/// `places` lists, slot by slot and for each slot in order, the children that are in the cut, and
/// `list` the nodes that they are.
pub open spec fn lists_the_cut(
    places: Seq<(int, int)>,
    list: Seq<IndexNode>,
    nodes: Seq<Node>,
    arena: Seq<Child>,
    n: int,
) -> bool {
    &&& places.len() == list.len()
    &&& forall|j: int|
        0 <= j < places.len() ==> {
            let node = nodes[(#[trigger] places[j]).0];
            list[j] == (node.inst, (node.child_start + places[j].1) as u32)
        }
    &&& forall|i: int, j: int|
        0 <= i < j < places.len() ==> {
            ||| (#[trigger] places[i]).0 < (#[trigger] places[j]).0
            ||| places[i].0 == places[j].0 && places[i].1 < places[j].1
        }
    &&& forall|p: (int, int)| #[trigger]
        places.contains(p) <==> p.0 < n && in_cut(nodes, arena, p)
}

/// The cut lists the children of live nodes that are not expanded: each of them, once, and
/// nothing else; in the order of the slots, and of the children in each of them.
pub proof fn law_cut_is_the_unexpanded_children(nodes: Seq<Node>, arena: Seq<Child>, n: int) -> (
    places: Seq<(int, int)>)
    requires
        0 <= n <= nodes.len(),
    ensures
        lists_the_cut(places, cut_list(nodes, arena, n), nodes, arena, n),
    decreases n,
{
    if n == 0 {
        let places = Seq::<(int, int)>::empty();
        assert forall|p: (int, int)| #[trigger]
            places.contains(p) <==> p.0 < n && in_cut(nodes, arena, p) by {}
        places
    } else {
        let less = law_cut_is_the_unexpanded_children(nodes, arena, n - 1);
        let node = nodes[n - 1];
        let own = if node.alive {
            lemma_group_places(node, arena, node.child_count as int)
        } else {
            Seq::empty()
        };
        let mine = Seq::new(own.len(), |j: int| (n - 1, own[j]));
        let places = less + mine;
        let list = cut_list(nodes, arena, n);
        let before = cut_list(nodes, arena, n - 1);
        assert(list == before + share(node, arena));
        assert(own.len() == share(node, arena).len());
        assert forall|j: int| 0 <= j < places.len() implies ({
            let at = nodes[(#[trigger] places[j]).0];
            list[j] == (at.inst, (at.child_start + places[j].1) as u32)
        }) by {
            if j < less.len() {
                assert(places[j] == less[j]);
                assert(list[j] == before[j]);
            } else {
                assert(places[j] == (n - 1, own[j - less.len()]));
                assert(list[j] == share(node, arena)[j - less.len()]);
            }
        }
        assert forall|i: int, j: int| 0 <= i < j < places.len() implies {
            ||| (#[trigger] places[i]).0 < (#[trigger] places[j]).0
            ||| places[i].0 == places[j].0 && places[i].1 < places[j].1
        } by {
            if i < less.len() {
                assert(places[i] == less[i]);
                assert(less.contains(less[i]));
                if j < less.len() {
                    assert(places[j] == less[j]);
                }
            } else {
                assert(own[i - less.len()] < own[j - less.len()]);
            }
        }
        assert forall|p: (int, int)| #[trigger]
            places.contains(p) <==> p.0 < n && in_cut(nodes, arena, p) by {
            assert(less.contains(p) <==> p.0 < n - 1 && in_cut(nodes, arena, p));
            if node.alive {
                assert(own.contains(p.1) <==> 0 <= p.1 < node.child_count && is_open(
                    arena[node.children_base + p.1],
                ));
            }
            if places.contains(p) {
                let j = choose|j: int| 0 <= j < places.len() && places[j] == p;
                if j < less.len() {
                    assert(less[j] == p);
                    assert(less.contains(p));
                } else {
                    assert(own[j - less.len()] == p.1);
                    assert(own.contains(p.1));
                }
            }
            if p.0 < n && in_cut(nodes, arena, p) {
                if p.0 < n - 1 {
                    let j = choose|j: int| 0 <= j < less.len() && less[j] == p;
                    assert(places[j] == p);
                } else {
                    let j = choose|j: int| 0 <= j < own.len() && own[j] == p.1;
                    assert(places[less.len() + j] == p);
                }
            }
        }
        places
    }
}

/// Taking a node back is done exactly if it is a live node below another one, none of whose
/// children is expanded, and its own chunk has a page. Without the page its chunk is wanted, at
/// the pixel scale that the node was expanded at, and nothing else changes; else nothing does.
pub proof fn law_taking_back_needs_the_nodes_own_chunk(
    before: IncrementalCut,
    after: IncrementalCut,
    trees: Seq<TreeView>,
    slot: u32,
    r: bool,
)
    requires
        before.collapses_to(after, trees, slot, r),
    ensures
        ({
            let node = before.nodes@[slot as int];
            let free = node.alive && node.parent != 0xffff_ffff && node.expanded == 0;
            let chunk = node.index as int / 65536;
            let here = paged_in(trees[node.inst as int], chunk);
            &&& r <==> free && here
            &&& !free ==> after == before
            &&& free && !here ==> {
                &&& noted(
                    wants(before.wanted),
                    wants(after.wanted),
                    (node.inst, chunk as u32),
                    node.ps.bits,
                    before.passes,
                )
                &&& after == (IncrementalCut { wanted: after.wanted, ..before })
            }
        }),
{
}

/// Taking a node back takes each of its children out of the cut and puts the node in, and leaves
/// every other node in the cut as often as it is there.
pub proof fn law_parent_replaces_its_children_in_the_cut(
    before: IncrementalCut,
    after: IncrementalCut,
    trees: Seq<TreeView>,
    slot: u32,
    y: IndexNode,
)
    requires
        before.wf(),
        slot < before.nodes@.len(),
        before.collapses_to(after, trees, slot, true),
    ensures
        ({
            let node = before.nodes@[slot as int];
            let gone = if y.0 == node.inst && node.child_start <= y.1 < node.child_start
                + node.child_count {
                1int
            } else {
                0
            };
            let come = if y.0 == node.inst && y.1 == node.index {
                1int
            } else {
                0
            };
            &&& after.cut().count(y) == before.cut().count(y) - gone + come
            &&& after.cut_size == before.cut_size + 1 - node.child_count
            &&& after.generation == before.generation + 1
        }),
{
    let node = before.nodes@[slot as int];
    assert(node_ok(before.nodes@, before.arena@, before.lod_ids@.len() as int, slot as int));
    law_run_holds_each_node_once(node.inst, node.child_start, node.child_count as int, y);
}

/// Taking a node back frees its slot and its cells, lets its parent count one expanded child
/// less, and says in the parent's cell that the node may be expanded again. No other record, no
/// other cell and no other want changes. Runs of 33 cells and more are counted as lost.
pub proof fn law_taking_back_frees_what_the_node_had(
    before: IncrementalCut,
    after: IncrementalCut,
    trees: Seq<TreeView>,
    slot: u32,
    t: int,
    x: int,
    k: (u8, u32),
)
    requires
        before.wf(),
        slot < before.nodes@.len(),
        before.collapses_to(after, trees, slot, true),
    ensures
        ({
            let node = before.nodes@[slot as int];
            let up = node.parent as int;
            let parent = before.nodes@[up];
            let own = parent.children_base + (node.index - parent.child_start);
            let count = node.child_count as int;
            &&& after.nodes@.len() == before.nodes@.len()
            &&& !after.nodes@[slot as int].alive
            &&& up != slot
            &&& after.nodes@[up] == (Node { expanded: after.nodes@[up].expanded, ..parent })
            &&& after.nodes@[up].expanded == parent.expanded - 1
            &&& 0 <= t < before.nodes@.len() && t != slot && t != up ==> after.nodes@[t]
                == before.nodes@[t]
            &&& after.node_free@ =~= before.node_free@.push(slot)
            &&& after.arena@.len() == before.arena@.len()
            &&& after.arena@[own].slot == 0xffff_fffe
            &&& after.arena@[own].center == before.arena@[own].center
            &&& after.arena@[own].size == before.arena@[own].size
            &&& 0 <= x < before.arena@.len() && x != own ==> after.arena@[x] == before.arena@[x]
            &&& count < 33 ==> {
                &&& after.arena_free@[count]@ =~= before.arena_free@[count]@.push(
                    node.children_base,
                )
                &&& after.arena_leaked == before.arena_leaked
            }
            &&& count >= 33 ==> after.arena_leaked == before.arena_leaked + count
            &&& 0 <= x < 33 && x != count ==> after.arena_free@[x]@ =~= before.arena_free@[x]@
            &&& wants(after.wanted).contains_key(k) <==> wants(before.wanted).contains_key(k) && !(
            k.0 == node.inst && k.1 == node.index as int / 65536)
            &&& wants(after.wanted).contains_key(k) ==> wants(after.wanted)[k] == wants(
                before.wanted,
            )[k]
        }),
{
    let node = before.nodes@[slot as int];
    let insts = before.lod_ids@.len() as int;
    let count = node.child_count as int;
    assert(node_ok(before.nodes@, before.arena@, insts, slot as int));
    assert(node_ok(before.nodes@, before.arena@, insts, node.parent as int));
    crate::cut_model::lemma_closed_up(
        before.nodes@,
        before.arena@,
        after.nodes@,
        after.arena@,
        insts,
        slot as int,
    );
    let free = runs(before.arena_free@);
    assert(free.len() == 33);
    assert(runs(after.arena_free@).len() == 33);
    assert(runs(after.arena_free@).len() == after.arena_free@.len());
    if count < 33 {
        assert(free[count] == before.arena_free@[count]@);
        assert(runs(after.arena_free@)[count] == after.arena_free@[count]@);
    }
    if 0 <= x < 33 {
        assert(free[x] == before.arena_free@[x]@);
        assert(runs(after.arena_free@)[x] == after.arena_free@[x]@);
    }
}

/// What taking back has no business with stays.
pub proof fn law_taking_back_leaves_the_rest(
    before: IncrementalCut,
    after: IncrementalCut,
    trees: Seq<TreeView>,
    slot: u32,
    r: bool,
)
    requires
        before.collapses_to(after, trees, slot, r),
    ensures
        r || after.generation == before.generation,
        after.roots == before.roots,
        after.lod_ids == before.lod_ids,
        after.params == before.params,
        after.max_splats == before.max_splats,
        after.limit == before.limit,
        after.t == before.t,
        after.packed_generation == before.packed_generation,
        after.cursor == before.cursor,
        after.visited_since_change == before.visited_since_change,
        after.pass_start_generation == before.pass_start_generation,
        after.clean_pass == before.clean_pass,
        after.passes == before.passes,
        after.forced == before.forced,
{
}

/// Starting over makes the cut of the roots: for each instance one virtual node, above the root
/// as it stands at the start of its page, or of the tree's first page where it has none. Ids and
/// poses are those of the trees, nothing is wanted, and the work starts anew down to the limit.
pub proof fn law_starting_over_takes_each_root_from_its_page(
    before: IncrementalCut,
    after: IncrementalCut,
    trees: Seq<TreeView>,
    root_pages: Seq<u32>,
    limit: Scale,
    i: int,
)
    requires
        before.restarts_to(after, trees, root_pages, limit),
        trees.len() <= 256,
        0 <= i < trees.len(),
    ensures
        ({
            let at = if root_pages[i] == 0xffff_ffff {
                0
            } else {
                root_pages[i] as int % 65536 * 65536
            };
            let root = trees[i].splats@[at];
            let node = after.nodes@[i];
            let cell = after.arena@[i];
            &&& after.list().len() == trees.len()
            &&& after.list()[i] == (i as u8, 0u32)
            &&& after.cut_size == trees.len()
            &&& after.nodes@.len() == trees.len()
            &&& after.arena@.len() == trees.len()
            &&& after.roots@.len() == trees.len()
            &&& after.roots@[i] == i
            &&& node.inst == i
            &&& node.index == 0xffff_ffff
            &&& node.parent == 0xffff_ffff
            &&& node.child_start == 0
            &&& node.child_count == 1
            &&& node.expanded == 0
            &&& node.ps.bits == 0x7f80_0000
            &&& node.children_base == i
            &&& node.center == root.center
            &&& node.size == root.size
            &&& node.radius == 0
            &&& node.child_size_max == root.size
            &&& !node.forced
            &&& node.alive
            &&& cell.center == root.center
            &&& cell.size == root.size
            &&& cell.slot == (if root.child_count == 0 {
                0xffff_fffdu32
            } else {
                0xffff_fffeu32
            })
            &&& after.lod_ids@.len() == trees.len()
            &&& after.lod_ids@[i] == trees[i].lod_id
            &&& after.params@.len() == trees.len()
            &&& after.params@[i] == trees[i].params
        }),
        forall|k: (u8, u32)| !(#[trigger] wants(after.wanted).contains_key(k)),
        after.arena_leaked == 0,
        after.limit == limit,
        after.t == limit,
        after.generation == before.generation + 1,
        after.pass_start_generation == after.generation,
        after.cursor == 0,
        after.visited_since_change == 0,
        !after.clean_pass,
        after.forced@.len() == 0,
        after.passes == before.passes,
        after.packed_generation == before.packed_generation,
        after.max_splats == before.max_splats,
{
    assert(after.roots@[i] == i);
    assert(after.list()[i] == (i as u8, 0u32));
    assert(after.lod_ids@[i] == trees[i].lod_id);
    assert(after.params@[i] == trees[i].params);
}

/// `from` lists, in ascending order, the places of those nodes that belong to instance `inst` and
/// whose chunk has a page.
pub open spec fn picks_the_present(
    from: Seq<int>,
    trees: Seq<TreeView>,
    inst: int,
    list: Seq<IndexNode>,
) -> bool {
    &&& forall|i: int, j: int|
        0 <= i < j < from.len() ==> (#[trigger] from[i]) < (#[trigger] from[j])
    &&& forall|k: int| #[trigger]
        from.contains(k) <==> {
            &&& 0 <= k < list.len()
            &&& list[k].0 == inst
            &&& paged_in(trees[inst], list[k].1 as int / 65536)
        }
}

/// Packing gives each instance the paged indices of its own nodes, as far as their chunks have
/// pages: all of them, in the order of the cut, each by the page of its chunk and its place there.
pub proof fn law_packed_indices_are_where_the_pages_say(
    trees: Seq<TreeView>,
    inst: int,
    list: Seq<IndexNode>,
) -> (from: Seq<int>)
    ensures
        picks_the_present(from, trees, inst, list),
        placed(trees, inst, list).len() == from.len(),
        forall|j: int|
            0 <= j < from.len() ==> placed(trees, inst, list)[j] == slot_of(
                trees[inst],
                list[#[trigger] from[j]].1 as int,
            ),
    decreases list.len(),
{
    reveal(Seq::filter);
    if list.len() == 0 {
        let from = Seq::<int>::empty();
        assert(picks_the_present(from, trees, inst, list));
        from
    } else {
        let rest = list.drop_last();
        let x = list.last();
        let n = rest.len() as int;
        let less = law_packed_indices_are_where_the_pages_say(trees, inst, rest);
        let here = x.0 == inst && paged_in(trees[inst], x.1 as int / 65536);
        let sofar = placed(trees, inst, rest);
        let all = placed(trees, inst, list);
        let from = if here {
            less.push(n)
        } else {
            less
        };
        let at = slot_of(trees[inst], x.1 as int);
        assert(0 <= at <= u32::MAX);
        assert(here == present(trees, inst)(x));
        if here {
            assert(all =~= sofar.push(at as u32));
        } else {
            assert(all =~= sofar);
        }
        assert forall|j: int| 0 <= j < less.len() implies 0 <= (#[trigger] less[j]) < n
            && from[j] == less[j] by {
            assert(less.contains(less[j]));
        }
        assert forall|j: int| 0 <= j < from.len() implies all[j] == slot_of(
            trees[inst],
            list[#[trigger] from[j]].1 as int,
        ) by {
            if j < less.len() {
                assert(rest[less[j]] == list[from[j]]);
            }
        }
        assert forall|k: int| #[trigger]
            from.contains(k) <==> {
                &&& 0 <= k < list.len()
                &&& list[k].0 == inst
                &&& paged_in(trees[inst], list[k].1 as int / 65536)
            } by {
            if from.contains(k) {
                let j = choose|j: int| 0 <= j < from.len() && from[j] == k;
                if j < less.len() {
                    assert(less[j] == k);
                    assert(less.contains(k));
                    assert(rest[k] == list[k]);
                }
            }
            if 0 <= k < n {
                assert(rest[k] == list[k]);
                if less.contains(k) {
                    let j = choose|j: int| 0 <= j < less.len() && less[j] == k;
                    assert(from[j] == k);
                }
            }
            if k == n && here {
                assert(from[less.len() as int] == n);
            }
        }
        from
    }
}

/// As many nodes count as evicted as lie in chunks without a page, one by one.
pub proof fn law_evicted_nodes_are_counted_one_by_one(
    trees: Seq<TreeView>,
    list: Seq<IndexNode>,
    x: IndexNode,
)
    ensures
        Seq::<IndexNode>::empty().filter(missing(trees)).len() == 0,
        list.push(x).filter(missing(trees)).len() == list.filter(missing(trees)).len() + (
        if paged_in(trees[x.0 as int], x.1 as int / 65536) {
            0int
        } else {
            1
        }),
{
    reveal(Seq::filter);
    assert(list.push(x).drop_last() =~= list);
}

/// A child of the live node is in the cut, and its chunk has no page.
pub open spec fn has_lost_a_child(trees: Seq<TreeView>, node: Node, arena: Seq<Child>) -> bool {
    exists|i: int|
        {
            &&& 0 <= i < node.child_count
            &&& node.alive
            &&& is_open(#[trigger] arena[node.children_base + i])
            &&& !paged_in(trees[node.inst as int], (node.child_start + i) / 65536)
        }
}

proof fn lemma_lacks(trees: Seq<TreeView>, node: Node, arena: Seq<Child>)
    requires
        node.child_start + node.child_count <= u32::MAX,
    ensures
        lacks(trees, node, arena) <==> has_lost_a_child(trees, node, arena),
{
    let all = share(node, arena);
    let p = missing(trees);
    if node.alive {
        let ps = lemma_group_places(node, arena, node.child_count as int);
        if lacks(trees, node, arena) {
            let x = all.filter(p)[0];
            assert(all.filter(p).contains(x));
            all.lemma_filter_contains_rev(p, x);
            let j = choose|j: int| 0 <= j < all.len() && all[j] == x;
            all.lemma_filter_pred(p, 0);
            assert(ps.contains(ps[j]));
            assert(is_open(arena[node.children_base + ps[j]]));
            assert(!paged_in(trees[node.inst as int], (node.child_start + ps[j]) / 65536));
        }
        if has_lost_a_child(trees, node, arena) {
            let i = choose|i: int|
                {
                    &&& 0 <= i < node.child_count
                    &&& node.alive
                    &&& is_open(#[trigger] arena[node.children_base + i])
                    &&& !paged_in(trees[node.inst as int], (node.child_start + i) / 65536)
                };
            assert(ps.contains(i));
            let j = choose|j: int| 0 <= j < ps.len() && ps[j] == i;
            assert(all[j] == (node.inst, (node.child_start + i) as u32));
            assert(p(all[j]));
            all.lemma_filter_contains(p, j);
            assert(all.filter(p).len() > 0);
        }
    } else {
        reveal(Seq::filter);
    }
}

/// Packing marks the nodes that have lost a child, on top of those that are marked already, and
/// lists the newly marked ones, each once and in the order of the slots. It changes nothing else
/// of a node.
pub proof fn law_nodes_that_lost_a_child_are_forced(
    trees: Seq<TreeView>,
    nodes: Seq<Node>,
    arena: Seq<Child>,
    insts: int,
    s: int,
)
    requires
        links_ok(nodes, arena, insts),
        0 <= s < nodes.len(),
    ensures
        marked(trees, nodes, arena).len() == nodes.len(),
        marked(trees, nodes, arena)[s] == (Node {
            forced: marked(trees, nodes, arena)[s].forced,
            ..nodes[s]
        }),
        marked(trees, nodes, arena)[s].forced <==> nodes[s].forced || has_lost_a_child(
            trees,
            nodes[s],
            arena,
        ),
        newly_forced(trees, nodes, arena, nodes.len() as int).contains(s as u32)
            <==> !nodes[s].forced && has_lost_a_child(trees, nodes[s], arena),
        forall|i: int, j: int|
            0 <= i < j < newly_forced(trees, nodes, arena, nodes.len() as int).len() ==> (
            #[trigger] newly_forced(trees, nodes, arena, nodes.len() as int)[i]) < (
            #[trigger] newly_forced(trees, nodes, arena, nodes.len() as int)[j]),
{
    if nodes[s].alive {
        assert(node_ok(nodes, arena, insts, s));
        lemma_lacks(trees, nodes[s], arena);
    } else {
        reveal(Seq::filter);
        assert(!lacks(trees, nodes[s], arena));
        assert(!has_lost_a_child(trees, nodes[s], arena));
    }
    lemma_newly_forced_in_order(trees, nodes, arena, nodes.len() as int);
    let all = newly_forced(trees, nodes, arena, nodes.len() as int);
    assert(all.contains(s as u32) <==> !nodes[s].forced && lacks(trees, nodes[s], arena));
}

proof fn lemma_newly_forced_in_order(
    trees: Seq<TreeView>,
    nodes: Seq<Node>,
    arena: Seq<Child>,
    n: int,
)
    requires
        0 <= n <= nodes.len(),
        nodes.len() <= u32::MAX,
    ensures
        ({
            let all = newly_forced(trees, nodes, arena, n);
            &&& forall|j: int| 0 <= j < all.len() ==> (#[trigger] all[j]) < n
            &&& forall|i: int, j: int|
                0 <= i < j < all.len() ==> (#[trigger] all[i]) < (#[trigger] all[j])
            &&& forall|s: int|
                0 <= s < nodes.len() ==> (#[trigger] all.contains(s as u32) <==> s < n
                    && !nodes[s].forced && lacks(trees, nodes[s], arena))
        }),
    decreases n,
{
    if n > 0 {
        lemma_newly_forced_in_order(trees, nodes, arena, n - 1);
        let less = newly_forced(trees, nodes, arena, n - 1);
        let all = newly_forced(trees, nodes, arena, n);
        assert forall|s: int| 0 <= s < nodes.len() implies (#[trigger] all.contains(s as u32)
            <==> s < n && !nodes[s].forced && lacks(trees, nodes[s], arena)) by {
            assert(less.contains(s as u32) <==> s < n - 1 && !nodes[s].forced && lacks(
                trees,
                nodes[s],
                arena,
            ));
            if less.contains(s as u32) {
                let j = choose|j: int| 0 <= j < less.len() && less[j] == s as u32;
                assert(all[j] == s as u32);
            }
            if all.len() > less.len() {
                assert(all[all.len() - 1] == (n - 1) as u32);
                if all.contains(s as u32) && s != n - 1 {
                    let j = choose|j: int| 0 <= j < all.len() && all[j] == s as u32;
                    assert(less[j] == s as u32);
                }
            }
        }
    }
}

/// Packing appends what it has newly marked to the list of forced nodes, notes that the cut is
/// packed as it is now, and changes nothing else.
pub proof fn law_packing_notes_the_generation(
    before: IncrementalCut,
    after: IncrementalCut,
    trees: Seq<TreeView>,
    k: int,
)
    requires
        before.packs_to(after, trees),
        0 <= k < before.forced@.len(),
    ensures
        after.packed_generation == before.generation,
        after.generation == before.generation,
        after.forced@.len() == before.forced@.len() + newly_forced(
            trees,
            before.nodes@,
            before.arena@,
            before.nodes@.len() as int,
        ).len(),
        after.forced@[k] == before.forced@[k],
        after.arena == before.arena,
        after.wanted == before.wanted,
        after.cut_size == before.cut_size,
        after.list() == before.list(),
        after == (IncrementalCut {
            nodes: after.nodes,
            forced: after.forced,
            packed_generation: after.packed_generation,
            ..before
        }),
{
}

/// A cut that is told of a lost chunk has to be packed again if it refers to the chunk, and stays
/// as it is if not.
pub proof fn law_told_cut_is_packed_again(
    before: IncrementalCut,
    after: IncrementalCut,
    lod_id: u32,
    chunk: u32,
)
    requires
        before.notes_release(after, lod_id, chunk),
        before.generation < u64::MAX,
    ensures
        before.refers_to(lod_id, chunk) ==> after.packed_generation != after.generation,
        !before.refers_to(lod_id, chunk) ==> after == before,
        after == (IncrementalCut { packed_generation: after.packed_generation, ..before }),
{
}

/// A cut that is told of several lost chunks has to be packed again if it refers to any of them,
/// and stays as it is if it refers to none.
pub proof fn law_told_cut_goes_by_every_chunk(
    before: IncrementalCut,
    after: IncrementalCut,
    released: Seq<(u32, u32)>,
    k: int,
)
    requires
        before.notes_releases(after, released),
        before.generation < u64::MAX,
        0 <= k < released.len(),
    ensures
        before.refers_to(released[k].0, released[k].1) ==> after.packed_generation
            != after.generation,
        (forall|j: int|
            0 <= j < released.len() ==> !before.refers_to(
                (#[trigger] released[j]).0,
                released[j].1,
            )) ==> after == before,
        after == (IncrementalCut { packed_generation: after.packed_generation, ..before }),
{
    if before.refers_to(released[k].0, released[k].1) {
        assert(before.loses(released));
    }
}

} // verus!
