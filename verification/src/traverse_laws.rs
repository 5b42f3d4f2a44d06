//! What holds of every traversal.

use vstd::multiset::Multiset;
use vstd::prelude::*;
use vstd::seq_lib::group_to_multiset_ensures;

use crate::entry::{law_entries_order_like_tuples, packed, CutNode, Entry};
use crate::forest::{
    is_forest, law_refining_keeps_cut_valid, law_roots_are_a_valid_cut, refined, valid_cut,
};
use crate::heap::is_top;
use crate::scale::{clamped, law_clamped, rank, scale_le, Scale};
use crate::splat::LodSplat;
use crate::traverse::{
    entry_of, lemma_nodes_of_insert, lemma_nodes_of_remove, nodes_of, root_slot, rooted, seeded,
    unseeded, with_chunk, Job, Progress, Step,
};
use crate::tree_view::{fits, kid_nodes, kids_in, InstanceParams, TreeView};

verus! {

/// An entry holds the node that it was made of.
pub(crate) proof fn lemma_entry_of(key: Scale, n: CutNode)
    requires
        n.0 < 128,
        n.1 < 0x200_0000,
    ensures
        entry_of(key, n).node() == n,
        entry_of(key, n).scale() == clamped(key),
{
    let w = packed(clamped(key).bits, n.0, n.1);
    assert(0 <= w <= u64::MAX);
}

/// A frontier that is not empty has a largest entry.
pub(crate) proof fn lemma_top_exists(m: Multiset<Entry>)
    requires
        m.len() > 0,
    ensures
        exists|e: Entry| is_top(m, e),
    decreases m.len(),
{
    let e = m.choose();
    assert(m.count(e) > 0);
    let rest = m.remove(e);
    if rest.len() == 0 {
        assert forall|f: Entry| #[trigger] m.count(f) > 0 implies f.0 <= e.0 by {
            if f != e {
                assert(rest.count(f) <= rest.len());
            }
        }
        assert(is_top(m, e));
    } else {
        lemma_top_exists(rest);
        let t = choose|t: Entry| is_top(rest, t);
        assert(rest.count(t) > 0);
        let top = if t.0 < e.0 {
            e
        } else {
            t
        };
        assert forall|f: Entry| #[trigger] m.count(f) > 0 implies f.0 <= top.0 by {
            if f != e {
                assert(rest.count(f) > 0);
            }
        }
        assert(is_top(m, top));
    }
}

proof fn lemma_nodes_of_len(m: Multiset<Entry>)
    ensures
        nodes_of(m).len() == m.len(),
{
    if m.len() > 0 {
        lemma_nodes_of_remove(m, m.choose());
    }
}

impl<'a> Job<'a> {
    /// Sorting nodes into output and frontier loses none and adds none.
    proof fn lemma_sorted_nodes(self, m: Multiset<Entry>, out: Seq<CutNode>, nodes: Seq<CutNode>)
        requires
            forall|i: int|
                0 <= i < nodes.len() ==> (#[trigger] nodes[i]).0 < 128 && nodes[i].1 < 0x200_0000,
        ensures
            (out + self.settled(nodes)).to_multiset().add(
                nodes_of(m.add(self.pending(nodes).to_multiset())),
            ) == out.to_multiset().add(nodes_of(m)).add(nodes.to_multiset()),
        decreases nodes.len(),
    {
        broadcast use group_to_multiset_ensures;

        reveal(Seq::filter);
        if nodes.len() == 0 {
            assert(out + self.settled(nodes) =~= out);
            assert(self.pending(nodes).len() == 0);
            assert(self.pending(nodes).to_multiset().len() == 0);
            assert(m.add(self.pending(nodes).to_multiset()) =~= m);
            assert(nodes.to_multiset().len() == 0);
            assert(out.to_multiset().add(nodes_of(m)).add(nodes.to_multiset())
                =~= out.to_multiset().add(nodes_of(m)));
        } else {
            let n = nodes.last();
            let rest = nodes.drop_last();
            assert(n == nodes[nodes.len() - 1]);
            assert forall|i: int| 0 <= i < rest.len() implies (#[trigger] rest[i]).0 < 128
                && rest[i].1 < 0x200_0000 by {
                assert(rest[i] == nodes[i]);
            }
            self.lemma_sorted_nodes(m, out, rest);
            self.lemma_sorting_one_more(rest, n);
            assert(rest.push(n) =~= nodes);
            vstd::seq_lib::to_multiset_build(rest, n);
            let e = entry_of(self.scale_at(n), n);
            lemma_entry_of(self.scale_at(n), n);
            let total = out.to_multiset().add(nodes_of(m)).add(rest.to_multiset());
            assert(out.to_multiset().add(nodes_of(m)).add(nodes.to_multiset()) =~= total.insert(n));
            if self.small(n) {
                assert(out + self.settled(nodes) =~= (out + self.settled(rest)).push(n));
                vstd::seq_lib::to_multiset_build(out + self.settled(rest), n);
                assert((out + self.settled(nodes)).to_multiset().add(
                    nodes_of(m.add(self.pending(nodes).to_multiset())),
                ) =~= total.insert(n));
            } else {
                vstd::seq_lib::to_multiset_build(self.pending(rest), e);
                let before = m.add(self.pending(rest).to_multiset());
                assert(m.add(self.pending(nodes).to_multiset()) =~= before.insert(e));
                lemma_nodes_of_insert(before, e);
                assert((out + self.settled(nodes)).to_multiset().add(
                    nodes_of(m.add(self.pending(nodes).to_multiset())),
                ) =~= total.insert(n));
            }
        }
    }

    /// A round leaves the cut as it is, or replaces one node of it, the largest of the
    /// frontier, by its children. A round that ends the traversal leaves it as it is.
    pub proof fn law_round_refines_cut(self, c: Progress)
        requires
            fits(self.trees),
            self.step_sound(c),
        ensures
            match self.step(c) {
                Step::Done(d) => d.cut() == c.cut(),
                Step::More(d) => {
                    ||| d.cut() == c.cut()
                    ||| {
                        &&& kid_nodes(self.trees, c.top().node()).len() > 0
                        &&& c.cut().count(c.top().node()) > 0
                        &&& d.cut() == refined(kids_in(self.trees), c.cut(), c.top().node())
                    }
                },
            },
    {
        broadcast use group_to_multiset_ensures;

        let top = c.top();
        let n = top.node();
        if self.step(c) is More {
            let d = self.step(c)->More_0;
            lemma_top_exists(c.frontier);
            assert(is_top(c.frontier, top));
            lemma_nodes_of_remove(c.frontier, top);
            let kids = kid_nodes(self.trees, n);
            let rest = c.frontier.remove(top);
            if d.output == c.output.push(n) && d.frontier == rest {
                vstd::seq_lib::to_multiset_build(c.output, n);
                assert(d.cut() =~= c.cut());
            } else {
                let tree = self.trees[n.0 as int];
                assert(tree.splats@.len() <= 0x200_0000);
                assert forall|i: int| 0 <= i < kids.len() implies (#[trigger] kids[i]).0 < 128
                    && kids[i].1 < 0x200_0000 by {
                    assert(kids[i].1 == tree.kids(n.1)[i]);
                }
                self.lemma_sorted_nodes(rest, c.output, kids);
                assert(d.cut() == c.output.to_multiset().add(nodes_of(rest)).add(
                    kids.to_multiset(),
                ));
                assert(c.cut().remove(n) =~= c.output.to_multiset().add(nodes_of(rest)));
                assert(d.cut() =~= refined(kids_in(self.trees), c.cut(), n));
            }
        }
    }

    /// A round in which a node has children at hand replaces it by them.
    pub(crate) proof fn lemma_round_cut(self, c: Progress)
        requires
            fits(self.trees),
            self.step_sound(c),
            self.step(c) is More,
            self.trees[c.top().instance() as int].splats@[c.top().slot() as int].child_count > 0,
            kid_nodes(self.trees, c.top().node()).len() > 0,
        ensures
            c.cut().count(c.top().node()) > 0,
            (self.step(c)->More_0).cut() == c.cut().remove(c.top().node()).add(
                kid_nodes(self.trees, c.top().node()).to_multiset(),
            ),
    {
        broadcast use group_to_multiset_ensures;

        let top = c.top();
        let n = top.node();
        let d = self.step(c)->More_0;
        lemma_top_exists(c.frontier);
        assert(is_top(c.frontier, top));
        lemma_nodes_of_remove(c.frontier, top);
        let kids = kid_nodes(self.trees, n);
        let rest = c.frontier.remove(top);
        let tree = self.trees[n.0 as int];
        assert(tree.splats@.len() <= 0x200_0000);
        assert forall|i: int| 0 <= i < kids.len() implies (#[trigger] kids[i]).0 < 128
            && kids[i].1 < 0x200_0000 by {
            assert(kids[i].1 == tree.kids(n.1)[i]);
        }
        self.lemma_sorted_nodes(rest, c.output, kids);
        assert(c.cut().remove(n) =~= c.output.to_multiset().add(nodes_of(rest)));
        assert(d.cut() =~= c.cut().remove(n).add(kids.to_multiset()));
    }

    /// A node that a round brings into the cut is a child of a node that was in the cut before
    /// it: the cut only ever gets finer.
    pub proof fn law_new_nodes_have_their_parent_in_the_cut_before(self, c: Progress, x: CutNode)
        requires
            fits(self.trees),
            self.step_sound(c),
            self.step(c) is More,
            (self.step(c)->More_0).cut().count(x) > 0,
            c.cut().count(x) == 0,
        ensures
            exists|n: CutNode|
                c.cut().count(n) > 0 && #[trigger] kid_nodes(self.trees, n).contains(x),
    {
        broadcast use group_to_multiset_ensures;

        self.law_round_refines_cut(c);
        let n = c.top().node();
        assert(kid_nodes(self.trees, n).to_multiset().count(x) > 0);
        assert(kid_nodes(self.trees, n).contains(x));
    }

    /// If the traversal starts from a valid cut, output and frontier are together a valid cut
    /// after every round.
    pub proof fn law_cut_stays_valid(self, roots: Set<CutNode>, c: Progress, k: nat)
        requires
            fits(self.trees),
            is_forest(roots, kids_in(self.trees)),
            valid_cut(roots, kids_in(self.trees), c.cut()),
            self.after(c, k) is Some,
            forall|j: nat| j < k ==> self.step_sound((#[trigger] self.after(c, j))->0),
        ensures
            valid_cut(roots, kids_in(self.trees), (self.after(c, k)->0).cut()),
        decreases k,
    {
        if k > 0 {
            let before = self.after(c, (k - 1) as nat)->0;
            self.law_cut_stays_valid(roots, c, (k - 1) as nat);
            assert(self.step_sound(before));
            self.law_round_refines_cut(before);
            let now = self.after(c, k)->0;
            if now.cut() != before.cut() {
                law_refining_keeps_cut_valid(
                    roots,
                    kids_in(self.trees),
                    before.cut(),
                    before.top().node(),
                );
            }
        }
    }

    /// Wherever the traversal is paused, and where it ends, it leaves a valid cut, if it
    /// started from one.
    pub proof fn law_every_exit_leaves_a_valid_cut(
        self,
        roots: Set<CutNode>,
        c: Progress,
        d: Progress,
    )
        requires
            fits(self.trees),
            is_forest(roots, kids_in(self.trees)),
            valid_cut(roots, kids_in(self.trees), c.cut()),
            self.completes(c),
            self.finishes(c, d) || self.passes(c, d),
        ensures
            valid_cut(roots, kids_in(self.trees), d.cut()),
    {
        let last = choose|k: nat| self.halts_after(c, k);
        if self.finishes(c, d) {
            let k = choose|k: nat|
                (#[trigger] self.after(c, k)) matches Some(m) && self.step(m) == Step::Done(d);
            self.lemma_no_round_past_the_last(c, last, k);
            self.law_cut_stays_valid(roots, c, k);
            assert(self.step_sound(self.after(c, k)->0));
            self.law_round_refines_cut(self.after(c, k)->0);
        } else {
            let k = choose|k: nat| #[trigger] self.after(c, k) == Some(d);
            self.lemma_no_round_past_the_last(c, last, k);
            self.law_cut_stays_valid(roots, c, k);
        }
    }

    /// A traversal stays within the trees that it started in.
    proof fn lemma_rounds_stay_in_trees(self, c: Progress, k: nat)
        requires
            fits(self.trees),
            self.after(c, k) is Some,
            forall|j: nat| j < k ==> self.step_sound((#[trigger] self.after(c, j))->0),
            forall|x: CutNode| #[trigger] c.cut().count(x) > 0 ==> x.0 < self.trees.len(),
        ensures
            forall|x: CutNode| #[trigger]
                (self.after(c, k)->0).cut().count(x) > 0 ==> x.0 < self.trees.len(),
        decreases k,
    {
        broadcast use group_to_multiset_ensures;

        if k > 0 {
            let before = self.after(c, (k - 1) as nat)->0;
            let now = self.after(c, k)->0;
            self.lemma_rounds_stay_in_trees(c, (k - 1) as nat);
            assert(self.step_sound(before));
            self.law_round_refines_cut(before);
            let n = before.top().node();
            assert forall|x: CutNode| #[trigger] now.cut().count(x) > 0 implies x.0
                < self.trees.len() by {
                if before.cut().count(x) == 0 {
                    assert(kid_nodes(self.trees, n).to_multiset().count(x) > 0);
                    assert(kid_nodes(self.trees, n).contains(x));
                }
            }
        }
    }

    /// Every node of the cut that a traversal ends with is one of its trees, if that was so of
    /// the cut it started with; and the cut is within the budget, or no larger than at the start.
    pub proof fn law_end_is_in_trees_and_budget(self, c: Progress, d: Progress)
        requires
            fits(self.trees),
            self.completes(c),
            self.finishes(c, d),
            forall|x: CutNode| #[trigger] c.cut().count(x) > 0 ==> x.0 < self.trees.len(),
        ensures
            forall|x: CutNode| #[trigger] d.cut().count(x) > 0 ==> x.0 < self.trees.len(),
            d.num_splats <= self.max_splats || d.num_splats == c.num_splats,
    {
        let last = choose|k: nat| self.halts_after(c, k);
        let k = choose|k: nat|
            (#[trigger] self.after(c, k)) matches Some(m) && self.step(m) == Step::Done(d);
        self.lemma_no_round_past_the_last(c, last, k);
        let m = self.after(c, k)->0;
        self.lemma_rounds_stay_in_trees(c, k);
        assert(self.step_sound(m));
        self.law_round_refines_cut(m);
        self.law_budget_is_respected(c, k);
        self.lemma_round_keeps_budget(m);
    }

    pub(crate) proof fn lemma_no_round_past_the_last(self, c: Progress, last: nat, k: nat)
        requires
            self.after(c, last) matches Some(m) && self.step(m) is Done,
            self.after(c, k) is Some,
        ensures
            k <= last,
    {
        if k > last {
            self.lemma_rounds_before(c, k, last);
        }
    }

    /// Where the traversal ends does not depend on how it got there: two runs from one state
    /// end in one state.
    pub proof fn law_end_is_determined(self, c: Progress, d: Progress, e: Progress)
        requires
            self.finishes(c, d),
            self.finishes(c, e),
        ensures
            d == e,
    {
        let k = choose|k: nat|
            (#[trigger] self.after(c, k)) matches Some(m) && self.step(m) == Step::Done(d);
        let l = choose|k: nat|
            (#[trigger] self.after(c, k)) matches Some(m) && self.step(m) == Step::Done(e);
        self.lemma_no_round_past_the_last(c, k, l);
        self.lemma_no_round_past_the_last(c, l, k);
    }

    /// Rounds add up: `k` rounds on from the state after `j` are `j + k` rounds.
    pub(crate) proof fn lemma_rounds_add_up(self, c: Progress, j: nat, k: nat)
        requires
            self.after(c, j) is Some,
        ensures
            self.after(c, j + k) == self.after(self.after(c, j)->0, k),
        decreases k,
    {
        if k > 0 {
            self.lemma_rounds_add_up(c, j, (k - 1) as nat);
            assert((j + k - 1) as nat == j + (k - 1) as nat);
        }
    }

    /// A traversal that was paused and resumed ends as the one that ran through.
    pub proof fn law_sliced_run_equals_atomic(
        self,
        c: Progress,
        paused: Progress,
        sliced: Progress,
        atomic: Progress,
    )
        requires
            self.passes(c, paused),
            self.finishes(paused, sliced),
            self.finishes(c, atomic),
        ensures
            sliced == atomic,
    {
        let j = choose|k: nat| #[trigger] self.after(c, k) == Some(paused);
        let k = choose|k: nat|
            (#[trigger] self.after(paused, k)) matches Some(m) && self.step(m) == Step::Done(
                sliced,
            );
        self.lemma_rounds_add_up(c, j, k);
        assert(self.after(c, j + k) is Some);
        assert(self.finishes(c, sliced));
        self.law_end_is_determined(c, sliced, atomic);
    }

    /// A pause on the way from a pause is a pause on the way from the start, so that all this
    /// holds of any number of slices.
    pub proof fn law_pauses_add_up(self, c: Progress, first: Progress, second: Progress)
        requires
            self.passes(c, first),
            self.passes(first, second),
        ensures
            self.passes(c, second),
    {
        let j = choose|k: nat| #[trigger] self.after(c, k) == Some(first);
        let k = choose|k: nat| #[trigger] self.after(first, k) == Some(second);
        self.lemma_rounds_add_up(c, j, k);
        assert(self.after(c, j + k) == Some(second));
    }

    /// A traversal that can come to its end can still do so after a pause.
    pub proof fn law_pause_leaves_the_rest_to_do(self, c: Progress, paused: Progress)
        requires
            self.completes(c),
            self.passes(c, paused),
        ensures
            self.completes(paused),
    {
        let last = choose|k: nat| self.halts_after(c, k);
        let j = choose|k: nat| #[trigger] self.after(c, k) == Some(paused);
        self.lemma_no_round_past_the_last(c, last, j);
        let left = (last - j) as nat;
        self.lemma_rounds_add_up(c, j, left);
        assert forall|i: nat| i <= left implies self.step_sound(
            (#[trigger] self.after(paused, i))->0,
        ) by {
            self.lemma_rounds_add_up(c, j, i);
            assert(self.step_sound(self.after(c, j + i)->0));
        }
        assert(self.halts_after(paused, left));
    }

    /// The counters count: the cut has as many nodes as is booked.
    pub proof fn law_number_is_size_of_cut(self, c: Progress)
        requires
            c.consistent(),
        ensures
            c.cut().len() == c.num_splats,
    {
        broadcast use group_to_multiset_ensures;

        lemma_nodes_of_len(c.frontier);
    }

    /// A round never takes the number of nodes over the budget.
    pub(crate) proof fn lemma_round_keeps_budget(self, c: Progress)
        ensures
            match self.step(c) {
                Step::Done(d) => d.num_splats == c.num_splats,
                Step::More(d) => d.num_splats == c.num_splats || d.num_splats <= self.max_splats,
            },
    {
    }

    /// At every pause the cut is within the budget, unless it already exceeded it at the
    /// start, and then it has not grown.
    pub proof fn law_budget_is_respected(self, c: Progress, k: nat)
        requires
            self.after(c, k) is Some,
        ensures
            (self.after(c, k)->0).num_splats <= self.max_splats || (self.after(c, k)->0).num_splats
                == c.num_splats,
        decreases k,
    {
        if k > 0 {
            self.law_budget_is_respected(c, (k - 1) as nat);
            self.lemma_round_keeps_budget(self.after(c, (k - 1) as nat)->0);
        }
    }

    /// The traversal always works on a node that no other frontier node exceeds on screen.
    pub proof fn law_largest_node_comes_first(self, c: Progress, e: Entry)
        requires
            c.frontier.count(e) > 0,
            e.scale() == clamped(e.scale()),
            c.top().scale() == clamped(c.top().scale()),
        ensures
            rank(e.scale()) <= rank(c.top().scale()),
    {
        assert(c.frontier.count(e) <= c.frontier.len());
        lemma_top_exists(c.frontier);
        assert(is_top(c.frontier, c.top()));
        law_entries_order_like_tuples(c.top(), e);
    }

    /// When the traversal is over, nothing is left in the frontier, or everything left there
    /// is small enough, or the largest node left there has children that the budget has no
    /// room for.
    pub proof fn law_end_is_justified(self, c: Progress)
        requires
            self.step(c) is Done,
            forall|e: Entry| #[trigger] c.frontier.count(e) > 0 ==> e.scale() == clamped(e.scale()),
        ensures
            ({
                let splat = self.trees[c.top().instance() as int].splats@[c.top().slot() as int];
                ||| c.frontier.len() == 0
                ||| forall|e: Entry| #[trigger]
                    c.frontier.count(e) > 0 ==> scale_le(e.scale(), self.limit)
                ||| splat.child_count > 0 && c.num_splats - 1 + splat.child_count
                    > self.max_splats
            }),
    {
        if c.frontier.len() > 0 && scale_le(c.top().scale(), self.limit) {
            lemma_top_exists(c.frontier);
            assert(c.frontier.count(c.top()) > 0);
            assert forall|e: Entry| #[trigger] c.frontier.count(e) > 0 implies scale_le(
                e.scale(),
                self.limit,
            ) by {
                self.law_largest_node_comes_first(c, e);
                law_clamped(e.scale());
            }
        }
    }

    /// A node with children that are not all resident stays in the cut, in the output, and the
    /// chunks of its children are noted, so that they can be fetched.
    pub proof fn law_missing_children_keep_their_parent(self, c: Progress)
        requires
            fits(self.trees),
            self.step_sound(c),
            c.frontier.len() > 0,
            !scale_le(c.top().scale(), self.limit),
            ({
                let tree = self.trees[c.top().instance() as int];
                let splat = tree.splats@[c.top().slot() as int];
                &&& splat.child_count > 0
                &&& c.num_splats - 1 + splat.child_count <= self.max_splats
                &&& !tree.has_chunk(tree.first_chunk(c.top().slot())) || !tree.has_chunk(
                    tree.last_chunk(c.top().slot()),
                )
            }),
        ensures
            ({
                let tree = self.trees[c.top().instance() as int];
                &&& self.step(c) matches Step::More(d)
                &&& d.cut() == c.cut()
                &&& d.output == c.output.push(c.top().node())
                &&& d.touched.contains((tree.lod_id, tree.first_chunk(c.top().slot()) as u32))
                &&& d.touched.contains((tree.lod_id, tree.last_chunk(c.top().slot()) as u32))
            }),
    {
        let tree = self.trees[c.top().instance() as int];
        let first = (tree.lod_id, tree.first_chunk(c.top().slot()) as u32);
        let last = (tree.lod_id, tree.last_chunk(c.top().slot()) as u32);
        self.law_round_refines_cut(c);
        lemma_with_chunk(c.touched, first);
        lemma_with_chunk(with_chunk(c.touched, first), last);
    }

    /// The list of chunks only grows, at its end, and lists none twice.
    pub proof fn law_touched_chunks_only_grow(self, c: Progress, k: nat)
        requires
            self.after(c, k) is Some,
        ensures
            c.touched.is_prefix_of((self.after(c, k)->0).touched),
            c.touched.no_duplicates() ==> (self.after(c, k)->0).touched.no_duplicates(),
        decreases k,
    {
        if k > 0 {
            self.law_touched_chunks_only_grow(c, (k - 1) as nat);
        }
    }
}

proof fn lemma_with_chunk(touched: Seq<(u32, u32)>, key: (u32, u32))
    ensures
        with_chunk(touched, key).contains(key),
        forall|k: (u32, u32)| #[trigger]
            touched.contains(k) ==> with_chunk(touched, key).contains(k),
{
    assert(touched.push(key).last() == key);
    assert forall|k: (u32, u32)| #[trigger] touched.contains(k) implies with_chunk(
        touched,
        key,
    ).contains(k) by {
        let i = choose|i: int| 0 <= i < touched.len() && touched[i] == k;
        assert(touched.push(key)[i] == k);
    }
}

/// The roots of the trees.
pub open spec fn root_nodes(trees: Seq<TreeView>, root_pages: Seq<u32>) -> Set<CutNode> {
    Set::new(
        |n: CutNode| n.0 < trees.len() && n.1 == root_slot(root_pages[n.0 as int]),
    )
}

proof fn lemma_seeded_cut(
    trees: Seq<TreeView>,
    root_pages: Seq<u32>,
    measure: spec_fn(LodSplat, InstanceParams) -> Scale,
    n: nat,
    x: CutNode,
)
    requires
        fits(trees),
        rooted(trees, root_pages),
        n <= trees.len(),
    ensures
        seeded(trees, root_pages, measure, unseeded(), n).output == Seq::<CutNode>::empty(),
        nodes_of(seeded(trees, root_pages, measure, unseeded(), n).frontier).count(x) == (if x.0
            < n && x.1 == root_slot(root_pages[x.0 as int]) {
            1nat
        } else {
            0nat
        }),
    decreases n,
{
    if n > 0 {
        lemma_seeded_cut(trees, root_pages, measure, (n - 1) as nat, x);
        let d = seeded(trees, root_pages, measure, unseeded(), (n - 1) as nat);
        let root = root_slot(root_pages[n - 1]);
        assert(root < trees[n - 1].splats@.len());
        let key = measure(trees[n - 1].splats@[root as int], trees[n - 1].params);
        lemma_entry_of(key, ((n - 1) as u32, root));
        lemma_nodes_of_insert(d.frontier, entry_of(key, ((n - 1) as u32, root)));
    }
}

/// A traversal that was just seeded has the roots in its cut, each once, and nothing else.
pub proof fn law_seeded_cut_is_the_roots(
    trees: Seq<TreeView>,
    root_pages: Seq<u32>,
    measure: spec_fn(LodSplat, InstanceParams) -> Scale,
)
    requires
        fits(trees),
        rooted(trees, root_pages),
    ensures
        forall|n: CutNode| #[trigger]
            seeded(trees, root_pages, measure, unseeded(), trees.len()).cut().count(n) == (
            if root_nodes(trees, root_pages).contains(n) {
                1nat
            } else {
                0nat
            }),
{
    broadcast use group_to_multiset_ensures;

    let start = seeded(trees, root_pages, measure, unseeded(), trees.len());
    let roots = root_nodes(trees, root_pages);
    assert forall|n: CutNode| #[trigger]
        start.cut().count(n) == (if roots.contains(n) {
            1nat
        } else {
            0nat
        }) by {
        lemma_seeded_cut(trees, root_pages, measure, trees.len(), n);
        assert(start.output.to_multiset().len() == 0);
    }
}

/// A traversal that was just seeded starts from a valid cut.
pub proof fn law_seeded_cut_is_valid(
    trees: Seq<TreeView>,
    root_pages: Seq<u32>,
    measure: spec_fn(LodSplat, InstanceParams) -> Scale,
)
    requires
        fits(trees),
        rooted(trees, root_pages),
        is_forest(root_nodes(trees, root_pages), kids_in(trees)),
    ensures
        valid_cut(
            root_nodes(trees, root_pages),
            kids_in(trees),
            seeded(trees, root_pages, measure, unseeded(), trees.len()).cut(),
        ),
{
    law_seeded_cut_is_the_roots(trees, root_pages, measure);
    law_roots_are_a_valid_cut(
        root_nodes(trees, root_pages),
        kids_in(trees),
        seeded(trees, root_pages, measure, unseeded(), trees.len()).cut(),
    );
}

/// Sum of a quantity over a collection of entries.
spec fn total(m: Multiset<Entry>, f: spec_fn(CutNode) -> nat) -> nat
    decreases m.len(),
{
    if m.len() == 0 {
        0
    } else {
        total(m.remove(m.choose()), f) + f(m.choose().node())
    }
}

proof fn lemma_total_remove(m: Multiset<Entry>, f: spec_fn(CutNode) -> nat, e: Entry)
    requires
        m.count(e) > 0,
    ensures
        total(m, f) == total(m.remove(e), f) + f(e.node()),
    decreases m.len(),
{
    let g = m.choose();
    if m.len() == 0 {
        assert(m.count(e) <= m.len());
    }
    assert(m.count(g) > 0);
    if g != e {
        let rest = m.remove(g);
        assert(rest.count(e) > 0);
        lemma_total_remove(rest, f, e);
        let fewer = m.remove(e);
        assert(fewer.count(g) > 0);
        lemma_total_remove(fewer, f, g);
        assert(fewer.remove(g) =~= rest.remove(e));
    }
}

/// Every node of `depth` is sound and has its children there too, and going down by only
/// children does not go on for ever: an only child has less depth than its parent.
pub open spec fn explored(trees: Seq<TreeView>, depth: Map<CutNode, nat>) -> bool {
    forall|n: CutNode| #[trigger]
        depth.contains_key(n) ==> {
            &&& n.0 < trees.len()
            &&& trees[n.0 as int].sound_at(n.1)
            &&& forall|i: int|
                0 <= i < kid_nodes(trees, n).len() ==> depth.contains_key(
                    #[trigger] kid_nodes(trees, n)[i],
                )
            &&& kid_nodes(trees, n).len() == 1 ==> depth[kid_nodes(trees, n)[0]] < depth[n]
        }
}

impl<'a> Job<'a> {
    /// Every node of the frontier is one of `depth`.
    pub open spec fn starts_within(self, c: Progress, depth: Map<CutNode, nat>) -> bool {
        forall|e: Entry| #[trigger] c.frontier.count(e) > 0 ==> depth.contains_key(e.node())
    }

    /// A round that goes on keeps the books and stays within the explored nodes, and leaves
    /// less to do.
    proof fn lemma_round_leaves_less(self, c: Progress, depth: Map<CutNode, nat>)
        requires
            fits(self.trees),
            explored(self.trees, depth),
            c.consistent(),
            self.starts_within(c, depth),
            self.step(c) is More,
        ensures
            self.step_sound(c),
            (self.step(c)->More_0).consistent(),
            self.starts_within(self.step(c)->More_0, depth),
            self.budget_left(self.step(c)->More_0) < self.budget_left(c) || (self.budget_left(
                self.step(c)->More_0,
            ) == self.budget_left(c) && total(
                (self.step(c)->More_0).frontier,
                |n: CutNode| 1 + depth[n],
            ) < total(c.frontier, |n: CutNode| 1 + depth[n])),
    {
        broadcast use group_to_multiset_ensures;

        let f = |n: CutNode| 1 + depth[n];
        let top = c.top();
        let n = top.node();
        let d = self.step(c)->More_0;
        let rest = c.frontier.remove(top);
        lemma_top_exists(c.frontier);
        assert(is_top(c.frontier, top));
        assert(depth.contains_key(n));
        lemma_total_remove(c.frontier, f, top);
        assert forall|e: Entry| #[trigger] rest.count(e) > 0 implies depth.contains_key(
            e.node(),
        ) by {
            assert(c.frontier.count(e) > 0);
        }
        let tree = self.trees[n.0 as int];
        let kids = kid_nodes(self.trees, n);
        if kids.len() > 0 && tree.splats@[n.1 as int].child_count > 0 {
            self.lemma_sorting_keeps_number(kids);
            let new = self.pending(kids).to_multiset();
            assert forall|e: Entry| #[trigger] new.count(e) > 0 implies depth.contains_key(
                e.node(),
            ) && kids.contains(e.node()) by {
                assert(self.pending(kids).contains(e));
                let big = |x: CutNode| !self.small(x);
                let i = choose|i: int|
                    0 <= i < self.pending(kids).len() && self.pending(kids)[i] == e;
                let x = kids.filter(big)[i];
                assert(kids.filter(big).contains(x));
                kids.lemma_filter_contains_rev(big, x);
                let j = choose|j: int| 0 <= j < kids.len() && kids[j] == x;
                assert(kids[j].1 == tree.kids(n.1)[j]);
                assert(tree.kids(n.1)[j] < tree.splats@.len());
                assert(tree.splats@.len() <= 0x200_0000);
                lemma_entry_of(self.scale_at(x), x);
                assert(e == entry_of(self.scale_at(x), x));
                assert(e.node() == x);
            }
            assert(d.frontier == rest.add(new));
            assert(kids.len() == tree.splats@[n.1 as int].child_count);
            if kids.len() == 1 {
                if self.pending(kids).len() == 0 {
                    assert(new.len() == 0);
                    assert(d.frontier =~= rest);
                } else {
                    let e = self.pending(kids)[0];
                    assert(self.pending(kids).contains(e));
                    assert(new.count(e) > 0);
                    assert(new.len() == 1);
                    assert(new.remove(e).len() == 0);
                    assert(rest.add(new).remove(e) =~= rest);
                    lemma_total_remove(rest.add(new), f, e);
                    assert(kids.contains(e.node()));
                }
            }
        }
    }

    spec fn budget_left(self, c: Progress) -> int {
        if c.num_splats < self.max_splats {
            self.max_splats - c.num_splats
        } else {
            0
        }
    }

    /// On trees whose nodes are sound and that do not go down for ever by only children, a
    /// traversal comes to its end.
    pub proof fn law_explored_trees_are_finished(self, c: Progress, depth: Map<CutNode, nat>)
        requires
            fits(self.trees),
            explored(self.trees, depth),
            c.consistent(),
            self.starts_within(c, depth),
        ensures
            self.completes(c),
    {
        self.lemma_rounds_run_out(c, depth);
    }

    proof fn lemma_rounds_run_out(self, c: Progress, depth: Map<CutNode, nat>)
        requires
            fits(self.trees),
            explored(self.trees, depth),
            c.consistent(),
            self.starts_within(c, depth),
        ensures
            self.completes(c),
        decreases self.budget_left(c), total(c.frontier, |n: CutNode| 1 + depth[n]),
    {
        if c.frontier.len() > 0 {
            lemma_top_exists(c.frontier);
            assert(is_top(c.frontier, c.top()));
            assert(depth.contains_key(c.top().node()));
        }
        if self.step(c) is Done {
            assert forall|j: nat| j <= 0 implies self.step_sound(
                (#[trigger] self.after(c, j))->0,
            ) by {
                assert(self.after(c, 0) == Some(c));
            }
            assert(self.halts_after(c, 0));
        } else {
            let d = self.step(c)->More_0;
            self.lemma_round_leaves_less(c, depth);
            self.lemma_rounds_run_out(d, depth);
            let k = choose|k: nat| self.halts_after(d, k);
            assert(self.after(c, 0) == Some(c));
            assert(self.after(c, 1) == Some(d)) by {
                reveal_with_fuel(Job::after, 2);
            }
            self.lemma_rounds_add_up(c, 1, k);
            assert forall|j: nat| j <= 1 + k implies self.step_sound(
                (#[trigger] self.after(c, j))->0,
            ) by {
                if j > 0 {
                    self.lemma_rounds_add_up(c, 1, (j - 1) as nat);
                    assert(self.step_sound(self.after(d, (j - 1) as nat)->0));
                    assert(1 + (j - 1) as nat == j);
                }
            }
            assert(self.halts_after(c, 1 + k));
        }
    }
}

} // verus!
