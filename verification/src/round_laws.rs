//! What one round of a traversal does to the node that it works on.

use vstd::prelude::*;
use vstd::seq_lib::group_to_multiset_ensures;

use crate::entry::{CutNode, Entry};
use crate::heap::{is_top, popped, pushed, pushed_all};
use crate::scale::{clamped, nan, rank, scale_le, Scale};
use crate::splat::LodSplat;
use crate::screen_laws::{
    child_node, children_in, law_children_are_where_the_pages_say, on_screen, page_start,
};
use crate::traverse::{
    entry_of, rooted, seeded, seeded_list, unseeded, Job, LoopExit, Progress, Step,
};
use crate::traverse_laws::lemma_entry_of;
use crate::tree_view::{fits, kid_nodes, InstanceParams, TreeView};

verus! {

/// Roots are put into the frontier's list instance by instance, each from the first slot of its
/// page and under the scale that it measures under the pose of its instance.
pub proof fn law_roots_enter_the_list_in_order(
    trees: Seq<TreeView>,
    root_pages: Seq<u32>,
    measure: spec_fn(LodSplat, InstanceParams) -> Scale,
    list: Seq<Entry>,
    n: nat,
) -> (e: Entry)
    requires
        fits(trees),
        rooted(trees, root_pages),
        n < trees.len(),
    ensures
        seeded_list(trees, root_pages, measure, list, 0) == list,
        seeded_list(trees, root_pages, measure, list, n + 1) == pushed(
            seeded_list(trees, root_pages, measure, list, n),
            e,
        ),
        e.instance() == n,
        e.slot() == page_start(root_pages[n as int]),
        e.scale() == clamped(
            measure(
                trees[n as int].splats@[page_start(root_pages[n as int])],
                trees[n as int].params,
            ),
        ),
{
    let at = page_start(root_pages[n as int]);
    let tree = trees[n as int];
    assert(crate::traverse::root_slot(root_pages[n as int]) == at);
    assert(at < tree.splats@.len());
    let key = measure(tree.splats@[at], tree.params);
    lemma_entry_of(key, (n as u32, at as u32));
    entry_of(key, (n as u32, at as u32))
}

/// Seeding notes chunk 0 of each tree, in the order of the instances, and no id twice.
pub proof fn law_roots_note_their_chunks_in_order(
    trees: Seq<TreeView>,
    root_pages: Seq<u32>,
    measure: spec_fn(LodSplat, InstanceParams) -> Scale,
    n: nat,
)
    requires
        n < trees.len(),
    ensures
        ({
            let before = seeded(trees, root_pages, measure, unseeded(), n).touched;
            let after = seeded(trees, root_pages, measure, unseeded(), n + 1).touched;
            let key = (trees[n as int].lod_id, 0u32);
            &&& seeded(trees, root_pages, measure, unseeded(), 0).touched.len() == 0
            &&& before.contains(key) ==> after == before
            &&& !before.contains(key) ==> after == before.push(key)
        }),
{
}

/// The state that a round leaves behind.
pub open spec fn left_by(s: Step) -> Progress {
    match s {
        Step::Done(d) => d,
        Step::More(d) => d,
    }
}

/// What is picked out of a list stays in its order.
pub(crate) proof fn lemma_picked_in_order<A>(s: Seq<A>, p: spec_fn(A) -> bool, a: int, b: int)
    requires
        0 <= a < b < s.filter(p).len(),
    ensures
        exists|i: int, j: int|
            0 <= i < j < s.len() && #[trigger] s[i] == s.filter(p)[a] && #[trigger] s[j]
                == s.filter(p)[b],
    decreases s.len(),
{
    reveal(Seq::filter);
    let rest = s.drop_last();
    if b < rest.filter(p).len() {
        lemma_picked_in_order(rest, p, a, b);
        let (i, j) = choose|i: int, j: int|
            0 <= i < j < rest.len() && #[trigger] rest[i] == rest.filter(p)[a] && #[trigger] rest[j]
                == rest.filter(p)[b];
        assert(s[i] == rest[i] && s[j] == rest[j]);
    } else {
        rest.lemma_filter_contains_rev(p, rest.filter(p)[a]);
        let i = choose|i: int| 0 <= i < rest.len() && rest[i] == rest.filter(p)[a];
        assert(s[i] == rest[i]);
        assert(s[s.len() - 1] == s.filter(p)[b]);
    }
}

/// The places of what is picked out of a list.
pub(crate) proof fn lemma_places_of_picked<A>(s: Seq<A>, p: spec_fn(A) -> bool) -> (idx: Seq<int>)
    ensures
        idx.len() == s.filter(p).len(),
        forall|j: int|
            0 <= j < idx.len() ==> 0 <= #[trigger] idx[j] < s.len() && s.filter(p)[j] == s[idx[j]],
        forall|i: int, j: int| 0 <= i < j < idx.len() ==> (#[trigger] idx[i]) < (#[trigger] idx[j]),
        forall|k: int| #[trigger] idx.contains(k) <==> 0 <= k < s.len() && p(s[k]),
    decreases s.len(),
{
    reveal(Seq::filter);
    if s.len() == 0 {
        let idx = Seq::<int>::empty();
        assert forall|k: int| #[trigger] idx.contains(k) <==> 0 <= k < s.len() && p(s[k]) by {}
        idx
    } else {
        let rest = s.drop_last();
        let n = rest.len() as int;
        let less = lemma_places_of_picked(rest, p);
        let idx = if p(s[n]) {
            less.push(n)
        } else {
            less
        };
        assert forall|j: int| 0 <= j < idx.len() implies 0 <= #[trigger] idx[j] < s.len()
            && s.filter(p)[j] == s[idx[j]] by {
            if j < less.len() {
                assert(idx[j] == less[j]);
                assert(rest[less[j]] == s[less[j]]);
            }
        }
        assert forall|k: int| #[trigger] idx.contains(k) <==> 0 <= k < s.len() && p(s[k]) by {
            if idx.contains(k) {
                let j = choose|j: int| 0 <= j < idx.len() && idx[j] == k;
                if j < less.len() {
                    assert(less[j] == k);
                    assert(less.contains(k));
                    assert(rest[k] == s[k]);
                }
            }
            if 0 <= k < n && p(s[k]) {
                assert(rest[k] == s[k]);
                assert(less.contains(k));
                let j = choose|j: int| 0 <= j < less.len() && less[j] == k;
                assert(idx[j] == k);
            }
            if k == n && p(s[n]) {
                assert(idx[less.len() as int] == n);
            }
        }
        idx
    }
}

proof fn lemma_the_top(c: Progress, top: Entry)
    requires
        is_top(c.frontier, top),
    ensures
        c.top() == top,
        c.frontier.len() > 0,
{
    let f = c.top();
    assert(is_top(c.frontier, f));
    assert(c.frontier.count(f) > 0);
    assert(c.frontier.count(top) > 0);
    assert(c.frontier.count(top) <= c.frontier.len());
}

impl<'a> Job<'a> {
    /// A traversal is over exactly if its frontier is empty, or the largest node there is small
    /// enough, or has children that do not fit the budget; and nothing but the smallest scale
    /// changes then.
    pub proof fn law_round_ends_the_traversal_exactly_there(self, c: Progress, top: Entry)
        ensures
            c.frontier.len() == 0 ==> self.step(c) == Step::Done(c),
            is_top(c.frontier, top) ==> {
                let splat = self.trees[top.instance() as int].splats@[top.slot() as int];
                &&& self.step(c) is Done <==> {
                    ||| scale_le(top.scale(), self.limit)
                    ||| splat.child_count > 0 && c.num_splats - 1 + splat.child_count
                        > self.max_splats
                }
                &&& self.step(c) matches Step::Done(d) ==> d == (Progress {
                    min_pixel_scale: d.min_pixel_scale,
                    ..c
                })
            },
    {
        if is_top(c.frontier, top) {
            lemma_the_top(c, top);
        }
    }

    /// The smallest scale that is noted is that of the node a round has worked on, or the one
    /// before; and neither is smaller.
    pub proof fn law_round_notes_the_smaller_scale(self, c: Progress, top: Entry)
        requires
            is_top(c.frontier, top),
        ensures
            ({
                let seen = left_by(self.step(c)).min_pixel_scale;
                &&& seen == c.min_pixel_scale || seen == top.scale()
                &&& !nan(c.min_pixel_scale) ==> !nan(seen) && rank(seen) <= rank(c.min_pixel_scale)
                &&& !nan(top.scale()) ==> !nan(seen) && rank(seen) <= rank(top.scale())
            }),
    {
        lemma_the_top(c, top);
    }

    /// A node that has no children, or whose children are not resident, goes from the frontier to
    /// the end of the output; only a node without children counts as a leaf.
    pub proof fn law_round_puts_a_node_out(self, c: Progress, top: Entry)
        requires
            fits(self.trees),
            self.step_sound(c),
            is_top(c.frontier, top),
            self.step(c) is More,
            ({
                let tree = self.trees[top.instance() as int];
                tree.splats@[top.slot() as int].child_count == 0 || !children_in(
                    tree,
                    top.slot() as int,
                )
            }),
        ensures
            ({
                let d = self.step(c)->More_0;
                &&& d.output == c.output.push((top.instance(), top.slot()))
                &&& d.frontier == c.frontier.remove(top)
                &&& d.num_splats == c.num_splats
                &&& d.leaf_count == c.leaf_count + (if self.trees[top.instance() as int].splats@[
                    top.slot() as int].child_count == 0 {
                    1int
                } else {
                    0
                })
            }),
    {
        lemma_the_top(c, top);
        let tree = self.trees[top.instance() as int];
        if tree.splats@[top.slot() as int].child_count > 0 {
            law_children_are_where_the_pages_say(tree, top.slot());
        }
    }

    proof fn lemma_children(self, n: CutNode)
        requires
            n.0 < self.trees.len(),
            self.trees[n.0 as int].sound_at(n.1),
            self.trees[n.0 as int].splats@[n.1 as int].child_count > 0,
            children_in(self.trees[n.0 as int], n.1 as int),
        ensures
            kid_nodes(self.trees, n) == Seq::new(
                self.trees[n.0 as int].splats@[n.1 as int].child_count as nat,
                |g: int| child_node(self.trees, n, g),
            ),
    {
        let tree = self.trees[n.0 as int];
        law_children_are_where_the_pages_say(tree, n.1);
        let all = Seq::new(
            tree.splats@[n.1 as int].child_count as nat,
            |g: int| child_node(self.trees, n, g),
        );
        assert forall|g: int| 0 <= g < all.len() implies kid_nodes(self.trees, n)[g] == all[g] by {
            assert(tree.kids(n.1)[g] == crate::screen_laws::child_slot(tree, n.1 as int, g));
        }
        assert(kid_nodes(self.trees, n) =~= all);
    }

    /// A node with resident children that fit is replaced by all of them, each once and each in
    /// its own slot.
    pub proof fn law_round_replaces_a_node_by_all_its_children(self, c: Progress, top: Entry)
        requires
            fits(self.trees),
            self.step_sound(c),
            is_top(c.frontier, top),
            self.step(c) is More,
            ({
                let tree = self.trees[top.instance() as int];
                tree.splats@[top.slot() as int].child_count > 0 && children_in(
                    tree,
                    top.slot() as int,
                )
            }),
        ensures
            ({
                let d = self.step(c)->More_0;
                let n = (top.instance(), top.slot());
                let count = self.trees[n.0 as int].splats@[n.1 as int].child_count;
                &&& d.cut() == c.cut().remove(n).add(
                    Seq::new(count as nat, |g: int| child_node(self.trees, n, g)).to_multiset(),
                )
                &&& c.cut().count(n) > 0
                &&& d.num_splats == c.num_splats - 1 + count
                &&& d.leaf_count == c.leaf_count
            }),
    {
        lemma_the_top(c, top);
        let n = top.node();
        let tree = self.trees[n.0 as int];
        self.lemma_children(n);
        self.law_round_refines_cut(c);
        let d = self.step(c)->More_0;
        let kids = kid_nodes(self.trees, n);
        self.lemma_round_cut(c);
        assert(d.cut() == c.cut().remove(n).add(kids.to_multiset()));
    }

    /// Of the children that replace a node, those that are small enough under the pose of their
    /// instance go to the end of the output, in their order, and the others to the frontier.
    pub proof fn law_children_are_sorted_by_their_size_on_screen(
        self,
        c: Progress,
        top: Entry,
        g: int,
        a: int,
        b: int,
    )
        requires
            fits(self.trees),
            self.step_sound(c),
            is_top(c.frontier, top),
            self.step(c) is More,
            ({
                let tree = self.trees[top.instance() as int];
                let count = tree.splats@[top.slot() as int].child_count;
                count > 0 && children_in(tree, top.slot() as int) && 0 <= g < count
            }),
        ensures
            ({
                let d = self.step(c)->More_0;
                let n = (top.instance(), top.slot());
                let count = self.trees[n.0 as int].splats@[n.1 as int].child_count;
                let x = child_node(self.trees, n, g);
                let size = (self.measure)(
                    self.trees[n.0 as int].splats@[x.1 as int],
                    self.trees[n.0 as int].params,
                );
                &&& c.output.is_prefix_of(d.output)
                &&& scale_le(size, self.limit) ==> d.output.skip(c.output.len() as int).contains(x)
                &&& !scale_le(size, self.limit) ==> exists|e: Entry| #[trigger]
                    d.frontier.count(e) > 0 && e.node() == x
                &&& c.output.len() <= a < b < d.output.len() ==> exists|i: int, j: int|
                    0 <= i < j < count && #[trigger] child_node(self.trees, n, i) == d.output[a]
                        && #[trigger] child_node(self.trees, n, j) == d.output[b]
            }),
    {
        broadcast use group_to_multiset_ensures;

        lemma_the_top(c, top);
        let n = top.node();
        let tree = self.trees[n.0 as int];
        let d = self.step(c)->More_0;
        self.lemma_children(n);
        let kids = kid_nodes(self.trees, n);
        let x = kids[g];
        assert(x == child_node(self.trees, n, g));
        assert(x.1 == tree.kids(n.1)[g]);
        let few = |n: CutNode| self.small(n);
        let big = |n: CutNode| !self.small(n);
        assert(d.output == c.output + self.settled(kids));
        assert(d.output.skip(c.output.len() as int) =~= self.settled(kids));
        if scale_le(on_screen(self.trees, self.measure, x), self.limit) {
            kids.lemma_filter_contains(few, g);
            assert(self.settled(kids) =~= kids.filter(few));
        } else {
            kids.lemma_filter_contains(big, g);
            let rest = kids.filter(big);
            let i = choose|i: int| 0 <= i < rest.len() && rest[i] == x;
            let e = entry_of(self.scale_at(x), x);
            assert(self.pending(kids)[i] == e);
            assert(self.pending(kids).contains(e));
            lemma_entry_of(self.scale_at(x), x);
            assert(d.frontier.count(e) > 0);
        }
        if c.output.len() <= a < b < d.output.len() {
            let off = c.output.len() as int;
            assert(self.settled(kids) =~= kids.filter(few));
            lemma_picked_in_order(kids, few, a - off, b - off);
            let (i, j) = choose|i: int, j: int|
                0 <= i < j < kids.len() && #[trigger] kids[i] == kids.filter(few)[a - off]
                    && #[trigger] kids[j] == kids.filter(few)[b - off];
            assert(child_node(self.trees, n, i) == d.output[a]);
            assert(child_node(self.trees, n, j) == d.output[b]);
        }
    }

    /// Child `g` of a node is not small enough under the pose of their instance.
    pub open spec fn has_large_child(self, n: CutNode, g: int) -> bool {
        let tree = self.trees[n.0 as int];
        let x = child_node(self.trees, n, g);
        &&& 0 <= g < tree.splats@[n.1 as int].child_count
        &&& !scale_le((self.measure)(tree.splats@[x.1 as int], tree.params), self.limit)
    }

    /// The entry stands for child `g` of a node, under the scale that the child measures under
    /// the pose of their instance.
    pub open spec fn enters_as(self, n: CutNode, g: int, e: Entry) -> bool {
        let tree = self.trees[n.0 as int];
        let x = child_node(self.trees, n, g);
        &&& e.instance() == n.0
        &&& e.slot() == x.1
        &&& e.scale() == clamped((self.measure)(tree.splats@[x.1 as int], tree.params))
    }

    /// `idx` lists, in ascending order, the children of a node that are not small enough, and
    /// `es` their entries.
    pub open spec fn lists_large_children(self, n: CutNode, idx: Seq<int>, es: Seq<Entry>) -> bool {
        &&& idx.len() == es.len()
        &&& forall|i: int, j: int|
            0 <= i < j < idx.len() ==> (#[trigger] idx[i]) < (#[trigger] idx[j])
        &&& forall|g: int| #[trigger] idx.contains(g) <==> self.has_large_child(n, g)
        &&& forall|j: int|
            0 <= j < idx.len() ==> self.enters_as(n, #[trigger] idx[j], es[j])
    }

    /// The frontier's list after a round: its first entry is taken out, and those children that
    /// are not small enough are put in one after the other, in their order, each under the scale
    /// that it measures under the pose of its instance.
    pub proof fn law_large_children_enter_the_list_in_order(
        self,
        c: Progress,
        top: Entry,
        list: Seq<Entry>,
    ) -> (r: (Seq<int>, Seq<Entry>))
        requires
            fits(self.trees),
            self.step_sound(c),
            is_top(c.frontier, top),
            self.step(c) is More,
            ({
                let tree = self.trees[top.instance() as int];
                tree.splats@[top.slot() as int].child_count > 0 && children_in(
                    tree,
                    top.slot() as int,
                )
            }),
        ensures
            self.relaid(c, list) == pushed_all(popped(list), r.1),
            self.lists_large_children((top.instance(), top.slot()), r.0, r.1),
    {
        lemma_the_top(c, top);
        let n = top.node();
        let tree = self.trees[n.0 as int];
        let count = tree.splats@[n.1 as int].child_count;
        self.lemma_children(n);
        let kids = kid_nodes(self.trees, n);
        let big = |n: CutNode| !self.small(n);
        let idx = lemma_places_of_picked(kids, big);
        let es = self.pending(kids);
        assert(es =~= kids.filter(big).map_values(|n: CutNode| entry_of(self.scale_at(n), n)));
        assert forall|g: int| #[trigger] idx.contains(g) <==> self.has_large_child(n, g) by {
            if 0 <= g < count {
                assert(kids[g] == child_node(self.trees, n, g));
            }
        }
        assert forall|j: int| 0 <= j < idx.len() implies self.enters_as(
            n,
            #[trigger] idx[j],
            es[j],
        ) by {
            let x = kids[idx[j]];
            assert(x == child_node(self.trees, n, idx[j]));
            assert(es[j] == entry_of(self.scale_at(x), x));
            assert(x.1 == tree.kids(n.1)[idx[j]]);
            lemma_entry_of(self.scale_at(x), x);
        }
        assert(self.lists_large_children(n, idx, es));
        (idx, es)
    }

    /// A round that puts a node out, or is the last, puts nothing into the list: a node that goes
    /// out leaves it, and at the end it stays as it is.
    pub proof fn law_list_of_other_rounds(self, c: Progress, top: Entry, list: Seq<Entry>)
        requires
            fits(self.trees),
            self.step_sound(c),
            is_top(c.frontier, top),
        ensures
            self.step(c) is Done ==> self.relaid(c, list) == list,
            self.step(c) is More && ({
                let tree = self.trees[top.instance() as int];
                tree.splats@[top.slot() as int].child_count == 0 || !children_in(
                    tree,
                    top.slot() as int,
                )
            }) ==> self.relaid(c, list) == popped(list),
    {
        lemma_the_top(c, top);
        let tree = self.trees[top.instance() as int];
        if self.step(c) is More && (tree.splats@[top.slot() as int].child_count == 0
            || !children_in(tree, top.slot() as int)) {
            if tree.splats@[top.slot() as int].child_count > 0 {
                law_children_are_where_the_pages_say(tree, top.slot());
            }
            let kids = kid_nodes(self.trees, top.node());
            assert(kids.len() == 0);
            reveal(Seq::filter);
            assert(self.pending(kids) =~= Seq::empty());
        }
    }

    /// A round over a node with children notes the chunks of its first and of its last child, in
    /// this order and each once, behind what was noted before; one over a leaf notes nothing.
    pub proof fn law_round_notes_the_chunks_of_the_children(self, c: Progress, top: Entry)
        requires
            is_top(c.frontier, top),
            self.step(c) is More,
        ensures
            ({
                let d = self.step(c)->More_0;
                let tree = self.trees[top.instance() as int];
                let splat = tree.splats@[top.slot() as int];
                let low = (tree.lod_id, (splat.child_start as int / 65536) as u32);
                let high = (
                    tree.lod_id,
                    ((splat.child_start + splat.child_count - 1) / 65536) as u32,
                );
                let had_low = c.touched.contains(low);
                let had_high = c.touched.contains(high) || high == low;
                &&& splat.child_count == 0 || had_low && had_high ==> d.touched == c.touched
                &&& splat.child_count > 0 && !had_low && had_high ==> d.touched == c.touched.push(
                    low,
                )
                &&& splat.child_count > 0 && had_low && !had_high ==> d.touched == c.touched.push(
                    high,
                )
                &&& splat.child_count > 0 && !had_low && !had_high ==> d.touched == c.touched.push(
                    low,
                ).push(high)
            }),
    {
        lemma_the_top(c, top);
        let tree = self.trees[top.instance() as int];
        let splat = tree.splats@[top.slot() as int];
        let low = (tree.lod_id, (splat.child_start as int / 65536) as u32);
        let high = (tree.lod_id, ((splat.child_start + splat.child_count - 1) / 65536) as u32);
        let more = c.touched.push(low);
        assert(more[c.touched.len() as int] == low);
        if c.touched.contains(high) {
            let i = choose|i: int| 0 <= i < c.touched.len() && c.touched[i] == high;
            assert(more[i] == high);
        }
        if more.contains(high) && !c.touched.contains(high) {
            let i = choose|i: int| 0 <= i < more.len() && more[i] == high;
            assert(i == c.touched.len() || c.touched[i] == high);
        }
    }

    /// What is answered where a run comes back with `r` after `k` rounds: to go on every time, but
    /// for a last answer to stop where it pauses; once for each round, and once more where a node
    /// was left to look at.
    pub proof fn law_first_stop_pauses(self, c: Progress, k: nat, r: LoopExit, d: Progress)
        requires
            self.comes_back_after(c, k, r, d),
        ensures
            ({
                let log = self.answers(c, k, r);
                &&& forall|i: int| 0 <= i < log.len() - 1 ==> !(#[trigger] log[i])
                &&& r is Paused ==> log.len() == k + 1 && log[k as int] && self.after(c, k) == Some(
                    d,
                ) && d.frontier.len() > 0
                &&& r is Done ==> {
                    &&& log.len() > 0 ==> !log[log.len() - 1]
                    &&& log.len() == k + (if d.frontier.len() > 0 {
                        1int
                    } else {
                        0
                    })
                }
            }),
    {
    }
}

} // verus!
