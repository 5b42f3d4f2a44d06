//! What holds of a whole run of a traversal, from where it starts to where it pauses or ends.

use vstd::prelude::*;

use crate::entry::{CutNode, Entry};
use crate::forest::{
    descends, is_forest, law_nothing_above_a_cut_node, lemma_descends_further, reachable, valid_cut,
};
use crate::scale::{nan, rank, Scale};
use crate::splat::LodSplat;
use crate::traverse::{seeded, seeded_list, with_chunk, Job, LoopExit, Progress, Step};
use crate::tree_view::{fits, kid_nodes, kids_in, InstanceParams, TreeView};

verus! {

/// `d` has all that `c` has, in its place, and maybe more; and its smallest scale is no larger.
pub open spec fn grown(c: Progress, d: Progress) -> bool {
    &&& c.output.is_prefix_of(d.output)
    &&& c.touched.is_prefix_of(d.touched)
    &&& c.num_splats <= d.num_splats
    &&& c.leaf_count <= d.leaf_count
    &&& !nan(c.min_pixel_scale) ==> !nan(d.min_pixel_scale) && rank(d.min_pixel_scale) <= rank(
        c.min_pixel_scale,
    )
}

proof fn lemma_grown_on(a: Progress, b: Progress, c: Progress)
    requires
        grown(a, b),
        grown(b, c),
    ensures
        grown(a, c),
{
    assert forall|i: int| 0 <= i < a.output.len() implies a.output[i] == c.output[i] by {
        assert(a.output[i] == b.output[i]);
        assert(b.output[i] == c.output[i]);
    }
    assert forall|i: int| 0 <= i < a.touched.len() implies a.touched[i] == c.touched[i] by {
        assert(a.touched[i] == b.touched[i]);
        assert(b.touched[i] == c.touched[i]);
    }
    assert(a.output =~= c.output.subrange(0, a.output.len() as int));
    assert(a.touched =~= c.touched.subrange(0, a.touched.len() as int));
}

impl<'a> Job<'a> {
    /// A run from `c` can come back with `d`: at a pause or at the end.
    pub open spec fn comes_back(self, c: Progress, d: Progress) -> bool {
        self.passes(c, d) || self.finishes(c, d)
    }

    proof fn lemma_round_grows(self, c: Progress)
        ensures
            match self.step(c) {
                Step::Done(d) => grown(c, d),
                Step::More(d) => grown(c, d),
            },
    {
        let tree = self.trees[c.top().instance() as int];
        let first = (tree.lod_id, tree.first_chunk(c.top().slot()) as u32);
        let last = (tree.lod_id, tree.last_chunk(c.top().slot()) as u32);
        let one = with_chunk(c.touched, first);
        let two = with_chunk(one, last);
        assert(c.touched.is_prefix_of(c.touched));
        assert(c.touched.is_prefix_of(one));
        assert(c.touched.is_prefix_of(two));
        assert(c.output.is_prefix_of(c.output));
    }

    proof fn lemma_rounds_grow(self, c: Progress, k: nat)
        requires
            self.after(c, k) is Some,
        ensures
            grown(c, self.after(c, k)->0),
        decreases k,
    {
        if k == 0 {
            assert(c.touched.is_prefix_of(c.touched));
            assert(c.output.is_prefix_of(c.output));
        } else {
            let before = self.after(c, (k - 1) as nat)->0;
            self.lemma_rounds_grow(c, (k - 1) as nat);
            self.lemma_round_grows(before);
            lemma_grown_on(c, before, self.after(c, k)->0);
        }
    }

    /// Over a whole run nothing that was put out is taken back or moved, the number of nodes
    /// never falls and never rises over the budget, no chunk is listed twice, and the smallest
    /// scale never rises.
    pub proof fn law_run_only_adds(self, c: Progress, d: Progress)
        requires
            self.comes_back(c, d),
        ensures
            grown(c, d),
            d.num_splats == c.num_splats || d.num_splats <= self.max_splats,
            c.touched.no_duplicates() ==> d.touched.no_duplicates(),
    {
        if self.passes(c, d) {
            let k = choose|k: nat| #[trigger] self.after(c, k) == Some(d);
            self.lemma_rounds_grow(c, k);
            self.law_budget_is_respected(c, k);
            self.law_touched_chunks_only_grow(c, k);
        } else {
            let k = choose|k: nat|
                (#[trigger] self.after(c, k)) matches Some(m) && self.step(m) == Step::Done(d);
            let m = self.after(c, k)->0;
            self.lemma_rounds_grow(c, k);
            self.lemma_round_grows(m);
            lemma_grown_on(c, m, d);
            self.law_budget_is_respected(c, k);
            self.lemma_round_keeps_budget(m);
            self.law_touched_chunks_only_grow(c, k);
        }
    }

    /// What is in the cut after `k` rounds, and was not at the start, lies below something that
    /// was.
    proof fn lemma_rounds_go_down(self, c: Progress, k: nat)
        requires
            fits(self.trees),
            self.after(c, k) is Some,
            forall|j: nat| j < k ==> self.step_sound((#[trigger] self.after(c, j))->0),
        ensures
            forall|x: CutNode| #[trigger]
                (self.after(c, k)->0).cut().count(x) > 0 && c.cut().count(x) == 0 ==> exists|
                    n: CutNode,
                | #[trigger]
                    descends(kids_in(self.trees), n, x) && c.cut().count(n) > 0,
        decreases k,
    {
        if k > 0 {
            let before = self.after(c, (k - 1) as nat)->0;
            let now = self.after(c, k)->0;
            self.lemma_rounds_go_down(c, (k - 1) as nat);
            assert(self.step_sound(before));
            assert forall|x: CutNode| #[trigger]
                now.cut().count(x) > 0 && c.cut().count(x) == 0 implies exists|n: CutNode|
                #[trigger]
                descends(kids_in(self.trees), n, x) && c.cut().count(n) > 0 by {
                if before.cut().count(x) == 0 {
                    self.law_new_nodes_have_their_parent_in_the_cut_before(before, x);
                    let p = choose|n: CutNode|
                        before.cut().count(n) > 0 && #[trigger] kid_nodes(self.trees, n).contains(
                            x,
                        );
                    if c.cut().count(p) > 0 {
                        lemma_descends_further(kids_in(self.trees), p, p, x);
                    } else {
                        let n = choose|n: CutNode| #[trigger]
                            descends(kids_in(self.trees), n, p) && c.cut().count(n) > 0;
                        lemma_descends_further(kids_in(self.trees), n, p, x);
                    }
                }
            }
        }
    }

    /// Over a whole run the cut only gets finer: a node that has come into it lies below one that
    /// has left it.
    pub proof fn law_new_nodes_descend_from_nodes_that_left(
        self,
        roots: Set<CutNode>,
        c: Progress,
        d: Progress,
        x: CutNode,
    )
        requires
            fits(self.trees),
            is_forest(roots, kids_in(self.trees)),
            valid_cut(roots, kids_in(self.trees), c.cut()),
            self.completes(c),
            self.comes_back(c, d),
            d.cut().count(x) > 0,
            c.cut().count(x) == 0,
        ensures
            exists|n: CutNode| #[trigger]
                descends(kids_in(self.trees), n, x) && c.cut().count(n) > 0 && d.cut().count(n)
                    == 0,
    {
        let kids = kids_in(self.trees);
        let last = choose|k: nat| self.halts_after(c, k);
        self.law_every_exit_leaves_a_valid_cut(roots, c, d);
        if self.passes(c, d) {
            let k = choose|k: nat| #[trigger] self.after(c, k) == Some(d);
            self.lemma_no_round_past_the_last(c, last, k);
            self.lemma_rounds_go_down(c, k);
        } else {
            let k = choose|k: nat|
                (#[trigger] self.after(c, k)) matches Some(m) && self.step(m) == Step::Done(d);
            self.lemma_no_round_past_the_last(c, last, k);
            self.lemma_rounds_go_down(c, k);
            let m = self.after(c, k)->0;
            assert(self.step_sound(m));
            self.law_round_refines_cut(m);
            assert(m.cut().count(x) > 0);
        }
        let n = choose|n: CutNode| #[trigger] descends(kids, n, x) && c.cut().count(n) > 0;
        assert(reachable(roots, kids, n));
        law_nothing_above_a_cut_node(roots, kids, d.cut(), n, x);
    }

    pub(crate) proof fn lemma_lists_add_up(self, c: Progress, list: Seq<Entry>, j: nat, k: nat)
        requires
            self.after(c, j) is Some,
            self.after(c, j + k) is Some,
        ensures
            self.laid_after(c, list, j + k) == self.laid_after(
                self.after(c, j)->0,
                self.laid_after(c, list, j),
                k,
            ),
        decreases k,
    {
        if k > 0 {
            self.lemma_rounds_before(c, j + k, (j + k - 1) as nat);
            self.lemma_lists_add_up(c, list, j, (k - 1) as nat);
            self.lemma_rounds_add_up(c, j, (k - 1) as nat);
            assert((j + k - 1) as nat == j + (k - 1) as nat);
        }
    }

    /// Where a run ends, and in what order it leaves the frontier, is determined by where it
    /// starts.
    pub proof fn law_end_and_order_are_determined(
        self,
        c: Progress,
        list: Seq<Entry>,
        d: Progress,
        laid: Seq<Entry>,
        e: Progress,
        other: Seq<Entry>,
    )
        requires
            self.finishes_laid(c, list, d, laid),
            self.finishes_laid(c, list, e, other),
        ensures
            d == e,
            laid == other,
    {
        let k = choose|k: nat|
            #[trigger] self.comes_back_after(c, k, LoopExit::Done, d) && laid == self.laid_after(
                c,
                list,
                k,
            );
        let l = choose|k: nat|
            #[trigger] self.comes_back_after(c, k, LoopExit::Done, e) && other == self.laid_after(
                c,
                list,
                k,
            );
        self.lemma_no_round_past_the_last(c, k, l);
        self.lemma_no_round_past_the_last(c, l, k);
    }

    /// A run in any number of slices, each of which goes on where the one before has paused,
    /// ends as the run that was never paused, with the frontier in the same order.
    pub proof fn law_any_slices_make_the_whole(
        self,
        stops: Seq<Progress>,
        lists: Seq<Seq<Entry>>,
        sliced: Progress,
        sliced_list: Seq<Entry>,
        atomic: Progress,
        atomic_list: Seq<Entry>,
    )
        requires
            stops.len() > 0,
            lists.len() == stops.len(),
            forall|i: int|
                0 <= i < stops.len() - 1 ==> self.passes_laid(
                    #[trigger] stops[i],
                    lists[i],
                    stops[i + 1],
                    lists[i + 1],
                ),
            self.finishes_laid(stops.last(), lists.last(), sliced, sliced_list),
            self.finishes_laid(stops[0], lists[0], atomic, atomic_list),
        ensures
            sliced == atomic,
            sliced_list == atomic_list,
        decreases stops.len(),
    {
        if stops.len() == 1 {
            self.law_end_and_order_are_determined(
                stops[0],
                lists[0],
                sliced,
                sliced_list,
                atomic,
                atomic_list,
            );
        } else {
            let n = stops.len() - 1;
            let (before, paused) = (stops[n - 1], stops[n]);
            let (list, later) = (lists[n - 1], lists[n]);
            assert(self.passes_laid(before, list, stops[n - 1 + 1], lists[n - 1 + 1]));
            let j = choose|k: nat|
                #[trigger] self.comes_back_after(before, k, LoopExit::Paused, paused) && later
                    == self.laid_after(before, list, k);
            let k = choose|k: nat|
                #[trigger] self.comes_back_after(paused, k, LoopExit::Done, sliced) && sliced_list
                    == self.laid_after(paused, later, k);
            self.lemma_rounds_add_up(before, j, k);
            self.lemma_lists_add_up(before, list, j, k);
            assert(self.comes_back_after(before, j + k, LoopExit::Done, sliced));
            assert(self.finishes_laid(before, list, sliced, sliced_list));
            let fewer = stops.drop_last();
            let shorter = lists.drop_last();
            assert forall|i: int| 0 <= i < fewer.len() - 1 implies self.passes_laid(
                #[trigger] fewer[i],
                shorter[i],
                fewer[i + 1],
                shorter[i + 1],
            ) by {
                assert(self.passes_laid(stops[i], lists[i], stops[i + 1], lists[i + 1]));
            }
            self.law_any_slices_make_the_whole(
                fewer,
                shorter,
                sliced,
                sliced_list,
                atomic,
                atomic_list,
            );
        }
    }
}

/// The views show the same trees.
pub open spec fn alike(trees: Seq<TreeView>, others: Seq<TreeView>) -> bool {
    &&& trees.len() == others.len()
    &&& forall|i: int|
        0 <= i < trees.len() ==> {
            &&& (#[trigger] trees[i]).lod_id == others[i].lod_id
            &&& trees[i].splats@ == others[i].splats@
            &&& trees[i].chunk_to_page@ == others[i].chunk_to_page@
            &&& trees[i].params == others[i].params
        }
}

proof fn lemma_filters_agree<A>(s: Seq<A>, p: spec_fn(A) -> bool, q: spec_fn(A) -> bool)
    requires
        forall|i: int| 0 <= i < s.len() ==> p(#[trigger] s[i]) == q(s[i]),
    ensures
        s.filter(p) == s.filter(q),
    decreases s.len(),
{
    reveal(Seq::filter);
    if s.len() > 0 {
        assert(forall|i: int| 0 <= i < s.len() - 1 ==> s.drop_last()[i] == s[i]);
        lemma_filters_agree(s.drop_last(), p, q);
        assert(s[s.len() - 1] == s.last());
    }
}

impl<'a> Job<'a> {
    /// The same job on the same trees.
    pub open spec fn same(self, other: Job) -> bool {
        &&& alike(self.trees, other.trees)
        &&& self.measure == other.measure
        &&& self.max_splats == other.max_splats
        &&& self.limit == other.limit
    }

    proof fn lemma_same_kids(self, other: Job, n: CutNode)
        requires
            self.same(other),
            n.0 < self.trees.len(),
        ensures
            kid_nodes(self.trees, n) == kid_nodes(other.trees, n),
            self.settled(kid_nodes(self.trees, n)) == other.settled(kid_nodes(other.trees, n)),
            self.pending(kid_nodes(self.trees, n)) == other.pending(kid_nodes(other.trees, n)),
    {
        let a = self.trees[n.0 as int];
        let b = other.trees[n.0 as int];
        assert(a.splats@ == b.splats@ && a.chunk_to_page@ == b.chunk_to_page@);
        assert(a.kids(n.1) =~= b.kids(n.1));
        let kids = kid_nodes(self.trees, n);
        assert(kids =~= kid_nodes(other.trees, n));
        assert forall|i: int| 0 <= i < kids.len() implies (#[trigger] kids[i]).0 == n.0
            && self.scale_at(kids[i]) == other.scale_at(kids[i]) by {}
        lemma_filters_agree(kids, |n: CutNode| self.small(n), |n: CutNode| other.small(n));
        lemma_filters_agree(kids, |n: CutNode| !self.small(n), |n: CutNode| !other.small(n));
        assert(self.settled(kids) =~= other.settled(kids));
        let rest = kids.filter(|n: CutNode| !self.small(n));
        let rest2 = kids.filter(|n: CutNode| !other.small(n));
        assert(rest == rest2);
        assert forall|i: int| 0 <= i < rest.len() implies self.scale_at(#[trigger] rest[i])
            == other.scale_at(rest[i]) by {
            kids.lemma_filter_contains_rev(|n: CutNode| !self.small(n), rest[i]);
        }
        assert(self.pending(kids) =~= other.pending(kids));
    }

    proof fn lemma_same_round(self, other: Job, c: Progress)
        requires
            self.same(other),
            self.step_sound(c),
        ensures
            self.step(c) == other.step(c),
            forall|list: Seq<Entry>| #[trigger] self.relaid(c, list) == other.relaid(c, list),
    {
        let n = c.top().node();
        if n.0 < self.trees.len() {
            assert(self.trees[n.0 as int].splats@ == other.trees[n.0 as int].splats@);
            self.lemma_same_kids(other, n);
        }
    }

    proof fn lemma_same_rounds(self, other: Job, c: Progress, last: nat, k: nat)
        requires
            self.same(other),
            self.halts_after(c, last),
            k <= last,
        ensures
            self.after(c, k) is Some,
            self.after(c, k) == other.after(c, k),
            forall|list: Seq<Entry>| #[trigger]
                self.laid_after(c, list, k) == other.laid_after(c, list, k),
        decreases k,
    {
        self.lemma_rounds_before(c, last, k);
        if k > 0 {
            self.lemma_same_rounds(other, c, last, (k - 1) as nat);
            let before = self.after(c, (k - 1) as nat)->0;
            assert(self.step_sound(before));
            self.lemma_same_round(other, before);
            assert forall|list: Seq<Entry>| #[trigger]
                self.laid_after(c, list, k) == other.laid_after(c, list, k) by {
                let laid = self.laid_after(c, list, (k - 1) as nat);
                assert(laid == other.laid_after(c, list, (k - 1) as nat));
                assert(self.relaid(before, laid) == other.relaid(before, laid));
            }
        }
    }

    /// Where a run ends depends on what the trees hold, not on who shows them: the same job on
    /// views of the same trees ends in the same state, with the frontier in the same order.
    pub proof fn law_same_job_ends_alike(
        self,
        other: Job,
        c: Progress,
        list: Seq<Entry>,
        d: Progress,
        laid: Seq<Entry>,
        e: Progress,
        other_laid: Seq<Entry>,
    )
        requires
            self.same(other),
            self.completes(c),
            self.finishes_laid(c, list, d, laid),
            other.finishes_laid(c, list, e, other_laid),
        ensures
            d == e,
            laid == other_laid,
    {
        let last = choose|k: nat| self.halts_after(c, k);
        self.lemma_same_rounds(other, c, last, last);
        let m = self.after(c, last)->0;
        assert(self.step_sound(m));
        self.lemma_same_round(other, m);
        let end = self.step(m)->Done_0;
        let end_list = self.laid_after(c, list, last);
        assert(self.comes_back_after(c, last, LoopExit::Done, end));
        assert(other.comes_back_after(c, last, LoopExit::Done, end));
        assert(end_list == other.laid_after(c, list, last));
        self.law_end_and_order_are_determined(c, list, d, laid, end, end_list);
        other.law_end_and_order_are_determined(c, list, e, other_laid, end, end_list);
    }
}

/// Views of the same trees are seeded alike.
pub proof fn lemma_same_seeds(
    trees: Seq<TreeView>,
    others: Seq<TreeView>,
    root_pages: Seq<u32>,
    measure: spec_fn(LodSplat, InstanceParams) -> Scale,
    c: Progress,
    list: Seq<Entry>,
    n: nat,
)
    requires
        alike(trees, others),
        n <= trees.len(),
    ensures
        seeded(trees, root_pages, measure, c, n) == seeded(others, root_pages, measure, c, n),
        seeded_list(trees, root_pages, measure, list, n) == seeded_list(
            others,
            root_pages,
            measure,
            list,
            n,
        ),
    decreases n,
{
    if n > 0 {
        lemma_same_seeds(trees, others, root_pages, measure, c, list, (n - 1) as nat);
        assert(trees[n - 1].lod_id == others[n - 1].lod_id);
    }
}

} // verus!
