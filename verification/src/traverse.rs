//! Best-first traversal of level-of-detail trees.
//!
//! A traversal starts from the roots and keeps replacing the node that is largest on screen by
//! its children, until that node is small enough or the budget is used up. At every moment the
//! output and the frontier together are a cut of the trees, so a traversal can be stopped
//! anywhere, its cut used, and the traversal resumed later.

use ahash::AHashSet;
use vstd::multiset::Multiset;
use vstd::prelude::*;
use vstd::seq_lib::group_to_multiset_ensures;

use crate::asker::Asker;
use crate::entry::{packed, CutNode, Entry};
use crate::hash::{pairs, pairs_clear, pairs_insert, pairs_new};
use crate::heap::{is_top, popped, pushed, pushed_all, Heap};
use crate::scale::{clamped, scale_le, scale_min, Scale, INFINITY_BITS};
use crate::splat::LodSplat;
use crate::tree_view::{
    fits, kid_nodes, measured, measures, to_paged, InstanceParams, TreeView, NOT_RESIDENT,
};

verus! {

/// What a traversal works on: the trees, the pixel scale of a node, the budget, and the scale
/// at which a node is small enough.
pub struct Job<'a> {
    pub trees: Seq<TreeView<'a>>,
    pub measure: spec_fn(LodSplat, InstanceParams) -> Scale,
    pub max_splats: int,
    pub limit: Scale,
}

/// How far a traversal has come.
#[verifier::ext_equal]
pub struct Progress {
    pub frontier: Multiset<Entry>,
    pub output: Seq<CutNode>,
    pub touched: Seq<(u32, u32)>,
    pub num_splats: int,
    pub min_pixel_scale: Scale,
    pub leaf_count: int,
}

/// One round of the traversal: it is over, or it goes on.
pub enum Step {
    Done(Progress),
    More(Progress),
}

/// The frontier entry of a node.
pub open spec fn entry_of(key: Scale, n: CutNode) -> Entry {
    Entry(packed(clamped(key).bits, n.0, n.1) as u64)
}

/// A list of chunks with one more, unless it is there already.
pub open spec fn with_chunk(touched: Seq<(u32, u32)>, key: (u32, u32)) -> Seq<(u32, u32)> {
    if touched.contains(key) {
        touched
    } else {
        touched.push(key)
    }
}

/// The nodes that a collection of entries stands for.
pub open spec fn nodes_of(m: Multiset<Entry>) -> Multiset<CutNode>
    decreases m.len(),
{
    if m.len() == 0 {
        Multiset::empty()
    } else {
        nodes_of(m.remove(m.choose())).insert(m.choose().node())
    }
}

impl Progress {
    /// The cut so far: the nodes put out and the nodes of the frontier.
    pub open spec fn cut(self) -> Multiset<CutNode> {
        self.output.to_multiset().add(nodes_of(self.frontier))
    }

    /// The largest entry of the frontier.
    pub open spec fn top(self) -> Entry {
        choose|e: Entry| is_top(self.frontier, e)
    }

    /// The counters agree with the collections.
    pub open spec fn consistent(self) -> bool {
        &&& self.num_splats == self.output.len() + self.frontier.len()
        &&& 0 <= self.leaf_count <= self.output.len()
    }
}

impl<'a> Job<'a> {
    /// The pixel scale of a node.
    pub open spec fn scale_at(self, n: CutNode) -> Scale {
        (self.measure)(
            self.trees[n.0 as int].splats@[n.1 as int],
            self.trees[n.0 as int].params,
        )
    }

    /// The node needs no further refinement.
    pub open spec fn small(self, n: CutNode) -> bool {
        scale_le(self.scale_at(n), self.limit)
    }

    /// Of some nodes, those that go straight to the output.
    pub open spec fn settled(self, nodes: Seq<CutNode>) -> Seq<CutNode> {
        nodes.filter(|n: CutNode| self.small(n))
    }

    /// Of some nodes, the entries of those that go to the frontier.
    pub open spec fn pending(self, nodes: Seq<CutNode>) -> Seq<Entry> {
        nodes.filter(|n: CutNode| !self.small(n)).map_values(
            |n: CutNode| entry_of(self.scale_at(n), n),
        )
    }

    /// One round. The largest frontier node ends the traversal if it is small enough, or if
    /// its children do not fit the budget. Otherwise it leaves the frontier: a leaf, and a node
    /// whose children are not all resident, goes to the output; any other node is replaced by
    /// its children, the small ones in the output and the rest in the frontier. The chunks of
    /// the children are noted either way.
    pub open spec fn step(self, c: Progress) -> Step {
        let top = c.top();
        let tree = self.trees[top.instance() as int];
        let splat = tree.splats@[top.slot() as int];
        let seen = Progress {
            min_pixel_scale: scale_min(c.min_pixel_scale, top.scale()),
            ..c
        };
        let kids = kid_nodes(self.trees, top.node());
        let touched = with_chunk(
            with_chunk(c.touched, (tree.lod_id, tree.first_chunk(top.slot()) as u32)),
            (tree.lod_id, tree.last_chunk(top.slot()) as u32),
        );
        if c.frontier.len() == 0 {
            Step::Done(c)
        } else if scale_le(top.scale(), self.limit) {
            Step::Done(seen)
        } else if splat.child_count == 0 {
            Step::More(
                Progress {
                    frontier: c.frontier.remove(top),
                    output: c.output.push(top.node()),
                    leaf_count: c.leaf_count + 1,
                    ..seen
                },
            )
        } else if c.num_splats - 1 + splat.child_count > self.max_splats {
            Step::Done(seen)
        } else if kids.len() == 0 {
            Step::More(
                Progress {
                    frontier: c.frontier.remove(top),
                    output: c.output.push(top.node()),
                    touched,
                    ..seen
                },
            )
        } else {
            Step::More(
                Progress {
                    frontier: c.frontier.remove(top).add(self.pending(kids).to_multiset()),
                    output: c.output + self.settled(kids),
                    touched,
                    num_splats: c.num_splats - 1 + splat.child_count,
                    ..seen
                },
            )
        }
    }

    /// The round reads nothing outside the trees.
    pub open spec fn step_sound(self, c: Progress) -> bool {
        let top = c.top();
        let tree = self.trees[top.instance() as int];
        let splat = tree.splats@[top.slot() as int];
        c.frontier.len() > 0 && !scale_le(top.scale(), self.limit) ==> {
            &&& top.instance() < self.trees.len()
            &&& top.slot() < tree.splats@.len()
            &&& splat.child_count > 0 && c.num_splats - 1 + splat.child_count
                <= self.max_splats ==> tree.sound_at(top.slot())
        }
    }

    /// State after `k` rounds; none if the traversal is over before.
    pub open spec fn after(self, c: Progress, k: nat) -> Option<Progress>
        decreases k,
    {
        if k == 0 {
            Some(c)
        } else {
            match self.after(c, (k - 1) as nat) {
                Some(m) => match self.step(m) {
                    Step::More(n) => Some(n),
                    Step::Done(_) => None,
                },
                None => None,
            }
        }
    }

    /// The traversal is over after `k` rounds, and all of them are sound.
    pub open spec fn halts_after(self, c: Progress, k: nat) -> bool {
        &&& self.after(c, k) matches Some(m) && self.step(m) is Done
        &&& forall|j: nat| j <= k ==> self.step_sound((#[trigger] self.after(c, j))->0)
    }

    /// The traversal comes to its end by sound rounds.
    pub open spec fn completes(self, c: Progress) -> bool {
        exists|k: nat| self.halts_after(c, k)
    }

    /// Run to its end from `c`, the traversal is left in state `d`.
    pub open spec fn finishes(self, c: Progress, d: Progress) -> bool {
        exists|k: nat|
            (#[trigger] self.after(c, k)) matches Some(m) && self.step(m) == Step::Done(d)
    }

    /// The frontier's list after a round from `c`, with `list` before it: the largest entry is
    /// taken out, and the entries of those children that go to the frontier are put in, in order.
    pub open spec fn relaid(self, c: Progress, list: Seq<Entry>) -> Seq<Entry> {
        match self.step(c) {
            Step::Done(_) => list,
            Step::More(_) => pushed_all(
                popped(list),
                self.pending(kid_nodes(self.trees, c.top().node())),
            ),
        }
    }

    /// The frontier's list after `k` rounds from `c`, with `list` before them.
    pub open spec fn laid_after(self, c: Progress, list: Seq<Entry>, k: nat) -> Seq<Entry>
        decreases k,
    {
        if k == 0 {
            list
        } else {
            self.relaid(
                self.after(c, (k - 1) as nat)->0,
                self.laid_after(c, list, (k - 1) as nat),
            )
        }
    }

    /// After `k` rounds from `c` the traversal comes back with `r`, in state `d`: paused, with
    /// work left, or at its end.
    pub open spec fn comes_back_after(self, c: Progress, k: nat, r: LoopExit, d: Progress) -> bool {
        &&& self.after(c, k) is Some
        &&& match r {
            LoopExit::Paused => self.after(c, k) == Some(d) && d.frontier.len() > 0,
            LoopExit::Done => self.step(self.after(c, k)->0) == Step::Done(d),
        }
    }

    /// What was answered, where it is asked before each round whether to stop, if after `k`
    /// rounds from `c` the traversal comes back with `r`: to go on before each of these rounds;
    /// and to stop at a pause, or to go on once more if a node was left to look at.
    pub open spec fn answers(self, c: Progress, k: nat, r: LoopExit) -> Seq<bool> {
        match r {
            LoopExit::Paused => going_on(k).push(true),
            LoopExit::Done => if (self.after(c, k)->0).frontier.len() > 0 {
                going_on(k + 1)
            } else {
                going_on(k)
            },
        }
    }

    /// Run to its end from `c`, with the frontier in `list`, the traversal is left in state `d`,
    /// with the frontier in `laid`.
    pub open spec fn finishes_laid(
        self,
        c: Progress,
        list: Seq<Entry>,
        d: Progress,
        laid: Seq<Entry>,
    ) -> bool {
        exists|k: nat|
            #[trigger] self.comes_back_after(c, k, LoopExit::Done, d) && laid == self.laid_after(
                c,
                list,
                k,
            )
    }

    /// On its way from `c`, with the frontier in `list`, the traversal passes through state `d`,
    /// with the frontier in `laid` and work left.
    pub open spec fn passes_laid(
        self,
        c: Progress,
        list: Seq<Entry>,
        d: Progress,
        laid: Seq<Entry>,
    ) -> bool {
        exists|k: nat|
            #[trigger] self.comes_back_after(c, k, LoopExit::Paused, d) && laid
                == self.laid_after(c, list, k)
    }

    /// On its way from `c`, the traversal passes through state `d`, with work left.
    pub open spec fn passes(self, c: Progress, d: Progress) -> bool {
        &&& d.frontier.len() > 0
        &&& exists|k: nat| #[trigger] self.after(c, k) == Some(d)
    }
}

/// `n` answers in a row not to stop.
pub open spec fn going_on(n: nat) -> Seq<bool> {
    Seq::new(n, |i: int| false)
}

/// The nodes of a list of entries, in order.
pub open spec fn nodes_in(list: Seq<Entry>) -> Seq<CutNode> {
    list.map_values(|e: Entry| e.node())
}

/// The job that the arguments of a traversal describe.
pub open spec fn job<'a, F: Fn(&LodSplat, &InstanceParams) -> Scale>(
    trees: Seq<TreeView<'a>>,
    scale: F,
    max_splats: usize,
    limit: Scale,
) -> Job<'a> {
    Job { trees, measure: measured(scale), max_splats: max_splats as int, limit }
}

/// Where the root lies if its page is as given; an unknown page counts as page 0.
pub open spec fn root_slot(page: u32) -> u32 {
    if page == NOT_RESIDENT {
        0
    } else {
        ((page % 0x1_0000) * 0x1_0000) as u32
    }
}

/// State before anything is seeded.
pub open spec fn unseeded() -> Progress {
    Progress {
        frontier: Multiset::empty(),
        output: Seq::empty(),
        touched: Seq::empty(),
        num_splats: 0,
        min_pixel_scale: Scale { bits: INFINITY_BITS },
        leaf_count: 0,
    }
}

/// `c` with the roots of the first `n` trees in the frontier and their chunk 0 noted.
pub open spec fn seeded(
    trees: Seq<TreeView>,
    root_pages: Seq<u32>,
    measure: spec_fn(LodSplat, InstanceParams) -> Scale,
    c: Progress,
    n: nat,
) -> Progress
    decreases n,
{
    if n == 0 {
        c
    } else {
        let d = seeded(trees, root_pages, measure, c, (n - 1) as nat);
        let tree = trees[n - 1];
        let root = root_slot(root_pages[n - 1]);
        Progress {
            frontier: d.frontier.insert(
                entry_of(
                    measure(tree.splats@[root as int], tree.params),
                    ((n - 1) as u32, root),
                ),
            ),
            num_splats: d.num_splats + 1,
            touched: with_chunk(d.touched, (tree.lod_id, 0)),
            ..d
        }
    }
}

/// The frontier's list once the roots of the first `n` trees were put in, with `list` before.
pub open spec fn seeded_list(
    trees: Seq<TreeView>,
    root_pages: Seq<u32>,
    measure: spec_fn(LodSplat, InstanceParams) -> Scale,
    list: Seq<Entry>,
    n: nat,
) -> Seq<Entry>
    decreases n,
{
    if n == 0 {
        list
    } else {
        let tree = trees[n - 1];
        let root = root_slot(root_pages[n - 1]);
        pushed(
            seeded_list(trees, root_pages, measure, list, (n - 1) as nat),
            entry_of(measure(tree.splats@[root as int], tree.params), ((n - 1) as u32, root)),
        )
    }
}

/// Every tree has a root where its page says.
pub open spec fn rooted(trees: Seq<TreeView>, root_pages: Seq<u32>) -> bool {
    &&& trees.len() <= root_pages.len()
    &&& forall|i: int|
        0 <= i < trees.len() ==> root_slot(#[trigger] root_pages[i]) < trees[i].splats@.len()
}

/// State of a traversal, kept across calls.
#[derive(Debug)]
pub struct TraverseCore {
    pub frontier: Heap,
    pub output: Vec<(u32, u32)>,
    pub touched: Vec<(u32, u32)>,
    pub touched_set: AHashSet<(u32, u32)>,
    pub num_splats: usize,
    pub min_pixel_scale: Scale,
    pub leaf_count: u32,
}

/// Why a call of `expand_until` came back.
#[derive(Debug, Clone, Copy, PartialEq, Eq, Structural)]
pub enum LoopExit {
    /// The frontier is empty, or its largest node is small enough or does not fit.
    Done,
    /// The caller asked to stop; another call goes on where this one stopped.
    Paused,
}

impl View for TraverseCore {
    type V = Progress;

    open spec fn view(&self) -> Progress {
        Progress {
            frontier: self.frontier@,
            output: self.output@,
            touched: self.touched@,
            num_splats: self.num_splats as int,
            min_pixel_scale: self.min_pixel_scale,
            leaf_count: self.leaf_count as int,
        }
    }
}

impl Default for TraverseCore {
    fn default() -> (r: TraverseCore)
        ensures
            r.wf(),
            r@ == (Progress { min_pixel_scale: (Scale { bits: 0 }), ..unseeded() }),
            r.frontier.list() == Seq::<Entry>::empty(),
    {
        let r = TraverseCore {
            frontier: Heap::new(),
            output: Vec::new(),
            touched: Vec::new(),
            touched_set: pairs_new(),
            num_splats: 0,
            min_pixel_scale: Scale::zero(),
            leaf_count: 0,
        };
        proof {
            assert(r.touched@.to_set() =~= Set::empty());
        }
        r
    }
}

impl TraverseCore {
    pub open spec fn wf(&self) -> bool {
        &&& self.frontier.wf()
        &&& self@.consistent()
        &&& self.chunks_listed()
    }

    /// The set of noted chunks holds what their list holds.
    pub open spec fn chunks_listed(&self) -> bool {
        &&& self.touched@.no_duplicates()
        &&& pairs(self.touched_set) == self.touched@.to_set()
    }

    /// Back to the state before anything is seeded, with room for `max_splats` nodes.
    pub fn reset(&mut self, max_splats: usize)
        requires
            max_splats <= u32::MAX,
        ensures
            final(self).wf(),
            final(self)@ == unseeded(),
            final(self).frontier.list() == Seq::<Entry>::empty(),
    {
        self.frontier.clear();
        self.output.clear();
        self.output.reserve(max_splats);
        self.touched.clear();
        pairs_clear(&mut self.touched_set);
        self.num_splats = 0;
        self.min_pixel_scale = Scale::infinity();
        self.leaf_count = 0;
        proof {
            assert(self.touched@.to_set() =~= Set::empty());
            assert(self@ =~= unseeded());
        }
    }

    /// The cut so far: the output, then the frontier, each in its order. Both stay as they are.
    pub fn snapshot(&self) -> (r: Vec<(u32, u32)>)
        requires
            self.wf(),
        ensures
            r@.to_multiset() == self@.cut(),
            r@.len() == self.num_splats,
            r@ == self.output@ + nodes_in(self.frontier.list()),
    {
        broadcast use group_to_multiset_ensures;

        let mut cut: Vec<(u32, u32)> = Vec::with_capacity(self.num_splats);
        let mut i: usize = 0;
        while i < self.output.len()
            invariant
                i <= self.output@.len(),
                cut@ == self.output@.take(i as int),
            decreases self.output@.len() - i,
        {
            cut.push(self.output[i]);
            i += 1;
            proof {
                assert(cut@ =~= self.output@.take(i as int));
            }
        }
        let entries = self.frontier.entries();
        let mut j: usize = 0;
        proof {
            assert(cut@ =~= self.output@ + nodes_in(entries@.take(0)));
            assert(entries@.take(0).to_multiset().len() == 0);
            assert(cut@.to_multiset() =~= self.output@.to_multiset().add(
                nodes_of(entries@.take(0).to_multiset()),
            ));
        }
        while j < entries.len()
            invariant
                j <= entries@.len(),
                entries@ == self.frontier.list(),
                cut@ == self.output@ + nodes_in(entries@.take(j as int)),
                cut@.to_multiset() == self.output@.to_multiset().add(
                    nodes_of(entries@.take(j as int).to_multiset()),
                ),
            decreases entries@.len() - j,
        {
            let e = entries[j];
            let ghost before = cut@;
            cut.push((e.inst(), e.paged()));
            proof {
                let taken = entries@.take(j as int);
                assert(entries@.take(j + 1) =~= taken.push(e));
                vstd::seq_lib::to_multiset_build(taken, e);
                vstd::seq_lib::to_multiset_build(before, e.node());
                lemma_nodes_of_insert(taken.to_multiset(), e);
                assert(cut@.to_multiset() =~= self.output@.to_multiset().add(
                    nodes_of(entries@.take(j + 1).to_multiset()),
                ));
                assert(cut@ =~= self.output@ + nodes_in(entries@.take(j + 1)));
            }
            j += 1;
        }
        proof {
            assert(entries@.take(j as int) =~= entries@);
        }
        cut
    }

    /// Notes a chunk, once.
    fn touch(&mut self, key: (u32, u32))
        requires
            old(self).chunks_listed(),
        ensures
            final(self).chunks_listed(),
            final(self).frontier == old(self).frontier,
            final(self)@ == (Progress {
                touched: with_chunk(old(self)@.touched, key),
                ..old(self)@
            }),
    {
        let fresh = pairs_insert(&mut self.touched_set, key);
        if fresh {
            self.touched.push(key);
            proof {
                assert(self.touched@.to_set() =~= old(self).touched@.to_set().insert(key)) by {
                    assert forall|k: (u32, u32)|
                        self.touched@.contains(k) == (old(self).touched@.contains(k) || k == key) by {
                        if old(self).touched@.contains(k) {
                            let i = choose|i: int|
                                0 <= i < old(self).touched@.len() && old(self).touched@[i] == k;
                            assert(self.touched@[i] == k);
                        }
                        if k == key {
                            assert(self.touched@[self.touched@.len() - 1] == k);
                        }
                    }
                }
            }
        } else {
            proof {
                assert(old(self).touched@.to_set().insert(key) =~= old(self).touched@.to_set());
            }
        }
    }
}

/// Taking out any one entry takes out its node.
pub(crate) proof fn lemma_nodes_of_remove(m: Multiset<Entry>, e: Entry)
    requires
        m.count(e) > 0,
    ensures
        nodes_of(m) == nodes_of(m.remove(e)).insert(e.node()),
        nodes_of(m).len() == m.len(),
    decreases m.len(),
{
    let f = m.choose();
    if m.len() == 0 {
        assert(m.count(e) <= m.len());
    }
    let rest = m.remove(f);
    assert(m.count(f) > 0);
    if f == e {
        if rest.len() > 0 {
            lemma_nodes_of_remove(rest, rest.choose());
        }
    } else {
        assert(rest.count(e) > 0);
        lemma_nodes_of_remove(rest, e);
        let fewer = m.remove(e);
        assert(fewer.count(f) > 0);
        lemma_nodes_of_remove(fewer, f);
        assert(fewer.remove(f) =~= rest.remove(e));
        assert(nodes_of(m) =~= nodes_of(fewer).insert(e.node()));
    }
}

/// Putting in an entry puts in its node.
pub(crate) proof fn lemma_nodes_of_insert(m: Multiset<Entry>, e: Entry)
    ensures
        nodes_of(m.insert(e)) == nodes_of(m).insert(e.node()),
{
    lemma_nodes_of_remove(m.insert(e), e);
    assert(m.insert(e).remove(e) =~= m);
}

proof fn lemma_tops_agree(m: Multiset<Entry>, e: Entry)
    requires
        is_top(m, e),
    ensures
        forall|f: Entry| is_top(m, f) ==> f == e,
{
    assert forall|f: Entry| is_top(m, f) implies f == e by {
        assert(m.count(f) > 0);
        assert(m.count(e) > 0);
    }
}

proof fn lemma_top_is_unique(m: Multiset<Entry>, e: Entry)
    requires
        is_top(m, e),
    ensures
        (choose|f: Entry| is_top(m, f)) == e,
{
    let f = choose|f: Entry| is_top(m, f);
    assert(m.count(f) > 0);
    assert(m.count(e) > 0);
}

impl<'a> Job<'a> {
    /// Before the last round, every round is a sound one that goes on.
    pub proof fn lemma_rounds_before(self, c: Progress, k: nat, j: nat)
        requires
            self.after(c, k) is Some,
            j <= k,
        ensures
            self.after(c, j) is Some,
            j < k ==> self.step(self.after(c, j)->0) is More,
        decreases k,
    {
        if j < k {
            self.lemma_rounds_before(c, (k - 1) as nat, j);
        }
    }

    proof fn lemma_nothing_pending(self, nodes: Seq<CutNode>)
        requires
            nodes.len() == 0,
        ensures
            self.pending(nodes).len() == 0,
    {
        reveal(Seq::filter);
    }

    /// Every node falls to exactly one of the two.
    pub(crate) proof fn lemma_sorting_keeps_number(self, nodes: Seq<CutNode>)
        ensures
            self.settled(nodes).len() + self.pending(nodes).len() == nodes.len(),
        decreases nodes.len(),
    {
        reveal(Seq::filter);
        if nodes.len() > 0 {
            self.lemma_sorting_keeps_number(nodes.drop_last());
            self.lemma_sorting_one_more(nodes.drop_last(), nodes.last());
            assert(nodes.drop_last().push(nodes.last()) =~= nodes);
        }
    }

    /// One more node at the end of a list falls to the output or to the frontier.
    pub(crate) proof fn lemma_sorting_one_more(self, nodes: Seq<CutNode>, n: CutNode)
        ensures
            self.small(n) ==> self.settled(nodes.push(n)) == self.settled(nodes).push(n)
                && self.pending(nodes.push(n)) == self.pending(nodes),
            !self.small(n) ==> self.settled(nodes.push(n)) == self.settled(nodes)
                && self.pending(nodes.push(n)) == self.pending(nodes).push(
                entry_of(self.scale_at(n), n),
            ),
    {
        reveal(Seq::filter);
        assert(nodes.push(n).drop_last() =~= nodes);
        assert(nodes.push(n).last() == n);
        let big = |n: CutNode| !self.small(n);
        let f = |n: CutNode| entry_of(self.scale_at(n), n);
        assert(nodes.filter(big).push(n).map_values(f) =~= nodes.filter(big).map_values(f).push(
            f(n),
        ));
        assert(self.pending(nodes.push(n)) =~= nodes.push(n).filter(big).map_values(f));
        assert(self.pending(nodes) =~= nodes.filter(big).map_values(f));
    }
}

/// Puts the roots of all instances into the frontier.
pub fn seed_roots<F: Fn(&LodSplat, &InstanceParams) -> Scale>(
    core: &mut TraverseCore,
    trees: &[TreeView],
    scale: &F,
    root_pages: &[u32],
)
    requires
        old(core).wf(),
        measures(*scale),
        fits(trees@),
        rooted(trees@, root_pages@),
        old(core).num_splats + trees@.len() <= usize::MAX,
    ensures
        final(core).wf(),
        final(core)@ == seeded(
            trees@,
            root_pages@,
            measured(*scale),
            old(core)@,
            trees@.len(),
        ),
        final(core).frontier.list() == seeded_list(
            trees@,
            root_pages@,
            measured(*scale),
            old(core).frontier.list(),
            trees@.len(),
        ),
{
    let n: usize = trees.len();
    let mut i: usize = 0;
    while i < n
        invariant
            n == trees@.len(),
            i <= n,
            core.wf(),
            measures(*scale),
            fits(trees@),
            rooted(trees@, root_pages@),
            old(core).num_splats + n <= usize::MAX,
            core.num_splats == old(core).num_splats + i,
            core@ == seeded(trees@, root_pages@, measured(*scale), old(core)@, i as nat),
            core.frontier.list() == seeded_list(
                trees@,
                root_pages@,
                measured(*scale),
                old(core).frontier.list(),
                i as nat,
            ),
        decreases n - i,
    {
        let tree = &trees[i];
        let page: u32 = root_pages[i];
        let root: u32 = if page == NOT_RESIDENT {
            0
        } else {
            (page % 0x1_0000) * 0x1_0000
        };
        assert(root == root_slot(root_pages@[i as int]));
        let ps = scale(&tree.splats[root as usize], &tree.params);
        core.frontier.push(Entry::new(ps, i as u32, root));
        core.num_splats += 1;
        core.touch((tree.lod_id, 0));
        i += 1;
        proof {
            assert(core@ =~= seeded(
                trees@,
                root_pages@,
                measured(*scale),
                old(core)@,
                i as nat,
            ));
        }
    }
}

/// Replaces a node by its children: the small ones go to the output, the others to the
/// frontier.
fn spread<F: Fn(&LodSplat, &InstanceParams) -> Scale>(
    core: &mut TraverseCore,
    trees: &[TreeView],
    scale: &F,
    max_splats: usize,
    limit: Scale,
    inst: u32,
    paged: u32,
)
    requires
        old(core).frontier.wf(),
        measures(*scale),
        fits(trees@),
        inst < trees@.len(),
        trees@[inst as int].sound_at(paged),
        trees@[inst as int].kids(paged).len() > 0,
    ensures
        final(core).frontier.wf(),
        final(core).touched_set == old(core).touched_set,
        final(core).frontier.list() == pushed_all(
            old(core).frontier.list(),
            job(trees@, *scale, max_splats, limit).pending(kid_nodes(trees@, (inst, paged))),
        ),
        final(core)@ == (Progress {
            frontier: old(core)@.frontier.add(
                job(trees@, *scale, max_splats, limit).pending(
                    kid_nodes(trees@, (inst, paged)),
                ).to_multiset(),
            ),
            output: old(core)@.output + job(trees@, *scale, max_splats, limit).settled(
                kid_nodes(trees@, (inst, paged)),
            ),
            ..old(core)@
        }),
{
    broadcast use group_to_multiset_ensures;

    let tree = &trees[inst as usize];
    let child_start: u32 = tree.splats[paged as usize].child_start;
    let child_count: u32 = tree.splats[paged as usize].child_count as u32;
    let ghost j = job(trees@, *scale, max_splats, limit);
    let ghost kids = kid_nodes(trees@, (inst, paged));
    let mut g: u32 = 0;
    proof {
        reveal(Seq::filter);
        let none = kids.take(0);
        assert(none.len() == 0);
        assert(j.settled(none).len() == 0);
        assert(j.pending(none).len() == 0);
        assert(core.output@ =~= old(core).output@ + j.settled(none));
        assert(j.pending(none).to_multiset().len() == 0);
        assert(core.frontier@ =~= old(core).frontier@.add(j.pending(none).to_multiset()));
    }
    while g < child_count
        invariant
            g <= child_count,
            core.frontier.wf(),
            measures(*scale),
            fits(trees@),
            inst < trees@.len(),
            *tree == trees@[inst as int],
            tree.sound_at(paged),
            tree.kids(paged).len() > 0,
            child_start == tree.splats@[paged as int].child_start,
            child_count == tree.splats@[paged as int].child_count,
            j == job(trees@, *scale, max_splats, limit),
            kids == kid_nodes(trees@, (inst, paged)),
            core.touched_set == old(core).touched_set,
            core.touched@ == old(core).touched@,
            core.num_splats == old(core).num_splats,
            core.min_pixel_scale == old(core).min_pixel_scale,
            core.leaf_count == old(core).leaf_count,
            core.output@ == old(core).output@ + j.settled(kids.take(g as int)),
            core.frontier@ == old(core).frontier@.add(
                j.pending(kids.take(g as int)).to_multiset(),
            ),
            core.frontier.list() == pushed_all(
                old(core).frontier.list(),
                j.pending(kids.take(g as int)),
            ),
        decreases child_count - g,
    {
        let child: u32 = child_start + g;
        let page: u32 = tree.chunk_to_page[(child / 0x1_0000) as usize];
        let kid: u32 = to_paged(page, child);
        assert(kid == tree.kids(paged)[g as int]);
        assert(kids[g as int] == (inst, kid));
        let ps = scale(&tree.splats[kid as usize], &tree.params);
        proof {
            j.lemma_sorting_one_more(kids.take(g as int), (inst, kid));
            assert(kids.take(g + 1) =~= kids.take(g as int).push((inst, kid)));
            assert(ps == j.scale_at((inst, kid)));
        }
        if ps.le(limit) {
            core.output.push((inst, kid));
            proof {
                assert(core.output@ =~= old(core).output@ + j.settled(kids.take(g + 1)));
            }
        } else {
            let e = Entry::new(ps, inst, kid);
            assert(e == entry_of(ps, (inst, kid)));
            core.frontier.push(e);
            proof {
                vstd::seq_lib::to_multiset_build(j.pending(kids.take(g as int)), e);
                assert(j.pending(kids.take(g + 1)).drop_last() =~= j.pending(kids.take(g as int)));
                assert(core.frontier@ =~= old(core).frontier@.add(
                    j.pending(kids.take(g + 1)).to_multiset(),
                ));
            }
        }
        g += 1;
    }
    proof {
        assert(kids.take(g as int) =~= kids);
    }
}

/// One round of the traversal; false if it is over.
fn advance<F: Fn(&LodSplat, &InstanceParams) -> Scale>(
    core: &mut TraverseCore,
    trees: &[TreeView],
    scale: &F,
    max_splats: usize,
    limit: Scale,
) -> (more: bool)
    requires
        old(core).wf(),
        measures(*scale),
        fits(trees@),
        old(core).num_splats <= u32::MAX,
        job(trees@, *scale, max_splats, limit).step_sound(old(core)@),
    ensures
        final(core).wf(),
        job(trees@, *scale, max_splats, limit).step(old(core)@) == (if more {
            Step::More(final(core)@)
        } else {
            Step::Done(final(core)@)
        }),
        final(core).frontier.list() == job(trees@, *scale, max_splats, limit).relaid(
            old(core)@,
            old(core).frontier.list(),
        ),
        final(core).num_splats <= old(core).num_splats || final(core).num_splats <= max_splats,
{
    let ghost j = job(trees@, *scale, max_splats, limit);
    let ghost c = core@;
    let top = match core.frontier.peek() {
        Some(top) => top,
        None => {
            return false;
        },
    };
    proof {
        lemma_top_is_unique(c.frontier, top);
    }
    let pixel_scale = top.key();
    let inst: u32 = top.inst();
    let paged: u32 = top.paged();
    core.min_pixel_scale = core.min_pixel_scale.min(pixel_scale);
    let ghost seen = Progress {
        min_pixel_scale: scale_min(c.min_pixel_scale, top.scale()),
        ..c
    };
    assert(core@ =~= seen);
    if pixel_scale.le(limit) {
        return false;
    }
    let tree = &trees[inst as usize];
    let child_start: u32 = tree.splats[paged as usize].child_start;
    let child_count: u16 = tree.splats[paged as usize].child_count;
    if child_count == 0 {
        let _ = core.frontier.pop();
        proof {
            lemma_tops_agree(c.frontier, top);
        }
        core.output.push((inst, paged));
        core.leaf_count += 1;
        proof {
            j.lemma_nothing_pending(kid_nodes(trees@, (inst, paged)));
        }
        return true;
    }
    let others: usize = core.num_splats - 1;
    if others > max_splats || child_count as usize > max_splats - others {
        return false;
    }
    let _ = core.frontier.pop();
    proof {
        lemma_tops_agree(c.frontier, top);
    }
    let ghost popped = Progress { frontier: c.frontier.remove(top), ..seen };
    assert(core@ =~= popped);
    let first_chunk: u32 = child_start / 0x1_0000;
    let last_chunk: u32 = (child_start + child_count as u32 - 1) / 0x1_0000;
    core.touch((tree.lod_id, first_chunk));
    if last_chunk != first_chunk {
        core.touch((tree.lod_id, last_chunk));
    }
    let ghost touched = with_chunk(
        with_chunk(c.touched, (tree.lod_id, first_chunk)),
        (tree.lod_id, last_chunk),
    );
    proof {
        let once = with_chunk(c.touched, (tree.lod_id, first_chunk));
        assert(once.contains((tree.lod_id, first_chunk))) by {
            assert(c.touched.push((tree.lod_id, first_chunk)).last() == (
                tree.lod_id,
                first_chunk,
            ));
        }
        assert(core@ =~= Progress { touched, ..popped });
    }
    if last_chunk as usize >= tree.chunk_to_page.len() || tree.chunk_to_page[first_chunk as usize]
        == NOT_RESIDENT || tree.chunk_to_page[last_chunk as usize] == NOT_RESIDENT {
        core.output.push((inst, paged));
        proof {
            j.lemma_nothing_pending(kid_nodes(trees@, (inst, paged)));
        }
        return true;
    }
    spread(core, trees, scale, max_splats, limit, inst, paged);
    core.num_splats = others + child_count as usize;
    proof {
        broadcast use group_to_multiset_ensures;

        j.lemma_sorting_keeps_number(kid_nodes(trees@, (inst, paged)));
    }
    true
}

/// Goes on with the traversal until it is over, or until `should_stop` says to pause. It is asked
/// once before every round, and not where nothing is left to look at; the first answer to stop
/// pauses the traversal.
pub fn expand_until<F: Fn(&LodSplat, &InstanceParams) -> Scale, G: FnMut() -> bool>(
    core: &mut TraverseCore,
    trees: &[TreeView],
    scale: &F,
    max_splats: usize,
    pixel_scale_limit: Scale,
    should_stop: &mut Asker<G>,
) -> (r: LoopExit)
    requires
        old(core).wf(),
        measures(*scale),
        fits(trees@),
        max_splats <= u32::MAX,
        old(core).num_splats <= u32::MAX,
        call_requires(old(should_stop).question(), ()),
        job(trees@, *scale, max_splats, pixel_scale_limit).completes(old(core)@),
    ensures
        final(core).wf(),
        final(core).num_splats <= u32::MAX,
        final(should_stop).question() == old(should_stop).question(),
        ({
            let j = job(trees@, *scale, max_splats, pixel_scale_limit);
            &&& exists|k: nat|
                {
                    &&& #[trigger] j.comes_back_after(old(core)@, k, r, final(core)@)
                    &&& final(core).frontier.list() == j.laid_after(
                        old(core)@,
                        old(core).frontier.list(),
                        k,
                    )
                    &&& final(should_stop).log() == old(should_stop).log() + j.answers(
                        old(core)@,
                        k,
                        r,
                    )
                }
            &&& r is Done ==> j.finishes(old(core)@, final(core)@)
            &&& r is Paused ==> j.passes(old(core)@, final(core)@) && j.completes(final(core)@)
        }),
        r is Paused ==> call_ensures(old(should_stop).question(), (), true),
        r is Done && old(core)@.frontier.len() > 0 ==> call_ensures(
            old(should_stop).question(),
            (),
            false,
        ),
        final(core)@ != old(core)@ ==> call_ensures(old(should_stop).question(), (), false),
{
    let ghost j = job(trees@, *scale, max_splats, pixel_scale_limit);
    let ghost c0 = core@;
    let ghost list = core.frontier.list();
    let ghost log = should_stop.log();
    let ghost last = choose|k: nat| j.halts_after(c0, k);
    let ghost mut k: nat = 0;
    proof {
        assert(log + going_on(0) =~= log);
    }
    while core.frontier.len() > 0
        invariant
            core.wf(),
            measures(*scale),
            fits(trees@),
            max_splats <= u32::MAX,
            core.num_splats <= u32::MAX,
            call_requires(should_stop.question(), ()),
            should_stop.question() == old(should_stop).question(),
            j == job(trees@, *scale, max_splats, pixel_scale_limit),
            c0 == old(core)@,
            list == old(core).frontier.list(),
            log == old(should_stop).log(),
            j.halts_after(c0, last),
            j.after(c0, k) == Some(core@),
            core.frontier.list() == j.laid_after(c0, list, k),
            should_stop.log() == log + going_on(k),
            k <= last,
            k > 0 ==> call_ensures(old(should_stop).question(), (), false),
        decreases last - k,
    {
        if should_stop.ask() {
            proof {
                j.law_pause_leaves_the_rest_to_do(c0, core@);
                assert(j.comes_back_after(c0, k, LoopExit::Paused, core@));
                assert(should_stop.log() =~= log + going_on(k).push(true));
            }
            return LoopExit::Paused;
        }
        assert(should_stop.log() =~= log + going_on(k + 1));
        assert(j.step_sound(j.after(c0, k)->0));
        let more = advance(core, trees, scale, max_splats, pixel_scale_limit);
        if !more {
            assert(j.comes_back_after(c0, k, LoopExit::Done, core@));
            return LoopExit::Done;
        }
        proof {
            k = k + 1;
            assert(j.after(c0, k) == Some(core@));
        }
    }
    assert(j.comes_back_after(c0, k, LoopExit::Done, core@));
    LoopExit::Done
}

/// The frontier key that a pixel scale limit is compared with: the limit itself.
pub fn limit_key(pixel_scale_limit: Scale) -> (r: Scale)
    ensures
        r == pixel_scale_limit,
{
    pixel_scale_limit
}

/// A whole traversal: from the roots to the end, without a pause.
pub fn run_atomic<F: Fn(&LodSplat, &InstanceParams) -> Scale>(
    scratch: &mut TraverseCore,
    trees: &[TreeView],
    scale: &F,
    root_pages: &[u32],
    max_splats: usize,
    pixel_scale_limit: Scale,
)
    requires
        measures(*scale),
        fits(trees@),
        rooted(trees@, root_pages@),
        max_splats <= u32::MAX,
        job(trees@, *scale, max_splats, pixel_scale_limit).completes(
            seeded(trees@, root_pages@, measured(*scale), unseeded(), trees@.len()),
        ),
    ensures
        final(scratch).wf(),
        job(trees@, *scale, max_splats, pixel_scale_limit).finishes(
            seeded(trees@, root_pages@, measured(*scale), unseeded(), trees@.len()),
            final(scratch)@,
        ),
        job(trees@, *scale, max_splats, pixel_scale_limit).finishes_laid(
            seeded(trees@, root_pages@, measured(*scale), unseeded(), trees@.len()),
            seeded_list(trees@, root_pages@, measured(*scale), Seq::empty(), trees@.len()),
            final(scratch)@,
            final(scratch).frontier.list(),
        ),
{
    scratch.reset(max_splats);
    seed_roots(scratch, trees, scale, root_pages);
    proof {
        lemma_seeded_number(trees@, root_pages@, measured(*scale), unseeded(), trees@.len());
    }
    let never = || -> (stop: bool)
        ensures
            !stop,
        { false };
    let mut asker = Asker::new(never);
    let _ = expand_until(scratch, trees, scale, max_splats, pixel_scale_limit, &mut asker);
}

/// Seeding counts one node for each tree.
pub(crate) proof fn lemma_seeded_number(
    trees: Seq<TreeView>,
    root_pages: Seq<u32>,
    measure: spec_fn(LodSplat, InstanceParams) -> Scale,
    c: Progress,
    n: nat,
)
    ensures
        seeded(trees, root_pages, measure, c, n).num_splats == c.num_splats + n,
    decreases n,
{
    if n > 0 {
        lemma_seeded_number(trees, root_pages, measure, c, (n - 1) as nat);
    }
}

} // verus!
