//! One level of a tree: the nodes at which it first gets small enough.

use vstd::prelude::*;

use crate::lod_state::LodState;
use crate::scale::{scale_le, Scale};
use crate::splat::LodSplat;

verus! {

/// Two computations on sizes.
pub struct Levels<W, S> {
    /// Single-precision value of a half-precision size.
    pub widen: W,
    /// Size at a level, given the size of the root.
    pub shrink: S,
}

impl<W: Fn(u16) -> Scale, S: Fn(Scale, u32) -> Scale> Levels<W, S> {
    pub open spec fn widened(self, h: u16) -> Scale {
        choose|r: Scale| call_ensures(self.widen, (h,), r)
    }

    pub open spec fn shrunk(self, root: Scale, level: u32) -> Scale {
        choose|r: Scale| call_ensures(self.shrink, (root, level), r)
    }

    /// The two accept everything and depend on their arguments alone.
    pub open spec fn lawful(self) -> bool {
        &&& forall|h: u16| #[trigger] call_requires(self.widen, (h,))
        &&& forall|root: Scale, level: u32| #[trigger] call_requires(self.shrink, (root, level))
        &&& forall|h: u16, r: Scale| #[trigger]
            call_ensures(self.widen, (h,), r) ==> r == self.widened(h)
        &&& forall|root: Scale, level: u32, r: Scale| #[trigger]
            call_ensures(self.shrink, (root, level), r) ==> r == self.shrunk(root, level)
    }

    /// The nodes that are small enough for a level of the tree.
    pub open spec fn small(self, splats: Seq<LodSplat>, level: u32) -> spec_fn(u32) -> bool {
        |n: u32|
            scale_le(
                self.widened(splats[n as int].size),
                self.shrunk(self.widened(splats[0].size), level),
            )
    }
}

/// The children of those nodes that are not small enough, in order.
pub open spec fn next_nodes(
    splats: Seq<LodSplat>,
    small: spec_fn(u32) -> bool,
    nodes: Seq<u32>,
) -> Seq<u32>
    decreases nodes.len(),
{
    if nodes.len() == 0 {
        Seq::empty()
    } else {
        let n = nodes.last();
        let s = splats[n as int];
        let before = next_nodes(splats, small, nodes.drop_last());
        if small(n) {
            before
        } else {
            before + Seq::new(s.child_count as nat, |g: int| (s.child_start + g) as u32)
        }
    }
}

/// The nodes that are looked at in round `k`: the root first, then children of the round before.
pub open spec fn nodes_at(splats: Seq<LodSplat>, small: spec_fn(u32) -> bool, k: int) -> Seq<u32>
    decreases k,
{
    if k <= 0 {
        seq![0u32]
    } else {
        next_nodes(splats, small, nodes_at(splats, small, k - 1))
    }
}

/// The nodes found small enough in the first `k` rounds.
pub open spec fn found(splats: Seq<LodSplat>, small: spec_fn(u32) -> bool, k: int) -> Seq<u32>
    decreases k,
{
    if k <= 0 {
        Seq::empty()
    } else {
        found(splats, small, k - 1) + nodes_at(splats, small, k - 1).filter(small)
    }
}

/// Looking at these nodes reads nothing outside the tree.
pub open spec fn round_sound(
    splats: Seq<LodSplat>,
    small: spec_fn(u32) -> bool,
    nodes: Seq<u32>,
) -> bool {
    forall|i: int|
        0 <= i < nodes.len() ==> {
            &&& (#[trigger] nodes[i]) < splats.len()
            &&& !small(nodes[i]) ==> splats[nodes[i] as int].child_start
                + splats[nodes[i] as int].child_count <= u32::MAX
        }
}

/// After `k` rounds, all of them sound, nothing is left to look at.
pub open spec fn runs_out(splats: Seq<LodSplat>, small: spec_fn(u32) -> bool, k: nat) -> bool {
    &&& nodes_at(splats, small, k as int).len() == 0
    &&& forall|j: int|
        0 <= j < k ==> round_sound(splats, small, #[trigger] nodes_at(splats, small, j))
}

/// The children of every node lie in the store, behind it.
pub open spec fn downward(splats: Seq<LodSplat>) -> bool {
    forall|n: int|
        0 <= n < splats.len() && (#[trigger] splats[n]).child_count > 0 ==> {
            &&& n < splats[n].child_start
            &&& splats[n].child_start + splats[n].child_count <= splats.len()
        }
}

/// All of the nodes are numbered from `low` up to the end of the store.
spec fn all_from(nodes: Seq<u32>, low: int, end: int) -> bool {
    forall|i: int| 0 <= i < nodes.len() ==> low <= #[trigger] nodes[i] && nodes[i] < end
}

/// In a tree whose children all lie in the store, behind their parents, nothing is left to look
/// at after as many rounds as there are nodes, whatever counts as small.
pub proof fn law_level_runs_out(splats: Seq<LodSplat>, small: spec_fn(u32) -> bool)
    requires
        0 < splats.len() <= u32::MAX,
        downward(splats),
    ensures
        runs_out(splats, small, splats.len()),
{
    let len = splats.len() as int;
    assert forall|j: int| 0 <= j < len implies round_sound(
        splats,
        small,
        #[trigger] nodes_at(splats, small, j),
    ) by {
        lemma_rounds_descend(splats, small, j);
    }
    lemma_rounds_descend(splats, small, len);
    let left = nodes_at(splats, small, len);
    assert(all_from(left, len, len));
    if left.len() > 0 {
        let n = left[0];
        assert(len <= n);
        assert(n < len);
    }
}

/// In round `k` no node before number `k` is looked at.
proof fn lemma_rounds_descend(splats: Seq<LodSplat>, small: spec_fn(u32) -> bool, k: int)
    requires
        0 < splats.len() <= u32::MAX,
        downward(splats),
        0 <= k,
    ensures
        all_from(nodes_at(splats, small, k), k, splats.len() as int),
    decreases k,
{
    if k > 0 {
        lemma_rounds_descend(splats, small, k - 1);
        lemma_children_come_after(splats, small, nodes_at(splats, small, k - 1), k - 1);
    }
}

proof fn lemma_children_come_after(
    splats: Seq<LodSplat>,
    small: spec_fn(u32) -> bool,
    nodes: Seq<u32>,
    k: int,
)
    requires
        splats.len() <= u32::MAX,
        downward(splats),
        0 <= k,
        all_from(nodes, k, splats.len() as int),
    ensures
        all_from(next_nodes(splats, small, nodes), k + 1, splats.len() as int),
    decreases nodes.len(),
{
    if nodes.len() > 0 {
        let rest = nodes.drop_last();
        assert(all_from(rest, k, splats.len() as int)) by {
            assert(forall|i: int| 0 <= i < rest.len() ==> rest[i] == nodes[i]);
        }
        lemma_children_come_after(splats, small, rest, k);
        let n = nodes[nodes.len() - 1];
        let s = splats[n as int];
        assert(s.child_count > 0 ==> n < s.child_start);
        let before = next_nodes(splats, small, rest);
        let all = next_nodes(splats, small, nodes);
        assert forall|i: int| 0 <= i < all.len() implies k + 1 <= #[trigger] all[i] && all[i]
            < splats.len() by {
            if i < before.len() {
                assert(all[i] == before[i]);
            } else {
                assert(all[i] == s.child_start + (i - before.len()));
            }
        }
    }
}

/// What is found does not depend on how often it is looked for once nothing is left to look at.
pub proof fn law_level_is_determined(
    splats: Seq<LodSplat>,
    small: spec_fn(u32) -> bool,
    k: nat,
    l: nat,
)
    requires
        runs_out(splats, small, k),
        runs_out(splats, small, l),
    ensures
        found(splats, small, k as int) == found(splats, small, l as int),
{
    if k <= l {
        lemma_nothing_more(splats, small, k as int, l as int);
    } else {
        lemma_nothing_more(splats, small, l as int, k as int);
    }
}

proof fn lemma_nothing_more(
    splats: Seq<LodSplat>,
    small: spec_fn(u32) -> bool,
    k: int,
    l: int,
)
    requires
        0 <= k <= l,
        nodes_at(splats, small, k).len() == 0,
    ensures
        nodes_at(splats, small, l).len() == 0,
        found(splats, small, l) == found(splats, small, k),
    decreases l,
{
    if k < l {
        lemma_nothing_more(splats, small, k, l - 1);
        reveal(Seq::filter);
        assert(found(splats, small, l) =~= found(splats, small, l - 1));
    }
}

impl LodState {
    /// One round: sorts out what is small enough, and collects the children of the rest.
    fn level_round<W: Fn(u16) -> Scale, S: Fn(Scale, u32) -> Scale>(
        splats: &Vec<LodSplat>,
        levels: &Levels<W, S>,
        Ghost(level): Ghost<u32>,
        level_size: Scale,
        nodes: &Vec<u32>,
        output: &mut Vec<u32>,
    ) -> (r: Vec<u32>)
        requires
            levels.lawful(),
            level_size == levels.shrunk(levels.widened(splats@[0].size), level),
            round_sound(splats@, levels.small(splats@, level), nodes@),
        ensures
            r@ == next_nodes(splats@, levels.small(splats@, level), nodes@),
            final(output)@ == old(output)@ + nodes@.filter(levels.small(splats@, level)),
    {
        let ghost small = levels.small(splats@, level);
        let mut new_nodes: Vec<u32> = Vec::new();
        let mut i: usize = 0;
        proof {
            reveal(Seq::filter);
            assert(nodes@.take(0).len() == 0);
            assert(output@ =~= old(output)@ + nodes@.take(0).filter(small));
        }
        while i < nodes.len()
            invariant
                i <= nodes@.len(),
                levels.lawful(),
                small == levels.small(splats@, level),
                level_size == levels.shrunk(levels.widened(splats@[0].size), level),
                round_sound(splats@, small, nodes@),
                new_nodes@ == next_nodes(splats@, small, nodes@.take(i as int)),
                output@ == old(output)@ + nodes@.take(i as int).filter(small),
            decreases nodes@.len() - i,
        {
            let node: u32 = nodes[i];
            assert(nodes@[i as int] == node);
            let splat = splats[node as usize];
            let ghost taken = nodes@.take(i as int);
            proof {
                assert(nodes@.take(i + 1) =~= taken.push(node));
                assert(taken.push(node).drop_last() =~= taken);
                reveal(Seq::filter);
            }
            if (levels.widen)(splat.size).le(level_size) {
                output.push(node);
                proof {
                    assert(output@ =~= old(output)@ + nodes@.take(i + 1).filter(small));
                }
            } else {
                let ghost before = new_nodes@;
                let ghost f = |g: int| (splat.child_start + g) as u32;
                let mut g: u16 = 0;
                proof {
                    assert(new_nodes@ =~= before + Seq::new(0nat, f));
                }
                while g < splat.child_count
                    invariant
                        g <= splat.child_count,
                        splat.child_start + splat.child_count <= u32::MAX,
                        f == (|g: int| (splat.child_start + g) as u32),
                        new_nodes@ == before + Seq::new(g as nat, f),
                    decreases splat.child_count - g,
                {
                    new_nodes.push(splat.child_start + g as u32);
                    g += 1;
                    proof {
                        assert(new_nodes@ =~= before + Seq::new(g as nat, f));
                    }
                }
            }
            i += 1;
        }
        proof {
            assert(nodes@.take(i as int) =~= nodes@);
        }
        new_nodes
    }

    /// The nodes of a level: from the root down, the first on each way that are no larger than
    /// the size of that level. A leaf that is larger is not among them.
    pub fn get_lod_tree_level<W: Fn(u16) -> Scale, S: Fn(Scale, u32) -> Scale>(
        &self,
        lod_id: u32,
        level: u32,
        levels: &Levels<W, S>,
    ) -> (r: Vec<u32>)
        requires
            self.wf(),
            self@.trees.contains_key(lod_id),
            levels.lawful(),
            exists|k: nat|
                runs_out(
                    self@.splats(lod_id),
                    levels.small(self@.splats(lod_id), level),
                    k,
                ),
        ensures
            exists|k: nat|
                {
                    &&& #[trigger] runs_out(
                        self@.splats(lod_id),
                        levels.small(self@.splats(lod_id), level),
                        k,
                    )
                    &&& r@ == found(
                        self@.splats(lod_id),
                        levels.small(self@.splats(lod_id), level),
                        k as int,
                    )
                },
    {
        let slot: usize = self.slot_of(lod_id);
        let store: usize = self.trees[slot].store;
        let splats = &self.stores[store];
        let ghost small = levels.small(splats@, level);
        let ghost last = choose|k: nat| runs_out(splats@, small, k);
        proof {
            assert(self@.splats(lod_id) == splats@);
            assert(runs_out(splats@, small, last));
            assert(nodes_at(splats@, small, 0).len() == 1);
            assert(last > 0);
            assert(round_sound(splats@, small, nodes_at(splats@, small, 0)));
            assert(nodes_at(splats@, small, 0)[0] == 0);
        }
        let root_size = (levels.widen)(splats[0].size);
        let level_size = (levels.shrink)(root_size, level);
        let mut nodes: Vec<u32> = Vec::new();
        nodes.push(0);
        let mut output: Vec<u32> = Vec::new();
        let ghost mut k: nat = 0;
        proof {
            assert(nodes@ =~= nodes_at(splats@, small, 0));
        }
        while nodes.len() > 0
            invariant
                levels.lawful(),
                small == levels.small(splats@, level),
                level_size == levels.shrunk(levels.widened(splats@[0].size), level),
                runs_out(splats@, small, last),
                k <= last,
                nodes@ == nodes_at(splats@, small, k as int),
                output@ == found(splats@, small, k as int),
            decreases last - k,
        {
            assert(round_sound(splats@, small, nodes_at(splats@, small, k as int)));
            nodes = Self::level_round(
                splats,
                levels,
                Ghost(level),
                level_size,
                &nodes,
                &mut output,
            );
            proof {
                k = k + 1;
            }
        }
        proof {
            assert(runs_out(splats@, small, k));
        }
        output
    }
}

} // verus!
