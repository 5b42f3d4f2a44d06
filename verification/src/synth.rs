//! Synthetic trees for measuring and for checking: breadth-first numbering, four to eight
//! children each, and a page table that is not the identity.

use ahash::AHashMap;
use vstd::prelude::*;
use vstd::seq_lib::group_to_multiset_ensures;

use crate::entry::{CutNode, Entry, MAX_PAGED_INDEX};
use crate::hash::{words, words_get, words_insert, words_new};
use crate::heap::Heap;
use crate::lod_query::{lemma_of_instance_counts, of_instance, split_by_instance};
use crate::scale::Scale;
use crate::splat::{blank, LodSplat};
use crate::traverse::{
    job, limit_key, root_slot, seeded, unseeded, Job, Progress, TraverseCore,
};
use crate::traverse_laws::law_seeded_cut_is_the_roots;
use crate::tree_view::{
    chunk_of, measured, measures, paged_index, to_paged, InstanceParams, TreeView,
};

verus! {

/// Nodes in a chunk.
pub const CHUNK: usize = 65536;

/// Bits of the pixel scale limit that the measurements use, 0.000976.
pub const PIXEL_SCALE_LIMIT_BITS: u32 = 0x3a7f_da40;

/// A xorshift64* generator.
#[derive(Debug)]
pub struct Rng(pub u64);

/// The state after one draw.
pub open spec fn stirred(x: u64) -> u64 {
    let a = x ^ (x >> 12);
    let b = a ^ (a << 25);
    b ^ (b >> 27)
}

/// The number drawn on the way to state `x`.
pub open spec fn drawn(x: u64) -> u64 {
    ((x as int * 0x2545_F491_4F6C_DD1D) % 0x1_0000_0000_0000_0000) as u64
}

impl Rng {
    pub fn new(seed: u64) -> (r: Rng)
        ensures
            r.0 == seed | 1,
            r.0 != 0,
    {
        assert(seed | 1 != 0) by (bit_vector);
        Rng(seed | 1)
    }

    pub fn next_u64(&mut self) -> (r: u64)
        ensures
            final(self).0 == stirred(old(self).0),
            r == drawn(stirred(old(self).0)),
    {
        let mut x: u64 = self.0;
        x = x ^ (x >> 12);
        x = x ^ (x << 25);
        x = x ^ (x >> 27);
        self.0 = x;
        x.wrapping_mul(0x2545_F491_4F6C_DD1D)
    }

    /// 24 random bits, the fraction of a number between 0 and 1.
    pub fn fraction(&mut self) -> (r: u32)
        ensures
            final(self).0 == stirred(old(self).0),
            r == drawn(stirred(old(self).0)) >> 40,
            r < 0x100_0000,
    {
        let x: u64 = self.next_u64();
        assert(x >> 40 < 0x100_0000) by (bit_vector);
        (x >> 40) as u32
    }

    /// A number from `lo` to `hi_inclusive`.
    pub fn range(&mut self, lo: u32, hi_inclusive: u32) -> (r: u32)
        requires
            lo <= hi_inclusive,
            hi_inclusive - lo < u32::MAX,
        ensures
            final(self).0 == stirred(old(self).0),
            lo <= r <= hi_inclusive,
            r == lo + drawn(stirred(old(self).0)) % ((hi_inclusive - lo + 1) as u64),
    {
        let span: u64 = (hi_inclusive - lo + 1) as u64;
        lo + (self.next_u64() % span) as u32
    }
}

/// Fingerprint of the first `n` numbers: FNV-1a, number by number.
pub open spec fn fingerprint(s: Seq<u32>, n: int) -> u64
    decreases n,
{
    if n <= 0 {
        0xcbf2_9ce4_8422_2325
    } else {
        (((fingerprint(s, n - 1) ^ (s[n - 1] as u64)) as int * 0x0000_0100_0000_01b3)
            % 0x1_0000_0000_0000_0000) as u64
    }
}

/// Fingerprint of a cut.
pub fn cut_hash(sorted: &[u32]) -> (r: u64)
    ensures
        r == fingerprint(sorted@, sorted@.len() as int),
{
    let mut h: u64 = 0xcbf2_9ce4_8422_2325;
    let mut i: usize = 0;
    while i < sorted.len()
        invariant
            i <= sorted@.len(),
            h == fingerprint(sorted@, i as int),
        decreases sorted@.len() - i,
    {
        h = h ^ (sorted[i] as u64);
        h = h.wrapping_mul(0x0000_0100_0000_01b3);
        i += 1;
    }
    h
}

/// The generator never gets stuck at 0.
pub proof fn law_generator_stays_alive(x: u64)
    requires
        x != 0,
    ensures
        stirred(x) != 0,
{
    let a = x ^ (x >> 12);
    let b = a ^ (a << 25);
    assert(x ^ (x >> 12) != 0) by (bit_vector)
        requires
            x != 0,
    ;
    assert(a ^ (a << 25) != 0) by (bit_vector)
        requires
            a != 0,
    ;
    assert(b ^ (b >> 27) != 0) by (bit_vector)
        requires
            b != 0,
    ;
}

/// The two computations on the shape of a node, its center and size.
pub struct Shapes<K, E> {
    /// Shape of a child, given that of its parent and three random fractions.
    pub child: K,
    /// Half-precision center and size.
    pub encode: E,
}

/// A tree that is still growing.
#[verifier::ext_equal]
pub struct Growth<G> {
    pub rng: u64,
    pub nodes: Seq<LodSplat>,
    pub parent: Seq<u32>,
    pub shapes: Seq<G>,
}

/// The fraction drawn on the way to state `x`.
pub open spec fn fraction_of(x: u64) -> u32 {
    (drawn(x) >> 40) as u32
}

/// The shape of a child.
pub open spec fn child_shape<G, K: Fn(G, u32, u32, u32) -> G>(
    child: K,
    g: G,
    a: u32,
    b: u32,
    c: u32,
) -> G {
    choose|r: G| call_ensures(child, (g, a, b, c), r)
}

/// A leaf of the given shape.
pub open spec fn leaf_of<G, E: Fn(G) -> ([u16; 3], u16)>(encode: E, g: G) -> LodSplat {
    let code: ([u16; 3], u16) = choose|r: ([u16; 3], u16)| call_ensures(encode, (g,), r);
    LodSplat { center: code.0, size: code.1, child_start: 0, child_count: 0 }
}

/// The two accept everything and depend on their arguments alone.
pub open spec fn shapes_lawful<
    G,
    K: Fn(G, u32, u32, u32) -> G,
    E: Fn(G) -> ([u16; 3], u16),
>(shapes: Shapes<K, E>) -> bool {
    &&& forall|g: G, a: u32, b: u32, c: u32| #[trigger]
        call_requires(shapes.child, (g, a, b, c))
    &&& forall|g: G| #[trigger] call_requires(shapes.encode, (g,))
    &&& forall|g: G, a: u32, b: u32, c: u32, r: G| #[trigger]
        call_ensures(shapes.child, (g, a, b, c), r) ==> r == child_shape(shapes.child, g, a, b, c)
    &&& forall|g: G, r: ([u16; 3], u16)| #[trigger]
        call_ensures(shapes.encode, (g,), r) ==> LodSplat {
            center: r.0,
            size: r.1,
            child_start: 0,
            child_count: 0,
        } == leaf_of(shapes.encode, g)
}

/// A tree that is the root alone.
pub open spec fn sprout<G, E: Fn(G) -> ([u16; 3], u16)>(
    encode: E,
    seed: u64,
    root: G,
) -> Growth<G> {
    Growth {
        rng: seed | 1,
        nodes: seq![leaf_of(encode, root)],
        parent: seq![u32::MAX],
        shapes: seq![root],
    }
}

/// With `j` more leaves, children of node `head`.
pub open spec fn with_leaves<
    G,
    K: Fn(G, u32, u32, u32) -> G,
    E: Fn(G) -> ([u16; 3], u16),
>(shapes: Shapes<K, E>, t: Growth<G>, head: int, j: int) -> Growth<G>
    decreases j,
{
    if j <= 0 {
        t
    } else {
        let u = with_leaves(shapes, t, head, j - 1);
        let a = stirred(u.rng);
        let b = stirred(a);
        let c = stirred(b);
        let g = child_shape(
            shapes.child,
            t.shapes[head],
            fraction_of(a),
            fraction_of(b),
            fraction_of(c),
        );
        Growth {
            rng: c,
            nodes: u.nodes.push(leaf_of(shapes.encode, g)),
            parent: u.parent.push(head as u32),
            shapes: u.shapes.push(g),
        }
    }
}

/// How many children the next node gets.
pub open spec fn litter(t_rng: u64) -> int {
    4 + drawn(stirred(t_rng)) as int % 5
}

/// The tree after node `head` got its children; none if the tree is large enough, or its
/// children would make it too large.
pub open spec fn branched<
    G,
    K: Fn(G, u32, u32, u32) -> G,
    E: Fn(G) -> ([u16; 3], u16),
>(shapes: Shapes<K, E>, max_nodes: int, t: Growth<G>, head: int) -> Option<Growth<G>> {
    let count = litter(t.rng);
    if head >= t.nodes.len() || t.nodes.len() >= max_nodes || t.nodes.len() + count > max_nodes {
        None
    } else {
        let u = with_leaves(
            shapes,
            Growth { rng: stirred(t.rng), ..t },
            head,
            count,
        );
        Some(
            Growth {
                nodes: u.nodes.update(
                    head,
                    LodSplat {
                        child_start: t.nodes.len() as u32,
                        child_count: count as u16,
                        ..leaf_of(shapes.encode, t.shapes[head])
                    },
                ),
                ..u
            },
        )
    }
}

/// The tree after its first `k` nodes got their children.
pub open spec fn branched_to<
    G,
    K: Fn(G, u32, u32, u32) -> G,
    E: Fn(G) -> ([u16; 3], u16),
>(shapes: Shapes<K, E>, seed: u64, max_nodes: int, root: G, k: nat) -> Option<Growth<G>>
    decreases k,
{
    if k == 0 {
        Some(sprout(shapes.encode, seed, root))
    } else {
        match branched_to(shapes, seed, max_nodes, root, (k - 1) as nat) {
            Some(t) => branched(shapes, max_nodes, t, k - 1),
            None => None,
        }
    }
}

/// A tree numbered by chunk, with the parent of every node.
#[derive(Debug)]
pub struct SynthTree {
    pub nodes: Vec<LodSplat>,
    pub parent: Vec<u32>,
    pub num_chunks: usize,
}

/// Numbered breadth first: every node but the root comes after its parent, and is in the run of
/// its parent's children, and every node in that run has it as its parent.
pub open spec fn breadth_first(nodes: Seq<LodSplat>, parent: Seq<u32>) -> bool {
    &&& nodes.len() > 0
    &&& parent.len() == nodes.len()
    &&& parent[0] == u32::MAX
    &&& forall|i: int|
        0 < i < nodes.len() ==> {
            &&& (#[trigger] parent[i]) < i
            &&& nodes[parent[i] as int].child_start <= i < nodes[parent[i] as int].child_start
                + nodes[parent[i] as int].child_count
        }
    &&& forall|n: int|
        0 <= n < nodes.len() && (#[trigger] nodes[n]).child_count > 0 ==> {
            &&& 4 <= nodes[n].child_count <= 8
            &&& n < nodes[n].child_start
            &&& nodes[n].child_start + nodes[n].child_count <= nodes.len()
            &&& forall|i: int|
                nodes[n].child_start <= i < nodes[n].child_start + nodes[n].child_count
                    ==> #[trigger] parent[i] == n
        }
}

/// Where the children of the first `n` nodes end.
pub open spec fn run_end(nodes: Seq<LodSplat>, n: int) -> int {
    if n <= 0 {
        1
    } else {
        nodes[n - 1].child_start + nodes[n - 1].child_count
    }
}

/// The first `k` nodes have children, and the others have none; and the runs of children follow
/// one another without a gap, from behind the root to the end.
pub open spec fn tiled(nodes: Seq<LodSplat>, k: int) -> bool {
    &&& 0 <= k < nodes.len()
    &&& forall|n: int|
        0 <= n < k ==> (#[trigger] nodes[n]).child_count > 0 && nodes[n].child_start == run_end(
            nodes,
            n,
        )
    &&& forall|n: int| k <= n < nodes.len() ==> (#[trigger] nodes[n]).child_count == 0
    &&& run_end(nodes, k) == nodes.len()
}

/// Adds the children of node `head`.
fn add_leaves<G: Copy, K: Fn(G, u32, u32, u32) -> G, E: Fn(G) -> ([u16; 3], u16)>(
    shapes: &Shapes<K, E>,
    rng: &mut Rng,
    nodes: &mut Vec<LodSplat>,
    parent: &mut Vec<u32>,
    geometry: &mut Vec<G>,
    head: usize,
    count: usize,
)
    requires
        shapes_lawful::<G, K, E>(*shapes),
        head < old(geometry)@.len(),
        head <= u32::MAX,
    ensures
        (Growth {
            rng: final(rng).0,
            nodes: final(nodes)@,
            parent: final(parent)@,
            shapes: final(geometry)@,
        }) == with_leaves(
            *shapes,
            Growth {
                rng: old(rng).0,
                nodes: old(nodes)@,
                parent: old(parent)@,
                shapes: old(geometry)@,
            },
            head as int,
            count as int,
        ),
{
    let g0 = geometry[head];
    let ghost t = Growth {
        rng: rng.0,
        nodes: nodes@,
        parent: parent@,
        shapes: geometry@,
    };
    let mut j: usize = 0;
    while j < count
        invariant
            j <= count,
            shapes_lawful::<G, K, E>(*shapes),
            head < t.shapes.len(),
            head <= u32::MAX,
            g0 == t.shapes[head as int],
            (Growth { rng: rng.0, nodes: nodes@, parent: parent@, shapes: geometry@ })
                == with_leaves(*shapes, t, head as int, j as int),
        decreases count - j,
    {
        let a: u32 = rng.fraction();
        let b: u32 = rng.fraction();
        let c: u32 = rng.fraction();
        let g = (shapes.child)(g0, a, b, c);
        let (center, size) = (shapes.encode)(g);
        nodes.push(LodSplat::new_f16(center, size, 0, 0));
        parent.push(head as u32);
        geometry.push(g);
        j += 1;
    }
}

/// Gives node `head` its children; false if the tree is large enough, or they do not fit.
fn branch<G: Copy, K: Fn(G, u32, u32, u32) -> G, E: Fn(G) -> ([u16; 3], u16)>(
    shapes: &Shapes<K, E>,
    max_nodes: usize,
    rng: &mut Rng,
    nodes: &mut Vec<LodSplat>,
    parent: &mut Vec<u32>,
    geometry: &mut Vec<G>,
    head: usize,
) -> (more: bool)
    requires
        shapes_lawful::<G, K, E>(*shapes),
        max_nodes <= u32::MAX,
        old(geometry)@.len() == old(nodes)@.len(),
    ensures
        ({
            let t = Growth {
                rng: old(rng).0,
                nodes: old(nodes)@,
                parent: old(parent)@,
                shapes: old(geometry)@,
            };
            match branched(*shapes, max_nodes as int, t, head as int) {
                Some(u) => {
                    &&& more
                    &&& u == (Growth {
                        rng: final(rng).0,
                        nodes: final(nodes)@,
                        parent: final(parent)@,
                        shapes: final(geometry)@,
                    })
                    &&& old(nodes)@.len() < final(nodes)@.len() <= max_nodes
                    &&& head < old(nodes)@.len()
                },
                None => {
                    &&& !more
                    &&& final(nodes)@ == old(nodes)@
                    &&& final(parent)@ == old(parent)@
                },
            }
        }),
        final(geometry)@.len() == final(nodes)@.len(),
{
    let ghost t = Growth { rng: rng.0, nodes: nodes@, parent: parent@, shapes: geometry@ };
    if head >= nodes.len() || nodes.len() >= max_nodes {
        return false;
    }
    let count: usize = rng.range(4, 8) as usize;
    assert(count == litter(t.rng));
    if count > max_nodes - nodes.len() {
        return false;
    }
    let child_start: u32 = nodes.len() as u32;
    let g = geometry[head];
    add_leaves(shapes, rng, nodes, parent, geometry, head, count);
    proof {
        lemma_with_leaves_len(
            *shapes,
            Growth { rng: stirred(t.rng), ..t },
            head as int,
            count as int,
        );
    }
    let (center, size) = (shapes.encode)(g);
    nodes.set(head, LodSplat::new_f16(center, size, child_start, count as u16));
    true
}

/// Grows a tree breadth first until it has `max_nodes` nodes, or another node's children would
/// not fit.
pub fn build_synth<G: Copy, K: Fn(G, u32, u32, u32) -> G, E: Fn(G) -> ([u16; 3], u16)>(
    seed: u64,
    max_nodes: usize,
    root: G,
    shapes: &Shapes<K, E>,
) -> (r: SynthTree)
    requires
        shapes_lawful::<G, K, E>(*shapes),
        max_nodes <= u32::MAX,
    ensures
        exists|k: nat|
            {
                &&& #[trigger] branched_to(*shapes, seed, max_nodes as int, root, k) matches Some(t)
                &&& branched(*shapes, max_nodes as int, t, k as int) is None
                &&& r.nodes@ == t.nodes
                &&& r.parent@ == t.parent
            },
        breadth_first(r.nodes@, r.parent@),
        exists|k: int| #[trigger] tiled(r.nodes@, k),
        r.nodes@.len() <= max_nodes || r.nodes@.len() == 1,
        max_nodes < r.nodes@.len() + 8,
        r.num_chunks == (r.nodes@.len() + CHUNK - 1) / (CHUNK as int),
{
    let mut rng = Rng::new(seed);
    let mut nodes: Vec<LodSplat> = Vec::with_capacity(max_nodes);
    let mut parent: Vec<u32> = Vec::with_capacity(max_nodes);
    let mut geometry: Vec<G> = Vec::with_capacity(max_nodes);
    let (center, size) = (shapes.encode)(root);
    nodes.push(LodSplat::new_f16(center, size, 0, 0));
    parent.push(u32::MAX);
    geometry.push(root);
    let mut head: usize = 0;
    let ghost max = max_nodes as int;
    proof {
        assert((Growth { rng: rng.0, nodes: nodes@, parent: parent@, shapes: geometry@ })
            =~= sprout(shapes.encode, seed, root));
    }
    loop
        invariant
            shapes_lawful::<G, K, E>(*shapes),
            max == max_nodes,
            max_nodes <= u32::MAX,
            nodes@.len() <= max || nodes@.len() == 1,
            geometry@.len() == nodes@.len(),
            head <= nodes@.len(),
            branched_to(*shapes, seed, max, root, head as nat) == Some(
                Growth { rng: rng.0, nodes: nodes@, parent: parent@, shapes: geometry@ },
            ),
        decreases max + 1 - nodes@.len(),
    {
        let ghost t = Growth { rng: rng.0, nodes: nodes@, parent: parent@, shapes: geometry@ };
        let more = branch(
            shapes,
            max_nodes,
            &mut rng,
            &mut nodes,
            &mut parent,
            &mut geometry,
            head,
        );
        if !more {
            proof {
                lemma_grows_breadth_first(*shapes, seed, max, root, head as nat);
                lemma_grows_by_runs(*shapes, seed, max, root, head as nat);
                assert(tiled(nodes@, head as int));
            }
            let full: usize = nodes.len() / CHUNK;
            let num_chunks: usize = if nodes.len() % CHUNK == 0 {
                full
            } else {
                full + 1
            };
            return SynthTree { nodes, parent, num_chunks };
        }
        head += 1;
    }
}

/// The tree is numbered breadth first at all times, and the nodes from `k` on are leaves.
proof fn lemma_grows_breadth_first<
    G,
    K: Fn(G, u32, u32, u32) -> G,
    E: Fn(G) -> ([u16; 3], u16),
>(shapes: Shapes<K, E>, seed: u64, max_nodes: int, root: G, k: nat)
    requires
        branched_to(shapes, seed, max_nodes, root, k) is Some,
        max_nodes <= u32::MAX,
    ensures
        ({
            let t = branched_to(shapes, seed, max_nodes, root, k)->0;
            &&& breadth_first(t.nodes, t.parent)
            &&& t.nodes.len() <= max_nodes || t.nodes.len() == 1
            &&& forall|n: int| k <= n < t.nodes.len() ==> (#[trigger] t.nodes[n]).child_count == 0
        }),
    decreases k,
{
    if k > 0 {
        let head = k - 1;
        lemma_grows_breadth_first(shapes, seed, max_nodes, root, (k - 1) as nat);
        let t = branched_to(shapes, seed, max_nodes, root, (k - 1) as nat)->0;
        let count = litter(t.rng);
        let s = Growth { rng: stirred(t.rng), ..t };
        let u = with_leaves(shapes, s, head, count);
        let v = branched_to(shapes, seed, max_nodes, root, k)->0;
        lemma_with_leaves_len(shapes, s, head, count);
        lemma_with_leaves(shapes, s, head, count);
        let len = t.nodes.len();
        assert forall|i: int| 0 < i < v.nodes.len() implies (#[trigger] v.parent[i]) < i
            && v.nodes[v.parent[i] as int].child_start <= i
            < v.nodes[v.parent[i] as int].child_start
            + v.nodes[v.parent[i] as int].child_count by {
            if i < len {
                assert(u.parent[i] == t.parent[i]);
                assert(t.parent[i] < i);
                assert(t.nodes[t.parent[i] as int].child_count > 0);
                assert(t.parent[i] != head);
                assert(u.nodes[t.parent[i] as int] == t.nodes[t.parent[i] as int]);
            } else {
                assert(u.parent[i] == head);
            }
        }
        assert forall|n: int|
            0 <= n < v.nodes.len() && (#[trigger] v.nodes[n]).child_count > 0 implies 4
            <= v.nodes[n].child_count <= 8 && n < v.nodes[n].child_start && v.nodes[n].child_start
            + v.nodes[n].child_count <= v.nodes.len() && forall|i: int|
            v.nodes[n].child_start <= i < v.nodes[n].child_start + v.nodes[n].child_count
                ==> #[trigger] v.parent[i] == n by {
            if n == head {
                assert forall|i: int| len <= i < len + count implies #[trigger] v.parent[i]
                    == head by {
                    assert(u.parent[i] == head);
                }
            } else if n < len {
                assert(u.nodes[n] == t.nodes[n]);
                assert forall|i: int|
                    v.nodes[n].child_start <= i < v.nodes[n].child_start
                        + v.nodes[n].child_count implies #[trigger] v.parent[i] == n by {
                    assert(u.parent[i] == t.parent[i]);
                    assert(t.parent[i] == n);
                }
            } else {
                assert(u.nodes[n].child_count == 0);
            }
        }
        assert forall|n: int| k <= n < v.nodes.len() implies (#[trigger] v.nodes[n]).child_count
            == 0 by {
            if n < len {
                assert(u.nodes[n] == t.nodes[n]);
            } else {
                assert(u.nodes[n].child_count == 0);
            }
        }
    }
}

/// The children of the first `k` nodes lie side by side at all times.
proof fn lemma_grows_by_runs<
    G,
    K: Fn(G, u32, u32, u32) -> G,
    E: Fn(G) -> ([u16; 3], u16),
>(shapes: Shapes<K, E>, seed: u64, max_nodes: int, root: G, k: nat)
    requires
        branched_to(shapes, seed, max_nodes, root, k) is Some,
        max_nodes <= u32::MAX,
    ensures
        tiled((branched_to(shapes, seed, max_nodes, root, k)->0).nodes, k as int),
    decreases k,
{
    if k > 0 {
        let head = k - 1;
        lemma_grows_by_runs(shapes, seed, max_nodes, root, (k - 1) as nat);
        lemma_grows_breadth_first(shapes, seed, max_nodes, root, (k - 1) as nat);
        let t = branched_to(shapes, seed, max_nodes, root, (k - 1) as nat)->0;
        let count = litter(t.rng);
        let s = Growth { rng: stirred(t.rng), ..t };
        let u = with_leaves(shapes, s, head, count);
        let v = branched_to(shapes, seed, max_nodes, root, k)->0;
        lemma_with_leaves(shapes, s, head, count);
        let len = t.nodes.len();
        assert forall|n: int| 0 <= n < len && n != head implies #[trigger] v.nodes[n]
            == t.nodes[n] by {
            assert(u.nodes[n] == t.nodes[n]);
        }
        assert forall|n: int| 0 <= n < k implies (#[trigger] v.nodes[n]).child_count > 0
            && v.nodes[n].child_start == run_end(v.nodes, n) by {
            assert(run_end(v.nodes, n) == run_end(t.nodes, n));
            if n < head {
                assert(t.nodes[n].child_count > 0);
            }
        }
        assert forall|n: int| k <= n < v.nodes.len() implies (#[trigger] v.nodes[n]).child_count
            == 0 by {
            if n >= len {
                assert(u.nodes[n].child_count == 0);
            }
        }
    }
}

/// New leaves leave the old nodes as they are, are leaves, and are children of `head`.
proof fn lemma_with_leaves<G, K: Fn(G, u32, u32, u32) -> G, E: Fn(G) -> ([u16; 3], u16)>(
    shapes: Shapes<K, E>,
    t: Growth<G>,
    head: int,
    j: int,
)
    requires
        0 <= j,
        0 <= head <= u32::MAX,
        t.parent.len() == t.nodes.len(),
    ensures
        ({
            let u = with_leaves(shapes, t, head, j);
            &&& u.nodes.len() == t.nodes.len() + j
            &&& u.parent.len() == u.nodes.len()
            &&& forall|i: int| 0 <= i < t.nodes.len() ==> #[trigger] u.nodes[i] == t.nodes[i]
            &&& forall|i: int| 0 <= i < t.nodes.len() ==> #[trigger] u.parent[i] == t.parent[i]
            &&& forall|i: int|
                t.nodes.len() <= i < u.nodes.len() ==> (#[trigger] u.nodes[i]).child_count == 0
            &&& forall|i: int| t.nodes.len() <= i < u.nodes.len() ==> #[trigger] u.parent[i] == head
        }),
    decreases j,
{
    if j > 0 {
        lemma_with_leaves(shapes, t, head, j - 1);
    }
}

proof fn lemma_with_leaves_len<G, K: Fn(G, u32, u32, u32) -> G, E: Fn(G) -> ([u16; 3], u16)>(
    shapes: Shapes<K, E>,
    t: Growth<G>,
    head: int,
    j: int,
)
    requires
        0 <= j,
    ensures
        with_leaves(shapes, t, head, j).nodes.len() == t.nodes.len() + j,
        with_leaves(shapes, t, head, j).parent.len() == t.parent.len() + j,
        with_leaves(shapes, t, head, j).shapes.len() == t.shapes.len() + j,
    decreases j,
{
    if j > 0 {
        lemma_with_leaves_len(shapes, t, head, j - 1);
    }
}

/// The page of chunk `c` among `pages`: back to front.
pub open spec fn mirrored(pages: int, c: int) -> int {
    pages - 1 - c
}

/// Where node `i` lies once the tree is laid out in `pages` pages.
pub open spec fn laid_out(pages: int, i: int) -> int {
    mirrored(pages, i / 0x1_0000) * 0x1_0000 + i % 0x1_0000
}

/// Lays a tree out in pages, back to front. Gives the nodes by paged index, the page of each
/// chunk, and the page of the root.
pub fn page_out(tree: &SynthTree) -> (r: (Vec<LodSplat>, Vec<u32>, u32))
    requires
        0 < tree.num_chunks <= u32::MAX,
        tree.nodes@.len() <= tree.num_chunks * CHUNK,
        tree.num_chunks * CHUNK <= usize::MAX,
    ensures
        r.0@.len() == tree.num_chunks * CHUNK,
        forall|i: int|
            0 <= i < tree.nodes@.len() ==> r.0@[laid_out(tree.num_chunks as int, i)]
                == #[trigger] tree.nodes@[i],
        forall|p: int|
            0 <= p < r.0@.len() && laid_out(tree.num_chunks as int, p) >= tree.nodes@.len()
                ==> #[trigger] r.0@[p] == blank(),
        r.1@ == Seq::new(
            tree.num_chunks as nat,
            |c: int| mirrored(tree.num_chunks as int, c) as u32,
        ),
        r.2 == tree.num_chunks - 1,
{
    let pages: usize = tree.num_chunks;
    let ghost f = |c: int| mirrored(pages as int, c) as u32;
    let mut chunk_to_page: Vec<u32> = Vec::new();
    while chunk_to_page.len() < pages
        invariant
            chunk_to_page@.len() <= pages,
            pages <= u32::MAX,
            f == (|c: int| mirrored(pages as int, c) as u32),
            chunk_to_page@ == Seq::new(chunk_to_page@.len(), f),
        decreases pages - chunk_to_page@.len(),
    {
        let c: usize = chunk_to_page.len();
        chunk_to_page.push((pages - 1 - c) as u32);
        proof {
            assert(chunk_to_page@ =~= Seq::new(chunk_to_page@.len(), f));
        }
    }
    let size: usize = pages * CHUNK;
    let mut splats: Vec<LodSplat> = Vec::with_capacity(size);
    while splats.len() < size
        invariant
            splats@.len() <= size,
            forall|p: int| 0 <= p < splats@.len() ==> #[trigger] splats@[p] == blank(),
        decreases size - splats@.len(),
    {
        splats.push(LodSplat::default());
    }
    let mut i: usize = 0;
    while i < tree.nodes.len()
        invariant
            i <= tree.nodes@.len(),
            pages == tree.num_chunks,
            pages <= u32::MAX,
            size == pages * CHUNK,
            splats@.len() == size,
            tree.nodes@.len() <= size,
            chunk_to_page@ == Seq::new(pages as nat, f),
            f == (|c: int| mirrored(pages as int, c) as u32),
            forall|k: int|
                0 <= k < i ==> splats@[laid_out(pages as int, k)] == #[trigger] tree.nodes@[k],
            forall|p: int|
                0 <= p < splats@.len() && laid_out(pages as int, p) >= tree.nodes@.len()
                    ==> #[trigger] splats@[p] == blank(),
        decreases tree.nodes@.len() - i,
    {
        assert(i / 0x1_0000 < pages);
        let page: usize = chunk_to_page[i / CHUNK] as usize;
        let at: usize = page * CHUNK + i % CHUNK;
        proof {
            assert(at == laid_out(pages as int, i as int));
            assert(at < size);
            lemma_mirror(pages as int, i as int);
        }
        let ghost before = splats@;
        splats.set(at, tree.nodes[i]);
        proof {
            assert forall|k: int| 0 <= k < i + 1 implies splats@[laid_out(pages as int, k)]
                == #[trigger] tree.nodes@[k] by {
                lemma_mirror(pages as int, k);
            }
        }
        i += 1;
    }
    let root_page: u32 = chunk_to_page[0];
    (splats, chunk_to_page, root_page)
}

/// Laying out twice leads back: no two nodes share a slot.
proof fn lemma_mirror(pages: int, i: int)
    requires
        0 <= i < pages * 0x1_0000,
    ensures
        0 <= laid_out(pages, i) < pages * 0x1_0000,
        laid_out(pages, laid_out(pages, i)) == i,
{
    let c = i / 0x1_0000;
    assert(0 <= c < pages);
    assert(laid_out(pages, i) / 0x1_0000 == mirrored(pages, c));
}

/// Every node has a slot of its own, and its chunk's page leads to it: a chunk-numbered index is
/// found under the page that the table gives for its chunk.
pub proof fn law_layout_is_one_to_one(pages: int, i: int, j: int)
    requires
        0 <= i < pages * 0x1_0000,
        0 <= j < pages * 0x1_0000,
        pages <= 0x1_0000,
    ensures
        laid_out(pages, i) == laid_out(pages, j) ==> i == j,
        laid_out(pages, i) == paged_index(
            mirrored(pages, i / 0x1_0000) as u32,
            i,
        ),
{
    lemma_mirror(pages, i);
    lemma_mirror(pages, j);
}

/// Sorted ascending.
pub open spec fn ascending(s: Seq<u32>) -> bool {
    forall|i: int, j: int| 0 <= i <= j < s.len() ==> (#[trigger] s[i]) <= (#[trigger] s[j])
}

/// The numbers in ascending order.
pub fn sort_ascending(numbers: &Vec<u32>) -> (r: Vec<u32>)
    ensures
        ascending(r@),
        r@.to_multiset() == numbers@.to_multiset(),
{
    broadcast use group_to_multiset_ensures;

    let mut heap = Heap::new();
    let mut i: usize = 0;
    let ghost word = |n: u32| Entry(n as u64);
    proof {
        assert(numbers@.take(0).map_values(word).to_multiset().len() == 0);
        assert(heap@ =~= numbers@.take(0).map_values(word).to_multiset());
    }
    while i < numbers.len()
        invariant
            i <= numbers@.len(),
            heap.wf(),
            word == (|n: u32| Entry(n as u64)),
            heap@ == numbers@.take(i as int).map_values(word).to_multiset(),
        decreases numbers@.len() - i,
    {
        let e = Entry(numbers[i] as u64);
        heap.push(e);
        proof {
            let taken = numbers@.take(i as int).map_values(word);
            assert(numbers@.take(i + 1).map_values(word) =~= taken.push(e));
            vstd::seq_lib::to_multiset_build(taken, e);
        }
        i += 1;
    }
    let sorted = heap.into_descending();
    let ghost words = numbers@.map_values(word);
    proof {
        assert(numbers@.take(i as int) =~= numbers@);
        assert(sorted@.to_multiset() == words.to_multiset());
        assert forall|k: int| 0 <= k < sorted@.len() implies (#[trigger] sorted@[k]).0
            <= u32::MAX by {
            assert(sorted@.contains(sorted@[k]));
            assert(words.to_multiset().count(sorted@[k]) > 0);
            assert(words.contains(sorted@[k]));
        }
    }
    let mut out: Vec<u32> = Vec::new();
    let mut left: usize = sorted.len();
    while left > 0
        invariant
            left <= sorted@.len(),
            out@.len() == sorted@.len() - left,
            forall|k: int| 0 <= k < sorted@.len() ==> (#[trigger] sorted@[k]).0 <= u32::MAX,
            forall|k: int|
                0 <= k < out@.len() ==> #[trigger] out@[k] == sorted@[sorted@.len() - 1 - k].0,
        decreases left,
    {
        left -= 1;
        out.push(sorted[left].0 as u32);
    }
    proof {
        assert forall|a: int, b: int| 0 <= a <= b < out@.len() implies (#[trigger] out@[a]) <= (
        #[trigger] out@[b]) by {
            if a < b {
                assert(sorted@[sorted@.len() - 1 - b].0 >= sorted@[sorted@.len() - 1 - a].0);
            }
        }
        assert(out@.map_values(word) =~= sorted@.reverse());
        sorted@.lemma_reverse_to_multiset();
        assert(out@.map_values(word).to_multiset() == words.to_multiset());
        lemma_words_tell_numbers_apart(out@, numbers@);
    }
    out
}

/// Two lists of numbers that agree as words agree as numbers.
proof fn lemma_words_tell_numbers_apart(a: Seq<u32>, b: Seq<u32>)
    requires
        a.map_values(|n: u32| Entry(n as u64)).to_multiset() == b.map_values(
            |n: u32| Entry(n as u64),
        ).to_multiset(),
    ensures
        a.to_multiset() == b.to_multiset(),
{
    assert forall|n: u32| a.to_multiset().count(n) == b.to_multiset().count(n) by {
        lemma_word_counts(a, n);
        lemma_word_counts(b, n);
    }
    assert(a.to_multiset() =~= b.to_multiset());
}

proof fn lemma_word_counts(s: Seq<u32>, n: u32)
    ensures
        s.map_values(|n: u32| Entry(n as u64)).to_multiset().count(Entry(n as u64))
            == s.to_multiset().count(n),
    decreases s.len(),
{
    broadcast use group_to_multiset_ensures;

    let word = |n: u32| Entry(n as u64);
    if s.len() == 0 {
        assert(s.map_values(word).to_multiset().len() == 0);
        assert(s.to_multiset().len() == 0);
    } else {
        let rest = s.drop_last();
        let x = s.last();
        lemma_word_counts(rest, n);
        assert(s =~= rest.push(x));
        assert(s.map_values(word) =~= rest.map_values(word).push(word(x)));
        vstd::seq_lib::to_multiset_build(rest, x);
        vstd::seq_lib::to_multiset_build(rest.map_values(word), word(x));
    }
}

/// The one tree of a traversal.
pub open spec fn lone<'a>(
    splats: &'a [LodSplat],
    chunk_to_page: &'a [u32],
    p: InstanceParams,
) -> Seq<TreeView<'a>> {
    seq![TreeView { lod_id: 1, splats, chunk_to_page, params: p }]
}

/// The traversal of one tree at the limit that the measurements use.
pub open spec fn lone_job<'a, F: Fn(&LodSplat, &InstanceParams) -> Scale>(
    splats: &'a [LodSplat],
    chunk_to_page: &'a [u32],
    p: InstanceParams,
    scale: F,
    max_splats: usize,
) -> Job<'a> {
    job(
        lone(splats, chunk_to_page, p),
        scale,
        max_splats,
        Scale { bits: PIXEL_SCALE_LIMIT_BITS },
    )
}

/// That traversal at its start.
pub open spec fn lone_start<'a, F: Fn(&LodSplat, &InstanceParams) -> Scale>(
    splats: &'a [LodSplat],
    chunk_to_page: &'a [u32],
    root_page: u32,
    p: InstanceParams,
    scale: F,
) -> Progress {
    seeded(lone(splats, chunk_to_page, p), seq![root_page], measured(scale), unseeded(), 1)
}

/// A whole traversal of one laid-out tree: the paged indices of its cut in ascending order, and
/// how many they are.
pub fn run_atomic<F: Fn(&LodSplat, &InstanceParams) -> Scale>(
    splats: &[LodSplat],
    chunk_to_page: &[u32],
    root_page: u32,
    p: InstanceParams,
    scale: &F,
    max_splats: usize,
) -> (r: (Vec<u32>, usize))
    requires
        measures(*scale),
        splats@.len() <= MAX_PAGED_INDEX,
        root_slot(root_page) < splats@.len(),
        max_splats <= u32::MAX,
        lone_job(splats, chunk_to_page, p, *scale, max_splats).completes(
            lone_start(splats, chunk_to_page, root_page, p, *scale),
        ),
    ensures
        ascending(r.0@),
        exists|d: Progress|
            {
                &&& #[trigger] lone_job(splats, chunk_to_page, p, *scale, max_splats).finishes(
                    lone_start(splats, chunk_to_page, root_page, p, *scale),
                    d,
                )
                &&& r.1 == d.num_splats
                &&& r.0@.len() == r.1
                &&& forall|paged: u32| #[trigger]
                    r.0@.to_multiset().count(paged) == d.cut().count((0u32, paged))
            },
{
    broadcast use group_to_multiset_ensures;

    let mut views: Vec<TreeView> = Vec::new();
    views.push(TreeView { lod_id: 1, splats, chunk_to_page, params: p });
    let mut pages: Vec<u32> = Vec::new();
    pages.push(root_page);
    let ghost trees = lone(splats, chunk_to_page, p);
    proof {
        assert(views@ =~= trees);
        assert(pages@ =~= seq![root_page]);
    }
    let mut core = TraverseCore::default();
    let limit = limit_key(Scale::from_bits(PIXEL_SCALE_LIMIT_BITS));
    crate::traverse::run_atomic(
        &mut core,
        views.as_slice(),
        scale,
        pages.as_slice(),
        max_splats,
        limit,
    );
    let cut = core.snapshot();
    let ghost d = core@;
    proof {
        let j = lone_job(splats, chunk_to_page, p, *scale, max_splats);
        let start = lone_start(splats, chunk_to_page, root_page, p, *scale);
        law_seeded_cut_is_the_roots(trees, seq![root_page], measured(*scale));
        j.law_end_is_in_trees_and_budget(start, d);
        assert forall|k: int| 0 <= k < cut@.len() implies (#[trigger] cut@[k]).0 < 1 by {
            assert(cut@.contains(cut@[k]));
            assert(d.cut().count(cut@[k]) > 0);
        }
    }
    let outs = split_by_instance(&cut, 1);
    let sorted = sort_ascending(&outs[0]);
    proof {
        assert forall|paged: u32| #[trigger]
            sorted@.to_multiset().count(paged) == d.cut().count((0u32, paged)) by {
            lemma_of_instance_counts(cut@, 0, paged);
        }
        lemma_all_of_one_instance(cut@);
        vstd::seq_lib::to_multiset_len(sorted@);
        vstd::seq_lib::to_multiset_len(outs@[0]@);
    }
    (sorted, core.num_splats)
}

proof fn lemma_all_of_one_instance(nodes: Seq<CutNode>)
    requires
        forall|k: int| 0 <= k < nodes.len() ==> (#[trigger] nodes[k]).0 == 0,
    ensures
        of_instance(nodes, 0).len() == nodes.len(),
    decreases nodes.len(),
{
    reveal(Seq::filter);
    if nodes.len() > 0 {
        let rest = nodes.drop_last();
        assert forall|k: int| 0 <= k < rest.len() implies (#[trigger] rest[k]).0 == 0 by {
            assert(rest[k] == nodes[k]);
        }
        lemma_all_of_one_instance(rest);
        assert(nodes[nodes.len() - 1].0 == 0);
    }
}

/// Every node that has a parent comes after it.
pub open spec fn parents_first(parent: Seq<u32>) -> bool {
    forall|i: int| 0 <= i < parent.len() ==> (#[trigger] parent[i]) == u32::MAX || parent[i] < i
}

/// How many nodes on the way from node `n` up to the root are in `cut`.
pub open spec fn covered(parent: Seq<u32>, cut: spec_fn(int) -> bool, n: int) -> nat
    decreases n,
{
    let own = if cut(n) {
        1nat
    } else {
        0nat
    };
    if n <= 0 || parent[n] >= n {
        own
    } else {
        own + covered(parent, cut, parent[n] as int)
    }
}

/// The node's slot, under the page table, is one of those listed.
pub open spec fn listed(chunk_to_page: Seq<u32>, cut: Seq<u32>) -> spec_fn(int) -> bool {
    |n: int| cut.contains(paged_index(chunk_to_page[chunk_of(n)], n))
}

/// The list is a valid cut: it holds nothing twice, and on the way from every leaf up to the root
/// it holds exactly one node.
pub open spec fn covers_leaves(
    nodes: Seq<LodSplat>,
    parent: Seq<u32>,
    chunk_to_page: Seq<u32>,
    cut: Seq<u32>,
) -> bool {
    &&& cut.no_duplicates()
    &&& forall|i: int|
        0 <= i < nodes.len() && (#[trigger] nodes[i]).child_count == 0 ==> covered(
            parent,
            listed(chunk_to_page, cut),
            i,
        ) == 1
}

/// Counts the nodes on the way from node `n` up to the root that are in the set.
fn count_covered(
    parent: &Vec<u32>,
    chunk_to_page: &[u32],
    set: &AHashMap<u32, u32>,
    n: usize,
    Ghost(cut): Ghost<Seq<u32>>,
) -> (r: usize)
    requires
        n < parent@.len(),
        parents_first(parent@),
        parent@.len() <= chunk_to_page@.len() * 0x1_0000,
        parent@.len() <= u32::MAX,
        forall|p: u32| #[trigger] words(*set).contains_key(p) <==> cut.contains(p),
    ensures
        r == covered(parent@, listed(chunk_to_page@, cut), n as int),
{
    let ghost f = listed(chunk_to_page@, cut);
    let mut at: usize = n;
    let mut found: usize = 0;
    loop
        invariant
            at <= n < parent@.len(),
            found <= n - at,
            parents_first(parent@),
            parent@.len() <= chunk_to_page@.len() * 0x1_0000,
            parent@.len() <= u32::MAX,
            forall|p: u32| #[trigger] words(*set).contains_key(p) <==> cut.contains(p),
            f == listed(chunk_to_page@, cut),
            found + covered(parent@, f, at as int) == covered(parent@, f, n as int),
        decreases at,
    {
        let paged: u32 = to_paged(chunk_to_page[at / CHUNK], at as u32);
        let inside = words_get(set, paged).is_some();
        assert(inside == f(at as int));
        let next: u32 = parent[at];
        if next == u32::MAX {
            if inside {
                found += 1;
            }
            return found;
        }
        assert(parent@[at as int] < at);
        if inside {
            found += 1;
        }
        at = next as usize;
    }
}

/// Whether a list of paged indices is a valid cut of the tree.
pub fn is_valid_cut(tree: &SynthTree, chunk_to_page: &[u32], cut: &[u32]) -> (r: bool)
    requires
        tree.parent@.len() == tree.nodes@.len(),
        parents_first(tree.parent@),
        tree.nodes@.len() <= chunk_to_page@.len() * 0x1_0000,
        tree.nodes@.len() <= u32::MAX,
    ensures
        r == covers_leaves(tree.nodes@, tree.parent@, chunk_to_page@, cut@),
{
    let mut set = words_new();
    let mut k: usize = 0;
    while k < cut.len()
        invariant
            k <= cut@.len(),
            forall|p: u32| #[trigger]
                words(set).contains_key(p) <==> cut@.take(k as int).contains(p),
            forall|a: int, b: int| 0 <= a < b < k ==> (#[trigger] cut@[a]) != (#[trigger] cut@[b]),
        decreases cut@.len() - k,
    {
        let ghost taken = cut@.take(k as int);
        if words_get(&set, cut[k]).is_some() {
            proof {
                assert(taken.contains(cut@[k as int]));
                let a = choose|a: int| 0 <= a < taken.len() && taken[a] == cut@[k as int];
                assert(cut@[a] == cut@[k as int]);
                assert(!cut@.no_duplicates());
            }
            return false;
        }
        words_insert(&mut set, cut[k], 0);
        proof {
            let more = cut@.take(k + 1);
            assert(more =~= taken.push(cut@[k as int]));
            assert forall|p: u32| #[trigger] words(set).contains_key(p) <==> more.contains(p) by {
                if taken.contains(p) {
                    let a = choose|a: int| 0 <= a < taken.len() && taken[a] == p;
                    assert(more[a] == p);
                }
                if p == cut@[k as int] {
                    assert(more[k as int] == p);
                }
                if more.contains(p) && p != cut@[k as int] {
                    let a = choose|a: int| 0 <= a < more.len() && more[a] == p;
                    assert(taken[a] == p);
                }
            }
            assert forall|a: int, b: int| 0 <= a < b < k + 1 implies (#[trigger] cut@[a]) != (
            #[trigger] cut@[b]) by {
                if b == k {
                    assert(taken[a] == cut@[a]);
                    assert(taken.contains(cut@[a]));
                }
            }
        }
        k += 1;
    }
    proof {
        assert(cut@.take(k as int) =~= cut@);
        assert(cut@.no_duplicates());
    }
    let mut i: usize = 0;
    while i < tree.nodes.len()
        invariant
            i <= tree.nodes@.len(),
            tree.parent@.len() == tree.nodes@.len(),
            parents_first(tree.parent@),
            tree.nodes@.len() <= chunk_to_page@.len() * 0x1_0000,
            tree.nodes@.len() <= u32::MAX,
            forall|p: u32| #[trigger] words(set).contains_key(p) <==> cut@.contains(p),
            forall|j: int|
                0 <= j < i && (#[trigger] tree.nodes@[j]).child_count == 0 ==> covered(
                    tree.parent@,
                    listed(chunk_to_page@, cut@),
                    j,
                ) == 1,
        decreases tree.nodes@.len() - i,
    {
        if tree.nodes[i].child_count == 0 {
            let n: usize = count_covered(&tree.parent, chunk_to_page, &set, i, Ghost(cut@));
            if n != 1 {
                assert(tree.nodes@[i as int].child_count == 0);
                return false;
            }
        }
        i += 1;
    }
    true
}

} // verus!
