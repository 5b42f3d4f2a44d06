//! Best-first traversal: cuts, pauses, budgets, residency.

use std::collections::BinaryHeap;

use ahash::{AHashMap, AHashSet};
use glam::{Vec3, Vec3A};
use half::f16;
use ordered_float::OrderedFloat;

use lod_cut::asker::Asker;
use lod_cut::entry::{Entry, MAX_PAGED_INDEX};
use lod_cut::scale::Scale;
use lod_cut::splat::LodSplat;
use lod_cut::traverse::{expand_until, limit_key, run_atomic, seed_roots, LoopExit, TraverseCore};
use lod_cut::tree_view::{InstanceParams, TreeView, NOT_RESIDENT};

const LOD_ID: u32 = 7;
const LEAF_FIRST: u32 = 21;
const LEAF_LAST: u32 = 84;
const NONE: u32 = u32::MAX;

fn scale(x: f32) -> Scale {
    Scale::from_bits(x.to_bits())
}

fn value(s: Scale) -> f32 {
    f32::from_bits(s.to_bits())
}

fn vector(v: [Scale; 3]) -> Vec3A {
    Vec3A::new(value(v[0]), value(v[1]), value(v[2]))
}

fn scales(v: Vec3A) -> [Scale; 3] {
    [scale(v.x), scale(v.y), scale(v.z)]
}

fn splat(center: Vec3, size: f32, child_start: u32, child_count: u16) -> LodSplat {
    let center = center.to_array().map(|x| f16::from_f32(x).to_bits());
    LodSplat::new_f16(center, f16::from_f32(size).to_bits(), child_start, child_count)
}

fn pixel_scale(splat: &LodSplat, p: &InstanceParams) -> Scale {
    let center = Vec3A::from_array(splat.center.map(|x| f16::from_bits(x).to_f32()));
    let size = f16::from_bits(splat.size).to_f32();
    let delta = center - vector(p.origin);
    let distance = delta.length().max(1.0e-6);
    let inv_distance = 1.0 / distance;
    let pixel_scale = size * inv_distance * value(p.lod_scale);
    let forward_dot = delta.dot(vector(p.forward));
    let (behind, cone) = (value(p.behind_foveate), value(p.cone_foveate));
    let (dot0, dot1) = (value(p.cone_dot0), value(p.cone_dot));
    let foveate = if forward_dot <= 0.0 {
        behind
    } else {
        let dot = forward_dot * inv_distance;
        if dot >= dot0 {
            1.0
        } else if dot >= dot1 {
            cone + (1.0 - cone) * ((dot - dot1) / (dot0 - dot1))
        } else {
            behind + (cone - behind) * (dot / dot1)
        }
    };
    scale(foveate * pixel_scale)
}

/// A quad tree of four levels, all in chunk 0: 0, then 1..=4, 5..=20 and the leaves 21..=84.
/// Gives the nodes and the parent of each.
fn build_tree() -> (Vec<LodSplat>, Vec<u32>) {
    let mut splats = vec![LodSplat::default(); 85];
    let mut parent = vec![u32::MAX; 85];
    splats[0] = splat(Vec3::ZERO, 8.0, 1, 4);
    for i in 1..=4usize {
        splats[i] = splat(Vec3::new(i as f32, 0.0, 0.0), 4.0, (5 + (i - 1) * 4) as u32, 4);
        parent[i] = 0;
    }
    for i in 5..=20usize {
        splats[i] = splat(Vec3::new(i as f32, 1.0, 0.0), 2.0, (21 + (i - 5) * 4) as u32, 4);
        parent[i] = (1 + (i - 5) / 4) as u32;
    }
    for i in 21..=84usize {
        splats[i] = splat(Vec3::new(i as f32 * 0.1, 2.0, 0.0), 1.0, 0, 0);
        parent[i] = (5 + (i - 21) / 4) as u32;
    }
    (splats, parent)
}

fn params() -> InstanceParams {
    InstanceParams {
        origin: scales(Vec3A::new(0.0, 0.0, -50.0)),
        forward: scales(Vec3A::Z),
        lod_scale: scale(1.0),
        behind_foveate: scale(1.0),
        cone_foveate: scale(1.0),
        cone_dot0: scale(1.0),
        cone_dot: scale(1.0),
    }
}

fn view<'a>(splats: &'a [LodSplat], chunk_to_page: &'a [u32]) -> Vec<TreeView<'a>> {
    vec![TreeView { lod_id: LOD_ID, splats, chunk_to_page, params: params() }]
}

/// Runs to the end, pausing after every `stop_every` rounds (0: never); gives a snapshot of each
/// pause and of the end.
fn run(
    core: &mut TraverseCore,
    trees: &[TreeView],
    max_splats: usize,
    stop_every: u32,
) -> Vec<Vec<(u32, u32)>> {
    core.reset(max_splats);
    seed_roots(core, trees, &pixel_scale, &[0]);
    let mut snaps = Vec::new();
    loop {
        let mut n = 0u32;
        let exit = expand_until(core, trees, &pixel_scale, max_splats, scale(0.0), &mut Asker::new(|| {
            n += 1;
            stop_every > 0 && n > stop_every
        }));
        snaps.push(core.snapshot());
        if exit == LoopExit::Done {
            return snaps;
        }
    }
}

fn sorted(cut: &[(u32, u32)]) -> Vec<u32> {
    let mut v: Vec<u32> = cut.iter().map(|&(_, p)| p).collect();
    v.sort_unstable();
    v
}

fn assert_valid_cut(cut: &[(u32, u32)], parent: &[u32]) {
    let set: AHashSet<u32> = cut.iter().map(|&(_, p)| p).collect();
    assert_eq!(set.len(), cut.len(), "a node occurs twice");
    for leaf in LEAF_FIRST..=LEAF_LAST {
        let mut n = leaf;
        let mut covered = 0;
        loop {
            if set.contains(&n) {
                covered += 1;
            }
            if parent[n as usize] == u32::MAX {
                break;
            }
            n = parent[n as usize];
        }
        assert_eq!(covered, 1, "leaf {leaf} has {covered} nodes above it in the cut");
    }
}

#[test]
fn atomic_run_reaches_all_leaves_when_budget_allows() {
    let (splats, parent) = build_tree();
    let c2p = [0u32];
    let trees = view(&splats, &c2p);
    let mut core = TraverseCore::default();
    let snaps = run(&mut core, &trees, 100, 0);
    assert_eq!(snaps.len(), 1);
    assert_valid_cut(&snaps[0], &parent);
    assert_eq!(sorted(&snaps[0]), (LEAF_FIRST..=LEAF_LAST).collect::<Vec<_>>());
    assert_eq!(core.leaf_count, 64);
    assert_eq!(core.num_splats, 64);
    assert_eq!(core.touched, vec![(LOD_ID, 0)]);
}

#[test]
fn sliced_run_equals_atomic() {
    let (splats, _) = build_tree();
    let c2p = [0u32];
    let trees = view(&splats, &c2p);
    let mut core = TraverseCore::default();
    let atomic = sorted(run(&mut core, &trees, 100, 0).last().unwrap());
    for stop_every in [1, 2, 3, 7, 1000] {
        let snaps = run(&mut core, &trees, 100, stop_every);
        assert_eq!(sorted(snaps.last().unwrap()), atomic, "stop_every={stop_every}");
    }
}

#[test]
fn atomic_run_on_scratch_core_does_not_disturb_in_flight_round() {
    let (splats, parent) = build_tree();
    let c2p = [0u32];
    let trees = view(&splats, &c2p);
    let max = 100;

    let mut reference = TraverseCore::default();
    let expected = sorted(run(&mut reference, &trees, max, 0).last().unwrap());

    let mut core = TraverseCore::default();
    core.reset(max);
    seed_roots(&mut core, &trees, &pixel_scale, &[0]);
    let mut n = 0u32;
    let exit = expand_until(&mut core, &trees, &pixel_scale, max, scale(0.0), &mut Asker::new(|| {
        n += 1;
        n > 3
    }));
    assert_eq!(exit, LoopExit::Paused);
    let paused_snapshot = core.snapshot();
    assert_valid_cut(&paused_snapshot, &parent);
    assert!(paused_snapshot.len() < 64, "not all leaves are reached at the pause");
    let paused_frontier = core.frontier.len();
    let paused_output = core.output.len();

    let mut scratch = TraverseCore::default();
    let atomic = run(&mut scratch, &trees, 30, 0);
    assert_eq!(atomic.len(), 1);
    assert!(atomic[0].len() <= 30);

    assert_eq!(core.frontier.len(), paused_frontier);
    assert_eq!(core.output.len(), paused_output);
    assert_eq!(sorted(&core.snapshot()), sorted(&paused_snapshot));

    let exit = expand_until(&mut core, &trees, &pixel_scale, max, scale(0.0), &mut Asker::new(|| false));
    assert_eq!(exit, LoopExit::Done);
    assert_eq!(sorted(&core.snapshot()), expected);
    assert_eq!(core.leaf_count, 64);
}

#[test]
fn every_pause_snapshot_is_valid_cut_and_refines_monotonically() {
    let (splats, parent) = build_tree();
    let c2p = [0u32];
    let trees = view(&splats, &c2p);
    let mut core = TraverseCore::default();
    let snaps = run(&mut core, &trees, 100, 1);
    assert!(snaps.len() > 10, "a pause after every round gives many slices");
    for (k, snap) in snaps.iter().enumerate() {
        assert_valid_cut(snap, &parent);
        if k > 0 {
            let prev: AHashSet<u32> = snaps[k - 1].iter().map(|&(_, p)| p).collect();
            for &(_, node) in snap {
                if !prev.contains(&node) {
                    assert!(
                        prev.contains(&parent[node as usize]),
                        "slice {k}: node {node} comes from nowhere"
                    );
                }
            }
        }
    }
}

#[test]
fn budget_is_respected_at_every_pause() {
    let (splats, parent) = build_tree();
    let c2p = [0u32];
    let trees = view(&splats, &c2p);
    let mut core = TraverseCore::default();
    let max = 30;
    let snaps = run(&mut core, &trees, max, 1);
    for snap in &snaps {
        assert_valid_cut(snap, &parent);
        assert!(snap.len() <= max, "cut {} exceeds the budget {max}", snap.len());
    }
    let last = snaps.last().unwrap();
    assert!(last.len() > max - 4 && last.len() <= max, "cut {} at the end", last.len());
    assert_eq!(core.num_splats, last.len());
}

#[test]
fn non_resident_children_keep_parent_in_output_and_touch_chunk() {
    let (mut splats, parent) = build_tree();
    splats[20] = splat(Vec3::new(20.0, 1.0, 0.0), 2.0, 65536, 4);
    let c2p = [0u32, NOT_RESIDENT];
    let trees = view(&splats, &c2p);
    let mut core = TraverseCore::default();
    let snaps = run(&mut core, &trees, 100, 0);
    let last = snaps.last().unwrap();
    let set: AHashSet<u32> = last.iter().map(|&(_, p)| p).collect();
    assert!(set.contains(&20));
    assert!(set.iter().all(|&p| p < 65536));
    assert!(core.touched.contains(&(LOD_ID, 1)), "the chunk of the children is noted");
    assert_eq!(last.len(), 61);
    let mut parent2 = parent.clone();
    for leaf in 81..=84usize {
        parent2[leaf] = 20;
    }
    assert_valid_cut(last, &parent2);
}

#[test]
fn packed_entry_orders_like_the_old_tuple() {
    let mut seed = 0x9E37_79B9_7F4A_7C15u64;
    let mut next = move || {
        seed ^= seed << 13;
        seed ^= seed >> 7;
        seed ^= seed << 17;
        seed
    };
    let mut items: Vec<(f32, u32, u32)> = (0..20_000)
        .map(|_| {
            let r = next();
            let key = match r % 7 {
                0 => 0.0,
                1 => 1.0e-3,
                2 => f32::INFINITY,
                _ => ((r >> 8) % 1_000_000) as f32 * 1.0e-9,
            };
            let inst = ((r >> 40) % 3) as u32;
            let paged = ((r >> 20) % 5) as u32 * 65536 + ((r >> 4) % 64) as u32;
            (key, inst, paged)
        })
        .collect();
    items.sort_by_key(|&(k, i, p)| (OrderedFloat(k), i, p));
    let mut packed: Vec<Entry> = items.iter().map(|&(k, i, p)| Entry::new(scale(k), i, p)).collect();
    packed.sort();
    for (a, b) in items.iter().zip(packed.iter()) {
        assert_eq!((a.0, a.1, a.2), (value(b.key()), b.inst(), b.paged()));
    }
    assert_eq!(value(Entry::new(scale(-1.0), 0, 0).key()), 0.0);
    assert_eq!(value(Entry::new(scale(f32::NAN), 0, 0).key()), 0.0);
    assert!(
        Entry::new(scale(f32::INFINITY), 0, 0)
            > Entry::new(scale(f32::MAX), 127, MAX_PAGED_INDEX as u32 - 1)
    );
    let e = Entry::new(scale(0.5), 127, MAX_PAGED_INDEX as u32 - 1);
    assert_eq!((value(e.key()), e.inst(), e.paged()), (0.5, 127, MAX_PAGED_INDEX as u32 - 1));
}

/// A cut in which every node knows its parent, and so does every node that was expanded.
#[derive(Debug, Default, Clone)]
struct ParentedCut {
    cut: Vec<(u32, u32)>,
    parent_of: AHashMap<u32, u32>,
}

impl ParentedCut {
    fn nodes(&self) -> Vec<u32> {
        let mut v: Vec<u32> = self.cut.iter().map(|&(n, _)| n).collect();
        v.sort_unstable();
        v
    }
}

fn ps_at(splats: &[LodSplat], n: u32, p: &InstanceParams) -> f32 {
    value(pixel_scale(&splats[n as usize], p))
}

/// Expands best first from the root, noting the parent of everything expanded.
fn expand_recording(
    splats: &[LodSplat],
    p: &InstanceParams,
    limit: f32,
    max: usize,
) -> ParentedCut {
    let mut heap: BinaryHeap<(OrderedFloat<f32>, u32, u32)> = BinaryHeap::new();
    let mut out = ParentedCut::default();
    let mut n = 1usize;
    heap.push((OrderedFloat(ps_at(splats, 0, p)), 0, NONE));
    while let Some(&(OrderedFloat(ps), node, parent)) = heap.peek() {
        if ps <= limit {
            break;
        }
        let LodSplat { child_count, child_start, .. } = splats[node as usize];
        if child_count == 0 {
            heap.pop();
            out.cut.push((node, parent));
            continue;
        }
        if n - 1 + child_count as usize > max {
            break;
        }
        heap.pop();
        out.parent_of.insert(node, parent);
        for c in child_start..child_start + child_count as u32 {
            heap.push((OrderedFloat(ps_at(splats, c, p)), c, node));
        }
        n = n - 1 + child_count as usize;
    }
    out.cut.extend(heap.into_iter().map(|(_, node, parent)| (node, parent)));
    out
}

/// Under a new pose, takes back what is small enough, then what the budget has no room for, and
/// expands what is too large.
fn rebalance(
    inc: &mut ParentedCut,
    splats: &[LodSplat],
    p: &InstanceParams,
    limit: f32,
    max: usize,
) {
    let ps = |n: u32| ps_at(splats, n, p);
    let complete_groups = |inc: &ParentedCut| -> Vec<u32> {
        let mut count: AHashMap<u32, u16> = AHashMap::new();
        for &(_, parent) in &inc.cut {
            if parent != NONE {
                *count.entry(parent).or_default() += 1;
            }
        }
        count
            .into_iter()
            .filter(|&(parent, c)| c == splats[parent as usize].child_count)
            .map(|(parent, _)| parent)
            .collect()
    };
    let collapse = |inc: &mut ParentedCut, parent: u32| {
        inc.cut.retain(|&(_, pp)| pp != parent);
        let grand = inc.parent_of.remove(&parent).expect("an expanded node has a parent");
        inc.cut.push((parent, grand));
    };
    loop {
        let victims: Vec<u32> =
            complete_groups(inc).into_iter().filter(|&g| ps(g) <= limit).collect();
        if victims.is_empty() {
            break;
        }
        for g in victims {
            collapse(inc, g);
        }
    }
    while inc.cut.len() > max {
        let mut groups = complete_groups(inc);
        groups.sort_by_key(|&g| OrderedFloat(ps(g)));
        let g = *groups.first().expect("something can be taken back");
        collapse(inc, g);
    }
    let mut heap: BinaryHeap<(OrderedFloat<f32>, u32, u32)> = inc
        .cut
        .iter()
        .filter(|&&(n, _)| splats[n as usize].child_count > 0)
        .map(|&(n, parent)| (OrderedFloat(ps(n)), n, parent))
        .filter(|&(OrderedFloat(s), _, _)| s > limit)
        .collect();
    let mut n = inc.cut.len();
    while let Some(&(_, node, parent)) = heap.peek() {
        let LodSplat { child_count, child_start, .. } = splats[node as usize];
        if n - 1 + child_count as usize > max {
            break;
        }
        heap.pop();
        inc.cut.retain(|&(m, _)| m != node);
        inc.parent_of.insert(node, parent);
        for c in child_start..child_start + child_count as u32 {
            inc.cut.push((c, node));
            let s = ps(c);
            if s > limit && splats[c as usize].child_count > 0 {
                heap.push((OrderedFloat(s), c, node));
            }
        }
        n = n - 1 + child_count as usize;
    }
}

fn pose(origin: Vec3A) -> InstanceParams {
    InstanceParams { origin: scales(origin), ..params() }
}

fn assert_parent_chain(inc: &ParentedCut, truth: &[u32]) {
    for &(node, parent) in &inc.cut {
        assert_eq!(parent, truth[node as usize], "node {node} has another parent");
        let mut p = parent;
        while p != NONE {
            assert_eq!(
                inc.parent_of.get(&p).copied(),
                Some(truth[p as usize]),
                "the parent of {p} is missing or wrong"
            );
            p = truth[p as usize];
        }
    }
}

/// The cut that the library's own traversal ends with, for comparison.
fn library_cut(splats: &[LodSplat], p: &InstanceParams, limit: f32, max: usize) -> Vec<u32> {
    let c2p = [0u32];
    let trees = vec![TreeView { lod_id: LOD_ID, splats, chunk_to_page: &c2p, params: *p }];
    let mut core = TraverseCore::default();
    run_atomic(&mut core, &trees, &pixel_scale, &[0], max, limit_key(scale(limit)));
    sorted(&core.snapshot())
}

#[test]
fn incremental_coarsen_two_levels_equals_atomic() {
    let (splats, truth) = build_tree();
    let limit = 0.03;
    let near = pose(Vec3A::new(0.0, 0.0, -50.0));
    let far = pose(Vec3A::new(0.0, 0.0, -150.0));

    let mut inc = expand_recording(&splats, &near, limit, 1000);
    assert_eq!(inc.nodes(), (LEAF_FIRST..=LEAF_LAST).collect::<Vec<_>>());
    assert_parent_chain(&inc, &truth);

    rebalance(&mut inc, &splats, &far, limit, 1000);
    let atomic = expand_recording(&splats, &far, limit, 1000);
    assert_eq!(inc.nodes(), vec![1, 2, 3, 4], "far away the cut is the first level");
    assert_eq!(inc.nodes(), atomic.nodes());
    assert_eq!(inc.nodes(), library_cut(&splats, &far, limit, 1000));
    assert_parent_chain(&inc, &truth);
    assert_valid_cut(&inc.cut.iter().map(|&(n, _)| (0, n)).collect::<Vec<_>>(), &truth);
}

#[test]
fn incremental_refine_and_mixed_chain_equals_atomic() {
    let (splats, truth) = build_tree();
    let limit = 0.03999;
    let chain = [
        Vec3A::new(0.0, 0.0, -100.0),
        Vec3A::new(0.0, 0.0, -50.0),
        Vec3A::new(5.0, 0.0, -100.0),
        Vec3A::new(0.0, 0.0, -150.0),
        Vec3A::new(0.0, 0.0, -100.0),
        Vec3A::new(5.0, 0.0, -100.0),
        Vec3A::new(0.0, 0.0, -50.0),
    ];
    let mut inc = expand_recording(&splats, &pose(chain[0]), limit, 1000);
    assert_eq!(inc.nodes(), vec![3, 4, 5, 6, 7, 8, 9, 10, 11, 12], "a mixed cut to start with");
    let mut distinct = AHashSet::new();
    distinct.insert(inc.nodes());
    for &origin in &chain[1..] {
        let p = pose(origin);
        rebalance(&mut inc, &splats, &p, limit, 1000);
        let atomic = expand_recording(&splats, &p, limit, 1000);
        assert_eq!(inc.nodes(), atomic.nodes(), "origin={origin:?}");
        assert_eq!(inc.nodes(), library_cut(&splats, &p, limit, 1000), "origin={origin:?}");
        assert_parent_chain(&inc, &truth);
        assert_valid_cut(&inc.cut.iter().map(|&(n, _)| (0, n)).collect::<Vec<_>>(), &truth);
        distinct.insert(inc.nodes());
    }
    assert_eq!(distinct.len(), 4, "all leaves, the first level, and two mixtures");
}

#[test]
fn incremental_budget_rebalance_equals_atomic() {
    let (splats, truth) = build_tree();
    let limit = 0.03;
    let near = pose(Vec3A::new(3.0, 0.0, -50.0));
    let far = pose(Vec3A::new(0.0, 0.0, -150.0));
    let max = 30;

    let mut inc = expand_recording(&splats, &near, limit, 1000);
    rebalance(&mut inc, &splats, &near, limit, max);
    let atomic = expand_recording(&splats, &near, limit, max);
    assert_eq!(inc.cut.len(), 28);
    assert_eq!(inc.nodes(), atomic.nodes());
    assert_eq!(inc.nodes(), library_cut(&splats, &near, limit, max));
    assert_parent_chain(&inc, &truth);

    let mut inc = expand_recording(&splats, &far, limit, 1000);
    assert_eq!(inc.cut.len(), 4);
    rebalance(&mut inc, &splats, &near, limit, max);
    assert_eq!(inc.nodes(), atomic.nodes());
    assert_parent_chain(&inc, &truth);
}

#[test]
fn default_core_is_empty_and_reset_core_waits_for_the_first_scale() {
    let mut core = TraverseCore::default();
    assert!(core.snapshot().is_empty());
    assert_eq!(value(core.min_pixel_scale), 0.0);
    core.reset(10);
    assert_eq!(value(core.min_pixel_scale), f32::INFINITY);
    assert_eq!((core.num_splats, core.leaf_count), (0, 0));
}

#[test]
fn limit_ends_the_traversal_at_small_nodes() {
    let (splats, _) = build_tree();
    let c2p = [0u32];
    let trees = view(&splats, &c2p);
    let mut core = TraverseCore::default();
    run_atomic(&mut core, &trees, &pixel_scale, &[0], 1000, scale(0.05));
    // Nodes of size 4 at distance 50 are above the limit, their children below it.
    assert_eq!(sorted(&core.snapshot()), (5..=20).collect::<Vec<u32>>());
    assert_eq!(core.leaf_count, 0);
    assert!(value(core.min_pixel_scale) > 0.05);
}

#[test]
fn unknown_root_page_counts_as_page_zero() {
    let (splats, _) = build_tree();
    let c2p = [0u32];
    let trees = view(&splats, &c2p);
    let mut core = TraverseCore::default();
    core.reset(100);
    seed_roots(&mut core, &trees, &pixel_scale, &[NOT_RESIDENT]);
    assert_eq!(core.snapshot(), vec![(0, 0)]);
    assert_eq!(core.touched, vec![(LOD_ID, 0)]);
}

#[test]
fn children_beyond_the_page_table_keep_their_parent() {
    let mut splats = vec![LodSplat::default(); 1];
    // Children from 65534 on reach into chunk 1, which the table does not know.
    splats[0] = splat(Vec3::ZERO, 8.0, 65534, 4);
    let c2p = [0u32];
    let trees = view(&splats, &c2p);
    let mut core = TraverseCore::default();
    run_atomic(&mut core, &trees, &pixel_scale, &[0], 100, scale(0.0));
    assert_eq!(core.snapshot(), vec![(0, 0)]);
    assert_eq!(core.touched, vec![(LOD_ID, 0), (LOD_ID, 1)]);
    assert_eq!((core.num_splats, core.leaf_count), (1, 0));
}

#[test]
fn two_instances_share_the_budget() {
    let (splats, _) = build_tree();
    let c2p = [0u32];
    let far = InstanceParams { origin: scales(Vec3A::new(0.0, 0.0, -500.0)), ..params() };
    let trees = vec![
        TreeView { lod_id: 1, splats: &splats, chunk_to_page: &c2p, params: params() },
        TreeView { lod_id: 2, splats: &splats, chunk_to_page: &c2p, params: far },
    ];
    let mut core = TraverseCore::default();
    run_atomic(&mut core, &trees, &pixel_scale, &[0, 0], 9, scale(0.0));
    // The near tree is expanded first: its root, and then the largest of its children.
    let cut = core.snapshot();
    assert_eq!(cut.len(), 8);
    assert_eq!(cut.iter().filter(|&&(inst, _)| inst == 1).count(), 1);
    assert_eq!(core.touched, vec![(1, 0), (2, 0)]);
}

#[test]
fn traversal_goes_on_only_where_it_is_told_to() {
    let (splats, _) = build_tree();
    let c2p = [0u32];
    let trees = view(&splats, &c2p);
    let mut core = TraverseCore::default();
    core.reset(100);
    seed_roots(&mut core, &trees, &pixel_scale, &[0]);
    let (output, touched) = (core.output.clone(), core.touched.clone());
    let mut asked = 0;
    let exit = expand_until(&mut core, &trees, &pixel_scale, 100, scale(0.0), &mut Asker::new(|| {
        asked += 1;
        true
    }));
    assert_eq!((exit, asked), (LoopExit::Paused, 1));
    assert_eq!((core.output.clone(), core.touched.clone()), (output, touched));
    assert_eq!((core.frontier.len(), core.num_splats), (1, 1));
    let exit = expand_until(&mut core, &trees, &pixel_scale, 100, scale(0.0), &mut Asker::new(|| false));
    assert_eq!(exit, LoopExit::Done);
    // Nothing is left to do, so that nothing is asked.
    let exit = expand_until(&mut core, &trees, &pixel_scale, 100, scale(0.0), &mut Asker::new(|| true));
    assert_eq!(exit, LoopExit::Done);
}

#[test]
fn slices_only_add_and_end_like_the_whole() {
    let (splats, parent) = build_tree();
    let c2p = [0u32];
    let trees = view(&splats, &c2p);
    let mut whole = TraverseCore::default();
    run_atomic(&mut whole, &trees, &pixel_scale, &[0], 100, scale(0.0));
    let mut core = TraverseCore::default();
    core.reset(100);
    seed_roots(&mut core, &trees, &pixel_scale, &[0]);
    loop {
        let before = core.snapshot();
        let (output, size) = (core.output.clone(), core.num_splats);
        let limit = value(core.min_pixel_scale);
        let mut n = 0;
        let exit = expand_until(&mut core, &trees, &pixel_scale, 100, scale(0.0), &mut Asker::new(|| {
            n += 1;
            n > 2
        }));
        assert!(core.output.starts_with(&output));
        assert!(core.num_splats >= size);
        assert!(value(core.min_pixel_scale) <= limit);
        let after = core.snapshot();
        for &(_, x) in after.iter().filter(|&x| !before.contains(x)) {
            let mut up = parent[x as usize];
            while !before.contains(&(0, up)) {
                up = parent[up as usize];
            }
            assert!(!after.contains(&(0, up)), "the node above has left");
        }
        if exit == LoopExit::Done {
            break;
        }
    }
    assert_eq!(core.output, whole.output);
    assert_eq!(core.touched, whole.touched);
    assert_eq!(core.num_splats, whole.num_splats);
    assert_eq!(core.min_pixel_scale, whole.min_pixel_scale);
    assert_eq!(core.leaf_count, whole.leaf_count);
}

#[test]
fn stop_is_asked_once_before_every_round_and_obeyed() {
    let (splats, _) = build_tree();
    let c2p = [0u32];
    let trees = view(&splats, &c2p);
    let start = || {
        let mut core = TraverseCore::default();
        core.reset(100);
        seed_roots(&mut core, &trees, &pixel_scale, &[0]);
        core
    };
    // 21 nodes with children and 64 leaves are looked at, and then nothing is left.
    let mut core = start();
    let mut asked = 0;
    let exit = expand_until(&mut core, &trees, &pixel_scale, 100, scale(0.0), &mut Asker::new(|| {
        asked += 1;
        false
    }));
    assert_eq!((exit, asked), (LoopExit::Done, 85));
    // Where the largest node does not fit, it is asked before that is found.
    let mut core = start();
    let mut asked = 0;
    let exit = expand_until(&mut core, &trees, &pixel_scale, 3, scale(0.0), &mut Asker::new(|| {
        asked += 1;
        false
    }));
    assert_eq!((exit, asked, core.num_splats), (LoopExit::Done, 1, 1));
    // The third answer stops after two rounds, and no further question is asked.
    let mut core = start();
    let answers = [false, false, true, false];
    let mut asked = 0;
    let exit = expand_until(&mut core, &trees, &pixel_scale, 100, scale(0.0), &mut Asker::new(|| {
        asked += 1;
        answers[asked - 1]
    }));
    assert_eq!((exit, asked, core.num_splats), (LoopExit::Paused, 3, 7));
}
