//! The incremental cut: expanding, taking back, packing, and the chunks asked for.

use ahash::AHashSet;
use glam::{Vec3, Vec3A};
use half::f16;

use lod_cut::cut::{ExpandOutcome, IncrementalCut};
use lod_cut::cut_model::{CUT_LEAF, CUT_TERMINAL, NONE};
use lod_cut::geometry::Geometry;
use lod_cut::scale::Scale;
use lod_cut::splat::LodSplat;
use lod_cut::tree_view::{InstanceParams, TreeView, NOT_RESIDENT};

const LOD_ID: u32 = 7;

fn scale(x: f32) -> Scale {
    Scale::from_bits(x.to_bits())
}

fn value(s: Scale) -> f32 {
    f32::from_bits(s.to_bits())
}

fn splat(center: Vec3, size: f32, child_start: u32, child_count: u16) -> LodSplat {
    let center = center.to_array().map(|x| f16::from_f32(x).to_bits());
    LodSplat::new_f16(center, f16::from_f32(size).to_bits(), child_start, child_count)
}

fn single(center: [u16; 3]) -> Vec3A {
    Vec3A::from_array(center.map(|x| f16::from_bits(x).to_f32()))
}

fn distance(a: [u16; 3], b: [u16; 3]) -> Scale {
    scale((single(a) - single(b)).length())
}

fn widen(h: u16) -> Scale {
    scale(f16::from_bits(h).to_f32())
}

fn bound(radius: Scale, size: Scale) -> (u16, u16) {
    (
        f16::from_f32(value(radius) * 1.001 + 1e-3).to_bits(),
        f16::from_f32(value(size) * 1.001).to_bits(),
    )
}

/// Expands a child of a node.
fn expand(
    cut: &mut IncrementalCut,
    trees: &[TreeView],
    slot: u32,
    i: u16,
    ps: f32,
    max: usize,
) -> ExpandOutcome {
    let geometry = Geometry { distance, widen, bound };
    cut.expand(trees, &geometry, slot, i, scale(ps), max)
}

fn build_tree() -> (Vec<LodSplat>, Vec<u32>) {
    let mut splats = vec![LodSplat::default(); 85];
    let mut parent = vec![u32::MAX; 85];
    splats[0] = splat(Vec3::ZERO, 8.0, 1, 4);
    for i in 1..=4usize {
        splats[i] = splat(Vec3::new(i as f32, 0.0, 0.0), 4.0, (5 + (i - 1) * 4) as u32, 4);
        parent[i] = 0;
    }
    for i in 5..=20usize {
        splats[i] = splat(Vec3::new(i as f32, 1.0, 0.0), 2.0, (21 + (i - 5) * 4) as u32, 4);
        parent[i] = (1 + (i - 5) / 4) as u32;
    }
    for i in 21..=84usize {
        splats[i] = splat(Vec3::new(i as f32 * 0.1, 2.0, 0.0), 1.0, 0, 0);
        parent[i] = (5 + (i - 21) / 4) as u32;
    }
    (splats, parent)
}

fn params() -> InstanceParams {
    InstanceParams {
        origin: [scale(0.0), scale(0.0), scale(-50.0)],
        forward: [scale(0.0), scale(0.0), scale(1.0)],
        lod_scale: scale(1.0),
        behind_foveate: scale(1.0),
        cone_foveate: scale(1.0),
        cone_dot0: scale(1.0),
        cone_dot: scale(1.0),
    }
}

fn views<'a>(splats: &'a [LodSplat], c2p: &'a [u32]) -> Vec<TreeView<'a>> {
    vec![TreeView { lod_id: LOD_ID, splats, chunk_to_page: c2p, params: params() }]
}

fn cut_indices(cut: &IncrementalCut) -> Vec<u32> {
    let mut v: Vec<u32> = cut.cut_set_for_test().into_iter().map(|(_, idx)| idx).collect();
    v.sort_unstable();
    v
}

fn assert_valid(cut: &IncrementalCut, parent: &[u32]) {
    let set: AHashSet<u32> = cut_indices(cut).into_iter().collect();
    assert_eq!(set.len(), cut.cut_size, "cut_size is not the number of nodes");
    for leaf in 21..=84u32 {
        let (mut n, mut covered) = (leaf, 0);
        loop {
            if set.contains(&n) {
                covered += 1;
            }
            if parent[n as usize] == u32::MAX {
                break;
            }
            n = parent[n as usize];
        }
        assert_eq!(covered, 1, "leaf {leaf} has {covered} nodes above it in the cut");
    }
}

#[test]
fn restart_seeds_root_as_single_cut_leaf() {
    let (splats, parent) = build_tree();
    let c2p = [0u32];
    let trees = views(&splats, &c2p);
    let mut cut = IncrementalCut::new();
    cut.restart(&trees, &[0], scale(0.0));
    assert_eq!(cut_indices(&cut), vec![0]);
    assert_eq!(cut.cut_size, 1);
    assert_valid(&cut, &parent);
    assert_eq!(cut.chunk_refs[0].get(&0).copied(), Some(1));
    let packed = cut.pack(&trees);
    assert_eq!(packed.indices[0], vec![0]);
    assert_eq!(packed.evicted, 0);
}

#[test]
fn expand_then_collapse_round_trips() {
    let (splats, parent) = build_tree();
    let c2p = [0u32];
    let trees = views(&splats, &c2p);
    let mut cut = IncrementalCut::new();
    cut.restart(&trees, &[0], scale(0.0));
    let root_slot = cut.roots[0];
    let out = expand(&mut cut, &trees, root_slot, 0, 1.0, 1000);
    assert!(matches!(out, ExpandOutcome::Expanded(_)));
    assert_eq!(cut_indices(&cut), vec![1, 2, 3, 4]);
    assert_eq!(cut.cut_size, 4);
    assert_valid(&cut, &parent);
    let ExpandOutcome::Expanded(node0) = out else { unreachable!() };
    let out = expand(&mut cut, &trees, node0, 1, 1.0, 1000);
    let ExpandOutcome::Expanded(node2) = out else { panic!("{out:?}") };
    assert_eq!(cut_indices(&cut), vec![1, 3, 4, 9, 10, 11, 12]);
    assert_valid(&cut, &parent);
    assert_eq!(cut.nodes[node0 as usize].expanded, 1);
    assert!(cut.collapse(&trees, node2));
    assert_eq!(cut_indices(&cut), vec![1, 2, 3, 4]);
    assert_eq!(cut.nodes[node0 as usize].expanded, 0);
    assert_valid(&cut, &parent);
    let virtual_root = cut.roots[0];
    assert!(!cut.collapse(&trees, virtual_root));
    expand(&mut cut, &trees, node0, 1, 1.0, 1000);
    assert!(!cut.collapse(&trees, node0), "a node with an expanded child stays");
    assert_eq!(cut.generation, 5, "one restart, three expansions, one taken back");
}

#[test]
fn expand_respects_budget_and_terminal() {
    let (splats, _) = build_tree();
    let c2p = [0u32];
    let trees = views(&splats, &c2p);
    let mut cut = IncrementalCut::new();
    cut.restart(&trees, &[0], scale(0.0));
    let root_slot = cut.roots[0];
    assert_eq!(expand(&mut cut, &trees, root_slot, 0, 1.0, 3), ExpandOutcome::Misfit(4));
    assert_eq!(cut.cut_size, 1);
    let ExpandOutcome::Expanded(n0) = expand(&mut cut, &trees, root_slot, 0, 1.0, 4) else {
        panic!()
    };
    let ExpandOutcome::Expanded(n1) = expand(&mut cut, &trees, n0, 0, 1.0, 100) else { panic!() };
    let ExpandOutcome::Expanded(n5) = expand(&mut cut, &trees, n1, 0, 1.0, 100) else { panic!() };
    assert_eq!(expand(&mut cut, &trees, n5, 0, 1.0, 100), ExpandOutcome::Terminal);
    let base = cut.nodes[n5 as usize].children_base as usize;
    assert!(cut.arena[base..base + 4].iter().all(|c| c.slot == CUT_TERMINAL));
}

#[test]
fn chunk_space_index_survives_page_remap() {
    let (splats0, parent) = build_tree();
    let mut splats = vec![LodSplat::default(); 3 * 65536];
    for (i, s) in splats0.iter().enumerate() {
        splats[(2 << 16) + i] = s.clone();
    }
    let c2p = [2u32];
    let trees = views(&splats, &c2p);
    let mut cut = IncrementalCut::new();
    cut.restart(&trees, &[2], scale(0.0));
    let r = cut.roots[0];
    let ExpandOutcome::Expanded(n0) = expand(&mut cut, &trees, r, 0, 1.0, 100) else { panic!() };
    expand(&mut cut, &trees, n0, 2, 1.0, 100);
    assert_eq!(cut_indices(&cut), vec![1, 2, 4, 13, 14, 15, 16]);
    assert_valid(&cut, &parent);
    let packed = cut.pack(&trees);
    let mut got = packed.indices[0].clone();
    got.sort_unstable();
    assert_eq!(
        got,
        vec![1, 2, 4, 13, 14, 15, 16].iter().map(|i| (2 << 16) | i).collect::<Vec<u32>>()
    );
    let mut splats2 = vec![LodSplat::default(); 3 * 65536];
    for (i, s) in splats0.iter().enumerate() {
        splats2[(1 << 16) + i] = s.clone();
    }
    let c2p2 = [1u32];
    let trees2 = views(&splats2, &c2p2);
    let packed = cut.pack(&trees2);
    let mut got = packed.indices[0].clone();
    got.sort_unstable();
    assert_eq!(
        got,
        vec![1, 2, 4, 13, 14, 15, 16].iter().map(|i| (1 << 16) | i).collect::<Vec<u32>>()
    );
    assert_eq!(packed.evicted, 0);
}

#[test]
fn chunks_lists_roots_needed_then_wanted() {
    let (mut splats, _) = build_tree();
    splats[20] = splat(Vec3::new(20.0, 1.0, 0.0), 2.0, 65536, 4);
    let c2p = [0u32, NOT_RESIDENT];
    let trees = views(&splats, &c2p);
    let mut cut = IncrementalCut::new();
    cut.restart(&trees, &[0], scale(0.0));
    let r = cut.roots[0];
    let ExpandOutcome::Expanded(n0) = expand(&mut cut, &trees, r, 0, 1.0, 100) else { panic!() };
    let ExpandOutcome::Expanded(n4) = expand(&mut cut, &trees, n0, 3, 1.0, 100) else { panic!() };
    assert_eq!(expand(&mut cut, &trees, n4, 3, 0.5, 100), ExpandOutcome::NotResident);
    assert_eq!(cut.wanted.get(&(0, 1)).map(|v| f32::from_bits(v.0)), Some(0.5));
    let chunks = cut.chunks();
    assert_eq!(chunks.roots, 1);
    assert_eq!(chunks.needed, 0, "the whole cut lies in the root chunk");
    assert_eq!(chunks.list, vec![(LOD_ID, 0), (LOD_ID, 1)]);
}

#[test]
fn new_cut_is_empty_and_was_never_packed() {
    let mut cut = IncrementalCut::new();
    assert_eq!(cut.cut_size, 0);
    assert!(cut.cut_set_for_test().is_empty());
    assert!(cut.needs_pack());
    let packed = cut.pack(&[]);
    assert!(packed.indices.is_empty());
    assert!(!cut.needs_pack());
    let chunks = cut.chunks();
    assert_eq!((chunks.list.len(), chunks.roots, chunks.needed), (0, 0, 0));
}

#[test]
fn packing_is_needed_after_every_change() {
    let (splats, _) = build_tree();
    let c2p = [0u32];
    let trees = views(&splats, &c2p);
    let mut cut = IncrementalCut::new();
    cut.restart(&trees, &[0], scale(0.0));
    cut.pack(&trees);
    assert!(!cut.needs_pack());
    let r = cut.roots[0];
    let ExpandOutcome::Expanded(n0) = expand(&mut cut, &trees, r, 0, 1.0, 100) else { panic!() };
    assert!(cut.needs_pack());
    cut.pack(&trees);
    assert!(!cut.needs_pack());
    assert!(cut.collapse(&trees, n0));
    assert!(cut.needs_pack());
}

#[test]
fn released_chunk_of_the_cut_forces_packing() {
    let (splats, _) = build_tree();
    let c2p = [0u32];
    let trees = views(&splats, &c2p);
    let mut cut = IncrementalCut::new();
    cut.restart(&trees, &[0], scale(0.0));
    cut.pack(&trees);
    cut.note_chunk_released(LOD_ID, 3);
    assert!(!cut.needs_pack(), "the cut has no node in chunk 3");
    cut.note_chunk_released(LOD_ID + 1, 0);
    assert!(!cut.needs_pack(), "another tree");
    cut.note_chunk_released(LOD_ID, 0);
    assert!(cut.needs_pack());
}

#[test]
fn expanded_node_notes_its_extent() {
    let (splats, _) = build_tree();
    let c2p = [0u32];
    let trees = views(&splats, &c2p);
    let mut cut = IncrementalCut::new();
    cut.restart(&trees, &[0], scale(0.25));
    assert_eq!((value(cut.limit), value(cut.t)), (0.25, 0.25));
    let r = cut.roots[0];
    assert_eq!(cut.nodes[r as usize].index, NONE);
    let ExpandOutcome::Expanded(n0) = expand(&mut cut, &trees, r, 0, 1.5, 100) else { panic!() };
    let n = cut.nodes[n0 as usize];
    assert_eq!((n.index, n.parent, n.child_start, n.child_count), (0, r, 1, 4));
    assert_eq!(value(n.ps), 1.5);
    // The farthest child lies at distance 4, and all children have size 4.
    assert_eq!(n.radius, f16::from_f32(4.0 * 1.001 + 1e-3).to_bits());
    assert_eq!(n.child_size_max, f16::from_f32(4.0 * 1.001).to_bits());
}

#[test]
fn children_across_a_chunk_border_are_counted_in_both_chunks() {
    let mut splats = vec![LodSplat::default(); 2 * 65536];
    splats[0] = splat(Vec3::ZERO, 8.0, 65533, 5);
    let c2p = [0u32, 1];
    let trees = views(&splats, &c2p);
    let mut cut = IncrementalCut::new();
    cut.restart(&trees, &[0], scale(0.0));
    let r = cut.roots[0];
    let ExpandOutcome::Expanded(n0) = expand(&mut cut, &trees, r, 0, 1.0, 100) else { panic!() };
    assert_eq!(cut.chunk_refs[0].get(&0).copied(), Some(3));
    assert_eq!(cut.chunk_refs[0].get(&1).copied(), Some(2));
    let chunks = cut.chunks();
    assert_eq!(chunks.list, vec![(LOD_ID, 0), (LOD_ID, 1)]);
    assert_eq!((chunks.roots, chunks.needed), (1, 1));
    assert!(cut.collapse(&trees, n0));
    assert_eq!(cut.chunk_refs[0].get(&0).copied(), Some(1));
    assert_eq!(cut.chunk_refs[0].get(&1).copied(), None, "a count of 0 is dropped");
}

#[test]
fn evicted_nodes_are_counted_and_their_parents_forced() {
    let mut splats = vec![LodSplat::default(); 2 * 65536];
    splats[0] = splat(Vec3::ZERO, 8.0, 65533, 5);
    let here = [0u32, 1];
    let trees = views(&splats, &here);
    let mut cut = IncrementalCut::new();
    cut.restart(&trees, &[0], scale(0.0));
    let r = cut.roots[0];
    let ExpandOutcome::Expanded(n0) = expand(&mut cut, &trees, r, 0, 1.0, 100) else { panic!() };
    let gone = [0u32, NOT_RESIDENT];
    let trees2 = views(&splats, &gone);
    let packed = cut.pack(&trees2);
    assert_eq!(packed.indices[0], vec![65533, 65534, 65535]);
    assert_eq!(packed.evicted, 2);
    assert_eq!(packed.indices[0].len() + packed.evicted as usize, cut.cut_size);
    assert!(cut.nodes[n0 as usize].forced);
    assert_eq!(cut.forced, vec![n0]);
    cut.pack(&trees2);
    assert_eq!(cut.forced, vec![n0], "listed once");
    let packed = cut.pack(&trees);
    assert_eq!(packed.indices[0], vec![65533, 65534, 65535, 65536, 65537]);
}

#[test]
fn node_whose_own_chunk_is_gone_is_not_taken_back() {
    let mut splats = vec![LodSplat::default(); 2 * 65536];
    splats[0] = splat(Vec3::ZERO, 8.0, 65536, 2);
    let here = [0u32, 1];
    let trees = views(&splats, &here);
    let mut cut = IncrementalCut::new();
    cut.restart(&trees, &[0], scale(0.0));
    let r = cut.roots[0];
    let ExpandOutcome::Expanded(n0) = expand(&mut cut, &trees, r, 0, 0.75, 100) else { panic!() };
    let gone = [NOT_RESIDENT, 1];
    let trees2 = views(&splats, &gone);
    assert!(!cut.collapse(&trees2, n0));
    assert_eq!(cut.wanted.get(&(0, 0)).copied(), Some((0.75f32.to_bits(), 0)));
    assert_eq!(cut_indices(&cut), vec![65536, 65537]);
    assert!(cut.collapse(&trees, n0));
    assert!(cut.wanted.is_empty(), "it is not wanted any more");
}

#[test]
fn node_that_is_not_resident_itself_is_wanted() {
    let (splats, _) = build_tree();
    let gone = [NOT_RESIDENT];
    let trees = views(&splats, &gone);
    let mut cut = IncrementalCut::new();
    cut.restart(&trees, &[0], scale(0.0));
    let r = cut.roots[0];
    assert_eq!(expand(&mut cut, &trees, r, 0, 0.5, 100), ExpandOutcome::NotResident);
    assert_eq!(expand(&mut cut, &trees, r, 0, 0.25, 100), ExpandOutcome::NotResident);
    assert_eq!(cut.wanted.get(&(0, 0)).copied(), Some((0.5f32.to_bits(), 0)), "the larger counts");
    assert_eq!(cut.cut_size, 1);
}

#[test]
fn wanted_chunks_are_ordered_and_go_stale() {
    let (splats, _) = build_tree();
    let c2p = [0u32];
    let trees = vec![
        TreeView { lod_id: 4, splats: &splats, chunk_to_page: &c2p, params: params() },
        TreeView { lod_id: 5, splats: &splats, chunk_to_page: &c2p, params: params() },
    ];
    let mut cut = IncrementalCut::new();
    cut.restart(&trees, &[0, 0], scale(0.0));
    cut.passes = 3;
    cut.wanted.insert((1, 9), (0.5f32.to_bits(), 3));
    cut.wanted.insert((0, 8), (0.5f32.to_bits(), 2));
    cut.wanted.insert((1, 6), (2.0f32.to_bits(), 3));
    cut.wanted.insert((0, 7), ((-1.0f32).to_bits(), 3));
    cut.wanted.insert((0, 3), (4.0f32.to_bits(), 1));
    cut.wanted.insert((1, 0), (8.0f32.to_bits(), 3));
    let chunks = cut.chunks();
    assert_eq!(chunks.list, vec![(4, 0), (5, 0), (5, 6), (4, 8), (5, 9), (4, 7)]);
    assert_eq!((chunks.roots, chunks.needed), (2, 0));
}

#[test]
fn scales_that_do_not_compare_are_ordered_by_instance_and_chunk() {
    let (splats, _) = build_tree();
    let c2p = [0u32];
    let trees = views(&splats, &c2p);
    let mut cut = IncrementalCut::new();
    cut.restart(&trees, &[0], scale(0.0));
    for chunk in [9u32, 4, 6] {
        cut.wanted.insert((0, chunk), (f32::NAN.to_bits(), 0));
    }
    let list: Vec<u32> = cut.chunks().list.iter().map(|&(_, c)| c).collect();
    assert_eq!(list, vec![0, 4, 6, 9]);
}

#[test]
fn needed_chunks_ascend() {
    let mut splats = vec![LodSplat::default(); 3 * 65536];
    splats[0] = splat(Vec3::ZERO, 8.0, 1, 2);
    splats[1] = splat(Vec3::ZERO, 4.0, 2 * 65536, 1);
    splats[2] = splat(Vec3::ZERO, 4.0, 65536, 1);
    let c2p = [0u32, 1, 2];
    let trees = views(&splats, &c2p);
    let mut cut = IncrementalCut::new();
    cut.restart(&trees, &[0], scale(0.0));
    let r = cut.roots[0];
    let ExpandOutcome::Expanded(n0) = expand(&mut cut, &trees, r, 0, 1.0, 100) else { panic!() };
    expand(&mut cut, &trees, n0, 0, 1.0, 100);
    expand(&mut cut, &trees, n0, 1, 1.0, 100);
    let chunks = cut.chunks();
    assert_eq!(chunks.list, vec![(LOD_ID, 0), (LOD_ID, 1), (LOD_ID, 2)]);
    assert_eq!((chunks.roots, chunks.needed), (1, 2));
}

#[test]
fn cells_are_used_again_and_long_runs_are_lost() {
    let mut splats = vec![LodSplat::default(); 200];
    splats[0] = splat(Vec3::ZERO, 8.0, 1, 2);
    splats[1] = splat(Vec3::ZERO, 4.0, 10, 4);
    splats[2] = splat(Vec3::ZERO, 4.0, 100, 40);
    let c2p = [0u32];
    let trees = views(&splats, &c2p);
    let mut cut = IncrementalCut::new();
    cut.restart(&trees, &[0], scale(0.0));
    let r = cut.roots[0];
    let ExpandOutcome::Expanded(n0) = expand(&mut cut, &trees, r, 0, 1.0, 100) else { panic!() };
    let ExpandOutcome::Expanded(n1) = expand(&mut cut, &trees, n0, 0, 1.0, 100) else { panic!() };
    let (nodes, cells) = (cut.nodes.len(), cut.arena.len());
    assert!(cut.collapse(&trees, n1));
    let base = cut.nodes[n0 as usize].children_base as usize;
    assert_eq!(cut.arena[base].slot, CUT_LEAF);
    let ExpandOutcome::Expanded(again) = expand(&mut cut, &trees, n0, 0, 1.0, 100) else {
        panic!()
    };
    assert_eq!(again, n1, "the slot is used again");
    assert_eq!((cut.nodes.len(), cut.arena.len()), (nodes, cells));
    assert_eq!(cut.arena_leaked, 0);
    let ExpandOutcome::Expanded(n2) = expand(&mut cut, &trees, n0, 1, 1.0, 100) else { panic!() };
    assert_eq!(cut.cut_size, 44);
    assert!(cut.collapse(&trees, n2));
    assert_eq!(cut.arena_leaked, 40);
    assert_eq!(cut.cut_size, 5);
}

#[test]
fn restart_forgets_everything() {
    let (splats, _) = build_tree();
    let c2p = [0u32];
    let trees = views(&splats, &c2p);
    let mut cut = IncrementalCut::new();
    cut.restart(&trees, &[0], scale(0.0));
    let r = cut.roots[0];
    expand(&mut cut, &trees, r, 0, 1.0, 100);
    cut.restart(&trees, &[NOT_RESIDENT], scale(0.5));
    assert_eq!(cut_indices(&cut), vec![0]);
    assert_eq!((cut.nodes.len(), cut.arena.len(), cut.generation), (1, 1, 3));
    assert_eq!(cut.pass_start_generation, 3);
    assert_eq!(cut.lod_ids, vec![LOD_ID]);
    assert_eq!(cut.chunk_refs[0].get(&0).copied(), Some(1));
}

#[test]
fn runs_of_nodes_are_split_at_chunk_borders() {
    assert_eq!(IncrementalCut::chunk_spans(65534, 4), [(0, 2), (1, 2)]);
    assert_eq!(IncrementalCut::chunk_spans(65534, 2), [(0, 2), (NONE, 0)]);
    assert_eq!(IncrementalCut::chunk_spans(0, 1), [(0, 1), (NONE, 0)]);
    assert_eq!(IncrementalCut::chunk_spans(65536, 65535), [(1, 65535), (NONE, 0)]);
    assert_eq!(IncrementalCut::chunk_spans(1, 65535), [(0, 65535), (NONE, 0)]);
    assert_eq!(IncrementalCut::chunk_spans(2, 65535), [(0, 65534), (1, 1)]);
    assert_eq!(IncrementalCut::chunk_spans(u32::MAX - 4, 4), [(65535, 4), (NONE, 0)]);
}

#[test]
fn taking_back_restores_size_counts_and_parent() {
    let (splats, parent) = build_tree();
    let c2p = [0u32];
    let trees = views(&splats, &c2p);
    let mut cut = IncrementalCut::new();
    cut.restart(&trees, &[0], scale(0.0));
    let r = cut.roots[0];
    let ExpandOutcome::Expanded(n0) = expand(&mut cut, &trees, r, 0, 1.0, 100) else { panic!() };
    let (indices, generation) = (cut_indices(&cut), cut.generation);
    let (size, refs) = (cut.cut_size, cut.chunk_refs[0].clone());
    let mut lengths = Vec::new();
    for round in 1..=3u64 {
        let ExpandOutcome::Expanded(n) = expand(&mut cut, &trees, n0, 2, 1.0, 100) else {
            panic!()
        };
        lengths.push((n, cut.nodes.len(), cut.arena.len()));
        assert_eq!(cut.nodes[n0 as usize].expanded, 1);
        assert!(cut.collapse(&trees, n));
        assert!(!cut.collapse(&trees, n), "a node is taken back once");
        assert_eq!(cut_indices(&cut), indices);
        assert_eq!((cut.cut_size, cut.nodes[n0 as usize].expanded), (size, 0));
        assert_eq!(cut.chunk_refs[0], refs);
        assert_eq!(cut.generation, generation + 2 * round);
        assert_valid(&cut, &parent);
    }
    assert!(lengths.iter().all(|&l| l == lengths[0]), "the tables do not grow");
}

#[test]
fn packing_is_due_exactly_after_changes() {
    let (splats, parent) = build_tree();
    let c2p = [0u32];
    let trees = views(&splats, &c2p);
    let mut cut = IncrementalCut::new();
    assert!(cut.needs_pack());
    cut.pack(&[]);
    assert!(!cut.needs_pack());
    cut.restart(&trees, &[0], scale(0.0));
    assert!(cut.needs_pack());
    cut.pack(&trees);
    let r = cut.roots[0];
    assert_eq!(expand(&mut cut, &trees, r, 0, 1.0, 3), ExpandOutcome::Misfit(4));
    assert!(!cut.collapse(&trees, r));
    assert!(!cut.needs_pack(), "failures change nothing");
    let ExpandOutcome::Expanded(n0) = expand(&mut cut, &trees, r, 0, 1.0, 100) else { panic!() };
    assert!(cut.needs_pack());
    cut.pack(&trees);
    cut.note_chunk_released(LOD_ID, 9);
    assert!(!cut.needs_pack(), "the cut does not refer to the chunk");
    cut.note_chunk_released(LOD_ID, 0);
    assert!(cut.needs_pack());
    cut.pack(&trees);
    assert!(cut.collapse(&trees, n0));
    assert!(cut.needs_pack());
    assert_valid(&cut, &parent);
}

#[test]
fn report_packs_the_cut_only_after_a_change() {
    let (splats, _) = build_tree();
    let c2p = [0u32];
    let trees = views(&splats, &c2p);
    let mut cut = IncrementalCut::new();
    cut.restart(&trees, &[0], scale(0.0));
    let r = cut.roots[0];
    expand(&mut cut, &trees, r, 0, 1.0, 100);
    let report = cut.report_cut(&trees, &[LOD_ID], scale(0.25), false);
    let rows = report.instances.unwrap();
    assert_eq!(rows.len(), 1);
    assert_eq!((rows[0].lod_id, rows[0].num_splats, rows[0].indices.len()), (LOD_ID, 4, 16384));
    assert_eq!(rows[0].indices[..4], [1, 2, 3, 4]);
    assert!(rows[0].indices[4..].iter().all(|&x| x == 0));
    assert_eq!(report.evicted, 0);
    assert_eq!(report.chunks, vec![(LOD_ID, 0)]);
    assert_eq!((report.needed_chunks, report.done), (1, false));
    assert_eq!(value(report.pixel_limit), 0.25);
    let report = cut.report_cut(&trees, &[LOD_ID], scale(0.5), true);
    assert!(report.instances.is_none());
    assert_eq!((report.evicted, report.done), (0, true));
    assert_eq!(report.chunks, vec![(LOD_ID, 0)]);
    // The page is gone: the nodes count as evicted once the cut is told.
    let none = [NOT_RESIDENT];
    let gone = views(&splats, &none);
    cut.note_chunk_released(LOD_ID, 0);
    let report = cut.report_cut(&gone, &[LOD_ID], scale(0.5), true);
    assert_eq!(report.instances.unwrap()[0].num_splats, 0);
    assert_eq!(report.evicted, 4);
}
