//! What a worker holds: trees, shared nodes, page tables, levels, and whole traversals.

use half::f16;

use lod_cut::lod_level::Levels;
use lod_cut::lod_query::{
    is_atomic, pack_indices, split_by_instance, Call, Optics, TraverseError, ROW,
};
use lod_cut::lod_state::{LodState, FIRST_LOD_ID};
use lod_cut::scale::Scale;
use lod_cut::splat::LodSplat;
use lod_cut::tree_view::{InstanceParams, NOT_RESIDENT};

fn scale(x: f32) -> Scale {
    Scale::from_bits(x.to_bits())
}

fn value(s: Scale) -> f32 {
    f32::from_bits(s.to_bits())
}

fn widen(h: u16) -> Scale {
    scale(f16::from_bits(h).to_f32())
}

fn shrink(root: Scale, level: u32) -> Scale {
    scale(value(root) / 1.25f32.powi(level as i32))
}

/// The pixel scale of a node is its size.
fn by_size(splat: &LodSplat, p: &InstanceParams) -> Scale {
    scale(f16::from_bits(splat.size).to_f32() * value(p.lod_scale))
}

fn aim(axis: [Scale; 3]) -> [Scale; 3] {
    let v = glam::Vec3A::new(value(axis[0]), value(axis[1]), value(axis[2])).normalize();
    [scale(-v.x), scale(-v.y), scale(-v.z)]
}

fn half_cosine(fov: Scale) -> Scale {
    scale((0.5 * value(fov).clamp(0.0, 180.0)).to_radians().cos())
}

fn words(size: f32, child_start: u32, child_count: u16) -> [u32; 4] {
    [0, (f16::from_f32(size).to_bits() as u32) << 16, child_count as u32, child_start]
}

/// A root of size 8 with two children of sizes 4 and 2, the first with two leaves of size 1.
fn data() -> Vec<u32> {
    let mut out = Vec::new();
    for w in [words(8.0, 1, 2), words(4.0, 3, 2), words(2.0, 0, 0), words(1.0, 0, 0), words(1.0, 0, 0)] {
        out.extend(w);
    }
    out
}

fn splats(state: &LodState, id: u32) -> Vec<LodSplat> {
    let slot = *state.slots.get(&id).unwrap() as usize;
    state.stores[state.trees[slot].store].clone()
}

fn tables(state: &LodState, id: u32) -> (Vec<u32>, Vec<u32>) {
    let slot = *state.slots.get(&id).unwrap() as usize;
    (state.trees[slot].page_to_chunk.clone(), state.trees[slot].chunk_to_page.clone())
}

#[test]
fn trees_get_consecutive_ids() {
    let mut state = LodState::new();
    assert_eq!(state.new_lod_tree(10), FIRST_LOD_ID);
    assert_eq!(state.new_lod_tree(0), FIRST_LOD_ID + 1);
    assert_eq!(state.init_lod_tree(5, &data()), 1002);
    assert_eq!(tables(&state, 1002), (vec![0], vec![0]));
    assert_eq!(splats(&state, 1002)[1].child_start, 3);
    assert_eq!(tables(&state, 1000), (vec![], vec![]));
}

#[test]
fn shared_trees_see_the_same_nodes() {
    let mut state = LodState::new();
    let a = state.init_lod_tree(5, &data());
    let b = state.new_shared_lod_tree(a);
    let c = state.new_lod_tree(0);
    assert_eq!(splats(&state, a), splats(&state, b));
    assert_eq!(tables(&state, b), (vec![], vec![]));
    state.set_lod_tree_data(b, 2, 1, &words(3.0, 9, 1));
    assert_eq!(splats(&state, a)[2].child_start, 9);
    assert_eq!(splats(&state, a), splats(&state, b));
    assert!(splats(&state, c).is_empty());
}

#[test]
fn stores_grow_to_the_end_or_to_twice_their_size() {
    let mut state = LodState::new();
    let id = state.init_lod_tree(5, &data());
    assert_eq!(splats(&state, id).len(), 5);
    state.set_lod_tree_data(id, 5, 1, &words(3.0, 0, 0));
    assert_eq!(splats(&state, id).len(), 10);
    state.set_lod_tree_data(id, 30, 1, &words(3.0, 0, 0));
    assert_eq!(splats(&state, id).len(), 31);
    assert_eq!(splats(&state, id)[29], LodSplat::default());
}

#[test]
fn disposed_trees_are_gone_and_shared_nodes_stay() {
    let mut state = LodState::new();
    let a = state.init_lod_tree(5, &data());
    let b = state.new_shared_lod_tree(a);
    state.dispose_lod_tree(a);
    assert!(state.slots.get(&a).is_none());
    assert_eq!(splats(&state, b).len(), 5);
    state.dispose_lod_tree(b);
    assert!(state.stores.iter().all(|s| s.is_empty()));
    state.dispose_lod_tree(77);
    assert_eq!(state.new_lod_tree(1), 1002);
}

#[test]
fn pages_are_filled_and_given_up() {
    let mut state = LodState::new();
    let id = state.new_lod_tree(0);
    let resident = state.update_lod_trees(&[id], &[2 << 16], &[1 << 16], &[5], &[Some(data())]);
    assert_eq!(resident, vec![(id, 1)]);
    assert_eq!(
        tables(&state, id),
        (vec![NOT_RESIDENT, NOT_RESIDENT, 1], vec![NOT_RESIDENT, 2])
    );
    assert_eq!(splats(&state, id)[(2 << 16) + 1].child_start, 3);
    let resident = state.update_lod_trees(&[id], &[2 << 16], &[1 << 16], &[5], &[None]);
    assert!(resident.is_empty());
    assert_eq!(tables(&state, id), (vec![NOT_RESIDENT; 3], vec![NOT_RESIDENT; 2]));
}

#[test]
fn page_tables_of_other_trees_stay() {
    let mut state = LodState::new();
    let a = state.init_lod_tree(5, &data());
    let b = state.new_shared_lod_tree(a);
    state.update_lod_trees(&[b], &[65536], &[0], &[5], &[Some(data())]);
    assert_eq!(tables(&state, a), (vec![0], vec![0]));
    assert_eq!(tables(&state, b), (vec![NOT_RESIDENT, 0], vec![1]));
    assert_eq!(splats(&state, a).len(), 65536 + 5);
    assert_eq!(splats(&state, a)[65537].child_start, 3);
}

#[test]
fn updates_stop_at_the_shortest_column() {
    let mut state = LodState::new();
    let id = state.new_lod_tree(0);
    let data = vec![Some(data()), Some(data())];
    let resident = state.update_lod_trees(&[id, id], &[0, 65536], &[0, 65536], &[5], &data);
    assert_eq!(resident, vec![(id, 0)]);
    assert_eq!(tables(&state, id), (vec![0], vec![0]));
}

#[test]
fn one_update_can_span_pages() {
    let mut state = LodState::new();
    let id = state.new_lod_tree(0);
    let mut long = vec![0u32; 65537 * 4];
    long[65536 * 4 + 3] = 42;
    let resident = state.update_lod_trees(&[id], &[0], &[3 << 16], &[65537], &[Some(long)]);
    assert_eq!(resident, vec![(id, 3), (id, 4)]);
    assert_eq!(tables(&state, id).0, vec![3, 4]);
    assert_eq!(tables(&state, id).1[3..], [0, 1]);
    assert_eq!(splats(&state, id)[65536].child_start, 42);
}

#[test]
fn released_page_makes_the_cut_pack_again() {
    let mut state = LodState::new();
    let id = state.init_lod_tree(5, &data());
    let store = splats(&state, id);
    let c2p = [0u32];
    let params = InstanceParams {
        origin: [scale(0.0); 3],
        forward: [scale(0.0); 3],
        lod_scale: scale(1.0),
        behind_foveate: scale(1.0),
        cone_foveate: scale(1.0),
        cone_dot0: scale(1.0),
        cone_dot: scale(1.0),
    };
    let trees = [lod_cut::tree_view::TreeView {
        lod_id: id,
        splats: &store,
        chunk_to_page: &c2p,
        params,
    }];
    state.cut.restart(&trees, &[0], scale(0.0));
    state.cut.pack(&trees);
    state.update_lod_trees(&[id], &[65536], &[65536], &[1], &[None]);
    assert!(!state.cut.needs_pack(), "the cut does not refer to chunk 1");
    state.update_lod_trees(&[id], &[0], &[0], &[1], &[None]);
    assert!(state.cut.needs_pack());
}

#[test]
fn levels_stop_at_the_first_small_enough_nodes() {
    let mut state = LodState::new();
    let id = state.init_lod_tree(5, &data());
    let levels = Levels { widen, shrink };
    assert_eq!(state.get_lod_tree_level(id, 0, &levels), vec![0]);
    // 8 / 1.25^3 is a little more than 4.
    assert_eq!(state.get_lod_tree_level(id, 3, &levels), vec![1, 2]);
    // 8 / 1.25^6 is a little more than 2, so the node of size 2 comes before the leaves.
    assert_eq!(state.get_lod_tree_level(id, 6, &levels), vec![2, 3, 4]);
    // 8 / 1.25^8 is less than 2, and the leaf of that size is dropped.
    assert_eq!(state.get_lod_tree_level(id, 8, &levels), vec![3, 4]);
}

fn matrices(n: usize) -> Vec<Scale> {
    let mut m = vec![scale(0.0); 16 * n];
    for i in 0..n {
        m[16 * i + 10] = scale(2.0);
        m[16 * i + 12] = scale(5.0);
        m[16 * i + 14] = scale(7.0);
    }
    m
}

/// Traverses with columns of the given lengths.
fn attempt(state: &mut LodState, ids: &[u32], lengths: [usize; 6]) -> Option<TraverseError> {
    let matrix = vec![scale(1.0); lengths[0]];
    let one = |k: usize| vec![scale(1.0); lengths[k]];
    let (a, b, c, d, e) = (one(1), one(2), one(3), one(4), one(5));
    let call = Call {
        view_to_objects: &matrix,
        lod_scales: &a,
        behind_foveates: &b,
        cone_foveates: &c,
        cone_fov0s: &d,
        cone_fovs: &e,
    };
    let optics = Optics { aim, half_cosine };
    let roots = vec![0u32; ids.len()];
    state.traverse_lod_trees(100, scale(0.0), ids, &roots, &call, &optics, &by_size).err()
}

#[test]
fn calls_with_columns_of_other_lengths_are_refused() {
    let mut state = LodState::new();
    let id = state.init_lod_tree(5, &data());
    let ids = [id];
    assert_eq!(attempt(&mut state, &ids, [16, 1, 1, 1, 1, 1]), None);
    let bad = [
        ([15, 1, 1, 1, 1, 1], TraverseError::ViewToObjectsLength),
        ([17, 0, 1, 1, 1, 1], TraverseError::ViewToObjectsLength),
        ([16, 0, 0, 1, 1, 1], TraverseError::LodScalesLength),
        ([16, 1, 2, 0, 1, 1], TraverseError::BehindFoveatesLength),
        ([16, 1, 1, 2, 0, 1], TraverseError::ConeFoveatesLength),
        ([16, 1, 1, 1, 0, 0], TraverseError::ConeFov0sLength),
        ([16, 1, 1, 1, 1, 2], TraverseError::ConeFovsLength),
    ];
    for (lengths, error) in bad {
        assert_eq!(attempt(&mut state, &ids, lengths), Some(error));
    }
    let many = vec![id; 129];
    assert_eq!(
        attempt(&mut state, &many, [129 * 16, 129, 129, 129, 129, 129]),
        Some(TraverseError::TooManyInstances(129))
    );
}

#[test]
fn trees_with_too_many_slots_are_refused() {
    let mut state = LodState::new();
    let id = state.init_lod_tree(5, &data());
    let big = state.new_lod_tree(0);
    let slot = *state.slots.get(&big).unwrap() as usize;
    let store = state.trees[slot].store;
    state.stores[store] = vec![LodSplat::default(); 0x200_0001];
    assert_eq!(
        attempt(&mut state, &[id, big], [32, 2, 2, 2, 2, 2]),
        Some(TraverseError::TooManySlots(big, 0x200_0001))
    );
}

#[test]
fn traversal_reports_cut_chunks_and_limit() {
    let mut state = LodState::new();
    let a = state.init_lod_tree(5, &data());
    let b = state.init_lod_tree(5, &data());
    let matrix = matrices(2);
    let (lod, fov) = (vec![scale(1.0), scale(0.25)], vec![scale(90.0), scale(0.0)]);
    let ones = vec![scale(1.0); 2];
    let call = Call {
        view_to_objects: &matrix,
        lod_scales: &lod,
        behind_foveates: &ones,
        cone_foveates: &ones,
        cone_fov0s: &fov,
        cone_fovs: &fov,
    };
    let optics = Optics { aim, half_cosine };
    let r = state
        .traverse_lod_trees(100, scale(1.5), &[a, b], &[0, NOT_RESIDENT], &call, &optics, &by_size)
        .unwrap();
    // The first tree is expanded down to sizes of at most 1.5; the second one, at a quarter of
    // the scale, only once.
    assert_eq!(r.instances.len(), 2);
    let listed = |k: usize| {
        let p = &r.instances[k];
        let mut v = p.indices[..p.num_splats as usize].to_vec();
        v.sort_unstable();
        (p.lod_id, v)
    };
    assert_eq!(listed(0), (a, vec![2, 3, 4]));
    assert_eq!(listed(1), (b, vec![1, 2]));
    for p in &r.instances {
        assert_eq!(p.indices.len(), ROW);
        assert!(p.indices[p.num_splats as usize..].iter().all(|&x| x == 0));
    }
    assert_eq!(r.chunks, vec![(a, 0), (b, 0)]);
    assert_eq!(value(r.pixel_limit), 2.0);
    assert_eq!(state.cut.cut_size, 0, "the incremental cut is left alone");
}

#[test]
fn parameters_come_from_the_columns() {
    let matrix = matrices(1);
    let (lod, behind, cone) = ([scale(1.2)], [scale(0.2)], [scale(0.4)]);
    let optics = Optics { aim, half_cosine };
    let make = |fov0: f32, fov: f32| {
        let call = Call {
            view_to_objects: &matrix,
            lod_scales: &lod,
            behind_foveates: &behind,
            cone_foveates: &cone,
            cone_fov0s: &[scale(fov0)],
            cone_fovs: &[scale(fov)],
        };
        assert!(call.check(1).is_ok());
        call.make_params(&optics, 1)[0]
    };
    let p = make(90.0, 120.0);
    assert_eq!(p.origin.map(value), [5.0, 0.0, 7.0]);
    assert_eq!(p.forward.map(value), [0.0, 0.0, -1.0]);
    assert_eq!((value(p.lod_scale), value(p.behind_foveate), value(p.cone_foveate)), (1.2, 0.2, 0.4));
    assert_eq!(value(p.cone_dot0), 45.0f32.to_radians().cos());
    assert_eq!(value(p.cone_dot), 60.0f32.to_radians().cos());
    // The outer cone is no narrower than the inner one, and no angle is a line.
    assert_eq!(value(make(120.0, 90.0).cone_dot), 60.0f32.to_radians().cos());
    assert_eq!(value(make(0.0, -3.0).cone_dot0), 1.0);
    assert_eq!(value(make(0.0, f32::NAN).cone_dot), 1.0);
}

#[test]
fn indices_are_filled_up_to_full_rows() {
    let packed = pack_indices(&vec![vec![], vec![7; 16384], vec![7; 16385]], &[1, 2, 3]);
    let shape: Vec<(u32, u32, usize)> =
        packed.iter().map(|p| (p.lod_id, p.num_splats, p.indices.len())).collect();
    assert_eq!(shape, vec![(1, 0, 0), (2, 16384, 16384), (3, 16385, 32768)]);
    assert_eq!((packed[2].indices[16384], packed[2].indices[16385]), (7, 0));
}

#[test]
fn cuts_are_split_by_instance_in_order() {
    let cut = vec![(1, 5), (0, 9), (1, 4)];
    assert_eq!(split_by_instance(&cut, 3), vec![vec![9], vec![5, 4], vec![]]);
}

#[test]
fn traversal_is_atomic_without_budget_or_without_increments() {
    assert!(is_atomic(scale(0.0), true));
    assert!(is_atomic(scale(-1.0), true));
    assert!(is_atomic(scale(5.0), false));
    assert!(!is_atomic(scale(5.0), true));
    assert!(!is_atomic(scale(f32::NAN), true));
}

/// The pixel scale of a node: its size over its distance, weighted by the view direction.
fn by_view(splat: &LodSplat, p: &InstanceParams) -> Scale {
    let vector = |v: [Scale; 3]| glam::Vec3A::from_array(v.map(value));
    let center = glam::Vec3A::from_array(splat.center.map(|x| f16::from_bits(x).to_f32()));
    let delta = center - vector(p.origin);
    let distance = delta.length().max(1.0e-6);
    let ahead = delta.dot(vector(p.forward));
    let foveate = if ahead <= 0.0 {
        value(p.behind_foveate)
    } else if ahead / distance >= value(p.cone_dot0) {
        1.0
    } else {
        value(p.cone_foveate)
    };
    scale(foveate * f16::from_bits(splat.size).to_f32() / distance * value(p.lod_scale))
}

#[test]
fn output_comes_first_and_in_order() {
    let mut state = LodState::new();
    let words = [0, 0x4800_0000, 2, 1, 0, 0x4400_0000, 0, 0, 0, 0x4400_0000, 0, 0];
    let id = state.init_lod_tree(3, &words);
    assert_eq!(id, 1000);
    let matrix = [
        1.0, 0.0, 0.0, 0.0, 0.0, 1.0, 0.0, 0.0, 0.0, 0.0, 1.0, 0.0, 0.0, 0.0, 64.0, 1.0,
    ]
    .map(scale);
    let (one, zero) = ([scale(1.0)], [scale(0.0)]);
    let call = Call {
        view_to_objects: &matrix,
        lod_scales: &one,
        behind_foveates: &zero,
        cone_foveates: &zero,
        cone_fov0s: &zero,
        cone_fovs: &zero,
    };
    let optics = Optics { aim, half_cosine };
    assert!(is_atomic(scale(0.0), true));
    let r = state
        .traverse_lod_trees(10, scale(0.0), &[id], &[0], &call, &optics, &by_view)
        .unwrap();
    assert_eq!(r.instances.len(), 1);
    assert_eq!((r.instances[0].lod_id, r.instances[0].num_splats), (1000, 2));
    assert_eq!(r.instances[0].indices.len(), ROW);
    assert_eq!(r.instances[0].indices[..2], [2, 1]);
    assert!(r.instances[0].indices[2..].iter().all(|&x| x == 0));
    assert_eq!(r.chunks, vec![(1000, 0)]);
    assert_eq!((r.needed_chunks, r.done), (1, true));
    assert_eq!(value(r.pixel_limit), 0.0625);
    // Once more gives the same.
    let s = state
        .traverse_lod_trees(10, scale(0.0), &[id], &[0], &call, &optics, &by_view)
        .unwrap();
    assert_eq!(s.instances[0].indices, r.instances[0].indices);
    assert_eq!((s.chunks, s.pixel_limit), (r.chunks, r.pixel_limit));
}

#[test]
fn new_worker_has_an_empty_cut() {
    let state = LodState::new();
    assert_eq!(state.cut.packed_generation, u64::MAX);
    assert_eq!((state.cut.generation, state.cut.passes), (0, 0));
    assert!(state.cut.lod_ids.is_empty() && state.cut.wanted.is_empty());
    assert!(state.cut.needs_pack());
}

#[test]
fn repeated_traversal_lists_the_frontier_in_the_same_order() {
    let mut state = LodState::new();
    let id = state.init_lod_tree(5, &data());
    let matrix = matrices(1);
    let one = [scale(1.0)];
    let call = Call {
        view_to_objects: &matrix,
        lod_scales: &one,
        behind_foveates: &one,
        cone_foveates: &one,
        cone_fov0s: &one,
        cone_fovs: &one,
    };
    let optics = Optics { aim, half_cosine };
    // The budget stops the traversal with both children of the root in the frontier.
    for _ in 0..3 {
        let r = state
            .traverse_lod_trees(2, scale(0.0), &[id], &[0], &call, &optics, &by_size)
            .unwrap();
        assert_eq!(r.instances[0].num_splats, 2);
        assert_eq!(r.instances[0].indices[..2], [1, 2]);
        assert_eq!(state.scratch.output.len(), 0);
    }
}
