//! Synthetic trees, their layout, and fingerprints of their cuts.

use glam::{Vec3, Vec3A};
use half::f16;

use lod_cut::scale::Scale;
use lod_cut::splat::LodSplat;
use lod_cut::synth::{
    build_synth, cut_hash, is_valid_cut, page_out, run_atomic, sort_ascending, Rng, Shapes,
    SynthTree, CHUNK, PIXEL_SCALE_LIMIT_BITS,
};
use lod_cut::tree_view::InstanceParams;

const POSES: [(Vec3A, Vec3A); 3] = [
    (Vec3A::new(10.0, 2.0, -30.0), Vec3A::new(0.2, 0.0, 1.0)),
    (Vec3A::new(-40.0, 1.5, 12.0), Vec3A::new(1.0, 0.0, -0.3)),
    (Vec3A::new(3.0, 30.0, 3.0), Vec3A::new(0.0, -1.0, 0.1)),
];

fn scale(x: f32) -> Scale {
    Scale::from_bits(x.to_bits())
}

fn value(s: Scale) -> f32 {
    f32::from_bits(s.to_bits())
}

fn vector(v: [Scale; 3]) -> Vec3A {
    Vec3A::new(value(v[0]), value(v[1]), value(v[2]))
}

fn pixel_scale(splat: &LodSplat, p: &InstanceParams) -> Scale {
    let center = Vec3A::from_array(splat.center.map(|x| f16::from_bits(x).to_f32()));
    let size = f16::from_bits(splat.size).to_f32();
    let delta = center - vector(p.origin);
    let distance = delta.length().max(1.0e-6);
    let inv_distance = 1.0 / distance;
    let pixel_scale = size * inv_distance * value(p.lod_scale);
    let forward_dot = delta.dot(vector(p.forward));
    let (behind, cone) = (value(p.behind_foveate), value(p.cone_foveate));
    let (dot0, dot1) = (value(p.cone_dot0), value(p.cone_dot));
    let foveate = if forward_dot <= 0.0 {
        behind
    } else {
        let dot = forward_dot * inv_distance;
        if dot >= dot0 {
            1.0
        } else if dot >= dot1 {
            cone + (1.0 - cone) * ((dot - dot1) / (dot0 - dot1))
        } else {
            behind + (cone - behind) * (dot / dot1)
        }
    };
    scale(foveate * pixel_scale)
}

fn unit(fraction: u32) -> f32 {
    fraction as f32 / (1u64 << 24) as f32
}

fn child_shape(parent: (Vec3, f32), a: u32, b: u32, c: u32) -> (Vec3, f32) {
    let (center, size) = parent;
    let off = Vec3::new(unit(a) - 0.5, unit(b) - 0.5, unit(c) - 0.5) * size;
    (center + off, size * 0.6)
}

fn encode(shape: (Vec3, f32)) -> ([u16; 3], u16) {
    let (center, size) = shape;
    (center.to_array().map(|x| f16::from_f32(x).to_bits()), f16::from_f32(size).to_bits())
}

fn synth(seed: u64, max_nodes: usize, root_size: f32) -> SynthTree {
    build_synth(seed, max_nodes, (Vec3::ZERO, root_size), &Shapes { child: child_shape, encode })
}

fn params(origin: Vec3A, forward: Vec3A) -> InstanceParams {
    let cone_dot0 = (0.5f32 * 90.0).to_radians().cos();
    let cone_dot = (0.5f32 * 120.0).to_radians().cos().min(cone_dot0);
    let forward = forward.normalize();
    InstanceParams {
        origin: [scale(origin.x), scale(origin.y), scale(origin.z)],
        forward: [scale(forward.x), scale(forward.y), scale(forward.z)],
        lod_scale: scale(1.2),
        behind_foveate: scale(0.2),
        cone_foveate: scale(0.4),
        cone_dot0: scale(cone_dot0),
        cone_dot: scale(cone_dot),
    }
}

#[test]
fn synth_cut_hash_is_stable() {
    let tree = synth(42, 300_000, 256.0);
    let (splats, c2p, root_page) = page_out(&tree);
    assert!(tree.num_chunks >= 4, "several chunks are needed: {}", tree.num_chunks);
    let expected: [(u64, usize); 3] = [
        (0xf36811e1f2f5514c, 99_996),
        (0x4e1237e27b505c9a, 99_998),
        (0xe5e6b8c91a8fea8b, 99_997),
    ];
    for (k, &(origin, forward)) in POSES.iter().enumerate() {
        let p = params(origin, forward);
        let (cut, n) = run_atomic(&splats, &c2p, root_page, p, &pixel_scale, 100_000);
        assert!(is_valid_cut(&tree, &c2p, &cut));
        assert_eq!(n, cut.len());
        let h = cut_hash(&cut);
        assert_eq!((h, n), expected[k], "pose {k}: another cut (hash={h:#x}, n={n})");
    }
}

#[test]
fn limit_bits_are_those_of_the_value() {
    assert_eq!(f32::from_bits(PIXEL_SCALE_LIMIT_BITS), 0.000976);
}

#[test]
fn generator_gives_the_known_sequence() {
    let mut rng = Rng::new(42);
    assert_eq!(rng.0, 43);
    assert_eq!(rng.next_u64(), 0x9eb31902fb0880bd);
    assert_eq!(rng.next_u64(), 0x741191fccc3492f7);
    let mut again = Rng::new(42);
    assert_eq!(again.range(4, 8), 4);
    assert_eq!(again.fraction(), 0x741191);
    assert_eq!(Rng::new(0).0, 1);
}

#[test]
fn generator_does_not_get_stuck() {
    let mut rng = Rng::new(0);
    for _ in 0..10_000 {
        rng.next_u64();
        assert_ne!(rng.0, 0);
    }
    for _ in 0..1000 {
        let x = rng.range(4, 8);
        assert!((4..=8).contains(&x));
    }
}

#[test]
fn fingerprints_are_exact() {
    assert_eq!(cut_hash(&[]), 0xcbf2_9ce4_8422_2325);
    assert_eq!(cut_hash(&[1, 2, 3]), 0xd0aa6218672cf5ab);
    assert_ne!(cut_hash(&[3, 2, 1]), 0xd0aa6218672cf5ab);
}

#[test]
fn small_synthetic_trees_are_numbered_breadth_first() {
    for max in [0usize, 1, 4, 5, 9, 100] {
        let tree = synth(7, max, 16.0);
        assert!(tree.nodes.len() <= max.max(1));
        assert!(max < tree.nodes.len() + 8);
        assert_eq!(tree.num_chunks, 1);
        // The runs of children lie side by side, and all nodes that have some come first.
        let inner = tree.nodes.iter().take_while(|n| n.child_count > 0).count();
        let mut end = 1;
        for n in &tree.nodes[..inner] {
            assert_eq!(n.child_start, end);
            end += n.child_count as u32;
        }
        assert_eq!(end as usize, tree.nodes.len());
        assert!(tree.nodes[inner..].iter().all(|n| n.child_count == 0));
        assert_eq!(tree.parent[0], u32::MAX);
        for i in 1..tree.nodes.len() {
            let p = tree.parent[i] as usize;
            assert!(p < i);
            let s = tree.nodes[p];
            assert!((4..=8).contains(&s.child_count));
            let i = i as u32;
            assert!(s.child_start <= i && i < s.child_start + s.child_count as u32);
        }
    }
    assert_eq!(synth(7, 1, 16.0).nodes.len(), 1);
}

#[test]
fn layout_is_back_to_front() {
    let mut nodes = vec![LodSplat::default(); CHUNK + 2];
    for (i, n) in nodes.iter_mut().enumerate() {
        n.child_start = i as u32;
    }
    let parent = vec![u32::MAX; CHUNK + 2];
    let tree = SynthTree { nodes, parent, num_chunks: 2 };
    let (splats, c2p, root_page) = page_out(&tree);
    assert_eq!(c2p, vec![1, 0]);
    assert_eq!(root_page, 1);
    assert_eq!(splats.len(), 2 * CHUNK);
    assert_eq!(splats[CHUNK].child_start, 0);
    assert_eq!(splats[CHUNK + 5].child_start, 5);
    assert_eq!(splats[1].child_start, CHUNK as u32 + 1);
    assert_eq!(splats[2], LodSplat::default());
}

#[test]
fn validity_of_cuts_is_decided() {
    let tree = synth(7, 60, 16.0);
    let c2p = [0u32];
    assert!(is_valid_cut(&tree, &c2p, &[0]));
    assert!(!is_valid_cut(&tree, &c2p, &[]));
    assert!(!is_valid_cut(&tree, &c2p, &[0, 0]));
    assert!(!is_valid_cut(&tree, &c2p, &[0, 1]));
    let s = tree.nodes[0];
    let level: Vec<u32> = (s.child_start..s.child_start + s.child_count as u32).collect();
    assert!(is_valid_cut(&tree, &c2p, &level));
    assert!(!is_valid_cut(&tree, &c2p, &level[1..]));
}

#[test]
fn sorting_keeps_every_number() {
    assert_eq!(sort_ascending(&vec![]), Vec::<u32>::new());
    assert_eq!(sort_ascending(&vec![5, 1, u32::MAX, 1, 0]), vec![0, 1, 1, 5, u32::MAX]);
}
