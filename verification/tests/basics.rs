//! Scales, frontier entries, the heap, and nodes.

use lod_cut::entry::{Entry, MAX_INSTANCES, MAX_PAGED_INDEX};
use lod_cut::heap::Heap;
use lod_cut::scale::Scale;
use lod_cut::splat::LodSplat;
use lod_cut::tree_view::to_paged;

fn scale(x: f32) -> Scale {
    Scale::from_bits(x.to_bits())
}

fn value(s: Scale) -> f32 {
    f32::from_bits(s.to_bits())
}

const SAMPLES: [f32; 12] = [
    0.0,
    -0.0,
    1.0,
    -1.0,
    1.0e-40,
    -1.0e-40,
    3.5,
    -3.5,
    f32::MAX,
    f32::MIN,
    f32::INFINITY,
    f32::NEG_INFINITY,
];

#[test]
fn scales_compare_like_their_values() {
    for &a in &SAMPLES {
        for &b in &SAMPLES {
            assert_eq!(scale(a).le(scale(b)), a <= b, "{a} <= {b}");
            assert_eq!(value(scale(a).min(scale(b))), a.min(b), "min of {a} and {b}");
            assert_eq!(value(scale(a).max(scale(b))), a.max(b), "max of {a} and {b}");
        }
    }
}

#[test]
fn nan_loses_and_compares_with_nothing() {
    let nan = scale(f32::NAN);
    assert!(nan.is_nan());
    assert!(!scale(f32::INFINITY).is_nan());
    for &a in &SAMPLES {
        assert!(!nan.le(scale(a)) && !scale(a).le(nan));
        assert_eq!(nan.min(scale(a)), scale(a));
        assert_eq!(scale(a).max(nan), scale(a));
    }
    assert!(nan.min(nan).is_nan());
}

#[test]
fn clamping_raises_to_zero() {
    assert_eq!(scale(-2.0).clamp_negative().to_bits(), 0);
    assert_eq!(scale(-0.0).clamp_negative().to_bits(), 0);
    assert_eq!(scale(f32::NAN).clamp_negative().to_bits(), 0);
    assert_eq!(scale(0.25).clamp_negative(), scale(0.25));
    assert_eq!(Scale::zero(), scale(0.0));
    assert_eq!(Scale::infinity(), scale(f32::INFINITY));
}

#[test]
fn entries_hold_their_fields() {
    for (key, inst, paged) in [(0.0f32, 0, 0), (1.5, 3, 70000), (f32::INFINITY, 127, 0x1ff_ffff)] {
        let e = Entry::new(scale(key), inst, paged);
        assert_eq!((value(e.key()), e.inst(), e.paged()), (key, inst, paged));
    }
    assert_eq!(Entry::new(scale(1.0), 2, 3).0, 0x3f80_0000_0400_0003);
    assert_eq!((MAX_INSTANCES, MAX_PAGED_INDEX), (128, 512 * 65536));
}

#[test]
fn heap_hands_out_the_largest_first() {
    let mut heap = Heap::new();
    assert!(heap.peek().is_none() && heap.pop().is_none());
    for x in [5u64, 1, 9, 9, 3, 7, 0, u64::MAX, 2] {
        heap.push(Entry(x));
    }
    assert_eq!(heap.len(), 9);
    assert_eq!(heap.peek(), Some(Entry(u64::MAX)));
    let mut all: Vec<u64> = heap.entries().iter().map(|e| e.0).collect();
    all.sort_unstable();
    assert_eq!(all, vec![0, 1, 2, 3, 5, 7, 9, 9, u64::MAX]);
    assert_eq!(heap.pop(), Some(Entry(u64::MAX)));
    assert_eq!(heap.pop(), Some(Entry(9)));
    let rest: Vec<u64> = heap.into_descending().iter().map(|e| e.0).collect();
    assert_eq!(rest, vec![9, 7, 5, 3, 2, 1, 0]);
    let mut heap = Heap::new();
    heap.push(Entry(1));
    heap.clear();
    assert_eq!(heap.len(), 0);
}

#[test]
fn nodes_are_decoded_from_four_words() {
    let n = LodSplat::from_words(0x2222_1111, 0x4444_3333, 0xffff_0007, 0x0001_0002);
    assert_eq!(n, LodSplat::new_f16([0x1111, 0x2222, 0x3333], 0x4444, 0x0001_0002, 7));
    assert_eq!(LodSplat::default(), LodSplat::new_f16([0, 0, 0], 0, 0, 0));
}

#[test]
fn paged_index_is_page_and_offset() {
    assert_eq!(to_paged(2, 5), (2 << 16) | 5);
    assert_eq!(to_paged(3, 65536 + 9), (3 << 16) | 9);
    assert_eq!(to_paged(0, 65535), 65535);
}

#[test]
fn heap_keeps_its_entries_in_a_fixed_order() {
    let list = |heap: &Heap| heap.entries().iter().map(|e| e.0).collect::<Vec<u64>>();
    let fill = || {
        let mut heap = Heap::new();
        for x in [5u64, 1, 9, 7, 3] {
            heap.push(Entry(x));
        }
        heap
    };
    let mut heap = fill();
    assert_eq!(list(&heap), vec![9, 7, 5, 1, 3]);
    assert_eq!(heap.pop(), Some(Entry(9)));
    assert_eq!(list(&heap), vec![7, 3, 5, 1]);
    heap.push(Entry(6));
    assert_eq!(list(&heap), vec![7, 6, 5, 1, 3]);
    assert_eq!(list(&fill()), vec![9, 7, 5, 1, 3]);
}
