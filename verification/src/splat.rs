//! `LodSplat`: one node of a level-of-detail tree.

use vstd::prelude::*;

verus! {

/// A node. The center's coordinates and the size are half-precision bit patterns; the children
/// are the `child_count` consecutive nodes from `child_start` on.
#[derive(Debug, Clone, Copy, PartialEq, Eq)]
pub struct LodSplat {
    pub center: [u16; 3],
    pub size: u16,
    pub child_start: u32,
    pub child_count: u16,
}

/// The node at the origin without size or children.
pub open spec fn blank() -> LodSplat {
    LodSplat { center: [0u16, 0u16, 0u16], size: 0, child_start: 0, child_count: 0 }
}

/// The node that four data words encode: three center coordinates and the size, 16 bits each
/// with the low half of a word first, then the child count in the low half of the third word,
/// and the first child.
pub open spec fn decoded(w0: u32, w1: u32, w2: u32, w3: u32) -> LodSplat {
    LodSplat {
        center: [(w0 % 0x1_0000) as u16, (w0 / 0x1_0000) as u16, (w1 % 0x1_0000) as u16],
        size: (w1 / 0x1_0000) as u16,
        child_start: w3,
        child_count: (w2 % 0x1_0000) as u16,
    }
}

impl Default for LodSplat {
    fn default() -> (r: LodSplat)
        ensures
            r == blank(),
    {
        LodSplat { center: [0, 0, 0], size: 0, child_start: 0, child_count: 0 }
    }
}

impl LodSplat {
    pub fn new_f16(center: [u16; 3], size: u16, child_start: u32, child_count: u16) -> (r: LodSplat)
        ensures
            r == (LodSplat { center, size, child_start, child_count }),
    {
        LodSplat { center, size, child_start, child_count }
    }

    /// Decodes a node from its four data words.
    pub fn from_words(w0: u32, w1: u32, w2: u32, w3: u32) -> (r: LodSplat)
        ensures
            r == decoded(w0, w1, w2, w3),
    {
        let c0: u16 = (w0 % 0x1_0000) as u16;
        let c1: u16 = (w0 / 0x1_0000) as u16;
        let c2: u16 = (w1 % 0x1_0000) as u16;
        let size: u16 = (w1 / 0x1_0000) as u16;
        let child_count: u16 = (w2 % 0x1_0000) as u16;
        LodSplat::new_f16([c0, c1, c2], size, w3, child_count)
    }
}

} // verus!
