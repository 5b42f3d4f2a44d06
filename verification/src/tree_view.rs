//! Read-only views of paged trees.
//!
//! A tree's nodes are numbered in chunks of 65536. A chunk that is resident lies in a page,
//! and the node `index` of that chunk is found at the paged index
//! `page << 16 | (index & 0xffff)`.

use vstd::prelude::*;

use crate::entry::{CutNode, MAX_INSTANCES, MAX_PAGED_INDEX};
use crate::scale::Scale;
use crate::splat::LodSplat;

verus! {

/// Marks a chunk that lies in no page.
pub const NOT_RESIDENT: u32 = 0xffff_ffff;

/// Pose and foveation of one instance.
#[derive(Debug, Clone, Copy, PartialEq, Eq)]
pub struct InstanceParams {
    pub origin: [Scale; 3],
    pub forward: [Scale; 3],
    pub lod_scale: Scale,
    pub behind_foveate: Scale,
    pub cone_foveate: Scale,
    pub cone_dot0: Scale,
    pub cone_dot: Scale,
}

/// What a traversal reads of one instance; `splats` is indexed by paged index.
#[derive(Debug, Clone, Copy)]
pub struct TreeView<'a> {
    pub lod_id: u32,
    pub splats: &'a [LodSplat],
    pub chunk_to_page: &'a [u32],
    pub params: InstanceParams,
}

/// The chunk that a node lies in.
pub open spec fn chunk_of(index: int) -> int {
    index / 0x1_0000
}

/// Where node `index` of a chunk lies once the chunk is in `page`. A page number counts by its
/// low 16 bits.
pub open spec fn paged_index(page: u32, index: int) -> u32 {
    ((page as int % 0x1_0000) * 0x1_0000 + index % 0x1_0000) as u32
}

impl<'a> TreeView<'a> {
    pub open spec fn has_chunk(self, chunk: int) -> bool {
        &&& 0 <= chunk < self.chunk_to_page@.len()
        &&& self.chunk_to_page@[chunk] != NOT_RESIDENT
    }

    /// Paged index of the node `index`, whose chunk is resident.
    pub open spec fn place(self, index: int) -> u32 {
        paged_index(self.chunk_to_page@[chunk_of(index)], index)
    }

    pub open spec fn first_chunk(self, paged: u32) -> int {
        chunk_of(self.splats@[paged as int].child_start as int)
    }

    pub open spec fn last_chunk(self, paged: u32) -> int {
        chunk_of(
            self.splats@[paged as int].child_start + self.splats@[paged as int].child_count - 1,
        )
    }

    /// Paged indices of a node's children: none if it is a leaf, or as long as a chunk that
    /// holds some of them is not resident.
    pub open spec fn kids(self, paged: u32) -> Seq<u32> {
        let splat = self.splats@[paged as int];
        if splat.child_count == 0 || !self.has_chunk(self.first_chunk(paged)) || !self.has_chunk(
            self.last_chunk(paged),
        ) {
            Seq::empty()
        } else {
            Seq::new(splat.child_count as nat, |g: int| self.place(splat.child_start + g))
        }
    }

    /// Going down from this node stays within the numbering and within the tree's slots.
    pub open spec fn sound_at(self, paged: u32) -> bool {
        &&& paged < self.splats@.len()
        &&& self.splats@[paged as int].child_start + self.splats@[paged as int].child_count
            <= u32::MAX
        &&& forall|g: int|
            0 <= g < self.kids(paged).len() ==> (#[trigger] self.kids(paged)[g])
                < self.splats@.len()
    }
}

/// Every instance and every slot fits its field of a frontier entry.
pub open spec fn fits(trees: Seq<TreeView>) -> bool {
    &&& trees.len() <= MAX_INSTANCES
    &&& forall|i: int|
        0 <= i < trees.len() ==> (#[trigger] trees[i]).splats@.len() <= MAX_PAGED_INDEX
}

/// The children of a node of a traversal, in order.
pub open spec fn kid_nodes(trees: Seq<TreeView>, n: CutNode) -> Seq<CutNode> {
    if n.0 < trees.len() {
        trees[n.0 as int].kids(n.1).map_values(|k: u32| (n.0, k))
    } else {
        Seq::empty()
    }
}

/// The children of each node, as the description of a forest.
pub open spec fn kids_in(trees: Seq<TreeView>) -> spec_fn(CutNode) -> Seq<CutNode> {
    |n: CutNode| kid_nodes(trees, n)
}

/// The pixel scale that `f` computes of a node under given parameters.
pub open spec fn measured<F: Fn(&LodSplat, &InstanceParams) -> Scale>(f: F) -> spec_fn(
    LodSplat,
    InstanceParams,
) -> Scale {
    |s: LodSplat, p: InstanceParams| choose|r: Scale| call_ensures(f, (&s, &p), r)
}

/// `f` accepts every node and depends on its arguments alone.
pub open spec fn measures<F: Fn(&LodSplat, &InstanceParams) -> Scale>(f: F) -> bool {
    &&& forall|s: LodSplat, p: InstanceParams| #[trigger] call_requires(f, (&s, &p))
    &&& forall|s: LodSplat, p: InstanceParams, r: Scale| #[trigger]
        call_ensures(f, (&s, &p), r) ==> r == measured(f)(s, p)
}

/// Paged index of the node `index` of a chunk that lies in `page`.
pub fn to_paged(page: u32, index: u32) -> (r: u32)
    ensures
        r == paged_index(page, index as int),
{
    (page % 0x1_0000) * 0x1_0000 + index % 0x1_0000
}

} // verus!
