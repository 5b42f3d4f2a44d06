//! Frontier entries: a pixel scale, an instance and a paged index in one 64-bit word.
//!
//! The word is `[pixel scale bits : 32 | instance : 7 | paged index : 25]`, so that one
//! integer comparison orders by scale first, then by instance, then by paged index.

use vstd::prelude::*;

use crate::scale::{clamped, law_clamped, law_patterns_order_like_values, rank, Scale};

verus! {

pub const INST_BITS: u32 = 7;

pub const PAGED_BITS: u32 = 25;

/// Number of instances that the instance field can tell apart.
pub const MAX_INSTANCES: usize = 128;

/// Number of paged slots that the index field can tell apart: 512 pages of 65536.
pub const MAX_PAGED_INDEX: usize = 0x200_0000;

const PAGED_MASK: u64 = 0x1ff_ffff;

const INST_MASK: u64 = 0x7f;

/// A node in a traversal: the instance, and the node's paged index in that instance's tree.
pub type CutNode = (u32, u32);

#[derive(Debug, Clone, Copy, PartialEq, Eq, PartialOrd, Ord, Structural)]
pub struct Entry(pub u64);

/// The fields side by side in one number.
pub open spec fn packed(bits: u32, inst: u32, paged: u32) -> int {
    bits * 0x1_0000_0000 + inst * 0x200_0000 + paged
}

impl Entry {
    /// The pixel scale by which the entry is ordered.
    pub open spec fn scale(self) -> Scale {
        Scale { bits: (self.0 / 0x1_0000_0000) as u32 }
    }

    pub open spec fn instance(self) -> u32 {
        ((self.0 / 0x200_0000) % 128) as u32
    }

    pub open spec fn slot(self) -> u32 {
        (self.0 % 0x200_0000) as u32
    }

    /// The node that the entry stands for.
    pub open spec fn node(self) -> CutNode {
        (self.instance(), self.slot())
    }

    /// Packs a node under its pixel scale; a negative scale, or a NaN, counts as `+0`.
    pub fn new(key: Scale, inst: u32, paged: u32) -> (r: Entry)
        requires
            inst < MAX_INSTANCES,
            paged < MAX_PAGED_INDEX,
        ensures
            r.0 == packed(clamped(key).bits, inst, paged),
            r.scale() == clamped(key),
            r.node() == (inst, paged),
    {
        let k: u64 = key.clamp_negative().bits as u64;
        let i: u64 = inst as u64;
        let p: u64 = paged as u64;
        let word: u64 = (k << 32) | (i << 25) | (p & PAGED_MASK);
        assert(word == k * 0x1_0000_0000 + i * 0x200_0000 + p) by (bit_vector)
            requires
                word == (k << 32) | (i << 25) | (p & 0x1ff_ffff),
                k <= 0xffff_ffff,
                i < 128,
                p < 0x200_0000,
        ;
        Entry(word)
    }

    pub fn key(self) -> (r: Scale)
        ensures
            r == self.scale(),
    {
        let w: u64 = self.0;
        assert(w >> 32 == w / 0x1_0000_0000) by (bit_vector);
        Scale::from_bits((w >> 32) as u32)
    }

    pub fn inst(self) -> (r: u32)
        ensures
            r == self.instance(),
            r < MAX_INSTANCES,
    {
        let w: u64 = self.0;
        assert((w >> 25) & 0x7f == (w / 0x200_0000) % 128) by (bit_vector);
        ((w >> PAGED_BITS) & INST_MASK) as u32
    }

    pub fn paged(self) -> (r: u32)
        ensures
            r == self.slot(),
            r < MAX_PAGED_INDEX,
    {
        let w: u64 = self.0;
        assert(w & 0x1ff_ffff == w % 0x200_0000) by (bit_vector);
        (w & PAGED_MASK) as u32
    }
}

/// An entry is determined by its three fields, and is their packing.
pub proof fn law_entry_is_its_fields(e: Entry)
    ensures
        e.0 == packed(e.scale().bits, e.instance(), e.slot()),
        e.instance() < MAX_INSTANCES,
        e.slot() < MAX_PAGED_INDEX,
{
}

/// Comparing two packed words compares pixel scale, instance and paged index, in this order.
pub proof fn law_entries_order_like_tuples(a: Entry, b: Entry)
    requires
        a.scale() == clamped(a.scale()),
        b.scale() == clamped(b.scale()),
    ensures
        a.0 < b.0 <==> {
            ||| rank(a.scale()) < rank(b.scale())
            ||| rank(a.scale()) == rank(b.scale()) && a.instance() < b.instance()
            ||| rank(a.scale()) == rank(b.scale()) && a.instance() == b.instance() && a.slot()
                < b.slot()
        },
{
    law_entry_is_its_fields(a);
    law_entry_is_its_fields(b);
    law_patterns_order_like_values(a.scale(), b.scale());
    law_clamped(a.scale());
    law_clamped(b.scale());
}

} // verus!
