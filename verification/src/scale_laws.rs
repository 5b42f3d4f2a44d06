//! The order of pixel scales and of frontier entries, bit pattern by bit pattern.

use vstd::prelude::*;

use crate::entry::Entry;
use crate::scale::{clamped, nan, rank, scale_le, scale_max, scale_min, Scale};
use crate::traverse::entry_of;

verus! {

/// Where the value with this bit pattern, which is no NaN, lies among the values.
pub open spec fn height(bits: u32) -> int {
    if bits >= 0x8000_0000 {
        0x8000_0000 - bits
    } else {
        bits as int
    }
}

/// The pattern is not that of a NaN.
pub open spec fn is_number(bits: u32) -> bool {
    bits <= 0x7f80_0000 || 0x8000_0000 <= bits <= 0xff80_0000
}

/// Values are compared as numbers, and nothing compares with a NaN: patterns without the sign bit
/// in their order, those with it in the opposite one and below the others, both zeros alike.
pub proof fn law_scales_compare_as_numbers(a: Scale, b: Scale)
    ensures
        nan(a) <==> !is_number(a.bits),
        scale_le(a, b) ==> is_number(a.bits) && is_number(b.bits),
        is_number(a.bits) && is_number(b.bits) ==> (scale_le(a, b) <==> height(a.bits) <= height(
            b.bits,
        )),
        is_number(a.bits) && is_number(b.bits) ==> (rank(a) < rank(b) <==> height(a.bits) < height(
            b.bits,
        )),
        a.bits <= b.bits <= 0x7f80_0000 ==> scale_le(a, b),
        b.bits < a.bits <= 0x7f80_0000 ==> !scale_le(a, b),
        0x8000_0000 < a.bits <= 0xff80_0000 && b.bits <= 0x7f80_0000 ==> {
            scale_le(a, b) && !scale_le(b, a)
        },
        0x8000_0000 <= a.bits <= b.bits <= 0xff80_0000 ==> scale_le(b, a),
        a.bits == 0 && b.bits == 0x8000_0000 ==> scale_le(a, b) && scale_le(b, a),
{
}

/// The smaller of two values is one of them and no larger than either; the larger one is one of
/// them and no smaller than either. A NaN gives way to the other, and of two equal values the
/// first stays.
pub proof fn law_smaller_and_larger_value(a: Scale, b: Scale)
    ensures
        !is_number(a.bits) ==> scale_min(a, b) == b && scale_max(a, b) == b,
        is_number(a.bits) && !is_number(b.bits) ==> scale_min(a, b) == a && scale_max(a, b) == a,
        is_number(a.bits) && is_number(b.bits) ==> {
            &&& scale_min(a, b) == a || scale_min(a, b) == b
            &&& height(scale_min(a, b).bits) <= height(a.bits)
            &&& height(scale_min(a, b).bits) <= height(b.bits)
            &&& scale_max(a, b) == a || scale_max(a, b) == b
            &&& height(scale_max(a, b).bits) >= height(a.bits)
            &&& height(scale_max(a, b).bits) >= height(b.bits)
            &&& height(a.bits) == height(b.bits) ==> scale_min(a, b) == a && scale_max(a, b) == a
        },
{
}

/// Positive values stay as they are; everything else, and every NaN, becomes zero.
pub proof fn law_what_is_not_positive_becomes_zero(s: Scale)
    ensures
        clamped(s).bits == (if s.bits <= 0x7f80_0000 {
            s.bits
        } else {
            0
        }),
{
}

/// An entry holds the pattern of a node's scale above its instance above its slot, and gives all
/// three back.
pub proof fn law_entry_gives_back_its_fields(key: Scale, inst: u32, slot: u32)
    requires
        inst < 128,
        slot < 0x200_0000,
    ensures
        ({
            let e = entry_of(key, (inst, slot));
            let bits = if key.bits <= 0x7f80_0000 {
                key.bits
            } else {
                0
            };
            &&& e.0 == bits * 0x1_0000_0000 + inst * 0x200_0000 + slot
            &&& e.scale().bits == bits
            &&& e.instance() == inst
            &&& e.slot() == slot
            &&& e.node() == (inst, slot)
        }),
{
}

/// Of two entries the one with the larger scale is the larger word; with the same scale the one
/// with the larger instance; and with the same instance the one with the larger slot.
pub proof fn law_larger_scale_makes_the_larger_entry(a: Entry, b: Entry)
    ensures
        a.scale().bits > b.scale().bits ==> a.0 > b.0,
        a.scale().bits == b.scale().bits && a.instance() > b.instance() ==> a.0 > b.0,
        a.scale().bits == b.scale().bits && a.instance() == b.instance() && a.slot() > b.slot()
            ==> a.0 > b.0,
        a.scale() == b.scale() && a.node() == b.node() ==> a == b,
{
}

} // verus!
