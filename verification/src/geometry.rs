//! The arithmetic on centers and sizes that an incremental cut asks its caller for.

use vstd::prelude::*;

use crate::scale::{scale_max, Scale};
use crate::splat::LodSplat;

verus! {

/// Three computations on half-precision centers and sizes.
pub struct Geometry<D, W, B> {
    /// Distance of two centers.
    pub distance: D,
    /// Single-precision value of a half-precision size.
    pub widen: W,
    /// Half-precision patterns that bound a distance and a size from above.
    pub bound: B,
}

impl<
    D: Fn([u16; 3], [u16; 3]) -> Scale,
    W: Fn(u16) -> Scale,
    B: Fn(Scale, Scale) -> (u16, u16),
> Geometry<D, W, B> {
    pub open spec fn distance_of(self, a: [u16; 3], b: [u16; 3]) -> Scale {
        choose|r: Scale| call_ensures(self.distance, (a, b), r)
    }

    pub open spec fn widened(self, h: u16) -> Scale {
        choose|r: Scale| call_ensures(self.widen, (h,), r)
    }

    pub open spec fn bounds(self, radius: Scale, size: Scale) -> (u16, u16) {
        choose|r: (u16, u16)| call_ensures(self.bound, (radius, size), r)
    }

    /// The three accept everything and depend on their arguments alone.
    pub open spec fn lawful(self) -> bool {
        &&& forall|a: [u16; 3], b: [u16; 3]| #[trigger] call_requires(self.distance, (a, b))
        &&& forall|h: u16| #[trigger] call_requires(self.widen, (h,))
        &&& forall|x: Scale, y: Scale| #[trigger] call_requires(self.bound, (x, y))
        &&& forall|a: [u16; 3], b: [u16; 3], r: Scale| #[trigger]
            call_ensures(self.distance, (a, b), r) ==> r == self.distance_of(a, b)
        &&& forall|h: u16, r: Scale| #[trigger]
            call_ensures(self.widen, (h,), r) ==> r == self.widened(h)
        &&& forall|x: Scale, y: Scale, r: (u16, u16)| #[trigger]
            call_ensures(self.bound, (x, y), r) ==> r == self.bounds(x, y)
    }

    /// The largest distance from `center` of the first `k` nodes.
    pub open spec fn reach(self, center: [u16; 3], kids: Seq<LodSplat>, k: int) -> Scale
        decreases k,
    {
        if k <= 0 {
            Scale { bits: 0 }
        } else {
            scale_max(
                self.reach(center, kids, k - 1),
                self.distance_of(kids[k - 1].center, center),
            )
        }
    }

    /// The largest size of the first `k` nodes.
    pub open spec fn largest(self, kids: Seq<LodSplat>, k: int) -> Scale
        decreases k,
    {
        if k <= 0 {
            Scale { bits: 0 }
        } else {
            scale_max(self.largest(kids, k - 1), self.widened(kids[k - 1].size))
        }
    }

    /// What is noted of a node's children: bounds on their distance and on their size.
    pub open spec fn extent(self, center: [u16; 3], kids: Seq<LodSplat>) -> (u16, u16) {
        self.bounds(
            self.reach(center, kids, kids.len() as int),
            self.largest(kids, kids.len() as int),
        )
    }
}

} // verus!
