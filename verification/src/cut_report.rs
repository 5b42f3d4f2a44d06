//! What a caller is told of an incremental cut after it was worked on.

use vstd::prelude::*;

use crate::cut::IncrementalCut;
use crate::cut_chunks::{is_wanted, with_wanted, Want};
use crate::cut_pack::{missing, placed, present};
use crate::hash::wants;
use crate::lod_query::{pack_indices, PackedInstance, ROW};
use crate::scale::Scale;
use crate::tree_view::TreeView;

verus! {

/// The state of an incremental cut, as it is handed out.
#[derive(Debug)]
pub struct CutReport {
    /// The indices by instance; none if they are as they were when last handed out.
    pub instances: Option<Vec<PackedInstance>>,
    /// How many nodes of the cut lie in chunks that are not resident, where it was packed.
    pub evicted: u32,
    /// `(lod_id, chunk)` by fetch priority.
    pub chunks: Vec<(u32, u32)>,
    /// How many of the chunks are root chunks or needed ones.
    pub needed_chunks: usize,
    /// The pixel scale that the cut is worked towards.
    pub pixel_limit: Scale,
    /// Nothing is left to do for the cut.
    pub done: bool,
}

impl IncrementalCut {
    /// Reports the cut after it was worked on, down to pixel scale `t`: packs it if it has
    /// changed since it was last packed, and lists the chunks that it asks for.
    pub fn report_cut(
        &mut self,
        trees: &[TreeView],
        lod_ids: &[u32],
        t: Scale,
        settled: bool,
    ) -> (r: CutReport)
        requires
            old(self).wf(),
            old(self).lod_ids@.len() <= trees@.len(),
            trees@.len() <= lod_ids@.len(),
            old(self).cut_size <= u32::MAX - ROW,
        ensures
            final(self).wf(),
            final(self).list() == old(self).list(),
            if old(self).packed_generation == old(self).generation {
                &&& r.instances is None
                &&& r.evicted == 0
                &&& *final(self) == *old(self)
            } else {
                &&& r.instances matches Some(rows)
                &&& rows@.len() == trees@.len()
                &&& forall|i: int|
                    0 <= i < trees@.len() ==> (#[trigger] rows@[i]).packs(
                        lod_ids@[i],
                        placed(trees@, i, old(self).list()),
                    )
                &&& r.evicted == old(self).list().filter(missing(trees@)).len()
                &&& old(self).packs_to(*final(self), trees@)
            },
            old(self).asks_for(r.chunks@),
            r.needed_chunks == old(self).root_chunks().len() + old(self).needed_chunks().len(),
            r.pixel_limit == t,
            r.done == settled,
    {
        let ghost list = self.list();
        let mut instances: Option<Vec<PackedInstance>> = None;
        let mut evicted: u32 = 0;
        if self.needs_pack() {
            let packed = self.pack(trees);
            proof {
                vstd::seq_lib::to_multiset_len(list);
                assert forall|i: int| 0 <= i < packed.indices@.len() implies (
                #[trigger] packed.indices@[i])@.len() <= u32::MAX - ROW by {
                    list.lemma_filter_len(present(trees@, i));
                }
            }
            instances = Some(pack_indices(&packed.indices, lod_ids));
            evicted = packed.evicted;
        }
        proof {
            assert(self.root_chunks() == old(self).root_chunks());
            assert(self.needed_chunks() == old(self).needed_chunks());
            assert(self.last_fresh_pass() == old(self).last_fresh_pass());
        }
        let chunks = self.chunks();
        proof {
            assert(chunks.list.len() == chunks.list@.len());
            let ws = choose|ws: Seq<Want>|
                {
                    &&& #[trigger] is_wanted(ws, wants(self.wanted), self.last_fresh_pass())
                    &&& chunks.list@ == with_wanted(
                        self.root_chunks() + self.needed_chunks(),
                        self.lod_ids@,
                        ws,
                        ws.len() as int,
                    )
                };
            assert(is_wanted(ws, wants(old(self).wanted), old(self).last_fresh_pass()));
        }
        CutReport {
            instances,
            evicted,
            needed_chunks: chunks.roots + chunks.needed,
            chunks: chunks.list,
            pixel_limit: t,
            done: settled,
        }
    }
}

} // verus!
