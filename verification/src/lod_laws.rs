//! What holds of the trees that a worker holds.

use vstd::prelude::*;

use crate::cut::IncrementalCut;
use crate::lod_state::{pages_for, record, Holdings, Updates};
use crate::tree_view::{chunk_of, paged_index, NOT_RESIDENT};

verus! {

impl Holdings {
    /// Every tree has a store.
    pub open spec fn stored(self) -> bool {
        forall|id: u32| #[trigger]
            self.trees.contains_key(id) ==> 0 <= self.trees[id].store < self.stores.len()
    }

    /// The nodes that come with a chunk are found again where the page table says: node `i` of
    /// the data is the node that is numbered `chunk_base + i`.
    pub proof fn law_written_nodes_are_read_back(
        self,
        id: u32,
        page_base: u32,
        chunk_base: u32,
        count: u32,
        data: Seq<u32>,
        i: int,
    )
        requires
            self.stored(),
            self.trees.contains_key(id),
            page_base % 0x1_0000 == 0,
            chunk_base % 0x1_0000 == 0,
            page_base + count <= u32::MAX,
            0 <= i < count,
        ensures
            ({
                let after = self.with_pages(id, page_base, chunk_base, count, Some(data));
                let table = after.trees[id].chunk_to_page;
                let index = chunk_base + i;
                &&& chunk_of(index) < table.len()
                &&& table[chunk_of(index)] != NOT_RESIDENT
                &&& after.splats(id)[paged_index(table[chunk_of(index)], index) as int] == record(
                    data,
                    i,
                )
            }),
    {
        let after = self.with_pages(id, page_base, chunk_base, count, Some(data));
        let table = after.trees[id].chunk_to_page;
        let page = page_base as int / 0x1_0000;
        let chunk = chunk_base as int / 0x1_0000;
        let index = chunk_base + i;
        let n = pages_for(count as int);
        let at = chunk_of(index);
        assert(at == chunk + i / 0x1_0000);
        assert(i / 0x1_0000 < n);
        assert(table[at] == (page + (at - chunk)) as u32);
        assert(page + (at - chunk) <= 0xffff);
        assert(paged_index(table[at], index) == page_base + i);
    }

    /// The chunks whose pages are given up are not resident any more.
    pub proof fn law_released_chunks_are_gone(
        self,
        id: u32,
        page_base: u32,
        chunk_base: u32,
        count: u32,
        p: int,
    )
        requires
            self.trees.contains_key(id),
            0 <= p < pages_for(count as int),
        ensures
            ({
                let after = self.with_pages(id, page_base, chunk_base, count, None);
                let chunk = chunk_of(chunk_base as int) + p;
                let page = page_base as int / 0x1_0000 + p;
                &&& after.trees[id].chunk_to_page[chunk] == NOT_RESIDENT
                &&& after.trees[id].page_to_chunk[page] == NOT_RESIDENT
                &&& after.stores == self.stores
            }),
    {
    }

    /// What is written to a tree is seen by every tree that shares its nodes, and by no other.
    pub proof fn law_shared_trees_see_the_same_nodes(
        self,
        id: u32,
        other: u32,
        page_base: int,
        count: int,
        data: Seq<u32>,
    )
        requires
            self.stored(),
            self.trees.contains_key(id),
            self.trees.contains_key(other),
        ensures
            ({
                let after = self.with_data(id, page_base, count, data);
                &&& after.trees == self.trees
                &&& self.trees[other].store == self.trees[id].store ==> after.splats(other)
                    == after.splats(id)
                &&& self.trees[other].store != self.trees[id].store ==> after.splats(other)
                    == self.splats(other)
            }),
    {
    }

    /// A tree that shares the nodes of another has them from the start.
    pub proof fn law_new_shared_tree_has_the_nodes(self, id: u32)
        requires
            self.stored(),
            self.trees.contains_key(id),
            0 <= self.next_id <= u32::MAX,
            !self.trees.contains_key(self.next_id as u32),
        ensures
            self.with_shared_tree(id).splats(self.next_id as u32) == self.splats(id),
            self.with_shared_tree(id).splats(id) == self.splats(id),
    {
    }

    /// Updating the pages of a tree leaves the page tables of all others as they are.
    pub proof fn law_other_tables_stay(
        self,
        id: u32,
        other: u32,
        page_base: u32,
        chunk_base: u32,
        count: u32,
        data: Option<Seq<u32>>,
    )
        requires
            self.trees.contains_key(id),
            self.trees.contains_key(other),
            other != id,
        ensures
            self.with_pages(id, page_base, chunk_base, count, data).trees[other]
                == self.trees[other],
    {
    }

    /// Disposing of a tree leaves all others, and their nodes, as they are.
    pub proof fn law_dispose_keeps_other_trees(self, id: u32, other: u32)
        requires
            self.stored(),
            self.trees.contains_key(other),
            other != id,
        ensures
            self.without_tree(id).trees.contains_key(other),
            self.without_tree(id).trees[other] == self.trees[other],
            self.without_tree(id).splats(other) == self.splats(other),
            !self.without_tree(id).trees.contains_key(id),
    {
    }
}

impl Updates {
    /// The chunks of an update without data are among those that lose their pages.
    proof fn lemma_released(self, n: int, k: int, p: int)
        requires
            0 <= k < n,
            self.data[k] is None,
            0 <= p < self.chunks(k).len(),
        ensures
            self.moved(n, false).contains(self.chunks(k)[p]),
        decreases n,
    {
        let before = self.moved(n - 1, false);
        let all = self.moved(n, false);
        if k == n - 1 {
            assert(all[before.len() + p] == self.chunks(k)[p]);
        } else {
            self.lemma_released(n - 1, k, p);
            let i = choose|i: int| 0 <= i < before.len() && before[i] == self.chunks(k)[p];
            assert(all[i] == before[i]);
        }
    }

    /// A cut that has a node in a chunk whose page is given up needs packing afterwards, even if
    /// it was just packed: no index into that page stays in use.
    pub proof fn law_released_chunk_of_the_cut_is_packed_again(
        self,
        before: IncrementalCut,
        after: IncrementalCut,
        n: int,
        k: int,
        p: int,
    )
        requires
            before.generation < u64::MAX,
            before.notes_releases(after, self.moved(n, false)),
            0 <= k < n,
            self.data[k] is None,
            0 <= p < self.chunks(k).len(),
            before.refers_to(self.chunks(k)[p].0, self.chunks(k)[p].1),
        ensures
            after.packed_generation != after.generation,
            after.cut() == before.cut(),
    {
        self.lemma_released(n, k, p);
        let gone = self.moved(n, false);
        let i = choose|i: int| 0 <= i < gone.len() && gone[i] == self.chunks(k)[p];
        assert(before.refers_to(gone[i].0, gone[i].1));
        assert(before.loses(gone));
    }
}

} // verus!
