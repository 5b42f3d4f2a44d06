//! What page updates change, and what they leave as it is.

use vstd::prelude::*;

use crate::lod_state::{data_view, grown, pages_for, record, updates, Holdings, Updates};
use crate::splat::{blank, decoded, LodSplat};

verus! {

/// The pages that so many nodes need are just enough.
pub proof fn law_pages_are_just_enough(count: int)
    requires
        0 <= count,
    ensures
        count <= pages_for(count) * 65536,
        pages_for(count) * 65536 < count + 65536,
{
}

/// Four words hold a node: two halves each of the first two words are the center and the size, the
/// third word counts its children, above which anything may stand, and the fourth says where they
/// start. Decoding undoes that.
pub proof fn law_decoding_undoes_encoding(
    x: u16,
    y: u16,
    z: u16,
    size: u16,
    child_count: u16,
    spare: u16,
    child_start: u32,
)
    ensures
        decoded(
            (x + y * 65536) as u32,
            (z + size * 65536) as u32,
            (child_count + spare * 65536) as u32,
            child_start,
        ) == (LodSplat { center: [x, y, z], size, child_start, child_count }),
{
}

/// Node `i` of the data stands in its words `4 * i` to `4 * i + 3`.
pub proof fn law_nodes_are_four_words_each(data: Seq<u32>, i: int)
    requires
        0 <= i,
        4 * i + 3 < data.len(),
    ensures
        record(data, i).center@ == seq![
            (data[4 * i] as int % 65536) as u16,
            (data[4 * i] as int / 65536) as u16,
            (data[4 * i + 1] as int % 65536) as u16,
        ],
        record(data, i).size == data[4 * i + 1] as int / 65536,
        record(data, i).child_count == data[4 * i + 2] as int % 65536,
        record(data, i).child_start == data[4 * i + 3],
{
    assert(record(data, i).center@ =~= seq![
        (data[4 * i] as int % 65536) as u16,
        (data[4 * i] as int / 65536) as u16,
        (data[4 * i + 1] as int % 65536) as u16,
    ]);
}

/// Making room keeps every node, and adds blank ones behind them: up to the end that is needed,
/// or to twice the size, whichever is more.
pub proof fn law_making_room_keeps_every_node(s: Seq<LodSplat>, end: int, i: int)
    requires
        0 <= end,
    ensures
        0 <= i < s.len() ==> grown(s, end)[i] == s[i],
        s.len() <= i < grown(s, end).len() ==> grown(s, end)[i] == (LodSplat {
            center: [0u16, 0u16, 0u16],
            size: 0,
            child_start: 0,
            child_count: 0,
        }),
        end <= s.len() ==> grown(s, end).len() == s.len(),
        end > s.len() ==> {
            &&& grown(s, end).len() >= end
            &&& grown(s, end).len() >= 2 * s.len()
            &&& grown(s, end).len() == end || grown(s, end).len() == 2 * s.len()
        },
{
}

impl Holdings {
    /// An update with nodes writes the slots from `page_base` on, each with the node at its place
    /// in the data, and leaves every other slot as it is.
    pub proof fn law_update_writes_its_slots_alone(
        self,
        id: u32,
        page_base: u32,
        chunk_base: u32,
        count: u32,
        data: Seq<u32>,
        s: int,
    )
        requires
            self.stored(),
            self.trees.contains_key(id),
            0 <= s,
        ensures
            ({
                let after = self.with_pages(id, page_base, chunk_base, count, Some(data));
                let old = self.stores[self.trees[id].store];
                let new = after.stores[self.trees[id].store];
                &&& after.trees[id].store == self.trees[id].store
                &&& after.stores.len() == self.stores.len()
                &&& old.len() <= new.len()
                &&& page_base + count <= new.len()
                &&& page_base <= s < page_base + count ==> new[s] == record(data, s - page_base)
                &&& s < old.len() && !(page_base <= s < page_base + count) ==> new[s] == old[s]
                &&& old.len() <= s < new.len() && !(page_base <= s < page_base + count) ==> new[s]
                    == blank()
            }),
    {
        let room = grown(self.stores[self.trees[id].store], page_base + count);
        law_making_room_keeps_every_node(
            self.stores[self.trees[id].store],
            page_base + count,
            s,
        );
        let after = self.with_pages(id, page_base, chunk_base, count, Some(data));
        let new = after.stores[self.trees[id].store];
        assert(new.len() == room.len());
    }

    /// Writing nodes to a tree changes the slots from `page_base` on in its own store, each to the
    /// node at its place in the data; every other slot, every other store, and all tables stay.
    pub proof fn law_nodes_are_written_where_they_belong(
        self,
        id: u32,
        page_base: u32,
        count: u32,
        data: Seq<u32>,
        s: int,
        store: int,
    )
        requires
            self.stored(),
            self.trees.contains_key(id),
            0 <= s,
            0 <= store < self.stores.len(),
        ensures
            ({
                let after = self.with_data(id, page_base as int, count as int, data);
                let own = self.trees[id].store;
                &&& after.trees == self.trees
                &&& after.next_id == self.next_id
                &&& after.stores.len() == self.stores.len()
                &&& store != own ==> after.stores[store] == self.stores[store]
                &&& page_base + count <= after.stores[own].len()
                &&& self.stores[own].len() <= after.stores[own].len()
                &&& page_base <= s < page_base + count ==> after.stores[own][s] == record(
                    data,
                    s - page_base,
                )
                &&& s < self.stores[own].len() && !(page_base <= s < page_base + count)
                    ==> after.stores[own][s] == self.stores[own][s]
            }),
    {
        law_making_room_keeps_every_node(
            self.stores[self.trees[id].store],
            page_base + count,
            s,
        );
    }

    /// Disposing of an id that names no tree changes nothing.
    pub proof fn law_unknown_tree_is_not_disposed_of(self, id: u32)
        requires
            !self.trees.contains_key(id),
        ensures
            self.without_tree(id) == self,
    {
    }

    /// An update without nodes leaves all nodes as they are.
    pub proof fn law_release_writes_no_slot(
        self,
        id: u32,
        page_base: u32,
        chunk_base: u32,
        count: u32,
    )
        requires
            self.trees.contains_key(id),
        ensures
            self.with_pages(id, page_base, chunk_base, count, None).stores == self.stores,
            self.with_pages(id, page_base, chunk_base, count, None).trees[id].store
                == self.trees[id].store,
    {
    }

    /// An update sets the table entries of its pages and of its chunks: each to the other, or to
    /// "not resident" without data. It leaves every other entry as it is, and entries that the
    /// table has to grow by are "not resident".
    pub proof fn law_update_sets_its_entries_alone(
        self,
        id: u32,
        page_base: u32,
        chunk_base: u32,
        count: u32,
        data: Option<Seq<u32>>,
        i: int,
    )
        requires
            self.trees.contains_key(id),
            0 <= i,
        ensures
            ({
                let after = self.with_pages(id, page_base, chunk_base, count, data);
                let n = (count + 65535) / 65536;
                let page = page_base as int / 65536;
                let chunk = chunk_base as int / 65536;
                let pages = self.trees[id].page_to_chunk;
                let chunks = self.trees[id].chunk_to_page;
                let new_pages = after.trees[id].page_to_chunk;
                let new_chunks = after.trees[id].chunk_to_page;
                &&& pages.len() <= new_pages.len() && page + n <= new_pages.len()
                &&& chunks.len() <= new_chunks.len() && chunk + n <= new_chunks.len()
                &&& new_pages.len() == pages.len() || new_pages.len() == page + n
                &&& new_chunks.len() == chunks.len() || new_chunks.len() == chunk + n
                &&& i < n && data is Some ==> {
                    &&& new_pages[page + i] == chunk + i
                    &&& new_chunks[chunk + i] == page + i
                }
                &&& i < n && data is None ==> {
                    &&& new_pages[page + i] == 0xffff_ffff
                    &&& new_chunks[chunk + i] == 0xffff_ffff
                }
                &&& i < pages.len() && !(page <= i < page + n) ==> new_pages[i] == pages[i]
                &&& i < chunks.len() && !(chunk <= i < chunk + n) ==> new_chunks[i] == chunks[i]
                &&& pages.len() <= i < new_pages.len() && !(page <= i < page + n) ==> new_pages[i]
                    == 0xffff_ffff
                &&& chunks.len() <= i < new_chunks.len() && !(chunk <= i < chunk + n)
                    ==> new_chunks[i] == 0xffff_ffff
            }),
    {
        assert((count + 65535) / 65536 == pages_for(count as int));
    }

    /// An update leaves every other tree's tables as they are, and every store but that of its
    /// own tree.
    pub proof fn law_update_leaves_other_trees(
        self,
        id: u32,
        page_base: u32,
        chunk_base: u32,
        count: u32,
        data: Option<Seq<u32>>,
        other: u32,
        store: int,
    )
        requires
            self.stored(),
            self.trees.contains_key(id),
            other != id,
            0 <= store < self.stores.len(),
            store != self.trees[id].store,
        ensures
            ({
                let after = self.with_pages(id, page_base, chunk_base, count, data);
                &&& after.trees.contains_key(other) == self.trees.contains_key(other)
                &&& after.trees[other] == self.trees[other]
                &&& after.trees.contains_key(id)
                &&& after.stores[store] == self.stores[store]
                &&& after.next_id == self.next_id
                &&& after.stored()
            }),
    {
        let after = self.with_pages(id, page_base, chunk_base, count, data);
        assert(after.stored()) by {
            assert forall|x: u32| #[trigger] after.trees.contains_key(x) implies 0
                <= after.trees[x].store < after.stores.len() by {
                assert(self.trees.contains_key(x));
            }
        }
    }

    /// A new tree has the next id, no nodes, no pages, and a store that no other tree has; all
    /// other trees keep theirs.
    pub proof fn law_new_tree_is_empty_and_apart(self, other: u32)
        requires
            self.stored(),
            0 <= self.next_id <= u32::MAX,
            other != self.next_id,
            self.trees.contains_key(other),
        ensures
            ({
                let after = self.with_new_tree();
                let id = self.next_id as u32;
                &&& after.next_id == self.next_id + 1
                &&& after.trees.contains_key(id)
                &&& after.trees[id].page_to_chunk.len() == 0
                &&& after.trees[id].chunk_to_page.len() == 0
                &&& after.stores[after.trees[id].store].len() == 0
                &&& after.trees[other] == self.trees[other]
                &&& after.trees[id].store != after.trees[other].store
                &&& after.stores[after.trees[other].store] == self.stores[self.trees[other].store]
            }),
    {
    }

    /// A tree that shares the nodes of another starts without pages of its own.
    pub proof fn law_shared_tree_has_its_own_pages(self, id: u32)
        requires
            self.trees.contains_key(id),
            0 <= self.next_id <= u32::MAX,
            id != self.next_id,
        ensures
            ({
                let after = self.with_shared_tree(id);
                let new = self.next_id as u32;
                &&& after.next_id == self.next_id + 1
                &&& after.trees[new].page_to_chunk.len() == 0
                &&& after.trees[new].chunk_to_page.len() == 0
                &&& after.trees[new].store == self.trees[id].store
                &&& after.trees[id] == self.trees[id]
                &&& after.stores == self.stores
            }),
    {
    }

    /// A tree that is disposed of is gone; its nodes go exactly if no other tree shares them.
    pub proof fn law_disposed_tree_is_gone(self, id: u32, other: u32)
        requires
            self.stored(),
            self.trees.contains_key(id),
            other != id,
        ensures
            ({
                let after = self.without_tree(id);
                let store = self.trees[id].store;
                &&& !after.trees.contains_key(id)
                &&& after.trees.contains_key(other) == self.trees.contains_key(other)
                &&& after.next_id == self.next_id
                &&& self.trees.contains_key(other) ==> after.trees[other] == self.trees[other]
                    && after.stores[after.trees[other].store]
                    == self.stores[self.trees[other].store]
                &&& (forall|x: u32| #[trigger]
                    self.trees.contains_key(x) && x != id ==> self.trees[x].store != store)
                    ==> after.stores[store].len() == 0
            }),
    {
    }

    /// A tree that comes with its nodes has all of them, resident chunk by chunk in order.
    pub proof fn law_initial_tree_is_resident(self, num_splats: u32, data: Seq<u32>, i: int)
        requires
            0 <= self.next_id <= u32::MAX,
            0 <= i < num_splats,
        ensures
            ({
                let id = self.next_id as u32;
                let table = Seq::new(pages_for(num_splats as int) as nat, |k: int| k as u32);
                let after = self.with_new_tree().with_tables(id, table, table).with_data(
                    id,
                    0,
                    num_splats as int,
                    data,
                );
                &&& after.trees.contains_key(id)
                &&& i / 65536 < after.trees[id].chunk_to_page.len()
                &&& after.trees[id].chunk_to_page[i / 65536] == i / 65536
                &&& after.trees[id].page_to_chunk[i / 65536] == i / 65536
                &&& after.stores[after.trees[id].store].len() == num_splats
                &&& after.stores[after.trees[id].store][i] == record(data, i)
            }),
    {
        let id = self.next_id as u32;
        let table = Seq::new(pages_for(num_splats as int) as nat, |k: int| k as u32);
        let bare = self.with_new_tree().with_tables(id, table, table);
        law_making_room_keeps_every_node(Seq::empty(), num_splats as int, 0);
        assert(bare.stores[bare.trees[id].store] =~= Seq::<LodSplat>::empty());
    }
}

impl Updates {
    /// Update `k` writes the slot `s` of a store.
    pub open spec fn writes(self, h: Holdings, k: int, store: int, s: int) -> bool {
        &&& self.data[k] is Some
        &&& h.trees[self.lod_ids[k]].store == store
        &&& self.page_bases[k] <= s < self.page_bases[k] + self.counts[k]
    }

    /// Update `k` is about chunk `c` of a tree.
    pub open spec fn covers(self, k: int, id: u32, c: int) -> bool {
        &&& self.lod_ids[k] == id
        &&& self.chunk_bases[k] as int / 65536 <= c < self.chunk_bases[k] as int / 65536 + (
        self.counts[k] + 65535) / 65536
    }

    /// Whatever updates come, in whatever number: the trees and their stores stay, and so does
    /// every slot that none of them writes and every chunk's page that none of them is about.
    pub proof fn law_updates_leave_the_rest(
        self,
        h: Holdings,
        from: int,
        n: int,
        id: u32,
        s: int,
        c: int,
    )
        requires
            h.stored(),
            0 <= from <= n,
            h.trees.contains_key(id),
            forall|k: int| 0 <= k < n ==> h.trees.contains_key(#[trigger] self.lod_ids[k]),
            0 <= s < self.applied(h, from).stores[h.trees[id].store].len(),
            0 <= c < self.applied(h, from).trees[id].chunk_to_page.len(),
            forall|k: int|
                from <= k < n ==> !(#[trigger] self.writes(h, k, h.trees[id].store, s)),
            forall|k: int| from <= k < n ==> !(#[trigger] self.covers(k, id, c)),
        ensures
            self.applied(h, n).stored(),
            self.applied(h, n).trees.contains_key(id),
            self.applied(h, n).trees[id].store == h.trees[id].store,
            s < self.applied(h, n).stores[h.trees[id].store].len(),
            self.applied(h, n).stores[h.trees[id].store][s] == self.applied(
                h,
                from,
            ).stores[h.trees[id].store][s],
            c < self.applied(h, n).trees[id].chunk_to_page.len(),
            self.applied(h, n).trees[id].chunk_to_page[c] == self.applied(
                h,
                from,
            ).trees[id].chunk_to_page[c],
        decreases n - from,
    {
        self.lemma_applied(h, n);
        self.lemma_applied(h, from);
        if from < n {
            let now = self.applied(h, n - 1);
            let x = self.lod_ids[n - 1];
            self.law_updates_leave_the_rest(h, from, n - 1, id, s, c);
            self.lemma_applied(h, n - 1);
            assert(h.trees.contains_key(x));
            assert(now.trees.contains_key(x));
            assert(!self.covers(n - 1, id, c));
            assert(!self.writes(h, n - 1, h.trees[id].store, s));
            let data = data_view(self.data[n - 1]);
            now.law_update_sets_its_entries_alone(
                x,
                self.page_bases[n - 1],
                self.chunk_bases[n - 1],
                self.counts[n - 1],
                data,
                c,
            );
            match data {
                Some(words) => {
                    now.law_update_writes_its_slots_alone(
                        x,
                        self.page_bases[n - 1],
                        self.chunk_bases[n - 1],
                        self.counts[n - 1],
                        words,
                        s,
                    );
                },
                None => {
                    now.law_release_writes_no_slot(
                        x,
                        self.page_bases[n - 1],
                        self.chunk_bases[n - 1],
                        self.counts[n - 1],
                    );
                },
            }
        }
    }

    proof fn lemma_applied(self, h: Holdings, n: int)
        requires
            h.stored(),
            forall|k: int| 0 <= k < n ==> h.trees.contains_key(#[trigger] self.lod_ids[k]),
        ensures
            self.applied(h, n).stored(),
            self.applied(h, n).stores.len() == h.stores.len(),
            self.applied(h, n).trees.dom() == h.trees.dom(),
            forall|id: u32| #[trigger]
                h.trees.contains_key(id) ==> self.applied(h, n).trees[id].store
                    == h.trees[id].store,
        decreases n,
    {
        if n > 0 {
            self.lemma_applied(h, n - 1);
            let now = self.applied(h, n - 1);
            let after = self.applied(h, n);
            assert(h.trees.contains_key(self.lod_ids[n - 1]));
            assert(now.trees.contains_key(self.lod_ids[n - 1]));
            assert(after.trees.dom() =~= h.trees.dom());
            assert(after.stored()) by {
                assert forall|x: u32| #[trigger] after.trees.contains_key(x) implies 0
                    <= after.trees[x].store < after.stores.len() by {
                    assert(now.trees.contains_key(x));
                    assert(h.trees.contains_key(x));
                }
            }
            assert forall|id: u32| #[trigger] h.trees.contains_key(id) implies after.trees[id].store
                == h.trees[id].store by {
                assert(now.trees.contains_key(id));
            }
        }
    }

    /// A node that came with update `k` is found again under its number after any further
    /// updates, as long as none of them is about its chunk or writes its slot.
    pub proof fn law_loaded_nodes_stay_until_replaced(self, h: Holdings, k: int, n: int, i: int)
        requires
            h.stored(),
            0 <= k < n,
            forall|j: int| 0 <= j < n ==> h.trees.contains_key(#[trigger] self.lod_ids[j]),
            self.data[k] is Some,
            self.page_bases[k] as int % 65536 == 0,
            self.chunk_bases[k] as int % 65536 == 0,
            self.page_bases[k] + self.counts[k] <= u32::MAX,
            0 <= i < self.counts[k],
            forall|j: int|
                k < j < n ==> !(#[trigger] self.writes(
                    h,
                    j,
                    h.trees[self.lod_ids[k]].store,
                    self.page_bases[k] + i,
                )),
            forall|j: int|
                k < j < n ==> !(#[trigger] self.covers(
                    j,
                    self.lod_ids[k],
                    (self.chunk_bases[k] + i) / 65536,
                )),
        ensures
            ({
                let id = self.lod_ids[k];
                let after = self.applied(h, n);
                let index = self.chunk_bases[k] + i;
                let page = after.trees[id].chunk_to_page[index / 65536] as int;
                &&& index / 65536 < after.trees[id].chunk_to_page.len()
                &&& page != 0xffff_ffff
                &&& after.stores[after.trees[id].store][page * 65536 + index % 65536] == record(
                    self.data[k]->0@,
                    i,
                )
            }),
    {
        let id = self.lod_ids[k];
        let now = self.applied(h, k);
        let words = self.data[k]->0@;
        let index = self.chunk_bases[k] + i;
        let c = index / 65536;
        let s = self.page_bases[k] + i;
        self.lemma_applied(h, k);
        assert(h.trees.contains_key(self.lod_ids[k]));
        assert(now.trees.contains_key(id));
        now.law_update_writes_its_slots_alone(
            id,
            self.page_bases[k],
            self.chunk_bases[k],
            self.counts[k],
            words,
            s,
        );
        let at = c - self.chunk_bases[k] as int / 65536;
        assert(at == i / 65536);
        assert(at < (self.counts[k] + 65535) / 65536);
        now.law_update_sets_its_entries_alone(
            id,
            self.page_bases[k],
            self.chunk_bases[k],
            self.counts[k],
            Some(words),
            at,
        );
        assert(self.applied(h, k + 1) == now.with_pages(
            id,
            self.page_bases[k],
            self.chunk_bases[k],
            self.counts[k],
            Some(words),
        ));
        self.law_updates_leave_the_rest(h, k + 1, n, id, s, c);
        assert(self.page_bases[k] as int / 65536 + at < 65536);
    }

    /// As many updates are applied as the shortest column has entries.
    pub proof fn law_updates_end_with_the_shortest_column(self, n: int)
        requires
            0 <= n,
            !self.wide(n),
            n > 0 ==> self.wide(n - 1),
        ensures
            n <= self.lod_ids.len(),
            n <= self.page_bases.len(),
            n <= self.chunk_bases.len(),
            n <= self.counts.len(),
            n <= self.data.len(),
            ({
                ||| n == self.lod_ids.len()
                ||| n == self.page_bases.len()
                ||| n == self.chunk_bases.len()
                ||| n == self.counts.len()
                ||| n == self.data.len()
            }),
    {
    }

    /// The chunks of an update are told behind those of the updates before it, one after the
    /// other in ascending order.
    pub proof fn law_chunks_are_told_in_order(self, k: int, n: int, filled: bool, p: int)
        requires
            0 <= k < n,
            self.data[k] is Some == filled,
            0 <= p < (self.counts[k] + 65535) / 65536,
        ensures
            ({
                let before = self.moved(k, filled);
                let all = self.moved(n, filled);
                &&& before.len() + p < all.len()
                &&& all[before.len() + p] == (
                    self.lod_ids[k],
                    (self.chunk_bases[k] as int / 65536 + p) as u32,
                )
            }),
        decreases n,
    {
        if k < n - 1 {
            self.law_chunks_are_told_in_order(k, n - 1, filled, p);
        }
    }

    /// The chunks that are told as filled, or as released, are those of the updates with data, or
    /// without, and of no others: as many from each as its nodes need pages.
    pub proof fn law_told_chunks_are_those_moved(self, n: int, filled: bool, id: u32, c: u32)
        requires
            forall|k: int| 0 <= k < n ==> #[trigger] self.counts[k] <= u32::MAX - 65535,
        ensures
            self.moved(n, filled).contains((id, c)) <==> exists|k: int|
                {
                    &&& 0 <= k < n
                    &&& self.data[k] is Some == filled
                    &&& #[trigger] self.covers(k, id, c as int)
                },
        decreases n,
    {
        if n > 0 {
            self.law_told_chunks_are_those_moved(n - 1, filled, id, c);
            let before = self.moved(n - 1, filled);
            let all = self.moved(n, filled);
            let own = self.chunks(n - 1);
            assert(self.counts[n - 1] <= u32::MAX - 65535);
            let first = self.chunk_bases[n - 1] as int / 65536;
            if before.contains((id, c)) {
                let i = choose|i: int| 0 <= i < before.len() && before[i] == (id, c);
                assert(all[i] == (id, c));
                let k = choose|k: int|
                    {
                        &&& 0 <= k < n - 1
                        &&& self.data[k] is Some == filled
                        &&& #[trigger] self.covers(k, id, c as int)
                    };
                assert(self.covers(k, id, c as int));
            }
            if (self.data[n - 1] is Some) == filled {
                if self.covers(n - 1, id, c as int) {
                    assert(own[c - first] == (id, c));
                    assert(all[before.len() + (c - first)] == (id, c));
                }
                if all.contains((id, c)) && !before.contains((id, c)) {
                    let i = choose|i: int| 0 <= i < all.len() && all[i] == (id, c);
                    assert(i >= before.len()) by {
                        if i < before.len() {
                            assert(before[i] == (id, c));
                        }
                    }
                    let p = i - before.len();
                    assert(own[p] == (id, c));
                    assert(first + p <= u32::MAX);
                    assert(self.covers(n - 1, id, c as int));
                }
            }
        }
    }
}

/// Each update takes its entries from the columns of its own name.
pub proof fn law_updates_read_their_own_columns(
    h: Holdings,
    lod_ids: Seq<u32>,
    page_bases: Seq<u32>,
    chunk_bases: Seq<u32>,
    counts: Seq<u32>,
    data: Seq<Option<Vec<u32>>>,
    k: int,
)
    requires
        0 <= k,
    ensures
        ({
            let u = updates(lod_ids, page_bases, chunk_bases, counts, data);
            let now = u.applied(h, k);
            &&& u.applied(h, 0) == h
            &&& data[k] is Some ==> u.applied(h, k + 1) == now.with_pages(
                lod_ids[k],
                page_bases[k],
                chunk_bases[k],
                counts[k],
                Some(data[k]->0@),
            )
            &&& data[k] is None ==> u.applied(h, k + 1) == now.with_pages(
                lod_ids[k],
                page_bases[k],
                chunk_bases[k],
                counts[k],
                None,
            )
        }),
{
}

} // verus!
