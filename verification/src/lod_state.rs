//! The trees that a worker holds: their nodes, their page tables, and who shares what.

use ahash::AHashMap;
use vstd::prelude::*;

use crate::cut::IncrementalCut;
use crate::hash::{wants, words, words_entries, words_get, words_insert, words_new, words_remove};
use crate::scale::Scale;
use crate::splat::{blank, decoded, LodSplat};
use crate::traverse::{unseeded, Progress, TraverseCore};
use crate::tree_view::NOT_RESIDENT;

verus! {

/// Id of the first tree.
pub const FIRST_LOD_ID: u32 = 1000;

/// The page table of a tree, and the store that its nodes lie in.
#[derive(Debug)]
pub struct LodTree {
    pub store: usize,
    pub page_to_chunk: Vec<u32>,
    pub chunk_to_page: Vec<u32>,
}

/// What a worker holds. Trees that share their nodes have one store. The slot of a disposed
/// tree, and a store that no tree uses any more, stay behind empty.
pub struct LodState {
    pub next_id: u32,
    /// Slot of the tree with a given id.
    pub slots: AHashMap<u32, u32>,
    pub trees: Vec<LodTree>,
    pub stores: Vec<Vec<LodSplat>>,
    /// For traversals that run through at once; they leave `cut` alone.
    pub scratch: TraverseCore,
    pub cut: IncrementalCut,
}

/// A page table as a mathematical object.
#[verifier::ext_equal]
pub struct PageTable {
    pub store: int,
    pub page_to_chunk: Seq<u32>,
    pub chunk_to_page: Seq<u32>,
}

/// The trees of a worker as a mathematical object.
#[verifier::ext_equal]
pub struct Holdings {
    pub next_id: int,
    pub trees: Map<u32, PageTable>,
    pub stores: Seq<Seq<LodSplat>>,
}

impl LodTree {
    pub open spec fn table(&self) -> PageTable {
        PageTable {
            store: self.store as int,
            page_to_chunk: self.page_to_chunk@,
            chunk_to_page: self.chunk_to_page@,
        }
    }
}

/// How many pages of 65536 hold so many nodes.
pub open spec fn pages_for(count: int) -> int {
    (count + 0xffff) / 0x1_0000
}

/// `s` made at least `n` long with entries `x`.
pub open spec fn padded<A>(s: Seq<A>, n: int, x: A) -> Seq<A> {
    Seq::new(
        if n > s.len() {
            n as nat
        } else {
            s.len()
        },
        |i: int|
            if i < s.len() {
                s[i]
            } else {
                x
            },
    )
}

/// A store that has room for `end` nodes: it grows to that, but at least to twice its size.
pub open spec fn grown(s: Seq<LodSplat>, end: int) -> Seq<LodSplat> {
    if end > s.len() {
        padded(
            s,
            if 2 * s.len() > end {
                2 * s.len() as int
            } else {
                end
            },
            blank(),
        )
    } else {
        s
    }
}

/// The node that is encoded at position `i` of the data.
pub open spec fn record(data: Seq<u32>, i: int) -> LodSplat {
    decoded(data[4 * i], data[4 * i + 1], data[4 * i + 2], data[4 * i + 3])
}

/// A store with the first `n` nodes of the data written from `base` on.
pub open spec fn written(s: Seq<LodSplat>, base: int, n: int, data: Seq<u32>) -> Seq<LodSplat> {
    Seq::new(
        s.len(),
        |i: int|
            if base <= i < base + n {
                record(data, i - base)
            } else {
                s[i]
            },
    )
}

/// A table in which `n` entries from `base` on count up from `value`.
pub open spec fn counting(s: Seq<u32>, base: int, n: int, value: int) -> Seq<u32> {
    Seq::new(
        s.len(),
        |i: int|
            if base <= i < base + n {
                (value + (i - base)) as u32
            } else {
                s[i]
            },
    )
}

/// A table in which `n` entries from `base` on are not resident.
pub open spec fn vacated(s: Seq<u32>, base: int, n: int) -> Seq<u32> {
    Seq::new(
        s.len(),
        |i: int|
            if base <= i < base + n {
                NOT_RESIDENT
            } else {
                s[i]
            },
    )
}

impl Holdings {
    /// The nodes of a tree.
    pub open spec fn splats(self, id: u32) -> Seq<LodSplat> {
        self.stores[self.trees[id].store]
    }

    /// No other tree uses the store of this one.
    pub open spec fn sole_owner(self, id: u32) -> bool {
        forall|other: u32| #[trigger]
            self.trees.contains_key(other) && other != id ==> self.trees[other].store
                != self.trees[id].store
    }

    /// With one more tree, which has the store given and empty tables.
    pub open spec fn with_tree(self, table: PageTable) -> Holdings {
        Holdings {
            next_id: self.next_id + 1,
            trees: self.trees.insert(self.next_id as u32, table),
            ..self
        }
    }

    /// With a new tree that has a store of its own.
    pub open spec fn with_new_tree(self) -> Holdings {
        Holdings { stores: self.stores.push(Seq::empty()), ..self }.with_tree(
            PageTable {
                store: self.stores.len() as int,
                page_to_chunk: Seq::empty(),
                chunk_to_page: Seq::empty(),
            },
        )
    }

    /// With a new tree that shares the nodes of `id`.
    pub open spec fn with_shared_tree(self, id: u32) -> Holdings {
        self.with_tree(
            PageTable {
                store: self.trees[id].store,
                page_to_chunk: Seq::empty(),
                chunk_to_page: Seq::empty(),
            },
        )
    }

    /// Without a tree, and without its nodes if no other tree shares them.
    pub open spec fn without_tree(self, id: u32) -> Holdings {
        if self.trees.contains_key(id) {
            Holdings {
                trees: self.trees.remove(id),
                stores: if self.sole_owner(id) {
                    self.stores.update(self.trees[id].store, Seq::empty())
                } else {
                    self.stores
                },
                ..self
            }
        } else {
            self
        }
    }

    /// With nodes written to the store of a tree.
    pub open spec fn with_data(
        self,
        id: u32,
        page_base: int,
        count: int,
        data: Seq<u32>,
    ) -> Holdings {
        Holdings {
            stores: self.stores.update(
                self.trees[id].store,
                written(grown(self.splats(id), page_base + count), page_base, count, data),
            ),
            ..self
        }
    }

    /// With another page table.
    pub open spec fn with_tables(self, id: u32, pages: Seq<u32>, chunks: Seq<u32>) -> Holdings {
        Holdings {
            trees: self.trees.insert(
                id,
                PageTable {
                    store: self.trees[id].store,
                    page_to_chunk: pages,
                    chunk_to_page: chunks,
                },
            ),
            ..self
        }
    }

    /// After some pages of a tree were filled with chunks, or given up. The tables grow as far as
    /// needed; a chunk that comes brings its nodes along.
    pub open spec fn with_pages(
        self,
        id: u32,
        page_base: u32,
        chunk_base: u32,
        count: u32,
        data: Option<Seq<u32>>,
    ) -> Holdings {
        let n = pages_for(count as int);
        let page = page_base as int / 0x1_0000;
        let chunk = chunk_base as int / 0x1_0000;
        let pages = padded(self.trees[id].page_to_chunk, page + n, NOT_RESIDENT);
        let chunks = padded(self.trees[id].chunk_to_page, chunk + n, NOT_RESIDENT);
        match data {
            None => self.with_tables(id, vacated(pages, page, n), vacated(chunks, chunk, n)),
            Some(words) => self.with_tables(
                id,
                counting(pages, page, n, chunk),
                counting(chunks, chunk, n, page),
            ).with_data(id, page_base as int, count as int, words),
        }
    }
}

impl View for LodState {
    type V = Holdings;

    open spec fn view(&self) -> Holdings {
        Holdings {
            next_id: self.next_id as int,
            trees: words(self.slots).map_values(|k: u32| self.trees@[k as int].table()),
            stores: self.stores@.map_values(|s: Vec<LodSplat>| s@),
        }
    }
}

impl LodState {
    /// Every id names a slot of its own, every tree a store, and the ids to come are free.
    pub open spec fn wf(&self) -> bool {
        &&& forall|id: u32| #[trigger]
            words(self.slots).contains_key(id) ==> {
                &&& words(self.slots)[id] < self.trees@.len()
                &&& self.trees@[words(self.slots)[id] as int].store < self.stores@.len()
                &&& id < self.next_id
            }
        &&& forall|a: u32, b: u32| #[trigger]
            words(self.slots).contains_key(a) && #[trigger] words(self.slots).contains_key(b) && a
                != b ==> words(self.slots)[a] != words(self.slots)[b]
        &&& self.trees@.len() + FIRST_LOD_ID == self.next_id
        &&& self.cut.wf()
    }

    /// A worker without trees.
    pub fn new() -> (r: LodState)
        ensures
            r.wf(),
            r@.next_id == FIRST_LOD_ID,
            r@.trees == (Map::<u32, PageTable>::empty()),
            r@.stores.len() == 0,
            r.scratch.wf(),
            r.scratch@ == (Progress { min_pixel_scale: (Scale { bits: 0 }), ..unseeded() }),
            r.scratch.frontier.list().len() == 0,
            r.cut.cut().len() == 0,
            r.cut.cut_size == 0,
            r.cut.nodes@.len() == 0,
            r.cut.node_free@.len() == 0,
            r.cut.arena@.len() == 0,
            r.cut.arena_leaked == 0,
            r.cut.lod_ids@.len() == 0,
            r.cut.max_splats == 0,
            r.cut.cursor == 0,
            r.cut.visited_since_change == 0,
            r.cut.pass_start_generation == 0,
            !r.cut.clean_pass,
            wants(r.cut.wanted) == (Map::<(u8, u32), (u32, u32)>::empty()),
            r.cut.limit.bits == 0,
            r.cut.t.bits == 0,
            r.cut.generation == 0,
            r.cut.packed_generation == u64::MAX,
            r.cut.passes == 0,
            r.cut.forced@.len() == 0,
    {
        let r = LodState {
            next_id: FIRST_LOD_ID,
            slots: words_new(),
            trees: Vec::new(),
            stores: Vec::new(),
            scratch: TraverseCore::default(),
            cut: IncrementalCut::new(),
        };
        proof {
            broadcast use vstd::seq_lib::group_to_multiset_ensures;

            assert(r@.trees =~= Map::empty());
        }
        r
    }

    /// Puts a tree under the next id.
    fn add_tree(&mut self, tree: LodTree) -> (id: u32)
        requires
            old(self).wf(),
            tree.store < old(self).stores@.len(),
            old(self).next_id < u32::MAX,
        ensures
            final(self).wf(),
            id == old(self).next_id,
            final(self)@ == old(self)@.with_tree(tree.table()),
            final(self).stores == old(self).stores,
            final(self).scratch == old(self).scratch,
            final(self).cut == old(self).cut,
    {
        let id: u32 = self.next_id;
        let slot: u32 = self.trees.len() as u32;
        self.trees.push(tree);
        words_insert(&mut self.slots, id, slot);
        self.next_id = self.next_id + 1;
        proof {
            assert(self@ =~= old(self)@.with_tree(tree.table())) by {
                assert(self@.trees =~= old(self)@.trees.insert(id, tree.table()));
            }
        }
        id
    }

    /// A new tree without nodes.
    pub fn new_lod_tree(&mut self, capacity: u32) -> (id: u32)
        requires
            old(self).wf(),
            old(self).next_id < u32::MAX,
        ensures
            final(self).wf(),
            id == old(self).next_id,
            final(self)@ == old(self)@.with_new_tree(),
            final(self).scratch == old(self).scratch,
            final(self).cut == old(self).cut,
    {
        let pages: usize = ((capacity as u64 + 0xffff) / 0x1_0000) as usize;
        let store: usize = self.stores.len();
        self.stores.push(Vec::with_capacity(capacity as usize));
        proof {
            assert(self@ =~= Holdings {
                stores: old(self)@.stores.push(Seq::empty()),
                ..old(self)@
            });
        }
        self.add_tree(
            LodTree {
                store,
                page_to_chunk: Vec::with_capacity(pages),
                chunk_to_page: Vec::with_capacity(pages),
            },
        )
    }

    /// A new tree that shares the nodes of another one, with a page table of its own.
    pub fn new_shared_lod_tree(&mut self, orig_lod_id: u32) -> (id: u32)
        requires
            old(self).wf(),
            old(self)@.trees.contains_key(orig_lod_id),
            old(self).next_id < u32::MAX,
        ensures
            final(self).wf(),
            id == old(self).next_id,
            final(self)@ == old(self)@.with_shared_tree(orig_lod_id),
            final(self).scratch == old(self).scratch,
            final(self).cut == old(self).cut,
    {
        let slot: usize = self.slot_of(orig_lod_id);
        let store: usize = self.trees[slot].store;
        self.add_tree(LodTree { store, page_to_chunk: Vec::new(), chunk_to_page: Vec::new() })
    }

    /// The slot of a tree.
    pub(crate) fn slot_of(&self, id: u32) -> (r: usize)
        requires
            self.wf(),
            self@.trees.contains_key(id),
        ensures
            r == words(self.slots)[id],
            r < self.trees@.len(),
            self.trees@[r as int].table() == self@.trees[id],
            self.trees@[r as int].store < self.stores@.len(),
    {
        assert(words(self.slots).contains_key(id));
        match words_get(&self.slots, id) {
            Some(slot) => slot as usize,
            None => 0,
        }
    }

    /// Forgets a tree. Its nodes are given up with it, unless another tree shares them.
    pub fn dispose_lod_tree(&mut self, lod_id: u32)
        requires
            old(self).wf(),
        ensures
            final(self).wf(),
            final(self)@ == old(self)@.without_tree(lod_id),
            final(self).scratch == old(self).scratch,
            final(self).cut == old(self).cut,
    {
        let slot: usize = match words_get(&self.slots, lod_id) {
            Some(slot) => slot as usize,
            None => {
                return;
            },
        };
        proof {
            assert(words(self.slots).contains_key(lod_id));
        }
        let store: usize = self.trees[slot].store;
        words_remove(&mut self.slots, lod_id);
        let others = words_entries(&self.slots);
        let ghost rest = words(self.slots);
        let mut sole = true;
        let mut i: usize = 0;
        while i < others.len()
            invariant
                i <= others@.len(),
                self.wf(),
                rest == words(self.slots),
                crate::hash::lists(others@, rest),
                sole == (forall|k: int|
                    0 <= k < i ==> self.trees@[(#[trigger] others@[k]).1 as int].store != store),
            decreases others@.len() - i,
        {
            let (id, at) = others[i];
            assert(rest.contains_key(others@[i as int].0));
            if self.trees[at as usize].store == store {
                sole = false;
            }
            i += 1;
        }
        proof {
            assert(sole == old(self)@.sole_owner(lod_id)) by {
                if sole {
                    assert forall|other: u32| #[trigger]
                        old(self)@.trees.contains_key(other) && other
                            != lod_id implies old(self)@.trees[other].store
                        != old(self)@.trees[lod_id].store by {
                        assert(rest.contains_key(other));
                        let k = choose|k: int|
                            0 <= k < others@.len() && (#[trigger] others@[k]).0 == other;
                        assert(self.trees@[others@[k].1 as int].store != store);
                    }
                } else {
                    let k = choose|k: int|
                        0 <= k < i && self.trees@[(#[trigger] others@[k]).1 as int].store
                            == store;
                    assert(rest.contains_key(others@[k].0));
                    assert(old(self)@.trees.contains_key(others@[k].0));
                }
            }
        }
        self.trees.set(
            slot,
            LodTree { store, page_to_chunk: Vec::new(), chunk_to_page: Vec::new() },
        );
        if sole {
            self.stores.set(store, Vec::new());
        }
        proof {
            assert(self@.trees =~= old(self)@.trees.remove(lod_id));
            assert(self@.stores =~= old(self)@.without_tree(lod_id).stores);
            assert(self@ =~= old(self)@.without_tree(lod_id));
        }
    }

    /// Makes room in a store.
    fn grow(splats: &mut Vec<LodSplat>, end: usize)
        requires
            end <= u32::MAX,
            2 * old(splats)@.len() <= usize::MAX,
        ensures
            final(splats)@ == grown(old(splats)@, end as int),
    {
        let len: usize = splats.len();
        if end > len {
            let size: usize = if 2 * len > end {
                2 * len
            } else {
                end
            };
            while splats.len() < size
                invariant
                    len == old(splats)@.len(),
                    len <= splats@.len() <= size,
                    forall|i: int| 0 <= i < len ==> #[trigger] splats@[i] == old(splats)@[i],
                    forall|i: int| len <= i < splats@.len() ==> #[trigger] splats@[i] == blank(),
                decreases size - splats@.len(),
            {
                splats.push(LodSplat::default());
            }
            proof {
                assert(splats@ =~= grown(old(splats)@, end as int));
            }
        }
    }

    /// Decodes `count` nodes into a store, from `page_base` on.
    fn write_nodes(splats: &mut Vec<LodSplat>, page_base: u32, count: u32, data: &[u32])
        requires
            page_base + count <= u32::MAX,
            4 * count <= data@.len(),
            2 * old(splats)@.len() <= usize::MAX,
        ensures
            final(splats)@ == written(
                grown(old(splats)@, page_base + count),
                page_base as int,
                count as int,
                data@,
            ),
    {
        Self::grow(splats, (page_base + count) as usize);
        let ghost room = splats@;
        let words: usize = data.len();
        let mut i: u32 = 0;
        proof {
            assert(splats@ =~= written(room, page_base as int, 0, data@));
        }
        while i < count
            invariant
                i <= count,
                page_base + count <= u32::MAX,
                4 * count <= words,
                words == data@.len(),
                page_base + count <= room.len(),
                splats@ == written(room, page_base as int, i as int, data@),
            decreases count - i,
        {
            let at: usize = i as usize * 4;
            let node = LodSplat::from_words(data[at], data[at + 1], data[at + 2], data[at + 3]);
            splats.set((page_base + i) as usize, node);
            i += 1;
            proof {
                assert(splats@ =~= written(room, page_base as int, i as int, data@));
            }
        }
    }

    /// Writes `count` nodes, four words each, to the slots of a tree from `page_base` on. All
    /// trees that share its nodes see them.
    pub fn set_lod_tree_data(&mut self, lod_id: u32, page_base: u32, count: u32, data: &[u32])
        requires
            old(self).wf(),
            old(self)@.trees.contains_key(lod_id),
            page_base + count <= u32::MAX,
            4 * count <= data@.len(),
            2 * old(self)@.splats(lod_id).len() <= usize::MAX,
        ensures
            final(self).wf(),
            final(self)@ == old(self)@.with_data(
                lod_id,
                page_base as int,
                count as int,
                data@,
            ),
            final(self).scratch == old(self).scratch,
            final(self).cut == old(self).cut,
    {
        let slot: usize = self.slot_of(lod_id);
        let store: usize = self.trees[slot].store;
        proof {
            assert(self@.splats(lod_id) == self.stores@[store as int]@);
        }
        Self::write_nodes(&mut self.stores[store], page_base, count, data);
        proof {
            let after = old(self)@.with_data(lod_id, page_base as int, count as int, data@);
            assert(self@.trees =~= after.trees);
            assert(self@.stores =~= after.stores);
            assert(self@ =~= after);
        }
    }

    /// A new tree whose nodes are given and all resident, chunk by chunk in order.
    pub fn init_lod_tree(&mut self, num_splats: u32, lod_tree: &[u32]) -> (id: u32)
        requires
            old(self).wf(),
            old(self).next_id < u32::MAX,
            4 * num_splats <= lod_tree@.len(),
        ensures
            final(self).wf(),
            id == old(self).next_id,
            ({
                let table = Seq::new(pages_for(num_splats as int) as nat, |i: int| i as u32);
                final(self)@ == old(self)@.with_new_tree().with_tables(id, table, table).with_data(
                    id,
                    0,
                    num_splats as int,
                    lod_tree@,
                )
            }),
            final(self).scratch == old(self).scratch,
            final(self).cut == old(self).cut,
    {
        let pages: u32 = ((num_splats as u64 + 0xffff) / 0x1_0000) as u32;
        let ghost table = Seq::new(pages as nat, |i: int| i as u32);
        let mut page_to_chunk: Vec<u32> = Vec::new();
        let mut chunk_to_page: Vec<u32> = Vec::new();
        let mut i: u32 = 0;
        while i < pages
            invariant
                i <= pages,
                page_to_chunk@ == Seq::new(i as nat, |k: int| k as u32),
                chunk_to_page@ == Seq::new(i as nat, |k: int| k as u32),
            decreases pages - i,
        {
            page_to_chunk.push(i);
            chunk_to_page.push(i);
            i += 1;
            proof {
                assert(page_to_chunk@ =~= Seq::new(i as nat, |k: int| k as u32));
                assert(chunk_to_page@ =~= Seq::new(i as nat, |k: int| k as u32));
            }
        }
        let store: usize = self.stores.len();
        self.stores.push(Vec::with_capacity(num_splats as usize));
        let ghost mid = self@;
        proof {
            assert(mid =~= Holdings {
                stores: old(self)@.stores.push(Seq::empty()),
                ..old(self)@
            });
        }
        let id: u32 = self.add_tree(LodTree { store, page_to_chunk, chunk_to_page });
        proof {
            assert(page_to_chunk@ =~= table);
            assert(chunk_to_page@ =~= table);
            assert(self@ =~= old(self)@.with_new_tree().with_tables(id, table, table)) by {
                assert(self@.trees =~= old(self)@.with_new_tree().with_tables(
                    id,
                    table,
                    table,
                ).trees);
            }
        }
        self.set_lod_tree_data(id, 0, num_splats, lod_tree);
        id
    }

    /// Makes a page table at least `n` long.
    fn extend_table(table: &mut Vec<u32>, n: usize)
        ensures
            final(table)@ == padded(old(table)@, n as int, NOT_RESIDENT),
    {
        let len: usize = table.len();
        while table.len() < n
            invariant
                len == old(table)@.len(),
                len <= table@.len(),
                table@.len() <= n || table@.len() == len,
                forall|i: int| 0 <= i < len ==> #[trigger] table@[i] == old(table)@[i],
                forall|i: int| len <= i < table@.len() ==> #[trigger] table@[i] == NOT_RESIDENT,
            decreases n - table@.len(),
        {
            table.push(NOT_RESIDENT);
        }
        proof {
            assert(table@ =~= padded(old(table)@, n as int, NOT_RESIDENT));
        }
    }

    /// Marks `n` entries from `base` on as not resident.
    fn vacate(table: &mut Vec<u32>, base: usize, n: usize)
        requires
            base + n <= old(table)@.len(),
        ensures
            final(table)@ == vacated(old(table)@, base as int, n as int),
    {
        let len: usize = table.len();
        let mut i: usize = 0;
        proof {
            assert(table@ =~= vacated(old(table)@, base as int, 0));
        }
        while i < n
            invariant
                i <= n,
                base + n <= len,
                len == table@.len(),
                table@ == vacated(old(table)@, base as int, i as int),
            decreases n - i,
        {
            table.set(base + i, NOT_RESIDENT);
            i += 1;
            proof {
                assert(table@ =~= vacated(old(table)@, base as int, i as int));
            }
        }
    }

    /// Counts `n` entries from `base` on up from `value`.
    fn count_up(table: &mut Vec<u32>, base: usize, n: usize, value: u32)
        requires
            base + n <= old(table)@.len(),
            value + n <= u32::MAX,
        ensures
            final(table)@ == counting(old(table)@, base as int, n as int, value as int),
    {
        let len: usize = table.len();
        let mut i: usize = 0;
        proof {
            assert(table@ =~= counting(old(table)@, base as int, 0, value as int));
        }
        while i < n
            invariant
                i <= n,
                base + n <= len,
                len == table@.len(),
                value + n <= u32::MAX,
                table@ == counting(old(table)@, base as int, i as int, value as int),
            decreases n - i,
        {
            table.set(base + i, value + i as u32);
            i += 1;
            proof {
                assert(table@ =~= counting(old(table)@, base as int, i as int, value as int));
            }
        }
    }

    /// Brings the page table of a tree up to date: `count` nodes from `page_base` on now hold the
    /// chunk at `chunk_base`, or, without data, nothing.
    fn update_tables(
        tree: &mut LodTree,
        page_base: u32,
        chunk_base: u32,
        count: u32,
        filled: bool,
    )
        ensures
            final(tree).store == old(tree).store,
            ({
                let n = pages_for(count as int);
                let page = page_base as int / 0x1_0000;
                let chunk = chunk_base as int / 0x1_0000;
                let pages = padded(old(tree).page_to_chunk@, page + n, NOT_RESIDENT);
                let chunks = padded(old(tree).chunk_to_page@, chunk + n, NOT_RESIDENT);
                &&& filled ==> final(tree).page_to_chunk@ == counting(pages, page, n, chunk)
                &&& filled ==> final(tree).chunk_to_page@ == counting(chunks, chunk, n, page)
                &&& !filled ==> final(tree).page_to_chunk@ == vacated(pages, page, n)
                &&& !filled ==> final(tree).chunk_to_page@ == vacated(chunks, chunk, n)
            }),
    {
        let pages: usize = ((count as u64 + 0xffff) / 0x1_0000) as usize;
        let base_page: u32 = page_base / 0x1_0000;
        let base_chunk: u32 = chunk_base / 0x1_0000;
        Self::extend_table(&mut tree.page_to_chunk, base_page as usize + pages);
        Self::extend_table(&mut tree.chunk_to_page, base_chunk as usize + pages);
        if filled {
            Self::count_up(&mut tree.page_to_chunk, base_page as usize, pages, base_chunk);
            Self::count_up(&mut tree.chunk_to_page, base_chunk as usize, pages, base_page);
        } else {
            Self::vacate(&mut tree.page_to_chunk, base_page as usize, pages);
            Self::vacate(&mut tree.chunk_to_page, base_chunk as usize, pages);
        }
    }

    /// Fills some pages of a tree with a chunk, or gives them up.
    fn update_pages(
        &mut self,
        lod_id: u32,
        page_base: u32,
        chunk_base: u32,
        count: u32,
        data: &Option<Vec<u32>>,
    )
        requires
            old(self).wf(),
            old(self)@.trees.contains_key(lod_id),
            data is Some ==> page_base + count <= u32::MAX,
            data matches Some(words) ==> 4 * count <= words@.len(),
            data is Some ==> 2 * old(self)@.splats(lod_id).len() <= usize::MAX,
        ensures
            final(self).wf(),
            final(self)@ == old(self)@.with_pages(
                lod_id,
                page_base,
                chunk_base,
                count,
                data_view(*data),
            ),
            final(self).scratch == old(self).scratch,
            final(self).cut == old(self).cut,
    {
        let slot: usize = self.slot_of(lod_id);
        Self::update_tables(&mut self.trees[slot], page_base, chunk_base, count, data.is_some());
        let ghost pages = self.trees@[slot as int].page_to_chunk@;
        let ghost chunks = self.trees@[slot as int].chunk_to_page@;
        proof {
            let after = old(self)@.with_tables(lod_id, pages, chunks);
            assert(self@.trees =~= after.trees) by {
                assert forall|id: u32| #[trigger] self@.trees.contains_key(id) implies self@.trees[id]
                    == after.trees[id] by {
                    assert(words(self.slots).contains_key(id));
                    assert(words(self.slots).contains_key(lod_id));
                }
            }
            assert(self@.stores =~= after.stores);
            assert(self@ =~= after);
        }
        match data {
            Some(words) => {
                self.set_lod_tree_data(lod_id, page_base, count, words.as_slice());
            },
            None => {},
        }
    }
}

/// The data that came with an update, if any.
pub open spec fn data_view(data: Option<Vec<u32>>) -> Option<Seq<u32>> {
    match data {
        Some(words) => Some(words@),
        None => None,
    }
}

/// A list of page updates, in parallel columns; what goes beyond the shortest does not count.
pub struct Updates {
    pub lod_ids: Seq<u32>,
    pub page_bases: Seq<u32>,
    pub chunk_bases: Seq<u32>,
    pub counts: Seq<u32>,
    pub data: Seq<Option<Vec<u32>>>,
}

impl Updates {
    pub open spec fn wide(self, k: int) -> bool {
        &&& k < self.lod_ids.len()
        &&& k < self.page_bases.len()
        &&& k < self.chunk_bases.len()
        &&& k < self.counts.len()
        &&& k < self.data.len()
    }

    /// What the first `n` updates make of the holdings.
    pub open spec fn applied(self, h: Holdings, n: int) -> Holdings
        decreases n,
    {
        if n <= 0 {
            h
        } else {
            self.applied(h, n - 1).with_pages(
                self.lod_ids[n - 1],
                self.page_bases[n - 1],
                self.chunk_bases[n - 1],
                self.counts[n - 1],
                data_view(self.data[n - 1]),
            )
        }
    }

    /// The chunks that update `k` is about.
    pub open spec fn chunks(self, k: int) -> Seq<(u32, u32)> {
        Seq::new(
            pages_for(self.counts[k] as int) as nat,
            |p: int| (self.lod_ids[k], (self.chunk_bases[k] as int / 0x1_0000 + p) as u32),
        )
    }

    /// The chunks that the first `n` updates fill pages with, or, for `false`, take out of them.
    pub open spec fn moved(self, n: int, filled: bool) -> Seq<(u32, u32)>
        decreases n,
    {
        if n <= 0 {
            Seq::empty()
        } else if (self.data[n - 1] is Some) == filled {
            self.moved(n - 1, filled) + self.chunks(n - 1)
        } else {
            self.moved(n - 1, filled)
        }
    }

    /// Update `k` is about a tree that is there, and its data, if any, has enough words.
    pub open spec fn sound(self, h: Holdings, k: int) -> bool {
        &&& h.trees.contains_key(self.lod_ids[k])
        &&& self.data[k] matches Some(words) ==> {
            &&& self.page_bases[k] + self.counts[k] <= u32::MAX
            &&& 4 * self.counts[k] <= words@.len()
            &&& 2 * self.applied(h, k).splats(self.lod_ids[k]).len() <= usize::MAX
        }
    }

    /// No update makes a tree appear or disappear.
    proof fn lemma_same_trees(self, h: Holdings, n: int)
        requires
            forall|k: int| 0 <= k < n ==> h.trees.contains_key(#[trigger] self.lod_ids[k]),
        ensures
            self.applied(h, n).trees.dom() == h.trees.dom(),
        decreases n,
    {
        if n > 0 {
            self.lemma_same_trees(h, n - 1);
            assert(h.trees.contains_key(self.lod_ids[n - 1]));
            assert(self.applied(h, n).trees.dom() =~= h.trees.dom());
        }
    }
}

/// The columns of a list of updates.
pub open spec fn updates(
    lod_ids: Seq<u32>,
    page_bases: Seq<u32>,
    chunk_bases: Seq<u32>,
    counts: Seq<u32>,
    data: Seq<Option<Vec<u32>>>,
) -> Updates {
    Updates { lod_ids, page_bases, chunk_bases, counts, data }
}

impl LodState {
    /// Lists the chunks that an update is about.
    fn list_chunks(list: &mut Vec<(u32, u32)>, lod_id: u32, chunk_base: u32, count: u32)
        ensures
            final(list)@ == old(list)@ + Seq::new(
                pages_for(count as int) as nat,
                |p: int| (lod_id, (chunk_base as int / 0x1_0000 + p) as u32),
            ),
    {
        let pages: u32 = ((count as u64 + 0xffff) / 0x1_0000) as u32;
        let base_chunk: u32 = chunk_base / 0x1_0000;
        let ghost f = |p: int| (lod_id, (chunk_base as int / 0x1_0000 + p) as u32);
        let mut p: u32 = 0;
        proof {
            assert(list@ =~= old(list)@ + Seq::new(0nat, f));
        }
        while p < pages
            invariant
                p <= pages,
                pages <= 0x1_0000,
                base_chunk == chunk_base / 0x1_0000,
                f == (|p: int| (lod_id, (chunk_base as int / 0x1_0000 + p) as u32)),
                list@ == old(list)@ + Seq::new(p as nat, f),
            decreases pages - p,
        {
            list.push((lod_id, base_chunk + p));
            p += 1;
            proof {
                assert(list@ =~= old(list)@ + Seq::new(p as nat, f));
            }
        }
        proof {
            assert(Seq::new(p as nat, f) =~= Seq::new(pages_for(count as int) as nat, f));
        }
    }

    /// Tells the cut of every chunk that has lost its page.
    fn note_released(&mut self, released: &Vec<(u32, u32)>)
        requires
            old(self).wf(),
            old(self).cut.generation < u64::MAX,
        ensures
            final(self).wf(),
            final(self)@ == old(self)@,
            final(self).scratch == old(self).scratch,
            final(self).cut == (IncrementalCut {
                packed_generation: if old(self).cut.loses(released@) {
                    u64::MAX
                } else {
                    old(self).cut.packed_generation
                },
                ..old(self).cut
            }),
    {
        let mut i: usize = 0;
        while i < released.len()
            invariant
                i <= released@.len(),
                self.wf(),
                self.cut.generation < u64::MAX,
                self@ == old(self)@,
                self.scratch == old(self).scratch,
                self.cut == (IncrementalCut {
                    packed_generation: if old(self).cut.loses(released@.take(i as int)) {
                        u64::MAX
                    } else {
                        old(self).cut.packed_generation
                    },
                    ..old(self).cut
                }),
            decreases released@.len() - i,
        {
            let (lod_id, chunk) = released[i];
            proof {
                let less = released@.take(i as int);
                let more = released@.take(i + 1);
                assert(self.cut.refers_to(lod_id, chunk) == old(self).cut.refers_to(
                    lod_id,
                    chunk,
                ));
                assert(old(self).cut.loses(more) == (old(self).cut.loses(less) || old(
                    self).cut.refers_to(lod_id, chunk))) by {
                    if old(self).cut.loses(less) {
                        let k = choose|k: int|
                            0 <= k < less.len() && old(self).cut.refers_to(
                                (#[trigger] less[k]).0,
                                less[k].1,
                            );
                        assert(more[k] == less[k]);
                    }
                    if old(self).cut.refers_to(lod_id, chunk) {
                        assert(more[i as int] == (lod_id, chunk));
                    }
                    if old(self).cut.loses(more) {
                        let k = choose|k: int|
                            0 <= k < more.len() && old(self).cut.refers_to(
                                (#[trigger] more[k]).0,
                                more[k].1,
                            );
                        if k < i {
                            assert(less[k] == more[k]);
                        }
                    }
                }
            }
            self.cut.note_chunk_released(lod_id, chunk);
            i += 1;
        }
        proof {
            assert(released@.take(i as int) =~= released@);
        }
    }

    /// Applies page updates, in order: each fills some pages of a tree with a chunk and its
    /// nodes, or, without data, gives them up. If the cut refers to a chunk that has lost its
    /// page, it has to be packed again. Returns the chunks that pages were filled with.
    pub fn update_lod_trees(
        &mut self,
        lod_ids: &[u32],
        page_bases: &[u32],
        chunk_bases: &[u32],
        counts: &[u32],
        lod_trees: &[Option<Vec<u32>>],
    ) -> (resident: Vec<(u32, u32)>)
        requires
            old(self).wf(),
            old(self).cut.generation < u64::MAX,
            ({
                let u = updates(lod_ids@, page_bases@, chunk_bases@, counts@, lod_trees@);
                forall|k: int|
                    #![trigger u.lod_ids[k]]
                    0 <= k && u.wide(k) ==> u.sound(old(self)@, k)
            }),
        ensures
            final(self).wf(),
            final(self).scratch == old(self).scratch,
            ({
                let u = updates(lod_ids@, page_bases@, chunk_bases@, counts@, lod_trees@);
                exists|n: int|
                    {
                        &&& 0 <= n
                        &&& !u.wide(n)
                        &&& n > 0 ==> u.wide(n - 1)
                        &&& final(self)@ == #[trigger] u.applied(old(self)@, n)
                        &&& resident@ == u.moved(n, true)
                        &&& old(self).cut.notes_releases(final(self).cut, u.moved(n, false))
                    }
            }),
    {
        let ghost u = updates(lod_ids@, page_bases@, chunk_bases@, counts@, lod_trees@);
        let ghost start = self@;
        let mut released: Vec<(u32, u32)> = Vec::new();
        let mut resident: Vec<(u32, u32)> = Vec::new();
        let mut k: usize = 0;
        while k < lod_ids.len() && k < page_bases.len() && k < chunk_bases.len() && k
            < counts.len() && k < lod_trees.len()
            invariant
                u == updates(lod_ids@, page_bases@, chunk_bases@, counts@, lod_trees@),
                k > 0 ==> u.wide(k - 1),
                forall|k: int|
                    #![trigger u.lod_ids[k]]
                    0 <= k && u.wide(k) ==> u.sound(start, k),
                self.wf(),
                self.scratch == old(self).scratch,
                self.cut == old(self).cut,
                self@ == u.applied(start, k as int),
                released@ == u.moved(k as int, false),
                resident@ == u.moved(k as int, true),
            decreases lod_ids@.len() - k,
        {
            let lod_id: u32 = lod_ids[k];
            proof {
                assert(u.wide(k as int));
                assert(u.lod_ids[k as int] == lod_id);
                assert(u.sound(start, k as int));
                assert forall|j: int| 0 <= j < k implies start.trees.contains_key(
                    #[trigger] u.lod_ids[j],
                ) by {
                    assert(u.wide(j));
                    assert(u.sound(start, j));
                }
                u.lemma_same_trees(start, k as int);
            }
            self.update_pages(lod_id, page_bases[k], chunk_bases[k], counts[k], &lod_trees[k]);
            if lod_trees[k].is_some() {
                Self::list_chunks(&mut resident, lod_id, chunk_bases[k], counts[k]);
            } else {
                Self::list_chunks(&mut released, lod_id, chunk_bases[k], counts[k]);
            }
            k += 1;
        }
        self.note_released(&released);
        proof {
            assert(self@ == u.applied(start, k as int));
        }
        resident
    }
}

} // verus!
