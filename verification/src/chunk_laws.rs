//! What the list of chunks holds that an incremental cut asks for, and in what order.

use ahash::AHashMap;
use vstd::multiset::Multiset;
use vstd::prelude::*;
use vstd::seq_lib::group_to_multiset_ensures;

use crate::cut::{refs_at, refs_match, IncrementalCut};
use crate::cut_chunks::{
    goes_before, is_fresh, is_needed, is_wanted, law_scales_without_nan_are_orderly, needed_by,
    needed_of, orderly, with_wanted, Want,
};
use crate::cut_model::{in_chunk, lies_in, overlap, IndexNode};
use crate::hash::{wants, words};
use crate::scale_laws::{height, is_number};

verus! {

/// The pair that a wanted chunk is asked for by.
pub open spec fn asked_pair(lod_ids: Seq<u32>, w: Want) -> (u32, u32) {
    (lod_ids[w.0.0 as int], w.0.1)
}

/// `a` was wanted for a larger scale than `b`, or for the same one and has the smaller instance,
/// or the same one and the smaller chunk.
pub open spec fn ahead(a: Want, b: Want) -> bool {
    ||| height(a.1.0) > height(b.1.0)
    ||| height(a.1.0) == height(b.1.0) && a.0.0 < b.0.0
    ||| height(a.1.0) == height(b.1.0) && a.0.0 == b.0.0 && a.0.1 < b.0.1
}

/// A node of the list is one of instance `inst`, and lies in chunk `c` of its tree.
pub open spec fn some_in_chunk(list: Seq<IndexNode>, inst: int, c: int) -> bool {
    exists|k: int|
        0 <= k < list.len() && (#[trigger] list[k]).0 == inst && list[k].1 as int / 65536 == c
}

/// Counting the nodes of a list in a chunk: as many as there are, one by one.
pub proof fn law_nodes_are_counted_one_by_one(
    list: Seq<IndexNode>,
    x: IndexNode,
    inst: u8,
    c: int,
)
    ensures
        in_chunk(Multiset::empty(), inst, c) == 0,
        in_chunk(list.push(x).to_multiset(), inst, c) == in_chunk(list.to_multiset(), inst, c) + (
        if x.0 == inst && x.1 as int / 65536 == c {
            1int
        } else {
            0
        }),
{
    let p = lies_in(inst, c);
    let m = list.to_multiset();
    assert(Multiset::<IndexNode>::empty().filter(p) =~= Multiset::empty());
    vstd::seq_lib::to_multiset_build(list, x);
    if x.0 == inst && x.1 as int / 65536 == c {
        assert(m.insert(x).filter(p) =~= m.filter(p).insert(x));
    } else {
        assert(m.insert(x).filter(p) =~= m.filter(p));
    }
}

/// How many numbers of a run lie in a chunk, number by number.
pub proof fn law_run_is_counted_number_by_number(start: int, end: int, c: int)
    requires
        0 <= start <= end,
        0 <= c,
    ensures
        overlap(start, start, c) == 0,
        overlap(start, end + 1, c) == overlap(start, end, c) + (if end / 65536 == c {
            1int
        } else {
            0
        }),
{
}

/// A chunk counts if a node of the list lies in it.
pub proof fn law_counted_chunks_hold_a_node(list: Seq<IndexNode>, inst: u8, c: int)
    ensures
        in_chunk(list.to_multiset(), inst, c) > 0 <==> some_in_chunk(list, inst as int, c),
    decreases list.len(),
{
    broadcast use group_to_multiset_ensures;

    if list.len() == 0 {
        assert(list.to_multiset().len() == 0);
        assert(list.to_multiset() =~= Multiset::empty());
        law_nodes_are_counted_one_by_one(list, (0u8, 0u32), inst, c);
    } else {
        let rest = list.drop_last();
        let x = list.last();
        law_counted_chunks_hold_a_node(rest, inst, c);
        law_nodes_are_counted_one_by_one(rest, x, inst, c);
        assert(rest.push(x) =~= list);
        if some_in_chunk(rest, inst as int, c) {
            let k = choose|k: int|
                0 <= k < rest.len() && (#[trigger] rest[k]).0 == inst && rest[k].1 as int / 65536
                    == c;
            assert(list[k] == rest[k]);
        }
        if some_in_chunk(list, inst as int, c) {
            let k = choose|k: int|
                0 <= k < list.len() && (#[trigger] list[k]).0 == inst && list[k].1 as int / 65536
                    == c;
            if k < rest.len() {
                assert(rest[k] == list[k]);
            }
        }
        assert(list[list.len() - 1] == x);
    }
}

/// Which of the first `n` wanted chunks are put behind a list, by their places.
pub open spec fn picks(
    list: Seq<(u32, u32)>,
    lod_ids: Seq<u32>,
    ws: Seq<Want>,
    n: int,
) -> Seq<int>
    decreases n,
{
    if n <= 0 {
        Seq::empty()
    } else if with_wanted(list, lod_ids, ws, n - 1).contains(asked_pair(lod_ids, ws[n - 1])) {
        picks(list, lod_ids, ws, n - 1)
    } else {
        picks(list, lod_ids, ws, n - 1).push(n - 1)
    }
}

proof fn lemma_picks(list: Seq<(u32, u32)>, lod_ids: Seq<u32>, ws: Seq<Want>, n: int)
    requires
        0 <= n <= ws.len(),
    ensures
        ({
            let all = with_wanted(list, lod_ids, ws, n);
            let ps = picks(list, lod_ids, ws, n);
            &&& all.len() == list.len() + ps.len()
            &&& forall|i: int| 0 <= i < list.len() ==> #[trigger] all[i] == list[i]
            &&& forall|j: int|
                0 <= j < ps.len() ==> 0 <= #[trigger] ps[j] < n && all[list.len() + j]
                    == asked_pair(lod_ids, ws[ps[j]])
            &&& forall|i: int, j: int|
                0 <= i < j < ps.len() ==> (#[trigger] ps[i]) < (#[trigger] ps[j])
            &&& forall|i: int, j: int|
                0 <= i < j < all.len() && list.len() <= j ==> (#[trigger] all[i])
                    != #[trigger] all[j]
            &&& forall|k: int|
                0 <= k < n ==> all.contains(asked_pair(lod_ids, #[trigger] ws[k]))
            &&& forall|k: int, j: int|
                0 <= k < n && 0 <= j < ps.len() && asked_pair(lod_ids, #[trigger] ws[k])
                    == asked_pair(lod_ids, ws[#[trigger] ps[j]]) ==> ps[j] <= k
        }),
    decreases n,
{
    if n > 0 {
        lemma_picks(list, lod_ids, ws, n - 1);
        let less = with_wanted(list, lod_ids, ws, n - 1);
        let ps = picks(list, lod_ids, ws, n - 1);
        let key = asked_pair(lod_ids, ws[n - 1]);
        let all = with_wanted(list, lod_ids, ws, n);
        let qs = picks(list, lod_ids, ws, n);
        if less.contains(key) {
            assert(all == less);
            assert(qs == ps);
        } else {
            assert(all == less.push(key));
            assert(qs == ps.push(n - 1));
            assert(all[less.len() as int] == key);
            assert forall|k: int| 0 <= k < n implies all.contains(
                asked_pair(lod_ids, #[trigger] ws[k]),
            ) by {
                if k < n - 1 {
                    let key2 = asked_pair(lod_ids, ws[k]);
                    let i = choose|i: int| 0 <= i < less.len() && less[i] == key2;
                    assert(all[i] == key2);
                }
            }
            assert forall|i: int, j: int|
                0 <= i < j < all.len() && list.len() <= j implies (#[trigger] all[i])
                != #[trigger] all[j] by {
                if j == less.len() {
                    assert(less.contains(less[i]));
                } else {
                    assert(all[i] == less[i]);
                    assert(all[j] == less[j]);
                }
            }
            assert forall|k: int, j: int|
                0 <= k < n && 0 <= j < qs.len() && asked_pair(lod_ids, #[trigger] ws[k])
                    == asked_pair(lod_ids, ws[#[trigger] qs[j]]) implies qs[j] <= k by {
                if k < n - 1 {
                    assert(less.contains(asked_pair(lod_ids, ws[k])));
                    if j < ps.len() {
                        assert(qs[j] == ps[j]);
                    }
                }
            }
        }
    }
}

/// The needed chunks of the first `n` instances, each with its instance.
pub open spec fn needed_keys(refs: Seq<AHashMap<u32, u32>>, n: int) -> Seq<(int, u32)>
    decreases n,
{
    if n <= 0 {
        Seq::empty()
    } else {
        needed_keys(refs, n - 1) + Seq::new(
            needed_of(words(refs[n - 1])).len(),
            |k: int| (n - 1, needed_of(words(refs[n - 1]))[k]),
        )
    }
}

proof fn lemma_needed_keys(lod_ids: Seq<u32>, refs: Seq<AHashMap<u32, u32>>, n: int)
    requires
        0 <= n <= lod_ids.len(),
        n <= refs.len(),
        forall|i: int|
            0 <= i < n ==> is_needed(needed_of(words(#[trigger] refs[i])), words(refs[i])),
    ensures
        ({
            let keys = needed_keys(refs, n);
            let list = needed_by(lod_ids, refs, n);
            &&& list.len() == keys.len()
            &&& forall|j: int|
                0 <= j < keys.len() ==> 0 <= (#[trigger] keys[j]).0 < n && list[j] == (
                    lod_ids[keys[j].0],
                    keys[j].1,
                )
            &&& forall|i: int, j: int|
                0 <= i < j < keys.len() ==> {
                    ||| (#[trigger] keys[i]).0 < (#[trigger] keys[j]).0
                    ||| keys[i].0 == keys[j].0 && keys[i].1 < keys[j].1
                }
            &&& forall|i: int, c: u32| #[trigger]
                keys.contains((i, c)) <==> 0 <= i < n && c != 0 && refs_at(words(refs[i]), c) > 0
        }),
    decreases n,
{
    if n > 0 {
        lemma_needed_keys(lod_ids, refs, n - 1);
        let less = needed_keys(refs, n - 1);
        let keys = needed_keys(refs, n);
        let own = needed_of(words(refs[n - 1]));
        let list = needed_by(lod_ids, refs, n);
        let pairs = own.map_values(|c: u32| (lod_ids[n - 1], c));
        assert(is_needed(own, words(refs[n - 1])));
        assert(list == needed_by(lod_ids, refs, n - 1) + pairs);
        assert forall|j: int| 0 <= j < keys.len() implies 0 <= (#[trigger] keys[j]).0 < n
            && list[j] == (lod_ids[keys[j].0], keys[j].1) by {
            if j < less.len() {
                assert(keys[j] == less[j]);
            } else {
                assert(pairs[j - less.len()] == (lod_ids[n - 1], own[j - less.len()]));
            }
        }
        assert forall|i: int, j: int| 0 <= i < j < keys.len() implies {
            ||| (#[trigger] keys[i]).0 < (#[trigger] keys[j]).0
            ||| keys[i].0 == keys[j].0 && keys[i].1 < keys[j].1
        } by {
            if i < less.len() {
                assert(keys[i] == less[i]);
                if j < less.len() {
                    assert(keys[j] == less[j]);
                }
            } else {
                assert(own[i - less.len()] < own[j - less.len()]);
            }
        }
        assert forall|i: int, c: u32| #[trigger]
            keys.contains((i, c)) <==> 0 <= i < n && c != 0 && refs_at(words(refs[i]), c) > 0 by {
            if keys.contains((i, c)) {
                let j = choose|j: int| 0 <= j < keys.len() && keys[j] == (i, c);
                if j < less.len() {
                    assert(less[j] == (i, c));
                    assert(less.contains((i, c)));
                } else {
                    assert(own[j - less.len()] == c);
                    assert(own.contains(c));
                }
            }
            if 0 <= i < n && c != 0 && refs_at(words(refs[i]), c) > 0 {
                if i < n - 1 {
                    assert(less.contains((i, c)));
                    let j = choose|j: int| 0 <= j < less.len() && less[j] == (i, c);
                    assert(keys[j] == (i, c));
                } else {
                    assert(own.contains(c));
                    let j = choose|j: int| 0 <= j < own.len() && own[j] == c;
                    assert(keys[less.len() + j] == (i, c));
                }
            }
        }
    }
}

impl IncrementalCut {
    /// How many chunks are listed before those that are only wanted.
    pub open spec fn firsts(&self) -> int {
        (self.root_chunks() + self.needed_chunks()).len() as int
    }

    proof fn lemma_asked(&self, list: Seq<(u32, u32)>) -> (ws: Seq<Want>)
        requires
            self.asks_for(list),
        ensures
            is_wanted(ws, wants(self.wanted), self.last_fresh_pass()),
            list == with_wanted(
                self.root_chunks() + self.needed_chunks(),
                self.lod_ids@,
                ws,
                ws.len() as int,
            ),
    {
        choose|ws: Seq<Want>|
            {
                &&& #[trigger] is_wanted(ws, wants(self.wanted), self.last_fresh_pass())
                &&& list == with_wanted(
                    self.root_chunks() + self.needed_chunks(),
                    self.lod_ids@,
                    ws,
                    ws.len() as int,
                )
            }
    }

    /// Every chunk that was wanted in this pass or the one before is asked for, under the id of
    /// its own instance's tree: also where another tree's chunk of the same number is asked for.
    pub proof fn law_every_fresh_wanted_chunk_is_asked_for(
        &self,
        list: Seq<(u32, u32)>,
        inst: u8,
        chunk: u32,
    )
        requires
            self.asks_for(list),
            wants(self.wanted).contains_key((inst, chunk)),
            wants(self.wanted)[(inst, chunk)].1 + 1 >= self.passes,
        ensures
            list.contains((self.lod_ids@[inst as int], chunk)),
    {
        let ws = self.lemma_asked(list);
        let first = self.root_chunks() + self.needed_chunks();
        let w = ((inst, chunk), wants(self.wanted)[(inst, chunk)]);
        assert(is_fresh(wants(self.wanted), self.last_fresh_pass(), w));
        assert(ws.contains(w));
        let k = choose|k: int| 0 <= k < ws.len() && ws[k] == w;
        lemma_picks(first, self.lod_ids@, ws, ws.len() as int);
        assert(list.contains(asked_pair(self.lod_ids@, ws[k])));
    }

    /// Behind the chunks of the roots and the needed ones nothing is listed but chunks that were
    /// wanted in this pass or the one before, and none that is listed earlier already.
    pub proof fn law_only_fresh_wanted_chunks_are_added(&self, list: Seq<(u32, u32)>, j: int)
        requires
            self.asks_for(list),
            self.firsts() <= j < list.len(),
        ensures
            exists|inst: u8, chunk: u32|
                {
                    &&& #[trigger] wants(self.wanted).contains_key((inst, chunk))
                    &&& wants(self.wanted)[(inst, chunk)].1 + 1 >= self.passes
                    &&& list[j] == (self.lod_ids@[inst as int], chunk)
                },
            !list.take(j).contains(list[j]),
    {
        let ws = self.lemma_asked(list);
        let first = self.root_chunks() + self.needed_chunks();
        lemma_picks(first, self.lod_ids@, ws, ws.len() as int);
        let ps = picks(first, self.lod_ids@, ws, ws.len() as int);
        let at = ps[j - first.len()];
        let w = ws[at];
        assert(list[first.len() + (j - first.len())] == asked_pair(self.lod_ids@, w));
        assert(ws.contains(w));
        assert(is_fresh(wants(self.wanted), self.last_fresh_pass(), w));
        assert(wants(self.wanted).contains_key((w.0.0, w.0.1)));
        if list.take(j).contains(list[j]) {
            let i = choose|i: int| 0 <= i < list.take(j).len() && list.take(j)[i] == list[j];
            assert(list[i] != list[j]);
        }
    }

    /// What is wanted for a larger scale is listed first: of two listed chunks, some want of the
    /// first is ahead of every want of the second.
    pub proof fn law_wanted_chunks_are_listed_by_scale(
        &self,
        list: Seq<(u32, u32)>,
        i: int,
        j: int,
        b: Want,
    ) -> (a: Want)
        requires
            self.asks_for(list),
            self.firsts() <= i < j < list.len(),
            forall|k: (u8, u32)| #[trigger]
                wants(self.wanted).contains_key(k) ==> is_number(wants(self.wanted)[k].0),
            wants(self.wanted).contains_key(b.0),
            wants(self.wanted)[b.0] == b.1,
            b.1.1 + 1 >= self.passes,
            list[j] == (self.lod_ids@[b.0.0 as int], b.0.1),
        ensures
            wants(self.wanted).contains_key(a.0),
            wants(self.wanted)[a.0] == a.1,
            a.1.1 + 1 >= self.passes,
            list[i] == (self.lod_ids@[a.0.0 as int], a.0.1),
            ahead(a, b),
    {
        let ws = self.lemma_asked(list);
        let m = wants(self.wanted);
        let since = self.last_fresh_pass();
        let first = self.root_chunks() + self.needed_chunks();
        law_scales_without_nan_are_orderly(m, since);
        assert(orderly(m, since));
        lemma_picks(first, self.lod_ids@, ws, ws.len() as int);
        let ps = picks(first, self.lod_ids@, ws, ws.len() as int);
        let n = first.len() as int;
        assert(list[n + (i - n)] == asked_pair(self.lod_ids@, ws[ps[i - n]]));
        assert(list[n + (j - n)] == asked_pair(self.lod_ids@, ws[ps[j - n]]));
        assert(ps[i - n] < ps[j - n]);
        let a = ws[ps[i - n]];
        assert(ws.contains(a));
        assert(is_fresh(m, since, a));
        assert(is_fresh(m, since, b));
        assert(ws.contains(b));
        let k = choose|k: int| 0 <= k < ws.len() && ws[k] == b;
        assert(asked_pair(self.lod_ids@, ws[k]) == asked_pair(self.lod_ids@, ws[ps[j - n]]));
        assert(ps[j - n] <= k);
        assert(goes_before(ws[ps[i - n]], ws[k]));
        assert(is_number(m[a.0].0));
        assert(is_number(m[b.0].0));
        a
    }

    /// The list starts with chunk 0 of each instance's tree, in order.
    pub proof fn law_root_chunks_come_first(&self, list: Seq<(u32, u32)>, i: int)
        requires
            self.asks_for(list),
            0 <= i < self.lod_ids@.len(),
        ensures
            self.root_chunks().len() == self.lod_ids@.len(),
            i < list.len(),
            list[i] == (self.lod_ids@[i], 0u32),
    {
        let ws = self.lemma_asked(list);
        let first = self.root_chunks() + self.needed_chunks();
        lemma_picks(first, self.lod_ids@, ws, ws.len() as int);
        assert(first[i] == self.root_chunks()[i]);
    }

    /// Behind the roots' chunks come the other chunks that nodes of the cut lie in: each of them,
    /// and no others, instance by instance and for each instance in ascending order.
    pub proof fn law_chunks_of_the_cut_come_next(&self, list: Seq<(u32, u32)>) -> (keys: Seq<
        (int, u32),
    >)
        requires
            self.wf(),
            self.asks_for(list),
        ensures
            keys.len() == self.needed_chunks().len(),
            self.firsts() == self.lod_ids@.len() + keys.len(),
            self.firsts() <= list.len(),
            forall|j: int|
                0 <= j < keys.len() ==> list[self.lod_ids@.len() + j] == (
                    self.lod_ids@[(#[trigger] keys[j]).0],
                    keys[j].1,
                ),
            forall|i: int, j: int|
                0 <= i < j < keys.len() ==> {
                    ||| (#[trigger] keys[i]).0 < (#[trigger] keys[j]).0
                    ||| keys[i].0 == keys[j].0 && keys[i].1 < keys[j].1
                },
            forall|inst: int, c: u32| #[trigger]
                keys.contains((inst, c)) <==> {
                    &&& 0 <= inst < self.lod_ids@.len()
                    &&& c != 0
                    &&& some_in_chunk(self.list(), inst, c as int)
                },
    {
        let ws = self.lemma_asked(list);
        let first = self.root_chunks() + self.needed_chunks();
        let n = self.lod_ids@.len() as int;
        lemma_picks(first, self.lod_ids@, ws, ws.len() as int);
        lemma_needed_keys(self.lod_ids@, self.chunk_refs@, n);
        let keys = needed_keys(self.chunk_refs@, n);
        assert forall|j: int| 0 <= j < keys.len() implies list[n + j] == (
            self.lod_ids@[(#[trigger] keys[j]).0],
            keys[j].1,
        ) by {
            assert(first[n + j] == self.needed_chunks()[j]);
        }
        assert forall|inst: int, c: u32| #[trigger]
            keys.contains((inst, c)) <==> {
                &&& 0 <= inst < n
                &&& c != 0
                &&& some_in_chunk(self.list(), inst, c as int)
            } by {
            if 0 <= inst < n {
                let m = words(self.chunk_refs@[inst]);
                assert(refs_match(m, self.cut(), inst as u8));
                assert(refs_at(m, c) == in_chunk(self.cut(), inst as u8, c as int));
                law_counted_chunks_hold_a_node(self.list(), inst as u8, c as int);
            }
        }
        keys
    }

    /// A chunk that has lost its page matters to the cut exactly if a node of the cut lies in it,
    /// in the tree of any instance that has the id.
    pub proof fn law_released_chunk_matters_if_the_cut_lies_in_it(&self, lod_id: u32, chunk: u32)
        requires
            self.lod_ids@.len() <= 256,
        ensures
            self.refers_to(lod_id, chunk) <==> exists|k: int, inst: int|
                {
                    &&& 0 <= inst < self.lod_ids@.len()
                    &&& #[trigger] self.lod_ids@[inst] == lod_id
                    &&& 0 <= k < self.list().len()
                    &&& (#[trigger] self.list()[k]).0 == inst
                    &&& self.list()[k].1 as int / 65536 == chunk
                },
    {
        let list = self.list();
        if self.refers_to(lod_id, chunk) {
            let inst = choose|inst: int|
                0 <= inst < self.lod_ids@.len() && (#[trigger] self.lod_ids@[inst]) == lod_id
                    && in_chunk(self.cut(), inst as u8, chunk as int) > 0;
            law_counted_chunks_hold_a_node(list, inst as u8, chunk as int);
            let k = choose|k: int|
                0 <= k < list.len() && (#[trigger] list[k]).0 == inst && list[k].1 as int / 65536
                    == chunk;
            assert(self.lod_ids@[inst] == lod_id);
            assert(self.list()[k].0 == inst);
        }
        if exists|k: int, inst: int|
            {
                &&& 0 <= inst < self.lod_ids@.len()
                &&& #[trigger] self.lod_ids@[inst] == lod_id
                &&& 0 <= k < self.list().len()
                &&& (#[trigger] self.list()[k]).0 == inst
                &&& self.list()[k].1 as int / 65536 == chunk
            } {
            let (k, inst) = choose|k: int, inst: int|
                {
                    &&& 0 <= inst < self.lod_ids@.len()
                    &&& #[trigger] self.lod_ids@[inst] == lod_id
                    &&& 0 <= k < self.list().len()
                    &&& (#[trigger] self.list()[k]).0 == inst
                    &&& self.list()[k].1 as int / 65536 == chunk
                };
            assert(some_in_chunk(list, inst, chunk as int));
            law_counted_chunks_hold_a_node(list, inst as u8, chunk as int);
        }
    }
}

} // verus!
