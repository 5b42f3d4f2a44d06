//! A binary max-heap of frontier entries.

use vstd::multiset::Multiset;
use vstd::prelude::*;
use vstd::seq_lib::group_to_multiset_ensures;

use crate::entry::Entry;

verus! {

/// Entries in heap order: each at least as large as the two that hang below it.
#[derive(Debug)]
pub struct Heap {
    data: Vec<Entry>,
}

/// Position of the entry that entry `i` hangs below.
spec fn up(i: int) -> int {
    (i - 1) / 2
}

spec fn heap_ordered(s: Seq<Entry>) -> bool {
    forall|i: int| 0 < i < s.len() ==> (#[trigger] s[i]).0 <= s[up(i)].0
}

/// Heap order, but for the two links into entry `k` and, across it, to its parent.
spec fn ordered_but_above(s: Seq<Entry>, k: int) -> bool {
    &&& forall|i: int| 0 < i < s.len() && i != k ==> (#[trigger] s[i]).0 <= s[up(i)].0
    &&& forall|i: int|
        0 < i < s.len() && k > 0 && up(i) == k ==> (#[trigger] s[i]).0 <= s[up(k)].0
}

/// Heap order, but for the links from entry `k` to what hangs below it.
spec fn ordered_but_below(s: Seq<Entry>, k: int) -> bool {
    &&& forall|i: int| 0 < i < s.len() && up(i) != k ==> (#[trigger] s[i]).0 <= s[up(i)].0
    &&& forall|i: int|
        0 < i < s.len() && k > 0 && up(i) == k ==> (#[trigger] s[i]).0 <= s[up(k)].0
}

/// Entries `i` and `j` in each other's place.
spec fn swapped(s: Seq<Entry>, i: int, j: int) -> Seq<Entry> {
    s.update(i, s[j]).update(j, s[i])
}

/// Entry `k` has risen until what it hangs below is no smaller.
spec fn risen(s: Seq<Entry>, k: int) -> Seq<Entry>
    decreases k,
{
    if k <= 0 || s[k].0 <= s[up(k)].0 {
        s
    } else {
        risen(swapped(s, k, up(k)), up(k))
    }
}

/// The larger of the two entries that hang below entry `k`; the first if they are equal.
spec fn larger_below(s: Seq<Entry>, k: int) -> int {
    if 2 * k + 2 < s.len() && s[2 * k + 2].0 > s[2 * k + 1].0 {
        2 * k + 2
    } else {
        2 * k + 1
    }
}

/// Entry `k` has sunk until nothing below it is larger.
spec fn sunk(s: Seq<Entry>, k: int) -> Seq<Entry>
    decreases s.len() - k,
{
    if k < 0 || 2 * k + 1 >= s.len() || s[larger_below(s, k)].0 <= s[k].0 {
        s
    } else {
        sunk(swapped(s, k, larger_below(s, k)), larger_below(s, k))
    }
}

/// The list of a heap once an entry was put in.
pub closed spec fn pushed(list: Seq<Entry>, e: Entry) -> Seq<Entry> {
    risen(list.push(e), list.len() as int)
}

/// The list of a heap once its largest entry was taken out.
pub closed spec fn popped(list: Seq<Entry>) -> Seq<Entry> {
    if list.len() == 0 {
        list
    } else {
        sunk(list.update(0, list.last()).drop_last(), 0)
    }
}

/// The list of a heap once some entries were put in, one after the other.
pub open spec fn pushed_all(list: Seq<Entry>, entries: Seq<Entry>) -> Seq<Entry>
    decreases entries.len(),
{
    if entries.len() == 0 {
        list
    } else {
        pushed(pushed_all(list, entries.drop_last()), entries.last())
    }
}

/// `e` is an entry of `m` that no other entry exceeds.
pub open spec fn is_top(m: Multiset<Entry>, e: Entry) -> bool {
    &&& m.count(e) > 0
    &&& forall|f: Entry| #[trigger] m.count(f) > 0 ==> f.0 <= e.0
}

proof fn lemma_first_is_largest(s: Seq<Entry>, i: int)
    requires
        heap_ordered(s),
        0 <= i < s.len(),
    ensures
        s[i].0 <= s[0].0,
    decreases i,
{
    if i > 0 {
        assert(s[i].0 <= s[up(i)].0);
        lemma_first_is_largest(s, up(i));
    }
}

proof fn lemma_swap_keeps_contents(s: Seq<Entry>, i: int, j: int)
    requires
        0 <= i < s.len(),
        0 <= j < s.len(),
    ensures
        s.update(i, s[j]).update(j, s[i]).to_multiset() =~= s.to_multiset(),
{
    broadcast use group_to_multiset_ensures;

    vstd::seq_lib::to_multiset_update(s, i, s[j]);
    vstd::seq_lib::to_multiset_update(s.update(i, s[j]), j, s[i]);
}

proof fn lemma_first_is_top(s: Seq<Entry>)
    requires
        heap_ordered(s),
        s.len() > 0,
    ensures
        is_top(s.to_multiset(), s[0]),
{
    broadcast use group_to_multiset_ensures;

    assert(s.contains(s[0]));
    assert forall|f: Entry| #[trigger] s.to_multiset().count(f) > 0 implies f.0 <= s[0].0 by {
        assert(s.contains(f));
        let i = choose|i: int| 0 <= i < s.len() && s[i] == f;
        lemma_first_is_largest(s, i);
    }
}

/// What is left of a heap once its last entry has taken the place of the first.
proof fn lemma_first_replaced_by_last(before: Seq<Entry>, after: Seq<Entry>)
    requires
        heap_ordered(before),
        before.len() > 0,
        after == before.update(0, before[before.len() - 1]).drop_last(),
    ensures
        ordered_but_below(after, 0),
        after.to_multiset() == before.to_multiset().remove(before[0]),
{
    let last = before.len() - 1;
    let swapped = before.update(0, before[last]).update(last, before[0]);
    lemma_swap_keeps_contents(before, 0, last);
    assert(after =~= swapped.remove(last));
    vstd::seq_lib::to_multiset_remove(swapped, last);
    assert(swapped[last] == before[0]);
    assert forall|i: int| 0 < i < after.len() && up(i) != 0 implies (#[trigger] after[i]).0
        <= after[up(i)].0 by {
        assert(before[i].0 <= before[up(i)].0);
    }
}

/// An entry that sinks by one step leaves only the links below it open.
proof fn lemma_sinking_keeps_order(s: Seq<Entry>, k: int)
    requires
        ordered_but_below(s, k),
        0 <= k,
        2 * k + 1 < s.len(),
        s[larger_below(s, k)].0 > s[k].0,
    ensures
        ordered_but_below(swapped(s, k, larger_below(s, k)), larger_below(s, k)),
{
    let c = larger_below(s, k);
    let after = swapped(s, k, c);
    assert(up(c) == k);
    assert forall|i: int| 0 < i < after.len() && up(i) != c implies (#[trigger] after[i]).0
        <= after[up(i)].0 by {
        if up(i) == k {
            assert(i == 2 * k + 1 || i == 2 * k + 2);
        } else if i == k {
            assert(s[c].0 <= s[up(k)].0);
        } else {
            assert(s[i].0 <= s[up(i)].0);
        }
    }
    assert forall|i: int| 0 < i < after.len() && c > 0 && up(i) == c implies (
    #[trigger] after[i]).0 <= after[up(c)].0 by {
        assert(s[i].0 <= s[up(i)].0);
    }
}

/// Heap order, but for the links from entry `k` to what hangs below it.
#[verifier::opaque]
spec fn sinking(s: Seq<Entry>, k: int) -> bool {
    ordered_but_below(s, k)
}

proof fn lemma_sinks_on(s: Seq<Entry>, k: int)
    requires
        sinking(s, k),
        0 <= k,
        2 * k + 1 < s.len(),
        s[larger_below(s, k)].0 > s[k].0,
    ensures
        sinking(swapped(s, k, larger_below(s, k)), larger_below(s, k)),
{
    reveal(sinking);
    lemma_sinking_keeps_order(s, k);
}

proof fn lemma_has_sunk(s: Seq<Entry>, k: int)
    requires
        sinking(s, k),
        0 <= k,
        2 * k + 1 >= s.len() || s[larger_below(s, k)].0 <= s[k].0,
    ensures
        heap_ordered(s),
{
    reveal(sinking);
    assert forall|i: int| 0 < i < s.len() implies (#[trigger] s[i]).0 <= s[up(i)].0 by {
        if up(i) == k {
            assert(i == 2 * k + 1 || i == 2 * k + 2);
        }
    }
}

/// Place `i` is on the way from place `k` up to the first.
pub open spec fn above(i: int, k: int) -> bool
    decreases k,
{
    i == k || k > 0 && above(i, (k - 1) / 2)
}

proof fn lemma_risen(s: Seq<Entry>, k: int)
    requires
        0 <= k < s.len(),
        ordered_but_above(s, k),
    ensures
        risen(s, k).len() == s.len(),
        heap_ordered(risen(s, k)),
        risen(s, k).to_multiset() == s.to_multiset(),
        forall|i: int| 0 <= i < s.len() && !above(i, k) ==> #[trigger] risen(s, k)[i] == s[i],
    decreases k,
{
    if k > 0 && s[k].0 > s[up(k)].0 {
        let p = up(k);
        let after = swapped(s, k, p);
        assert forall|i: int| 0 < i < after.len() && i != p implies (#[trigger] after[i]).0
            <= after[up(i)].0 by {
            assert(s[i].0 <= s[up(i)].0 || i == k);
        }
        assert forall|i: int| 0 < i < after.len() && p > 0 && up(i) == p implies (
        #[trigger] after[i]).0 <= after[up(p)].0 by {
            assert(s[p].0 <= s[up(p)].0);
            assert(s[i].0 <= s[up(i)].0 || i == k);
        }
        lemma_swap_keeps_contents(s, k, p);
        lemma_risen(after, p);
        assert forall|i: int| 0 <= i < s.len() && !above(i, k) implies #[trigger] risen(s, k)[i]
            == s[i] by {
            assert(!above(i, p));
            assert(risen(after, p)[i] == after[i]);
        }
    }
}

proof fn lemma_sunk(s: Seq<Entry>, k: int)
    requires
        0 <= k < s.len(),
        ordered_but_below(s, k),
    ensures
        sunk(s, k).len() == s.len(),
        heap_ordered(sunk(s, k)),
        sunk(s, k).to_multiset() == s.to_multiset(),
        forall|i: int| 0 <= i < k ==> #[trigger] sunk(s, k)[i] == s[i],
        forall|i: int|
            0 <= i < s.len() ==> {
                ||| #[trigger] sunk(s, k)[i] == s[i]
                ||| sunk(s, k)[i] == s[k]
                ||| 2 * i + 1 < s.len() && sunk(s, k)[i] == s[2 * i + 1]
                ||| 2 * i + 2 < s.len() && sunk(s, k)[i] == s[2 * i + 2]
            },
    decreases s.len() - k,
{
    if 2 * k + 1 < s.len() && s[larger_below(s, k)].0 > s[k].0 {
        let c = larger_below(s, k);
        let after = swapped(s, k, c);
        lemma_sinking_keeps_order(s, k);
        lemma_swap_keeps_contents(s, k, c);
        lemma_sunk(after, c);
        assert forall|i: int| 0 <= i < k implies #[trigger] sunk(s, k)[i] == s[i] by {
            assert(sunk(after, c)[i] == after[i]);
        }
        assert forall|i: int| 0 <= i < s.len() implies {
            ||| #[trigger] sunk(s, k)[i] == s[i]
            ||| sunk(s, k)[i] == s[k]
            ||| 2 * i + 1 < s.len() && sunk(s, k)[i] == s[2 * i + 1]
            ||| 2 * i + 2 < s.len() && sunk(s, k)[i] == s[2 * i + 2]
        } by {
            assert(sunk(s, k)[i] == sunk(after, c)[i]);
            if i < c {
                assert(sunk(after, c)[i] == after[i]);
            }
        }
    } else {
        assert forall|i: int| 0 < i < s.len() implies (#[trigger] s[i]).0 <= s[up(i)].0 by {
            if up(i) == k {
                assert(i == 2 * k + 1 || i == 2 * k + 2);
            }
        }
    }
}

/// No entry of the list is larger than the one that it hangs below.
pub open spec fn hangs_in_order(list: Seq<Entry>) -> bool {
    forall|i: int| 0 < i < list.len() ==> (#[trigger] list[i]).0 <= list[(i - 1) / 2].0
}

/// Putting an entry in keeps the order of the list, and moves nothing but what lies on the way
/// from the end of the list up to its first place.
pub proof fn law_entry_rises_from_the_end(list: Seq<Entry>, e: Entry)
    requires
        hangs_in_order(list),
    ensures
        hangs_in_order(pushed(list, e)),
        pushed(list, e).to_multiset() == list.to_multiset().insert(e),
        pushed(list, e).len() == list.len() + 1,
        forall|i: int|
            0 <= i < list.len() && !above(i, list.len() as int) ==> #[trigger] pushed(list, e)[i]
                == list[i],
{
    let s = list.push(e);
    let k = list.len() as int;
    assert forall|i: int| 0 < i < s.len() && i != k implies (#[trigger] s[i]).0 <= s[up(i)].0 by {
        assert(list[i].0 <= list[(i - 1) / 2].0);
    }
    vstd::seq_lib::to_multiset_build(list, e);
    lemma_risen(s, k);
    let t = pushed(list, e);
    assert forall|i: int| 0 < i < t.len() implies (#[trigger] t[i]).0 <= t[(i - 1) / 2].0 by {
        assert(t[i].0 <= t[up(i)].0);
    }
    assert forall|i: int| 0 <= i < list.len() && !above(i, k) implies #[trigger] t[i]
        == list[i] by {
        assert(risen(s, k)[i] == s[i]);
    }
}

/// What lies at place `i` after the largest entry was taken out: what lay there; what hung below
/// that place; or the entry that was the last.
pub open spec fn fills_the_gap(list: Seq<Entry>, after: Seq<Entry>, i: int) -> bool {
    let n = list.len() - 1;
    ||| i > 0 && after[i] == list[i]
    ||| after[i] == list[n]
    ||| 2 * i + 1 < n && after[i] == list[2 * i + 1]
    ||| 2 * i + 2 < n && after[i] == list[2 * i + 2]
}

/// Taking the largest entry out keeps the order of the list. The last entry finds a new place;
/// every other one stays where it is, or rises to the place that it hung below.
pub proof fn law_last_entry_sinks_from_the_top(list: Seq<Entry>)
    requires
        hangs_in_order(list),
        list.len() > 0,
    ensures
        hangs_in_order(popped(list)),
        popped(list).to_multiset() == list.to_multiset().remove(list[0]),
        popped(list).len() == list.len() - 1,
        forall|i: int| 0 <= i < list.len() - 1 ==> #[trigger] fills_the_gap(list, popped(list), i),
{
    let n = list.len() - 1;
    let s = list.update(0, list.last()).drop_last();
    assert(heap_ordered(list)) by {
        assert forall|i: int| 0 < i < list.len() implies (#[trigger] list[i]).0
            <= list[up(i)].0 by {
            assert(list[i].0 <= list[(i - 1) / 2].0);
        }
    }
    lemma_first_replaced_by_last(list, s);
    let t = popped(list);
    if n > 0 {
        lemma_sunk(s, 0);
        assert(t == sunk(s, 0));
        assert(hangs_in_order(t)) by {
            assert forall|i: int| 0 < i < t.len() implies (#[trigger] t[i]).0
                <= t[(i - 1) / 2].0 by {
                assert(t[i].0 <= t[up(i)].0);
            }
        }
        lemma_gap(list, s, t);
    } else {
        assert(s.len() == 0);
        assert(t =~= s);
    }
}

proof fn lemma_gap(list: Seq<Entry>, s: Seq<Entry>, t: Seq<Entry>)
    requires
        list.len() > 1,
        s == list.update(0, list.last()).drop_last(),
        t.len() == s.len(),
        forall|i: int|
            0 <= i < s.len() ==> {
                ||| #[trigger] t[i] == s[i]
                ||| t[i] == s[0]
                ||| 2 * i + 1 < s.len() && t[i] == s[2 * i + 1]
                ||| 2 * i + 2 < s.len() && t[i] == s[2 * i + 2]
            },
    ensures
        forall|i: int| 0 <= i < list.len() - 1 ==> #[trigger] fills_the_gap(list, t, i),
{
    assert forall|i: int| 0 <= i < list.len() - 1 implies #[trigger] fills_the_gap(list, t, i) by {
        assert(s[0] == list[list.len() - 1]);
        assert(t[i] == t[i]);
    }
}

/// Entries are put in one after the other, the first one first.
pub proof fn law_entries_are_put_in_one_after_the_other(
    list: Seq<Entry>,
    entries: Seq<Entry>,
    e: Entry,
)
    ensures
        pushed_all(list, Seq::empty()) == list,
        pushed_all(list, entries.push(e)) == pushed(pushed_all(list, entries), e),
{
    assert(entries.push(e).drop_last() =~= entries);
}

impl View for Heap {
    type V = Multiset<Entry>;

    closed spec fn view(&self) -> Multiset<Entry> {
        self.data@.to_multiset()
    }
}

impl Heap {
    /// The entries in the order in which they are kept. It depends on nothing but what was put in
    /// and taken out, one after the other.
    pub closed spec fn list(&self) -> Seq<Entry> {
        self.data@
    }

    /// The entries are in heap order.
    pub closed spec fn wf(&self) -> bool {
        heap_ordered(self.data@)
    }

    pub fn new() -> (r: Heap)
        ensures
            r.wf(),
            r@ == Multiset::<Entry>::empty(),
            r.list() == Seq::<Entry>::empty(),
    {
        let r = Heap { data: Vec::new() };
        proof {
            broadcast use group_to_multiset_ensures;

            assert(r.data@.to_multiset().len() == 0);
            assert(r@ =~= Multiset::<Entry>::empty());
        }
        r
    }

    pub fn len(&self) -> (r: usize)
        ensures
            r == self@.len(),
    {
        broadcast use group_to_multiset_ensures;

        self.data.len()
    }

    pub fn clear(&mut self)
        ensures
            final(self).wf(),
            final(self)@ == Multiset::<Entry>::empty(),
            final(self).list() == Seq::<Entry>::empty(),
    {
        self.data.clear();
        proof {
            broadcast use group_to_multiset_ensures;

            assert(self.data@.to_multiset().len() == 0);
            assert(self@ =~= Multiset::<Entry>::empty());
        }
    }

    /// The largest entry, left in place.
    pub fn peek(&self) -> (r: Option<Entry>)
        requires
            self.wf(),
        ensures
            r is None <==> self@.len() == 0,
            r matches Some(e) ==> is_top(self@, e),
    {
        broadcast use group_to_multiset_ensures;

        if self.data.len() == 0 {
            None
        } else {
            proof {
                lemma_first_is_top(self.data@);
            }
            Some(self.data[0])
        }
    }

    pub fn push(&mut self, e: Entry)
        requires
            old(self).wf(),
        ensures
            final(self).wf(),
            final(self)@ == old(self)@.insert(e),
            final(self).list() == pushed(old(self).list(), e),
    {
        broadcast use group_to_multiset_ensures;

        self.data.push(e);
        let mut k: usize = self.data.len() - 1;
        while k > 0
            invariant
                k < self.data@.len(),
                ordered_but_above(self.data@, k as int),
                self.data@.to_multiset() == old(self)@.insert(e),
                risen(self.data@, k as int) == pushed(old(self).list(), e),
            ensures
                heap_ordered(self.data@),
                self.data@.to_multiset() == old(self)@.insert(e),
                self.data@ == pushed(old(self).list(), e),
            decreases k,
        {
            let p: usize = (k - 1) / 2;
            if self.data[k].0 <= self.data[p].0 {
                break ;
            }
            let low = self.data[k];
            let high = self.data[p];
            let ghost before = self.data@;
            self.data.set(k, high);
            self.data.set(p, low);
            proof {
                lemma_swap_keeps_contents(before, k as int, p as int);
                let after = self.data@;
                assert(up(k as int) == p);
                assert(after =~= before.update(k as int, before[p as int]).update(
                    p as int,
                    before[k as int],
                ));
                assert forall|i: int| 0 < i < after.len() && i != p implies (
                #[trigger] after[i]).0 <= after[up(i)].0 by {
                    assert(before[i].0 <= before[up(i)].0 || i == k);
                }
                assert forall|i: int| 0 < i < after.len() && p > 0 && up(i) == p implies (
                #[trigger] after[i]).0 <= after[up(p as int)].0 by {
                    assert(before[p as int].0 <= before[up(p as int)].0);
                    assert(before[i].0 <= before[up(i)].0 || i == k);
                }
            }
            k = p;
        }
    }

    /// Takes the largest entry out.
    pub fn pop(&mut self) -> (r: Option<Entry>)
        requires
            old(self).wf(),
        ensures
            final(self).wf(),
            r is None <==> old(self)@.len() == 0,
            r is None ==> final(self)@ == old(self)@,
            final(self).list() == popped(old(self).list()),
            r matches Some(e) ==> is_top(old(self)@, e) && final(self)@ == old(self)@.remove(e),
    {
        proof {
            vstd::seq_lib::to_multiset_len(self.data@);
        }
        if self.data.len() == 0 {
            return None;
        }
        let ghost before = self.data@;
        let e = self.data.swap_remove(0);
        proof {
            lemma_first_is_top(before);
            lemma_first_replaced_by_last(before, self.data@);
        }
        self.sift_down();
        Some(e)
    }

    /// Moves the first entry down until nothing below it is larger.
    fn sift_down(&mut self)
        requires
            ordered_but_below(old(self).data@, 0),
        ensures
            final(self).wf(),
            final(self)@ == old(self)@,
            final(self).list() == sunk(old(self).list(), 0),
    {
        let mut k: usize = 0;
        let n: usize = self.data.len();
        assert(sinking(self.data@, 0)) by {
            reveal(sinking);
        }
        while k < n / 2
            invariant
                n == self.data@.len(),
                sinking(self.data@, k as int),
                self.data@.to_multiset() == old(self)@,
                sunk(self.data@, k as int) == sunk(old(self).list(), 0),
            ensures
                n == self.data@.len(),
                sinking(self.data@, k as int),
                2 * k + 1 >= n || self.data@[larger_below(self.data@, k as int)].0
                    <= self.data@[k as int].0,
                self.data@.to_multiset() == old(self)@,
                self.data@ == sunk(old(self).list(), 0),
            decreases n - k,
        {
            let left: usize = 2 * k + 1;
            let mut c: usize = left;
            if left + 1 < n && self.data[left + 1].0 > self.data[left].0 {
                c = left + 1;
            }
            assert(c == larger_below(self.data@, k as int));
            if self.data[c].0 <= self.data[k].0 {
                break ;
            }
            let low = self.data[k];
            let high = self.data[c];
            let ghost before = self.data@;
            self.data.set(k, high);
            self.data.set(c, low);
            proof {
                lemma_swap_keeps_contents(before, k as int, c as int);
                lemma_sinks_on(before, k as int);
                assert(self.data@ =~= swapped(before, k as int, c as int));
            }
            k = c;
        }
        proof {
            lemma_has_sunk(self.data@, k as int);
        }
    }

    /// The entries, in the order in which they are kept.
    pub fn entries(&self) -> (r: Vec<Entry>)
        ensures
            r@ == self.list(),
            r@.to_multiset() == self@,
            r@.len() == self@.len(),
    {
        broadcast use group_to_multiset_ensures;

        let mut out: Vec<Entry> = Vec::with_capacity(self.data.len());
        let mut i: usize = 0;
        while i < self.data.len()
            invariant
                i <= self.data@.len(),
                out@ == self.data@.take(i as int),
            decreases self.data@.len() - i,
        {
            out.push(self.data[i]);
            proof {
                assert(self.data@.take(i + 1) =~= self.data@.take(i as int).push(
                    self.data@[i as int],
                ));
            }
            i += 1;
        }
        proof {
            assert(out@ =~= self.data@);
        }
        out
    }

    /// The entries from the largest to the smallest.
    pub fn into_descending(self) -> (r: Vec<Entry>)
        requires
            self.wf(),
        ensures
            r@.to_multiset() == self@,
            forall|i: int, j: int|
                0 <= i < j < r@.len() ==> (#[trigger] r@[i]).0 >= (#[trigger] r@[j]).0,
    {
        let mut heap = self;
        let mut out: Vec<Entry> = Vec::new();
        proof {
            vstd::seq_lib::to_multiset_len(out@);
            assert(heap@ =~= out@.to_multiset().add(heap@));
        }
        while heap.len() > 0
            invariant
                heap.wf(),
                self@ == out@.to_multiset().add(heap@),
                forall|i: int, j: int|
                    0 <= i < j < out@.len() ==> (#[trigger] out@[i]).0 >= (#[trigger] out@[j]).0,
                forall|i: int, e: Entry|
                    0 <= i < out@.len() && heap@.count(e) > 0 ==> (#[trigger] out@[i]).0 >= (
                    #[trigger] e.0),
            decreases heap@.len(),
        {
            let ghost before = heap@;
            let ghost taken = out@;
            match heap.pop() {
                Some(e) => {
                    proof {
                        assert(before.count(e) > 0);
                        vstd::seq_lib::to_multiset_build(taken, e);
                        assert(out@.push(e).to_multiset().add(heap@) =~= self@);
                    }
                    out.push(e);
                    proof {
                        assert forall|i: int, f: Entry|
                            0 <= i < out@.len() && heap@.count(f) > 0 implies (#[trigger] out@[i]).0
                            >= (#[trigger] f.0) by {
                            assert(before.count(f) > 0);
                        }
                        assert forall|i: int, j: int| 0 <= i < j < out@.len() implies (
                        #[trigger] out@[i]).0 >= (#[trigger] out@[j]).0 by {
                            if j == taken.len() {
                                assert(taken[i].0 >= e.0);
                            }
                        }
                    }
                },
                None => {},
            }
        }
        proof {
            assert(out@.to_multiset() =~= self@);
        }
        out
    }
}

} // verus!
