//! The chunks that an incremental cut asks for, by fetch priority.

use ahash::AHashMap;
use vstd::prelude::*;
use vstd::seq_lib::group_to_multiset_ensures;

use crate::cut::{Chunks, IncrementalCut};
use crate::entry::Entry;
use crate::hash::{lists, wants, wants_entries, words, words_entries};
use crate::heap::Heap;
use crate::scale::{nan, rank, Scale};
use crate::traverse::with_chunk;

verus! {

/// A wanted chunk: (instance, chunk), with (scale bits, pass).
pub type Want = ((u8, u32), (u32, u32));

/// `s` lists, in ascending order, the chunks other than chunk 0 that are counted in `refs`.
pub open spec fn is_needed(s: Seq<u32>, refs: Map<u32, u32>) -> bool {
    &&& forall|i: int, j: int| 0 <= i < j < s.len() ==> (#[trigger] s[i]) < (#[trigger] s[j])
    &&& forall|c: u32| #[trigger]
        s.contains(c) <==> c != 0 && refs.contains_key(c) && refs[c] > 0
}

/// The chunks other than chunk 0 that are counted in `refs`, in ascending order.
pub open spec fn needed_of(refs: Map<u32, u32>) -> Seq<u32> {
    choose|s: Seq<u32>| is_needed(s, refs)
}

/// The chunks that the first `n` instances need, instance by instance.
pub open spec fn needed_by(
    lod_ids: Seq<u32>,
    refs: Seq<AHashMap<u32, u32>>,
    n: int,
) -> Seq<(u32, u32)>
    decreases n,
{
    if n <= 0 {
        Seq::empty()
    } else {
        needed_by(lod_ids, refs, n - 1) + needed_of(words(refs[n - 1])).map_values(
            |c: u32| (lod_ids[n - 1], c),
        )
    }
}

/// `a` goes before `b`: it was wanted for a larger pixel scale, or its scale and that of `b` do
/// not differ and its instance and chunk come first. A NaN differs from nothing.
pub open spec fn goes_before(a: Want, b: Want) -> bool {
    let x = Scale { bits: a.1.0 };
    let y = Scale { bits: b.1.0 };
    let key = a.0.0 < b.0.0 || a.0.0 == b.0.0 && a.0.1 < b.0.1;
    if nan(x) || nan(y) {
        key
    } else {
        rank(x) > rank(y) || rank(x) == rank(y) && key
    }
}

/// `w` is an entry of `m`, wanted in pass `since` or later.
pub open spec fn is_fresh(m: Map<(u8, u32), (u32, u32)>, since: u32, w: Want) -> bool {
    m.contains_key(w.0) && m[w.0] == w.1 && w.1.1 >= since
}

/// The order makes sense of the fresh entries: it is transitive on them. That can fail only
/// where some scales are NaN and others are not.
pub open spec fn orderly(m: Map<(u8, u32), (u32, u32)>, since: u32) -> bool {
    forall|a: Want, b: Want, c: Want|
        is_fresh(m, since, a) && is_fresh(m, since, b) && is_fresh(m, since, c)
            && #[trigger] goes_before(a, b) && #[trigger] goes_before(b, c) ==> goes_before(a, c)
}

/// `s` lists the chunks that were wanted in pass `since` or later, each once, and in their
/// order if there is one.
pub open spec fn is_wanted(s: Seq<Want>, m: Map<(u8, u32), (u32, u32)>, since: u32) -> bool {
    &&& s.no_duplicates()
    &&& forall|w: Want| #[trigger] s.contains(w) <==> is_fresh(m, since, w)
    &&& orderly(m, since) ==> forall|i: int, j: int|
        0 <= i < j < s.len() ==> goes_before(#[trigger] s[i], #[trigger] s[j])
}

/// A list with the first `n` wanted chunks put behind it, each unless it is listed already.
pub open spec fn with_wanted(
    list: Seq<(u32, u32)>,
    lod_ids: Seq<u32>,
    wanted: Seq<Want>,
    n: int,
) -> Seq<(u32, u32)>
    decreases n,
{
    if n <= 0 {
        list
    } else {
        with_chunk(
            with_wanted(list, lod_ids, wanted, n - 1),
            (lod_ids[wanted[n - 1].0.0 as int], wanted[n - 1].0.1),
        )
    }
}

proof fn lemma_with_wanted_len(
    list: Seq<(u32, u32)>,
    lod_ids: Seq<u32>,
    wanted: Seq<Want>,
    n: int,
)
    ensures
        list.len() <= with_wanted(list, lod_ids, wanted, n).len(),
    decreases n,
{
    if n > 0 {
        lemma_with_wanted_len(list, lod_ids, wanted, n - 1);
    }
}

/// Two lists in one strict order that hold the same are the same.
proof fn lemma_sorted_is_unique<A>(s: Seq<A>, t: Seq<A>, before: spec_fn(A, A) -> bool)
    requires
        forall|a: A| !(#[trigger] before(a, a)),
        forall|a: A, b: A, c: A| #[trigger]
            before(a, b) && #[trigger] before(b, c) ==> before(a, c),
        forall|i: int, j: int|
            0 <= i < j < s.len() ==> before(#[trigger] s[i], #[trigger] s[j]),
        forall|i: int, j: int|
            0 <= i < j < t.len() ==> before(#[trigger] t[i], #[trigger] t[j]),
        forall|a: A|
            #![trigger s.contains(a)]
            #![trigger t.contains(a)]
            s.contains(a) <==> t.contains(a),
    ensures
        s == t,
    decreases s.len(),
{
    if s.len() == 0 {
        if t.len() > 0 {
            assert(t.contains(t[0]));
        }
        assert(s =~= t);
    } else {
        assert(s.contains(s[0]));
        assert(t.len() > 0);
        let x = s.last();
        let y = t.last();
        assert(s.contains(x));
        assert(t.contains(y));
        assert(t.contains(x));
        assert(s.contains(y));
        let i = choose|i: int| 0 <= i < t.len() && t[i] == x;
        let j = choose|j: int| 0 <= j < s.len() && s[j] == y;
        if x != y {
            assert(before(t[i], t[t.len() - 1]));
            assert(before(s[j], s[s.len() - 1]));
            assert(before(x, x));
        }
        let s2 = s.drop_last();
        let t2 = t.drop_last();
        assert forall|a: A|
            #![trigger s2.contains(a)]
            #![trigger t2.contains(a)]
            s2.contains(a) <==> t2.contains(a) by {
            if s2.contains(a) {
                let k = choose|k: int| 0 <= k < s2.len() && s2[k] == a;
                assert(s[k] == a);
                assert(before(s[k], s[s.len() - 1]));
                assert(s.contains(a));
                let l = choose|l: int| 0 <= l < t.len() && t[l] == a;
                assert(t2[l] == a);
            }
            if t2.contains(a) {
                let k = choose|k: int| 0 <= k < t2.len() && t2[k] == a;
                assert(t[k] == a);
                assert(before(t[k], t[t.len() - 1]));
                assert(t.contains(a));
                let l = choose|l: int| 0 <= l < s.len() && s[l] == a;
                assert(s2[l] == a);
            }
        }
        lemma_sorted_is_unique(s2, t2, before);
        assert(s =~= s2.push(x));
        assert(t =~= t2.push(y));
    }
}

/// There is but one ascending list of what is needed.
pub proof fn law_needed_list_is_determined(s: Seq<u32>, refs: Map<u32, u32>)
    requires
        is_needed(s, refs),
    ensures
        s == needed_of(refs),
{
    let t = needed_of(refs);
    assert(is_needed(t, refs));
    let before = |a: u32, b: u32| a < b;
    assert forall|a: u32| s.contains(a) <==> t.contains(a) by {
        assert(s.contains(a) <==> a != 0 && refs.contains_key(a) && refs[a] > 0);
        assert(t.contains(a) <==> a != 0 && refs.contains_key(a) && refs[a] > 0);
    }
    lemma_sorted_is_unique(s, t, before);
}

/// Where the order makes sense there is but one list of what is wanted.
pub proof fn law_wanted_list_is_determined(
    s: Seq<Want>,
    t: Seq<Want>,
    m: Map<(u8, u32), (u32, u32)>,
    since: u32,
)
    requires
        is_wanted(s, m, since),
        is_wanted(t, m, since),
        orderly(m, since),
    ensures
        s == t,
{
    let before = |a: Want, b: Want|
        is_fresh(m, since, a) && is_fresh(m, since, b) && goes_before(a, b);
    assert forall|a: Want|
        #![trigger s.contains(a)]
        #![trigger t.contains(a)]
        s.contains(a) <==> t.contains(a) by {
        assert(s.contains(a) <==> is_fresh(m, since, a));
        assert(t.contains(a) <==> is_fresh(m, since, a));
    }
    assert forall|i: int, j: int| 0 <= i < j < s.len() implies before(
        #[trigger] s[i],
        #[trigger] s[j],
    ) by {
        assert(s.contains(s[i]) && s.contains(s[j]));
    }
    assert forall|i: int, j: int| 0 <= i < j < t.len() implies before(
        #[trigger] t[i],
        #[trigger] t[j],
    ) by {
        assert(t.contains(t[i]) && t.contains(t[j]));
    }
    lemma_sorted_is_unique(s, t, before);
}

/// The order makes sense where no scale is a NaN.
pub proof fn law_scales_without_nan_are_orderly(m: Map<(u8, u32), (u32, u32)>, since: u32)
    requires
        forall|k: (u8, u32)| #[trigger]
            m.contains_key(k) ==> !nan(Scale { bits: m[k].0 }),
    ensures
        orderly(m, since),
{
}

/// The chunks other than chunk 0 that are counted, in ascending order.
fn needed_chunks(refs: &AHashMap<u32, u32>) -> (r: Vec<u32>)
    ensures
        r@ == needed_of(words(*refs)),
        is_needed(r@, words(*refs)),
{
    broadcast use group_to_multiset_ensures;

    let entries = words_entries(refs);
    let ghost m = words(*refs);
    let mut heap = Heap::new();
    let mut i: usize = 0;
    while i < entries.len()
        invariant
            i <= entries@.len(),
            lists(entries@, m),
            heap.wf(),
            forall|e: Entry| #[trigger]
                heap@.count(e) == (if exists|k: int|
                    0 <= k < i && (#[trigger] entries@[k]).0 != 0 && entries@[k].1 > 0
                        && entries@[k].0 == e.0 {
                    1nat
                } else {
                    0nat
                }),
        decreases entries@.len() - i,
    {
        let (c, n) = entries[i];
        let ghost before = heap@;
        if c != 0 && n > 0 {
            heap.push(Entry(c as u64));
        }
        proof {
            assert forall|e: Entry| #[trigger]
                heap@.count(e) == (if exists|k: int|
                    0 <= k < i + 1 && (#[trigger] entries@[k]).0 != 0 && entries@[k].1 > 0
                        && entries@[k].0 == e.0 {
                    1nat
                } else {
                    0nat
                }) by {
                let old_count = before.count(e);
                if c == e.0 && c != 0 && n > 0 {
                    assert forall|k: int| 0 <= k < i implies (#[trigger] entries@[k]).0 != e.0 by {
                        assert(entries@[k].0 != entries@[i as int].0);
                    }
                    assert(entries@[i as int].0 == e.0);
                    assert(old_count == 0);
                } else {
                    if old_count == 1 {
                        let k = choose|k: int|
                            0 <= k < i && (#[trigger] entries@[k]).0 != 0 && entries@[k].1 > 0
                                && entries@[k].0 == e.0;
                        assert(entries@[k].0 == e.0);
                    }
                    if exists|k: int|
                        0 <= k < i + 1 && (#[trigger] entries@[k]).0 != 0 && entries@[k].1 > 0
                            && entries@[k].0 == e.0 {
                        let k = choose|k: int|
                            0 <= k < i + 1 && (#[trigger] entries@[k]).0 != 0 && entries@[k].1 > 0
                                && entries@[k].0 == e.0;
                        assert(k < i);
                    }
                }
            }
        }
        i += 1;
    }
    let ghost contents = heap@;
    let sorted = heap.into_descending();
    proof {
        assert forall|k: int| 0 <= k < sorted@.len() implies contents.count(
            #[trigger] sorted@[k],
        ) == 1 by {
            assert(sorted@.contains(sorted@[k]));
        }
        assert forall|k: int, l: int| 0 <= k < l < sorted@.len() implies (#[trigger] sorted@[k]).0
            > (#[trigger] sorted@[l]).0 by {
            assert(sorted@[k].0 >= sorted@[l].0);
            if sorted@[k].0 == sorted@[l].0 {
                lemma_twice_counts_twice(sorted@, k, l);
            }
        }
    }
    let mut out: Vec<u32> = Vec::new();
    let mut left: usize = sorted.len();
    while left > 0
        invariant
            left <= sorted@.len(),
            out@.len() == sorted@.len() - left,
            forall|k: int| 0 <= k < sorted@.len() ==> (#[trigger] sorted@[k]).0 <= u32::MAX,
            forall|k: int|
                0 <= k < out@.len() ==> #[trigger] out@[k] == sorted@[sorted@.len() - 1 - k].0,
        decreases left,
    {
        left -= 1;
        out.push(sorted[left].0 as u32);
    }
    proof {
        assert forall|c: u32| #[trigger]
            out@.contains(c) <==> c != 0 && m.contains_key(c) && m[c] > 0 by {
            let e = Entry(c as u64);
            if out@.contains(c) {
                let k = choose|k: int| 0 <= k < out@.len() && out@[k] == c;
                assert(sorted@[sorted@.len() - 1 - k].0 == c);
                assert(sorted@[sorted@.len() - 1 - k] == e);
                assert(contents.count(e) == 1);
                let l = choose|l: int|
                    0 <= l < i && (#[trigger] entries@[l]).0 != 0 && entries@[l].1 > 0
                        && entries@[l].0 == e.0;
                assert(m.contains_key(entries@[l].0));
            }
            if c != 0 && m.contains_key(c) && m[c] > 0 {
                let l = choose|l: int| 0 <= l < entries@.len() && (#[trigger] entries@[l]).0 == c;
                assert(entries@[l].1 == m[c]);
                assert(contents.count(e) == 1);
                assert(sorted@.contains(e));
                let k = choose|k: int| 0 <= k < sorted@.len() && sorted@[k] == e;
                assert(out@[sorted@.len() - 1 - k] == c);
            }
        }
        assert forall|k: int, l: int| 0 <= k < l < out@.len() implies (#[trigger] out@[k]) < (
        #[trigger] out@[l]) by {
            assert(sorted@[sorted@.len() - 1 - l].0 > sorted@[sorted@.len() - 1 - k].0);
        }
        law_needed_list_is_determined(out@, m);
    }
    out
}

/// An entry in two places of a list is in it twice.
proof fn lemma_twice_counts_twice(s: Seq<Entry>, k: int, l: int)
    requires
        0 <= k < l < s.len(),
        s[k] == s[l],
    ensures
        s.to_multiset().count(s[k]) >= 2,
{
    broadcast use group_to_multiset_ensures;

    let rest = s.remove(l);
    assert(rest[k] == s[k]);
    assert(rest.contains(s[k]));
    vstd::seq_lib::to_multiset_remove(s, l);
    assert(rest.to_multiset().count(s[k]) > 0);
    assert(s.contains(s[k]));
    assert(s.to_multiset().remove(s[l]).insert(s[l]) =~= s.to_multiset());
}

fn before(a: &Want, b: &Want) -> (r: bool)
    ensures
        r == goes_before(*a, *b),
{
    let x = Scale::from_bits(a.1.0);
    let y = Scale::from_bits(b.1.0);
    let key = a.0.0 < b.0.0 || a.0.0 == b.0.0 && a.0.1 < b.0.1;
    if x.is_nan() || y.is_nan() {
        key
    } else {
        x.rank() > y.rank() || x.rank() == y.rank() && key
    }
}

/// The sequence is in the order of `goes_before`.
spec fn in_order(s: Seq<Want>) -> bool {
    forall|i: int, j: int|
        0 <= i < j < s.len() ==> goes_before(#[trigger] s[i], #[trigger] s[j])
}

/// Puts an entry, with a key of its own, where it belongs.
fn insert_in_order(
    sorted: &mut Vec<Want>,
    w: Want,
    Ghost(m): Ghost<Map<(u8, u32), (u32, u32)>>,
    since: u32,
)
    requires
        is_fresh(m, since, w),
        forall|i: int|
            0 <= i < old(sorted)@.len() ==> is_fresh(m, since, #[trigger] old(sorted)@[i]),
        forall|i: int| 0 <= i < old(sorted)@.len() ==> (#[trigger] old(sorted)@[i]).0 != w.0,
        orderly(m, since) ==> in_order(old(sorted)@),
    ensures
        exists|at: int|
            0 <= at <= old(sorted)@.len() && final(sorted)@ == old(sorted)@.insert(at, w),
        orderly(m, since) ==> in_order(final(sorted)@),
{
    let mut at: usize = sorted.len();
    while at > 0
        invariant
            at <= sorted@.len(),
            sorted@ == old(sorted)@,
            is_fresh(m, since, w),
            forall|i: int| 0 <= i < sorted@.len() ==> is_fresh(m, since, #[trigger] sorted@[i]),
            forall|i: int| 0 <= i < sorted@.len() ==> (#[trigger] sorted@[i]).0 != w.0,
            forall|i: int| at <= i < sorted@.len() ==> goes_before(w, #[trigger] sorted@[i]),
        ensures
            at <= sorted@.len(),
            sorted@ == old(sorted)@,
            forall|i: int| at <= i < sorted@.len() ==> goes_before(w, #[trigger] sorted@[i]),
            at > 0 ==> !goes_before(w, sorted@[at - 1]),
        decreases at,
    {
        if !before(&w, &sorted[at - 1]) {
            break ;
        }
        at -= 1;
    }
    sorted.insert(at, w);
    proof {
        let s = old(sorted)@;
        let t = sorted@;
        assert(t == s.insert(at as int, w));
        if orderly(m, since) {
            assert forall|i: int| 0 <= i < at implies goes_before(#[trigger] s[i], w) by {
                assert(goes_before(s[at - 1], w));
                if i < at - 1 {
                    assert(goes_before(s[i], s[at - 1]));
                }
            }
            assert forall|i: int, j: int| 0 <= i < j < t.len() implies goes_before(
                #[trigger] t[i],
                #[trigger] t[j],
            ) by {
                let a = if i < at {
                    i
                } else {
                    i - 1
                };
                let b = if j < at {
                    j
                } else {
                    j - 1
                };
                if i == at {
                    assert(goes_before(w, s[b]));
                } else if j == at {
                    assert(goes_before(s[a], w));
                } else {
                    assert(goes_before(s[a], s[b]));
                }
            }
        }
    }
}

/// The wanted chunks that are fresh, in their order.
fn wanted_chunks(wanted: &AHashMap<(u8, u32), (u32, u32)>, since: u32) -> (r: Vec<Want>)
    ensures
        is_wanted(r@, wants(*wanted), since),
{
    let entries = wants_entries(wanted);
    let ghost m = wants(*wanted);
    let mut sorted: Vec<Want> = Vec::new();
    let mut i: usize = 0;
    while i < entries.len()
        invariant
            i <= entries@.len(),
            lists(entries@, m),
            forall|k: int| 0 <= k < sorted@.len() ==> is_fresh(m, since, #[trigger] sorted@[k]),
            forall|k: int|
                0 <= k < sorted@.len() ==> exists|l: int|
                    0 <= l < i && #[trigger] entries@[l] == #[trigger] sorted@[k],
            forall|l: int|
                0 <= l < i && (#[trigger] entries@[l]).1.1 >= since ==> sorted@.contains(
                    entries@[l],
                ),
            sorted@.no_duplicates(),
            orderly(m, since) ==> in_order(sorted@),
        decreases entries@.len() - i,
    {
        let w = entries[i];
        let ghost s = sorted@;
        if w.1.1 >= since {
            proof {
                assert(m.contains_key(entries@[i as int].0));
                assert forall|k: int| 0 <= k < s.len() implies (#[trigger] s[k]).0 != w.0 by {
                    let l = choose|l: int|
                        0 <= l < i && #[trigger] entries@[l] == #[trigger] s[k];
                    assert(entries@[l].0 != entries@[i as int].0);
                }
            }
            insert_in_order(&mut sorted, w, Ghost(m), since);
            proof {
                let t = sorted@;
                let at = choose|at: int| 0 <= at <= s.len() && t == s.insert(at, w);
                assert(t[at] == w);
                assert forall|k: int| 0 <= k < t.len() implies is_fresh(
                    m,
                    since,
                    #[trigger] t[k],
                ) && exists|l: int|
                    0 <= l < i + 1 && #[trigger] entries@[l] == t[k] by {
                    if k < at {
                        assert(t[k] == s[k]);
                        let l = choose|l: int|
                            0 <= l < i && #[trigger] entries@[l] == #[trigger] s[k];
                        assert(entries@[l] == t[k]);
                    } else if k > at {
                        assert(t[k] == s[k - 1]);
                        let l = choose|l: int|
                            0 <= l < i && #[trigger] entries@[l] == #[trigger] s[k - 1];
                        assert(entries@[l] == t[k]);
                    } else {
                        assert(entries@[i as int] == t[k]);
                    }
                }
                assert forall|l: int|
                    0 <= l < i + 1 && (#[trigger] entries@[l]).1.1 >= since implies t.contains(
                    entries@[l],
                ) by {
                    if l < i {
                        let k = choose|k: int| 0 <= k < s.len() && s[k] == entries@[l];
                        if k < at {
                            assert(t[k] == s[k]);
                        } else {
                            assert(t[k + 1] == s[k]);
                        }
                    }
                }
                assert forall|a: int, b: int| 0 <= a < t.len() && 0 <= b < t.len() && a
                    != b implies t[a] != t[b] by {
                    let x = if a < at {
                        a
                    } else {
                        a - 1
                    };
                    let y = if b < at {
                        b
                    } else {
                        b - 1
                    };
                    if a != at && b != at {
                        assert(s[x] != s[y]);
                    } else if a == at {
                        assert(s[y].0 != w.0);
                    } else {
                        assert(s[x].0 != w.0);
                    }
                }
            }
        }
        i += 1;
    }
    proof {
        assert forall|w: Want| #[trigger] sorted@.contains(w) <==> is_fresh(m, since, w) by {
            if sorted@.contains(w) {
                let k = choose|k: int| 0 <= k < sorted@.len() && sorted@[k] == w;
                assert(is_fresh(m, since, sorted@[k]));
            }
            if is_fresh(m, since, w) {
                let l = choose|l: int| 0 <= l < entries@.len() && (#[trigger] entries@[l]).0 == w.0;
                assert(entries@[l] == w);
            }
        }
    }
    sorted
}

/// Puts a pair behind a list, unless it is there already.
fn push_new(list: &mut Vec<(u32, u32)>, key: (u32, u32))
    ensures
        final(list)@ == with_chunk(old(list)@, key),
{
    let mut i: usize = 0;
    while i < list.len()
        invariant
            i <= list@.len(),
            list@ == old(list)@,
            forall|k: int| 0 <= k < i ==> #[trigger] list@[k] != key,
        decreases list@.len() - i,
    {
        if list[i].0 == key.0 && list[i].1 == key.1 {
            assert(list@[i as int] == key);
            return;
        }
        i += 1;
    }
    list.push(key);
}

impl IncrementalCut {
    /// The root chunks, one for each instance.
    pub open spec fn root_chunks(&self) -> Seq<(u32, u32)> {
        self.lod_ids@.map_values(|id: u32| (id, 0u32))
    }

    /// The chunks, other than root chunks, that nodes of the cut lie in.
    pub open spec fn needed_chunks(&self) -> Seq<(u32, u32)> {
        needed_by(self.lod_ids@, self.chunk_refs@, self.lod_ids@.len() as int)
    }

    /// The pass before this one, if there is one.
    pub open spec fn last_fresh_pass(&self) -> u32 {
        if self.passes > 0 {
            (self.passes - 1) as u32
        } else {
            0
        }
    }

    /// `list` holds the root chunks, the needed ones and, behind them, the wanted ones.
    pub open spec fn asks_for(&self, list: Seq<(u32, u32)>) -> bool {
        &&& exists|ws: Seq<Want>|
            {
                &&& #[trigger] is_wanted(ws, wants(self.wanted), self.last_fresh_pass())
                &&& list == with_wanted(
                    self.root_chunks() + self.needed_chunks(),
                    self.lod_ids@,
                    ws,
                    ws.len() as int,
                )
            }
        &&& forall|i: int|
            0 <= i < self.lod_ids@.len() ==> is_needed(
                needed_of(words(#[trigger] self.chunk_refs@[i])),
                words(self.chunk_refs@[i]),
            )
    }

    /// The chunks that the cut asks for, by priority: the root chunk of each instance; the chunks
    /// that nodes of the cut lie in, in ascending order; and the chunks that were wanted in this
    /// pass or the one before, those for the largest pixel scale first, each unless it is listed
    /// already.
    pub fn chunks(&self) -> (r: Chunks)
        requires
            self.wf(),
        ensures
            r.roots == self.root_chunks().len(),
            r.needed == self.needed_chunks().len(),
            r.roots + r.needed <= r.list@.len(),
            self.asks_for(r.list@),
    {
        let mut list: Vec<(u32, u32)> = Vec::new();
        let n: usize = self.lod_ids.len();
        let mut i: usize = 0;
        while i < n
            invariant
                n == self.lod_ids@.len(),
                i <= n,
                list@ == self.lod_ids@.take(i as int).map_values(|id: u32| (id, 0u32)),
            decreases n - i,
        {
            list.push((self.lod_ids[i], 0));
            i += 1;
            proof {
                assert(list@ =~= self.lod_ids@.take(i as int).map_values(|id: u32| (id, 0u32)));
            }
        }
        proof {
            assert(self.lod_ids@.take(n as int) =~= self.lod_ids@);
        }
        let roots: usize = list.len();
        let ghost first = list@;
        let mut inst: usize = 0;
        proof {
            assert(first + needed_by(self.lod_ids@, self.chunk_refs@, 0) =~= first);
        }
        while inst < n
            invariant
                n == self.lod_ids@.len(),
                n == self.chunk_refs@.len(),
                inst <= n,
                list@ == first + needed_by(self.lod_ids@, self.chunk_refs@, inst as int),
                forall|i: int|
                    0 <= i < inst ==> is_needed(
                        needed_of(words(#[trigger] self.chunk_refs@[i])),
                        words(self.chunk_refs@[i]),
                    ),
            decreases n - inst,
        {
            let cs = needed_chunks(&self.chunk_refs[inst]);
            let id: u32 = self.lod_ids[inst];
            let ghost before = list@;
            let ghost pair = |c: u32| (self.lod_ids@[inst as int], c);
            let mut k: usize = 0;
            proof {
                assert(before + cs@.take(0).map_values(pair) =~= before);
            }
            while k < cs.len()
                invariant
                    k <= cs@.len(),
                    inst < self.lod_ids@.len(),
                    id == self.lod_ids@[inst as int],
                    pair == (|c: u32| (self.lod_ids@[inst as int], c)),
                    list@ == before + cs@.take(k as int).map_values(pair),
                decreases cs@.len() - k,
            {
                list.push((id, cs[k]));
                k += 1;
                proof {
                    assert(list@ =~= before + cs@.take(k as int).map_values(pair));
                }
            }
            proof {
                assert(cs@.take(k as int) =~= cs@);
                assert(list@ =~= first + needed_by(
                    self.lod_ids@,
                    self.chunk_refs@,
                    inst + 1,
                ));
            }
            inst += 1;
        }
        let needed: usize = list.len() - roots;
        let ghost second = list@;
        let fresh: u32 = if self.passes > 0 {
            self.passes - 1
        } else {
            0
        };
        let ordered = wanted_chunks(&self.wanted, fresh);
        let ghost ws = ordered@;
        let mut k: usize = 0;
        while k < ordered.len()
            invariant
                k <= ordered@.len(),
                self.wf(),
                ws == ordered@,
                is_wanted(ws, wants(self.wanted), self.last_fresh_pass()),
                list@ == with_wanted(second, self.lod_ids@, ws, k as int),
            decreases ordered@.len() - k,
        {
            let (inst, chunk) = ordered[k].0;
            proof {
                assert(ws.contains(ws[k as int]));
                assert(wants(self.wanted).contains_key(ws[k as int].0));
            }
            let id: u32 = self.lod_ids[inst as usize];
            push_new(&mut list, (id, chunk));
            k += 1;
        }
        proof {
            lemma_with_wanted_len(
                self.root_chunks() + self.needed_chunks(),
                self.lod_ids@,
                ws,
                ws.len() as int,
            );
        }
        Chunks { list, roots, needed }
    }
}

} // verus!
