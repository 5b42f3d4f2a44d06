//! Cuts through a forest.
//!
//! A forest is given by its roots and by the children of each node. A cut is a collection of
//! nodes such that every way from a root down to a leaf meets it exactly once: the whole
//! forest is covered, and nothing is covered twice.

use vstd::multiset::Multiset;
use vstd::prelude::*;
use vstd::seq_lib::group_to_multiset_ensures;

verus! {

/// `path` leads from a root down, from node to child.
pub open spec fn is_path<A>(
    roots: Set<A>,
    kids: spec_fn(A) -> Seq<A>,
    path: Seq<A>,
) -> bool {
    &&& path.len() > 0
    &&& roots.contains(path[0])
    &&& forall|i: int| 0 < i < path.len() ==> kids(path[i - 1]).contains(#[trigger] path[i])
}

/// `way` leads down from node to child, at least one step.
pub open spec fn is_way<A>(kids: spec_fn(A) -> Seq<A>, way: Seq<A>) -> bool {
    &&& way.len() > 1
    &&& forall|i: int| 0 < i < way.len() ==> kids(way[i - 1]).contains(#[trigger] way[i])
}

/// `x` lies below `n`.
pub open spec fn descends<A>(kids: spec_fn(A) -> Seq<A>, n: A, x: A) -> bool {
    exists|way: Seq<A>| #[trigger] is_way(kids, way) && way[0] == n && way.last() == x
}

/// How often the nodes of `path` occur in `cut`, all together.
pub open spec fn weight<A>(cut: Multiset<A>, path: Seq<A>) -> nat
    decreases path.len(),
{
    if path.len() == 0 {
        0
    } else {
        weight(cut, path.drop_last()) + cut.count(path.last())
    }
}

/// `n` lies on some path from a root.
pub open spec fn reachable<A>(roots: Set<A>, kids: spec_fn(A) -> Seq<A>, n: A) -> bool {
    exists|path: Seq<A>| #[trigger] is_path(roots, kids, path) && path.last() == n
}

/// Every way down from a root meets the cut at most once, a way down to a leaf exactly once,
/// and the cut holds nothing that cannot be reached from a root.
pub open spec fn valid_cut<A>(
    roots: Set<A>,
    kids: spec_fn(A) -> Seq<A>,
    cut: Multiset<A>,
) -> bool {
    &&& forall|path: Seq<A>| #[trigger] is_path(roots, kids, path) ==> weight(cut, path) <= 1
    &&& forall|path: Seq<A>| #[trigger]
        is_path(roots, kids, path) && kids(path.last()).len() == 0 ==> weight(cut, path) == 1
    &&& forall|n: A| #[trigger] cut.count(n) > 0 ==> reachable(roots, kids, n)
}

/// No node that can be reached is the child of two nodes, or twice the child of one, and no
/// root is a child.
pub open spec fn is_forest<A>(roots: Set<A>, kids: spec_fn(A) -> Seq<A>) -> bool {
    &&& forall|n: A| #[trigger] reachable(roots, kids, n) ==> kids(n).no_duplicates()
    &&& forall|m: A, n: A, x: A|
        reachable(roots, kids, m) && reachable(roots, kids, n) && #[trigger] kids(m).contains(x)
            && #[trigger] kids(n).contains(x) ==> m == n
    &&& forall|n: A, x: A|
        reachable(roots, kids, n) && #[trigger] kids(n).contains(x) ==> !roots.contains(x)
}

/// The cut with one node replaced by its children.
pub open spec fn refined<A>(kids: spec_fn(A) -> Seq<A>, cut: Multiset<A>, n: A) -> Multiset<A> {
    cut.remove(n).add(kids(n).to_multiset())
}

/// The cut with the children of one node replaced by that node.
pub open spec fn coarsened<A>(kids: spec_fn(A) -> Seq<A>, cut: Multiset<A>, n: A) -> Multiset<
    A,
> {
    cut.sub(kids(n).to_multiset()).insert(n)
}

proof fn lemma_prefix_is_path<A>(roots: Set<A>, kids: spec_fn(A) -> Seq<A>, path: Seq<A>)
    requires
        is_path(roots, kids, path),
        path.len() > 1,
    ensures
        is_path(roots, kids, path.drop_last()),
        kids(path.drop_last().last()).contains(path.last()),
        reachable(roots, kids, path.drop_last().last()),
{
    let p = path.drop_last();
    assert forall|i: int| 0 < i < p.len() implies kids(p[i - 1]).contains(#[trigger] p[i]) by {
        assert(p[i] == path[i]);
        assert(p[i - 1] == path[i - 1]);
    }
    assert(path[path.len() - 1] == path.last());
}

proof fn lemma_extended_is_path<A>(
    roots: Set<A>,
    kids: spec_fn(A) -> Seq<A>,
    path: Seq<A>,
    x: A,
)
    requires
        is_path(roots, kids, path),
        kids(path.last()).contains(x),
    ensures
        is_path(roots, kids, path.push(x)),
        path.push(x).drop_last() == path,
        reachable(roots, kids, x),
{
    let p = path.push(x);
    assert forall|i: int| 0 < i < p.len() implies kids(p[i - 1]).contains(#[trigger] p[i]) by {
        assert(p[i - 1] == path[i - 1]);
        if i < path.len() {
            assert(p[i] == path[i]);
        }
    }
    assert(p.drop_last() =~= path);
    assert(is_path(roots, kids, p));
    assert(p.last() == x);
}

/// How often a node that ends a path occurs among the children of `n`: once if `n` is the node
/// before it, else not at all.
proof fn lemma_occurrence_among_kids<A>(
    roots: Set<A>,
    kids: spec_fn(A) -> Seq<A>,
    path: Seq<A>,
    n: A,
)
    requires
        is_forest(roots, kids),
        is_path(roots, kids, path),
        reachable(roots, kids, n),
    ensures
        path.len() > 1 && path.drop_last().last() == n ==> kids(n).to_multiset().count(
            path.last(),
        ) == 1,
        path.len() == 1 || path.drop_last().last() != n ==> kids(n).to_multiset().count(
            path.last(),
        ) == 0,
{
    broadcast use group_to_multiset_ensures;

    let x = path.last();
    kids(n).lemma_multiset_has_no_duplicates();
    if path.len() > 1 {
        lemma_prefix_is_path(roots, kids, path);
    } else {
        assert(path[0] == x);
    }
}

/// Refining moves the weight of a path only if the path ends in the refined node.
proof fn lemma_weight_after_refining<A>(
    roots: Set<A>,
    kids: spec_fn(A) -> Seq<A>,
    cut: Multiset<A>,
    n: A,
    path: Seq<A>,
)
    requires
        is_forest(roots, kids),
        is_path(roots, kids, path),
        reachable(roots, kids, n),
        cut.count(n) > 0,
    ensures
        weight(refined(kids, cut, n), path) + (if path.last() == n {
            1int
        } else {
            0
        }) == weight(cut, path),
    decreases path.len(),
{
    let fine = refined(kids, cut, n);
    lemma_occurrence_among_kids(roots, kids, path, n);
    if path.len() > 1 {
        lemma_prefix_is_path(roots, kids, path);
        lemma_weight_after_refining(roots, kids, cut, n, path.drop_last());
    } else {
        assert(weight(fine, path.drop_last()) == 0);
        assert(weight(cut, path.drop_last()) == 0);
    }
}

/// Replacing a node of a valid cut by its children, if it has any, gives a valid cut.
pub proof fn law_refining_keeps_cut_valid<A>(
    roots: Set<A>,
    kids: spec_fn(A) -> Seq<A>,
    cut: Multiset<A>,
    n: A,
)
    requires
        is_forest(roots, kids),
        valid_cut(roots, kids, cut),
        cut.count(n) > 0,
        kids(n).len() > 0,
    ensures
        valid_cut(roots, kids, refined(kids, cut, n)),
{
    broadcast use group_to_multiset_ensures;

    let fine = refined(kids, cut, n);
    assert(reachable(roots, kids, n));
    assert forall|path: Seq<A>| #[trigger] is_path(roots, kids, path) implies weight(fine, path)
        <= 1 by {
        lemma_weight_after_refining(roots, kids, cut, n, path);
    }
    assert forall|path: Seq<A>| #[trigger]
        is_path(roots, kids, path) && kids(path.last()).len() == 0 implies weight(fine, path)
        == 1 by {
        lemma_weight_after_refining(roots, kids, cut, n, path);
    }
    assert forall|x: A| #[trigger] fine.count(x) > 0 implies reachable(roots, kids, x) by {
        if cut.count(x) == 0 {
            assert(kids(n).contains(x));
            let path = choose|path: Seq<A>| #[trigger]
                is_path(roots, kids, path) && path.last() == n;
            lemma_extended_is_path(roots, kids, path, x);
        }
    }
}

/// Replacing the children of a node, if it has any and all of them are in the cut, by that
/// node gives a valid cut.
pub proof fn law_coarsening_keeps_cut_valid<A>(
    roots: Set<A>,
    kids: spec_fn(A) -> Seq<A>,
    cut: Multiset<A>,
    n: A,
)
    requires
        is_forest(roots, kids),
        valid_cut(roots, kids, cut),
        reachable(roots, kids, n),
        kids(n).len() > 0,
        forall|x: A| #[trigger] kids(n).contains(x) ==> cut.count(x) > 0,
    ensures
        valid_cut(roots, kids, coarsened(kids, cut, n)),
        refined(kids, coarsened(kids, cut, n), n) == cut,
{
    broadcast use group_to_multiset_ensures;

    let coarse = coarsened(kids, cut, n);
    kids(n).lemma_multiset_has_no_duplicates();
    assert forall|x: A| kids(n).to_multiset().count(x) <= cut.count(x) by {
        if kids(n).to_multiset().count(x) > 0 {
            assert(kids(n).to_multiset().contains(x));
            assert(kids(n).contains(x));
        }
    }
    assert(refined(kids, coarse, n) =~= cut);
    assert(coarse.count(n) > 0);
    assert forall|path: Seq<A>| #[trigger] is_path(roots, kids, path) implies weight(coarse, path)
        <= 1 by {
        lemma_weight_after_refining(roots, kids, coarse, n, path);
        if path.last() == n {
            let x = kids(n)[0];
            assert(kids(n).contains(x));
            lemma_extended_is_path(roots, kids, path, x);
            assert(weight(cut, path.push(x)) <= 1);
            assert(path.push(x).last() == x);
        }
    }
    assert forall|path: Seq<A>| #[trigger]
        is_path(roots, kids, path) && kids(path.last()).len() == 0 implies weight(coarse, path)
        == 1 by {
        lemma_weight_after_refining(roots, kids, coarse, n, path);
    }
    assert forall|x: A| #[trigger] coarse.count(x) > 0 implies reachable(roots, kids, x) by {
        if x != n {
            assert(cut.count(x) > 0);
        }
    }
}

/// Where the cut is just the roots, a path meets it at its first node and nowhere else.
proof fn lemma_weight_of_root_path<A>(
    roots: Set<A>,
    kids: spec_fn(A) -> Seq<A>,
    cut: Multiset<A>,
    path: Seq<A>,
)
    requires
        is_forest(roots, kids),
        is_path(roots, kids, path),
        forall|n: A| #[trigger]
            cut.count(n) == (if roots.contains(n) {
                1nat
            } else {
                0nat
            }),
    ensures
        weight(cut, path) == 1,
    decreases path.len(),
{
    if path.len() > 1 {
        lemma_prefix_is_path(roots, kids, path);
        lemma_weight_of_root_path(roots, kids, cut, path.drop_last());
    } else {
        assert(path.last() == path[0]);
        assert(weight(cut, path.drop_last()) == 0);
    }
}

/// The roots themselves, each once, are a valid cut.
pub proof fn law_roots_are_a_valid_cut<A>(
    roots: Set<A>,
    kids: spec_fn(A) -> Seq<A>,
    cut: Multiset<A>,
)
    requires
        is_forest(roots, kids),
        forall|n: A| #[trigger]
            cut.count(n) == (if roots.contains(n) {
                1nat
            } else {
                0nat
            }),
    ensures
        valid_cut(roots, kids, cut),
{
    assert forall|path: Seq<A>| #[trigger] is_path(roots, kids, path) implies weight(cut, path)
        == 1 by {
        lemma_weight_of_root_path(roots, kids, cut, path);
    }
    assert forall|n: A| #[trigger] cut.count(n) > 0 implies reachable(roots, kids, n) by {
        let path = seq![n];
        assert(is_path(roots, kids, path));
        assert(path.last() == n);
    }
}

/// A valid cut holds no node twice, and no node together with one above it.
pub proof fn law_valid_cut_has_no_overlap<A>(
    roots: Set<A>,
    kids: spec_fn(A) -> Seq<A>,
    cut: Multiset<A>,
    path: Seq<A>,
    i: int,
    j: int,
)
    requires
        valid_cut(roots, kids, cut),
        is_path(roots, kids, path),
        0 <= i < j < path.len(),
    ensures
        cut.count(path[i]) + cut.count(path[j]) <= 1,
{
    lemma_weight_counts(cut, path, i, j);
}

/// A valid cut that holds a node holds nothing above it.
pub proof fn law_nothing_above_a_cut_node<A>(
    roots: Set<A>,
    kids: spec_fn(A) -> Seq<A>,
    cut: Multiset<A>,
    n: A,
    x: A,
)
    requires
        valid_cut(roots, kids, cut),
        reachable(roots, kids, n),
        descends(kids, n, x),
        cut.count(x) > 0,
    ensures
        cut.count(n) == 0,
{
    let path = choose|path: Seq<A>| #[trigger] is_path(roots, kids, path) && path.last() == n;
    let way = choose|way: Seq<A>| #[trigger] is_way(kids, way) && way[0] == n && way.last() == x;
    let whole = path + way.skip(1);
    let at = path.len() - 1;
    assert forall|i: int| 0 < i < whole.len() implies kids(whole[i - 1]).contains(
        #[trigger] whole[i],
    ) by {
        if i < path.len() {
            assert(whole[i] == path[i]);
            assert(whole[i - 1] == path[i - 1]);
        } else {
            assert(whole[i] == way[i - at]);
            assert(whole[i - 1] == way[i - at - 1]);
        }
    }
    assert(is_path(roots, kids, whole));
    law_valid_cut_has_no_overlap(roots, kids, cut, whole, at, whole.len() - 1);
}

/// Going one step further down.
pub proof fn lemma_descends_further<A>(kids: spec_fn(A) -> Seq<A>, n: A, m: A, x: A)
    requires
        n == m || descends(kids, n, m),
        kids(m).contains(x),
    ensures
        descends(kids, n, x),
{
    if n == m {
        let way = seq![n, x];
        assert(is_way(kids, way));
        assert(way[0] == n && way.last() == x);
    } else {
        let way = choose|way: Seq<A>| #[trigger] is_way(kids, way) && way[0] == n && way.last() == m;
        let longer = way.push(x);
        assert forall|i: int| 0 < i < longer.len() implies kids(longer[i - 1]).contains(
            #[trigger] longer[i],
        ) by {
            assert(longer[i - 1] == way[i - 1]);
            if i < way.len() {
                assert(longer[i] == way[i]);
            }
        }
        assert(is_way(kids, longer));
        assert(longer[0] == n && longer.last() == x);
    }
}

proof fn lemma_weight_counts<A>(cut: Multiset<A>, path: Seq<A>, i: int, j: int)
    requires
        0 <= i < j < path.len(),
    ensures
        cut.count(path[i]) + cut.count(path[j]) <= weight(cut, path),
    decreases path.len(),
{
    if j == path.len() - 1 {
        lemma_weight_counts_one(cut, path.drop_last(), i);
        assert(path.drop_last()[i] == path[i]);
    } else {
        lemma_weight_counts(cut, path.drop_last(), i, j);
        assert(path.drop_last()[i] == path[i]);
        assert(path.drop_last()[j] == path[j]);
    }
}

proof fn lemma_weight_counts_one<A>(cut: Multiset<A>, path: Seq<A>, i: int)
    requires
        0 <= i < path.len(),
    ensures
        cut.count(path[i]) <= weight(cut, path),
    decreases path.len(),
{
    if i < path.len() - 1 {
        lemma_weight_counts_one(cut, path.drop_last(), i);
        assert(path.drop_last()[i] == path[i]);
    }
}

} // verus!
