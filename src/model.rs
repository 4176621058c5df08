//! Mathematical model of a graph given by a children function.
use vstd::multiset::Multiset;
use vstd::prelude::*;

verus! {

/// Number of times `x` occurs in `s`.
pub open spec fn occurrences<I>(s: Seq<I>, x: I) -> nat {
    s.to_multiset().count(x)
}

/// The ancestors of `t` when the nodes are visited in the order `e`: each
/// node `n` of `e` appears once for every occurrence of `t` among its children.
pub open spec fn ancestors_along<I>(children: spec_fn(I) -> Seq<I>, e: Seq<I>, t: I) -> Seq<I>
    decreases e.len(),
{
    if e.len() == 0 {
        Seq::empty()
    } else {
        ancestors_along(children, e.drop_last(), t) + Seq::new(
            occurrences(children(e.last()), t),
            |_k: int| e.last(),
        )
    }
}

/// `list` orders the nodes of a graph topologically: it holds every node
/// exactly once and nothing else, and each node comes strictly before each of
/// its children.
pub open spec fn is_topological_order<I>(
    has_node: spec_fn(I) -> bool,
    children: spec_fn(I) -> Seq<I>,
    list: Seq<I>,
) -> bool {
    &&& list.no_duplicates()
    &&& forall|k: int| 0 <= k < list.len() ==> has_node(#[trigger] list[k])
    &&& forall|i: I| #[trigger] has_node(i) ==> list.contains(i)
    &&& forall|j: int, k: int|
        0 <= j < list.len() && 0 <= k < list.len() && occurrences(
            children(list[j]),
            list[k],
        ) > 0 ==> j < k
}

/// `path` is a cycle of nodes: each is followed by one of its children, and
/// the last by the first (a single node with an edge to itself is a cycle).
pub open spec fn is_cycle<I>(
    has_node: spec_fn(I) -> bool,
    children: spec_fn(I) -> Seq<I>,
    path: Seq<I>,
) -> bool {
    &&& path.len() >= 1
    &&& forall|k: int| 0 <= k < path.len() ==> has_node(#[trigger] path[k])
    &&& forall|k: int|
        0 <= k < path.len() - 1 ==> occurrences(children(#[trigger] path[k]), path[k + 1]) > 0
    &&& occurrences(children(path.last()), path[0]) > 0
}

/// Along a path whose nodes all stand in `list`, where every edge between
/// entries of `list` points forward, positions rise by at least one per step.
proof fn lemma_path_rises<I>(children: spec_fn(I) -> Seq<I>, path: Seq<I>, list: Seq<I>, k: int)
    requires
        0 <= k < path.len(),
        forall|i: int|
            0 <= i < path.len() ==> 0 <= #[trigger] list.index_of(path[i]) < list.len() && list[list.index_of(path[i])] == path[i],
        forall|i: int|
            0 <= i < path.len() - 1 ==> occurrences(children(#[trigger] path[i]), path[i + 1]) > 0,
        forall|j: int, m: int|
            0 <= j < list.len() && 0 <= m < list.len() && occurrences(children(list[j]), list[m]) > 0
                ==> j < m,
    ensures
        list.index_of(path[0]) + k <= list.index_of(path[k]),
    decreases k,
{
    if k > 0 {
        lemma_path_rises(children, path, list, k - 1);
        assert(occurrences(children(path[k - 1]), path[k]) > 0);
        assert(occurrences(children(list[list.index_of(path[k - 1])]), list[list.index_of(path[k])]) > 0);
    }
}

/// A graph with a cycle has no topological order.
pub proof fn lemma_cycle_has_no_order<I>(
    has_node: spec_fn(I) -> bool,
    children: spec_fn(I) -> Seq<I>,
    path: Seq<I>,
    list: Seq<I>,
)
    requires
        is_cycle(has_node, children, path),
    ensures
        !is_topological_order(has_node, children, list),
{
    if is_topological_order(has_node, children, list) {
        assert forall|k: int| 0 <= k < path.len() implies 0 <= #[trigger] list.index_of(path[k]) < list.len()
            && list[list.index_of(path[k])] == path[k] by {
            assert(has_node(path[k]));
            assert(list.contains(path[k]));
        }
        lemma_path_rises(children, path, list, path.len() - 1);
        let last = path.len() - 1;
        assert(path.last() == path[last]);
        assert(occurrences(children(list[list.index_of(path[last])]), list[list.index_of(path[0])]) > 0);
    }
}

/// Whether the graph has a cycle among the nodes that `has_node` admits.
pub open spec fn has_cycle<I>(has_node: spec_fn(I) -> bool, children: spec_fn(I) -> Seq<I>) -> bool {
    exists|path: Seq<I>| #[trigger] is_cycle(has_node, children, path)
}

/// A position `v` in `e` whose node is live and has the node at position `w`
/// among its children.
pub open spec fn live_parent<I>(
    children: spec_fn(I) -> Seq<I>,
    e: Seq<I>,
    live: spec_fn(int) -> bool,
    w: int,
) -> int {
    choose|v: int| 0 <= v < e.len() && live(v) && occurrences(children(e[v]), e[w]) > 0
}

/// The position reached from `w` after `k` steps from node to live parent.
pub open spec fn back_walk<I>(
    children: spec_fn(I) -> Seq<I>,
    e: Seq<I>,
    live: spec_fn(int) -> bool,
    w: int,
    k: nat,
) -> int
    decreases k,
{
    if k == 0 {
        w
    } else {
        live_parent(children, e, live, back_walk(children, e, live, w, (k - 1) as nat))
    }
}

proof fn lemma_back_walk<I>(
    children: spec_fn(I) -> Seq<I>,
    e: Seq<I>,
    live: spec_fn(int) -> bool,
    w: int,
    k: nat,
)
    requires
        0 <= w < e.len(),
        live(w),
        forall|x: int|
            0 <= x < e.len() && #[trigger] live(x) ==> exists|v: int|
                0 <= v < e.len() && live(v) && occurrences(children(e[v]), e[x]) > 0,
    ensures
        0 <= back_walk(children, e, live, w, k) < e.len(),
        live(back_walk(children, e, live, w, k)),
        k > 0 ==> occurrences(
            children(e[back_walk(children, e, live, w, k)]),
            e[back_walk(children, e, live, w, (k - 1) as nat)],
        ) > 0,
    decreases k,
{
    if k > 0 {
        lemma_back_walk(children, e, live, w, (k - 1) as nat);
    }
}

/// Where every live node has a live parent, and some node is live, the live
/// nodes hold a cycle.
pub proof fn lemma_live_parents_give_cycle<I>(
    children: spec_fn(I) -> Seq<I>,
    e: Seq<I>,
    live: spec_fn(int) -> bool,
    w: int,
)
    requires
        0 <= w < e.len(),
        live(w),
        forall|x: int|
            0 <= x < e.len() && #[trigger] live(x) ==> exists|v: int|
                0 <= v < e.len() && live(v) && occurrences(children(e[v]), e[x]) > 0,
    ensures
        has_cycle(|x: I| e.contains(x), children),
{
    let n = e.len();
    let walk = Seq::new(n + 1, |k: int| back_walk(children, e, live, w, k as nat));
    assert forall|k: int| 0 <= k < walk.len() implies 0 <= #[trigger] walk[k] < n by {
        lemma_back_walk(children, e, live, w, k as nat);
    }
    if walk.no_duplicates() {
        walk.unique_seq_to_set();
        vstd::set_lib::lemma_int_range(0, n as int);
        assert(walk.to_set().subset_of(vstd::set_lib::set_int_range(0, n as int)));
        vstd::set_lib::lemma_len_subset(walk.to_set(), vstd::set_lib::set_int_range(0, n as int));
    }
    let (i, j) = choose|i: int, j: int| 0 <= i < walk.len() && 0 <= j < walk.len() && i != j && walk[i] == walk[j];
    let (lo, hi) = if i < j { (i, j) } else { (j, i) };
    let path = Seq::new((hi - lo) as nat, |m: int| e[back_walk(children, e, live, w, (hi - m) as nat)]);
    assert forall|m: int| 0 <= m < path.len() implies (|x: I| e.contains(x))(#[trigger] path[m]) by {
        lemma_back_walk(children, e, live, w, (hi - m) as nat);
    }
    assert forall|m: int| 0 <= m < path.len() - 1 implies occurrences(children(#[trigger] path[m]), path[m + 1]) > 0 by {
        lemma_back_walk(children, e, live, w, (hi - m) as nat);
        assert((hi - m - 1) as nat == ((hi - m) as nat - 1) as nat);
    }
    lemma_back_walk(children, e, live, w, (lo + 1) as nat);
    assert(path.last() == e[back_walk(children, e, live, w, (lo + 1) as nat)]);
    assert(walk[lo] == walk[hi]);
    assert(path[0] == e[back_walk(children, e, live, w, lo as nat)]);
    assert(is_cycle(|x: I| e.contains(x), children, path));
}

/// A sequence of `n` copies of `x` holds `x` exactly `n` times and nothing else.
pub proof fn lemma_repeat_occurrences<I>(n: nat, x: I, y: I)
    ensures
        occurrences(Seq::new(n, |_k: int| x), y) == if x == y {
            n
        } else {
            0
        },
    decreases n,
{
    broadcast use vstd::seq_lib::group_to_multiset_ensures;
    broadcast use vstd::multiset::group_multiset_axioms;

    let s = Seq::new(n, |_k: int| x);
    if n == 0 {
        assert(s.to_multiset() =~= Multiset::empty());
    } else {
        let t = Seq::new((n - 1) as nat, |_k: int| x);
        lemma_repeat_occurrences((n - 1) as nat, x, y);
        assert(s =~= t.push(x));
    }
}

/// Along an enumeration without duplicates, node `a` occurs among the
/// ancestors of `t` once for each occurrence of `t` among the children of
/// `a` if `a` is enumerated, and never otherwise.
pub proof fn lemma_ancestors_along_occurrences<I>(
    children: spec_fn(I) -> Seq<I>,
    e: Seq<I>,
    t: I,
    a: I,
)
    requires
        e.no_duplicates(),
    ensures
        occurrences(ancestors_along(children, e, t), a) == if e.contains(a) {
            occurrences(children(a), t)
        } else {
            0
        },
    decreases e.len(),
{
    broadcast use vstd::seq_lib::group_to_multiset_ensures;
    broadcast use vstd::multiset::group_multiset_axioms;

    if e.len() == 0 {
        assert(ancestors_along(children, e, t).to_multiset() =~= Multiset::empty());
    } else {
        let d = e.drop_last();
        let x = e.last();
        let tail = Seq::new(occurrences(children(x), t), |_k: int| x);
        assert(d.no_duplicates());
        lemma_ancestors_along_occurrences(children, d, t, a);
        lemma_repeat_occurrences(occurrences(children(x), t), x, a);
        vstd::seq_lib::lemma_multiset_commutative(ancestors_along(children, d, t), tail);
        assert(e =~= d.push(x));
        if a == x {
            assert(!d.contains(a));
        }
        assert(e.contains(a) <==> (d.contains(a) || a == x));
    }
}

/// Counting a prefix one element longer.
pub proof fn lemma_occurrences_take<I>(s: Seq<I>, j: int, x: I)
    requires
        0 <= j < s.len(),
    ensures
        occurrences(s.take(j + 1), x) == occurrences(s.take(j), x) + if s[j] == x {
            1nat
        } else {
            0nat
        },
        occurrences(s.take(j + 1), x) <= occurrences(s, x),
    decreases s.len() - j,
{
    broadcast use vstd::seq_lib::group_to_multiset_ensures;
    broadcast use vstd::multiset::group_multiset_axioms;

    assert(s.take(j + 1) =~= s.take(j).push(s[j]));
    if j + 1 < s.len() {
        lemma_occurrences_take(s, j + 1, x);
    } else {
        assert(s.take(j + 1) =~= s);
    }
}

/// A sequence without duplicates whose entries all stand in `e`, and which is
/// as long as `e`, holds every entry of `e`.
pub proof fn lemma_covers<I>(e: Seq<I>, list: Seq<I>)
    requires
        e.no_duplicates(),
        list.no_duplicates(),
        list.len() == e.len(),
        forall|k: int| 0 <= k < list.len() ==> e.contains(#[trigger] list[k]),
    ensures
        forall|x: I| #[trigger] e.contains(x) ==> list.contains(x),
{
    e.unique_seq_to_set();
    list.unique_seq_to_set();
    assert(list.to_set().subset_of(e.to_set()));
    vstd::set_lib::lemma_subset_equality(list.to_set(), e.to_set());
    assert forall|x: I| #[trigger] e.contains(x) implies list.contains(x) by {
        assert(e.to_set().contains(x));
        assert(list.to_set().contains(x));
    }
}

/// Placing the node at position `c` of the enumeration `e` after the nodes
/// of `list`, where no edge into it still counts, keeps `list` free of
/// duplicates and every edge between its nodes pointing forward; and no
/// edge leaves it for a placed node or for itself.
pub proof fn lemma_place<I>(
    children: spec_fn(I) -> Seq<I>,
    e: Seq<I>,
    done: Seq<bool>,
    rem: Seq<Multiset<I>>,
    list: Seq<I>,
    pos: Seq<int>,
    c: int,
)
    requires
        e.no_duplicates(),
        e.to_set().len() == e.len(),
        done.len() == e.len(),
        rem.len() == e.len(),
        0 <= c < e.len(),
        !done[c],
        rem[c].len() == 0,
        forall|w: int| 0 <= w < e.len() && #[trigger] done[w] ==> rem[w].len() == 0,
        forall|q: int, w: int|
            0 <= q < e.len() && 0 <= w < e.len() ==> #[trigger] rem[q].count(e[w]) == if done[w] {
                0
            } else {
                occurrences(children(e[w]), e[q])
            },
        list.no_duplicates(),
        pos.len() == list.len(),
        forall|k: int|
            0 <= k < pos.len() ==> 0 <= #[trigger] pos[k] < e.len() && done[pos[k]] && list[k] == e[pos[k]],
        forall|j: int, k: int|
            0 <= j < list.len() && 0 <= k < list.len() && occurrences(children(list[j]), list[k]) > 0
                ==> j < k,
    ensures
        list.push(e[c]).no_duplicates(),
        list.len() + 1 <= e.len(),
        forall|w: int| 0 <= w < e.len() && #[trigger] done[w] ==> occurrences(children(e[c]), e[w]) == 0,
        occurrences(children(e[c]), e[c]) == 0,
        forall|j: int, k: int|
            0 <= j < list.len() + 1 && 0 <= k < list.len() + 1 && occurrences(
                children(list.push(e[c])[j]),
                list.push(e[c])[k],
            ) > 0 ==> j < k,
{
    broadcast use vstd::multiset::group_multiset_axioms;

    let x = e[c];
    let l2 = list.push(x);
    assert forall|w: int| 0 <= w < e.len() && #[trigger] done[w] implies occurrences(children(x), e[w]) == 0 by {
        vstd::multiset::lemma_multiset_empty_len(rem[w]);
        assert(rem[w].count(x) == 0);
    }
    vstd::multiset::lemma_multiset_empty_len(rem[c]);
    assert(rem[c].count(x) == 0);
    assert forall|k: int| 0 <= k < list.len() implies list[k] != x by {
        assert(e[pos[k]] == list[k]);
        assert(pos[k] != c);
    }
    assert(l2.no_duplicates()) by {
        assert forall|j: int, k: int| 0 <= j < l2.len() && 0 <= k < l2.len() && j != k implies l2[j] != l2[k] by {
            if j < list.len() && k < list.len() {
                assert(list[j] != list[k]);
            }
        }
    }
    assert forall|k: int| 0 <= k < l2.len() implies e.contains(#[trigger] l2[k]) by {
        if k < list.len() {
            assert(e[pos[k]] == l2[k]);
        } else {
            assert(e[c] == l2[k]);
        }
    }
    l2.unique_seq_to_set();
    assert(l2.to_set().subset_of(e.to_set()));
    vstd::set_lib::lemma_len_subset(l2.to_set(), e.to_set());
    assert forall|j: int, k: int|
        0 <= j < l2.len() && 0 <= k < l2.len() && occurrences(children(l2[j]), l2[k]) > 0 implies j < k by {
        if j == list.len() && k < list.len() {
            assert(l2[k] == e[pos[k]]);
            assert(done[pos[k]]);
        }
        if j < list.len() && k < list.len() {
            assert(l2[j] == list[j] && l2[k] == list[k]);
        }
    }
}

} // verus!
