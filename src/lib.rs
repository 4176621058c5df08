//! Directed graphs over indexable containers, with ancestor lookup and
//! topological ordering.
use vstd::prelude::*;

pub mod model;
pub mod ops;

use std::collections::HashMap;

use vstd::laws_eq::obeys_concrete_eq;
use vstd::multiset::Multiset;

use crate::model::{
    ancestors_along, has_cycle, is_cycle, is_topological_order, lemma_ancestors_along_occurrences,
    lemma_covers, lemma_cycle_has_no_order, lemma_live_parents_give_cycle, lemma_occurrences_take,
    lemma_place, occurrences,
};
use crate::ops::{enumerates, indices_of, SuperIndex};

verus! {

broadcast use vstd::seq_lib::group_to_multiset_ensures;

/// Whether two indices are equal.
fn same_index<I: Eq>(a: &I, b: &I) -> (r: bool)
    requires
        obeys_concrete_eq::<I>(),
    ensures
        r == (*a == *b),
{
    proof {
        reveal(obeys_concrete_eq);
    }
    a.eq(b)
}

/// Position of index `x` among the enumerated `nodes`.
fn position_of<I: Eq, T>(nodes: &Vec<(I, &T)>, x: &I) -> (r: Option<usize>)
    requires
        obeys_concrete_eq::<I>(),
    ensures
        r matches Some(q) ==> q < nodes@.len() && nodes@[q as int].0 == *x,
        r is None ==> !indices_of(nodes@).contains(*x),
{
    let mut q: usize = 0;
    while q < nodes.len()
        invariant
            obeys_concrete_eq::<I>(),
            q <= nodes@.len(),
            forall|k: int| 0 <= k < q ==> nodes@[k].0 != *x,
        decreases nodes@.len() - q,
    {
        if same_index(&nodes[q].0, x) {
            return Some(q);
        }
        q = q + 1;
    }
    proof {
        let s = indices_of(nodes@);
        assert forall|k: int| 0 <= k < s.len() implies s[k] != *x by {
            assert(nodes@[k].0 != *x);
        }
    }
    None
}

/// Pushing onto a sequence keeps what it contains.
proof fn lemma_push_contains<T>(s: Seq<T>, x: T)
    ensures
        s.push(x).contains(x),
        forall|y: T| s.contains(y) ==> #[trigger] s.push(x).contains(y),
{
    assert(s.push(x)[s.len() as int] == x);
    assert forall|y: T| s.contains(y) implies #[trigger] s.push(x).contains(y) by {
        let k = s.index_of(y);
        assert(s.push(x)[k] == y);
    }
}

/// A copy of the indices `v`.
fn copy_indices<I: Copy>(v: &Vec<I>) -> (r: Vec<I>)
    ensures
        r@ == v@,
{
    let mut r: Vec<I> = Vec::new();
    let mut k: usize = 0;
    while k < v.len()
        invariant
            k <= v@.len(),
            r@ == v@.take(k as int),
        decreases v@.len() - k,
    {
        r.push(v[k]);
        k = k + 1;
        proof {
            assert(r@ =~= v@.take(k as int));
        }
    }
    proof {
        assert(v@.take(k as int) =~= v@);
    }
    r
}

/// A directed graph over the nodes of a container implementing [`SuperIndex`].
pub trait SimpleGraph<I: Eq + std::hash::Hash + Copy> {
    type C: SuperIndex<I>;

    /// The node container.
    spec fn container(&self) -> Self::C;

    /// The indices of the children of node `i`, in order.
    spec fn child_seq(&self, i: I) -> Seq<I>;

    /// Gets a reference to the node container.
    fn nodes(&self) -> (r: &Self::C)
        ensures
            *r == self.container(),
    ;

    /// Gets the indices of the children of the node with index `index`.
    fn children(&self, index: I) -> (r: Vec<I>)
        requires
            self.container().behaves(),
            self.container().has_index(index),
        ensures
            r@ == self.child_seq(index),
    ;

    /// Gets all ancestors of node `i`: every node that has `i` among its
    /// children, once per such occurrence, in enumeration order.
    ///
    /// This scans all nodes and their children.
    fn ancestors(&self, i: I) -> (r: Vec<I>)
        requires
            obeys_concrete_eq::<I>(),
            self.container().behaves(),
        ensures
            exists|e: Seq<I>|
                #![trigger enumerates(&self.container(), e)]
                enumerates(&self.container(), e) && r@ == ancestors_along(
                    |n: I| self.child_seq(n),
                    e,
                    i,
                ),
    {
        let container = self.nodes();
        let nodes = container.enumerate();
        let ghost e = indices_of(nodes@);
        let ghost ch = |n: I| self.child_seq(n);
        let mut res: Vec<I> = Vec::new();
        let mut j: usize = 0;
        while j < nodes.len()
            invariant
                self.container().behaves(),
                e == indices_of(nodes@),
                ch == (|n: I| self.child_seq(n)),
                0 <= j <= nodes@.len(),
                forall|k: int| 0 <= k < nodes@.len() ==> self.container().has_index(#[trigger] nodes@[k].0),
                obeys_concrete_eq::<I>(),
                res@ == ancestors_along(ch, e.take(j as int), i),
            decreases nodes@.len() - j,
        {
            let idx = nodes[j].0;
            let kids = self.children(idx);
            let ghost before = res@;
            let mut c: usize = 0;
            while c < kids.len()
                invariant
                    kids@ == self.child_seq(idx),
                    0 <= c <= kids@.len(),
                    obeys_concrete_eq::<I>(),
                    res@ == before + Seq::new(occurrences(kids@.take(c as int), i), |_k: int| idx),
                decreases kids@.len() - c,
            {
                proof {
                    assert(kids@.take(c + 1) == kids@.take(c as int).push(kids@[c as int]));
                }
                if same_index(&kids[c], &i) {
                    res.push(idx);
                }
                c = c + 1;
                proof {
                    assert(res@ =~= before + Seq::new(occurrences(kids@.take(c as int), i), |_k: int| idx));
                }
            }
            proof {
                assert(kids@.take(c as int) == kids@);
                let t = e.take(j + 1);
                assert(t.drop_last() == e.take(j as int));
                assert(t.last() == idx);
            }
            j = j + 1;
        }
        proof {
            assert(e.take(j as int) == e);
            assert(enumerates(&self.container(), e));
        }
        res
    }

    /// Orders all nodes so that each comes before its children (Kahn's
    /// method), or reports that the edges between nodes form a cycle.
    ///
    /// In-degrees count edge occurrences and are taken from [`Self::ancestors`].
    /// Among the nodes ready to be placed, the one that became ready last is
    /// placed first.
    fn get_topological_order(&self) -> (r: Result<Vec<I>, &'static str>)
        requires
            obeys_concrete_eq::<I>(),
            self.container().behaves(),
        ensures
            r matches Ok(list) ==> is_topological_order(
                |n: I| self.container().has_index(n),
                |n: I| self.child_seq(n),
                list@,
            ),
            r is Err <==> has_cycle(|n: I| self.container().has_index(n), |n: I| self.child_seq(n)),
    {
        let container = self.nodes();
        let nodes = container.enumerate();
        let ghost e = indices_of(nodes@);
        let ghost ch = |n: I| self.child_seq(n);
        let n = nodes.len();
        proof {
            assert(enumerates(&self.container(), e));
        }

        // in-degree of each node, by its position in `nodes`
        let mut in_degree: Vec<usize> = Vec::new();
        let mut done: Vec<bool> = Vec::new();
        // the sources of the edges into each node that still count
        let ghost mut rem: Seq<Multiset<I>> = Seq::empty();
        let mut p: usize = 0;
        while p < n
            invariant
                n == nodes@.len(),
                e == indices_of(nodes@),
                ch == (|n: I| self.child_seq(n)),
                enumerates(&self.container(), e),
                obeys_concrete_eq::<I>(),
                self.container().behaves(),
                p <= n,
                in_degree@.len() == p,
                done@.len() == p,
                rem.len() == p,
                forall|q: int| 0 <= q < p ==> !done@[q],
                forall|q: int| 0 <= q < p ==> in_degree@[q] == (#[trigger] rem[q]).len(),
                forall|q: int, u: I|
                    0 <= q < p ==> #[trigger] rem[q].count(u) == if e.contains(u) {
                        occurrences(ch(u), e[q])
                    } else {
                        0
                    },
            decreases n - p,
        {
            let a = self.ancestors(nodes[p].0);
            proof {
                let f = choose|f: Seq<I>|
                    enumerates(&self.container(), f) && a@ == ancestors_along(ch, f, e[p as int]);
                assert forall|u: I|
                    a@.to_multiset().count(u) == if e.contains(u) {
                        occurrences(ch(u), e[p as int])
                    } else {
                        0
                    } by {
                    lemma_ancestors_along_occurrences(ch, f, e[p as int], u);
                    if e.contains(u) {
                        assert(self.container().has_index(u));
                    }
                    if f.contains(u) {
                        assert(self.container().has_index(u));
                    }
                }
                rem = rem.push(a@.to_multiset());
            }
            in_degree.push(a.len());
            done.push(false);
            p = p + 1;
        }

        // candidates are the nodes of in-degree zero
        let mut candidates: Vec<usize> = Vec::new();
        let mut p: usize = 0;
        while p < n
            invariant
                p <= n,
                in_degree@.len() == n,
                done@.len() == n,
                candidates@.no_duplicates(),
                forall|k: int|
                    0 <= k < candidates@.len() ==> #[trigger] candidates@[k] < p && !done@[candidates@[k] as int]
                        && in_degree@[candidates@[k] as int] == 0,
                forall|q: int| 0 <= q < n ==> !done@[q],
                forall|q: int| 0 <= q < p && in_degree@[q] == 0 ==> candidates@.contains(q as usize),
            decreases n - p,
        {
            let ghost before = candidates@;
            if in_degree[p] == 0 {
                candidates.push(p);
                proof {
                    lemma_push_contains(before, p);
                }
            }
            p = p + 1;
        }

        let mut list: Vec<I> = Vec::new();
        // the position in `nodes` of each entry of `list`
        let ghost mut pos: Seq<int> = Seq::empty();
        proof {
            e.unique_seq_to_set();
        }
        while candidates.len() > 0
            invariant
                self.container().behaves(),
                n == nodes@.len(),
                e == indices_of(nodes@),
                ch == (|n: I| self.child_seq(n)),
                enumerates(&self.container(), e),
                e.to_set().len() == n,
                obeys_concrete_eq::<I>(),
                in_degree@.len() == n,
                done@.len() == n,
                rem.len() == n,
                forall|q: int| 0 <= q < n ==> in_degree@[q] == (#[trigger] rem[q]).len(),
                forall|q: int, u: I|
                    0 <= q < n && !e.contains(u) ==> #[trigger] rem[q].count(u) == 0,
                forall|q: int, w: int|
                    0 <= q < n && 0 <= w < n ==> #[trigger] rem[q].count(e[w]) == if done@[w] {
                        0
                    } else {
                        occurrences(ch(e[w]), e[q])
                    },
                forall|w: int| 0 <= w < n && #[trigger] done@[w] ==> in_degree@[w] == 0,
                candidates@.no_duplicates(),
                forall|k: int|
                    0 <= k < candidates@.len() ==> #[trigger] candidates@[k] < n && !done@[candidates@[k] as int]
                        && in_degree@[candidates@[k] as int] == 0,
                forall|w: int|
                    0 <= w < n && !done@[w] && in_degree@[w] == 0 ==> candidates@.contains(w as usize),
                forall|w: int| 0 <= w < n && #[trigger] done@[w] ==> pos.contains(w),
                list@.no_duplicates(),
                list@.len() <= n,
                pos.len() == list@.len(),
                forall|k: int|
                    0 <= k < pos.len() ==> 0 <= #[trigger] pos[k] < n && done@[pos[k]] && list@[k] == e[pos[k]],
                forall|j: int, k: int|
                    0 <= j < list@.len() && 0 <= k < list@.len() && occurrences(
                        ch(list@[j]),
                        list@[k],
                    ) > 0 ==> j < k,
            decreases n - list@.len(),
        {
            let ghost waiting = candidates@;
            let c = candidates.pop().unwrap();
            let idx = nodes[c].0;
            proof {
                assert forall|w: int|
                    0 <= w < n && !done@[w] && in_degree@[w] == 0 && w != c implies candidates@.contains(
                        w as usize,
                    ) by {
                    let k = waiting.index_of(w as usize);
                    assert(waiting[k] == w);
                    assert(k != waiting.len() - 1);
                    assert(candidates@[k] == w);
                }
            }
            proof {
                assert forall|w: int| 0 <= w < n && #[trigger] done@[w] implies rem[w].len() == 0 by {
                    assert(in_degree@[w] == rem[w].len());
                }
                assert(in_degree@[c as int] == rem[c as int].len());
                lemma_place(ch, e, done@, rem, list@, pos, c as int);
            }
            list.push(idx);
            proof {
                lemma_push_contains(pos, c as int);
                pos = pos.push(c as int);
            }
            done.set(c, true);
            let kids = self.children(idx);
            let mut j: usize = 0;
            while j < kids.len()
                invariant
                    self.container().behaves(),
                    n == nodes@.len(),
                    e == indices_of(nodes@),
                    ch == (|n: I| self.child_seq(n)),
                    enumerates(&self.container(), e),
                    obeys_concrete_eq::<I>(),
                    kids@ == ch(e[c as int]),
                    c < n,
                    done@[c as int],
                    j <= kids@.len(),
                    in_degree@.len() == n,
                    done@.len() == n,
                    rem.len() == n,
                    forall|q: int| 0 <= q < n ==> in_degree@[q] == (#[trigger] rem[q]).len(),
                    forall|q: int, u: I|
                        0 <= q < n && !e.contains(u) ==> #[trigger] rem[q].count(u) == 0,
                    forall|q: int, w: int|
                        0 <= q < n && 0 <= w < n && w != c ==> #[trigger] rem[q].count(e[w]) == if done@[w] {
                            0
                        } else {
                            occurrences(ch(e[w]), e[q])
                        },
                    forall|q: int|
                        0 <= q < n ==> #[trigger] rem[q].count(e[c as int]) + occurrences(kids@.take(j as int), e[q])
                            == occurrences(kids@, e[q]),
                    forall|w: int| 0 <= w < n && #[trigger] done@[w] ==> occurrences(kids@, e[w]) == 0,
                    forall|w: int| 0 <= w < n && #[trigger] done@[w] ==> in_degree@[w] == 0,
                    forall|w: int|
                        0 <= w < n && !done@[w] && in_degree@[w] == 0 ==> candidates@.contains(w as usize),
                    candidates@.no_duplicates(),
                    forall|k: int|
                        0 <= k < candidates@.len() ==> #[trigger] candidates@[k] < n && !done@[candidates@[k] as int]
                            && in_degree@[candidates@[k] as int] == 0,
                decreases kids@.len() - j,
            {
                let found = position_of(&nodes, &kids[j]);
                proof {
                    assert forall|q: int| 0 <= q < n implies occurrences(kids@.take(j + 1), e[q])
                        == occurrences(kids@.take(j as int), e[q]) + if kids@[j as int] == e[q] {
                            1nat
                        } else {
                            0nat
                        } && occurrences(kids@.take(j + 1), e[q]) <= occurrences(kids@, e[q]) by {
                        lemma_occurrences_take(kids@, j as int, e[q]);
                    }
                }
                match found {
                    Some(q) => {
                        proof {
                            let m = rem[q as int];
                            let x = e[c as int];
                            assert(m.count(x) > 0);
                            assert(m =~= m.remove(x).insert(x));
                            vstd::multiset::lemma_insert_len(m.remove(x), x);
                            rem = rem.update(q as int, m.remove(x));
                            assert(!done@[q as int]);
                        }
                        let d = in_degree[q] - 1;
                        in_degree.set(q, d);
                        let ghost before = candidates@;
                        if d == 0 {
                            candidates.push(q);
                        }
                        proof {
                            if d == 0 {
                                lemma_push_contains(before, q);
                            }
                        }
                    },
                    None => {},
                }
                j = j + 1;
            }
            proof {
                assert(kids@.take(j as int) =~= kids@);
            }
        }
        if list.len() == n {
            proof {
                assert forall|k: int| 0 <= k < list@.len() implies e.contains(#[trigger] list@[k]) by {
                    assert(e[pos[k]] == list@[k]);
                }
                lemma_covers(e, list@);
                let has = |n: I| self.container().has_index(n);
                assert(is_topological_order(has, ch, list@));
                if has_cycle(has, ch) {
                    let path = choose|path: Seq<I>| #[trigger] is_cycle(has, ch, path);
                    lemma_cycle_has_no_order(has, ch, path, list@);
                }
            }
            Ok(list)
        } else {
            proof {
                let live = |x: int| !done@[x];
                assert forall|x: int| 0 <= x < n && #[trigger] live(x) implies exists|v: int|
                    0 <= v < n && live(v) && occurrences(ch(e[v]), e[x]) > 0 by {
                    assert(!candidates@.contains(x as usize));
                    assert(in_degree@[x] == rem[x].len());
                    let u = rem[x].choose();
                    assert(rem[x].count(u) > 0);
                    let v = e.index_of(u);
                    assert(e[v] == u);
                }
                if forall|x: int| 0 <= x < n ==> done@[x] {
                    assert forall|x: int| vstd::set_lib::set_int_range(0, n as int).contains(x) implies pos.to_set().contains(x) by {
                        assert(done@[x]);
                    }
                    vstd::set_lib::lemma_int_range(0, n as int);
                    vstd::set_lib::lemma_len_subset(vstd::set_lib::set_int_range(0, n as int), pos.to_set());
                    pos.lemma_cardinality_of_set();
                }
                let w = choose|x: int| 0 <= x < n && !done@[x];
                lemma_live_parents_give_cycle(ch, e, live, w);
                let in_e = |x: I| e.contains(x);
                assert(has_cycle(in_e, ch));
                let path = choose|path: Seq<I>| #[trigger] is_cycle(in_e, ch, path);
                let has = |n: I| self.container().has_index(n);
                assert(is_cycle(has, ch, path));
            }
            Err("Circular dependency detected!")
        }
    }
}

/// For any enumeration `e` of the nodes of `g`, node `a` occurs among the
/// ancestors of `b` along `e` exactly as often as `b` occurs among the
/// children of `a`, and an index that is no node never occurs there.
pub proof fn lemma_children_ancestors_duality<I: Eq + std::hash::Hash + Copy, G: SimpleGraph<I>>(
    g: &G,
    e: Seq<I>,
    a: I,
    b: I,
)
    requires
        enumerates(&g.container(), e),
    ensures
        occurrences(ancestors_along(|n: I| g.child_seq(n), e, b), a) == if g.container().has_index(a) {
            occurrences(g.child_seq(a), b)
        } else {
            0
        },
{
    lemma_ancestors_along_occurrences(|n: I| g.child_seq(n), e, b, a);
    if e.contains(a) {
        assert(g.container().has_index(a));
    }
}

/// A node holding data of any type and the indices of its children.
pub struct Node<I, D> {
    data: D,
    adj: Vec<I>,
}

impl<I, D> Node<I, D> {
    /// A node with `data` whose children are `adj`, in order.
    pub fn new(data: D, adj: Vec<I>) -> (r: Node<I, D>)
        ensures
            r.data() == data,
            r.adj() == adj@,
    {
        Node { data, adj }
    }

    /// The data stored in the node.
    pub closed spec fn data(&self) -> D {
        self.data
    }

    /// The indices of the node's children.
    pub closed spec fn adj(&self) -> Seq<I> {
        self.adj@
    }
}

/// A graph that stores its nodes in a [`Vec`]; node `i` is the entry at
/// position `i` and its children are given by its adjacency list.
pub struct VGraph<D>(Vec<Node<usize, D>>);

impl<D> VGraph<D> {
    /// The graph whose nodes are `nodes`, in order.
    pub fn new(nodes: Vec<Node<usize, D>>) -> (r: VGraph<D>)
        ensures
            r.container() == nodes,
            forall|i: usize| i < nodes@.len() ==> #[trigger] r.child_seq(i) == nodes@[i as int].adj(),
    {
        VGraph(nodes)
    }
}

impl<D> SimpleGraph<usize> for VGraph<D> {
    type C = Vec<Node<usize, D>>;

    closed spec fn container(&self) -> Vec<Node<usize, D>> {
        self.0
    }

    closed spec fn child_seq(&self, i: usize) -> Seq<usize> {
        self.0@[i as int].adj()
    }

    fn nodes(&self) -> (r: &Vec<Node<usize, D>>) {
        &self.0
    }

    fn children(&self, i: usize) -> (r: Vec<usize>) {
        proof {
            assert(self.container().has_index(i));
            assert(i < self.0@.len());
        }
        let r = self.0[i].adj.clone();
        proof {
            assert(r@ =~= self.0@[i as int].adj@);
        }
        r
    }
}

/// A graph that stores its nodes in a [`HashMap`] under their keys; the
/// children of a node are given by its adjacency list.
pub struct MGraph<K, D>(HashMap<K, Node<K, D>>);

impl<K: Copy + Eq + std::hash::Hash, D> MGraph<K, D> {
    /// The graph whose nodes are the entries of `nodes`.
    pub fn new(nodes: HashMap<K, Node<K, D>>) -> (r: MGraph<K, D>)
        ensures
            r.container() == nodes,
            forall|k: K| nodes@.contains_key(k) ==> #[trigger] r.child_seq(k) == nodes@[k].adj(),
    {
        MGraph(nodes)
    }
}

impl<K: Copy + Eq + std::hash::Hash, D> SimpleGraph<K> for MGraph<K, D> {
    type C = HashMap<K, Node<K, D>>;

    closed spec fn container(&self) -> HashMap<K, Node<K, D>> {
        self.0
    }

    closed spec fn child_seq(&self, k: K) -> Seq<K> {
        self.0@[k].adj()
    }

    fn nodes(&self) -> (r: &HashMap<K, Node<K, D>>) {
        &self.0
    }

    fn children(&self, k: K) -> (r: Vec<K>) {
        proof {
            assert(self.container().behaves() && self.container().has_index(k));
            assert(self.0@.contains_key(k));
        }
        let node = self.0.get(&k).unwrap();
        copy_indices(&node.adj)
    }
}

} // verus!
