//! A packed (unrolled) doubly linked list.
//!
//! The list is a chain of nodes; every node in the chain holds between one
//! and `COUNT` elements, so pointer overhead is shared by several elements.
//! The chain is owned by the container as a vector of nodes in chain order:
//! a node's neighbours are the adjacent entries of the vector, so the
//! previous/next links of a pointer-based chain become stable indices. The
//! view of the container is the flattened sequence of all elements in
//! traversal order.

mod cursor;
mod iter;

pub use iter::{lemma_drained_iterator_yields_initial, IntoIter, Iter, IterMut};

pub use cursor::{
    backward_traversal, forward_traversal, lemma_backward_traversal_is_reverse,
    lemma_backward_traversal_reads_reverse, lemma_forward_traversal, lemma_ghost_round_trip,
    lemma_live_round_trip, step_next, step_prev, visits_next, visits_prev, Cursor, CursorMut,
};

use crate::seq_facts::{
    lemma_flatten_decompose, lemma_flatten_first, lemma_flatten_index, lemma_flatten_insert,
    lemma_flatten_update, lemma_prefix_len_bounds, lemma_prefix_len_step, lemma_prefix_len_total,
    prefix_len,
};
use vstd::pervasive::cloned;
use vstd::prelude::*;
use vstd::std_specs::cmp::PartialEqSpec;

verus! {

/// A single node of the packed list: a run of consecutive elements.
///
/// A reachable node always holds between 1 and `COUNT` elements; a node is
/// created just before its first insertion and removed when its last element
/// leaves, so it is never observably empty.
#[derive(Debug)]
struct Node<T> {
    values: Vec<T>,
}

/// A packed (unrolled) doubly linked list with capacity `COUNT` per node.
#[derive(Debug)]
pub struct PackedLinkedList<T, const COUNT: usize> {
    nodes: Vec<Node<T>>,
    len: usize,
}

impl<T, const COUNT: usize> View for PackedLinkedList<T, COUNT> {
    type V = Seq<T>;

    /// The elements of the list in traversal order.
    closed spec fn view(&self) -> Seq<T> {
        self.node_seqs().flatten()
    }
}

impl<T, const COUNT: usize> PackedLinkedList<T, COUNT> {
    /// The chain as a sequence of per-node element runs.
    spec fn node_seqs(self) -> Seq<Seq<T>> {
        self.nodes@.map_values(|n: Node<T>| n.values@)
    }

    /// Well-formedness: every node holds between 1 and `COUNT` elements, and
    /// the stored length equals the number of elements in the chain.
    pub closed spec fn wf(self) -> bool {
        &&& forall|k: int|
            0 <= k < self.nodes@.len() ==> 1 <= (#[trigger] self.nodes@[k]).values@.len()
                <= COUNT
        &&& self.len == self@.len()
    }

    /// Constructs an empty list.
    pub fn new() -> (r: Self)
        ensures
            r.wf(),
            r@ == Seq::<T>::empty(),
    {
        let r = PackedLinkedList { nodes: Vec::new(), len: 0 };
        proof {
            assert(r.node_seqs() =~= Seq::<Seq<T>>::empty());
        }
        r
    }

    /// The number of elements in the list.
    pub fn len(&self) -> (r: usize)
        requires
            self.wf(),
        ensures
            r == self@.len(),
    {
        self.len
    }

    /// Pushes a new value to the back of the list.
    ///
    /// If the tail node is absent or full, a new node is linked at the back
    /// of the chain first.
    pub fn push_back(&mut self, element: T)
        requires
            old(self).wf(),
            COUNT >= 1,
            old(self)@.len() < usize::MAX,
        ensures
            final(self).wf(),
            final(self)@ == old(self)@.push(element),
    {
        let ghost pre_ns = self.node_seqs();
        let n = self.nodes.len();
        if n == 0 || self.nodes[n - 1].values.len() == COUNT {
            self.nodes.push(Node { values: Vec::new() });
            proof {
                assert(self.node_seqs() =~= pre_ns.push(Seq::<T>::empty()));
            }
        }
        let ghost mid_ns = self.node_seqs();
        let k = self.nodes.len() - 1;
        let node = &mut self.nodes[k];
        node.values.push(element);
        self.len = self.len + 1;
        proof {
            let ki = k as int;
            assert(self.node_seqs() =~= mid_ns.update(ki, mid_ns[ki].push(element)));
            lemma_flatten_update(mid_ns, ki, mid_ns[ki].push(element));
            lemma_flatten_decompose(mid_ns, ki);
            assert(mid_ns.skip(ki + 1) =~= Seq::<Seq<T>>::empty());
            if pre_ns.len() != mid_ns.len() {
                // a fresh empty node was linked at the back
                assert(mid_ns.take(ki) =~= pre_ns);
                assert(mid_ns[ki] =~= Seq::<T>::empty());
            }
            assert(self@ =~= old(self)@.push(element));
        }
    }

    /// Pushes a new value to the front of the list.
    ///
    /// If the head node is absent or full, a new node is linked at the front
    /// of the chain first.
    pub fn push_front(&mut self, element: T)
        requires
            old(self).wf(),
            COUNT >= 1,
            old(self)@.len() < usize::MAX,
        ensures
            final(self).wf(),
            final(self)@ == old(self)@.insert(0, element),
    {
        let ghost pre_ns = self.node_seqs();
        if self.nodes.len() == 0 || self.nodes[0].values.len() == COUNT {
            self.nodes.insert(0, Node { values: Vec::new() });
            proof {
                assert(self.node_seqs() =~= pre_ns.insert(0, Seq::<T>::empty()));
                lemma_flatten_insert(pre_ns, 0, Seq::<T>::empty());
                assert(pre_ns.take(0) =~= Seq::<Seq<T>>::empty());
                assert(pre_ns.skip(0) =~= pre_ns);
                assert(self@ =~= old(self)@);
            }
        }
        let ghost mid_ns = self.node_seqs();
        let node = &mut self.nodes[0];
        node.values.insert(0, element);
        self.len = self.len + 1;
        proof {
            assert(self.node_seqs() =~= mid_ns.update(0, mid_ns[0].insert(0, element)));
            lemma_flatten_update(mid_ns, 0, mid_ns[0].insert(0, element));
            lemma_flatten_first(mid_ns);
            assert(mid_ns.take(0) =~= Seq::<Seq<T>>::empty());
            assert(self@ =~= old(self)@.insert(0, element));
        }
    }

    /// Pops the front element and returns it, or reports that the list is
    /// empty without changing it.
    ///
    /// If the head node becomes empty it is unlinked from the chain.
    pub fn pop_front(&mut self) -> (r: Option<T>)
        requires
            old(self).wf(),
        ensures
            final(self).wf(),
            old(self)@.len() == 0 ==> r is None && *final(self) == *old(self),
            old(self)@.len() > 0 ==> r == Some(old(self)@[0]) && final(self)@ == old(
                self,
            )@.skip(1),
    {
        if self.len == 0 {
            return None;
        }
        let ghost pre_ns = self.node_seqs();
        proof {
            if pre_ns.len() == 0 {
                assert(self@ =~= Seq::<T>::empty());
            }
            lemma_flatten_first(pre_ns);
        }
        let mut first = self.nodes.remove(0);
        let item = first.values.remove(0);
        let ghost rest_ns = self.node_seqs();
        proof {
            assert(rest_ns =~= pre_ns.skip(1));
        }
        if first.values.len() > 0 {
            self.nodes.insert(0, first);
            proof {
                assert(self.node_seqs() =~= rest_ns.insert(0, pre_ns[0].skip(1)));
                lemma_flatten_insert(rest_ns, 0, pre_ns[0].skip(1));
                assert(rest_ns.take(0) =~= Seq::<Seq<T>>::empty());
                assert(rest_ns.skip(0) =~= rest_ns);
            }
        }
        self.len = self.len - 1;
        proof {
            assert(old(self)@[0] == pre_ns[0][0]);
            assert(self@ =~= old(self)@.skip(1));
        }
        Some(item)
    }

    /// Pops the back element and returns it, or reports that the list is
    /// empty without changing it.
    ///
    /// If the tail node becomes empty it is unlinked from the chain.
    pub fn pop_back(&mut self) -> (r: Option<T>)
        requires
            old(self).wf(),
        ensures
            final(self).wf(),
            old(self)@.len() == 0 ==> r is None && *final(self) == *old(self),
            old(self)@.len() > 0 ==> r == Some(old(self)@.last()) && final(self)@ == old(
                self,
            )@.drop_last(),
    {
        if self.len == 0 {
            return None;
        }
        let ghost pre_ns = self.node_seqs();
        proof {
            if pre_ns.len() == 0 {
                assert(self@ =~= Seq::<T>::empty());
            }
            lemma_flatten_decompose(pre_ns, pre_ns.len() - 1);
            assert(pre_ns.skip(pre_ns.len() as int) =~= Seq::<Seq<T>>::empty());
        }
        let mut last = match self.nodes.pop() {
            Some(node) => node,
            None => {
                proof {
                    assert(false);
                }
                unreached()
            },
        };
        let item = match last.values.pop() {
            Some(value) => value,
            None => {
                proof {
                    assert(false);
                }
                unreached()
            },
        };
        let ghost head_ns = self.node_seqs();
        let ghost n = pre_ns.len() - 1;
        proof {
            assert(head_ns =~= pre_ns.take(n));
        }
        if last.values.len() > 0 {
            self.nodes.push(last);
            proof {
                assert(self.node_seqs() =~= head_ns.push(pre_ns[n].drop_last()));
                head_ns.lemma_flatten_push(pre_ns[n].drop_last());
            }
        }
        self.len = self.len - 1;
        proof {
            assert(old(self)@.last() == pre_ns[n].last());
            assert(self@ =~= old(self)@.drop_last());
        }
        Some(item)
    }

    /// Whether the list holds no elements.
    pub fn is_empty(&self) -> (r: bool)
        requires
            self.wf(),
        ensures
            r == (self@.len() == 0),
    {
        self.len == 0
    }

    /// Builds a list from a sequence of elements by repeated pushes to the
    /// back, preserving their order.
    pub fn from_vec(items: Vec<T>) -> (r: Self)
        requires
            COUNT >= 1,
        ensures
            r.wf(),
            r@ == items@,
    {
        let mut r = Self::new();
        proof {
            // the length of a vector always fits in usize
            assert(items@.len() == items.len());
        }
        r.extend(items);
        r
    }

    /// Appends every element of the sequence to the back of the list,
    /// preserving their order.
    pub fn extend(&mut self, items: Vec<T>)
        requires
            old(self).wf(),
            COUNT >= 1,
            old(self)@.len() + items@.len() <= usize::MAX,
        ensures
            final(self).wf(),
            final(self)@ == old(self)@ + items@,
    {
        let ghost base = old(self)@;
        let ghost all = items@;
        let mut items = items;
        while items.len() > 0
            invariant
                self.wf(),
                COUNT >= 1,
                self@ + items@ == base + all,
                self@.len() + items@.len() <= usize::MAX,
            decreases items@.len(),
        {
            let v = items.remove(0);
            self.push_back(v);
            proof {
                assert(self@ + items@ =~= base + all);
            }
        }
        proof {
            assert(self@ =~= self@ + items@);
        }
    }

    /// Advances to the first node at or after `from` that holds an element.
    /// Skipped nodes are empty, so the flattened position does not move.
    fn seek(&self, from: usize) -> (r: usize)
        requires
            from <= self.nodes@.len(),
        ensures
            from <= r <= self.nodes@.len(),
            prefix_len(self.node_seqs(), r as int) == prefix_len(self.node_seqs(), from as int),
            r < self.nodes@.len() ==> self.nodes@[r as int].values@.len() > 0,
    {
        let ghost ns = self.node_seqs();
        proof {
            assert(ns == self.nodes@.map_values(|nd: Node<T>| nd.values@));
        }
        let n = self.nodes.len();
        let mut k = from;
        while k < n && self.nodes[k].values.len() == 0
            invariant
                ns == self.node_seqs(),
                from <= k <= n,
                n == self.nodes@.len(),
                n == ns.len(),
                prefix_len(ns, k as int) == prefix_len(ns, from as int),
            decreases n - k,
        {
            proof {
                assert(ns == self.nodes@.map_values(|nd: Node<T>| nd.values@));
                assert(ns[k as int] == self.nodes@[k as int].values@);
                lemma_prefix_len_step(ns, k as int);
            }
            k = k + 1;
        }
        proof {
            assert(ns == self.nodes@.map_values(|nd: Node<T>| nd.values@));
            if k < n {
                assert(ns[k as int] == self.nodes@[k as int].values@);
            }
        }
        k
    }
}

impl<T, const COUNT: usize> Default for PackedLinkedList<T, COUNT> {
    /// The default list is the empty list.
    fn default() -> (r: Self)
        ensures
            r.wf(),
            r@ == Seq::<T>::empty(),
    {
        Self::new()
    }
}

impl<T: PartialEq, const COUNT: usize> PartialEq for PackedLinkedList<T, COUNT> {
    /// Two lists are equal when they hold equal elements in the same
    /// traversal order; how the elements are grouped into nodes does not
    /// matter. Equality can be asked of any value of the type, so the walk
    /// skips over empty nodes instead of relying on well-formedness.
    fn eq(&self, other: &Self) -> (r: bool) {
        let ghost ns1 = self.node_seqs();
        let ghost ns2 = other.node_seqs();
        proof {
            assert(ns1.take(0) =~= Seq::<Seq<T>>::empty());
            assert(ns2.take(0) =~= Seq::<Seq<T>>::empty());
            assert(Seq::<Seq<T>>::empty().flatten() =~= Seq::<T>::empty());
        }
        let n1 = self.nodes.len();
        let n2 = other.nodes.len();
        let mut k1 = self.seek(0);
        let mut j1: usize = 0;
        let mut k2 = other.seek(0);
        let mut j2: usize = 0;
        let ghost mut p: int = 0;
        loop
            invariant
                ns1 == self.node_seqs(),
                ns2 == other.node_seqs(),
                n1 == ns1.len(),
                n2 == ns2.len(),
                k1 <= n1,
                k2 <= n2,
                k1 < n1 ==> j1 < ns1[k1 as int].len(),
                k1 == n1 ==> j1 == 0,
                k2 < n2 ==> j2 < ns2[k2 as int].len(),
                k2 == n2 ==> j2 == 0,
                p == prefix_len(ns1, k1 as int) + j1,
                p == prefix_len(ns2, k2 as int) + j2,
                0 <= p <= ns1.flatten().len(),
                p <= ns2.flatten().len(),
                T::obeys_eq_spec() ==> forall|i: int|
                    0 <= i < p ==> #[trigger] ns1.flatten()[i].eq_spec(&ns2.flatten()[i]),
            decreases ns1.flatten().len() - p,
        {
            if k1 == n1 {
                proof {
                    lemma_prefix_len_total(ns1);
                    lemma_prefix_len_total(ns2);
                    assert(self@ == ns1.flatten());
                    assert(other@ == ns2.flatten());
                    if k2 < n2 {
                        lemma_prefix_len_step(ns2, k2 as int);
                        lemma_prefix_len_bounds(ns2, k2 as int + 1);
                        assert(self@.len() < other@.len());
                    } else if T::obeys_eq_spec() {
                        assert forall|i: int| 0 <= i < self@.len() implies #[trigger] self@[i]
                            .eq_spec(&other@[i]) by {
                            assert(ns1.flatten()[i].eq_spec(&ns2.flatten()[i]));
                        }
                    }
                }
                return k2 == n2;
            }
            if k2 == n2 {
                proof {
                    lemma_prefix_len_total(ns2);
                    lemma_prefix_len_step(ns1, k1 as int);
                    lemma_prefix_len_bounds(ns1, k1 as int + 1);
                    assert(self@ == ns1.flatten());
                    assert(other@ == ns2.flatten());
                    assert(other@.len() < self@.len());
                }
                return false;
            }
            proof {
                assert(ns1 == self.nodes@.map_values(|nd: Node<T>| nd.values@));
                assert(ns2 == other.nodes@.map_values(|nd: Node<T>| nd.values@));
                assert(ns1[k1 as int] == self.nodes@[k1 as int].values@);
                assert(ns2[k2 as int] == other.nodes@[k2 as int].values@);
                lemma_flatten_index(ns1, k1 as int, j1 as int);
                lemma_flatten_index(ns2, k2 as int, j2 as int);
                assert(self@ == ns1.flatten());
                assert(other@ == ns2.flatten());
            }
            let a = &self.nodes[k1].values[j1];
            let b = &other.nodes[k2].values[j2];
            if !(a == b) {
                proof {
                    if T::obeys_eq_spec() {
                        assert(!self@[p].eq_spec(&other@[p]));
                    }
                }
                return false;
            }
            proof {
                lemma_prefix_len_step(ns1, k1 as int);
                lemma_prefix_len_bounds(ns1, k1 as int + 1);
                lemma_prefix_len_step(ns2, k2 as int);
                lemma_prefix_len_bounds(ns2, k2 as int + 1);
            }
            let size1 = self.nodes[k1].values.len();
            let size2 = other.nodes[k2].values.len();
            if j1 + 1 < size1 {
                j1 = j1 + 1;
            } else {
                k1 = self.seek(k1 + 1);
                j1 = 0;
            }
            if j2 + 1 < size2 {
                j2 = j2 + 1;
            } else {
                k2 = other.seek(k2 + 1);
                j2 = 0;
            }
            proof {
                p = p + 1;
            }
        }
    }
}

impl<T: PartialEq, const COUNT: usize> vstd::std_specs::cmp::PartialEqSpecImpl for PackedLinkedList<T, COUNT> {
    open spec fn obeys_eq_spec() -> bool {
        T::obeys_eq_spec()
    }

    open spec fn eq_spec(&self, other: &Self) -> bool {
        self@.len() == other@.len() && (forall|i: int|
            0 <= i < self@.len() ==> #[trigger] self@[i].eq_spec(&other@[i]))
    }
}

impl<T: Clone, const COUNT: usize> Clone for PackedLinkedList<T, COUNT> {
    /// Cloning produces an independently owned list whose elements are
    /// clones, node for node, of the original's elements in the same order.
    fn clone(&self) -> (r: Self)
        ensures
            r@.len() == self@.len(),
            forall|i: int| 0 <= i < self@.len() ==> cloned::<T>(self@[i], r@[i]),
            self.wf() ==> r.wf(),
    {
        let ghost ns = self.node_seqs();
        let n = self.nodes.len();
        let mut nodes: Vec<Node<T>> = Vec::new();
        proof {
            assert(nodes@.map_values(|nd: Node<T>| nd.values@) =~= Seq::<Seq<T>>::empty());
            assert(Seq::<Seq<T>>::empty().flatten() =~= Seq::<T>::empty());
            assert(ns.take(0) =~= Seq::<Seq<T>>::empty());
        }
        let mut k: usize = 0;
        while k < n
            invariant
                ns == self.node_seqs(),
                n == self.nodes@.len(),
                n == ns.len(),
                k <= n,
                nodes@.len() == k,
                forall|m: int|
                    0 <= m < k ==> (#[trigger] nodes@[m]).values@.len()
                        == self.nodes@[m].values@.len(),
                nodes@.map_values(|nd: Node<T>| nd.values@).flatten().len() == prefix_len(
                    ns,
                    k as int,
                ),
                forall|i: int|
                    0 <= i < prefix_len(ns, k as int) ==> cloned::<T>(
                        #[trigger] ns.flatten()[i],
                        nodes@.map_values(|nd: Node<T>| nd.values@).flatten()[i],
                    ),
                prefix_len(ns, k as int) <= ns.flatten().len(),
            decreases n - k,
        {
            let ghost rs = nodes@.map_values(|nd: Node<T>| nd.values@);
            let vs = self.nodes[k].values.clone();
            nodes.push(Node { values: vs });
            proof {
                let rs2 = nodes@.map_values(|nd: Node<T>| nd.values@);
                assert(rs2 =~= rs.push(vs@));
                rs.lemma_flatten_push(vs@);
                assert(ns == self.nodes@.map_values(|nd: Node<T>| nd.values@));
                assert(ns[k as int] == self.nodes@[k as int].values@);
                assert(vs@.len() == self.nodes@[k as int].values@.len());
                lemma_prefix_len_step(ns, k as int);
                lemma_prefix_len_bounds(ns, k as int + 1);
                assert forall|i: int| 0 <= i < prefix_len(ns, k as int + 1) implies cloned::<T>(
                    ns.flatten()[i],
                    #[trigger] rs2.flatten()[i],
                ) by {
                    if i < prefix_len(ns, k as int) {
                        assert(rs2.flatten()[i] == rs.flatten()[i]);
                    } else {
                        let j = i - prefix_len(ns, k as int);
                        lemma_flatten_index(ns, k as int, j);
                        assert(rs2.flatten()[i] == vs@[j]);
                        assert(cloned::<T>(self.nodes@[k as int].values@[j], vs@[j]));
                    }
                }
            }
            k = k + 1;
        }
        let r = PackedLinkedList { nodes, len: self.len };
        proof {
            lemma_prefix_len_total(ns);
            assert(ns.take(n as int) =~= ns);
        }
        r
    }
}

} // verus!
