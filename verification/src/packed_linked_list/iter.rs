//! Iterators over the packed list.
//!
//! Three access patterns share the node-by-node, slot-by-slot walk of the
//! cursor mechanics: a borrowing iterator for read-only traversal, a
//! mutating iterator that can replace elements in place, and a consuming
//! iterator that drains the list. The consuming iterator carries the ghost
//! sequence of the elements it already produced, so that a full drain
//! provably yields the original contents in order.

use super::PackedLinkedList;
use crate::seq_facts::{
    lemma_flatten_index, lemma_prefix_len_bounds, lemma_prefix_len_step, lemma_prefix_len_total,
    prefix_len,
};
use vstd::prelude::*;

verus! {

impl<T, const COUNT: usize> PackedLinkedList<T, COUNT> {
    /// A borrowing iterator over the elements, front to back.
    pub fn iter(&self) -> (it: Iter<'_, T, COUNT>)
        requires
            self.wf(),
        ensures
            it.wf(),
            it@ == self@,
            it.pos() == 0,
    {
        proof {
            assert(self.node_seqs().take(0) =~= Seq::<Seq<T>>::empty());
            assert(Seq::<Seq<T>>::empty().flatten() =~= Seq::<T>::empty());
            lemma_prefix_len_total(self.node_seqs());
        }
        Iter { list: self, node: 0, index: 0 }
    }

    /// A mutating iterator over the elements, front to back. The iterator
    /// takes the list over; [`IterMut::into_list`] gives it back.
    pub fn iter_mut(self) -> (it: IterMut<T, COUNT>)
        requires
            self.wf(),
        ensures
            it.wf(),
            it@ == self@,
            it.pos() == 0,
    {
        proof {
            assert(self.node_seqs().take(0) =~= Seq::<Seq<T>>::empty());
            assert(Seq::<Seq<T>>::empty().flatten() =~= Seq::<T>::empty());
            lemma_prefix_len_total(self.node_seqs());
        }
        IterMut { list: self, node: 0, index: 0 }
    }

    /// A consuming iterator that takes ownership of the chain and drains it,
    /// front to back.
    pub fn into_iter(self) -> (it: IntoIter<T, COUNT>)
        requires
            self.wf(),
        ensures
            it.wf(),
            it.remaining() == self@,
            it.taken() == Seq::<T>::empty(),
            it.initial() == self@,
    {
        let ghost init = self@;
        let it = IntoIter { list: self, taken: Ghost(Seq::empty()), initial: Ghost(init) };
        proof {
            assert(it.taken() + it.remaining() =~= it.initial());
        }
        it
    }
}

/// A borrowing iterator over the packed list.
pub struct Iter<'a, T, const COUNT: usize> {
    list: &'a PackedLinkedList<T, COUNT>,
    node: usize,
    index: usize,
}

impl<'a, T, const COUNT: usize> View for Iter<'a, T, COUNT> {
    type V = Seq<T>;

    /// The elements of the list under iteration, in traversal order.
    closed spec fn view(&self) -> Seq<T> {
        self.list@
    }
}

impl<'a, T, const COUNT: usize> Iter<'a, T, COUNT> {
    /// Well-formedness: the list is well formed and the iterator rests on a
    /// live slot or right past the last node.
    pub closed spec fn wf(self) -> bool {
        &&& self.list.wf()
        &&& if self.node == self.list.nodes@.len() {
            self.index == 0
        } else {
            self.node < self.list.nodes@.len() && self.index
                < self.list.nodes@[self.node as int].values@.len()
        }
    }

    /// The number of elements already produced: the flattened position of
    /// the next element.
    pub closed spec fn pos(self) -> int {
        if self.node == self.list.nodes@.len() {
            self@.len() as int
        } else {
            prefix_len(self.list.node_seqs(), self.node as int) + self.index
        }
    }

    /// Produces the next element, or nothing once the traversal is done.
    pub fn next(&mut self) -> (r: Option<&'a T>)
        requires
            old(self).wf(),
        ensures
            final(self).wf(),
            final(self)@ == old(self)@,
            old(self).pos() < old(self)@.len() ==> r == Some(&old(self)@[old(self).pos()])
                && final(self).pos() == old(self).pos() + 1,
            old(self).pos() >= old(self)@.len() ==> r is None && *final(self) == *old(self),
    {
        let ghost ns = self.list.node_seqs();
        let n = self.list.nodes.len();
        if self.node == n {
            return None;
        }
        let k = self.node;
        let idx = self.index;
        proof {
            lemma_flatten_index(ns, k as int, idx as int);
            lemma_prefix_len_step(ns, k as int);
            lemma_prefix_len_total(ns);
            lemma_prefix_len_bounds(ns, k as int + 1);
        }
        let r = &self.list.nodes[k].values[idx];
        if idx + 1 < self.list.nodes[k].values.len() {
            self.index = idx + 1;
        } else {
            self.node = k + 1;
            self.index = 0;
            proof {
                if k + 1 < n {
                    lemma_prefix_len_step(ns, k as int + 1);
                    lemma_prefix_len_bounds(ns, k as int + 2);
                }
            }
        }
        Some(r)
    }
}

/// A mutating iterator over the packed list.
///
/// The iterator owns the list while it is alive and releases it through
/// [`IterMut::into_list`], which enforces that at most one mutating view
/// exists at a time. It rests on one element at a time: [`IterMut::peek`]
/// reads it, [`IterMut::replace`] exchanges it in place, and
/// [`IterMut::advance`] steps past it.
pub struct IterMut<T, const COUNT: usize> {
    list: PackedLinkedList<T, COUNT>,
    node: usize,
    index: usize,
}

impl<T, const COUNT: usize> View for IterMut<T, COUNT> {
    type V = Seq<T>;

    /// The elements of the list under iteration, in traversal order.
    closed spec fn view(&self) -> Seq<T> {
        self.list@
    }
}

impl<T, const COUNT: usize> IterMut<T, COUNT> {
    /// Well-formedness: the list is well formed and the iterator rests on a
    /// live slot or right past the last node.
    pub closed spec fn wf(self) -> bool {
        &&& self.list.wf()
        &&& if self.node == self.list.nodes@.len() {
            self.index == 0
        } else {
            self.node < self.list.nodes@.len() && self.index
                < self.list.nodes@[self.node as int].values@.len()
        }
    }

    /// The number of elements already passed: the flattened position of the
    /// element the iterator rests on.
    pub closed spec fn pos(self) -> int {
        if self.node == self.list.nodes@.len() {
            self@.len() as int
        } else {
            prefix_len(self.list.node_seqs(), self.node as int) + self.index
        }
    }

    /// Releases the list the iterator was editing.
    pub fn into_list(self) -> (r: PackedLinkedList<T, COUNT>)
        requires
            self.wf(),
        ensures
            r.wf(),
            r@ == self@,
    {
        self.list
    }

    /// The element the iterator rests on, or nothing once the traversal is
    /// done.
    pub fn peek(&self) -> (r: Option<&T>)
        requires
            self.wf(),
        ensures
            self.pos() < self@.len() ==> r == Some(&self@[self.pos()]),
            self.pos() >= self@.len() ==> r is None,
    {
        let ghost ns = self.list.node_seqs();
        let n = self.list.nodes.len();
        if self.node == n {
            return None;
        }
        proof {
            lemma_flatten_index(ns, self.node as int, self.index as int);
        }
        Some(&self.list.nodes[self.node].values[self.index])
    }

    /// Replaces the element the iterator rests on and returns the old one,
    /// without stepping; or returns nothing once the traversal is done.
    pub fn replace(&mut self, element: T) -> (r: Option<T>)
        requires
            old(self).wf(),
        ensures
            final(self).wf(),
            final(self).pos() == old(self).pos(),
            old(self).pos() < old(self)@.len() ==> r == Some(old(self)@[old(self).pos()])
                && final(self)@ == old(self)@.update(old(self).pos(), element),
            old(self).pos() >= old(self)@.len() ==> r is None && *final(self) == *old(self),
    {
        let ghost ns = self.list.node_seqs();
        let n = self.list.nodes.len();
        if self.node == n {
            return None;
        }
        let k = self.node;
        let idx = self.index;
        proof {
            lemma_flatten_index(ns, k as int, idx as int);
            crate::seq_facts::lemma_flatten_decompose(ns, k as int);
        }
        let node = &mut self.list.nodes[k];
        let r = node.values.remove(idx);
        node.values.insert(idx, element);
        proof {
            let ki = k as int;
            let i = idx as int;
            let s = ns[ki].remove(i).insert(i, element);
            assert(s =~= ns[ki].update(i, element));
            assert(self.list.node_seqs() =~= ns.update(ki, ns[ki].update(i, element)));
            crate::seq_facts::lemma_flatten_update(ns, ki, ns[ki].update(i, element));
            assert(self.list.node_seqs().take(ki) =~= ns.take(ki));
            assert(self.list@ =~= old(self)@.update(prefix_len(ns, ki) + i, element));
        }
        Some(r)
    }

    /// Steps past the element the iterator rests on; does nothing once the
    /// traversal is done.
    pub fn advance(&mut self)
        requires
            old(self).wf(),
        ensures
            final(self).wf(),
            final(self)@ == old(self)@,
            old(self).pos() < old(self)@.len() ==> final(self).pos() == old(self).pos() + 1,
            old(self).pos() >= old(self)@.len() ==> *final(self) == *old(self),
    {
        let ghost ns = self.list.node_seqs();
        let n = self.list.nodes.len();
        if self.node == n {
            return ;
        }
        let k = self.node;
        let idx = self.index;
        proof {
            lemma_flatten_index(ns, k as int, idx as int);
            lemma_prefix_len_step(ns, k as int);
            lemma_prefix_len_total(ns);
            lemma_prefix_len_bounds(ns, k as int + 1);
        }
        if idx + 1 < self.list.nodes[k].values.len() {
            self.index = idx + 1;
        } else {
            self.node = k + 1;
            self.index = 0;
            proof {
                if k + 1 < n {
                    lemma_prefix_len_step(ns, k as int + 1);
                    lemma_prefix_len_bounds(ns, k as int + 2);
                }
            }
        }
    }
}

/// A consuming iterator over the packed list.
///
/// It owns the chain; elements are handed out front to back and the nodes
/// are released as the walk moves past them. Dropping the iterator early
/// releases the rest of the chain with it.
pub struct IntoIter<T, const COUNT: usize> {
    list: PackedLinkedList<T, COUNT>,
    taken: Ghost<Seq<T>>,
    initial: Ghost<Seq<T>>,
}

impl<T, const COUNT: usize> IntoIter<T, COUNT> {
    /// Well-formedness: what was already produced followed by what remains
    /// is the original contents.
    pub closed spec fn wf(self) -> bool {
        &&& self.list.wf()
        &&& self.taken@ + self.list@ == self.initial@
    }

    /// The elements not yet produced, in traversal order.
    pub closed spec fn remaining(self) -> Seq<T> {
        self.list@
    }

    /// The elements already produced, in the order they came out.
    pub closed spec fn taken(self) -> Seq<T> {
        self.taken@
    }

    /// The contents of the list the iterator was built from.
    pub closed spec fn initial(self) -> Seq<T> {
        self.initial@
    }

    /// Produces the next element, or nothing once the list is drained.
    pub fn next(&mut self) -> (r: Option<T>)
        requires
            old(self).wf(),
        ensures
            final(self).wf(),
            final(self).initial() == old(self).initial(),
            old(self).remaining().len() == 0 ==> r is None && *final(self) == *old(self),
            old(self).remaining().len() > 0 ==> {
                &&& r == Some(old(self).remaining()[0])
                &&& final(self).remaining() == old(self).remaining().skip(1)
                &&& final(self).taken() == old(self).taken().push(old(self).remaining()[0])
            },
    {
        let r = self.list.pop_front();
        match r {
            Some(v) => {
                proof {
                    self.taken@ = self.taken@.push(v);
                    assert(self.taken@ + self.list@ =~= self.initial@);
                }
                Some(v)
            },
            None => None,
        }
    }
}

/// Law: a consuming iterator that has drained its list has produced exactly
/// the original contents, in order. Together with building a list from a
/// sequence by repeated pushes to the back, this is the round trip: the
/// drain returns the build's input.
pub proof fn lemma_drained_iterator_yields_initial<T, const COUNT: usize>(it: IntoIter<T, COUNT>)
    requires
        it.wf(),
        it.remaining().len() == 0,
    ensures
        it.taken() == it.initial(),
{
    assert(it.taken() =~= it.taken() + it.remaining());
}

} // verus!
