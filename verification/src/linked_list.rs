//! A doubly linked list with one element per node.
//!
//! The baseline companion of the packed list: each node holds exactly one
//! element. The chain is owned by the container as a vector of nodes in
//! chain order, so the previous/next links of a pointer-based chain become
//! stable indices. The view of the container is the element sequence in
//! traversal order.

use vstd::pervasive::cloned;
use vstd::prelude::*;
use vstd::std_specs::cmp::PartialEqSpec;

verus! {

/// A node of the list, holding exactly one element.
#[derive(Debug)]
pub struct Node<T> {
    value: T,
}

impl<T> View for Node<T> {
    type V = T;

    /// The element the node holds.
    closed spec fn view(&self) -> T {
        self.value
    }
}

impl<T> Node<T> {
    /// Wraps an element in a node.
    pub fn new(value: T) -> (r: Self)
        ensures
            r@ == value,
    {
        Node { value }
    }

    /// Reads the element from the node.
    pub fn get(&self) -> (r: &T)
        ensures
            *r == self@,
    {
        &self.value
    }

    /// Overwrites the element in the node.
    pub fn set(&mut self, value: T)
        ensures
            final(self)@ == value,
    {
        self.value = value;
    }

    /// Overwrites the element in the node and returns the old one.
    pub fn replace_value(&mut self, value: T) -> (r: T)
        ensures
            r == old(self)@,
            final(self)@ == value,
    {
        let mut value = value;
        core::mem::swap(&mut self.value, &mut value);
        value
    }
}

/// A doubly linked list.
#[derive(Debug)]
pub struct LinkedList<T> {
    nodes: Vec<Node<T>>,
}

impl<T> View for LinkedList<T> {
    type V = Seq<T>;

    /// The elements of the list in traversal order.
    closed spec fn view(&self) -> Seq<T> {
        self.nodes@.map_values(|n: Node<T>| n.value)
    }
}

impl<T> LinkedList<T> {
    /// Constructs an empty list.
    pub fn new() -> (r: Self)
        ensures
            r@ == Seq::<T>::empty(),
    {
        let r = LinkedList { nodes: Vec::new() };
        proof {
            assert(r@ =~= Seq::<T>::empty());
        }
        r
    }

    /// The number of elements in the list.
    pub fn len(&self) -> (r: usize)
        ensures
            r == self@.len(),
    {
        self.nodes.len()
    }

    /// Pushes an element to the front of the list.
    pub fn push_front(&mut self, element: T)
        requires
            old(self)@.len() < usize::MAX,
        ensures
            final(self)@ == old(self)@.insert(0, element),
    {
        self.nodes.insert(0, Node { value: element });
        proof {
            assert(self@ =~= old(self)@.insert(0, element));
        }
    }

    /// Pushes an element to the back of the list.
    pub fn push_back(&mut self, element: T)
        requires
            old(self)@.len() < usize::MAX,
        ensures
            final(self)@ == old(self)@.push(element),
    {
        self.nodes.push(Node { value: element });
        proof {
            assert(self@ =~= old(self)@.push(element));
        }
    }

    /// Pops the first element and returns it, or reports that the list is
    /// empty without changing it.
    pub fn pop_front(&mut self) -> (r: Option<T>)
        ensures
            old(self)@.len() == 0 ==> r is None && *final(self) == *old(self),
            old(self)@.len() > 0 ==> r == Some(old(self)@[0]) && final(self)@ == old(
                self,
            )@.skip(1),
    {
        if self.nodes.len() == 0 {
            return None;
        }
        let node = self.nodes.remove(0);
        proof {
            assert(self@ =~= old(self)@.skip(1));
        }
        Some(node.value)
    }

    /// Pops the last element and returns it, or reports that the list is
    /// empty without changing it.
    pub fn pop_back(&mut self) -> (r: Option<T>)
        ensures
            old(self)@.len() == 0 ==> r is None && *final(self) == *old(self),
            old(self)@.len() > 0 ==> r == Some(old(self)@.last()) && final(self)@ == old(
                self,
            )@.drop_last(),
    {
        proof {
            assert(self@ == self.nodes@.map_values(|n: Node<T>| n.value));
        }
        if self.nodes.len() == 0 {
            return None;
        }
        let node = match self.nodes.pop() {
            Some(node) => node,
            None => {
                proof {
                    assert(false);
                }
                unreached()
            },
        };
        proof {
            assert(self@ =~= old(self)@.drop_last());
        }
        Some(node.value)
    }

    /// The element at `index`, or nothing when the index is past the end.
    pub fn get(&self, index: usize) -> (r: Option<&T>)
        ensures
            index < self@.len() ==> r == Some(&self@[index as int]),
            index >= self@.len() ==> r is None,
    {
        if index < self.nodes.len() {
            Some(&self.nodes[index].value)
        } else {
            None
        }
    }

    /// The last element, or nothing when the list is empty.
    pub fn get_tail(&self) -> (r: Option<&T>)
        ensures
            self@.len() > 0 ==> r == Some(&self@.last()),
            self@.len() == 0 ==> r is None,
    {
        if self.nodes.len() > 0 {
            Some(&self.nodes[self.nodes.len() - 1].value)
        } else {
            None
        }
    }

    /// The first element, or nothing when the list is empty.
    pub fn get_head(&self) -> (r: Option<&T>)
        ensures
            self@.len() > 0 ==> r == Some(&self@[0]),
            self@.len() == 0 ==> r is None,
    {
        if self.nodes.len() > 0 {
            Some(&self.nodes[0].value)
        } else {
            None
        }
    }

    /// The node at `index`, for navigation only, or nothing when the index
    /// is past the end.
    pub fn get_node(&self, index: usize) -> (r: Option<&Node<T>>)
        ensures
            match r {
                Some(node) => index < self@.len() && node@ == self@[index as int],
                None => index >= self@.len(),
            },
    {
        if index < self.nodes.len() {
            Some(&self.nodes[index])
        } else {
            None
        }
    }

    /// The node at `index`, for editing the list through it: the element
    /// written through the returned node is the element the list holds at
    /// `index` afterwards.
    pub fn get_mut_node(&mut self, index: usize) -> (node: &mut Node<T>)
        requires
            index < old(self)@.len(),
        ensures
            (*node)@ == old(self)@[index as int],
            final(self)@ =~= old(self)@.update(index as int, (*final(node))@),
    {
        proof {
            assert(self@ == self.nodes@.map_values(|n: Node<T>| n.value));
        }
        &mut self.nodes[index]
    }

    /// The first node, or nothing when the list is empty.
    pub fn front_node(&self) -> (r: Option<&Node<T>>)
        ensures
            match r {
                Some(node) => self@.len() > 0 && node@ == self@[0],
                None => self@.len() == 0,
            },
    {
        self.get_node(0)
    }

    /// The last node, or nothing when the list is empty.
    pub fn back_node(&self) -> (r: Option<&Node<T>>)
        ensures
            match r {
                Some(node) => self@.len() > 0 && node@ == self@.last(),
                None => self@.len() == 0,
            },
    {
        if self.nodes.len() > 0 {
            self.get_node(self.nodes.len() - 1)
        } else {
            None
        }
    }

    /// The first node, for editing the list through it; the list must not
    /// be empty.
    pub fn front_node_mut(&mut self) -> (node: &mut Node<T>)
        requires
            old(self)@.len() > 0,
        ensures
            (*node)@ == old(self)@[0],
            final(self)@ =~= old(self)@.update(0, (*final(node))@),
    {
        self.get_mut_node(0)
    }

    /// The last node, for editing the list through it; the list must not
    /// be empty.
    pub fn back_node_mut(&mut self) -> (node: &mut Node<T>)
        requires
            old(self)@.len() > 0,
        ensures
            (*node)@ == old(self)@.last(),
            final(self)@ =~= old(self)@.update(old(self)@.len() - 1, (*final(node))@),
    {
        let index = self.nodes.len() - 1;
        self.get_mut_node(index)
    }

    /// Builds a list from a sequence of elements by repeated pushes to the
    /// back, preserving their order.
    pub fn from_vec(items: Vec<T>) -> (r: Self)
        ensures
            r@ == items@,
    {
        let mut r = Self::new();
        proof {
            // the length of a vector always fits in usize
            assert(items@.len() == items.len());
        }
        r.extend(items);
        r
    }

    /// Appends every element of the sequence to the back of the list,
    /// preserving their order.
    pub fn extend(&mut self, items: Vec<T>)
        requires
            old(self)@.len() + items@.len() <= usize::MAX,
        ensures
            final(self)@ == old(self)@ + items@,
    {
        let ghost base = old(self)@;
        let ghost all = items@;
        let mut items = items;
        while items.len() > 0
            invariant
                self@ + items@ == base + all,
                self@.len() + items@.len() <= usize::MAX,
            decreases items@.len(),
        {
            let v = items.remove(0);
            self.push_back(v);
            proof {
                assert(self@ + items@ =~= base + all);
            }
        }
        proof {
            assert(self@ =~= self@ + items@);
        }
    }

    /// A borrowing iterator over the elements, front to back.
    pub fn iter(&self) -> (it: Iter<'_, T>)
        ensures
            it@ == self@,
            it.pos() == 0,
    {
        Iter { list: self, pos: 0 }
    }

    /// A mutating iterator over the elements, front to back. The iterator
    /// takes the list over; [`IterMut::into_list`] gives it back.
    pub fn iter_mut(self) -> (it: IterMut<T>)
        ensures
            it@ == self@,
            it.pos() == 0,
    {
        IterMut { list: self, pos: 0 }
    }

    /// A consuming iterator that takes ownership of the chain and drains it,
    /// front to back.
    pub fn into_iter(self) -> (it: IntoIter<T>)
        ensures
            it.wf(),
            it.remaining() == self@,
            it.taken() == Seq::<T>::empty(),
            it.initial() == self@,
    {
        let ghost init = self@;
        let it = IntoIter { list: self, taken: Ghost(Seq::empty()), initial: Ghost(init) };
        proof {
            assert(it.taken() + it.remaining() =~= it.initial());
        }
        it
    }
}

impl<T> Default for LinkedList<T> {
    /// The default list is the empty list.
    fn default() -> (r: Self)
        ensures
            r@ == Seq::<T>::empty(),
    {
        Self::new()
    }
}

impl<T: PartialEq> PartialEq for LinkedList<T> {
    /// Two lists are equal when they have the same length and hold equal
    /// elements in the same traversal order.
    fn eq(&self, other: &Self) -> (r: bool) {
        proof {
            assert(self@ == self.nodes@.map_values(|n: Node<T>| n.value));
            assert(other@ == other.nodes@.map_values(|n: Node<T>| n.value));
        }
        let n = self.nodes.len();
        if n != other.nodes.len() {
            return false;
        }
        let mut i: usize = 0;
        while i < n
            invariant
                i <= n,
                n == self@.len(),
                n == other@.len(),
                n == self.nodes@.len(),
                n == other.nodes@.len(),
                T::obeys_eq_spec() ==> forall|j: int|
                    0 <= j < i ==> #[trigger] self@[j].eq_spec(&other@[j]),
            decreases n - i,
        {
            proof {
                assert(self@[i as int] == self.nodes@[i as int].value);
                assert(other@[i as int] == other.nodes@[i as int].value);
            }
            let a = &self.nodes[i].value;
            let b = &other.nodes[i].value;
            if !(a == b) {
                return false;
            }
            i = i + 1;
        }
        true
    }
}

impl<T: PartialEq> vstd::std_specs::cmp::PartialEqSpecImpl for LinkedList<T> {
    open spec fn obeys_eq_spec() -> bool {
        T::obeys_eq_spec()
    }

    open spec fn eq_spec(&self, other: &Self) -> bool {
        self@.len() == other@.len() && (forall|i: int|
            0 <= i < self@.len() ==> #[trigger] self@[i].eq_spec(&other@[i]))
    }
}

impl<T: Clone> Clone for LinkedList<T> {
    /// Cloning produces an independently owned list whose elements are
    /// clones of the original's elements in the same order.
    fn clone(&self) -> (r: Self)
        ensures
            r@.len() == self@.len(),
            forall|i: int| 0 <= i < self@.len() ==> cloned::<T>(self@[i], r@[i]),
    {
        proof {
            assert(self@ == self.nodes@.map_values(|n: Node<T>| n.value));
        }
        let n = self.nodes.len();
        let mut nodes: Vec<Node<T>> = Vec::new();
        let mut i: usize = 0;
        while i < n
            invariant
                i <= n,
                n == self@.len(),
                n == self.nodes@.len(),
                nodes@.len() == i,
                forall|j: int|
                    0 <= j < i ==> cloned::<T>(#[trigger] self@[j], nodes@[j].value),
            decreases n - i,
        {
            proof {
                assert(self@[i as int] == self.nodes@[i as int].value);
            }
            let value = self.nodes[i].value.clone();
            nodes.push(Node { value });
            i = i + 1;
        }
        let r = LinkedList { nodes };
        proof {
            assert(r@ == r.nodes@.map_values(|n: Node<T>| n.value));
            assert forall|i: int| 0 <= i < self@.len() implies cloned::<T>(
                self@[i],
                #[trigger] r@[i],
            ) by {
                assert(r@[i] == r.nodes@[i].value);
            }
        }
        r
    }
}

/// A borrowing iterator over the linked list.
pub struct Iter<'a, T> {
    list: &'a LinkedList<T>,
    pos: usize,
}

impl<'a, T> View for Iter<'a, T> {
    type V = Seq<T>;

    /// The elements of the list under iteration, in traversal order.
    closed spec fn view(&self) -> Seq<T> {
        self.list@
    }
}

impl<'a, T> Iter<'a, T> {
    /// The number of elements already produced: the position of the next
    /// element.
    pub closed spec fn pos(self) -> int {
        self.pos as int
    }

    /// Well-formedness: the iterator rests on an element or right past the
    /// last one.
    pub closed spec fn wf(self) -> bool {
        self.pos <= self@.len()
    }

    /// Produces the next element, or nothing once the traversal is done.
    pub fn next(&mut self) -> (r: Option<&'a T>)
        ensures
            final(self)@ == old(self)@,
            old(self).pos() < old(self)@.len() ==> r == Some(&old(self)@[old(self).pos()])
                && final(self).pos() == old(self).pos() + 1,
            old(self).pos() >= old(self)@.len() ==> r is None && *final(self) == *old(self),
    {
        proof {
            assert(self@ == self.list.nodes@.map_values(|n: Node<T>| n.value));
        }
        if self.pos < self.list.nodes.len() {
            let r = &self.list.nodes[self.pos].value;
            self.pos = self.pos + 1;
            Some(r)
        } else {
            None
        }
    }
}

/// A mutating iterator over the linked list.
///
/// The iterator owns the list while it is alive and releases it through
/// [`IterMut::into_list`], which enforces that at most one mutating view
/// exists at a time. It rests on one element at a time: [`IterMut::peek`]
/// reads it, [`IterMut::replace`] exchanges it in place, and
/// [`IterMut::advance`] steps past it.
pub struct IterMut<T> {
    list: LinkedList<T>,
    pos: usize,
}

impl<T> View for IterMut<T> {
    type V = Seq<T>;

    /// The elements of the list under iteration, in traversal order.
    closed spec fn view(&self) -> Seq<T> {
        self.list@
    }
}

impl<T> IterMut<T> {
    /// The number of elements already passed: the position of the element
    /// the iterator rests on.
    pub closed spec fn pos(self) -> int {
        self.pos as int
    }

    /// Releases the list the iterator was editing.
    pub fn into_list(self) -> (r: LinkedList<T>)
        ensures
            r@ == self@,
    {
        self.list
    }

    /// The element the iterator rests on, or nothing once the traversal is
    /// done.
    pub fn peek(&self) -> (r: Option<&T>)
        ensures
            self.pos() < self@.len() ==> r == Some(&self@[self.pos()]),
            self.pos() >= self@.len() ==> r is None,
    {
        proof {
            assert(self@ == self.list.nodes@.map_values(|n: Node<T>| n.value));
        }
        if self.pos < self.list.nodes.len() {
            Some(&self.list.nodes[self.pos].value)
        } else {
            None
        }
    }

    /// Replaces the element the iterator rests on and returns the old one,
    /// without stepping; or returns nothing once the traversal is done.
    pub fn replace(&mut self, element: T) -> (r: Option<T>)
        ensures
            final(self).pos() == old(self).pos(),
            old(self).pos() < old(self)@.len() ==> r == Some(old(self)@[old(self).pos()])
                && final(self)@ == old(self)@.update(old(self).pos(), element),
            old(self).pos() >= old(self)@.len() ==> r is None && *final(self) == *old(self),
    {
        proof {
            assert(self@ == self.list.nodes@.map_values(|n: Node<T>| n.value));
        }
        if self.pos < self.list.nodes.len() {
            let node = &mut self.list.nodes[self.pos];
            let r = node.replace_value(element);
            proof {
                assert(self@ =~= old(self)@.update(old(self).pos(), element));
            }
            Some(r)
        } else {
            None
        }
    }

    /// Steps past the element the iterator rests on; does nothing once the
    /// traversal is done.
    pub fn advance(&mut self)
        ensures
            final(self)@ == old(self)@,
            old(self).pos() < old(self)@.len() ==> final(self).pos() == old(self).pos() + 1,
            old(self).pos() >= old(self)@.len() ==> *final(self) == *old(self),
    {
        proof {
            assert(self@ == self.list.nodes@.map_values(|n: Node<T>| n.value));
        }
        if self.pos < self.list.nodes.len() {
            self.pos = self.pos + 1;
        }
    }
}

/// A consuming iterator over the linked list.
///
/// It owns the chain; elements are handed out front to back and the nodes
/// are released as the walk moves past them. Dropping the iterator early
/// releases the rest of the chain with it.
pub struct IntoIter<T> {
    list: LinkedList<T>,
    taken: Ghost<Seq<T>>,
    initial: Ghost<Seq<T>>,
}

impl<T> IntoIter<T> {
    /// Well-formedness: what was already produced followed by what remains
    /// is the original contents.
    pub closed spec fn wf(self) -> bool {
        self.taken@ + self.list@ == self.initial@
    }

    /// The elements not yet produced, in traversal order.
    pub closed spec fn remaining(self) -> Seq<T> {
        self.list@
    }

    /// The elements already produced, in the order they came out.
    pub closed spec fn taken(self) -> Seq<T> {
        self.taken@
    }

    /// The contents of the list the iterator was built from.
    pub closed spec fn initial(self) -> Seq<T> {
        self.initial@
    }

    /// Produces the next element, or nothing once the list is drained.
    pub fn next(&mut self) -> (r: Option<T>)
        requires
            old(self).wf(),
        ensures
            final(self).wf(),
            final(self).initial() == old(self).initial(),
            old(self).remaining().len() == 0 ==> r is None && *final(self) == *old(self),
            old(self).remaining().len() > 0 ==> {
                &&& r == Some(old(self).remaining()[0])
                &&& final(self).remaining() == old(self).remaining().skip(1)
                &&& final(self).taken() == old(self).taken().push(old(self).remaining()[0])
            },
    {
        let r = self.list.pop_front();
        match r {
            Some(v) => {
                proof {
                    self.taken@ = self.taken@.push(v);
                    assert(self.taken@ + self.list@ =~= self.initial@);
                }
                Some(v)
            },
            None => None,
        }
    }
}

/// Law: a consuming iterator that has drained its list has produced exactly
/// the original contents, in order. Together with building a list from a
/// sequence by repeated pushes to the back, this is the round trip: the
/// drain returns the build's input.
pub proof fn lemma_drained_iterator_yields_initial<T>(it: IntoIter<T>)
    requires
        it.wf(),
        it.remaining().len() == 0,
    ensures
        it.taken() == it.initial(),
{
    assert(it.taken() =~= it.taken() + it.remaining());
}

} // verus!
