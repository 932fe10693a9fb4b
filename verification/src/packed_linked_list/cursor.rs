//! Cursors over the packed list.
//!
//! A cursor is a position in the list: either a live element, addressed by a
//! node of the chain together with an index inside that node, or the single
//! ghost position that stands both before the first and after the last
//! element. Navigation is modelled by the spec functions [`step_next`] and
//! [`step_prev`] over flattened element positions, so the laws about
//! traversal are stated and proved once, independently of node layout.

use super::{Node, PackedLinkedList};
use crate::seq_facts::{
    lemma_flatten_decompose, lemma_flatten_first, lemma_flatten_index, lemma_flatten_insert,
    lemma_flatten_remove, lemma_flatten_split, lemma_flatten_update, lemma_prefix_len_bounds,
    lemma_prefix_len_step, lemma_prefix_len_total, prefix_len,
};
use vstd::prelude::*;

verus! {

/// Where a cursor lands when it moves forward: from the ghost position to the
/// first element, from the last element to the ghost position, and otherwise
/// one element onward.
pub open spec fn step_next(len: int, pos: Option<int>) -> Option<int> {
    match pos {
        None => if len > 0 {
            Some(0int)
        } else {
            None
        },
        Some(p) => if p + 1 < len {
            Some(p + 1)
        } else {
            None
        },
    }
}

/// Where a cursor lands when it moves backward: from the ghost position to
/// the last element, from the first element to the ghost position, and
/// otherwise one element back.
pub open spec fn step_prev(len: int, pos: Option<int>) -> Option<int> {
    match pos {
        None => if len > 0 {
            Some(len - 1)
        } else {
            None
        },
        Some(p) => if p > 0 {
            Some(p - 1)
        } else {
            None
        },
    }
}

/// Law: from any live position, moving next and then previous returns to the
/// original position, also from the last element, where the cursor passes
/// through the ghost position and comes back.
pub proof fn lemma_live_round_trip(len: int, p: int)
    requires
        0 <= p < len,
    ensures
        step_prev(len, step_next(len, Some(p))) == Some(p),
{
}

/// Law: from the ghost position, moving previous and then next returns to
/// the ghost position, whether or not the list is empty.
pub proof fn lemma_ghost_round_trip(len: int)
    requires
        len >= 0,
    ensures
        step_next(len, step_prev(len, None::<int>)) is None,
{
}

/// The positions visited by repeatedly moving next from a live position
/// until the ghost position is reached.
pub open spec fn visits_next(len: int, pos: Option<int>) -> Seq<int>
    decreases (match pos {
        Some(p) => if 0 <= p < len {
            (len - p) as nat
        } else {
            0nat
        },
        None => 0nat,
    }),
{
    match pos {
        None => Seq::<int>::empty(),
        Some(p) => if 0 <= p < len {
            seq![p] + visits_next(len, step_next(len, Some(p)))
        } else {
            Seq::<int>::empty()
        },
    }
}

/// The positions visited by repeatedly moving previous from a live position
/// until the ghost position is reached.
pub open spec fn visits_prev(len: int, pos: Option<int>) -> Seq<int>
    decreases (match pos {
        Some(p) => if 0 <= p < len {
            (p + 1) as nat
        } else {
            0nat
        },
        None => 0nat,
    }),
{
    match pos {
        None => Seq::<int>::empty(),
        Some(p) => if 0 <= p < len {
            seq![p] + visits_prev(len, step_prev(len, Some(p)))
        } else {
            Seq::<int>::empty()
        },
    }
}

/// A full forward traversal: every position visited by moving next from the
/// ghost position until the ghost position is reached again.
pub open spec fn forward_traversal(len: int) -> Seq<int> {
    visits_next(len, step_next(len, None))
}

/// A full backward traversal: every position visited by moving previous from
/// the ghost position until the ghost position is reached again.
pub open spec fn backward_traversal(len: int) -> Seq<int> {
    visits_prev(len, step_prev(len, None))
}

proof fn lemma_visits_next_closed(len: int, p: int)
    requires
        0 <= p < len,
    ensures
        visits_next(len, Some(p)) == Seq::new((len - p) as nat, |i: int| p + i),
    decreases len - p,
{
    if p + 1 < len {
        lemma_visits_next_closed(len, p + 1);
    } else {
        assert(visits_next(len, None::<int>) == Seq::<int>::empty());
    }
    assert(visits_next(len, Some(p)) == seq![p] + visits_next(len, step_next(len, Some(p))));
    assert(visits_next(len, Some(p)) =~= Seq::new((len - p) as nat, |i: int| p + i));
}

proof fn lemma_visits_prev_closed(len: int, p: int)
    requires
        0 <= p < len,
    ensures
        visits_prev(len, Some(p)) == Seq::new((p + 1) as nat, |i: int| p - i),
    decreases p,
{
    if p > 0 {
        lemma_visits_prev_closed(len, p - 1);
    } else {
        assert(visits_prev(len, None::<int>) == Seq::<int>::empty());
    }
    assert(visits_prev(len, Some(p)) == seq![p] + visits_prev(len, step_prev(len, Some(p))));
    assert(visits_prev(len, Some(p)) =~= Seq::new((p + 1) as nat, |i: int| p - i));
}

/// Law: a full forward traversal visits the positions `0, 1, ..., len - 1`
/// in order, so it produces exactly `len` elements.
pub proof fn lemma_forward_traversal(len: int)
    requires
        len >= 0,
    ensures
        forward_traversal(len) == Seq::new(len as nat, |i: int| i),
        forward_traversal(len).len() == len,
{
    if len > 0 {
        lemma_visits_next_closed(len, 0);
    }
    assert(forward_traversal(len) =~= Seq::new(len as nat, |i: int| i));
}

/// Law: a full backward traversal visits the positions in the reverse order
/// of a full forward traversal.
pub proof fn lemma_backward_traversal_is_reverse(len: int)
    requires
        len >= 0,
    ensures
        backward_traversal(len) == forward_traversal(len).reverse(),
{
    lemma_forward_traversal(len);
    if len > 0 {
        lemma_visits_prev_closed(len, len - 1);
    }
    assert(backward_traversal(len) =~= forward_traversal(len).reverse());
}

/// Law: reading a sequence at the positions of a full backward traversal
/// yields the reverse of the sequence.
pub proof fn lemma_backward_traversal_reads_reverse<T>(s: Seq<T>)
    ensures
        backward_traversal(s.len() as int).len() == s.len(),
        forall|i: int|
            0 <= i < s.len() ==> s[backward_traversal(s.len() as int)[i]] == s.reverse()[i],
{
    let len = s.len() as int;
    lemma_forward_traversal(len);
    lemma_backward_traversal_is_reverse(len);
}

impl<T, const COUNT: usize> PackedLinkedList<T, COUNT> {
    /// Whether a (node, index) pair addresses a live element of this list,
    /// or is the ghost position.
    pub(super) open spec fn pos_wf(self, node: Option<usize>, index: usize) -> bool {
        match node {
            None => index == 0,
            Some(k) => k < self.nodes@.len() && index < self.nodes@[k as int].values@.len(),
        }
    }

    /// The flattened position addressed by a (node, index) pair.
    pub(super) open spec fn pos_of(self, node: Option<usize>, index: usize) -> Option<int> {
        match node {
            None => None,
            Some(k) => Some(prefix_len(self.node_seqs(), k as int) + index),
        }
    }

    /// One forward navigation step over the chain, shared by the cursors.
    fn nav_next(&self, node: Option<usize>, index: usize) -> (r: (Option<usize>, usize))
        requires
            self.wf(),
            self.pos_wf(node, index),
        ensures
            self.pos_wf(r.0, r.1),
            self.pos_of(r.0, r.1) == step_next(self@.len() as int, self.pos_of(node, index)),
    {
        let ghost ns = self.node_seqs();
        match node {
            None => {
                if self.nodes.len() > 0 {
                    proof {
                        assert(ns.take(0) =~= Seq::<Seq<T>>::empty());
                        assert(Seq::<Seq<T>>::empty().flatten() =~= Seq::<T>::empty());
                        lemma_flatten_first(ns);
                    }
                    (Some(0), 0)
                } else {
                    proof {
                        assert(ns =~= Seq::<Seq<T>>::empty());
                    }
                    (None, 0)
                }
            },
            Some(k) => {
                let n = self.nodes.len();
                let size = self.nodes[k].values.len();
                proof {
                    lemma_prefix_len_step(ns, k as int);
                    lemma_prefix_len_bounds(ns, k as int);
                    lemma_prefix_len_bounds(ns, k as int + 1);
                    lemma_prefix_len_total(ns);
                }
                if index + 1 < size {
                    (Some(k), index + 1)
                } else if k + 1 < n {
                    proof {
                        lemma_prefix_len_step(ns, k as int + 1);
                        lemma_prefix_len_bounds(ns, k as int + 2);
                    }
                    (Some(k + 1), 0)
                } else {
                    (None, 0)
                }
            },
        }
    }

    /// One backward navigation step over the chain, shared by the cursors.
    fn nav_prev(&self, node: Option<usize>, index: usize) -> (r: (Option<usize>, usize))
        requires
            self.wf(),
            self.pos_wf(node, index),
        ensures
            self.pos_wf(r.0, r.1),
            self.pos_of(r.0, r.1) == step_prev(self@.len() as int, self.pos_of(node, index)),
    {
        let ghost ns = self.node_seqs();
        match node {
            None => {
                let n = self.nodes.len();
                if n > 0 {
                    proof {
                        lemma_prefix_len_step(ns, n as int - 1);
                        lemma_prefix_len_total(ns);
                        lemma_prefix_len_bounds(ns, n as int - 1);
                    }
                    (Some(n - 1), self.nodes[n - 1].values.len() - 1)
                } else {
                    proof {
                        assert(ns =~= Seq::<Seq<T>>::empty());
                    }
                    (None, 0)
                }
            },
            Some(k) => {
                proof {
                    lemma_prefix_len_bounds(ns, k as int);
                    lemma_prefix_len_step(ns, k as int);
                    lemma_prefix_len_total(ns);
                }
                if index > 0 {
                    (Some(k), index - 1)
                } else if k > 0 {
                    proof {
                        lemma_prefix_len_step(ns, k as int - 1);
                        lemma_prefix_len_bounds(ns, k as int - 1);
                    }
                    (Some(k - 1), self.nodes[k - 1].values.len() - 1)
                } else {
                    proof {
                        assert(ns.take(0) =~= Seq::<Seq<T>>::empty());
                        assert(Seq::<Seq<T>>::empty().flatten() =~= Seq::<T>::empty());
                    }
                    (None, 0)
                }
            },
        }
    }

    /// Reads the element addressed by a (node, index) pair, shared by the
    /// cursors.
    fn read_at(&self, node: Option<usize>, index: usize) -> (r: Option<&T>)
        requires
            self.wf(),
            self.pos_wf(node, index),
        ensures
            match self.pos_of(node, index) {
                None => r is None,
                Some(p) => r == Some(&self@[p]),
            },
    {
        match node {
            None => None,
            Some(k) => {
                proof {
                    lemma_flatten_index(self.node_seqs(), k as int, index as int);
                }
                Some(&self.nodes[k].values[index])
            },
        }
    }

    /// A read-only cursor at the first element, or at the ghost position if
    /// the list is empty.
    pub fn cursor_front(&self) -> (c: Cursor<'_, T, COUNT>)
        requires
            self.wf(),
        ensures
            c.wf(),
            c@ == self@,
            c.pos() == step_next(self@.len() as int, None::<int>),
    {
        let ghost ns = self.node_seqs();
        if self.nodes.len() > 0 {
            proof {
                assert(ns.take(0) =~= Seq::<Seq<T>>::empty());
                assert(Seq::<Seq<T>>::empty().flatten() =~= Seq::<T>::empty());
                lemma_flatten_first(ns);
            }
            Cursor { list: self, node: Some(0), index: 0 }
        } else {
            proof {
                assert(ns =~= Seq::<Seq<T>>::empty());
            }
            Cursor { list: self, node: None, index: 0 }
        }
    }

    /// A read-only cursor at the last element, or at the ghost position if
    /// the list is empty.
    pub fn cursor_back(&self) -> (c: Cursor<'_, T, COUNT>)
        requires
            self.wf(),
        ensures
            c.wf(),
            c@ == self@,
            c.pos() == step_prev(self@.len() as int, None::<int>),
    {
        let ghost ns = self.node_seqs();
        let n = self.nodes.len();
        if n > 0 {
            proof {
                lemma_prefix_len_step(ns, n as int - 1);
                lemma_prefix_len_total(ns);
                lemma_prefix_len_bounds(ns, n as int - 1);
            }
            Cursor { list: self, node: Some(n - 1), index: self.nodes[n - 1].values.len() - 1 }
        } else {
            proof {
                assert(ns =~= Seq::<Seq<T>>::empty());
            }
            Cursor { list: self, node: None, index: 0 }
        }
    }

    /// A mutating cursor at the first element, or at the ghost position if
    /// the list is empty. The cursor takes the list over; [`CursorMut::into_list`]
    /// gives it back.
    pub fn cursor_mut_front(self) -> (c: CursorMut<T, COUNT>)
        requires
            self.wf(),
        ensures
            c.wf(),
            c@ == self@,
            c.pos() == step_next(self@.len() as int, None::<int>),
    {
        let ghost ns = self.node_seqs();
        if self.nodes.len() > 0 {
            proof {
                assert(ns.take(0) =~= Seq::<Seq<T>>::empty());
                assert(Seq::<Seq<T>>::empty().flatten() =~= Seq::<T>::empty());
                lemma_flatten_first(ns);
            }
            CursorMut { list: self, node: Some(0), index: 0 }
        } else {
            proof {
                assert(ns =~= Seq::<Seq<T>>::empty());
            }
            CursorMut { list: self, node: None, index: 0 }
        }
    }

    /// A mutating cursor at the last element, or at the ghost position if
    /// the list is empty. The cursor takes the list over; [`CursorMut::into_list`]
    /// gives it back.
    pub fn cursor_mut_back(self) -> (c: CursorMut<T, COUNT>)
        requires
            self.wf(),
        ensures
            c.wf(),
            c@ == self@,
            c.pos() == step_prev(self@.len() as int, None::<int>),
    {
        let ghost ns = self.node_seqs();
        let n = self.nodes.len();
        if n > 0 {
            proof {
                lemma_prefix_len_step(ns, n as int - 1);
                lemma_prefix_len_total(ns);
                lemma_prefix_len_bounds(ns, n as int - 1);
            }
            let index = self.nodes[n - 1].values.len() - 1;
            CursorMut { list: self, node: Some(n - 1), index }
        } else {
            proof {
                assert(ns =~= Seq::<Seq<T>>::empty());
            }
            CursorMut { list: self, node: None, index: 0 }
        }
    }
}

/// A read-only cursor for navigating the packed list.
pub struct Cursor<'a, T, const COUNT: usize> {
    list: &'a PackedLinkedList<T, COUNT>,
    node: Option<usize>,
    index: usize,
}

impl<'a, T, const COUNT: usize> View for Cursor<'a, T, COUNT> {
    type V = Seq<T>;

    /// The elements of the list under the cursor, in traversal order.
    closed spec fn view(&self) -> Seq<T> {
        self.list@
    }
}

impl<'a, T, const COUNT: usize> Cursor<'a, T, COUNT> {
    /// Well-formedness: the list is well formed and the cursor addresses a
    /// live element of it or the ghost position.
    pub closed spec fn wf(self) -> bool {
        self.list.wf() && self.list.pos_wf(self.node, self.index)
    }

    /// The cursor position: the flattened position of the current element,
    /// or none at the ghost position.
    pub closed spec fn pos(self) -> Option<int> {
        self.list.pos_of(self.node, self.index)
    }

    /// The current element, or nothing at the ghost position.
    pub fn get(&self) -> (r: Option<&'a T>)
        requires
            self.wf(),
        ensures
            match self.pos() {
                None => r is None,
                Some(p) => r == Some(&self@[p]),
            },
    {
        self.list.read_at(self.node, self.index)
    }

    /// Moves the cursor one element forward, or onto the ghost position past
    /// the last element, or from the ghost position onto the first element.
    pub fn move_next(&mut self)
        requires
            old(self).wf(),
        ensures
            final(self).wf(),
            final(self)@ == old(self)@,
            final(self).pos() == step_next(old(self)@.len() as int, old(self).pos()),
    {
        let r = self.list.nav_next(self.node, self.index);
        self.node = r.0;
        self.index = r.1;
    }

    /// Moves the cursor one element backward, or onto the ghost position
    /// before the first element, or from the ghost position onto the last
    /// element.
    pub fn move_prev(&mut self)
        requires
            old(self).wf(),
        ensures
            final(self).wf(),
            final(self)@ == old(self)@,
            final(self).pos() == step_prev(old(self)@.len() as int, old(self).pos()),
    {
        let r = self.list.nav_prev(self.node, self.index);
        self.node = r.0;
        self.index = r.1;
    }
}

/// A cursor for navigating and editing the packed list.
///
/// The cursor owns the list while it is alive and releases it through
/// [`CursorMut::into_list`], which enforces that at most one mutating view
/// exists at a time.
pub struct CursorMut<T, const COUNT: usize> {
    list: PackedLinkedList<T, COUNT>,
    node: Option<usize>,
    index: usize,
}

impl<T, const COUNT: usize> View for CursorMut<T, COUNT> {
    type V = Seq<T>;

    /// The elements of the list under the cursor, in traversal order.
    closed spec fn view(&self) -> Seq<T> {
        self.list@
    }
}

impl<T, const COUNT: usize> CursorMut<T, COUNT> {
    /// Well-formedness: the list is well formed and the cursor addresses a
    /// live element of it or the ghost position.
    pub closed spec fn wf(self) -> bool {
        self.list.wf() && self.list.pos_wf(self.node, self.index)
    }

    /// The cursor position: the flattened position of the current element,
    /// or none at the ghost position.
    pub closed spec fn pos(self) -> Option<int> {
        self.list.pos_of(self.node, self.index)
    }

    /// Releases the list the cursor was editing.
    pub fn into_list(self) -> (r: PackedLinkedList<T, COUNT>)
        requires
            self.wf(),
        ensures
            r.wf(),
            r@ == self@,
    {
        self.list
    }

    /// The current element, or nothing at the ghost position.
    pub fn get(&self) -> (r: Option<&T>)
        requires
            self.wf(),
        ensures
            match self.pos() {
                None => r is None,
                Some(p) => r == Some(&self@[p]),
            },
    {
        self.list.read_at(self.node, self.index)
    }

    /// Moves the cursor one element forward, or onto the ghost position past
    /// the last element, or from the ghost position onto the first element.
    pub fn move_next(&mut self)
        requires
            old(self).wf(),
        ensures
            final(self).wf(),
            final(self)@ == old(self)@,
            final(self).pos() == step_next(old(self)@.len() as int, old(self).pos()),
    {
        let r = self.list.nav_next(self.node, self.index);
        self.node = r.0;
        self.index = r.1;
    }

    /// Moves the cursor one element backward, or onto the ghost position
    /// before the first element, or from the ghost position onto the last
    /// element.
    pub fn move_prev(&mut self)
        requires
            old(self).wf(),
        ensures
            final(self).wf(),
            final(self)@ == old(self)@,
            final(self).pos() == step_prev(old(self)@.len() as int, old(self).pos()),
    {
        let r = self.list.nav_prev(self.node, self.index);
        self.node = r.0;
        self.index = r.1;
    }

    /// Inserts a new element immediately after the cursor position, without
    /// moving the cursor off its element.
    ///
    /// At the ghost position the element becomes the new front of the list.
    /// Appending to a full node spills the element into the front of the
    /// next node when that node has room; otherwise a new node is linked
    /// after the current one. Inserting inside a full node splits it: the
    /// elements after the cursor move into a new node linked right after the
    /// current one, which bounds how many elements any insertion copies.
    #[verifier::rlimit(50)]
    pub fn insert_after(&mut self, element: T)
        requires
            old(self).wf(),
            COUNT >= 1,
            old(self)@.len() < usize::MAX,
        ensures
            final(self).wf(),
            final(self)@ == (match old(self).pos() {
                None => old(self)@.insert(0, element),
                Some(p) => old(self)@.insert(p + 1, element),
            }),
            final(self).pos() == old(self).pos(),
    {
        let ghost ns = self.list.node_seqs();
        match self.node {
            None => {
                self.list.push_front(element);
            },
            Some(k) => {
                let ghost ki = k as int;
                let ghost i = self.index as int;
                let ghost p = prefix_len(ns, ki) + i;
                let idx = self.index;
                proof {
                    lemma_flatten_decompose(ns, ki);
                    lemma_prefix_len_step(ns, ki);
                    lemma_prefix_len_bounds(ns, ki);
                    lemma_prefix_len_total(ns);
                }
                let n = self.list.nodes.len();
                let size = self.list.nodes[k].values.len();
                if size < COUNT {
                    // room in the current node
                    let node = &mut self.list.nodes[k];
                    node.values.insert(idx + 1, element);
                    self.list.len = self.list.len + 1;
                    proof {
                        let s = ns[ki].insert(i + 1, element);
                        assert(self.list.node_seqs() =~= ns.update(ki, s));
                        lemma_flatten_update(ns, ki, s);
                        assert(self.list.node_seqs().take(ki) =~= ns.take(ki));
                        assert(self.list@ =~= old(self)@.insert(p + 1, element));
                    }
                } else if idx + 1 == size {
                    // appending after a full node
                    let spill = k + 1 < n && self.list.nodes[k + 1].values.len() < COUNT;
                    if spill {
                        // the next node has room at its front
                        let node = &mut self.list.nodes[k + 1];
                        node.values.insert(0, element);
                        self.list.len = self.list.len + 1;
                        proof {
                            let s = ns[ki + 1].insert(0, element);
                            assert(self.list.node_seqs() =~= ns.update(ki + 1, s));
                            lemma_flatten_update(ns, ki + 1, s);
                            lemma_flatten_decompose(ns, ki + 1);
                            assert(ns.update(ki + 1, s).take(ki + 1) =~= ns.take(ki + 1));
                            assert(self.list.node_seqs().take(ki) =~= ns.take(ki));
                            assert(self.list@ =~= old(self)@.insert(p + 1, element));
                        }
                    } else {
                        // the next node is absent or full: link a new node
                        let mut vs = Vec::new();
                        vs.push(element);
                        self.list.nodes.insert(k + 1, Node { values: vs });
                        self.list.len = self.list.len + 1;
                        proof {
                            assert(self.list.node_seqs() =~= ns.insert(ki + 1, seq![element]));
                            lemma_flatten_insert(ns, ki + 1, seq![element]);
                            lemma_flatten_split(ns, ki + 1);
                            assert(self.list.node_seqs().take(ki) =~= ns.take(ki));
                            assert(self.list@ =~= old(self)@.insert(p + 1, element));
                        }
                    }
                } else {
                    // inserting inside a full node: split off its tail
                    let node = &mut self.list.nodes[k];
                    let tail = node.values.split_off(idx + 1);
                    node.values.push(element);
                    self.list.nodes.insert(k + 1, Node { values: tail });
                    self.list.len = self.list.len + 1;
                    proof {
                        let x = ns[ki].subrange(0, i + 1).push(element);
                        let y = ns[ki].subrange(i + 1, ns[ki].len() as int);
                        let m1 = ns.update(ki, x);
                        assert(self.list.node_seqs() =~= m1.insert(ki + 1, y));
                        lemma_flatten_update(ns, ki, x);
                        lemma_flatten_insert(m1, ki + 1, y);
                        assert(m1.take(ki + 1) =~= ns.take(ki).push(x));
                        ns.take(ki).lemma_flatten_push(x);
                        assert(m1.skip(ki + 1) =~= ns.skip(ki + 1));
                        assert(self.list.node_seqs().take(ki) =~= ns.take(ki));
                        assert(self.list@ =~= old(self)@.insert(p + 1, element));
                    }
                }
            },
        }
    }

    /// Inserts a new element immediately before the cursor position, without
    /// moving the cursor off its element.
    ///
    /// At the ghost position the element becomes the new back of the list.
    /// Inserting into a full node splits it: the cursor's element and those
    /// after it move into a new node linked right after the current one.
    pub fn insert_before(&mut self, element: T)
        requires
            old(self).wf(),
            COUNT >= 1,
            old(self)@.len() < usize::MAX,
        ensures
            final(self).wf(),
            final(self)@ == (match old(self).pos() {
                None => old(self)@.push(element),
                Some(p) => old(self)@.insert(p, element),
            }),
            final(self).pos() == (match old(self).pos() {
                None => None::<int>,
                Some(p) => Some(p + 1),
            }),
    {
        let ghost ns = self.list.node_seqs();
        match self.node {
            None => {
                self.list.push_back(element);
                proof {
                    assert(old(self)@.push(element) =~= old(self)@.insert(
                        old(self)@.len() as int,
                        element,
                    ));
                }
            },
            Some(k) => {
                let ghost ki = k as int;
                let ghost i = self.index as int;
                let ghost p = prefix_len(ns, ki) + i;
                let idx = self.index;
                proof {
                    lemma_flatten_decompose(ns, ki);
                    lemma_prefix_len_step(ns, ki);
                    lemma_prefix_len_bounds(ns, ki);
                    lemma_prefix_len_total(ns);
                }
                let n = self.list.nodes.len();
                proof {
                    assert(ki < n);
                }
                let size = self.list.nodes[k].values.len();
                if size < COUNT {
                    // room in the current node
                    let node = &mut self.list.nodes[k];
                    node.values.insert(idx, element);
                    self.index = idx + 1;
                    self.list.len = self.list.len + 1;
                    proof {
                        let s = ns[ki].insert(i, element);
                        assert(self.list.node_seqs() =~= ns.update(ki, s));
                        lemma_flatten_update(ns, ki, s);
                        assert(self.list.node_seqs().take(ki) =~= ns.take(ki));
                        assert(self.list@ =~= old(self)@.insert(p, element));
                    }
                } else {
                    // the node is full: split it at the cursor
                    let node = &mut self.list.nodes[k];
                    let tail = node.values.split_off(idx);
                    node.values.push(element);
                    self.list.nodes.insert(k + 1, Node { values: tail });
                    self.node = Some(k + 1);
                    self.index = 0;
                    self.list.len = self.list.len + 1;
                    proof {
                        let x = ns[ki].subrange(0, i).push(element);
                        let y = ns[ki].subrange(i, ns[ki].len() as int);
                        let m1 = ns.update(ki, x);
                        assert(self.list.node_seqs() =~= m1.insert(ki + 1, y));
                        lemma_flatten_update(ns, ki, x);
                        lemma_flatten_insert(m1, ki + 1, y);
                        assert(m1.take(ki + 1) =~= ns.take(ki).push(x));
                        ns.take(ki).lemma_flatten_push(x);
                        assert(m1.skip(ki + 1) =~= ns.skip(ki + 1));
                        assert(self.list.node_seqs().take(ki) =~= ns.take(ki));
                        lemma_prefix_len_step(self.list.node_seqs(), ki);
                        assert(self.list@ =~= old(self)@.insert(p, element));
                    }
                }
            },
        }
    }

    /// Replaces the element under the cursor and returns the old one, or
    /// returns nothing and leaves the list unchanged at the ghost position,
    /// where there is no element to replace.
    pub fn replace(&mut self, element: T) -> (r: Option<T>)
        requires
            old(self).wf(),
        ensures
            final(self).wf(),
            final(self).pos() == old(self).pos(),
            match old(self).pos() {
                None => r is None && final(self)@ == old(self)@,
                Some(p) => r == Some(old(self)@[p]) && final(self)@ == old(self)@.update(
                    p,
                    element,
                ),
            },
    {
        let ghost ns = self.list.node_seqs();
        match self.node {
            None => None,
            Some(k) => {
                let ghost ki = k as int;
                let ghost i = self.index as int;
                let idx = self.index;
                proof {
                    lemma_flatten_index(ns, ki, i);
                }
                let node = &mut self.list.nodes[k];
                let r = node.values.remove(idx);
                node.values.insert(idx, element);
                proof {
                    let s = ns[ki].remove(i).insert(i, element);
                    assert(s =~= ns[ki].update(i, element));
                    assert(self.list.node_seqs() =~= ns.update(ki, ns[ki].update(i, element)));
                    lemma_flatten_update(ns, ki, ns[ki].update(i, element));
                    lemma_flatten_decompose(ns, ki);
                    assert(self.list.node_seqs().take(ki) =~= ns.take(ki));
                    assert(self.list@ =~= old(self)@.update(prefix_len(ns, ki) + i, element));
                }
                Some(r)
            },
        }
    }

    /// Removes the element under the cursor and returns it, or returns
    /// nothing and leaves the list unchanged at the ghost position. The
    /// cursor moves onto the element that followed the removed one, or onto
    /// the ghost position when the removed element was the last. A node
    /// whose only element is removed is unlinked from the chain.
    pub fn remove(&mut self) -> (r: Option<T>)
        requires
            old(self).wf(),
        ensures
            final(self).wf(),
            match old(self).pos() {
                None => r is None && final(self)@ == old(self)@ && final(self).pos() is None,
                Some(p) => r == Some(old(self)@[p]) && final(self)@ == old(self)@.remove(p)
                    && final(self).pos() == (if p < old(self)@.len() - 1 {
                    Some(p)
                } else {
                    None::<int>
                }),
            },
    {
        let ghost ns = self.list.node_seqs();
        match self.node {
            None => None,
            Some(k) => {
                let ghost ki = k as int;
                let ghost i = self.index as int;
                let ghost p = prefix_len(ns, ki) + i;
                let idx = self.index;
                proof {
                    lemma_flatten_index(ns, ki, i);
                    lemma_flatten_decompose(ns, ki);
                    lemma_prefix_len_step(ns, ki);
                    lemma_prefix_len_bounds(ns, ki);
                    lemma_prefix_len_total(ns);
                }
                let n = self.list.nodes.len();
                proof {
                    assert(ki < n);
                }
                let size = self.list.nodes[k].values.len();
                let item;
                if size == 1 {
                    // the node becomes empty: unlink it from the chain
                    let mut nd = self.list.nodes.remove(k);
                    item = match nd.values.pop() {
                        Some(v) => v,
                        None => {
                            proof {
                                assert(false);
                            }
                            unreached()
                        },
                    };
                    proof {
                        assert(self.list.node_seqs() =~= ns.remove(ki));
                        lemma_flatten_remove(ns, ki);
                        assert(self.list.node_seqs().take(ki) =~= ns.take(ki));
                        assert(self.list@ =~= old(self)@.remove(p));
                    }
                    if k < self.list.nodes.len() {
                        // the following node moved into place `k`
                        self.index = 0;
                        proof {
                            lemma_prefix_len_step(self.list.node_seqs(), ki);
                            lemma_prefix_len_bounds(self.list.node_seqs(), ki + 1);
                        }
                    } else {
                        self.node = None;
                        self.index = 0;
                        proof {
                            lemma_prefix_len_total(self.list.node_seqs());
                        }
                    }
                } else {
                    let node = &mut self.list.nodes[k];
                    item = node.values.remove(idx);
                    proof {
                        let s = ns[ki].remove(i);
                        assert(self.list.node_seqs() =~= ns.update(ki, s));
                        lemma_flatten_update(ns, ki, s);
                        assert(self.list.node_seqs().take(ki) =~= ns.take(ki));
                        assert(self.list@ =~= old(self)@.remove(p));
                    }
                    let new_size = size - 1;
                    if idx == new_size {
                        // the removed element closed this node: move on
                        proof {
                            lemma_prefix_len_step(self.list.node_seqs(), ki);
                            lemma_prefix_len_total(self.list.node_seqs());
                        }
                        if k + 1 < n {
                            self.node = Some(k + 1);
                            self.index = 0;
                            proof {
                                lemma_prefix_len_step(self.list.node_seqs(), ki + 1);
                                lemma_prefix_len_bounds(self.list.node_seqs(), ki + 2);
                            }
                        } else {
                            self.node = None;
                            self.index = 0;
                        }
                    }
                }
                self.list.len = self.list.len - 1;
                Some(item)
            },
        }
    }
}

} // verus!
