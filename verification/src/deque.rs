//! A doubly-linked deque over a node table addressed by stable indices.
//!
//! Every node is reachable from two directions: its successor holds its
//! index in `prev` and its predecessor holds it in `next`. The nodes live
//! in a slot table owned by the list itself, and the links are slot
//! indices, so repairing both directions on push and pop is ordinary
//! in-place mutation; popped slots are recycled through a free list. The
//! list's well-formedness predicate `wf` captures the doubly-linked-chain
//! invariant: the head node has no predecessor, the tail node has no
//! successor, and the `next` and `prev` links of neighbouring nodes agree.
//!
//! Addressing nodes through stable indices into a table stands in for
//! shared ownership with runtime-checked interior mutability. It keeps the
//! table the sole owner of every node, so popping extracts the node's
//! element by value with no run-time ownership check to fail: the
//! single-owner-at-removal condition holds by construction and is part of
//! what `wf` proves, rather than a fatal error detected when violated.

use vstd::prelude::*;

verus! {

/// A single node of the deque: an element and the slot indices of its two
/// neighbours.
pub struct Node<T> {
    elem: T,
    prev: Option<usize>,
    next: Option<usize>,
}

/// A doubly-linked deque with push, pop and peek at both ends.
pub struct List<T> {
    slots: Vec<Option<Node<T>>>,
    head: Option<usize>,
    tail: Option<usize>,
    free: Vec<usize>,
    order: Ghost<Seq<usize>>,
}

impl<T> List<T> {
    /// The slot indices of the chain's nodes, front to back.
    spec fn ord(self) -> Seq<usize> {
        self.order@
    }

    /// The slot index of the front node, if any.
    pub closed spec fn head_index(self) -> Option<usize> {
        self.head
    }

    /// The slot index of the back node, if any.
    pub closed spec fn tail_index(self) -> Option<usize> {
        self.tail
    }

    /// The `prev` link of the node in slot `i`.
    pub closed spec fn prev_of(self, i: usize) -> Option<usize> {
        self.slots@[i as int].unwrap().prev
    }

    /// The `next` link of the node in slot `i`.
    pub closed spec fn next_of(self, i: usize) -> Option<usize> {
        self.slots@[i as int].unwrap().next
    }

    /// The free list only names empty slots, and names each at most once.
    spec fn free_wf(self) -> bool {
        &&& forall|q: int|
            0 <= q < self.free@.len() ==> (#[trigger] self.free@[q]) < self.slots.len()
        &&& forall|q: int|
            0 <= q < self.free@.len() ==> (#[trigger] self.slots@[self.free@[q] as int]) is None
        &&& forall|p: int, q: int|
            0 <= p < q < self.free@.len() ==> self.free@[p] != self.free@[q]
    }

    /// The chain is a simple doubly-linked path through occupied slots:
    /// `head` and `tail` are its two endpoints, the head node's `prev` and
    /// the tail node's `next` are absent, and each inner node and its
    /// successor point at one another.
    spec fn chain_wf(self) -> bool {
        let ord = self.ord();
        &&& forall|p: int| 0 <= p < ord.len() ==> (#[trigger] ord[p]) < self.slots.len()
        &&& forall|p: int|
            0 <= p < ord.len() ==> (#[trigger] self.slots@[ord[p] as int]) is Some
        &&& forall|p: int, q: int| 0 <= p < q < ord.len() ==> ord[p] != ord[q]
        &&& (if ord.len() == 0 {
            self.head is None && self.tail is None
        } else {
            self.head == Some(ord[0]) && self.tail == Some(ord[ord.len() - 1])
        })
        &&& forall|p: int|
            0 <= p < ord.len() ==> (#[trigger] self.slots@[ord[p] as int].unwrap().prev) == (
            if p == 0 {
                None::<usize>
            } else {
                Some(ord[p - 1])
            })
        &&& forall|p: int|
            0 <= p < ord.len() ==> (#[trigger] self.slots@[ord[p] as int].unwrap().next) == (
            if p == ord.len() - 1 {
                None::<usize>
            } else {
                Some(ord[p + 1])
            })
    }

    /// Well-formedness of the whole deque. Constructors establish it and
    /// every operation preserves it.
    pub closed spec fn wf(self) -> bool {
        self.free_wf() && self.chain_wf()
    }
}

impl<T> View for List<T> {
    type V = Seq<T>;

    closed spec fn view(&self) -> Seq<T> {
        Seq::new(self.ord().len(), |p: int| self.slots@[self.ord()[p] as int].unwrap().elem)
    }
}

impl<T> List<T> {
    /// Creates an empty deque.
    pub fn new() -> (r: Self)
        ensures
            r.wf(),
            r@ == Seq::<T>::empty(),
    {
        let r = Self {
            slots: Vec::new(),
            head: None,
            tail: None,
            free: Vec::new(),
            order: Ghost(Seq::empty()),
        };
        proof {
            assert(r@ =~= Seq::<T>::empty());
        }
        r
    }

    /// Stores `node` in an empty slot, reusing a freed slot when one is
    /// available, and returns the slot's index.
    fn reserve_slot(&mut self, node: Node<T>) -> (idx: usize)
        requires
            old(self).free_wf(),
        ensures
            final(self).free_wf(),
            final(self).head == old(self).head,
            final(self).tail == old(self).tail,
            final(self).order == old(self).order,
            idx < final(self).slots.len(),
            idx == final(self).slots.len() - 1 || idx < old(self).slots.len(),
            idx < old(self).slots.len() ==> old(self).slots@[idx as int] is None
                && final(self).slots@ == old(self).slots@.update(idx as int, Some(node)),
            idx >= old(self).slots.len() ==> final(self).slots@ == old(self).slots@.push(
                Some(node),
            ),
    {
        match self.free.pop() {
            Some(idx) => {
                self.slots[idx] = Some(node);
                idx
            },
            None => {
                let idx = self.slots.len();
                self.slots.push(Some(node));
                idx
            },
        }
    }

    /// Empties slot `i`, returning its node and adding the slot to the
    /// free list.
    fn release(&mut self, i: usize) -> (node: Node<T>)
        requires
            old(self).free_wf(),
            i < old(self).slots.len(),
            old(self).slots@[i as int] is Some,
        ensures
            final(self).free_wf(),
            final(self).head == old(self).head,
            final(self).tail == old(self).tail,
            final(self).order == old(self).order,
            node == old(self).slots@[i as int].unwrap(),
            final(self).slots@ == old(self).slots@.update(i as int, None),
    {
        let mut slot: Option<Node<T>> = None;
        core::mem::swap(&mut slot, &mut self.slots[i]);
        self.free.push(i);
        match slot {
            Some(node) => node,
            None => unreached(),
        }
    }

    /// Pushes an element onto the front of the deque: the new node becomes
    /// the head, and the old head node's `prev` link is repaired to point
    /// at it.
    pub fn push_front(&mut self, elem: T)
        requires
            old(self).wf(),
        ensures
            final(self).wf(),
            final(self)@ == seq![elem] + old(self)@,
    {
        let ghost ord0 = self.ord();
        let ghost slots0 = self.slots@;
        let h = self.head;
        let idx = self.reserve_slot(Node { elem, prev: None, next: h });
        proof {
            assert(forall|p: int|
                0 <= p < ord0.len() ==> (#[trigger] ord0[p]) != idx && ord0[p]
                    < self.slots.len() && self.slots@[ord0[p] as int] == slots0[ord0[p] as int]);
        }
        match h {
            Some(old_head) => {
                proof {
                    assert(ord0.len() > 0 && ord0[0] == old_head);
                }
                self.set_prev(old_head, Some(idx));
                self.head = Some(idx);
            },
            None => {
                proof {
                    assert(ord0.len() == 0);
                }
                self.head = Some(idx);
                self.tail = Some(idx);
            },
        }
        self.order = Ghost(seq![idx] + ord0);
        proof {
            let ord1 = self.ord();
            assert(forall|p: int| 1 <= p < ord1.len() ==> (#[trigger] ord1[p]) == ord0[p - 1]);
            assert(self.slots@[idx as int] == Some(
                Node { elem, prev: None::<usize>, next: h },
            ));
            assert(forall|p: int|
                1 <= p < ord1.len() ==> (#[trigger] self.slots@[ord1[p] as int]) == (if p == 1
                    && h is Some {
                    Some(
                        Node {
                            elem: slots0[ord0[0] as int].unwrap().elem,
                            prev: Some(idx),
                            next: slots0[ord0[0] as int].unwrap().next,
                        },
                    )
                } else {
                    slots0[ord0[p - 1] as int]
                }));
            assert(self.chain_wf());
            assert(self.free_wf());
            assert(self@ =~= seq![elem] + old(self)@);
        }
    }

    /// Pushes an element onto the back of the deque: the new node becomes
    /// the tail, and the old tail node's `next` link is repaired to point
    /// at it.
    pub fn push_back(&mut self, elem: T)
        requires
            old(self).wf(),
        ensures
            final(self).wf(),
            final(self)@ == old(self)@.push(elem),
    {
        let ghost ord0 = self.ord();
        let ghost slots0 = self.slots@;
        let t = self.tail;
        let idx = self.reserve_slot(Node { elem, prev: t, next: None });
        proof {
            assert(forall|p: int|
                0 <= p < ord0.len() ==> (#[trigger] ord0[p]) != idx && ord0[p]
                    < self.slots.len() && self.slots@[ord0[p] as int] == slots0[ord0[p] as int]);
        }
        match t {
            Some(old_tail) => {
                proof {
                    assert(ord0.len() > 0 && ord0[ord0.len() - 1] == old_tail);
                }
                self.set_next(old_tail, Some(idx));
                self.tail = Some(idx);
            },
            None => {
                proof {
                    assert(ord0.len() == 0);
                }
                self.head = Some(idx);
                self.tail = Some(idx);
            },
        }
        self.order = Ghost(ord0.push(idx));
        proof {
            let ord1 = self.ord();
            assert(forall|p: int| 0 <= p < ord0.len() ==> (#[trigger] ord1[p]) == ord0[p]);
            assert(self.slots@[idx as int] == Some(
                Node { elem, prev: t, next: None::<usize> },
            ));
            assert(forall|p: int|
                0 <= p < ord0.len() ==> (#[trigger] self.slots@[ord1[p] as int]) == (if p
                    == ord0.len() - 1 && t is Some {
                    Some(
                        Node {
                            elem: slots0[ord0[p] as int].unwrap().elem,
                            prev: slots0[ord0[p] as int].unwrap().prev,
                            next: Some(idx),
                        },
                    )
                } else {
                    slots0[ord0[p] as int]
                }));
            assert(self.chain_wf());
            assert(self.free_wf());
            assert(self@ =~= old(self)@.push(elem));
        }
    }

    /// Removes and returns the front element, or `None` when the deque is
    /// empty. The second node, if any, becomes the head and its `prev`
    /// link is cleared; removing the last node clears both endpoints.
    pub fn pop_front(&mut self) -> (r: Option<T>)
        requires
            old(self).wf(),
        ensures
            final(self).wf(),
            match r {
                None => old(self)@.len() == 0 && final(self)@ == old(self)@,
                Some(e) => old(self)@.len() > 0 && e == old(self)@[0] && final(self)@ == old(
                    self,
                )@.drop_first(),
            },
    {
        let ghost ord0 = self.ord();
        let ghost slots0 = self.slots@;
        match self.head {
            None => {
                proof {
                    assert(ord0.len() == 0);
                }
                None
            },
            Some(h) => {
                proof {
                    assert(ord0.len() > 0 && ord0[0] == h);
                }
                let node = self.release(h);
                match node.next {
                    Some(n) => {
                        proof {
                            assert(ord0.len() >= 2 && ord0[1] == n);
                            assert(self.slots@[n as int] == slots0[n as int]);
                        }
                        self.set_prev(n, None);
                        self.head = Some(n);
                        self.order = Ghost(ord0.drop_first());
                        proof {
                            let ord1 = self.ord();
                            assert(forall|p: int|
                                0 <= p < ord1.len() ==> (#[trigger] ord1[p]) == ord0[p + 1]);
                            assert(forall|p: int|
                                1 <= p < ord1.len() ==> ord1[p] != h && ord1[p] != n);
                            assert(forall|p: int|
                                0 <= p < ord1.len() ==> (#[trigger] self.slots@[ord1[p] as int])
                                    == (if p == 0 {
                                    Some(
                                        Node {
                                            elem: slots0[n as int].unwrap().elem,
                                            prev: None::<usize>,
                                            next: slots0[n as int].unwrap().next,
                                        },
                                    )
                                } else {
                                    slots0[ord0[p + 1] as int]
                                }));
                            assert(self.chain_wf());
                            assert(self.free_wf());
                            assert(self@ =~= old(self)@.drop_first());
                        }
                    },
                    None => {
                        proof {
                            assert(ord0.len() == 1);
                        }
                        self.head = None;
                        self.tail = None;
                        self.order = Ghost(ord0.drop_first());
                        proof {
                            assert(self.ord().len() == 0);
                            assert(self.chain_wf());
                            assert(self.free_wf());
                            assert(self@ =~= old(self)@.drop_first());
                        }
                    },
                }
                Some(node.elem)
            },
        }
    }

    /// Removes and returns the back element, or `None` when the deque is
    /// empty. The next-to-last node, if any, becomes the tail and its
    /// `next` link is cleared; removing the last node clears both
    /// endpoints.
    pub fn pop_back(&mut self) -> (r: Option<T>)
        requires
            old(self).wf(),
        ensures
            final(self).wf(),
            match r {
                None => old(self)@.len() == 0 && final(self)@ == old(self)@,
                Some(e) => old(self)@.len() > 0 && e == old(self)@.last() && final(self)@ == old(
                    self,
                )@.drop_last(),
            },
    {
        let ghost ord0 = self.ord();
        let ghost slots0 = self.slots@;
        match self.tail {
            None => {
                proof {
                    assert(ord0.len() == 0);
                }
                None
            },
            Some(t) => {
                proof {
                    assert(ord0.len() > 0 && ord0[ord0.len() - 1] == t);
                }
                let node = self.release(t);
                match node.prev {
                    Some(p) => {
                        proof {
                            assert(ord0.len() >= 2 && ord0[ord0.len() - 2] == p);
                            assert(self.slots@[p as int] == slots0[p as int]);
                        }
                        self.set_next(p, None);
                        self.tail = Some(p);
                        self.order = Ghost(ord0.drop_last());
                        proof {
                            let ord1 = self.ord();
                            assert(forall|q: int|
                                0 <= q < ord1.len() ==> (#[trigger] ord1[q]) == ord0[q]);
                            assert(forall|q: int|
                                0 <= q < ord1.len() - 1 ==> ord1[q] != t && ord1[q] != p);
                            assert(forall|q: int|
                                0 <= q < ord1.len() ==> (#[trigger] self.slots@[ord1[q] as int])
                                    == (if q == ord1.len() - 1 {
                                    Some(
                                        Node {
                                            elem: slots0[p as int].unwrap().elem,
                                            prev: slots0[p as int].unwrap().prev,
                                            next: None::<usize>,
                                        },
                                    )
                                } else {
                                    slots0[ord0[q] as int]
                                }));
                            assert(self.chain_wf());
                            assert(self.free_wf());
                            assert(self@ =~= old(self)@.drop_last());
                        }
                    },
                    None => {
                        proof {
                            assert(ord0.len() == 1);
                        }
                        self.head = None;
                        self.tail = None;
                        self.order = Ghost(ord0.drop_last());
                        proof {
                            assert(self.ord().len() == 0);
                            assert(self.chain_wf());
                            assert(self.free_wf());
                            assert(self@ =~= old(self)@.drop_last());
                        }
                    },
                }
                Some(node.elem)
            },
        }
    }

    /// Mutably borrows the element in slot `i`, leaving the slot's links
    /// untouched.
    fn elem_mut(&mut self, i: usize) -> (r: &mut T)
        requires
            i < old(self).slots.len(),
            old(self).slots@[i as int] is Some,
        ensures
            *r == old(self).slots@[i as int].unwrap().elem,
            final(self).head == old(self).head,
            final(self).tail == old(self).tail,
            final(self).order == old(self).order,
            final(self).free == old(self).free,
            final(self).slots@ == old(self).slots@.update(
                i as int,
                Some(
                    Node {
                        elem: *final(r),
                        prev: old(self).slots@[i as int].unwrap().prev,
                        next: old(self).slots@[i as int].unwrap().next,
                    },
                ),
            ),
    {
        match &mut self.slots[i] {
            Some(node) => &mut node.elem,
            None => unreached(),
        }
    }

    /// Borrows the front element, or returns `None` when the deque is
    /// empty.
    pub fn peek_front(&self) -> (r: Option<&T>)
        requires
            self.wf(),
        ensures
            match r {
                None => self@.len() == 0,
                Some(e) => self@.len() > 0 && *e == self@[0],
            },
    {
        match self.head {
            None => None,
            Some(h) => {
                proof {
                    assert(self.ord()[0] == h);
                }
                match &self.slots[h] {
                    Some(node) => Some(&node.elem),
                    None => unreached(),
                }
            },
        }
    }

    /// Borrows the back element, or returns `None` when the deque is
    /// empty.
    pub fn peek_back(&self) -> (r: Option<&T>)
        requires
            self.wf(),
        ensures
            match r {
                None => self@.len() == 0,
                Some(e) => self@.len() > 0 && *e == self@.last(),
            },
    {
        match self.tail {
            None => None,
            Some(t) => {
                proof {
                    assert(self.ord()[self.ord().len() - 1] == t);
                }
                match &self.slots[t] {
                    Some(node) => Some(&node.elem),
                    None => unreached(),
                }
            },
        }
    }

    /// Mutably borrows the front element, or returns `None` when the deque
    /// is empty. The new view replaces the front element with whatever the
    /// caller writes through the returned reference.
    pub fn peek_front_mut(&mut self) -> (r: Option<&mut T>)
        requires
            old(self).wf(),
        ensures
            final(self).wf(),
            old(self)@.len() == 0 ==> r is None && final(self)@ == old(self)@,
            old(self)@.len() > 0 ==> r.is_some() && *r.unwrap() == old(self)@[0] && final(self)@
                == old(self)@.update(0, *final(r.unwrap())),
    {
        let ghost ord0 = self.ord();
        let ghost slots0 = self.slots@;
        match self.head {
            None => None,
            Some(h) => {
                proof {
                    assert(ord0[0] == h);
                }
                proof {
                    assert(forall|p: int| 1 <= p < ord0.len() ==> (#[trigger] ord0[p]) != h);
                }
                let e = self.elem_mut(h);
                Some(e)
            },
        }
    }

    /// Mutably borrows the back element, or returns `None` when the deque
    /// is empty. The new view replaces the back element with whatever the
    /// caller writes through the returned reference.
    pub fn peek_back_mut(&mut self) -> (r: Option<&mut T>)
        requires
            old(self).wf(),
        ensures
            final(self).wf(),
            old(self)@.len() == 0 ==> r is None && final(self)@ == old(self)@,
            old(self)@.len() > 0 ==> r.is_some() && *r.unwrap() == old(self)@.last()
                && final(self)@ == old(self)@.update(old(self)@.len() - 1, *final(r.unwrap())),
    {
        let ghost ord0 = self.ord();
        let ghost slots0 = self.slots@;
        match self.tail {
            None => None,
            Some(t) => {
                proof {
                    assert(ord0[ord0.len() - 1] == t);
                }
                proof {
                    assert(forall|p: int| 0 <= p < ord0.len() - 1 ==> (#[trigger] ord0[p]) != t);
                }
                let e = self.elem_mut(t);
                Some(e)
            },
        }
    }

    /// The slot index reached by walking `k` steps forward from the head
    /// along the `next` links.
    pub closed spec fn walk(self, k: nat) -> Option<usize>
        decreases k,
    {
        if k == 0 {
            self.head
        } else {
            match self.walk((k - 1) as nat) {
                Some(i) => self.next_of(i),
                None => None,
            }
        }
    }

    /// Re-points the `prev` link of the node in slot `i`.
    fn set_prev(&mut self, i: usize, p: Option<usize>)
        requires
            i < old(self).slots.len(),
            old(self).slots@[i as int] is Some,
        ensures
            final(self).head == old(self).head,
            final(self).tail == old(self).tail,
            final(self).order == old(self).order,
            final(self).free == old(self).free,
            final(self).slots@ == old(self).slots@.update(
                i as int,
                Some(
                    Node {
                        elem: old(self).slots@[i as int].unwrap().elem,
                        prev: p,
                        next: old(self).slots@[i as int].unwrap().next,
                    },
                ),
            ),
    {
        match &mut self.slots[i] {
            Some(node) => {
                node.prev = p;
            },
            None => {
                proof {
                    assert(false);
                }
            },
        }
    }

    /// Re-points the `next` link of the node in slot `i`.
    fn set_next(&mut self, i: usize, n: Option<usize>)
        requires
            i < old(self).slots.len(),
            old(self).slots@[i as int] is Some,
        ensures
            final(self).head == old(self).head,
            final(self).tail == old(self).tail,
            final(self).order == old(self).order,
            final(self).free == old(self).free,
            final(self).slots@ == old(self).slots@.update(
                i as int,
                Some(
                    Node {
                        elem: old(self).slots@[i as int].unwrap().elem,
                        prev: old(self).slots@[i as int].unwrap().prev,
                        next: n,
                    },
                ),
            ),
    {
        match &mut self.slots[i] {
            Some(node) => {
                node.next = n;
            },
            None => {
                proof {
                    assert(false);
                }
            },
        }
    }
}

proof fn lemma_walk_follows_chain<T>(l: List<T>, k: int)
    requires
        l.wf(),
        0 <= k < l.ord().len(),
    ensures
        l.walk(k as nat) == Some(l.ord()[k]),
    decreases k,
{
    if k > 0 {
        lemma_walk_follows_chain(l, k - 1);
    }
}

/// Endpoint invariant: every operation of the deque preserves `wf`, and
/// for any well-formed, non-empty deque the head node's `prev` link and
/// the tail node's `next` link are absent, and walking forward from the
/// head along the `next` links reaches the tail in exactly `size - 1`
/// steps.
pub proof fn lemma_endpoint_invariant<T>(l: List<T>)
    requires
        l.wf(),
        l@.len() > 0,
    ensures
        l.head_index() is Some,
        l.tail_index() is Some,
        l.prev_of(l.head_index().unwrap()) is None,
        l.next_of(l.tail_index().unwrap()) is None,
        l.walk((l@.len() - 1) as nat) == l.tail_index(),
{
    assert(l@.len() == l.ord().len());
    lemma_walk_follows_chain(l, l.ord().len() - 1);
}


} // verus!
