//! A persistent singly-linked chain with shared, reference-counted nodes.
//!
//! Nodes are immutable once created, so distinct list values may alias any
//! common suffix of a chain: `prepend` and `tail` return new list values
//! without copying or disturbing the receiver. Because suffixes are shared,
//! no mutable access to elements is offered. Tearing a list down walks the
//! chain iteratively and stops at the first node that another list still
//! references.

use std::rc::Rc;
use vstd::prelude::*;

verus! {

/// A persistent singly-linked list; many values may share one chain.
pub struct List<T> {
    head: Link<T>,
    name: String,
}

/// A single immutable node, shared by every list that reaches it.
pub struct Node<T> {
    elem: T,
    next: Link<T>,
}

type Link<T> = Option<Rc<Node<T>>>;

/// The elements reachable from a link, in chain order.
spec fn link_view<T>(l: Link<T>) -> Seq<T>
    decreases l,
{
    match l {
        None => Seq::empty(),
        Some(node) => seq![node.elem] + link_view(node.next),
    }
}

impl<T> View for List<T> {
    type V = Seq<T>;

    closed spec fn view(&self) -> Seq<T> {
        link_view(self.head)
    }
}

impl<T: PartialEq> List<T> {
    /// Creates an empty list carrying a name for diagnostics.
    pub fn new(name: String) -> (r: List<T>)
        ensures
            r@ == Seq::<T>::empty(),
    {
        Self { head: None, name }
    }

    /// Returns a new list whose head holds `elem` and whose tail is this
    /// entire list. The receiver is untouched and remains independently
    /// usable: the two lists share every node of the receiver's chain.
    pub fn prepend(&self, elem: T) -> (r: List<T>)
        ensures
            r@ == seq![elem] + self@,
    {
        let next: Link<T> = match &self.head {
            Some(rc) => Some(Rc::clone(rc)),
            None => None,
        };
        Self { head: Some(Rc::new(Node { elem, next })), name: self.name.clone() }
    }

    /// Returns a new list consisting of everything but the front element,
    /// or an empty list when this list is empty. The receiver is untouched;
    /// the result shares the receiver's chain from its second node on.
    pub fn tail(&self) -> (r: List<T>)
        ensures
            self@.len() == 0 ==> r@ == Seq::<T>::empty(),
            self@.len() > 0 ==> r@ == self@.drop_first(),
    {
        let next: Link<T> = match &self.head {
            Some(node) => match &node.next {
                Some(rc) => Some(Rc::clone(rc)),
                None => None,
            },
            None => None,
        };
        proof {
            if self@.len() > 0 {
                assert(link_view(next) =~= self@.drop_first());
            }
        }
        Self { head: next, name: self.name.clone() }
    }

    /// Borrows the front element, or returns `None` when the list is
    /// empty.
    pub fn head(&self) -> (r: Option<&T>)
        ensures
            match r {
                None => self@.len() == 0,
                Some(e) => self@.len() > 0 && *e == self@[0],
            },
    {
        match &self.head {
            Some(node) => Some(&node.elem),
            None => None,
        }
    }
}

/// A borrowing iterator over a list, yielding shared references to the
/// elements, front to back.
pub struct Iter<'a, T> {
    next: Option<&'a Node<T>>,
}

impl<'a, T> View for Iter<'a, T> {
    type V = Seq<T>;

    closed spec fn view(&self) -> Seq<T> {
        match self.next {
            None => Seq::empty(),
            Some(node) => seq![node.elem] + link_view(node.next),
        }
    }
}

impl<T> List<T> {
    /// Returns a borrowing iterator over the elements, front to back.
    pub fn iter(&self) -> (it: Iter<T>)
        ensures
            it@ == self@,
    {
        Iter {
            next: match &self.head {
                Some(node) => Some(&**node),
                None => None,
            },
        }
    }
}

impl<'a, T> Iter<'a, T> {
    /// Returns a reference to the next element, or `None` when the
    /// iterator is exhausted.
    pub fn next(&mut self) -> (r: Option<&'a T>)
        ensures
            old(self)@.len() == 0 ==> r is None && final(self)@ == old(self)@,
            old(self)@.len() > 0 ==> r.is_some() && *r.unwrap() == old(self)@[0] && final(self)@
                == old(self)@.drop_first(),
    {
        match self.next {
            Some(node) => {
                self.next = match &node.next {
                    Some(rc) => Some(&**rc),
                    None => None,
                };
                proof {
                    assert(final(self)@ =~= old(self)@.drop_first());
                }
                Some(&node.elem)
            },
            None => None,
        }
    }
}

impl<T> Drop for List<T> {
    /// Releases this list's hold on its chain, walking iteratively from the
    /// head. A node is freed only when this list was its last owner; the
    /// walk stops at the first node that another list still references,
    /// since that list keeps the remaining suffix alive.
    fn drop(&mut self)
        opens_invariants none
        no_unwind
    {
        release_chain(&mut self.head);
    }
}

/// Walks a chain from its first node, freeing each node whose last owner
/// this link was, and stops at the first node that is still shared.
fn release_chain<T>(head: &mut Link<T>)
    opens_invariants none
    no_unwind
{
    let mut current: Link<T> = None;
    core::mem::swap(&mut current, head);
    loop
        decreases link_view(current).len(),
    {
        match current {
            Some(rc) => {
                match rc_into_inner(rc) {
                    Some(node) => {
                        current = node.next;
                    },
                    None => {
                        break;
                    },
                }
            },
            None => {
                break;
            },
        }
    }
}

/// Relies on `Rc::into_inner`: hands back the pointed-to value when this
/// reference was the last one, and `None` otherwise; it never panics.
#[verifier::external_body]
fn rc_into_inner<T>(rc: Rc<T>) -> (r: Option<T>)
    ensures
        r matches Some(t) ==> t == rc,
    opens_invariants none
    no_unwind
{
    Rc::into_inner(rc)
}

} // verus!
