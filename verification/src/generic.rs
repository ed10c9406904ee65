//! The exclusively-owned singly-linked chain, generalized over the element
//! type.
//!
//! Splicing cuts the chain at the first node whose element compares equal
//! to a probe element, so the element type must implement `PartialEq`.
//! Wherever a contract depends on what `==` means, it is stated under
//! `T::obeys_eq_spec()`, the condition under which Verus ties the executable
//! comparison to its specification `eq_spec`; the structural guarantees hold
//! unconditionally.

use vstd::prelude::*;
use vstd::std_specs::cmp::PartialEqSpec;

verus! {

/// A singly-linked list with exclusive ownership of its nodes.
pub struct List<T> {
    head: Link<T>,
}

/// A single node of the chain, owned by its predecessor or the head slot.
pub struct Node<T> {
    elem: T,
    next: Link<T>,
}

type Link<T> = Option<Box<Node<T>>>;

/// The elements reachable from a link, in chain order.
spec fn link_view<T>(l: Link<T>) -> Seq<T>
    decreases l,
{
    match l {
        None => Seq::empty(),
        Some(node) => seq![node.elem] + link_view(node.next),
    }
}

impl<T> View for List<T> {
    type V = Seq<T>;

    closed spec fn view(&self) -> Seq<T> {
        link_view(self.head)
    }
}

/// The position of the first element of `s` that compares equal to `elem`
/// under the specification of `==`, if any.
pub open spec fn find_first<T: PartialEq>(s: Seq<T>, elem: T) -> Option<int>
    decreases s.len(),
{
    if s.len() == 0 {
        None
    } else if s[0].eq_spec(&elem) {
        Some(0int)
    } else {
        match find_first(s.drop_first(), elem) {
            Some(i) => Some(i + 1),
            None => None,
        }
    }
}

proof fn lemma_find_first_hit<T: PartialEq>(s: Seq<T>, elem: T, k: int)
    requires
        0 <= k < s.len(),
        s[k].eq_spec(&elem),
        forall|j: int| 0 <= j < k ==> !(#[trigger] s[j].eq_spec(&elem)),
    ensures
        find_first(s, elem) == Some(k),
    decreases k,
{
    if k > 0 {
        lemma_find_first_hit(s.drop_first(), elem, k - 1);
    }
}

proof fn lemma_find_first_miss<T: PartialEq>(s: Seq<T>, elem: T)
    requires
        forall|j: int| 0 <= j < s.len() ==> !(#[trigger] s[j].eq_spec(&elem)),
    ensures
        find_first(s, elem) is None,
    decreases s.len(),
{
    if s.len() > 0 {
        lemma_find_first_miss(s.drop_first(), elem);
    }
}

impl<T: PartialEq> List<T> {
    /// Creates an empty list.
    pub fn new() -> (r: Self)
        ensures
            r@ == Seq::<T>::empty(),
    {
        Self { head: None }
    }

    /// Pushes an element onto the front of the list.
    pub fn push(&mut self, elem: T)
        ensures
            final(self)@ == seq![elem] + old(self)@,
    {
        let next = self.head.take();
        let node = Node { elem, next };
        self.head = Some(Box::new(node));
    }

    /// Removes and returns the front element, or `None` when the list is
    /// empty.
    pub fn pop(&mut self) -> (r: Option<T>)
        ensures
            match r {
                None => old(self)@.len() == 0 && final(self)@ == old(self)@,
                Some(e) => old(self)@.len() > 0 && e == old(self)@[0] && final(self)@ == old(
                    self,
                )@.drop_first(),
            },
    {
        match self.head.take() {
            None => None,
            Some(node) => {
                let boxed = *node;
                self.head = boxed.next;
                proof {
                    assert(old(self)@.drop_first() =~= link_view(self.head));
                }
                Some(boxed.elem)
            },
        }
    }

    /// Borrows the front element, or returns `None` when the list is empty.
    pub fn peek(&self) -> (r: Option<&T>)
        ensures
            match r {
                None => self@.len() == 0,
                Some(e) => self@.len() > 0 && *e == self@[0],
            },
    {
        match &self.head {
            Some(node) => Some(&node.elem),
            None => None,
        }
    }

    /// Mutably borrows the front element, or returns `None` when the list
    /// is empty. The new view replaces the front element with whatever the
    /// caller writes through the returned reference.
    pub fn peek_mut(&mut self) -> (r: Option<&mut T>)
        ensures
            old(self)@.len() == 0 ==> r is None && final(self)@ == old(self)@,
            old(self)@.len() > 0 ==> r.is_some() && *r.unwrap() == old(self)@[0] && final(self)@
                == old(self)@.update(0, *final(r.unwrap())),
    {
        match &mut self.head {
            Some(node) => {
                let r = Some(&mut node.elem);
                proof {
                    assert(old(self)@.update(0, *final(r.unwrap())) =~= seq![
                        *final(r.unwrap()),
                    ] + old(self)@.drop_first());
                }
                r
            },
            None => None,
        }
    }

    /// Cuts the chain after the first node whose element compares equal to
    /// `elem`: that node's successors are detached into a brand-new list,
    /// the matched node itself stays in place as the new last node.
    /// Returns `None`, leaving the list unchanged, when no node matches.
    ///
    /// The traversal re-points a single mutable cursor one step at a time,
    /// never holding two live mutable references into the chain.
    pub fn split_next(&mut self, elem: T) -> (r: Option<List<T>>)
        ensures
            r is None ==> final(self)@ == old(self)@,
            r matches Some(l) ==> final(self)@ + l@ == old(self)@,
            T::obeys_eq_spec() ==> match find_first(old(self)@, elem) {
                Some(i) => r matches Some(l) && final(self)@ == old(self)@.take(i + 1) && l@
                    == old(self)@.skip(i + 1),
                None => r is None,
            },
    {
        let ghost s0 = self@;
        let mut head: Link<T> = self.head.take();
        let mut result: Option<List<T>> = None;
        let ghost mut k: int = 0;
        let mut current: &mut Link<T> = &mut head;
        loop
            invariant_except_break
                0 <= k <= s0.len(),
                link_view(*current) == s0.skip(k),
                T::obeys_eq_spec() ==> forall|j: int|
                    0 <= j < k ==> !(#[trigger] s0[j].eq_spec(&elem)),
                link_view(after_borrow(head)) == s0.take(k) + link_view(*final(current)),
                result is None,
            ensures
                match result {
                    Some(l) => 0 <= k < s0.len() && link_view(after_borrow(head)) == s0.take(
                        k + 1,
                    ) && l@ == s0.skip(k + 1) && (T::obeys_eq_spec() ==> s0[k].eq_spec(&elem)
                        && forall|j: int| 0 <= j < k ==> !(#[trigger] s0[j].eq_spec(&elem))),
                    None => link_view(after_borrow(head)) == s0 && (T::obeys_eq_spec()
                        ==> forall|j: int|
                        0 <= j < s0.len() ==> !(#[trigger] s0[j].eq_spec(&elem))),
                },
            decreases s0.len() - k,
        {
            let ghost cur0: Link<T> = *current;
            match current {
                Some(node) => {
                    proof {
                        assert(cur0 matches Some(b) && b.elem == node.elem && b.next == node.next);
                        assert(link_view(cur0) == seq![node.elem] + link_view(node.next));
                        assert(k < s0.len());
                        assert(s0.skip(k)[0] == s0[k]);
                    }
                    if node.elem == elem {
                        let mut rest: Link<T> = node.next.take();
                        proof {
                            assert(seq![s0[k]] + link_view(rest) == s0.skip(k));
                            assert(link_view(rest) =~= s0.skip(k).drop_first());
                            assert(link_view(rest) =~= s0.skip(k + 1));
                            assert(s0.take(k) + seq![s0[k]] + Seq::<T>::empty() =~= s0.take(
                                k + 1,
                            ));
                        }
                        result = Some(List { head: rest });
                        proof {
                            assert(has_resolved(node));
                            assert(*final(current) == Some(*final(node)));
                            let fnode: Box<Node<T>> = *final(node);
                            assert(link_view(Some(fnode)) == seq![fnode.elem] + link_view(
                                fnode.next,
                            ));
                            assert(link_view(*final(current)) =~= seq![s0[k]]
                                + Seq::<T>::empty());
                            assert(link_view(after_borrow(head)) == s0.take(k) + seq![s0[k]]
                                + Seq::<T>::empty());
                        }
                        break;
                    }
                    current = &mut node.next;
                    proof {
                        k = k + 1;
                        assert(s0.take(k - 1) + seq![s0[k - 1]] =~= s0.take(k));
                        assert(s0.skip(k - 1).drop_first() =~= s0.skip(k));
                    }
                },
                None => {
                    proof {
                        assert(k == s0.len());
                        assert(s0.take(k) + link_view(None::<Box<Node<T>>>) =~= s0);
                    }
                    break;
                },
            }
        }
        self.head = head;
        proof {
            if result is Some {
                assert(s0.take(k + 1) + s0.skip(k + 1) =~= s0);
                if T::obeys_eq_spec() {
                    lemma_find_first_hit(s0, elem, k);
                }
            } else {
                if T::obeys_eq_spec() {
                    lemma_find_first_miss(s0, elem);
                }
            }
        }
        result
    }

    /// Cuts the chain at the first node whose element compares equal to
    /// `elem`: that node and all its successors move into a brand-new list,
    /// the original list keeps only the strict predecessors. Returns
    /// `None`, leaving the list unchanged, when no node matches.
    pub fn split_at(&mut self, elem: T) -> (r: Option<List<T>>)
        ensures
            r is None ==> final(self)@ == old(self)@,
            r matches Some(l) ==> final(self)@ + l@ == old(self)@,
            T::obeys_eq_spec() ==> match find_first(old(self)@, elem) {
                Some(i) => r matches Some(l) && final(self)@ == old(self)@.take(i) && l@ == old(
                    self,
                )@.skip(i),
                None => r is None,
            },
    {
        let ghost s0 = self@;
        let mut head: Link<T> = self.head.take();
        let mut result: Option<List<T>> = None;
        let ghost mut k: int = 0;
        let mut current: &mut Link<T> = &mut head;
        loop
            invariant_except_break
                0 <= k <= s0.len(),
                link_view(*current) == s0.skip(k),
                T::obeys_eq_spec() ==> forall|j: int|
                    0 <= j < k ==> !(#[trigger] s0[j].eq_spec(&elem)),
                link_view(after_borrow(head)) == s0.take(k) + link_view(*final(current)),
                result is None,
            ensures
                match result {
                    Some(l) => 0 <= k < s0.len() && link_view(after_borrow(head)) == s0.take(k)
                        && l@ == s0.skip(k) && (T::obeys_eq_spec() ==> s0[k].eq_spec(&elem)
                        && forall|j: int| 0 <= j < k ==> !(#[trigger] s0[j].eq_spec(&elem))),
                    None => link_view(after_borrow(head)) == s0 && (T::obeys_eq_spec()
                        ==> forall|j: int|
                        0 <= j < s0.len() ==> !(#[trigger] s0[j].eq_spec(&elem))),
                },
            decreases s0.len() - k,
        {
            let ghost cur0: Link<T> = *current;
            let is_more: bool;
            let hit: bool;
            match &*current {
                Some(node) => {
                    is_more = true;
                    hit = node.elem == elem;
                },
                None => {
                    is_more = false;
                    hit = false;
                },
            }
            if !is_more {
                proof {
                    assert(k == s0.len());
                    assert(s0.take(k) + link_view(None::<Box<Node<T>>>) =~= s0);
                }
                break;
            }
            if hit {
                proof {
                    assert(cur0 matches Some(b)) by {
                        assert(link_view(cur0) == s0.skip(k));
                    }
                    assert(s0.skip(k)[0] == s0[k]);
                }
                let rest: Link<T> = current.take();
                result = Some(List { head: rest });
                proof {
                    assert(rest == cur0);
                    assert(link_view(rest) =~= s0.skip(k));
                    assert(has_resolved(current));
                    assert(link_view(*final(current)) =~= Seq::<T>::empty());
                    assert(link_view(after_borrow(head)) =~= s0.take(k));
                }
                break;
            }
            match current {
                Some(node) => {
                    proof {
                        assert(cur0 matches Some(b) && b.elem == node.elem && b.next == node.next);
                        assert(link_view(cur0) == seq![node.elem] + link_view(node.next));
                        assert(s0.skip(k)[0] == s0[k]);
                    }
                    current = &mut node.next;
                    proof {
                        k = k + 1;
                        assert(s0.take(k - 1) + seq![s0[k - 1]] =~= s0.take(k));
                        assert(s0.skip(k - 1).drop_first() =~= s0.skip(k));
                    }
                },
                None => {
                    proof {
                        assert(false);
                    }
                    break;
                },
            }
        }
        self.head = head;
        proof {
            if result is Some {
                assert(s0.take(k) + s0.skip(k) =~= s0);
                if T::obeys_eq_spec() {
                    lemma_find_first_hit(s0, elem, k);
                }
            } else {
                if T::obeys_eq_spec() {
                    lemma_find_first_miss(s0, elem);
                }
            }
        }
        result
    }

    /// An early variant of `split_at`, kept for reference: its borrow
    /// structure cannot hand the detached chain out. When the head itself
    /// matches, the whole chain moves into the returned list; when a later
    /// node matches, it returns an empty list and leaves the chain
    /// untouched; with no match it returns `None`.
    pub fn early_split_at(&mut self, elem: T) -> (r: Option<List<T>>)
        ensures
            r is None ==> final(self)@ == old(self)@,
            r matches Some(l) ==> (l@ == old(self)@ && final(self)@ == Seq::<T>::empty()) || (l@
                == Seq::<T>::empty() && final(self)@ == old(self)@),
            T::obeys_eq_spec() ==> match find_first(old(self)@, elem) {
                Some(i) => r matches Some(l) && (if i == 0 {
                    l@ == old(self)@ && final(self)@ == Seq::<T>::empty()
                } else {
                    l@ == Seq::<T>::empty() && final(self)@ == old(self)@
                }),
                None => r is None,
            },
    {
        let ghost s0 = self@;
        let head_hit = match &self.head {
            Some(node) => node.elem == elem,
            None => false,
        };
        if head_hit {
            let taken: Link<T> = self.head.take();
            proof {
                assert(link_view(taken) == s0);
                assert(final(self)@ =~= Seq::<T>::empty());
                if T::obeys_eq_spec() {
                    lemma_find_first_hit(s0, elem, 0);
                }
            }
            return Some(List { head: taken });
        }
        let mut found = false;
        let mut cur: &Link<T> = match &self.head {
            Some(node) => &node.next,
            None => &self.head,
        };
        let ghost mut k: int = if s0.len() == 0 {
            0int
        } else {
            1int
        };
        proof {
            assert(s0.len() > 0 ==> link_view(*cur) =~= s0.skip(1)) by {
                if s0.len() > 0 {
                    assert(s0.skip(1) =~= s0.drop_first());
                }
            }
        }
        loop
            invariant_except_break
                0 <= k <= s0.len(),
                link_view(*cur) == s0.skip(k),
                !found,
                T::obeys_eq_spec() ==> forall|j: int|
                    0 <= j < k ==> !(#[trigger] s0[j].eq_spec(&elem)),
            ensures
                found ==> 0 <= k < s0.len() && (T::obeys_eq_spec() ==> s0[k].eq_spec(&elem)
                    && forall|j: int| 0 <= j < k ==> !(#[trigger] s0[j].eq_spec(&elem))),
                !found ==> T::obeys_eq_spec() ==> forall|j: int|
                    0 <= j < s0.len() ==> !(#[trigger] s0[j].eq_spec(&elem)),
            decreases s0.len() - k,
        {
            let ghost cur0: Link<T> = *cur;
            match cur {
                Some(node) => {
                    proof {
                        assert(cur0 matches Some(b) && b.elem == node.elem && b.next == node.next);
                        assert(link_view(cur0) == seq![node.elem] + link_view(node.next));
                        assert(s0.skip(k)[0] == s0[k]);
                    }
                    if node.elem == elem {
                        found = true;
                        break;
                    }
                    cur = &node.next;
                    proof {
                        k = k + 1;
                        assert(s0.skip(k - 1).drop_first() =~= s0.skip(k));
                    }
                },
                None => {
                    proof {
                        assert(link_view(cur0) =~= Seq::<T>::empty());
                        assert(k == s0.len());
                    }
                    break;
                },
            }
        }
        if found {
            proof {
                if T::obeys_eq_spec() {
                    lemma_find_first_hit(s0, elem, k);
                }
            }
            Some(List::new())
        } else {
            proof {
                if T::obeys_eq_spec() {
                    lemma_find_first_miss(s0, elem);
                }
            }
            None
        }
    }

    /// Appends the entire chain of `list` after this list's last node,
    /// consuming `list`. When this list is empty it takes over the other
    /// chain directly.
    pub fn merge(&mut self, list: List<T>)
        ensures
            final(self)@ == old(self)@ + list@,
    {
        let ghost s0 = self@;
        let ghost ov = list@;
        let mut other = list;
        let self_empty = match &self.head {
            None => true,
            Some(_) => false,
        };
        if self_empty {
            core::mem::swap(&mut self.head, &mut other.head);
            proof {
                assert(s0 + ov =~= ov);
            }
            return ;
        }
        let mut head: Link<T> = self.head.take();
        let ghost mut k: int = 0;
        let mut current: &mut Link<T> = &mut head;
        loop
            invariant_except_break
                0 <= k < s0.len(),
                link_view(*current) == s0.skip(k),
                link_view(after_borrow(head)) == s0.take(k) + link_view(*final(current)),
                other@ == ov,
            ensures
                link_view(after_borrow(head)) == s0 + ov,
            decreases s0.len() - k,
        {
            let ghost cur0: Link<T> = *current;
            match current {
                Some(node) => {
                    proof {
                        assert(cur0 matches Some(b) && b.elem == node.elem && b.next == node.next);
                        assert(link_view(cur0) == seq![node.elem] + link_view(node.next));
                        assert(s0.skip(k)[0] == s0[k]);
                    }
                    let is_last = match &node.next {
                        None => true,
                        Some(_) => false,
                    };
                    if is_last {
                        proof {
                            assert(link_view(node.next) =~= Seq::<T>::empty());
                            assert(s0.skip(k).drop_first() =~= Seq::<T>::empty());
                            assert(k == s0.len() - 1);
                        }
                        let attach: Link<T> = other.head.take();
                        proof {
                            assert(link_view(attach) == ov);
                        }
                        node.next = attach;
                        proof {
                            assert(has_resolved(node));
                            assert(*final(current) == Some(*final(node)));
                            let fnode: Box<Node<T>> = *final(node);
                            assert(link_view(Some(fnode)) == seq![fnode.elem] + link_view(
                                fnode.next,
                            ));
                            assert(link_view(*final(current)) =~= seq![s0[k]] + ov);
                            assert(s0.take(k) + (seq![s0[k]] + ov) =~= s0 + ov);
                        }
                        break;
                    }
                    current = &mut node.next;
                    proof {
                        k = k + 1;
                        assert(s0.take(k - 1) + seq![s0[k - 1]] =~= s0.take(k));
                        assert(s0.skip(k - 1).drop_first() =~= s0.skip(k));
                        assert(s0.skip(k).len() > 0);
                    }
                },
                None => {
                    proof {
                        assert(false);
                    }
                    break;
                },
            }
        }
        self.head = head;
    }
}

/// An owning iterator over a list: repeatedly pops the front element.
pub struct IntoIter<T>(List<T>);

impl<T> View for IntoIter<T> {
    type V = Seq<T>;

    closed spec fn view(&self) -> Seq<T> {
        self.0@
    }
}

impl<T> List<T> {
    /// Turns the list into an owning iterator over its elements, front to
    /// back.
    pub fn into_iter(self) -> (it: IntoIter<T>)
        ensures
            it@ == self@,
    {
        IntoIter(self)
    }
}

impl<T: PartialEq> IntoIter<T> {
    /// Removes and returns the next element, or `None` when the iterator
    /// is exhausted.
    pub fn next(&mut self) -> (r: Option<T>)
        ensures
            match r {
                None => old(self)@.len() == 0 && final(self)@ == old(self)@,
                Some(e) => old(self)@.len() > 0 && e == old(self)@[0] && final(self)@ == old(
                    self,
                )@.drop_first(),
            },
    {
        self.0.pop()
    }
}

/// A borrowing iterator over a list, yielding shared references to the
/// elements, front to back.
pub struct Iter<'a, T> {
    next: Option<&'a Node<T>>,
}

impl<'a, T> View for Iter<'a, T> {
    type V = Seq<T>;

    closed spec fn view(&self) -> Seq<T> {
        match self.next {
            None => Seq::empty(),
            Some(node) => seq![node.elem] + link_view(node.next),
        }
    }
}

impl<T> List<T> {
    /// Returns a borrowing iterator over the elements, front to back.
    pub fn iter(&self) -> (it: Iter<T>)
        ensures
            it@ == self@,
    {
        Iter {
            next: match &self.head {
                Some(node) => Some(&**node),
                None => None,
            },
        }
    }
}

impl<'a, T> Iter<'a, T> {
    /// Returns a reference to the next element, or `None` when the
    /// iterator is exhausted.
    pub fn next(&mut self) -> (r: Option<&'a T>)
        ensures
            old(self)@.len() == 0 ==> r is None && final(self)@ == old(self)@,
            old(self)@.len() > 0 ==> r.is_some() && *r.unwrap() == old(self)@[0] && final(self)@
                == old(self)@.drop_first(),
    {
        match self.next {
            Some(node) => {
                self.next = match &node.next {
                    Some(b) => Some(&**b),
                    None => None,
                };
                proof {
                    assert(final(self)@ =~= old(self)@.drop_first());
                }
                Some(&node.elem)
            },
            None => None,
        }
    }
}

/// A mutably borrowing iterator over a list, yielding exclusive
/// references to the elements, front to back.
pub struct IterMut<'a, T> {
    next: Option<&'a mut Node<T>>,
}

impl<'a, T> View for IterMut<'a, T> {
    type V = Seq<T>;

    closed spec fn view(&self) -> Seq<T> {
        match self.next {
            None => Seq::empty(),
            Some(node) => seq![node.elem] + link_view(node.next),
        }
    }
}

impl<T> List<T> {
    /// Returns a mutably borrowing iterator over the elements, front to
    /// back.
    pub fn iter_mut(&mut self) -> (it: IterMut<T>)
        ensures
            it@ == old(self)@,
    {
        IterMut {
            next: match &mut self.head {
                Some(node) => Some(&mut **node),
                None => None,
            },
        }
    }
}

impl<'a, T> IterMut<'a, T> {
    /// Returns an exclusive reference to the next element, or `None` when
    /// the iterator is exhausted.
    pub fn next(&mut self) -> (r: Option<&'a mut T>)
        ensures
            old(self)@.len() == 0 ==> r is None && final(self)@ == old(self)@,
            old(self)@.len() > 0 ==> r.is_some() && *r.unwrap() == old(self)@[0]
                && final(self)@ == old(self)@.drop_first(),
    {
        match self.next.take() {
            Some(node) => {
                let Node { elem, next } = &mut *node;
                self.next = match next {
                    Some(b) => Some(&mut **b),
                    None => None,
                };
                Some(elem)
            },
            None => None,
        }
    }
}

impl<T> Drop for List<T> {
    /// Unlinks and frees the nodes iteratively from head to tail, so that
    /// tearing down a chain never recurses and stack usage stays bounded
    /// regardless of the chain's length.
    fn drop(&mut self)
        opens_invariants none
        no_unwind
    {
        let mut current: Link<T> = None;
        core::mem::swap(&mut current, &mut self.head);
        loop
            decreases link_view(current).len(),
        {
            match current {
                Some(node) => {
                    let boxed = *node;
                    current = boxed.next;
                },
                None => {
                    break;
                },
            }
        }
    }
}

} // verus!
