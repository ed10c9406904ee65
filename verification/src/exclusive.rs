//! An exclusively-owned singly-linked chain of `i32`.
//!
//! Every node is owned by exactly one place: either the list's head slot or
//! the `next` field of exactly one predecessor. The view of a list is the
//! sequence of its elements in chain order, the head element first.

use vstd::prelude::*;

verus! {

/// A singly-linked list with exclusive ownership of its nodes.
pub struct List {
    head: Link,
}

enum Link {
    Empty,
    More(Box<Node>),
}

struct Node {
    elem: i32,
    next: Link,
}

/// The elements reachable from a link, in chain order.
spec fn link_view(l: Link) -> Seq<i32>
    decreases l,
{
    match l {
        Link::Empty => Seq::empty(),
        Link::More(node) => seq![node.elem] + link_view(node.next),
    }
}

impl View for List {
    type V = Seq<i32>;

    closed spec fn view(&self) -> Seq<i32> {
        link_view(self.head)
    }
}

/// The position of the first occurrence of `elem` in `s`, if any.
pub open spec fn find_first(s: Seq<i32>, elem: i32) -> Option<int>
    decreases s.len(),
{
    if s.len() == 0 {
        None
    } else if s[0] == elem {
        Some(0int)
    } else {
        match find_first(s.drop_first(), elem) {
            Some(i) => Some(i + 1),
            None => None,
        }
    }
}

proof fn lemma_find_first_hit(s: Seq<i32>, elem: i32, k: int)
    requires
        0 <= k < s.len(),
        s[k] == elem,
        forall|j: int| 0 <= j < k ==> s[j] != elem,
    ensures
        find_first(s, elem) == Some(k),
    decreases k,
{
    if k > 0 {
        lemma_find_first_hit(s.drop_first(), elem, k - 1);
    }
}

proof fn lemma_find_first_miss(s: Seq<i32>, elem: i32)
    requires
        forall|j: int| 0 <= j < s.len() ==> s[j] != elem,
    ensures
        find_first(s, elem) is None,
    decreases s.len(),
{
    if s.len() > 0 {
        lemma_find_first_miss(s.drop_first(), elem);
    }
}

/// Models pushing the elements of `s`, in order, onto a list whose current
/// view is `v`.
pub open spec fn push_all(v: Seq<i32>, s: Seq<i32>) -> Seq<i32>
    decreases s.len(),
{
    if s.len() == 0 {
        v
    } else {
        push_all(seq![s[0]] + v, s.drop_first())
    }
}

proof fn lemma_push_all(v: Seq<i32>, s: Seq<i32>)
    ensures
        push_all(v, s) == s.reverse() + v,
    decreases s.len(),
{
    if s.len() == 0 {
        assert(s.reverse() + v =~= v);
    } else {
        lemma_push_all(seq![s[0]] + v, s.drop_first());
        assert(s.drop_first().reverse() + (seq![s[0]] + v) =~= s.reverse() + v);
    }
}

/// Stack law: pushing a sequence of elements onto an empty list and then
/// popping the same number of times returns them in strict reverse order,
/// and one further pop on the then-empty list returns `None`. Since `push`
/// prepends its element to the view and `pop` removes and returns the front
/// of the view, the law reduces to: the view after the pushes is the
/// reversal of the pushed sequence.
pub proof fn lemma_stack_law(s: Seq<i32>)
    ensures
        push_all(Seq::empty(), s) == s.reverse(),
        forall|i: int|
            0 <= i < s.len() ==> push_all(Seq::empty(), s)[i] == s[s.len() - 1 - i],
{
    lemma_push_all(Seq::empty(), s);
    assert(s.reverse() + Seq::<i32>::empty() =~= s.reverse());
}

/// Splice/merge inverse: cutting a chain at any position and merging the
/// detached remainder back onto the truncated chain reconstructs the
/// original chain in order. `split_next` leaves `take(i + 1)` behind and
/// detaches `skip(i + 1)`, `split_at` leaves `take(i)` and detaches
/// `skip(i)`, and `merge` concatenates the two views again.
pub proof fn lemma_split_merge_inverse(s: Seq<i32>, i: int)
    requires
        0 <= i <= s.len(),
    ensures
        s.take(i) + s.skip(i) == s,
{
    assert(s.take(i) + s.skip(i) =~= s);
}

impl List {
    /// Creates an empty list.
    pub fn new() -> (r: Self)
        ensures
            r@ == Seq::<i32>::empty(),
    {
        Self { head: Link::Empty }
    }

    /// Pushes an element onto the front of the list.
    pub fn push(&mut self, elem: i32)
        ensures
            final(self)@ == seq![elem] + old(self)@,
    {
        let mut next = Link::Empty;
        core::mem::swap(&mut next, &mut self.head);
        let node = Node { elem, next };
        self.head = Link::More(Box::new(node));
    }

    /// Removes and returns the front element, or `None` when the list is
    /// empty.
    pub fn pop(&mut self) -> (r: Option<i32>)
        ensures
            match r {
                None => old(self)@.len() == 0 && final(self)@ == old(self)@,
                Some(e) => old(self)@.len() > 0 && e == old(self)@[0] && final(self)@ == old(
                    self,
                )@.drop_first(),
            },
    {
        let mut head = Link::Empty;
        core::mem::swap(&mut head, &mut self.head);
        match head {
            Link::Empty => None,
            Link::More(node) => {
                let boxed = *node;
                self.head = boxed.next;
                proof {
                    assert(old(self)@.drop_first() =~= link_view(self.head));
                }
                Some(boxed.elem)
            },
        }
    }

    /// Cuts the chain after the first node holding `elem`: that node's
    /// successors are detached into a brand-new list, the matched node
    /// itself stays in place as the new last node. Returns `None`, leaving
    /// the list unchanged, when no node matches.
    ///
    /// The traversal re-points a single mutable cursor one step at a time,
    /// never holding two live mutable references into the chain.
    pub fn split_next(&mut self, elem: i32) -> (r: Option<List>)
        ensures
            match find_first(old(self)@, elem) {
                Some(i) => r matches Some(l) && final(self)@ == old(self)@.take(i + 1) && l@ == old(
                    self,
                )@.skip(i + 1),
                None => r is None && final(self)@ == old(self)@,
            },
    {
        let ghost s0 = self@;
        let mut head = Link::Empty;
        core::mem::swap(&mut head, &mut self.head);
        let mut result: Option<List> = None;
        let ghost mut k: int = 0;
        let mut current: &mut Link = &mut head;
        loop
            invariant_except_break
                0 <= k <= s0.len(),
                link_view(*current) == s0.skip(k),
                forall|j: int| 0 <= j < k ==> s0[j] != elem,
                link_view(after_borrow(head)) == s0.take(k) + link_view(*final(current)),
                result is None,
            ensures
                match result {
                    Some(l) => 0 <= k < s0.len() && s0[k] == elem && (forall|j: int|
                        0 <= j < k ==> s0[j] != elem) && link_view(after_borrow(head)) == s0.take(
                        k + 1,
                    ) && l@ == s0.skip(k + 1),
                    None => (forall|j: int| 0 <= j < s0.len() ==> s0[j] != elem) && link_view(
                        after_borrow(head),
                    ) == s0,
                },
            decreases s0.len() - k,
        {
            let ghost cur0: Link = *current;
            match current {
                Link::More(node) => {
                    proof {
                        assert(cur0 matches Link::More(b) && b.elem == node.elem && b.next
                            == node.next);
                        assert(link_view(cur0) == seq![node.elem] + link_view(node.next));
                        assert(k < s0.len());
                        assert(s0.skip(k)[0] == s0[k]);
                    }
                    if node.elem == elem {
                        let mut rest = Link::Empty;
                        let ghost nxt0: Link = node.next;
                        core::mem::swap(&mut rest, &mut node.next);
                        proof {
                            assert(rest == nxt0);
                            assert(seq![s0[k]] + link_view(nxt0) == s0.skip(k));
                            assert(link_view(nxt0) =~= s0.skip(k).drop_first());
                            assert(link_view(rest) =~= s0.skip(k + 1));
                            assert(s0.take(k) + seq![s0[k]] + Seq::<i32>::empty() =~= s0.take(
                                k + 1,
                            ));
                        }
                        result = Some(List { head: rest });
                        proof {
                            assert(has_resolved(node));
                            assert(*final(current) == Link::More(*final(node)));
                            let fnode: Box<Node> = *final(node);
                            assert(link_view(Link::More(fnode)) == seq![fnode.elem] + link_view(
                                fnode.next,
                            ));
                            assert(link_view(*final(current)) =~= seq![s0[k]]
                                + Seq::<i32>::empty());
                        }
                        break;
                    }
                    current = &mut node.next;
                    proof {
                        k = k + 1;
                        assert(s0.take(k - 1) + seq![s0[k - 1]] =~= s0.take(k));
                        assert(s0.skip(k - 1).drop_first() =~= s0.skip(k));
                    }
                },
                Link::Empty => {
                    proof {
                        assert(k == s0.len());
                        assert(s0.take(k) + link_view(Link::Empty) =~= s0);
                    }
                    break;
                },
            }
        }
        self.head = head;
        proof {
            if result is Some {
                lemma_find_first_hit(s0, elem, k);
            } else {
                lemma_find_first_miss(s0, elem);
            }
        }
        result
    }

    /// Cuts the chain at the first node holding `elem`: that node and all
    /// its successors move into a brand-new list, the original list keeps
    /// only the strict predecessors. Returns `None`, leaving the list
    /// unchanged, when no node matches.
    pub fn split_at(&mut self, elem: i32) -> (r: Option<List>)
        ensures
            match find_first(old(self)@, elem) {
                Some(i) => r matches Some(l) && final(self)@ == old(self)@.take(i) && l@ == old(
                    self,
                )@.skip(i),
                None => r is None && final(self)@ == old(self)@,
            },
    {
        let ghost s0 = self@;
        let mut head = Link::Empty;
        core::mem::swap(&mut head, &mut self.head);
        let mut result: Option<List> = None;
        let ghost mut k: int = 0;
        let mut current: &mut Link = &mut head;
        loop
            invariant_except_break
                0 <= k <= s0.len(),
                link_view(*current) == s0.skip(k),
                forall|j: int| 0 <= j < k ==> s0[j] != elem,
                link_view(after_borrow(head)) == s0.take(k) + link_view(*final(current)),
                result is None,
            ensures
                match result {
                    Some(l) => 0 <= k < s0.len() && s0[k] == elem && (forall|j: int|
                        0 <= j < k ==> s0[j] != elem) && link_view(after_borrow(head)) == s0.take(
                        k,
                    ) && l@ == s0.skip(k),
                    None => (forall|j: int| 0 <= j < s0.len() ==> s0[j] != elem) && link_view(
                        after_borrow(head),
                    ) == s0,
                },
            decreases s0.len() - k,
        {
            let ghost cur0: Link = *current;
            let is_more: bool;
            let hit: bool;
            match &*current {
                Link::More(node) => {
                    is_more = true;
                    hit = node.elem == elem;
                },
                Link::Empty => {
                    is_more = false;
                    hit = false;
                },
            }
            if !is_more {
                proof {
                    assert(k == s0.len());
                    assert(s0.take(k) + link_view(Link::Empty) =~= s0);
                }
                break;
            }
            if hit {
                proof {
                    assert(cur0 matches Link::More(b) && b.elem == s0[k]) by {
                        assert(link_view(cur0) == s0.skip(k));
                        assert(s0.skip(k)[0] == s0[k]);
                    }
                }
                let mut rest = Link::Empty;
                core::mem::swap(&mut rest, current);
                result = Some(List { head: rest });
                proof {
                    assert(rest == cur0);
                    assert(has_resolved(current));
                    assert(link_view(*final(current)) =~= Seq::<i32>::empty());
                    assert(link_view(after_borrow(head)) =~= s0.take(k));
                }
                break;
            }
            match current {
                Link::More(node) => {
                    proof {
                        assert(cur0 matches Link::More(b) && b.elem == node.elem && b.next
                            == node.next);
                        assert(link_view(cur0) == seq![node.elem] + link_view(node.next));
                        assert(s0.skip(k)[0] == s0[k]);
                    }
                    current = &mut node.next;
                    proof {
                        k = k + 1;
                        assert(s0.take(k - 1) + seq![s0[k - 1]] =~= s0.take(k));
                        assert(s0.skip(k - 1).drop_first() =~= s0.skip(k));
                    }
                },
                Link::Empty => {
                    proof {
                        assert(false);
                    }
                    break;
                },
            }
        }
        self.head = head;
        proof {
            if result is Some {
                lemma_find_first_hit(s0, elem, k);
            } else {
                lemma_find_first_miss(s0, elem);
            }
        }
        result
    }

    /// Appends the entire chain of `list` after this list's last node,
    /// consuming `list`. When this list is empty it takes over the other
    /// chain directly.
    pub fn merge(&mut self, list: List)
        ensures
            final(self)@ == old(self)@ + list@,
    {
        let ghost s0 = self@;
        let ghost ov = list@;
        let mut other = list;
        let self_empty = match &self.head {
            Link::Empty => true,
            Link::More(_) => false,
        };
        if self_empty {
            core::mem::swap(&mut self.head, &mut other.head);
            proof {
                assert(s0 + ov =~= ov);
            }
            return ;
        }
        let mut head = Link::Empty;
        core::mem::swap(&mut head, &mut self.head);
        let ghost mut k: int = 0;
        let mut current: &mut Link = &mut head;
        loop
            invariant_except_break
                0 <= k < s0.len(),
                link_view(*current) == s0.skip(k),
                link_view(after_borrow(head)) == s0.take(k) + link_view(*final(current)),
                other@ == ov,
            ensures
                link_view(after_borrow(head)) == s0 + ov,
            decreases s0.len() - k,
        {
            let ghost cur0: Link = *current;
            match current {
                Link::More(node) => {
                    proof {
                        assert(cur0 matches Link::More(b) && b.elem == node.elem && b.next
                            == node.next);
                        assert(link_view(cur0) == seq![node.elem] + link_view(node.next));
                        assert(s0.skip(k)[0] == s0[k]);
                    }
                    let is_last = match &node.next {
                        Link::Empty => true,
                        Link::More(_) => false,
                    };
                    if is_last {
                        proof {
                            assert(link_view(node.next) =~= Seq::<i32>::empty());
                            assert(s0.skip(k).drop_first() =~= Seq::<i32>::empty());
                            assert(k == s0.len() - 1);
                        }
                        let mut attach = Link::Empty;
                        core::mem::swap(&mut attach, &mut other.head);
                        proof {
                            assert(link_view(attach) == ov);
                        }
                        node.next = attach;
                        proof {
                            assert(has_resolved(node));
                            assert(*final(current) == Link::More(*final(node)));
                            let fnode: Box<Node> = *final(node);
                            assert(link_view(Link::More(fnode)) == seq![fnode.elem] + link_view(
                                fnode.next,
                            ));
                            assert(link_view(*final(current)) =~= seq![s0[k]] + ov);
                            assert(s0.take(k) + (seq![s0[k]] + ov) =~= s0 + ov);
                        }
                        break;
                    }
                    current = &mut node.next;
                    proof {
                        k = k + 1;
                        assert(s0.take(k - 1) + seq![s0[k - 1]] =~= s0.take(k));
                        assert(s0.skip(k - 1).drop_first() =~= s0.skip(k));
                        assert(s0.skip(k).len() > 0);
                    }
                },
                Link::Empty => {
                    proof {
                        assert(false);
                    }
                    break;
                },
            }
        }
        self.head = head;
    }
}

impl Drop for List {
    /// Unlinks and frees the nodes iteratively from head to tail, so that
    /// tearing down a chain never recurses and stack usage stays bounded
    /// regardless of the chain's length.
    fn drop(&mut self)
        opens_invariants none
        no_unwind
    {
        let mut current = Link::Empty;
        core::mem::swap(&mut current, &mut self.head);
        loop
            decreases link_view(current).len(),
        {
            match current {
                Link::More(node) => {
                    let boxed = *node;
                    current = boxed.next;
                },
                Link::Empty => {
                    break;
                },
            }
        }
    }
}


} // verus!
