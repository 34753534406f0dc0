//! A mutable singly-linked stack: one owning chain of nodes, LIFO push/pop
//! at the front, with by-reference, by-mutable-reference and consuming
//! iteration.

use vstd::prelude::*;

verus! {

struct Node<T> {
    elem: T,
    next: Link<T>,
}

type Link<T> = Option<Box<Node<T>>>;

/// The elements stored in a chain starting at `link`, front to back.
spec fn link_view<T>(link: Link<T>) -> Seq<T>
    decreases link,
{
    match link {
        None => Seq::empty(),
        Some(node) => seq![node.elem] + link_view(node.next),
    }
}

/// A singly-linked stack. Its view is the sequence of elements from the
/// most recently pushed (front) to the oldest (back).
pub struct List<T> {
    head: Link<T>,
}

impl<T> View for List<T> {
    type V = Seq<T>;

    closed spec fn view(&self) -> Seq<T> {
        link_view(self.head)
    }
}

impl<T> List<T> {
    /// A fresh list holds no elements.
    pub fn new() -> (r: Self)
        ensures
            r@ == Seq::<T>::empty(),
    {
        List { head: None }
    }

    /// Pushes `elem` onto the front of the chain.
    pub fn push(&mut self, elem: T)
        ensures
            final(self)@ == seq![elem] + old(self)@,
    {
        let next = self.head.take();
        self.head = Some(Box::new(Node { elem, next }));
    }

    /// Removes and returns the front element, or `None` when empty.
    pub fn pop(&mut self) -> (r: Option<T>)
        ensures
            old(self)@.len() == 0 ==> r is None && final(self)@ == old(self)@,
            old(self)@.len() > 0 ==> r == Some(old(self)@[0]) && final(self)@ == old(self)@.drop_first(),
    {
        match self.head.take() {
            None => None,
            Some(node) => {
                let node = *node;
                self.head = node.next;
                Some(node.elem)
            },
        }
    }

    /// Borrows the front element, or `None` when empty.
    pub fn peek(&self) -> (r: Option<&T>)
        ensures
            self@.len() == 0 ==> r is None,
            self@.len() > 0 ==> (r matches Some(e) && *e == self@[0]),
    {
        match &self.head {
            None => None,
            Some(node) => Some(&node.elem),
        }
    }

    /// Mutably borrows the front element in place; the list afterwards holds
    /// whatever the caller wrote through the borrow, and nothing else moved.
    pub fn peek_mut(&mut self) -> (r: Option<&mut T>)
        ensures
            old(self)@.len() == 0 ==> r is None && *final(self) == *old(self),
            old(self)@.len() > 0 ==> (r is Some && *r.unwrap() == old(self)@[0]
                && final(self)@ == old(self)@.update(0, *final(r.unwrap()))),
    {
        match &mut self.head {
            None => None,
            Some(node) => {
                let res = &mut node.elem;
                proof {
                    assert(old(self)@.update(0, *final(res)) =~= seq![*final(res)] + link_view(
                        old(self).head->Some_0.next,
                    ));
                }
                Some(res)
            },
        }
    }

    /// A by-reference iterator over the whole chain.
    pub fn iter(&self) -> (it: Iter<'_, T>)
        ensures
            it.remaining() == self@,
    {
        Iter { link: &self.head }
    }

    /// A cursor for by-mutable-reference iteration over the whole chain.
    /// The cursor holds no borrow; each advance hands the list back in.
    pub fn iter_mut(&self) -> (it: IterMut)
        ensures
            it@ == 0,
    {
        IterMut { pos: 0 }
    }

    /// A consuming iterator: the list is destroyed incrementally as
    /// elements are popped.
    pub fn into_iter(self) -> (it: ListIntoIterator<T>)
        ensures
            it@ == self@,
    {
        ListIntoIterator { list: self }
    }
}

/// A by-reference iterator. Its view is the sequence of elements not yet
/// yielded.
pub struct Iter<'a, T> {
    link: &'a Link<T>,
}

impl<'a, T> Iter<'a, T> {
    /// The elements not yet yielded, front to back.
    pub closed spec fn remaining(&self) -> Seq<T> {
        link_view(*self.link)
    }

    /// Yields the front remaining element and advances along the owning
    /// chain.
    pub fn next(&mut self) -> (r: Option<&'a T>)
        ensures
            old(self).remaining().len() == 0 ==> r is None
                && final(self).remaining() == old(self).remaining(),
            old(self).remaining().len() > 0 ==> (r matches Some(e)
                && *e == old(self).remaining()[0]
                && final(self).remaining() == old(self).remaining().drop_first()),
    {
        match self.link {
            None => None,
            Some(node) => {
                self.link = &node.next;
                proof {
                    assert(link_view(node.next) =~= old(self).remaining().drop_first());
                }
                Some(&node.elem)
            },
        }
    }
}

/// A forward cursor for by-mutable-reference iteration. It holds no borrow
/// of the list; each advance takes the list and yields an exclusive borrow
/// of one element. Its view is the position of the next element to yield.
pub struct IterMut {
    pos: usize,
}

/// Mutably borrows the element at position `k` of the chain starting at
/// `link`, or `None` when the chain is shorter; only that element changes,
/// to whatever the caller writes through the borrow.
fn elem_at_mut<'a, T>(link: &'a mut Link<T>, k: usize) -> (r: Option<&'a mut T>)
    ensures
        link_view(*old(link)).len() <= k ==> r is None && *final(link) == *old(link),
        k < link_view(*old(link)).len() ==> (r is Some
            && *r.unwrap() == link_view(*old(link))[k as int]
            && link_view(*final(link)) == link_view(*old(link)).update(k as int, *final(r.unwrap()))),
    decreases k,
{
    match link {
        None => None,
        Some(node) => {
            if k == 0 {
                let res = &mut node.elem;
                proof {
                    assert(link_view(*old(link)).update(0, *final(res)) =~= seq![*final(res)]
                        + link_view(old(link)->Some_0.next));
                }
                Some(res)
            } else {
                let r = elem_at_mut(&mut node.next, k - 1);
                proof {
                    if (k as int) < link_view(*old(link)).len() {
                        assert(link_view(*old(link)).update(
                            k as int,
                            *final(r.unwrap()),
                        ) =~= seq![old(link)->Some_0.elem] + link_view(
                            old(link)->Some_0.next,
                        ).update(k - 1, *final(r.unwrap())));
                    }
                }
                r
            }
        },
    }
}

impl View for IterMut {
    type V = int;

    closed spec fn view(&self) -> int {
        self.pos as int
    }
}

impl IterMut {
    /// Yields an exclusive borrow of the element of `list` at the cursor's
    /// position and advances the cursor; `None` once the cursor has passed
    /// the back of the chain. The list afterwards holds whatever the caller
    /// wrote through the borrow at that position, and nothing else moved.
    pub fn next<'a, T>(&mut self, list: &'a mut List<T>) -> (r: Option<&'a mut T>)
        requires
            old(self)@ < usize::MAX,
        ensures
            old(self)@ >= old(list)@.len() ==> r is None && *final(list) == *old(list)
                && final(self)@ == old(self)@,
            old(self)@ < old(list)@.len() ==> (r is Some
                && *r.unwrap() == old(list)@[old(self)@]
                && final(list)@ == old(list)@.update(old(self)@, *final(r.unwrap()))
                && final(self)@ == old(self)@ + 1),
    {
        let r = elem_at_mut(&mut list.head, self.pos);
        if r.is_some() {
            self.pos = self.pos + 1;
        }
        r
    }
}

/// A consuming iterator: it owns the list and destroys it incrementally,
/// detaching one node per advance.
pub struct ListIntoIterator<T> {
    list: List<T>,
}

impl<T> View for ListIntoIterator<T> {
    type V = Seq<T>;

    closed spec fn view(&self) -> Seq<T> {
        self.list@
    }
}

impl<T> ListIntoIterator<T> {
    /// Detaches and yields the front remaining element.
    pub fn next(&mut self) -> (r: Option<T>)
        ensures
            old(self)@.len() == 0 ==> r is None && final(self)@ == old(self)@,
            old(self)@.len() > 0 ==> r == Some(old(self)@[0]) && final(self)@ == old(self)@.drop_first(),
    {
        self.list.pop()
    }
}

} // verus!
