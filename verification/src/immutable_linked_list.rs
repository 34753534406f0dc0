//! A persistent singly-linked list: prepending builds a new list that shares
//! its tail with the old one through reference-counted nodes, so no list is
//! ever mutated in place.

use std::rc::Rc;
use vstd::prelude::*;

verus! {

struct Node<T> {
    elem: T,
    next: Link<T>,
}

type Link<T> = Option<Rc<Node<T>>>;

/// The elements stored in a chain starting at `link`, front to back.
spec fn link_view<T>(link: Link<T>) -> Seq<T>
    decreases link,
{
    match link {
        None => Seq::empty(),
        Some(node) => seq![node.elem] + link_view(node.next),
    }
}

/// Relies on `Rc::clone`: the clone is a second handle to the same node, so
/// the two handles hold equal values.
#[verifier::external_body]
fn clone_rc<T>(rc: &Rc<Node<T>>) -> (res: Rc<Node<T>>)
    ensures
        res == *rc,
{
    rc.clone()
}

/// A persistent list. Its view is the sequence of elements from the most
/// recently prepended (front) to the oldest (back).
pub struct List<T> {
    head: Link<T>,
}

impl<T> View for List<T> {
    type V = Seq<T>;

    closed spec fn view(&self) -> Seq<T> {
        link_view(self.head)
    }
}

impl<T> List<T> {
    /// A fresh list holds no elements.
    pub fn new() -> (r: Self)
        ensures
            r@ == Seq::<T>::empty(),
    {
        List { head: None }
    }

    /// A new list whose front is `elem` and whose tail is this list, shared.
    pub fn prepend(&self, elem: T) -> (r: List<T>)
        ensures
            r@ == seq![elem] + self@,
    {
        let next = clone_link(&self.head);
        List { head: Some(Rc::new(Node { elem, next })) }
    }

    /// A new list whose front is `elem` and whose tail is `list`, shared.
    pub fn cons(elem: T, list: List<T>) -> (r: List<T>)
        ensures
            r@ == seq![elem] + list@,
    {
        cons(elem, list)
    }

    /// The list after the front element: a new handle onto this list's own
    /// tail, shared, not copied. The tail of an empty list is empty.
    pub fn tail(&self) -> (r: List<T>)
        ensures
            self@.len() == 0 ==> r@ == Seq::<T>::empty(),
            self@.len() > 0 ==> r@ == self@.drop_first(),
    {
        let head = match &self.head {
            None => None,
            Some(rc) => clone_link(&rc.next),
        };
        proof {
            if self@.len() > 0 {
                assert(link_view(self.head->Some_0.next) =~= self@.drop_first());
            }
        }
        List { head }
    }

    /// Borrows the front element, or `None` when empty.
    pub fn head(&self) -> (r: Option<&T>)
        ensures
            self@.len() == 0 ==> r is None,
            self@.len() > 0 ==> (r matches Some(e) && *e == self@[0]),
    {
        match &self.head {
            None => None,
            Some(rc) => Some(&rc.elem),
        }
    }

    /// A by-reference iterator over the whole list.
    pub fn iter(&self) -> (it: Iter<'_, T>)
        ensures
            it.remaining() == self@,
    {
        Iter { link: &self.head }
    }
}

/// A new list whose front is `elem` and whose tail is `list`, shared.
pub fn cons<T>(elem: T, list: List<T>) -> (r: List<T>)
    ensures
        r@ == seq![elem] + list@,
{
    list.prepend(elem)
}

/// A by-reference iterator. Its view is the sequence of elements not yet
/// yielded.
pub struct Iter<'a, T> {
    link: &'a Link<T>,
}

impl<'a, T> Iter<'a, T> {
    /// The elements not yet yielded, front to back.
    pub closed spec fn remaining(&self) -> Seq<T> {
        link_view(*self.link)
    }

    /// Yields the front remaining element and advances along the chain.
    pub fn next(&mut self) -> (r: Option<&'a T>)
        ensures
            old(self).remaining().len() == 0 ==> r is None
                && final(self).remaining() == old(self).remaining(),
            old(self).remaining().len() > 0 ==> (r matches Some(e)
                && *e == old(self).remaining()[0]
                && final(self).remaining() == old(self).remaining().drop_first()),
    {
        match self.link {
            None => None,
            Some(rc) => {
                self.link = &rc.next;
                proof {
                    assert(link_view(rc.next) =~= old(self).remaining().drop_first());
                }
                Some(&rc.elem)
            },
        }
    }
}

/// Duplicates a link: a second handle to the same node, or absent for
/// absent.
fn clone_link<T>(link: &Link<T>) -> (r: Link<T>)
    ensures
        r == *link,
{
    match link {
        None => None,
        Some(rc) => Some(clone_rc(rc)),
    }
}

} // verus!
