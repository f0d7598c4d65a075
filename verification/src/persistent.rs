//! A persistent immutable singly-linked list.
//!
//! Lists share their tails: `append` builds a new list whose tail is the old
//! list, and `tail` returns a list that aliases everything after the first
//! element. Nodes are therefore held through reference-counted pointers, and a
//! node is released only when the last list referring to it goes away.

use std::rc::Rc;
use vstd::prelude::*;

verus! {

struct Node<T> {
    elem: T,
    next: Option<Rc<Node<T>>>,
}

/// The elements hanging off a link, front to back.
spec fn link_view<T>(link: Option<Rc<Node<T>>>) -> Seq<T>
    decreases link,
{
    match link {
        Option::None => Seq::empty(),
        Option::Some(node) => seq![node.elem] + link_view(node.next),
    }
}

pub struct List<T> {
    head: Option<Rc<Node<T>>>,
}

impl<T> View for List<T> {
    type V = Seq<T>;

    closed spec fn view(&self) -> Seq<T> {
        link_view(self.head)
    }
}

impl<T> List<T> {
    /// An empty list.
    pub fn new() -> (l: List<T>)
        ensures
            l@ == Seq::<T>::empty(),
    {
        List { head: None }
    }

    /// A new list holding `elem` followed by everything in `self`; the new
    /// list shares `self`'s nodes.
    pub fn append(&self, elem: T) -> (l: List<T>)
        ensures
            l@ == seq![elem] + self@,
    {
        let next = match &self.head {
            None => None,
            Some(node) => Some(node.clone()),
        };
        List { head: Some(Rc::new(Node { elem, next })) }
    }

    /// The list with the first element removed; the empty list stays empty.
    pub fn tail(&self) -> (l: List<T>)
        ensures
            self@.len() == 0 ==> l@ == Seq::<T>::empty(),
            self@.len() > 0 ==> l@ == self@.drop_first(),
    {
        let head = match &self.head {
            None => None,
            Some(node) => {
                proof {
                    assert(link_view(node.next) =~= self@.drop_first());
                }
                match &node.next {
                    None => None,
                    Some(next) => Some(next.clone()),
                }
            },
        };
        List { head }
    }

    /// A reference to the first element, absent when the list is empty.
    pub fn head(&self) -> (r: Option<&T>)
        ensures
            match r {
                Option::Some(e) => self@.len() > 0 && *e == self@[0],
                Option::None => self@.len() == 0,
            },
    {
        match &self.head {
            None => None,
            Some(node) => Some(&node.elem),
        }
    }

    /// An iterator over the elements, front to back.
    pub fn iter(&self) -> (it: Iter<'_, T>)
        ensures
            it@ == self@,
    {
        Iter {
            next: match &self.head {
                None => None,
                Some(node) => Some(&**node),
            },
        }
    }
}

pub struct Iter<'a, T> {
    next: Option<&'a Node<T>>,
}

impl<'a, T> View for Iter<'a, T> {
    type V = Seq<T>;

    closed spec fn view(&self) -> Seq<T> {
        match self.next {
            Option::None => Seq::empty(),
            Option::Some(node) => seq![node.elem] + link_view(node.next),
        }
    }
}

impl<'a, T> Iter<'a, T> {
    /// The next element, stepping the iterator forward; absent when the
    /// iterator is exhausted.
    pub fn next(&mut self) -> (r: Option<&'a T>)
        ensures
            match r {
                Option::Some(e) => old(self)@.len() > 0 && *e == old(self)@[0]
                    && final(self)@ == old(self)@.drop_first(),
                Option::None => old(self)@.len() == 0 && final(self)@ == old(self)@,
            },
    {
        match self.next {
            None => None,
            Some(node) => {
                proof {
                    assert(link_view(node.next) =~= old(self)@.drop_first());
                }
                self.next = match &node.next {
                    None => None,
                    Some(next) => Some(&**next),
                };
                Some(&node.elem)
            },
        }
    }
}

} // verus!
