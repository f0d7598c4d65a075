//! A split two-ended stack: the list is smashed into two singly-linked
//! halves, one growing to the left and one to the right.

use vstd::prelude::*;

verus! {

#[allow(dead_code)]
struct Node<T> {
    elem: T,
    next: Option<Box<Node<T>>>,
}

#[allow(dead_code)]
pub struct Stack<T> {
    head: Option<Box<Node<T>>>,
}

} // verus!
