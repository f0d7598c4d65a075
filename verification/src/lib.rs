//! A small collection of verified linked-list variants: a doubly-linked deque
//! backed by an arena of slots, a persistent singly-linked list with shared
//! tails, and the skeleton of a split two-ended stack.

pub mod deque;
pub mod double_single;
pub mod persistent;
