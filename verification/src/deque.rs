//! A doubly-linked deque: insertion, removal, and peek at both ends, each in
//! one step of pointer surgery.
//!
//! Every node is held by exactly two owning slots at all times: a node in the
//! middle of the list by its predecessor's forward link and its successor's
//! backward link, a node at an end by one neighbour and by the list's own
//! `head` or `tail` slot, and the sole node of a one-element list by both list
//! slots at once. The nodes live in an arena — a growable store of slots
//! addressed by stable indices — so the neighbour "pointers" are plain
//! indices, the two-owner discipline is index bookkeeping, and a freed slot is
//! returned to a free list for reuse. The chain of live indices, front to
//! back, is carried as ghost state and ties the whole structure together.

use vstd::prelude::*;

verus! {

/// What a pop or peek at the front reports: the first element, absent when
/// the list is empty.
pub open spec fn front_value<T>(s: Seq<T>) -> Option<T> {
    if s.len() == 0 {
        None
    } else {
        Some(s[0])
    }
}

/// What a pop or peek at the back reports: the last element, absent when the
/// list is empty.
pub open spec fn back_value<T>(s: Seq<T>) -> Option<T> {
    if s.len() == 0 {
        None
    } else {
        Some(s.last())
    }
}

/// The contents after a pop at the front: the empty list stays empty.
pub open spec fn popped_front<T>(s: Seq<T>) -> Seq<T> {
    if s.len() == 0 {
        s
    } else {
        s.drop_first()
    }
}

/// The contents after a pop at the back: the empty list stays empty.
pub open spec fn popped_back<T>(s: Seq<T>) -> Seq<T> {
    if s.len() == 0 {
        s
    } else {
        s.drop_last()
    }
}

/// The contents after a push at the front.
pub open spec fn pushed_front<T>(s: Seq<T>, e: T) -> Seq<T> {
    seq![e] + s
}

/// The contents after a push at the back.
pub open spec fn pushed_back<T>(s: Seq<T>, e: T) -> Seq<T> {
    s.push(e)
}

/// The contents after pushing the values of `xs`, in order, at the front.
pub open spec fn pushed_front_all<T>(s: Seq<T>, xs: Seq<T>) -> Seq<T>
    decreases xs.len(),
{
    if xs.len() == 0 {
        s
    } else {
        pushed_front_all(pushed_front(s, xs[0]), xs.drop_first())
    }
}

/// The contents after pushing the values of `xs`, in order, at the back.
pub open spec fn pushed_back_all<T>(s: Seq<T>, xs: Seq<T>) -> Seq<T>
    decreases xs.len(),
{
    if xs.len() == 0 {
        s
    } else {
        pushed_back_all(pushed_back(s, xs[0]), xs.drop_first())
    }
}

/// A push at one end followed by a pop or peek at the same end reports the
/// value just pushed, and the pop restores the previous contents; a pop or
/// peek at the opposite end still reports the element that was already
/// waiting there, so values cross the list in arrival order.
pub proof fn lemma_push_pop_round_trip<T>(s: Seq<T>, e: T)
    ensures
        front_value(pushed_front(s, e)) == Some(e),
        popped_front(pushed_front(s, e)) == s,
        back_value(pushed_back(s, e)) == Some(e),
        popped_back(pushed_back(s, e)) == s,
        back_value(pushed_front(s, e)) == (if s.len() == 0 {
            Some(e)
        } else {
            back_value(s)
        }),
        front_value(pushed_back(s, e)) == (if s.len() == 0 {
            Some(e)
        } else {
            front_value(s)
        }),
{
    assert(popped_front(pushed_front(s, e)) =~= s);
    assert(popped_back(pushed_back(s, e)) =~= s);
}

/// Pushes at the front come back out of the front newest first: after pushing
/// the values `xs` in order at the front, the list holds `xs` reversed,
/// followed by whatever was there before, so pops at the front return the
/// pushed values in reverse-chronological order.
pub proof fn lemma_push_front_order<T>(s: Seq<T>, xs: Seq<T>)
    ensures
        pushed_front_all(s, xs) == xs.reverse() + s,
    decreases xs.len(),
{
    if xs.len() == 0 {
        assert(pushed_front_all(s, xs) =~= xs.reverse() + s);
    } else {
        lemma_push_front_order(pushed_front(s, xs[0]), xs.drop_first());
        assert(xs.drop_first().reverse() + (seq![xs[0]] + s) =~= xs.reverse() + s);
    }
}

/// Pushes at the back leave the front untouched: after pushing the values
/// `xs` in order at the back, the list holds its old contents followed by
/// `xs`, so pops at the front return values in arrival order.
pub proof fn lemma_push_back_order<T>(s: Seq<T>, xs: Seq<T>)
    ensures
        pushed_back_all(s, xs) == s + xs,
    decreases xs.len(),
{
    if xs.len() == 0 {
        assert(pushed_back_all(s, xs) =~= s + xs);
    } else {
        lemma_push_back_order(pushed_back(s, xs[0]), xs.drop_first());
        assert((s + seq![xs[0]]) + xs.drop_first() =~= s + xs);
        assert(pushed_back(s, xs[0]) =~= s + seq![xs[0]]);
    }
}

/// One list node: an element together with its two neighbour links. A link is
/// the index of a slot in the owning list's arena; it is absent at a boundary
/// of the list.
pub struct Node<T> {
    elem: T,
    prev: Option<usize>,
    next: Option<usize>,
}

impl<T> Node<T> {
    /// The element the node holds.
    pub closed spec fn spec_elem(self) -> T {
        self.elem
    }

    /// The backward link of the node.
    pub closed spec fn spec_prev(self) -> Option<usize> {
        self.prev
    }

    /// The forward link of the node.
    pub closed spec fn spec_next(self) -> Option<usize> {
        self.next
    }

    /// A fresh node holding `elem`, with no neighbours yet.
    pub fn new(elem: T) -> (n: Node<T>)
        ensures
            n.spec_elem() == elem,
            n.spec_prev() is None,
            n.spec_next() is None,
    {
        Node { elem, prev: None, next: None }
    }
}

pub struct List<T> {
    slots: Vec<Option<Node<T>>>,
    free: Vec<usize>,
    head: Option<usize>,
    tail: Option<usize>,
    order: Ghost<Seq<usize>>,
}

impl<T> List<T> {
    /// The slot indices of the live nodes, front to back.
    pub closed spec fn chain(self) -> Seq<usize> {
        self.order@
    }

    /// How many slots the arena holds, live or free.
    pub closed spec fn slot_count(self) -> nat {
        self.slots@.len()
    }

    /// How many arena slots are on the free list.
    pub closed spec fn free_count(self) -> nat {
        self.free@.len()
    }

    /// Whether slot `i` holds a live node.
    pub closed spec fn live(self, i: usize) -> bool {
        i < self.slots@.len() && self.slots@[i as int] is Some
    }

    /// The set of slots holding live nodes.
    pub open spec fn live_slots(self) -> Set<usize> {
        Set::new(|i: usize| self.live(i))
    }

    /// The list's owning reference to the front node.
    pub closed spec fn head_slot(self) -> Option<usize> {
        self.head
    }

    /// The list's owning reference to the back node.
    pub closed spec fn tail_slot(self) -> Option<usize> {
        self.tail
    }

    /// The forward link of the node in slot `i`.
    pub closed spec fn next_of(self, i: usize) -> Option<usize>
        recommends
            self.live(i),
    {
        self.slots@[i as int].unwrap().next
    }

    /// The backward link of the node in slot `i`.
    pub closed spec fn prev_of(self, i: usize) -> Option<usize>
        recommends
            self.live(i),
    {
        self.slots@[i as int].unwrap().prev
    }

    /// The node at position `k` of the chain.
    spec fn node_at(self, k: int) -> Node<T>
        recommends
            0 <= k < self.order@.len(),
    {
        self.slots@[self.order@[k] as int].unwrap()
    }

    /// Structural well-formedness: the ghost chain walks exactly the live
    /// slots, the neighbour links and the two list slots follow the chain, and
    /// the free list holds exactly the dead slots.
    pub closed spec fn wf(self) -> bool {
        let ord = self.order@;
        let n = ord.len() as int;
        let m = self.slots@.len() as int;
        &&& forall|k: int|
            0 <= k < n ==> (#[trigger] ord[k]) < m && self.slots@[ord[k] as int] is Some
        &&& ord.no_duplicates()
        &&& self.head == (if n > 0 {
            Some(ord[0])
        } else {
            None::<usize>
        })
        &&& self.tail == (if n > 0 {
            Some(ord[n - 1])
        } else {
            None::<usize>
        })
        &&& forall|k: int|
            0 <= k < n ==> (#[trigger] self.node_at(k)).prev == (if k > 0 {
                Some(ord[k - 1])
            } else {
                None::<usize>
            })
        &&& forall|k: int|
            0 <= k < n ==> (#[trigger] self.node_at(k)).next == (if k < n - 1 {
                Some(ord[k + 1])
            } else {
                None::<usize>
            })
        &&& forall|k: int|
            0 <= k < self.free@.len() ==> (#[trigger] self.free@[k]) < m
                && self.slots@[self.free@[k] as int] is None
        &&& self.free@.no_duplicates()
        &&& self.slots@.len() == ord.len() + self.free@.len()
        &&& forall|i: usize|
            (i as int) < m ==> ((#[trigger] self.slots@[i as int]) is Some <==> ord.contains(i))
    }

    /// An empty list: both end slots absent, no nodes allocated.
    pub fn new() -> (l: List<T>)
        ensures
            l.wf(),
            l@ == Seq::<T>::empty(),
            l.slot_count() == 0,
            l.free_count() == 0,
    {
        let l = List {
            slots: Vec::new(),
            free: Vec::new(),
            head: None,
            tail: None,
            order: Ghost(Seq::empty()),
        };
        proof {
            assert(l@ =~= Seq::<T>::empty());
        }
        l
    }
}

impl<T> View for List<T> {
    type V = Seq<T>;

    closed spec fn view(&self) -> Seq<T> {
        Seq::new(self.order@.len(), |k: int| self.node_at(k).elem)
    }
}

/// Takes the node out of slot `i`, leaving the slot dead.
fn take_slot<T>(slots: &mut Vec<Option<Node<T>>>, i: usize) -> (r: Option<Node<T>>)
    requires
        i < old(slots)@.len(),
    ensures
        r == old(slots)@[i as int],
        final(slots)@ == old(slots)@.update(i as int, None::<Node<T>>),
{
    let mut taken: Option<Node<T>> = None;
    core::mem::swap(&mut taken, &mut slots[i]);
    taken
}

/// Redirects the backward link of the node in slot `i` to `p`.
fn set_prev<T>(slots: &mut Vec<Option<Node<T>>>, i: usize, p: Option<usize>)
    requires
        i < old(slots)@.len(),
        old(slots)@[i as int] is Some,
    ensures
        final(slots)@.len() == old(slots)@.len(),
        final(slots)@[i as int] is Some,
        final(slots)@[i as int].unwrap().elem == old(slots)@[i as int].unwrap().elem,
        final(slots)@[i as int].unwrap().next == old(slots)@[i as int].unwrap().next,
        final(slots)@[i as int].unwrap().prev == p,
        forall|j: int| 0 <= j < old(slots)@.len() && j != i ==> final(slots)@[j] == old(slots)@[j],
{
    let mut taken = take_slot(slots, i);
    let mut node = taken.unwrap();
    node.prev = p;
    slots[i] = Some(node);
}

/// Redirects the forward link of the node in slot `i` to `n`.
fn set_next<T>(slots: &mut Vec<Option<Node<T>>>, i: usize, n: Option<usize>)
    requires
        i < old(slots)@.len(),
        old(slots)@[i as int] is Some,
    ensures
        final(slots)@.len() == old(slots)@.len(),
        final(slots)@[i as int] is Some,
        final(slots)@[i as int].unwrap().elem == old(slots)@[i as int].unwrap().elem,
        final(slots)@[i as int].unwrap().prev == old(slots)@[i as int].unwrap().prev,
        final(slots)@[i as int].unwrap().next == n,
        forall|j: int| 0 <= j < old(slots)@.len() && j != i ==> final(slots)@[j] == old(slots)@[j],
{
    let mut taken = take_slot(slots, i);
    let mut node = taken.unwrap();
    node.next = n;
    slots[i] = Some(node);
}

impl<T> List<T> {
    /// Stores `node` in a dead slot, reusing a freed one when the free list
    /// offers it and growing the arena otherwise. Leaves the chain, the end
    /// slots, and every other slot untouched.
    fn store_node(&mut self, node: Node<T>) -> (i: usize)
        requires
            forall|k: int|
                0 <= k < old(self).free@.len() ==> (#[trigger] old(self).free@[k])
                    < old(self).slots@.len() && old(self).slots@[old(self).free@[k] as int] is None,
        ensures
            final(self).head == old(self).head,
            final(self).tail == old(self).tail,
            final(self).order == old(self).order,
            (i as int) < final(self).slots@.len(),
            final(self).slots@[i as int] == Some(node),
            forall|j: int|
                0 <= j < old(self).slots@.len() && j != i ==> final(self).slots@[j] == old(
                    self,
                ).slots@[j],
            (i as int) < old(self).slots@.len() ==> old(self).slots@[i as int] is None,
            old(self).free@.len() > 0 ==> i == old(self).free@.last() && final(self).free@ == old(
                self,
            ).free@.drop_last() && final(self).slots@.len() == old(self).slots@.len(),
            old(self).free@.len() == 0 ==> i as int == old(self).slots@.len() && final(self).free@
                == old(self).free@ && final(self).slots@.len() == old(self).slots@.len() + 1,
    {
        match self.free.pop() {
            Some(i) => {
                self.slots[i] = Some(node);
                i
            },
            None => {
                let i = self.slots.len();
                self.slots.push(Some(node));
                i
            },
        }
    }

    /// Pushes `elem` at the front: the new node takes the old front node (if
    /// any) as its forward neighbour and both the list's head slot and that
    /// neighbour's backward link come to own it.
    pub fn push_front(&mut self, elem: T)
        requires
            old(self).wf(),
        ensures
            final(self).wf(),
            final(self)@ == pushed_front(old(self)@, elem),
    {
        let mut node = Node::new(elem);
        node.next = self.head;
        let i = self.store_node(node);
        proof {
            let o = old(self).order@;
            assert forall|k: int| 0 <= k < o.len() implies (#[trigger] o[k]) != i by {
                assert(old(self).slots@[o[k] as int] is Some);
            }
        }
        match self.head {
            Some(h) => {
                proof {
                    assert(h == old(self).order@[0]);
                    assert(old(self).slots@[h as int] is Some);
                }
                set_prev(&mut self.slots, h, Some(i));
                self.head = Some(i);
            },
            None => {
                self.head = Some(i);
                self.tail = Some(i);
            },
        }
        proof {
            self.order@ = seq![i] + self.order@;
        }
        proof {
            let o = old(self).order@;
            let n = o.len() as int;
            let o2 = self.order@;
            let m2 = self.slots@.len() as int;
            assert forall|j: usize| (j as int) < m2 implies ((#[trigger] self.slots@[j as int])
                is Some <==> o2.contains(j)) by {
                if j == i {
                    assert(o2[0] == i);
                } else {
                    if o.contains(j) {
                        let idx = choose|idx: int| 0 <= idx < n && o[idx] == j;
                        assert(o2[idx + 1] == j);
                    }
                    if o2.contains(j) {
                        let idx = choose|idx: int| 0 <= idx < o2.len() && o2[idx] == j;
                        assert(idx != 0);
                        assert(o[idx - 1] == j);
                    }
                }
            }
            assert forall|k: int| 0 <= k < o2.len() implies (#[trigger] o2[k]) < m2
                && self.slots@[o2[k] as int] is Some by {
                if k > 0 {
                    assert(o2[k] == o[k - 1]);
                    assert(old(self).slots@[o[k - 1] as int] is Some);
                }
            }
            assert forall|k: int| 0 <= k < o2.len() implies (#[trigger] self.node_at(k)).prev == (
            if k > 0 {
                Some(o2[k - 1])
            } else {
                None::<usize>
            }) && self.node_at(k).next == (if k < o2.len() - 1 {
                Some(o2[k + 1])
            } else {
                None::<usize>
            }) by {
                if k > 0 {
                    assert(o2[k] == o[k - 1]);
                    assert(old(self).node_at(k - 1) == old(self).slots@[o[k - 1] as int].unwrap());
                }
            }
            assert(self.free@.no_duplicates()) by {
                if old(self).free@.len() > 0 {
                    assert(forall|a: int|
                        0 <= a < self.free@.len() ==> self.free@[a] == old(self).free@[a]);
                }
            }
            assert forall|k: int| 0 <= k < self.free@.len() implies (#[trigger] self.free@[k]) < m2
                && self.slots@[self.free@[k] as int] is None by {
                assert(self.free@[k] == old(self).free@[k]);
                assert(old(self).free@[k] != i);
                assert(old(self).slots@[old(self).free@[k] as int] is None);
            }
            assert(self.wf());
            assert forall|k: int| 0 <= k < o2.len() implies self@[k] == (seq![elem] + old(self)@)[k]
                by {
                if k > 0 {
                    assert(self.node_at(k).elem == old(self).node_at(k - 1).elem);
                    assert(old(self)@[k - 1] == old(self).node_at(k - 1).elem);
                }
            }
            assert(self@ =~= seq![elem] + old(self)@);
        }
    }

    /// Pops the front element. The front node loses both its owners — the
    /// list's head slot and, when it has a forward neighbour, that
    /// neighbour's backward link — and its slot is released to the free list.
    pub fn pop_front(&mut self) -> (r: Option<T>)
        requires
            old(self).wf(),
        ensures
            final(self).wf(),
            r == front_value(old(self)@),
            final(self)@ == popped_front(old(self)@),
            final(self).slot_count() == old(self).slot_count(),
            old(self)@.len() > 0 ==> final(self).free_count() == old(self).free_count() + 1,
            old(self)@.len() == 0 ==> *final(self) == *old(self),
    {
        match self.head {
            None => None,
            Some(i) => {
                proof {
                    assert(i == old(self).order@[0]);
                    assert(old(self).slots@[i as int] is Some);
                }
                let node_opt = take_slot(&mut self.slots, i);
                let node = node_opt.unwrap();
                proof {
                    assert(node == old(self).node_at(0));
                }
                match node.next {
                    Some(j) => {
                        proof {
                            assert(old(self).order@.len() >= 2);
                            assert(j == old(self).order@[1]);
                            assert(old(self).slots@[j as int] is Some);
                            assert(j != i);
                        }
                        set_prev(&mut self.slots, j, None);
                        self.head = Some(j);
                    },
                    None => {
                        proof {
                            assert(old(self).order@.len() == 1);
                        }
                        self.head = None;
                        self.tail = None;
                    },
                }
                self.free.push(i);
                proof {
                    self.order@ = self.order@.drop_first();
                }
                proof {
                    let o = old(self).order@;
                    let n = o.len() as int;
                    let o2 = self.order@;
                    let m = self.slots@.len() as int;
                    assert forall|j2: usize| (j2 as int) < m implies ((
                    #[trigger] self.slots@[j2 as int]) is Some <==> o2.contains(j2)) by {
                        if j2 == i {
                            if o2.contains(j2) {
                                let idx = choose|idx: int| 0 <= idx < o2.len() && o2[idx] == j2;
                                assert(o[idx + 1] == j2);
                                assert(o[0] == j2);
                            }
                        } else {
                            if o.contains(j2) {
                                let idx = choose|idx: int| 0 <= idx < n && o[idx] == j2;
                                assert(idx != 0);
                                assert(o2[idx - 1] == j2);
                            }
                            if o2.contains(j2) {
                                let idx = choose|idx: int| 0 <= idx < o2.len() && o2[idx] == j2;
                                assert(o[idx + 1] == j2);
                            }
                        }
                    }
                    assert forall|k: int| 0 <= k < o2.len() implies (#[trigger] o2[k]) < m
                        && self.slots@[o2[k] as int] is Some by {
                        assert(o2[k] == o[k + 1]);
                        assert(old(self).slots@[o[k + 1] as int] is Some);
                    }
                    assert forall|k: int| 0 <= k < o2.len() implies (#[trigger] self.node_at(
                        k,
                    )).prev == (if k > 0 {
                        Some(o2[k - 1])
                    } else {
                        None::<usize>
                    }) && self.node_at(k).next == (if k < o2.len() - 1 {
                        Some(o2[k + 1])
                    } else {
                        None::<usize>
                    }) by {
                        assert(o2[k] == o[k + 1]);
                        assert(old(self).node_at(k + 1) == old(self).slots@[o[k + 1] as int].unwrap());
                    }
                    assert forall|k: int| 0 <= k < self.free@.len() implies (
                    #[trigger] self.free@[k]) < m && self.slots@[self.free@[k] as int] is None by {
                        if k < old(self).free@.len() {
                            assert(self.free@[k] == old(self).free@[k]);
                            assert(old(self).slots@[old(self).free@[k] as int] is None);
                        } else {
                            assert(self.free@[k] == i);
                        }
                    }
                    assert(self.free@.no_duplicates()) by {
                        assert(forall|a: int|
                            0 <= a < old(self).free@.len() ==> self.free@[a] == old(self).free@[a]);
                        assert(self.free@[old(self).free@.len() as int] == i);
                        assert(old(self).slots@[i as int] is Some);
                        assert(forall|a: int|
                            0 <= a < old(self).free@.len() ==> old(self).free@[a] != i);
                    }
                    assert(self.wf());
                    assert forall|k: int| 0 <= k < o2.len() implies self@[k] == old(self)@.drop_first()[k]
                        by {
                        assert(o2[k] == o[k + 1]);
                        assert(self.node_at(k).elem == old(self).node_at(k + 1).elem);
                        assert(old(self)@[k + 1] == old(self).node_at(k + 1).elem);
                    }
                    assert(self@ =~= old(self)@.drop_first());
                    assert(node.elem == old(self)@[0]);
                }
                Some(node.elem)
            },
        }
    }

    /// Pushes `elem` at the back: the mirror image of `push_front`, working
    /// on the tail slot and the backward links.
    pub fn push_back(&mut self, elem: T)
        requires
            old(self).wf(),
        ensures
            final(self).wf(),
            final(self)@ == pushed_back(old(self)@, elem),
    {
        let mut node = Node::new(elem);
        node.prev = self.tail;
        let i = self.store_node(node);
        proof {
            let o = old(self).order@;
            assert forall|k: int| 0 <= k < o.len() implies (#[trigger] o[k]) != i by {
                assert(old(self).slots@[o[k] as int] is Some);
            }
        }
        match self.tail {
            Some(t) => {
                proof {
                    assert(t == old(self).order@[old(self).order@.len() - 1]);
                    assert(old(self).slots@[t as int] is Some);
                }
                set_next(&mut self.slots, t, Some(i));
                self.tail = Some(i);
            },
            None => {
                self.head = Some(i);
                self.tail = Some(i);
            },
        }
        proof {
            self.order@ = self.order@.push(i);
        }
        proof {
            let o = old(self).order@;
            let n = o.len() as int;
            let o2 = self.order@;
            let m2 = self.slots@.len() as int;
            assert forall|j: usize| (j as int) < m2 implies ((#[trigger] self.slots@[j as int])
                is Some <==> o2.contains(j)) by {
                if j == i {
                    assert(o2[n] == i);
                } else {
                    if o.contains(j) {
                        let idx = choose|idx: int| 0 <= idx < n && o[idx] == j;
                        assert(o2[idx] == j);
                    }
                    if o2.contains(j) {
                        let idx = choose|idx: int| 0 <= idx < o2.len() && o2[idx] == j;
                        assert(idx != n);
                        assert(o[idx] == j);
                    }
                }
            }
            assert forall|k: int| 0 <= k < o2.len() implies (#[trigger] o2[k]) < m2
                && self.slots@[o2[k] as int] is Some by {
                if k < n {
                    assert(o2[k] == o[k]);
                    assert(old(self).slots@[o[k] as int] is Some);
                }
            }
            assert forall|k: int| 0 <= k < o2.len() implies (#[trigger] self.node_at(k)).prev == (
            if k > 0 {
                Some(o2[k - 1])
            } else {
                None::<usize>
            }) && self.node_at(k).next == (if k < o2.len() - 1 {
                Some(o2[k + 1])
            } else {
                None::<usize>
            }) by {
                if k < n {
                    assert(o2[k] == o[k]);
                    assert(old(self).node_at(k) == old(self).slots@[o[k] as int].unwrap());
                }
            }
            assert(self.free@.no_duplicates()) by {
                if old(self).free@.len() > 0 {
                    assert(forall|a: int|
                        0 <= a < self.free@.len() ==> self.free@[a] == old(self).free@[a]);
                }
            }
            assert forall|k: int| 0 <= k < self.free@.len() implies (#[trigger] self.free@[k]) < m2
                && self.slots@[self.free@[k] as int] is None by {
                assert(self.free@[k] == old(self).free@[k]);
                assert(old(self).free@[k] != i);
                assert(old(self).slots@[old(self).free@[k] as int] is None);
            }
            assert(self.wf());
            assert forall|k: int| 0 <= k < o2.len() implies self@[k] == pushed_back(
                old(self)@,
                elem,
            )[k] by {
                if k < n {
                    assert(self.node_at(k).elem == old(self).node_at(k).elem);
                    assert(old(self)@[k] == old(self).node_at(k).elem);
                }
            }
            assert(self@ =~= pushed_back(old(self)@, elem));
        }
    }

    /// Pops the back element: the mirror image of `pop_front`.
    pub fn pop_back(&mut self) -> (r: Option<T>)
        requires
            old(self).wf(),
        ensures
            final(self).wf(),
            r == back_value(old(self)@),
            final(self)@ == popped_back(old(self)@),
            final(self).slot_count() == old(self).slot_count(),
            old(self)@.len() > 0 ==> final(self).free_count() == old(self).free_count() + 1,
            old(self)@.len() == 0 ==> *final(self) == *old(self),
    {
        match self.tail {
            None => None,
            Some(i) => {
                proof {
                    assert(i == old(self).order@[old(self).order@.len() - 1]);
                    assert(old(self).slots@[i as int] is Some);
                }
                let node_opt = take_slot(&mut self.slots, i);
                let node = node_opt.unwrap();
                proof {
                    assert(node == old(self).node_at(old(self).order@.len() - 1));
                }
                match node.prev {
                    Some(j) => {
                        proof {
                            let n = old(self).order@.len() as int;
                            assert(old(self).order@.len() >= 2);
                            assert(j == old(self).order@[n - 2]);
                            assert(old(self).slots@[j as int] is Some);
                            assert(j != i);
                        }
                        set_next(&mut self.slots, j, None);
                        self.tail = Some(j);
                    },
                    None => {
                        proof {
                            assert(old(self).order@.len() == 1);
                        }
                        self.head = None;
                        self.tail = None;
                    },
                }
                self.free.push(i);
                proof {
                    self.order@ = self.order@.drop_last();
                }
                proof {
                    let o = old(self).order@;
                    let n = o.len() as int;
                    let o2 = self.order@;
                    let m = self.slots@.len() as int;
                    assert forall|j2: usize| (j2 as int) < m implies ((
                    #[trigger] self.slots@[j2 as int]) is Some <==> o2.contains(j2)) by {
                        if j2 == i {
                            if o2.contains(j2) {
                                let idx = choose|idx: int| 0 <= idx < o2.len() && o2[idx] == j2;
                                assert(o[idx] == j2);
                                assert(o[n - 1] == j2);
                            }
                        } else {
                            if o.contains(j2) {
                                let idx = choose|idx: int| 0 <= idx < n && o[idx] == j2;
                                assert(idx != n - 1);
                                assert(o2[idx] == j2);
                            }
                            if o2.contains(j2) {
                                let idx = choose|idx: int| 0 <= idx < o2.len() && o2[idx] == j2;
                                assert(o[idx] == j2);
                            }
                        }
                    }
                    assert forall|k: int| 0 <= k < o2.len() implies (#[trigger] o2[k]) < m
                        && self.slots@[o2[k] as int] is Some by {
                        assert(o2[k] == o[k]);
                        assert(old(self).slots@[o[k] as int] is Some);
                    }
                    assert forall|k: int| 0 <= k < o2.len() implies (#[trigger] self.node_at(
                        k,
                    )).prev == (if k > 0 {
                        Some(o2[k - 1])
                    } else {
                        None::<usize>
                    }) && self.node_at(k).next == (if k < o2.len() - 1 {
                        Some(o2[k + 1])
                    } else {
                        None::<usize>
                    }) by {
                        assert(o2[k] == o[k]);
                        assert(old(self).node_at(k) == old(self).slots@[o[k] as int].unwrap());
                    }
                    assert forall|k: int| 0 <= k < self.free@.len() implies (
                    #[trigger] self.free@[k]) < m && self.slots@[self.free@[k] as int] is None by {
                        if k < old(self).free@.len() {
                            assert(self.free@[k] == old(self).free@[k]);
                            assert(old(self).slots@[old(self).free@[k] as int] is None);
                        } else {
                            assert(self.free@[k] == i);
                        }
                    }
                    assert(self.free@.no_duplicates()) by {
                        assert(forall|a: int|
                            0 <= a < old(self).free@.len() ==> self.free@[a] == old(self).free@[a]);
                        assert(self.free@[old(self).free@.len() as int] == i);
                        assert(old(self).slots@[i as int] is Some);
                        assert(forall|a: int|
                            0 <= a < old(self).free@.len() ==> old(self).free@[a] != i);
                    }
                    assert(self.wf());
                    assert forall|k: int| 0 <= k < o2.len() implies self@[k] == old(
                        self,
                    )@.drop_last()[k] by {
                        assert(o2[k] == o[k]);
                        assert(self.node_at(k).elem == old(self).node_at(k).elem);
                        assert(old(self)@[k] == old(self).node_at(k).elem);
                    }
                    assert(self@ =~= old(self)@.drop_last());
                    assert(node.elem == old(self)@[n - 1]);
                }
                Some(node.elem)
            },
        }
    }

    /// Reads the front element without touching the structure: it reports
    /// exactly the value a pop at the front would remove.
    pub fn peek_front(&self) -> (r: Option<&T>)
        requires
            self.wf(),
        ensures
            match r {
                Option::Some(e) => front_value(self@) == Some(*e),
                Option::None => front_value(self@) == None::<T>,
            },
    {
        match self.head {
            None => None,
            Some(i) => {
                proof {
                    assert(i == self.order@[0]);
                    assert(self.slots@[i as int] is Some);
                }
                match &self.slots[i] {
                    Some(node) => {
                        proof {
                            assert(node.elem == self.node_at(0).elem);
                        }
                        Some(&node.elem)
                    },
                    None => vstd::pervasive::unreached(),
                }
            },
        }
    }

    /// Reads the back element without touching the structure: it reports
    /// exactly the value a pop at the back would remove.
    pub fn peek_back(&self) -> (r: Option<&T>)
        requires
            self.wf(),
        ensures
            match r {
                Option::Some(e) => back_value(self@) == Some(*e),
                Option::None => back_value(self@) == None::<T>,
            },
    {
        match self.tail {
            None => None,
            Some(i) => {
                proof {
                    assert(i == self.order@[self.order@.len() - 1]);
                    assert(self.slots@[i as int] is Some);
                }
                match &self.slots[i] {
                    Some(node) => {
                        proof {
                            assert(node.elem == self.node_at(self.order@.len() - 1).elem);
                        }
                        Some(&node.elem)
                    },
                    None => vstd::pervasive::unreached(),
                }
            },
        }
    }

    /// How many elements the list holds: the arena slots that are not on the
    /// free list are exactly the live nodes.
    pub fn len(&self) -> (n: usize)
        requires
            self.wf(),
        ensures
            n == self@.len(),
    {
        self.slots.len() - self.free.len()
    }

    /// Whether the list is empty.
    pub fn is_empty(&self) -> (b: bool)
        requires
            self.wf(),
        ensures
            b == (self@.len() == 0),
    {
        self.head.is_none()
    }

    /// Tears the list down by popping at the front until it is empty. Each of
    /// the `n` live nodes is released exactly once — the free list grows by
    /// exactly `n` slots and the arena keeps its size — and the loop keeps the
    /// release count bounded and iterative no matter how long the list is.
    pub fn clear(&mut self)
        requires
            old(self).wf(),
        ensures
            final(self).wf(),
            final(self)@ == Seq::<T>::empty(),
            final(self).slot_count() == old(self).slot_count(),
            final(self).free_count() == old(self).free_count() + old(self)@.len(),
    {
        loop
            invariant
                self.wf(),
                self.slot_count() == old(self).slot_count(),
                self.free_count() + self@.len() == old(self).free_count() + old(self)@.len(),
            ensures
                self.wf(),
                self@.len() == 0,
                self.slot_count() == old(self).slot_count(),
                self.free_count() == old(self).free_count() + old(self)@.len(),
            decreases self@.len(),
        {
            match self.pop_front() {
                Some(_) => {},
                None => {
                    break ;
                },
            }
        }
        proof {
            assert(self@ =~= Seq::<T>::empty());
        }
    }

    /// A mutable view of the front element; the list must not be empty. The
    /// arena is the sole owner of the nodes, so exclusivity needs no runtime
    /// check: the view lives inside the exclusive borrow of the list itself,
    /// and nothing can read or reshape the list while the view is live.
    pub fn peek_front_mut(&mut self) -> (r: &mut T)
        requires
            old(self).wf(),
            old(self)@.len() > 0,
        ensures
            *r == old(self)@[0],
            final(self).wf(),
            final(self)@ == old(self)@.update(0, *final(r)),
    {
        let i = match self.head {
            Some(i) => i,
            None => vstd::pervasive::unreached(),
        };
        proof {
            assert(i == self.order@[0]);
            assert(self.slots@[i as int] is Some);
            assert(self.node_at(0).elem == self@[0]);
            let pre = *self;
            assert forall|post: List<T>|
                post.head == pre.head && post.tail == pre.tail && post.free == pre.free
                    && post.order == pre.order && post.slots@.len() == pre.slots@.len()
                    && post.slots@[i as int] is Some && post.slots@[i as int].unwrap().prev
                    == pre.node_at(0).prev && post.slots@[i as int].unwrap().next == pre.node_at(
                    0,
                ).next && (forall|j: int|
                    0 <= j < pre.slots@.len() && j != i ==> post.slots@[j] == pre.slots@[j]) implies (#[trigger] post.wf()) && post@ == pre@.update(
                0,
                post.node_at(0).elem,
            ) by {
                List::<T>::lemma_elem_update(pre, post, 0);
            }
        }
        match &mut self.slots[i] {
            Some(node) => &mut node.elem,
            None => vstd::pervasive::unreached(),
        }
    }

    /// A mutable view of the back element; the list must not be empty. The
    /// same exclusivity argument as for `peek_front_mut` applies.
    pub fn peek_back_mut(&mut self) -> (r: &mut T)
        requires
            old(self).wf(),
            old(self)@.len() > 0,
        ensures
            *r == old(self)@[old(self)@.len() - 1],
            final(self).wf(),
            final(self)@ == old(self)@.update(old(self)@.len() - 1, *final(r)),
    {
        let i = match self.tail {
            Some(i) => i,
            None => vstd::pervasive::unreached(),
        };
        proof {
            let k = self.order@.len() - 1;
            assert(i == self.order@[k]);
            assert(self.slots@[i as int] is Some);
            assert(self.node_at(k).elem == self@[k]);
            let pre = *self;
            assert forall|post: List<T>|
                post.head == pre.head && post.tail == pre.tail && post.free == pre.free
                    && post.order == pre.order && post.slots@.len() == pre.slots@.len()
                    && post.slots@[i as int] is Some && post.slots@[i as int].unwrap().prev
                    == pre.node_at(k).prev && post.slots@[i as int].unwrap().next == pre.node_at(
                    k,
                ).next && (forall|j: int|
                    0 <= j < pre.slots@.len() && j != i ==> post.slots@[j] == pre.slots@[j]) implies (#[trigger] post.wf()) && post@ == pre@.update(
                k,
                post.node_at(k).elem,
            ) by {
                List::<T>::lemma_elem_update(pre, post, k);
            }
        }
        match &mut self.slots[i] {
            Some(node) => &mut node.elem,
            None => vstd::pervasive::unreached(),
        }
    }

    /// Replacing the element of the node at chain position `k`, and nothing
    /// else, keeps the list well formed and updates position `k` of the
    /// contents.
    proof fn lemma_elem_update(pre: List<T>, post: List<T>, k: int)
        requires
            pre.wf(),
            0 <= k < pre.order@.len(),
            post.head == pre.head,
            post.tail == pre.tail,
            post.free == pre.free,
            post.order == pre.order,
            post.slots@.len() == pre.slots@.len(),
            post.slots@[pre.order@[k] as int] is Some,
            post.slots@[pre.order@[k] as int].unwrap().prev == pre.node_at(k).prev,
            post.slots@[pre.order@[k] as int].unwrap().next == pre.node_at(k).next,
            forall|j: int|
                0 <= j < pre.slots@.len() && j != pre.order@[k] ==> post.slots@[j] == pre.slots@[j],
        ensures
            post.wf(),
            post@ == pre@.update(k, post.node_at(k).elem),
    {
        let o = pre.order@;
        let i = o[k];
        assert forall|a: int| 0 <= a < o.len() implies #[trigger] post.node_at(a) == (if a == k {
            post.node_at(k)
        } else {
            pre.node_at(a)
        }) by {
            if a != k {
                assert(o[a] != i);
            }
        }
        assert(post.wf());
        assert forall|a: int| 0 <= a < o.len() implies post@[a] == pre@.update(
            k,
            post.node_at(k).elem,
        )[a] by {
            if a != k {
                assert(post.node_at(a) == pre.node_at(a));
                assert(pre@[a] == pre.node_at(a).elem);
            }
        }
        assert(post@ =~= pre@.update(k, post.node_at(k).elem));
    }

    /// Node accounting: a well-formed list holding `n` elements has exactly
    /// `n` live nodes — the live slots are exactly the slots of the chain, one
    /// per element, and every other arena slot sits on the free list.
    pub proof fn lemma_live_node_count(self)
        requires
            self.wf(),
        ensures
            self.live_slots() == self.chain().to_set(),
            self.live_slots().finite(),
            self.live_slots().len() == self@.len(),
            self.slot_count() == self@.len() + self.free_count(),
    {
        broadcast use vstd::seq_lib::seq_to_set_is_finite;

        let o = self.chain();
        assert forall|i: usize| #[trigger] self.live(i) implies o.contains(i) by {}
        assert forall|i: usize| #[trigger] o.contains(i) implies self.live(i) by {
            let idx = choose|idx: int| 0 <= idx < o.len() && o[idx] == i;
            assert(self.slots@[o[idx] as int] is Some);
        }
        assert(self.live_slots() =~= o.to_set());
        o.unique_seq_to_set();
    }

    /// Exactly two owners: in a well-formed list the node at position `k` of
    /// the chain, living in slot `i`, is held by exactly two owning slots.
    /// Its left owner is the list's head slot when it is the front node and
    /// its predecessor's forward link otherwise; its right owner is the
    /// list's tail slot when it is the back node and its successor's backward
    /// link otherwise; and no other list slot or neighbour link of any live
    /// node refers to `i`.
    pub proof fn lemma_two_owners(self, k: int)
        requires
            self.wf(),
            0 <= k < self.chain().len(),
        ensures
            k == 0 ==> self.head_slot() == Some(self.chain()[k]),
            k > 0 ==> self.next_of(self.chain()[k - 1]) == Some(self.chain()[k]),
            k == self.chain().len() - 1 ==> self.tail_slot() == Some(self.chain()[k]),
            k < self.chain().len() - 1 ==> self.prev_of(self.chain()[k + 1]) == Some(
                self.chain()[k],
            ),
            k != 0 ==> self.head_slot() != Some(self.chain()[k]),
            k != self.chain().len() - 1 ==> self.tail_slot() != Some(self.chain()[k]),
            forall|j: usize|
                self.live(j) && (#[trigger] self.next_of(j)) == Some(self.chain()[k]) ==> k > 0
                    && j == self.chain()[k - 1],
            forall|j: usize|
                self.live(j) && (#[trigger] self.prev_of(j)) == Some(self.chain()[k]) ==> k
                    < self.chain().len() - 1 && j == self.chain()[k + 1],
    {
        let o = self.chain();
        let n = o.len() as int;
        let i = o[k];
        assert(self.node_at(k).prev == (if k > 0 {
            Some(o[k - 1])
        } else {
            None::<usize>
        }));
        assert(self.node_at(k).next == (if k < n - 1 {
            Some(o[k + 1])
        } else {
            None::<usize>
        }));
        if k > 0 {
            assert(self.node_at(k - 1).next == Some(o[k]));
            assert(self.next_of(o[k - 1]) == self.node_at(k - 1).next);
        }
        if k < n - 1 {
            assert(self.node_at(k + 1).prev == Some(o[k]));
            assert(self.prev_of(o[k + 1]) == self.node_at(k + 1).prev);
        }
        assert forall|j: usize|
            self.live(j) && (#[trigger] self.next_of(j)) == Some(i) implies k > 0 && j == o[k - 1] by {
            assert(o.contains(j));
            let a = choose|a: int| 0 <= a < n && o[a] == j;
            assert(self.node_at(a).next == Some(i));
            assert(a < n - 1);
            assert(o[a + 1] == i);
            assert(a + 1 == k);
        }
        assert forall|j: usize|
            self.live(j) && (#[trigger] self.prev_of(j)) == Some(i) implies k < n - 1 && j == o[k + 1] by {
            assert(o.contains(j));
            let a = choose|a: int| 0 <= a < n && o[a] == j;
            assert(self.node_at(a).prev == Some(i));
            assert(a > 0);
            assert(o[a - 1] == i);
            assert(a - 1 == k);
        }
    }
}

} // verus!

