//! A doubly-linked list with asymmetric links: forward links own their
//! successor, backward links are non-owning references used only for O(1)
//! tail access and reverse traversal.
//!
//! Nodes live in a slot arena (a growable table), and every link is a stable
//! slot index. "Owning" means the slot is occupied and reachable from the
//! head index; a back-reference is navigation only and never a release path.

use vstd::prelude::*;

verus! {

struct Node<T> {
    elem: T,
    /// Owning link to the successor's slot; absent for the last node.
    next: Option<usize>,
    /// Non-owning back-reference to the predecessor's slot; absent for the
    /// first node.
    prev: Option<usize>,
}

/// A doubly-linked list. Its view is the sequence of elements from front
/// to back.
pub struct List<T> {
    /// The slot arena; a vacant slot holds `None`.
    nodes: Vec<Option<Node<T>>>,
    /// Owning link to the first node's slot; absent when empty.
    head: Option<usize>,
    /// Non-owning reference to the last node's slot; absent when empty.
    tail: Option<usize>,
    /// Vacant slots available for reuse.
    spare: Vec<usize>,
    /// The slots of the chain, front to back.
    order: Ghost<Seq<usize>>,
}

/// The node in slot `ord[k]` links exactly to its neighbours in the chain
/// `ord`: its owning forward link denotes the slot at position `k + 1` (or is
/// absent at the back), and its back-reference denotes the slot at position
/// `k - 1` (or is absent at the front).
spec fn node_links_ok<T>(ord: Seq<usize>, nodes: Seq<Option<Node<T>>>, k: int) -> bool {
    let s = ord[k];
    &&& (s as int) < nodes.len()
    &&& nodes[s as int] matches Some(node)
        && node.next == (if k + 1 == ord.len() { None::<usize> } else { Some(ord[k + 1]) })
        && node.prev == (if k == 0 { None::<usize> } else { Some(ord[k - 1]) })
}

/// The chain `ord` visits pairwise distinct occupied slots whose links are
/// the exact inverse of one another.
spec fn chain_ok<T>(ord: Seq<usize>, nodes: Seq<Option<Node<T>>>) -> bool {
    &&& forall|k: int| 0 <= k < ord.len() ==> node_links_ok(ord, nodes, k)
    &&& ord.no_duplicates()
}

/// The head link and the tail reference denote the two ends of the chain,
/// and are both absent exactly when the chain is empty.
spec fn ends_ok(ord: Seq<usize>, head: Option<usize>, tail: Option<usize>) -> bool {
    &&& head == (if ord.len() == 0 { None::<usize> } else { Some(ord[0]) })
    &&& tail == (if ord.len() == 0 { None::<usize> } else { Some(ord[ord.len() - 1]) })
}

/// The spare list accounts exactly for the vacant slots, each once.
spec fn spare_ok<T>(nodes: Seq<Option<Node<T>>>, spare: Seq<usize>) -> bool {
    &&& forall|j: int| 0 <= j < spare.len()
        ==> (#[trigger] spare[j] as int) < nodes.len() && nodes[spare[j] as int] is None
    &&& spare.no_duplicates()
    &&& forall|s: usize| (s as int) < nodes.len() && nodes[s as int] is None ==> spare.contains(s)
}

/// The elements held by the chain `ord`, front to back.
spec fn chain_view<T>(ord: Seq<usize>, nodes: Seq<Option<Node<T>>>) -> Seq<T> {
    ord.map(|k: int, s: usize| nodes[s as int]->Some_0.elem)
}

impl<T> View for List<T> {
    type V = Seq<T>;

    closed spec fn view(&self) -> Seq<T> {
        chain_view(self.order@, self.nodes@)
    }
}

impl<T> List<T> {
    /// The slot at position `k` of the chain holds a node whose links agree
    /// with its neighbours in the chain.
    spec fn node_ok(&self, k: int) -> bool {
        node_links_ok(self.order@, self.nodes@, k)
    }

    /// Back-references are the exact inverse of the owning forward links,
    /// the head link and the tail reference denote the two ends, and every
    /// vacant slot is accounted for in the spare list.
    pub closed spec fn wf(&self) -> bool {
        &&& chain_ok(self.order@, self.nodes@)
        &&& ends_ok(self.order@, self.head, self.tail)
        &&& spare_ok(self.nodes@, self.spare@)
    }

    /// A fresh list holds no elements.
    pub fn new() -> (r: Self)
        ensures
            r.wf(),
            r@ == Seq::<T>::empty(),
    {
        List {
            nodes: Vec::new(),
            head: None,
            tail: None,
            spare: Vec::new(),
            order: Ghost(Seq::empty()),
        }
    }

    /// Stores `node` in a vacant slot (reusing a spare one if any) and
    /// returns its index. The chain itself is untouched.
    fn place(&mut self, node: Node<T>) -> (s: usize)
        requires
            old(self).wf(),
        ensures
            (s as int) < final(self).nodes@.len(),
            final(self).nodes@ == (if (s as int) < old(self).nodes@.len() {
                old(self).nodes@.update(s as int, Some(node))
            } else {
                old(self).nodes@.push(Some(node))
            }),
            old(self).nodes@.len() <= final(self).nodes@.len(),
            (s as int) < old(self).nodes@.len() ==> old(self).nodes@[s as int] is None,
            final(self).head == old(self).head,
            final(self).tail == old(self).tail,
            final(self).order == old(self).order,
            // the spare list still accounts exactly for the vacant slots
            forall|j: int| 0 <= j < final(self).spare@.len()
                ==> (#[trigger] final(self).spare@[j] as int) < final(self).nodes@.len()
                    && final(self).nodes@[final(self).spare@[j] as int] is None,
            final(self).spare@.no_duplicates(),
            forall|t: usize| (t as int) < final(self).nodes@.len() && final(self).nodes@[t as int] is None
                ==> final(self).spare@.contains(t),
    {
        match self.spare.pop() {
            Some(s) => {
                proof {
                    let sp = old(self).spare@;
                    assert(sp[sp.len() - 1] == s);
                    assert forall|t: usize|
                        (t as int) < self.nodes@.len() && self.nodes@[t as int] is None && t != s
                        implies self.spare@.contains(t) by {
                        assert(sp.contains(t));
                        let j = choose|j: int| 0 <= j < sp.len() && sp[j] == t;
                        assert(sp[j] != sp[sp.len() - 1]);
                        assert(self.spare@[j] == t);
                    };
                }
                self.nodes[s] = Some(node);
                proof {
                    assert forall|t: usize|
                        (t as int) < self.nodes@.len() && self.nodes@[t as int] is None
                        implies self.spare@.contains(t) by {
                        assert(t != s);
                    };
                }
                s
            },
            None => {
                let s = self.nodes.len();
                self.nodes.push(Some(node));
                s
            },
        }
    }

    /// A freshly placed slot is not part of the chain.
    proof fn lemma_placed_slot_fresh(&self, prior: Self, s: usize)
        requires
            forall|k: int| 0 <= k < prior.order@.len() ==> prior.node_ok(k),
            self.order@ == prior.order@,
            (s as int) < prior.nodes@.len() ==> prior.nodes@[s as int] is None,
            prior.nodes@.len() <= self.nodes@.len(),
            (s as int) < prior.nodes@.len() || s as int == prior.nodes@.len(),
        ensures
            !self.order@.contains(s),
    {
        assert forall|k: int| 0 <= k < self.order@.len() implies self.order@[k] != s by {
            assert(prior.node_ok(k));
        };
    }

    /// Builds a new node whose back-reference is the current tail reference
    /// and whose owning forward link is absent; the previous tail node's
    /// forward link (or, for an empty list, the head link) takes ownership
    /// of it, and the tail reference moves to it.
    pub fn push_back(&mut self, elem: T)
        requires
            old(self).wf(),
        ensures
            final(self).wf(),
            final(self)@ == old(self)@.push(elem),
    {
        let prev_tail = self.tail;
        let node = Node { elem, next: None, prev: prev_tail };
        let s = self.place(node);
        proof {
            self.lemma_placed_slot_fresh(*old(self), s);
        }
        match prev_tail {
            None => {
                self.head = Some(s);
            },
            Some(t) => {
                proof {
                    let ord = old(self).order@;
                    assert(ord.len() > 0);
                    assert(old(self).node_ok(ord.len() - 1));
                    assert(t == ord[ord.len() - 1]);
                }
                let slot = &mut self.nodes[t];
                match slot {
                    Some(n) => {
                        n.next = Some(s);
                    },
                    None => unreached(),
                }
            },
        }
        self.tail = Some(s);
        proof {
            self.order@ = self.order@.push(s);
            assert forall|k: int| 0 <= k < self.order@.len()
                implies node_links_ok(self.order@, self.nodes@, k) by {
                if k < self.order@.len() - 1 {
                    assert(old(self).node_ok(k));
                }
            };
            assert forall|k: int| 0 <= k < self.order@.len()
                implies self@[k] == old(self)@.push(elem)[k] by {
                if k < old(self).order@.len() {
                    assert(old(self).node_ok(k));
                }
                assert(self@[k] == self.nodes@[self.order@[k] as int]->Some_0.elem);
            };
            assert(self@ =~= old(self)@.push(elem));
        }
    }

    /// Builds a new node whose owning forward link takes over the current
    /// head link and whose back-reference is absent; the old head node's
    /// back-reference (or, for an empty list, the tail reference) is pointed
    /// at it, and it becomes the head link.
    pub fn push_front(&mut self, elem: T)
        requires
            old(self).wf(),
        ensures
            final(self).wf(),
            final(self)@ == seq![elem] + old(self)@,
    {
        let prev_head = self.head;
        let node = Node { elem, next: prev_head, prev: None };
        let s = self.place(node);
        proof {
            self.lemma_placed_slot_fresh(*old(self), s);
        }
        match prev_head {
            None => {
                self.tail = Some(s);
            },
            Some(h) => {
                proof {
                    let ord = old(self).order@;
                    assert(ord.len() > 0);
                    assert(old(self).node_ok(0));
                    assert(h == ord[0]);
                }
                let slot = &mut self.nodes[h];
                match slot {
                    Some(n) => {
                        n.prev = Some(s);
                    },
                    None => unreached(),
                }
            },
        }
        self.head = Some(s);
        proof {
            self.order@ = seq![s] + self.order@;
            assert forall|k: int| 0 <= k < self.order@.len()
                implies node_links_ok(self.order@, self.nodes@, k) by {
                if k >= 1 {
                    assert(old(self).node_ok(k - 1));
                }
            };
            assert forall|k: int| 0 <= k < self.order@.len()
                implies self@[k] == (seq![elem] + old(self)@)[k] by {
                if k >= 1 {
                    assert(old(self).node_ok(k - 1));
                }
                assert(self@[k] == self.nodes@[self.order@[k] as int]->Some_0.elem);
            };
            assert(self@ =~= seq![elem] + old(self)@);
        }
    }

    /// A value already in a sequence is still there after a push.
    proof fn lemma_push_keeps_contains(sp: Seq<usize>, x: usize, t: usize)
        requires
            sp.contains(t),
        ensures
            sp.push(x).contains(t),
    {
        let j = choose|j: int| 0 <= j < sp.len() && sp[j] == t;
        assert(sp.push(x)[j] == t);
    }

    /// Detaches the head node from the head link, hands the head link to the
    /// detached node's successor (clearing that node's back-reference), and
    /// returns the detached element; `None` when the list is empty. When the
    /// last node leaves, the tail reference is cleared as well.
    pub fn pop_front(&mut self) -> (r: Option<T>)
        requires
            old(self).wf(),
        ensures
            final(self).wf(),
            old(self)@.len() == 0 ==> r is None && final(self)@ == old(self)@,
            old(self)@.len() > 0 ==> r == Some(old(self)@[0]) && final(self)@ == old(self)@.drop_first(),
    {
        match self.head {
            None => None,
            Some(h) => {
                proof {
                    let ord = old(self).order@;
                    assert(ord.len() > 0);
                    assert(old(self).node_ok(0));
                    assert(h == ord[0]);
                }
                let slot = &mut self.nodes[h];
                let node = match slot.take() {
                    Some(n) => n,
                    None => unreached(),
                };
                self.head = node.next;
                match node.next {
                    None => {
                        self.tail = None;
                    },
                    Some(nh) => {
                        proof {
                            let ord = old(self).order@;
                            assert(old(self).node_ok(0));
                            assert(ord.len() > 1);
                            assert(old(self).node_ok(1));
                            assert(nh == ord[1]);
                        }
                        let slot2 = &mut self.nodes[nh];
                        match slot2 {
                            Some(n2) => {
                                n2.prev = None;
                            },
                            None => unreached(),
                        }
                    },
                }
                self.spare.push(h);
                proof {
                    let ord = old(self).order@;
                    self.order@ = self.order@.drop_first();
                    assert forall|k: int| 0 <= k < self.order@.len()
                        implies node_links_ok(self.order@, self.nodes@, k) by {
                        assert(old(self).node_ok(k + 1));
                        if k + 1 < ord.len() {
                            assert(old(self).node_ok(k + 2) || k + 2 == ord.len());
                        }
                    };
                    assert forall|t: usize|
                        (t as int) < self.nodes@.len() && self.nodes@[t as int] is None
                        implies self.spare@.contains(t) by {
                        if t == h {
                            assert(self.spare@[self.spare@.len() - 1] == h);
                        } else {
                            Self::lemma_push_keeps_contains(old(self).spare@, h, t);
                        }
                    };
                    assert forall|k: int| 0 <= k < self.order@.len()
                        implies self@[k] == old(self)@.drop_first()[k] by {
                        assert(old(self).node_ok(k + 1));
                        assert(self@[k] == self.nodes@[self.order@[k] as int]->Some_0.elem);
                    };
                    assert(self@ =~= old(self)@.drop_first());
                }
                Some(node.elem)
            },
        }
    }

    /// Follows the tail node's back-reference to its predecessor, the owner
    /// of the tail node, reclaims ownership through that owner's forward
    /// link (or through the head link when the tail is the only node), moves
    /// the tail reference to the predecessor, and returns the detached
    /// element; `None` when the list is empty.
    pub fn pop_back(&mut self) -> (r: Option<T>)
        requires
            old(self).wf(),
        ensures
            final(self).wf(),
            old(self)@.len() == 0 ==> r is None && final(self)@ == old(self)@,
            old(self)@.len() > 0 ==> r == Some(old(self)@.last()) && final(self)@ == old(self)@.drop_last(),
    {
        match self.tail {
            None => None,
            Some(t) => {
                proof {
                    let ord = old(self).order@;
                    assert(ord.len() > 0);
                    assert(old(self).node_ok(ord.len() - 1));
                    assert(t == ord[ord.len() - 1]);
                }
                let slot = &mut self.nodes[t];
                let node = match slot.take() {
                    Some(n) => n,
                    None => unreached(),
                };
                self.tail = node.prev;
                match node.prev {
                    None => {
                        self.head = None;
                    },
                    Some(p) => {
                        proof {
                            let ord = old(self).order@;
                            assert(old(self).node_ok(ord.len() - 1));
                            assert(ord.len() > 1);
                            assert(old(self).node_ok(ord.len() - 2));
                            assert(p == ord[ord.len() - 2]);
                        }
                        let slot2 = &mut self.nodes[p];
                        match slot2 {
                            Some(n2) => {
                                n2.next = None;
                            },
                            None => unreached(),
                        }
                    },
                }
                self.spare.push(t);
                proof {
                    let ord = old(self).order@;
                    self.order@ = self.order@.drop_last();
                    assert forall|k: int| 0 <= k < self.order@.len()
                        implies node_links_ok(self.order@, self.nodes@, k) by {
                        assert(old(self).node_ok(k));
                        if k > 0 {
                            assert(old(self).node_ok(k - 1));
                        }
                    };
                    assert forall|tt: usize|
                        (tt as int) < self.nodes@.len() && self.nodes@[tt as int] is None
                        implies self.spare@.contains(tt) by {
                        if tt == t {
                            assert(self.spare@[self.spare@.len() - 1] == t);
                        } else {
                            Self::lemma_push_keeps_contains(old(self).spare@, t, tt);
                        }
                    };
                    assert forall|k: int| 0 <= k < self.order@.len()
                        implies self@[k] == old(self)@.drop_last()[k] by {
                        assert(old(self).node_ok(k));
                        assert(self@[k] == self.nodes@[self.order@[k] as int]->Some_0.elem);
                    };
                    assert(self@ =~= old(self)@.drop_last());
                }
                Some(node.elem)
            },
        }
    }

    /// Borrows the front element in place, or `None` when empty.
    pub fn peek_front(&self) -> (r: Option<&T>)
        requires
            self.wf(),
        ensures
            self@.len() == 0 ==> r is None,
            self@.len() > 0 ==> (r matches Some(e) && *e == self@[0]),
    {
        match self.head {
            None => None,
            Some(h) => {
                proof {
                    assert(self.node_ok(0));
                }
                match &self.nodes[h] {
                    Some(n) => Some(&n.elem),
                    None => unreached(),
                }
            },
        }
    }

    /// Borrows the back element in place through the tail reference, or
    /// `None` when empty.
    pub fn peek_back(&self) -> (r: Option<&T>)
        requires
            self.wf(),
        ensures
            self@.len() == 0 ==> r is None,
            self@.len() > 0 ==> (r matches Some(e) && *e == self@.last()),
    {
        match self.tail {
            None => None,
            Some(t) => {
                proof {
                    assert(self.node_ok(self.order@.len() - 1));
                }
                match &self.nodes[t] {
                    Some(n) => Some(&n.elem),
                    None => unreached(),
                }
            },
        }
    }

    /// Mutably borrows the element of the chain's position-`k` slot; only
    /// that slot's element changes, to whatever the caller writes through
    /// the borrow.
    #[verifier::rlimit(50)]
    fn elem_mut_impl(&mut self, s: usize, Ghost(k): Ghost<int>) -> (r: &mut T)
        requires
            old(self).wf(),
            0 <= k < old(self)@.len(),
            s == old(self).order@[k],
        ensures
            final(self).order == old(self).order,
            *r == old(self)@[k],
            // names the updated arena for the solver: the write through `r`
            // lands in the chain's position-`k` slot and touches nothing else
            chain_view(old(self).order@, old(self).nodes@.update(
                old(self).order@[k] as int,
                Some(
                    (Node {
                        elem: *final(r),
                        next: old(self).nodes@[old(self).order@[k] as int]->Some_0.next,
                        prev: old(self).nodes@[old(self).order@[k] as int]->Some_0.prev,
                    }),
                ),
            )) == old(self)@.update(k, *final(r)),
            final(self).wf(),
            final(self)@ == old(self)@.update(k, *final(r)),
    {
        proof {
            let ord = old(self).order@;
            let nodes = old(self).nodes@;
            let spare = old(self).spare@;
            assert(old(self).node_ok(k));
            assert forall|v: T|
                #![trigger chain_view(ord, nodes.update(ord[k] as int, Some(Node { elem: v, next: nodes[ord[k] as int]->Some_0.next, prev: nodes[ord[k] as int]->Some_0.prev })))]
                {
                    let nodes2 = nodes.update(
                        ord[k] as int,
                        Some(
                            Node {
                                elem: v,
                                next: nodes[ord[k] as int]->Some_0.next,
                                prev: nodes[ord[k] as int]->Some_0.prev,
                            },
                        ),
                    );
                    chain_ok(ord, nodes2) && spare_ok(nodes2, spare) && chain_view(ord, nodes2)
                        == chain_view(ord, nodes).update(k, v)
                } by {
                let nodes2 = nodes.update(
                    ord[k] as int,
                    Some(
                        Node {
                            elem: v,
                            next: nodes[ord[k] as int]->Some_0.next,
                            prev: nodes[ord[k] as int]->Some_0.prev,
                        },
                    ),
                );
                assert forall|j: int| 0 <= j < ord.len() implies node_links_ok(ord, nodes2, j) by {
                    assert(node_links_ok(ord, nodes, j));
                };
                assert forall|j: int| 0 <= j < ord.len()
                    implies chain_view(ord, nodes2)[j] == chain_view(ord, nodes).update(k, v)[j] by {
                    assert(node_links_ok(ord, nodes, j));
                    assert(chain_view(ord, nodes2)[j] == nodes2[ord[j] as int]->Some_0.elem);
                    assert(chain_view(ord, nodes)[j] == nodes[ord[j] as int]->Some_0.elem);
                };
                assert(chain_view(ord, nodes2) =~= chain_view(ord, nodes).update(k, v));
                assert forall|t: usize| (t as int) < nodes2.len() && nodes2[t as int] is None
                    implies spare.contains(t) by {
                    assert(nodes[t as int] is None);
                };
            };
        }
        let slot = &mut self.nodes[s];
        match slot {
            Some(n) => &mut n.elem,
            None => unreached(),
        }
    }

    /// Mutably borrows the front element in place; the list afterwards holds
    /// whatever the caller wrote through the borrow, and nothing else moved.
    pub fn peek_front_mut(&mut self) -> (r: Option<&mut T>)
        requires
            old(self).wf(),
        ensures
            final(self).wf(),
            old(self)@.len() == 0 ==> r is None && *final(self) == *old(self),
            old(self)@.len() > 0 ==> (r is Some && *r.unwrap() == old(self)@[0]
                && final(self)@ == old(self)@.update(0, *final(r.unwrap()))),
    {
        match self.head {
            None => None,
            Some(h) => Some(self.elem_mut_impl(h, Ghost(0))),
        }
    }

    /// Mutably borrows the back element in place through the tail reference;
    /// the list afterwards holds whatever the caller wrote through the
    /// borrow, and nothing else moved.
    pub fn peek_back_mut(&mut self) -> (r: Option<&mut T>)
        requires
            old(self).wf(),
        ensures
            final(self).wf(),
            old(self)@.len() == 0 ==> r is None && *final(self) == *old(self),
            old(self)@.len() > 0 ==> (r is Some && *r.unwrap() == old(self)@.last()
                && final(self)@ == old(self)@.update(old(self)@.len() - 1, *final(r.unwrap()))),
    {
        match self.tail {
            None => None,
            Some(t) => Some(self.elem_mut_impl(t, Ghost(self@.len() - 1))),
        }
    }

    /// A by-reference iterator over the whole list, both cursors live.
    pub fn iter(&self) -> (it: Iter<'_, T>)
        requires
            self.wf(),
        ensures
            it.wf(),
            it.remaining() == self@,
    {
        proof {
            if self.order@.len() == 0 {
                assert(self@ =~= Seq::<T>::empty());
            } else {
                assert(self@.subrange(0, self@.len() as int) =~= self@);
            }
        }
        Iter {
            list: self,
            front: self.head,
            back: self.tail,
            front_pos: Ghost(0),
            back_pos: Ghost(self.order@.len() - 1),
        }
    }

    /// A cursor pair for by-mutable-reference iteration over the whole list.
    /// The cursor holds no borrow; each advance hands the list back in.
    pub fn iter_mut(&self) -> (it: IterMut)
        requires
            self.wf(),
        ensures
            self.cursor_ok(it),
            it.exhausted() <==> self@.len() == 0,
            !it.exhausted() ==> it.front_at() == 0 && it.back_at() == self@.len() - 1,
    {
        IterMut {
            front: self.head,
            back: self.tail,
            front_pos: Ghost(0),
            back_pos: Ghost(self.order@.len() - 1),
        }
    }

    /// The cursor pair denotes positions of this list's chain: either both
    /// cursors are exhausted, or each stands on a node and the front one is
    /// not behind the back one.
    pub closed spec fn cursor_ok(&self, it: IterMut) -> bool {
        &&& self.wf()
        &&& match (it.front, it.back) {
            (Some(f), Some(b)) => {
                &&& 0 <= it.front_pos@ <= it.back_pos@ < self.order@.len()
                &&& f == self.order@[it.front_pos@]
                &&& b == self.order@[it.back_pos@]
            },
            (None, None) => true,
            _ => false,
        }
    }

    /// A consuming iterator: the list is destroyed incrementally as elements
    /// are popped from either end.
    pub fn into_iter(self) -> (it: ListIntoIterator<T>)
        requires
            self.wf(),
        ensures
            it.wf(),
            it@ == self@,
    {
        ListIntoIterator { list: self }
    }
}

/// The elements of a list built by pushing each element of `es` at the
/// front, in order, starting from the empty list; each push prepends its
/// element, exactly as `push_front` ensures.
pub open spec fn front_pushed<T>(es: Seq<T>) -> Seq<T>
    decreases es.len(),
{
    if es.len() == 0 {
        Seq::empty()
    } else {
        seq![es.last()] + front_pushed(es.drop_last())
    }
}

/// The elements of a list built by pushing each element of `es` at the
/// back, in order, starting from the empty list; each push appends its
/// element, exactly as `push_back` ensures.
pub open spec fn back_pushed<T>(es: Seq<T>) -> Seq<T>
    decreases es.len(),
{
    if es.len() == 0 {
        Seq::empty()
    } else {
        back_pushed(es.drop_last()).push(es.last())
    }
}

/// Law: a list built by front pushes holds exactly the reverse of the push
/// order, and one built by back pushes the push order itself. Since
/// `pop_front` yields a list's first element and leaves the rest (and
/// `pop_back` its last), a full drain reproduces the reverse (from the end
/// the pushes went in) or the forward (from the other end) of the push
/// order, once per element.
pub proof fn lemma_push_drain_order<T>(es: Seq<T>)
    ensures
        front_pushed(es) == es.reverse(),
        back_pushed(es) == es,
    decreases es.len(),
{
    if es.len() == 0 {
        assert(front_pushed(es) =~= es.reverse());
        assert(back_pushed(es) =~= es);
    } else {
        lemma_push_drain_order(es.drop_last());
        assert(front_pushed(es) =~= es.reverse());
        assert(back_pushed(es) =~= es);
    }
}

/// The yield sequence of a strict alternation over the elements `s`: one
/// from the front, one from the back, converging on the middle. Each
/// forward step yields the first remaining element and drops it, each
/// backward step the last, exactly as the iterators' advances ensure.
pub open spec fn alternated<T>(s: Seq<T>) -> Seq<T>
    decreases s.len(),
{
    if s.len() == 0 {
        Seq::empty()
    } else if s.len() == 1 {
        s
    } else {
        seq![s.first(), s.last()] + alternated(s.drop_first().drop_last())
    }
}

/// Law: alternating forward and backward advances over a list of elements
/// `[e1 .. en]` yields every element exactly once, in the order
/// `e1, en, e2, e(n-1), ...` — the even yields walk the list forward from
/// the front, the odd yields backward from the back, and together they
/// cover all `n` positions. This holds for even and odd `n` alike,
/// including an empty and a one-element list.
pub proof fn lemma_alternating_yield_order<T>(s: Seq<T>)
    ensures
        alternated(s).len() == s.len(),
        forall|i: int| 0 <= i && 2 * i < s.len() ==> #[trigger] alternated(s)[2 * i] == s[i],
        forall|i: int| 0 <= i && 2 * i + 1 < s.len()
            ==> #[trigger] alternated(s)[2 * i + 1] == s[s.len() - 1 - i],
    decreases s.len(),
{
    if s.len() >= 2 {
        let mid = s.drop_first().drop_last();
        lemma_alternating_yield_order(mid);
        assert forall|i: int| 0 <= i && 2 * i < s.len()
            implies #[trigger] alternated(s)[2 * i] == s[i] by {
            if i >= 1 {
                assert(alternated(mid)[2 * (i - 1)] == mid[i - 1]);
            }
        };
        assert forall|i: int| 0 <= i && 2 * i + 1 < s.len()
            implies #[trigger] alternated(s)[2 * i + 1] == s[s.len() - 1 - i] by {
            if i >= 1 {
                assert(alternated(mid)[2 * (i - 1) + 1] == mid[mid.len() - 1 - (i - 1)]);
            }
        };
    }
}

/// A double-ended by-reference iterator. Its view is the sequence of
/// elements not yet yielded; the front and back cursors converge, and both
/// are retired the moment they denote the same node.
pub struct Iter<'a, T> {
    list: &'a List<T>,
    /// Slot of the next node to yield from the front; absent when exhausted.
    front: Option<usize>,
    /// Slot of the next node to yield from the back; absent when exhausted.
    back: Option<usize>,
    /// Chain position of the front cursor.
    front_pos: Ghost<int>,
    /// Chain position of the back cursor.
    back_pos: Ghost<int>,
}

impl<'a, T> Iter<'a, T> {
    /// Either both cursors are exhausted, or each stands on a node of the
    /// underlying well-formed list and the front one is not behind the back
    /// one.
    pub closed spec fn wf(&self) -> bool {
        &&& self.list.wf()
        &&& match (self.front, self.back) {
            (Some(f), Some(b)) => {
                &&& 0 <= self.front_pos@ <= self.back_pos@ < self.list.order@.len()
                &&& f == self.list.order@[self.front_pos@]
                &&& b == self.list.order@[self.back_pos@]
            },
            (None, None) => true,
            _ => false,
        }
    }

    /// The elements not yet yielded, front to back.
    pub closed spec fn remaining(&self) -> Seq<T> {
        match (self.front, self.back) {
            (Some(_), Some(_)) => self.list@.subrange(self.front_pos@, self.back_pos@ + 1),
            _ => Seq::empty(),
        }
    }

    /// Yields the front remaining element, retiring both cursors when they
    /// have converged on the same node.
    pub fn next(&mut self) -> (r: Option<&'a T>)
        requires
            old(self).wf(),
        ensures
            final(self).wf(),
            old(self).remaining().len() == 0 ==> r is None
                && final(self).remaining() == old(self).remaining(),
            old(self).remaining().len() > 0 ==> (r matches Some(e)
                && *e == old(self).remaining()[0]
                && final(self).remaining() == old(self).remaining().drop_first()),
    {
        match self.front {
            None => None,
            Some(f) => {
                proof {
                    assert(self.list.node_ok(self.front_pos@));
                }
                let list = self.list;
                let elem = match &list.nodes[f] {
                    Some(n) => &n.elem,
                    None => unreached(),
                };
                let done = match self.back {
                    Some(b) => b == f,
                    None => unreached(),
                };
                if done {
                    self.front = None;
                    self.back = None;
                    proof {
                        assert(old(self).remaining() =~= seq![*elem]);
                    }
                } else {
                    let nxt = match &list.nodes[f] {
                        Some(n) => n.next,
                        None => unreached(),
                    };
                    proof {
                        self.front_pos@ = self.front_pos@ + 1;
                    }
                    self.front = nxt;
                    proof {
                        assert(final(self).remaining() =~= old(self).remaining().drop_first());
                    }
                }
                Some(elem)
            },
        }
    }

    /// Yields the back remaining element by following the back-reference,
    /// retiring both cursors when they have converged on the same node.
    pub fn next_back(&mut self) -> (r: Option<&'a T>)
        requires
            old(self).wf(),
        ensures
            final(self).wf(),
            old(self).remaining().len() == 0 ==> r is None
                && final(self).remaining() == old(self).remaining(),
            old(self).remaining().len() > 0 ==> (r matches Some(e)
                && *e == old(self).remaining().last()
                && final(self).remaining() == old(self).remaining().drop_last()),
    {
        match self.back {
            None => None,
            Some(b) => {
                proof {
                    assert(self.list.node_ok(self.back_pos@));
                }
                let list = self.list;
                let elem = match &list.nodes[b] {
                    Some(n) => &n.elem,
                    None => unreached(),
                };
                let done = match self.front {
                    Some(f) => f == b,
                    None => unreached(),
                };
                if done {
                    self.front = None;
                    self.back = None;
                    proof {
                        assert(old(self).remaining() =~= seq![*elem]);
                    }
                } else {
                    let prv = match &list.nodes[b] {
                        Some(n) => n.prev,
                        None => unreached(),
                    };
                    proof {
                        self.back_pos@ = self.back_pos@ - 1;
                    }
                    self.back = prv;
                    proof {
                        assert(final(self).remaining() =~= old(self).remaining().drop_last());
                    }
                }
                Some(elem)
            },
        }
    }
}

/// A double-ended cursor pair for by-mutable-reference iteration. It holds
/// no borrow of the list; each advance takes the list and yields an
/// exclusive borrow of one element.
pub struct IterMut {
    /// Slot of the next node to yield from the front; absent when exhausted.
    front: Option<usize>,
    /// Slot of the next node to yield from the back; absent when exhausted.
    back: Option<usize>,
    /// Chain position of the front cursor.
    front_pos: Ghost<int>,
    /// Chain position of the back cursor.
    back_pos: Ghost<int>,
}

impl IterMut {
    /// Both cursors are retired.
    pub closed spec fn exhausted(&self) -> bool {
        self.front is None
    }

    /// Chain position of the front cursor.
    pub closed spec fn front_at(&self) -> int {
        self.front_pos@
    }

    /// Chain position of the back cursor.
    pub closed spec fn back_at(&self) -> int {
        self.back_pos@
    }

    /// Yields an exclusive borrow of the front remaining element of `list`,
    /// retiring both cursors when they have converged on the same node. The
    /// list afterwards holds whatever the caller wrote through the borrow at
    /// that position, and nothing else moved.
    pub fn next<'a, T>(&mut self, list: &'a mut List<T>) -> (r: Option<&'a mut T>)
        requires
            old(list).cursor_ok(*old(self)),
        ensures
            final(list).cursor_ok(*final(self)),
            old(self).exhausted() ==> r is None && *final(list) == *old(list)
                && *final(self) == *old(self),
            !old(self).exhausted() ==> (r is Some
                && *r.unwrap() == old(list)@[old(self).front_at()]
                && final(list)@ == old(list)@.update(old(self).front_at(), *final(r.unwrap()))
                && final(self).exhausted() == (old(self).front_at() == old(self).back_at())
                && (!final(self).exhausted() ==> final(self).front_at() == old(self).front_at() + 1
                    && final(self).back_at() == old(self).back_at())),
    {
        match self.front {
            None => None,
            Some(f) => {
                let ghost k = self.front_pos@;
                proof {
                    assert(old(list).node_ok(k));
                }
                let done = match self.back {
                    Some(b) => b == f,
                    None => unreached(),
                };
                if done {
                    self.front = None;
                    self.back = None;
                } else {
                    let nxt = match &list.nodes[f] {
                        Some(n) => n.next,
                        None => unreached(),
                    };
                    proof {
                        self.front_pos@ = self.front_pos@ + 1;
                    }
                    self.front = nxt;
                }
                Some(list.elem_mut_impl(f, Ghost(k)))
            },
        }
    }

    /// Yields an exclusive borrow of the back remaining element of `list` by
    /// following the back-reference, retiring both cursors when they have
    /// converged on the same node. The list afterwards holds whatever the
    /// caller wrote through the borrow at that position, and nothing else
    /// moved.
    pub fn next_back<'a, T>(&mut self, list: &'a mut List<T>) -> (r: Option<&'a mut T>)
        requires
            old(list).cursor_ok(*old(self)),
        ensures
            final(list).cursor_ok(*final(self)),
            old(self).exhausted() ==> r is None && *final(list) == *old(list)
                && *final(self) == *old(self),
            !old(self).exhausted() ==> (r is Some
                && *r.unwrap() == old(list)@[old(self).back_at()]
                && final(list)@ == old(list)@.update(old(self).back_at(), *final(r.unwrap()))
                && final(self).exhausted() == (old(self).front_at() == old(self).back_at())
                && (!final(self).exhausted() ==> final(self).back_at() == old(self).back_at() - 1
                    && final(self).front_at() == old(self).front_at())),
    {
        match self.back {
            None => None,
            Some(b) => {
                let ghost k = self.back_pos@;
                proof {
                    assert(old(list).node_ok(k));
                }
                let done = match self.front {
                    Some(f) => f == b,
                    None => unreached(),
                };
                if done {
                    self.front = None;
                    self.back = None;
                } else {
                    let prv = match &list.nodes[b] {
                        Some(n) => n.prev,
                        None => unreached(),
                    };
                    proof {
                        self.back_pos@ = self.back_pos@ - 1;
                    }
                    self.back = prv;
                }
                Some(list.elem_mut_impl(b, Ghost(k)))
            },
        }
    }
}

/// A consuming double-ended iterator: it owns the list and destroys it
/// incrementally, detaching one node per advance.
pub struct ListIntoIterator<T> {
    list: List<T>,
}

impl<T> View for ListIntoIterator<T> {
    type V = Seq<T>;

    closed spec fn view(&self) -> Seq<T> {
        self.list@
    }
}

impl<T> ListIntoIterator<T> {
    /// The owned list is well-formed.
    pub closed spec fn wf(&self) -> bool {
        self.list.wf()
    }

    /// Detaches and yields the front remaining element.
    pub fn next(&mut self) -> (r: Option<T>)
        requires
            old(self).wf(),
        ensures
            final(self).wf(),
            old(self)@.len() == 0 ==> r is None && final(self)@ == old(self)@,
            old(self)@.len() > 0 ==> r == Some(old(self)@[0]) && final(self)@ == old(self)@.drop_first(),
    {
        self.list.pop_front()
    }

    /// Detaches and yields the back remaining element.
    pub fn next_back(&mut self) -> (r: Option<T>)
        requires
            old(self).wf(),
        ensures
            final(self).wf(),
            old(self)@.len() == 0 ==> r is None && final(self)@ == old(self)@,
            old(self)@.len() > 0 ==> r == Some(old(self)@.last()) && final(self)@ == old(self)@.drop_last(),
    {
        self.list.pop_back()
    }
}

} // verus!
