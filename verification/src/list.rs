//! The list, its nodes, and the two iterators over the chain.

use vstd::prelude::*;

verus! {

use vstd::std_specs::cmp::PartialEqSpec;

/// Error reported by the index-based operations when the supplied index lies
/// outside the operation's valid range.  The list is left unchanged.
#[derive(Clone, Copy, Debug, PartialEq, Eq, Structural)]
pub enum Error {
    OutOfBounds,
}

/// One chain element: a stored value and an index-valued forward link into
/// the arena of the list that owns the node.
#[derive(Clone, Copy, Debug)]
pub struct Node<T> {
    pub value: T,
    pub next: Option<usize>,
}

impl<T> Node<T> {
    /// A fresh node holding `value`, not yet linked to a successor.
    pub fn new(value: T) -> (r: Node<T>)
        ensures
            r.value == value,
            r.next is None,
    {
        Node { value, next: None }
    }
}

/// A singly linked list.
///
/// Nodes live in `nodes`, an arena of slots; a freed slot holds `None`.
/// `head` is the owning root of the chain, `tail` a non-owning index to the
/// last node, and `len` the cached node count.  The ghost `order` records the
/// arena index of every chain node in forward order; `wf` states the
/// invariant that makes the three concrete fields agree with it.
pub struct LinkedList<T> {
    nodes: Vec<Option<Node<T>>>,
    head: Option<usize>,
    tail: Option<usize>,
    len: usize,
    order: Ghost<Seq<usize>>,
}

impl<T> LinkedList<T> {
    /// The arena indices of the chain nodes, in forward order.
    pub closed spec fn chain(self) -> Seq<usize> {
        self.order@
    }

    /// The chain node at position `i`.
    closed spec fn node_at(self, i: int) -> Node<T> {
        self.nodes@[self.order@[i] as int]->Some_0
    }

    /// Position `i` of the chain designates a live arena slot.
    closed spec fn slot_ok(self, i: int) -> bool {
        &&& self.order@[i] < self.nodes@.len()
        &&& self.nodes@[self.order@[i] as int] is Some
    }

    /// The cross-referential invariant: `order` lists distinct live slots,
    /// the `next` links thread them in order and end at the last one, `len`
    /// caches the chain length, `head` designates the first node, and `tail`
    /// resolves to the last node exactly when the list is non-empty (so the
    /// tail index can never dangle while the head still roots a chain).
    pub closed spec fn wf(self) -> bool {
        &&& self.order@.len() == self.len
        &&& (forall|i: int| 0 <= i < self.len ==> #[trigger] self.slot_ok(i))
        &&& (forall|i: int, j: int|
            0 <= i < j < self.len ==> self.order@[i] != self.order@[j])
        &&& (forall|i: int|
            0 <= i < self.len - 1 ==> (#[trigger] self.node_at(i)).next == Some(
                self.order@[i + 1],
            ))
        &&& (self.len > 0 ==> self.node_at(self.len - 1).next is None)
        &&& (if self.len == 0 {
            self.head is None && self.tail is None
        } else {
            self.head == Some(self.order@[0]) && self.tail == Some(self.order@[self.len - 1])
        })
    }
}

impl<T> View for LinkedList<T> {
    type V = Seq<T>;

    /// The abstract value of the list: the sequence of stored values in
    /// forward order.
    closed spec fn view(&self) -> Seq<T> {
        Seq::new(self.len as nat, |i: int| self.node_at(i).value)
    }
}

impl<T: Copy> LinkedList<T> {
    /// The empty list.
    pub fn new() -> (r: Self)
        ensures
            r.wf(),
            r@ == Seq::<T>::empty(),
    {
        Self { nodes: Vec::new(), head: None, tail: None, len: 0, order: Ghost(Seq::empty()) }
    }

    /// The cached number of values in the list.
    pub fn len(&self) -> (r: usize)
        requires
            self.wf(),
        ensures
            r == self@.len(),
    {
        self.len
    }

    /// A copy of the first value, or `None` on an empty list.
    pub fn head(&self) -> (r: Option<T>)
        requires
            self.wf(),
        ensures
            r == (if self@.len() == 0 {
                None::<T>
            } else {
                Some(self@[0])
            }),
    {
        match self.head {
            Some(h) => {
                proof {
                    assert(self.slot_ok(0));
                }
                match self.nodes[h] {
                    Some(n) => Some(n.value),
                    None => None,
                }
            },
            None => None,
        }
    }

    /// A copy of the last value, found by resolving the non-owning tail
    /// index; if the index is absent or fails to resolve to a live node the
    /// result is `None`.  Under the list invariant the tail resolves exactly
    /// when the list is non-empty.
    pub fn tail(&self) -> (r: Option<T>)
        requires
            self.wf(),
        ensures
            r == (if self@.len() == 0 {
                None::<T>
            } else {
                Some(self@.last())
            }),
    {
        match self.tail {
            Some(t) => {
                proof {
                    assert(self.slot_ok(self.len - 1));
                }
                if t < self.nodes.len() {
                    match self.nodes[t] {
                        Some(n) => Some(n.value),
                        None => None,
                    }
                } else {
                    None
                }
            },
            None => None,
        }
    }

    /// Removes and returns the first value, or returns `None` on an empty
    /// list (the defined empty-list result, not an error).  The successor of
    /// the old head, if any, becomes the new head; otherwise the list
    /// becomes empty and the tail index is cleared.
    pub fn pop_head(&mut self) -> (r: Option<T>)
        requires
            old(self).wf(),
        ensures
            final(self).wf(),
            old(self)@.len() == 0 ==> r is None && *final(self) == *old(self),
            old(self)@.len() > 0 ==> r == Some(old(self)@[0]) && final(self)@ == old(
                self,
            )@.drop_first(),
    {
        match self.head {
            None => None,
            Some(h) => {
                proof {
                    assert(self.slot_ok(0));
                }
                let node_opt = self.nodes[h];
                self.nodes[h] = None;
                match node_opt {
                    Some(node) => {
                        match node.next {
                            Some(nx) => {
                                self.head = Some(nx);
                            },
                            None => {
                                self.head = None;
                                self.tail = None;
                            },
                        }
                        self.len = self.len - 1;
                        self.order = Ghost(old(self).order@.drop_first());
                        proof {
                            assert forall|i: int| 0 <= i < self.len implies #[trigger] self.slot_ok(
                                i,
                            ) by {
                                assert(old(self).slot_ok(i + 1));
                            }
                            assert forall|i: int, j: int|
                                0 <= i < j < self.len implies self.order@[i] != self.order@[j] by {
                                assert(old(self).slot_ok(i + 1));
                                assert(old(self).slot_ok(j + 1));
                            }
                            assert forall|i: int|
                                0 <= i < self.len - 1 implies (#[trigger] self.node_at(i)).next
                                == Some(self.order@[i + 1]) by {
                                assert(old(self).slot_ok(i + 1));
                                assert(old(self).node_at(i + 1) == self.node_at(i));
                            }
                            if self.len > 0 {
                                assert(old(self).slot_ok(self.len as int));
                                assert(old(self).node_at(self.len as int) == self.node_at(
                                    self.len - 1,
                                ));
                                assert(old(self).node_at(0).next == Some(old(self).order@[1]));
                            }
                            assert(self@ =~= old(self)@.drop_first()) by {
                                assert forall|i: int| 0 <= i < self.len implies self@[i] == old(
                                    self,
                                )@[i + 1] by {
                                    assert(old(self).slot_ok(i + 1));
                                    assert(old(self).node_at(i + 1) == self.node_at(i));
                                }
                            }
                        }
                        Some(node.value)
                    },
                    None => None,
                }
            },
        }
    }

    /// Removes and returns the last value, or returns `None` on an empty
    /// list.  With no backward links the predecessor of the tail is found
    /// by a full forward traversal from the head; its link is cleared and
    /// the tail index rebound to it.  A single-element list becomes empty,
    /// with both the head link and the tail index cleared.
    pub fn pop_back(&mut self) -> (r: Option<T>)
        requires
            old(self).wf(),
        ensures
            final(self).wf(),
            old(self)@.len() == 0 ==> r is None && *final(self) == *old(self),
            old(self)@.len() > 0 ==> r == Some(old(self)@.last()) && final(self)@ == old(
                self,
            )@.drop_last(),
    {
        if self.len == 0 {
            return None;
        }
        if self.len == 1 {
            proof {
                assert(self.slot_ok(0));
            }
            let h = self.head.unwrap();
            let node_opt = self.nodes[h];
            self.nodes[h] = None;
            self.head = None;
            self.tail = None;
            self.len = 0;
            self.order = Ghost(Seq::empty());
            proof {
                assert(self@ =~= old(self)@.drop_last());
            }
            return match node_opt {
                Some(n) => Some(n.value),
                None => None,
            };
        }
        let mut i: usize = 0;
        let mut cur: usize = self.head.unwrap();
        while i < self.len - 2
            invariant
                self.wf(),
                *self == *old(self),
                2 <= self.len,
                i <= self.len - 2,
                cur == self.order@[i as int],
            decreases self.len - 2 - i,
        {
            proof {
                assert(self.slot_ok(i as int));
            }
            let node_opt = self.nodes[cur];
            cur = match node_opt {
                Some(n) => match n.next {
                    Some(nx) => nx,
                    None => cur,
                },
                None => cur,
            };
            i = i + 1;
            proof {
                assert(self.node_at(i - 1).next == Some(self.order@[i as int]));
            }
        }
        proof {
            assert(self.slot_ok(self.len - 2));
            assert(self.slot_ok(self.len - 1));
            assert(self.node_at(self.len - 2).next == Some(self.order@[self.len - 1]));
        }
        let node_opt = self.nodes[cur];
        let last_idx = match node_opt {
            Some(n) => match n.next {
                Some(nx) => nx,
                None => cur,
            },
            None => cur,
        };
        let last_opt = self.nodes[last_idx];
        self.nodes[last_idx] = None;
        match self.nodes[cur] {
            Some(n) => {
                self.nodes[cur] = Some(Node { value: n.value, next: None });
            },
            None => {},
        }
        self.tail = Some(cur);
        self.len = self.len - 1;
        self.order = Ghost(old(self).order@.drop_last());
        proof {
            assert forall|i: int| 0 <= i < self.len implies #[trigger] self.slot_ok(i) by {
                assert(old(self).slot_ok(i));
            }
            assert forall|i: int, j: int|
                0 <= i < j < self.len implies self.order@[i] != self.order@[j] by {
                assert(old(self).slot_ok(i));
                assert(old(self).slot_ok(j));
            }
            assert forall|i: int| 0 <= i < self.len - 1 implies (#[trigger] self.node_at(
                i,
            )).next == Some(self.order@[i + 1]) by {
                assert(old(self).slot_ok(i));
                assert(old(self).node_at(i) == self.node_at(i));
            }
            assert(self@ =~= old(self)@.drop_last()) by {
                assert forall|i: int| 0 <= i < self.len implies self@[i] == old(self)@[i] by {
                    assert(old(self).slot_ok(i));
                    assert(self.node_at(i).value == old(self).node_at(i).value);
                }
            }
        }
        match last_opt {
            Some(n) => Some(n.value),
            None => None,
        }
    }

    /// Builds a list holding the values of `input` in the same order, by
    /// appending them one after the other to an empty list.
    pub fn from(input: &[T]) -> (r: Self)
        ensures
            r.wf(),
            r@ == input@,
            r@.len() == input@.len(),
    {
        let mut ll = Self::new();
        let mut i: usize = 0;
        while i < input.len()
            invariant
                ll.wf(),
                i <= input@.len(),
                ll@ == input@.take(i as int),
            decreases input@.len() - i,
        {
            ll.push_back(input[i]);
            i = i + 1;
            proof {
                assert(ll@ =~= input@.take(i as int));
            }
        }
        proof {
            assert(input@.take(input@.len() as int) =~= input@);
        }
        ll
    }

    /// Walks the chain from the head and returns the arena index of the
    /// node at position `upto`.
    fn node_index_at(&self, upto: usize) -> (r: usize)
        requires
            self.wf(),
            upto < self@.len(),
        ensures
            r == self.chain()[upto as int],
    {
        let mut i: usize = 0;
        let mut cur: usize = self.head.unwrap();
        while i < upto
            invariant
                self.wf(),
                upto < self@.len(),
                i <= upto,
                cur == self.order@[i as int],
            decreases upto - i,
        {
            proof {
                assert(self.slot_ok(i as int));
            }
            let node_opt = self.nodes[cur];
            cur = match node_opt {
                Some(n) => match n.next {
                    Some(nx) => nx,
                    None => cur,
                },
                None => cur,
            };
            i = i + 1;
            proof {
                assert(self.node_at(i - 1).next == Some(self.order@[i as int]));
            }
        }
        cur
    }

    /// Inserts `value` so that it occupies position `index` of the forward
    /// order; the valid range is `0..=len`.  Inserting at `0` prepends,
    /// inserting at `len` appends, and any other valid index splices a new
    /// node between the node at `index - 1` and its successor.  An index
    /// greater than the length is reported as out of bounds and leaves the
    /// list unchanged.
    pub fn insert_at(&mut self, index: usize, value: T) -> (r: Result<(), Error>)
        requires
            old(self).wf(),
            old(self)@.len() < usize::MAX,
        ensures
            final(self).wf(),
            r is Ok <==> index <= old(self)@.len(),
            r is Ok ==> final(self)@ == old(self)@.insert(index as int, value),
            r is Err ==> *final(self) == *old(self) && r->Err_0 == Error::OutOfBounds,
    {
        if index > self.len {
            return Err(Error::OutOfBounds);
        }
        if index == 0 {
            self.push_head(value);
            return Ok(());
        }
        if index == self.len {
            self.push_back(value);
            proof {
                assert(old(self)@.insert(index as int, value) =~= old(self)@.push(value));
            }
            return Ok(());
        }
        let cur = self.node_index_at(index - 1);
        let idx = self.nodes.len();
        proof {
            assert(self.slot_ok(index - 1));
        }
        let node_opt = self.nodes[cur];
        let succ = match node_opt {
            Some(n) => n.next,
            None => None,
        };
        self.nodes.push(Some(Node { value, next: succ }));
        match self.nodes[cur] {
            Some(n) => {
                self.nodes[cur] = Some(Node { value: n.value, next: Some(idx) });
            },
            None => {},
        }
        self.len = self.len + 1;
        self.order = Ghost(old(self).order@.insert(index as int, idx));
        proof {
            old(self).order@.insert_ensures(index as int, idx);
            assert forall|i: int| 0 <= i < self.len implies #[trigger] self.slot_ok(i) by {
                if i < index {
                    assert(old(self).slot_ok(i));
                } else if i > index {
                    assert(old(self).slot_ok(i - 1));
                }
            }
            assert forall|i: int, j: int|
                0 <= i < j < self.len implies self.order@[i] != self.order@[j] by {
                if i < index {
                    assert(old(self).slot_ok(i));
                } else if i > index {
                    assert(old(self).slot_ok(i - 1));
                }
                if j < index {
                    assert(old(self).slot_ok(j));
                } else if j > index {
                    assert(old(self).slot_ok(j - 1));
                }
            }
            assert(old(self).node_at(index - 1).next == Some(old(self).order@[index as int]));
            assert forall|i: int| 0 <= i < self.len - 1 implies (#[trigger] self.node_at(
                i,
            )).next == Some(self.order@[i + 1]) by {
                if i < index - 1 {
                    assert(old(self).slot_ok(i));
                    assert(old(self).node_at(i) == self.node_at(i));
                } else if i > index {
                    assert(old(self).slot_ok(i - 1));
                    assert(old(self).node_at(i - 1) == self.node_at(i));
                }
            }
            assert(old(self).slot_ok(old(self).len - 1));
            assert(self.node_at(self.len - 1) == old(self).node_at(old(self).len - 1));
            assert(self@ =~= old(self)@.insert(index as int, value)) by {
                assert forall|i: int| 0 <= i < self.len implies self@[i] == old(self)@.insert(
                    index as int,
                    value,
                )[i] by {
                    if i < index {
                        assert(old(self).slot_ok(i));
                        assert(self.node_at(i).value == old(self).node_at(i).value);
                    } else if i > index {
                        assert(old(self).slot_ok(i - 1));
                        assert(self.node_at(i).value == old(self).node_at(i - 1).value);
                    }
                }
            }
        }
        Ok(())
    }

    /// Removes and returns the value at position `index`; the valid range
    /// is `0..len`.  Removing at `0` pops the head, removing at `len - 1`
    /// pops the tail, and any other valid index splices the chain around
    /// the target node.  An index at or past the length is reported as out
    /// of bounds and leaves the list unchanged.
    pub fn remove_at(&mut self, index: usize) -> (r: Result<T, Error>)
        requires
            old(self).wf(),
        ensures
            final(self).wf(),
            r is Ok <==> index < old(self)@.len(),
            r is Ok ==> r->Ok_0 == old(self)@[index as int] && final(self)@ == old(self)@.remove(
                index as int,
            ),
            r is Err ==> *final(self) == *old(self) && r->Err_0 == Error::OutOfBounds,
    {
        if index >= self.len {
            return Err(Error::OutOfBounds);
        }
        if index == 0 {
            let popped = self.pop_head();
            proof {
                assert(old(self)@.remove(0) =~= old(self)@.drop_first());
            }
            return match popped {
                Some(v) => Ok(v),
                None => Err(Error::OutOfBounds),
            };
        }
        if index == self.len - 1 {
            let popped = self.pop_back();
            proof {
                assert(old(self)@.remove(index as int) =~= old(self)@.drop_last());
            }
            return match popped {
                Some(v) => Ok(v),
                None => Err(Error::OutOfBounds),
            };
        }
        let cur = self.node_index_at(index - 1);
        proof {
            assert(self.slot_ok(index - 1));
            assert(self.slot_ok(index as int));
            assert(self.node_at(index - 1).next == Some(self.order@[index as int]));
            assert(self.node_at(index as int).next == Some(self.order@[index + 1]));
        }
        let node_opt = self.nodes[cur];
        let target = match node_opt {
            Some(n) => match n.next {
                Some(nx) => nx,
                None => cur,
            },
            None => cur,
        };
        let target_opt = self.nodes[target];
        match target_opt {
            Some(tn) => {
                match self.nodes[cur] {
                    Some(n) => {
                        self.nodes[cur] = Some(Node { value: n.value, next: tn.next });
                    },
                    None => {},
                }
                self.nodes[target] = None;
                self.len = self.len - 1;
                self.order = Ghost(old(self).order@.remove(index as int));
                proof {
                    old(self).order@.remove_ensures(index as int);
                    assert forall|i: int| 0 <= i < self.len implies #[trigger] self.slot_ok(i) by {
                        if i < index {
                            assert(old(self).slot_ok(i));
                        } else {
                            assert(old(self).slot_ok(i + 1));
                        }
                    }
                    assert forall|i: int, j: int|
                        0 <= i < j < self.len implies self.order@[i] != self.order@[j] by {
                        if i < index {
                            assert(old(self).slot_ok(i));
                        } else {
                            assert(old(self).slot_ok(i + 1));
                        }
                        if j < index {
                            assert(old(self).slot_ok(j));
                        } else {
                            assert(old(self).slot_ok(j + 1));
                        }
                    }
                    assert forall|i: int| 0 <= i < self.len - 1 implies (#[trigger] self.node_at(
                        i,
                    )).next == Some(self.order@[i + 1]) by {
                        if i < index - 1 {
                            assert(old(self).slot_ok(i));
                            assert(old(self).node_at(i) == self.node_at(i));
                        } else if i >= index {
                            assert(old(self).slot_ok(i + 1));
                            assert(old(self).node_at(i + 1) == self.node_at(i));
                        }
                    }
                    assert(old(self).slot_ok(old(self).len - 1));
                    assert(self.node_at(self.len - 1) == old(self).node_at(old(self).len - 1));
                    assert(self@ =~= old(self)@.remove(index as int)) by {
                        assert forall|i: int| 0 <= i < self.len implies self@[i] == old(
                            self,
                        )@.remove(index as int)[i] by {
                            if i < index {
                                assert(old(self).slot_ok(i));
                                assert(self.node_at(i).value == old(self).node_at(i).value);
                            } else {
                                assert(old(self).slot_ok(i + 1));
                                assert(self.node_at(i).value == old(self).node_at(i + 1).value);
                            }
                        }
                    }
                }
                Ok(tn.value)
            },
            None => Err(Error::OutOfBounds),
        }
    }

    /// Overwrites the value at position `index` in place and returns the
    /// previous value; the valid range is `0..len`.  The chain structure
    /// and the length are unchanged.  An index at or past the length is
    /// reported as out of bounds and leaves the list unchanged.
    pub fn replace(&mut self, index: usize, value: T) -> (r: Result<T, Error>)
        requires
            old(self).wf(),
        ensures
            final(self).wf(),
            r is Ok <==> index < old(self)@.len(),
            r is Ok ==> r->Ok_0 == old(self)@[index as int] && final(self)@ == old(self)@.update(
                index as int,
                value,
            ),
            r is Err ==> *final(self) == *old(self) && r->Err_0 == Error::OutOfBounds,
    {
        if index >= self.len {
            return Err(Error::OutOfBounds);
        }
        let cur = self.node_index_at(index);
        proof {
            assert(self.slot_ok(index as int));
        }
        match self.nodes[cur] {
            Some(n) => {
                self.nodes[cur] = Some(Node { value, next: n.next });
                proof {
                    assert forall|i: int| 0 <= i < self.len implies #[trigger] self.slot_ok(i) by {
                        assert(old(self).slot_ok(i));
                    }
                    assert forall|i: int| 0 <= i < self.len - 1 implies (#[trigger] self.node_at(
                        i,
                    )).next == Some(self.order@[i + 1]) by {
                        assert(old(self).slot_ok(i));
                        assert(self.node_at(i).next == old(self).node_at(i).next);
                    }
                    assert(old(self).slot_ok(old(self).len - 1));
                    assert(self.node_at(self.len - 1).next == old(self).node_at(
                        old(self).len - 1,
                    ).next);
                    assert(self@ =~= old(self)@.update(index as int, value)) by {
                        assert forall|i: int| 0 <= i < self.len && i != index implies self@[i]
                            == old(self)@[i] by {
                            assert(old(self).slot_ok(i));
                            assert(self.node_at(i).value == old(self).node_at(i).value);
                        }
                    }
                }
                Ok(n.value)
            },
            None => Err(Error::OutOfBounds),
        }
    }

    /// Resets the list to the empty state in one step: the head and tail
    /// links are cleared and the length set to zero, so every node becomes
    /// unreachable and its storage is released with the arena.  The
    /// resulting state does not depend on the prior one, so clearing twice
    /// leaves exactly what clearing once does.
    pub fn clear(&mut self)
        ensures
            final(self).wf(),
            final(self)@ == Seq::<T>::empty(),
            final(self).chain() == Seq::<usize>::empty(),
    {
        self.nodes = Vec::new();
        self.head = None;
        self.tail = None;
        self.len = 0;
        self.order = Ghost(Seq::empty());
    }

    /// Prepends `value`: the new node is linked to the previous head (if
    /// any) and becomes the new head; on a previously empty list it becomes
    /// the tail as well.  The length grows by exactly one and the new value
    /// stands at the front.
    pub fn push_head(&mut self, value: T)
        requires
            old(self).wf(),
            old(self)@.len() < usize::MAX,
        ensures
            final(self).wf(),
            final(self)@ == old(self)@.insert(0, value),
            final(self)@.len() == old(self)@.len() + 1,
            final(self)@[0] == value,
    {
        let idx = self.nodes.len();
        self.nodes.push(Some(Node { value, next: self.head }));
        match self.head {
            Some(_) => {
                self.head = Some(idx);
            },
            None => {
                self.head = Some(idx);
                self.tail = Some(idx);
            },
        }
        self.len = self.len + 1;
        self.order = Ghost(seq![idx] + old(self).order@);
        proof {
            assert forall|i: int| 0 <= i < self.len implies #[trigger] self.slot_ok(i) by {
                if i > 0 {
                    assert(old(self).slot_ok(i - 1));
                }
            }
            assert forall|i: int| 0 <= i < self.len - 1 implies (#[trigger] self.node_at(
                i,
            )).next == Some(self.order@[i + 1]) by {
                if i > 0 {
                    assert(old(self).slot_ok(i - 1));
                    assert(old(self).node_at(i - 1) == self.node_at(i));
                }
            }
            if self.len > 1 {
                assert(old(self).slot_ok(self.len - 2));
            }
            assert forall|i: int, j: int|
                0 <= i < j < self.len implies self.order@[i] != self.order@[j] by {
                if i > 0 {
                    assert(old(self).slot_ok(i - 1));
                }
                assert(old(self).slot_ok(j - 1));
            }
            assert(self@ =~= seq![value] + old(self)@) by {
                assert forall|i: int| 0 < i < self.len implies self@[i] == old(self)@[i - 1] by {
                    assert(old(self).slot_ok(i - 1));
                    assert(old(self).node_at(i - 1) == self.node_at(i));
                }
            }
            assert(self@ =~= old(self)@.insert(0, value));
        }
    }

    /// Appends `value`: if the tail index resolves to a live node, that
    /// node is linked to the new one; if it fails to resolve the list is
    /// treated as empty and the new node becomes the head (under the list
    /// invariant the tail never dangles while the head still roots a chain,
    /// so this fallback can only run on a truly empty list).  The new node
    /// always becomes the tail, and the length grows by exactly one.
    pub fn push_back(&mut self, value: T)
        requires
            old(self).wf(),
            old(self)@.len() < usize::MAX,
        ensures
            final(self).wf(),
            final(self)@ == old(self)@.push(value),
            final(self)@.len() == old(self)@.len() + 1,
            final(self)@.last() == value,
    {
        let idx = self.nodes.len();
        self.nodes.push(Some(Node { value, next: None }));
        match self.tail {
            Some(t) => {
                proof {
                    assert(old(self).slot_ok(old(self).len - 1));
                }
                match self.nodes[t] {
                    Some(n) => {
                        self.nodes[t] = Some(Node { value: n.value, next: Some(idx) });
                    },
                    None => {
                        // Dangling tail: unreachable under the invariant.
                        self.head = Some(idx);
                    },
                }
            },
            None => {
                self.head = Some(idx);
            },
        }
        self.tail = Some(idx);
        self.len = self.len + 1;
        self.order = Ghost(old(self).order@ + seq![idx]);
        proof {
            assert forall|i: int| 0 <= i < self.len implies #[trigger] self.slot_ok(i) by {
                if i < self.len - 1 {
                    assert(old(self).slot_ok(i));
                }
            }
            assert forall|i: int, j: int|
                0 <= i < j < self.len implies self.order@[i] != self.order@[j] by {
                assert(old(self).slot_ok(i));
                if j < self.len - 1 {
                    assert(old(self).slot_ok(j));
                }
            }
            assert forall|i: int| 0 <= i < self.len - 1 implies (#[trigger] self.node_at(
                i,
            )).next == Some(self.order@[i + 1]) by {
                assert(old(self).slot_ok(i));
                if i < self.len - 2 {
                    assert(old(self).slot_ok(i + 1));
                    assert(old(self).node_at(i) == self.node_at(i));
                }
            }
            assert(self@ =~= old(self)@.push(value)) by {
                assert forall|i: int| 0 <= i < self.len - 1 implies self@[i] == old(self)@[i] by {
                    assert(old(self).slot_ok(i));
                    assert(self.node_at(i).value == old(self).node_at(i).value);
                }
            }
        }
    }

    /// Whether the list holds no value.
    pub fn is_empty(&self) -> (r: bool)
        requires
            self.wf(),
        ensures
            r == (self@.len() == 0),
    {
        self.len == 0
    }
}

impl<T> LinkedList<T> {
    /// The empty state is canonical: any two well-formed lists that hold no
    /// value agree in everything the contracts observe, so emptying a list
    /// again leaves exactly the state that emptying it once does.
    pub proof fn lemma_empty_state_canonical(a: Self, b: Self)
        requires
            a.wf(),
            a@.len() == 0,
            b.wf(),
            b@.len() == 0,
        ensures
            a@ == b@,
            a.chain() == b.chain(),
    {
        assert(a@ =~= b@);
        assert(a.chain() =~= b.chain());
    }

    /// Whether `handle` designates a node of the chain.
    pub closed spec fn is_handle(self, handle: usize) -> bool {
        exists|i: int| 0 <= i < self.chain().len() && self.chain()[i] == handle
    }

    /// The position of the chain node that `handle` designates (the chain
    /// indices are distinct under the invariant, so the position is unique).
    pub closed spec fn handle_pos(self, handle: usize) -> int {
        choose|i: int| 0 <= i < self.chain().len() && self.chain()[i] == handle
    }
}

impl<T: Copy> LinkedList<T> {
    /// A copy of the value of the node that `handle` designates.
    pub fn read_node(&self, handle: usize) -> (r: T)
        requires
            self.wf(),
            self.is_handle(handle),
        ensures
            r == self@[self.handle_pos(handle)],
    {
        proof {
            let i = self.handle_pos(handle);
            assert(self.slot_ok(i));
        }
        let n = self.nodes[handle];
        n.unwrap().value
    }

    /// Overwrites in place the value of the node that `handle` designates.
    /// The handle aliases the list's own storage, not a copy: the chain,
    /// the length and every other value are unchanged, and the new value
    /// is visible through the list's own subsequent traversal.
    pub fn write_node(&mut self, handle: usize, value: T)
        requires
            old(self).wf(),
            old(self).is_handle(handle),
        ensures
            final(self).wf(),
            final(self).chain() == old(self).chain(),
            final(self)@ == old(self)@.update(old(self).handle_pos(handle), value),
    {
        proof {
            let i = self.handle_pos(handle);
            assert(self.slot_ok(i));
        }
        let n = self.nodes[handle];
        self.nodes[handle] = Some(Node { value, next: n.unwrap().next });
        proof {
            let ghost p = old(self).handle_pos(handle);
            assert forall|i: int| 0 <= i < self.len implies #[trigger] self.slot_ok(i) by {
                assert(old(self).slot_ok(i));
            }
            assert forall|i: int| 0 <= i < self.len - 1 implies (#[trigger] self.node_at(
                i,
            )).next == Some(self.order@[i + 1]) by {
                assert(old(self).slot_ok(i));
                assert(self.node_at(i).next == old(self).node_at(i).next);
            }
            assert(old(self).slot_ok(old(self).len - 1));
            assert(self.node_at(self.len - 1).next == old(self).node_at(old(self).len - 1).next);
            assert(self@ =~= old(self)@.update(p, value)) by {
                assert forall|i: int| 0 <= i < self.len && i != p implies self@[i] == old(
                    self,
                )@[i] by {
                    assert(old(self).slot_ok(i));
                    assert(self.node_at(i).value == old(self).node_at(i).value);
                }
            }
        }
    }

    /// A read-only forward iterator over the chain, starting at the head.
    pub fn iter(&self) -> (it: LinkedListIterator<'_, T>)
        requires
            self.wf(),
        ensures
            it.wf(),
            it.elements() == self@,
            it.pos() == 0,
    {
        LinkedListIterator { list: self, current: self.head, pos: Ghost(0 as int) }
    }

    /// A mutation-capable forward iterator over the chain: it yields, for
    /// each node in turn, a handle through which `read_node` and
    /// `write_node` reach that node in place.
    pub fn iter_mut(&mut self) -> (it: LinkedListIteratorMut<T>)
        requires
            old(self).wf(),
        ensures
            *final(self) == *old(self),
            it.wf(*old(self)),
            it.pos() == 0,
    {
        LinkedListIteratorMut {
            current: self.head,
            pos: Ghost(0 as int),
            marker: core::marker::PhantomData,
        }
    }
}

/// A read-only forward iterator: yields a copy of each value of the chain
/// in forward order, one node per step, holding its own position.
pub struct LinkedListIterator<'a, T> {
    list: &'a LinkedList<T>,
    current: Option<usize>,
    pos: Ghost<int>,
}

impl<'a, T> LinkedListIterator<'a, T> {
    /// The full sequence of values the iterator walks over.
    pub closed spec fn elements(self) -> Seq<T> {
        self.list@
    }

    /// How many values have been yielded so far.
    pub closed spec fn pos(self) -> int {
        self.pos@
    }

    /// The iterator's position lies in the chain and its cursor designates
    /// the node at that position (or nothing once the chain is exhausted).
    pub closed spec fn wf(self) -> bool {
        &&& self.list.wf()
        &&& 0 <= self.pos@ <= self.list@.len()
        &&& self.current == (if self.pos@ < self.list@.len() {
            Some(self.list.chain()[self.pos@])
        } else {
            None::<usize>
        })
    }
}

impl<'a, T: Copy> LinkedListIterator<'a, T> {
    /// The next value in forward order, or `None` once the chain is
    /// exhausted; the iterator advances by exactly one node per step.
    pub fn next(&mut self) -> (r: Option<T>)
        requires
            old(self).wf(),
        ensures
            final(self).wf(),
            final(self).elements() == old(self).elements(),
            old(self).pos() < old(self).elements().len() ==> r == Some(
                old(self).elements()[old(self).pos()],
            ) && final(self).pos() == old(self).pos() + 1,
            old(self).pos() >= old(self).elements().len() ==> r is None && final(self).pos()
                == old(self).pos(),
    {
        match self.current {
            None => None,
            Some(c) => {
                proof {
                    assert(self.list.slot_ok(self.pos@));
                }
                let n = self.list.nodes[c];
                let node = n.unwrap();
                self.current = node.next;
                self.pos = Ghost(self.pos@ + 1);
                proof {
                    if self.pos@ < self.list@.len() {
                        assert(self.list.node_at(self.pos@ - 1).next == Some(
                            self.list.chain()[self.pos@],
                        ));
                    } else {
                        assert(self.list.node_at(self.list.len - 1).next is None);
                    }
                }
                Some(node.value)
            },
        }
    }
}

/// A mutation-capable forward iterator: yields a handle to each node of
/// the chain in forward order.  The handles index the same arena the list
/// uses, so a write through one is visible to the list afterwards.
pub struct LinkedListIteratorMut<T> {
    current: Option<usize>,
    pos: Ghost<int>,
    marker: core::marker::PhantomData<T>,
}

impl<T> LinkedListIteratorMut<T> {
    /// How many handles have been yielded so far.
    pub closed spec fn pos(self) -> int {
        self.pos@
    }

    /// The iterator walks the chain of `list`: its position lies in the
    /// chain and its cursor designates the node at that position (or
    /// nothing once the chain is exhausted).
    pub closed spec fn wf(self, list: LinkedList<T>) -> bool {
        &&& list.wf()
        &&& 0 <= self.pos@ <= list@.len()
        &&& self.current == (if self.pos@ < list@.len() {
            Some(list.chain()[self.pos@])
        } else {
            None::<usize>
        })
    }

    /// An in-place write through a handle leaves every handle of the list
    /// valid: an iterator of the old list walks the new one unchanged, as
    /// both index the same nodes in the same order.
    pub proof fn stable_under_write(self, before: LinkedList<T>, after: LinkedList<T>)
        requires
            self.wf(before),
            after.wf(),
            after.chain() == before.chain(),
        ensures
            self.wf(after),
    {
    }
}

impl<T: Copy> LinkedListIteratorMut<T> {
    /// The handle of the next node in forward order, or `None` once the
    /// chain of `list` is exhausted; the iterator advances by exactly one
    /// node per step.
    pub fn next(&mut self, list: &LinkedList<T>) -> (r: Option<usize>)
        requires
            old(self).wf(*list),
        ensures
            final(self).wf(*list),
            old(self).pos() < list@.len() ==> r == Some(list.chain()[old(self).pos()])
                && list.is_handle(list.chain()[old(self).pos()]) && list.handle_pos(
                list.chain()[old(self).pos()],
            ) == old(self).pos() && final(self).pos() == old(self).pos() + 1,
            old(self).pos() >= list@.len() ==> r is None && final(self).pos() == old(self).pos(),
    {
        match self.current {
            None => None,
            Some(c) => {
                proof {
                    assert(list.slot_ok(self.pos@));
                }
                let n = list.nodes[c];
                let node = n.unwrap();
                self.current = node.next;
                self.pos = Ghost(self.pos@ + 1);
                proof {
                    if self.pos@ < list@.len() {
                        assert(list.node_at(self.pos@ - 1).next == Some(
                            list.chain()[self.pos@],
                        ));
                    } else {
                        assert(list.node_at(list.len - 1).next is None);
                    }
                    let ghost p = self.pos@ - 1;
                    assert(list.is_handle(list.chain()[p]));
                    let ghost q = list.handle_pos(list.chain()[p]);
                    if q != p {
                        assert(list.chain()[q] != list.chain()[p]);
                    }
                }
                Some(c)
            },
        }
    }
}

impl<T: Copy + PartialEq> LinkedList<T> {
    /// The first position (0-based) whose value compares equal to `value`,
    /// or `None` when no value of the list does.  The contract speaks of
    /// the equality that `==` on `T` is specified to decide; for a type
    /// whose `==` obeys no specification nothing is promised.
    pub fn index_of(&self, value: T) -> (r: Option<usize>)
        requires
            self.wf(),
        ensures
            T::obeys_eq_spec() ==> match r {
                Some(i) => i < self@.len() && value.eq_spec(&self@[i as int]) && (forall|j: int|
                    0 <= j < i ==> !value.eq_spec(&self@[j])),
                None => forall|j: int| 0 <= j < self@.len() ==> !value.eq_spec(&self@[j]),
            },
    {
        let mut i: usize = 0;
        let mut cur = self.head;
        while i < self.len
            invariant
                self.wf(),
                i <= self@.len(),
                cur == (if i < self.len {
                    Some(self.order@[i as int])
                } else {
                    None::<usize>
                }),
                T::obeys_eq_spec() ==> forall|j: int| 0 <= j < i ==> !value.eq_spec(&self@[j]),
            decreases self@.len() - i,
        {
            let c = cur.unwrap();
            proof {
                assert(self.slot_ok(i as int));
            }
            match self.nodes[c] {
                Some(n) => {
                    proof {
                        assert(self@[i as int] == n.value);
                    }
                    if value == n.value {
                        return Some(i);
                    }
                    cur = n.next;
                },
                None => {
                    cur = None;
                },
            }
            i = i + 1;
            proof {
                if i < self.len {
                    assert(self.node_at(i - 1).next == Some(self.order@[i as int]));
                }
            }
        }
        None
    }

    /// Whether some value of the list compares equal to `value`:
    /// equivalent to `index_of(value)` finding a position.
    pub fn contains(&self, value: T) -> (r: bool)
        requires
            self.wf(),
        ensures
            T::obeys_eq_spec() ==> (r <==> exists|j: int|
                0 <= j < self@.len() && value.eq_spec(&self@[j])),
    {
        match self.index_of(value) {
            Some(_) => true,
            None => false,
        }
    }
}

} // verus!
