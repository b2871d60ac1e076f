use vstd::prelude::*;

verus! {

/// Errors raised by the rotating queue.
#[derive(Debug, Clone, Copy, PartialEq, Eq, Structural)]
pub enum DataStructureError {
    InvalidState,
    InvalidReference,
    InvalidIndex,
    InvalidActionEmpty,
}

/// One element of a `DLL`: its value and the arena slots of its neighbours.
#[derive(Debug)]
pub struct DLLNode<T> {
    pub value: T,
    pub next: Option<usize>,
    pub prev: Option<usize>,
}

impl<T> DLLNode<T> {
    /// A node that is linked to nothing yet.
    pub fn new(value: T) -> (r: Self)
        ensures
            r.value == value,
            r.next is None,
            r.prev is None,
    {
        DLLNode { value, next: None, prev: None }
    }
}

/// A doubly-linked queue whose nodes live in an arena and refer to each other by slot.
///
/// Each value is owned by exactly one slot of the arena; `order` lists the slots of the
/// elements from head to tail, and the links of every node agree with it.  Vacated slots
/// are kept on a free list and reused.
pub struct DLL<T> {
    nodes: Vec<Option<DLLNode<T>>>,
    free: Vec<usize>,
    head: Option<usize>,
    tail: Option<usize>,
    length: usize,
    order: Ghost<Seq<usize>>,
}

impl<T> View for DLL<T> {
    type V = Seq<T>;

    closed spec fn view(&self) -> Seq<T> {
        Seq::new(self.order@.len(), |i: int| self.nodes@[self.order@[i] as int]->Some_0.value)
    }
}

/// The node stored in slot `k`.
spec fn node_in<T>(nodes: Seq<Option<DLLNode<T>>>, k: usize) -> DLLNode<T> {
    nodes[k as int]->Some_0
}

/// The node of the `i`-th element links to the slots of its neighbours in `ids`.
spec fn links_in<T>(nodes: Seq<Option<DLLNode<T>>>, ids: Seq<usize>, i: int) -> bool {
    &&& node_in(nodes, ids[i]).next == (if i + 1 < ids.len() {
        Some(ids[i + 1])
    } else {
        None::<usize>
    })
    &&& node_in(nodes, ids[i]).prev == (if i > 0 {
        Some(ids[i - 1])
    } else {
        None::<usize>
    })
}

/// The arena `nodes` holds the elements in the slots `ids`, linked in that order, with
/// `head`, `tail` and `length` to match; `free` lists distinct vacant slots.
spec fn parts_wf<T>(
    nodes: Seq<Option<DLLNode<T>>>,
    free: Seq<usize>,
    head: Option<usize>,
    tail: Option<usize>,
    length: usize,
    ids: Seq<usize>,
) -> bool {
    &&& length == ids.len()
    &&& forall|i: int|
        0 <= i < ids.len() ==> #[trigger] ids[i] < nodes.len() && nodes[ids[i] as int] is Some
    &&& forall|i: int, j: int| 0 <= i < j < ids.len() ==> #[trigger] ids[i] != #[trigger] ids[j]
    &&& forall|i: int| 0 <= i < ids.len() ==> #[trigger] links_in(nodes, ids, i)
    &&& head == (if ids.len() > 0 {
        Some(ids[0])
    } else {
        None::<usize>
    })
    &&& tail == (if ids.len() > 0 {
        Some(ids.last())
    } else {
        None::<usize>
    })
    &&& forall|k: int|
        0 <= k < free.len() ==> #[trigger] free[k] < nodes.len() && nodes[free[k] as int] is None
    &&& free.no_duplicates()
}

/// Changing the value in an occupied slot keeps the arena well formed.
proof fn lemma_value_change<T>(
    nodes: Seq<Option<DLLNode<T>>>,
    free: Seq<usize>,
    head: Option<usize>,
    tail: Option<usize>,
    length: usize,
    ids: Seq<usize>,
    k: usize,
)
    requires
        parts_wf(nodes, free, head, tail, length, ids),
        k < nodes.len(),
        nodes[k as int] is Some,
    ensures
        forall|v: T|
            parts_wf(
                #[trigger] nodes.update(
                    k as int,
                    Some(DLLNode { value: v, next: nodes[k as int]->Some_0.next, prev: nodes[k as int]->Some_0.prev }),
                ),
                free,
                head,
                tail,
                length,
                ids,
            ),
{
    assert forall|v: T|
        parts_wf(
            #[trigger] nodes.update(
                    k as int,
                    Some(DLLNode { value: v, next: nodes[k as int]->Some_0.next, prev: nodes[k as int]->Some_0.prev }),
                ),
            free,
            head,
            tail,
            length,
            ids,
        ) by {
        let n2 = nodes.update(
            k as int,
            Some(DLLNode { value: v, next: nodes[k as int]->Some_0.next, prev: nodes[k as int]->Some_0.prev }),
        );
        assert forall|i: int| 0 <= i < ids.len() implies #[trigger] links_in(n2, ids, i) by {
            assert(links_in(nodes, ids, i));
        }
    }
}

impl<T> DLL<T> {
    spec fn node(&self, k: usize) -> DLLNode<T> {
        self.nodes@[k as int]->Some_0
    }

    /// The arena, the links, the free list and the cached length all agree.
    pub closed spec fn wf(&self) -> bool {
        parts_wf(self.nodes@, self.free@, self.head, self.tail, self.length, self.order@)
    }

    /// Points the node in slot `k` forward to `n`.
    fn set_next(&mut self, k: usize, n: Option<usize>)
        requires
            k < old(self).nodes@.len(),
            old(self).nodes@[k as int] is Some,
        ensures
            final(self).nodes@ == old(self).nodes@.update(
                k as int,
                Some(DLLNode { next: n, ..old(self).node(k) }),
            ),
            final(self).free == old(self).free,
            final(self).head == old(self).head,
            final(self).tail == old(self).tail,
            final(self).length == old(self).length,
            final(self).order == old(self).order,
    {
        let mut slot: Option<DLLNode<T>> = None;
        self.nodes.set_and_swap(k, &mut slot);
        if let Some(mut node) = slot {
            node.next = n;
            self.nodes.set(k, Some(node));
        }
    }

    /// Points the node in slot `k` backward to `p`.
    fn set_prev(&mut self, k: usize, p: Option<usize>)
        requires
            k < old(self).nodes@.len(),
            old(self).nodes@[k as int] is Some,
        ensures
            final(self).nodes@ == old(self).nodes@.update(
                k as int,
                Some(DLLNode { prev: p, ..old(self).node(k) }),
            ),
            final(self).free == old(self).free,
            final(self).head == old(self).head,
            final(self).tail == old(self).tail,
            final(self).length == old(self).length,
            final(self).order == old(self).order,
    {
        let mut slot: Option<DLLNode<T>> = None;
        self.nodes.set_and_swap(k, &mut slot);
        if let Some(mut node) = slot {
            node.prev = p;
            self.nodes.set(k, Some(node));
        }
    }

    /// Stores `node` in a vacant slot, reusing a freed one where there is one.
    fn store(&mut self, node: DLLNode<T>) -> (k: usize)
        requires
            old(self).wf(),
        ensures
            k < final(self).nodes@.len(),
            old(self).nodes@.len() <= final(self).nodes@.len(),
            k < old(self).nodes@.len() ==> old(self).nodes@[k as int] is None,
            final(self).nodes@[k as int] == Some(node),
            forall|j: int|
                0 <= j < old(self).nodes@.len() && j != k ==> final(self).nodes@[j]
                    == old(self).nodes@[j],
            forall|j: int|
                0 <= j < final(self).free@.len() ==> #[trigger] final(self).free@[j]
                    < final(self).nodes@.len() && final(self).nodes@[final(self).free@[j] as int]
                    is None,
            final(self).free@.no_duplicates(),
            final(self).head == old(self).head,
            final(self).tail == old(self).tail,
            final(self).length == old(self).length,
            final(self).order == old(self).order,
    {
        match self.free.pop() {
            Some(k) => {
                proof {
                    assert(old(self).free@ == self.free@.push(k));
                    assert(old(self).free@[self.free@.len() as int] == k);
                    assert forall|j: int| 0 <= j < self.free@.len() implies self.free@[j] != k by {
                        assert(old(self).free@[j] == self.free@[j]);
                    }
                }
                self.nodes.set(k, Some(node));
                proof {
                    assert forall|j: int| 0 <= j < self.free@.len() implies #[trigger] self.free@[j]
                        < self.nodes@.len() && self.nodes@[self.free@[j] as int] is None by {
                        assert(old(self).free@[j] == self.free@[j]);
                    }
                }
                k
            },
            None => {
                let k = self.nodes.len();
                self.nodes.push(Some(node));
                k
            },
        }
    }

    /// Moves the node out of slot `k` and returns the slot to the free list.
    fn release(&mut self, k: usize) -> (node: DLLNode<T>)
        requires
            k < old(self).nodes@.len(),
            old(self).nodes@[k as int] is Some,
            forall|j: int|
                0 <= j < old(self).free@.len() ==> #[trigger] old(self).free@[j] < old(
                    self,
                ).nodes@.len() && old(self).nodes@[old(self).free@[j] as int] is None,
            old(self).free@.no_duplicates(),
        ensures
            node == old(self).node(k),
            final(self).nodes@ == old(self).nodes@.update(k as int, None),
            forall|j: int|
                0 <= j < final(self).free@.len() ==> #[trigger] final(self).free@[j]
                    < final(self).nodes@.len() && final(self).nodes@[final(self).free@[j] as int]
                    is None,
            final(self).free@.no_duplicates(),
            final(self).head == old(self).head,
            final(self).tail == old(self).tail,
            final(self).length == old(self).length,
            final(self).order == old(self).order,
    {
        let mut slot: Option<DLLNode<T>> = None;
        self.nodes.set_and_swap(k, &mut slot);
        proof {
            assert forall|j: int| 0 <= j < self.free@.len() implies self.free@[j] != k by {}
        }
        self.free.push(k);
        proof {
            assert forall|j: int| 0 <= j < self.free@.len() implies #[trigger] self.free@[j]
                < self.nodes@.len() && self.nodes@[self.free@[j] as int] is None by {
                if j < old(self).free@.len() {
                    assert(self.free@[j] == old(self).free@[j]);
                }
            }
            assert forall|a: int, b: int| 0 <= a < b < self.free@.len() implies self.free@[a] != self.free@[b] by {
                if b < old(self).free@.len() {
                    assert(self.free@[a] == old(self).free@[a]);
                    assert(self.free@[b] == old(self).free@[b]);
                } else {
                    assert(self.free@[a] == old(self).free@[a]);
                }
            }
        }
        slot.unwrap()
    }

    /// An empty queue.
    pub fn new() -> (r: Self)
        ensures
            r.wf(),
            r@ == Seq::<T>::empty(),
    {
        DLL {
            nodes: Vec::new(),
            free: Vec::new(),
            head: None,
            tail: None,
            length: 0,
            order: Ghost(Seq::empty()),
        }
    }

    /// Adds `value` at the tail.
    pub fn append(&mut self, value: T)
        requires
            old(self).wf(),
            old(self)@.len() < usize::MAX,
        ensures
            final(self).wf(),
            final(self)@ == old(self)@.push(value),
    {
        let ghost ids = self.order@;
        let ghost before = self.nodes@;
        let k = self.store(DLLNode { value, next: None, prev: self.tail });
        match self.tail {
            Some(t) => {
                self.set_next(t, Some(k));
            },
            None => {
                self.head = Some(k);
            },
        }
        self.tail = Some(k);
        self.length = self.length + 1;
        self.order = Ghost(ids.push(k));
        proof {
            let n = ids.len() as int;
            assert forall|i: int| 0 <= i < n implies ids[i] != k && self.nodes@[ids[i] as int]
                is Some && self.node(ids[i]).value == old(self).node(ids[i]).value by {
                assert(links_in(old(self).nodes@, old(self).order@, i));
            }
            assert forall|i: int| 0 <= i <= n implies #[trigger] links_in(self.nodes@, self.order@, i) by {
                if i < n {
                    assert(links_in(old(self).nodes@, old(self).order@, i));
                }
            }
            assert(self@ =~= old(self)@.push(value));
        }
    }

    /// Adds `value` at the head.
    pub fn prepend(&mut self, value: T)
        requires
            old(self).wf(),
            old(self)@.len() < usize::MAX,
        ensures
            final(self).wf(),
            final(self)@ == seq![value] + old(self)@,
    {
        let ghost ids = self.order@;
        let k = self.store(DLLNode { value, next: self.head, prev: None });
        match self.head {
            Some(h) => {
                self.set_prev(h, Some(k));
            },
            None => {
                self.tail = Some(k);
            },
        }
        self.head = Some(k);
        self.length = self.length + 1;
        self.order = Ghost(seq![k] + ids);
        proof {
            let n = ids.len() as int;
            let nids = self.order@;
            assert forall|i: int| 0 <= i < n implies ids[i] != k && self.nodes@[ids[i] as int]
                is Some && self.node(ids[i]).value == old(self).node(ids[i]).value by {
                assert(links_in(old(self).nodes@, old(self).order@, i));
            }
            assert forall|i: int| 0 <= i <= n implies #[trigger] links_in(self.nodes@, self.order@, i) by {
                assert(nids[i] == if i == 0 { k } else { ids[i - 1] });
                if i > 0 {
                    assert(links_in(old(self).nodes@, old(self).order@, i - 1));
                    if i < n {
                        assert(nids[i + 1] == ids[i]);
                    }
                }
            }
            assert forall|i: int, j: int| 0 <= i < j <= n implies #[trigger] nids[i] != #[trigger] nids[j] by {
                if i > 0 {
                    assert(ids[i - 1] != ids[j - 1]);
                }
            }
            assert(self@ =~= seq![value] + old(self)@);
        }
    }

    /// Removes and returns the value at the head; `None` exactly when the queue is empty.
    pub fn pop_front(&mut self) -> (r: Option<T>)
        requires
            old(self).wf(),
        ensures
            final(self).wf(),
            old(self)@.len() == 0 ==> r is None && final(self)@ == old(self)@,
            old(self)@.len() > 0 ==> r == Some(old(self)@[0]) && final(self)@
                == old(self)@.drop_first(),
    {
        let ghost ids = self.order@;
        match self.head {
            None => None,
            Some(k) => {
                proof {
                    assert(links_in(old(self).nodes@, old(self).order@, 0));
                }
                let node = self.release(k);
                match node.next {
                    Some(n) => {
                        proof {
                            assert(n == ids[1]);
                            assert(ids[0] != ids[1]);
                        }
                        self.set_prev(n, None);
                        self.head = Some(n);
                    },
                    None => {
                        self.head = None;
                        self.tail = None;
                    },
                }
                self.length = self.length - 1;
                self.order = Ghost(ids.drop_first());
                proof {
                    let nids = self.order@;
                    assert forall|i: int| 0 <= i < nids.len() implies nids[i] != k && self.nodes@[nids[i] as int]
                        is Some && self.node(nids[i]).value == old(self).node(nids[i]).value by {
                        assert(nids[i] == ids[i + 1]);
                        assert(ids[0] != ids[i + 1]);
                    }
                    assert forall|i: int| 0 <= i < nids.len() implies #[trigger] links_in(self.nodes@, self.order@, i) by {
                        assert(links_in(old(self).nodes@, old(self).order@, i + 1));
                        assert(ids[0] != ids[i + 1]);
                        assert(nids[i] == ids[i + 1]);
                        if i > 0 {
                            assert(ids[1] != ids[i + 1]);
                        }
                    }
                    assert forall|i: int, j: int| 0 <= i < j < nids.len() implies #[trigger] nids[i] != #[trigger] nids[j] by {
                        assert(ids[i + 1] != ids[j + 1]);
                    }
                    assert(self@ =~= old(self)@.drop_first());
                }
                Some(node.value)
            },
        }
    }

    /// Removes and returns the value at the tail; `None` exactly when the queue is empty.
    pub fn pop_back(&mut self) -> (r: Option<T>)
        requires
            old(self).wf(),
        ensures
            final(self).wf(),
            old(self)@.len() == 0 ==> r is None && final(self)@ == old(self)@,
            old(self)@.len() > 0 ==> r == Some(old(self)@.last()) && final(self)@
                == old(self)@.drop_last(),
    {
        let ghost ids = self.order@;
        let ghost n = ids.len() as int;
        match self.tail {
            None => None,
            Some(k) => {
                proof {
                    assert(links_in(old(self).nodes@, old(self).order@, n - 1));
                }
                let node = self.release(k);
                match node.prev {
                    Some(p) => {
                        proof {
                            assert(p == ids[n - 2]);
                            assert(ids[n - 2] != ids[n - 1]);
                        }
                        self.set_next(p, None);
                        self.tail = Some(p);
                    },
                    None => {
                        self.head = None;
                        self.tail = None;
                    },
                }
                self.length = self.length - 1;
                self.order = Ghost(ids.drop_last());
                proof {
                    let nids = self.order@;
                    assert forall|i: int| 0 <= i < nids.len() implies nids[i] != k && self.nodes@[nids[i] as int]
                        is Some && self.node(nids[i]).value == old(self).node(nids[i]).value by {
                        assert(nids[i] == ids[i]);
                        assert(ids[n - 1] != ids[i]);
                    }
                    assert forall|i: int| 0 <= i < nids.len() implies #[trigger] links_in(self.nodes@, self.order@, i) by {
                        assert(links_in(old(self).nodes@, old(self).order@, i));
                        assert(ids[n - 1] != ids[i]);
                        assert(nids[i] == ids[i]);
                        if i < n - 2 {
                            assert(ids[n - 2] != ids[i]);
                        }
                    }
                    assert forall|i: int, j: int| 0 <= i < j < nids.len() implies #[trigger] nids[i] != #[trigger] nids[j] by {
                        assert(ids[i] != ids[j]);
                    }
                    assert(self@ =~= old(self)@.drop_last());
                }
                Some(node.value)
            },
        }
    }

    /// The slot that follows slot `k`.
    fn next_of(&self, k: usize) -> (r: Option<usize>)
        requires
            k < self.nodes@.len(),
            self.nodes@[k as int] is Some,
        ensures
            r == self.node(k).next,
    {
        match &self.nodes[k] {
            Some(node) => node.next,
            None => None,
        }
    }

    /// Places `value` so that it becomes the element at position `index`, moving the
    /// elements from `index` on one place towards the tail.  `index == len` appends and
    /// `index == 0` prepends; a larger index is refused and leaves the queue unchanged.
    pub fn insert(&mut self, index: usize, value: T) -> (r: Result<(), DataStructureError>)
        requires
            old(self).wf(),
            old(self)@.len() < usize::MAX,
        ensures
            final(self).wf(),
            index <= old(self)@.len() ==> r is Ok && final(self)@ == old(self)@.insert(
                index as int,
                value,
            ),
            index > old(self)@.len() ==> r == Err::<(), DataStructureError>(
                DataStructureError::InvalidIndex,
            ) && final(self)@ == old(self)@,
    {
        if index > self.length {
            return Err(DataStructureError::InvalidIndex);
        }
        if index == 0 {
            self.prepend(value);
            proof {
                assert(self@ =~= old(self)@.insert(0, value));
            }
            return Ok(());
        }
        if index == self.length {
            self.append(value);
            proof {
                assert(self@ =~= old(self)@.insert(index as int, value));
            }
            return Ok(());
        }
        let ghost ids = self.order@;
        let mut before = self.head.unwrap();
        let mut pos: usize = 0;
        while pos + 1 < index
            invariant
                self.wf(),
                self.order@ == ids,
                *self == *old(self),
                0 < index < ids.len(),
                pos + 1 <= index,
                before == ids[pos as int],
            decreases index - pos,
        {
            proof {
                assert(links_in(self.nodes@, self.order@, pos as int));
            }
            before = self.next_of(before).unwrap();
            pos = pos + 1;
        }
        proof {
            assert(links_in(self.nodes@, self.order@, pos as int));
            assert(links_in(self.nodes@, self.order@, index as int));
        }
        let after = self.next_of(before).unwrap();
        let k = self.store(DLLNode { value, next: Some(after), prev: Some(before) });
        proof {
            assert(ids[index - 1] != ids[index as int]);
        }
        self.set_next(before, Some(k));
        self.set_prev(after, Some(k));
        self.length = self.length + 1;
        self.order = Ghost(ids.insert(index as int, k));
        proof {
            let n = ids.len() as int;
            let m = index as int;
            let nids = self.order@;
            assert forall|i: int| 0 <= i < n implies ids[i] != k && self.nodes@[ids[i] as int]
                is Some && self.node(ids[i]).value == old(self).node(ids[i]).value by {
                assert(links_in(old(self).nodes@, old(self).order@, i));
            }
            assert forall|i: int| 0 <= i <= n implies nids[i] == (if i < m {
                ids[i]
            } else if i == m {
                k
            } else {
                ids[i - 1]
            }) by {}
            assert forall|i: int| 0 <= i <= n implies #[trigger] links_in(self.nodes@, self.order@, i) by {
                if i < m {
                    assert(links_in(old(self).nodes@, old(self).order@, i));
                    if i < m - 1 {
                        assert(ids[i] != ids[m - 1]);
                    }
                    assert(ids[i] != ids[m]);
                } else if i > m {
                    assert(links_in(old(self).nodes@, old(self).order@, i - 1));
                    assert(ids[i - 1] != ids[m - 1]);
                    if i > m + 1 {
                        assert(ids[i - 1] != ids[m]);
                    }
                }
            }
            assert forall|i: int, j: int| 0 <= i < j <= n implies #[trigger] nids[i] != #[trigger] nids[j] by {
                if i < m && j < m {
                    assert(ids[i] != ids[j]);
                } else if i < m && j > m {
                    assert(ids[i] != ids[j - 1]);
                } else if i > m {
                    assert(ids[i - 1] != ids[j - 1]);
                }
            }
            assert(self@ =~= old(self)@.insert(index as int, value));
        }
        Ok(())
    }

    /// The value stored in slot `k`.
    fn value_of(&self, k: usize) -> (r: &T)
        requires
            k < self.nodes@.len(),
            self.nodes@[k as int] is Some,
        ensures
            *r == self.node(k).value,
    {
        &self.nodes[k].as_ref().unwrap().value
    }

    /// The value at the head, if any.
    pub fn front(&self) -> (r: Option<&T>)
        requires
            self.wf(),
        ensures
            self@.len() == 0 ==> r is None,
            self@.len() > 0 ==> r == Some(&self@[0]),
    {
        match self.head {
            Some(k) => Some(self.value_of(k)),
            None => None,
        }
    }

    /// The value at the tail, if any.
    pub fn back(&self) -> (r: Option<&T>)
        requires
            self.wf(),
        ensures
            self@.len() == 0 ==> r is None,
            self@.len() > 0 ==> r == Some(&self@.last()),
    {
        match self.tail {
            Some(k) => Some(self.value_of(k)),
            None => None,
        }
    }

    /// A queue holding the values of `collection` in order, the first at the head.
    pub fn from_vec(collection: Vec<T>) -> (r: Self)
        ensures
            r.wf(),
            r@ == collection@,
    {
        let mut collection = collection;
        let ghost items = collection@;
        let mut list: DLL<T> = DLL::new();
        proof {
            assert(items.len() == collection.len());
        }
        while collection.len() > 0
            invariant
                list.wf(),
                collection@ + list@ == items,
                items.len() <= usize::MAX,
            decreases collection.len(),
        {
            let x = collection.pop().unwrap();
            list.prepend(x);
            proof {
                assert(collection@ + list@ =~= items);
            }
        }
        proof {
            assert(list@ =~= items);
        }
        list
    }

    /// The values of the queue in order, the head first.
    pub fn into_vec(self) -> (r: Vec<T>)
        requires
            self.wf(),
        ensures
            r@ == self@,
    {
        let mut list = self;
        let ghost items = list@;
        let mut out: Vec<T> = Vec::new();
        while !list.is_empty()
            invariant
                list.wf(),
                out@ + list@ == items,
            decreases list@.len(),
        {
            let x = list.pop_front().unwrap();
            proof {
                assert(out@.push(x) + list@ =~= items);
            }
            out.push(x);
        }
        proof {
            assert(out@ =~= items);
        }
        out
    }

    /// Consumes the queue into an iterator that hands out its values from the head.
    pub fn into_iter(self) -> (r: IntoIter<T>)
        requires
            self.wf(),
        ensures
            r.wf(),
            r@ == self@,
    {
        IntoIter { list: self }
    }

    /// A borrowing iterator over the values, from the head forward or from the tail back.
    pub fn iter(&self) -> (r: Iter<'_, T>)
        requires
            self.wf(),
        ensures
            r.wf(),
            r@ == self@,
    {
        let r = Iter {
            list: self,
            front: self.head,
            back: self.tail,
            length: self.length,
            start: Ghost(0),
        };
        proof {
            assert(r@ =~= self@);
        }
        r
    }

    /// An iterator that lends out each value mutably, from the head.  What it leaves in
    /// the values is what the queue holds once it is dropped.
    pub fn iter_mut(&mut self) -> (r: IterMut<'_, T>)
        requires
            old(self).wf(),
        ensures
            r.wf(),
            r.values() == old(self)@,
            r.rest() == old(self)@,
            *final(self) == *final(r.list),
    {
        let front = self.head;
        let length = self.length;
        let back = self.tail;
        let r = IterMut { list: self, position: WalkPosition { front, back, length, start: Ghost(0) } };
        proof {
            assert(r.rest() =~= r.values());
        }
        r
    }

    /// The number of values in the queue.
    pub fn len(&self) -> (r: usize)
        requires
            self.wf(),
        ensures
            r == self@.len(),
    {
        self.length
    }

    pub fn is_empty(&self) -> (r: bool)
        requires
            self.wf(),
        ensures
            r == (self@.len() == 0),
    {
        self.length == 0
    }
}

/// Hands out the values of a queue, taking them from the head.
pub struct IntoIter<T> {
    list: DLL<T>,
}

impl<T> View for IntoIter<T> {
    type V = Seq<T>;

    closed spec fn view(&self) -> Seq<T> {
        self.list@
    }
}

impl<T> IntoIter<T> {
    pub closed spec fn wf(&self) -> bool {
        self.list.wf()
    }

    /// The next value from the head, or `None` once every value was handed out.
    pub fn next(&mut self) -> (r: Option<T>)
        requires
            old(self).wf(),
        ensures
            final(self).wf(),
            old(self)@.len() == 0 ==> r is None && final(self)@ == old(self)@,
            old(self)@.len() > 0 ==> r == Some(old(self)@[0]) && final(self)@
                == old(self)@.drop_first(),
    {
        self.list.pop_front()
    }

    /// How many values are left.
    pub fn len(&self) -> (r: usize)
        requires
            self.wf(),
        ensures
            r == self@.len(),
    {
        self.list.len()
    }
}

/// Borrows the values of a queue in order; `next` walks from the head and `next_back`
/// from the tail until the two meet.
pub struct Iter<'a, T> {
    list: &'a DLL<T>,
    front: Option<usize>,
    back: Option<usize>,
    length: usize,
    start: Ghost<int>,
}

impl<'a, T> View for Iter<'a, T> {
    type V = Seq<T>;

    closed spec fn view(&self) -> Seq<T> {
        self.list@.subrange(self.start@, self.start@ + self.length)
    }
}

impl<'a, T> Iter<'a, T> {
    pub closed spec fn wf(&self) -> bool {
        let ids = self.list.order@;
        &&& self.list.wf()
        &&& 0 <= self.start@
        &&& self.start@ + self.length <= ids.len()
        &&& self.length > 0 ==> self.front == Some(ids[self.start@])
        &&& self.length > 0 ==> self.back == Some(ids[self.start@ + self.length - 1])
    }

    /// The next value from the front, or `None` once the two ends have met.
    pub fn next(&mut self) -> (r: Option<&'a T>)
        requires
            old(self).wf(),
        ensures
            final(self).wf(),
            old(self)@.len() == 0 ==> r is None && final(self)@ == old(self)@,
            old(self)@.len() > 0 ==> r == Some(&old(self)@[0]) && final(self)@
                == old(self)@.drop_first(),
    {
        if self.length == 0 {
            return None;
        }
        let k = self.front.unwrap();
        let list: &'a DLL<T> = self.list;
        proof {
            assert(links_in(list.nodes@, list.order@, self.start@));
        }
        let value = list.value_of(k);
        self.front = list.next_of(k);
        self.length = self.length - 1;
        self.start = Ghost(self.start@ + 1);
        proof {
            assert(self@ =~= old(self)@.drop_first());
            if self.length > 0 {
                assert(self.start@ < list.order@.len());
            }
        }
        Some(value)
    }

    /// The next value from the back, or `None` once the two ends have met.
    pub fn next_back(&mut self) -> (r: Option<&'a T>)
        requires
            old(self).wf(),
        ensures
            final(self).wf(),
            old(self)@.len() == 0 ==> r is None && final(self)@ == old(self)@,
            old(self)@.len() > 0 ==> r == Some(&old(self)@.last()) && final(self)@
                == old(self)@.drop_last(),
    {
        if self.length == 0 {
            return None;
        }
        let k = self.back.unwrap();
        let list: &'a DLL<T> = self.list;
        let ghost last = self.start@ + self.length - 1;
        proof {
            assert(links_in(list.nodes@, list.order@, last));
        }
        let value = list.value_of(k);
        self.back = match &list.nodes[k] {
            Some(node) => node.prev,
            None => None,
        };
        self.length = self.length - 1;
        proof {
            assert(self@ =~= old(self)@.drop_last());
        }
        Some(value)
    }

    /// How many values are left between the two ends.
    pub fn len(&self) -> (r: usize)
        requires
            self.wf(),
        ensures
            r == self@.len(),
    {
        self.length
    }
}

/// The queue `q` after `append` was called with each value of `vs` in turn.
pub open spec fn appended_all<T>(q: Seq<T>, vs: Seq<T>) -> Seq<T>
    decreases vs.len(),
{
    if vs.len() == 0 {
        q
    } else {
        appended_all(q, vs.drop_last()).push(vs.last())
    }
}

/// The queue `q` after `k` calls of `pop_front`.
pub open spec fn popped_front<T>(q: Seq<T>, k: nat) -> Seq<T>
    decreases k,
{
    if k == 0 {
        q
    } else {
        popped_front(q, (k - 1) as nat).drop_first()
    }
}

/// A queue is first-in first-out: after `k` appends onto an empty queue it holds the first
/// `k` values, in order; popping from the head then hands back the values in the order in
/// which they went in, the queue holding `n - k` after `k` pops and nothing after `n`.
pub proof fn lemma_fifo<T>(vs: Seq<T>)
    ensures
        forall|k: int|
            0 <= k <= vs.len() ==> #[trigger] appended_all(Seq::<T>::empty(), vs.take(k)) == vs.take(k),
        appended_all(Seq::<T>::empty(), vs) == vs,
        forall|k: nat| k <= vs.len() ==> #[trigger] popped_front(vs, k) == vs.skip(k as int),
        forall|k: nat| k < vs.len() ==> (#[trigger] popped_front(vs, k))[0] == vs[k as int],
        popped_front(vs, vs.len()).len() == 0,
    decreases vs.len(),
{
    if vs.len() > 0 {
        lemma_fifo(vs.drop_last());
        assert forall|k: int| 0 <= k <= vs.len() implies #[trigger] appended_all(Seq::<T>::empty(), vs.take(k)) == vs.take(k) by {
            if k < vs.len() {
                assert(vs.drop_last().take(k) =~= vs.take(k));
            } else {
                assert(vs.take(k) =~= vs);
                assert(vs.drop_last().take(k - 1) =~= vs.drop_last());
                assert(vs.take(k).drop_last() =~= vs.drop_last());
            }
        }
        assert(vs.take(vs.len() as int) =~= vs);
    }
    lemma_pops(vs);
}

proof fn lemma_pops<T>(vs: Seq<T>)
    ensures
        forall|k: nat| k <= vs.len() ==> #[trigger] popped_front(vs, k) == vs.skip(k as int),
        forall|k: nat| k < vs.len() ==> (#[trigger] popped_front(vs, k))[0] == vs[k as int],
        popped_front(vs, vs.len()).len() == 0,
{
    assert forall|k: nat| k <= vs.len() implies #[trigger] popped_front(vs, k) == vs.skip(k as int) by {
        lemma_pops_to(vs, k);
    }
    assert forall|k: nat| k < vs.len() implies (#[trigger] popped_front(vs, k))[0] == vs[k as int] by {
        lemma_pops_to(vs, k);
    }
    lemma_pops_to(vs, vs.len());
}

proof fn lemma_pops_to<T>(vs: Seq<T>, k: nat)
    requires
        k <= vs.len(),
    ensures
        popped_front(vs, k) == vs.skip(k as int),
    decreases k,
{
    if k == 0 {
        assert(vs.skip(0) =~= vs);
    } else {
        lemma_pops_to(vs, (k - 1) as nat);
        assert(vs.skip(k - 1).drop_first() =~= vs.skip(k as int));
    }
}

/// Moving a sequence into a queue and back out gives the sequence unchanged: `from_vec`
/// keeps the order and `into_vec` hands the values out from the head.
pub proof fn lemma_round_trip<T>(input: Vec<T>, list: DLL<T>, output: Vec<T>)
    requires
        list.wf(),
        list@ == input@,
        output@ == list@,
    ensures
        output@ == input@,
{
}

/// Mutably borrows the values of a queue in order; `next` walks from the head and
/// `next_back` from the tail until the two meet.  Each value is lent out once.
pub struct IterMut<'a, T> {
    /// The queue that is walked.
    pub list: &'a mut DLL<T>,
    /// How far the walk has come.
    pub position: WalkPosition,
}

/// Where a walk over a queue stands: the slots it visits next from either end, how many
/// values are left between them, and (for proofs) the position of the first of those.
pub struct WalkPosition {
    front: Option<usize>,
    back: Option<usize>,
    length: usize,
    start: Ghost<int>,
}

impl<'a, T> IterMut<'a, T> {
    pub closed spec fn wf(&self) -> bool {
        let ids = self.list.order@;
        let start = self.position.start@;
        let length = self.position.length;
        &&& self.list.wf()
        &&& 0 <= start
        &&& start + length <= ids.len()
        &&& length > 0 ==> self.position.front == Some(ids[start])
        &&& length > 0 ==> self.position.back == Some(ids[start + length - 1])
    }

    /// The values of the queue that is walked, as they stand.
    pub closed spec fn values(&self) -> Seq<T> {
        self.list@
    }

    /// Where in the values the ones not yet lent out begin.
    pub closed spec fn start(&self) -> int {
        self.position.start@
    }

    /// The values not yet lent out.
    pub closed spec fn rest(&self) -> Seq<T> {
        self.list@.subrange(self.position.start@, self.position.start@ + self.position.length)
    }

    /// How many values are left to lend out.
    pub fn len(&self) -> (r: usize)
        requires
            self.wf(),
        ensures
            r == self.rest().len(),
    {
        self.position.length
    }

    /// Lends out the next value from the head, or gives `None` once all were lent.
    pub fn next(&mut self) -> (r: Option<&mut T>)
        requires
            old(self).wf(),
        ensures
            final(self).wf(),
            *final(final(self).list) == *final(old(self).list),
            old(self).rest().len() == 0 ==> r is None && *final(self) == *old(self),
            old(self).rest().len() > 0 ==> {
                &&& r is Some
                &&& *r.unwrap() == old(self).rest()[0]
                &&& final(self).start() == old(self).start() + 1
                &&& final(self).rest() == old(self).rest().drop_first()
                &&& final(self).values() == old(self).values().update(
                    old(self).start(),
                    *final(r.unwrap()),
                )
            },
    {
        if self.position.length == 0 {
            return None;
        }
        let k = self.position.front.unwrap();
        proof {
            assert(links_in(self.list.nodes@, self.list.order@, self.position.start@));
        }
        self.position.length = self.position.length - 1;
        self.position.front = self.list.next_of(k);
        self.position.start = Ghost(self.position.start@ + 1);
        proof {
            lemma_value_change(
                self.list.nodes@,
                self.list.free@,
                self.list.head,
                self.list.tail,
                self.list.length,
                self.list.order@,
                k,
            );
        }
        match self.list.nodes[k].as_mut() {
            Some(node) => Some(&mut node.value),
            None => None,
        }
    }

    /// Lends out the next value from the tail, or gives `None` once all were lent.
    pub fn next_back(&mut self) -> (r: Option<&mut T>)
        requires
            old(self).wf(),
        ensures
            final(self).wf(),
            *final(final(self).list) == *final(old(self).list),
            old(self).rest().len() == 0 ==> r is None && *final(self) == *old(self),
            old(self).rest().len() > 0 ==> {
                &&& r is Some
                &&& *r.unwrap() == old(self).rest().last()
                &&& final(self).start() == old(self).start()
                &&& final(self).rest() == old(self).rest().drop_last()
                &&& final(self).values() == old(self).values().update(
                    old(self).start() + old(self).rest().len() - 1,
                    *final(r.unwrap()),
                )
            },
    {
        if self.position.length == 0 {
            return None;
        }
        let k = self.position.back.unwrap();
        let ghost last = self.position.start@ + self.position.length - 1;
        proof {
            assert(links_in(self.list.nodes@, self.list.order@, last));
        }
        self.position.length = self.position.length - 1;
        self.position.back = match &self.list.nodes[k] {
            Some(node) => node.prev,
            None => None,
        };
        proof {
            lemma_value_change(
                self.list.nodes@,
                self.list.free@,
                self.list.head,
                self.list.tail,
                self.list.length,
                self.list.order@,
                k,
            );
        }
        match self.list.nodes[k].as_mut() {
            Some(node) => Some(&mut node.value),
            None => None,
        }
    }
}

} // verus!
