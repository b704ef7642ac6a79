//! The eviction queue of the page cache: a doubly-linked list of handles,
//! oldest use at the front, newest at the back.

use vstd::prelude::*;

verus! {

/// One place in the eviction queue.
#[derive(Clone, Copy)]
pub struct LRUNode {
    /// The cache entry that this place stands for.
    data: Option<usize>,
    /// The neighbour toward the front of the queue.
    next: Option<usize>,
    /// The neighbour toward the back of the queue.
    prev: Option<usize>,
}

/// The eviction queue. Its nodes live in slots; a slot's index is the handle
/// of the node in it.
pub struct LRUMain {
    /// All slots, linked or free.
    nodes: Vec<LRUNode>,
    /// The slots that hold no linked node.
    free: Vec<usize>,
    /// The front of the queue: next to evict.
    front_q: Option<usize>,
    /// The back of the queue: where new nodes go.
    back_q: Option<usize>,
    /// The handles of the linked nodes from front to back.
    order: Ghost<Seq<usize>>,
}

impl LRUNode {
    /// The cache entry that this place stands for.
    pub closed spec fn spec_data(&self) -> Option<usize> {
        self.data
    }

    /// A node for the cache entry `data`, not linked to anything.
    pub fn new(data: Option<usize>) -> (node: Self)
        ensures
            node.spec_data() == data,
    {
        LRUNode { data, next: None, prev: None }
    }

    /// Makes the node stand for the cache entry `data`.
    pub fn set_data(&mut self, data: Option<usize>)
        ensures
            final(self).spec_data() == data,
    {
        self.data = data;
    }
}

/// The handle at place `i` of `order`, if there is such a place.
spec fn handle_at(order: Seq<usize>, i: int) -> Option<usize> {
    if 0 <= i < order.len() {
        Some(order[i])
    } else {
        None
    }
}

impl LRUMain {
    /// The queue is a well-linked list and every slot is either linked or
    /// free.
    pub closed spec fn wf(&self) -> bool {
        let order = self.order@;
        let free = self.free@;
        let n = self.nodes@.len();
        &&& n <= usize::MAX
        &&& order.no_duplicates()
        &&& free.no_duplicates()
        &&& forall|i: int| 0 <= i < order.len() ==> #[trigger] order[i] < n
        &&& forall|i: int| 0 <= i < free.len() ==> #[trigger] free[i] < n
        &&& forall|i: int, j: int|
            0 <= i < order.len() && 0 <= j < free.len() ==> #[trigger] order[i] != #[trigger] free[j]
        &&& order.len() + free.len() == n
        &&& self.front_q == handle_at(order, 0)
        &&& self.back_q == handle_at(order, order.len() - 1)
        &&& forall|i: int|
            0 <= i < order.len() ==> (#[trigger] self.nodes@[order[i] as int]).next == handle_at(
                order,
                i - 1,
            )
        &&& forall|i: int|
            0 <= i < order.len() ==> (#[trigger] self.nodes@[order[i] as int]).prev == handle_at(
                order,
                i + 1,
            )
    }

    /// The handles of the queued nodes, next to evict first.
    pub closed spec fn handles(&self) -> Seq<usize> {
        self.order@
    }

    /// The cache entry that the node with the handle `handle` stands for.
    pub closed spec fn data_of(&self, handle: usize) -> Option<usize> {
        self.nodes@[handle as int].data
    }

    /// The handle that the next added node gets.
    pub closed spec fn next_handle(&self) -> usize {
        if self.free@.len() > 0 {
            self.free@.last()
        } else {
            self.nodes@.len() as usize
        }
    }

    /// The number of slots, linked or free.
    pub closed spec fn slots(&self) -> nat {
        self.nodes@.len()
    }

    /// The handles of a well-formed queue differ from each other and lie
    /// below the number of slots; the next handle is none of them.
    pub proof fn lemma_handles(&self)
        requires
            self.wf(),
        ensures
            self.handles().no_duplicates(),
            self.handles().len() <= self.slots(),
            forall|i: int| 0 <= i < self.handles().len() ==> #[trigger] self.handles()[i] < self.slots(),
            !self.handles().contains(self.next_handle()),
            self.next_handle() <= self.slots(),
            self.handles().len() == self.slots() ==> self.next_handle() == self.slots(),
            self.handles().len() < self.slots() ==> self.next_handle() < self.slots(),
    {
        if self.free@.len() > 0 {
            let last = self.free@.len() - 1;
            assert(self.free@[last] < self.nodes@.len());
            if self.order@.contains(self.next_handle()) {
                let i = self.order@.index_of(self.next_handle());
                assert(self.order@[i] != self.free@[last]);
            }
        } else {
            if self.order@.contains(self.next_handle()) {
                let i = self.order@.index_of(self.next_handle());
                assert(self.order@[i] < self.nodes@.len());
            }
        }
    }

    /// An empty queue.
    pub fn new() -> (lru: Self)
        ensures
            lru.wf(),
            lru.handles() == Seq::<usize>::empty(),
            lru.slots() == 0,
    {
        LRUMain {
            nodes: Vec::new(),
            free: Vec::new(),
            front_q: None,
            back_q: None,
            order: Ghost(Seq::empty()),
        }
    }

    /// Whether the queue holds no node.
    pub fn is_empty(&self) -> (empty: bool)
        requires
            self.wf(),
        ensures
            empty == (self.handles().len() == 0),
    {
        self.front_q.is_none() && self.back_q.is_none()
    }

    /// The handle that the next added node gets.
    pub fn peek_handle(&self) -> (handle: usize)
        requires
            self.wf(),
        ensures
            handle == self.next_handle(),
    {
        if self.free.len() > 0 {
            self.free[self.free.len() - 1]
        } else {
            self.nodes.len()
        }
    }

    /// Puts `node` at the back of the queue and returns its handle.
    pub fn add_node(&mut self, node: LRUNode) -> (handle: usize)
        requires
            old(self).wf(),
            old(self).slots() < usize::MAX || old(self).handles().len() < old(self).slots(),
        ensures
            final(self).wf(),
            handle == old(self).next_handle(),
            final(self).handles() == old(self).handles().push(handle),
            final(self).data_of(handle) == node.spec_data(),
            final(self).slots() == if handle == old(self).slots() {
                old(self).slots() + 1
            } else {
                old(self).slots()
            },
            forall|h: usize|
                old(self).handles().contains(h) ==> final(self).data_of(h) == old(self).data_of(h),
    {
        proof {
            self.lemma_handles();
        }
        let ghost order = self.order@;
        let mut node = node;
        node.next = self.back_q;
        node.prev = None;
        let handle: usize;
        if self.free.len() > 0 {
            handle = self.free.pop().unwrap();
            self.nodes[handle] = node;
            assert(self.free@ =~= old(self).free@.drop_last());
        } else {
            handle = self.nodes.len();
            self.nodes.push(node);
        }
        match self.back_q {
            Some(old_back) => {
                assert(old_back == order[order.len() - 1]);
                self.nodes[old_back].prev = Some(handle);
            },
            None => {
                self.front_q = Some(handle);
            },
        }
        self.back_q = Some(handle);
        self.order = Ghost(order.push(handle));
        proof {
            let after = self.order@;
            assert forall|i: int, j: int| 0 <= i < j < after.len() implies after[i] != after[j] by {
                if j == order.len() {
                    assert(order[i] == after[i]);
                    assert(order.contains(order[i]));
                }
            }
            assert forall|i: int| 0 <= i < after.len() implies (
            #[trigger] self.nodes@[after[i] as int]).next == handle_at(after, i - 1) by {
                if i < order.len() {
                    assert(old(self).nodes@[order[i] as int].next == handle_at(order, i - 1));
                    assert(order.contains(order[i]));
                }
            }
            assert forall|i: int| 0 <= i < after.len() implies (
            #[trigger] self.nodes@[after[i] as int]).prev == handle_at(after, i + 1) by {
                if i < order.len() {
                    assert(old(self).nodes@[order[i] as int].prev == handle_at(order, i + 1));
                    assert(order.contains(order[i]));
                }
            }
            assert forall|h: usize| order.contains(h) implies self.data_of(h) == old(self).data_of(
                h,
            ) by {
                let i = order.index_of(h);
                assert(order[i] == h);
            }
        }
        handle
    }

    /// Takes the node at the front out of the queue and returns the cache
    /// entry that it stands for; nothing where the queue is empty.
    pub fn next_to_evict(&mut self) -> (evicted: Option<usize>)
        requires
            old(self).wf(),
        ensures
            final(self).wf(),
            final(self).slots() == old(self).slots(),
            old(self).handles().len() == 0 ==> evicted is None && final(self).handles() == old(
                self,
            ).handles(),
            old(self).handles().len() > 0 ==> evicted == old(self).data_of(old(self).handles()[0])
                && final(self).handles() == old(self).handles().drop_first()
                && final(self).next_handle() == old(self).handles()[0],
            forall|h: usize|
                old(self).handles().contains(h) ==> final(self).data_of(h) == old(self).data_of(h),
    {
        let ghost order = self.order@;
        match self.front_q {
            None => None,
            Some(old_front) => {
                assert(old_front == order[0]);
                let node: LRUNode = self.nodes[old_front];
                self.front_q = node.prev;
                match node.prev {
                    Some(new_front) => {
                        assert(new_front == order[1]);
                        self.nodes[new_front].next = None;
                    },
                    None => {
                        self.back_q = None;
                    },
                }
                self.free.push(old_front);
                self.order = Ghost(order.drop_first());
                proof {
                    let after = self.order@;
                    assert forall|i: int| 0 <= i < after.len() implies after[i] == order[i + 1] by {}
                    assert forall|i: int, j: int| 0 <= i < j < after.len() implies after[i]
                        != after[j] by {}
                    assert forall|i: int, j: int| 0 <= i < j < self.free@.len() implies self.free@[i]
                        != self.free@[j] by {
                        if j == old(self).free@.len() {
                            assert(order[0] != old(self).free@[i]);
                        }
                    }
                    assert forall|i: int, j: int|
                        0 <= i < after.len() && 0 <= j < self.free@.len() implies #[trigger] after[i]
                        != #[trigger] self.free@[j] by {
                        if j == old(self).free@.len() {
                            assert(order[i + 1] != order[0]);
                        } else {
                            assert(order[i + 1] != old(self).free@[j]);
                        }
                    }
                    assert forall|i: int| 0 <= i < after.len() implies (
                    #[trigger] self.nodes@[after[i] as int]).next == handle_at(after, i - 1) by {
                        assert(old(self).nodes@[order[i + 1] as int].next == handle_at(order, i));
                        if i > 0 {
                            assert(order[i + 1] != order[1]);
                        }
                    }
                    assert forall|i: int| 0 <= i < after.len() implies (
                    #[trigger] self.nodes@[after[i] as int]).prev == handle_at(after, i + 1) by {
                        assert(old(self).nodes@[order[i + 1] as int].prev == handle_at(
                            order,
                            i + 2,
                        ));
                    }
                    assert(self.back_q == handle_at(after, after.len() - 1)) by {
                        if after.len() > 0 {
                            assert(after[after.len() - 1] == order[order.len() - 1]);
                        }
                    }
                }
                node.data
            },
        }
    }

    /// Moves the node with the handle `node` to the back of the queue.
    pub fn update_lru_position(&mut self, node: usize)
        requires
            old(self).wf(),
            old(self).handles().contains(node),
        ensures
            final(self).wf(),
            final(self).slots() == old(self).slots(),
            final(self).next_handle() == old(self).next_handle(),
            final(self).handles() == old(self).handles().remove(
                old(self).handles().index_of(node),
            ).push(node),
            forall|h: usize|
                old(self).handles().contains(h) ==> final(self).data_of(h) == old(self).data_of(h),
    {
        let ghost order = self.order@;
        let ghost at = order.index_of(node);
        assert(order[at] == node);
        if self.back_q == Some(node) {
            proof {
                assert(order[order.len() - 1] == node);
                assert(at == order.len() - 1);
                assert(order.remove(at).push(node) =~= order);
            }
            return ;
        }
        assert(at < order.len() - 1);
        let current: LRUNode = self.nodes[node];
        let toward_front: Option<usize> = current.next;
        let toward_back: Option<usize> = current.prev;
        assert(toward_back == Some(order[at + 1]));
        if let Some(front_side) = toward_front {
            assert(front_side == order[at - 1]);
            self.nodes[front_side].prev = toward_back;
        }
        match toward_back {
            Some(back_side) => {
                self.nodes[back_side].next = toward_front;
            },
            None => {},
        }
        if toward_front.is_none() {
            self.front_q = toward_back;
        }
        let old_back: usize = self.back_q.unwrap();
        assert(old_back == order[order.len() - 1]);
        self.nodes[old_back].prev = Some(node);
        let mut moved: LRUNode = self.nodes[node];
        moved.next = Some(old_back);
        moved.prev = None;
        self.nodes[node] = moved;
        self.back_q = Some(node);
        self.order = Ghost(order.remove(at).push(node));
        proof {
            let after = self.order@;
            let n = order.len() as int;
            assert(after.len() == n);
            assert forall|i: int| 0 <= i < n - 1 implies after[i] == if i < at {
                order[i]
            } else {
                order[i + 1]
            } by {}
            assert(after[n - 1] == node);
            assert forall|i: int, j: int| 0 <= i < j < after.len() implies after[i] != after[j] by {}
            assert forall|i: int, j: int|
                0 <= i < after.len() && 0 <= j < self.free@.len() implies #[trigger] after[i]
                != #[trigger] self.free@[j] by {
                if i < at {
                    assert(order[i] != old(self).free@[j]);
                } else if i < n - 1 {
                    assert(order[i + 1] != old(self).free@[j]);
                } else {
                    assert(order[at] != old(self).free@[j]);
                }
            }
            assert forall|i: int| 0 <= i < after.len() implies (
            #[trigger] self.nodes@[after[i] as int]).next == handle_at(after, i - 1) by {
                if i < at {
                    assert(old(self).nodes@[order[i] as int].next == handle_at(order, i - 1));
                } else if i < n - 1 {
                    assert(old(self).nodes@[order[i + 1] as int].next == handle_at(order, i));
                }
            }
            assert forall|i: int| 0 <= i < after.len() implies (
            #[trigger] self.nodes@[after[i] as int]).prev == handle_at(after, i + 1) by {
                if i < at {
                    assert(old(self).nodes@[order[i] as int].prev == handle_at(order, i + 1));
                } else if i < n - 1 {
                    assert(old(self).nodes@[order[i + 1] as int].prev == handle_at(order, i + 2));
                }
            }
            assert forall|h: usize| order.contains(h) implies self.data_of(h) == old(self).data_of(
                h,
            ) by {}
        }
    }
}

} // verus!
