use vstd::prelude::*;

use crate::view::{
    lemma_index_of_unique, lemma_moved_to_front, lemma_without_neighbours, lemma_wrapped_succ,
    lemma_wrapping_distance, moved_to_front, wrapped, CacheView,
};

verus! {

/// An opaque handle to a slot of a cache's node arena.
#[derive(Clone, Copy, Debug, PartialEq, Eq, Hash, Structural)]
pub struct NodeId(u32);

impl NodeId {
    /// The arena index this handle designates.
    pub closed spec fn index(self) -> nat {
        self.0 as nat
    }

    fn as_usize(self) -> (r: usize)
        ensures
            r == self.index(),
    {
        self.0 as usize
    }
}

enum Entry<Key, Value> {
    Occupied { key: Key, value: Value },
    Vacant,
}

impl<Key, Value> Entry<Key, Value> {
    /// Empties an occupied entry and hands back what it held.
    fn evict(&mut self) -> (r: (Key, Value))
        requires
            *old(self) is Occupied,
        ensures
            *final(self) is Vacant,
            r == ((*old(self))->Occupied_key, (*old(self))->Occupied_value),
    {
        let mut entry = Entry::Vacant;
        std::mem::swap(&mut entry, self);
        match entry {
            Entry::Occupied { key, value } => (key, value),
            Entry::Vacant => vstd::pervasive::unreached(),
        }
    }
}

/// One slot of the node arena: an entry, its neighbours in the recency list,
/// and the counter value at its last touch.
pub struct Node<Key, Value> {
    entry: Entry<Key, Value>,
    previous: Option<NodeId>,
    next: Option<NodeId>,
    last_accessed: usize,
}

impl<Key, Value> Node<Key, Value> {
    /// Whether the slot holds an entry.
    pub closed spec fn is_occupied(&self) -> bool {
        self.entry is Occupied
    }

    /// The key held by an occupied slot.
    pub closed spec fn key_spec(&self) -> Key {
        self.entry->Occupied_key
    }

    /// The value held by an occupied slot.
    pub closed spec fn value_spec(&self) -> Value {
        self.entry->Occupied_value
    }

    /// The counter value recorded at the slot's last touch.
    pub closed spec fn last_accessed_spec(&self) -> usize {
        self.last_accessed
    }

    /// This slot with the value replaced and everything else kept.
    pub closed spec fn with_value(self, value: Value) -> Node<Key, Value> {
        Node { entry: Entry::Occupied { key: self.key_spec(), value }, ..self }
    }

    /// Replacing the value keeps the key, the occupancy and the counter value
    /// of the last touch.
    pub proof fn lemma_with_value(self, value: Value)
        ensures
            self.with_value(value).is_occupied(),
            self.with_value(value).key_spec() == self.key_spec(),
            self.with_value(value).value_spec() == value,
            self.with_value(value).last_accessed_spec() == self.last_accessed_spec(),
    {
    }

    /// Returns the counter value recorded when this node was last touched.
    pub fn last_accessed(&self) -> (r: usize)
        ensures
            r == self.last_accessed_spec(),
    {
        self.last_accessed
    }

    /// Returns the key stored in this node.
    pub fn key(&self) -> (r: &Key)
        requires
            self.is_occupied(),
        ensures
            *r == self.key_spec(),
    {
        match &self.entry {
            Entry::Occupied { key, .. } => key,
            Entry::Vacant => vstd::pervasive::unreached(),
        }
    }

    /// Returns the value stored in this node.
    pub fn value(&self) -> (r: &Value)
        requires
            self.is_occupied(),
        ensures
            *r == self.value_spec(),
    {
        match &self.entry {
            Entry::Occupied { value, .. } => value,
            Entry::Vacant => vstd::pervasive::unreached(),
        }
    }

    /// Returns the value stored in this node for modification.
    pub fn value_mut(&mut self) -> (r: &mut Value)
        requires
            old(self).is_occupied(),
        ensures
            *r == old(self).value_spec(),
            *final(self) == old(self).with_value(*final(r)),
            final(self).is_occupied(),
            final(self).key_spec() == old(self).key_spec(),
            final(self).value_spec() == *final(r),
            final(self).last_accessed_spec() == old(self).last_accessed_spec(),
    {
        match &mut self.entry {
            Entry::Occupied { value, .. } => value,
            Entry::Vacant => vstd::pervasive::unreached(),
        }
    }

    /// Stores `new_value` in this node and returns the value it replaced.
    pub fn replace_value(&mut self, new_value: Value) -> (r: Value)
        requires
            old(self).is_occupied(),
        ensures
            r == old(self).value_spec(),
            *final(self) == old(self).with_value(new_value),
            final(self).is_occupied(),
            final(self).key_spec() == old(self).key_spec(),
            final(self).value_spec() == new_value,
            final(self).last_accessed_spec() == old(self).last_accessed_spec(),
    {
        let mut new_value = new_value;
        match &mut self.entry {
            Entry::Occupied { value, .. } => {
                std::mem::swap(value, &mut new_value);
                new_value
            },
            Entry::Vacant => vstd::pervasive::unreached(),
        }
    }
}

/// What a write displaced.
#[derive(Debug, PartialEq, Eq)]
pub enum Removed<Key, Value> {
    /// The value previously stored under the key that was written.
    PreviousValue(Value),
    /// An entry evicted to make room for the key that was written.
    Evicted(Key, Value),
}

/// The recency engine: a fixed-capacity arena of nodes threaded into a doubly
/// linked list from the most to the least recently used entry, with a free
/// list of vacant slots.
pub struct LruCache<Key, Value> {
    nodes: Vec<Node<Key, Value>>,
    head: Option<NodeId>,
    tail: Option<NodeId>,
    vacant: Option<NodeId>,
    sequence: usize,
    length: usize,
    capacity: usize,
    order: Ghost<Seq<NodeId>>,
    free: Ghost<Seq<NodeId>>,
    clock: Ghost<nat>,
    stamps: Ghost<Map<NodeId, nat>>,
}

impl<Key, Value> View for LruCache<Key, Value> {
    type V = CacheView<Key, Value>;

    closed spec fn view(&self) -> CacheView<Key, Value> {
        CacheView {
            order: self.order@,
            slots: Map::new(
                |id: NodeId| self.order@.contains(id),
                |id: NodeId| (self.node(id).key_spec(), self.node(id).value_spec()),
            ),
            stamps: Map::new(|id: NodeId| self.order@.contains(id), |id: NodeId| self.stamps@[id]),
            clock: self.clock@,
            capacity: self.capacity as nat,
        }
    }
}

impl<Key, Value> LruCache<Key, Value> {
    spec fn node(&self, id: NodeId) -> Node<Key, Value> {
        self.nodes@[id.index() as int]
    }

    spec fn first_of(s: Seq<NodeId>) -> Option<NodeId> {
        if s.len() == 0 {
            None
        } else {
            Some(s[0])
        }
    }

    spec fn last_of(s: Seq<NodeId>) -> Option<NodeId> {
        if s.len() == 0 {
            None
        } else {
            Some(s.last())
        }
    }

    /// Position `i` of the recency list is an occupied slot linked to its
    /// neighbours, with a stamp that the counter agrees with.
    spec fn linked(&self, i: int) -> bool {
        let ord = self.order@;
        let id = ord[i];
        &&& id.index() < self.nodes@.len()
        &&& self.node(id).entry is Occupied
        &&& self.node(id).previous == if i == 0 { None } else { Some(ord[i - 1]) }
        &&& self.node(id).next == if i + 1 == ord.len() { None } else { Some(ord[i + 1]) }
        &&& self.stamps@.contains_key(id)
        &&& self.stamps@[id] <= self.clock@
        &&& self.node(id).last_accessed as nat == wrapped(self.stamps@[id])
    }

    /// Position `i` of the free list is a vacant slot linked to the next one.
    spec fn chained(&self, i: int) -> bool {
        let free = self.free@;
        let id = free[i];
        &&& id.index() < self.nodes@.len()
        &&& self.node(id).entry is Vacant
        &&& self.node(id).next == if i + 1 == free.len() { None } else { Some(free[i + 1]) }
    }

    /// The invariant, allowing one occupied slot `detached` that is in
    /// neither list.
    spec fn parts(&self, detached: Option<NodeId>) -> bool {
        let ord = self.order@;
        let free = self.free@;
        let n = self.nodes@.len();
        &&& 2 <= self.capacity <= u32::MAX
        &&& n <= self.capacity
        &&& ord.len() + free.len() + (if detached is Some { 1int } else { 0int }) == n
        &&& self.length == ord.len() + (if detached is Some { 1int } else { 0int })
        &&& ord.no_duplicates()
        &&& free.no_duplicates()
        &&& forall|i: int| 0 <= i < ord.len() ==> #[trigger] self.linked(i)
        &&& forall|i: int| 0 <= i < free.len() ==> #[trigger] self.chained(i)
        &&& forall|i: int, j: int|
            0 <= i < j < ord.len() ==> self.stamps@[#[trigger] ord[i]] > self.stamps@[#[trigger] ord[j]]
        &&& match detached {
            Some(d) => {
                &&& d.index() < n
                &&& self.node(d).entry is Occupied
                &&& !ord.contains(d)
            },
            None => true,
        }
        &&& self.head == Self::first_of(ord)
        &&& self.tail == Self::last_of(ord)
        &&& self.vacant == Self::first_of(free)
        &&& self.sequence as nat == wrapped(self.clock@)
    }

    /// The cache's invariant.
    pub closed spec fn wf(&self) -> bool {
        self.parts(None)
    }

    /// What the invariant tells of the view.
    pub proof fn lemma_view(&self)
        requires
            self.wf(),
        ensures
            self@.order.no_duplicates(),
            self@.order.len() <= self@.capacity,
            2 <= self@.capacity <= u32::MAX,
            forall|x: NodeId| #[trigger] self@.slots.contains_key(x) <==> self@.order.contains(x),
            forall|x: NodeId| #[trigger] self@.stamps.contains_key(x) <==> self@.order.contains(x),
            forall|x: NodeId| self@.order.contains(x) ==> #[trigger] self@.stamps[x] <= self@.clock,
            forall|i: int, j: int|
                0 <= i < j < self@.order.len() ==> self@.stamps[#[trigger] self@.order[i]]
                    > self@.stamps[#[trigger] self@.order[j]],
            self@.sound(),
    {
        assert forall|x: NodeId| self@.order.contains(x) implies #[trigger] self@.stamps[x] <= self@.clock by {
            let k = choose|k: int| 0 <= k < self.order@.len() && self.order@[k] == x;
            assert(self.linked(k));
        }
    }

    /// Returns the slot after `node` in the recency order.
    fn next_of(&self, node: NodeId) -> (r: Option<NodeId>)
        requires
            self.wf(),
            self@.order.contains(node),
        ensures
            r == self@.next_of(node),
    {
        proof {
            let i = self.order@.index_of(node);
            assert(self.linked(i));
        }
        self.nodes[node.as_usize()].next
    }

    /// Returns the slot before `node` in the recency order.
    fn previous_of(&self, node: NodeId) -> (r: Option<NodeId>)
        requires
            self.wf(),
            self@.order.contains(node),
        ensures
            r == self@.previous_of(node),
    {
        proof {
            let i = self.order@.index_of(node);
            assert(self.linked(i));
        }
        self.nodes[node.as_usize()].previous
    }

    /// Creates an empty cache that holds at most `capacity` entries.
    pub fn new(capacity: usize) -> (r: Self)
        requires
            2 <= capacity <= u32::MAX,
        ensures
            r.wf(),
            r@.order.len() == 0,
            r@.clock == 0,
            r@.capacity == capacity,
    {
        LruCache {
            nodes: Vec::with_capacity(capacity),
            head: None,
            tail: None,
            vacant: None,
            sequence: 0,
            length: 0,
            capacity,
            order: Ghost(Seq::empty()),
            free: Ghost(Seq::empty()),
            clock: Ghost(0),
            stamps: Ghost(Map::empty()),
        }
    }

    /// Returns the number of entries.
    pub fn len(&self) -> (r: usize)
        requires
            self.wf(),
        ensures
            r == self@.order.len(),
    {
        self.length
    }

    /// Returns the modification counter, which wraps.
    pub fn sequence(&self) -> (r: usize)
        requires
            self.wf(),
        ensures
            r == wrapped(self@.clock),
    {
        self.sequence
    }

    /// Returns the most recently used node, if any.
    pub fn head(&self) -> (r: Option<NodeId>)
        requires
            self.wf(),
        ensures
            r == (if self@.order.len() == 0 { None } else { Some(self@.order[0]) }),
    {
        self.head
    }

    /// Returns the least recently used node, if any.
    pub fn tail(&self) -> (r: Option<NodeId>)
        requires
            self.wf(),
        ensures
            r == (if self@.order.len() == 0 { None } else { Some(self@.order.last()) }),
    {
        self.tail
    }

    /// The links `touch` writes put the list in its new order.
    proof fn lemma_touch_links(&self, pre: Self, id: NodeId, p: int)
        requires
            pre.wf(),
            0 < p < pre.order@.len(),
            pre.order@[p] == id,
            self.order@ == moved_to_front(pre.order@, id),
            self.free@ == pre.free@,
            self.clock@ == pre.clock@ + 1,
            self.stamps@ == pre.stamps@.insert(id, self.clock@),
            self.sequence as nat == wrapped(self.clock@),
            self.capacity == pre.capacity,
            self.length == pre.length,
            self.vacant == pre.vacant,
            self.head == Some(id),
            self.tail == (if p + 1 == pre.order@.len() { Some(pre.order@[p - 1]) } else { pre.tail }),
            self.nodes@.len() == pre.nodes@.len(),
            forall|x: NodeId| #![trigger self.node(x)]
                x.index() < pre.nodes@.len() && x != id && x != pre.order@[p - 1] && x
                    != pre.order@[0] && (p + 1 < pre.order@.len() ==> x != pre.order@[p + 1])
                    ==> self.node(x) == pre.node(x),
            self.node(id).entry == pre.node(id).entry,
            self.node(id).previous is None,
            self.node(id).next == Some(pre.order@[0]),
            self.node(id).last_accessed == self.sequence,
            self.node(pre.order@[p - 1]).entry == pre.node(pre.order@[p - 1]).entry,
            self.node(pre.order@[p - 1]).last_accessed == pre.node(pre.order@[p - 1]).last_accessed,
            self.node(pre.order@[p - 1]).next == (if p + 1 == pre.order@.len() { None } else { Some(pre.order@[p + 1]) }),
            self.node(pre.order@[p - 1]).previous == (if p == 1 { Some(id) } else { pre.node(pre.order@[p - 1]).previous }),
            self.node(pre.order@[0]).entry == pre.node(pre.order@[0]).entry,
            self.node(pre.order@[0]).last_accessed == pre.node(pre.order@[0]).last_accessed,
            self.node(pre.order@[0]).previous == Some(id),
            p > 1 ==> self.node(pre.order@[0]).next == pre.node(pre.order@[0]).next,
            p + 1 < pre.order@.len() ==> {
                &&& self.node(pre.order@[p + 1]).entry == pre.node(pre.order@[p + 1]).entry
                &&& self.node(pre.order@[p + 1]).last_accessed == pre.node(pre.order@[p + 1]).last_accessed
                &&& self.node(pre.order@[p + 1]).next == pre.node(pre.order@[p + 1]).next
                &&& self.node(pre.order@[p + 1]).previous == Some(pre.order@[p - 1])
            },
        ensures
            self.wf(),
            forall|x: NodeId| self.order@.contains(x) <==> pre.order@.contains(x),
            forall|x: NodeId| pre.order@.contains(x) ==> self.node(x).entry == pre.node(x).entry,
    {
        let o = pre.order@;
        let o2 = self.order@;
        let len = o.len();
        let src = |k: int| if k == 0 { p } else if k <= p { k - 1 } else { k };
        assert(o.remove(p).len() == len - 1);
        assert(o2.len() == len);
        assert forall|k: int| 0 <= k < len implies #[trigger] o2[k] == o[src(k)] by {
            if k > 0 {
                assert(o2[k] == o.remove(p)[k - 1]);
            }
        }
        assert(o.index_of(id) == p) by {
            let q = o.index_of(id);
            assert(o.contains(id));
            assert(o[q] == id);
        }
        assert forall|i: int, j: int| 0 <= i < j < len implies o2[i] != o2[j] by {
            assert(o2[i] == o[src(i)]);
            assert(o2[j] == o[src(j)]);
        }
        assert(o2.no_duplicates());
        assert forall|k: int| 0 <= k < len implies #[trigger] self.linked(k) by {
            assert(o2[k] == o[src(k)]);
            assert(pre.linked(src(k)));
            if k > 0 {
                assert(o2[k - 1] == o[src(k - 1)]);
            }
            if k + 1 < len {
                assert(o2[k + 1] == o[src(k + 1)]);
            }
            if 0 < k && k <= p {
                assert(pre.linked(k - 1));
            }
            if k == p + 1 {
                assert(pre.linked(p - 1));
            }
        }
        assert forall|i: int| 0 <= i < self.free@.len() implies #[trigger] self.chained(i) by {
            assert(pre.chained(i));
            let f = self.free@[i];
            assert(pre.linked(p));
            assert(pre.linked(p - 1));
            assert(pre.linked(0));
            if p + 1 < len {
                assert(pre.linked(p + 1));
            }
            assert(f != id);
            assert(f != o[p - 1]);
            assert(f != o[0]);
            if p + 1 < len {
                assert(f != o[p + 1]);
            }
        }
        assert forall|i: int, j: int| 0 <= i < j < len implies self.stamps@[#[trigger] o2[i]]
            > self.stamps@[#[trigger] o2[j]] by {
            assert(o2[i] == o[src(i)]);
            assert(o2[j] == o[src(j)]);
            assert(pre.linked(src(i)));
            assert(pre.linked(src(j)));
        }
        assert forall|x: NodeId| self.order@.contains(x) implies pre.order@.contains(x) by {
            let k = choose|k: int| 0 <= k < len && o2[k] == x;
            assert(o2[k] == o[src(k)]);
        }
        assert forall|x: NodeId| pre.order@.contains(x) implies self.order@.contains(x)
            && self.node(x).entry == pre.node(x).entry by {
            let k = choose|k: int| 0 <= k < len && o[k] == x;
            let k2 = if k == p { 0 } else if k < p { k + 1 } else { k };
            assert(o2[k2] == o[src(k2)]);
            assert(pre.linked(k));
        }
    }

    /// Makes `node_index` the most recently used entry.
    pub fn touch(&mut self, node_index: NodeId)
        requires
            old(self).wf(),
            old(self)@.order.contains(node_index),
        ensures
            final(self).wf(),
            final(self)@ == old(self)@.touched(node_index),
    {
        if self.head == Some(node_index) {
            return;
        }
        let ghost ord = self.order@;
        let ghost p = ord.index_of(node_index);
        proof {
            assert(self.linked(p));
            assert(self.linked(0));
            assert(self.linked(p - 1));
            if p + 1 < ord.len() {
                assert(self.linked(p + 1));
            }
            lemma_wrapped_succ(self.clock@);
        }

        self.sequence = self.sequence.wrapping_add(1);
        proof {
            self.clock@ = self.clock@ + 1;
        }
        let idx = node_index.as_usize();
        self.nodes[idx].last_accessed = self.sequence;

        let mut next = self.head;
        std::mem::swap(&mut next, &mut self.nodes[idx].next);
        let previous = self.nodes[idx].previous.take().unwrap();
        self.nodes[previous.as_usize()].next = next;
        if self.tail == Some(node_index) {
            self.tail = Some(previous);
        } else {
            self.nodes[next.unwrap().as_usize()].previous = Some(previous);
        }
        let head = self.head.unwrap();
        self.nodes[head.as_usize()].previous = Some(node_index);
        self.head = Some(node_index);
        proof {
            self.order@ = moved_to_front(ord, node_index);
            self.stamps@ = self.stamps@.insert(node_index, self.clock@);
            self.lemma_touch_links(*old(self), node_index, p);
            assert(self@.slots =~= old(self)@.slots);
            assert(self@.stamps =~= old(self)@.stamps.insert(node_index, self.clock@));
        }
    }

    /// Takes a slot for `(key, value)`: a vacant one, a new one, or, when
    /// the arena is full, the least recently used one, whose entry is returned.
    /// The slot is left out of the recency list.
    fn allocate_node(&mut self, key: Key, value: Value) -> (r: (NodeId, Option<(Key, Value)>))
        requires
            old(self).wf(),
        ensures
            final(self).parts(Some(r.0)),
            final(self).node(r.0).entry == (Entry::Occupied { key, value }),
            final(self).clock@ == old(self).clock@,
            final(self).stamps@ == old(self).stamps@,
            final(self).capacity == old(self).capacity,
            old(self).free@.len() > 0 ==> r.0 == old(self).free@[0],
            old(self).free@.len() == 0 && !old(self)@.is_full() ==> r.0.index() == old(self).nodes@.len(),
            forall|x: NodeId| #[trigger] final(self).order@.contains(x) ==> final(self).node(x).entry == old(self).node(x).entry,
            if old(self)@.is_full() {
                &&& r.0 == old(self).order@.last()
                &&& final(self).order@ == old(self).order@.drop_last()
                &&& r.1 == Some(old(self)@.slots[r.0])
            } else {
                &&& !old(self).order@.contains(r.0)
                &&& final(self).order@ == old(self).order@
                &&& r.1 is None
            },
    {
        let ghost ord = self.order@;
        let ghost free = self.free@;
        if let Some(vacant) = self.vacant {
            proof {
                assert(self.chained(0));
                if free.len() > 1 {
                    assert(self.chained(1));
                }
                assert(!ord.contains(vacant)) by {
                    if ord.contains(vacant) {
                        let k = choose|k: int| 0 <= k < ord.len() && ord[k] == vacant;
                        assert(self.linked(k));
                    }
                }
            }
            let idx = vacant.as_usize();
            self.vacant = self.nodes[idx].next;
            self.nodes[idx].next = None;
            self.nodes[idx].entry = Entry::Occupied { key, value };
            self.length = self.length + 1;
            proof {
                self.free@ = free.drop_first();
                assert forall|i: int| 0 <= i < self.free@.len() implies #[trigger] self.chained(i) by {
                    assert(old(self).chained(i + 1));
                    assert(old(self).chained(0));
                    assert(self.free@[i] == free[i + 1]);
                }
                assert forall|i: int| 0 <= i < ord.len() implies #[trigger] self.linked(i) by {
                    assert(old(self).linked(i));
                }
                assert(self.free@.no_duplicates()) by {
                    assert forall|i: int, j: int| 0 <= i < j < self.free@.len() implies self.free@[i] != self.free@[j] by {
                        assert(self.free@[i] == free[i + 1]);
                        assert(self.free@[j] == free[j + 1]);
                    }
                }
                assert forall|x: NodeId| #[trigger] self.order@.contains(x) implies self.node(x).entry == old(self).node(x).entry by {
                    let k = choose|k: int| 0 <= k < ord.len() && ord[k] == x;
                    assert(old(self).linked(k));
                }
            }
            (vacant, None)
        } else if self.nodes.len() == self.capacity {
            proof {
                assert(ord.len() >= 2);
                assert(self.linked(ord.len() - 1));
                assert(self.linked(ord.len() - 2));
            }
            let index = self.tail.unwrap();
            let idx = index.as_usize();
            self.tail = self.nodes[idx].previous;
            if let Some(previous) = self.tail {
                self.nodes[previous.as_usize()].next = None;
            }
            self.nodes[idx].previous = None;
            let mut entry = Entry::Occupied { key, value };
            std::mem::swap(&mut entry, &mut self.nodes[idx].entry);
            proof {
                self.order@ = ord.drop_last();
                let last = ord.len() - 1;
                assert forall|i: int| 0 <= i < self.order@.len() implies #[trigger] self.linked(i) by {
                    assert(old(self).linked(i));
                    assert(ord[i] != ord[last]);
                    if i + 1 < self.order@.len() {
                        assert(old(self).linked(i + 1));
                    }
                }
                assert forall|i: int| 0 <= i < free.len() implies #[trigger] self.chained(i) by {
                    assert(old(self).chained(i));
                }
                assert(!self.order@.contains(index)) by {
                    if self.order@.contains(index) {
                        let k = choose|k: int| 0 <= k < self.order@.len() && self.order@[k] == index;
                        assert(ord[k] == ord[last]);
                    }
                }
                assert forall|x: NodeId| #[trigger] self.order@.contains(x) implies self.node(x).entry == old(self).node(x).entry by {
                    let k = choose|k: int| 0 <= k < self.order@.len() && self.order@[k] == x;
                    assert(old(self).linked(k));
                    assert(ord[k] != ord[last]);
                }
                assert(self.order@.no_duplicates()) by {
                    assert forall|i: int, j: int| 0 <= i < j < self.order@.len() implies self.order@[i] != self.order@[j] by {
                        assert(ord[i] != ord[j]);
                    }
                }
                assert(old(self).node(index).entry == entry);
            }
            match entry {
                Entry::Occupied { key, value } => (index, Some((key, value))),
                Entry::Vacant => (index, None),
            }
        } else {
            let index = NodeId(self.nodes.len() as u32);
            self.length = self.length + 1;
            self.nodes.push(
                Node {
                    entry: Entry::Occupied { key, value },
                    previous: None,
                    next: None,
                    last_accessed: self.sequence,
                },
            );
            proof {
                assert(self.node(index) == self.nodes@.last());
                assert forall|i: int| 0 <= i < ord.len() implies #[trigger] self.linked(i) by {
                    assert(old(self).linked(i));
                }
                assert forall|i: int| 0 <= i < free.len() implies #[trigger] self.chained(i) by {
                    assert(old(self).chained(i));
                }
                assert(!ord.contains(index)) by {
                    if ord.contains(index) {
                        let k = choose|k: int| 0 <= k < ord.len() && ord[k] == index;
                        assert(old(self).linked(k));
                    }
                }
                assert forall|x: NodeId| #[trigger] self.order@.contains(x) implies self.node(x).entry == old(self).node(x).entry by {
                    let k = choose|k: int| 0 <= k < ord.len() && ord[k] == x;
                    assert(old(self).linked(k));
                }
            }
            (index, None)
        }
    }

    /// Links the slot left out by `allocate_node` in at the front of the
    /// recency list, stamped with the next counter value.
    fn push_front(&mut self, node: NodeId)
        requires
            old(self).parts(Some(node)),
        ensures
            final(self).wf(),
            final(self).order@ == seq![node] + old(self).order@,
            final(self).clock@ == old(self).clock@ + 1,
            final(self).stamps@ == old(self).stamps@.insert(node, final(self).clock@),
            final(self).capacity == old(self).capacity,
            final(self).nodes@.len() == old(self).nodes@.len(),
            forall|x: NodeId| x.index() < old(self).nodes@.len() ==> #[trigger] final(self).node(x).entry == old(self).node(x).entry,
    {
        let ghost ord = self.order@;
        proof {
            lemma_wrapped_succ(self.clock@);
            if ord.len() > 0 {
                assert(self.linked(0));
            }
        }
        self.sequence = self.sequence.wrapping_add(1);
        let idx = node.as_usize();
        self.nodes[idx].last_accessed = self.sequence;
        self.nodes[idx].previous = None;
        self.nodes[idx].next = self.head;
        match self.head {
            Some(head) => {
                self.nodes[head.as_usize()].previous = Some(node);
            },
            None => {
                self.tail = Some(node);
            },
        }
        self.head = Some(node);
        proof {
            self.clock@ = self.clock@ + 1;
            self.stamps@ = self.stamps@.insert(node, self.clock@);
            self.order@ = seq![node] + ord;
            let o2 = self.order@;
            assert forall|k: int| 0 <= k < o2.len() implies #[trigger] self.linked(k) by {
                if k > 0 {
                    assert(o2[k] == ord[k - 1]);
                    assert(old(self).linked(k - 1));
                    assert(ord[k - 1] != node);
                    if k > 1 {
                        assert(o2[k - 1] == ord[k - 2]);
                        assert(old(self).linked(0));
                        assert(ord[k - 1] != ord[0]);
                    }
                    if k + 1 < o2.len() {
                        assert(o2[k + 1] == ord[k]);
                    }
                }
            }
            assert forall|i: int| 0 <= i < self.free@.len() implies #[trigger] self.chained(i) by {
                assert(old(self).chained(i));
                if ord.len() > 0 {
                    assert(old(self).linked(0));
                }
            }
            assert forall|i: int, j: int| 0 <= i < j < o2.len() implies self.stamps@[#[trigger] o2[i]]
                > self.stamps@[#[trigger] o2[j]] by {
                assert(o2[j] == ord[j - 1]);
                assert(old(self).linked(j - 1));
                if i > 0 {
                    assert(o2[i] == ord[i - 1]);
                }
            }
            assert(o2.no_duplicates()) by {
                assert forall|i: int, j: int| 0 <= i < j < o2.len() implies o2[i] != o2[j] by {
                    assert(o2[j] == ord[j - 1]);
                    if i > 0 {
                        assert(o2[i] == ord[i - 1]);
                    }
                }
            }
            assert forall|x: NodeId| x.index() < old(self).nodes@.len() implies #[trigger] self.node(x).entry == old(self).node(x).entry by {
                assert(self.nodes@[x.index() as int].entry == old(self).nodes@[x.index() as int].entry);
            }
        }
    }

    /// Inserts `(key, value)` as the most recently used entry. When the cache
    /// is full, the least recently used entry makes room and is returned.
    pub fn push(&mut self, key: Key, value: Value) -> (r: (NodeId, Option<Removed<Key, Value>>))
        requires
            old(self).wf(),
        ensures
            final(self).wf(),
            final(self)@ == old(self)@.pushed(r.0, key, value),
            if old(self)@.is_full() {
                &&& r.0 == old(self)@.order.last()
                &&& r.1 == Some(Removed::Evicted(old(self)@.slots[r.0].0, old(self)@.slots[r.0].1))
            } else {
                &&& !old(self)@.order.contains(r.0)
                &&& r.1 is None
            },
    {
        let (node, result) = self.allocate_node(key, value);
        let ghost mid = *self;
        self.push_front(node);
        proof {
            let pre = old(self)@;
            let post = self@;
            let expect = pre.pushed(node, key, value);
            assert(post.order =~= expect.order);
            assert forall|x: NodeId| post.slots.contains_key(x) <==> expect.slots.contains_key(x) by {
                if pre.is_full() {
                    if x != node && pre.order.contains(x) {
                        let k = choose|k: int| 0 <= k < pre.order.len() && pre.order[k] == x;
                        assert(k != pre.order.len() - 1);
                        assert(post.order[k + 1] == x);
                    }
                } else {
                    if x != node && pre.order.contains(x) {
                        let k = choose|k: int| 0 <= k < pre.order.len() && pre.order[k] == x;
                        assert(post.order[k + 1] == x);
                    }
                }
                if post.order.contains(x) && x != node {
                    let k = choose|k: int| 0 <= k < post.order.len() && post.order[k] == x;
                    assert(post.order[k] == pre.order[k - 1]);
                }
            }
            assert forall|x: NodeId| post.slots.contains_key(x) implies post.slots[x] == expect.slots[x] by {
                if x != node {
                    let k = choose|k: int| 0 <= k < post.order.len() && post.order[k] == x;
                    assert(post.order[k] == mid.order@[k - 1]);
                    assert(mid.linked(k - 1));
                    assert(mid.order@.contains(x));
                    assert(old(self).order@.contains(x));
                }
            }
            assert(post.slots =~= expect.slots);
            assert(post.stamps =~= expect.stamps);
        }
        let removed = match result {
            Some((key, value)) => Some(Removed::Evicted(key, value)),
            None => None,
        };
        (node, removed)
    }

    /// Takes the entry in `node` out of the cache and returns it with the
    /// slots that were after and before it.
    #[verifier::rlimit(40)]
    pub fn remove(&mut self, node: NodeId) -> (r: ((Key, Value), Option<NodeId>, Option<NodeId>))
        requires
            old(self).wf(),
            old(self)@.order.contains(node),
        ensures
            final(self).wf(),
            final(self)@ == old(self)@.without(node),
            r.0 == old(self)@.slots[node],
            r.1 == old(self)@.next_of(node),
            r.2 == old(self)@.previous_of(node),
    {
        let ghost ord = self.order@;
        let ghost free = self.free@;
        let ghost p = ord.index_of(node);
        proof {
            assert(self.linked(p));
            if p > 0 {
                assert(self.linked(p - 1));
            }
            if p + 1 < ord.len() {
                assert(self.linked(p + 1));
            }
            if free.len() > 0 {
                assert(self.chained(0));
            }
        }
        self.length = self.length - 1;
        let idx = node.as_usize();
        let removed = self.nodes[idx].entry.evict();
        let mut next = self.vacant;
        std::mem::swap(&mut next, &mut self.nodes[idx].next);
        let previous = self.nodes[idx].previous.take();
        if let Some(previous) = previous {
            self.nodes[previous.as_usize()].next = next;
        }
        if let Some(next) = next {
            self.nodes[next.as_usize()].previous = previous;
        }
        if self.tail == Some(node) {
            self.tail = previous;
        }
        if self.head == Some(node) {
            self.head = next;
        }
        self.vacant = Some(node);
        proof {
            self.order@ = ord.remove(p);
            self.free@ = seq![node] + free;
            let o2 = self.order@;
            let f2 = self.free@;
            assert(o2.len() == ord.len() - 1);
            assert forall|k: int| 0 <= k < o2.len() implies #[trigger] o2[k] == ord[if k < p { k } else { k + 1 }] by {}
            assert forall|k: int| 0 <= k < o2.len() implies #[trigger] self.linked(k) by {
                let s = if k < p { k } else { k + 1 };
                assert(o2[k] == ord[s]);
                assert(old(self).linked(s));
                assert(ord[s] != node);
                if k > 0 {
                    let s1 = if k - 1 < p { k - 1 } else { k };
                    assert(o2[k - 1] == ord[s1]);
                }
                if k + 1 < o2.len() {
                    let s2 = if k + 1 < p { k + 1 } else { k + 2 };
                    assert(o2[k + 1] == ord[s2]);
                }
                if p > 0 {
                    assert(ord[s] != ord[p - 1] ==> s != p - 1);
                }
            }
            assert forall|i: int| 0 <= i < f2.len() implies #[trigger] self.chained(i) by {
                if i > 0 {
                    assert(f2[i] == free[i - 1]);
                    assert(old(self).chained(i - 1));
                    assert(free[i - 1] != node);
                    if p > 0 {
                        assert(free[i - 1] != ord[p - 1]);
                    }
                    if p + 1 < ord.len() {
                        assert(free[i - 1] != ord[p + 1]);
                    }
                    if i + 1 < f2.len() {
                        assert(f2[i + 1] == free[i]);
                    }
                } else if f2.len() > 1 {
                    assert(f2[1] == free[0]);
                }
            }
            assert forall|i: int, j: int| 0 <= i < j < o2.len() implies self.stamps@[#[trigger] o2[i]]
                > self.stamps@[#[trigger] o2[j]] by {
                assert(o2[i] == ord[if i < p { i } else { i + 1 }]);
                assert(o2[j] == ord[if j < p { j } else { j + 1 }]);
            }
            assert(o2.no_duplicates()) by {
                assert forall|i: int, j: int| 0 <= i < j < o2.len() implies o2[i] != o2[j] by {
                    assert(o2[i] == ord[if i < p { i } else { i + 1 }]);
                    assert(o2[j] == ord[if j < p { j } else { j + 1 }]);
                }
            }
            assert(f2.no_duplicates()) by {
                assert forall|i: int, j: int| 0 <= i < j < f2.len() implies f2[i] != f2[j] by {
                    assert(f2[j] == free[j - 1]);
                    assert(old(self).chained(j - 1));
                    if i > 0 {
                        assert(f2[i] == free[i - 1]);
                    }
                }
            }
            assert forall|x: NodeId| o2.contains(x) <==> (ord.contains(x) && x != node) by {
                if o2.contains(x) {
                    let k = choose|k: int| 0 <= k < o2.len() && o2[k] == x;
                    assert(o2[k] == ord[if k < p { k } else { k + 1 }]);
                }
                if ord.contains(x) && x != node {
                    let k = choose|k: int| 0 <= k < ord.len() && ord[k] == x;
                    assert(k != p);
                    let k2 = if k < p { k } else { k - 1 };
                    assert(o2[k2] == ord[if k2 < p { k2 } else { k2 + 1 }]);
                }
            }
            assert forall|x: NodeId| o2.contains(x) implies self.node(x).entry == old(self).node(x).entry by {
                let k = choose|k: int| 0 <= k < ord.len() && ord[k] == x;
                assert(old(self).linked(k));
            }
            assert(self@.slots =~= old(self)@.slots.remove(node));
            assert(self@.stamps =~= old(self)@.stamps.remove(node));
            assert(ord.index_of(node) == p);
        }
        (removed, next, previous)
    }

    /// Touches `node` and returns it.
    pub fn get(&mut self, node: NodeId) -> (r: &Node<Key, Value>)
        requires
            old(self).wf(),
            old(self)@.order.contains(node),
        ensures
            final(self).wf(),
            final(self)@ == old(self)@.touched(node),
            r.is_occupied(),
            r.key_spec() == old(self)@.slots[node].0,
            r.value_spec() == old(self)@.slots[node].1,
    {
        self.touch(node);
        self.get_without_touch(node)
    }

    /// Touches `node` and returns it for modification. The cache stays well
    /// formed when the caller changes nothing but the node's value.
    pub fn get_mut(&mut self, node: NodeId) -> (r: &mut Node<Key, Value>)
        requires
            old(self).wf(),
            old(self)@.order.contains(node),
        ensures
            r.is_occupied(),
            r.key_spec() == old(self)@.slots[node].0,
            r.value_spec() == old(self)@.slots[node].1,
            *final(r) == r.with_value(final(r).value_spec()) ==> {
                &&& final(self).wf()
                &&& final(self)@ == old(self)@.touched(node).with_value(node, final(r).value_spec())
            },
    {
        self.touch(node);
        let ghost mid = *self;
        proof {
            let i = self.order@.index_of(node);
            assert(self.linked(i));
        }
        let r = &mut self.nodes[node.as_usize()];
        proof {
            Self::lemma_value_swap(mid, *final(r), node);
        }
        r
    }

    /// Replacing only the value of an occupied slot keeps the invariant, and
    /// changes the view by that value alone.
    proof fn lemma_value_swap(pre: Self, changed: Node<Key, Value>, node: NodeId)
        requires
            pre.wf(),
            pre@.order.contains(node),
        ensures
            forall|post: Self|
                #![trigger post.wf()]
                #![trigger post.view()]
                post.nodes@ == pre.nodes@.update(node.index() as int, changed)
                && post.head == pre.head && post.tail == pre.tail && post.vacant == pre.vacant
                && post.sequence == pre.sequence && post.length == pre.length
                && post.capacity == pre.capacity && post.order == pre.order && post.free == pre.free
                && post.clock == pre.clock && post.stamps == pre.stamps
                && changed == pre.node(node).with_value(changed.value_spec()) ==> {
                    &&& post.wf()
                    &&& post@ == pre@.with_value(node, changed.value_spec())
                },
    {
        let i = pre.order@.index_of(node);
        assert(pre.linked(i));
        assert forall|post: Self|
            #![trigger post.wf()]
            #![trigger post.view()]
            post.nodes@ == pre.nodes@.update(node.index() as int, changed)
            && post.head == pre.head && post.tail == pre.tail && post.vacant == pre.vacant
            && post.sequence == pre.sequence && post.length == pre.length
            && post.capacity == pre.capacity && post.order == pre.order && post.free == pre.free
            && post.clock == pre.clock && post.stamps == pre.stamps
            && changed == pre.node(node).with_value(changed.value_spec()) implies {
                &&& post.wf()
                &&& post@ == pre@.with_value(node, changed.value_spec())
            } by {
            assert forall|k: int| 0 <= k < post.order@.len() implies #[trigger] post.linked(k) by {
                assert(pre.linked(k));
            }
            assert forall|k: int| 0 <= k < post.free@.len() implies #[trigger] post.chained(k) by {
                assert(pre.chained(k));
            }
            assert(post.node(node) == changed);
            assert forall|x: NodeId| #[trigger] post@.slots.contains_key(x) && x != node implies post.node(x) == pre.node(x) by {
                let k = choose|k: int| 0 <= k < pre.order@.len() && pre.order@[k] == x;
                assert(pre.linked(k));
                assert(x.index() != node.index());
            }
            assert(post@.slots =~= pre@.with_value(node, changed.value_spec()).slots);
        }
    }

    /// Returns an iterator over the entries from the most to the least
    /// recently used.
    pub fn iter(&self) -> (r: Iter<'_, Key, Value>)
        requires
            self.wf(),
        ensures
            r.wf(),
            r.source() == self@,
            r.front() == 0,
            r.back() == -1,
    {
        Iter { cache: self, node: IterState::BeforeHead }
    }

    /// Returns the node `node` without changing its recency.
    pub fn get_without_touch(&self, node: NodeId) -> (r: &Node<Key, Value>)
        requires
            self.wf(),
            self@.order.contains(node),
        ensures
            r.is_occupied(),
            r.key_spec() == self@.slots[node].0,
            r.value_spec() == self@.slots[node].1,
            r.last_accessed_spec() == wrapped(self@.stamps[node]),
    {
        let ghost i = self.order@.index_of(node);
        assert(self.linked(i));
        &self.nodes[node.as_usize()]
    }
}

/// Access that an entry cursor needs to the map that owns it.
pub trait EntryCache<Key, Value>: Sized {
    /// The owner's invariant.
    spec fn cache_wf(&self) -> bool;

    /// The state of the owner's recency engine.
    spec fn engine(&self) -> CacheView<Key, Value>;

    /// The owner's invariant keeps the engine's view sound, with each key
    /// held once.
    proof fn lemma_engine_sound(&self)
        requires
            self.cache_wf(),
        ensures
            self.engine().sound(),
            self.engine().keys().no_duplicates(),
    ;

    /// Returns the recency engine.
    fn cache(&self) -> (r: &LruCache<Key, Value>)
        requires
            self.cache_wf(),
        ensures
            r.wf(),
            r@ == self.engine(),
    ;

    /// Touches `node`, making it the most recently used entry.
    fn touch(&mut self, node: NodeId)
        requires
            old(self).cache_wf(),
            old(self).engine().order.contains(node),
        ensures
            final(self).cache_wf(),
            final(self).engine() == old(self).engine().touched(node),
    ;

    /// Takes the entry in `node` out of the map and returns it with the slots
    /// that were after and before it.
    fn remove(&mut self, node: NodeId) -> (r: ((Key, Value), Option<NodeId>, Option<NodeId>))
        requires
            old(self).cache_wf(),
            old(self).engine().order.contains(node),
        ensures
            final(self).cache_wf(),
            final(self).engine() == old(self).engine().without(node),
            r.0 == old(self).engine().slots[node],
            r.1 == old(self).engine().next_of(node),
            r.2 == old(self).engine().previous_of(node),
    ;
}

/// A reference to an entry in a Least Recently Used map.
pub struct EntryRef<'a, Cache, Key, Value> where Cache: EntryCache<Key, Value> {
    cache: &'a mut Cache,
    node: NodeId,
    accessed: bool,
    _phantom: std::marker::PhantomData<(Key, Value)>,
}

impl<'a, Cache, Key, Value> EntryRef<'a, Cache, Key, Value> where Cache: EntryCache<Key, Value> {
    /// The map the cursor borrows, as it is now.
    pub closed spec fn owner(&self) -> Cache {
        *self.cache
    }

    /// The slot the cursor stands on.
    pub closed spec fn position(&self) -> NodeId {
        self.node
    }

    /// Whether `value` has touched the entry since the cursor came to it.
    pub closed spec fn has_accessed(&self) -> bool {
        self.accessed
    }

    /// The state of the owner's recency engine.
    pub open spec fn engine(&self) -> CacheView<Key, Value> {
        self.owner().engine()
    }

    /// The cursor stands on an entry of a well-formed map.
    pub open spec fn wf(&self) -> bool {
        &&& self.owner().cache_wf()
        &&& self.engine().order.contains(self.position())
    }

    pub(crate) fn new(cache: &'a mut Cache, node: NodeId) -> (r: Self)
        requires
            old(cache).cache_wf(),
            old(cache).engine().order.contains(node),
        ensures
            r.wf(),
            r.owner() == *old(cache),
            r.position() == node,
            !r.has_accessed(),
    {
        EntryRef { cache, node, accessed: false, _phantom: std::marker::PhantomData }
    }

    /// Returns the key of this entry.
    pub fn key(&self) -> (r: &Key)
        requires
            self.wf(),
        ensures
            *r == self.engine().slots[self.position()].0,
    {
        self.cache.cache().get_without_touch(self.node).key()
    }

    /// Returns the value of this entry. The first call after the cursor came
    /// to this entry touches it, making it the most recently used.
    pub fn value(&mut self) -> (r: &Value)
        requires
            old(self).wf(),
        ensures
            final(self).wf(),
            final(self).position() == old(self).position(),
            final(self).has_accessed(),
            final(self).engine() == if old(self).has_accessed() {
                old(self).engine()
            } else {
                old(self).engine().touched(old(self).position())
            },
            *r == old(self).engine().slots[old(self).position()].1,
    {
        if !self.accessed {
            self.accessed = true;
            self.touch();
        }
        self.cache.cache().get_without_touch(self.node).value()
    }

    /// Touches this entry, making it the most recently used.
    pub fn touch(&mut self)
        requires
            old(self).wf(),
        ensures
            final(self).wf(),
            final(self).engine() == old(self).engine().touched(old(self).position()),
            final(self).position() == old(self).position(),
            final(self).has_accessed() == old(self).has_accessed(),
    {
        proof {
            lemma_moved_to_front(self.engine().order, self.node);
        }
        self.cache.touch(self.node);
    }

    /// Returns the value of this entry without touching it.
    pub fn peek_value(&self) -> (r: &Value)
        requires
            self.wf(),
        ensures
            *r == self.engine().slots[self.position()].1,
    {
        self.cache.cache().get_without_touch(self.node).value()
    }

    /// Returns the number of changes to the map since this entry was last
    /// touched, as a counter that wraps.
    pub fn staleness(&self) -> (r: usize)
        requires
            self.wf(),
        ensures
            r == self.engine().staleness(self.position()),
    {
        let cache = self.cache.cache();
        proof {
            cache.lemma_view();
            lemma_wrapping_distance(cache@.clock, cache@.stamps[self.node]);
        }
        cache.sequence().wrapping_sub(cache.get_without_touch(self.node).last_accessed())
    }

    /// Returns an iterator over the less recently used entries, beginning
    /// with this one.
    pub fn iter(&self) -> (r: Iter<'_, Key, Value>)
        requires
            self.wf(),
        ensures
            r.wf(),
            r.source() == self.engine(),
            r.front() == self.engine().order.index_of(self.position()),
            r.back() == self.engine().order.index_of(self.position()) - 1,
    {
        Iter { cache: self.cache.cache(), node: IterState::StartingAt(self.node) }
    }

    /// Moves to the next less recently used entry. Returns false, and stays,
    /// at the least recently used entry.
    pub fn move_next(&mut self) -> (r: bool)
        requires
            old(self).wf(),
        ensures
            final(self).wf(),
            final(self).owner() == old(self).owner(),
            r == old(self).engine().next_of(old(self).position()) is Some,
            if r {
                &&& final(self).position() == old(self).engine().next_of(old(self).position())->Some_0
                &&& !final(self).has_accessed()
            } else {
                &&& final(self).position() == old(self).position()
                &&& final(self).has_accessed() == old(self).has_accessed()
            },
    {
        let cache = self.cache.cache();
        let next = cache.next_of(self.node);
        match next {
            Some(next) => {
                self.node = next;
                self.accessed = false;
                true
            },
            None => false,
        }
    }

    /// Moves to the next more recently used entry. Returns false, and stays,
    /// at the most recently used entry.
    pub fn move_previous(&mut self) -> (r: bool)
        requires
            old(self).wf(),
        ensures
            final(self).wf(),
            final(self).owner() == old(self).owner(),
            r == old(self).engine().previous_of(old(self).position()) is Some,
            if r {
                &&& final(self).position() == old(self).engine().previous_of(old(self).position())->Some_0
                &&& !final(self).has_accessed()
            } else {
                &&& final(self).position() == old(self).position()
                &&& final(self).has_accessed() == old(self).has_accessed()
            },
    {
        let cache = self.cache.cache();
        let previous = cache.previous_of(self.node);
        match previous {
            Some(previous) => {
                self.node = previous;
                self.accessed = false;
                true
            },
            None => false,
        }
    }

    fn remove_with_direction(self, move_next: bool) -> (r: ((Key, Value), Option<Self>))
        requires
            self.wf(),
        ensures
            r.0 == self.engine().slots[self.position()],
            match if move_next {
                self.engine().next_of(self.position())
            } else {
                self.engine().previous_of(self.position())
            } {
                Some(n) => r.1 is Some && {
                    let e = r.1->Some_0;
                    &&& e.wf()
                    &&& e.engine() == self.engine().without(self.position())
                    &&& e.position() == n
                    &&& e.has_accessed() == self.has_accessed()
                },
                None => r.1 is None,
            },
    {
        let c = self.cache.cache();
        proof {
            c.lemma_view();
            lemma_without_neighbours(self.engine(), self.node);
        }
        let mut this = self;
        let (removed, next, previous) = this.cache.remove(this.node);
        let new_self = match (move_next, next, previous) {
            (true, Some(next), _) => {
                this.node = next;
                Some(this)
            },
            (false, _, Some(previous)) => {
                this.node = previous;
                Some(this)
            },
            _ => None,
        };
        (removed, new_self)
    }

    /// Removes and returns the current entry's key and value.
    pub fn take(self) -> (r: (Key, Value))
        requires
            self.wf(),
        ensures
            r == self.engine().slots[self.position()],
    {
        let (removed, _) = self.remove_with_direction(true);
        removed
    }

    /// Removes and returns the current entry's key and value, with a cursor on
    /// the next less recently used entry if there is one.
    pub fn take_and_move_next(self) -> (r: ((Key, Value), Option<Self>))
        requires
            self.wf(),
        ensures
            r.0 == self.engine().slots[self.position()],
            match self.engine().next_of(self.position()) {
                Some(n) => r.1 is Some && {
                    let e = r.1->Some_0;
                    &&& e.wf()
                    &&& e.engine() == self.engine().without(self.position())
                    &&& e.position() == n
                },
                None => r.1 is None,
            },
    {
        self.remove_with_direction(true)
    }

    /// Removes and returns the current entry's key and value, with a cursor on
    /// the next more recently used entry if there is one.
    pub fn take_and_move_previous(self) -> (r: ((Key, Value), Option<Self>))
        requires
            self.wf(),
        ensures
            r.0 == self.engine().slots[self.position()],
            match self.engine().previous_of(self.position()) {
                Some(n) => r.1 is Some && {
                    let e = r.1->Some_0;
                    &&& e.wf()
                    &&& e.engine() == self.engine().without(self.position())
                    &&& e.position() == n
                },
                None => r.1 is None,
            },
    {
        self.remove_with_direction(false)
    }

    /// Removes the current entry, returning a cursor on the next less recently
    /// used entry if there is one.
    pub fn remove_moving_next(self) -> (r: Option<Self>)
        requires
            self.wf(),
        ensures
            match self.engine().next_of(self.position()) {
                Some(n) => r is Some && {
                    let e = r->Some_0;
                    &&& e.wf()
                    &&& e.engine() == self.engine().without(self.position())
                    &&& e.position() == n
                },
                None => r is None,
            },
    {
        let (_, new_self) = self.take_and_move_next();
        new_self
    }

    /// Removes the current entry, returning a cursor on the next more recently
    /// used entry if there is one.
    pub fn remove_moving_previous(self) -> (r: Option<Self>)
        requires
            self.wf(),
        ensures
            match self.engine().previous_of(self.position()) {
                Some(n) => r is Some && {
                    let e = r->Some_0;
                    &&& e.wf()
                    &&& e.engine() == self.engine().without(self.position())
                    &&& e.position() == n
                },
                None => r is None,
            },
    {
        let (_, new_self) = self.take_and_move_previous();
        new_self
    }
}

enum IterState {
    BeforeHead,
    AfterTail,
    StartingAt(NodeId),
    Node(NodeId),
}

/// A double-ended iterator over a cache's keys and values in order from most
/// recently touched to least recently touched.
pub struct Iter<'a, Key, Value> {
    cache: &'a LruCache<Key, Value>,
    node: IterState,
}

impl<'a, Key, Value> Iter<'a, Key, Value> {
    /// The state of the cache being walked.
    pub closed spec fn source(&self) -> CacheView<Key, Value> {
        self.cache@
    }

    /// The position, in the recency order, of the entry `next` yields; the
    /// length of the order when it yields nothing.
    pub closed spec fn front(&self) -> int {
        let ord = self.cache@.order;
        match self.node {
            IterState::BeforeHead => 0,
            IterState::AfterTail => ord.len() as int,
            IterState::StartingAt(n) => ord.index_of(n),
            IterState::Node(n) => ord.index_of(n) + 1,
        }
    }

    /// The position, in the recency order, of the entry `next_back` yields;
    /// -1 when it yields nothing.
    pub closed spec fn back(&self) -> int {
        let ord = self.cache@.order;
        match self.node {
            IterState::BeforeHead => -1,
            IterState::AfterTail => ord.len() - 1,
            IterState::StartingAt(n) => ord.index_of(n) - 1,
            IterState::Node(n) => ord.index_of(n) - 1,
        }
    }

    /// The iterator walks a well-formed cache from a position within it.
    pub closed spec fn wf(&self) -> bool {
        &&& self.cache.wf()
        &&& match self.node {
            IterState::StartingAt(n) => self.cache@.order.contains(n),
            IterState::Node(n) => self.cache@.order.contains(n),
            _ => true,
        }
    }

    /// Yields the entry at `front` and stands on it.
    pub fn next(&mut self) -> (r: Option<(&'a Key, &'a Value)>)
        requires
            old(self).wf(),
        ensures
            final(self).wf(),
            final(self).source() == old(self).source(),
            match r {
                Some((k, v)) => {
                    &&& 0 <= old(self).front() < old(self).source().order.len()
                    &&& (*k, *v) == old(self).source().entries()[old(self).front()]
                    &&& final(self).front() == old(self).front() + 1
                    &&& final(self).back() == old(self).front() - 1
                },
                None => {
                    &&& old(self).front() >= old(self).source().order.len()
                    &&& final(self).front() == old(self).source().order.len()
                    &&& final(self).back() == old(self).source().order.len() - 1
                },
            },
    {
        let cache: &'a LruCache<Key, Value> = self.cache;
        proof {
            cache.lemma_view();
            match self.node {
                IterState::StartingAt(n) => { assert(cache@.order[cache@.order.index_of(n)] == n); },
                IterState::Node(n) => { assert(cache@.order[cache@.order.index_of(n)] == n); },
                _ => {},
            }
        }
        let next_node = match self.node {
            IterState::BeforeHead => cache.head(),
            IterState::StartingAt(node) => Some(node),
            IterState::Node(node) => cache.next_of(node),
            IterState::AfterTail => None,
        };
        match next_node {
            Some(node_id) => {
                let node = cache.get_without_touch(node_id);
                self.node = IterState::Node(node_id);
                proof {
                    lemma_index_of_unique(cache@.order, old(self).front());
                }
                Some((node.key(), node.value()))
            },
            None => {
                self.node = IterState::AfterTail;
                None
            },
        }
    }

    /// Yields the entry at `back` and stands on it.
    pub fn next_back(&mut self) -> (r: Option<(&'a Key, &'a Value)>)
        requires
            old(self).wf(),
        ensures
            final(self).wf(),
            final(self).source() == old(self).source(),
            match r {
                Some((k, v)) => {
                    &&& 0 <= old(self).back() < old(self).source().order.len()
                    &&& (*k, *v) == old(self).source().entries()[old(self).back()]
                    &&& final(self).front() == old(self).back() + 1
                    &&& final(self).back() == old(self).back() - 1
                },
                None => {
                    &&& old(self).back() < 0
                    &&& final(self).front() == 0
                    &&& final(self).back() == -1
                },
            },
    {
        let cache: &'a LruCache<Key, Value> = self.cache;
        proof {
            cache.lemma_view();
            match self.node {
                IterState::StartingAt(n) => { assert(cache@.order[cache@.order.index_of(n)] == n); },
                IterState::Node(n) => { assert(cache@.order[cache@.order.index_of(n)] == n); },
                _ => {},
            }
        }
        let previous_node = match self.node {
            IterState::BeforeHead => None,
            IterState::StartingAt(node) => cache.previous_of(node),
            IterState::Node(node) => cache.previous_of(node),
            IterState::AfterTail => cache.tail(),
        };
        match previous_node {
            Some(node_id) => {
                let node = cache.get_without_touch(node_id);
                self.node = IterState::Node(node_id);
                proof {
                    lemma_index_of_unique(cache@.order, old(self).back());
                }
                Some((node.key(), node.value()))
            },
            None => {
                self.node = IterState::BeforeHead;
                None
            },
        }
    }
}

/// An iterator that drains a cache from the most to the least recently used
/// entry.
pub struct IntoIter<Key, Value> {
    cache: LruCache<Key, Value>,
}

impl<Key, Value> IntoIter<Key, Value> {
    /// The state of the cache still to be drained.
    pub closed spec fn source(&self) -> CacheView<Key, Value> {
        self.cache@
    }

    /// The iterator drains a well-formed cache.
    pub closed spec fn wf(&self) -> bool {
        self.cache.wf()
    }

    /// Starts draining `cache`.
    pub fn new(cache: LruCache<Key, Value>) -> (r: Self)
        requires
            cache.wf(),
        ensures
            r.wf(),
            r.source() == cache@,
    {
        IntoIter { cache }
    }

    /// Removes and returns the most recently used entry.
    pub fn next(&mut self) -> (r: Option<(Key, Value)>)
        requires
            old(self).wf(),
        ensures
            final(self).wf(),
            match r {
                Some(e) => {
                    &&& old(self).source().order.len() > 0
                    &&& e == old(self).source().entries()[0]
                    &&& final(self).source() == old(self).source().without(old(self).source().order[0])
                },
                None => {
                    &&& old(self).source().order.len() == 0
                    &&& final(self).source() == old(self).source()
                },
            },
    {
        match self.cache.head() {
            Some(node) => {
                let (removed, _, _) = self.cache.remove(node);
                Some(removed)
            },
            None => None,
        }
    }
}

} // verus!
