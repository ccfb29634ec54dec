use vstd::prelude::*;

verus! {

/// A generational handle into a [`Slab`]: a slot position plus the generation that was current
/// when the slot was filled.
#[derive(Copy, Clone, PartialEq, Eq, Structural, PartialOrd, Ord, Debug, Hash)]
pub struct Index {
    pub index: usize,
    pub generation: u64,
}

/// One cell of the arena: either threaded onto the free list, or holding an item.
#[derive(Debug)]
pub enum Slot<T> {
    Empty { next_free_slot: Option<usize> },
    Filled { item: T, generation: u64 },
}

/// A vector-backed arena with free-list recycling and a single, arena-wide generation counter.
///
/// The counter advances on every successful removal; every slot remembers the generation that
/// was current when it was filled. A handle resolves only while its slot still holds that same
/// generation, so a handle that outlived a removal never reaches the slot's next occupant.
#[derive(Debug)]
pub struct Slab<T> {
    data: Vec<Slot<T>>,
    first_free_slot: Option<usize>,
    generation: u64,
}

/// Relies on `Vec::capacity`: the documented guarantee that the capacity is never below the length.
#[verifier::external_body]
fn vec_capacity<X>(v: &Vec<X>) -> (r: usize)
    ensures
        r >= v@.len(),
{
    v.capacity()
}

impl<T> Slab<T> {
    /// The slots, in order.
    pub closed spec fn slots(&self) -> Seq<Slot<T>> {
        self.data@
    }

    /// The head of the free list.
    pub closed spec fn free_head(&self) -> Option<usize> {
        self.first_free_slot
    }

    /// The arena-wide generation counter.
    pub closed spec fn current_generation(&self) -> u64 {
        self.generation
    }

    /// What a handle resolves to: the item of a filled slot whose stamp matches the handle's.
    pub open spec fn lookup(&self, idx: Index) -> Option<T> {
        if idx.index < self.slots().len() {
            match self.slots()[idx.index as int] {
                Slot::Filled { item, generation } => {
                    if generation == idx.generation {
                        Some(item)
                    } else {
                        None
                    }
                },
                Slot::Empty { .. } => None,
            }
        } else {
            None
        }
    }

    /// The free list is a chain through empty slots only (nothing points at its head, and no two
    /// slots point at the same slot), and no slot carries a generation that the counter has not
    /// reached yet.
    pub open spec fn wf(&self) -> bool {
        &&& (self.free_head() matches Some(i) ==> i < self.slots().len()
            && self.slots()[i as int] is Empty)
        &&& forall|j: int|
            0 <= j < self.slots().len() ==> match #[trigger] self.slots()[j] {
                Slot::Empty { next_free_slot } => next_free_slot matches Some(k) ==> k
                    < self.slots().len() && self.slots()[k as int] is Empty,
                Slot::Filled { generation, .. } => generation <= self.current_generation(),
            }
        &&& forall|j: int|
            0 <= j < self.slots().len() ==> (#[trigger] self.slots()[j] matches Slot::Empty {
                next_free_slot: Some(k),
            } ==> self.free_head() != Some(k))
        &&& forall|j1: int, j2: int|
            0 <= j1 < self.slots().len() && 0 <= j2 < self.slots().len() && j1 != j2 ==> (
            #[trigger] self.slots()[j1] matches Slot::Empty { next_free_slot: Some(k1) } ==> (
            #[trigger] self.slots()[j2] matches Slot::Empty { next_free_slot: Some(k2) } ==> k1
                != k2))
    }

    /// What `insert` does: the item goes to the head of the free list, or to a new slot at the
    /// end when the list is empty, stamped with the current generation; only the new handle
    /// resolves differently afterwards.
    pub open spec fn inserted(pre: Self, item: T, post: Self, r: Index) -> bool {
        &&& r.generation == pre.current_generation()
        &&& post.current_generation() == pre.current_generation()
        &&& match pre.free_head() {
            Some(i) => {
                &&& r.index == i
                &&& post.slots() == pre.slots().update(
                    i as int,
                    Slot::Filled { item, generation: r.generation },
                )
                &&& post.free_head() == pre.slots()[i as int]->next_free_slot
            },
            None => {
                &&& r.index == pre.slots().len()
                &&& post.slots() == pre.slots().push(Slot::Filled { item, generation: r.generation })
                &&& post.free_head() is None
            },
        }
        &&& post.lookup(r) == Some(item)
        &&& forall|k: Index| k != r ==> post.lookup(k) == pre.lookup(k)
    }

    /// What `remove` does: a handle that resolves gives up its item, its slot becomes the new
    /// head of the free list and the generation advances; any other handle leaves the arena as
    /// it was.
    pub open spec fn removed(pre: Self, index: Index, post: Self, r: Option<T>) -> bool {
        &&& r == pre.lookup(index)
        &&& r is None ==> post == pre
        &&& r is Some ==> {
            &&& post.slots() == pre.slots().update(
                index.index as int,
                Slot::Empty { next_free_slot: pre.free_head() },
            )
            &&& post.free_head() == Some(index.index)
            &&& post.current_generation() == pre.current_generation() + 1
            &&& post.lookup(index) is None
            &&& forall|k: Index| k.index != index.index ==> post.lookup(k) == pre.lookup(k)
            &&& forall|k: Index| #[trigger] post.lookup(k) is Some ==> pre.lookup(k) is Some
        }
    }

    /// Creates an empty arena with room for `capacity` items before it reallocates.
    pub fn new(capacity: usize) -> (r: Slab<T>)
        ensures
            r.wf(),
            r.slots() == Seq::<Slot<T>>::empty(),
            r.free_head() is None,
            r.current_generation() == 0,
    {
        Slab { data: Vec::with_capacity(capacity), first_free_slot: None, generation: 0 }
    }

    /// How many slots the arena can hold before it must reallocate.
    pub fn capacity(&self) -> (r: usize)
        ensures
            r >= self.slots().len(),
    {
        vec_capacity(&self.data)
    }

    /// The number of slots, empty or filled.
    pub fn len(&self) -> (r: usize)
        ensures
            r == self.slots().len(),
    {
        self.data.len()
    }

    /// The head of the free list.
    pub fn first_free_slot(&self) -> (r: Option<usize>)
        ensures
            r == self.free_head(),
    {
        self.first_free_slot
    }

    /// The arena-wide generation counter.
    pub fn generation(&self) -> (r: u64)
        ensures
            r == self.current_generation(),
    {
        self.generation
    }

    /// The slot at position `i`, if there is one.
    pub fn slot(&self, i: usize) -> (r: Option<&Slot<T>>)
        ensures
            i < self.slots().len() ==> r == Some(&self.slots()[i as int]),
            i >= self.slots().len() ==> r is None,
    {
        if i < self.data.len() {
            Some(&self.data[i])
        } else {
            None
        }
    }

    /// Stores `item`, reusing the head of the free list if there is one, and returns its handle,
    /// stamped with the current generation.
    pub fn insert(&mut self, item: T) -> (r: Index)
        requires
            old(self).wf(),
        ensures
            final(self).wf(),
            Self::inserted(*old(self), item, *final(self), r),
    {
        let mut new_slot = Slot::Filled { item, generation: self.generation };
        match self.first_free_slot {
            Some(index) => {
                self.data.set_and_swap(index, &mut new_slot);
                match new_slot {
                    Slot::Empty { next_free_slot } => {
                        self.first_free_slot = next_free_slot;
                    },
                    Slot::Filled { .. } => {},
                }
                Index { index, generation: self.generation }
            },
            None => {
                self.data.push(new_slot);
                Index { index: self.data.len() - 1, generation: self.generation }
            },
        }
    }

    /// Takes the item out of the slot that `index` resolves to, threads the slot onto the free
    /// list and advances the generation. A handle that resolves to nothing (out of bounds, an
    /// empty slot, or a stale generation) leaves the arena untouched and yields `None`.
    pub fn remove(&mut self, index: Index) -> (r: Option<T>)
        requires
            old(self).wf(),
            old(self).current_generation() < u64::MAX,
        ensures
            final(self).wf(),
            Self::removed(*old(self), index, *final(self), r),
    {
        if index.index >= self.data.len() {
            return None;
        }
        let matches = match &self.data[index.index] {
            Slot::Filled { generation, .. } => *generation == index.generation,
            Slot::Empty { .. } => false,
        };
        if !matches {
            return None;
        }
        let mut old_slot = Slot::Empty { next_free_slot: self.first_free_slot };
        self.data.set_and_swap(index.index, &mut old_slot);
        self.generation = self.generation + 1;
        self.first_free_slot = Some(index.index);
        match old_slot {
            Slot::Filled { item, .. } => Some(item),
            Slot::Empty { .. } => None,
        }
    }

    /// The item that `index` resolves to, if any.
    pub fn get(&self, index: Index) -> (r: Option<&T>)
        ensures
            r is Some <==> self.lookup(index) is Some,
            r is Some ==> *r->Some_0 == self.lookup(index)->Some_0,
    {
        if index.index >= self.data.len() {
            return None;
        }
        match &self.data[index.index] {
            Slot::Filled { item, generation } => {
                if *generation == index.generation {
                    Some(item)
                } else {
                    None
                }
            },
            Slot::Empty { .. } => None,
        }
    }
    /// Mutable access to the item that `index` resolves to, if any. Whatever is written through
    /// the returned reference lands in that same slot; nothing else changes.
    pub fn get_mut(&mut self, index: Index) -> (r: Option<&mut T>)
        ensures
            r is Some <==> old(self).lookup(index) is Some,
            r is Some ==> *r->Some_0 == old(self).lookup(index)->Some_0,
            r is Some ==> final(self).slots() == old(self).slots().update(
                index.index as int,
                Slot::Filled { item: *final(r->Some_0), generation: index.generation },
            ),
            final(self).free_head() == old(self).free_head(),
            final(self).current_generation() == old(self).current_generation(),
            r is None ==> *final(self) == *old(self),
    {
        if index.index >= self.data.len() {
            return None;
        }
        let matches = match &self.data[index.index] {
            Slot::Filled { generation, .. } => *generation == index.generation,
            Slot::Empty { .. } => false,
        };
        if !matches {
            return None;
        }
        match &mut self.data[index.index] {
            Slot::Filled { item, .. } => Some(item),
            Slot::Empty { .. } => None,
        }
    }
}

/// A handle resolves to its item right after the insertion that produced it.
pub proof fn lemma_get_after_insert<T>(s0: Slab<T>, item: T, s1: Slab<T>, h: Index)
    requires
        Slab::inserted(s0, item, s1, h),
    ensures
        s1.lookup(h) == Some(item),
{
}

/// Once a handle's item is removed the handle resolves to nothing, and removing it again
/// returns nothing and leaves the arena unchanged.
pub proof fn lemma_remove_twice<T>(
    s0: Slab<T>,
    h: Index,
    s1: Slab<T>,
    r1: Option<T>,
    s2: Slab<T>,
    r2: Option<T>,
)
    requires
        Slab::removed(s0, h, s1, r1),
        Slab::removed(s1, h, s2, r2),
    ensures
        s1.lookup(h) is None,
        r2 is None,
        s2 == s1,
{
}

/// After a removal and a later insertion (which may reuse the freed slot), the new handle
/// carries a different generation from the removed one, the removed handle still resolves to
/// nothing, and the new one resolves to the new item.
pub proof fn lemma_insert_after_remove<T>(
    s0: Slab<T>,
    h: Index,
    s1: Slab<T>,
    r1: Option<T>,
    item: T,
    s2: Slab<T>,
    h2: Index,
)
    requires
        s0.wf(),
        Slab::removed(s0, h, s1, r1),
        r1 is Some,
        Slab::inserted(s1, item, s2, h2),
    ensures
        h2.generation != h.generation,
        s2.lookup(h) is None,
        s2.lookup(h2) == Some(item),
{
    assert(s0.slots()[h.index as int] matches Slot::Filled { .. });
}

/// A handle is stale when it resolves to nothing and the arena's generation counter has moved
/// past its stamp: its slot can only ever be refilled under a newer generation.
pub open spec fn is_stale<T>(s: Slab<T>, h: Index) -> bool {
    s.lookup(h) is None && h.generation < s.current_generation()
}

/// Removing the item of a handle leaves that handle stale.
pub proof fn lemma_removed_handle_is_stale<T>(s0: Slab<T>, h: Index, s1: Slab<T>, r: Option<T>)
    requires
        s0.wf(),
        Slab::removed(s0, h, s1, r),
        r is Some,
    ensures
        is_stale(s1, h),
{
    assert(s0.slots()[h.index as int] matches Slot::Filled { .. });
}

/// Whatever is inserted later, a stale handle stays stale, and the new handle differs from it.
pub proof fn lemma_insert_keeps_stale<T>(s0: Slab<T>, item: T, s1: Slab<T>, r: Index, h: Index)
    requires
        is_stale(s0, h),
        Slab::inserted(s0, item, s1, r),
    ensures
        is_stale(s1, h),
        r != h,
{
}

/// Whatever is removed later, a stale handle stays stale.
pub proof fn lemma_remove_keeps_stale<T>(
    s0: Slab<T>,
    k: Index,
    s1: Slab<T>,
    r: Option<T>,
    h: Index,
)
    requires
        is_stale(s0, h),
        Slab::removed(s0, k, s1, r),
    ensures
        is_stale(s1, h),
{
    if r is Some && h.index == k.index {
        assert(s1.slots()[h.index as int] is Empty);
    }
}

/// Removing through a stale handle returns nothing and leaves the arena as it was.
pub proof fn lemma_remove_stale<T>(s0: Slab<T>, h: Index, s1: Slab<T>, r: Option<T>)
    requires
        is_stale(s0, h),
        Slab::removed(s0, h, s1, r),
    ensures
        r is None,
        s1 == s0,
{
}

} // verus!
