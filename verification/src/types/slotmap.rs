//! A generational arena: values behind keys that name a slot and the
//! version of the slot at which the value was put there, so that a key that
//! has gone stale is told from one that is live.

use vstd::prelude::*;

verus! {

/// A key: the index of a slot in its upper 16 bits, the version of the slot
/// in its lower 16.
pub type Key = u32;

/// The index of the slot that `key` names.
pub open spec fn index_of(key: Key) -> int {
    key as int / 0x1_0000
}

/// The version of the slot at which `key` was handed out.
pub open spec fn version_of(key: Key) -> u16 {
    (key as int % 0x1_0000) as u16
}

/// The key for the slot at `index` in version `version`.
pub open spec fn key_of(index: int, version: u16) -> Key {
    (index * 0x1_0000 + version) as u32
}

/// The version that follows `version`; after the last one the first comes
/// again.
pub open spec fn next_version(version: u16) -> u16 {
    if version == u16::MAX {
        0
    } else {
        (version + 1) as u16
    }
}

/// An arena as plain values: for each slot its version and, where it is
/// occupied, its value; and the indices of the free slots, the one that
/// will be filled next in front.
pub struct ArenaView<T> {
    pub entries: Seq<(u16, Option<T>)>,
    pub free: Seq<u16>,
}

impl<T> ArenaView<T> {
    /// The invariant of an arena: an occupied slot has an odd version, a
    /// free slot an even one, and the free slots are those in `free`, each
    /// once.
    pub open spec fn wf(self) -> bool {
        &&& self.entries.len() < u16::MAX
        &&& forall|i: int|
            0 <= i < self.entries.len() ==> (#[trigger] self.entries[i].1 is Some
                <==> self.entries[i].0 % 2 == 1)
        &&& self.free.no_duplicates()
        &&& forall|j: int|
            0 <= j < self.free.len() ==> #[trigger] self.free[j] < self.entries.len()
                && self.entries[self.free[j] as int].1 is None
        &&& forall|i: int|
            0 <= i < self.entries.len() && #[trigger] self.entries[i].1 is None
                ==> self.free.contains(i as u16)
    }

    /// The number of values held.
    pub open spec fn len(self) -> int {
        self.entries.len() - self.free.len()
    }

    /// Whether `key` names a slot of the arena that is occupied and in the
    /// version of the key.
    pub open spec fn valid(self, key: Key) -> bool {
        &&& index_of(key) < self.entries.len()
        &&& self.entries[index_of(key)].1 is Some
        &&& self.entries[index_of(key)].0 == version_of(key)
    }

    /// The value behind a valid key.
    pub open spec fn value(self, key: Key) -> T {
        self.entries[index_of(key)].1->Some_0
    }

    /// The key that the next value will get: that of the first free slot
    /// in its next version, or that of a new slot in version 1.
    pub open spec fn next_key(self) -> Key {
        if self.free.len() > 0 {
            key_of(self.free[0] as int, next_version(self.entries[self.free[0] as int].0))
        } else {
            key_of(self.entries.len() as int, 1)
        }
    }

    /// The arena with `value` put into it.
    pub open spec fn pushed(self, value: T) -> Self {
        if self.free.len() > 0 {
            ArenaView {
                entries: self.entries.update(
                    self.free[0] as int,
                    (next_version(self.entries[self.free[0] as int].0), Some(value)),
                ),
                free: self.free.skip(1),
            }
        } else {
            ArenaView { entries: self.entries.push((1u16, Some(value))), free: self.free }
        }
    }

    /// The arena with the value behind the valid key `key` taken out: the
    /// slot moves on to its next version and is the first to be filled
    /// again.
    pub open spec fn removed(self, key: Key) -> Self {
        ArenaView {
            entries: self.entries.update(
                index_of(key),
                (next_version(version_of(key)), None),
            ),
            free: seq![index_of(key) as u16] + self.free,
        }
    }

    /// The arena with the value behind the valid key `key` replaced.
    pub open spec fn replaced(self, key: Key, value: T) -> Self {
        ArenaView {
            entries: self.entries.update(index_of(key), (version_of(key), Some(value))),
            free: self.free,
        }
    }
}

/// A change to an arena.
pub enum Change<T> {
    /// A value is put into the arena.
    Push(T),
    /// The value behind a key is taken out of the arena.
    Remove(Key),
}

impl<T> ArenaView<T> {
    /// The values of the occupied slots among the first `n`, in the order
    /// of the slots.
    pub open spec fn values_upto(self, n: nat) -> Seq<T>
        decreases n,
    {
        if n == 0 {
            Seq::empty()
        } else {
            match self.entries[n - 1].1 {
                Some(value) => self.values_upto((n - 1) as nat).push(value),
                None => self.values_upto((n - 1) as nat),
            }
        }
    }

    /// The keys of the occupied slots among the first `n`, in the order of
    /// the slots.
    pub open spec fn keys_upto(self, n: nat) -> Seq<Key>
        decreases n,
    {
        if n == 0 {
            Seq::empty()
        } else {
            match self.entries[n - 1].1 {
                Some(_) => self.keys_upto((n - 1) as nat).push(
                    key_of(n - 1, self.entries[n - 1].0),
                ),
                None => self.keys_upto((n - 1) as nat),
            }
        }
    }

    /// The values held, in the order of their slots.
    pub open spec fn values(self) -> Seq<T> {
        self.values_upto(self.entries.len())
    }

    /// The keys of the values held, in the order of their slots.
    pub open spec fn keys(self) -> Seq<Key> {
        self.keys_upto(self.entries.len())
    }

    /// The arena after a change. A value is not put into a full arena, and
    /// a key that names nothing takes nothing out.
    pub open spec fn step(self, change: Change<T>) -> Self {
        match change {
            Change::Push(value) => if self.len() < CAPACITY {
                self.pushed(value)
            } else {
                self
            },
            Change::Remove(key) => if self.valid(key) {
                self.removed(key)
            } else {
                self
            },
        }
    }

    /// The arena after a run of changes.
    pub open spec fn run(self, changes: Seq<Change<T>>) -> Self
        decreases changes.len(),
    {
        if changes.len() == 0 {
            self
        } else {
            self.run(changes.drop_last()).step(changes.last())
        }
    }

    /// The free slots are among the slots, each once, and an occupied slot
    /// is not among them: so they are no more than the slots, and fewer
    /// where one slot is known to be occupied.
    proof fn lemma_free_but(self, taken: Option<int>)
        requires
            self.wf(),
            taken matches Some(i) ==> 0 <= i < self.entries.len() && self.entries[i].1 is Some,
        ensures
            self.len() >= (if taken is Some {
                1int
            } else {
                0int
            }),
    {
        let free = self.free;
        let bound = Set::new(|i: u16| i < self.entries.len());
        let others = match taken {
            Some(i) => bound.remove(i as u16),
            None => bound,
        };
        free.unique_seq_to_set();
        lemma_u16_below(self.entries.len() as int);
        assert(free.to_set().subset_of(others)) by {
            assert forall|x: u16| free.to_set().contains(x) implies others.contains(x) by {
                let j = choose|j: int| 0 <= j < free.len() && free[j] == x;
                assert(free[j] < self.entries.len());
                assert(self.entries[free[j] as int].1 is None);
            }
        }
        vstd::set_lib::lemma_len_subset(free.to_set(), others);
    }

    /// The free slots of an arena are fewer than its slots by the number
    /// of values held, which is none where all slots are free.
    pub proof fn lemma_free_count(self)
        requires
            self.wf(),
        ensures
            0 <= self.len() <= u16::MAX,
            forall|i: int|
                0 <= i < self.entries.len() && #[trigger] self.entries[i].1 is Some ==> self.len()
                    >= 1,
    {
        self.lemma_free_but(None);
        assert forall|i: int|
            0 <= i < self.entries.len() && #[trigger] self.entries[i].1 is Some implies self.len()
            >= 1 by {
            self.lemma_free_but(Some(i));
        }
    }

    /// A value that is put into an arena leaves each key that names a value
    /// naming that value.
    pub proof fn lemma_pushed_keeps(self, value: T)
        requires
            self.wf(),
        ensures
            forall|key: Key| #[trigger]
                self.valid(key) ==> self.pushed(value).valid(key) && self.pushed(value).value(key)
                    == self.value(key),
    {
        if self.free.len() > 0 {
            assert(self.free[0] < self.entries.len());
            assert(self.entries[self.free[0] as int].1 is None);
        }
    }

    /// A change leaves the invariant of an arena in place.
    pub proof fn lemma_step_wf(self, change: Change<T>)
        requires
            self.wf(),
        ensures
            self.step(change).wf(),
    {
        self.lemma_free_count();
        let after = self.step(change);
        match change {
            Change::Push(value) => {
                if self.len() < CAPACITY && self.free.len() > 0 {
                    let first = self.free[0];
                    assert(self.entries[first as int].1 is None);
                    assert forall|j: int| 0 <= j < after.free.len() implies #[trigger] after.free[j]
                        < after.entries.len() && after.entries[after.free[j] as int].1 is None by {
                        assert(self.free[j + 1] != self.free[0]);
                        assert(self.entries[self.free[j + 1] as int].1 is None);
                    }
                    assert forall|i: int|
                        0 <= i < after.entries.len() && #[trigger] after.entries[i].1 is None implies after.free.contains(
                        i as u16,
                    ) by {
                        assert(self.entries[i].1 is None);
                        let j = choose|j: int| 0 <= j < self.free.len() && self.free[j] == i as u16;
                        assert(after.free[j - 1] == i as u16);
                    }
                    assert forall|i: int| 0 <= i < after.entries.len() implies (
                    #[trigger] after.entries[i].1 is Some <==> after.entries[i].0 % 2 == 1) by {
                        if i != first {
                            assert(self.entries[i].1 is Some <==> self.entries[i].0 % 2 == 1);
                        }
                    }
                } else if self.len() < CAPACITY {
                    assert forall|i: int| 0 <= i < after.entries.len() implies (
                    #[trigger] after.entries[i].1 is Some <==> after.entries[i].0 % 2 == 1) by {
                        if i < self.entries.len() {
                            assert(self.entries[i].1 is Some <==> self.entries[i].0 % 2 == 1);
                        }
                    }
                    assert forall|i: int|
                        0 <= i < after.entries.len() && #[trigger] after.entries[i].1 is None implies after.free.contains(
                        i as u16,
                    ) by {
                        assert(self.entries[i].1 is None);
                    }
                }
            },
            Change::Remove(key) => {
                if self.valid(key) {
                    let index = index_of(key);
                    assert(self.entries[index].1 is Some);
                    assert(!self.free.contains(index as u16)) by {
                        if self.free.contains(index as u16) {
                            let j = choose|j: int|
                                0 <= j < self.free.len() && self.free[j] == index as u16;
                            assert(self.entries[self.free[j] as int].1 is None);
                        }
                    }
                    assert forall|j: int| 0 <= j < after.free.len() implies #[trigger] after.free[j]
                        < after.entries.len() && after.entries[after.free[j] as int].1 is None by {
                        if j > 0 {
                            assert(self.free[j - 1] == after.free[j]);
                            assert(self.entries[self.free[j - 1] as int].1 is None);
                        }
                    }
                    assert forall|i: int|
                        0 <= i < after.entries.len() && #[trigger] after.entries[i].1 is None implies after.free.contains(
                        i as u16,
                    ) by {
                        if i == index {
                            assert(after.free[0] == i as u16);
                        } else {
                            assert(self.entries[i].1 is None);
                            let j = choose|j: int|
                                0 <= j < self.free.len() && self.free[j] == i as u16;
                            assert(after.free[j + 1] == i as u16);
                        }
                    }
                    assert forall|i: int| 0 <= i < after.entries.len() implies (
                    #[trigger] after.entries[i].1 is Some <==> after.entries[i].0 % 2 == 1) by {
                        if i != index {
                            assert(self.entries[i].1 is Some <==> self.entries[i].0 % 2 == 1);
                        }
                    }
                    assert forall|a: int, b: int|
                        0 <= a < after.free.len() && 0 <= b < after.free.len() && a
                            != b implies after.free[a] != after.free[b] by {
                        if a > 0 && b > 0 {
                            assert(self.free[a - 1] != self.free[b - 1]);
                        } else if a > 0 {
                            assert(self.free[a - 1] == after.free[a]);
                        } else {
                            assert(self.free[b - 1] == after.free[b]);
                        }
                    }
                }
            },
        }
    }

    /// A key that names nothing names something after a change only where
    /// the change put a value into the arena and that value got the key.
    /// So a key whose value was taken out stays without one until its slot
    /// is filled again and has come round to the key's version.
    pub proof fn lemma_stale_key(self, change: Change<T>, key: Key)
        requires
            self.wf(),
            !self.valid(key),
            self.step(change).valid(key),
        ensures
            change is Push,
            self.len() < CAPACITY,
            key == self.next_key(),
    {
        self.lemma_free_count();
        match change {
            Change::Push(value) => {
                if self.free.len() > 0 {
                    assert(self.free[0] < self.entries.len());
                }
            },
            Change::Remove(k) => {},
        }
    }

    /// A key whose value is taken out names nothing afterwards, and its
    /// slot has moved on from the version of the key.
    pub proof fn lemma_removed_key(self, key: Key)
        requires
            self.wf(),
            self.valid(key),
        ensures
            !self.removed(key).valid(key),
            self.removed(key).entries[index_of(key)].0 != version_of(key),
    {
    }

    /// Whatever run of changes an arena goes through, its invariant stays
    /// in place, and a key names a value in it only where its slot is
    /// occupied and in the version of the key.
    pub proof fn lemma_run_wf(self, changes: Seq<Change<T>>)
        requires
            self.wf(),
        ensures
            self.run(changes).wf(),
            forall|key: Key| #[trigger]
                self.run(changes).valid(key) ==> self.run(changes).entries[index_of(key)].0
                    == version_of(key) && self.run(changes).entries[index_of(key)].1 is Some,
        decreases changes.len(),
    {
        if changes.len() > 0 {
            self.lemma_run_wf(changes.drop_last());
            self.run(changes.drop_last()).lemma_step_wf(changes.last());
        }
    }

    /// A key that names nothing names something after a run of changes
    /// only where one of them put a value into the arena and that value
    /// got the key.
    pub proof fn lemma_stale_key_run(self, changes: Seq<Change<T>>, key: Key) -> (at: int)
        requires
            self.wf(),
            !self.valid(key),
            self.run(changes).valid(key),
        ensures
            0 <= at < changes.len(),
            changes[at] is Push,
            key == self.run(changes.take(at)).next_key(),
        decreases changes.len(),
    {
        let front = changes.drop_last();
        self.lemma_run_wf(front);
        if self.run(front).valid(key) {
            let at = self.lemma_stale_key_run(front, key);
            assert(front.take(at) =~= changes.take(at));
            at
        } else {
            self.run(front).lemma_stale_key(changes.last(), key);
            assert(changes.take(changes.len() - 1) =~= front);
            changes.len() - 1
        }
    }
}

/// What a slot holds: a value, or, while it is free, the index of the free
/// slot that will be filled after it.
enum SlotContent<T> {
    Value(T),
    NextFree(u16),
}

struct Slot<T> {
    content: SlotContent<T>,
    version: u16,
}

/// The index that ends the list of free slots. No slot has it.
const NIL: u16 = u16::MAX;

/// The most values that an arena holds.
pub const CAPACITY: u16 = u16::MAX - 1;

/// An arena of values of one type.
pub struct Slotmap<T> {
    slots: Vec<Slot<T>>,
    next_free: u16,
    num_elems: u16,
    free: Ghost<Seq<u16>>,
}

impl<T> View for Slotmap<T> {
    type V = ArenaView<T>;

    closed spec fn view(&self) -> ArenaView<T> {
        ArenaView {
            entries: Seq::new(
                self.slots@.len(),
                |i: int|
                    (
                        self.slots@[i].version,
                        match self.slots@[i].content {
                            SlotContent::Value(v) => Some(v),
                            SlotContent::NextFree(_) => None,
                        },
                    ),
            ),
            free: self.free@,
        }
    }
}

impl<T> Slotmap<T> {
    /// The invariant of the arena.
    pub closed spec fn wf(&self) -> bool {
        &&& self@.wf()
        &&& self.num_elems == self@.len()
        &&& self.next_free == (if self.free@.len() == 0 {
            NIL
        } else {
            self.free@[0]
        })
        &&& forall|j: int|
            0 <= j < self.free@.len() ==> (#[trigger] self.slots@[self.free@[j] as int]).content
                == SlotContent::<T>::NextFree(
                if j + 1 < self.free@.len() {
                    self.free@[j + 1]
                } else {
                    NIL
                },
            )
    }

    /// The invariant of the arena implies that of its plain values.
    pub proof fn lemma_wf(&self)
        requires
            self.wf(),
        ensures
            self@.wf(),
            0 <= self@.len() <= u16::MAX,
    {
        self@.lemma_free_count();
    }

    /// The number of slots, occupied or free.
    pub fn slots(&self) -> (n: usize)
        requires
            self.wf(),
        ensures
            n == self@.entries.len(),
    {
        self.slots.len()
    }

    /// An arena that holds nothing.
    pub fn new() -> (arena: Self)
        ensures
            arena.wf(),
            arena@.entries.len() == 0,
            arena@.free.len() == 0,
    {
        Slotmap { slots: Vec::with_capacity(1), next_free: NIL, num_elems: 0, free: Ghost(Seq::empty()) }
    }

    /// An arena that holds nothing and has room set aside for `capacity`
    /// values, for one at least and for no more than an arena can hold.
    pub fn with_capacity(capacity: u16) -> (arena: Self)
        ensures
            arena.wf(),
            arena@.entries.len() == 0,
            arena@.free.len() == 0,
    {
        let room: u16 = if capacity < 1 {
            1
        } else if capacity > CAPACITY {
            CAPACITY
        } else {
            capacity
        };
        Slotmap {
            slots: Vec::with_capacity(room as usize),
            next_free: NIL,
            num_elems: 0,
            free: Ghost(Seq::empty()),
        }
    }

    /// The number of values held.
    pub fn len(&self) -> (n: u16)
        requires
            self.wf(),
        ensures
            n == self@.len(),
    {
        self.num_elems
    }

    /// Whether `key` names a value of the arena.
    pub fn contains(&self, key: Key) -> (b: bool)
        requires
            self.wf(),
        ensures
            b == self@.valid(key),
    {
        let version: u16 = (key % 0x1_0000) as u16;
        let index: usize = (key / 0x1_0000) as usize;
        if index >= self.slots.len() {
            return false;
        }
        match self.slots[index].content {
            SlotContent::Value(_) => self.slots[index].version == version,
            SlotContent::NextFree(_) => false,
        }
    }

    /// The value that `key` names, if it names one.
    pub fn get(&self, key: Key) -> (r: Option<&T>)
        requires
            self.wf(),
        ensures
            match r {
                Some(value) => self@.valid(key) && *value == self@.value(key),
                None => !self@.valid(key),
            },
    {
        let index: usize = (key / 0x1_0000) as usize;
        if !self.contains(key) {
            return None;
        }
        match &self.slots[index].content {
            SlotContent::Value(value) => Some(value),
            SlotContent::NextFree(_) => None,
        }
    }

    /// The value that `key` names, if it names one, to be changed in place.
    pub fn get_mut(&mut self, key: Key) -> (r: Option<&mut T>)
        requires
            old(self).wf(),
        ensures
            final(self).wf(),
            match r {
                Some(value) => old(self)@.valid(key) && *value == old(self)@.value(key)
                    && final(self)@ == old(self)@.replaced(key, *final(value)),
                None => !old(self)@.valid(key) && final(self)@ == old(self)@,
            },
    {
        let index: usize = (key / 0x1_0000) as usize;
        if !self.contains(key) {
            return None;
        }
        let ghost before = self@;
        let ghost slots = self.slots@;
        let ghost free = self.free@;
        let slot = &mut self.slots[index];
        match &mut slot.content {
            SlotContent::Value(value) => {
                proof {
                    let after = after_borrow(self.slots)@;
                    assert(after =~= slots.update(
                        index as int,
                        Slot {
                            content: SlotContent::Value(*final(value)),
                            version: slots[index as int].version,
                        },
                    ));
                    assert(after_borrow(*self)@.entries =~= before.entries.update(
                        index as int,
                        (version_of(key), Some(*final(value))),
                    ));
                    assert(after_borrow(*self)@.free == free);
                    assert forall|j: int| 0 <= j < free.len() implies (#[trigger] after[free[j] as int]).content
                        == SlotContent::<T>::NextFree(
                        if j + 1 < free.len() {
                            free[j + 1]
                        } else {
                            NIL
                        },
                    ) by {
                        assert(before.entries[free[j] as int].1 is None);
                        assert(slots[free[j] as int].content == SlotContent::<T>::NextFree(
                            if j + 1 < free.len() {
                                free[j + 1]
                            } else {
                                NIL
                            },
                        ));
                    }
                }
                Some(value)
            },
            SlotContent::NextFree(_) => None,
        }
    }

    /// Puts `value` into the arena and gives the key that names it from
    /// now on: that of the slot freed last, in its next version, or that of
    /// a new slot. The arena must hold fewer values than it can.
    pub fn push(&mut self, value: T) -> (key: Key)
        requires
            old(self).wf(),
            old(self)@.len() < CAPACITY,
        ensures
            final(self).wf(),
            key == old(self)@.next_key(),
            final(self)@ == old(self)@.pushed(value),
            final(self)@ == old(self)@.step(Change::Push(value)),
            !old(self)@.valid(key),
            final(self)@.valid(key),
            final(self)@.value(key) == value,
            forall|k: Key| #[trigger]
                old(self)@.valid(k) ==> final(self)@.valid(k) && final(self)@.value(k) == old(
                    self,
                )@.value(k),
    {
        proof {
            self.lemma_wf();
            self@.lemma_pushed_keeps(value);
        }
        let ghost before = self@;
        if self.next_free == NIL {
            let index: usize = self.slots.len();
            self.slots.push(Slot { content: SlotContent::Value(value), version: 1 });
            self.num_elems = self.num_elems + 1;
            proof {
                assert(self@.entries =~= before.entries.push((1u16, Some(value))));
                assert forall|j: int| 0 <= j < self.free@.len() implies (
                #[trigger] self.slots@[self.free@[j] as int]).content == SlotContent::<
                    T,
                >::NextFree(
                    if j + 1 < self.free@.len() {
                        self.free@[j + 1]
                    } else {
                        NIL
                    },
                ) by {
                    assert(before.entries[self.free@[j] as int].1 is None);
                }
            }
            index as u32 * 0x1_0000 + 1
        } else {
            let index: usize = self.next_free as usize;
            assert(self.free@[0] < before.entries.len());
            assert(before.entries[index as int].1 is None);
            let version: u16 = self.slots[index].version + 1;
            let next: u16 = match self.slots[index].content {
                SlotContent::NextFree(next) => next,
                SlotContent::Value(_) => NIL,
            };
            self.slots.set(index, Slot { content: SlotContent::Value(value), version });
            self.next_free = next;
            self.num_elems = self.num_elems + 1;
            proof {
                let old_free = self.free@;
                self.free@ = old_free.skip(1);
                assert(self@.entries =~= before.entries.update(
                    index as int,
                    (version, Some(value)),
                ));
                assert forall|j: int| 0 <= j < self.free@.len() implies self.free@[j] != index by {
                    assert(old_free[j + 1] != old_free[0]);
                }
                assert forall|i: int|
                    0 <= i < self@.entries.len() && #[trigger] self@.entries[i].1 is None implies self.free@.contains(
                    i as u16,
                ) by {
                    assert(before.entries[i].1 is None);
                    let j = choose|j: int| 0 <= j < old_free.len() && old_free[j] == i as u16;
                    assert(self.free@[j - 1] == i as u16);
                }
                assert forall|j: int| 0 <= j < self.free@.len() implies (
                #[trigger] self.slots@[self.free@[j] as int]).content == SlotContent::<
                    T,
                >::NextFree(
                    if j + 1 < self.free@.len() {
                        self.free@[j + 1]
                    } else {
                        NIL
                    },
                ) by {
                    assert(old_free[j + 1] == self.free@[j]);
                    assert(old(self).slots@[old_free[j + 1] as int].content
                        == SlotContent::<T>::NextFree(
                        if j + 2 < old_free.len() {
                            old_free[j + 2]
                        } else {
                            NIL
                        },
                    ));
                }
                assert(old(self).slots@[old_free[0] as int].content == SlotContent::<T>::NextFree(
                    if 1 < old_free.len() {
                        old_free[1]
                    } else {
                        NIL
                    },
                ));
            }
            index as u32 * 0x1_0000 + version as u32
        }
    }

    /// Takes the value that `key` names out of the arena, if it names one.
    /// The key, and any copy of it, names nothing from then on.
    pub fn try_pop(&mut self, key: Key) -> (r: Option<T>)
        requires
            old(self).wf(),
        ensures
            final(self).wf(),
            final(self)@ == old(self)@.step(Change::Remove(key)),
            match r {
                Some(value) => old(self)@.valid(key) && value == old(self)@.value(key)
                    && final(self)@ == old(self)@.removed(key) && !final(self)@.valid(key),
                None => !old(self)@.valid(key) && final(self)@ == old(self)@,
            },
    {
        proof {
            self.lemma_wf();
        }
        let version: u16 = (key % 0x1_0000) as u16;
        let index: usize = (key / 0x1_0000) as usize;
        if !self.contains(key) {
            return None;
        }
        proof {
            self@.lemma_free_count();
            assert(self@.entries[index as int].1 is Some);
        }
        let ghost before = self@;
        let ghost old_free = self.free@;
        let mut slot = Slot {
            content: SlotContent::NextFree(self.next_free),
            version: version.wrapping_add(1),
        };
        self.slots.set_and_swap(index, &mut slot);
        self.next_free = index as u16;
        self.num_elems = self.num_elems - 1;
        proof {
            self.free@ = seq![index as u16] + old_free;
            assert(self@.entries =~= before.entries.update(
                index as int,
                (next_version(version), None::<T>),
            ));
            assert(!old_free.contains(index as u16)) by {
                if old_free.contains(index as u16) {
                    let j = choose|j: int| 0 <= j < old_free.len() && old_free[j] == index as u16;
                    assert(before.entries[old_free[j] as int].1 is None);
                }
            }
            assert forall|i: int|
                0 <= i < self@.entries.len() && #[trigger] self@.entries[i].1 is None implies self.free@.contains(
                i as u16,
            ) by {
                if i == index {
                    assert(self.free@[0] == i as u16);
                } else {
                    assert(before.entries[i].1 is None);
                    let j = choose|j: int| 0 <= j < old_free.len() && old_free[j] == i as u16;
                    assert(self.free@[j + 1] == i as u16);
                }
            }
            assert forall|j: int| 0 <= j < self.free@.len() implies #[trigger] self.free@[j]
                < self@.entries.len() && self@.entries[self.free@[j] as int].1 is None by {
                if j > 0 {
                    assert(old_free[j - 1] == self.free@[j]);
                    assert(before.entries[old_free[j - 1] as int].1 is None);
                }
            }
            assert forall|j: int| 0 <= j < self.free@.len() implies (
            #[trigger] self.slots@[self.free@[j] as int]).content == SlotContent::<T>::NextFree(
                if j + 1 < self.free@.len() {
                    self.free@[j + 1]
                } else {
                    NIL
                },
            ) by {
                if j > 0 {
                    assert(old_free[j - 1] == self.free@[j]);
                    assert(old(self).slots@[old_free[j - 1] as int].content == SlotContent::<
                        T,
                    >::NextFree(
                        if j < old_free.len() {
                            old_free[j]
                        } else {
                            NIL
                        },
                    ));
                }
            }
        }
        match slot.content {
            SlotContent::Value(value) => Some(value),
            SlotContent::NextFree(_) => None,
        }
    }

    /// The values held, in the order of their slots.
    #[verifier::loop_isolation(false)]
    pub fn iter(&self) -> (r: Vec<&T>)
        requires
            self.wf(),
        ensures
            r@.len() == self@.values().len(),
            forall|i: int| 0 <= i < r@.len() ==> *r@[i] == self@.values()[i],
    {
        let mut found: Vec<&T> = Vec::new();
        let mut i: usize = 0;
        while i < self.slots.len()
            invariant
                i <= self.slots@.len(),
                found@.len() == self@.values_upto(i as nat).len(),
                forall|j: int|
                    0 <= j < found@.len() ==> *found@[j] == self@.values_upto(i as nat)[j],
            decreases self.slots@.len() - i,
        {
            if let SlotContent::Value(value) = &self.slots[i].content {
                found.push(value);
            }
            i = i + 1;
        }
        found
    }

    /// The value in the slot with the index `slot`, if that slot is there
    /// and occupied, to be changed in place, and its key. With the slots
    /// taken one after another this hands out every value held, in the
    /// order of their slots.
    pub fn iter_mut(&mut self, slot: u16) -> (r: Option<(Key, &mut T)>)
        requires
            old(self).wf(),
        ensures
            final(self).wf(),
            match r {
                Some((key, value)) => {
                    &&& slot < old(self)@.entries.len()
                    &&& old(self)@.entries[slot as int].1 is Some
                    &&& key == key_of(slot as int, old(self)@.entries[slot as int].0)
                    &&& old(self)@.valid(key)
                    &&& *value == old(self)@.value(key)
                    &&& final(self)@ == old(self)@.replaced(key, *final(value))
                },
                None => (slot >= old(self)@.entries.len() || old(self)@.entries[slot as int].1
                    is None) && final(self)@ == old(self)@,
            },
    {
        if slot as usize >= self.slots.len() {
            return None;
        }
        let key: Key = slot as u32 * 0x1_0000 + self.slots[slot as usize].version as u32;
        match self.get_mut(key) {
            Some(value) => Some((key, value)),
            None => None,
        }
    }

    /// The values held, each with its key, in the order of their slots.
    #[verifier::loop_isolation(false)]
    pub fn kv_iter(&self) -> (r: Vec<(Key, &T)>)
        requires
            self.wf(),
        ensures
            r@.len() == self@.values().len(),
            r@.len() == self@.keys().len(),
            forall|i: int|
                0 <= i < r@.len() ==> r@[i].0 == self@.keys()[i] && *r@[i].1 == self@.values()[i]
                    && self@.valid(r@[i].0) && self@.value(r@[i].0) == *r@[i].1,
    {
        proof {
            self.lemma_wf();
        }
        let mut found: Vec<(Key, &T)> = Vec::new();
        let mut i: usize = 0;
        while i < self.slots.len()
            invariant
                i <= self.slots@.len(),
                found@.len() == self@.values_upto(i as nat).len(),
                found@.len() == self@.keys_upto(i as nat).len(),
                forall|j: int|
                    0 <= j < found@.len() ==> found@[j].0 == self@.keys_upto(i as nat)[j]
                        && *found@[j].1 == self@.values_upto(i as nat)[j] && self@.valid(
                        found@[j].0,
                    ) && self@.value(found@[j].0) == *found@[j].1,
            decreases self.slots@.len() - i,
        {
            if let SlotContent::Value(value) = &self.slots[i].content {
                let key: Key = i as u32 * 0x1_0000 + self.slots[i].version as u32;
                found.push((key, value));
            }
            i = i + 1;
        }
        found
    }
}

/// What a secondary map holds for each slot of an arena: nothing, or a
/// value with the version of the key under which it was put there.
pub type Items<T> = Seq<Option<(T, u16)>>;

/// Whether `items` hold a value under `key`: at the index of the key, and
/// with its version.
pub open spec fn holds<T>(items: Items<T>, key: Key) -> bool {
    &&& index_of(key) < items.len()
    &&& items[index_of(key)] is Some
    &&& items[index_of(key)]->Some_0.1 == version_of(key)
}

/// `items` cut or filled up with nothing to the length `n`.
pub open spec fn resized<T>(items: Items<T>, n: int) -> Items<T> {
    if items.len() >= n {
        items.take(n)
    } else {
        items + Seq::new((n - items.len()) as nat, |i: int| None::<(T, u16)>)
    }
}

/// `items` after `value` is put under `key`: they end with the slot of the
/// key, which holds the value with the version of the key, made odd.
pub open spec fn inserted<T>(items: Items<T>, key: Key, value: T) -> Items<T> {
    resized(items, index_of(key) + 1).update(index_of(key), Some((value, version_of(key) | 1)))
}

/// A value put under a key with an odd version, as all keys of an arena
/// have, is held under that key.
pub proof fn lemma_inserted_holds<T>(items: Items<T>, key: Key, value: T)
    requires
        version_of(key) % 2 == 1,
    ensures
        holds(inserted(items, key, value), key),
        inserted(items, key, value)[index_of(key)]->Some_0.0 == value,
{
    let v = version_of(key);
    assert(v % 2 == 1 ==> v | 1 == v) by (bit_vector);
}

/// Values that go along with the values of an arena, under the same keys.
pub struct SecondaryMap<T> {
    items: Vec<Option<(T, u16)>>,
}

impl<T> View for SecondaryMap<T> {
    type V = Items<T>;

    closed spec fn view(&self) -> Items<T> {
        self.items@
    }
}

impl<T> SecondaryMap<T> {
    /// A map that holds nothing.
    pub fn new() -> (map: Self)
        ensures
            map@.len() == 0,
    {
        SecondaryMap { items: Vec::new() }
    }

    /// A map that holds nothing and has room set aside for `capacity`
    /// values, for one at least and for no more than an arena can hold.
    pub fn with_capacity(capacity: u16) -> (map: Self)
        ensures
            map@.len() == 0,
    {
        let room: u16 = if capacity < 1 {
            1
        } else if capacity > CAPACITY {
            CAPACITY
        } else {
            capacity
        };
        SecondaryMap { items: Vec::with_capacity(room as usize) }
    }

    /// Whether a value is held under `key`.
    pub fn contains(&self, key: Key) -> (b: bool)
        ensures
            b == holds(self@, key),
    {
        let version: u16 = (key % 0x1_0000) as u16;
        let index: usize = (key / 0x1_0000) as usize;
        if index >= self.items.len() {
            return false;
        }
        match &self.items[index] {
            Some((_, held)) => *held == version,
            None => false,
        }
    }

    /// Puts `value` under `key`. What was held for slots behind that of
    /// the key is let go.
    #[verifier::loop_isolation(false)]
    pub fn insert(&mut self, key: Key, value: T)
        ensures
            final(self)@ == inserted(old(self)@, key, value),
    {
        let version: u16 = (key % 0x1_0000) as u16;
        let index: usize = (key / 0x1_0000) as usize;
        self.items.truncate(index + 1);
        while self.items.len() < index + 1
            invariant
                self.items@.len() <= index + 1,
                old(self)@.len() >= index + 1 ==> self.items@ == old(self)@.take(index + 1),
                old(self)@.len() < index + 1 ==> self.items@ == old(self)@ + Seq::new(
                    (self.items@.len() - old(self)@.len()) as nat,
                    |i: int| None::<(T, u16)>,
                ),
            decreases index + 1 - self.items@.len(),
        {
            self.items.push(None);
            assert(self.items@ =~= old(self)@ + Seq::new(
                (self.items@.len() - old(self)@.len()) as nat,
                |i: int| None::<(T, u16)>,
            ));
        }
        self.items.set(index, Some((value, version | 1)));
    }

    /// The value held under `key`, if there is one.
    pub fn get(&self, key: Key) -> (r: Option<&T>)
        ensures
            match r {
                Some(value) => holds(self@, key) && *value == self@[index_of(key)]->Some_0.0,
                None => !holds(self@, key),
            },
    {
        let index: usize = (key / 0x1_0000) as usize;
        if !self.contains(key) {
            return None;
        }
        match &self.items[index] {
            Some((value, _)) => Some(value),
            None => None,
        }
    }

    /// The value held under `key`, if there is one, to be changed in
    /// place.
    pub fn get_mut(&mut self, key: Key) -> (r: Option<&mut T>)
        ensures
            match r {
                Some(value) => holds(old(self)@, key) && *value == old(self)@[index_of(
                    key,
                )]->Some_0.0 && final(self)@ == old(self)@.update(
                    index_of(key),
                    Some((*final(value), version_of(key))),
                ),
                None => !holds(old(self)@, key) && final(self)@ == old(self)@,
            },
    {
        let index: usize = (key / 0x1_0000) as usize;
        if !self.contains(key) {
            return None;
        }
        let ghost items = self.items@;
        match &mut self.items[index] {
            Some((value, _)) => {
                proof {
                    assert(after_borrow(self.items)@ =~= items.update(
                        index as int,
                        Some((*final(value), version_of(key))),
                    ));
                }
                Some(value)
            },
            None => None,
        }
    }
}

/// There are `n` numbers of 16 bits below `n`.
proof fn lemma_u16_below(n: int)
    requires
        0 <= n <= u16::MAX,
    ensures
        Set::new(|i: u16| i < n).finite(),
        Set::new(|i: u16| i < n).len() == n,
    decreases n,
{
    let s = Set::new(|i: u16| i < n);
    if n == 0 {
        assert(s =~= Set::empty());
    } else {
        lemma_u16_below(n - 1);
        let t = Set::new(|i: u16| i < n - 1);
        assert(s =~= t.insert((n - 1) as u16));
    }
}

} // verus!
