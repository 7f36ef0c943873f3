//! Cooldowns: named timers that switch on once their duration has passed.
//! The time is handed in by the caller, in whole seconds.

use vstd::prelude::*;

pub mod job;

verus! {

/// The duration that a timer has unless one is given.
pub const DEFAULT_DURATION: isize = 5;

/// One timer: how long it waits, when it last fired, and whether it is on.
#[derive(Clone, Copy, Debug, PartialEq, Eq, Structural)]
pub struct Object {
    pub duration: isize,
    pub old_time: isize,
    pub on: bool,
}

impl Object {
    /// A timer of the default duration that starts at `now`, switched off.
    pub fn starting_at(now: isize) -> (object: Object)
        ensures
            object == (Object { duration: DEFAULT_DURATION, old_time: now, on: false }),
    {
        Object { duration: DEFAULT_DURATION, old_time: now, on: false }
    }

    /// Whether more than the duration has passed since the timer last fired.
    pub open spec fn is_due(self, now: int) -> bool {
        now - self.duration > self.old_time
    }

    /// The timer after an update at `now`: fired and switched on if it is
    /// due, and otherwise as it was.
    pub open spec fn updated(self, now: int) -> Object {
        if self.is_due(now) {
            Object { duration: self.duration, old_time: now as isize, on: true }
        } else {
            self
        }
    }

    /// The timer switched off.
    pub open spec fn switched_off(self) -> Object {
        Object { duration: self.duration, old_time: self.old_time, on: false }
    }
}

/// A timer under its tag.
pub struct Slot {
    pub tag: String,
    pub object: Object,
}

/// The timers, each under a tag of its own. The view is the map from tags to
/// timers.
pub struct Storage {
    slots: Vec<Slot>,
}

/// Whether no tag occurs twice.
pub open spec fn distinct_tags(slots: Seq<Slot>) -> bool {
    forall|i: int, j: int|
        0 <= i < slots.len() && 0 <= j < slots.len() && i != j ==> slots[i].tag@ != slots[j].tag@
}

/// Whether a slot carries the tag.
pub open spec fn has_tag(slots: Seq<Slot>, tag: Seq<char>) -> bool {
    exists|i: int| 0 <= i < slots.len() && #[trigger] slots[i].tag@ == tag
}

/// An index at which the tag stands.
pub open spec fn index_of_tag(slots: Seq<Slot>, tag: Seq<char>) -> int {
    choose|i: int| 0 <= i < slots.len() && #[trigger] slots[i].tag@ == tag
}

/// The map that the slots stand for.
pub open spec fn slots_map(slots: Seq<Slot>) -> Map<Seq<char>, Object> {
    Map::new(
        |tag: Seq<char>| has_tag(slots, tag),
        |tag: Seq<char>| slots[index_of_tag(slots, tag)].object,
    )
}

/// Where tags are distinct, a tag stands at one index only.
pub proof fn lemma_index_of_tag(slots: Seq<Slot>, i: int)
    requires
        distinct_tags(slots),
        0 <= i < slots.len(),
    ensures
        has_tag(slots, slots[i].tag@),
        index_of_tag(slots, slots[i].tag@) == i,
        slots_map(slots)[slots[i].tag@] == slots[i].object,
{
}

impl View for Storage {
    type V = Map<Seq<char>, Object>;

    closed spec fn view(&self) -> Map<Seq<char>, Object> {
        slots_map(self.slots@)
    }
}

impl Storage {
    /// What holds of every storage: no tag occurs twice.
    #[verifier::type_invariant]
    closed spec fn well_formed(self) -> bool {
        distinct_tags(self.slots@)
    }

    /// A storage without timers.
    pub fn new() -> (storage: Storage)
        ensures
            storage@ == Map::<Seq<char>, Object>::empty(),
    {
        let storage = Storage { slots: Vec::new() };
        assert(storage@ =~= Map::<Seq<char>, Object>::empty());
        storage
    }

    /// How many timers there are.
    pub fn len(&self) -> (count: usize)
        ensures
            count == self@.dom().len(),
            self@.dom().finite(),
    {
        proof {
            use_type_invariant(self);
            lemma_slots_count(self.slots@);
        }
        self.slots.len()
    }

    /// Finds the slot of a tag.
    fn position(&self, key: &String) -> (found: Option<usize>)
        ensures
            found matches Some(i) ==> i < self.slots@.len() && self.slots@[i as int].tag@ == key@,
            found is None ==> !has_tag(self.slots@, key@),
    {
        let mut i: usize = 0;
        while i < self.slots.len()
            invariant
                i <= self.slots@.len(),
                forall|j: int| 0 <= j < i ==> self.slots@[j].tag@ != key@,
            decreases self.slots@.len() - i,
        {
            if self.slots[i].tag == *key {
                return Some(i);
            }
            i = i + 1;
        }
        None
    }

    /// Puts a timer under a tag, in place of the one that was there, if any.
    pub fn insert(&mut self, tag: &str, object: Object)
        ensures
            final(self)@ == old(self)@.insert(tag@, object),
    {
        proof {
            use_type_invariant(&*self);
        }
        let key: String = tag.to_owned();
        let ghost before: Seq<Slot> = self.slots@;
        match self.position(&key) {
            Some(i) => {
                let mut slots: Vec<Slot> = Vec::new();
                core::mem::swap(&mut slots, &mut self.slots);
                slots.set(i, Slot { tag: key, object });
                let ghost after: Seq<Slot> = slots@;
                proof {
                    assert(distinct_tags(after));
                    lemma_same_tags(before, after);
                    assert forall|t: Seq<char>| has_tag(after, t) implies #[trigger] slots_map(
                        after,
                    )[t] == slots_map(before).insert(tag@, object)[t] by {
                        let j: int = index_of_tag(after, t);
                        lemma_index_of_tag(after, j);
                        lemma_index_of_tag(before, j);
                    }
                    assert(slots_map(after) =~= slots_map(before).insert(tag@, object));
                }
                *self = Storage { slots };
            },
            None => {
                let mut slots: Vec<Slot> = Vec::new();
                core::mem::swap(&mut slots, &mut self.slots);
                slots.push(Slot { tag: key, object });
                let ghost after: Seq<Slot> = slots@;
                proof {
                    assert(distinct_tags(after));
                    assert forall|t: Seq<char>| has_tag(after, t) <==> (has_tag(before, t) || t
                        == tag@) by {
                        if has_tag(before, t) {
                            let j: int = index_of_tag(before, t);
                            assert(after[j].tag@ == t);
                        }
                        if t == tag@ {
                            assert(after[before.len() as int].tag@ == t);
                        }
                    }
                    assert forall|t: Seq<char>| has_tag(after, t) implies #[trigger] slots_map(
                        after,
                    )[t] == slots_map(before).insert(tag@, object)[t] by {
                        let j: int = index_of_tag(after, t);
                        lemma_index_of_tag(after, j);
                        if j < before.len() {
                            lemma_index_of_tag(before, j);
                        }
                    }
                    assert(slots_map(after) =~= slots_map(before).insert(tag@, object));
                }
                *self = Storage { slots };
            },
        }
    }

    /// The timer under a tag, if there is one.
    pub fn get(&self, tag: &str) -> (object: Option<Object>)
        ensures
            object == if self@.dom().contains(tag@) {
                Some(self@[tag@])
            } else {
                None
            },
    {
        proof {
            use_type_invariant(self);
        }
        let key: String = tag.to_owned();
        match self.position(&key) {
            Some(i) => {
                proof {
                    lemma_index_of_tag(self.slots@, i as int);
                }
                Some(self.slots[i].object)
            },
            None => None,
        }
    }

    /// Takes the timer under a tag away, if there is one.
    pub fn remove(&mut self, tag: &str)
        ensures
            final(self)@ == old(self)@.remove(tag@),
    {
        proof {
            use_type_invariant(&*self);
        }
        let key: String = tag.to_owned();
        let ghost before: Seq<Slot> = self.slots@;
        match self.position(&key) {
            Some(i) => {
                let mut slots: Vec<Slot> = Vec::new();
                core::mem::swap(&mut slots, &mut self.slots);
                slots.remove(i);
                let ghost after: Seq<Slot> = slots@;
                proof {
                    assert(after =~= before.remove(i as int));
                    assert forall|a: int, b: int|
                        0 <= a < after.len() && 0 <= b < after.len() && a != b implies after[a].tag@
                        != after[b].tag@ by {
                        let a0: int = if a < i {
                            a
                        } else {
                            a + 1
                        };
                        let b0: int = if b < i {
                            b
                        } else {
                            b + 1
                        };
                        assert(after[a] == before[a0] && after[b] == before[b0]);
                    }
                    assert forall|t: Seq<char>| has_tag(after, t) <==> (has_tag(before, t) && t
                        != tag@) by {
                        if has_tag(after, t) {
                            let j: int = index_of_tag(after, t);
                            let j0: int = if j < i {
                                j
                            } else {
                                j + 1
                            };
                            assert(before[j0].tag@ == t);
                        }
                        if has_tag(before, t) && t != tag@ {
                            let j: int = index_of_tag(before, t);
                            let j1: int = if j < i {
                                j
                            } else {
                                j - 1
                            };
                            assert(after[j1].tag@ == t);
                        }
                    }
                    assert forall|t: Seq<char>| has_tag(after, t) implies #[trigger] slots_map(
                        after,
                    )[t] == slots_map(before)[t] by {
                        let j: int = index_of_tag(after, t);
                        let j0: int = if j < i {
                            j
                        } else {
                            j + 1
                        };
                        lemma_index_of_tag(after, j);
                        lemma_index_of_tag(before, j0);
                    }
                    assert(slots_map(after) =~= slots_map(before).remove(tag@));
                }
                *self = Storage { slots };
            },
            None => {
                assert(self@ =~= old(self)@.remove(tag@));
            },
        }
    }

    /// Puts a new timer in the place of each one: the timer as an update at
    /// `now` leaves it where `fire` is set, and the timer switched off where
    /// it is not.
    fn replace_each(&mut self, now: isize, fire: bool)
        ensures
            final(self)@.dom() == old(self)@.dom(),
            forall|t: Seq<char>| #[trigger]
                old(self)@.dom().contains(t) ==> final(self)@[t] == if fire {
                    old(self)@[t].updated(now as int)
                } else {
                    old(self)@[t].switched_off()
                },
    {
        proof {
            use_type_invariant(&*self);
        }
        let ghost before: Seq<Slot> = self.slots@;
        let mut slots: Vec<Slot> = Vec::new();
        core::mem::swap(&mut slots, &mut self.slots);
        let mut i: usize = 0;
        while i < slots.len()
            invariant
                i <= slots@.len() == before.len(),
                forall|j: int| 0 <= j < before.len() ==> (#[trigger] slots@[j]).tag@ == before[j].tag@,
                forall|j: int|
                    0 <= j < i ==> (#[trigger] slots@[j]).object == if fire {
                        before[j].object.updated(now as int)
                    } else {
                        before[j].object.switched_off()
                    },
                forall|j: int| i <= j < before.len() ==> (#[trigger] slots@[j]).object == before[j].object,
            decreases slots@.len() - i,
        {
            let object: Object = slots[i].object;
            let next: Object = if fire {
                if now as i128 - object.duration as i128 > object.old_time as i128 {
                    Object { duration: object.duration, old_time: now, on: true }
                } else {
                    object
                }
            } else {
                Object { duration: object.duration, old_time: object.old_time, on: false }
            };
            let tag: String = slots[i].tag.clone();
            slots.set(i, Slot { tag, object: next });
            i = i + 1;
        }
        let ghost after: Seq<Slot> = slots@;
        proof {
            assert(distinct_tags(after));
            lemma_same_tags(before, after);
            assert(slots_map(after).dom() =~= slots_map(before).dom());
            assert forall|t: Seq<char>| #[trigger]
                slots_map(before).dom().contains(t) implies slots_map(after)[t] == if fire {
                slots_map(before)[t].updated(now as int)
            } else {
                slots_map(before)[t].switched_off()
            } by {
                let j: int = index_of_tag(before, t);
                lemma_index_of_tag(before, j);
                lemma_index_of_tag(after, j);
            }
        }
        *self = Storage { slots };
    }

    /// Fires every timer that is due at `now`.
    pub fn update_all(&mut self, now: isize)
        ensures
            final(self)@.dom() == old(self)@.dom(),
            forall|t: Seq<char>| #[trigger]
                old(self)@.dom().contains(t) ==> final(self)@[t] == old(self)@[t].updated(
                    now as int,
                ),
    {
        self.replace_each(now, true)
    }

    /// Switches every timer off.
    pub fn switch_all_off(&mut self)
        ensures
            final(self)@.dom() == old(self)@.dom(),
            forall|t: Seq<char>| #[trigger]
                old(self)@.dom().contains(t) ==> final(self)@[t] == old(self)@[t].switched_off(),
    {
        self.replace_each(0, false)
    }
}

/// Slots that carry the same tags at the same places carry the same tags.
proof fn lemma_same_tags(before: Seq<Slot>, after: Seq<Slot>)
    requires
        before.len() == after.len(),
        forall|j: int| 0 <= j < before.len() ==> (#[trigger] after[j]).tag@ == before[j].tag@,
    ensures
        forall|t: Seq<char>| has_tag(after, t) <==> has_tag(before, t),
{
    assert forall|t: Seq<char>| has_tag(after, t) <==> has_tag(before, t) by {
        if has_tag(after, t) {
            let j: int = index_of_tag(after, t);
            assert(before[j].tag@ == t);
        }
        if has_tag(before, t) {
            let j: int = index_of_tag(before, t);
            assert(after[j].tag@ == t);
        }
    }
}

/// Slots with distinct tags stand for as many timers as there are slots.
proof fn lemma_slots_count(slots: Seq<Slot>)
    requires
        distinct_tags(slots),
    ensures
        slots_map(slots).dom().finite(),
        slots_map(slots).dom().len() == slots.len(),
    decreases slots.len(),
{
    if slots.len() == 0 {
        assert(slots_map(slots).dom() =~= Set::<Seq<char>>::empty());
    } else {
        let front: Seq<Slot> = slots.drop_last();
        let last: Seq<char> = slots.last().tag@;
        lemma_slots_count(front);
        assert forall|t: Seq<char>| has_tag(slots, t) <==> (has_tag(front, t) || t == last) by {
            if has_tag(slots, t) {
                let j: int = index_of_tag(slots, t);
                if j < front.len() {
                    assert(front[j].tag@ == t);
                }
            }
            if has_tag(front, t) {
                let j: int = index_of_tag(front, t);
                assert(slots[j].tag@ == t);
            }
            if t == last {
                assert(slots[slots.len() - 1].tag@ == t);
            }
        }
        if has_tag(front, last) {
            let j: int = index_of_tag(front, last);
            assert(slots[j].tag@ == last);
        }
        assert(slots_map(slots).dom() =~= slots_map(front).dom().insert(last));
    }
}

} // verus!
