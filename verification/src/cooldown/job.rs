//! The operations on a storage of timers.

use crate::cooldown::{Object, Storage};
use vstd::prelude::*;

verus! {

/// Adds a timer of the given duration under `tag`, starting at `now` and
/// switched off. A timer that was under the tag is replaced.
pub fn add(storage: &mut Storage, tag: &str, duration: isize, now: isize)
    ensures
        final(storage)@ == old(storage)@.insert(
            tag@,
            (Object { duration: duration, old_time: now, on: false }),
        ),
{
    let start: Object = Object::starting_at(now);
    storage.insert(tag, Object { duration, old_time: start.old_time, on: start.on });
}

/// Whether the timer under `tag` is on. There must be one.
pub fn is_on(storage: &Storage, tag: &str) -> (on: bool)
    requires
        storage@.dom().contains(tag@),
    ensures
        on == storage@[tag@].on,
{
    match storage.get(tag) {
        Some(object) => object.on,
        None => false,
    }
}

/// Takes the timer under `tag` away. Without one, nothing changes.
pub fn remove(storage: &mut Storage, tag: &str)
    ensures
        final(storage)@ == old(storage)@.remove(tag@),
{
    storage.remove(tag);
}

/// Fires each timer that is due at `now`: one whose duration, and more, has
/// passed since it last fired is switched on and fires from `now`. The others
/// stay as they are.
pub fn update(storage: &mut Storage, now: isize)
    ensures
        final(storage)@.dom() == old(storage)@.dom(),
        forall|t: Seq<char>| #[trigger]
            old(storage)@.dom().contains(t) ==> final(storage)@[t] == old(storage)@[t].updated(
                now as int,
            ),
{
    storage.update_all(now);
}

/// Switches every timer off, ready for the next round.
pub fn update_next(storage: &mut Storage)
    ensures
        final(storage)@.dom() == old(storage)@.dom(),
        forall|t: Seq<char>| #[trigger]
            old(storage)@.dom().contains(t) ==> final(storage)@[t] == old(
                storage,
            )@[t].switched_off(),
{
    storage.switch_all_off();
}

} // verus!
