use graphing_calculator::cooldown::job;
use graphing_calculator::cooldown::{Object, Storage, DEFAULT_DURATION};

#[test]
fn added_timer_is_off() {
    let mut storage = Storage::new();
    job::add(&mut storage, "resolution", 2, 100);
    assert_eq!(storage.len(), 1);
    assert!(!job::is_on(&storage, "resolution"));
    assert_eq!(
        storage.get("resolution"),
        Some(Object { duration: 2, old_time: 100, on: false })
    );
    assert_eq!(storage.get("fps"), None);
}

#[test]
fn default_timer() {
    assert_eq!(
        Object::starting_at(7),
        Object { duration: DEFAULT_DURATION, old_time: 7, on: false }
    );
    assert_eq!(DEFAULT_DURATION, 5);
}

#[test]
fn adding_again_replaces() {
    let mut storage = Storage::new();
    job::add(&mut storage, "fps", 1, 0);
    job::add(&mut storage, "resolution", 2, 0);
    job::add(&mut storage, "fps", 9, 50);
    assert_eq!(storage.len(), 2);
    assert_eq!(storage.get("fps"), Some(Object { duration: 9, old_time: 50, on: false }));
    assert_eq!(storage.get("resolution"), Some(Object { duration: 2, old_time: 0, on: false }));
}

#[test]
fn update_fires_what_is_due() {
    let mut storage = Storage::new();
    job::add(&mut storage, "resolution", 2, 100);
    job::add(&mut storage, "fps", 1, 100);
    job::update(&mut storage, 102);
    assert!(job::is_on(&storage, "fps"));
    assert!(!job::is_on(&storage, "resolution"));
    assert_eq!(storage.get("fps"), Some(Object { duration: 1, old_time: 102, on: true }));
    job::update(&mut storage, 103);
    assert!(job::is_on(&storage, "resolution"));
    assert_eq!(storage.get("resolution"), Some(Object { duration: 2, old_time: 103, on: true }));
    assert_eq!(storage.get("fps"), Some(Object { duration: 1, old_time: 102, on: true }));
}

#[test]
fn update_next_switches_off() {
    let mut storage = Storage::new();
    job::add(&mut storage, "fps", 1, 0);
    job::update(&mut storage, 10);
    assert!(job::is_on(&storage, "fps"));
    job::update_next(&mut storage);
    assert!(!job::is_on(&storage, "fps"));
    assert_eq!(storage.get("fps"), Some(Object { duration: 1, old_time: 10, on: false }));
}

#[test]
fn update_at_the_ends_of_time() {
    let mut storage = Storage::new();
    job::add(&mut storage, "a", isize::MIN, isize::MAX);
    job::add(&mut storage, "b", isize::MAX, isize::MIN);
    job::update(&mut storage, isize::MIN);
    assert!(!job::is_on(&storage, "a"));
    assert!(!job::is_on(&storage, "b"));
    job::add(&mut storage, "c", isize::MAX, 0);
    job::update(&mut storage, isize::MAX);
    assert!(job::is_on(&storage, "a"));
    assert!(job::is_on(&storage, "b"));
    assert!(!job::is_on(&storage, "c"));
}

#[test]
fn remove_takes_one_away() {
    let mut storage = Storage::new();
    job::add(&mut storage, "fps", 1, 0);
    job::add(&mut storage, "resolution", 2, 0);
    job::remove(&mut storage, "fps");
    assert_eq!(storage.len(), 1);
    assert_eq!(storage.get("fps"), None);
    assert!(storage.get("resolution").is_some());
    job::remove(&mut storage, "fps");
    assert_eq!(storage.len(), 1);
}
