use tyozo::locks::RWLock;
use tyozo::Locks;

#[test]
fn test_read_lock() {
    let mut locks = Locks::new();

    let key = "key";

    locks.read_lock(key);
    locks.read_lock(key);
    locks.read_lock(key);
    locks.read_lock(key);

    let lock = locks.state(key).unwrap();

    assert_eq!(lock, RWLock::Read(4));
}

#[test]
fn test_read_unlock() {
    let mut locks = Locks::new();

    let key = "key";

    locks.read_lock(key);
    locks.read_unlock(key);

    assert!(locks.state(key).is_none());
}

#[test]
fn test_write_lock() {
    let mut locks = Locks::new();

    let key = "key";

    locks.write_lock(key);

    let lock = locks.state(key).unwrap();

    assert_eq!(lock, RWLock::Write);
}

#[test]
fn test_write_unlock() {
    let mut locks = Locks::new();

    let key = "key";

    locks.write_lock(key);
    locks.write_unlock(key);

    assert!(locks.state(key).is_none());
}

#[test]
fn read_lock_is_granted_beside_readers_and_refused_beside_a_writer() {
    let mut locks = Locks::new();

    assert!(locks.read_lock("shared"));
    assert!(locks.read_lock("shared"));
    assert_eq!(locks.state("shared"), Some(RWLock::Read(2)));

    assert!(locks.write_lock("owned"));
    assert!(!locks.read_lock("owned"));
    assert_eq!(locks.state("owned"), Some(RWLock::Write));
}

#[test]
fn write_lock_is_refused_while_anybody_holds_the_key() {
    let mut locks = Locks::new();

    assert!(locks.read_lock("key"));
    assert!(!locks.write_lock("key"));
    assert_eq!(locks.state("key"), Some(RWLock::Read(1)));

    locks.read_unlock("key");
    assert!(locks.write_lock("key"));
    assert!(!locks.write_lock("key"));
    assert_eq!(locks.state("key"), Some(RWLock::Write));
}

#[test]
fn read_unlock_counts_down_and_drops_the_entry_with_the_last_reader() {
    let mut locks = Locks::new();

    locks.read_lock("key");
    locks.read_lock("key");
    locks.read_lock("key");

    locks.read_unlock("key");
    assert_eq!(locks.state("key"), Some(RWLock::Read(2)));
    locks.read_unlock("key");
    assert_eq!(locks.state("key"), Some(RWLock::Read(1)));
    locks.read_unlock("key");
    assert_eq!(locks.state("key"), None);
}

#[test]
fn locks_on_different_keys_do_not_meet() {
    let mut locks = Locks::new();

    assert!(locks.write_lock("a"));
    assert!(locks.write_lock("b"));
    assert!(locks.read_lock("c"));
    locks.write_unlock("a");

    assert_eq!(locks.state("a"), None);
    assert_eq!(locks.state("b"), Some(RWLock::Write));
    assert_eq!(locks.state("c"), Some(RWLock::Read(1)));
}
