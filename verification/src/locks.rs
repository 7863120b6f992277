//! The registry of per-key locks: shared locks for readers, exclusive ones
//! for writers.
//!
//! The registry never waits. Taking a lock either succeeds at once or
//! reports that the key is held; the caller yields and asks again.

use vstd::hash_map::StringHashMap;
use vstd::prelude::*;

verus! {

/// What is held on one key: a shared lock with its number of readers, or the
/// exclusive lock of one writer.
#[derive(Debug, Clone, Copy, PartialOrd, PartialEq, Eq, Structural)]
pub enum RWLock {
    Read(usize),
    Write,
}

/// Whether a reader can join on `key`: no writer holds it, and the count of
/// its readers can still grow.
pub open spec fn can_read(table: Map<Seq<char>, RWLock>, key: Seq<char>) -> bool {
    table.contains_key(key) ==> (table[key] matches RWLock::Read(n) && n < usize::MAX)
}

/// Whether a writer can take `key`: nobody holds it.
pub open spec fn can_write(table: Map<Seq<char>, RWLock>, key: Seq<char>) -> bool {
    !table.contains_key(key)
}

/// Whether `key` is held by at least one reader.
pub open spec fn read_held(table: Map<Seq<char>, RWLock>, key: Seq<char>) -> bool {
    table.contains_key(key) && table[key] is Read
}

/// Whether `key` is held by a writer.
pub open spec fn write_held(table: Map<Seq<char>, RWLock>, key: Seq<char>) -> bool {
    table.contains_key(key) && table[key] is Write
}

/// The table after one more reader has joined on `key`.
pub open spec fn with_reader(table: Map<Seq<char>, RWLock>, key: Seq<char>) -> Map<
    Seq<char>,
    RWLock,
> {
    if table.contains_key(key) && table[key] is Read {
        table.insert(key, RWLock::Read((table[key]->Read_0 + 1) as usize))
    } else {
        table.insert(key, RWLock::Read(1))
    }
}

/// The table after one reader has left `key`: the entry goes with the last
/// reader.
pub open spec fn without_reader(table: Map<Seq<char>, RWLock>, key: Seq<char>) -> Map<
    Seq<char>,
    RWLock,
> {
    if table.contains_key(key) && table[key] is Read && table[key]->Read_0 > 1 {
        table.insert(key, RWLock::Read((table[key]->Read_0 - 1) as usize))
    } else {
        table.remove(key)
    }
}

/// No entry stands for zero readers.
pub open spec fn no_idle_entry(table: Map<Seq<char>, RWLock>) -> bool {
    forall|key: Seq<char>| table.contains_key(key) ==> table[key] != RWLock::Read(0)
}

/// Taking and giving back locks never leaves an entry for zero readers.
pub proof fn lemma_no_idle_entry(table: Map<Seq<char>, RWLock>, key: Seq<char>)
    requires
        no_idle_entry(table),
    ensures
        can_read(table, key) ==> no_idle_entry(with_reader(table, key)),
        no_idle_entry(table.insert(key, RWLock::Write)),
        no_idle_entry(without_reader(table, key)),
        no_idle_entry(table.remove(key)),
{
}

/// The registry: for each key that is held, what is held on it. A key
/// without entry is free.
pub struct Locks {
    hashmap: StringHashMap<RWLock>,
}

impl View for Locks {
    type V = Map<Seq<char>, RWLock>;

    closed spec fn view(&self) -> Map<Seq<char>, RWLock> {
        self.hashmap@
    }
}

impl Locks {
    /// The registry in which every key is free.
    pub fn new() -> (locks: Locks)
        ensures
            locks@ == Map::<Seq<char>, RWLock>::empty(),
            no_idle_entry(locks@),
    {
        Locks { hashmap: StringHashMap::new() }
    }

    /// What is held on `key`, if anything.
    pub fn state(&self, key: &str) -> (held: Option<RWLock>)
        ensures
            held == if self@.contains_key(key@) {
                Some(self@[key@])
            } else {
                None
            },
    {
        match self.hashmap.get(key) {
            Some(lock) => Some(*lock),
            None => None,
        }
    }

    /// Takes a shared lock on `key`. Returns `false`, and changes nothing,
    /// while a writer holds the key: the caller has to ask again.
    pub fn read_lock(&mut self, key: &str) -> (granted: bool)
        ensures
            granted == can_read(old(self)@, key@),
            final(self)@ == if granted {
                with_reader(old(self)@, key@)
            } else {
                old(self)@
            },
            no_idle_entry(old(self)@) ==> no_idle_entry(final(self)@),
    {
        match self.state(key) {
            None => {
                self.hashmap.insert(key.to_owned(), RWLock::Read(1));
                true
            },
            Some(RWLock::Read(count)) => {
                if count < usize::MAX {
                    self.hashmap.insert(key.to_owned(), RWLock::Read(count + 1));
                    true
                } else {
                    false
                }
            },
            Some(RWLock::Write) => false,
        }
    }

    /// Gives back one shared lock on `key`. The caller holds one.
    pub fn read_unlock(&mut self, key: &str)
        requires
            read_held(old(self)@, key@),
        ensures
            final(self)@ == without_reader(old(self)@, key@),
            no_idle_entry(old(self)@) ==> no_idle_entry(final(self)@),
    {
        match self.state(key) {
            Some(RWLock::Read(count)) => {
                if count > 1 {
                    self.hashmap.insert(key.to_owned(), RWLock::Read(count - 1));
                } else {
                    self.hashmap.remove(key);
                }
            },
            _ => {},
        }
    }

    /// Gives back the exclusive lock on `key`. The caller holds it.
    pub fn write_unlock(&mut self, key: &str)
        requires
            write_held(old(self)@, key@),
        ensures
            final(self)@ == old(self)@.remove(key@),
            no_idle_entry(old(self)@) ==> no_idle_entry(final(self)@),
    {
        self.hashmap.remove(key);
    }

    /// Takes the exclusive lock on `key`. Returns `false`, and changes
    /// nothing, while anybody holds the key: the caller has to ask again.
    pub fn write_lock(&mut self, key: &str) -> (granted: bool)
        ensures
            granted == can_write(old(self)@, key@),
            final(self)@ == if granted {
                old(self)@.insert(key@, RWLock::Write)
            } else {
                old(self)@
            },
            no_idle_entry(old(self)@) ==> no_idle_entry(final(self)@),
    {
        if self.hashmap.contains_key(key) {
            false
        } else {
            self.hashmap.insert(key.to_owned(), RWLock::Write);
            true
        }
    }
}

} // verus!
