//! A transaction: the writes of one session, staged until commit, and the
//! locks that the session holds meanwhile.
//!
//! A session takes a lock on a key when it first touches it, and keeps it
//! until it commits, aborts or is torn down: a shared lock to read a value of
//! the store, the exclusive lock to stage a write or to withdraw one. A
//! command that needs a lock which another session holds does not run; the
//! session is told to wait, and nothing has changed.

use crate::command::{Command, CommandView};
use crate::locks::{
    can_read, can_write, no_idle_entry, read_held, with_reader, without_reader, write_held, Locks,
    RWLock,
};
use crate::memdb::{read_reply, value_reply, value_text, Memdb};
use crate::table::{map_of, present, Table};
use crate::text::{
    decimal, decimal_string, lemma_text_of_encoding, reply_text, same_text, texts,
};
use vstd::prelude::*;
use vstd::slice::slice_to_vec;
use vstd::utf8::encode_utf8;

verus! {

/// What a session holds: the values it has read from the store, the writes
/// it has staged, and the keys it has locked.
pub struct Session {
    pub seen: Map<Seq<char>, Seq<u8>>,
    pub pending: Map<Seq<char>, Seq<u8>>,
    pub shared: Set<Seq<char>>,
    pub exclusive: Set<Seq<char>>,
}

impl Session {
    /// The session that holds nothing.
    pub open spec fn empty() -> Session {
        Session {
            seen: Map::empty(),
            pending: Map::empty(),
            shared: Set::empty(),
            exclusive: Set::empty(),
        }
    }

    /// Whether the session holds a lock on `key`.
    pub open spec fn touched(self, key: Seq<char>) -> bool {
        self.shared.contains(key) || self.exclusive.contains(key)
    }

    /// The value that the session has for `key`: the one it has read, else
    /// the one it has staged.
    pub open spec fn cached(self, key: Seq<char>) -> Option<Seq<u8>> {
        if self.seen.contains_key(key) {
            Some(self.seen[key])
        } else if self.pending.contains_key(key) {
            Some(self.pending[key])
        } else {
            None
        }
    }

    /// No key is locked both ways, and every key that the session has a
    /// value for is locked.
    pub open spec fn wf(self) -> bool {
        &&& self.shared.disjoint(self.exclusive)
        &&& forall|key: Seq<char>| #[trigger] self.seen.contains_key(key) ==> self.touched(key)
        &&& forall|key: Seq<char>| #[trigger] self.pending.contains_key(key) ==> self.touched(key)
    }

    /// The registry has every lock that the session holds.
    pub open spec fn holds(self, registry: Map<Seq<char>, RWLock>) -> bool {
        &&& forall|key: Seq<char>| #[trigger] self.shared.contains(key) ==> read_held(registry, key)
        &&& forall|key: Seq<char>| #[trigger]
            self.exclusive.contains(key) ==> write_held(registry, key)
    }
}

/// The registry once the locks in `shared` and `exclusive` are given back:
/// one reader less on each key of the first, no entry for a key of the
/// second.
pub open spec fn released(
    registry: Map<Seq<char>, RWLock>,
    shared: Set<Seq<char>>,
    exclusive: Set<Seq<char>>,
) -> Map<Seq<char>, RWLock> {
    Map::new(
        |key: Seq<char>|
            registry.contains_key(key) && !exclusive.contains(key) && (shared.contains(key)
                ==> registry[key] is Read && registry[key]->Read_0 > 1),
        |key: Seq<char>|
            if shared.contains(key) {
                RWLock::Read((registry[key]->Read_0 - 1) as usize)
            } else {
                registry[key]
            },
    )
}

/// The registry once the exclusive lock is taken on each key of `keys`.
pub open spec fn with_writers(registry: Map<Seq<char>, RWLock>, keys: Set<Seq<char>>) -> Map<
    Seq<char>,
    RWLock,
> {
    Map::new(
        |key: Seq<char>| registry.contains_key(key) || keys.contains(key),
        |key: Seq<char>|
            if keys.contains(key) {
                RWLock::Write
            } else {
                registry[key]
            },
    )
}

/// The keys among `keys` that the session has not locked yet.
pub open spec fn untouched(session: Session, keys: Seq<Seq<char>>) -> Set<Seq<char>> {
    Set::new(|key: Seq<char>| keys.contains(key) && !session.touched(key))
}

/// The message for a command that a transaction does not take.
pub open spec fn unsupported() -> Seq<char> {
    "ERR unsupport transaction command"@
}

/// Whether one of the keys that the session has not locked yet is held by
/// somebody.
pub open spec fn held_back(
    session: Session,
    registry: Map<Seq<char>, RWLock>,
    keys: Seq<Seq<char>>,
) -> bool {
    exists|key: Seq<char>|
        #![trigger untouched(session, keys).contains(key)]
        untouched(session, keys).contains(key) && !can_write(registry, key)
}

/// Whether the command has to wait: it needs a lock that it cannot have now.
pub open spec fn waits(
    session: Session,
    registry: Map<Seq<char>, RWLock>,
    store: Map<Seq<char>, Seq<u8>>,
    command: CommandView,
) -> bool {
    match command {
        CommandView::Put { key, .. } => !session.touched(key) && !can_write(registry, key),
        CommandView::Get { key } => {
            &&& session.cached(key) is None
            &&& store.contains_key(key)
            &&& !session.touched(key)
            &&& !can_read(registry, key)
        },
        CommandView::Del { keys } => held_back(session, registry, keys),
        _ => false,
    }
}

/// A session, the registry and the store after a command, and the reply.
pub struct Outcome {
    pub session: Session,
    pub registry: Map<Seq<char>, RWLock>,
    pub store: Map<Seq<char>, Seq<u8>>,
    pub reply: Result<Seq<char>, Seq<char>>,
}

/// What a command that does not have to wait does.
pub open spec fn stepped(
    session: Session,
    registry: Map<Seq<char>, RWLock>,
    store: Map<Seq<char>, Seq<u8>>,
    command: CommandView,
) -> Outcome {
    match command {
        CommandView::Put { key, value } => Outcome {
            session: Session {
                pending: session.pending.insert(key, encode_utf8(value)),
                exclusive: if session.touched(key) {
                    session.exclusive
                } else {
                    session.exclusive.insert(key)
                },
                ..session
            },
            registry: if session.touched(key) {
                registry
            } else {
                registry.insert(key, RWLock::Write)
            },
            store,
            reply: Ok("OK"@),
        },
        CommandView::Get { key } => match session.cached(key) {
            Some(value) => Outcome { session, registry, store, reply: value_reply(value) },
            None => if !store.contains_key(key) {
                Outcome { session, registry, store, reply: Ok("None"@) }
            } else {
                Outcome {
                    session: Session {
                        seen: session.seen.insert(key, store[key]),
                        shared: if session.touched(key) {
                            session.shared
                        } else {
                            session.shared.insert(key)
                        },
                        ..session
                    },
                    registry: if session.touched(key) {
                        registry
                    } else {
                        with_reader(registry, key)
                    },
                    store,
                    reply: value_reply(store[key]),
                }
            },
        },
        CommandView::Del { keys } => Outcome {
            session: Session {
                pending: session.pending.remove_keys(keys.to_set()),
                exclusive: session.exclusive.union(untouched(session, keys)),
                ..session
            },
            registry: with_writers(registry, untouched(session, keys)),
            store,
            reply: Ok(decimal(present(session.pending, keys).len())),
        },
        CommandView::Exec => Outcome {
            session: Session::empty(),
            registry: released(registry, session.shared, session.exclusive),
            store: store.union_prefer_right(session.pending),
            reply: Ok("OK"@),
        },
        CommandView::Abort => Outcome {
            session: Session::empty(),
            registry: released(registry, session.shared, session.exclusive),
            store,
            reply: Ok("Abort transaction"@),
        },
        _ => Outcome { session, registry, store, reply: Err(unsupported()) },
    }
}

/// Isolation: a write that is staged is not in the store, and the reply to
/// another session's read is what it was without the write. A session that
/// has not touched the key cannot read it from the store while the writer
/// holds it exclusive. Once the writer commits, the store has the value.
pub proof fn lemma_isolation(
    writer: Session,
    reader: Session,
    registry: Map<Seq<char>, RWLock>,
    store: Map<Seq<char>, Seq<u8>>,
    key: Seq<char>,
    value: Seq<char>,
)
    requires
        writer.wf(),
        writer.holds(registry),
        !waits(writer, registry, store, CommandView::Put { key, value }),
    ensures
        ({
            let read = CommandView::Get { key };
            let staged = stepped(writer, registry, store, CommandView::Put { key, value });
            let committed = stepped(
                staged.session,
                staged.registry,
                staged.store,
                CommandView::Exec,
            );
            &&& staged.store == store
            &&& stepped(reader, staged.registry, staged.store, read).reply == stepped(
                reader,
                registry,
                store,
                read,
            ).reply
            &&& !writer.shared.contains(key) && store.contains_key(key) && !reader.touched(key)
                && reader.cached(key) is None ==> waits(
                reader,
                staged.registry,
                staged.store,
                read,
            )
            &&& committed.store.contains_key(key)
            &&& committed.store[key] == encode_utf8(value)
            &&& read_reply(committed.store, key) == Ok::<Seq<char>, Seq<char>>(
                value,
            )
        }),
{
    lemma_text_of_encoding(value);
}

/// Abort discards: after a write is staged and the transaction is aborted,
/// the store is what it was and the session holds nothing; where the session
/// held nothing before, the registry is what it was, too.
pub proof fn lemma_abort_discards(
    session: Session,
    registry: Map<Seq<char>, RWLock>,
    store: Map<Seq<char>, Seq<u8>>,
    key: Seq<char>,
    value: Seq<char>,
)
    requires
        session.wf(),
        session.holds(registry),
        !waits(session, registry, store, CommandView::Put { key, value }),
    ensures
        ({
            let staged = stepped(session, registry, store, CommandView::Put { key, value });
            let aborted = stepped(
                staged.session,
                staged.registry,
                staged.store,
                CommandView::Abort,
            );
            &&& aborted.store == store
            &&& aborted.session == Session::empty()
            &&& read_reply(aborted.store, key) == read_reply(
                store,
                key,
            )
            &&& session == Session::empty() ==> aborted.registry == registry
        }),
{
    let staged = stepped(session, registry, store, CommandView::Put { key, value });
    if session == Session::empty() {
        assert(released(staged.registry, staged.session.shared, staged.session.exclusive)
            == registry);
    }
}

/// Release on teardown: once a session has given back its locks, every key
/// that it held can be read by others, and can be written by others unless
/// other readers hold it still. Keys that it did not hold are as before.
pub proof fn lemma_teardown_frees(
    session: Session,
    registry: Map<Seq<char>, RWLock>,
    key: Seq<char>,
)
    requires
        session.wf(),
        session.holds(registry),
    ensures
        ({
            let after = released(registry, session.shared, session.exclusive);
            &&& session.touched(key) ==> can_read(after, key)
            &&& session.exclusive.contains(key) ==> can_write(after, key)
            &&& session.shared.contains(key) && registry[key] == RWLock::Read(1) ==> can_write(
                after,
                key,
            )
            &&& session.shared.contains(key) ==> {
                let one_less = without_reader(registry, key);
                &&& after.contains_key(key) == one_less.contains_key(key)
                &&& after.contains_key(key) ==> after[key] == one_less[key]
            }
            &&& !session.touched(key) ==> after.contains_key(key) == registry.contains_key(key)
                && (registry.contains_key(key) ==> after[key] == registry[key])
        }),
{
}

/// No trace: a command that does not end the transaction leaves the
/// registry, without the locks of the session, as it was without them. So
/// whatever a session has done, the registry after its teardown is the one
/// that the other sessions have made.
pub proof fn lemma_no_trace(
    session: Session,
    registry: Map<Seq<char>, RWLock>,
    store: Map<Seq<char>, Seq<u8>>,
    command: CommandView,
)
    requires
        session.wf(),
        session.holds(registry),
        no_idle_entry(registry),
        !waits(session, registry, store, command),
        !(command is Exec),
        !(command is Abort),
    ensures
        ({
            let after = stepped(session, registry, store, command);
            &&& after.session.wf()
            &&& after.session.holds(after.registry)
            &&& no_idle_entry(after.registry)
            &&& released(after.registry, after.session.shared, after.session.exclusive)
                == released(registry, session.shared, session.exclusive)
        }),
{
    let after = stepped(session, registry, store, command);
    let left = released(after.registry, after.session.shared, after.session.exclusive);
    let right = released(registry, session.shared, session.exclusive);
    match command {
        CommandView::Del { keys } => {
            assert forall|key: Seq<char>| #[trigger]
                untouched(session, keys).contains(key) implies can_write(registry, key) by {}
            assert(left =~= right);
        },
        _ => {
            assert(left =~= right);
        },
    }
}

/// The session of one connection: what it has read and staged, and the keys
/// on which it holds a lock, each listed once.
#[derive(Debug)]
pub struct Transaction {
    read_cache: Table,
    write_cache: Table,
    read_locks: Vec<String>,
    write_locks: Vec<String>,
}

impl View for Transaction {
    type V = Session;

    closed spec fn view(&self) -> Session {
        Session {
            seen: self.read_cache@,
            pending: self.write_cache@,
            shared: texts(self.read_locks@).to_set(),
            exclusive: texts(self.write_locks@).to_set(),
        }
    }
}

/// Whether `key` is among `keys`.
fn listed(keys: &Vec<String>, key: &str) -> (r: bool)
    ensures
        r == texts(keys@).contains(key@),
{
    let mut i: usize = 0;
    while i < keys.len()
        invariant
            i <= keys.len(),
            forall|j: int| 0 <= j < i ==> texts(keys@)[j] != key@,
        decreases keys.len() - i,
    {
        if same_text(keys[i].as_str(), key) {
            assert(texts(keys@)[i as int] == key@);
            return true;
        }
        i += 1;
    }
    false
}

impl Default for Transaction {
    fn default() -> (transaction: Transaction)
        ensures
            transaction.wf(),
            transaction@ == Session::empty(),
    {
        Transaction::new()
    }
}

impl Transaction {
    /// The caches hold each key once, the lists of locks hold each key
    /// once, and the session they stand for is well-formed.
    pub closed spec fn wf(&self) -> bool {
        &&& self.read_cache.wf()
        &&& self.write_cache.wf()
        &&& texts(self.read_locks@).no_duplicates()
        &&& texts(self.write_locks@).no_duplicates()
        &&& self@.wf()
    }

    /// A well-formed transaction stands for a well-formed session.
    pub proof fn lemma_wf(&self)
        requires
            self.wf(),
        ensures
            self@.wf(),
    {
    }

    /// A session that holds nothing.
    pub fn new() -> (transaction: Transaction)
        ensures
            transaction.wf(),
            transaction@ == Session::empty(),
    {
        let transaction = Transaction {
            read_cache: Table::new(),
            write_cache: Table::new(),
            read_locks: Vec::new(),
            write_locks: Vec::new(),
        };
        proof {
            assert(texts(transaction.read_locks@) == Seq::<Seq<char>>::empty());
            assert(texts(transaction.write_locks@) == Seq::<Seq<char>>::empty());
            assert(transaction@.shared == Set::<Seq<char>>::empty());
            assert(transaction@.exclusive == Set::<Seq<char>>::empty());
        }
        transaction
    }

    /// Whether the registry has every lock that the session holds.
    pub fn holds(&self, locks: &Locks) -> (r: bool)
        ensures
            r == self@.holds(locks@),
    {
        let ghost readers = texts(self.read_locks@);
        let ghost writers = texts(self.write_locks@);
        let mut i: usize = 0;
        while i < self.read_locks.len()
            invariant
                i <= self.read_locks.len(),
                readers == texts(self.read_locks@),
                forall|j: int| 0 <= j < i ==> read_held(locks@, #[trigger] readers[j]),
            decreases self.read_locks.len() - i,
        {
            match locks.state(self.read_locks[i].as_str()) {
                Some(RWLock::Read(_)) => {},
                _ => {
                    assert(self@.shared.contains(readers[i as int]));
                    return false;
                },
            }
            i += 1;
        }
        let mut j: usize = 0;
        while j < self.write_locks.len()
            invariant
                j <= self.write_locks.len(),
                writers == texts(self.write_locks@),
                forall|k: int| 0 <= k < j ==> write_held(locks@, #[trigger] writers[k]),
            decreases self.write_locks.len() - j,
        {
            match locks.state(self.write_locks[j].as_str()) {
                Some(RWLock::Write) => {},
                _ => {
                    assert(self@.exclusive.contains(writers[j as int]));
                    return false;
                },
            }
            j += 1;
        }
        true
    }

    /// Whether the session holds a lock on `key`.
    fn touched(&self, key: &str) -> (r: bool)
        ensures
            r == self@.touched(key@),
    {
        listed(&self.read_locks, key) || listed(&self.write_locks, key)
    }

    /// The value that the session has for `key`.
    fn get(&self, key: &str) -> (value: Option<Vec<u8>>)
        ensures
            match value {
                Some(v) => self@.cached(key@) == Some(v@),
                None => self@.cached(key@) is None,
            },
    {
        if let Some(v) = self.read_cache.get(key) {
            return Some(slice_to_vec(v.as_slice()));
        }
        if let Some(v) = self.write_cache.get(key) {
            return Some(slice_to_vec(v.as_slice()));
        }
        None
    }

    /// Keeps a value that was read from the store.
    fn read_set(&mut self, key: &str, value: &[u8])
        requires
            old(self).wf(),
            old(self)@.touched(key@),
        ensures
            final(self).wf(),
            final(self)@ == (Session { seen: old(self)@.seen.insert(key@, value@), ..old(self)@ }),
    {
        self.read_cache.insert(key.to_owned(), slice_to_vec(value));
    }

    /// Stages a write.
    fn write_set(&mut self, key: &str, value: &[u8])
        requires
            old(self).wf(),
            old(self)@.touched(key@),
        ensures
            final(self).wf(),
            final(self)@ == (Session {
                pending: old(self)@.pending.insert(key@, value@),
                ..old(self)@
            }),
    {
        self.write_cache.insert(key.to_owned(), slice_to_vec(value));
    }

    /// Withdraws the staged writes of the keys, and returns how many of the
    /// keys had one.
    fn del(&mut self, keys: &Vec<String>) -> (count: usize)
        requires
            old(self).wf(),
        ensures
            final(self).wf(),
            final(self)@ == (Session {
                pending: old(self)@.pending.remove_keys(texts(keys@).to_set()),
                ..old(self)@
            }),
            count == present(old(self)@.pending, texts(keys@)).len(),
    {
        self.write_cache.remove_all(keys)
    }

    /// Notes that the session now holds the exclusive lock on `key`.
    fn note_writer(&mut self, key: &str)
        requires
            old(self).wf(),
            !old(self)@.touched(key@),
        ensures
            final(self).wf(),
            final(self)@ == (Session {
                exclusive: old(self)@.exclusive.insert(key@),
                ..old(self)@
            }),
    {
        let ghost before = texts(self.write_locks@);
        self.write_locks.push(key.to_owned());
        proof {
            assert(texts(self.write_locks@) == before.push(key@));
            before.lemma_push_to_set_commute(key@);
            assert(!before.contains(key@));
        }
    }

    /// Notes that the session now holds a shared lock on `key`.
    fn note_reader(&mut self, key: &str)
        requires
            old(self).wf(),
            !old(self)@.touched(key@),
        ensures
            final(self).wf(),
            final(self)@ == (Session { shared: old(self)@.shared.insert(key@), ..old(self)@ }),
    {
        let ghost before = texts(self.read_locks@);
        self.read_locks.push(key.to_owned());
        proof {
            assert(texts(self.read_locks@) == before.push(key@));
            before.lemma_push_to_set_commute(key@);
            assert(!before.contains(key@));
        }
    }

    /// Gives back every lock that the session holds, and forgets what it
    /// has read and staged.
    pub fn clear_lock(&mut self, locks: &mut Locks)
        requires
            old(self).wf(),
            old(self)@.holds(old(locks)@),
        ensures
            final(self).wf(),
            final(self)@ == Session::empty(),
            final(locks)@ == released(old(locks)@, old(self)@.shared, old(self)@.exclusive),
            no_idle_entry(old(locks)@) ==> no_idle_entry(final(locks)@),
    {
        let ghost registry = locks@;
        let ghost readers = texts(self.read_locks@);
        let ghost writers = texts(self.write_locks@);
        let mut i: usize = 0;
        proof {
            assert(readers.take(0).to_set() == Set::<Seq<char>>::empty());
            assert(locks@ == released(registry, readers.take(0).to_set(), Set::empty()));
            assert forall|key: Seq<char>| readers.contains(key) implies read_held(
                registry,
                key,
            ) by {
                assert(self@.shared.contains(key));
            }
            assert forall|key: Seq<char>| writers.contains(key) implies write_held(
                registry,
                key,
            ) by {
                assert(self@.exclusive.contains(key));
            }
        }
        while i < self.read_locks.len()
            invariant
                i <= self.read_locks.len(),
                readers == texts(self.read_locks@),
                writers == texts(self.write_locks@),
                readers.no_duplicates(),
                writers.no_duplicates(),
                readers.to_set().disjoint(writers.to_set()),
                forall|key: Seq<char>| writers.contains(key) ==> write_held(registry, key),
                forall|key: Seq<char>| readers.contains(key) ==> read_held(registry, key),
                locks@ == released(registry, readers.take(i as int).to_set(), Set::empty()),
            decreases self.read_locks.len() - i,
        {
            let ghost key = readers[i as int];
            let ghost done = readers.take(i as int);
            proof {
                assert(readers.contains(key));
                assert(!done.contains(key));
                done.lemma_push_to_set_commute(key);
                assert(readers.take(i + 1) == done.push(key));
            }
            locks.read_unlock(self.read_locks[i].as_str());
            assert(locks@ == released(registry, readers.take(i + 1).to_set(), Set::empty()));
            i += 1;
        }
        assert(readers.take(i as int) == readers);
        let mut j: usize = 0;
        proof {
            assert(writers.take(0).to_set() == Set::<Seq<char>>::empty());
        }
        while j < self.write_locks.len()
            invariant
                j <= self.write_locks.len(),
                writers == texts(self.write_locks@),
                writers.no_duplicates(),
                readers.to_set().disjoint(writers.to_set()),
                forall|key: Seq<char>| writers.contains(key) ==> write_held(registry, key),
                locks@ == released(registry, readers.to_set(), writers.take(j as int).to_set()),
            decreases self.write_locks.len() - j,
        {
            let ghost key = writers[j as int];
            let ghost done = writers.take(j as int);
            proof {
                assert(writers.contains(key));
                assert(!done.contains(key));
                assert(!readers.to_set().contains(key));
                done.lemma_push_to_set_commute(key);
                assert(writers.take(j + 1) == done.push(key));
            }
            locks.write_unlock(self.write_locks[j].as_str());
            assert(locks@ == released(registry, readers.to_set(), writers.take(j + 1).to_set()));
            j += 1;
        }
        assert(writers.take(j as int) == writers);
        self.read_cache = Table::new();
        self.write_cache = Table::new();
        self.read_locks = Vec::new();
        self.write_locks = Vec::new();
        proof {
            assert(texts(self.read_locks@) == Seq::<Seq<char>>::empty());
            assert(texts(self.write_locks@) == Seq::<Seq<char>>::empty());
            assert(self@.shared == Set::<Seq<char>>::empty());
            assert(self@.exclusive == Set::<Seq<char>>::empty());
        }
    }

    /// Writes every staged value into the store.
    fn commit(&self, memdb: &mut Memdb)
        requires
            self.wf(),
            old(memdb).wf(),
        ensures
            final(memdb).wf(),
            final(memdb)@ == old(memdb)@.union_prefer_right(self@.pending),
    {
        let ghost store = memdb@;
        let ghost pairs = self.write_cache.pairs();
        let mut i: usize = 0;
        proof {
            self.write_cache.lemma_pairs();
            assert(map_of(pairs.take(0)) == Map::<Seq<char>, Seq<u8>>::empty());
            assert(memdb@ == store.union_prefer_right(map_of(pairs.take(0))));
        }
        while i < self.write_cache.len()
            invariant
                i <= pairs.len(),
                pairs == self.write_cache.pairs(),
                memdb.wf(),
                memdb@ == store.union_prefer_right(map_of(pairs.take(i as int))),
            decreases pairs.len() - i,
        {
            memdb.set(self.write_cache.key_at(i).as_str(), self.write_cache.value_at(i).as_slice());
            proof {
                let now = pairs.take(i + 1);
                assert(now.drop_last() == pairs.take(i as int));
                assert(now.last() == pairs[i as int]);
                assert(memdb@ == store.union_prefer_right(map_of(now)));
            }
            i += 1;
        }
        assert(pairs.take(i as int) == pairs);
    }

    /// Carries out one command of an open transaction. Returns `None`, and
    /// changes nothing, where the command has to wait for a lock that
    /// another session holds: the caller tries the command again later.
    ///
    /// A write or a withdrawal takes the exclusive lock on a key that the
    /// session has not locked yet; a read of a value of the store takes a
    /// shared one. Commit writes the staged values into the store; commit
    /// and abort give back every lock.
    pub fn exec_command(&mut self, command: Command, locks: &mut Locks, memdb: &mut Memdb) -> (r:
        Option<Result<String, String>>)
        requires
            old(self).wf(),
            old(memdb).wf(),
            old(self)@.holds(old(locks)@),
        ensures
            final(self).wf(),
            final(memdb).wf(),
            final(self)@.holds(final(locks)@),
            no_idle_entry(old(locks)@) ==> no_idle_entry(final(locks)@),
            match r {
                Some(reply) => {
                    &&& !waits(old(self)@, old(locks)@, old(memdb)@, command@)
                    &&& stepped(old(self)@, old(locks)@, old(memdb)@, command@) == (Outcome {
                        session: final(self)@,
                        registry: final(locks)@,
                        store: final(memdb)@,
                        reply: reply_text(reply),
                    })
                },
                None => {
                    &&& waits(old(self)@, old(locks)@, old(memdb)@, command@)
                    &&& final(self)@ == old(self)@
                    &&& final(locks)@ == old(locks)@
                    &&& final(memdb)@ == old(memdb)@
                },
            },
    {
        match command {
            Command::Put { key, value } => {
                if !self.touched(key.as_str()) {
                    if !locks.write_lock(key.as_str()) {
                        return None;
                    }
                    self.note_writer(key.as_str());
                }
                self.write_set(key.as_str(), value.as_str().as_bytes());
                Some(Ok("OK".to_owned()))
            },
            Command::Get { key } => match self.get(key.as_str()) {
                Some(v) => Some(value_text(v)),
                None => match memdb.get(key.as_str()) {
                    None => Some(Ok("None".to_owned())),
                    Some(v) => {
                        if !self.touched(key.as_str()) {
                            if !locks.read_lock(key.as_str()) {
                                return None;
                            }
                            self.note_reader(key.as_str());
                        }
                        self.read_set(key.as_str(), v.as_slice());
                        Some(value_text(v))
                    },
                },
            },
            Command::Del { keys } => {
                if !self.lock_all(&keys, locks) {
                    return None;
                }
                let count = self.del(&keys);
                Some(Ok(decimal_string(count)))
            },
            Command::Exec => {
                self.commit(memdb);
                self.clear_lock(locks);
                Some(Ok("OK".to_owned()))
            },
            Command::Abort => {
                self.clear_lock(locks);
                Some(Ok("Abort transaction".to_owned()))
            },
            _ => Some(Err("ERR unsupport transaction command".to_owned())),
        }
    }

    /// Takes the exclusive lock on each of the keys that the session has
    /// not locked yet: on all of them, or, where one is held, on none.
    fn lock_all(&mut self, keys: &Vec<String>, locks: &mut Locks) -> (granted: bool)
        requires
            old(self).wf(),
            old(self)@.holds(old(locks)@),
        ensures
            final(self).wf(),
            final(self)@.holds(final(locks)@),
            no_idle_entry(old(locks)@) ==> no_idle_entry(final(locks)@),
            granted == !held_back(old(self)@, old(locks)@, texts(keys@)),
            granted ==> final(self)@ == (Session {
                exclusive: old(self)@.exclusive.union(untouched(old(self)@, texts(keys@))),
                ..old(self)@
            }) && final(locks)@ == with_writers(old(locks)@, untouched(old(self)@, texts(keys@))),
            !granted ==> final(self)@ == old(self)@ && final(locks)@ == old(locks)@,
    {
        let ghost wanted = texts(keys@);
        let mut i: usize = 0;
        while i < keys.len()
            invariant
                i <= keys.len(),
                wanted == texts(keys@),
                self.wf(),
                *self == *old(self),
                *locks == *old(locks),
                self@.holds(locks@),
                forall|j: int|
                    0 <= j < i ==> self@.touched(#[trigger] wanted[j]) || can_write(
                        locks@,
                        wanted[j],
                    ),
            decreases keys.len() - i,
        {
            if !self.touched(keys[i].as_str()) && locks.state(keys[i].as_str()).is_some() {
                proof {
                    let key = wanted[i as int];
                    assert(wanted.contains(key));
                    assert(untouched(old(self)@, wanted).contains(key) && !can_write(
                        old(locks)@,
                        key,
                    ));
                }
                return false;
            }
            i += 1;
        }
        let ghost session = self@;
        let ghost registry = locks@;
        let mut j: usize = 0;
        proof {
            assert(untouched(session, wanted.take(0)) == Set::<Seq<char>>::empty());
            assert(session.exclusive.union(untouched(session, wanted.take(0)))
                == session.exclusive);
            assert(locks@ == with_writers(registry, untouched(session, wanted.take(0))));
        }
        while j < keys.len()
            invariant
                j <= keys.len(),
                wanted == texts(keys@),
                session.wf(),
                session.holds(registry),
                self.wf(),
                forall|k: int|
                    0 <= k < wanted.len() ==> session.touched(#[trigger] wanted[k]) || can_write(
                        registry,
                        wanted[k],
                    ),
                self@ == (Session {
                    exclusive: session.exclusive.union(
                        untouched(session, wanted.take(j as int)),
                    ),
                    ..session
                }),
                locks@ == with_writers(registry, untouched(session, wanted.take(j as int))),
            decreases keys.len() - j,
        {
            let ghost key = wanted[j as int];
            let ghost done = wanted.take(j as int);
            proof {
                assert(wanted.take(j + 1) == done.push(key));
                assert forall|k: Seq<char>| #[trigger]
                    untouched(session, done.push(key)).contains(k) == (untouched(
                        session,
                        done,
                    ).contains(k) || (k == key && !session.touched(key))) by {
                    if done.push(key).contains(k) {
                        let at = choose|at: int|
                            0 <= at < done.push(key).len() && done.push(key)[at] == k;
                        if at < done.len() {
                            assert(done[at] == k);
                        }
                    }
                    if done.contains(k) {
                        let at = choose|at: int| 0 <= at < done.len() && done[at] == k;
                        assert(done.push(key)[at] == k);
                    }
                    if k == key {
                        assert(done.push(key)[done.len() as int] == k);
                    }
                }
            }
            if !self.touched(keys[j].as_str()) {
                let granted = locks.write_lock(keys[j].as_str());
                assert(granted);
                self.note_writer(keys[j].as_str());
                proof {
                    assert(untouched(session, wanted.take(j + 1)) == untouched(
                        session,
                        done,
                    ).insert(key));
                }
            } else {
                proof {
                    assert(untouched(session, wanted.take(j + 1)) == untouched(session, done));
                }
            }
            proof {
                assert(self@.exclusive == session.exclusive.union(
                    untouched(session, wanted.take(j + 1)),
                ));
                assert(locks@ == with_writers(
                    registry,
                    untouched(session, wanted.take(j + 1)),
                ));
            }
            j += 1;
        }
        proof {
            assert(wanted.take(j as int) == wanted);
            assert forall|k: Seq<char>| #[trigger]
                untouched(session, wanted).contains(k) implies can_write(registry, k) by {
                let at = choose|at: int| 0 <= at < wanted.len() && wanted[at] == k;
                assert(session.touched(wanted[at]) || can_write(registry, wanted[at]));
            }
        }
        true
    }
}

} // verus!
