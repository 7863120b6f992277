//! Many sessions on one registry: what the registry holds is, key by key,
//! what the sessions hold.
//!
//! A key is held exclusive by at most one session, and then by nobody else;
//! a key that is read has one reader in the registry for each session that
//! reads it; a key that no session holds has no entry. Every command of
//! every session keeps it so: no session takes a lock from another, and no
//! lock outlives the session that took it.

use crate::command::CommandView;
use crate::locks::{can_write, read_held, write_held, RWLock};
use crate::transaction::{stepped, untouched, waits, Session};
use vstd::prelude::*;

verus! {

/// How many of the sessions hold a shared lock on `key`.
pub open spec fn readers(sessions: Seq<Session>, key: Seq<char>) -> nat
    decreases sessions.len(),
{
    if sessions.len() == 0 {
        0
    } else {
        readers(sessions.drop_last(), key) + if sessions.last().shared.contains(key) {
            1nat
        } else {
            0nat
        }
    }
}

/// How many of the sessions hold the exclusive lock on `key`.
pub open spec fn writers(sessions: Seq<Session>, key: Seq<char>) -> nat
    decreases sessions.len(),
{
    if sessions.len() == 0 {
        0
    } else {
        writers(sessions.drop_last(), key) + if sessions.last().exclusive.contains(key) {
            1nat
        } else {
            0nat
        }
    }
}

/// Whether the registry holds on `key` what the sessions hold on it.
pub open spec fn accounted_at(
    sessions: Seq<Session>,
    registry: Map<Seq<char>, RWLock>,
    key: Seq<char>,
) -> bool {
    let r = readers(sessions, key);
    let w = writers(sessions, key);
    if w > 0 {
        w == 1 && r == 0 && registry.contains_key(key) && registry[key] == RWLock::Write
    } else if r > 0 {
        r <= usize::MAX && registry.contains_key(key) && registry[key] == RWLock::Read(r as usize)
    } else {
        !registry.contains_key(key)
    }
}

/// Whether the registry holds, on every key, what the sessions hold on it.
pub open spec fn accounted(sessions: Seq<Session>, registry: Map<Seq<char>, RWLock>) -> bool {
    forall|key: Seq<char>| #[trigger] accounted_at(sessions, registry, key)
}

/// Every session is well-formed.
pub open spec fn all_wf(sessions: Seq<Session>) -> bool {
    forall|i: int| 0 <= i < sessions.len() ==> (#[trigger] sessions[i]).wf()
}

/// A session in place of another changes the counts by what the two hold.
pub proof fn lemma_counts_update(sessions: Seq<Session>, i: int, next: Session, key: Seq<char>)
    requires
        0 <= i < sessions.len(),
    ensures
        readers(sessions.update(i, next), key) + if sessions[i].shared.contains(key) {
            1nat
        } else {
            0nat
        } == readers(sessions, key) + if next.shared.contains(key) {
            1nat
        } else {
            0nat
        },
        writers(sessions.update(i, next), key) + if sessions[i].exclusive.contains(key) {
            1nat
        } else {
            0nat
        } == writers(sessions, key) + if next.exclusive.contains(key) {
            1nat
        } else {
            0nat
        },
    decreases sessions.len(),
{
    let front = sessions.drop_last();
    let updated = sessions.update(i, next);
    if i == sessions.len() - 1 {
        assert(updated.drop_last() == front);
    } else {
        lemma_counts_update(front, i, next, key);
        assert(updated.drop_last() == front.update(i, next));
    }
}

/// A session that holds a key is counted.
pub proof fn lemma_counted(sessions: Seq<Session>, i: int, key: Seq<char>)
    requires
        0 <= i < sessions.len(),
    ensures
        sessions[i].shared.contains(key) ==> readers(sessions, key) >= 1,
        sessions[i].exclusive.contains(key) ==> writers(sessions, key) >= 1,
    decreases sessions.len(),
{
    if i < sessions.len() - 1 {
        lemma_counted(sessions.drop_last(), i, key);
    }
}

/// Each session holds in the registry what it holds.
pub proof fn lemma_accounted_holds(
    sessions: Seq<Session>,
    registry: Map<Seq<char>, RWLock>,
    i: int,
)
    requires
        accounted(sessions, registry),
        0 <= i < sessions.len(),
    ensures
        sessions[i].holds(registry),
{
    assert forall|key: Seq<char>| #[trigger] sessions[i].shared.contains(key) implies
        read_held(registry, key) by {
        lemma_counted(sessions, i, key);
        assert(accounted_at(sessions, registry, key));
    }
    assert forall|key: Seq<char>| #[trigger] sessions[i].exclusive.contains(key) implies
        write_held(registry, key) by {
        lemma_counted(sessions, i, key);
        assert(accounted_at(sessions, registry, key));
    }
}

/// No two sessions hold a key that one of them holds exclusive.
pub proof fn lemma_exclusion(
    sessions: Seq<Session>,
    registry: Map<Seq<char>, RWLock>,
    i: int,
    j: int,
    key: Seq<char>,
)
    requires
        accounted(sessions, registry),
        0 <= i < sessions.len(),
        0 <= j < sessions.len(),
        i != j,
        sessions[i].exclusive.contains(key),
    ensures
        !sessions[j].touched(key),
{
    assert(accounted_at(sessions, registry, key));
    lemma_counted(sessions, i, key);
    let other = Session::empty();
    lemma_counts_update(sessions, i, other, key);
    lemma_counted(sessions.update(i, other), j, key);
}

/// Accounting: a command of one session, carried out, leaves the registry
/// holding what the sessions hold.
pub proof fn lemma_accounted_step(
    sessions: Seq<Session>,
    registry: Map<Seq<char>, RWLock>,
    store: Map<Seq<char>, Seq<u8>>,
    i: int,
    command: CommandView,
)
    requires
        all_wf(sessions),
        accounted(sessions, registry),
        0 <= i < sessions.len(),
        !waits(sessions[i], registry, store, command),
    ensures
        ({
            let after = stepped(sessions[i], registry, store, command);
            accounted(sessions.update(i, after.session), after.registry)
        }),
{
    let session = sessions[i];
    let after = stepped(session, registry, store, command);
    let next = sessions.update(i, after.session);
    assert(session.wf());
    assert forall|key: Seq<char>| #[trigger] accounted_at(next, after.registry, key) by {
        assert(accounted_at(sessions, registry, key));
        lemma_counts_update(sessions, i, after.session, key);
        lemma_counted(sessions, i, key);
        match command {
            CommandView::Del { keys } => {
                if untouched(session, keys).contains(key) {
                    assert(can_write(registry, key));
                }
            },
            _ => {},
        }
    }
}

/// No leak: once every session has ended, the registry is empty.
pub proof fn lemma_all_ended(sessions: Seq<Session>, registry: Map<Seq<char>, RWLock>)
    requires
        accounted(sessions, registry),
        forall|i: int| 0 <= i < sessions.len() ==> #[trigger] sessions[i] == Session::empty(),
    ensures
        registry == Map::<Seq<char>, RWLock>::empty(),
{
    assert forall|key: Seq<char>| !registry.contains_key(key) by {
        lemma_none_counted(sessions, key);
        assert(accounted_at(sessions, registry, key));
    }
    assert(registry =~= Map::<Seq<char>, RWLock>::empty());
}

/// Sessions that hold nothing are not counted.
proof fn lemma_none_counted(sessions: Seq<Session>, key: Seq<char>)
    requires
        forall|i: int| 0 <= i < sessions.len() ==> #[trigger] sessions[i] == Session::empty(),
    ensures
        readers(sessions, key) == 0,
        writers(sessions, key) == 0,
    decreases sessions.len(),
{
    if sessions.len() > 0 {
        let front = sessions.drop_last();
        assert forall|i: int| 0 <= i < front.len() implies #[trigger] front[i]
            == Session::empty() by {
            assert(front[i] == sessions[i]);
        }
        lemma_none_counted(front, key);
        assert(sessions[sessions.len() - 1] == Session::empty());
    }
}

} // verus!
