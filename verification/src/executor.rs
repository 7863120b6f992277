//! The front of one connection: whether a transaction is open, the session
//! of that transaction, and the way a line of input takes through the store.
//!
//! The store and the registry of locks are shared by all connections; the
//! front works on them while the caller has them to itself. Files are the
//! caller's: a reply says what has to be made durable before it is sent.

use crate::command::{Command, CommandView};
use crate::locks::{no_idle_entry, Locks, RWLock};
use crate::memdb::{applied, applied_line, replayed, Memdb};
use crate::parser::{lemma_parsed_writable, parse, parsed_line};
use crate::snapshot::decoded;
use crate::text::reply_text;
use crate::transaction::{released, stepped, waits, Session, Transaction};
use vstd::prelude::*;

verus! {

/// Whether a connection has a transaction open.
#[derive(Debug, Clone, Copy, PartialEq, Eq, Structural)]
pub enum Mode {
    Normal,
    Transaction,
}

/// What has to be made durable before a reply is sent.
#[derive(Debug, Clone, PartialEq)]
pub enum Effect {
    /// Nothing.
    Nothing,
    /// This line is to be added to the log.
    Append(String),
    /// This snapshot is to replace the snapshot file, and the log is to be
    /// emptied.
    Snapshot(Vec<u8>),
}

/// The reply to a line of input, and what has to be durable before it goes out.
#[derive(Debug, PartialEq)]
pub struct Reply {
    pub text: Result<String, String>,
    pub effect: Effect,
}

/// What a line of input leaves behind.
pub struct Turn {
    pub mode: Mode,
    pub session: Session,
    pub registry: Map<Seq<char>, RWLock>,
    pub store: Map<Seq<char>, Seq<u8>>,
    pub reply: Result<Seq<char>, Seq<char>>,
    /// The line that goes to the log, if one does.
    pub logged: Option<Seq<char>>,
    /// Whether a snapshot is to be written.
    pub snapshot: bool,
}

/// Whether the store takes the command by itself, outside a transaction.
pub open spec fn direct(command: CommandView) -> bool {
    command is Put || command is SetNX || command is Get || command is Del
}

/// Whether the command ends a transaction.
pub open spec fn closing(command: CommandView) -> bool {
    command is Exec || command is Abort
}

/// Whether a line has to wait: it stands for a command of an open
/// transaction that needs a lock which it cannot have now.
pub open spec fn stalled(
    mode: Mode,
    session: Session,
    registry: Map<Seq<char>, RWLock>,
    store: Map<Seq<char>, Seq<u8>>,
    line: Seq<char>,
) -> bool {
    match parsed_line(line) {
        Ok(command) => {
            &&& mode == Mode::Transaction
            &&& !(command is Shutdown)
            &&& !(command is Multi)
            &&& waits(session, registry, store, command)
        },
        Err(_) => false,
    }
}

/// What a line that does not have to wait leaves behind.
///
/// A line that does not parse changes nothing. `shutdown` asks for a
/// snapshot; `multi` opens a transaction. Otherwise, outside a transaction
/// the store carries the command out, and the line of a command that the
/// store takes goes to the log; within one the session takes the command,
/// and commit and abort end the transaction.
pub open spec fn turned(
    mode: Mode,
    session: Session,
    registry: Map<Seq<char>, RWLock>,
    store: Map<Seq<char>, Seq<u8>>,
    line: Seq<char>,
) -> Turn {
    let unchanged = Turn {
        mode,
        session,
        registry,
        store,
        reply: Ok(Seq::empty()),
        logged: None,
        snapshot: false,
    };
    match parsed_line(line) {
        Err(e) => Turn { reply: Err(e), ..unchanged },
        Ok(CommandView::Shutdown) => Turn { reply: Ok("shutdown!!"@), snapshot: true, ..unchanged },
        Ok(CommandView::Multi) => Turn {
            mode: Mode::Transaction,
            reply: Ok("Start transaction"@),
            ..unchanged
        },
        Ok(command) => match mode {
            Mode::Normal => Turn {
                store: applied(store, command).0,
                reply: applied(store, command).1,
                logged: if direct(command) {
                    Some(command.line())
                } else {
                    None
                },
                ..unchanged
            },
            Mode::Transaction => {
                let outcome = stepped(session, registry, store, command);
                Turn {
                    mode: if closing(command) {
                        Mode::Normal
                    } else {
                        Mode::Transaction
                    },
                    session: outcome.session,
                    registry: outcome.registry,
                    store: outcome.store,
                    reply: outcome.reply,
                    ..unchanged
                }
            },
        },
    }
}

/// Whether an effect is what a turn asks for: the line that is logged, or a
/// snapshot that stands for the store, or nothing.
pub open spec fn effect_of(effect: Effect, turn: Turn) -> bool {
    match effect {
        Effect::Nothing => turn.logged is None && !turn.snapshot,
        Effect::Append(line) => turn.logged == Some(line@) && !turn.snapshot,
        Effect::Snapshot(bytes) => turn.logged is None && turn.snapshot && decoded(bytes@) == Some(
            turn.store,
        ),
    }
}

/// The log reads back: the line that is logged for a command does to the
/// store, and answers, what the command did.
pub proof fn lemma_logged_line(
    mode: Mode,
    session: Session,
    registry: Map<Seq<char>, RWLock>,
    store: Map<Seq<char>, Seq<u8>>,
    line: Seq<char>,
)
    ensures
        ({
            let turn = turned(mode, session, registry, store, line);
            turn.logged matches Some(logged) ==> applied_line(store, logged) == (
                turn.store,
                turn.reply,
            )
        }),
{
    if parsed_line(line) is Ok {
        lemma_parsed_writable(line);
    }
}

/// Recovery: outside transactions, the store is at every time what the
/// lines of the log make of the store that it was at the last snapshot.
pub proof fn lemma_log_restores(
    base: Map<Seq<char>, Seq<u8>>,
    log: Seq<Seq<char>>,
    session: Session,
    registry: Map<Seq<char>, RWLock>,
    line: Seq<char>,
)
    ensures
        ({
            let turn = turned(Mode::Normal, session, registry, replayed(base, log), line);
            turn.store == replayed(
                base,
                match turn.logged {
                    Some(logged) => log.push(logged),
                    None => log,
                },
            )
        }),
{
    let store = replayed(base, log);
    let turn = turned(Mode::Normal, session, registry, store, line);
    lemma_logged_line(Mode::Normal, session, registry, store, line);
    if turn.logged is Some {
        let logged = turn.logged->0;
        assert(log.push(logged).drop_last() == log);
    }
}

/// The front of one connection.
#[derive(Debug)]
pub struct Executor {
    mode: Mode,
    transaction: Transaction,
}

impl Clone for Executor {
    /// The front of another connection to the same store: it starts outside
    /// a transaction and holds nothing, whatever this one holds.
    fn clone(&self) -> (executor: Executor)
        ensures
            executor.wf(),
            executor.mode() == Mode::Normal,
            executor.session() == Session::empty(),
    {
        Executor::new()
    }
}

impl Executor {
    /// Whether a transaction is open.
    pub closed spec fn mode(&self) -> Mode {
        self.mode
    }

    /// What the open transaction holds.
    pub closed spec fn session(&self) -> Session {
        self.transaction@
    }

    /// The session is well-formed, and holds nothing outside a transaction.
    pub closed spec fn wf(&self) -> bool {
        &&& self.transaction.wf()
        &&& self.mode == Mode::Normal ==> self.transaction@ == Session::empty()
    }

    /// A well-formed front stands for a well-formed session that is empty
    /// outside a transaction.
    pub proof fn lemma_wf(&self)
        requires
            self.wf(),
        ensures
            self.session().wf(),
            self.mode() == Mode::Normal ==> self.session() == Session::empty(),
    {
        self.transaction.lemma_wf();
    }

    /// The front of a new connection: no transaction is open.
    pub fn new() -> (executor: Executor)
        ensures
            executor.wf(),
            executor.mode() == Mode::Normal,
            executor.session() == Session::empty(),
    {
        Executor { mode: Mode::Normal, transaction: Transaction::new() }
    }

    /// Whether a transaction is open.
    pub fn in_transaction(&self) -> (r: bool)
        ensures
            r == (self.mode() == Mode::Transaction),
    {
        match self.mode {
            Mode::Normal => false,
            Mode::Transaction => true,
        }
    }

    /// Whether the registry has every lock that the open transaction holds.
    pub fn holds(&self, locks: &Locks) -> (r: bool)
        ensures
            r == self.session().holds(locks@),
    {
        self.transaction.holds(locks)
    }

    /// Takes one line of input through the store. Returns `None`, and
    /// changes nothing, where the line has to wait for a lock that another
    /// connection holds: the caller tries the line again later.
    pub fn exec(&mut self, input: &str, locks: &mut Locks, memdb: &mut Memdb) -> (r: Option<Reply>)
        requires
            old(self).wf(),
            old(memdb).wf(),
            old(self).session().holds(old(locks)@),
        ensures
            final(self).wf(),
            final(memdb).wf(),
            final(self).session().holds(final(locks)@),
            no_idle_entry(old(locks)@) ==> no_idle_entry(final(locks)@),
            match r {
                Some(reply) => {
                    let turn = turned(
                        old(self).mode(),
                        old(self).session(),
                        old(locks)@,
                        old(memdb)@,
                        input@,
                    );
                    &&& !stalled(
                        old(self).mode(),
                        old(self).session(),
                        old(locks)@,
                        old(memdb)@,
                        input@,
                    )
                    &&& final(self).mode() == turn.mode
                    &&& final(self).session() == turn.session
                    &&& final(locks)@ == turn.registry
                    &&& final(memdb)@ == turn.store
                    &&& reply_text(reply.text) == turn.reply
                    &&& effect_of(reply.effect, turn)
                },
                None => {
                    &&& stalled(
                        old(self).mode(),
                        old(self).session(),
                        old(locks)@,
                        old(memdb)@,
                        input@,
                    )
                    &&& final(self).mode() == old(self).mode()
                    &&& final(self).session() == old(self).session()
                    &&& final(locks)@ == old(locks)@
                    &&& final(memdb)@ == old(memdb)@
                },
            },
    {
        let command = match parse(input) {
            Ok(command) => command,
            Err(e) => {
                return Some(Reply { text: Err(e), effect: Effect::Nothing });
            },
        };
        match command {
            Command::Shutdown => {
                let serialized = memdb.serialize();
                Some(
                    Reply {
                        text: Ok("shutdown!!".to_owned()),
                        effect: Effect::Snapshot(serialized),
                    },
                )
            },
            Command::Multi => {
                self.as_transaction_mode();
                Some(Reply { text: Ok("Start transaction".to_owned()), effect: Effect::Nothing })
            },
            _ => match self.mode {
                Mode::Normal => Some(self.exec_command_normal_mode(command, memdb)),
                Mode::Transaction => match self.exec_command_transaction_mode(
                    command,
                    locks,
                    memdb,
                ) {
                    Some(text) => Some(Reply { text, effect: Effect::Nothing }),
                    None => None,
                },
            },
        }
    }

    /// Outside a transaction: the store carries the command out, and the
    /// line of a command that the store takes is to be logged.
    fn exec_command_normal_mode(&self, command: Command, memdb: &mut Memdb) -> (reply: Reply)
        requires
            old(memdb).wf(),
        ensures
            final(memdb).wf(),
            (final(memdb)@, reply_text(reply.text)) == applied(old(memdb)@, command@),
            match reply.effect {
                Effect::Append(line) => direct(command@) && line@ == command@.line(),
                Effect::Nothing => !direct(command@),
                Effect::Snapshot(_) => false,
            },
    {
        let effect = match command {
            Command::Put { .. } | Command::SetNX { .. } | Command::Get { .. } | Command::Del {
                ..
            } => Effect::Append(command.to_string()),
            _ => Effect::Nothing,
        };
        let text = memdb.exec_command(command);
        Reply { text, effect }
    }

    /// Within a transaction: the session takes the command; commit and
    /// abort end the transaction.
    fn exec_command_transaction_mode(
        &mut self,
        command: Command,
        locks: &mut Locks,
        memdb: &mut Memdb,
    ) -> (r: Option<Result<String, String>>)
        requires
            old(self).wf(),
            old(self).mode == Mode::Transaction,
            old(memdb).wf(),
            old(self).transaction@.holds(old(locks)@),
            !(command@ is Shutdown),
            !(command@ is Multi),
        ensures
            final(self).wf(),
            final(memdb).wf(),
            final(self).transaction@.holds(final(locks)@),
            no_idle_entry(old(locks)@) ==> no_idle_entry(final(locks)@),
            match r {
                Some(reply) => {
                    let outcome = stepped(
                        old(self).transaction@,
                        old(locks)@,
                        old(memdb)@,
                        command@,
                    );
                    &&& !waits(old(self).transaction@, old(locks)@, old(memdb)@, command@)
                    &&& final(self).transaction@ == outcome.session
                    &&& final(locks)@ == outcome.registry
                    &&& final(memdb)@ == outcome.store
                    &&& reply_text(reply) == outcome.reply
                    &&& final(self).mode == if closing(command@) {
                        Mode::Normal
                    } else {
                        Mode::Transaction
                    }
                },
                None => {
                    &&& waits(old(self).transaction@, old(locks)@, old(memdb)@, command@)
                    &&& final(self).transaction@ == old(self).transaction@
                    &&& final(self).mode == old(self).mode
                    &&& final(locks)@ == old(locks)@
                    &&& final(memdb)@ == old(memdb)@
                },
            },
    {
        let closes = match command {
            Command::Exec | Command::Abort => true,
            _ => false,
        };
        let output = self.transaction.exec_command(command, locks, memdb);
        if output.is_some() {
            if closes {
                self.as_normal_mode();
            } else {
                self.as_transaction_mode();
            }
        }
        output
    }

    /// Notes that no transaction is open.
    fn as_normal_mode(&mut self)
        ensures
            final(self).mode == Mode::Normal,
            final(self).transaction == old(self).transaction,
    {
        self.mode = Mode::Normal;
    }

    /// Notes that a transaction is open.
    fn as_transaction_mode(&mut self)
        ensures
            final(self).mode == Mode::Transaction,
            final(self).transaction == old(self).transaction,
    {
        self.mode = Mode::Transaction;
    }

    /// Ends the connection: gives back every lock that its transaction
    /// holds, and forgets the transaction.
    pub fn close(&mut self, locks: &mut Locks)
        requires
            old(self).wf(),
            old(self).session().holds(old(locks)@),
        ensures
            final(self).wf(),
            final(self).mode() == Mode::Normal,
            final(self).session() == Session::empty(),
            final(locks)@ == released(
                old(locks)@,
                old(self).session().shared,
                old(self).session().exclusive,
            ),
            no_idle_entry(old(locks)@) ==> no_idle_entry(final(locks)@),
    {
        self.transaction.clear_lock(locks);
        self.as_normal_mode();
    }
}

} // verus!
