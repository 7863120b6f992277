use tyozo::command::Command;
use tyozo::locks::RWLock;
use tyozo::transaction::Transaction;
use tyozo::{Locks, Memdb};

fn put(key: &str, value: &str) -> Command {
    Command::Put {
        key: key.into(),
        value: value.into(),
    }
}

fn get(key: &str) -> Command {
    Command::Get { key: key.into() }
}

fn del(keys: Vec<&str>) -> Command {
    Command::Del {
        keys: keys.iter().map(ToString::to_string).collect(),
    }
}

fn done(text: &str) -> Option<Result<String, String>> {
    Some(Ok(String::from(text)))
}

#[test]
fn a_staged_write_is_not_in_the_store_until_commit() {
    let mut locks = Locks::new();
    let mut memdb = Memdb::new();
    let mut a = Transaction::new();

    assert_eq!(a.exec_command(put("k", "v1"), &mut locks, &mut memdb), done("OK"));

    assert_eq!(memdb.get("k"), None);
    assert_eq!(memdb.exec("get k"), Ok(String::from("None")));
    assert_eq!(locks.state("k"), Some(RWLock::Write));

    assert_eq!(a.exec_command(Command::Exec, &mut locks, &mut memdb), done("OK"));

    assert_eq!(memdb.exec("get k"), Ok(String::from("v1")));
    assert_eq!(locks.state("k"), None);
}

#[test]
fn another_session_waits_for_a_key_that_is_being_written() {
    let mut locks = Locks::new();
    let mut memdb = Memdb::new();
    memdb.set("k", b"v0");
    let mut a = Transaction::new();
    let mut b = Transaction::new();

    assert_eq!(a.exec_command(put("k", "v1"), &mut locks, &mut memdb), done("OK"));

    assert_eq!(b.exec_command(get("k"), &mut locks, &mut memdb), None);
    assert_eq!(b.exec_command(put("k", "v2"), &mut locks, &mut memdb), None);
    assert_eq!(b.exec_command(del(vec!["k"]), &mut locks, &mut memdb), None);
    assert_eq!(locks.state("k"), Some(RWLock::Write));
    assert_eq!(memdb.get("k"), Some(b"v0".to_vec()));

    assert_eq!(a.exec_command(Command::Exec, &mut locks, &mut memdb), done("OK"));

    assert_eq!(b.exec_command(get("k"), &mut locks, &mut memdb), done("v1"));
    assert_eq!(locks.state("k"), Some(RWLock::Read(1)));
}

#[test]
fn abort_leaves_the_store_as_it_was() {
    let mut locks = Locks::new();
    let mut memdb = Memdb::new();
    memdb.set("old", b"kept");
    let mut a = Transaction::new();

    assert_eq!(a.exec_command(put("k", "v"), &mut locks, &mut memdb), done("OK"));
    assert_eq!(a.exec_command(put("old", "new"), &mut locks, &mut memdb), done("OK"));
    assert_eq!(
        a.exec_command(Command::Abort, &mut locks, &mut memdb),
        done("Abort transaction")
    );

    assert_eq!(memdb.exec("get k"), Ok(String::from("None")));
    assert_eq!(memdb.exec("get old"), Ok(String::from("kept")));
    assert_eq!(locks.state("k"), None);
    assert_eq!(locks.state("old"), None);

    assert_eq!(a.exec_command(Command::Exec, &mut locks, &mut memdb), done("OK"));
    assert_eq!(memdb.exec("get k"), Ok(String::from("None")));
}

#[test]
fn teardown_gives_every_lock_back() {
    let mut locks = Locks::new();
    let mut memdb = Memdb::new();
    memdb.set("seen", b"1");
    let mut a = Transaction::new();

    assert_eq!(a.exec_command(put("k", "v"), &mut locks, &mut memdb), done("OK"));
    assert_eq!(a.exec_command(get("seen"), &mut locks, &mut memdb), done("1"));
    assert_eq!(a.exec_command(del(vec!["gone"]), &mut locks, &mut memdb), done("0"));
    assert_eq!(locks.state("k"), Some(RWLock::Write));
    assert_eq!(locks.state("seen"), Some(RWLock::Read(1)));
    assert_eq!(locks.state("gone"), Some(RWLock::Write));

    a.clear_lock(&mut locks);

    assert_eq!(locks.state("k"), None);
    assert_eq!(locks.state("seen"), None);
    assert_eq!(locks.state("gone"), None);
    assert_eq!(memdb.get("k"), None);

    let mut b = Transaction::new();
    assert_eq!(b.exec_command(put("k", "w"), &mut locks, &mut memdb), done("OK"));
    assert_eq!(b.exec_command(put("seen", "w"), &mut locks, &mut memdb), done("OK"));
    assert_eq!(b.exec_command(put("gone", "w"), &mut locks, &mut memdb), done("OK"));
}

#[test]
fn teardown_leaves_the_locks_of_others() {
    let mut locks = Locks::new();
    let mut memdb = Memdb::new();
    memdb.set("k", b"v");
    let mut a = Transaction::new();
    let mut b = Transaction::new();

    assert_eq!(a.exec_command(get("k"), &mut locks, &mut memdb), done("v"));
    assert_eq!(b.exec_command(get("k"), &mut locks, &mut memdb), done("v"));
    assert_eq!(b.exec_command(put("mine", "1"), &mut locks, &mut memdb), done("OK"));
    assert_eq!(locks.state("k"), Some(RWLock::Read(2)));

    a.clear_lock(&mut locks);

    assert_eq!(locks.state("k"), Some(RWLock::Read(1)));
    assert_eq!(locks.state("mine"), Some(RWLock::Write));
}

#[test]
fn a_key_is_locked_once_however_often_it_is_touched() {
    let mut locks = Locks::new();
    let mut memdb = Memdb::new();
    memdb.set("r", b"0");
    let mut a = Transaction::new();

    assert_eq!(a.exec_command(get("r"), &mut locks, &mut memdb), done("0"));
    assert_eq!(a.exec_command(get("r"), &mut locks, &mut memdb), done("0"));
    assert_eq!(a.exec_command(put("r", "1"), &mut locks, &mut memdb), done("OK"));
    assert_eq!(locks.state("r"), Some(RWLock::Read(1)));

    assert_eq!(a.exec_command(put("w", "1"), &mut locks, &mut memdb), done("OK"));
    assert_eq!(a.exec_command(put("w", "2"), &mut locks, &mut memdb), done("OK"));
    assert_eq!(a.exec_command(del(vec!["w"]), &mut locks, &mut memdb), done("1"));
    assert_eq!(a.exec_command(put("w", "3"), &mut locks, &mut memdb), done("OK"));
    assert_eq!(locks.state("w"), Some(RWLock::Write));

    assert_eq!(a.exec_command(Command::Exec, &mut locks, &mut memdb), done("OK"));

    assert_eq!(locks.state("r"), None);
    assert_eq!(locks.state("w"), None);
    assert_eq!(memdb.get("r"), Some(b"1".to_vec()));
    assert_eq!(memdb.get("w"), Some(b"3".to_vec()));
}

#[test]
fn get_answers_from_what_was_read_then_from_what_is_staged() {
    let mut locks = Locks::new();
    let mut memdb = Memdb::new();
    memdb.set("read", b"stored");
    let mut a = Transaction::new();

    assert_eq!(a.exec_command(get("read"), &mut locks, &mut memdb), done("stored"));
    assert_eq!(a.exec_command(put("read", "staged"), &mut locks, &mut memdb), done("OK"));
    assert_eq!(a.exec_command(get("read"), &mut locks, &mut memdb), done("stored"));

    assert_eq!(a.exec_command(put("fresh", "one"), &mut locks, &mut memdb), done("OK"));
    assert_eq!(a.exec_command(get("fresh"), &mut locks, &mut memdb), done("one"));
    assert_eq!(a.exec_command(put("fresh", "two"), &mut locks, &mut memdb), done("OK"));
    assert_eq!(a.exec_command(get("fresh"), &mut locks, &mut memdb), done("two"));
}

#[test]
fn get_of_a_key_without_value_takes_no_lock() {
    let mut locks = Locks::new();
    let mut memdb = Memdb::new();
    let mut a = Transaction::new();

    assert_eq!(a.exec_command(get("k"), &mut locks, &mut memdb), done("None"));
    assert_eq!(locks.state("k"), None);
}

#[test]
fn get_beside_another_reader_shares_the_lock() {
    let mut locks = Locks::new();
    let mut memdb = Memdb::new();
    memdb.set("k", b"v");
    let mut a = Transaction::new();
    let mut b = Transaction::new();

    assert_eq!(a.exec_command(get("k"), &mut locks, &mut memdb), done("v"));
    assert_eq!(b.exec_command(get("k"), &mut locks, &mut memdb), done("v"));
    assert_eq!(locks.state("k"), Some(RWLock::Read(2)));

    assert_eq!(b.exec_command(put("k", "w"), &mut locks, &mut memdb), done("OK"));
    let mut c = Transaction::new();
    assert_eq!(c.exec_command(put("k", "x"), &mut locks, &mut memdb), None);
}

#[test]
fn get_cannot_answer_with_a_value_that_is_no_text() {
    let mut locks = Locks::new();
    let mut memdb = Memdb::new();
    memdb.set("k", &[0xc0]);
    let mut a = Transaction::new();

    assert_eq!(
        a.exec_command(get("k"), &mut locks, &mut memdb),
        Some(Err(String::from("ERR value is not valid utf-8")))
    );
}

#[test]
fn del_withdraws_staged_writes_and_counts_them() {
    let mut locks = Locks::new();
    let mut memdb = Memdb::new();
    memdb.set("stored", b"kept");
    let mut a = Transaction::new();

    assert_eq!(a.exec_command(put("a", "1"), &mut locks, &mut memdb), done("OK"));
    assert_eq!(a.exec_command(put("b", "2"), &mut locks, &mut memdb), done("OK"));
    assert_eq!(
        a.exec_command(del(vec!["a", "stored", "a", "none"]), &mut locks, &mut memdb),
        done("1")
    );
    assert_eq!(locks.state("stored"), Some(RWLock::Write));
    assert_eq!(locks.state("none"), Some(RWLock::Write));

    assert_eq!(a.exec_command(Command::Exec, &mut locks, &mut memdb), done("OK"));

    assert_eq!(memdb.get("a"), None);
    assert_eq!(memdb.get("b"), Some(b"2".to_vec()));
    assert_eq!(memdb.get("stored"), Some(b"kept".to_vec()));
    assert_eq!(locks.state("a"), None);
    assert_eq!(locks.state("stored"), None);
    assert_eq!(locks.state("none"), None);
}

#[test]
fn del_that_has_to_wait_takes_no_lock_at_all() {
    let mut locks = Locks::new();
    let mut memdb = Memdb::new();
    let mut a = Transaction::new();
    let mut b = Transaction::new();

    assert_eq!(a.exec_command(put("held", "1"), &mut locks, &mut memdb), done("OK"));

    assert_eq!(
        b.exec_command(del(vec!["free", "held", "other"]), &mut locks, &mut memdb),
        None
    );
    assert_eq!(locks.state("free"), None);
    assert_eq!(locks.state("other"), None);

    a.clear_lock(&mut locks);
    assert_eq!(
        b.exec_command(del(vec!["free", "held", "other"]), &mut locks, &mut memdb),
        done("0")
    );
    assert_eq!(locks.state("free"), Some(RWLock::Write));
    assert_eq!(locks.state("held"), Some(RWLock::Write));
    assert_eq!(locks.state("other"), Some(RWLock::Write));
}

#[test]
fn exec_writes_over_what_the_store_has() {
    let mut locks = Locks::new();
    let mut memdb = Memdb::new();
    memdb.set("a", b"old");
    memdb.set("b", b"old");
    let mut t = Transaction::new();

    assert_eq!(t.exec_command(put("a", "new"), &mut locks, &mut memdb), done("OK"));
    assert_eq!(t.exec_command(put("c", "new"), &mut locks, &mut memdb), done("OK"));
    assert_eq!(t.exec_command(Command::Exec, &mut locks, &mut memdb), done("OK"));

    assert_eq!(memdb.get("a"), Some(b"new".to_vec()));
    assert_eq!(memdb.get("b"), Some(b"old".to_vec()));
    assert_eq!(memdb.get("c"), Some(b"new".to_vec()));
    assert_eq!(memdb.inner().len(), 3);
}

#[test]
fn a_transaction_takes_none_of_the_other_commands() {
    let mut locks = Locks::new();
    let mut memdb = Memdb::new();
    let mut a = Transaction::new();

    let setnx = Command::SetNX {
        key: "k".into(),
        value: "v".into(),
    };
    for command in [setnx, Command::Multi, Command::Shutdown] {
        assert_eq!(
            a.exec_command(command, &mut locks, &mut memdb),
            Some(Err(String::from("ERR unsupport transaction command")))
        );
    }
    assert_eq!(memdb.get("k"), None);
    assert_eq!(locks.state("k"), None);
}

#[test]
fn the_registry_counts_one_reader_for_each_session_that_reads() {
    let mut locks = Locks::new();
    let mut memdb = Memdb::new();
    memdb.set("k", b"v");
    let mut a = Transaction::new();
    let mut b = Transaction::new();
    let mut c = Transaction::new();

    assert_eq!(a.exec_command(get("k"), &mut locks, &mut memdb), done("v"));
    assert_eq!(b.exec_command(get("k"), &mut locks, &mut memdb), done("v"));
    assert_eq!(c.exec_command(get("k"), &mut locks, &mut memdb), done("v"));
    assert_eq!(locks.state("k"), Some(RWLock::Read(3)));
    assert!(a.holds(&locks) && b.holds(&locks) && c.holds(&locks));

    assert_eq!(
        a.exec_command(Command::Abort, &mut locks, &mut memdb),
        done("Abort transaction")
    );
    assert_eq!(locks.state("k"), Some(RWLock::Read(2)));
    assert!(a.holds(&locks) && b.holds(&locks) && c.holds(&locks));

    assert_eq!(b.exec_command(Command::Exec, &mut locks, &mut memdb), done("OK"));
    assert_eq!(locks.state("k"), Some(RWLock::Read(1)));
    assert!(c.holds(&locks));

    c.clear_lock(&mut locks);
    assert_eq!(locks.state("k"), None);
}

#[test]
fn holds_tells_whether_the_registry_has_the_locks_of_the_session() {
    let mut locks = Locks::new();
    let mut memdb = Memdb::new();
    memdb.set("r", b"v");
    let mut a = Transaction::new();

    assert!(a.holds(&locks));
    assert_eq!(a.exec_command(get("r"), &mut locks, &mut memdb), done("v"));
    assert_eq!(a.exec_command(put("w", "1"), &mut locks, &mut memdb), done("OK"));
    assert!(a.holds(&locks));
    assert!(!a.holds(&Locks::new()));

    let mut other = Locks::new();
    other.write_lock("r");
    other.write_lock("w");
    assert!(!a.holds(&other));
}
