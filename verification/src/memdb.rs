//! The store: a map from string keys to byte strings, the commands that
//! read and change it, and its snapshot.

use crate::command::{Command, CommandView};
use crate::parser::{parse, parsed_line};
use crate::snapshot::{
    decoded, decoded_pairs, encoded, first_record, fits, get_be64, lemma_decoded_pairs_encoded,
    lemma_encoded_push, pair_then, put_be64, put_bytes, record,
};
use crate::table::{distinct_keys, map_of, present, Pair, Table};
use crate::text::{
    decimal, decimal_string, decode, lemma_text_of_encoding, reply_text, text_of, texts,
};
use vstd::prelude::*;
use vstd::slice::{slice_subrange, slice_to_vec};
use vstd::std_specs::cmp::PartialEqSpecImpl;
use vstd::utf8::encode_utf8;

verus! {

/// What a read of `key` answers: the value as text, or the word for none.
pub open spec fn read_reply(store: Map<Seq<char>, Seq<u8>>, key: Seq<char>) -> Result<
    Seq<char>,
    Seq<char>,
> {
    if !store.contains_key(key) {
        Ok("None"@)
    } else {
        value_reply(store[key])
    }
}

/// A value as the text of a reply. A value that is no text cannot be
/// answered with.
pub open spec fn value_reply(value: Seq<u8>) -> Result<Seq<char>, Seq<char>> {
    match text_of(value) {
        Some(text) => Ok(text),
        None => Err("ERR value is not valid utf-8"@),
    }
}

/// The store after a command, and the reply to it.
pub open spec fn applied(store: Map<Seq<char>, Seq<u8>>, command: CommandView) -> (
    Map<Seq<char>, Seq<u8>>,
    Result<Seq<char>, Seq<char>>,
) {
    match command {
        CommandView::Put { key, value } => (store.insert(key, encode_utf8(value)), Ok("OK"@)),
        CommandView::SetNX { key, value } => if store.contains_key(key) {
            (store, Err("ERR key is already exists"@))
        } else {
            (store.insert(key, encode_utf8(value)), Ok("OK"@))
        },
        CommandView::Get { key } => (store, read_reply(store, key)),
        CommandView::Del { keys } => (
            store.remove_keys(keys.to_set()),
            Ok(decimal(present(store, keys).len())),
        ),
        _ => (store, Err("ERR unsupport command"@)),
    }
}

/// The store after a line of input, and the reply to it. A line that does
/// not parse changes nothing.
pub open spec fn applied_line(store: Map<Seq<char>, Seq<u8>>, line: Seq<char>) -> (
    Map<Seq<char>, Seq<u8>>,
    Result<Seq<char>, Seq<char>>,
) {
    match parsed_line(line) {
        Ok(command) => applied(store, command),
        Err(e) => (store, Err(e)),
    }
}

/// The store after the lines of a log, one after the other.
pub open spec fn replayed(store: Map<Seq<char>, Seq<u8>>, lines: Seq<Seq<char>>) -> Map<
    Seq<char>,
    Seq<u8>,
>
    decreases lines.len(),
{
    if lines.len() == 0 {
        store
    } else {
        applied_line(replayed(store, lines.drop_last()), lines.last()).0
    }
}

/// The store that a snapshot and the log written after it stand for.
pub open spec fn restored(snapshot: Seq<u8>, log: Seq<Seq<char>>) -> Option<
    Map<Seq<char>, Seq<u8>>,
> {
    match decoded(snapshot) {
        Some(store) => Some(replayed(store, log)),
        None => None,
    }
}

/// `setnx` twice: the second call reports that the key exists and changes
/// nothing; where the key was free, it keeps the value of the first call.
pub proof fn lemma_setnx_twice(
    store: Map<Seq<char>, Seq<u8>>,
    key: Seq<char>,
    first: Seq<char>,
    second: Seq<char>,
)
    ensures
        ({
            let once = applied(store, CommandView::SetNX { key, value: first });
            let twice = applied(once.0, CommandView::SetNX { key, value: second });
            &&& twice.1 == Err::<Seq<char>, Seq<char>>("ERR key is already exists"@)
            &&& twice.0 == once.0
            &&& !store.contains_key(key) ==> {
                &&& once.1 == Ok::<Seq<char>, Seq<char>>("OK"@)
                &&& read_reply(twice.0, key) == Ok::<Seq<char>, Seq<char>>(first)
            }
        }),
{
    lemma_text_of_encoding(first);
}

/// The message for a snapshot that does not divide into records.
pub open spec fn format_error() -> Seq<char> {
    "ERR invalid database format"@
}

/// The entries read so far, followed by those still to be read.
pub open spec fn pairs_then(done: Seq<Pair>, rest: Option<Seq<Pair>>) -> Option<Seq<Pair>> {
    match rest {
        Some(pairs) => Some(done + pairs),
        None => None,
    }
}

/// Reading one entry and then the rest is reading the entry first.
proof fn lemma_pairs_then(done: Seq<Pair>, pair: Pair, rest: Option<Seq<Pair>>)
    ensures
        pairs_then(done, pair_then(pair, rest)) == pairs_then(done.push(pair), rest),
{
    if rest is Some {
        assert(done + (seq![pair] + rest->0) == done.push(pair) + rest->0);
    }
}

/// The store. Nothing in it synchronizes: whoever shares it among threads
/// gives each caller the store to itself.
#[derive(Debug, Clone)]
pub struct Memdb {
    inner: Table,
}

impl View for Memdb {
    type V = Map<Seq<char>, Seq<u8>>;

    closed spec fn view(&self) -> Map<Seq<char>, Seq<u8>> {
        self.inner@
    }
}

impl PartialEq for Memdb {
    /// Whether the two stores hold the same keys with the same values.
    fn eq(&self, other: &Memdb) -> (r: bool) {
        self.inner == other.inner
    }
}

impl PartialEqSpecImpl for Memdb {
    open spec fn obeys_eq_spec() -> bool {
        true
    }

    open spec fn eq_spec(&self, other: &Memdb) -> bool {
        self@ == other@
    }
}

impl Default for Memdb {
    fn default() -> (db: Memdb)
        ensures
            db.wf(),
            db@ == Map::<Seq<char>, Seq<u8>>::empty(),
    {
        Memdb::new()
    }
}

impl Memdb {
    /// No key occurs twice among the entries.
    pub closed spec fn wf(&self) -> bool {
        self.inner.wf()
    }

    /// The entries in the order in which a snapshot writes them.
    pub closed spec fn listing(&self) -> Seq<Pair> {
        self.inner.pairs()
    }

    /// The listing stands for the store, and holds each key once.
    pub proof fn lemma_listing(&self)
        ensures
            map_of(self.listing()) == self@,
            self.wf() ==> distinct_keys(self.listing()),
    {
        self.inner.lemma_pairs();
    }

    /// The empty store.
    pub fn new() -> (db: Memdb)
        ensures
            db.wf(),
            db@ == Map::<Seq<char>, Seq<u8>>::empty(),
    {
        Memdb { inner: Table::new() }
    }

    /// Parses a line and carries the command out.
    pub fn exec(&mut self, input: &str) -> (r: Result<String, String>)
        requires
            old(self).wf(),
        ensures
            final(self).wf(),
            (final(self)@, reply_text(r)) == applied_line(old(self)@, input@),
    {
        match parse(input) {
            Ok(command) => self.exec_command(command),
            Err(e) => Err(e),
        }
    }

    /// Carries a command out. The commands that open, end or leave a
    /// transaction, or shut the store down, are none of the store's own.
    pub fn exec_command(&mut self, command: Command) -> (r: Result<String, String>)
        requires
            old(self).wf(),
        ensures
            final(self).wf(),
            (final(self)@, reply_text(r)) == applied(old(self)@, command@),
    {
        match command {
            Command::Put { key, value } => {
                self.set(key.as_str(), value.as_str().as_bytes());
                Ok("OK".to_owned())
            },
            Command::SetNX { key, value } => {
                match self.setnx(key.as_str(), value.as_str().as_bytes()) {
                    Ok(()) => Ok("OK".to_owned()),
                    Err(e) => Err(e),
                }
            },
            Command::Get { key } => match self.get(key.as_str()) {
                None => Ok("None".to_owned()),
                Some(v) => value_text(v),
            },
            Command::Del { keys } => {
                let count = self.del(keys);
                Ok(decimal_string(count))
            },
            _ => Err("ERR unsupport command".to_owned()),
        }
    }

    /// Sets the value of `key`, in place of any that it had.
    pub fn set(&mut self, key: &str, value: &[u8])
        requires
            old(self).wf(),
        ensures
            final(self).wf(),
            final(self)@ == old(self)@.insert(key@, value@),
    {
        self.inner.insert(key.to_owned(), slice_to_vec(value));
    }

    /// Sets the value of `key` unless it has one.
    pub fn setnx(&mut self, key: &str, value: &[u8]) -> (r: Result<(), String>)
        requires
            old(self).wf(),
        ensures
            final(self).wf(),
            match r {
                Ok(_) => !old(self)@.contains_key(key@) && final(self)@ == old(self)@.insert(
                    key@,
                    value@,
                ),
                Err(e) => old(self)@.contains_key(key@) && final(self)@ == old(self)@ && e@
                    == "ERR key is already exists"@,
            },
    {
        if self.inner.contains_key(key) {
            return Err("ERR key is already exists".to_owned());
        }
        self.inner.insert(key.to_owned(), slice_to_vec(value));
        Ok(())
    }

    /// The value of `key`, if it has one.
    pub fn get(&self, key: &str) -> (value: Option<Vec<u8>>)
        ensures
            match value {
                Some(v) => self@.contains_key(key@) && v@ == self@[key@],
                None => !self@.contains_key(key@),
            },
    {
        match self.inner.get(key) {
            Some(v) => Some(slice_to_vec(v.as_slice())),
            None => None,
        }
    }

    /// Takes the keys away, and returns how many of them the store held.
    pub fn del(&mut self, keys: Vec<String>) -> (count: usize)
        requires
            old(self).wf(),
        ensures
            final(self).wf(),
            final(self)@ == old(self)@.remove_keys(texts(keys@).to_set()),
            count == present(old(self)@, texts(keys@)).len(),
    {
        self.inner.remove_all(&keys)
    }

    /// The entries of the store.
    pub fn inner(&self) -> (table: &Table)
        ensures
            table@ == self@,
            table.pairs() == self.listing(),
            table.wf() == self.wf(),
    {
        &self.inner
    }

    /// The snapshot of the store: the record of each entry, in the order of
    /// the listing.
    pub fn serialize(&self) -> (bytes: Vec<u8>)
        ensures
            bytes@ == encoded(self.listing()),
            decoded(bytes@) == Some(self@),
    {
        let mut buf: Vec<u8> = Vec::new();
        let mut i: usize = 0;
        let ghost pairs = self.inner.pairs();
        assert(encoded(pairs.take(0)) == Seq::<u8>::empty());
        while i < self.inner.len()
            invariant
                i <= pairs.len(),
                pairs == self.inner.pairs(),
                buf@ == encoded(pairs.take(i as int)),
                fits(pairs.take(i as int)),
            decreases pairs.len() - i,
        {
            let key = self.inner.key_at(i).as_str().as_bytes();
            let value = self.inner.value_at(i).as_slice();
            let ghost before = buf@;
            put_be64(&mut buf, key.len() as u64);
            put_be64(&mut buf, value.len() as u64);
            put_bytes(&mut buf, key);
            put_bytes(&mut buf, value);
            proof {
                reveal(record);
                lemma_encoded_push(pairs.take(i as int), pairs[i as int]);
                assert(pairs.take(i + 1) == pairs.take(i as int).push(pairs[i as int]));
                assert(buf@ == before + record(pairs[i as int]));
            }
            i += 1;
        }
        proof {
            assert(pairs.take(i as int) == pairs);
            lemma_decoded_pairs_encoded(pairs);
            self.inner.lemma_pairs();
        }
        buf
    }

    /// Reads a snapshot. Fails where the bytes do not divide into records,
    /// or a key is not UTF-8.
    pub fn deserialize(input: &[u8]) -> (r: Result<Memdb, String>)
        ensures
            match r {
                Ok(db) => db.wf() && decoded(input@) == Some(db@),
                Err(e) => decoded(input@) is None && e@ == format_error(),
            },
    {
        let mut position: usize = 0;
        let mut inner = Table::new();
        let ghost mut done: Seq<Pair> = Seq::empty();
        proof {
            assert(input@.skip(0) == input@);
            if decoded_pairs(input@) is Some {
                assert(done + decoded_pairs(input@)->0 == decoded_pairs(input@)->0);
            }
        }
        while input.len() > position
            invariant
                position <= input.len(),
                inner.wf(),
                inner@ == map_of(done),
                decoded_pairs(input@) == pairs_then(done, decoded_pairs(input@.skip(position as int))),
            decreases input.len() - position,
        {
            let rest = slice_subrange(input, position, input.len());
            assert(rest@ == input@.skip(position as int));
            match Memdb::deserialize_paier(&mut inner, rest) {
                Ok(n) => {
                    proof {
                        let found = first_record(rest@)->0;
                        let pair = found.0;
                        lemma_pairs_then(done, pair, decoded_pairs(rest@.skip(n as int)));
                        assert(rest@.skip(n as int) == input@.skip(position + n));
                        assert(done.push(pair).drop_last() == done);
                        done = done.push(pair);
                    }
                    position += n;
                },
                Err(e) => {
                    return Err(e);
                },
            }
        }
        proof {
            assert(input@.skip(position as int).len() == 0);
            assert(done + Seq::<Pair>::empty() == done);
        }
        Ok(Memdb { inner })
    }

    /// Reads the first record of `input` into the table, and returns the
    /// record's length.
    fn deserialize_paier(inner: &mut Table, input: &[u8]) -> (r: Result<usize, String>)
        requires
            old(inner).wf(),
        ensures
            final(inner).wf(),
            match r {
                Ok(n) => {
                    &&& first_record(input@) matches Some((pair, len))
                    &&& len == n
                    &&& 16 <= n <= input@.len()
                    &&& final(inner)@ == old(inner)@.insert(pair.0, pair.1)
                },
                Err(e) => {
                    &&& first_record(input@) is None
                    &&& final(inner)@ == old(inner)@
                    &&& e@ == format_error()
                },
            },
    {
        if input.len() < 16 {
            return Err("ERR invalid database format".to_owned());
        }
        let key_length: u64 = get_be64(input, 0);
        let value_length: u64 = get_be64(input, 8);
        let room: usize = input.len() - 16;
        if key_length > room as u64 {
            return Err("ERR invalid database format".to_owned());
        }
        if value_length > room as u64 - key_length {
            return Err("ERR invalid database format".to_owned());
        }
        let value_position: usize = 16 + key_length as usize;
        let end: usize = value_position + value_length as usize;
        let key = match decode(slice_to_vec(slice_subrange(input, 16, value_position))) {
            Some(key) => key,
            None => {
                return Err("ERR invalid database format".to_owned());
            },
        };
        let value = slice_to_vec(slice_subrange(input, value_position, end));
        inner.insert(key, value);
        Ok(end)
    }

    /// Carries out the lines of a log, one after the other. A line that
    /// fails is passed over.
    pub fn replay(&mut self, lines: &Vec<String>)
        requires
            old(self).wf(),
        ensures
            final(self).wf(),
            final(self)@ == replayed(old(self)@, texts(lines@)),
    {
        let mut i: usize = 0;
        assert(texts(lines@).take(0) == Seq::<Seq<char>>::empty());
        while i < lines.len()
            invariant
                i <= lines.len(),
                self.wf(),
                self@ == replayed(old(self)@, texts(lines@).take(i as int)),
            decreases lines.len() - i,
        {
            let _ = self.exec(lines[i].as_str());
            proof {
                let now = texts(lines@).take(i + 1);
                assert(now.drop_last() == texts(lines@).take(i as int));
                assert(now.last() == lines@[i as int]@);
            }
            i += 1;
        }
        assert(texts(lines@).take(i as int) == texts(lines@));
    }

    /// The store at start-up: the snapshot, then the lines of the log.
    /// Fails where the snapshot does.
    pub fn restore(snapshot: &[u8], log: &Vec<String>) -> (r: Result<Memdb, String>)
        ensures
            match r {
                Ok(db) => db.wf() && restored(snapshot@, texts(log@)) == Some(db@),
                Err(e) => restored(snapshot@, texts(log@)) is None && e@ == format_error(),
            },
    {
        match Memdb::deserialize(snapshot) {
            Ok(mut db) => {
                db.replay(log);
                Ok(db)
            },
            Err(e) => Err(e),
        }
    }
}

/// A value as the text of a reply.
pub fn value_text(value: Vec<u8>) -> (r: Result<String, String>)
    ensures
        reply_text(r) == value_reply(value@),
{
    match decode(value) {
        Some(text) => Ok(text),
        None => Err("ERR value is not valid utf-8".to_owned()),
    }
}

} // verus!
