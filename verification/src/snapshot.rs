//! The snapshot format: one record per entry, nothing between the records.
//!
//! A record is the length of the key's bytes, the length of the value, the
//! key's bytes and the value; each length is eight bytes, big-endian.

use crate::table::{map_of, Pair};
use vstd::prelude::*;
use vstd::utf8::{decode_utf8, encode_utf8, valid_utf8};

verus! {

/// The eight bytes of a length, most significant first.
#[verifier::opaque]
pub open spec fn be64(n: nat) -> Seq<u8> {
    let n1 = n / 256;
    let n2 = n1 / 256;
    let n3 = n2 / 256;
    let n4 = n3 / 256;
    let n5 = n4 / 256;
    let n6 = n5 / 256;
    let n7 = n6 / 256;
    seq![
        (n7 % 256) as u8,
        (n6 % 256) as u8,
        (n5 % 256) as u8,
        (n4 % 256) as u8,
        (n3 % 256) as u8,
        (n2 % 256) as u8,
        (n1 % 256) as u8,
        (n % 256) as u8,
    ]
}

/// The length that eight bytes stand for.
pub open spec fn be64_value(bytes: Seq<u8>) -> nat
    recommends
        bytes.len() == 8,
{
    (((((((bytes[0] * 256 + bytes[1]) * 256 + bytes[2]) * 256 + bytes[3]) * 256 + bytes[4]) * 256
        + bytes[5]) * 256 + bytes[6]) * 256 + bytes[7]) as nat
}

/// Eight bytes hold every length below 2^64, and give it back.
pub proof fn lemma_be64(n: nat)
    requires
        n <= u64::MAX,
    ensures
        be64(n).len() == 8,
        be64_value(be64(n)) == n,
{
    reveal(be64);
}

/// The record of one entry.
#[verifier::opaque]
pub open spec fn record(pair: Pair) -> Seq<u8> {
    let key = encode_utf8(pair.0);
    be64(key.len()) + be64(pair.1.len()) + key + pair.1
}

/// The records of the entries, one after the other.
pub open spec fn encoded(pairs: Seq<Pair>) -> Seq<u8>
    decreases pairs.len(),
{
    if pairs.len() == 0 {
        Seq::empty()
    } else {
        record(pairs[0]) + encoded(pairs.drop_first())
    }
}

/// The entry that the first record of `bytes` holds, and the length of that
/// record; `None` where the bytes end within it, or its key is not UTF-8.
pub open spec fn first_record(bytes: Seq<u8>) -> Option<(Pair, int)> {
    if bytes.len() < 16 {
        None
    } else {
        let key_len = be64_value(bytes.subrange(0, 8)) as int;
        let value_len = be64_value(bytes.subrange(8, 16)) as int;
        let key = bytes.subrange(16, 16 + key_len);
        if 16 + key_len + value_len > bytes.len() || !valid_utf8(key) {
            None
        } else {
            Some(
                (
                    (decode_utf8(key), bytes.subrange(16 + key_len, 16 + key_len + value_len)),
                    16 + key_len + value_len,
                ),
            )
        }
    }
}

/// `pair` followed by the entries of `rest`, if there are any.
pub open spec fn pair_then(pair: Pair, rest: Option<Seq<Pair>>) -> Option<Seq<Pair>> {
    match rest {
        Some(pairs) => Some(seq![pair] + pairs),
        None => None,
    }
}

/// The entries that `bytes` hold, record by record; `None` where the bytes
/// do not divide into records.
pub open spec fn decoded_pairs(bytes: Seq<u8>) -> Option<Seq<Pair>>
    decreases bytes.len(),
{
    if bytes.len() == 0 {
        Some(Seq::empty())
    } else {
        match first_record(bytes) {
            Some((pair, n)) => pair_then(pair, decoded_pairs(bytes.skip(n))),
            None => None,
        }
    }
}

/// The map that a snapshot stands for: of two records with one key, the
/// later one counts.
pub open spec fn decoded(bytes: Seq<u8>) -> Option<Map<Seq<char>, Seq<u8>>> {
    match decoded_pairs(bytes) {
        Some(pairs) => Some(map_of(pairs)),
        None => None,
    }
}

/// Every key and every value of the entries has a length below 2^64.
pub open spec fn fits(pairs: Seq<Pair>) -> bool {
    forall|i: int|
        0 <= i < pairs.len() ==> encode_utf8((#[trigger] pairs[i]).0).len() <= u64::MAX
            && pairs[i].1.len() <= u64::MAX
}

/// The first record of a record followed by anything is the entry that was
/// written.
pub proof fn lemma_first_record(pair: Pair, rest: Seq<u8>)
    requires
        encode_utf8(pair.0).len() <= u64::MAX,
        pair.1.len() <= u64::MAX,
    ensures
        first_record(record(pair) + rest) == Some((pair, record(pair).len() as int)),
        record(pair).len() >= 16,
        (record(pair) + rest).skip(record(pair).len() as int) == rest,
{
    reveal(record);
    let key = encode_utf8(pair.0);
    let bytes = record(pair) + rest;
    lemma_be64(key.len());
    lemma_be64(pair.1.len());
    vstd::utf8::encode_utf8_valid_utf8(pair.0);
    vstd::utf8::encode_utf8_decode_utf8(pair.0);
    assert(bytes.subrange(0, 8) == be64(key.len()));
    assert(bytes.subrange(8, 16) == be64(pair.1.len()));
    assert(bytes.subrange(16, 16 + key.len() as int) == key);
    assert(bytes.subrange(16 + key.len() as int, 16 + key.len() as int + pair.1.len() as int) == pair.1);
    assert(bytes.skip(record(pair).len() as int) == rest);
}

/// Records written one after the other are read back as the same entries.
pub proof fn lemma_decoded_pairs_encoded(pairs: Seq<Pair>)
    requires
        fits(pairs),
    ensures
        decoded_pairs(encoded(pairs)) == Some(pairs),
    decreases pairs.len(),
{
    if pairs.len() > 0 {
        let rest = pairs.drop_first();
        assert(fits(rest)) by {
            assert forall|i: int| 0 <= i < rest.len() implies encode_utf8(
                (#[trigger] rest[i]).0,
            ).len() <= u64::MAX && rest[i].1.len() <= u64::MAX by {
                assert(rest[i] == pairs[i + 1]);
            }
        }
        lemma_decoded_pairs_encoded(rest);
        lemma_first_record(pairs[0], encoded(rest));
        assert(seq![pairs[0]] + rest == pairs);
    }
}

/// Round trip: the snapshot of any entries reads back as the map that the
/// entries stand for.
pub proof fn lemma_round_trip(pairs: Seq<Pair>)
    requires
        fits(pairs),
    ensures
        decoded(encoded(pairs)) == Some(map_of(pairs)),
{
    lemma_decoded_pairs_encoded(pairs);
}

/// Writing one more entry adds its record at the end.
pub proof fn lemma_encoded_push(pairs: Seq<Pair>, pair: Pair)
    ensures
        encoded(pairs.push(pair)) == encoded(pairs) + record(pair),
    decreases pairs.len(),
{
    if pairs.len() == 0 {
        let none = Seq::<Pair>::empty();
        assert(pairs.push(pair).drop_first() == none);
        assert(encoded(none) == Seq::<u8>::empty());
        assert(encoded(pairs) == Seq::<u8>::empty());
        assert(encoded(pairs.push(pair)) == record(pair) + encoded(none));
    } else {
        lemma_encoded_push(pairs.drop_first(), pair);
        assert(pairs.push(pair).drop_first() == pairs.drop_first().push(pair));
        assert(encoded(pairs.push(pair)) == record(pairs[0]) + (encoded(pairs.drop_first())
            + record(pair)));
    }
}

/// Appends the eight bytes of `n`.
pub fn put_be64(buf: &mut Vec<u8>, n: u64)
    ensures
        final(buf)@ == old(buf)@ + be64(n as nat),
{
    let n1: u64 = n / 256;
    let n2: u64 = n1 / 256;
    let n3: u64 = n2 / 256;
    let n4: u64 = n3 / 256;
    let n5: u64 = n4 / 256;
    let n6: u64 = n5 / 256;
    let n7: u64 = n6 / 256;
    buf.push((n7 % 256) as u8);
    buf.push((n6 % 256) as u8);
    buf.push((n5 % 256) as u8);
    buf.push((n4 % 256) as u8);
    buf.push((n3 % 256) as u8);
    buf.push((n2 % 256) as u8);
    buf.push((n1 % 256) as u8);
    buf.push((n % 256) as u8);
    proof {
        reveal(be64);
        assert(buf@ == old(buf)@ + be64(n as nat));
    }
}

/// Reads the length that the eight bytes from `at` hold.
pub fn get_be64(input: &[u8], at: usize) -> (n: u64)
    requires
        at + 8 <= input@.len(),
    ensures
        n == be64_value(input@.subrange(at as int, at + 8)),
{
    let mut n: u64 = input[at] as u64;
    n = n * 256 + input[at + 1] as u64;
    n = n * 256 + input[at + 2] as u64;
    n = n * 256 + input[at + 3] as u64;
    n = n * 256 + input[at + 4] as u64;
    n = n * 256 + input[at + 5] as u64;
    n = n * 256 + input[at + 6] as u64;
    n = n * 256 + input[at + 7] as u64;
    n
}

/// Appends a copy of `bytes`.
pub fn put_bytes(buf: &mut Vec<u8>, bytes: &[u8])
    ensures
        final(buf)@ == old(buf)@ + bytes@,
{
    let mut i: usize = 0;
    while i < bytes.len()
        invariant
            i <= bytes.len(),
            buf@ == old(buf)@ + bytes@.take(i as int),
        decreases bytes.len() - i,
    {
        buf.push(bytes[i]);
        assert(bytes@.take(i + 1) == bytes@.take(i as int).push(bytes@[i as int]));
        i += 1;
    }
    assert(bytes@.take(i as int) == bytes@);
}

} // verus!
