//! The on-disk log record format.
//!
//! A record is an 8-byte header — the key length and the value length, each a
//! big-endian `u32` — followed by the key bytes and the value bytes. A record
//! whose value length is zero is a tombstone: it deletes its key. The log is
//! a plain concatenation of records, and replaying it from the front yields
//! the map of live keys.

use vstd::prelude::*;
use vstd::arithmetic::div_mod::{lemma_breakdown, lemma_small_mod};
use crate::{MAX_KEY_LEN, MAX_VALUE_LEN};

verus! {

/// The number a 4-byte big-endian sequence stands for.
pub open spec fn be32(b: Seq<u8>) -> int
    recommends
        b.len() == 4,
{
    b[0] * 0x100_0000 + b[1] * 0x1_0000 + b[2] * 0x100 + b[3]
}

/// The 4-byte big-endian encoding of a number below 2^32.
pub open spec fn be32_bytes(n: int) -> Seq<u8>
    recommends
        0 <= n < 0x1_0000_0000,
{
    seq![
        ((n / 0x100_0000) % 0x100) as u8,
        ((n / 0x1_0000) % 0x100) as u8,
        ((n / 0x100) % 0x100) as u8,
        (n % 0x100) as u8,
    ]
}

/// Decoding undoes encoding for every number below 2^32.
pub proof fn lemma_be32_roundtrip(n: int)
    requires
        0 <= n < 0x1_0000_0000,
    ensures
        be32(be32_bytes(n)) == n,
{
    lemma_small_mod(n as nat, 0x1_0000_0000);
    lemma_breakdown(n, 0x100_0000, 0x100);
    lemma_breakdown(n, 0x1_0000, 0x100);
    lemma_breakdown(n, 0x100, 0x100);
}

/// The serialized record for `k` and `v`: the two big-endian length fields,
/// then the key bytes, then the value bytes.
pub open spec fn spec_record(k: Seq<u8>, v: Seq<u8>) -> Seq<u8> {
    be32_bytes(k.len() as int) + be32_bytes(v.len() as int) + k + v
}

/// The key length named by the header at the front of `s`.
pub open spec fn header_key_len(s: Seq<u8>) -> int
    recommends
        s.len() >= 8,
{
    be32(s.subrange(0, 4))
}

/// The value length named by the header at the front of `s`.
pub open spec fn header_value_len(s: Seq<u8>) -> int
    recommends
        s.len() >= 8,
{
    be32(s.subrange(4, 8))
}

/// Whether a complete record, with lengths within the size limits, stands at
/// the front of `s`. Anything else — a short header, an absurd length field,
/// or a body cut off by the end of the bytes — is a torn tail.
pub open spec fn has_record(s: Seq<u8>) -> bool {
    &&& s.len() >= 8
    &&& header_key_len(s) <= MAX_KEY_LEN
    &&& header_value_len(s) <= MAX_VALUE_LEN
    &&& s.len() >= 8 + header_key_len(s) + header_value_len(s)
}

/// The total size of the record at the front of `s`.
pub open spec fn record_size(s: Seq<u8>) -> int
    recommends
        s.len() >= 8,
{
    8 + header_key_len(s) + header_value_len(s)
}

/// The key of the record at the front of `s`.
pub open spec fn record_key(s: Seq<u8>) -> Seq<u8>
    recommends
        has_record(s),
{
    s.subrange(8, 8 + header_key_len(s))
}

/// The value of the record at the front of `s`.
pub open spec fn record_value(s: Seq<u8>) -> Seq<u8>
    recommends
        has_record(s),
{
    s.subrange(8 + header_key_len(s), record_size(s))
}

/// What one log entry does to the live-key map: an empty value deletes the
/// key, any other value becomes the key's current value.
pub open spec fn apply_entry(
    m: Map<Seq<u8>, Seq<u8>>,
    k: Seq<u8>,
    v: Seq<u8>,
) -> Map<Seq<u8>, Seq<u8>> {
    if v.len() == 0 {
        m.remove(k)
    } else {
        m.insert(k, v)
    }
}

/// Replaying the records of `s` in order, starting from the map `m`, and
/// stopping at the first position where no complete record parses.
pub open spec fn replay_from(m: Map<Seq<u8>, Seq<u8>>, s: Seq<u8>) -> Map<Seq<u8>, Seq<u8>>
    decreases s.len(),
{
    if has_record(s) {
        replay_from(apply_entry(m, record_key(s), record_value(s)), s.skip(record_size(s)))
    } else {
        m
    }
}

/// The live-key map that the log bytes `s` describe.
pub open spec fn replay(s: Seq<u8>) -> Map<Seq<u8>, Seq<u8>> {
    replay_from(Map::empty(), s)
}

/// A serialized record parses back to its key and value, whatever bytes
/// follow it.
pub proof fn lemma_record_at_front(k: Seq<u8>, v: Seq<u8>, rest: Seq<u8>)
    requires
        k.len() <= MAX_KEY_LEN,
        v.len() <= MAX_VALUE_LEN,
    ensures
        has_record(spec_record(k, v) + rest),
        header_key_len(spec_record(k, v) + rest) == k.len(),
        header_value_len(spec_record(k, v) + rest) == v.len(),
        record_size(spec_record(k, v) + rest) == 8 + k.len() + v.len(),
        record_key(spec_record(k, v) + rest) == k,
        record_value(spec_record(k, v) + rest) == v,
        (spec_record(k, v) + rest).skip(8 + k.len() + v.len() as int) == rest,
{
    let s = spec_record(k, v) + rest;
    lemma_be32_roundtrip(k.len() as int);
    lemma_be32_roundtrip(v.len() as int);
    assert(s.subrange(0, 4) =~= be32_bytes(k.len() as int));
    assert(s.subrange(4, 8) =~= be32_bytes(v.len() as int));
    assert(record_key(s) =~= k);
    assert(record_value(s) =~= v);
    assert(s.skip(8 + k.len() + v.len() as int) =~= rest);
}

/// The record at the front of `s` is still the record at the front of
/// `s + t`: parsing looks no further than the record's own bytes.
pub proof fn lemma_record_local(s: Seq<u8>, t: Seq<u8>)
    requires
        has_record(s),
    ensures
        has_record(s + t),
        record_size(s + t) == record_size(s),
        record_key(s + t) == record_key(s),
        record_value(s + t) == record_value(s),
        (s + t).skip(record_size(s)) == s.skip(record_size(s)) + t,
{
    assert((s + t).subrange(0, 4) =~= s.subrange(0, 4));
    assert((s + t).subrange(4, 8) =~= s.subrange(4, 8));
    assert(record_key(s + t) =~= record_key(s));
    assert(record_value(s + t) =~= record_value(s));
    assert((s + t).skip(record_size(s)) =~= s.skip(record_size(s)) + t);
}

/// A log is well formed when it parses as records to exactly its end, with
/// no torn tail.
pub open spec fn wf_log(s: Seq<u8>) -> bool
    decreases s.len(),
{
    if s.len() == 0 {
        true
    } else if has_record(s) {
        wf_log(s.skip(record_size(s)))
    } else {
        false
    }
}

/// Keys bounded by the key limit, values non-empty and bounded by the value
/// limit: what holds of every index an engine serves from.
pub open spec fn bounded_index(m: Map<Seq<u8>, Seq<u8>>) -> bool {
    forall|k: Seq<u8>| #[trigger] m.contains_key(k)
        ==> k.len() <= MAX_KEY_LEN && 1 <= m[k].len() <= MAX_VALUE_LEN
}

/// Replay keeps an index bounded: every record it applies has its lengths
/// within the limits, and a tombstone only removes.
pub proof fn lemma_replay_bounded(m: Map<Seq<u8>, Seq<u8>>, s: Seq<u8>)
    requires
        bounded_index(m),
    ensures
        bounded_index(replay_from(m, s)),
    decreases s.len(),
{
    if has_record(s) {
        let rk = record_key(s);
        let rv = record_value(s);
        let m2 = apply_entry(m, rk, rv);
        assert(bounded_index(m2)) by {
            assert forall|k: Seq<u8>| #[trigger] m2.contains_key(k) implies k.len() <= MAX_KEY_LEN
                && 1 <= m2[k].len() <= MAX_VALUE_LEN by {
                if k != rk {
                    assert(m.contains_key(k) && m2[k] == m[k]);
                } else {
                    assert(rv.len() != 0 && m2[k] == rv);
                }
            }
        };
        lemma_replay_bounded(m2, s.skip(record_size(s)));
    }
}

/// No key in every pair twice: what a snapshot of a map satisfies.
pub open spec fn distinct_keys(ps: Seq<(Seq<u8>, Seq<u8>)>) -> bool {
    forall|i: int, j: int| 0 <= i < j < ps.len() ==> (#[trigger] ps[i]).0 != (#[trigger] ps[j]).0
}

/// Every pair within the size limits and with a non-empty value, so that each
/// serializes to a live (non-tombstone) record.
pub open spec fn valid_pairs(ps: Seq<(Seq<u8>, Seq<u8>)>) -> bool {
    forall|i: int| 0 <= i < ps.len()
        ==> (#[trigger] ps[i]).0.len() <= MAX_KEY_LEN && 1 <= ps[i].1.len() <= MAX_VALUE_LEN
}

/// The concatenation of the records for the pairs of `ps`, in order.
pub open spec fn serialize_pairs(ps: Seq<(Seq<u8>, Seq<u8>)>) -> Seq<u8>
    decreases ps.len(),
{
    if ps.len() == 0 {
        Seq::empty()
    } else {
        serialize_pairs(ps.drop_last()) + spec_record(ps.last().0, ps.last().1)
    }
}

/// The byte size of the records for the pairs of `ps`: an 8-byte header plus
/// the key and value bytes for each.
pub open spec fn pairs_size(ps: Seq<(Seq<u8>, Seq<u8>)>) -> int
    decreases ps.len(),
{
    if ps.len() == 0 {
        0
    } else {
        pairs_size(ps.drop_last()) + 8 + ps.last().0.len() + ps.last().1.len()
    }
}

/// The map that the pairs of `ps` describe, later pairs winning.
pub open spec fn map_of_pairs(ps: Seq<(Seq<u8>, Seq<u8>)>) -> Map<Seq<u8>, Seq<u8>>
    decreases ps.len(),
{
    if ps.len() == 0 {
        Map::empty()
    } else {
        map_of_pairs(ps.drop_last()).insert(ps.last().0, ps.last().1)
    }
}

/// What the map of a pair sequence with distinct keys holds: exactly the
/// keys of the pairs, each with its pair's value.
pub proof fn lemma_map_of_pairs_props(ps: Seq<(Seq<u8>, Seq<u8>)>)
    requires
        distinct_keys(ps),
    ensures
        forall|k: Seq<u8>| #[trigger] map_of_pairs(ps).contains_key(k) <==> exists|i: int|
            0 <= i < ps.len() && (#[trigger] ps[i]).0 == k,
        forall|i: int|
            0 <= i < ps.len() ==> map_of_pairs(ps).contains_key((#[trigger] ps[i]).0)
                && map_of_pairs(ps)[ps[i].0] == ps[i].1,
    decreases ps.len(),
{
    if ps.len() > 0 {
        let ps0 = ps.drop_last();
        let m0 = map_of_pairs(ps0);
        let m = map_of_pairs(ps);
        assert(forall|i: int| 0 <= i < ps0.len() ==> #[trigger] ps0[i] == ps[i]);
        assert(distinct_keys(ps0));
        lemma_map_of_pairs_props(ps0);
        assert forall|k: Seq<u8>| #[trigger] m.contains_key(k) implies exists|i: int|
            0 <= i < ps.len() && (#[trigger] ps[i]).0 == k by {
            if k == ps.last().0 {
                assert(ps[ps.len() - 1].0 == k);
            } else {
                assert(m0.contains_key(k));
            }
        }
        assert forall|i: int| 0 <= i < ps.len() implies m.contains_key((#[trigger] ps[i]).0)
            && m[ps[i].0] == ps[i].1 by {
            if i == ps.len() - 1 {
                assert(m[ps.last().0] == ps.last().1);
            } else {
                assert(ps[i].0 != ps.last().0);
                assert(m0.contains_key(ps0[i].0) && m0[ps0[i].0] == ps0[i].1);
            }
        }
    }
}

/// A log written as one record per pair is well formed, replays to exactly
/// the map of those pairs, and is as long as the sum of the record sizes.
/// This is what compaction leaves on disk.
pub proof fn lemma_replay_serialize(ps: Seq<(Seq<u8>, Seq<u8>)>)
    requires
        valid_pairs(ps),
    ensures
        wf_log(serialize_pairs(ps)),
        replay(serialize_pairs(ps)) == map_of_pairs(ps),
        serialize_pairs(ps).len() == pairs_size(ps),
    decreases ps.len(),
{
    if ps.len() == 0 {
        assert(!has_record(serialize_pairs(ps)));
    } else {
        let ps0 = ps.drop_last();
        let (k, v) = ps.last();
        assert(valid_pairs(ps0));
        lemma_replay_serialize(ps0);
        lemma_replay_append(Map::empty(), serialize_pairs(ps0), k, v);
    }
}

/// Appending one record to a well-formed log replays to the old map with
/// that one entry applied, and keeps the log well formed. This is the step
/// that makes every write durable: what a later open rebuilds from the file
/// is exactly what the in-memory index became.
pub proof fn lemma_replay_append(m: Map<Seq<u8>, Seq<u8>>, s: Seq<u8>, k: Seq<u8>, v: Seq<u8>)
    requires
        wf_log(s),
        k.len() <= MAX_KEY_LEN,
        v.len() <= MAX_VALUE_LEN,
    ensures
        wf_log(s + spec_record(k, v)),
        replay_from(m, s + spec_record(k, v)) == apply_entry(replay_from(m, s), k, v),
    decreases s.len(),
{
    let r = spec_record(k, v);
    if s.len() == 0 {
        lemma_record_at_front(k, v, Seq::<u8>::empty());
        assert(r + Seq::<u8>::empty() =~= r);
        assert(s + r =~= r);
        assert(has_record(r));
        let tail = r.skip(record_size(r));
        assert(tail =~= Seq::<u8>::empty());
        assert(wf_log(tail));
        assert(!has_record(tail));
        assert(replay_from(m, s) == m);
        assert(record_key(r) == k && record_value(r) == v);
        assert(replay_from(m, r) == replay_from(apply_entry(m, k, v), tail));
        assert(replay_from(apply_entry(m, k, v), tail) == apply_entry(m, k, v));
    } else {
        assert(has_record(s));
        lemma_record_local(s, r);
        let m2 = apply_entry(m, record_key(s), record_value(s));
        let tail = s.skip(record_size(s));
        lemma_replay_append(m2, tail, k, v);
        assert(replay_from(m, s + r) == replay_from(m2, tail + r));
        assert(replay_from(m, s) == replay_from(m2, tail));
        assert(wf_log(s + r));
    }
}

/// Appends the 4-byte big-endian encoding of `n` to `out`.
fn put_be32(out: &mut Vec<u8>, n: u32)
    ensures
        final(out)@ == old(out)@ + be32_bytes(n as int),
{
    let ghost before = out@;
    out.push(((n / 0x100_0000) % 0x100) as u8);
    out.push(((n / 0x1_0000) % 0x100) as u8);
    out.push(((n / 0x100) % 0x100) as u8);
    out.push((n % 0x100) as u8);
    proof {
        assert(out@ =~= before + be32_bytes(n as int));
    }
}

/// Appends every byte of `src` to `out`.
pub(crate) fn put_bytes(out: &mut Vec<u8>, src: &[u8])
    ensures
        final(out)@ == old(out)@ + src@,
{
    let ghost before = out@;
    let mut i: usize = 0;
    while i < src.len()
        invariant
            0 <= i <= src@.len(),
            out@ == before + src@.take(i as int),
        decreases src@.len() - i,
    {
        out.push(src[i]);
        proof {
            assert(before + src@.take(i as int) + seq![src@[i as int]] =~= before + src@.take(
                i + 1,
            ));
        }
        i = i + 1;
    }
    proof {
        assert(before + src@.take(i as int) =~= before + src@);
    }
}

/// Serializes one record: the two length fields, the key, the value.
pub fn encode_record(key: &[u8], value: &[u8]) -> (r: Vec<u8>)
    requires
        key@.len() <= MAX_KEY_LEN,
        value@.len() <= MAX_VALUE_LEN,
    ensures
        r@ == spec_record(key@, value@),
{
    let mut out: Vec<u8> = Vec::new();
    put_be32(&mut out, key.len() as u32);
    put_be32(&mut out, value.len() as u32);
    put_bytes(&mut out, key);
    put_bytes(&mut out, value);
    proof {
        assert(out@ =~= spec_record(key@, value@));
    }
    out
}

/// Reads the big-endian number in the four bytes of `log` at `pos`.
fn read_be32(log: &[u8], pos: usize) -> (n: u32)
    requires
        pos + 4 <= log@.len(),
    ensures
        n as int == be32(log@.subrange(pos as int, pos as int + 4)),
{
    let b0 = log[pos];
    let b1 = log[pos + 1];
    let b2 = log[pos + 2];
    let b3 = log[pos + 3];
    proof {
        let s = log@.subrange(pos as int, pos as int + 4);
        assert(s[0] == b0 && s[1] == b1 && s[2] == b2 && s[3] == b3);
    }
    (b0 as u32) * 0x100_0000 + (b1 as u32) * 0x1_0000 + (b2 as u32) * 0x100 + (b3 as u32)
}

/// Copies `len` bytes of `log` starting at `pos` into a fresh vector.
fn read_bytes(log: &[u8], pos: usize, len: usize) -> (r: Vec<u8>)
    requires
        pos + len <= log@.len(),
    ensures
        r@ == log@.subrange(pos as int, pos as int + len),
{
    let total = log.len();
    let mut out: Vec<u8> = Vec::new();
    let mut i: usize = 0;
    while i < len
        invariant
            0 <= i <= len,
            pos + len <= total == log@.len(),
            out@ == log@.subrange(pos as int, pos as int + i),
        decreases len - i,
    {
        out.push(log[pos + i]);
        proof {
            assert(log@.subrange(pos as int, pos as int + i) + seq![log@[pos + i]] =~= log@.subrange(
                pos as int,
                pos as int + i + 1,
            ));
        }
        i = i + 1;
    }
    out
}

/// Decodes the record at `pos`, returning its key, its value and the offset
/// of the next record; or `None` when what starts at `pos` is no complete
/// record — a torn tail.
pub fn decode_record(log: &[u8], pos: usize) -> (r: Option<(Vec<u8>, Vec<u8>, usize)>)
    requires
        pos <= log@.len(),
    ensures
        match r {
            Some(kvn) => {
                &&& has_record(log@.skip(pos as int))
                &&& kvn.0@ == record_key(log@.skip(pos as int))
                &&& kvn.1@ == record_value(log@.skip(pos as int))
                &&& kvn.2 == pos + record_size(log@.skip(pos as int))
            },
            None => !has_record(log@.skip(pos as int)),
        },
{
    let ghost s = log@.skip(pos as int);
    let remaining = log.len() - pos;
    if remaining < 8 {
        return None;
    }
    let key_len_32 = read_be32(log, pos);
    let value_len_32 = read_be32(log, pos + 4);
    proof {
        assert(s.subrange(0, 4) =~= log@.subrange(pos as int, pos as int + 4));
        assert(s.subrange(4, 8) =~= log@.subrange(pos as int + 4, pos as int + 8));
    }
    if key_len_32 > MAX_KEY_LEN as u32 || value_len_32 > MAX_VALUE_LEN as u32 {
        return None;
    }
    let key_len = key_len_32 as usize;
    let value_len = value_len_32 as usize;
    if remaining - 8 < key_len || remaining - 8 - key_len < value_len {
        return None;
    }
    let key = read_bytes(log, pos + 8, key_len);
    let value = read_bytes(log, pos + 8 + key_len, value_len);
    proof {
        assert(record_key(s) =~= log@.subrange(pos as int + 8, pos as int + 8 + key_len));
        assert(record_value(s) =~= log@.subrange(
            pos as int + 8 + key_len,
            pos as int + 8 + key_len + value_len,
        ));
    }
    Some((key, value, pos + 8 + key_len + value_len))
}

} // verus!
