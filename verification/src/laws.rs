//! Laws of the store, stated over the same spec functions the engine's
//! contracts use and proved once for all inputs: what a written value reads
//! back as, what a delete leaves, what survives a close and reopen, and that
//! the compacted form of a log is determined by the live keys alone.

use vstd::prelude::*;
use crate::record::{
    spec_record, replay, wf_log, apply_entry, map_of_pairs, serialize_pairs, distinct_keys,
    lemma_replay_append, lemma_map_of_pairs_props,
};
use crate::order::{lex_le, lemma_lex_trichotomy, sorted_pairs};
use crate::engine::{writes_record, log_after, compacted};
use crate::{MAX_KEY_LEN, MAX_VALUE_LEN, valid_key, valid_value};

verus! {

/// Round trip: after an accepted `set(k, v)` with a non-empty value, the key
/// is live and reads back as exactly `v`, whatever the index held before.
pub proof fn lemma_round_trip(m: Map<Seq<u8>, Seq<u8>>, k: Seq<u8>, v: Seq<u8>)
    requires
        v.len() != 0,
    ensures
        apply_entry(m, k, v).contains_key(k),
        apply_entry(m, k, v)[k] == v,
{
}

/// Delete: after `set(k, v)` and then `del(k)`, the key is not live, so a
/// read returns nothing.
pub proof fn lemma_set_then_del(m: Map<Seq<u8>, Seq<u8>>, k: Seq<u8>, v: Seq<u8>)
    ensures
        !apply_entry(m, k, v).remove(k).contains_key(k),
{
}

/// Applying `set(k, v)` for each value of `vs` in turn, all on the same key.
pub open spec fn apply_sets(m: Map<Seq<u8>, Seq<u8>>, k: Seq<u8>, vs: Seq<Seq<u8>>) -> Map<
    Seq<u8>,
    Seq<u8>,
>
    decreases vs.len(),
{
    if vs.len() == 0 {
        m
    } else {
        apply_entry(apply_sets(m, k, vs.drop_last()), k, vs.last())
    }
}

/// Latest write wins: after any sequence of `set(k, v_i)` with non-empty
/// values, the key reads back as the last value written.
pub proof fn lemma_latest_wins(m: Map<Seq<u8>, Seq<u8>>, k: Seq<u8>, vs: Seq<Seq<u8>>)
    requires
        vs.len() > 0,
        vs.last().len() != 0,
    ensures
        apply_sets(m, k, vs).contains_key(k),
        apply_sets(m, k, vs)[k] == vs.last(),
{
}

/// An empty value deletes: `set(k, <empty>)` and `del(k)` are accepted on
/// exactly the same keys, leave the same index, and append the same record
/// under the same condition.
pub proof fn lemma_empty_value_deletes(log: Seq<u8>, m: Map<Seq<u8>, Seq<u8>>, k: Seq<u8>)
    ensures
        valid_key(k) && valid_value(Seq::<u8>::empty()) <==> valid_key(k),
        apply_entry(m, k, Seq::<u8>::empty()) == m.remove(k),
        log_after(log, m, k, Seq::<u8>::empty()) == if m.contains_key(k) {
            log + spec_record(k, Seq::<u8>::empty())
        } else {
            log
        },
{
}

/// Idempotent set: the first `set(k, v)` appends one record when `v` is not
/// already the key's current value; the second `set(k, v)` appends none and
/// changes nothing.
pub proof fn lemma_idempotent_set(log: Seq<u8>, m: Map<Seq<u8>, Seq<u8>>, k: Seq<u8>, v: Seq<u8>)
    requires
        v.len() != 0,
    ensures
        writes_record(m, k, v) ==> log_after(log, m, k, v) == log + spec_record(k, v),
        !writes_record(m, k, v) ==> log_after(log, m, k, v) == log,
        !writes_record(apply_entry(m, k, v), k, v),
        log_after(log_after(log, m, k, v), apply_entry(m, k, v), k, v) == log_after(log, m, k, v),
        apply_entry(apply_entry(m, k, v), k, v) == apply_entry(m, k, v),
{
    assert(apply_entry(apply_entry(m, k, v), k, v) =~= apply_entry(m, k, v));
}

/// Durability: what a write leaves in the log replays to exactly the index
/// the engine holds, so a clean close and reopen rebuild the same live keys.
/// This covers the write that appends a record and the one that does not.
pub proof fn lemma_write_durable(log: Seq<u8>, m: Map<Seq<u8>, Seq<u8>>, k: Seq<u8>, v: Seq<u8>)
    requires
        wf_log(log),
        replay(log) == m,
        k.len() <= MAX_KEY_LEN,
        v.len() <= MAX_VALUE_LEN,
    ensures
        wf_log(log_after(log, m, k, v)),
        replay(log_after(log, m, k, v)) == apply_entry(m, k, v),
{
    if writes_record(m, k, v) {
        lemma_replay_append(Map::empty(), log, k, v);
    } else {
        if v.len() == 0 {
            assert(apply_entry(m, k, v) =~= m);
        } else {
            assert(apply_entry(m, k, v) =~= m);
        }
    }
}

/// Tombstones survive a reopen: after `set(k, v)` and then `del(k)`, the log
/// replays to an index without `k`, even though both records remain in it.
pub proof fn lemma_tombstone_reopen(log: Seq<u8>, m: Map<Seq<u8>, Seq<u8>>, k: Seq<u8>, v: Seq<u8>)
    requires
        wf_log(log),
        replay(log) == m,
        k.len() <= MAX_KEY_LEN,
        1 <= v.len() <= MAX_VALUE_LEN,
    ensures
        ({
            let log2 = log_after(log, m, k, v);
            let m2 = apply_entry(m, k, v);
            let log3 = log_after(log2, m2, k, Seq::<u8>::empty());
            !replay(log3).contains_key(k)
        }),
{
    let log2 = log_after(log, m, k, v);
    let m2 = apply_entry(m, k, v);
    lemma_write_durable(log, m, k, v);
    lemma_write_durable(log2, m2, k, Seq::<u8>::empty());
}


/// A compacted log is well formed and replays to exactly the index it was
/// written from: reopening right after a compaction rebuilds the same live
/// keys from a file of minimal size.
pub proof fn lemma_compacted_replays(log: Seq<u8>, index: Map<Seq<u8>, Seq<u8>>)
    requires
        compacted(log, index),
    ensures
        wf_log(log),
        replay(log) == index,
{
    let ps = choose|ps: Seq<(Seq<u8>, Seq<u8>)>|
        {
            &&& log == #[trigger] serialize_pairs(ps)
            &&& sorted_pairs(ps)
            &&& distinct_keys(ps)
            &&& crate::record::valid_pairs(ps)
            &&& map_of_pairs(ps) == index
            &&& log.len() == crate::record::pairs_size(ps)
        };
    crate::record::lemma_replay_serialize(ps);
}

/// Two pair sequences in strictly ascending key order that describe the same
/// map are the same sequence: the sorted snapshot of an index is unique.
pub proof fn lemma_sorted_pairs_unique(ps1: Seq<(Seq<u8>, Seq<u8>)>, ps2: Seq<(Seq<u8>, Seq<u8>)>)
    requires
        sorted_pairs(ps1),
        distinct_keys(ps1),
        sorted_pairs(ps2),
        distinct_keys(ps2),
        map_of_pairs(ps1) == map_of_pairs(ps2),
    ensures
        ps1 == ps2,
    decreases ps1.len(),
{
    lemma_map_of_pairs_props(ps1);
    lemma_map_of_pairs_props(ps2);
    if ps1.len() == 0 {
        if ps2.len() > 0 {
            assert(map_of_pairs(ps2).contains_key(ps2[ps2.len() - 1].0));
            assert(false);
        }
        assert(ps1 =~= ps2);
    } else if ps2.len() == 0 {
        assert(map_of_pairs(ps1).contains_key(ps1[ps1.len() - 1].0));
        assert(false);
    } else {
        let m = map_of_pairs(ps1);
        let a = ps1.last();
        let b = ps2.last();
        assert(m.contains_key(a.0) && m[a.0] == a.1);
        assert(m.contains_key(b.0) && m[b.0] == b.1);
        let i2 = choose|i: int| 0 <= i < ps2.len() && (#[trigger] ps2[i]).0 == a.0;
        assert(lex_le(ps2[i2].0, b.0));
        let i1 = choose|i: int| 0 <= i < ps1.len() && (#[trigger] ps1[i]).0 == b.0;
        assert(lex_le(ps1[i1].0, a.0));
        lemma_lex_trichotomy(a.0, b.0);
        assert(a.0 == b.0);
        assert(a == b);
        let t1 = ps1.drop_last();
        let t2 = ps2.drop_last();
        assert(forall|i: int| 0 <= i < t1.len() ==> #[trigger] t1[i] == ps1[i]);
        assert(forall|i: int| 0 <= i < t2.len() ==> #[trigger] t2[i] == ps2[i]);
        assert(sorted_pairs(t1) && distinct_keys(t1));
        assert(sorted_pairs(t2) && distinct_keys(t2));
        lemma_map_of_pairs_props(t1);
        lemma_map_of_pairs_props(t2);
        assert(!map_of_pairs(t1).contains_key(a.0));
        assert(!map_of_pairs(t2).contains_key(a.0));
        assert(map_of_pairs(t1) =~= m.remove(a.0));
        assert(map_of_pairs(t2) =~= m.remove(a.0));
        lemma_sorted_pairs_unique(t1, t2);
        assert(ps1 =~= ps2);
    }
}

/// Post-compaction shrink: the compacted log for an index is one sequence of
/// bytes — its length, the sum of one record per live pair, included. Any
/// two compactions of the same live keys produce the same file.
pub proof fn lemma_compacted_unique(log1: Seq<u8>, log2: Seq<u8>, index: Map<Seq<u8>, Seq<u8>>)
    requires
        compacted(log1, index),
        compacted(log2, index),
    ensures
        log1 == log2,
{
    let ps1 = choose|ps: Seq<(Seq<u8>, Seq<u8>)>|
        {
            &&& log1 == #[trigger] serialize_pairs(ps)
            &&& sorted_pairs(ps)
            &&& distinct_keys(ps)
            &&& crate::record::valid_pairs(ps)
            &&& map_of_pairs(ps) == index
            &&& log1.len() == crate::record::pairs_size(ps)
        };
    let ps2 = choose|ps: Seq<(Seq<u8>, Seq<u8>)>|
        {
            &&& log2 == #[trigger] serialize_pairs(ps)
            &&& sorted_pairs(ps)
            &&& distinct_keys(ps)
            &&& crate::record::valid_pairs(ps)
            &&& map_of_pairs(ps) == index
            &&& log2.len() == crate::record::pairs_size(ps)
        };
    lemma_sorted_pairs_unique(ps1, ps2);
}

} // verus!
