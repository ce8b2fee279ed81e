//! The storage engine: validate, coordinate log and index, compact.
//!
//! The engine owns the append-only log bytes and the in-memory index, and
//! keeps them in step: replaying the log always yields exactly the index.
//! Opening replays the given bytes and compacts at once, so the log holds one
//! record per live key and no tombstones. Writes append a record and update
//! the index; reads and scans consult the index alone.

use vstd::prelude::*;
use dashmap::DashMap;
use crate::record::{
    spec_record, replay, wf_log, apply_entry, bounded_index, map_of_pairs, serialize_pairs,
    pairs_size, distinct_keys, valid_pairs, encode_record, put_bytes, lemma_replay_append,
    lemma_replay_serialize, lemma_map_of_pairs_props,
};
use crate::order::{
    lex_lt, lex_le, lex_less, lemma_lex_trichotomy, lemma_permutation_props, sorted_pairs,
    pairs_view, sort_pairs,
};
use crate::index::{dm_get, dm_insert, dm_remove, dm_pairs, dash_contents};
use vstd::slice::slice_to_vec;
use crate::log::{Log, LogMessage, LogMessageView};
use crate::{MAX_KEY_LEN, MAX_VALUE_LEN, valid_key, valid_value};

verus! {

/// What a store operation can fail with: a key or value that breaks the size
/// limits. Nothing is mutated when this is returned.
#[derive(Clone, Copy, Debug, PartialEq, Eq, Structural)]
pub enum KvError {
    InvalidInput,
}

/// Whether `set(k, v)` (or, for an empty `v`, `del(k)`) is accepted: the key
/// is non-empty and within the key limit, the value within the value limit.
pub open spec fn set_accepted(k: Seq<u8>, v: Seq<u8>) -> bool {
    valid_key(k) && valid_value(v)
}

/// Whether an accepted `set(k, v)` appends a log record to the index `m`:
/// a deletion writes a tombstone only when the key is live, and an insertion
/// writes only when `v` is not already the key's current value.
pub open spec fn writes_record(m: Map<Seq<u8>, Seq<u8>>, k: Seq<u8>, v: Seq<u8>) -> bool {
    if v.len() == 0 {
        m.contains_key(k)
    } else {
        !(m.contains_key(k) && m[k] == v)
    }
}

/// The log bytes after an accepted `set(k, v)` against the index `m`: the
/// old bytes, with one record appended when one is written at all.
pub open spec fn log_after(log: Seq<u8>, m: Map<Seq<u8>, Seq<u8>>, k: Seq<u8>, v: Seq<u8>) -> Seq<
    u8,
> {
    if writes_record(m, k, v) {
        log + spec_record(k, v)
    } else {
        log
    }
}

/// A log that compaction has just written: the serialization of the live
/// pairs in ascending key order, one record each, no tombstones; its length
/// is the sum of the record sizes of the live pairs.
pub open spec fn compacted(log: Seq<u8>, index: Map<Seq<u8>, Seq<u8>>) -> bool {
    exists|ps: Seq<(Seq<u8>, Seq<u8>)>|
        {
            &&& log == #[trigger] serialize_pairs(ps)
            &&& sorted_pairs(ps)
            &&& distinct_keys(ps)
            &&& valid_pairs(ps)
            &&& map_of_pairs(ps) == index
            &&& log.len() == pairs_size(ps)
        }
}

/// Whether two byte strings hold the same bytes.
fn eq_bytes(a: &[u8], b: &[u8]) -> (r: bool)
    ensures
        r == (a@ == b@),
{
    if a.len() != b.len() {
        return false;
    }
    let mut i: usize = 0;
    while i < a.len()
        invariant
            0 <= i <= a@.len(),
            a@.len() == b@.len(),
            forall|j: int| 0 <= j < i ==> a@[j] == b@[j],
        decreases a@.len() - i,
    {
        if a[i] != b[i] {
            return false;
        }
        i = i + 1;
    }
    proof {
        assert(a@ =~= b@);
    }
    true
}

/// The storage engine over one database: the log bytes that belong on disk,
/// and the index of live keys.
pub struct Engine {
    log: Log,
    key_map: DashMap<Vec<u8>, Vec<u8>>,
}

impl Engine {
    /// The bytes of the log file.
    pub closed spec fn log_view(&self) -> Seq<u8> {
        self.log.contents@
    }

    /// The live keys with their current values.
    pub closed spec fn index_view(&self) -> Map<Seq<u8>, Seq<u8>> {
        dash_contents(self.key_map)
    }

    /// The writer messages not yet performed against the file.
    pub closed spec fn queue_view(&self) -> Seq<LogMessageView> {
        self.log.writer.queue_view()
    }

    /// Whether the engine is serving: `close` has not been called.
    pub closed spec fn is_open(&self) -> bool {
        self.log.writer.is_open()
    }

    /// The engine's invariant: the log parses to exactly its end, replaying
    /// it yields exactly the index, and every indexed entry is within the
    /// size limits with a non-empty value.
    pub open spec fn wf(&self) -> bool {
        &&& wf_log(self.log_view())
        &&& replay(self.log_view()) == self.index_view()
        &&& bounded_index(self.index_view())
    }

    /// Opens a database over the bytes `initial` read from its file: replays
    /// them into a fresh index — a torn tail ends the replay at the last
    /// good record boundary — and compacts at once. The caller owns writing
    /// the returned engine's log bytes back over the file.
    pub fn new(initial: Vec<u8>) -> (r: Engine)
        ensures
            r.wf(),
            r.is_open(),
            r.index_view() == replay(initial@),
            compacted(r.log_view(), r.index_view()),
            r.queue_view() == Seq::<LogMessageView>::empty(),
    {
        let log = Log::new(initial);
        let key_map = log.build_key_map();
        let mut engine = Engine { log, key_map };
        engine.compact();
        engine
    }

    /// Rewrites the log so that it holds exactly one record per live key, in
    /// ascending key order, and no tombstones; the index is unchanged. The
    /// writer starts fresh with an empty queue: the caller that owns the
    /// file must replace the file's bytes with the new log bytes.
    pub fn compact(&mut self)
        requires
            bounded_index(old(self).index_view()),
        ensures
            final(self).wf(),
            final(self).is_open(),
            final(self).index_view() == old(self).index_view(),
            compacted(final(self).log_view(), final(self).index_view()),
            final(self).queue_view() == Seq::<LogMessageView>::empty(),
    {
        let ghost m = dash_contents(self.key_map);
        let pairs = dm_pairs(&self.key_map);
        let ghost psrc = pairs_view(pairs@);
        let sorted = sort_pairs(pairs);
        let ghost s = pairs_view(sorted@);
        proof {
            assert forall|i: int, j: int| 0 <= i < j < psrc.len() implies #[trigger] psrc[i]
                != #[trigger] psrc[j] by {
                assert(psrc[i].0 == pairs@[i].0@ && psrc[j].0 == pairs@[j].0@);
            }
            lemma_permutation_props(psrc, s);
            assert forall|i: int| 0 <= i < s.len() implies m.contains_key((#[trigger] s[i]).0)
                && s[i].1 == m[s[i].0] by {
                assert(s.contains(s[i]));
                assert(psrc.contains(s[i]));
                let j = choose|j: int| 0 <= j < psrc.len() && psrc[j] == s[i];
                assert(psrc[j].0 == pairs@[j].0@ && psrc[j].1 == pairs@[j].1@);
            }
            assert forall|i: int, j: int| 0 <= i < j < s.len() implies (#[trigger] s[i]).0 != (
            #[trigger] s[j]).0 by {
                if s[i].0 == s[j].0 {
                    assert(s[i].1 == m[s[i].0] && s[j].1 == m[s[j].0]);
                    assert(s[i] == s[j]);
                }
            }
            assert(valid_pairs(s)) by {
                assert forall|i: int| 0 <= i < s.len() implies (#[trigger] s[i]).0.len()
                    <= MAX_KEY_LEN && 1 <= s[i].1.len() <= MAX_VALUE_LEN by {
                    assert(m.contains_key(s[i].0));
                }
            };
            lemma_map_of_pairs_props(s);
            assert(map_of_pairs(s) =~= m) by {
                assert forall|k: Seq<u8>| #[trigger] m.contains_key(k) implies map_of_pairs(
                    s,
                ).contains_key(k) by {
                    let i = choose|i: int| 0 <= i < pairs@.len() && (#[trigger] pairs@[i]).0@ == k;
                    assert(psrc[i] == (k, m[k]));
                    assert(psrc.contains((k, m[k])));
                    assert(s.contains((k, m[k])));
                    let j = choose|j: int| 0 <= j < s.len() && s[j] == (k, m[k]);
                    assert(s[j].0 == k);
                }
            };
        }
        let mut new_contents: Vec<u8> = Vec::new();
        let mut i: usize = 0;
        proof {
            assert(s.take(0) =~= Seq::<(Seq<u8>, Seq<u8>)>::empty());
        }
        while i < sorted.len()
            invariant
                0 <= i <= sorted@.len(),
                s == pairs_view(sorted@),
                valid_pairs(s),
                new_contents@ == serialize_pairs(s.take(i as int)),
            decreases sorted@.len() - i,
        {
            proof {
                assert((#[trigger] s[i as int]).0 == sorted@[i as int].0@);
            }
            let rec = encode_record(sorted[i].0.as_slice(), sorted[i].1.as_slice());
            put_bytes(&mut new_contents, rec.as_slice());
            proof {
                assert(s.take(i + 1).drop_last() =~= s.take(i as int));
                assert(s.take(i + 1).last() == s[i as int]);
            }
            i = i + 1;
        }
        proof {
            assert(s.take(i as int) =~= s);
        }
        self.log = Log::new(new_contents);
        proof {
            lemma_replay_serialize(s);
        }
    }

    /// The current value under `key`, or `None` when the key is not live.
    pub fn get(&self, key: &[u8]) -> (r: Option<Vec<u8>>)
        ensures
            match r {
                Some(v) => self.index_view().contains_key(key@) && v@ == self.index_view()[key@],
                None => !self.index_view().contains_key(key@),
            },
    {
        dm_get(&self.key_map, key)
    }

    /// Inserts or replaces the value under `key`. An empty value deletes the
    /// key. A key outside 1 to the key limit bytes, or a value over the
    /// value limit, is rejected with `InvalidInput` and nothing changes.
    /// Setting a key to the value it already holds appends no log record.
    pub fn set(&mut self, key: &[u8], value: Vec<u8>) -> (r: Result<(), KvError>)
        requires
            old(self).wf(),
            old(self).is_open(),
        ensures
            final(self).wf(),
            final(self).is_open(),
            r is Ok <==> set_accepted(key@, value@),
            r is Err ==> final(self).index_view() == old(self).index_view()
                && final(self).log_view() == old(self).log_view()
                && final(self).queue_view() == old(self).queue_view(),
            r is Ok ==> final(self).index_view() == apply_entry(
                old(self).index_view(),
                key@,
                value@,
            ) && final(self).log_view() == log_after(
                old(self).log_view(),
                old(self).index_view(),
                key@,
                value@,
            ) && final(self).queue_view() == (if writes_record(
                old(self).index_view(),
                key@,
                value@,
            ) {
                old(self).queue_view().push(LogMessageView::Write(spec_record(key@, value@)))
            } else {
                old(self).queue_view()
            }),
    {
        if key.len() == 0 || key.len() > MAX_KEY_LEN {
            return Err(KvError::InvalidInput);
        }
        if value.len() > MAX_VALUE_LEN {
            return Err(KvError::InvalidInput);
        }
        if value.len() == 0 {
            proof {
                assert(value@ =~= Seq::<u8>::empty());
            }
            return self.del(key);
        }
        let ghost m = dash_contents(self.key_map);
        let needs_write = match dm_get(&self.key_map, key) {
            Some(existing) => !eq_bytes(existing.as_slice(), value.as_slice()),
            None => true,
        };
        if !needs_write {
            proof {
                assert(apply_entry(m, key@, value@) =~= m);
            }
            return Ok(());
        }
        let ghost log0 = self.log.contents@;
        self.log.write_entry(key, value.as_slice());
        dm_insert(&mut self.key_map, slice_to_vec(key), value);
        proof {
            lemma_replay_append(Map::empty(), log0, key@, value@);
            assert(bounded_index(dash_contents(self.key_map))) by {
                let m2 = dash_contents(self.key_map);
                assert forall|k: Seq<u8>| #[trigger] m2.contains_key(k) implies k.len()
                    <= MAX_KEY_LEN && 1 <= m2[k].len() <= MAX_VALUE_LEN by {
                    if k != key@ {
                        assert(m.contains_key(k) && m2[k] == m[k]);
                    }
                }
            };
        }
        Ok(())
    }

    /// Deletes `key`. A key that is not live is a no-op: no record is
    /// written, no error raised. A key outside 1 to the key limit bytes is
    /// rejected with `InvalidInput` and nothing changes.
    pub fn del(&mut self, key: &[u8]) -> (r: Result<(), KvError>)
        requires
            old(self).wf(),
            old(self).is_open(),
        ensures
            final(self).wf(),
            final(self).is_open(),
            r is Ok <==> valid_key(key@),
            r is Err ==> final(self).index_view() == old(self).index_view()
                && final(self).log_view() == old(self).log_view()
                && final(self).queue_view() == old(self).queue_view(),
            r is Ok ==> final(self).index_view() == old(self).index_view().remove(key@)
                && final(self).log_view() == log_after(
                old(self).log_view(),
                old(self).index_view(),
                key@,
                Seq::<u8>::empty(),
            ) && final(self).queue_view() == (if old(self).index_view().contains_key(key@) {
                old(self).queue_view().push(
                    LogMessageView::Write(spec_record(key@, Seq::<u8>::empty())),
                )
            } else {
                old(self).queue_view()
            }),
    {
        if key.len() == 0 || key.len() > MAX_KEY_LEN {
            return Err(KvError::InvalidInput);
        }
        let ghost m = dash_contents(self.key_map);
        match dm_get(&self.key_map, key) {
            None => {
                proof {
                    assert(m.remove(key@) =~= m);
                }
                return Ok(());
            },
            Some(_) => {},
        }
        let ghost log0 = self.log.contents@;
        let tombstone: Vec<u8> = Vec::new();
        proof {
            assert(tombstone@ =~= Seq::<u8>::empty());
        }
        self.log.write_entry(key, tombstone.as_slice());
        dm_remove(&mut self.key_map, key);
        proof {
            lemma_replay_append(Map::empty(), log0, key@, Seq::<u8>::empty());
            assert(bounded_index(dash_contents(self.key_map))) by {
                let m2 = dash_contents(self.key_map);
                assert forall|k: Seq<u8>| #[trigger] m2.contains_key(k) implies k.len()
                    <= MAX_KEY_LEN && 1 <= m2[k].len() <= MAX_VALUE_LEN by {
                    assert(m.contains_key(k) && m2[k] == m[k]);
                }
            };
        }
        Ok(())
    }

    /// The live pairs whose keys fall in the half-open `range`, in ascending
    /// byte order of their keys: every live key `k` with
    /// `range.start <= k < range.end` appears exactly once, with its current
    /// value, and nothing else appears.
    pub fn scan(&self, range: core::ops::Range<Vec<u8>>) -> (r: Vec<(Vec<u8>, Vec<u8>)>)
        ensures
            forall|i: int, j: int|
                0 <= i < j < pairs_view(r@).len() ==> lex_lt(
                    (#[trigger] pairs_view(r@)[i]).0,
                    (#[trigger] pairs_view(r@)[j]).0,
                ),
            forall|i: int|
                0 <= i < pairs_view(r@).len() ==> {
                    let p = #[trigger] pairs_view(r@)[i];
                    &&& self.index_view().contains_key(p.0)
                    &&& p.1 == self.index_view()[p.0]
                    &&& lex_le(range.start@, p.0)
                    &&& lex_lt(p.0, range.end@)
                },
            forall|k: Seq<u8>|
                self.index_view().contains_key(k) && lex_le(range.start@, k) && lex_lt(
                    k,
                    range.end@,
                ) ==> exists|i: int|
                    0 <= i < pairs_view(r@).len() && (#[trigger] pairs_view(r@)[i]).0 == k,
    {
        let ghost m = dash_contents(self.key_map);
        let lo_vec = range.start;
        let hi_vec = range.end;
        let ghost lo = lo_vec@;
        let ghost hi = hi_vec@;
        proof {
            assert(lo == range.start@ && hi == range.end@);
        }
        let mut pairs = dm_pairs(&self.key_map);
        let ghost psrc = pairs_view(pairs@);
        proof {
            assert forall|i: int, j: int| 0 <= i < j < psrc.len() implies (#[trigger] psrc[i]).0
                != (#[trigger] psrc[j]).0 by {
                assert(psrc[i].0 == pairs@[i].0@ && psrc[j].0 == pairs@[j].0@);
            }
            assert(forall|i: int|
                0 <= i < psrc.len() ==> m.contains_key((#[trigger] psrc[i]).0) && psrc[i].1
                    == m[psrc[i].0]);
            assert forall|k: Seq<u8>| #[trigger] m.contains_key(k) implies exists|i: int|
                0 <= i < psrc.len() && (#[trigger] psrc[i]).0 == k by {
                let i = choose|i: int| 0 <= i < pairs@.len() && (#[trigger] pairs@[i]).0@ == k;
                assert(psrc[i].0 == k);
            }
            assert(pairs_view(pairs@) =~= psrc.take(pairs@.len() as int));
        }
        let mut kept: Vec<(Vec<u8>, Vec<u8>)> = Vec::new();
        proof {
            assert(pairs_view(kept@) =~= Seq::<(Seq<u8>, Seq<u8>)>::empty());
        }
        while pairs.len() > 0
            invariant
                lo == lo_vec@,
                hi == hi_vec@,
                pairs@.len() <= psrc.len(),
                pairs_view(pairs@) == psrc.take(pairs@.len() as int),
                forall|i: int, j: int|
                    0 <= i < j < psrc.len() ==> (#[trigger] psrc[i]).0 != (#[trigger] psrc[j]).0,
                forall|i: int|
                    0 <= i < psrc.len() ==> m.contains_key((#[trigger] psrc[i]).0) && psrc[i].1
                        == m[psrc[i].0],
                forall|i: int|
                    0 <= i < pairs_view(kept@).len() ==> {
                        let p = #[trigger] pairs_view(kept@)[i];
                        &&& m.contains_key(p.0)
                        &&& p.1 == m[p.0]
                        &&& lex_le(lo, p.0)
                        &&& lex_lt(p.0, hi)
                    },
                forall|i: int|
                    0 <= i < pairs_view(kept@).len() ==> exists|j: int|
                        pairs@.len() <= j < psrc.len() && (#[trigger] pairs_view(kept@)[i])
                            == psrc[j],
                forall|i1: int, i2: int|
                    0 <= i1 < i2 < pairs_view(kept@).len() ==> (#[trigger] pairs_view(
                        kept@,
                    )[i1]).0 != (#[trigger] pairs_view(kept@)[i2]).0,
                forall|j: int|
                    pairs@.len() <= j < psrc.len() && lex_le(lo, (#[trigger] psrc[j]).0) && lex_lt(
                        psrc[j].0,
                        hi,
                    ) ==> pairs_view(kept@).contains(psrc[j]),
            decreases pairs@.len(),
        {
            let ghost n = pairs@.len() as int;
            let ghost kept0 = pairs_view(kept@);
            let p = pairs.pop().unwrap();
            let ghost pv = (p.0@, p.1@);
            proof {
                assert(pairs_view(pairs@) =~= psrc.take(n).drop_last());
                assert(psrc.take(n).drop_last() =~= psrc.take(n - 1));
                assert(pv == psrc.take(n).last());
                assert(pv == psrc[n - 1]);
            }
            let lo_ok = !lex_less(p.0.as_slice(), lo_vec.as_slice());
            let hi_ok = lex_less(p.0.as_slice(), hi_vec.as_slice());
            proof {
                assert(lo_ok == !lex_lt(pv.0, lo));
                assert(hi_ok == lex_lt(pv.0, hi));
                lemma_lex_trichotomy(pv.0, lo);
                if lo_ok && hi_ok {
                    assert(lex_le(lo, pv.0) && lex_lt(pv.0, hi));
                } else {
                    assert(!(lex_le(lo, pv.0) && lex_lt(pv.0, hi)));
                }
            }
            if lo_ok && hi_ok {
                kept.push(p);
                proof {
                    assert(pairs_view(kept@) =~= kept0.push(pv));
                    assert forall|i: int|
                        0 <= i < pairs_view(kept@).len() implies {
                        let p2 = #[trigger] pairs_view(kept@)[i];
                        &&& m.contains_key(p2.0)
                        &&& p2.1 == m[p2.0]
                        &&& lex_le(lo, p2.0)
                        &&& lex_lt(p2.0, hi)
                    } by {
                        if i < kept0.len() {
                            assert(pairs_view(kept@)[i] == kept0[i]);
                        } else {
                            assert(pairs_view(kept@)[i] == pv && pv == psrc[n - 1]);
                        }
                    }
                    assert forall|i: int|
                        0 <= i < pairs_view(kept@).len() implies exists|j: int|
                            pairs@.len() <= j < psrc.len() && (#[trigger] pairs_view(kept@)[i])
                                == psrc[j] by {
                        if i < kept0.len() {
                            assert(pairs_view(kept@)[i] == kept0[i]);
                            let j = choose|j: int| n <= j < psrc.len() && kept0[i] == psrc[j];
                            assert(n - 1 <= j < psrc.len() && pairs_view(kept@)[i] == psrc[j]);
                        } else {
                            assert(pairs_view(kept@)[i] == pv && pv == psrc[n - 1]);
                        }
                    }
                    assert forall|i1: int, i2: int|
                        0 <= i1 < i2 < pairs_view(kept@).len() implies (#[trigger] pairs_view(
                        kept@,
                    )[i1]).0 != (#[trigger] pairs_view(kept@)[i2]).0 by {
                        if i2 == kept0.len() {
                            assert(pairs_view(kept@)[i1] == kept0[i1]);
                            let j = choose|j: int| n <= j < psrc.len() && kept0[i1] == psrc[j];
                            assert(pairs_view(kept@)[i2] == psrc[n - 1]);
                            assert(psrc[n - 1].0 != psrc[j].0);
                        } else {
                            assert(pairs_view(kept@)[i1] == kept0[i1] && pairs_view(kept@)[i2]
                                == kept0[i2]);
                        }
                    }
                    assert forall|j: int|
                        pairs@.len() <= j < psrc.len() && lex_le(lo, (#[trigger] psrc[j]).0)
                            && lex_lt(psrc[j].0, hi) implies pairs_view(kept@).contains(
                        psrc[j],
                    ) by {
                        if j == n - 1 {
                            assert(pairs_view(kept@)[kept0.len() as int] == psrc[n - 1]);
                        } else {
                            assert(kept0.contains(psrc[j]));
                            let i = choose|i: int| 0 <= i < kept0.len() && kept0[i] == psrc[j];
                            assert(pairs_view(kept@)[i] == psrc[j]);
                        }
                    }
                }
            } else {
                proof {
                    assert forall|j: int|
                        pairs@.len() <= j < psrc.len() && lex_le(lo, (#[trigger] psrc[j]).0)
                            && lex_lt(psrc[j].0, hi) implies pairs_view(kept@).contains(
                        psrc[j],
                    ) by {
                        assert(j != n - 1);
                    }
                }
            }
        }
        let ghost kv = pairs_view(kept@);
        let sorted = sort_pairs(kept);
        let ghost s = pairs_view(sorted@);
        proof {
            assert forall|i1: int, i2: int| 0 <= i1 < i2 < kv.len() implies #[trigger] kv[i1]
                != #[trigger] kv[i2] by {
                assert(kv[i1].0 != kv[i2].0);
            }
            lemma_permutation_props(kv, s);
            assert forall|i: int|
                0 <= i < s.len() implies {
                let p = #[trigger] s[i];
                &&& m.contains_key(p.0)
                &&& p.1 == m[p.0]
                &&& lex_le(lo, p.0)
                &&& lex_lt(p.0, hi)
            } by {
                assert(s.contains(s[i]));
                assert(kv.contains(s[i]));
                let j = choose|j: int| 0 <= j < kv.len() && kv[j] == s[i];
            }
            assert forall|i: int, j: int| 0 <= i < j < s.len() implies lex_lt(
                (#[trigger] s[i]).0,
                (#[trigger] s[j]).0,
            ) by {
                if s[i].0 == s[j].0 {
                    assert(s[i].1 == m[s[i].0] && s[j].1 == m[s[j].0]);
                    assert(s[i] == s[j]);
                }
                assert(lex_le(s[i].0, s[j].0));
            }
            assert forall|k: Seq<u8>|
                m.contains_key(k) && lex_le(lo, k) && lex_lt(k, hi) implies exists|i: int|
                    0 <= i < s.len() && (#[trigger] s[i]).0 == k by {
                let i = choose|i: int| 0 <= i < psrc.len() && (#[trigger] psrc[i]).0 == k;
                assert(psrc[i].1 == m[k]);
                assert(psrc[i] == (k, m[k]));
                assert(kv.contains(psrc[i]));
                assert(s.contains((k, m[k])));
                let j = choose|j: int| 0 <= j < s.len() && s[j] == (k, m[k]);
                assert(s[j].0 == k);
            }
        }
        sorted
    }

    /// The log bytes as they belong on disk.
    pub fn log_bytes(&self) -> (r: &Vec<u8>)
        ensures
            r@ == self.log_view(),
    {
        &self.log.contents
    }

    /// Hands out the queued writer messages, in order, for the caller that
    /// owns the file to perform. Nothing else changes.
    pub fn take_messages(&mut self) -> (msgs: Vec<LogMessage>)
        ensures
            msgs@.map_values(|m: LogMessage| m@) == old(self).queue_view(),
            final(self).queue_view() == Seq::<LogMessageView>::empty(),
            final(self).is_open() == old(self).is_open(),
            final(self).log_view() == old(self).log_view(),
            final(self).index_view() == old(self).index_view(),
    {
        self.log.writer.take_messages()
    }

    /// Stops serving: queues a flush and the stop order for the writer. No
    /// compaction is forced; the log and the index keep their content.
    pub fn close(&mut self)
        requires
            old(self).is_open(),
        ensures
            !final(self).is_open(),
            final(self).queue_view() == old(self).queue_view().push(LogMessageView::Flush).push(
                LogMessageView::Shutdown,
            ),
            final(self).log_view() == old(self).log_view(),
            final(self).index_view() == old(self).index_view(),
    {
        self.log.writer.flush();
        self.log.writer.shutdown();
    }
}

} // verus!
