use vstd::prelude::*;

use crate::cache::{abs_tm, atm_outside, clone_bytes, tm_flat, tm_inserted, tm_range_vals,
    KeyTimeMultiMapCache};

verus! {

// Write-through façade over one table's cache.  All mutating operations keep
// the backing log and the cache consistent: each yields the log record (or
// records) that must be appended durably for the mutation just applied, so
// the set of observable tuples in cache and log agree at operation
// boundaries.  Reads consult the cache alone.

/// One record to append to the backing store's log.
#[derive(Clone, Debug)]
pub enum LogRecord {
    WriteData { table: char, timestamp: u64, key: u64, value: Vec<u8> },
    DeleteKey { table: char, key: u64 },
    DeleteValue { table: char, timestamp: u64, key: u64, value: Vec<u8> },
    DeleteTimeRange { table: char, key: u64, start: u64, end: u64 },
}

/// A table identifier together with its in-memory key/time multi-map.
pub struct KeyTimeMultiMap {
    pub table: char,
    pub cache: KeyTimeMultiMapCache,
}

impl KeyTimeMultiMap {
    pub open spec fn wf(self) -> bool {
        self.cache.wf()
    }

    pub fn new(table: char, cache: KeyTimeMultiMapCache) -> (r: KeyTimeMultiMap)
        ensures
            r.table == table,
            r.cache == cache,
    {
        KeyTimeMultiMap { table, cache }
    }

    /// Number of keys the cache currently holds; reported to the size gauge
    /// after inserts.
    pub fn table_size(&self) -> (r: usize)
        ensures
            r == self.cache.values@.len(),
    {
        self.cache.values.len()
    }

    /// Records `value` for `key` at `timestamp` and yields the insert record
    /// to log.
    pub fn insert(&mut self, timestamp: u64, key: u64, value: Vec<u8>) -> (r: LogRecord)
        requires
            old(self).wf(),
        ensures
            final(self).wf(),
            final(self).table == old(self).table,
            (match r {
                LogRecord::WriteData { table, timestamp: ts, key: k, value: v } => table == old(
                    self,
                ).table && ts == timestamp && k == key && v@ == value@,
                _ => false,
            }),
            forall|k2: u64|
                final(self).cache.spec_has(k2) <==> old(self).cache.spec_has(k2) || k2 == key,
            forall|k2: u64|
                k2 != key ==> final(self).cache.spec_get(k2) == old(self).cache.spec_get(k2),
            match (old(self).cache.spec_get(key), final(self).cache.spec_get(key)) {
                (None, Some(v)) => v@.len() == 1 && v@[0].0 == timestamp && v@[0].1@ == seq![
                    value,
                ],
                (Some(tm0), Some(v)) => tm_inserted(tm0@, v@, timestamp, value),
                _ => false,
            },
    {
        let logged = clone_bytes(&value);
        self.cache.insert(timestamp, key, value);
        LogRecord::WriteData { table: self.table, timestamp, key, value: logged }
    }

    /// Forgets `key` and yields the key-deletion record to log.
    pub fn delete_key(&mut self, key: u64) -> (r: LogRecord)
        requires
            old(self).wf(),
        ensures
            final(self).wf(),
            final(self).table == old(self).table,
            r == (LogRecord::DeleteKey { table: old(self).table, key }),
            !final(self).cache.spec_has(key),
            forall|k2: u64|
                final(self).cache.spec_has(k2) <==> old(self).cache.spec_has(k2) && k2 != key,
            forall|k2: u64|
                k2 != key ==> final(self).cache.spec_get(k2) == old(self).cache.spec_get(k2),
    {
        self.cache.remove_key(key);
        LogRecord::DeleteKey { table: self.table, key }
    }

    /// Drops the first value equal to `value` recorded for `key` at
    /// `timestamp` and yields the value-deletion record to log.
    pub fn delete_value(&mut self, timestamp: u64, key: u64, value: Vec<u8>) -> (r: LogRecord)
        requires
            old(self).wf(),
        ensures
            final(self).wf(),
            final(self).table == old(self).table,
            (match r {
                LogRecord::DeleteValue { table, timestamp: ts, key: k, value: v } => table == old(
                    self,
                ).table && ts == timestamp && k == key && v@ == value@,
                _ => false,
            }),
            forall|k2: u64|
                final(self).cache.spec_has(k2) <==> old(self).cache.spec_has(k2),
            forall|k2: u64|
                k2 != key ==> final(self).cache.spec_get(k2) == old(self).cache.spec_get(k2),
            match (old(self).cache.spec_get(key), final(self).cache.spec_get(key)) {
                (None, None) => true,
                (Some(tm0), Some(v)) => {
                    if crate::assoc::u64_has_key(tm0@, timestamp) {
                        exists|i: int|
                            0 <= i < tm0@.len() && #[trigger] tm0@[i].0 == timestamp && v@.len()
                                == tm0@.len() && v@[i].0 == timestamp && v@[i].1@
                                == crate::cache::remove_first_match(tm0@[i].1@, value@) && (
                            forall|j: int| 0 <= j < tm0@.len() && j != i ==> v@[j] == tm0@[j])
                    } else {
                        v == tm0
                    }
                },
                _ => false,
            },
    {
        self.cache.remove_value(timestamp, key, &value);
        LogRecord::DeleteValue { table: self.table, timestamp, key, value }
    }

    /// Values recorded for `key` in `[start, end)`, ascending by timestamp;
    /// cache only, nothing is logged.
    pub fn get_time_range(&self, key: u64, start: u64, end: u64) -> (r: Vec<Vec<u8>>)
        ensures
            r.deep_view() == match self.cache.spec_get(key) {
                Some(tm) => tm_range_vals(tm@, start, end),
                None => Seq::<Seq<u8>>::empty(),
            },
    {
        self.cache.get_time_range(key, start, end)
    }

    /// Clears `key`'s buckets in `[start, end)` and yields the range
    /// deletion record to log.
    pub fn clear_time_range(&mut self, key: u64, start: u64, end: u64) -> (r: LogRecord)
        requires
            old(self).wf(),
        ensures
            final(self).wf(),
            final(self).table == old(self).table,
            r == (LogRecord::DeleteTimeRange { table: old(self).table, key, start, end }),
            forall|k2: u64|
                k2 != key ==> final(self).cache.spec_get(k2) == old(self).cache.spec_get(k2),
            forall|k2: u64|
                k2 != key ==> (final(self).cache.spec_has(k2) <==> old(self).cache.spec_has(k2)),
            match (old(self).cache.spec_get(key), final(self).cache.spec_get(key)) {
                (None, None) => true,
                (Some(tm0), None) => atm_outside(abs_tm(tm0@), start, end).len() == 0,
                (Some(tm0), Some(v)) => abs_tm(v@) == atm_outside(abs_tm(tm0@), start, end)
                    && abs_tm(v@).len() > 0,
                _ => false,
            },
    {
        self.cache.clear_time_range(key, start, end);
        LogRecord::DeleteTimeRange { table: self.table, key, start, end }
    }

    /// Expires every key whose earliest timestamp lies before `t` and yields
    /// one range-deletion record per expired key, covering everything from
    /// the epoch up to `t`.
    pub fn expire_entries_before(&mut self, t: u64) -> (r: Vec<LogRecord>)
        requires
            old(self).wf(),
        ensures
            final(self).wf(),
            final(self).table == old(self).table,
            forall|x: int|
                0 <= x < r@.len() ==> match #[trigger] r@[x] {
                    LogRecord::DeleteTimeRange { table, key, start, end } => table == old(
                        self,
                    ).table && start == 0 && end == t && old(self).cache.spec_has(key) && old(
                        self,
                    ).cache.min_time(key) < t,
                    _ => false,
                },
            forall|k2: u64|
                old(self).cache.spec_has(k2) && old(self).cache.min_time(k2) < t
                    ==> exists|x: int|
                    0 <= x < r@.len() && (#[trigger] r@[x]) == (LogRecord::DeleteTimeRange {
                        table: old(self).table,
                        key: k2,
                        start: 0u64,
                        end: t,
                    }),
            forall|x: int, y: int| 0 <= x < y < r@.len() ==> r@[x] != r@[y],
            crate::cache::expired_state(old(self).cache, final(self).cache, t),
    {
        let keys = self.cache.expire_entries_before(t);
        let mut r: Vec<LogRecord> = Vec::new();
        let mut i: usize = 0;
        while i < keys.len()
            invariant
                i <= keys@.len(),
                r@.len() == i,
                forall|x: int|
                    0 <= x < i ==> (#[trigger] r@[x]) == (LogRecord::DeleteTimeRange {
                        table: self.table,
                        key: keys@[x],
                        start: 0u64,
                        end: t,
                    }),
            decreases keys@.len() - i,
        {
            r.push(
                LogRecord::DeleteTimeRange { table: self.table, key: keys[i], start: 0, end: t },
            );
            i += 1;
        }
        proof {
            assert forall|k2: u64|
                old(self).cache.spec_has(k2) && old(self).cache.min_time(k2) < t implies exists|
                x: int,
            |
                0 <= x < r@.len() && (#[trigger] r@[x]) == (LogRecord::DeleteTimeRange {
                    table: old(self).table,
                    key: k2,
                    start: 0u64,
                    end: t,
                }) by {
                assert(keys@.contains(k2));
                let x = choose|x: int| 0 <= x < keys@.len() && keys@[x] == k2;
                assert(r@[x] == (LogRecord::DeleteTimeRange {
                    table: old(self).table,
                    key: k2,
                    start: 0u64,
                    end: t,
                }));
            }
            assert forall|x: int|
                0 <= x < r@.len() implies match #[trigger] r@[x] {
                LogRecord::DeleteTimeRange { table, key, start, end } => table == old(
                    self,
                ).table && start == 0 && end == t && old(self).cache.spec_has(key) && old(
                    self,
                ).cache.min_time(key) < t,
                _ => false,
            } by {
                let kx = keys@[x];
                assert(keys@.contains(kx));
                assert(old(self).cache.spec_has(kx) && old(self).cache.min_time(kx) < t);
                assert(r@[x] == (LogRecord::DeleteTimeRange {
                    table: old(self).table,
                    key: kx,
                    start: 0u64,
                    end: t,
                }));
            }
            assert forall|x: int, y: int| 0 <= x < y < r@.len() implies r@[x] != r@[y] by {
                assert(keys@[x] != keys@[y]);
                assert(r@[x] == (LogRecord::DeleteTimeRange {
                    table: self.table,
                    key: keys@[x],
                    start: 0u64,
                    end: t,
                }));
                assert(r@[y] == (LogRecord::DeleteTimeRange {
                    table: self.table,
                    key: keys@[y],
                    start: 0u64,
                    end: t,
                }));
            }
        }
        r
    }

    /// All `(timestamp, value)` pairs recorded for `key`; cache only.
    pub fn get_all_values_with_timestamps(&self, key: u64) -> (r: Option<Vec<(u64, Vec<u8>)>>)
        ensures
            match (self.cache.spec_get(key), r) {
                (None, None) => true,
                (Some(tm), Some(v)) => v.deep_view() == tm_flat(tm@),
                _ => false,
            },
    {
        self.cache.get_all_values_with_timestamps(key)
    }
}

} // verus!
