use vstd::prelude::*;

use crate::assoc::{lemma_u64_assoc_at, lemma_u64_assoc_none, u64_find, u64_has_key,
    u64_keys_distinct};
use crate::cache::{abs_tm, atm_outside, bytes_eq, clone_bytes, exp_reg, rebuild_expirations,
    tm_sorted, KeyTimeMultiMapCache, ReplayBuckets};
use crate::types::{OperatorCheckpointMetadata, StateError, TableDescriptor};

verus! {

// Deterministic restoration of a key/time multi-map from the backing log.
// The caller replays, in log order, the data tuples the backing store holds
// for the table; everything older than the retention cutoff is skipped, and
// the expiration index is rebuilt from the final value table rather than
// replayed.

/// A logged deletion, as read back from the backing store.  Key and value
/// payloads of keyed deletions are opaque encoded byte strings.
#[derive(Clone, Debug)]
pub enum DataOperation {
    Insert,
    DeleteTimeKey,
    DeleteKey { key: Vec<u8> },
    DeleteValue { key: Vec<u8>, value: Vec<u8>, timestamp: u64 },
    DeleteTimeRange { start: u64, end: u64 },
}

/// One tuple of the backing store's replay stream, in log order.
#[derive(Clone, Debug)]
pub struct DataTuple {
    pub key: u64,
    pub timestamp: u64,
    pub value: Option<Vec<u8>>,
    pub operation: DataOperation,
}

/// What `bincode` decodes a logged key payload to, as a function of the
/// bytes alone.
pub uninterp spec fn key_decoding(bytes: Seq<u8>) -> Option<u64>;

/// What `bincode` decodes a logged value payload to, as a function of the
/// bytes alone.
pub uninterp spec fn value_decoding(bytes: Seq<u8>) -> Option<Seq<u8>>;

/// Relies on `bincode::decode_from_slice` under the standard configuration
/// to read back an encoded key: the result is a function of the input bytes
/// alone.
#[verifier::external_body]
fn decode_key(bytes: &Vec<u8>) -> (r: Option<u64>)
    ensures
        r == key_decoding(bytes@),
{
    match bincode::decode_from_slice::<u64, _>(bytes.as_slice(), bincode::config::standard()) {
        Ok(p) => Some(p.0),
        Err(_) => None,
    }
}

/// Relies on `bincode::decode_from_slice` under the standard configuration
/// to read back an encoded value: the result is a function of the input
/// bytes alone.
#[verifier::external_body]
fn decode_value(bytes: &Vec<u8>) -> (r: Option<Vec<u8>>)
    ensures
        r is Some <==> value_decoding(bytes@) is Some,
        r matches Some(v) ==> value_decoding(bytes@) == Some(v@),
{
    match bincode::decode_from_slice::<Vec<u8>, _>(bytes.as_slice(), bincode::config::standard()) {
        Ok(p) => Some(p.0),
        Err(_) => None,
    }
}

/// Abstract value table: keys to timestamp buckets to value byte strings.
pub type ReplayTable = Seq<(u64, Seq<(u64, Seq<Seq<u8>>)>)>;

/// Abstract reading of a value table.
pub open spec fn abs_values(vs: Seq<(u64, Vec<(u64, Vec<Vec<u8>>)>)>) -> ReplayTable {
    vs.map_values(|e: (u64, Vec<(u64, Vec<Vec<u8>>)>)| (e.0, abs_tm(e.1@)))
}

/// Sorted insertion of one value at an instant.
pub open spec fn atm_insert(tm: ReplayBuckets, t: u64, v: Seq<u8>) -> ReplayBuckets
    decreases tm.len(),
{
    if tm.len() == 0 {
        seq![(t, seq![v])]
    } else if tm[0].0 == t {
        seq![(t, tm[0].1.push(v))] + tm.drop_first()
    } else if tm[0].0 > t {
        seq![(t, seq![v])] + tm
    } else {
        seq![tm[0]] + atm_insert(tm.drop_first(), t, v)
    }
}

/// The byte strings with the first one equal to `v` dropped, if any.
pub open spec fn asq_remove_first(vs: Seq<Seq<u8>>, v: Seq<u8>) -> Seq<Seq<u8>>
    decreases vs.len(),
{
    if vs.len() == 0 {
        vs
    } else if vs[0] == v {
        vs.drop_first()
    } else {
        seq![vs[0]] + asq_remove_first(vs.drop_first(), v)
    }
}

/// Within the bucket at `t`, drop the first value equal to `v`.
pub open spec fn atm_remove_value(tm: ReplayBuckets, t: u64, v: Seq<u8>) -> ReplayBuckets
    decreases tm.len(),
{
    if tm.len() == 0 {
        tm
    } else if tm[0].0 == t {
        seq![(t, asq_remove_first(tm[0].1, v))] + tm.drop_first()
    } else {
        seq![tm[0]] + atm_remove_value(tm.drop_first(), t, v)
    }
}

/// Record `v` for `k` at `t`, creating the key on first sight.
pub open spec fn avm_insert(s: ReplayTable, k: u64, t: u64, v: Seq<u8>) -> ReplayTable
    decreases s.len(),
{
    if s.len() == 0 {
        seq![(k, seq![(t, seq![v])])]
    } else if s[0].0 == k {
        seq![(k, atm_insert(s[0].1, t, v))] + s.drop_first()
    } else {
        seq![s[0]] + avm_insert(s.drop_first(), k, t, v)
    }
}

/// Forget `k`.
pub open spec fn avm_remove_key(s: ReplayTable, k: u64) -> ReplayTable
    decreases s.len(),
{
    if s.len() == 0 {
        s
    } else if s[0].0 == k {
        s.drop_first()
    } else {
        seq![s[0]] + avm_remove_key(s.drop_first(), k)
    }
}

/// Drop the first value equal to `v` recorded for `k` at `t`.
pub open spec fn avm_remove_value(s: ReplayTable, k: u64, t: u64, v: Seq<u8>) -> ReplayTable
    decreases s.len(),
{
    if s.len() == 0 {
        s
    } else if s[0].0 == k {
        seq![(k, atm_remove_value(s[0].1, t, v))] + s.drop_first()
    } else {
        seq![s[0]] + avm_remove_value(s.drop_first(), k, t, v)
    }
}

/// Keep only `k`'s buckets outside `[lo, hi)`, dropping the key when none
/// remain.
pub open spec fn avm_clear_range(s: ReplayTable, k: u64, lo: u64, hi: u64) -> ReplayTable
    decreases s.len(),
{
    if s.len() == 0 {
        s
    } else if s[0].0 == k {
        let tm2 = atm_outside(s[0].1, lo, hi);
        if tm2.len() == 0 {
            s.drop_first()
        } else {
            seq![(k, tm2)] + s.drop_first()
        }
    } else {
        seq![s[0]] + avm_clear_range(s.drop_first(), k, lo, hi)
    }
}

/// Why one tuple cannot be replayed, if it cannot.
pub open spec fn tuple_fault(tp: DataTuple) -> Option<StateError> {
    match tp.operation {
        DataOperation::Insert => if tp.value is None {
            Some(StateError::MissingRestoreValue)
        } else {
            None
        },
        DataOperation::DeleteTimeKey => Some(StateError::UnsupportedRestoreOperation),
        DataOperation::DeleteKey { key } => if key_decoding(key@) is None {
            Some(StateError::UndecodableKey)
        } else {
            None
        },
        DataOperation::DeleteValue { key, value, timestamp } => if key_decoding(key@) is None {
            Some(StateError::UndecodableKey)
        } else if value_decoding(value@) is None {
            Some(StateError::UndecodableValue)
        } else {
            None
        },
        DataOperation::DeleteTimeRange { start, end } => None,
    }
}

/// The fault of the first tuple at or past the retention cutoff that cannot
/// be replayed, if any.
pub open spec fn first_fault(ts: Seq<DataTuple>, mv: u64) -> Option<StateError>
    decreases ts.len(),
{
    if ts.len() == 0 {
        None
    } else if ts[0].timestamp >= mv && tuple_fault(ts[0]) is Some {
        tuple_fault(ts[0])
    } else {
        first_fault(ts.drop_first(), mv)
    }
}

/// One replay step.  Tuples before the retention cutoff are skipped.
pub open spec fn apply_tuple(s: ReplayTable, tp: DataTuple, mv: u64) -> ReplayTable {
    if tp.timestamp < mv {
        s
    } else {
        match tp.operation {
            DataOperation::Insert => avm_insert(s, tp.key, tp.timestamp, tp.value->Some_0@),
            DataOperation::DeleteTimeKey => s,
            DataOperation::DeleteKey { key } => avm_remove_key(s, key_decoding(key@)->Some_0),
            DataOperation::DeleteValue { key, value, timestamp } => avm_remove_value(
                s,
                key_decoding(key@)->Some_0,
                timestamp,
                value_decoding(value@)->Some_0,
            ),
            DataOperation::DeleteTimeRange { start, end } => avm_clear_range(
                s,
                tp.key,
                start,
                end,
            ),
        }
    }
}

/// Replay of a tuple stream over a starting table, in log order.  The
/// restored table is `replay_from(empty, log, cutoff)`: a function of the
/// filtered log alone.
pub open spec fn replay_from(s: ReplayTable, ts: Seq<DataTuple>, mv: u64) -> ReplayTable
    decreases ts.len(),
{
    if ts.len() == 0 {
        s
    } else {
        replay_from(apply_tuple(s, ts[0], mv), ts.drop_first(), mv)
    }
}

/// The retention cutoff: watermark minus retention, clamped at the epoch,
/// or the epoch when no watermark was persisted.
pub open spec fn spec_min_valid(min_watermark: Option<u64>, retention: u64) -> u64 {
    match min_watermark {
        Some(w) => if w >= retention {
            (w - retention) as u64
        } else {
            0
        },
        None => 0,
    }
}

pub proof fn lemma_asq_remove_first_at(vs: Seq<Seq<u8>>, v: Seq<u8>, w: int)
    requires
        0 <= w < vs.len(),
        vs[w] == v,
        forall|x: int| 0 <= x < w ==> vs[x] != v,
    ensures
        asq_remove_first(vs, v) =~= vs.remove(w),
    decreases w,
{
    if w == 0 {
        assert(vs.remove(0) =~= vs.drop_first());
    } else {
        assert(vs.drop_first()[w - 1] == vs[w]);
        assert(forall|x: int| 0 <= x < w - 1 ==> vs.drop_first()[x] == vs[x + 1]);
        lemma_asq_remove_first_at(vs.drop_first(), v, w - 1);
        assert(asq_remove_first(vs, v) =~= seq![vs[0]] + vs.drop_first().remove(w - 1));
    }
}

pub proof fn lemma_asq_remove_first_absent(vs: Seq<Seq<u8>>, v: Seq<u8>)
    requires
        forall|x: int| 0 <= x < vs.len() ==> vs[x] != v,
    ensures
        asq_remove_first(vs, v) =~= vs,
    decreases vs.len(),
{
    if vs.len() > 0 {
        assert(forall|x: int| 0 <= x < vs.len() - 1 ==> vs.drop_first()[x] == vs[x + 1]);
        lemma_asq_remove_first_absent(vs.drop_first(), v);
        assert(asq_remove_first(vs, v) =~= seq![vs[0]] + vs.drop_first());
    }
}

pub proof fn lemma_atm_insert_bucket(tm: ReplayBuckets, t: u64, v: Seq<u8>, i: int)
    requires
        0 <= i < tm.len(),
        tm[i].0 == t,
        forall|j: int| 0 <= j < i ==> (#[trigger] tm[j]).0 < t,
    ensures
        atm_insert(tm, t, v) =~= tm.update(i, (t, tm[i].1.push(v))),
    decreases i,
{
    if i == 0 {
    } else {
        assert(tm.drop_first()[i - 1] == tm[i]);
        assert(forall|j: int| 0 <= j < i - 1 ==> tm.drop_first()[j] == tm[j + 1]);
        lemma_atm_insert_bucket(tm.drop_first(), t, v, i - 1);
        assert(atm_insert(tm, t, v) =~= seq![tm[0]] + tm.drop_first().update(
            i - 1,
            (t, tm[i].1.push(v)),
        ));
    }
}

pub proof fn lemma_atm_insert_pos(tm: ReplayBuckets, t: u64, v: Seq<u8>, p: int)
    requires
        0 <= p <= tm.len(),
        forall|j: int| 0 <= j < p ==> (#[trigger] tm[j]).0 < t,
        forall|j: int| p <= j < tm.len() ==> (#[trigger] tm[j]).0 > t,
    ensures
        atm_insert(tm, t, v) =~= tm.insert(p, (t, seq![v])),
    decreases p,
{
    if p == 0 {
        if tm.len() == 0 {
            assert(atm_insert(tm, t, v) =~= tm.insert(0, (t, seq![v])));
        } else {
            assert(tm[0].0 > t);
            assert(atm_insert(tm, t, v) =~= seq![(t, seq![v])] + tm);
            assert(tm.insert(0, (t, seq![v])) =~= seq![(t, seq![v])] + tm);
        }
    } else {
        assert(tm[0].0 < t);
        assert(forall|j: int| 0 <= j < tm.len() - 1 ==> tm.drop_first()[j] == tm[j + 1]);
        lemma_atm_insert_pos(tm.drop_first(), t, v, p - 1);
        assert(atm_insert(tm, t, v) =~= seq![tm[0]] + tm.drop_first().insert(
            p - 1,
            (t, seq![v]),
        ));
    }
}

pub proof fn lemma_atm_remove_value_at(tm: ReplayBuckets, t: u64, v: Seq<u8>, i: int)
    requires
        0 <= i < tm.len(),
        tm[i].0 == t,
        forall|j: int| 0 <= j < i ==> (#[trigger] tm[j]).0 != t,
    ensures
        atm_remove_value(tm, t, v) =~= tm.update(i, (t, asq_remove_first(tm[i].1, v))),
    decreases i,
{
    if i == 0 {
    } else {
        assert(tm.drop_first()[i - 1] == tm[i]);
        assert(forall|j: int| 0 <= j < i - 1 ==> tm.drop_first()[j] == tm[j + 1]);
        lemma_atm_remove_value_at(tm.drop_first(), t, v, i - 1);
        assert(atm_remove_value(tm, t, v) =~= seq![tm[0]] + tm.drop_first().update(
            i - 1,
            (t, asq_remove_first(tm[i].1, v)),
        ));
    }
}

pub proof fn lemma_atm_remove_value_absent(tm: ReplayBuckets, t: u64, v: Seq<u8>)
    requires
        forall|j: int| 0 <= j < tm.len() ==> (#[trigger] tm[j]).0 != t,
    ensures
        atm_remove_value(tm, t, v) =~= tm,
    decreases tm.len(),
{
    if tm.len() > 0 {
        assert(forall|j: int| 0 <= j < tm.len() - 1 ==> tm.drop_first()[j] == tm[j + 1]);
        lemma_atm_remove_value_absent(tm.drop_first(), t, v);
        assert(atm_remove_value(tm, t, v) =~= seq![tm[0]] + tm.drop_first());
    }
}

pub proof fn lemma_avm_insert_at(s: ReplayTable, k: u64, t: u64, v: Seq<u8>, i: int)
    requires
        0 <= i < s.len(),
        s[i].0 == k,
        forall|j: int| 0 <= j < i ==> (#[trigger] s[j]).0 != k,
    ensures
        avm_insert(s, k, t, v) =~= s.update(i, (k, atm_insert(s[i].1, t, v))),
    decreases i,
{
    if i == 0 {
    } else {
        assert(s.drop_first()[i - 1] == s[i]);
        assert(forall|j: int| 0 <= j < i - 1 ==> s.drop_first()[j] == s[j + 1]);
        lemma_avm_insert_at(s.drop_first(), k, t, v, i - 1);
        assert(avm_insert(s, k, t, v) =~= seq![s[0]] + s.drop_first().update(
            i - 1,
            (k, atm_insert(s[i].1, t, v)),
        ));
    }
}

pub proof fn lemma_avm_insert_absent(s: ReplayTable, k: u64, t: u64, v: Seq<u8>)
    requires
        forall|j: int| 0 <= j < s.len() ==> (#[trigger] s[j]).0 != k,
    ensures
        avm_insert(s, k, t, v) =~= s.push((k, seq![(t, seq![v])])),
    decreases s.len(),
{
    if s.len() > 0 {
        assert(forall|j: int| 0 <= j < s.len() - 1 ==> s.drop_first()[j] == s[j + 1]);
        lemma_avm_insert_absent(s.drop_first(), k, t, v);
        assert(avm_insert(s, k, t, v) =~= seq![s[0]] + s.drop_first().push(
            (k, seq![(t, seq![v])]),
        ));
    }
}

pub proof fn lemma_avm_remove_key_at(s: ReplayTable, k: u64, i: int)
    requires
        0 <= i < s.len(),
        s[i].0 == k,
        forall|j: int| 0 <= j < i ==> (#[trigger] s[j]).0 != k,
    ensures
        avm_remove_key(s, k) =~= s.remove(i),
    decreases i,
{
    if i == 0 {
        assert(s.remove(0) =~= s.drop_first());
    } else {
        assert(s.drop_first()[i - 1] == s[i]);
        assert(forall|j: int| 0 <= j < i - 1 ==> s.drop_first()[j] == s[j + 1]);
        lemma_avm_remove_key_at(s.drop_first(), k, i - 1);
        assert(avm_remove_key(s, k) =~= seq![s[0]] + s.drop_first().remove(i - 1));
    }
}

pub proof fn lemma_avm_remove_key_absent(s: ReplayTable, k: u64)
    requires
        forall|j: int| 0 <= j < s.len() ==> (#[trigger] s[j]).0 != k,
    ensures
        avm_remove_key(s, k) =~= s,
    decreases s.len(),
{
    if s.len() > 0 {
        assert(forall|j: int| 0 <= j < s.len() - 1 ==> s.drop_first()[j] == s[j + 1]);
        lemma_avm_remove_key_absent(s.drop_first(), k);
        assert(avm_remove_key(s, k) =~= seq![s[0]] + s.drop_first());
    }
}

pub proof fn lemma_avm_remove_value_at(s: ReplayTable, k: u64, t: u64, v: Seq<u8>, i: int)
    requires
        0 <= i < s.len(),
        s[i].0 == k,
        forall|j: int| 0 <= j < i ==> (#[trigger] s[j]).0 != k,
    ensures
        avm_remove_value(s, k, t, v) =~= s.update(i, (k, atm_remove_value(s[i].1, t, v))),
    decreases i,
{
    if i == 0 {
    } else {
        assert(s.drop_first()[i - 1] == s[i]);
        assert(forall|j: int| 0 <= j < i - 1 ==> s.drop_first()[j] == s[j + 1]);
        lemma_avm_remove_value_at(s.drop_first(), k, t, v, i - 1);
        assert(avm_remove_value(s, k, t, v) =~= seq![s[0]] + s.drop_first().update(
            i - 1,
            (k, atm_remove_value(s[i].1, t, v)),
        ));
    }
}

pub proof fn lemma_avm_remove_value_absent(s: ReplayTable, k: u64, t: u64, v: Seq<u8>)
    requires
        forall|j: int| 0 <= j < s.len() ==> (#[trigger] s[j]).0 != k,
    ensures
        avm_remove_value(s, k, t, v) =~= s,
    decreases s.len(),
{
    if s.len() > 0 {
        assert(forall|j: int| 0 <= j < s.len() - 1 ==> s.drop_first()[j] == s[j + 1]);
        lemma_avm_remove_value_absent(s.drop_first(), k, t, v);
        assert(avm_remove_value(s, k, t, v) =~= seq![s[0]] + s.drop_first());
    }
}

pub proof fn lemma_avm_clear_at(s: ReplayTable, k: u64, lo: u64, hi: u64, i: int)
    requires
        0 <= i < s.len(),
        s[i].0 == k,
        forall|j: int| 0 <= j < i ==> (#[trigger] s[j]).0 != k,
    ensures
        avm_clear_range(s, k, lo, hi) =~= if atm_outside(s[i].1, lo, hi).len() == 0 {
            s.remove(i)
        } else {
            s.update(i, (k, atm_outside(s[i].1, lo, hi)))
        },
    decreases i,
{
    if i == 0 {
        if atm_outside(s[0].1, lo, hi).len() == 0 {
            assert(s.remove(0) =~= s.drop_first());
        }
    } else {
        assert(s.drop_first()[i - 1] == s[i]);
        assert(forall|j: int| 0 <= j < i - 1 ==> s.drop_first()[j] == s[j + 1]);
        lemma_avm_clear_at(s.drop_first(), k, lo, hi, i - 1);
        if atm_outside(s[i].1, lo, hi).len() == 0 {
            assert(avm_clear_range(s, k, lo, hi) =~= seq![s[0]] + s.drop_first().remove(i - 1));
        } else {
            assert(avm_clear_range(s, k, lo, hi) =~= seq![s[0]] + s.drop_first().update(
                i - 1,
                (k, atm_outside(s[i].1, lo, hi)),
            ));
        }
    }
}

pub proof fn lemma_avm_clear_absent(s: ReplayTable, k: u64, lo: u64, hi: u64)
    requires
        forall|j: int| 0 <= j < s.len() ==> (#[trigger] s[j]).0 != k,
    ensures
        avm_clear_range(s, k, lo, hi) =~= s,
    decreases s.len(),
{
    if s.len() > 0 {
        assert(forall|j: int| 0 <= j < s.len() - 1 ==> s.drop_first()[j] == s[j + 1]);
        lemma_avm_clear_absent(s.drop_first(), k, lo, hi);
        assert(avm_clear_range(s, k, lo, hi) =~= seq![s[0]] + s.drop_first());
    }
}

impl KeyTimeMultiMapCache {
    /// Restores a table's cache from the operator's persisted record and the
    /// backing log's tuples for the table, in log order.  Tuples whose
    /// instant lies before the retention cutoff — the persisted least
    /// watermark minus the table's retention span — are skipped; the
    /// expiration index is rebuilt from the final values rather than
    /// replayed.  The result is a function of the filtered log alone; the
    /// first unreplayable tuple, if any, is the error.
    #[verifier::rlimit(100)]
    pub fn from_checkpoint(
        operator_metadata: &OperatorCheckpointMetadata,
        table_descriptor: &TableDescriptor,
        tuples: &Vec<DataTuple>,
    ) -> (r: Result<KeyTimeMultiMapCache, StateError>)
        ensures
            ({
                let mv = spec_min_valid(
                    operator_metadata.min_watermark,
                    table_descriptor.retention_micros,
                );
                match r {
                    Ok(cache) => {
                        &&& first_fault(tuples@, mv) is None
                        &&& cache.wf()
                        &&& abs_values(cache.values@) == replay_from(
                            Seq::empty(),
                            tuples@,
                            mv,
                        )
                    },
                    Err(e) => first_fault(tuples@, mv) == Some(e),
                }
            }),
    {
        let min_valid: u64 = match operator_metadata.min_watermark {
            Some(w) => if w >= table_descriptor.retention_micros {
                w - table_descriptor.retention_micros
            } else {
                0
            },
            None => 0,
        };
        let ghost mv = spec_min_valid(
            operator_metadata.min_watermark,
            table_descriptor.retention_micros,
        );
        let mut values: Vec<(u64, Vec<(u64, Vec<Vec<u8>>)>)> = Vec::new();
        proof {
            assert(abs_values(values@) =~~= Seq::<(u64, Seq<(u64, Seq<Seq<u8>>)>)>::empty());
            assert(tuples@.skip(0) =~= tuples@);
        }
        let mut i: usize = 0;
        while i < tuples.len()
            invariant
                i <= tuples@.len(),
                mv == spec_min_valid(
                    operator_metadata.min_watermark,
                    table_descriptor.retention_micros,
                ),
                min_valid == mv,
                replay_from(abs_values(values@), tuples@.skip(i as int), mv) == replay_from(
                    Seq::empty(),
                    tuples@,
                    mv,
                ),
                first_fault(tuples@.skip(i as int), mv) == first_fault(tuples@, mv),
                u64_keys_distinct(values@),
                forall|w: int|
                    0 <= w < values@.len() ==> tm_sorted((#[trigger] values@[w]).1@)
                        && values@[w].1@.len() > 0,
            decreases tuples@.len() - i,
        {
            let ghost pre = values@;
            let ghost tp = tuples@[i as int];
            proof {
                assert(tuples@.skip(i as int)[0] == tp);
                assert(tuples@.skip(i as int).drop_first() =~= tuples@.skip(i + 1));
            }
            let t = &tuples[i];
            if t.timestamp < min_valid {
                proof {
                    assert(apply_tuple(abs_values(values@), tp, mv) == abs_values(values@));
                }
                i += 1;
                continue;
            }
            match &t.operation {
                DataOperation::Insert => {
                    let v = match &t.value {
                        Some(v) => clone_bytes(v),
                        None => {
                            proof {
                                assert(tuple_fault(tp) == Some(StateError::MissingRestoreValue));
                            }
                            return Err(StateError::MissingRestoreValue);
                        },
                    };
                    let key = t.key;
                    let timestamp = t.timestamp;
                    let ghost vv = v@;
                    match u64_find(&values, key) {
                        None => {
                            let mut vals: Vec<Vec<u8>> = Vec::new();
                            vals.push(v);
                            let mut tm: Vec<(u64, Vec<Vec<u8>>)> = Vec::new();
                            tm.push((timestamp, vals));
                            let ghost pair = (key, tm);
                            values.push((key, tm));
                            proof {
                                assert(values@ =~= pre.push(pair));
                                assert(forall|j: int|
                                    0 <= j < pre.len() ==> (#[trigger] pre[j]).0 != key);
                                lemma_avm_insert_absent(abs_values(pre), key, timestamp, vv);
                                assert(abs_tm(pair.1@) =~~= seq![(timestamp, seq![vv])]);
                                assert(abs_values(values@) =~~= abs_values(pre).push(
                                    (key, seq![(timestamp, seq![vv])]),
                                ));
                                assert(abs_values(values@) =~~= avm_insert(
                                    abs_values(pre),
                                    key,
                                    timestamp,
                                    vv,
                                ));
                                assert(u64_keys_distinct(values@)) by {
                                    if u64_has_key(pre, key) {
                                        let w = choose|w: int|
                                            0 <= w < pre.len() && pre[w].0 == key;
                                    }
                                }
                            }
                        },
                        Some(idx) => {
                            let mut entry = values.remove(idx);
                            let ghost tm0 = entry.1@;
                            let mut pos: usize = 0;
                            while pos < entry.1.len() && entry.1[pos].0 < timestamp
                                invariant
                                    pos <= tm0.len(),
                                    entry.1@ == tm0,
                                    forall|j: int|
                                        0 <= j < pos ==> (#[trigger] tm0[j]).0 < timestamp,
                                decreases tm0.len() - pos,
                            {
                                pos += 1;
                            }
                            let ghost absm0 = abs_tm(tm0);
                            if pos < entry.1.len() && entry.1[pos].0 == timestamp {
                                let mut bucket = entry.1.remove(pos);
                                bucket.1.push(v);
                                let ghost bnew = bucket;
                                entry.1.insert(pos, bucket);
                                proof {
                                    assert(entry.1@ =~= tm0.update(pos as int, bnew));
                                    assert(forall|j: int|
                                        0 <= j < pos ==> (#[trigger] absm0[j]).0 < timestamp);
                                    lemma_atm_insert_bucket(absm0, timestamp, vv, pos as int);
                                    assert(bnew.1.deep_view() =~~= absm0[pos as int].1.push(vv));
                                    assert(abs_tm(entry.1@) =~~= absm0.update(
                                        pos as int,
                                        (timestamp, absm0[pos as int].1.push(vv)),
                                    ));
                                    assert(abs_tm(entry.1@) =~~= atm_insert(
                                        absm0,
                                        timestamp,
                                        vv,
                                    ));
                                }
                            } else {
                                let mut vals: Vec<Vec<u8>> = Vec::new();
                                vals.push(v);
                                entry.1.insert(pos, (timestamp, vals));
                                proof {
                                    assert(forall|j: int|
                                        pos <= j < tm0.len() ==> (#[trigger] tm0[j]).0
                                            > timestamp);
                                    assert(forall|j: int|
                                        0 <= j < pos ==> (#[trigger] absm0[j]).0 < timestamp);
                                    assert(forall|j: int|
                                        pos <= j < absm0.len() ==> (#[trigger] absm0[j]).0
                                            > timestamp);
                                    lemma_atm_insert_pos(absm0, timestamp, vv, pos as int);
                                    assert(abs_tm(entry.1@) =~~= absm0.insert(
                                        pos as int,
                                        (timestamp, seq![vv]),
                                    ));
                                    assert(abs_tm(entry.1@) =~~= atm_insert(
                                        absm0,
                                        timestamp,
                                        vv,
                                    ));
                                    assert(tm_sorted(entry.1@));
                                }
                            }
                            let ghost enew = entry;
                            values.insert(idx, entry);
                            proof {
                                assert(values@ =~= pre.update(idx as int, enew));
                                assert(forall|j: int|
                                    0 <= j < idx ==> (#[trigger] abs_values(pre)[j]).0 != key);
                                lemma_avm_insert_at(
                                    abs_values(pre),
                                    key,
                                    timestamp,
                                    vv,
                                    idx as int,
                                );
                                assert(abs_values(pre)[idx as int].1 == absm0);
                                assert(abs_values(values@) =~~= abs_values(pre).update(
                                    idx as int,
                                    (key, abs_tm(enew.1@)),
                                ));
                                assert(abs_values(values@) =~~= avm_insert(
                                    abs_values(pre),
                                    key,
                                    timestamp,
                                    vv,
                                ));
                            }
                        },
                    }
                },
                DataOperation::DeleteTimeKey => {
                    proof {
                        assert(tuple_fault(tp) == Some(StateError::UnsupportedRestoreOperation));
                    }
                    return Err(StateError::UnsupportedRestoreOperation);
                },
                DataOperation::DeleteKey { key } => {
                    let kk = match decode_key(key) {
                        Some(kk) => kk,
                        None => {
                            proof {
                                assert(tuple_fault(tp) == Some(StateError::UndecodableKey));
                            }
                            return Err(StateError::UndecodableKey);
                        },
                    };
                    match u64_find(&values, kk) {
                        Some(idx) => {
                            values.remove(idx);
                            proof {
                                assert(values@ =~= pre.remove(idx as int));
                                assert(forall|j: int|
                                    0 <= j < idx ==> (#[trigger] abs_values(pre)[j]).0 != kk);
                                lemma_avm_remove_key_at(abs_values(pre), kk, idx as int);
                                assert(abs_values(values@) =~~= abs_values(pre).remove(
                                    idx as int,
                                ));
                                assert(u64_keys_distinct(values@)) by {
                                    assert forall|x: int, y: int|
                                        0 <= x < y < values@.len() implies values@[x].0
                                        != values@[y].0 by {
                                        let px = if x < idx { x } else { x + 1 };
                                        let py = if y < idx { y } else { y + 1 };
                                        assert(values@[x] == pre[px]);
                                        assert(values@[y] == pre[py]);
                                    }
                                }
                            }
                        },
                        None => {
                            proof {
                                assert(forall|j: int|
                                    0 <= j < pre.len() ==> (#[trigger] abs_values(pre)[j]).0
                                        != kk);
                                lemma_avm_remove_key_absent(abs_values(pre), kk);
                            }
                        },
                    }
                },
                DataOperation::DeleteValue { key, value, timestamp } => {
                    let kk = match decode_key(key) {
                        Some(kk) => kk,
                        None => {
                            proof {
                                assert(tuple_fault(tp) == Some(StateError::UndecodableKey));
                            }
                            return Err(StateError::UndecodableKey);
                        },
                    };
                    let vv = match decode_value(value) {
                        Some(vv) => vv,
                        None => {
                            proof {
                                assert(tuple_fault(tp) == Some(StateError::UndecodableValue));
                            }
                            return Err(StateError::UndecodableValue);
                        },
                    };
                    let ts = *timestamp;
                    let ghost vva = vv@;
                    match u64_find(&values, kk) {
                        None => {
                            proof {
                                assert(forall|j: int|
                                    0 <= j < pre.len() ==> (#[trigger] abs_values(pre)[j]).0
                                        != kk);
                                lemma_avm_remove_value_absent(abs_values(pre), kk, ts, vva);
                            }
                        },
                        Some(idx) => {
                            let mut entry = values.remove(idx);
                            let ghost tm0 = entry.1@;
                            let ghost absm0 = abs_tm(tm0);
                            match u64_find(&entry.1, ts) {
                                None => {
                                    proof {
                                        assert(forall|j: int|
                                            0 <= j < absm0.len() ==> (#[trigger] absm0[j]).0
                                                != ts);
                                        lemma_atm_remove_value_absent(absm0, ts, vva);
                                    }
                                    let ghost esame = entry;
                                    values.insert(idx, entry);
                                    proof {
                                        assert(values@ =~= pre.update(idx as int, esame));
                                        assert(values@ =~= pre);
                                        assert(forall|j: int|
                                            0 <= j < idx ==> (#[trigger] abs_values(pre)[j]).0
                                                != kk);
                                        lemma_avm_remove_value_at(
                                            abs_values(pre),
                                            kk,
                                            ts,
                                            vva,
                                            idx as int,
                                        );
                                        assert(abs_values(values@) =~~= avm_remove_value(
                                            abs_values(pre),
                                            kk,
                                            ts,
                                            vva,
                                        ));
                                    }
                                },
                                Some(bi) => {
                                    let mut bucket = entry.1.remove(bi);
                                    let ghost vs0 = bucket.1@;
                                    let mut found: Option<usize> = None;
                                    let mut j: usize = 0;
                                    while j < bucket.1.len()
                                        invariant
                                            j <= vs0.len(),
                                            bucket.1@ == vs0,
                                            vva == vv@,
                                            match found {
                                                Some(w) => w < j && vs0[w as int]@ == vva && (
                                                forall|x: int| 0 <= x < w ==> vs0[x]@ != vva),
                                                None => forall|x: int|
                                                    0 <= x < j ==> vs0[x]@ != vva,
                                            },
                                        decreases vs0.len() - j,
                                    {
                                        if found.is_none() && bytes_eq(&bucket.1[j], &vv) {
                                            found = Some(j);
                                        }
                                        j += 1;
                                    }
                                    proof {
                                        assert(forall|x: int|
                                            0 <= x < vs0.len() ==> (#[trigger] vs0[x])@
                                                == bucket.1.deep_view()[x]);
                                    }
                                    match found {
                                        Some(w) => {
                                            bucket.1.remove(w);
                                            proof {
                                                lemma_asq_remove_first_at(
                                                    vs0.map_values(|x: Vec<u8>| x@),
                                                    vva,
                                                    w as int,
                                                );
                                            }
                                        },
                                        None => {
                                            proof {
                                                lemma_asq_remove_first_absent(
                                                    vs0.map_values(|x: Vec<u8>| x@),
                                                    vva,
                                                );
                                            }
                                        },
                                    }
                                    let ghost bnew = bucket;
                                    entry.1.insert(bi, bucket);
                                    proof {
                                        assert(entry.1@ =~= tm0.update(bi as int, bnew));
                                        assert(vs0.map_values(|x: Vec<u8>| x@) =~~= absm0[
                                            bi as int].1);
                                        assert(bnew.1.deep_view() =~~= asq_remove_first(
                                            absm0[bi as int].1,
                                            vva,
                                        ));
                                        assert(forall|j2: int|
                                            0 <= j2 < bi ==> (#[trigger] absm0[j2]).0 != ts);
                                        lemma_atm_remove_value_at(absm0, ts, vva, bi as int);
                                        assert(abs_tm(entry.1@) =~~= atm_remove_value(
                                            absm0,
                                            ts,
                                            vva,
                                        ));
                                        assert(entry.1@[0].0 == tm0[0].0);
                                        assert(tm_sorted(entry.1@));
                                    }
                                    let ghost enew = entry;
                                    values.insert(idx, entry);
                                    proof {
                                        assert(values@ =~= pre.update(idx as int, enew));
                                        assert(forall|j2: int|
                                            0 <= j2 < idx ==> (#[trigger] abs_values(pre)[j2]).0
                                                != kk);
                                        lemma_avm_remove_value_at(
                                            abs_values(pre),
                                            kk,
                                            ts,
                                            vva,
                                            idx as int,
                                        );
                                        assert(abs_values(pre)[idx as int].1 == absm0);
                                        assert(abs_values(values@) =~~= abs_values(pre).update(
                                            idx as int,
                                            (kk, abs_tm(enew.1@)),
                                        ));
                                        assert(abs_values(values@) =~~= avm_remove_value(
                                            abs_values(pre),
                                            kk,
                                            ts,
                                            vva,
                                        ));
                                    }
                                },
                            }
                        },
                    }
                },
                DataOperation::DeleteTimeRange { start, end } => {
                    let lo = *start;
                    let hi = *end;
                    let key = t.key;
                    match u64_find(&values, key) {
                        None => {
                            proof {
                                assert(forall|j: int|
                                    0 <= j < pre.len() ==> (#[trigger] abs_values(pre)[j]).0
                                        != key);
                                lemma_avm_clear_absent(abs_values(pre), key, lo, hi);
                            }
                        },
                        Some(idx) => {
                            let mut entry = values.remove(idx);
                            let ghost tm0 = entry.1@;
                            let ghost absm0 = abs_tm(tm0);
                            let mut kept: Vec<(u64, Vec<Vec<u8>>)> = Vec::new();
                            let ghost mut d: int = 0int;
                            while entry.1.len() > 0
                                invariant
                                    0 <= d <= tm0.len(),
                                    entry.1@ == tm0.skip(d),
                                    tm_sorted(tm0),
                                    absm0 == abs_tm(tm0),
                                    abs_tm(kept@) =~~= atm_outside(
                                        abs_tm(tm0.take(d)),
                                        lo,
                                        hi,
                                    ),
                                    tm_sorted(kept@),
                                    forall|x: int|
                                        0 <= x < kept@.len() ==> exists|ox: int|
                                            0 <= ox < d && (#[trigger] kept@[x]).0
                                                == tm0[ox].0,
                                decreases entry.1@.len(),
                            {
                                let bkt = entry.1.remove(0);
                                let ghost bpair = bkt;
                                proof {
                                    assert(tm0.skip(d).drop_first() =~= tm0.skip(d + 1));
                                    assert(tm0.skip(d)[0] == tm0[d]);
                                    assert(tm0.take(d + 1).drop_last() =~= tm0.take(d));
                                    assert(tm0.take(d + 1).last() == tm0[d]);
                                    assert(abs_tm(tm0.take(d + 1)).drop_last() =~~= abs_tm(
                                        tm0.take(d),
                                    ));
                                    assert(abs_tm(tm0.take(d + 1)).last() == (
                                        tm0[d].0,
                                        tm0[d].1.deep_view(),
                                    ));
                                }
                                if lo <= bkt.0 && bkt.0 < hi {
                                    proof {
                                        d = d + 1;
                                    }
                                } else {
                                    let ghost kept0 = kept@;
                                    kept.push(bkt);
                                    proof {
                                        assert(kept@ =~= kept0.push(bpair));
                                        assert(abs_tm(kept@) =~~= abs_tm(kept0).push(
                                            (bpair.0, bpair.1.deep_view()),
                                        ));
                                        assert forall|x: int, y: int|
                                            0 <= x < y < kept@.len() implies kept@[x].0
                                            < kept@[y].0 by {
                                            if y == kept@.len() - 1 {
                                                let ox = choose|ox: int|
                                                    0 <= ox < d && (#[trigger] kept0[x]).0
                                                        == tm0[ox].0;
                                                assert(tm0[ox].0 < tm0[d].0);
                                            }
                                        }
                                        d = d + 1;
                                    }
                                }
                            }
                            proof {
                                assert(d == tm0.len());
                                assert(tm0.take(d) =~= tm0);
                                assert(abs_tm(kept@) =~~= atm_outside(absm0, lo, hi));
                                assert(kept@.len() == atm_outside(absm0, lo, hi).len());
                                assert(forall|j2: int|
                                    0 <= j2 < idx ==> (#[trigger] abs_values(pre)[j2]).0
                                        != key);
                                lemma_avm_clear_at(abs_values(pre), key, lo, hi, idx as int);
                                assert(abs_values(pre)[idx as int].1 == absm0);
                            }
                            if kept.len() == 0 {
                                proof {
                                    assert(values@ =~= pre.remove(idx as int));
                                    assert(abs_values(values@) =~~= abs_values(pre).remove(
                                        idx as int,
                                    ));
                                    assert(abs_values(values@) =~~= avm_clear_range(
                                        abs_values(pre),
                                        key,
                                        lo,
                                        hi,
                                    ));
                                    assert(u64_keys_distinct(values@)) by {
                                        assert forall|x: int, y: int|
                                            0 <= x < y < values@.len() implies values@[x].0
                                            != values@[y].0 by {
                                            let px = if x < idx { x } else { x + 1 };
                                            let py = if y < idx { y } else { y + 1 };
                                            assert(values@[x] == pre[px]);
                                            assert(values@[y] == pre[py]);
                                        }
                                    }
                                }
                            } else {
                                let ghost enew = (key, kept);
                                values.insert(idx, (key, kept));
                                proof {
                                    assert(values@ =~= pre.update(idx as int, enew));
                                    assert(abs_values(values@) =~~= abs_values(pre).update(
                                        idx as int,
                                        (key, abs_tm(enew.1@)),
                                    ));
                                    assert(abs_values(values@) =~~= avm_clear_range(
                                        abs_values(pre),
                                        key,
                                        lo,
                                        hi,
                                    ));
                                }
                            }
                        },
                    }
                },
            }
            proof {
                assert(abs_values(values@) == apply_tuple(abs_values(pre), tp, mv));
            }
            i += 1;
        }
        proof {
            assert(tuples@.skip(tuples@.len() as int) =~= Seq::<DataTuple>::empty());
        }
        let expirations = rebuild_expirations(&values);
        let cache = KeyTimeMultiMapCache { values, expirations };
        proof {
            assert forall|t2: u64, k2: u64|
                #[trigger] exp_reg(cache.expirations@, t2, k2) implies cache.spec_has(k2)
                && cache.min_time(k2) == t2 by {
                let j = choose|j: int|
                    0 <= j < cache.values@.len() && (#[trigger] cache.values@[j]).0 == k2
                        && cache.values@[j].1@.len() > 0 && cache.values@[j].1@[0].0 == t2;
                assert(forall|x: int| 0 <= x < j ==> cache.values@[x].0 != k2);
                lemma_u64_assoc_at(cache.values@, k2, j);
            }
            assert(cache.wf());
        }
        Ok(cache)
    }
}

} // verus!
