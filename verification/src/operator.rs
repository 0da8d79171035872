use vstd::prelude::*;

use crate::assoc::{lemma_str_assoc_at, str_assoc, str_find, str_has_key, str_keys_distinct,
    u32_find};
use crate::watermark::{lemma_seq_max_push, lemma_seq_min_push, seq_max, seq_min};
use crate::types::SubtaskCheckpointMetadata;
use crate::types::{StateError, TableCheckpointMetadata, TableConfig, TableEnum,
    TableSubtaskCheckpointMetadata};

verus! {

// Per-operator aggregation of subtask checkpoint reports.  Each operator
// accumulates one `TableState` per table its subtasks report on; when the
// last subtask lands, the accumulated states are merged into one table-level
// record each and the accumulator drains.

/// Accumulated per-table state: the table's configuration and the metadata of
/// every subtask that has reported on it so far, keyed by subtask index.
#[derive(Clone, Debug)]
pub struct TableState {
    pub table_config: TableConfig,
    pub subtask_tables: Vec<(u32, TableSubtaskCheckpointMetadata)>,
}

/// Mathematical reading of a `TableState`.
#[verifier::ext_equal]
pub struct TableStateModel {
    pub table_config: TableConfig,
    pub subtask_tables: Seq<(u32, TableSubtaskCheckpointMetadata)>,
}

pub open spec fn ts_model(t: TableState) -> TableStateModel {
    TableStateModel { table_config: t.table_config, subtask_tables: t.subtask_tables@ }
}

/// Mathematical reading of an operator's table-state accumulator.
pub open spec fn tables_model(s: Seq<(String, TableState)>) -> Seq<(String, TableStateModel)> {
    s.map_values(|e: (String, TableState)| (e.0, ts_model(e.1)))
}

/// Some subtask wrote durable state for the table.
pub open spec fn any_has_state(s: Seq<(u32, TableSubtaskCheckpointMetadata)>) -> bool {
    exists|i: int| 0 <= i < s.len() && s[i].1.has_state
}

/// Total bytes reported for the table, as a mathematical sum.
pub open spec fn sum_bytes(s: Seq<(u32, TableSubtaskCheckpointMetadata)>) -> int
    decreases s.len(),
{
    if s.len() == 0 {
        0
    } else {
        sum_bytes(s.drop_last()) + s.last().1.bytes
    }
}

/// Least watermark among the subtasks that reported one, if any did.
pub open spec fn min_watermark_of(s: Seq<(u32, TableSubtaskCheckpointMetadata)>) -> Option<u64>
    decreases s.len(),
{
    if s.len() == 0 {
        None
    } else {
        let rest = min_watermark_of(s.drop_last());
        match (rest, s.last().1.watermark) {
            (None, w) => w,
            (Some(a), None) => Some(a),
            (Some(a), Some(b)) => Some(if a <= b { a } else { b }),
        }
    }
}

/// The table-level merge rule.  A table yields a merged record exactly when
/// some subtask contributed durable state; the record totals the reported
/// bytes (saturating at the largest representable count) and, for expiring
/// time-keyed tables, keeps the least reported watermark.
pub open spec fn spec_merge(m: TableStateModel) -> Option<TableCheckpointMetadata> {
    if !any_has_state(m.subtask_tables) {
        None
    } else {
        Some(
            TableCheckpointMetadata {
                min_watermark: if m.table_config.table_type is ExpiringKeyedTimeTable {
                    min_watermark_of(m.subtask_tables)
                } else {
                    None
                },
                bytes: if sum_bytes(m.subtask_tables) > u64::MAX {
                    u64::MAX
                } else {
                    sum_bytes(m.subtask_tables) as u64
                },
            },
        )
    }
}

impl TableState {
    /// Merges the subtask reports for one table into its table-level record,
    /// per the merge rule `spec_merge`.  Rejects the sentinel table type.
    pub fn to_table_metadata(&self) -> (r: Result<Option<TableCheckpointMetadata>, StateError>)
        ensures
            match r {
                Ok(m) => !(self.table_config.table_type is MissingTableType) && m == spec_merge(
                    ts_model(*self),
                ),
                Err(e) => e == StateError::MissingTableType
                    && self.table_config.table_type is MissingTableType,
            },
    {
        if matches!(self.table_config.table_type, TableEnum::MissingTableType) {
            return Err(StateError::MissingTableType);
        }
        let ghost all = self.subtask_tables@;
        let mut i: usize = 0;
        let mut has_state = false;
        let mut bytes: u64 = 0;
        let ghost mut total: int = 0int;
        let mut wm: Option<u64> = None;
        while i < self.subtask_tables.len()
            invariant
                i <= self.subtask_tables.len(),
                all == self.subtask_tables@,
                has_state <==> any_has_state(all.take(i as int)),
                total == sum_bytes(all.take(i as int)),
                bytes == if total > u64::MAX {
                    u64::MAX as int
                } else {
                    total
                },
                wm == min_watermark_of(all.take(i as int)),
            decreases self.subtask_tables.len() - i,
        {
            let e = &self.subtask_tables[i];
            proof {
                assert(all.take(i + 1).drop_last() =~= all.take(i as int));
                assert(all.take(i + 1).last() == all[i as int]);
                if any_has_state(all.take(i as int)) {
                    let j = choose|j: int|
                        0 <= j < i && #[trigger] all.take(i as int)[j].1.has_state;
                    assert(all.take(i + 1)[j].1.has_state);
                }
                if any_has_state(all.take(i + 1)) {
                    let j = choose|j: int|
                        0 <= j < i + 1 && #[trigger] all.take(i + 1)[j].1.has_state;
                    if j < i {
                        assert(all.take(i as int)[j].1.has_state);
                    }
                }
            }
            if e.1.has_state {
                has_state = true;
            }
            if bytes > u64::MAX - e.1.bytes {
                bytes = u64::MAX;
            } else {
                bytes = bytes + e.1.bytes;
            }
            proof {
                total = total + e.1.bytes;
            }
            wm = match (wm, e.1.watermark) {
                (None, w) => w,
                (Some(a), None) => Some(a),
                (Some(a), Some(b)) => Some(if a <= b { a } else { b }),
            };
            i += 1;
        }
        proof {
            assert(all.take(all.len() as int) =~= all);
        }
        if !has_state {
            return Ok(None);
        }
        Ok(
            Some(
                TableCheckpointMetadata {
                    min_watermark: if matches!(
                        self.table_config.table_type,
                        TableEnum::ExpiringKeyedTimeTable,
                    ) {
                        wm
                    } else {
                        None
                    },
                    bytes,
                },
            ),
        )
    }
}

// Upserting one subtask report into the accumulator, as spec-level rewriting
// of the association vectors.

/// Replace the entry for `m.subtask_index`, or append one.
pub open spec fn u32_upsert(
    s: Seq<(u32, TableSubtaskCheckpointMetadata)>,
    m: TableSubtaskCheckpointMetadata,
) -> Seq<(u32, TableSubtaskCheckpointMetadata)>
    decreases s.len(),
{
    if s.len() == 0 {
        seq![(m.subtask_index, m)]
    } else if s[0].0 == m.subtask_index {
        seq![(m.subtask_index, m)] + s.drop_first()
    } else {
        seq![s[0]] + u32_upsert(s.drop_first(), m)
    }
}

pub proof fn lemma_u32_upsert_at(
    s: Seq<(u32, TableSubtaskCheckpointMetadata)>,
    m: TableSubtaskCheckpointMetadata,
    i: int,
)
    requires
        0 <= i < s.len(),
        s[i].0 == m.subtask_index,
        forall|j: int| 0 <= j < i ==> s[j].0 != m.subtask_index,
    ensures
        u32_upsert(s, m) =~= s.update(i, (m.subtask_index, m)),
    decreases i,
{
    if i == 0 {
        assert(u32_upsert(s, m) =~= s.update(0, (m.subtask_index, m)));
    } else {
        assert(forall|j: int| 0 <= j < i - 1 ==> s.drop_first()[j] == s[j + 1]);
        assert(s.drop_first()[i - 1] == s[i]);
        lemma_u32_upsert_at(s.drop_first(), m, i - 1);
        assert(u32_upsert(s, m) =~= seq![s[0]] + s.drop_first().update(i - 1, (m.subtask_index, m)));
    }
}

pub proof fn lemma_u32_upsert_absent(
    s: Seq<(u32, TableSubtaskCheckpointMetadata)>,
    m: TableSubtaskCheckpointMetadata,
)
    requires
        forall|j: int| 0 <= j < s.len() ==> s[j].0 != m.subtask_index,
    ensures
        u32_upsert(s, m) =~= s.push((m.subtask_index, m)),
    decreases s.len(),
{
    if s.len() > 0 {
        assert(forall|j: int| 0 <= j < s.len() - 1 ==> s.drop_first()[j] == s[j + 1]);
        lemma_u32_upsert_absent(s.drop_first(), m);
        assert(u32_upsert(s, m) =~= seq![s[0]] + s.drop_first().push((m.subtask_index, m)));
    }
}

/// Replace (or create) the accumulator entry for the table `name`, giving a
/// created entry the configuration `cfg_opt`; when the entry must be created
/// and no configuration is at hand, leave the accumulator unchanged.
pub open spec fn table_upsert(
    ts: Seq<(String, TableStateModel)>,
    name: String,
    m: TableSubtaskCheckpointMetadata,
    cfg_opt: Option<TableConfig>,
) -> Seq<(String, TableStateModel)>
    decreases ts.len(),
{
    if ts.len() == 0 {
        match cfg_opt {
            Some(cfg) => seq![
                (
                    name,
                    TableStateModel {
                        table_config: cfg,
                        subtask_tables: seq![(m.subtask_index, m)],
                    },
                ),
            ],
            None => seq![],
        }
    } else if ts[0].0@ == name@ {
        seq![
            (
                ts[0].0,
                TableStateModel {
                    table_config: ts[0].1.table_config,
                    subtask_tables: u32_upsert(ts[0].1.subtask_tables, m),
                },
            ),
        ] + ts.drop_first()
    } else {
        seq![ts[0]] + table_upsert(ts.drop_first(), name, m, cfg_opt)
    }
}

/// Fold `table_upsert` over a subtask's per-table reports, resolving each
/// created entry's configuration in `cfgs`.
pub open spec fn table_upsert_all(
    ts: Seq<(String, TableStateModel)>,
    metas: Seq<(String, TableSubtaskCheckpointMetadata)>,
    cfgs: Seq<(String, TableConfig)>,
) -> Seq<(String, TableStateModel)>
    decreases metas.len(),
{
    if metas.len() == 0 {
        ts
    } else {
        table_upsert_all(
            table_upsert(ts, metas[0].0, metas[0].1, str_assoc(cfgs, metas[0].0@)),
            metas.drop_first(),
            cfgs,
        )
    }
}

/// Every reported table either already has an accumulator entry or comes
/// with its configuration.
pub open spec fn tables_resolvable(
    ts: Seq<(String, TableStateModel)>,
    metas: Seq<(String, TableSubtaskCheckpointMetadata)>,
    cfgs: Seq<(String, TableConfig)>,
) -> bool {
    forall|i: int|
        0 <= i < metas.len() ==> str_has_key(ts, #[trigger] metas[i].0@) || str_has_key(
            cfgs,
            metas[i].0@,
        )
}

/// No accumulated table carries the sentinel table type.
pub open spec fn drain_clean(ts: Seq<(String, TableStateModel)>) -> bool {
    forall|i: int|
        0 <= i < ts.len() ==> !(#[trigger] ts[i].1.table_config.table_type is MissingTableType)
}

/// Configurations of the tables whose merge yields a record, in accumulator
/// order.
pub open spec fn drained_configs(ts: Seq<(String, TableStateModel)>) -> Seq<(String, TableConfig)>
    decreases ts.len(),
{
    if ts.len() == 0 {
        seq![]
    } else {
        let rest = drained_configs(ts.drop_last());
        if spec_merge(ts.last().1) is Some {
            rest.push((ts.last().0, ts.last().1.table_config))
        } else {
            rest
        }
    }
}

/// Merged records of the tables whose merge yields one, in accumulator order.
pub open spec fn drained_metas(
    ts: Seq<(String, TableStateModel)>,
) -> Seq<(String, TableCheckpointMetadata)>
    decreases ts.len(),
{
    if ts.len() == 0 {
        seq![]
    } else {
        let rest = drained_metas(ts.drop_last());
        match spec_merge(ts.last().1) {
            Some(tm) => rest.push((ts.last().0, tm)),
            None => rest,
        }
    }
}

pub proof fn lemma_table_upsert_at(
    ts: Seq<(String, TableStateModel)>,
    name: String,
    m: TableSubtaskCheckpointMetadata,
    cfg_opt: Option<TableConfig>,
    i: int,
)
    requires
        0 <= i < ts.len(),
        ts[i].0@ == name@,
        forall|j: int| 0 <= j < i ==> ts[j].0@ != name@,
    ensures
        table_upsert(ts, name, m, cfg_opt) =~= ts.update(
            i,
            (
                ts[i].0,
                TableStateModel {
                    table_config: ts[i].1.table_config,
                    subtask_tables: u32_upsert(ts[i].1.subtask_tables, m),
                },
            ),
        ),
    decreases i,
{
    if i == 0 {
    } else {
        assert(forall|j: int| 0 <= j < i - 1 ==> ts.drop_first()[j] == ts[j + 1]);
        assert(ts.drop_first()[i - 1] == ts[i]);
        lemma_table_upsert_at(ts.drop_first(), name, m, cfg_opt, i - 1);
    }
}

pub proof fn lemma_table_upsert_absent(
    ts: Seq<(String, TableStateModel)>,
    name: String,
    m: TableSubtaskCheckpointMetadata,
    cfg: TableConfig,
)
    requires
        !str_has_key(ts, name@),
    ensures
        table_upsert(ts, name, m, Some(cfg)) =~= ts.push(
            (
                name,
                TableStateModel { table_config: cfg, subtask_tables: seq![(m.subtask_index, m)] },
            ),
        ),
    decreases ts.len(),
{
    if ts.len() == 0 {
    } else {
        assert(ts[0].0@ != name@) by {
            if ts[0].0@ == name@ {
                assert(str_has_key(ts, name@));
            }
        }
        assert(!str_has_key(ts.drop_first(), name@)) by {
            if str_has_key(ts.drop_first(), name@) {
                let j = choose|j: int|
                    0 <= j < ts.drop_first().len() && ts.drop_first()[j].0@ == name@;
                assert(ts[j + 1].0@ == name@);
            }
        }
        lemma_table_upsert_absent(ts.drop_first(), name, m, cfg);
    }
}

pub proof fn lemma_table_upsert_keys(
    ts: Seq<(String, TableStateModel)>,
    name: String,
    m: TableSubtaskCheckpointMetadata,
    cfg_opt: Option<TableConfig>,
)
    requires
        str_keys_distinct(ts),
        cfg_opt is Some || str_has_key(ts, name@),
    ensures
        str_keys_distinct(table_upsert(ts, name, m, cfg_opt)),
        forall|k: Seq<char>|
            #[trigger] str_has_key(table_upsert(ts, name, m, cfg_opt), k) <==> (str_has_key(ts, k)
                || k == name@),
{
    if str_has_key(ts, name@) {
        let i = choose|i: int| 0 <= i < ts.len() && ts[i].0@ == name@;
        assert(forall|j: int| 0 <= j < i ==> ts[j].0@ != name@);
        lemma_table_upsert_at(ts, name, m, cfg_opt, i);
        let u = ts.update(
            i,
            (
                ts[i].0,
                TableStateModel {
                    table_config: ts[i].1.table_config,
                    subtask_tables: u32_upsert(ts[i].1.subtask_tables, m),
                },
            ),
        );
        assert(forall|j: int| 0 <= j < u.len() ==> u[j].0@ == ts[j].0@);
        assert forall|k: Seq<char>| #[trigger] str_has_key(u, k) <==> (str_has_key(ts, k) || k
            == name@) by {
            if str_has_key(u, k) {
                let j = choose|j: int| 0 <= j < u.len() && u[j].0@ == k;
                assert(ts[j].0@ == k);
            }
            if str_has_key(ts, k) {
                let j = choose|j: int| 0 <= j < ts.len() && ts[j].0@ == k;
                assert(u[j].0@ == k);
            }
        }
    } else {
        let cfg = cfg_opt->Some_0;
        lemma_table_upsert_absent(ts, name, m, cfg);
        let u = ts.push(
            (
                name,
                TableStateModel { table_config: cfg, subtask_tables: seq![(m.subtask_index, m)] },
            ),
        );
        assert forall|k: Seq<char>| #[trigger] str_has_key(u, k) <==> (str_has_key(ts, k) || k
            == name@) by {
            if str_has_key(u, k) {
                let j = choose|j: int| 0 <= j < u.len() && u[j].0@ == k;
                if j < ts.len() {
                    assert(ts[j].0@ == k);
                }
            }
            if str_has_key(ts, k) {
                let j = choose|j: int| 0 <= j < ts.len() && ts[j].0@ == k;
                assert(u[j].0@ == k);
            }
            assert(u[ts.len() as int].0@ == name@);
        }
        assert forall|i2: int, j2: int| 0 <= i2 < j2 < u.len() implies u[i2].0@ != u[j2].0@ by {
            if j2 == ts.len() {
                if u[i2].0@ == name@ {
                    assert(str_has_key(ts, name@));
                }
            }
        }
    }
}

pub proof fn lemma_table_upsert_all_push(
    ts: Seq<(String, TableStateModel)>,
    metas: Seq<(String, TableSubtaskCheckpointMetadata)>,
    x: (String, TableSubtaskCheckpointMetadata),
    cfgs: Seq<(String, TableConfig)>,
)
    ensures
        table_upsert_all(ts, metas.push(x), cfgs) == table_upsert(
            table_upsert_all(ts, metas, cfgs),
            x.0,
            x.1,
            str_assoc(cfgs, x.0@),
        ),
    decreases metas.len(),
{
    if metas.len() == 0 {
        assert(metas.push(x)[0] == x);
        assert(metas.push(x).drop_first() =~= metas);
        let ts1 = table_upsert(ts, x.0, x.1, str_assoc(cfgs, x.0@));
        assert(table_upsert_all(ts1, metas, cfgs) == ts1);
        assert(table_upsert_all(ts, metas, cfgs) == ts);
    } else {
        assert(metas.push(x)[0] == metas[0]);
        assert(metas.push(x).drop_first() =~= metas.drop_first().push(x));
        lemma_table_upsert_all_push(
            table_upsert(ts, metas[0].0, metas[0].1, str_assoc(cfgs, metas[0].0@)),
            metas.drop_first(),
            x,
            cfgs,
        );
    }
}

pub proof fn lemma_tables_model_keys(s: Seq<(String, TableState)>)
    ensures
        tables_model(s).len() == s.len(),
        forall|i: int| 0 <= i < s.len() ==> (#[trigger] tables_model(s)[i]).0 == s[i].0,
        forall|i: int| 0 <= i < s.len() ==> (#[trigger] tables_model(s)[i]).1 == ts_model(s[i].1),
        forall|k: Seq<char>| #[trigger] str_has_key(tables_model(s), k) <==> str_has_key(s, k),
        str_keys_distinct(tables_model(s)) <==> str_keys_distinct(s),
{
    assert forall|k: Seq<char>| #[trigger] str_has_key(tables_model(s), k) <==> str_has_key(s, k) by {
        if str_has_key(tables_model(s), k) {
            let i = choose|i: int| 0 <= i < tables_model(s).len() && tables_model(s)[i].0@ == k;
            assert(s[i].0@ == k);
        }
        if str_has_key(s, k) {
            let i = choose|i: int| 0 <= i < s.len() && s[i].0@ == k;
            assert(tables_model(s)[i].0@ == k);
        }
    }
    if str_keys_distinct(s) {
        assert forall|i: int, j: int| 0 <= i < j < tables_model(s).len() implies (
        #[trigger] tables_model(s)[i]).0@ != (#[trigger] tables_model(s)[j]).0@ by {
            assert(tables_model(s)[i].0 == s[i].0);
            assert(tables_model(s)[j].0 == s[j].0);
        }
    }
    if str_keys_distinct(tables_model(s)) {
        assert forall|i: int, j: int| 0 <= i < j < s.len() implies (#[trigger] s[i]).0@ != (
        #[trigger] s[j]).0@ by {
            assert(tables_model(s)[i].0 == s[i].0);
            assert(tables_model(s)[j].0 == s[j].0);
        }
    }
}

/// How one completion advances the operator's aggregates: one more subtask
/// counted, and the watermark, start and finish reports extended by what the
/// subtask carried.
pub open spec fn stepped(pre: OperatorState, post: OperatorState, c: SubtaskCheckpointMetadata) -> bool {
    &&& post.subtasks == pre.subtasks
    &&& post.subtasks_checkpointed == pre.subtasks_checkpointed + 1
    &&& post.watermarks@ == pre.watermarks@.push(c.watermark)
    &&& post.start_history@ == pre.start_history@.push(c.start_time)
    &&& post.finish_history@ == pre.finish_history@.push(c.finish_time)
}

/// Per-operator accumulator of subtask acknowledgements.
pub struct OperatorState {
    /// Number of subtasks the operator was declared with.
    pub subtasks: usize,
    /// Number of completions received so far; never exceeds `subtasks`.
    pub subtasks_checkpointed: usize,
    /// Least start instant among acknowledged subtasks, once any arrived.
    pub start_time: Option<u64>,
    /// Greatest finish instant among acknowledged subtasks, once any arrived.
    pub finish_time: Option<u64>,
    /// Per-table accumulated subtask reports, keyed by table name.
    pub table_state: Vec<(String, TableState)>,
    /// Watermarks of acknowledged subtasks, in arrival order.
    pub watermarks: Vec<Option<u64>>,
    /// Start instants of acknowledged subtasks, in arrival order.
    pub start_history: Ghost<Seq<u64>>,
    /// Finish instants of acknowledged subtasks, in arrival order.
    pub finish_history: Ghost<Seq<u64>>,
}

impl OperatorState {
    /// The accumulator is well formed: counts are bounded, one watermark and
    /// one pair of instants is on record per acknowledged subtask, the time
    /// bounds are the least start and the greatest finish on record, and no
    /// two accumulated tables share a name.
    pub open spec fn wf(self) -> bool {
        &&& self.subtasks_checkpointed <= self.subtasks
        &&& self.watermarks@.len() == self.subtasks_checkpointed
        &&& self.start_history@.len() == self.subtasks_checkpointed
        &&& self.finish_history@.len() == self.subtasks_checkpointed
        &&& self.start_time == (if self.subtasks_checkpointed == 0 {
            None::<u64>
        } else {
            Some(seq_min(self.start_history@))
        })
        &&& self.finish_time == (if self.subtasks_checkpointed == 0 {
            None::<u64>
        } else {
            Some(seq_max(self.finish_history@))
        })
        &&& str_keys_distinct(tables_model(self.table_state@))
    }

    pub fn new(subtasks: usize) -> (r: OperatorState)
        ensures
            r.wf(),
            r.subtasks == subtasks,
            r.subtasks_checkpointed == 0,
            r.start_time is None,
            r.finish_time is None,
            r.table_state@.len() == 0,
            r.watermarks@.len() == 0,
            r.start_history@.len() == 0,
            r.finish_history@.len() == 0,
    {
        let r = OperatorState {
            subtasks,
            subtasks_checkpointed: 0,
            start_time: None,
            finish_time: None,
            table_state: Vec::new(),
            watermarks: Vec::new(),
            start_history: Ghost(Seq::empty()),
            finish_history: Ghost(Seq::empty()),
        };
        proof {
            lemma_tables_model_keys(r.table_state@);
        }
        r
    }

    /// Records one subtask completion: counts it, extends the watermark and
    /// time aggregates, and folds the subtask's per-table reports into the
    /// accumulator.  When this was the operator's last outstanding subtask,
    /// drains the accumulator through the merge rule and returns the
    /// operator's table configurations and merged table records, each in
    /// accumulator order and restricted to the tables whose merge yielded a
    /// record.
    pub fn finish_subtask(&mut self, c: SubtaskCheckpointMetadata) -> (r: Result<
        Option<(Vec<(String, TableConfig)>, Vec<(String, TableCheckpointMetadata)>)>,
        StateError,
    >)
        requires
            old(self).wf(),
            old(self).subtasks_checkpointed < old(self).subtasks,
            str_keys_distinct(c.table_metadata@),
        ensures
            final(self).subtasks == old(self).subtasks,
            ({
                let ts0 = tables_model(old(self).table_state@);
                let ts1 = table_upsert_all(ts0, c.table_metadata@, c.table_configs@);
                match r {
                    Ok(out) => {
                        &&& tables_resolvable(ts0, c.table_metadata@, c.table_configs@)
                        &&& final(self).wf()
                        &&& stepped(*old(self), *final(self), c)
                        &&& match out {
                            None => final(self).subtasks_checkpointed < final(self).subtasks
                                && tables_model(final(self).table_state@) == ts1,
                            Some(pair) => {
                                &&& final(self).subtasks_checkpointed == final(self).subtasks
                                &&& drain_clean(ts1)
                                &&& pair.0@ == drained_configs(ts1)
                                &&& pair.1@ == drained_metas(ts1)
                                &&& final(self).table_state@.len() == 0
                            },
                        }
                    },
                    Err(e) => {
                        if e == StateError::MissingTableConfig {
                            &&& !tables_resolvable(ts0, c.table_metadata@, c.table_configs@)
                            &&& *final(self) == *old(self)
                        } else if e == StateError::MissingTableType {
                            &&& tables_resolvable(ts0, c.table_metadata@, c.table_configs@)
                            &&& final(self).wf()
                            &&& stepped(*old(self), *final(self), c)
                            &&& final(self).subtasks_checkpointed == final(self).subtasks
                            &&& !drain_clean(ts1)
                            &&& tables_model(final(self).table_state@) == ts1
                        } else {
                            false
                        }
                    },
                }
            }),
    {
        let ghost ts0 = tables_model(self.table_state@);
        proof {
            lemma_tables_model_keys(self.table_state@);
        }
        // Every reported table must either already be accumulated or carry
        // its configuration; reject the completion before mutating anything.
        let mut i: usize = 0;
        while i < c.table_metadata.len()
            invariant
                i <= c.table_metadata@.len(),
                *self == *old(self),
                ts0 == tables_model(self.table_state@),
                forall|j: int|
                    0 <= j < i ==> str_has_key(ts0, #[trigger] c.table_metadata@[j].0@)
                        || str_has_key(c.table_configs@, c.table_metadata@[j].0@),
            decreases c.table_metadata@.len() - i,
        {
            let name = &c.table_metadata[i].0;
            let in_state = str_find(&self.table_state, name);
            let in_cfg = str_find(&c.table_configs, name);
            if in_state.is_none() && in_cfg.is_none() {
                proof {
                    lemma_tables_model_keys(self.table_state@);
                    assert(!str_has_key(self.table_state@, c.table_metadata@[i as int].0@));
                    assert(!str_has_key(tables_model(self.table_state@), c.table_metadata@[i as int].0@));
                    assert(!str_has_key(c.table_configs@, c.table_metadata@[i as int].0@));
                    assert(!tables_resolvable(ts0, c.table_metadata@, c.table_configs@));
                }
                return Err(StateError::MissingTableConfig);
            }
            proof {
                lemma_tables_model_keys(self.table_state@);
                if in_state is Some {
                    let idx = in_state->0;
                    assert(str_has_key(self.table_state@, c.table_metadata@[i as int].0@));
                }
                if in_cfg is Some {
                    let idx = in_cfg->0;
                    assert(str_has_key(c.table_configs@, c.table_metadata@[i as int].0@));
                }
            }
            i += 1;
        }
        assert(tables_resolvable(ts0, c.table_metadata@, c.table_configs@));

        // Count the completion and extend the aggregates.
        self.subtasks_checkpointed = self.subtasks_checkpointed + 1;
        self.watermarks.push(c.watermark);
        proof {
            if old(self).subtasks_checkpointed > 0 {
                lemma_seq_min_push(old(self).start_history@, c.start_time);
                lemma_seq_max_push(old(self).finish_history@, c.finish_time);
            }
        }
        self.start_history = Ghost(self.start_history@.push(c.start_time));
        self.finish_history = Ghost(self.finish_history@.push(c.finish_time));
        self.start_time = match self.start_time {
            Some(t) => Some(if c.start_time < t { c.start_time } else { t }),
            None => Some(c.start_time),
        };
        self.finish_time = match self.finish_time {
            Some(t) => Some(if c.finish_time > t { c.finish_time } else { t }),
            None => Some(c.finish_time),
        };
        proof {
            if old(self).subtasks_checkpointed == 0 {
                assert(self.start_history@ =~= seq![c.start_time]);
                assert(self.finish_history@ =~= seq![c.finish_time]);
                assert(seq_min(seq![c.start_time]) == c.start_time);
                assert(seq_max(seq![c.finish_time]) == c.finish_time);
            }
        }

        // Fold the per-table reports into the accumulator.
        let ghost metas = c.table_metadata@;
        let mut i: usize = 0;
        while i < c.table_metadata.len()
            invariant
                i <= metas.len(),
                metas == c.table_metadata@,
                self.subtasks == old(self).subtasks,
                self.subtasks_checkpointed == old(self).subtasks_checkpointed + 1,
                self.subtasks_checkpointed <= self.subtasks,
                self.watermarks@ == old(self).watermarks@.push(c.watermark),
                self.start_history@ == old(self).start_history@.push(c.start_time),
                self.finish_history@ == old(self).finish_history@.push(c.finish_time),
                self.watermarks@.len() == self.subtasks_checkpointed,
                self.start_history@.len() == self.subtasks_checkpointed,
                self.finish_history@.len() == self.subtasks_checkpointed,
                self.start_time == Some(seq_min(self.start_history@)),
                self.finish_time == Some(seq_max(self.finish_history@)),
                ts0 == tables_model(old(self).table_state@),
                str_keys_distinct(c.table_metadata@),
                str_keys_distinct(tables_model(self.table_state@)),
                tables_model(self.table_state@) == table_upsert_all(
                    ts0,
                    metas.take(i as int),
                    c.table_configs@,
                ),
                forall|k: Seq<char>|
                    str_has_key(ts0, k) ==> #[trigger] str_has_key(
                        tables_model(self.table_state@),
                        k,
                    ),
                tables_resolvable(ts0, metas, c.table_configs@),
            decreases metas.len() - i,
        {
            let ghost cur = tables_model(self.table_state@);
            let name = &c.table_metadata[i].0;
            let m = c.table_metadata[i].1;
            let ghost pair = metas[i as int];
            proof {
                assert(metas.take(i + 1) =~= metas.take(i as int).push(pair));
                lemma_table_upsert_all_push(ts0, metas.take(i as int), pair, c.table_configs@);
                lemma_tables_model_keys(self.table_state@);
            }
            match str_find(&self.table_state, name) {
                Some(idx) => {
                    let ghost pre = self.table_state@;
                    let mut entry = self.table_state.remove(idx);
                    let ghost pre_tables = entry.1.subtask_tables@;
                    match u32_find(&entry.1.subtask_tables, m.subtask_index) {
                        Some(j) => {
                            entry.1.subtask_tables.remove(j);
                            entry.1.subtask_tables.insert(j, (m.subtask_index, m));
                            proof {
                                assert(entry.1.subtask_tables@ =~= pre_tables.update(
                                    j as int,
                                    (m.subtask_index, m),
                                ));
                                lemma_u32_upsert_at(pre_tables, m, j as int);
                            }
                        },
                        None => {
                            entry.1.subtask_tables.push((m.subtask_index, m));
                            proof {
                                lemma_u32_upsert_absent(pre_tables, m);
                            }
                        },
                    }
                    self.table_state.insert(idx, entry);
                    proof {
                        assert(self.table_state@ =~= pre.update(idx as int, self.table_state@[idx as int]));
                        lemma_tables_model_keys(self.table_state@);
                        lemma_table_upsert_at(cur, pair.0, m, str_assoc(c.table_configs@, pair.0@), idx as int);
                        assert(tables_model(self.table_state@) =~= cur.update(
                            idx as int,
                            (
                                cur[idx as int].0,
                                TableStateModel {
                                    table_config: cur[idx as int].1.table_config,
                                    subtask_tables: u32_upsert(pre_tables, m),
                                },
                            ),
                        ));
                        assert(tables_model(self.table_state@) == table_upsert(
                            cur,
                            pair.0,
                            m,
                            str_assoc(c.table_configs@, pair.0@),
                        ));
                        lemma_table_upsert_keys(cur, pair.0, m, str_assoc(c.table_configs@, pair.0@));
                    }
                },
                None => {
                    match str_find(&c.table_configs, name) {
                        Some(ci) => {
                            let cfg = c.table_configs[ci].1;
                            let mut st: Vec<(u32, TableSubtaskCheckpointMetadata)> = Vec::new();
                            st.push((m.subtask_index, m));
                            let cloned = name.clone();
                            self.table_state.push(
                                (cloned, TableState { table_config: cfg, subtask_tables: st }),
                            );
                            proof {
                                lemma_str_assoc_at(c.table_configs@, pair.0@, ci as int);
                                lemma_table_upsert_absent(cur, pair.0, m, cfg);
                                assert(tables_model(self.table_state@) =~= cur.push(
                                    (
                                        pair.0,
                                        TableStateModel {
                                            table_config: cfg,
                                            subtask_tables: seq![(m.subtask_index, m)],
                                        },
                                    ),
                                ));
                                lemma_table_upsert_keys(cur, pair.0, m, Some(cfg));
                            }
                        },
                        None => {
                            proof {
                                assert(!str_has_key(self.table_state@, pair.0@));
                                assert(!str_has_key(tables_model(self.table_state@), pair.0@));
                                assert(!str_has_key(c.table_configs@, pair.0@));
                                assert(str_has_key(ts0, pair.0@) || str_has_key(
                                    c.table_configs@,
                                    pair.0@,
                                ));
                                assert(str_has_key(tables_model(self.table_state@), pair.0@));
                                assert(false);
                            }
                            return Err(StateError::MissingTableConfig);
                        },
                    }
                },
            }
            i += 1;
        }
        proof {
            assert(metas.take(metas.len() as int) =~= metas);
        }
        let ghost ts1 = table_upsert_all(ts0, c.table_metadata@, c.table_configs@);

        if self.subtasks_checkpointed < self.subtasks {
            return Ok(None);
        }

        // The operator is complete: reject the sentinel table type, then
        // drain the accumulator through the merge rule.
        let mut i: usize = 0;
        while i < self.table_state.len()
            invariant
                i <= self.table_state@.len(),
                self.subtasks == old(self).subtasks,
                self.subtasks_checkpointed == old(self).subtasks_checkpointed + 1,
                self.subtasks_checkpointed == self.subtasks,
                stepped(*old(self), *self, c),
                self.wf(),
                ts0 == tables_model(old(self).table_state@),
                ts1 == table_upsert_all(ts0, c.table_metadata@, c.table_configs@),
                tables_resolvable(ts0, c.table_metadata@, c.table_configs@),
                tables_model(self.table_state@) == ts1,
                forall|j: int|
                    0 <= j < i ==> !(#[trigger] tables_model(self.table_state@)[j].1.table_config.table_type
                        is MissingTableType),
            decreases self.table_state@.len() - i,
        {
            proof {
                lemma_tables_model_keys(self.table_state@);
            }
            if matches!(self.table_state[i].1.table_config.table_type, TableEnum::MissingTableType) {
                proof {
                    lemma_tables_model_keys(self.table_state@);
                    assert(tables_model(self.table_state@)[i as int].1.table_config.table_type
                        is MissingTableType);
                }
                return Err(StateError::MissingTableType);
            }
            i += 1;
        }
        proof {
            lemma_tables_model_keys(self.table_state@);
            assert(drain_clean(ts1));
        }

        let mut cfgs_out: Vec<(String, TableConfig)> = Vec::new();
        let mut metas_out: Vec<(String, TableCheckpointMetadata)> = Vec::new();
        let mut i: usize = 0;
        while i < self.table_state.len()
            invariant
                i <= self.table_state@.len(),
                self.subtasks == old(self).subtasks,
                self.subtasks_checkpointed == old(self).subtasks_checkpointed + 1,
                self.subtasks_checkpointed == self.subtasks,
                stepped(*old(self), *self, c),
                self.wf(),
                ts0 == tables_model(old(self).table_state@),
                ts1 == table_upsert_all(ts0, c.table_metadata@, c.table_configs@),
                tables_resolvable(ts0, c.table_metadata@, c.table_configs@),
                tables_model(self.table_state@) == ts1,
                drain_clean(ts1),
                cfgs_out@ == drained_configs(ts1.take(i as int)),
                metas_out@ == drained_metas(ts1.take(i as int)),
            decreases self.table_state@.len() - i,
        {
            proof {
                lemma_tables_model_keys(self.table_state@);
                assert(ts1.take(i + 1).drop_last() =~= ts1.take(i as int));
                assert(ts1.take(i + 1).last() == ts1[i as int]);
            }
            let e = &self.table_state[i];
            let tm_res = e.1.to_table_metadata();
            match tm_res {
                Err(_) => {
                    proof {
                        assert(ts1[i as int].1.table_config.table_type is MissingTableType);
                        assert(false);
                    }
                    return Err(StateError::MissingTableType);
                },
                Ok(None) => {
                    proof {
                        assert(spec_merge(ts1[i as int].1) is None);
                    }
                },
                Ok(Some(tm)) => {
                    cfgs_out.push((e.0.clone(), e.1.table_config));
                    metas_out.push((e.0.clone(), tm));
                    proof {
                        assert(ts1[i as int].1 == ts_model(self.table_state@[i as int].1));
                        assert(cfgs_out@ =~= drained_configs(ts1.take(i + 1)));
                        assert(metas_out@ =~= drained_metas(ts1.take(i + 1)));
                    }
                },
            }
            i += 1;
        }
        proof {
            assert(ts1.take(ts1.len() as int) =~= ts1);
        }
        self.table_state.clear();
        proof {
            lemma_tables_model_keys(self.table_state@);
        }
        Ok(Some((cfgs_out, metas_out)))
    }
}

} // verus!
