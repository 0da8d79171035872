use vstd::prelude::*;

use crate::assoc::{lemma_str_assoc_at, lemma_str_assoc_none, lemma_str_assoc_push,
    lemma_str_assoc_update, lemma_u32_assoc_at, lemma_u32_assoc_none, lemma_u32_assoc_push,
    lemma_u32_assoc_update, str_assoc, str_find, str_has_key, str_keys_distinct, u32_assoc,
    u32_find, u32_has_key, u32_keys_distinct};
use crate::operator::{drain_clean, drained_configs, drained_metas, stepped, table_upsert_all,
    tables_model, tables_resolvable, OperatorState};
use crate::types::{CheckpointMetadata, OperatorCheckpointDetail, OperatorCheckpointMetadata,
    StateError, SubtaskCheckpointMetadata, TaskCheckpointCompletedReq, TaskCheckpointDetail,
    TaskCheckpointEvent, TaskCheckpointEventReq, TaskCheckpointEventType,
    spec_translate_event_type, translate_event_type};
use crate::watermark::{seq_max, seq_min, watermark_bounds, aggregate_watermarks};

verus! {

// Controller-side state of one checkpoint epoch: the per-operator
// accumulators, the count of completed operators, and the UI-facing progress
// records.  The coordinator is single-writer per epoch; completion never
// regresses.

/// Number of operators all of whose declared subtasks have reported.
pub open spec fn count_complete(s: Seq<(String, OperatorState)>) -> int
    decreases s.len(),
{
    if s.len() == 0 {
        0
    } else {
        count_complete(s.drop_last()) + if s.last().1.subtasks_checkpointed
            == s.last().1.subtasks {
            1int
        } else {
            0int
        }
    }
}

pub proof fn lemma_count_complete_bounds(s: Seq<(String, OperatorState)>)
    ensures
        0 <= count_complete(s) <= s.len(),
        count_complete(s) == s.len() <==> (forall|i: int|
            0 <= i < s.len() ==> (#[trigger] s[i].1).subtasks_checkpointed == s[i].1.subtasks),
    decreases s.len(),
{
    if s.len() > 0 {
        lemma_count_complete_bounds(s.drop_last());
        assert(forall|i: int| 0 <= i < s.len() - 1 ==> s.drop_last()[i] == s[i]);
        assert(s.last() == s[s.len() - 1]);
        if count_complete(s) == s.len() {
            assert(count_complete(s.drop_last()) == s.drop_last().len());
        }
    }
}

pub proof fn lemma_count_complete_update(s: Seq<(String, OperatorState)>, i: int, p: (String, OperatorState))
    requires
        0 <= i < s.len(),
    ensures
        count_complete(s.update(i, p)) == count_complete(s) + (if p.1.subtasks_checkpointed
            == p.1.subtasks {
            1int
        } else {
            0int
        }) - (if s[i].1.subtasks_checkpointed == s[i].1.subtasks {
            1int
        } else {
            0int
        }),
    decreases s.len(),
{
    if i == s.len() - 1 {
        assert(s.update(i, p).drop_last() =~= s.drop_last());
        assert(s.update(i, p).last() == p);
    } else {
        assert(s.update(i, p).drop_last() =~= s.drop_last().update(i, p));
        assert(s.update(i, p).last() == s.last());
        assert(s.drop_last()[i] == s[i]);
        lemma_count_complete_update(s.drop_last(), i, p);
    }
}

pub proof fn lemma_count_complete_push(s: Seq<(String, OperatorState)>, p: (String, OperatorState))
    ensures
        count_complete(s.push(p)) == count_complete(s) + (if p.1.subtasks_checkpointed
            == p.1.subtasks {
            1int
        } else {
            0int
        }),
{
    assert(s.push(p).drop_last() =~= s);
    assert(s.push(p).last() == p);
}

/// Controller-side state for one checkpoint epoch.
#[verifier::ext_equal]
pub struct CheckpointState {
    pub job_id: String,
    pub checkpoint_id: i64,
    pub epoch: u32,
    /// Lowest epoch whose state is still required; at most `epoch`.
    pub min_epoch: u32,
    /// Instant at which the epoch was created.
    pub start_time: u64,
    /// Total operator count, fixed at construction.
    pub operators: usize,
    /// Number of operators whose last subtask has reported; never decreases.
    pub operators_checkpointed: usize,
    /// Per-operator accumulators, keyed by operator id (fixed key set).
    pub operator_state: Vec<(String, OperatorState)>,
    /// UI progress records, keyed by operator id; reporting only.
    pub operator_details: Vec<(String, OperatorCheckpointDetail)>,
}

impl CheckpointState {
    /// The epoch state is well formed: epoch bounds hold, the operator count
    /// matches the accumulator map, every accumulator is well formed with at
    /// least one declared subtask, ids are unique, and the completion count
    /// is exactly the number of fully reported operators.
    pub open spec fn wf(self) -> bool {
        &&& self.min_epoch <= self.epoch
        &&& self.operators == self.operator_state@.len()
        &&& str_keys_distinct(self.operator_state@)
        &&& str_keys_distinct(self.operator_details@)
        &&& forall|i: int|
            0 <= i < self.operator_state@.len() ==> (#[trigger] self.operator_state@[i].1).wf()
        &&& forall|i: int|
            0 <= i < self.operator_state@.len() ==> (#[trigger] self.operator_state@[i].1).subtasks
                >= 1
        &&& self.operators_checkpointed == count_complete(self.operator_state@)
    }

    /// Creates the state for one epoch from the declared operator
    /// parallelisms, with nothing yet reported.
    pub fn new(
        job_id: String,
        checkpoint_id: i64,
        epoch: u32,
        min_epoch: u32,
        tasks_per_operator: Vec<(String, usize)>,
        start_time: u64,
    ) -> (r: CheckpointState)
        requires
            min_epoch <= epoch,
            tasks_per_operator@.len() > 0,
            str_keys_distinct(tasks_per_operator@),
            forall|i: int|
                0 <= i < tasks_per_operator@.len() ==> (#[trigger] tasks_per_operator@[i]).1 >= 1,
        ensures
            r.wf(),
            r.job_id == job_id,
            r.checkpoint_id == checkpoint_id,
            r.epoch == epoch,
            r.min_epoch == min_epoch,
            r.start_time == start_time,
            r.operators == tasks_per_operator@.len(),
            r.operators_checkpointed == 0,
            r.operator_details@.len() == 0,
            r.operator_state@.len() == tasks_per_operator@.len(),
            forall|i: int|
                0 <= i < tasks_per_operator@.len() ==> (#[trigger] r.operator_state@[i]).0
                    == tasks_per_operator@[i].0,
            forall|i: int|
                0 <= i < tasks_per_operator@.len() ==> (#[trigger] r.operator_state@[i]).1.subtasks
                    == tasks_per_operator@[i].1 && r.operator_state@[i].1.subtasks_checkpointed
                    == 0 && r.operator_state@[i].1.table_state@.len() == 0
                    && r.operator_state@[i].1.watermarks@.len() == 0,
    {
        let mut operator_state: Vec<(String, OperatorState)> = Vec::new();
        let mut i: usize = 0;
        while i < tasks_per_operator.len()
            invariant
                i <= tasks_per_operator@.len(),
                operator_state@.len() == i,
                forall|j: int|
                    0 <= j < i ==> (#[trigger] operator_state@[j]).0 == tasks_per_operator@[j].0,
                forall|j: int|
                    0 <= j < i ==> (#[trigger] operator_state@[j]).1.subtasks
                        == tasks_per_operator@[j].1 && operator_state@[j].1.subtasks_checkpointed
                        == 0 && operator_state@[j].1.wf()
                        && operator_state@[j].1.table_state@.len() == 0
                        && operator_state@[j].1.watermarks@.len() == 0,
                count_complete(operator_state@) == 0,
                forall|j: int|
                    0 <= j < tasks_per_operator@.len() ==> (#[trigger] tasks_per_operator@[j]).1
                        >= 1,
            decreases tasks_per_operator@.len() - i,
        {
            let p = &tasks_per_operator[i];
            let op = OperatorState::new(p.1);
            let ghost pre = operator_state@;
            operator_state.push((p.0.clone(), op));
            proof {
                lemma_count_complete_push(pre, (tasks_per_operator@[i as int].0, op));
            }
            i += 1;
        }
        let r = CheckpointState {
            job_id,
            checkpoint_id,
            epoch,
            min_epoch,
            start_time,
            operators: tasks_per_operator.len(),
            operators_checkpointed: 0,
            operator_state,
            operator_details: Vec::new(),
        };
        proof {
            assert forall|i2: int, j2: int|
                0 <= i2 < j2 < r.operator_state@.len() implies r.operator_state@[i2].0@
                != r.operator_state@[j2].0@ by {
                assert(tasks_per_operator@[i2].0@ != tasks_per_operator@[j2].0@);
            }
        }
        r
    }

    pub fn checkpoint_id(&self) -> (r: i64)
        ensures
            r == self.checkpoint_id,
    {
        self.checkpoint_id
    }

    pub fn start_time(&self) -> (r: u64)
        ensures
            r == self.start_time,
    {
        self.start_time
    }

    /// True exactly when every operator has fully reported.
    pub fn done(&self) -> (r: bool)
        requires
            self.wf(),
        ensures
            r == (self.operators_checkpointed == self.operators),
            r <==> (forall|i: int|
                0 <= i < self.operator_state@.len() ==> (#[trigger] self.operator_state@[i].1).subtasks_checkpointed
                    == self.operator_state@[i].1.subtasks),
    {
        proof {
            lemma_count_complete_bounds(self.operator_state@);
        }
        self.operators == self.operators_checkpointed
    }

    /// The job-level manifest that pins this epoch, closed at `finish_time`.
    pub fn save_state(&self, finish_time: u64) -> (r: CheckpointMetadata)
        ensures
            r.job_id == self.job_id,
            r.epoch == self.epoch,
            r.min_epoch == self.min_epoch,
            r.start_time == self.start_time,
            r.finish_time == finish_time,
            r.operator_ids@.len() == self.operator_state@.len(),
            forall|i: int|
                0 <= i < self.operator_state@.len() ==> (#[trigger] r.operator_ids@[i])
                    == self.operator_state@[i].0,
    {
        let mut operator_ids: Vec<String> = Vec::new();
        let mut i: usize = 0;
        while i < self.operator_state.len()
            invariant
                i <= self.operator_state@.len(),
                operator_ids@.len() == i,
                forall|j: int|
                    0 <= j < i ==> (#[trigger] operator_ids@[j]) == self.operator_state@[j].0,
            decreases self.operator_state@.len() - i,
        {
            operator_ids.push(self.operator_state[i].0.clone());
            i += 1;
        }
        CheckpointMetadata {
            job_id: self.job_id.clone(),
            epoch: self.epoch,
            min_epoch: self.min_epoch,
            start_time: self.start_time,
            finish_time,
            operator_ids,
        }
    }
}

/// A freshly created UI task record: begun at the event's instant, with the
/// event as its only entry.
pub open spec fn fresh_task_detail(t: TaskCheckpointDetail, c: TaskCheckpointEventReq) -> bool {
    &&& t.subtask_index == c.subtask_index
    &&& t.start_time == c.time
    &&& t.finish_time is None
    &&& t.bytes is None
    &&& t.events@ == seq![
        TaskCheckpointEvent { time: c.time, event_type: spec_translate_event_type(c.event_type) },
    ]
}

/// A UI task record extended by one translated event, all else unchanged.
pub open spec fn updated_task_detail(
    t0: TaskCheckpointDetail,
    t: TaskCheckpointDetail,
    c: TaskCheckpointEventReq,
) -> bool {
    &&& t.subtask_index == t0.subtask_index
    &&& t.start_time == t0.start_time
    &&& t.finish_time == t0.finish_time
    &&& t.bytes == t0.bytes
    &&& t.events@ == t0.events@.push(
        TaskCheckpointEvent { time: c.time, event_type: spec_translate_event_type(c.event_type) },
    )
}

/// A freshly created UI operator record holding exactly the event's task.
pub open spec fn fresh_op_detail(d: OperatorCheckpointDetail, c: TaskCheckpointEventReq) -> bool {
    &&& d.operator_id == c.operator_id
    &&& d.start_time == c.time
    &&& d.finish_time is None
    &&& d.has_state == false
    &&& d.tasks@.len() == 1
    &&& d.tasks@[0].0 == c.subtask_index
    &&& fresh_task_detail(d.tasks@[0].1, c)
}

/// A UI operator record in which only the event's task changed: created
/// fresh, or extended by the event.
pub open spec fn updated_op_detail(
    d0: OperatorCheckpointDetail,
    d: OperatorCheckpointDetail,
    c: TaskCheckpointEventReq,
) -> bool {
    &&& d.operator_id == d0.operator_id
    &&& d.start_time == d0.start_time
    &&& d.finish_time == d0.finish_time
    &&& d.has_state == d0.has_state
    &&& forall|j: u32|
        j != c.subtask_index ==> u32_assoc(d.tasks@, j) == u32_assoc(d0.tasks@, j)
    &&& forall|j: u32| u32_has_key(d.tasks@, j) <==> u32_has_key(d0.tasks@, j) || j == c.subtask_index
    &&& match (u32_assoc(d0.tasks@, c.subtask_index), u32_assoc(d.tasks@, c.subtask_index)) {
        (None, Some(t)) => fresh_task_detail(t, c),
        (Some(t0), Some(t)) => updated_task_detail(t0, t, c),
        _ => false,
    }
}

impl CheckpointState {
    /// Records a progress note against the UI record of its operator and
    /// subtask, creating either on first sight with the event's instant as
    /// start time.  A `FinishedCommit` event is rejected: commits happen
    /// after the checkpoint, not during it.
    pub fn checkpoint_event(&mut self, c: TaskCheckpointEventReq) -> (r: Result<(), StateError>)
        requires
            old(self).wf(),
        ensures
            final(self).wf(),
            match r {
                Err(e) => {
                    &&& e == StateError::FinishedCommitForbidden
                    &&& c.event_type is FinishedCommit
                    &&& *final(self) == *old(self)
                },
                Ok(u) => {
                    &&& !(c.event_type is FinishedCommit)
                    &&& final(self).operator_state == old(self).operator_state
                    &&& final(self).operators_checkpointed == old(self).operators_checkpointed
                    &&& final(self).job_id == old(self).job_id
                    &&& final(self).epoch == old(self).epoch
                    &&& final(self).min_epoch == old(self).min_epoch
                    &&& final(self).checkpoint_id == old(self).checkpoint_id
                    &&& final(self).start_time == old(self).start_time
                    &&& final(self).operators == old(self).operators
                    &&& forall|k: Seq<char>|
                        k != c.operator_id@ ==> str_assoc(final(self).operator_details@, k)
                            == str_assoc(old(self).operator_details@, k)
                    &&& forall|k: Seq<char>|
                        str_has_key(final(self).operator_details@, k) <==> str_has_key(
                            old(self).operator_details@,
                            k,
                        ) || k == c.operator_id@
                    &&& match (
                        str_assoc(old(self).operator_details@, c.operator_id@),
                        str_assoc(final(self).operator_details@, c.operator_id@),
                    ) {
                        (None, Some(d)) => fresh_op_detail(d, c),
                        (Some(d0), Some(d)) => updated_op_detail(d0, d, c),
                        _ => false,
                    }
                },
            },
    {
        if matches!(c.event_type, TaskCheckpointEventType::FinishedCommit) {
            return Err(StateError::FinishedCommitForbidden);
        }
        let ev = TaskCheckpointEvent {
            time: c.time,
            event_type: translate_event_type(c.event_type),
        };
        let ghost pre_details = self.operator_details@;
        match str_find(&self.operator_details, &c.operator_id) {
            Some(i) => {
                proof {
                    lemma_str_assoc_at(pre_details, c.operator_id@, i as int);
                }
                let mut d = self.operator_details.remove(i);
                let ghost d0 = d.1;
                match u32_find(&d.1.tasks, c.subtask_index) {
                    Some(j) => {
                        proof {
                            lemma_u32_assoc_at(d0.tasks@, c.subtask_index, j as int);
                        }
                        let mut t = d.1.tasks.remove(j);
                        let ghost t0 = t.1;
                        t.1.events.push(ev);
                        let ghost tnew = t;
                        d.1.tasks.insert(j, t);
                        proof {
                            assert(d.1.tasks@ =~= d0.tasks@.update(j as int, tnew));
                            assert(updated_task_detail(t0, tnew.1, c));
                            assert forall|j2: u32|
                                j2 != c.subtask_index implies u32_assoc(d.1.tasks@, j2)
                                == u32_assoc(d0.tasks@, j2) by {
                                lemma_u32_assoc_update(d0.tasks@, j as int, tnew, j2);
                            }
                            assert forall|j2: u32|
                                u32_has_key(d.1.tasks@, j2) <==> u32_has_key(d0.tasks@, j2) || j2
                                == c.subtask_index by {
                                lemma_u32_assoc_update(d0.tasks@, j as int, tnew, j2);
                                if u32_has_key(d0.tasks@, j2) || j2 == c.subtask_index {
                                    let w = choose|w: int|
                                        0 <= w < d0.tasks@.len() && d0.tasks@[w].0 == j2;
                                    if j2 == c.subtask_index {
                                        assert(d.1.tasks@[j as int].0 == j2);
                                    } else {
                                        assert(d.1.tasks@[w].0 == j2);
                                    }
                                }
                            }
                            lemma_u32_assoc_update(
                                d0.tasks@,
                                j as int,
                                tnew,
                                c.subtask_index,
                            );
                            assert(updated_op_detail(d0, d.1, c));
                        }
                    },
                    None => {
                        proof {
                            lemma_u32_assoc_none(d0.tasks@, c.subtask_index);
                        }
                        let mut evs: Vec<TaskCheckpointEvent> = Vec::new();
                        evs.push(ev);
                        let t = TaskCheckpointDetail {
                            subtask_index: c.subtask_index,
                            start_time: c.time,
                            finish_time: None,
                            bytes: None,
                            events: evs,
                        };
                        d.1.tasks.push((c.subtask_index, t));
                        proof {
                            assert forall|j2: u32|
                                j2 != c.subtask_index implies u32_assoc(d.1.tasks@, j2)
                                == u32_assoc(d0.tasks@, j2) by {
                                lemma_u32_assoc_push(
                                    d0.tasks@,
                                    d.1.tasks@.last(),
                                    j2,
                                );
                                lemma_u32_assoc_none(d0.tasks@, j2);
                            }
                            assert forall|j2: u32|
                                u32_has_key(d.1.tasks@, j2) <==> u32_has_key(d0.tasks@, j2) || j2
                                == c.subtask_index by {
                                if u32_has_key(d.1.tasks@, j2) {
                                    let w = choose|w: int|
                                        0 <= w < d.1.tasks@.len() && d.1.tasks@[w].0 == j2;
                                    if w < d0.tasks@.len() {
                                        assert(d0.tasks@[w].0 == j2);
                                    }
                                }
                                if u32_has_key(d0.tasks@, j2) {
                                    let w = choose|w: int|
                                        0 <= w < d0.tasks@.len() && d0.tasks@[w].0 == j2;
                                    assert(d.1.tasks@[w].0 == j2);
                                }
                                if j2 == c.subtask_index {
                                    assert(d.1.tasks@.last().0 == j2);
                                }
                            }
                            lemma_u32_assoc_push(
                                d0.tasks@,
                                d.1.tasks@.last(),
                                c.subtask_index,
                            );
                            lemma_u32_assoc_none(d0.tasks@, c.subtask_index);
                            assert(updated_op_detail(d0, d.1, c));
                        }
                    },
                }
                let ghost dnew = d;
                self.operator_details.insert(i, d);
                proof {
                    assert(self.operator_details@ =~= pre_details.update(i as int, dnew));
                    assert forall|k: Seq<char>|
                        k != c.operator_id@ implies str_assoc(self.operator_details@, k)
                        == str_assoc(pre_details, k) by {
                        lemma_str_assoc_update(pre_details, i as int, dnew, k);
                    }
                    lemma_str_assoc_update(pre_details, i as int, dnew, c.operator_id@);
                    assert forall|i2: int, j2: int|
                        0 <= i2 < j2 < self.operator_details@.len() implies self.operator_details@[i2].0@
                        != self.operator_details@[j2].0@ by {
                        assert(pre_details[i2].0@ != pre_details[j2].0@);
                        assert(self.operator_details@[i2].0@ == pre_details[i2].0@);
                        assert(self.operator_details@[j2].0@ == pre_details[j2].0@);
                    }
                }
                Ok(())
            },
            None => {
                proof {
                    lemma_str_assoc_none(pre_details, c.operator_id@);
                }
                let key = c.operator_id.clone();
                let mut evs: Vec<TaskCheckpointEvent> = Vec::new();
                evs.push(ev);
                let t = TaskCheckpointDetail {
                    subtask_index: c.subtask_index,
                    start_time: c.time,
                    finish_time: None,
                    bytes: None,
                    events: evs,
                };
                let mut tasks: Vec<(u32, TaskCheckpointDetail)> = Vec::new();
                tasks.push((c.subtask_index, t));
                let d = OperatorCheckpointDetail {
                    operator_id: c.operator_id,
                    start_time: c.time,
                    finish_time: None,
                    has_state: false,
                    tasks,
                };
                self.operator_details.push((key, d));
                proof {
                    let pnew = self.operator_details@.last();
                    assert forall|k: Seq<char>|
                        k != c.operator_id@ implies str_assoc(self.operator_details@, k)
                        == str_assoc(pre_details, k) by {
                        lemma_str_assoc_push(pre_details, pnew, k);
                        lemma_str_assoc_none(pre_details, k);
                    }
                    lemma_str_assoc_push(pre_details, pnew, c.operator_id@);
                    assert forall|k: Seq<char>|
                        str_has_key(self.operator_details@, k) <==> str_has_key(pre_details, k)
                        || k == c.operator_id@ by {
                        if str_has_key(self.operator_details@, k) {
                            let w = choose|w: int|
                                0 <= w < self.operator_details@.len()
                                    && self.operator_details@[w].0@ == k;
                            if w < pre_details.len() {
                                assert(pre_details[w].0@ == k);
                            }
                        }
                        if str_has_key(pre_details, k) {
                            let w = choose|w: int|
                                0 <= w < pre_details.len() && pre_details[w].0@ == k;
                            assert(self.operator_details@[w].0@ == k);
                        }
                        if k == c.operator_id@ {
                            assert(self.operator_details@.last().0@ == k);
                        }
                    }
                    assert(fresh_op_detail(d, c));
                    assert forall|i2: int, j2: int|
                        0 <= i2 < j2 < self.operator_details@.len() implies self.operator_details@[i2].0@
                        != self.operator_details@[j2].0@ by {
                        if j2 < pre_details.len() {
                            assert(pre_details[i2].0@ != pre_details[j2].0@);
                        } else {
                            assert(self.operator_details@[j2].0@ == c.operator_id@);
                            if self.operator_details@[i2].0@ == c.operator_id@ {
                                assert(pre_details[i2].0@ == c.operator_id@);
                                assert(str_has_key(pre_details, c.operator_id@));
                            }
                        }
                    }
                }
                Ok(())
            },
        }
    }
}

impl CheckpointState {
    /// Applies one subtask completion.  The named operator's accumulator
    /// absorbs the report; when this completes the operator, the completion
    /// count advances and the operator's durable manifest is returned for
    /// the caller to persist — its write must succeed, or the epoch is
    /// abandoned.  A completion for an unknown operator, one without
    /// metadata, or one for an operator that has already fully reported is
    /// rejected.
    pub fn checkpoint_finished(&mut self, c: TaskCheckpointCompletedReq) -> (r: Result<
        Option<OperatorCheckpointMetadata>,
        StateError,
    >)
        requires
            old(self).wf(),
            c.metadata matches Some(m) ==> str_keys_distinct(m.table_metadata@),
        ensures
            final(self).operators == old(self).operators,
            final(self).operators_checkpointed >= old(self).operators_checkpointed,
            match r {
                Ok(out) => {
                    let id = c.operator_id@;
                    let pre = str_assoc(old(self).operator_state@, id)->Some_0;
                    let meta = c.metadata->Some_0;
                    let ts1 = table_upsert_all(
                        tables_model(pre.table_state@),
                        meta.table_metadata@,
                        meta.table_configs@,
                    );
                    &&& str_has_key(old(self).operator_state@, id)
                    &&& c.metadata is Some
                    &&& pre.subtasks_checkpointed < pre.subtasks
                    &&& final(self).wf()
                    &&& final(self).job_id == old(self).job_id
                    &&& final(self).epoch == old(self).epoch
                    &&& final(self).min_epoch == old(self).min_epoch
                    &&& final(self).checkpoint_id == old(self).checkpoint_id
                    &&& final(self).start_time == old(self).start_time
                    &&& final(self).operator_details == old(self).operator_details
                    &&& forall|k: Seq<char>|
                        k != id ==> str_assoc(final(self).operator_state@, k) == str_assoc(
                            old(self).operator_state@,
                            k,
                        )
                    &&& forall|k: Seq<char>|
                        str_has_key(final(self).operator_state@, k) <==> str_has_key(
                            old(self).operator_state@,
                            k,
                        )
                    &&& str_assoc(final(self).operator_state@, id) is Some
                    &&& ({
                        let post = str_assoc(final(self).operator_state@, id)->Some_0;
                        &&& stepped(pre, post, meta)
                        &&& post.wf()
                        &&& tables_resolvable(
                            tables_model(pre.table_state@),
                            meta.table_metadata@,
                            meta.table_configs@,
                        )
                        &&& match out {
                            None => {
                                &&& post.subtasks_checkpointed < post.subtasks
                                &&& final(self).operators_checkpointed == old(
                                    self,
                                ).operators_checkpointed
                                &&& tables_model(post.table_state@) == ts1
                            },
                            Some(m) => {
                                &&& post.subtasks_checkpointed == post.subtasks
                                &&& final(self).operators_checkpointed == old(
                                    self,
                                ).operators_checkpointed + 1
                                &&& m.job_id == old(self).job_id
                                &&& m.operator_id == c.operator_id
                                &&& m.epoch == old(self).epoch
                                &&& post.start_time == Some(m.start_time)
                                &&& post.finish_time == Some(m.finish_time)
                                &&& (m.min_watermark, m.max_watermark) == watermark_bounds(
                                    post.watermarks@,
                                )
                                &&& m.has_state == false
                                &&& m.bytes == 0
                                &&& drain_clean(ts1)
                                &&& m.table_configs@ == drained_configs(ts1)
                                &&& m.table_checkpoint_metadata@ == drained_metas(ts1)
                                &&& post.table_state@.len() == 0
                            },
                        }
                    })
                },
                Err(e) => {
                    let id = c.operator_id@;
                    let pre = str_assoc(old(self).operator_state@, id)->Some_0;
                    if e == StateError::UnknownOperator {
                        &&& !str_has_key(old(self).operator_state@, id)
                        &&& *final(self) == *old(self)
                    } else if e == StateError::MissingMetadata {
                        &&& str_has_key(old(self).operator_state@, id)
                        &&& c.metadata is None
                        &&& *final(self) == *old(self)
                    } else if e == StateError::SubtaskOverflow {
                        &&& str_has_key(old(self).operator_state@, id)
                        &&& c.metadata is Some
                        &&& pre.subtasks_checkpointed >= pre.subtasks
                        &&& *final(self) == *old(self)
                    } else if e == StateError::MissingTableConfig {
                        &&& str_has_key(old(self).operator_state@, id)
                        &&& c.metadata is Some
                        &&& !tables_resolvable(
                            tables_model(pre.table_state@),
                            c.metadata->Some_0.table_metadata@,
                            c.metadata->Some_0.table_configs@,
                        )
                        &&& final(self).operator_state@ == old(self).operator_state@
                        &&& final(self).operator_details == old(self).operator_details
                        &&& final(self).operators_checkpointed == old(self).operators_checkpointed
                        &&& final(self).wf()
                    } else if e == StateError::MissingTableType {
                        &&& str_has_key(old(self).operator_state@, id)
                        &&& c.metadata is Some
                        &&& pre.subtasks_checkpointed + 1 == pre.subtasks
                        &&& tables_resolvable(
                            tables_model(pre.table_state@),
                            c.metadata->Some_0.table_metadata@,
                            c.metadata->Some_0.table_configs@,
                        )
                        &&& !drain_clean(
                            table_upsert_all(
                                tables_model(pre.table_state@),
                                c.metadata->Some_0.table_metadata@,
                                c.metadata->Some_0.table_configs@,
                            ),
                        )
                        &&& final(self).operators_checkpointed == old(
                            self,
                        ).operators_checkpointed
                        &&& forall|k: Seq<char>|
                            str_has_key(final(self).operator_state@, k) <==> str_has_key(
                                old(self).operator_state@,
                                k,
                            )
                    } else {
                        false
                    }
                },
            },
    {
        let idx = match str_find(&self.operator_state, &c.operator_id) {
            Some(idx) => idx,
            None => {
                return Err(StateError::UnknownOperator);
            },
        };
        proof {
            lemma_str_assoc_at(self.operator_state@, c.operator_id@, idx as int);
        }
        let meta = match c.metadata {
            Some(m) => m,
            None => {
                return Err(StateError::MissingMetadata);
            },
        };
        if self.operator_state[idx].1.subtasks_checkpointed >= self.operator_state[idx].1.subtasks {
            return Err(StateError::SubtaskOverflow);
        }
        let ghost pre_states = self.operator_state@;
        let ghost pre = self.operator_state@[idx as int].1;
        let mut op = self.operator_state.remove(idx);
        let res = op.1.finish_subtask(meta);
        let ghost opnew = op;
        let ghost post = op.1;
        match res {
            Err(e) => {
                self.operator_state.insert(idx, op);
                proof {
                    assert(self.operator_state@ =~= pre_states.update(idx as int, opnew));
                    if e == StateError::MissingTableConfig {
                        assert(opnew == pre_states[idx as int]);
                        assert(self.operator_state@ =~= pre_states);
                    } else {
                        assert forall|k: Seq<char>|
                            str_has_key(self.operator_state@, k) <==> str_has_key(pre_states, k) by {
                            if str_has_key(self.operator_state@, k) {
                                let w = choose|w: int|
                                    0 <= w < self.operator_state@.len()
                                        && self.operator_state@[w].0@ == k;
                                assert(pre_states[w].0@ == k);
                            }
                            if str_has_key(pre_states, k) {
                                let w = choose|w: int|
                                    0 <= w < pre_states.len() && pre_states[w].0@ == k;
                                assert(self.operator_state@[w].0@ == k);
                            }
                        }
                    }
                }
                Err(e)
            },
            Ok(None) => {
                self.operator_state.insert(idx, op);
                proof {
                    assert(self.operator_state@ =~= pre_states.update(idx as int, opnew));
                    lemma_count_complete_update(pre_states, idx as int, opnew);
                    assert forall|k: Seq<char>|
                        k != c.operator_id@ implies str_assoc(self.operator_state@, k) == str_assoc(
                        pre_states,
                        k,
                    ) by {
                        lemma_str_assoc_update(pre_states, idx as int, opnew, k);
                    }
                    lemma_str_assoc_update(pre_states, idx as int, opnew, c.operator_id@);
                    assert forall|i2: int, j2: int|
                        0 <= i2 < j2 < self.operator_state@.len() implies self.operator_state@[i2].0@
                        != self.operator_state@[j2].0@ by {
                        assert(pre_states[i2].0@ != pre_states[j2].0@);
                        assert(self.operator_state@[i2].0@ == pre_states[i2].0@);
                        assert(self.operator_state@[j2].0@ == pre_states[j2].0@);
                    }
                }
                Ok(None)
            },
            Ok(Some(pair)) => {
                let (cfgs, metas) = pair;
                proof {
                    lemma_count_complete_bounds(pre_states);
                }
                self.operators_checkpointed = self.operators_checkpointed + 1;
                let bounds = aggregate_watermarks(&op.1.watermarks);
                let st = match op.1.start_time {
                    Some(t) => t,
                    None => {
                        proof {
                            assert(false);
                        }
                        0
                    },
                };
                let ft = match op.1.finish_time {
                    Some(t) => t,
                    None => {
                        proof {
                            assert(false);
                        }
                        0
                    },
                };
                let m = OperatorCheckpointMetadata {
                    job_id: self.job_id.clone(),
                    operator_id: c.operator_id,
                    epoch: self.epoch,
                    start_time: st,
                    finish_time: ft,
                    min_watermark: bounds.0,
                    max_watermark: bounds.1,
                    has_state: false,
                    bytes: 0,
                    table_checkpoint_metadata: metas,
                    table_configs: cfgs,
                };
                self.operator_state.insert(idx, op);
                proof {
                    assert(self.operator_state@ =~= pre_states.update(idx as int, opnew));
                    lemma_count_complete_update(pre_states, idx as int, opnew);
                    assert forall|k: Seq<char>|
                        k != c.operator_id@ implies str_assoc(self.operator_state@, k) == str_assoc(
                        pre_states,
                        k,
                    ) by {
                        lemma_str_assoc_update(pre_states, idx as int, opnew, k);
                    }
                    lemma_str_assoc_update(pre_states, idx as int, opnew, c.operator_id@);
                    assert forall|i2: int, j2: int|
                        0 <= i2 < j2 < self.operator_state@.len() implies self.operator_state@[i2].0@
                        != self.operator_state@[j2].0@ by {
                        assert(pre_states[i2].0@ != pre_states[j2].0@);
                        assert(self.operator_state@[i2].0@ == pre_states[i2].0@);
                        assert(self.operator_state@[j2].0@ == pre_states[j2].0@);
                    }
                }
                Ok(Some(m))
            },
        }
    }
}

} // verus!
