use arroyo_state::checkpoint_state::CheckpointState;
use arroyo_state::operator::{OperatorState, TableState};
use arroyo_state::types::{StateError, SubtaskCheckpointMetadata, TableCheckpointMetadata,
    TableConfig, TableEnum, TableSubtaskCheckpointMetadata, TaskCheckpointCompletedReq,
    TaskCheckpointEventReq, TaskCheckpointEventType, UiEventType, translate_event_type};
use arroyo_state::watermark::aggregate_watermarks;

fn meta(
    subtask_index: u32,
    start: u64,
    finish: u64,
    watermark: Option<u64>,
) -> SubtaskCheckpointMetadata {
    SubtaskCheckpointMetadata {
        subtask_index,
        start_time: start,
        finish_time: finish,
        watermark,
        table_metadata: vec![],
        table_configs: vec![],
    }
}

fn completed(op: &str, m: SubtaskCheckpointMetadata) -> TaskCheckpointCompletedReq {
    TaskCheckpointCompletedReq { operator_id: op.to_string(), time: 0, metadata: Some(m) }
}

fn two_op_state() -> CheckpointState {
    let tasks = vec![("op_A".to_string(), 2usize), ("op_B".to_string(), 2usize)];
    CheckpointState::new("job".to_string(), 7, 5, 1, tasks, 1000)
}

#[test]
fn two_operator_two_subtask_epoch() {
    let mut cs = two_op_state();
    assert!(!cs.done());
    let r = cs.checkpoint_finished(completed("op_A", meta(0, 100, 300, Some(10)))).unwrap();
    assert!(r.is_none());
    let r = cs.checkpoint_finished(completed("op_B", meta(0, 200, 400, Some(20)))).unwrap();
    assert!(r.is_none());
    let a = cs
        .checkpoint_finished(completed("op_A", meta(1, 150, 350, Some(15))))
        .unwrap()
        .expect("op_A should complete");
    assert_eq!(a.operator_id, "op_A");
    assert_eq!(a.job_id, "job");
    assert_eq!(a.epoch, 5);
    assert_eq!(a.start_time, 100);
    assert_eq!(a.finish_time, 350);
    assert_eq!(a.min_watermark, Some(10));
    assert_eq!(a.max_watermark, Some(15));
    assert!(!cs.done());
    let b = cs
        .checkpoint_finished(completed("op_B", meta(1, 250, 450, Some(25))))
        .unwrap()
        .expect("op_B should complete");
    assert_eq!(b.start_time, 200);
    assert_eq!(b.finish_time, 450);
    assert_eq!(b.min_watermark, Some(20));
    assert_eq!(b.max_watermark, Some(25));
    assert!(cs.done());
    assert_eq!(cs.checkpoint_id(), 7);
    assert_eq!(cs.start_time(), 1000);
    let cm = cs.save_state(9999);
    assert_eq!(cm.operator_ids, vec!["op_A".to_string(), "op_B".to_string()]);
    assert_eq!(cm.epoch, 5);
    assert_eq!(cm.min_epoch, 1);
    assert_eq!(cm.job_id, "job");
    assert_eq!(cm.start_time, 1000);
    assert_eq!(cm.finish_time, 9999);
}

#[test]
fn missing_watermark_absorbs() {
    let mut cs = two_op_state();
    cs.checkpoint_finished(completed("op_A", meta(0, 100, 300, Some(10)))).unwrap();
    let a = cs
        .checkpoint_finished(completed("op_A", meta(1, 150, 350, None)))
        .unwrap()
        .expect("op_A should complete");
    assert_eq!(a.min_watermark, None);
    assert_eq!(a.max_watermark, None);
    assert_eq!(a.start_time, 100);
    assert_eq!(a.finish_time, 350);
}

#[test]
fn unknown_operator_is_rejected() {
    let mut cs = two_op_state();
    let r = cs.checkpoint_finished(completed("op_C", meta(0, 1, 2, None)));
    assert!(matches!(r, Err(StateError::UnknownOperator)));
}

#[test]
fn missing_metadata_is_rejected() {
    let mut cs = two_op_state();
    let r = cs.checkpoint_finished(TaskCheckpointCompletedReq {
        operator_id: "op_A".to_string(),
        time: 0,
        metadata: None,
    });
    assert!(matches!(r, Err(StateError::MissingMetadata)));
}

#[test]
fn extra_completion_is_flagged() {
    let mut cs = two_op_state();
    cs.checkpoint_finished(completed("op_A", meta(0, 1, 2, None))).unwrap();
    cs.checkpoint_finished(completed("op_A", meta(1, 1, 2, None))).unwrap();
    let r = cs.checkpoint_finished(completed("op_A", meta(0, 1, 2, None)));
    assert!(matches!(r, Err(StateError::SubtaskOverflow)));
}

#[test]
fn finished_commit_is_rejected_during_checkpoint() {
    let mut cs = two_op_state();
    let r = cs.checkpoint_event(TaskCheckpointEventReq {
        operator_id: "op_A".to_string(),
        subtask_index: 0,
        time: 5,
        event_type: TaskCheckpointEventType::FinishedCommit,
    });
    assert!(matches!(r, Err(StateError::FinishedCommitForbidden)));
    assert!(cs.operator_details.is_empty());
}

#[test]
fn checkpoint_event_records_ui_detail() {
    let mut cs = two_op_state();
    cs.checkpoint_event(TaskCheckpointEventReq {
        operator_id: "op_A".to_string(),
        subtask_index: 0,
        time: 5,
        event_type: TaskCheckpointEventType::StartedAlignment,
    })
    .unwrap();
    cs.checkpoint_event(TaskCheckpointEventReq {
        operator_id: "op_A".to_string(),
        subtask_index: 0,
        time: 9,
        event_type: TaskCheckpointEventType::FinishedSync,
    })
    .unwrap();
    assert_eq!(cs.operator_details.len(), 1);
    let (id, d) = &cs.operator_details[0];
    assert_eq!(id.as_str(), "op_A");
    assert_eq!(d.start_time, 5);
    assert_eq!(d.tasks.len(), 1);
    let (idx, task) = &d.tasks[0];
    assert_eq!(*idx, 0);
    assert_eq!(task.start_time, 5);
    assert_eq!(task.events.len(), 2);
    assert_eq!(task.events[0].event_type, UiEventType::AlignmentStarted);
    assert_eq!(task.events[0].time, 5);
    assert_eq!(task.events[1].event_type, UiEventType::CheckpointSyncFinished);
    assert_eq!(task.events[1].time, 9);
}

#[test]
fn event_translation_table() {
    assert_eq!(
        translate_event_type(TaskCheckpointEventType::StartedAlignment),
        UiEventType::AlignmentStarted
    );
    assert_eq!(
        translate_event_type(TaskCheckpointEventType::StartedCheckpointing),
        UiEventType::CheckpointStarted
    );
    assert_eq!(
        translate_event_type(TaskCheckpointEventType::FinishedOperatorSetup),
        UiEventType::CheckpointOperatorFinished
    );
    assert_eq!(
        translate_event_type(TaskCheckpointEventType::FinishedSync),
        UiEventType::CheckpointSyncFinished
    );
    assert_eq!(
        translate_event_type(TaskCheckpointEventType::FinishedCommit),
        UiEventType::CheckpointPreCommit
    );
}

#[test]
fn aggregate_watermarks_examples() {
    assert_eq!(aggregate_watermarks(&vec![Some(3), Some(7), Some(5)]), (Some(3), Some(7)));
    assert_eq!(aggregate_watermarks(&vec![Some(3), None, Some(5)]), (None, None));
    assert_eq!(aggregate_watermarks(&vec![]), (None, None));
    assert_eq!(aggregate_watermarks(&vec![Some(4)]), (Some(4), Some(4)));
}

fn sub_table(
    subtask_index: u32,
    watermark: Option<u64>,
    has_state: bool,
    bytes: u64,
) -> TableSubtaskCheckpointMetadata {
    TableSubtaskCheckpointMetadata { subtask_index, watermark, has_state, bytes }
}

#[test]
fn merge_expiring_table_keeps_least_watermark_and_total_bytes() {
    let ts = TableState {
        table_config: TableConfig { table_type: TableEnum::ExpiringKeyedTimeTable },
        subtask_tables: vec![
            (0, sub_table(0, Some(9), true, 5)),
            (1, sub_table(1, Some(4), false, 7)),
        ],
    };
    let m = ts.to_table_metadata().unwrap().expect("durable state present");
    assert_eq!(m, TableCheckpointMetadata { min_watermark: Some(4), bytes: 12 });
}

#[test]
fn merge_global_table_has_no_watermark() {
    let ts = TableState {
        table_config: TableConfig { table_type: TableEnum::GlobalKeyValue },
        subtask_tables: vec![(0, sub_table(0, Some(9), true, 3))],
    };
    let m = ts.to_table_metadata().unwrap().expect("durable state present");
    assert_eq!(m, TableCheckpointMetadata { min_watermark: None, bytes: 3 });
}

#[test]
fn merge_without_durable_state_yields_nothing() {
    let ts = TableState {
        table_config: TableConfig { table_type: TableEnum::ExpiringKeyedTimeTable },
        subtask_tables: vec![(0, sub_table(0, None, false, 0))],
    };
    assert_eq!(ts.to_table_metadata().unwrap(), None);
}

#[test]
fn merge_sentinel_table_type_is_rejected() {
    let ts = TableState {
        table_config: TableConfig { table_type: TableEnum::MissingTableType },
        subtask_tables: vec![],
    };
    assert!(matches!(ts.to_table_metadata(), Err(StateError::MissingTableType)));
}

#[test]
fn completion_drains_table_state_with_merged_metadata() {
    let cfg = TableConfig { table_type: TableEnum::ExpiringKeyedTimeTable };
    let mut op = OperatorState::new(2);
    let m0 = SubtaskCheckpointMetadata {
        subtask_index: 0,
        start_time: 10,
        finish_time: 20,
        watermark: Some(5),
        table_metadata: vec![("t".to_string(), sub_table(0, Some(5), true, 4))],
        table_configs: vec![("t".to_string(), cfg)],
    };
    let m1 = SubtaskCheckpointMetadata {
        subtask_index: 1,
        start_time: 11,
        finish_time: 19,
        watermark: Some(8),
        table_metadata: vec![("t".to_string(), sub_table(1, Some(8), true, 6))],
        table_configs: vec![("t".to_string(), cfg)],
    };
    assert!(op.finish_subtask(m0).unwrap().is_none());
    let (cfgs, metas) = op.finish_subtask(m1).unwrap().expect("operator complete");
    assert_eq!(cfgs, vec![("t".to_string(), cfg)]);
    assert_eq!(
        metas,
        vec![("t".to_string(), TableCheckpointMetadata { min_watermark: Some(5), bytes: 10 })]
    );
    assert_eq!(op.start_time, Some(10));
    assert_eq!(op.finish_time, Some(20));
}

#[test]
fn missing_table_config_is_rejected() {
    let mut op = OperatorState::new(2);
    let m0 = SubtaskCheckpointMetadata {
        subtask_index: 0,
        start_time: 10,
        finish_time: 20,
        watermark: None,
        table_metadata: vec![("t".to_string(), sub_table(0, None, true, 4))],
        table_configs: vec![],
    };
    assert!(matches!(op.finish_subtask(m0), Err(StateError::MissingTableConfig)));
}
