use vstd::prelude::*;

verus! {

// The records exchanged with workers and persisted in manifests.  Wall-clock
// instants are u64 microseconds since the UNIX epoch throughout; watermarks
// and retention spans use the same unit.

/// Why a coordinator or restore operation was rejected.  Every variant is an
/// invariant violation that is fatal to the epoch being checkpointed or
/// restored.
#[derive(Clone, Copy, Debug, PartialEq, Eq, Structural)]
pub enum StateError {
    /// A `FinishedCommit` event arrived while a checkpoint was in progress.
    FinishedCommitForbidden,
    /// A completion named an operator the epoch was not created with.
    UnknownOperator,
    /// A completion arrived without its subtask metadata.
    MissingMetadata,
    /// A subtask reported a table whose configuration it did not carry.
    MissingTableConfig,
    /// A table was configured with the sentinel `MissingTableType`.
    MissingTableType,
    /// An operator received more completions than it has subtasks.
    SubtaskOverflow,
    /// The replay log held a `DeleteTimeKey`, which this table kind does not
    /// support.
    UnsupportedRestoreOperation,
    /// An `Insert` tuple in the replay log carried no value.
    MissingRestoreValue,
    /// A logged key payload could not be decoded.
    UndecodableKey,
    /// A logged value payload could not be decoded.
    UndecodableValue,
}

/// The kind of a state table.  `MissingTableType` is a sentinel whose
/// appearance anywhere is an invariant violation.
#[derive(Clone, Copy, Debug, PartialEq, Eq, Structural)]
pub enum TableEnum {
    MissingTableType,
    GlobalKeyValue,
    ExpiringKeyedTimeTable,
}

/// Configuration of one state table.
#[derive(Clone, Copy, Debug, PartialEq, Eq, Structural)]
pub struct TableConfig {
    pub table_type: TableEnum,
}

/// Worker-side description of a table, carried into a restore.
#[derive(Clone, Copy, Debug, PartialEq, Eq, Structural)]
pub struct TableDescriptor {
    /// Span of event time before the watermark for which keyed state is kept.
    pub retention_micros: u64,
}

/// What one subtask persisted for one table during a checkpoint.
#[derive(Clone, Copy, Debug, PartialEq, Eq, Structural)]
pub struct TableSubtaskCheckpointMetadata {
    pub subtask_index: u32,
    /// The subtask's watermark for this table, if it had one.
    pub watermark: Option<u64>,
    /// Whether the subtask wrote durable state for this table.
    pub has_state: bool,
    pub bytes: u64,
}

/// The table-level record merged from all subtasks of an operator.
#[derive(Clone, Copy, Debug, PartialEq, Eq, Structural)]
pub struct TableCheckpointMetadata {
    pub min_watermark: Option<u64>,
    pub bytes: u64,
}

/// Everything one subtask reports when it finishes its checkpoint.
#[derive(Clone, Debug)]
pub struct SubtaskCheckpointMetadata {
    pub subtask_index: u32,
    pub start_time: u64,
    pub finish_time: u64,
    pub watermark: Option<u64>,
    /// Per-table metadata, keyed by table name.
    pub table_metadata: Vec<(String, TableSubtaskCheckpointMetadata)>,
    /// Configuration of each table the subtask reports on, keyed by name.
    pub table_configs: Vec<(String, TableConfig)>,
}

/// Progress events a worker streams while checkpointing.
#[derive(Clone, Copy, Debug, PartialEq, Eq, Structural)]
pub enum TaskCheckpointEventType {
    StartedAlignment,
    StartedCheckpointing,
    FinishedOperatorSetup,
    FinishedSync,
    FinishedCommit,
}

/// The event kinds recorded for the UI.
#[derive(Clone, Copy, Debug, PartialEq, Eq, Structural)]
pub enum UiEventType {
    AlignmentStarted,
    CheckpointStarted,
    CheckpointOperatorFinished,
    CheckpointSyncFinished,
    CheckpointPreCommit,
}

/// A progress note from one subtask.
#[derive(Clone, Debug)]
pub struct TaskCheckpointEventReq {
    pub operator_id: String,
    pub subtask_index: u32,
    pub time: u64,
    pub event_type: TaskCheckpointEventType,
}

/// A completion report from one subtask.
#[derive(Clone, Debug)]
pub struct TaskCheckpointCompletedReq {
    pub operator_id: String,
    pub time: u64,
    pub metadata: Option<SubtaskCheckpointMetadata>,
}

/// One UI event recorded against a subtask.
#[derive(Clone, Copy, Debug, PartialEq, Eq, Structural)]
pub struct TaskCheckpointEvent {
    pub time: u64,
    pub event_type: UiEventType,
}

/// UI record of one subtask's checkpoint progress.
#[derive(Clone, Debug)]
pub struct TaskCheckpointDetail {
    pub subtask_index: u32,
    pub start_time: u64,
    pub finish_time: Option<u64>,
    pub bytes: Option<u64>,
    pub events: Vec<TaskCheckpointEvent>,
}

/// UI record of one operator's checkpoint progress.
#[derive(Clone, Debug)]
pub struct OperatorCheckpointDetail {
    pub operator_id: String,
    pub start_time: u64,
    pub finish_time: Option<u64>,
    pub has_state: bool,
    pub tasks: Vec<(u32, TaskCheckpointDetail)>,
}

/// The durable manifest written for one operator when its last subtask
/// reports.
#[derive(Clone, Debug)]
pub struct OperatorCheckpointMetadata {
    pub job_id: String,
    pub operator_id: String,
    pub epoch: u32,
    /// Least start instant over the operator's subtasks.
    pub start_time: u64,
    /// Greatest finish instant over the operator's subtasks.
    pub finish_time: u64,
    pub min_watermark: Option<u64>,
    pub max_watermark: Option<u64>,
    pub has_state: bool,
    pub bytes: u64,
    pub table_checkpoint_metadata: Vec<(String, TableCheckpointMetadata)>,
    pub table_configs: Vec<(String, TableConfig)>,
}

/// The durable job-level manifest that pins an epoch.
#[derive(Clone, Debug)]
pub struct CheckpointMetadata {
    pub job_id: String,
    pub epoch: u32,
    pub min_epoch: u32,
    pub start_time: u64,
    pub finish_time: u64,
    pub operator_ids: Vec<String>,
}

/// The fixed mapping from progress events to UI event kinds.
pub fn translate_event_type(t: TaskCheckpointEventType) -> (r: UiEventType)
    ensures
        r == spec_translate_event_type(t),
{
    match t {
        TaskCheckpointEventType::StartedAlignment => UiEventType::AlignmentStarted,
        TaskCheckpointEventType::StartedCheckpointing => UiEventType::CheckpointStarted,
        TaskCheckpointEventType::FinishedOperatorSetup => UiEventType::CheckpointOperatorFinished,
        TaskCheckpointEventType::FinishedSync => UiEventType::CheckpointSyncFinished,
        TaskCheckpointEventType::FinishedCommit => UiEventType::CheckpointPreCommit,
    }
}

pub open spec fn spec_translate_event_type(t: TaskCheckpointEventType) -> UiEventType {
    match t {
        TaskCheckpointEventType::StartedAlignment => UiEventType::AlignmentStarted,
        TaskCheckpointEventType::StartedCheckpointing => UiEventType::CheckpointStarted,
        TaskCheckpointEventType::FinishedOperatorSetup => UiEventType::CheckpointOperatorFinished,
        TaskCheckpointEventType::FinishedSync => UiEventType::CheckpointSyncFinished,
        TaskCheckpointEventType::FinishedCommit => UiEventType::CheckpointPreCommit,
    }
}

} // verus!
