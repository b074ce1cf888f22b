//! Barrier commands, as far as the topology trackers look into them.
use vstd::prelude::*;

use crate::fragment::{FragmentId, InflightFragmentInfo, SubscriptionId, TableId};

verus! {

/// Upstream fragment id to the downstream fragment ids it feeds.
pub type FragmentRelations = Vec<(FragmentId, Vec<FragmentId>)>;

/// The fragments of a job being created or replacing another.
#[derive(Clone, Debug)]
pub struct StreamJobFragments {
    pub fragments: Vec<InflightFragmentInfo>,
    /// Edges among the job's own fragments.
    pub downstreams: FragmentRelations,
}

/// The plan of a job that replaces another.
#[derive(Clone, Debug)]
pub struct ReplaceStreamJobPlan {
    /// Edges from upstream fragments into the new fragments.
    pub upstream_fragment_downstreams: FragmentRelations,
    pub new_fragments: StreamJobFragments,
    /// For each downstream fragment: old upstream fragment id to new one.
    pub replace_upstream: Vec<(FragmentId, Vec<(FragmentId, FragmentId)>)>,
    /// New fragments of sinks whose schema is refreshed along with the job.
    pub auto_refresh_schema_sinks: Option<Vec<InflightFragmentInfo>>,
}

/// A job being created.
#[derive(Clone, Debug)]
pub struct CreateStreamingJobCommandInfo {
    /// Edges from existing upstream fragments into the new job.
    pub upstream_fragment_downstreams: FragmentRelations,
    pub stream_job_fragments: StreamJobFragments,
}

#[derive(Clone, Debug)]
pub enum CreateStreamingJobType {
    Normal,
    SinkIntoTable(ReplaceStreamJobPlan),
    SnapshotBackfill,
}

/// A barrier command.
#[derive(Clone, Debug)]
pub enum Command {
    Flush,
    Pause,
    Resume,
    SourceChangeSplit,
    Throttle,
    ConnectorPropsChange,
    MergeSnapshotBackfillStreamingJobs,
    StartFragmentBackfill,
    DropStreamingJobs,
    RescheduleFragment,
    CreateStreamingJob { info: CreateStreamingJobCommandInfo, job_type: CreateStreamingJobType },
    ReplaceStreamJob(ReplaceStreamJobPlan),
    CreateSubscription {
        subscription_id: SubscriptionId,
        upstream_mv_table_id: TableId,
        retention_second: u64,
    },
    DropSubscription { subscription_id: SubscriptionId, upstream_mv_table_id: TableId },
}

/// Whether a barrier only initialises, or also checkpoints.
#[derive(Clone, Copy, Debug, PartialEq, Eq, Structural)]
pub enum BarrierKind {
    Initial,
    Barrier,
    Checkpoint,
}

/// The epochs a barrier closes and opens.
#[derive(Clone, Copy, Debug)]
pub struct BarrierInfo {
    pub prev_epoch: u64,
    pub curr_epoch: u64,
    pub kind: BarrierKind,
}

impl BarrierInfo {
    pub fn prev_epoch(&self) -> (r: u64)
        ensures
            r == self.prev_epoch,
    {
        self.prev_epoch
    }
}

} // verus!
