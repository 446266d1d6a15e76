//! The records that the aggregation hands to its consumers. Times and
//! durations are in nanoseconds.
use vstd::prelude::*;

verus! {

/// The whole program, summed over its workers.
#[derive(Clone, Copy, Debug, PartialEq, Eq, PartialOrd, Ord, Hash, Default)]
pub struct ProgramStats {
    pub workers: usize,
    pub dataflows: usize,
    pub operators: usize,
    pub subgraphs: usize,
    pub channels: usize,
    pub arrangements: usize,
    pub events: usize,
    pub runtime: u64,
}

/// One worker of the observed program.
#[derive(Clone, Debug, PartialEq, Eq, PartialOrd, Ord, Hash, Default)]
pub struct WorkerStats {
    pub id: u64,
    pub dataflows: usize,
    pub operators: usize,
    pub subgraphs: usize,
    pub channels: usize,
    pub arrangements: usize,
    pub events: usize,
    pub runtime: u64,
    pub dataflow_addrs: Vec<Vec<u64>>,
}

/// The time at which something was created and the time it was dropped.
#[derive(Clone, Copy, Debug, PartialEq, Eq, PartialOrd, Ord, Hash, Default)]
pub struct Lifespan {
    pub birth: u64,
    pub death: u64,
}

impl Lifespan {
    pub open spec fn wf(&self) -> bool {
        self.birth <= self.death
    }

    pub fn new(birth: u64, death: u64) -> (l: Lifespan)
        requires
            birth <= death,
        ensures
            l.wf(),
            l.birth == birth,
            l.death == death,
    {
        Lifespan { birth, death }
    }

    /// How long it lived.
    pub fn duration(&self) -> (d: u64)
        requires
            self.wf(),
        ensures
            d == self.death - self.birth,
    {
        self.death - self.birth
    }
}

/// One top-level dataflow of a worker.
#[derive(Clone, Debug, PartialEq, Eq, PartialOrd, Ord, Hash, Default)]
pub struct DataflowStats {
    pub id: u64,
    pub addr: Vec<u64>,
    pub worker: u64,
    pub nodes: usize,
    pub operators: usize,
    pub subgraphs: usize,
    pub channels: usize,
    pub lifespan: Lifespan,
}

#[derive(Clone, Copy, Debug, PartialEq, Eq, PartialOrd, Ord, Hash)]
pub enum NodeKind {
    Operator,
    Subgraph,
    Dataflow,
}

impl Default for NodeKind {
    fn default() -> (k: NodeKind)
        ensures
            k == NodeKind::Operator,
    {
        NodeKind::Operator
    }
}

/// How often an operator ran and for how long.
#[derive(Clone, Debug, PartialEq, Eq, PartialOrd, Ord, Hash, Default)]
pub struct ActivationStats {
    pub activations: usize,
    pub max: u64,
    pub min: u64,
    pub average: u64,
    pub data_points: Vec<u64>,
}

/// One operator, subgraph or dataflow of a worker.
#[derive(Clone, Debug, PartialEq, Eq, PartialOrd, Ord, Hash, Default)]
pub struct NodeStats {
    pub id: u64,
    pub addr: Vec<u64>,
    pub worker: u64,
    pub name: String,
    pub inputs: Vec<u64>,
    pub outputs: Vec<u64>,
    pub lifespan: Lifespan,
    pub kind: NodeKind,
    pub activations: ActivationStats,
}

#[derive(Clone, Copy, Debug, PartialEq, Eq, PartialOrd, Ord, Hash)]
pub enum ChannelKind {
    Ingress,
    Egress,
    Normal,
}

impl Default for ChannelKind {
    fn default() -> (k: ChannelKind)
        ensures
            k == ChannelKind::Normal,
    {
        ChannelKind::Normal
    }
}

/// One channel between two operators of a worker.
#[derive(Clone, Debug, PartialEq, Eq, PartialOrd, Ord, Hash, Default)]
pub struct ChannelStats {
    pub id: u64,
    pub addr: Vec<u64>,
    pub worker: u64,
    pub source_node: u64,
    pub dest_node: u64,
    pub kind: ChannelKind,
    pub lifespan: Lifespan,
}

/// Everything the aggregation reports, by worker and by dataflow.
#[derive(Clone, Debug, PartialEq, Eq, PartialOrd, Ord, Hash, Default)]
pub struct DDShowStats {
    pub program: ProgramStats,
    pub workers: Vec<(u64, WorkerStats)>,
    pub dataflows: Vec<(u64, DataflowStats)>,
    pub nodes: Vec<NodeStats>,
    pub channels: Vec<ChannelStats>,
    pub differential_enabled: bool,
}

/// A span of work of one worker, placed on the timeline.
#[derive(Clone, Debug, PartialEq, Eq, PartialOrd, Ord, Hash, Default)]
pub struct WorkerTimelineEvent {
    pub worker: u64,
    pub event: String,
    pub start_time: u64,
    pub duration: u64,
}

/// What the graph page is drawn from.
#[derive(Clone, Debug, PartialEq, PartialOrd)]
pub struct GraphData {
    pub nodes: Vec<Node>,
    pub subgraphs: Vec<Subgraph>,
    pub edges: Vec<Edge>,
    pub palette_colors: Vec<String>,
    pub timeline_events: Vec<WorkerTimelineEvent>,
}

#[derive(Clone, Debug, PartialEq, PartialOrd)]
pub struct Node {
    pub id: usize,
    pub worker: u64,
    pub addr: Vec<u64>,
    pub name: String,
    pub max_activation_time: String,
    pub min_activation_time: String,
    pub average_activation_time: String,
    pub total_activation_time: String,
    pub invocations: usize,
    pub fill_color: String,
    pub text_color: String,
    pub activation_durations: Vec<ActivationDuration>,
    pub max_arrangement_size: Option<usize>,
    pub min_arrangement_size: Option<usize>,
}

#[derive(Clone, Copy, Debug, PartialEq, PartialOrd)]
pub struct ActivationDuration {
    pub activation_time: u64,
    pub activated_at: u64,
}

#[derive(Clone, Debug, PartialEq, PartialOrd)]
pub struct Subgraph {
    pub id: usize,
    pub worker: u64,
    pub addr: Vec<u64>,
    pub name: String,
    pub max_activation_time: String,
    pub min_activation_time: String,
    pub average_activation_time: String,
    pub total_activation_time: String,
    pub invocations: usize,
    pub fill_color: String,
    pub text_color: String,
}

#[derive(Clone, Debug, PartialEq, Eq, PartialOrd, Ord, Hash)]
pub struct Edge {
    pub src: Vec<u64>,
    pub dest: Vec<u64>,
    pub worker: u64,
    pub channel_id: usize,
    pub edge_kind: EdgeKind,
}

#[derive(Clone, Copy, Debug, PartialEq, Eq, PartialOrd, Ord, Hash)]
pub enum EdgeKind {
    Normal,
    Crossing,
}

} // verus!
