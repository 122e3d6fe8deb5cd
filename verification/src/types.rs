//! The problem's data: the processing graph, packets, the machine's input
//! parameters, and the two-sided duration estimate used by the schedulers.
use vstd::prelude::*;

verus! {

pub const N_SUBTASK: usize = 5;

pub const N_PACKET_TYPE: usize = 7;

pub const N_NODE: usize = 20;

pub const N_SPECIAL: usize = 8;

/// The node whose cost depends on the works of each packet (0-indexed).
pub const SPECIAL_NODE_ID: usize = 7;

pub const MAX_T: i64 = 10_000_000;

pub const LAST_PACKET_T: i64 = 5_000_000;

/// Sum of the costs of all special works: the most a packet can pay at the special node.
pub const SPECIAL_COST_SUM: i64 = 160;

/// Nodes that process their packets one by one.
pub const CHUNK_NODES: [usize; 4] = [11, 13, 15, 18];

/// Largest cost of one node call, one special work, one core switch or one receive.
pub const MAX_COST: i64 = 1_000_000;

/// Longest path of a packet type.
pub const MAX_PATH_LEN: usize = 1000;

/// Largest batch a node accepts in one call.
pub const MAX_NODE_BATCH: usize = 1000;

/// Largest number of packets of one subtask.
pub const MAX_PACKETS: usize = 1_000_000;

/// Largest number of cores.
pub const MAX_CORES: usize = 1000;

/// Bound on every time stamp and deadline the schedulers handle.
pub const MAX_TIME: i64 = 1_000_000_000_000_000;

#[derive(Debug, Clone)]
pub struct PacketPath {
    /// length of path
    pub l: usize,
    /// computation path of nodes in order
    pub path: Vec<usize>,
}

#[derive(Debug, Clone)]
pub struct Node {
    /// costs[j] := cost to process j packets
    pub costs: Vec<i64>,
}

#[derive(Debug, Clone)]
pub struct Graph {
    pub paths: Vec<PacketPath>,
    pub nodes: Vec<Node>,
    pub special_costs: Vec<i64>,
}

#[derive(Debug, Clone, Copy)]
pub struct Packet {
    pub i: usize,
    pub arrive: i64,
    pub packet_type: usize,
    pub timeout: i64,
    pub time_limit: i64,
    pub received_t: i64,
}

#[derive(Copy, Clone, Debug)]
pub struct PacketStatus {
    pub id: usize,
    pub is_advanced: bool,
    pub is_switching_core: bool,
}

#[derive(Debug, Clone, Copy)]
pub struct PacketHistory {
    pub start_t: i64,
    pub end_t: i64,
    pub core_id: usize,
}

#[derive(Debug, Clone, Copy)]
pub struct Input {
    pub n_cores: usize,
    pub cost_switch: i64,
    pub cost_r: i64,
}

#[derive(Debug, Clone, Copy)]
pub struct TaskLog {
    pub core_id: usize,
    pub start_t: i64,
    pub end_t: i64,
    pub node_id: usize,
    pub batch_size: usize,
    pub packet_type: usize,
    pub path_index: usize,
}

/// A duration whose exact value is `fixed` plus the special works of
/// `special_node_count` packet visits of the special node, which are not known yet.
#[derive(Debug, Clone, Copy)]
pub struct Duration {
    pub fixed: i64,
    pub special_node_count: i64,
}

/// A path of a packet type: between one and `MAX_PATH_LEN` nodes, each a node of the graph.
pub open spec fn path_wf(p: PacketPath) -> bool {
    &&& 1 <= p.path@.len() <= MAX_PATH_LEN
    &&& p.l == p.path@.len()
    &&& forall|k: int| 0 <= k < p.path@.len() ==> #[trigger] p.path@[k] < N_NODE
}

/// A node: a cost for each batch size from 0 to its largest batch (at least 1).
pub open spec fn node_wf(n: Node) -> bool {
    &&& 2 <= n.costs@.len() <= MAX_NODE_BATCH + 1
    &&& forall|k: int| 0 <= k < n.costs@.len() ==> 0 <= #[trigger] n.costs@[k] <= MAX_COST
}

impl Graph {
    /// The shape the problem guarantees: a path per packet type, a cost table
    /// per node, a cost per special work, all costs within `MAX_COST`.
    pub open spec fn wf(&self) -> bool {
        &&& self.paths@.len() == N_PACKET_TYPE
        &&& self.nodes@.len() == N_NODE
        &&& self.special_costs@.len() == N_SPECIAL
        &&& forall|t: int| 0 <= t < N_PACKET_TYPE ==> path_wf(#[trigger] self.paths@[t])
        &&& forall|v: int| 0 <= v < N_NODE ==> node_wf(#[trigger] self.nodes@[v])
        &&& forall|j: int|
            0 <= j < N_SPECIAL ==> 0 <= #[trigger] self.special_costs@[j] <= MAX_COST
    }

    /// The node at position `k` of the path of `packet_type`.
    pub open spec fn node_at(&self, packet_type: int, k: int) -> usize {
        self.paths@[packet_type].path@[k]
    }

    /// The path length of `packet_type`.
    pub open spec fn path_len(&self, packet_type: int) -> int {
        self.paths@[packet_type].path@.len() as int
    }

    /// The cost of node `v` for a batch of `s` packets.
    pub open spec fn cost(&self, v: int, s: int) -> int {
        self.nodes@[v].costs@[s] as int
    }

    /// The largest batch node `v` accepts.
    pub open spec fn max_batch(&self, v: int) -> int {
        self.nodes@[v].costs@.len() - 1
    }
}

impl Input {
    pub open spec fn wf(&self) -> bool {
        &&& 1 <= self.n_cores <= MAX_CORES
        &&& 0 <= self.cost_switch <= MAX_COST
        &&& 0 <= self.cost_r <= MAX_COST
    }
}

impl Packet {
    /// A packet of a subtask of `n` packets, with times within `MAX_TIME`.
    pub open spec fn wf(&self, n: nat) -> bool {
        &&& self.i < n
        &&& self.packet_type < N_PACKET_TYPE
        &&& -MAX_TIME <= self.arrive <= MAX_TIME
        &&& -MAX_TIME <= self.timeout <= MAX_TIME
        &&& -MAX_TIME <= self.time_limit <= MAX_TIME
        &&& -MAX_TIME <= self.received_t <= MAX_TIME
    }
}

impl Duration {
    pub open spec fn spec_upper_bound(&self) -> int {
        self.fixed + self.special_node_count * SPECIAL_COST_SUM
    }

    /// The point four fifths of the way from the lower to the upper bound.
    pub open spec fn spec_estimate(&self) -> int {
        self.fixed + (self.spec_upper_bound() - self.fixed) * 4 / 5
    }

    pub fn new(fixed: i64, special_node_count: i64) -> (d: Self)
        ensures
            d.fixed == fixed,
            d.special_node_count == special_node_count,
    {
        Self { fixed, special_node_count }
    }

    pub fn add(&mut self, other: &Duration)
        requires
            i64::MIN <= old(self).fixed + other.fixed <= i64::MAX,
            i64::MIN <= old(self).special_node_count + other.special_node_count <= i64::MAX,
        ensures
            final(self).fixed == old(self).fixed + other.fixed,
            final(self).special_node_count == old(self).special_node_count
                + other.special_node_count,
    {
        self.fixed = self.fixed + other.fixed;
        self.special_node_count = self.special_node_count + other.special_node_count;
    }

    pub fn lower_bound(&self) -> (r: i64)
        ensures
            r == self.fixed,
    {
        self.fixed
    }

    pub fn upper_bound(&self) -> (r: i64)
        requires
            i64::MIN <= self.special_node_count * SPECIAL_COST_SUM <= i64::MAX,
            i64::MIN <= self.spec_upper_bound() <= i64::MAX,
        ensures
            r == self.spec_upper_bound(),
    {
        assert(self.special_node_count * SPECIAL_COST_SUM == self.special_node_count * 160);
        let x: i64 = self.special_node_count * SPECIAL_COST_SUM;
        self.fixed + x
    }

    /// A point estimate: four fifths of the way from the lower bound to the upper bound.
    /// The spread is a whole multiple of 160, so the estimate is an exact integer.
    pub fn estimate(&self) -> (r: i64)
        requires
            i64::MIN <= self.special_node_count * SPECIAL_COST_SUM <= i64::MAX,
            i64::MIN <= self.spec_upper_bound() <= i64::MAX,
        ensures
            r == self.spec_estimate(),
            r == self.fixed + 128 * self.special_node_count,
    {
        assert(self.special_node_count * SPECIAL_COST_SUM * 4 / 5 == 128
            * self.special_node_count) by (nonlinear_arith);
        assert(i64::MIN <= self.fixed + 128 * self.special_node_count <= i64::MAX
            && i64::MIN <= 128 * self.special_node_count <= i64::MAX) by (nonlinear_arith)
            requires
                i64::MIN <= self.fixed + self.special_node_count * 160 <= i64::MAX,
                i64::MIN <= self.special_node_count * 160 <= i64::MAX,
        ;
        let x: i64 = 128 * self.special_node_count;
        self.fixed + x
    }
}

/// `a` and `b` hold the same paths, node costs and special costs.
pub open spec fn same_graph(a: Graph, b: Graph) -> bool {
    &&& a.paths@.len() == b.paths@.len()
    &&& a.nodes@.len() == b.nodes@.len()
    &&& a.special_costs@ == b.special_costs@
    &&& forall|t: int|
        0 <= t < a.paths@.len() ==> (#[trigger] a.paths@[t]).l == b.paths@[t].l && a.paths@[t].path@
            == b.paths@[t].path@
    &&& forall|v: int| 0 <= v < a.nodes@.len() ==> (#[trigger] a.nodes@[v]).costs@ == b.nodes@[v].costs@
}

/// A copy of a graph.
pub fn clone_graph(g: &Graph) -> (r: Graph)
    ensures
        same_graph(r, *g),
{
    let mut paths: Vec<PacketPath> = Vec::with_capacity(g.paths.len());
    let mut t: usize = 0;
    while t < g.paths.len()
        invariant
            t <= g.paths@.len(),
            paths@.len() == t,
            forall|k: int| 0 <= k < t ==> (#[trigger] paths@[k]).l == g.paths@[k].l && paths@[k].path@ == g.paths@[k].path@,
        decreases g.paths@.len() - t,
    {
        let p = &g.paths[t];
        paths.push(PacketPath { l: p.l, path: vstd::slice::slice_to_vec(p.path.as_slice()) });
        t = t + 1;
    }
    let mut nodes: Vec<Node> = Vec::with_capacity(g.nodes.len());
    let mut v: usize = 0;
    while v < g.nodes.len()
        invariant
            v <= g.nodes@.len(),
            nodes@.len() == v,
            forall|k: int| 0 <= k < v ==> (#[trigger] nodes@[k]).costs@ == g.nodes@[k].costs@,
        decreases g.nodes@.len() - v,
    {
        nodes.push(Node { costs: vstd::slice::slice_to_vec(g.nodes[v].costs.as_slice()) });
        v = v + 1;
    }
    Graph { paths, nodes, special_costs: vstd::slice::slice_to_vec(g.special_costs.as_slice()) }
}

} // verus!
