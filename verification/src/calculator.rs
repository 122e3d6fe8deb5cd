//! Duration estimates: what it costs to carry a batch along (the rest of) its
//! path, with the special node's works counted apart while they are unknown.
use vstd::prelude::*;

use crate::greedy::{special_cost_ok, State, Task};
use crate::types::{PacketStatus, path_wf, node_wf, Duration, Graph, Input, MAX_COST, MAX_PACKETS, MAX_PATH_LEN, N_NODE, N_PACKET_TYPE, N_SPECIAL, SPECIAL_NODE_ID};

verus! {

/// Largest batch size the duration table covers.
pub const MAX_TABLE_BATCH: usize = 128;

/// Cost of node `v` for `s` packets: as many full batches as fit, then the rest.
pub open spec fn node_batch_cost(graph: Graph, v: int, s: int) -> int {
    let mb = graph.max_batch(v);
    graph.cost(v, mb) * (s / mb) + graph.cost(v, s % mb)
}

/// Sum of `node_batch_cost` over the nodes at positions `k..` of the path of `t`.
pub open spec fn path_fixed_from(graph: Graph, t: int, s: int, k: int) -> int
    decreases graph.path_len(t) - k,
{
    if k >= graph.path_len(t) || k < 0 {
        0
    } else {
        node_batch_cost(graph, graph.node_at(t, k) as int, s) + path_fixed_from(graph, t, s, k + 1)
    }
}

/// How many of the positions `k..` of the path of `t` are the special node.
pub open spec fn special_visits_from(graph: Graph, t: int, k: int) -> int
    decreases graph.path_len(t) - k,
{
    if k >= graph.path_len(t) || k < 0 {
        0
    } else {
        (if graph.node_at(t, k) == SPECIAL_NODE_ID {
            1int
        } else {
            0int
        }) + special_visits_from(graph, t, k + 1)
    }
}

/// The fixed part of carrying `s` packets of type `t` from position `from` to
/// the end of the path; a batch that starts at position 0 first moves off core 0.
pub open spec fn path_duration_fixed(input: Input, graph: Graph, t: int, s: int, from: int) -> int {
    (if from == 0 {
        s * input.cost_switch
    } else {
        0
    }) + path_fixed_from(graph, t, s, from)
}

/// The special node visits of the same journey: each of the `s` packets at each visit.
pub open spec fn path_duration_special(graph: Graph, t: int, s: int, from: int) -> int {
    s * special_visits_from(graph, t, from)
}

/// Bound on the fixed part of any duration the calculator gives.
pub const DUR_FIXED_BOUND: i64 = 100_000_000_000_000_000;

/// Bound on the special part of any duration the calculator gives.
pub const DUR_SPECIAL_BOUND: i64 = 10_000_000_000;

pub open spec fn duration_bounded(d: Duration) -> bool {
    &&& 0 <= d.fixed <= DUR_FIXED_BOUND
    &&& 0 <= d.special_node_count <= DUR_SPECIAL_BOUND
}

proof fn lemma_node_batch_cost_bounds(graph: Graph, v: int, s: int)
    requires
        graph.wf(),
        0 <= v < N_NODE,
        0 <= s,
    ensures
        0 <= node_batch_cost(graph, v, s) <= MAX_COST * (s + 1),
{
    let mb = graph.max_batch(v);
    assert(node_wf(graph.nodes@[v]));
    let c1 = graph.cost(v, mb);
    let c2 = graph.cost(v, s % mb);
    assert(0 <= s % mb < mb);
    assert(0 <= c1 <= MAX_COST);
    assert(0 <= c2 <= MAX_COST);
    assert(0 <= s / mb <= s) by (nonlinear_arith)
        requires
            mb >= 1,
            s >= 0,
    ;
    assert(0 <= c1 * (s / mb) <= MAX_COST * s) by (nonlinear_arith)
        requires
            0 <= c1 <= MAX_COST,
            0 <= s / mb <= s,
    ;
}

proof fn lemma_path_fixed_bounds(graph: Graph, t: int, s: int, k: int)
    requires
        graph.wf(),
        0 <= t < N_PACKET_TYPE,
        0 <= s,
        0 <= k,
    ensures
        0 <= path_fixed_from(graph, t, s, k) <= (if k <= graph.path_len(t) {
            graph.path_len(t) - k
        } else {
            0
        }) * (MAX_COST * (s + 1)),
    decreases graph.path_len(t) - k,
{
    assert(path_wf(graph.paths@[t]));
    if k < graph.path_len(t) {
        lemma_path_fixed_bounds(graph, t, s, k + 1);
        let v = graph.node_at(t, k) as int;
        lemma_node_batch_cost_bounds(graph, v, s);
        let b = MAX_COST * (s + 1);
        let r = graph.path_len(t) - k;
        assert((r - 1) * b + b == r * b) by (nonlinear_arith);
    }
}

proof fn lemma_special_visits_bounds(graph: Graph, t: int, k: int)
    requires
        graph.wf(),
        0 <= t < N_PACKET_TYPE,
        0 <= k,
    ensures
        0 <= special_visits_from(graph, t, k) <= MAX_PATH_LEN,
        k <= graph.path_len(t) ==> special_visits_from(graph, t, k) <= graph.path_len(t) - k,
    decreases graph.path_len(t) - k,
{
    assert(path_wf(graph.paths@[t]));
    if k < graph.path_len(t) {
        lemma_special_visits_bounds(graph, t, k + 1);
    }
}

pub struct DurationCalculator {
    /// path_durations[packet_type][batch_size][from_path_index]
    path_durations: Vec<Vec<Vec<Duration>>>,
}

impl DurationCalculator {
    /// The table's entry for a packet type, batch size and starting position.
    pub closed spec fn entry(&self, t: int, b: int, f: int) -> Duration {
        self.path_durations@[t]@[b]@[f]
    }

    /// The starting positions the table covers go up to this one.
    pub closed spec fn max_from(&self) -> int {
        self.path_durations@[0]@[0]@.len() - 1
    }

    pub closed spec fn wf(&self) -> bool {
        &&& self.path_durations@.len() == N_PACKET_TYPE
        &&& forall|t: int|
            0 <= t < N_PACKET_TYPE ==> #[trigger] self.path_durations@[t]@.len()
                == MAX_TABLE_BATCH + 1
        &&& forall|t: int, b: int|
            0 <= t < N_PACKET_TYPE && 0 <= b <= MAX_TABLE_BATCH ==> #[trigger] self.path_durations@[t]@[b]@.len()
                == self.max_from() + 1
        &&& self.max_from() >= 0
    }

    /// The table holds, for each packet type, each batch size from 1 to
    /// `MAX_TABLE_BATCH` and each position on the path, the duration of that
    /// journey; its other entries are zero.
    pub open spec fn describes(&self, input: Input, graph: Graph) -> bool {
        &&& self.wf()
        &&& forall|t: int| 0 <= t < N_PACKET_TYPE ==> #[trigger] graph.path_len(t) <= self.max_from()
        &&& forall|t: int, b: int, f: int|
            0 <= t < N_PACKET_TYPE && 0 <= b <= MAX_TABLE_BATCH && 0 <= f <= self.max_from()
                ==> duration_bounded(#[trigger] self.entry(t, b, f))
        &&& forall|t: int, b: int, f: int|
            0 <= t < N_PACKET_TYPE && 0 <= b <= MAX_TABLE_BATCH && 0 <= f <= self.max_from()
                ==> {
                let d = #[trigger] self.entry(t, b, f);
                if 1 <= b && f <= graph.path_len(t) {
                    d.fixed == path_duration_fixed(input, graph, t, b, f)
                        && d.special_node_count == path_duration_special(graph, t, b, f)
                } else {
                    d.fixed == 0 && d.special_node_count == 0
                }
            }
    }

    pub fn new(input: &Input, graph: &Graph) -> (calc: Self)
        requires
            input.wf(),
            graph.wf(),
        ensures
            calc.describes(*input, *graph),
            exists|t: int| 0 <= t < N_PACKET_TYPE && #[trigger] graph.path_len(t) == calc.max_from(),
    {
        let mut max_path_length: usize = 0;
        let mut t: usize = 0;
        while t < N_PACKET_TYPE
            invariant
                graph.wf(),
                t <= N_PACKET_TYPE,
                max_path_length <= MAX_PATH_LEN,
                forall|u: int| 0 <= u < t ==> #[trigger] graph.path_len(u) <= max_path_length,
                t > 0 ==> exists|u: int| 0 <= u < t && #[trigger] graph.path_len(u) == max_path_length,
                t == 0 ==> max_path_length == 0,
            decreases N_PACKET_TYPE - t,
        {
            assert(path_wf(graph.paths@[t as int]));
            let len = graph.paths[t].path.len();
            assert(graph.path_len(t as int) == len);
            let ghost m0 = max_path_length;
            if len > max_path_length {
                max_path_length = len;
            }
            proof {
                if len > m0 {
                    assert(graph.path_len(t as int) == max_path_length);
                } else {
                    assert(t > 0);
                    let u = choose|u: int| 0 <= u < t && #[trigger] graph.path_len(u) == m0;
                    assert(graph.path_len(u) == max_path_length);
                }
            }
            t = t + 1;
        }
        let mut path_durations: Vec<Vec<Vec<Duration>>> = Vec::new();
        let mut packet_type: usize = 0;
        while packet_type < N_PACKET_TYPE
            invariant
                input.wf(),
                graph.wf(),
                packet_type <= N_PACKET_TYPE,
                max_path_length <= MAX_PATH_LEN,
                forall|u: int| 0 <= u < N_PACKET_TYPE ==> #[trigger] graph.path_len(u) <= max_path_length,
                path_durations@.len() == packet_type,
                forall|u: int|
                    0 <= u < packet_type ==> table_row_ok(
                        #[trigger] path_durations@[u]@,
                        *input,
                        *graph,
                        u,
                        max_path_length as int,
                    ),
            decreases N_PACKET_TYPE - packet_type,
        {
            let mut by_batch: Vec<Vec<Duration>> = Vec::new();
            let mut batch_size: usize = 0;
            while batch_size <= MAX_TABLE_BATCH
                invariant
                    input.wf(),
                    graph.wf(),
                    packet_type < N_PACKET_TYPE,
                    batch_size <= MAX_TABLE_BATCH + 1,
                    max_path_length <= MAX_PATH_LEN,
                    graph.path_len(packet_type as int) <= max_path_length,
                    by_batch@.len() == batch_size,
                    forall|b: int|
                        0 <= b < batch_size ==> table_cell_ok(
                            #[trigger] by_batch@[b]@,
                            *input,
                            *graph,
                            packet_type as int,
                            b,
                            max_path_length as int,
                        ),
                decreases MAX_TABLE_BATCH + 1 - batch_size,
            {
                let mut by_from: Vec<Duration> = Vec::new();
                let mut from: usize = 0;
                while from <= max_path_length
                    invariant
                        input.wf(),
                        graph.wf(),
                        packet_type < N_PACKET_TYPE,
                        batch_size <= MAX_TABLE_BATCH,
                        max_path_length <= MAX_PATH_LEN,
                        graph.path_len(packet_type as int) <= max_path_length,
                        from <= max_path_length + 1,
                        by_from@.len() == from,
                        forall|f: int|
                            0 <= f < from ==> entry_ok(
                                #[trigger] by_from@[f],
                                *input,
                                *graph,
                                packet_type as int,
                                batch_size as int,
                                f,
                            ),
                    decreases max_path_length + 1 - from,
                {
                    if batch_size >= 1 && from <= graph.paths[packet_type].path.len() {
                        let d = DurationCalculator::calculate_path_duration(
                            packet_type,
                            batch_size,
                            from,
                            input,
                            graph,
                        );
                        by_from.push(d);
                    } else {
                        by_from.push(Duration::new(0, 0));
                    }
                    from = from + 1;
                }
                by_batch.push(by_from);
                batch_size = batch_size + 1;
            }
            path_durations.push(by_batch);
            packet_type = packet_type + 1;
        }
        let calc = Self { path_durations };
        proof {
            assert(table_row_ok(calc.path_durations@[0]@, *input, *graph, 0, max_path_length as int));
            assert(calc.path_durations@[0]@[0]@.len() == max_path_length + 1);
            assert forall|t: int, b: int, f: int|
                0 <= t < N_PACKET_TYPE && 0 <= b <= MAX_TABLE_BATCH && 0 <= f <= calc.max_from()
                    implies {
                let d = #[trigger] calc.entry(t, b, f);
                if 1 <= b && f <= graph.path_len(t) {
                    d.fixed == path_duration_fixed(*input, *graph, t, b, f)
                        && d.special_node_count == path_duration_special(*graph, t, b, f)
                } else {
                    d.fixed == 0 && d.special_node_count == 0
                }
            } by {
                assert(table_row_ok(calc.path_durations@[t]@, *input, *graph, t, max_path_length as int));
                assert(table_cell_ok(calc.path_durations@[t]@[b]@, *input, *graph, t, b, max_path_length as int));
                assert(entry_ok(calc.path_durations@[t]@[b]@[f], *input, *graph, t, b, f));
            }
            assert forall|t: int, b: int, f: int|
                0 <= t < N_PACKET_TYPE && 0 <= b <= MAX_TABLE_BATCH && 0 <= f <= calc.max_from()
                    implies duration_bounded(#[trigger] calc.entry(t, b, f)) by {
                assert(table_row_ok(calc.path_durations@[t]@, *input, *graph, t, max_path_length as int));
                assert(table_cell_ok(calc.path_durations@[t]@[b]@, *input, *graph, t, b, max_path_length as int));
                assert(entry_ok(calc.path_durations@[t]@[b]@[f], *input, *graph, t, b, f));
            }
            assert forall|t: int, b: int|
                0 <= t < N_PACKET_TYPE && 0 <= b <= MAX_TABLE_BATCH implies #[trigger] calc.path_durations@[t]@[b]@.len()
                    == calc.max_from() + 1 by {
                assert(table_row_ok(calc.path_durations@[t]@, *input, *graph, t, max_path_length as int));
                assert(table_cell_ok(calc.path_durations@[t]@[b]@, *input, *graph, t, b, max_path_length as int));
            }
            assert forall|t: int| 0 <= t < N_PACKET_TYPE implies #[trigger] calc.path_durations@[t]@.len()
                == MAX_TABLE_BATCH + 1 by {
                assert(table_row_ok(calc.path_durations@[t]@, *input, *graph, t, max_path_length as int));
            }
        }
        calc
    }

    pub proof fn lemma_wf(&self)
        requires
            self.wf(),
        ensures
            self.max_from() >= 0,
    {
    }

    pub fn get_path_duration(&self, packet_type: usize, batch_size: usize, from_path_index: usize) -> (d:
        Duration)
        requires
            self.wf(),
            packet_type < N_PACKET_TYPE,
            batch_size <= MAX_TABLE_BATCH,
            from_path_index <= self.max_from(),
        ensures
            d == self.entry(packet_type as int, batch_size as int, from_path_index as int),
    {
        self.path_durations[packet_type][batch_size][from_path_index]
    }

    /// The duration of carrying `batch_size` packets of `packet_type` from
    /// position `from_path_index` to the end of their path.
    pub fn calculate_path_duration(
        packet_type: usize,
        batch_size: usize,
        from_path_index: usize,
        input: &Input,
        graph: &Graph,
    ) -> (d: Duration)
        requires
            input.wf(),
            graph.wf(),
            packet_type < N_PACKET_TYPE,
            batch_size <= MAX_PACKETS,
            from_path_index <= graph.path_len(packet_type as int),
        ensures
            d.fixed == path_duration_fixed(
                *input,
                *graph,
                packet_type as int,
                batch_size as int,
                from_path_index as int,
            ),
            d.special_node_count == path_duration_special(
                *graph,
                packet_type as int,
                batch_size as int,
                from_path_index as int,
            ),
            duration_bounded(d),
    {
        let ghost t = packet_type as int;
        let ghost s = batch_size as int;
        let mut ret = Duration::new(0, 0);
        proof {
            assert(path_wf(graph.paths@[t]));
            assert(0 <= s * input.cost_switch <= MAX_PACKETS * MAX_COST) by (nonlinear_arith)
                requires
                    0 <= s <= MAX_PACKETS,
                    0 <= input.cost_switch <= MAX_COST,
            ;
            lemma_path_fixed_bounds(*graph, t, s, from_path_index as int);
            lemma_special_visits_bounds(*graph, t, from_path_index as int);
            assert((graph.path_len(t) - from_path_index) * (MAX_COST * (s + 1)) <= MAX_PATH_LEN * (
            MAX_COST * (MAX_PACKETS + 1))) by (nonlinear_arith)
                requires
                    0 <= graph.path_len(t) - from_path_index <= MAX_PATH_LEN,
                    0 <= s <= MAX_PACKETS,
            ;
            assert(s * special_visits_from(*graph, t, from_path_index as int) <= MAX_PACKETS
                * MAX_PATH_LEN) by (nonlinear_arith)
                requires
                    0 <= s <= MAX_PACKETS,
                    0 <= special_visits_from(*graph, t, from_path_index as int) <= MAX_PATH_LEN,
            ;
            assert(s * special_visits_from(*graph, t, from_path_index as int) >= 0) by (
            nonlinear_arith)
                requires
                    0 <= s,
                    0 <= special_visits_from(*graph, t, from_path_index as int),
            ;
        }
        let ghost init: int = if from_path_index == 0 {
            s * input.cost_switch
        } else {
            0
        };
        if from_path_index == 0 {
            ret.fixed = ret.fixed + batch_size as i64 * input.cost_switch;
        }
        let path = &graph.paths[packet_type].path;
        let mut k: usize = from_path_index;
        while k < path.len()
            invariant
                graph.wf(),
                input.wf(),
                0 <= t < N_PACKET_TYPE,
                packet_type == t,
                batch_size == s,
                0 <= s <= MAX_PACKETS,
                *path == graph.paths@[t].path,
                from_path_index <= k <= path@.len(),
                path@.len() == graph.path_len(t),
                ret.fixed + path_fixed_from(*graph, t, s, k as int) == init + path_fixed_from(
                    *graph,
                    t,
                    s,
                    from_path_index as int,
                ),
                ret.special_node_count + s * special_visits_from(*graph, t, k as int) == s
                    * special_visits_from(*graph, t, from_path_index as int),
                0 <= init <= MAX_PACKETS * MAX_COST,
                0 <= path_fixed_from(*graph, t, s, from_path_index as int) <= MAX_PATH_LEN * (
                MAX_COST * (MAX_PACKETS + 1)),
                0 <= s * special_visits_from(*graph, t, from_path_index as int) <= MAX_PACKETS
                    * MAX_PATH_LEN,
                0 <= ret.fixed,
                0 <= ret.special_node_count,
            decreases path@.len() - k,
        {
            let node_id = path[k];
            proof {
                assert(path_wf(graph.paths@[t]));
                assert(node_id < N_NODE);
                assert(node_wf(graph.nodes@[node_id as int]));
                lemma_path_fixed_bounds(*graph, t, s, k as int + 1);
                lemma_special_visits_bounds(*graph, t, k as int + 1);
                lemma_node_batch_cost_bounds(*graph, node_id as int, s);
            }
            let costs = &graph.nodes[node_id].costs;
            let max_batch_size = costs.len() - 1;
            let full_chunk_count = batch_size / max_batch_size;
            let remainder = batch_size % max_batch_size;
            proof {
                let c1 = costs@[max_batch_size as int];
                assert(0 <= c1 <= MAX_COST);
                assert(0 <= c1 * full_chunk_count <= MAX_COST * s) by (nonlinear_arith)
                    requires
                        0 <= c1 <= MAX_COST,
                        0 <= full_chunk_count <= s,
                ;
            }
            ret.fixed = ret.fixed + costs[max_batch_size] * full_chunk_count as i64;
            ret.fixed = ret.fixed + costs[remainder];
            if node_id == SPECIAL_NODE_ID {
                proof {
                    assert(s * special_visits_from(*graph, t, k as int) == s + s
                        * special_visits_from(*graph, t, k as int + 1)) by (nonlinear_arith)
                        requires
                            special_visits_from(*graph, t, k as int) == 1 + special_visits_from(
                                *graph,
                                t,
                                k as int + 1,
                            ),
                    ;
                    assert(s * special_visits_from(*graph, t, k as int + 1) >= 0) by (nonlinear_arith)
                        requires
                            0 <= s,
                            0 <= special_visits_from(*graph, t, k as int + 1),
                    ;
                }
                ret.special_node_count = ret.special_node_count + batch_size as i64;
            }
            k = k + 1;
        }
        proof {
            assert(special_visits_from(*graph, t, k as int) == 0);
            assert(path_fixed_from(*graph, t, s, k as int) == 0);
            assert(MAX_PACKETS * MAX_COST + MAX_PATH_LEN * (MAX_COST * (MAX_PACKETS + 1))
                <= DUR_FIXED_BOUND);
        }
        ret
    }
}

/// One entry of the table under construction.
pub open spec fn entry_ok(d: Duration, input: Input, graph: Graph, t: int, b: int, f: int) -> bool {
    duration_bounded(d) && if 1 <= b && f <= graph.path_len(t) {
        d.fixed == path_duration_fixed(input, graph, t, b, f) && d.special_node_count
            == path_duration_special(graph, t, b, f)
    } else {
        d.fixed == 0 && d.special_node_count == 0
    }
}

pub open spec fn table_cell_ok(
    row: Seq<Duration>,
    input: Input,
    graph: Graph,
    t: int,
    b: int,
    max_len: int,
) -> bool {
    &&& row.len() == max_len + 1
    &&& forall|f: int| 0 <= f <= max_len ==> entry_ok(#[trigger] row[f], input, graph, t, b, f)
}

pub open spec fn table_row_ok(
    rows: Seq<Vec<Duration>>,
    input: Input,
    graph: Graph,
    t: int,
    max_len: int,
) -> bool {
    &&& rows.len() == MAX_TABLE_BATCH + 1
    &&& forall|b: int|
        0 <= b <= MAX_TABLE_BATCH ==> table_cell_ok(#[trigger] rows[b]@, input, graph, t, b, max_len)
}

/// Whether a packet pays a core switch in what is left of its task: it is on
/// another core than its task, and either not yet moved through the current
/// node or with a node still ahead.
pub open spec fn needs_switch(p: PacketStatus, has_next_node: bool) -> bool {
    p.is_switching_core && (!p.is_advanced || has_next_node)
}

pub open spec fn switch_count(ps: Seq<PacketStatus>, has_next_node: bool) -> int
    decreases ps.len(),
{
    if ps.len() == 0 {
        0
    } else {
        switch_count(ps.drop_last(), has_next_node) + (if needs_switch(ps.last(), has_next_node) {
            1int
        } else {
            0int
        })
    }
}

pub open spec fn count_unadvanced(ps: Seq<PacketStatus>) -> int
    decreases ps.len(),
{
    if ps.len() == 0 {
        0
    } else {
        count_unadvanced(ps.drop_last()) + (if !ps.last().is_advanced {
            1int
        } else {
            0int
        })
    }
}

/// Whether a packet still passes the node: all do, but in a chunked node only
/// those not moved through it yet.
pub open spec fn still_passes(p: PacketStatus, only_unadvanced: bool) -> bool {
    !only_unadvanced || !p.is_advanced
}

/// Sum of the known special costs of the packets of `ps` that still pass.
pub open spec fn known_special(
    ps: Seq<PacketStatus>,
    costs: Seq<Option<i64>>,
    only_unadvanced: bool,
) -> int
    decreases ps.len(),
{
    if ps.len() == 0 {
        0
    } else {
        known_special(ps.drop_last(), costs, only_unadvanced) + (if still_passes(ps.last(), only_unadvanced)
            && costs[ps.last().id as int] is Some {
            costs[ps.last().id as int]->0 as int
        } else {
            0int
        })
    }
}

/// How many packets of `ps` that still pass have no known special cost yet.
pub open spec fn unknown_special(
    ps: Seq<PacketStatus>,
    costs: Seq<Option<i64>>,
    only_unadvanced: bool,
) -> int
    decreases ps.len(),
{
    if ps.len() == 0 {
        0
    } else {
        unknown_special(ps.drop_last(), costs, only_unadvanced) + (if still_passes(ps.last(), only_unadvanced)
            && costs[ps.last().id as int] is None {
            1int
        } else {
            0int
        })
    }
}

/// How many packets of a task pass the node at position `k` of its path.
pub open spec fn task_count_at(task: Task, k: int) -> int {
    if k == task.path_index && task.is_chunked {
        count_unadvanced(task.packets@)
    } else {
        task.packets@.len() as int
    }
}

/// Node costs, plus the known special costs, of the positions `k..` of a task's path.
pub open spec fn task_fixed_from(graph: Graph, task: Task, costs: Seq<Option<i64>>, k: int) -> int
    decreases graph.path_len(task.packet_type as int) - k,
{
    let t = task.packet_type as int;
    if k >= graph.path_len(t) || k < 0 {
        0
    } else {
        let v = graph.node_at(t, k);
        node_batch_cost(graph, v as int, task_count_at(task, k)) + (if v == SPECIAL_NODE_ID {
            known_special(task.packets@, costs, k == task.path_index && task.is_chunked)
        } else {
            0
        }) + task_fixed_from(graph, task, costs, k + 1)
    }
}

/// Unknown special costs met at the positions `k..` of a task's path.
pub open spec fn task_special_from(graph: Graph, task: Task, costs: Seq<Option<i64>>, k: int) -> int
    decreases graph.path_len(task.packet_type as int) - k,
{
    let t = task.packet_type as int;
    if k >= graph.path_len(t) || k < 0 {
        0
    } else {
        let v = graph.node_at(t, k);
        (if v == SPECIAL_NODE_ID {
            unknown_special(task.packets@, costs, k == task.path_index && task.is_chunked)
        } else {
            0
        }) + task_special_from(graph, task, costs, k + 1)
    }
}

/// The fixed part of what is left of a task: its core switches and the rest of its path.
pub open spec fn task_duration_fixed(
    input: Input,
    graph: Graph,
    task: Task,
    costs: Seq<Option<i64>>,
) -> int {
    let has_next_node = task.path_index < graph.path_len(task.packet_type as int) - 1;
    input.cost_switch * switch_count(task.packets@, has_next_node) + task_fixed_from(
        graph,
        task,
        costs,
        task.path_index as int,
    )
}

/// The special node visits of what is left of a task whose works are not known yet.
pub open spec fn task_duration_special(graph: Graph, task: Task, costs: Seq<Option<i64>>) -> int {
    task_special_from(graph, task, costs, task.path_index as int)
}

proof fn lemma_counts_bounded(ps: Seq<PacketStatus>, costs: Seq<Option<i64>>, b: bool, h: bool)
    requires
        forall|k: int| 0 <= k < ps.len() ==> (#[trigger] ps[k]).id < costs.len(),
        forall|i: int| 0 <= i < costs.len() ==> special_cost_ok(#[trigger] costs[i]),
    ensures
        0 <= switch_count(ps, h) <= ps.len(),
        0 <= count_unadvanced(ps) <= ps.len(),
        0 <= known_special(ps, costs, b) <= ps.len() * (N_SPECIAL * MAX_COST),
        0 <= unknown_special(ps, costs, b) <= ps.len(),
    decreases ps.len(),
{
    if ps.len() > 0 {
        let q = ps.drop_last();
        assert forall|k: int| 0 <= k < q.len() implies (#[trigger] q[k]).id < costs.len() by {
            assert(q[k] == ps[k]);
        }
        lemma_counts_bounded(q, costs, b, h);
        assert(ps.last() == ps[ps.len() - 1]);
        assert(special_cost_ok(costs[ps.last().id as int]));
        assert((ps.len() - 1) * (N_SPECIAL * MAX_COST) + N_SPECIAL * MAX_COST == ps.len() * (
        N_SPECIAL * MAX_COST)) by (nonlinear_arith);
    }
}

proof fn lemma_task_from_bounds(graph: Graph, task: Task, costs: Seq<Option<i64>>, k: int)
    requires
        graph.wf(),
        task.shape_ok(graph, costs.len()),
        forall|i: int| 0 <= i < costs.len() ==> special_cost_ok(#[trigger] costs[i]),
        0 <= k,
    ensures
        0 <= task_fixed_from(graph, task, costs, k) <= MAX_PATH_LEN * (MAX_COST * (MAX_PACKETS
            + 1) + MAX_PACKETS * (N_SPECIAL * MAX_COST)),
        0 <= task_special_from(graph, task, costs, k) <= MAX_PATH_LEN * MAX_PACKETS,
        k <= graph.path_len(task.packet_type as int) ==> task_fixed_from(graph, task, costs, k)
            <= (graph.path_len(task.packet_type as int) - k) * (MAX_COST * (MAX_PACKETS + 1)
            + MAX_PACKETS * (N_SPECIAL * MAX_COST)),
        k <= graph.path_len(task.packet_type as int) ==> task_special_from(graph, task, costs, k)
            <= (graph.path_len(task.packet_type as int) - k) * MAX_PACKETS,
    decreases graph.path_len(task.packet_type as int) - k,
{
    let t = task.packet_type as int;
    assert(path_wf(graph.paths@[t]));
    let len = graph.path_len(t);
    let b1 = MAX_COST * (MAX_PACKETS + 1) + MAX_PACKETS * (N_SPECIAL * MAX_COST);
    if k < len {
        lemma_task_from_bounds(graph, task, costs, k + 1);
        let v = graph.node_at(t, k) as int;
        let c = task_count_at(task, k);
        lemma_counts_bounded(task.packets@, costs, k == task.path_index && task.is_chunked, false);
        assert(0 <= c <= MAX_PACKETS);
        lemma_node_batch_cost_bounds(graph, v, c);
        assert(MAX_COST * (c + 1) <= MAX_COST * (MAX_PACKETS + 1)) by (nonlinear_arith)
            requires
                0 <= c <= MAX_PACKETS,
        ;
        let n = task.packets@.len() as int;
        assert(n * (N_SPECIAL * MAX_COST) <= MAX_PACKETS * (N_SPECIAL * MAX_COST)) by (
        nonlinear_arith)
            requires
                0 <= n <= MAX_PACKETS,
        ;
        assert((len - k - 1) * b1 + b1 == (len - k) * b1) by (nonlinear_arith);
        assert((len - k - 1) * MAX_PACKETS + MAX_PACKETS == (len - k) * MAX_PACKETS) by (
        nonlinear_arith);
        assert((len - k) * b1 <= MAX_PATH_LEN * b1) by (nonlinear_arith)
            requires
                0 <= len - k <= MAX_PATH_LEN,
                b1 >= 0,
        ;
        assert((len - k) * MAX_PACKETS <= MAX_PATH_LEN * MAX_PACKETS) by (nonlinear_arith)
            requires
                0 <= len - k <= MAX_PATH_LEN,
        ;
    }
}

/// What is left of `task`: its core switches, then each remaining node of its
/// path for the packets that still pass it, with the special node's works
/// counted in `fixed` where known and in `special_node_count` where not.
pub fn estimate_task_duration(
    task: &Task,
    input: &Input,
    graph: &Graph,
    packet_special_cost: &Vec<Option<i64>>,
) -> (d: Duration)
    requires
        input.wf(),
        graph.wf(),
        task.shape_ok(*graph, packet_special_cost@.len()),
        forall|i: int|
            0 <= i < packet_special_cost@.len() ==> special_cost_ok(
                #[trigger] packet_special_cost@[i],
            ),
    ensures
        d.fixed == task_duration_fixed(*input, *graph, *task, packet_special_cost@),
        d.special_node_count == task_duration_special(*graph, *task, packet_special_cost@),
        duration_bounded(d),
{
    let ghost costs = packet_special_cost@;
    let ghost ps = task.packets@;
    let ghost t = task.packet_type as int;
    proof {
        assert(path_wf(graph.paths@[t]));
    }
    let mut first_packets: usize = task.packets.len();
    if task.is_chunked {
        let mut cnt: usize = 0;
        let mut j: usize = 0;
        while j < task.packets.len()
            invariant
                j <= ps.len(),
                ps == task.packets@,
                ps.len() <= MAX_PACKETS,
                cnt == count_unadvanced(ps.take(j as int)),
                cnt <= j,
            decreases ps.len() - j,
        {
            proof {
                assert(ps.take(j as int + 1).drop_last() == ps.take(j as int));
            }
            if !task.packets[j].is_advanced {
                cnt = cnt + 1;
            }
            j = j + 1;
        }
        proof {
            assert(ps.take(ps.len() as int) == ps);
        }
        first_packets = cnt;
    }
    let mut ret = Duration::new(0, 0);
    let path = &graph.paths[task.packet_type].path;
    let has_next_node = task.path_index < path.len() - 1;
    let mut j: usize = 0;
    while j < task.packets.len()
        invariant
            input.wf(),
            j <= ps.len(),
            ps == task.packets@,
            ps.len() <= MAX_PACKETS,
            ret.fixed == input.cost_switch * switch_count(ps.take(j as int), has_next_node),
            ret.special_node_count == 0,
            0 <= switch_count(ps.take(j as int), has_next_node) <= j,
        decreases ps.len() - j,
    {
        proof {
            assert(ps.take(j as int + 1).drop_last() == ps.take(j as int));
            assert(input.cost_switch * switch_count(ps.take(j as int), has_next_node)
                + input.cost_switch == input.cost_switch * (switch_count(
                ps.take(j as int),
                has_next_node,
            ) + 1)) by (nonlinear_arith);
            assert(input.cost_switch * (switch_count(ps.take(j as int), has_next_node) + 1)
                <= MAX_COST * MAX_PACKETS) by (nonlinear_arith)
                requires
                    0 <= input.cost_switch <= MAX_COST,
                    0 <= switch_count(ps.take(j as int), has_next_node) + 1 <= MAX_PACKETS,
            ;
        }
        let p = task.packets[j];
        let need_switch = p.is_switching_core && (!p.is_advanced || has_next_node);
        if need_switch {
            ret.fixed = ret.fixed + input.cost_switch;
        }
        j = j + 1;
    }
    proof {
        assert(ps.take(ps.len() as int) == ps);
        lemma_counts_bounded(ps, costs, false, has_next_node);
        assert(0 <= input.cost_switch * switch_count(ps, has_next_node) <= MAX_COST * MAX_PACKETS)
            by (nonlinear_arith)
            requires
                0 <= input.cost_switch <= MAX_COST,
                0 <= switch_count(ps, has_next_node) <= MAX_PACKETS,
        ;
        lemma_task_from_bounds(*graph, *task, costs, task.path_index as int);
    }
    let ghost init = ret.fixed as int;
    let mut k: usize = task.path_index;
    while k < path.len()
        invariant
            graph.wf(),
            input.wf(),
            task.shape_ok(*graph, costs.len()),
            forall|i: int| 0 <= i < costs.len() ==> special_cost_ok(#[trigger] costs[i]),
            costs == packet_special_cost@,
            ps == task.packets@,
            t == task.packet_type,
            *path == graph.paths@[t].path,
            path@.len() == graph.path_len(t),
            task.path_index <= k <= path@.len(),
            first_packets == task_count_at(*task, task.path_index as int),
            0 <= init <= MAX_COST * MAX_PACKETS,
            ret.fixed + task_fixed_from(*graph, *task, costs, k as int) == init + task_fixed_from(
                *graph,
                *task,
                costs,
                task.path_index as int,
            ),
            ret.special_node_count + task_special_from(*graph, *task, costs, k as int)
                == task_special_from(*graph, *task, costs, task.path_index as int),
            0 <= task_fixed_from(*graph, *task, costs, task.path_index as int) <= MAX_PATH_LEN * (
            MAX_COST * (MAX_PACKETS + 1) + MAX_PACKETS * (N_SPECIAL * MAX_COST)),
            0 <= task_special_from(*graph, *task, costs, task.path_index as int) <= MAX_PATH_LEN
                * MAX_PACKETS,
            0 <= ret.fixed,
            0 <= ret.special_node_count,
        decreases path@.len() - k,
    {
        let node_id = path[k];
        let packets_count = if k == task.path_index {
            first_packets
        } else {
            task.packets.len()
        };
        proof {
            assert(node_id < N_NODE);
            assert(node_wf(graph.nodes@[node_id as int]));
            lemma_task_from_bounds(*graph, *task, costs, k as int + 1);
            lemma_counts_bounded(ps, costs, false, false);
            assert(packets_count == task_count_at(*task, k as int));
            lemma_node_batch_cost_bounds(*graph, node_id as int, packets_count as int);
        }
        let costs_v = &graph.nodes[node_id].costs;
        let max_batch_size = costs_v.len() - 1;
        let full_chunk_count = packets_count / max_batch_size;
        let remainder = packets_count % max_batch_size;
        proof {
            let c1 = costs_v@[max_batch_size as int];
            assert(0 <= c1 <= MAX_COST);
            assert(0 <= full_chunk_count <= packets_count) by (nonlinear_arith)
                requires
                    max_batch_size >= 1,
                    full_chunk_count == packets_count / max_batch_size,
            ;
            assert(0 <= c1 * full_chunk_count <= MAX_COST * MAX_PACKETS) by (nonlinear_arith)
                requires
                    0 <= c1 <= MAX_COST,
                    0 <= full_chunk_count <= MAX_PACKETS,
            ;
        }
        ret.fixed = ret.fixed + costs_v[max_batch_size] * full_chunk_count as i64;
        ret.fixed = ret.fixed + costs_v[remainder];
        if node_id == SPECIAL_NODE_ID {
            let only_unadvanced = k == task.path_index && task.is_chunked;
            let ghost base_fixed = ret.fixed as int;
            let ghost base_special = ret.special_node_count as int;
            proof {
                lemma_counts_bounded(ps, costs, only_unadvanced, false);
            }
            let mut j: usize = 0;
            while j < task.packets.len()
                invariant
                    j <= ps.len(),
                    ps == task.packets@,
                    costs == packet_special_cost@,
                    forall|q: int| 0 <= q < ps.len() ==> (#[trigger] ps[q]).id < costs.len(),
                    forall|i: int| 0 <= i < costs.len() ==> special_cost_ok(#[trigger] costs[i]),
                    ps.len() <= MAX_PACKETS,
                    ret.fixed == base_fixed + known_special(
                        ps.take(j as int),
                        costs,
                        only_unadvanced,
                    ),
                    ret.special_node_count == base_special + unknown_special(
                        ps.take(j as int),
                        costs,
                        only_unadvanced,
                    ),
                    0 <= base_fixed <= DUR_FIXED_BOUND,
                    0 <= base_special <= DUR_SPECIAL_BOUND,
                decreases ps.len() - j,
            {
                proof {
                    let q = ps.take(j as int + 1);
                    assert(q.drop_last() == ps.take(j as int));
                    assert forall|x: int| 0 <= x < q.len() implies (#[trigger] q[x]).id
                        < costs.len() by {
                        assert(q[x] == ps[x]);
                    }
                    lemma_counts_bounded(q, costs, only_unadvanced, false);
                    assert(q.len() * (N_SPECIAL * MAX_COST) <= MAX_PACKETS * (N_SPECIAL
                        * MAX_COST)) by (nonlinear_arith)
                        requires
                            q.len() <= MAX_PACKETS,
                    ;
                }
                let p = task.packets[j];
                if !only_unadvanced || !p.is_advanced {
                    match packet_special_cost[p.id] {
                        Some(special_cost) => {
                            ret.fixed = ret.fixed + special_cost;
                        },
                        None => {
                            ret.special_node_count = ret.special_node_count + 1;
                        },
                    }
                }
                j = j + 1;
            }
            proof {
                assert(ps.take(ps.len() as int) == ps);
            }
        }
        k = k + 1;
    }
    ret
}

/// What is left of the work `core_id` holds: its next task and its set-aside task.
pub fn estimate_core_duration(state: &State, core_id: usize, input: &Input, graph: &Graph) -> (d:
    Duration)
    requires
        input.wf(),
        graph.wf(),
        core_id < state.next_tasks@.len(),
        core_id < state.idle_tasks@.len(),
        state.next_tasks@[core_id as int] matches Some(task) ==> task.shape_ok(
            *graph,
            state.packet_special_cost@.len(),
        ),
        state.idle_tasks@[core_id as int] matches Some(task) ==> task.shape_ok(
            *graph,
            state.packet_special_cost@.len(),
        ),
        forall|i: int|
            0 <= i < state.packet_special_cost@.len() ==> special_cost_ok(
                #[trigger] state.packet_special_cost@[i],
            ),
    ensures
        d.fixed == core_duration_fixed(*state, core_id as int, *input, *graph),
        d.special_node_count == core_duration_special(*state, core_id as int, *graph),
        0 <= d.fixed <= 2 * DUR_FIXED_BOUND,
        0 <= d.special_node_count <= 2 * DUR_SPECIAL_BOUND,
{
    let mut ret = Duration::new(0, 0);
    if let Some(cur_task) = &state.next_tasks[core_id] {
        ret.add(&estimate_task_duration(cur_task, input, graph, &state.packet_special_cost));
    }
    if let Some(idle_task) = &state.idle_tasks[core_id] {
        ret.add(&estimate_task_duration(idle_task, input, graph, &state.packet_special_cost));
    }
    ret
}

/// `task_duration_fixed` of a task slot, zero when it is empty.
pub open spec fn slot_fixed(input: Input, graph: Graph, slot: Option<Task>, costs: Seq<Option<i64>>) -> int {
    match slot {
        Some(task) => task_duration_fixed(input, graph, task, costs),
        None => 0,
    }
}

pub open spec fn slot_special(graph: Graph, slot: Option<Task>, costs: Seq<Option<i64>>) -> int {
    match slot {
        Some(task) => task_duration_special(graph, task, costs),
        None => 0,
    }
}

pub open spec fn core_duration_fixed(state: State, core_id: int, input: Input, graph: Graph) -> int {
    slot_fixed(input, graph, state.next_tasks@[core_id], state.packet_special_cost@) + slot_fixed(
        input,
        graph,
        state.idle_tasks@[core_id],
        state.packet_special_cost@,
    )
}

pub open spec fn core_duration_special(state: State, core_id: int, graph: Graph) -> int {
    slot_special(graph, state.next_tasks@[core_id], state.packet_special_cost@) + slot_special(
        graph,
        state.idle_tasks@[core_id],
        state.packet_special_cost@,
    )
}

} // verus!
