//! One subtask of the greedy scheduler, as a state machine: each step takes
//! the reply to the previous command (packets received, a packet's works, an
//! order for candidate tasks) and decides the next command.
use vstd::prelude::*;

use crate::calculator::{core_duration_fixed, core_duration_special, estimate_core_duration, estimate_task_duration, known_special, slot_fixed, slot_special, task_duration_fixed, task_duration_special, task_fixed_from, task_special_from, DurationCalculator};
use crate::greedy::{count_event, get_receive_dt, get_special_node_chunk_size, special_cost_ok, split_task, Batch, Event, EventQueue, State, Task, COMPLETE_TASK_TOP_K, MAX_TASK_PACKETS, RECEIVE_TASK_TOP_K};
use crate::planning::{clone_task, create_tasks, fresh_task_ok, order_tasks, plan_ok, planned, same_task, task_ids, TaskPlan, PLAN_TIME_CAP};
use crate::tracker::Tracker;
use crate::types::{Graph, Input, Packet, PacketHistory, PacketStatus, TaskLog, CHUNK_NODES, MAX_COST, MAX_PACKETS, MAX_T, MAX_TIME, N_NODE, N_PACKET_TYPE, N_SPECIAL, SPECIAL_NODE_ID, node_wf, path_wf};

verus! {

/// The latest time at which a step may start; each step moves the horizon
/// by at most `STEP_SPAN`.
pub const RUN_TIME_CAP: i64 = 3_000_000_000_000_000_000;

pub const STEP_SPAN: i64 = 1_000_000_000;

/// What the scheduler asks of the outside world next.
pub enum Command {
    /// Nothing to send: step again.
    Nothing,
    /// Receive the packets that arrived up to `t`.
    ReceivePackets { t: i64 },
    /// Ask which special works packet `packet_id` needs.
    QueryWorks { t: i64, packet_id: usize },
    /// Run node `node_id` on core `core_id` for the packets `ids`.
    Execute { t: i64, core_id: usize, node_id: usize, ids: Vec<usize> },
    /// Order the candidate tasks: cores are free at `next_ts`.
    PlanOrder { next_ts: Vec<i64>, batches: Vec<Batch> },
    /// The subtask is done.
    Finish,
}

/// The answer to the previous command.
pub enum Reply {
    /// For `Nothing` and `Execute`, and for the first step.
    Ready,
    Packets(Option<Vec<Packet>>),
    Works([bool; N_SPECIAL]),
    /// Indices of the candidate tasks, the one to run first first.
    Order(Vec<usize>),
}

/// What the scheduler waits for.
pub enum Phase {
    Idle,
    Receiving { t: i64 },
    PlanForReceive { t: i64, tasks: Vec<Task> },
    PlanForComplete { t: i64, core_id: usize, tasks: Vec<Task> },
    Querying { t: i64, core_id: usize, packet_id: usize },
    Finished,
}

pub struct GreedyRun {
    pub n: usize,
    pub state: State,
    pub queue: EventQueue,
    pub tracker: Tracker,
    pub calculator: DurationCalculator,
    pub phase: Phase,
    /// No pending event, and no task, is due later than this.
    pub horizon: i64,
    /// The time of the event last taken from the queue: no pending event is
    /// due earlier.
    pub now: Ghost<int>,
    /// When the last call sent to each core ends, as the scheduler times it.
    pub busy_until: Ghost<Seq<int>>,
    /// When each packet is free for its next call: its last call ends, or,
    /// before its first, it has been received and read.
    pub packet_free: Ghost<Seq<int>>,
    /// How many calls each packet has been in: how far along its path it is.
    pub calls: Ghost<Seq<int>>,
}

/// The graph suits the greedy scheduler: its special node takes whole tasks.
pub open spec fn graph_fits(graph: Graph) -> bool {
    &&& graph.wf()
    &&& graph.max_batch(SPECIAL_NODE_ID as int) >= MAX_TASK_PACKETS
}

/// The core whose task waits for special works, if any.
pub open spec fn querying_core(phase: Phase) -> Option<usize> {
    match phase {
        Phase::Querying { core_id, .. } => Some(core_id),
        _ => None,
    }
}

/// Packet `id` is in the task of core `c`.
pub open spec fn in_task(state: State, c: int, id: usize) -> bool {
    state.next_tasks@[c] matches Some(t) && task_ids(t).contains(id)
}

/// Every packet is in one place at most: waiting, or once in the task of one core.
pub open spec fn held_once(state: State, n_cores: int) -> bool {
    &&& forall|c: int|
        0 <= c < n_cores && #[trigger] state.next_tasks@[c] is Some ==> task_ids(state.next_tasks@[c]->0).no_duplicates()
    &&& forall|c1: int, c2: int, id: usize|
        0 <= c1 < c2 < n_cores ==> !(#[trigger] in_task(state, c1, id) && #[trigger] in_task(state, c2, id))
    &&& forall|c: int, id: usize|
        0 <= c < n_cores && #[trigger] in_task(state, c, id) ==> !state.await_packets.que@.contains(id)
}

/// Taking packets out of the waiting set keeps each packet in one place.
proof fn lemma_held_once_frame(s1: State, s2: State, n: int)
    requires
        held_once(s1, n),
        s2.next_tasks@ == s1.next_tasks@,
        forall|id: usize| s2.await_packets.que@.contains(id) ==> s1.await_packets.que@.contains(id),
    ensures
        held_once(s2, n),
{
    assert forall|c: int, id: usize| in_task(s2, c, id) == in_task(s1, c, id) by {}
}

/// Replacing the task of core `c0` by one holding some of its packets, each
/// once, keeps each packet in one place.
proof fn lemma_held_once_replace(s1: State, s2: State, n: int, c0: int, t: Task)
    requires
        held_once(s1, n),
        0 <= c0 < n,
        s1.next_tasks@.len() == n,
        s1.next_tasks@[c0] is Some,
        s2.next_tasks@ == s1.next_tasks@.update(c0, Some(t)),
        forall|id: usize| s2.await_packets.que@.contains(id) ==> s1.await_packets.que@.contains(id),
        task_ids(t).no_duplicates(),
        forall|id: usize| task_ids(t).contains(id) ==> task_ids(s1.next_tasks@[c0]->0).contains(id),
    ensures
        held_once(s2, n),
{
    assert forall|c: int, id: usize| 0 <= c < n && #[trigger] in_task(s2, c, id) implies in_task(s1, c, id) by {
        if c == c0 {
            assert(task_ids(t).contains(id));
        } else {
            assert(s2.next_tasks@[c] == s1.next_tasks@[c]);
        }
    }
    assert forall|c: int| 0 <= c < n && #[trigger] s2.next_tasks@[c] is Some implies task_ids(s2.next_tasks@[c]->0).no_duplicates() by {
        if c != c0 {
            assert(s2.next_tasks@[c] == s1.next_tasks@[c]);
        }
    }
    assert forall|c1: int, c2: int, id: usize| 0 <= c1 < c2 < n implies !(#[trigger] in_task(s2, c1, id) && #[trigger] in_task(s2, c2, id)) by {
        if in_task(s2, c1, id) && in_task(s2, c2, id) {
            assert(in_task(s1, c1, id));
            assert(in_task(s1, c2, id));
        }
    }
    assert forall|c: int, id: usize| 0 <= c < n && #[trigger] in_task(s2, c, id) implies !s2.await_packets.que@.contains(id) by {
        assert(in_task(s1, c, id));
    }
}

/// Clearing the task of core `c0` keeps each packet in one place.
proof fn lemma_held_once_drop(s1: State, s2: State, n: int, c0: int)
    requires
        held_once(s1, n),
        0 <= c0 < n,
        s1.next_tasks@.len() == n,
        s2.next_tasks@ == s1.next_tasks@.update(c0, None),
        forall|id: usize| s2.await_packets.que@.contains(id) ==> s1.await_packets.que@.contains(id),
    ensures
        held_once(s2, n),
{
    assert forall|c: int, id: usize| 0 <= c < n && #[trigger] in_task(s2, c, id) implies in_task(s1, c, id) by {
        if c != c0 {
            assert(s2.next_tasks@[c] == s1.next_tasks@[c]);
        }
    }
    assert forall|c: int| 0 <= c < n && #[trigger] s2.next_tasks@[c] is Some implies task_ids(s2.next_tasks@[c]->0).no_duplicates() by {
        assert(s2.next_tasks@[c] == s1.next_tasks@[c]);
    }
    assert forall|c1: int, c2: int, id: usize| 0 <= c1 < c2 < n implies !(#[trigger] in_task(s2, c1, id) && #[trigger] in_task(s2, c2, id)) by {
        if in_task(s2, c1, id) && in_task(s2, c2, id) {
            assert(in_task(s1, c1, id));
            assert(in_task(s1, c2, id));
        }
    }
    assert forall|c: int, id: usize| 0 <= c < n && #[trigger] in_task(s2, c, id) implies !s2.await_packets.que@.contains(id) by {
        assert(in_task(s1, c, id));
    }
}

/// Giving the idle core `c0` a task of packets held nowhere else keeps each
/// packet in one place.
proof fn lemma_held_once_add(s1: State, s2: State, n: int, c0: int, t: Task)
    requires
        held_once(s1, n),
        0 <= c0 < n,
        s1.next_tasks@.len() == n,
        s1.next_tasks@[c0] is None,
        s2.next_tasks@ == s1.next_tasks@.update(c0, Some(t)),
        s2.await_packets.que@ == s1.await_packets.que@,
        task_ids(t).no_duplicates(),
        forall|id: usize| #[trigger] task_ids(t).contains(id) ==> !s1.await_packets.que@.contains(id) && forall|c: int|
            0 <= c < n ==> !#[trigger] in_task(s1, c, id),
    ensures
        held_once(s2, n),
{
    assert forall|c: int, id: usize| 0 <= c < n && c != c0 && #[trigger] in_task(s2, c, id) implies in_task(s1, c, id) by {
        assert(s2.next_tasks@[c] == s1.next_tasks@[c]);
    }
    assert forall|c: int| 0 <= c < n && #[trigger] s2.next_tasks@[c] is Some implies task_ids(s2.next_tasks@[c]->0).no_duplicates() by {
        if c != c0 {
            assert(s2.next_tasks@[c] == s1.next_tasks@[c]);
        }
    }
    assert forall|c1: int, c2: int, id: usize| 0 <= c1 < c2 < n implies !(#[trigger] in_task(s2, c1, id) && #[trigger] in_task(s2, c2, id)) by {
        if in_task(s2, c1, id) && in_task(s2, c2, id) {
            if c1 == c0 {
                assert(task_ids(t).contains(id));
                assert(in_task(s1, c2, id));
            } else if c2 == c0 {
                assert(task_ids(t).contains(id));
                assert(in_task(s1, c1, id));
            } else {
                assert(in_task(s1, c1, id));
                assert(in_task(s1, c2, id));
            }
        }
    }
    assert forall|c: int, id: usize| 0 <= c < n && #[trigger] in_task(s2, c, id) implies !s2.await_packets.que@.contains(id) by {
        if c == c0 {
            assert(task_ids(t).contains(id));
        } else {
            assert(in_task(s1, c, id));
        }
    }
}

/// After the packets of a task of waiting packets are taken out of the
/// waiting set, each packet is still in one place, and the task's packets are
/// held nowhere.
proof fn lemma_taken_from_waiting(s0: State, s1: State, n: int, t: Task)
    requires
        held_once(s0, n),
        s1.next_tasks@ == s0.next_tasks@,
        s1.await_packets.members() == s0.await_packets.members().difference(t.packets@.map_values(|p: PacketStatus| p.id).to_set()),
        forall|id: usize| #[trigger] task_ids(t).contains(id) ==> s0.await_packets.que@.contains(id),
    ensures
        held_once(s1, n),
        forall|id: usize| #[trigger] task_ids(t).contains(id) ==> !s1.await_packets.que@.contains(id) && forall|c: int|
            0 <= c < n ==> !#[trigger] in_task(s1, c, id),
{
    broadcast use vstd::seq_lib::group_seq_properties;

    assert forall|id: usize| s1.await_packets.que@.contains(id) implies s0.await_packets.que@.contains(id) by {
        assert(s1.await_packets.members().contains(id));
    }
    lemma_held_once_frame(s0, s1, n);
    assert forall|id: usize| #[trigger] task_ids(t).contains(id) implies !s1.await_packets.que@.contains(id) && forall|c: int|
        0 <= c < n ==> !#[trigger] in_task(s1, c, id) by {
        assert(t.packets@.map_values(|p: PacketStatus| p.id) == task_ids(t));
        assert(task_ids(t).to_set().contains(id));
        if s1.await_packets.que@.contains(id) {
            assert(s1.await_packets.members().contains(id));
        }
        assert forall|c: int| 0 <= c < n implies !#[trigger] in_task(s1, c, id) by {
            assert(in_task(s1, c, id) == in_task(s0, c, id));
        }
    }
}

/// Adding to the waiting set a packet that no task holds keeps each packet in one place.
proof fn lemma_held_once_wait(s0: State, s1: State, n: int, i: usize)
    requires
        held_once(s0, n),
        s1.next_tasks@ == s0.next_tasks@,
        forall|id: usize| s1.await_packets.que@.contains(id) ==> s0.await_packets.que@.contains(id) || id == i,
        forall|c: int| 0 <= c < n ==> !#[trigger] in_task(s0, c, i),
    ensures
        held_once(s1, n),
{
    assert forall|c: int, id: usize| in_task(s1, c, id) == in_task(s0, c, id) by {}
}

/// A node call runs packets of the task of its core, at the node their path is at.
pub open spec fn runs_own_packets(cmd: Command, state: State, graph: Graph) -> bool {
    cmd matches Command::Execute { core_id, node_id, ids, .. } ==> (state.next_tasks@[core_id as int] matches Some(task)
        && node_id == graph.node_at(task.packet_type as int, task.path_index as int) && ids@.no_duplicates()
        && forall|k: int| 0 <= k < ids@.len() ==> task_ids(task).contains(#[trigger] ids@[k]))
}

/// Candidate tasks that share no packet, each holding each of its packets once.
pub open spec fn plan_disjoint(tasks: Seq<Task>) -> bool {
    &&& forall|k: int| 0 <= k < tasks.len() ==> task_ids(#[trigger] tasks[k]).no_duplicates()
    &&& forall|a: int, b: int, id: usize|
        0 <= a < b < tasks.len() ==> !(#[trigger] task_ids(tasks[a]).contains(id) && #[trigger] task_ids(tasks[b]).contains(id))
}

/// Whether the `k`-th packet of `task` may be in the call the core of the
/// task runs now: in a chunked task, those of the last chunk; else all, or,
/// after the last chunk of the previous node, those from its first on.
pub open spec fn may_be_running(task: Task, k: int) -> bool {
    if task.is_chunked {
        task.packets@[k].is_advanced && (task.last_chunk_min_i matches Some(m) ==> k >= m)
    } else {
        task.last_chunk_min_i matches Some(m) ==> k >= m
    }
}

/// The packets of `task` are free when the task is ready, and those not in
/// the call its core runs now are free by `now`.
pub open spec fn packets_free_ok(task: Task, free: Seq<int>, now: int) -> bool {
    &&& forall|k: int| 0 <= k < task.packets@.len() ==> free[(#[trigger] task.packets@[k]).id as int] <= task.next_t
    &&& forall|k: int|
        0 <= k < task.packets@.len() && !may_be_running(task, k) ==> free[(#[trigger] task.packets@[k]).id as int] <= now
}

/// A packet among `ids` was received no later than the latest of them.
proof fn lemma_max_received_ge(packets: Seq<Option<Packet>>, ids: Seq<usize>, j: int)
    requires
        0 <= j < ids.len(),
    ensures
        packets[ids[j] as int]->0.received_t <= crate::planning::max_received(packets, ids),
    decreases ids.len(),
{
    if j < ids.len() - 1 {
        lemma_max_received_ge(packets, ids.drop_last(), j);
        assert(ids.drop_last()[j] == ids[j]);
    }
}

/// The packets of a freshly planned task, all waiting, are free when it is
/// ready, as waiting packets are once received and read; none is running.
proof fn lemma_fresh_task_free(task: Task, state: State, graph: Graph, input: Input, cur_t: int, free: Seq<int>, now: int)
    requires
        fresh_task_ok(task, state, graph, input, cur_t),
        forall|id: usize|
            #[trigger] state.await_packets.que@.contains(id) ==> free[id as int] <= state.packets@[id as int]->0.received_t
                + input.cost_r,
    ensures
        packets_free_ok(task, free, now),
{
    assert forall|k: int| 0 <= k < task.packets@.len() implies free[(#[trigger] task.packets@[k]).id as int] <= task.next_t by {
        let ids = task_ids(task);
        assert(ids[k] == task.packets@[k].id);
        lemma_max_received_ge(state.packets@, ids, k);
        assert(state.await_packets.que@.contains(task.packets@[k].id));
    }
}

/// A packet a split moves over at once is not in the call its core runs now.
proof fn lemma_selected_not_running(task: Task, j: int)
    requires
        0 <= j < task.packets@.len(),
        (crate::greedy::split_selects(task))(j),
        crate::greedy::split_ready(task),
    ensures
        !may_be_running(task, j),
{
    assert(task.packets@[j].is_advanced ==> (task.last_chunk_min_i matches Some(m) && j < m));
}

/// The packet of a task made by a split at position `k`, as one of the split
/// task's packets: the same packet, its progress maybe cleared.
proof fn lemma_built_from(task: Task, ps: Seq<PacketStatus>, k: int)
    requires
        0 <= k < ps.len(),
        forall|x: PacketStatus| #[trigger] ps.contains(x) ==> task.packets@.contains(x),
    ensures
        exists|j: int| 0 <= j < task.packets@.len() && #[trigger] task.packets@[j].id == crate::greedy::built_packets(task, ps)[k].id,
{
    assert(ps.contains(ps[k]));
    let j = choose|j: int| 0 <= j < task.packets@.len() && task.packets@[j] == ps[k];
    assert(task.packets@[j].id == crate::greedy::built_packets(task, ps)[k].id);
}

/// Both tasks of a split keep their packets free in time: those that start at
/// once hold none of the running call.
proof fn lemma_split_keeps_free(task: Task, cur_t: int, r1: Task, r2: Task, free: Seq<int>, now: int)
    requires
        task.packets@.len() >= 2,
        !task.is_chunked ==> forall|k: int| 0 <= k < task.packets@.len() ==> !(#[trigger] task.packets@[k]).is_advanced,
        packets_free_ok(task, free, now),
        cur_t == now,
        r1.packets@ == crate::greedy::built_packets(task, crate::greedy::split_first(task)),
        r2.packets@ == crate::greedy::built_packets(task, crate::greedy::split_second(task)),
        r1.next_t == task.next_t,
        r2.next_t == (if crate::greedy::split_ready(task) {
            cur_t
        } else {
            task.next_t as int
        }),
        r1.is_chunked == crate::greedy::built_chunked(crate::greedy::split_first(task)),
        r2.is_chunked == crate::greedy::built_chunked(crate::greedy::split_second(task)),
        r1.last_chunk_min_i is None,
        r2.last_chunk_min_i is None,
    ensures
        packets_free_ok(r1, free, now),
        packets_free_ok(r2, free, now),
{
    let ps = task.packets@;
    let sel = crate::greedy::split_selects(task);
    let f1 = crate::greedy::split_first(task);
    let f2 = crate::greedy::split_second(task);
    crate::greedy::lemma_split_parts_from(task);
    assert forall|k: int| 0 <= k < r1.packets@.len() implies free[(#[trigger] r1.packets@[k]).id as int] <= r1.next_t by {
        lemma_built_from(task, f1, k);
        let j = choose|j: int| 0 <= j < ps.len() && #[trigger] ps[j].id == crate::greedy::built_packets(task, f1)[k].id;
        assert(free[ps[j].id as int] <= task.next_t);
    }
    assert forall|k: int| 0 <= k < r2.packets@.len() implies free[(#[trigger] r2.packets@[k]).id as int] <= r2.next_t by {
        lemma_built_from(task, f2, k);
        let j = choose|j: int| 0 <= j < ps.len() && #[trigger] ps[j].id == crate::greedy::built_packets(task, f2)[k].id;
        assert(free[ps[j].id as int] <= task.next_t);
        if crate::greedy::split_ready(task) {
            assert(f2 == crate::greedy::picked(ps, sel, ps.len() as int));
            crate::greedy::lemma_picked_sel(ps, sel, ps.len() as int, k);
            let j2 = choose|j2: int| 0 <= j2 < ps.len() && sel(j2) && f2[k] == #[trigger] ps[j2];
            lemma_selected_not_running(task, j2);
            assert(crate::greedy::built_packets(task, f2)[k].id == f2[k].id);
            assert(free[ps[j2].id as int] <= now);
        }
    }
    assert forall|k: int| 0 <= k < r1.packets@.len() && !may_be_running(r1, k) implies free[(#[trigger] r1.packets@[k]).id as int]
        <= now by {
        assert(r1.is_chunked);
        assert(!crate::greedy::split_moves_on(task, f1));
        assert(r1.packets@ == f1);
        assert(f1.contains(f1[k]));
        let j = choose|j: int| 0 <= j < ps.len() && ps[j] == f1[k];
        let a = choose|a: int| 0 <= a < f1.len() && (#[trigger] f1[a]).is_advanced;
        assert(f1.contains(f1[a]));
        let ja = choose|ja: int| 0 <= ja < ps.len() && ps[ja] == f1[a];
        assert(task.is_chunked);
        assert(!may_be_running(task, j));
    }
    assert forall|k: int| 0 <= k < r2.packets@.len() && !may_be_running(r2, k) implies free[(#[trigger] r2.packets@[k]).id as int]
        <= now by {
        assert(r2.is_chunked);
        assert(!crate::greedy::split_moves_on(task, f2));
        assert(r2.packets@ == f2);
        assert(f2.contains(f2[k]));
        let j = choose|j: int| 0 <= j < ps.len() && ps[j] == f2[k];
        let a = choose|a: int| 0 <= a < f2.len() && (#[trigger] f2[a]).is_advanced;
        assert(f2.contains(f2[a]));
        let ja = choose|ja: int| 0 <= ja < ps.len() && ps[ja] == f2[a];
        assert(task.is_chunked);
        assert(!may_be_running(task, j));
    }
}

/// Each packet of `task` is of the task's type and has been in as many calls
/// as the task's position on the path, and one more once through the
/// current node.
pub open spec fn on_path(task: Task, calls: Seq<int>, packets: Seq<Option<Packet>>) -> bool {
    forall|k: int|
        0 <= k < task.packets@.len() ==> {
            let p = #[trigger] task.packets@[k];
            &&& calls[p.id as int] == task.path_index + (if p.is_advanced {
                1int
            } else {
                0int
            })
            &&& packets[p.id as int]->0.packet_type == task.packet_type
        }
}

/// The packets of a freshly planned task, all waiting, are at the start of their path.
proof fn lemma_fresh_on_path(task: Task, state: State, graph: Graph, input: Input, cur_t: int, calls: Seq<int>)
    requires
        fresh_task_ok(task, state, graph, input, cur_t),
        forall|id: usize| #[trigger] state.await_packets.que@.contains(id) ==> calls[id as int] == 0,
    ensures
        on_path(task, calls, state.packets@),
{
    assert forall|k: int| 0 <= k < task.packets@.len() implies calls[(#[trigger] task.packets@[k]).id as int] == 0 by {
        assert(state.await_packets.que@.contains(task.packets@[k].id));
    }
}

/// Both tasks of a split keep their packets where they are on the path.
proof fn lemma_split_on_path(task: Task, r1: Task, r2: Task, calls: Seq<int>, packets: Seq<Option<Packet>>)
    requires
        task.packets@.len() >= 2,
        on_path(task, calls, packets),
        r1.packets@ == crate::greedy::built_packets(task, crate::greedy::split_first(task)),
        r2.packets@ == crate::greedy::built_packets(task, crate::greedy::split_second(task)),
        r1.path_index == crate::greedy::built_path_index(task, crate::greedy::split_first(task)),
        r2.path_index == crate::greedy::built_path_index(task, crate::greedy::split_second(task)),
        r1.packet_type == task.packet_type,
        r2.packet_type == task.packet_type,
    ensures
        on_path(r1, calls, packets),
        on_path(r2, calls, packets),
{
    crate::greedy::lemma_split_parts_from(task);
    lemma_split_part_on_path(task, crate::greedy::split_first(task), r1, calls, packets);
    lemma_split_part_on_path(task, crate::greedy::split_second(task), r2, calls, packets);
}

proof fn lemma_split_part_on_path(task: Task, f: Seq<PacketStatus>, r: Task, calls: Seq<int>, packets: Seq<Option<Packet>>)
    requires
        on_path(task, calls, packets),
        forall|x: PacketStatus| #[trigger] f.contains(x) ==> task.packets@.contains(x),
        r.packets@ == crate::greedy::built_packets(task, f),
        r.path_index == crate::greedy::built_path_index(task, f),
        r.packet_type == task.packet_type,
    ensures
        on_path(r, calls, packets),
{
    assert forall|k: int| 0 <= k < r.packets@.len() implies {
        let p = #[trigger] r.packets@[k];
        &&& calls[p.id as int] == r.path_index + (if p.is_advanced {
            1int
        } else {
            0int
        })
        &&& packets[p.id as int]->0.packet_type == r.packet_type
    } by {
        assert(f.contains(f[k]));
        let j = choose|j: int| 0 <= j < task.packets@.len() && task.packets@[j] == f[k];
        assert(task.packets@[j] == f[k]);
        if crate::greedy::split_moves_on(task, f) {
            assert(f[k].is_advanced);
        }
    }
}

/// `calls` after a call of the packets `ids`.
pub open spec fn called(calls: Seq<int>, ids: Seq<usize>) -> Seq<int> {
    Seq::new(calls.len(), |i: int| if ids.contains(i as usize) {
        calls[i] + 1
    } else {
        calls[i]
    })
}

/// The packets of a call: the chunk `sel` picks, or the whole task.
proof fn lemma_call_ids(ps: Seq<PacketStatus>, sel: spec_fn(int) -> bool, is_chunk: bool, ids: Seq<usize>)
    requires
        ps.map_values(|p: PacketStatus| p.id).no_duplicates(),
        is_chunk ==> ids == crate::greedy::picked(advanced_marks(ps, sel), sel, ps.len() as int).map_values(|p: PacketStatus| p.id),
        !is_chunk ==> ids == ps.map_values(|p: PacketStatus| p.id),
    ensures
        forall|k: int| 0 <= k < ps.len() ==> (ids.contains(#[trigger] ps[k].id) <==> (!is_chunk || sel(k))),
        forall|id: usize| #[trigger] ids.contains(id) ==> ps.map_values(|p: PacketStatus| p.id).contains(id),
{
    let len = ps.len() as int;
    let adv_marks = advanced_marks(ps, sel);
    let chunk = crate::greedy::picked(adv_marks, sel, len);
    let pids = ps.map_values(|p: PacketStatus| p.id);
    assert forall|k: int| 0 <= k < ps.len() implies (ids.contains(#[trigger] ps[k].id) <==> (!is_chunk || sel(k))) by {
        if is_chunk {
            if sel(k) {
                crate::greedy::lemma_picked_has(adv_marks, sel, len, k);
                let m = choose|m: int| 0 <= m < chunk.len() && chunk[m] == adv_marks[k];
                assert(ids[m] == chunk[m].id);
            }
            if ids.contains(ps[k].id) {
                let m = choose|m: int| 0 <= m < ids.len() && ids[m] == ps[k].id;
                assert(ids[m] == chunk[m].id);
                crate::greedy::lemma_picked_sel(adv_marks, sel, len, m);
                let j = choose|j: int| 0 <= j < len && sel(j) && chunk[m] == #[trigger] adv_marks[j];
                assert(pids[j] == pids[k]);
            }
        } else {
            assert(ids[k] == ps[k].id);
        }
    }
    assert forall|id: usize| #[trigger] ids.contains(id) implies pids.contains(id) by {
        let m = choose|m: int| 0 <= m < ids.len() && ids[m] == id;
        if is_chunk {
            assert(ids[m] == chunk[m].id);
            crate::greedy::lemma_picked_sel(adv_marks, sel, len, m);
            let j = choose|j: int| 0 <= j < len && sel(j) && chunk[m] == #[trigger] adv_marks[j];
            assert(pids[j] == id);
        } else {
            assert(pids[m] == id);
        }
    }
}

/// The task of a core after a call: its packets are where they now are on
/// the path, and free in time.
proof fn lemma_called_task(
    task0: Task,
    new_task: Task,
    calls0: Seq<int>,
    free0: Seq<int>,
    packets: Seq<Option<Packet>>,
    ids: Seq<usize>,
    is_chunk: bool,
    sel: spec_fn(int) -> bool,
    now: int,
    new_t: int,
)
    requires
        on_path(task0, calls0, packets),
        packets_free_ok(task0, free0, now),
        task0.next_t <= now <= new_t,
        new_task.next_t == new_t,
        forall|k: int| 0 <= k < task0.packets@.len() ==> (#[trigger] task0.packets@[k]).id < calls0.len(),
        forall|k: int| 0 <= k < task0.packets@.len() ==> (#[trigger] task0.packets@[k]).id < free0.len(),
        forall|k: int|
            0 <= k < task0.packets@.len() ==> (ids.contains(#[trigger] task0.packets@[k].id) <==> (!is_chunk || sel(k))),
        forall|k: int| 0 <= k < task0.packets@.len() && sel(k) ==> !(#[trigger] task0.packets@[k]).is_advanced,
        forall|id: usize| #[trigger] ids.contains(id) ==> task0.packets@.map_values(|p: PacketStatus| p.id).contains(id),
        !task0.is_chunked ==> forall|k: int| 0 <= k < task0.packets@.len() ==> !(#[trigger] task0.packets@[k]).is_advanced,
        new_task.packet_type == task0.packet_type,
        !is_chunk ==> !task0.is_chunked,
        !is_chunk ==> new_task.packets@ == unswitched(task0.packets@) && new_task.path_index == task0.path_index + 1
            && !new_task.is_chunked && new_task.last_chunk_min_i is None,
        is_chunk ==> (new_task.last_chunk_min_i matches Some(m) && forall|j: int| 0 <= j < m ==> !#[trigger] sel(j)),
        is_chunk && crate::greedy::any_unadvanced(marked(task0.packets@, sel)) ==> new_task.packets@ == marked(task0.packets@, sel)
            && new_task.path_index == task0.path_index && new_task.is_chunked,
        is_chunk && !crate::greedy::any_unadvanced(marked(task0.packets@, sel)) ==> new_task.packets@
            == crate::greedy::clear_advanced(marked(task0.packets@, sel)) && new_task.path_index == task0.path_index + 1
            && !new_task.is_chunked,
    ensures
        on_path(new_task, called(calls0, ids), packets),
        packets_free_ok(new_task, freed_at(free0, ids, new_t), now),
        forall|m: int|
            0 <= m < ids.len() ==> calls0[#[trigger] ids[m] as int] == task0.path_index && packets[ids[m] as int]->0.packet_type
                == task0.packet_type,
{
    let ps = task0.packets@;
    let calls1 = called(calls0, ids);
    let free1 = freed_at(free0, ids, new_t);
    assert forall|k: int| 0 <= k < new_task.packets@.len() implies new_task.packets@[k].id == ps[k].id by {}
    assert forall|k: int| 0 <= k < new_task.packets@.len() implies {
        let p = #[trigger] new_task.packets@[k];
        &&& calls1[p.id as int] == new_task.path_index + (if p.is_advanced {
            1int
        } else {
            0int
        })
        &&& packets[p.id as int]->0.packet_type == new_task.packet_type
    } by {
        assert(new_task.packets@[k].id == ps[k].id);
        assert(ids.contains(ps[k].id) <==> (!is_chunk || sel(k)));
        if is_chunk && !crate::greedy::any_unadvanced(marked(ps, sel)) && !sel(k) {
            assert(marked(ps, sel)[k].is_advanced);
        }
    }
    assert forall|m: int| 0 <= m < ids.len() implies calls0[#[trigger] ids[m] as int] == task0.path_index
        && packets[ids[m] as int]->0.packet_type == task0.packet_type by {
        assert(ids.contains(ids[m]));
        let pids = ps.map_values(|p: PacketStatus| p.id);
        assert(pids.contains(ids[m]));
        let j = choose|j: int| 0 <= j < pids.len() && pids[j] == ids[m];
        assert(ps[j].id == ids[m]);
        assert(ids.contains(ps[j].id) <==> (!is_chunk || sel(j)));
    }
    assert forall|k: int| 0 <= k < new_task.packets@.len() implies free1[(#[trigger] new_task.packets@[k]).id as int] <= new_task.next_t
        && (!may_be_running(new_task, k) ==> free1[new_task.packets@[k].id as int] <= now) by {
        assert(new_task.packets@[k].id == ps[k].id);
        assert(free0[ps[k].id as int] <= task0.next_t);
        assert(ids.contains(ps[k].id) <==> (!is_chunk || sel(k)));
    }
}

/// A call of packets of the task of core `ci` leaves the other cores'
/// tasks, the waiting packets and those not received as they were.
proof fn lemma_call_leaves_others(
    s0: State,
    s1: State,
    n_cores: int,
    n: int,
    ci: int,
    ids: Seq<usize>,
    calls0: Seq<int>,
    free0: Seq<int>,
    now: int,
    new_t: int,
    cost_r: int,
)
    requires
        0 <= ci < n_cores,
        s0.next_tasks@[ci] is Some,
        held_once(s0, n_cores),
        forall|c: int| 0 <= c < n_cores && c != ci ==> s1.next_tasks@[c] == s0.next_tasks@[c],
        s1.await_packets == s0.await_packets,
        s1.packets == s0.packets,
        forall|id: usize| #[trigger] ids.contains(id) ==> in_task(s0, ci, id),
        forall|id: usize| #[trigger] ids.contains(id) ==> s0.packets@[id as int] is Some,
        forall|c: int|
            0 <= c < n_cores ==> (#[trigger] s0.next_tasks@[c] matches Some(t) ==> packets_free_ok(t, free0, now) && on_path(
                t,
                calls0,
                s0.packets@,
            )),
        forall|id: usize|
            #[trigger] s0.await_packets.que@.contains(id) ==> free0[id as int] <= s0.packets@[id as int]->0.received_t + cost_r
                && calls0[id as int] == 0,
        forall|i: int| 0 <= i < n && #[trigger] s0.packets@[i] is None ==> free0[i] == -MAX_TIME && calls0[i] == 0,
        free0.len() == n,
        calls0.len() == n,
        0 <= n <= MAX_PACKETS,
        forall|c: int|
            0 <= c < n_cores ==> (#[trigger] s0.next_tasks@[c] matches Some(t) ==> forall|k: int|
                0 <= k < t.packets@.len() ==> (#[trigger] t.packets@[k]).id < n),
        forall|id: usize| #[trigger] s0.await_packets.que@.contains(id) ==> id < n,
    ensures
        forall|c: int|
            0 <= c < n_cores && c != ci ==> (#[trigger] s1.next_tasks@[c] matches Some(t) ==> packets_free_ok(
                t,
                freed_at(free0, ids, new_t),
                now,
            ) && on_path(t, called(calls0, ids), s1.packets@)),
        forall|id: usize|
            #[trigger] s1.await_packets.que@.contains(id) ==> freed_at(free0, ids, new_t)[id as int] <= s1.packets@[id as int]->0.received_t
                + cost_r && called(calls0, ids)[id as int] == 0,
        forall|i: int|
            0 <= i < n && #[trigger] s1.packets@[i] is None ==> freed_at(free0, ids, new_t)[i] == -MAX_TIME && called(calls0, ids)[i]
                == 0,
{
    let free1 = freed_at(free0, ids, new_t);
    let calls1 = called(calls0, ids);
    assert forall|c: int| 0 <= c < n_cores && c != ci implies (#[trigger] s1.next_tasks@[c] matches Some(t) ==> packets_free_ok(
        t,
        free1,
        now,
    ) && on_path(t, calls1, s1.packets@)) by {
        if let Some(t) = s1.next_tasks@[c] {
            assert(s0.next_tasks@[c] == s1.next_tasks@[c]);
            assert forall|k: int| 0 <= k < t.packets@.len() implies !ids.contains((#[trigger] t.packets@[k]).id) by {
                assert(task_ids(t)[k] == t.packets@[k].id);
                assert(in_task(s0, c, t.packets@[k].id));
                if ids.contains(t.packets@[k].id) {
                    if c < ci {
                        assert(!(in_task(s0, c, t.packets@[k].id) && in_task(s0, ci, t.packets@[k].id)));
                    } else {
                        assert(!(in_task(s0, ci, t.packets@[k].id) && in_task(s0, c, t.packets@[k].id)));
                    }
                }
            }
        }
    }
    assert forall|id: usize| #[trigger] s1.await_packets.que@.contains(id) implies free1[id as int] <= s1.packets@[id as int]->0.received_t
        + cost_r && calls1[id as int] == 0 by {
        if ids.contains(id) {
            assert(in_task(s0, ci, id));
        }
    }
    assert forall|i: int| 0 <= i < n && #[trigger] s1.packets@[i] is None implies free1[i] == -MAX_TIME && calls1[i] == 0 by {
        if ids.contains(i as usize) {
            assert(s0.packets@[(i as usize) as int] is Some);
        }
    }
}

/// `free` after a call of the packets `ids` that ends at `t`.
pub open spec fn freed_at(free: Seq<int>, ids: Seq<usize>, t: int) -> Seq<int> {
    Seq::new(free.len(), |i: int| if ids.contains(i as usize) {
        t
    } else {
        free[i]
    })
}

/// When the receive after one at `cur_t` is due: none once every packet is
/// in, or when it would fall after `MAX_T`; else one receive cost later while
/// packets keep coming, at least `MIN_AWAIT_INTERVAL` later otherwise.
pub open spec fn next_receive(state: State, cur_t: int, input: Input) -> Option<int> {
    let dt = if cur_t <= state.last_received_t + crate::greedy::LAST_RECEIVED_T_THRESHOLD && state.received_packets.que@.len() > 0 {
        input.cost_r as int
    } else if crate::greedy::MIN_AWAIT_INTERVAL >= input.cost_r {
        crate::greedy::MIN_AWAIT_INTERVAL as int
    } else {
        input.cost_r as int
    };
    if state.received_packets.que@.len() == state.packets@.len() || cur_t + dt > MAX_T {
        None
    } else {
        Some(cur_t + dt)
    }
}

/// The queue after scheduling the receive after one at `cur_t`.
pub open spec fn with_next_receive(q: Seq<(i64, Event)>, state: State, cur_t: int, input: Input) -> Seq<(i64, Event)> {
    match next_receive(state, cur_t, input) {
        Some(t) => q.push((t as i64, Event::ReceivePacket)),
        None => q,
    }
}

/// How many of the first `c` cores have no task in `tasks`.
pub open spec fn idle_before(tasks: Seq<Option<Task>>, c: int) -> int
    decreases c,
{
    if c <= 0 {
        0
    } else {
        idle_before(tasks, c - 1) + (if tasks[c - 1] is None {
            1int
        } else {
            0int
        })
    }
}

/// Core `c`, busy in `before`, keeps its task; idle, it takes the candidate
/// of `order` for its rank among the idle cores, while there is one.
pub open spec fn takes_in_turn(before: Seq<Option<Task>>, after: Seq<Option<Task>>, tasks: Seq<Task>, order: Seq<usize>, c: int) -> bool {
    if before[c] is Some {
        after[c] == before[c]
    } else if idle_before(before, c) < order.len() {
        after[c] matches Some(t) && same_task(t, tasks[order[idle_before(before, c)] as int])
    } else {
        after[c] is None
    }
}

/// A resume of a core is due no earlier than the last call sent to the core ends.
pub open spec fn resumes_after_call(item: (i64, Event), busy_until: Seq<int>) -> bool {
    item.1 matches Event::ResumeCore(c) ==> busy_until[c as int] <= item.0
}

/// A resume of a core is due when the task of the core is ready.
pub open spec fn resumes_at_task_time(item: (i64, Event), state: State) -> bool {
    item.1 matches Event::ResumeCore(c) ==> (state.next_tasks@[c as int] matches Some(task) && task.next_t == item.0)
}

impl GreedyRun {
    /// The invariant apart from the phase: `except` is the core whose resume
    /// is taken out while its task is handled.
    pub open spec fn core_inv(&self, input: Input, graph: Graph, except: Option<usize>) -> bool {
        &&& input.wf()
        &&& graph_fits(graph)
        &&& self.n <= MAX_PACKETS
        &&& self.state.wf(self.n as nat, input, graph)
        &&& self.calculator.describes(input, graph)
        &&& self.tracker.wf(self.n as nat)
        &&& 0 <= self.horizon
        &&& forall|k: int|
            0 <= k < self.queue.items@.len() ==> {
                let item = #[trigger] self.queue.items@[k];
                &&& 0 <= item.0 <= self.horizon
                &&& item.1 matches Event::ResumeCore(c) ==> c < input.n_cores
                &&& item.1 is ReceivePacket ==> item.0 <= MAX_T
            }
        &&& forall|c: int|
            0 <= c < input.n_cores ==> (#[trigger] self.state.next_tasks@[c] matches Some(t) ==> t.next_t <= self.horizon)
        &&& forall|c: int|
            0 <= c < input.n_cores ==> #[trigger] count_event(self.queue.items@, Event::ResumeCore(c as usize))
                == if self.state.next_tasks@[c] is Some && except != Some(c as usize) {
                1int
            } else {
                0int
            }
        &&& held_once(self.state, input.n_cores as int)
        &&& 0 <= self.now@ <= self.horizon
        &&& forall|k: int| 0 <= k < self.queue.items@.len() ==> self.now@ <= (#[trigger] self.queue.items@[k]).0
        &&& forall|k: int|
            0 <= k < self.queue.items@.len() ==> resumes_at_task_time(#[trigger] self.queue.items@[k], self.state)
        &&& self.busy_until@.len() == input.n_cores
        &&& forall|k: int|
            0 <= k < self.queue.items@.len() ==> resumes_after_call(#[trigger] self.queue.items@[k], self.busy_until@)
        &&& forall|c: int|
            0 <= c < input.n_cores && (self.state.next_tasks@[c] is None || except == Some(c as usize)) ==> #[trigger] self.busy_until@[c]
                <= self.now@
        &&& self.packet_free@.len() == self.n
        &&& forall|c: int|
            0 <= c < input.n_cores ==> (#[trigger] self.state.next_tasks@[c] matches Some(t) ==> packets_free_ok(
                t,
                self.packet_free@,
                self.now@,
            ))
        &&& forall|c: int|
            0 <= c < input.n_cores && except == Some(c as usize) ==> (#[trigger] self.state.next_tasks@[c] matches Some(t)
                ==> t.next_t <= self.now@)
        &&& forall|id: usize|
            #[trigger] self.state.await_packets.que@.contains(id) ==> self.packet_free@[id as int] <= self.state.packets@[id as int]->0.received_t
                + input.cost_r
        &&& forall|i: int| 0 <= i < self.n && #[trigger] self.state.packets@[i] is None ==> self.packet_free@[i] == -MAX_TIME
        &&& self.calls@.len() == self.n
        &&& forall|c: int|
            0 <= c < input.n_cores ==> (#[trigger] self.state.next_tasks@[c] matches Some(t) ==> on_path(
                t,
                self.calls@,
                self.state.packets@,
            ))
        &&& forall|id: usize| #[trigger] self.state.await_packets.que@.contains(id) ==> self.calls@[id as int] == 0
        &&& forall|i: int| 0 <= i < self.n && #[trigger] self.state.packets@[i] is None ==> self.calls@[i] == 0
    }

    pub open spec fn phase_ok(&self, input: Input, graph: Graph) -> bool {
        match self.phase {
            Phase::Idle => true,
            Phase::Finished => true,
            Phase::Receiving { t } => 0 <= t <= MAX_T && t == self.now@,
            Phase::PlanForReceive { t, tasks } => {
                &&& 0 <= t <= MAX_T
                &&& t == self.now@
                &&& forall|k: int|
                    0 <= k < tasks@.len() ==> fresh_task_ok(#[trigger] tasks@[k], self.state, graph, input, t as int)
                &&& plan_disjoint(tasks@)
            },
            Phase::PlanForComplete { t, core_id, tasks } => {
                &&& 0 <= t <= self.horizon
                &&& t == self.now@
                &&& core_id < input.n_cores
                &&& self.state.next_tasks@[core_id as int] is None
                &&& forall|k: int|
                    0 <= k < tasks@.len() ==> fresh_task_ok(#[trigger] tasks@[k], self.state, graph, input, t as int)
                &&& plan_disjoint(tasks@)
            },
            Phase::Querying { t, core_id, packet_id } => {
                &&& 0 <= t <= self.horizon
                &&& t == self.now@
                &&& core_id < input.n_cores
                &&& packet_id < self.n
                &&& self.state.next_tasks@[core_id as int] matches Some(task) && task.path_index
                    < graph.path_len(task.packet_type as int)
            },
        }
    }

    pub open spec fn inv(&self, input: Input, graph: Graph) -> bool {
        &&& self.core_inv(input, graph, querying_core(self.phase))
        &&& self.phase_ok(input, graph)
    }

    /// Whether `reply` answers the command that led to the current phase.
    pub open spec fn fits(&self, reply: Reply) -> bool {
        match self.phase {
            Phase::Receiving { .. } => reply matches Reply::Packets(opt) && (opt matches Some(v) ==> forall|k: int|
                0 <= k < v@.len() ==> (#[trigger] v@[k]).wf(self.n as nat) && v@[k].i < self.state.packets@.len()
                    && self.state.packets@[v@[k].i as int] is None),
            Phase::PlanForReceive { tasks, .. } => reply matches Reply::Order(o) && o@.no_duplicates() && forall|k: int|
                0 <= k < o@.len() ==> #[trigger] o@[k] < tasks@.len(),
            Phase::PlanForComplete { tasks, .. } => reply matches Reply::Order(o) && o@.no_duplicates() && forall|k: int|
                0 <= k < o@.len() ==> #[trigger] o@[k] < tasks@.len(),
            Phase::Querying { .. } => reply is Works,
            _ => reply is Ready,
        }
    }
}

pub(crate) proof fn lemma_count_push(s: Seq<(i64, Event)>, x: (i64, Event), e: Event)
    ensures
        count_event(s.push(x), e) == count_event(s, e) + (if x.1 == e {
            1int
        } else {
            0int
        }),
{
    assert(s.push(x).drop_last() == s);
}

/// The cost of the special works a packet needs.
pub open spec fn works_cost(bits: Seq<bool>, costs: Seq<i64>, k: int) -> int
    decreases k,
{
    if k <= 0 {
        0
    } else {
        works_cost(bits, costs, k - 1) + (if bits[k - 1] {
            costs[k - 1] as int
        } else {
            0int
        })
    }
}

/// What the special works `works` of a packet cost.
pub fn special_works_cost(works: &[bool; N_SPECIAL], graph: &Graph) -> (r: i64)
    requires
        graph.wf(),
    ensures
        r == works_cost(works@, graph.special_costs@, N_SPECIAL as int),
        0 <= r <= N_SPECIAL * MAX_COST,
{
    let mut cost_sum: i64 = 0;
    let mut i: usize = 0;
    while i < N_SPECIAL
        invariant
            graph.wf(),
            i <= N_SPECIAL,
            works@.len() == N_SPECIAL,
            cost_sum == works_cost(works@, graph.special_costs@, i as int),
            0 <= cost_sum <= i * MAX_COST,
        decreases N_SPECIAL - i,
    {
        if works[i] {
            cost_sum = cost_sum + graph.special_costs[i];
        }
        i = i + 1;
    }
    cost_sum
}

/// The time a node call takes: the node's cost for the batch, plus the
/// packets' special works at the special node.
pub open spec fn call_duration(graph: Graph, node_id: int, packets: Seq<PacketStatus>, costs: Seq<Option<i64>>) -> int {
    graph.cost(node_id, packets.len() as int) + (if node_id == SPECIAL_NODE_ID {
        known_special(packets, costs, false)
    } else {
        0
    })
}

/// How many of `packets` move over from another core.
pub open spec fn switching_count(packets: Seq<PacketStatus>) -> int
    decreases packets.len(),
{
    if packets.len() == 0 {
        0
    } else {
        switching_count(packets.drop_last()) + (if packets.last().is_switching_core {
            1int
        } else {
            0int
        })
    }
}

/// All special works of `packets` are known.
pub open spec fn works_known(packets: Seq<PacketStatus>, costs: Seq<Option<i64>>) -> bool {
    forall|k: int| 0 <= k < packets.len() ==> costs[(#[trigger] packets[k]).id as int] is Some
}

proof fn lemma_known_special_bound(ps: Seq<PacketStatus>, costs: Seq<Option<i64>>)
    requires
        forall|k: int| 0 <= k < ps.len() ==> (#[trigger] ps[k]).id < costs.len(),
        forall|i: int| 0 <= i < costs.len() ==> special_cost_ok(#[trigger] costs[i]),
    ensures
        0 <= known_special(ps, costs, false) <= ps.len() * (N_SPECIAL * MAX_COST),
        0 <= switching_count(ps) <= ps.len(),
    decreases ps.len(),
{
    if ps.len() > 0 {
        let q = ps.drop_last();
        assert forall|k: int| 0 <= k < q.len() implies (#[trigger] q[k]).id < costs.len() by {
            assert(q[k] == ps[k]);
        }
        lemma_known_special_bound(q, costs);
        assert(ps.last() == ps[ps.len() - 1]);
        assert(special_cost_ok(costs[ps.last().id as int]));
    }
}

/// Whether a task at the special node should go through it in chunks: no
/// packet waits, and some other core will be free before the whole batch
/// would be through.
pub open spec fn spec_should_chunk(node_id: int, cur_task: Task, state: State, core_id: int, input: Input, graph: Graph) -> bool {
    node_id == SPECIAL_NODE_ID && state.await_packets.que@.len() == 0 && exists|c: int|
        0 <= c < input.n_cores && c != core_id && #[trigger] core_duration_fixed(state, c, input, graph) + 128
            * core_duration_special(state, c, graph) < call_duration(
            graph,
            node_id,
            cur_task.packets@,
            state.packet_special_cost@,
        )
}

pub fn should_chunk_special_node_task(
    node_id: usize,
    cur_task: &Task,
    state: &State,
    core_id: usize,
    input: &Input,
    graph: &Graph,
) -> (r: bool)
    requires
        state.wf(state.packets@.len(), *input, *graph),
        input.wf(),
        graph_fits(*graph),
        node_id < N_NODE,
        cur_task.wf(state.packets@, *graph),
        node_id == SPECIAL_NODE_ID ==> works_known(cur_task.packets@, state.packet_special_cost@),
    ensures
        r == spec_should_chunk(node_id as int, *cur_task, *state, core_id as int, *input, *graph),
{
    if node_id != SPECIAL_NODE_ID {
        return false;
    }
    if state.await_packets.size() > 0 {
        return false;
    }
    let ghost costs = state.packet_special_cost@;
    let ghost ps = cur_task.packets@;
    proof {
        assert(node_wf(graph.nodes@[node_id as int]));
        lemma_known_special_bound(ps, costs);
    }
    let mut extra: i64 = 0;
    let mut j: usize = 0;
    while j < cur_task.packets.len()
        invariant
            j <= ps.len(),
            ps == cur_task.packets@,
            costs == state.packet_special_cost@,
            ps.len() <= MAX_TASK_PACKETS,
            forall|k: int| 0 <= k < ps.len() ==> (#[trigger] ps[k]).id < costs.len(),
            forall|i: int| 0 <= i < costs.len() ==> special_cost_ok(#[trigger] costs[i]),
            works_known(ps, costs),
            extra == known_special(ps.take(j as int), costs, false),
        decreases ps.len() - j,
    {
        proof {
            let q = ps.take(j + 1);
            assert(q.drop_last() == ps.take(j as int));
            assert forall|x: int| 0 <= x < q.len() implies (#[trigger] q[x]).id < costs.len() by {
                assert(q[x] == ps[x]);
            }
            lemma_known_special_bound(q, costs);
            assert(q.len() * (N_SPECIAL * MAX_COST) <= MAX_TASK_PACKETS * (N_SPECIAL * MAX_COST)) by (nonlinear_arith)
                requires
                    q.len() <= MAX_TASK_PACKETS,
            ;
        }
        let id = cur_task.packets[j].id;
        extra = extra + state.packet_special_cost[id].unwrap();
        j = j + 1;
    }
    proof {
        assert(ps.take(ps.len() as int) == ps);
        assert(ps.len() * (N_SPECIAL * MAX_COST) <= MAX_TASK_PACKETS * (N_SPECIAL * MAX_COST)) by (nonlinear_arith)
            requires
                ps.len() <= MAX_TASK_PACKETS,
        ;
    }
    let dt = graph.nodes[node_id].costs[cur_task.packets.len()] + extra;
    let mut other_core_id: usize = 0;
    while other_core_id < input.n_cores
        invariant
            state.wf(state.packets@.len(), *input, *graph),
            input.wf(),
            graph_fits(*graph),
            other_core_id <= input.n_cores,
            dt == call_duration(*graph, node_id as int, cur_task.packets@, state.packet_special_cost@),
            node_id == SPECIAL_NODE_ID,
            state.await_packets.que@.len() == 0,
            cur_task.wf(state.packets@, *graph),
            forall|c: int|
                0 <= c < other_core_id && c != core_id ==> !(#[trigger] core_duration_fixed(*state, c, *input, *graph) + 128
                    * core_duration_special(*state, c, *graph) < dt),
        decreases input.n_cores - other_core_id,
    {
        if other_core_id != core_id {
            proof {
                assert(state.idle_tasks@[other_core_id as int] is None);
                if let Some(task) = state.next_tasks@[other_core_id as int] {
                    assert(task.wf(state.packets@, *graph));
                }
            }
            let d = estimate_core_duration(state, other_core_id, input, graph);
            let other_core_duration = d.estimate();
            if other_core_duration < dt {
                proof {
                    let c = other_core_id as int;
                    assert(core_duration_fixed(*state, c, *input, *graph) + 128 * core_duration_special(*state, c, *graph) < call_duration(
                        *graph,
                        node_id as int,
                        cur_task.packets@,
                        state.packet_special_cost@,
                    ));
                    assert(exists|c: int|
                        0 <= c < input.n_cores && c != core_id && #[trigger] core_duration_fixed(*state, c, *input, *graph) + 128
                            * core_duration_special(*state, c, *graph) < call_duration(
                            *graph,
                            node_id as int,
                            cur_task.packets@,
                            state.packet_special_cost@,
                        ));
                }
                return true;
            }
        }
        other_core_id = other_core_id + 1;
    }
    false
}

pub fn is_chunk_node(node_id: usize) -> (r: bool)
    ensures
        r == (node_id == 11 || node_id == 13 || node_id == 15 || node_id == 18),
{
    let nodes = CHUNK_NODES;
    let mut k: usize = 0;
    while k < 4
        invariant
            k <= 4,
            nodes@ == seq![11usize, 13, 15, 18],
            forall|j: int| 0 <= j < k ==> nodes@[j] != node_id,
        decreases 4 - k,
    {
        if nodes[k] == node_id {
            return true;
        }
        k = k + 1;
    }
    false
}

/// The packets a chunked node call takes: the first `desired` of those not yet through the node.
pub open spec fn chunk_selects(ps: Seq<PacketStatus>, desired: int) -> spec_fn(int) -> bool {
    |i: int| !ps[i].is_advanced && crate::calculator::count_unadvanced(ps.take(i)) < desired
}

/// How many of `ps` are the packet `id`.
pub open spec fn id_count(ps: Seq<PacketStatus>, id: int) -> nat
    decreases ps.len(),
{
    if ps.len() == 0 {
        0
    } else {
        id_count(ps.drop_last(), id) + (if ps.last().id == id {
            1nat
        } else {
            0nat
        })
    }
}

/// The tracker's packet histories once `h` is added for each of `ps`, when it is on.
pub open spec fn histories_after(tracker: Tracker, ps: Seq<PacketStatus>, h: PacketHistory, i: int) -> Seq<PacketHistory> {
    if tracker.enabled {
        tracker.packet_history@[i]@ + Seq::new(id_count(ps, i), |k: int| h)
    } else {
        tracker.packet_history@[i]@
    }
}

impl GreedyRun {
    /// Runs node `node_id` on `core_id` for `packets` of `task` from `cur_t`:
    /// the core is busy for the node's cost plus the core switches, and the
    /// call is recorded.
    fn process_packets(
        &mut self,
        task: &mut Task,
        cur_t: i64,
        packets: &Vec<PacketStatus>,
        core_id: usize,
        node_id: usize,
        input: &Input,
        graph: &Graph,
    ) -> (ids: Vec<usize>)
        requires
            input.wf(),
            graph.wf(),
            old(self).tracker.wf(old(self).n as nat),
            old(self).state.packet_special_cost@.len() == old(self).n,
            forall|i: int| 0 <= i < old(self).n ==> special_cost_ok(#[trigger] old(self).state.packet_special_cost@[i]),
            node_id < N_NODE,
            packets@.len() <= MAX_TASK_PACKETS,
            packets@.len() <= graph.max_batch(node_id as int),
            forall|k: int| 0 <= k < packets@.len() ==> (#[trigger] packets@[k]).id < old(self).n,
            node_id == SPECIAL_NODE_ID ==> works_known(packets@, old(self).state.packet_special_cost@),
            0 <= cur_t <= RUN_TIME_CAP,
            core_id < input.n_cores,
        ensures
            final(self).now == old(self).now,
            final(self).busy_until == old(self).busy_until,
            final(self).packet_free == old(self).packet_free,
            final(self).calls == old(self).calls,
            final(task).next_t == cur_t + call_duration(*graph, node_id as int, packets@, old(self).state.packet_special_cost@)
                + switching_count(packets@) * input.cost_switch,
            cur_t <= final(task).next_t <= cur_t + STEP_SPAN,
            final(task).packet_type == old(task).packet_type,
            final(task).path_index == old(task).path_index,
            final(task).is_chunked == old(task).is_chunked,
            final(task).last_chunk_min_i == old(task).last_chunk_min_i,
            final(task).packets == old(task).packets,
            final(self).queue.items@ == old(self).queue.items@.push((final(task).next_t, Event::ResumeCore(core_id))),
            final(self).state == old(self).state,
            final(self).n == old(self).n,
            final(self).calculator == old(self).calculator,
            final(self).phase == old(self).phase,
            final(self).horizon == old(self).horizon,
            final(self).tracker.wf(final(self).n as nat),
            final(self).tracker.enabled == old(self).tracker.enabled,
            ids@ == packets@.map_values(|p: PacketStatus| p.id),
            final(self).tracker.packet_history@.len() == old(self).tracker.packet_history@.len(),
            forall|i: int|
                0 <= i < old(self).tracker.packet_history@.len() ==> (#[trigger] final(self).tracker.packet_history@[i])@
                    == histories_after(
                    old(self).tracker,
                    packets@,
                    PacketHistory { start_t: cur_t, end_t: final(task).next_t, core_id },
                    i,
                ),
            final(self).tracker.task_logs@ == (if old(self).tracker.enabled {
                old(self).tracker.task_logs@.push(
                    TaskLog {
                        core_id,
                        start_t: cur_t,
                        end_t: final(task).next_t,
                        node_id,
                        batch_size: packets@.len() as usize,
                        packet_type: old(task).packet_type,
                        path_index: old(task).path_index,
                    },
                )
            } else {
                old(self).tracker.task_logs@
            }),
    {
        let ghost costs = self.state.packet_special_cost@;
        let ghost ps = packets@;
        proof {
            lemma_known_special_bound(ps, costs);
            assert(ps.len() * (N_SPECIAL * MAX_COST) <= MAX_TASK_PACKETS * (N_SPECIAL * MAX_COST)) by (nonlinear_arith)
                requires
                    ps.len() <= MAX_TASK_PACKETS,
            ;
            assert(node_wf(graph.nodes@[node_id as int]));
        }
        let mut extra: i64 = 0;
        let mut switching: i64 = 0;
        let mut ids: Vec<usize> = Vec::with_capacity(packets.len());
        let mut j: usize = 0;
        while j < packets.len()
            invariant
                j <= ps.len(),
                ps == packets@,
                costs == self.state.packet_special_cost@,
                ps.len() <= MAX_TASK_PACKETS,
                forall|k: int| 0 <= k < ps.len() ==> (#[trigger] ps[k]).id < costs.len(),
                forall|i: int| 0 <= i < costs.len() ==> special_cost_ok(#[trigger] costs[i]),
                node_id == SPECIAL_NODE_ID ==> works_known(ps, costs),
                node_id == SPECIAL_NODE_ID ==> extra == known_special(ps.take(j as int), costs, false),
                node_id != SPECIAL_NODE_ID ==> extra == 0,
                switching == switching_count(ps.take(j as int)),
                ids@ == ps.take(j as int).map_values(|p: PacketStatus| p.id),
            decreases ps.len() - j,
        {
            proof {
                let q = ps.take(j + 1);
                assert(q.drop_last() == ps.take(j as int));
                assert forall|x: int| 0 <= x < q.len() implies (#[trigger] q[x]).id < costs.len() by {
                    assert(q[x] == ps[x]);
                }
                lemma_known_special_bound(q, costs);
                assert(q.len() * (N_SPECIAL * MAX_COST) <= MAX_TASK_PACKETS * (N_SPECIAL * MAX_COST)) by (nonlinear_arith)
                    requires
                        q.len() <= MAX_TASK_PACKETS,
                ;
            }
            let p = packets[j];
            if node_id == SPECIAL_NODE_ID {
                extra = extra + self.state.packet_special_cost[p.id].unwrap();
            }
            if p.is_switching_core {
                switching = switching + 1;
            }
            ids.push(p.id);
            proof {
                assert(ps.take(j + 1).map_values(|p: PacketStatus| p.id) =~= ps.take(j as int).map_values(|p: PacketStatus| p.id).push(p.id));
            }
            j = j + 1;
        }
        proof {
            assert(ps.take(ps.len() as int) == ps);
            assert(switching * input.cost_switch <= MAX_TASK_PACKETS * MAX_COST) by (nonlinear_arith)
                requires
                    0 <= switching <= MAX_TASK_PACKETS,
                    0 <= input.cost_switch <= MAX_COST,
            ;
            assert(switching * input.cost_switch >= 0) by (nonlinear_arith)
                requires
                    0 <= switching,
                    0 <= input.cost_switch,
            ;
        }
        let dt = graph.nodes[node_id].costs[packets.len()] + extra;
        let switch_cost = switching * input.cost_switch;
        task.next_t = cur_t + dt + switch_cost;
        self.queue.push((task.next_t, Event::ResumeCore(core_id)));
        let next_t = task.next_t;
        let ghost q1 = self.queue.items@;
        let mut j: usize = 0;
        while j < packets.len()
            invariant
                j <= ps.len(),
                ps == packets@,
                self.queue.items@ == q1,
                self.state == old(self).state,
                self.n == old(self).n,
                self.calculator == old(self).calculator,
                self.phase == old(self).phase,
                self.horizon == old(self).horizon,
                self.now == old(self).now,
                self.busy_until == old(self).busy_until,
                self.packet_free == old(self).packet_free,
                self.calls == old(self).calls,
                forall|k: int| 0 <= k < ps.len() ==> (#[trigger] ps[k]).id < self.n,
                self.tracker.wf(self.n as nat),
                self.tracker.enabled == old(self).tracker.enabled,
                self.tracker.task_logs == old(self).tracker.task_logs,
                self.tracker.packet_history@.len() == old(self).tracker.packet_history@.len(),
                forall|i: int|
                    0 <= i < old(self).tracker.packet_history@.len() ==> (#[trigger] self.tracker.packet_history@[i])@
                        == histories_after(
                        old(self).tracker,
                        ps.take(j as int),
                        PacketHistory { start_t: cur_t, end_t: next_t, core_id },
                        i,
                    ),
            decreases ps.len() - j,
        {
            let ghost t0 = self.tracker;
            let h = PacketHistory { start_t: cur_t, end_t: next_t, core_id };
            self.tracker.add_packet_history(packets[j].id, h);
            proof {
                assert(ps.take(j + 1).drop_last() == ps.take(j as int));
                assert forall|i: int|
                    0 <= i < old(self).tracker.packet_history@.len() implies (#[trigger] self.tracker.packet_history@[i])@
                        == histories_after(old(self).tracker, ps.take(j + 1), h, i) by {
                    if old(self).tracker.enabled {
                        let c0 = id_count(ps.take(j as int), i);
                        if ps[j as int].id == i {
                            assert(Seq::new(c0 + 1, |k: int| h) =~= Seq::new(c0, |k: int| h).push(h));
                            assert(old(self).tracker.packet_history@[i]@ + Seq::new(c0 + 1, |k: int| h) =~= (
                            old(self).tracker.packet_history@[i]@ + Seq::new(c0, |k: int| h)).push(h));
                        }
                    }
                }
            }
            j = j + 1;
        }
        self.tracker.add_task_log(TaskLog {
            core_id,
            start_t: cur_t,
            end_t: next_t,
            node_id,
            batch_size: packets.len(),
            packet_type: task.packet_type,
            path_index: task.path_index,
        });
        ids
    }
}

/// The packets after a chunked call: those taken are through the node and
/// on this core from now on.
pub open spec fn marked(ps: Seq<PacketStatus>, sel: spec_fn(int) -> bool) -> Seq<PacketStatus> {
    Seq::new(ps.len(), |i: int| if sel(i) {
        PacketStatus { is_advanced: true, is_switching_core: false, ..ps[i] }
    } else {
        ps[i]
    })
}

/// The packets of `ps` that `sel` takes, marked as through the node.
pub open spec fn advanced_marks(ps: Seq<PacketStatus>, sel: spec_fn(int) -> bool) -> Seq<PacketStatus> {
    Seq::new(ps.len(), |i: int| if sel(i) {
        PacketStatus { is_advanced: true, ..ps[i] }
    } else {
        ps[i]
    })
}

/// The packets after a whole call: all on this core from now on.
pub open spec fn unswitched(ps: Seq<PacketStatus>) -> Seq<PacketStatus> {
    ps.map_values(|p: PacketStatus| PacketStatus { is_switching_core: false, ..p })
}

/// How many packets a call of `node_id` takes for `task` on `core_id`: one
/// at a time at the chunk nodes, a chunk at the special node when another
/// core is about to be free, else as many as the node takes.
pub open spec fn desired_batch(node_id: int, task: Task, state: State, core_id: int, input: Input, graph: Graph) -> int {
    if node_id == 11 || node_id == 13 || node_id == 15 || node_id == 18 {
        1
    } else if spec_should_chunk(node_id, task, state, core_id, input, graph) {
        let c = crate::greedy::div_ceil(task.packets@.len() as int, crate::greedy::SPECIAL_NODE_CHUNK as int);
        if c < 1 {
            1
        } else {
            c
        }
    } else {
        graph.max_batch(node_id)
    }
}

impl GreedyRun {
    /// Moves the task of `core_id` on by one node call at `cur_t`: the whole
    /// batch, or, when the batch is larger than the call takes or already
    /// chunked, the next chunk of packets not yet through the node.
    #[verifier::rlimit(100)]
    #[verifier::spinoff_prover]
    fn process_task(&mut self, core_id: usize, cur_t: i64, input: &Input, graph: &Graph) -> (cmd: Command)
        requires
            cur_t == old(self).now@,
            old(self).core_inv(*input, *graph, Some(core_id)),
            old(self).phase is Idle,
            core_id < input.n_cores,
            0 <= cur_t <= old(self).horizon,
            old(self).horizon <= RUN_TIME_CAP,
            old(self).state.next_tasks@[core_id as int] matches Some(task) && task.path_index
                < graph.path_len(task.packet_type as int) && (graph.node_at(task.packet_type as int, task.path_index as int)
                == SPECIAL_NODE_ID ==> works_known(task.packets@, old(self).state.packet_special_cost@)),
        ensures
            path_step(old(self).calls@, cmd, final(self).calls@, old(self).state.packets@, *graph),
            final(self).now == old(self).now,
            old(self).busy_until@[core_id as int] <= cur_t,
            cur_t <= final(self).state.next_tasks@[core_id as int]->0.next_t,
            cmd matches Command::Execute { ids, .. } ==> forall|k: int|
                0 <= k < ids@.len() ==> old(self).packet_free@[#[trigger] ids@[k] as int] <= cur_t,
            cmd matches Command::Execute { ids, .. } ==> final(self).calls@ == called(old(self).calls@, ids@) && forall|k: int|
                0 <= k < ids@.len() ==> old(self).calls@[#[trigger] ids@[k] as int] == old(self).state.next_tasks@[core_id as int]->0.path_index
                    && old(self).state.packets@[ids@[k] as int]->0.packet_type == old(self).state.next_tasks@[core_id as int]->0.packet_type,
            cmd matches Command::Execute { ids, .. } ==> final(self).packet_free@ == freed_at(
                old(self).packet_free@,
                ids@,
                final(self).state.next_tasks@[core_id as int]->0.next_t as int,
            ),
            final(self).busy_until@ == old(self).busy_until@.update(
                core_id as int,
                final(self).state.next_tasks@[core_id as int]->0.next_t as int,
            ),
            final(self).inv(*input, *graph),
            final(self).phase is Idle,
            final(self).n == old(self).n,
            final(self).state.packet_special_cost == old(self).state.packet_special_cost,
            final(self).state == (State { next_tasks: final(self).state.next_tasks, ..old(self).state }),
            final(self).state.next_tasks@ == old(self).state.next_tasks@.update(
                core_id as int,
                final(self).state.next_tasks@[core_id as int],
            ),
            final(self).queue.items@ == old(self).queue.items@.push(
                (final(self).state.next_tasks@[core_id as int]->0.next_t, Event::ResumeCore(core_id)),
            ),
            held_ids(final(self).state, input.n_cores as int) == held_ids(old(self).state, input.n_cores as int),
            old(self).horizon <= final(self).horizon <= old(self).horizon + STEP_SPAN,
            served(old(self).state, old(self).queue.items@, input.n_cores as int, -1) ==> served(
                final(self).state,
                final(self).queue.items@,
                input.n_cores as int,
                -1,
            ),
            runs_own_packets(cmd, old(self).state, *graph),
            runs_task(old(self).state, final(self).state, cmd, core_id, cur_t as int, *input, *graph),
    {
        let mut task = clone_task(self.state.next_tasks[core_id].as_ref().unwrap());
        let ghost task0 = self.state.next_tasks@[core_id as int]->0;
        let ghost ps = task.packets@;
        let ghost n = self.n as nat;
        let ghost state0 = self.state;
        proof {
            assert(task0.wf(self.state.packets@, *graph));
            assert(path_wf(graph.paths@[task.packet_type as int]));
        }
        let node_id = graph.paths[task.packet_type].path[task.path_index];
        proof {
            assert(node_wf(graph.nodes@[node_id as int]));
        }
        let desired_batch_size = if is_chunk_node(node_id) {
            1
        } else if node_id == SPECIAL_NODE_ID && should_chunk_special_node_task(
            node_id,
            &task,
            &self.state,
            core_id,
            input,
            graph,
        ) {
            get_special_node_chunk_size(&task)
        } else {
            graph.nodes[node_id].costs.len() - 1
        };
        proof {
            assert(desired_batch_size == desired_batch(node_id as int, task0, self.state, core_id as int, *input, *graph));
            assert(1 <= desired_batch_size <= graph.max_batch(node_id as int));
        }
        task.last_chunk_min_i = None;
        let len = task.packets.len();
        let is_chunk = len > desired_batch_size || task.is_chunked;
        let ids;
        let ghost sel = chunk_selects(ps, desired_batch_size as int);
        let ghost adv_marks = advanced_marks(ps, sel);
        if is_chunk {
            task.is_chunked = true;
            let mut chunk_packets: Vec<PacketStatus> = Vec::with_capacity(desired_batch_size);
            let mut min_i = len;
            let mut i: usize = 0;
            while i < len
                invariant
                    i <= len,
                    len == ps.len(),
                    task.packets@.len() == len,
                    sel == chunk_selects(ps, desired_batch_size as int),
                    adv_marks == advanced_marks(ps, sel),
                    chunk_packets@ == crate::greedy::picked(adv_marks, sel, i as int),
                    chunk_packets@.len() == crate::calculator::count_unadvanced(ps.take(i as int)) || chunk_packets@.len() == desired_batch_size,
                    chunk_packets@.len() <= desired_batch_size,
                    chunk_packets@.len() <= i,
                    chunk_packets@.len() <= crate::calculator::count_unadvanced(ps.take(i as int)),
                    forall|j: int| 0 <= j < i ==> #[trigger] task.packets@[j] == marked(ps, sel)[j],
                    forall|j: int| i <= j < len ==> #[trigger] task.packets@[j] == ps[j],
                    forall|j: int| 0 <= j < chunk_packets@.len() ==> (#[trigger] chunk_packets@[j]).id < n,
                    forall|j: int| 0 <= j < len ==> (#[trigger] ps[j]).id < n,
                    node_id == SPECIAL_NODE_ID ==> works_known(ps, self.state.packet_special_cost@),
                    node_id == SPECIAL_NODE_ID ==> works_known(chunk_packets@, self.state.packet_special_cost@),
                    min_i <= len,
                    min_i < len ==> min_i < i && sel(min_i as int),
                    forall|j: int| 0 <= j < i && j < min_i ==> !#[trigger] sel(j),
                    task.packet_type == task0.packet_type,
                    task.path_index == task0.path_index,
                    task.next_t == task0.next_t,
                    task.is_chunked,
                decreases len - i,
            {
                let p = task.packets[i];
                proof {
                    assert(ps.take(i + 1).drop_last() == ps.take(i as int));
                    if chunk_packets@.len() < desired_batch_size {
                        assert(chunk_packets@.len() == crate::calculator::count_unadvanced(ps.take(i as int)));
                    }
                    assert(p == ps[i as int]);
                }
                if chunk_packets.len() < desired_batch_size && !p.is_advanced {
                    chunk_packets.push(PacketStatus { is_advanced: true, ..p });
                    task.packets[i] = PacketStatus { is_advanced: true, is_switching_core: false, ..p };
                    if i < min_i {
                        min_i = i;
                    }
                }
                i = i + 1;
            }
            proof {
                assert(task.packets@ =~= marked(ps, sel));
                assert(chunk_packets@ == crate::greedy::picked(adv_marks, sel, len as int));
            }
            task.last_chunk_min_i = Some(min_i);
            ids = self.process_packets(&mut task, cur_t, &chunk_packets, core_id, node_id, input, graph);
            let mut all_chunk_finished = true;
            let mut k: usize = 0;
            while k < len
                invariant
                    k <= len,
                    task.packets@.len() == len,
                    all_chunk_finished == forall|j: int| 0 <= j < k ==> (#[trigger] task.packets@[j]).is_advanced,
                decreases len - k,
            {
                if !task.packets[k].is_advanced {
                    all_chunk_finished = false;
                }
                k = k + 1;
            }
            proof {
                assert(all_chunk_finished == !crate::greedy::any_unadvanced(marked(ps, sel)));
            }
            if all_chunk_finished {
                proof {
                    assert(task.path_index < graph.path_len(task.packet_type as int));
                }
                task.path_index = task.path_index + 1;
                task.is_chunked = false;
                let ghost before = task.packets@;
                let ghost old_next_t = task.next_t;
                let mut k: usize = 0;
                while k < len
                    invariant
                        k <= len,
                        before.len() == len,
                        task.packets@.len() == len,
                        forall|j: int| 0 <= j < k ==> #[trigger] task.packets@[j] == (PacketStatus { is_advanced: false, ..before[j] }),
                        forall|j: int| k <= j < len ==> #[trigger] task.packets@[j] == before[j],
                        task.packet_type == task0.packet_type,
                        task.path_index == task0.path_index + 1,
                        task.next_t == old_next_t,
                        !task.is_chunked,
                        task.last_chunk_min_i == Some(min_i),
                    decreases len - k,
                {
                    let p = task.packets[k];
                    task.packets[k] = PacketStatus { is_advanced: false, ..p };
                    k = k + 1;
                }
                proof {
                    assert(task.packets@ =~= crate::greedy::clear_advanced(marked(ps, sel)));
                }
            }
        } else {
            let all = clone_task(&task);
            ids = self.process_packets(&mut task, cur_t, &all.packets, core_id, node_id, input, graph);
            let ghost old_next_t = task.next_t;
            let mut k: usize = 0;
            while k < len
                invariant
                    k <= len,
                    len == ps.len(),
                    task.packets@.len() == len,
                    forall|j: int| 0 <= j < k ==> #[trigger] task.packets@[j] == (PacketStatus { is_switching_core: false, ..ps[j] }),
                    forall|j: int| k <= j < len ==> #[trigger] task.packets@[j] == ps[j],
                    task.packet_type == task0.packet_type,
                    task.path_index == task0.path_index,
                    task.next_t == old_next_t,
                    !task.is_chunked,
                    task.last_chunk_min_i is None,
                decreases len - k,
            {
                let p = task.packets[k];
                task.packets[k] = PacketStatus { is_switching_core: false, ..p };
                k = k + 1;
            }
            proof {
                assert(task.packets@ =~= unswitched(ps));
                assert(task.path_index < graph.path_len(task.packet_type as int));
            }
            task.path_index = task.path_index + 1;
        }
        let ghost q_before = self.queue.items@;
        if task.next_t > self.horizon {
            self.horizon = task.next_t;
        }
        self.busy_until = Ghost(self.busy_until@.update(core_id as int, task.next_t as int));
        let ghost new_t: int = task.next_t as int;
        self.state.next_tasks[core_id] = Some(task);
        let ghost free0 = self.packet_free@;
        self.packet_free = Ghost(freed_at(free0, ids@, new_t));
        let ghost calls0 = self.calls@;
        self.calls = Ghost(called(calls0, ids@));
        proof {
            let q0 = old(self).queue.items@;
            let ci = core_id as int;
            assert(count_event(q0, Event::ResumeCore(ci as usize)) == 0);
            lemma_count_zero(q0, Event::ResumeCore(core_id));
            assert forall|k: int| 0 <= k < self.queue.items@.len() implies self.now@ <= (#[trigger] self.queue.items@[k]).0
                && resumes_at_task_time(self.queue.items@[k], self.state) && resumes_after_call(self.queue.items@[k], self.busy_until@) by {
                if k < q0.len() {
                    assert(self.queue.items@[k] == q0[k]);
                    assert(resumes_at_task_time(q0[k], old(self).state));
                    assert(resumes_after_call(q0[k], old(self).busy_until@));
                }
            }
        }
        proof {
            let new_task = self.state.next_tasks@[core_id as int]->0;
            assert forall|k: int| 0 <= k < new_task.packets@.len() implies (#[trigger] new_task.packets@[k]).id == ps[k].id by {}
            assert(task_ids(new_task) =~= task_ids(task0));
            assert(old(self).state.next_tasks@[core_id as int] is Some);
            lemma_held_once_replace(old(self).state, self.state, input.n_cores as int, core_id as int, new_task);
            assert forall|k: int| 0 <= k < ids@.len() implies task_ids(task0).contains(#[trigger] ids@[k]) by {
                if is_chunk {
                    let chunk = crate::greedy::picked(adv_marks, sel, len as int);
                    crate::greedy::lemma_picked_from(adv_marks, sel, len as int);
                    assert(chunk.contains(chunk[k]));
                    assert(adv_marks.contains(chunk[k]));
                    let j = choose|j: int| 0 <= j < adv_marks.len() && adv_marks[j] == chunk[k];
                    assert(task_ids(task0)[j] == ps[j].id);
                } else {
                    assert(task_ids(task0)[k] == ps[k].id);
                }
            }
            assert(ids@.no_duplicates()) by {
                assert(task_ids(task0).no_duplicates());
                if is_chunk {
                    assert(adv_marks.map_values(|p: PacketStatus| p.id) =~= task_ids(task0));
                    crate::greedy::lemma_picked_ids_distinct(adv_marks, sel, len as int);
                } else {
                    assert(ids@ =~= task_ids(task0));
                }
            }
            assert(new_task.wf(self.state.packets@, *graph));
            assert({
                &&& forall|c: int|
                    0 <= c < input.n_cores ==> (#[trigger] self.state.next_tasks@[c] matches Some(t) ==> packets_free_ok(
                        t,
                        self.packet_free@,
                        self.now@,
                    ) && on_path(t, self.calls@, self.state.packets@))
                &&& forall|id: usize|
                    #[trigger] self.state.await_packets.que@.contains(id) ==> self.packet_free@[id as int]
                        <= self.state.packets@[id as int]->0.received_t + input.cost_r && self.calls@[id as int] == 0
                &&& forall|i: int|
                    0 <= i < self.n && #[trigger] self.state.packets@[i] is None ==> self.packet_free@[i] == -MAX_TIME && self.calls@[i]
                        == 0
                &&& forall|m: int|
                    0 <= m < ids@.len() ==> calls0[#[trigger] ids@[m] as int] == task0.path_index && old(self).state.packets@[ids@[m] as int]->0.packet_type
                        == task0.packet_type
            }) by {
                let ci = core_id as int;
                assert(packets_free_ok(task0, free0, self.now@));
                assert(on_path(task0, calls0, old(self).state.packets@));
                assert(task0.next_t <= self.now@);
                assert(task_ids(task0).no_duplicates());
                lemma_call_ids(ps, sel, is_chunk, ids@);
                assert forall|k: int| 0 <= k < len implies (#[trigger] ps[k]).id < calls0.len() && ps[k].id < free0.len() by {}
                lemma_called_task(task0, new_task, calls0, free0, self.state.packets@, ids@, is_chunk, sel, self.now@, new_t);
                assert forall|id: usize| #[trigger] ids@.contains(id) implies in_task(old(self).state, ci, id) by {
                    assert(task_ids(task0).contains(id));
                }
                assert forall|id: usize| #[trigger] ids@.contains(id) implies old(self).state.packets@[id as int] is Some by {
                    let q = choose|q: int| 0 <= q < task_ids(task0).len() && task_ids(task0)[q] == id;
                    assert(task0.packets@[q].id == id);
                }
                assert forall|c: int| 0 <= c < input.n_cores implies (#[trigger] old(self).state.next_tasks@[c] matches Some(t) ==> forall|k: int|
                    0 <= k < t.packets@.len() ==> (#[trigger] t.packets@[k]).id < self.n) by {
                    if let Some(t) = old(self).state.next_tasks@[c] {
                        assert(t.wf(old(self).state.packets@, *graph));
                    }
                }
                assert forall|id: usize| #[trigger] old(self).state.await_packets.que@.contains(id) implies id < self.n by {
                    crate::planning::lemma_await_member(old(self).state, self.n as nat, *input, *graph, id);
                }
                lemma_call_leaves_others(
                    old(self).state,
                    self.state,
                    input.n_cores as int,
                    self.n as int,
                    ci,
                    ids@,
                    calls0,
                    free0,
                    self.now@,
                    new_t,
                    input.cost_r as int,
                );
                assert forall|c: int| 0 <= c < input.n_cores implies (#[trigger] self.state.next_tasks@[c] matches Some(t) ==> packets_free_ok(
                    t,
                    self.packet_free@,
                    self.now@,
                ) && on_path(t, self.calls@, self.state.packets@)) by {
                    if c == core_id as int {
                        assert(self.state.next_tasks@[c] == Some(new_task));
                    }
                }
            }
            assert forall|c: int|
                0 <= c < input.n_cores implies #[trigger] count_event(self.queue.items@, Event::ResumeCore(c as usize))
                    == if self.state.next_tasks@[c] is Some && querying_core(self.phase) != Some(c as usize) {
                    1int
                } else {
                    0int
                } by {
                lemma_count_push(old(self).queue.items@, self.queue.items@.last(), Event::ResumeCore(c as usize));
            }
        }
        proof {
            let new_task = self.state.next_tasks@[core_id as int]->0;
            assert(task_ids(new_task) =~= task_ids(task0));
            lemma_held_same_ids(old(self).state, self.state, input.n_cores as int, core_id as int, task0, new_task);
            lemma_count_push(old(self).queue.items@, self.queue.items@.last(), Event::ReceivePacket);
            assert(self.queue.items@ == old(self).queue.items@.push(self.queue.items@.last()));
        }
        Command::Execute { t: cur_t, core_id, node_id, ids }
    }
}

/// At the special node, the works asked for are those of the first packet
/// of `task`, in its order, whose works are unknown.
pub open spec fn asks_first_unknown(task: Task, packet_id: usize, costs: Seq<Option<i64>>, graph: Graph) -> bool {
    &&& graph.node_at(task.packet_type as int, task.path_index as int) == SPECIAL_NODE_ID
    &&& exists|k: int|
        0 <= k < task.packets@.len() && (#[trigger] task.packets@[k]).id == packet_id && costs[packet_id as int] is None
            && works_known(task.packets@.take(k), costs)
}

/// The first packet of `task` whose special works are unknown.
fn first_unknown_packet(task: &Task, costs: &Vec<Option<i64>>) -> (r: Option<usize>)
    requires
        forall|j: int| 0 <= j < task.packets@.len() ==> (#[trigger] task.packets@[j]).id < costs@.len(),
    ensures
        r is None ==> works_known(task.packets@, costs@),
        r matches Some(id) ==> exists|k: int| 0 <= k < task.packets@.len() && (#[trigger] task.packets@[k]).id == id
            && costs@[id as int] is None && works_known(task.packets@.take(k), costs@),
{
    let mut k: usize = 0;
    while k < task.packets.len()
        invariant
            k <= task.packets@.len(),
            forall|j: int| 0 <= j < task.packets@.len() ==> (#[trigger] task.packets@[j]).id < costs@.len(),
            forall|j: int| 0 <= j < k ==> costs@[(#[trigger] task.packets@[j]).id as int] is Some,
        decreases task.packets@.len() - k,
    {
        let id = task.packets[k].id;
        if costs[id].is_none() {
            proof {
                assert forall|j: int| 0 <= j < k implies costs@[(#[trigger] task.packets@.take(k as int)[j]).id as int] is Some by {
                    assert(task.packets@.take(k as int)[j] == task.packets@[j]);
                }
            }
            return Some(id);
        }
        k = k + 1;
    }
    None
}

impl GreedyRun {
    /// Takes the packets of `task` out of the waiting set.
    fn remove_awaited(&mut self, task: &Task, Ghost(input): Ghost<Input>, Ghost(graph): Ghost<Graph>)
        requires
            old(self).state.wf(old(self).n as nat, input, graph),
            forall|k: int| 0 <= k < task.packets@.len() ==> (#[trigger] task.packets@[k]).id < old(self).n,
        ensures
            final(self).now == old(self).now,
            final(self).busy_until == old(self).busy_until,
            final(self).packet_free == old(self).packet_free,
            final(self).calls == old(self).calls,
            final(self).state.wf(final(self).n as nat, input, graph),
            final(self).n == old(self).n,
            final(self).state.packets == old(self).state.packets,
            final(self).state.packet_special_cost == old(self).state.packet_special_cost,
            final(self).state.next_tasks == old(self).state.next_tasks,
            final(self).state.idle_tasks == old(self).state.idle_tasks,
            final(self).state.received_packets == old(self).state.received_packets,
            final(self).state.last_received_t == old(self).state.last_received_t,
            final(self).state.await_packets.members() == old(self).state.await_packets.members().difference(
                task.packets@.map_values(|p: PacketStatus| p.id).to_set(),
            ),
            final(self).queue == old(self).queue,
            final(self).tracker == old(self).tracker,
            final(self).calculator == old(self).calculator,
            final(self).phase == old(self).phase,
            final(self).horizon == old(self).horizon,
            forall|id: usize|
                #[trigger] final(self).state.await_packets.que@.contains(id) ==> old(self).state.await_packets.que@.contains(id),
    {
        let ghost ids = task.packets@.map_values(|p: PacketStatus| p.id);
        let mut k: usize = 0;
        while k < task.packets.len()
            invariant
                k <= task.packets@.len(),
                ids == task.packets@.map_values(|p: PacketStatus| p.id),
                forall|j: int| 0 <= j < task.packets@.len() ==> (#[trigger] task.packets@[j]).id < self.n,
                self.state.wf(self.n as nat, input, graph),
                self.n == old(self).n,
                self.state.packets == old(self).state.packets,
                self.state.packet_special_cost == old(self).state.packet_special_cost,
                self.state.next_tasks == old(self).state.next_tasks,
                self.state.idle_tasks == old(self).state.idle_tasks,
                self.state.received_packets == old(self).state.received_packets,
                self.state.last_received_t == old(self).state.last_received_t,
                self.state.await_packets.members() == old(self).state.await_packets.members().difference(
                    ids.take(k as int).to_set(),
                ),
                self.queue == old(self).queue,
                self.tracker == old(self).tracker,
                self.calculator == old(self).calculator,
                self.phase == old(self).phase,
                self.horizon == old(self).horizon,
                self.now == old(self).now,
                self.busy_until == old(self).busy_until,
                self.packet_free == old(self).packet_free,
                self.calls == old(self).calls,
            decreases task.packets@.len() - k,
        {
            let id = task.packets[k].id;
            let ghost before = self.state.await_packets.que@;
            self.state.await_packets.remove(id);
            proof {
                assert(ids.take(k + 1) == ids.take(k as int).push(id));
                assert(ids.take(k + 1).to_set() == ids.take(k as int).to_set().insert(id)) by {
                    broadcast use vstd::seq_lib::group_seq_properties;
                }
                assert(self.state.await_packets.members() =~= old(self).state.await_packets.members().difference(
                    ids.take(k + 1).to_set(),
                ));
                assert forall|j: int| 0 <= j < self.state.await_packets.que@.len() implies self.state.packets@[
                    #[trigger] self.state.await_packets.que@[j] as int] is Some by {
                    let v = self.state.await_packets.que@[j];
                    assert(self.state.await_packets.que@.contains(v));
                    assert(self.state.await_packets.members().contains(v));
                    assert(before.to_set().contains(v));
                    let i = choose|i: int| 0 <= i < before.len() && before[i] == v;
                }
            }
            k = k + 1;
        }
        proof {
            assert forall|id: usize| #[trigger] self.state.await_packets.que@.contains(id) implies old(self).state.await_packets.que@.contains(
                id,
            ) by {
                assert(self.state.await_packets.members().contains(id));
                assert(old(self).state.await_packets.members().contains(id));
            }
        }
        proof {
            assert(ids.take(task.packets@.len() as int) == ids);
        }
    }

    /// Gives `task` to the idle core `core_id`, which resumes when the task is ready.
    fn assign_task(&mut self, core_id: usize, task: Task, Ghost(input): Ghost<Input>, Ghost(graph): Ghost<Graph>, Ghost(except): Ghost<Option<usize>>)
        requires
            old(self).core_inv(input, graph, except),
            core_id < input.n_cores,
            except != Some(core_id),
            old(self).state.next_tasks@[core_id as int] is None,
            task.wf(old(self).state.packets@, graph),
            task_ids(task).no_duplicates(),
            forall|id: usize| #[trigger] task_ids(task).contains(id) ==> !old(self).state.await_packets.que@.contains(id)
                && forall|c: int| 0 <= c < input.n_cores ==> !#[trigger] in_task(old(self).state, c, id),
            old(self).now@ <= task.next_t,
            packets_free_ok(task, old(self).packet_free@, old(self).now@),
            on_path(task, old(self).calls@, old(self).state.packets@),
        ensures
            final(self).now == old(self).now,
            final(self).busy_until == old(self).busy_until,
            final(self).packet_free == old(self).packet_free,
            final(self).calls == old(self).calls,
            final(self).core_inv(input, graph, except),
            final(self).n == old(self).n,
            final(self).phase == old(self).phase,
            final(self).state.next_tasks@ == old(self).state.next_tasks@.update(core_id as int, Some(task)),
            final(self).state.packets == old(self).state.packets,
            final(self).state.packet_special_cost == old(self).state.packet_special_cost,
            final(self).state.await_packets == old(self).state.await_packets,
            final(self).state.received_packets == old(self).state.received_packets,
            final(self).state.last_received_t == old(self).state.last_received_t,
            final(self).state.idle_tasks == old(self).state.idle_tasks,
            final(self).horizon == (if task.next_t > old(self).horizon { task.next_t } else { old(self).horizon }),
            final(self).queue.items@ == old(self).queue.items@.push((task.next_t, Event::ResumeCore(core_id))),
    {
        let next_t = task.next_t;
        self.queue.push((next_t, Event::ResumeCore(core_id)));
        if next_t > self.horizon {
            self.horizon = next_t;
        }
        let ghost t = task;
        self.state.next_tasks[core_id] = Some(task);
        proof {
            assert forall|c: int|
                0 <= c < input.n_cores implies #[trigger] count_event(self.queue.items@, Event::ResumeCore(c as usize))
                    == if self.state.next_tasks@[c] is Some && except != Some(c as usize) {
                    1int
                } else {
                    0int
                } by {
                lemma_count_push(old(self).queue.items@, (next_t, Event::ResumeCore(core_id)), Event::ResumeCore(c as usize));
            }
            lemma_held_once_add(old(self).state, self.state, input.n_cores as int, core_id as int, t);
            assert forall|c: int| 0 <= c < input.n_cores implies (#[trigger] self.state.next_tasks@[c] matches Some(t2) ==> packets_free_ok(
                t2,
                self.packet_free@,
                self.now@,
            ) && on_path(t2, self.calls@, self.state.packets@)) by {
                if c != core_id as int {
                    assert(self.state.next_tasks@[c] == old(self).state.next_tasks@[c]);
                }
            }
            let q0 = old(self).queue.items@;
            assert forall|k: int| 0 <= k < self.queue.items@.len() implies self.now@ <= (#[trigger] self.queue.items@[k]).0
                && resumes_at_task_time(self.queue.items@[k], self.state) by {
                if k < q0.len() {
                    assert(self.queue.items@[k] == q0[k]);
                    assert(resumes_at_task_time(q0[k], old(self).state));
                }
            }
        }
    }

    /// Schedules the next receive after one at `cur_t`, unless all packets are in.
    fn finish_receive(&mut self, cur_t: i64, input: &Input, Ghost(graph): Ghost<Graph>, Ghost(except): Ghost<Option<usize>>)
        requires
            cur_t == old(self).now@,
            old(self).core_inv(*input, graph, except),
            0 <= cur_t <= MAX_T,
        ensures
            final(self).now == old(self).now,
            final(self).busy_until == old(self).busy_until,
            final(self).packet_free == old(self).packet_free,
            final(self).calls == old(self).calls,
            final(self).core_inv(*input, graph, except),
            final(self).n == old(self).n,
            final(self).phase == old(self).phase,
            final(self).state == old(self).state,
            old(self).horizon <= final(self).horizon,
            final(self).horizon <= old(self).horizon || final(self).horizon <= MAX_T,
            final(self).queue.items@ == with_next_receive(old(self).queue.items@, old(self).state, cur_t as int, *input),
            final(self).horizon == (match next_receive(old(self).state, cur_t as int, *input) {
                Some(t) => if t > old(self).horizon { t } else { old(self).horizon as int },
                None => old(self).horizon as int,
            }),
    {
        if self.state.is_received_all() {
            return ;
        }
        let dt = get_receive_dt(cur_t, &self.state, input);
        let next_t = cur_t + dt;
        if next_t <= MAX_T {
            self.queue.push((next_t, Event::ReceivePacket));
            if next_t > self.horizon {
                self.horizon = next_t;
            }
            proof {
                assert forall|c: int|
                    0 <= c < input.n_cores implies #[trigger] count_event(self.queue.items@, Event::ResumeCore(c as usize))
                        == if self.state.next_tasks@[c] is Some && except != Some(c as usize) {
                        1int
                    } else {
                        0int
                    } by {
                    lemma_count_push(old(self).queue.items@, (next_t, Event::ReceivePacket), Event::ResumeCore(c as usize));
                }
                let q0 = old(self).queue.items@;
                assert forall|k: int| 0 <= k < self.queue.items@.len() implies self.now@ <= (#[trigger] self.queue.items@[k]).0
                    && resumes_at_task_time(self.queue.items@[k], self.state) by {
                    if k < q0.len() {
                        assert(self.queue.items@[k] == q0[k]);
                    }
                }
            }
        }
    }
}

/// `t0` with all its packets to move over from another core.
fn set_switching(t0: Task) -> (r: Task)
    ensures
        r.next_t == t0.next_t,
        r.packet_type == t0.packet_type,
        r.path_index == t0.path_index,
        r.is_chunked == t0.is_chunked,
        r.last_chunk_min_i == t0.last_chunk_min_i,
        r.packets@ == t0.packets@.map_values(|p: PacketStatus| PacketStatus { is_switching_core: true, ..p }),
{
    let ghost ps = t0.packets@;
    let mut task = t0;
    let mut k: usize = 0;
    while k < task.packets.len()
        invariant
            k <= ps.len(),
            task.packets@.len() == ps.len(),
            forall|j: int| 0 <= j < k ==> #[trigger] task.packets@[j] == (PacketStatus { is_switching_core: true, ..ps[j] }),
            forall|j: int| k <= j < ps.len() ==> #[trigger] task.packets@[j] == ps[j],
            task.next_t == t0.next_t,
            task.packet_type == t0.packet_type,
            task.path_index == t0.path_index,
            task.is_chunked == t0.is_chunked,
            task.last_chunk_min_i == t0.last_chunk_min_i,
        decreases ps.len() - k,
    {
        let p = task.packets[k];
        task.packets[k] = PacketStatus { is_switching_core: true, ..p };
        k = k + 1;
    }
    proof {
        assert(task.packets@ =~= ps.map_values(|p: PacketStatus| PacketStatus { is_switching_core: true, ..p }));
    }
    task
}

/// The ids of a sequence of packets.
pub open spec fn status_ids(ps: Seq<PacketStatus>) -> Seq<usize> {
    ps.map_values(|p: PacketStatus| p.id)
}

/// A rearrangement of packets that are each held once holds each once, and
/// only those packets.
proof fn lemma_perm_ids(ps: Seq<PacketStatus>, s: Seq<PacketStatus>)
    requires
        s.to_multiset() == ps.to_multiset(),
        status_ids(ps).no_duplicates(),
    ensures
        status_ids(s).no_duplicates(),
        forall|id: usize| #[trigger] status_ids(s).contains(id) ==> status_ids(ps).contains(id),
{
    broadcast use vstd::seq_lib::group_to_multiset_ensures;

    assert(ps.no_duplicates()) by {
        assert forall|a: int, b: int| 0 <= a < ps.len() && 0 <= b < ps.len() && a != b implies ps[a] != ps[b] by {
            assert(status_ids(ps)[a] == ps[a].id && status_ids(ps)[b] == ps[b].id);
        }
    }
    ps.lemma_multiset_has_no_duplicates();
    s.lemma_multiset_has_no_duplicates_conv();
    assert forall|i: int| 0 <= i < s.len() implies exists|p: int| 0 <= p < ps.len() && #[trigger] ps[p] == #[trigger] s[i] by {
        assert(s.to_multiset().count(s[i]) > 0);
        assert(ps.to_multiset().count(s[i]) > 0);
        assert(ps.contains(s[i]));
    }
    assert(status_ids(s).no_duplicates()) by {
        assert forall|a: int, b: int| 0 <= a < s.len() && 0 <= b < s.len() && a != b implies status_ids(s)[a] != status_ids(s)[b] by {
            let p = choose|p: int| 0 <= p < ps.len() && #[trigger] ps[p] == s[a];
            let q = choose|q: int| 0 <= q < ps.len() && #[trigger] ps[q] == s[b];
            assert(s[a] != s[b]);
            assert(p != q);
            assert(status_ids(ps)[p] != status_ids(ps)[q]);
        }
    }
    assert forall|id: usize| #[trigger] status_ids(s).contains(id) implies status_ids(ps).contains(id) by {
        let i = choose|i: int| 0 <= i < s.len() && status_ids(s)[i] == id;
        let p = choose|p: int| 0 <= p < ps.len() && #[trigger] ps[p] == s[i];
        assert(status_ids(ps)[p] == id);
    }
}

/// The two tasks of a split hold each packet of the split task once between them.
/// Every id of `ps` is an id of a permutation of it.
proof fn lemma_perm_ids_back(ps: Seq<PacketStatus>, s: Seq<PacketStatus>)
    requires
        s.to_multiset() == ps.to_multiset(),
    ensures
        forall|id: usize| #[trigger] status_ids(ps).contains(id) ==> status_ids(s).contains(id),
{
    broadcast use vstd::seq_lib::group_to_multiset_ensures;

    assert forall|id: usize| #[trigger] status_ids(ps).contains(id) implies status_ids(s).contains(id) by {
        let k = choose|k: int| 0 <= k < status_ids(ps).len() && status_ids(ps)[k] == id;
        assert(ps.contains(ps[k]));
        assert(ps.to_multiset().count(ps[k]) > 0);
        assert(s.contains(ps[k]));
        let j = choose|j: int| 0 <= j < s.len() && s[j] == ps[k];
        assert(status_ids(s)[j] == id);
    }
}

proof fn lemma_split_ids(task: Task, t1: Task, t2: Task)
    requires
        task_ids(task).no_duplicates(),
        t1.packets@ == crate::greedy::built_packets(task, crate::greedy::split_first(task)),
        t2.packets@ == crate::greedy::built_packets(task, crate::greedy::split_second(task)),
    ensures
        task_ids(t1).no_duplicates(),
        task_ids(t2).no_duplicates(),
        forall|id: usize| #[trigger] task_ids(t1).contains(id) ==> task_ids(task).contains(id) && !task_ids(t2).contains(id),
        forall|id: usize| #[trigger] task_ids(t2).contains(id) ==> task_ids(task).contains(id),
        forall|id: usize| #[trigger] task_ids(task).contains(id) ==> task_ids(t1).contains(id) || task_ids(t2).contains(id),
{
    let a = crate::greedy::split_first(task);
    let b = crate::greedy::split_second(task);
    crate::laws::law_split_keeps_packets(task);
    assert(task_ids(task) == status_ids(task.packets@));
    lemma_perm_ids(task.packets@, a + b);
    lemma_perm_ids_back(task.packets@, a + b);
    let ab = status_ids(a + b);
    assert(task_ids(t1) =~= status_ids(a));
    assert(task_ids(t2) =~= status_ids(b));
    assert(ab =~= status_ids(a) + status_ids(b));
    assert(status_ids(a).no_duplicates()) by {
        assert forall|i: int, j: int| 0 <= i < a.len() && 0 <= j < a.len() && i != j implies status_ids(a)[i] != status_ids(a)[j] by {
            assert(ab[i] == status_ids(a)[i] && ab[j] == status_ids(a)[j]);
        }
    }
    assert(status_ids(b).no_duplicates()) by {
        assert forall|i: int, j: int| 0 <= i < b.len() && 0 <= j < b.len() && i != j implies status_ids(b)[i] != status_ids(b)[j] by {
            assert(ab[a.len() + i] == status_ids(b)[i] && ab[a.len() + j] == status_ids(b)[j]);
        }
    }
    assert forall|id: usize| #[trigger] task_ids(t1).contains(id) implies task_ids(task).contains(id) && !task_ids(t2).contains(id) by {
        let i = choose|i: int| 0 <= i < a.len() && status_ids(a)[i] == id;
        assert(ab[i] == id);
        assert(ab.contains(id));
        if task_ids(t2).contains(id) {
            let j = choose|j: int| 0 <= j < b.len() && status_ids(b)[j] == id;
            assert(ab[a.len() + j] == id);
        }
    }
    assert forall|id: usize| #[trigger] task_ids(t2).contains(id) implies task_ids(task).contains(id) by {
        let j = choose|j: int| 0 <= j < b.len() && status_ids(b)[j] == id;
        assert(ab[a.len() + j] == id);
        assert(ab.contains(id));
    }
    assert forall|id: usize| #[trigger] task_ids(task).contains(id) implies task_ids(t1).contains(id) || task_ids(t2).contains(id) by {
        assert(ab.contains(id));
        let p = choose|p: int| 0 <= p < ab.len() && ab[p] == id;
        if p < a.len() {
            assert(status_ids(a)[p] == id);
        } else {
            assert(status_ids(b)[p - a.len()] == id);
        }
    }
}

/// The packets the scheduler holds: waiting, or in the task of a core.
pub open spec fn held_ids(state: State, n_cores: int) -> Set<usize> {
    Set::new(
        |id: usize|
            state.await_packets.que@.contains(id) || exists|c: int| 0 <= c < n_cores && #[trigger] in_task(state, c, id),
    )
}

/// The held packets depend only on the waiting set and the cores' tasks.
proof fn lemma_held_frame(s1: State, s2: State, n: int)
    requires
        s2.await_packets == s1.await_packets,
        s2.next_tasks == s1.next_tasks,
    ensures
        held_ids(s2, n) == held_ids(s1, n),
{
    assert forall|id: usize| held_ids(s2, n).contains(id) == held_ids(s1, n).contains(id) by {
        if held_ids(s2, n).contains(id) && !s2.await_packets.que@.contains(id) {
            let d = choose|d: int| 0 <= d < n && #[trigger] in_task(s2, d, id);
            assert(in_task(s1, d, id));
        }
        if held_ids(s1, n).contains(id) && !s1.await_packets.que@.contains(id) {
            let d = choose|d: int| 0 <= d < n && #[trigger] in_task(s1, d, id);
            assert(in_task(s2, d, id));
        }
    }
    assert(held_ids(s2, n) =~= held_ids(s1, n));
}

/// While packets wait, every core but `ex` has a task, or a receive is
/// pending (and plans for the idle cores when it comes).
pub open spec fn served(state: State, queue: Seq<(i64, Event)>, n: int, ex: int) -> bool {
    state.await_packets.que@.len() > 0 ==> (forall|c: int| 0 <= c < n && c != ex ==> #[trigger] state.next_tasks@[c] is Some)
        || count_event(queue, Event::ReceivePacket) > 0
}

/// No packet is left waiting with no core to take it: in each phase, what
/// the scheduler needs so that waiting packets are handed to cores. When it
/// has finished, nothing waits.
pub open spec fn no_stranded(run: GreedyRun, n: int) -> bool {
    match run.phase {
        Phase::Idle => served(run.state, run.queue.items@, n, -1),
        Phase::Querying { .. } => served(run.state, run.queue.items@, n, -1),
        Phase::PlanForComplete { core_id, tasks, .. } => tasks@.len() > 0 && served(
            run.state,
            run.queue.items@,
            n,
            core_id as int,
        ),
        Phase::PlanForReceive { tasks, .. } => tasks@.len() > 0 && (tasks@.len() < receive_top_k(
            idle_before(run.state.next_tasks@, n),
        ) ==> forall|id: usize|
            run.state.await_packets.que@.contains(id) ==> exists|k: int|
                0 <= k < tasks@.len() && #[trigger] task_ids(tasks@[k]).contains(id)),
        Phase::Receiving { .. } => true,
        Phase::Finished => run.state.await_packets.que@.len() == 0 && forall|c: int|
            0 <= c < n ==> #[trigger] run.state.next_tasks@[c] is None,
    }
}

/// A finished run that left no packet stranded holds no packet at all.
pub proof fn lemma_finished_holds_nothing(run: GreedyRun, n: int)
    requires
        run.phase is Finished,
        no_stranded(run, n),
    ensures
        held_ids(run.state, n) == Set::<usize>::empty(),
{
    assert forall|id: usize| !held_ids(run.state, n).contains(id) by {
        if held_ids(run.state, n).contains(id) {
            if !run.state.await_packets.que@.contains(id) {
                let c = choose|c: int| 0 <= c < n && #[trigger] in_task(run.state, c, id);
                assert(run.state.next_tasks@[c] is None);
            }
        }
    }
    assert(held_ids(run.state, n) =~= Set::<usize>::empty());
}

/// Some item of `order` is `k`.
pub open spec fn names(order: Seq<usize>, k: int) -> bool {
    exists|m: int| 0 <= m < order.len() && order[m] == k
}

/// A duplicate-free order of `len` indices below `len` names each of them.
proof fn lemma_order_covers(order: Seq<usize>, len: int)
    requires
        order.no_duplicates(),
        order.len() == len,
        forall|j: int| 0 <= j < order.len() ==> #[trigger] order[j] < len,
    ensures
        forall|k: int| 0 <= k < len ==> #[trigger] names(order, k),
{
    broadcast use vstd::seq_lib::seq_to_set_is_finite;

    let ints = order.map_values(|x: usize| x as int);
    assert(ints.no_duplicates()) by {
        assert forall|a: int, b: int| 0 <= a < ints.len() && 0 <= b < ints.len() && a != b implies ints[a] != ints[b] by {
            assert(order[a] != order[b]);
        }
    }
    ints.unique_seq_to_set();
    vstd::set_lib::lemma_int_range(0, len);
    let range = vstd::set_lib::set_int_range(0, len);
    assert(ints.to_set().subset_of(range)) by {
        assert forall|x: int| ints.to_set().contains(x) implies range.contains(x) by {
            let m = choose|m: int| 0 <= m < ints.len() && ints[m] == x;
            assert(order[m] < len);
        }
    }
    vstd::set_lib::lemma_subset_equality(ints.to_set(), range);
    assert forall|k: int| 0 <= k < len implies #[trigger] names(order, k) by {
        assert(range.contains(k));
        assert(ints.to_set().contains(k));
        let m = choose|m: int| 0 <= m < ints.len() && ints[m] == k;
        assert(order[m] == k);
    }
}

proof fn lemma_idle_before_mono(tasks: Seq<Option<Task>>, c: int, d: int)
    requires
        0 <= c <= d,
    ensures
        idle_before(tasks, c) <= idle_before(tasks, d),
    decreases d - c,
{
    if c < d {
        lemma_idle_before_mono(tasks, c, d - 1);
    }
}

/// Each rank below the number of idle cores among the first `c` is the rank
/// of one of them.
proof fn lemma_idle_rank(tasks: Seq<Option<Task>>, c: int, m: int)
    requires
        0 <= c,
        0 <= m < idle_before(tasks, c),
    ensures
        exists|d: int| 0 <= d < c && tasks[d] is None && #[trigger] idle_before(tasks, d) == m,
    decreases c,
{
    if m < idle_before(tasks, c - 1) {
        lemma_idle_rank(tasks, c - 1, m);
        let d = choose|d: int| 0 <= d < c - 1 && tasks[d] is None && #[trigger] idle_before(tasks, d) == m;
    } else {
        assert(tasks[c - 1] is None && idle_before(tasks, c - 1) == m);
    }
}

/// The idle cores taking, in turn, the candidates of a full order at a
/// receive leave no packet waiting while a core has no task: either every
/// core has a task, or the candidates held every waiting packet.
proof fn lemma_ordered_receive_serves(
    before: State,
    after: State,
    n: int,
    tasks: Seq<Task>,
    order: Seq<usize>,
)
    requires
        0 <= n,
        before.next_tasks@.len() == n,
        after.next_tasks@.len() == n,
        forall|c: int| 0 <= c < n ==> #[trigger] takes_in_turn(before.next_tasks@, after.next_tasks@, tasks, order, c),
        order.no_duplicates(),
        order.len() == tasks.len(),
        forall|j: int| 0 <= j < order.len() ==> #[trigger] order[j] < tasks.len(),
        tasks.len() < receive_top_k(idle_before(before.next_tasks@, n)) ==> forall|id: usize|
            before.await_packets.que@.contains(id) ==> exists|k: int|
                0 <= k < tasks.len() && #[trigger] task_ids(tasks[k]).contains(id),
        held_ids(after, n) == held_ids(before, n),
        held_once(after, n),
    ensures
        (forall|c: int| 0 <= c < n ==> #[trigger] after.next_tasks@[c] is Some) || after.await_packets.que@.len() == 0,
{
    let nt = before.next_tasks@;
    let idle = idle_before(nt, n);
    if tasks.len() >= idle {
        assert forall|c: int| 0 <= c < n implies #[trigger] after.next_tasks@[c] is Some by {
            assert(takes_in_turn(nt, after.next_tasks@, tasks, order, c));
            if nt[c] is None {
                lemma_idle_before_mono(nt, c + 1, n);
            }
        }
    } else if after.await_packets.que@.len() > 0 {
        let id = after.await_packets.que@[0];
        assert(after.await_packets.que@.contains(id));
        assert(held_ids(after, n).contains(id));
        assert(held_ids(before, n).contains(id));
        if before.await_packets.que@.contains(id) {
            let k = choose|k: int| 0 <= k < tasks.len() && #[trigger] task_ids(tasks[k]).contains(id);
            lemma_order_covers(order, tasks.len() as int);
            assert(names(order, k));
            let m = choose|m: int| 0 <= m < order.len() && order[m] == k;
            lemma_idle_rank(nt, n, m);
            let d = choose|d: int| 0 <= d < n && nt[d] is None && #[trigger] idle_before(nt, d) == m;
            assert(takes_in_turn(nt, after.next_tasks@, tasks, order, d));
            let t = after.next_tasks@[d]->0;
            assert(task_ids(t) =~= task_ids(tasks[k]));
            assert(in_task(after, d, id));
        } else {
            let d = choose|d: int| 0 <= d < n && #[trigger] in_task(before, d, id);
            assert(takes_in_turn(nt, after.next_tasks@, tasks, order, d));
            assert(in_task(after, d, id));
        }
    }
}

/// The optimizer's reply orders every candidate it was given.
pub open spec fn full_order(phase: Phase, reply: Reply) -> bool {
    match phase {
        Phase::PlanForReceive { tasks, .. } => reply matches Reply::Order(o) && o@.len() == tasks@.len(),
        Phase::PlanForComplete { tasks, .. } => reply matches Reply::Order(o) && o@.len() == tasks@.len(),
        _ => true,
    }
}

/// Core `c` finished its task between `before` and `after`: the task had
/// gone through its whole path, and its packets are no longer held.
pub open spec fn finishes(before: State, after: State, n: int, c: int, graph: Graph) -> bool {
    &&& before.next_tasks@[c] matches Some(task) && task.path_index >= graph.path_len(task.packet_type as int)
        && held_ids(after, n) == held_ids(before, n).difference(task_ids(task).to_set())
}

/// A packet the scheduler stops holding between `before` and `after` has
/// been called at every node of its path (`calls` counts its calls).
pub open spec fn leaves_done(before: Set<usize>, after: Set<usize>, calls: Seq<int>, packets: Seq<Option<Packet>>, graph: Graph) -> bool {
    forall|id: usize|
        #[trigger] before.contains(id) && !after.contains(id) ==> calls[id as int] == graph.path_len(
            packets[id as int]->0.packet_type as int,
        )
}

/// The packets held after a step at the time of an event: as before, or
/// without those of one task that went through its whole path.
pub open spec fn held_after_event(before: State, after: State, n: int, graph: Graph) -> bool {
    held_ids(after, n) == held_ids(before, n) || exists|c: int| 0 <= c < n && #[trigger] finishes(before, after, n, c, graph)
}

/// The call a step sends for the task of `core_id` at `t0`, and the task it
/// leaves: the node its path is at, run for the next chunk of its packets
/// when they are more than the batch the node wants (or the task was already
/// cut in chunks), else for all of them; the task moves on along its path
/// once every packet went through the node, and the core is busy until the
/// call ends.
pub open spec fn runs_task(before: State, after: State, cmd: Command, core_id: usize, t0: int, input: Input, graph: Graph) -> bool {
    cmd matches Command::Execute { t, core_id: c, node_id, ids } && t == t0 && c == core_id && {
        let task = before.next_tasks@[core_id as int]->0;
        let ps = task.packets@;
        let desired = desired_batch(node_id as int, task, before, core_id as int, input, graph);
        let new_task = after.next_tasks@[core_id as int]->0;
        &&& node_id == graph.node_at(task.packet_type as int, task.path_index as int)
        &&& if ps.len() > desired || task.is_chunked {
            let sel = chunk_selects(ps, desired);
            let chunk = crate::greedy::picked(advanced_marks(ps, sel), sel, ps.len() as int);
            &&& ids@ == chunk.map_values(|p: PacketStatus| p.id)
            &&& new_task.next_t == t0 + call_duration(graph, node_id as int, chunk, before.packet_special_cost@)
                + switching_count(chunk) * input.cost_switch
            &&& if crate::greedy::any_unadvanced(marked(ps, sel)) {
                &&& new_task.packets@ == marked(ps, sel)
                &&& new_task.is_chunked
                &&& new_task.path_index == task.path_index
            } else {
                &&& new_task.packets@ == crate::greedy::clear_advanced(marked(ps, sel))
                &&& !new_task.is_chunked
                &&& new_task.path_index == task.path_index + 1
            }
            &&& new_task.last_chunk_min_i matches Some(m) && m <= ps.len() && (m < ps.len() ==> sel(m as int))
                && forall|j: int| 0 <= j < m ==> !#[trigger] sel(j)
        } else {
            &&& ids@ == ps.map_values(|p: PacketStatus| p.id)
            &&& new_task.next_t == t0 + call_duration(graph, node_id as int, ps, before.packet_special_cost@)
                + switching_count(ps) * input.cost_switch
            &&& new_task.packets@ == unswitched(ps)
            &&& !new_task.is_chunked
            &&& new_task.path_index == task.path_index + 1
            &&& new_task.last_chunk_min_i is None
        }
        &&& new_task.packet_type == task.packet_type
    }
}

/// A core's task replaced by one of the same packets leaves the held packets as they were.
proof fn lemma_held_same_ids(s1: State, s2: State, n: int, c: int, t1: Task, t2: Task)
    requires
        0 <= c < n,
        s1.next_tasks@.len() == n,
        s2.await_packets == s1.await_packets,
        s1.next_tasks@[c] == Some(t1),
        s2.next_tasks@ == s1.next_tasks@.update(c, Some(t2)),
        task_ids(t2) == task_ids(t1),
    ensures
        held_ids(s2, n) == held_ids(s1, n),
{
    assert forall|id: usize| held_ids(s2, n).contains(id) == held_ids(s1, n).contains(id) by {
        if held_ids(s2, n).contains(id) && !s2.await_packets.que@.contains(id) {
            let d = choose|d: int| 0 <= d < n && #[trigger] in_task(s2, d, id);
            assert(in_task(s1, d, id));
        }
        if held_ids(s1, n).contains(id) && !s1.await_packets.que@.contains(id) {
            let d = choose|d: int| 0 <= d < n && #[trigger] in_task(s1, d, id);
            assert(in_task(s2, d, id));
        }
    }
    assert(held_ids(s2, n) =~= held_ids(s1, n));
}

/// A waiting task handed to an idle core leaves the held packets as they were.
proof fn lemma_held_move(s1: State, s2: State, n: int, c: int, task: Task)
    requires
        0 <= c < n,
        s1.next_tasks@.len() == n,
        s1.next_tasks@[c] is None,
        s2.next_tasks@ == s1.next_tasks@.update(c, Some(task)),
        s2.await_packets.members() == s1.await_packets.members().difference(task_ids(task).to_set()),
        forall|id: usize| #[trigger] task_ids(task).contains(id) ==> s1.await_packets.que@.contains(id),
    ensures
        held_ids(s2, n) == held_ids(s1, n),
{
    assert forall|id: usize| held_ids(s2, n).contains(id) == held_ids(s1, n).contains(id) by {
        assert(s1.await_packets.members().contains(id) == s1.await_packets.que@.contains(id));
        assert(s2.await_packets.members().contains(id) == s2.await_packets.que@.contains(id));
        if held_ids(s2, n).contains(id) && !s2.await_packets.que@.contains(id) {
            let d = choose|d: int| 0 <= d < n && #[trigger] in_task(s2, d, id);
            if d == c {
                assert(task_ids(task).contains(id));
            } else {
                assert(in_task(s1, d, id));
            }
        }
        if held_ids(s1, n).contains(id) {
            if s1.await_packets.que@.contains(id) {
                if task_ids(task).contains(id) {
                    assert(in_task(s2, c, id));
                } else {
                    assert(task_ids(task).to_set().contains(id) == task_ids(task).contains(id));
                }
            } else {
                let d = choose|d: int| 0 <= d < n && #[trigger] in_task(s1, d, id);
                assert(d != c);
                assert(in_task(s2, d, id));
            }
        }
    }
    assert(held_ids(s2, n) =~= held_ids(s1, n));
}

/// Receiving the packets `v` adds their ids to the held packets.
pub proof fn lemma_held_register(s1: State, s2: State, n: int, v: Seq<Packet>)
    requires
        registered(s1, s2, v),
        s2.next_tasks@ == s1.next_tasks@,
    ensures
        held_ids(s2, n) == held_ids(s1, n).union(ids_of(v)),
{
    assert forall|id: usize| held_ids(s2, n).contains(id) == held_ids(s1, n).union(ids_of(v)).contains(id) by {
        assert(s1.await_packets.members().contains(id) == s1.await_packets.que@.contains(id));
        assert(s2.await_packets.members().contains(id) == s2.await_packets.que@.contains(id));
        if held_ids(s2, n).contains(id) && !s2.await_packets.que@.contains(id) {
            let d = choose|d: int| 0 <= d < n && #[trigger] in_task(s2, d, id);
            assert(in_task(s1, d, id));
        }
        if held_ids(s1, n).contains(id) && !s1.await_packets.que@.contains(id) {
            let d = choose|d: int| 0 <= d < n && #[trigger] in_task(s1, d, id);
            assert(in_task(s2, d, id));
        }
    }
    assert(held_ids(s2, n) =~= held_ids(s1, n).union(ids_of(v)));
}

/// `t1` and `t2` are the two tasks `split_task` makes of `task` at `cur_t`.
pub open spec fn split_of(task: Task, cur_t: int, t1: Task, t2: Task) -> bool {
    &&& task.packets@.len() >= 2
    &&& t1.packets@ == crate::greedy::built_packets(task, crate::greedy::split_first(task))
    &&& t2.packets@ == crate::greedy::built_packets(task, crate::greedy::split_second(task))
    &&& t1.next_t == task.next_t
    &&& t2.next_t == (if crate::greedy::split_ready(task) {
        cur_t
    } else {
        task.next_t as int
    })
    &&& t1.packet_type == task.packet_type && t2.packet_type == task.packet_type
    &&& t1.path_index == crate::greedy::built_path_index(task, crate::greedy::split_first(task))
    &&& t2.path_index == crate::greedy::built_path_index(task, crate::greedy::split_second(task))
    &&& t1.is_chunked == crate::greedy::built_chunked(crate::greedy::split_first(task))
    &&& t2.is_chunked == crate::greedy::built_chunked(crate::greedy::split_second(task))
    &&& t1.last_chunk_min_i is None && t2.last_chunk_min_i is None
}

/// When `task` is estimated to be done: when it is ready plus the estimate of
/// what is left of it.
pub open spec fn task_end(task: Task, input: Input, graph: Graph, costs: Seq<Option<i64>>) -> int {
    task.next_t + task_duration_fixed(input, graph, task, costs) + 128 * task_duration_special(graph, task, costs)
}

/// Splitting `task` into `t1` and `t2` pays: the second still has a node to
/// go to, and both are estimated done before the whole would be.
pub open spec fn split_gains(task: Task, t1: Task, t2: Task, input: Input, graph: Graph, costs: Seq<Option<i64>>) -> bool {
    &&& t2.path_index != graph.path_len(t2.packet_type as int)
    &&& task_end(task, input, graph, costs) > task_end(t1, input, graph, costs)
    &&& task_end(task, input, graph, costs) > task_end(t2, input, graph, costs)
}

/// Splitting `task` at `cur_t` pays.
pub open spec fn split_pays(task: Task, cur_t: int, input: Input, graph: Graph, costs: Seq<Option<i64>>) -> bool {
    exists|t1: Task, t2: Task| #[trigger] split_of(task, cur_t, t1, t2) && split_gains(task, t1, t2, input, graph, costs)
}

/// `u` is `t` with all its packets to move over from another core.
pub open spec fn switched_copy(t: Task, u: Task) -> bool {
    &&& u.next_t == t.next_t
    &&& u.packet_type == t.packet_type
    &&& u.path_index == t.path_index
    &&& u.is_chunked == t.is_chunked
    &&& u.last_chunk_min_i == t.last_chunk_min_i
    &&& u.packets@ == t.packets@.map_values(|p: PacketStatus| PacketStatus { is_switching_core: true, ..p })
}

proof fn lemma_fixed_from_same(graph: Graph, a: Task, b: Task, costs: Seq<Option<i64>>, k: int)
    requires
        a.packet_type == b.packet_type,
        a.path_index == b.path_index,
        a.is_chunked == b.is_chunked,
        a.packets@ == b.packets@,
    ensures
        task_fixed_from(graph, a, costs, k) == task_fixed_from(graph, b, costs, k),
        task_special_from(graph, a, costs, k) == task_special_from(graph, b, costs, k),
    decreases graph.path_len(a.packet_type as int) - k,
{
    if k < graph.path_len(a.packet_type as int) && k >= 0 {
        lemma_fixed_from_same(graph, a, b, costs, k + 1);
    }
}

/// Two tasks alike in all but their packet vectors, whose contents agree, end alike.
proof fn lemma_end_same(a: Task, b: Task, input: Input, graph: Graph, costs: Seq<Option<i64>>)
    requires
        a.next_t == b.next_t,
        a.packet_type == b.packet_type,
        a.path_index == b.path_index,
        a.is_chunked == b.is_chunked,
        a.packets@ == b.packets@,
    ensures
        task_end(a, input, graph, costs) == task_end(b, input, graph, costs),
{
    lemma_fixed_from_same(graph, a, b, costs, a.path_index as int);
}

/// How long the work core `c` holds is estimated to take, its task being
/// `tasks[c]` (no core holds a task set aside while one is split).
pub open spec fn core_work(tasks: Seq<Option<Task>>, costs: Seq<Option<i64>>, c: int, input: Input, graph: Graph) -> int {
    slot_fixed(input, graph, tasks[c], costs) + 128 * slot_special(graph, tasks[c], costs)
}

/// Core `c` comes no later than core `d` in the order splits are tried: its
/// work ends later, or as late and its id is not higher.
pub open spec fn tried_before(tasks: Seq<Option<Task>>, costs: Seq<Option<i64>>, c: int, d: int, input: Input, graph: Graph) -> bool {
    core_work(tasks, costs, c, input, graph) > core_work(tasks, costs, d, input, graph) || (core_work(
        tasks,
        costs,
        c,
        input,
        graph,
    ) == core_work(tasks, costs, d, input, graph) && c <= d)
}

/// What `split_phase` leaves of the cores' tasks and the queue (`before_tasks`,
/// `before_queue`) in `after` for the idle core `core_id` at `cur_t`: nothing
/// changed when no other core's task pays to split, else the second half of
/// the split of the core whose work ends last among those, taken over by
/// `core_id`.
pub open spec fn split_outcome(
    before_tasks: Seq<Option<Task>>,
    before_queue: Seq<(i64, Event)>,
    costs: Seq<Option<i64>>,
    after: GreedyRun,
    core_id: usize,
    cur_t: int,
    input: Input,
    graph: Graph,
) -> bool {
    &&& (after.state.next_tasks@[core_id as int] is None ==> after.state.next_tasks@ == before_tasks
        && after.queue.items@ == before_queue && forall|c: int|
        0 <= c < input.n_cores && c != core_id && #[trigger] before_tasks[c] is Some ==> !split_pays(
            before_tasks[c]->0,
            cur_t,
            input,
            graph,
            costs,
        ))
    &&& (after.state.next_tasks@[core_id as int] is Some ==> exists|c: int, t1: Task, t2: Task|
        0 <= c < input.n_cores && c != core_id && before_tasks[c] is Some && #[trigger] split_of(
            before_tasks[c]->0,
            cur_t,
            t1,
            t2,
        ) && split_gains(before_tasks[c]->0, t1, t2, input, graph, costs) && (forall|d: int|
            0 <= d < input.n_cores && d != core_id && #[trigger] before_tasks[d] is Some && split_pays(
                before_tasks[d]->0,
                cur_t,
                input,
                graph,
                costs,
            ) ==> tried_before(before_tasks, costs, c, d, input, graph))
            && after.state.next_tasks@ == before_tasks.update(c, Some(t1)).update(
            core_id as int,
            after.state.next_tasks@[core_id as int],
        ) && switched_copy(t2, after.state.next_tasks@[core_id as int]->0) && after.queue.items@
            == before_queue.push((t2.next_t, Event::ResumeCore(core_id))))
}

/// A split of the task of core `other`, as a candidate to hand its second half
/// to an idle core.
pub open spec fn split_cand_ok(
    cand: (usize, i64, Task, Task),
    state: State,
    input: Input,
    graph: Graph,
    horizon: int,
    core_id: usize,
    cur_t: int,
    free: Seq<int>,
    calls: Seq<int>,
) -> bool {
    &&& cand.0 < input.n_cores
    &&& state.next_tasks@[cand.0 as int] matches Some(task) && split_of(task, cur_t, cand.2, cand.3) && split_gains(
        task,
        cand.2,
        cand.3,
        input,
        graph,
        state.packet_special_cost@,
    )
    &&& packets_free_ok(cand.2, free, cur_t)
    &&& packets_free_ok(cand.3, free, cur_t)
    &&& on_path(cand.2, calls, state.packets@)
    &&& on_path(cand.3, calls, state.packets@)
    &&& cand.2.next_t == state.next_tasks@[cand.0 as int]->0.next_t
    &&& (cand.3.next_t == cur_t || cand.3.next_t == state.next_tasks@[cand.0 as int]->0.next_t)
    &&& cand.0 != core_id
    &&& state.next_tasks@[cand.0 as int] is Some
    &&& cand.2.wf(state.packets@, graph)
    &&& cand.3.wf(state.packets@, graph)
    &&& 0 <= cand.2.next_t <= horizon
    &&& 0 <= cand.3.next_t <= horizon
    &&& task_ids(cand.2).no_duplicates()
    &&& task_ids(cand.3).no_duplicates()
    &&& forall|id: usize| #[trigger] task_ids(cand.2).contains(id) ==> task_ids(state.next_tasks@[cand.0 as int]->0).contains(id)
        && !task_ids(cand.3).contains(id)
    &&& forall|id: usize| #[trigger] task_ids(cand.3).contains(id) ==> task_ids(state.next_tasks@[cand.0 as int]->0).contains(id)
}

impl GreedyRun {
    /// An idle core takes over half of a task of another core, when that
    /// finishes it sooner: of the cores whose task pays to split, the one
    /// whose work ends last gives up half of it.
    fn split_phase(&mut self, core_id: usize, cur_t: i64, input: &Input, graph: &Graph)
        requires
            cur_t == old(self).now@,
            old(self).core_inv(*input, *graph, None),
            core_id < input.n_cores,
            old(self).state.next_tasks@[core_id as int] is None,
            0 <= cur_t <= old(self).horizon,
            old(self).horizon <= RUN_TIME_CAP,
        ensures
            final(self).now == old(self).now,
            final(self).busy_until == old(self).busy_until,
            final(self).packet_free == old(self).packet_free,
            final(self).calls == old(self).calls,
            final(self).core_inv(*input, *graph, None),
            final(self).n == old(self).n,
            final(self).phase == old(self).phase,
            final(self).horizon == old(self).horizon,
            final(self).state == (State { next_tasks: final(self).state.next_tasks, ..old(self).state }),
            held_ids(final(self).state, input.n_cores as int) == held_ids(old(self).state, input.n_cores as int),
            split_outcome(
                old(self).state.next_tasks@,
                old(self).queue.items@,
                old(self).state.packet_special_cost@,
                *final(self),
                core_id,
                cur_t as int,
                *input,
                *graph,
            ),
    {
        if input.n_cores <= 1 {
            return ;
        }
        let ghost n = self.n as nat;
        // the other busy cores, those whose work ends last first
        let mut keys: Vec<(i64, usize)> = Vec::new();
        let mut id: usize = 0;
        while id < input.n_cores
            invariant
                self.core_inv(*input, *graph, None),
                self.n == n,
                self.horizon <= RUN_TIME_CAP,
                0 <= cur_t <= self.horizon,
                id <= input.n_cores,
                forall|j: int|
                    0 <= j < keys@.len() ==> {
                        let key = #[trigger] keys@[j];
                        &&& key.1 < input.n_cores
                        &&& key.1 != core_id
                        &&& self.state.next_tasks@[key.1 as int] is Some
                    },
                self.state == old(self).state,
                self.queue == old(self).queue,
                forall|d: int|
                    0 <= d < id && d != core_id && #[trigger] self.state.next_tasks@[d] is Some ==> exists|j: int|
                        0 <= j < keys@.len() && keys@[j].1 == d,
                forall|j: int|
                    0 <= j < keys@.len() ==> (#[trigger] keys@[j]).0 == -(cur_t + core_work(
                        self.state.next_tasks@,
                        self.state.packet_special_cost@,
                        keys@[j].1 as int,
                        *input,
                        *graph,
                    )),
            decreases input.n_cores - id,
        {
            let ghost keys_before = keys@;
            if id != core_id && self.state.next_tasks[id].is_some() {
                proof {
                    assert(self.state.idle_tasks@[id as int] is None);
                    assert(self.state.next_tasks@[id as int]->0.wf(self.state.packets@, *graph));
                }
                let d = estimate_core_duration(&self.state, id, input, graph).estimate();
                proof {
                    assert(d == core_work(self.state.next_tasks@, self.state.packet_special_cost@, id as int, *input, *graph));
                }
                keys.push((-(cur_t + d), id));
                proof {
                    assert(keys@[keys@.len() - 1].1 == id);
                }
            }
            proof {
                assert forall|d: int|
                    0 <= d < id + 1 && d != core_id && #[trigger] self.state.next_tasks@[d] is Some implies exists|j: int|
                        0 <= j < keys@.len() && keys@[j].1 == d by {
                    if d < id {
                        let j = choose|j: int| 0 <= j < keys_before.len() && keys_before[j].1 == d;
                        assert(keys@[j] == keys_before[j]);
                    } else {
                        assert(keys@[keys@.len() - 1].1 == d);
                    }
                }
            }
            id = id + 1;
        }
        let ghost keys0 = keys@;
        crate::planning::sort_pairs(&mut keys);
        let mut first_cand: Option<(usize, i64, Task, Task)> = None;
        let ghost mut kd: int = 0;
        let mut k: usize = 0;
        while k < keys.len()
            invariant_except_break
                first_cand is None,
            invariant
                forall|a: int, b: int| 0 <= a < b < keys@.len() ==> crate::planning::pair_le(#[trigger] keys@[a], #[trigger] keys@[b]),
                forall|j: int|
                    0 <= j < keys0.len() ==> (#[trigger] keys0[j]).0 == -(cur_t + core_work(
                        self.state.next_tasks@,
                        self.state.packet_special_cost@,
                        keys0[j].1 as int,
                        *input,
                        *graph,
                    )),
                self.core_inv(*input, *graph, None),
                cur_t == self.now@,
                self.n == n,
                self.horizon <= RUN_TIME_CAP,
                0 <= cur_t <= self.horizon,
                self.state.next_tasks@[core_id as int] is None,
                core_id < input.n_cores,
                k <= keys@.len(),
                keys@.to_multiset() == keys0.to_multiset(),
                forall|j: int|
                    0 <= j < keys0.len() ==> {
                        let key = #[trigger] keys0[j];
                        &&& key.1 < input.n_cores
                        &&& key.1 != core_id
                        &&& self.state.next_tasks@[key.1 as int] is Some
                    },
                first_cand matches Some(cand) ==> split_cand_ok(cand, self.state, *input, *graph, self.horizon as int, core_id, cur_t as int, self.packet_free@, self.calls@),
                self.state == old(self).state,
                self.queue == old(self).queue,
                self.horizon == old(self).horizon,
                first_cand is None ==> forall|j: int|
                    0 <= j < k ==> !split_pays(
                        self.state.next_tasks@[(#[trigger] keys@[j]).1 as int]->0,
                        cur_t as int,
                        *input,
                        *graph,
                        self.state.packet_special_cost@,
                    ),
            ensures
                self.state == old(self).state,
                self.queue == old(self).queue,
                self.horizon == old(self).horizon,
                first_cand is None ==> forall|j: int|
                    0 <= j < keys@.len() ==> !split_pays(
                        self.state.next_tasks@[(#[trigger] keys@[j]).1 as int]->0,
                        cur_t as int,
                        *input,
                        *graph,
                        self.state.packet_special_cost@,
                    ),
                self.core_inv(*input, *graph, None),
                self.n == n,
                self.horizon <= RUN_TIME_CAP,
                self.state.next_tasks@[core_id as int] is None,
                first_cand matches Some(cand) ==> split_cand_ok(cand, self.state, *input, *graph, self.horizon as int, core_id, cur_t as int, self.packet_free@, self.calls@),
                first_cand matches Some(cand) ==> 0 <= kd < keys@.len() && keys@[kd].1 == cand.0 && forall|j: int|
                    0 <= j < kd ==> !split_pays(
                        self.state.next_tasks@[(#[trigger] keys@[j]).1 as int]->0,
                        cur_t as int,
                        *input,
                        *graph,
                        self.state.packet_special_cost@,
                    ),
            decreases keys@.len() - k,
        {
            let other_core_id = keys[k].1;
            proof {
                assert(keys@.contains(keys@[k as int]));
                crate::planning::lemma_sorted_from(keys0, keys@, keys@[k as int]);
                let j = choose|j: int| 0 <= j < keys0.len() && keys0[j] == keys@[k as int];
                assert(keys0[j].1 == other_core_id);
            }
            let task = self.state.next_tasks[other_core_id].as_ref().unwrap();
            proof {
                assert(task.wf(self.state.packets@, *graph));
                assert(path_wf(graph.paths@[task.packet_type as int]));
            }
            let ghost costs = self.state.packet_special_cost@;
            match split_task(cur_t, task) {
                None => {
                    proof {
                        if split_pays(*task, cur_t as int, *input, *graph, costs) {
                            let (t1, t2) = choose|t1: Task, t2: Task| #[trigger] split_of(*task, cur_t as int, t1, t2) && split_gains(*task, t1, t2, *input, *graph, costs);
                            assert(split_of(*task, cur_t as int, t1, t2));
                        }
                    }
                },
                Some((task1, task2)) => {
                    proof {
                        crate::greedy::lemma_split_parts_from(*task);
                        crate::greedy::lemma_split_part_wf(*task, crate::greedy::split_first(*task), task1, self.state.packets@, *graph);
                        crate::greedy::lemma_split_part_wf(*task, crate::greedy::split_second(*task), task2, self.state.packets@, *graph);
                        assert(path_wf(graph.paths@[task2.packet_type as int]));
                        lemma_split_ids(*task, task1, task2);
                        assert(task.wf(self.state.packets@, *graph));
                        assert(packets_free_ok(*task, self.packet_free@, self.now@));
                        lemma_split_keeps_free(*task, cur_t as int, task1, task2, self.packet_free@, self.now@);
                        lemma_split_on_path(*task, task1, task2, self.calls@, self.state.packets@);
                    }
                    if task2.path_index != graph.paths[task2.packet_type].path.len() {
                        let task_end_t = task.next_t + estimate_task_duration(task, input, graph, &self.state.packet_special_cost).estimate();
                        let task1_end_t = task1.next_t + estimate_task_duration(&task1, input, graph, &self.state.packet_special_cost).estimate();
                        let task2_duration = estimate_task_duration(&task2, input, graph, &self.state.packet_special_cost);
                        let task2_end_t = task2.next_t + task2_duration.estimate();
                        let later = if task1_end_t > task2_end_t {
                            task1_end_t
                        } else {
                            task2_end_t
                        };
                        if task_end_t > later {
                            first_cand = Some((other_core_id, task.next_t, task1, task2));
                            proof {
                                kd = k as int;
                            }
                            break;
                        }
                    }
                    proof {
                        if first_cand is None {
                            assert(!split_gains(*task, task1, task2, *input, *graph, costs));
                            if split_pays(*task, cur_t as int, *input, *graph, costs) {
                                let (t1, t2) = choose|t1: Task, t2: Task| #[trigger] split_of(*task, cur_t as int, t1, t2) && split_gains(*task, t1, t2, *input, *graph, costs);
                                lemma_end_same(t1, task1, *input, *graph, costs);
                                lemma_end_same(t2, task2, *input, *graph, costs);
                            }
                        }
                    }
                },
            }
            k = k + 1;
        }
        if let Some((other_core_id, _, task1, task2)) = first_cand {
            proof {
                let c = other_core_id as int;
                let tasks = old(self).state.next_tasks@;
                let costs = old(self).state.packet_special_cost@;
                assert(keys@.contains(keys@[kd]));
                crate::planning::lemma_sorted_from(keys0, keys@, keys@[kd]);
                let b = choose|b: int| 0 <= b < keys0.len() && keys0[b] == keys@[kd];
                assert(keys0[b].0 == -(cur_t + core_work(tasks, costs, c, *input, *graph)));
                assert forall|d: int|
                    0 <= d < input.n_cores && d != core_id && #[trigger] tasks[d] is Some && split_pays(
                        tasks[d]->0,
                        cur_t as int,
                        *input,
                        *graph,
                        costs,
                    ) implies tried_before(tasks, costs, c, d, *input, *graph) by {
                    let j = choose|j: int| 0 <= j < keys0.len() && keys0[j].1 == d;
                    assert(keys0.contains(keys0[j]));
                    crate::planning::lemma_sorted_from(keys@, keys0, keys0[j]);
                    let a = choose|a: int| 0 <= a < keys@.len() && keys@[a] == keys0[j];
                    assert(keys@[a].1 == d);
                    assert(keys0[j].0 == -(cur_t + core_work(tasks, costs, d, *input, *graph)));
                    if a < kd {
                        assert(!split_pays(tasks[keys@[a].1 as int]->0, cur_t as int, *input, *graph, costs));
                    } else if a > kd {
                        assert(crate::planning::pair_le(keys@[kd], keys@[a]));
                    }
                }
            }
            let ghost old_q = self.queue.items@;
            let ghost s1 = self.state;
            let ghost t1 = task1;
            proof {
                let oc = other_core_id as int;
                assert(count_event(old_q, Event::ResumeCore(oc as usize)) == 1);
                lemma_count_positive(old_q, Event::ResumeCore(other_core_id));
                let k = choose|k: int| 0 <= k < old_q.len() && (#[trigger] old_q[k]).1 == Event::ResumeCore(other_core_id);
                assert(resumes_at_task_time(old_q[k], s1));
                assert(self.now@ <= old_q[k].0);
                assert(self.now@ <= task2.next_t);
            }
            self.state.next_tasks[other_core_id] = Some(task1);
            proof {
                lemma_held_once_replace(s1, self.state, input.n_cores as int, other_core_id as int, t1);
                assert forall|k: int| 0 <= k < old_q.len() implies resumes_at_task_time(#[trigger] old_q[k], self.state) by {
                    assert(resumes_at_task_time(old_q[k], s1));
                }
            }
            proof {
                assert forall|c: int|
                    0 <= c < input.n_cores implies #[trigger] count_event(self.queue.items@, Event::ResumeCore(c as usize))
                        == if self.state.next_tasks@[c] is Some {
                        1int
                    } else {
                        0int
                    } by {
                }
            }
            let ghost t2_0 = task2;
            let task2 = set_switching(task2);
            proof {
                assert(task2.wf(self.state.packets@, *graph));
                assert(task_ids(task2) =~= task_ids(t2_0));
                assert forall|id: usize| #[trigger] task_ids(task2).contains(id) implies !self.state.await_packets.que@.contains(id)
                    && forall|c: int| 0 <= c < input.n_cores ==> !#[trigger] in_task(self.state, c, id) by {
                    assert(task_ids(t2_0).contains(id));
                    assert(in_task(s1, other_core_id as int, id));
                    assert forall|c: int| 0 <= c < input.n_cores implies !#[trigger] in_task(self.state, c, id) by {
                        if c == other_core_id as int {
                            assert(!task_ids(t1).contains(id));
                        } else {
                            assert(self.state.next_tasks@[c] == s1.next_tasks@[c]);
                            if in_task(s1, c, id) {
                                if c < other_core_id as int {
                                    assert(!(in_task(s1, c, id) && in_task(s1, other_core_id as int, id)));
                                } else {
                                    assert(!(in_task(s1, other_core_id as int, id) && in_task(s1, c, id)));
                                }
                            }
                        }
                    }
                }
            }
            self.assign_task(core_id, task2, Ghost(*input), Ghost(*graph), Ghost(None));
            proof {
                let nc = input.n_cores as int;
                let oc = other_core_id as int;
                let task = old(self).state.next_tasks@[oc]->0;
                assert(task_ids(task).no_duplicates());
                lemma_split_ids(task, t1, t2_0);
                assert forall|id: usize| held_ids(self.state, nc).contains(id) == held_ids(old(self).state, nc).contains(id) by {
                    if held_ids(self.state, nc).contains(id) && !self.state.await_packets.que@.contains(id) {
                        let c = choose|c: int| 0 <= c < nc && #[trigger] in_task(self.state, c, id);
                        if c == core_id as int {
                            assert(task_ids(t2_0).contains(id));
                            assert(in_task(old(self).state, oc, id));
                        } else if c == oc {
                            assert(task_ids(t1).contains(id));
                            assert(in_task(old(self).state, oc, id));
                        } else {
                            assert(in_task(old(self).state, c, id));
                        }
                    }
                    if held_ids(old(self).state, nc).contains(id) && !old(self).state.await_packets.que@.contains(id) {
                        let c = choose|c: int| 0 <= c < nc && #[trigger] in_task(old(self).state, c, id);
                        if c == oc {
                            assert(task_ids(task).contains(id));
                            if task_ids(t1).contains(id) {
                                assert(in_task(self.state, oc, id));
                            } else {
                                assert(task_ids(task2).contains(id));
                                assert(in_task(self.state, core_id as int, id));
                            }
                        } else {
                            assert(c != core_id as int);
                            assert(in_task(self.state, c, id));
                        }
                    }
                }
                assert(held_ids(self.state, nc) =~= held_ids(old(self).state, nc));
            }
        } else {
            proof {
                assert forall|c: int|
                    0 <= c < input.n_cores && c != core_id && #[trigger] old(self).state.next_tasks@[c] is Some implies !split_pays(
                        old(self).state.next_tasks@[c]->0,
                        cur_t as int,
                        *input,
                        *graph,
                        old(self).state.packet_special_cost@,
                    ) by {
                    assert(self.state.next_tasks@[c] is Some);
                    let j = choose|j: int| 0 <= j < keys0.len() && keys0[j].1 == c;
                    assert(keys0.contains(keys0[j]));
                    crate::planning::lemma_sorted_from(keys@, keys0, keys0[j]);
                    let a = choose|a: int| 0 <= a < keys@.len() && keys@[a] == keys0[j];
                    assert(keys@[a].1 == c);
                }
            }
        }
    }
}

impl GreedyRun {
    /// The task of `core_id` went through its whole path at `cur_t`: the core
    /// takes the best candidate task if packets wait, else half of another
    /// core's task.
    fn complete_task(&mut self, core_id: usize, cur_t: i64, input: &Input, graph: &Graph) -> (cmd: Command)
        requires
            cur_t == old(self).now@,
            old(self).core_inv(*input, *graph, Some(core_id)),
            old(self).phase is Idle,
            core_id < input.n_cores,
            old(self).state.next_tasks@[core_id as int] is Some,
            old(self).state.next_tasks@[core_id as int]->0.path_index >= graph.path_len(
                old(self).state.next_tasks@[core_id as int]->0.packet_type as int,
            ),
            0 <= cur_t <= old(self).horizon,
            old(self).horizon <= RUN_TIME_CAP,
        ensures
            forall|k: int|
                0 <= k < old(self).state.next_tasks@[core_id as int]->0.packets@.len() ==> {
                    let id = (#[trigger] old(self).state.next_tasks@[core_id as int]->0.packets@[k]).id as int;
                    &&& old(self).calls@[id] == graph.path_len(old(self).state.packets@[id]->0.packet_type as int)
                },
            final(self).now == old(self).now,
            final(self).busy_until == old(self).busy_until,
            final(self).packet_free == old(self).packet_free,
            final(self).calls == old(self).calls,
            final(self).inv(*input, *graph),
            final(self).n == old(self).n,
            final(self).horizon == old(self).horizon,
            final(self).phase is Idle || final(self).phase is PlanForComplete,
            final(self).phase is Idle ==> cmd is Nothing,
            final(self).phase is PlanForComplete ==> cmd is PlanOrder,
            final(self).state.next_tasks@[core_id as int] is None || final(self).state.next_tasks@[core_id as int]->0.path_index
                < graph.path_len(final(self).state.next_tasks@[core_id as int]->0.packet_type as int),
            final(self).phase is PlanForComplete <==> old(self).state.await_packets.que@.len() > 0,
            final(self).phase matches Phase::PlanForComplete { t, core_id: c, tasks } ==> t == cur_t && c == core_id && (
            cmd matches Command::PlanOrder { batches, next_ts } && batches@.len() == tasks@.len() && next_ts@.len()
                == input.n_cores) && final(self).state.next_tasks@ == old(self).state.next_tasks@.update(core_id as int, None)
                && final(self).queue == old(self).queue,
            final(self).phase matches Phase::PlanForComplete { tasks, .. } ==> exists|plan: TaskPlan, s: State|
                #[trigger] planned(plan, s, cur_t as int, *input, *graph, old(self).calculator, COMPLETE_TASK_TOP_K as int)
                    && s == (State { next_tasks: s.next_tasks, ..old(self).state }) && s.next_tasks@
                    == old(self).state.next_tasks@.update(core_id as int, None) && plan.tasks@ == tasks@ && cmd == (
                Command::PlanOrder { next_ts: plan.next_ts, batches: plan.batches }),
            final(self).phase matches Phase::PlanForComplete { tasks, .. } ==> tasks@.len() > 0,
            final(self).state.packets == old(self).state.packets,
            held_ids(final(self).state, input.n_cores as int) == held_ids(old(self).state, input.n_cores as int).difference(
                task_ids(old(self).state.next_tasks@[core_id as int]->0).to_set(),
            ),
            final(self).state.packet_special_cost == old(self).state.packet_special_cost,
            final(self).state.await_packets == old(self).state.await_packets,
            final(self).state.received_packets == old(self).state.received_packets,
            final(self).phase is Idle ==> cmd is Nothing && split_outcome(
                old(self).state.next_tasks@.update(core_id as int, None),
                old(self).queue.items@,
                old(self).state.packet_special_cost@,
                *final(self),
                core_id,
                cur_t as int,
                *input,
                *graph,
            ),
    {
        proof {
            let task = old(self).state.next_tasks@[core_id as int]->0;
            assert(task.wf(old(self).state.packets@, *graph));
            assert(on_path(task, old(self).calls@, old(self).state.packets@));
            assert forall|k: int| 0 <= k < task.packets@.len() implies {
                let id = (#[trigger] task.packets@[k]).id as int;
                &&& old(self).calls@[id] == graph.path_len(old(self).state.packets@[id]->0.packet_type as int)
            } by {
                assert(!task.packets@[k].is_advanced);
            }
        }
        self.state.next_tasks[core_id] = None;
        proof {
            let nc = input.n_cores as int;
            let done = task_ids(old(self).state.next_tasks@[core_id as int]->0);
            assert forall|id: usize| held_ids(self.state, nc).contains(id) == held_ids(old(self).state, nc).difference(done.to_set()).contains(id) by {
                if held_ids(self.state, nc).contains(id) && !self.state.await_packets.que@.contains(id) {
                    let c = choose|c: int| 0 <= c < nc && #[trigger] in_task(self.state, c, id);
                    assert(c != core_id as int);
                    assert(in_task(old(self).state, c, id));
                    if done.contains(id) {
                        assert(in_task(old(self).state, core_id as int, id));
                        if c < core_id as int {
                            assert(!(in_task(old(self).state, c, id) && in_task(old(self).state, core_id as int, id)));
                        } else {
                            assert(!(in_task(old(self).state, core_id as int, id) && in_task(old(self).state, c, id)));
                        }
                    }
                }
                if self.state.await_packets.que@.contains(id) && done.contains(id) {
                    assert(in_task(old(self).state, core_id as int, id));
                }
                if held_ids(old(self).state, nc).contains(id) && !done.contains(id) && !old(self).state.await_packets.que@.contains(id) {
                    let c = choose|c: int| 0 <= c < nc && #[trigger] in_task(old(self).state, c, id);
                    assert(c != core_id as int);
                    assert(in_task(self.state, c, id));
                }
            }
            assert(held_ids(self.state, nc) =~= held_ids(old(self).state, nc).difference(done.to_set()));
        }
        proof {
            lemma_held_once_drop(old(self).state, self.state, input.n_cores as int, core_id as int);
            let q0 = self.queue.items@;
            let ci = core_id as int;
            assert(count_event(q0, Event::ResumeCore(ci as usize)) == 0);
            lemma_count_zero(q0, Event::ResumeCore(core_id));
            assert forall|k: int| 0 <= k < q0.len() implies resumes_at_task_time(#[trigger] q0[k], self.state) by {
                assert(resumes_at_task_time(q0[k], old(self).state));
            }
        }
        if self.state.await_packets.size() > 0 {
            let plan = create_tasks(&self.state, cur_t, input, graph, &self.calculator, COMPLETE_TASK_TOP_K);
            proof {
                let id = self.state.await_packets.que@[0];
                assert(self.state.await_packets.que@.contains(id));
                if plan.tasks@.len() == 0 {
                    assert(exists|k: int| 0 <= k < plan.tasks@.len() && #[trigger] task_ids(plan.tasks@[k]).contains(id));
                }
            }
            if plan.tasks.len() > 0 {
                proof {
                    assert(self.state == (State { next_tasks: self.state.next_tasks, ..old(self).state }));
                    assert(planned(plan, self.state, cur_t as int, *input, *graph, old(self).calculator, COMPLETE_TASK_TOP_K as int));
                }
                self.phase = Phase::PlanForComplete { t: cur_t, core_id, tasks: plan.tasks };
                return Command::PlanOrder { next_ts: plan.next_ts, batches: plan.batches };
            }
        }
        self.split_phase(core_id, cur_t, input, graph);
        Command::Nothing
    }

    /// The order for the candidates of a core that finished its task: it takes the first.
    fn complete_with_order(&mut self, core_id: usize, cur_t: i64, tasks: Vec<Task>, order: Vec<usize>, input: &Input, graph: &Graph)
        requires
            cur_t == old(self).now@,
            old(self).core_inv(*input, *graph, None),
            old(self).phase is Idle,
            core_id < input.n_cores,
            old(self).state.next_tasks@[core_id as int] is None,
            0 <= cur_t <= old(self).horizon,
            old(self).horizon <= RUN_TIME_CAP,
            forall|k: int| 0 <= k < tasks@.len() ==> fresh_task_ok(#[trigger] tasks@[k], old(self).state, *graph, *input, cur_t as int),
            plan_disjoint(tasks@),
            forall|k: int| 0 <= k < order@.len() ==> #[trigger] order@[k] < tasks@.len(),
        ensures
            final(self).now == old(self).now,
            final(self).busy_until == old(self).busy_until,
            final(self).packet_free == old(self).packet_free,
            final(self).calls == old(self).calls,
            final(self).inv(*input, *graph),
            final(self).n == old(self).n,
            final(self).phase is Idle,
            order@.len() > 0 ==> (final(self).state.next_tasks@[core_id as int] matches Some(t) && same_task(
                t,
                tasks@[order@[0] as int],
            ) && final(self).state.next_tasks@ == old(self).state.next_tasks@.update(core_id as int, Some(t))
                && final(self).queue.items@ == old(self).queue.items@.push((t.next_t, Event::ResumeCore(core_id)))
                && final(self).state.await_packets.members() == old(self).state.await_packets.members().difference(
                task_ids(t).to_set(),
            )),
            held_ids(final(self).state, input.n_cores as int) == held_ids(old(self).state, input.n_cores as int),
            order@.len() == 0 ==> split_outcome(
                old(self).state.next_tasks@,
                old(self).queue.items@,
                old(self).state.packet_special_cost@,
                *final(self),
                core_id,
                cur_t as int,
                *input,
                *graph,
            ),
    {
        let mut ordered = order_tasks(&tasks, &order);
        if ordered.len() > 0 {
            let task = ordered.pop().unwrap();
            proof {
                let k = order@[0] as int;
                assert(same_task(task, tasks@[k]));
                assert(fresh_task_ok(tasks@[k], self.state, *graph, *input, cur_t as int));
                assert(task.wf(self.state.packets@, *graph));
                assert forall|j: int| 0 <= j < task.packets@.len() implies (#[trigger] task.packets@[j]).id < self.n by {
                    assert(task.packets@[j] == tasks@[k].packets@[j]);
                }
                assert(task_ids(task) == task_ids(tasks@[k]));
                assert forall|id: usize| #[trigger] task_ids(task).contains(id) implies self.state.await_packets.que@.contains(id) by {
                    let j = choose|j: int| 0 <= j < task_ids(task).len() && task_ids(task)[j] == id;
                    assert(task.packets@[j] == tasks@[k].packets@[j]);
                }
                lemma_fresh_task_free(tasks@[k], self.state, *graph, *input, cur_t as int, self.packet_free@, self.now@);
                lemma_fresh_on_path(tasks@[k], self.state, *graph, *input, cur_t as int, self.calls@);
            }
            let ghost s0 = self.state;
            self.remove_awaited(&task, Ghost(*input), Ghost(*graph));
            proof {
                lemma_taken_from_waiting(s0, self.state, input.n_cores as int, task);
            }
            let ghost s1 = self.state;
            self.assign_task(core_id, task, Ghost(*input), Ghost(*graph), Ghost(None));
            proof {
                lemma_held_move(s0, self.state, input.n_cores as int, core_id as int, task);
            }
        } else {
            self.split_phase(core_id, cur_t, input, graph);
        }
    }

    /// Goes on with the task of `core_id` at `cur_t`: first asks for the
    /// special works of its packets at the special node, then runs the node.
    fn continue_task(&mut self, core_id: usize, cur_t: i64, input: &Input, graph: &Graph) -> (cmd: Command)
        requires
            cur_t == old(self).now@,
            old(self).core_inv(*input, *graph, Some(core_id)),
            old(self).phase is Idle,
            core_id < input.n_cores,
            old(self).state.next_tasks@[core_id as int] matches Some(task) && task.path_index
                < graph.path_len(task.packet_type as int),
            0 <= cur_t <= old(self).horizon,
            old(self).horizon <= RUN_TIME_CAP,
        ensures
            path_step(old(self).calls@, cmd, final(self).calls@, old(self).state.packets@, *graph),
            final(self).now == old(self).now,
            cmd is Execute ==> old(self).busy_until@[core_id as int] <= cur_t && final(self).busy_until@
                == old(self).busy_until@.update(core_id as int, final(self).state.next_tasks@[core_id as int]->0.next_t as int),
            cmd is QueryWorks ==> final(self).busy_until == old(self).busy_until,
            cmd is QueryWorks ==> final(self).packet_free == old(self).packet_free,
            cmd matches Command::Execute { ids, .. } ==> forall|k: int|
                0 <= k < ids@.len() ==> old(self).packet_free@[#[trigger] ids@[k] as int] <= cur_t,
            cmd matches Command::Execute { ids, .. } ==> final(self).packet_free@ == freed_at(
                old(self).packet_free@,
                ids@,
                final(self).state.next_tasks@[core_id as int]->0.next_t as int,
            ),
            cmd matches Command::Execute { core_id: c, .. } ==> c == core_id && cur_t <= final(self).state.next_tasks@[core_id as int]->0.next_t,
            final(self).inv(*input, *graph),
            final(self).n == old(self).n,
            final(self).state.packet_special_cost == old(self).state.packet_special_cost,
            old(self).horizon <= final(self).horizon <= old(self).horizon + STEP_SPAN,
            cmd matches Command::QueryWorks { t, packet_id } ==> final(self).phase == (Phase::Querying { t: cur_t, core_id, packet_id }) && t == cur_t,
            cmd is Execute ==> final(self).phase is Idle,
            command_time(cmd) matches Some(t) && t == cur_t,
            cmd is QueryWorks || cmd is Execute,
            held_ids(final(self).state, input.n_cores as int) == held_ids(old(self).state, input.n_cores as int),
            served(old(self).state, old(self).queue.items@, input.n_cores as int, -1) ==> served(
                final(self).state,
                final(self).queue.items@,
                input.n_cores as int,
                -1,
            ),
            runs_own_packets(cmd, old(self).state, *graph),
            cmd matches Command::QueryWorks { packet_id, .. } ==> asks_first_unknown(
                old(self).state.next_tasks@[core_id as int]->0,
                packet_id,
                old(self).state.packet_special_cost@,
                *graph,
            ),
            cmd is Execute ==> runs_task(old(self).state, final(self).state, cmd, core_id, cur_t as int, *input, *graph),
            cmd is Execute && graph.node_at(
                old(self).state.next_tasks@[core_id as int]->0.packet_type as int,
                old(self).state.next_tasks@[core_id as int]->0.path_index as int,
            ) == SPECIAL_NODE_ID ==> works_known(
                old(self).state.next_tasks@[core_id as int]->0.packets@,
                old(self).state.packet_special_cost@,
            ),
    {
        let task = self.state.next_tasks[core_id].as_ref().unwrap();
        proof {
            assert(task.wf(self.state.packets@, *graph));
            assert(path_wf(graph.paths@[task.packet_type as int]));
        }
        let node_id = graph.paths[task.packet_type].path[task.path_index];
        if node_id == SPECIAL_NODE_ID {
            if let Some(id) = first_unknown_packet(task, &self.state.packet_special_cost) {
                self.phase = Phase::Querying { t: cur_t, core_id, packet_id: id };
                return Command::QueryWorks { t: cur_t, packet_id: id };
            }
        }
        self.process_task(core_id, cur_t, input, graph)
    }

    /// The special works of `packet_id` came: records their cost and goes on
    /// with the task of `core_id`.
    fn record_works(&mut self, core_id: usize, packet_id: usize, cur_t: i64, works: &[bool; N_SPECIAL], input: &Input, graph: &Graph) -> (cmd: Command)
        requires
            cur_t == old(self).now@,
            old(self).core_inv(*input, *graph, Some(core_id)),
            old(self).phase is Idle,
            core_id < input.n_cores,
            packet_id < old(self).n,
            old(self).state.next_tasks@[core_id as int] matches Some(task) && task.path_index
                < graph.path_len(task.packet_type as int),
            0 <= cur_t <= old(self).horizon,
            old(self).horizon <= RUN_TIME_CAP,
        ensures
            path_step(old(self).calls@, cmd, final(self).calls@, old(self).state.packets@, *graph),
            final(self).now == old(self).now,
            cmd is Execute ==> old(self).busy_until@[core_id as int] <= cur_t && final(self).busy_until@
                == old(self).busy_until@.update(core_id as int, final(self).state.next_tasks@[core_id as int]->0.next_t as int),
            cmd is QueryWorks ==> final(self).busy_until == old(self).busy_until,
            cmd is QueryWorks ==> final(self).packet_free == old(self).packet_free,
            cmd matches Command::Execute { ids, .. } ==> forall|k: int|
                0 <= k < ids@.len() ==> old(self).packet_free@[#[trigger] ids@[k] as int] <= cur_t,
            cmd matches Command::Execute { ids, .. } ==> final(self).packet_free@ == freed_at(
                old(self).packet_free@,
                ids@,
                final(self).state.next_tasks@[core_id as int]->0.next_t as int,
            ),
            cmd matches Command::Execute { core_id: c, .. } ==> c == core_id && cur_t <= final(self).state.next_tasks@[core_id as int]->0.next_t,
            final(self).inv(*input, *graph),
            final(self).n == old(self).n,
            old(self).horizon <= final(self).horizon <= old(self).horizon + STEP_SPAN,
            final(self).state.packet_special_cost@ == old(self).state.packet_special_cost@.update(
                packet_id as int,
                Some(works_cost(works@, graph.special_costs@, N_SPECIAL as int) as i64),
            ),
            cmd matches Command::QueryWorks { t, packet_id } ==> final(self).phase == (Phase::Querying { t: cur_t, core_id, packet_id }) && t == cur_t,
            cmd is Execute ==> final(self).phase is Idle,
            command_time(cmd) matches Some(t) && t == cur_t,
            cmd is QueryWorks || cmd is Execute,
            held_ids(final(self).state, input.n_cores as int) == held_ids(old(self).state, input.n_cores as int),
            served(old(self).state, old(self).queue.items@, input.n_cores as int, -1) ==> served(
                final(self).state,
                final(self).queue.items@,
                input.n_cores as int,
                -1,
            ),
            runs_own_packets(cmd, old(self).state, *graph),
            cmd is Execute ==> runs_task(
                (State { packet_special_cost: final(self).state.packet_special_cost, ..old(self).state }),
                final(self).state,
                cmd,
                core_id,
                cur_t as int,
                *input,
                *graph,
            ),
    {
        let cost = special_works_cost(works, graph);
        self.state.packet_special_cost[packet_id] = Some(cost);
        proof {
            lemma_held_once_frame(old(self).state, self.state, input.n_cores as int);
        }
        proof {
            lemma_held_frame(old(self).state, self.state, input.n_cores as int);
        }
        let r = self.continue_task(core_id, cur_t, input, graph);
        r
    }
}

/// Whether all of `v` are packets of a subtask of `n`, with times within `MAX_TIME`.
pub fn packets_ok(v: &Vec<Packet>, n: usize) -> (r: bool)
    ensures
        r == forall|k: int| 0 <= k < v@.len() ==> (#[trigger] v@[k]).wf(n as nat),
{
    let mut k: usize = 0;
    while k < v.len()
        invariant
            k <= v@.len(),
            forall|j: int| 0 <= j < k ==> (#[trigger] v@[j]).wf(n as nat),
        decreases v@.len() - k,
    {
        let p = v[k];
        if !(p.i < n && p.packet_type < N_PACKET_TYPE && -MAX_TIME <= p.arrive && p.arrive <= MAX_TIME
            && -MAX_TIME <= p.timeout && p.timeout <= MAX_TIME && -MAX_TIME <= p.time_limit
            && p.time_limit <= MAX_TIME && -MAX_TIME <= p.received_t && p.received_t <= MAX_TIME) {
            proof {
                assert(!(v@[k as int]).wf(n as nat));
            }
            return false;
        }
        k = k + 1;
    }
    true
}

/// Whether all of `o` are indices below `len`.
pub fn order_ok(o: &Vec<usize>, len: usize) -> (r: bool)
    ensures
        r == forall|k: int| 0 <= k < o@.len() ==> #[trigger] o@[k] < len,
{
    let mut k: usize = 0;
    while k < o.len()
        invariant
            k <= o@.len(),
            forall|j: int| 0 <= j < k ==> #[trigger] o@[j] < len,
        decreases o@.len() - k,
    {
        if o[k] >= len {
            proof {
                assert(!(o@[k as int] < len));
            }
            return false;
        }
        k = k + 1;
    }
    true
}

/// Whether none of the packets `v` has been received before (by `packets`).
pub fn packets_fresh(v: &Vec<Packet>, packets: &Vec<Option<Packet>>) -> (r: bool)
    ensures
        r == forall|k: int| 0 <= k < v@.len() ==> (#[trigger] v@[k]).i < packets@.len() && packets@[v@[k].i as int] is None,
{
    let mut k: usize = 0;
    while k < v.len()
        invariant
            k <= v@.len(),
            forall|j: int| 0 <= j < k ==> (#[trigger] v@[j]).i < packets@.len() && packets@[v@[j].i as int] is None,
        decreases v@.len() - k,
    {
        let i = v[k].i;
        if i >= packets.len() || packets[i].is_some() {
            return false;
        }
        k = k + 1;
    }
    true
}

/// Whether `o` lists distinct indices below `len`: an order of some of `len` candidates.
pub fn order_distinct(o: &Vec<usize>, len: usize) -> (r: bool)
    ensures
        r == (o@.no_duplicates() && forall|k: int| 0 <= k < o@.len() ==> #[trigger] o@[k] < len),
{
    if !order_ok(o, len) {
        return false;
    }
    let mut seen: Vec<bool> = Vec::with_capacity(len);
    let mut i: usize = 0;
    while i < len
        invariant
            i <= len,
            seen@.len() == i,
            forall|x: int| 0 <= x < i ==> !#[trigger] seen@[x],
        decreases len - i,
    {
        seen.push(false);
        i = i + 1;
    }
    let mut k: usize = 0;
    while k < o.len()
        invariant
            k <= o@.len(),
            seen@.len() == len,
            forall|j: int| 0 <= j < o@.len() ==> #[trigger] o@[j] < len,
            o@.take(k as int).no_duplicates(),
            forall|x: int| 0 <= x < len ==> (#[trigger] seen@[x] <==> o@.take(k as int).contains(x as usize)),
        decreases o@.len() - k,
    {
        let x = o[k];
        if seen[x] {
            proof {
                let j = choose|j: int| 0 <= j < k && #[trigger] o@.take(k as int)[j] == x;
                assert(o@[j] == o@[k as int]);
            }
            return false;
        }
        seen.set(x, true);
        proof {
            assert(o@.take(k + 1) == o@.take(k as int).push(x));
            assert forall|y: int| 0 <= y < len implies (#[trigger] seen@[y] <==> o@.take(k + 1).contains(y as usize)) by {
                if y != x {
                    if o@.take(k + 1).contains(y as usize) {
                        let j = choose|j: int| 0 <= j < k + 1 && #[trigger] o@.take(k + 1)[j] == y as usize;
                        assert(o@.take(k as int)[j] == y as usize);
                    }
                    if o@.take(k as int).contains(y as usize) {
                        let j = choose|j: int| 0 <= j < k && #[trigger] o@.take(k as int)[j] == y as usize;
                        assert(o@.take(k + 1)[j] == y as usize);
                    }
                } else {
                    assert(o@.take(k + 1)[k as int] == x);
                }
            }
            assert(o@.take(k + 1).no_duplicates()) by {
                assert forall|a: int, b: int| 0 <= a < k + 1 && 0 <= b < k + 1 && a != b implies #[trigger] o@.take(k + 1)[a] != #[trigger] o@.take(k + 1)[b] by {
                    if a < k && b < k {
                        assert(o@.take(k as int)[a] == o@.take(k + 1)[a]);
                        assert(o@.take(k as int)[b] == o@.take(k + 1)[b]);
                    } else if a == k {
                        if o@.take(k + 1)[b] == x {
                            assert(o@.take(k as int)[b] == x);
                            assert(o@.take(k as int).contains(x));
                        }
                    } else {
                        if o@.take(k + 1)[a] == x {
                            assert(o@.take(k as int)[a] == x);
                            assert(o@.take(k as int).contains(x));
                        }
                    }
                }
            }
        }
        k = k + 1;
    }
    proof {
        assert(o@.take(o@.len() as int) == o@);
    }
    true
}

/// An item of a queue counts toward its event.
proof fn lemma_count_has(s: Seq<(i64, Event)>, p: int)
    requires
        0 <= p < s.len(),
    ensures
        count_event(s, s[p].1) >= 1,
{
    crate::greedy::lemma_count_event_remove(s, p, s[p].1);
    crate::greedy::lemma_count_event_nonneg(s.remove(p), s[p].1);
}

/// An event that occurs in `s` no time occurs at no position of it.
pub(crate) proof fn lemma_count_zero(s: Seq<(i64, Event)>, e: Event)
    requires
        count_event(s, e) == 0,
    ensures
        forall|k: int| 0 <= k < s.len() ==> (#[trigger] s[k]).1 != e,
{
    assert forall|k: int| 0 <= k < s.len() implies (#[trigger] s[k]).1 != e by {
        if s[k].1 == e {
            lemma_count_has(s, k);
        }
    }
}

/// An event that occurs in `s` some time occurs at some position of it.
proof fn lemma_count_positive(s: Seq<(i64, Event)>, e: Event)
    requires
        count_event(s, e) > 0,
    ensures
        exists|k: int| 0 <= k < s.len() && (#[trigger] s[k]).1 == e,
    decreases s.len(),
{
    if s.last().1 == e {
        assert(s[s.len() - 1].1 == e);
    } else {
        lemma_count_positive(s.drop_last(), e);
        let k = choose|k: int| 0 <= k < s.drop_last().len() && (#[trigger] s.drop_last()[k]).1 == e;
        assert(s[k] == s.drop_last()[k]);
    }
}

/// Taking the event handled first out of a queue whose events are all due no
/// earlier than `now` leaves events all due no earlier than it, each resume
/// still at the time of its task.
proof fn lemma_clock_moves_to(q0: Seq<(i64, Event)>, p: int, q1: Seq<(i64, Event)>, state: State, now: int)
    requires
        0 <= p < q0.len(),
        q1 == q0.remove(p),
        forall|k: int| 0 <= k < q0.len() ==> !crate::greedy::handled_before(#[trigger] q0[k], q0[p]),
        forall|k: int| 0 <= k < q0.len() ==> now <= (#[trigger] q0[k]).0,
        forall|k: int| 0 <= k < q0.len() ==> resumes_at_task_time(#[trigger] q0[k], state),
    ensures
        now <= q0[p].0,
        forall|k: int| 0 <= k < q1.len() ==> q0[p].0 <= (#[trigger] q1[k]).0,
        forall|k: int| 0 <= k < q1.len() ==> resumes_at_task_time(#[trigger] q1[k], state),
{
    assert(now <= q0[p].0);
    assert forall|k: int| 0 <= k < q1.len() implies q0[p].0 <= (#[trigger] q1[k]).0 && resumes_at_task_time(q1[k], state) by {
        if k < p {
            assert(q1[k] == q0[k]);
            assert(!crate::greedy::handled_before(q0[k], q0[p]));
        } else {
            assert(q1[k] == q0[k + 1]);
            assert(!crate::greedy::handled_before(q0[k + 1], q0[p]));
        }
    }
}

/// The ids of the packets `v`.
pub open spec fn ids_of(v: Seq<Packet>) -> Set<usize> {
    Set::new(|id: usize| exists|k: int| 0 <= k < v.len() && (#[trigger] v[k]).i == id)
}

/// `after` is `before` with the packets `v` received: each stored at its id
/// (the last of them, where two share an id), waiting and recorded as
/// received; the other packets as they were.
pub open spec fn registered(before: State, after: State, v: Seq<Packet>) -> bool {
    &&& after.packets@.len() == before.packets@.len()
    &&& forall|k: int|
        0 <= k < v.len() && (forall|j: int| k < j < v.len() ==> (#[trigger] v[j]).i != v[k].i) ==> after.packets@[(
        #[trigger] v[k]).i as int] == Some(v[k])
    &&& forall|id: int|
        0 <= id < before.packets@.len() && !ids_of(v).contains(id as usize) ==> #[trigger] after.packets@[id]
            == before.packets@[id]
    &&& after.await_packets.members() == before.await_packets.members().union(ids_of(v))
    &&& after.received_packets.members() == before.received_packets.members().union(ids_of(v))
}

/// How many candidate tasks a receive plans for `idle` idle cores.
pub open spec fn receive_top_k(idle: int) -> int {
    if RECEIVE_TASK_TOP_K >= idle {
        RECEIVE_TASK_TOP_K as int
    } else {
        idle
    }
}

impl GreedyRun {
    /// Records the packets received at `cur_t` as waiting.
    #[verifier::rlimit(40)]
    #[verifier::spinoff_prover]
    fn register_packets(&mut self, cur_t: i64, packets: Vec<Packet>, input: &Input, graph: &Graph)
        requires
            old(self).core_inv(*input, *graph, None),
            0 <= cur_t <= MAX_T,
            forall|k: int| 0 <= k < packets@.len() ==> (#[trigger] packets@[k]).wf(old(self).n as nat),
            forall|k: int| 0 <= k < packets@.len() ==> old(self).state.packets@[(#[trigger] packets@[k]).i as int] is None,
        ensures
            final(self).calls == old(self).calls,
            final(self).packet_free@.len() == old(self).packet_free@.len(),
            forall|i: int|
                0 <= i < old(self).packet_free@.len() && old(self).packet_free@[i] != -MAX_TIME ==> #[trigger] final(self).packet_free@[i]
                    == old(self).packet_free@[i],
            final(self).now == old(self).now,
            final(self).busy_until == old(self).busy_until,
            final(self).core_inv(*input, *graph, None),
            final(self).n == old(self).n,
            final(self).phase == old(self).phase,
            final(self).horizon == old(self).horizon,
            final(self).state.last_received_t == cur_t,
            final(self).state.next_tasks@ == old(self).state.next_tasks@,
            final(self).queue == old(self).queue,
            final(self).calculator == old(self).calculator,
            forall|k: int|
                0 <= k < packets@.len() ==> final(self).state.packets@[(#[trigger] packets@[k]).i as int] is Some
                    && final(self).state.await_packets.que@.contains(packets@[k].i),
            registered(old(self).state, final(self).state, packets@),
    {
        let ghost n = self.n as nat;
        proof {
            assert forall|j: int, c: int| 0 <= j < packets@.len() && 0 <= c < input.n_cores implies !#[trigger] in_task(
                self.state,
                c,
                (#[trigger] packets@[j]).i,
            ) by {
                if in_task(self.state, c, packets@[j].i) {
                    let t = self.state.next_tasks@[c]->0;
                    assert(t.wf(self.state.packets@, *graph));
                    let q = choose|q: int| 0 <= q < task_ids(t).len() && task_ids(t)[q] == packets@[j].i;
                    assert(t.packets@[q].id == packets@[j].i);
                }
            }
        }
        proof {
            assert forall|j: int| 0 <= j < packets@.len() implies old(self).packet_free@[(#[trigger] packets@[j]).i as int] == -MAX_TIME
                && old(self).calls@[packets@[j].i as int] == 0 by {
                assert(old(self).state.packets@[packets@[j].i as int] is None);
            }
        }
        proof {
            let v0 = packets@.take(0);
            assert(ids_of(v0) =~= Set::<usize>::empty());
            assert(self.state.await_packets.members() =~= self.state.await_packets.members().union(ids_of(v0)));
            assert(self.state.received_packets.members() =~= self.state.received_packets.members().union(ids_of(v0)));
        }
        let mut k: usize = 0;
        while k < packets.len()
            invariant
                self.core_inv(*input, *graph, None),
                self.n == n,
                self.phase == old(self).phase,
                self.horizon == old(self).horizon,
                self.now == old(self).now,
                self.busy_until == old(self).busy_until,
                self.calls == old(self).calls,
                self.queue == old(self).queue,
                self.calculator == old(self).calculator,
                forall|j: int|
                    0 <= j < k ==> self.state.packets@[(#[trigger] packets@[j]).i as int] is Some
                        && self.state.await_packets.que@.contains(packets@[j].i),
                self.packet_free@.len() == old(self).packet_free@.len(),
                forall|i: int|
                    0 <= i < old(self).packet_free@.len() && old(self).packet_free@[i] != -MAX_TIME ==> #[trigger] self.packet_free@[i]
                        == old(self).packet_free@[i],
                forall|j: int| 0 <= j < packets@.len() ==> old(self).packet_free@[(#[trigger] packets@[j]).i as int] == -MAX_TIME,
                forall|j: int| 0 <= j < packets@.len() ==> old(self).calls@[(#[trigger] packets@[j]).i as int] == 0,
                0 <= cur_t <= MAX_T,
                k <= packets@.len(),
                forall|j: int| 0 <= j < packets@.len() ==> (#[trigger] packets@[j]).wf(n),
                self.state.next_tasks@ == old(self).state.next_tasks@,
                registered(old(self).state, self.state, packets@.take(k as int)),
                forall|j: int, c: int| 0 <= j < packets@.len() && 0 <= c < input.n_cores ==> !#[trigger] in_task(
                    self.state,
                    c,
                    (#[trigger] packets@[j]).i,
                ),
            decreases packets@.len() - k,
        {
            let packet = packets[k];
            let i = packet.i;
            let ghost before = self.state;

            self.state.packets[i] = Some(packet);
            self.state.await_packets.add(i);
            self.state.received_packets.add(i);
            proof {
                let v0 = packets@.take(k as int);
                let v1 = packets@.take(k + 1);
                assert(v1 == v0.push(packet));
                assert(ids_of(v1) =~= ids_of(v0).insert(i)) by {
                    assert forall|id: usize| ids_of(v1).contains(id) implies ids_of(v0).insert(i).contains(id) by {
                        let q = choose|q: int| 0 <= q < v1.len() && (#[trigger] v1[q]).i == id;
                        if q < k {
                            assert(v0[q] == v1[q]);
                        }
                    }
                    assert forall|id: usize| ids_of(v0).insert(i).contains(id) implies ids_of(v1).contains(id) by {
                        if id == i {
                            assert(v1[k as int].i == id);
                        } else {
                            let q = choose|q: int| 0 <= q < v0.len() && (#[trigger] v0[q]).i == id;
                            assert(v1[q] == v0[q]);
                        }
                    }
                }
                assert(self.state.await_packets.members() =~= old(self).state.await_packets.members().union(ids_of(v1)));
                assert(self.state.received_packets.members() =~= old(self).state.received_packets.members().union(ids_of(v1)));
                assert forall|q: int|
                    0 <= q < v1.len() && (forall|j: int| q < j < v1.len() ==> (#[trigger] v1[j]).i != v1[q].i) implies self.state.packets@[(
                    #[trigger] v1[q]).i as int] == Some(v1[q]) by {
                    if q < k {
                        assert(v1[k as int].i != v1[q].i);
                        assert(v0[q] == v1[q]);
                        assert forall|j: int| q < j < v0.len() implies (#[trigger] v0[j]).i != v0[q].i by {
                            assert(v0[j] == v1[j]);
                        }
                    }
                }
                assert forall|id: int|
                    0 <= id < old(self).state.packets@.len() && !ids_of(v1).contains(id as usize) implies #[trigger] self.state.packets@[id]
                        == old(self).state.packets@[id] by {
                    assert(!ids_of(v0).contains(id as usize));
                }
            }
            let ghost free0 = self.packet_free@;
            self.packet_free = Ghost(self.packet_free@.update(i as int, packet.received_t + input.cost_r));
            proof {
                assert(old(self).packet_free@[packets@[k as int].i as int] == -MAX_TIME);
                assert forall|i2: int| 0 <= i2 < self.n && #[trigger] self.state.packets@[i2] is None implies self.packet_free@[i2] == -MAX_TIME by {
                    assert(before.packets@[i2] is None);
                }
                assert forall|c: int| 0 <= c < input.n_cores implies (#[trigger] self.state.next_tasks@[c] matches Some(t) ==> packets_free_ok(
                    t,
                    self.packet_free@,
                    self.now@,
                ) && on_path(t, self.calls@, self.state.packets@)) by {
                    if let Some(t) = self.state.next_tasks@[c] {
                        assert(before.next_tasks@[c] == self.state.next_tasks@[c]);
                        assert(packets_free_ok(t, free0, self.now@));
                        assert(on_path(t, self.calls@, before.packets@));
                        assert(!in_task(before, c, packets@[k as int].i));
                        assert forall|q: int| 0 <= q < t.packets@.len() implies (#[trigger] t.packets@[q]).id != i by {
                            assert(task_ids(t)[q] == t.packets@[q].id);
                            if t.packets@[q].id == i {
                                assert(task_ids(t).contains(i));
                            }
                        }
                    }
                }
                assert forall|i2: int| 0 <= i2 < self.n && #[trigger] self.state.packets@[i2] is None implies self.calls@[i2] == 0 by {
                    assert(before.packets@[i2] is None);
                }
                assert forall|id: usize| #[trigger] self.state.await_packets.que@.contains(id) implies self.calls@[id as int] == 0 by {
                    if id != i {
                        assert(self.state.await_packets.members().contains(id));
                        assert(before.await_packets.members().contains(id));
                        assert(before.await_packets.que@.contains(id));
                    } else {
                        assert(old(self).calls@[packets@[k as int].i as int] == 0);
                    }
                }
                assert forall|id: usize| #[trigger] self.state.await_packets.que@.contains(id) implies self.packet_free@[id as int]
                    <= self.state.packets@[id as int]->0.received_t + input.cost_r by {
                    if id != i {
                        assert(self.state.await_packets.members().contains(id));
                        assert(before.await_packets.members().contains(id));
                        assert(before.await_packets.que@.contains(id));
                    }
                }
                assert(in_task(before, 0, packets@[k as int].i) == in_task(before, 0, i));
                assert forall|c: int| 0 <= c < input.n_cores implies !#[trigger] in_task(before, c, i) by {
                    assert(!in_task(before, c, packets@[k as int].i));
                }
                assert forall|id: usize| self.state.await_packets.que@.contains(id) implies before.await_packets.que@.contains(id) || id == i by {
                    assert(self.state.await_packets.members().contains(id));
                }
                lemma_held_once_wait(before, self.state, input.n_cores as int, i);
                assert forall|j: int, c: int| 0 <= j < packets@.len() && 0 <= c < input.n_cores implies !#[trigger] in_task(
                    self.state,
                    c,
                    (#[trigger] packets@[j]).i,
                ) by {
                    assert(!in_task(before, c, packets@[j].i));
                }
                assert forall|j: int| 0 <= j < self.state.await_packets.que@.len() implies self.state.packets@[
                    #[trigger] self.state.await_packets.que@[j] as int] is Some by {
                    let v = self.state.await_packets.que@[j];
                    if v != i {
                        assert(self.state.await_packets.que@.contains(v));
                        assert(self.state.await_packets.members().contains(v));
                        assert(before.await_packets.que@.to_set().contains(v));
                        let q = choose|q: int| 0 <= q < before.await_packets.que@.len() && before.await_packets.que@[q] == v;
                    }
                }
                assert forall|c: int|
                    0 <= c < input.n_cores implies (#[trigger] self.state.next_tasks@[c] matches Some(t) ==> t.wf(
                        self.state.packets@,
                        *graph,
                    )) by {
                    if let Some(t) = self.state.next_tasks@[c] {
                        assert(t.wf(before.packets@, *graph));
                    }
                }
            }
            proof {
                assert forall|j: int| 0 <= j < k + 1 implies self.state.packets@[(#[trigger] packets@[j]).i as int] is Some
                    && self.state.await_packets.que@.contains(packets@[j].i) by {
                    assert(self.state.await_packets.members().contains(packets@[j].i));
                }
            }
            k = k + 1;
        }
        let ghost before = self.state;
        self.state.last_received_t = cur_t;
        proof {
            lemma_held_once_frame(before, self.state, input.n_cores as int);
            assert(packets@.take(packets@.len() as int) == packets@);
        }
    }

    /// How many cores have no task.
    fn idle_core_count(&self, input: &Input) -> (r: usize)
        requires
            self.state.next_tasks@.len() == input.n_cores,
        ensures
            r <= input.n_cores,
            r == idle_before(self.state.next_tasks@, input.n_cores as int),
            r > 0 <==> exists|c: int| 0 <= c < input.n_cores && #[trigger] self.state.next_tasks@[c] is None,
    {
        let mut count: usize = 0;
        let mut c: usize = 0;
        while c < input.n_cores
            invariant
                self.state.next_tasks@.len() == input.n_cores,
                c <= input.n_cores,
                count <= c,
                count == idle_before(self.state.next_tasks@, c as int),
                count > 0 <==> exists|d: int| 0 <= d < c && #[trigger] self.state.next_tasks@[d] is None,
            decreases input.n_cores - c,
        {
            if self.state.next_tasks[c].is_none() {
                count = count + 1;
            }
            c = c + 1;
        }
        count
    }

    /// Packets were received at `cur_t`: the idle cores get candidate tasks to choose from.
    #[verifier::rlimit(100)]
    #[verifier::spinoff_prover]
    fn receive(&mut self, cur_t: i64, received: Option<Vec<Packet>>, input: &Input, graph: &Graph) -> (cmd: Command)
        requires
            cur_t == old(self).now@,
            old(self).core_inv(*input, *graph, None),
            old(self).phase is Idle,
            0 <= cur_t <= MAX_T,
            0 <= old(self).horizon <= RUN_TIME_CAP,
            received matches Some(v) ==> forall|k: int| 0 <= k < v@.len() ==> (#[trigger] v@[k]).wf(old(self).n as nat)
                && old(self).state.packets@[v@[k].i as int] is None,
        ensures
            final(self).calls == old(self).calls,
            final(self).packet_free@.len() == old(self).packet_free@.len(),
            forall|i: int|
                0 <= i < old(self).packet_free@.len() && old(self).packet_free@[i] != -MAX_TIME ==> #[trigger] final(self).packet_free@[i]
                    == old(self).packet_free@[i],
            final(self).now == old(self).now,
            final(self).busy_until == old(self).busy_until,
            final(self).inv(*input, *graph),
            final(self).n == old(self).n,
            final(self).phase is Idle || final(self).phase is PlanForReceive,
            final(self).phase is Idle ==> cmd is Nothing,
            final(self).phase is PlanForReceive ==> cmd is PlanOrder,
            final(self).state.next_tasks@ == old(self).state.next_tasks@,
            received matches Some(v) ==> final(self).state.last_received_t == cur_t && forall|k: int|
                0 <= k < v@.len() ==> final(self).state.packets@[(#[trigger] v@[k]).i as int] is Some
                    && final(self).state.await_packets.que@.contains(v@[k].i),
            received matches Some(v) ==> registered(old(self).state, final(self).state, v@),
            received is None ==> final(self).state == old(self).state,
            final(self).phase is PlanForReceive <==> (exists|c: int|
                0 <= c < input.n_cores && #[trigger] final(self).state.next_tasks@[c] is None)
                && final(self).state.await_packets.que@.len() > 0,
            final(self).phase matches Phase::PlanForReceive { t, tasks } ==> t == cur_t && (cmd matches Command::PlanOrder {
                batches,
                next_ts,
            } && batches@.len() == tasks@.len() && next_ts@.len() == input.n_cores),
            final(self).phase is PlanForReceive ==> final(self).queue == old(self).queue,
            final(self).phase matches Phase::PlanForReceive { tasks, .. } ==> tasks@.len() > 0,
            final(self).phase matches Phase::PlanForReceive { tasks, .. } ==> exists|plan: TaskPlan|
                #[trigger] planned(
                    plan,
                    final(self).state,
                    cur_t as int,
                    *input,
                    *graph,
                    old(self).calculator,
                    receive_top_k(idle_before(final(self).state.next_tasks@, input.n_cores as int)),
                ) && plan.tasks@ == tasks@ && cmd == (Command::PlanOrder { next_ts: plan.next_ts, batches: plan.batches }),
            final(self).phase is Idle ==> final(self).queue.items@ == with_next_receive(
                old(self).queue.items@,
                final(self).state,
                cur_t as int,
                *input,
            ),
    {
        if let Some(packets) = received {
            self.register_packets(cur_t, packets, input, graph);
        }
        let n_idle_cores = self.idle_core_count(input);
        if n_idle_cores > 0 {
            let top_k = if RECEIVE_TASK_TOP_K >= n_idle_cores {
                RECEIVE_TASK_TOP_K
            } else {
                n_idle_cores
            };
            let plan = create_tasks(&self.state, cur_t, input, graph, &self.calculator, top_k);
            proof {
                if self.state.await_packets.que@.len() > 0 {
                    let id = self.state.await_packets.que@[0];
                    assert(self.state.await_packets.que@.contains(id));
                    if plan.tasks@.len() == 0 {
                        assert(exists|k: int| 0 <= k < plan.tasks@.len() && #[trigger] task_ids(plan.tasks@[k]).contains(id));
                    }
                } else if plan.tasks@.len() > 0 {
                    let t0 = plan.tasks@[0];
                    assert(fresh_task_ok(t0, self.state, *graph, *input, cur_t as int));
                    assert(self.state.await_packets.que@.contains(t0.packets@[0].id));
                }
            }
            if plan.tasks.len() > 0 {
                proof {
                    assert(top_k as int == receive_top_k(idle_before(self.state.next_tasks@, input.n_cores as int)));
                    assert(self.calculator == old(self).calculator);
                }
                self.phase = Phase::PlanForReceive { t: cur_t, tasks: plan.tasks };
                return Command::PlanOrder { next_ts: plan.next_ts, batches: plan.batches };
            }
        }
        self.finish_receive(cur_t, input, Ghost(*graph), Ghost(None));
        Command::Nothing
    }

    /// The order for the candidates at a receive: each idle core takes the next one.
    fn receive_with_order(&mut self, cur_t: i64, tasks: Vec<Task>, order: Vec<usize>, input: &Input, graph: &Graph)
        requires
            cur_t == old(self).now@,
            old(self).core_inv(*input, *graph, None),
            old(self).phase is Idle,
            0 <= cur_t <= MAX_T,
            0 <= old(self).horizon <= RUN_TIME_CAP,
            forall|k: int| 0 <= k < tasks@.len() ==> fresh_task_ok(#[trigger] tasks@[k], old(self).state, *graph, *input, cur_t as int),
            plan_disjoint(tasks@),
            order@.no_duplicates(),
            forall|k: int| 0 <= k < order@.len() ==> #[trigger] order@[k] < tasks@.len(),
        ensures
            final(self).now == old(self).now,
            final(self).busy_until == old(self).busy_until,
            final(self).packet_free == old(self).packet_free,
            final(self).calls == old(self).calls,
            final(self).inv(*input, *graph),
            final(self).n == old(self).n,
            final(self).phase is Idle,
            held_ids(final(self).state, input.n_cores as int) == held_ids(old(self).state, input.n_cores as int),
            forall|c: int|
                0 <= c < input.n_cores ==> #[trigger] takes_in_turn(
                    old(self).state.next_tasks@,
                    final(self).state.next_tasks@,
                    tasks@,
                    order@,
                    c,
                ),
            final(self).queue.items@.len() == old(self).queue.items@.len() + (if idle_before(
                old(self).state.next_tasks@,
                input.n_cores as int,
            ) < order@.len() {
                idle_before(old(self).state.next_tasks@, input.n_cores as int)
            } else {
                order@.len() as int
            }) + (if next_receive(final(self).state, cur_t as int, *input) is Some {
                1int
            } else {
                0int
            }),
            next_receive(final(self).state, cur_t as int, *input) matches Some(t) ==> final(self).queue.items@.last() == (
            t as i64,
            Event::ReceivePacket,
            ),
    {
        let mut ordered = order_tasks(&tasks, &order);
        let ghost packets0 = self.state.packets@;
        proof {
            let len = order@.len();
            assert forall|k: int| 0 <= k < ordered@.len() implies task_ids(#[trigger] ordered@[k]) == task_ids(
                tasks@[order@[len - 1 - k] as int],
            ) by {
                assert(same_task(ordered@[k], tasks@[order@[len - 1 - k] as int]));
            }
            assert forall|a: int, b: int, id: usize|
                0 <= a < b < ordered@.len() implies !(#[trigger] task_ids(ordered@[a]).contains(id) && #[trigger] task_ids(
                    ordered@[b],
                ).contains(id)) by {
                let ta = order@[len - 1 - a] as int;
                let tb = order@[len - 1 - b] as int;
                assert(task_ids(ordered@[a]) == task_ids(tasks@[ta]));
                assert(task_ids(ordered@[b]) == task_ids(tasks@[tb]));
                assert(order@[len - 1 - a] != order@[len - 1 - b]);
                if ta < tb {
                    assert(!(task_ids(tasks@[ta]).contains(id) && task_ids(tasks@[tb]).contains(id)));
                } else {
                    assert(!(task_ids(tasks@[tb]).contains(id) && task_ids(tasks@[ta]).contains(id)));
                }
            }
            assert forall|k: int| 0 <= k < ordered@.len() implies task_ids(#[trigger] ordered@[k]).no_duplicates() by {
                assert(task_ids(ordered@[k]) == task_ids(tasks@[order@[len - 1 - k] as int]));
            }
            assert forall|k: int| 0 <= k < ordered@.len() implies cur_t <= (#[trigger] ordered@[k]).next_t
                && packets_free_ok(ordered@[k], self.packet_free@, self.now@) && on_path(ordered@[k], self.calls@, packets0) by {
                let t0 = tasks@[order@[len - 1 - k] as int];
                assert(same_task(ordered@[k], t0));
                assert(fresh_task_ok(t0, old(self).state, *graph, *input, cur_t as int));
                lemma_fresh_task_free(t0, old(self).state, *graph, *input, cur_t as int, self.packet_free@, self.now@);
                lemma_fresh_on_path(t0, old(self).state, *graph, *input, cur_t as int, self.calls@);
            }
            assert forall|k: int, id: usize|
                0 <= k < ordered@.len() && #[trigger] task_ids(ordered@[k]).contains(id) implies self.state.await_packets.que@.contains(id) by {
                let t = tasks@[order@[len - 1 - k] as int];
                assert(task_ids(ordered@[k]) == task_ids(t));
                assert(fresh_task_ok(t, old(self).state, *graph, *input, cur_t as int));
                let j = choose|j: int| 0 <= j < task_ids(t).len() && task_ids(t)[j] == id;
                assert(t.packets@[j].id == id);
            }
        }
        let ghost nt0 = self.state.next_tasks@;
        let ghost olen = order@.len() as int;
        proof {
            assert(ordered@.len() == olen);
        }
        let mut c: usize = 0;
        while c < input.n_cores
            invariant
                self.core_inv(*input, *graph, None),
                self.phase is Idle,
                self.n == old(self).n,
                nt0 == old(self).state.next_tasks@,
                olen == order@.len(),
                nt0.len() == input.n_cores,
                ordered@.len() == olen - (if idle_before(nt0, c as int) < olen { idle_before(nt0, c as int) } else { olen }),
                forall|k: int|
                    0 <= k < ordered@.len() ==> same_task(#[trigger] ordered@[k], tasks@[order@[olen - 1 - k] as int]),
                forall|d: int| 0 <= d < c ==> #[trigger] takes_in_turn(nt0, self.state.next_tasks@, tasks@, order@, d),
                forall|d: int| c <= d < input.n_cores ==> #[trigger] self.state.next_tasks@[d] == nt0[d],
                self.queue.items@.len() == old(self).queue.items@.len() + (olen - ordered@.len()),
                self.state.packets@ == packets0,
                c <= input.n_cores,
                self.now == old(self).now,
                self.busy_until == old(self).busy_until,
                self.packet_free == old(self).packet_free,
                self.calls == old(self).calls,
                cur_t == self.now@,
                forall|k: int| 0 <= k < ordered@.len() ==> cur_t <= (#[trigger] ordered@[k]).next_t,
                forall|k: int| 0 <= k < ordered@.len() ==> packets_free_ok(#[trigger] ordered@[k], self.packet_free@, self.now@),
                forall|k: int| 0 <= k < ordered@.len() ==> on_path(#[trigger] ordered@[k], self.calls@, packets0),
                forall|k: int| 0 <= k < ordered@.len() ==> (#[trigger] ordered@[k]).wf(packets0, *graph),
                plan_disjoint(ordered@),
                forall|k: int, id: usize|
                    0 <= k < ordered@.len() && #[trigger] task_ids(ordered@[k]).contains(id) ==> self.state.await_packets.que@.contains(id),
                held_ids(self.state, input.n_cores as int) == held_ids(old(self).state, input.n_cores as int),
            decreases input.n_cores - c,
        {
            let ghost nt_b = self.state.next_tasks@;
            let ghost ord_b = ordered@;
            if self.state.next_tasks[c].is_none() && ordered.len() > 0 {
                let ghost before = ordered@;
                let task = ordered.pop().unwrap();
                let ghost s0 = self.state;
                proof {
                    assert(task == before[before.len() - 1]);
                    assert(task.wf(packets0, *graph));
                    assert forall|id: usize| #[trigger] task_ids(task).contains(id) implies s0.await_packets.que@.contains(id) by {
                        assert(task_ids(before[before.len() - 1]).contains(id));
                    }
                }
                self.remove_awaited(&task, Ghost(*input), Ghost(*graph));
                proof {
                    lemma_taken_from_waiting(s0, self.state, input.n_cores as int, task);
                    assert(task_ids(task).no_duplicates());
                    assert forall|k: int, id: usize|
                        0 <= k < ordered@.len() && #[trigger] task_ids(ordered@[k]).contains(id) implies self.state.await_packets.que@.contains(id) by {
                        assert(ordered@[k] == before[k]);
                        assert(s0.await_packets.que@.contains(id));
                        assert(!(task_ids(before[k]).contains(id) && task_ids(before[before.len() - 1]).contains(id)));
                        assert(!task_ids(task).to_set().contains(id));
                        assert(task.packets@.map_values(|p: PacketStatus| p.id) == task_ids(task));
                        assert(s0.await_packets.members().contains(id));
                        assert(self.state.await_packets.members().contains(id));
                    }
                    assert(plan_disjoint(ordered@)) by {
                        assert forall|a: int, b: int, id: usize|
                            0 <= a < b < ordered@.len() implies !(#[trigger] task_ids(ordered@[a]).contains(id) && #[trigger] task_ids(
                                ordered@[b],
                            ).contains(id)) by {
                            assert(ordered@[a] == before[a] && ordered@[b] == before[b]);
                        }
                        assert forall|k: int| 0 <= k < ordered@.len() implies task_ids(#[trigger] ordered@[k]).no_duplicates() by {
                            assert(ordered@[k] == before[k]);
                        }
                    }
                }
                self.assign_task(c, task, Ghost(*input), Ghost(*graph), Ghost(None));
                proof {
                    lemma_held_move(s0, self.state, input.n_cores as int, c as int, task);
                    assert(same_task(task, tasks@[order@[olen - 1 - (ord_b.len() - 1)] as int]));
                }
            }
            proof {
                let ci = c as int;
                assert(idle_before(nt0, ci + 1) == idle_before(nt0, ci) + (if nt0[ci] is None { 1int } else { 0int }));
                assert forall|d: int| 0 <= d < c + 1 implies #[trigger] takes_in_turn(nt0, self.state.next_tasks@, tasks@, order@, d) by {
                    if d < ci {
                        assert(self.state.next_tasks@[d] == nt_b[d]);
                        assert(takes_in_turn(nt0, nt_b, tasks@, order@, d));
                    }
                }
                assert forall|d: int| c + 1 <= d < input.n_cores implies #[trigger] self.state.next_tasks@[d] == nt0[d] by {
                    assert(self.state.next_tasks@[d] == nt_b[d]);
                }
                assert forall|k: int| 0 <= k < ordered@.len() implies same_task(#[trigger] ordered@[k], tasks@[order@[olen - 1 - k] as int]) by {
                    assert(ordered@[k] == ord_b[k]);
                }
            }
            c = c + 1;
        }
        self.finish_receive(cur_t, input, Ghost(*graph), Ghost(None));
    }

    /// Takes the next event and handles it.
    fn next_event(&mut self, input: &Input, graph: &Graph) -> (cmd: Command)
        requires
            old(self).core_inv(*input, *graph, None),
            old(self).phase is Idle,
            old(self).horizon <= RUN_TIME_CAP,
        ensures
            path_step(old(self).calls@, cmd, final(self).calls@, old(self).state.packets@, *graph),
            packet_step(old(self).packet_free@, cmd, final(self).packet_free@),
            core_step(old(self).busy_until@, cmd, final(self).busy_until@),
            old(self).now@ <= final(self).now@,
            command_time(cmd) matches Some(t) ==> t == final(self).now@,
            final(self).inv(*input, *graph),
            final(self).n == old(self).n,
            step_agrees(cmd, final(self).phase),
            cmd matches Command::Execute { core_id, .. } ==> final(self).busy_until@[core_id as int]
                == final(self).state.next_tasks@[core_id as int]->0.next_t,
            runs_own_packets(cmd, old(self).state, *graph),
            cmd matches Command::Execute { core_id, .. } ==> runs_task(
                old(self).state,
                final(self).state,
                cmd,
                core_id,
                final(self).now@,
                *input,
                *graph,
            ),
            held_after_event(old(self).state, final(self).state, input.n_cores as int, *graph),
            served(old(self).state, old(self).queue.items@, input.n_cores as int, -1) ==> no_stranded(
                *final(self),
                input.n_cores as int,
            ),
            leaves_done(
                held_ids(old(self).state, input.n_cores as int),
                held_ids(final(self).state, input.n_cores as int),
                old(self).calls@,
                old(self).state.packets@,
                *graph,
            ),
            old(self).queue.items@.len() == 0 ==> cmd is Finish && final(self).phase is Finished,
            old(self).queue.items@.len() > 0 ==> exists|p: int|
                0 <= p < old(self).queue.items@.len() && final(self).now@ == old(self).queue.items@[p].0 && (forall|k: int|
                    0 <= k < old(self).queue.items@.len() ==> !crate::greedy::handled_before(
                        #[trigger] old(self).queue.items@[k],
                        old(self).queue.items@[p],
                    )) && handles_event(old(self).queue.items@[p], cmd, old(self).state, final(self).state.next_tasks@, *graph),
    {
        let ghost q0 = self.queue.items@;
        match self.queue.pop() {
            None => {
                proof {
                    if old(self).state.await_packets.que@.len() > 0 && served(
                        old(self).state,
                        q0,
                        input.n_cores as int,
                        -1,
                    ) {
                        assert(count_event(q0, Event::ReceivePacket) == 0);
                        assert(count_event(q0, Event::ResumeCore(0)) == 0);
                        assert(old(self).state.next_tasks@[0] is None);
                    }
                    assert forall|c: int| 0 <= c < input.n_cores implies #[trigger] old(self).state.next_tasks@[c] is None by {
                        assert(count_event(q0, Event::ResumeCore(c as usize)) == 0);
                    }
                }
                self.phase = Phase::Finished;
                Command::Finish
            },
            Some((t, Event::ReceivePacket)) => {
                self.now = Ghost(t as int);
                let ghost p = choose|p: int| 0 <= p < q0.len() && q0[p] == (t, Event::ReceivePacket) && self.queue.items@ == q0.remove(p);
                proof {
                    assert(handles_event(q0[p], Command::ReceivePackets { t }, old(self).state, self.state.next_tasks@, *graph));
                    lemma_clock_moves_to(q0, p, self.queue.items@, self.state, old(self).now@);
                    assert(q0[p].0 <= MAX_T);
                    assert forall|c: int|
                        0 <= c < input.n_cores implies #[trigger] count_event(self.queue.items@, Event::ResumeCore(c as usize))
                            == if self.state.next_tasks@[c] is Some {
                            1int
                        } else {
                            0int
                        } by {
                        crate::greedy::lemma_count_event_remove(q0, p, Event::ResumeCore(c as usize));
                    }
                    assert forall|k: int| 0 <= k < self.queue.items@.len() implies {
                        let item = #[trigger] self.queue.items@[k];
                        &&& 0 <= item.0 <= self.horizon
                        &&& item.1 matches Event::ResumeCore(c) ==> c < input.n_cores
                        &&& item.1 is ReceivePacket ==> item.0 <= MAX_T
                    } by {
                        if k < p {
                            assert(self.queue.items@[k] == q0[k]);
                        } else {
                            assert(self.queue.items@[k] == q0[k + 1]);
                        }
                    }
                }
                self.phase = Phase::Receiving { t };
                Command::ReceivePackets { t }
            },
            Some((t, Event::ResumeCore(core_id))) => {
                self.now = Ghost(t as int);
                let ghost p = choose|p: int| 0 <= p < q0.len() && q0[p] == (t, Event::ResumeCore(core_id)) && self.queue.items@ == q0.remove(p);
                proof {
                    lemma_clock_moves_to(q0, p, self.queue.items@, self.state, old(self).now@);
                    assert(core_id < input.n_cores);
                    lemma_count_has(q0, p);
                    let ci = core_id as int;
                    assert(count_event(old(self).queue.items@, Event::ResumeCore(ci as usize)) == if old(self).state.next_tasks@[ci] is Some && None::<usize> != Some(ci as usize) {
                        1int
                    } else {
                        0int
                    });
                    assert(self.state.next_tasks@[core_id as int] is Some);
                    assert forall|c: int|
                        0 <= c < input.n_cores implies #[trigger] count_event(self.queue.items@, Event::ResumeCore(c as usize))
                            == if self.state.next_tasks@[c] is Some && Some(core_id) != Some(c as usize) {
                            1int
                        } else {
                            0int
                        } by {
                        crate::greedy::lemma_count_event_remove(q0, p, Event::ResumeCore(c as usize));
                    }
                    assert forall|k: int| 0 <= k < self.queue.items@.len() implies {
                        let item = #[trigger] self.queue.items@[k];
                        &&& 0 <= item.0 <= self.horizon
                        &&& item.1 matches Event::ResumeCore(c) ==> c < input.n_cores
                        &&& item.1 is ReceivePacket ==> item.0 <= MAX_T
                    } by {
                        if k < p {
                            assert(self.queue.items@[k] == q0[k]);
                        } else {
                            assert(self.queue.items@[k] == q0[k + 1]);
                        }
                    }
                }
                let task = self.state.next_tasks[core_id].as_ref().unwrap();
                proof {
                    assert(task.wf(self.state.packets@, *graph));
                }
                let ghost s_mid = self.state;
                let ghost done = task.path_index >= graph.path_len(task.packet_type as int);
                proof {
                    crate::greedy::lemma_count_event_remove(q0, p, Event::ReceivePacket);
                }
                let cmd = if task.path_index >= graph.paths[task.packet_type].path.len() {
                    self.complete_task(core_id, t, input, graph)
                } else {
                    self.continue_task(core_id, t, input, graph)
                };
                proof {
                    assert(s_mid == old(self).state);
                    if done {
                        assert(finishes(old(self).state, self.state, input.n_cores as int, core_id as int, *graph));
                        let task0 = old(self).state.next_tasks@[core_id as int]->0;
                        assert forall|id: usize|
                            #[trigger] held_ids(old(self).state, input.n_cores as int).contains(id) && !held_ids(
                                self.state,
                                input.n_cores as int,
                            ).contains(id) implies old(self).calls@[id as int] == graph.path_len(
                                old(self).state.packets@[id as int]->0.packet_type as int,
                            ) by {
                            assert(task_ids(task0).to_set().contains(id));
                            assert(task_ids(task0).contains(id));
                            let k = choose|k: int| 0 <= k < task_ids(task0).len() && task_ids(task0)[k] == id;
                            assert(task0.packets@[k].id == id);
                        }
                    }
                }
                proof {
                    assert(handles_event(q0[p], cmd, old(self).state, self.state.next_tasks@, *graph));
                }
                cmd
            },
        }
    }
}

/// The time a command is sent at, for the commands sent at a time.
pub open spec fn command_time(cmd: Command) -> Option<i64> {
    match cmd {
        Command::ReceivePackets { t } => Some(t),
        Command::QueryWorks { t, .. } => Some(t),
        Command::Execute { t, .. } => Some(t),
        _ => None,
    }
}

/// A step that sent `cmd` moved a scheduler's clock from `before` to `after`
/// and no backwards, and sent `cmd`, if at a time, at the time it moved it to.
pub open spec fn clock_step(before: int, cmd: Command, after: int) -> bool {
    &&& before <= after
    &&& command_time(cmd) matches Some(t) ==> t == after
}

/// A step that sent `cmd` left when each core is busy until (`before`,
/// `after`) as it was, but for a call: sent to a core no earlier than the
/// core's last call ends, it keeps the core busy until no earlier than it
/// starts.
pub open spec fn core_step(before: Seq<int>, cmd: Command, after: Seq<int>) -> bool {
    match cmd {
        Command::Execute { t, core_id, .. } => {
            &&& core_id < before.len()
            &&& before[core_id as int] <= t <= after[core_id as int]
            &&& after == before.update(core_id as int, after[core_id as int])
        },
        _ => after == before,
    }
}

/// A step that sent `cmd` moved when each packet is free (`before`, `after`)
/// no earlier, but for packets not received before (free at `-MAX_TIME`);
/// a call it sent runs packets that are free by then and keeps them busy
/// until no earlier than it starts.
pub open spec fn packet_step(before: Seq<int>, cmd: Command, after: Seq<int>) -> bool {
    &&& after.len() == before.len()
    &&& forall|i: int| 0 <= i < before.len() && before[i] != -MAX_TIME ==> before[i] <= #[trigger] after[i]
    &&& cmd matches Command::Execute { t, ids, .. } ==> 0 <= t && forall|k: int|
        0 <= k < ids@.len() ==> 0 <= ids@[k] < before.len() && before[ids@[k] as int] <= t && t <= #[trigger] after[ids@[k] as int]
}

/// A step that sent `cmd` moved each packet of a call one node on along its
/// path (`before`, `after` count the calls each packet has been in), the call
/// running the node each of its packets is at; any other step moved none.
pub open spec fn path_step(before: Seq<int>, cmd: Command, after: Seq<int>, packets: Seq<Option<Packet>>, graph: Graph) -> bool {
    match cmd {
        Command::Execute { node_id, ids, .. } => {
            &&& after == called(before, ids@)
            &&& forall|k: int|
                0 <= k < ids@.len() ==> {
                    let id = #[trigger] ids@[k];
                    &&& packets[id as int] is Some
                    &&& 0 <= before[id as int] < graph.path_len(packets[id as int]->0.packet_type as int)
                    &&& node_id == graph.node_at(packets[id as int]->0.packet_type as int, before[id as int])
                }
        },
        _ => after == before,
    }
}

/// `cmd` is what handling the pending event `item` gives: a receive at its
/// time, or, for a resume of a core, a step of the core's task when the task
/// is still on its path (a call on that core or a question about a packet's
/// works), else the core drops its finished task, for a candidate choice or
/// part of another core's task, or nothing (`after`: the cores' tasks after).
pub open spec fn handles_event(item: (i64, Event), cmd: Command, state: State, after: Seq<Option<Task>>, graph: Graph) -> bool {
    match item.1 {
        Event::ReceivePacket => cmd matches Command::ReceivePackets { t } && t == item.0,
        Event::ResumeCore(c) => if state.next_tasks@[c as int]->0.path_index < graph.path_len(
            state.next_tasks@[c as int]->0.packet_type as int,
        ) {
            (cmd matches Command::Execute { core_id, .. } && core_id == c) || cmd is QueryWorks
        } else {
            &&& cmd is Nothing || cmd is PlanOrder
            &&& after[c as int] is None || after[c as int]->0.path_index < graph.path_len(after[c as int]->0.packet_type as int)
        },
    }
}

/// The command and the phase it leaves the scheduler in agree: each command
/// waits for its reply.
pub open spec fn step_agrees(cmd: Command, phase: Phase) -> bool {
    match cmd {
        Command::Nothing => phase is Idle,
        Command::Execute { .. } => phase is Idle,
        Command::ReceivePackets { t } => phase == (Phase::Receiving { t }),
        Command::QueryWorks { t, packet_id } => phase matches Phase::Querying { t: t2, packet_id: p2, .. } && t2 == t && p2 == packet_id,
        Command::PlanOrder { batches, next_ts } => phase is PlanForReceive || phase is PlanForComplete,
        Command::Finish => phase is Finished,
    }
}

/// What a step does with the packets `received` at `t`, from the state and
/// queue before (`before`, `queue`) to `after`: the packets are recorded as
/// `registered` says; then, when a core is idle and packets wait, the
/// candidate tasks `create_tasks` gives are handed to the optimizer, else the
/// next receive is scheduled.
pub open spec fn receive_outcome(
    before: State,
    queue: Seq<(i64, Event)>,
    calculator: DurationCalculator,
    after: GreedyRun,
    cmd: Command,
    received: Option<Vec<Packet>>,
    t: int,
    input: Input,
    graph: Graph,
) -> bool {
    &&& (received matches Some(v) ==> registered(before, after.state, v@) && after.state.last_received_t == t)
    &&& (received is None ==> after.state == before)
    &&& after.state.next_tasks@ == before.next_tasks@
    &&& (after.phase is Idle || after.phase is PlanForReceive)
    &&& (after.phase is PlanForReceive <==> (exists|c: int|
        0 <= c < input.n_cores && #[trigger] after.state.next_tasks@[c] is None) && after.state.await_packets.que@.len() > 0)
    &&& (after.phase matches Phase::PlanForReceive { t: t2, tasks } ==> t2 == t && tasks@.len() > 0 && after.queue.items@ == queue
        && exists|plan: TaskPlan|
        #[trigger] planned(
            plan,
            after.state,
            t,
            input,
            graph,
            calculator,
            receive_top_k(idle_before(after.state.next_tasks@, input.n_cores as int)),
        ) && plan.tasks@ == tasks@ && cmd == (Command::PlanOrder { next_ts: plan.next_ts, batches: plan.batches }))
    &&& (after.phase is Idle ==> cmd is Nothing && after.queue.items@ == with_next_receive(queue, after.state, t, input))
}

/// What a step does with the optimizer's `order` of the candidate `tasks`
/// planned at a receive at `t`: each idle core takes the next candidate in
/// the order, and the next receive is scheduled.
pub open spec fn ordered_receive(
    before: State,
    queue: Seq<(i64, Event)>,
    after: GreedyRun,
    tasks: Seq<Task>,
    order: Seq<usize>,
    t: int,
    input: Input,
) -> bool {
    &&& after.phase is Idle
    &&& forall|c: int| 0 <= c < input.n_cores ==> #[trigger] takes_in_turn(before.next_tasks@, after.state.next_tasks@, tasks, order, c)
    &&& after.queue.items@.len() == queue.len() + (if idle_before(before.next_tasks@, input.n_cores as int) < order.len() {
        idle_before(before.next_tasks@, input.n_cores as int)
    } else {
        order.len() as int
    }) + (if next_receive(after.state, t, input) is Some {
        1int
    } else {
        0int
    })
    &&& (next_receive(after.state, t, input) matches Some(t2) ==> after.queue.items@.last() == (t2 as i64, Event::ReceivePacket))
}

/// What a step does with the optimizer's `order` of the candidate `tasks`
/// planned when core `core_id` finished its task at `t`: the core takes the
/// first candidate of the order; with no candidate ordered, it takes half
/// of another core's task when that pays (`split_outcome`).
pub open spec fn ordered_complete(
    before: State,
    queue: Seq<(i64, Event)>,
    after: GreedyRun,
    core_id: usize,
    tasks: Seq<Task>,
    order: Seq<usize>,
    t: int,
    input: Input,
    graph: Graph,
) -> bool {
    &&& after.phase is Idle
    &&& (order.len() > 0 ==> (after.state.next_tasks@[core_id as int] matches Some(task) && same_task(
        task,
        tasks[order[0] as int],
    ) && after.state.next_tasks@ == before.next_tasks@.update(core_id as int, Some(task)) && after.queue.items@
        == queue.push((task.next_t, Event::ResumeCore(core_id))) && after.state.await_packets.members()
        == before.await_packets.members().difference(task_ids(task).to_set())))
    &&& (order.len() == 0 ==> split_outcome(
        before.next_tasks@,
        queue,
        before.packet_special_cost@,
        after,
        core_id,
        t,
        input,
        graph,
    ))
}

impl GreedyRun {
    /// One step of the scheduler: takes the reply to the last command and
    /// returns the next command. Received packets are registered and planned
    /// for the idle cores; an order from the optimizer hands its candidates
    /// to the idle cores in turn (or to the core that finished); at a core's
    /// event its task runs its next call (`runs_task`), or the works of one
    /// of its packets are asked for, or the finished task lets its packets
    /// go. A call runs packets of the core's task at the node their path is
    /// at, when the core and the packets are free, and no command is sent
    /// earlier than one before it. Packets are let go only once they went
    /// through their whole path, and with full orders none is left waiting
    /// with no core to take it.
    pub fn step(&mut self, reply: Reply, input: &Input, graph: &Graph) -> (cmd: Command)
        requires
            old(self).inv(*input, *graph),
            old(self).fits(reply),
            old(self).horizon <= RUN_TIME_CAP,
        ensures
            final(self).inv(*input, *graph),
            final(self).n == old(self).n,
            step_agrees(cmd, final(self).phase),
            old(self).phase is Finished ==> cmd is Finish,
            cmd matches Command::Execute { core_id, .. } ==> final(self).busy_until@[core_id as int]
                == final(self).state.next_tasks@[core_id as int]->0.next_t,
            runs_own_packets(cmd, old(self).state, *graph),
            clock_step(old(self).now@, cmd, final(self).now@),
            core_step(old(self).busy_until@, cmd, final(self).busy_until@),
            packet_step(old(self).packet_free@, cmd, final(self).packet_free@),
            path_step(old(self).calls@, cmd, final(self).calls@, old(self).state.packets@, *graph),
            old(self).phase matches Phase::Receiving { t } ==> (reply matches Reply::Packets(received) && receive_outcome(
                old(self).state,
                old(self).queue.items@,
                old(self).calculator,
                *final(self),
                cmd,
                received,
                t as int,
                *input,
                *graph,
            )),
            old(self).phase matches Phase::PlanForReceive { t, tasks } ==> (reply matches Reply::Order(order) && cmd is Nothing
                && ordered_receive(old(self).state, old(self).queue.items@, *final(self), tasks@, order@, t as int, *input)),
            old(self).phase matches Phase::PlanForComplete { t, core_id, tasks } ==> (reply matches Reply::Order(order)
                && cmd is Nothing && ordered_complete(
                old(self).state,
                old(self).queue.items@,
                *final(self),
                core_id,
                tasks@,
                order@,
                t as int,
                *input,
                *graph,
            )),
            old(self).phase is Idle ==> (cmd matches Command::Execute { core_id, .. } ==> runs_task(
                old(self).state,
                final(self).state,
                cmd,
                core_id,
                final(self).now@,
                *input,
                *graph,
            )),
            old(self).phase matches Phase::Querying { t, core_id, packet_id } ==> (reply matches Reply::Works(works)
                && final(self).state.packet_special_cost@ == old(self).state.packet_special_cost@.update(
                packet_id as int,
                Some(works_cost(works@, graph.special_costs@, N_SPECIAL as int) as i64),
            ) && (cmd is Execute ==> runs_task(
                (State { packet_special_cost: final(self).state.packet_special_cost, ..old(self).state }),
                final(self).state,
                cmd,
                core_id,
                t as int,
                *input,
                *graph,
            ))),
            !(old(self).phase is Receiving) ==> held_after_event(old(self).state, final(self).state, input.n_cores as int, *graph),
            leaves_done(
                held_ids(old(self).state, input.n_cores as int),
                held_ids(final(self).state, input.n_cores as int),
                old(self).calls@,
                old(self).state.packets@,
                *graph,
            ),
            old(self).phase is Receiving ==> (reply matches Reply::Packets(received) && held_ids(final(self).state, input.n_cores as int)
                == match received {
                Some(v) => held_ids(old(self).state, input.n_cores as int).union(ids_of(v@)),
                None => held_ids(old(self).state, input.n_cores as int),
            }),
            no_stranded(*old(self), input.n_cores as int) && full_order(old(self).phase, reply) ==> no_stranded(
                *final(self),
                input.n_cores as int,
            ),
            old(self).phase is Idle && old(self).queue.items@.len() == 0 ==> cmd is Finish && final(self).phase is Finished
                && forall|c: int| 0 <= c < input.n_cores ==> #[trigger] old(self).state.next_tasks@[c] is None,
            old(self).phase is Idle && old(self).queue.items@.len() > 0 ==> exists|p: int|
                0 <= p < old(self).queue.items@.len() && final(self).now@ == old(self).queue.items@[p].0 && (forall|k: int|
                    0 <= k < old(self).queue.items@.len() ==> !crate::greedy::handled_before(
                        #[trigger] old(self).queue.items@[k],
                        old(self).queue.items@[p],
                    )) && handles_event(old(self).queue.items@[p], cmd, old(self).state, final(self).state.next_tasks@, *graph),
    {
        proof {
            if old(self).phase is Idle && old(self).queue.items@.len() == 0 {
                assert forall|c: int| 0 <= c < input.n_cores implies #[trigger] old(self).state.next_tasks@[c] is None by {
                    assert(count_event(old(self).queue.items@, Event::ResumeCore(c as usize)) == 0);
                }
            }
        }
        let mut phase = Phase::Idle;
        core::mem::swap(&mut phase, &mut self.phase);
        match phase {
            Phase::Idle => self.next_event(input, graph),
            Phase::Finished => {
                self.phase = Phase::Finished;
                Command::Finish
            },
            Phase::Receiving { t } => {
                match reply {
                    Reply::Packets(received) => {
                        let ghost rv = received;
                        let cmd = self.receive(t, received, input, graph);
                        proof {
                            if let Some(v) = rv {
                                lemma_held_register(old(self).state, self.state, input.n_cores as int, v@);
                            }
                        }
                        cmd
                    },
                    _ => {
                        proof {
                            assert(false);
                        }
                        Command::Nothing
                    },
                }
            },
            Phase::PlanForReceive { t, tasks } => {
                match reply {
                    Reply::Order(order) => {
                        let ghost tasks0 = tasks@;
                        let ghost order0 = order@;
                        self.receive_with_order(t, tasks, order, input, graph);
                        proof {
                            if no_stranded(*old(self), input.n_cores as int) && full_order(old(self).phase, reply) {
                                lemma_ordered_receive_serves(
                                    old(self).state,
                                    self.state,
                                    input.n_cores as int,
                                    tasks0,
                                    order0,
                                );
                            }
                        }
                        Command::Nothing
                    },
                    _ => {
                        proof {
                            assert(false);
                        }
                        Command::Nothing
                    },
                }
            },
            Phase::PlanForComplete { t, core_id, tasks } => {
                match reply {
                    Reply::Order(order) => {
                        let ghost s0 = self.state;
                        let ghost q0 = self.queue.items@;
                        self.complete_with_order(core_id, t, tasks, order, input, graph);
                        proof {
                            if no_stranded(*old(self), input.n_cores as int) && full_order(old(self).phase, reply)
                                && self.state.await_packets.que@.len() > 0 {
                                let id = self.state.await_packets.que@[0];
                                assert(self.state.await_packets.members().contains(id));
                                assert(s0.await_packets.members().contains(id));
                                assert(s0.await_packets.que@.len() > 0);
                                lemma_count_push(q0, self.queue.items@.last(), Event::ReceivePacket);
                            }
                        }
                        Command::Nothing
                    },
                    _ => {
                        proof {
                            assert(false);
                        }
                        Command::Nothing
                    },
                }
            },
            Phase::Querying { t, core_id, packet_id } => {
                match reply {
                    Reply::Works(works) => self.record_works(core_id, packet_id, t, &works, input, graph),
                    _ => {
                        proof {
                            assert(false);
                        }
                        Command::Nothing
                    },
                }
            },
        }
    }

    /// Whether `reply` answers the last command, as `step` needs.
    pub fn accepts(&self, reply: &Reply) -> (r: bool)
        ensures
            r == self.fits(*reply),
    {
        match &self.phase {
            Phase::Receiving { .. } => match reply {
                Reply::Packets(None) => true,
                Reply::Packets(Some(v)) => packets_ok(v, self.n) && packets_fresh(v, &self.state.packets),
                _ => false,
            },
            Phase::PlanForReceive { tasks, .. } => match reply {
                Reply::Order(o) => order_distinct(o, tasks.len()),
                _ => false,
            },
            Phase::PlanForComplete { tasks, .. } => match reply {
                Reply::Order(o) => order_distinct(o, tasks.len()),
                _ => false,
            },
            Phase::Querying { .. } => match reply {
                Reply::Works(_) => true,
                _ => false,
            },
            _ => match reply {
                Reply::Ready => true,
                _ => false,
            },
        }
    }

    /// Whether the run may take another step: its horizon leaves room for it.
    pub fn within_time_cap(&self) -> (r: bool)
        ensures
            r == (self.horizon <= RUN_TIME_CAP),
    {
        self.horizon <= RUN_TIME_CAP
    }
}

impl crate::greedy::GreedySolver {
    /// A run of the scheduler for a subtask of `n` packets: nothing received,
    /// every core idle, the first receive at time 1.
    pub fn start(&self, n: usize, input: &Input, graph: &Graph) -> (run: GreedyRun)
        requires
            input.wf(),
            graph_fits(*graph),
            n <= MAX_PACKETS,
        ensures
            run.inv(*input, *graph),
            run.n == n,
            run.phase is Idle,
            no_stranded(run, input.n_cores as int),
            held_ids(run.state, input.n_cores as int) == Set::<usize>::empty(),
            run.tracker.enabled == self.tracker_enabled,
            run.queue.items@ == seq![(1i64, Event::ReceivePacket)],
            run.now@ == 0,
            run.busy_until@ == Seq::new(input.n_cores as nat, |c: int| 0int),
            run.packet_free@ == Seq::new(n as nat, |i: int| -MAX_TIME as int),
            run.calls@ == Seq::new(n as nat, |i: int| 0int),
    {
        let state = State::new(n, input);
        let calculator = DurationCalculator::new(input, graph);
        let tracker = Tracker::new(n, self.tracker_enabled);
        let mut queue = EventQueue::new();
        queue.push((1, Event::ReceivePacket));
        let run = GreedyRun { n, state, queue, tracker, calculator, phase: Phase::Idle, horizon: 1, now: Ghost(0), busy_until: Ghost(Seq::new(input.n_cores as nat, |c: int| 0int)), packet_free: Ghost(Seq::new(n as nat, |i: int| -MAX_TIME as int)), calls: Ghost(Seq::new(n as nat, |i: int| 0int)) };
        proof {
            assert(run.queue.items@ =~= seq![(1i64, Event::ReceivePacket)]);
            assert forall|c: int|
                0 <= c < input.n_cores implies #[trigger] count_event(run.queue.items@, Event::ResumeCore(c as usize))
                    == 0 by {
                assert(run.queue.items@.drop_last() =~= Seq::<(i64, Event)>::empty());
                assert(count_event(Seq::<(i64, Event)>::empty(), Event::ResumeCore(c as usize)) == 0);
            }
            assert(forall|i: int| 0 <= i < n ==> special_cost_ok(#[trigger] run.state.packet_special_cost@[i]));
        }
        run
    }
}

} // verus!
