//! The greedy scheduler: its tasks and state, how it batches waiting packets
//! into tasks, runs tasks node by node, and hands work between cores.
use vstd::prelude::*;

use crate::calculator::count_unadvanced;
use crate::libb::IndexSet;
use crate::types::{Duration, Graph, Input, Packet, PacketStatus, MAX_COST, MAX_PACKETS, MAX_T, MAX_TIME, N_PACKET_TYPE, N_SPECIAL};

verus! {

/// A batch of packets of one type that a core carries along their path together.
#[derive(Clone, Debug)]
pub struct Task {
    pub next_t: i64,
    pub packet_type: usize,
    pub path_index: usize,
    pub is_chunked: bool,
    pub last_chunk_min_i: Option<usize>,
    pub packets: Vec<PacketStatus>,
}

#[derive(Clone, Debug)]
pub struct State {
    pub packets: Vec<Option<Packet>>,
    pub packet_special_cost: Vec<Option<i64>>,
    /// next_tasks[core_id] := the task that core_id runs next
    pub next_tasks: Vec<Option<Task>>,
    /// idle_tasks[core_id] := a task set aside on core_id, to resume later
    pub idle_tasks: Vec<Option<Task>>,
    pub await_packets: IndexSet,
    pub received_packets: IndexSet,
    pub last_received_t: i64,
}

/// A known special cost: the cost of a subset of the special works.
pub open spec fn special_cost_ok(c: Option<i64>) -> bool {
    c matches Some(v) ==> 0 <= v <= N_SPECIAL * MAX_COST
}

impl Task {
    /// The task can be measured against `graph`: its type and position lie on
    /// the graph, and its packets are among the `n` of the subtask.
    pub open spec fn shape_ok(&self, graph: Graph, n: nat) -> bool {
        &&& self.packet_type < N_PACKET_TYPE
        &&& self.path_index <= graph.path_len(self.packet_type as int)
        &&& self.packets@.len() <= MAX_PACKETS
        &&& forall|k: int| 0 <= k < self.packets@.len() ==> #[trigger] self.packets@[k].id < n
    }
}

/// A deadline that is never reached: beyond every time the schedulers handle (`MAX_TIME`).
pub const INF: i64 = 2_000_000_000_000_000_000;

/// Largest batch the scheduler forms for each packet type, while packets still arrive.
pub const MAX_BATCH_SIZE: [usize; 7] = [24, 16, 16, 16, 16, 16, 24];

/// Smallest batch the scheduler splits off.
pub const MIN_BATCH_SIZE: usize = 2;

/// A task at the special node that waits for other cores runs in this many chunks.
pub const SPECIAL_NODE_CHUNK: usize = 4;

pub const PERMUTE_TASK_THRESHOLD: usize = 6;

/// How many candidate tasks a core that finished its task chooses from.
pub const COMPLETE_TASK_TOP_K: usize = 6;

/// How many candidate tasks the idle cores choose from when packets arrive.
pub const RECEIVE_TASK_TOP_K: usize = 10;

/// Most packets a task can hold.
pub const MAX_TASK_PACKETS: usize = 48;

/// Receive packets at least this often while they keep arriving.
pub const MIN_AWAIT_INTERVAL: i64 = 40;

/// Packets count as still arriving for this long after the last ones came.
pub const LAST_RECEIVED_T_THRESHOLD: i64 = 100_000;

pub open spec fn spec_max_batch_size(packet_type: int) -> int {
    if packet_type == 0 || packet_type == 6 {
        24
    } else {
        16
    }
}

/// `ceil(a / b)`.
pub open spec fn div_ceil(a: int, b: int) -> int {
    a / b + (if a % b != 0 {
        1int
    } else {
        0int
    })
}

/// The batch size that cuts `packet_count` packets into as few batches of at
/// most `base` as can hold them, of near-equal sizes: `ceil(count / base)`
/// batches of `ceil(count / batches)` packets.
pub open spec fn desired_batch_size(packet_count: int, base: int) -> int {
    let batch_count = div_ceil(packet_count, base);
    div_ceil(packet_count, if batch_count < 1 {
        1
    } else {
        batch_count
    })
}

pub fn get_base_max_batch_size(packet_type: usize, _input: &Input, _await_packet_size: usize) -> (r:
    usize)
    requires
        packet_type < N_PACKET_TYPE,
    ensures
        r == spec_max_batch_size(packet_type as int),
{
    let sizes = MAX_BATCH_SIZE;
    sizes[packet_type]
}

pub fn get_desired_batch_size(packet_count: usize, base_max_batch_size: usize) -> (r: usize)
    requires
        base_max_batch_size >= 1,
    ensures
        r == desired_batch_size(packet_count as int, base_max_batch_size as int),
        r <= packet_count,
        packet_count >= 1 ==> r >= 1,
        r <= base_max_batch_size,
{
    let c = packet_count;
    let b = base_max_batch_size;
    proof {
        if c % b != 0 {
            assert(c / b <= c / 2) by (nonlinear_arith)
                requires
                    b >= 2,
            ;
        }
    }
    let batch_count = c / b + if c % b != 0 {
        1
    } else {
        0
    };
    let d = if batch_count < 1 {
        1
    } else {
        batch_count
    };
    proof {
        if c % d != 0 {
            assert(c / d <= c / 2) by (nonlinear_arith)
                requires
                    d >= 2,
            ;
        }
    }
    let r = c / d + if c % d != 0 {
        1
    } else {
        0
    };
    proof {
        assert(c == b * (c / b) + c % b) by (nonlinear_arith)
            requires
                b >= 1,
        ;
        assert(c == d * (c / d) + c % d) by (nonlinear_arith)
            requires
                d >= 1,
        ;
        assert(c <= b * d) by (nonlinear_arith)
            requires
                c == b * (c / b) + c % b,
                0 <= c % b < b,
                d >= 1,
                d >= (c / b) + (if c % b != 0 { 1int } else { 0int }),
                b >= 1,
        ;
        assert(r <= b) by (nonlinear_arith)
            requires
                c <= b * d,
                c == d * (c / d) + c % d,
                0 <= c % d < d,
                r == c / d + (if c % d != 0 { 1int } else { 0int }),
                d >= 1,
        ;
        assert(r <= c) by (nonlinear_arith)
            requires
                c == d * (c / d) + c % d,
                0 <= c % d < d,
                r == c / d + (if c % d != 0 { 1int } else { 0int }),
                d >= 1,
                c >= 0,
        ;
        if c >= 1 {
            assert(r >= 1) by (nonlinear_arith)
                requires
                    c == d * (c / d) + c % d,
                    0 <= c % d < d,
                    r == c / d + (if c % d != 0 { 1int } else { 0int }),
                    d >= 1,
                    c >= 1,
            ;
        }
    }
    r
}

/// How many packets of a task go through the special node at once when it is chunked.
pub fn get_special_node_chunk_size(cur_task: &Task) -> (r: usize)
    ensures
        r == (if div_ceil(cur_task.packets@.len() as int, SPECIAL_NODE_CHUNK as int) < 1 {
            1
        } else {
            div_ceil(cur_task.packets@.len() as int, SPECIAL_NODE_CHUNK as int)
        }),
        r >= 1,
        cur_task.packets@.len() >= 1 ==> r <= cur_task.packets@.len(),
{
    let len = cur_task.packets.len();
    let c = len / SPECIAL_NODE_CHUNK + if len % SPECIAL_NODE_CHUNK != 0 {
        1
    } else {
        0
    };
    if c < 1 {
        1
    } else {
        c
    }
}

/// When to receive packets next after `cur_t`: every receive cost while
/// packets keep arriving, else at least `MIN_AWAIT_INTERVAL` later.
pub fn get_receive_dt(cur_t: i64, state: &State, input: &Input) -> (r: i64)
    requires
        state.last_received_t <= MAX_TIME,
    ensures
        r == (if cur_t <= state.last_received_t + LAST_RECEIVED_T_THRESHOLD
            && state.received_packets.que@.len() > 0 {
            input.cost_r
        } else if MIN_AWAIT_INTERVAL >= input.cost_r {
            MIN_AWAIT_INTERVAL
        } else {
            input.cost_r
        }),
{
    let is_receiving = cur_t <= state.last_received_t + LAST_RECEIVED_T_THRESHOLD
        && state.received_packets.size() > 0;
    if is_receiving {
        input.cost_r
    } else if MIN_AWAIT_INTERVAL >= input.cost_r {
        MIN_AWAIT_INTERVAL
    } else {
        input.cost_r
    }
}

impl State {
    pub fn new(n: usize, input: &Input) -> (s: Self)
        requires
            n < crate::libb::ABSENT,
        ensures
            s.packets@ == Seq::new(n as nat, |i: int| None::<Packet>),
            s.packet_special_cost@ == Seq::new(n as nat, |i: int| None::<i64>),
            s.next_tasks@ == Seq::new(input.n_cores as nat, |i: int| None::<Task>),
            s.idle_tasks@ == Seq::new(input.n_cores as nat, |i: int| None::<Task>),
            s.await_packets.wf(),
            s.await_packets.capacity() == n,
            s.await_packets.que@ == Seq::<usize>::empty(),
            s.received_packets.wf(),
            s.received_packets.capacity() == n,
            s.received_packets.que@ == Seq::<usize>::empty(),
            s.last_received_t == 0,
    {
        let mut packets: Vec<Option<Packet>> = Vec::new();
        let mut packet_special_cost: Vec<Option<i64>> = Vec::new();
        let mut i: usize = 0;
        while i < n
            invariant
                i <= n,
                packets@ == Seq::new(i as nat, |j: int| None::<Packet>),
                packet_special_cost@ == Seq::new(i as nat, |j: int| None::<i64>),
            decreases n - i,
        {
            packets.push(None);
            packet_special_cost.push(None);
            i = i + 1;
        }
        let mut next_tasks: Vec<Option<Task>> = Vec::new();
        let mut idle_tasks: Vec<Option<Task>> = Vec::new();
        let mut c: usize = 0;
        while c < input.n_cores
            invariant
                c <= input.n_cores,
                next_tasks@ == Seq::new(c as nat, |j: int| None::<Task>),
                idle_tasks@ == Seq::new(c as nat, |j: int| None::<Task>),
            decreases input.n_cores - c,
        {
            next_tasks.push(None);
            idle_tasks.push(None);
            c = c + 1;
        }
        Self {
            packets,
            packet_special_cost,
            next_tasks,
            idle_tasks,
            await_packets: IndexSet::empty(n),
            received_packets: IndexSet::empty(n),
            last_received_t: 0,
        }
    }

    pub fn is_received_all(&self) -> (r: bool)
        ensures
            r == (self.received_packets.que@.len() == self.packets@.len()),
    {
        self.received_packets.size() == self.packets.len()
    }
}

/// What the scheduler waits for: the next receive, or a core to go on.
#[derive(Clone, Debug, Copy, PartialEq, Eq, Structural)]
pub enum Event {
    ReceivePacket,
    ResumeCore(usize),
}

/// The order in which events at the same time are handled: cores with higher
/// ids first, the receive last.
pub open spec fn event_rank(e: Event) -> int {
    match e {
        Event::ReceivePacket => 0,
        Event::ResumeCore(c) => c + 1,
    }
}

/// Whether `a` is handled before `b`: it is earlier, or as early with a higher rank.
pub open spec fn handled_before(a: (i64, Event), b: (i64, Event)) -> bool {
    a.0 < b.0 || (a.0 == b.0 && event_rank(a.1) > event_rank(b.1))
}

/// How many items of `s` are the event `e`, at any time.
pub open spec fn count_event(s: Seq<(i64, Event)>, e: Event) -> int
    decreases s.len(),
{
    if s.len() == 0 {
        0
    } else {
        count_event(s.drop_last(), e) + (if s.last().1 == e {
            1int
        } else {
            0int
        })
    }
}

proof fn lemma_count_event_concat(a: Seq<(i64, Event)>, b: Seq<(i64, Event)>, e: Event)
    ensures
        count_event(a + b, e) == count_event(a, e) + count_event(b, e),
    decreases b.len(),
{
    if b.len() == 0 {
        assert(a + b == a);
    } else {
        lemma_count_event_concat(a, b.drop_last(), e);
        assert((a + b).drop_last() == a + b.drop_last());
        assert((a + b).last() == b.last());
    }
}

pub proof fn lemma_count_event_remove(s: Seq<(i64, Event)>, p: int, e: Event)
    requires
        0 <= p < s.len(),
    ensures
        count_event(s.remove(p), e) == count_event(s, e) - (if s[p].1 == e {
            1int
        } else {
            0int
        }),
{
    let a = s.take(p);
    let m = s.subrange(p, p + 1);
    let b = s.skip(p + 1);
    assert(s == a + m + b);
    assert(s.remove(p) == a + b);
    lemma_count_event_concat(a + m, b, e);
    lemma_count_event_concat(a, m, e);
    lemma_count_event_concat(a, b, e);
    assert(m.drop_last() == Seq::<(i64, Event)>::empty());
    assert(count_event(Seq::<(i64, Event)>::empty(), e) == 0);
    assert(m.last() == s[p]);
    assert(count_event(m, e) == (if s[p].1 == e {
        1int
    } else {
        0int
    }));
}

pub proof fn lemma_count_event_nonneg(s: Seq<(i64, Event)>, e: Event)
    ensures
        count_event(s, e) >= 0,
        count_event(s, e) > 0 ==> exists|k: int| 0 <= k < s.len() && #[trigger] s[k].1 == e,
    decreases s.len(),
{
    if s.len() > 0 {
        lemma_count_event_nonneg(s.drop_last(), e);
        if count_event(s.drop_last(), e) > 0 {
            let k = choose|k: int| 0 <= k < s.drop_last().len() && #[trigger] s.drop_last()[k].1 == e;
            assert(s[k] == s.drop_last()[k]);
        } else if count_event(s, e) > 0 {
            assert(s[s.len() - 1].1 == e);
        }
    }
}

/// The pending events.
#[derive(Clone, Debug)]
pub struct EventQueue {
    pub items: Vec<(i64, Event)>,
}

impl EventQueue {
    pub fn new() -> (q: Self)
        ensures
            q.items@ == Seq::<(i64, Event)>::empty(),
    {
        EventQueue { items: Vec::new() }
    }

    pub fn push(&mut self, item: (i64, Event))
        ensures
            final(self).items@ == old(self).items@.push(item),
    {
        self.items.push(item);
    }

    /// Takes out the event handled first: the earliest, and among the
    /// earliest the one of highest rank.
    pub fn pop(&mut self) -> (r: Option<(i64, Event)>)
        ensures
            old(self).items@.len() == 0 ==> r is None && final(self).items@ == old(self).items@,
            old(self).items@.len() > 0 ==> (r matches Some(x) && exists|p: int|
                0 <= p < old(self).items@.len() && old(self).items@[p] == x && final(self).items@
                    == old(self).items@.remove(p)),
            r matches Some(x) ==> forall|k: int|
                0 <= k < old(self).items@.len() ==> !handled_before(
                    #[trigger] old(self).items@[k],
                    x,
                ),
    {
        if self.items.len() == 0 {
            return None;
        }
        let mut best: usize = 0;
        let mut k: usize = 1;
        while k < self.items.len()
            invariant
                1 <= k <= self.items@.len(),
                best < k,
                forall|j: int| 0 <= j < k ==> !handled_before(#[trigger] self.items@[j], self.items@[best as int]),
            decreases self.items@.len() - k,
        {
            let (t, e) = self.items[k];
            let (bt, be) = self.items[best];
            let earlier = t < bt || (t == bt && match (e, be) {
                (Event::ResumeCore(c), Event::ResumeCore(bc)) => c > bc,
                (Event::ResumeCore(_), Event::ReceivePacket) => true,
                _ => false,
            });
            if earlier {
                best = k;
            }
            k = k + 1;
        }
        let item = self.items.remove(best);
        Some(item)
    }
}

/// A candidate task as the order optimizer sees it: its packets' deadlines,
/// its duration and when it can start.
#[derive(Clone, Debug)]
pub struct Batch {
    pub time_limits: Vec<i64>,
    pub duration: Duration,
    pub next_t: i64,
}

pub struct GreedySolver {
    pub tracker_enabled: bool,
}

impl GreedySolver {
    pub fn new(tracker_enabled: bool) -> (s: Self)
        ensures
            s.tracker_enabled == tracker_enabled,
    {
        Self { tracker_enabled }
    }
}

/// The packets of `ps` among the first `k` that `sel` picks, in order.
pub open spec fn picked(ps: Seq<PacketStatus>, sel: spec_fn(int) -> bool, k: int) -> Seq<PacketStatus>
    decreases k,
{
    if k <= 0 {
        Seq::empty()
    } else {
        picked(ps, sel, k - 1) + (if sel(k - 1) {
            seq![ps[k - 1]]
        } else {
            Seq::empty()
        })
    }
}

/// The packets of `ps` among the first `k` that `sel` leaves, in order.
pub open spec fn unpicked(ps: Seq<PacketStatus>, sel: spec_fn(int) -> bool, k: int) -> Seq<
    PacketStatus,
>
    decreases k,
{
    if k <= 0 {
        Seq::empty()
    } else {
        unpicked(ps, sel, k - 1) + (if !sel(k - 1) {
            seq![ps[k - 1]]
        } else {
            Seq::empty()
        })
    }
}

pub proof fn lemma_picked_len(ps: Seq<PacketStatus>, sel: spec_fn(int) -> bool, k: int)
    requires
        0 <= k,
    ensures
        picked(ps, sel, k).len() + unpicked(ps, sel, k).len() == k,
    decreases k,
{
    if k > 0 {
        lemma_picked_len(ps, sel, k - 1);
    }
}

proof fn lemma_picked_stable(ps: Seq<PacketStatus>, sel: spec_fn(int) -> bool, i: int, k: int)
    requires
        0 <= i <= k,
        forall|j: int| i <= j < k ==> !#[trigger] sel(j),
    ensures
        picked(ps, sel, k) == picked(ps, sel, i),
    decreases k - i,
{
    if k > i {
        lemma_picked_stable(ps, sel, i, k - 1);
        assert(picked(ps, sel, k) == picked(ps, sel, k - 1) + Seq::<PacketStatus>::empty());
    }
}

proof fn lemma_picked_prefix(ps: Seq<PacketStatus>, q: int, k: int)
    requires
        0 <= k <= ps.len(),
        0 <= q,
    ensures
        picked(ps, |j: int| j < q, k) == ps.take(if k < q {
            k
        } else {
            q
        }),
    decreases k,
{
    if k > 0 {
        lemma_picked_prefix(ps, q, k - 1);
        if k - 1 < q {
            assert(ps.take(k - 1) + seq![ps[k - 1]] == ps.take(k));
        } else {
            assert(picked(ps, |j: int| j < q, k) == picked(ps, |j: int| j < q, k - 1)
                + Seq::<PacketStatus>::empty());
        }
    }
}

/// How many packets not yet through the current node the second half of a
/// chunked task gets: their share of the half, in proportion, rounded down.
pub open spec fn second_unadvanced(task: Task) -> int {
    let n = task.packets@.len() as int;
    count_unadvanced(task.packets@) * (n / 2) / n
}

/// Which packets of `task` a split moves to the second task before the
/// others are shared out: the packets already through the current node when
/// they fill half the task; else, in a chunked task, half a task of packets,
/// those not yet through the node in proportion to their number, the first
/// of each kind; else those already through it.
pub open spec fn split_selects(task: Task) -> spec_fn(int) -> bool {
    let ps = task.packets@;
    let mid = ps.len() / 2;
    |i: int|
        if task.last_chunk_min_i matches Some(m) && m >= mid {
            i < mid
        } else if task.is_chunked {
            if ps[i].is_advanced {
                i - count_unadvanced(ps.take(i)) < mid - second_unadvanced(task)
            } else {
                count_unadvanced(ps.take(i)) < second_unadvanced(task)
            }
        } else if task.last_chunk_min_i is Some {
            i < task.last_chunk_min_i->0
        } else {
            false
        }
}

/// Whether those packets fill half the task.
pub open spec fn split_full(task: Task) -> bool {
    let ps = task.packets@;
    let mid = ps.len() / 2;
    picked(ps, split_selects(task), ps.len() as int).len() >= mid
}

/// Whether the second task can start at once: its packets fill half the
/// task, and none of them may be in the call the core runs now (one through
/// the current node is so only before the last chunk).
pub open spec fn split_ready(task: Task) -> bool {
    let ps = task.packets@;
    &&& split_full(task)
    &&& forall|j: int|
        0 <= j < ps.len() && #[trigger] (split_selects(task))(j) && ps[j].is_advanced ==> (task.last_chunk_min_i matches Some(
            m,
        ) && j < m)
}

/// The packets of the first task of a split.
pub open spec fn split_first(task: Task) -> Seq<PacketStatus> {
    let ps = task.packets@;
    let mid = ps.len() / 2;
    let rest = unpicked(ps, split_selects(task), ps.len() as int);
    if split_full(task) {
        rest
    } else {
        rest.take(mid as int)
    }
}

/// The packets of the second task of a split.
pub open spec fn split_second(task: Task) -> Seq<PacketStatus> {
    let ps = task.packets@;
    let mid = ps.len() / 2;
    let first = picked(ps, split_selects(task), ps.len() as int);
    let rest = unpicked(ps, split_selects(task), ps.len() as int);
    if split_full(task) {
        first
    } else {
        first + rest.skip(mid as int)
    }
}

pub open spec fn any_unadvanced(ps: Seq<PacketStatus>) -> bool {
    exists|k: int| 0 <= k < ps.len() && !(#[trigger] ps[k]).is_advanced
}

pub open spec fn any_advanced(ps: Seq<PacketStatus>) -> bool {
    exists|k: int| 0 <= k < ps.len() && (#[trigger] ps[k]).is_advanced
}

pub open spec fn clear_advanced(ps: Seq<PacketStatus>) -> Seq<PacketStatus> {
    ps.map_values(|p: PacketStatus| PacketStatus { is_advanced: false, ..p })
}

/// Whether a task made of the packets `ps` of `parent` moves on to the next
/// node: `parent` was chunked and all of `ps` went through the current one.
pub open spec fn split_moves_on(parent: Task, ps: Seq<PacketStatus>) -> bool {
    parent.is_chunked && !any_unadvanced(ps)
}

/// The packets of such a task: cleared of their progress when it moves on.
pub open spec fn built_packets(parent: Task, ps: Seq<PacketStatus>) -> Seq<PacketStatus> {
    if split_moves_on(parent, ps) {
        clear_advanced(ps)
    } else {
        ps
    }
}

/// The position of such a task on its path.
pub open spec fn built_path_index(parent: Task, ps: Seq<PacketStatus>) -> int {
    if split_moves_on(parent, ps) {
        parent.path_index + 1
    } else {
        parent.path_index as int
    }
}

/// Such a task is chunked when some but not all of its packets went through the current node.
pub open spec fn built_chunked(ps: Seq<PacketStatus>) -> bool {
    any_advanced(ps) && any_unadvanced(ps)
}

fn build_task_from_split(parent: &Task, packets: Vec<PacketStatus>, next_t: i64) -> (t: Task)
    requires
        parent.path_index < usize::MAX,
    ensures
        t.next_t == next_t,
        t.packet_type == parent.packet_type,
        t.path_index == built_path_index(*parent, packets@),
        t.is_chunked == built_chunked(packets@),
        t.last_chunk_min_i == None::<usize>,
        t.packets@ == built_packets(*parent, packets@),
{
    let mut packets = packets;
    let mut has_non_advanced = false;
    let mut has_advanced = false;
    let mut k: usize = 0;
    while k < packets.len()
        invariant
            k <= packets@.len(),
            has_non_advanced == exists|j: int| 0 <= j < k && !(#[trigger] packets@[j]).is_advanced,
            has_advanced == exists|j: int| 0 <= j < k && (#[trigger] packets@[j]).is_advanced,
        decreases packets@.len() - k,
    {
        if packets[k].is_advanced {
            has_advanced = true;
        } else {
            has_non_advanced = true;
        }
        k = k + 1;
    }
    let all_advanced = !has_non_advanced;
    let is_chunked = has_advanced && has_non_advanced;
    let ghost ps = packets@;
    let path_index = if parent.is_chunked && all_advanced {
        let mut k: usize = 0;
        while k < packets.len()
            invariant
                k <= packets@.len(),
                packets@.len() == ps.len(),
                forall|j: int| 0 <= j < k ==> #[trigger] packets@[j] == (PacketStatus { is_advanced: false, ..ps[j] }),
                forall|j: int| k <= j < ps.len() ==> #[trigger] packets@[j] == ps[j],
            decreases packets@.len() - k,
        {
            let p = packets[k];
            packets[k] = PacketStatus { is_advanced: false, ..p };
            k = k + 1;
        }
        assert(packets@ == clear_advanced(ps));
        parent.path_index + 1
    } else {
        parent.path_index
    };
    Task {
        next_t,
        packet_type: parent.packet_type,
        path_index,
        is_chunked,
        packets,
        last_chunk_min_i: None,
    }
}

/// Splits a task of two or more packets in two halves, for an idle core to
/// take the second. Packets already through the current node before its last
/// chunk go to the second task first; in a chunked task the packets not yet
/// through the node are shared between the halves in proportion to their
/// size. The second task starts at `cur_t` when it is full and holds none of
/// the packets the core may be running.
#[verifier::rlimit(60)]
#[verifier::spinoff_prover]
pub fn split_task(cur_t: i64, task: &Task) -> (r: Option<(Task, Task)>)
    requires
        task.path_index < usize::MAX,
    ensures
        task.packets@.len() < 2 <==> r is None,
        r matches Some((t1, t2)) ==> {
            &&& t1.packets@ == built_packets(*task, split_first(*task))
            &&& t2.packets@ == built_packets(*task, split_second(*task))
            &&& t1.next_t == task.next_t
            &&& t2.next_t == (if split_ready(*task) {
                cur_t
            } else {
                task.next_t
            })
            &&& t1.packet_type == task.packet_type && t2.packet_type == task.packet_type
            &&& t1.path_index == built_path_index(*task, split_first(*task))
            &&& t2.path_index == built_path_index(*task, split_second(*task))
            &&& t1.is_chunked == built_chunked(split_first(*task))
            &&& t2.is_chunked == built_chunked(split_second(*task))
            &&& t1.last_chunk_min_i is None && t2.last_chunk_min_i is None
            &&& t1.packets@.len() + t2.packets@.len() == task.packets@.len()
            &&& t1.packets@.len() >= 1 && t2.packets@.len() >= 1
        },
        task.packets@.len() >= 2 && task.is_chunked && !(task.last_chunk_min_i matches Some(m) && m
            >= task.packets@.len() / 2) ==> {
            &&& split_second(*task).len() == task.packets@.len() / 2
            &&& count_unadvanced(split_second(*task)) == second_unadvanced(*task)
            &&& count_unadvanced(split_first(*task)) == count_unadvanced(task.packets@) - second_unadvanced(*task)
        },
{
    if task.packets.len() < 2 {
        return None;
    }
    let ghost ps = task.packets@;
    let ghost sel = split_selects(*task);
    let len = task.packets.len();
    let mid = len / 2;
    let mut used: Vec<bool> = Vec::new();
    let mut k: usize = 0;
    while k < len
        invariant
            k <= len,
            used@.len() == k,
            forall|j: int| 0 <= j < k ==> !(#[trigger] used@[j]),
        decreases len - k,
    {
        used.push(false);
        k = k + 1;
    }
    let mut packets1: Vec<PacketStatus> = Vec::with_capacity(mid + 1);
    let mut packets2: Vec<PacketStatus> = Vec::with_capacity(mid + 1);
    let mut prefix_len: usize = 0;
    if let Some(min_i) = task.last_chunk_min_i {
        let mut i: usize = 0;
        while i < min_i
            invariant
                len == ps.len(),
                ps == task.packets@,
                mid == len / 2,
                i <= min_i,
                i <= mid,
                packets2@ == ps.take(i as int),
                used@.len() == len,
                forall|j: int| 0 <= j < len ==> #[trigger] used@[j] == (j < i),
            ensures
                i == min_i || i == mid,
                i <= min_i,
                i <= mid,
                packets2@ == ps.take(i as int),
                used@.len() == len,
                forall|j: int| 0 <= j < len ==> #[trigger] used@[j] == (j < i),
            decreases min_i - i,
        {
            if packets2.len() >= mid {
                break;
            }
            packets2.push(task.packets[i]);
            used.set(i, true);
            i = i + 1;
        }
        prefix_len = i;
    }
    proof {
        assert(prefix_len <= mid);
        assert(packets2@ == ps.take(prefix_len as int));
        assert(forall|j: int| 0 <= j < len ==> #[trigger] used@[j] == (j < prefix_len));
        if let Some(m) = task.last_chunk_min_i {
            assert(prefix_len == if m < mid { m } else { mid });
        }
    }
    if task.is_chunked && packets2.len() < mid {
        let mut k: usize = 0;
        while k < len
            invariant
                k <= len,
                used@.len() == len,
                forall|j: int| 0 <= j < k ==> !(#[trigger] used@[j]),
            decreases len - k,
        {
            used.set(k, false);
            k = k + 1;
        }
        packets2.clear();
        let mut a: usize = 0;
        let mut k: usize = 0;
        while k < len
            invariant
                len == ps.len(),
                ps == task.packets@,
                k <= len,
                a == count_unadvanced(ps.take(k as int)),
                a <= k,
            decreases len - k,
        {
            proof {
                assert(ps.take(k + 1).drop_last() == ps.take(k as int));
            }
            if !task.packets[k].is_advanced {
                a = a + 1;
            }
            k = k + 1;
        }
        proof {
            assert(ps.take(len as int) == ps);
            assert((a as int) * (mid as int) <= (a as int) * (len as int)) by (nonlinear_arith)
                requires
                    mid <= len,
            ;
            assert((a as int) * (mid as int) <= u64::MAX * u64::MAX) by (nonlinear_arith)
                requires
                    a <= u64::MAX,
                    mid <= u64::MAX,
            ;
        }
        let a2: usize = ((a as u128) * (mid as u128) / (len as u128)) as usize;
        proof {
            lemma_share_bounds(a as int, mid as int, len as int);
            assert(a2 == second_unadvanced(*task));
        }
        let b2: usize = mid - a2;
        let mut c: usize = 0;
        let mut d: usize = 0;
        let mut i: usize = 0;
        while i < len
            invariant
                len == ps.len(),
                ps == task.packets@,
                mid == len / 2,
                i <= len,
                task.is_chunked,
                !(task.last_chunk_min_i matches Some(m) && m >= mid),
                sel == split_selects(*task),
                a2 == second_unadvanced(*task),
                b2 == mid - a2,
                c == count_unadvanced(ps.take(i as int)),
                c + d == i,
                packets2@ == picked(ps, sel, i as int),
                packets2@.len() == (if c < a2 { c as int } else { a2 as int }) + (if d < b2 { d as int } else { b2 as int }),
                count_unadvanced(packets2@) == (if c < a2 { c as int } else { a2 as int }),
                used@.len() == len,
                forall|j: int| 0 <= j < i ==> #[trigger] used@[j] == sel(j),
                forall|j: int| i <= j < len ==> !(#[trigger] used@[j]),
            decreases len - i,
        {
            proof {
                assert(ps.take(i + 1).drop_last() == ps.take(i as int));
            }
            let ghost p0 = packets2@;
            if task.packets[i].is_advanced {
                if d < b2 {
                    packets2.push(task.packets[i]);
                    assert(packets2@.drop_last() == p0);
                    used.set(i, true);
                }
                d = d + 1;
            } else {
                if c < a2 {
                    packets2.push(task.packets[i]);
                    assert(packets2@.drop_last() == p0);
                    used.set(i, true);
                }
                c = c + 1;
            }
            i = i + 1;
        }
        proof {
            assert(ps.take(len as int) == ps);
            assert(c == a);
            assert(packets2@.len() == mid);
            assert(count_unadvanced(packets2@) == second_unadvanced(*task));
        }
    } else {
        proof {
            let q: int = if task.last_chunk_min_i matches Some(m) && m >= mid {
                mid as int
            } else if task.last_chunk_min_i is Some {
                task.last_chunk_min_i->0 as int
            } else {
                0
            };
            assert(prefix_len == q);
            lemma_picked_prefix(ps, q, len as int);
            assert(picked(ps, |j: int| j < q, len as int) == picked(ps, sel, len as int)) by {
                lemma_picked_ext(ps, |j: int| j < q, sel, len as int);
            }
            assert forall|j: int| 0 <= j < len implies #[trigger] used@[j] == sel(j) by {}
        }
    }
    let ghost first = packets2@;
    proof {
        assert(first == picked(ps, sel, len as int));
        lemma_picked_len(ps, sel, len as int);
    }
    let full = packets2.len() >= mid;
    let mut idle = true;
    let mut j: usize = 0;
    while j < len
        invariant
            len == ps.len(),
            ps == task.packets@,
            j <= len,
            used@.len() == len,
            sel == split_selects(*task),
            forall|x: int| 0 <= x < len ==> #[trigger] used@[x] == sel(x),
            idle == forall|x: int| 0 <= x < j && #[trigger] sel(x) && ps[x].is_advanced ==> (task.last_chunk_min_i matches Some(
                m,
            ) && x < m),
        decreases len - j,
    {
        if used[j] && task.packets[j].is_advanced {
            let before_chunk = match task.last_chunk_min_i {
                Some(m) => j < m,
                None => false,
            };
            if !before_chunk {
                idle = false;
            }
        }
        j = j + 1;
    }
    let task2_ready = full && idle;
    let next_t1 = task.next_t;
    let next_t2 = if task2_ready {
        cur_t
    } else {
        task.next_t
    };
    let mut i: usize = 0;
    while i < len
        invariant
            len == ps.len(),
            ps == task.packets@,
            mid == len / 2,
            i <= len,
            sel == split_selects(*task),
            used@.len() == len,
            forall|j: int| 0 <= j < len ==> #[trigger] used@[j] == sel(j),
            full == (first.len() >= mid),
            packets2@.len() >= first.len(),
            packets2@.subrange(0, first.len() as int) == first,
            packets1@ + packets2@.skip(first.len() as int) == unpicked(ps, sel, i as int),
            full ==> packets2@ == first,
            !full ==> packets1@.len() == (if unpicked(ps, sel, i as int).len() < mid {
                unpicked(ps, sel, i as int).len() as int
            } else {
                mid as int
            }),
        decreases len - i,
    {
        if !used[i] {
            if packets1.len() < mid || full {
                packets1.push(task.packets[i]);
            } else {
                packets2.push(task.packets[i]);
            }
        }
        i = i + 1;
    }
    proof {
        let rest = unpicked(ps, sel, len as int);
        assert(rest.len() == len - first.len());
        if full {
            assert(packets2@.skip(first.len() as int) == Seq::<PacketStatus>::empty());
            assert(packets1@ == rest);
        } else {
            assert(packets1@ == rest.take(mid as int));
            assert(packets2@ == first + rest.skip(mid as int));
        }
        assert(packets1@ == split_first(*task));
        assert(packets2@ == split_second(*task));
        lemma_count_unadvanced_parts(ps, sel, len as int);
        assert(ps.take(len as int) == ps);
    }
    let task1 = build_task_from_split(task, packets1, next_t1);
    let task2 = build_task_from_split(task, packets2, next_t2);
    Some((task1, task2))
}

/// Those of the first `k` packets not yet through the node are shared out
/// between the picked and the other packets.
proof fn lemma_count_unadvanced_parts(ps: Seq<PacketStatus>, sel: spec_fn(int) -> bool, k: int)
    requires
        0 <= k <= ps.len(),
    ensures
        count_unadvanced(picked(ps, sel, k)) + count_unadvanced(unpicked(ps, sel, k)) == count_unadvanced(ps.take(k)),
    decreases k,
{
    if k > 0 {
        lemma_count_unadvanced_parts(ps, sel, k - 1);
        let a = picked(ps, sel, k - 1);
        let b = unpicked(ps, sel, k - 1);
        assert(ps.take(k).drop_last() == ps.take(k - 1));
        if sel(k - 1) {
            assert((a + seq![ps[k - 1]]).drop_last() == a);
            assert(b + Seq::<PacketStatus>::empty() == b);
        } else {
            assert((b + seq![ps[k - 1]]).drop_last() == b);
            assert(a + Seq::<PacketStatus>::empty() == a);
        }
    }
}

/// The share of `a` in `mid` of `n`, rounded down, leaves enough of the
/// other kind for the rest of `mid`.
proof fn lemma_share_bounds(a: int, mid: int, n: int)
    requires
        0 <= a <= n,
        0 <= mid <= n,
        0 < n,
    ensures
        0 <= a * mid / n <= a,
        a * mid / n <= mid,
        mid - a * mid / n <= n - a,
{
    let q = a * mid / n;
    let r = a * mid % n;
    vstd::arithmetic::div_mod::lemma_fundamental_div_mod(a * mid, n);
    vstd::arithmetic::div_mod::lemma_mod_bound(a * mid, n);
    assert(0 <= a * mid) by (nonlinear_arith)
        requires
            0 <= a,
            0 <= mid,
    ;
    assert(0 <= q) by (nonlinear_arith)
        requires
            a * mid == n * q + r,
            0 <= r < n,
            0 <= a * mid,
    ;
    assert(q <= a && q <= mid) by (nonlinear_arith)
        requires
            a * mid == n * q + r,
            0 <= r < n,
            0 <= a <= n,
            0 <= mid <= n,
    ;
    assert(n * (a - q) < n * (n - mid + 1)) by (nonlinear_arith)
        requires
            a * mid == n * q + r,
            0 <= r < n,
            0 <= a <= n,
            0 <= mid <= n,
    ;
    assert(a - q < n - mid + 1) by (nonlinear_arith)
        requires
            n * (a - q) < n * (n - mid + 1),
            0 < n,
    ;
}

proof fn lemma_picked_ext(
    ps: Seq<PacketStatus>,
    a: spec_fn(int) -> bool,
    b: spec_fn(int) -> bool,
    k: int,
)
    requires
        forall|j: int| 0 <= j < k ==> #[trigger] a(j) == b(j),
    ensures
        picked(ps, a, k) == picked(ps, b, k),
        unpicked(ps, a, k) == unpicked(ps, b, k),
    decreases k,
{
    if k > 0 {
        lemma_picked_ext(ps, a, b, k - 1);
    }
}

proof fn lemma_count_unadvanced_mono(ps: Seq<PacketStatus>, i: int, j: int)
    requires
        0 <= i <= j <= ps.len(),
    ensures
        count_unadvanced(ps.take(i)) <= count_unadvanced(ps.take(j)),
    decreases j - i,
{
    if j > i {
        lemma_count_unadvanced_mono(ps, i, j - 1);
        assert(ps.take(j).drop_last() == ps.take(j - 1));
    }
}

impl Task {
    /// A task of the scheduler's state: its packets were received, there are
    /// between one and `MAX_TASK_PACKETS` of them, and it is chunked only part
    /// of the way through a node, on its path.
    pub open spec fn wf(&self, packets: Seq<Option<Packet>>, graph: Graph) -> bool {
        &&& self.shape_ok(graph, packets.len())
        &&& 1 <= self.packets@.len() <= MAX_TASK_PACKETS
        &&& 0 <= self.next_t
        &&& self.is_chunked ==> self.path_index < graph.path_len(self.packet_type as int)
        &&& !self.is_chunked ==> forall|k: int|
            0 <= k < self.packets@.len() ==> !(#[trigger] self.packets@[k]).is_advanced
        &&& forall|k: int|
            0 <= k < self.packets@.len() ==> packets[(#[trigger] self.packets@[k]).id as int] is Some
    }
}

impl State {
    /// The state of a subtask of `n` packets on `input.n_cores` cores.
    pub open spec fn wf(&self, n: nat, input: Input, graph: Graph) -> bool {
        &&& n <= MAX_PACKETS
        &&& self.packets@.len() == n
        &&& self.packet_special_cost@.len() == n
        &&& self.next_tasks@.len() == input.n_cores
        &&& self.idle_tasks@.len() == input.n_cores
        &&& self.await_packets.wf()
        &&& self.await_packets.capacity() == n
        &&& self.received_packets.wf()
        &&& self.received_packets.capacity() == n
        &&& 0 <= self.last_received_t <= MAX_T
        &&& forall|i: int|
            0 <= i < n ==> (#[trigger] self.packets@[i] matches Some(p) ==> p.wf(n) && p.i == i)
        &&& forall|i: int| 0 <= i < n ==> special_cost_ok(#[trigger] self.packet_special_cost@[i])
        &&& forall|k: int|
            0 <= k < self.await_packets.que@.len() ==> self.packets@[#[trigger] self.await_packets.que@[k] as int] is Some
        &&& forall|c: int|
            0 <= c < input.n_cores ==> (#[trigger] self.next_tasks@[c] matches Some(t) ==> t.wf(
                self.packets@,
                graph,
            ))
        &&& forall|c: int| 0 <= c < input.n_cores ==> #[trigger] self.idle_tasks@[c] is None
    }
}

pub proof fn lemma_picked_from(ps: Seq<PacketStatus>, sel: spec_fn(int) -> bool, k: int)
    requires
        0 <= k <= ps.len(),
    ensures
        forall|x: PacketStatus| #[trigger] picked(ps, sel, k).contains(x) ==> ps.contains(x),
        forall|x: PacketStatus| #[trigger] unpicked(ps, sel, k).contains(x) ==> ps.contains(x),
    decreases k,
{
    if k > 0 {
        lemma_picked_from(ps, sel, k - 1);
        let a = picked(ps, sel, k - 1);
        let b = unpicked(ps, sel, k - 1);
        assert forall|x: PacketStatus| #[trigger] picked(ps, sel, k).contains(x) implies ps.contains(x) by {
            let j = choose|j: int| 0 <= j < picked(ps, sel, k).len() && picked(ps, sel, k)[j] == x;
            if j < a.len() {
                assert(a[j] == x);
                assert(a.contains(x));
            } else {
                assert(x == ps[k - 1]);
            }
        }
        assert forall|x: PacketStatus| #[trigger] unpicked(ps, sel, k).contains(x) implies ps.contains(x) by {
            let j = choose|j: int| 0 <= j < unpicked(ps, sel, k).len() && unpicked(ps, sel, k)[j] == x;
            if j < b.len() {
                assert(b[j] == x);
                assert(b.contains(x));
            } else {
                assert(x == ps[k - 1]);
            }
        }
    }
}

/// The packets picked among the first `k` of `ps` are some of those first
/// `k`, so when no id occurs twice in `ps` none occurs twice among them.
pub proof fn lemma_picked_ids_distinct(ps: Seq<PacketStatus>, sel: spec_fn(int) -> bool, k: int)
    requires
        0 <= k <= ps.len(),
        ps.map_values(|p: PacketStatus| p.id).no_duplicates(),
    ensures
        picked(ps, sel, k).map_values(|p: PacketStatus| p.id).no_duplicates(),
        forall|m: int| 0 <= m < picked(ps, sel, k).len() ==> ps.take(k).contains(#[trigger] picked(ps, sel, k)[m]),
    decreases k,
{
    if k > 0 {
        lemma_picked_ids_distinct(ps, sel, k - 1);
        let a = picked(ps, sel, k - 1);
        let b = picked(ps, sel, k);
        let ids = ps.map_values(|p: PacketStatus| p.id);
        assert forall|m: int| 0 <= m < a.len() implies ps.take(k).contains(#[trigger] a[m]) by {
            assert(ps.take(k - 1).contains(a[m]));
            let j = choose|j: int| 0 <= j < k - 1 && #[trigger] ps.take(k - 1)[j] == a[m];
            assert(ps.take(k)[j] == a[m]);
        }
        if sel(k - 1) {
            assert(b =~= a.push(ps[k - 1]));
            assert(ps.take(k)[k - 1] == ps[k - 1]);
            let bi = b.map_values(|p: PacketStatus| p.id);
            let ai = a.map_values(|p: PacketStatus| p.id);
            assert forall|m1: int, m2: int| 0 <= m1 < bi.len() && 0 <= m2 < bi.len() && m1 != m2 implies bi[m1] != bi[m2] by {
                if m1 < a.len() && m2 < a.len() {
                    assert(bi[m1] == ai[m1] && bi[m2] == ai[m2]);
                } else if m1 < a.len() {
                    assert(ps.take(k - 1).contains(a[m1]));
                    let j = choose|j: int| 0 <= j < k - 1 && #[trigger] ps.take(k - 1)[j] == a[m1];
                    assert(ids[j] != ids[k - 1]);
                } else {
                    assert(ps.take(k - 1).contains(a[m2]));
                    let j = choose|j: int| 0 <= j < k - 1 && #[trigger] ps.take(k - 1)[j] == a[m2];
                    assert(ids[j] != ids[k - 1]);
                }
            }
            assert forall|m: int| 0 <= m < b.len() implies ps.take(k).contains(#[trigger] b[m]) by {
                if m < a.len() {
                    assert(b[m] == a[m]);
                } else {
                    assert(b[m] == ps.take(k)[k - 1]);
                }
            }
        } else {
            assert(b =~= a);
        }
    }
}

/// Each packet picked among the first `k` of `ps` is one of them that `sel` selects.
pub proof fn lemma_picked_sel(ps: Seq<PacketStatus>, sel: spec_fn(int) -> bool, k: int, m: int)
    requires
        0 <= k <= ps.len(),
        0 <= m < picked(ps, sel, k).len(),
    ensures
        exists|j: int| 0 <= j < k && sel(j) && picked(ps, sel, k)[m] == #[trigger] ps[j],
    decreases k,
{
    let a = picked(ps, sel, k - 1);
    if m < a.len() {
        lemma_picked_sel(ps, sel, k - 1, m);
        let j = choose|j: int| 0 <= j < k - 1 && sel(j) && a[m] == #[trigger] ps[j];
        assert(picked(ps, sel, k)[m] == a[m]);
        assert(picked(ps, sel, k)[m] == ps[j]);
    } else {
        assert(sel(k - 1));
        assert(picked(ps, sel, k) == a + seq![ps[k - 1]]);
        assert(picked(ps, sel, k)[m] == ps[k - 1]);
    }
}

/// Each packet among the first `k` of `ps` that `sel` selects is picked.
pub proof fn lemma_picked_has(ps: Seq<PacketStatus>, sel: spec_fn(int) -> bool, k: int, j: int)
    requires
        0 <= j < k <= ps.len(),
        sel(j),
    ensures
        picked(ps, sel, k).contains(ps[j]),
    decreases k,
{
    let a = picked(ps, sel, k - 1);
    if j < k - 1 {
        lemma_picked_has(ps, sel, k - 1, j);
        let m = choose|m: int| 0 <= m < a.len() && a[m] == ps[j];
        if sel(k - 1) {
            assert(picked(ps, sel, k) == a + seq![ps[k - 1]]);
            assert(picked(ps, sel, k)[m] == ps[j]);
        } else {
            assert(picked(ps, sel, k) == a + Seq::<PacketStatus>::empty());
            assert(picked(ps, sel, k)[m] == ps[j]);
        }
    } else {
        assert(picked(ps, sel, k) == a + seq![ps[k - 1]]);
        assert(picked(ps, sel, k)[a.len() as int] == ps[j]);
    }
}

/// Each half of a split holds only packets of the split task.
pub proof fn lemma_split_parts_from(task: Task)
    requires
        task.packets@.len() >= 2,
    ensures
        forall|x: PacketStatus| #[trigger] split_first(task).contains(x) ==> task.packets@.contains(x),
        forall|x: PacketStatus| #[trigger] split_second(task).contains(x) ==> task.packets@.contains(x),
{
    let ps = task.packets@;
    let sel = split_selects(task);
    let mid = ps.len() / 2;
    lemma_picked_from(ps, sel, ps.len() as int);
    lemma_picked_len(ps, sel, ps.len() as int);
    let first = picked(ps, sel, ps.len() as int);
    let rest = unpicked(ps, sel, ps.len() as int);
    if !split_full(task) {
        assert(rest.len() >= mid);
    }
    assert forall|x: PacketStatus| #[trigger] split_first(task).contains(x) implies ps.contains(x) by {
        let f = split_first(task);
        let j = choose|j: int| 0 <= j < f.len() && f[j] == x;
        if split_full(task) {
            assert(rest.contains(x));
        } else {
            assert(rest[j] == x);
            assert(rest.contains(x));
        }
    }
    assert forall|x: PacketStatus| #[trigger] split_second(task).contains(x) implies ps.contains(x) by {
        let f = split_second(task);
        let j = choose|j: int| 0 <= j < f.len() && f[j] == x;
        if split_full(task) {
            assert(first.contains(x));
        } else if j < first.len() {
            assert(first[j] == x);
            assert(first.contains(x));
        } else {
            assert(rest[j - first.len() + mid] == x);
            assert(rest.contains(x));
        }
    }
}

/// A part of a well-formed task, made into a task as a split makes it, is well-formed.
pub proof fn lemma_split_part_wf(
    task: Task,
    part: Seq<PacketStatus>,
    t: Task,
    packets: Seq<Option<Packet>>,
    graph: Graph,
)
    requires
        task.wf(packets, graph),
        forall|x: PacketStatus| #[trigger] part.contains(x) ==> task.packets@.contains(x),
        t.packets@ == built_packets(task, part),
        t.path_index == built_path_index(task, part),
        t.is_chunked == built_chunked(part),
        t.packet_type == task.packet_type,
        1 <= part.len() <= MAX_TASK_PACKETS,
        t.next_t >= 0,
    ensures
        t.wf(packets, graph),
{
    assert forall|k: int| 0 <= k < part.len() implies (#[trigger] part[k]).id < packets.len()
        && packets[part[k].id as int] is Some && (!task.is_chunked ==> !part[k].is_advanced) by {
        assert(part.contains(part[k]));
        let j = choose|j: int| 0 <= j < task.packets@.len() && task.packets@[j] == part[k];
        assert(task.packets@[j].id < packets.len());
    }
    assert forall|k: int| 0 <= k < t.packets@.len() implies (#[trigger] t.packets@[k]).id == part[k].id by {}
    if t.is_chunked {
        assert(any_unadvanced(part));
        let k = choose|k: int| 0 <= k < part.len() && !(#[trigger] part[k]).is_advanced;
        if !task.is_chunked {
            let a = choose|k: int| 0 <= k < part.len() && (#[trigger] part[k]).is_advanced;
            assert(!part[a].is_advanced);
        }
    }
    if !t.is_chunked {
        if !split_moves_on(task, part) {
            assert forall|k: int| 0 <= k < t.packets@.len() implies !(#[trigger] t.packets@[k]).is_advanced by {
                if part[k].is_advanced {
                    assert(any_advanced(part));
                    assert(!any_unadvanced(part));
                    assert(task.is_chunked);
                }
            }
        }
    }
}

} // verus!
