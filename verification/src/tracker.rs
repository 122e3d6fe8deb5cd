//! A record of what the scheduler ran: each packet's history of node calls and
//! a log of tasks, and the integer measures the score is computed from.
use vstd::prelude::*;

use crate::types::{Graph, Packet, PacketHistory, TaskLog, MAX_TIME, N_PACKET_TYPE, path_wf};

verus! {

/// Bound on the time stamps a tracker records.
pub const TIME_CAP: i64 = 4_000_000_000_000_000_000;

#[derive(Debug, Clone)]
pub struct Tracker {
    pub enabled: bool,
    pub packet_history: Vec<Vec<PacketHistory>>,
    pub task_logs: Vec<TaskLog>,
}

/// The integer measures of a finished run: the last departure, the first
/// arrival, and how many packets left after their deadline.
#[derive(Debug, Clone, Copy)]
pub struct ScoreCounts {
    pub max_departure: i64,
    pub min_arrive: i64,
    pub timeout_packets: usize,
}

impl Tracker {
    /// A tracker for `n` packets keeps a history for each while enabled.
    pub open spec fn wf(&self, n: nat) -> bool {
        self.enabled ==> self.packet_history@.len() == n
    }

    pub fn new(n: usize, enabled: bool) -> (t: Self)
        ensures
            t.wf(n as nat),
            t.enabled == enabled,
            t.packet_history@.len() == (if enabled {
                n
            } else {
                1
            }),
            forall|i: int| 0 <= i < t.packet_history@.len() ==> #[trigger] t.packet_history@[i]@
                == Seq::<PacketHistory>::empty(),
            t.task_logs@ == Seq::<TaskLog>::empty(),
    {
        let n = if enabled {
            n
        } else {
            1
        };
        let mut packet_history: Vec<Vec<PacketHistory>> = Vec::new();
        let mut i: usize = 0;
        while i < n
            invariant
                i <= n,
                packet_history@.len() == i,
                forall|j: int| 0 <= j < i ==> #[trigger] packet_history@[j]@
                    == Seq::<PacketHistory>::empty(),
            decreases n - i,
        {
            packet_history.push(Vec::with_capacity(32));
            i = i + 1;
        }
        Tracker { enabled, packet_history, task_logs: Vec::new() }
    }

    /// Appends to the history of `packet_id`, when enabled.
    pub fn add_packet_history(&mut self, packet_id: usize, history: PacketHistory)
        requires
            old(self).enabled ==> packet_id < old(self).packet_history@.len(),
        ensures
            final(self).enabled == old(self).enabled,
            final(self).task_logs == old(self).task_logs,
            final(self).packet_history@.len() == old(self).packet_history@.len(),
            forall|i: int|
                0 <= i < final(self).packet_history@.len() ==> (#[trigger] final(self).packet_history@[i])@
                    == (if old(self).enabled && i == packet_id {
                    old(self).packet_history@[i]@.push(history)
                } else {
                    old(self).packet_history@[i]@
                }),
    {
        if self.enabled {
            self.packet_history[packet_id].push(history);
        }
    }

    /// Appends to the task log, when enabled.
    pub fn add_task_log(&mut self, log: TaskLog)
        ensures
            final(self).enabled == old(self).enabled,
            final(self).packet_history == old(self).packet_history,
            final(self).task_logs@ == (if old(self).enabled {
                old(self).task_logs@.push(log)
            } else {
                old(self).task_logs@
            }),
    {
        if self.enabled {
            self.task_logs.push(log);
        }
    }

    /// The history of every packet is complete: as long as its path, with
    /// time stamps within `TIME_CAP`.
    pub open spec fn complete_for(&self, n: nat, packets: Seq<Option<Packet>>, graph: Graph) -> bool {
        history_complete(self.packet_history@, n, packets, graph)
    }

    /// Integer measures of the run over the first `n` packets; the score is
    /// computed from them.
    pub fn score_counts(&self, n: usize, packets: &Vec<Option<Packet>>, graph: &Graph) -> (r:
        ScoreCounts)
        requires
            graph.wf(),
            self.complete_for(n as nat, packets@, *graph),
        ensures
            r.max_departure == max_departure(self.packet_history@, n as int, 0),
            r.min_arrive == min_arrive(packets@, n as int, i64::MAX as int),
            r.timeout_packets == timeout_count(self.packet_history@, packets@, n as int),
    {
        history_score_counts(&self.packet_history, n, packets, graph)
    }
}

/// Every one of the first `n` packets was received and has a history as long
/// as its path, with time stamps within `TIME_CAP`.
pub open spec fn history_complete(
    history: Seq<Vec<PacketHistory>>,
    n: nat,
    packets: Seq<Option<Packet>>,
    graph: Graph,
) -> bool {
    &&& history.len() >= n
    &&& packets.len() >= n
    &&& forall|i: int|
        0 <= i < n ==> {
            &&& #[trigger] packets[i] is Some
            &&& packets[i]->0.packet_type < N_PACKET_TYPE
            &&& -MAX_TIME <= packets[i]->0.arrive <= MAX_TIME
            &&& -MAX_TIME <= packets[i]->0.timeout <= MAX_TIME
            &&& history[i]@.len() == graph.paths@[packets[i]->0.packet_type as int].l
        }
    &&& forall|i: int, k: int|
        0 <= i < n && 0 <= k < history[i]@.len() ==> -TIME_CAP <= #[trigger] history[i]@[k].end_t
            <= TIME_CAP
}

/// The last departure, the first arrival and the number of late packets among
/// the first `n` packets of a complete run.
pub fn history_score_counts(
    history: &Vec<Vec<PacketHistory>>,
    n: usize,
    packets: &Vec<Option<Packet>>,
    graph: &Graph,
) -> (r: ScoreCounts)
    requires
        graph.wf(),
        history_complete(history@, n as nat, packets@, *graph),
    ensures
        r.max_departure == max_departure(history@, n as int, 0),
        r.min_arrive == min_arrive(packets@, n as int, i64::MAX as int),
        r.timeout_packets == timeout_count(history@, packets@, n as int),
{
    let mut max_departure_t: i64 = 0;
    let mut min_arrive_t: i64 = i64::MAX;
    let mut timeout_packets: usize = 0;
    let mut i: usize = 0;
    while i < n
        invariant
            graph.wf(),
            history_complete(history@, n as nat, packets@, *graph),
            i <= n,
            max_departure_t == max_departure(history@, i as int, 0),
            min_arrive_t == min_arrive(packets@, i as int, i64::MAX as int),
            timeout_packets == timeout_count(history@, packets@, i as int),
            timeout_packets <= i,
        decreases n - i,
    {
        let packet = packets[i].as_ref().unwrap();
        let arrive = packet.arrive;
        if arrive < min_arrive_t {
            min_arrive_t = arrive;
        }
        proof {
            assert(path_wf(graph.paths@[packet.packet_type as int]));
        }
        let path_len = graph.paths[packet.packet_type].l;
        let path_history = &history[i];
        let departure = path_history[path_len - 1].end_t;
        if departure > max_departure_t {
            max_departure_t = departure;
        }
        let timeout = packet.timeout;
        if departure - arrive > timeout {
            timeout_packets = timeout_packets + 1;
        }
        i = i + 1;
    }
    ScoreCounts { max_departure: max_departure_t, min_arrive: min_arrive_t, timeout_packets }
}

/// The end of the last node call of packet `i`.
pub open spec fn departure(history: Seq<Vec<PacketHistory>>, i: int) -> int {
    history[i]@[history[i]@.len() - 1].end_t as int
}

/// The largest of `init` and the departures of the first `k` packets.
pub open spec fn max_departure(history: Seq<Vec<PacketHistory>>, k: int, init: int) -> int
    decreases k,
{
    if k <= 0 {
        init
    } else {
        let m = max_departure(history, k - 1, init);
        if departure(history, k - 1) > m {
            departure(history, k - 1)
        } else {
            m
        }
    }
}

/// The smallest of `init` and the arrivals of the first `k` packets.
pub open spec fn min_arrive(packets: Seq<Option<Packet>>, k: int, init: int) -> int
    decreases k,
{
    if k <= 0 {
        init
    } else {
        let m = min_arrive(packets, k - 1, init);
        if (packets[k - 1]->0.arrive as int) < m {
            packets[k - 1]->0.arrive as int
        } else {
            m
        }
    }
}

/// How many of the first `k` packets departed more than their timeout after arriving.
pub open spec fn timeout_count(
    history: Seq<Vec<PacketHistory>>,
    packets: Seq<Option<Packet>>,
    k: int,
) -> int
    decreases k,
{
    if k <= 0 {
        0
    } else {
        timeout_count(history, packets, k - 1) + (if departure(history, k - 1) - packets[k
            - 1]->0.arrive > packets[k - 1]->0.timeout {
            1int
        } else {
            0int
        })
    }
}

/// Whether the first `n` packets all have complete histories (`history_complete`).
pub fn history_is_complete(
    history: &Vec<Vec<PacketHistory>>,
    n: usize,
    packets: &Vec<Option<Packet>>,
    graph: &Graph,
) -> (r: bool)
    requires
        graph.wf(),
    ensures
        r == history_complete(history@, n as nat, packets@, *graph),
{
    if history.len() < n || packets.len() < n {
        return false;
    }
    let mut i: usize = 0;
    while i < n
        invariant
            graph.wf(),
            history@.len() >= n,
            packets@.len() >= n,
            i <= n,
            forall|j: int|
                0 <= j < i ==> {
                    &&& #[trigger] packets@[j] is Some
                    &&& packets@[j]->0.packet_type < N_PACKET_TYPE
                    &&& -MAX_TIME <= packets@[j]->0.arrive <= MAX_TIME
                    &&& -MAX_TIME <= packets@[j]->0.timeout <= MAX_TIME
                    &&& history@[j]@.len() == graph.paths@[packets@[j]->0.packet_type as int].l
                },
            forall|j: int, k: int|
                0 <= j < i && 0 <= k < history@[j]@.len() ==> -TIME_CAP <= #[trigger] history@[j]@[k].end_t
                    <= TIME_CAP,
        decreases n - i,
    {
        match &packets[i] {
            Some(p) => {
                if p.packet_type >= N_PACKET_TYPE || p.arrive < -MAX_TIME || p.arrive > MAX_TIME
                    || p.timeout < -MAX_TIME || p.timeout > MAX_TIME
                    || history[i].len() != graph.paths[p.packet_type].l {
                    return false;
                }
            },
            None => {
                return false;
            },
        }
        let h = &history[i];
        let mut k: usize = 0;
        while k < h.len()
            invariant
                i < n,
                history@.len() >= n,
                k <= h@.len(),
                *h == history@[i as int],
                forall|kk: int| 0 <= kk < k ==> -TIME_CAP <= #[trigger] h@[kk].end_t <= TIME_CAP,
            decreases h@.len() - k,
        {
            if h[k].end_t < -TIME_CAP || h[k].end_t > TIME_CAP {
                assert(!(-TIME_CAP <= history@[i as int]@[k as int].end_t <= TIME_CAP));
                return false;
            }
            k = k + 1;
        }
        i = i + 1;
    }
    true
}

} // verus!
