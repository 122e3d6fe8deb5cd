//! A referee that stands between a scheduler and the judge: it forwards each
//! command, holds it to the judge's rules (times never go back, a core and a
//! packet are busy until their last call ends, a packet goes along its path),
//! and keeps each packet's history and a log of node calls.
use vstd::prelude::*;

use crate::interactor::{Exchange, Interactor};
use crate::run::{special_works_cost, works_cost};
use crate::tracker::{history_complete, history_score_counts, max_departure, min_arrive, timeout_count, ScoreCounts};
use crate::types::{
    Graph, Input, Packet, PacketHistory, TaskLog, MAX_PACKETS, MAX_TIME, N_NODE, N_SPECIAL, SPECIAL_NODE_ID,
    node_wf, path_wf,
};

verus! {

pub struct Tester<'a, I: Interactor> {
    pub n: usize,
    pub input: Input,
    pub graph: Graph,
    pub interactor: &'a mut I,
    pub packets: Vec<Option<Packet>>,
    pub packet_works: Vec<Option<[bool; N_SPECIAL]>>,
    pub packet_history: Vec<Vec<PacketHistory>>,
    pub core_last_t: Vec<i64>,
    pub core0_last_t: i64,
    pub last_t: i64,
    pub task_logs: Vec<TaskLog>,
}

/// The packets `ps` after recording the packets `got` in order, each at its
/// id; a packet whose id is outside the subtask is not recorded.
pub open spec fn recorded(ps: Seq<Option<Packet>>, got: Seq<Packet>) -> Seq<Option<Packet>>
    decreases got.len(),
{
    if got.len() == 0 {
        ps
    } else {
        let prev = recorded(ps, got.drop_last());
        let p = got.last();
        if p.i < prev.len() {
            prev.update(p.i as int, Some(p))
        } else {
            prev
        }
    }
}

/// Whether packet `ids[k]` has its works asked for by a call at the special
/// node: they are unknown in `works`, and no earlier packet of `ids` is the
/// same one.
pub open spec fn first_unknown(ids: Seq<usize>, works: Seq<Option<[bool; N_SPECIAL]>>, k: int) -> bool {
    &&& works[ids[k] as int] is None
    &&& forall|j: int| 0 <= j < k ==> ids[j] != ids[k]
}

/// The works queries a call at `t` at the special node makes for the packets
/// `ids`, whose works were `before`: one for each packet whose works are not
/// known, in the order of `ids`, each answered as `after` records.
pub open spec fn works_queries(
    t: i64,
    ids: Seq<usize>,
    before: Seq<Option<[bool; N_SPECIAL]>>,
    after: Seq<Option<[bool; N_SPECIAL]>>,
) -> Seq<Exchange>
    decreases ids.len(),
{
    if ids.len() == 0 {
        Seq::empty()
    } else {
        works_queries(t, ids.drop_last(), before, after) + (if first_unknown(ids, before, ids.len() - 1) {
            seq![Exchange::Works { t, i: ids.last(), answer: after[ids.last() as int] }]
        } else {
            Seq::empty()
        })
    }
}

proof fn lemma_works_queries_frame(
    t: i64,
    ids: Seq<usize>,
    before: Seq<Option<[bool; N_SPECIAL]>>,
    a1: Seq<Option<[bool; N_SPECIAL]>>,
    a2: Seq<Option<[bool; N_SPECIAL]>>,
)
    requires
        forall|j: int| 0 <= j < ids.len() ==> a1[#[trigger] ids[j] as int] == a2[ids[j] as int],
    ensures
        works_queries(t, ids, before, a1) == works_queries(t, ids, before, a2),
    decreases ids.len(),
{
    if ids.len() > 0 {
        let q = ids.drop_last();
        assert forall|j: int| 0 <= j < q.len() implies a1[#[trigger] q[j] as int] == a2[q[j] as int] by {
            assert(q[j] == ids[j]);
        }
        lemma_works_queries_frame(t, q, before, a1, a2);
        assert(ids.last() == ids[ids.len() - 1]);
    }
}

/// The histories as sequences.
pub open spec fn history_views(h: Seq<Vec<PacketHistory>>) -> Seq<Seq<PacketHistory>> {
    h.map_values(|v: Vec<PacketHistory>| v@)
}

/// The histories `h` after appending `e` to the history of each packet of `ids`, in order.
pub open spec fn pushed(h: Seq<Seq<PacketHistory>>, ids: Seq<usize>, e: PacketHistory) -> Seq<
    Seq<PacketHistory>,
>
    decreases ids.len(),
{
    if ids.len() == 0 {
        h
    } else {
        let prev = pushed(h, ids.drop_last(), e);
        prev.update(ids.last() as int, prev[ids.last() as int].push(e))
    }
}

/// How many packets of `ids` come to `core_id` from elsewhere: from another
/// core, or from the receiving core when they have no history yet.
pub open spec fn switch_count(h: Seq<Seq<PacketHistory>>, ids: Seq<usize>, core_id: usize) -> int
    decreases ids.len(),
{
    if ids.len() == 0 {
        0
    } else {
        let hs = h[ids.last() as int];
        switch_count(h, ids.drop_last(), core_id) + (if hs.len() == 0 || hs.last().core_id
            != core_id {
            1int
        } else {
            0int
        })
    }
}

/// What the special works of the packets of `ids` cost, by the works in `works`.
pub open spec fn ids_works_cost(works: Seq<Option<[bool; N_SPECIAL]>>, ids: Seq<usize>, costs: Seq<i64>) -> int
    decreases ids.len(),
{
    if ids.len() == 0 {
        0
    } else {
        ids_works_cost(works, ids.drop_last(), costs) + works_cost(
            works[ids.last() as int]->0@,
            costs,
            N_SPECIAL as int,
        )
    }
}

/// The time before which packet `id` cannot run: the end of its last call, or
/// when it was received plus the receive cost.
pub open spec fn packet_free_at(h: Seq<PacketHistory>, p: Packet, cost_r: int) -> int {
    if h.len() == 0 {
        p.received_t + cost_r
    } else {
        h.last().end_t as int
    }
}

proof fn lemma_ids_works_cost_frame(
    w1: Seq<Option<[bool; N_SPECIAL]>>,
    w2: Seq<Option<[bool; N_SPECIAL]>>,
    ids: Seq<usize>,
    costs: Seq<i64>,
)
    requires
        forall|k: int| 0 <= k < ids.len() ==> w1[#[trigger] ids[k] as int] == w2[ids[k] as int],
    ensures
        ids_works_cost(w1, ids, costs) == ids_works_cost(w2, ids, costs),
    decreases ids.len(),
{
    if ids.len() > 0 {
        lemma_ids_works_cost_frame(w1, w2, ids.drop_last(), costs);
        assert(w1[ids.last() as int] == w2[ids[ids.len() - 1] as int]);
    }
}

proof fn lemma_pushed_len(h: Seq<Seq<PacketHistory>>, ids: Seq<usize>, e: PacketHistory, x: usize)
    requires
        forall|k: int| 0 <= k < ids.len() ==> #[trigger] ids[k] < h.len(),
        x < h.len(),
    ensures
        pushed(h, ids, e).len() == h.len(),
        pushed(h, ids, e)[x as int].len() >= h[x as int].len(),
        ids.contains(x) ==> pushed(h, ids, e)[x as int].len() >= 1,
    decreases ids.len(),
{
    if ids.len() > 0 {
        let d = ids.drop_last();
        assert forall|k: int| 0 <= k < d.len() implies #[trigger] d[k] < h.len() by {
            assert(d[k] == ids[k]);
        }
        lemma_pushed_len(h, d, e, x);
        assert(ids.last() < h.len());
        if ids.contains(x) && ids.last() != x {
            let j = choose|j: int| 0 <= j < ids.len() && ids[j] == x;
            assert(j < ids.len() - 1);
            assert(d[j] == x);
            assert(d.contains(x));
        }
    }
}

impl<'a, I: Interactor> Tester<'a, I> {
    pub open spec fn wf(&self) -> bool {
        &&& self.n <= MAX_PACKETS
        &&& self.packets@.len() == self.n
        &&& self.packet_works@.len() == self.n
        &&& self.packet_history@.len() == self.n
        &&& self.core_last_t@.len() == self.input.n_cores
    }

    /// Whether the tester's records fit its subtask and machine (`wf`).
    pub fn is_wf(&self) -> (r: bool)
        ensures
            r == self.wf(),
    {
        self.n <= MAX_PACKETS && self.packets.len() == self.n && self.packet_works.len() == self.n
            && self.packet_history.len() == self.n && self.core_last_t.len() == self.input.n_cores
    }

    /// Every other part of the tester is as in `old`.
    pub open spec fn same_but_packets(&self, old: &Self) -> bool {
        &&& self.n == old.n
        &&& self.input == old.input
        &&& self.graph == old.graph
        &&& self.packet_works == old.packet_works
        &&& self.packet_history == old.packet_history
        &&& self.core_last_t == old.core_last_t
        &&& self.task_logs == old.task_logs
    }

    /// Packet `id` may run node `node_id` at `t`: it was received, it is free
    /// by `t`, and `node_id` is the next node of its path.
    pub open spec fn ready(&self, id: usize, t: i64, node_id: usize) -> bool {
        &&& id < self.n
        &&& self.packets@[id as int] is Some
        &&& t >= packet_free_at(self.packet_history@[id as int]@, self.packets@[id as int]->0, self.input.cost_r as int)
        &&& self.packet_history@[id as int]@.len() < self.graph.path_len(
            self.packets@[id as int]->0.packet_type as int,
        )
        &&& self.graph.node_at(
            self.packets@[id as int]->0.packet_type as int,
            self.packet_history@[id as int]@.len() as int,
        ) == node_id
    }

    pub fn new(interactor: &'a mut I, n: usize, input: Input, graph: Graph) -> (r: Self)
        requires
            n <= MAX_PACKETS,
        ensures
            r.wf(),
            r.n == n,
            r.input == input,
            r.graph == graph,
            forall|i: int| 0 <= i < n ==> #[trigger] r.packets@[i] is None,
            forall|i: int| 0 <= i < n ==> #[trigger] r.packet_works@[i] is None,
            forall|i: int| 0 <= i < n ==> (#[trigger] r.packet_history@[i])@.len() == 0,
            forall|c: int| 0 <= c < input.n_cores ==> #[trigger] r.core_last_t@[c] == 1,
            r.core0_last_t == 0,
            r.last_t == 0,
            r.task_logs@.len() == 0,
            r.interactor.log() == old(interactor).log(),
    {
        let num_cores = input.n_cores;
        let mut packets: Vec<Option<Packet>> = Vec::with_capacity(n);
        let mut packet_works: Vec<Option<[bool; N_SPECIAL]>> = Vec::with_capacity(n);
        let mut packet_history: Vec<Vec<PacketHistory>> = Vec::with_capacity(n);
        let mut i: usize = 0;
        while i < n
            invariant
                i <= n,
                packets@.len() == i,
                packet_works@.len() == i,
                packet_history@.len() == i,
                forall|k: int| 0 <= k < i ==> #[trigger] packets@[k] is None,
                forall|k: int| 0 <= k < i ==> #[trigger] packet_works@[k] is None,
                forall|k: int| 0 <= k < i ==> (#[trigger] packet_history@[k])@.len() == 0,
            decreases n - i,
        {
            packets.push(None);
            packet_works.push(None);
            packet_history.push(Vec::new());
            i = i + 1;
        }
        let mut core_last_t: Vec<i64> = Vec::with_capacity(num_cores);
        let mut c: usize = 0;
        while c < num_cores
            invariant
                c <= num_cores,
                core_last_t@.len() == c,
                forall|k: int| 0 <= k < c ==> #[trigger] core_last_t@[k] == 1,
            decreases num_cores - c,
        {
            core_last_t.push(1);
            c = c + 1;
        }
        Self {
            n,
            input,
            graph,
            interactor,
            packets,
            packet_works,
            packet_history,
            core_last_t,
            core0_last_t: 0,
            last_t: 0,
            task_logs: Vec::with_capacity(n * 32),
        }
    }

    /// Receives the packets that arrived by `t` and records them. Core 0 is
    /// then busy for a receive.
    pub fn send_receive_packets(&mut self, t: i64) -> (r: Vec<Packet>)
        requires
            old(self).wf(),
            t >= old(self).last_t,
            t >= old(self).core0_last_t,
            i64::MIN <= t + old(self).input.cost_r <= i64::MAX,
        ensures
            final(self).wf(),
            final(self).last_t == t,
            final(self).core0_last_t == t + old(self).input.cost_r,
            final(self).packets@ == recorded(old(self).packets@, r@),
            final(self).same_but_packets(&*old(self)),
            final(self).interactor.log().len() == old(self).interactor.log().len() + 1,
            final(self).interactor.log().drop_last() == old(self).interactor.log(),
            final(self).interactor.log().last() matches Exchange::Receive { t: t2, count, packets } && t2 == t
                && packets@ == r@,
    {
        self.last_t = t;
        self.core0_last_t = t + self.input.cost_r;
        let (_, packets) = self.interactor.send_receive_packets(t);
        let ghost log1 = self.interactor.log();
        let mut k: usize = 0;
        while k < packets.len()
            invariant
                k <= packets@.len(),
                self.wf(),
                self.last_t == t,
                self.core0_last_t == t + old(self).input.cost_r,
                self.same_but_packets(&*old(self)),
                self.packets@ == recorded(old(self).packets@, packets@.take(k as int)),
                self.interactor.log() == log1,
            decreases packets@.len() - k,
        {
            let packet = packets[k];
            proof {
                assert(packets@.take(k + 1).drop_last() == packets@.take(k as int));
            }
            if packet.i < self.n {
                self.packets.set(packet.i, Some(packet));
            }
            k = k + 1;
        }
        proof {
            assert(packets@.take(packets@.len() as int) == packets@);
        }
        packets
    }

    /// Asks which special works packet `i` needs, and records the answer.
    pub fn send_query_works(&mut self, t: i64, i: usize) -> (r: Option<[bool; N_SPECIAL]>)
        requires
            old(self).wf(),
            t >= old(self).last_t,
            i < old(self).n,
        ensures
            final(self).wf(),
            final(self).last_t == t,
            final(self).core0_last_t == old(self).core0_last_t,
            final(self).packets == old(self).packets,
            final(self).packet_works@ == (match r {
                Some(bits) => old(self).packet_works@.update(i as int, Some(bits)),
                None => old(self).packet_works@,
            }),
            final(self).n == old(self).n,
            final(self).input == old(self).input,
            final(self).graph == old(self).graph,
            final(self).packet_history == old(self).packet_history,
            final(self).core_last_t == old(self).core_last_t,
            final(self).task_logs == old(self).task_logs,
            final(self).interactor.log() == old(self).interactor.log().push(Exchange::Works { t, i, answer: r }),
    {
        self.last_t = t;
        let res = self.interactor.send_query_works(t, i);
        if let Some(bits) = res {
            self.packet_works.set(i, Some(bits));
        }
        res
    }
    /// How long node `node_id` runs on core `core_id` for the batch `ids` of
    /// size `s`: the node's cost, a switch cost for each packet that comes from
    /// elsewhere, and at the special node the special works, by `works`.
    pub open spec fn call_time(
        &self,
        core_id: usize,
        node_id: usize,
        s: usize,
        ids: Seq<usize>,
        works: Seq<Option<[bool; N_SPECIAL]>>,
    ) -> int {
        self.graph.cost(node_id as int, s as int) + switch_count(
            history_views(self.packet_history@),
            ids,
            core_id,
        ) * self.input.cost_switch + (if node_id == SPECIAL_NODE_ID {
            ids_works_cost(works, ids, self.graph.special_costs@)
        } else {
            0
        })
    }

    /// Runs node `node_id` on core `core_id` at `t` for the packets `ids`
    /// (with `s` the batch size the node is charged for), after checking the
    /// judge's rules, which are the `requires`. At the special node the works
    /// of each packet are asked for when not known; when the judge does not
    /// tell them, nothing runs and the packet's id comes back as the error.
    pub fn send_execute(&mut self, t: i64, core_id: usize, node_id: usize, s: usize, ids: &[usize]) -> (r: Result<(), usize>)
        requires
            old(self).wf(),
            old(self).graph.wf(),
            old(self).input.wf(),
            t >= old(self).last_t,
            t <= MAX_TIME,
            core_id < old(self).input.n_cores,
            t >= old(self).core_last_t@[core_id as int],
            node_id < N_NODE,
            s < old(self).graph.nodes@[node_id as int].costs@.len(),
            1 <= ids@.len() <= MAX_PACKETS,
            forall|k: int| 0 <= k < ids@.len() ==> old(self).ready(#[trigger] ids@[k], t, node_id),
        ensures
            final(self).wf(),
            final(self).last_t == t,
            final(self).n == old(self).n,
            final(self).input == old(self).input,
            final(self).graph == old(self).graph,
            final(self).packets == old(self).packets,
            final(self).core0_last_t == old(self).core0_last_t,
            forall|i: int|
                0 <= i < old(self).n && old(self).packet_works@[i] is Some ==> #[trigger] final(self).packet_works@[i]
                    == old(self).packet_works@[i],
            node_id != SPECIAL_NODE_ID ==> final(self).packet_works == old(self).packet_works,
            r is Ok ==> final(self).interactor.log() == old(self).interactor.log() + (if node_id == SPECIAL_NODE_ID {
                works_queries(t, ids@, old(self).packet_works@, final(self).packet_works@)
            } else {
                Seq::empty()
            }) + seq![Exchange::Execute { t, core_id, node_id, s, ids: Ghost(ids@) }],
            (match r {
                Ok(()) => {
                    let dur = old(self).call_time(core_id, node_id, s, ids@, final(self).packet_works@);
                    let e = PacketHistory { start_t: t, end_t: (t + dur) as i64, core_id };
                    &&& node_id == SPECIAL_NODE_ID ==> forall|k: int|
                        0 <= k < ids@.len() ==> final(self).packet_works@[#[trigger] ids@[k] as int] is Some
                    &&& history_views(final(self).packet_history@) == pushed(history_views(old(self).packet_history@), ids@, e)
                    &&& final(self).core_last_t@ == old(self).core_last_t@.update(core_id as int, (t + dur) as i64)
                    &&& final(self).task_logs@ == old(self).task_logs@.push(
                        TaskLog {
                            core_id,
                            start_t: t,
                            end_t: (t + dur) as i64,
                            node_id,
                            batch_size: ids@.len() as usize,
                            packet_type: old(self).packets@[ids@[0] as int]->0.packet_type,
                            path_index: (final(self).packet_history@[ids@[0] as int]@.len() - 1) as usize,
                        },
                    )
                },
                Err(id) => {
                    &&& node_id == SPECIAL_NODE_ID
                    &&& ids@.contains(id)
                    &&& exists|k: int|
                        0 <= k < ids@.len() && ids@[k] == id && #[trigger] first_unknown(ids@, old(self).packet_works@, k)
                            && final(self).interactor.log() == old(self).interactor.log() + works_queries(
                            t,
                            ids@.take(k + 1),
                            old(self).packet_works@,
                            final(self).packet_works@,
                        )
                    &&& final(self).packet_works@[id as int] is None
                    &&& final(self).packet_history == old(self).packet_history
                    &&& final(self).core_last_t == old(self).core_last_t
                    &&& final(self).task_logs == old(self).task_logs
                },
            }),
    {
        self.last_t = t;
        let ghost h0 = history_views(self.packet_history@);
        let mut num_switches: i64 = 0;
        let mut k: usize = 0;
        while k < ids.len()
            invariant
                k <= ids@.len() <= MAX_PACKETS,
                self.wf(),
                h0 == history_views(self.packet_history@),
                forall|j: int| 0 <= j < ids@.len() ==> #[trigger] ids@[j] < self.n,
                num_switches == switch_count(h0, ids@.take(k as int), core_id),
                0 <= num_switches <= k,
                self.interactor.log() == old(self).interactor.log(),
                self.packet_works == old(self).packet_works,
            decreases ids@.len() - k,
        {
            let id = ids[k];
            proof {
                assert(ids@.take(k + 1).drop_last() == ids@.take(k as int));
                assert(ids@.take(k + 1).last() == id);
                assert(h0[id as int] == self.packet_history@[id as int]@);
            }
            let h = &self.packet_history[id];
            if h.len() == 0 || h[h.len() - 1].core_id != core_id {
                num_switches = num_switches + 1;
            }
            k = k + 1;
        }
        proof {
            assert(ids@.take(ids@.len() as int) == ids@);
            assert(num_switches * self.input.cost_switch <= MAX_PACKETS * 1_000_000) by (nonlinear_arith)
                requires
                    0 <= num_switches <= MAX_PACKETS,
                    0 <= self.input.cost_switch <= 1_000_000,
            ;
            assert(0 <= num_switches * self.input.cost_switch) by (nonlinear_arith)
                requires
                    0 <= num_switches,
                    0 <= self.input.cost_switch,
            ;
            assert(node_wf(self.graph.nodes@[node_id as int]));
        }
        let mut t_a: i64 = self.graph.nodes[node_id].costs[s] + num_switches * self.input.cost_switch;
        let ghost base = t_a;
        assert(0 <= base <= 1_000_000 + 1_000_000_000_000);
        if node_id == SPECIAL_NODE_ID {
            let ghost w0 = self.packet_works@;
            let mut k: usize = 0;
            while k < ids.len()
                invariant
                    k <= ids@.len() <= MAX_PACKETS,
                    self.wf(),
                    self.graph.wf(),
                    self.last_t == t,
                    self.n == old(self).n,
                    self.input == old(self).input,
                    self.graph == old(self).graph,
                    self.packets == old(self).packets,
                    self.core0_last_t == old(self).core0_last_t,
                    self.packet_history == old(self).packet_history,
                    self.core_last_t == old(self).core_last_t,
                    self.task_logs == old(self).task_logs,
                    w0 == old(self).packet_works@,
                    node_id == SPECIAL_NODE_ID,
                    0 <= base <= 1_000_000 + 1_000_000_000_000,
                    forall|i: int| 0 <= i < self.n && w0[i] is Some ==> #[trigger] self.packet_works@[i] == w0[i],
                    forall|j: int| 0 <= j < ids@.len() ==> #[trigger] ids@[j] < self.n,
                    forall|j: int| 0 <= j < k ==> self.packet_works@[#[trigger] ids@[j] as int] is Some,
                    t_a == base + ids_works_cost(self.packet_works@, ids@.take(k as int), self.graph.special_costs@),
                    forall|i: int| 0 <= i < self.n && self.packet_works@[i] != w0[i] ==> exists|j: int|
                        0 <= j < k && #[trigger] ids@[j] == i,
                    self.interactor.log() == old(self).interactor.log() + works_queries(
                        t,
                        ids@.take(k as int),
                        w0,
                        self.packet_works@,
                    ),
                    0 <= ids_works_cost(self.packet_works@, ids@.take(k as int), self.graph.special_costs@) <= k * 8_000_000,
                decreases ids@.len() - k,
            {
                let id = ids[k];
                let ghost log0 = self.interactor.log();
                let ghost cur0 = self.packet_works@;
                proof {
                    assert(ids@.take(k + 1).drop_last() == ids@.take(k as int));
                    assert(ids@.take(k + 1).last() == id);
                    assert(ids@.take(k + 1)[k as int] == id);
                    if cur0[id as int] is None {
                        assert(w0[id as int] is None);
                        assert forall|j: int| 0 <= j < k implies #[trigger] ids@.take(k + 1)[j] != ids@.take(k + 1)[k as int] by {
                            assert(ids@.take(k + 1)[j] == ids@[j]);
                            assert(cur0[ids@[j] as int] is Some);
                        }
                        assert(first_unknown(ids@.take(k + 1), w0, k as int));
                    } else {
                        if w0[id as int] is None {
                            let j = choose|j: int| 0 <= j < k && #[trigger] ids@[j] == id as int;
                            assert(ids@.take(k + 1)[j] == ids@.take(k + 1)[k as int]);
                        }
                        assert(!first_unknown(ids@.take(k + 1), w0, k as int));
                    }
                }
                if self.packet_works[id].is_none() {
                    let ghost before = self.packet_works@;
                    let _ = self.send_query_works(t, id);
                    proof {
                        assert forall|j: int| 0 <= j < k implies before[#[trigger] ids@.take(k as int)[j] as int]
                            == self.packet_works@[ids@.take(k as int)[j] as int] by {
                            assert(ids@.take(k as int)[j] == ids@[j]);
                        }
                        lemma_works_queries_frame(t, ids@.take(k as int), w0, before, self.packet_works@);
                        lemma_ids_works_cost_frame(before, self.packet_works@, ids@.take(k as int), self.graph.special_costs@);
                        assert(self.interactor.log() == old(self).interactor.log() + works_queries(
                            t,
                            ids@.take(k + 1),
                            w0,
                            self.packet_works@,
                        ));
                        assert forall|i: int| 0 <= i < self.n && self.packet_works@[i] != w0[i] implies exists|j: int|
                            0 <= j < k + 1 && #[trigger] ids@[j] == i by {
                            if i != id as int {
                                assert(self.packet_works@[i] == before[i]);
                            } else {
                                assert(ids@[k as int] == i);
                            }
                        }
                    }
                } else {
                    proof {
                        assert(works_queries(t, ids@.take(k + 1), w0, self.packet_works@) == works_queries(
                            t,
                            ids@.take(k as int),
                            w0,
                            self.packet_works@,
                        ) + Seq::<Exchange>::empty());
                        assert(self.interactor.log() == old(self).interactor.log() + works_queries(
                            t,
                            ids@.take(k + 1),
                            w0,
                            self.packet_works@,
                        ));
                    }
                }
                match self.packet_works[id] {
                    Some(bits) => {
                        let c = special_works_cost(&bits, &self.graph);
                        proof {
                            assert(ids@.take(k + 1).drop_last() == ids@.take(k as int));
                            assert(ids@.take(k + 1).last() == id);
                        }
                        t_a = t_a + c;
                    },
                    None => {
                        proof {
                            assert(ids@[k as int] == id);
                            assert(first_unknown(ids@.take(k + 1), w0, k as int));
                            assert(first_unknown(ids@, w0, k as int));
                        }
                        return Err(id);
                    },
                }
                k = k + 1;
            }
            proof {
                assert(ids@.take(ids@.len() as int) == ids@);
            }
        }
        assert(t_a == self.call_time(core_id, node_id, s, ids@, self.packet_works@) - 0) by {
            assert(h0 == history_views(old(self).packet_history@));
        }
        let entry = PacketHistory { start_t: t, end_t: t + t_a, core_id };
        let ghost w1 = self.packet_works;
        let ghost log_mid = self.interactor.log();
        proof {
            if node_id == SPECIAL_NODE_ID {
                assert(log_mid == old(self).interactor.log() + works_queries(t, ids@, old(self).packet_works@, self.packet_works@));
            } else {
                assert(log_mid == old(self).interactor.log() + Seq::<Exchange>::empty());
            }
        }
        let mut k: usize = 0;
        while k < ids.len()
            invariant
                k <= ids@.len(),
                self.packet_history@.len() == self.n,
                h0.len() == self.n,
                self.packets@.len() == self.n,
                self.packet_works@.len() == self.n,
                self.core_last_t@.len() == self.input.n_cores,
                core_id < self.input.n_cores,
                self.last_t == t,
                self.n == old(self).n,
                self.input == old(self).input,
                self.graph == old(self).graph,
                self.packets == old(self).packets,
                self.core0_last_t == old(self).core0_last_t,
                self.core_last_t == old(self).core_last_t,
                self.task_logs == old(self).task_logs,
                self.packet_works == w1,
                self.interactor.log() == log_mid,
                forall|j: int| 0 <= j < ids@.len() ==> #[trigger] ids@[j] < self.n,
                history_views(self.packet_history@) == pushed(h0, ids@.take(k as int), entry),
            decreases ids@.len() - k,
        {
            let id = ids[k];
            proof {
                assert(ids@.take(k + 1).drop_last() == ids@.take(k as int));
                assert(ids@.take(k + 1).last() == id);
                assert forall|j: int| 0 <= j < ids@.take(k as int).len() implies #[trigger] ids@.take(k as int)[j] < h0.len() by {
                    assert(ids@.take(k as int)[j] == ids@[j]);
                }
                lemma_pushed_len(h0, ids@.take(k as int), entry, id);
            }
            self.packet_history[id].push(entry);
            proof {
                assert(history_views(self.packet_history@) =~= pushed(h0, ids@.take(k + 1), entry));
            }
            k = k + 1;
        }
        proof {
            assert(ids@.take(ids@.len() as int) == ids@);
            lemma_pushed_len(h0, ids@, entry, ids@[0]);
            assert(ids@.contains(ids@[0]));
        }
        self.core_last_t.set(core_id, t + t_a);
        let first = ids[0];
        let packet_type = match &self.packets[first] {
            Some(p) => p.packet_type,
            None => 0,
        };
        let path_index = self.packet_history[first].len() - 1;
        self.task_logs.push(
            TaskLog {
                core_id,
                start_t: t,
                end_t: t + t_a,
                node_id,
                batch_size: ids.len(),
                packet_type,
                path_index,
            },
        );
        self.interactor.send_execute(t, core_id, node_id, s, ids);
        Ok(())
    }
    /// The integer measures the score is computed from; every packet has been
    /// received and has gone through its whole path.
    pub fn score_counts(&self) -> (r: ScoreCounts)
        requires
            self.wf(),
            self.graph.wf(),
            history_complete(self.packet_history@, self.n as nat, self.packets@, self.graph),
        ensures
            r.max_departure == max_departure(self.packet_history@, self.n as int, 0),
            r.min_arrive == min_arrive(self.packets@, self.n as int, i64::MAX as int),
            r.timeout_packets == timeout_count(self.packet_history@, self.packets@, self.n as int),
    {
        history_score_counts(&self.packet_history, self.n, &self.packets, &self.graph)
    }

    /// Tells the judge the subtask is done, and gives the measures of the run.
    pub fn send_finish(&mut self) -> (r: ScoreCounts)
        requires
            old(self).wf(),
            old(self).graph.wf(),
            history_complete(old(self).packet_history@, old(self).n as nat, old(self).packets@, old(self).graph),
        ensures
            r.max_departure == max_departure(old(self).packet_history@, old(self).n as int, 0),
            r.min_arrive == min_arrive(old(self).packets@, old(self).n as int, i64::MAX as int),
            r.timeout_packets == timeout_count(old(self).packet_history@, old(self).packets@, old(self).n as int),
            final(self).n == old(self).n,
            final(self).packets == old(self).packets,
            final(self).packet_history == old(self).packet_history,
            final(self).task_logs == old(self).task_logs,
            final(self).interactor.log() == old(self).interactor.log().push(Exchange::Finish),
    {
        let r = self.score_counts();
        self.interactor.send_finish();
        r
    }
}

} // verus!
