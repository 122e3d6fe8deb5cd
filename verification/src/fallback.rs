//! A simple scheduler for when time runs short: it receives every packet at
//! once, cuts each type into fixed-size batches dealt out to the cores in
//! turn, and each core runs its batches node by node, as a stack.
use vstd::prelude::*;

use crate::greedy::{count_event, handled_before, special_cost_ok, Event, EventQueue};
use crate::run::{clock_step, core_step, lemma_count_push, lemma_count_zero, resumes_after_call, special_works_cost, works_cost, Command, Reply, STEP_SPAN, RUN_TIME_CAP};
use crate::types::{Graph, Input, Packet, LAST_PACKET_T, MAX_COST, MAX_PACKETS, MAX_TIME, N_NODE, N_PACKET_TYPE, N_SPECIAL, SPECIAL_NODE_ID, node_wf, path_wf};

verus! {

/// Batch size of each packet type.
pub const FALLBACK_BATCH_SIZES: [usize; 7] = [49, 49, 49, 8, 8, 49, 49];

/// When the fallback scheduler receives its packets.
pub const FALLBACK_START_T: i64 = LAST_PACKET_T + 10;

pub open spec fn fallback_batch(packet_type: int) -> int {
    if packet_type == 3 || packet_type == 4 {
        8
    } else {
        49
    }
}

/// The packets of `ps` of type `t`, in order.
pub open spec fn group_of(ps: Seq<Packet>, t: int) -> Seq<Packet>
    decreases ps.len(),
{
    if ps.len() == 0 {
        seq![]
    } else {
        let g = group_of(ps.drop_last(), t);
        if ps.last().packet_type == t {
            g.push(ps.last())
        } else {
            g
        }
    }
}

/// `g` cut into runs of `size`, the last one shorter.
pub open spec fn cut(g: Seq<Packet>, size: int) -> Seq<Seq<Packet>>
    decreases g.len(),
{
    if g.len() == 0 || size <= 0 {
        seq![]
    } else if g.len() <= size {
        seq![g]
    } else {
        seq![g.take(size)] + cut(g.skip(size), size)
    }
}

/// A batch as its type, its packets and its position on the path.
pub open spec fn batch_view(b: FallbackTask) -> (usize, Seq<Packet>, usize) {
    (b.packet_type, b.ps@, b.path_index)
}

pub open spec fn batches_view(bs: Seq<FallbackTask>) -> Seq<(usize, Seq<Packet>, usize)> {
    bs.map_values(|b: FallbackTask| batch_view(b))
}

/// The batches of type `t`: its packets cut into runs of its batch size, at the start of the path.
pub open spec fn type_batches(ps: Seq<Packet>, t: int) -> Seq<(usize, Seq<Packet>, usize)> {
    cut(group_of(ps, t), fallback_batch(t)).map_values(|c: Seq<Packet>| (t as usize, c, 0usize))
}

/// The batches of the types below `t`, type by type.
pub open spec fn dealt(ps: Seq<Packet>, t: int) -> Seq<(usize, Seq<Packet>, usize)>
    decreases t,
{
    if t <= 0 {
        seq![]
    } else {
        dealt(ps, t - 1) + type_batches(ps, t - 1)
    }
}

/// The items of `s` at the positions that are `c` modulo `nc`: what core `c`
/// gets when `s` is dealt out to `nc` cores in turn.
pub open spec fn share<T>(s: Seq<T>, c: int, nc: int) -> Seq<T>
    decreases s.len(),
{
    if s.len() == 0 {
        seq![]
    } else {
        let p = share(s.drop_last(), c, nc);
        if (s.len() - 1) % nc == c {
            p.push(s.last())
        } else {
            p
        }
    }
}

/// Every node takes a whole fallback batch of each type whose path it is on.
pub open spec fn fallback_fits(graph: Graph) -> bool {
    &&& graph.wf()
    &&& forall|t: int, k: int|
        0 <= t < N_PACKET_TYPE && 0 <= k < graph.path_len(t) ==> #[trigger] graph.max_batch(
            graph.node_at(t, k) as int,
        ) >= fallback_batch(t)
}

pub struct FallbackSolver;

/// Some packet of `v` is of type `t`.
pub open spec fn has_type(v: Seq<Packet>, t: int) -> bool {
    exists|k: int| 0 <= k < v.len() && #[trigger] v[k].packet_type == t
}

/// A batch of packets of one type, at a position of their path.
#[derive(Clone, Debug)]
pub struct FallbackTask {
    pub packet_type: usize,
    pub ps: Vec<Packet>,
    pub path_index: usize,
}

impl FallbackTask {
    pub open spec fn wf(&self, n: nat, graph: Graph) -> bool {
        &&& self.packet_type < N_PACKET_TYPE
        &&& self.path_index < graph.path_len(self.packet_type as int)
        &&& 1 <= self.ps@.len() <= fallback_batch(self.packet_type as int)
        &&& forall|k: int| 0 <= k < self.ps@.len() ==> (#[trigger] self.ps@[k]).i < n
    }
}

/// What the fallback scheduler waits for.
pub enum FallbackPhase {
    Start,
    Receiving,
    Running,
    Querying { t: i64, core_id: usize, packet_id: usize },
    Finished,
}

pub struct FallbackRun {
    pub n: usize,
    /// tasks[core_id] := the batches of core_id, the last one next
    pub tasks: Vec<Vec<FallbackTask>>,
    pub special_costs: Vec<Option<i64>>,
    pub queue: EventQueue,
    pub phase: FallbackPhase,
    pub horizon: i64,
    /// The time of the event last taken from the queue: no pending event is
    /// due earlier.
    pub now: Ghost<int>,
    /// When the last call sent to each core ends, as the scheduler times it.
    pub busy_until: Ghost<Seq<int>>,
}

impl FallbackRun {
    pub open spec fn inv(&self, input: Input, graph: Graph) -> bool {
        &&& self.inv_base(input, graph)
        &&& self.pending_ok(input)
    }

    /// Every core with batches left, unless it waits for an answer or the
    /// packets are not in yet, has its resume pending.
    pub open spec fn pending_ok(&self, input: Input) -> bool {
        self.phase is Receiving || self.pending_except(
            input,
            match self.phase {
                FallbackPhase::Querying { core_id, .. } => core_id as int,
                _ => -1,
            },
        )
    }

    /// Every core but `ex` with batches left has its resume pending.
    pub open spec fn pending_except(&self, input: Input, ex: int) -> bool {
        forall|c: int|
            0 <= c < input.n_cores && (#[trigger] self.tasks@[c])@.len() > 0 && c != ex ==> count_event(
                self.queue.items@,
                Event::ResumeCore(c as usize),
            ) == 1
    }

    pub open spec fn inv_base(&self, input: Input, graph: Graph) -> bool {
        &&& input.wf()
        &&& fallback_fits(graph)
        &&& self.n <= MAX_PACKETS
        &&& self.tasks@.len() == input.n_cores
        &&& forall|c: int, k: int|
            0 <= c < input.n_cores && 0 <= k < self.tasks@[c]@.len() ==> (#[trigger] self.tasks@[c]@[k]).wf(
                self.n as nat,
                graph,
            )
        &&& self.special_costs@.len() == self.n
        &&& forall|i: int| 0 <= i < self.n ==> special_cost_ok(#[trigger] self.special_costs@[i])
        &&& 0 <= self.horizon
        &&& forall|k: int|
            0 <= k < self.queue.items@.len() ==> {
                let item = #[trigger] self.queue.items@[k];
                &&& 0 <= item.0 <= self.horizon
                &&& item.1 matches Event::ResumeCore(c) && c < input.n_cores
            }
        &&& 0 <= self.now@
        &&& forall|k: int| 0 <= k < self.queue.items@.len() ==> self.now@ <= (#[trigger] self.queue.items@[k]).0
        &&& self.busy_until@.len() == input.n_cores
        &&& forall|k: int|
            0 <= k < self.queue.items@.len() ==> resumes_after_call(#[trigger] self.queue.items@[k], self.busy_until@)
        &&& forall|c: int| 0 <= c < input.n_cores ==> #[trigger] count_event(self.queue.items@, Event::ResumeCore(c as usize)) <= 1
        &&& match self.phase {
            FallbackPhase::Start => {
                &&& self.queue.items@.len() == 0
                &&& self.now@ == 0
                &&& forall|c: int| 0 <= c < input.n_cores ==> #[trigger] self.busy_until@[c] <= self.now@
            },
            FallbackPhase::Receiving => {
                &&& self.queue.items@.len() == 0
                &&& self.now@ == FALLBACK_START_T
                &&& forall|c: int| 0 <= c < input.n_cores ==> #[trigger] self.busy_until@[c] <= self.now@
            },
            FallbackPhase::Querying { t, core_id, packet_id } => {
                &&& 0 <= t <= self.horizon
                &&& t == self.now@
                &&& self.busy_until@[core_id as int] <= t
                &&& count_event(self.queue.items@, Event::ResumeCore(core_id)) == 0
                &&& core_id < input.n_cores
                &&& self.tasks@[core_id as int]@.len() > 0
                &&& packet_id < self.n
                &&& self.special_costs@[packet_id as int] is None
            },
            _ => true,
        }
    }

    /// Whether `reply` answers the last command: the packets, all of them,
    /// at least one of each type; any works; else `Ready`.
    pub open spec fn fits(&self, reply: Reply) -> bool {
        match self.phase {
            FallbackPhase::Receiving => reply matches Reply::Packets(opt) && opt matches Some(v) && (forall|k: int|
                0 <= k < v@.len() ==> (#[trigger] v@[k]).wf(self.n as nat)) && forall|t: int|
                0 <= t < N_PACKET_TYPE ==> #[trigger] has_type(v@, t),
            FallbackPhase::Querying { .. } => reply is Works,
            _ => reply is Ready,
        }
    }
}

impl FallbackSolver {
    pub fn start(&self, n: usize, input: &Input, graph: &Graph) -> (run: FallbackRun)
        requires
            input.wf(),
            fallback_fits(*graph),
            n <= MAX_PACKETS,
        ensures
            run.inv(*input, *graph),
            run.n == n,
            run.phase is Start,
            forall|c: int| 0 <= c < input.n_cores ==> (#[trigger] run.tasks@[c])@.len() == 0,
            forall|i: int| 0 <= i < n ==> (#[trigger] run.special_costs@[i]) is None,
            run.now@ == 0,
            run.busy_until@ == Seq::new(input.n_cores as nat, |c: int| 0int),
    {
        let mut tasks: Vec<Vec<FallbackTask>> = Vec::new();
        let mut c: usize = 0;
        while c < input.n_cores
            invariant
                c <= input.n_cores,
                tasks@.len() == c,
                forall|j: int| 0 <= j < c ==> (#[trigger] tasks@[j])@.len() == 0,
            decreases input.n_cores - c,
        {
            tasks.push(Vec::new());
            c = c + 1;
        }
        let mut special_costs: Vec<Option<i64>> = Vec::new();
        let mut i: usize = 0;
        while i < n
            invariant
                i <= n,
                special_costs@.len() == i,
                forall|j: int| 0 <= j < i ==> (#[trigger] special_costs@[j]) is None,
            decreases n - i,
        {
            special_costs.push(None);
            i = i + 1;
        }
        FallbackRun { n, tasks, special_costs, queue: EventQueue::new(), phase: FallbackPhase::Start, horizon: 0, now: Ghost(0), busy_until: Ghost(Seq::new(input.n_cores as nat, |c: int| 0int)) }
    }
}


impl FallbackRun {
    /// Deals the received packets out: each type is cut into batches of its
    /// batch size, in the order received, and the batches go to the cores in
    /// turn; every core then resumes once the packets are in.
    fn distribute(&mut self, packets: Vec<Packet>, input: &Input, graph: &Graph)
        requires
            old(self).inv(*input, *graph),
            old(self).phase is Receiving,
            forall|k: int| 0 <= k < packets@.len() ==> (#[trigger] packets@[k]).wf(old(self).n as nat),
            forall|t: int| 0 <= t < N_PACKET_TYPE ==> #[trigger] has_type(packets@, t),
            old(self).horizon <= RUN_TIME_CAP,
        ensures
            final(self).busy_until == old(self).busy_until,
            final(self).now == old(self).now,
            final(self).inv(*input, *graph),
            final(self).n == old(self).n,
            final(self).phase is Running,
            final(self).special_costs == old(self).special_costs,
            forall|c: int|
                0 <= c < input.n_cores ==> batches_view(#[trigger] final(self).tasks@[c]@) == batches_view(old(self).tasks@[c]@)
                    + share(dealt(packets@, N_PACKET_TYPE as int), c, input.n_cores as int),
    {
        let ghost n = self.n as nat;
        let ghost nc = input.n_cores as int;
        let mut groups: Vec<Vec<Packet>> = Vec::new();
        let mut t: usize = 0;
        while t < N_PACKET_TYPE
            invariant
                t <= N_PACKET_TYPE,
                groups@.len() == t,
                forall|u: int|
                    0 <= u < t ==> {
                        &&& (#[trigger] groups@[u])@.len() > 0
                        &&& groups@[u]@ == group_of(packets@, u)
                        &&& forall|k: int|
                            0 <= k < groups@[u]@.len() ==> groups@[u]@[k].packet_type == u && groups@[u]@[k].i < n
                    },
                forall|k: int| 0 <= k < packets@.len() ==> (#[trigger] packets@[k]).wf(n),
                forall|u: int| 0 <= u < N_PACKET_TYPE ==> #[trigger] has_type(packets@, u),
            decreases N_PACKET_TYPE - t,
        {
            let mut group: Vec<Packet> = Vec::new();
            let mut k: usize = 0;
            while k < packets.len()
                invariant
                    t < N_PACKET_TYPE,
                    k <= packets@.len(),
                    forall|j: int| 0 <= j < packets@.len() ==> (#[trigger] packets@[j]).wf(n),
                    forall|j: int| 0 <= j < group@.len() ==> (#[trigger] group@[j]).packet_type == t && group@[j].i < n,
                    group@.len() == 0 ==> forall|j: int| 0 <= j < k ==> (#[trigger] packets@[j]).packet_type != t,
                    group@ == group_of(packets@.take(k as int), t as int),
                decreases packets@.len() - k,
            {
                proof {
                    assert(packets@.take(k + 1).drop_last() == packets@.take(k as int));
                    assert(packets@.take(k + 1).last() == packets@[k as int]);
                }
                if packets[k].packet_type == t {
                    group.push(packets[k]);
                }
                k = k + 1;
            }
            proof {
                assert(packets@.take(packets@.len() as int) == packets@);
                assert(has_type(packets@, t as int));
                let w = choose|k: int| 0 <= k < packets@.len() && #[trigger] packets@[k].packet_type == t as int;
                if group@.len() == 0 {
                    assert(packets@[w].packet_type != t);
                }
            }
            groups.push(group);
            t = t + 1;
        }
        let sizes = FALLBACK_BATCH_SIZES;
        let ghost old_tasks = self.tasks@;
        let ghost mut emitted: Seq<(usize, Seq<Packet>, usize)> = seq![];
        let ghost mut rounds: int = 0;
        let mut core_id: usize = 0;
        let mut t: usize = 0;
        while t < N_PACKET_TYPE
            invariant
                self.inv_base(*input, *graph),
                self.n == n,
                self.phase is Receiving,
                self.now == old(self).now,
                self.busy_until == old(self).busy_until,
                self.special_costs == old(self).special_costs,
                nc == input.n_cores,
                sizes@ == seq![49usize, 49, 49, 8, 8, 49, 49],
                t <= N_PACKET_TYPE,
                self.horizon == old(self).horizon,
                core_id < input.n_cores,
                groups@.len() == N_PACKET_TYPE,
                forall|u: int|
                    0 <= u < N_PACKET_TYPE ==> {
                        &&& (#[trigger] groups@[u])@.len() > 0
                        &&& groups@[u]@ == group_of(packets@, u)
                        &&& forall|k: int|
                            0 <= k < groups@[u]@.len() ==> groups@[u]@[k].packet_type == u && groups@[u]@[k].i < n
                    },
                emitted == dealt(packets@, t as int),
                emitted.len() == rounds * nc + core_id,
                old_tasks == old(self).tasks@,
                forall|c: int|
                    0 <= c < nc ==> batches_view(#[trigger] self.tasks@[c]@) == batches_view(old_tasks[c]@) + share(emitted, c, nc),
            decreases N_PACKET_TYPE - t,
        {
            let group = &groups[t];
            let p_type = group[0].packet_type;
            let size = sizes[p_type];
            let ghost g = group@;
            let ghost start = emitted;
            proof {
                assert(g.skip(0) =~= g);
            }
            let mut i: usize = 0;
            while i < group.len()
                invariant
                    self.inv_base(*input, *graph),
                    self.n == n,
                    self.phase is Receiving,
                    self.now == old(self).now,
                    self.busy_until == old(self).busy_until,
                    self.special_costs == old(self).special_costs,
                    nc == input.n_cores,
                    p_type == t,
                    t < N_PACKET_TYPE,
                    i <= group@.len(),
                    g == group@,
                    self.horizon == old(self).horizon,
                    size == fallback_batch(t as int),
                    core_id < input.n_cores,
                    forall|k: int| 0 <= k < group@.len() ==> (#[trigger] group@[k]).packet_type == t && group@[k].i < n,
                    start + cut(g, size as int).map_values(|c: Seq<Packet>| (t as usize, c, 0usize)) == emitted + cut(
                        g.skip(i as int),
                        size as int,
                    ).map_values(|c: Seq<Packet>| (t as usize, c, 0usize)),
                    emitted.len() == rounds * nc + core_id,
                    forall|c: int|
                        0 <= c < nc ==> batches_view(#[trigger] self.tasks@[c]@) == batches_view(old_tasks[c]@) + share(emitted, c, nc),
                decreases group@.len() - i,
            {
                let end = if group.len() - i > size {
                    i + size
                } else {
                    group.len()
                };
                let mut ps: Vec<Packet> = Vec::new();
                let mut j: usize = i;
                while j < end
                    invariant
                        i <= j <= end <= group@.len(),
                        ps@.len() == j - i,
                        ps@ == group@.subrange(i as int, j as int),
                        forall|k: int| 0 <= k < group@.len() ==> (#[trigger] group@[k]).i < n,
                        forall|k: int| 0 <= k < ps@.len() ==> (#[trigger] ps@[k]).i < n,
                    decreases end - j,
                {
                    ps.push(group[j]);
                    proof {
                        assert(ps@ =~= group@.subrange(i as int, j + 1));
                    }
                    j = j + 1;
                }
                let task = FallbackTask { packet_type: p_type, ps, path_index: 0 };
                proof {
                    assert(path_wf(graph.paths@[t as int]));
                    let rest = g.skip(i as int);
                    assert(rest.len() > 0);
                    if rest.len() <= size {
                        assert(cut(rest, size as int) == seq![rest]);
                        assert(task.ps@ =~= rest);
                        assert(g.skip(end as int) =~= Seq::<Packet>::empty());
                        assert(cut(g.skip(end as int), size as int) == Seq::<Seq<Packet>>::empty());
                    } else {
                        assert(cut(rest, size as int) == seq![rest.take(size as int)] + cut(rest.skip(size as int), size as int));
                        assert(task.ps@ =~= rest.take(size as int));
                        assert(rest.skip(size as int) =~= g.skip(end as int));
                    }
                    let m = |c: Seq<Packet>| (t as usize, c, 0usize);
                    assert(cut(rest, size as int).map_values(m) =~= seq![(t as usize, task.ps@, 0usize)] + cut(
                        g.skip(end as int),
                        size as int,
                    ).map_values(m));
                }
                let ghost before = self.tasks@;
                let ghost e0 = emitted;
                proof {
                    emitted = emitted.push((t as usize, task.ps@, 0usize));
                    assert(start + cut(g, size as int).map_values(|c: Seq<Packet>| (t as usize, c, 0usize)) =~= emitted + cut(
                        g.skip(end as int),
                        size as int,
                    ).map_values(|c: Seq<Packet>| (t as usize, c, 0usize)));
                    vstd::arithmetic::div_mod::lemma_fundamental_div_mod_converse(e0.len() as int, nc, rounds, core_id as int);
                }
                let ghost tv = batch_view(task);
                let mut core_tasks: Vec<FallbackTask> = Vec::new();
                core::mem::swap(&mut core_tasks, &mut self.tasks[core_id]);
                core_tasks.push(task);
                self.tasks[core_id] = core_tasks;
                proof {
                    assert forall|c: int, k: int|
                        0 <= c < input.n_cores && 0 <= k < self.tasks@[c]@.len() implies (#[trigger] self.tasks@[c]@[k]).wf(
                            self.n as nat,
                            *graph,
                        ) by {
                        if c != core_id {
                            assert(self.tasks@[c] == before[c]);
                        } else if k < before[c]@.len() {
                            assert(self.tasks@[c]@[k] == before[c]@[k]);
                        }
                    }
                    assert(emitted.drop_last() == e0);
                    assert forall|c: int| 0 <= c < nc implies batches_view(#[trigger] self.tasks@[c]@) == batches_view(old_tasks[c]@)
                        + share(emitted, c, nc) by {
                        if c == core_id {
                            assert(batches_view(self.tasks@[c]@) =~= batches_view(before[c]@).push(tv));
                            assert(share(emitted, c, nc) == share(e0, c, nc).push(tv));
                            assert(batches_view(old_tasks[c]@) + share(e0, c, nc).push(tv) =~= (batches_view(old_tasks[c]@)
                                + share(e0, c, nc)).push(tv));
                        } else {
                            assert(self.tasks@[c] == before[c]);
                            assert(share(emitted, c, nc) == share(e0, c, nc));
                        }
                    }
                }
                if core_id + 1 < input.n_cores {
                    core_id = core_id + 1;
                } else {
                    core_id = 0;
                    proof {
                        assert((rounds + 1) * nc == rounds * nc + nc) by (nonlinear_arith);
                        rounds = rounds + 1;
                    }
                }
                i = end;
            }
            proof {
                assert(g.skip(g.len() as int) =~= Seq::<Packet>::empty());
                assert(cut(g.skip(g.len() as int), size as int) == Seq::<Seq<Packet>>::empty());
                assert(emitted =~= start + type_batches(packets@, t as int));
            }
            t = t + 1;
        }
        let ghost dealt_tasks = self.tasks@;
        proof {
            assert forall|c2: int| 0 <= c2 < input.n_cores implies #[trigger] self.busy_until@[c2] <= self.now@ by {}
        }
        self.phase = FallbackPhase::Running;
        let mut c: usize = 0;
        while c < input.n_cores
            invariant
                self.inv_base(*input, *graph),
                self.n == n,
                self.phase is Running,
                self.now@ == FALLBACK_START_T,
                forall|c2: int| 0 <= c2 < input.n_cores ==> #[trigger] self.busy_until@[c2] <= self.now@,
                forall|c2: int|
                    0 <= c2 < input.n_cores ==> #[trigger] count_event(self.queue.items@, Event::ResumeCore(c2 as usize)) == if c2 < c {
                        1int
                    } else {
                        0int
                    },
                self.now == old(self).now,
                self.busy_until == old(self).busy_until,
                self.special_costs == old(self).special_costs,
                c <= input.n_cores,
                self.horizon <= RUN_TIME_CAP,
                self.tasks@ == dealt_tasks,
            decreases input.n_cores - c,
        {
            let t0 = FALLBACK_START_T + input.cost_r;
            let ghost q0 = self.queue.items@;
            self.queue.push((t0, Event::ResumeCore(c)));
            if t0 > self.horizon {
                self.horizon = t0;
            }
            proof {
                assert forall|c2: int| 0 <= c2 < input.n_cores implies #[trigger] count_event(self.queue.items@, Event::ResumeCore(c2 as usize))
                    == if c2 < c + 1 {
                    1int
                } else {
                    0int
                } by {
                    lemma_count_push(q0, (t0, Event::ResumeCore(c)), Event::ResumeCore(c2 as usize));
                }
            }
            c = c + 1;
        }
    }
}

/// The time a fallback batch takes at a node: the node's cost, the special
/// works at the special node, and the switch off core 0 at the first node.
pub open spec fn fallback_duration(graph: Graph, input: Input, task: FallbackTask, costs: Seq<Option<i64>>) -> int {
    let node = graph.node_at(task.packet_type as int, task.path_index as int) as int;
    let s = task.ps@.len() as int;
    graph.cost(node, s) + (if node == SPECIAL_NODE_ID {
        known_cost(task.ps@, costs)
    } else {
        0
    }) + (if task.path_index == 0 {
        input.cost_switch * s
    } else {
        0
    })
}

/// The known special costs of `ps`.
pub open spec fn known_cost(ps: Seq<Packet>, costs: Seq<Option<i64>>) -> int
    decreases ps.len(),
{
    if ps.len() == 0 {
        0
    } else {
        known_cost(ps.drop_last(), costs) + (if costs[ps.last().i as int] is Some {
            costs[ps.last().i as int]->0 as int
        } else {
            0int
        })
    }
}

proof fn lemma_known_cost_bound(ps: Seq<Packet>, costs: Seq<Option<i64>>)
    requires
        forall|k: int| 0 <= k < ps.len() ==> (#[trigger] ps[k]).i < costs.len(),
        forall|i: int| 0 <= i < costs.len() ==> special_cost_ok(#[trigger] costs[i]),
    ensures
        0 <= known_cost(ps, costs) <= ps.len() * (N_SPECIAL * MAX_COST),
    decreases ps.len(),
{
    if ps.len() > 0 {
        let q = ps.drop_last();
        assert forall|k: int| 0 <= k < q.len() implies (#[trigger] q[k]).i < costs.len() by {
            assert(q[k] == ps[k]);
        }
        lemma_known_cost_bound(q, costs);
        assert(ps.last() == ps[ps.len() - 1]);
        assert(special_cost_ok(costs[ps.last().i as int]));
        assert(q.len() * (N_SPECIAL * MAX_COST) + N_SPECIAL * MAX_COST == ps.len() * (N_SPECIAL * MAX_COST)) by (nonlinear_arith)
            requires
                q.len() + 1 == ps.len(),
        ;
    }
}

/// The batches of a core once its next batch ran: that batch moves on to
/// the next node of its path, or is done at the path's end.
pub open spec fn after_run(core_tasks: Seq<FallbackTask>, graph: Graph) -> Seq<FallbackTask> {
    let task = core_tasks.last();
    if task.path_index + 1 < graph.paths@[task.packet_type as int].l {
        core_tasks.drop_last().push(
            FallbackTask { packet_type: task.packet_type, ps: task.ps, path_index: (task.path_index + 1) as usize },
        )
    } else {
        core_tasks.drop_last()
    }
}

/// What the fallback scheduler does on the event `item` taken from its
/// queue: a core with no batch left stays idle; else, at the event's time,
/// its next batch runs, or the works of one of its packets are asked for.
pub open spec fn fallback_handles(item: (i64, Event), cmd: Command, tasks: Seq<Vec<FallbackTask>>) -> bool {
    item.1 matches Event::ResumeCore(c) && {
        &&& tasks[c as int]@.len() == 0 ==> cmd is Nothing
        &&& tasks[c as int]@.len() > 0 ==> ((cmd matches Command::Execute { t, core_id, .. } && t == item.0
            && core_id == c) || (cmd matches Command::QueryWorks { t, .. } && t == item.0))
    }
}

/// A call on `core_id` leaves the other cores' batches as they were and
/// moves the core's next batch on.
pub open spec fn ran_on(before: Seq<Vec<FallbackTask>>, after: Seq<Vec<FallbackTask>>, core_id: int, graph: Graph) -> bool {
    &&& after.len() == before.len()
    &&& forall|c: int| 0 <= c < after.len() && c != core_id ==> #[trigger] after[c] == before[c]
    &&& after[core_id]@ == after_run(before[core_id]@, graph)
}

/// A node call runs the next batch of its core, whole, at the node its path is at.
pub open spec fn runs_next_batch(cmd: Command, tasks: Seq<Vec<FallbackTask>>, graph: Graph) -> bool {
    cmd matches Command::Execute { core_id, node_id, ids, .. } ==> (tasks[core_id as int]@.len() > 0 && node_id
        == graph.node_at(tasks[core_id as int]@.last().packet_type as int, tasks[core_id as int]@.last().path_index as int)
        && ids@ == tasks[core_id as int]@.last().ps@.map_values(|p: Packet| p.i))
}

impl FallbackRun {
    /// Runs the next batch of `core_id` at `t`, once the works of its packets
    /// are known at the special node; the batch goes on to its next node.
    fn continue_core(&mut self, core_id: usize, t: i64, input: &Input, graph: &Graph) -> (cmd: Command)
        requires
            t == old(self).now@,
            old(self).busy_until@[core_id as int] <= t,
            count_event(old(self).queue.items@, Event::ResumeCore(core_id)) == 0,
            old(self).inv_base(*input, *graph),
            old(self).pending_except(*input, core_id as int),
            old(self).phase is Running,
            core_id < input.n_cores,
            old(self).tasks@[core_id as int]@.len() > 0,
            0 <= t <= old(self).horizon,
            old(self).horizon <= RUN_TIME_CAP,
        ensures
            final(self).now == old(self).now,
            cmd is QueryWorks ==> final(self).busy_until == old(self).busy_until,
            cmd is Execute ==> t <= final(self).busy_until@[core_id as int],
            cmd is Execute ==> final(self).busy_until@ == old(self).busy_until@.update(
                core_id as int,
                t + fallback_duration(*graph, *input, old(self).tasks@[core_id as int]@.last(), old(self).special_costs@),
            ),
            final(self).inv(*input, *graph),
            final(self).n == old(self).n,
            final(self).special_costs == old(self).special_costs,
            old(self).horizon <= final(self).horizon <= old(self).horizon + STEP_SPAN,
            cmd is QueryWorks ==> final(self).tasks == old(self).tasks && final(self).queue == old(self).queue,
            cmd is Execute ==> ran_on(old(self).tasks@, final(self).tasks@, core_id as int, *graph),
            cmd matches Command::QueryWorks { t: t2, packet_id } ==> t2 == t && final(self).phase == (FallbackPhase::Querying { t, core_id, packet_id })
                && old(self).special_costs@[packet_id as int] is None && graph.node_at(
                old(self).tasks@[core_id as int]@.last().packet_type as int,
                old(self).tasks@[core_id as int]@.last().path_index as int,
            ) == SPECIAL_NODE_ID,
            cmd matches Command::Execute { t: t2, core_id: c, node_id, ids } ==> {
                let task = old(self).tasks@[core_id as int]@.last();
                &&& t2 == t && c == core_id && final(self).phase is Running
                &&& node_id == graph.node_at(task.packet_type as int, task.path_index as int)
                &&& ids@ == task.ps@.map_values(|p: Packet| p.i)
                &&& final(self).queue.items@ == old(self).queue.items@.push((
                    (t + fallback_duration(*graph, *input, task, old(self).special_costs@)) as i64,
                    Event::ResumeCore(core_id),
                ))
            },
            cmd is QueryWorks || cmd is Execute,
    {
        let ghost n = self.n as nat;
        let last = self.tasks[core_id].len() - 1;
        let task = &self.tasks[core_id][last];
        proof {
            assert(task.wf(n, *graph));
            assert(path_wf(graph.paths@[task.packet_type as int]));
        }
        let node_id = graph.paths[task.packet_type].path[task.path_index];
        if node_id == SPECIAL_NODE_ID {
            let mut k: usize = 0;
            while k < task.ps.len()
                invariant
                    k <= task.ps@.len(),
                    forall|j: int| 0 <= j < task.ps@.len() ==> (#[trigger] task.ps@[j]).i < self.special_costs@.len(),
                    forall|j: int| 0 <= j < k ==> self.special_costs@[(#[trigger] task.ps@[j]).i as int] is Some,
                ensures
                    k <= task.ps@.len(),
                    forall|j: int| 0 <= j < k ==> self.special_costs@[(#[trigger] task.ps@[j]).i as int] is Some,
                    k < task.ps@.len() ==> self.special_costs@[task.ps@[k as int].i as int] is None,
                decreases task.ps@.len() - k,
            {
                if self.special_costs[task.ps[k].i].is_none() {
                    break;
                }
                k = k + 1;
            }
            if k < task.ps.len() {
                let packet_id = task.ps[k].i;
                self.phase = FallbackPhase::Querying { t, core_id, packet_id };
                return Command::QueryWorks { t, packet_id };
            }
        }
        self.execute(core_id, t, node_id, input, graph)
    }

    fn execute(&mut self, core_id: usize, t: i64, node_id: usize, input: &Input, graph: &Graph) -> (cmd: Command)
        requires
            t == old(self).now@,
            old(self).busy_until@[core_id as int] <= t,
            count_event(old(self).queue.items@, Event::ResumeCore(core_id)) == 0,
            old(self).inv_base(*input, *graph),
            old(self).pending_except(*input, core_id as int),
            old(self).phase is Running,
            core_id < input.n_cores,
            old(self).tasks@[core_id as int]@.len() > 0,
            node_id == graph.node_at(old(self).tasks@[core_id as int]@.last().packet_type as int, old(self).tasks@[core_id as int]@.last().path_index as int),
            node_id == SPECIAL_NODE_ID ==> forall|j: int| 0 <= j < old(self).tasks@[core_id as int]@.last().ps@.len()
                ==> old(self).special_costs@[(#[trigger] old(self).tasks@[core_id as int]@.last().ps@[j]).i as int] is Some,
            0 <= t <= old(self).horizon,
            old(self).horizon <= RUN_TIME_CAP,
        ensures
            final(self).now == old(self).now,
            cmd is QueryWorks ==> final(self).busy_until == old(self).busy_until,
            cmd is Execute ==> t <= final(self).busy_until@[core_id as int],
            cmd is Execute ==> final(self).busy_until@ == old(self).busy_until@.update(
                core_id as int,
                t + fallback_duration(*graph, *input, old(self).tasks@[core_id as int]@.last(), old(self).special_costs@),
            ),
            final(self).inv(*input, *graph),
            final(self).n == old(self).n,
            final(self).special_costs == old(self).special_costs,
            ran_on(old(self).tasks@, final(self).tasks@, core_id as int, *graph),
            old(self).horizon <= final(self).horizon <= old(self).horizon + STEP_SPAN,
            cmd matches Command::Execute { t: t2, core_id: c, node_id: v, ids } && {
                let task = old(self).tasks@[core_id as int]@.last();
                &&& t2 == t && c == core_id && v == node_id && final(self).phase is Running
                &&& ids@ == task.ps@.map_values(|p: Packet| p.i)
                &&& final(self).queue.items@ == old(self).queue.items@.push((
                    (t + fallback_duration(*graph, *input, task, old(self).special_costs@)) as i64,
                    Event::ResumeCore(core_id),
                ))
            },
    {
        let ghost n = self.n as nat;
        let ghost before = self.tasks@;
        let mut core_tasks: Vec<FallbackTask> = Vec::new();
        core::mem::swap(&mut core_tasks, &mut self.tasks[core_id]);
        let task = core_tasks.pop().unwrap();
        let ghost costs = self.special_costs@;
        let ghost ps = task.ps@;
        proof {
            assert(task == before[core_id as int]@.last());
            assert(task.wf(n, *graph));
            assert(path_wf(graph.paths@[task.packet_type as int]));
            assert(graph.max_batch(graph.node_at(task.packet_type as int, task.path_index as int) as int) >= fallback_batch(task.packet_type as int));
            assert(node_wf(graph.nodes@[node_id as int]));
            lemma_known_cost_bound(ps, costs);
            assert(ps.len() * (N_SPECIAL * MAX_COST) <= 49 * (N_SPECIAL * MAX_COST)) by (nonlinear_arith)
                requires
                    ps.len() <= 49,
            ;
        }
        let s = task.ps.len();
        let mut extra: i64 = 0;
        let mut ids: Vec<usize> = Vec::with_capacity(s);
        let mut k: usize = 0;
        while k < s
            invariant
                k <= s,
                s == ps.len(),
                ps == task.ps@,
                s <= 49,
                costs == self.special_costs@,
                forall|j: int| 0 <= j < ps.len() ==> (#[trigger] ps[j]).i < costs.len(),
                forall|i: int| 0 <= i < costs.len() ==> special_cost_ok(#[trigger] costs[i]),
                node_id == SPECIAL_NODE_ID ==> extra == known_cost(ps.take(k as int), costs),
                node_id != SPECIAL_NODE_ID ==> extra == 0,
                node_id == SPECIAL_NODE_ID ==> forall|j: int| 0 <= j < ps.len() ==> costs[(#[trigger] ps[j]).i as int] is Some,
                ids@ == ps.take(k as int).map_values(|p: Packet| p.i),
            decreases s - k,
        {
            proof {
                let q = ps.take(k + 1);
                assert(q.drop_last() == ps.take(k as int));
                assert forall|x: int| 0 <= x < q.len() implies (#[trigger] q[x]).i < costs.len() by {
                    assert(q[x] == ps[x]);
                }
                lemma_known_cost_bound(q, costs);
                assert(q.len() * (N_SPECIAL * MAX_COST) <= 49 * (N_SPECIAL * MAX_COST)) by (nonlinear_arith)
                    requires
                        q.len() <= 49,
                ;
            }
            let id = task.ps[k].i;
            if node_id == SPECIAL_NODE_ID {
                extra = extra + self.special_costs[id].unwrap();
            }
            ids.push(id);
            proof {
                assert(ps.take(k + 1).map_values(|p: Packet| p.i) =~= ps.take(k as int).map_values(|p: Packet| p.i).push(id));
            }
            k = k + 1;
        }
        proof {
            assert(ps.take(s as int) == ps);
            assert(input.cost_switch * s <= MAX_COST * 49) by (nonlinear_arith)
                requires
                    0 <= input.cost_switch <= MAX_COST,
                    s <= 49,
            ;
            assert(input.cost_switch * s >= 0) by (nonlinear_arith)
                requires
                    0 <= input.cost_switch,
            ;
        }
        let dt = graph.nodes[node_id].costs[s] + extra;
        let switch_cost = if task.path_index == 0 {
            input.cost_switch * s as i64
        } else {
            0
        };
        let next_t = t + dt + switch_cost;
        self.busy_until = Ghost(self.busy_until@.update(core_id as int, next_t as int));
        let ghost q0 = self.queue.items@;
        self.queue.push((next_t, Event::ResumeCore(core_id)));
        if next_t > self.horizon {
            self.horizon = next_t;
        }
        proof {
            lemma_count_zero(q0, Event::ResumeCore(core_id));
            assert forall|k: int| 0 <= k < self.queue.items@.len() implies self.now@ <= (#[trigger] self.queue.items@[k]).0
                && resumes_after_call(self.queue.items@[k], self.busy_until@) by {
                if k < q0.len() {
                    assert(self.queue.items@[k] == q0[k]);
                    assert(resumes_after_call(q0[k], old(self).busy_until@));
                }
            }
            assert forall|c: int| 0 <= c < input.n_cores implies #[trigger] count_event(self.queue.items@, Event::ResumeCore(c as usize)) <= 1 by {
                lemma_count_push(q0, (next_t, Event::ResumeCore(core_id)), Event::ResumeCore(c as usize));
            }
        }
        if task.path_index + 1 < graph.paths[task.packet_type].l {
            core_tasks.push(FallbackTask { packet_type: task.packet_type, ps: task.ps, path_index: task.path_index + 1 });
        }
        self.tasks[core_id] = core_tasks;
        proof {
            assert(self.tasks@[core_id as int]@ =~= after_run(before[core_id as int]@, *graph));
            assert forall|c: int| 0 <= c < self.tasks@.len() && c != core_id implies #[trigger] self.tasks@[c] == before[c] by {}
            assert forall|c: int, k: int|
                0 <= c < input.n_cores && 0 <= k < self.tasks@[c]@.len() implies (#[trigger] self.tasks@[c]@[k]).wf(
                    self.n as nat,
                    *graph,
                ) by {
                if c != core_id {
                    assert(self.tasks@[c] == before[c]);
                } else if k < before[c]@.len() - 1 {
                    assert(self.tasks@[c]@[k] == before[c]@[k]);
                }
            }
        }
        proof {
            assert forall|c: int|
                0 <= c < input.n_cores && (#[trigger] self.tasks@[c])@.len() > 0 && c != -1 implies count_event(
                    self.queue.items@,
                    Event::ResumeCore(c as usize),
                ) == 1 by {
                lemma_count_push(q0, (next_t, Event::ResumeCore(core_id)), Event::ResumeCore(c as usize));
                if c != core_id as int {
                    assert(self.tasks@[c] == before[c]);
                }
            }
        }
        Command::Execute { t, core_id, node_id, ids }
    }

    /// One step of the fallback scheduler: it takes the earliest pending
    /// resume of a core; a core with batches left runs its next batch then,
    /// at the node its path is at, after asking once for the works of each
    /// of its packets at the special node; the core resumes when that call
    /// ends. It finishes when no core has a batch left. No command is sent
    /// earlier than one before it.
    pub fn step(&mut self, reply: Reply, input: &Input, graph: &Graph) -> (cmd: Command)
        requires
            old(self).inv(*input, *graph),
            old(self).fits(reply),
            old(self).horizon <= RUN_TIME_CAP,
        ensures
            final(self).inv(*input, *graph),
            final(self).n == old(self).n,
            clock_step(old(self).now@, cmd, final(self).now@),
            core_step(old(self).busy_until@, cmd, final(self).busy_until@),
            cmd is ReceivePackets ==> final(self).phase is Receiving,
            cmd is QueryWorks ==> final(self).phase is Querying,
            cmd is Finish ==> final(self).phase is Finished,
            (cmd is Nothing || cmd is Execute) ==> final(self).phase is Running,
            !(cmd is PlanOrder),
            runs_next_batch(cmd, old(self).tasks@, *graph),
            old(self).phase is Start ==> (cmd matches Command::ReceivePackets { t } && t == FALLBACK_START_T
                && final(self).tasks == old(self).tasks),
            old(self).phase is Running && old(self).queue.items@.len() == 0 ==> cmd is Finish && forall|c: int|
                0 <= c < input.n_cores ==> (#[trigger] old(self).tasks@[c])@.len() == 0,
            old(self).phase is Running && old(self).queue.items@.len() > 0 ==> exists|p: int|
                0 <= p < old(self).queue.items@.len() && final(self).now@ == old(self).queue.items@[p].0 && (forall|k: int|
                    0 <= k < old(self).queue.items@.len() ==> !handled_before(
                        #[trigger] old(self).queue.items@[k],
                        old(self).queue.items@[p],
                    )) && #[trigger] fallback_handles(old(self).queue.items@[p], cmd, old(self).tasks@),
            old(self).phase matches FallbackPhase::Querying { t, core_id, .. } ==> ((cmd matches Command::Execute {
                t: t2,
                core_id: c,
                ..
            } && t2 == t && c == core_id) || (cmd matches Command::QueryWorks { t: t2, .. } && t2 == t)),
            cmd matches Command::Execute { t, core_id, .. } ==> ran_on(old(self).tasks@, final(self).tasks@, core_id as int, *graph)
                && final(self).queue.items@.last() == (
                (t + fallback_duration(*graph, *input, old(self).tasks@[core_id as int]@.last(), final(self).special_costs@)) as i64,
                Event::ResumeCore(core_id),
            ),
            !(old(self).phase is Receiving) && !(cmd is Execute) ==> final(self).tasks == old(self).tasks,
            old(self).phase is Finished ==> cmd is Finish,
            cmd matches Command::QueryWorks { packet_id, .. } ==> final(self).special_costs@[packet_id as int] is None,
            forall|i: int|
                0 <= i < old(self).special_costs@.len() && #[trigger] old(self).special_costs@[i] is Some
                    ==> final(self).special_costs@[i] == old(self).special_costs@[i],
            old(self).phase is Receiving ==> (reply matches Reply::Packets(Some(v)) && forall|c: int|
                0 <= c < input.n_cores ==> batches_view(#[trigger] final(self).tasks@[c]@) == batches_view(old(self).tasks@[c]@)
                    + share(dealt(v@, N_PACKET_TYPE as int), c, input.n_cores as int)),
    {
        let mut phase = FallbackPhase::Running;
        core::mem::swap(&mut phase, &mut self.phase);
        match phase {
            FallbackPhase::Start => {
                self.phase = FallbackPhase::Receiving;
                self.now = Ghost(FALLBACK_START_T as int);
                Command::ReceivePackets { t: FALLBACK_START_T }
            },
            FallbackPhase::Receiving => {
                self.phase = FallbackPhase::Receiving;
                match reply {
                    Reply::Packets(Some(packets)) => {
                        self.distribute(packets, input, graph);
                        self.phase = FallbackPhase::Running;
                        Command::Nothing
                    },
                    _ => {
                        proof {
                            assert(false);
                        }
                        Command::Nothing
                    },
                }
            },
            FallbackPhase::Running => {
                let ghost q0 = self.queue.items@;
                match self.queue.pop() {
                    None => {
                        proof {
                            assert forall|c: int| 0 <= c < input.n_cores implies (#[trigger] old(self).tasks@[c])@.len() == 0 by {
                                if old(self).tasks@[c]@.len() > 0 {
                                    assert(count_event(q0, Event::ResumeCore(c as usize)) == 1);
                                }
                            }
                        }
                        self.phase = FallbackPhase::Finished;
                        Command::Finish
                    },
                    Some((t, e)) => {
                        self.now = Ghost(t as int);
                        let ghost p = choose|p: int| 0 <= p < q0.len() && q0[p] == (t, e) && self.queue.items@ == q0.remove(p);
                        proof {
                            assert(old(self).now@ <= q0[p].0);
                            assert forall|k: int| 0 <= k < self.queue.items@.len() implies self.now@ <= (#[trigger] self.queue.items@[k]).0 by {
                                if k < p {
                                    assert(self.queue.items@[k] == q0[k]);
                                    assert(!crate::greedy::handled_before(q0[k], q0[p]));
                                } else {
                                    assert(self.queue.items@[k] == q0[k + 1]);
                                    assert(!crate::greedy::handled_before(q0[k + 1], q0[p]));
                                }
                            }
                            assert(q0[p].1 matches Event::ResumeCore(c) && c < input.n_cores);
                            assert(resumes_after_call(q0[p], self.busy_until@));
                            assert forall|k: int| 0 <= k < self.queue.items@.len() implies resumes_after_call(
                                #[trigger] self.queue.items@[k],
                                self.busy_until@,
                            ) by {
                                if k < p {
                                    assert(self.queue.items@[k] == q0[k]);
                                } else {
                                    assert(self.queue.items@[k] == q0[k + 1]);
                                }
                            }
                            assert forall|c: int| 0 <= c < input.n_cores implies #[trigger] count_event(
                                self.queue.items@,
                                Event::ResumeCore(c as usize),
                            ) <= 1 by {
                                crate::greedy::lemma_count_event_remove(q0, p, Event::ResumeCore(c as usize));
                                crate::greedy::lemma_count_event_nonneg(self.queue.items@, Event::ResumeCore(c as usize));
                            }
                            let pc = q0[p].1->ResumeCore_0 as int;
                            assert(count_event(q0, Event::ResumeCore(pc as usize)) <= 1);
                            crate::greedy::lemma_count_event_remove(q0, p, Event::ResumeCore(pc as usize));
                            crate::greedy::lemma_count_event_nonneg(self.queue.items@, Event::ResumeCore(pc as usize));
                            assert forall|k: int| 0 <= k < self.queue.items@.len() implies {
                                let item = #[trigger] self.queue.items@[k];
                                &&& 0 <= item.0 <= self.horizon
                                &&& item.1 matches Event::ResumeCore(c) && c < input.n_cores
                            } by {
                                if k < p {
                                    assert(self.queue.items@[k] == q0[k]);
                                } else {
                                    assert(self.queue.items@[k] == q0[k + 1]);
                                }
                            }
                        }
                        let core_id = match e {
                            Event::ResumeCore(c) => c,
                            Event::ReceivePacket => 0,
                        };
                        proof {
                            assert(q0[p].1 == Event::ResumeCore(core_id));
                            assert forall|c: int|
                                0 <= c < input.n_cores && (#[trigger] self.tasks@[c])@.len() > 0 && c != core_id as int
                                    implies count_event(self.queue.items@, Event::ResumeCore(c as usize)) == 1 by {
                                crate::greedy::lemma_count_event_remove(q0, p, Event::ResumeCore(c as usize));
                            }
                        }
                        let cmd = if self.tasks[core_id].len() == 0 {
                            Command::Nothing
                        } else {
                            self.continue_core(core_id, t, input, graph)
                        };
                        proof {
                            assert(q0 == old(self).queue.items@);
                            assert(fallback_handles(q0[p], cmd, old(self).tasks@));
                        }
                        cmd
                    },
                }
            },
            FallbackPhase::Querying { t, core_id, packet_id } => {
                match reply {
                    Reply::Works(works) => {
                        let cost = special_works_cost(&works, graph);
                        self.special_costs[packet_id] = Some(cost);
                        self.continue_core(core_id, t, input, graph)
                    },
                    _ => {
                        proof {
                            assert(false);
                        }
                        Command::Nothing
                    },
                }
            },
            FallbackPhase::Finished => {
                self.phase = FallbackPhase::Finished;
                Command::Finish
            },
        }
    }

    /// Whether `reply` answers the last command, as `step` needs.
    pub fn accepts(&self, reply: &Reply) -> (r: bool)
        ensures
            r == self.fits(*reply),
    {
        match &self.phase {
            FallbackPhase::Receiving => match reply {
                Reply::Packets(Some(v)) => crate::run::packets_ok(v, self.n) && all_types_present(v),
                _ => false,
            },
            FallbackPhase::Querying { .. } => match reply {
                Reply::Works(_) => true,
                _ => false,
            },
            _ => match reply {
                Reply::Ready => true,
                _ => false,
            },
        }
    }

    pub fn within_time_cap(&self) -> (r: bool)
        ensures
            r == (self.horizon <= RUN_TIME_CAP),
    {
        self.horizon <= RUN_TIME_CAP
    }
}

/// Whether every packet type occurs in `v`.
pub fn all_types_present(v: &Vec<Packet>) -> (r: bool)
    ensures
        r == forall|t: int| 0 <= t < N_PACKET_TYPE ==> #[trigger] has_type(v@, t),
{
    let mut t: usize = 0;
    while t < N_PACKET_TYPE
        invariant
            t <= N_PACKET_TYPE,
            forall|u: int| 0 <= u < t ==> #[trigger] has_type(v@, u),
        decreases N_PACKET_TYPE - t,
    {
        let mut found = false;
        let mut k: usize = 0;
        while k < v.len()
            invariant
                k <= v@.len(),
                found == exists|j: int| 0 <= j < k && #[trigger] v@[j].packet_type == t,
            decreases v@.len() - k,
        {
            if v[k].packet_type == t {
                found = true;
            }
            k = k + 1;
        }
        if !found {
            proof {
                assert(!has_type(v@, t as int));
            }
            return false;
        }
        t = t + 1;
    }
    true
}

} // verus!
