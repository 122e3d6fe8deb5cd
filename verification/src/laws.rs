//! Properties that relate several operations of the library, or that every
//! step keeps.
use vstd::prelude::*;

use crate::calculator::{
    count_unadvanced, known_special, still_passes, path_duration_fixed, path_duration_special, path_fixed_from, special_visits_from, switch_count,
    task_duration_fixed, task_duration_special, task_fixed_from, task_special_from, unknown_special, DurationCalculator,
    MAX_TABLE_BATCH,
};
use crate::greedy::{handled_before, lemma_picked_len, picked, split_first, split_full, split_second, split_selects, unpicked, Event, State, Task};
use crate::mock::{arrived, is_generated, mock_packet, mock_work, MockInteractor, ProblemParams};
use crate::tester::pushed;
use crate::run::{
    advanced_marks, chunk_selects, runs_task, clock_step, command_time, core_step, held_ids, held_once, in_task, leaves_done, lemma_finished_holds_nothing, no_stranded, packet_step,
    Command, GreedyRun,
};
use crate::planning::{cut_full_or_due, grow_afford, planned, task_ids, TaskPlan};
use crate::fallback::{after_run, fallback_duration, ran_on, FallbackTask};
use crate::tracker::{max_departure, min_arrive, timeout_count};
use crate::types::{Duration, Graph, Input, Packet, PacketHistory, PacketStatus, MAX_TIME, N_PACKET_TYPE, N_SPECIAL, SPECIAL_COST_SUM, SPECIAL_NODE_ID};

verus! {

/// A duration the scheduler looks up in its table is the duration it would
/// compute for the same packet type, batch size and position on the path.
pub proof fn law_lookup_matches_computation(
    calc: DurationCalculator,
    input: Input,
    graph: Graph,
    t: int,
    b: int,
    f: int,
)
    requires
        calc.describes(input, graph),
        0 <= t < N_PACKET_TYPE,
        1 <= b <= MAX_TABLE_BATCH,
        0 <= f <= graph.path_len(t),
    ensures
        calc.entry(t, b, f).fixed == path_duration_fixed(input, graph, t, b, f),
        calc.entry(t, b, f).special_node_count == path_duration_special(graph, t, b, f),
{
    assert(graph.path_len(t) <= calc.max_from());
}

/// The point estimate of a duration lies between its lower and upper bounds.
pub proof fn law_estimate_between_bounds(d: Duration)
    requires
        d.special_node_count >= 0,
    ensures
        d.fixed <= d.spec_estimate() <= d.spec_upper_bound(),
{
    assert(d.special_node_count * 160 * 4 / 5 == 128 * d.special_node_count) by (nonlinear_arith);
    assert(0 <= 128 * d.special_node_count <= d.special_node_count * 160) by (nonlinear_arith)
        requires
            d.special_node_count >= 0,
    ;
}

/// Adding an index that is not in the set and removing it again leaves the
/// set as it was, its order included.
pub proof fn law_remove_undoes_add(que: Seq<usize>, v: usize)
    requires
        que.no_duplicates(),
        !que.contains(v),
    ensures
        que.push(v).contains(v),
        ({
            let q1 = que.push(v);
            q1.update(q1.index_of(v), q1.last()).drop_last() == que
        }),
{
    let q1 = que.push(v);
    assert(q1[que.len() as int] == v);
    assert(q1.contains(v));
    let p = q1.index_of(v);
    assert(0 <= p < q1.len() && q1[p] == v);
    if p < que.len() {
        assert(que[p] == v);
        assert(que.contains(v));
    }
    assert(p == que.len());
    assert(q1.update(p, q1.last()).drop_last() =~= que);
}

/// An event pushed ahead of every pending one is the next one popped.
pub proof fn law_queue_pops_earliest(pending: Seq<(i64, Event)>, item: (i64, Event), popped: (i64, Event))
    requires
        forall|k: int| 0 <= k < pending.len() ==> handled_before(item, #[trigger] pending[k]),
        pending.push(item).contains(popped),
        forall|k: int|
            0 <= k < pending.push(item).len() ==> !handled_before(#[trigger] pending.push(item)[k], popped),
    ensures
        popped == item,
{
    assert(pending.push(item)[pending.len() as int] == item);
    let j = choose|j: int| 0 <= j < pending.push(item).len() && pending.push(item)[j] == popped;
    if j < pending.len() {
        assert(pending[j] == popped);
        assert(handled_before(item, pending[j]));
        assert(!handled_before(pending.push(item)[pending.len() as int], popped));
    }
}

proof fn lemma_picked_unpicked_multiset(ps: Seq<PacketStatus>, sel: spec_fn(int) -> bool, k: int)
    requires
        0 <= k <= ps.len(),
    ensures
        picked(ps, sel, k).to_multiset().add(unpicked(ps, sel, k).to_multiset()) == ps.take(k).to_multiset(),
    decreases k,
{
    broadcast use vstd::seq_lib::group_to_multiset_ensures;
    broadcast use vstd::multiset::group_multiset_axioms;

    if k == 0 {
        assert(ps.take(0) =~= Seq::<PacketStatus>::empty());
        assert(picked(ps, sel, 0).to_multiset() =~= vstd::multiset::Multiset::empty());
        assert(unpicked(ps, sel, 0).to_multiset() =~= vstd::multiset::Multiset::empty());
    } else {
        lemma_picked_unpicked_multiset(ps, sel, k - 1);
        assert(ps.take(k) =~= ps.take(k - 1).push(ps[k - 1]));
        let a = picked(ps, sel, k - 1);
        let b = unpicked(ps, sel, k - 1);
        if sel(k - 1) {
            assert(picked(ps, sel, k) =~= a.push(ps[k - 1]));
            assert(unpicked(ps, sel, k) =~= b);
        } else {
            assert(picked(ps, sel, k) =~= a);
            assert(unpicked(ps, sel, k) =~= b.push(ps[k - 1]));
        }
        assert(picked(ps, sel, k).to_multiset().add(unpicked(ps, sel, k).to_multiset()) =~= ps.take(
            k,
        ).to_multiset());
    }
}

/// Splitting a task shares its packets out between the two new tasks: every
/// packet goes to exactly one of them.
pub proof fn law_split_keeps_packets(task: Task)
    ensures
        (split_first(task) + split_second(task)).to_multiset() == task.packets@.to_multiset(),
{
    broadcast use vstd::multiset::group_multiset_axioms;

    let ps = task.packets@;
    let sel = split_selects(task);
    let n = ps.len() as int;
    let mid = n / 2;
    let first = picked(ps, sel, n);
    let rest = unpicked(ps, sel, n);
    lemma_picked_unpicked_multiset(ps, sel, n);
    assert(ps.take(n) == ps);
    vstd::seq_lib::lemma_multiset_commutative(split_first(task), split_second(task));
    if split_full(task) {
        assert(first.to_multiset().add(rest.to_multiset()) =~= rest.to_multiset().add(first.to_multiset()));
    } else {
        lemma_picked_len(ps, sel, n);
        assert(mid <= rest.len());
        vstd::seq_lib::lemma_multiset_commutative(first, rest.skip(mid));
        assert(rest == rest.take(mid) + rest.skip(mid));
        vstd::seq_lib::lemma_multiset_commutative(rest.take(mid), rest.skip(mid));
        assert(rest.take(mid).to_multiset().add(first.to_multiset().add(rest.skip(mid).to_multiset()))
            =~= first.to_multiset().add(rest.to_multiset()));
    }
}

/// Some packet of `got` has the id `id`.
pub open spec fn has_id(got: Seq<Packet>, id: usize) -> bool {
    exists|j: int| 0 <= j < got.len() && (#[trigger] got[j]).i == id
}

proof fn lemma_arrived_ids(ps: Seq<Packet>, lo: int, t: i64, id: usize)
    requires
        forall|j: int| 0 <= j < ps.len() ==> (#[trigger] ps[j]).i == j,
    ensures
        forall|k: int| 0 <= k < arrived(ps, lo, t).len() ==> (#[trigger] arrived(ps, lo, t)[k]).i < ps.len(),
        has_id(arrived(ps, lo, t), id) <==> (id < ps.len() && lo < ps[id as int].arrive <= t),
    decreases ps.len(),
{
    if ps.len() > 0 {
        let d = ps.drop_last();
        assert forall|j: int| 0 <= j < d.len() implies (#[trigger] d[j]).i == j by {
            assert(d[j] == ps[j]);
        }
        lemma_arrived_ids(d, lo, t, id);
        let a = arrived(d, lo, t);
        let p = ps.last();
        assert(p.i == ps.len() - 1);
        if lo < p.arrive && p.arrive <= t {
            let q = Packet {
                i: p.i,
                arrive: p.arrive,
                packet_type: p.packet_type,
                timeout: p.timeout,
                time_limit: p.time_limit,
                received_t: t,
            };
            let r = a.push(q);
            assert(arrived(ps, lo, t) == r);
            if id == p.i {
                assert(r[a.len() as int].i == id);
            } else if has_id(r, id) {
                let j = choose|j: int| 0 <= j < r.len() && (#[trigger] r[j]).i == id;
                assert(j < a.len());
                assert(a[j].i == id);
                assert(has_id(a, id));
            } else if id < ps.len() && lo < ps[id as int].arrive <= t {
                assert(id < d.len());
                assert(d[id as int] == ps[id as int]);
                let j = choose|j: int| 0 <= j < a.len() && (#[trigger] a[j]).i == id;
                assert(r[j] == a[j]);
            }
        } else {
            assert(arrived(ps, lo, t) == a);
            if id < ps.len() && lo < ps[id as int].arrive <= t {
                assert(id != p.i);
                assert(d[id as int] == ps[id as int]);
            }
        }
    }
}

/// Of two receives in a row, each packet that arrived by the later one is
/// handed out by exactly one of them, and no other packet is handed out.
pub proof fn law_receive_hands_out_once(ps: Seq<Packet>, lo: int, t1: i64, t2: i64, id: usize)
    requires
        forall|j: int| 0 <= j < ps.len() ==> (#[trigger] ps[j]).i == j,
        lo <= t1 <= t2,
    ensures
        !(has_id(arrived(ps, lo, t1), id) && has_id(arrived(ps, t1 as int, t2), id)),
        (has_id(arrived(ps, lo, t1), id) || has_id(arrived(ps, t1 as int, t2), id)) <==> (id < ps.len()
            && lo < ps[id as int].arrive <= t2),
{
    lemma_arrived_ids(ps, lo, t1, id);
    lemma_arrived_ids(ps, t1 as int, t2, id);
}

/// The mock judge hands out each of its packets once: of two receives in a
/// row (the later at `t2`), exactly one hands out a packet that arrived by
/// `t2` since the first window opened at `lo`, and none hands out another.
pub proof fn law_mock_hands_out_each_packet_once(m: MockInteractor, lo: int, t1: i64, t2: i64, id: usize)
    requires
        m.wf(),
        lo <= t1 <= t2,
    ensures
        !(has_id(arrived(m.packets@, lo, t1), id) && has_id(arrived(m.packets@, t1 as int, t2), id)),
        (has_id(arrived(m.packets@, lo, t1), id) || has_id(arrived(m.packets@, t1 as int, t2), id)) <==> (id
            < m.packets@.len() && lo < m.packets@[id as int].arrive <= t2),
{
    law_receive_hands_out_once(m.packets@, lo, t1, t2, id);
}

/// Once the mock judge has been asked for the works of a packet, asking again gets no answer.
pub proof fn law_works_answered_once(
    queried: Seq<bool>,
    works: Seq<[bool; N_SPECIAL]>,
    i: int,
)
    requires
        0 <= i < queried.len(),
    ensures
        ({
            let after_first = queried.update(i, true);
            (if after_first[i] {
                None
            } else {
                Some(works[i])
            }) == None::<[bool; N_SPECIAL]>
        }),
{
}

/// The mock judge's problems are determined by the generator's state and the
/// problem's sizes.
pub proof fn law_generation_is_deterministic(
    s0: u32,
    p: ProblemParams,
    n1: usize,
    input1: Input,
    packets1: Seq<Packet>,
    works1: Seq<[bool; N_SPECIAL]>,
    n2: usize,
    input2: Input,
    packets2: Seq<Packet>,
    works2: Seq<[bool; N_SPECIAL]>,
)
    requires
        is_generated(s0, p, n1, input1, packets1, works1),
        is_generated(s0, p, n2, input2, packets2, works2),
    ensures
        n1 == n2,
        input1 == input2,
        packets1 == packets2,
        works1 == works2,
{
    broadcast use vstd::array::group_array_axioms;

    assert(packets1 =~= packets2);
    assert forall|i: int| 0 <= i < n1 implies #[trigger] works1[i] == works2[i] by {
        assert forall|j: int| 0 <= j < N_SPECIAL implies works1[i][j] == works2[i][j] by {
            assert(works1[i]@[j] == mock_work(s0, n1 as nat, i as nat, j as nat));
            assert(works2[i]@[j] == mock_work(s0, n2 as nat, i as nat, j as nat));
        }
        assert(works1[i] =~= works2[i]);
    }
    assert(works1 =~= works2);
}

/// Each history runs forward: every call ends no earlier than it starts, and
/// starts no earlier than the previous one ended.
pub open spec fn chronological(h: Seq<PacketHistory>) -> bool {
    &&& forall|k: int| 0 <= k < h.len() ==> (#[trigger] h[k]).start_t <= h[k].end_t
    &&& forall|a: int, b: int| 0 <= a && b == a + 1 && b < h.len() ==> #[trigger] h[a].end_t <= #[trigger] h[b].start_t
}

proof fn lemma_pushed_distinct(h: Seq<Seq<PacketHistory>>, ids: Seq<usize>, e: PacketHistory, x: usize)
    requires
        ids.no_duplicates(),
        forall|k: int| 0 <= k < ids.len() ==> #[trigger] ids[k] < h.len(),
        x < h.len(),
    ensures
        pushed(h, ids, e).len() == h.len(),
        pushed(h, ids, e)[x as int] == (if ids.contains(x) {
            h[x as int].push(e)
        } else {
            h[x as int]
        }),
    decreases ids.len(),
{
    if ids.len() > 0 {
        let d = ids.drop_last();
        assert forall|k: int| 0 <= k < d.len() implies #[trigger] d[k] < h.len() by {
            assert(d[k] == ids[k]);
        }
        assert(d.no_duplicates()) by {
            assert forall|a: int, b: int| 0 <= a < d.len() && 0 <= b < d.len() && a != b implies d[a] != d[b] by {
                assert(d[a] == ids[a] && d[b] == ids[b]);
            }
        }
        lemma_pushed_distinct(h, d, e, x);
        let last = ids.last();
        assert(last < h.len());
        lemma_pushed_distinct(h, d, e, last);
        if last == x {
            if d.contains(x) {
                let j = choose|j: int| 0 <= j < d.len() && d[j] == x;
                assert(ids[j] == ids[ids.len() - 1]);
            }
            assert(ids.contains(x)) by {
                assert(ids[ids.len() - 1] == x);
            }
        } else {
            if ids.contains(x) {
                let j = choose|j: int| 0 <= j < ids.len() && ids[j] == x;
                assert(j < ids.len() - 1);
                assert(d[j] == x);
            }
            if d.contains(x) {
                let j = choose|j: int| 0 <= j < d.len() && d[j] == x;
                assert(ids[j] == x);
            }
        }
    }
}

/// A node call that starts when each of its packets is free and ends no
/// earlier than it starts keeps every packet's history running forward, when
/// no packet appears twice in the call.
pub proof fn law_execute_keeps_histories_chronological(
    h: Seq<Seq<PacketHistory>>,
    ids: Seq<usize>,
    e: PacketHistory,
)
    requires
        forall|i: int| 0 <= i < h.len() ==> chronological(#[trigger] h[i]),
        ids.no_duplicates(),
        forall|k: int| 0 <= k < ids.len() ==> #[trigger] ids[k] < h.len(),
        forall|k: int|
            0 <= k < ids.len() ==> (#[trigger] h[ids[k] as int]).len() == 0 || h[ids[k] as int].last().end_t
                <= e.start_t,
        e.start_t <= e.end_t,
        h.len() <= usize::MAX,
    ensures
        forall|i: int| 0 <= i < h.len() ==> chronological(#[trigger] pushed(h, ids, e)[i]),
{
    assert forall|i: int| 0 <= i < h.len() implies chronological(#[trigger] pushed(h, ids, e)[i]) by {
        lemma_pushed_distinct(h, ids, e, i as usize);
        if ids.contains(i as usize) {
            let j = choose|j: int| 0 <= j < ids.len() && ids[j] == i as usize;
            assert(h[ids[j] as int].len() == 0 || h[ids[j] as int].last().end_t <= e.start_t);
            let hi = h[i];
            let pi = hi.push(e);
            assert(chronological(hi));
            assert forall|k: int| 0 <= k < pi.len() implies (#[trigger] pi[k]).start_t <= pi[k].end_t by {
                if k < hi.len() {
                    assert(pi[k] == hi[k]);
                }
            }
            assert forall|a: int, b: int| 0 <= a && b == a + 1 && b < pi.len() implies #[trigger] pi[a].end_t
                <= #[trigger] pi[b].start_t by {
                assert(pi[a] == hi[a]);
                if b < hi.len() {
                    assert(pi[b] == hi[b]);
                } else {
                    assert(pi[b] == e);
                    assert(hi.last() == hi[a]);
                }
            }
        }
    }
}

/// In every state of the greedy scheduler (its invariant holds from the start
/// and each step keeps it): no packet is in the tasks of two cores, none is
/// both waiting and in a task, and a task holds each of its packets once.
pub proof fn law_each_packet_held_once(run: GreedyRun, input: Input, graph: Graph)
    requires
        run.inv(input, graph),
    ensures
        forall|c1: int, c2: int, id: usize|
            0 <= c1 < c2 < input.n_cores ==> !(#[trigger] in_task(run.state, c1, id) && #[trigger] in_task(run.state, c2, id)),
        forall|c: int, id: usize|
            0 <= c < input.n_cores && #[trigger] in_task(run.state, c, id) ==> !run.state.await_packets.que@.contains(id),
        forall|c: int|
            0 <= c < input.n_cores && #[trigger] run.state.next_tasks@[c] is Some ==> task_ids(run.state.next_tasks@[c]->0).no_duplicates(),
{
    assert(held_once(run.state, input.n_cores as int));
}

/// No core of the greedy scheduler ever holds a task set aside: a core that
/// finishes its task always goes on to a fresh task or a split, never back to
/// an older one.
pub proof fn law_no_task_set_aside(run: GreedyRun, input: Input, graph: Graph)
    requires
        run.inv(input, graph),
    ensures
        forall|c: int| 0 <= c < input.n_cores ==> #[trigger] run.state.idle_tasks@[c] is None,
{
}

/// In the greedy scheduler a core goes on exactly when its task is ready,
/// and never before the call it runs ends: every pending resume of a core is
/// due at its task's ready time, which its last call does not outlast.
pub proof fn law_core_resumes_when_its_task_is_ready(run: GreedyRun, input: Input, graph: Graph, k: int)
    requires
        run.inv(input, graph),
        0 <= k < run.queue.items@.len(),
        run.queue.items@[k].1 is ResumeCore,
    ensures
        ({
            let c = run.queue.items@[k].1->ResumeCore_0 as int;
            &&& run.state.next_tasks@[c] is Some
            &&& run.queue.items@[k].0 == run.state.next_tasks@[c]->0.next_t
            &&& run.busy_until@[c] <= run.queue.items@[k].0
            &&& run.now@ <= run.queue.items@[k].0
        }),
{
    assert(crate::run::resumes_at_task_time(run.queue.items@[k], run.state));
    assert(crate::run::resumes_after_call(run.queue.items@[k], run.busy_until@));
}

proof fn lemma_clock_never_goes_back(clocks: Seq<int>, cmds: Seq<Command>, a: int, b: int)
    requires
        clocks.len() == cmds.len() + 1,
        forall|k: int| 0 <= k < cmds.len() ==> #[trigger] clock_step(clocks[k], cmds[k], clocks[k + 1]),
        0 <= a <= b < clocks.len(),
    ensures
        clocks[a] <= clocks[b],
    decreases b - a,
{
    if a < b {
        lemma_clock_never_goes_back(clocks, cmds, a, b - 1);
        let k = b - 1;
        assert(clock_step(clocks[k], cmds[k], clocks[k + 1]));
    }
}

/// Along a run of the greedy scheduler (`runs` holds its state before each
/// step and after the last) whose steps each let go only of packets that
/// went through their whole path, and which ends finished with no packet
/// stranded: every packet it holds at some point is later let go, at a step
/// before which it had been called at every node of its path.
pub proof fn law_every_held_packet_runs_its_path(runs: Seq<GreedyRun>, n: int, graph: Graph, k: int, id: usize)
    requires
        forall|i: int|
            0 <= i < runs.len() - 1 ==> #[trigger] leaves_done(
                held_ids(runs[i].state, n),
                held_ids(runs[i + 1].state, n),
                runs[i].calls@,
                runs[i].state.packets@,
                graph,
            ),
        runs.len() > 0,
        runs.last().phase is Finished,
        no_stranded(runs.last(), n),
        0 <= k < runs.len(),
        held_ids(runs[k].state, n).contains(id),
    ensures
        exists|j: int|
            k <= j < runs.len() - 1 && held_ids(runs[j].state, n).contains(id) && !held_ids(runs[j + 1].state, n).contains(id)
                && #[trigger] runs[j].calls@[id as int] == graph.path_len(runs[j].state.packets@[id as int]->0.packet_type as int),
    decreases runs.len() - k,
{
    if k == runs.len() - 1 {
        lemma_finished_holds_nothing(runs.last(), n);
        assert(!held_ids(runs[k].state, n).contains(id));
    } else {
        assert(leaves_done(
            held_ids(runs[k].state, n),
            held_ids(runs[k + 1].state, n),
            runs[k].calls@,
            runs[k].state.packets@,
            graph,
        ));
        if held_ids(runs[k + 1].state, n).contains(id) {
            law_every_held_packet_runs_its_path(runs, n, graph, k + 1, id);
        } else {
            assert(runs[k].calls@[id as int] == graph.path_len(runs[k].state.packets@[id as int]->0.packet_type as int));
        }
    }
}

/// Along a run of a scheduler whose steps each send their command at the
/// time its clock moves to, and never move the clock back (`clocks` are the
/// clock before each step and after the last): a command sent at a time is
/// sent no earlier than every command before it.
pub proof fn law_command_times_never_go_back(clocks: Seq<int>, cmds: Seq<Command>, i: int, j: int)
    requires
        clocks.len() == cmds.len() + 1,
        forall|k: int| 0 <= k < cmds.len() ==> #[trigger] clock_step(clocks[k], cmds[k], clocks[k + 1]),
        0 <= i < j < cmds.len(),
        command_time(cmds[i]) is Some,
        command_time(cmds[j]) is Some,
    ensures
        command_time(cmds[i])->0 <= command_time(cmds[j])->0,
{
    assert(clock_step(clocks[i], cmds[i], clocks[i + 1]));
    assert(clock_step(clocks[j], cmds[j], clocks[j + 1]));
    lemma_clock_never_goes_back(clocks, cmds, i + 1, j + 1);
}

proof fn lemma_busy_never_shrinks(busy: Seq<Seq<int>>, cmds: Seq<Command>, c: int, a: int, b: int)
    requires
        busy.len() == cmds.len() + 1,
        forall|k: int| 0 <= k < cmds.len() ==> #[trigger] core_step(busy[k], cmds[k], busy[k + 1]),
        0 <= a <= b < busy.len(),
        0 <= c < busy[a].len(),
    ensures
        busy[b].len() == busy[a].len(),
        busy[a][c] <= busy[b][c],
    decreases b - a,
{
    if a < b {
        lemma_busy_never_shrinks(busy, cmds, c, a, b - 1);
        let k = b - 1;
        assert(core_step(busy[k], cmds[k], busy[k + 1]));
        if let Command::Execute { core_id, .. } = cmds[k] {
            if core_id as int != c {
                assert(busy[k + 1][c] == busy[k][c]);
            }
        }
    }
}

/// Along a run of a scheduler, greedy or fallback (`busy` holds, before each
/// step and after the last, when each core is busy until, and each step moves
/// it as both schedulers' steps promise): two calls sent to one core are sent
/// in order, and the later one starts no earlier than the earlier one keeps
/// the core busy.
pub proof fn law_core_calls_never_overlap(busy: Seq<Seq<int>>, cmds: Seq<Command>, i: int, j: int, c: usize)
    requires
        busy.len() == cmds.len() + 1,
        forall|k: int| 0 <= k < cmds.len() ==> #[trigger] core_step(busy[k], cmds[k], busy[k + 1]),
        0 <= i < j < cmds.len(),
        c < busy[0].len(),
        cmds[i] matches Command::Execute { core_id, .. } && core_id == c,
        cmds[j] matches Command::Execute { core_id, .. } && core_id == c,
    ensures
        command_time(cmds[i])->0 <= busy[i + 1][c as int] <= command_time(cmds[j])->0,
{
    lemma_busy_never_shrinks(busy, cmds, c as int, 0, i);
    assert(core_step(busy[i], cmds[i], busy[i + 1]));
    lemma_busy_never_shrinks(busy, cmds, c as int, i + 1, j);
    assert(core_step(busy[j], cmds[j], busy[j + 1]));
}

proof fn lemma_free_never_shrinks(free: Seq<Seq<int>>, cmds: Seq<Command>, id: int, a: int, b: int)
    requires
        free.len() == cmds.len() + 1,
        forall|k: int| 0 <= k < cmds.len() ==> #[trigger] packet_step(free[k], cmds[k], free[k + 1]),
        0 <= a <= b < free.len(),
        0 <= id < free[a].len(),
        free[a][id] > -MAX_TIME,
    ensures
        free[b].len() == free[a].len(),
        free[a][id] <= free[b][id],
    decreases b - a,
{
    if a < b {
        lemma_free_never_shrinks(free, cmds, id, a, b - 1);
        let k = b - 1;
        assert(packet_step(free[k], cmds[k], free[k + 1]));
    }
}

/// Along a run of the greedy scheduler (`free` holds, before each step and
/// after the last, when each packet is free, and each step moves it as its
/// contract says): two calls that run one packet are sent in order, and the
/// later one starts no earlier than the earlier one keeps the packet busy.
pub proof fn law_packet_calls_never_overlap(free: Seq<Seq<int>>, cmds: Seq<Command>, i: int, j: int, id: usize)
    requires
        free.len() == cmds.len() + 1,
        forall|k: int| 0 <= k < cmds.len() ==> #[trigger] packet_step(free[k], cmds[k], free[k + 1]),
        0 <= i < j < cmds.len(),
        cmds[i] matches Command::Execute { ids, .. } && ids@.contains(id),
        cmds[j] matches Command::Execute { ids, .. } && ids@.contains(id),
    ensures
        command_time(cmds[i])->0 <= free[i + 1][id as int] <= command_time(cmds[j])->0,
{
    assert(packet_step(free[i], cmds[i], free[i + 1]));
    assert(packet_step(free[j], cmds[j], free[j + 1]));
    let ids_i = cmds[i]->Execute_ids;
    let ids_j = cmds[j]->Execute_ids;
    let ki = choose|ki: int| 0 <= ki < ids_i@.len() && ids_i@[ki] == id;
    let kj = choose|kj: int| 0 <= kj < ids_j@.len() && ids_j@[kj] == id;
    let ti = cmds[i]->Execute_t;
    let tj = cmds[j]->Execute_t;
    assert(ti <= free[i + 1][ids_i@[ki] as int]);
    assert(tj <= free[j + 1][ids_j@[kj] as int]);
    assert(free[j][ids_j@[kj] as int] <= tj);
    assert(0 <= ids_i@[ki] < free[i].len());
    lemma_free_never_shrinks(free, cmds, id as int, i + 1, j);
}

/// The node calls one core's batches still owe: for each batch, the nodes of
/// its path from its position on.
pub open spec fn calls_left_core(ts: Seq<FallbackTask>, graph: Graph) -> int
    decreases ts.len(),
{
    if ts.len() == 0 {
        0
    } else {
        calls_left_core(ts.drop_last(), graph) + (graph.paths@[ts.last().packet_type as int].l - ts.last().path_index)
    }
}

/// The node calls the fallback scheduler's batches still owe, over all cores.
pub open spec fn calls_left(tasks: Seq<Vec<FallbackTask>>, graph: Graph) -> int
    decreases tasks.len(),
{
    if tasks.len() == 0 {
        0
    } else {
        calls_left(tasks.drop_last(), graph) + calls_left_core(tasks.last()@, graph)
    }
}

proof fn lemma_calls_left_one_core(before: Seq<Vec<FallbackTask>>, after: Seq<Vec<FallbackTask>>, core_id: int, graph: Graph)
    requires
        0 <= core_id < before.len(),
        after.len() == before.len(),
        forall|c: int| 0 <= c < after.len() && c != core_id ==> #[trigger] after[c] == before[c],
    ensures
        calls_left(after, graph) - calls_left(before, graph) == calls_left_core(after[core_id]@, graph) - calls_left_core(
            before[core_id]@,
            graph,
        ),
    decreases before.len(),
{
    let n = before.len() - 1;
    if core_id == n {
        assert(after.drop_last() =~= before.drop_last());
    } else {
        lemma_calls_left_one_core(before.drop_last(), after.drop_last(), core_id, graph);
        assert(after[n] == before[n]);
    }
}

/// Each node call the fallback scheduler sends takes exactly one off the
/// node calls its batches still owe: the batch it ran moves one node on
/// along its path, or is done at its end. As `FallbackRun::step` finishes
/// only when no core has a batch left, every batch it was dealt goes
/// through its whole path, one node after the other.
pub proof fn law_fallback_call_moves_one_node(
    before: Seq<Vec<FallbackTask>>,
    after: Seq<Vec<FallbackTask>>,
    core_id: int,
    graph: Graph,
)
    requires
        0 <= core_id < before.len(),
        before[core_id]@.len() > 0,
        (before[core_id]@.last().path_index as int) < graph.paths@[before[core_id]@.last().packet_type as int].l,
        ran_on(before, after, core_id, graph),
    ensures
        calls_left(after, graph) == calls_left(before, graph) - 1,
{
    lemma_calls_left_one_core(before, after, core_id, graph);
    let ts = before[core_id]@;
    let d = ts.drop_last();
    let task = ts.last();
    if task.path_index + 1 < graph.paths@[task.packet_type as int].l {
        let moved = FallbackTask { packet_type: task.packet_type, ps: task.ps, path_index: (task.path_index + 1) as usize };
        assert(after_run(ts, graph) == d.push(moved));
        assert(d.push(moved).drop_last() == d);
    }
}

/// A packet of a task that has not moved yet: not through its node, still
/// to leave the receiving core, and its works not known.
pub open spec fn untouched(p: PacketStatus, costs: Seq<Option<i64>>) -> bool {
    &&& !p.is_advanced
    &&& p.is_switching_core
    &&& costs[p.id as int] is None
}

proof fn lemma_untouched_counts(ps: Seq<PacketStatus>, costs: Seq<Option<i64>>, b: bool, h: bool)
    requires
        forall|k: int| 0 <= k < ps.len() ==> untouched(#[trigger] ps[k], costs),
    ensures
        switch_count(ps, h) == ps.len(),
        known_special(ps, costs, b) == 0,
        unknown_special(ps, costs, b) == ps.len(),
    decreases ps.len(),
{
    if ps.len() > 0 {
        let q = ps.drop_last();
        assert forall|k: int| 0 <= k < q.len() implies untouched(#[trigger] q[k], costs) by {
            assert(q[k] == ps[k]);
        }
        lemma_untouched_counts(q, costs, b, h);
        assert(untouched(ps[ps.len() - 1], costs));
    }
}

proof fn lemma_untouched_from(graph: Graph, task: Task, costs: Seq<Option<i64>>, k: int)
    requires
        !task.is_chunked,
        0 <= k,
        forall|j: int| 0 <= j < task.packets@.len() ==> untouched(#[trigger] task.packets@[j], costs),
    ensures
        task_fixed_from(graph, task, costs, k) == path_fixed_from(graph, task.packet_type as int, task.packets@.len() as int, k),
        task_special_from(graph, task, costs, k) == task.packets@.len() * special_visits_from(graph, task.packet_type as int, k),
    decreases graph.path_len(task.packet_type as int) - k,
{
    let t = task.packet_type as int;
    let s = task.packets@.len() as int;
    if k < graph.path_len(t) {
        lemma_untouched_from(graph, task, costs, k + 1);
        lemma_untouched_counts(task.packets@, costs, k == task.path_index && task.is_chunked, true);
        let x: int = if graph.node_at(t, k) == SPECIAL_NODE_ID { 1 } else { 0 };
        let r = special_visits_from(graph, t, k + 1);
        assert(s * (x + r) == s * x + s * r) by (nonlinear_arith);
    }
}

/// A fresh task, none of whose packets has moved or has its works known, is
/// estimated to take just what the duration table gives for its type and
/// size from the start of its path.
pub proof fn law_fresh_task_estimate_is_path_duration(input: Input, graph: Graph, task: Task, costs: Seq<Option<i64>>)
    requires
        task.path_index == 0,
        !task.is_chunked,
        forall|j: int| 0 <= j < task.packets@.len() ==> untouched(#[trigger] task.packets@[j], costs),
    ensures
        task_duration_fixed(input, graph, task, costs) == path_duration_fixed(
            input,
            graph,
            task.packet_type as int,
            task.packets@.len() as int,
            0,
        ),
        task_duration_special(graph, task, costs) == path_duration_special(
            graph,
            task.packet_type as int,
            task.packets@.len() as int,
            0,
        ),
{
    let h = task.path_index < graph.path_len(task.packet_type as int) - 1;
    lemma_untouched_counts(task.packets@, costs, false, h);
    lemma_untouched_from(graph, task, costs, 0);
    let s = task.packets@.len() as int;
    assert(input.cost_switch * s == s * input.cost_switch) by (nonlinear_arith);
}

/// How many packets of `ps` that still pass are the packet `id`.
pub open spec fn passing_count(ps: Seq<PacketStatus>, id: usize, only_unadvanced: bool) -> int
    decreases ps.len(),
{
    if ps.len() == 0 {
        0
    } else {
        passing_count(ps.drop_last(), id, only_unadvanced) + (if still_passes(ps.last(), only_unadvanced) && ps.last().id
            == id {
            1int
        } else {
            0int
        })
    }
}

/// How many times the packet `id` of `task` passes the special node from
/// position `k` of its path on.
pub open spec fn special_passes_from(graph: Graph, task: Task, id: usize, k: int) -> int
    decreases graph.path_len(task.packet_type as int) - k,
{
    let t = task.packet_type as int;
    if k >= graph.path_len(t) || k < 0 {
        0
    } else {
        (if graph.node_at(t, k) == SPECIAL_NODE_ID {
            passing_count(task.packets@, id, k == task.path_index && task.is_chunked)
        } else {
            0
        }) + special_passes_from(graph, task, id, k + 1)
    }
}

proof fn lemma_learn_in_packets(ps: Seq<PacketStatus>, costs: Seq<Option<i64>>, id: usize, v: i64, b: bool)
    requires
        0 <= id < costs.len(),
        costs[id as int] is None,
        forall|k: int| 0 <= k < ps.len() ==> (#[trigger] ps[k]).id < costs.len(),
    ensures
        known_special(ps, costs.update(id as int, Some(v)), b) == known_special(ps, costs, b) + v * passing_count(ps, id, b),
        unknown_special(ps, costs.update(id as int, Some(v)), b) == unknown_special(ps, costs, b) - passing_count(ps, id, b),
        passing_count(ps, id, b) >= 0,
    decreases ps.len(),
{
    if ps.len() > 0 {
        let q = ps.drop_last();
        assert forall|k: int| 0 <= k < q.len() implies (#[trigger] q[k]).id < costs.len() by {
            assert(q[k] == ps[k]);
        }
        lemma_learn_in_packets(q, costs, id, v, b);
        assert(ps.last() == ps[ps.len() - 1]);
        let c = passing_count(q, id, b);
        assert(v * (c + 1) == v * c + v) by (nonlinear_arith);
    }
}

proof fn lemma_learn_in_task(graph: Graph, task: Task, costs: Seq<Option<i64>>, id: usize, v: i64, k: int)
    requires
        0 <= id < costs.len(),
        costs[id as int] is None,
        forall|j: int| 0 <= j < task.packets@.len() ==> (#[trigger] task.packets@[j]).id < costs.len(),
    ensures
        task_fixed_from(graph, task, costs.update(id as int, Some(v)), k) == task_fixed_from(graph, task, costs, k) + v
            * special_passes_from(graph, task, id, k),
        task_special_from(graph, task, costs.update(id as int, Some(v)), k) == task_special_from(graph, task, costs, k)
            - special_passes_from(graph, task, id, k),
        special_passes_from(graph, task, id, k) >= 0,
    decreases graph.path_len(task.packet_type as int) - k,
{
    let t = task.packet_type as int;
    if k < graph.path_len(t) && k >= 0 {
        lemma_learn_in_task(graph, task, costs, id, v, k + 1);
        let b = k == task.path_index && task.is_chunked;
        lemma_learn_in_packets(task.packets@, costs, id, v, b);
        let x: int = if graph.node_at(t, k) == SPECIAL_NODE_ID { passing_count(task.packets@, id, b) } else { 0 };
        let r = special_passes_from(graph, task, id, k + 1);
        assert(v * (x + r) == v * x + v * r) by (nonlinear_arith);
    }
}

/// Learning the special works of a packet narrows what a task is estimated
/// to take: its lower bound (the known part) does not go down, and its upper
/// bound does not go up, when the cost learnt is within what the upper bound
/// allows for each visit of the special node.
pub proof fn law_learning_a_cost_narrows_bounds(
    input: Input,
    graph: Graph,
    task: Task,
    costs: Seq<Option<i64>>,
    id: usize,
    v: i64,
)
    requires
        0 <= id < costs.len(),
        costs[id as int] is None,
        0 <= v <= SPECIAL_COST_SUM,
        forall|j: int| 0 <= j < task.packets@.len() ==> (#[trigger] task.packets@[j]).id < costs.len(),
    ensures
        task_duration_fixed(input, graph, task, costs) <= task_duration_fixed(input, graph, task, costs.update(id as int, Some(v))),
        task_duration_fixed(input, graph, task, costs.update(id as int, Some(v))) + SPECIAL_COST_SUM * task_duration_special(
            graph,
            task,
            costs.update(id as int, Some(v)),
        ) <= task_duration_fixed(input, graph, task, costs) + SPECIAL_COST_SUM * task_duration_special(graph, task, costs),
{
    let k = task.path_index as int;
    lemma_learn_in_task(graph, task, costs, id, v, k);
    let m = special_passes_from(graph, task, id, k);
    let sp = task_duration_special(graph, task, costs);
    assert(v * m >= 0) by (nonlinear_arith)
        requires
            v >= 0,
            m >= 0,
    ;
    assert(v * m + SPECIAL_COST_SUM * (sp - m) <= SPECIAL_COST_SUM * sp) by (nonlinear_arith)
        requires
            v <= SPECIAL_COST_SUM,
            m >= 0,
    ;
}

/// The same law for what `estimate_task_duration` gives: when `a` and `b`
/// are its results for a task before and after the special works of one
/// packet become known (at a cost within `SPECIAL_COST_SUM`), `b`'s lower
/// bound is no lower and its upper bound no higher than `a`'s.
pub proof fn law_learning_a_cost_narrows_estimate(
    input: Input,
    graph: Graph,
    task: Task,
    costs: Seq<Option<i64>>,
    id: usize,
    v: i64,
    a: Duration,
    b: Duration,
)
    requires
        0 <= id < costs.len(),
        costs[id as int] is None,
        0 <= v <= SPECIAL_COST_SUM,
        forall|j: int| 0 <= j < task.packets@.len() ==> (#[trigger] task.packets@[j]).id < costs.len(),
        a.fixed == task_duration_fixed(input, graph, task, costs),
        a.special_node_count == task_duration_special(graph, task, costs),
        b.fixed == task_duration_fixed(input, graph, task, costs.update(id as int, Some(v))),
        b.special_node_count == task_duration_special(graph, task, costs.update(id as int, Some(v))),
    ensures
        a.fixed <= b.fixed,
        b.spec_upper_bound() <= a.spec_upper_bound(),
{
    law_learning_a_cost_narrows_bounds(input, graph, task, costs, id, v);
    assert(b.special_node_count * SPECIAL_COST_SUM == SPECIAL_COST_SUM * b.special_node_count) by (nonlinear_arith);
    assert(a.special_node_count * SPECIAL_COST_SUM == SPECIAL_COST_SUM * a.special_node_count) by (nonlinear_arith);
}


/// The packets among the first `k` that the score counts as late: those whose
/// last node call ended more than their timeout after they arrived.
pub open spec fn late_packets(history: Seq<Vec<PacketHistory>>, packets: Seq<Option<Packet>>, k: int) -> Set<int> {
    Set::new(
        |i: int|
            0 <= i < k && history[i]@[history[i]@.len() - 1].end_t - packets[i]->0.arrive > packets[i]->0.timeout,
    )
}

/// The score's count of timed-out packets (what `Tracker::score_counts`
/// returns) is exactly the number of packets whose departure came more than
/// their timeout after their arrival: a packet that departed within its
/// timeout of arriving is never counted, whatever its times.
pub proof fn law_late_count_is_packets_over_timeout(history: Seq<Vec<PacketHistory>>, packets: Seq<Option<Packet>>, k: int)
    requires
        0 <= k,
    ensures
        late_packets(history, packets, k).finite(),
        timeout_count(history, packets, k) == late_packets(history, packets, k).len(),
    decreases k,
{
    if k == 0 {
        assert(late_packets(history, packets, 0) =~= Set::<int>::empty());
    } else {
        law_late_count_is_packets_over_timeout(history, packets, k - 1);
        let before = late_packets(history, packets, k - 1);
        let i = k - 1;
        if history[i]@[history[i]@.len() - 1].end_t - packets[i]->0.arrive > packets[i]->0.timeout {
            assert(late_packets(history, packets, k) =~= before.insert(i));
            assert(!before.contains(i));
        } else {
            assert(late_packets(history, packets, k) =~= before);
        }
    }
}

/// A fallback call pays the switch off core 0 only at the first node of its
/// batch's path: at any later node its duration does not depend on the
/// switch cost at all, while at the first node each of its packets pays it
/// once (`a` and `b` differ only in the switch cost).
pub proof fn law_fallback_switch_paid_at_first_node_only(
    graph: Graph,
    a: Input,
    b: Input,
    task: FallbackTask,
    costs: Seq<Option<i64>>,
)
    requires
        b.n_cores == a.n_cores,
        b.cost_r == a.cost_r,
    ensures
        task.path_index > 0 ==> fallback_duration(graph, b, task, costs) == fallback_duration(graph, a, task, costs),
        task.path_index == 0 ==> fallback_duration(graph, b, task, costs) - fallback_duration(graph, a, task, costs) == (
        b.cost_switch - a.cost_switch) * task.ps@.len(),
{
    let s = task.ps@.len() as int;
    assert(b.cost_switch * s - a.cost_switch * s == (b.cost_switch - a.cost_switch) * s) by (nonlinear_arith);
}

/// At every position of its path after the current one, the estimate of a
/// task carries all of its packets, chunked or not, as a fresh batch of that
/// size would: the node costs of the whole batch, and at each special node
/// visit every packet's known works, or one unknown visit per packet whose
/// works are not known.
pub proof fn law_later_nodes_carry_the_whole_task(graph: Graph, task: Task, costs: Seq<Option<i64>>, k: int)
    requires
        task.path_index < k,
    ensures
        task_fixed_from(graph, task, costs, k) == path_fixed_from(graph, task.packet_type as int, task.packets@.len() as int, k)
            + known_special(task.packets@, costs, false) * special_visits_from(graph, task.packet_type as int, k),
        task_special_from(graph, task, costs, k) == unknown_special(task.packets@, costs, false) * special_visits_from(
            graph,
            task.packet_type as int,
            k,
        ),
    decreases graph.path_len(task.packet_type as int) - k,
{
    let t = task.packet_type as int;
    if k < graph.path_len(t) {
        law_later_nodes_carry_the_whole_task(graph, task, costs, k + 1);
        let ks = known_special(task.packets@, costs, false);
        let us = unknown_special(task.packets@, costs, false);
        let r = special_visits_from(graph, t, k + 1);
        let x: int = if graph.node_at(t, k) == SPECIAL_NODE_ID { 1 } else { 0 };
        assert(ks * (x + r) == ks * x + ks * r) by (nonlinear_arith);
        assert(us * (x + r) == us * x + us * r) by (nonlinear_arith);
    }
}


/// A sequence with a packet not through the node counts at least one such packet.
proof fn lemma_some_unadvanced(ps: Seq<PacketStatus>, j: int)
    requires
        0 <= j < ps.len(),
        !ps[j].is_advanced,
    ensures
        count_unadvanced(ps) >= 1,
    decreases ps.len(),
{
    if j < ps.len() - 1 {
        assert(ps.drop_last()[j] == ps[j]);
        lemma_some_unadvanced(ps.drop_last(), j);
    } else {
        lemma_unadvanced_nonneg(ps.drop_last());
    }
}

proof fn lemma_unadvanced_nonneg(ps: Seq<PacketStatus>)
    ensures
        count_unadvanced(ps) >= 0,
    decreases ps.len(),
{
    if ps.len() > 0 {
        lemma_unadvanced_nonneg(ps.drop_last());
    }
}

/// Taking one packet at a time picks, among the first `k`, the first packet
/// not yet through the node, if there is one.
proof fn lemma_one_at_a_time(ps: Seq<PacketStatus>, q: Seq<PacketStatus>, k: int)
    requires
        0 <= k <= ps.len(),
    ensures
        picked(q, chunk_selects(ps, 1), k).len() == (if count_unadvanced(ps.take(k)) >= 1 {
            1int
        } else {
            0int
        }),
        count_unadvanced(ps.take(k)) >= 0,
    decreases k,
{
    if k > 0 {
        lemma_one_at_a_time(ps, q, k - 1);
        assert(ps.take(k).drop_last() =~= ps.take(k - 1));
        assert(ps.take(k).last() == ps[k - 1]);
    } else {
        assert(ps.take(0) =~= Seq::<PacketStatus>::empty());
    }
}

/// A node call the greedy scheduler sends at one of the chunk nodes (11,
/// 13, 15 and 18) runs exactly one packet, whatever the size of the task,
/// as long as the task has a packet that has not been through the node.
pub proof fn law_chunk_node_calls_take_one_packet(
    before: State,
    after: State,
    cmd: Command,
    core_id: usize,
    t0: int,
    input: Input,
    graph: Graph,
)
    requires
        runs_task(before, after, cmd, core_id, t0, input, graph),
        cmd matches Command::Execute { node_id, .. } && (node_id == 11 || node_id == 13 || node_id == 15 || node_id == 18),
        exists|j: int|
            0 <= j < before.next_tasks@[core_id as int]->0.packets@.len() && !(
            #[trigger] before.next_tasks@[core_id as int]->0.packets@[j]).is_advanced,
    ensures
        cmd matches Command::Execute { ids, .. } && ids@.len() == 1,
{
    let task = before.next_tasks@[core_id as int]->0;
    let ps = task.packets@;
    let j = choose|j: int| 0 <= j < ps.len() && !(#[trigger] ps[j]).is_advanced;
    lemma_some_unadvanced(ps, j);
    let sel = chunk_selects(ps, 1);
    lemma_one_at_a_time(ps, advanced_marks(ps, sel), ps.len() as int);
    assert(ps.take(ps.len() as int) =~= ps);
}


/// While packets of the subtask are still to come, the candidate batches
/// `create_tasks` plans (the `candidates` of its plan) grow to the full
/// batch size of their type before the next batch of the type starts: 24
/// packets for types 0 and 6, 16 for the others. A batch is cut short only
/// when taking the next packet too would leave no time before the earliest
/// deadline the batch can meet.
pub proof fn law_batches_fill_up_while_packets_arrive(
    plan: TaskPlan,
    state: State,
    cur_t: int,
    input: Input,
    graph: Graph,
    calculator: DurationCalculator,
    top_k: int,
    a: int,
)
    requires
        planned(plan, state, cur_t, input, graph, calculator, top_k),
        state.received_packets.que@.len() < state.packets@.len(),
        0 <= a < plan.candidates@.len() - 1,
        plan.candidates@[a].packet_type == plan.candidates@[a + 1].packet_type,
        grow_afford(
            state.packets@,
            plan.candidates@[a].packet_type as int,
            plan.candidates@[a].ids@.push(plan.candidates@[a + 1].ids@[0]),
            cur_t,
            input,
            calculator,
        ) > 0,
    ensures
        plan.candidates@[a].ids@.len() == (if plan.candidates@[a].packet_type == 0 || plan.candidates@[a].packet_type == 6 {
            24int
        } else {
            16int
        }),
{
    assert(cut_full_or_due(plan.candidates@[a], plan.candidates@[a + 1].ids@[0], state.packets@, cur_t, input, calculator));
}


/// The score's last departure (what `Tracker::score_counts` returns, from
/// `init`) is the latest end of the last node call of the first `k` packets,
/// or `init` when that is later; its first arrival is likewise the earliest
/// arrival, or `init` when that is earlier.
pub proof fn law_departure_and_arrival_extremes(
    history: Seq<Vec<PacketHistory>>,
    packets: Seq<Option<Packet>>,
    k: int,
    init_d: int,
    init_a: int,
)
    requires
        0 <= k,
    ensures
        init_d <= max_departure(history, k, init_d),
        forall|i: int| 0 <= i < k ==> #[trigger] history[i]@[history[i]@.len() - 1].end_t <= max_departure(history, k, init_d),
        max_departure(history, k, init_d) == init_d || exists|i: int|
            0 <= i < k && #[trigger] history[i]@[history[i]@.len() - 1].end_t == max_departure(history, k, init_d),
        min_arrive(packets, k, init_a) <= init_a,
        forall|i: int| 0 <= i < k ==> min_arrive(packets, k, init_a) <= #[trigger] packets[i]->0.arrive,
        min_arrive(packets, k, init_a) == init_a || exists|i: int|
            0 <= i < k && #[trigger] packets[i]->0.arrive == min_arrive(packets, k, init_a),
    decreases k,
{
    if k > 0 {
        law_departure_and_arrival_extremes(history, packets, k - 1, init_d, init_a);
        let i = k - 1;
        assert(history[i]@[history[i]@.len() - 1].end_t == history[i]@[history[i]@.len() - 1].end_t);
        assert(packets[i]->0.arrive == packets[i]->0.arrive);
    }
}

} // verus!
