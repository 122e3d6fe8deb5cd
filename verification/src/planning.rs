//! How the greedy scheduler turns waiting packets into candidate tasks: by
//! type, by deadline, in batches that keep their packets in time.
use vstd::prelude::*;

use crate::calculator::{duration_bounded, estimate_core_duration, core_duration_fixed, core_duration_special, DurationCalculator, DUR_FIXED_BOUND, DUR_SPECIAL_BOUND, MAX_TABLE_BATCH};
use crate::greedy::{get_base_max_batch_size, get_desired_batch_size, spec_max_batch_size, Batch, State, Task, INF, MAX_TASK_PACKETS, MIN_BATCH_SIZE};
use crate::tracker::TIME_CAP;
use crate::types::{Duration, Graph, Input, Packet, PacketStatus, MAX_COST, MAX_TIME, N_PACKET_TYPE};

verus! {

/// Bound on the time at which the scheduler plans.
pub const PLAN_TIME_CAP: i64 = TIME_CAP;

pub open spec fn pair_le(a: (i64, usize), b: (i64, usize)) -> bool {
    a.0 < b.0 || (a.0 == b.0 && a.1 <= b.1)
}

/// Sorts pairs by their first item, then by their second.
#[verifier::external_body]
pub(crate) fn sort_pairs(v: &mut Vec<(i64, usize)>)
    ensures
        final(v)@.to_multiset() == old(v)@.to_multiset(),
        forall|i: int, j: int| 0 <= i < j < final(v)@.len() ==> pair_le(#[trigger] final(v)@[i], #[trigger] final(v)@[j]),
{
    v.sort_unstable()
}

pub(crate) proof fn lemma_sorted_from(old_s: Seq<(i64, usize)>, new_s: Seq<(i64, usize)>, x: (i64, usize))
    requires
        new_s.to_multiset() == old_s.to_multiset(),
        new_s.contains(x),
    ensures
        old_s.contains(x),
{
    broadcast use vstd::seq_lib::to_multiset_contains;
    assert(new_s.to_multiset().count(x) > 0);
}

/// When a packet can start its next step: once received, and not before `cur_t`.
pub open spec fn spec_next_t(received_t: int, cur_t: int, cost_r: int) -> int {
    if received_t + cost_r >= cur_t {
        received_t + cost_r
    } else {
        cur_t
    }
}

fn next_t(received_t: i64, cur_t: i64, cost_r: i64) -> (r: i64)
    requires
        i64::MIN <= received_t + cost_r <= i64::MAX,
    ensures
        r == spec_next_t(received_t as int, cur_t as int, cost_r as int),
{
    let a = received_t + cost_r;
    if a >= cur_t {
        a
    } else {
        cur_t
    }
}

/// A packet that misses its deadline even in the quickest batch.
pub open spec fn spec_is_timeouted(packet: Packet, cur_t: int, cost_r: int, min_duration: Duration) -> bool {
    packet.time_limit < spec_next_t(packet.received_t as int, cur_t, cost_r) + min_duration.spec_estimate()
}

/// The deadline a packet is ordered by: its time limit, or `INF` when it
/// cannot make it even in the quickest batch.
pub open spec fn deadline_key(packet: Packet, cur_t: int, cost_r: int, min_duration: Duration) -> int {
    if spec_is_timeouted(packet, cur_t, cost_r, min_duration) {
        INF as int
    } else {
        packet.time_limit as int
    }
}

/// The packets `ids` come in deadline order.
pub open spec fn in_deadline_order(ids: Seq<usize>, packets: Seq<Option<Packet>>, cur_t: int, cost_r: int, min_duration: Duration) -> bool {
    forall|a: int, b: int|
        0 <= a < b < ids.len() ==> deadline_key(packets[#[trigger] ids[a] as int]->0, cur_t, cost_r, min_duration) <= deadline_key(
            packets[#[trigger] ids[b] as int]->0,
            cur_t,
            cost_r,
            min_duration,
        )
}

fn is_timeouted(packet: &Packet, cur_t: i64, cost_r: i64, min_duration: &Duration) -> (r: bool)
    requires
        -MAX_TIME <= packet.received_t <= MAX_TIME,
        0 <= cur_t <= PLAN_TIME_CAP,
        0 <= cost_r <= MAX_COST,
        duration_bounded(*min_duration),
    ensures
        r == spec_is_timeouted(*packet, cur_t as int, cost_r as int, *min_duration),
{
    let nt = next_t(packet.received_t, cur_t, cost_r);
    let e = min_duration.estimate();
    packet.time_limit < nt + e
}

/// A candidate batch: how much time its earliest deadline leaves, when its
/// last packet was received, its type and its packets.
pub struct Candidate {
    pub afford: i64,
    pub max_received_t: i64,
    pub packet_type: usize,
    pub ids: Vec<usize>,
}

/// The largest receive time among the given packets, and `-INF` for none.
pub open spec fn max_received(packets: Seq<Option<Packet>>, ids: Seq<usize>) -> int
    decreases ids.len(),
{
    if ids.len() == 0 {
        -INF
    } else {
        let m = max_received(packets, ids.drop_last());
        let r = packets[ids.last() as int]->0.received_t as int;
        if r > m {
            r
        } else {
            m
        }
    }
}

/// The candidate of the ids in `ids`, all packets of `state` of type
/// `packet_type` that are waiting.
pub open spec fn candidate_ok(c: Candidate, state: State) -> bool {
    &&& c.packet_type < N_PACKET_TYPE
    &&& 1 <= c.ids@.len() <= 2 * 24
    &&& -INF <= c.max_received_t <= MAX_TIME
    &&& c.max_received_t == max_received(state.packets@, c.ids@)
    &&& forall|k: int|
        0 <= k < c.ids@.len() ==> {
            let id = #[trigger] c.ids@[k];
            &&& state.await_packets.que@.contains(id)
            &&& state.packets@[id as int] is Some
            &&& state.packets@[id as int]->0.packet_type == c.packet_type
        }
}

/// The earliest deadline among the packets of `ids` that can still make it
/// (`INF` when none can).
pub open spec fn min_in_time(packets: Seq<Option<Packet>>, ids: Seq<usize>, cur_t: int, cost_r: int, min_duration: Duration) -> int
    decreases ids.len(),
{
    if ids.len() == 0 {
        INF as int
    } else {
        let m = min_in_time(packets, ids.drop_last(), cur_t, cost_r, min_duration);
        let p = packets[ids.last() as int]->0;
        if !spec_is_timeouted(p, cur_t, cost_r, min_duration) && (p.time_limit as int) < m {
            p.time_limit as int
        } else {
            m
        }
    }
}

/// The latest receive time among the packets of `ids` that can still make it
/// (`-INF` when none can).
pub open spec fn max_in_time(packets: Seq<Option<Packet>>, ids: Seq<usize>, cur_t: int, cost_r: int, min_duration: Duration) -> int
    decreases ids.len(),
{
    if ids.len() == 0 {
        -INF
    } else {
        let m = max_in_time(packets, ids.drop_last(), cur_t, cost_r, min_duration);
        let p = packets[ids.last() as int]->0;
        if !spec_is_timeouted(p, cur_t, cost_r, min_duration) && (p.received_t as int) > m {
            p.received_t as int
        } else {
            m
        }
    }
}

/// How much time a batch of the packets `ids` of `packet_type` leaves before
/// the earliest deadline it can still meet, as the batch grows: it starts
/// when the last of those packets is in.
pub open spec fn grow_afford(
    packets: Seq<Option<Packet>>,
    packet_type: int,
    ids: Seq<usize>,
    cur_t: int,
    input: Input,
    calculator: DurationCalculator,
) -> int {
    let min_duration = calculator.entry(packet_type, MIN_BATCH_SIZE as int, 0);
    min_in_time(packets, ids, cur_t, input.cost_r as int, min_duration) - (spec_next_t(
        max_in_time(packets, ids, cur_t, input.cost_r as int, min_duration),
        cur_t,
        input.cost_r as int,
    ) + calculator.entry(packet_type, ids.len() as int, 0).spec_estimate())
}

/// How much time a batch of the packets `ids` of `packet_type` leaves before
/// the earliest deadline that it can still meet, if it starts when its last
/// packet is in and runs its whole path.
pub open spec fn spec_afford(
    packets: Seq<Option<Packet>>,
    packet_type: int,
    ids: Seq<usize>,
    cur_t: int,
    input: Input,
    calculator: DurationCalculator,
) -> int {
    let min_duration = calculator.entry(packet_type, MIN_BATCH_SIZE as int, 0);
    min_in_time(packets, ids, cur_t, input.cost_r as int, min_duration) - (spec_next_t(
        max_received(packets, ids),
        cur_t,
        input.cost_r as int,
    ) + calculator.entry(packet_type, ids.len() as int, 0).spec_estimate())
}

/// The candidate's `afford` is what its packets leave (`spec_afford`).
pub open spec fn afford_ok(c: Candidate, state: State, cur_t: int, input: Input, calculator: DurationCalculator) -> bool {
    c.afford == spec_afford(state.packets@, c.packet_type as int, c.ids@, cur_t, input, calculator)
}

/// A candidate lists its packets in deadline order.
pub open spec fn cand_in_order(c: Candidate, state: State, cur_t: int, input: Input, calculator: DurationCalculator) -> bool {
    in_deadline_order(c.ids@, state.packets@, cur_t, input.cost_r as int, calculator.entry(c.packet_type as int, MIN_BATCH_SIZE as int, 0))
}

/// Each part of a sequence in deadline order is in deadline order.
proof fn lemma_flat_in_order(cs: Seq<Candidate>, packets: Seq<Option<Packet>>, cur_t: int, cost_r: int, md: Duration)
    requires
        in_deadline_order(flat_ids(cs), packets, cur_t, cost_r, md),
    ensures
        forall|i: int| 0 <= i < cs.len() ==> in_deadline_order((#[trigger] cs[i]).ids@, packets, cur_t, cost_r, md),
    decreases cs.len(),
{
    if cs.len() > 0 {
        let d = cs.drop_last();
        let f = flat_ids(d);
        let last = cs.last().ids@;
        assert(flat_ids(cs) == f + last);
        assert(in_deadline_order(f, packets, cur_t, cost_r, md)) by {
            assert forall|a: int, b: int| 0 <= a < b < f.len() implies deadline_key(packets[#[trigger] f[a] as int]->0, cur_t, cost_r, md)
                <= deadline_key(packets[#[trigger] f[b] as int]->0, cur_t, cost_r, md) by {
                assert((f + last)[a] == f[a] && (f + last)[b] == f[b]);
            }
        }
        lemma_flat_in_order(d, packets, cur_t, cost_r, md);
        assert forall|i: int| 0 <= i < cs.len() implies in_deadline_order((#[trigger] cs[i]).ids@, packets, cur_t, cost_r, md) by {
            if i < d.len() {
                assert(cs[i] == d[i]);
            } else {
                assert forall|a: int, b: int| 0 <= a < b < last.len() implies deadline_key(packets[#[trigger] last[a] as int]->0, cur_t, cost_r, md)
                    <= deadline_key(packets[#[trigger] last[b] as int]->0, cur_t, cost_r, md) by {
                    assert((f + last)[f.len() + a] == last[a] && (f + last)[f.len() + b] == last[b]);
                }
            }
        }
    }
}

/// What a task leaves before its earliest deadline that it can still meet.
pub open spec fn task_afford(task: Task, state: State, cur_t: int, input: Input, calculator: DurationCalculator) -> int {
    spec_afford(state.packets@, task.packet_type as int, task_ids(task), cur_t, input, calculator)
}

proof fn lemma_max_received_bounds(packets: Seq<Option<Packet>>, ids: Seq<usize>, n: nat)
    requires
        forall|k: int| 0 <= k < ids.len() ==> ((#[trigger] ids[k]) < packets.len() && packets[ids[k] as int] is Some && packets[ids[k] as int]->0.wf(n)),
    ensures
        -INF <= max_received(packets, ids) <= MAX_TIME,
    decreases ids.len(),
{
    if ids.len() > 0 {
        let q = ids.drop_last();
        assert forall|k: int| 0 <= k < q.len() implies ((#[trigger] q[k]) < packets.len() && packets[q[k] as int] is Some && packets[q[k] as int]->0.wf(n)) by {
            assert(q[k] == ids[k]);
        }
        lemma_max_received_bounds(packets, q, n);
        assert(ids.last() == ids[ids.len() - 1]);
    }
}

/// A sort of the pairs `(key, j)`, one for each index `j`, uses each index once.
proof fn lemma_sorted_keys(keys0: Seq<(i64, usize)>, keys: Seq<(i64, usize)>)
    requires
        forall|j: int| 0 <= j < keys0.len() ==> (#[trigger] keys0[j]).1 == j,
        keys.to_multiset() == keys0.to_multiset(),
    ensures
        keys.len() == keys0.len(),
        forall|a: int| 0 <= a < keys.len() ==> (#[trigger] keys[a]).1 < keys0.len() && keys[a] == keys0[keys[a].1 as int],
        forall|a: int, b: int| 0 <= a < b < keys.len() ==> (#[trigger] keys[a]).1 != (#[trigger] keys[b]).1,
        forall|g: int| 0 <= g < keys0.len() ==> #[trigger] keys0[g].1 == g && exists|a: int| 0 <= a < keys.len() && (#[trigger] keys[a]).1 == g,
{
    broadcast use vstd::seq_lib::group_to_multiset_ensures;

    assert(keys0.no_duplicates()) by {
        assert forall|a: int, b: int| 0 <= a < keys0.len() && 0 <= b < keys0.len() && a != b implies keys0[a] != keys0[b] by {
            assert(keys0[a].1 == a && keys0[b].1 == b);
        }
    }
    keys0.lemma_multiset_has_no_duplicates();
    keys.lemma_multiset_has_no_duplicates_conv();
    vstd::seq_lib::to_multiset_len(keys);
    vstd::seq_lib::to_multiset_len(keys0);
    assert forall|a: int| 0 <= a < keys.len() implies (#[trigger] keys[a]).1 < keys0.len() && keys[a] == keys0[keys[a].1 as int] by {
        assert(keys.contains(keys[a]));
        lemma_sorted_from(keys0, keys, keys[a]);
        let j = choose|j: int| 0 <= j < keys0.len() && keys0[j] == keys[a];
        assert(keys0[j].1 == j);
    }
    assert forall|a: int, b: int| 0 <= a < b < keys.len() implies (#[trigger] keys[a]).1 != (#[trigger] keys[b]).1 by {
        assert(keys[a] == keys0[keys[a].1 as int]);
        assert(keys[b] == keys0[keys[b].1 as int]);
    }
    assert forall|g: int| 0 <= g < keys0.len() implies #[trigger] keys0[g].1 == g && exists|a: int| 0 <= a < keys.len() && (#[trigger] keys[a]).1 == g by {
        assert(keys0.to_multiset().count(keys0[g]) > 0);
        assert(keys.to_multiset().count(keys0[g]) > 0);
        assert(keys.contains(keys0[g]));
        let a = choose|a: int| 0 <= a < keys.len() && keys[a] == keys0[g];
        assert(keys[a].1 == g);
    }
}

/// The packet ids of the candidates `cs`, one candidate after another.
pub open spec fn flat_ids(cs: Seq<Candidate>) -> Seq<usize>
    decreases cs.len(),
{
    if cs.len() == 0 {
        seq![]
    } else {
        flat_ids(cs.drop_last()) + cs.last().ids@
    }
}

/// The ids of the packets `ps`.
pub open spec fn packet_ids(ps: Seq<Packet>) -> Seq<usize> {
    ps.map_values(|p: Packet| p.i)
}

proof fn lemma_flat_concat(a: Seq<Candidate>, b: Seq<Candidate>)
    ensures
        flat_ids(a + b) == flat_ids(a) + flat_ids(b),
    decreases b.len(),
{
    if b.len() == 0 {
        assert(a + b == a);
        assert(flat_ids(a) + flat_ids(b) =~= flat_ids(a));
    } else {
        lemma_flat_concat(a, b.drop_last());
        assert((a + b).drop_last() == a + b.drop_last());
        assert((a + b).last() == b.last());
        assert(flat_ids(a) + flat_ids(b) =~= flat_ids(a) + flat_ids(b.drop_last()) + b.last().ids@);
    }
}

/// How the waiting packets are cut into candidate batches: each holds at
/// most the batch size of its type, grows past the least batch size only
/// while it still leaves time before its earliest deadline it can meet, only
/// the last batch of a type holds fewer than the least batch size, and the
/// batches of a type follow one another in deadline order.
pub open spec fn cuts_ok(cs: Seq<Candidate>, packets: Seq<Option<Packet>>, cur_t: int, input: Input, calculator: DurationCalculator) -> bool {
    &&& forall|k: int| 0 <= k < cs.len() ==> (#[trigger] cs[k]).ids@.len() <= spec_max_batch_size(cs[k].packet_type as int)
    &&& forall|k: int, j: int|
        0 <= k < cs.len() && MIN_BATCH_SIZE <= j < cs[k].ids@.len() ==> grow_afford(
            packets,
            cs[k].packet_type as int,
            #[trigger] cs[k].ids@.take(j + 1),
            cur_t,
            input,
            calculator,
        ) > 0
    &&& forall|a: int, b: int|
        0 <= a < b < cs.len() && (#[trigger] cs[a]).packet_type == (#[trigger] cs[b]).packet_type ==> cs[a].ids@.len()
            >= MIN_BATCH_SIZE
    &&& forall|a: int, b: int, x: int, y: int|
        0 <= a < b < cs.len() && cs[a].packet_type == cs[b].packet_type && 0 <= x < cs[a].ids@.len() && 0 <= y
            < cs[b].ids@.len() ==> deadline_key(
            packets[#[trigger] cs[a].ids@[x] as int]->0,
            cur_t,
            input.cost_r as int,
            calculator.entry(cs[a].packet_type as int, MIN_BATCH_SIZE as int, 0),
        ) <= deadline_key(
            packets[#[trigger] cs[b].ids@[y] as int]->0,
            cur_t,
            input.cost_r as int,
            calculator.entry(cs[a].packet_type as int, MIN_BATCH_SIZE as int, 0),
        )
}

/// Where a batch of a type was cut before the packet `next` that starts the
/// next batch of the type: it was full, or taking `next` too would have left
/// no time before the earliest deadline it can meet.
pub open spec fn cut_full_or_due(
    c: Candidate,
    next: usize,
    packets: Seq<Option<Packet>>,
    cur_t: int,
    input: Input,
    calculator: DurationCalculator,
) -> bool {
    c.ids@.len() == spec_max_batch_size(c.packet_type as int) || grow_afford(
        packets,
        c.packet_type as int,
        c.ids@.push(next),
        cur_t,
        input,
        calculator,
    ) <= 0
}

/// Every batch followed by another of its type was cut full or when its
/// deadline forced it (`cut_full_or_due`).
pub open spec fn cuts_full_or_due(cs: Seq<Candidate>, packets: Seq<Option<Packet>>, cur_t: int, input: Input, calculator: DurationCalculator) -> bool {
    forall|a: int|
        0 <= a < cs.len() - 1 && cs[a].packet_type == cs[a + 1].packet_type ==> #[trigger] cut_full_or_due(
            cs[a],
            cs[a + 1].ids@[0],
            packets,
            cur_t,
            input,
            calculator,
        )
}

/// A batch appended after those cut as `cuts_full_or_due` says keeps them
/// so, when the last of them was cut before its first packet.
proof fn lemma_full_or_due_push(
    cs: Seq<Candidate>,
    last: Candidate,
    packets: Seq<Option<Packet>>,
    cur_t: int,
    input: Input,
    calculator: DurationCalculator,
)
    requires
        cuts_full_or_due(cs, packets, cur_t, input, calculator),
        cs.len() > 0 && cs.last().packet_type == last.packet_type ==> cut_full_or_due(
            cs.last(),
            last.ids@[0],
            packets,
            cur_t,
            input,
            calculator,
        ),
    ensures
        cuts_full_or_due(cs.push(last), packets, cur_t, input, calculator),
{
    let ns = cs.push(last);
    assert forall|a: int|
        0 <= a < ns.len() - 1 && ns[a].packet_type == ns[a + 1].packet_type implies #[trigger] cut_full_or_due(
        ns[a],
        ns[a + 1].ids@[0],
        packets,
        cur_t,
        input,
        calculator,
    ) by {
        if a < cs.len() - 1 {
            assert(ns[a] == cs[a] && ns[a + 1] == cs[a + 1]);
        } else {
            assert(ns[a] == cs.last() && ns[a + 1] == last);
        }
    }
}

/// The batches of one more type, each cut as `cuts_full_or_due` says,
/// appended after those of the earlier types.
proof fn lemma_full_or_due_concat(
    c0: Seq<Candidate>,
    new: Seq<Candidate>,
    t: int,
    packets: Seq<Option<Packet>>,
    cur_t: int,
    input: Input,
    calculator: DurationCalculator,
)
    requires
        cuts_full_or_due(c0, packets, cur_t, input, calculator),
        cuts_full_or_due(new, packets, cur_t, input, calculator),
        forall|k: int| 0 <= k < c0.len() ==> (#[trigger] c0[k]).packet_type < t,
        forall|k: int| 0 <= k < new.len() ==> (#[trigger] new[k]).packet_type == t,
    ensures
        cuts_full_or_due(c0 + new, packets, cur_t, input, calculator),
{
    let cs = c0 + new;
    assert forall|a: int|
        0 <= a < cs.len() - 1 && cs[a].packet_type == cs[a + 1].packet_type implies #[trigger] cut_full_or_due(
        cs[a],
        cs[a + 1].ids@[0],
        packets,
        cur_t,
        input,
        calculator,
    ) by {
        if a < c0.len() - 1 {
            assert(cs[a] == c0[a] && cs[a + 1] == c0[a + 1]);
            assert(cut_full_or_due(c0[a], c0[a + 1].ids@[0], packets, cur_t, input, calculator));
        } else if a == c0.len() - 1 {
            assert(cs[a] == c0[a] && cs[a + 1] == new[0]);
        } else {
            let j = a - c0.len();
            assert(cs[a] == new[j] && cs[a + 1] == new[j + 1]);
            assert(cut_full_or_due(new[j], new[j + 1].ids@[0], packets, cur_t, input, calculator));
        }
    }
}

/// When the candidates' ids in a row are in deadline order, every id of a
/// candidate comes no later than every id of a later one.
proof fn lemma_flat_cross(cs: Seq<Candidate>, packets: Seq<Option<Packet>>, cur_t: int, cost_r: int, md: Duration)
    requires
        in_deadline_order(flat_ids(cs), packets, cur_t, cost_r, md),
    ensures
        forall|a: int, b: int, x: int, y: int|
            0 <= a < b < cs.len() && 0 <= x < cs[a].ids@.len() && 0 <= y < cs[b].ids@.len() ==> deadline_key(
                packets[#[trigger] cs[a].ids@[x] as int]->0,
                cur_t,
                cost_r,
                md,
            ) <= deadline_key(packets[#[trigger] cs[b].ids@[y] as int]->0, cur_t, cost_r, md),
    decreases cs.len(),
{
    if cs.len() > 0 {
        let d = cs.drop_last();
        let f = flat_ids(d);
        let last = cs.last().ids@;
        assert(flat_ids(cs) == f + last);
        assert(in_deadline_order(f, packets, cur_t, cost_r, md)) by {
            assert forall|a: int, b: int| 0 <= a < b < f.len() implies deadline_key(packets[#[trigger] f[a] as int]->0, cur_t, cost_r, md)
                <= deadline_key(packets[#[trigger] f[b] as int]->0, cur_t, cost_r, md) by {
                assert(flat_ids(cs)[a] == f[a] && flat_ids(cs)[b] == f[b]);
            }
        }
        lemma_flat_cross(d, packets, cur_t, cost_r, md);
        lemma_flat_parts(d);
        assert forall|a: int, b: int, x: int, y: int|
            0 <= a < b < cs.len() && 0 <= x < cs[a].ids@.len() && 0 <= y < cs[b].ids@.len() implies deadline_key(
                packets[#[trigger] cs[a].ids@[x] as int]->0,
                cur_t,
                cost_r,
                md,
            ) <= deadline_key(packets[#[trigger] cs[b].ids@[y] as int]->0, cur_t, cost_r, md) by {
            if b == cs.len() - 1 {
                let id = cs[a].ids@[x];
                assert(d[a] == cs[a]);
                assert(d[a].ids@.contains(id));
                assert(f.contains(id));
                let p = choose|p: int| 0 <= p < f.len() && f[p] == id;
                assert(flat_ids(cs)[p] == id);
                assert(flat_ids(cs)[f.len() + y] == last[y]);
            } else {
                assert(d[a] == cs[a] && d[b] == cs[b]);
            }
        }
    }
}

/// Appending the batches of one more type to candidates of lower types keeps
/// the cut rule.
proof fn lemma_cuts_extend(
    c0: Seq<Candidate>,
    new: Seq<Candidate>,
    t: int,
    packets: Seq<Option<Packet>>,
    cur_t: int,
    input: Input,
    calculator: DurationCalculator,
)
    requires
        cuts_ok(c0, packets, cur_t, input, calculator),
        forall|k: int| 0 <= k < c0.len() ==> (#[trigger] c0[k]).packet_type < t,
        forall|k: int| 0 <= k < new.len() ==> (#[trigger] new[k]).packet_type == t && new[k].ids@.len() <= spec_max_batch_size(t),
        forall|k: int| 0 <= k < new.len() - 1 ==> (#[trigger] new[k]).ids@.len() >= MIN_BATCH_SIZE,
        in_deadline_order(flat_ids(new), packets, cur_t, input.cost_r as int, calculator.entry(t, MIN_BATCH_SIZE as int, 0)),
        forall|k: int, j: int|
            0 <= k < new.len() && MIN_BATCH_SIZE <= j < new[k].ids@.len() ==> grow_afford(
                packets,
                new[k].packet_type as int,
                #[trigger] new[k].ids@.take(j + 1),
                cur_t,
                input,
                calculator,
            ) > 0,
    ensures
        cuts_ok(c0 + new, packets, cur_t, input, calculator),
        forall|k: int| 0 <= k < (c0 + new).len() ==> (#[trigger] (c0 + new)[k]).packet_type < t + 1,
{
    let cs = c0 + new;
    assert forall|k: int, j: int| 0 <= k < cs.len() && MIN_BATCH_SIZE <= j < cs[k].ids@.len() implies grow_afford(
        packets,
        cs[k].packet_type as int,
        #[trigger] cs[k].ids@.take(j + 1),
        cur_t,
        input,
        calculator,
    ) > 0 by {
        if k < c0.len() {
            assert(cs[k] == c0[k]);
        } else {
            assert(cs[k] == new[k - c0.len()]);
        }
    }
    lemma_flat_cross(new, packets, cur_t, input.cost_r as int, calculator.entry(t, MIN_BATCH_SIZE as int, 0));
    assert forall|k: int| 0 <= k < cs.len() implies (#[trigger] cs[k]).packet_type < t + 1
        && cs[k].ids@.len() <= spec_max_batch_size(cs[k].packet_type as int) by {
        if k < c0.len() {
            assert(cs[k] == c0[k]);
        }
    }
    assert forall|a: int, b: int|
        0 <= a < b < cs.len() && (#[trigger] cs[a]).packet_type == (#[trigger] cs[b]).packet_type implies cs[a].ids@.len()
            >= MIN_BATCH_SIZE by {
        if b < c0.len() {
            assert(cs[a] == c0[a] && cs[b] == c0[b]);
        } else if a < c0.len() {
            assert(cs[a] == c0[a]);
        }
    }
    assert forall|a: int, b: int, x: int, y: int|
        0 <= a < b < cs.len() && cs[a].packet_type == cs[b].packet_type && 0 <= x < cs[a].ids@.len() && 0 <= y
            < cs[b].ids@.len() implies deadline_key(
            packets[#[trigger] cs[a].ids@[x] as int]->0,
            cur_t,
            input.cost_r as int,
            calculator.entry(cs[a].packet_type as int, MIN_BATCH_SIZE as int, 0),
        ) <= deadline_key(
            packets[#[trigger] cs[b].ids@[y] as int]->0,
            cur_t,
            input.cost_r as int,
            calculator.entry(cs[a].packet_type as int, MIN_BATCH_SIZE as int, 0),
        ) by {
        if b < c0.len() {
            assert(cs[a] == c0[a] && cs[b] == c0[b]);
        } else if a < c0.len() {
            assert(cs[a] == c0[a]);
        } else {
            let a2 = a - c0.len();
            let b2 = b - c0.len();
            assert(cs[a] == new[a2] && cs[b] == new[b2]);
            assert(new[a2].ids@[x] == cs[a].ids@[x] && new[b2].ids@[y] == cs[b].ids@[y]);
        }
    }
}

/// The candidates' ids, when no id occurs twice among them: each candidate's
/// ids are distinct, no two candidates share one, and an id occurs among them
/// exactly when some candidate holds it.
proof fn lemma_flat_parts(cs: Seq<Candidate>)
    ensures
        forall|id: usize| #[trigger] flat_ids(cs).contains(id) <==> exists|i: int| 0 <= i < cs.len() && cs[i].ids@.contains(id),
        flat_ids(cs).no_duplicates() ==> forall|i: int| 0 <= i < cs.len() ==> (#[trigger] cs[i]).ids@.no_duplicates(),
        flat_ids(cs).no_duplicates() ==> forall|i: int, j: int, id: usize|
            0 <= i < j < cs.len() ==> !(#[trigger] cs[i].ids@.contains(id) && #[trigger] cs[j].ids@.contains(id)),
    decreases cs.len(),
{
    if cs.len() > 0 {
        let d = cs.drop_last();
        let last = cs.last().ids@;
        lemma_flat_parts(d);
        let f = flat_ids(d);
        assert(flat_ids(cs) == f + last);
        assert forall|id: usize| #[trigger] flat_ids(cs).contains(id) <==> exists|i: int| 0 <= i < cs.len() && cs[i].ids@.contains(id) by {
            if flat_ids(cs).contains(id) {
                let p = choose|p: int| 0 <= p < flat_ids(cs).len() && flat_ids(cs)[p] == id;
                if p < f.len() {
                    assert(f[p] == id);
                    assert(f.contains(id));
                    let i = choose|i: int| 0 <= i < d.len() && d[i].ids@.contains(id);
                    assert(cs[i] == d[i]);
                } else {
                    assert(last[p - f.len()] == id);
                    assert(cs[cs.len() - 1].ids@.contains(id));
                }
            }
            if exists|i: int| 0 <= i < cs.len() && cs[i].ids@.contains(id) {
                let i = choose|i: int| 0 <= i < cs.len() && cs[i].ids@.contains(id);
                if i < d.len() {
                    assert(d[i] == cs[i]);
                    assert(f.contains(id));
                    let p = choose|p: int| 0 <= p < f.len() && f[p] == id;
                    assert(flat_ids(cs)[p] == id);
                } else {
                    let p = choose|p: int| 0 <= p < last.len() && last[p] == id;
                    assert(flat_ids(cs)[f.len() + p] == id);
                }
            }
        }
        if flat_ids(cs).no_duplicates() {
            assert(f.no_duplicates()) by {
                assert forall|a: int, b: int| 0 <= a < f.len() && 0 <= b < f.len() && a != b implies f[a] != f[b] by {
                    assert(flat_ids(cs)[a] == f[a] && flat_ids(cs)[b] == f[b]);
                }
            }
            assert(last.no_duplicates()) by {
                assert forall|a: int, b: int| 0 <= a < last.len() && 0 <= b < last.len() && a != b implies last[a] != last[b] by {
                    assert(flat_ids(cs)[f.len() + a] == last[a] && flat_ids(cs)[f.len() + b] == last[b]);
                }
            }
            assert forall|i: int| 0 <= i < cs.len() implies (#[trigger] cs[i]).ids@.no_duplicates() by {
                if i < d.len() {
                    assert(cs[i] == d[i]);
                }
            }
            assert forall|i: int, j: int, id: usize|
                0 <= i < j < cs.len() implies !(#[trigger] cs[i].ids@.contains(id) && #[trigger] cs[j].ids@.contains(id)) by {
                assert(cs[i] == d[i]);
                if j < d.len() {
                    assert(cs[j] == d[j]);
                } else if cs[i].ids@.contains(id) && cs[j].ids@.contains(id) {
                    assert(f.contains(id));
                    let p = choose|p: int| 0 <= p < f.len() && f[p] == id;
                    let q = choose|q: int| 0 <= q < last.len() && last[q] == id;
                    assert(flat_ids(cs)[p] == id && flat_ids(cs)[f.len() + q] == id);
                }
            }
        }
    }
}

/// Builds the candidate of `ids`, whose earliest in-time deadline is `min_time_limit`.
fn push_task(
    state: &State,
    cur_t: i64,
    input: &Input,
    calculator: &DurationCalculator,
    packet_type: usize,
    cur_ids: &Vec<usize>,
    min_time_limit: i64,
    tasks: &mut Vec<Candidate>,
    Ghost(n): Ghost<nat>,
    Ghost(graph): Ghost<Graph>,
)
    requires
        state.wf(n, *input, graph),
        input.wf(),
        calculator.wf(),
        forall|t: int, b: int, f: int|
            0 <= t < N_PACKET_TYPE && 0 <= b <= MAX_TABLE_BATCH && 0 <= f <= calculator.max_from()
                ==> duration_bounded(#[trigger] calculator.entry(t, b, f)),
        packet_type < N_PACKET_TYPE,
        0 <= cur_t <= PLAN_TIME_CAP,
        -MAX_TIME <= min_time_limit <= INF,
        min_time_limit == min_in_time(
            state.packets@,
            cur_ids@,
            cur_t as int,
            input.cost_r as int,
            calculator.entry(packet_type as int, MIN_BATCH_SIZE as int, 0),
        ),
        1 <= cur_ids@.len() <= 2 * 24,
        forall|k: int|
            0 <= k < cur_ids@.len() ==> {
                let id = #[trigger] cur_ids@[k];
                &&& state.await_packets.que@.contains(id)
                &&& state.packets@[id as int] is Some
                &&& state.packets@[id as int]->0.packet_type == packet_type
            },
    ensures
        final(tasks)@.len() == old(tasks)@.len() + 1,
        forall|k: int| 0 <= k < old(tasks)@.len() ==> #[trigger] final(tasks)@[k] == old(tasks)@[k],
        candidate_ok(final(tasks)@.last(), *state),
        final(tasks)@.last().packet_type == packet_type,
        final(tasks)@.last().ids@ == cur_ids@,
        final(tasks)@.last().afford == spec_afford(state.packets@, packet_type as int, cur_ids@, cur_t as int, *input, *calculator),
{
    let mut max_received_t: i64 = -INF;
    let mut k: usize = 0;
    while k < cur_ids.len()
        invariant
            state.wf(n, *input, graph),
            k <= cur_ids@.len(),
            forall|j: int|
                0 <= j < cur_ids@.len() ==> {
                    let id = #[trigger] cur_ids@[j];
                    &&& state.await_packets.que@.contains(id)
                    &&& state.packets@[id as int] is Some
                },
            max_received_t == max_received(state.packets@, cur_ids@.take(k as int)),
            -INF <= max_received_t <= MAX_TIME,
        decreases cur_ids@.len() - k,
    {
        let id = cur_ids[k];
        proof {
            assert(cur_ids@.take(k + 1).drop_last() == cur_ids@.take(k as int));
            assert(cur_ids@.take(k + 1).last() == id);
            let j = state.await_packets.que@.index_of(id);
            state.await_packets.que@.index_of_first_ensures(id);
            assert(state.await_packets.que@[j] == id);
            assert(id < state.packets@.len());
            assert(state.packets@[id as int]->0.wf(n));
        }
        let packet = state.packets[id].as_ref().unwrap();
        if packet.received_t > max_received_t {
            max_received_t = packet.received_t;
        }
        k = k + 1;
    }
    proof {
        assert(cur_ids@.take(cur_ids@.len() as int) == cur_ids@);
    }
    proof {
        calculator.lemma_wf();
    }
    let d = calculator.get_path_duration(packet_type, cur_ids.len(), 0);
    proof {
        assert(duration_bounded(calculator.entry(packet_type as int, cur_ids@.len() as int, 0)));
    }
    let batch_duration = d.estimate();
    let nt = next_t(max_received_t, cur_t, input.cost_r);
    let afford = min_time_limit - (nt + batch_duration);
    tasks.push(Candidate { afford, max_received_t, packet_type, ids: cur_ids.clone() });
    proof {
        assert(final(tasks)@.last().ids@ =~= cur_ids@);
    }
}

/// The bounds the planner works within.
pub open spec fn plan_ok(state: State, n: nat, input: Input, graph: Graph, calculator: DurationCalculator, cur_t: int) -> bool {
    &&& state.wf(n, input, graph)
    &&& input.wf()
    &&& graph.wf()
    &&& calculator.describes(input, graph)
    &&& 0 <= cur_t <= PLAN_TIME_CAP
}

pub(crate) proof fn lemma_await_member(state: State, n: nat, input: Input, graph: Graph, id: usize)
    requires
        state.wf(n, input, graph),
        state.await_packets.que@.contains(id),
    ensures
        id < n,
        state.packets@[id as int] is Some,
        state.packets@[id as int]->0.wf(n),
        state.packets@[id as int]->0.i == id,
{
    let j = state.await_packets.que@.index_of(id);
    state.await_packets.que@.index_of_first_ensures(id);
    assert(state.await_packets.que@[j] == id);
}

/// The waiting packets of `packet_type` in deadline order; those that cannot
/// make their deadline even in the quickest batch come last.
fn deadline_order(
    state: &State,
    cur_t: i64,
    input: &Input,
    calculator: &DurationCalculator,
    packet_type: usize,
    min_duration: &Duration,
    Ghost(n): Ghost<nat>,
    Ghost(graph): Ghost<Graph>,
) -> (sorted: Vec<Packet>)
    requires
        plan_ok(*state, n, *input, graph, *calculator, cur_t as int),
        packet_type < N_PACKET_TYPE,
        duration_bounded(*min_duration),
    ensures
        forall|j: int|
            0 <= j < sorted@.len() ==> {
                let p = #[trigger] sorted@[j];
                &&& state.await_packets.que@.contains(p.i)
                &&& state.packets@[p.i as int] == Some(p)
                &&& p.packet_type == packet_type
                &&& p.wf(n)
            },
        forall|a: int, b: int| 0 <= a < b < sorted@.len() ==> (#[trigger] sorted@[a]).i != (#[trigger] sorted@[b]).i,
        forall|j: int|
            0 <= j < state.await_packets.que@.len() && state.packets@[state.await_packets.que@[j] as int]->0.packet_type
                == packet_type ==> exists|s: int|
                0 <= s < sorted@.len() && (#[trigger] sorted@[s]).i == state.await_packets.que@[j],
        forall|a: int, b: int|
            0 <= a < b < sorted@.len() ==> deadline_key(#[trigger] sorted@[a], cur_t as int, input.cost_r as int, *min_duration)
                <= deadline_key(#[trigger] sorted@[b], cur_t as int, input.cost_r as int, *min_duration),
{
    proof {
        calculator.lemma_wf();
    }
    // the waiting packets of this type, in the order they wait
    let mut group: Vec<Packet> = Vec::new();
    let que = state.await_packets.iter();
    let mut k: usize = 0;
    while k < que.len()
        invariant
            plan_ok(*state, n, *input, graph, *calculator, cur_t as int),
            que@ == state.await_packets.que@,
            k <= que@.len(),
            group@.len() <= k,
            packet_type < N_PACKET_TYPE,
            forall|j: int|
                0 <= j < group@.len() ==> {
                    let p = #[trigger] group@[j];
                    &&& state.await_packets.que@.contains(p.i)
                    &&& state.packets@[p.i as int] == Some(p)
                    &&& p.packet_type == packet_type
                    &&& p.wf(n)
                },
            forall|g: int| 0 <= g < group@.len() ==> exists|j: int| 0 <= j < k && que@[j] == (#[trigger] group@[g]).i,
            forall|a: int, b: int| 0 <= a < b < group@.len() ==> (#[trigger] group@[a]).i != (#[trigger] group@[b]).i,
            forall|j: int|
                0 <= j < k && state.packets@[que@[j] as int]->0.packet_type == packet_type ==> exists|g: int|
                    0 <= g < group@.len() && group@[g].i == #[trigger] que@[j],
        decreases que@.len() - k,
    {
        let id = que[k];
        proof {
            assert(que@.contains(id));
            lemma_await_member(*state, n, *input, graph, id);
        }
        let packet = state.packets[id].unwrap();
        let ghost g0 = group@;
        if packet.packet_type == packet_type {
            group.push(packet);
            proof {
                assert forall|a: int, b: int| 0 <= a < b < group@.len() implies (#[trigger] group@[a]).i != (#[trigger] group@[b]).i by {
                    if b == group@.len() - 1 {
                        assert(group@[a] == g0[a]);
                        let j = choose|j: int| 0 <= j < k && que@[j] == (#[trigger] g0[a]).i;
                        assert(que@.no_duplicates());
                        assert(que@[j] != que@[k as int]);
                    }
                }
                assert(group@[g0.len() as int].i == que@[k as int]);
            }
        }
        proof {
            assert forall|g: int| 0 <= g < group@.len() implies exists|j: int| 0 <= j < k + 1 && que@[j] == (#[trigger] group@[g]).i by {
                if g < g0.len() {
                    assert(group@[g] == g0[g]);
                    let j = choose|j: int| 0 <= j < k && que@[j] == (#[trigger] g0[g]).i;
                } else {
                    assert(que@[k as int] == group@[g].i);
                }
            }
            assert forall|j: int|
                0 <= j < k + 1 && state.packets@[que@[j] as int]->0.packet_type == packet_type implies exists|g: int|
                    0 <= g < group@.len() && group@[g].i == #[trigger] que@[j] by {
                if j < k {
                    let g = choose|g: int| 0 <= g < g0.len() && g0[g].i == #[trigger] que@[j];
                    assert(group@[g] == g0[g]);
                } else {
                    assert(state.packets@[id as int] == Some(packet));
                    assert(group@[g0.len() as int].i == que@[j]);
                }
            }
        }
        k = k + 1;
    }
    // order the packets by deadline, those that cannot make it last
    let mut keys: Vec<(i64, usize)> = Vec::new();
    let mut k: usize = 0;
    while k < group.len()
        invariant
            plan_ok(*state, n, *input, graph, *calculator, cur_t as int),
            duration_bounded(*min_duration),
            k <= group@.len(),
            keys@.len() == k,
            forall|j: int| 0 <= j < k ==> (#[trigger] keys@[j]).1 == j,
            forall|j: int|
                0 <= j < k ==> (#[trigger] keys@[j]).0 == deadline_key(group@[j], cur_t as int, input.cost_r as int, *min_duration),
            forall|j: int|
                0 <= j < group@.len() ==> (#[trigger] group@[j]).wf(n),
        decreases group@.len() - k,
    {
        let p = group[k];
        let key = if is_timeouted(&p, cur_t, input.cost_r, min_duration) {
            INF
        } else {
            p.time_limit
        };
        keys.push((key, k));
        k = k + 1;
    }
    let ghost keys0 = keys@;
    sort_pairs(&mut keys);
    proof {
        lemma_sorted_keys(keys0, keys@);
        assert forall|a: int| 0 <= a < keys@.len() implies (#[trigger] keys@[a]).0 == deadline_key(
            group@[keys@[a].1 as int],
            cur_t as int,
            input.cost_r as int,
            *min_duration,
        ) by {
            assert(keys@[a] == keys0[keys@[a].1 as int]);
        }
    }
    let mut sorted: Vec<Packet> = Vec::new();
    let mut k: usize = 0;
    while k < keys.len()
        invariant
            k <= keys@.len(),
            sorted@.len() == k,
            keys@.len() == keys0.len(),
            keys0.len() == group@.len(),
            forall|a: int| 0 <= a < keys@.len() ==> (#[trigger] keys@[a]).1 < keys0.len(),
            forall|j: int| 0 <= j < k ==> #[trigger] sorted@[j] == group@[keys@[j].1 as int],
            forall|a: int|
                0 <= a < keys@.len() ==> (#[trigger] keys@[a]).0 == deadline_key(
                    group@[keys@[a].1 as int],
                    cur_t as int,
                    input.cost_r as int,
                    *min_duration,
                ),
        decreases keys@.len() - k,
    {
        let g = keys[k].1;
        sorted.push(group[g]);
        k = k + 1;
    }
    assert forall|j: int| 0 <= j < sorted@.len() implies {
        let p = #[trigger] sorted@[j];
        &&& state.await_packets.que@.contains(p.i)
        &&& state.packets@[p.i as int] == Some(p)
        &&& p.packet_type == packet_type
        &&& p.wf(n)
    } by {
        assert(sorted@[j] == group@[keys@[j].1 as int]);
    }
    assert forall|a: int, b: int| 0 <= a < b < sorted@.len() implies deadline_key(
        #[trigger] sorted@[a],
        cur_t as int,
        input.cost_r as int,
        *min_duration,
    ) <= deadline_key(#[trigger] sorted@[b], cur_t as int, input.cost_r as int, *min_duration) by {
        assert(sorted@[a] == group@[keys@[a].1 as int]);
        assert(sorted@[b] == group@[keys@[b].1 as int]);
        assert(pair_le(keys@[a], keys@[b]));
    }
    // each waiting packet of this type once
    assert forall|a: int, b: int| 0 <= a < b < sorted@.len() implies (#[trigger] sorted@[a]).i != (#[trigger] sorted@[b]).i by {
        assert(sorted@[a] == group@[keys@[a].1 as int]);
        assert(sorted@[b] == group@[keys@[b].1 as int]);
        let ga = keys@[a].1 as int;
        let gb = keys@[b].1 as int;
        if ga < gb {
            assert(group@[ga].i != group@[gb].i);
        } else {
            assert(group@[gb].i != group@[ga].i);
        }
    }
    assert forall|j: int|
        0 <= j < que@.len() && state.packets@[que@[j] as int]->0.packet_type == packet_type implies exists|s: int|
            0 <= s < sorted@.len() && (#[trigger] sorted@[s]).i == que@[j] by {
        let g = choose|g: int| 0 <= g < group@.len() && group@[g].i == #[trigger] que@[j];
        assert(keys0[g].1 == g);
        let a = choose|a: int| 0 <= a < keys@.len() && (#[trigger] keys@[a]).1 == g;
        assert(sorted@[a] == group@[g]);
    }
    sorted
}

/// Splits the waiting packets of `packet_type` into candidate batches, in
/// deadline order, and appends them to `tasks`.
fn batch_packet_type(
    state: &State,
    cur_t: i64,
    input: &Input,
    calculator: &DurationCalculator,
    packet_type: usize,
    received_all: bool,
    tasks: &mut Vec<Candidate>,
    Ghost(n): Ghost<nat>,
    Ghost(graph): Ghost<Graph>,
)
    requires
        plan_ok(*state, n, *input, graph, *calculator, cur_t as int),
        packet_type < N_PACKET_TYPE,
        forall|k: int| 0 <= k < old(tasks)@.len() ==> candidate_ok(#[trigger] old(tasks)@[k], *state),
        forall|k: int| 0 <= k < old(tasks)@.len() ==> afford_ok(#[trigger] old(tasks)@[k], *state, cur_t as int, *input, *calculator),
        forall|k: int| 0 <= k < old(tasks)@.len() ==> cand_in_order(#[trigger] old(tasks)@[k], *state, cur_t as int, *input, *calculator),
    ensures
        forall|k: int| 0 <= k < final(tasks)@.len() ==> cand_in_order(#[trigger] final(tasks)@[k], *state, cur_t as int, *input, *calculator),
        forall|k: int| 0 <= k < final(tasks)@.len() ==> candidate_ok(#[trigger] final(tasks)@[k], *state),
        forall|k: int| 0 <= k < final(tasks)@.len() ==> afford_ok(#[trigger] final(tasks)@[k], *state, cur_t as int, *input, *calculator),
        final(tasks)@.len() >= old(tasks)@.len(),
        forall|k: int| 0 <= k < old(tasks)@.len() ==> #[trigger] final(tasks)@[k] == old(tasks)@[k],
        flat_ids(final(tasks)@.subrange(old(tasks)@.len() as int, final(tasks)@.len() as int)).no_duplicates(),
        forall|id: usize|
            #[trigger] flat_ids(final(tasks)@.subrange(old(tasks)@.len() as int, final(tasks)@.len() as int)).contains(id)
                <==> (state.await_packets.que@.contains(id) && state.packets@[id as int]->0.packet_type == packet_type),
        forall|k: int|
            old(tasks)@.len() <= k < final(tasks)@.len() ==> (#[trigger] final(tasks)@[k]).packet_type == packet_type
                && final(tasks)@[k].ids@.len() <= spec_max_batch_size(packet_type as int),
        forall|k: int|
            old(tasks)@.len() <= k < final(tasks)@.len() - 1 ==> (#[trigger] final(tasks)@[k]).ids@.len() >= MIN_BATCH_SIZE,
        forall|k: int, j: int|
            old(tasks)@.len() <= k < final(tasks)@.len() && MIN_BATCH_SIZE <= j < final(tasks)@[k].ids@.len() ==> grow_afford(
                state.packets@,
                packet_type as int,
                #[trigger] final(tasks)@[k].ids@.take(j + 1),
                cur_t as int,
                *input,
                *calculator,
            ) > 0,
        in_deadline_order(
            flat_ids(final(tasks)@.subrange(old(tasks)@.len() as int, final(tasks)@.len() as int)),
            state.packets@,
            cur_t as int,
            input.cost_r as int,
            calculator.entry(packet_type as int, MIN_BATCH_SIZE as int, 0),
        ),
        !received_all ==> cuts_full_or_due(
            final(tasks)@.subrange(old(tasks)@.len() as int, final(tasks)@.len() as int),
            state.packets@,
            cur_t as int,
            *input,
            *calculator,
        ),
{
    proof {
        calculator.lemma_wf();
    }
    let min_duration = calculator.get_path_duration(packet_type, MIN_BATCH_SIZE, 0);
    proof {
        assert(duration_bounded(calculator.entry(packet_type as int, MIN_BATCH_SIZE as int, 0)));
    }
    let sorted = deadline_order(state, cur_t, input, calculator, packet_type, &min_duration, Ghost(n), Ghost(graph));
    let ghost que = state.await_packets.que@;
    let base_max_batch_size = get_base_max_batch_size(packet_type, input, state.await_packets.size());
    let mut max_batch_size = base_max_batch_size;
    if received_all {
        max_batch_size = get_desired_batch_size(sorted.len(), base_max_batch_size);
    }
    let mut min_time_limit: i64 = INF;
    let mut max_received_t: i64 = -INF;
    let mut cur_ids: Vec<usize> = Vec::with_capacity(base_max_batch_size);
    let ghost tasks0 = tasks@.len();
    let mut i: usize = 0;
    while i < sorted.len()
        invariant
            plan_ok(*state, n, *input, graph, *calculator, cur_t as int),
            duration_bounded(min_duration),
            packet_type < N_PACKET_TYPE,
            base_max_batch_size == spec_max_batch_size(packet_type as int),
            max_batch_size <= base_max_batch_size,
            max_received_t == max_in_time(state.packets@, cur_ids@, cur_t as int, input.cost_r as int, min_duration),
            forall|j: int|
                MIN_BATCH_SIZE <= j < cur_ids@.len() ==> grow_afford(
                    state.packets@,
                    packet_type as int,
                    #[trigger] cur_ids@.take(j + 1),
                    cur_t as int,
                    *input,
                    *calculator,
                ) > 0,
            forall|k: int, j: int|
                tasks0 <= k < tasks@.len() && MIN_BATCH_SIZE <= j < tasks@[k].ids@.len() ==> grow_afford(
                    state.packets@,
                    packet_type as int,
                    #[trigger] tasks@[k].ids@.take(j + 1),
                    cur_t as int,
                    *input,
                    *calculator,
                ) > 0,
            forall|k: int|
                tasks0 <= k < tasks@.len() ==> (#[trigger] tasks@[k]).packet_type == packet_type && tasks@[k].ids@.len()
                    <= spec_max_batch_size(packet_type as int) && tasks@[k].ids@.len() >= MIN_BATCH_SIZE,
            i <= sorted@.len(),
            tasks0 == old(tasks)@.len(),
            tasks@.len() >= tasks0,
            forall|k: int| 0 <= k < tasks0 ==> #[trigger] tasks@[k] == old(tasks)@[k],
            flat_ids(tasks@.subrange(tasks0 as int, tasks@.len() as int)) + cur_ids@ == packet_ids(sorted@).take(i as int),
            i > 0 ==> cur_ids@.len() > 0,
            max_batch_size <= 2 * 24,
            cur_ids@.len() <= (if max_batch_size < 2 { 2 } else { max_batch_size as int }),
            cur_ids@.len() <= i,
            -MAX_TIME <= min_time_limit <= INF,
            -INF <= max_received_t <= MAX_TIME,
            min_duration == calculator.entry(packet_type as int, MIN_BATCH_SIZE as int, 0),
            min_time_limit == min_in_time(state.packets@, cur_ids@, cur_t as int, input.cost_r as int, min_duration),
            forall|j: int|
                0 <= j < sorted@.len() ==> {
                    let p = #[trigger] sorted@[j];
                    &&& state.await_packets.que@.contains(p.i)
                    &&& state.packets@[p.i as int] == Some(p)
                    &&& p.packet_type == packet_type
                    &&& p.wf(n)
                },
            forall|j: int|
                0 <= j < cur_ids@.len() ==> {
                    let id = #[trigger] cur_ids@[j];
                    &&& state.await_packets.que@.contains(id)
                    &&& state.packets@[id as int] is Some
                    &&& state.packets@[id as int]->0.packet_type == packet_type
                },
            forall|k: int| 0 <= k < tasks@.len() ==> candidate_ok(#[trigger] tasks@[k], *state),
            forall|k: int| 0 <= k < tasks@.len() ==> afford_ok(#[trigger] tasks@[k], *state, cur_t as int, *input, *calculator),
            tasks0 <= tasks@.len() <= tasks0 + i,
            !received_all ==> max_batch_size == base_max_batch_size,
            !received_all ==> cuts_full_or_due(
                tasks@.subrange(tasks0 as int, tasks@.len() as int),
                state.packets@,
                cur_t as int,
                *input,
                *calculator,
            ),
            !received_all && tasks@.len() > tasks0 ==> cut_full_or_due(
                tasks@.last(),
                cur_ids@[0],
                state.packets@,
                cur_t as int,
                *input,
                *calculator,
            ),
        decreases sorted@.len() - i,
    {
        let packet = sorted[i];
        proof {
            calculator.lemma_wf();
            assert(duration_bounded(calculator.entry(packet.packet_type as int, cur_ids@.len() as int + 1, 0)));
        }
        let new_duration = calculator.get_path_duration(packet.packet_type, cur_ids.len() + 1, 0).estimate();
        let is_timeouted_packet = is_timeouted(&packet, cur_t, input.cost_r, &min_duration);
        let changed_to_timeout_batch = if is_timeouted_packet {
            let nt = next_t(max_received_t, cur_t, input.cost_r);
            min_time_limit <= nt + new_duration && cur_ids.len() >= 1
        } else {
            let rt = if packet.received_t > max_received_t {
                packet.received_t
            } else {
                max_received_t
            };
            let nt = next_t(rt, cur_t, input.cost_r);
            let tl = if packet.time_limit < min_time_limit {
                packet.time_limit
            } else {
                min_time_limit
            };
            tl <= nt + new_duration && cur_ids.len() >= 1
        };
        let ghost pre = cur_ids@;
        let ghost grown = cur_ids@.push(packet.i);
        proof {
            assert(grown.drop_last() == pre);
            assert(state.packets@[packet.i as int] == Some(packet));
            assert(is_timeouted_packet == spec_is_timeouted(packet, cur_t as int, input.cost_r as int, min_duration));
            if cur_ids.len() >= 1 && !changed_to_timeout_batch {
                assert(grow_afford(state.packets@, packet_type as int, grown, cur_t as int, *input, *calculator) > 0);
            }
            if changed_to_timeout_batch {
                assert(grow_afford(state.packets@, packet_type as int, grown, cur_t as int, *input, *calculator) <= 0);
            }
        }
        let ghost first0 = if cur_ids@.len() > 0 { cur_ids@[0] } else { packet.i };
        if (changed_to_timeout_batch || cur_ids.len() >= max_batch_size) && cur_ids.len()
            >= MIN_BATCH_SIZE {
            let ghost t_before = tasks@;
            push_task(state, cur_t, input, calculator, packet_type, &cur_ids, min_time_limit, tasks, Ghost(n), Ghost(graph));
            proof {
                assert forall|k: int, j: int|
                    tasks0 <= k < tasks@.len() && MIN_BATCH_SIZE <= j < tasks@[k].ids@.len() implies grow_afford(
                        state.packets@,
                        packet_type as int,
                        #[trigger] tasks@[k].ids@.take(j + 1),
                        cur_t as int,
                        *input,
                        *calculator,
                    ) > 0 by {
                    if k < t_before.len() {
                        assert(tasks@[k] == t_before[k]);
                    } else {
                        assert(tasks@[k].ids@ == pre);
                    }
                }
                assert(tasks@.subrange(tasks0 as int, tasks@.len() as int) =~= t_before.subrange(tasks0 as int, t_before.len() as int).push(tasks@.last()));
                assert(tasks@.subrange(tasks0 as int, tasks@.len() as int).drop_last() =~= t_before.subrange(tasks0 as int, t_before.len() as int));
                if !received_all {
                    assert(tasks@.last().ids@.push(packet.i) == grown);
                    assert(cut_full_or_due(tasks@.last(), packet.i, state.packets@, cur_t as int, *input, *calculator));
                    lemma_full_or_due_push(
                        t_before.subrange(tasks0 as int, t_before.len() as int),
                        tasks@.last(),
                        state.packets@,
                        cur_t as int,
                        *input,
                        *calculator,
                    );
                }
            }
            cur_ids.clear();
            min_time_limit = INF;
            max_received_t = -INF;
            if received_all {
                max_batch_size = get_desired_batch_size(sorted.len() - i, base_max_batch_size);
            }
        }
        let ghost m0 = min_time_limit;
        let ghost r0 = max_received_t;
        assert(m0 == min_in_time(state.packets@, cur_ids@, cur_t as int, input.cost_r as int, min_duration));
        assert(r0 == max_in_time(state.packets@, cur_ids@, cur_t as int, input.cost_r as int, min_duration));
        if !is_timeouted_packet {
            if packet.time_limit < min_time_limit {
                min_time_limit = packet.time_limit;
            }
            if packet.received_t > max_received_t {
                max_received_t = packet.received_t;
            }
        }
        let ghost before = cur_ids@;
        cur_ids.push(packet.i);
        proof {
            assert(packet_ids(sorted@).take(i + 1) =~= packet_ids(sorted@).take(i as int).push(packet.i));
            assert(cur_ids@ =~= before.push(packet.i));
            assert(cur_ids@.drop_last() == before);
            assert(cur_ids@.last() == packet.i);
            assert(state.packets@[packet.i as int] == Some(packet));
            assert(is_timeouted_packet == spec_is_timeouted(packet, cur_t as int, input.cost_r as int, min_duration));
            assert(min_in_time(state.packets@, cur_ids@, cur_t as int, input.cost_r as int, min_duration) == (if !spec_is_timeouted(packet, cur_t as int, input.cost_r as int, min_duration) && (packet.time_limit as int) < m0 {
                packet.time_limit as int
            } else {
                m0 as int
            }));
            assert(max_in_time(state.packets@, cur_ids@, cur_t as int, input.cost_r as int, min_duration) == (if !spec_is_timeouted(packet, cur_t as int, input.cost_r as int, min_duration) && (packet.received_t as int) > r0 {
                packet.received_t as int
            } else {
                r0 as int
            }));
            assert forall|j: int|
                MIN_BATCH_SIZE <= j < cur_ids@.len() implies grow_afford(
                    state.packets@,
                    packet_type as int,
                    #[trigger] cur_ids@.take(j + 1),
                    cur_t as int,
                    *input,
                    *calculator,
                ) > 0 by {
                if before.len() > 0 {
                    assert(before == pre);
                    if j < before.len() {
                        assert(cur_ids@.take(j + 1) == before.take(j + 1));
                    } else {
                        assert(cur_ids@.take(j + 1) == grown);
                    }
                }
            }
        }
        i = i + 1;
    }
    let ghost t_before = tasks@;
    if cur_ids.len() > 0 {
        push_task(state, cur_t, input, calculator, packet_type, &cur_ids, min_time_limit, tasks, Ghost(n), Ghost(graph));
        proof {
            assert(tasks@.subrange(tasks0 as int, tasks@.len() as int) =~= t_before.subrange(tasks0 as int, t_before.len() as int).push(tasks@.last()));
            assert(tasks@.subrange(tasks0 as int, tasks@.len() as int).drop_last() =~= t_before.subrange(tasks0 as int, t_before.len() as int));
            if !received_all {
                lemma_full_or_due_push(
                    t_before.subrange(tasks0 as int, t_before.len() as int),
                    tasks@.last(),
                    state.packets@,
                    cur_t as int,
                    *input,
                    *calculator,
                );
            }
        }
    } else {
        assert(cur_ids@ =~= Seq::<usize>::empty());
        assert(flat_ids(tasks@.subrange(tasks0 as int, tasks@.len() as int)) + cur_ids@ =~= flat_ids(tasks@.subrange(tasks0 as int, tasks@.len() as int)));
    }
    proof {
        let ids = packet_ids(sorted@);
        let new = tasks@.subrange(tasks0 as int, tasks@.len() as int);
        assert(ids.take(sorted@.len() as int) == ids);
        assert(flat_ids(new) == ids);
        assert forall|k: int| tasks0 <= k < tasks@.len() implies (#[trigger] tasks@[k]).packet_type == packet_type
            && tasks@[k].ids@.len() <= spec_max_batch_size(packet_type as int) by {
            if k < t_before.len() {
                assert(tasks@[k] == t_before[k]);
            }
        }
        assert forall|k: int| tasks0 <= k < tasks@.len() - 1 implies (#[trigger] tasks@[k]).ids@.len() >= MIN_BATCH_SIZE by {
            assert(k < t_before.len());
            assert(tasks@[k] == t_before[k]);
        }
        assert(in_deadline_order(ids, state.packets@, cur_t as int, input.cost_r as int, min_duration)) by {
            assert forall|a: int, b: int| 0 <= a < b < ids.len() implies deadline_key(
                state.packets@[#[trigger] ids[a] as int]->0,
                cur_t as int,
                input.cost_r as int,
                min_duration,
            ) <= deadline_key(state.packets@[#[trigger] ids[b] as int]->0, cur_t as int, input.cost_r as int, min_duration) by {
                assert(ids[a] == sorted@[a].i && ids[b] == sorted@[b].i);
                assert(state.packets@[sorted@[a].i as int] == Some(sorted@[a]));
                assert(state.packets@[sorted@[b].i as int] == Some(sorted@[b]));
            }
        }
        lemma_flat_in_order(new, state.packets@, cur_t as int, input.cost_r as int, min_duration);
        assert forall|k: int| 0 <= k < tasks@.len() implies cand_in_order(#[trigger] tasks@[k], *state, cur_t as int, *input, *calculator) by {
            if k >= tasks0 {
                assert(tasks@[k] == new[k - tasks0]);
                assert(candidate_ok(tasks@[k], *state));
                let c = tasks@[k];
                if c.ids@.len() > 0 {
                    assert(state.packets@[c.ids@[0] as int]->0.packet_type == c.packet_type);
                    assert(flat_ids(new).contains(c.ids@[0])) by {
                        lemma_flat_parts(new);
                        assert(new[k - tasks0].ids@.contains(c.ids@[0]));
                    }
                }
            }
        }
        assert(ids.no_duplicates()) by {
            assert forall|a: int, b: int| 0 <= a < ids.len() && 0 <= b < ids.len() && a != b implies ids[a] != ids[b] by {
                if a < b {
                    assert((sorted@[a]).i != (sorted@[b]).i);
                } else {
                    assert((sorted@[b]).i != (sorted@[a]).i);
                }
            }
        }
        assert forall|id: usize| #[trigger] flat_ids(new).contains(id) <==> (state.await_packets.que@.contains(id)
            && state.packets@[id as int]->0.packet_type == packet_type) by {
            if flat_ids(new).contains(id) {
                let s = choose|s: int| 0 <= s < ids.len() && ids[s] == id;
                assert(ids[s] == sorted@[s].i);
            }
            if state.await_packets.que@.contains(id) && state.packets@[id as int]->0.packet_type == packet_type {
                let j = choose|j: int| 0 <= j < que.len() && que[j] == id;
                let s = choose|s: int| 0 <= s < sorted@.len() && (#[trigger] sorted@[s]).i == que[j];
                assert(ids[s] == id);
            }
        }
    }
}

/// Candidate tasks and what the order optimizer needs to order them.
pub struct TaskPlan {
    pub tasks: Vec<Task>,
    pub batches: Vec<Batch>,
    pub next_ts: Vec<i64>,
    /// The candidate batches the tasks were chosen from.
    pub candidates: Ghost<Seq<Candidate>>,
    /// Which candidate each task is.
    pub picked: Ghost<Seq<int>>,
}

/// The packet ids of a task.
pub open spec fn task_ids(task: Task) -> Seq<usize> {
    task.packets@.map_values(|p: PacketStatus| p.id)
}

/// A freshly planned task: at the start of its path, of waiting packets none
/// of which has moved, all still to leave core 0, and ready once its last
/// packet is received (and not before `cur_t`).
pub open spec fn fresh_task_ok(task: Task, state: State, graph: Graph, input: Input, cur_t: int) -> bool {
    &&& task.wf(state.packets@, graph)
    &&& task.path_index == 0
    &&& !task.is_chunked
    &&& task.last_chunk_min_i is None
    &&& task.packets@.len() <= 2 * 24
    &&& task.next_t == spec_next_t(max_received(state.packets@, task_ids(task)), cur_t, input.cost_r as int)
    &&& forall|k: int|
        0 <= k < task.packets@.len() ==> {
            let p = #[trigger] task.packets@[k];
            &&& !p.is_advanced
            &&& p.is_switching_core
            &&& state.await_packets.que@.contains(p.id)
            &&& state.packets@[p.id as int]->0.packet_type == task.packet_type
        }
}

/// What the order optimizer sees of a task.
pub open spec fn batch_of(b: Batch, task: Task, state: State, calculator: DurationCalculator) -> bool {
    &&& b.next_t == task.next_t
    &&& b.duration == calculator.entry(task.packet_type as int, task.packets@.len() as int, 0)
    &&& b.time_limits@.len() == task.packets@.len()
    &&& forall|k: int|
        0 <= k < task.packets@.len() ==> #[trigger] b.time_limits@[k]
            == state.packets@[task.packets@[k].id as int]->0.time_limit
}

/// The batches of `tasks`, for the order optimizer.
pub fn task_to_batches(tasks: &Vec<Task>, state: &State, calculator: &DurationCalculator) -> (r: Vec<Batch>)
    requires
        calculator.wf(),
        forall|k: int|
            0 <= k < tasks@.len() ==> {
                let t = #[trigger] tasks@[k];
                &&& t.packet_type < N_PACKET_TYPE
                &&& t.packets@.len() <= MAX_TABLE_BATCH
                &&& forall|j: int|
                    0 <= j < t.packets@.len() ==> t.packets@[j].id < state.packets@.len()
                        && state.packets@[t.packets@[j].id as int] is Some
            },
    ensures
        r@.len() == tasks@.len(),
        forall|k: int| 0 <= k < tasks@.len() ==> batch_of(#[trigger] r@[k], tasks@[k], *state, *calculator),
{
    proof {
        calculator.lemma_wf();
    }
    let mut batches: Vec<Batch> = Vec::with_capacity(tasks.len());
    let mut k: usize = 0;
    while k < tasks.len()
        invariant
            calculator.wf(),
            calculator.max_from() >= 0,
            k <= tasks@.len(),
            batches@.len() == k,
            forall|q: int|
                0 <= q < tasks@.len() ==> {
                    let t = #[trigger] tasks@[q];
                    &&& t.packet_type < N_PACKET_TYPE
                    &&& t.packets@.len() <= MAX_TABLE_BATCH
                    &&& forall|j: int|
                        0 <= j < t.packets@.len() ==> t.packets@[j].id < state.packets@.len()
                            && state.packets@[t.packets@[j].id as int] is Some
                },
            forall|q: int| 0 <= q < k ==> batch_of(#[trigger] batches@[q], tasks@[q], *state, *calculator),
        decreases tasks@.len() - k,
    {
        let task = &tasks[k];
        let mut time_limits: Vec<i64> = Vec::with_capacity(task.packets.len());
        let mut j: usize = 0;
        while j < task.packets.len()
            invariant
                j <= task.packets@.len(),
                time_limits@.len() == j,
                forall|i: int|
                    0 <= i < task.packets@.len() ==> task.packets@[i].id < state.packets@.len()
                        && state.packets@[task.packets@[i].id as int] is Some,
                forall|i: int| 0 <= i < j ==> #[trigger] time_limits@[i]
                    == state.packets@[task.packets@[i].id as int]->0.time_limit,
            decreases task.packets@.len() - j,
        {
            let id = task.packets[j].id;
            time_limits.push(state.packets[id].unwrap().time_limit);
            j = j + 1;
        }
        let duration = calculator.get_path_duration(task.packet_type, task.packets.len(), 0);
        batches.push(Batch { time_limits, duration, next_t: task.next_t });
        k = k + 1;
    }
    batches
}

/// What `create_tasks` hands back for `state` at `cur_t`: the plan's tasks
/// are the `top_k` candidate batches that leave the least time, most urgent
/// first, each a fresh task of waiting packets in deadline order; the
/// candidates are cut as `cuts_ok` says and hold every waiting packet once;
/// and the batches and core times are what the order optimizer needs.
pub open spec fn planned(
    plan: TaskPlan,
    state: State,
    cur_t: int,
    input: Input,
    graph: Graph,
    calculator: DurationCalculator,
    top_k: int,
) -> bool {
    &&& plan.tasks@.len() <= top_k
    &&& forall|k: int| 0 <= k < plan.tasks@.len() ==> fresh_task_ok(#[trigger] plan.tasks@[k], state, graph, input, cur_t)
    &&& forall|a: int, b: int|
        0 <= a < b < plan.tasks@.len() ==> task_afford(#[trigger] plan.tasks@[a], state, cur_t, input, calculator)
            <= task_afford(#[trigger] plan.tasks@[b], state, cur_t, input, calculator)
    &&& forall|k: int| 0 <= k < plan.tasks@.len() ==> task_ids(#[trigger] plan.tasks@[k]).no_duplicates()
    &&& forall|a: int, b: int, id: usize|
        0 <= a < b < plan.tasks@.len() ==> !(#[trigger] task_ids(plan.tasks@[a]).contains(id) && #[trigger] task_ids(
            plan.tasks@[b],
        ).contains(id))
    &&& plan.tasks@.len() < top_k ==> forall|id: usize|
        state.await_packets.que@.contains(id) ==> exists|k: int|
            0 <= k < plan.tasks@.len() && #[trigger] task_ids(plan.tasks@[k]).contains(id)
    &&& forall|k: int|
        0 <= k < plan.tasks@.len() ==> in_deadline_order(
            task_ids(#[trigger] plan.tasks@[k]),
            state.packets@,
            cur_t,
            input.cost_r as int,
            calculator.entry(plan.tasks@[k].packet_type as int, MIN_BATCH_SIZE as int, 0),
        )
    &&& plan.batches@.len() == plan.tasks@.len()
    &&& forall|k: int| 0 <= k < plan.tasks@.len() ==> batch_of(#[trigger] plan.batches@[k], plan.tasks@[k], state, calculator)
    &&& plan.next_ts@.len() == input.n_cores
    &&& plan.tasks@.len() == (if top_k < plan.candidates@.len() {
        top_k
    } else {
        plan.candidates@.len() as int
    })
    &&& plan.picked@.len() == plan.tasks@.len()
    &&& forall|k: int|
        0 <= k < plan.tasks@.len() ==> 0 <= #[trigger] plan.picked@[k] < plan.candidates@.len() && task_ids(
            plan.tasks@[k],
        ) == plan.candidates@[plan.picked@[k]].ids@ && plan.tasks@[k].packet_type == plan.candidates@[plan.picked@[k]].packet_type
    &&& forall|a: int, b: int| 0 <= a < b < plan.picked@.len() ==> #[trigger] plan.picked@[a] != #[trigger] plan.picked@[b]
    &&& forall|k: int, c: int|
        0 <= k < plan.tasks@.len() && 0 <= c < plan.candidates@.len() && !plan.picked@.contains(c) ==> task_afford(
            #[trigger] plan.tasks@[k],
            state,
            cur_t,
            input,
            calculator,
        ) <= (#[trigger] plan.candidates@[c]).afford
    &&& forall|c: int|
        0 <= c < plan.candidates@.len() ==> candidate_ok(#[trigger] plan.candidates@[c], state) && afford_ok(
            plan.candidates@[c],
            state,
            cur_t,
            input,
            calculator,
        )
    &&& flat_ids(plan.candidates@).no_duplicates()
    &&& forall|id: usize| #[trigger] flat_ids(plan.candidates@).contains(id) <==> state.await_packets.que@.contains(id)
    &&& cuts_ok(plan.candidates@, state.packets@, cur_t, input, calculator)
    &&& state.received_packets.que@.len() < state.packets@.len() ==> cuts_full_or_due(
        plan.candidates@,
        state.packets@,
        cur_t,
        input,
        calculator,
    )
    &&& forall|c: int|
        0 <= c < input.n_cores ==> #[trigger] plan.next_ts@[c] == cur_t + core_duration_fixed(state, c, input, graph)
            + 128 * core_duration_special(state, c, graph)
}

/// Candidate tasks for the waiting packets and what the order optimizer
/// needs to order them. The waiting packets of each type, in deadline order
/// (those that cannot make it last), are cut into batches as `cuts_ok` says;
/// of these the `top_k` that leave the least time are kept, listed most
/// urgent first. Callers order them with the optimizer and `order_tasks`,
/// which stacks them so that the task to start first comes last.
#[verifier::rlimit(100)]
#[verifier::spinoff_prover]
pub fn create_tasks(
    state: &State,
    cur_t: i64,
    input: &Input,
    graph: &Graph,
    calculator: &DurationCalculator,
    top_k: usize,
) -> (plan: TaskPlan)
    requires
        plan_ok(*state, state.packets@.len(), *input, *graph, *calculator, cur_t as int),
    ensures
        planned(plan, *state, cur_t as int, *input, *graph, *calculator, top_k as int),
{
    let ghost n = state.packets@.len();
    let received_all = state.is_received_all();
    let mut candidates: Vec<Candidate> = Vec::new();
    let mut t: usize = 0;
    while t < N_PACKET_TYPE
        invariant
            plan_ok(*state, n, *input, *graph, *calculator, cur_t as int),
            n == state.packets@.len(),
            t <= N_PACKET_TYPE,
            forall|k: int| 0 <= k < candidates@.len() ==> candidate_ok(#[trigger] candidates@[k], *state),
            forall|k: int| 0 <= k < candidates@.len() ==> afford_ok(#[trigger] candidates@[k], *state, cur_t as int, *input, *calculator),
            forall|k: int| 0 <= k < candidates@.len() ==> cand_in_order(#[trigger] candidates@[k], *state, cur_t as int, *input, *calculator),
            flat_ids(candidates@).no_duplicates(),
            forall|id: usize|
                #[trigger] flat_ids(candidates@).contains(id) <==> (state.await_packets.que@.contains(id)
                    && state.packets@[id as int]->0.packet_type < t),
            forall|k: int| 0 <= k < candidates@.len() ==> (#[trigger] candidates@[k]).packet_type < t,
            cuts_ok(candidates@, state.packets@, cur_t as int, *input, *calculator),
            received_all == (state.received_packets.que@.len() == state.packets@.len()),
            !received_all ==> cuts_full_or_due(candidates@, state.packets@, cur_t as int, *input, *calculator),
        decreases N_PACKET_TYPE - t,
    {
        let ghost c0 = candidates@;
        batch_packet_type(state, cur_t, input, calculator, t, received_all, &mut candidates, Ghost(n), Ghost(*graph));
        proof {
            let new = candidates@.subrange(c0.len() as int, candidates@.len() as int);
            assert(candidates@ =~= c0 + new);
            lemma_cuts_extend(c0, new, t as int, state.packets@, cur_t as int, *input, *calculator);
            if !received_all {
                lemma_full_or_due_concat(c0, new, t as int, state.packets@, cur_t as int, *input, *calculator);
            }
            lemma_flat_concat(c0, new);
            let f0 = flat_ids(c0);
            let f1 = flat_ids(new);
            assert(flat_ids(candidates@) == f0 + f1);
            assert forall|a: int, b: int|
                0 <= a < (f0 + f1).len() && 0 <= b < (f0 + f1).len() && a != b implies (f0 + f1)[a] != (f0 + f1)[b] by {
                if a < f0.len() && b >= f0.len() {
                    assert(f0.contains(f0[a]));
                    assert(f1.contains(f1[b - f0.len()]));
                } else if b < f0.len() && a >= f0.len() {
                    assert(f0.contains(f0[b]));
                    assert(f1.contains(f1[a - f0.len()]));
                }
            }
            assert forall|id: usize|
                #[trigger] flat_ids(candidates@).contains(id) <==> (state.await_packets.que@.contains(id)
                    && state.packets@[id as int]->0.packet_type < t + 1) by {
                if (f0 + f1).contains(id) {
                    let p = choose|p: int| 0 <= p < (f0 + f1).len() && (f0 + f1)[p] == id;
                    if p < f0.len() {
                        assert(f0.contains(id));
                    } else {
                        assert(f1[p - f0.len()] == id);
                        assert(f1.contains(id));
                    }
                }
                if state.await_packets.que@.contains(id) && state.packets@[id as int]->0.packet_type < t + 1 {
                    if state.packets@[id as int]->0.packet_type < t {
                        assert(f0.contains(id));
                        let p = choose|p: int| 0 <= p < f0.len() && f0[p] == id;
                        assert((f0 + f1)[p] == id);
                    } else {
                        assert(f1.contains(id));
                        let p = choose|p: int| 0 <= p < f1.len() && f1[p] == id;
                        assert((f0 + f1)[f0.len() + p] == id);
                    }
                }
            }
        }
        t = t + 1;
    }
    // best candidates first: the least time left
    let mut keys: Vec<(i64, usize)> = Vec::new();
    let mut k: usize = 0;
    while k < candidates.len()
        invariant
            k <= candidates@.len(),
            keys@.len() == k,
            forall|j: int| 0 <= j < k ==> (#[trigger] keys@[j]).1 == j,
            forall|j: int| 0 <= j < k ==> (#[trigger] keys@[j]).0 == candidates@[j].afford,
        decreases candidates@.len() - k,
    {
        keys.push((candidates[k].afford, k));
        k = k + 1;
    }
    let ghost keys0 = keys@;
    sort_pairs(&mut keys);
    proof {
        lemma_sorted_keys(keys0, keys@);
    }
    let mut tasks: Vec<Task> = Vec::new();
    let ghost mut picked: Seq<int> = Seq::empty();
    let mut k: usize = 0;
    while k < keys.len() && k < top_k
        invariant
            picked.len() == k,
            forall|j: int| 0 <= j < k ==> #[trigger] picked[j] == keys@[j].1 as int,
            forall|j: int| 0 <= j < k ==> task_ids(#[trigger] tasks@[j]) == candidates@[keys@[j].1 as int].ids@,
            forall|a: int| 0 <= a < keys@.len() ==> (#[trigger] keys@[a]).1 < keys0.len(),
            plan_ok(*state, n, *input, *graph, *calculator, cur_t as int),
            n == state.packets@.len(),
            k <= keys@.len(),
            k <= top_k,
            tasks@.len() == k,
            keys@.to_multiset() == keys0.to_multiset(),
            keys0.len() == candidates@.len(),
            forall|j: int| 0 <= j < keys0.len() ==> (#[trigger] keys0[j]).1 == j,
            forall|j: int| 0 <= j < keys0.len() ==> (#[trigger] keys0[j]).0 == candidates@[j].afford,
            forall|j: int| 0 <= j < candidates@.len() ==> candidate_ok(#[trigger] candidates@[j], *state),
            forall|j: int| 0 <= j < candidates@.len() ==> afford_ok(#[trigger] candidates@[j], *state, cur_t as int, *input, *calculator),
            forall|j: int| 0 <= j < k ==> fresh_task_ok(#[trigger] tasks@[j], *state, *graph, *input, cur_t as int),
            forall|j: int| 0 <= j < k ==> task_afford(#[trigger] tasks@[j], *state, cur_t as int, *input, *calculator) == keys@[j].0,
            forall|i: int, j: int| 0 <= i < j < keys@.len() ==> pair_le(#[trigger] keys@[i], #[trigger] keys@[j]),
        decreases keys@.len() - k,
    {
        let ci = keys[k].1;
        proof {
            assert(keys@.contains(keys@[k as int]));
            lemma_sorted_from(keys0, keys@, keys@[k as int]);
            let j = choose|j: int| 0 <= j < keys0.len() && keys0[j] == keys@[k as int];
            assert(keys0[j].1 == j);
        }
        let cand = &candidates[ci];
        proof {
            assert(candidate_ok(*cand, *state));
            assert(afford_ok(*cand, *state, cur_t as int, *input, *calculator));
            let j = choose|j: int| 0 <= j < keys0.len() && keys0[j] == keys@[k as int];
            assert(keys@[k as int].0 == cand.afford);
        }
        let mut packets: Vec<PacketStatus> = Vec::with_capacity(cand.ids.len());
        let mut j: usize = 0;
        while j < cand.ids.len()
            invariant
                j <= cand.ids@.len(),
                packets@.len() == j,
                forall|i: int| 0 <= i < j ==> #[trigger] packets@[i] == (PacketStatus {
                    id: cand.ids@[i],
                    is_advanced: false,
                    is_switching_core: true,
                }),
            decreases cand.ids@.len() - j,
        {
            packets.push(PacketStatus { id: cand.ids[j], is_advanced: false, is_switching_core: true });
            j = j + 1;
        }
        let task = Task {
            next_t: next_t(cand.max_received_t, cur_t, input.cost_r),
            packet_type: cand.packet_type,
            path_index: 0,
            is_chunked: false,
            packets,
            last_chunk_min_i: None,
        };
        proof {
            assert(task_ids(task) =~= cand.ids@);
            assert forall|q: int| 0 <= q < task.packets@.len() implies (#[trigger] task.packets@[q]).id < n by {
                let id = cand.ids@[q];
                assert(state.await_packets.que@.contains(id));
                lemma_await_member(*state, n, *input, *graph, id);
            }
            assert(task.wf(state.packets@, *graph));
        }
        tasks.push(task);
        proof {
            picked = picked.push(keys@[k as int].1 as int);
        }
        k = k + 1;
    }
    proof {
        lemma_flat_parts(candidates@);
        assert forall|q: int, c: int|
            0 <= q < tasks@.len() && 0 <= c < candidates@.len() && !picked.contains(c) implies task_afford(
                #[trigger] tasks@[q],
                *state,
                cur_t as int,
                *input,
                *calculator,
            ) <= (#[trigger] candidates@[c]).afford by {
            assert(keys0[c].1 == c);
            let a = choose|a: int| 0 <= a < keys@.len() && (#[trigger] keys@[a]).1 == c;
            if a < k {
                assert(picked[a] == c);
            }
            assert(keys@[a] == keys0[c]);
            if q < a {
                assert(pair_le(keys@[q], keys@[a]));
            }
        }
        assert forall|id: usize| #[trigger] flat_ids(candidates@).contains(id) <==> state.await_packets.que@.contains(id) by {
            if state.await_packets.que@.contains(id) {
                lemma_await_member(*state, n, *input, *graph, id);
            }
        }
        assert forall|q: int| 0 <= q < tasks@.len() implies task_ids(#[trigger] tasks@[q]).no_duplicates() by {
            assert(task_ids(tasks@[q]) == candidates@[keys@[q].1 as int].ids@);
        }
        assert forall|a: int, b: int, id: usize|
            0 <= a < b < tasks@.len() implies !(#[trigger] task_ids(tasks@[a]).contains(id) && #[trigger] task_ids(tasks@[b]).contains(id)) by {
            let ca = keys@[a].1 as int;
            let cb = keys@[b].1 as int;
            assert(task_ids(tasks@[a]) == candidates@[ca].ids@);
            assert(task_ids(tasks@[b]) == candidates@[cb].ids@);
            assert(ca != cb);
            if ca < cb {
                assert(!(candidates@[ca].ids@.contains(id) && candidates@[cb].ids@.contains(id)));
            } else {
                assert(!(candidates@[cb].ids@.contains(id) && candidates@[ca].ids@.contains(id)));
            }
        }
        if tasks@.len() < top_k {
            assert(k == keys@.len());
            assert forall|id: usize| state.await_packets.que@.contains(id) implies exists|q: int|
                0 <= q < tasks@.len() && #[trigger] task_ids(tasks@[q]).contains(id) by {
                lemma_await_member(*state, n, *input, *graph, id);
                assert(flat_ids(candidates@).contains(id));
                let i = choose|i: int| 0 <= i < candidates@.len() && candidates@[i].ids@.contains(id);
                assert(keys0[i].1 == i);
                let a = choose|a: int| 0 <= a < keys@.len() && (#[trigger] keys@[a]).1 == i;
                assert(task_ids(tasks@[a]) == candidates@[i].ids@);
            }
        }
    }
    proof {
        assert forall|q: int| 0 <= q < tasks@.len() implies {
            let t = #[trigger] tasks@[q];
            &&& t.packet_type < N_PACKET_TYPE
            &&& t.packets@.len() <= MAX_TABLE_BATCH
            &&& forall|j: int|
                0 <= j < t.packets@.len() ==> t.packets@[j].id < state.packets@.len()
                    && state.packets@[t.packets@[j].id as int] is Some
        } by {
            assert(fresh_task_ok(tasks@[q], *state, *graph, *input, cur_t as int));
            assert(tasks@[q].wf(state.packets@, *graph));
        }
    }
    let batches = task_to_batches(&tasks, state, calculator);
    let mut next_ts: Vec<i64> = Vec::with_capacity(input.n_cores);
    let mut c: usize = 0;
    while c < input.n_cores
        invariant
            plan_ok(*state, n, *input, *graph, *calculator, cur_t as int),
            n == state.packets@.len(),
            c <= input.n_cores,
            next_ts@.len() == c,
            forall|q: int| 0 <= q < c ==> #[trigger] next_ts@[q] == cur_t + core_duration_fixed(*state, q, *input, *graph)
                + 128 * core_duration_special(*state, q, *graph),
        decreases input.n_cores - c,
    {
        proof {
            assert(state.idle_tasks@[c as int] is None);
            if let Some(task) = state.next_tasks@[c as int] {
                assert(task.wf(state.packets@, *graph));
            }
        }
        let d = estimate_core_duration(state, c, input, graph);
        let e = d.estimate();
        next_ts.push(cur_t + e);
        c = c + 1;
    }
    TaskPlan { tasks, batches, next_ts, candidates: Ghost(candidates@), picked: Ghost(picked) }
}

/// The tasks of a plan in the optimizer's order, reversed: the task to start
/// first comes last.
pub fn order_tasks(tasks: &Vec<Task>, best_order: &Vec<usize>) -> (r: Vec<Task>)
    requires
        forall|k: int| 0 <= k < best_order@.len() ==> #[trigger] best_order@[k] < tasks@.len(),
    ensures
        r@.len() == best_order@.len(),
        forall|k: int|
            0 <= k < r@.len() ==> same_task(#[trigger] r@[k], tasks@[best_order@[best_order@.len() - 1 - k] as int]),
{
    let mut r: Vec<Task> = Vec::with_capacity(best_order.len());
    let mut k: usize = best_order.len();
    while k > 0
        invariant
            k <= best_order@.len(),
            r@.len() == best_order@.len() - k,
            forall|q: int| 0 <= q < best_order@.len() ==> #[trigger] best_order@[q] < tasks@.len(),
            forall|q: int|
                0 <= q < r@.len() ==> same_task(#[trigger] r@[q], tasks@[best_order@[best_order@.len() - 1 - q] as int]),
        decreases k,
    {
        k = k - 1;
        let idx = best_order[k];
        r.push(clone_task(&tasks[idx]));
    }
    r
}

/// Two tasks with the same fields and the same packets.
pub open spec fn same_task(a: Task, b: Task) -> bool {
    &&& a.next_t == b.next_t
    &&& a.packet_type == b.packet_type
    &&& a.path_index == b.path_index
    &&& a.is_chunked == b.is_chunked
    &&& a.last_chunk_min_i == b.last_chunk_min_i
    &&& a.packets@ == b.packets@
}

/// A copy of a task.
pub fn clone_task(task: &Task) -> (r: Task)
    ensures
        same_task(r, *task),
{
    let mut packets: Vec<PacketStatus> = Vec::with_capacity(task.packets.len());
    let mut j: usize = 0;
    while j < task.packets.len()
        invariant
            j <= task.packets@.len(),
            packets@ == task.packets@.take(j as int),
        decreases task.packets@.len() - j,
    {
        packets.push(task.packets[j]);
        proof {
            assert(task.packets@.take(j + 1) == task.packets@.take(j as int).push(task.packets@[j as int]));
        }
        j = j + 1;
    }
    proof {
        assert(task.packets@.take(task.packets@.len() as int) == task.packets@);
    }
    Task {
        next_t: task.next_t,
        packet_type: task.packet_type,
        path_index: task.path_index,
        is_chunked: task.is_chunked,
        last_chunk_min_i: task.last_chunk_min_i,
        packets,
    }
}

} // verus!
