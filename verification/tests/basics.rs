use lib::calculator::{estimate_core_duration, estimate_task_duration, DurationCalculator};
use lib::greedy::{
    get_base_max_batch_size, get_desired_batch_size, get_receive_dt, get_special_node_chunk_size,
    split_task, Event, EventQueue, GreedySolver, State, Task,
};
use lib::libb::{IndexSet, Rnd};
use lib::mock::fixed_graph;
use lib::tracker::Tracker;
use lib::types::{Duration, Input, Packet, PacketHistory, PacketStatus, TaskLog};

fn status(id: usize, is_advanced: bool) -> PacketStatus {
    PacketStatus { id, is_advanced, is_switching_core: false }
}

#[test]
fn duration_bounds_and_estimate() {
    let d = Duration::new(100, 2);
    assert_eq!(d.lower_bound(), 100);
    assert_eq!(d.upper_bound(), 100 + 2 * 160);
    // four fifths of the way from 100 to 420
    assert_eq!(d.estimate(), 356);
    assert!(d.lower_bound() <= d.estimate() && d.estimate() <= d.upper_bound());
    let mut e = Duration::new(5, 1);
    e.add(&d);
    assert_eq!(e.fixed, 105);
    assert_eq!(e.special_node_count, 3);
}

#[test]
fn duration_estimate_without_special_visits_is_exact() {
    let d = Duration::new(42, 0);
    assert_eq!(d.estimate(), 42);
    assert_eq!(d.upper_bound(), 42);
}

#[test]
fn index_set_add_remove_contains() {
    let mut s = IndexSet::empty(10);
    assert_eq!(s.size(), 0);
    assert_eq!(s.get_first(), None);
    s.add(3);
    s.add(7);
    s.add(3);
    assert_eq!(s.size(), 2);
    assert!(s.contains(3) && s.contains(7) && !s.contains(5));
    assert_eq!(s.get_first(), Some(3));
    assert_eq!(s.iter(), &[3, 7]);
    s.remove(3);
    assert!(!s.contains(3));
    assert_eq!(s.iter(), &[7]);
    s.remove(9);
    assert_eq!(s.size(), 1);
}

#[test]
fn index_set_remove_moves_last_into_place() {
    let mut s = IndexSet::full(5);
    assert_eq!(s.iter(), &[0, 1, 2, 3, 4]);
    s.remove(1);
    assert_eq!(s.iter(), &[0, 4, 2, 3]);
    assert!(s.contains(4) && !s.contains(1));
}

#[test]
fn index_set_remove_undoes_add() {
    let mut s = IndexSet::empty(8);
    s.add(2);
    s.add(5);
    let before: Vec<usize> = s.iter().to_vec();
    s.add(6);
    s.remove(6);
    assert_eq!(s.iter(), before.as_slice());
}

#[test]
fn rnd_seed_zero_and_first_draw() {
    let r = Rnd::new(0);
    assert_eq!(r.state, u32::MAX);
    let mut r = Rnd::new(1);
    assert_eq!(r._next(), 270369);
    assert_eq!(r.state, 270369);
}

#[test]
fn rnd_draws_stay_in_range() {
    let mut r = Rnd::new(12345);
    for _ in 0..1000 {
        let k = r.gen_index(7);
        assert!(k < 7);
        let x = r.gen_range(10, 20);
        assert!((10..20).contains(&x));
    }
    assert_eq!(r.gen_index(0), 0);
    let v = [4u8, 9, 1];
    let c = r.choice(&v);
    assert!(v.contains(&c));
}

#[test]
fn rnd_shuffle_permutes() {
    let mut r = Rnd::new(99);
    let mut v: Vec<usize> = (0..50).collect();
    r.shuffle(&mut v);
    let mut sorted = v.clone();
    sorted.sort();
    assert_eq!(sorted, (0..50).collect::<Vec<_>>());
    let mut a: Vec<usize> = (0..50).collect();
    let mut r2 = Rnd::new(99);
    r2.shuffle(&mut a);
    assert_eq!(a, v);
}

#[test]
fn batch_size_rules() {
    let input = Input { n_cores: 2, cost_switch: 5, cost_r: 20 };
    assert_eq!(get_base_max_batch_size(0, &input, 0), 24);
    assert_eq!(get_base_max_batch_size(3, &input, 0), 16);
    assert_eq!(get_base_max_batch_size(6, &input, 0), 24);
    // 40 packets with base 16: three batches, of 14 at most
    assert_eq!(get_desired_batch_size(40, 16), 14);
    assert_eq!(get_desired_batch_size(41, 16), 14);
    // 65 packets with base 32: three batches of 22, 22, 21
    assert_eq!(get_desired_batch_size(65, 32), 22);
    assert_eq!(get_desired_batch_size(17, 16), 9);
    assert_eq!(get_desired_batch_size(32, 16), 16);
    assert_eq!(get_desired_batch_size(5, 16), 5);
    assert_eq!(get_desired_batch_size(0, 16), 0);
}

#[test]
fn special_node_chunk_size() {
    let mk = |n: usize| Task {
        next_t: 0,
        packet_type: 0,
        path_index: 0,
        is_chunked: false,
        last_chunk_min_i: None,
        packets: (0..n).map(|i| status(i, false)).collect(),
    };
    assert_eq!(get_special_node_chunk_size(&mk(10)), 3);
    assert_eq!(get_special_node_chunk_size(&mk(8)), 2);
    assert_eq!(get_special_node_chunk_size(&mk(1)), 1);
    assert_eq!(get_special_node_chunk_size(&mk(0)), 1);
}

#[test]
fn receive_interval() {
    let input = Input { n_cores: 2, cost_switch: 5, cost_r: 20 };
    let mut state = State::new(4, &input);
    assert_eq!(get_receive_dt(100, &state, &input), 40);
    state.received_packets.add(1);
    state.last_received_t = 50;
    assert_eq!(get_receive_dt(100, &state, &input), 20);
    assert_eq!(get_receive_dt(50 + 100_001, &state, &input), 40);
    let slow = Input { n_cores: 2, cost_switch: 5, cost_r: 70 };
    assert_eq!(get_receive_dt(100, &State::new(1, &slow), &slow), 70);
}

#[test]
fn event_queue_pops_earliest_then_highest_core() {
    let mut q = EventQueue::new();
    q.push((30, Event::ReceivePacket));
    q.push((10, Event::ResumeCore(0)));
    q.push((10, Event::ResumeCore(2)));
    q.push((10, Event::ReceivePacket));
    q.push((20, Event::ResumeCore(1)));
    assert_eq!(q.pop(), Some((10, Event::ResumeCore(2))));
    assert_eq!(q.pop(), Some((10, Event::ResumeCore(0))));
    assert_eq!(q.pop(), Some((10, Event::ReceivePacket)));
    assert_eq!(q.pop(), Some((20, Event::ResumeCore(1))));
    assert_eq!(q.pop(), Some((30, Event::ReceivePacket)));
    assert_eq!(q.pop(), None);
}

#[test]
fn event_queue_pushed_earliest_comes_next() {
    let mut q = EventQueue::new();
    q.push((50, Event::ResumeCore(3)));
    q.push((60, Event::ReceivePacket));
    q.push((5, Event::ResumeCore(1)));
    assert_eq!(q.pop(), Some((5, Event::ResumeCore(1))));
}

#[test]
fn split_unchunked_task_in_halves() {
    let task = Task {
        next_t: 7,
        packet_type: 1,
        path_index: 2,
        is_chunked: false,
        last_chunk_min_i: None,
        packets: (0..6).map(|i| status(i, false)).collect(),
    };
    let (a, b) = split_task(100, &task).expect("a task of six packets splits");
    let ids_a: Vec<usize> = a.packets.iter().map(|p| p.id).collect();
    let ids_b: Vec<usize> = b.packets.iter().map(|p| p.id).collect();
    assert_eq!(ids_a, vec![0, 1, 2]);
    assert_eq!(ids_b, vec![3, 4, 5]);
    assert_eq!(a.path_index, 2);
    assert_eq!(b.path_index, 2);
    let mut all = ids_a.clone();
    all.extend(ids_b);
    all.sort();
    assert_eq!(all, (0..6).collect::<Vec<_>>());
}

#[test]
fn split_single_packet_task_is_refused() {
    let task = Task {
        next_t: 7,
        packet_type: 1,
        path_index: 0,
        is_chunked: false,
        last_chunk_min_i: None,
        packets: vec![status(0, false)],
    };
    assert!(split_task(100, &task).is_none());
}

#[test]
fn split_chunked_task_keeps_every_packet_once() {
    let task = Task {
        next_t: 0,
        packet_type: 0,
        path_index: 3,
        is_chunked: true,
        last_chunk_min_i: None,
        packets: vec![status(0, true), status(1, false), status(2, true), status(3, false)],
    };
    if let Some((a, b)) = split_task(10, &task) {
        let mut all: Vec<usize> = a.packets.iter().chain(b.packets.iter()).map(|p| p.id).collect();
        all.sort();
        assert_eq!(all, vec![0, 1, 2, 3]);
    }
}

#[test]
fn split_chunked_task_shares_unadvanced_in_proportion() {
    let task = Task {
        next_t: 4,
        packet_type: 0,
        path_index: 3,
        is_chunked: true,
        last_chunk_min_i: None,
        packets: vec![status(0, true), status(1, true), status(2, false), status(3, false)],
    };
    let (a, b) = split_task(10, &task).expect("a task of four packets splits");
    let ids_a: Vec<usize> = a.packets.iter().map(|p| p.id).collect();
    let ids_b: Vec<usize> = b.packets.iter().map(|p| p.id).collect();
    assert_eq!(ids_b, vec![0, 2]);
    assert_eq!(ids_a, vec![1, 3]);
    assert!(a.is_chunked && b.is_chunked);
    assert_eq!(a.packets.iter().filter(|p| !p.is_advanced).count(), 1);
    assert_eq!(b.packets.iter().filter(|p| !p.is_advanced).count(), 1);
    // a packet through the node may still be in the running call
    assert_eq!(b.next_t, 4);
}

#[test]
fn split_chunked_task_moves_packets_before_last_chunk() {
    let task = Task {
        next_t: 4,
        packet_type: 0,
        path_index: 3,
        is_chunked: true,
        last_chunk_min_i: Some(3),
        packets: vec![status(0, true), status(1, true), status(2, true), status(3, false)],
    };
    let (a, b) = split_task(10, &task).expect("a task of four packets splits");
    let ids_b: Vec<usize> = b.packets.iter().map(|p| p.id).collect();
    let ids_a: Vec<usize> = a.packets.iter().map(|p| p.id).collect();
    // the packets before the last chunk fill the half
    assert_eq!(ids_b, vec![0, 1]);
    assert_eq!(ids_a, vec![2, 3]);
    assert!(!b.is_chunked);
    assert_eq!(b.path_index, 4);
    assert!(b.packets.iter().all(|p| !p.is_advanced));
    // both of its packets are before the last chunk: it starts at once
    assert_eq!(b.next_t, 10);
    assert!(a.is_chunked);
}

#[test]
fn calculator_lookup_matches_direct_computation() {
    let graph = fixed_graph();
    let input = Input { n_cores: 4, cost_switch: 7, cost_r: 20 };
    let calc = DurationCalculator::new(&input, &graph);
    for t in 0..7 {
        for b in [1usize, 2, 16, 24] {
            let direct = DurationCalculator::calculate_path_duration(t, b, 0, &input, &graph);
            let table = calc.get_path_duration(t, b, 0);
            assert_eq!(direct.fixed, table.fixed);
            assert_eq!(direct.special_node_count, table.special_node_count);
        }
    }
}

#[test]
fn path_duration_of_last_type_by_hand() {
    // type 6 visits nodes 0,1,2,3,4,5,9 (0-indexed), no special node
    let graph = fixed_graph();
    let input = Input { n_cores: 1, cost_switch: 7, cost_r: 20 };
    // from the start, each packet also pays one switch away from the receiving core
    let d = DurationCalculator::calculate_path_duration(6, 1, 0, &input, &graph);
    let by_hand: i64 = [0usize, 1, 2, 3, 4, 5, 9].iter().map(|&v| graph.nodes[v].costs[1]).sum();
    assert_eq!(d.fixed, by_hand + 7);
    assert_eq!(d.special_node_count, 0);
    let later = DurationCalculator::calculate_path_duration(6, 1, 1, &input, &graph);
    assert_eq!(later.fixed, by_hand - graph.nodes[0].costs[1]);
    // a batch larger than a node takes runs in full chunks and a remainder
    let big = DurationCalculator::calculate_path_duration(4, 20, 23, &input, &graph);
    let v = graph.paths[4].path[23];
    let m = graph.nodes[v].costs.len() - 1;
    let w = graph.paths[4].path[24];
    let mw = graph.nodes[w].costs.len() - 1;
    assert_eq!(
        big.fixed,
        graph.nodes[v].costs[m] * (20 / m) as i64 + graph.nodes[v].costs[20 % m]
            + graph.nodes[w].costs[mw] * (20 / mw) as i64 + graph.nodes[w].costs[20 % mw]
    );
    // type 1 visits the special node twice
    let special = DurationCalculator::calculate_path_duration(1, 3, 0, &input, &graph);
    assert_eq!(special.special_node_count, 6);
    let from_end = DurationCalculator::calculate_path_duration(6, 1, 7, &input, &graph);
    assert_eq!(from_end.fixed, 0);
}

#[test]
fn task_and_core_duration_estimates() {
    let graph = fixed_graph();
    let input = Input { n_cores: 2, cost_switch: 7, cost_r: 20 };
    let mut state = State::new(2, &input);
    for i in 0..2 {
        state.packets[i] = Some(Packet { i, arrive: 1, packet_type: 6, timeout: 100, time_limit: 101, received_t: 1 });
    }
    let task = Task {
        next_t: 10,
        packet_type: 6,
        path_index: 0,
        is_chunked: false,
        last_chunk_min_i: None,
        packets: vec![status(0, false), status(1, false)],
    };
    let d = estimate_task_duration(&task, &input, &graph, &state.packet_special_cost);
    assert!(d.fixed >= [0usize, 1, 2, 3, 4, 5, 9].iter().map(|&v| graph.nodes[v].costs[2]).sum::<i64>());
    assert_eq!(d.special_node_count, 0);
    let idle = estimate_core_duration(&state, 0, &input, &graph);
    assert_eq!(idle.fixed, 0);
    assert_eq!(idle.special_node_count, 0);
    state.next_tasks[1] = Some(task);
    let busy = estimate_core_duration(&state, 1, &input, &graph);
    assert_eq!(busy.fixed, d.fixed);
}

#[test]
fn fresh_task_estimate_matches_the_table() {
    let graph = fixed_graph();
    let input = Input { n_cores: 2, cost_switch: 7, cost_r: 20 };
    let calc = DurationCalculator::new(&input, &graph);
    let costs: Vec<Option<i64>> = vec![None; 3];
    // type 3 passes the special node: its unknown works count as visits
    let task = Task {
        next_t: 0,
        packet_type: 3,
        path_index: 0,
        is_chunked: false,
        last_chunk_min_i: None,
        packets: (0..3).map(|i| PacketStatus { id: i, is_advanced: false, is_switching_core: true }).collect(),
    };
    let d = estimate_task_duration(&task, &input, &graph, &costs);
    let table = calc.get_path_duration(3, 3, 0);
    assert_eq!(d.fixed, table.fixed);
    assert_eq!(d.special_node_count, table.special_node_count);
    assert!(d.special_node_count > 0);
}

#[test]
fn learning_a_cost_narrows_the_estimate() {
    let graph = fixed_graph();
    let input = Input { n_cores: 2, cost_switch: 7, cost_r: 20 };
    let mut costs: Vec<Option<i64>> = vec![None; 3];
    let task = Task {
        next_t: 0,
        packet_type: 3,
        path_index: 0,
        is_chunked: false,
        last_chunk_min_i: None,
        packets: (0..3).map(|i| PacketStatus { id: i, is_advanced: false, is_switching_core: true }).collect(),
    };
    let before = estimate_task_duration(&task, &input, &graph, &costs);
    costs[1] = Some(40);
    let after = estimate_task_duration(&task, &input, &graph, &costs);
    assert!(before.lower_bound() < after.lower_bound());
    assert!(after.upper_bound() < before.upper_bound());
    assert_eq!(after.special_node_count + 1, before.special_node_count);
    assert_eq!(after.fixed, before.fixed + 40);
}

#[test]
fn tracker_records_only_when_enabled() {
    let mut t = Tracker::new(3, true);
    t.add_packet_history(1, PacketHistory { start_t: 5, end_t: 9, core_id: 0 });
    assert_eq!(t.packet_history[1].len(), 1);
    assert_eq!(t.packet_history[0].len(), 0);
    let log = TaskLog { core_id: 0, start_t: 5, end_t: 9, node_id: 2, batch_size: 1, packet_type: 0, path_index: 0 };
    t.add_task_log(log);
    assert_eq!(t.task_logs.len(), 1);
    let mut off = Tracker::new(3, false);
    assert_eq!(off.packet_history.len(), 1);
    off.add_packet_history(2, PacketHistory { start_t: 5, end_t: 9, core_id: 0 });
    off.add_task_log(log);
    assert_eq!(off.packet_history[0].len(), 0);
    assert_eq!(off.task_logs.len(), 0);
}

#[test]
fn tracker_score_counts() {
    let graph = fixed_graph();
    let mut t = Tracker::new(2, true);
    // type 6 has a path of 7 nodes
    for k in 0..7 {
        t.add_packet_history(0, PacketHistory { start_t: 10 * k, end_t: 10 * k + 5, core_id: 0 });
        t.add_packet_history(1, PacketHistory { start_t: 100 * k, end_t: 100 * k + 50, core_id: 1 });
    }
    let packets = vec![
        Some(Packet { i: 0, arrive: 3, packet_type: 6, timeout: 100, time_limit: 103, received_t: 3 }),
        Some(Packet { i: 1, arrive: 1, packet_type: 6, timeout: 100, time_limit: 101, received_t: 3 }),
    ];
    let c = t.score_counts(2, &packets, &graph);
    assert_eq!(c.max_departure, 650);
    assert_eq!(c.min_arrive, 1);
    assert_eq!(c.timeout_packets, 1);
}

#[test]
fn greedy_solver_keeps_tracker_flag() {
    assert!(GreedySolver::new(true).tracker_enabled);
    assert!(!GreedySolver::new(false).tracker_enabled);
}
