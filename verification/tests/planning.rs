use lib::calculator::DurationCalculator;
use lib::greedy::State;
use lib::mock::fixed_graph;
use lib::planning::create_tasks;
use lib::types::{Input, Packet};

fn waiting_state(n: usize, packet_type: usize, time_limit: i64, input: &Input) -> State {
    let mut state = State::new(n, input);
    for i in 0..n {
        state.packets[i] = Some(Packet { i, arrive: 0, packet_type, timeout: time_limit, time_limit, received_t: 0 });
        state.await_packets.add(i);
        state.received_packets.add(i);
    }
    state
}

#[test]
fn all_received_packets_cut_in_even_batches() {
    let input = Input { n_cores: 2, cost_switch: 7, cost_r: 20 };
    let graph = fixed_graph();
    let calc = DurationCalculator::new(&input, &graph);
    // type 6 allows 24 per batch: 40 packets make two batches of 20
    let state = waiting_state(40, 6, 1_000_000, &input);
    let plan = create_tasks(&state, 100, &input, &graph, &calc, 10);
    let mut sizes: Vec<usize> = plan.tasks.iter().map(|t| t.packets.len()).collect();
    sizes.sort();
    assert_eq!(sizes, vec![20, 20]);
    let mut ids: Vec<usize> = plan.tasks.iter().flat_map(|t| t.packets.iter().map(|p| p.id)).collect();
    ids.sort();
    assert_eq!(ids, (0..40).collect::<Vec<_>>());
    assert!(plan.tasks.iter().all(|t| t.path_index == 0 && t.packet_type == 6));
}

#[test]
fn plan_keeps_the_top_k_most_urgent_batches() {
    let input = Input { n_cores: 2, cost_switch: 7, cost_r: 20 };
    let graph = fixed_graph();
    let calc = DurationCalculator::new(&input, &graph);
    let state = waiting_state(40, 6, 1_000_000, &input);
    let plan = create_tasks(&state, 100, &input, &graph, &calc, 1);
    assert_eq!(plan.tasks.len(), 1);
    assert_eq!(plan.tasks[0].packets.len(), 20);
}

#[test]
fn batch_is_cut_before_its_deadline_runs_out() {
    let input = Input { n_cores: 2, cost_switch: 7, cost_r: 20 };
    let graph = fixed_graph();
    let calc = DurationCalculator::new(&input, &graph);
    // a deadline that two packets can meet, but not three together
    let two = calc.get_path_duration(6, 2, 0).estimate();
    let three = calc.get_path_duration(6, 3, 0).estimate();
    assert!(three > two + 1);
    let state = waiting_state(6, 6, 100 + two + 1, &input);
    let plan = create_tasks(&state, 100, &input, &graph, &calc, 10);
    let sizes: Vec<usize> = plan.tasks.iter().map(|t| t.packets.len()).collect();
    assert_eq!(sizes, vec![2, 2, 2]);
}

#[test]
fn batch_that_would_leave_no_time_is_cut() {
    let input = Input { n_cores: 2, cost_switch: 7, cost_r: 20 };
    let graph = fixed_graph();
    let calc = DurationCalculator::new(&input, &graph);
    // three packets would end exactly at the deadline: the batch stops at two
    let three = calc.get_path_duration(6, 3, 0).estimate();
    let state = waiting_state(6, 6, 100 + three, &input);
    let plan = create_tasks(&state, 100, &input, &graph, &calc, 10);
    let sizes: Vec<usize> = plan.tasks.iter().map(|t| t.packets.len()).collect();
    assert_eq!(sizes, vec![2, 2, 2]);
}

#[test]
fn far_deadline_is_not_taken_for_late() {
    let input = Input { n_cores: 2, cost_switch: 7, cost_r: 20 };
    let graph = fixed_graph();
    let calc = DurationCalculator::new(&input, &graph);
    let mut state = State::new(2, &input);
    // packet 0 cannot make its deadline; packet 1 has a far one
    let limits = [50i64, 3_000_000_000_000];
    for i in 0..2 {
        let time_limit = limits[i];
        state.packets[i] = Some(Packet { i, arrive: 0, packet_type: 6, timeout: time_limit, time_limit, received_t: 0 });
        state.await_packets.add(i);
        state.received_packets.add(i);
    }
    let plan = create_tasks(&state, 100, &input, &graph, &calc, 10);
    assert_eq!(plan.tasks.len(), 1);
    let ids: Vec<usize> = plan.tasks[0].packets.iter().map(|p| p.id).collect();
    assert_eq!(ids, vec![1, 0]);
}
