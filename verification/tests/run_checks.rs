use lib::fallback::{FallbackSolver, FALLBACK_START_T};
use lib::greedy::GreedySolver;
use lib::mock::fixed_graph;
use lib::run::{order_distinct, packets_fresh, Command, Reply};
use lib::types::{Input, Packet, N_SPECIAL};

fn packet(i: usize, packet_type: usize, arrive: i64) -> Packet {
    Packet { i, arrive, packet_type, timeout: 1_000_000, time_limit: arrive + 1_000_000, received_t: arrive }
}

#[test]
fn fresh_packets_are_those_not_received_yet() {
    let known = vec![None, Some(packet(1, 0, 5)), None];
    assert!(packets_fresh(&vec![packet(0, 2, 1), packet(2, 1, 3)], &known));
    assert!(!packets_fresh(&vec![packet(0, 2, 1), packet(1, 0, 5)], &known));
    assert!(!packets_fresh(&vec![packet(3, 0, 1)], &known));
    assert!(packets_fresh(&vec![], &known));
}

#[test]
fn an_order_lists_distinct_candidates() {
    assert!(order_distinct(&vec![2, 0, 1], 3));
    assert!(order_distinct(&vec![1], 3));
    assert!(order_distinct(&vec![], 0));
    assert!(!order_distinct(&vec![0, 0], 3));
    assert!(!order_distinct(&vec![3], 3));
}

#[test]
fn greedy_run_refuses_repeated_packets_and_orders() {
    let graph = fixed_graph();
    let input = Input { n_cores: 2, cost_switch: 5, cost_r: 10 };
    let n = 3;
    let mut run = GreedySolver::new(false).start(n, &input, &graph);
    assert!(run.accepts(&Reply::Ready));
    let cmd = run.step(Reply::Ready, &input, &graph);
    assert!(matches!(cmd, Command::ReceivePackets { t: 1 }));
    let p0 = packet(0, 0, 0);
    assert!(!run.accepts(&Reply::Ready));
    assert!(!run.accepts(&Reply::Packets(Some(vec![packet(3, 0, 0)]))));
    assert!(run.accepts(&Reply::Packets(Some(vec![p0]))));
    let cmd = run.step(Reply::Packets(Some(vec![p0])), &input, &graph);
    let n_batches = match cmd {
        Command::PlanOrder { batches, .. } => batches.len(),
        _ => panic!("idle cores plan on a receive"),
    };
    assert!(n_batches >= 1);
    assert!(!run.accepts(&Reply::Order(vec![0, 0])));
    assert!(!run.accepts(&Reply::Order(vec![n_batches])));
    assert!(run.accepts(&Reply::Order(vec![0])));
    let mut reply = Reply::Order(vec![0]);
    let mut next_receive = false;
    for _ in 0..10_000 {
        assert!(run.accepts(&reply));
        let cmd = run.step(reply, &input, &graph);
        reply = match cmd {
            Command::ReceivePackets { .. } => {
                next_receive = true;
                break;
            },
            Command::QueryWorks { .. } => Reply::Works([false; N_SPECIAL]),
            Command::PlanOrder { batches, .. } => Reply::Order((0..batches.len()).collect()),
            Command::Finish => panic!("packets are still to come"),
            _ => Reply::Ready,
        };
    }
    assert!(next_receive);
    // packet 0 was handed out already: a second copy is refused
    assert!(!run.accepts(&Reply::Packets(Some(vec![p0]))));
    assert!(run.accepts(&Reply::Packets(Some(vec![packet(1, 4, 3)]))));
    assert!(run.accepts(&Reply::Packets(None)));
}

#[test]
fn fallback_deals_batches_to_the_cores_in_turn() {
    let graph = fixed_graph();
    let input = Input { n_cores: 2, cost_switch: 5, cost_r: 10 };
    // 50 packets of type 0, 9 of type 3, one of each other type, interleaved
    let mut types: Vec<usize> = Vec::new();
    for k in 0..50 {
        types.push(0);
        if k < 9 {
            types.push(3);
        }
    }
    for t in [1, 2, 4, 5, 6] {
        types.push(t);
    }
    let packets: Vec<Packet> = types.iter().enumerate().map(|(i, &t)| packet(i, t, i as i64)).collect();
    let n = packets.len();
    assert_eq!(n, 64);
    let mut run = FallbackSolver.start(n, &input, &graph);
    let cmd = run.step(Reply::Ready, &input, &graph);
    assert!(matches!(cmd, Command::ReceivePackets { t } if t == FALLBACK_START_T));
    let mut missing_type = packets.clone();
    missing_type.retain(|p| p.packet_type != 6);
    assert!(!run.accepts(&Reply::Packets(Some(missing_type))));
    assert!(run.accepts(&Reply::Packets(Some(packets.clone()))));
    let cmd = run.step(Reply::Packets(Some(packets.clone())), &input, &graph);
    assert!(matches!(cmd, Command::Nothing));
    let view = |c: usize| -> Vec<(usize, Vec<usize>, usize)> {
        run.tasks[c].iter().map(|b| (b.packet_type, b.ps.iter().map(|p| p.i).collect(), b.path_index)).collect()
    };
    let ids_of = |t: usize| -> Vec<usize> { packets.iter().filter(|p| p.packet_type == t).map(|p| p.i).collect() };
    let t0 = ids_of(0);
    let t3 = ids_of(3);
    // dealt in type order: [t0 49, t0 1, t1, t2, t3 8, t3 1, t4, t5, t6]
    let core0 = vec![
        (0, t0[..49].to_vec(), 0),
        (1, ids_of(1), 0),
        (3, t3[..8].to_vec(), 0),
        (4, ids_of(4), 0),
        (6, ids_of(6), 0),
    ];
    let core1 = vec![(0, t0[49..].to_vec(), 0), (2, ids_of(2), 0), (3, t3[8..].to_vec(), 0), (5, ids_of(5), 0)];
    assert_eq!(view(0), core0);
    assert_eq!(view(1), core1);
}
