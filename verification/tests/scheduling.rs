use lib::fallback::FallbackSolver;
use lib::greedy::GreedySolver;
use lib::interactor::Interactor;
use lib::mock::{MockInteractor, ProblemParams};
use lib::run::{Command, Reply};
use lib::tester::Tester;
use lib::types::{Graph, Input, Packet, N_SPECIAL, SPECIAL_NODE_ID};

/// The mock judge behind the interactor interface, with its rules checked.
struct Judge(MockInteractor);

impl Interactor for Judge {
    fn read_graph(&mut self) -> Graph {
        self.0.read_graph()
    }
    fn read_input(&mut self) -> Input {
        self.0.read_input()
    }
    fn read_n(&mut self) -> usize {
        self.0.read_n()
    }
    fn send_receive_packets(&mut self, t: i64) -> (usize, Vec<Packet>) {
        assert!(t >= self.0.last_t);
        let ready = self.0.last_core0_t.map_or(0, |x| x as i128 + self.0.input.cost_r as i128);
        assert!(t as i128 >= ready);
        self.0.send_receive_packets(t)
    }
    fn send_execute(&mut self, t: i64, core_id: usize, node_id: usize, s: usize, ids: &[usize]) {
        assert!(t >= self.0.last_t);
        self.0.send_execute(t, core_id, node_id, s, ids)
    }
    fn send_query_works(&mut self, t: i64, i: usize) -> Option<[bool; N_SPECIAL]> {
        assert!(t >= self.0.last_t && i < self.0.n);
        self.0.send_query_works(t, i)
    }
    fn send_finish(&mut self) {
        self.0.send_finish()
    }
}

/// Checks the judge's rules for a node call on the tester's records, as the
/// tester requires them.
fn check_execute(tester: &Tester<Judge>, t: i64, core_id: usize, node_id: usize, ids: &[usize]) {
    assert!(t >= tester.last_t, "time went back");
    assert!(core_id < tester.input.n_cores);
    assert!(t >= tester.core_last_t[core_id], "core {} busy", core_id);
    assert!(!ids.is_empty());
    for &id in ids {
        let p = tester.packets[id].expect("packet was received");
        let h = &tester.packet_history[id];
        let free = h.last().map_or(p.received_t + tester.input.cost_r, |x| x.end_t);
        assert!(t >= free, "packet {} busy", id);
        let path = &tester.graph.paths[p.packet_type].path;
        assert!(h.len() < path.len(), "packet {} has finished its path", id);
        assert_eq!(path[h.len()], node_id, "packet {} is not at node {}", id, node_id);
    }
    let mut sorted = ids.to_vec();
    sorted.sort();
    sorted.dedup();
    assert_eq!(sorted.len(), ids.len(), "a packet appears twice in a call");
}

/// Commands are sent at times that never go back, and so are the calls to each core.
fn note_times(cmd: &Command, last_time: &mut i64, last_call: &mut Vec<i64>) {
    let t = match cmd {
        Command::ReceivePackets { t } | Command::QueryWorks { t, .. } | Command::Execute { t, .. } => *t,
        _ => return,
    };
    assert!(t >= *last_time, "a command went back in time");
    *last_time = t;
    if let Command::Execute { t, core_id, .. } = cmd {
        assert!(*t >= last_call[*core_id]);
        last_call[*core_id] = *t;
    }
}

fn run_greedy(seed: u32, p: ProblemParams) -> (usize, usize) {
    let mut judge = Judge(MockInteractor::new(seed, p));
    let graph = judge.read_graph();
    let input = judge.read_input();
    let n = judge.read_n();
    let solver = GreedySolver::new(true);
    let mut run = solver.start(n, &input, &graph);
    let g2 = lib::types::clone_graph(&graph);
    let mut tester = Tester::new(&mut judge, n, input, g2);
    let mut reply = Reply::Ready;
    let mut executes = 0usize;
    let mut last_time = i64::MIN;
    let mut last_call = vec![i64::MIN; input.n_cores];
    loop {
        assert!(run.accepts(&reply));
        assert!(run.within_time_cap());
        let cmd = run.step(reply, &input, &graph);
        note_times(&cmd, &mut last_time, &mut last_call);
        reply = match cmd {
            Command::Nothing => Reply::Ready,
            Command::ReceivePackets { t } => {
                assert!(t >= tester.core0_last_t && t >= tester.last_t);
                Reply::Packets(Some(tester.send_receive_packets(t)))
            },
            Command::QueryWorks { t, packet_id } => {
                assert!(t >= tester.last_t);
                let w = tester.send_query_works(t, packet_id).expect("works are told once");
                Reply::Works(w)
            },
            Command::Execute { t, core_id, node_id, ids } => {
                check_execute(&tester, t, core_id, node_id, &ids);
                if node_id == SPECIAL_NODE_ID {
                    for &id in &ids {
                        assert!(tester.packet_works[id].is_some(), "works were asked before the special node");
                    }
                }
                tester.send_execute(t, core_id, node_id, ids.len(), &ids).expect("works known");
                executes += 1;
                Reply::Ready
            },
            Command::PlanOrder { next_ts: _, batches } => Reply::Order((0..batches.len()).collect()),
            Command::Finish => break,
        };
    }
    // every packet went through its whole path
    for i in 0..n {
        let p = tester.packets[i].expect("every packet was received");
        assert_eq!(tester.packet_history[i].len(), graph.paths[p.packet_type].l);
        assert_eq!(run.tracker.packet_history[i].len(), graph.paths[p.packet_type].l);
    }
    let counts = tester.send_finish();
    assert!(counts.max_departure > counts.min_arrive);
    (executes, counts.timeout_packets)
}

#[test]
fn greedy_schedule_follows_the_judge_rules_on_one_core() {
    let (executes, _) = run_greedy(5, ProblemParams { n: 60, n_cores: 1, arrive_term: 20_000 });
    assert!(executes > 0);
}

#[test]
fn greedy_schedule_follows_the_judge_rules_on_four_cores() {
    let (executes, _) = run_greedy(17, ProblemParams { n: 300, n_cores: 4, arrive_term: 200_000 });
    assert!(executes > 0);
}

#[test]
fn greedy_schedule_with_late_spread_arrivals() {
    run_greedy(29, ProblemParams { n: 120, n_cores: 3, arrive_term: 3_000_000 });
}

#[test]
fn fallback_schedule_follows_the_judge_rules() {
    let p = ProblemParams { n: 150, n_cores: 3, arrive_term: 100_000 };
    let mut judge = Judge(MockInteractor::new(8, p));
    let graph = judge.read_graph();
    let input = judge.read_input();
    let n = judge.read_n();
    let mut run = FallbackSolver.start(n, &input, &graph);
    let g2 = lib::types::clone_graph(&graph);
    let mut tester = Tester::new(&mut judge, n, input, g2);
    let mut reply = Reply::Ready;
    let mut last_time = i64::MIN;
    let mut last_call = vec![i64::MIN; input.n_cores];
    loop {
        assert!(run.accepts(&reply));
        assert!(run.within_time_cap());
        let cmd = run.step(reply, &input, &graph);
        note_times(&cmd, &mut last_time, &mut last_call);
        reply = match cmd {
            Command::Nothing => Reply::Ready,
            Command::ReceivePackets { t } => Reply::Packets(Some(tester.send_receive_packets(t))),
            Command::QueryWorks { t, packet_id } => {
                Reply::Works(tester.send_query_works(t, packet_id).expect("works are told once"))
            },
            Command::Execute { t, core_id, node_id, ids } => {
                check_execute(&tester, t, core_id, node_id, &ids);
                tester.send_execute(t, core_id, node_id, ids.len(), &ids).expect("works known");
                Reply::Ready
            },
            Command::PlanOrder { .. } => panic!("the fallback scheduler plans nothing"),
            Command::Finish => break,
        };
    }
    for i in 0..n {
        let p = tester.packets[i].expect("every packet was received");
        assert_eq!(tester.packet_history[i].len(), graph.paths[p.packet_type].l);
    }
}

#[test]
fn tester_records_a_call_and_charges_switches() {
    let p = ProblemParams { n: 20, n_cores: 2, arrive_term: 10 };
    let mut judge = Judge(MockInteractor::new(2, p));
    let graph = judge.read_graph();
    let input = judge.read_input();
    let mut tester = Tester::new(&mut judge, 20, input, graph);
    let got = tester.send_receive_packets(2_000_000);
    assert_eq!(got.len(), 20);
    assert_eq!(tester.core0_last_t, 2_000_000 + input.cost_r);
    let first = got[0];
    let t = 2_000_000 + input.cost_r;
    let node = tester.graph.paths[first.packet_type].path[0];
    tester.send_execute(t, 1, node, 1, &[first.i]).unwrap();
    let cost = tester.graph.nodes[node].costs[1] + input.cost_switch;
    let h = &tester.packet_history[first.i];
    assert_eq!(h.len(), 1);
    assert_eq!((h[0].start_t, h[0].end_t, h[0].core_id), (t, t + cost, 1));
    assert_eq!(tester.core_last_t[1], t + cost);
    let log = tester.task_logs[0];
    assert_eq!((log.core_id, log.start_t, log.end_t, log.node_id, log.batch_size, log.path_index), (1, t, t + cost, node, 1, 0));
    // the next node on the same core is charged no switch
    let node2 = tester.graph.paths[first.packet_type].path[1];
    let t2 = t + cost;
    tester.send_execute(t2, 1, node2, 1, &[first.i]).unwrap();
    assert_eq!(tester.packet_history[first.i][1].end_t, t2 + tester.graph.nodes[node2].costs[1]);
}
