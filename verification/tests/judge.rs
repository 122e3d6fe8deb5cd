use lib::mock::{fixed_graph, generate_mock_problem, MockInteractor, ProblemParams};
use lib::libb::Rnd;
use lib::protocol::{
    fits_fallback, fits_greedy, graph_is_valid, input_is_valid, parse_graph, parse_i64, parse_input_line,
    parse_node_line, parse_packet_line, parse_path_line, parse_receive_count, parse_special_line, parse_usize,
    parse_works_line, split_tokens, ParseError,
};
use lib::types::{clone_graph, Input, N_NODE, N_PACKET_TYPE};

fn params(n: usize, n_cores: usize, arrive_term: i64) -> ProblemParams {
    ProblemParams { n, n_cores, arrive_term }
}

#[test]
fn tokens_split_on_whitespace() {
    let t = split_tokens(b"  12 ab\t3\r\n");
    assert_eq!(t, vec![b"12".to_vec(), b"ab".to_vec(), b"3".to_vec()]);
    assert!(split_tokens(b"   ").is_empty());
    assert!(split_tokens(b"").is_empty());
}

#[test]
fn numbers_read_as_rust_reads_them() {
    assert_eq!(parse_usize(b"42"), Some(42));
    assert_eq!(parse_usize(b"+7"), Some(7));
    assert_eq!(parse_usize(b"-7"), None);
    assert_eq!(parse_usize(b""), None);
    assert_eq!(parse_usize(b"+"), None);
    assert_eq!(parse_usize(b"1x"), None);
    assert_eq!(parse_usize(b"18446744073709551616"), None);
    assert_eq!(parse_usize(b"18446744073709551615"), "18446744073709551615".parse::<usize>().ok());
    assert_eq!(parse_i64(b"-1"), Some(-1));
    assert_eq!(parse_i64(b"-9223372036854775808"), Some(i64::MIN));
    assert_eq!(parse_i64(b"9223372036854775807"), Some(i64::MAX));
    assert_eq!(parse_i64(b"9223372036854775808"), None);
    assert_eq!(parse_i64(b"--1"), None);
    assert_eq!(parse_i64(b"007"), Some(7));
}

#[test]
fn path_line_is_made_zero_indexed() {
    let p = parse_path_line(b"3 1 2 20").unwrap();
    assert_eq!(p.l, 3);
    assert_eq!(p.path, vec![0, 1, 19]);
    // tokens past the length are not read
    let p = parse_path_line(b"2 4 5 6").unwrap();
    assert_eq!(p.path, vec![3, 4]);
    assert_eq!(parse_path_line(b"").unwrap_err(), ParseError::MissingToken);
    assert_eq!(parse_path_line(b"2 0 1").unwrap_err(), ParseError::BadNumber);
    assert_eq!(parse_path_line(b"x 1").unwrap_err(), ParseError::BadNumber);
}

#[test]
fn node_line_gets_a_zero_cost_for_no_packets() {
    let n = parse_node_line(b"3 5 8 13").unwrap();
    assert_eq!(n.costs, vec![0, 5, 8, 13]);
    assert_eq!(parse_node_line(b"2 5 z").unwrap_err(), ParseError::BadNumber);
    let s = parse_special_line(b"3 5 8 11 14 17 29 73 99").unwrap();
    assert_eq!(s, vec![3, 5, 8, 11, 14, 17, 29, 73]);
}

#[test]
fn input_line_in_order() {
    let i = parse_input_line(b"4 12 20").unwrap();
    assert_eq!((i.n_cores, i.cost_switch, i.cost_r), (4, 12, 20));
    assert_eq!(parse_input_line(b"4 12").unwrap_err(), ParseError::MissingToken);
    assert_eq!(parse_input_line(b"four 12 20").unwrap_err(), ParseError::BadNumber);
    assert!(input_is_valid(&i));
    assert!(!input_is_valid(&Input { n_cores: 0, cost_switch: 1, cost_r: 1 }));
}

#[test]
fn receive_answers() {
    assert_eq!(parse_receive_count(b"3"), Ok(3));
    assert_eq!(parse_receive_count(b"0"), Ok(0));
    assert_eq!(parse_receive_count(b"-1"), Err(ParseError::Refused));
    assert_eq!(parse_receive_count(b"-2"), Err(ParseError::BadNumber));
    assert_eq!(parse_receive_count(b"3 "), Err(ParseError::BadNumber));
    let p = parse_packet_line(b"5 1000 3 250", 1200).unwrap();
    assert_eq!((p.i, p.arrive, p.packet_type, p.timeout, p.time_limit, p.received_t), (4, 1000, 2, 250, 1250, 1200));
    assert_eq!(parse_packet_line(b"5 1000 3", 1200).unwrap_err(), ParseError::MissingToken);
    assert_eq!(parse_packet_line(b"0 1000 3 250", 1200).unwrap_err(), ParseError::BadNumber);
    assert_eq!(
        parse_packet_line(b"1 9223372036854775807 1 1", 0).unwrap_err(),
        ParseError::BadNumber
    );
}

#[test]
fn works_bitmap() {
    let w = parse_works_line(b"5").unwrap().unwrap();
    assert_eq!(w, [true, false, true, false, false, false, false, false]);
    let w = parse_works_line(b"255").unwrap().unwrap();
    assert!(w.iter().all(|&b| b));
    assert_eq!(parse_works_line(b"-1").unwrap(), None);
    assert_eq!(parse_works_line(b"?").unwrap_err(), ParseError::BadNumber);
}

fn graph_text() -> Vec<Vec<u8>> {
    let g = fixed_graph();
    let mut lines: Vec<Vec<u8>> = Vec::new();
    for p in &g.paths {
        let mut s = format!("{}", p.l);
        for v in &p.path {
            s.push_str(&format!(" {}", v + 1));
        }
        lines.push(s.into_bytes());
    }
    for n in &g.nodes {
        let mut s = format!("{}", n.costs.len() - 1);
        for c in &n.costs[1..] {
            s.push_str(&format!(" {}", c));
        }
        lines.push(s.into_bytes());
    }
    let s: Vec<String> = g.special_costs.iter().map(|c| c.to_string()).collect();
    lines.push(s.join(" ").into_bytes());
    lines
}

#[test]
fn graph_text_reads_back_to_the_fixed_graph() {
    let g = fixed_graph();
    let read = parse_graph(&graph_text()).unwrap();
    assert_eq!(read.paths.len(), N_PACKET_TYPE);
    assert_eq!(read.nodes.len(), N_NODE);
    for t in 0..N_PACKET_TYPE {
        assert_eq!(read.paths[t].l, g.paths[t].l);
        assert_eq!(read.paths[t].path, g.paths[t].path);
    }
    for v in 0..N_NODE {
        assert_eq!(read.nodes[v].costs, g.nodes[v].costs);
    }
    assert_eq!(read.special_costs, g.special_costs);
}

#[test]
fn graph_text_first_bad_line_gives_the_error() {
    let mut lines = graph_text();
    lines[9] = b"3 1 x 2".to_vec();
    lines[20] = b"".to_vec();
    assert_eq!(parse_graph(&lines).unwrap_err(), ParseError::BadNumber);
}

#[test]
fn fixed_graph_shape() {
    let g = fixed_graph();
    assert_eq!(g.paths[0].path, vec![0, 1, 2, 6, 5, 10, 11, 12, 13]);
    assert_eq!(g.paths[6].path, vec![0, 1, 2, 3, 4, 5, 9]);
    assert_eq!(g.nodes[7].costs.len() - 1, 64);
    assert_eq!(g.nodes[16].costs, vec![0, 10, 12, 15, 18, 21, 24, 27, 30]);
    assert!(g.nodes.iter().all(|n| n.costs[0] == 0));
    assert_eq!(g.special_costs, vec![3, 5, 8, 11, 14, 17, 29, 73]);
    assert!(graph_is_valid(&g));
    assert!(fits_greedy(&g));
    assert!(fits_fallback(&g));
}

#[test]
fn graph_checks_reject_bad_graphs() {
    let g = fixed_graph();
    let mut bad = clone_graph(&g);
    bad.paths[2].path[0] = 20;
    assert!(!graph_is_valid(&bad));
    let mut small = clone_graph(&g);
    small.nodes[7].costs.truncate(10);
    assert!(graph_is_valid(&small));
    assert!(!fits_greedy(&small));
    let mut narrow = clone_graph(&g);
    narrow.nodes[16].costs.truncate(5);
    assert!(graph_is_valid(&narrow));
    assert!(!fits_fallback(&narrow));
    let copy = clone_graph(&g);
    assert_eq!(copy.special_costs, g.special_costs);
}

#[test]
fn generated_problem_is_determined_by_the_seed() {
    let p = params(100, 3, 50_000);
    let mut r1 = Rnd::new(7);
    let mut r2 = Rnd::new(7);
    let (n1, i1, ps1, w1) = generate_mock_problem(&mut r1, &p);
    let (n2, i2, ps2, w2) = generate_mock_problem(&mut r2, &p);
    assert_eq!(n1, 100);
    assert_eq!(n1, n2);
    assert_eq!((i1.n_cores, i1.cost_switch, i1.cost_r), (i2.n_cores, i2.cost_switch, i2.cost_r));
    assert_eq!(i1.cost_r, 20);
    assert_eq!(i1.n_cores, 3);
    assert!((1..=20).contains(&i1.cost_switch));
    assert_eq!(w1, w2);
    assert_eq!(r1.state, r2.state);
    for (k, (a, b)) in ps1.iter().zip(ps2.iter()).enumerate() {
        assert_eq!(a.i, k);
        assert_eq!((a.arrive, a.packet_type, a.timeout), (b.arrive, b.packet_type, b.timeout));
        assert!((1_000_000..=1_050_000).contains(&a.arrive));
        assert!(a.packet_type < 7);
        assert!((1..100_000).contains(&a.timeout));
        assert_eq!(a.time_limit, a.arrive + a.timeout);
        assert_eq!(a.received_t, -1);
    }
}

#[test]
fn generated_problem_first_draw_is_the_switch_cost() {
    let p = params(0, 1, 0);
    let mut r = Rnd::new(1);
    let (_, input, packets, works) = generate_mock_problem(&mut r, &p);
    // the first draw from seed 1 is 270369; 20 * 270369 / 2^32 is 0
    assert_eq!(input.cost_switch, 1);
    assert!(packets.is_empty() && works.is_empty());
}

#[test]
fn mock_hands_out_each_packet_once() {
    let mut m = MockInteractor::new(3, params(200, 2, 100_000));
    let n = m.read_n();
    let mut seen = vec![0usize; n];
    let mut t = 0i64;
    for _ in 0..60 {
        t += 2_000;
        let (count, got) = m.send_receive_packets(1_000_000 + t);
        assert_eq!(count, got.len());
        for p in got {
            assert_eq!(p.received_t, 1_000_000 + t);
            seen[p.i] += 1;
        }
    }
    let (_, rest) = m.send_receive_packets(2_000_000);
    for p in rest {
        seen[p.i] += 1;
    }
    assert!(seen.iter().all(|&c| c == 1));
}

#[test]
fn mock_answers_works_once() {
    let mut m = MockInteractor::new(11, params(10, 1, 10));
    let first = m.send_query_works(5, 4);
    assert_eq!(first, Some(m.packet_works[4]));
    assert_eq!(m.send_query_works(6, 4), None);
    assert!(m.send_query_works(7, 3).is_some());
}

#[test]
fn mock_finish_moves_to_the_next_problem() {
    let p = params(30, 2, 1_000);
    let mut m = MockInteractor::new(21, p);
    let _ = m.send_receive_packets(5_000_000);
    let _ = m.send_query_works(5_000_001, 0);
    let mut r = Rnd::new(21);
    let _ = generate_mock_problem(&mut r, &p);
    let (_, _, next_packets, next_works) = generate_mock_problem(&mut r, &p);
    m.send_finish();
    assert_eq!(m.last_t, 0);
    assert!(m.last_core0_t.is_none());
    assert!(m.queried_works.iter().all(|&q| !q));
    assert_eq!(m.packet_works, next_works);
    assert_eq!(m.packets.len(), next_packets.len());
    for (a, b) in m.packets.iter().zip(next_packets.iter()) {
        assert_eq!((a.arrive, a.packet_type, a.timeout), (b.arrive, b.packet_type, b.timeout));
    }
}
