use stn::{
    build_distance_graph, default_execution_uncertainty, perform_apsp, Edge, Interval,
    RegistrationOptions, RegistrationPayload, StnError, STN, UNCERTAINTY_SCALE,
};

/// Uncertainty as a fraction, in the millionths that the options hold.
fn uncertainty(fraction: f64) -> u32 {
    (fraction * UNCERTAINTY_SCALE as f64).round() as u32
}

fn explicit(source: i32, target: i32, lower: i64, upper: i64) -> Edge {
    Edge { source, target, interval: Interval::new(lower, upper), minutes: 0 }
}

fn nominal(source: i32, target: i32, minutes: i64) -> Edge {
    Edge { source, target, interval: Interval::default(), minutes }
}

fn walkthrough_edges() -> Vec<Edge> {
    vec![
        explicit(1, 2, 10, 20),
        explicit(2, 3, 30, 40),
        explicit(4, 3, 10, 20),
        explicit(4, 5, 40, 50),
        explicit(1, 5, 60, 70),
    ]
}

fn explicit_options() -> RegistrationOptions {
    RegistrationOptions { implicit_intervals: false, execution_uncertainty: uncertainty(0.) }
}

#[test]
fn test_build_distance_graph_empty_input() {
    let payload = RegistrationPayload { edges: vec![] };
    let options = RegistrationOptions { implicit_intervals: true, execution_uncertainty: uncertainty(0.) };
    let mut stn = STN::new();
    let res = build_distance_graph(&mut stn, &payload, &options);
    assert_eq!((0_usize, 0_usize), res, "no nodes or edges should be created");
}

#[test]
fn test_build_distance_graph_walkthrough_graph() {
    let data = RegistrationPayload { edges: walkthrough_edges() };
    let options = explicit_options();
    let mut stn = STN::new();
    let (nodes_created, edges_created) = build_distance_graph(&mut stn, &data, &options);

    assert_eq!(5_usize, nodes_created, "correct number of nodes created");
    assert_eq!(15_usize, edges_created, "correct number of edges created");

    let cases = [
        (1, 2, Interval::new(10, 20)),
        (2, 3, Interval::new(30, 40)),
        (4, 3, Interval::new(10, 20)),
        (4, 5, Interval::new(40, 50)),
        (1, 5, Interval::new(60, 70)),
    ];
    for (from, to, interval) in cases.iter() {
        let weight_to = match stn.graph_weight(*from, *to) {
            Some(w) => w,
            None => panic!("could not find weight between indices ({} - {})", from, to),
        };
        assert_eq!(interval.upper(), weight_to, "({} - {}) = {}", from, to, interval.upper());
        let weight_from = match stn.graph_weight(*to, *from) {
            Some(w) => w,
            None => panic!("could not find weight between indices ({} - {})", from, to),
        };
        assert_eq!(-interval.lower(), weight_from, "({} - {}) = {}", to, from, -interval.lower());
    }
}

#[test]
fn test_build_distance_graph_implicit_intervals() {
    let edges = vec![nominal(1, 2, 10), nominal(2, 3, 20), nominal(4, 3, 30), nominal(4, 5, 40), nominal(1, 5, 50)];
    let data = RegistrationPayload { edges };
    let options = RegistrationOptions { implicit_intervals: true, execution_uncertainty: uncertainty(0.1) };
    let mut stn = STN::new();
    let (nodes_created, edges_created) = build_distance_graph(&mut stn, &data, &options);

    assert_eq!(5_usize, nodes_created, "correct number of nodes created");
    assert_eq!(15_usize, edges_created, "correct number of edges created");

    let cases = [
        (1, 2, Interval::new(9, 11)),
        (2, 3, Interval::new(18, 22)),
        (4, 3, Interval::new(27, 33)),
        (4, 5, Interval::new(36, 44)),
        (1, 5, Interval::new(45, 55)),
    ];
    for (from, to, interval) in cases.iter() {
        let weight_to = match stn.graph_weight(*from, *to) {
            Some(w) => w,
            None => panic!("could not find weight between indices ({} - {})", from, to),
        };
        assert_eq!(interval.upper(), weight_to, "({} - {}) = {}", from, to, interval.upper());
        let weight_from = match stn.graph_weight(*to, *from) {
            Some(w) => w,
            None => panic!("could not find weight between indices ({} - {})", from, to),
        };
        assert_eq!(-interval.lower(), weight_from, "({} - {}) = {}", to, from, -interval.lower());
    }

    for i in 1..6 {
        let weight = match stn.graph_weight(i, i) {
            Some(w) => w,
            None => panic!("could not find weight between indices ({} - {})", i, i),
        };
        assert_eq!(0, weight, "({} - {}) = 0 got {}", i, i, weight);
    }
}

#[test]
fn test_perform_apsp_against_walkthrough_data() {
    let data = RegistrationPayload { edges: walkthrough_edges() };
    let options = explicit_options();
    let mut stn = STN::new();
    build_distance_graph(&mut stn, &data, &options);
    assert_eq!(Ok(()), perform_apsp(&mut stn));

    let expected: [((i32, i32), i64); 25] = [
        ((1, 1), 0),
        ((1, 2), 20),
        ((1, 3), 50),
        ((1, 4), 30),
        ((1, 5), 70),
        ((2, 1), -10),
        ((2, 2), 0),
        ((2, 3), 40),
        ((2, 4), 20),
        ((2, 5), 60),
        ((3, 1), -40),
        ((3, 2), -30),
        ((3, 3), 0),
        ((3, 4), -10),
        ((3, 5), 30),
        ((4, 1), -20),
        ((4, 2), -10),
        ((4, 3), 20),
        ((4, 4), 0),
        ((4, 5), 50),
        ((5, 1), -60),
        ((5, 2), -50),
        ((5, 3), -20),
        ((5, 4), -40),
        ((5, 5), 0),
    ];
    assert_eq!(expected.len(), stn.constraint_count(), "constraint tables are the same size");
    for ((i, j), dist) in expected.iter() {
        let got = stn.constraint(*i, *j);
        assert_eq!(Some(*dist), got, "{:?} want {}, got {:?}", (i, j), dist, got);
    }
}

#[test]
fn register_graph_returns_counts() {
    let mut stn = STN::new();
    let payload = RegistrationPayload { edges: vec![nominal(0, 1, 60)] };
    let options = RegistrationOptions { implicit_intervals: true, execution_uncertainty: default_execution_uncertainty() };
    let counts = stn.register_graph(&payload, &options);
    assert_eq!((2_usize, 4_usize), (counts.0, counts.1));
    assert_eq!(Some(66), stn.graph_weight(0, 1));
    assert_eq!(Some(-54), stn.graph_weight(1, 0));
}

#[test]
fn uncertainty_of_ten_percent_on_ten() {
    let mut stn = STN::new();
    let payload = RegistrationPayload { edges: vec![nominal(7, 8, 10)] };
    let options = RegistrationOptions { implicit_intervals: true, execution_uncertainty: uncertainty(0.1) };
    stn.register_graph(&payload, &options);
    assert_eq!(Some(11), stn.graph_weight(7, 8));
    assert_eq!(Some(-9), stn.graph_weight(8, 7));
}

#[test]
fn default_uncertainty_is_ten_percent() {
    assert_eq!(uncertainty(0.1), default_execution_uncertainty());
    let options = RegistrationOptions::default();
    assert!(!options.implicit_intervals);
    assert_eq!(uncertainty(0.1), options.execution_uncertainty);
}

#[test]
fn implicit_error_estimate_rounds_away_from_zero() {
    let mut stn = STN::new();
    let payload = RegistrationPayload { edges: vec![nominal(1, 2, 15), nominal(3, 4, -15)] };
    let options = RegistrationOptions { implicit_intervals: true, execution_uncertainty: uncertainty(0.1) };
    stn.register_graph(&payload, &options);
    assert_eq!(Some(17), stn.graph_weight(1, 2));
    assert_eq!(Some(-13), stn.graph_weight(2, 1));
    assert_eq!(Some(-17), stn.graph_weight(3, 4));
    assert_eq!(Some(13), stn.graph_weight(4, 3));
}

#[test]
fn edge_count_is_self_loops_plus_touched_pairs() {
    let mut stn = STN::new();
    let payload = RegistrationPayload {
        edges: vec![explicit(1, 1, 0, 0), explicit(1, 2, 1, 2), explicit(2, 1, 0, 3), explicit(2, 3, 4, 5)],
    };
    let counts = stn.register_graph(&payload, &explicit_options());
    assert_eq!((3_usize, 7_usize), (counts.0, counts.1));
    assert_eq!(3, stn.node_count());
}

#[test]
fn propagating_twice_gives_the_same_table() {
    let mut stn = STN::new();
    stn.register_graph(&RegistrationPayload { edges: walkthrough_edges() }, &explicit_options());
    assert_eq!(Ok(()), stn.perform_apsp());
    let first: Vec<Option<i64>> = (1..6).flat_map(|i| (1..6).map(move |j| (i, j))).map(|(i, j)| stn.constraint(i, j)).collect();
    assert_eq!(Ok(()), stn.perform_apsp());
    let second: Vec<Option<i64>> = (1..6).flat_map(|i| (1..6).map(move |j| (i, j))).map(|(i, j)| stn.constraint(i, j)).collect();
    assert_eq!(first, second);
    assert_eq!(25, stn.constraint_count());
}

#[test]
fn empty_network_propagates_to_empty_table() {
    let mut stn = STN::new();
    assert_eq!(0, stn.node_count());
    assert_eq!(Ok(()), stn.perform_apsp());
    assert_eq!(0, stn.constraint_count());
    assert_eq!(None, stn.constraint(1, 1));
}

#[test]
fn inverted_interval_is_infeasible() {
    let mut stn = STN::new();
    let payload = RegistrationPayload { edges: vec![explicit(1, 2, 10, 5)] };
    stn.register_graph(&payload, &explicit_options());
    assert!(matches!(stn.perform_apsp(), Err(StnError::NegativeCycle(_))));
}

#[test]
fn implicit_intervals_ignore_explicit_ones() {
    let mut stn = STN::new();
    let edge = Edge { source: 1, target: 2, interval: Interval::new(100, 200), minutes: 40 };
    let payload = RegistrationPayload { edges: vec![edge] };
    let options = RegistrationOptions { implicit_intervals: true, execution_uncertainty: uncertainty(0.25) };
    stn.register_graph(&payload, &options);
    assert_eq!(Some(50), stn.graph_weight(1, 2));
    assert_eq!(Some(-30), stn.graph_weight(2, 1));
}

#[test]
fn later_edge_between_same_pair_wins() {
    let mut stn = STN::new();
    let payload = RegistrationPayload { edges: vec![explicit(1, 2, 10, 20), explicit(2, 1, 3, 5)] };
    let counts = stn.register_graph(&payload, &explicit_options());
    assert_eq!((2_usize, 4_usize), (counts.0, counts.1));
    assert_eq!(Some(5), stn.graph_weight(2, 1));
    assert_eq!(Some(-3), stn.graph_weight(1, 2));
}

#[test]
fn unknown_time_points_have_no_weight_or_distance() {
    let mut stn = STN::new();
    stn.register_graph(&RegistrationPayload { edges: walkthrough_edges() }, &explicit_options());
    assert_eq!(None, stn.graph_weight(1, 3));
    assert_eq!(None, stn.graph_weight(1, 9));
    assert_eq!(None, stn.constraint(1, 2));
    assert_eq!(0, stn.constraint_count());
    assert_eq!(Ok(()), stn.perform_apsp());
    assert_eq!(None, stn.constraint(9, 9));
    assert_eq!(Some(0), stn.constraint(3, 3));
}

#[test]
fn unreachable_pairs_stay_unknown() {
    let mut stn = STN::new();
    let payload = RegistrationPayload { edges: vec![explicit(1, 2, 5, 10), explicit(3, 4, 1, 2)] };
    stn.register_graph(&payload, &explicit_options());
    assert_eq!(Ok(()), perform_apsp(&mut stn));
    assert_eq!(Some(10), stn.constraint(1, 2));
    assert_eq!(Some(-5), stn.constraint(2, 1));
    assert_eq!(None, stn.constraint(1, 3));
    assert_eq!(None, stn.constraint(4, 2));
    assert_eq!(8, stn.constraint_count());
}

#[test]
fn negative_cycle_is_reported() {
    let mut stn = STN::new();
    // 1 -> 2 takes at least 10, and 2 -> 1 takes at least 5: no schedule.
    let payload = RegistrationPayload { edges: vec![explicit(1, 2, 10, 20), explicit(2, 3, 0, 0), explicit(3, 1, 5, 5)] };
    stn.register_graph(&payload, &explicit_options());
    match perform_apsp(&mut stn) {
        Err(StnError::NegativeCycle(id)) => assert!(id == 1 || id == 2 || id == 3, "node {} is not on the cycle", id),
        other => panic!("expected a negative cycle, got {:?}", other),
    }
    assert_eq!(0, stn.constraint_count());
    assert_eq!(None, stn.constraint(1, 2));
}

#[test]
fn negative_self_loop_is_reported() {
    let mut stn = STN::new();
    let payload = RegistrationPayload { edges: vec![explicit(4, 4, -3, -1)] };
    stn.register_graph(&payload, &explicit_options());
    assert_eq!(Some(-1), stn.graph_weight(4, 4));
    assert_eq!(Err(StnError::NegativeCycle(4)), stn.perform_apsp());
}

#[test]
fn overflowing_distance_is_reported() {
    let mut stn = STN::new();
    let big = i64::MAX - 1;
    let payload = RegistrationPayload { edges: vec![explicit(1, 2, 0, big), explicit(2, 3, 0, big)] };
    stn.register_graph(&payload, &explicit_options());
    assert_eq!(Err(StnError::Overflow), stn.perform_apsp());
}

#[test]
fn propagation_satisfies_triangle_inequality() {
    let mut stn = STN::new();
    let payload = RegistrationPayload {
        edges: vec![explicit(1, 2, 3, 9), explicit(2, 3, 1, 4), explicit(1, 3, 2, 20), explicit(3, 4, 0, 7)],
    };
    stn.register_graph(&payload, &explicit_options());
    assert_eq!(Ok(()), stn.perform_apsp());
    for a in 1..5 {
        assert_eq!(Some(0), stn.constraint(a, a));
        for b in 1..5 {
            for c in 1..5 {
                if let (Some(ac), Some(cb)) = (stn.constraint(a, c), stn.constraint(c, b)) {
                    let ab = stn.constraint(a, b).expect("a path through c is known");
                    assert!(ab <= ac + cb, "({}, {}) = {} > {} + {}", a, b, ab, ac, cb);
                }
            }
        }
    }
    assert_eq!(Some(13), stn.constraint(1, 3));
    assert_eq!(Some(-4), stn.constraint(3, 1));
}

#[test]
fn network_text_reports_elapsed_time() {
    let stn = STN::new();
    assert_eq!("0 elapsed time", stn.to_string());
}
