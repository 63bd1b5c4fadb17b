use tig_algorithms::vehicle_routing::{
    calculate_tour_length, solve_challenge, Challenge, Colony,
};

fn make(distance_matrix: Vec<Vec<u32>>, seed_byte: u8) -> Challenge {
    let n = distance_matrix.len();
    Challenge {
        num_nodes: n,
        distance_matrix,
        max_capacity: 100,
        demands: vec![1; n],
        seed: vec![seed_byte; 32],
    }
}

fn check_closed_tour(route: &[usize], n: usize) {
    assert_eq!(route.len(), n + 1, "route must have n + 1 entries");
    assert_eq!(route[0], route[n], "route must return to its start");
    let mut seen = vec![false; n];
    for &node in &route[..n] {
        assert!(node < n, "node out of range");
        assert!(!seen[node], "node visited twice");
        seen[node] = true;
    }
    assert!(seen.iter().all(|&s| s), "some node was never visited");
}

#[test]
fn square_instance_finds_perimeter() {
    // Four nodes on a square: unit sides, longer diagonals. The optimal tour
    // is the perimeter, of length 4; with ten thousand sampled tours over the
    // three possible cycles the colony must find it.
    let dm = vec![
        vec![0, 1, 2, 1],
        vec![1, 0, 1, 2],
        vec![2, 1, 0, 1],
        vec![1, 2, 1, 0],
    ];
    let c = make(dm, 7);
    let sol = solve_challenge(&c).expect("well-formed instance");
    assert_eq!(sol.routes.len(), 1);
    let route = &sol.routes[0];
    check_closed_tour(route, 4);
    let len = calculate_tour_length(route, &c.distance_matrix);
    assert_eq!(len, 4, "best tour must be the perimeter");
}

#[test]
fn two_node_tour() {
    let dm = vec![vec![0, 5], vec![5, 0]];
    let c = make(dm, 1);
    let sol = solve_challenge(&c).expect("well-formed instance");
    let route = &sol.routes[0];
    check_closed_tour(route, 2);
    let len = calculate_tour_length(route, &c.distance_matrix);
    assert_eq!(len, 10, "degenerate tour length is twice the distance");
}

#[test]
fn routing_determinism() {
    let dm = vec![
        vec![0, 3, 9, 4, 6],
        vec![3, 0, 2, 8, 1],
        vec![9, 2, 0, 5, 7],
        vec![4, 8, 5, 0, 2],
        vec![6, 1, 7, 2, 0],
    ];
    let c1 = make(dm.clone(), 42);
    let c2 = make(dm, 42);
    let a = solve_challenge(&c1).expect("well-formed instance");
    let b = solve_challenge(&c2).expect("well-formed instance");
    assert_eq!(a.routes, b.routes, "same instance and seed must reproduce the route");
    let la = calculate_tour_length(&a.routes[0], &c1.distance_matrix);
    let lb = calculate_tour_length(&b.routes[0], &c2.distance_matrix);
    assert_eq!(la, lb);
}

#[test]
fn routing_completeness() {
    let dm = vec![
        vec![0, 3, 9, 4, 6, 11],
        vec![3, 0, 2, 8, 1, 5],
        vec![9, 2, 0, 5, 7, 3],
        vec![4, 8, 5, 0, 2, 9],
        vec![6, 1, 7, 2, 0, 4],
        vec![11, 5, 3, 9, 4, 0],
    ];
    let c = make(dm, 123);
    let sol = solve_challenge(&c).expect("well-formed instance");
    check_closed_tour(&sol.routes[0], 6);
}

#[test]
fn best_length_never_increases() {
    let dm = vec![
        vec![0, 3, 9, 4],
        vec![3, 0, 2, 8],
        vec![9, 2, 0, 5],
        vec![4, 8, 5, 0],
    ];
    let c = make(dm, 9);
    let mut colony = Colony::new(&c);
    let mut last = u64::MAX;
    for _ in 0..25 {
        colony.run_iteration();
        assert!(colony.best_tour_length <= last, "recorded best must not increase");
        last = colony.best_tour_length;
    }
    assert!(last < u64::MAX, "an iteration always records a tour");
    check_closed_tour(&colony.best_tour, 4);
}

#[test]
fn zero_distance_edges_are_handled() {
    let dm = vec![vec![0, 0, 1], vec![0, 0, 2], vec![1, 2, 0]];
    let c = make(dm, 5);
    let sol = solve_challenge(&c).expect("well-formed instance");
    check_closed_tour(&sol.routes[0], 3);
}

#[test]
fn malformed_instances_are_rejected() {
    // Non-square matrix.
    let c = Challenge {
        num_nodes: 2,
        distance_matrix: vec![vec![0, 1], vec![1]],
        max_capacity: 10,
        demands: vec![1, 1],
        seed: vec![0; 32],
    };
    assert!(solve_challenge(&c).is_none());
    // Zero nodes.
    let c2 = Challenge {
        num_nodes: 0,
        distance_matrix: vec![],
        max_capacity: 10,
        demands: vec![],
        seed: vec![0; 32],
    };
    assert!(solve_challenge(&c2).is_none());
    // Seed too short.
    let c3 = Challenge {
        num_nodes: 1,
        distance_matrix: vec![vec![0]],
        max_capacity: 10,
        demands: vec![1],
        seed: vec![0; 4],
    };
    assert!(solve_challenge(&c3).is_none());
}

#[test]
fn tour_length_formula() {
    let dm = vec![vec![0, 3, 9], vec![3, 0, 2], vec![9, 2, 0]];
    let tour = vec![0, 1, 2, 0];
    assert_eq!(calculate_tour_length(&tour, &dm), 3 + 2 + 9);
}
