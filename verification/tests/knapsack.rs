use tig_algorithms::knapsack::{solve_challenge, Challenge};

fn make(weights: Vec<u32>, values: Vec<u32>, max_weight: u32, min_value: u32) -> Challenge {
    Challenge { weights, values, max_weight, min_value }
}

/// Exhaustive search: does any subset fit the capacity and meet the threshold?
fn brute_force_solvable(weights: &[u32], values: &[u32], max_weight: u32, min_value: u32) -> bool {
    let n = weights.len();
    assert!(n <= 20);
    for mask in 0u32..(1u32 << n) {
        let mut w: u64 = 0;
        let mut v: u64 = 0;
        for i in 0..n {
            if mask & (1 << i) != 0 {
                w += weights[i] as u64;
                v += values[i] as u64;
            }
        }
        if w <= max_weight as u64 && v >= min_value as u64 {
            return true;
        }
    }
    false
}

fn check_valid(c: &Challenge, items: &[usize]) {
    let mut seen = vec![false; c.weights.len()];
    let mut w: u64 = 0;
    let mut v: u64 = 0;
    for &i in items {
        assert!(i < c.weights.len(), "item index out of range");
        assert!(!seen[i], "duplicate item");
        seen[i] = true;
        w += c.weights[i] as u64;
        v += c.values[i] as u64;
    }
    assert!(w <= c.max_weight as u64, "weight constraint violated");
    assert!(v >= c.min_value as u64, "value threshold missed");
}

#[test]
fn scenario_small_threshold_met() {
    let c = make(vec![2, 3, 4, 5], vec![3, 4, 5, 6], 5, 7);
    let sol = solve_challenge(&c).expect("a solution exists");
    check_valid(&c, &sol.items);
    assert_eq!(sol.items, vec![0, 1]);
}

#[test]
fn scenario_threshold_unreachable() {
    let c = make(vec![2, 3, 4, 5], vec![3, 4, 5, 6], 5, 100);
    assert!(solve_challenge(&c).is_none());
}

#[test]
fn scenario_single_overweight_item() {
    let c = make(vec![10], vec![7], 5, 1);
    assert!(solve_challenge(&c).is_none());
}

#[test]
fn knapsack_determinism() {
    let c = make(vec![2, 3, 4, 5, 1, 9], vec![3, 4, 5, 6, 1, 2], 9, 9);
    let a = solve_challenge(&c).map(|s| s.items);
    let b = solve_challenge(&c).map(|s| s.items);
    assert_eq!(a, b);
    let c2 = make(vec![2, 3, 4, 5], vec![3, 4, 5, 6], 5, 7);
    let a2 = solve_challenge(&c2).map(|s| s.items);
    let b2 = solve_challenge(&c2).map(|s| s.items);
    assert_eq!(a2, b2);
}

#[test]
fn dp_beats_greedy_order() {
    // The highest-ratio item alone cannot reach the threshold; the solver
    // must pick the two lower-ratio items.
    let c = make(vec![3, 2, 2], vec![5, 3, 3], 4, 6);
    let sol = solve_challenge(&c).expect("a solution exists");
    check_valid(&c, &sol.items);
    assert_eq!(sol.items, vec![1, 2]);
}

#[test]
fn empty_instance_zero_threshold() {
    let c = make(vec![], vec![], 5, 0);
    let sol = solve_challenge(&c).expect("the empty selection meets a zero threshold");
    assert!(sol.items.is_empty());
}

#[test]
fn empty_instance_positive_threshold() {
    let c = make(vec![], vec![], 5, 1);
    assert!(solve_challenge(&c).is_none());
}

#[test]
fn zero_capacity() {
    let c = make(vec![1, 2], vec![10, 20], 0, 1);
    assert!(solve_challenge(&c).is_none());
    let c2 = make(vec![0, 2], vec![10, 20], 0, 10);
    let sol = solve_challenge(&c2).expect("a weightless item fits any capacity");
    check_valid(&c2, &sol.items);
}

#[test]
fn pruning_agrees_with_brute_force() {
    // A deterministic sweep of small instances: whenever the solver reports
    // no solution (whether by pruning or by exhausting the items), exhaustive
    // search must agree, and every returned solution must be valid.
    let mut state: u64 = 0x2545_f491_4f6c_dd1d;
    let mut next = move || {
        state ^= state << 13;
        state ^= state >> 7;
        state ^= state << 17;
        state
    };
    for _ in 0..200 {
        let n = (next() % 7) as usize + 1;
        let weights: Vec<u32> = (0..n).map(|_| (next() % 12) as u32).collect();
        let values: Vec<u32> = (0..n).map(|_| (next() % 15) as u32).collect();
        let max_weight = (next() % 20) as u32;
        let min_value = (next() % 30) as u32;
        let c = make(weights.clone(), values.clone(), max_weight, min_value);
        match solve_challenge(&c) {
            Some(sol) => check_valid(&c, &sol.items),
            None => assert!(
                !brute_force_solvable(&weights, &values, max_weight, min_value),
                "solver missed a solution: {:?} {:?} max {} min {}",
                weights,
                values,
                max_weight,
                min_value
            ),
        }
    }
}
