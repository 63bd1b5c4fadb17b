//! Ant-colony tour construction for a vehicle-routing instance.
//!
//! The solver runs a fixed number of iterations; each iteration sends a fixed
//! number of ants around the graph. An ant starts at a pseudo-randomly chosen
//! node and repeatedly picks the next unvisited node with probability
//! proportional to `pheromone * desirability`, where the desirability of an
//! edge is the inverse square of its distance. After every iteration the
//! pheromone matrix evaporates by one half and every ant reinforces the edges
//! of its tour in both directions, and the shortest tour seen so far is
//! recorded; it is only ever replaced by a strictly shorter one.
//!
//! All arithmetic is exact fixed-point integer arithmetic, so a run is fully
//! deterministic given the instance and its seed. Two deliberate choices for
//! degenerate instances: a zero distance is clamped to one when computing
//! desirability (instead of producing an unbounded weight), and pheromone
//! reinforcement saturates at a fixed cap. Vehicle capacity and per-node
//! demands are carried by the instance but never consulted by the tour
//! construction: the result is a single closed tour.

use vstd::prelude::*;
use crate::rng::Rng;

verus! {

/// Ants launched per iteration.
pub const NUM_ANTS: usize = 10;

/// Iterations per solve call.
pub const MAX_ITERATIONS: usize = 1000;

/// Scale of the inverse-square distance desirability.
pub const HEUR_SCALE: u64 = 0x1_0000_0000;

/// Numerator of the initial pheromone level (divided by the node count).
pub const PHEROMONE_SCALE: u64 = 0x10_0000;

/// Numerator of a tour's pheromone deposit (divided by the tour length).
pub const DEPOSIT_SCALE: u64 = 0x10_0000;

/// Saturation cap for pheromone entries.
pub const PHEROMONE_MAX: u64 = 0x100_0000_0000;

/// A routing instance: a square distance matrix, a vehicle capacity and
/// per-node demands (carried but not consulted by this heuristic), and the
/// seed bytes for the pseudo-random generator.
pub struct Challenge {
    pub num_nodes: usize,
    pub distance_matrix: Vec<Vec<u32>>,
    pub max_capacity: u32,
    pub demands: Vec<u32>,
    pub seed: Vec<u8>,
}

/// A candidate answer: a list of routes (this solver returns exactly one).
pub struct Solution {
    pub routes: Vec<Vec<usize>>,
}

/// One tour-construction trial: the visited node sequence and its length.
pub struct Ant {
    pub tour: Vec<usize>,
    pub tour_length: u64,
}

impl Ant {
    /// A fresh ant with no tour yet.
    pub fn new(num_nodes: usize) -> (a: Ant)
        ensures
            a.tour@.len() == 0,
            a.tour_length == 0,
    {
        Ant { tour: Vec::with_capacity(num_nodes), tour_length: 0 }
    }
}

/// The instance invariant: at least one node, a square matrix, matching
/// demand list, at least eight seed bytes, and a node count small enough
/// that every tour length fits in a `u64`.
pub open spec fn well_formed(c: Challenge) -> bool {
    &&& 1 <= c.num_nodes
    &&& c.num_nodes <= 0xffff_ffff
    &&& c.distance_matrix@.len() == c.num_nodes
    &&& forall|i: int|
        0 <= i < c.distance_matrix@.len() ==> (#[trigger] c.distance_matrix@[i])@.len()
            == c.num_nodes
    &&& c.demands@.len() == c.num_nodes
    &&& c.seed@.len() >= 8
}

/// A square matrix of side `n`.
pub open spec fn dist_wf(m: Seq<Vec<u32>>, n: int) -> bool {
    &&& m.len() == n
    &&& forall|i: int| 0 <= i < n ==> (#[trigger] m[i])@.len() == n
}

/// A square pheromone matrix of side `n` with entries at most `cap`.
pub open spec fn pher_wf(m: Seq<Vec<u64>>, n: int, cap: int) -> bool {
    &&& m.len() == n
    &&& forall|i: int| 0 <= i < n ==> (#[trigger] m[i])@.len() == n
    &&& forall|i: int, j: int| 0 <= i < n && 0 <= j < n ==> (#[trigger] m[i]@[j]) as int <= cap
}

/// A closed tour over `n` nodes: `n + 1` entries, the last repeating the
/// first, the first `n` pairwise distinct, and every node visited.
pub open spec fn closed_tour(tour: Seq<usize>, n: int) -> bool {
    &&& tour.len() == n + 1
    &&& tour[0] == tour[n]
    &&& forall|k: int| 0 <= k < tour.len() ==> ((#[trigger] tour[k]) as int) < n
    &&& forall|k: int, l: int| 0 <= k < l < n ==> tour[k] != tour[l]
    &&& forall|y: usize| (y as int) < n ==> #[trigger] tour.subrange(0, n).contains(y)
}

/// The views of the rows of a distance matrix.
pub open spec fn dview(dm: Seq<Vec<u32>>) -> Seq<Seq<u32>> {
    dm.map_values(|r: Vec<u32>| r@)
}

/// Sum of the distances of the first `upto` edges of `tour`.
pub open spec fn tour_len_prefix(dm: Seq<Seq<u32>>, tour: Seq<usize>, upto: int) -> int
    decreases upto,
{
    if upto <= 0 {
        0
    } else {
        tour_len_prefix(dm, tour, upto - 1) + dm[tour[upto - 1] as int][tour[upto] as int]
    }
}

/// The length of a tour: the sum of the distances of consecutive entries.
pub open spec fn tour_len(dm: Seq<Seq<u32>>, tour: Seq<usize>) -> int {
    tour_len_prefix(dm, tour, tour.len() - 1)
}

/// How many entries of `s` are still false.
pub open spec fn count_false(s: Seq<bool>) -> int
    decreases s.len(),
{
    if s.len() == 0 {
        0
    } else {
        count_false(s.drop_last()) + if s.last() {
            0int
        } else {
            1int
        }
    }
}

proof fn lemma_count_false_all_false(s: Seq<bool>)
    requires
        forall|k: int| 0 <= k < s.len() ==> !s[k],
    ensures
        count_false(s) == s.len(),
    decreases s.len(),
{
    if s.len() > 0 {
        lemma_count_false_all_false(s.drop_last());
    }
}

proof fn lemma_count_false_update(s: Seq<bool>, j: int)
    requires
        0 <= j < s.len(),
        !s[j],
    ensures
        count_false(s.update(j, true)) == count_false(s) - 1,
    decreases s.len(),
{
    if j == s.len() - 1 {
        assert(s.update(j, true).drop_last() =~= s.drop_last());
    } else {
        assert(s.update(j, true).drop_last() =~= s.drop_last().update(j, true));
        lemma_count_false_update(s.drop_last(), j);
    }
}

proof fn lemma_count_false_zero(s: Seq<bool>)
    requires
        count_false(s) == 0,
    ensures
        forall|k: int| 0 <= k < s.len() ==> s[k],
    decreases s.len(),
{
    if s.len() > 0 {
        lemma_count_false_nonneg(s.drop_last());
        assert(s.last());
        lemma_count_false_zero(s.drop_last());
        assert forall|k: int| 0 <= k < s.len() implies s[k] by {
            if k < s.len() - 1 {
                assert(s.drop_last()[k]);
            } else {
                assert(s[k] == s.last());
            }
        }
    }
}

proof fn lemma_count_false_nonneg(s: Seq<bool>)
    ensures
        count_false(s) >= 0,
    decreases s.len(),
{
    if s.len() > 0 {
        lemma_count_false_nonneg(s.drop_last());
    }
}

proof fn lemma_count_false_pos(s: Seq<bool>)
    requires
        count_false(s) > 0,
    ensures
        exists|j: int| 0 <= j < s.len() && !(#[trigger] s[j]),
    decreases s.len(),
{
    if s.len() > 0 {
        if !s.last() {
            assert(!s[s.len() - 1]);
        } else {
            lemma_count_false_pos(s.drop_last());
            let j = choose|j: int| 0 <= j < s.drop_last().len() && !(#[trigger] s.drop_last()[j]);
            assert(!s[j]);
        }
    }
}

proof fn lemma_contains_push(s: Seq<usize>, x: usize, y: usize)
    ensures
        s.push(x).contains(y) <==> (s.contains(y) || y == x),
{
    if s.contains(y) {
        let idx = choose|idx: int| 0 <= idx < s.len() && s[idx] == y;
        assert(s.push(x)[idx] == y);
    }
    if y == x {
        assert(s.push(x)[s.len() as int] == y);
    }
    if s.push(x).contains(y) {
        let idx = choose|idx: int| 0 <= idx < s.push(x).len() && s.push(x)[idx] == y;
        if idx < s.len() {
            assert(s[idx] == y);
        }
    }
}

/// The seed value: the first eight seed bytes read as a little-endian word.
pub open spec fn seed_value(s: Seq<u8>) -> int {
    s[0] + s[1] * 0x100 + s[2] * 0x1_0000 + s[3] * 0x100_0000 + s[4] * 0x1_0000_0000 + s[5]
        * 0x100_0000_0000 + s[6] * 0x1_0000_0000_0000 + s[7] * 0x100_0000_0000_0000
}

fn seed_from_bytes(seed: &Vec<u8>) -> (s: u64)
    requires
        seed@.len() >= 8,
    ensures
        s as int == seed_value(seed@),
{
    seed[0] as u64 + seed[1] as u64 * 0x100 + seed[2] as u64 * 0x1_0000 + seed[3] as u64
        * 0x100_0000 + seed[4] as u64 * 0x1_0000_0000 + seed[5] as u64 * 0x100_0000_0000
        + seed[6] as u64 * 0x1_0000_0000_0000 + seed[7] as u64 * 0x100_0000_0000_0000
}

/// Desirability of an edge of distance `d`: `HEUR_SCALE / d²`, with a zero
/// distance clamped to one.
pub open spec fn heur_spec(d: u32) -> int {
    let dd: int = if d == 0 {
        1
    } else {
        d as int
    };
    (HEUR_SCALE as int) / (dd * dd)
}

fn heuristic(d: u32) -> (h: u64)
    ensures
        h as int == heur_spec(d),
        h <= HEUR_SCALE,
{
    let dd: u64 = if d == 0 {
        1
    } else {
        d as u64
    };
    proof {
        assert((dd as int) * (dd as int) <= 0xffff_ffff * 0xffff_ffff && (dd as int) * (dd as int)
            >= 1) by (nonlinear_arith)
            requires
                1 <= dd as int <= 0xffff_ffff,
        ;
        assert((HEUR_SCALE as int) / ((dd as int) * (dd as int)) <= HEUR_SCALE as int)
            by (nonlinear_arith)
            requires
                (dd as int) * (dd as int) >= 1,
        ;
    }
    HEUR_SCALE / (dd * dd)
}

/// The length of a closed tour under a distance matrix: the sum of the
/// distances between consecutive entries.
pub fn calculate_tour_length(tour: &Vec<usize>, distance_matrix: &Vec<Vec<u32>>) -> (length: u64)
    requires
        1 <= tour@.len() <= 0x1_0000_0000,
        forall|k: int|
            0 <= k < tour@.len() ==> ((#[trigger] tour@[k]) as int) < distance_matrix@.len(),
        forall|i: int|
            0 <= i < distance_matrix@.len() ==> (#[trigger] distance_matrix@[i])@.len()
                == distance_matrix@.len(),
    ensures
        length as int == tour_len(dview(distance_matrix@), tour@),
        length as int <= (tour@.len() - 1) * 0xffff_ffff,
{
    let mut length: u64 = 0;
    let mut k: usize = 0;
    let last = tour.len() - 1;
    while k < last
        invariant
            k <= last,
            last == tour@.len() - 1,
            tour@.len() <= 0x1_0000_0000,
            forall|t: int|
                0 <= t < tour@.len() ==> ((#[trigger] tour@[t]) as int) < distance_matrix@.len(),
            forall|i: int|
                0 <= i < distance_matrix@.len() ==> (#[trigger] distance_matrix@[i])@.len()
                    == distance_matrix@.len(),
            length as int == tour_len_prefix(dview(distance_matrix@), tour@, k as int),
            length as int <= (k as int) * 0xffff_ffff,
        decreases last - k,
    {
        let a = tour[k];
        let b = tour[k + 1];
        let d = distance_matrix[a][b];
        proof {
            assert(dview(distance_matrix@)[a as int] == distance_matrix@[a as int]@);
            assert(length as int + d as int <= (k as int + 1) * 0xffff_ffff) by (nonlinear_arith)
                requires
                    length as int <= (k as int) * 0xffff_ffff,
                    d <= 0xffff_ffff,
                    k >= 0,
            ;
            assert((k as int + 1) * 0xffff_ffff <= 0x1_0000_0000 * 0xffff_ffff) by (nonlinear_arith)
                requires
                    k as int + 1 <= 0x1_0000_0000,
            ;
        }
        length = length + d as u64;
        k += 1;
    }
    length
}

fn select_next(
    dist: &Vec<Vec<u32>>,
    pheromone: &Vec<Vec<u64>>,
    rng: &mut Rng,
    visited: &Vec<bool>,
    current: usize,
) -> (next: usize)
    requires
        1 <= dist@.len() <= 0xffff_ffff,
        dist_wf(dist@, dist@.len() as int),
        pher_wf(pheromone@, dist@.len() as int, PHEROMONE_MAX as int),
        (current as int) < dist@.len(),
        visited@.len() == dist@.len(),
        exists|j: int| 0 <= j < visited@.len() && !(#[trigger] visited@[j]),
    ensures
        (next as int) < dist@.len(),
        !visited@[next as int],
{
    let n = dist.len();
    let mut fallback: usize = 0;
    let mut found = false;
    let mut j: usize = 0;
    while j < n
        invariant
            j <= n,
            n == visited@.len(),
            found ==> (fallback as int) < n && !visited@[fallback as int],
            forall|t: int| 0 <= t < j && !(#[trigger] visited@[t]) ==> found,
        decreases n - j,
    {
        if !visited[j] {
            fallback = j;
            found = true;
        }
        j += 1;
    }
    proof {
        let jw = choose|jj: int| 0 <= jj < visited@.len() && !(#[trigger] visited@[jj]);
        assert(found);
    }
    let mut weights: Vec<u128> = Vec::new();
    let mut total: u128 = 0;
    let mut k: usize = 0;
    while k < n
        invariant
            k <= n,
            n == dist@.len(),
            n <= 0xffff_ffff,
            dist_wf(dist@, n as int),
            pher_wf(pheromone@, n as int, PHEROMONE_MAX as int),
            (current as int) < n,
            visited@.len() == n,
            weights@.len() == k,
            forall|t: int|
                0 <= t < k ==> (#[trigger] weights@[t]) as int <= (PHEROMONE_MAX as int) * (
                HEUR_SCALE as int),
            total as int <= (k as int) * (PHEROMONE_MAX as int) * (HEUR_SCALE as int),
        decreases n - k,
    {
        let w: u128 = if !visited[k] {
            let p = pheromone[current][k];
            let h = heuristic(dist[current][k]);
            proof {
                assert((p as u128 as int) * (h as u128 as int) <= (PHEROMONE_MAX as int) * (
                HEUR_SCALE as int)) by (nonlinear_arith)
                    requires
                        0 <= p as int <= PHEROMONE_MAX as int,
                        0 <= h as int <= HEUR_SCALE as int,
                ;
            }
            (p as u128) * (h as u128)
        } else {
            0
        };
        proof {
            assert(total as int + w as int <= (k as int + 1) * (PHEROMONE_MAX as int) * (
            HEUR_SCALE as int) && (k as int + 1) * (PHEROMONE_MAX as int) * (HEUR_SCALE as int)
                <= 0x1_0000_0000 * (PHEROMONE_MAX as int) * (HEUR_SCALE as int))
                by (nonlinear_arith)
                requires
                    total as int <= (k as int) * (PHEROMONE_MAX as int) * (HEUR_SCALE as int),
                    0 <= w as int <= (PHEROMONE_MAX as int) * (HEUR_SCALE as int),
                    0 <= k as int + 1 <= 0x1_0000_0000,
            ;
        }
        weights.push(w);
        total = total + w;
        k += 1;
    }
    let mut choice = fallback;
    if total > 0 {
        let r = rng.next_below(total);
        let mut cum: u128 = 0;
        let mut picked = false;
        let mut t: usize = 0;
        while t < n
            invariant
                t <= n,
                n <= 0xffff_ffff,
                n == visited@.len(),
                weights@.len() == n,
                forall|u: int|
                    0 <= u < n ==> (#[trigger] weights@[u]) as int <= (PHEROMONE_MAX as int) * (
                    HEUR_SCALE as int),
                cum as int <= (t as int) * (PHEROMONE_MAX as int) * (HEUR_SCALE as int),
                (choice as int) < n && !visited@[choice as int],
            decreases n - t,
        {
            if !visited[t] && !picked {
                let wt = weights[t];
                proof {
                    assert(cum as int + wt as int <= (t as int + 1) * (PHEROMONE_MAX as int) * (
                    HEUR_SCALE as int) && (t as int + 1) * (PHEROMONE_MAX as int) * (
                    HEUR_SCALE as int) <= 0x1_0000_0000 * (PHEROMONE_MAX as int) * (
                    HEUR_SCALE as int)) by (nonlinear_arith)
                        requires
                            cum as int <= (t as int) * (PHEROMONE_MAX as int) * (HEUR_SCALE as int),
                            0 <= wt as int <= (PHEROMONE_MAX as int) * (HEUR_SCALE as int),
                            0 <= t as int + 1 <= 0x1_0000_0000,
                    ;
                }
                if r < cum + wt {
                    choice = t;
                    picked = true;
                } else {
                    cum = cum + wt;
                }
            }
            proof {
                assert(cum as int <= (t as int + 1) * (PHEROMONE_MAX as int) * (HEUR_SCALE as int))
                    by (nonlinear_arith)
                    requires
                        cum as int <= (t as int) * (PHEROMONE_MAX as int) * (HEUR_SCALE as int)
                            || cum as int <= (t as int + 1) * (PHEROMONE_MAX as int) * (
                        HEUR_SCALE as int),
                        (PHEROMONE_MAX as int) * (HEUR_SCALE as int) >= 0,
                        t >= 0,
                ;
            }
            t += 1;
        }
    }
    choice
}

fn construct_tour(
    dist: &Vec<Vec<u32>>,
    pheromone: &Vec<Vec<u64>>,
    rng: &mut Rng,
    start: usize,
) -> (tour: Vec<usize>)
    requires
        1 <= dist@.len() <= 0xffff_ffff,
        dist_wf(dist@, dist@.len() as int),
        pher_wf(pheromone@, dist@.len() as int, PHEROMONE_MAX as int),
        (start as int) < dist@.len(),
    ensures
        closed_tour(tour@, dist@.len() as int),
{
    let n = dist.len();
    let mut visited: Vec<bool> = Vec::new();
    while visited.len() < n
        invariant
            visited@.len() <= n,
            forall|t: int| 0 <= t < visited@.len() ==> !(#[trigger] visited@[t]),
        decreases n - visited@.len(),
    {
        visited.push(false);
    }
    let ghost v0 = visited@;
    let mut tour: Vec<usize> = Vec::new();
    tour.push(start);
    visited[start] = true;
    proof {
        lemma_count_false_all_false(v0);
        lemma_count_false_update(v0, start as int);
        assert(tour@[0] == start);
        assert forall|y: usize| (y as int) < n implies ((#[trigger] visited@[y as int])
            <==> tour@.contains(y)) by {
            if y == start {
                assert(tour@[0] == y);
            } else {
                if tour@.contains(y) {
                    let idx = choose|idx: int| 0 <= idx < tour@.len() && tour@[idx] == y;
                    assert(idx == 0);
                }
            }
        }
    }
    while tour.len() < n
        invariant
            1 <= tour@.len() <= n,
            n == dist@.len(),
            1 <= n <= 0xffff_ffff,
            dist_wf(dist@, n as int),
            pher_wf(pheromone@, n as int, PHEROMONE_MAX as int),
            visited@.len() == n,
            forall|k: int| 0 <= k < tour@.len() ==> ((#[trigger] tour@[k]) as int) < n,
            forall|k: int, l: int| 0 <= k < l < tour@.len() ==> tour@[k] != tour@[l],
            forall|y: usize|
                (y as int) < n ==> ((#[trigger] visited@[y as int]) <==> tour@.contains(y)),
            count_false(visited@) == n - tour@.len(),
        decreases n - tour@.len(),
    {
        let current = tour[tour.len() - 1];
        proof {
            lemma_count_false_pos(visited@);
        }
        let next = select_next(dist, pheromone, rng, &visited, current);
        let ghost tour0 = tour@;
        let ghost vis0 = visited@;
        proof {
            assert(!tour0.contains(next));
        }
        tour.push(next);
        visited[next] = true;
        proof {
            lemma_count_false_update(vis0, next as int);
            assert forall|k: int, l: int| 0 <= k < l < tour@.len() implies tour@[k] != tour@[l] by {
                if l < tour@.len() - 1 {
                    assert(tour0[k] != tour0[l]);
                } else {
                    assert(tour@[k] == tour0[k]);
                    assert(tour0.contains(tour0[k]));
                    assert(tour@[l] == next);
                }
            }
            assert forall|y: usize| (y as int) < n implies ((#[trigger] visited@[y as int])
                <==> tour@.contains(y)) by {
                lemma_contains_push(tour0, next, y);
                if y == next {
                } else {
                    assert(visited@[y as int] == vis0[y as int]);
                }
            }
        }
    }
    let first = tour[0];
    let ghost open_tour = tour@;
    tour.push(first);
    proof {
        lemma_count_false_zero(visited@);
        assert forall|y: usize| (y as int) < n implies #[trigger] tour@.subrange(0, n as int)
            .contains(y) by {
            assert(visited@[y as int]);
            assert(open_tour.contains(y));
            assert(tour@.subrange(0, n as int) =~= open_tour);
        }
        assert(tour@[n as int] == first);
        assert(tour@[0] == first);
    }
    tour
}

/// The whole mutable state of one solve call: the instance data the solver
/// reads, the pheromone matrix, the generator, and the best tour seen so far
/// (`best_tour_length == u64::MAX` while no tour has been recorded yet).
pub struct Colony {
    pub num_nodes: usize,
    pub distance_matrix: Vec<Vec<u32>>,
    pub pheromone: Vec<Vec<u64>>,
    pub rng: Rng,
    pub best_tour: Vec<usize>,
    pub best_tour_length: u64,
}

/// The colony invariant: square matrices, bounded pheromone, and a recorded
/// best tour that is a closed tour of the recorded length.
pub open spec fn colony_wf(s: Colony) -> bool {
    &&& 1 <= s.num_nodes <= 0xffff_ffff
    &&& dist_wf(s.distance_matrix@, s.num_nodes as int)
    &&& pher_wf(s.pheromone@, s.num_nodes as int, PHEROMONE_MAX as int)
    &&& s.best_tour_length != u64::MAX ==> {
        &&& closed_tour(s.best_tour@, s.num_nodes as int)
        &&& s.best_tour_length as int == tour_len(dview(s.distance_matrix@), s.best_tour@)
    }
}

fn copy_matrix(m: &Vec<Vec<u32>>) -> (r: Vec<Vec<u32>>)
    ensures
        r@.len() == m@.len(),
        forall|i: int| 0 <= i < m@.len() ==> (#[trigger] r@[i])@ == m@[i]@,
{
    let mut r: Vec<Vec<u32>> = Vec::new();
    let mut i: usize = 0;
    while i < m.len()
        invariant
            i <= m@.len(),
            r@.len() == i,
            forall|t: int| 0 <= t < i ==> (#[trigger] r@[t])@ == m@[t]@,
        decreases m@.len() - i,
    {
        let row = m[i].clone();
        r.push(row);
        i += 1;
    }
    r
}

impl Colony {
    /// Set up a colony for an instance: uniform initial pheromone
    /// (`PHEROMONE_SCALE / n`, clamped up to one so it is never zero) and a
    /// generator seeded from the instance's seed bytes alone.
    pub fn new(c: &Challenge) -> (s: Colony)
        requires
            well_formed(*c),
        ensures
            colony_wf(s),
            s.num_nodes == c.num_nodes,
            s.distance_matrix@.len() == c.distance_matrix@.len(),
            forall|i: int|
                0 <= i < c.distance_matrix@.len() ==> (#[trigger] s.distance_matrix@[i])@
                    == c.distance_matrix@[i]@,
            s.best_tour_length == u64::MAX,
    {
        let n = c.num_nodes;
        let mut init: u64 = PHEROMONE_SCALE / (n as u64);
        if init == 0 {
            init = 1;
        }
        let mut pheromone: Vec<Vec<u64>> = Vec::new();
        let mut i: usize = 0;
        while i < n
            invariant
                i <= n,
                init <= PHEROMONE_MAX,
                pheromone@.len() == i,
                forall|t: int| 0 <= t < i ==> (#[trigger] pheromone@[t])@.len() == n,
                forall|t: int, u: int|
                    0 <= t < i && 0 <= u < n ==> (#[trigger] pheromone@[t]@[u]) == init,
            decreases n - i,
        {
            let mut row: Vec<u64> = Vec::new();
            let mut j: usize = 0;
            while j < n
                invariant
                    j <= n,
                    row@.len() == j,
                    forall|u: int| 0 <= u < j ==> (#[trigger] row@[u]) == init,
                decreases n - j,
            {
                row.push(init);
                j += 1;
            }
            pheromone.push(row);
            i += 1;
        }
        let seed = seed_from_bytes(&c.seed);
        Colony {
            num_nodes: n,
            distance_matrix: copy_matrix(&c.distance_matrix),
            pheromone,
            rng: Rng::from_seed(seed),
            best_tour: Vec::new(),
            best_tour_length: u64::MAX,
        }
    }

    /// One iteration: launch the ants, record the shortest tour seen so far,
    /// evaporate the pheromone by one half, and let every ant reinforce the
    /// edges of its tour in both directions.
    ///
    /// The recorded best tour length never increases from one iteration to
    /// the next, and after an iteration a best tour is always on record.
    pub fn run_iteration(&mut self)
        requires
            colony_wf(*old(self)),
        ensures
            colony_wf(*final(self)),
            final(self).num_nodes == old(self).num_nodes,
            final(self).distance_matrix@ == old(self).distance_matrix@,
            final(self).best_tour_length <= old(self).best_tour_length,
            final(self).best_tour_length != u64::MAX,
    {
        let n = self.num_nodes;
        let mut ants: Vec<Ant> = Vec::new();
        let mut a: usize = 0;
        while a < NUM_ANTS
            invariant
                a <= NUM_ANTS,
                ants@.len() == a,
                colony_wf(*self),
                n == self.num_nodes,
                self.num_nodes == old(self).num_nodes,
                self.distance_matrix@ == old(self).distance_matrix@,
                self.best_tour == old(self).best_tour,
                self.best_tour_length == old(self).best_tour_length,
                forall|t: int|
                    0 <= t < a ==> closed_tour((#[trigger] ants@[t]).tour@, n as int)
                        && ants@[t].tour_length as int == tour_len(
                        dview(self.distance_matrix@),
                        ants@[t].tour@,
                    ) && ants@[t].tour_length != u64::MAX,
            decreases NUM_ANTS - a,
        {
            let start = self.rng.next_below(n as u128) as usize;
            let tour = construct_tour(
                &self.distance_matrix,
                &self.pheromone,
                &mut self.rng,
                start,
            );
            let length = calculate_tour_length(&tour, &self.distance_matrix);
            proof {
                assert((n as int) * 0xffff_ffff < 0xffff_ffff_ffff_ffff) by (nonlinear_arith)
                    requires
                        0 <= n as int <= 0xffff_ffff,
                ;
            }
            let mut ant = Ant::new(n);
            ant.tour = tour;
            ant.tour_length = length;
            ants.push(ant);
            a += 1;
        }
        let mut b: usize = 0;
        while b < NUM_ANTS
            invariant
                b <= NUM_ANTS,
                ants@.len() == NUM_ANTS,
                colony_wf(*self),
                n == self.num_nodes,
                self.num_nodes == old(self).num_nodes,
                self.distance_matrix@ == old(self).distance_matrix@,
                self.best_tour_length <= old(self).best_tour_length,
                b >= 1 ==> self.best_tour_length <= ants@[0].tour_length,
                forall|t: int|
                    0 <= t < NUM_ANTS ==> closed_tour((#[trigger] ants@[t]).tour@, n as int)
                        && ants@[t].tour_length as int == tour_len(
                        dview(self.distance_matrix@),
                        ants@[t].tour@,
                    ) && ants@[t].tour_length != u64::MAX,
            decreases NUM_ANTS - b,
        {
            if ants[b].tour_length < self.best_tour_length {
                self.best_tour = ants[b].tour.clone();
                self.best_tour_length = ants[b].tour_length;
            }
            b += 1;
        }
        let ghost best_len_mid = self.best_tour_length;
        let mut i: usize = 0;
        while i < n
            invariant
                i <= n,
                n == self.num_nodes,
                colony_wf(*self),
                self.num_nodes == old(self).num_nodes,
                self.distance_matrix@ == old(self).distance_matrix@,
                self.best_tour_length == best_len_mid,
                best_len_mid <= old(self).best_tour_length,
                best_len_mid != u64::MAX,
            decreases n - i,
        {
            let mut j: usize = 0;
            while j < n
                invariant
                    j <= n,
                    i < n,
                    n == self.num_nodes,
                    colony_wf(*self),
                    self.num_nodes == old(self).num_nodes,
                    self.distance_matrix@ == old(self).distance_matrix@,
                    self.best_tour_length == best_len_mid,
                decreases n - j,
            {
                let p = self.pheromone[i][j];
                self.pheromone[i][j] = p / 2;
                j += 1;
            }
            i += 1;
        }
        let mut ci: usize = 0;
        while ci < NUM_ANTS
            invariant
                ci <= NUM_ANTS,
                ants@.len() == NUM_ANTS,
                n == self.num_nodes,
                colony_wf(*self),
                self.num_nodes == old(self).num_nodes,
                self.distance_matrix@ == old(self).distance_matrix@,
                self.best_tour_length == best_len_mid,
                best_len_mid <= old(self).best_tour_length,
                best_len_mid != u64::MAX,
                forall|t: int|
                    0 <= t < NUM_ANTS ==> closed_tour((#[trigger] ants@[t]).tour@, n as int),
            decreases NUM_ANTS - ci,
        {
            let len = ants[ci].tour_length;
            let denom: u64 = if len == 0 {
                1
            } else {
                len
            };
            let dep = DEPOSIT_SCALE / denom;
            proof {
                assert(DEPOSIT_SCALE / denom <= DEPOSIT_SCALE) by (nonlinear_arith)
                    requires
                        denom >= 1,
                ;
            }
            let edges = ants[ci].tour.len() - 1;
            let mut k: usize = 0;
            while k < edges
                invariant
                    k <= edges,
                    ci < NUM_ANTS,
                    ants@.len() == NUM_ANTS,
                    edges == n,
                    n == self.num_nodes,
                    dep <= DEPOSIT_SCALE,
                    colony_wf(*self),
                    self.num_nodes == old(self).num_nodes,
                    self.distance_matrix@ == old(self).distance_matrix@,
                    self.best_tour_length == best_len_mid,
                    forall|t: int|
                        0 <= t < NUM_ANTS ==> closed_tour((#[trigger] ants@[t]).tour@, n as int),
                decreases edges - k,
            {
                let u = ants[ci].tour[k];
                let v = ants[ci].tour[k + 1];
                let p1 = self.pheromone[u][v];
                let q1 = if p1 + dep > PHEROMONE_MAX {
                    PHEROMONE_MAX
                } else {
                    p1 + dep
                };
                self.pheromone[u][v] = q1;
                let p2 = self.pheromone[v][u];
                let q2 = if p2 + dep > PHEROMONE_MAX {
                    PHEROMONE_MAX
                } else {
                    p2 + dep
                };
                self.pheromone[v][u] = q2;
                k += 1;
            }
            ci += 1;
        }
    }
}

fn check_well_formed(c: &Challenge) -> (ok: bool)
    ensures
        ok == well_formed(*c),
{
    let n = c.num_nodes;
    if n < 1 || n > 0xffff_ffff {
        return false;
    }
    if c.distance_matrix.len() != n || c.demands.len() != n || c.seed.len() < 8 {
        return false;
    }
    let mut i: usize = 0;
    while i < n
        invariant
            i <= n,
            n == c.distance_matrix@.len(),
            forall|t: int| 0 <= t < i ==> (#[trigger] c.distance_matrix@[t])@.len() == n,
        decreases n - i,
    {
        if c.distance_matrix[i].len() != n {
            return false;
        }
        i += 1;
    }
    true
}

/// Solve a routing instance: run the ant colony for the configured number of
/// iterations and return the best tour found as a single route.
///
/// A malformed instance (empty, non-square, short seed) is rejected with
/// `None`; every well-formed instance yields exactly one closed tour that
/// starts and ends at the same node and visits every node exactly once.
pub fn solve_challenge(c: &Challenge) -> (r: Option<Solution>)
    ensures
        (r is Some) <==> well_formed(*c),
        r matches Some(sol) ==> sol.routes@.len() == 1 && closed_tour(
            sol.routes@[0]@,
            c.num_nodes as int,
        ),
{
    if !check_well_formed(c) {
        return None;
    }
    let mut colony = Colony::new(c);
    let mut it: usize = 0;
    while it < MAX_ITERATIONS
        invariant
            it <= MAX_ITERATIONS,
            colony_wf(colony),
            colony.num_nodes == c.num_nodes,
            it >= 1 ==> colony.best_tour_length != u64::MAX,
        decreases MAX_ITERATIONS - it,
    {
        colony.run_iteration();
        it += 1;
    }
    let mut routes: Vec<Vec<usize>> = Vec::new();
    routes.push(colony.best_tour);
    Some(Solution { routes })
}

} // verus!
