use std::collections::HashSet;

use alns_rs::acceptance::{HillClimbAcceptanceCriteria, RecordToRecordTravelAcceptanceCriteria};
use alns_rs::novelty::NoveltySet;
use alns_rs::ranking::costlier_first;
use alns_rs::tsp::{
    cheapest_insertion, insert_greedily, insert_visit, move_to_bank, number_of_removal, position,
    GreedyRepairOperator, PathRemovalOperator, Problem, RandomDestroyOperator, TSPState,
    WorstRemovalOperator, BANK_PENALTY, MAX_DISTANCE,
};
use alns_rs::{DestroyOperator, RepairOperator, Solver, State};

const REWARDS: [u64; 3] = [3_000_000, 2_000_000, 1_000_000];
const OPTIMUM: u64 = 4;

/// Four places on a ring: neighbours are 1 apart, opposite places 5.
fn ring() -> Problem {
    Problem {
        visits: vec![0, 1, 2, 3],
        distance_map: vec![
            vec![0, 1, 5, 1],
            vec![1, 0, 1, 5],
            vec![5, 1, 0, 1],
            vec![1, 5, 1, 0],
        ],
    }
}

/// Eight places on a line, place `i` at position `i`.
fn line() -> Problem {
    let mut distance_map = vec![vec![0u64; 8]; 8];
    for i in 0..8usize {
        for j in 0..8usize {
            distance_map[i][j] = (i as i64 - j as i64).unsigned_abs();
        }
    }
    Problem { visits: (0..8).collect(), distance_map }
}

fn sorted(visits: &[u64]) -> Vec<u64> {
    let mut all = visits.to_vec();
    all.sort();
    all
}

fn all_visits(tour: &TSPState) -> Vec<u64> {
    let mut all = tour.route_visits().clone();
    all.extend(tour.banked_visits().iter().copied());
    sorted(&all)
}

#[test]
fn valid_problems() {
    assert!(ring().is_valid());
    assert!(line().is_valid());
    assert!(Problem { visits: vec![], distance_map: vec![] }.is_valid());
}

#[test]
fn invalid_problems() {
    let mut ragged = ring();
    ragged.distance_map[2].pop();
    assert!(!ragged.is_valid());
    let mut stranger = ring();
    stranger.visits.push(4);
    assert!(!stranger.is_valid());
    let mut far = ring();
    far.distance_map[1][3] = MAX_DISTANCE + 1;
    assert!(!far.is_valid());
    far.distance_map[1][3] = MAX_DISTANCE;
    assert!(far.is_valid());
}

#[test]
fn knows_all_visits() {
    let problem = ring();
    assert!(problem.knows_all(&vec![]));
    assert!(problem.knows_all(&vec![3, 3, 0]));
    assert!(!problem.knows_all(&vec![0, 4]));
}

#[test]
fn new_tour_makes_the_visits_in_order() {
    let problem = ring();
    let tour = TSPState::new(&problem);
    assert_eq!(tour.route_visits(), &vec![0, 1, 2, 3]);
    assert!(tour.banked_visits().is_empty());
    assert_eq!(tour.objective(), 4);
}

#[test]
fn objective_closes_the_route() {
    let problem = ring();
    let tour = TSPState::from_parts(&problem, vec![0, 2, 1, 3], vec![]).unwrap();
    assert_eq!(tour.objective(), 12);
    let pair = TSPState::from_parts(&problem, vec![0, 2], vec![]).unwrap();
    assert_eq!(pair.objective(), 10);
    let single = TSPState::from_parts(&problem, vec![2], vec![]).unwrap();
    assert_eq!(single.objective(), 0);
}

#[test]
fn objective_charges_the_bank() {
    let problem = ring();
    assert_eq!(BANK_PENALTY, 1000);
    let tour = TSPState::from_parts(&problem, vec![0, 2], vec![1, 3]).unwrap();
    assert_eq!(tour.objective(), 2010);
    let unrouted = TSPState::from_parts(&problem, vec![], vec![0, 1, 2, 3]).unwrap();
    assert_eq!(unrouted.objective(), 4000);
}

#[test]
fn from_parts_rejects_unknown_visits_and_bad_problems() {
    let problem = ring();
    assert!(TSPState::from_parts(&problem, vec![0, 4], vec![]).is_none());
    assert!(TSPState::from_parts(&problem, vec![0], vec![7]).is_none());
    assert!(TSPState::from_parts(&problem, vec![0, 0], vec![0]).is_some());
    let mut ragged = ring();
    ragged.distance_map[0].push(1);
    assert!(TSPState::from_parts(&ragged, vec![0], vec![]).is_none());
}

#[test]
fn clones_are_equal_and_hash_alike() {
    let problem = ring();
    let tour = TSPState::from_parts(&problem, vec![0, 2], vec![1, 3]).unwrap();
    let copy = tour.clone();
    assert_eq!(copy, tour);
    assert_eq!(copy.objective(), tour.objective());
    let mut seen = HashSet::new();
    seen.insert(tour);
    assert!(seen.contains(&copy));
}

#[test]
fn removal_takes_a_quarter() {
    assert_eq!(number_of_removal(0), 0);
    assert_eq!(number_of_removal(3), 0);
    assert_eq!(number_of_removal(4), 1);
    assert_eq!(number_of_removal(7), 1);
    assert_eq!(number_of_removal(131), 32);
}

#[test]
fn position_is_the_first_place() {
    assert_eq!(position(&vec![5, 3, 5, 1], 5), Some(0));
    assert_eq!(position(&vec![5, 3, 5, 1], 1), Some(3));
    assert_eq!(position(&vec![5, 3, 5, 1], 2), None);
    assert_eq!(position(&vec![], 2), None);
}

#[test]
fn move_to_bank_takes_first_places_in_order() {
    let problem = line();
    let mut route = vec![4, 1, 7, 1, 2];
    let mut bank = vec![6];
    move_to_bank(&problem, &mut route, &mut bank, &vec![1, 2, 1, 3]);
    assert_eq!(route, vec![4, 7]);
    assert_eq!(bank, vec![6, 1, 2, 1]);
}

#[test]
fn cheapest_insertion_is_the_first_of_the_cheapest() {
    let problem = ring();
    assert_eq!(cheapest_insertion(&problem, &vec![0, 2], 1), 0);
    assert_eq!(cheapest_insertion(&problem, &vec![0, 1, 2], 3), 0);
    assert_eq!(cheapest_insertion(&problem, &vec![0, 2, 1], 3), 1);
    assert_eq!(cheapest_insertion(&problem, &vec![2], 0), 0);
}

#[test]
fn insert_visit_into_routes() {
    let problem = ring();
    let mut empty = vec![];
    insert_visit(&problem, &mut empty, 2);
    assert_eq!(empty, vec![2]);
    let mut route = vec![0, 2, 1];
    insert_visit(&problem, &mut route, 3);
    assert_eq!(route, vec![0, 3, 2, 1]);
}

#[test]
fn insert_greedily_in_a_given_order() {
    let problem = ring();
    let mut route = vec![];
    insert_greedily(&problem, &mut route, &vec![0, 1, 2, 3]);
    assert_eq!(route, vec![3, 2, 1, 0]);
    let mut other = vec![];
    insert_greedily(&problem, &mut other, &vec![1, 0, 2, 3]);
    assert_eq!(other, vec![2, 3, 0, 1]);
    let mut kept = vec![1, 3];
    insert_greedily(&problem, &mut kept, &vec![]);
    assert_eq!(kept, vec![1, 3]);
}

#[test]
fn costlier_entries_rank_first() {
    assert_eq!(costlier_first(&(1, 9), &(2, 3)), std::cmp::Ordering::Less);
    assert_eq!(costlier_first(&(1, 3), &(2, 3)), std::cmp::Ordering::Equal);
    assert_eq!(costlier_first(&(1, 3), &(2, 9)), std::cmp::Ordering::Greater);
}

#[test]
fn greedy_repair_empties_the_bank() {
    let problem = ring();
    let tour = TSPState::from_parts(&problem, vec![0, 2], vec![3, 1]).unwrap();
    let repaired = GreedyRepairOperator {}.apply(&tour);
    assert!(repaired.banked_visits().is_empty());
    assert_eq!(repaired.route_visits().len(), 4);
    assert_eq!(all_visits(&repaired), vec![0, 1, 2, 3]);
}

#[test]
fn greedy_repair_inserts_in_random_order() {
    let problem = ring();
    let unrouted = TSPState::from_parts(&problem, vec![], vec![0, 1, 2, 3]).unwrap();
    let mut routes = HashSet::new();
    for _ in 0..300 {
        let repaired = GreedyRepairOperator {}.apply(&unrouted);
        assert_eq!(all_visits(&repaired), vec![0, 1, 2, 3]);
        routes.insert(repaired.route_visits().clone());
    }
    assert!(routes.len() > 1);
}

#[test]
fn random_destroy_banks_a_quarter() {
    let problem = line();
    let tour = TSPState::new(&problem);
    for _ in 0..100 {
        let destroyed = RandomDestroyOperator {}.apply(&tour);
        assert_eq!(destroyed.route_visits().len(), 6);
        assert_eq!(destroyed.banked_visits().len(), 2);
        assert_eq!(all_visits(&destroyed), vec![0, 1, 2, 3, 4, 5, 6, 7]);
    }
}

#[test]
fn random_destroy_keeps_what_was_banked() {
    let problem = line();
    let tour = TSPState::from_parts(&problem, vec![0, 1, 2, 3, 4], vec![7, 5]).unwrap();
    let destroyed = RandomDestroyOperator {}.apply(&tour);
    assert_eq!(destroyed.route_visits().len(), 4);
    assert_eq!(&destroyed.banked_visits()[..2], &[7, 5]);
    assert_eq!(all_visits(&destroyed), vec![0, 1, 2, 3, 4, 5, 7]);
}

#[test]
fn random_destroy_leaves_short_routes() {
    let problem = line();
    let tour = TSPState::from_parts(&problem, vec![3, 1, 2], vec![]).unwrap();
    let destroyed = RandomDestroyOperator {}.apply(&tour);
    assert_eq!(destroyed, tour);
    let empty = TSPState::from_parts(&problem, vec![], vec![]).unwrap();
    assert_eq!(RandomDestroyOperator {}.apply(&empty), empty);
}

#[test]
fn random_destroy_draws_different_places() {
    let problem = line();
    let tour = TSPState::new(&problem);
    let mut banks = HashSet::new();
    for _ in 0..300 {
        banks.insert(RandomDestroyOperator {}.apply(&tour).banked_visits().clone());
    }
    assert!(banks.len() > 1);
}

#[test]
fn path_removal_banks_consecutive_visits() {
    let problem = line();
    let tour = TSPState::new(&problem);
    for _ in 0..100 {
        let destroyed = PathRemovalOperator {}.apply(&tour);
        let bank = destroyed.banked_visits();
        assert_eq!(bank.len(), 2);
        assert_eq!(bank[1], (bank[0] + 1) % 8);
        let rest: Vec<u64> = (0..8).filter(|v| !bank.contains(v)).collect();
        assert_eq!(destroyed.route_visits(), &rest);
    }
}

#[test]
fn path_removal_takes_one_visit_at_least() {
    let problem = line();
    let tour = TSPState::from_parts(&problem, vec![3, 1, 2], vec![6]).unwrap();
    let destroyed = PathRemovalOperator {}.apply(&tour);
    assert_eq!(destroyed.route_visits().len(), 2);
    assert_eq!(destroyed.banked_visits().len(), 2);
    assert_eq!(destroyed.banked_visits()[0], 6);
    assert_eq!(all_visits(&destroyed), vec![1, 2, 3, 6]);
}

#[test]
fn path_removal_leaves_an_empty_route() {
    let problem = line();
    let tour = TSPState::from_parts(&problem, vec![], vec![2, 5]).unwrap();
    assert_eq!(PathRemovalOperator {}.apply(&tour), tour);
}

#[test]
fn worst_removal_banks_the_longest_legs() {
    let problem = line();
    let tour = TSPState::from_parts(&problem, vec![0, 4, 1, 7, 2, 3, 5, 6], vec![]).unwrap();
    let destroyed = WorstRemovalOperator {}.apply(&tour);
    assert_eq!(destroyed.route_visits(), &vec![0, 4, 7, 2, 3, 5]);
    assert_eq!(destroyed.banked_visits(), &vec![1, 6]);
}

#[test]
fn worst_removal_of_the_single_long_leg() {
    let problem = ring();
    let tour = TSPState::from_parts(&problem, vec![0, 1, 3, 2], vec![]).unwrap();
    // Legs: 0-1 is 1, 1-3 is 5, 3-2 is 1, 2-0 is 5; the first of the longest leaves 1.
    let destroyed = WorstRemovalOperator {}.apply(&tour);
    assert_eq!(destroyed.route_visits(), &vec![0, 3, 2]);
    assert_eq!(destroyed.banked_visits(), &vec![1]);
}

#[test]
fn worst_removal_leaves_short_routes() {
    let problem = ring();
    let tour = TSPState::from_parts(&problem, vec![0, 2, 1], vec![3]).unwrap();
    assert_eq!(WorstRemovalOperator {}.apply(&tour), tour);
}

#[test]
fn repaired_tour_seen_twice_is_not_novel() {
    let problem = ring();
    let mut seen: NoveltySet<TSPState> = NoveltySet::new();
    let first = TSPState::from_parts(&problem, vec![3, 0, 1, 2], vec![]).unwrap();
    let partial = TSPState::from_parts(&problem, vec![0, 1, 2], vec![3]).unwrap();
    let second = GreedyRepairOperator {}.apply(&partial);
    assert_eq!(second.route_visits(), &vec![3, 0, 1, 2]);
    assert!(seen.is_novel(&first));
    seen.remember(first);
    assert!(!seen.is_novel(&second));
    seen.remember(second.clone());
    assert!(!seen.is_novel(&second));
}

#[test]
fn ring_tour_under_hill_climbing() {
    let problem = ring();
    let unrouted = TSPState::from_parts(&problem, vec![], vec![0, 1, 2, 3]).unwrap();
    let initial = GreedyRepairOperator {}.apply(&unrouted);
    let initial_cost = initial.objective();
    let mut solver = Solver::new(Box::new(HillClimbAcceptanceCriteria::new()));
    solver.add_destroy_operator(Box::new(RandomDestroyOperator {}));
    solver.add_repair_operator(Box::new(GreedyRepairOperator {}));
    let best = solver.run(initial, REWARDS, 800_000, 500);
    assert!(best.objective() <= initial_cost);
    assert!(best.objective() >= OPTIMUM);
    assert_eq!(all_visits(&best), vec![0, 1, 2, 3]);
    assert!(best.banked_visits().is_empty());
}

#[test]
fn ring_tour_from_a_poor_start_reaches_the_optimum() {
    let problem = ring();
    let initial = TSPState::from_parts(&problem, vec![0, 2, 1, 3], vec![]).unwrap();
    let mut solver = Solver::new(Box::new(HillClimbAcceptanceCriteria::new()));
    solver.add_destroy_operator(Box::new(RandomDestroyOperator {}));
    solver.add_repair_operator(Box::new(GreedyRepairOperator {}));
    let best = solver.run(initial, REWARDS, 800_000, 500);
    assert_eq!(best.objective(), OPTIMUM);
}

#[test]
fn line_tour_with_all_operators() {
    let problem = line();
    let initial = TSPState::from_parts(&problem, vec![0, 4, 1, 7, 2, 3, 5, 6], vec![]).unwrap();
    let initial_cost = initial.objective();
    assert_eq!(initial_cost, 28);
    let criterion = RecordToRecordTravelAcceptanceCriteria::new(300_000, 0, 1000);
    let mut solver = Solver::new(Box::new(criterion));
    solver.add_destroy_operator(Box::new(RandomDestroyOperator {}));
    solver.add_destroy_operator(Box::new(WorstRemovalOperator {}));
    solver.add_destroy_operator(Box::new(PathRemovalOperator {}));
    solver.add_repair_operator(Box::new(GreedyRepairOperator {}));
    let best = solver.run(initial, REWARDS, 800_000, 1000);
    assert!(best.objective() <= initial_cost);
    assert!(best.objective() >= 14);
    assert_eq!(all_visits(&best), vec![0, 1, 2, 3, 4, 5, 6, 7]);
}
