use simulated_annealing::matrix::tri_index;
use simulated_annealing::tour::{is_tour_order, is_valid_path, path_edge_slots, pick_swap, slot_between, TourOrder};

fn weight_of(slot: usize) -> i64 {
    // Any weighting will do; a non-linear one catches mixed-up slots.
    (slot as i64 * 7919) % 1013 + 3
}

fn path_weight(order: &[usize]) -> i64 {
    path_edge_slots(order).into_iter().map(weight_of).sum()
}

#[test]
fn tri_index_lays_out_rows_one_after_another() {
    let n = 5;
    let mut slots = Vec::new();
    for i in 0..n {
        for j in (i + 1)..n {
            slots.push(tri_index(n, i, j));
        }
    }
    assert_eq!(slots, (0..n * (n - 1) / 2).collect::<Vec<_>>());
    assert_eq!(tri_index(4, 0, 1), 0);
    assert_eq!(tri_index(4, 1, 2), 3);
    assert_eq!(tri_index(4, 2, 3), 5);
}

#[test]
fn slot_between_ignores_the_order_of_the_cities() {
    assert_eq!(slot_between(6, 4, 1), slot_between(6, 1, 4));
    assert_eq!(slot_between(6, 1, 4), tri_index(6, 1, 4));
}

#[test]
fn new_starts_from_the_identity_order_and_keeps_the_seed() {
    let tour = TourOrder::new(4, Some(42));
    assert_eq!(tour.current_solution, vec![0, 1, 2, 3]);
    assert_eq!(tour.get_rng_seed(), 42);
    assert_eq!(tour.rng_seed, 42);
}

#[test]
fn pick_swap_reaches_every_pair_exactly_twice() {
    let n = 6;
    let mut counts = vec![vec![0; n]; n];
    for a in 0..n {
        for b in 0..n - 1 {
            let (p, q) = pick_swap(n, a, b);
            assert!(p < q && q < n);
            counts[p][q] += 1;
        }
    }
    for p in 0..n {
        for q in (p + 1)..n {
            assert_eq!(counts[p][q], 2);
        }
    }
    assert_eq!(pick_swap(n, 2, 2), (2, 3));
    assert_eq!(pick_swap(n, 4, 1), (1, 4));
}

#[test]
fn short_tours_have_no_move() {
    let mut tour = TourOrder::new(1, Some(3));
    assert_eq!(tour.choose_swap(), None);
    let mut empty = TourOrder::new(0, Some(3));
    assert_eq!(empty.choose_swap(), None);
}

#[test]
fn undo_restores_the_order() {
    let mut tour = TourOrder::new(6, Some(7));
    let before = tour.current_solution.clone();
    let (p, q) = tour.choose_swap().unwrap();
    assert_eq!(tour.current_solution, before);
    tour.apply_move(p, q);
    assert_ne!(tour.current_solution, before);
    tour.undo_move();
    assert_eq!(tour.current_solution, before);
}

#[test]
fn incident_edges_account_for_the_whole_change_of_a_move() {
    let mut tour = TourOrder::new(6, Some(42));
    tour.current_solution = vec![3, 0, 5, 1, 4, 2];
    assert!(is_tour_order(&tour.current_solution));
    for _ in 0..500 {
        let (p, q) = tour.choose_swap().unwrap();
        let before_total = path_weight(&tour.current_solution);
        let before: i64 = tour.incident_edges(p, q).into_iter().map(weight_of).sum();
        tour.apply_move(p, q);
        let after: i64 = tour.incident_edges(p, q).into_iter().map(weight_of).sum();
        let after_total = path_weight(&tour.current_solution);
        assert_eq!(after_total - before_total, after - before);
        assert!(is_tour_order(&tour.current_solution));
    }
}

#[test]
fn incident_edges_of_neighbours_and_of_the_ends() {
    let tour = TourOrder::new(4, Some(1));
    // Positions 1 and 2 are neighbours: edges (0,1), (1,2), (2,3).
    assert_eq!(tour.incident_edges(1, 2), vec![tri_index(4, 0, 1), tri_index(4, 1, 2), tri_index(4, 2, 3)]);
    // The first and last positions: edges (0,1) and (2,3).
    assert_eq!(tour.incident_edges(0, 3), vec![tri_index(4, 0, 1), tri_index(4, 2, 3)]);
    assert_eq!(tour.edge_index(3, 1), tri_index(4, 1, 3));
}

#[test]
fn path_edge_slots_follow_the_order() {
    assert_eq!(path_edge_slots(&[2, 0, 1]), vec![tri_index(3, 0, 2), tri_index(3, 0, 1)]);
    assert!(path_edge_slots(&[0]).is_empty());
    assert!(path_edge_slots(&[]).is_empty());
}

#[test]
fn is_tour_order_accepts_only_permutations() {
    assert!(is_tour_order(&[]));
    assert!(is_tour_order(&[1, 0, 2]));
    assert!(!is_tour_order(&[0, 0, 1]));
    assert!(!is_tour_order(&[0, 3, 1]));
}

#[test]
fn swapped_incident_edges_foresee_the_move() {
    let mut tour = TourOrder::new(7, Some(11));
    tour.current_solution = vec![6, 2, 0, 5, 1, 3, 4];
    for p in 0..7 {
        for q in (p + 1)..7 {
            let foreseen = tour.swapped_incident_edges(p, q);
            let before = tour.current_solution.clone();
            tour.apply_move(p, q);
            assert_eq!(tour.incident_edges(p, q), foreseen);
            tour.undo_move();
            assert_eq!(tour.current_solution, before);
        }
    }
}

#[test]
fn is_valid_path_needs_distinct_neighbours_within_range() {
    assert!(is_valid_path(&[]));
    assert!(is_valid_path(&[0]));
    assert!(is_valid_path(&[0, 1, 0, 2]));
    assert!(!is_valid_path(&[0, 0, 1]));
    assert!(!is_valid_path(&[0, 3, 1]));
}

fn drawn_moves(tour: &mut TourOrder, count: usize) -> Vec<(usize, usize)> {
    let mut moves = Vec::new();
    for i in 0..count {
        let (p, q) = tour.choose_swap().unwrap();
        // Accepting or rejecting a move does not touch the generator.
        tour.apply_move(p, q);
        if i % 2 == 0 {
            tour.undo_move();
        }
        moves.push((p, q));
    }
    moves
}

#[test]
fn the_seed_fixes_every_move_drawn() {
    let mut first = TourOrder::new(9, Some(2024));
    let mut second = TourOrder::new(9, Some(2024));
    let a = drawn_moves(&mut first, 200);
    let b = drawn_moves(&mut second, 200);
    assert_eq!(a, b);
    assert_eq!(first.current_solution, second.current_solution);
}

#[test]
fn moves_vary_with_the_draws_and_the_seed() {
    let mut first = TourOrder::new(9, Some(1));
    let mut second = TourOrder::new(9, Some(2));
    let a = drawn_moves(&mut first, 200);
    let b = drawn_moves(&mut second, 200);
    assert_ne!(a, b);
    assert!(a.iter().any(|&m| m != a[0]));
    assert!(a.iter().any(|&(p, _)| p > 0));
    for &(p, q) in a.iter().chain(b.iter()) {
        assert!(p < q && q < 9);
    }
}
