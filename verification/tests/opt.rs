use aco_vrp::matrix::Matrix;
use aco_vrp::opt::{NoOpStrategy, OptimizationStrategy, TwoOptStrategy};
use aco_vrp::search::Search;

fn distance(a: (f64, f64), b: (f64, f64)) -> f64 {
    ((b.1 - a.1).powi(2) + (b.0 - a.0).powi(2)).sqrt()
}

fn adjacency(coords: &[(f64, f64)]) -> Matrix<f64> {
    let mut matrix = Matrix::new(coords.len());
    for (i, a) in coords.iter().enumerate() {
        for (j, b) in coords.iter().enumerate() {
            matrix.set(i, j, distance(*a, *b));
        }
    }
    matrix
}

fn length(path: &[usize], coords: &[(f64, f64)]) -> f64 {
    NoOpStrategy::calc_path_length(path, &adjacency(coords), 0.0, |a, d| a + d)
}

fn improves(removed: f64, also_removed: f64, new: f64, also_new: f64) -> bool {
    (removed + also_removed) - (new + also_new) > 1.0
}

fn settle(mut search: Search, coords: &[(f64, f64)]) -> Vec<usize> {
    assert!(search.settle(&adjacency(coords), improves, usize::MAX));
    assert!(search.is_done());
    search.finish()
}

#[test]
fn swap_reverses_the_middle() {
    assert_eq!(
        TwoOptStrategy::swap(&[0, 1, 2, 3, 4, 0], 1, 3),
        vec![0, 1, 3, 2, 4, 0]
    );
    assert_eq!(
        TwoOptStrategy::swap(&[0, 1, 2, 3, 4, 0], 0, 4),
        vec![0, 4, 3, 2, 1, 0]
    );
}

#[test]
fn swap_of_an_empty_middle_changes_nothing() {
    assert_eq!(TwoOptStrategy::swap(&[0, 1, 2, 0], 2, 2), vec![0, 1, 2, 0]);
    assert_eq!(TwoOptStrategy::swap(&[5], 0, 0), vec![5]);
}

#[test]
fn swap_up_to_the_last_node() {
    assert_eq!(TwoOptStrategy::swap(&[0, 1, 2, 3], 0, 3), vec![0, 3, 2, 1]);
}

#[test]
fn multiple_paths_are_framed_and_lose_the_last_route() {
    assert_eq!(
        TwoOptStrategy::convert_to_multiple_paths(&[0, 3, 4, 0, 1, 2, 0]),
        vec![vec![0, 3, 4, 0], vec![0, 1, 2, 0]]
    );
    assert_eq!(
        NoOpStrategy::convert_to_multiple_paths(&[0, 3, 4, 0, 1, 2]),
        vec![vec![0, 3, 4, 0]]
    );
}

#[test]
fn multiple_paths_leave_out_routes_without_nodes() {
    assert_eq!(
        TwoOptStrategy::convert_to_multiple_paths(&[0, 1, 0, 0, 2, 0]),
        vec![vec![0, 1, 0], vec![0, 2, 0]]
    );
    assert!(TwoOptStrategy::convert_to_multiple_paths(&[0]).is_empty());
    assert!(TwoOptStrategy::convert_to_multiple_paths(&[0, 0]).is_empty());
}

#[test]
fn single_path_joins_the_routes() {
    assert_eq!(
        TwoOptStrategy::convert_to_single_path(vec![vec![0, 3, 4, 0], vec![0, 1, 2, 0]]),
        vec![0, 3, 4, 0, 0, 1, 2, 0]
    );
    assert!(TwoOptStrategy::convert_to_single_path(vec![]).is_empty());
    assert_eq!(
        TwoOptStrategy::convert_to_single_path(vec![vec![], vec![7], vec![]]),
        vec![7]
    );
}

#[test]
fn two_opt_swap() {
    let coords = [(0.0, 0.0), (10.0, 0.0), (0.0, 10.0), (10.0, 10.0)];
    let crossing = [0, 1, 2, 3, 0];
    let search = TwoOptStrategy.optimize(&crossing);
    let path = settle(search, &coords);
    assert_eq!(path, vec![0, 1, 3, 2, 0]);
    assert!(length(&path, &coords) < length(&crossing, &coords));
    assert_eq!(length(&path, &coords), 40.0);
}

#[test]
fn two_opt_asks_for_each_pair_in_order() {
    let mut search = TwoOptStrategy.optimize(&[0, 1, 2, 3, 0, 4, 0, 5, 6, 0]);
    let mut asked = Vec::new();
    while let Some(question) = search.probe() {
        asked.push(question);
        search.answer(false);
    }
    assert_eq!(
        asked,
        vec![
            (0, 1, 1, 2),
            (0, 1, 2, 3),
            (0, 1, 3, 0),
            (1, 2, 2, 3),
            (1, 2, 3, 0),
            (2, 3, 3, 0),
            (0, 4, 4, 0),
            (0, 5, 5, 6),
            (0, 5, 6, 0),
            (5, 6, 6, 0),
        ]
    );
    assert!(search.is_done());
    assert_eq!(search.finish(), vec![0, 1, 2, 3, 0, 0, 4, 0, 0, 5, 6, 0]);
}

#[test]
fn two_opt_begins_again_after_an_exchange() {
    let mut search = TwoOptStrategy.optimize(&[0, 1, 2, 3, 0]);
    assert_eq!(search.probe(), Some((0, 1, 1, 2)));
    search.answer(false);
    assert_eq!(search.probe(), Some((0, 1, 2, 3)));
    search.answer(true);
    assert_eq!(search.probe(), Some((0, 2, 2, 1)));
    assert_eq!(search.finish(), vec![0, 2, 1, 3, 0]);
}

#[test]
fn two_opt_twice_is_two_opt_once() {
    let coords = [
        (0.0, 0.0),
        (10.0, 0.0),
        (0.0, 10.0),
        (10.0, 10.0),
        (5.0, 20.0),
        (-5.0, 3.0),
    ];
    let tour = [0, 1, 2, 3, 0, 4, 5, 0];
    let once = settle(TwoOptStrategy.optimize(&tour), &coords);
    let twice = settle(TwoOptStrategy.optimize(&once), &coords);
    assert_eq!(twice, once);
    assert!(length(&once, &coords) <= length(&tour, &coords));
}

#[test]
fn two_opt_of_a_tour_without_nodes_is_empty() {
    let mut search = TwoOptStrategy.optimize(&[0, 0]);
    assert!(search.is_done());
    assert_eq!(search.probe(), None);
    assert!(search.finish().is_empty());
    search = TwoOptStrategy.optimize(&[0]);
    assert!(search.finish().is_empty());
}

#[test]
fn no_op_gives_the_tour_back() {
    let search = NoOpStrategy.optimize(&[0, 2, 1, 0, 3, 0]);
    assert!(search.is_done());
    assert_eq!(search.probe(), None);
    assert_eq!(search.finish(), vec![0, 2, 1, 0, 3, 0]);
}

#[test]
fn length_of_a_tour_is_the_sum_over_its_edges() {
    let mut distances: Matrix<u64> = Matrix::new(4);
    for from in 0..4 {
        for to in 0..4 {
            distances.set(from, to, (10 * from + to) as u64);
        }
    }
    let plus = |so_far: u64, distance: u64| so_far + distance;
    assert_eq!(
        TwoOptStrategy::calc_path_length(&[0, 1, 2, 0], &distances, 0, plus),
        1 + 12 + 20
    );
    assert_eq!(TwoOptStrategy::calc_path_length(&[0, 3], &distances, 5, plus), 8);
    assert_eq!(TwoOptStrategy::calc_path_length(&[3], &distances, 5, plus), 5);
    assert_eq!(TwoOptStrategy::calc_path_length(&[], &distances, 5, plus), 5);
}

#[test]
fn length_is_added_up_in_the_order_of_the_tour() {
    let mut distances: Matrix<u8> = Matrix::new(3);
    for from in 0..3 {
        for to in 0..3 {
            distances.set(from, to, (from + 2 * to) as u8);
        }
    }
    assert_eq!(
        TwoOptStrategy::calc_path_length(&[0, 2, 1, 0], &distances, 7u8, |so_far, distance| {
            so_far.wrapping_mul(3).wrapping_add(distance)
        }),
        ((7u8 * 3 + 4) * 3 + 4) * 3 + 1
    );
}

#[test]
fn length_of_the_square_and_of_the_crossing() {
    let coords = [(0.0, 0.0), (10.0, 0.0), (0.0, 10.0), (10.0, 10.0)];
    assert_eq!(length(&[0, 1, 3, 2, 0], &coords), 40.0);
    assert_eq!(
        length(&[0, 1, 2, 3, 0], &coords),
        10.0 + 200.0f64.sqrt() + 10.0 + 200.0f64.sqrt()
    );
}

#[test]
fn search_stops_at_the_exchange_that_is_one_too_many() {
    let coords = [(0.0, 0.0), (10.0, 0.0), (0.0, 10.0), (10.0, 10.0)];
    let distances = adjacency(&coords);
    let mut search = TwoOptStrategy.optimize(&[0, 1, 2, 3, 0]);
    assert!(!search.settle(&distances, improves, 0));
    assert!(!search.is_done());
    assert_eq!(search.probe(), Some((1, 2, 3, 0)));
    assert!(search.settle(&distances, improves, 1));
    assert_eq!(search.finish(), vec![0, 1, 3, 2, 0]);
}

#[test]
fn search_that_is_always_told_yes_stops_at_its_bound() {
    let distances: Matrix<f64> = Matrix::new(4);
    let mut search = TwoOptStrategy.optimize(&[0, 1, 2, 3, 0]);
    assert!(!search.settle(&distances, |_, _, _, _| true, 5));
    assert_eq!(search.probe(), Some((0, 1, 1, 2)));
    assert_eq!(search.finish(), vec![0, 1, 2, 3, 0]);
}

#[test]
fn search_is_told_the_distances_of_the_four_edges() {
    let mut distances: Matrix<f64> = Matrix::new(4);
    for from in 0..4 {
        for to in 0..4 {
            distances.set(from, to, (10 * from + to) as f64);
        }
    }
    let asked = std::cell::RefCell::new(Vec::new());
    let mut search = TwoOptStrategy.optimize(&[0, 1, 2, 3, 0]);
    let record = |removed: f64, also_removed: f64, new: f64, also_new: f64| {
        asked.borrow_mut().push((removed, also_removed, new, also_new));
        false
    };
    assert!(search.settle(&distances, record, usize::MAX));
    assert_eq!(
        asked.into_inner(),
        vec![
            (1.0, 12.0, 1.0, 12.0),
            (1.0, 23.0, 2.0, 13.0),
            (1.0, 30.0, 3.0, 10.0),
            (12.0, 23.0, 12.0, 23.0),
            (12.0, 30.0, 13.0, 20.0),
            (23.0, 30.0, 23.0, 30.0),
        ]
    );
}

#[test]
fn one_route_is_improved_by_itself() {
    let coords = [(0.0, 0.0), (10.0, 0.0), (0.0, 10.0), (10.0, 10.0)];
    let distances = adjacency(&coords);
    assert_eq!(
        TwoOptStrategy::optimize_path(vec![0, 1, 2, 3, 0], &distances, improves, usize::MAX),
        vec![0, 1, 3, 2, 0]
    );
    assert_eq!(
        TwoOptStrategy::optimize_path(vec![0, 1, 2, 3, 0], &distances, improves, 0),
        vec![0, 1, 2, 3, 0]
    );
    assert_eq!(
        TwoOptStrategy::optimize_path(vec![2, 3], &distances, improves, usize::MAX),
        vec![2, 3]
    );
    assert!(
        TwoOptStrategy::optimize_path(vec![], &distances, improves, usize::MAX).is_empty()
    );
}
