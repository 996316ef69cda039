use aco_vrp::ant::{get_next_node_by_probability, Ant};
use aco_vrp::matrix::Matrix;
use aco_vrp::opt::{NoOpStrategy, TwoOptStrategy};
use aco_vrp::routes::path_to_routes;

fn plus(so_far: f64, distance: f64) -> f64 {
    so_far + distance
}

fn improves(removed: f64, also_removed: f64, new: f64, also_new: f64) -> bool {
    (removed + also_removed) - (new + also_new) > 1.0
}

fn crossing() -> (Matrix<f64>, Ant<f64>) {
    let distances = adjacency(&[(0.0, 0.0), (10.0, 0.0), (0.0, 10.0), (10.0, 10.0)]);
    let demands = [0, 1, 1, 1];
    let mut ant: Ant<f64> = Ant::new(4, 3);
    for candidate in [1, 2, 3] {
        ant.move_to_next(&distances, candidate, &demands, plus);
    }
    ant.complete(&distances, plus);
    (distances, ant)
}

fn adjacency(coords: &[(f64, f64)]) -> Matrix<f64> {
    let mut matrix = Matrix::new(coords.len());
    for (i, a) in coords.iter().enumerate() {
        for (j, b) in coords.iter().enumerate() {
            matrix.set(i, j, ((b.1 - a.1).powi(2) + (b.0 - a.0).powi(2)).sqrt());
        }
    }
    matrix
}

fn line(nodes: usize) -> Matrix<f64> {
    let coords: Vec<(f64, f64)> = (0..nodes).map(|n| (n as f64, 0.0)).collect();
    adjacency(&coords)
}

fn length(path: &[usize], distances: &Matrix<f64>) -> f64 {
    let mut length = 0.0;
    for pair in path.windows(2) {
        length += distances.get(pair[0], pair[1]);
    }
    length
}

#[test]
fn trivial_two_nodes() {
    let distances = adjacency(&[(0.0, 0.0), (1.0, 0.0)]);
    let demands = [0, 1];
    let mut ant: Ant<f64> = Ant::new(2, 1);
    assert!(!ant.done());
    assert_eq!(ant.cur_node(), 0);
    ant.move_to_next(&distances, 1, &demands, plus);
    assert!(ant.done());
    ant.complete(&distances, plus);
    assert_eq!(ant.path_taken(), &vec![0, 1, 0]);
    assert_eq!(ant.path_cost(), 2.0);
}

#[test]
fn new_ant_stands_at_the_depot() {
    let ant: Ant<f64> = Ant::new(4, 10);
    assert_eq!(ant.path_taken(), &vec![0]);
    assert_eq!(ant.visited(), &vec![true, false, false, false]);
    assert_eq!(ant.cur_node(), 0);
    assert_eq!(ant.path_cost(), 0.0);
    assert!(!ant.done());
    assert!(Ant::<u32>::new(1, 3).done());
}

#[test]
fn ant_goes_back_when_the_load_is_too_much() {
    let distances = line(4);
    let demands = [0, 6, 5, 4];
    let mut ant: Ant<f64> = Ant::new(4, 10);
    assert_eq!(ant.find_next_node(1, &demands), 1);
    ant.move_to_next(&distances, 1, &demands, plus);
    assert_eq!(ant.cur_node(), 1);
    assert_eq!(ant.find_next_node(2, &demands), 0);
    assert_eq!(ant.find_next_node(3, &demands), 3);
    ant.move_to_next(&distances, 2, &demands, plus);
    assert_eq!(ant.cur_node(), 0);
    assert_eq!(ant.visited(), &vec![true, true, false, false]);
    assert_eq!(ant.path_cost(), 2.0);
    ant.move_to_next(&distances, 2, &demands, plus);
    ant.move_to_next(&distances, 3, &demands, plus);
    assert!(ant.done());
    ant.complete(&distances, plus);
    assert_eq!(ant.path_taken(), &vec![0, 1, 0, 2, 3, 0]);
    assert_eq!(ant.path_cost(), 1.0 + 1.0 + 2.0 + 1.0 + 3.0);
}

#[test]
fn ant_fills_up_at_the_depot_only() {
    let distances = line(4);
    let demands = [0, 5, 5, 5];
    let mut ant: Ant<f64> = Ant::new(4, 10);
    ant.move_to_next(&distances, 1, &demands, plus);
    ant.move_to_next(&distances, 2, &demands, plus);
    assert_eq!(ant.find_next_node(3, &demands), 0);
    ant.move_to_next(&distances, 3, &demands, plus);
    assert_eq!(ant.path_taken(), &vec![0, 1, 2, 0]);
    assert_eq!(ant.find_next_node(3, &demands), 3);
}

#[test]
fn done_ant_has_every_node_on_its_walk() {
    let distances = line(5);
    let demands = [0, 3, 3, 3, 3];
    let mut ant: Ant<f64> = Ant::new(5, 7);
    for candidate in [4, 2, 3, 3, 1] {
        ant.move_to_next(&distances, candidate, &demands, plus);
    }
    assert!(ant.done());
    for node in 0..5 {
        assert!(ant.path_taken().contains(&node));
    }
}

#[test]
fn every_route_keeps_to_the_capacity() {
    let distances = line(6);
    let demands = [0, 4, 3, 6, 2, 5];
    let capacity = 8;
    let mut ant: Ant<f64> = Ant::new(6, capacity);
    let mut candidates = vec![5, 4, 3, 2, 1];
    let mut steps = 0;
    while !ant.done() {
        let candidate = *candidates.last().unwrap();
        ant.move_to_next(&distances, candidate, &demands, plus);
        if ant.cur_node() == candidate {
            candidates.pop();
        }
        steps += 1;
        assert!(steps <= 2 * 6);
    }
    ant.complete(&distances, plus);
    for route in path_to_routes(ant.path_taken()) {
        let load: usize = route.iter().map(|&node| demands[node]).sum();
        assert!(load <= capacity);
    }
    assert_eq!(ant.path_taken(), &vec![0, 1, 2, 0, 3, 4, 0, 5, 0]);
}

#[test]
fn length_of_the_walk_is_the_sum_of_its_edges() {
    let distances = adjacency(&[(0.0, 0.0), (3.0, 4.0), (3.0, 0.0), (-5.0, 12.0)]);
    let demands = [0, 2, 2, 2];
    let mut ant: Ant<f64> = Ant::new(4, 4);
    for candidate in [3, 1, 2, 2] {
        ant.move_to_next(&distances, candidate, &demands, plus);
        assert_eq!(ant.path_cost(), length(ant.path_taken(), &distances));
    }
    ant.complete(&distances, plus);
    assert_eq!(ant.path_taken(), &vec![0, 3, 1, 0, 2, 0]);
    assert_eq!(ant.path_cost(), length(ant.path_taken(), &distances));
    assert_eq!(ant.path_cost(), 13.0 + 128.0f64.sqrt() + 5.0 + 3.0 + 3.0);
}

#[test]
fn complete_marks_nothing_new() {
    let distances = line(3);
    let mut ant: Ant<f64> = Ant::new(3, 1);
    ant.complete(&distances, plus);
    assert_eq!(ant.path_taken(), &vec![0, 0]);
    assert_eq!(ant.visited(), &vec![true, false, false]);
    assert_eq!(ant.path_cost(), 0.0);
    assert!(!ant.done());
}

#[test]
fn ant_takes_a_tour_through_the_same_nodes() {
    let distances = adjacency(&[(0.0, 0.0), (0.0, 1.0), (5.0, 1.0), (5.0, 0.0)]);
    let demands = [0, 1, 1, 1];
    let mut ant: Ant<f64> = Ant::new(4, 3);
    for candidate in [1, 3, 2] {
        ant.move_to_next(&distances, candidate, &demands, plus);
    }
    ant.complete(&distances, plus);
    assert_eq!(ant.path_cost(), 1.0 + 26.0f64.sqrt() + 1.0 + 26.0f64.sqrt());
    assert!(ant.adopt(&distances, vec![0, 3, 2, 1, 0], plus));
    assert_eq!(ant.path_taken(), &vec![0, 3, 2, 1, 0]);
    assert_eq!(ant.path_cost(), 12.0);
    assert!(ant.done());
}

#[test]
fn ant_refuses_a_tour_through_other_nodes() {
    let distances = line(4);
    let demands = [0, 1, 1, 1];
    let mut ant: Ant<f64> = Ant::new(4, 3);
    ant.move_to_next(&distances, 1, &demands, plus);
    ant.move_to_next(&distances, 2, &demands, plus);
    ant.complete(&distances, plus);
    assert!(!ant.adopt(&distances, vec![], plus));
    assert!(!ant.adopt(&distances, vec![1, 2, 0], plus));
    assert!(!ant.adopt(&distances, vec![0, 1, 0], plus));
    assert!(!ant.adopt(&distances, vec![0, 1, 2, 3, 0], plus));
    assert!(!ant.adopt(&distances, vec![0, 1, 2, 4, 0], plus));
    assert_eq!(ant.path_taken(), &vec![0, 1, 2, 0]);
    assert_eq!(ant.path_cost(), 4.0);
    assert!(ant.adopt(&distances, vec![0, 2, 0, 0, 1], plus));
    assert_eq!(ant.path_taken(), &vec![0, 2, 0, 0, 1]);
    assert_eq!(ant.path_cost(), 5.0);
}

#[test]
fn draw_falls_on_the_first_node_that_reaches_it() {
    let sums = [None, Some(10), None, Some(25), Some(25), Some(40)];
    assert_eq!(get_next_node_by_probability(&sums, 0), Some(1));
    assert_eq!(get_next_node_by_probability(&sums, 10), Some(1));
    assert_eq!(get_next_node_by_probability(&sums, 11), Some(3));
    assert_eq!(get_next_node_by_probability(&sums, 25), Some(3));
    assert_eq!(get_next_node_by_probability(&sums, 26), Some(5));
    assert_eq!(get_next_node_by_probability(&sums, 40), Some(5));
    assert_eq!(get_next_node_by_probability(&sums, 41), None);
}

#[test]
fn draw_falls_on_no_node_without_a_share() {
    assert_eq!(get_next_node_by_probability(&[], 0), None);
    assert_eq!(get_next_node_by_probability(&[None, None], 0), None);
}

#[test]
fn two_opt_takes_the_crossing_out_of_the_walk() {
    let (distances, mut ant) = crossing();
    assert_eq!(ant.path_taken(), &vec![0, 1, 2, 3, 0]);
    assert_eq!(ant.path_cost(), 10.0 + 200.0f64.sqrt() + 10.0 + 200.0f64.sqrt());
    ant.optimize_path(&distances, TwoOptStrategy, improves, plus, usize::MAX);
    assert_eq!(ant.path_taken(), &vec![0, 1, 3, 2, 0]);
    assert_eq!(ant.path_cost(), 40.0);
    assert!(ant.done());
    ant.optimize_path(&distances, TwoOptStrategy, improves, plus, usize::MAX);
    assert_eq!(ant.path_taken(), &vec![0, 1, 3, 2, 0]);
    assert_eq!(ant.path_cost(), 40.0);
}

#[test]
fn two_opt_without_an_exchange_to_make_keeps_the_routes() {
    let (distances, mut ant) = crossing();
    ant.optimize_path(&distances, TwoOptStrategy, improves, plus, 0);
    assert_eq!(ant.path_taken(), &vec![0, 1, 2, 3, 0]);
    assert_eq!(ant.path_cost(), 10.0 + 200.0f64.sqrt() + 10.0 + 200.0f64.sqrt());
}

#[test]
fn no_op_keeps_the_walk_and_measures_it() {
    let (distances, mut ant) = crossing();
    ant.optimize_path(&distances, NoOpStrategy, improves, plus, usize::MAX);
    assert_eq!(ant.path_taken(), &vec![0, 1, 2, 3, 0]);
    assert_eq!(ant.path_cost(), 10.0 + 200.0f64.sqrt() + 10.0 + 200.0f64.sqrt());
}

#[test]
fn two_opt_joins_the_routes_with_two_depot_markers() {
    let distances = line(4);
    let demands = [0, 2, 2, 2];
    let mut ant: Ant<f64> = Ant::new(4, 4);
    for candidate in [1, 2, 3, 3] {
        ant.move_to_next(&distances, candidate, &demands, plus);
    }
    ant.complete(&distances, plus);
    assert_eq!(ant.path_taken(), &vec![0, 1, 2, 0, 3, 0]);
    ant.optimize_path(&distances, TwoOptStrategy, improves, plus, usize::MAX);
    assert_eq!(ant.path_taken(), &vec![0, 1, 2, 0, 0, 3, 0]);
    assert_eq!(ant.path_cost(), 4.0 + 6.0);
}

#[test]
fn ant_without_a_node_to_go_to_keeps_its_walk() {
    let distances = line(1);
    let mut ant: Ant<f64> = Ant::new(1, 5);
    assert!(ant.done());
    ant.complete(&distances, plus);
    ant.optimize_path(&distances, NoOpStrategy, improves, plus, usize::MAX);
    assert_eq!(ant.path_taken(), &vec![0, 0]);
    assert_eq!(ant.path_cost(), 0.0);
}

#[test]
fn weights_of_the_edges_that_an_ant_can_take() {
    let mut distances: Matrix<f64> = Matrix::new(4);
    let mut trails: Matrix<f64> = Matrix::new(4);
    for from in 0..4 {
        for to in 0..4 {
            distances.set(from, to, (10 * from + to) as f64);
            trails.set(from, to, (100 * from + to) as f64);
        }
    }
    let demands = [0, 1, 1, 1];
    let mut ant: Ant<f64> = Ant::new(4, 3);
    let weight = |to_depot: f64, from_depot: f64, to_next: f64, trail: f64| {
        to_depot * 1000000.0 + from_depot * 10000.0 + to_next * 100.0 + trail / 1000.0
    };
    let (sums, total) = ant.distribution(&distances, &trails, weight, plus);
    let to = [
        0.0,
        0.0 * 1000000.0 + 1.0 * 10000.0 + 1.0 * 100.0 + 0.001,
        0.0 * 1000000.0 + 2.0 * 10000.0 + 2.0 * 100.0 + 0.002,
        0.0 * 1000000.0 + 3.0 * 10000.0 + 3.0 * 100.0 + 0.003,
    ];
    assert_eq!(
        sums,
        vec![None, Some(to[1]), Some(to[1] + to[2]), Some(to[1] + to[2] + to[3])]
    );
    assert_eq!(total, to[1] + to[2] + to[3]);

    ant.move_to_next(&distances, 2, &demands, plus);
    let (sums, total) = ant.distribution(&distances, &trails, weight, plus);
    let first = 20.0 * 1000000.0 + 1.0 * 10000.0 + 21.0 * 100.0 + 0.201;
    let third = 20.0 * 1000000.0 + 3.0 * 10000.0 + 23.0 * 100.0 + 0.203;
    assert_eq!(sums, vec![None, Some(first), None, Some(first + third)]);
    assert_eq!(total, first + third);

    ant.move_to_next(&distances, 1, &demands, plus);
    ant.move_to_next(&distances, 3, &demands, plus);
    let (sums, total) = ant.distribution(&distances, &trails, |_, _, _, _| 1.0, plus);
    assert_eq!(sums, vec![None, None, None, None]);
    assert_eq!(total, 0.0);
}
