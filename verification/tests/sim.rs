use aco_vrp::matrix::Matrix;
use aco_vrp::opt::{NoOpStrategy, TwoOptStrategy};
use aco_vrp::problem::{EdgeWeightType, Problem, ProblemType};
use aco_vrp::report::format_path;
use aco_vrp::sim::{Continue, Simulator, MAX_CYCLES};
use aco_vrp::trails::{evaporate, lay_trail};

fn problem(demands: Vec<usize>, capacity: usize) -> Problem {
    let dimension = demands.len();
    Problem {
        name: vec![b't'],
        comment: vec![b'c'],
        problem_type: ProblemType::Cvrp,
        edge_weight_type: EdgeWeightType::Euc2d,
        dimension,
        coordinates: (0..dimension as u64).map(|n| (n, 2 * n)).collect(),
        demands,
        capacity,
    }
}

fn matrix(rows: &[&[f64]]) -> Matrix<f64> {
    let mut matrix = Matrix::new(rows.len());
    for (i, row) in rows.iter().enumerate() {
        for (j, &cell) in row.iter().enumerate() {
            matrix.set(i, j, cell);
        }
    }
    matrix
}

fn rows(matrix: &Matrix<f64>) -> Vec<Vec<f64>> {
    (0..matrix.size()).map(|i| matrix.row(i).to_vec()).collect()
}

fn plus(so_far: f64, distance: f64) -> f64 {
    so_far + distance
}

fn improves(removed: f64, also_removed: f64, new: f64, also_new: f64) -> bool {
    (removed + also_removed) - (new + also_new) > 1.0
}

fn key(length: f64) -> u64 {
    length.to_bits()
}

fn deposit(weight: usize, length: f64, trail: f64) -> f64 {
    trail + weight as f64 / length
}

/// Distances that are not the same in both directions, so that tours
/// through the same nodes differ in length.
fn three_nodes() -> Simulator<f64> {
    Simulator::on(
        problem(vec![0, 1, 1], 2),
        matrix(&[&[0.0, 1.0, 3.0], &[0.25, 0.0, 2.0], &[4.0, 1.0, 0.0]]),
        1.0,
    )
}

fn two_nodes() -> Simulator<f64> {
    Simulator::on(
        problem(vec![0, 1], 1),
        matrix(&[&[0.0, 1.0], &[1.0, 0.0]]),
        1.0,
    )
}

fn walk(simulator: &mut Simulator<f64>, ant: usize, candidates: &[usize]) {
    for &candidate in candidates {
        simulator.move_ant(ant, candidate, plus);
    }
    simulator.complete_ant(ant, plus);
}

#[test]
fn simulator_begins_with_an_ant_for_each_node() {
    let p = problem(vec![0, 2, 3, 4], 5);
    assert!(p.is_feasible());
    let distances: Matrix<f64> = Matrix::filled_with(4, 2.0);
    let simulator = Simulator::on(p, distances, 1.0);
    assert_eq!(simulator.num_nodes(), 4);
    assert_eq!(simulator.capacity(), 5);
    assert_eq!(simulator.demands(), &vec![0, 2, 3, 4]);
    assert_eq!(simulator.ants().len(), 4);
    for ant in simulator.ants() {
        assert_eq!(ant.path_taken(), &vec![0]);
        assert_eq!(ant.path_cost(), 0.0);
    }
    assert_eq!(simulator.cur_cycle(), 0);
    assert_eq!(simulator.cycles_since_improvement(), 0);
    assert_eq!(simulator.best_tour_cost(), None);
    assert!(simulator.best_tour().is_empty());
    assert_eq!(simulator.adjacency_matrix().get(2, 3), 2.0);
    assert_eq!(
        rows(simulator.pheromones()),
        vec![
            vec![0.0, 1.0, 1.0, 1.0],
            vec![1.0, 0.0, 1.0, 1.0],
            vec![1.0, 1.0, 0.0, 1.0],
            vec![1.0, 1.0, 1.0, 0.0],
        ]
    );
}

#[test]
fn problems_that_cannot_be_served() {
    assert!(!problem(vec![], 5).is_feasible());
    assert!(!problem(vec![1, 2], 5).is_feasible());
    assert!(!problem(vec![0, 6], 5).is_feasible());
    let mut short = problem(vec![0, 1], 5);
    short.coordinates.pop();
    assert!(!short.is_feasible());
    let mut long = problem(vec![0, 1], 5);
    long.dimension = 3;
    assert!(!long.is_feasible());
    assert!(problem(vec![0], 0).is_feasible());
    assert!(problem(vec![0, 5, 5], 5).is_feasible());
}

#[test]
fn run_ends_within_the_cycles() {
    let mut simulator = two_nodes();
    let mut cycles = 0;
    while simulator.should_continue() {
        cycles += 1;
        assert_eq!(simulator.cur_cycle(), cycles);
    }
    assert_eq!(cycles, MAX_CYCLES - 1);
    assert_eq!(cycles, 149);
    assert_eq!(simulator.cur_cycle(), 150);
    assert!(!simulator.should_continue());
    assert_eq!(simulator.cur_cycle(), 151);
}

#[test]
fn ants_measure_their_walks() {
    let mut simulator = three_nodes();
    walk(&mut simulator, 0, &[1, 2]);
    walk(&mut simulator, 1, &[2, 1]);
    assert_eq!(simulator.ants()[0].path_taken(), &vec![0, 1, 2, 0]);
    assert_eq!(simulator.ants()[0].path_cost(), 1.0 + 2.0 + 4.0);
    assert_eq!(simulator.ants()[1].path_taken(), &vec![0, 2, 1, 0]);
    assert_eq!(simulator.ants()[1].path_cost(), 3.0 + 1.0 + 0.25);
    assert_eq!(simulator.ants()[2].path_cost(), 0.0);
}

#[test]
fn best_tour_is_the_first_of_the_shortest() {
    let mut simulator = three_nodes();
    walk(&mut simulator, 0, &[1, 2]);
    walk(&mut simulator, 1, &[2, 1]);
    walk(&mut simulator, 2, &[2, 1]);
    assert_eq!(simulator.try_find_best_tour(key), Continue::Yes);
    assert_eq!(simulator.best_tour_cost(), Some(4.25));
    assert_eq!(simulator.best_tour(), &vec![0, 2, 1, 0]);
    assert_eq!(simulator.cycles_since_improvement(), 0);
}

#[test]
fn first_ant_wins_among_equals() {
    let mut simulator = three_nodes();
    walk(&mut simulator, 0, &[1, 2]);
    walk(&mut simulator, 1, &[2, 1]);
    walk(&mut simulator, 2, &[2, 1]);
    assert_eq!(simulator.try_find_best_tour(|_| 9), Continue::Yes);
    assert_eq!(simulator.best_tour(), &vec![0, 1, 2, 0]);
    assert_eq!(simulator.best_tour_cost(), Some(7.0));
}

#[test]
fn best_tour_cost_never_grows() {
    let mut simulator = three_nodes();
    let rounds: [&[usize]; 5] = [&[1, 2], &[1, 2], &[2, 1], &[1, 2], &[2, 1]];
    let expected = [(7.0, 0), (7.0, 1), (4.25, 0), (4.25, 1), (4.25, 2)];
    let mut before = f64::MAX;
    for (candidates, (best, since)) in rounds.iter().zip(expected) {
        simulator.reset_ants();
        for ant in 0..3 {
            walk(&mut simulator, ant, candidates);
        }
        assert_eq!(simulator.try_find_best_tour(key), Continue::Yes);
        let now = simulator.best_tour_cost().unwrap();
        assert!(now <= before);
        if now < before {
            assert_eq!(simulator.cycles_since_improvement(), 0);
        }
        assert_eq!(now, best);
        assert_eq!(simulator.cycles_since_improvement(), since);
        before = now;
    }
}

#[test]
fn no_improvement_cutoff() {
    let mut simulator = two_nodes();
    let cycle = |simulator: &mut Simulator<f64>| {
        assert!(simulator.should_continue());
        simulator.reset_ants();
        walk(simulator, 0, &[1]);
        walk(simulator, 1, &[1]);
        simulator.try_find_best_tour(key)
    };
    assert_eq!(cycle(&mut simulator), Continue::Yes);
    assert_eq!(simulator.best_tour_cost(), Some(2.0));
    assert_eq!(simulator.best_tour(), &vec![0, 1, 0]);
    for since in 1..=75 {
        assert_eq!(cycle(&mut simulator), Continue::Yes);
        assert_eq!(simulator.cycles_since_improvement(), since);
    }
    assert!(simulator.cur_cycle() < 150);
    assert_eq!(cycle(&mut simulator), Continue::No);
    assert_eq!(simulator.cur_cycle(), 77);
    assert_eq!(simulator.cycles_since_improvement(), 76);
    assert_eq!(simulator.try_find_best_tour(key), Continue::No);
    assert_eq!(simulator.cycles_since_improvement(), 77);
    assert_eq!(simulator.try_find_best_tour(|_| 1), Continue::Yes);
    assert_eq!(simulator.cycles_since_improvement(), 0);
}

/// A colony of five ants whose tours are `[0, 0]` and have the given
/// lengths.
fn colony_of_five(lengths: [f64; 5]) -> Simulator<f64> {
    let zero: &[f64] = &[0.0; 5];
    let mut simulator = Simulator::on(
        problem(vec![0, 1, 1, 1, 1], 4),
        matrix(&[zero, zero, zero, zero, zero]),
        1.0,
    );
    for (a, length) in lengths.into_iter().enumerate() {
        simulator.complete_ant(a, |so_far, _| so_far + length);
    }
    simulator
}

fn lengths(simulator: &Simulator<f64>) -> Vec<f64> {
    simulator.ants().iter().map(|ant| ant.path_cost()).collect()
}

#[test]
fn ants_are_sorted_by_the_lengths_of_their_tours() {
    let mut simulator = colony_of_five([50.0, 20.0, 40.0, 10.0, 30.0]);
    assert_eq!(lengths(&simulator), vec![50.0, 20.0, 40.0, 10.0, 30.0]);
    simulator.update_pheromones(key, deposit);
    assert_eq!(lengths(&simulator), vec![10.0, 20.0, 30.0, 40.0, 50.0]);
    assert_eq!(simulator.ants().len(), 5);
    for ant in simulator.ants() {
        assert_eq!(ant.path_taken(), &vec![0, 0]);
    }
    assert_eq!(
        simulator.pheromones().get(0, 0),
        0.0 + 3.0 / 10.0 + 2.0 / 20.0 + 1.0 / 30.0
    );
    assert_eq!(simulator.pheromones().get(0, 1), 1.0);
}

#[test]
fn ants_with_tours_of_the_same_length_keep_their_order() {
    let mut simulator = three_nodes();
    walk(&mut simulator, 0, &[1, 2]);
    walk(&mut simulator, 1, &[2]);
    walk(&mut simulator, 2, &[2, 1]);
    assert_eq!(lengths(&simulator), vec![7.0, 7.0, 4.25]);
    simulator.update_pheromones(key, deposit);
    assert_eq!(lengths(&simulator), vec![4.25, 7.0, 7.0]);
    assert_eq!(simulator.ants()[0].path_taken(), &vec![0, 2, 1, 0]);
    assert_eq!(simulator.ants()[1].path_taken(), &vec![0, 1, 2, 0]);
    assert_eq!(simulator.ants()[2].path_taken(), &vec![0, 2, 0]);
}

#[test]
fn fewer_than_three_ants_are_sorted_too() {
    let mut simulator = Simulator::on(
        problem(vec![0, 1], 1),
        matrix(&[&[0.0, 3.0], &[5.0, 0.0]]),
        1.0,
    );
    simulator.complete_ant(0, plus);
    walk(&mut simulator, 1, &[1]);
    assert_eq!(lengths(&simulator), vec![0.0, 8.0]);
    simulator.update_pheromones(|length: f64| 100 - length as u64, deposit);
    assert_eq!(lengths(&simulator), vec![8.0, 0.0]);
    assert_eq!(simulator.ants()[0].path_taken(), &vec![0, 1, 0]);
    assert_eq!(simulator.ants()[1].path_taken(), &vec![0, 0]);
}

#[test]
fn reset_puts_the_ants_back() {
    let mut simulator = three_nodes();
    walk(&mut simulator, 1, &[2, 1]);
    assert_eq!(simulator.ants()[1].path_taken(), &vec![0, 2, 1, 0]);
    simulator.optimize_ant(1, NoOpStrategy, improves, plus, usize::MAX);
    assert_eq!(simulator.ants()[1].path_taken(), &vec![0, 2, 1, 0]);
    assert_eq!(simulator.ants()[1].path_cost(), 4.25);
    assert_eq!(simulator.ants()[0].path_taken(), &vec![0]);
    simulator.reset_ants();
    assert_eq!(simulator.ants().len(), 3);
    for ant in simulator.ants() {
        assert_eq!(ant.path_taken(), &vec![0]);
        assert_eq!(ant.path_cost(), 0.0);
        assert!(!ant.done());
    }
}

#[test]
fn colony_of_a_given_size() {
    let ants = Simulator::<f64>::init_ants(3, 5, 9);
    assert_eq!(ants.len(), 5);
    for ant in &ants {
        assert_eq!(ant.visited(), &vec![true, false, false]);
    }
    assert!(Simulator::<f64>::init_ants(3, 0, 9).is_empty());
}

#[test]
fn trails_before_the_first_cycle() {
    let trails = Simulator::init_pheromones(3, 1.0);
    assert_eq!(trails.size(), 3);
    assert_eq!(trails.row(0), &[0.0, 1.0, 1.0]);
    assert_eq!(trails.row(1), &[1.0, 0.0, 1.0]);
    assert_eq!(trails.row(2), &[1.0, 1.0, 0.0]);
}

#[test]
fn fading_comes_to_every_cell_twice() {
    let mut trails = Simulator::init_pheromones(3, 8.0);
    trails.set(0, 0, 4.0);
    trails.set(1, 2, 16.0);
    evaporate(&mut trails, 4.0, 8, &|sum: f64, count: usize, v: f64| {
        v * sum / count as f64
    });
    assert_eq!(trails.row(0), &[1.0, 2.0, 2.0]);
    assert_eq!(trails.row(1), &[2.0, 0.0, 4.0]);
    assert_eq!(trails.row(2), &[2.0, 2.0, 0.0]);
}

fn fade(sum: f64, count: usize, trail: f64) -> f64 {
    let avg = sum / count as f64;
    trail * (0.5 + 80.0 / avg)
}

#[test]
fn fading_by_a_factor_over_one_strengthens() {
    let mut simulator = Simulator::on(
        problem(vec![0, 1], 1),
        matrix(&[&[0.0, 50.0], &[50.0, 0.0]]),
        1.0,
    );
    walk(&mut simulator, 0, &[1]);
    walk(&mut simulator, 1, &[1]);
    let factor = 0.5 + 80.0 / 100.0;
    simulator.evaporate(plus, fade);
    assert_eq!(simulator.pheromones().get(0, 1), 1.0 * factor * factor);
    assert_eq!(simulator.pheromones().get(1, 0), 1.0 * factor * factor);
    assert_eq!(simulator.pheromones().get(0, 0), 0.0);
    assert_eq!(simulator.adjacency_matrix().get(0, 1), 50.0);
    assert_eq!(simulator.ants()[0].path_cost(), 100.0);
}

#[test]
fn fading_goes_by_the_mean_length_of_the_tours() {
    let mut simulator = three_nodes();
    walk(&mut simulator, 0, &[1, 2]);
    walk(&mut simulator, 1, &[2, 1]);
    walk(&mut simulator, 2, &[2]);
    let told = std::cell::RefCell::new(Vec::new());
    simulator.evaporate(plus, |sum: f64, count: usize, trail: f64| {
        told.borrow_mut().push((sum, count));
        trail / 2.0
    });
    let told = told.into_inner();
    assert_eq!(told.len(), 18);
    assert!(told.iter().all(|&heard| heard == (7.0 + 4.25 + 7.0, 3)));
    assert_eq!(
        rows(simulator.pheromones()),
        vec![
            vec![0.0, 0.25, 0.25],
            vec![0.25, 0.0, 0.25],
            vec![0.25, 0.25, 0.0],
        ]
    );
}

#[test]
fn trail_is_laid_in_the_direction_of_the_tour() {
    let mut trails = Simulator::init_pheromones(4, 1.0);
    lay_trail(&mut trails, &[0, 1, 2, 0, 0, 1, 0], 1, 4.0, &deposit);
    assert_eq!(trails.row(0), &[0.25, 1.5, 1.0, 1.0]);
    assert_eq!(trails.row(1), &[1.25, 0.0, 1.25, 1.0]);
    assert_eq!(trails.row(2), &[1.25, 1.0, 0.0, 1.0]);
    assert_eq!(trails.row(3), &[1.0, 1.0, 1.0, 0.0]);
}

#[test]
fn trail_along_less_than_an_edge_changes_nothing() {
    let mut trails = Simulator::init_pheromones(2, 1u32);
    let one_more = |_: usize, _: u32, trail: u32| trail + 1;
    lay_trail(&mut trails, &[], 3, 0, &one_more);
    lay_trail(&mut trails, &[1], 3, 0, &one_more);
    assert_eq!(trails.row(0), &[0, 1]);
    assert_eq!(trails.row(1), &[1, 0]);
}

#[test]
fn rank_weights_over_the_length_are_laid() {
    let mut simulator = three_nodes();
    walk(&mut simulator, 0, &[1, 2]);
    walk(&mut simulator, 1, &[2, 1]);
    walk(&mut simulator, 2, &[2]);
    assert_eq!(simulator.ants()[2].path_cost(), 7.0);
    simulator.update_pheromones(key, deposit);
    let (first, second, third) = (3.0 / 4.25, 2.0 / 7.0, 1.0 / 7.0);
    assert_eq!(
        rows(simulator.pheromones()),
        vec![
            vec![0.0, 1.0 + second, 1.0 + first + third],
            vec![1.0 + first, 0.0, 1.0 + second],
            vec![1.0 + second + third, 1.0 + first, 0.0],
        ]
    );
    assert_eq!(simulator.ants()[0].path_taken(), &vec![0, 2, 1, 0]);
    assert_eq!(simulator.ants()[1].path_taken(), &vec![0, 1, 2, 0]);
    assert_eq!(simulator.ants()[2].path_taken(), &vec![0, 2, 0]);
    assert_eq!(simulator.best_tour_cost(), None);
}

#[test]
fn trails_of_two_ants() {
    let mut simulator = two_nodes();
    walk(&mut simulator, 0, &[1]);
    walk(&mut simulator, 1, &[1]);
    simulator.update_pheromones(key, deposit);
    assert_eq!(
        rows(simulator.pheromones()),
        vec![vec![0.0, 1.0 + 1.5 + 1.0], vec![1.0 + 1.5 + 1.0, 0.0]]
    );
}

#[test]
fn tour_in_lines() {
    assert_eq!(
        format_path(&[0, 3, 4, 0, 1, 2, 0]),
        "Route #1: 3 4 \nRoute #2: 1 2 "
    );
}

#[test]
fn lines_keep_the_numbers_of_their_routes() {
    assert_eq!(
        format_path(&[0, 0, 12, 0, 0, 345, 6, 0]),
        "Route #2: 12 \nRoute #4: 345 6 "
    );
    assert_eq!(format_path(&[0, 1000, 20]), "Route #1: 1000 20 ");
}

#[test]
fn tour_without_nodes_has_no_line() {
    assert_eq!(format_path(&[]), "");
    assert_eq!(format_path(&[0, 0, 0]), "");
}

#[test]
fn tenth_route_has_a_number_of_two_digits() {
    let mut path = Vec::new();
    for node in 1..=10 {
        path.push(0);
        path.push(node);
    }
    let text = format_path(&path);
    assert!(text.ends_with("Route #9: 9 \nRoute #10: 10 "));
    assert_eq!(text.lines().count(), 10);
}

#[test]
fn two_opt_takes_the_crossing_out_of_the_tour_of_an_ant() {
    let diagonal = 200.0f64.sqrt();
    let mut simulator = Simulator::on(
        problem(vec![0, 1, 1, 1], 3),
        matrix(&[
            &[0.0, 10.0, 10.0, diagonal],
            &[10.0, 0.0, diagonal, 10.0],
            &[10.0, diagonal, 0.0, 10.0],
            &[diagonal, 10.0, 10.0, 0.0],
        ]),
        1.0,
    );
    walk(&mut simulator, 2, &[1, 2, 3]);
    assert_eq!(simulator.ants()[2].path_taken(), &vec![0, 1, 2, 3, 0]);
    assert_eq!(simulator.ants()[2].path_cost(), 10.0 + diagonal + 10.0 + diagonal);
    simulator.optimize_ant(2, TwoOptStrategy, improves, plus, usize::MAX);
    assert_eq!(simulator.ants()[2].path_taken(), &vec![0, 1, 3, 2, 0]);
    assert_eq!(simulator.ants()[2].path_cost(), 40.0);
    assert_eq!(simulator.ants()[1].path_taken(), &vec![0]);
}

#[test]
fn ant_that_has_not_left_the_depot_keeps_its_walk() {
    let mut simulator = three_nodes();
    simulator.complete_ant(0, plus);
    simulator.optimize_ant(0, NoOpStrategy, improves, plus, usize::MAX);
    assert_eq!(simulator.ants()[0].path_taken(), &vec![0, 0]);
}

#[test]
fn weights_of_the_edges_of_an_ant_of_the_colony() {
    let mut simulator = three_nodes();
    simulator.move_ant(1, 2, plus);
    let weight = |to_depot: f64, from_depot: f64, to_next: f64, trail: f64| {
        to_depot + 10.0 * from_depot + 100.0 * to_next + 1000.0 * trail
    };
    let (sums, total) = simulator.distribution(1, weight, plus);
    assert_eq!(sums, vec![None, Some(4.0 + 10.0 + 100.0 + 1000.0), None]);
    assert_eq!(total, 1114.0);
    let (sums, total) = simulator.distribution(0, weight, plus);
    assert_eq!(
        sums,
        vec![
            None,
            Some(0.0 + 10.0 + 100.0 + 1000.0),
            Some(1110.0 + (0.0 + 30.0 + 300.0 + 1000.0))
        ]
    );
    assert_eq!(total, 2440.0);
}

fn weight(to_depot: f64, from_depot: f64, to_next: f64, trail: f64) -> f64 {
    (to_depot + from_depot - to_next) * trail
}

fn first_with_a_share(sums: Vec<Option<f64>>, _: f64) -> Option<usize> {
    sums.iter().position(|sum| sum.is_some())
}

fn last_with_a_share(sums: Vec<Option<f64>>, _: f64) -> Option<usize> {
    sums.iter().rposition(|sum| sum.is_some())
}

fn square() -> Simulator<f64> {
    let diagonal = 200.0f64.sqrt();
    Simulator::on(
        problem(vec![0, 2, 1, 1], 3),
        matrix(&[
            &[0.0, 10.0, 10.0, diagonal],
            &[10.0, 0.0, diagonal, 10.0],
            &[10.0, diagonal, 0.0, 10.0],
            &[diagonal, 10.0, 10.0, 0.0],
        ]),
        1.0,
    )
}

#[test]
fn every_ant_makes_its_tour() {
    let diagonal = 200.0f64.sqrt();
    let mut simulator = square();
    assert!(simulator.update_ants(weight, plus, first_with_a_share, improves, usize::MAX));
    for ant in simulator.ants() {
        assert!(ant.done());
        assert_eq!(ant.path_taken(), &vec![0, 1, 2, 0, 0, 3, 0]);
        assert_eq!(ant.path_cost(), 10.0 + diagonal + 10.0 + 0.0 + diagonal + diagonal);
    }
    simulator.reset_ants();
    assert!(simulator.update_ants(weight, plus, last_with_a_share, improves, usize::MAX));
    for ant in simulator.ants() {
        assert!(ant.done());
        assert_eq!(ant.path_taken(), &vec![0, 3, 2, 0, 0, 1, 0]);
        assert_eq!(ant.path_cost(), diagonal + 10.0 + 10.0 + 0.0 + 10.0 + 10.0);
    }
}

#[test]
fn ants_that_are_drawn_nowhere_stop() {
    let mut simulator = square();
    assert!(!simulator.update_ants(weight, plus, |_, _| None, improves, usize::MAX));
    assert_eq!(simulator.ants()[0].path_taken(), &vec![0]);
    let mut simulator = square();
    assert!(!simulator.update_ants(weight, plus, |_, _| Some(4), improves, usize::MAX));
    let mut simulator = square();
    assert!(!simulator.update_ants(weight, plus, |_, _| Some(2), improves, usize::MAX));
    assert_eq!(simulator.ants()[0].path_taken(), &vec![0, 2]);
    assert_eq!(simulator.ants()[1].path_taken(), &vec![0]);
}

#[test]
fn draw_is_given_the_sums_of_the_weights() {
    let mut simulator = three_nodes();
    let given = std::cell::RefCell::new(Vec::new());
    let draw = |sums: Vec<Option<f64>>, total: f64| {
        given.borrow_mut().push((sums.clone(), total));
        sums.iter().position(|sum| sum.is_some())
    };
    assert!(simulator.update_ants(|_, from_depot, _, _| from_depot, plus, draw, improves, 0));
    let given = given.into_inner();
    assert_eq!(given.len(), 6);
    assert_eq!(given[0], (vec![None, Some(1.0), Some(4.0)], 4.0));
    assert_eq!(given[1], (vec![None, None, Some(3.0)], 3.0));
    assert_eq!(given[2], given[0]);
}

#[test]
fn run_stops_after_the_cycles_without_improvement() {
    let mut simulator = three_nodes();
    let told = std::cell::RefCell::new(Vec::new());
    let report = |new: bool, cost: Option<f64>, tour: Vec<usize>, cycle: usize| {
        told.borrow_mut().push((new, cost, tour, cycle));
    };
    assert!(simulator.run(
        weight,
        plus,
        first_with_a_share,
        improves,
        usize::MAX,
        key,
        fade,
        deposit,
        &report,
    ));
    let told = told.into_inner();
    assert_eq!(told.len(), 77);
    assert_eq!(told[0], (true, Some(4.25), vec![0, 2, 1, 0], 1));
    for (cycle, heard) in told.iter().enumerate().skip(1) {
        assert_eq!(heard, &(false, Some(4.25), vec![], cycle + 1));
    }
    assert_eq!(simulator.cur_cycle(), 77);
    assert_eq!(simulator.cycles_since_improvement(), 76);
    assert_eq!(simulator.best_tour_cost(), Some(4.25));
    assert_eq!(simulator.best_tour(), &vec![0, 2, 1, 0]);
}

#[test]
fn run_stops_at_the_last_cycle() {
    let mut simulator = three_nodes();
    let asked = std::cell::Cell::new(0u64);
    let ever_shorter = |_: f64| {
        asked.set(asked.get() + 1);
        u64::MAX - asked.get()
    };
    let told = std::cell::RefCell::new(Vec::new());
    let report = |new: bool, _: Option<f64>, tour: Vec<usize>, cycle: usize| {
        told.borrow_mut().push((new, tour, cycle));
    };
    assert!(simulator.run(
        weight,
        plus,
        first_with_a_share,
        improves,
        usize::MAX,
        ever_shorter,
        fade,
        deposit,
        &report,
    ));
    let told = told.into_inner();
    assert_eq!(told.len(), 149);
    for (cycle, heard) in told.iter().enumerate() {
        assert_eq!(heard, &(true, vec![0, 2, 1, 0], cycle + 1));
    }
    assert_eq!(simulator.cur_cycle(), MAX_CYCLES);
    assert_eq!(simulator.cycles_since_improvement(), 0);
    assert_eq!(asked.get(), 149 * 6);
}

#[test]
fn run_without_a_draw_says_no() {
    let mut simulator = three_nodes();
    let quiet = |_: bool, _: Option<f64>, _: Vec<usize>, _: usize| {};
    assert!(!simulator.run(
        weight,
        plus,
        |_, _| None,
        improves,
        usize::MAX,
        key,
        fade,
        deposit,
        quiet,
    ));
    assert_eq!(simulator.cur_cycle(), 1);
    assert_eq!(simulator.best_tour_cost(), None);
}

#[test]
fn colony_halts_at_the_ant_that_is_drawn_nowhere() {
    let mut simulator = three_nodes();
    let draws = std::cell::Cell::new(0);
    let three_times = |sums: Vec<Option<f64>>, _: f64| {
        draws.set(draws.get() + 1);
        if draws.get() > 3 {
            None
        } else {
            sums.iter().position(|sum| sum.is_some())
        }
    };
    assert!(!simulator.update_ants(weight, plus, three_times, improves, usize::MAX));
    assert_eq!(draws.get(), 4);
    assert!(simulator.ants()[0].done());
    assert_eq!(simulator.ants()[0].path_taken(), &vec![0, 2, 1, 0]);
    assert_eq!(simulator.ants()[0].path_cost(), 4.25);
    assert!(!simulator.ants()[1].done());
    assert_eq!(simulator.ants()[1].path_taken(), &vec![0, 1]);
    assert_eq!(simulator.ants()[1].path_cost(), 1.0);
    assert_eq!(simulator.ants()[2].path_taken(), &vec![0]);
    assert_eq!(simulator.ants()[2].path_cost(), 0.0);
}

#[test]
fn run_halts_in_the_cycle_in_which_an_ant_is_drawn_nowhere() {
    let mut simulator = three_nodes();
    let draws = std::cell::Cell::new(0);
    let ten_times = |sums: Vec<Option<f64>>, _: f64| {
        draws.set(draws.get() + 1);
        if draws.get() > 10 {
            None
        } else {
            sums.iter().position(|sum| sum.is_some())
        }
    };
    let cycles = std::cell::Cell::new(0);
    let count = |_: bool, _: Option<f64>, _: Vec<usize>, cycle: usize| cycles.set(cycle);
    assert!(!simulator.run(
        weight,
        plus,
        &ten_times,
        improves,
        usize::MAX,
        key,
        fade,
        deposit,
        &count,
    ));
    assert_eq!(cycles.get(), 1);
    assert_eq!(simulator.cur_cycle(), 2);
    assert_eq!(simulator.best_tour_cost(), Some(4.25));
    assert!(simulator.ants()[0].done());
    assert!(simulator.ants()[1].done());
    assert!(!simulator.ants()[2].done());
    assert_eq!(simulator.ants()[2].path_taken(), &vec![0]);
}

fn quiet(_: bool, _: Option<f64>, _: Vec<usize>, _: usize) {}

fn times(path: &[usize], node: usize) -> usize {
    path.iter().filter(|&&n| n == node).count()
}

#[test]
fn run_on_two_nodes_finds_the_way_there_and_back() {
    let mut simulator = two_nodes();
    assert!(simulator.run(
        weight,
        plus,
        last_with_a_share,
        improves,
        usize::MAX,
        key,
        fade,
        deposit,
        quiet,
    ));
    assert_eq!(simulator.best_tour(), &vec![0, 1, 0]);
    assert_eq!(simulator.best_tour_cost(), Some(2.0));
    assert_eq!(simulator.cur_cycle(), 77);
    assert_eq!(simulator.cycles_since_improvement(), 76);
    for ant in simulator.ants() {
        assert_eq!(ant.path_taken(), &vec![0, 1, 0]);
        assert_eq!(ant.path_cost(), 2.0);
    }
}

#[test]
fn run_with_the_depot_alone_stays_at_the_depot() {
    let mut simulator = Simulator::on(problem(vec![0], 0), matrix(&[&[0.0]]), 1.0);
    assert!(simulator.run(
        weight,
        plus,
        first_with_a_share,
        improves,
        usize::MAX,
        key,
        |_, _, trail| trail,
        deposit,
        quiet,
    ));
    assert_eq!(simulator.best_tour(), &vec![0, 0]);
    assert_eq!(simulator.best_tour_cost(), Some(0.0));
    assert_eq!(simulator.cur_cycle(), 77);
    assert_eq!(simulator.ants().len(), 1);
    assert_eq!(simulator.ants()[0].path_taken(), &vec![0, 0]);
}

#[test]
fn run_that_began_after_the_last_cycle_counts_one_more() {
    let mut simulator = two_nodes();
    while simulator.should_continue() {}
    assert_eq!(simulator.cur_cycle(), 150);
    assert!(simulator.run(
        weight,
        plus,
        first_with_a_share,
        improves,
        usize::MAX,
        key,
        fade,
        deposit,
        quiet,
    ));
    assert_eq!(simulator.cur_cycle(), 151);
    assert_eq!(simulator.best_tour_cost(), None);
    assert_eq!(simulator.cycles_since_improvement(), 0);
}

#[test]
fn tours_of_a_run_go_to_each_customer_once() {
    let mut simulator = square();
    assert!(simulator.run(
        weight,
        plus,
        last_with_a_share,
        improves,
        usize::MAX,
        key,
        fade,
        deposit,
        quiet,
    ));
    assert_eq!(simulator.ants().len(), 4);
    for ant in simulator.ants() {
        assert!(ant.done());
        for node in 1..4 {
            assert_eq!(times(ant.path_taken(), node), 1);
        }
        assert_eq!(ant.path_taken().first(), Some(&0));
        assert_eq!(ant.path_taken().last(), Some(&0));
        assert!(key(simulator.best_tour_cost().unwrap()) <= key(ant.path_cost()));
    }
    for node in 1..4 {
        assert_eq!(times(simulator.best_tour(), node), 1);
    }
    let best = simulator.best_tour();
    let measured = best
        .windows(2)
        .fold(0.0, |so_far, edge| so_far + simulator.adjacency_matrix().get(edge[0], edge[1]));
    assert_eq!(simulator.best_tour_cost(), Some(measured));
}

#[test]
fn count_without_improvement_goes_on_after_the_limit() {
    let mut simulator = two_nodes();
    walk(&mut simulator, 0, &[1]);
    walk(&mut simulator, 1, &[1]);
    assert_eq!(simulator.try_find_best_tour(key), Continue::Yes);
    for since in 1..=80 {
        let verdict = simulator.try_find_best_tour(key);
        assert_eq!(simulator.cycles_since_improvement(), since);
        assert_eq!(verdict == Continue::No, since > 75);
    }
}
