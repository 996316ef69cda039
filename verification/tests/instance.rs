use aco_vrp::ant::get_next_node_by_probability;
use aco_vrp::matrix::Matrix;
use aco_vrp::problem::Problem;
use aco_vrp::routes::path_to_routes;
use aco_vrp::sim::Simulator;

const INSTANCE: &str = "NAME : A-n32-k5\n\
COMMENT : (Augerat et al, No of trucks: 5, Optimal value: 784)\n\
TYPE : CVRP\n\
DIMENSION : 32\n\
EDGE_WEIGHT_TYPE : EUC_2D \n\
CAPACITY : 100\n\
NODE_COORD_SECTION \n 1 82 76\n 2 96 44\n 3 50 5\n 4 49 8\n 5 13 7\n 6 29 89\n 7 58 30\n 8 84 39\n \
9 14 24\n 10 2 39\n 11 3 82\n 12 5 10\n 13 98 52\n 14 84 25\n 15 61 59\n 16 1 65\n 17 88 51\n \
18 91 2\n 19 19 32\n 20 93 3\n 21 50 93\n 22 98 14\n 23 5 42\n 24 42 9\n 25 61 62\n 26 9 97\n \
27 80 55\n 28 57 69\n 29 23 15\n 30 20 70\n 31 85 60\n 32 98 5\n\
DEMAND_SECTION \n1 0 \n2 19 \n3 21 \n4 6 \n5 19 \n6 7 \n7 12 \n8 16 \n9 6 \n10 16 \n11 8 \n\
12 14 \n13 21 \n14 16 \n15 3 \n16 22 \n17 18 \n18 19 \n19 1 \n20 24 \n21 8 \n22 12 \n23 4 \n\
24 8 \n25 24 \n26 24 \n27 2 \n28 20 \n29 15 \n30 2 \n31 14 \n32 9 \n\
DEPOT_SECTION \n 1  \n -1  \nEOF \n";

fn distance(a: (u64, u64), b: (u64, u64)) -> f64 {
    let (dx, dy) = (b.0 as f64 - a.0 as f64, b.1 as f64 - a.1 as f64);
    (dy.powi(2) + dx.powi(2)).sqrt()
}

fn plus(so_far: f64, distance: f64) -> f64 {
    so_far + distance
}

fn weight(to_depot: f64, from_depot: f64, to_next: f64, trail: f64) -> f64 {
    let savings = to_depot + from_depot - to_next;
    savings.powi(9) * trail.powi(2) * (1.0f64 / to_next).powi(5)
}

fn improves(removed: f64, also_removed: f64, new: f64, also_new: f64) -> bool {
    (removed + also_removed) - (new + also_new) > 1.0
}

fn key(number: f64) -> u64 {
    assert!(number >= 0.0);
    number.to_bits()
}

fn fade(sum: f64, count: usize, trail: f64) -> f64 {
    trail * (0.5 + 80.0 / (sum / count as f64))
}

fn deposit(weight: usize, length: f64, trail: f64) -> f64 {
    trail + weight as f64 / length
}

fn quiet(_: bool, _: Option<f64>, _: Vec<usize>, _: usize) {}

fn best_of_a_run(seed: u64) -> (f64, Vec<usize>) {
    let problem = Problem::try_from_vrp(INSTANCE).unwrap();
    assert!(problem.is_feasible());
    let demands = problem.demands.clone();
    let distances = Matrix::adjacency(&problem.coordinates, distance);
    let state = std::cell::Cell::new(seed);
    let draw = |sums: Vec<Option<f64>>, total: f64| {
        state.set(
            state
                .get()
                .wrapping_mul(6364136223846793005)
                .wrapping_add(1442695040888963407),
        );
        let share = (state.get() >> 11) as f64 / (1u64 << 53) as f64;
        let draw = share / (1.0 / total);
        let keys: Vec<Option<u64>> = sums.iter().map(|sum| sum.map(key)).collect();
        get_next_node_by_probability(&keys, key(draw))
    };
    let mut simulator = Simulator::on(problem, distances, 1.0);
    assert!(simulator.run(weight, plus, &draw, improves, usize::MAX, key, fade, deposit, quiet));
    let tour = simulator.best_tour().clone();
    for node in 0..32 {
        assert!(tour.contains(&node));
    }
    for route in path_to_routes(&tour) {
        assert!(route.iter().map(|&node| demands[node]).sum::<usize>() <= 100);
    }
    (simulator.best_tour_cost().unwrap(), tour)
}

#[test]
fn tours_of_an_instance_with_thirty_two_nodes() {
    let mut best = f64::MAX;
    for seed in 1..=10 {
        let (cost, _) = best_of_a_run(seed);
        best = best.min(cost);
    }
    assert!(best <= 784.0 * 1.15);
}
