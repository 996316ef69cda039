//! Ant colony optimization for the capacitated vehicle routing problem, with
//! the savings of Clarke and Wright in the weights of the edges and a local
//! search by edge exchange on each route.
//!
//! The library holds what can be said without looking into a number: the
//! walks of the ants and their loads, the routes of a tour, the order in
//! which a search goes through the pairs of edges, the cycles of a run and
//! their count, the ranking of the ants, and the fields of distances and
//! trails cell by cell. Lengths, distances and trails are of a type that
//! the caller chooses. Wherever they are added, weighed or compared, the
//! caller hands in the function that does it; where they are ordered, its
//! function gives each a key, which is an unsigned number that grows with
//! what it stands for. The node that an ant is drawn to is the caller's to
//! say too, from the weights that the library hands it.
//!
//! What holds of every tour that the library makes is stated where it is
//! made: a tour goes through every node, through each node but the depot
//! once, none of its routes demands more than a vehicle can carry, and its
//! length is the sum of the distances of its edges.

pub mod ant;
pub mod coverage;
pub mod lengths;
pub mod matrix;
pub mod opt;
pub mod problem;
pub mod report;
pub mod routes;
pub mod scan;
pub mod search;
pub mod sim;
pub mod trails;
pub mod visits;

pub use ant::{get_next_node_by_probability, Ant};
pub use matrix::Matrix;
pub use opt::{NoOpStrategy, OptimizationStrategy, TwoOptStrategy};
pub use problem::{EdgeWeightType, Expected, ParseError, Problem, ProblemType};
pub use report::format_path;
pub use routes::{path_to_routes, path_to_slices};
pub use search::Search;
pub use sim::{Continue, Simulator, BEST_TOUR_COST, MAX_CYCLES};
