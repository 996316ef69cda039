use crate::ant::{
    lemma_complete_respects, lemma_count_all, lemma_count_full, lemma_done_covers,
    lemma_step_progress,
    lemma_step_respects, lemma_visit_wf, weighed, Ant, AntView,
};
use crate::matrix::Matrix;
use crate::opt::{measured, multiple_paths, OptimizationStrategy, TwoOptStrategy};
use crate::routes::{
    below, depot_free, feasible, lemma_routes_depot_free, lemma_routes_exist, routes_of,
};
use crate::search::{
    leads_to, lemma_framed_routes, lemma_leads_to_keeps, lemma_next_open, lemma_two_opt_closed,
    lemma_two_opt_keeps_feasible, stops, SearchView,
};
use crate::problem::{Problem, ProblemView};
use crate::trails::{added, evaporate, evaporated, lay_trail, trailed};
use crate::visits::{
    count, direct, lemma_done_once, lemma_one_customer, lemma_start_direct,
    lemma_two_opt_keeps_visits, lemma_visit_direct, once,
};
use vstd::prelude::*;

verus! {

/// The number of the cycle at which a run ends.
pub const MAX_CYCLES: usize = 150;

/// The key of a tour that is longer than any other: the key of the best
/// tour before there is one.
pub const BEST_TOUR_COST: u64 = 0xffff_ffff_ffff_ffff;

/// Whether a run goes on.
#[derive(Clone, Copy, Debug, PartialEq, Eq, Structural)]
pub enum Continue {
    Yes,
    No,
}

/// The first of the least entries of a list of keys.
pub open spec fn first_least(costs: Seq<u64>) -> int
    decreases costs.len(),
{
    if costs.len() <= 1 {
        0
    } else {
        let before = first_least(costs.drop_last());
        if costs.last() < costs[before] {
            costs.len() - 1
        } else {
            before
        }
    }
}

/// The first of the least entries is an entry, no entry is less, and the
/// entries before it are greater.
pub proof fn lemma_first_least(costs: Seq<u64>)
    requires
        costs.len() > 0,
    ensures
        0 <= first_least(costs) < costs.len(),
        forall|j: int| 0 <= j < costs.len() ==> costs[first_least(costs)] <= #[trigger] costs[j],
        forall|j: int| 0 <= j < first_least(costs) ==> costs[first_least(costs)] < #[trigger] costs[j],
    decreases costs.len(),
{
    if costs.len() > 1 {
        let front = costs.drop_last();
        lemma_first_least(front);
        assert forall|j: int| 0 <= j < costs.len() implies costs[first_least(costs)]
            <= #[trigger] costs[j] by {
            if j < front.len() {
                assert(front[j] == costs[j]);
            }
        }
        assert forall|j: int| 0 <= j < first_least(costs) implies costs[first_least(costs)]
            < #[trigger] costs[j] by {
            assert(front[j] == costs[j]);
        }
    }
}

/// Whether the ant `a` comes before the ant `b` in the ranking: it has the
/// shorter tour, or a tour of the same length and the lower number.
pub open spec fn precedes(costs: Seq<u64>, a: int, b: int) -> bool {
    costs[a] < costs[b] || (costs[a] == costs[b] && a < b)
}

/// Whether `order` names the ants in the order of the ranking: each ant
/// once, an ant with a shorter tour before one with a longer tour, and of
/// two ants with tours of the same length the one that stood first.
pub open spec fn sorts(keys: Seq<u64>, order: Seq<int>) -> bool {
    &&& order.len() == keys.len()
    &&& forall|r: int| 0 <= r < order.len() ==> 0 <= #[trigger] order[r] < keys.len()
    &&& forall|r: int, s: int|
        #![trigger order[r], order[s]]
        0 <= r < s < order.len() ==> precedes(keys, order[r], order[s])
}

/// The entries of a list in a new order: at each place the entry that
/// `order` names for it.
pub open spec fn arranged<T>(before: Seq<T>, order: Seq<int>) -> Seq<T> {
    Seq::new(order.len(), |r: int| before[order[r]])
}

/// The ants that lay a trail, each with its weight: the first three of a
/// colony, or all where there are fewer, with the weights three, two and
/// one.
pub open spec fn podium(ants: nat) -> Seq<(usize, usize)> {
    Seq::new(
        if ants < 3 {
            ants
        } else {
            3
        },
        |r: int| (r as usize, (3 - r) as usize),
    )
}

/// Whether the trail between two nodes is the given one in both directions.
pub open spec fn joined<T>(trails: Seq<Seq<T>>, k: int, l: int, trail: T) -> bool {
    trails[k][l] == trail && trails[l][k] == trail
}

/// Whether an answer to the weights of the edges that an ant can take names
/// no node that the ant can go to: it names none, or none of the nodes, or
/// one without a sum, which is one that the ant has reached.
pub open spec fn refused<C>(sums: Seq<Option<C>>, answer: Option<usize>) -> bool {
    match answer {
        None => true,
        Some(node) => node >= sums.len() || sums[node as int].is_none(),
    }
}

/// Whether `draw` names a node that the ant can go to wherever there is one:
/// given sums of which one is there, it names a node with a sum.
pub open spec fn willing<C, D: Fn(Vec<Option<C>>, C) -> Option<usize>>(draw: D) -> bool {
    forall|sums: Vec<Option<C>>, total: C, answer: Option<usize>|
        #[trigger] draw.ensures((sums, total), answer) && (exists|node: int|
            0 <= node < sums@.len() && (#[trigger] sums@[node]).is_some()) ==> !refused(
            sums@,
            answer,
        )
}

/// A colony of ants that stand at the depot.
pub open spec fn colony(num_ants: nat, num_nodes: nat, capacity: nat) -> Seq<AntView> {
    Seq::new(num_ants, |a: int| AntView::start(num_nodes, capacity))
}

/// Whether a field has as many rows and columns as there are nodes.
pub open spec fn square<C>(field: Seq<Seq<C>>, num_nodes: nat) -> bool {
    &&& field.len() == num_nodes
    &&& forall|i: int| 0 <= i < field.len() ==> (#[trigger] field[i]).len() == num_nodes
}

/// Whether `after` is the field of trails that `before` becomes when the
/// ants of a ranking lay their trails, one ant after the other, each along
/// its tour, with its weight and the length of its tour.
pub open spec fn reinforced<C, D: Fn(usize, C, C) -> C>(
    deposit: D,
    ants: Seq<AntView>,
    costs: Seq<C>,
    deposits: Seq<(usize, usize)>,
    before: Seq<Seq<C>>,
    after: Seq<Seq<C>>,
) -> bool
    decreases deposits.len(),
{
    if deposits.len() == 0 {
        after == before
    } else {
        exists|mid: Seq<Seq<C>>|
            reinforced(deposit, ants, costs, deposits.drop_last(), before, mid) && #[trigger] trailed(
                deposit,
                deposits.last().1,
                costs[deposits.last().0 as int],
                ants[deposits.last().0 as int].path,
                mid,
                after,
            )
    }
}

/// A simulator as a mathematical value. Lengths and trails are of a type
/// that the simulator does not look into.
pub struct SimulatorView<C> {
    pub num_nodes: nat,
    pub capacity: nat,
    pub demands: Seq<usize>,
    /// The distance from each node to each node.
    pub distances: Seq<Seq<C>>,
    /// The trail from each node to each node.
    pub trails: Seq<Seq<C>>,
    pub ants: Seq<AntView>,
    /// The length of the walk of each ant.
    pub costs: Seq<C>,
    /// The length that each ant began with.
    pub origins: Seq<C>,
    pub cur_cycle: nat,
    pub cycles_since_improvement: nat,
    /// The length of the best tour, if there is one.
    pub best_tour_cost: Option<C>,
    /// The key of the length of the best tour.
    pub best_tour_key: u64,
    pub best_tour: Seq<usize>,
}

impl<C> SimulatorView<C> {
    /// What holds of every simulator: its problem can be served, it has a
    /// distance and a trail from each node to each node, each of its ants
    /// is an ant of that problem.
    pub open spec fn wf(self) -> bool {
        &&& self.num_nodes >= 1
        &&& self.demands.len() == self.num_nodes
        &&& self.demands[0] == 0
        &&& forall|n: int| 0 <= n < self.demands.len() ==> #[trigger] self.demands[n] <= self.capacity
        &&& square(self.distances, self.num_nodes)
        &&& square(self.trails, self.num_nodes)
        &&& self.ants.len() == self.num_nodes
        &&& self.costs.len() == self.num_nodes
        &&& self.origins.len() == self.num_nodes
        &&& forall|a: int|
            0 <= a < self.ants.len() ==> {
                &&& (#[trigger] self.ants[a]).wf()
                &&& self.ants[a].num_nodes == self.num_nodes
                &&& self.ants[a].capacity == self.capacity
            }
    }

    /// Whether the simulator is one before the first cycle of a problem:
    /// one ant for each node, at the depot and with the length that it
    /// began with, the same trail between any two nodes, and no best tour.
    pub open spec fn begins(self, problem: ProblemView, distances: Seq<Seq<C>>, trail: C) -> bool {
        &&& self.num_nodes == problem.dimension
        &&& self.capacity == problem.capacity
        &&& self.demands == problem.demands
        &&& self.distances == distances
        &&& forall|i: int, j: int|
            0 <= i < self.num_nodes && 0 <= j < self.num_nodes && i != j ==> (
            #[trigger] self.trails[i][j]) == trail
        &&& self.ants == colony(problem.dimension, problem.dimension, problem.capacity)
        &&& self.costs == self.origins
        &&& self.cur_cycle == 0
        &&& self.cycles_since_improvement == 0
        &&& self.best_tour_cost.is_none()
        &&& self.best_tour_key == BEST_TOUR_COST
        &&& self.best_tour == Seq::<usize>::empty()
    }

    /// The simulator at the beginning of the next cycle.
    pub open spec fn tick(self) -> SimulatorView<C> {
        SimulatorView { cur_cycle: self.cur_cycle + 1, ..self }
    }

    /// The simulator after a number of beginnings of cycles.
    pub open spec fn ticks(self, cycles: nat) -> SimulatorView<C>
        decreases cycles,
    {
        if cycles == 0 {
            self
        } else {
            self.tick().ticks((cycles - 1) as nat)
        }
    }

    /// A bound on the cycles that a run still begins.
    pub open spec fn cycles_left(self) -> nat {
        if self.cur_cycle < MAX_CYCLES {
            (MAX_CYCLES - self.cur_cycle) as nat
        } else {
            0
        }
    }

    /// Whether the keys are those that `key` gives to the lengths of the
    /// walks of the ants. Keys are numbers that grow with the lengths they
    /// stand for.
    pub open spec fn keyed<K: Fn(C) -> u64>(self, key: K, keys: Seq<u64>) -> bool {
        &&& keys.len() == self.costs.len()
        &&& forall|a: int| 0 <= a < keys.len() ==> key.ensures((self.costs[a],), #[trigger] keys[a])
    }

    /// Whether the length of the walk of an ant is what the walk measures
    /// over the distances, added up by `plus`.
    pub open spec fn consistent<F: Fn(C, C) -> C>(self, ant: int, plus: F) -> bool {
        measured(plus, self.distances, self.ants[ant].path, self.origins[ant], self.costs[ant])
    }

    /// Whether an ant is as it is in another simulator.
    pub open spec fn same_ant(self, other: SimulatorView<C>, ant: int) -> bool {
        self.ants[ant] == other.ants[ant] && self.costs[ant] == other.costs[ant]
    }

    /// Whether every ant stands at the depot and has gone nowhere.
    pub open spec fn fresh(self) -> bool {
        &&& self.ants == colony(self.num_nodes, self.num_nodes, self.capacity)
        &&& self.costs == self.origins
    }

    /// Whether an ant has its tour: it has reached every node, each node
    /// but the depot once, and is back at the depot, none of its routes
    /// demands more than a vehicle can carry, and the length of the tour is
    /// what the tour measures over the distances, added up by `plus`.
    pub open spec fn toured<F: Fn(C, C) -> C>(self, ant: int, plus: F) -> bool {
        &&& self.ants[ant].done()
        &&& once(self.ants[ant].path, self.num_nodes)
        &&& self.ants[ant].path.last() == 0
        &&& feasible(self.ants[ant].path, self.demands, self.capacity)
        &&& self.consistent(ant, plus)
    }

    /// Whether an ant stands at the depot and has gone nowhere.
    pub open spec fn unwalked(self, ant: int) -> bool {
        &&& self.ants[ant] == AntView::start(self.num_nodes, self.capacity)
        &&& self.costs[ant] == self.origins[ant]
    }

    /// Whether the sums and the total are the weights of the edges that an
    /// ant can take, as `distribution` gives them: a sum for each node that
    /// the ant has not reached, none for the others, and the sum of all.
    pub open spec fn offers<W: Fn(C, C, C, C) -> C, F: Fn(C, C) -> C>(
        self,
        ant: int,
        weight: W,
        plus: F,
        sums: Seq<Option<C>>,
        total: C,
    ) -> bool {
        &&& sums.len() == self.num_nodes
        &&& forall|node: int|
            0 <= node < self.num_nodes ==> match #[trigger] sums[node] {
                Some(sum) => !self.ants[ant].visited[node] && weighed(
                    weight,
                    plus,
                    self.ants[ant],
                    self.distances,
                    self.trails,
                    self.origins[ant],
                    node + 1,
                    sum,
                ),
                None => self.ants[ant].visited[node],
            }
        &&& weighed(
            weight,
            plus,
            self.ants[ant],
            self.distances,
            self.trails,
            self.origins[ant],
            self.num_nodes as int,
            total,
        )
    }

    /// Whether the colony has come to a halt at one of its ants: the ants
    /// before it have their tours, the ants after it have gone nowhere, and
    /// the ant itself has not reached every node and stands where `draw`,
    /// given the weights of the edges that it can take, has said no node or
    /// none that the ant can go to.
    pub open spec fn halted<
        W: Fn(C, C, C, C) -> C,
        F: Fn(C, C) -> C,
        D: Fn(Vec<Option<C>>, C) -> Option<usize>,
    >(self, weight: W, plus: F, draw: D) -> bool {
        exists|ant: int, sums: Vec<Option<C>>, total: C, answer: Option<usize>|
            #![trigger self.offers(ant, weight, plus, sums@, total), draw.ensures((sums, total), answer)]
            {
                &&& 0 <= ant < self.ants.len()
                &&& forall|b: int| 0 <= b < ant ==> #[trigger] self.toured(b, plus)
                &&& forall|b: int| ant < b < self.ants.len() ==> #[trigger] self.unwalked(b)
                &&& !self.ants[ant].done()
                &&& self.offers(ant, weight, plus, sums@, total)
                &&& draw.ensures((sums, total), answer)
                &&& refused(sums@, answer)
            }
    }

    /// Whether a tour is one that the exchange of two edges makes of a walk:
    /// the walk begins and ends at the depot and keeps to what a vehicle
    /// can carry, the search that begins with it has come to a stop after
    /// at most `max_swaps` exchanges, and the tour is the tour of that
    /// search. Where the depot is the only node, the tour is the walk from
    /// the depot to itself.
    pub open spec fn refined<G: Fn(C, C, C, C) -> bool>(
        self,
        tour: Seq<usize>,
        improves: G,
        max_swaps: usize,
    ) -> bool {
        if self.num_nodes > 1 {
            exists|walk: Seq<usize>, end: SearchView, steps: nat, swaps: int|
                {
                    &&& #[trigger] leads_to(
                        improves,
                        self.distances,
                        TwoOptStrategy.begin(walk),
                        end,
                        steps,
                        swaps,
                    )
                    &&& walk.len() > 0
                    &&& walk[0] == 0
                    &&& walk.last() == 0
                    &&& feasible(walk, self.demands, self.capacity)
                    &&& stops(improves, self.distances, end, swaps, max_swaps)
                    &&& tour == end.tour()
                }
        } else {
            tour == seq![0usize, 0usize]
        }
    }

    /// Whether an ant has a tour that the exchange of two edges has made
    /// of a walk.
    pub open spec fn optimized<G: Fn(C, C, C, C) -> bool>(
        self,
        ant: int,
        improves: G,
        max_swaps: usize,
    ) -> bool {
        self.refined(self.ants[ant].path, improves, max_swaps)
    }

    /// Whether every ant has its tour, and one that the exchange of two
    /// edges has made of a walk.
    pub open spec fn all_toured<F: Fn(C, C) -> C, G: Fn(C, C, C, C) -> bool>(
        self,
        plus: F,
        improves: G,
        max_swaps: usize,
    ) -> bool {
        &&& forall|a: int| 0 <= a < self.ants.len() ==> #[trigger] self.toured(a, plus)
        &&& forall|a: int|
            0 <= a < self.ants.len() ==> #[trigger] self.optimized(a, improves, max_swaps)
    }

    /// Whether no ant has a tour that is shorter than the best tour, by the
    /// keys that `key` gives to the lengths.
    pub open spec fn best_of<K: Fn(C) -> u64>(self, key: K) -> bool {
        exists|keys: Seq<u64>|
            #[trigger] self.keyed(key, keys) && forall|a: int|
                0 <= a < keys.len() ==> self.best_tour_key <= #[trigger] keys[a]
    }

    /// Whether the best tour is one that an ant has made: it serves the
    /// problem, the exchange of two edges has made it of a walk, its length
    /// is what it measures over the distances, added up by `plus` from
    /// where `origin` says a length begins, and its key is the key of its
    /// length.
    pub open spec fn best_found<F: Fn(C, C) -> C, G: Fn(C, C, C, C) -> bool, K: Fn(C) -> u64>(
        self,
        plus: F,
        improves: G,
        max_swaps: usize,
        key: K,
        origin: spec_fn(C) -> bool,
    ) -> bool {
        &&& self.best_tour_cost.is_some()
        &&& self.serves(self.best_tour)
        &&& self.refined(self.best_tour, improves, max_swaps)
        &&& key.ensures((self.best_tour_cost.unwrap(),), self.best_tour_key)
        &&& exists|from: C|
            origin(from) && #[trigger] measured(
                plus,
                self.distances,
                self.best_tour,
                from,
                self.best_tour_cost.unwrap(),
            )
    }

    /// Whether a tour serves the problem: it begins and ends at the depot,
    /// goes through every node and no other, through each node but the
    /// depot once, and none of its routes demands more than a vehicle can
    /// carry.
    pub open spec fn serves(self, tour: Seq<usize>) -> bool {
        &&& tour.len() > 0
        &&& tour[0] == 0
        &&& tour.last() == 0
        &&& below(tour, self.num_nodes)
        &&& forall|n: usize| n < self.num_nodes ==> tour.contains(n)
        &&& once(tour, self.num_nodes)
        &&& feasible(tour, self.demands, self.capacity)
    }

    /// Whether the best tour, if there is one, serves the problem.
    pub open spec fn best_serves(self) -> bool {
        self.best_tour_cost.is_some() ==> self.serves(self.best_tour)
    }

    /// Whether `toured` is this simulator after a cycle has begun and a
    /// fresh colony has made its tours: the count of cycles is one more,
    /// every ant has its tour, and the length that each ant began with is
    /// one that `origin` holds of.
    pub open spec fn tours<F: Fn(C, C) -> C, G: Fn(C, C, C, C) -> bool>(
        self,
        toured: SimulatorView<C>,
        plus: F,
        improves: G,
        max_swaps: usize,
        origin: spec_fn(C) -> bool,
    ) -> bool {
        &&& toured == (SimulatorView {
            ants: toured.ants,
            costs: toured.costs,
            origins: toured.origins,
            ..self.tick()
        })
        &&& toured.wf()
        &&& toured.all_toured(plus, improves, max_swaps)
        &&& forall|a: int| 0 <= a < toured.origins.len() ==> origin(#[trigger] toured.origins[a])
    }

    /// Whether `after` is this simulator after the trails have faded and
    /// the ants, sorted by the lengths of their tours, have laid theirs.
    pub open spec fn settles<
        P: Fn(C, C) -> C,
        K: Fn(C) -> u64,
        E: Fn(C, usize, C) -> C,
        L: Fn(usize, C, C) -> C,
    >(self, after: SimulatorView<C>, plus: P, key: K, fade: E, deposit: L) -> bool {
        exists|sum: C, faded: Seq<Seq<C>>, keys: Seq<u64>, order: Seq<int>|
            #![trigger evaporated(fade, sum, self.ants.len() as usize, self.trails, faded), sorts(keys, order)]
            {
                &&& added(plus, self.costs, self.origins[0], sum)
                &&& evaporated(fade, sum, self.ants.len() as usize, self.trails, faded)
                &&& self.keyed(key, keys)
                &&& sorts(keys, order)
                &&& after == (SimulatorView {
                    trails: after.trails,
                    ants: arranged(self.ants, order),
                    costs: arranged(self.costs, order),
                    origins: arranged(self.origins, order),
                    ..self
                })
                &&& reinforced(
                    deposit,
                    after.ants,
                    after.costs,
                    podium(after.ants.len()),
                    faded,
                    after.trails,
                )
            }
    }

    /// Whether one of the tours is shorter than the best tour so far.
    pub open spec fn improves(self, keys: Seq<u64>) -> bool {
        keys.len() > 0 && keys[first_least(keys)] < self.best_tour_key
    }

    /// The simulator after it has looked at the tours of a cycle, whose
    /// lengths have the given keys. Where one of them is shorter than the
    /// best tour so far, the first of the shortest becomes the best tour
    /// and the count of cycles without improvement begins again. Else that
    /// count goes up by one.
    pub open spec fn judge(self, keys: Seq<u64>) -> SimulatorView<C> {
        if self.improves(keys) {
            SimulatorView {
                best_tour_cost: Some(self.costs[first_least(keys)]),
                best_tour_key: keys[first_least(keys)],
                best_tour: self.ants[first_least(keys)].path,
                cycles_since_improvement: 0,
                ..self
            }
        } else {
            SimulatorView { cycles_since_improvement: self.cycles_since_improvement + 1, ..self }
        }
    }

    /// Whether the run goes on after the tours of a cycle: not when the
    /// count of cycles without improvement is over its limit.
    pub open spec fn verdict(self, keys: Seq<u64>) -> Continue {
        if self.judge(keys).cycles_since_improvement > MAX_CYCLES / 2 {
            Continue::No
        } else {
            Continue::Yes
        }
    }
}

/// A cycle of a run: the simulator after the tours of the colony, the keys
/// of the lengths of the tours by which the best tour was looked for, and
/// the simulator after the cycle.
pub struct Cycle<C> {
    pub toured: SimulatorView<C>,
    pub keys: Seq<u64>,
    pub after: SimulatorView<C>,
}

/// Whether the run goes on after a cycle.
pub open spec fn goes_on<C>(cycle: Cycle<C>) -> bool {
    cycle.toured.verdict(cycle.keys) == Continue::Yes
}

/// Whether a cycle is one that follows the simulator `before`: the cycle
/// begins, a fresh colony makes its tours, the best tour is looked for by
/// the keys of the lengths, and, where the run goes on, the trails fade and
/// the sorted ants lay theirs.
pub open spec fn cycled<
    C,
    P: Fn(C, C) -> C,
    G: Fn(C, C, C, C) -> bool,
    K: Fn(C) -> u64,
    E: Fn(C, usize, C) -> C,
    L: Fn(usize, C, C) -> C,
>(
    before: SimulatorView<C>,
    cycle: Cycle<C>,
    plus: P,
    improves: G,
    max_swaps: usize,
    key: K,
    fade: E,
    deposit: L,
    origin: spec_fn(C) -> bool,
) -> bool {
    &&& before.cur_cycle + 1 < MAX_CYCLES
    &&& before.tours(cycle.toured, plus, improves, max_swaps, origin)
    &&& cycle.toured.keyed(key, cycle.keys)
    &&& if goes_on(cycle) {
        cycle.toured.judge(cycle.keys).settles(cycle.after, plus, key, fade, deposit)
    } else {
        cycle.after == cycle.toured.judge(cycle.keys)
    }
}

/// The simulator before the cycle `i` of a run that began with `start`.
pub open spec fn before_cycle<C>(
    start: SimulatorView<C>,
    cycles: Seq<Cycle<C>>,
    i: int,
) -> SimulatorView<C> {
    if i <= 0 {
        start
    } else {
        cycles[i - 1].after
    }
}

/// Whether `end` is the simulator after a run that began with `start` and
/// had the given cycles: each cycle follows the one before it, the run goes
/// on after each but the last, and it ends after the last cycle, where the
/// run does not go on after it, or else at the beginning of the cycle whose
/// number is `MAX_CYCLES` or more.
pub open spec fn ran<
    C,
    P: Fn(C, C) -> C,
    G: Fn(C, C, C, C) -> bool,
    K: Fn(C) -> u64,
    E: Fn(C, usize, C) -> C,
    L: Fn(usize, C, C) -> C,
>(
    start: SimulatorView<C>,
    cycles: Seq<Cycle<C>>,
    end: SimulatorView<C>,
    plus: P,
    improves: G,
    max_swaps: usize,
    key: K,
    fade: E,
    deposit: L,
    origin: spec_fn(C) -> bool,
) -> bool {
    &&& forall|i: int|
        0 <= i < cycles.len() ==> cycled(
            before_cycle(start, cycles, i),
            #[trigger] cycles[i],
            plus,
            improves,
            max_swaps,
            key,
            fade,
            deposit,
            origin,
        )
    &&& forall|i: int| 0 <= i < cycles.len() - 1 ==> goes_on(#[trigger] cycles[i])
    &&& if cycles.len() > 0 && !goes_on(cycles.last()) {
        end == cycles.last().after
    } else {
        end == before_cycle(start, cycles, cycles.len() as int).tick() && end.cur_cycle
            >= MAX_CYCLES
    }
}

/// Whether `now` is the simulator of a run that began with `start`, has
/// had the given cycles and goes on: each cycle follows the one before it,
/// and the run goes on after each.
pub open spec fn running<
    C,
    P: Fn(C, C) -> C,
    G: Fn(C, C, C, C) -> bool,
    K: Fn(C) -> u64,
    E: Fn(C, usize, C) -> C,
    L: Fn(usize, C, C) -> C,
>(
    start: SimulatorView<C>,
    cycles: Seq<Cycle<C>>,
    now: SimulatorView<C>,
    plus: P,
    improves: G,
    max_swaps: usize,
    key: K,
    fade: E,
    deposit: L,
    origin: spec_fn(C) -> bool,
) -> bool {
    &&& forall|i: int|
        0 <= i < cycles.len() ==> cycled(
            before_cycle(start, cycles, i),
            #[trigger] cycles[i],
            plus,
            improves,
            max_swaps,
            key,
            fade,
            deposit,
            origin,
        )
    &&& forall|i: int| 0 <= i < cycles.len() ==> goes_on(#[trigger] cycles[i])
    &&& now == before_cycle(start, cycles, cycles.len() as int)
}

/// A run that goes on has one cycle more after a cycle that follows, and
/// still goes on where it goes on after that cycle. Where it does not, it
/// has ended.
pub proof fn lemma_running_on<
    C,
    P: Fn(C, C) -> C,
    G: Fn(C, C, C, C) -> bool,
    K: Fn(C) -> u64,
    E: Fn(C, usize, C) -> C,
    L: Fn(usize, C, C) -> C,
>(
    start: SimulatorView<C>,
    cycles: Seq<Cycle<C>>,
    now: SimulatorView<C>,
    next: Cycle<C>,
    plus: P,
    improves: G,
    max_swaps: usize,
    key: K,
    fade: E,
    deposit: L,
    origin: spec_fn(C) -> bool,
)
    requires
        running(start, cycles, now, plus, improves, max_swaps, key, fade, deposit, origin),
        cycled(now, next, plus, improves, max_swaps, key, fade, deposit, origin),
    ensures
        goes_on(next) ==> running(start, cycles.push(next), next.after, plus, improves, max_swaps, key, fade, deposit, origin),
        !goes_on(next) ==> ran(start, cycles.push(next), next.after, plus, improves, max_swaps, key, fade, deposit, origin),
{
    let more = cycles.push(next);
    assert forall|i: int| 0 <= i < more.len() implies cycled(
        before_cycle(start, more, i),
        #[trigger] more[i],
        plus,
        improves,
        max_swaps,
        key,
        fade,
        deposit,
        origin,
    ) by {
        if i < cycles.len() {
            assert(more[i] == cycles[i]);
            assert(before_cycle(start, more, i) == before_cycle(start, cycles, i));
        } else {
            assert(before_cycle(start, more, i) == now);
        }
    }
    assert forall|i: int| 0 <= i < more.len() - 1 implies goes_on(#[trigger] more[i]) by {
        assert(more[i] == cycles[i]);
    }
    assert(more.last() == next);
}

/// A run that goes on ends at the beginning of the cycle whose number is
/// `MAX_CYCLES` or more.
pub proof fn lemma_running_out<
    C,
    P: Fn(C, C) -> C,
    G: Fn(C, C, C, C) -> bool,
    K: Fn(C) -> u64,
    E: Fn(C, usize, C) -> C,
    L: Fn(usize, C, C) -> C,
>(
    start: SimulatorView<C>,
    cycles: Seq<Cycle<C>>,
    now: SimulatorView<C>,
    plus: P,
    improves: G,
    max_swaps: usize,
    key: K,
    fade: E,
    deposit: L,
    origin: spec_fn(C) -> bool,
)
    requires
        running(start, cycles, now, plus, improves, max_swaps, key, fade, deposit, origin),
        now.cur_cycle + 1 >= MAX_CYCLES,
    ensures
        ran(start, cycles, now.tick(), plus, improves, max_swaps, key, fade, deposit, origin),
{
}

/// What a cycle of a run does to the counts and to the best tour: the
/// cycle `i` has the number of the cycle that the run began after and
/// `i + 1` more, the count of cycles without improvement begins again with
/// it where one of its tours is shorter than the best tour so far, and goes
/// up by one else, and the best tour after it is no longer than the one
/// before it and no longer than any tour of the cycle.
pub proof fn lemma_ran_cycle<
    C,
    P: Fn(C, C) -> C,
    G: Fn(C, C, C, C) -> bool,
    K: Fn(C) -> u64,
    E: Fn(C, usize, C) -> C,
    L: Fn(usize, C, C) -> C,
>(
    start: SimulatorView<C>,
    cycles: Seq<Cycle<C>>,
    end: SimulatorView<C>,
    plus: P,
    improves: G,
    max_swaps: usize,
    key: K,
    fade: E,
    deposit: L,
    origin: spec_fn(C) -> bool,
    i: int,
)
    requires
        ran(start, cycles, end, plus, improves, max_swaps, key, fade, deposit, origin),
        0 <= i < cycles.len(),
    ensures
        before_cycle(start, cycles, i).cur_cycle == start.cur_cycle + i,
        cycles[i].toured.cur_cycle == start.cur_cycle + i + 1,
        cycles[i].toured.cur_cycle < MAX_CYCLES,
        cycles[i].after.cur_cycle == start.cur_cycle + i + 1,
        cycles[i].after.cycles_since_improvement == if cycles[i].toured.improves(cycles[i].keys) {
            0
        } else {
            before_cycle(start, cycles, i).cycles_since_improvement + 1
        },
        goes_on(cycles[i]) <==> cycles[i].after.cycles_since_improvement <= MAX_CYCLES / 2,
        cycles[i].after.best_tour_key <= before_cycle(start, cycles, i).best_tour_key,
        forall|a: int|
            0 <= a < cycles[i].keys.len() ==> cycles[i].after.best_tour_key
                <= #[trigger] cycles[i].keys[a],
    decreases i,
{
    let cycle = cycles[i];
    let before = before_cycle(start, cycles, i);
    assert(cycled(before, cycle, plus, improves, max_swaps, key, fade, deposit, origin));
    if i > 0 {
        lemma_ran_cycle(
            start,
            cycles,
            end,
            plus,
            improves,
            max_swaps,
            key,
            fade,
            deposit,
            origin,
            i - 1,
        );
    }
    lemma_judge_improves(cycle.toured, cycle.keys);
}

/// The best tour of a run is no longer than any tour of any of its cycles,
/// by the keys of the lengths.
pub proof fn lemma_ran_best<
    C,
    P: Fn(C, C) -> C,
    G: Fn(C, C, C, C) -> bool,
    K: Fn(C) -> u64,
    E: Fn(C, usize, C) -> C,
    L: Fn(usize, C, C) -> C,
>(
    start: SimulatorView<C>,
    cycles: Seq<Cycle<C>>,
    end: SimulatorView<C>,
    plus: P,
    improves: G,
    max_swaps: usize,
    key: K,
    fade: E,
    deposit: L,
    origin: spec_fn(C) -> bool,
    i: int,
    a: int,
)
    requires
        ran(start, cycles, end, plus, improves, max_swaps, key, fade, deposit, origin),
        0 <= i < cycles.len(),
        0 <= a < cycles[i].keys.len(),
    ensures
        end.best_tour_key <= cycles[i].keys[a],
{
    lemma_ran_later(
        start,
        cycles,
        end,
        plus,
        improves,
        max_swaps,
        key,
        fade,
        deposit,
        origin,
        i,
        cycles.len() - 1,
    );
    lemma_ran_cycle(start, cycles, end, plus, improves, max_swaps, key, fade, deposit, origin, i);
}

/// The best tour after a cycle of a run is no longer than the best tour
/// after a cycle before it.
pub proof fn lemma_ran_later<
    C,
    P: Fn(C, C) -> C,
    G: Fn(C, C, C, C) -> bool,
    K: Fn(C) -> u64,
    E: Fn(C, usize, C) -> C,
    L: Fn(usize, C, C) -> C,
>(
    start: SimulatorView<C>,
    cycles: Seq<Cycle<C>>,
    end: SimulatorView<C>,
    plus: P,
    improves: G,
    max_swaps: usize,
    key: K,
    fade: E,
    deposit: L,
    origin: spec_fn(C) -> bool,
    i: int,
    j: int,
)
    requires
        ran(start, cycles, end, plus, improves, max_swaps, key, fade, deposit, origin),
        0 <= i <= j < cycles.len(),
    ensures
        cycles[j].after.best_tour_key <= cycles[i].after.best_tour_key,
    decreases j - i,
{
    if i < j {
        lemma_ran_later(
            start,
            cycles,
            end,
            plus,
            improves,
            max_swaps,
            key,
            fade,
            deposit,
            origin,
            i,
            j - 1,
        );
        lemma_ran_cycle(
            start,
            cycles,
            end,
            plus,
            improves,
            max_swaps,
            key,
            fade,
            deposit,
            origin,
            j,
        );
    }
}

/// The count of cycles without improvement is the number of the cycles
/// since the last one with an improvement: after a cycle of a run that
/// comes after a cycle with a tour shorter than the best tour before it,
/// with no such cycle between the two, the count is the number of the
/// cycles from the one to the other, and so is the difference of their
/// numbers.
pub proof fn lemma_ran_since<
    C,
    P: Fn(C, C) -> C,
    G: Fn(C, C, C, C) -> bool,
    K: Fn(C) -> u64,
    E: Fn(C, usize, C) -> C,
    L: Fn(usize, C, C) -> C,
>(
    start: SimulatorView<C>,
    cycles: Seq<Cycle<C>>,
    end: SimulatorView<C>,
    plus: P,
    improves: G,
    max_swaps: usize,
    key: K,
    fade: E,
    deposit: L,
    origin: spec_fn(C) -> bool,
    i: int,
    j: int,
)
    requires
        ran(start, cycles, end, plus, improves, max_swaps, key, fade, deposit, origin),
        0 <= i <= j < cycles.len(),
        cycles[i].toured.improves(cycles[i].keys),
        forall|k: int| i < k <= j ==> !(#[trigger] cycles[k]).toured.improves(cycles[k].keys),
    ensures
        cycles[j].after.cycles_since_improvement == j - i,
        cycles[j].after.cur_cycle == cycles[i].after.cur_cycle + (j - i),
    decreases j - i,
{
    lemma_ran_cycle(start, cycles, end, plus, improves, max_swaps, key, fade, deposit, origin, i);
    lemma_ran_cycle(start, cycles, end, plus, improves, max_swaps, key, fade, deposit, origin, j);
    if i < j {
        lemma_ran_since(
            start,
            cycles,
            end,
            plus,
            improves,
            max_swaps,
            key,
            fade,
            deposit,
            origin,
            i,
            j - 1,
        );
        assert(!cycles[j].toured.improves(cycles[j].keys));
    }
}

/// A run stops with the first cycle that leaves the count of cycles
/// without improvement over its limit, and else at the cycle whose number
/// is `MAX_CYCLES`: after each cycle but the last the count is within the
/// limit; where the run does not go on after the last cycle, the count is
/// over the limit and the number of the cycle is under `MAX_CYCLES`; and
/// the number of the cycle at the end is that of the beginning and the
/// number of the cycles more, and one more where the run went on after the
/// last of them.
pub proof fn lemma_ran_stops<
    C,
    P: Fn(C, C) -> C,
    G: Fn(C, C, C, C) -> bool,
    K: Fn(C) -> u64,
    E: Fn(C, usize, C) -> C,
    L: Fn(usize, C, C) -> C,
>(
    start: SimulatorView<C>,
    cycles: Seq<Cycle<C>>,
    end: SimulatorView<C>,
    plus: P,
    improves: G,
    max_swaps: usize,
    key: K,
    fade: E,
    deposit: L,
    origin: spec_fn(C) -> bool,
)
    requires
        ran(start, cycles, end, plus, improves, max_swaps, key, fade, deposit, origin),
    ensures
        forall|i: int|
            0 <= i < cycles.len() - 1 ==> (#[trigger] cycles[i]).after.cycles_since_improvement
                <= MAX_CYCLES / 2,
        cycles.len() > 0 && !goes_on(cycles.last()) ==> {
            &&& end.cycles_since_improvement > MAX_CYCLES / 2
            &&& end.cur_cycle == start.cur_cycle + cycles.len()
            &&& end.cur_cycle < MAX_CYCLES
        },
        cycles.len() == 0 || goes_on(cycles.last()) ==> {
            &&& end.cur_cycle == start.cur_cycle + cycles.len() + 1
            &&& end.cur_cycle >= MAX_CYCLES
        },
{
    assert forall|i: int| 0 <= i < cycles.len() - 1 implies (
    #[trigger] cycles[i]).after.cycles_since_improvement <= MAX_CYCLES / 2 by {
        lemma_ran_cycle(
            start,
            cycles,
            end,
            plus,
            improves,
            max_swaps,
            key,
            fade,
            deposit,
            origin,
            i,
        );
        assert(goes_on(cycles[i]));
    }
    if cycles.len() > 0 {
        lemma_ran_cycle(
            start,
            cycles,
            end,
            plus,
            improves,
            max_swaps,
            key,
            fade,
            deposit,
            origin,
            cycles.len() - 1,
        );
    }
}

/// A run ends: the count of cycles goes up by one with each cycle that
/// begins, and no cycle begins once it is `MAX_CYCLES`. So a run has fewer
/// cycles than `MAX_CYCLES`.
pub proof fn lemma_run_ends<C>(simulator: SimulatorView<C>, cycles: nat)
    ensures
        simulator.ticks(cycles).cur_cycle == simulator.cur_cycle + cycles,
        cycles >= simulator.cycles_left() ==> !(simulator.ticks(cycles).cur_cycle < MAX_CYCLES),
    decreases cycles,
{
    if cycles > 0 {
        lemma_run_ends(simulator.tick(), (cycles - 1) as nat);
    }
}

/// The best tour never gets longer, and when it gets shorter the count of
/// cycles without improvement begins again.
pub proof fn lemma_judge_improves<C>(simulator: SimulatorView<C>, keys: Seq<u64>)
    ensures
        simulator.judge(keys).best_tour_key <= simulator.best_tour_key,
        simulator.judge(keys).best_tour_key < simulator.best_tour_key ==> simulator.judge(
            keys,
        ).cycles_since_improvement == 0,
        simulator.judge(keys).best_tour_key == simulator.best_tour_key ==> simulator.judge(
            keys,
        ).best_tour == simulator.best_tour && simulator.judge(keys).best_tour_cost
            == simulator.best_tour_cost && simulator.judge(keys).cycles_since_improvement
            == simulator.cycles_since_improvement + 1,
        forall|a: int|
            0 <= a < keys.len() ==> simulator.judge(keys).best_tour_key <= #[trigger] keys[a],
{
    if keys.len() > 0 {
        lemma_first_least(keys);
    }
}

/// A colony is at a halt where what holds of a halt holds of one of its ants.
pub proof fn lemma_halted<
    C,
    W: Fn(C, C, C, C) -> C,
    F: Fn(C, C) -> C,
    D: Fn(Vec<Option<C>>, C) -> Option<usize>,
>(
    simulator: SimulatorView<C>,
    ant: int,
    weight: W,
    plus: F,
    draw: D,
    sums: Vec<Option<C>>,
    total: C,
    answer: Option<usize>,
)
    requires
        0 <= ant < simulator.ants.len(),
        forall|b: int| 0 <= b < ant ==> #[trigger] simulator.toured(b, plus),
        forall|b: int| ant < b < simulator.ants.len() ==> #[trigger] simulator.unwalked(b),
        !simulator.ants[ant].done(),
        simulator.offers(ant, weight, plus, sums@, total),
        draw.ensures((sums, total), answer),
        refused(sums@, answer),
    ensures
        simulator.halted(weight, plus, draw),
{
}

/// A colony comes to no halt where `draw` names a node that the ant can go
/// to wherever there is one: an ant that has not reached every node has a
/// node with a sum.
pub proof fn lemma_willing_draw<
    C,
    W: Fn(C, C, C, C) -> C,
    F: Fn(C, C) -> C,
    D: Fn(Vec<Option<C>>, C) -> Option<usize>,
>(simulator: SimulatorView<C>, weight: W, plus: F, draw: D)
    requires
        simulator.wf(),
        willing(draw),
    ensures
        !simulator.halted(weight, plus, draw),
{
    if simulator.halted(weight, plus, draw) {
        let (ant, sums, total, answer) = choose|
            ant: int,
            sums: Vec<Option<C>>,
            total: C,
            answer: Option<usize>,
        |
            #![trigger simulator.offers(ant, weight, plus, sums@, total), draw.ensures((sums, total), answer)]
            {
                &&& 0 <= ant < simulator.ants.len()
                &&& forall|b: int| 0 <= b < ant ==> #[trigger] simulator.toured(b, plus)
                &&& forall|b: int| ant < b < simulator.ants.len() ==> #[trigger] simulator.unwalked(b)
                &&& !simulator.ants[ant].done()
                &&& simulator.offers(ant, weight, plus, sums@, total)
                &&& draw.ensures((sums, total), answer)
                &&& refused(sums@, answer)
            };
        let marks = simulator.ants[ant].visited;
        assert(simulator.ants[ant].wf());
        if exists|node: int| 0 <= node < sums@.len() && (#[trigger] sums@[node]).is_some() {
            assert(!refused(sums@, answer));
        } else {
            assert forall|i: int| 0 <= i < marks.len() implies #[trigger] marks[i] by {
                assert(!sums@[i].is_some());
            }
            lemma_count_all(marks);
        }
    }
}

/// The tour of an ant that has its tour serves the problem.
pub proof fn lemma_toured_serves<C, F: Fn(C, C) -> C>(simulator: SimulatorView<C>, ant: int, plus: F)
    requires
        simulator.wf(),
        0 <= ant < simulator.ants.len(),
        simulator.toured(ant, plus),
    ensures
        simulator.serves(simulator.ants[ant].path),
{
    lemma_done_covers(simulator.ants[ant]);
}

/// In a problem with the depot and one customer, a tour that serves the
/// problem and that the exchange of two edges has made of a walk is the way
/// to the customer and back.
pub proof fn lemma_two_nodes<C, G: Fn(C, C, C, C) -> bool>(
    simulator: SimulatorView<C>,
    tour: Seq<usize>,
    improves: G,
    max_swaps: usize,
)
    requires
        simulator.num_nodes == 2,
        simulator.serves(tour),
        simulator.refined(tour, improves, max_swaps),
    ensures
        tour == seq![0usize, 1usize, 0usize],
{
    let (walk, end, steps, swaps) = choose|
        walk: Seq<usize>,
        end: SearchView,
        steps: nat,
        swaps: int,
    |
        {
            &&& #[trigger] leads_to(
                improves,
                simulator.distances,
                TwoOptStrategy.begin(walk),
                end,
                steps,
                swaps,
            )
            &&& walk.len() > 0
            &&& walk[0] == 0
            &&& walk.last() == 0
            &&& feasible(walk, simulator.demands, simulator.capacity)
            &&& stops(improves, simulator.distances, end, swaps, max_swaps)
            &&& tour == end.tour()
        };
    lemma_routes_exist(walk);
    lemma_routes_depot_free(walk);
    let routes = routes_of(walk).drop_last();
    assert forall|r: int| 0 <= r < routes.len() implies depot_free(#[trigger] routes[r]) by {
        assert(routes[r] == routes_of(walk)[r]);
    }
    lemma_framed_routes(routes, Seq::empty(), 0);
    let start = SearchView::start(multiple_paths(walk));
    lemma_next_open(multiple_paths(walk), 0);
    lemma_leads_to_keeps(improves, simulator.distances, start, end, steps, swaps, Seq::empty(), 0);
    assert(count(tour, 1) == 1);
    lemma_one_customer(end.routes);
}

/// Where the tour of every ant serves the problem, the best tour does after
/// the tours have been looked at, if it did before.
pub proof fn lemma_judge_serves<C>(simulator: SimulatorView<C>, keys: Seq<u64>)
    requires
        keys.len() == simulator.ants.len(),
        simulator.best_serves(),
        forall|a: int|
            0 <= a < simulator.ants.len() ==> simulator.serves(#[trigger] simulator.ants[a].path),
    ensures
        simulator.judge(keys).best_serves(),
{
    if keys.len() > 0 {
        lemma_first_least(keys);
    }
}

/// What the exchange of two edges has made of a walk depends on the
/// problem alone, not on the ants or the trails.
pub proof fn lemma_refined_elsewhere<C, G: Fn(C, C, C, C) -> bool>(
    before: SimulatorView<C>,
    after: SimulatorView<C>,
    tour: Seq<usize>,
    improves: G,
    max_swaps: usize,
)
    requires
        before.refined(tour, improves, max_swaps),
        after.num_nodes == before.num_nodes,
        after.capacity == before.capacity,
        after.demands == before.demands,
        after.distances == before.distances,
    ensures
        after.refined(tour, improves, max_swaps),
{
    if before.num_nodes > 1 {
        let (walk, end, steps, swaps) = choose|
            walk: Seq<usize>,
            end: SearchView,
            steps: nat,
            swaps: int,
        |
            {
                &&& #[trigger] leads_to(
                    improves,
                    before.distances,
                    TwoOptStrategy.begin(walk),
                    end,
                    steps,
                    swaps,
                )
                &&& walk.len() > 0
                &&& walk[0] == 0
                &&& walk.last() == 0
                &&& feasible(walk, before.demands, before.capacity)
                &&& stops(improves, before.distances, end, swaps, max_swaps)
                &&& tour == end.tour()
            };
        assert(leads_to(
            improves,
            after.distances,
            TwoOptStrategy.begin(walk),
            end,
            steps,
            swaps,
        ));
    }
}

/// Whether the best tour is one that an ant has made depends on the
/// problem and the best tour alone, not on the ants or the trails.
pub proof fn lemma_best_elsewhere<
    C,
    F: Fn(C, C) -> C,
    G: Fn(C, C, C, C) -> bool,
    K: Fn(C) -> u64,
>(
    before: SimulatorView<C>,
    after: SimulatorView<C>,
    plus: F,
    improves: G,
    max_swaps: usize,
    key: K,
    origin: spec_fn(C) -> bool,
)
    requires
        after.num_nodes == before.num_nodes,
        after.capacity == before.capacity,
        after.demands == before.demands,
        after.distances == before.distances,
        after.best_tour == before.best_tour,
        after.best_tour_cost == before.best_tour_cost,
        after.best_tour_key == before.best_tour_key,
    ensures
        before.best_found(plus, improves, max_swaps, key, origin) ==> after.best_found(
            plus,
            improves,
            max_swaps,
            key,
            origin,
        ),
        before.best_serves() ==> after.best_serves(),
{
    if before.best_found(plus, improves, max_swaps, key, origin) {
        lemma_refined_elsewhere(before, after, before.best_tour, improves, max_swaps);
        let from = choose|from: C|
            origin(from) && #[trigger] measured(
                plus,
                before.distances,
                before.best_tour,
                from,
                before.best_tour_cost.unwrap(),
            );
        assert(measured(
            plus,
            after.distances,
            after.best_tour,
            from,
            after.best_tour_cost.unwrap(),
        ));
    }
}

/// Whether every ant has its tour, and whether none is shorter than the
/// best tour, depends on the problem, the ants and the key of the best tour
/// alone.
pub proof fn lemma_colony_elsewhere<
    C,
    F: Fn(C, C) -> C,
    G: Fn(C, C, C, C) -> bool,
    K: Fn(C) -> u64,
>(
    before: SimulatorView<C>,
    after: SimulatorView<C>,
    plus: F,
    improves: G,
    max_swaps: usize,
    key: K,
)
    requires
        after.num_nodes == before.num_nodes,
        after.capacity == before.capacity,
        after.demands == before.demands,
        after.distances == before.distances,
        after.ants == before.ants,
        after.costs == before.costs,
        after.origins == before.origins,
    ensures
        before.all_toured(plus, improves, max_swaps) ==> after.all_toured(
            plus,
            improves,
            max_swaps,
        ),
        before.best_of(key) && after.best_tour_key <= before.best_tour_key ==> after.best_of(key),
{
    if before.all_toured(plus, improves, max_swaps) {
        assert forall|a: int| 0 <= a < after.ants.len() implies #[trigger] after.toured(
            a,
            plus,
        ) by {
            assert(before.toured(a, plus));
        }
        assert forall|a: int| 0 <= a < after.ants.len() implies #[trigger] after.optimized(
            a,
            improves,
            max_swaps,
        ) by {
            assert(before.optimized(a, improves, max_swaps));
            lemma_refined_elsewhere(before, after, after.ants[a].path, improves, max_swaps);
        }
    }
    if before.best_of(key) && after.best_tour_key <= before.best_tour_key {
        let seen = choose|seen: Seq<u64>|
            #[trigger] before.keyed(key, seen) && forall|a: int|
                0 <= a < seen.len() ==> before.best_tour_key <= #[trigger] seen[a];
        assert(after.keyed(key, seen));
    }
}

/// Ants that change places keep their tours: where every ant had its tour
/// before the colony was put in a new order, every ant has it after, and
/// where no tour was shorter than the best tour, none is.
pub proof fn lemma_arranged_keeps<
    C,
    F: Fn(C, C) -> C,
    G: Fn(C, C, C, C) -> bool,
    K: Fn(C) -> u64,
>(
    before: SimulatorView<C>,
    after: SimulatorView<C>,
    keys: Seq<u64>,
    order: Seq<int>,
    plus: F,
    improves: G,
    max_swaps: usize,
    key: K,
)
    requires
        keys.len() == before.ants.len(),
        before.costs.len() == before.ants.len(),
        sorts(keys, order),
        after == (SimulatorView {
            trails: after.trails,
            ants: arranged(before.ants, order),
            costs: arranged(before.costs, order),
            origins: arranged(before.origins, order),
            ..before
        }),
    ensures
        before.all_toured(plus, improves, max_swaps) ==> after.all_toured(
            plus,
            improves,
            max_swaps,
        ),
        before.best_of(key) ==> after.best_of(key),
{
    if before.all_toured(plus, improves, max_swaps) {
        assert forall|a: int| 0 <= a < after.ants.len() implies #[trigger] after.toured(
            a,
            plus,
        ) by {
            assert(0 <= order[a] < before.ants.len());
            assert(before.toured(order[a], plus));
        }
        assert forall|a: int| 0 <= a < after.ants.len() implies #[trigger] after.optimized(
            a,
            improves,
            max_swaps,
        ) by {
            assert(0 <= order[a] < before.ants.len());
            assert(before.optimized(order[a], improves, max_swaps));
            assert(after.ants[a] == before.ants[order[a]]);
            lemma_refined_elsewhere(before, after, after.ants[a].path, improves, max_swaps);
        }
    }
    if before.best_of(key) {
        let judged = choose|judged: Seq<u64>|
            #[trigger] before.keyed(key, judged) && forall|a: int|
                0 <= a < judged.len() ==> before.best_tour_key <= #[trigger] judged[a];
        let now = arranged(judged, order);
        assert forall|a: int| 0 <= a < now.len() implies key.ensures(
            (after.costs[a],),
            #[trigger] now[a],
        ) && after.best_tour_key <= now[a] by {
            assert(0 <= order[a] < before.ants.len());
            assert(now[a] == judged[order[a]]);
        }
        assert(after.keyed(key, now));
    }
}

/// What the look at the tours of a cycle leaves: where every ant has its
/// tour, no tour is shorter than the best tour, and a best tour that is new
/// is one that an ant has made.
pub proof fn lemma_judge_finds<
    C,
    F: Fn(C, C) -> C,
    G: Fn(C, C, C, C) -> bool,
    K: Fn(C) -> u64,
>(
    simulator: SimulatorView<C>,
    keys: Seq<u64>,
    plus: F,
    improves: G,
    max_swaps: usize,
    key: K,
    origin: spec_fn(C) -> bool,
)
    requires
        simulator.wf(),
        simulator.keyed(key, keys),
        simulator.all_toured(plus, improves, max_swaps),
        forall|a: int| 0 <= a < simulator.origins.len() ==> origin(#[trigger] simulator.origins[a]),
    ensures
        simulator.judge(keys).best_of(key),
        simulator.judge(keys).best_tour_key < simulator.best_tour_key ==> simulator.judge(
            keys,
        ).best_found(plus, improves, max_swaps, key, origin),
{
    let judged = simulator.judge(keys);
    lemma_first_least(keys);
    lemma_judge_improves(simulator, keys);
    assert(judged.keyed(key, keys));
    if judged.best_tour_key < simulator.best_tour_key {
        let first = first_least(keys);
        assert(simulator.toured(first, plus));
        assert(simulator.optimized(first, improves, max_swaps));
        lemma_toured_serves(simulator, first, plus);
        assert(origin(simulator.origins[first]));
        assert(measured(
            plus,
            judged.distances,
            judged.best_tour,
            simulator.origins[first],
            judged.best_tour_cost.unwrap(),
        ));
    }
}

/// An ant that stands at the depot and has gone nowhere keeps to what a
/// vehicle can carry, and the length of its walk is what the walk measures.
pub proof fn lemma_fresh_ant<C, F: Fn(C, C) -> C>(simulator: SimulatorView<C>, ant: int, plus: F)
    requires
        simulator.wf(),
        0 <= ant < simulator.ants.len(),
        simulator.ants[ant] == AntView::start(simulator.num_nodes, simulator.capacity),
        simulator.costs[ant] == simulator.origins[ant],
    ensures
        simulator.ants[ant].respects(simulator.demands),
        simulator.consistent(ant, plus),
{
    let path = simulator.ants[ant].path;
    assert(path.drop_last().len() == 0);
    assert(routes_of(path.drop_last()).len() == 0);
    assert(routes_of(path).len() == 1 && routes_of(path)[0].len() == 0);
}

/// The simulation of a colony of ants on a routing problem: the distances,
/// the ants, the trails, the count of cycles, and the best tour that was
/// found.
pub struct Simulator<C> {
    adjacency_matrix: Matrix<C>,
    demands: Vec<usize>,
    capacity: usize,
    ants: Vec<Ant<C>>,
    pheromones: Matrix<C>,
    cur_cycle: usize,
    cycles_since_improvement: usize,
    best_tour_cost: Option<C>,
    best_tour_key: u64,
    best_tour: Vec<usize>,
}

impl<C> View for Simulator<C> {
    type V = SimulatorView<C>;

    closed spec fn view(&self) -> SimulatorView<C> {
        SimulatorView {
            num_nodes: self.demands@.len(),
            capacity: self.capacity as nat,
            demands: self.demands@,
            distances: self.adjacency_matrix@,
            trails: self.pheromones@,
            ants: Seq::new(self.ants@.len(), |a: int| self.ants@[a]@),
            costs: Seq::new(self.ants@.len(), |a: int| self.ants@[a].cost()),
            origins: Seq::new(self.ants@.len(), |a: int| self.ants@[a].origin()),
            cur_cycle: self.cur_cycle as nat,
            cycles_since_improvement: self.cycles_since_improvement as nat,
            best_tour_cost: self.best_tour_cost,
            best_tour_key: self.best_tour_key,
            best_tour: self.best_tour@,
        }
    }
}

impl<C> Simulator<C> {
    /// Whether the two fields of the simulator hold their cells.
    pub closed spec fn sound(&self) -> bool {
        self.adjacency_matrix.wf() && self.pheromones.wf()
    }

    /// What holds of every simulator.
    pub open spec fn wf(&self) -> bool {
        self@.wf() && self.sound()
    }
}

impl<C: Copy + Default> Simulator<C> {
    /// The simulator of a problem, before the first cycle, with the
    /// distances between the nodes and the trail that is laid between any
    /// two nodes at the beginning.
    pub fn on(problem: Problem, adjacency_matrix: Matrix<C>, trail: C) -> (simulator: Simulator<C>)
        requires
            problem@.feasible(),
            adjacency_matrix.wf(),
            adjacency_matrix@.len() == problem@.dimension,
        ensures
            simulator.wf(),
            simulator@.begins(problem@, adjacency_matrix@, trail),
            forall|a: int|
                0 <= a < simulator@.origins.len() ==> call_ensures(
                    C::default,
                    (),
                    #[trigger] simulator@.origins[a],
                ),
            forall|i: int|
                0 <= i < simulator@.num_nodes ==> call_ensures(
                    C::default,
                    (),
                    #[trigger] simulator@.trails[i][i],
                ),
    {
        let num_nodes = problem.dimension;
        proof {
            adjacency_matrix.lemma_size();
            adjacency_matrix.lemma_square();
        }
        let ants = Self::init_ants(num_nodes, num_nodes, problem.capacity);
        let pheromones = Self::init_pheromones(num_nodes, trail);
        proof {
            pheromones.lemma_square();
        }
        let simulator = Simulator {
            adjacency_matrix,
            demands: problem.demands,
            capacity: problem.capacity,
            ants,
            pheromones,
            cur_cycle: 0,
            cycles_since_improvement: 0,
            best_tour_cost: None,
            best_tour_key: BEST_TOUR_COST,
            best_tour: Vec::new(),
        };
        assert(simulator@.ants =~= colony(
            num_nodes as nat,
            num_nodes as nat,
            problem.capacity as nat,
        ));
        assert(simulator@.costs =~= simulator@.origins);
        simulator
    }

    /// A colony of ants that stand at the depot.
    pub fn init_ants(num_nodes: usize, num_ants: usize, capacity: usize) -> (ants: Vec<Ant<C>>)
        requires
            num_nodes >= 1,
        ensures
            ants@.len() == num_ants,
            forall|a: int|
                0 <= a < num_ants ==> {
                    &&& (#[trigger] ants@[a])@ == AntView::start(num_nodes as nat, capacity as nat)
                    &&& ants@[a]@.wf()
                    &&& ants@[a].cost() == ants@[a].origin()
                    &&& call_ensures(C::default, (), ants@[a].origin())
                },
    {
        let mut ants: Vec<Ant<C>> = Vec::with_capacity(num_ants);
        let mut a: usize = 0;
        while a < num_ants
            invariant
                a <= num_ants,
                num_nodes >= 1,
                ants@.len() == a,
                forall|b: int|
                    0 <= b < a ==> {
                        &&& (#[trigger] ants@[b])@ == AntView::start(
                            num_nodes as nat,
                            capacity as nat,
                        )
                        &&& ants@[b]@.wf()
                        &&& ants@[b].cost() == ants@[b].origin()
                        &&& call_ensures(C::default, (), ants@[b].origin())
                    },
            decreases num_ants - a,
        {
            ants.push(Ant::new(num_nodes, capacity));
            a += 1;
        }
        ants
    }

    /// The field of trails before the first cycle: the same trail between
    /// any two nodes, and none from a node to itself.
    pub fn init_pheromones(n: usize, trail: C) -> (pheromones: Matrix<C>)
        requires
            n * n <= usize::MAX,
        ensures
            pheromones.wf(),
            pheromones@.len() == n,
            forall|i: int, j: int|
                0 <= i < n && 0 <= j < n && i != j ==> (#[trigger] pheromones@[i][j]) == trail,
            forall|i: int|
                0 <= i < n ==> call_ensures(C::default, (), #[trigger] pheromones@[i][i]),
    {
        let mut pheromones: Matrix<C> = Matrix::new(n);
        proof {
            pheromones.lemma_square();
        }
        let mut i: usize = 0;
        while i < n
            invariant
                i <= n,
                pheromones.wf(),
                pheromones@.len() == n,
                forall|k: int| 0 <= k < n ==> (#[trigger] pheromones@[k]).len() == n,
                forall|k: int|
                    0 <= k < n ==> call_ensures(C::default, (), #[trigger] pheromones@[k][k]),
                forall|k: int, l: int|
                    0 <= k < i && k < l < n ==> #[trigger] joined(pheromones@, k, l, trail),
            decreases n - i,
        {
            let mut j: usize = i + 1;
            while j < n
                invariant
                    i < j <= n,
                    pheromones.wf(),
                    pheromones@.len() == n,
                    forall|k: int| 0 <= k < n ==> (#[trigger] pheromones@[k]).len() == n,
                    forall|k: int|
                        0 <= k < n ==> call_ensures(C::default, (), #[trigger] pheromones@[k][k]),
                    forall|k: int, l: int|
                        0 <= k < i && k < l < n ==> #[trigger] joined(pheromones@, k, l, trail),
                    forall|l: int| i < l < j ==> #[trigger] joined(pheromones@, i as int, l, trail),
                decreases n - j,
            {
                let ghost before = pheromones@;
                pheromones.set(i, j, trail);
                pheromones.set(j, i, trail);
                proof {
                    pheromones.lemma_square();
                    assert forall|k: int, l: int| 0 <= k < i && k < l < n implies #[trigger] joined(
                        pheromones@,
                        k,
                        l,
                        trail,
                    ) by {
                        assert(joined(before, k, l, trail));
                    }
                    assert forall|l: int| i < l < j + 1 implies #[trigger] joined(
                        pheromones@,
                        i as int,
                        l,
                        trail,
                    ) by {
                        if l < j {
                            assert(joined(before, i as int, l, trail));
                        }
                    }
                }
                j += 1;
            }
            i += 1;
        }
        assert forall|i: int, j: int| 0 <= i < n && 0 <= j < n && i != j implies (
        #[trigger] pheromones@[i][j]) == trail by {
            if i < j {
                assert(joined(pheromones@, i, j, trail));
            } else {
                assert(joined(pheromones@, j, i, trail));
            }
        }
        pheromones
    }

    /// Puts a fresh colony in place of the ants.
    pub fn reset_ants(&mut self)
        requires
            old(self).wf(),
        ensures
            final(self).wf(),
            final(self)@ == (SimulatorView {
                ants: colony(old(self)@.num_nodes, old(self)@.num_nodes, old(self)@.capacity),
                costs: final(self)@.costs,
                origins: final(self)@.origins,
                ..old(self)@
            }),
            final(self)@.costs == final(self)@.origins,
            forall|a: int|
                0 <= a < final(self)@.origins.len() ==> call_ensures(
                    C::default,
                    (),
                    #[trigger] final(self)@.origins[a],
                ),
    {
        self.ants = Self::init_ants(self.num_nodes(), self.num_nodes(), self.capacity);
        assert(self@.ants =~= colony(
            old(self)@.num_nodes,
            old(self)@.num_nodes,
            old(self)@.capacity,
        ));
        assert(self@.costs =~= self@.origins);
    }
}

impl<C: Copy> Simulator<C> {
    /// The number of nodes of the problem.
    pub fn num_nodes(&self) -> (n: usize)
        ensures
            n == self@.num_nodes,
    {
        self.demands.len()
    }

    /// What one vehicle can carry.
    pub fn capacity(&self) -> (capacity: usize)
        ensures
            capacity == self@.capacity,
    {
        self.capacity
    }

    /// The demand of each node.
    pub fn demands(&self) -> (demands: &Vec<usize>)
        ensures
            demands@ == self@.demands,
    {
        &self.demands
    }

    /// The distance from each node to each node.
    pub fn adjacency_matrix(&self) -> (distances: &Matrix<C>)
        ensures
            distances@ == self@.distances,
            self.sound() ==> distances.wf(),
    {
        &self.adjacency_matrix
    }

    /// The trail from each node to each node.
    pub fn pheromones(&self) -> (trails: &Matrix<C>)
        ensures
            trails@ == self@.trails,
            self.sound() ==> trails.wf(),
    {
        &self.pheromones
    }

    /// The ants of the colony.
    pub fn ants(&self) -> (ants: &Vec<Ant<C>>)
        ensures
            ants@.len() == self@.ants.len(),
            forall|a: int|
                0 <= a < ants@.len() ==> {
                    &&& (#[trigger] ants@[a])@ == self@.ants[a]
                    &&& ants@[a].cost() == self@.costs[a]
                    &&& ants@[a].origin() == self@.origins[a]
                },
    {
        &self.ants
    }

    /// The number of the cycle that the run is in.
    pub fn cur_cycle(&self) -> (cycle: usize)
        ensures
            cycle == self@.cur_cycle,
    {
        self.cur_cycle
    }

    /// The number of cycles since the best tour was found.
    pub fn cycles_since_improvement(&self) -> (cycles: usize)
        ensures
            cycles == self@.cycles_since_improvement,
    {
        self.cycles_since_improvement
    }

    /// The length of the best tour, if there is one.
    pub fn best_tour_cost(&self) -> (cost: Option<C>)
        ensures
            cost == self@.best_tour_cost,
    {
        self.best_tour_cost
    }

    /// The best tour that was found.
    pub fn best_tour(&self) -> (tour: &Vec<usize>)
        ensures
            tour@ == self@.best_tour,
    {
        &self.best_tour
    }

    /// Begins the next cycle, and says whether the run goes on: it ends
    /// with the cycle whose number is `MAX_CYCLES`.
    pub fn should_continue(&mut self) -> (r: bool)
        requires
            old(self).wf(),
            old(self)@.cur_cycle < usize::MAX,
        ensures
            final(self).wf(),
            final(self)@ == old(self)@.tick(),
            r == (final(self)@.cur_cycle < MAX_CYCLES),
            r ==> final(self)@.cycles_left() < old(self)@.cycles_left(),
    {
        self.cur_cycle += 1;
        proof {
            assert(self@.ants =~= old(self)@.ants);
            assert(self@.costs =~= old(self)@.costs);
            assert(self@.origins =~= old(self)@.origins);
        }
        self.cur_cycle < MAX_CYCLES
    }

    /// The weights of the edges that an ant can take: for each node that it
    /// has not reached the sum of the weights up to that node, and the sum
    /// of all the weights. The weight of an edge is what `weight` makes of
    /// the distance from where the ant stands to the depot, the distance
    /// from the depot to the node, the distance from where the ant stands
    /// to the node, and the trail from where the ant stands to the node.
    pub fn distribution<W: Fn(C, C, C, C) -> C, F: Fn(C, C) -> C>(
        &self,
        ant: usize,
        weight: W,
        plus: F,
    ) -> (r: (Vec<Option<C>>, C))
        requires
            self.wf(),
            ant < self@.ants.len(),
            forall|to_depot: C, from_depot: C, to_next: C, trail: C|
                weight.requires((to_depot, from_depot, to_next, trail)),
            forall|so_far: C, share: C| plus.requires((so_far, share)),
        ensures
            r.0@.len() == self@.num_nodes,
            forall|node: int|
                0 <= node < self@.num_nodes ==> match #[trigger] r.0@[node] {
                    Some(sum) => !self@.ants[ant as int].visited[node] && weighed(
                        weight,
                        plus,
                        self@.ants[ant as int],
                        self@.distances,
                        self@.trails,
                        self@.origins[ant as int],
                        node + 1,
                        sum,
                    ),
                    None => self@.ants[ant as int].visited[node],
                },
            weighed(
                weight,
                plus,
                self@.ants[ant as int],
                self@.distances,
                self@.trails,
                self@.origins[ant as int],
                self@.num_nodes as int,
                r.1,
            ),
    {
        assert(self@.ants[ant as int] == self.ants@[ant as int]@);
        assert(self@.origins[ant as int] == self.ants@[ant as int].origin());
        self.ants[ant].distribution(&self.adjacency_matrix, &self.pheromones, weight, plus)
    }

    /// Lets one ant take a step towards the node that it is drawn to, and
    /// has `plus` add the distance of the edge to the length of its walk.
    pub fn move_ant<F: Fn(C, C) -> C>(&mut self, ant: usize, candidate: usize, plus: F)
        requires
            old(self).wf(),
            ant < old(self)@.ants.len(),
            candidate < old(self)@.num_nodes,
            forall|so_far: C, distance: C| plus.requires((so_far, distance)),
        ensures
            final(self).wf(),
            final(self)@ == (SimulatorView {
                ants: old(self)@.ants.update(
                    ant as int,
                    old(self)@.ants[ant as int].step(candidate, old(self)@.demands),
                ),
                costs: old(self)@.costs.update(ant as int, final(self)@.costs[ant as int]),
                ..old(self)@
            }),
            plus.ensures(
                (
                    old(self)@.costs[ant as int],
                    old(self)@.distances[old(self)@.ants[ant as int].cur_node() as int][old(self)@.ants[ant as int].next_node(candidate, old(self)@.demands) as int],
                ),
                final(self)@.costs[ant as int],
            ),
            old(self)@.consistent(ant as int, plus) ==> final(self)@.consistent(ant as int, plus),
    {
        assert(self@.ants[ant as int] == self.ants@[ant as int]@);
        assert(self@.costs[ant as int] == self.ants@[ant as int].cost());
        assert(self@.origins[ant as int] == self.ants@[ant as int].origin());
        self.ants[ant].move_to_next(
            &self.adjacency_matrix,
            candidate,
            self.demands.as_slice(),
            plus,
        );
        proof {
            assert(self@.ants =~= old(self)@.ants.update(
                ant as int,
                old(self)@.ants[ant as int].step(candidate, old(self)@.demands),
            ));
            assert(self@.costs =~= old(self)@.costs.update(ant as int, self@.costs[ant as int]));
            assert(self@.origins =~= old(self)@.origins);
        }
    }

    /// Lets one ant close its tour, and has `plus` add the distance of the
    /// edge to the length of its walk.
    pub fn complete_ant<F: Fn(C, C) -> C>(&mut self, ant: usize, plus: F)
        requires
            old(self).wf(),
            ant < old(self)@.ants.len(),
            forall|so_far: C, distance: C| plus.requires((so_far, distance)),
        ensures
            final(self).wf(),
            final(self)@ == (SimulatorView {
                ants: old(self)@.ants.update(ant as int, old(self)@.ants[ant as int].visit(0)),
                costs: old(self)@.costs.update(ant as int, final(self)@.costs[ant as int]),
                ..old(self)@
            }),
            plus.ensures(
                (
                    old(self)@.costs[ant as int],
                    old(self)@.distances[old(self)@.ants[ant as int].cur_node() as int][0],
                ),
                final(self)@.costs[ant as int],
            ),
            old(self)@.consistent(ant as int, plus) ==> final(self)@.consistent(ant as int, plus),
    {
        assert(self@.ants[ant as int] == self.ants@[ant as int]@);
        assert(self@.costs[ant as int] == self.ants@[ant as int].cost());
        assert(self@.origins[ant as int] == self.ants@[ant as int].origin());
        self.ants[ant].complete(&self.adjacency_matrix, plus);
        proof {
            assert(self@.ants =~= old(self)@.ants.update(
                ant as int,
                old(self)@.ants[ant as int].visit(0),
            ));
            assert(self@.costs =~= old(self)@.costs.update(ant as int, self@.costs[ant as int]));
            assert(self@.origins =~= old(self)@.origins);
        }
    }

    /// Lets a strategy improve the walk of one ant: the strategy begins a
    /// search with the walk, the search goes on until it is done or
    /// `max_swaps` exchanges have been made, and the ant takes the tour of
    /// the search in place of its walk and measures it.
    pub fn optimize_ant<S: OptimizationStrategy, G: Fn(C, C, C, C) -> bool, F: Fn(C, C) -> C>(
        &mut self,
        ant: usize,
        strategy: S,
        improves: G,
        plus: F,
        max_swaps: usize,
    )
        requires
            old(self).wf(),
            ant < old(self)@.ants.len(),
            strategy.takes(old(self)@.ants[ant as int].path),
            forall|removed: C, also_removed: C, new: C, also_new: C|
                improves.requires((removed, also_removed, new, also_new)),
            forall|so_far: C, distance: C| plus.requires((so_far, distance)),
        ensures
            final(self).wf(),
            exists|end: SearchView, steps: nat, swaps: int|
                {
                    &&& #[trigger] leads_to(
                        improves,
                        old(self)@.distances,
                        strategy.begin(old(self)@.ants[ant as int].path),
                        end,
                        steps,
                        swaps,
                    )
                    &&& stops(improves, old(self)@.distances, end, swaps, max_swaps)
                    &&& final(self)@ == (SimulatorView {
                        ants: old(self)@.ants.update(
                            ant as int,
                            (AntView { path: end.tour(), ..old(self)@.ants[ant as int] }),
                        ),
                        costs: old(self)@.costs.update(ant as int, final(self)@.costs[ant as int]),
                        ..old(self)@
                    })
                },
            final(self)@.consistent(ant as int, plus),
    {
        assert(self@.ants[ant as int] == self.ants@[ant as int]@);
        assert(self@.costs[ant as int] == self.ants@[ant as int].cost());
        assert(self@.origins[ant as int] == self.ants@[ant as int].origin());
        self.ants[ant].optimize_path(&self.adjacency_matrix, strategy, improves, plus, max_swaps);
        proof {
            assert(self@.origins =~= old(self)@.origins);
            let tour = self@.ants[ant as int].path;
            assert(self@.ants =~= old(self)@.ants.update(
                ant as int,
                AntView { path: tour, ..old(self)@.ants[ant as int] },
            ));
            assert(self@.costs =~= old(self)@.costs.update(ant as int, self@.costs[ant as int]));
        }
    }

    /// Lets every ant make its tour: the ant walks until it has reached
    /// every node, goes back to the depot, and has its tour improved by the
    /// exchange of two edges. At each step `draw` is given the weights of
    /// the edges that the ant can take, as `distribution` gives them, and
    /// says which node the ant is drawn to. Stops, and says so, where `draw`
    /// says none or one that the ant has reached. Where the depot is the
    /// only node, the walk from the depot to itself is the tour of each ant,
    /// and no exchange is looked for.
    pub fn update_ants<W, F, D, G>(
        &mut self,
        weight: W,
        plus: F,
        draw: D,
        improves: G,
        max_swaps: usize,
    ) -> (walked: bool) where
        W: Fn(C, C, C, C) -> C + Copy,
        F: Fn(C, C) -> C + Copy,
        D: Fn(Vec<Option<C>>, C) -> Option<usize>,
        G: Fn(C, C, C, C) -> bool + Copy,

        requires
            old(self).wf(),
            old(self)@.fresh(),
            forall|to_depot: C, from_depot: C, to_next: C, trail: C|
                weight.requires((to_depot, from_depot, to_next, trail)),
            forall|so_far: C, distance: C| plus.requires((so_far, distance)),
            forall|sums: Vec<Option<C>>, total: C| draw.requires((sums, total)),
            forall|removed: C, also_removed: C, new: C, also_new: C|
                improves.requires((removed, also_removed, new, also_new)),
        ensures
            final(self).wf(),
            final(self)@ == (SimulatorView {
                ants: final(self)@.ants,
                costs: final(self)@.costs,
                ..old(self)@
            }),
            walked ==> forall|a: int|
                0 <= a < final(self)@.ants.len() ==> #[trigger] final(self)@.toured(a, plus),
            walked ==> forall|a: int|
                0 <= a < final(self)@.ants.len() ==> #[trigger] final(self)@.optimized(
                    a,
                    improves,
                    max_swaps,
                ),
            !walked ==> final(self)@.halted(weight, plus, draw),
            willing(draw) ==> walked,
    {
        let ghost begun = self@;
        let nodes = self.demands.len();
        let mut a: usize = 0;
        while a < self.ants.len()
            invariant
                a <= self.ants@.len(),
                nodes == self@.num_nodes,
                self.wf(),
                begun == old(self)@,
                begun.wf(),
                begun.fresh(),
                self@ == (SimulatorView { ants: self@.ants, costs: self@.costs, ..begun }),
                forall|to_depot: C, from_depot: C, to_next: C, trail: C|
                    weight.requires((to_depot, from_depot, to_next, trail)),
                forall|so_far: C, distance: C| plus.requires((so_far, distance)),
                forall|sums: Vec<Option<C>>, total: C| draw.requires((sums, total)),
                forall|removed: C, also_removed: C, new: C, also_new: C|
                    improves.requires((removed, also_removed, new, also_new)),
                forall|b: int| 0 <= b < a ==> #[trigger] self@.toured(b, plus),
                forall|b: int| 0 <= b < a ==> #[trigger] self@.optimized(b, improves, max_swaps),
                forall|b: int| a <= b < self@.ants.len() ==> #[trigger] self@.same_ant(begun, b),
            decreases self.ants@.len() - a,
        {
            proof {
                assert(self@.same_ant(begun, a as int));
                lemma_fresh_ant(self@, a as int, plus);
                lemma_start_direct(begun.num_nodes, begun.capacity);
                assert forall|b: int| a < b < self@.ants.len() implies #[trigger] self@.same_ant(
                    begun,
                    b,
                ) by {
                    assert(self@.same_ant(begun, b));
                }
            }
            loop
                invariant
                    a < self.ants@.len(),
                    nodes == self@.num_nodes,
                    self.wf(),
                    begun == old(self)@,
                    begun.wf(),
                    begun.fresh(),
                    self@ == (SimulatorView { ants: self@.ants, costs: self@.costs, ..begun }),
                    forall|to_depot: C, from_depot: C, to_next: C, trail: C|
                        weight.requires((to_depot, from_depot, to_next, trail)),
                    forall|so_far: C, distance: C| plus.requires((so_far, distance)),
                    forall|sums: Vec<Option<C>>, total: C| draw.requires((sums, total)),
                    self@.ants[a as int].respects(self@.demands),
                    self@.consistent(a as int, plus),
                    direct(self@.ants[a as int]),
                    forall|b: int| 0 <= b < a ==> #[trigger] self@.toured(b, plus),
                    forall|b: int|
                        0 <= b < a ==> #[trigger] self@.optimized(b, improves, max_swaps),
                    forall|b: int|
                        a < b < self@.ants.len() ==> #[trigger] self@.same_ant(begun, b),
                    nodes == 1 ==> self@.same_ant(begun, a as int),
                ensures
                    self@.ants[a as int].done(),
                decreases self@.ants[a as int].steps_left(),
            {
                proof {
                    assert(self@.ants[a as int] == self.ants@[a as int]@);
                }
                if self.ants[a].done() {
                    break ;
                }
                let (sums, total) = self.distribution(a, weight, plus);
                let ghost given = sums;
                let answer = draw(sums, total);
                proof {
                    assert(self@.offers(a as int, weight, plus, given@, total));
                    assert forall|b: int| a < b < self@.ants.len() implies #[trigger] self@.unwalked(
                        b,
                    ) by {
                        assert(self@.same_ant(begun, b));
                        assert(begun.ants[b] == AntView::start(begun.num_nodes, begun.capacity));
                    }
                }
                let candidate = match answer {
                    Some(candidate) => candidate,
                    None => {
                        proof {
                            lemma_halted(self@, a as int, weight, plus, draw, given, total, answer);
                            if willing(draw) {
                                lemma_willing_draw(self@, weight, plus, draw);
                            }
                        }
                        return false;
                    },
                };
                if candidate >= nodes {
                    proof {
                        lemma_halted(self@, a as int, weight, plus, draw, given, total, answer);
                        if willing(draw) {
                            lemma_willing_draw(self@, weight, plus, draw);
                        }
                    }
                    return false;
                }
                proof {
                    assert(self@.ants[a as int] == self.ants@[a as int]@);
                }
                if self.ants[a].visited()[candidate] {
                    proof {
                        assert(given@[candidate as int].is_none());
                        lemma_halted(self@, a as int, weight, plus, draw, given, total, answer);
                        if willing(draw) {
                            lemma_willing_draw(self@, weight, plus, draw);
                        }
                    }
                    return false;
                }
                let ghost before = self@;
                proof {
                    lemma_step_respects(before.ants[a as int], candidate, before.demands);
                    lemma_step_progress(before.ants[a as int], candidate, before.demands);
                }
                self.move_ant(a, candidate, plus);
                proof {
                    let ant = before.ants[a as int];
                    let next = ant.next_node(candidate, before.demands);
                    let laden = AntView {
                        cur_capacity: (ant.refilled() - before.demands[next as int]) as nat,
                        ..ant
                    };
                    assert(direct(laden)) by {
                        assert forall|n: usize| 0 < n < laden.num_nodes implies #[trigger] count(
                            laden.path,
                            n,
                        ) == if laden.visited[n as int] {
                            1nat
                        } else {
                            0nat
                        } by {
                            assert(count(ant.path, n) == if ant.visited[n as int] {
                                1nat
                            } else {
                                0nat
                            });
                        }
                    }
                    lemma_visit_direct(laden, next);
                    assert(self@.ants[a as int] == laden.visit(next));
                    assert forall|b: int| 0 <= b < a implies #[trigger] self@.toured(b, plus) by {
                        assert(before.toured(b, plus));
                        assert(self@.ants[b] == before.ants[b]);
                        assert(self@.costs[b] == before.costs[b]);
                    }
                    assert forall|b: int| a < b < self@.ants.len() implies #[trigger] self@.same_ant(
                        begun,
                        b,
                    ) by {
                        assert(before.same_ant(begun, b));
                    }
                    assert forall|b: int| 0 <= b < a implies #[trigger] self@.optimized(
                        b,
                        improves,
                        max_swaps,
                    ) by {
                        assert(before.optimized(b, improves, max_swaps));
                        assert(self@.ants[b] == before.ants[b]);
                    }
                    if nodes == 1 {
                        assert(before.ants[a as int] == AntView::start(
                            begun.num_nodes,
                            begun.capacity,
                        ));
                    }
                }
            }
            let ghost walked = self@;
            proof {
                lemma_complete_respects(walked.ants[a as int], walked.demands);
            }
            self.complete_ant(a, plus);
            let ghost closed = self@;
            proof {
                lemma_visit_direct(walked.ants[a as int], 0);
                assert(closed.ants[a as int].done()) by {
                    lemma_visit_wf(walked.ants[a as int], 0);
                    assert(walked.ants[a as int].visited[0]) by {
                        assert(walked.ants[a as int].path[0] == 0);
                    }
                    assert(closed.ants[a as int].visited =~= walked.ants[a as int].visited);
                }
            }
            if nodes > 1 {
                proof {
                    let ant = closed.ants[a as int];
                    lemma_count_full(ant.visited);
                    assert(ant.visited[1]);
                    let j = choose|j: int| 0 <= j < ant.path.len() && #[trigger] ant.path[j] == 1;
                    assert(ant.path[j] != 0);
                }
                self.optimize_ant(a, TwoOptStrategy, improves, plus, max_swaps);
                proof {
                    let ant = closed.ants[a as int];
                    let (end, steps, swaps) = choose|end: SearchView, steps: nat, swaps: int|
                        {
                            &&& #[trigger] leads_to(
                                improves,
                                closed.distances,
                                TwoOptStrategy.begin(ant.path),
                                end,
                                steps,
                                swaps,
                            )
                            &&& stops(improves, closed.distances, end, swaps, max_swaps)
                            &&& self@ == (SimulatorView {
                                ants: closed.ants.update(
                                    a as int,
                                    (AntView { path: end.tour(), ..ant }),
                                ),
                                costs: closed.costs.update(a as int, self@.costs[a as int]),
                                ..closed
                            })
                        };
                    lemma_two_opt_keeps_feasible(
                        improves,
                        closed.distances,
                        ant.path,
                        end,
                        steps,
                        swaps,
                        closed.demands,
                        closed.capacity,
                    );
                    lemma_two_opt_closed(improves, closed.distances, ant.path, end, steps, swaps);
                    assert(self@.optimized(a as int, improves, max_swaps));
                    lemma_two_opt_keeps_visits(ant, improves, closed.distances, end, steps, swaps);
                    assert(self@.ants[a as int] == (AntView { path: end.tour(), ..ant }));
                    lemma_done_once(self@.ants[a as int]);
                }
            } else {
                proof {
                    assert(walked.same_ant(begun, a as int));
                    assert(closed.ants[a as int].path =~= seq![0usize, 0usize]);
                }
            }
            proof {
                assert(self@.toured(a as int, plus));
                assert forall|b: int| 0 <= b < a implies #[trigger] self@.toured(b, plus) by {
                    assert(walked.toured(b, plus));
                    assert(closed.ants[b] == walked.ants[b]);
                    assert(closed.costs[b] == walked.costs[b]);
                    assert(self@.ants[b] == closed.ants[b]);
                    assert(self@.costs[b] == closed.costs[b]);
                }
                assert forall|b: int| 0 <= b < a implies #[trigger] self@.optimized(
                    b,
                    improves,
                    max_swaps,
                ) by {
                    assert(walked.optimized(b, improves, max_swaps));
                    assert(closed.ants[b] == walked.ants[b]);
                    assert(self@.ants[b] == closed.ants[b]);
                }
                assert forall|b: int| a + 1 <= b < self@.ants.len() implies #[trigger] self@.same_ant(
                    begun,
                    b,
                ) by {
                    assert(walked.same_ant(begun, b));
                    assert(closed.ants[b] == walked.ants[b]);
                    assert(closed.costs[b] == walked.costs[b]);
                    assert(self@.ants[b] == closed.ants[b]);
                    assert(self@.costs[b] == closed.costs[b]);
                }
            }
            a += 1;
        }
        true
    }

    /// The keys that `key` gives to the lengths of the walks of the ants.
    fn keys<K: Fn(C) -> u64>(&self, key: &K) -> (keys: Vec<u64>)
        requires
            forall|cost: C| key.requires((cost,)),
        ensures
            self@.keyed(*key, keys@),
            keys@.len() == self.ants@.len(),
    {
        let mut keys: Vec<u64> = Vec::with_capacity(self.ants.len());
        let mut a: usize = 0;
        while a < self.ants.len()
            invariant
                a <= self.ants@.len(),
                keys@.len() == a,
                forall|cost: C| key.requires((cost,)),
                forall|b: int|
                    0 <= b < a ==> key.ensures((self.ants@[b].cost(),), #[trigger] keys@[b]),
            decreases self.ants@.len() - a,
        {
            keys.push(key(self.ants[a].path_cost()));
            a += 1;
        }
        proof {
            assert forall|b: int| 0 <= b < keys@.len() implies key.ensures(
                (self@.costs[b],),
                #[trigger] keys@[b],
            ) by {
                assert(self@.costs[b] == self.ants@[b].cost());
            }
        }
        keys
    }

    /// Looks at the tours of a cycle, keeps the first of the shortest if it
    /// is shorter than the best tour so far, and says whether the run goes
    /// on. The lengths are compared by the keys that `key` gives them,
    /// which are numbers that grow with the lengths.
    pub fn try_find_best_tour<K: Fn(C) -> u64>(&mut self, key: K) -> (r: Continue)
        requires
            old(self).wf(),
            old(self)@.cycles_since_improvement < usize::MAX,
            forall|cost: C| key.requires((cost,)),
        ensures
            final(self).wf(),
            exists|keys: Seq<u64>|
                #[trigger] old(self)@.keyed(key, keys) && final(self)@ == old(self)@.judge(keys)
                    && r == old(self)@.verdict(keys),
            final(self)@.best_tour_key <= old(self)@.best_tour_key,
            final(self)@.best_tour_key < old(self)@.best_tour_key
                ==> final(self)@.cycles_since_improvement == 0,
    {
        let costs = self.keys(&key);
        let mut found_better = false;
        let mut a: usize = 0;
        assert(costs@.take(0).len() == 0);
        while a < self.ants.len()
            invariant
                a <= self.ants@.len(),
                costs@.len() == self.ants@.len(),
                self.ants == old(self).ants,
                self.demands == old(self).demands,
                self.capacity == old(self).capacity,
                self.adjacency_matrix == old(self).adjacency_matrix,
                self.pheromones == old(self).pheromones,
                self.cur_cycle == old(self).cur_cycle,
                self.cycles_since_improvement == old(self).cycles_since_improvement,
                found_better == old(self)@.improves(costs@.take(a as int)),
                found_better ==> {
                    &&& 0 <= first_least(costs@.take(a as int)) < a
                    &&& self.best_tour_key == costs@[first_least(costs@.take(a as int))]
                    &&& self.best_tour@ == self.ants@[first_least(costs@.take(a as int))]@.path
                    &&& self.best_tour_cost == Some(
                        self.ants@[first_least(costs@.take(a as int))].cost(),
                    )
                },
                !found_better ==> {
                    &&& self.best_tour_key == old(self).best_tour_key
                    &&& self.best_tour == old(self).best_tour
                    &&& self.best_tour_cost == old(self).best_tour_cost
                },
            decreases self.ants@.len() - a,
        {
            let tour_length = costs[a];
            proof {
                let now = costs@.take(a + 1);
                assert(now.drop_last() =~= costs@.take(a as int));
                assert(now.last() == costs@[a as int]);
                if a > 0 {
                    lemma_first_least(costs@.take(a as int));
                    assert(costs@.take(a as int)[first_least(costs@.take(a as int))]
                        == costs@[first_least(costs@.take(a as int))]);
                }
                lemma_first_least(now);
                assert(now[first_least(now)] == costs@[first_least(now)]);
            }
            if self.best_tour_key > tour_length {
                found_better = true;
                self.best_tour_key = tour_length;
                self.best_tour_cost = Some(self.ants[a].path_cost());
                self.best_tour = self.ants[a].path_taken().clone();
                assert(self.best_tour@ =~= self.ants@[a as int]@.path);
            }
            a += 1;
        }
        proof {
            assert(costs@.take(a as int) =~= costs@);
            assert(self@.ants =~= old(self)@.ants);
            assert(self@.costs =~= old(self)@.costs);
            assert(self@.origins =~= old(self)@.origins);
            if found_better {
                assert(old(self)@.costs[first_least(costs@)] == self.ants@[first_least(
                    costs@,
                )].cost());
            }
        }
        let r = if found_better {
            self.cycles_since_improvement = 0;
            Continue::Yes
        } else {
            self.cycles_since_improvement += 1;
            if self.cycles_since_improvement > MAX_CYCLES / 2 {
                Continue::No
            } else {
                Continue::Yes
            }
        };
        proof {
            assert(self@.ants =~= old(self)@.ants);
            assert(self@.costs =~= old(self)@.costs);
            assert(self@.origins =~= old(self)@.origins);
            lemma_judge_improves(old(self)@, costs@);
            assert(old(self)@.keyed(key, costs@));
            assert(self@ == old(self)@.judge(costs@));
        }
        r
    }

    /// Lets the trails fade: adds up the lengths of the tours of the ants,
    /// and lets the fading come to every cell of the field twice, once at
    /// the place of the cell and once at the place across the diagonal.
    /// What the fading makes of a cell is what `fade` makes of the sum of
    /// the lengths, the number of the ants and the cell.
    pub fn evaporate<P: Fn(C, C) -> C, F: Fn(C, usize, C) -> C>(&mut self, plus: P, fade: F)
        requires
            old(self).wf(),
            forall|so_far: C, cost: C| plus.requires((so_far, cost)),
            forall|s: C, n: usize, v: C| fade.requires((s, n, v)),
        ensures
            final(self).wf(),
            final(self)@ == (SimulatorView { trails: final(self)@.trails, ..old(self)@ }),
            exists|sum: C|
                #[trigger] added(plus, old(self)@.costs, old(self)@.origins[0], sum) && evaporated(
                    fade,
                    sum,
                    old(self)@.ants.len() as usize,
                    old(self)@.trails,
                    final(self)@.trails,
                ),
    {
        let mut sum = self.ants[0].origin_cost();
        let mut a: usize = 0;
        proof {
            assert(self@.origins[0] == self.ants@[0].origin());
            assert(self@.costs.take(0) =~= Seq::<C>::empty());
        }
        while a < self.ants.len()
            invariant
                a <= self.ants@.len(),
                forall|so_far: C, cost: C| plus.requires((so_far, cost)),
                added(plus, self@.costs.take(a as int), self@.origins[0], sum),
            decreases self.ants@.len() - a,
        {
            let ghost before = sum;
            sum = plus(sum, self.ants[a].path_cost());
            proof {
                let now = self@.costs.take(a + 1);
                assert(now.drop_last() =~= self@.costs.take(a as int));
                assert(now.last() == self.ants@[a as int].cost());
                assert(plus.ensures((before, now.last()), sum));
            }
            a += 1;
        }
        proof {
            assert(self@.costs.take(a as int) =~= self@.costs);
        }
        evaporate(&mut self.pheromones, sum, self.ants.len(), &fade);
        proof {
            assert(self@.ants =~= old(self)@.ants);
            assert(self@.costs =~= old(self)@.costs);
            assert(self@.origins =~= old(self)@.origins);
        }
    }

    /// Sorts the ants by the lengths of their tours, the shortest first,
    /// and lets the first three lay their trails, with the weights three,
    /// two and one: `deposit` makes the new trail of each edge of a tour
    /// from the weight of the ant, the length of its tour and the old
    /// trail. The lengths are compared by the keys that `key` gives them.
    pub fn update_pheromones<K: Fn(C) -> u64, D: Fn(usize, C, C) -> C>(&mut self, key: K, deposit: D)
        requires
            old(self).wf(),
            forall|cost: C| key.requires((cost,)),
            forall|w: usize, c: C, v: C| deposit.requires((w, c, v)),
        ensures
            final(self).wf(),
            exists|keys: Seq<u64>, order: Seq<int>|
                #![trigger old(self)@.keyed(key, keys), sorts(keys, order)]
                {
                    &&& old(self)@.keyed(key, keys)
                    &&& sorts(keys, order)
                    &&& final(self)@ == (SimulatorView {
                        trails: final(self)@.trails,
                        ants: arranged(old(self)@.ants, order),
                        costs: arranged(old(self)@.costs, order),
                        origins: arranged(old(self)@.origins, order),
                        ..old(self)@
                    })
                },
            reinforced(
                deposit,
                final(self)@.ants,
                final(self)@.costs,
                podium(final(self)@.ants.len()),
                old(self)@.trails,
                final(self)@.trails,
            ),
    {
        let keys = self.keys(&key);
        let ghost ranking = keys@;
        let order = sort_by_keys(&mut self.ants, keys);
        let ghost sorted = self@;
        proof {
            assert(sorted.ants =~= arranged(old(self)@.ants, order@));
            assert(sorted.costs =~= arranged(old(self)@.costs, order@));
            assert(sorted.origins =~= arranged(old(self)@.origins, order@));
            assert forall|a: int| 0 <= a < sorted.ants.len() implies {
                &&& (#[trigger] sorted.ants[a]).wf()
                &&& sorted.ants[a].num_nodes == sorted.num_nodes
                &&& sorted.ants[a].capacity == sorted.capacity
            } by {
                assert(sorted.ants[a] == old(self)@.ants[order@[a]]);
            }
            assert(podium(sorted.ants.len()).take(0) =~= Seq::<(usize, usize)>::empty());
        }
        let ghost deposits = podium(sorted.ants.len());
        let mut r: usize = 0;
        while r < 3 && r < self.ants.len()
            invariant
                r <= 3,
                r <= self.ants@.len(),
                self.wf(),
                self@ == (SimulatorView { trails: self@.trails, ..sorted }),
                deposits == podium(sorted.ants.len()),
                forall|w: usize, c: C, v: C| deposit.requires((w, c, v)),
                reinforced(
                    deposit,
                    sorted.ants,
                    sorted.costs,
                    deposits.take(r as int),
                    old(self)@.trails,
                    self@.trails,
                ),
            decreases 3 - r,
        {
            let ghost mid = self@.trails;
            proof {
                assert(self@.ants[r as int] == self.ants@[r as int]@);
                assert(self@.costs[r as int] == self.ants@[r as int].cost());
            }
            let cost = self.ants[r].path_cost();
            lay_trail(
                &mut self.pheromones,
                self.ants[r].path_taken().as_slice(),
                3 - r,
                cost,
                &deposit,
            );
            proof {
                self.pheromones.lemma_square();
                assert(self@.ants =~= sorted.ants);
                assert(self@.costs =~= sorted.costs);
                assert(self@.origins =~= sorted.origins);
                let now = deposits.take(r + 1);
                assert(now.drop_last() =~= deposits.take(r as int));
                assert(now.last() == deposits[r as int]);
                assert(trailed(
                    deposit,
                    now.last().1,
                    sorted.costs[now.last().0 as int],
                    sorted.ants[now.last().0 as int].path,
                    mid,
                    self@.trails,
                ));
            }
            r += 1;
        }
        proof {
            assert(deposits.take(r as int) =~= deposits);
            assert(old(self)@.keyed(key, ranking));
            assert(sorts(ranking, order@));
        }
    }
}

/// Whether a length is one that an ant begins with.
pub open spec fn begun<C: Default>() -> spec_fn(C) -> bool {
    |from: C| call_ensures(C::default, (), from)
}

impl<C: Copy + Default> Simulator<C> {
    /// Runs the cycles: in each cycle a fresh colony makes its tours, the
    /// best tour is looked for, the trails fade, and the ants are sorted
    /// and the first three lay their trails. The run ends with the cycle
    /// whose number is `MAX_CYCLES`, or after the cycle at which the count
    /// of cycles without improvement is over half of `MAX_CYCLES`, or, with
    /// the answer no, where an ant is drawn nowhere. After the tours of
    /// each cycle `report` is told whether the best tour is a new one, its
    /// length, the tour itself if it is new, and the number of the cycle.
    #[verifier::rlimit(60)]
    pub fn run<W, F, D, G, K, E, L, R>(
        &mut self,
        weight: W,
        plus: F,
        draw: D,
        improves: G,
        max_swaps: usize,
        key: K,
        fade: E,
        deposit: L,
        report: R,
    ) -> (walked: bool) where
        W: Fn(C, C, C, C) -> C + Copy,
        F: Fn(C, C) -> C + Copy,
        D: Fn(Vec<Option<C>>, C) -> Option<usize> + Copy,
        G: Fn(C, C, C, C) -> bool + Copy,
        K: Fn(C) -> u64 + Copy,
        E: Fn(C, usize, C) -> C + Copy,
        L: Fn(usize, C, C) -> C + Copy,
        R: Fn(bool, Option<C>, Vec<usize>, usize),

        requires
            old(self).wf(),
            old(self)@.cur_cycle < usize::MAX,
            old(self)@.cycles_since_improvement < usize::MAX,
            forall|to_depot: C, from_depot: C, to_next: C, trail: C|
                weight.requires((to_depot, from_depot, to_next, trail)),
            forall|so_far: C, distance: C| plus.requires((so_far, distance)),
            forall|sums: Vec<Option<C>>, total: C| draw.requires((sums, total)),
            forall|removed: C, also_removed: C, new: C, also_new: C|
                improves.requires((removed, also_removed, new, also_new)),
            forall|cost: C| key.requires((cost,)),
            forall|sum: C, count: usize, trail: C| fade.requires((sum, count, trail)),
            forall|rank: usize, cost: C, trail: C| deposit.requires((rank, cost, trail)),
            forall|new: bool, cost: Option<C>, tour: Vec<usize>, cycle: usize|
                report.requires((new, cost, tour, cycle)),
        ensures
            final(self).wf(),
            final(self)@.num_nodes == old(self)@.num_nodes,
            final(self)@.capacity == old(self)@.capacity,
            final(self)@.demands == old(self)@.demands,
            final(self)@.distances == old(self)@.distances,
            // The cycles.
            walked ==> exists|cycles: Seq<Cycle<C>>| #[trigger]
                ran(
                    old(self)@,
                    cycles,
                    final(self)@,
                    plus,
                    improves,
                    max_swaps,
                    key,
                    fade,
                    deposit,
                    begun::<C>(),
                ),
            old(self)@.cur_cycle + 1 >= MAX_CYCLES ==> final(self)@ == old(self)@.tick(),
            old(self)@.cur_cycle < final(self)@.cur_cycle,
            old(self)@.cur_cycle < MAX_CYCLES ==> final(self)@.cur_cycle <= MAX_CYCLES,
            walked ==> final(self)@.cur_cycle >= MAX_CYCLES
                || final(self)@.cycles_since_improvement > MAX_CYCLES / 2,
            // The tours of the last cycle.
            walked && old(self)@.cur_cycle + 1 < MAX_CYCLES ==> forall|a: int|
                0 <= a < final(self)@.ants.len() ==> #[trigger] final(self)@.toured(a, plus),
            walked && old(self)@.cur_cycle + 1 < MAX_CYCLES ==> forall|a: int|
                0 <= a < final(self)@.ants.len() ==> #[trigger] final(self)@.optimized(
                    a,
                    improves,
                    max_swaps,
                ),
            walked && old(self)@.cur_cycle + 1 < MAX_CYCLES ==> exists|keys: Seq<u64>|
                #[trigger] final(self)@.keyed(key, keys) && forall|a: int|
                    0 <= a < keys.len() ==> final(self)@.best_tour_key <= #[trigger] keys[a],
            // The best tour.
            final(self)@.best_tour_key <= old(self)@.best_tour_key,
            old(self)@.best_serves() ==> final(self)@.best_serves(),
            final(self)@.best_tour_key < old(self)@.best_tour_key ==> final(self)@.best_found(
                plus,
                improves,
                max_swaps,
                key,
                begun::<C>(),
            ),
            final(self)@.best_tour_key == old(self)@.best_tour_key ==> final(self)@.best_tour
                == old(self)@.best_tour && final(self)@.best_tour_cost == old(self)@.best_tour_cost,
            // The count of cycles without improvement.
            old(self)@.cycles_since_improvement <= MAX_CYCLES / 2
                ==> final(self)@.cycles_since_improvement <= MAX_CYCLES / 2 + 1,
            walked && final(self)@.best_tour_key == old(self)@.best_tour_key && final(self)@.cur_cycle < MAX_CYCLES ==> final(self)@.cycles_since_improvement - old(self)@.cycles_since_improvement == final(self)@.cur_cycle - old(self)@.cur_cycle,
            walked && final(self)@.best_tour_key == old(self)@.best_tour_key && final(self)@.cur_cycle >= MAX_CYCLES ==> final(self)@.cycles_since_improvement - old(self)@.cycles_since_improvement == final(self)@.cur_cycle - old(self)@.cur_cycle - 1,
            final(self)@.best_tour_key < old(self)@.best_tour_key ==> final(self)@.cycles_since_improvement < final(self)@.cur_cycle - old(self)@.cur_cycle,
            // The draw.
            !walked ==> final(self)@.halted(weight, plus, draw),
            willing(draw) ==> walked,
    {
        let ghost mut cycles: Seq<Cycle<C>> = Seq::empty();
        loop
            invariant_except_break
                running(
                    old(self)@,
                    cycles,
                    self@,
                    plus,
                    improves,
                    max_swaps,
                    key,
                    fade,
                    deposit,
                    begun::<C>(),
                ),
                cycles.len() == 0 ==> self@ == old(self)@,
                cycles.len() > 0 ==> old(self)@.cur_cycle < self@.cur_cycle < MAX_CYCLES,
                cycles.len() > 0 ==> self@.cycles_since_improvement <= MAX_CYCLES / 2,
                cycles.len() > 0 ==> self@.all_toured(plus, improves, max_swaps),
                cycles.len() > 0 ==> self@.best_of(key),
                self@.best_tour_key == old(self)@.best_tour_key ==> self@.cycles_since_improvement
                    - old(self)@.cycles_since_improvement == self@.cur_cycle - old(self)@.cur_cycle,
            invariant
                self.wf(),
                self@.num_nodes == old(self)@.num_nodes,
                self@.capacity == old(self)@.capacity,
                self@.demands == old(self)@.demands,
                self@.distances == old(self)@.distances,
                old(self)@.cur_cycle < usize::MAX,
                old(self)@.cycles_since_improvement < usize::MAX,
                self@.best_tour_key <= old(self)@.best_tour_key,
                old(self)@.best_serves() ==> self@.best_serves(),
                self@.best_tour_key < old(self)@.best_tour_key ==> self@.best_found(
                    plus,
                    improves,
                    max_swaps,
                    key,
                    begun::<C>(),
                ),
                self@.best_tour_key == old(self)@.best_tour_key ==> self@.best_tour == old(self)@.best_tour && self@.best_tour_cost == old(self)@.best_tour_cost,
                self@.best_tour_key < old(self)@.best_tour_key ==> self@.cycles_since_improvement
                    < self@.cur_cycle - old(self)@.cur_cycle,
                forall|to_depot: C, from_depot: C, to_next: C, trail: C|
                    weight.requires((to_depot, from_depot, to_next, trail)),
                forall|so_far: C, distance: C| plus.requires((so_far, distance)),
                forall|sums: Vec<Option<C>>, total: C| draw.requires((sums, total)),
                forall|removed: C, also_removed: C, new: C, also_new: C|
                    improves.requires((removed, also_removed, new, also_new)),
                forall|cost: C| key.requires((cost,)),
                forall|sum: C, count: usize, trail: C| fade.requires((sum, count, trail)),
                forall|rank: usize, cost: C, trail: C| deposit.requires((rank, cost, trail)),
                forall|new: bool, cost: Option<C>, tour: Vec<usize>, cycle: usize|
                    report.requires((new, cost, tour, cycle)),
            ensures
                ran(
                    old(self)@,
                    cycles,
                    self@,
                    plus,
                    improves,
                    max_swaps,
                    key,
                    fade,
                    deposit,
                    begun::<C>(),
                ),
                old(self)@.cur_cycle + 1 >= MAX_CYCLES ==> self@ == old(self)@.tick(),
                old(self)@.cur_cycle < self@.cur_cycle,
                old(self)@.cur_cycle < MAX_CYCLES ==> self@.cur_cycle <= MAX_CYCLES,
                self@.cur_cycle >= MAX_CYCLES || self@.cycles_since_improvement > MAX_CYCLES / 2,
                old(self)@.cur_cycle + 1 < MAX_CYCLES ==> self@.all_toured(
                    plus,
                    improves,
                    max_swaps,
                ),
                old(self)@.cur_cycle + 1 < MAX_CYCLES ==> self@.best_of(key),
                old(self)@.cycles_since_improvement <= MAX_CYCLES / 2
                    ==> self@.cycles_since_improvement <= MAX_CYCLES / 2 + 1,
                self@.best_tour_key == old(self)@.best_tour_key && self@.cur_cycle < MAX_CYCLES
                    ==> self@.cycles_since_improvement - old(self)@.cycles_since_improvement
                    == self@.cur_cycle - old(self)@.cur_cycle,
                self@.best_tour_key == old(self)@.best_tour_key && self@.cur_cycle >= MAX_CYCLES
                    ==> self@.cycles_since_improvement - old(self)@.cycles_since_improvement
                    == self@.cur_cycle - old(self)@.cur_cycle - 1,
            decreases self@.cycles_left(),
        {
            let ghost head = self@;
            let going = self.should_continue();
            if !going {
                proof {
                    lemma_colony_elsewhere(head, self@, plus, improves, max_swaps, key);
                    lemma_running_out(
                        old(self)@,
                        cycles,
                        head,
                        plus,
                        improves,
                        max_swaps,
                        key,
                        fade,
                        deposit,
                        begun::<C>(),
                    );
                }
                break ;
            }
            self.reset_ants();
            if !self.update_ants(weight, plus, draw, improves, max_swaps) {
                proof {
                    lemma_best_elsewhere(
                        head,
                        self@,
                        plus,
                        improves,
                        max_swaps,
                        key,
                        begun::<C>(),
                    );
                }
                return false;
            }
            let ghost toured = self@;
            let verdict = self.try_find_best_tour(key);
            let ghost seen = choose|keys: Seq<u64>|
                #[trigger] toured.keyed(key, keys) && self@ == toured.judge(keys) && verdict
                    == toured.verdict(keys);
            let ghost earlier = cycles;
            proof {
                assert(head.tours(toured, plus, improves, max_swaps, begun::<C>()));
                lemma_best_elsewhere(head, toured, plus, improves, max_swaps, key, begun::<C>());
                lemma_judge_improves(toured, seen);
                lemma_judge_finds(toured, seen, plus, improves, max_swaps, key, begun::<C>());
                if self@.best_tour_key == toured.best_tour_key {
                    lemma_best_elsewhere(
                        toured,
                        self@,
                        plus,
                        improves,
                        max_swaps,
                        key,
                        begun::<C>(),
                    );
                }
                lemma_colony_elsewhere(toured, self@, plus, improves, max_swaps, key);
                if toured.best_serves() {
                    assert forall|a: int| 0 <= a < toured.ants.len() implies toured.serves(
                        #[trigger] toured.ants[a].path,
                    ) by {
                        assert(toured.toured(a, plus));
                        lemma_toured_serves(toured, a, plus);
                    }
                    lemma_judge_serves(toured, seen);
                }
            }
            let new = self.cycles_since_improvement == 0;
            let tour = if new {
                self.best_tour.clone()
            } else {
                Vec::new()
            };
            report(new, self.best_tour_cost, tour, self.cur_cycle);
            match verdict {
                Continue::No => {
                    proof {
                        let last = Cycle { toured, keys: seen, after: self@ };
                        assert(!goes_on(last));
                        assert(cycled(
                            head,
                            last,
                            plus,
                            improves,
                            max_swaps,
                            key,
                            fade,
                            deposit,
                            begun::<C>(),
                        ));
                        lemma_running_on(
                            old(self)@,
                            earlier,
                            head,
                            last,
                            plus,
                            improves,
                            max_swaps,
                            key,
                            fade,
                            deposit,
                            begun::<C>(),
                        );
                        cycles = earlier.push(last);
                    }
                    break ;
                },
                Continue::Yes => {},
            }
            let ghost judged = self@;
            self.evaporate(plus, fade);
            let ghost faded = self@;
            self.update_pheromones(key, deposit);
            proof {
                let (keys, order) = choose|keys: Seq<u64>, order: Seq<int>|
                    #![trigger faded.keyed(key, keys), sorts(keys, order)]
                    {
                        &&& faded.keyed(key, keys)
                        &&& sorts(keys, order)
                        &&& self@ == (SimulatorView {
                            trails: self@.trails,
                            ants: arranged(faded.ants, order),
                            costs: arranged(faded.costs, order),
                            origins: arranged(faded.origins, order),
                            ..faded
                        })
                    };
                lemma_colony_elsewhere(judged, faded, plus, improves, max_swaps, key);
                lemma_arranged_keeps(faded, self@, keys, order, plus, improves, max_swaps, key);
                lemma_best_elsewhere(judged, self@, plus, improves, max_swaps, key, begun::<C>());
                let sum = choose|sum: C|
                    #[trigger] added(plus, judged.costs, judged.origins[0], sum) && evaporated(
                        fade,
                        sum,
                        judged.ants.len() as usize,
                        judged.trails,
                        faded.trails,
                    );
                assert(judged.keyed(key, keys));
                assert(self@ == (SimulatorView {
                    trails: self@.trails,
                    ants: arranged(judged.ants, order),
                    costs: arranged(judged.costs, order),
                    origins: arranged(judged.origins, order),
                    ..judged
                }));
                assert(judged.settles(self@, plus, key, fade, deposit));
                let last = Cycle { toured, keys: seen, after: self@ };
                assert(goes_on(last));
                assert(cycled(
                    head,
                    last,
                    plus,
                    improves,
                    max_swaps,
                    key,
                    fade,
                    deposit,
                    begun::<C>(),
                ));
                lemma_running_on(
                    old(self)@,
                    earlier,
                    head,
                    last,
                    plus,
                    improves,
                    max_swaps,
                    key,
                    fade,
                    deposit,
                    begun::<C>(),
                );
                cycles = earlier.push(last);
            }
        }
        true
    }
}

/// The place of the first of the least keys.
fn least(keys: &Vec<u64>) -> (m: usize)
    requires
        keys@.len() > 0,
    ensures
        m < keys@.len(),
        forall|j: int| 0 <= j < keys@.len() ==> keys@[m as int] <= #[trigger] keys@[j],
        forall|j: int| 0 <= j < m ==> keys@[m as int] < #[trigger] keys@[j],
{
    let mut m: usize = 0;
    let mut j: usize = 1;
    while j < keys.len()
        invariant
            m < j <= keys@.len(),
            forall|i: int| 0 <= i < j ==> keys@[m as int] <= #[trigger] keys@[i],
            forall|i: int| 0 <= i < m ==> keys@[m as int] < #[trigger] keys@[i],
        decreases keys@.len() - j,
    {
        if keys[j] < keys[m] {
            m = j;
        }
        j += 1;
    }
    m
}

/// Sorts a list by the keys of its entries, the least key first; of two
/// entries with the same key the one that stood first stays first. Says
/// which entry has come to which place.
fn sort_by_keys<T>(items: &mut Vec<T>, keys: Vec<u64>) -> (order: Ghost<Seq<int>>)
    requires
        keys@.len() == old(items)@.len(),
    ensures
        sorts(keys@, order@),
        final(items)@ == arranged(old(items)@, order@),
{
    let ghost all = items@;
    let ghost all_keys = keys@;
    let mut rest: Vec<T> = Vec::new();
    std::mem::swap(items, &mut rest);
    let mut rest_keys = keys;
    let ghost mut places: Seq<int> = Seq::new(all.len(), |i: int| i);
    let ghost mut order: Seq<int> = Seq::empty();
    while rest.len() > 0
        invariant
            rest@.len() == rest_keys@.len(),
            rest@.len() == places.len(),
            items@.len() == order.len(),
            order.len() + places.len() == all.len(),
            all.len() == all_keys.len(),
            forall|i: int| 0 <= i < places.len() ==> 0 <= #[trigger] places[i] < all.len(),
            forall|i: int| 0 <= i < places.len() ==> #[trigger] rest@[i] == all[places[i]],
            forall|i: int| 0 <= i < places.len() ==> #[trigger] rest_keys@[i] == all_keys[places[i]],
            forall|i: int, j: int|
                #![trigger places[i], places[j]]
                0 <= i < j < places.len() ==> places[i] < places[j],
            forall|r: int| 0 <= r < order.len() ==> 0 <= #[trigger] order[r] < all.len(),
            forall|r: int| 0 <= r < order.len() ==> #[trigger] items@[r] == all[order[r]],
            forall|r: int, s: int|
                #![trigger order[r], order[s]]
                0 <= r < s < order.len() ==> precedes(all_keys, order[r], order[s]),
            forall|r: int, i: int|
                #![trigger order[r], places[i]]
                0 <= r < order.len() && 0 <= i < places.len() ==> precedes(
                    all_keys,
                    order[r],
                    places[i],
                ),
        decreases rest@.len(),
    {
        let m = least(&rest_keys);
        let ghost found = places[m as int];
        let ghost places_before = places;
        let ghost order_before = order;
        let ghost rest_before = rest@;
        let ghost keys_before = rest_keys@;
        let ghost items_before = items@;
        let item = rest.remove(m);
        rest_keys.remove(m);
        items.push(item);
        proof {
            order = order_before.push(found);
            places = places_before.remove(m as int);
            assert forall|i: int| 0 <= i < places.len() implies {
                &&& 0 <= #[trigger] places[i] < all.len()
                &&& rest@[i] == all[places[i]]
                &&& rest_keys@[i] == all_keys[places[i]]
                &&& precedes(all_keys, found, places[i])
            } by {
                if i < m {
                    assert(places[i] == places_before[i]);
                    assert(rest@[i] == rest_before[i]);
                    assert(rest_keys@[i] == keys_before[i]);
                    assert(places_before[i] < places_before[m as int]);
                    assert(keys_before[m as int] < keys_before[i]);
                } else {
                    assert(places[i] == places_before[i + 1]);
                    assert(rest@[i] == rest_before[i + 1]);
                    assert(rest_keys@[i] == keys_before[i + 1]);
                    assert(places_before[m as int] < places_before[i + 1]);
                    assert(keys_before[m as int] <= keys_before[i + 1]);
                }
            }
            assert forall|i: int, j: int|
                #![trigger places[i], places[j]]
                0 <= i < j < places.len() implies places[i] < places[j] by {
                let from = if i < m {
                    i
                } else {
                    i + 1
                };
                let to = if j < m {
                    j
                } else {
                    j + 1
                };
                assert(places[i] == places_before[from]);
                assert(places[j] == places_before[to]);
                assert(places_before[from] < places_before[to]);
            }
            assert forall|r: int| 0 <= r < order.len() implies 0 <= #[trigger] order[r] < all.len()
                && items@[r] == all[order[r]] by {
                if r < order_before.len() {
                    assert(order[r] == order_before[r]);
                    assert(items@[r] == items_before[r]);
                }
            }
            assert forall|r: int, s: int|
                #![trigger order[r], order[s]]
                0 <= r < s < order.len() implies precedes(all_keys, order[r], order[s]) by {
                if s < order_before.len() {
                    assert(precedes(all_keys, order_before[r], order_before[s]));
                } else {
                    assert(precedes(all_keys, order_before[r], places_before[m as int]));
                }
            }
            assert forall|r: int, i: int|
                #![trigger order[r], places[i]]
                0 <= r < order.len() && 0 <= i < places.len() implies precedes(
                all_keys,
                order[r],
                places[i],
            ) by {
                let from = if i < m {
                    i
                } else {
                    i + 1
                };
                assert(places[i] == places_before[from]);
                if r < order_before.len() {
                    assert(precedes(all_keys, order_before[r], places_before[from]));
                }
            }
        }
    }
    proof {
        assert(items@ =~= arranged(all, order));
    }
    Ghost(order)
}

} // verus!
