use crate::matrix::Matrix;
use crate::opt::{measured, OptimizationStrategy, TwoOptStrategy};
use crate::routes::{below, feasible, lemma_routes_exist, load, routes_of};
use crate::search::{leads_to, stops, SearchView};
use vstd::prelude::*;

verus! {

/// How many entries of a list of marks are set.
pub open spec fn count_true(marks: Seq<bool>) -> nat
    decreases marks.len(),
{
    if marks.len() == 0 {
        0
    } else {
        count_true(marks.drop_last()) + if marks.last() {
            1nat
        } else {
            0nat
        }
    }
}

/// No more marks are set than there are.
pub proof fn lemma_count_bound(marks: Seq<bool>)
    ensures
        count_true(marks) <= marks.len(),
    decreases marks.len(),
{
    if marks.len() > 0 {
        lemma_count_bound(marks.drop_last());
    }
}

/// Setting a mark that was not set adds one to the count.
pub proof fn lemma_count_set(marks: Seq<bool>, i: int)
    requires
        0 <= i < marks.len(),
        !marks[i],
    ensures
        count_true(marks.update(i, true)) == count_true(marks) + 1,
    decreases marks.len(),
{
    let set = marks.update(i, true);
    if i == marks.len() - 1 {
        assert(set.drop_last() =~= marks.drop_last());
    } else {
        assert(set.drop_last() =~= marks.drop_last().update(i, true));
        lemma_count_set(marks.drop_last(), i);
    }
}

/// Where a mark is set, the count is not zero.
pub proof fn lemma_count_positive(marks: Seq<bool>, i: int)
    requires
        0 <= i < marks.len(),
        marks[i],
    ensures
        count_true(marks) >= 1,
    decreases marks.len(),
{
    if i < marks.len() - 1 {
        lemma_count_positive(marks.drop_last(), i);
    }
}

/// Where each mark is set, as many marks are set as there are.
pub proof fn lemma_count_all(marks: Seq<bool>)
    requires
        forall|i: int| 0 <= i < marks.len() ==> #[trigger] marks[i],
    ensures
        count_true(marks) == marks.len(),
    decreases marks.len(),
{
    if marks.len() > 0 {
        let front = marks.drop_last();
        assert(marks[marks.len() - 1]);
        assert forall|i: int| 0 <= i < front.len() implies #[trigger] front[i] by {
            assert(marks[i]);
        }
        lemma_count_all(front);
    }
}

/// Where as many marks are set as there are, each one is set.
pub proof fn lemma_count_full(marks: Seq<bool>)
    requires
        count_true(marks) == marks.len(),
    ensures
        forall|i: int| 0 <= i < marks.len() ==> #[trigger] marks[i],
    decreases marks.len(),
{
    if marks.len() > 0 {
        lemma_count_bound(marks.drop_last());
        lemma_count_full(marks.drop_last());
        assert forall|i: int| 0 <= i < marks.len() implies #[trigger] marks[i] by {
            if i < marks.len() - 1 {
                assert(marks.drop_last()[i]);
            }
        }
    }
}

/// An ant as a mathematical value.
pub struct AntView {
    /// The nodes in the order of the walk; the depot is the node `0`.
    pub path: Seq<usize>,
    /// For each node, whether the walk has reached it.
    pub visited: Seq<bool>,
    pub visited_count: nat,
    pub num_nodes: nat,
    /// What the vehicle can carry.
    pub capacity: nat,
    /// What the vehicle can still take on.
    pub cur_capacity: nat,
}

impl AntView {
    /// The ant that stands at the depot and has gone nowhere.
    pub open spec fn start(num_nodes: nat, capacity: nat) -> AntView {
        AntView {
            path: seq![0usize],
            visited: Seq::new(num_nodes, |i: int| i == 0),
            visited_count: 1,
            num_nodes,
            capacity,
            cur_capacity: capacity,
        }
    }

    /// What holds of every ant: its walk begins at the depot and stays
    /// among the nodes, the marks are those of the nodes on the walk, and
    /// the count is that of the marks.
    pub open spec fn wf(self) -> bool {
        &&& self.num_nodes >= 1
        &&& self.visited.len() == self.num_nodes
        &&& self.path.len() >= 1
        &&& self.path[0] == 0
        &&& forall|j: int| 0 <= j < self.path.len() ==> (#[trigger] self.path[j]) < self.num_nodes
        &&& forall|n: int|
            0 <= n < self.num_nodes ==> (#[trigger] self.visited[n] <==> exists|j: int|
                0 <= j < self.path.len() && #[trigger] self.path[j] == n)
        &&& self.visited_count == count_true(self.visited)
        &&& self.cur_capacity <= self.capacity
    }

    /// Whether every node has been reached.
    pub open spec fn done(self) -> bool {
        self.visited_count == self.num_nodes
    }

    /// The node at which the ant stands.
    pub open spec fn cur_node(self) -> usize {
        self.path.last()
    }

    /// What the vehicle can take on at its next stop: all it can carry
    /// when it stands at the depot.
    pub open spec fn refilled(self) -> nat {
        if self.cur_node() == 0 {
            self.capacity
        } else {
            self.cur_capacity
        }
    }

    /// The node that the ant goes to when it is drawn to `candidate`: the
    /// depot, if the vehicle cannot take on what the candidate demands.
    pub open spec fn next_node(self, candidate: usize, demands: Seq<usize>) -> usize {
        if demands[candidate as int] > self.refilled() {
            0
        } else {
            candidate
        }
    }

    /// The ant after it has gone to a node.
    pub open spec fn visit(self, node: usize) -> AntView {
        AntView {
            path: self.path.push(node),
            visited: self.visited.update(node as int, true),
            visited_count: if self.visited[node as int] {
                self.visited_count
            } else {
                self.visited_count + 1
            },
            ..self
        }
    }

    /// Whether the walk so far keeps to what the vehicle can carry: no route
    /// demands more, and away from the depot the vehicle can still take on
    /// what the route that it is on has left of it.
    pub open spec fn respects(self, demands: Seq<usize>) -> bool {
        &&& feasible(self.path, demands, self.capacity)
        &&& self.cur_node() != 0 ==> load(routes_of(self.path).last(), demands)
            + self.cur_capacity == self.capacity
    }

    /// A bound on the steps that the walk still takes: two for each node
    /// that has not been reached, and one more away from the depot.
    pub open spec fn steps_left(self) -> nat {
        (2 * (self.num_nodes - self.visited_count) + if self.cur_node() == 0 {
            0int
        } else {
            1int
        }) as nat
    }

    /// Whether a tour goes through the very nodes that the ant has reached.
    pub open spec fn admits(self, path: Seq<usize>) -> bool {
        &&& path.len() >= 1
        &&& path[0] == 0
        &&& forall|j: int| 0 <= j < path.len() ==> (#[trigger] path[j]) < self.num_nodes
        &&& forall|n: int|
            0 <= n < self.num_nodes ==> (#[trigger] self.visited[n] <==> exists|j: int|
                0 <= j < path.len() && #[trigger] path[j] == n)
    }

    /// The ant after the step on which it is drawn to `candidate`.
    pub open spec fn step(self, candidate: usize, demands: Seq<usize>) -> AntView {
        let next = self.next_node(candidate, demands);
        AntView {
            cur_capacity: (self.refilled() - demands[next as int]) as nat,
            ..self
        }.visit(next)
    }
}

/// The ant after a node is as it should be if the ant before was.
pub proof fn lemma_visit_wf(ant: AntView, node: usize)
    requires
        ant.wf(),
        node < ant.num_nodes,
    ensures
        ant.visit(node).wf(),
        ant.visit(node).visited_count <= ant.num_nodes,
{
    let after = ant.visit(node);
    lemma_count_bound(after.visited);
    if !ant.visited[node as int] {
        lemma_count_set(ant.visited, node as int);
    } else {
        assert(after.visited =~= ant.visited);
    }
    assert forall|n: int| 0 <= n < after.num_nodes implies (#[trigger] after.visited[n]
        <==> exists|j: int| 0 <= j < after.path.len() && #[trigger] after.path[j] == n) by {
        if after.visited[n] {
            if n == node {
                assert(after.path[ant.path.len() as int] == n);
            } else {
                assert(ant.visited[n]);
                let j = choose|j: int| 0 <= j < ant.path.len() && #[trigger] ant.path[j] == n;
                assert(after.path[j] == n);
            }
        }
        if exists|j: int| 0 <= j < after.path.len() && #[trigger] after.path[j] == n {
            let j = choose|j: int| 0 <= j < after.path.len() && #[trigger] after.path[j] == n;
            if j < ant.path.len() {
                assert(ant.path[j] == n);
                assert(ant.visited[n]);
            }
        }
    }
}

/// An ant that has reached every node has every node on its walk.
pub proof fn lemma_done_covers(ant: AntView)
    requires
        ant.wf(),
        ant.done(),
    ensures
        forall|n: usize| n < ant.num_nodes ==> ant.path.contains(n),
{
    lemma_count_full(ant.visited);
    assert forall|n: usize| n < ant.num_nodes implies ant.path.contains(n) by {
        assert(ant.visited[n as int]);
        let j = choose|j: int| 0 <= j < ant.path.len() && #[trigger] ant.path[j] == n;
        assert(ant.path[j] == n);
    }
}

/// A step keeps every route within what the vehicle can carry, and keeps
/// the account of what the vehicle can still take on.
pub proof fn lemma_step_respects(ant: AntView, candidate: usize, demands: Seq<usize>)
    requires
        ant.wf(),
        ant.respects(demands),
        demands.len() == ant.num_nodes,
        demands[0] == 0,
        candidate < ant.num_nodes,
    ensures
        ant.step(candidate, demands).respects(demands),
{
    let after = ant.step(candidate, demands);
    let next = ant.next_node(candidate, demands);
    let routes = routes_of(ant.path);
    lemma_routes_exist(ant.path);
    assert(after.path.drop_last() =~= ant.path);
    if next != 0 {
        assert(routes.last().push(next).drop_last() =~= routes.last());
    }
}

/// Going back to the depot keeps every route within what the vehicle can
/// carry.
pub proof fn lemma_complete_respects(ant: AntView, demands: Seq<usize>)
    requires
        ant.wf(),
        ant.respects(demands),
    ensures
        ant.visit(0).respects(demands),
{
    let after = ant.visit(0);
    assert(after.path.drop_last() =~= ant.path);
    let routes = routes_of(ant.path);
    assert(routes_of(after.path) == routes.push(Seq::empty()));
    assert forall|r: int| 0 <= r < routes_of(after.path).len() implies load(
        #[trigger] routes_of(after.path)[r],
        demands,
    ) <= after.capacity by {
        if r < routes.len() {
            assert(routes_of(after.path)[r] == routes[r]);
        }
    }
}

/// On a problem whose demands a vehicle can carry one by one, a step towards
/// a node that has not been reached brings the end of the walk nearer.
pub proof fn lemma_step_progress(ant: AntView, candidate: usize, demands: Seq<usize>)
    requires
        ant.wf(),
        demands.len() == ant.num_nodes,
        demands[0] == 0,
        forall|n: int| 0 <= n < demands.len() ==> #[trigger] demands[n] <= ant.capacity,
        candidate < ant.num_nodes,
        !ant.visited[candidate as int],
    ensures
        ant.step(candidate, demands).steps_left() < ant.steps_left(),
        ant.steps_left() <= 2 * ant.num_nodes,
{
    lemma_count_bound(ant.visited);
    lemma_count_bound(ant.step(candidate, demands).visited);
    let next = ant.next_node(candidate, demands);
    assert(ant.visited[0]) by {
        assert(ant.path[0] == 0);
    }
    lemma_count_positive(ant.visited, 0);
    if next == candidate {
        lemma_count_set(ant.visited, candidate as int);
    }
}

/// Whether `sum` is what the weights add up to when the weight of the edge to
/// `node` joins what they added up to `before`. The weight of an edge is
/// what `weight` makes of the distance from where the ant stands to the
/// depot, the distance from the depot to the node, the distance from where
/// the ant stands to the node, and the trail from where the ant stands to
/// the node.
pub open spec fn weighs<C, W: Fn(C, C, C, C) -> C, F: Fn(C, C) -> C>(
    weight: W,
    plus: F,
    ant: AntView,
    distances: Seq<Seq<C>>,
    trails: Seq<Seq<C>>,
    node: int,
    before: C,
    share: C,
    sum: C,
) -> bool {
    &&& weight.ensures(
        (
            distances[ant.cur_node() as int][0],
            distances[0][node],
            distances[ant.cur_node() as int][node],
            trails[ant.cur_node() as int][node],
        ),
        share,
    )
    &&& plus.ensures((before, share), sum)
}

/// Whether `sum` is what the weights of the edges to the nodes before `upto`
/// that the ant has not reached add up to, one after the other in the order
/// of the nodes, beginning with `origin`.
pub open spec fn weighed<C, W: Fn(C, C, C, C) -> C, F: Fn(C, C) -> C>(
    weight: W,
    plus: F,
    ant: AntView,
    distances: Seq<Seq<C>>,
    trails: Seq<Seq<C>>,
    origin: C,
    upto: int,
    sum: C,
) -> bool
    decreases upto,
{
    if upto <= 0 {
        sum == origin
    } else if ant.visited[upto - 1] {
        weighed(weight, plus, ant, distances, trails, origin, upto - 1, sum)
    } else {
        exists|before: C, share: C|
            weighed(weight, plus, ant, distances, trails, origin, upto - 1, before)
                && #[trigger] weighs(
                weight,
                plus,
                ant,
                distances,
                trails,
                upto - 1,
                before,
                share,
                sum,
            )
    }
}

/// Whether a draw falls on a node or on one of the nodes before it: the
/// node has a share of the weights, and the shares up to it reach the draw.
pub open spec fn reached(distribution: Seq<Option<u64>>, draw: u64, node: int) -> bool {
    match distribution[node] {
        Some(sum) => draw <= sum,
        None => false,
    }
}

/// The node that a draw falls on. The weights of the edges and the draw
/// come as keys, which are numbers that grow with what they stand for:
/// for each node that can be chosen the key of the sum of the weights
/// up to it, and the key of the draw, which is a share of the sum of
/// all weights. The choice is the first node whose sum reaches the
/// draw; there is none where no sum does.
pub fn get_next_node_by_probability(distribution: &[Option<u64>], draw: u64) -> (next: Option<
    usize,
>)
    ensures
        match next {
            Some(node) => {
                &&& node < distribution@.len()
                &&& reached(distribution@, draw, node as int)
                &&& forall|j: int| 0 <= j < node ==> !reached(distribution@, draw, j)
            },
            None => forall|j: int| 0 <= j < distribution@.len() ==> !reached(distribution@, draw, j),
        },
{
    let mut i: usize = 0;
    while i < distribution.len()
        invariant
            i <= distribution@.len(),
            forall|j: int| 0 <= j < i ==> !reached(distribution@, draw, j),
        decreases distribution@.len() - i,
    {
        match distribution[i] {
            Some(sum) => {
                if draw <= sum {
                    return Some(i);
                }
            },
            None => {},
        }
        i += 1;
    }
    None
}

/// One ant: a vehicle that walks from node to node and keeps count of the
/// nodes it has reached, of what it can still take on and of the length of
/// its walk. Lengths are of a type that the ant does not look into: it
/// begins with the default value of the type and has its caller add to it.
#[derive(Clone)]
pub struct Ant<C> {
    path_taken: Vec<usize>,
    path_cost: C,
    no_cost: C,
    visited: Vec<bool>,
    visited_count: usize,
    num_nodes: usize,
    capacity: usize,
    cur_capacity: usize,
}

impl<C> View for Ant<C> {
    type V = AntView;

    closed spec fn view(&self) -> AntView {
        AntView {
            path: self.path_taken@,
            visited: self.visited@,
            visited_count: self.visited_count as nat,
            num_nodes: self.num_nodes as nat,
            capacity: self.capacity as nat,
            cur_capacity: self.cur_capacity as nat,
        }
    }
}

impl<C> Ant<C> {
    /// The length of the walk.
    pub closed spec fn cost(&self) -> C {
        self.path_cost
    }

    /// The length of a walk without an edge.
    pub closed spec fn origin(&self) -> C {
        self.no_cost
    }

    /// Whether the length of the walk is what the walk measures over the
    /// given distances, added up by `plus`: the sum of the distances of its
    /// edges.
    pub open spec fn consistent<F: Fn(C, C) -> C>(&self, plus: F, distances: Seq<Seq<C>>) -> bool {
        measured(plus, distances, self@.path, self.origin(), self.cost())
    }
}

impl<C: Copy + Default> Ant<C> {
    /// An ant at the depot of a problem with `num_nodes` nodes.
    pub fn new(num_nodes: usize, capacity: usize) -> (ant: Ant<C>)
        requires
            num_nodes >= 1,
        ensures
            ant@ == AntView::start(num_nodes as nat, capacity as nat),
            ant@.wf(),
            call_ensures(C::default, (), ant.origin()),
            ant.cost() == ant.origin(),
    {
        let mut visited: Vec<bool> = Vec::new();
        let mut n: usize = 0;
        while n < num_nodes
            invariant
                n <= num_nodes,
                visited@ == Seq::new(n as nat, |i: int| i == 0),
                count_true(visited@) == if n == 0 {
                    0nat
                } else {
                    1nat
                },
            decreases num_nodes - n,
        {
            let ghost before = visited@;
            visited.push(n == 0);
            assert(visited@ =~= Seq::new((n + 1) as nat, |i: int| i == 0));
            assert(visited@.drop_last() =~= before);
            n += 1;
        }
        let mut path_taken: Vec<usize> = Vec::new();
        path_taken.push(0);
        let no_cost = C::default();
        let ant = Ant {
            path_taken,
            path_cost: no_cost,
            no_cost,
            visited,
            visited_count: 1,
            num_nodes,
            capacity,
            cur_capacity: capacity,
        };
        proof {
            assert(ant@.path =~= seq![0usize]);
            assert forall|k: int| 0 <= k < ant@.num_nodes implies (#[trigger] ant@.visited[k]
                <==> exists|j: int| 0 <= j < ant@.path.len() && #[trigger] ant@.path[j] == k) by {
                if k == 0 {
                    assert(ant@.path[0] == 0);
                }
            }
        }
        ant
    }
}

impl<C: Copy> Ant<C> {
    /// Whether every node has been reached.
    pub fn done(&self) -> (r: bool)
        ensures
            r == self@.done(),
    {
        self.num_nodes == self.visited_count
    }

    /// The node at which the ant stands.
    pub fn cur_node(&self) -> (node: usize)
        requires
            self@.wf(),
        ensures
            node == self@.cur_node(),
            node < self@.num_nodes,
    {
        self.path_taken[self.path_taken.len() - 1]
    }

    /// The length of the walk.
    pub fn path_cost(&self) -> (cost: C)
        ensures
            cost == self.cost(),
    {
        self.path_cost
    }

    /// The length of a walk without an edge.
    pub fn origin_cost(&self) -> (cost: C)
        ensures
            cost == self.origin(),
    {
        self.no_cost
    }

    /// The nodes in the order of the walk.
    pub fn path_taken(&self) -> (path: &Vec<usize>)
        ensures
            path@ == self@.path,
    {
        &self.path_taken
    }

    /// For each node, whether the walk has reached it.
    pub fn visited(&self) -> (marks: &Vec<bool>)
        ensures
            marks@ == self@.visited,
    {
        &self.visited
    }

    /// The weights of the edges that the ant can take: for each node that
    /// it has not reached the sum of the weights up to that node, and for
    /// the others nothing; and the sum of all the weights. The weight of an
    /// edge is what `weight` makes of the distance from where the ant
    /// stands to the depot, the distance from the depot to the node, the
    /// distance from where the ant stands to the node, and the trail from
    /// where the ant stands to the node; `plus` adds the weights up.
    pub fn distribution<W: Fn(C, C, C, C) -> C, F: Fn(C, C) -> C>(
        &self,
        adjacency_matrix: &Matrix<C>,
        pheromones: &Matrix<C>,
        weight: W,
        plus: F,
    ) -> (r: (Vec<Option<C>>, C))
        requires
            self@.wf(),
            adjacency_matrix.wf(),
            adjacency_matrix@.len() == self@.num_nodes,
            pheromones.wf(),
            pheromones@.len() == self@.num_nodes,
            forall|to_depot: C, from_depot: C, to_next: C, trail: C|
                weight.requires((to_depot, from_depot, to_next, trail)),
            forall|so_far: C, share: C| plus.requires((so_far, share)),
        ensures
            r.0@.len() == self@.num_nodes,
            forall|node: int|
                0 <= node < self@.num_nodes ==> match #[trigger] r.0@[node] {
                    Some(sum) => !self@.visited[node] && weighed(
                        weight,
                        plus,
                        self@,
                        adjacency_matrix@,
                        pheromones@,
                        self.origin(),
                        node + 1,
                        sum,
                    ),
                    None => self@.visited[node],
                },
            weighed(
                weight,
                plus,
                self@,
                adjacency_matrix@,
                pheromones@,
                self.origin(),
                self@.num_nodes as int,
                r.1,
            ),
    {
        let mut distribution_vec: Vec<Option<C>> = Vec::with_capacity(self.num_nodes);
        let cur_node = self.cur_node();
        let mut total_edge_weight = self.no_cost;
        let mut i: usize = 0;
        while i < self.num_nodes
            invariant
                i <= self.num_nodes,
                self@.wf(),
                cur_node == self@.cur_node(),
                cur_node < self@.num_nodes,
                adjacency_matrix.wf(),
                adjacency_matrix@.len() == self@.num_nodes,
                pheromones.wf(),
                pheromones@.len() == self@.num_nodes,
                forall|to_depot: C, from_depot: C, to_next: C, trail: C|
                    weight.requires((to_depot, from_depot, to_next, trail)),
                forall|so_far: C, share: C| plus.requires((so_far, share)),
                distribution_vec@.len() == i,
                forall|node: int|
                    0 <= node < i ==> match #[trigger] distribution_vec@[node] {
                        Some(sum) => !self@.visited[node] && weighed(
                            weight,
                            plus,
                            self@,
                            adjacency_matrix@,
                            pheromones@,
                            self.origin(),
                            node + 1,
                            sum,
                        ),
                        None => self@.visited[node],
                    },
                weighed(
                    weight,
                    plus,
                    self@,
                    adjacency_matrix@,
                    pheromones@,
                    self.origin(),
                    i as int,
                    total_edge_weight,
                ),
            decreases self.num_nodes - i,
        {
            if !self.visited[i] {
                let distance_to_depot = adjacency_matrix.get(cur_node, 0);
                let distance_from_depot = adjacency_matrix.get(0, i);
                let distance_to_next = adjacency_matrix.get(cur_node, i);
                let pheromone = pheromones.get(cur_node, i);
                let edge_weight = weight(
                    distance_to_depot,
                    distance_from_depot,
                    distance_to_next,
                    pheromone,
                );
                let ghost before = total_edge_weight;
                total_edge_weight = plus(total_edge_weight, edge_weight);
                distribution_vec.push(Some(total_edge_weight));
                proof {
                    assert(weighs(
                        weight,
                        plus,
                        self@,
                        adjacency_matrix@,
                        pheromones@,
                        i as int,
                        before,
                        edge_weight,
                        total_edge_weight,
                    ));
                }
            } else {
                distribution_vec.push(None);
            }
            i += 1;
        }
        (distribution_vec, total_edge_weight)
    }

    /// The node to go to when the ant is drawn to `candidate`: the depot,
    /// if the vehicle cannot take on what the candidate demands.
    pub fn find_next_node(&self, candidate: usize, nodes: &[usize]) -> (next_node: usize)
        requires
            self@.wf(),
            candidate < nodes@.len(),
        ensures
            next_node == self@.next_node(candidate, nodes@),
    {
        let available = if self.cur_node() == 0 {
            self.capacity
        } else {
            self.cur_capacity
        };
        if available < nodes[candidate] {
            0
        } else {
            candidate
        }
    }

    /// Takes one step: fills the vehicle if it stands at the depot, goes to
    /// the candidate, or to the depot if the candidate demands too much,
    /// unloads what that node demands, and has `plus` add the distance of
    /// the edge to the length of the walk.
    pub fn move_to_next<F: Fn(C, C) -> C>(
        &mut self,
        adjacency_matrix: &Matrix<C>,
        candidate: usize,
        nodes: &[usize],
        plus: F,
    )
        requires
            old(self)@.wf(),
            adjacency_matrix.wf(),
            adjacency_matrix@.len() == old(self)@.num_nodes,
            nodes@.len() == old(self)@.num_nodes,
            nodes@[0] == 0,
            candidate < nodes@.len(),
            forall|so_far: C, distance: C| plus.requires((so_far, distance)),
        ensures
            final(self)@ == old(self)@.step(candidate, nodes@),
            final(self)@.wf(),
            final(self).origin() == old(self).origin(),
            plus.ensures(
                (
                    old(self).cost(),
                    adjacency_matrix@[old(self)@.cur_node() as int][old(self)@.next_node(
                        candidate,
                        nodes@,
                    ) as int],
                ),
                final(self).cost(),
            ),
            old(self).consistent(plus, adjacency_matrix@) ==> final(self).consistent(
                plus,
                adjacency_matrix@,
            ),
    {
        let cur_node = self.cur_node();
        if cur_node == 0 {
            self.cur_capacity = self.capacity;
        }
        let next_node = self.find_next_node(candidate, nodes);
        self.path_cost = plus(self.path_cost, adjacency_matrix.get(cur_node, next_node));
        self.cur_capacity -= nodes[next_node];
        self.visit(next_node);
        proof {
            let path = self@.path;
            assert(path.drop_last() =~= old(self)@.path);
            assert(path[path.len() - 2] == cur_node && path[path.len() - 1] == next_node);
            assert(plus.ensures(
                (
                    old(self).cost(),
                    adjacency_matrix@[path[path.len() - 2] as int][path[path.len() - 1] as int],
                ),
                self.cost(),
            ));
        }
    }

    fn visit(&mut self, idx: usize)
        requires
            old(self)@.wf(),
            idx < old(self)@.num_nodes,
        ensures
            final(self)@ == old(self)@.visit(idx),
            final(self)@.wf(),
            final(self).cost() == old(self).cost(),
            final(self).origin() == old(self).origin(),
    {
        proof {
            lemma_visit_wf(self@, idx);
        }
        self.path_taken.push(idx);
        if !self.visited[idx] {
            self.visited[idx] = true;
            self.visited_count += 1;
        }
        assert(self@.visited =~= old(self)@.visit(idx).visited);
    }

    /// Lets a strategy improve the walk: the strategy begins a search with
    /// the walk, the search goes on until it is done or `max_swaps`
    /// exchanges have been made, and the ant takes the tour of the search
    /// in place of its walk and measures it.
    pub fn optimize_path<S: OptimizationStrategy, G: Fn(C, C, C, C) -> bool, F: Fn(C, C) -> C>(
        &mut self,
        adjacency_matrix: &Matrix<C>,
        strategy: S,
        improves: G,
        plus: F,
        max_swaps: usize,
    )
        requires
            old(self)@.wf(),
            strategy.takes(old(self)@.path),
            adjacency_matrix.wf(),
            adjacency_matrix@.len() == old(self)@.num_nodes,
            forall|removed: C, also_removed: C, new: C, also_new: C|
                improves.requires((removed, also_removed, new, also_new)),
            forall|so_far: C, distance: C| plus.requires((so_far, distance)),
        ensures
            final(self)@.wf(),
            final(self).origin() == old(self).origin(),
            exists|end: SearchView, steps: nat, swaps: int|
                {
                    &&& #[trigger] leads_to(
                        improves,
                        adjacency_matrix@,
                        strategy.begin(old(self)@.path),
                        end,
                        steps,
                        swaps,
                    )
                    &&& stops(improves, adjacency_matrix@, end, swaps, max_swaps)
                    &&& final(self)@ == (AntView { path: end.tour(), ..old(self)@ })
                },
            final(self).consistent(plus, adjacency_matrix@),
    {
        let mut search = strategy.optimize(self.path_taken.as_slice());
        proof {
            assert(below(self@.path, adjacency_matrix@.len()));
        }
        let ghost begun = search@;
        let settled = search.settle(adjacency_matrix, improves, max_swaps);
        let ghost end = search@;
        proof {
            let (steps, swaps) = choose|steps: nat, swaps: int|
                0 <= swaps <= max_swaps && #[trigger] leads_to(
                    improves,
                    adjacency_matrix@,
                    begun,
                    end,
                    steps,
                    swaps,
                ) && (!settled ==> swaps == max_swaps);
            strategy.lemma_admitted(self@, improves, adjacency_matrix@, end, steps, swaps);
        }
        let path = search.finish();
        let adopted = self.adopt(adjacency_matrix, path, plus);
        assert(adopted);
    }

    /// Takes a tour in place of the walk, if it goes through the very nodes
    /// that the ant has reached, measures it, and says whether it did.
    pub fn adopt<F: Fn(C, C) -> C>(
        &mut self,
        adjacency_matrix: &Matrix<C>,
        path: Vec<usize>,
        plus: F,
    ) -> (adopted: bool)
        requires
            old(self)@.wf(),
            adjacency_matrix.wf(),
            adjacency_matrix@.len() == old(self)@.num_nodes,
            forall|so_far: C, distance: C| plus.requires((so_far, distance)),
        ensures
            adopted == old(self)@.admits(path@),
            adopted ==> final(self)@ == (AntView { path: path@, ..old(self)@ }),
            !adopted ==> final(self)@ == old(self)@,
            final(self)@.wf(),
            final(self).origin() == old(self).origin(),
            adopted ==> final(self).consistent(plus, adjacency_matrix@),
            !adopted ==> final(self).cost() == old(self).cost(),
    {
        if path.len() == 0 || path[0] != 0 {
            return false;
        }
        let mut marks: Vec<bool> = Vec::new();
        let mut n: usize = 0;
        while n < self.num_nodes
            invariant
                n <= self.num_nodes,
                self@ == old(self)@,
                self@.wf(),
                marks@ == Seq::new(n as nat, |i: int| false),
            decreases self.num_nodes - n,
        {
            marks.push(false);
            assert(marks@ =~= Seq::new((n + 1) as nat, |i: int| false));
            n += 1;
        }
        let mut idx: usize = 0;
        while idx < path.len()
            invariant
                idx <= path@.len(),
                self@ == old(self)@,
                self@.wf(),
                marks@.len() == self.num_nodes,
                forall|j: int| 0 <= j < idx ==> (#[trigger] path@[j]) < self.num_nodes,
                forall|n: int|
                    0 <= n < self.num_nodes ==> (#[trigger] marks@[n] <==> exists|j: int|
                        0 <= j < idx && #[trigger] path@[j] == n),
            decreases path@.len() - idx,
        {
            let node = path[idx];
            if node >= self.num_nodes {
                assert(!(path@[idx as int] < self@.num_nodes));
                return false;
            }
            let ghost before = marks@;
            marks[node] = true;
            proof {
                assert forall|n: int| 0 <= n < self.num_nodes implies (#[trigger] marks@[n]
                    <==> exists|j: int| 0 <= j < idx + 1 && #[trigger] path@[j] == n) by {
                    if marks@[n] {
                        if n == node {
                            assert(path@[idx as int] == n);
                        } else {
                            assert(before[n]);
                            let j = choose|j: int| 0 <= j < idx && #[trigger] path@[j] == n;
                            assert(path@[j] == n);
                        }
                    }
                    if exists|j: int| 0 <= j < idx + 1 && #[trigger] path@[j] == n {
                        let j = choose|j: int| 0 <= j < idx + 1 && #[trigger] path@[j] == n;
                        if j < idx {
                            assert(before[n]);
                        }
                    }
                }
            }
            idx += 1;
        }
        let mut n: usize = 0;
        while n < self.num_nodes
            invariant
                n <= self.num_nodes,
                self@ == old(self)@,
                self@.wf(),
                marks@.len() == self.num_nodes,
                path@.len() >= 1,
                path@[0] == 0,
                forall|j: int| 0 <= j < path@.len() ==> (#[trigger] path@[j]) < self.num_nodes,
                forall|n: int|
                    0 <= n < self.num_nodes ==> (#[trigger] marks@[n] <==> exists|j: int|
                        0 <= j < path@.len() && #[trigger] path@[j] == n),
                forall|m: int| 0 <= m < n ==> #[trigger] marks@[m] == self@.visited[m],
            decreases self.num_nodes - n,
        {
            if marks[n] != self.visited[n] {
                assert(marks@[n as int] != self@.visited[n as int]);
                return false;
            }
            n += 1;
        }
        proof {
            assert forall|n: int| 0 <= n < self@.num_nodes implies (#[trigger] self@.visited[n]
                <==> exists|j: int| 0 <= j < path@.len() && #[trigger] path@[j] == n) by {
                assert(marks@[n] == self@.visited[n]);
            }
            assert(self@.admits(path@));
        }
        self.path_cost = TwoOptStrategy::calc_path_length(
            path.as_slice(),
            adjacency_matrix,
            self.no_cost,
            plus,
        );
        self.path_taken = path;
        true
    }

    /// Closes the tour: the ant goes back to the depot, and `plus` adds the
    /// distance of the edge to the length of the walk.
    pub fn complete<F: Fn(C, C) -> C>(&mut self, adjacency_matrix: &Matrix<C>, plus: F)
        requires
            old(self)@.wf(),
            adjacency_matrix.wf(),
            adjacency_matrix@.len() == old(self)@.num_nodes,
            forall|so_far: C, distance: C| plus.requires((so_far, distance)),
        ensures
            final(self)@ == old(self)@.visit(0),
            final(self)@.wf(),
            final(self).origin() == old(self).origin(),
            plus.ensures(
                (old(self).cost(), adjacency_matrix@[old(self)@.cur_node() as int][0]),
                final(self).cost(),
            ),
            old(self).consistent(plus, adjacency_matrix@) ==> final(self).consistent(
                plus,
                adjacency_matrix@,
            ),
    {
        let cur_node = self.cur_node();
        self.path_cost = plus(self.path_cost, adjacency_matrix.get(cur_node, 0));
        self.visit(0);
        proof {
            let path = self@.path;
            assert(path.drop_last() =~= old(self)@.path);
            assert(path[path.len() - 2] == cur_node && path[path.len() - 1] == 0);
            assert(plus.ensures(
                (
                    old(self).cost(),
                    adjacency_matrix@[path[path.len() - 2] as int][path[path.len() - 1] as int],
                ),
                self.cost(),
            ));
        }
    }
}

} // verus!
