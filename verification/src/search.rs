use crate::opt::{
    framed, framed_routes, lemma_swapped_index, lemma_swapped_load, multiple_paths, swapped,
    OptimizationStrategy, TwoOptStrategy,
};
use crate::routes::{
    below, depot_free, feasible, lemma_load_concat, lemma_routes_append_framed,
    lemma_routes_below, lemma_routes_depot_free, lemma_routes_exist, load, routes_of, views,
};
use crate::coverage::lemma_customer_route;
use crate::matrix::Matrix;
use vstd::prelude::*;

verus! {

/// The first route at or after `from` that is long enough to hold two
/// edges without a common node, or the number of routes if there is none.
pub open spec fn next_open(routes: Seq<Seq<usize>>, from: int) -> int
    decreases routes.len() - from,
{
    if from >= routes.len() {
        routes.len() as int
    } else if from >= 0 && routes[from].len() >= 3 {
        from
    } else {
        next_open(routes, from + 1)
    }
}

/// A local search as a mathematical value: the routes as they are now, the
/// route that is being scanned, and the two edges that are looked at next,
/// which leave the positions `i` and `k` of that route.
pub struct SearchView {
    pub routes: Seq<Seq<usize>>,
    pub route: int,
    pub i: int,
    pub k: int,
}

impl SearchView {
    /// The search that begins on the given routes.
    pub open spec fn start(routes: Seq<Seq<usize>>) -> SearchView {
        SearchView { routes, route: next_open(routes, 0), i: 0, k: 1 }
    }

    /// The search that is done with the given routes.
    pub open spec fn finished(routes: Seq<Seq<usize>>) -> SearchView {
        SearchView { routes, route: routes.len() as int, i: 0, k: 1 }
    }

    /// Whether every route has been scanned to its end.
    pub open spec fn done(self) -> bool {
        self.route >= self.routes.len()
    }

    /// Whether the two edges that are looked at next exist.
    pub open spec fn wf(self) -> bool {
        &&& 0 <= self.route <= self.routes.len()
        &&& if self.done() {
            self.i == 0 && self.k == 1
        } else {
            &&& 0 <= self.i < self.k
            &&& self.k + 1 < self.routes[self.route].len()
        }
    }

    /// The ends of the two edges that are looked at next: the first edge,
    /// then the second.
    pub open spec fn probe(self) -> (usize, usize, usize, usize) {
        let route = self.routes[self.route];
        (route[self.i], route[self.i + 1], route[self.k], route[self.k + 1])
    }

    /// The search after the answer to its question. On a yes the nodes
    /// between the two edges are put in reverse order and the scan of the
    /// route begins again. On a no the scan goes on with the next pair of
    /// edges: the next second edge, or the next first edge with the edge
    /// after it, or the first pair of the next route that has one.
    pub open spec fn answer(self, improves: bool) -> SearchView {
        let route = self.routes[self.route];
        if improves {
            SearchView {
                routes: self.routes.update(self.route, swapped(route, self.i, self.k)),
                route: self.route,
                i: 0,
                k: 1,
            }
        } else if self.k + 2 < route.len() {
            SearchView { k: self.k + 1, ..self }
        } else if self.i + 3 < route.len() {
            SearchView { i: self.i + 1, k: self.i + 2, ..self }
        } else {
            SearchView { route: next_open(self.routes, self.route + 1), i: 0, k: 1, ..self }
        }
    }

    /// The tour that the routes make.
    pub open spec fn tour(self) -> Seq<usize> {
        self.routes.flatten()
    }
}

/// The four distances that a question is about: those of the two edges
/// that are there, and those of the two edges that would take their place.
pub open spec fn quad<C>(distances: Seq<Seq<C>>, search: SearchView) -> (C, C, C, C) {
    let ends = search.probe();
    (
        distances[ends.0 as int][ends.1 as int],
        distances[ends.2 as int][ends.3 as int],
        distances[ends.0 as int][ends.2 as int],
        distances[ends.1 as int][ends.3 as int],
    )
}

/// Whether `after` is the search that `before` becomes by one answer of
/// `improves`, which is told the four distances of the question.
pub open spec fn stepped<C, F: Fn(C, C, C, C) -> bool>(
    improves: F,
    distances: Seq<Seq<C>>,
    before: SearchView,
    after: SearchView,
    improved: bool,
) -> bool {
    &&& !before.done()
    &&& improves.ensures(quad(distances, before), improved)
    &&& after == before.answer(improved)
}

/// Whether `end` is the search that `start` becomes by a number of answers
/// of `improves`, of which `swaps` were a yes.
pub open spec fn leads_to<C, F: Fn(C, C, C, C) -> bool>(
    improves: F,
    distances: Seq<Seq<C>>,
    start: SearchView,
    end: SearchView,
    steps: nat,
    swaps: int,
) -> bool
    decreases steps,
{
    if steps == 0 {
        end == start && swaps == 0
    } else {
        exists|before: SearchView, improved: bool|
            leads_to(
                improves,
                distances,
                start,
                before,
                (steps - 1) as nat,
                if improved {
                    swaps - 1
                } else {
                    swaps
                },
            ) && #[trigger] stepped(improves, distances, before, end, improved)
    }
}

/// Whether a search has come to a stop after `swaps` exchanges of at most
/// `max_swaps`: it is done, or the exchanges are used up and the answer to
/// its next question is a yes.
pub open spec fn stops<C, F: Fn(C, C, C, C) -> bool>(
    improves: F,
    distances: Seq<Seq<C>>,
    end: SearchView,
    swaps: int,
    max_swaps: usize,
) -> bool {
    &&& 0 <= swaps <= max_swaps
    &&& end.done() || (swaps == max_swaps && improves.ensures(quad(distances, end), true))
}

/// A search that is done stays as it is.
pub proof fn lemma_done_stays<C, F: Fn(C, C, C, C) -> bool>(
    improves: F,
    distances: Seq<Seq<C>>,
    start: SearchView,
    end: SearchView,
    steps: nat,
    swaps: int,
)
    requires
        start.done(),
        leads_to(improves, distances, start, end, steps, swaps),
    ensures
        end == start,
    decreases steps,
{
    if steps > 0 {
        let (before, improved) = choose|before: SearchView, improved: bool|
            leads_to(
                improves,
                distances,
                start,
                before,
                (steps - 1) as nat,
                if improved {
                    swaps - 1
                } else {
                    swaps
                },
            ) && #[trigger] stepped(improves, distances, before, end, improved);
        lemma_done_stays(
            improves,
            distances,
            start,
            before,
            (steps - 1) as nat,
            if improved {
                swaps - 1
            } else {
                swaps
            },
        );
    }
}

/// Whether every node of the routes is one of the first `nodes` nodes.
pub open spec fn all_below(routes: Seq<Seq<usize>>, nodes: nat) -> bool {
    forall|r: int, j: int|
        0 <= r < routes.len() && 0 <= j < routes[r].len() ==> (#[trigger] routes[r][j]) < nodes
}

/// A local search that goes through the pairs of edges of each route and
/// asks of each pair whether exchanging it shortens the route. The answers
/// come from whoever knows the distances.
pub struct Search {
    routes: Vec<Vec<usize>>,
    route: usize,
    i: usize,
    k: usize,
}

impl View for Search {
    type V = SearchView;

    closed spec fn view(&self) -> SearchView {
        SearchView {
            routes: views(self.routes@),
            route: self.route as int,
            i: self.i as int,
            k: self.k as int,
        }
    }
}

/// A route that is long enough lies at or after the place where the search
/// for it began, and every route between the two is too short.
pub proof fn lemma_next_open(routes: Seq<Seq<usize>>, from: int)
    requires
        0 <= from <= routes.len(),
    ensures
        from <= next_open(routes, from) <= routes.len(),
        next_open(routes, from) < routes.len() ==> routes[next_open(routes, from)].len() >= 3,
        forall|r: int| from <= r < next_open(routes, from) ==> (#[trigger] routes[r]).len() < 3,
    decreases routes.len() - from,
{
    if from < routes.len() && routes[from].len() < 3 {
        lemma_next_open(routes, from + 1);
    }
}

fn find_open(routes: &Vec<Vec<usize>>, from: usize) -> (r: usize)
    requires
        from <= routes@.len(),
    ensures
        r == next_open(views(routes@), from as int),
        from <= r <= routes@.len(),
        r < routes@.len() ==> routes@[r as int]@.len() >= 3,
{
    let mut r: usize = from;
    while r < routes.len() && routes[r].len() < 3
        invariant
            from <= r <= routes@.len(),
            next_open(views(routes@), from as int) == next_open(views(routes@), r as int),
        decreases routes@.len() - r,
    {
        r += 1;
    }
    r
}

impl Search {
    /// The search that begins at the first pair of edges of the first route
    /// that has one.
    pub fn start(routes: Vec<Vec<usize>>) -> (search: Search)
        ensures
            search@ == SearchView::start(views(routes@)),
            search@.wf(),
    {
        let route = find_open(&routes, 0);
        Search { routes, route, i: 0, k: 1 }
    }

    /// The search that has no question to ask about its routes.
    pub fn finished(routes: Vec<Vec<usize>>) -> (search: Search)
        ensures
            search@ == SearchView::finished(views(routes@)),
            search@.wf(),
    {
        let route = routes.len();
        Search { routes, route, i: 0, k: 1 }
    }

    /// Whether every route has been scanned to its end.
    pub fn is_done(&self) -> (r: bool)
        ensures
            r == self@.done(),
    {
        self.route >= self.routes.len()
    }

    /// The question that the search asks next: the ends of the edge that
    /// leaves the position `i` and of the edge that leaves the position
    /// `k`. Would the route be shorter with the first ends joined, and the
    /// second ends joined? There is no question when the search is done.
    pub fn probe(&self) -> (r: Option<(usize, usize, usize, usize)>)
        requires
            self@.wf(),
        ensures
            r == if self@.done() {
                None
            } else {
                Some(self@.probe())
            },
    {
        if self.route >= self.routes.len() {
            None
        } else {
            let route = &self.routes[self.route];
            let len = route.len();
            assert(self.k + 1 < len);
            Some((route[self.i], route[self.i + 1], route[self.k], route[self.k + 1]))
        }
    }

    /// Takes the answer to the question that `probe` gave.
    pub fn answer(&mut self, improves: bool)
        requires
            old(self)@.wf(),
            !old(self)@.done(),
        ensures
            final(self)@ == old(self)@.answer(improves),
            final(self)@.wf(),
    {
        let len = self.routes[self.route].len();
        if improves {
            let route = TwoOptStrategy::swap(self.routes[self.route].as_slice(), self.i, self.k);
            self.routes[self.route] = route;
            self.i = 0;
            self.k = 1;
            assert(views(self.routes@) =~= views(old(self).routes@).update(
                self.route as int,
                swapped(old(self).routes@[self.route as int]@, old(self).i as int, old(self).k as int),
            ));
        } else if self.k + 2 < len {
            self.k = self.k + 1;
        } else if self.i + 3 < len {
            self.i = self.i + 1;
            self.k = self.i + 1;
        } else {
            let count = self.routes.len();
            assert(self.route < count);
            self.route = find_open(&self.routes, self.route + 1);
            self.i = 0;
            self.k = 1;
        }
    }

    /// Goes on with the search until it is done or `max_swaps` exchanges
    /// have been made and one more would be: asks `improves` each question,
    /// with the distances of the two edges that are there and of the two
    /// edges that would take their place, and takes its answer. Says
    /// whether the search is done.
    pub fn settle<C: Copy, F: Fn(C, C, C, C) -> bool>(
        &mut self,
        adjacency_matrix: &Matrix<C>,
        improves: F,
        max_swaps: usize,
    ) -> (settled: bool)
        requires
            old(self)@.wf(),
            adjacency_matrix.wf(),
            all_below(old(self)@.routes, adjacency_matrix@.len()),
            forall|removed: C, also_removed: C, new: C, also_new: C|
                improves.requires((removed, also_removed, new, also_new)),
        ensures
            final(self)@.wf(),
            all_below(final(self)@.routes, adjacency_matrix@.len()),
            settled == final(self)@.done(),
            exists|steps: nat, swaps: int|
                0 <= swaps <= max_swaps && #[trigger] leads_to(
                    improves,
                    adjacency_matrix@,
                    old(self)@,
                    final(self)@,
                    steps,
                    swaps,
                ) && (!settled ==> swaps == max_swaps),
            !settled ==> improves.ensures(quad(adjacency_matrix@, final(self)@), true),
    {
        let mut swaps: usize = 0;
        let ghost mut steps: nat = 0;
        loop
            invariant
                self@.wf(),
                adjacency_matrix.wf(),
                all_below(self@.routes, adjacency_matrix@.len()),
                forall|removed: C, also_removed: C, new: C, also_new: C|
                    improves.requires((removed, also_removed, new, also_new)),
                swaps <= max_swaps,
                leads_to(improves, adjacency_matrix@, old(self)@, self@, steps, swaps as int),
            decreases
                    max_swaps - swaps,
                    self.routes@.len() - self.route,
                    if self.route < self.routes@.len() {
                        self.routes@[self.route as int]@.len() - self.i
                    } else {
                        0
                    },
                    if self.route < self.routes@.len() {
                        self.routes@[self.route as int]@.len() - self.k
                    } else {
                        0
                    },
        {
            let ghost before = self@;
            let (from_i, to_i, from_k, to_k) = match self.probe() {
                Some(ends) => ends,
                None => {
                    return true;
                },
            };
            proof {
                let route = before.routes[before.route];
                assert(route[before.i] < adjacency_matrix@.len());
                assert(route[before.i + 1] < adjacency_matrix@.len());
                assert(route[before.k] < adjacency_matrix@.len());
                assert(route[before.k + 1] < adjacency_matrix@.len());
            }
            let improved = improves(
                adjacency_matrix.get(from_i, to_i),
                adjacency_matrix.get(from_k, to_k),
                adjacency_matrix.get(from_i, from_k),
                adjacency_matrix.get(to_i, to_k),
            );
            if improved {
                if swaps == max_swaps {
                    return false;
                }
                swaps += 1;
            }
            self.answer(improved);
            proof {
                lemma_answer(before, improved);
                lemma_answer_below(before, improved, adjacency_matrix@.len());
                assert(stepped(improves, adjacency_matrix@, before, self@, improved));
                steps = steps + 1;
                let len = before.routes[before.route].len();
                if !improved {
                    assert(self@.routes == before.routes);
                    if before.k + 2 < len {
                        assert(self.route == before.route && self.i == before.i && self.k
                            == before.k + 1);
                        assert(self.routes@[self.route as int]@.len() == len);
                    } else if before.i + 3 < len {
                        assert(self.route == before.route && self.i == before.i + 1);
                        assert(self.routes@[self.route as int]@.len() == len);
                    } else {
                        lemma_next_open(before.routes, before.route + 1);
                        assert(self.route > before.route);
                    }
                }
            }
        }
    }

    /// Ends the search and gives the tour that its routes make.
    pub fn finish(self) -> (path: Vec<usize>)
        ensures
            path@ == self@.tour(),
    {
        TwoOptStrategy::convert_to_single_path(self.routes)
    }
}

/// Whether a route lies between two depot markers and holds a node or
/// more, none of them the depot.
pub open spec fn is_framed(route: Seq<usize>) -> bool {
    &&& route.len() >= 3
    &&& route[0] == 0
    &&& route.last() == 0
    &&& forall|j: int| 0 < j < route.len() - 1 ==> #[trigger] route[j] != 0
}

/// Whether each of the routes lies between two depot markers.
pub open spec fn all_framed(routes: Seq<Seq<usize>>) -> bool {
    forall|r: int| 0 <= r < routes.len() ==> is_framed(#[trigger] routes[r])
}

/// Whether none of the routes demands more than a vehicle can carry.
pub open spec fn all_within(routes: Seq<Seq<usize>>, demands: Seq<usize>, capacity: nat) -> bool {
    forall|r: int| 0 <= r < routes.len() ==> load(#[trigger] routes[r], demands) <= capacity
}

/// The nodes of a route between its depot markers.
pub open spec fn interior(route: Seq<usize>) -> Seq<usize> {
    route.subrange(1, route.len() - 1)
}

/// The routes of the tour that routes between depot markers make: after
/// each of them comes an empty route, between its closing marker and the
/// marker that opens the next.
pub open spec fn gapped(routes: Seq<Seq<usize>>) -> Seq<Seq<usize>>
    decreases routes.len(),
{
    if routes.len() == 0 {
        Seq::empty()
    } else {
        gapped(routes.drop_last()).push(interior(routes.last())).push(Seq::empty())
    }
}

/// The routes that a local search works on lie between depot markers, and
/// none of them demands more than the route of the tour that it frames.
pub proof fn lemma_framed_routes(routes: Seq<Seq<usize>>, demands: Seq<usize>, capacity: nat)
    requires
        forall|r: int| 0 <= r < routes.len() ==> depot_free(#[trigger] routes[r]),
    ensures
        all_framed(framed_routes(routes)),
        demands[0] == 0 && all_within(routes, demands, capacity) ==> all_within(
            framed_routes(routes),
            demands,
            capacity,
        ),
    decreases routes.len(),
{
    if routes.len() > 0 {
        let front = routes.drop_last();
        let last = routes.last();
        lemma_framed_routes(front, demands, capacity);
        assert(depot_free(last));
        if last.len() > 0 {
            let route = framed(last);
            assert(is_framed(route)) by {
                assert forall|j: int| 0 < j < route.len() - 1 implies #[trigger] route[j] != 0 by {
                    assert(route[j] == last[j - 1]);
                }
            }
            if demands[0] == 0 && all_within(routes, demands, capacity) {
                assert(load(last, demands) <= capacity);
                lemma_load_concat(seq![0usize] + last, seq![0usize], demands);
                lemma_load_concat(seq![0usize], last, demands);
                assert(seq![0usize].drop_last() =~= Seq::<usize>::empty());
                assert(load(seq![0usize].drop_last(), demands) == 0);
                assert(load(seq![0usize], demands) == 0);
            }
        }
        if demands[0] == 0 && all_within(routes, demands, capacity) {
            assert forall|r: int| 0 <= r < front.len() implies load(
                #[trigger] front[r],
                demands,
            ) <= capacity by {
                assert(front[r] == routes[r]);
            }
        }
    }
}

/// The tour that routes between depot markers make begins at the depot.
pub proof fn lemma_tour_begins(routes: Seq<Seq<usize>>)
    requires
        all_framed(routes),
        routes.len() > 0,
    ensures
        routes.flatten().len() > 0,
        routes.flatten()[0] == 0,
    decreases routes.len(),
{
    let front = routes.drop_last();
    assert(routes =~= front.push(routes.last()));
    front.lemma_flatten_push(routes.last());
    assert(is_framed(routes.last()));
    if front.len() > 0 {
        assert forall|r: int| 0 <= r < front.len() implies is_framed(#[trigger] front[r]) by {
            assert(front[r] == routes[r]);
        }
        lemma_tour_begins(front);
    } else {
        assert(front.flatten() =~= Seq::<usize>::empty());
    }
}

/// The routes of the tour that routes between depot markers make are the
/// nodes between the markers of each, and an empty route after each.
pub proof fn lemma_tour_routes(routes: Seq<Seq<usize>>)
    requires
        all_framed(routes),
    ensures
        routes_of(routes.flatten()) == gapped(routes),
    decreases routes.len(),
{
    if routes.len() == 0 {
        assert(routes.flatten() =~= Seq::<usize>::empty());
    } else {
        let front = routes.drop_last();
        let last = routes.last();
        assert(routes =~= front.push(last));
        front.lemma_flatten_push(last);
        assert forall|r: int| 0 <= r < front.len() implies is_framed(#[trigger] front[r]) by {
            assert(front[r] == routes[r]);
        }
        lemma_tour_routes(front);
        if front.len() > 0 {
            lemma_tour_begins(front);
        } else {
            assert(front.flatten() =~= Seq::<usize>::empty());
        }
        assert(is_framed(last));
        assert(depot_free(interior(last))) by {
            assert forall|j: int| 0 <= j < interior(last).len() implies #[trigger] interior(
                last,
            )[j] != 0 by {
                assert(interior(last)[j] == last[j + 1]);
            }
        }
        assert(last =~= seq![0usize] + interior(last) + seq![0usize]);
        lemma_routes_append_framed(front.flatten(), interior(last));
    }
}

/// Framing the routes of the tour that routes between depot markers make
/// gives those routes back.
pub proof fn lemma_gapped_framed(routes: Seq<Seq<usize>>)
    requires
        all_framed(routes),
    ensures
        framed_routes(gapped(routes)) == routes,
        routes.len() > 0 ==> framed_routes(gapped(routes).drop_last()) == routes,
    decreases routes.len(),
{
    if routes.len() > 0 {
        let front = routes.drop_last();
        let last = routes.last();
        assert forall|r: int| 0 <= r < front.len() implies is_framed(#[trigger] front[r]) by {
            assert(front[r] == routes[r]);
        }
        lemma_gapped_framed(front);
        let inner = gapped(front).push(interior(last));
        assert(gapped(routes).drop_last() =~= inner);
        assert(inner.drop_last() =~= gapped(front));
        assert(is_framed(last));
        assert(framed(interior(last)) =~= last);
        assert(routes =~= front.push(last));
        assert(inner.last().len() > 0);
        assert(framed_routes(inner) == framed_routes(gapped(front)).push(framed(interior(last))));
        assert(gapped(routes).last().len() == 0);
        assert(framed_routes(gapped(routes)) == framed_routes(gapped(routes).drop_last()));
    } else {
        assert(routes =~= Seq::<Seq<usize>>::empty());
    }
}

/// The routes that a local search works on when it begins with the tour
/// that routes between depot markers make are those routes.
pub proof fn lemma_multiple_paths_of_tour(routes: Seq<Seq<usize>>)
    requires
        all_framed(routes),
        routes.len() > 0,
    ensures
        multiple_paths(routes.flatten()) == routes,
{
    lemma_tour_routes(routes);
    lemma_gapped_framed(routes);
}

/// The tour that routes between depot markers make keeps to what a vehicle
/// can carry if each of the routes does.
pub proof fn lemma_tour_feasible(routes: Seq<Seq<usize>>, demands: Seq<usize>, capacity: nat)
    requires
        all_framed(routes),
        all_within(routes, demands, capacity),
    ensures
        feasible(routes.flatten(), demands, capacity),
{
    lemma_tour_routes(routes);
    lemma_gapped_within(routes, demands, capacity);
}

/// The nodes between the depot markers of a route demand no more than the
/// route.
pub proof fn lemma_gapped_within(routes: Seq<Seq<usize>>, demands: Seq<usize>, capacity: nat)
    requires
        all_framed(routes),
        all_within(routes, demands, capacity),
    ensures
        all_within(gapped(routes), demands, capacity),
    decreases routes.len(),
{
    if routes.len() > 0 {
        let front = routes.drop_last();
        let last = routes.last();
        assert forall|r: int| 0 <= r < front.len() implies is_framed(#[trigger] front[r]) && load(
            front[r],
            demands,
        ) <= capacity by {
            assert(front[r] == routes[r]);
        }
        lemma_gapped_within(front, demands, capacity);
        assert(is_framed(last));
        assert(last =~= seq![0usize] + interior(last) + seq![0usize]);
        lemma_load_concat(seq![0usize] + interior(last), seq![0usize], demands);
        lemma_load_concat(seq![0usize], interior(last), demands);
        assert(load(last, demands) <= capacity);
        let all = gapped(routes);
        assert forall|r: int| 0 <= r < all.len() implies load(#[trigger] all[r], demands)
            <= capacity by {
            if r < gapped(front).len() {
                assert(all[r] == gapped(front)[r]);
            }
        }
    }
}

/// What the one who knows the distances says of the pair of edges that
/// leave the positions `i` and `k` of a route.
pub open spec fn asks(
    route: Seq<usize>,
    i: int,
    k: int,
    oracle: spec_fn(usize, usize, usize, usize) -> bool,
) -> bool {
    oracle(route[i], route[i + 1], route[k], route[k + 1])
}

/// Whether no exchange shortens the route.
pub open spec fn settled(
    route: Seq<usize>,
    oracle: spec_fn(usize, usize, usize, usize) -> bool,
) -> bool {
    forall|i: int, k: int| 0 <= i < k && k + 1 < route.len() ==> !#[trigger] asks(route, i, k, oracle)
}

/// Whether no exchange shortens any of the routes.
pub open spec fn all_settled(
    routes: Seq<Seq<usize>>,
    oracle: spec_fn(usize, usize, usize, usize) -> bool,
) -> bool {
    forall|r: int| 0 <= r < routes.len() ==> settled(#[trigger] routes[r], oracle)
}

impl SearchView {
    /// The search after the answer of the one who knows the distances.
    pub open spec fn next(self, oracle: spec_fn(usize, usize, usize, usize) -> bool) -> SearchView {
        self.answer(asks(self.routes[self.route], self.i, self.k, oracle))
    }

    /// The search after a number of answers, or at its end if it comes
    /// earlier.
    pub open spec fn run(
        self,
        oracle: spec_fn(usize, usize, usize, usize) -> bool,
        steps: nat,
    ) -> SearchView
        decreases steps,
    {
        if steps == 0 || self.done() {
            self
        } else {
            self.next(oracle).run(oracle, (steps - 1) as nat)
        }
    }

    /// Whether every pair of edges that the scan has left behind, in the
    /// routes as they are now, is one that no exchange shortens.
    pub open spec fn scanned(self, oracle: spec_fn(usize, usize, usize, usize) -> bool) -> bool {
        &&& forall|r: int| 0 <= r < self.route && r < self.routes.len() ==> settled(#[trigger] self.routes[r], oracle)
        &&& !self.done() ==> forall|i: int, k: int|
            0 <= i < k && k + 1 < self.routes[self.route].len() && (i < self.i || (i == self.i && k
                < self.k)) ==> !#[trigger] asks(self.routes[self.route], i, k, oracle)
    }
}

/// A search that begins is as it should be, and has left no pair of edges
/// behind.
pub proof fn lemma_start(routes: Seq<Seq<usize>>, oracle: spec_fn(usize, usize, usize, usize) -> bool)
    ensures
        SearchView::start(routes).wf(),
        SearchView::start(routes).scanned(oracle),
{
    lemma_next_open(routes, 0);
}

/// An answer changes no route but the one that is being scanned, of which
/// it keeps the length, the depot markers and what it demands; and the
/// search after it is as it should be.
pub proof fn lemma_answer(search: SearchView, improves: bool)
    requires
        search.wf(),
        !search.done(),
    ensures
        search.answer(improves).wf(),
        search.answer(improves).routes.len() == search.routes.len(),
        forall|r: int|
            0 <= r < search.routes.len() && r != search.route ==> #[trigger] search.answer(
                improves,
            ).routes[r] == search.routes[r],
        !improves ==> search.answer(improves).routes == search.routes,
        search.answer(improves).route >= search.route,
        search.answer(improves).routes[search.route].len() == search.routes[search.route].len(),
        is_framed(search.routes[search.route]) ==> is_framed(
            search.answer(improves).routes[search.route],
        ),
        forall|demands: Seq<usize>|
            load(#[trigger] search.answer(improves).routes[search.route], demands) == load(
                search.routes[search.route],
                demands,
            ),
{
    let route = search.routes[search.route];
    let after = search.answer(improves);
    if improves {
        lemma_swapped_index(route, search.i, search.k);
        assert forall|demands: Seq<usize>|
            load(#[trigger] after.routes[search.route], demands) == load(route, demands) by {
            lemma_swapped_load(route, search.i, search.k, demands);
        }
        if is_framed(route) {
            let turned = swapped(route, search.i, search.k);
            assert forall|j: int| 0 < j < turned.len() - 1 implies #[trigger] turned[j] != 0 by {
                if search.i < j <= search.k {
                    assert(route[search.i + 1 + search.k - j] != 0);
                } else {
                    assert(route[j] != 0);
                }
            }
        }
    } else if search.k + 2 < route.len() {
    } else if search.i + 3 < route.len() {
    } else {
        lemma_next_open(search.routes, search.route + 1);
    }
}

/// The routes that a local search works on hold no node that the tour does
/// not hold.
pub proof fn lemma_framed_routes_below(routes: Seq<Seq<usize>>, nodes: nat)
    requires
        nodes > 0,
        forall|r: int| 0 <= r < routes.len() ==> below(#[trigger] routes[r], nodes),
    ensures
        all_below(framed_routes(routes), nodes),
    decreases routes.len(),
{
    if routes.len() > 0 {
        let front = routes.drop_last();
        let last = routes.last();
        assert forall|r: int| 0 <= r < front.len() implies below(#[trigger] front[r], nodes) by {
            assert(front[r] == routes[r]);
        }
        lemma_framed_routes_below(front, nodes);
        assert(below(last, nodes));
        let all = framed_routes(routes);
        let before = framed_routes(front);
        assert forall|r: int, j: int| 0 <= r < all.len() && 0 <= j < all[r].len() implies (
        #[trigger] all[r][j]) < nodes by {
            if r < before.len() {
                assert(before[r][j] < nodes);
            } else {
                if 0 < j < all[r].len() - 1 {
                    assert(all[r][j] == last[j - 1]);
                }
            }
        }
    }
}

/// The routes that a local search begins with hold no node that the tour
/// does not hold.
pub proof fn lemma_multiple_paths_below(path: Seq<usize>, nodes: nat)
    requires
        path.len() > 0,
        path[0] == 0,
        below(path, nodes),
    ensures
        all_below(multiple_paths(path), nodes),
{
    lemma_routes_exist(path);
    lemma_routes_below(path, nodes);
    let routes = routes_of(path).drop_last();
    assert forall|r: int| 0 <= r < routes.len() implies below(#[trigger] routes[r], nodes) by {
        assert(routes[r] == routes_of(path)[r]);
    }
    lemma_framed_routes_below(routes, nodes);
}

/// An answer brings no node into the routes.
pub proof fn lemma_answer_below(search: SearchView, improves: bool, nodes: nat)
    requires
        search.wf(),
        !search.done(),
        all_below(search.routes, nodes),
    ensures
        all_below(search.answer(improves).routes, nodes),
{
    lemma_answer(search, improves);
    let after = search.answer(improves);
    let route = search.routes[search.route];
    if improves {
        lemma_swapped_index(route, search.i, search.k);
    }
    assert forall|r: int, j: int| 0 <= r < after.routes.len() && 0 <= j < after.routes[r].len() implies (
    #[trigger] after.routes[r][j]) < nodes by {
        if r == search.route && improves {
            if search.i < j <= search.k {
                assert(route[search.i + 1 + search.k - j] < nodes);
            } else {
                assert(route[j] < nodes);
            }
        } else {
            assert(search.routes[r][j] < nodes);
        }
    }
}

/// An answer keeps the routes between their depot markers and within what
/// a vehicle can carry.
pub proof fn lemma_answer_keeps(
    search: SearchView,
    improves: bool,
    demands: Seq<usize>,
    capacity: nat,
)
    requires
        search.wf(),
        !search.done(),
    ensures
        all_framed(search.routes) ==> all_framed(search.answer(improves).routes),
        all_within(search.routes, demands, capacity) ==> all_within(
            search.answer(improves).routes,
            demands,
            capacity,
        ),
{
    lemma_answer(search, improves);
    let after = search.answer(improves);
    if all_framed(search.routes) {
        assert forall|r: int| 0 <= r < after.routes.len() implies is_framed(
            #[trigger] after.routes[r],
        ) by {
            assert(is_framed(search.routes[r]));
        }
    }
    if all_within(search.routes, demands, capacity) {
        assert forall|r: int| 0 <= r < after.routes.len() implies load(
            #[trigger] after.routes[r],
            demands,
        ) <= capacity by {
            assert(load(search.routes[r], demands) <= capacity);
        }
    }
}

/// After the answer of the one who knows the distances, every pair of
/// edges that the scan has left behind is still one that no exchange
/// shortens.
pub proof fn lemma_next_scanned(
    search: SearchView,
    oracle: spec_fn(usize, usize, usize, usize) -> bool,
)
    requires
        search.wf(),
        !search.done(),
        search.scanned(oracle),
    ensures
        search.next(oracle).scanned(oracle),
{
    let route = search.routes[search.route];
    let improves = asks(route, search.i, search.k, oracle);
    let after = search.next(oracle);
    lemma_answer(search, improves);
    if improves {
        assert forall|r: int| 0 <= r < after.route && r < after.routes.len() implies settled(
            #[trigger] after.routes[r],
            oracle,
        ) by {
            assert(settled(search.routes[r], oracle));
        }
    } else if search.k + 2 < route.len() {
    } else if search.i + 3 < route.len() {
    } else {
        lemma_next_open(search.routes, search.route + 1);
        assert forall|r: int| 0 <= r < after.route && r < after.routes.len() implies settled(
            #[trigger] after.routes[r],
            oracle,
        ) by {
            if r < search.route {
                assert(settled(search.routes[r], oracle));
            } else if r == search.route {
                assert forall|i: int, k: int| 0 <= i < k && k + 1 < route.len() implies !#[trigger] asks(
                    route,
                    i,
                    k,
                    oracle,
                ) by {
                    if i == search.i && k == search.k {
                    } else {
                        assert(i < search.i || (i == search.i && k < search.k));
                    }
                }
            } else {
                assert(search.routes[r].len() < 3);
            }
        }
    }
}

/// However long a search that has begun on routes between depot markers
/// goes on, it is as it should be, its routes lie between their depot
/// markers and within what a vehicle can carry if they did, and every pair
/// of edges that the scan has left behind is one that no exchange shortens.
pub proof fn lemma_run_keeps(
    search: SearchView,
    oracle: spec_fn(usize, usize, usize, usize) -> bool,
    steps: nat,
    demands: Seq<usize>,
    capacity: nat,
)
    requires
        search.wf(),
    ensures
        search.run(oracle, steps).wf(),
        search.run(oracle, steps).routes.len() == search.routes.len(),
        search.scanned(oracle) ==> search.run(oracle, steps).scanned(oracle),
        all_framed(search.routes) ==> all_framed(search.run(oracle, steps).routes),
        all_within(search.routes, demands, capacity) ==> all_within(
            search.run(oracle, steps).routes,
            demands,
            capacity,
        ),
    decreases steps,
{
    if steps > 0 && !search.done() {
        let improves = asks(search.routes[search.route], search.i, search.k, oracle);
        lemma_answer(search, improves);
        lemma_answer_keeps(search, improves, demands, capacity);
        if search.scanned(oracle) {
            lemma_next_scanned(search, oracle);
        }
        lemma_run_keeps(search.next(oracle), oracle, (steps - 1) as nat, demands, capacity);
    }
}

/// Where no exchange shortens any route, a search changes no route,
/// however long it goes on.
pub proof fn lemma_settled_run(
    search: SearchView,
    oracle: spec_fn(usize, usize, usize, usize) -> bool,
    steps: nat,
)
    requires
        search.wf(),
        all_settled(search.routes, oracle),
    ensures
        search.run(oracle, steps).routes == search.routes,
    decreases steps,
{
    if steps > 0 && !search.done() {
        let route = search.routes[search.route];
        assert(settled(route, oracle));
        assert(!asks(route, search.i, search.k, oracle));
        lemma_answer(search, false);
        lemma_settled_run(search.next(oracle), oracle, (steps - 1) as nat);
    }
}

/// A second local search changes nothing: when a search has come to its
/// end, a search that begins with its tour and gets its answers from the
/// same one who knows the distances has that tour, however long it goes on.
pub proof fn lemma_second_search_keeps_tour(
    path: Seq<usize>,
    oracle: spec_fn(usize, usize, usize, usize) -> bool,
    steps: nat,
    more: nat,
)
    requires
        path.len() > 0,
        path[0] == 0,
        SearchView::start(multiple_paths(path)).run(oracle, steps).done(),
        SearchView::start(multiple_paths(path)).run(oracle, steps).tour().len() > 0,
    ensures
        SearchView::start(
            multiple_paths(SearchView::start(multiple_paths(path)).run(oracle, steps).tour()),
        ).run(oracle, more).tour() == SearchView::start(multiple_paths(path)).run(
            oracle,
            steps,
        ).tour(),
{
    let routes = routes_of(path).drop_last();
    lemma_routes_exist(path);
    lemma_routes_depot_free(path);
    assert forall|r: int| 0 <= r < routes.len() implies depot_free(#[trigger] routes[r]) by {
        assert(routes[r] == routes_of(path)[r]);
    }
    lemma_framed_routes(routes, Seq::empty(), 0);
    let first = SearchView::start(multiple_paths(path));
    lemma_start(multiple_paths(path), oracle);
    lemma_run_keeps(first, oracle, steps, Seq::empty(), 0);
    let end = first.run(oracle, steps);
    assert(all_settled(end.routes, oracle));
    if end.routes.len() == 0 {
        assert(end.routes.flatten() =~= Seq::<usize>::empty());
    }
    lemma_multiple_paths_of_tour(end.routes);
    let second = SearchView::start(end.routes);
    lemma_start(end.routes, oracle);
    lemma_settled_run(second, oracle, more);
}

/// Whether `improves` gives one answer to each question.
pub open spec fn decided<C, F: Fn(C, C, C, C) -> bool>(improves: F) -> bool {
    forall|distances: (C, C, C, C)|
        !(#[trigger] improves.ensures(distances, true) && improves.ensures(distances, false))
}

/// What `improves` says of the exchange of the edge from `a` to `b` and the
/// edge from `c` to `d`, over the given distances.
pub open spec fn oracle_of<C, F: Fn(C, C, C, C) -> bool>(
    improves: F,
    distances: Seq<Seq<C>>,
) -> spec_fn(usize, usize, usize, usize) -> bool {
    |a: usize, b: usize, c: usize, d: usize|
        improves.ensures(
            (
                distances[a as int][b as int],
                distances[c as int][d as int],
                distances[a as int][c as int],
                distances[b as int][d as int],
            ),
            true,
        )
}

/// However long a search goes on, it is as it should be, and its routes lie
/// between their depot markers and within what a vehicle can carry if they
/// did.
pub proof fn lemma_leads_to_keeps<C, F: Fn(C, C, C, C) -> bool>(
    improves: F,
    distances: Seq<Seq<C>>,
    start: SearchView,
    end: SearchView,
    steps: nat,
    swaps: int,
    demands: Seq<usize>,
    capacity: nat,
)
    requires
        start.wf(),
        leads_to(improves, distances, start, end, steps, swaps),
    ensures
        end.wf(),
        end.routes.len() == start.routes.len(),
        all_framed(start.routes) ==> all_framed(end.routes),
        all_within(start.routes, demands, capacity) ==> all_within(end.routes, demands, capacity),
    decreases steps,
{
    if steps > 0 {
        let (before, improved) = choose|before: SearchView, improved: bool|
            leads_to(
                improves,
                distances,
                start,
                before,
                (steps - 1) as nat,
                if improved {
                    swaps - 1
                } else {
                    swaps
                },
            ) && #[trigger] stepped(improves, distances, before, end, improved);
        lemma_leads_to_keeps(
            improves,
            distances,
            start,
            before,
            (steps - 1) as nat,
            if improved {
                swaps - 1
            } else {
                swaps
            },
            demands,
            capacity,
        );
        lemma_answer(before, improved);
        lemma_answer_keeps(before, improved, demands, capacity);
    }
}

/// A search that gets its answers from one that gives one answer to each
/// question is the search that those answers make.
pub proof fn lemma_leads_to_run<C, F: Fn(C, C, C, C) -> bool>(
    improves: F,
    distances: Seq<Seq<C>>,
    start: SearchView,
    end: SearchView,
    steps: nat,
    swaps: int,
)
    requires
        decided(improves),
        leads_to(improves, distances, start, end, steps, swaps),
    ensures
        end == start.run(oracle_of(improves, distances), steps),
    decreases steps,
{
    let oracle = oracle_of(improves, distances);
    if steps > 0 {
        let (before, improved) = choose|before: SearchView, improved: bool|
            leads_to(
                improves,
                distances,
                start,
                before,
                (steps - 1) as nat,
                if improved {
                    swaps - 1
                } else {
                    swaps
                },
            ) && #[trigger] stepped(improves, distances, before, end, improved);
        lemma_leads_to_run(
            improves,
            distances,
            start,
            before,
            (steps - 1) as nat,
            if improved {
                swaps - 1
            } else {
                swaps
            },
        );
        assert(improved == asks(before.routes[before.route], before.i, before.k, oracle)) by {
            let ends = before.probe();
            assert(oracle(ends.0, ends.1, ends.2, ends.3) == improves.ensures(
                quad(distances, before),
                true,
            ));
        }
        assert(end == before.next(oracle));
        lemma_run_last(start, oracle, (steps - 1) as nat);
    }
}

/// One more answer after a number of answers is that number and one of
/// answers, where the search is not done before.
pub proof fn lemma_run_last(
    search: SearchView,
    oracle: spec_fn(usize, usize, usize, usize) -> bool,
    steps: nat,
)
    requires
        !search.run(oracle, steps).done(),
    ensures
        search.run(oracle, steps + 1) == search.run(oracle, steps).next(oracle),
    decreases steps,
{
    if steps > 0 {
        if search.done() {
            assert(search.run(oracle, steps) == search);
        } else {
            let next = search.next(oracle);
            assert(search.run(oracle, steps) == next.run(oracle, (steps - 1) as nat));
            lemma_run_last(next, oracle, (steps - 1) as nat);
            assert(search.run(oracle, steps + 1) == next.run(oracle, steps));
        }
    } else {
        assert(search.run(oracle, 0) == search);
        assert(search.run(oracle, 1) == search.next(oracle).run(oracle, 0));
        assert(search.next(oracle).run(oracle, 0) == search.next(oracle));
    }
}

/// A tour that keeps to what a vehicle can carry still does after the search
/// that the exchange of two edges begins with it, whatever the answers were
/// and however many.
pub proof fn lemma_two_opt_keeps_feasible<C, F: Fn(C, C, C, C) -> bool>(
    improves: F,
    distances: Seq<Seq<C>>,
    path: Seq<usize>,
    end: SearchView,
    steps: nat,
    swaps: int,
    demands: Seq<usize>,
    capacity: nat,
)
    requires
        path.len() > 0,
        path[0] == 0,
        demands[0] == 0,
        feasible(path, demands, capacity),
        leads_to(improves, distances, TwoOptStrategy.begin(path), end, steps, swaps),
    ensures
        feasible(end.tour(), demands, capacity),
{
    let routes = routes_of(path).drop_last();
    lemma_routes_exist(path);
    lemma_routes_depot_free(path);
    assert forall|r: int| 0 <= r < routes.len() implies depot_free(#[trigger] routes[r]) && load(
        routes[r],
        demands,
    ) <= capacity by {
        assert(routes[r] == routes_of(path)[r]);
    }
    lemma_framed_routes(routes, demands, capacity);
    let start = SearchView::start(multiple_paths(path));
    lemma_next_open(multiple_paths(path), 0);
    lemma_leads_to_keeps(improves, distances, start, end, steps, swaps, demands, capacity);
    lemma_tour_feasible(end.routes, demands, capacity);
}

/// The tour of the search that the exchange of two edges begins with a tour
/// ends at the depot, where it is not empty.
pub proof fn lemma_two_opt_closed<C, F: Fn(C, C, C, C) -> bool>(
    improves: F,
    distances: Seq<Seq<C>>,
    path: Seq<usize>,
    end: SearchView,
    steps: nat,
    swaps: int,
)
    requires
        path.len() > 0,
        path[0] == 0,
        leads_to(improves, distances, TwoOptStrategy.begin(path), end, steps, swaps),
        end.tour().len() > 0,
    ensures
        end.tour().last() == 0,
{
    let routes = routes_of(path).drop_last();
    lemma_routes_exist(path);
    lemma_routes_depot_free(path);
    assert forall|r: int| 0 <= r < routes.len() implies depot_free(#[trigger] routes[r]) by {
        assert(routes[r] == routes_of(path)[r]);
    }
    lemma_framed_routes(routes, Seq::empty(), 0);
    let start = SearchView::start(multiple_paths(path));
    lemma_next_open(multiple_paths(path), 0);
    lemma_leads_to_keeps(improves, distances, start, end, steps, swaps, Seq::empty(), 0);
    if end.routes.len() == 0 {
        assert(end.routes.flatten() =~= Seq::<usize>::empty());
    }
    let front = end.routes.drop_last();
    assert(end.routes =~= front.push(end.routes.last()));
    front.lemma_flatten_push(end.routes.last());
    assert(is_framed(end.routes.last()));
}

/// A second search changes nothing: when the search that the exchange of
/// two edges begins with a walk, closed at the depot and through a node
/// that is not the depot, has come to its end, the search that it begins
/// with the tour of the first, and that gets its answers from the same one,
/// who gives one answer to each question, has that tour, however long it
/// goes on.
pub proof fn lemma_two_opt_twice<C, F: Fn(C, C, C, C) -> bool>(
    improves: F,
    distances: Seq<Seq<C>>,
    path: Seq<usize>,
    first: SearchView,
    steps: nat,
    swaps: int,
    second: SearchView,
    more: nat,
    more_swaps: int,
)
    requires
        decided(improves),
        path[0] == 0,
        TwoOptStrategy.takes(path),
        leads_to(improves, distances, TwoOptStrategy.begin(path), first, steps, swaps),
        first.done(),
        leads_to(improves, distances, TwoOptStrategy.begin(first.tour()), second, more, more_swaps),
    ensures
        second.tour() == first.tour(),
{
    let oracle = oracle_of(improves, distances);
    assert(first.tour().len() > 0) by {
        let routes = routes_of(path).drop_last();
        lemma_routes_exist(path);
        lemma_routes_depot_free(path);
        assert forall|r: int| 0 <= r < routes.len() implies depot_free(#[trigger] routes[r]) by {
            assert(routes[r] == routes_of(path)[r]);
        }
        lemma_framed_routes(routes, Seq::empty(), 0);
        lemma_customer_route(path);
        lemma_next_open(multiple_paths(path), 0);
        lemma_leads_to_keeps(
            improves,
            distances,
            SearchView::start(multiple_paths(path)),
            first,
            steps,
            swaps,
            Seq::empty(),
            0,
        );
        lemma_tour_begins(first.routes);
    }
    lemma_leads_to_run(improves, distances, TwoOptStrategy.begin(path), first, steps, swaps);
    lemma_leads_to_run(
        improves,
        distances,
        TwoOptStrategy.begin(first.tour()),
        second,
        more,
        more_swaps,
    );
    lemma_second_search_keeps_tour(path, oracle, steps, more);
}

/// Of the answers of a search not fewer than none were a yes, and no more
/// than there were answers.
pub proof fn lemma_leads_to_counts<C, F: Fn(C, C, C, C) -> bool>(
    improves: F,
    distances: Seq<Seq<C>>,
    start: SearchView,
    end: SearchView,
    steps: nat,
    swaps: int,
)
    requires
        leads_to(improves, distances, start, end, steps, swaps),
    ensures
        0 <= swaps <= steps,
    decreases steps,
{
    if steps > 0 {
        let (before, improved) = choose|before: SearchView, improved: bool|
            leads_to(
                improves,
                distances,
                start,
                before,
                (steps - 1) as nat,
                if improved {
                    swaps - 1
                } else {
                    swaps
                },
            ) && #[trigger] stepped(improves, distances, before, end, improved);
        lemma_leads_to_counts(
            improves,
            distances,
            start,
            before,
            (steps - 1) as nat,
            if improved {
                swaps - 1
            } else {
                swaps
            },
        );
    }
}

/// A search that has made no exchange has the routes that it began with.
pub proof fn lemma_no_exchange<C, F: Fn(C, C, C, C) -> bool>(
    improves: F,
    distances: Seq<Seq<C>>,
    start: SearchView,
    end: SearchView,
    steps: nat,
)
    requires
        start.wf(),
        leads_to(improves, distances, start, end, steps, 0),
    ensures
        end.routes == start.routes,
    decreases steps,
{
    if steps > 0 {
        let (before, improved) = choose|before: SearchView, improved: bool|
            leads_to(
                improves,
                distances,
                start,
                before,
                (steps - 1) as nat,
                if improved {
                    -1int
                } else {
                    0int
                },
            ) && #[trigger] stepped(improves, distances, before, end, improved);
        if improved {
            lemma_leads_to_counts(improves, distances, start, before, (steps - 1) as nat, -1);
        } else {
            lemma_no_exchange(improves, distances, start, before, (steps - 1) as nat);
            lemma_leads_to_keeps(
                improves,
                distances,
                start,
                before,
                (steps - 1) as nat,
                0,
                Seq::empty(),
                0,
            );
            lemma_answer(before, false);
        }
    }
}

/// A search that comes to its end makes an exchange wherever there is one
/// to make. Where `improves` gives one answer to each question, and says of
/// a pair of edges of a route of a tour that exchanging it shortens the
/// route, the search that begins with the tour and comes to its end has
/// made an exchange.
pub proof fn lemma_two_opt_exchanges<C, F: Fn(C, C, C, C) -> bool>(
    improves: F,
    distances: Seq<Seq<C>>,
    path: Seq<usize>,
    end: SearchView,
    steps: nat,
    swaps: int,
)
    requires
        decided(improves),
        !all_settled(multiple_paths(path), oracle_of(improves, distances)),
        leads_to(improves, distances, TwoOptStrategy.begin(path), end, steps, swaps),
        end.done(),
    ensures
        swaps >= 1,
{
    let oracle = oracle_of(improves, distances);
    let start = SearchView::start(multiple_paths(path));
    lemma_leads_to_counts(improves, distances, start, end, steps, swaps);
    if swaps == 0 {
        lemma_start(multiple_paths(path), oracle);
        lemma_no_exchange(improves, distances, start, end, steps);
        lemma_leads_to_run(improves, distances, start, end, steps, swaps);
        lemma_run_keeps(start, oracle, steps, Seq::empty(), 0);
        assert(all_settled(end.routes, oracle));
    }
}

} // verus!
