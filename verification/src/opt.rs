use crate::matrix::Matrix;
use crate::routes::{
    below, lemma_load_concat, lemma_load_reverse, lemma_routes_exist, load, path_to_routes,
    routes_of, views,
};
use crate::ant::AntView;
use crate::coverage::lemma_two_opt_admitted;
use crate::search::{
    all_below, leads_to, lemma_done_stays, lemma_multiple_paths_below, stops, Search, SearchView,
};
use vstd::prelude::*;
use vstd::slice::slice_to_vec;

verus! {

/// A route with the nodes between the positions `i + 1` and `k` in reverse
/// order.
pub open spec fn swapped(path: Seq<usize>, i: int, k: int) -> Seq<usize> {
    path.subrange(0, i + 1) + path.subrange(i + 1, k + 1).reverse() + path.subrange(
        k + 1,
        path.len() as int,
    )
}

/// The node at each position of a route after an exchange: the nodes
/// between the two edges change places end for end, the others stay.
pub proof fn lemma_swapped_index(path: Seq<usize>, i: int, k: int)
    requires
        0 <= i <= k < path.len(),
    ensures
        swapped(path, i, k).len() == path.len(),
        forall|j: int|
            0 <= j < path.len() ==> #[trigger] swapped(path, i, k)[j] == if i < j <= k {
                path[i + 1 + k - j]
            } else {
                path[j]
            },
{
    let middle = path.subrange(i + 1, k + 1);
    assert forall|j: int| 0 <= j < path.len() implies #[trigger] swapped(path, i, k)[j] == if i
        < j <= k {
        path[i + 1 + k - j]
    } else {
        path[j]
    } by {
        if i < j <= k {
            assert(swapped(path, i, k)[j] == middle.reverse()[j - i - 1]);
        }
    }
}

/// An exchange changes nothing of what a route demands.
pub proof fn lemma_swapped_load(path: Seq<usize>, i: int, k: int, demands: Seq<usize>)
    requires
        0 <= i <= k < path.len(),
    ensures
        load(swapped(path, i, k), demands) == load(path, demands),
{
    let head = path.subrange(0, i + 1);
    let middle = path.subrange(i + 1, k + 1);
    let tail = path.subrange(k + 1, path.len() as int);
    lemma_load_concat(head + middle.reverse(), tail, demands);
    lemma_load_concat(head, middle.reverse(), demands);
    lemma_load_reverse(middle, demands);
    lemma_load_concat(head + middle, tail, demands);
    lemma_load_concat(head, middle, demands);
    assert(head + middle + tail =~= path);
}

/// A route between two depot markers.
pub open spec fn framed(route: Seq<usize>) -> Seq<usize> {
    seq![0usize] + route + seq![0usize]
}

/// The routes that visit a node, each between two depot markers, in their
/// order.
pub open spec fn framed_routes(routes: Seq<Seq<usize>>) -> Seq<Seq<usize>>
    decreases routes.len(),
{
    if routes.len() == 0 {
        Seq::empty()
    } else if routes.last().len() == 0 {
        framed_routes(routes.drop_last())
    } else {
        framed_routes(routes.drop_last()).push(framed(routes.last()))
    }
}

/// The routes that a local search works on: the routes of the tour but the
/// one after its last depot marker, each between two depot markers.
pub open spec fn multiple_paths(path: Seq<usize>) -> Seq<Seq<usize>> {
    framed_routes(routes_of(path).drop_last())
}

/// Whether `length` is what a tour measures when one begins with `start`
/// and lets `plus` add the distance of each edge of the tour, in the order
/// of the tour, to what one has so far.
pub open spec fn measured<C, F: Fn(C, C) -> C>(
    plus: F,
    distances: Seq<Seq<C>>,
    path: Seq<usize>,
    start: C,
    length: C,
) -> bool
    decreases path.len(),
{
    if path.len() <= 1 {
        length == start
    } else {
        exists|before: C|
            measured(plus, distances, path.drop_last(), start, before) && #[trigger] plus.ensures(
                (before, distances[path[path.len() - 2] as int][path[path.len() - 1] as int]),
                length,
            )
    }
}

/// A way to improve a finished tour route by route.
pub trait OptimizationStrategy {
    /// The search that the strategy begins with for a tour.
    spec fn begin(&self, path: Seq<usize>) -> SearchView;

    /// Whether the strategy is one for a walk.
    spec fn takes(&self, path: Seq<usize>) -> bool;

    /// The tour of the search goes through the very nodes that the ant has
    /// reached, however long the search goes on.
    proof fn lemma_admitted<C, F: Fn(C, C, C, C) -> bool>(
        &self,
        ant: AntView,
        improves: F,
        distances: Seq<Seq<C>>,
        end: SearchView,
        steps: nat,
        swaps: int,
    )
        requires
            ant.wf(),
            self.takes(ant.path),
            leads_to(improves, distances, self.begin(ant.path), end, steps, swaps),
        ensures
            ant.admits(end.tour()),
    ;

    /// Begins the search for a better tour.
    fn optimize(&self, path: &[usize]) -> (search: Search)
        requires
            path@.len() > 0,
            path@[0] == 0,
        ensures
            search@ == self.begin(path@),
            search@.wf(),
            forall|nodes: nat|
                below(path@, nodes) ==> #[trigger] all_below(search@.routes, nodes),
    ;

    /// Measures a tour: begins with `start` and lets `plus` add the
    /// distance of each edge of the tour, in the order of the tour, to what
    /// it has so far.
    fn calc_path_length<C: Copy, F: Fn(C, C) -> C>(
        path: &[usize],
        adjacency_matrix: &Matrix<C>,
        start: C,
        plus: F,
    ) -> (length: C)
        requires
            adjacency_matrix.wf(),
            forall|k: int| 0 <= k < path@.len() ==> (#[trigger] path@[k]) < adjacency_matrix@.len(),
            forall|so_far: C, distance: C| plus.requires((so_far, distance)),
        ensures
            measured(plus, adjacency_matrix@, path@, start, length),
    {
        let mut length = start;
        if path.len() == 0 {
            return length;
        }
        let mut i: usize = 0;
        assert(path@.take(1).len() == 1);
        while i < path.len() - 1
            invariant
                path@.len() > 0,
                i <= path@.len() - 1,
                adjacency_matrix.wf(),
                forall|k: int|
                    0 <= k < path@.len() ==> (#[trigger] path@[k]) < adjacency_matrix@.len(),
                forall|so_far: C, distance: C| plus.requires((so_far, distance)),
                measured(plus, adjacency_matrix@, path@.take(i + 1), start, length),
            decreases path@.len() - i,
        {
            let ghost before = length;
            length = plus(length, adjacency_matrix.get(path[i], path[i + 1]));
            proof {
                let now = path@.take(i + 2);
                assert(now.drop_last() =~= path@.take(i + 1));
                assert(plus.ensures(
                    (before, adjacency_matrix@[now[now.len() - 2] as int][now[now.len() - 1] as int]),
                    length,
                ));
            }
            i += 1;
        }
        assert(path@.take(i + 1) =~= path@);
        length
    }

    /// Splits a tour into the routes that a local search works on.
    fn convert_to_multiple_paths(path: &[usize]) -> (paths: Vec<Vec<usize>>)
        requires
            path@.len() > 0,
            path@[0] == 0,
        ensures
            views(paths@) == multiple_paths(path@),
    {
        let routes = path_to_routes(path);
        proof {
            lemma_routes_exist(path@);
        }
        let mut paths: Vec<Vec<usize>> = Vec::new();
        let mut r: usize = 0;
        assert(views(routes@).drop_last().take(0) =~= Seq::<Seq<usize>>::empty());
        while r + 1 < routes.len()
            invariant
                r + 1 <= routes.len(),
                views(paths@) == framed_routes(views(routes@).drop_last().take(r as int)),
            decreases routes.len() - r,
        {
            let ghost before = views(routes@).drop_last().take(r as int);
            let ghost now = views(routes@).drop_last().take(r + 1);
            assert(now.drop_last() =~= before);
            assert(now.last() == routes@[r as int]@);
            if routes[r].len() > 0 {
                let mut route: Vec<usize> = Vec::new();
                route.push(0);
                let mut j: usize = 0;
                while j < routes[r].len()
                    invariant
                        r < routes.len(),
                        j <= routes@[r as int]@.len(),
                        route@ == seq![0usize] + routes@[r as int]@.take(j as int),
                    decreases routes@[r as int]@.len() - j,
                {
                    route.push(routes[r][j]);
                    assert(route@ =~= seq![0usize] + routes@[r as int]@.take(j + 1));
                    j += 1;
                }
                assert(routes@[r as int]@.take(j as int) =~= routes@[r as int]@);
                route.push(0);
                assert(route@ =~= framed(routes@[r as int]@));
                let ghost old_paths = views(paths@);
                paths.push(route);
                assert(views(paths@) =~= old_paths.push(framed(routes@[r as int]@)));
            }
            r += 1;
        }
        assert(views(routes@).drop_last().take(r as int) =~= views(routes@).drop_last());
        paths
    }

    /// Joins routes to one tour.
    fn convert_to_single_path(paths: Vec<Vec<usize>>) -> (path: Vec<usize>)
        ensures
            path@ == views(paths@).flatten(),
    {
        let mut path: Vec<usize> = Vec::new();
        let mut r: usize = 0;
        assert(views(paths@).take(0) =~= Seq::<Seq<usize>>::empty());
        while r < paths.len()
            invariant
                r <= paths.len(),
                path@ == views(paths@).take(r as int).flatten(),
            decreases paths.len() - r,
        {
            let ghost before = path@;
            let mut j: usize = 0;
            while j < paths[r].len()
                invariant
                    r < paths.len(),
                    j <= paths@[r as int]@.len(),
                    path@ == before + paths@[r as int]@.take(j as int),
                decreases paths@[r as int]@.len() - j,
            {
                path.push(paths[r][j]);
                assert(path@ =~= before + paths@[r as int]@.take(j + 1));
                j += 1;
            }
            proof {
                assert(paths@[r as int]@.take(j as int) =~= paths@[r as int]@);
                assert(views(paths@).take(r + 1) =~= views(paths@).take(r as int).push(
                    paths@[r as int]@,
                ));
                views(paths@).take(r as int).lemma_flatten_push(paths@[r as int]@);
            }
            r += 1;
        }
        assert(views(paths@).take(r as int) =~= views(paths@));
        path
    }
}

/// Local search by exchanging two edges of a route.
#[derive(Clone, Copy, Debug)]
pub struct TwoOptStrategy;

/// The strategy that leaves a tour as it is.
#[derive(Clone, Copy, Debug)]
pub struct NoOpStrategy;

impl OptimizationStrategy for TwoOptStrategy {
    /// The search begins at the first pair of edges of the first route that
    /// has one.
    open spec fn begin(&self, path: Seq<usize>) -> SearchView {
        SearchView::start(multiple_paths(path))
    }

    /// The exchange of two edges is for a walk that is closed at the depot
    /// and goes through a node that is not the depot.
    open spec fn takes(&self, path: Seq<usize>) -> bool {
        &&& path.len() > 0
        &&& path.last() == 0
        &&& exists|j: int| 0 <= j < path.len() && #[trigger] path[j] != 0
    }

    proof fn lemma_admitted<C, F: Fn(C, C, C, C) -> bool>(
        &self,
        ant: AntView,
        improves: F,
        distances: Seq<Seq<C>>,
        end: SearchView,
        steps: nat,
        swaps: int,
    ) {
        lemma_two_opt_admitted(ant, improves, distances, end, steps, swaps);
    }

    fn optimize(&self, path: &[usize]) -> (search: Search) {
        proof {
            assert forall|nodes: nat| below(path@, nodes) implies #[trigger] all_below(
                multiple_paths(path@),
                nodes,
            ) by {
                lemma_multiple_paths_below(path@, nodes);
            }
        }
        Search::start(Self::convert_to_multiple_paths(path))
    }
}

impl OptimizationStrategy for NoOpStrategy {
    /// The search has no question to ask: it is done, and its tour is the
    /// tour that was given.
    open spec fn begin(&self, path: Seq<usize>) -> SearchView {
        SearchView::finished(seq![path])
    }

    /// Leaving a walk as it is is for every walk.
    open spec fn takes(&self, path: Seq<usize>) -> bool {
        true
    }

    proof fn lemma_admitted<C, F: Fn(C, C, C, C) -> bool>(
        &self,
        ant: AntView,
        improves: F,
        distances: Seq<Seq<C>>,
        end: SearchView,
        steps: nat,
        swaps: int,
    ) {
        lemma_done_stays(improves, distances, self.begin(ant.path), end, steps, swaps);
        seq![ant.path].lemma_flatten_singleton();
    }

    fn optimize(&self, path: &[usize]) -> (search: Search)
        ensures
            search@.tour() == path@,
    {
        let mut routes: Vec<Vec<usize>> = Vec::new();
        routes.push(slice_to_vec(path));
        proof {
            assert(views(routes@) =~= seq![path@]);
            seq![path@].lemma_flatten_singleton();
        }
        Search::finished(routes)
    }
}

impl TwoOptStrategy {
    /// Improves one route: exchanges two edges wherever `improves` says
    /// that it shortens the route, and begins again after each exchange,
    /// until no exchange does or `max_swaps` exchanges have been made.
    pub fn optimize_path<C: Copy, F: Fn(C, C, C, C) -> bool>(
        path: Vec<usize>,
        adjacency_matrix: &Matrix<C>,
        improves: F,
        max_swaps: usize,
    ) -> (optimized: Vec<usize>)
        requires
            adjacency_matrix.wf(),
            below(path@, adjacency_matrix@.len()),
            forall|removed: C, also_removed: C, new: C, also_new: C|
                improves.requires((removed, also_removed, new, also_new)),
        ensures
            exists|end: SearchView, steps: nat, swaps: int|
                {
                    &&& #[trigger] leads_to(
                        improves,
                        adjacency_matrix@,
                        SearchView::start(seq![path@]),
                        end,
                        steps,
                        swaps,
                    )
                    &&& stops(improves, adjacency_matrix@, end, swaps, max_swaps)
                    &&& optimized@ == end.tour()
                },
    {
        let mut routes: Vec<Vec<usize>> = Vec::new();
        routes.push(path);
        proof {
            assert(views(routes@) =~= seq![path@]);
        }
        let mut search = Search::start(routes);
        search.settle(adjacency_matrix, improves, max_swaps);
        search.finish()
    }

    /// Copies a route with the nodes between the positions `i + 1` and `k`
    /// in reverse order.
    pub fn swap(path: &[usize], i: usize, k: usize) -> (swapped_path: Vec<usize>)
        requires
            i <= k < path@.len(),
        ensures
            swapped_path@ == swapped(path@, i as int, k as int),
    {
        let mut swapped_path: Vec<usize> = Vec::with_capacity(path.len());
        let mut j: usize = 0;
        while j <= i
            invariant
                i <= k < path@.len(),
                j <= i + 1,
                swapped_path@ == path@.subrange(0, j as int),
            decreases i + 1 - j,
        {
            swapped_path.push(path[j]);
            assert(swapped_path@ =~= path@.subrange(0, j + 1));
            j += 1;
        }
        let ghost head = swapped_path@;
        let ghost middle = path@.subrange(i + 1, k + 1).reverse();
        let mut j: usize = k;
        while j > i
            invariant
                i <= j <= k < path@.len(),
                head == path@.subrange(0, i + 1),
                middle == path@.subrange(i + 1, k + 1).reverse(),
                swapped_path@ == head + middle.take(k - j),
            decreases j,
        {
            swapped_path.push(path[j]);
            assert(middle[k - j] == path@[j as int]);
            assert(swapped_path@ =~= head + middle.take(k - j + 1));
            j -= 1;
        }
        assert(middle.take(k - i) =~= middle);
        let mut j: usize = k + 1;
        while j < path.len()
            invariant
                k + 1 <= j <= path@.len(),
                swapped_path@ == head + middle + path@.subrange(k + 1, j as int),
            decreases path@.len() - j,
        {
            swapped_path.push(path[j]);
            assert(swapped_path@ =~= head + middle + path@.subrange(k + 1, j + 1));
            j += 1;
        }
        swapped_path
    }
}

} // verus!
