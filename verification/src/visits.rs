use crate::ant::{lemma_count_full, AntView};
use crate::coverage::lemma_two_opt_admitted;
use crate::opt::{framed, framed_routes, multiple_paths, OptimizationStrategy, TwoOptStrategy};
use crate::routes::{
    below, depot_free, lemma_last_route, lemma_load_concat, lemma_routes_depot_free,
    lemma_routes_exist, load, routes_of,
};
use crate::search::{
    all_framed, interior, is_framed, leads_to, lemma_answer, lemma_framed_routes,
    lemma_leads_to_keeps, lemma_next_open, stepped, SearchView,
};
use vstd::prelude::*;

verus! {

/// How often a node stands in a walk.
pub open spec fn count(path: Seq<usize>, node: usize) -> nat
    decreases path.len(),
{
    if path.len() == 0 {
        0
    } else {
        count(path.drop_last(), node) + if path.last() == node {
            1nat
        } else {
            0nat
        }
    }
}

/// Whether each node but the depot stands once in a walk.
pub open spec fn once(path: Seq<usize>, nodes: nat) -> bool {
    forall|n: usize| 0 < n < nodes ==> #[trigger] count(path, n) == 1
}

/// Whether a walk has gone once to each node but the depot that the ant
/// has reached, and never to the others.
pub open spec fn direct(ant: AntView) -> bool {
    forall|n: usize|
        0 < n < ant.num_nodes ==> #[trigger] count(ant.path, n) == if ant.visited[n as int] {
            1nat
        } else {
            0nat
        }
}

/// The demands under which one node demands one and the others nothing.
pub open spec fn only(nodes: nat, node: usize) -> Seq<usize> {
    Seq::new(
        nodes,
        |n: int|
            if n == node {
                1usize
            } else {
                0usize
            },
    )
}

/// What routes demand together.
pub open spec fn loads(routes: Seq<Seq<usize>>, demands: Seq<usize>) -> nat
    decreases routes.len(),
{
    if routes.len() == 0 {
        0
    } else {
        loads(routes.drop_last(), demands) + load(routes.last(), demands)
    }
}

/// How often a node stands in a walk is what the walk demands where that
/// node demands one and the others nothing.
pub proof fn lemma_count_load(path: Seq<usize>, nodes: nat, node: usize)
    requires
        below(path, nodes),
        node < nodes,
    ensures
        load(path, only(nodes, node)) == count(path, node),
    decreases path.len(),
{
    if path.len() > 0 {
        let front = path.drop_last();
        assert forall|k: int| 0 <= k < front.len() implies (#[trigger] front[k]) < nodes by {
            assert(front[k] == path[k]);
        }
        lemma_count_load(front, nodes, node);
        assert(path[path.len() - 1] < nodes);
    }
}

/// An ant at the depot that has gone nowhere has gone to no node twice.
pub proof fn lemma_start_direct(num_nodes: nat, capacity: nat)
    ensures
        direct(AntView::start(num_nodes, capacity)),
{
    let path = AntView::start(num_nodes, capacity).path;
    assert(path.drop_last().len() == 0);
    assert forall|n: usize| 0 < n < num_nodes implies #[trigger] count(path, n) == 0 by {
        assert(count(path.drop_last(), n) == 0);
    }
}

/// An ant that goes to the depot, or to a node that it has not reached, has
/// gone to no node twice if it had not before.
pub proof fn lemma_visit_direct(ant: AntView, node: usize)
    requires
        ant.wf(),
        direct(ant),
        node < ant.num_nodes,
        node == 0 || !ant.visited[node as int],
    ensures
        direct(ant.visit(node)),
{
    let after = ant.visit(node);
    assert(after.path.drop_last() =~= ant.path);
    assert forall|n: usize| 0 < n < after.num_nodes implies #[trigger] count(after.path, n)
        == if after.visited[n as int] {
        1nat
    } else {
        0nat
    } by {
        assert(count(ant.path, n) == if ant.visited[n as int] {
            1nat
        } else {
            0nat
        });
    }
}

/// Where the depot demands nothing, the routes of a tour demand together
/// what the tour demands.
pub proof fn lemma_routes_load(path: Seq<usize>, demands: Seq<usize>)
    requires
        path.len() > 0 ==> path[0] == 0,
        demands[0] == 0,
    ensures
        loads(routes_of(path), demands) == load(path, demands),
    decreases path.len(),
{
    if path.len() == 1 {
        let front = path.drop_last();
        assert(front.len() == 0);
        assert(routes_of(front).len() == 0);
        let routes = routes_of(path);
        assert(routes =~= seq![Seq::<usize>::empty()]);
        assert(routes.drop_last().len() == 0);
        assert(loads(routes.drop_last(), demands) == 0);
        assert(load(routes.last(), demands) == 0);
        assert(load(front, demands) == 0);
        assert(path.last() == path[0]);
        assert(load(path, demands) == 0);
    } else if path.len() > 1 {
        let front = path.drop_last();
        let before = routes_of(front);
        let x = path.last();
        assert(front[0] == path[0]);
        lemma_routes_load(front, demands);
        lemma_routes_exist(front);
        let routes = routes_of(path);
        if x == 0 {
            assert(routes == before.push(Seq::empty()));
            assert(routes.drop_last() =~= before);
            assert(load(routes.last(), demands) == 0);
            assert(load(path, demands) == load(front, demands) + demands[0]);
        } else {
            let route = before.last().push(x);
            assert(routes == before.update(before.len() - 1, route));
            assert(routes.drop_last() =~= before.drop_last());
            assert(routes.last() == route);
            assert(route.drop_last() =~= before.last());
            assert(load(route, demands) == load(before.last(), demands) + demands[x as int]);
            assert(loads(before, demands) == loads(before.drop_last(), demands) + load(
                before.last(),
                demands,
            ));
            assert(loads(routes, demands) == loads(routes.drop_last(), demands) + load(
                routes.last(),
                demands,
            ));
            assert(load(path, demands) == load(front, demands) + demands[x as int]);
        }
    }
}

/// Where the depot demands nothing, the routes between depot markers demand
/// together what the routes that they frame demand.
pub proof fn lemma_framed_load(routes: Seq<Seq<usize>>, demands: Seq<usize>)
    requires
        demands[0] == 0,
    ensures
        loads(framed_routes(routes), demands) == loads(routes, demands),
    decreases routes.len(),
{
    if routes.len() > 0 {
        let front = routes.drop_last();
        let last = routes.last();
        lemma_framed_load(front, demands);
        if last.len() > 0 {
            let all = framed_routes(front).push(framed(last));
            assert(all.drop_last() =~= framed_routes(front));
            let marker = seq![0usize];
            assert(marker.drop_last().len() == 0);
            assert(load(marker.drop_last(), demands) == 0);
            assert(load(marker, demands) == 0);
            lemma_load_concat(marker + last, marker, demands);
            lemma_load_concat(marker, last, demands);
        }
    }
}

/// Routes that demand the same one by one demand the same together.
pub proof fn lemma_same_loads(
    first: Seq<Seq<usize>>,
    second: Seq<Seq<usize>>,
    demands: Seq<usize>,
)
    requires
        first.len() == second.len(),
        forall|r: int|
            0 <= r < first.len() ==> load(#[trigger] first[r], demands) == load(
                second[r],
                demands,
            ),
    ensures
        loads(first, demands) == loads(second, demands),
    decreases first.len(),
{
    if first.len() > 0 {
        assert forall|r: int| 0 <= r < first.drop_last().len() implies load(
            #[trigger] first.drop_last()[r],
            demands,
        ) == load(second.drop_last()[r], demands) by {
            assert(first.drop_last()[r] == first[r]);
            assert(second.drop_last()[r] == second[r]);
        }
        lemma_same_loads(first.drop_last(), second.drop_last(), demands);
        assert(load(first[first.len() - 1], demands) == load(second[first.len() - 1], demands));
    }
}

/// The tour that routes make demands what the routes demand together.
pub proof fn lemma_flatten_load(routes: Seq<Seq<usize>>, demands: Seq<usize>)
    ensures
        load(routes.flatten(), demands) == loads(routes, demands),
    decreases routes.len(),
{
    if routes.len() == 0 {
        assert(routes.flatten() =~= Seq::<usize>::empty());
    } else {
        let front = routes.drop_last();
        let last = routes.last();
        assert(routes =~= front.push(last));
        front.lemma_flatten_push(last);
        lemma_flatten_load(front, demands);
        lemma_load_concat(front.flatten(), last, demands);
    }
}

/// However long a search goes on, its routes demand together what they
/// did.
pub proof fn lemma_leads_to_loads<C, F: Fn(C, C, C, C) -> bool>(
    improves: F,
    distances: Seq<Seq<C>>,
    start: SearchView,
    end: SearchView,
    steps: nat,
    swaps: int,
    demands: Seq<usize>,
)
    requires
        start.wf(),
        leads_to(improves, distances, start, end, steps, swaps),
    ensures
        loads(end.routes, demands) == loads(start.routes, demands),
    decreases steps,
{
    if steps > 0 {
        let (before, improved) = choose|before: SearchView, improved: bool|
            leads_to(
                improves,
                distances,
                start,
                before,
                (steps - 1) as nat,
                if improved {
                    swaps - 1
                } else {
                    swaps
                },
            ) && #[trigger] stepped(improves, distances, before, end, improved);
        let fewer = if improved {
            swaps - 1
        } else {
            swaps
        };
        lemma_leads_to_loads(
            improves,
            distances,
            start,
            before,
            (steps - 1) as nat,
            fewer,
            demands,
        );
        lemma_leads_to_keeps(
            improves,
            distances,
            start,
            before,
            (steps - 1) as nat,
            fewer,
            Seq::empty(),
            0,
        );
        lemma_answer(before, improved);
        assert forall|r: int| 0 <= r < before.routes.len() implies load(
            #[trigger] before.routes[r],
            demands,
        ) == load(end.routes[r], demands) by {
            if r == before.route {
                assert(load(end.routes[before.route], demands) == load(
                    before.routes[before.route],
                    demands,
                ));
            } else {
                assert(end.routes[r] == before.routes[r]);
            }
        }
        lemma_same_loads(before.routes, end.routes, demands);
    }
}

/// The exchange of two edges changes nothing of what a tour demands. Where
/// the depot demands nothing, the tour of the search that begins with a
/// tour closed at the depot demands what that tour demands, however long
/// the search goes on.
pub proof fn lemma_two_opt_keeps_load<C, F: Fn(C, C, C, C) -> bool>(
    improves: F,
    distances: Seq<Seq<C>>,
    path: Seq<usize>,
    end: SearchView,
    steps: nat,
    swaps: int,
    demands: Seq<usize>,
)
    requires
        path.len() > 0,
        path[0] == 0,
        path.last() == 0,
        demands[0] == 0,
        leads_to(improves, distances, TwoOptStrategy.begin(path), end, steps, swaps),
    ensures
        load(end.tour(), demands) == load(path, demands),
{
    let all = routes_of(path);
    let routes = all.drop_last();
    lemma_routes_exist(path);
    lemma_last_route(path);
    lemma_routes_depot_free(path);
    lemma_routes_load(path, demands);
    assert(load(all.last(), demands) == 0);
    assert forall|r: int| 0 <= r < routes.len() implies depot_free(#[trigger] routes[r]) by {
        assert(routes[r] == all[r]);
    }
    lemma_framed_routes(routes, Seq::empty(), 0);
    lemma_framed_load(routes, demands);
    let start = SearchView::start(multiple_paths(path));
    lemma_next_open(multiple_paths(path), 0);
    lemma_leads_to_loads(improves, distances, start, end, steps, swaps, demands);
    lemma_flatten_load(end.routes, demands);
}

/// The exchange of two edges takes an ant to each node as often as its
/// walk did. Where the walk of an ant is closed at the depot and goes
/// through a node that is not the depot, each node but the depot stands in
/// the tour of the search that begins with the walk as often as in the
/// walk, however long the search goes on.
pub proof fn lemma_two_opt_keeps_visits<C, F: Fn(C, C, C, C) -> bool>(
    ant: AntView,
    improves: F,
    distances: Seq<Seq<C>>,
    end: SearchView,
    steps: nat,
    swaps: int,
)
    requires
        ant.wf(),
        TwoOptStrategy.takes(ant.path),
        leads_to(improves, distances, TwoOptStrategy.begin(ant.path), end, steps, swaps),
    ensures
        forall|n: usize|
            0 < n < ant.num_nodes ==> #[trigger] count(end.tour(), n) == count(ant.path, n),
        direct(ant) ==> direct(AntView { path: end.tour(), ..ant }),
{
    lemma_two_opt_admitted(ant, improves, distances, end, steps, swaps);
    assert forall|n: usize| 0 < n < ant.num_nodes implies #[trigger] count(end.tour(), n) == count(
        ant.path,
        n,
    ) by {
        let marks = only(ant.num_nodes, n);
        lemma_two_opt_keeps_load(improves, distances, ant.path, end, steps, swaps, marks);
        lemma_count_load(ant.path, ant.num_nodes, n);
        lemma_count_load(end.tour(), ant.num_nodes, n);
    }
}

/// An ant that has reached every node, and has gone to none but the depot
/// twice, has gone to each node but the depot once.
pub proof fn lemma_done_once(ant: AntView)
    requires
        ant.wf(),
        ant.done(),
        direct(ant),
    ensures
        once(ant.path, ant.num_nodes),
{
    lemma_count_full(ant.visited);
}

/// A walk that goes to one node only goes to it as often as it is long.
pub proof fn lemma_count_same(path: Seq<usize>, node: usize)
    requires
        forall|j: int| 0 <= j < path.len() ==> #[trigger] path[j] == node,
    ensures
        count(path, node) == path.len(),
    decreases path.len(),
{
    if path.len() > 0 {
        let front = path.drop_last();
        assert forall|j: int| 0 <= j < front.len() implies #[trigger] front[j] == node by {
            assert(front[j] == path[j]);
        }
        lemma_count_same(front, node);
        assert(path[path.len() - 1] == node);
    }
}

/// The routes of a tour hold no node that the tour does not hold.
pub proof fn lemma_flatten_below(routes: Seq<Seq<usize>>, nodes: nat)
    requires
        below(routes.flatten(), nodes),
    ensures
        forall|r: int| 0 <= r < routes.len() ==> below(#[trigger] routes[r], nodes),
    decreases routes.len(),
{
    if routes.len() > 0 {
        let front = routes.drop_last();
        let last = routes.last();
        let tour = routes.flatten();
        assert(routes =~= front.push(last));
        front.lemma_flatten_push(last);
        assert(tour =~= front.flatten() + last);
        assert forall|k: int| 0 <= k < front.flatten().len() implies (#[trigger] front.flatten()[k])
            < nodes by {
            assert(front.flatten()[k] == tour[k]);
        }
        lemma_flatten_below(front, nodes);
        assert forall|r: int| 0 <= r < routes.len() implies below(#[trigger] routes[r], nodes) by {
            if r < front.len() {
                assert(routes[r] == front[r]);
            } else {
                assert forall|j: int| 0 <= j < last.len() implies (#[trigger] last[j]) < nodes by {
                    assert(last[j] == tour[front.flatten().len() + j]);
                }
            }
        }
    }
}

/// Where there is one customer, a route between two depot markers goes to
/// it as often as the route is long between its markers.
pub proof fn lemma_framed_count(route: Seq<usize>)
    requires
        is_framed(route),
        below(route, 2),
    ensures
        count(route, 1) == route.len() - 2,
{
    let marks = only(2, 1);
    let inner = interior(route);
    let marker = seq![0usize];
    assert(route =~= marker + inner + marker);
    assert(marker.drop_last().len() == 0);
    assert(load(marker.drop_last(), marks) == 0);
    assert(load(marker, marks) == 0);
    lemma_load_concat(marker + inner, marker, marks);
    lemma_load_concat(marker, inner, marks);
    assert forall|j: int| 0 <= j < inner.len() implies #[trigger] inner[j] == 1 by {
        assert(inner[j] == route[j + 1]);
        assert(route[j + 1] != 0);
        assert(route[j + 1] < 2);
    }
    lemma_count_same(inner, 1);
    lemma_count_load(route, 2, 1);
    lemma_count_load(inner, 2, 1);
}

/// Where there is one customer, routes between depot markers go to it
/// together at least as often as there are routes.
pub proof fn lemma_framed_counts(routes: Seq<Seq<usize>>)
    requires
        all_framed(routes),
        forall|r: int| 0 <= r < routes.len() ==> below(#[trigger] routes[r], 2),
    ensures
        loads(routes, only(2, 1)) >= routes.len(),
        routes.len() == 1 ==> loads(routes, only(2, 1)) == routes[0].len() - 2,
    decreases routes.len(),
{
    if routes.len() > 0 {
        let front = routes.drop_last();
        let last = routes.last();
        assert forall|r: int| 0 <= r < front.len() implies is_framed(#[trigger] front[r]) && below(
            front[r],
            2,
        ) by {
            assert(front[r] == routes[r]);
        }
        lemma_framed_counts(front);
        assert(is_framed(last) && below(last, 2));
        lemma_framed_count(last);
        lemma_count_load(last, 2, 1);
        if routes.len() == 1 {
            assert(loads(front, only(2, 1)) == 0);
        }
    }
}

/// Where there is one customer, the tour that routes between depot markers
/// make, and that goes to the customer once, is the way there and back.
pub proof fn lemma_one_customer(routes: Seq<Seq<usize>>)
    requires
        all_framed(routes),
        below(routes.flatten(), 2),
        count(routes.flatten(), 1) == 1,
    ensures
        routes.flatten() == seq![0usize, 1usize, 0usize],
{
    let marks = only(2, 1);
    let tour = routes.flatten();
    lemma_flatten_below(routes, 2);
    lemma_flatten_load(routes, marks);
    lemma_count_load(tour, 2, 1);
    lemma_framed_counts(routes);
    assert(routes.len() == 1);
    let route = routes[0];
    assert(is_framed(route) && below(route, 2));
    assert(route.len() == 3);
    assert(route[1] != 0 && route[1] < 2);
    assert(routes =~= seq![route]);
    seq![route].lemma_flatten_singleton();
    assert(route =~= seq![0usize, 1usize, 0usize]);
}

} // verus!
