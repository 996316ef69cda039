use crate::ant::AntView;
use crate::opt::{
    framed, framed_routes, lemma_swapped_index, multiple_paths, OptimizationStrategy,
    TwoOptStrategy,
};
use crate::routes::{
    below, depot_free, lemma_last_route, lemma_routes_depot_free, lemma_routes_exist, routes_of,
};
use crate::search::{
    all_below, leads_to, lemma_answer, lemma_answer_below, lemma_framed_routes,
    lemma_leads_to_keeps, lemma_multiple_paths_below, lemma_next_open, lemma_tour_begins, stepped,
    SearchView,
};
use vstd::prelude::*;

verus! {

/// Whether one of the routes goes through a node.
pub open spec fn held(routes: Seq<Seq<usize>>, node: usize) -> bool {
    exists|r: int| 0 <= r < routes.len() && (#[trigger] routes[r]).contains(node)
}

/// A tour goes through a node that is not the depot where one of its routes
/// does.
pub proof fn lemma_routes_hold(path: Seq<usize>, node: usize)
    requires
        path.len() > 0,
        path[0] == 0,
        node != 0,
    ensures
        path.contains(node) <==> held(routes_of(path), node),
    decreases path.len(),
{
    let routes = routes_of(path);
    let front = path.drop_last();
    let x = path.last();
    let before = routes_of(front);
    if path.len() == 1 {
        assert(front.len() == 0);
        assert(before.len() == 0);
        assert(routes.len() == 1 && routes[0].len() == 0);
        if path.contains(node) {
            let j = choose|j: int| 0 <= j < path.len() && path[j] == node;
        }
        if held(routes, node) {
            let r = choose|r: int| 0 <= r < routes.len() && (#[trigger] routes[r]).contains(node);
            let j = choose|j: int| 0 <= j < routes[r].len() && routes[r][j] == node;
        }
    } else {
        lemma_routes_hold(front, node);
        lemma_routes_exist(front);
        let last = before.len() - 1;
        if path.contains(node) {
            let j = choose|j: int| 0 <= j < path.len() && path[j] == node;
            if j < front.len() {
                assert(front[j] == node);
                assert(front.contains(node));
                let r = choose|r: int|
                    0 <= r < before.len() && (#[trigger] before[r]).contains(node);
                let l = choose|l: int| 0 <= l < before[r].len() && before[r][l] == node;
                assert(routes[r][l] == node);
                assert(routes[r].contains(node));
            } else {
                assert(x == node);
                assert(routes[last][routes[last].len() - 1] == node);
                assert(routes[last].contains(node));
            }
        }
        if held(routes, node) {
            let r = choose|r: int| 0 <= r < routes.len() && (#[trigger] routes[r]).contains(node);
            let l = choose|l: int| 0 <= l < routes[r].len() && routes[r][l] == node;
            if x != 0 && r == last && l == routes[r].len() - 1 {
                assert(path[path.len() - 1] == node);
            } else {
                assert(r < before.len());
                assert(before[r][l] == node);
                assert(before[r].contains(node));
                assert(front.contains(node));
                let j = choose|j: int| 0 <= j < front.len() && front[j] == node;
                assert(path[j] == node);
            }
        }
    }
}

/// The routes between depot markers go through a node that is not the depot
/// where one of the routes that they frame does, and through the depot where
/// there is one of them.
pub proof fn lemma_framed_hold(routes: Seq<Seq<usize>>, node: usize)
    ensures
        node != 0 ==> (held(framed_routes(routes), node) <==> held(routes, node)),
        held(framed_routes(routes), 0) <==> framed_routes(routes).len() > 0,
        framed_routes(routes).len() > 0 <==> exists|r: int|
            0 <= r < routes.len() && (#[trigger] routes[r]).len() > 0,
    decreases routes.len(),
{
    let all = framed_routes(routes);
    if routes.len() > 0 {
        let front = routes.drop_last();
        let last = routes.last();
        let before = framed_routes(front);
        lemma_framed_hold(front, node);
        lemma_framed_hold(front, 0);
        if last.len() > 0 {
            let route = framed(last);
            assert(all.last() == route);
            assert(route[0] == 0);
            assert(all[all.len() - 1].contains(0usize));
            assert(routes[routes.len() - 1].len() > 0);
        }
        if held(all, node) {
            let r = choose|r: int| 0 <= r < all.len() && (#[trigger] all[r]).contains(node);
            if r < before.len() {
                assert(before[r] == all[r]);
                assert(held(before, node));
                if node != 0 {
                    let o = choose|o: int| 0 <= o < front.len() && (#[trigger] front[o]).contains(node);
                    assert(routes[o] == front[o]);
                }
            } else {
                let l = choose|l: int| 0 <= l < all[r].len() && all[r][l] == node;
                if node != 0 {
                    assert(0 < l < all[r].len() - 1);
                    assert(last[l - 1] == node);
                    assert(routes[routes.len() - 1].contains(node));
                }
            }
        }
        if node != 0 && held(routes, node) {
            let o = choose|o: int| 0 <= o < routes.len() && (#[trigger] routes[o]).contains(node);
            if o < front.len() {
                assert(front[o] == routes[o]);
                assert(held(front, node));
                let r = choose|r: int| 0 <= r < before.len() && (#[trigger] before[r]).contains(node);
                assert(all[r] == before[r]);
            } else {
                let l = choose|l: int| 0 <= l < last.len() && last[l] == node;
                assert(all.last()[l + 1] == node);
                assert(all[all.len() - 1].contains(node));
            }
        }
        if all.len() > 0 {
            if last.len() == 0 {
                let o = choose|o: int| 0 <= o < front.len() && (#[trigger] front[o]).len() > 0;
                assert(routes[o] == front[o]);
            }
            if before.len() > 0 {
                let r = choose|r: int| 0 <= r < before.len() && (#[trigger] before[r]).contains(0usize);
                assert(all[r] == before[r]);
            }
        }
        if exists|r: int| 0 <= r < routes.len() && (#[trigger] routes[r]).len() > 0 {
            let o = choose|o: int| 0 <= o < routes.len() && (#[trigger] routes[o]).len() > 0;
            if o < front.len() {
                assert(front[o] == routes[o]);
            }
        }
    } else {
        if held(all, node) {
            let r = choose|r: int| 0 <= r < all.len() && (#[trigger] all[r]).contains(node);
        }
        if held(routes, node) {
            let r = choose|r: int| 0 <= r < routes.len() && (#[trigger] routes[r]).contains(node);
        }
    }
}

/// The tour that routes make goes through the nodes that the routes go
/// through.
pub proof fn lemma_flatten_holds(routes: Seq<Seq<usize>>, node: usize)
    ensures
        routes.flatten().contains(node) <==> held(routes, node),
    decreases routes.len(),
{
    let tour = routes.flatten();
    if routes.len() == 0 {
        assert(tour =~= Seq::<usize>::empty());
        if tour.contains(node) {
            let j = choose|j: int| 0 <= j < tour.len() && tour[j] == node;
        }
        if held(routes, node) {
            let r = choose|r: int| 0 <= r < routes.len() && (#[trigger] routes[r]).contains(node);
        }
    } else {
        let front = routes.drop_last();
        let last = routes.last();
        assert(routes =~= front.push(last));
        front.lemma_flatten_push(last);
        lemma_flatten_holds(front, node);
        let head = front.flatten();
        if tour.contains(node) {
            let j = choose|j: int| 0 <= j < tour.len() && tour[j] == node;
            if j < head.len() {
                assert(head[j] == node);
                assert(head.contains(node));
                let r = choose|r: int| 0 <= r < front.len() && (#[trigger] front[r]).contains(node);
                assert(routes[r] == front[r]);
            } else {
                assert(last[j - head.len()] == node);
                assert(routes[routes.len() - 1].contains(node));
            }
        }
        if held(routes, node) {
            let r = choose|r: int| 0 <= r < routes.len() && (#[trigger] routes[r]).contains(node);
            if r < front.len() {
                assert(front[r] == routes[r]);
                assert(held(front, node));
                let j = choose|j: int| 0 <= j < head.len() && head[j] == node;
                assert(tour[j] == node);
            } else {
                let l = choose|l: int| 0 <= l < last.len() && last[l] == node;
                assert(tour[head.len() + l] == node);
            }
        }
    }
}

/// An answer takes no node out of the routes and brings none in.
pub proof fn lemma_answer_holds(search: SearchView, improved: bool, node: usize)
    requires
        search.wf(),
        !search.done(),
    ensures
        held(search.answer(improved).routes, node) <==> held(search.routes, node),
{
    lemma_answer(search, improved);
    let after = search.answer(improved);
    let route = search.routes[search.route];
    let turned = after.routes[search.route];
    if improved {
        lemma_swapped_index(route, search.i, search.k);
    }
    if held(after.routes, node) {
        let r = choose|r: int| 0 <= r < after.routes.len() && (#[trigger] after.routes[r]).contains(node);
        if r == search.route && improved {
            let j = choose|j: int| 0 <= j < turned.len() && turned[j] == node;
            if search.i < j <= search.k {
                assert(route[search.i + 1 + search.k - j] == node);
            } else {
                assert(route[j] == node);
            }
            assert(search.routes[search.route].contains(node));
        } else {
            assert(search.routes[r] == after.routes[r]);
        }
    }
    if held(search.routes, node) {
        let r = choose|r: int| 0 <= r < search.routes.len() && (#[trigger] search.routes[r]).contains(node);
        if r == search.route && improved {
            let j = choose|j: int| 0 <= j < route.len() && route[j] == node;
            if search.i < j <= search.k {
                assert(turned[search.i + 1 + search.k - j] == node);
            } else {
                assert(turned[j] == node);
            }
            assert(after.routes[search.route].contains(node));
        } else {
            assert(search.routes[r] == after.routes[r]);
        }
    }
}

/// However long a search goes on, its routes go through the same nodes.
pub proof fn lemma_leads_to_holds<C, F: Fn(C, C, C, C) -> bool>(
    improves: F,
    distances: Seq<Seq<C>>,
    start: SearchView,
    end: SearchView,
    steps: nat,
    swaps: int,
    node: usize,
    nodes: nat,
)
    requires
        start.wf(),
        leads_to(improves, distances, start, end, steps, swaps),
    ensures
        held(end.routes, node) <==> held(start.routes, node),
        all_below(start.routes, nodes) ==> all_below(end.routes, nodes),
    decreases steps,
{
    if steps > 0 {
        let (before, improved) = choose|before: SearchView, improved: bool|
            leads_to(
                improves,
                distances,
                start,
                before,
                (steps - 1) as nat,
                if improved {
                    swaps - 1
                } else {
                    swaps
                },
            ) && #[trigger] stepped(improves, distances, before, end, improved);
        let fewer = if improved {
            swaps - 1
        } else {
            swaps
        };
        lemma_leads_to_holds(
            improves,
            distances,
            start,
            before,
            (steps - 1) as nat,
            fewer,
            node,
            nodes,
        );
        lemma_leads_to_keeps(
            improves,
            distances,
            start,
            before,
            (steps - 1) as nat,
            fewer,
            Seq::empty(),
            0,
        );
        lemma_answer_holds(before, improved, node);
        if all_below(start.routes, nodes) {
            lemma_answer_below(before, improved, nodes);
        }
    }
}

/// A walk that is closed at the depot and goes through a node that is not
/// the depot has a route for a local search to work on.
pub proof fn lemma_customer_route(path: Seq<usize>)
    requires
        path.len() > 0,
        path[0] == 0,
        path.last() == 0,
        exists|j: int| 0 <= j < path.len() && #[trigger] path[j] != 0,
    ensures
        multiple_paths(path).len() > 0,
{
    let begun = multiple_paths(path);
    let all = routes_of(path);
    let routes = all.drop_last();
    lemma_routes_exist(path);
    lemma_last_route(path);
    assert(all.last().len() == 0);
    let customer = path[choose|j: int| 0 <= j < path.len() && #[trigger] path[j] != 0];
    assert(path.contains(customer));
    lemma_routes_hold(path, customer);
    assert(held(routes, customer)) by {
        let r = choose|r: int| 0 <= r < all.len() && (#[trigger] all[r]).contains(customer);
        assert(r < all.len() - 1) by {
            if r == all.len() - 1 {
                let l = choose|l: int| 0 <= l < all[r].len() && all[r][l] == customer;
            }
        }
        assert(routes[r] == all[r]);
    }
    lemma_framed_hold(routes, customer);
    assert(begun.len() > 0) by {
        let r = choose|r: int| 0 <= r < begun.len() && (#[trigger] begun[r]).contains(customer);
    }
}

/// An ant takes the tour of the exchange of two edges. Where the walk of an
/// ant is closed at the depot and goes through a node that is not the depot,
/// the search that begins with the walk has, however long it goes on, a tour
/// that goes through the very nodes that the ant has reached.
pub proof fn lemma_two_opt_admitted<C, F: Fn(C, C, C, C) -> bool>(
    ant: AntView,
    improves: F,
    distances: Seq<Seq<C>>,
    end: SearchView,
    steps: nat,
    swaps: int,
)
    requires
        ant.wf(),
        ant.path.last() == 0,
        exists|j: int| 0 <= j < ant.path.len() && #[trigger] ant.path[j] != 0,
        leads_to(improves, distances, TwoOptStrategy.begin(ant.path), end, steps, swaps),
    ensures
        ant.admits(end.tour()),
{
    let path = ant.path;
    let begun = multiple_paths(path);
    let start = SearchView::start(begun);
    let tour = end.tour();
    let all = routes_of(path);
    let routes = all.drop_last();
    lemma_routes_exist(path);
    lemma_next_open(begun, 0);
    assert(below(path, ant.num_nodes));
    lemma_multiple_paths_below(path, ant.num_nodes);
    lemma_routes_depot_free(path);
    assert forall|r: int| 0 <= r < routes.len() implies depot_free(#[trigger] routes[r]) by {
        assert(routes[r] == all[r]);
    }
    lemma_framed_routes(routes, Seq::empty(), 0);
    lemma_last_route(path);
    assert(all.last().len() == 0);
    lemma_customer_route(path);
    lemma_leads_to_keeps(improves, distances, start, end, steps, swaps, Seq::empty(), 0);
    lemma_tour_begins(end.routes);
    assert forall|j: int| 0 <= j < tour.len() implies (#[trigger] tour[j]) < ant.num_nodes by {
        let node = tour[j];
        assert(tour.contains(node));
        lemma_flatten_holds(end.routes, node);
        lemma_leads_to_holds(
            improves,
            distances,
            start,
            end,
            steps,
            swaps,
            node,
            ant.num_nodes,
        );
        let r = choose|r: int| 0 <= r < end.routes.len() && (#[trigger] end.routes[r]).contains(node);
        let l = choose|l: int| 0 <= l < end.routes[r].len() && end.routes[r][l] == node;
        assert(end.routes[r][l] < ant.num_nodes);
    }
    assert forall|n: int| 0 <= n < ant.num_nodes implies (#[trigger] ant.visited[n]
        <==> exists|j: int| 0 <= j < tour.len() && #[trigger] tour[j] == n) by {
        let node = n as usize;
        lemma_flatten_holds(end.routes, node);
        lemma_leads_to_holds(
            improves,
            distances,
            start,
            end,
            steps,
            swaps,
            node,
            ant.num_nodes,
        );
        lemma_framed_hold(routes, node);
        if node != 0 {
            lemma_routes_hold(path, node);
            if held(all, node) {
                let r = choose|r: int| 0 <= r < all.len() && (#[trigger] all[r]).contains(node);
                assert(r < all.len() - 1) by {
                    if r == all.len() - 1 {
                        let l = choose|l: int| 0 <= l < all[r].len() && all[r][l] == node;
                    }
                }
                assert(routes[r] == all[r]);
                assert(routes[r].contains(node));
            }
            if held(routes, node) {
                let r = choose|r: int| 0 <= r < routes.len() && (#[trigger] routes[r]).contains(node);
                assert(all[r] == routes[r]);
            }
        } else {
            assert(path[0] == 0);
            assert(path.contains(0usize));
        }
        // The walk goes through the node where the tour does.
        if ant.visited[n] {
            let j = choose|j: int| 0 <= j < path.len() && #[trigger] path[j] == n;
            assert(path[j] == node);
            assert(path.contains(node));
            assert(tour.contains(node));
            let t = choose|t: int| 0 <= t < tour.len() && tour[t] == node;
            assert(tour[t] == n);
        }
        if exists|j: int| 0 <= j < tour.len() && #[trigger] tour[j] == n {
            let t = choose|t: int| 0 <= t < tour.len() && #[trigger] tour[t] == n;
            assert(tour[t] == node);
            assert(tour.contains(node));
            assert(path.contains(node));
            let j = choose|j: int| 0 <= j < path.len() && path[j] == node;
            assert(path[j] == n);
        }
    }
}

} // verus!
