use crate::opt::{
    framed, framed_routes, multiple_paths, swapped, OptimizationStrategy, TwoOptStrategy,
};
use crate::routes::{
    below, depot_free, lemma_last_route, lemma_routes_depot_free, lemma_routes_exist, routes_of,
};
use crate::search::{
    all_below, all_framed, all_settled, decided, is_framed, leads_to, lemma_answer,
    lemma_answer_below, lemma_framed_routes, lemma_leads_to_keeps, lemma_multiple_paths_below,
    lemma_next_open, lemma_two_opt_exchanges, oracle_of, quad, stepped, SearchView,
};
use vstd::prelude::*;

verus! {

/// The length of a route over distances in whole numbers: the sum of the
/// distances of its edges.
pub open spec fn length(route: Seq<usize>, d: spec_fn(usize, usize) -> int) -> int
    decreases route.len(),
{
    if route.len() <= 1 {
        0
    } else {
        length(route.drop_last(), d) + d(route[route.len() - 2], route[route.len() - 1])
    }
}

/// The lengths of routes together.
pub open spec fn total(routes: Seq<Seq<usize>>, d: spec_fn(usize, usize) -> int) -> int
    decreases routes.len(),
{
    if routes.len() == 0 {
        0
    } else {
        total(routes.drop_last(), d) + length(routes.last(), d)
    }
}

/// Whether the distance between two of the first `nodes` nodes is the same
/// in both directions.
pub open spec fn symmetric(d: spec_fn(usize, usize) -> int, nodes: nat) -> bool {
    forall|a: usize, b: usize| a < nodes && b < nodes ==> #[trigger] d(a, b) == d(b, a)
}

/// The distances between the nodes in whole numbers, where each distance of
/// a field has a value.
pub open spec fn valued<C>(distances: Seq<Seq<C>>, value: spec_fn(C) -> int) -> spec_fn(
    usize,
    usize,
) -> int {
    |a: usize, b: usize| value(distances[a as int][b as int])
}

/// Whether `improves` says yes only where the two edges that are there are
/// longer together than the two that would take their place.
pub open spec fn shortens<C, F: Fn(C, C, C, C) -> bool>(improves: F, value: spec_fn(C) -> int) -> bool {
    forall|distances: (C, C, C, C)| #[trigger]
        improves.ensures(distances, true) ==> value(distances.0) + value(distances.1) > value(
            distances.2,
        ) + value(distances.3)
}

/// Whether `improves` says yes only where the two edges that are there are
/// longer together than the two that would take their place by `least` or
/// more.
pub open spec fn gains<C, F: Fn(C, C, C, C) -> bool>(
    improves: F,
    value: spec_fn(C) -> int,
    least: int,
) -> bool {
    forall|distances: (C, C, C, C)| #[trigger]
        improves.ensures(distances, true) ==> value(distances.0) + value(distances.1) - value(
            distances.2,
        ) - value(distances.3) >= least
}

/// The length of two routes one after the other is the length of each and
/// the distance from the end of the first to the beginning of the second.
pub proof fn lemma_length_concat(
    first: Seq<usize>,
    second: Seq<usize>,
    d: spec_fn(usize, usize) -> int,
)
    requires
        first.len() > 0,
        second.len() > 0,
    ensures
        length(first + second, d) == length(first, d) + d(first.last(), second[0]) + length(
            second,
            d,
        ),
    decreases second.len(),
{
    let both = first + second;
    if second.len() == 1 {
        assert(both.drop_last() =~= first);
        assert(both[both.len() - 2] == first.last());
        assert(both[both.len() - 1] == second[0]);
    } else {
        let front = second.drop_last();
        lemma_length_concat(first, front, d);
        assert(both.drop_last() =~= first + front);
        assert(both[both.len() - 2] == second[second.len() - 2]);
        assert(both[both.len() - 1] == second[second.len() - 1]);
        assert(front[0] == second[0]);
    }
}

/// A route is as long in one direction as in the other.
pub proof fn lemma_length_reverse(route: Seq<usize>, d: spec_fn(usize, usize) -> int, nodes: nat)
    requires
        symmetric(d, nodes),
        below(route, nodes),
    ensures
        length(route.reverse(), d) == length(route, d),
    decreases route.len(),
{
    if route.len() > 1 {
        let front = route.drop_last();
        let last = route.last();
        assert forall|k: int| 0 <= k < front.len() implies (#[trigger] front[k]) < nodes by {
            assert(front[k] == route[k]);
        }
        lemma_length_reverse(front, d, nodes);
        assert(route.reverse() =~= seq![last] + front.reverse());
        lemma_length_concat(seq![last], front.reverse(), d);
        assert(front.reverse()[0] == front.last());
        assert(length(seq![last], d) == 0);
        assert(route[route.len() - 1] < nodes && route[route.len() - 2] < nodes);
        assert(front.last() == route[route.len() - 2]);
        assert(d(last, front.last()) == d(front.last(), last));
        assert(front.last() == route[route.len() - 2]);
    } else {
        assert(route.reverse().len() == route.len());
    }
}

/// An exchange takes the distances of the two edges that were there out of
/// the length of a route, and puts in the distances of the two that take
/// their place.
pub proof fn lemma_exchange_length(
    route: Seq<usize>,
    i: int,
    k: int,
    d: spec_fn(usize, usize) -> int,
    nodes: nat,
)
    requires
        symmetric(d, nodes),
        below(route, nodes),
        0 <= i < k,
        k + 1 < route.len(),
    ensures
        length(swapped(route, i, k), d) == length(route, d) - d(route[i], route[i + 1]) - d(
            route[k],
            route[k + 1],
        ) + d(route[i], route[k]) + d(route[i + 1], route[k + 1]),
{
    let head = route.subrange(0, i + 1);
    let middle = route.subrange(i + 1, k + 1);
    let tail = route.subrange(k + 1, route.len() as int);
    assert(head + middle + tail =~= route);
    lemma_length_concat(head + middle, tail, d);
    lemma_length_concat(head, middle, d);
    lemma_length_concat(head + middle.reverse(), tail, d);
    lemma_length_concat(head, middle.reverse(), d);
    assert forall|j: int| 0 <= j < middle.len() implies (#[trigger] middle[j]) < nodes by {
        assert(middle[j] == route[i + 1 + j]);
    }
    lemma_length_reverse(middle, d, nodes);
    assert((head + middle).last() == route[k]);
    assert((head + middle.reverse()).last() == middle.reverse().last());
    assert(middle.reverse().last() == middle[0]);
    assert(middle[0] == route[i + 1]);
    assert(middle.reverse()[0] == middle.last());
    assert(middle.last() == route[k]);
    assert(head.last() == route[i]);
    assert(tail[0] == route[k + 1]);
    assert(route[i + 1] < nodes && route[k + 1] < nodes);
    assert(d(route[i + 1], route[k + 1]) == d(route[k + 1], route[i + 1]));
}

/// A route that takes the place of another changes the lengths together
/// by the difference of the two.
pub proof fn lemma_total_update(
    routes: Seq<Seq<usize>>,
    r: int,
    route: Seq<usize>,
    d: spec_fn(usize, usize) -> int,
)
    requires
        0 <= r < routes.len(),
    ensures
        total(routes.update(r, route), d) == total(routes, d) - length(routes[r], d) + length(
            route,
            d,
        ),
    decreases routes.len(),
{
    let after = routes.update(r, route);
    if r == routes.len() - 1 {
        assert(after.drop_last() =~= routes.drop_last());
    } else {
        assert(after.drop_last() =~= routes.drop_last().update(r, route));
        lemma_total_update(routes.drop_last(), r, route, d);
    }
}

/// An answer changes the lengths of the routes together by nothing where it
/// is a no, and where it is a yes by the distances of the four edges.
pub proof fn lemma_answer_total(
    search: SearchView,
    improved: bool,
    d: spec_fn(usize, usize) -> int,
    nodes: nat,
)
    requires
        symmetric(d, nodes),
        all_below(search.routes, nodes),
        search.wf(),
        !search.done(),
    ensures
        total(search.answer(improved).routes, d) == total(search.routes, d) - if improved {
            d(search.probe().0, search.probe().1) + d(search.probe().2, search.probe().3) - d(
                search.probe().0,
                search.probe().2,
            ) - d(search.probe().1, search.probe().3)
        } else {
            0
        },
{
    lemma_answer(search, improved);
    if improved {
        let route = search.routes[search.route];
        assert forall|j: int| 0 <= j < route.len() implies (#[trigger] route[j]) < nodes by {
            assert(search.routes[search.route][j] < nodes);
        }
        lemma_exchange_length(route, search.i, search.k, d, nodes);
        lemma_total_update(search.routes, search.route, swapped(route, search.i, search.k), d);
    }
}

/// The tour that routes between depot markers make ends at the depot.
pub proof fn lemma_tour_ends(routes: Seq<Seq<usize>>)
    requires
        all_framed(routes),
        routes.len() > 0,
    ensures
        routes.flatten().len() > 0,
        routes.flatten().last() == 0,
{
    let front = routes.drop_last();
    assert(routes =~= front.push(routes.last()));
    front.lemma_flatten_push(routes.last());
    assert(is_framed(routes.last()));
}

/// Where the depot is no way from itself, the tour that routes between
/// depot markers make is as long as the routes together.
pub proof fn lemma_tour_length(routes: Seq<Seq<usize>>, d: spec_fn(usize, usize) -> int)
    requires
        all_framed(routes),
        d(0, 0) == 0,
    ensures
        length(routes.flatten(), d) == total(routes, d),
    decreases routes.len(),
{
    if routes.len() == 0 {
        assert(routes.flatten() =~= Seq::<usize>::empty());
    } else {
        let front = routes.drop_last();
        let last = routes.last();
        assert(routes =~= front.push(last));
        front.lemma_flatten_push(last);
        assert forall|r: int| 0 <= r < front.len() implies is_framed(#[trigger] front[r]) by {
            assert(front[r] == routes[r]);
        }
        lemma_tour_length(front, d);
        assert(is_framed(last));
        if front.len() > 0 {
            lemma_tour_ends(front);
            lemma_length_concat(front.flatten(), last, d);
        } else {
            assert(front.flatten() =~= Seq::<usize>::empty());
            assert(front.flatten() + last =~= last);
        }
    }
}

/// Where the depot is no way from itself, a tour that is closed at the
/// depot is as long as its routes are together, each between two depot
/// markers.
pub proof fn lemma_path_total(path: Seq<usize>, d: spec_fn(usize, usize) -> int)
    requires
        path.len() > 0,
        path[0] == 0,
        d(0, 0) == 0,
    ensures
        length(path.push(0), d) == total(framed_routes(routes_of(path)), d),
    decreases path.len(),
{
    let closed = path.push(0);
    assert(closed.drop_last() =~= path);
    assert(closed[closed.len() - 2] == path.last() && closed[closed.len() - 1] == 0);
    assert(length(closed, d) == length(path, d) + d(path.last(), 0));
    if path.len() == 1 {
        let only = routes_of(path);
        assert(only.len() == 1 && only.last().len() == 0) by {
            assert(path.drop_last().len() == 0);
            assert(routes_of(path.drop_last()).len() == 0);
        }
        assert(only.drop_last() =~= Seq::<Seq<usize>>::empty());
        assert(framed_routes(only) == framed_routes(only.drop_last()));
        assert(framed_routes(only.drop_last()) =~= Seq::<Seq<usize>>::empty());
        assert(length(path, d) == 0);
        assert(total(framed_routes(only), d) == 0);
    } else {
        let front = path.drop_last();
        let x = path.last();
        let before = routes_of(front);
        lemma_path_total(front, d);
        lemma_routes_exist(front);
        lemma_last_route(front);
        let front_closed = front.push(0);
        assert(front_closed.drop_last() =~= front);
        assert(front_closed[front_closed.len() - 2] == front.last() && front_closed[
            front_closed.len() - 1] == 0);
        assert(length(front_closed, d) == length(front, d) + d(front.last(), 0));
        assert(path[path.len() - 2] == front.last());
        assert(length(path, d) == length(front, d) + d(front.last(), x));
        let rest = framed_routes(before.drop_last());
        if before.last().len() == 0 {
            assert(framed_routes(before) == rest);
            assert(front.last() == 0);
        } else {
            assert(framed_routes(before) == rest.push(framed(before.last())));
            assert(rest.push(framed(before.last())).drop_last() =~= rest);
            assert(total(framed_routes(before), d) == total(rest, d) + length(
                framed(before.last()),
                d,
            ));
        }
        if x == 0 {
            let now = before.push(Seq::empty());
            assert(routes_of(path) == now);
            assert(now.drop_last() =~= before);
            assert(framed_routes(now) == framed_routes(before));
        } else {
            let route = before.last().push(x);
            let now = before.update(before.len() - 1, route);
            assert(routes_of(path) == now);
            assert(now =~= before.drop_last().push(route));
            assert(now.drop_last() =~= before.drop_last());
            assert(framed_routes(now) == rest.push(framed(route)));
            assert(rest.push(framed(route)).drop_last() =~= rest);
            assert(total(framed_routes(now), d) == total(rest, d) + length(framed(route), d));
            let back = framed(route);
            assert(back[back.len() - 2] == x && back[back.len() - 1] == 0);
            if before.last().len() == 0 {
                let out = seq![0usize, x];
                assert(back =~= out.push(0));
                assert(back.drop_last() =~= out);
                assert(out.drop_last() =~= seq![0usize]);
                assert(length(out.drop_last(), d) == 0);
                assert(out[out.len() - 2] == 0 && out[out.len() - 1] == x);
                assert(length(out, d) == d(0, x));
                assert(length(back, d) == d(0, x) + d(x, 0));
            } else {
                let old = before.last();
                let led = seq![0usize] + old;
                let home = framed(old);
                assert(home =~= led.push(0));
                assert(home.drop_last() =~= led);
                assert(home[home.len() - 2] == old.last() && home[home.len() - 1] == 0);
                assert(length(home, d) == length(led, d) + d(old.last(), 0));
                assert(back =~= led.push(x).push(0));
                assert(back.drop_last() =~= led.push(x));
                let on = led.push(x);
                assert(on.drop_last() =~= led);
                assert(on[on.len() - 2] == old.last() && on[on.len() - 1] == x);
                assert(length(on, d) == length(led, d) + d(old.last(), x));
                assert(length(back, d) == length(on, d) + d(x, 0));
                assert(old.last() == front.last());
            }
        }
    }
}

/// The exchange of two edges makes no tour longer. Where each distance has
/// a value in whole numbers, the values between the nodes of the field are
/// the same in both directions, the depot is no way from itself, and
/// `improves` says yes only where the two edges that are there are longer
/// together than the two that would take their place, the tour of the
/// search that begins with a tour closed at the depot is at most as long as
/// that tour, however long the search goes on.
pub proof fn lemma_two_opt_never_longer<C, F: Fn(C, C, C, C) -> bool>(
    improves: F,
    distances: Seq<Seq<C>>,
    value: spec_fn(C) -> int,
    path: Seq<usize>,
    end: SearchView,
    steps: nat,
    swaps: int,
)
    requires
        path.len() > 0,
        path[0] == 0,
        path.last() == 0,
        below(path, distances.len()),
        symmetric(valued(distances, value), distances.len()),
        valued(distances, value)(0, 0) == 0,
        shortens(improves, value),
        leads_to(improves, distances, TwoOptStrategy.begin(path), end, steps, swaps),
    ensures
        length(end.tour(), valued(distances, value)) <= length(path, valued(distances, value)),
{
    assert(gains(improves, value, 1)) by {
        assert forall|asked: (C, C, C, C)| #[trigger] improves.ensures(asked, true) implies value(
            asked.0,
        ) + value(asked.1) - value(asked.2) - value(asked.3) >= 1 by {
            assert(value(asked.0) + value(asked.1) > value(asked.2) + value(asked.3));
        }
    }
    lemma_two_opt_gains(improves, distances, value, 1, path, end, steps, swaps);
}

/// Each exchange shortens a tour by what `improves` asks for. Where each
/// distance has a value in whole numbers, the values between the nodes of
/// the field are the same in both directions, the depot is no way from
/// itself, and `improves` says yes only where the two edges that are there
/// are longer together than the two that would take their place by `least`
/// or more, the tour of the search that begins with a tour closed at the
/// depot is shorter than that tour by `least` or more for each exchange
/// that was made.
pub proof fn lemma_two_opt_gains<C, F: Fn(C, C, C, C) -> bool>(
    improves: F,
    distances: Seq<Seq<C>>,
    value: spec_fn(C) -> int,
    least: int,
    path: Seq<usize>,
    end: SearchView,
    steps: nat,
    swaps: int,
)
    requires
        path.len() > 0,
        path[0] == 0,
        path.last() == 0,
        below(path, distances.len()),
        symmetric(valued(distances, value), distances.len()),
        valued(distances, value)(0, 0) == 0,
        gains(improves, value, least),
        leads_to(improves, distances, TwoOptStrategy.begin(path), end, steps, swaps),
    ensures
        swaps >= 0,
        length(end.tour(), valued(distances, value)) + swaps * least <= length(
            path,
            valued(distances, value),
        ),
{
    let d = valued(distances, value);
    let start = SearchView::start(multiple_paths(path));
    lemma_routes_exist(path);
    lemma_routes_depot_free(path);
    let routes = routes_of(path).drop_last();
    assert forall|r: int| 0 <= r < routes.len() implies depot_free(#[trigger] routes[r]) by {
        assert(routes[r] == routes_of(path)[r]);
    }
    lemma_framed_routes(routes, Seq::empty(), 0);
    lemma_next_open(multiple_paths(path), 0);
    lemma_multiple_paths_below(path, distances.len());
    lemma_leads_to_total(
        improves,
        distances,
        value,
        least,
        distances.len(),
        start,
        end,
        steps,
        swaps,
    );
    lemma_leads_to_keeps(improves, distances, start, end, steps, swaps, Seq::empty(), 0);
    lemma_tour_length(end.routes, d);
    if path.len() == 1 {
        assert(routes_of(path).len() == 1) by {
            assert(path.drop_last().len() == 0);
            assert(routes_of(path.drop_last()).len() == 0);
        }
        assert(routes =~= Seq::<Seq<usize>>::empty());
        assert(length(path, d) == 0);
    } else {
        let front = path.drop_last();
        assert(front.push(0) =~= path);
        lemma_path_total(front, d);
        assert(routes_of(path) == routes_of(front).push(Seq::empty()));
        assert(routes =~= routes_of(front));
    }
}

/// An exchange that shortens a tour is made, and the tour is the shorter
/// for it. Where, besides what holds of each exchange, `improves` gives one
/// answer to each question and says of a pair of edges of a route of the
/// tour that exchanging it shortens the route, the tour of the search that
/// comes to its end is shorter than the tour that it began with by `least`
/// or more, and is another tour where `least` is more than nothing.
pub proof fn lemma_two_opt_shortens<C, F: Fn(C, C, C, C) -> bool>(
    improves: F,
    distances: Seq<Seq<C>>,
    value: spec_fn(C) -> int,
    least: int,
    path: Seq<usize>,
    end: SearchView,
    steps: nat,
    swaps: int,
)
    requires
        path.len() > 0,
        path[0] == 0,
        path.last() == 0,
        below(path, distances.len()),
        symmetric(valued(distances, value), distances.len()),
        valued(distances, value)(0, 0) == 0,
        least >= 0,
        gains(improves, value, least),
        decided(improves),
        !all_settled(multiple_paths(path), oracle_of(improves, distances)),
        leads_to(improves, distances, TwoOptStrategy.begin(path), end, steps, swaps),
        end.done(),
    ensures
        length(end.tour(), valued(distances, value)) + least <= length(
            path,
            valued(distances, value),
        ),
        least > 0 ==> end.tour() != path,
{
    lemma_two_opt_gains(improves, distances, value, least, path, end, steps, swaps);
    lemma_two_opt_exchanges(improves, distances, path, end, steps, swaps);
    assert(swaps * least >= least) by (nonlinear_arith)
        requires
            swaps >= 1,
            least >= 0,
    ;
}

/// However long a search goes on, its routes are together shorter than
/// they were by `least` or more for each exchange, where `improves` says
/// yes only to what shortens by so much, and they hold no node that they
/// did not hold.
pub proof fn lemma_leads_to_total<C, F: Fn(C, C, C, C) -> bool>(
    improves: F,
    distances: Seq<Seq<C>>,
    value: spec_fn(C) -> int,
    least: int,
    nodes: nat,
    start: SearchView,
    end: SearchView,
    steps: nat,
    swaps: int,
)
    requires
        start.wf(),
        all_below(start.routes, nodes),
        symmetric(valued(distances, value), nodes),
        gains(improves, value, least),
        leads_to(improves, distances, start, end, steps, swaps),
    ensures
        swaps >= 0,
        total(end.routes, valued(distances, value)) + swaps * least <= total(
            start.routes,
            valued(distances, value),
        ),
        all_below(end.routes, nodes),
    decreases steps,
{
    let d = valued(distances, value);
    if steps > 0 {
        let (before, improved) = choose|before: SearchView, improved: bool|
            leads_to(
                improves,
                distances,
                start,
                before,
                (steps - 1) as nat,
                if improved {
                    swaps - 1
                } else {
                    swaps
                },
            ) && #[trigger] stepped(improves, distances, before, end, improved);
        let fewer = if improved {
            swaps - 1
        } else {
            swaps
        };
        lemma_leads_to_total(
            improves,
            distances,
            value,
            least,
            nodes,
            start,
            before,
            (steps - 1) as nat,
            fewer,
        );
        lemma_leads_to_keeps(
            improves,
            distances,
            start,
            before,
            (steps - 1) as nat,
            fewer,
            Seq::empty(),
            0,
        );
        lemma_answer_total(before, improved, d, nodes);
        lemma_answer_below(before, improved, nodes);
        if improved {
            let asked = quad(distances, before);
            assert(improves.ensures(asked, true));
            assert(value(asked.0) + value(asked.1) - value(asked.2) - value(asked.3) >= least);
            assert(swaps * least == fewer * least + least) by (nonlinear_arith)
                requires
                    swaps == fewer + 1,
            ;
        }
    }
}

} // verus!
