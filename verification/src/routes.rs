use vstd::prelude::*;

verus! {

/// The routes of a tour: every depot marker `0` opens a new, empty route and
/// every other node joins the route opened last.
pub open spec fn routes_of(path: Seq<usize>) -> Seq<Seq<usize>>
    recommends
        path.len() > 0 ==> path[0] == 0,
    decreases path.len(),
{
    if path.len() == 0 {
        Seq::empty()
    } else {
        let before = routes_of(path.drop_last());
        if path.last() == 0 {
            before.push(Seq::empty())
        } else if before.len() == 0 {
            before
        } else {
            before.update(before.len() - 1, before.last().push(path.last()))
        }
    }
}

/// A tour that begins at the depot has a route.
pub proof fn lemma_routes_exist(path: Seq<usize>)
    requires
        path.len() > 0,
        path[0] == 0,
    ensures
        routes_of(path).len() > 0,
    decreases path.len(),
{
    if path.len() > 1 {
        lemma_routes_exist(path.drop_last());
    } else {
        assert(path.last() == 0);
    }
}

/// The last route of a tour is empty where the tour ends at the depot, and
/// ends where the tour ends else.
pub proof fn lemma_last_route(path: Seq<usize>)
    requires
        path.len() > 0,
        path[0] == 0,
    ensures
        routes_of(path).len() > 0,
        path.last() == 0 ==> routes_of(path).last().len() == 0,
        path.last() != 0 ==> routes_of(path).last().len() > 0 && routes_of(path).last().last()
            == path.last(),
{
    lemma_routes_exist(path);
    if path.len() > 1 {
        lemma_routes_exist(path.drop_last());
    }
}

/// The node sequences held by a list of route vectors.
pub open spec fn views(routes: Seq<Vec<usize>>) -> Seq<Seq<usize>> {
    Seq::new(routes.len(), |i: int| routes[i]@)
}

/// Splits a depot-delimited tour into its routes.
pub fn path_to_routes(path: &[usize]) -> (routes: Vec<Vec<usize>>)
    requires
        path@.len() > 0 ==> path@[0] == 0,
    ensures
        views(routes@) == routes_of(path@),
{
    let mut paths: Vec<Vec<usize>> = Vec::new();
    let mut idx: usize = 0;
    assert(path@.take(0) =~= Seq::<usize>::empty());
    assert(views(paths@) =~= Seq::<Seq<usize>>::empty());
    while idx < path.len()
        invariant
            idx <= path.len(),
            path@.len() > 0 ==> path@[0] == 0,
            idx > 0 ==> paths.len() > 0,
            views(paths@) == routes_of(path@.take(idx as int)),
        decreases path.len() - idx,
    {
        let node = path[idx];
        let ghost before = views(paths@);
        proof {
            assert(path@.take(idx + 1).drop_last() =~= path@.take(idx as int));
        }
        if node == 0 {
            paths.push(Vec::new());
            assert(views(paths@) =~= before.push(Seq::empty()));
        } else {
            let last = paths.len() - 1;
            paths[last].push(node);
            assert(views(paths@) =~= before.update(last as int, before[last as int].push(node)));
        }
        idx += 1;
    }
    assert(path@.take(idx as int) =~= path@);
    paths
}

/// The positions of the depot markers of a tour, in their order.
pub open spec fn depot_places(path: Seq<usize>) -> Seq<usize>
    decreases path.len(),
{
    if path.len() == 0 {
        Seq::empty()
    } else if path.last() == 0 {
        depot_places(path.drop_last()).push((path.len() - 1) as usize)
    } else {
        depot_places(path.drop_last())
    }
}

/// The stretches between one place and the next: where each begins, and how
/// long it is.
pub open spec fn stretches(places: Seq<usize>) -> Seq<(usize, usize)> {
    Seq::new(
        if places.len() > 0 {
            (places.len() - 1) as nat
        } else {
            0nat
        },
        |j: int| ((places[j] + 1) as usize, (places[j + 1] - places[j] - 1) as usize),
    )
}

/// The depot markers of a tour stand within it, each after the one before.
pub proof fn lemma_depot_places(path: Seq<usize>)
    requires
        path.len() <= usize::MAX,
    ensures
        forall|j: int| 0 <= j < depot_places(path).len() ==> (#[trigger] depot_places(path)[j]) < path.len(),
        forall|j: int, l: int|
            0 <= j < l < depot_places(path).len() ==> (#[trigger] depot_places(path)[j])
                < #[trigger] depot_places(path)[l],
    decreases path.len(),
{
    if path.len() > 0 {
        let before = depot_places(path.drop_last());
        lemma_depot_places(path.drop_last());
        assert forall|j: int| 0 <= j < depot_places(path).len() implies (#[trigger] depot_places(
            path,
        )[j]) < path.len() by {
            if j < before.len() {
                assert(before[j] < path.len() - 1);
            }
        }
        assert forall|j: int, l: int| 0 <= j < l < depot_places(path).len() implies (
        #[trigger] depot_places(path)[j]) < #[trigger] depot_places(path)[l] by {
            assert(before[j] < path.len() - 1);
            if l < before.len() {
                assert(before[j] < before[l]);
            }
        }
    }
}

fn find_depots(path: &[usize]) -> (places: Vec<usize>)
    ensures
        places@ == depot_places(path@),
{
    let mut places: Vec<usize> = Vec::new();
    let mut idx: usize = 0;
    assert(path@.take(0) =~= Seq::<usize>::empty());
    while idx < path.len()
        invariant
            idx <= path@.len(),
            places@ == depot_places(path@.take(idx as int)),
        decreases path@.len() - idx,
    {
        assert(path@.take(idx + 1).drop_last() =~= path@.take(idx as int));
        if path[idx] == 0 {
            places.push(idx);
        }
        idx += 1;
    }
    assert(path@.take(idx as int) =~= path@);
    places
}

/// The stretches of a tour between one depot marker and the next: where
/// each begins, and how many nodes it holds.
pub fn path_to_slices(path: &[usize]) -> (paths: Vec<(usize, usize)>)
    ensures
        paths@ == stretches(depot_places(path@)),
{
    let zero_finder = find_depots(path);
    let len = path.len();
    proof {
        lemma_depot_places(path@);
    }
    let mut paths: Vec<(usize, usize)> = Vec::with_capacity(zero_finder.len());
    let count = if zero_finder.len() > 0 {
        zero_finder.len() - 1
    } else {
        0
    };
    let mut j: usize = 0;
    while j < count
        invariant
            zero_finder@ == depot_places(path@),
            j <= count,
            count == if zero_finder@.len() > 0 {
                zero_finder@.len() - 1
            } else {
                0
            },
            forall|a: int| 0 <= a < zero_finder@.len() ==> (#[trigger] zero_finder@[a]) < path@.len(),
            forall|a: int, b: int|
                0 <= a < b < zero_finder@.len() ==> (#[trigger] zero_finder@[a])
                    < #[trigger] zero_finder@[b],
            paths@.len() == j,
            forall|a: int| 0 <= a < j ==> #[trigger] paths@[a] == stretches(zero_finder@)[a],
        decreases count - j,
    {
        let idx1 = zero_finder[j];
        let idx2 = zero_finder[j + 1];
        paths.push((idx1 + 1, (idx2 - idx1) - 1));
        j += 1;
    }
    assert(paths@ =~= stretches(zero_finder@));
    paths
}

/// What the nodes of a route demand together.
pub open spec fn load(route: Seq<usize>, demands: Seq<usize>) -> nat
    decreases route.len(),
{
    if route.len() == 0 {
        0
    } else {
        load(route.drop_last(), demands) + demands[route.last() as int] as nat
    }
}

/// Whether no route of a tour demands more than a vehicle can carry.
pub open spec fn feasible(path: Seq<usize>, demands: Seq<usize>, capacity: nat) -> bool {
    forall|r: int|
        0 <= r < routes_of(path).len() ==> load(#[trigger] routes_of(path)[r], demands) <= capacity
}

/// Whether the depot is none of the nodes.
pub open spec fn depot_free(route: Seq<usize>) -> bool {
    forall|j: int| 0 <= j < route.len() ==> #[trigger] route[j] != 0
}

/// A route with the depot marker that opens it.
pub open spec fn led(route: Seq<usize>) -> Seq<usize> {
    seq![0usize] + route
}

/// The tour that routes make: each route after a depot marker.
pub open spec fn join_routes(routes: Seq<Seq<usize>>) -> Seq<usize> {
    routes.map_values(|route: Seq<usize>| led(route)).flatten()
}

/// No route of a tour holds the depot.
pub proof fn lemma_routes_depot_free(path: Seq<usize>)
    requires
        path.len() > 0 ==> path[0] == 0,
    ensures
        forall|r: int| 0 <= r < routes_of(path).len() ==> depot_free(#[trigger] routes_of(path)[r]),
    decreases path.len(),
{
    if path.len() > 0 {
        let before = routes_of(path.drop_last());
        lemma_routes_depot_free(path.drop_last());
        if path.len() > 1 {
            lemma_routes_exist(path.drop_last());
        }
        assert forall|r: int| 0 <= r < routes_of(path).len() implies depot_free(
            #[trigger] routes_of(path)[r],
        ) by {
            if r < before.len() {
                assert(depot_free(before[r]));
            }
        }
    }
}

/// A tour that begins at the depot is the tour that its routes make:
/// splitting it and joining the routes, each after a depot marker, gives
/// the tour back.
pub proof fn lemma_routes_round_trip(path: Seq<usize>)
    requires
        path.len() > 0 ==> path[0] == 0,
    ensures
        join_routes(routes_of(path)) == path,
    decreases path.len(),
{
    let open = |route: Seq<usize>| led(route);
    if path.len() == 0 {
        assert(routes_of(path).map_values(open) =~= Seq::<Seq<usize>>::empty());
    } else {
        let front = path.drop_last();
        let before = routes_of(front);
        lemma_routes_round_trip(front);
        if path.last() == 0 {
            assert(routes_of(path).map_values(open) =~= before.map_values(open).push(
                seq![0usize],
            ));
            before.map_values(open).lemma_flatten_push(seq![0usize]);
            assert(front + seq![0usize] =~= path);
        } else {
            lemma_routes_exist(front);
            let last = before.last();
            let head = before.drop_last().map_values(open);
            assert(before.map_values(open) =~= head.push(led(last)));
            assert(routes_of(path).map_values(open) =~= head.push(led(last.push(path.last()))));
            head.lemma_flatten_push(led(last));
            head.lemma_flatten_push(led(last.push(path.last())));
            assert(led(last.push(path.last())) =~= led(last).push(path.last()));
            assert(front.push(path.last()) =~= path);
            assert(head.flatten() + led(last).push(path.last()) =~= (head.flatten() + led(
                last,
            )).push(path.last()));
        }
    }
}

/// Nodes that follow a tour join its last route.
pub proof fn lemma_routes_extend(path: Seq<usize>, route: Seq<usize>)
    requires
        path.len() > 0,
        path[0] == 0,
        depot_free(route),
    ensures
        routes_of(path).len() > 0,
        routes_of(path + route) == routes_of(path).drop_last().push(
            routes_of(path).last() + route,
        ),
    decreases route.len(),
{
    lemma_routes_exist(path);
    if route.len() == 0 {
        assert(path + route =~= path);
        assert(routes_of(path).last() + route =~= routes_of(path).last());
        assert(routes_of(path).drop_last().push(routes_of(path).last()) =~= routes_of(path));
    } else {
        let front = route.drop_last();
        lemma_routes_extend(path, front);
        assert((path + route).drop_last() =~= path + front);
        assert(route.last() != 0);
        let before = routes_of(path + front);
        assert(before.update(before.len() - 1, before.last().push(route.last()))
            =~= routes_of(path).drop_last().push(routes_of(path).last() + route)) by {
            assert((routes_of(path).last() + front).push(route.last()) =~= routes_of(
                path,
            ).last() + route);
        }
    }
}

/// A route between two depot markers that follows a tour adds the route,
/// and an empty route after it, to the routes of the tour.
pub proof fn lemma_routes_append_framed(path: Seq<usize>, route: Seq<usize>)
    requires
        path.len() > 0 ==> path[0] == 0,
        depot_free(route),
    ensures
        routes_of(path + (seq![0usize] + route + seq![0usize])) == routes_of(path).push(
            route,
        ).push(Seq::empty()),
{
    let opened = path.push(0);
    assert(opened.drop_last() =~= path);
    assert(routes_of(opened) == routes_of(path).push(Seq::empty()));
    lemma_routes_extend(opened, route);
    assert(routes_of(opened).drop_last() =~= routes_of(path));
    assert(Seq::<usize>::empty() + route =~= route);
    let walked = opened + route;
    assert(routes_of(walked) == routes_of(path).push(route));
    let closed = walked.push(0);
    assert(closed.drop_last() =~= walked);
    assert(closed =~= path + (seq![0usize] + route + seq![0usize]));
}

/// What two routes demand one after the other is what they demand apart.
pub proof fn lemma_load_concat(first: Seq<usize>, second: Seq<usize>, demands: Seq<usize>)
    ensures
        load(first + second, demands) == load(first, demands) + load(second, demands),
    decreases second.len(),
{
    if second.len() == 0 {
        assert(first + second =~= first);
    } else {
        lemma_load_concat(first, second.drop_last(), demands);
        assert((first + second).drop_last() =~= first + second.drop_last());
    }
}

/// A route demands the same in either direction.
pub proof fn lemma_load_reverse(route: Seq<usize>, demands: Seq<usize>)
    ensures
        load(route.reverse(), demands) == load(route, demands),
    decreases route.len(),
{
    if route.len() > 0 {
        let front = route.drop_last();
        lemma_load_reverse(front, demands);
        assert(route.reverse() =~= seq![route.last()] + front.reverse());
        lemma_load_concat(seq![route.last()], front.reverse(), demands);
        let single = seq![route.last()];
        assert(single.drop_last() =~= Seq::<usize>::empty());
        assert(load(single.drop_last(), demands) == 0);
        assert(load(single, demands) == demands[route.last() as int]);
    } else {
        assert(route.reverse() =~= route);
    }
}

/// Whether every node of a tour is one of the first `nodes` nodes.
pub open spec fn below(path: Seq<usize>, nodes: nat) -> bool {
    forall|k: int| 0 <= k < path.len() ==> (#[trigger] path[k]) < nodes
}

/// The routes of a tour hold no node that the tour does not hold.
pub proof fn lemma_routes_below(path: Seq<usize>, nodes: nat)
    requires
        path.len() > 0 ==> path[0] == 0,
        below(path, nodes),
    ensures
        forall|r: int| 0 <= r < routes_of(path).len() ==> below(#[trigger] routes_of(path)[r], nodes),
    decreases path.len(),
{
    if path.len() > 0 {
        let front = path.drop_last();
        let before = routes_of(front);
        assert(below(front, nodes)) by {
            assert forall|k: int| 0 <= k < front.len() implies (#[trigger] front[k]) < nodes by {
                assert(front[k] == path[k]);
            }
        }
        lemma_routes_below(front, nodes);
        if path.len() > 1 {
            lemma_routes_exist(front);
        }
        assert(path[path.len() - 1] < nodes);
        assert forall|r: int| 0 <= r < routes_of(path).len() implies below(
            #[trigger] routes_of(path)[r],
            nodes,
        ) by {
            if r < before.len() {
                assert(below(before[r], nodes));
            }
        }
    }
}

} // verus!
