use crate::matrix::Matrix;
use vstd::prelude::*;

verus! {

/// How many times the fading has come to the cell in the row `a` and the
/// column `b` when it stands before the row `i` and the column `j`. It goes
/// row by row, and in each row column by column, and at each place it comes
/// to the cell of that place and to the cell across the diagonal.
pub open spec fn fadings(a: int, b: int, i: int, j: int) -> int {
    (if a < i || (a == i && b < j) {
        1int
    } else {
        0int
    }) + (if b < i || (b == i && a < j) {
        1int
    } else {
        0int
    })
}

/// Whether `sum` is what lengths add up to, one after the other, beginning
/// with `start`.
pub open spec fn added<C, P: Fn(C, C) -> C>(plus: P, costs: Seq<C>, start: C, sum: C) -> bool
    decreases costs.len(),
{
    if costs.len() == 0 {
        sum == start
    } else {
        exists|before: C|
            added(plus, costs.drop_last(), start, before) && #[trigger] plus.ensures(
                (before, costs.last()),
                sum,
            )
    }
}

/// Whether `after` is what a cell holds when the fading has come to it a
/// number of times, at most twice, and it held `before`. What the fading
/// makes of a cell is what `fade` makes of the sum of the lengths of the
/// tours, their number and the cell.
pub open spec fn faded<C, F: Fn(C, usize, C) -> C>(
    fade: F,
    sum: C,
    count: usize,
    times: int,
    before: C,
    after: C,
) -> bool {
    if times <= 0 {
        after == before
    } else if times == 1 {
        fade.ensures((sum, count, before), after)
    } else {
        exists|once: C| #[trigger]
            fade.ensures((sum, count, before), once) && fade.ensures((sum, count, once), after)
    }
}

/// Whether the fading has come to every cell of a field twice.
pub open spec fn evaporated<C, F: Fn(C, usize, C) -> C>(
    fade: F,
    sum: C,
    count: usize,
    before: Seq<Seq<C>>,
    after: Seq<Seq<C>>,
) -> bool {
    &&& after.len() == before.len()
    &&& forall|a: int| 0 <= a < after.len() ==> (#[trigger] after[a]).len() == before.len()
    &&& forall|a: int, b: int|
        0 <= a < before.len() && 0 <= b < before.len() ==> faded(
            fade,
            sum,
            count,
            2,
            before[a][b],
            #[trigger] after[a][b],
        )
}

/// Whether `after` is the field of trails that `before` becomes when an ant
/// of the given weight, whose tour has the given length, lays its trail on
/// the edge from `u` to `v`: `deposit` makes the new cell of the edge from
/// the weight, the length and the old cell.
pub open spec fn laid<C, D: Fn(usize, C, C) -> C>(
    deposit: D,
    weight: usize,
    cost: C,
    u: int,
    v: int,
    before: Seq<Seq<C>>,
    after: Seq<Seq<C>>,
) -> bool {
    &&& deposit.ensures((weight, cost, before[u][v]), after[u][v])
    &&& after == before.update(u, before[u].update(v, after[u][v]))
}

/// Whether `after` is the field of trails that `before` becomes when an ant
/// lays its trail along its tour: on each edge of the tour, from the node
/// that the edge leaves to the node that it reaches, in the order of the
/// tour.
pub open spec fn trailed<C, D: Fn(usize, C, C) -> C>(
    deposit: D,
    weight: usize,
    cost: C,
    path: Seq<usize>,
    before: Seq<Seq<C>>,
    after: Seq<Seq<C>>,
) -> bool
    decreases path.len(),
{
    if path.len() <= 1 {
        after == before
    } else {
        exists|mid: Seq<Seq<C>>|
            trailed(deposit, weight, cost, path.drop_last(), before, mid) && #[trigger] laid(
                deposit,
                weight,
                cost,
                path[path.len() - 2] as int,
                path[path.len() - 1] as int,
                mid,
                after,
            )
    }
}

/// Lets the trails fade: goes through the places of the field row by row
/// and lets the fading come at each place to the cell of that place and to
/// the cell across the diagonal, so that it comes to every cell twice. What
/// the fading makes of a cell is what `fade` makes of the sum of the lengths
/// of the tours, their number and the cell.
pub fn evaporate<C: Copy, F: Fn(C, usize, C) -> C>(
    pheromones: &mut Matrix<C>,
    sum: C,
    count: usize,
    fade: &F,
)
    requires
        old(pheromones).wf(),
        forall|s: C, n: usize, v: C| fade.requires((s, n, v)),
    ensures
        final(pheromones).wf(),
        evaporated(*fade, sum, count, old(pheromones)@, final(pheromones)@),
{
    let n = pheromones.size();
    proof {
        pheromones.lemma_square();
    }
    let mut i: usize = 0;
    while i < n
        invariant
            i <= n,
            n == old(pheromones)@.len(),
            pheromones.wf(),
            pheromones@.len() == n,
            forall|s: C, n: usize, v: C| fade.requires((s, n, v)),
            forall|a: int, b: int|
                0 <= a < n && 0 <= b < n ==> faded(
                    *fade,
                    sum,
                    count,
                    fadings(a, b, i as int, 0),
                    old(pheromones)@[a][b],
                    #[trigger] pheromones@[a][b],
                ),
        decreases n - i,
    {
        let mut j: usize = 0;
        while j < n
            invariant
                i < n,
                j <= n,
                n == old(pheromones)@.len(),
                pheromones.wf(),
                pheromones@.len() == n,
                forall|s: C, n: usize, v: C| fade.requires((s, n, v)),
                forall|a: int, b: int|
                    0 <= a < n && 0 <= b < n ==> faded(
                        *fade,
                        sum,
                        count,
                        fadings(a, b, i as int, j as int),
                        old(pheromones)@[a][b],
                        #[trigger] pheromones@[a][b],
                    ),
            decreases n - j,
        {
            let ghost first = pheromones@;
            proof {
                pheromones.lemma_square();
            }
            let here = fade(sum, count, pheromones.get(i, j));
            pheromones.set(i, j, here);
            let ghost second = pheromones@;
            proof {
                pheromones.lemma_square();
            }
            let across = fade(sum, count, pheromones.get(j, i));
            pheromones.set(j, i, across);
            proof {
                pheromones.lemma_square();
                assert forall|a: int, b: int| 0 <= a < n && 0 <= b < n implies faded(
                    *fade,
                    sum,
                    count,
                    fadings(a, b, i as int, j + 1),
                    old(pheromones)@[a][b],
                    #[trigger] pheromones@[a][b],
                ) by {
                    let before = old(pheromones)@[a][b];
                    assert(faded(
                        *fade,
                        sum,
                        count,
                        fadings(a, b, i as int, j as int),
                        before,
                        first[a][b],
                    ));
                    if a == i && b == j && i == j {
                        assert(fade.ensures((sum, count, before), here));
                        assert(fade.ensures((sum, count, here), across));
                    } else if a == i && b == j {
                        assert(pheromones@[a][b] == here);
                        assert(fade.ensures((sum, count, first[a][b]), here));
                    } else if a == j && b == i {
                        assert(pheromones@[a][b] == across);
                        assert(second[a][b] == first[a][b]);
                        assert(fade.ensures((sum, count, first[a][b]), across));
                    } else {
                        assert(pheromones@[a][b] == first[a][b]);
                    }
                }
            }
            j += 1;
        }
        i += 1;
    }
    proof {
        pheromones.lemma_square();
    }
}

/// Lays the trail of an ant along its tour: on each edge of the tour, from
/// the node that the edge leaves to the node that it reaches, `deposit`
/// makes the new cell from the weight of the ant, the length of its tour
/// and the old cell.
pub fn lay_trail<C: Copy, D: Fn(usize, C, C) -> C>(
    pheromones: &mut Matrix<C>,
    path: &[usize],
    weight: usize,
    cost: C,
    deposit: &D,
)
    requires
        old(pheromones).wf(),
        forall|k: int| 0 <= k < path@.len() ==> (#[trigger] path@[k]) < old(pheromones)@.len(),
        forall|w: usize, c: C, v: C| deposit.requires((w, c, v)),
    ensures
        final(pheromones).wf(),
        final(pheromones)@.len() == old(pheromones)@.len(),
        trailed(*deposit, weight, cost, path@, old(pheromones)@, final(pheromones)@),
{
    if path.len() == 0 {
        return ;
    }
    let mut i: usize = 0;
    assert(path@.take(1).len() == 1);
    while i < path.len() - 1
        invariant
            path@.len() > 0,
            i <= path@.len() - 1,
            pheromones.wf(),
            pheromones@.len() == old(pheromones)@.len(),
            forall|k: int| 0 <= k < path@.len() ==> (#[trigger] path@[k]) < pheromones@.len(),
            forall|w: usize, c: C, v: C| deposit.requires((w, c, v)),
            trailed(*deposit, weight, cost, path@.take(i + 1), old(pheromones)@, pheromones@),
        decreases path@.len() - i,
    {
        let u = path[i];
        let v = path[i + 1];
        let ghost mid = pheromones@;
        proof {
            pheromones.lemma_square();
        }
        let trail = deposit(weight, cost, pheromones.get(u, v));
        pheromones.set(u, v, trail);
        proof {
            let now = path@.take(i + 2);
            assert(now.drop_last() =~= path@.take(i + 1));
            assert(now[now.len() - 2] == u && now[now.len() - 1] == v);
            assert(pheromones@[u as int][v as int] == trail);
            assert(laid(
                *deposit,
                weight,
                cost,
                now[now.len() - 2] as int,
                now[now.len() - 1] as int,
                mid,
                pheromones@,
            ));
        }
        i += 1;
    }
    assert(path@.take(i + 1) =~= path@);
}

} // verus!
