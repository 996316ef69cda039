use crate::routes::{path_to_routes, routes_of, views};
use vstd::prelude::*;
use vstd::string::StringExecFns;

verus! {

/// The character of a decimal digit.
pub open spec fn digit(d: nat) -> char {
    (48 + d) as u8 as char
}

/// A number in decimal digits, without leading zeros.
pub open spec fn decimal_text(n: nat) -> Seq<char>
    decreases n,
{
    if n < 10 {
        seq![digit(n)]
    } else {
        decimal_text(n / 10).push(digit(n % 10))
    }
}

/// The nodes of a route, each with a space after it.
pub open spec fn nodes_text(route: Seq<usize>) -> Seq<char>
    decreases route.len(),
{
    if route.len() == 0 {
        Seq::empty()
    } else {
        nodes_text(route.drop_last()) + decimal_text(route.last() as nat) + " "@
    }
}

/// The line of a route with its number.
pub open spec fn route_line(number: nat, route: Seq<usize>) -> Seq<char> {
    "Route #"@ + decimal_text(number) + ": "@ + nodes_text(route)
}

/// The lines of the routes that visit a node. A route has the number of its
/// place among all the routes, counted from one.
pub open spec fn route_lines(routes: Seq<Seq<usize>>) -> Seq<Seq<char>>
    decreases routes.len(),
{
    if routes.len() == 0 {
        Seq::empty()
    } else if routes.last().len() == 0 {
        route_lines(routes.drop_last())
    } else {
        route_lines(routes.drop_last()).push(route_line(routes.len(), routes.last()))
    }
}

/// Lines with a line feed between one and the next.
pub open spec fn join_lines(lines: Seq<Seq<char>>) -> Seq<char>
    decreases lines.len(),
{
    if lines.len() == 0 {
        Seq::empty()
    } else if lines.len() == 1 {
        lines[0]
    } else {
        join_lines(lines.drop_last()) + "\n"@ + lines.last()
    }
}

/// The text of a tour: a line for each of its routes that visits a node.
pub open spec fn formatted(path: Seq<usize>) -> Seq<char> {
    join_lines(route_lines(routes_of(path)))
}

/// The text of a digit.
fn digit_text(d: usize) -> (text: &'static str)
    requires
        d < 10,
    ensures
        text@ == seq![digit(d as nat)],
{
    proof {
        reveal_strlit("0");
        reveal_strlit("1");
        reveal_strlit("2");
        reveal_strlit("3");
        reveal_strlit("4");
        reveal_strlit("5");
        reveal_strlit("6");
        reveal_strlit("7");
        reveal_strlit("8");
        reveal_strlit("9");
    }
    let text = if d == 0 {
        "0"
    } else if d == 1 {
        "1"
    } else if d == 2 {
        "2"
    } else if d == 3 {
        "3"
    } else if d == 4 {
        "4"
    } else if d == 5 {
        "5"
    } else if d == 6 {
        "6"
    } else if d == 7 {
        "7"
    } else if d == 8 {
        "8"
    } else {
        "9"
    };
    assert(text@ =~= seq![digit(d as nat)]);
    text
}

/// Writes a number in decimal digits, without sign or leading zeros.
fn number_text(n: usize) -> (text: String)
    ensures
        text@ == decimal_text(n as nat),
    decreases n,
{
    if n < 10 {
        String::from_str(digit_text(n))
    } else {
        let mut text = number_text(n / 10);
        text.append(digit_text(n % 10));
        text
    }
}

/// Writes a tour route by route, a line for each route that visits a
/// node.
pub fn format_path(path: &[usize]) -> (text: String)
    requires
        path@.len() > 0 ==> path@[0] == 0,
    ensures
        text@ == formatted(path@),
{
    let paths = path_to_routes(path);
    let mut text = String::new();
    let mut written = false;
    let mut i: usize = 0;
    assert(views(paths@).take(0) =~= Seq::<Seq<usize>>::empty());
    while i < paths.len()
        invariant
            i <= paths@.len(),
            written == (route_lines(views(paths@).take(i as int)).len() > 0),
            text@ == join_lines(route_lines(views(paths@).take(i as int))),
        decreases paths@.len() - i,
    {
        let ghost before = views(paths@).take(i as int);
        let ghost now = views(paths@).take(i + 1);
        proof {
            assert(now.drop_last() =~= before);
            assert(now.last() == paths@[i as int]@);
        }
        if paths[i].len() > 0 {
            let mut line = String::from_str("Route #");
            line.append(number_text(i + 1).as_str());
            line.append(": ");
            let ghost head = line@;
            let mut j: usize = 0;
            assert(paths@[i as int]@.take(0) =~= Seq::<usize>::empty());
            while j < paths[i].len()
                invariant
                    i < paths@.len(),
                    j <= paths@[i as int]@.len(),
                    line@ == head + nodes_text(paths@[i as int]@.take(j as int)),
                decreases paths@[i as int]@.len() - j,
            {
                let ghost so_far = line@;
                line.append(number_text(paths[i][j]).as_str());
                line.append(" ");
                proof {
                    let route = paths@[i as int]@;
                    assert(route.take(j + 1).drop_last() =~= route.take(j as int));
                    assert(line@ =~= head + nodes_text(route.take(j + 1)));
                }
                j += 1;
            }
            assert(paths@[i as int]@.take(j as int) =~= paths@[i as int]@);
            assert(line@ == route_line((i + 1) as nat, paths@[i as int]@));
            let ghost lines = route_lines(before);
            if written {
                text.append("\n");
            }
            text.append(line.as_str());
            proof {
                assert(route_lines(now) == lines.push(line@));
                assert(lines.push(line@).drop_last() =~= lines);
                if !written {
                    assert(text@ =~= line@);
                }
            }
            written = true;
        }
        i += 1;
    }
    assert(views(paths@).take(i as int) =~= views(paths@));
    text
}

} // verus!
