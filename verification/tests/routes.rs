use aco_vrp::routes::{path_to_routes, path_to_slices};

fn join(routes: &[Vec<usize>]) -> Vec<usize> {
    let mut path = Vec::new();
    for route in routes {
        path.push(0);
        path.extend(route.iter().copied());
    }
    path
}

#[test]
fn route_split_of_two_routes() {
    let routes = path_to_routes(&[0, 3, 4, 0, 1, 2, 0]);
    assert_eq!(routes, vec![vec![3, 4], vec![1, 2], vec![]]);
}

#[test]
fn route_split_of_an_empty_tour() {
    let routes = path_to_routes(&[]);
    assert!(routes.is_empty());
}

#[test]
fn route_split_of_the_depot_alone() {
    assert_eq!(path_to_routes(&[0]), vec![Vec::<usize>::new()]);
}

#[test]
fn route_split_of_an_open_tour() {
    assert_eq!(path_to_routes(&[0, 5, 0, 7, 8]), vec![vec![5], vec![7, 8]]);
}

#[test]
fn route_split_keeps_empty_routes() {
    assert_eq!(
        path_to_routes(&[0, 0, 2, 0, 0]),
        vec![vec![], vec![2], vec![], vec![]]
    );
}

#[test]
fn joining_the_routes_gives_the_tour_back() {
    let tours: Vec<Vec<usize>> = vec![
        vec![0],
        vec![0, 3, 4, 0, 1, 2, 0],
        vec![0, 0, 2, 0, 0],
        vec![0, 9, 8, 7],
        vec![0, 1, 0, 2, 0, 3, 0, 4, 5, 6, 0],
    ];
    for tour in tours {
        assert_eq!(join(&path_to_routes(&tour)), tour);
    }
}

#[test]
fn stretches_between_depot_markers() {
    assert_eq!(
        path_to_slices(&[0, 3, 4, 0, 1, 2, 0]),
        vec![(1, 2), (4, 2)]
    );
}

#[test]
fn stretches_of_a_tour_with_neighbouring_markers() {
    assert_eq!(path_to_slices(&[7, 0, 0, 5, 0, 9]), vec![(2, 0), (3, 1)]);
}

#[test]
fn stretches_need_two_depot_markers() {
    assert!(path_to_slices(&[]).is_empty());
    assert!(path_to_slices(&[1, 2, 3]).is_empty());
    assert!(path_to_slices(&[1, 0, 3]).is_empty());
}
