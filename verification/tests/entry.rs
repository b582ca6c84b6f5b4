use raster_pathfinding::algorithm::Algorithm;
use raster_pathfinding::entry::{find_path_2d, find_route_temporal, route_frames, route_single};
use raster_pathfinding::field::{CostField, CostVolume, Position2D, Position3D};
use raster_pathfinding::report::{layer_points, points_by_layer};
use raster_pathfinding::search::SearchError;

fn at(x: usize, y: usize) -> Position2D {
    Position2D { x, y }
}

fn cell(x: usize, y: usize, layer: usize) -> Position3D {
    Position3D { x, y, layer }
}

#[test]
fn names_are_read_in_any_case() {
    assert_eq!(Algorithm::from_name("astar"), Some(Algorithm::HeuristicGuided));
    assert_eq!(Algorithm::from_name("AStar"), Some(Algorithm::HeuristicGuided));
    assert_eq!(Algorithm::from_name("DIJKSTRA"), Some(Algorithm::UniformCost));
    assert_eq!(Algorithm::from_name("Fringe"), Some(Algorithm::Fringe));
    assert_eq!(Algorithm::from_name("bfs"), None);
    assert_eq!(Algorithm::from_name(""), None);
    assert_eq!(Algorithm::from_name(" astar"), None);
    // The Kelvin sign is an upper-case letter whose lower case is the letter k.
    assert_eq!(Algorithm::from_name("DIJ\u{212A}STRA"), Some(Algorithm::UniformCost));
}

#[test]
fn lowercase_names_are_exact() {
    assert_eq!(Algorithm::from_lowercase(&"astar".to_string()), Some(Algorithm::HeuristicGuided));
    assert_eq!(Algorithm::from_lowercase(&"dijkstra".to_string()), Some(Algorithm::UniformCost));
    assert_eq!(Algorithm::from_lowercase(&"fringe".to_string()), Some(Algorithm::Fringe));
    assert_eq!(Algorithm::from_lowercase(&"ASTAR".to_string()), None);
    assert_eq!(Algorithm::from_lowercase(&"astar ".to_string()), None);
}

#[test]
fn a_field_is_searched_by_algorithm_name() {
    let f = CostField::new(3, 3, vec![1, 9, 1, 1, 9, 1, 1, 1, 1]).unwrap();
    for name in ["astar", "Dijkstra", "FRINGE"] {
        let (path, total) = find_path_2d(&f, at(0, 0), at(2, 0), name).unwrap().unwrap();
        assert_eq!(total, 5);
        assert_eq!(path.len(), 5);
    }
    assert_eq!(find_path_2d(&f, at(0, 0), at(2, 0), "greedy"), Err(SearchError::UnknownAlgorithm));
    assert_eq!(find_path_2d(&f, at(0, 7), at(2, 0), "greedy"), Err(SearchError::UnknownAlgorithm));
    assert_eq!(
        find_path_2d(&f, at(0, 7), at(2, 0), "astar"),
        Err(SearchError::StartOutOfBounds { index: 0 })
    );
}

#[test]
fn a_volume_is_searched_by_algorithm_name() {
    let v = CostVolume::new(3, 1, 3, vec![1, 1, 1, 1, 1, 1, 1, 1, 1]).unwrap();
    for name in ["astar", "DIJKSTRA"] {
        assert_eq!(
            find_route_temporal(&v, name, cell(0, 0, 0), cell(2, 0, 2), None, None),
            Ok(Some((vec![cell(0, 0, 0), cell(1, 0, 1), cell(2, 0, 2)], 3)))
        );
        assert_eq!(find_route_temporal(&v, name, cell(0, 0, 0), cell(2, 0, 2), Some(0), Some(2)), Ok(None));
        assert_eq!(
            find_route_temporal(&v, name, cell(0, 0, 0), cell(2, 0, 0), Some(1), Some(0)),
            Ok(Some((vec![cell(0, 0, 0), cell(1, 0, 0), cell(2, 0, 0)], 3)))
        );
        assert_eq!(
            find_route_temporal(&v, name, cell(0, 0, 0), cell(2, 0, 3), None, None),
            Err(SearchError::EndOutOfBounds { index: 0 })
        );
    }
    assert_eq!(
        find_route_temporal(&v, "fringe", cell(0, 0, 0), cell(2, 0, 2), None, None),
        Err(SearchError::UnknownAlgorithm)
    );
    assert_eq!(
        find_route_temporal(&v, "", cell(0, 0, 0), cell(2, 0, 2), None, None),
        Err(SearchError::UnknownAlgorithm)
    );
}

#[test]
fn a_single_field_needs_both_endpoints() {
    let f = CostField::new(2, 1, vec![3, 4]).unwrap();
    for algorithm in [Algorithm::UniformCost, Algorithm::HeuristicGuided, Algorithm::Fringe] {
        assert_eq!(route_single(&f, None, Some(at(1, 0)), algorithm), Err(SearchError::MissingStart));
        assert_eq!(route_single(&f, None, None, algorithm), Err(SearchError::MissingStart));
        assert_eq!(route_single(&f, Some(at(0, 0)), None, algorithm), Err(SearchError::MissingEnd));
        assert_eq!(
            route_single(&f, Some(at(0, 0)), Some(at(1, 0)), algorithm),
            Ok(Some((vec![at(0, 0), at(1, 0)], 7)))
        );
    }
}

#[test]
fn frames_are_entered_on_the_first_and_left_on_the_last() {
    let cells = vec![
        5, 1, //
        1, 1, //
        1, 7, //
    ];
    let v = CostVolume::new(2, 1, 3, cells).unwrap();
    for algorithm in [Algorithm::UniformCost, Algorithm::HeuristicGuided] {
        assert_eq!(
            route_frames(&v, algorithm, Some(at(0, 0)), Some(at(1, 0)), 1, 2),
            Ok(Some((vec![cell(0, 0, 0), cell(0, 0, 1), cell(1, 0, 2)], 13)))
        );
        assert_eq!(
            route_frames(&v, algorithm, None, Some(at(1, 0)), 1, 2),
            Ok(Some((vec![cell(1, 0, 0), cell(0, 0, 1), cell(1, 0, 2)], 9)))
        );
        assert_eq!(
            route_frames(&v, algorithm, Some(at(0, 0)), None, 1, 2),
            Ok(Some((vec![cell(0, 0, 0), cell(0, 0, 1), cell(0, 0, 2)], 7)))
        );
        assert_eq!(
            route_frames(&v, algorithm, None, None, 1, 2),
            Ok(Some((vec![cell(1, 0, 0), cell(0, 0, 1), cell(0, 0, 2)], 3)))
        );
        assert_eq!(
            route_frames(&v, algorithm, Some(at(2, 0)), None, 1, 2),
            Err(SearchError::StartOutOfBounds { index: 0 })
        );
        assert_eq!(route_frames(&v, algorithm, None, None, 1, 5), Err(SearchError::InvalidAxis));
    }
    assert_eq!(
        route_frames(&v, Algorithm::Fringe, Some(at(0, 0)), Some(at(1, 0)), 1, 2),
        Err(SearchError::Unsupported)
    );
}

#[test]
fn a_route_is_read_frame_by_frame() {
    let path = vec![cell(4, 5, 0), cell(3, 5, 1), cell(3, 6, 2)];
    assert_eq!(
        points_by_layer(&path, 4),
        vec![vec![at(4, 5)], vec![at(3, 5)], vec![at(3, 6)], vec![]]
    );
    assert_eq!(points_by_layer(&path, 2), vec![vec![at(4, 5)], vec![at(3, 5)]]);
    assert_eq!(points_by_layer(&path, 0), Vec::<Vec<Position2D>>::new());
    // A route along another axis stands on one layer more than once.
    let sideways = vec![cell(0, 0, 1), cell(1, 1, 1), cell(2, 0, 0), cell(3, 0, 1)];
    assert_eq!(
        points_by_layer(&sideways, 2),
        vec![vec![at(2, 0)], vec![at(0, 0), at(1, 1), at(3, 0)]]
    );
    assert_eq!(layer_points(&sideways, 1), vec![at(0, 0), at(1, 1), at(3, 0)]);
    assert_eq!(layer_points(&sideways, 7), vec![]);
}
