use raster_pathfinding::algorithm::Algorithm;
use raster_pathfinding::field::{Axis, CostField, CostVolume, FieldError, OutOfBounds, Position3D};
use raster_pathfinding::lattice::box_positions;
use raster_pathfinding::search::{search_volume, SearchError};

fn cell(x: usize, y: usize, layer: usize) -> Position3D {
    Position3D { x, y, layer }
}

fn volume(width: usize, height: usize, depth: usize, cells: Vec<u8>) -> CostVolume {
    CostVolume::new(width, height, depth, cells).unwrap()
}

fn both() -> Vec<Algorithm> {
    vec![Algorithm::UniformCost, Algorithm::HeuristicGuided]
}

fn sum_along(v: &CostVolume, path: &Vec<Position3D>) -> u64 {
    let mut total = 0u64;
    for p in path {
        total += v.cost_at(*p).unwrap() as u64;
    }
    total
}

fn gap(a: usize, b: usize) -> usize {
    if a > b {
        a - b
    } else {
        b - a
    }
}

#[test]
fn open_volume_of_zeros_is_crossed_at_no_cost() {
    let v = volume(3, 3, 3, vec![0; 27]);
    for algorithm in both() {
        let (path, total) = search_volume(&v, algorithm, None, None, Some(1), Some(2)).unwrap().unwrap();
        assert_eq!(path.len(), 3);
        assert_eq!(total, 0);
        for (i, p) in path.iter().enumerate() {
            assert_eq!(p.layer, i);
        }
    }
}

#[test]
fn defaults_are_reach_one_along_the_layers() {
    let v = volume(3, 3, 3, vec![0; 27]);
    for algorithm in both() {
        let plain = search_volume(&v, algorithm, None, None, None, None);
        let named = search_volume(&v, algorithm, None, None, Some(1), Some(2));
        assert_eq!(plain, named);
    }
    // With reach one the cheap cell two columns away cannot be reached in one move.
    let cells = vec![
        0, 9, 9, //
        9, 5, 0, //
    ];
    let v = volume(3, 1, 2, cells);
    for algorithm in both() {
        assert_eq!(
            search_volume(&v, algorithm, Some(vec![cell(0, 0, 0)]), None, None, None),
            Ok(Some((vec![cell(0, 0, 0), cell(1, 0, 1)], 5)))
        );
        assert_eq!(
            search_volume(&v, algorithm, Some(vec![cell(0, 0, 0)]), None, Some(2), None),
            Ok(Some((vec![cell(0, 0, 0), cell(2, 0, 1)], 0)))
        );
    }
}

#[test]
fn fringe_is_refused_for_volumes() {
    let v = volume(3, 3, 3, vec![0; 27]);
    assert_eq!(
        search_volume(&v, Algorithm::Fringe, None, None, Some(1), Some(2)),
        Err(SearchError::Unsupported)
    );
    assert_eq!(
        search_volume(&v, Algorithm::Fringe, Some(vec![]), None, None, Some(7)),
        Err(SearchError::Unsupported)
    );
}

#[test]
fn the_cheapest_entry_and_exit_are_chosen() {
    // Two layers of three cells in a row.
    let cells = vec![
        4, 1, 6, //
        7, 8, 2, //
    ];
    let v = volume(3, 1, 2, cells);
    for algorithm in both() {
        assert_eq!(
            search_volume(&v, algorithm, None, None, Some(1), Some(2)),
            Ok(Some((vec![cell(1, 0, 0), cell(2, 0, 1)], 3)))
        );
        assert_eq!(
            search_volume(&v, algorithm, None, None, Some(0), Some(2)),
            Ok(Some((vec![cell(2, 0, 0), cell(2, 0, 1)], 8)))
        );
    }
}

#[test]
fn reach_bounds_the_sideways_step() {
    let cells = vec![
        0, 9, 9, 9, 9, //
        9, 9, 9, 9, 0, //
    ];
    let v = volume(5, 1, 2, cells);
    for algorithm in both() {
        let starts = Some(vec![cell(0, 0, 0)]);
        assert_eq!(
            search_volume(&v, algorithm, starts.clone(), None, Some(4), None),
            Ok(Some((vec![cell(0, 0, 0), cell(4, 0, 1)], 0)))
        );
        assert_eq!(
            search_volume(&v, algorithm, starts.clone(), None, Some(3), None),
            Ok(Some((vec![cell(0, 0, 0), cell(0, 0, 1)], 9)))
        );
        assert_eq!(
            search_volume(&v, algorithm, starts.clone(), None, Some(usize::MAX), None),
            Ok(Some((vec![cell(0, 0, 0), cell(4, 0, 1)], 0)))
        );
    }
}

#[test]
fn every_step_advances_one_layer_within_reach() {
    let mut cells = vec![0u8; 5 * 4 * 6];
    for (i, c) in cells.iter_mut().enumerate() {
        *c = ((i * 37 + 11) % 23) as u8;
    }
    let v = volume(5, 4, 6, cells);
    for reach in 0..3usize {
        for algorithm in both() {
            let (path, total) = search_volume(&v, algorithm, None, None, Some(reach), None).unwrap().unwrap();
            assert_eq!(path.len(), 6);
            assert_eq!(path[0].layer, 0);
            assert_eq!(path[5].layer, 5);
            for i in 1..path.len() {
                assert_eq!(path[i].layer, path[i - 1].layer + 1);
                assert!(gap(path[i].x, path[i - 1].x) <= reach);
                assert!(gap(path[i].y, path[i - 1].y) <= reach);
            }
            assert_eq!(sum_along(&v, &path), total);
        }
    }
}

#[test]
fn uniform_cost_and_guided_search_agree() {
    let mut cells = vec![0u8; 6 * 5 * 7];
    for (i, c) in cells.iter_mut().enumerate() {
        *c = (1 + (i * 53 + 7) % 41) as u8;
    }
    let v = volume(6, 5, 7, cells);
    for axis in 0..3usize {
        for reach in 0..3usize {
            let a = search_volume(&v, Algorithm::UniformCost, None, None, Some(reach), Some(axis)).unwrap();
            let b = search_volume(&v, Algorithm::HeuristicGuided, None, None, Some(reach), Some(axis)).unwrap();
            let (pa, ca) = a.unwrap();
            let (pb, cb) = b.unwrap();
            assert_eq!(ca, cb);
            assert_eq!(sum_along(&v, &pa), ca);
            assert_eq!(sum_along(&v, &pb), cb);
        }
    }
}

#[test]
fn the_forced_axis_can_be_a_column_or_a_row() {
    // One layer, three columns, two rows.
    let cells = vec![
        1, 5, 1, //
        9, 1, 9, //
    ];
    let v = volume(3, 2, 1, cells);
    for algorithm in both() {
        assert_eq!(
            search_volume(&v, algorithm, None, None, Some(1), Some(0)),
            Ok(Some((vec![cell(0, 0, 0), cell(1, 1, 0), cell(2, 0, 0)], 3)))
        );
        assert_eq!(
            search_volume(&v, algorithm, None, None, Some(1), Some(1)),
            Ok(Some((vec![cell(0, 0, 0), cell(1, 1, 0)], 2)))
        );
    }
}

#[test]
fn explicit_endpoints_are_respected() {
    let cells = vec![
        1, 1, 1, //
        1, 1, 1, //
        1, 1, 1, //
    ];
    let v = volume(3, 1, 3, cells);
    for algorithm in both() {
        assert_eq!(
            search_volume(&v, algorithm, Some(vec![cell(0, 0, 0)]), Some(vec![cell(2, 0, 2)]), Some(1), Some(2)),
            Ok(Some((vec![cell(0, 0, 0), cell(1, 0, 1), cell(2, 0, 2)], 3)))
        );
        // Too far to the side for the layers there are.
        let wide = volume(5, 1, 3, vec![1; 15]);
        assert_eq!(
            search_volume(&wide, algorithm, Some(vec![cell(0, 0, 0)]), Some(vec![cell(4, 0, 2)]), Some(1), Some(2)),
            Ok(None)
        );
        // An end on an earlier layer cannot be reached.
        assert_eq!(
            search_volume(&v, algorithm, Some(vec![cell(0, 0, 1)]), Some(vec![cell(0, 0, 0)]), Some(1), Some(2)),
            Ok(None)
        );
        // A start that is itself an end.
        assert_eq!(
            search_volume(&v, algorithm, Some(vec![cell(1, 0, 1)]), Some(vec![cell(1, 0, 1)]), Some(1), Some(2)),
            Ok(Some((vec![cell(1, 0, 1)], 1)))
        );
    }
}

#[test]
fn the_best_of_several_starts_and_ends_is_taken() {
    let cells = vec![
        9, 2, 9, 3, //
        9, 9, 9, 9, //
        1, 9, 9, 4, //
    ];
    let v = volume(4, 1, 3, cells);
    let starts = vec![cell(1, 0, 0), cell(3, 0, 0)];
    let ends = vec![cell(0, 0, 2), cell(3, 0, 2)];
    for algorithm in both() {
        assert_eq!(
            search_volume(&v, algorithm, Some(starts.clone()), Some(ends.clone()), Some(1), Some(2)),
            Ok(Some((vec![cell(1, 0, 0), cell(0, 0, 1), cell(0, 0, 2)], 12)))
        );
    }
}

#[test]
fn an_impassable_layer_blocks_every_route() {
    let cells = vec![
        0, 0, //
        255, 255, //
        0, 0, //
    ];
    let v = volume(2, 1, 3, cells);
    for algorithm in both() {
        assert_eq!(search_volume(&v, algorithm, None, None, Some(1), Some(2)), Ok(None));
    }
}

#[test]
fn invalid_configurations_are_refused() {
    let v = volume(2, 2, 2, vec![0; 8]);
    for algorithm in both() {
        assert_eq!(search_volume(&v, algorithm, None, None, Some(1), Some(3)), Err(SearchError::InvalidAxis));
        assert_eq!(search_volume(&v, algorithm, Some(vec![]), None, None, None), Err(SearchError::NoStarts));
        assert_eq!(search_volume(&v, algorithm, None, Some(vec![]), None, None), Err(SearchError::NoEnds));
        assert_eq!(
            search_volume(&v, algorithm, Some(vec![cell(0, 0, 0), cell(2, 0, 0), cell(0, 5, 0)]), None, None, None),
            Err(SearchError::StartOutOfBounds { index: 1 })
        );
        assert_eq!(
            search_volume(&v, algorithm, None, Some(vec![cell(0, 0, 0), cell(1, 1, 1), cell(0, 0, 2)]), None, None),
            Err(SearchError::EndOutOfBounds { index: 2 })
        );
        // The starts are looked at before the ends, the axis before both.
        assert_eq!(
            search_volume(&v, algorithm, Some(vec![cell(9, 9, 9)]), Some(vec![]), None, None),
            Err(SearchError::StartOutOfBounds { index: 0 })
        );
        assert_eq!(
            search_volume(&v, algorithm, Some(vec![]), Some(vec![]), None, Some(3)),
            Err(SearchError::InvalidAxis)
        );
    }
}

#[test]
fn repeated_volume_searches_give_the_same_result() {
    let mut cells = vec![0u8; 4 * 4 * 4];
    for (i, c) in cells.iter_mut().enumerate() {
        *c = ((i * 29 + 3) % 7) as u8;
    }
    let v = volume(4, 4, 4, cells);
    for algorithm in both() {
        let first = search_volume(&v, algorithm, None, None, Some(1), Some(2));
        let second = search_volume(&v, algorithm, None, None, Some(1), Some(2));
        assert_eq!(first, second);
    }
}

#[test]
fn volume_construction_and_lookup() {
    assert_eq!(CostVolume::new(2, 2, 0, vec![]).err(), Some(FieldError::EmptyDimension));
    assert_eq!(CostVolume::new(2, 2, 2, vec![0; 7]).err(), Some(FieldError::LengthMismatch));
    assert_eq!(CostVolume::new(1 << 20, 1 << 20, 1 << 20, vec![]).err(), Some(FieldError::TooLarge));
    assert_eq!(
        CostVolume::from_values(1, 1, 2, &vec![300, -4]).err(),
        Some(FieldError::ValueOutOfRange { index: 0 })
    );
    let v = CostVolume::from_values(3, 2, 2, &vec![0, 1, 2, 10, 11, 12, 100, 101, 102, 110, 111, 112]).unwrap();
    assert_eq!(v.width(), 3);
    assert_eq!(v.height(), 2);
    assert_eq!(v.depth(), 2);
    assert_eq!(v.extent(Axis::X), 3);
    assert_eq!(v.extent(Axis::Y), 2);
    assert_eq!(v.extent(Axis::Layer), 2);
    assert_eq!(v.cost_at(cell(2, 1, 0)), Ok(12));
    assert_eq!(v.cost_at(cell(0, 0, 1)), Ok(100));
    assert_eq!(v.cost_at(cell(1, 1, 1)), Ok(111));
    assert_eq!(v.cost_at(cell(3, 0, 0)), Err(OutOfBounds));
    assert_eq!(v.cost_at(cell(0, 2, 0)), Err(OutOfBounds));
    assert_eq!(v.cost_at(cell(0, 0, 2)), Err(OutOfBounds));
}

#[test]
fn frames_stack_to_a_volume_layer_by_layer() {
    let frames = vec![
        CostField::new(2, 2, vec![1, 2, 3, 4]).unwrap(),
        CostField::new(2, 2, vec![5, 6, 7, 8]).unwrap(),
        CostField::new(2, 2, vec![9, 10, 11, 12]).unwrap(),
    ];
    let v = CostVolume::stack(&frames).unwrap();
    assert_eq!((v.width(), v.height(), v.depth()), (2, 2, 3));
    assert_eq!(v.cells(), &vec![1, 2, 3, 4, 5, 6, 7, 8, 9, 10, 11, 12]);
    assert_eq!(v.cost_at(cell(1, 0, 0)), Ok(2));
    assert_eq!(v.cost_at(cell(0, 1, 1)), Ok(7));
    assert_eq!(v.cost_at(cell(1, 1, 2)), Ok(12));
    for algorithm in both() {
        assert_eq!(
            search_volume(&v, algorithm, None, None, None, None),
            Ok(Some((vec![cell(0, 0, 0), cell(0, 0, 1), cell(0, 0, 2)], 15)))
        );
    }
}

#[test]
fn frames_of_different_extent_do_not_stack() {
    assert_eq!(CostVolume::stack(&vec![]).err(), Some(FieldError::EmptyDimension));
    let frames = vec![
        CostField::new(2, 3, vec![0; 6]).unwrap(),
        CostField::new(2, 3, vec![0; 6]).unwrap(),
        CostField::new(3, 2, vec![0; 6]).unwrap(),
        CostField::new(1, 1, vec![0; 1]).unwrap(),
    ];
    assert_eq!(CostVolume::stack(&frames).err(), Some(FieldError::FrameMismatch { index: 2 }));
    let single = vec![CostField::new(3, 1, vec![7, 8, 9]).unwrap()];
    let v = CostVolume::stack(&single).unwrap();
    assert_eq!((v.width(), v.height(), v.depth()), (3, 1, 1));
    assert_eq!(v.cost_at(cell(2, 0, 0)), Ok(9));
}

#[test]
fn a_box_is_listed_layer_by_layer_and_row_by_row() {
    assert_eq!(
        box_positions((1, 3), (0, 2), (4, 5)),
        vec![cell(1, 0, 4), cell(2, 0, 4), cell(1, 1, 4), cell(2, 1, 4)]
    );
    assert_eq!(
        box_positions((0, 1), (0, 1), (0, 3)),
        vec![cell(0, 0, 0), cell(0, 0, 1), cell(0, 0, 2)]
    );
    assert_eq!(box_positions((2, 2), (0, 5), (0, 5)), vec![]);
    assert_eq!(box_positions((3, 1), (0, 1), (0, 1)), vec![]);
}
