use raster_pathfinding::algorithm::Algorithm;
use raster_pathfinding::field::{CostField, FieldError, OutOfBounds, Position2D};
use raster_pathfinding::search::{search_2d, SearchError};

fn all_algorithms() -> Vec<Algorithm> {
    vec![Algorithm::UniformCost, Algorithm::HeuristicGuided, Algorithm::Fringe]
}

fn at(x: usize, y: usize) -> Position2D {
    Position2D { x, y }
}

fn field(width: usize, height: usize, cells: Vec<u8>) -> CostField {
    CostField::new(width, height, cells).unwrap()
}

fn sum_along(f: &CostField, path: &Vec<Position2D>) -> u64 {
    let mut total = 0u64;
    for p in path {
        total += f.cost_at(*p).unwrap() as u64;
    }
    total
}

fn is_connected(path: &Vec<Position2D>) -> bool {
    for i in 1..path.len() {
        let a = path[i - 1];
        let b = path[i];
        let dx = if a.x > b.x { a.x - b.x } else { b.x - a.x };
        let dy = if a.y > b.y { a.y - b.y } else { b.y - a.y };
        if dx > 1 || dy > 1 || (dx == 0 && dy == 0) {
            return false;
        }
    }
    true
}

#[test]
fn wall_with_one_opening_is_passed_through_the_opening() {
    let f = field(3, 3, vec![0, 0, 0, 0, 255, 0, 0, 255, 0]);
    for algorithm in all_algorithms() {
        let (path, total) = search_2d(&f, at(0, 1), at(2, 1), algorithm).unwrap().unwrap();
        assert_eq!(path, vec![at(0, 1), at(1, 0), at(2, 1)]);
        assert_eq!(total, 0);
    }
}

#[test]
fn route_around_an_expensive_wall_costs_five() {
    let f = field(3, 3, vec![1, 9, 1, 1, 9, 1, 1, 1, 1]);
    for algorithm in all_algorithms() {
        let (path, total) = search_2d(&f, at(0, 0), at(2, 0), algorithm).unwrap().unwrap();
        assert_eq!(total, 5);
        assert_eq!(path, vec![at(0, 0), at(0, 1), at(1, 2), at(2, 1), at(2, 0)]);
    }
}

#[test]
fn crossing_the_wall_wins_when_it_is_cheap_enough() {
    let f = field(3, 3, vec![1, 2, 1, 1, 9, 1, 1, 1, 1]);
    for algorithm in all_algorithms() {
        let (path, total) = search_2d(&f, at(0, 0), at(2, 0), algorithm).unwrap().unwrap();
        assert_eq!(total, 4);
        assert_eq!(path, vec![at(0, 0), at(1, 0), at(2, 0)]);
    }
}

#[test]
fn the_three_algorithms_agree_on_the_cost() {
    let cells: Vec<u8> = vec![
        3, 7, 1, 8, 2, 9, 4, //
        6, 2, 9, 1, 7, 3, 5, //
        8, 255, 255, 255, 255, 255, 2, //
        1, 4, 6, 2, 8, 1, 9, //
        5, 9, 3, 7, 1, 6, 2, //
        2, 1, 8, 4, 9, 3, 7, //
    ];
    let f = field(7, 6, cells);
    let pairs = vec![
        (at(0, 0), at(6, 5)),
        (at(3, 0), at(3, 5)),
        (at(6, 0), at(0, 5)),
        (at(1, 1), at(5, 4)),
        (at(0, 5), at(6, 0)),
    ];
    for (start, end) in pairs {
        let base = search_2d(&f, start, end, Algorithm::UniformCost).unwrap().unwrap();
        for algorithm in all_algorithms() {
            let (path, total) = search_2d(&f, start, end, algorithm).unwrap().unwrap();
            assert_eq!(total, base.1);
            assert_eq!(path[0], start);
            assert_eq!(path[path.len() - 1], end);
            assert!(is_connected(&path));
            assert_eq!(sum_along(&f, &path), total);
            for p in &path {
                assert!(f.cost_at(*p).unwrap() < 255);
            }
        }
    }
}

#[test]
fn known_least_cost_on_the_larger_field() {
    let cells: Vec<u8> = vec![
        3, 7, 1, 8, 2, 9, 4, //
        6, 2, 9, 1, 7, 3, 5, //
        8, 255, 255, 255, 255, 255, 2, //
        1, 4, 6, 2, 8, 1, 9, //
        5, 9, 3, 7, 1, 6, 2, //
        2, 1, 8, 4, 9, 3, 7, //
    ];
    let f = field(7, 6, cells);
    // (3,0)=8, (4,0)=2, (5,1)=3, (6,2)=2, (5,3)=1, (4,4)=1, (3,5)=4
    for algorithm in all_algorithms() {
        let (_, total) = search_2d(&f, at(3, 0), at(3, 5), algorithm).unwrap().unwrap();
        assert_eq!(total, 21);
    }
}

#[test]
fn a_closed_wall_leaves_no_path() {
    let f = field(3, 3, vec![0, 255, 0, 0, 255, 0, 0, 255, 0]);
    for algorithm in all_algorithms() {
        assert_eq!(search_2d(&f, at(0, 1), at(2, 1), algorithm), Ok(None));
    }
}

#[test]
fn an_impassable_start_or_end_leaves_no_path() {
    let f = field(2, 2, vec![255, 1, 1, 255]);
    for algorithm in all_algorithms() {
        assert_eq!(search_2d(&f, at(0, 0), at(1, 0), algorithm), Ok(None));
        assert_eq!(search_2d(&f, at(1, 0), at(1, 1), algorithm), Ok(None));
        assert_eq!(search_2d(&f, at(0, 0), at(0, 0), algorithm), Ok(None));
    }
}

#[test]
fn start_equal_to_end_costs_the_cell_itself() {
    let f = field(2, 2, vec![4, 1, 1, 7]);
    for algorithm in all_algorithms() {
        assert_eq!(search_2d(&f, at(1, 1), at(1, 1), algorithm), Ok(Some((vec![at(1, 1)], 7))));
    }
}

#[test]
fn the_start_is_paid_for() {
    let f = field(3, 1, vec![5, 1, 2]);
    for algorithm in all_algorithms() {
        assert_eq!(
            search_2d(&f, at(0, 0), at(2, 0), algorithm),
            Ok(Some((vec![at(0, 0), at(1, 0), at(2, 0)], 8)))
        );
    }
}

#[test]
fn a_cell_of_cost_254_can_still_be_crossed() {
    let f = field(3, 1, vec![0, 254, 0]);
    for algorithm in all_algorithms() {
        assert_eq!(
            search_2d(&f, at(0, 0), at(2, 0), algorithm),
            Ok(Some((vec![at(0, 0), at(1, 0), at(2, 0)], 254)))
        );
    }
}

#[test]
fn endpoints_outside_the_field_are_refused() {
    let f = field(3, 2, vec![0; 6]);
    for algorithm in all_algorithms() {
        assert_eq!(
            search_2d(&f, at(3, 0), at(0, 0), algorithm),
            Err(SearchError::StartOutOfBounds { index: 0 })
        );
        assert_eq!(
            search_2d(&f, at(0, 2), at(9, 9), algorithm),
            Err(SearchError::StartOutOfBounds { index: 0 })
        );
        assert_eq!(
            search_2d(&f, at(0, 0), at(0, 2), algorithm),
            Err(SearchError::EndOutOfBounds { index: 0 })
        );
    }
}

#[test]
fn repeated_searches_give_the_same_result() {
    let f = field(4, 4, vec![1, 1, 1, 1, 1, 0, 0, 1, 1, 0, 0, 1, 1, 1, 1, 1]);
    for algorithm in all_algorithms() {
        let first = search_2d(&f, at(0, 0), at(3, 3), algorithm);
        let second = search_2d(&f, at(0, 0), at(3, 3), algorithm);
        assert_eq!(first, second);
        assert_eq!(first.unwrap().unwrap().1, 2);
    }
}

#[test]
fn a_long_corridor_is_followed_to_its_end() {
    // A serpentine corridor of cost one per cell through impassable cells.
    let w = 9usize;
    let h = 9usize;
    let mut cells = vec![255u8; w * h];
    for y in 0..h {
        if y % 2 == 0 {
            for x in 0..w {
                cells[y * w + x] = 1;
            }
        } else if (y / 2) % 2 == 0 {
            cells[y * w + (w - 1)] = 1;
        } else {
            cells[y * w] = 1;
        }
    }
    let f = field(w, h, cells);
    for algorithm in all_algorithms() {
        let (path, total) = search_2d(&f, at(0, 0), at(w - 1, h - 1), algorithm).unwrap().unwrap();
        assert_eq!(sum_along(&f, &path), total);
        assert!(is_connected(&path));
        // Eight cells of the first and of the last row, seven of each row between,
        // and the single open cell of each odd row: diagonals cut the corners.
        assert_eq!(total, 41);
    }
}

#[test]
fn field_construction_checks_the_shape() {
    assert_eq!(CostField::new(0, 3, vec![]).err(), Some(FieldError::EmptyDimension));
    assert_eq!(CostField::new(3, 0, vec![]).err(), Some(FieldError::EmptyDimension));
    assert_eq!(CostField::new(2, 2, vec![0; 3]).err(), Some(FieldError::LengthMismatch));
    assert_eq!(CostField::new(2, 2, vec![0; 5]).err(), Some(FieldError::LengthMismatch));
    assert_eq!(CostField::new(1 << 30, 1 << 30, vec![]).err(), Some(FieldError::TooLarge));
    assert_eq!(CostField::new(usize::MAX, usize::MAX, vec![]).err(), Some(FieldError::TooLarge));
    assert!(CostField::new(2, 2, vec![0; 4]).is_ok());
}

#[test]
fn field_construction_checks_the_values() {
    assert_eq!(
        CostField::from_values(2, 2, &vec![0, 256, 3, -1]).err(),
        Some(FieldError::ValueOutOfRange { index: 1 })
    );
    assert_eq!(
        CostField::from_values(2, 2, &vec![0, 255, 3, -1]).err(),
        Some(FieldError::ValueOutOfRange { index: 3 })
    );
    assert_eq!(CostField::from_values(2, 2, &vec![0, 256, 3]).err(), Some(FieldError::LengthMismatch));
    let f = CostField::from_values(2, 2, &vec![0, 255, 3, 17]).unwrap();
    assert_eq!(f.cost_at(at(1, 0)), Ok(255));
    assert_eq!(f.cost_at(at(0, 1)), Ok(3));
    assert_eq!(f.cost_at(at(1, 1)), Ok(17));
}

#[test]
fn lookup_is_by_column_and_row() {
    let f = field(3, 2, vec![10, 11, 12, 20, 21, 22]);
    assert_eq!(f.width(), 3);
    assert_eq!(f.height(), 2);
    assert_eq!(f.cost_at(at(0, 0)), Ok(10));
    assert_eq!(f.cost_at(at(2, 0)), Ok(12));
    assert_eq!(f.cost_at(at(0, 1)), Ok(20));
    assert_eq!(f.cost_at(at(2, 1)), Ok(22));
    assert_eq!(f.cost_at(at(3, 0)), Err(OutOfBounds));
    assert_eq!(f.cost_at(at(0, 2)), Err(OutOfBounds));
}
