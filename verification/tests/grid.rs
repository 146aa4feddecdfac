use advent::etc::grid::{all_directions, taxicab_directions, Grid, Point, Position};

#[test]
fn rotate_90_clockwise() {
    assert_eq!(Point::north().rotate_90_clockwise(), Point::east());
    assert_eq!(Point::east().rotate_90_clockwise(), Point::south());
    assert_eq!(Point::south().rotate_90_clockwise(), Point::west());
    assert_eq!(Point::west().rotate_90_clockwise(), Point::north());
}

#[test]
fn rotate_180() {
    assert_eq!(Point::north().rotate_180(), Point::south());
    assert_eq!(Point::east().rotate_180(), Point::west());
    assert_eq!(Point::south().rotate_180(), Point::north());
    assert_eq!(Point::west().rotate_180(), Point::east());
}

#[test]
fn rotate_90_counterclockwise_undoes_clockwise() {
    for d in [Point(3, -7), Point(0, 0), Point(-1, 0), Point(12, 5)] {
        assert_eq!(d.rotate_90_clockwise().rotate_90_counterclockwise(), d);
        assert_eq!(d.rotate_90_counterclockwise().rotate_90_clockwise(), d);
        assert_eq!(
            d.rotate_90_clockwise()
                .rotate_90_clockwise()
                .rotate_90_clockwise()
                .rotate_90_clockwise(),
            d
        );
        assert_eq!(d.rotate_90_clockwise().rotate_90_clockwise(), d.rotate_180());
    }
    assert_eq!(Point(3, -7).rotate_90_clockwise(), Point(-7, -3));
    assert_eq!(Point(3, -7).rotate_90_counterclockwise(), Point(7, 3));
}

#[test]
fn point_arithmetic() {
    assert_eq!(Point(1, 2) + Point(-3, 4), Point(-2, 6));
    assert_eq!(Point(1, 2) - Point(-3, 4), Point(4, -2));
    assert_eq!(Point(1, -2) * 3, Point(3, -6));
    assert_eq!(Point::from((-1, 1)), Point(-1, 1));
    assert!(Point(0, 0).is_identity());
    assert!(!Point(0, 1).is_identity());
    assert_eq!(Position(3, 4).into_point(), Point(3, 4));
}

#[test]
fn position_add() {
    assert_eq!(Position(3, 4).add(&Point(-3, 2)), Some(Position(0, 6)));
    assert_eq!(Position(3, 4).add(&Point(-4, 2)), None);
    assert_eq!(Position(3, 4).add(&Point(1, -5)), None);
    assert_eq!(Position(usize::MAX, 0).add(&Point(1, 0)), None);
}

#[test]
fn directions() {
    assert_eq!(
        taxicab_directions(),
        [Point::north(), Point::east(), Point::south(), Point::west()]
    );
    let all = all_directions();
    assert_eq!(all[0], Point(0, 1));
    assert_eq!(all[3], Point(1, -1));
    assert_eq!(all[7], Point(-1, 1));
}

#[test]
fn grid_new_reads_rows() {
    let grid = Grid::new("abc\n  def\n");
    assert_eq!(grid.lines, 2);
    assert_eq!(grid.columns, 3);
    assert_eq!(grid.items, vec!['a', 'b', 'c', 'd', 'e', 'f']);
    assert_eq!(grid.size(), 6);
    assert_eq!(grid.at(1, 0), Some(&'d'));
    assert_eq!(grid.at(2, 0), None);
    assert_eq!(grid.at(0, 3), None);
    assert_eq!(grid.get(&Position(0, 2)), Some(&'c'));
    assert_eq!(grid.get(&Position(0, 3)), None);
    assert_eq!(*grid.strict_get(&Position(1, 1)), 'e');
    assert_eq!(*grid.unchecked_get(&Position(1, 2)), 'f');
}

#[test]
fn grid_try_new_rejects_ragged_rows() {
    assert!(Grid::try_new("abc\nde").is_none());
    assert!(Grid::try_new("").is_none());
    assert!(Grid::try_new("  \n ").is_none());
    assert!(Grid::try_new("ab\ncd").is_some());
}

#[test]
fn index_and_position_round_trip() {
    let grid = Grid::new("abcd efgh ijkl");
    for i in 0..grid.size() {
        let pos = grid.unchecked_position(i);
        assert!(grid.valid_position(&pos));
        assert_eq!(grid.unchecked_index(&pos), i);
        assert_eq!(grid.checked_position(i), Some(pos));
        assert_eq!(grid.strict_position(i), pos);
        assert_eq!(grid.checked_index(&pos), Some(i));
        assert_eq!(grid.strict_index(&pos), i);
    }
    assert_eq!(grid.unchecked_position(6), Position(1, 2));
    assert_eq!(grid.unchecked_index(&Position(2, 1)), 9);
    assert_eq!(grid.checked_position(12), None);
    assert_eq!(grid.checked_index(&Position(3, 0)), None);
    assert_eq!(grid.checked_index(&Position(0, 4)), None);
    assert!(grid.valid_index(11));
    assert!(!grid.valid_index(12));
    assert!(grid.valid_coordinates(2, 3));
    assert!(!grid.valid_coordinates(2, 4));
}

#[test]
fn get_mut_replaces_one_cell() {
    let mut grid = Grid::new("ab cd");
    *grid.get_mut(&Position(1, 0)).unwrap() = 'x';
    assert_eq!(grid.items, vec!['a', 'b', 'x', 'd']);
    assert!(grid.get_mut(&Position(2, 0)).is_none());
    assert_eq!(grid.items, vec!['a', 'b', 'x', 'd']);
}

#[test]
fn position_and_find_take_the_first() {
    let grid = Grid::new("abca bcab");
    assert_eq!(grid.position(|c| *c == 'c'), Some(Position(0, 2)));
    assert_eq!(grid.position(|c| *c == 'b'), Some(Position(0, 1)));
    assert_eq!(grid.position(|c| *c == 'z'), None);
    assert_eq!(grid.find(|c| *c > 'a'), Some(&'b'));
    assert_eq!(grid.find(|c| *c > 'c'), None);
}

#[test]
fn new_from_keeps_the_shape() {
    let grid = Grid::new("12 34 56");
    let digits = grid.new_from(|c| c.to_digit(10).unwrap());
    assert_eq!(digits.lines, 3);
    assert_eq!(digits.columns, 2);
    assert_eq!(digits.items, vec![1, 2, 3, 4, 5, 6]);
}

#[test]
fn step_stays_in_bounds() {
    let grid = Grid::new("abc def");
    assert_eq!(grid.step(&Position(0, 0), &Point::east()), Some(Position(0, 1)));
    assert_eq!(grid.step(&Position(0, 0), &Point::north()), None);
    assert_eq!(grid.step(&Position(0, 0), &Point::west()), None);
    assert_eq!(grid.step(&Position(1, 2), &Point::south()), None);
    assert_eq!(grid.step(&Position(1, 2), &Point::east()), None);
    assert_eq!(grid.step(&Position(1, 2), &Point(-1, -2)), Some(Position(0, 0)));
}

#[test]
fn for_each_visits_in_order() {
    let grid = Grid::new("abc def ghi");
    let mut seen = Vec::new();
    grid.for_each_with_position(|pos, c| seen.push((pos, *c)));
    assert_eq!(seen.len(), 9);
    assert_eq!(seen[0], (Position(0, 0), 'a'));
    assert_eq!(seen[5], (Position(1, 2), 'f'));
    let mut around = Vec::new();
    grid.for_each_neighbour(&Position(1, 1), |pos, c| around.push((pos, *c)));
    assert_eq!(
        around,
        vec![
            (Position(0, 1), 'b'),
            (Position(1, 2), 'f'),
            (Position(2, 1), 'h'),
            (Position(1, 0), 'd')
        ]
    );
    let mut corner = Vec::new();
    grid.for_each_neighbour(&Position(0, 0), |pos, c| corner.push((pos, *c)));
    assert_eq!(corner, vec![(Position(0, 1), 'b'), (Position(1, 0), 'd')]);
}

#[test]
fn extraction_is_all_or_nothing() {
    let grid = Grid::new("abc def ghi");
    assert_eq!(
        grid.step_extract::<3>(&Position(0, 0), &Point(1, 1)),
        Some(['a', 'e', 'i'])
    );
    assert_eq!(grid.step_extract::<3>(&Position(0, 1), &Point(1, 1)), None);
    assert_eq!(grid.step_extract::<2>(&Position(0, 1), &Point(1, 1)), Some(['b', 'f']));
    assert_eq!(grid.step_extract::<3>(&Position(2, 2), &Point(0, -1)), Some(['i', 'h', 'g']));
    assert_eq!(grid.step_extract::<4>(&Position(2, 2), &Point(0, -1)), None);
    assert_eq!(grid.step_extract::<1>(&Position(3, 0), &Point(0, 0)), None);
    assert_eq!(grid.step_extract::<0>(&Position(3, 0), &Point(0, 0)), Some([]));
    assert_eq!(
        grid.deltas_extract(&Position(1, 1), [Point(-1, -1), Point(0, 0), Point(1, 1)]),
        Some(['a', 'e', 'i'])
    );
    assert_eq!(
        grid.deltas_extract(&Position(1, 1), [Point(-1, -1), Point(0, 2), Point(1, 1)]),
        None
    );
    assert_eq!(
        grid.deltas_extract(&Position(0, 0), [Point(0, 0), Point(1, 0), Point(-1, 0)]),
        None
    );
}

#[test]
fn neighbours_are_listed_north_east_south_west() {
    let grid = Grid::new("abc def ghi");
    assert_eq!(
        grid.neighbours(&Position(1, 1)),
        vec![Position(0, 1), Position(1, 2), Position(2, 1), Position(1, 0)]
    );
    assert_eq!(grid.neighbours(&Position(0, 0)), vec![Position(0, 1), Position(1, 0)]);
    assert_eq!(grid.neighbours(&Position(2, 2)), vec![Position(1, 2), Position(2, 1)]);
    assert_eq!(grid.neighbours(&Position(7, 7)), vec![]);
    let mut seen = Vec::new();
    grid.for_each_neighbour(&Position(1, 1), |pos, item| seen.push((pos, *item)));
    assert_eq!(
        seen,
        vec![
            (Position(0, 1), 'b'),
            (Position(1, 2), 'f'),
            (Position(2, 1), 'h'),
            (Position(1, 0), 'd')
        ]
    );
}
