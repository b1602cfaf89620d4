use congol::universe::{format_cell, Universe};

#[test]
fn test_count_neighbors_1() {
    let mut universe = Universe::new(5, 5);

    universe.set(3, 3, true);

    assert_eq!(universe.count_neighbors(3, 3), 0);
}

#[test]
fn test_count_neighbors_2() {
    let mut universe = Universe::new(5, 5);

    universe.set(3, 3, true);
    universe.set(2, 3, true);
    universe.set(4, 3, true);
    universe.set(3, 4, true);
    universe.set(2, 4, true);
    universe.set(4, 4, true);
    universe.set(3, 2, true);
    universe.set(2, 2, true);
    universe.set(4, 2, true);

    assert_eq!(universe.count_neighbors(3, 3), 8);
    assert_eq!(universe.count_neighbors(4, 4), 3);
}

#[test]
fn test_count_neighbors_3() {
    let mut universe = Universe::new(5, 5);

    universe.set(0, 0, true);
    universe.set(1, 0, true);
    universe.set(1, 1, true);

    assert_eq!(universe.count_neighbors(0, 0), 2);
}

#[test]
fn test_count_neighbors_4() {
    let mut universe = Universe::new(5, 5);

    universe.set(4, 0, true);
    universe.set(3, 0, true);
    universe.set(3, 1, true);
    universe.set(4, 1, true);

    assert_eq!(universe.count_neighbors(4, 0), 3);
}

#[test]
fn test_universe_iterator_1() {
    let universe = Universe::new(5, 5);

    let mut it = universe.iter();
    let mut count = 0usize;
    while let Some(_) = it.next() {
        count += 1;
    }
    assert_eq!(count, universe.width() * universe.height());
    assert_eq!(count, 25);
}

#[test]
fn new_universe_is_all_dead() {
    let universe = Universe::new(4, 3);
    assert_eq!(universe.width(), 4);
    assert_eq!(universe.height(), 3);
    for y in 0..3isize {
        for x in 0..4isize {
            assert_eq!(universe.get(x, y), Some(&false));
        }
    }
}

#[test]
fn get_off_grid_is_none() {
    let mut universe = Universe::new(5, 5);
    universe.set(0, 1, true);
    assert_eq!(universe.get(-1, 0), None);
    assert_eq!(universe.get(0, -1), None);
    // one past the end of row 0 is not the first cell of row 1
    assert_eq!(universe.get(5, 0), None);
    assert_eq!(universe.get(0, 5), None);
    assert_eq!(universe.get(0, 1), Some(&true));
}

#[test]
fn set_changes_only_its_cell() {
    let mut universe = Universe::new(3, 2);
    universe.set(2, 1, true);
    assert_eq!(universe.get(2, 1), Some(&true));
    assert_eq!(universe.get(1, 1), Some(&false));
    assert_eq!(universe.get(2, 0), Some(&false));
    universe.set(2, 1, false);
    assert_eq!(universe.get(2, 1), Some(&false));
}

#[test]
fn right_edge_does_not_wrap() {
    let mut universe = Universe::new(3, 3);
    // first cell of each row sits right after the last cell of the row above
    universe.set(0, 0, true);
    universe.set(0, 1, true);
    universe.set(0, 2, true);
    assert_eq!(universe.count_neighbors(2, 1), 0);
    assert_eq!(universe.count_neighbors(1, 1), 3);
}

#[test]
fn count_neighbors_on_single_cell_grid() {
    let mut universe = Universe::new(1, 1);
    universe.set(0, 0, true);
    assert_eq!(universe.count_neighbors(0, 0), 0);
}

#[test]
fn iterator_visits_cells_in_row_major_order() {
    let mut universe = Universe::new(3, 2);
    universe.set(1, 0, true);
    universe.set(2, 1, true);
    let mut it = universe.iter();
    let mut seen: Vec<(usize, usize, bool)> = Vec::new();
    while let Some((x, y, c)) = it.next() {
        seen.push((x, y, *c));
    }
    assert_eq!(
        seen,
        vec![
            (0, 0, false),
            (1, 0, true),
            (2, 0, false),
            (0, 1, false),
            (1, 1, false),
            (2, 1, true),
        ]
    );
    assert_eq!(it.next(), None);
}

#[test]
fn iterator_is_restartable() {
    let universe = Universe::new(2, 2);
    let mut first = universe.iter();
    first.next();
    let mut second = universe.iter();
    assert_eq!(second.next(), Some((0, 0, &false)));
    assert_eq!(first.next(), Some((1, 0, &false)));
}

#[test]
fn iterator_on_empty_grid_yields_nothing() {
    let universe = Universe::new(0, 4);
    assert_eq!(universe.iter().next(), None);
}

#[test]
fn format_cell_marks_row_ends() {
    assert_eq!(format_cell(&true, 0, 3), "X");
    assert_eq!(format_cell(&false, 1, 3), " ");
    assert_eq!(format_cell(&true, 2, 3), "X\n");
    assert_eq!(format_cell(&false, 5, 3), " \n");
    assert_eq!(format_cell(&false, 0, 1), " \n");
}

#[test]
fn render_known_pattern() {
    let mut universe = Universe::new(3, 2);
    universe.set(0, 0, true);
    universe.set(2, 1, true);
    assert_eq!(universe.to_string(), "X  \n  X\n");
}

#[test]
fn render_layout_matches_cells() {
    let mut universe = Universe::new(4, 3);
    universe.set(1, 0, true);
    universe.set(3, 2, true);
    universe.set(0, 1, true);
    let text = universe.to_string();
    assert_eq!(text.len(), 4 * 3 + 3);
    let rows: Vec<&str> = text.split_terminator('\n').collect();
    assert_eq!(rows.len(), 3);
    for (y, row) in rows.iter().enumerate() {
        assert_eq!(row.len(), 4);
        for (x, ch) in row.chars().enumerate() {
            let alive = universe.get(x as isize, y as isize) == Some(&true);
            assert_eq!(ch == 'X', alive);
            assert!(ch == 'X' || ch == ' ');
        }
    }
    assert!(text.ends_with('\n'));
}

#[test]
fn render_empty_width_is_empty() {
    assert_eq!(Universe::new(0, 3).to_string(), "");
}

#[test]
fn clone_is_independent() {
    let mut universe = Universe::new(2, 2);
    universe.set(1, 1, true);
    let copy = universe.clone();
    universe.set(1, 1, false);
    assert_eq!(copy.get(1, 1), Some(&true));
    assert_eq!(universe.get(1, 1), Some(&false));
}
