use tiler::dispatch::in_task_order;
use tiler::grid::{Grid, GridError};
use tiler::solver::{solve, SolveError, Task, Tile};

fn grid(v: &[&str]) -> Grid {
    Grid::from_rows(&v.iter().map(|s| s.to_string()).collect()).unwrap()
}

fn task(id: &str, field: &[&str], tiles: &[&[&str]]) -> Task {
    Task {
        id: id.to_string(),
        field: grid(field),
        tiles: tiles.iter().map(|t| Tile { area: grid(t) }).collect(),
    }
}

#[test]
fn single_cell_field_and_tile() {
    let t = task("one", &["1"], &[&["1"]]);
    assert_eq!(solve(&t), Ok(vec![(0, 0)]));
}

#[test]
fn unreachable_cell_has_no_solution() {
    let t = task("gap", &["11", "01"], &[&["11"]]);
    assert_eq!(solve(&t), Err(SolveError::NoSolution("gap".to_string())));
}

#[test]
fn l_shaped_field_with_three_unit_tiles() {
    let t = task("L", &["10", "11"], &[&["1"], &["1"], &["1"]]);
    let c = solve(&t).unwrap();
    assert_eq!(c, vec![(0, 0), (0, 1), (1, 1)]);
    let mut sorted = c.clone();
    sorted.sort();
    sorted.dedup();
    assert_eq!(sorted.len(), 3);
}

#[test]
fn square_field_with_square_tile() {
    let t = task("sq", &["11", "11"], &[&["11", "11"]]);
    assert_eq!(solve(&t), Ok(vec![(0, 0)]));
}

#[test]
fn nine_row_field_fails_before_solving() {
    let rows: Vec<String> = vec!["1".to_string(); 9];
    assert_eq!(Grid::from_rows(&rows).unwrap_err(), GridError::RowsCountGreaterThan8);
}

#[test]
fn too_few_tile_cells_has_no_solution() {
    let t = task("short", &["111"], &[&["1"], &["1"]]);
    assert_eq!(solve(&t), Err(SolveError::NoSolution("short".to_string())));
    let u = task("short2", &["11", "11"], &[&["11"]]);
    assert_eq!(solve(&u), Err(SolveError::NoSolution("short2".to_string())));
}

#[test]
fn solving_twice_gives_the_same_answer() {
    let t = task("twice", &["111", "111"], &[&["1"], &["11"], &["111"]]);
    let a = solve(&t);
    let b = solve(&t);
    assert_eq!(a, b);
    assert_eq!(a, Ok(vec![(0, 0), (1, 0), (0, 1)]));
}

#[test]
fn earlier_tiles_take_earlier_cells() {
    let t = task("order", &["111"], &[&["1"], &["11"]]);
    assert_eq!(solve(&t), Ok(vec![(0, 0), (1, 0)]));
    let u = task("order2", &["111"], &[&["11"], &["1"]]);
    assert_eq!(solve(&u), Ok(vec![(0, 0), (2, 0)]));
}

#[test]
fn backtracking_moves_an_earlier_tile() {
    let t = task("back", &["110", "011"], &[&["1"], &["11"], &["1"]]);
    assert_eq!(solve(&t), Ok(vec![(0, 0), (1, 1), (1, 0)]));
}

#[test]
fn tile_wider_than_field_has_no_solution() {
    let t = task("wide", &["1", "1"], &[&["11"]]);
    assert_eq!(solve(&t), Err(SolveError::NoSolution("wide".to_string())));
}

#[test]
fn tile_taller_than_field_has_no_solution() {
    let t = task("tall", &["11"], &[&["1", "1"]]);
    assert_eq!(solve(&t), Err(SolveError::NoSolution("tall".to_string())));
}

#[test]
fn shaped_tiles_cover_the_field() {
    let t = task(
        "shapes",
        &["111", "101", "111"],
        &[&["111", "100"], &["1", "1"], &["11"]],
    );
    assert_eq!(solve(&t), Ok(vec![(0, 0), (2, 1), (0, 2)]));
}

#[test]
fn install_clears_the_tile_cells() {
    let tile = Tile { area: grid(&["11", "11"]) };
    assert_eq!(tile.install(0, 0, 0b1111, 2), 0);
    let unit = Tile { area: grid(&["1"]) };
    assert_eq!(unit.install(1, 1, 0b1111, 2), 0b0111);
    let l = Tile { area: grid(&["10", "11"]) };
    assert_eq!(l.install(1, 1, u64::MAX, 3), !((1u64 << 4) | (1 << 7) | (1 << 8)));
}

#[test]
fn outcomes_return_in_task_order() {
    let done = vec![
        (2, Ok(vec![(2, 2)])),
        (0, Ok(vec![(0, 0)])),
        (1, Err(SolveError::NoSolution("b".to_string()))),
    ];
    let r = in_task_order(3, done).unwrap();
    assert_eq!(
        r,
        vec![Ok(vec![(0, 0)]), Err(SolveError::NoSolution("b".to_string())), Ok(vec![(2, 2)])]
    );
}

#[test]
fn outcomes_with_bad_tags_are_refused() {
    let dup = vec![(0, Ok(vec![(0, 0)])), (0, Ok(vec![(1, 1)]))];
    assert!(in_task_order(2, dup).is_none());
    let big = vec![(0, Ok(vec![(0, 0)])), (2, Ok(vec![(1, 1)]))];
    assert!(in_task_order(2, big).is_none());
    let short = vec![(0, Ok(vec![(0, 0)]))];
    assert!(in_task_order(2, short).is_none());
    assert_eq!(in_task_order(0, Vec::new()), Some(Vec::new()));
}

#[test]
fn surplus_tile_cells_have_no_solution() {
    let t = task("extra", &["1"], &[&["1"], &["1"]]);
    assert_eq!(solve(&t), Err(SolveError::NoSolution("extra".to_string())));
    let u = task("extra2", &["11"], &[&["11"], &["1"]]);
    assert_eq!(solve(&u), Err(SolveError::NoSolution("extra2".to_string())));
}

#[test]
fn tile_on_empty_cell_has_no_solution() {
    let t = task("hole", &["10", "11"], &[&["11", "11"]]);
    assert_eq!(solve(&t), Err(SolveError::NoSolution("hole".to_string())));
}

#[test]
fn overlapping_start_moves_the_later_tile() {
    let t = task("shift", &["11", "11"], &[&["1", "1"], &["1", "1"]]);
    assert_eq!(solve(&t), Ok(vec![(0, 0), (1, 0)]));
}

#[test]
fn can_place_checks_free_cells() {
    let unit = Tile { area: grid(&["1"]) };
    assert!(unit.can_place(1, 1, 0b1000, 2));
    assert!(!unit.can_place(1, 1, 0b0111, 2));
    let bar = Tile { area: grid(&["11"]) };
    assert!(bar.can_place(0, 1, 0b110, 3));
    assert!(!bar.can_place(0, 0, 0b110, 3));
}
