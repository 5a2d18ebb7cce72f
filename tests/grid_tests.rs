use tiler::grid::{Grid, GridError};

fn rows(v: &[&str]) -> Vec<String> {
    v.iter().map(|s| s.to_string()).collect()
}

fn decode(g: &Grid) -> Vec<String> {
    (0..g.rows)
        .map(|r| (0..g.cols).map(|c| if g.is_set(r, c) { '1' } else { '0' }).collect())
        .collect()
}

#[test]
fn round_trip_reproduces_layout() {
    let layouts: Vec<Vec<&str>> = vec![
        vec!["1"],
        vec!["0"],
        vec!["10", "11"],
        vec!["101", "010", "111"],
        vec!["11111111"; 8],
        vec!["10000001", "01000010", "00100100", "00011000", "00011000", "00100100", "01000010", "10000001"],
    ];
    for layout in layouts {
        let g = Grid::from_rows(&rows(&layout)).unwrap();
        assert_eq!(decode(&g), rows(&layout));
    }
}

#[test]
fn bits_are_row_major() {
    let g = Grid::from_rows(&rows(&["10", "11"])).unwrap();
    assert_eq!(g.rows, 2);
    assert_eq!(g.cols, 2);
    assert_eq!(g.bits, 0b1101);
    assert_eq!(g.row_mask, 0b11);
    let h = Grid::from_rows(&rows(&["011"])).unwrap();
    assert_eq!(h.bits, 0b110);
    assert_eq!(h.row_mask, 0b111);
}

#[test]
fn full_grid_uses_all_64_bits() {
    let g = Grid::from_rows(&rows(&["11111111"; 8])).unwrap();
    assert_eq!(g.bits, u64::MAX);
    assert_eq!(g.row_mask, 0xff);
}

#[test]
fn empty_rows_are_rejected() {
    assert_eq!(Grid::from_rows(&Vec::new()).unwrap_err(), GridError::Empty);
    assert_eq!(Grid::from_rows(&rows(&[""])).unwrap_err(), GridError::Empty);
}

#[test]
fn unequal_rows_are_rejected() {
    assert_eq!(Grid::from_rows(&rows(&["1", "11"])).unwrap_err(), GridError::NotSquare);
    assert_eq!(Grid::from_rows(&rows(&["111111111", "1"])).unwrap_err(), GridError::NotSquare);
}

#[test]
fn nine_rows_are_rejected() {
    let r = Grid::from_rows(&rows(&["1"; 9]));
    assert_eq!(r.unwrap_err(), GridError::RowsCountGreaterThan8);
}

#[test]
fn nine_columns_are_rejected() {
    let r = Grid::from_rows(&rows(&["111111111"]));
    assert_eq!(r.unwrap_err(), GridError::ColsCountGreaterThan8);
    let both = Grid::from_rows(&rows(&["111111111"; 9]));
    assert_eq!(both.unwrap_err(), GridError::RowsCountGreaterThan8);
}
