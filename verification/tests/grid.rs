use diff::grid::Grid;

#[test]
fn grid_creation() {
    let (rows, columns) = (5, 5);
    let grid = Grid::new(rows, columns);
    for i in 0..rows {
        for j in 0..columns {
            assert!(grid.get(i, j) == 0);
        }
    }
}

#[test]
fn grid_insertion() {
    let (rows, columns) = (5, 5);
    let mut grid = Grid::new(rows, columns);
    for i in 0..rows {
        for j in 0..columns {
            grid.insert(i, j, i + j);
        }
    }
    for i in 0..rows {
        for j in 0..columns {
            assert!(grid.get(i, j) == i + j);
        }
    }
}

#[test]
fn grid_replace() {
    let (rows, columns) = (5, 5);
    let mut grid = Grid::new(rows, columns);
    for i in 0..rows {
        for j in 0..columns {
            grid.insert(i, j, i + j);
        }
    }
    for i in 0..rows {
        for j in 0..columns {
            grid.insert(i, j, i);
        }
    }
    for i in 0..rows {
        for j in 0..columns {
            assert!(grid.get(i, j) == i);
        }
    }
}

#[test]
fn grid_without_cells_can_be_made() {
    let _empty = Grid::new(0, 0);
    let _no_columns = Grid::new(3, 0);
    let _no_rows = Grid::new(0, 3);
}

#[test]
fn grid_insert_leaves_other_cells() {
    let mut grid = Grid::new(3, 4);
    grid.insert(1, 2, 7);
    for i in 0..3 {
        for j in 0..4 {
            let expected = if (i, j) == (1, 2) { 7 } else { 0 };
            assert_eq!(grid.get(i, j), expected);
        }
    }
}

#[test]
fn grid_is_not_square() {
    let (rows, columns) = (2, 5);
    let mut grid = Grid::new(rows, columns);
    for i in 0..rows {
        for j in 0..columns {
            grid.insert(i, j, 10 * i + j);
        }
    }
    assert_eq!(grid.get(0, 4), 4);
    assert_eq!(grid.get(1, 0), 10);
    assert_eq!(grid.get(1, 4), 14);
}
