use bjl::grid::Grid;

#[test]
fn new_grid_is_zero() {
    let g = Grid::new(3, 2);
    assert_eq!(g.width(), 3);
    assert_eq!(g.height(), 2);
    for y in 0..2 {
        for x in 0..3 {
            assert_eq!(g.get(x, y), 0);
        }
    }
}

#[test]
fn set_changes_one_cell() {
    let mut g = Grid::new(4, 3);
    g.set(2, 1, 9);
    g.set(0, 2, -5);
    assert_eq!(g.get(2, 1), 9);
    assert_eq!(g.get(0, 2), -5);
    assert_eq!(g.get(1, 2), 0);
    assert_eq!(g.get(2, 0), 0);
}

#[test]
fn resize_clears() {
    let mut g = Grid::new(2, 2);
    g.set(1, 1, 4);
    g.resize(5, 1);
    assert_eq!(g.width(), 5);
    assert_eq!(g.height(), 1);
    assert_eq!(g.get(4, 0), 0);
    assert_eq!(g.get(1, 0), 0);
}

#[test]
fn empty_grid() {
    let g = Grid::new(0, 7);
    assert_eq!(g.width(), 0);
    assert_eq!(g.height(), 7);
}
