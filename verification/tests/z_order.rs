use morton_grid::grid::GridModel;
use morton_grid::morton::encode;
use morton_grid::zorder::sort;

#[test]
fn sorted_eight_by_eight_grid_is_the_z_curve() {
    let mut cells = GridModel::new(8).unwrap().enumerate();
    sort(&mut cells);
    assert_eq!(cells.len(), 64);
    for (i, (x, y)) in cells.iter().enumerate() {
        assert_eq!(encode(*x, *y) as usize, i);
    }
    assert_eq!(
        &cells[..8],
        &[(0u8, 0u8), (0, 1), (1, 0), (1, 1), (0, 2), (0, 3), (1, 2), (1, 3)]
    );
    assert_eq!(cells[16], (0, 4));
    assert_eq!(cells[32], (4, 0));
    assert_eq!(cells[63], (7, 7));
}

#[test]
fn sorting_twice_gives_the_same_sequence() {
    let mut cells = GridModel::new(8).unwrap().enumerate();
    sort(&mut cells);
    let once = cells.clone();
    sort(&mut cells);
    assert_eq!(cells, once);
    sort(&mut cells);
    assert_eq!(cells, once);
}

#[test]
fn sorting_a_reversed_grid() {
    let mut cells = GridModel::new(4).unwrap().enumerate();
    cells.reverse();
    sort(&mut cells);
    let codes: Vec<u16> = cells.iter().map(|c| encode(c.0, c.1)).collect();
    assert_eq!(codes, (0u16..16).collect::<Vec<u16>>());
}

#[test]
fn sorting_nothing_and_one_cell() {
    let mut none: Vec<(u8, u8)> = Vec::new();
    sort(&mut none);
    assert!(none.is_empty());
    let mut one = vec![(3u8, 5u8)];
    sort(&mut one);
    assert_eq!(one, vec![(3u8, 5u8)]);
}

#[test]
fn sorting_keeps_repeated_cells() {
    let mut cells = vec![(7u8, 7u8), (0, 1), (1, 0), (0, 1), (0, 0), (7, 7), (0, 1)];
    sort(&mut cells);
    assert_eq!(
        cells,
        vec![(0u8, 0u8), (0, 1), (0, 1), (0, 1), (1, 0), (7, 7), (7, 7)]
    );
}

#[test]
fn sorting_cells_outside_the_small_grid() {
    let mut cells = vec![(255u8, 255u8), (0, 255), (255, 0), (16, 0), (0, 16)];
    sort(&mut cells);
    assert_eq!(
        cells,
        vec![(0u8, 16u8), (16, 0), (0, 255), (255, 0), (255, 255)]
    );
}

#[test]
fn sorted_largest_grid_is_the_z_curve() {
    let mut cells = GridModel::new(256).unwrap().enumerate();
    sort(&mut cells);
    for (i, (x, y)) in cells.iter().enumerate() {
        assert_eq!(encode(*x, *y) as usize, i);
    }
}
