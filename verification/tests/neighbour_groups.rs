use morton_grid::grid::GridModel;
use morton_grid::morton::encode;
use morton_grid::neighbours::{ancestry, BitMask, HighlightError, NearestNeighboursStratergy};
use morton_grid::zorder::sort;

fn sorted_grid(dim: usize) -> (GridModel, Vec<(u8, u8)>) {
    let grid = GridModel::new(dim).unwrap();
    let mut cells = grid.enumerate();
    sort(&mut cells);
    (grid, cells)
}

fn square(x0: u8, y0: u8, side: u8) -> Vec<(u8, u8)> {
    let mut cells = Vec::new();
    for x in x0..x0 + side {
        for y in y0..y0 + side {
            cells.push((x, y));
        }
    }
    cells
}

fn as_sorted(mut cells: Vec<(u8, u8)>) -> Vec<(u8, u8)> {
    cells.sort();
    cells
}

#[test]
fn whole_grid_groups_are_the_four_quadrants() {
    let (grid, cells) = sorted_grid(8);
    let strategy = NearestNeighboursStratergy::SharesBits(BitMask::WholeGrid);
    let mut groups: Vec<Vec<(u8, u8)>> = Vec::new();
    for n in 0..cells.len() {
        let chosen = as_sorted(strategy.highlight(&grid, &cells, n).unwrap());
        assert_eq!(chosen.len(), 16);
        let (x, y) = cells[n];
        assert_eq!(chosen, as_sorted(square(x / 4 * 4, y / 4 * 4, 4)));
        if !groups.contains(&chosen) {
            groups.push(chosen);
        }
    }
    assert_eq!(groups.len(), 4);
    for a in 0..4 {
        for b in 0..a {
            assert!(groups[a].iter().all(|c| !groups[b].contains(c)));
        }
    }
}

#[test]
fn whole_grid_groups_on_the_row_major_collection() {
    let grid = GridModel::new(8).unwrap();
    let cells = grid.enumerate();
    let chosen = NearestNeighboursStratergy::SharesBits(BitMask::WholeGrid)
        .highlight(&grid, &cells, 8 * 5 + 2)
        .unwrap();
    assert_eq!(chosen, square(4, 0, 4));
}

#[test]
fn chosen_cells_come_in_collection_order() {
    let (grid, cells) = sorted_grid(8);
    let chosen = NearestNeighboursStratergy::SharesBits(BitMask::WholeGrid)
        .highlight(&grid, &cells, 20)
        .unwrap();
    assert_eq!(chosen, cells[16..32].to_vec());
}

#[test]
fn top_level_parent_starts_at_bit_four() {
    let (grid, cells) = sorted_grid(16);
    let chosen = NearestNeighboursStratergy::SharesBits(BitMask::TopLevelParent)
        .highlight(&grid, &cells, 0)
        .unwrap();
    assert_eq!(chosen.len(), 64);
    for (x, y) in &cells {
        let same = (encode(*x, *y) >> 4) & 3 == 0;
        assert_eq!(chosen.contains(&(*x, *y)), same);
    }
}

#[test]
fn second_level_parent_starts_at_bit_two() {
    let (grid, cells) = sorted_grid(8);
    let selected = cells.iter().position(|c| *c == (2, 5)).unwrap();
    let chosen = NearestNeighboursStratergy::SharesBits(BitMask::SecondLevelParent)
        .highlight(&grid, &cells, selected)
        .unwrap();
    assert_eq!(chosen.len(), 16);
    for (x, y) in &cells {
        let same = (x >> 1) & 1 == 1 && (y >> 1) & 1 == 0;
        assert_eq!(chosen.contains(&(*x, *y)), same);
    }
}

#[test]
fn levels_of_an_eight_by_eight_grid() {
    let grid = GridModel::new(8).unwrap();
    assert_eq!(BitMask::WholeGrid.shift(&grid), Some(4));
    assert_eq!(BitMask::TopLevelParent.shift(&grid), Some(4));
    assert_eq!(BitMask::SecondLevelParent.shift(&grid), Some(2));
}

#[test]
fn levels_of_other_grids() {
    let grid = GridModel::new(16).unwrap();
    assert_eq!(BitMask::WholeGrid.shift(&grid), Some(6));
    assert_eq!(BitMask::TopLevelParent.shift(&grid), Some(4));
    assert_eq!(BitMask::SecondLevelParent.shift(&grid), Some(2));
    let grid = GridModel::new(256).unwrap();
    assert_eq!(BitMask::WholeGrid.shift(&grid), Some(14));
    let grid = GridModel::new(4).unwrap();
    assert_eq!(BitMask::WholeGrid.shift(&grid), Some(2));
    assert_eq!(BitMask::TopLevelParent.shift(&grid), None);
    assert_eq!(BitMask::SecondLevelParent.shift(&grid), Some(2));
    let grid = GridModel::new(2).unwrap();
    assert_eq!(BitMask::WholeGrid.shift(&grid), None);
    assert_eq!(BitMask::TopLevelParent.shift(&grid), None);
    assert_eq!(BitMask::SecondLevelParent.shift(&grid), None);
    let grid = GridModel::new(1).unwrap();
    assert_eq!(BitMask::WholeGrid.shift(&grid), None);
}

#[test]
fn ancestry_through_the_whole_grid_is_the_quadrant() {
    let (grid, cells) = sorted_grid(8);
    let strategy = NearestNeighboursStratergy::SharedParents(BitMask::WholeGrid);
    for n in 0..cells.len() {
        let chosen = as_sorted(strategy.highlight(&grid, &cells, n).unwrap());
        let (x, y) = cells[n];
        assert_eq!(chosen, as_sorted(square(x / 4 * 4, y / 4 * 4, 4)));
    }
}

#[test]
fn ancestry_through_the_second_level_is_the_block_of_four() {
    let (grid, cells) = sorted_grid(8);
    let strategy = NearestNeighboursStratergy::SharedParents(BitMask::SecondLevelParent);
    for n in 0..cells.len() {
        let chosen = strategy.highlight(&grid, &cells, n).unwrap();
        assert_eq!(chosen, cells[n / 4 * 4..n / 4 * 4 + 4].to_vec());
        let (x, y) = cells[n];
        assert_eq!(as_sorted(chosen), as_sorted(square(x / 2 * 2, y / 2 * 2, 2)));
    }
}

#[test]
fn finer_ancestry_is_within_coarser_ancestry() {
    let (grid, cells) = sorted_grid(16);
    let levels = [
        BitMask::SecondLevelParent,
        BitMask::TopLevelParent,
        BitMask::WholeGrid,
    ];
    let sizes = [4usize, 16, 64];
    for n in 0..cells.len() {
        let mut finer: Option<Vec<(u8, u8)>> = None;
        for (level, size) in levels.iter().zip(sizes) {
            let chosen = NearestNeighboursStratergy::SharedParents(*level)
                .highlight(&grid, &cells, n)
                .unwrap();
            assert_eq!(chosen.len(), size);
            if let Some(inner) = finer {
                assert!(inner.iter().all(|c| chosen.contains(c)));
            }
            finer = Some(chosen);
        }
    }
}

#[test]
fn ancestry_looks_at_the_bits_of_the_grid_only() {
    let grid = GridModel::new(8).unwrap();
    let cells = vec![(0u8, 0u8), (8, 0), (0, 8), (4, 0), (3, 3), (248, 248)];
    let chosen = NearestNeighboursStratergy::SharedParents(BitMask::WholeGrid)
        .highlight(&grid, &cells, 0)
        .unwrap();
    assert_eq!(chosen, vec![(0u8, 0u8), (8, 0), (0, 8), (3, 3), (248, 248)]);
}

#[test]
fn ancestry_values() {
    assert_eq!(ancestry(0b11_01_10, 6, 2), 0b11_01);
    assert_eq!(ancestry(0b11_01_10, 6, 4), 0b11);
    assert_eq!(ancestry(0b11_01_10, 6, 0), 0b11_01_10);
    assert_eq!(ancestry(0b11_01_10, 4, 2), 0b01);
    assert_eq!(ancestry(0xFFFF, 6, 2), 0b1111);
    assert_eq!(ancestry(0xFFFF, 16, 14), 0b11);
    assert_eq!(ancestry(0xFFFF, 16, 0), 0xFFFF);
    assert_eq!(ancestry(0xFFFF, 40, 0), 0xFFFF);
    assert_eq!(ancestry(0xFFFF, 0, 0), 0);
    assert_eq!(ancestry(0xFFFF, 16, 16), 0);
    assert_eq!(ancestry(0xFFFF, 16, 99), 0);
}

#[test]
fn sharing_no_bits_with_the_origin_chooses_every_cell() {
    let (grid, cells) = sorted_grid(8);
    let chosen = NearestNeighboursStratergy::SharesNoBits
        .highlight(&grid, &cells, 0)
        .unwrap();
    assert_eq!(chosen, cells);
}

#[test]
fn sharing_no_bits_with_the_far_corner_chooses_the_origin() {
    let (grid, cells) = sorted_grid(8);
    let chosen = NearestNeighboursStratergy::SharesNoBits
        .highlight(&grid, &cells, 63)
        .unwrap();
    assert_eq!(chosen, vec![(0u8, 0u8)]);
}

#[test]
fn sharing_no_bits_leaves_the_selected_cell_out_unless_its_code_is_zero() {
    let (grid, cells) = sorted_grid(8);
    for n in 0..cells.len() {
        let chosen = NearestNeighboursStratergy::SharesNoBits
            .highlight(&grid, &cells, n)
            .unwrap();
        assert_eq!(chosen.contains(&cells[n]), n == 0);
        for (i, cell) in cells.iter().enumerate() {
            assert_eq!(chosen.contains(cell), i & n == 0);
        }
    }
}

#[test]
fn sharing_no_bits_is_mutual() {
    let (grid, cells) = sorted_grid(8);
    let strategy = NearestNeighboursStratergy::SharesNoBits;
    let all: Vec<Vec<(u8, u8)>> = (0..cells.len())
        .map(|n| strategy.highlight(&grid, &cells, n).unwrap())
        .collect();
    for a in 0..cells.len() {
        for b in 0..cells.len() {
            assert_eq!(all[a].contains(&cells[b]), all[b].contains(&cells[a]));
        }
    }
}

#[test]
fn the_selected_cell_is_among_the_cells_that_share_its_groups() {
    let (grid, cells) = sorted_grid(8);
    for level in [
        BitMask::WholeGrid,
        BitMask::TopLevelParent,
        BitMask::SecondLevelParent,
    ] {
        for n in 0..cells.len() {
            let by_group = NearestNeighboursStratergy::SharesBits(level)
                .highlight(&grid, &cells, n)
                .unwrap();
            assert!(by_group.contains(&cells[n]));
            let by_ancestry = NearestNeighboursStratergy::SharedParents(level)
                .highlight(&grid, &cells, n)
                .unwrap();
            assert!(by_ancestry.contains(&cells[n]));
        }
    }
}

#[test]
fn index_past_the_end_selects_nothing() {
    let (grid, cells) = sorted_grid(8);
    assert_eq!(cells.len(), 64);
    for strategy in [
        NearestNeighboursStratergy::SharesBits(BitMask::WholeGrid),
        NearestNeighboursStratergy::SharesBits(BitMask::TopLevelParent),
        NearestNeighboursStratergy::SharesBits(BitMask::SecondLevelParent),
        NearestNeighboursStratergy::SharedParents(BitMask::WholeGrid),
        NearestNeighboursStratergy::SharedParents(BitMask::SecondLevelParent),
        NearestNeighboursStratergy::SharesNoBits,
    ] {
        for n in [64usize, 65, 1000, usize::MAX] {
            assert_eq!(
                strategy.highlight(&grid, &cells, n),
                Err(HighlightError::NoSelection)
            );
        }
        assert!(strategy.highlight(&grid, &cells, 63).is_ok());
    }
}

#[test]
fn nothing_is_selected_in_an_empty_collection() {
    let grid = GridModel::new(8).unwrap();
    let cells: Vec<(u8, u8)> = Vec::new();
    assert_eq!(
        NearestNeighboursStratergy::SharesNoBits.highlight(&grid, &cells, 0),
        Err(HighlightError::NoSelection)
    );
}

#[test]
fn level_that_the_grid_lacks_is_a_configuration_error() {
    let (grid, cells) = sorted_grid(4);
    assert_eq!(
        NearestNeighboursStratergy::SharesBits(BitMask::TopLevelParent).highlight(&grid, &cells, 0),
        Err(HighlightError::Configuration)
    );
    assert_eq!(
        NearestNeighboursStratergy::SharedParents(BitMask::TopLevelParent)
            .highlight(&grid, &cells, 3),
        Err(HighlightError::Configuration)
    );
    assert!(NearestNeighboursStratergy::SharesBits(BitMask::WholeGrid)
        .highlight(&grid, &cells, 0)
        .is_ok());
    let (grid, cells) = sorted_grid(2);
    assert_eq!(
        NearestNeighboursStratergy::SharesBits(BitMask::WholeGrid).highlight(&grid, &cells, 0),
        Err(HighlightError::Configuration)
    );
    assert_eq!(
        NearestNeighboursStratergy::SharedParents(BitMask::SecondLevelParent)
            .highlight(&grid, &cells, 0),
        Err(HighlightError::Configuration)
    );
    assert_eq!(
        NearestNeighboursStratergy::SharesNoBits.highlight(&grid, &cells, 3),
        Ok(vec![(0u8, 0u8)])
    );
}

#[test]
fn no_selection_is_reported_before_the_level_is_looked_at() {
    let (grid, cells) = sorted_grid(2);
    assert_eq!(
        NearestNeighboursStratergy::SharesBits(BitMask::WholeGrid).highlight(&grid, &cells, 4),
        Err(HighlightError::NoSelection)
    );
}

#[test]
fn the_three_selections_agree_with_highlight() {
    let (grid, cells) = sorted_grid(8);
    for n in [0usize, 17, 63, 64] {
        for level in [BitMask::WholeGrid, BitMask::SecondLevelParent] {
            assert_eq!(
                NearestNeighboursStratergy::shares_bits(&grid, &cells, n, &level),
                NearestNeighboursStratergy::SharesBits(level).highlight(&grid, &cells, n)
            );
            assert_eq!(
                NearestNeighboursStratergy::shared_parents(&grid, &cells, n, &level),
                NearestNeighboursStratergy::SharedParents(level).highlight(&grid, &cells, n)
            );
        }
        assert_eq!(
            NearestNeighboursStratergy::shares_no_bits(&grid, &cells, n),
            NearestNeighboursStratergy::SharesNoBits.highlight(&grid, &cells, n)
        );
    }
}

#[test]
fn strategies_cycle_in_four_steps() {
    let first = NearestNeighboursStratergy::SharesBits(BitMask::WholeGrid);
    let second = first.advance();
    assert_eq!(
        second,
        NearestNeighboursStratergy::SharesBits(BitMask::TopLevelParent)
    );
    let third = second.advance();
    assert_eq!(
        third,
        NearestNeighboursStratergy::SharesBits(BitMask::SecondLevelParent)
    );
    let fourth = third.advance();
    assert_eq!(
        fourth,
        NearestNeighboursStratergy::SharedParents(BitMask::WholeGrid)
    );
    assert_eq!(fourth.advance(), first);
}

#[test]
fn strategies_outside_the_cycle_lead_to_its_start() {
    let first = NearestNeighboursStratergy::SharesBits(BitMask::WholeGrid);
    assert_eq!(NearestNeighboursStratergy::SharesNoBits.advance(), first);
    assert_eq!(
        NearestNeighboursStratergy::SharedParents(BitMask::TopLevelParent).advance(),
        first
    );
    assert_eq!(
        NearestNeighboursStratergy::SharedParents(BitMask::SecondLevelParent).advance(),
        first
    );
}
