use hex_sweeper::{ClickResult, HexGrid, MarkResult};

#[test]
fn first_click_never_mine() {
    for _ in 0..1000 {
        let mut grid = HexGrid::new(10, 10, 10);
        let res = grid.click(5, 5, 0);
        assert!(!matches!(res, ClickResult::Mine));
        assert!(matches!(res, ClickResult::Revealed(_)));
        assert!(!grid.grid[5][5].mine);
    }
}

#[test]
fn first_click_places_all_mines() {
    for _ in 0..100 {
        let mut grid = HexGrid::new(10, 10, 10);
        grid.click(5, 5, 0);
        let mut cnt = 0;
        for col in &grid.grid {
            for t in col {
                cnt += t.mine as usize;
            }
        }
        assert_eq!(cnt, 10);
    }
}

#[test]
fn mark_revealed_tile_invalid() {
    let mut grid = HexGrid::new(4, 4, 1);
    let res = grid.click(0, 0, 0);
    assert!(!matches!(res, ClickResult::Invalid));
    assert!(grid.grid[0][0].display.is_some());
    let marked_before = grid.grid[0][0].marked;
    assert_eq!(grid.mark(0, 0), MarkResult::Invalid);
    assert_eq!(grid.grid[0][0].marked, marked_before);
}

#[test]
fn reveal_marked_tile_invalid() {
    let mut grid = HexGrid::new(4, 4, 1);
    assert_eq!(grid.mark(2, 2), MarkResult::Toggled);
    assert!(grid.grid[2][2].marked);
    let res = grid.click(2, 2, 0);
    assert_eq!(res, ClickResult::Invalid);
    assert_eq!(grid.grid[2][2].display, None);
    let mut revealed = 0;
    for col in &grid.grid {
        for t in col {
            revealed += t.display.is_some() as usize;
        }
    }
    assert_eq!(revealed, 0);
}

#[test]
fn mark_out_of_bounds_invalid() {
    let mut grid = HexGrid::new(4, 4, 1);
    assert_eq!(grid.mark(4, 0), MarkResult::Invalid);
    assert_eq!(grid.mark(0, 99), MarkResult::Invalid);
}

#[test]
fn click_out_of_bounds_invalid() {
    let mut grid = HexGrid::new(4, 4, 1);
    assert_eq!(grid.click(99, 99, 0), ClickResult::Invalid);
    assert!(!grid.mines_loaded);
}

#[test]
fn click_revealed_tile_invalid() {
    let mut grid = HexGrid::new(2, 2, 1);
    let res = grid.click(0, 0, 0);
    assert!(matches!(res, ClickResult::Revealed(_)));
    assert_eq!(grid.click(0, 0, 1), ClickResult::Invalid);
}

#[test]
fn click_mine_reports_mine() {
    // Fix the layout by hand: a single mine at (0, 0) on a 2x2 board.
    let mut grid = HexGrid::new(2, 2, 1);
    grid.mines_loaded = true;
    grid.grid[0][0].mine = true;
    let res = grid.click(0, 0, 3);
    assert_eq!(res, ClickResult::Mine);
    // the exploded tile is revealed and owned
    assert!(grid.grid[0][0].display.is_some());
    assert_eq!(grid.grid[0][0].player, Some(3));
    // nothing else was revealed
    assert_eq!(grid.grid[1][0].display, None);
    assert_eq!(grid.grid[0][1].display, None);
    assert_eq!(grid.grid[1][1].display, None);
}

#[test]
fn toggle_mark_twice_is_identity() {
    let mut grid = HexGrid::new(4, 4, 1);
    assert!(!grid.grid[1][1].marked);
    assert_eq!(grid.mark(1, 1), MarkResult::Toggled);
    assert!(grid.grid[1][1].marked);
    assert_eq!(grid.mark(1, 1), MarkResult::Toggled);
    assert!(!grid.grid[1][1].marked);
}

#[test]
fn three_by_three_cascade() {
    // One mine at (2, 2); revealing (0, 0), which has no mined neighbour,
    // cascades across every mine-free tile in a single call.
    let mut grid = HexGrid::new(3, 3, 1);
    grid.mines_loaded = true;
    grid.grid[2][2].mine = true;
    let res = grid.click(0, 0, 0);
    assert_eq!(res, ClickResult::Revealed(8));
    for x in 0..3 {
        for y in 0..3 {
            if x == 2 && y == 2 {
                assert_eq!(grid.grid[x][y].display, None);
            } else {
                assert!(grid.grid[x][y].display.is_some());
                assert_eq!(grid.grid[x][y].player, Some(0));
            }
        }
    }
}

#[test]
fn cascade_skips_marked_tiles() {
    // Same board as the cascade scenario, but (0, 1) is flagged first: the
    // flood fill must leave it hidden, and with it the bottom-left tiles it
    // alone connects, (0, 2) and (1, 2).
    let mut grid = HexGrid::new(3, 3, 1);
    grid.mines_loaded = true;
    grid.grid[2][2].mine = true;
    assert_eq!(grid.mark(0, 1), MarkResult::Toggled);
    let res = grid.click(0, 0, 0);
    assert_eq!(res, ClickResult::Revealed(5));
    assert_eq!(grid.grid[0][1].display, None);
    assert!(grid.grid[0][1].marked);
    assert_eq!(grid.grid[0][2].display, None);
    assert_eq!(grid.grid[1][2].display, None);
}

#[test]
fn revealed_count_matches_neighbour_mines() {
    // A fixed layout: mines at (0, 1) and (2, 1). The tile (1, 1) touches
    // both; the neighbours of (1, 0) are (0, 0), (2, 0), (0, 1) and (1, 1),
    // exactly one of which is mined.
    let mut grid = HexGrid::new(4, 4, 2);
    grid.mines_loaded = true;
    grid.grid[0][1].mine = true;
    grid.grid[2][1].mine = true;
    assert_eq!(grid.count_mines(1, 1), 2);
    assert_eq!(grid.count_mines(1, 0), 1);
    assert_eq!(grid.count_mines(3, 3), 0);
    let res = grid.click(1, 1, 0);
    assert_eq!(res, ClickResult::Revealed(1));
    assert_eq!(grid.grid[1][1].display, Some(2));
}

#[test]
fn count_matches_sum_over_neighbours_everywhere() {
    // A fixed mine layout; for every cell, the neighbour mine count must be
    // the sum of is_mine over exactly the tiles get_neighbours lists.
    let mut grid = HexGrid::new(6, 5, 4);
    grid.mines_loaded = true;
    for &(mx, my) in &[(0usize, 0usize), (2, 1), (3, 3), (5, 4)] {
        grid.grid[mx][my].mine = true;
    }
    for x in 0..6 {
        for y in 0..5 {
            let mut sum = 0;
            for (nx, ny) in grid.get_neighbours(x, y) {
                sum += grid.grid[nx][ny].mine as usize;
            }
            assert_eq!(grid.count_mines(x, y), sum);
        }
    }
}

#[test]
fn revealing_twice_is_refused() {
    // A reveal fixes the tile for good: the cascade from (0, 0) covers the
    // whole mine-free region, and clicking any revealed tile afterwards is
    // refused without changing it.
    let mut grid = HexGrid::new(3, 3, 1);
    grid.mines_loaded = true;
    grid.grid[2][2].mine = true;
    assert_eq!(grid.click(0, 0, 0), ClickResult::Revealed(8));
    let shown = grid.grid[1][1].display;
    assert_eq!(grid.click(1, 1, 1), ClickResult::Invalid);
    assert_eq!(grid.grid[1][1].display, shown);
    assert_eq!(grid.grid[1][1].player, Some(0));
}
