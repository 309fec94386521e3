use hex_sweeper::HexGrid;

#[test]
fn tile_number0() {
    let grid = HexGrid::new(10, 10, 10);
    assert_eq!(grid.tile_number(), 100);
}

#[test]
fn tile_number1() {
    let grid = HexGrid::new(7, 6, 10);
    assert_eq!(grid.tile_number(), 42);
}

#[test]
fn mine_number0() {
    let grid = HexGrid::new(7, 6, 10);
    assert_eq!(grid.mine_number(), 10);
}

#[test]
fn mine_number1() {
    let grid = HexGrid::new(7, 6, 11);
    assert_eq!(grid.mine_number(), 11);
}

#[test]
fn test_neighbours_even() {
    let grid = HexGrid::new(10, 10, 10);
    let res = grid.get_neighbours(4, 4);

    assert_eq!(res.len(), 6);
    assert!(res.contains(&(3, 4)));
    assert!(res.contains(&(5, 4)));
    assert!(res.contains(&(3, 3)));
    assert!(res.contains(&(4, 3)));
    assert!(res.contains(&(3, 5)));
    assert!(res.contains(&(4, 5)));
}

#[test]
fn test_neighbours_odd() {
    let grid = HexGrid::new(10, 10, 10);
    let res = grid.get_neighbours(5, 5);

    assert_eq!(res.len(), 6);
    assert!(res.contains(&(4, 5)));
    assert!(res.contains(&(6, 5)));
    assert!(res.contains(&(5, 4)));
    assert!(res.contains(&(6, 4)));
    assert!(res.contains(&(5, 6)));
    assert!(res.contains(&(6, 6)));
}

#[test]
fn test_neighbours_corner0() {
    let grid = HexGrid::new(10, 10, 10);
    let res = grid.get_neighbours(0, 0);

    assert_eq!(res.len(), 2);
    assert!(res.contains(&(0, 1)));
    assert!(res.contains(&(1, 0)));
}

#[test]
fn test_neighbours_corner1() {
    let grid = HexGrid::new(10, 10, 10);
    let res = grid.get_neighbours(9, 0);

    assert_eq!(res.len(), 3);
    assert!(res.contains(&(9, 1)));
    assert!(res.contains(&(8, 0)));
    assert!(res.contains(&(8, 1)));
}

#[test]
fn test_neighbours_corner2() {
    let grid = HexGrid::new(10, 10, 10);
    let res = grid.get_neighbours(9, 9);

    assert_eq!(res.len(), 2);
    assert!(res.contains(&(9, 8)));
    assert!(res.contains(&(8, 9)));
}

#[test]
fn test_neighbours_corner3() {
    let grid = HexGrid::new(10, 10, 10);
    let res = grid.get_neighbours(0, 9);

    assert_eq!(res.len(), 3);
    assert!(res.contains(&(0, 8)));
    assert!(res.contains(&(1, 9)));
    assert!(res.contains(&(1, 8)));
}

#[test]
fn test_neighbours_edge0() {
    let grid = HexGrid::new(10, 10, 10);
    let res = grid.get_neighbours(2, 0);

    assert_eq!(res.len(), 4);
    assert!(res.contains(&(1, 0)));
    assert!(res.contains(&(3, 0)));
    assert!(res.contains(&(1, 1)));
    assert!(res.contains(&(2, 1)));
}

#[test]
fn test_neighbours_edge1_even() {
    let grid = HexGrid::new(10, 10, 10);
    let res = grid.get_neighbours(9, 2);

    assert_eq!(res.len(), 5);
    assert!(res.contains(&(9, 1)));
    assert!(res.contains(&(8, 1)));
    assert!(res.contains(&(8, 2)));
    assert!(res.contains(&(9, 3)));
    assert!(res.contains(&(8, 3)));
}

#[test]
fn test_neighbours_edge1_odd() {
    let grid = HexGrid::new(10, 10, 10);
    let res = grid.get_neighbours(9, 3);

    assert_eq!(res.len(), 3);
    assert!(res.contains(&(9, 2)));
    assert!(res.contains(&(9, 4)));
    assert!(res.contains(&(8, 3)));
}

#[test]
fn test_neighbours_edge2_odd() {
    let grid = HexGrid::new(10, 10, 10);
    let res = grid.get_neighbours(2, 9);

    assert_eq!(res.len(), 4);
    assert!(res.contains(&(1, 9)));
    assert!(res.contains(&(3, 9)));
    assert!(res.contains(&(2, 8)));
    assert!(res.contains(&(3, 8)));
}

#[test]
fn test_neighbours_edge2_even() {
    let grid = HexGrid::new(11, 11, 11);
    let res = grid.get_neighbours(2, 10);

    assert_eq!(res.len(), 4);
    assert!(res.contains(&(1, 10)));
    assert!(res.contains(&(3, 10)));
    assert!(res.contains(&(1, 9)));
    assert!(res.contains(&(2, 9)));
}

#[test]
fn test_neighbours_edge3_even() {
    let grid = HexGrid::new(10, 10, 10);
    let res = grid.get_neighbours(0, 2);

    assert_eq!(res.len(), 3);
    assert!(res.contains(&(0, 1)));
    assert!(res.contains(&(0, 3)));
    assert!(res.contains(&(1, 2)));
}

#[test]
fn test_neighbours_edge3_odd() {
    let grid = HexGrid::new(10, 10, 10);
    let res = grid.get_neighbours(0, 3);

    assert_eq!(res.len(), 5);
    assert!(res.contains(&(0, 2)));
    assert!(res.contains(&(0, 4)));
    assert!(res.contains(&(1, 2)));
    assert!(res.contains(&(1, 4)));
    assert!(res.contains(&(1, 3)));
}

#[test]
fn count_mines0() {
    let grid = HexGrid::new(10, 10, 10);
    assert_eq!(grid.count_mines(1, 1), 0);
}

#[test]
fn count_mines1() {
    let mut grid = HexGrid::new(10, 10, 10);
    grid.grid[0][1].mine = true;
    assert_eq!(grid.count_mines(1, 1), 1);
}

#[test]
fn gen_mines0() {
    for _ in 0..100 {
        let mut grid = HexGrid::new(10, 10, 10);
        assert!(!grid.mines_loaded);

        grid.gen_mines(1, 2);
        let mut cnt = 0;
        for i in &grid.grid {
            for j in i {
                cnt += j.mine as usize;
            }
        }
        assert!(grid.mines_loaded);
        assert_eq!(cnt, 10);
        assert!(!grid.grid[1][2].mine);
    }
}

#[test]
fn gen_mines1() {
    for _ in 0..100 {
        let mut grid = HexGrid::new(42, 42, 42);
        assert!(!grid.mines_loaded);

        grid.gen_mines(3, 3);
        let mut cnt = 0;
        for i in &grid.grid {
            for j in i {
                cnt += j.mine as usize;
            }
        }
        assert!(grid.mines_loaded);
        assert_eq!(cnt, 42);
        assert!(!grid.grid[3][3].mine);
    }
}
