use dungeon::Algorithm;
use dungeon::board::Board;
use dungeon::bsp::generate_bsp_with_tree;
use dungeon::error::DungeonError;
use dungeon::level::Level;
use dungeon::room::Room;
use dungeon::rooms::generate_rooms_corridors;
use dungeon::tile::Tile;
use rand::SeedableRng;
use rand::rngs::StdRng;

fn make_rng(tag: u8) -> StdRng {
    let mut seed = [7u8; 32];
    seed[0] = tag;
    StdRng::from_seed(seed)
}

fn rooms_level(tag: u8, walls: bool) -> Level {
    let mut rng = make_rng(tag);
    generate_rooms_corridors(48, 40, "seed-token", &mut rng, walls, 4, 5).unwrap()
}

fn bsp_level(tag: u8, walls: bool) -> Level {
    let mut rng = make_rng(tag);
    generate_bsp_with_tree(48, 40, "seed-token", &mut rng, walls, 4, 5)
        .unwrap()
        .0
}

fn passable(code: u8) -> bool {
    code == 1 || code == 2
}

/// Flood fill from `start` over floor and corridor cells, 4-directional.
fn reachable(grid: &Vec<Vec<u8>>, start: (usize, usize)) -> Vec<Vec<bool>> {
    let h = grid.len();
    let w = grid[0].len();
    let mut seen = vec![vec![false; w]; h];
    let mut stack = vec![start];
    seen[start.1][start.0] = true;
    while let Some((x, y)) = stack.pop() {
        let mut push = |nx: usize, ny: usize, seen: &mut Vec<Vec<bool>>, stack: &mut Vec<(usize, usize)>| {
            if !seen[ny][nx] && passable(grid[ny][nx]) {
                seen[ny][nx] = true;
                stack.push((nx, ny));
            }
        };
        if x > 0 {
            push(x - 1, y, &mut seen, &mut stack);
        }
        if x + 1 < w {
            push(x + 1, y, &mut seen, &mut stack);
        }
        if y > 0 {
            push(x, y - 1, &mut seen, &mut stack);
        }
        if y + 1 < h {
            push(x, y + 1, &mut seen, &mut stack);
        }
    }
    seen
}

fn centre(r: &Room) -> (usize, usize) {
    ((r.x + r.width / 2) as usize, (r.y + r.height / 2) as usize)
}

#[test]
fn board_new_rejects_nonpositive() {
    assert_eq!(Board::new(0, 5).unwrap_err(), DungeonError::InvalidDimension);
    assert_eq!(Board::new(5, 0).unwrap_err(), DungeonError::InvalidDimension);
    assert_eq!(Board::new(-3, -1).unwrap_err(), DungeonError::InvalidDimension);
    assert!(Board::new(3, 2).is_ok());
}

#[test]
fn board_get_set_bounds() {
    let mut b = Board::new(4, 3).unwrap();
    assert_eq!(b.get(0, 0).unwrap(), Tile::Empty);
    assert_eq!(b.get(4, 0).unwrap_err(), DungeonError::OutOfBounds);
    assert_eq!(b.get(0, 3).unwrap_err(), DungeonError::OutOfBounds);
    assert_eq!(b.get(-1, 0).unwrap_err(), DungeonError::OutOfBounds);
    assert_eq!(b.set(5, 1, Tile::Floor).unwrap_err(), DungeonError::OutOfBounds);
    b.set(2, 1, Tile::Floor).unwrap();
    assert_eq!(b.get(2, 1).unwrap(), Tile::Floor);
    assert_eq!(b.get(1, 2).unwrap(), Tile::Empty);
}

#[test]
fn tile_codes_and_glyphs() {
    assert_eq!(Tile::Empty.code(), 0);
    assert_eq!(Tile::Floor.code(), 1);
    assert_eq!(Tile::Corridor.code(), 2);
    assert_eq!(Tile::Wall.code(), 3);
    assert_eq!(Tile::Empty.glyph(), "0");
    assert_eq!(Tile::Floor.glyph(), "1");
    assert_eq!(Tile::Corridor.glyph(), "2");
    assert_eq!(Tile::Wall.glyph(), "3");
}

#[test]
fn room_centre_and_overlap() {
    let r = Room { x: 2, y: 3, width: 4, height: 5 };
    assert_eq!(r.centre(), (4, 5));
    let touching = Room { x: 6, y: 3, width: 4, height: 5 };
    // The rectangles only touch, but grown by the margin they intersect.
    assert!(r.overlaps_with_margin(&touching, 1));
    assert!(!r.overlaps_with_margin(&touching, 0));
    let far = Room { x: 9, y: 3, width: 4, height: 5 };
    assert!(!r.overlaps_with_margin(&far, 1));
}

#[test]
fn rooms_corridors_deterministic() {
    let a = rooms_level(1, false);
    let b = rooms_level(1, false);
    assert_eq!(a.render(), b.render());
    assert_eq!(a.board_to_csv(), b.board_to_csv());
    assert_eq!(a.rooms, b.rooms);
}

#[test]
fn bsp_deterministic() {
    let a = bsp_level(2, true);
    let b = bsp_level(2, true);
    assert_eq!(a.render(), b.render());
    assert_eq!(a.rooms, b.rooms);
}

#[test]
fn different_seeds_differ() {
    let a = rooms_level(1, false);
    let b = rooms_level(3, false);
    assert_ne!(a.render(), b.render());
}

#[test]
fn rooms_containment() {
    for lv in [rooms_level(4, false), bsp_level(4, false)] {
        for r in &lv.rooms {
            assert!(r.x >= 0 && r.y >= 0);
            assert!(r.width > 0 && r.height > 0);
            assert!(r.x + r.width <= lv.width);
            assert!(r.y + r.height <= lv.height);
        }
    }
}

#[test]
fn rooms_non_overlap_with_margin() {
    let lv = rooms_level(5, false);
    for (i, a) in lv.rooms.iter().enumerate() {
        for b in lv.rooms.iter().skip(i + 1) {
            assert!(!a.overlaps_with_margin(b, 1));
        }
    }
}

#[test]
fn scenario_rooms_corridors_connected() {
    let lv = rooms_level(6, false);
    assert!(lv.rooms.len() >= 1);
    let grid = lv.board_to_csv();
    let seen = reachable(&grid, centre(&lv.rooms[0]));
    for r in &lv.rooms {
        let (cx, cy) = centre(r);
        assert!(passable(grid[cy][cx]));
        assert!(seen[cy][cx]);
    }
}

#[test]
fn scenario_bsp_leaves_tile_board() {
    let mut rng = make_rng(7);
    let (lv, tree) = generate_bsp_with_tree(48, 40, "seed-token", &mut rng, false, 4, 5).unwrap();
    let leaves: Vec<_> = tree
        .nodes
        .iter()
        .filter(|n| n.left.is_none() && n.right.is_none())
        .collect();
    // Each cell of the board lies in exactly one leaf region.
    for y in 0..40 {
        for x in 0..48 {
            let count = leaves
                .iter()
                .filter(|n| {
                    x >= n.rect.x && x < n.rect.x + n.rect.width && y >= n.rect.y
                        && y < n.rect.y + n.rect.height
                })
                .count();
            assert_eq!(count, 1);
        }
    }
    // One room per leaf, contained in its leaf.
    assert_eq!(leaves.len(), lv.rooms.len());
    for n in &leaves {
        let rm = n.room.as_ref().expect("leaf without a room");
        assert!(rm.x > n.rect.x && rm.y > n.rect.y);
        assert!(rm.x + rm.width < n.rect.x + n.rect.width);
        assert!(rm.y + rm.height < n.rect.y + n.rect.height);
    }
}

#[test]
fn scenario_bsp_connected() {
    let lv = bsp_level(8, false);
    assert!(lv.rooms.len() >= 1);
    let grid = lv.board_to_csv();
    let seen = reachable(&grid, centre(&lv.rooms[0]));
    for r in &lv.rooms {
        let (cx, cy) = centre(r);
        assert!(seen[cy][cx]);
    }
}

#[test]
fn csv_shape() {
    for lv in [rooms_level(9, false), bsp_level(9, true)] {
        let grid = lv.board_to_csv();
        assert_eq!(grid.len(), 40);
        for row in &grid {
            assert_eq!(row.len(), 48);
        }
    }
}

#[test]
fn render_shape_matches_csv() {
    let lv = rooms_level(10, true);
    let text = lv.render();
    let lines: Vec<&str> = text.lines().collect();
    let grid = lv.board_to_csv();
    assert_eq!(lines.len(), grid.len());
    for (line, row) in lines.iter().zip(grid.iter()) {
        assert_eq!(line.chars().count(), row.len());
        for (ch, code) in line.chars().zip(row.iter()) {
            let expected = match code {
                0 => '0',
                1 => '1',
                2 => '2',
                3 => '3',
                _ => panic!("unknown tile code"),
            };
            assert_eq!(ch, expected);
        }
    }
}

#[test]
fn invalid_config_rejected() {
    let mut rng = make_rng(11);
    let r = generate_rooms_corridors(10, 10, "s", &mut rng, false, 20, 4);
    assert_eq!(r.unwrap_err(), DungeonError::InvalidConfig);
    let r = generate_bsp_with_tree(10, 10, "s", &mut rng, false, 20, 4);
    assert_eq!(r.unwrap_err(), DungeonError::InvalidConfig);
    let r = generate_rooms_corridors(10, 10, "s", &mut rng, false, 4, 20);
    assert_eq!(r.unwrap_err(), DungeonError::InvalidConfig);
    let r = generate_rooms_corridors(0, 10, "s", &mut rng, false, 4, 4);
    assert_eq!(r.unwrap_err(), DungeonError::InvalidConfig);
    let r = generate_bsp_with_tree(10, -1, "s", &mut rng, false, 4, 4);
    assert_eq!(r.unwrap_err(), DungeonError::InvalidConfig);
    let r = generate_rooms_corridors(10, 10, "s", &mut rng, false, 0, 4);
    assert_eq!(r.unwrap_err(), DungeonError::InvalidConfig);
}

#[test]
fn wall_border_exact() {
    for lv in [rooms_level(12, true), bsp_level(12, true)] {
        let grid = lv.board_to_csv();
        let h = grid.len();
        let w = grid[0].len();
        for y in 0..h {
            for x in 0..w {
                let mut near_passable = false;
                if x > 0 && passable(grid[y][x - 1]) {
                    near_passable = true;
                }
                if x + 1 < w && passable(grid[y][x + 1]) {
                    near_passable = true;
                }
                if y > 0 && passable(grid[y - 1][x]) {
                    near_passable = true;
                }
                if y + 1 < h && passable(grid[y + 1][x]) {
                    near_passable = true;
                }
                match grid[y][x] {
                    0 => assert!(!near_passable),
                    3 => assert!(near_passable),
                    _ => {}
                }
            }
        }
    }
}

#[test]
fn no_wall_tiles_without_flag() {
    for lv in [rooms_level(13, false), bsp_level(13, false)] {
        for row in lv.board_to_csv() {
            for code in row {
                assert_ne!(code, 3);
            }
        }
    }
}

#[test]
fn level_metadata_kept() {
    let lv = rooms_level(14, false);
    assert_eq!(lv.seed, "seed-token");
    assert_eq!(lv.width, 48);
    assert_eq!(lv.height, 40);
    assert!(lv.algorithm == Algorithm::RoomsCorridors);
    let lv = bsp_level(14, false);
    assert!(lv.algorithm == Algorithm::Bsp);
}

#[test]
fn error_descriptions_distinct() {
    let a = DungeonError::InvalidDimension.describe();
    let b = DungeonError::InvalidConfig.describe();
    let c = DungeonError::OutOfBounds.describe();
    assert_ne!(a, b);
    assert_ne!(b, c);
    assert_ne!(a, c);
}

#[test]
fn floor_only_inside_rooms() {
    for lv in [rooms_level(15, false), bsp_level(15, true)] {
        let grid = lv.board_to_csv();
        for (y, row) in grid.iter().enumerate() {
            for (x, code) in row.iter().enumerate() {
                if *code == 1 {
                    let inside = lv.rooms.iter().any(|r| {
                        (x as i32) >= r.x
                            && (x as i32) < r.x + r.width
                            && (y as i32) >= r.y
                            && (y as i32) < r.y + r.height
                    });
                    assert!(inside);
                }
            }
        }
    }
}

#[test]
fn board_fill_sets_every_cell() {
    let mut b = Board::new(3, 2).unwrap();
    b.fill(Tile::Corridor);
    for y in 0..2 {
        for x in 0..3 {
            assert_eq!(b.get(x, y).unwrap(), Tile::Corridor);
        }
    }
}
