use ripoff_robots::board::{Board, Direction};
use ripoff_robots::generate::{GenerateError, MIN_SIDE, OBSTACLE_COUNT};
use ripoff_robots::rng::Rng;

fn hwall(b: &Board, x: usize, y: usize) -> bool {
    b.horizontal_walls[y * b.width + x]
}

fn vwall(b: &Board, x: usize, y: usize) -> bool {
    b.vertical_walls[y * (b.width - 1) + x]
}

#[test]
fn sixteen_board_shape() {
    let b = Board::generate(16, 16, &mut Rng::new(7)).unwrap();
    assert_eq!(b.width, 16);
    assert_eq!(b.height(), 16);
    assert_eq!(b.horizontal_walls.len(), 16 * 15);
    assert_eq!(b.vertical_walls.len(), 15 * 16);
    assert_eq!(b.initial_positions, [0, 1, 2, 3, 4]);
    assert!(b.is_well_formed());
}

#[test]
fn center_is_walled_off() {
    for seed in 0..20u64 {
        let b = Board::generate(16, 16, &mut Rng::new(seed)).unwrap();
        for y in [7, 8] {
            assert!(vwall(&b, 6, y));
            assert!(vwall(&b, 8, y));
        }
        for x in [7, 8] {
            assert!(hwall(&b, x, 6));
            assert!(hwall(&b, x, 8));
        }
    }
}

#[test]
fn edge_walls_in_their_ranges() {
    for seed in 0..20u64 {
        let b = Board::generate(16, 16, &mut Rng::new(seed)).unwrap();
        assert!((4..7).any(|r| hwall(&b, 0, r)));
        assert!((9..12).any(|r| hwall(&b, 0, r)));
        assert!((4..7).any(|r| hwall(&b, 15, r)));
        assert!((9..12).any(|r| hwall(&b, 15, r)));
        assert!((4..7).any(|c| vwall(&b, c, 0)));
        assert!((9..12).any(|c| vwall(&b, c, 0)));
        assert!((4..7).any(|c| vwall(&b, c, 15)));
        assert!((9..12).any(|c| vwall(&b, c, 15)));
    }
}

#[test]
fn enough_walls_for_every_obstacle() {
    let b = Board::generate(16, 16, &mut Rng::new(3)).unwrap();
    let h = b.horizontal_walls.iter().filter(|&&w| w).count();
    let v = b.vertical_walls.iter().filter(|&&w| w).count();
    // Obstacles never share a wall: they are apart by two tiles at least.
    assert!(h >= OBSTACLE_COUNT + 4 + 4 - 4);
    assert!(v >= OBSTACLE_COUNT + 4 + 4 - 4);
    assert!(h <= OBSTACLE_COUNT + 4 + 4);
    assert!(v <= OBSTACLE_COUNT + 4 + 4);
}

#[test]
fn same_seed_same_board() {
    let a = Board::generate(16, 16, &mut Rng::new(42)).unwrap();
    let b = Board::generate(16, 16, &mut Rng::new(42)).unwrap();
    assert_eq!(a.horizontal_walls, b.horizontal_walls);
    assert_eq!(a.vertical_walls, b.vertical_walls);
}

#[test]
fn other_sizes() {
    let b = Board::generate(13, 20, &mut Rng::new(1)).unwrap();
    assert_eq!(b.height(), 20);
    assert_eq!(b.horizontal_walls.len(), 13 * 19);
    assert_eq!(b.vertical_walls.len(), 12 * 20);
    assert!(b.is_center_tile(9 * 13 + 5) && b.is_center_tile(10 * 13 + 6));
    assert!(!b.is_center_tile(8 * 13 + 5) && !b.is_center_tile(10 * 13 + 7));
}

#[test]
fn too_small_is_refused() {
    assert_eq!(MIN_SIDE, 13);
    let mut rng = Rng::new(5);
    assert_eq!(Board::generate(12, 16, &mut rng).err(), Some(GenerateError::InvalidDimensions));
    assert_eq!(Board::generate(16, 12, &mut rng).err(), Some(GenerateError::InvalidDimensions));
    assert_eq!(Board::generate(0, 0, &mut rng).err(), Some(GenerateError::InvalidDimensions));
    assert_eq!(Board::generate(usize::MAX, 16, &mut rng).err(), Some(GenerateError::InvalidDimensions));
    // Nothing was drawn.
    assert_eq!(rng.next_u64(), Rng::new(5).next_u64());
}

#[test]
fn slides_never_end_in_the_middle() {
    let b = Board::generate(16, 16, &mut Rng::new(21)).unwrap();
    for t in 0..256 {
        if b.is_center_tile(t) {
            continue;
        }
        for d in [Direction::Up, Direction::Down, Direction::Left, Direction::Right] {
            let p = b.move_robot([t, 255, 255, 255, 255], 0, d);
            assert!(!b.is_center_tile(p[0]));
        }
    }
}
