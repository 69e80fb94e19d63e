use ripoff_robots::board::{Board, Direction, RobotPositions, BLACK, BLUE, GREEN, RED, YELLOW};

/// An open `w` by `h` board with no walls.
fn open_board(w: usize, h: usize) -> Board {
    Board {
        width: w,
        horizontal_walls: vec![false; w * (h - 1)],
        vertical_walls: vec![false; (w - 1) * h],
        initial_positions: [0, 1, 2, 3, 4],
    }
}

fn tile(w: usize, x: usize, y: usize) -> usize {
    y * w + x
}

#[test]
fn direction_ids() {
    assert_eq!(Direction::Up.id(), "up");
    assert_eq!(Direction::Down.id(), "down");
    assert_eq!(Direction::Left.id(), "left");
    assert_eq!(Direction::Right.id(), "right");
}

#[test]
fn token_indices() {
    assert_eq!([RED, YELLOW, GREEN, BLUE, BLACK], [0, 1, 2, 3, 4]);
}

#[test]
fn height_is_derived() {
    assert_eq!(open_board(16, 16).height(), 16);
    assert_eq!(open_board(5, 3).height(), 3);
    assert_eq!(open_board(1, 4).height(), 4);
}

#[test]
fn well_formed_boards() {
    assert!(open_board(16, 16).is_well_formed());
    let mut b = open_board(4, 4);
    b.vertical_walls.pop();
    assert!(!b.is_well_formed());
    let mut c = open_board(4, 4);
    c.horizontal_walls.push(false);
    assert!(!c.is_well_formed());
    let zero = Board { width: 0, horizontal_walls: vec![], vertical_walls: vec![], initial_positions: [0; 5] };
    assert!(!zero.is_well_formed());
}

#[test]
fn center_tiles_of_sixteen() {
    let b = open_board(16, 16);
    let centers: Vec<usize> = (0..256).filter(|&t| b.is_center_tile(t)).collect();
    assert_eq!(centers, vec![tile(16, 7, 7), tile(16, 8, 7), tile(16, 7, 8), tile(16, 8, 8)]);
}

#[test]
fn slide_to_each_edge() {
    let b = open_board(8, 8);
    let p: RobotPositions = [tile(8, 3, 3), 60, 61, 62, 63];
    assert_eq!(b.move_robot(p, 0, Direction::Down)[0], tile(8, 3, 7));
    assert_eq!(b.move_robot(p, 0, Direction::Up)[0], tile(8, 3, 0));
    assert_eq!(b.move_robot(p, 0, Direction::Left)[0], tile(8, 0, 3));
    assert_eq!(b.move_robot(p, 0, Direction::Right)[0], tile(8, 7, 3));
}

#[test]
fn wall_stops_a_slide() {
    let mut b = open_board(8, 8);
    // A wall between (3, 5) and (3, 6).
    b.horizontal_walls[5 * 8 + 3] = true;
    // A wall between (1, 3) and (2, 3).
    b.vertical_walls[3 * 7 + 1] = true;
    let p: RobotPositions = [tile(8, 3, 3), 60, 61, 62, 63];
    assert_eq!(b.move_robot(p, 0, Direction::Down)[0], tile(8, 3, 5));
    assert_eq!(b.move_robot(p, 0, Direction::Left)[0], tile(8, 2, 3));
    // From below the wall, sliding up stops under it.
    let q: RobotPositions = [tile(8, 3, 7), 60, 61, 62, 0];
    assert_eq!(b.move_robot(q, 0, Direction::Up)[0], tile(8, 3, 6));
}

#[test]
fn token_stops_a_slide() {
    let b = open_board(8, 8);
    let p: RobotPositions = [tile(8, 2, 1), tile(8, 2, 6), tile(8, 6, 1), 0, 63];
    let down = b.move_robot(p, 0, Direction::Down);
    assert_eq!(down[0], tile(8, 2, 5));
    assert_eq!(&down[1..], &p[1..]);
    let right = b.move_robot(p, 0, Direction::Right);
    assert_eq!(right[0], tile(8, 5, 1));
    // The nearer of a wall and a token wins.
    let mut c = open_board(8, 8);
    c.horizontal_walls[3 * 8 + 2] = true;
    assert_eq!(c.move_robot(p, 0, Direction::Down)[0], tile(8, 2, 3));
}

#[test]
fn blocked_token_does_not_move() {
    let mut b = open_board(8, 8);
    b.vertical_walls[4 * 7 + 4] = true;
    let p: RobotPositions = [tile(8, 4, 4), tile(8, 4, 5), 0, 1, 2];
    assert_eq!(b.move_robot(p, 0, Direction::Right), p);
    assert_eq!(b.move_robot(p, 0, Direction::Down), p);
    let edge: RobotPositions = [tile(8, 0, 0), 60, 61, 62, 63];
    assert_eq!(b.move_robot(edge, 0, Direction::Up), edge);
    assert_eq!(b.move_robot(edge, 0, Direction::Left), edge);
}

#[test]
fn second_slide_goes_nowhere() {
    let mut b = open_board(10, 10);
    b.horizontal_walls[6 * 10 + 4] = true;
    b.vertical_walls[2 * 9 + 7] = true;
    let p: RobotPositions = [tile(10, 4, 2), tile(10, 9, 9), 0, 5, tile(10, 1, 2)];
    for d in [Direction::Up, Direction::Down, Direction::Left, Direction::Right] {
        for robot in 0..5 {
            let once = b.move_robot(p, robot, d);
            assert_eq!(b.move_robot(once, robot, d), once);
        }
    }
}

#[test]
fn slide_stays_on_its_line() {
    let mut b = open_board(10, 10);
    b.horizontal_walls[6 * 10 + 4] = true;
    let p: RobotPositions = [tile(10, 4, 2), tile(10, 9, 9), 0, 5, tile(10, 1, 2)];
    let down = b.move_robot(p, 0, Direction::Down)[0];
    assert_eq!(down % 10, 4);
    assert!(down / 10 >= 2);
    let left = b.move_robot(p, 0, Direction::Left)[0];
    assert_eq!(left, tile(10, 2, 2));
}

#[test]
fn only_effective_moves_are_recorded() {
    let b = open_board(8, 8);
    let mut p: RobotPositions = [tile(8, 0, 0), 60, 61, 62, 63];
    let mut moves = Vec::new();
    assert!(!b.apply_move(&mut p, &mut moves, 0, Direction::Up));
    assert!(moves.is_empty());
    assert!(b.apply_move(&mut p, &mut moves, 0, Direction::Right));
    assert_eq!(p[0], tile(8, 7, 0));
    assert_eq!(moves, vec![(0, Direction::Right)]);
    assert!(!b.apply_move(&mut p, &mut moves, 0, Direction::Right));
    assert_eq!(moves.len(), 1);
}

#[test]
fn snapshot_copies_everything() {
    let mut b = open_board(6, 5);
    b.horizontal_walls[7] = true;
    b.vertical_walls[3] = true;
    b.initial_positions = [9, 8, 7, 6, 5];
    let c = b.snapshot();
    assert_eq!(c.width, 6);
    assert_eq!(c.horizontal_walls, b.horizontal_walls);
    assert_eq!(c.vertical_walls, b.vertical_walls);
    assert_eq!(c.initial_positions, b.initial_positions);
}
