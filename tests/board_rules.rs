use hex_mouse::board::{
    check_any_left_move, check_move, distance_to_border, is_border_cell, neighbor_at, set_cell,
    Grid, Position, EMPTY, MOUSE, WALL, WALL_BUILDER,
};

fn empty_board() -> Grid {
    [[EMPTY; 11]; 11]
}

#[test]
fn position_constructors_keep_coordinates() {
    let p = Position::new(3, 8);
    assert_eq!((p.x, p.y), (3, 8));
    let q = Position::new_from_pos(&p);
    assert_eq!((q.x, q.y), (3, 8));
}

#[test]
fn even_row_neighbours_lean_left() {
    let got: Vec<Option<(usize, usize)>> = (0..6).map(|k| neighbor_at(4, 4, k)).collect();
    assert_eq!(
        got,
        vec![Some((3, 3)), Some((3, 4)), Some((4, 3)), Some((4, 5)), Some((5, 3)), Some((5, 4))]
    );
}

#[test]
fn odd_row_neighbours_lean_right() {
    let got: Vec<Option<(usize, usize)>> = (0..6).map(|k| neighbor_at(5, 5, k)).collect();
    assert_eq!(
        got,
        vec![Some((4, 5)), Some((4, 6)), Some((5, 4)), Some((5, 6)), Some((6, 5)), Some((6, 6))]
    );
}

#[test]
fn neighbours_off_the_board_are_dropped() {
    assert_eq!(neighbor_at(0, 0, 0), None);
    assert_eq!(neighbor_at(0, 0, 1), None);
    assert_eq!(neighbor_at(0, 0, 3), Some((0, 1)));
    assert_eq!(neighbor_at(0, 0, 5), Some((1, 0)));
}

#[test]
fn open_board_leaves_moves() {
    let board = empty_board();
    assert!(check_any_left_move(&board, &Position::new(5, 5)));
    assert!(check_any_left_move(&board, &Position::new(0, 0)));
}

#[test]
fn corner_mouse_trapped_by_two_walls() {
    let mut board = empty_board();
    board[0][0] = MOUSE;
    board[0][1] = WALL;
    board[1][0] = WALL;
    assert!(!check_any_left_move(&board, &Position::new(0, 0)));
}

#[test]
fn odd_row_mouse_trapped_only_by_its_own_six() {
    let mut board = empty_board();
    board[5][5] = MOUSE;
    for (r, c) in [(4, 5), (4, 6), (5, 4), (5, 6), (6, 5), (6, 6)] {
        board[r][c] = WALL;
    }
    assert!(!check_any_left_move(&board, &Position::new(5, 5)));
    // (4, 4) is no neighbour of an odd-row cell, so opening it changes nothing
    board[4][4] = EMPTY;
    assert!(!check_any_left_move(&board, &Position::new(5, 5)));
    board[6][6] = EMPTY;
    assert!(check_any_left_move(&board, &Position::new(5, 5)));
}

#[test]
fn wall_builder_may_play_any_empty_cell() {
    let mut board = empty_board();
    board[2][2] = WALL;
    let mouse = Position::new(5, 5);
    assert!(check_move(9, 1, &mouse, WALL_BUILDER, &board));
    assert!(!check_move(2, 2, &mouse, WALL_BUILDER, &board));
    assert!(!check_move(11, 3, &mouse, WALL_BUILDER, &board));
}

#[test]
fn mouse_moves_only_to_empty_neighbours() {
    let mut board = empty_board();
    board[5][5] = MOUSE;
    board[5][6] = WALL;
    let mouse = Position::new(5, 5);
    assert!(check_move(4, 6, &mouse, 1, &board));
    assert!(!check_move(4, 4, &mouse, 1, &board));
    assert!(!check_move(5, 6, &mouse, 1, &board));
    assert!(!check_move(5, 5, &mouse, 1, &board));
    assert!(!check_move(7, 5, &mouse, 1, &board));
}

#[test]
fn border_distance_is_the_nearest_edge() {
    assert_eq!(distance_to_border(5, 5), 5);
    assert_eq!(distance_to_border(3, 7), 3);
    assert_eq!(distance_to_border(9, 4), 1);
    assert_eq!(distance_to_border(0, 6), 0);
    assert!(is_border_cell(10, 3));
    assert!(is_border_cell(4, 0));
    assert!(!is_border_cell(1, 9));
}

#[test]
fn set_cell_writes_one_cell() {
    let mut board = empty_board();
    set_cell(&mut board, 3, 4, WALL);
    assert_eq!(board[3][4], WALL);
    let walls = board.iter().flatten().filter(|v| **v == WALL).count();
    assert_eq!(walls, 1);
}
