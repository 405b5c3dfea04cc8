use hex_mouse::board::{distance_to_border, Grid, EMPTY, MOUSE, WALL};
use hex_mouse::bot::find_shortest_path_to_border;

fn empty_board() -> Grid {
    [[EMPTY; 11]; 11]
}

#[test]
fn first_hop_from_centre_nears_the_border() {
    let mut board = empty_board();
    board[5][5] = MOUSE;
    let (r, c) = find_shortest_path_to_border(&board, 5, 5).expect("a move");
    assert!(distance_to_border(r, c) < distance_to_border(5, 5));
    assert_eq!(distance_to_border(r, c), 4);
}

#[test]
fn each_hop_on_open_board_nears_the_border() {
    for r in 1..10 {
        for c in 1..10 {
            let mut board = empty_board();
            board[r][c] = MOUSE;
            let (nr, nc) = find_shortest_path_to_border(&board, r, c).expect("a move");
            assert_eq!(distance_to_border(nr, nc) + 1, distance_to_border(r, c));
        }
    }
}

#[test]
fn mouse_beside_the_border_steps_out() {
    let mut board = empty_board();
    board[1][5] = MOUSE;
    let (r, c) = find_shortest_path_to_border(&board, 1, 5).expect("a move");
    assert!(r == 0 || r == 10 || c == 0 || c == 10);
}

#[test]
fn path_goes_round_a_wall() {
    let mut board = empty_board();
    board[1][5] = MOUSE;
    // close the two upper neighbours of (1, 5) (odd row: (0, 5) and (0, 6))
    board[0][5] = WALL;
    board[0][6] = WALL;
    let (r, c) = find_shortest_path_to_border(&board, 1, 5).expect("a move");
    // from (1, 5) no other neighbour is on the border; the hop leads on to it
    assert!([(1, 4), (1, 6), (2, 5), (2, 6)].contains(&(r, c)));
}

#[test]
fn enclosed_mouse_has_no_move() {
    let mut board = empty_board();
    board[4][4] = MOUSE;
    for (r, c) in [(3, 3), (3, 4), (4, 3), (4, 5), (5, 3), (5, 4)] {
        board[r][c] = WALL;
    }
    assert_eq!(find_shortest_path_to_border(&board, 4, 4), None);
}

#[test]
fn sealed_pocket_heads_for_cell_nearest_border() {
    let mut board = empty_board();
    // ring of walls round the pocket {(5,5), (5,6)}
    for (r, c) in [(4, 5), (4, 6), (4, 7), (5, 4), (5, 7), (6, 5), (6, 6), (6, 7)] {
        board[r][c] = WALL;
    }
    board[5][5] = MOUSE;
    assert_eq!(find_shortest_path_to_border(&board, 5, 5), Some((5, 6)));
}
