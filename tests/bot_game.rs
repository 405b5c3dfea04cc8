use hex_mouse::protocol::{room_request, RoomRequest};
use hex_mouse::board::{EMPTY, MOUSE, WALL};
use hex_mouse::bot::{BotAction, BotGame, WallReply};

fn count(game: &BotGame, v: u8) -> usize {
    game.board.iter().flatten().filter(|x| **x == v).count()
}

#[test]
fn new_game_places_mouse_and_walls() {
    let walls = vec![(0, 0), (10, 10), (2, 3)];
    let game = BotGame::new((5, 5), &walls);
    assert_eq!((game.mouse.x, game.mouse.y), (5, 5));
    assert_eq!(game.board[5][5], MOUSE);
    assert_eq!(game.board[2][3], WALL);
    assert_eq!(count(&game, WALL), 3);
    assert_eq!(count(&game, MOUSE), 1);
    assert_eq!(count(&game, EMPTY), 121 - 4);
}

#[test]
fn bot_escapes_when_border_is_one_step_away() {
    let walls = vec![(8, 8), (9, 9)];
    let mut game = BotGame::new((1, 5), &walls);
    let action = game.next_move();
    match action {
        BotAction::Escaped(r, c) => {
            assert!(r == 0 || c == 0 || r == 10 || c == 10);
            assert_eq!((game.mouse.x, game.mouse.y), (r, c));
            assert_eq!(game.board[r][c], MOUSE);
            assert_eq!(game.board[1][5], EMPTY);
        }
        other => panic!("expected an escape, got {:?}", matches!(other, BotAction::Moved(_, _))),
    }
    assert_eq!(action.message(), *b"lo");
}

#[test]
fn trapped_bot_announces_win_for_builder() {
    let walls = vec![(4, 5), (4, 6), (5, 4), (5, 6), (6, 5), (6, 6)];
    let mut game = BotGame::new((5, 5), &walls);
    let action = game.next_move();
    assert!(matches!(action, BotAction::Trapped));
    assert_eq!(action.message(), *b"wi");
    assert_eq!((game.mouse.x, game.mouse.y), (5, 5));
    assert_eq!(game.board[5][5], MOUSE);
}

#[test]
fn inner_move_is_sent_as_coordinates() {
    let walls: Vec<(u8, u8)> = Vec::new();
    let mut game = BotGame::new((5, 5), &walls);
    let action = game.next_move();
    match action {
        BotAction::Moved(r, c) => {
            assert_eq!(action.message(), [r as u8, c as u8]);
            assert_eq!(game.board[r][c], MOUSE);
            assert_eq!(game.board[5][5], EMPTY);
            assert_eq!(count(&game, MOUSE), 1);
        }
        _ => panic!("expected an inner move"),
    }
}

#[test]
fn human_wall_lands_on_board() {
    let walls: Vec<(u8, u8)> = Vec::new();
    let mut game = BotGame::new((5, 5), &walls);
    assert!(matches!(game.receive_wall([2, 7]), WallReply::Placed));
    assert_eq!(game.board[2][7], WALL);
    assert!(matches!(game.receive_wall(*b"wi"), WallReply::ClientWon));
    assert!(matches!(game.receive_wall([11, 0]), WallReply::Rejected));
    assert!(matches!(game.receive_wall([5, 5]), WallReply::Rejected));
    assert_eq!(game.board[5][5], MOUSE);
    assert_eq!(count(&game, WALL), 1);
}

#[test]
fn bot_game_runs_to_an_end() {
    // the bot on an open board walks to the border in at most five moves
    let walls: Vec<(u8, u8)> = Vec::new();
    let mut game = BotGame::new((5, 5), &walls);
    let mut moves = 0;
    loop {
        match game.next_move() {
            BotAction::Escaped(_, _) => break,
            BotAction::Moved(_, _) => moves += 1,
            BotAction::Trapped => panic!("open board cannot trap"),
        }
        assert!(moves < 5);
    }
    assert_eq!(moves, 4);
}

#[test]
fn bot_room_round_trip_ends_in_loss_announcement() {
    assert_eq!(room_request(b"-2"), RoomRequest::Computer);
    // spawn near the top; the starting walls and the human's walls stay at the bottom
    let walls: Vec<(u8, u8)> = (0..10).map(|c| (10, c as u8)).collect();
    let mut game = BotGame::new((3, 5), &walls);
    let mut human_walls = (0..10u8).map(|c| [9, c]);
    let last = loop {
        let action = game.next_move();
        let message = action.message();
        match action {
            BotAction::Moved(_, _) => {
                let wall = human_walls.next().expect("a free cell");
                assert!(matches!(game.receive_wall(wall), WallReply::Placed));
            }
            _ => break message,
        }
    };
    assert_eq!(last, *b"lo");
}
