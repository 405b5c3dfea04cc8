use hex_mouse::error::AppError;
use hex_mouse::protocol::{
    convert_to_i32, encode_decimal, encode_position, encode_walls, gone_notice, parse_room_selector,
    relay_step, room_request, Relay, RelayAction, RoomRequest,
};

#[test]
fn selector_reads_integers() {
    assert_eq!(parse_room_selector(b"-1"), -1);
    assert_eq!(parse_room_selector(b"-2"), -2);
    assert_eq!(parse_room_selector(b"42"), 42);
    assert_eq!(parse_room_selector(b" 42\r\n"), 42);
    assert_eq!(parse_room_selector(b"+7"), 7);
    assert_eq!(parse_room_selector(b"007"), 7);
    assert_eq!(parse_room_selector(b"127"), 127);
    assert_eq!(parse_room_selector(b"-128"), -128);
}

#[test]
fn bad_selector_means_any_room() {
    assert_eq!(parse_room_selector(b""), -1);
    assert_eq!(parse_room_selector(b"abc"), -1);
    assert_eq!(parse_room_selector(b"-"), -1);
    assert_eq!(parse_room_selector(b"4 2"), -1);
    assert_eq!(parse_room_selector(b"128"), -1);
    assert_eq!(parse_room_selector(b"-129"), -1);
    assert_eq!(parse_room_selector(b"99999999999999999999"), -1);
}

#[test]
fn selector_picks_the_kind_of_room() {
    assert_eq!(room_request(b"-1"), RoomRequest::Random);
    assert_eq!(room_request(b"oops"), RoomRequest::Random);
    assert_eq!(room_request(b"-2"), RoomRequest::Computer);
    assert_eq!(room_request(b"7"), RoomRequest::Explicit(7));
    assert_eq!(room_request(b"-5"), RoomRequest::Explicit(-5));
}

#[test]
fn room_codes_go_out_in_decimal() {
    assert_eq!(encode_decimal(0), b"0".to_vec());
    assert_eq!(encode_decimal(7), b"7".to_vec());
    assert_eq!(encode_decimal(42), b"42".to_vec());
    assert_eq!(encode_decimal(127), b"127".to_vec());
    assert_eq!(encode_decimal(-2), b"-2".to_vec());
    assert_eq!(encode_decimal(-128), b"-128".to_vec());
}

#[test]
fn spawn_goes_out_as_row_comma_col() {
    assert_eq!(encode_position(3, 7), b"3,7".to_vec());
    assert_eq!(encode_position(10, 0), b"10,0".to_vec());
}

#[test]
fn wall_layout_is_twenty_bytes() {
    let walls: Vec<(u8, u8)> = (0..10).map(|i| (i as u8, (10 - i) as u8)).collect();
    let bytes = encode_walls(&walls);
    assert_eq!(bytes.len(), 20);
    assert_eq!(&bytes[..4], &[0, 10, 1, 9]);
    assert_eq!(&bytes[18..], &[9, 1]);
}

#[test]
fn zero_length_read_means_peer_left() {
    assert!(matches!(relay_step(0, [0, 0]), RelayAction::PeerGone));
    assert_eq!(gone_notice(), *b"ye");
}

#[test]
fn win_and_loss_are_mirrored() {
    assert!(matches!(relay_step(2, *b"wi"), RelayAction::Finish(m) if m == *b"lo"));
    assert!(matches!(relay_step(2, *b"lo"), RelayAction::Finish(m) if m == *b"wi"));
}

#[test]
fn moves_pass_unchanged() {
    assert!(matches!(relay_step(2, [4, 6]), RelayAction::Forward(m) if m == [4, 6]));
    assert!(matches!(relay_step(2, *b"ye"), RelayAction::Forward(m) if m == *b"ye"));
}

#[test]
fn relay_alternates_and_stops_on_a_win() {
    let mut relay = Relay::new();
    assert_eq!(relay.turn, 0);
    let (to, action) = relay.on_read(2, [4, 5]);
    assert_eq!(to, 1);
    assert!(matches!(action, RelayAction::Forward(m) if m == [4, 5]));
    assert!(!relay.over);
    assert_eq!(relay.turn, 1);
    let (to, action) = relay.on_read(2, [3, 3]);
    assert_eq!(to, 0);
    assert!(matches!(action, RelayAction::Forward(_)));
    let (to, action) = relay.on_read(2, *b"wi");
    assert_eq!(to, 1);
    assert!(matches!(action, RelayAction::Finish(m) if m == *b"lo"));
    assert!(relay.over);
}

#[test]
fn relay_stops_when_an_occupant_leaves() {
    let mut relay = Relay::new();
    relay.on_read(2, [4, 5]);
    let (to, action) = relay.on_read(0, [0, 0]);
    assert_eq!(to, 0);
    assert!(matches!(action, RelayAction::PeerGone));
    assert!(relay.over);
    assert_eq!(gone_notice().len(), 2);
}

#[test]
fn typed_room_code_reads_as_i32() {
    assert_eq!(convert_to_i32("42"), 42);
    assert_eq!(convert_to_i32("-1"), -1);
    assert_eq!(convert_to_i32("+300"), 300);
    assert_eq!(convert_to_i32("2147483647"), 2147483647);
    assert_eq!(convert_to_i32("-2147483648"), -2147483648);
    assert_eq!(convert_to_i32("2147483648"), -1);
    assert_eq!(convert_to_i32(" 7"), -1);
    assert_eq!(convert_to_i32(""), -1);
    assert_eq!(convert_to_i32("abc"), -1);
}

#[test]
fn errors_describe_themselves() {
    let e = AppError::ReadError(String::from("reset"));
    assert_eq!(e.describe(), "Read error: reset");
    let e = AppError::StreamUnavailable(String::from("closed"));
    assert_eq!(e.describe(), "Stream is unavailable closed");
}
