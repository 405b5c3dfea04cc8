use hex_mouse::protocol::RoomRequest;
use hex_mouse::rooms::{Room, RoomsManager};

#[test]
fn two_random_joins_share_room_zero_third_gets_one() {
    let mut m = RoomsManager::new();
    assert_eq!(m.add_to_random_room(1), Some(0));
    assert_eq!(m.add_to_random_room(2), Some(0));
    assert!(m.check_room(0));
    assert_eq!(m.add_to_random_room(3), Some(1));
    assert!(!m.check_room(1));
    assert_eq!(m.rooms.len(), 2);
}

#[test]
fn waiting_explicit_room_is_released_when_its_client_leaves() {
    let mut m = RoomsManager::new();
    assert_eq!(m.add_to_specific_room(10, 7), 7);
    assert!(!m.check_room(7));
    m.leave_room(7, 10);
    assert!(!m.check_room(7));
    assert_eq!(m.rooms.len(), 0);
    assert_eq!(m.take_room(7), None);
    // a later client with the same code starts afresh and waits alone
    assert_eq!(m.add_to_specific_room(11, 7), 7);
    assert!(!m.check_room(7));
}

#[test]
fn leaving_a_full_room_changes_nothing() {
    let mut m = RoomsManager::new();
    m.add_to_specific_room(1, 4);
    m.add_to_specific_room(2, 4);
    m.leave_room(4, 1);
    assert!(m.check_room(4));
}

#[test]
fn explicit_join_fills_matching_room() {
    let mut m = RoomsManager::new();
    assert_eq!(m.add_to_specific_room(1, 42), 42);
    assert_eq!(m.add_to_specific_room(2, 42), 42);
    assert!(m.check_room(42));
    assert_eq!(m.rooms.len(), 1);
    assert_eq!(m.rooms[0].player1, Some(1));
    assert_eq!(m.rooms[0].player2, Some(2));
}

#[test]
fn random_join_takes_free_slot_of_explicit_room() {
    let mut m = RoomsManager::new();
    m.add_to_specific_room(1, 9);
    assert_eq!(m.add_to_random_room(2), Some(9));
    assert!(m.check_room(9));
}

#[test]
fn room_starts_once() {
    let mut m = RoomsManager::new();
    m.add_to_random_room(5);
    assert_eq!(m.take_room(0), None);
    m.add_to_random_room(6);
    assert_eq!(m.take_room(0), Some((5, 6)));
    assert_eq!(m.take_room(0), None);
    assert!(m.rooms[0].is_taken);
}

#[test]
fn released_room_is_gone() {
    let mut m = RoomsManager::new();
    m.add_to_random_room(1);
    m.add_to_random_room(2);
    m.add_to_random_room(3);
    m.remove_from_room(0);
    assert_eq!(m.rooms.len(), 1);
    assert_eq!(m.rooms[0].code, 1);
    assert!(!m.check_room(0));
    m.remove_from_room(55);
    assert_eq!(m.rooms.len(), 1);
}

#[test]
fn room_holds_at_most_two() {
    let mut r = Room::new(3);
    assert!(r.add_to_room(1));
    assert!(!r.is_full);
    assert!(r.add_to_room(2));
    assert!(r.is_full);
    assert!(!r.add_to_room(3));
    assert_eq!((r.player1, r.player2), (Some(1), Some(2)));
}

#[test]
fn registry_refuses_codes_past_127() {
    let mut m = RoomsManager::new();
    for i in 0..256u64 {
        assert_eq!(m.add_to_random_room(i), Some((i / 2) as i8));
    }
    assert_eq!(m.rooms.len(), 128);
    assert_eq!(m.add_to_random_room(999), None);
    assert_eq!(m.rooms.len(), 128);
}

#[test]
fn requests_resolve_to_room_codes() {
    let mut m = RoomsManager::new();
    assert_eq!(m.resolve_room(1, RoomRequest::Computer), Some(-2));
    assert_eq!(m.rooms.len(), 0);
    assert_eq!(m.resolve_room(2, RoomRequest::Random), Some(0));
    assert_eq!(m.resolve_room(3, RoomRequest::Explicit(7)), Some(7));
    assert_eq!(m.resolve_room(4, RoomRequest::Random), Some(0));
    assert_eq!(m.resolve_room(5, RoomRequest::Explicit(7)), Some(7));
    assert!(m.check_room(0));
    assert!(m.check_room(7));
}

#[test]
fn released_code_is_not_handed_out_twice() {
    let mut m = RoomsManager::new();
    for conn in 1..=4 {
        m.add_to_random_room(conn);
    }
    assert_eq!(m.rooms.len(), 2);
    m.remove_from_room(0);
    // one room is left, holding code 1: the new room takes the free code 0
    assert_eq!(m.add_to_random_room(5), Some(0));
    let codes: Vec<i8> = m.rooms.iter().map(|r| r.code).collect();
    assert_eq!(codes, vec![1, 0]);
    assert!(!m.check_room(0));
    assert_eq!(m.add_to_random_room(6), Some(0));
    assert_eq!(m.take_room(0), Some((5, 6)));
}

#[test]
fn new_room_keeps_the_count_when_that_code_is_free() {
    let mut m = RoomsManager::new();
    m.add_to_specific_room(1, 5);
    m.add_to_specific_room(2, 5);
    // one full room with code 5: the new room gets code 1, the number of rooms
    assert_eq!(m.add_to_random_room(3), Some(1));
}

#[test]
fn new_room_skips_codes_in_use() {
    let mut m = RoomsManager::new();
    m.add_to_specific_room(1, 1);
    m.add_to_specific_room(2, 1);
    m.add_to_specific_room(3, 0);
    m.add_to_specific_room(4, 0);
    // two full rooms holding 1 and 0: the count 2 is free
    assert_eq!(m.add_to_random_room(5), Some(2));
    m.add_to_random_room(6);
    m.remove_from_room(1);
    // rooms 0 and 2 remain; the count 2 is taken, so the smallest free code, 1
    assert_eq!(m.add_to_random_room(7), Some(1));
}
