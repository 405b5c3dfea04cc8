use std::collections::HashSet;

use hex_mouse::setup::{
    add_drawn_wall, assign_roles, free_cells, generate_wall_positions, random_mouse_spawn, roles_for,
};

#[test]
fn walls_are_ten_distinct_cells_off_the_mouse() {
    for row in 3..=7u8 {
        for col in 3..=7u8 {
            let walls = generate_wall_positions((row, col));
            assert_eq!(walls.len(), 10);
            let distinct: HashSet<(u8, u8)> = walls.iter().copied().collect();
            assert_eq!(distinct.len(), 10);
            assert!(!walls.contains(&(row, col)));
            assert!(walls.iter().all(|(r, c)| *r <= 10 && *c <= 10));
        }
    }
}

#[test]
fn spawn_stays_within_three_to_seven() {
    for _ in 0..500 {
        let (r, c) = random_mouse_spawn();
        assert!((3..=7).contains(&r));
        assert!((3..=7).contains(&c));
    }
}

#[test]
fn roles_follow_the_coin() {
    assert_eq!(roles_for(1, 2, 0), (1, 2));
    assert_eq!(roles_for(1, 2, 1), (2, 1));
}

#[test]
fn random_roles_are_the_two_occupants() {
    let mut seen = HashSet::new();
    for _ in 0..200 {
        let roles = assign_roles(8, 9);
        assert!(roles == (8, 9) || roles == (9, 8));
        seen.insert(roles);
    }
    assert_eq!(seen.len(), 2);
}

#[test]
fn drawn_index_picks_that_free_cell() {
    let mut walls: Vec<(u8, u8)> = Vec::new();
    // cell 60 is the mouse's, so the free cell of index 60 is cell 61
    add_drawn_wall(&mut walls, (5, 5), 60);
    assert_eq!(walls, vec![(5, 6)]);
    add_drawn_wall(&mut walls, (5, 5), 0);
    assert_eq!(walls, vec![(5, 6), (0, 0)]);
    // (0, 0) is taken now, so index 0 is (0, 1)
    add_drawn_wall(&mut walls, (5, 5), 0);
    assert_eq!(walls[2], (0, 1));
    // draws wrap round the number of free cells
    let free = free_cells(&walls, (5, 5)).len();
    assert_eq!(free, 121 - 1 - 3);
    add_drawn_wall(&mut walls, (5, 5), free as u8);
    assert_eq!(walls[3], (0, 2));
}

#[test]
fn free_cells_skip_walls_and_mouse() {
    let walls = vec![(0, 1), (10, 10)];
    let free = free_cells(&walls, (0, 0));
    assert_eq!(free.len(), 118);
    assert_eq!(free[0], (0, 2));
    assert_eq!(*free.last().unwrap(), (10, 9));
}
