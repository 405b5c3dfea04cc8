//! The random start of a game: who plays the mouse, where it spawns, and
//! where the first walls stand.
use vstd::prelude::*;
use vstd::set_lib::{lemma_int_range, lemma_len_subset, set_int_range};

use rand::rngs::ThreadRng;
use rand::Rng;

verus! {

#[verifier::external_type_specification]
#[verifier::external_body]
pub struct ExThreadRng(rand::rngs::ThreadRng);

/// Relies on rand::thread_rng: it hands out this thread's generator, seeded by the system.
pub assume_specification[ rand::thread_rng ]() -> rand::rngs::ThreadRng;

/// Relies on rand::Rng::gen_range over an inclusive range: the value lies in
/// `low..=high`; the range must not be empty, else it panics.
#[verifier::external_body]
fn draw_between(rng: &mut ThreadRng, low: u8, high: u8) -> (v: u8)
    requires
        low <= high,
    ensures
        low <= v <= high,
{
    rng.gen_range(low..=high)
}

/// The cell of index `j` when the board is read row by row.
pub open spec fn cell_of(j: int) -> (u8, u8) {
    ((j / 11) as u8, (j % 11) as u8)
}

pub open spec fn on_board(p: (u8, u8)) -> bool {
    p.0 <= 10 && p.1 <= 10
}

/// Ten distinct cells of the board, none of them the mouse's.
pub open spec fn valid_walls(walls: Seq<(u8, u8)>, mouse: (u8, u8)) -> bool {
    &&& walls.len() == 10
    &&& forall|i: int| 0 <= i < walls.len() ==> on_board(#[trigger] walls[i]) && walls[i] != mouse
    &&& forall|i: int, j: int| 0 <= i < j < walls.len() ==> walls[i] != walls[j]
}

/// The cell is the mouse's or holds a wall.
pub open spec fn blocked(walls: Seq<(u8, u8)>, mouse: (u8, u8), c: (u8, u8)) -> bool {
    c == mouse || walls.contains(c)
}

/// The free cells among the first `j` of the board, row by row: neither walls
/// nor the mouse's.
pub open spec fn free_upto(walls: Seq<(u8, u8)>, mouse: (u8, u8), j: nat) -> Seq<(u8, u8)>
    decreases j,
{
    if j == 0 {
        Seq::empty()
    } else if blocked(walls, mouse, cell_of(j - 1)) {
        free_upto(walls, mouse, (j - 1) as nat)
    } else {
        free_upto(walls, mouse, (j - 1) as nat).push(cell_of(j - 1))
    }
}

/// The free cells of the whole board, row by row.
pub open spec fn free_list(walls: Seq<(u8, u8)>, mouse: (u8, u8)) -> Seq<(u8, u8)> {
    free_upto(walls, mouse, 121)
}

/// The cells, row by row, that are neither walls nor the mouse's.
pub fn free_cells(walls: &Vec<(u8, u8)>, mouse: (u8, u8)) -> (free: Vec<(u8, u8)>)
    requires
        walls.len() <= 10,
    ensures
        free@ == free_list(walls@, mouse),
        0 < free.len() <= 121,
        forall|i: int|
            0 <= i < free.len() ==> on_board(#[trigger] free[i]) && free[i] != mouse
                && !walls@.contains(free[i]),
{
    let mut free: Vec<(u8, u8)> = Vec::new();
    let mut j: u8 = 0;
    while j < 121
        invariant
            j <= 121,
            free.len() <= j,
            walls.len() <= 10,
            free@ == free_upto(walls@, mouse, j as nat),
            forall|i: int|
                0 <= i < free.len() ==> on_board(#[trigger] free[i]) && free[i] != mouse
                    && !walls@.contains(free[i]),
            free.len() == 0 ==> forall|i: int|
                0 <= i < j ==> #[trigger] cell_of(i) == mouse || walls@.contains(cell_of(i)),
        decreases 121 - j,
    {
        let cell: (u8, u8) = (j / 11, j % 11);
        assert(cell == cell_of(j as int));
        let mut taken = cell.0 == mouse.0 && cell.1 == mouse.1;
        let mut k: usize = 0;
        while k < walls.len() && !taken
            invariant
                k <= walls.len(),
                taken == (cell == mouse || exists|w: int| 0 <= w < k && walls[w] == cell),
            decreases walls.len() - k,
        {
            if walls[k].0 == cell.0 && walls[k].1 == cell.1 {
                taken = true;
            }
            k += 1;
        }
        if !taken {
            assert(!walls@.contains(cell));
            free.push(cell);
        } else {
            assert(cell == mouse || walls@.contains(cell));
        }
        assert(cell_of((j + 1) as nat - 1) == cell);
        j += 1;
    }
    proof {
        lemma_free_cell_exists(walls@, mouse);
    }
    free
}

/// Ten walls and a mouse cannot cover all 121 cells.
proof fn lemma_free_cell_exists(walls: Seq<(u8, u8)>, mouse: (u8, u8))
    requires
        walls.len() <= 10,
    ensures
        exists|i: int| 0 <= i < 121 && !(#[trigger] cell_of(i) == mouse || walls.contains(cell_of(i))),
{
    if forall|i: int| 0 <= i < 121 ==> #[trigger] cell_of(i) == mouse || walls.contains(cell_of(i)) {
        let idx = walls.map_values(|p: (u8, u8)| p.0 as int * 11 + p.1 as int);
        idx.lemma_cardinality_of_set();
        let blocked = idx.to_set().insert(mouse.0 as int * 11 + mouse.1 as int);
        assert forall|i: int| #[trigger] set_int_range(0, 121).contains(i) implies blocked.contains(
            i,
        ) by {
            assert(0 <= i < 121);
            let c = cell_of(i);
            if c == mouse {
            } else {
                let w = choose|w: int| 0 <= w < walls.len() && walls[w] == c;
                assert(idx[w] == i);
                assert(idx.to_set().contains(i));
            }
        }
        lemma_int_range(0, 121);
        lemma_len_subset(set_int_range(0, 121), blocked);
    }
}

/// Adds the wall that the draw `draw` picks: the cell at `draw` modulo their
/// number among the free cells, row by row.
pub fn add_drawn_wall(walls: &mut Vec<(u8, u8)>, mouse: (u8, u8), draw: u8)
    requires
        old(walls).len() < 10,
    ensures
        final(walls)@ == old(walls)@.push(
            free_list(old(walls)@, mouse)[draw as int % free_list(old(walls)@, mouse).len() as int],
        ),
{
    let free = free_cells(walls, mouse);
    let cell = free[(draw as usize) % free.len()];
    walls.push(cell);
}

/// Ten distinct cells, drawn at random, none of them the mouse's: each wall
/// is drawn evenly from the cells still free.
pub fn generate_wall_positions(mouse_pos: (u8, u8)) -> (walls: Vec<(u8, u8)>)
    ensures
        valid_walls(walls@, mouse_pos),
{
    let mut rng = rand::thread_rng();
    let mut walls: Vec<(u8, u8)> = Vec::new();
    while walls.len() < 10
        invariant
            walls.len() <= 10,
            forall|i: int|
                0 <= i < walls.len() ==> on_board(#[trigger] walls[i]) && walls[i] != mouse_pos,
            forall|i: int, j: int| 0 <= i < j < walls.len() ==> walls[i] != walls[j],
        decreases 10 - walls.len(),
    {
        let count = free_cells(&walls, mouse_pos).len();
        let draw = draw_between(&mut rng, 0, (count - 1) as u8);
        let ghost before = walls@;
        let ghost free = free_list(before, mouse_pos);
        add_drawn_wall(&mut walls, mouse_pos, draw);
        proof {
            let cell = free[draw as int % free.len() as int];
            assert(on_board(cell) && cell != mouse_pos && !before.contains(cell));
            assert forall|i: int, j: int| 0 <= i < j < walls.len() implies walls[i] != walls[j] by {
                if j == walls.len() - 1 {
                    assert(walls[i] == before[i]);
                }
            }
        }
    }
    walls
}

/// The mouse's spawn cell: row and column each drawn from 3 to 7, away from the border.
pub fn random_mouse_spawn() -> (pos: (u8, u8))
    ensures
        3 <= pos.0 <= 7,
        3 <= pos.1 <= 7,
{
    let mut rng = rand::thread_rng();
    let row = draw_between(&mut rng, 3, 7);
    let col = draw_between(&mut rng, 3, 7);
    (row, col)
}

/// The roles for a coin: `(mouse, wall builder)` is `(first, second)` for 0,
/// the other way round otherwise.
pub fn roles_for(first: u64, second: u64, coin: u8) -> (roles: (u64, u64))
    ensures
        coin == 0 ==> roles == (first, second),
        coin != 0 ==> roles == (second, first),
{
    if coin == 0 {
        (first, second)
    } else {
        (second, first)
    }
}

/// Picks at random which of the two occupants plays the mouse: the result is
/// `(mouse, wall builder)`.
pub fn assign_roles(first: u64, second: u64) -> (roles: (u64, u64))
    ensures
        roles == (first, second) || roles == (second, first),
{
    let mut rng = rand::thread_rng();
    let coin = draw_between(&mut rng, 0, 1);
    roles_for(first, second, coin)
}

} // verus!
