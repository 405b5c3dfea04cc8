//! The 11×11 hex board stored as a rectangular array, and the move rules on it.
//!
//! Rows are skewed by parity: an even row sees its upper and lower neighbours
//! one column to the left, an odd row one column to the right.
use vstd::prelude::*;

verus! {

/// A cell holds one of these three values.
pub const EMPTY: u8 = 0;

pub const MOUSE: u8 = 1;

pub const WALL: u8 = 2;

/// The player number of the wall builder; any other number moves the mouse.
pub const WALL_BUILDER: u8 = 2;

/// The board: `grid[row][col]` is `EMPTY`, `MOUSE` or `WALL`.
pub type Grid = [[u8; 11]; 11];

/// A cell of the board, by row (`x`) and column (`y`).
pub struct Position {
    pub x: usize,
    pub y: usize,
}

impl Position {
    pub fn new(x: usize, y: usize) -> (r: Self)
        ensures
            r.x == x,
            r.y == y,
    {
        Self { x, y }
    }

    pub fn new_from_pos(pos: &Position) -> (r: Self)
        ensures
            r.x == pos.x,
            r.y == pos.y,
    {
        Self { x: pos.x, y: pos.y }
    }
}

pub open spec fn in_range(r: int, c: int) -> bool {
    0 <= r <= 10 && 0 <= c <= 10
}

pub open spec fn is_border(r: int, c: int) -> bool {
    r == 0 || r == 10 || c == 0 || c == 10
}

/// `min(row, 10 - row, col, 10 - col)`.
pub open spec fn border_distance(r: int, c: int) -> int {
    let a = if r <= 10 - r { r } else { 10 - r };
    let b = if c <= 10 - c { c } else { 10 - c };
    if a <= b { a } else { b }
}

pub open spec fn cell(g: Grid, r: int, c: int) -> u8 {
    g[r][c]
}

/// The `k`-th entry (0..6) of the offset table for a cell of row `row`.
pub open spec fn offset(row: int, k: int) -> (int, int) {
    if row % 2 == 0 {
        if k == 0 {
            (-1, -1)
        } else if k == 1 {
            (-1, 0)
        } else if k == 2 {
            (0, -1)
        } else if k == 3 {
            (0, 1)
        } else if k == 4 {
            (1, -1)
        } else {
            (1, 0)
        }
    } else {
        if k == 0 {
            (-1, 0)
        } else if k == 1 {
            (-1, 1)
        } else if k == 2 {
            (0, -1)
        } else if k == 3 {
            (0, 1)
        } else if k == 4 {
            (1, 0)
        } else {
            (1, 1)
        }
    }
}

/// The `k`-th neighbour candidate of `(r, c)`; it may lie off the board.
pub open spec fn neighbor(r: int, c: int, k: int) -> (int, int) {
    (r + offset(r, k).0, c + offset(r, k).1)
}

pub open spec fn is_neighbor(r: int, c: int, tr: int, tc: int) -> bool {
    exists|k: int| 0 <= k < 6 && #[trigger] neighbor(r, c, k) == (tr, tc)
}

/// The cell is on the board and empty.
pub open spec fn open_cell(g: Grid, p: (int, int)) -> bool {
    in_range(p.0, p.1) && cell(g, p.0, p.1) == EMPTY
}

/// Some neighbour of `(r, c)` is on the board and empty.
pub open spec fn has_legal_move(g: Grid, r: int, c: int) -> bool {
    exists|k: int| 0 <= k < 6 && #[trigger] open_cell(g, neighbor(r, c, k))
}

/// The mouse at `(r, c)` may step onto `(tr, tc)`.
pub open spec fn is_mouse_step(g: Grid, r: int, c: int, tr: int, tc: int) -> bool {
    is_neighbor(r, c, tr, tc) && open_cell(g, (tr, tc))
}

/// Whether `player` may play on `(r, c)` while the mouse stands on `(mr, mc)`.
pub open spec fn is_legal_move(g: Grid, player: u8, mr: int, mc: int, r: int, c: int) -> bool {
    if player == WALL_BUILDER {
        open_cell(g, (r, c))
    } else {
        is_mouse_step(g, mr, mc, r, c)
    }
}

fn offset_at(row: usize, k: usize) -> (d: (i8, i8))
    requires
        k < 6,
    ensures
        (d.0 as int, d.1 as int) == offset(row as int, k as int),
{
    if row % 2 == 0 {
        if k == 0 {
            (-1, -1)
        } else if k == 1 {
            (-1, 0)
        } else if k == 2 {
            (0, -1)
        } else if k == 3 {
            (0, 1)
        } else if k == 4 {
            (1, -1)
        } else {
            (1, 0)
        }
    } else {
        if k == 0 {
            (-1, 0)
        } else if k == 1 {
            (-1, 1)
        } else if k == 2 {
            (0, -1)
        } else if k == 3 {
            (0, 1)
        } else if k == 4 {
            (1, 0)
        } else {
            (1, 1)
        }
    }
}

/// The `k`-th neighbour of `(r, c)` when it lies on the board.
pub fn neighbor_at(r: usize, c: usize, k: usize) -> (res: Option<(usize, usize)>)
    requires
        r <= 10,
        c <= 10,
        k < 6,
    ensures
        match res {
            Some(p) => in_range(p.0 as int, p.1 as int) && neighbor(r as int, c as int, k as int)
                == (p.0 as int, p.1 as int),
            None => !in_range(neighbor(r as int, c as int, k as int).0, neighbor(r as int, c as int, k as int).1),
        },
{
    let d = offset_at(r, k);
    let nr: i64 = r as i64 + d.0 as i64;
    let nc: i64 = c as i64 + d.1 as i64;
    if 0 <= nr && nr <= 10 && 0 <= nc && nc <= 10 {
        Some((nr as usize, nc as usize))
    } else {
        None
    }
}

pub fn is_border_cell(r: usize, c: usize) -> (b: bool)
    ensures
        b == is_border(r as int, c as int),
{
    r == 0 || r == 10 || c == 0 || c == 10
}

/// `min(row, 10 - row, col, 10 - col)` of a cell on the board.
pub fn distance_to_border(r: usize, c: usize) -> (d: usize)
    requires
        r <= 10,
        c <= 10,
    ensures
        d == border_distance(r as int, c as int),
{
    let a = if r <= 10 - r {
        r
    } else {
        10 - r
    };
    let b = if c <= 10 - c {
        c
    } else {
        10 - c
    };
    if a <= b {
        a
    } else {
        b
    }
}

/// Whether `(tr, tc)` is one of the six neighbours of `(r, c)`.
pub fn check_neighbor(r: usize, c: usize, tr: usize, tc: usize) -> (b: bool)
    requires
        r <= 10,
        c <= 10,
    ensures
        b == is_neighbor(r as int, c as int, tr as int, tc as int),
{
    if tr > 11 || tc > 11 {
        return false;
    }
    let mut k: usize = 0;
    while k < 6
        invariant
            k <= 6,
            r <= 10,
            c <= 10,
            tr <= 11,
            tc <= 11,
            forall|j: int| 0 <= j < k ==> neighbor(r as int, c as int, j) != (tr as int, tc as int),
        decreases 6 - k,
    {
        let d = offset_at(r, k);
        let nr: i64 = r as i64 + d.0 as i64;
        let nc: i64 = c as i64 + d.1 as i64;
        if nr == tr as i64 && nc == tc as i64 {
            assert(neighbor(r as int, c as int, k as int) == (tr as int, tc as int));
            return true;
        }
        k += 1;
    }
    false
}

/// Whether `player` may play on `(r, c)`: the wall builder on any empty cell,
/// the mouse on an empty neighbour of its cell. Cells off the board are never legal.
pub fn check_move(r: usize, c: usize, mouse: &Position, player: u8, board: &Grid) -> (b: bool)
    requires
        mouse.x <= 10,
        mouse.y <= 10,
    ensures
        b == is_legal_move(*board, player, mouse.x as int, mouse.y as int, r as int, c as int),
{
    if r > 10 || c > 10 {
        return false;
    }
    if board[r][c] != EMPTY {
        return false;
    }
    if player == WALL_BUILDER {
        return true;
    }
    check_neighbor(mouse.x, mouse.y, r, c)
}

/// Whether the mouse has anywhere to go: some neighbour is on the board and empty.
pub fn check_any_left_move(board: &Grid, mouse: &Position) -> (b: bool)
    requires
        mouse.x <= 10,
        mouse.y <= 10,
    ensures
        b == has_legal_move(*board, mouse.x as int, mouse.y as int),
{
    let mut k: usize = 0;
    while k < 6
        invariant
            k <= 6,
            mouse.x <= 10,
            mouse.y <= 10,
            forall|j: int|
                0 <= j < k ==> !#[trigger] open_cell(*board, neighbor(mouse.x as int, mouse.y as int, j)),
        decreases 6 - k,
    {
        match neighbor_at(mouse.x, mouse.y, k) {
            Some(p) => {
                if board[p.0][p.1] == EMPTY {
                    assert(open_cell(*board, neighbor(mouse.x as int, mouse.y as int, k as int)));
                    return true;
                }
            },
            None => {},
        }
        k += 1;
    }
    false
}

/// Writes `v` into cell `(r, c)`.
pub fn set_cell(board: &mut Grid, r: usize, c: usize, v: u8)
    requires
        r <= 10,
        c <= 10,
    ensures
        forall|i: int, j: int|
            0 <= i <= 10 && 0 <= j <= 10 ==> #[trigger] cell(*final(board), i, j) == if i == r && j
                == c {
                v
            } else {
                cell(*old(board), i, j)
            },
{
    board[r][c] = v;
}

/// The mouse has no legal move exactly when each of its six neighbour
/// candidates lies off the board or is not empty.
pub proof fn no_move_iff_all_blocked(g: Grid, r: int, c: int)
    ensures
        !has_legal_move(g, r, c) <==> forall|k: int|
            0 <= k < 6 ==> !in_range(#[trigger] neighbor(r, c, k).0, neighbor(r, c, k).1) || cell(
                g,
                neighbor(r, c, k).0,
                neighbor(r, c, k).1,
            ) != EMPTY,
{
    if !has_legal_move(g, r, c) {
        assert forall|k: int| 0 <= k < 6 implies !in_range(#[trigger] neighbor(r, c, k).0, neighbor(r, c, k).1) || cell(
            g,
            neighbor(r, c, k).0,
            neighbor(r, c, k).1,
        ) != EMPTY by {
            assert(!open_cell(g, neighbor(r, c, k)));
        }
    }
}

} // verus!
