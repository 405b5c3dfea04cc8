//! The room registry: rooms of two slots, matched by code.
//!
//! A connection is known here by the number that the server gave it.
use vstd::prelude::*;

use crate::protocol::RoomRequest;

verus! {

/// A room: two slots for connections, and the code players join it by.
#[derive(Clone, Copy)]
pub struct Room {
    pub player1: Option<u64>,
    pub player2: Option<u64>,
    pub is_full: bool,
    pub code: i8,
    pub is_taken: bool,
}

/// A new room with `conn` as its only occupant.
pub open spec fn fresh_room(code: i8, conn: u64) -> Room {
    Room { player1: Some(conn), player2: None, is_full: false, code, is_taken: false }
}

impl Room {
    /// The room is full exactly when both slots hold a connection.
    pub open spec fn wf(&self) -> bool {
        self.is_full == (self.player1.is_some() && self.player2.is_some())
    }

    /// The room after `conn` joins: it takes the first free slot; a full room
    /// stays as it is.
    pub open spec fn joined(self, conn: u64) -> Room {
        if self.player1.is_none() {
            Room { player1: Some(conn), is_full: self.player2.is_some(), ..self }
        } else if self.player2.is_none() {
            Room { player2: Some(conn), is_full: true, ..self }
        } else {
            self
        }
    }

    pub fn new(code: i8) -> (r: Self)
        ensures
            r == (Room { player1: None, player2: None, is_full: false, code, is_taken: false }),
    {
        Room { player1: None, player2: None, is_full: false, code, is_taken: false }
    }

    /// Puts `conn` into the first free slot; `false` when the room was full.
    pub fn add_to_room(&mut self, conn: u64) -> (placed: bool)
        requires
            old(self).wf(),
        ensures
            final(self).wf(),
            placed == !old(self).is_full,
            *final(self) == old(self).joined(conn),
    {
        if self.player1.is_none() {
            self.player1 = Some(conn);
            if self.player2.is_some() {
                self.is_full = true;
            }
            return true;
        } else if self.player2.is_none() {
            self.player2 = Some(conn);
            if self.player1.is_some() {
                self.is_full = true;
            }
            return true;
        }
        false
    }
}

/// The index of the first room from `from` on with a free slot; the length when none has one.
pub open spec fn first_free(rooms: Seq<Room>, from: int) -> int
    decreases rooms.len() - from,
{
    if from < 0 || from >= rooms.len() {
        rooms.len() as int
    } else if !rooms[from].is_full {
        from
    } else {
        first_free(rooms, from + 1)
    }
}

/// The index of the first room from `from` on with this code and a free slot;
/// the length when there is none.
pub open spec fn first_free_with_code(rooms: Seq<Room>, code: i8, from: int) -> int
    decreases rooms.len() - from,
{
    if from < 0 || from >= rooms.len() {
        rooms.len() as int
    } else if rooms[from].code == code && !rooms[from].is_full {
        from
    } else {
        first_free_with_code(rooms, code, from + 1)
    }
}

/// The index of the first room from `from` on with this code; the length when there is none.
pub open spec fn first_with_code(rooms: Seq<Room>, code: i8, from: int) -> int
    decreases rooms.len() - from,
{
    if from < 0 || from >= rooms.len() {
        rooms.len() as int
    } else if rooms[from].code == code {
        from
    } else {
        first_with_code(rooms, code, from + 1)
    }
}

/// The index of the first room from `from` on with this code that waits for
/// a second player and holds `conn`; the length when there is none.
pub open spec fn first_waiting_with(rooms: Seq<Room>, code: i8, conn: u64, from: int) -> int
    decreases rooms.len() - from,
{
    if from < 0 || from >= rooms.len() {
        rooms.len() as int
    } else if rooms[from].code == code && !rooms[from].is_full && (rooms[from].player1 == Some(
        conn,
    ) || rooms[from].player2 == Some(conn)) {
        from
    } else {
        first_waiting_with(rooms, code, conn, from + 1)
    }
}

/// A room with this code has both slots taken.
pub open spec fn room_full(rooms: Seq<Room>, code: i8) -> bool {
    exists|i: int|
        0 <= i < rooms.len() && (#[trigger] rooms[i]).code == code && rooms[i].player1.is_some()
            && rooms[i].player2.is_some()
}

/// Some room holds this code.
pub open spec fn code_used(rooms: Seq<Room>, c: int) -> bool {
    exists|i: int| 0 <= i < rooms.len() && (#[trigger] rooms[i]).code as int == c
}

/// No two rooms hold the same code.
pub open spec fn codes_distinct(rooms: Seq<Room>) -> bool {
    forall|i: int, j: int| 0 <= i < j < rooms.len() ==> (#[trigger] rooms[i]).code != (#[trigger] rooms[j]).code
}

/// The code a new room gets on a random join: the number of rooms when no
/// room holds it, else the smallest code from 0 on that no room holds.
pub open spec fn is_new_room_code(rooms: Seq<Room>, c: int) -> bool {
    &&& 0 <= c <= 127
    &&& !code_used(rooms, c)
    &&& c != rooms.len() ==> (rooms.len() > 127 || code_used(rooms, rooms.len() as int))
        && forall|d: int| 0 <= d < c ==> code_used(rooms, d)
}

/// `after` and `code` are what a random join of `conn` makes of `rooms`: the
/// first room with a free slot takes it; where every room is full a new room
/// opens under `is_new_room_code`, and `None` comes back only when every code
/// from 0 to 127 is held.
pub open spec fn random_join(rooms: Seq<Room>, conn: u64, code: Option<i8>, after: Seq<Room>) -> bool {
    let i = first_free(rooms, 0);
    if i < rooms.len() {
        code == Some(rooms[i].code) && after == rooms.update(i, rooms[i].joined(conn))
    } else {
        match code {
            Some(c) => is_new_room_code(rooms, c as int) && after == rooms.push(fresh_room(c, conn)),
            None => (forall|d: int| 0 <= d <= 127 ==> code_used(rooms, d)) && after == rooms,
        }
    }
}

proof fn lemma_first_free_bounds(rooms: Seq<Room>, from: int)
    requires
        0 <= from <= rooms.len(),
    ensures
        from <= first_free(rooms, from) <= rooms.len(),
        first_free(rooms, from) < rooms.len() ==> !rooms[first_free(rooms, from)].is_full,
    decreases rooms.len() - from,
{
    if from < rooms.len() && rooms[from].is_full {
        lemma_first_free_bounds(rooms, from + 1);
    }
}

proof fn lemma_first_free_with_code(rooms: Seq<Room>, code: i8, from: int)
    requires
        0 <= from <= rooms.len(),
    ensures
        from <= first_free_with_code(rooms, code, from) <= rooms.len(),
        first_free_with_code(rooms, code, from) < rooms.len() ==> rooms[first_free_with_code(
            rooms,
            code,
            from,
        )].code == code,
        first_free_with_code(rooms, code, from) == rooms.len() ==> forall|j: int|
            from <= j < rooms.len() && (#[trigger] rooms[j]).code == code ==> rooms[j].is_full,
    decreases rooms.len() - from,
{
    if from < rooms.len() && !(rooms[from].code == code && !rooms[from].is_full) {
        lemma_first_free_with_code(rooms, code, from + 1);
    }
}

/// A room leaving keeps the codes of the others apart.
proof fn lemma_remove_keeps_distinct(rooms: Seq<Room>, i: int)
    requires
        codes_distinct(rooms),
        0 <= i < rooms.len(),
    ensures
        codes_distinct(rooms.remove(i)),
{
    let r = rooms.remove(i);
    assert forall|a: int, b: int| 0 <= a < b < r.len() implies (#[trigger] r[a]).code != (#[trigger] r[b]).code by {
        let a0 = if a < i { a } else { a + 1 };
        let b0 = if b < i { b } else { b + 1 };
        assert(r[a] == rooms[a0]);
        assert(r[b] == rooms[b0]);
    }
}

proof fn lemma_push_keeps_distinct(rooms: Seq<Room>, r: Room)
    requires
        codes_distinct(rooms),
        !code_used(rooms, r.code as int),
    ensures
        codes_distinct(rooms.push(r)),
{
    let rs = rooms.push(r);
    assert forall|a: int, b: int| 0 <= a < b < rs.len() implies (#[trigger] rs[a]).code != (
    #[trigger] rs[b]).code by {
        assert(rs[a] == rooms[a]);
        if b < rooms.len() {
            assert(rs[b] == rooms[b]);
        }
    }
}

proof fn lemma_update_keeps_distinct(rooms: Seq<Room>, i: int, r: Room)
    requires
        codes_distinct(rooms),
        0 <= i < rooms.len(),
        r.code == rooms[i].code,
    ensures
        codes_distinct(rooms.update(i, r)),
{
    let rs = rooms.update(i, r);
    assert forall|a: int, b: int| 0 <= a < b < rs.len() implies (#[trigger] rs[a]).code != (
    #[trigger] rs[b]).code by {
        assert(rs[a].code == rooms[a].code);
        assert(rs[b].code == rooms[b].code);
    }
}

/// The rooms in play, in order of creation.
pub struct RoomsManager {
    pub rooms: Vec<Room>,
}

impl RoomsManager {
    /// Every room is full exactly when both of its slots are taken.
    pub open spec fn wf(&self) -> bool {
        forall|i: int| 0 <= i < self.rooms.len() ==> (#[trigger] self.rooms[i]).wf()
    }

    pub fn new() -> (m: Self)
        ensures
            m.wf(),
            m.rooms@ == Seq::<Room>::empty(),
    {
        RoomsManager { rooms: Vec::new() }
    }

    /// Whether some room holds this code.
    fn code_in_use(&self, c: i8) -> (used: bool)
        ensures
            used == code_used(self.rooms@, c as int),
    {
        let mut i: usize = 0;
        while i < self.rooms.len()
            invariant
                i <= self.rooms.len(),
                forall|j: int| 0 <= j < i ==> (#[trigger] self.rooms@[j]).code != c,
            decreases self.rooms.len() - i,
        {
            if self.rooms[i].code == c {
                assert(self.rooms@[i as int].code as int == c as int);
                return true;
            }
            i += 1;
        }
        false
    }

    /// Places `conn` in the first room with a free slot. Where every room is
    /// full it opens a new room: its code is the number of rooms when no room
    /// holds that code, else the smallest code from 0 on that no room holds.
    /// `None` comes back only when every code from 0 to 127 is held.
    pub fn add_to_random_room(&mut self, conn: u64) -> (code: Option<i8>)
        requires
            old(self).wf(),
        ensures
            final(self).wf(),
            random_join(old(self).rooms@, conn, code, final(self).rooms@),
            codes_distinct(old(self).rooms@) ==> codes_distinct(final(self).rooms@),
    {
        proof {
            lemma_first_free_bounds(self.rooms@, 0);
        }
        let mut i: usize = 0;
        while i < self.rooms.len()
            invariant
                i <= self.rooms.len(),
                self.wf(),
                self.rooms@ == old(self).rooms@,
                first_free(self.rooms@, 0) == first_free(self.rooms@, i as int),
            decreases self.rooms.len() - i,
        {
            if !self.rooms[i].is_full {
                let ghost before = self.rooms@;
                let mut room = self.rooms[i];
                room.add_to_room(conn);
                let c = room.code;
                self.rooms.set(i, room);
                proof {
                    if codes_distinct(before) {
                        lemma_update_keeps_distinct(before, i as int, room);
                    }
                }
                return Some(c);
            }
            i += 1;
        }
        let n = self.rooms.len();
        if n <= 127 && !self.code_in_use(n as i8) {
            return Some(self.open_room(conn, n as i8));
        }
        let mut c: u8 = 0;
        while c < 128
            invariant
                c <= 128,
                self.wf(),
                self.rooms@ == old(self).rooms@,
                n == self.rooms.len(),
                first_free(self.rooms@, 0) == n,
                n > 127 || code_used(self.rooms@, n as int),
                forall|d: int| 0 <= d < c ==> code_used(self.rooms@, d),
            decreases 128 - c,
        {
            if !self.code_in_use(c as i8) {
                return Some(self.open_room(conn, c as i8));
            }
            c += 1;
        }
        None
    }

    /// Opens a new room with this code, which no room holds, for `conn`.
    fn open_room(&mut self, conn: u64, code: i8) -> (r: i8)
        requires
            old(self).wf(),
            !code_used(old(self).rooms@, code as int),
        ensures
            r == code,
            final(self).wf(),
            final(self).rooms@ == old(self).rooms@.push(fresh_room(code, conn)),
            codes_distinct(old(self).rooms@) ==> codes_distinct(final(self).rooms@),
    {
        let mut room = Room::new(code);
        room.add_to_room(conn);
        self.rooms.push(room);
        proof {
            if codes_distinct(old(self).rooms@) {
                lemma_push_keeps_distinct(old(self).rooms@, room);
            }
        }
        code
    }

    /// Places `conn` in the first room with this code and a free slot, or else
    /// opens a new room with this code for it. Returns the code.
    pub fn add_to_specific_room(&mut self, conn: u64, code: i8) -> (r: i8)
        requires
            old(self).wf(),
        ensures
            final(self).wf(),
            r == code,
            ({
                let rooms = old(self).rooms@;
                let i = first_free_with_code(rooms, code, 0);
                if i < rooms.len() {
                    final(self).rooms@ == rooms.update(i, rooms[i].joined(conn))
                } else {
                    final(self).rooms@ == rooms.push(fresh_room(code, conn))
                }
            }),
            codes_distinct(old(self).rooms@) && !room_full(old(self).rooms@, code) ==> codes_distinct(
                final(self).rooms@,
            ),
    {
        proof {
            lemma_first_free_with_code(self.rooms@, code, 0);
        }
        let mut i: usize = 0;
        while i < self.rooms.len()
            invariant
                i <= self.rooms.len(),
                self.wf(),
                self.rooms@ == old(self).rooms@,
                first_free_with_code(self.rooms@, code, 0) == first_free_with_code(
                    self.rooms@,
                    code,
                    i as int,
                ),
            decreases self.rooms.len() - i,
        {
            if self.rooms[i].code == code && !self.rooms[i].is_full {
                let ghost before = self.rooms@;
                let mut room = self.rooms[i];
                room.add_to_room(conn);
                self.rooms.set(i, room);
                proof {
                    if codes_distinct(before) {
                        lemma_update_keeps_distinct(before, i as int, room);
                    }
                }
                return code;
            }
            i += 1;
        }
        let ghost before = self.rooms@;
        let mut room = Room::new(code);
        room.add_to_room(conn);
        self.rooms.push(room);
        proof {
            if codes_distinct(before) && !room_full(before, code) {
                if code_used(before, code as int) {
                    let j = choose|j: int| 0 <= j < before.len() && (#[trigger] before[j]).code as int == code as int;
                    assert(before[j].is_full);
                    assert(before[j].wf());
                }
                lemma_push_keeps_distinct(before, room);
            }
        }
        code
    }

    /// Resolves what a client asked for to the room code it is told: a game
    /// against the computer is room `-2` and never enters the registry; the
    /// other requests join as `add_to_random_room` and `add_to_specific_room` do.
    pub fn resolve_room(&mut self, conn: u64, req: RoomRequest) -> (code: Option<i8>)
        requires
            old(self).wf(),
        ensures
            final(self).wf(),
            req == RoomRequest::Computer ==> code == Some(-2i8) && final(self).rooms@ == old(
                self,
            ).rooms@,
            req == RoomRequest::Random ==> random_join(
                old(self).rooms@,
                conn,
                code,
                final(self).rooms@,
            ),
            forall|c: i8|
                req == RoomRequest::Explicit(c) ==> code == Some(c) && ({
                    let rooms = old(self).rooms@;
                    let i = first_free_with_code(rooms, c, 0);
                    if i < rooms.len() {
                        final(self).rooms@ == rooms.update(i, rooms[i].joined(conn))
                    } else {
                        final(self).rooms@ == rooms.push(fresh_room(c, conn))
                    }
                }),
            codes_distinct(old(self).rooms@) && (forall|c: i8|
                req == RoomRequest::Explicit(c) ==> !room_full(old(self).rooms@, c))
                ==> codes_distinct(final(self).rooms@),
    {
        match req {
            RoomRequest::Computer => Some(-2),
            RoomRequest::Random => self.add_to_random_room(conn),
            RoomRequest::Explicit(c) => Some(self.add_to_specific_room(conn, c)),
        }
    }

    /// Removes the first room with this code, if there is one.
    pub fn remove_from_room(&mut self, code: i8)
        requires
            old(self).wf(),
        ensures
            final(self).wf(),
            ({
                let rooms = old(self).rooms@;
                let i = first_with_code(rooms, code, 0);
                if i < rooms.len() {
                    final(self).rooms@ == rooms.remove(i)
                } else {
                    final(self).rooms@ == rooms
                }
            }),
            codes_distinct(old(self).rooms@) ==> codes_distinct(final(self).rooms@),
    {
        let mut i: usize = 0;
        while i < self.rooms.len()
            invariant
                i <= self.rooms.len(),
                self.wf(),
                self.rooms@ == old(self).rooms@,
                first_with_code(self.rooms@, code, 0) == first_with_code(self.rooms@, code, i as int),
            decreases self.rooms.len() - i,
        {
            if self.rooms[i].code == code {
                let ghost before = self.rooms@;
                self.rooms.remove(i);
                proof {
                    if codes_distinct(before) {
                        lemma_remove_keeps_distinct(before, i as int);
                    }
                }
                return;
            }
            i += 1;
        }
    }

    /// A connection that left while its room still waited for a second player
    /// takes that room with it: the first waiting room with this code that
    /// holds `conn` is removed, if there is one.
    pub fn leave_room(&mut self, code: i8, conn: u64)
        requires
            old(self).wf(),
        ensures
            final(self).wf(),
            ({
                let rooms = old(self).rooms@;
                let i = first_waiting_with(rooms, code, conn, 0);
                if i < rooms.len() {
                    final(self).rooms@ == rooms.remove(i)
                } else {
                    final(self).rooms@ == rooms
                }
            }),
            codes_distinct(old(self).rooms@) ==> codes_distinct(final(self).rooms@),
    {
        let mut i: usize = 0;
        while i < self.rooms.len()
            invariant
                i <= self.rooms.len(),
                self.wf(),
                self.rooms@ == old(self).rooms@,
                first_waiting_with(self.rooms@, code, conn, 0) == first_waiting_with(
                    self.rooms@,
                    code,
                    conn,
                    i as int,
                ),
            decreases self.rooms.len() - i,
        {
            let room = self.rooms[i];
            if room.code == code && !room.is_full && (room.player1 == Some(conn) || room.player2
                == Some(conn)) {
                let ghost before = self.rooms@;
                self.rooms.remove(i);
                proof {
                    if codes_distinct(before) {
                        lemma_remove_keeps_distinct(before, i as int);
                    }
                }
                return;
            }
            i += 1;
        }
    }

    /// Whether a room with this code has both of its slots taken.
    pub fn check_room(&self, code: i8) -> (full: bool)
        requires
            self.wf(),
        ensures
            full == room_full(self.rooms@, code),
    {
        let mut i: usize = 0;
        while i < self.rooms.len()
            invariant
                i <= self.rooms.len(),
                self.wf(),
                forall|j: int|
                    0 <= j < i ==> !((#[trigger] self.rooms@[j]).code == code
                        && self.rooms@[j].player1.is_some() && self.rooms@[j].player2.is_some()),
            decreases self.rooms.len() - i,
        {
            if self.rooms[i].code == code && self.rooms[i].is_full {
                assert(self.rooms@[i as int].wf());
                return true;
            }
            i += 1;
        }
        false
    }

    /// Starts the game of the first room with this code: when that room is
    /// full and not yet taken, it is marked taken and its two connections come
    /// back. Anything else leaves the registry as it is and gives `None`, so
    /// only one caller ever starts a room.
    pub fn take_room(&mut self, code: i8) -> (players: Option<(u64, u64)>)
        requires
            old(self).wf(),
        ensures
            final(self).wf(),
            ({
                let rooms = old(self).rooms@;
                let i = first_with_code(rooms, code, 0);
                if i < rooms.len() && rooms[i].is_full && !rooms[i].is_taken {
                    players == Some((rooms[i].player1.unwrap(), rooms[i].player2.unwrap()))
                        && final(self).rooms@ == rooms.update(
                        i,
                        Room { is_taken: true, ..rooms[i] },
                    )
                } else {
                    players.is_none() && final(self).rooms@ == rooms
                }
            }),
            codes_distinct(old(self).rooms@) ==> codes_distinct(final(self).rooms@),
    {
        let mut i: usize = 0;
        while i < self.rooms.len()
            invariant
                i <= self.rooms.len(),
                self.wf(),
                self.rooms@ == old(self).rooms@,
                first_with_code(self.rooms@, code, 0) == first_with_code(self.rooms@, code, i as int),
            decreases self.rooms.len() - i,
        {
            let room = self.rooms[i];
            if room.code == code {
                if !room.is_full || room.is_taken {
                    return None;
                }
                assert(room.wf());
                let players = match (room.player1, room.player2) {
                    (Some(a), Some(b)) => (a, b),
                    _ => {
                        return None;
                    },
                };
                let ghost before = self.rooms@;
                let mut started = room;
                started.is_taken = true;
                self.rooms.set(i, started);
                proof {
                    if codes_distinct(before) {
                        lemma_update_keeps_distinct(before, i as int, started);
                    }
                }
                return Some(players);
            }
            i += 1;
        }
        None
    }
}

/// In a well-formed registry a room counts as full exactly when both of its
/// slots hold a connection, and a full room takes no one more: joining it
/// leaves it as it is.
pub proof fn full_iff_both_slots(m: RoomsManager, i: int, conn: u64)
    requires
        m.wf(),
        0 <= i < m.rooms.len(),
    ensures
        m.rooms[i].is_full <==> (m.rooms[i].player1.is_some() && m.rooms[i].player2.is_some()),
        m.rooms[i].is_full ==> m.rooms[i].joined(conn) == m.rooms[i],
        !m.rooms[i].is_full ==> m.rooms[i].joined(conn).wf(),
{
    assert(m.rooms[i].wf());
}

} // verus!
