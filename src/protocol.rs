//! The wire protocol: sentinels, the room selector, and the payloads of the
//! handshake.
use vstd::prelude::*;
use vstd::string::StringSliceAdditionalSpecFns;

verus! {

// The letters of the two-byte sentinels.
pub const ASCII_W: u8 = 119;

pub const ASCII_I: u8 = 105;

pub const ASCII_L: u8 = 108;

pub const ASCII_O: u8 = 111;

pub const ASCII_Y: u8 = 121;

pub const ASCII_E: u8 = 101;

/// `"wi"`: the sender has won.
pub open spec fn win_sentinel() -> Seq<u8> {
    seq![ASCII_W, ASCII_I]
}

/// `"lo"`: the sender has lost.
pub open spec fn lose_sentinel() -> Seq<u8> {
    seq![ASCII_L, ASCII_O]
}

/// `"ye"`: the opponent has gone, the receiver wins.
pub open spec fn gone_sentinel() -> Seq<u8> {
    seq![ASCII_Y, ASCII_E]
}

pub const ASCII_SPACE: u8 = 32;

pub const ASCII_MINUS: u8 = 45;

pub const ASCII_PLUS: u8 = 43;

pub const ASCII_COMMA: u8 = 44;

pub const ASCII_ZERO: u8 = 48;

/// ASCII white space: space, and tab through carriage return.
pub open spec fn is_space(b: u8) -> bool {
    b == ASCII_SPACE || (9 <= b && b <= 13)
}

pub open spec fn is_digit(b: u8) -> bool {
    ASCII_ZERO <= b && b <= ASCII_ZERO + 9
}

pub open spec fn trim_start(s: Seq<u8>) -> Seq<u8>
    decreases s.len(),
{
    if s.len() > 0 && is_space(s[0]) {
        trim_start(s.drop_first())
    } else {
        s
    }
}

pub open spec fn trim_end(s: Seq<u8>) -> Seq<u8>
    decreases s.len(),
{
    if s.len() > 0 && is_space(s.last()) {
        trim_end(s.drop_last())
    } else {
        s
    }
}

pub open spec fn all_digits(s: Seq<u8>) -> bool {
    forall|i: int| 0 <= i < s.len() ==> is_digit(#[trigger] s[i])
}

/// The number that a run of decimal digits spells.
pub open spec fn digits_value(s: Seq<u8>) -> int
    decreases s.len(),
{
    if s.len() == 0 {
        0
    } else {
        digits_value(s.drop_last()) * 10 + (s.last() - ASCII_ZERO)
    }
}

/// The integer that `s` spells: an optional sign, then one or more decimal digits.
pub open spec fn parse_int(s: Seq<u8>) -> Option<int> {
    let neg = s.len() > 0 && s[0] == ASCII_MINUS;
    let body = if s.len() > 0 && (s[0] == ASCII_MINUS || s[0] == ASCII_PLUS) {
        s.drop_first()
    } else {
        s
    };
    if body.len() > 0 && all_digits(body) {
        Some(
            if neg {
                -digits_value(body)
            } else {
                digits_value(body)
            },
        )
    } else {
        None
    }
}

/// The room selector that a message holds: the integer it spells once the
/// white space round it is dropped, where that fits a room code; `-1`
/// (any room) otherwise.
pub open spec fn selector_value(msg: Seq<u8>) -> int {
    match parse_int(trim_end(trim_start(msg))) {
        Some(v) => if -128 <= v && v <= 127 {
            v
        } else {
            -1
        },
        None => -1,
    }
}

proof fn lemma_digits_value_nonneg(s: Seq<u8>)
    requires
        all_digits(s),
    ensures
        digits_value(s) >= 0,
    decreases s.len(),
{
    if s.len() > 0 {
        assert(is_digit(s[s.len() - 1]));
        lemma_digits_value_nonneg(s.drop_last());
    }
}

fn is_space_byte(b: u8) -> (r: bool)
    ensures
        r == is_space(b),
{
    b == ASCII_SPACE || (9 <= b && b <= 13)
}

/// Reads a room selector from the bytes the client sent.
pub fn parse_room_selector(msg: &[u8]) -> (code: i8)
    ensures
        code as int == selector_value(msg@),
{
    let n = msg.len();
    assert(msg@.subrange(0, n as int) =~= msg@);
    let mut lo: usize = 0;
    while lo < n && is_space_byte(msg[lo])
        invariant
            lo <= n,
            n == msg@.len(),
            trim_start(msg@) == trim_start(msg@.subrange(lo as int, n as int)),
        decreases n - lo,
    {
        assert(msg@.subrange(lo as int, n as int).drop_first() =~= msg@.subrange(
            lo + 1,
            n as int,
        ));
        lo += 1;
    }
    assert(trim_start(msg@) == msg@.subrange(lo as int, n as int));
    let mut hi: usize = n;
    while hi > lo && is_space_byte(msg[hi - 1])
        invariant
            lo <= hi <= n,
            n == msg@.len(),
            trim_end(msg@.subrange(lo as int, n as int)) == trim_end(
                msg@.subrange(lo as int, hi as int),
            ),
        decreases hi - lo,
    {
        assert(msg@.subrange(lo as int, hi as int).drop_last() =~= msg@.subrange(
            lo as int,
            hi - 1,
        ));
        hi -= 1;
    }
    let ghost t = msg@.subrange(lo as int, hi as int);
    assert(trim_end(trim_start(msg@)) == t);
    let mut start: usize = lo;
    let mut neg = false;
    if lo < hi && msg[lo] == ASCII_MINUS {
        neg = true;
        start = lo + 1;
    } else if lo < hi && msg[lo] == ASCII_PLUS {
        start = lo + 1;
    }
    let ghost body = msg@.subrange(start as int, hi as int);
    assert(body =~= (if t.len() > 0 && (t[0] == ASCII_MINUS || t[0] == ASCII_PLUS) {
        t.drop_first()
    } else {
        t
    }));
    if start == hi {
        return -1;
    }
    // Values above 128 fit no code; they are all held as 129.
    let mut acc: u32 = 0;
    let mut j: usize = start;
    while j < hi
        invariant
            start <= j <= hi <= n,
            n == msg@.len(),
            all_digits(msg@.subrange(start as int, j as int)),
            body == msg@.subrange(start as int, hi as int),
            trim_end(trim_start(msg@)) == t,
            body == (if t.len() > 0 && (t[0] == ASCII_MINUS || t[0] == ASCII_PLUS) {
                t.drop_first()
            } else {
                t
            }),
            neg == (t.len() > 0 && t[0] == ASCII_MINUS),
            body.len() > 0,
            digits_value(msg@.subrange(start as int, j as int)) <= 128 ==> acc as int
                == digits_value(msg@.subrange(start as int, j as int)),
            digits_value(msg@.subrange(start as int, j as int)) > 128 ==> acc == 129,
        decreases hi - j,
    {
        let b = msg[j];
        if !(ASCII_ZERO <= b && b <= ASCII_ZERO + 9) {
            assert(!is_digit(body[j - start]));
            return -1;
        }
        let ghost prev = msg@.subrange(start as int, j as int);
        let ghost next = msg@.subrange(start as int, j + 1);
        assert(next.drop_last() =~= prev);
        assert(all_digits(next));
        proof {
            lemma_digits_value_nonneg(prev);
        }
        if acc > 128 {
            acc = 129;
        } else {
            acc = acc * 10 + (b - ASCII_ZERO) as u32;
            if acc > 128 {
                acc = 129;
            }
        }
        j += 1;
    }
    assert(msg@.subrange(start as int, hi as int) =~= body);
    if neg {
        if acc <= 128 {
            return (0 - acc as i32) as i8;
        }
    } else {
        if acc <= 127 {
            return acc as i8;
        }
    }
    -1
}

/// The integer that `s` spells, where it lies in `lo..=hi`.
fn parse_bounded(s: &[u8], lo: i64, hi: i64) -> (r: Option<i64>)
    requires
        -0x1_0000_0000 <= lo <= 0 <= hi <= 0x1_0000_0000,
    ensures
        match parse_int(s@) {
            Some(v) => if lo <= v <= hi {
                r == Some(v as i64)
            } else {
                r.is_none()
            },
            None => r.is_none(),
        },
{
    let n = s.len();
    if n == 0 {
        return None;
    }
    let mut start: usize = 0;
    let mut neg = false;
    if s[0] == ASCII_MINUS {
        neg = true;
        start = 1;
    } else if s[0] == ASCII_PLUS {
        start = 1;
    }
    let ghost body = s@.subrange(start as int, n as int);
    assert(body =~= (if s@.len() > 0 && (s@[0] == ASCII_MINUS || s@[0] == ASCII_PLUS) {
        s@.drop_first()
    } else {
        s@
    }));
    if start == n {
        return None;
    }
    // magnitudes beyond `cap` fit no bound; they are all held as `cap + 1`
    let cap: i64 = 0x1_0000_0000;
    let mut acc: i64 = 0;
    let mut j: usize = start;
    while j < n
        invariant
            start <= j <= n,
            n == s@.len(),
            cap == 0x1_0000_0000,
            0 <= acc <= cap + 1,
            all_digits(s@.subrange(start as int, j as int)),
            digits_value(s@.subrange(start as int, j as int)) <= cap ==> acc as int
                == digits_value(s@.subrange(start as int, j as int)),
            digits_value(s@.subrange(start as int, j as int)) > cap ==> acc == cap + 1,
            body == s@.subrange(start as int, n as int),
            body == (if s@.len() > 0 && (s@[0] == ASCII_MINUS || s@[0] == ASCII_PLUS) {
                s@.drop_first()
            } else {
                s@
            }),
            neg == (s@.len() > 0 && s@[0] == ASCII_MINUS),
            body.len() > 0,
        decreases n - j,
    {
        let b = s[j];
        if !(ASCII_ZERO <= b && b <= ASCII_ZERO + 9) {
            assert(!is_digit(body[j - start]));
            return None;
        }
        let ghost prev = s@.subrange(start as int, j as int);
        let ghost next = s@.subrange(start as int, j + 1);
        assert(next.drop_last() =~= prev);
        assert(all_digits(next));
        proof {
            lemma_digits_value_nonneg(prev);
            assert(digits_value(next) == digits_value(prev) * 10 + (b - ASCII_ZERO));
        }
        if acc > cap {
            acc = cap + 1;
        } else {
            acc = acc * 10 + (b - ASCII_ZERO) as i64;
            if acc > cap {
                acc = cap + 1;
            }
        }
        j += 1;
    }
    assert(s@.subrange(start as int, n as int) =~= body);
    let v: i64 = if neg {
        0 - acc
    } else {
        acc
    };
    if acc <= cap && lo <= v && v <= hi {
        Some(v)
    } else {
        None
    }
}

/// Reads a room code typed by a player: the integer that the text spells,
/// with an optional sign; `-1` (any room) where it spells none or does not fit.
pub fn convert_to_i32(s: &str) -> (code: i32)
    ensures
        code as int == match parse_int(s.spec_bytes()) {
            Some(v) => if i32::MIN <= v <= i32::MAX {
                v
            } else {
                -1
            },
            None => -1,
        },
{
    match parse_bounded(s.as_bytes(), i32::MIN as i64, i32::MAX as i64) {
        Some(v) => v as i32,
        None => -1,
    }
}

/// What a client asked for with its selector.
#[derive(Clone, Copy, Debug, PartialEq, Eq, Structural)]
pub enum RoomRequest {
    /// `-1`, or a message that spells no room code: any room with a free slot.
    Random,
    /// `-2`: a game against the computer.
    Computer,
    /// Any other code: the room with that code.
    Explicit(i8),
}

/// Reads what a client asked for from its first message.
pub fn room_request(msg: &[u8]) -> (req: RoomRequest)
    ensures
        selector_value(msg@) == -1 ==> req == RoomRequest::Random,
        selector_value(msg@) == -2 ==> req == RoomRequest::Computer,
        selector_value(msg@) != -1 && selector_value(msg@) != -2 ==> req == RoomRequest::Explicit(
            selector_value(msg@) as i8,
        ) && req->Explicit_0 as int == selector_value(msg@),
{
    let code = parse_room_selector(msg);
    if code == -1 {
        RoomRequest::Random
    } else if code == -2 {
        RoomRequest::Computer
    } else {
        RoomRequest::Explicit(code)
    }
}

/// The decimal digits of `n`, most significant first.
pub open spec fn digit_text(n: nat) -> Seq<u8>
    decreases n,
{
    if n < 10 {
        seq![(ASCII_ZERO + n) as u8]
    } else {
        digit_text(n / 10).push((ASCII_ZERO + n % 10) as u8)
    }
}

/// `v` in decimal, with a leading `-` when it is negative.
pub open spec fn decimal_text(v: int) -> Seq<u8> {
    if v < 0 {
        seq![ASCII_MINUS] + digit_text((-v) as nat)
    } else {
        digit_text(v as nat)
    }
}

/// Appends the decimal digits of `n`.
fn push_digits(out: &mut Vec<u8>, n: u8)
    ensures
        final(out)@ == old(out)@ + digit_text(n as nat),
{
    let ghost start = out@;
    if n >= 100 {
        out.push(ASCII_ZERO + n / 100);
        out.push(ASCII_ZERO + (n / 10) % 10);
        out.push(ASCII_ZERO + n % 10);
        assert(digit_text((n / 100) as nat) == seq![(ASCII_ZERO + n / 100) as u8]);
        assert(digit_text((n / 10) as nat) == digit_text((n / 100) as nat).push(
            (ASCII_ZERO + (n / 10) % 10) as u8,
        )) by {
            assert((n / 10) / 10 == n / 100);
        }
        assert(out@ =~= start + digit_text(n as nat));
    } else if n >= 10 {
        out.push(ASCII_ZERO + n / 10);
        out.push(ASCII_ZERO + n % 10);
        assert(digit_text((n / 10) as nat) == seq![(ASCII_ZERO + n / 10) as u8]);
        assert(out@ =~= start + digit_text(n as nat));
    } else {
        out.push(ASCII_ZERO + n);
        assert(out@ =~= start + digit_text(n as nat));
    }
}

/// `v` as decimal text: the room code sent back to a client.
pub fn encode_decimal(v: i8) -> (text: Vec<u8>)
    ensures
        text@ == decimal_text(v as int),
{
    let mut text: Vec<u8> = Vec::new();
    if v < 0 {
        text.push(ASCII_MINUS);
        let m: u8 = (0 - v as i16) as u8;
        push_digits(&mut text, m);
    } else {
        push_digits(&mut text, v as u8);
    }
    assert(text@ =~= decimal_text(v as int));
    text
}

/// The mouse's spawn cell as `"<row>,<col>"`.
pub fn encode_position(row: u8, col: u8) -> (text: Vec<u8>)
    ensures
        text@ == digit_text(row as nat) + seq![ASCII_COMMA] + digit_text(col as nat),
{
    let mut text: Vec<u8> = Vec::new();
    push_digits(&mut text, row);
    text.push(ASCII_COMMA);
    push_digits(&mut text, col);
    assert(text@ =~= digit_text(row as nat) + seq![ASCII_COMMA] + digit_text(col as nat));
    text
}

/// The wall layout: one byte for the row and one for the column of each wall, in order.
pub fn encode_walls(walls: &Vec<(u8, u8)>) -> (bytes: Vec<u8>)
    ensures
        bytes.len() == 2 * walls.len(),
        forall|i: int|
            0 <= i < walls.len() ==> bytes[2 * i] == (#[trigger] walls[i]).0 && bytes[2 * i + 1]
                == walls[i].1,
{
    let mut bytes: Vec<u8> = Vec::new();
    let mut i: usize = 0;
    while i < walls.len()
        invariant
            i <= walls.len(),
            bytes.len() == 2 * i,
            forall|j: int|
                0 <= j < i ==> bytes[2 * j] == (#[trigger] walls[j]).0 && bytes[2 * j + 1]
                    == walls[j].1,
        decreases walls.len() - i,
    {
        let w = walls[i];
        bytes.push(w.0);
        bytes.push(w.1);
        i += 1;
    }
    bytes
}

/// What the relay does with one read from an occupant.
#[derive(Debug)]
pub enum RelayAction {
    /// Send these two bytes to the other occupant and read on.
    Forward([u8; 2]),
    /// Send these two bytes to the other occupant; the game is over.
    Finish([u8; 2]),
    /// The occupant has gone: send `"ye"` to the other one, close both, release the room.
    PeerGone,
}

/// Decides what to do with `n` bytes read into `buf` from one occupant:
/// nothing read means the occupant left; a win or loss is passed on mirrored
/// and ends the game; anything else is passed on as it is.
pub fn relay_step(n: usize, buf: [u8; 2]) -> (a: RelayAction)
    ensures
        n == 0 ==> a == RelayAction::PeerGone,
        n > 0 && buf@ == win_sentinel() ==> (a matches RelayAction::Finish(m) && m@ == lose_sentinel()),
        n > 0 && buf@ == lose_sentinel() ==> (a matches RelayAction::Finish(m) && m@ == win_sentinel()),
        n > 0 && buf@ != win_sentinel() && buf@ != lose_sentinel() ==> a == RelayAction::Forward(buf),
{
    if n == 0 {
        return RelayAction::PeerGone;
    }
    if buf[0] == ASCII_W && buf[1] == ASCII_I {
        let m: [u8; 2] = [ASCII_L, ASCII_O];
        assert(buf@ =~= win_sentinel());
        assert(m@ =~= lose_sentinel());
        RelayAction::Finish(m)
    } else if buf[0] == ASCII_L && buf[1] == ASCII_O {
        let m: [u8; 2] = [ASCII_W, ASCII_I];
        assert(buf@ =~= lose_sentinel());
        assert(m@ =~= win_sentinel());
        RelayAction::Finish(m)
    } else {
        proof {
            if buf@ == win_sentinel() {
                assert(buf@[0] == ASCII_W);
            }
            if buf@ == lose_sentinel() {
                assert(buf@[0] == ASCII_L);
            }
        }
        RelayAction::Forward(buf)
    }
}

/// The two bytes that tell an occupant that the other one has gone.
pub fn gone_notice() -> (m: [u8; 2])
    ensures
        m@ == gone_sentinel(),
{
    let m: [u8; 2] = [ASCII_Y, ASCII_E];
    assert(m@ =~= gone_sentinel());
    m
}

/// The relay between the two occupants of a running game: it reads from
/// each in turn, the mouse first, until the game ends.
pub struct Relay {
    /// Whose message is read next: 0 for the mouse, 1 for the wall builder.
    pub turn: usize,
    pub over: bool,
}

impl Relay {
    pub fn new() -> (r: Relay)
        ensures
            r.turn == 0,
            !r.over,
    {
        Relay { turn: 0, over: false }
    }

    /// Takes what was read from the occupant whose turn it was. The action is
    /// that of `relay_step`, addressed to the other occupant; a win, a loss or
    /// a departure ends the relay.
    pub fn on_read(&mut self, n: usize, buf: [u8; 2]) -> (res: (usize, RelayAction))
        requires
            old(self).turn <= 1,
            !old(self).over,
        ensures
            res.0 == 1 - old(self).turn,
            final(self).turn == 1 - old(self).turn,
            final(self).over == !(res.1 matches RelayAction::Forward(_)),
            n == 0 ==> res.1 == RelayAction::PeerGone,
            n > 0 && buf@ == win_sentinel() ==> (res.1 matches RelayAction::Finish(m) && m@
                == lose_sentinel()),
            n > 0 && buf@ == lose_sentinel() ==> (res.1 matches RelayAction::Finish(m) && m@
                == win_sentinel()),
            n > 0 && buf@ != win_sentinel() && buf@ != lose_sentinel() ==> res.1
                == RelayAction::Forward(buf),
    {
        let to = 1 - self.turn;
        let action = relay_step(n, buf);
        self.turn = to;
        self.over = match action {
            RelayAction::Forward(_) => false,
            _ => true,
        };
        (to, action)
    }
}

} // verus!
