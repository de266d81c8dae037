//! What the match server decides about its clients before a command reaches
//! the simulation: who may join, which connection may command which seat,
//! which placements are retries, and which seats stay reserved for a player
//! who dropped out.
use vstd::prelude::*;

use crate::keyed::{
    distinct_keys, has_key, key_map, lemma_filter_key_map, lemma_key_map_distinct, lemma_key_map_key,
    Keyed,
};
use crate::model::{PlayerId, PlayerInfo};
use crate::names::{clean_name, decimal, decimal_text, trimmed, MAX_PLAYER_NAME_CHARS};
use crate::packets::{GameId, PROTOCOL_VERSION};
use crate::view::{find_player, first_player_with_id, lemma_first_player_with_id};

verus! {

/// Why the server turns a joining client away.
#[derive(Clone, Copy, Debug, PartialEq, Eq, Structural)]
pub enum JoinRefusal {
    /// The client speaks another protocol version.
    ProtocolMismatch { client: u16 },
    /// Another connection already plays under this name.
    NameTaken,
}

/// Why the server refuses a command from a connection.
#[derive(Clone, Copy, Debug, PartialEq, Eq, Structural)]
pub enum SessionRefusal {
    /// A command from a connection that has not joined.
    NotJoined,
    /// A disconnect from a connection that has not joined.
    NotJoinedToDisconnect,
    /// The command names a seat that is not this connection's.
    WrongPlayer,
    /// The connection sits in no game.
    NoGame,
    /// The connection's game has closed.
    GameGone,
}

/// What the server keeps of a connection's seat.
#[derive(Clone, Copy, Debug, PartialEq, Eq, Structural)]
pub struct SessionSeat {
    pub game_id: Option<GameId>,
    pub player_id: Option<PlayerId>,
    /// The last placement sequence number applied for this connection.
    pub last_applied_seq: Option<u32>,
}

/// The name a client joins under, as `clean_name` makes it.
pub open spec fn cleaned_name_of(name: Seq<char>) -> Seq<char> {
    if trimmed(name).len() == 0 {
        "Player"@
    } else {
        trimmed(name).take(
            if trimmed(name).len() < MAX_PLAYER_NAME_CHARS {
                trimmed(name).len() as int
            } else {
                MAX_PLAYER_NAME_CHARS as int
            },
        )
    }
}

pub open spec fn mismatch_text(client: u16) -> Seq<char> {
    "protocol mismatch: client "@ + decimal(client as nat) + ", server "@ + decimal(
        PROTOCOL_VERSION as nat,
    )
}

impl JoinRefusal {
    pub open spec fn text(self) -> Seq<char> {
        match self {
            JoinRefusal::ProtocolMismatch { client } => mismatch_text(client),
            JoinRefusal::NameTaken => "That player name is already connected."@,
        }
    }

    /// The message the client is sent.
    pub fn message(&self) -> (text: String)
        ensures
            text@ == self.text(),
    {
        match self {
            JoinRefusal::ProtocolMismatch { client } => {
                let mut text = String::from_str("protocol mismatch: client ");
                text.append(decimal_text(*client as u64).as_str());
                text.append(", server ");
                text.append(decimal_text(PROTOCOL_VERSION as u64).as_str());
                text
            },
            JoinRefusal::NameTaken => String::from_str("That player name is already connected."),
        }
    }
}

impl SessionRefusal {
    pub open spec fn text(self) -> Seq<char> {
        match self {
            SessionRefusal::NotJoined => "Join before sending commands."@,
            SessionRefusal::NotJoinedToDisconnect => "Join before disconnecting."@,
            SessionRefusal::WrongPlayer => "Player id does not match this connection."@,
            SessionRefusal::NoGame => "Join or create a game first."@,
            SessionRefusal::GameGone => "Your game no longer exists."@,
        }
    }

    /// The message the client is sent.
    pub fn message(&self) -> (text: String)
        ensures
            text@ == self.text(),
    {
        match self {
            SessionRefusal::NotJoined => String::from_str("Join before sending commands."),
            SessionRefusal::NotJoinedToDisconnect => String::from_str("Join before disconnecting."),
            SessionRefusal::WrongPlayer => String::from_str(
                "Player id does not match this connection.",
            ),
            SessionRefusal::NoGame => String::from_str("Join or create a game first."),
            SessionRefusal::GameGone => String::from_str("Your game no longer exists."),
        }
    }
}

/// Admits a client that joins with protocol `version` under `name`, where
/// `others` are the names of the other connected clients: the name it is
/// listed under, or why it is turned away.
pub fn check_join(version: u16, name: String, others: &Vec<String>) -> (admitted: Result<
    String,
    JoinRefusal,
>)
    ensures
        version != PROTOCOL_VERSION ==> admitted == Err::<String, JoinRefusal>(
            JoinRefusal::ProtocolMismatch { client: version },
        ),
        version == PROTOCOL_VERSION ==> match admitted {
            Ok(listed) => listed@ == cleaned_name_of(name@) && forall|i: int|
                0 <= i < others@.len() ==> (#[trigger] others@[i])@ != cleaned_name_of(name@),
            Err(refusal) => refusal == JoinRefusal::NameTaken && exists|i: int|
                0 <= i < others@.len() && (#[trigger] others@[i])@ == cleaned_name_of(name@),
        },
{
    if version != PROTOCOL_VERSION {
        return Err(JoinRefusal::ProtocolMismatch { client: version });
    }
    let listed = clean_name(name);
    if name_in_use(&listed, others) {
        Err(JoinRefusal::NameTaken)
    } else {
        Ok(listed)
    }
}

/// Whether one of `others` is `name`.
fn name_in_use(name: &String, others: &Vec<String>) -> (in_use: bool)
    ensures
        in_use == exists|i: int| 0 <= i < others@.len() && (#[trigger] others@[i])@ == name@,
{
    let mut i: usize = 0;
    while i < others.len()
        invariant
            i <= others@.len(),
            forall|j: int| 0 <= j < i ==> (#[trigger] others@[j])@ != name@,
        decreases others.len() - i,
    {
        if others[i] == *name {
            return true;
        }
        i = i + 1;
    }
    false
}

/// The refusal, if any, of a command from `session` for seat `player_id`:
/// the connection must have joined and hold that seat.
pub open spec fn seat_refusal(session: Option<SessionSeat>, player_id: PlayerId) -> Option<
    SessionRefusal,
> {
    match session {
        None => Some(SessionRefusal::NotJoined),
        Some(seat) => if seat.player_id == Some(player_id) {
            None
        } else {
            Some(SessionRefusal::WrongPlayer)
        },
    }
}

/// The game a command from `session` for seat `player_id` goes to, where
/// `live_games` are the ids of the open games, or why it is refused.
pub fn room_for_player(session: Option<SessionSeat>, player_id: PlayerId, live_games: &Vec<GameId>) -> (room: Result<GameId, SessionRefusal>)
    ensures
        room == match seat_refusal(session, player_id) {
            Some(refusal) => Err(refusal),
            None => match session.unwrap().game_id {
                None => Err(SessionRefusal::NoGame),
                Some(game_id) => if live_games@.contains(game_id) {
                    Ok(game_id)
                } else {
                    Err(SessionRefusal::GameGone)
                },
            },
        },
{
    let seat = match session {
        None => return Err(SessionRefusal::NotJoined),
        Some(seat) => seat,
    };
    let holds_seat = match seat.player_id {
        Some(id) => id == player_id,
        None => false,
    };
    if !holds_seat {
        return Err(SessionRefusal::WrongPlayer);
    }
    let game_id = match seat.game_id {
        None => return Err(SessionRefusal::NoGame),
        Some(game_id) => game_id,
    };
    let mut i: usize = 0;
    while i < live_games.len()
        invariant
            i <= live_games@.len(),
            session == Some(seat),
            seat.player_id == Some(player_id),
            seat.game_id == Some(game_id),
            forall|j: int| 0 <= j < i ==> #[trigger] live_games@[j] != game_id,
        decreases live_games.len() - i,
    {
        if live_games[i] == game_id {
            assert(live_games@[i as int] == game_id);
            return Ok(game_id);
        }
        i = i + 1;
    }
    Err(SessionRefusal::GameGone)
}

/// Whether a disconnect from `session` for seat `player_id` is refused.
pub fn check_disconnect(session: Option<SessionSeat>, player_id: PlayerId) -> (checked: Result<(), SessionRefusal>)
    ensures
        checked == match seat_refusal(session, player_id) {
            Some(SessionRefusal::NotJoined) => Err(SessionRefusal::NotJoinedToDisconnect),
            Some(refusal) => Err(refusal),
            None => Ok(()),
        },
{
    match session {
        None => Err(SessionRefusal::NotJoinedToDisconnect),
        Some(seat) => match seat.player_id {
            Some(id) => if id == player_id {
                Ok(())
            } else {
                Err(SessionRefusal::WrongPlayer)
            },
            None => Err(SessionRefusal::WrongPlayer),
        },
    }
}

/// A placement with sequence number `seq` retries one already applied for
/// `session`.
pub open spec fn is_retry(seq: Option<u32>, session: Option<SessionSeat>) -> bool {
    seq is Some && session is Some && session.unwrap().last_applied_seq == seq
}

/// Whether a placement with sequence number `seq` retries one already
/// applied for `session`: such a placement is only acknowledged again.
pub fn is_retried_placement(seq: Option<u32>, session: Option<SessionSeat>) -> (retried: bool)
    ensures
        retried == is_retry(seq, session),
{
    match (seq, session) {
        (Some(n), Some(seat)) => match seat.last_applied_seq {
            Some(applied) => applied == n,
            None => false,
        },
        _ => false,
    }
}

/// How long a seat stays reserved for a player who dropped out of a live
/// match, in milliseconds.
pub const RECONNECT_GRACE_MS: u64 = 90_000;

/// What the seat bookkeeping reads of a game room.
pub struct RoomSeats {
    pub id: GameId,
    /// The match is paused until its disconnected players return.
    pub waiting_for_reconnect: bool,
    pub players: Vec<PlayerInfo>,
}

/// A seat kept for a disconnected player until `deadline_ms`.
#[derive(Clone, Copy, Debug, PartialEq, Eq, Structural)]
pub struct ReservedSeat {
    pub game_id: GameId,
    pub player_id: PlayerId,
    pub deadline_ms: u64,
}

/// A room whose match goes back to the lobby: `player_name` did not return
/// in time.
#[derive(Debug, PartialEq, Eq)]
pub struct SeatLapse {
    pub game_id: GameId,
    pub player_name: String,
}

/// The key of the seat of `player_id` in game `game_id`.
pub open spec fn seat_key(game_id: GameId, player_id: PlayerId) -> u64 {
    (game_id as u64 * 256 + player_id.0 as u64) as u64
}

impl Keyed for ReservedSeat {
    open spec fn key(self) -> u64 {
        seat_key(self.game_id, self.player_id)
    }
}

/// Distinct seats have distinct keys.
pub proof fn lemma_seat_key_injective(g1: GameId, p1: PlayerId, g2: GameId, p2: PlayerId)
    ensures
        seat_key(g1, p1) == seat_key(g2, p2) ==> g1 == g2 && p1 == p2,
{
    let a = g1 as int;
    let b = p1.0 as int;
    let c = g2 as int;
    let e = p2.0 as int;
    assert(a * 256 + b < 0x1_0000_0000_0000_0000) by (nonlinear_arith)
        requires
            0 <= a < 0x1_0000_0000,
            0 <= b < 256,
    ;
    assert(c * 256 + e < 0x1_0000_0000_0000_0000) by (nonlinear_arith)
        requires
            0 <= c < 0x1_0000_0000,
            0 <= e < 256,
    ;
    if a * 256 + b == c * 256 + e {
        assert(a == c && b == e) by (nonlinear_arith)
            requires
                a * 256 + b == c * 256 + e,
                0 <= b < 256,
                0 <= e < 256,
        ;
    }
}

/// No two rooms share an id.
pub open spec fn distinct_rooms(rooms: Seq<RoomSeats>) -> bool {
    forall|i: int, j: int|
        0 <= i < rooms.len() && 0 <= j < rooms.len() && i != j ==> #[trigger] rooms[i].id
            != #[trigger] rooms[j].id
}

/// Room `game_id` is open and waits for its disconnected players.
pub open spec fn waits(rooms: Seq<RoomSeats>, game_id: GameId) -> bool {
    exists|i: int| 0 <= i < rooms.len() && #[trigger] rooms[i].id == game_id && rooms[i].waiting_for_reconnect
}

/// No open room has id `game_id`.
pub open spec fn gone(rooms: Seq<RoomSeats>, game_id: GameId) -> bool {
    forall|i: int| 0 <= i < rooms.len() ==> #[trigger] rooms[i].id != game_id
}

/// `player_id` is seated among `players` and disconnected.
pub open spec fn awaits(players: Seq<PlayerInfo>, player_id: PlayerId) -> bool {
    exists|j: int| 0 <= j < players.len() && #[trigger] players[j].id == player_id && !players[j].connected
}

/// Some waiting room has a disconnected player whose seat has key `k`.
pub open spec fn awaited_key(rooms: Seq<RoomSeats>, k: u64) -> bool {
    exists|i: int, j: int|
        0 <= i < rooms.len() && 0 <= j < rooms[i].players@.len() && rooms[i].waiting_for_reconnect
            && !rooms[i].players@[j].connected && #[trigger] seat_key(
            rooms[i].id,
            rooms[i].players@[j].id,
        ) == k
}

/// A seat reserved at `now` for the seat with key `k`.
pub open spec fn new_seat(k: u64, now: u64) -> ReservedSeat {
    ReservedSeat {
        game_id: (k / 256) as u32,
        player_id: PlayerId((k % 256) as u8),
        deadline_ms: (now + RECONNECT_GRACE_MS) as u64,
    }
}

/// A seat survives the refresh: its room still waits, or is gone.
pub open spec fn seat_kept(rooms: Seq<RoomSeats>, seat: ReservedSeat) -> bool {
    waits(rooms, seat.game_id) || gone(rooms, seat.game_id)
}

/// The seats reserved after a refresh at `now`: a seat whose room still waits
/// for reconnects, or whose room is gone, stays as it was until its deadline
/// passes; a disconnected player of a waiting room without a seat gets one
/// until `now` plus the grace period.
pub open spec fn refreshed(rooms: Seq<RoomSeats>, seats: Map<u64, ReservedSeat>, now: u64) -> Map<
    u64,
    ReservedSeat,
> {
    Map::new(
        |k: u64|
            (seats.contains_key(k) && seat_kept(rooms, seats[k]) && seats[k].deadline_ms > now) || (
            !seats.contains_key(k) && awaited_key(rooms, k)),
        |k: u64|
            if seats.contains_key(k) {
                seats[k]
            } else {
                new_seat(k, now)
            },
    )
}

/// The index of the room with id `game_id`.
pub open spec fn room_at(rooms: Seq<RoomSeats>, game_id: GameId) -> int {
    choose|i: int| 0 <= i < rooms.len() && #[trigger] rooms[i].id == game_id
}

/// `seat` lapses: its deadline passed while its room still waited for that
/// disconnected player.
pub open spec fn seat_lapses(rooms: Seq<RoomSeats>, seat: ReservedSeat, now: u64) -> bool {
    &&& seat.deadline_ms <= now
    &&& waits(rooms, seat.game_id)
    &&& awaits(rooms[room_at(rooms, seat.game_id)].players@, seat.player_id)
}

/// The name of the first player seated as `player_id`.
pub open spec fn name_of(players: Seq<PlayerInfo>, player_id: PlayerId) -> Seq<char> {
    players[first_player_with_id(players, player_id)].name@
}

/// `lapse` reports a seat of `seats` that lapses.
pub open spec fn reports(rooms: Seq<RoomSeats>, seats: Map<u64, ReservedSeat>, now: u64, lapse: SeatLapse) -> bool {
    exists|k: u64|
        #[trigger] seats.contains_key(k) && seat_lapses(rooms, seats[k], now) && seats[k].game_id
            == lapse.game_id && lapse.player_name@ == name_of(
            rooms[room_at(rooms, lapse.game_id)].players@,
            seats[k].player_id,
        )
}

impl SeatLapse {
    pub open spec fn text(self) -> Seq<char> {
        self.player_name@ + " failed to reconnect. Set ready to restart."@
    }

    /// The notice the room shows once it is back in the lobby.
    pub fn message(&self) -> (text: String)
        ensures
            text@ == self.text(),
    {
        let mut text = self.player_name.clone();
        text.append(" failed to reconnect. Set ready to restart.");
        text
    }
}

/// The position of the room with id `game_id`.
fn find_room(rooms: &Vec<RoomSeats>, game_id: GameId) -> (found: Option<usize>)
    requires
        distinct_rooms(rooms@),
    ensures
        match found {
            Some(i) => i < rooms@.len() && rooms@[i as int].id == game_id && room_at(rooms@, game_id)
                == i,
            None => gone(rooms@, game_id),
        },
{
    let mut i: usize = 0;
    while i < rooms.len()
        invariant
            i <= rooms@.len(),
            distinct_rooms(rooms@),
            forall|j: int| 0 <= j < i ==> #[trigger] rooms@[j].id != game_id,
        decreases rooms.len() - i,
    {
        if rooms[i].id == game_id {
            let ghost c = room_at(rooms@, game_id);
            assert(rooms@[i as int].id == game_id);
            assert(rooms@[c].id == game_id);
            return Some(i);
        }
        i = i + 1;
    }
    None
}

/// Whether `player_id` is seated among `players` and disconnected.
fn awaits_player(players: &Vec<PlayerInfo>, player_id: PlayerId) -> (waiting: bool)
    ensures
        waiting == awaits(players@, player_id),
{
    let mut j: usize = 0;
    while j < players.len()
        invariant
            j <= players@.len(),
            forall|k: int| 0 <= k < j ==> !(#[trigger] players@[k].id == player_id && !players@[k].connected),
        decreases players.len() - j,
    {
        if players[j].id == player_id && !players[j].connected {
            assert(players@[j as int].id == player_id);
            return true;
        }
        j = j + 1;
    }
    false
}

/// Whether `seats` holds a seat with key `k`.
fn holds_seat(seats: &Vec<ReservedSeat>, game_id: GameId, player_id: PlayerId) -> (held: bool)
    ensures
        held == has_key(seats@, seat_key(game_id, player_id)),
{
    let mut i: usize = 0;
    while i < seats.len()
        invariant
            i <= seats@.len(),
            forall|j: int| 0 <= j < i ==> #[trigger] seats@[j].key() != seat_key(game_id, player_id),
        decreases seats.len() - i,
    {
        proof {
            lemma_seat_key_injective(seats@[i as int].game_id, seats@[i as int].player_id, game_id, player_id);
        }
        if seats[i].game_id == game_id && seats[i].player_id == player_id {
            assert(seats@[i as int].key() == seat_key(game_id, player_id));
            return true;
        }
        i = i + 1;
    }
    false
}

/// Whether some lapse in `lapsed` is for game `game_id`.
fn lapsed_game(lapsed: &Vec<SeatLapse>, game_id: GameId) -> (found: bool)
    ensures
        found == exists|a: int| 0 <= a < lapsed@.len() && #[trigger] lapsed@[a].game_id == game_id,
{
    let mut a: usize = 0;
    while a < lapsed.len()
        invariant
            a <= lapsed@.len(),
            forall|b: int| 0 <= b < a ==> #[trigger] lapsed@[b].game_id != game_id,
        decreases lapsed.len() - a,
    {
        if lapsed[a].game_id == game_id {
            assert(lapsed@[a as int].game_id == game_id);
            return true;
        }
        a = a + 1;
    }
    false
}

pub open spec fn kept_in(rooms: Seq<RoomSeats>) -> spec_fn(ReservedSeat) -> bool {
    |seat: ReservedSeat| seat_kept(rooms, seat)
}

/// The seats whose room still waits for reconnects or is gone, in order.
fn keep_live_seats(rooms: &Vec<RoomSeats>, seats: &Vec<ReservedSeat>) -> (kept: Vec<ReservedSeat>)
    requires
        distinct_rooms(rooms@),
    ensures
        kept@ == seats@.filter(kept_in(rooms@)),
{
    let mut kept: Vec<ReservedSeat> = Vec::new();
    let mut i: usize = 0;
    proof {
        reveal(Seq::filter);
        assert(seats@.take(0) =~= Seq::<ReservedSeat>::empty());
    }
    while i < seats.len()
        invariant
            i <= seats@.len(),
            distinct_rooms(rooms@),
            kept@ == seats@.take(i as int).filter(kept_in(rooms@)),
        decreases seats.len() - i,
    {
        let seat = seats[i];
        let keep = match find_room(rooms, seat.game_id) {
            Some(r) => rooms[r].waiting_for_reconnect,
            None => true,
        };
        proof {
            reveal(Seq::filter);
            assert(seats@.take(i + 1).drop_last() =~= seats@.take(i as int));
            assert(seats@.take(i + 1).last() == seat);
            if keep {
                if !gone(rooms@, seat.game_id) {
                    let r = room_at(rooms@, seat.game_id);
                    assert(rooms@[r].waiting_for_reconnect);
                }
            } else {
                let r = room_at(rooms@, seat.game_id);
                assert(!gone(rooms@, seat.game_id));
                assert forall|j: int| 0 <= j < rooms@.len() && #[trigger] rooms@[j].id == seat.game_id
                    implies !rooms@[j].waiting_for_reconnect by {
                    if j != r {
                        assert(rooms@[j].id != rooms@[r].id);
                    }
                }
            }
        }
        if keep {
            kept.push(seat);
        }
        i = i + 1;
    }
    proof {
        assert(seats@.take(seats@.len() as int) =~= seats@);
    }
    kept
}

/// A disconnected player of a waiting room, among the first `i` rooms and the
/// first `j` players of room `i`, has the seat with key `k`.
spec fn awaited_upto(rooms: Seq<RoomSeats>, i: int, j: int, k: u64) -> bool {
    exists|a: int, b: int|
        0 <= a < rooms.len() && 0 <= b < rooms[a].players@.len() && (a < i || (a == i && b < j))
            && rooms[a].waiting_for_reconnect && !rooms[a].players@[b].connected && #[trigger] seat_key(
            rooms[a].id,
            rooms[a].players@[b].id,
        ) == k
}

/// The seats `base` with one added, until `now` plus the grace period, for
/// each disconnected player of a waiting room met so far that has none.
spec fn reserved_upto(
    rooms: Seq<RoomSeats>,
    base: Map<u64, ReservedSeat>,
    i: int,
    j: int,
    now: u64,
) -> Map<u64, ReservedSeat> {
    Map::new(
        |k: u64| base.contains_key(k) || awaited_upto(rooms, i, j, k),
        |k: u64|
            if base.contains_key(k) {
                base[k]
            } else {
                new_seat(k, now)
            },
    )
}

proof fn lemma_new_seat_decodes(game_id: GameId, player_id: PlayerId, now: u64)
    requires
        now + RECONNECT_GRACE_MS <= u64::MAX,
    ensures
        new_seat(seat_key(game_id, player_id), now) == (ReservedSeat {
            game_id,
            player_id,
            deadline_ms: (now + RECONNECT_GRACE_MS) as u64,
        }),
{
    let a = game_id as int;
    let b = player_id.0 as int;
    assert(a * 256 + b < 0x1_0000_0000_0000_0000 && (a * 256 + b) / 256 == a && (a * 256 + b) % 256
        == b) by (nonlinear_arith)
        requires
            0 <= a < 0x1_0000_0000,
            0 <= b < 256,
    ;
    assert(PlayerId((b % 256) as u8) == player_id);
}

proof fn lemma_push_new_key<E: Keyed>(s: Seq<E>, e: E)
    requires
        distinct_keys(s),
        !has_key(s, e.key()),
    ensures
        distinct_keys(s.push(e)),
        key_map(s.push(e)) == key_map(s).insert(e.key(), e),
{
    assert(s.push(e).drop_last() =~= s);
    assert forall|a: int, b: int|
        0 <= a < s.push(e).len() && 0 <= b < s.push(e).len() && a != b implies #[trigger] s.push(
        e,
    )[a].key() != #[trigger] s.push(e)[b].key() by {
        if a < s.len() && b < s.len() {
            assert(s.push(e)[a] == s[a] && s.push(e)[b] == s[b]);
        } else if a < s.len() {
            assert(s.push(e)[a] == s[a]);
        } else {
            assert(s.push(e)[b] == s[b]);
        }
    }
}

proof fn lemma_awaited_step(rooms: Seq<RoomSeats>, i: int, j: int, k: u64)
    requires
        0 <= i < rooms.len(),
        0 <= j < rooms[i].players@.len(),
    ensures
        awaited_upto(rooms, i, j + 1, k) <==> (awaited_upto(rooms, i, j, k) || (
        rooms[i].waiting_for_reconnect && !rooms[i].players@[j].connected && seat_key(
            rooms[i].id,
            rooms[i].players@[j].id,
        ) == k)),
{
    if awaited_upto(rooms, i, j + 1, k) {
        let (a, b) = choose|a: int, b: int|
            0 <= a < rooms.len() && 0 <= b < rooms[a].players@.len() && (a < i || (a == i && b < j
                + 1)) && rooms[a].waiting_for_reconnect && !rooms[a].players@[b].connected
                && #[trigger] seat_key(rooms[a].id, rooms[a].players@[b].id) == k;
        if !(a == i && b == j) {
            assert(awaited_upto(rooms, i, j, k));
        }
    }
    if rooms[i].waiting_for_reconnect && !rooms[i].players@[j].connected && seat_key(
        rooms[i].id,
        rooms[i].players@[j].id,
    ) == k {
        assert(awaited_upto(rooms, i, j + 1, k));
    }
    if awaited_upto(rooms, i, j, k) {
        let (a, b) = choose|a: int, b: int|
            0 <= a < rooms.len() && 0 <= b < rooms[a].players@.len() && (a < i || (a == i && b < j))
                && rooms[a].waiting_for_reconnect && !rooms[a].players@[b].connected
                && #[trigger] seat_key(rooms[a].id, rooms[a].players@[b].id) == k;
        assert(awaited_upto(rooms, i, j + 1, k));
    }
}

proof fn lemma_awaited_next_room(rooms: Seq<RoomSeats>, i: int, k: u64)
    requires
        0 <= i < rooms.len(),
    ensures
        awaited_upto(rooms, i + 1, 0, k) <==> awaited_upto(rooms, i, rooms[i].players@.len() as int, k),
{
    if awaited_upto(rooms, i + 1, 0, k) {
        let (a, b) = choose|a: int, b: int|
            0 <= a < rooms.len() && 0 <= b < rooms[a].players@.len() && (a < i + 1 || (a == i + 1
                && b < 0)) && rooms[a].waiting_for_reconnect && !rooms[a].players@[b].connected
                && #[trigger] seat_key(rooms[a].id, rooms[a].players@[b].id) == k;
        assert(awaited_upto(rooms, i, rooms[i].players@.len() as int, k));
    }
    if awaited_upto(rooms, i, rooms[i].players@.len() as int, k) {
        let (a, b) = choose|a: int, b: int|
            0 <= a < rooms.len() && 0 <= b < rooms[a].players@.len() && (a < i || (a == i && b
                < rooms[i].players@.len())) && rooms[a].waiting_for_reconnect
                && !rooms[a].players@[b].connected && #[trigger] seat_key(
                rooms[a].id,
                rooms[a].players@[b].id,
            ) == k;
        assert(awaited_upto(rooms, i + 1, 0, k));
    }
}

proof fn lemma_awaited_all(rooms: Seq<RoomSeats>, k: u64)
    ensures
        awaited_upto(rooms, rooms.len() as int, 0, k) <==> awaited_key(rooms, k),
        !awaited_upto(rooms, 0, 0, k),
{
    if awaited_key(rooms, k) {
        let (a, b) = choose|a: int, b: int|
            0 <= a < rooms.len() && 0 <= b < rooms[a].players@.len() && rooms[a].waiting_for_reconnect
                && !rooms[a].players@[b].connected && #[trigger] seat_key(
                rooms[a].id,
                rooms[a].players@[b].id,
            ) == k;
        assert(awaited_upto(rooms, rooms.len() as int, 0, k));
    }
}

/// Adds a seat until `now` plus the grace period for each disconnected player
/// of a waiting room that has none.
fn reserve_awaited(rooms: &Vec<RoomSeats>, seats: &mut Vec<ReservedSeat>, now_ms: u64)
    requires
        distinct_keys(old(seats)@),
        now_ms + RECONNECT_GRACE_MS <= u64::MAX,
    ensures
        distinct_keys(final(seats)@),
        key_map(final(seats)@) == Map::new(
            |k: u64| key_map(old(seats)@).contains_key(k) || awaited_key(rooms@, k),
            |k: u64|
                if key_map(old(seats)@).contains_key(k) {
                    key_map(old(seats)@)[k]
                } else {
                    new_seat(k, now_ms)
                },
        ),
{
    let ghost base = key_map(seats@);
    proof {
        assert forall|k: u64| #[trigger] reserved_upto(rooms@, base, 0, 0, now_ms).contains_key(k)
            <==> base.contains_key(k) by {
            lemma_awaited_all(rooms@, k);
        }
        assert(key_map(seats@) =~= reserved_upto(rooms@, base, 0, 0, now_ms));
    }
    let mut i: usize = 0;
    while i < rooms.len()
        invariant
            i <= rooms@.len(),
            now_ms + RECONNECT_GRACE_MS <= u64::MAX,
            distinct_keys(seats@),
            key_map(seats@) == reserved_upto(rooms@, base, i as int, 0, now_ms),
        decreases rooms.len() - i,
    {
        let room = &rooms[i];
        let mut j: usize = 0;
        while j < room.players.len()
            invariant
                i < rooms@.len(),
                *room == rooms@[i as int],
                j <= room.players@.len(),
                now_ms + RECONNECT_GRACE_MS <= u64::MAX,
                distinct_keys(seats@),
                key_map(seats@) == reserved_upto(rooms@, base, i as int, j as int, now_ms),
            decreases room.players.len() - j,
        {
            let player = &room.players[j];
            let ghost before = seats@;
            let ghost kk = seat_key(room.id, player.id);
            if room.waiting_for_reconnect && !player.connected && !holds_seat(seats, room.id, player.id) {
                let seat = ReservedSeat {
                    game_id: room.id,
                    player_id: player.id,
                    deadline_ms: now_ms + RECONNECT_GRACE_MS,
                };
                proof {
                    lemma_push_new_key(before, seat);
                    lemma_new_seat_decodes(room.id, player.id, now_ms);
                    crate::keyed::lemma_key_map_dom(before, kk);
                }
                seats.push(seat);
                proof {
                    assert forall|k: u64| #[trigger] reserved_upto(rooms@, base, i as int, j + 1, now_ms).contains_key(k)
                        <==> key_map(seats@).contains_key(k) by {
                        lemma_awaited_step(rooms@, i as int, j as int, k);
                    }
                    assert(key_map(seats@) =~= reserved_upto(rooms@, base, i as int, j + 1, now_ms));
                }
            } else {
                proof {
                    if room.waiting_for_reconnect && !player.connected {
                        crate::keyed::lemma_key_map_dom(before, kk);
                    }
                    assert forall|k: u64| #[trigger] reserved_upto(rooms@, base, i as int, j + 1, now_ms).contains_key(k)
                        <==> key_map(seats@).contains_key(k) by {
                        lemma_awaited_step(rooms@, i as int, j as int, k);
                    }
                    assert(key_map(seats@) =~= reserved_upto(rooms@, base, i as int, j + 1, now_ms));
                }
            }
            j = j + 1;
        }
        proof {
            assert forall|k: u64| #[trigger] reserved_upto(rooms@, base, i + 1, 0, now_ms).contains_key(k)
                <==> key_map(seats@).contains_key(k) by {
                lemma_awaited_next_room(rooms@, i as int, k);
            }
            assert(key_map(seats@) =~= reserved_upto(rooms@, base, i + 1, 0, now_ms));
        }
        i = i + 1;
    }
    proof {
        assert forall|k: u64| #[trigger] key_map(seats@).contains_key(k) <==> (base.contains_key(k)
            || awaited_key(rooms@, k)) by {
            lemma_awaited_all(rooms@, k);
        }
    }
}

pub open spec fn alive_at(now: u64) -> spec_fn(ReservedSeat) -> bool {
    |seat: ReservedSeat| seat.deadline_ms > now
}

/// A seat of `seats` lapses in the room of `lapse`, for the player it names.
pub open spec fn lapse_witnessed(
    rooms: Seq<RoomSeats>,
    seats: Seq<ReservedSeat>,
    now: u64,
    lapse: SeatLapse,
) -> bool {
    exists|b: int|
        0 <= b < seats.len() && seat_lapses(rooms, #[trigger] seats[b], now) && seats[b].game_id
            == lapse.game_id && lapse.player_name@ == name_of(
            rooms[room_at(rooms, lapse.game_id)].players@,
            seats[b].player_id,
        )
}

/// `lapsed` reports, once per room, exactly the rooms of the seats of `seats`
/// that lapse at `now`, each with the name of a player whose seat lapsed.
pub open spec fn lapses_reported(
    rooms: Seq<RoomSeats>,
    seats: Seq<ReservedSeat>,
    now: u64,
    lapsed: Seq<SeatLapse>,
) -> bool {
    &&& forall|a: int, b: int|
        0 <= a < b < lapsed.len() ==> #[trigger] lapsed[a].game_id != #[trigger] lapsed[b].game_id
    &&& forall|a: int| 0 <= a < lapsed.len() ==> lapse_witnessed(rooms, seats, now, #[trigger] lapsed[a])
    &&& forall|b: int|
        0 <= b < seats.len() && seat_lapses(rooms, #[trigger] seats[b], now) ==> exists|a: int|
            0 <= a < lapsed.len() && #[trigger] lapsed[a].game_id == seats[b].game_id
}

/// Releases the seats whose deadline passed by `now`: the seats that remain,
/// and the rooms that go back to the lobby because a seat lapsed.
#[verifier::spinoff_prover]
#[verifier::rlimit(30)]
fn release_lapsed(rooms: &Vec<RoomSeats>, seats: &Vec<ReservedSeat>, now_ms: u64) -> (released: (
    Vec<ReservedSeat>,
    Vec<SeatLapse>,
))
    requires
        distinct_rooms(rooms@),
    ensures
        released.0@ == seats@.filter(alive_at(now_ms)),
        lapses_reported(rooms@, seats@, now_ms, released.1@),
{
    let mut still: Vec<ReservedSeat> = Vec::new();
    let mut lapsed: Vec<SeatLapse> = Vec::new();
    let mut i: usize = 0;
    proof {
        reveal(Seq::filter);
        assert(seats@.take(0) =~= Seq::<ReservedSeat>::empty());
    }
    while i < seats.len()
        invariant
            i <= seats@.len(),
            distinct_rooms(rooms@),
            still@ == seats@.take(i as int).filter(alive_at(now_ms)),
            lapses_reported(rooms@, seats@.take(i as int), now_ms, lapsed@),
        decreases seats.len() - i,
    {
        let seat = seats[i];
        let ghost done = seats@.take(i as int);
        let ghost next = seats@.take(i + 1);
        proof {
            reveal(Seq::filter);
            assert(next.drop_last() =~= done);
            assert(next.last() == seat);
            assert forall|b: int| 0 <= b < done.len() implies #[trigger] next[b] == done[b] by {}
        }
        if seat.deadline_ms <= now_ms {
            let ghost before = lapsed@;
            match find_room(rooms, seat.game_id) {
                Some(r) => {
                    let room = &rooms[r];
                    if room.waiting_for_reconnect && !lapsed_game(&lapsed, seat.game_id)
                        && awaits_player(&room.players, seat.player_id) {
                        proof {
                            lemma_first_player_with_id(room.players@, seat.player_id);
                            let w = choose|w: int| 0 <= w < room.players@.len() && #[trigger] room.players@[w].id == seat.player_id && !room.players@[w].connected;
                            assert(room.players@[w].id == seat.player_id);
                        }
                        let k = find_player(&room.players, seat.player_id).unwrap();
                        let lapse = SeatLapse {
                            game_id: seat.game_id,
                            player_name: room.players[k].name.clone(),
                        };
                        lapsed.push(lapse);
                        proof {
                            assert(waits(rooms@, seat.game_id));
                            assert(seat_lapses(rooms@, next[i as int], now_ms));
                            assert forall|a: int| 0 <= a < lapsed@.len() implies lapse_witnessed(
                                rooms@,
                                next,
                                now_ms,
                                #[trigger] lapsed@[a],
                            ) by {
                                if a < before.len() {
                                    assert(lapsed@[a] == before[a]);
                                    assert(lapse_witnessed(rooms@, done, now_ms, before[a]));
                                    let b = choose|b: int|
                                        0 <= b < done.len() && seat_lapses(rooms@, #[trigger] done[b], now_ms)
                                            && done[b].game_id == before[a].game_id
                                            && before[a].player_name@ == name_of(
                                            rooms@[room_at(rooms@, before[a].game_id)].players@,
                                            done[b].player_id,
                                        );
                                    assert(next[b] == done[b]);
                                } else {
                                    assert(next[i as int] == seat);
                                }
                            }
                            assert forall|b: int|
                                0 <= b < next.len() && seat_lapses(rooms@, #[trigger] next[b], now_ms)
                                    implies exists|a: int|
                                    0 <= a < lapsed@.len() && #[trigger] lapsed@[a].game_id
                                        == next[b].game_id by {
                                if b < done.len() {
                                    assert(next[b] == done[b]);
                                    let a = choose|a: int|
                                        0 <= a < before.len() && #[trigger] before[a].game_id
                                            == done[b].game_id;
                                    assert(lapsed@[a] == before[a]);
                                } else {
                                    assert(lapsed@[before.len() as int].game_id == seat.game_id);
                                }
                            }
                            assert forall|a: int, b: int|
                                0 <= a < b < lapsed@.len() implies #[trigger] lapsed@[a].game_id
                                    != #[trigger] lapsed@[b].game_id by {
                                if b < before.len() {
                                    assert(lapsed@[a] == before[a] && lapsed@[b] == before[b]);
                                } else {
                                    assert(lapsed@[a] == before[a]);
                                }
                            }
                        }
                    } else {
                        proof {
                            if !room.waiting_for_reconnect {
                                assert forall|j: int| 0 <= j < rooms@.len() && #[trigger] rooms@[j].id
                                    == seat.game_id implies !rooms@[j].waiting_for_reconnect by {
                                    if j != r {
                                        assert(rooms@[j].id != rooms@[r as int].id);
                                    }
                                }
                            }
                            lemma_lapses_unchanged(rooms@, done, seat, now_ms, lapsed@);
                        }
                    }
                },
                None => {
                    proof {
                        lemma_lapses_unchanged(rooms@, done, seat, now_ms, lapsed@);
                    }
                },
            }
        } else {
            still.push(seat);
            proof {
                lemma_lapses_unchanged(rooms@, done, seat, now_ms, lapsed@);
            }
        }
        i = i + 1;
    }
    proof {
        assert(seats@.take(seats@.len() as int) =~= seats@);
    }
    (still, lapsed)
}

/// A seat that does not lapse, or whose room already lapsed, leaves the
/// report as it is.
proof fn lemma_lapses_unchanged(
    rooms: Seq<RoomSeats>,
    done: Seq<ReservedSeat>,
    seat: ReservedSeat,
    now: u64,
    lapsed: Seq<SeatLapse>,
)
    requires
        lapses_reported(rooms, done, now, lapsed),
        seat_lapses(rooms, seat, now) ==> exists|a: int|
            0 <= a < lapsed.len() && #[trigger] lapsed[a].game_id == seat.game_id,
    ensures
        lapses_reported(rooms, done.push(seat), now, lapsed),
{
    let next = done.push(seat);
    assert forall|a: int| 0 <= a < lapsed.len() implies lapse_witnessed(
        rooms,
        next,
        now,
        #[trigger] lapsed[a],
    ) by {
        let b = choose|b: int|
            0 <= b < done.len() && seat_lapses(rooms, #[trigger] done[b], now) && done[b].game_id
                == lapsed[a].game_id && lapsed[a].player_name@ == name_of(
                rooms[room_at(rooms, lapsed[a].game_id)].players@,
                done[b].player_id,
            );
        assert(next[b] == done[b]);
    }
    assert forall|b: int| 0 <= b < next.len() && seat_lapses(rooms, #[trigger] next[b], now)
        implies exists|a: int| 0 <= a < lapsed.len() && #[trigger] lapsed[a].game_id == next[b].game_id by {
        if b < done.len() {
            assert(next[b] == done[b]);
        } else {
            assert(next[b] == seat);
        }
    }
    assert forall|a: int, b: int|
        0 <= a < b < lapsed.len() implies #[trigger] lapsed[a].game_id != #[trigger] lapsed[b].game_id by {
    }
}

/// Refreshes the seats reserved for players who dropped out of live matches
/// at `now_ms`: seats of rooms that stopped waiting are dropped, each
/// disconnected player of a waiting room gets a seat until `now_ms` plus the
/// grace period, and seats whose deadline passed are released. Returns the
/// rooms that go back to the lobby because a player's seat lapsed while the
/// room still waited for them; game lists change exactly when one does.
pub fn update_reconnect_deadlines(
    rooms: &Vec<RoomSeats>,
    pending: &mut Vec<ReservedSeat>,
    now_ms: u64,
) -> (lapsed: Vec<SeatLapse>)
    requires
        distinct_rooms(rooms@),
        distinct_keys(old(pending)@),
        now_ms + RECONNECT_GRACE_MS <= u64::MAX,
    ensures
        distinct_keys(final(pending)@),
        key_map(final(pending)@) == refreshed(rooms@, key_map(old(pending)@), now_ms),
        forall|a: int, b: int|
            0 <= a < b < lapsed@.len() ==> #[trigger] lapsed@[a].game_id != #[trigger] lapsed@[b].game_id,
        forall|a: int|
            0 <= a < lapsed@.len() ==> reports(rooms@, key_map(old(pending)@), now_ms, #[trigger] lapsed@[a]),
        forall|k: u64|
            #[trigger] key_map(old(pending)@).contains_key(k) && seat_lapses(
                rooms@,
                key_map(old(pending)@)[k],
                now_ms,
            ) ==> exists|a: int|
                0 <= a < lapsed@.len() && #[trigger] lapsed@[a].game_id == key_map(
                    old(pending)@,
                )[k].game_id,
{
    let ghost before = key_map(pending@);
    let mut kept = keep_live_seats(rooms, pending);
    proof {
        lemma_filter_key_map(pending@, kept_in(rooms@));
    }
    let ghost live = key_map(kept@);
    reserve_awaited(rooms, &mut kept, now_ms);
    let ghost reserved = key_map(kept@);
    let (still, lapsed) = release_lapsed(rooms, &kept, now_ms);
    proof {
        lemma_filter_key_map(kept@, alive_at(now_ms));
        lemma_key_map_distinct(kept@);
        assert forall|k: u64| #[trigger] reserved.contains_key(k) && reserved[k].deadline_ms <= now_ms
            implies before.contains_key(k) && reserved[k] == before[k] by {
            if !live.contains_key(k) {
                assert(reserved[k] == new_seat(k, now_ms));
            }
        }
        assert forall|k: u64| before.contains_key(k) && !seat_kept(rooms@, before[k])
            implies !#[trigger] awaited_key(rooms@, k) by {
            lemma_key_map_key(pending@, k);
            if awaited_key(rooms@, k) {
                let (a, b) = choose|a: int, b: int|
                    0 <= a < rooms@.len() && 0 <= b < rooms@[a].players@.len()
                        && rooms@[a].waiting_for_reconnect && !rooms@[a].players@[b].connected
                        && #[trigger] seat_key(rooms@[a].id, rooms@[a].players@[b].id) == k;
                lemma_seat_key_injective(
                    rooms@[a].id,
                    rooms@[a].players@[b].id,
                    before[k].game_id,
                    before[k].player_id,
                );
                assert(waits(rooms@, before[k].game_id));
            }
        }
        assert(key_map(still@) =~= refreshed(rooms@, before, now_ms));
        assert forall|a: int| 0 <= a < lapsed@.len() implies reports(
            rooms@,
            before,
            now_ms,
            #[trigger] lapsed@[a],
        ) by {
            assert(lapse_witnessed(rooms@, kept@, now_ms, lapsed@[a]));
            let b = choose|b: int|
                0 <= b < kept@.len() && seat_lapses(rooms@, #[trigger] kept@[b], now_ms)
                    && kept@[b].game_id == lapsed@[a].game_id && lapsed@[a].player_name@ == name_of(
                    rooms@[room_at(rooms@, lapsed@[a].game_id)].players@,
                    kept@[b].player_id,
                );
            let k = kept@[b].key();
            assert(reserved.contains_key(k) && reserved[k] == kept@[b]);
        }
        assert forall|k: u64| #[trigger] before.contains_key(k) && seat_lapses(rooms@, before[k], now_ms)
            implies exists|a: int| 0 <= a < lapsed@.len() && #[trigger] lapsed@[a].game_id
            == before[k].game_id by {
            assert(live.contains_key(k));
            assert(reserved.contains_key(k));
            crate::keyed::lemma_key_map_dom(kept@, k);
            let b = choose|b: int| 0 <= b < kept@.len() && #[trigger] kept@[b].key() == k;
            assert(reserved[kept@[b].key()] == kept@[b]);
            assert(seat_lapses(rooms@, kept@[b], now_ms));
        }
    }
    *pending = still;
    lapsed
}

/// A player who just dropped out of a room that waits for them gets a seat
/// until the grace period runs out, and at any later refresh before then,
/// while the room still waits, the seat is kept and does not lapse.
pub proof fn lemma_seat_kept_through_grace(
    rooms: Seq<RoomSeats>,
    seats: Map<u64, ReservedSeat>,
    game_id: GameId,
    player_id: PlayerId,
    now: u64,
    later: u64,
)
    requires
        !seats.contains_key(seat_key(game_id, player_id)),
        awaited_key(rooms, seat_key(game_id, player_id)),
        now <= later < now + RECONNECT_GRACE_MS,
        now + RECONNECT_GRACE_MS <= u64::MAX,
    ensures
        refreshed(rooms, seats, now).contains_key(seat_key(game_id, player_id)),
        refreshed(rooms, seats, now)[seat_key(game_id, player_id)] == (ReservedSeat {
            game_id,
            player_id,
            deadline_ms: (now + RECONNECT_GRACE_MS) as u64,
        }),
        refreshed(rooms, refreshed(rooms, seats, now), later).contains_key(
            seat_key(game_id, player_id),
        ),
        !seat_lapses(
            rooms,
            refreshed(rooms, refreshed(rooms, seats, now), later)[seat_key(game_id, player_id)],
            later,
        ),
{
    let k = seat_key(game_id, player_id);
    lemma_new_seat_decodes(game_id, player_id, now);
    let (a, b) = choose|a: int, b: int|
        0 <= a < rooms.len() && 0 <= b < rooms[a].players@.len() && rooms[a].waiting_for_reconnect
            && !rooms[a].players@[b].connected && #[trigger] seat_key(
            rooms[a].id,
            rooms[a].players@[b].id,
        ) == k;
    lemma_seat_key_injective(rooms[a].id, rooms[a].players@[b].id, game_id, player_id);
    assert(waits(rooms, game_id));
    assert(seat_kept(rooms, new_seat(k, now)));
}

/// A connection the server keeps: the name it plays under, its seat, and
/// when it was last heard from.
#[derive(Debug, PartialEq, Eq)]
pub struct ClientSession {
    pub name: String,
    pub seat: SessionSeat,
    pub last_seen_ms: u64,
}

/// What happens to a connection's session.
pub enum SessionEvent {
    /// The client was admitted under `name` (see [`check_join`]).
    Admitted { name: String },
    /// The client sent a command that the server takes in.
    Heard,
    /// The match applied the client's placement with sequence number `seq`.
    PlacementApplied { seq: Option<u32> },
    /// The client resent a placement already applied (see
    /// [`is_retried_placement`]).
    PlacementRetried { seq: Option<u32> },
    /// The client took the seat of `player` in game `game_id`.
    Seated { game_id: GameId, player: PlayerInfo },
    /// The client left its game.
    Unseated,
}

/// What the server answers a session event with.
#[derive(Debug, PartialEq, Eq)]
pub enum SessionReply {
    Nothing,
    /// The client is connected under `name`.
    Connected { name: String },
    /// The placement with sequence number `seq` was applied.
    Ack { seq: Option<u32> },
    /// The client sits as `player` in game `game_id`.
    Welcome { game_id: GameId, player: PlayerInfo },
    /// The client has not joined the lobby server.
    NotInLobby,
}

/// The seat of a connection that has just joined the lobby.
pub open spec fn lobby_seat() -> SessionSeat {
    SessionSeat { game_id: None, player_id: None, last_applied_seq: None }
}

/// Takes a session event at `now_ms`: returns the connection's session
/// afterwards, and the answer to send. An admitted client keeps the seat of
/// the session it already had, or starts with none, under its new name; a
/// client heard from is marked seen; an applied placement becomes the last
/// applied one and is acknowledged when it carries a sequence number; a
/// retried one is acknowledged again and changes nothing; a client seated in
/// a game holds that game and player and is welcomed, or is told to join the
/// lobby first; a client leaving its game gives up game and player when it
/// held both.
pub fn session_step(session: Option<ClientSession>, event: SessionEvent, now_ms: u64) -> (stepped: (
    Option<ClientSession>,
    SessionReply,
))
    ensures
        match event {
            SessionEvent::Admitted { name } => {
                &&& stepped.0 matches Some(after) && after.name@ == name@ && after.last_seen_ms
                    == now_ms && after.seat == match session {
                    Some(before) => before.seat,
                    None => lobby_seat(),
                }
                &&& stepped.1 matches SessionReply::Connected { name: listed } && listed@ == name@
            },
            SessionEvent::Heard => {
                &&& match session {
                    Some(before) => stepped.0 matches Some(after) && after.name@ == before.name@
                        && after.seat == before.seat && after.last_seen_ms == now_ms,
                    None => stepped.0 is None,
                }
                &&& stepped.1 == SessionReply::Nothing
            },
            SessionEvent::PlacementApplied { seq } => {
                &&& match session {
                    Some(before) => stepped.0 matches Some(after) && after.name@ == before.name@
                        && after.seat == (SessionSeat { last_applied_seq: seq, ..before.seat })
                        && after.last_seen_ms == before.last_seen_ms,
                    None => stepped.0 is None,
                }
                &&& stepped.1 == if seq is Some {
                    SessionReply::Ack { seq }
                } else {
                    SessionReply::Nothing
                }
            },
            SessionEvent::PlacementRetried { seq } => {
                &&& stepped.0 == session
                &&& stepped.1 == SessionReply::Ack { seq }
            },
            SessionEvent::Seated { game_id, player } => match session {
                Some(before) => {
                    &&& stepped.0 matches Some(after) && after.name@ == before.name@ && after.seat == (
                    SessionSeat {
                        game_id: Some(game_id),
                        player_id: Some(player.id),
                        ..before.seat
                    }) && after.last_seen_ms == now_ms
                    &&& stepped.1 == SessionReply::Welcome { game_id, player }
                },
                None => stepped.0 is None && stepped.1 == SessionReply::NotInLobby,
            },
            SessionEvent::Unseated => {
                &&& match session {
                    Some(before) => stepped.0 matches Some(after) && after.name@ == before.name@
                        && after.last_seen_ms == before.last_seen_ms && after.seat == if before.seat.game_id
                        is Some && before.seat.player_id is Some {
                        SessionSeat { game_id: None, player_id: None, ..before.seat }
                    } else {
                        before.seat
                    },
                    None => stepped.0 is None,
                }
                &&& stepped.1 == SessionReply::Nothing
            },
        },
{
    match event {
        SessionEvent::Admitted { name } => {
            let seat = match &session {
                Some(before) => before.seat,
                None => SessionSeat { game_id: None, player_id: None, last_applied_seq: None },
            };
            let listed = name.clone();
            (
                Some(ClientSession { name, seat, last_seen_ms: now_ms }),
                SessionReply::Connected { name: listed },
            )
        },
        SessionEvent::Heard => match session {
            Some(before) => (
                Some(ClientSession { last_seen_ms: now_ms, ..before }),
                SessionReply::Nothing,
            ),
            None => (None, SessionReply::Nothing),
        },
        SessionEvent::PlacementApplied { seq } => {
            let after = match session {
                Some(before) => Some(
                    ClientSession {
                        seat: SessionSeat { last_applied_seq: seq, ..before.seat },
                        ..before
                    },
                ),
                None => None,
            };
            let reply = match seq {
                Some(_) => SessionReply::Ack { seq },
                None => SessionReply::Nothing,
            };
            (after, reply)
        },
        SessionEvent::PlacementRetried { seq } => (session, SessionReply::Ack { seq }),
        SessionEvent::Seated { game_id, player } => match session {
            Some(before) => {
                let seat = SessionSeat {
                    game_id: Some(game_id),
                    player_id: Some(player.id),
                    ..before.seat
                };
                (
                    Some(ClientSession { seat, last_seen_ms: now_ms, ..before }),
                    SessionReply::Welcome { game_id, player },
                )
            },
            None => (None, SessionReply::NotInLobby),
        },
        SessionEvent::Unseated => match session {
            Some(before) => {
                let seat = if before.seat.game_id.is_some() && before.seat.player_id.is_some() {
                    SessionSeat { game_id: None, player_id: None, ..before.seat }
                } else {
                    before.seat
                };
                (Some(ClientSession { seat, ..before }), SessionReply::Nothing)
            },
            None => (None, SessionReply::Nothing),
        },
    }
}

} // verus!
