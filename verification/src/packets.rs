//! Packets exchanged between clients and the match server, and the lobby's
//! list of games.
use vstd::prelude::*;

use crate::model::{
    BuildZone, BuildingKind, GridCell, Lane, MatchPhase, PlayerId, PlayerInfo, RaceKind,
};

verus! {

/// Default match server for plain client launches.
pub const DEFAULT_SERVER_ADDR: &'static str = "127.0.0.1:4000";

/// Clients and servers of different protocol versions refuse each other.
pub const PROTOCOL_VERSION: u16 = 9;

pub type GameId = u32;

/// A client's request to the server.
#[allow(inconsistent_fields)]
#[derive(Debug, PartialEq, Eq)]
pub enum ClientPacket {
    Join { version: u16, name: String },
    ListGames,
    CreateGame { name: String, team_size: Option<usize>, random_factions: bool },
    /// Join a game; a spectator watches read-only and takes no seat.
    JoinGame { game_id: GameId, spectator: bool },
    LeaveGame,
    /// Join the matchmaking queue for a game with this team size.
    QueueForMatch { team_size: usize },
    /// Leave the matchmaking queue.
    LeaveQueue,
    SetReady { player_id: PlayerId, ready: bool },
    SetRace { player_id: PlayerId, race: RaceKind },
    /// `seq` is chosen by the client so that the server applies a placement
    /// at most once; the server acknowledges it.
    PlaceBuilding {
        player_id: PlayerId,
        kind: BuildingKind,
        lane: Lane,
        zone: BuildZone,
        cell: GridCell,
        seq: Option<u32>,
    },
    VoteRematch { player_id: PlayerId },
    Surrender { player_id: PlayerId },
    SellBuilding { player_id: PlayerId, building_id: u64, seq: Option<u32> },
    UpgradeBuilding { player_id: PlayerId, building_id: u64, to: BuildingKind, seq: Option<u32> },
    Disconnect { player_id: PlayerId },
}

/// One entry of the lobby's game list.
#[derive(Debug, PartialEq, Eq)]
pub struct GameInfo {
    pub id: GameId,
    pub name: String,
    pub phase: MatchPhase,
    pub players: usize,
    pub max_players: usize,
}

/// What the lobby reads of a game room.
pub struct RoomSummary {
    pub id: GameId,
    pub name: String,
    pub phase: MatchPhase,
    pub players: Vec<PlayerInfo>,
}

/// Number of connected players among `players`.
pub open spec fn connected_count(players: Seq<PlayerInfo>) -> int
    decreases players.len(),
{
    if players.len() == 0 {
        0
    } else {
        connected_count(players.drop_last()) + if players.last().connected {
            1int
        } else {
            0int
        }
    }
}

/// The list entry of a room: its connected players out of two seats.
pub open spec fn game_info_of(room: RoomSummary) -> GameInfo {
    GameInfo {
        id: room.id,
        name: room.name,
        phase: room.phase,
        players: connected_count(room.players@) as usize,
        max_players: 2,
    }
}

pub open spec fn sorted_by_id(games: Seq<GameInfo>) -> bool {
    forall|i: int, j: int| 0 <= i < j < games.len() ==> #[trigger] games[i].id <= #[trigger] games[j].id
}

/// Whether a list entry is the one of game `id`.
pub open spec fn has_game_id(id: GameId) -> spec_fn(GameInfo) -> bool {
    |game: GameInfo| game.id == id
}

/// Entries with ids above `id` hold no entry of game `id`.
proof fn lemma_no_entry_of(games: Seq<GameInfo>, id: GameId)
    requires
        forall|j: int| 0 <= j < games.len() ==> #[trigger] games[j].id > id,
    ensures
        games.filter(has_game_id(id)) == Seq::<GameInfo>::empty(),
{
    let found = games.filter(has_game_id(id));
    if found.len() > 0 {
        games.lemma_filter_pred(has_game_id(id), 0);
        games.lemma_filter_contains_rev(has_game_id(id), found[0]);
        let j = choose|j: int| 0 <= j < games.len() && games[j] == found[0];
        assert(games[j].id > id);
    }
    assert(found =~= Seq::<GameInfo>::empty());
}

/// Inserting an entry before every entry with a larger id puts it after
/// every entry with its id, and leaves the entries of other ids as they were.
proof fn lemma_insert_after_same_id(before: Seq<GameInfo>, p: int, info: GameInfo, id: GameId)
    requires
        0 <= p <= before.len(),
        forall|j: int| p <= j < before.len() ==> #[trigger] before[j].id > info.id,
    ensures
        before.insert(p, info).filter(has_game_id(id)) == if id == info.id {
            before.filter(has_game_id(id)).push(info)
        } else {
            before.filter(has_game_id(id))
        },
{
    let pred = has_game_id(id);
    let head = before.subrange(0, p);
    let tail = before.subrange(p, before.len() as int);
    assert(before =~= head + tail);
    Seq::filter_distributes_over_add(head, tail, pred);
    Seq::filter_distributes_over_add(head.push(info), tail, pred);
    head.lemma_filter_push(info, pred);
    if id == info.id {
        assert forall|j: int| 0 <= j < tail.len() implies #[trigger] tail[j].id > info.id by {
            assert(tail[j] == before[p + j]);
        }
        lemma_no_entry_of(tail, info.id);
        assert(head.filter(pred) + tail.filter(pred) =~= head.filter(pred));
        assert(head.filter(pred).push(info) + tail.filter(pred) =~= head.filter(pred).push(info));
    }
}

proof fn lemma_connected_count_bound(players: Seq<PlayerInfo>)
    ensures
        0 <= connected_count(players) <= players.len(),
    decreases players.len(),
{
    if players.len() > 0 {
        lemma_connected_count_bound(players.drop_last());
    }
}

fn game_info(room: &RoomSummary) -> (info: GameInfo)
    ensures
        info == game_info_of(*room),
{
    let mut connected: usize = 0;
    let mut i: usize = 0;
    while i < room.players.len()
        invariant
            i <= room.players@.len(),
            connected as int == connected_count(room.players@.take(i as int)),
        decreases room.players.len() - i,
    {
        proof {
            assert(room.players@.take(i + 1).drop_last() =~= room.players@.take(i as int));
            lemma_connected_count_bound(room.players@.take(i as int));
        }
        if room.players[i].connected {
            connected = connected + 1;
        }
        i = i + 1;
    }
    proof {
        assert(room.players@.take(room.players@.len() as int) =~= room.players@);
    }
    GameInfo {
        id: room.id,
        name: room.name.clone(),
        phase: room.phase,
        players: connected,
        max_players: 2,
    }
}

/// The lobby's game list: one entry per room, ordered by game id, rooms with
/// the same id keeping their order.
pub fn game_list(rooms: &Vec<RoomSummary>) -> (games: Vec<GameInfo>)
    ensures
        sorted_by_id(games@),
        games@.to_multiset() == rooms@.map_values(|room: RoomSummary| game_info_of(room)).to_multiset(),
        forall|id: GameId|
            games@.filter(#[trigger] has_game_id(id)) == rooms@.map_values(
                |room: RoomSummary| game_info_of(room),
            ).filter(has_game_id(id)),
{
    let ghost infos = rooms@.map_values(|room: RoomSummary| game_info_of(room));
    let mut games: Vec<GameInfo> = Vec::new();
    proof {
        assert(infos.take(0) =~= games@);
        assert forall|id: GameId| games@.filter(#[trigger] has_game_id(id)) == infos.take(0).filter(
            has_game_id(id),
        ) by {
            assert(games@.filter(has_game_id(id)) =~= Seq::<GameInfo>::empty()) by {
                reveal(Seq::filter);
            }
            assert(infos.take(0).filter(has_game_id(id)) =~= Seq::<GameInfo>::empty()) by {
                reveal(Seq::filter);
            }
        }
    }
    let mut i: usize = 0;
    while i < rooms.len()
        invariant
            i <= rooms@.len(),
            infos == rooms@.map_values(|room: RoomSummary| game_info_of(room)),
            sorted_by_id(games@),
            games@.to_multiset() == infos.take(i as int).to_multiset(),
            forall|id: GameId|
                games@.filter(#[trigger] has_game_id(id)) == infos.take(i as int).filter(
                    has_game_id(id),
                ),
        decreases rooms.len() - i,
    {
        let info = game_info(&rooms[i]);
        let mut p: usize = 0;
        while p < games.len() && games[p].id <= info.id
            invariant
                p <= games@.len(),
                forall|k: int| 0 <= k < p ==> #[trigger] games@[k].id <= info.id,
            decreases games.len() - p,
        {
            p = p + 1;
        }
        let ghost before = games@;
        games.insert(p, info);
        proof {
            assert forall|a: int, b: int| 0 <= a < b < games@.len() implies #[trigger] games@[a].id
                <= #[trigger] games@[b].id by {
                if p < before.len() {
                    assert(before[p as int].id > info.id);
                }
                if a < p && b > p {
                    assert(games@[a] == before[a]);
                    assert(games@[b] == before[b - 1]);
                } else if a < p && b == p {
                    assert(games@[a] == before[a]);
                } else if a == p {
                    assert(games@[b] == before[b - 1]);
                    assert(before[p as int].id <= before[b - 1].id);
                } else if b < p {
                    assert(games@[a] == before[a] && games@[b] == before[b]);
                } else {
                    assert(games@[a] == before[a - 1] && games@[b] == before[b - 1]);
                }
            }
            vstd::seq_lib::to_multiset_insert(before, p as int, info);
            assert forall|j: int| p <= j < before.len() implies #[trigger] before[j].id > info.id by {
                if p < before.len() {
                    assert(before[p as int].id > info.id);
                    assert(before[p as int].id <= before[j].id);
                }
            }
            assert(infos[i as int] == info);
            assert forall|id: GameId| games@.filter(#[trigger] has_game_id(id)) == infos.take(
                i + 1,
            ).filter(has_game_id(id)) by {
                lemma_insert_after_same_id(before, p as int, info, id);
                infos.take(i as int).lemma_filter_push(info, has_game_id(id));
                assert(infos.take(i + 1) =~= infos.take(i as int).push(info));
            }
            vstd::seq_lib::to_multiset_build(infos.take(i as int), infos[i as int]);
            assert(infos.take(i + 1) =~= infos.take(i as int).push(infos[i as int]));
        }
        i = i + 1;
    }
    proof {
        assert(infos.take(rooms@.len() as int) =~= infos);
    }
    games
}

} // verus!
