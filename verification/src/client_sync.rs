//! How a client takes in what the server sends: its connection and seat, the
//! lobby's game list, the replicated snapshot (a baseline patched by deltas),
//! the acknowledgement of its pending placement, and the status line.
use vstd::prelude::*;

use crate::chunking::{chunk_views, lemma_chunks_patch_as_whole, patched_in_turn, splits};
use crate::delta::{apply_snapshot_delta, patched_by, DeltaModel, SnapshotDelta};
use crate::model::{
    BuildZone, BuildingKind, GridCell, Lane, MatchPhase, MatchSnapshot, PlayerId, PlayerInfo,
    RaceKind, SnapshotModel, Team,
};
use crate::names::{decimal, decimal_text};
use crate::packets::{ClientPacket, GameId, GameInfo};
use crate::sessions::{is_retry, SessionSeat};
use crate::view::{current_player, default_lane_for_team, first_player_with_id};

verus! {

/// What the server tells a client about its connection and its match.
pub enum ServerUpdate {
    /// The server admitted the client under `name`.
    Connected { name: String },
    /// The client took a seat in game `game_id`.
    Welcome { game_id: GameId, player: PlayerInfo },
    GameList { games: Vec<GameInfo> },
    /// A whole snapshot: the new baseline.
    Snapshot(MatchSnapshot),
    /// What changed since the last snapshot the client received.
    SnapshotDelta(SnapshotDelta),
    /// The server applied the placement with this sequence number.
    Ack { seq: Option<u32> },
    ProfileData { wins: u32, losses: u32 },
    /// The server refused the client's last request.
    Error { message: String },
    /// A packet that could not be decoded, and why.
    Undecodable { reason: String },
}

/// A client's view of its session with the server.
pub struct ClientSync {
    pub connected: bool,
    pub player_name: String,
    pub status: String,
    pub game_id: Option<GameId>,
    pub player_id: Option<PlayerId>,
    pub team: Option<Team>,
    /// The placement still waiting for its acknowledgement.
    pub pending_placement: Option<PendingPlacement>,
    pub snapshot: Option<MatchSnapshot>,
    pub games: Vec<GameInfo>,
    pub profile_wins: u32,
    pub profile_losses: u32,
}

pub open spec fn snapshot_model(snapshot: Option<MatchSnapshot>) -> Option<SnapshotModel> {
    match snapshot {
        Some(s) => Some(s@),
        None => None,
    }
}

pub open spec fn team_text(team: Team) -> Seq<char> {
    match team {
        Team::Left => "Left"@,
        Team::Right => "Right"@,
    }
}

/// The status line after taking a seat.
pub open spec fn welcome_text(game_id: GameId, player: PlayerInfo) -> Seq<char> {
    "Joined game #"@ + decimal(game_id as nat) + " as "@ + player.name@ + " ("@ + team_text(
        player.team,
    ) + ")."@
}

pub open spec fn connected_text() -> Seq<char> {
    "Connected. Create a game or join one from the list."@
}

pub open spec fn waiting_text() -> Seq<char> {
    "Waiting for baseline snapshot."@
}

pub open spec fn undecodable_text(reason: Seq<char>) -> Seq<char> {
    "Bad server packet: "@ + reason
}

/// Everything but the listed parts of the session is as it was.
pub open spec fn same_session(a: ClientSync, b: ClientSync) -> bool {
    &&& a.connected == b.connected
    &&& a.player_name@ == b.player_name@
    &&& a.status@ == b.status@
    &&& a.game_id == b.game_id
    &&& a.player_id == b.player_id
    &&& a.team == b.team
    &&& a.pending_placement == b.pending_placement
    &&& snapshot_model(a.snapshot) == snapshot_model(b.snapshot)
    &&& a.games@ == b.games@
    &&& a.profile_wins == b.profile_wins
    &&& a.profile_losses == b.profile_losses
}

/// The session after `update`: the parts it changes, with the rest as before.
pub open spec fn received(before: ClientSync, update: ServerUpdate, after: ClientSync) -> bool {
    match update {
        ServerUpdate::Connected { name } => same_session(
            after,
            ClientSync { connected: true, player_name: name, status: after.status, ..before },
        ) && after.status@ == connected_text(),
        ServerUpdate::Welcome { game_id, player } => same_session(
            after,
            ClientSync {
                game_id: Some(game_id),
                player_id: Some(player.id),
                team: Some(player.team),
                snapshot: None,
                status: after.status,
                ..before
            },
        ) && after.status@ == welcome_text(game_id, player),
        ServerUpdate::GameList { games } => same_session(after, ClientSync { games, ..before }),
        ServerUpdate::Snapshot(snapshot) => same_session(
            after,
            ClientSync { snapshot: Some(snapshot), ..before },
        ),
        ServerUpdate::SnapshotDelta(delta) => match before.snapshot {
            Some(s) => same_session(after, ClientSync { snapshot: after.snapshot, ..before })
                && snapshot_model(after.snapshot) == Some(patched_by(s@, delta@)),
            None => same_session(after, ClientSync { status: after.status, ..before })
                && after.status@ == waiting_text(),
        },
        ServerUpdate::Ack { seq } => if seq is Some && before.pending_placement is Some
            && seq == Some(before.pending_placement->0.seq) {
            same_session(after, ClientSync { pending_placement: None, ..before })
        } else {
            same_session(after, before)
        },
        ServerUpdate::ProfileData { wins, losses } => same_session(
            after,
            ClientSync { profile_wins: wins, profile_losses: losses, ..before },
        ),
        ServerUpdate::Error { message } => same_session(
            after,
            ClientSync { pending_placement: None, status: message, ..before },
        ),
        ServerUpdate::Undecodable { reason } => same_session(
            after,
            ClientSync { status: after.status, ..before },
        ) && after.status@ == undecodable_text(reason@),
    }
}

fn team_name(team: Team) -> (name: &'static str)
    ensures
        name@ == team_text(team),
{
    match team {
        Team::Left => "Left",
        Team::Right => "Right",
    }
}

/// Takes in one update from the server; returns the packet to send back, if
/// any: a client that was just admitted asks for the game list.
pub fn receive(sync: &mut ClientSync, update: ServerUpdate) -> (reply: Option<ClientPacket>)
    ensures
        received(*old(sync), update, *final(sync)),
        reply == (if update is Connected {
            Some(ClientPacket::ListGames)
        } else {
            None
        }),
{
    match update {
        ServerUpdate::Connected { name } => {
            sync.connected = true;
            sync.player_name = name;
            sync.status = String::from_str("Connected. Create a game or join one from the list.");
            Some(ClientPacket::ListGames)
        },
        ServerUpdate::Welcome { game_id, player } => {
            sync.game_id = Some(game_id);
            sync.player_id = Some(player.id);
            sync.team = Some(player.team);
            let mut status = String::from_str("Joined game #");
            status.append(decimal_text(game_id as u64).as_str());
            status.append(" as ");
            status.append(player.name.as_str());
            status.append(" (");
            status.append(team_name(player.team));
            status.append(").");
            assert(status@ =~= welcome_text(game_id, player));
            sync.status = status;
            sync.snapshot = None;
            None
        },
        ServerUpdate::GameList { games } => {
            sync.games = games;
            None
        },
        ServerUpdate::Snapshot(snapshot) => {
            sync.snapshot = Some(snapshot);
            None
        },
        ServerUpdate::SnapshotDelta(delta) => {
            match sync.snapshot.take() {
                Some(mut snapshot) => {
                    apply_snapshot_delta(&mut snapshot, delta);
                    sync.snapshot = Some(snapshot);
                },
                None => {
                    sync.status = String::from_str("Waiting for baseline snapshot.");
                },
            }
            None
        },
        ServerUpdate::Ack { seq } => {
            match (seq, sync.pending_placement) {
                (Some(acked), Some(pending)) => {
                    if acked == pending.seq {
                        sync.pending_placement = None;
                    }
                },
                _ => {},
            }
            None
        },
        ServerUpdate::ProfileData { wins, losses } => {
            sync.profile_wins = wins;
            sync.profile_losses = losses;
            None
        },
        ServerUpdate::Error { message } => {
            sync.pending_placement = None;
            sync.status = message;
            None
        },
        ServerUpdate::Undecodable { reason } => {
            let mut status = String::from_str("Bad server packet: ");
            status.append(reason.as_str());
            assert(status@ =~= undecodable_text(reason@));
            sync.status = status;
            None
        },
    }
}

/// After the first `n` chunks, a client that held `base` holds `base`
/// patched by those chunks in turn.
proof fn lemma_chunks_received(
    states: Seq<ClientSync>,
    chunks: Seq<SnapshotDelta>,
    base: MatchSnapshot,
    n: int,
)
    requires
        states.len() == chunks.len() + 1,
        0 <= n <= chunks.len(),
        states[0].snapshot == Some(base),
        forall|i: int|
            0 <= i < chunks.len() ==> received(
                #[trigger] states[i],
                ServerUpdate::SnapshotDelta(chunks[i]),
                states[i + 1],
            ),
    ensures
        snapshot_model(states[n].snapshot) == Some(
            patched_in_turn(base@, chunk_views(chunks).take(n)),
        ),
    decreases n,
{
    if n == 0 {
        assert(chunk_views(chunks).take(0) =~= Seq::<DeltaModel>::empty());
    } else {
        lemma_chunks_received(states, chunks, base, n - 1);
        assert(received(states[n - 1], ServerUpdate::SnapshotDelta(chunks[n - 1]), states[n]));
        assert(chunk_views(chunks).take(n).drop_last() =~= chunk_views(chunks).take(n - 1));
    }
}

/// A client that holds a baseline and receives, one after another, the chunks
/// a delta was split into ends with the snapshot that the whole delta gives.
pub proof fn lemma_chunked_delta_received_whole(
    states: Seq<ClientSync>,
    chunks: Seq<SnapshotDelta>,
    delta: DeltaModel,
)
    requires
        splits(delta, chunk_views(chunks)),
        states.len() == chunks.len() + 1,
        states[0].snapshot is Some,
        forall|i: int|
            0 <= i < chunks.len() ==> received(
                #[trigger] states[i],
                ServerUpdate::SnapshotDelta(chunks[i]),
                states[i + 1],
            ),
    ensures
        snapshot_model(states.last().snapshot) == Some(patched_by(states[0].snapshot->0@, delta)),
{
    let base = states[0].snapshot->0;
    lemma_chunks_received(states, chunks, base, chunks.len() as int);
    assert(chunk_views(chunks).take(chunks.len() as int) =~= chunk_views(chunks));
    lemma_chunks_patch_as_whole(base@, delta, chunk_views(chunks));
}

/// What the scripted demo player was asked to do, and what it has sent.
#[derive(Clone, Copy, Debug, PartialEq, Eq, Structural)]
pub struct DemoScript {
    pub auto_ready: bool,
    pub auto_build_demo: bool,
    pub auto_race: RaceKind,
    pub sent_auto_game: bool,
    pub sent_auto_race: bool,
    pub sent_auto_ready: bool,
    pub sent_auto_build: bool,
}

/// The race chosen by the player seated as `player_id`, if any.
pub open spec fn seated_race(players: Seq<PlayerInfo>, player_id: PlayerId) -> Option<RaceKind> {
    if first_player_with_id(players, player_id) >= 0 {
        players[first_player_with_id(players, player_id)].race
    } else {
        None
    }
}

/// The race the demo builds for: the seated player's, else the scripted one.
pub open spec fn build_race(script: DemoScript, snapshot: SnapshotModel, player_id: PlayerId) -> RaceKind {
    match seated_race(snapshot.players, player_id) {
        Some(race) => race,
        None => script.auto_race,
    }
}

pub open spec fn default_lane_of(team: Team) -> Lane {
    match team {
        Team::Left => Lane::Top,
        Team::Right => Lane::Bottom,
    }
}

/// The demo player has no seat yet but has been connected: it opens a game.
pub open spec fn opens_game(script: DemoScript, connected: bool, player_id: Option<PlayerId>) -> bool {
    connected && player_id is None && !script.sent_auto_game && (script.auto_ready
        || script.auto_build_demo)
}

/// What the seated demo player `player_id` sends, in order, and its script
/// afterwards: its race once; ready once its race shows in a snapshot; and,
/// once the match plays, the race's first building (`kind`) at the first
/// cell of the front zone of its side's default lane.
pub open spec fn seated_plan(
    script: DemoScript,
    player_id: PlayerId,
    team: Option<Team>,
    snapshot: Option<SnapshotModel>,
    kind: BuildingKind,
) -> (Seq<ClientPacket>, DemoScript) {
    let race_sends = if !script.sent_auto_race {
        seq![ClientPacket::SetRace { player_id, race: script.auto_race }]
    } else {
        Seq::empty()
    };
    let s1 = DemoScript { sent_auto_race: true, ..script };
    if s1.auto_ready && !s1.sent_auto_ready && (snapshot is None || seated_race(
        snapshot->0.players,
        player_id,
    ) is None) {
        (race_sends, s1)
    } else {
        let ready_sends = if s1.auto_ready && !s1.sent_auto_ready {
            seq![ClientPacket::SetReady { player_id, ready: true }]
        } else {
            Seq::empty()
        };
        let s2 = if s1.auto_ready {
            DemoScript { sent_auto_ready: true, ..s1 }
        } else {
            s1
        };
        if !s2.auto_build_demo || s2.sent_auto_build || snapshot is None || snapshot->0.phase
            != MatchPhase::Playing {
            (race_sends + ready_sends, s2)
        } else {
            (
                race_sends + ready_sends + seq![
                    ClientPacket::PlaceBuilding {
                        player_id,
                        kind,
                        lane: default_lane_of(
                            match team {
                                Some(t) => t,
                                None => Team::Left,
                            },
                        ),
                        zone: BuildZone::Front,
                        cell: GridCell { x: 0, y: 0 },
                        seq: None,
                    },
                ],
                DemoScript { sent_auto_build: true, ..s2 },
            )
        }
    }
}

/// The packets the scripted demo player sends now, in order, given its
/// connection, seat and latest snapshot; `first_building` gives the first
/// building the balance lists for a race.
pub fn demo_automation<F: Fn(RaceKind) -> BuildingKind>(
    script: &mut DemoScript,
    connected: bool,
    player_name: &String,
    player_id: Option<PlayerId>,
    team: Option<Team>,
    snapshot: &Option<MatchSnapshot>,
    first_building: F,
) -> (sends: Vec<ClientPacket>)
    requires
        forall|race: RaceKind| #[trigger] first_building.requires((race,)),
    ensures
        opens_game(*old(script), connected, player_id) ==> {
            &&& *final(script) == DemoScript { sent_auto_game: true, ..*old(script) }
            &&& sends@.len() == 1
            &&& sends@[0] matches ClientPacket::CreateGame { name, team_size, random_factions }
                && name@ == player_name@ + "'s Game"@ && team_size is None && !random_factions
        },
        !opens_game(*old(script), connected, player_id) && player_id is None ==> sends@.len() == 0
            && *final(script) == *old(script),
        player_id matches Some(p) ==> exists|kind: BuildingKind|
            (!old(script).sent_auto_build && final(script).sent_auto_build ==> first_building.ensures(
                (build_race(*old(script), snapshot->0@, p),),
                kind,
            )) && (sends@, *final(script)) == seated_plan(
                *old(script),
                p,
                team,
                snapshot_model(*snapshot),
                kind,
            ),
{
    let mut sends: Vec<ClientPacket> = Vec::new();
    if connected && player_id.is_none() && !script.sent_auto_game && (script.auto_ready
        || script.auto_build_demo) {
        let mut name = player_name.clone();
        name.append("'s Game");
        sends.push(ClientPacket::CreateGame { name, team_size: None, random_factions: false });
        script.sent_auto_game = true;
        return sends;
    }
    let player_id = match player_id {
        Some(p) => p,
        None => return sends,
    };
    let ghost start = *script;
    let ghost snap = snapshot_model(*snapshot);
    if !script.sent_auto_race {
        sends.push(ClientPacket::SetRace { player_id, race: script.auto_race });
        script.sent_auto_race = true;
    }
    let ghost race_sends = sends@;
    if script.auto_ready && !script.sent_auto_ready {
        let seated = match snapshot {
            Some(snapshot) => match current_player(snapshot, player_id) {
                Some(player) => player.race.is_some(),
                None => false,
            },
            None => false,
        };
        if !seated {
            proof {
                assert((sends@, *script) == seated_plan(start, player_id, team, snap, BuildingKind::VanguardBarracks));
            }
            return sends;
        }
        sends.push(ClientPacket::SetReady { player_id, ready: true });
        script.sent_auto_ready = true;
    }
    if !script.auto_build_demo || script.sent_auto_build {
        proof {
            assert((sends@, *script) == seated_plan(start, player_id, team, snap, BuildingKind::VanguardBarracks));
        }
        return sends;
    }
    let snapshot = match snapshot {
        Some(snapshot) => snapshot,
        None => {
            proof {
                assert((sends@, *script) == seated_plan(start, player_id, team, snap, BuildingKind::VanguardBarracks));
            }
            return sends;
        },
    };
    if snapshot.phase != MatchPhase::Playing {
        proof {
            assert((sends@, *script) == seated_plan(start, player_id, team, snap, BuildingKind::VanguardBarracks));
        }
        return sends;
    }
    let race = match current_player(snapshot, player_id) {
        Some(player) => match player.race {
            Some(race) => race,
            None => script.auto_race,
        },
        None => script.auto_race,
    };
    let kind = first_building(race);
    let side = match team {
        Some(t) => t,
        None => Team::Left,
    };
    sends.push(
        ClientPacket::PlaceBuilding {
            player_id,
            kind,
            lane: default_lane_for_team(side),
            zone: BuildZone::Front,
            cell: GridCell { x: 0, y: 0 },
            seq: None,
        },
    );
    script.sent_auto_build = true;
    proof {
        assert((sends@, *script) == seated_plan(start, player_id, team, snap, kind));
    }
    sends
}

/// Milliseconds between two sends of an unacknowledged placement.
pub const PLACEMENT_RETRY_INTERVAL_MS: u64 = 350;

/// Milliseconds after its first send after which an unacknowledged placement
/// is given up.
pub const PLACEMENT_RETRY_WINDOW_MS: u64 = 1500;

/// A placement sent and not yet acknowledged, with the times of its first
/// and last send.
#[derive(Clone, Copy, Debug, PartialEq, Eq, Structural)]
pub struct PendingPlacement {
    pub seq: u32,
    pub kind: BuildingKind,
    pub lane: Lane,
    pub zone: BuildZone,
    pub cell: GridCell,
    pub first_sent_ms: u64,
    pub last_sent_ms: u64,
}

/// The sequence number after `seq`, wrapping around.
pub open spec fn next_seq_after(seq: u32) -> u32 {
    if seq == u32::MAX {
        0
    } else {
        (seq + 1) as u32
    }
}

/// The packet that sends `pending` for seat `player_id`.
pub open spec fn placement_packet(player_id: PlayerId, pending: PendingPlacement) -> ClientPacket {
    ClientPacket::PlaceBuilding {
        player_id,
        kind: pending.kind,
        lane: pending.lane,
        zone: pending.zone,
        cell: pending.cell,
        seq: Some(pending.seq),
    }
}

/// Sends a placement at `now_ms` under the next sequence number: the packet,
/// and the placement now waiting for its acknowledgement.
pub fn place_building(
    next_seq: &mut u32,
    player_id: PlayerId,
    kind: BuildingKind,
    lane: Lane,
    zone: BuildZone,
    cell: GridCell,
    now_ms: u64,
) -> (sent: (ClientPacket, PendingPlacement))
    ensures
        sent.1 == (PendingPlacement {
            seq: *old(next_seq),
            kind,
            lane,
            zone,
            cell,
            first_sent_ms: now_ms,
            last_sent_ms: now_ms,
        }),
        sent.0 == placement_packet(player_id, sent.1),
        *final(next_seq) == next_seq_after(*old(next_seq)),
{
    let seq = *next_seq;
    *next_seq = if seq == u32::MAX {
        0
    } else {
        seq + 1
    };
    let pending = PendingPlacement {
        seq,
        kind,
        lane,
        zone,
        cell,
        first_sent_ms: now_ms,
        last_sent_ms: now_ms,
    };
    (
        ClientPacket::PlaceBuilding { player_id, kind, lane, zone, cell, seq: Some(seq) },
        pending,
    )
}

pub open spec fn given_up_text() -> Seq<char> {
    "Last placement was not acknowledged by the server."@
}

/// What becomes of the unacknowledged placement at `now_ms`: within the
/// retry interval of its last send it waits; past the retry window from its
/// first send it is given up, and the status line says so; otherwise it is
/// sent again, under the same sequence number, for the client's seat (seat 0
/// while it has none). Returns the packet to send, if any.
pub fn retry_pending_placement(
    pending: &mut Option<PendingPlacement>,
    status: &mut String,
    player_id: Option<PlayerId>,
    now_ms: u64,
) -> (resend: Option<ClientPacket>)
    ensures
        match *old(pending) {
            None => resend is None && *final(pending) == *old(pending) && final(status)@ == old(
                status,
            )@,
            Some(p) => if (now_ms - p.last_sent_ms) < PLACEMENT_RETRY_INTERVAL_MS {
                resend is None && *final(pending) == *old(pending) && final(status)@ == old(
                    status,
                )@
            } else if (now_ms - p.first_sent_ms) > PLACEMENT_RETRY_WINDOW_MS {
                resend is None && *final(pending) is None && final(status)@ == given_up_text()
            } else {
                &&& resend == Some(
                    placement_packet(
                        match player_id {
                            Some(id) => id,
                            None => PlayerId(0),
                        },
                        p,
                    ),
                )
                &&& *final(pending) == Some(PendingPlacement { last_sent_ms: now_ms, ..p })
                &&& final(status)@ == old(status)@
            },
        },
{
    let p = match *pending {
        None => return None,
        Some(p) => p,
    };
    let since_last = now_ms.saturating_sub(p.last_sent_ms);
    let since_first = now_ms.saturating_sub(p.first_sent_ms);
    if since_last < PLACEMENT_RETRY_INTERVAL_MS {
        return None;
    }
    if since_first > PLACEMENT_RETRY_WINDOW_MS {
        *pending = None;
        *status = String::from_str("Last placement was not acknowledged by the server.");
        return None;
    }
    let seat = match player_id {
        Some(id) => id,
        None => PlayerId(0),
    };
    *pending = Some(PendingPlacement { last_sent_ms: now_ms, ..p });
    Some(
        ClientPacket::PlaceBuilding {
            player_id: seat,
            kind: p.kind,
            lane: p.lane,
            zone: p.zone,
            cell: p.cell,
            seq: Some(p.seq),
        },
    )
}

/// Once the server applied a placement for a connection, the client's
/// resends of it, which carry its sequence number, are retries there and are
/// not applied again.
pub proof fn lemma_resend_is_retry(
    pending: PendingPlacement,
    player_id: PlayerId,
    session: SessionSeat,
)
    requires
        session.last_applied_seq == Some(pending.seq),
    ensures
        placement_packet(player_id, pending) matches ClientPacket::PlaceBuilding { seq, .. }
            && is_retry(seq, Some(session)),
{
}

} // verus!
