use castle_lanes::chunking::chunk_delta;
use castle_lanes::client_sync::{
    demo_automation, place_building, receive, retry_pending_placement, ClientSync, DemoScript,
    ServerUpdate,
};
use castle_lanes::delta::{apply_snapshot_delta, diff_snapshot, SnapshotDelta};
use castle_lanes::model::{
    Building, BuildingKind, BuildZone, GridCell, Lane, MatchPhase, MatchSnapshot, PlayerId,
    PlayerInfo, RaceKind, Scalar, Team, Unit, UnitKind, WorldPos,
};
use castle_lanes::packets::{ClientPacket, GameInfo};

fn s(value: f32) -> Scalar {
    Scalar { bits: value.to_bits() }
}

fn player(id: u8, name: &str, team: Team) -> PlayerInfo {
    PlayerInfo {
        id: PlayerId(id),
        name: name.to_string(),
        team,
        race: Some(RaceKind::Grove),
        ready: false,
        connected: true,
    }
}

fn unit(id: u64, lane_pos: f32) -> Unit {
    Unit {
        id,
        owner: PlayerId(1),
        kind: UnitKind::GroveNeedler,
        lane: Lane::Bottom,
        health: 60,
        lane_pos: s(lane_pos),
        pos: WorldPos { x: s(lane_pos), y: s(1.0) },
        velocity: WorldPos { x: s(0.5), y: s(0.0) },
        radius: s(0.5),
        attack_timer: s(0.0),
        slow_timer: s(0.0),
        slow_factor: s(1.0),
        regen_accum: s(0.0),
    }
}

fn building(id: u64, health: i32) -> Building {
    Building {
        id,
        owner: PlayerId(2),
        kind: BuildingKind::EmberFlameSpire,
        lane: Lane::Top,
        zone: BuildZone::Back,
        cell: GridCell { x: 1, y: 1 },
        health,
        max_health: 300,
        spawn_timer: s(4.0),
    }
}

fn snapshot(tick: u64, units: Vec<Unit>, buildings: Vec<Building>) -> MatchSnapshot {
    MatchSnapshot {
        phase: MatchPhase::Playing,
        tick,
        elapsed_secs: s(tick as f32 / 30.0),
        sudden_death: false,
        players: vec![player(1, "Alice", Team::Left), player(2, "Bryn", Team::Right)],
        economies: Vec::new(),
        castles: Vec::new(),
        bounty_events: Vec::new(),
        winner: None,
        message: String::new(),
        units,
        buildings,
    }
}

fn fresh() -> ClientSync {
    ClientSync {
        connected: false,
        player_name: String::new(),
        status: "Connecting...".to_string(),
        game_id: None,
        player_id: None,
        team: None,
        pending_placement: None,
        snapshot: None,
        games: Vec::new(),
        profile_wins: 0,
        profile_losses: 0,
    }
}

#[test]
fn admission_asks_for_the_game_list() {
    let mut sync = fresh();
    let reply = receive(&mut sync, ServerUpdate::Connected { name: "Alice".to_string() });
    assert_eq!(reply, Some(ClientPacket::ListGames));
    assert!(sync.connected);
    assert_eq!(sync.player_name, "Alice");
    assert_eq!(sync.status, "Connected. Create a game or join one from the list.");
}

#[test]
fn taking_a_seat_drops_the_old_snapshot() {
    let mut sync = fresh();
    sync.snapshot = Some(snapshot(5, Vec::new(), Vec::new()));
    let reply = receive(
        &mut sync,
        ServerUpdate::Welcome { game_id: 12, player: player(2, "Bryn", Team::Right) },
    );
    assert_eq!(reply, None);
    assert_eq!(sync.game_id, Some(12));
    assert_eq!(sync.player_id, Some(PlayerId(2)));
    assert_eq!(sync.team, Some(Team::Right));
    assert_eq!(sync.status, "Joined game #12 as Bryn (Right).");
    assert!(sync.snapshot.is_none());
}

#[test]
fn a_delta_waits_for_a_baseline() {
    let mut sync = fresh();
    let previous = snapshot(1, vec![unit(1, 1.0)], Vec::new());
    let current = snapshot(2, vec![unit(1, 2.0), unit(2, 0.0)], vec![building(9, 300)]);
    let delta = diff_snapshot(&previous, &current);
    receive(&mut sync, ServerUpdate::SnapshotDelta(delta));
    assert!(sync.snapshot.is_none());
    assert_eq!(sync.status, "Waiting for baseline snapshot.");

    receive(&mut sync, ServerUpdate::Snapshot(previous.duplicate()));
    let delta = diff_snapshot(&previous, &current);
    receive(&mut sync, ServerUpdate::SnapshotDelta(delta));
    assert_eq!(sync.snapshot, Some(current));
}

#[test]
fn acks_clear_only_the_matching_placement() {
    let mut sync = fresh();
    let mut next_seq = 7;
    let (_, pending) = place_building(&mut next_seq, PlayerId(1), BuildingKind::GroveRootDen, Lane::Top, BuildZone::Front, GridCell { x: 1, y: 0 }, 100);
    sync.pending_placement = Some(pending);
    receive(&mut sync, ServerUpdate::Ack { seq: Some(6) });
    assert_eq!(sync.pending_placement, Some(pending));
    receive(&mut sync, ServerUpdate::Ack { seq: None });
    assert_eq!(sync.pending_placement, Some(pending));
    receive(&mut sync, ServerUpdate::Ack { seq: Some(7) });
    assert_eq!(sync.pending_placement, None);
}

#[test]
fn placements_take_the_next_sequence_number() {
    let mut next_seq = u32::MAX - 1;
    let (packet, pending) = place_building(&mut next_seq, PlayerId(2), BuildingKind::EmberAshMine, Lane::Bottom, BuildZone::Back, GridCell { x: 2, y: 1 }, 5_000);
    assert_eq!(
        packet,
        ClientPacket::PlaceBuilding {
            player_id: PlayerId(2),
            kind: BuildingKind::EmberAshMine,
            lane: Lane::Bottom,
            zone: BuildZone::Back,
            cell: GridCell { x: 2, y: 1 },
            seq: Some(u32::MAX - 1),
        }
    );
    assert_eq!((pending.seq, pending.first_sent_ms, pending.last_sent_ms), (u32::MAX - 1, 5_000, 5_000));
    assert_eq!(next_seq, u32::MAX);
    let (_, pending) = place_building(&mut next_seq, PlayerId(2), BuildingKind::EmberAshMine, Lane::Bottom, BuildZone::Back, GridCell { x: 2, y: 1 }, 5_000);
    assert_eq!(pending.seq, u32::MAX);
    assert_eq!(next_seq, 0);
}

#[test]
fn an_unacknowledged_placement_is_resent_then_given_up() {
    let mut next_seq = 3;
    let (first, placed) = place_building(&mut next_seq, PlayerId(1), BuildingKind::VanguardForge, Lane::Top, BuildZone::Front, GridCell { x: 0, y: 2 }, 1_000);
    let resent = || ClientPacket::PlaceBuilding {
        player_id: PlayerId(1),
        kind: BuildingKind::VanguardForge,
        lane: Lane::Top,
        zone: BuildZone::Front,
        cell: GridCell { x: 0, y: 2 },
        seq: Some(3),
    };
    assert_eq!(first, resent());
    let mut pending = Some(placed);
    let mut status = "Playing".to_string();
    // Within the retry interval: wait.
    assert_eq!(retry_pending_placement(&mut pending, &mut status, Some(PlayerId(1)), 1_349), None);
    assert_eq!(pending, Some(placed));
    // Resent under the same sequence number.
    assert_eq!(retry_pending_placement(&mut pending, &mut status, Some(PlayerId(1)), 1_350), Some(resent()));
    assert_eq!(pending.unwrap().last_sent_ms, 1_350);
    assert_eq!(retry_pending_placement(&mut pending, &mut status, Some(PlayerId(1)), 1_600), None);
    assert_eq!(retry_pending_placement(&mut pending, &mut status, Some(PlayerId(1)), 2_500), Some(resent()));
    assert_eq!(status, "Playing");
    // Past the retry window: given up.
    assert_eq!(retry_pending_placement(&mut pending, &mut status, Some(PlayerId(1)), 2_900), None);
    assert_eq!(pending, None);
    assert_eq!(status, "Last placement was not acknowledged by the server.");
    assert_eq!(retry_pending_placement(&mut pending, &mut status, None, 9_000), None);
}

#[test]
fn errors_and_bad_packets_reach_the_status_line() {
    let mut sync = fresh();
    let mut next_seq = 3;
    sync.pending_placement = Some(place_building(&mut next_seq, PlayerId(1), BuildingKind::VanguardForge, Lane::Top, BuildZone::Front, GridCell { x: 0, y: 0 }, 0).1);
    receive(&mut sync, ServerUpdate::Error { message: "Not enough gold.".to_string() });
    assert_eq!(sync.status, "Not enough gold.");
    assert_eq!(sync.pending_placement, None);
    receive(&mut sync, ServerUpdate::Undecodable { reason: "unknown tag 7".to_string() });
    assert_eq!(sync.status, "Bad server packet: unknown tag 7");
}

#[test]
fn lists_and_profiles_are_replaced() {
    let mut sync = fresh();
    let games = vec![GameInfo {
        id: 4,
        name: "Game 4".to_string(),
        phase: MatchPhase::Lobby,
        players: 1,
        max_players: 2,
    }];
    receive(&mut sync, ServerUpdate::GameList { games });
    assert_eq!(sync.games.len(), 1);
    assert_eq!(sync.games[0].id, 4);
    receive(&mut sync, ServerUpdate::ProfileData { wins: 3, losses: 5 });
    assert_eq!((sync.profile_wins, sync.profile_losses), (3, 5));
}

#[test]
fn chunks_received_in_turn_give_the_whole_delta() {
    let previous = snapshot(1, vec![unit(1, 1.0), unit(2, 2.0)], vec![building(9, 300)]);
    let current = snapshot(
        4,
        vec![unit(2, 2.5), unit(3, 0.0), unit(4, 0.0)],
        vec![building(9, 250), building(10, 300)],
    );
    let mut whole = previous.duplicate();
    apply_snapshot_delta(&mut whole, diff_snapshot(&previous, &current));

    let mut sync = fresh();
    receive(&mut sync, ServerUpdate::Snapshot(previous.duplicate()));
    let chunks = chunk_delta(diff_snapshot(&previous, &current), |d: &SnapshotDelta| {
        if d.unit_creates.len() + d.unit_updates.len() + d.building_creates.len() + d.building_updates.len() > 1 {
            2000
        } else {
            100
        }
    });
    assert!(chunks.len() > 1);
    for chunk in chunks {
        receive(&mut sync, ServerUpdate::SnapshotDelta(chunk));
    }
    assert_eq!(sync.snapshot, Some(whole));
}

fn script(auto_ready: bool, auto_build_demo: bool) -> DemoScript {
    DemoScript {
        auto_ready,
        auto_build_demo,
        auto_race: RaceKind::Ember,
        sent_auto_game: false,
        sent_auto_race: false,
        sent_auto_ready: false,
        sent_auto_build: false,
    }
}

fn first_building(race: RaceKind) -> BuildingKind {
    match race {
        RaceKind::Vanguard => BuildingKind::VanguardBarracks,
        RaceKind::Grove => BuildingKind::GroveRootDen,
        RaceKind::Ember => BuildingKind::EmberAshPack,
    }
}

#[test]
fn the_demo_player_opens_a_game_once() {
    let name = "Alice".to_string();
    let mut demo = script(true, false);
    let sends = demo_automation(&mut demo, true, &name, None, None, &None, first_building);
    assert_eq!(
        sends,
        vec![ClientPacket::CreateGame {
            name: "Alice's Game".to_string(),
            team_size: None,
            random_factions: false
        }]
    );
    assert!(demo.sent_auto_game);
    assert!(demo_automation(&mut demo, true, &name, None, None, &None, first_building).is_empty());
    // Without a demo task nothing is opened.
    let mut idle = script(false, false);
    assert!(demo_automation(&mut idle, true, &name, None, None, &None, first_building).is_empty());
    assert_eq!(idle, script(false, false));
}

#[test]
fn the_demo_player_picks_its_race_readies_and_builds() {
    let name = "Bryn".to_string();
    let me = PlayerId(2);
    let mut demo = script(true, true);
    // Seated, no snapshot yet: the race goes out, ready waits.
    let sends = demo_automation(&mut demo, true, &name, Some(me), Some(Team::Right), &None, first_building);
    assert_eq!(sends, vec![ClientPacket::SetRace { player_id: me, race: RaceKind::Ember }]);
    assert!(demo.sent_auto_race && !demo.sent_auto_ready);

    // The snapshot does not show a race yet: still waiting.
    let mut lobby = snapshot(1, Vec::new(), Vec::new());
    lobby.phase = MatchPhase::Lobby;
    lobby.players[1].race = None;
    let sends = demo_automation(&mut demo, true, &name, Some(me), Some(Team::Right), &Some(lobby.duplicate()), first_building);
    assert!(sends.is_empty());

    // Race shown, match not playing: ready, no building yet.
    lobby.players[1].race = Some(RaceKind::Ember);
    let sends = demo_automation(&mut demo, true, &name, Some(me), Some(Team::Right), &Some(lobby), first_building);
    assert_eq!(sends, vec![ClientPacket::SetReady { player_id: me, ready: true }]);

    // The match plays: the seated race's first building, once.
    let playing = snapshot(40, Vec::new(), Vec::new());
    let sends = demo_automation(&mut demo, true, &name, Some(me), Some(Team::Right), &Some(playing.duplicate()), first_building);
    assert_eq!(
        sends,
        vec![ClientPacket::PlaceBuilding {
            player_id: me,
            kind: BuildingKind::GroveRootDen,
            lane: Lane::Bottom,
            zone: BuildZone::Front,
            cell: GridCell { x: 0, y: 0 },
            seq: None,
        }]
    );
    assert!(demo.sent_auto_build);
    assert!(demo_automation(&mut demo, true, &name, Some(me), Some(Team::Right), &Some(playing), first_building).is_empty());
}
