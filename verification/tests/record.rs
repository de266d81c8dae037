use castle_lanes::model::{
    BountyEvent, BuildZone, BuildingKind, Castle, Economy, GridCell, Lane, MatchPhase, PlayerId,
    PlayerInfo, RaceKind, Scalar, Team, UnitKind, WorldPos,
};
use castle_lanes::record::{MatchRecorder, RecordedIntent, SimView, UnitTally};

fn player(id: u8, name: &str, team: Team, race: RaceKind, ready: bool) -> PlayerInfo {
    PlayerInfo {
        id: PlayerId(id),
        name: name.to_string(),
        team,
        race: Some(race),
        ready,
        connected: true,
    }
}

fn view(phase: MatchPhase, tick: u64, seed: u64, castles: (i32, i32), winner: Option<Team>) -> SimView {
    let elapsed = tick as f32 / 30.0;
    SimView {
        phase,
        tick,
        elapsed_secs: Scalar { bits: elapsed.to_bits() },
        elapsed_whole_secs: elapsed.max(0.0).floor() as u64,
        seed,
        players: vec![
            player(1, "Alice", Team::Left, RaceKind::Vanguard, phase != MatchPhase::Lobby),
            player(2, "Bryn", Team::Right, RaceKind::Grove, phase != MatchPhase::Lobby),
        ],
        winner,
        bounty_events: Vec::new(),
        units: vec![UnitTally { slot: 0, health: 100 }, UnitTally { slot: 1, health: 80 }, UnitTally { slot: 1, health: -5 }],
        castles: vec![
            Castle { team: Team::Left, health: castles.0, max_health: 2000 },
            Castle { team: Team::Right, health: castles.1, max_health: 2000 },
        ],
        economies: vec![Economy { gold: 150, income: 10 }, Economy { gold: 90, income: 12 }],
    }
}

fn kill(id: u64, team: Team) -> BountyEvent {
    BountyEvent {
        id,
        team,
        unit_kind: UnitKind::GroveBruiser,
        amount: 4,
        pos: WorldPos { x: Scalar { bits: 0 }, y: Scalar { bits: 0 } },
    }
}

#[test]
fn recording_captures_header_commands_timeline_and_result() {
    let seed = 4242;
    let mut recorder = MatchRecorder::new(7);
    recorder.observe(&view(MatchPhase::Lobby, 0, seed, (2000, 2000), None), 1_700_000_000);
    assert!(!recorder.is_active());

    let start = view(MatchPhase::Playing, 0, seed, (2000, 2000), None);
    recorder.observe(&start, 1_700_000_000);
    assert!(recorder.is_active());
    recorder.record_command(
        &start,
        1,
        RecordedIntent::PlaceBuilding {
            kind: BuildingKind::VanguardBarracks,
            lane: Lane::Top,
            zone: BuildZone::Front,
            cell: GridCell { x: 0, y: 0 },
        },
    );

    // A scripted fight: kills from 10 s on, the right castle falls at 20 s.
    let mut tick = 0u64;
    let mut phase = MatchPhase::Playing;
    let mut ticks = 0;
    while phase == MatchPhase::Playing && ticks < 30 * 60 * 25 {
        tick += 1;
        ticks += 1;
        let right_castle = 2000 - (tick as i32) * 4;
        let over = right_castle <= 0;
        phase = if over { MatchPhase::GameOver } else { MatchPhase::Playing };
        let mut sim = view(phase, tick, seed, (2000, right_castle.max(0)), if over { Some(Team::Left) } else { None });
        if tick >= 300 {
            sim.bounty_events.push(kill(1, Team::Left));
        }
        if tick >= 450 {
            sim.bounty_events.push(kill(2, Team::Right));
        }
        recorder.observe(&sim, 1_700_000_020);
    }
    assert_eq!(phase, MatchPhase::GameOver);
    recorder.observe(&view(MatchPhase::GameOver, tick, seed, (2000, 0), Some(Team::Left)), 1_700_000_021);

    let record = recorder.take_finished().expect("record finalized");
    assert_eq!(record.game_id, 7);
    assert_eq!(record.seed, 4242);
    assert_eq!(record.players.len(), 2);
    assert_eq!(record.commands.len(), 1);
    assert!(record.timeline.len() > 10, "1 Hz timeline expected");
    let last = record.timeline.last().unwrap();
    assert!(last.castle_health.0 <= 0 || last.castle_health.1 <= 0, "final sample should show a fallen castle");
    assert!(record.winner.is_some());
    assert!(!record.kills.is_empty(), "kills feed expected in a fight");
    assert_eq!(record.kills.len(), 2);
    assert!(f32::from_bits(record.duration_secs.bits) > 10.0);
    assert_eq!(record.started_unix, 1_700_000_000);
}

#[test]
fn recording_finalizes_without_winner_when_match_is_abandoned() {
    let mut recorder = MatchRecorder::new(3);
    recorder.observe(&view(MatchPhase::Playing, 0, 1, (2000, 2000), None), 5);
    assert!(recorder.is_active());

    // Both players leave without a GameOver; the room resets to the lobby
    // and the recorder finalizes with no winner.
    recorder.observe(&view(MatchPhase::Lobby, 40, 1, (2000, 2000), None), 6);
    let record = recorder.take_finished().unwrap();
    assert_eq!(record.winner, None);
}

#[test]
fn take_finished_is_none_while_recording() {
    let mut recorder = MatchRecorder::new(1);
    assert!(recorder.take_finished().is_none());
    recorder.observe(&view(MatchPhase::Playing, 0, 9, (2000, 2000), None), 0);
    assert!(recorder.take_finished().is_none());
    assert!(recorder.is_active());
}

#[test]
fn timeline_samples_once_per_second_and_counts_armies() {
    let mut recorder = MatchRecorder::new(2);
    for tick in 0..=95u64 {
        recorder.observe(&view(MatchPhase::Playing, tick, 3, (2000, 1900), None), 0);
    }
    recorder.observe(&view(MatchPhase::GameOver, 96, 3, (2000, 0), Some(Team::Left)), 0);
    let record = recorder.take_finished().unwrap();
    // Seconds 1, 2 and 3, plus the final sample.
    assert_eq!(record.timeline.len(), 4);
    let sample = record.timeline[0];
    assert_eq!(sample.unit_count, (1, 2));
    assert_eq!(sample.army_health, (100, 80));
    assert_eq!(sample.gold, (150, 90));
    assert_eq!(sample.income, (10, 12));
    assert_eq!(sample.castle_health, (2000, 1900));
    assert_eq!(record.winner, Some(Team::Left));
}

#[test]
fn commands_outside_a_match_are_ignored() {
    let mut recorder = MatchRecorder::new(4);
    recorder.record_command(&view(MatchPhase::Lobby, 0, 1, (2000, 2000), None), 1, RecordedIntent::Surrender);
    assert!(!recorder.is_active());
}

#[test]
fn a_bounty_counts_once() {
    let mut recorder = MatchRecorder::new(5);
    let mut sim = view(MatchPhase::Playing, 1, 1, (2000, 2000), None);
    sim.bounty_events.push(kill(9, Team::Left));
    sim.bounty_events.push(kill(9, Team::Left));
    recorder.observe(&sim, 0);
    recorder.observe(&sim, 0);
    recorder.observe(&view(MatchPhase::GameOver, 2, 1, (0, 2000), Some(Team::Right)), 0);
    assert_eq!(recorder.take_finished().unwrap().kills.len(), 1);
}

#[test]
fn a_finished_record_is_finalized_once() {
    let mut recorder = MatchRecorder::new(6);
    recorder.observe(&view(MatchPhase::Playing, 0, 2, (2000, 2000), None), 0);
    recorder.observe(&view(MatchPhase::Playing, 45, 2, (2000, 1500), None), 0);
    recorder.observe(&view(MatchPhase::GameOver, 60, 2, (2000, 0), Some(Team::Left)), 0);
    // The room goes back to the lobby before the record is written.
    recorder.observe(&view(MatchPhase::Lobby, 90, 2, (2000, 2000), None), 0);
    recorder.observe(&view(MatchPhase::Lobby, 120, 2, (2000, 2000), None), 0);
    recorder.observe(&view(MatchPhase::GameOver, 150, 2, (0, 2000), Some(Team::Right)), 0);
    let record = recorder.take_finished().unwrap();
    // Second 1, then the final sample at game over; nothing after.
    assert_eq!(record.timeline.len(), 2);
    assert_eq!(record.winner, Some(Team::Left));
    assert_eq!(f32::from_bits(record.duration_secs.bits), 2.0);
    assert_eq!(record.timeline[1].castle_health, (2000, 0));
}
