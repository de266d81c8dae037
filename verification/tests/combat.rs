use castle_lanes::combat::{detect_combat, without_snapshot, CombatCue, CombatTracker};
use castle_lanes::model::{
    BountyEvent, Building, BuildingKind, BuildZone, Castle, GridCell, Lane, MatchPhase, MatchSnapshot,
    PlayerId, PlayerInfo, RaceKind, Scalar, Team, Unit, UnitKind, WorldPos,
};

fn s(value: f32) -> Scalar {
    Scalar { bits: value.to_bits() }
}

fn at(x: f32) -> WorldPos {
    WorldPos { x: s(x), y: s(0.0) }
}

fn unit(id: u64, owner: u8, health: i32) -> Unit {
    Unit {
        id,
        owner: PlayerId(owner),
        kind: UnitKind::VanguardGuard,
        lane: Lane::Top,
        health,
        lane_pos: s(id as f32),
        pos: at(id as f32),
        velocity: at(0.0),
        radius: s(0.65),
        attack_timer: s(0.0),
        slow_timer: s(0.0),
        slow_factor: s(1.0),
        regen_accum: s(0.0),
    }
}

fn building(id: u64, owner: u8, health: i32) -> Building {
    Building {
        id,
        owner: PlayerId(owner),
        kind: BuildingKind::VanguardBarracks,
        lane: Lane::Top,
        zone: BuildZone::Front,
        cell: GridCell { x: 0, y: 0 },
        health,
        max_health: 400,
        spawn_timer: s(1.0),
    }
}

fn bounty(id: u64, team: Team, amount: i32) -> BountyEvent {
    BountyEvent { id, team, unit_kind: UnitKind::GroveBruiser, amount, pos: at(3.0) }
}

fn snapshot(phase: MatchPhase, units: Vec<Unit>, buildings: Vec<Building>, castles: [i32; 2], bounty_events: Vec<BountyEvent>) -> MatchSnapshot {
    let seat = |id: u8, team: Team| PlayerInfo { id: PlayerId(id), name: format!("p{id}"), team, race: Some(RaceKind::Vanguard), ready: true, connected: true };
    MatchSnapshot {
        phase,
        tick: 1,
        elapsed_secs: s(1.0),
        sudden_death: false,
        players: vec![seat(1, Team::Left), seat(2, Team::Right)],
        economies: Vec::new(),
        castles: vec![
            Castle { team: Team::Left, health: castles[0], max_health: 2000 },
            Castle { team: Team::Right, health: castles[1], max_health: 2000 },
        ],
        bounty_events,
        winner: None,
        message: String::new(),
        units,
        buildings,
    }
}

fn fresh() -> CombatTracker {
    CombatTracker { initialized: false, units: Vec::new(), buildings: Vec::new(), castle_health: Vec::new(), seen_bounty_events: Vec::new() }
}

fn run(tracker: &CombatTracker, snap: &MatchSnapshot, viewer: Option<Team>, revealed: bool) -> (CombatTracker, Vec<CombatCue>) {
    detect_combat(
        tracker,
        snap,
        viewer,
        &vec![revealed; snap.units.len()],
        &vec![revealed; snap.buildings.len()],
        &vec![revealed; snap.castles.len()],
        &vec![revealed; tracker.units.len()],
    )
}

#[test]
fn first_snapshot_in_play_is_only_remembered() {
    let snap = snapshot(MatchPhase::Playing, vec![unit(1, 1, 100)], vec![building(7, 2, 400)], [2000, 2000], Vec::new());
    let (tracker, cues) = run(&fresh(), &snap, Some(Team::Left), false);
    assert!(cues.is_empty());
    assert!(tracker.initialized);
    assert_eq!(tracker.units.len(), 1);
    assert_eq!(tracker.units[0].health, 100);
    assert_eq!(tracker.buildings[0].health, 400);
    assert_eq!(tracker.castle_health, vec![2000, 2000]);
}

#[test]
fn damage_deaths_alarms_and_rewards_are_cued_in_order() {
    let before = snapshot(
        MatchPhase::Playing,
        vec![unit(1, 1, 100), unit(2, 2, 80), unit(3, 2, 50)],
        vec![building(7, 1, 400)],
        [2000, 2000],
        vec![bounty(40, Team::Left, 5)],
    );
    let (tracker, _) = run(&fresh(), &before, Some(Team::Left), true);
    let after = snapshot(
        MatchPhase::Playing,
        vec![unit(1, 1, 70), unit(2, 2, 0)],
        vec![building(7, 1, 350)],
        [1990, 2000],
        vec![bounty(40, Team::Left, 5), bounty(41, Team::Left, 9), bounty(42, Team::Right, 9), bounty(41, Team::Left, 9)],
    );
    let (next, cues) = run(&tracker, &after, Some(Team::Left), true);
    assert_eq!(cues.len(), 7);
    assert!(matches!(cues[0], CombatCue::UnitDeath { id: 3, .. }));
    assert!(matches!(cues[1], CombatCue::UnitHit { index: 0, id: 1, damage: 30, survived: true }));
    assert!(matches!(cues[2], CombatCue::UnitHit { index: 1, id: 2, damage: 80, survived: false }));
    assert!(matches!(cues[3], CombatCue::BuildingHit { index: 0, id: 7, damage: 50 }));
    assert!(matches!(cues[4], CombatCue::CastleHit { index: 0, team: Team::Left, damage: 10 }));
    // The first snapshot did not pay out event 40, so it is rewarded now;
    // event 41 is rewarded once although it is listed twice.
    assert!(matches!(cues[5], CombatCue::Reward { index: 0, id: 40, team: Team::Left, amount: 5 }));
    assert!(matches!(cues[6], CombatCue::Reward { index: 1, id: 41, team: Team::Left, amount: 9 }));
    assert_eq!(next.seen_bounty_events, vec![40, 41]);

    // Events still listed are not rewarded again; ids that left are forgotten.
    let later = snapshot(MatchPhase::Playing, vec![unit(1, 1, 70)], Vec::new(), [1990, 2000], vec![bounty(41, Team::Left, 9)]);
    let (last, cues) = run(&next, &later, Some(Team::Left), true);
    assert!(cues.iter().all(|c| !matches!(c, CombatCue::Reward { .. })));
    assert_eq!(last.seen_bounty_events, vec![41]);
}

#[test]
fn hidden_enemies_give_no_cues_but_own_units_do() {
    let before = snapshot(MatchPhase::Playing, vec![unit(1, 1, 100), unit(2, 2, 100), unit(3, 2, 10)], Vec::new(), [2000, 2000], Vec::new());
    let (tracker, _) = run(&fresh(), &before, Some(Team::Left), false);
    let after = snapshot(MatchPhase::Playing, vec![unit(1, 1, 90), unit(2, 2, 90)], Vec::new(), [2000, 1500], Vec::new());
    let (_, cues) = run(&tracker, &after, Some(Team::Left), false);
    assert_eq!(cues.len(), 1);
    assert!(matches!(cues[0], CombatCue::UnitHit { id: 1, damage: 10, .. }));
    // A spectator sees everything.
    let (_, cues) = run(&tracker, &after, None, false);
    assert_eq!(cues.len(), 4);
}

#[test]
fn a_castle_at_zero_raises_no_alarm() {
    let before = snapshot(MatchPhase::Playing, Vec::new(), Vec::new(), [0, 2000], Vec::new());
    let (tracker, _) = run(&fresh(), &before, None, true);
    let after = snapshot(MatchPhase::Playing, Vec::new(), Vec::new(), [-5, 2000], Vec::new());
    let (_, cues) = run(&tracker, &after, None, true);
    assert!(cues.is_empty());
}

#[test]
fn leaving_play_forgets_everything() {
    let playing = snapshot(MatchPhase::Playing, vec![unit(1, 1, 100)], Vec::new(), [2000, 2000], vec![bounty(9, Team::Left, 3)]);
    let (tracker, _) = run(&fresh(), &playing, Some(Team::Left), true);
    let (tracker, _) = run(&tracker, &playing, Some(Team::Left), true);
    assert_eq!(tracker.seen_bounty_events, vec![9]);
    let ended = snapshot(MatchPhase::GameOver, Vec::new(), Vec::new(), [2000, 0], Vec::new());
    let (cleared, cues) = run(&tracker, &ended, Some(Team::Left), true);
    assert!(cues.is_empty());
    assert!(!cleared.initialized);
    assert!(cleared.units.is_empty() && cleared.castle_health.is_empty() && cleared.seen_bounty_events.is_empty());

    let lost = without_snapshot(&tracker);
    assert!(!lost.initialized);
    assert!(lost.units.is_empty() && lost.seen_bounty_events.is_empty());
    assert_eq!(lost.castle_health, vec![2000, 2000]);
}
