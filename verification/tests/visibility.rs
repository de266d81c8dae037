use std::collections::HashMap;

use castle_lanes::model::{
    BountyEvent, Building, BuildingKind, BuildZone, Castle, Economy, GridCell, Lane, MatchPhase,
    MatchSnapshot, PlayerId, PlayerInfo, RaceKind, Scalar, Team, Unit, UnitKind, WorldPos,
};
use castle_lanes::visibility::{entityless_snapshot, filter_snapshot_for_viewer, Vision};

fn s(value: f32) -> Scalar {
    Scalar { bits: value.to_bits() }
}

fn guard(id: u64, owner: u8, lane_pos: f32) -> Unit {
    Unit {
        id,
        owner: PlayerId(owner),
        kind: UnitKind::VanguardGuard,
        lane: Lane::Top,
        health: 100,
        lane_pos: s(lane_pos),
        pos: WorldPos { x: s(lane_pos), y: s(0.0) },
        velocity: WorldPos { x: s(0.0), y: s(0.0) },
        radius: s(0.65),
        attack_timer: s(0.0),
        slow_timer: s(0.0),
        slow_factor: s(1.0),
        regen_accum: s(0.0),
    }
}

fn tower(id: u64, owner: u8, kind: BuildingKind, health: i32) -> Building {
    Building {
        id,
        owner: PlayerId(owner),
        kind,
        lane: Lane::Top,
        zone: BuildZone::Front,
        cell: GridCell { x: 0, y: 0 },
        health,
        max_health: 400,
        spawn_timer: s(0.0),
    }
}

fn player(id: u8, name: &str, team: Team) -> PlayerInfo {
    PlayerInfo {
        id: PlayerId(id),
        name: name.to_string(),
        team,
        race: Some(RaceKind::Vanguard),
        ready: true,
        connected: true,
    }
}

fn snapshot(phase: MatchPhase, units: Vec<Unit>, buildings: Vec<Building>, bounty_events: Vec<BountyEvent>) -> MatchSnapshot {
    MatchSnapshot {
        phase,
        tick: 10,
        elapsed_secs: s(0.3),
        sudden_death: false,
        players: vec![player(1, "Alice", Team::Left), player(2, "Bryn", Team::Right)],
        economies: vec![Economy { gold: 150, income: 10 }, Economy { gold: 150, income: 10 }],
        castles: vec![
            Castle { team: Team::Left, health: 2000, max_health: 2000 },
            Castle { team: Team::Right, health: 2000, max_health: 2000 },
        ],
        bounty_events,
        winner: None,
        message: String::new(),
        units,
        buildings,
    }
}

#[test]
fn filtering_hides_unseen_enemies_and_stales_seen_buildings() {
    let barracks = tower(1, 1, BuildingKind::VanguardBarracks, 400);
    let range_tower = tower(2, 2, BuildingKind::VanguardRangeTower, 400);
    let snapshot_at = |scout_pos: f32, enemy_health: i32| {
        let mut enemy = range_tower;
        enemy.health = enemy_health;
        snapshot(
            MatchPhase::Playing,
            vec![guard(900, 1, scout_pos), guard(901, 2, 95.0)],
            vec![barracks, enemy],
            Vec::new(),
        )
    };
    let mut seen = HashMap::new();

    // The scout at 50 sees neither the enemy unit at 95 nor the enemy tower.
    let first = snapshot_at(50.0, 400);
    let vision = Vision { units: vec![true, false], buildings: vec![true, false] };
    let visible = filter_snapshot_for_viewer(&first, Some(Team::Left), &mut seen, &vision);
    assert!(visible.units.iter().any(|unit| unit.id == 900));
    assert!(!visible.units.iter().any(|unit| unit.id == 901));
    assert_eq!(visible.buildings.len(), 1);
    assert!(visible.bounty_events.is_empty());

    // Scouting at 88 reveals the tower and the enemy unit.
    let scouted = snapshot_at(88.0, 400);
    let vision = Vision { units: vec![true, true], buildings: vec![true, true] };
    let scouted = filter_snapshot_for_viewer(&scouted, Some(Team::Left), &mut seen, &vision);
    assert_eq!(scouted.buildings.len(), 2);
    assert!(scouted.units.iter().any(|unit| unit.id == 901));

    // Back at 50: the tower stays as the copy seen last.
    let stale = snapshot_at(50.0, 120);
    let vision = Vision { units: vec![true, false], buildings: vec![true, false] };
    let stale_view = filter_snapshot_for_viewer(&stale, Some(Team::Left), &mut seen, &vision);
    assert_eq!(stale_view.buildings.len(), 2, "seen building stays as stale copy");
    assert_eq!(stale_view.buildings[1].health, 400);
    assert!(!stale_view.units.iter().any(|unit| unit.id == 901));

    // No viewer: nothing leaks.
    let empty = filter_snapshot_for_viewer(&stale, None, &mut seen, &vision);
    assert!(empty.units.is_empty() && empty.buildings.is_empty());

    // Destroyed buildings are pruned from the seen set.
    let destroyed = snapshot(MatchPhase::Playing, vec![guard(900, 1, 50.0), guard(901, 2, 95.0)], vec![barracks], Vec::new());
    let vision = Vision { units: vec![true, false], buildings: vec![true] };
    let destroyed = filter_snapshot_for_viewer(&destroyed, Some(Team::Left), &mut seen, &vision);
    assert_eq!(destroyed.buildings.len(), 1);
    assert!(seen.is_empty());
}

#[test]
fn bounty_events_only_for_own_side() {
    let event = |id: u64, team: Team| BountyEvent {
        id,
        team,
        unit_kind: UnitKind::EmberRunner,
        amount: 5,
        pos: WorldPos { x: s(10.0), y: s(0.0) },
    };
    let snap = snapshot(MatchPhase::Playing, Vec::new(), Vec::new(), vec![event(1, Team::Left), event(2, Team::Right), event(3, Team::Left)]);
    let mut seen = HashMap::new();
    let vision = Vision { units: Vec::new(), buildings: Vec::new() };
    let right = filter_snapshot_for_viewer(&snap, Some(Team::Right), &mut seen, &vision);
    assert_eq!(right.bounty_events.len(), 1);
    assert_eq!(right.bounty_events[0].id, 2);
    let none = filter_snapshot_for_viewer(&snap, None, &mut seen, &vision);
    assert!(none.bounty_events.is_empty());
}

#[test]
fn game_over_reveals_everything_and_forgets_seen() {
    let snap = snapshot(
        MatchPhase::GameOver,
        vec![guard(1, 1, 10.0), guard(2, 2, 90.0)],
        vec![tower(3, 2, BuildingKind::EmberFlameSpire, 10)],
        Vec::new(),
    );
    let mut seen = HashMap::new();
    seen.insert(3, tower(3, 2, BuildingKind::EmberFlameSpire, 400));
    let vision = Vision { units: vec![false, false], buildings: vec![false] };
    let all = filter_snapshot_for_viewer(&snap, Some(Team::Left), &mut seen, &vision);
    assert_eq!(all, snap);
    assert!(seen.is_empty());
}

#[test]
fn unseated_owner_counts_as_left() {
    let snap = snapshot(MatchPhase::Playing, vec![guard(1, 7, 10.0)], Vec::new(), Vec::new());
    let mut seen = HashMap::new();
    let vision = Vision { units: vec![false], buildings: Vec::new() };
    assert_eq!(filter_snapshot_for_viewer(&snap, Some(Team::Left), &mut seen, &vision).units.len(), 1);
    assert_eq!(filter_snapshot_for_viewer(&snap, Some(Team::Right), &mut seen, &vision).units.len(), 0);
}

#[test]
fn entityless_snapshot_keeps_match_state() {
    let snap = snapshot(MatchPhase::Playing, vec![guard(1, 1, 10.0)], vec![tower(2, 1, BuildingKind::VanguardChapel, 300)], Vec::new());
    let stripped = entityless_snapshot(&snap);
    assert!(stripped.units.is_empty() && stripped.buildings.is_empty());
    assert_eq!(stripped.players, snap.players);
    assert_eq!(stripped.castles, snap.castles);
    assert_eq!(stripped.tick, snap.tick);
}
