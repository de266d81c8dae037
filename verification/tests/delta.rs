use castle_lanes::delta::{apply_snapshot_delta, diff_snapshot, upsert_building, upsert_unit, SnapshotDelta, UnitUpdate};
use castle_lanes::model::{
    Building, BuildingKind, BuildZone, Castle, Economy, GridCell, Lane, MatchPhase, MatchSnapshot,
    PlayerId, PlayerInfo, RaceKind, Scalar, Team, Unit, UnitKind, WorldPos,
};

fn s(value: f32) -> Scalar {
    Scalar { bits: value.to_bits() }
}

fn lane_point(lane_pos: f32) -> WorldPos {
    WorldPos { x: s(lane_pos), y: s(0.0) }
}

fn unit(id: u64, owner: u8, kind: UnitKind, health: i32, lane_pos: f32, attack_timer: f32) -> Unit {
    Unit {
        id,
        owner: PlayerId(owner),
        kind,
        lane: Lane::Top,
        health,
        lane_pos: s(lane_pos),
        pos: lane_point(lane_pos),
        velocity: WorldPos { x: s(0.0), y: s(0.0) },
        radius: s(0.65),
        attack_timer: s(attack_timer),
        slow_timer: s(0.0),
        slow_factor: s(1.0),
        regen_accum: s(0.0),
    }
}

fn building(id: u64, owner: u8, kind: BuildingKind, health: i32) -> Building {
    Building {
        id,
        owner: PlayerId(owner),
        kind,
        lane: Lane::Top,
        zone: BuildZone::Front,
        cell: GridCell { x: 0, y: 0 },
        health,
        max_health: 400,
        spawn_timer: s(3.0),
    }
}

fn player(id: u8, name: &str, team: Team) -> PlayerInfo {
    PlayerInfo {
        id: PlayerId(id),
        name: name.to_string(),
        team,
        race: Some(RaceKind::Vanguard),
        ready: true,
        connected: true,
    }
}

fn snapshot(tick: u64, units: Vec<Unit>, buildings: Vec<Building>) -> MatchSnapshot {
    MatchSnapshot {
        phase: MatchPhase::Playing,
        tick,
        elapsed_secs: s(tick as f32 / 30.0),
        sudden_death: false,
        players: vec![player(1, "Alice", Team::Left), player(2, "Bryn", Team::Right)],
        economies: vec![Economy { gold: 150, income: 10 }, Economy { gold: 150, income: 10 }],
        castles: vec![
            Castle { team: Team::Left, health: 2000, max_health: 2000 },
            Castle { team: Team::Right, health: 2000, max_health: 2000 },
        ],
        bounty_events: Vec::new(),
        winner: None,
        message: String::new(),
        units,
        buildings,
    }
}

fn copy(snapshot: &MatchSnapshot) -> MatchSnapshot {
    snapshot.duplicate()
}

#[test]
fn snapshot_delta_reconstructs_current_snapshot() {
    let previous = snapshot(1, vec![unit(900, 1, UnitKind::VanguardGuard, 100, 20.0, 0.4)], Vec::new());

    let mut moved = unit(900, 1, UnitKind::VanguardGuard, 75, 22.0, 0.4);
    moved.pos = lane_point(22.0);
    let current = snapshot(
        2,
        vec![moved, unit(901, 2, UnitKind::EmberRunner, 80, 23.0, 0.2)],
        Vec::new(),
    );

    let delta = diff_snapshot(&previous, &current);
    assert_eq!(delta.unit_creates.len(), 1);
    assert_eq!(delta.unit_updates.len(), 1);

    let mut reconstructed = copy(&previous);
    apply_snapshot_delta(&mut reconstructed, delta);

    assert_eq!(reconstructed, current);
    assert_eq!(reconstructed.phase, MatchPhase::Playing);
}

#[test]
fn unchanged_snapshot_gives_delta_without_entity_changes() {
    let current = snapshot(
        5,
        vec![unit(1, 1, UnitKind::VanguardArcher, 50, 10.0, 0.0)],
        vec![building(7, 2, BuildingKind::EmberAshPack, 300)],
    );
    let delta = diff_snapshot(&current, &copy(&current));
    assert!(!delta.has_entity_changes());
    assert_eq!(delta.tick, 5);
}

#[test]
fn changed_identity_is_sent_whole_and_vanished_ids_removed() {
    let previous = snapshot(
        1,
        vec![unit(1, 1, UnitKind::VanguardGuard, 100, 5.0, 0.0), unit(2, 2, UnitKind::GroveBruiser, 90, 80.0, 0.0)],
        vec![building(10, 1, BuildingKind::VanguardBarracks, 400), building(11, 2, BuildingKind::GroveRootDen, 400)],
    );
    let mut upgraded = building(10, 1, BuildingKind::VanguardForge, 400);
    upgraded.max_health = 600;
    let mut damaged = building(11, 2, BuildingKind::GroveRootDen, 250);
    damaged.spawn_timer = s(1.5);
    let current = snapshot(
        2,
        vec![unit(1, 1, UnitKind::VanguardLancer, 100, 5.0, 0.0)],
        vec![upgraded, damaged],
    );
    let delta = diff_snapshot(&previous, &current);
    assert_eq!(delta.unit_creates, vec![unit(1, 1, UnitKind::VanguardLancer, 100, 5.0, 0.0)]);
    assert!(delta.unit_updates.is_empty());
    assert_eq!(delta.unit_removes, vec![2]);
    assert_eq!(delta.building_creates, vec![upgraded]);
    assert_eq!(delta.building_updates.len(), 1);
    assert_eq!(delta.building_updates[0].health, 250);
    assert!(delta.building_removes.is_empty());

    let mut rebuilt = copy(&previous);
    apply_snapshot_delta(&mut rebuilt, delta);
    assert_eq!(rebuilt, current);
}

#[test]
fn clearing_delta_rebuilds_from_nothing() {
    let current = snapshot(
        3,
        vec![unit(4, 2, UnitKind::EmberCaster, 60, 40.0, 0.1)],
        vec![building(9, 2, BuildingKind::EmberFlameSpire, 350)],
    );
    let mut empty = copy(&current);
    empty.units.clear();
    empty.buildings.clear();
    let mut delta = diff_snapshot(&empty, &current);
    delta.clear_entities = true;
    assert!(delta.has_entity_changes());

    let mut stale = snapshot(0, vec![unit(77, 1, UnitKind::GroveNeedler, 10, 1.0, 0.0)], Vec::new());
    apply_snapshot_delta(&mut stale, delta);
    assert_eq!(stale, current);
}

#[test]
fn sim_local_unit_state_is_not_replicated() {
    let previous = snapshot(1, vec![unit(5, 1, UnitKind::VanguardGuard, 100, 5.0, 0.0)], Vec::new());
    let mut slowed = unit(5, 1, UnitKind::VanguardGuard, 100, 5.0, 0.0);
    slowed.slow_timer = s(2.0);
    slowed.slow_factor = s(0.5);
    let current = snapshot(2, vec![slowed], Vec::new());
    let delta = diff_snapshot(&previous, &current);
    assert!(!delta.has_entity_changes());
    let mut rebuilt = copy(&previous);
    apply_snapshot_delta(&mut rebuilt, delta);
    assert_eq!(rebuilt.units[0].slow_timer, s(0.0));
    assert_eq!(rebuilt.tick, 2);
}

#[test]
fn empty_delta_carries_match_state_only() {
    let current = snapshot(8, vec![unit(1, 1, UnitKind::VanguardGuard, 100, 5.0, 0.0)], Vec::new());
    let delta = SnapshotDelta::empty_from(&current);
    assert!(!delta.has_entity_changes());
    assert_eq!(delta.tick, 8);
    assert_eq!(delta.players, current.players);
    assert!(delta.unit_creates.is_empty());
}

#[test]
fn upsert_replaces_by_id_or_appends() {
    let mut units = vec![unit(1, 1, UnitKind::VanguardGuard, 100, 5.0, 0.0)];
    upsert_unit(&mut units, unit(1, 1, UnitKind::VanguardGuard, 40, 6.0, 0.0));
    assert_eq!(units.len(), 1);
    assert_eq!(units[0].health, 40);
    upsert_unit(&mut units, unit(2, 2, UnitKind::EmberRunner, 80, 90.0, 0.0));
    assert_eq!(units.len(), 2);

    let mut buildings = Vec::new();
    upsert_building(&mut buildings, building(3, 1, BuildingKind::VanguardChapel, 100));
    upsert_building(&mut buildings, building(3, 1, BuildingKind::VanguardChapel, 90));
    assert_eq!(buildings, vec![building(3, 1, BuildingKind::VanguardChapel, 90)]);
}

#[test]
fn unit_update_round_trip() {
    let before = unit(3, 1, UnitKind::VanguardPikeman, 100, 1.0, 0.0);
    let after = unit(3, 1, UnitKind::VanguardPikeman, 70, 2.0, 0.3);
    let update = UnitUpdate::from_unit(&after);
    let mut patched = before;
    update.apply_to(&mut patched);
    assert_eq!(patched, after);
}

#[test]
fn scalars_compare_as_f32() {
    let values = [0.0f32, -0.0, 1.0, -1.0, 0.5, f32::NAN, -f32::NAN, f32::INFINITY, f32::NEG_INFINITY, f32::MIN_POSITIVE, 1e-45, f32::MAX];
    for a in values {
        for b in values {
            assert_eq!(s(a).eq_value(&s(b)), a == b, "{a} vs {b}");
        }
    }
    let quiet_nan = Scalar { bits: 0x7fc0_0001 };
    assert!(!quiet_nan.eq_value(&quiet_nan));
}

#[test]
fn deltas_follow_f32_equality() {
    let mut before = unit(1, 1, UnitKind::VanguardGuard, 100, 0.0, 0.0);
    let mut after = before;
    after.radius = s(0.65);
    before.radius = s(0.65);
    // A zero that only changes its sign is not a change.
    before.lane_pos = s(0.0);
    after.lane_pos = s(-0.0);
    after.pos = WorldPos { x: s(-0.0), y: s(0.0) };
    let previous = snapshot(1, vec![before], Vec::new());
    let current = snapshot(2, vec![after], Vec::new());
    let delta = diff_snapshot(&previous, &current);
    assert!(delta.unit_creates.is_empty());
    assert!(delta.unit_updates.is_empty());

    // A radius that turns from +0.0 into -0.0 keeps the unit's identity.
    let mut thin = before;
    thin.radius = s(0.0);
    let mut thin_after = thin;
    thin_after.radius = s(-0.0);
    let delta = diff_snapshot(&snapshot(1, vec![thin], Vec::new()), &snapshot(2, vec![thin_after], Vec::new()));
    assert!(delta.unit_creates.is_empty());

    // A NaN never equals itself: the unit is sent again each time.
    let mut odd = before;
    odd.attack_timer = s(f32::NAN);
    let same = snapshot(3, vec![odd], Vec::new());
    let delta = diff_snapshot(&same, &same);
    assert_eq!(delta.unit_updates.len(), 1);
    let mut odd_radius = before;
    odd_radius.radius = s(f32::NAN);
    let same = snapshot(3, vec![odd_radius], Vec::new());
    assert_eq!(diff_snapshot(&same, &same).unit_creates.len(), 1);
}

#[test]
fn a_delta_received_twice_changes_nothing_more() {
    let previous = snapshot(
        1,
        vec![unit(1, 1, UnitKind::VanguardGuard, 100, 5.0, 0.0), unit(2, 2, UnitKind::GroveBruiser, 90, 80.0, 0.0), unit(3, 1, UnitKind::VanguardArcher, 60, 9.0, 0.0)],
        vec![building(10, 1, BuildingKind::VanguardBarracks, 400), building(11, 2, BuildingKind::GroveRootDen, 400)],
    );
    let current = snapshot(
        2,
        vec![unit(1, 1, UnitKind::VanguardGuard, 95, 6.0, 0.3), unit(2, 2, UnitKind::GroveNeedler, 90, 80.0, 0.0), unit(4, 1, UnitKind::VanguardLancer, 70, 0.0, 0.0)],
        vec![building(11, 2, BuildingKind::GroveRootDen, 350), building(12, 1, BuildingKind::VanguardForge, 400)],
    );
    let once_delta = diff_snapshot(&previous, &current);
    let twice_delta = diff_snapshot(&previous, &current);
    let mut once = copy(&previous);
    apply_snapshot_delta(&mut once, once_delta);
    // Survivors keep their order and new ids come after them: the rebuilt
    // snapshot is the current one, in order.
    assert_eq!(once, current);
    let mut twice = copy(&once);
    apply_snapshot_delta(&mut twice, twice_delta);
    assert_eq!(twice, once);
}

#[test]
fn equality_of_snapshot_values_is_f32_equality() {
    assert_eq!(s(0.0), s(-0.0));
    assert_ne!(s(f32::NAN), s(f32::NAN));
    assert_ne!(s(1.0), s(-1.0));
    let mut a = unit(5, 1, UnitKind::VanguardGuard, 10, 0.0, 0.0);
    let mut b = a;
    b.lane_pos = s(-0.0);
    assert_eq!(a, b);
    assert_eq!(UnitUpdate::from_unit(&a), UnitUpdate::from_unit(&b));
    a.attack_timer = s(f32::NAN);
    assert_ne!(a, a);
}

fn recreating_delta(base: &MatchSnapshot, recreated_last: bool) -> SnapshotDelta {
    let mut delta = SnapshotDelta::empty_from(base);
    delta.unit_removes.push(1);
    let fresh = unit(1, 2, UnitKind::EmberRunner, 30, 70.0, 0.0);
    let other = unit(3, 2, UnitKind::EmberCaster, 50, 60.0, 0.0);
    if recreated_last {
        delta.unit_creates.push(other);
        delta.unit_creates.push(fresh);
    } else {
        delta.unit_creates.push(fresh);
        delta.unit_creates.push(other);
    }
    delta
}

#[test]
fn a_recreated_id_sent_last_is_reapplied_unchanged() {
    let base = snapshot(
        1,
        vec![unit(1, 1, UnitKind::VanguardGuard, 100, 5.0, 0.0), unit(2, 1, UnitKind::VanguardArcher, 60, 9.0, 0.0)],
        Vec::new(),
    );
    let mut once = copy(&base);
    apply_snapshot_delta(&mut once, recreating_delta(&base, true));
    let ids: Vec<u64> = once.units.iter().map(|u| u.id).collect();
    assert_eq!(ids, vec![2, 3, 1]);
    let mut twice = copy(&once);
    apply_snapshot_delta(&mut twice, recreating_delta(&base, true));
    assert_eq!(twice, once);
}

#[test]
fn a_recreated_id_sent_first_is_reapplied_with_the_same_entities() {
    let base = snapshot(
        1,
        vec![unit(1, 1, UnitKind::VanguardGuard, 100, 5.0, 0.0), unit(2, 1, UnitKind::VanguardArcher, 60, 9.0, 0.0)],
        Vec::new(),
    );
    let mut once = copy(&base);
    apply_snapshot_delta(&mut once, recreating_delta(&base, false));
    let ids: Vec<u64> = once.units.iter().map(|u| u.id).collect();
    assert_eq!(ids, vec![2, 1, 3]);
    let mut twice = copy(&once);
    apply_snapshot_delta(&mut twice, recreating_delta(&base, false));
    let ids: Vec<u64> = twice.units.iter().map(|u| u.id).collect();
    assert_eq!(ids, vec![2, 3, 1]);
    for id in [1u64, 2, 3] {
        let a = once.units.iter().find(|u| u.id == id).unwrap();
        let b = twice.units.iter().find(|u| u.id == id).unwrap();
        assert_eq!(a, b);
    }
    assert_eq!(twice.tick, once.tick);
}

#[test]
fn a_zero_that_flips_sign_still_rebuilds_the_current_snapshot() {
    let mut before = unit(1, 1, UnitKind::VanguardGuard, 100, 0.0, 0.0);
    before.velocity = WorldPos { x: s(0.0), y: s(-0.0) };
    let mut after = before;
    after.lane_pos = s(-0.0);
    after.velocity = WorldPos { x: s(-0.0), y: s(0.0) };
    after.health = 90;
    let previous = snapshot(1, vec![before, unit(2, 2, UnitKind::GroveBruiser, 80, 3.0, 0.0)], vec![building(9, 1, BuildingKind::VanguardChapel, 100)]);
    let mut timer_flipped = building(9, 1, BuildingKind::VanguardChapel, 100);
    timer_flipped.spawn_timer = s(-0.0);
    let mut zero_timer = building(9, 1, BuildingKind::VanguardChapel, 100);
    zero_timer.spawn_timer = s(0.0);
    let previous = MatchSnapshot { buildings: vec![zero_timer], ..previous };
    let current = snapshot(2, vec![after, unit(2, 2, UnitKind::GroveBruiser, 80, 3.0, 0.0)], vec![timer_flipped]);
    let delta = diff_snapshot(&previous, &current);
    let mut rebuilt = copy(&previous);
    apply_snapshot_delta(&mut rebuilt, delta);
    assert_eq!(rebuilt, current);
    // The bits of the flipped zeros are the previous ones: f32 equality
    // cannot tell them apart, so they were never sent.
    assert_eq!(rebuilt.buildings[0].spawn_timer.bits, 0.0f32.to_bits());
}

#[test]
fn a_recreated_id_before_a_kept_id_is_reapplied_unchanged() {
    let base = snapshot(
        1,
        vec![unit(1, 1, UnitKind::VanguardGuard, 100, 5.0, 0.0), unit(2, 1, UnitKind::VanguardArcher, 60, 9.0, 0.0)],
        Vec::new(),
    );
    let delta = || {
        let mut delta = SnapshotDelta::empty_from(&base);
        delta.unit_removes.push(1);
        delta.unit_creates.push(unit(1, 2, UnitKind::EmberRunner, 30, 70.0, 0.0));
        delta.unit_creates.push(unit(2, 1, UnitKind::VanguardArcher, 55, 9.5, 0.0));
        delta
    };
    let mut once = copy(&base);
    apply_snapshot_delta(&mut once, delta());
    let ids: Vec<u64> = once.units.iter().map(|u| u.id).collect();
    assert_eq!(ids, vec![2, 1]);
    let mut twice = copy(&once);
    apply_snapshot_delta(&mut twice, delta());
    assert_eq!(twice, once);
}
