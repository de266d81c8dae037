use castle_lanes::chunking::{chunk_delta, delta_entity_count, empty_delta_like, flush_delta_chunk, SAFE_UDP_PAYLOAD_BYTES};
use castle_lanes::delta::{apply_snapshot_delta, diff_snapshot, BuildingUpdate, SnapshotDelta, UnitUpdate};
use castle_lanes::model::{
    Building, BuildingKind, BuildZone, Castle, Economy, GridCell, Lane, MatchPhase, MatchSnapshot,
    PlayerId, PlayerInfo, RaceKind, Scalar, Team, Unit, UnitKind, WorldPos,
};

fn s(value: f32) -> Scalar {
    Scalar { bits: value.to_bits() }
}

fn unit(id: u64, health: i32, lane_pos: f32) -> Unit {
    Unit {
        id,
        owner: PlayerId(1),
        kind: UnitKind::VanguardGuard,
        lane: Lane::Top,
        health,
        lane_pos: s(lane_pos),
        pos: WorldPos { x: s(lane_pos), y: s(0.0) },
        velocity: WorldPos { x: s(0.0), y: s(0.0) },
        radius: s(0.65),
        attack_timer: s(0.0),
        slow_timer: s(0.0),
        slow_factor: s(1.0),
        regen_accum: s(0.0),
    }
}

fn building(id: u64, health: i32, x: u8) -> Building {
    Building {
        id,
        owner: PlayerId(2),
        kind: BuildingKind::GroveThornSpire,
        lane: Lane::Bottom,
        zone: BuildZone::Front,
        cell: GridCell { x, y: 0 },
        health,
        max_health: 400,
        spawn_timer: s(2.0),
    }
}

fn snapshot(tick: u64, units: Vec<Unit>, buildings: Vec<Building>) -> MatchSnapshot {
    MatchSnapshot {
        phase: MatchPhase::Playing,
        tick,
        elapsed_secs: s(tick as f32 / 30.0),
        sudden_death: false,
        players: vec![
            PlayerInfo {
                id: PlayerId(1),
                name: "Alice".to_string(),
                team: Team::Left,
                race: Some(RaceKind::Vanguard),
                ready: true,
                connected: true,
            },
            PlayerInfo {
                id: PlayerId(2),
                name: "Bryn".to_string(),
                team: Team::Right,
                race: Some(RaceKind::Grove),
                ready: true,
                connected: true,
            },
        ],
        economies: vec![Economy { gold: 120, income: 10 }, Economy { gold: 90, income: 12 }],
        castles: vec![
            Castle { team: Team::Left, health: 2000, max_health: 2000 },
            Castle { team: Team::Right, health: 1980, max_health: 2000 },
        ],
        bounty_events: Vec::new(),
        winner: None,
        message: "Fight!".to_string(),
        units,
        buildings,
    }
}

/// A stand-in for the encoded size: a fixed frame plus a fixed cost per entity.
fn measured(delta: &SnapshotDelta) -> usize {
    200 + 300 * delta_entity_count(delta)
}

fn busy_delta() -> (MatchSnapshot, SnapshotDelta) {
    let previous = snapshot(
        10,
        vec![unit(1, 100, 1.0), unit(2, 100, 2.0), unit(3, 100, 3.0), unit(4, 100, 4.0)],
        vec![building(50, 400, 0), building(51, 400, 1), building(52, 400, 2)],
    );
    let current = snapshot(
        13,
        vec![
            unit(2, 90, 2.5),
            unit(3, 80, 3.5),
            unit(4, 70, 4.5),
            unit(5, 100, 0.0),
            unit(6, 100, 0.0),
            unit(7, 100, 0.0),
        ],
        vec![building(51, 380, 1), building(52, 360, 2), building(53, 400, 3), building(54, 400, 4)],
    );
    let delta = diff_snapshot(&previous, &current);
    (previous, delta)
}

#[test]
fn small_delta_stays_one_chunk() {
    let (_, delta) = busy_delta();
    let whole = empty_delta_like(&delta);
    let chunks = chunk_delta(whole, |_: &SnapshotDelta| 64);
    assert_eq!(chunks.len(), 1);
    assert_eq!(chunks[0], empty_delta_like(&delta));

    let (_, delta) = busy_delta();
    let expected = copy_delta(&delta);
    let chunks = chunk_delta(delta, |_: &SnapshotDelta| SAFE_UDP_PAYLOAD_BYTES);
    assert_eq!(chunks.len(), 1);
    assert_eq!(chunks[0], expected);
}

fn copy_delta(delta: &SnapshotDelta) -> SnapshotDelta {
    let mut copy = empty_delta_like(delta);
    copy.clear_entities = delta.clear_entities;
    copy.unit_creates = delta.unit_creates.clone();
    copy.unit_updates = delta.unit_updates.clone();
    copy.unit_removes = delta.unit_removes.clone();
    copy.building_creates = delta.building_creates.clone();
    copy.building_updates = delta.building_updates.clone();
    copy.building_removes = delta.building_removes.clone();
    copy
}

#[test]
fn large_delta_is_spread_over_chunks_in_order() {
    let (_, mut delta) = busy_delta();
    delta.clear_entities = true;
    let expected = copy_delta(&delta);
    assert_eq!(delta_entity_count(&delta), 10);
    let chunks = chunk_delta(delta, measured);
    // 200 + 300 * 3 = 1100 fits, a fourth entity does not.
    assert_eq!(chunks.len(), 4);
    let counts: Vec<usize> = chunks.iter().map(delta_entity_count).collect();
    assert_eq!(counts, vec![3, 3, 3, 1]);
    for (index, chunk) in chunks.iter().enumerate() {
        assert!(measured(chunk) <= SAFE_UDP_PAYLOAD_BYTES);
        assert_eq!(chunk.tick, expected.tick);
        assert_eq!(chunk.players, expected.players);
        assert_eq!(chunk.message, expected.message);
        assert_eq!(chunk.clear_entities, index == 0);
        if index == 0 {
            assert_eq!(chunk.unit_removes, expected.unit_removes);
            assert_eq!(chunk.building_removes, expected.building_removes);
        } else {
            assert!(chunk.unit_removes.is_empty());
            assert!(chunk.building_removes.is_empty());
        }
    }
    let unit_creates: Vec<Unit> = chunks.iter().flat_map(|c| c.unit_creates.clone()).collect();
    let unit_updates: Vec<UnitUpdate> = chunks.iter().flat_map(|c| c.unit_updates.clone()).collect();
    let building_creates: Vec<Building> =
        chunks.iter().flat_map(|c| c.building_creates.clone()).collect();
    let building_updates: Vec<BuildingUpdate> =
        chunks.iter().flat_map(|c| c.building_updates.clone()).collect();
    assert_eq!(unit_creates, expected.unit_creates);
    assert_eq!(unit_updates, expected.unit_updates);
    assert_eq!(building_creates, expected.building_creates);
    assert_eq!(building_updates, expected.building_updates);
    // unit creates 5, 6, 7 fill the first chunk; updates of 2, 3, 4 the second.
    assert_eq!(chunks[0].unit_creates.iter().map(|u| u.id).collect::<Vec<_>>(), vec![5, 6, 7]);
    assert_eq!(chunks[1].unit_updates.iter().map(|u| u.id).collect::<Vec<_>>(), vec![2, 3, 4]);
    assert_eq!(chunks[2].building_creates.iter().map(|b| b.id).collect::<Vec<_>>(), vec![53, 54]);
    assert_eq!(chunks[2].building_updates.iter().map(|b| b.id).collect::<Vec<_>>(), vec![51]);
    assert_eq!(chunks[3].building_updates.iter().map(|b| b.id).collect::<Vec<_>>(), vec![52]);
}

#[test]
fn oversized_entity_travels_alone() {
    let (_, delta) = busy_delta();
    let count = delta_entity_count(&delta);
    let chunks = chunk_delta(delta, |_: &SnapshotDelta| SAFE_UDP_PAYLOAD_BYTES + 1);
    assert_eq!(chunks.len(), count);
    for chunk in &chunks {
        assert_eq!(delta_entity_count(chunk), 1);
    }
}

#[test]
fn chunks_applied_in_turn_patch_like_the_whole_delta() {
    for limit in [0usize, 1, 2, 5] {
        let (previous, delta) = busy_delta();
        let mut whole = previous.duplicate();
        apply_snapshot_delta(&mut whole, copy_delta(&delta));
        let mut in_turn = previous.duplicate();
        let chunks = chunk_delta(delta, move |d: &SnapshotDelta| {
            if delta_entity_count(d) > limit {
                SAFE_UDP_PAYLOAD_BYTES + 1
            } else {
                SAFE_UDP_PAYLOAD_BYTES
            }
        });
        for chunk in chunks {
            apply_snapshot_delta(&mut in_turn, chunk);
        }
        assert_eq!(in_turn, whole);
    }
}

#[test]
fn flushing_a_chunk_keeps_the_match_state() {
    let (_, delta) = busy_delta();
    let mut chunks = Vec::new();
    let mut chunk = copy_delta(&delta);
    flush_delta_chunk(&mut chunks, &mut chunk);
    assert_eq!(chunks.len(), 1);
    assert_eq!(chunks[0], delta);
    assert_eq!(chunk, empty_delta_like(&delta));
    assert_eq!(delta_entity_count(&chunk), 0);
}

#[test]
fn every_chunk_but_the_last_is_full() {
    let (_, delta) = busy_delta();
    let chunks = chunk_delta(delta, measured);
    for pair in chunks.windows(2) {
        let mut grown = copy_delta(&pair[0]);
        let next = &pair[1];
        if let Some(first) = next.unit_creates.first() {
            grown.unit_creates.push(*first);
        } else if let Some(first) = next.unit_updates.first() {
            grown.unit_updates.push(*first);
        } else if let Some(first) = next.building_creates.first() {
            grown.building_creates.push(*first);
        } else {
            grown.building_updates.push(next.building_updates[0]);
        }
        assert!(delta_entity_count(&pair[0]) >= 1);
        assert!(measured(&grown) > SAFE_UDP_PAYLOAD_BYTES);
    }
}
