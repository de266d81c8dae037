//! What one side of a match is allowed to know.
//!
//! Each client receives its own entities always, enemy units only inside its
//! side's current vision, enemy buildings only while visible or once seen
//! (a building seen before is re-sent as the copy last seen, so the client can
//! keep drawing its silhouette), and bounty events only for its own side.
//! A client with no side (in the lobby) receives no entities, and the final
//! snapshot of a match reveals everything.
use std::collections::HashMap;
use vstd::prelude::*;

use crate::keyed::{distinct_keys, key_map, Keyed};
use crate::model::{
    BountyEvent, Building, MatchPhase, MatchSnapshot, PlayerId, PlayerInfo,
    SnapshotModel, Team, Unit,
};

verus! {

broadcast use vstd::std_specs::hash::group_hash_axioms;

/// Which entities of a snapshot lie in a side's current vision: `units[i]`
/// tells whether the position of the snapshot's `i`-th unit is revealed to the
/// viewing side, `buildings[i]` the same for the grid cell of its `i`-th
/// building on its owner's side of the map.
pub struct Vision {
    pub units: Vec<bool>,
    pub buildings: Vec<bool>,
}

/// The side of each seated player id; where an id is listed twice the later
/// entry wins.
pub open spec fn side_table_of(players: Seq<PlayerInfo>) -> Map<u64, Team>
    decreases players.len(),
{
    if players.len() == 0 {
        Map::empty()
    } else {
        side_table_of(players.drop_last()).insert(
            players.last().id.0 as u64,
            players.last().team,
        )
    }
}

/// The side an owner plays on; an owner that is not seated counts as Left.
pub open spec fn side_in(players: Seq<PlayerInfo>, owner: PlayerId) -> Team {
    if side_table_of(players).contains_key(owner.0 as u64) {
        side_table_of(players)[owner.0 as u64]
    } else {
        Team::Left
    }
}

/// The units of the first `n` that the viewer may see: own units and units in
/// vision.
pub open spec fn visible_units(s: SnapshotModel, viewer: Team, vision: Seq<bool>, n: int) -> Seq<
    Unit,
>
    decreases n,
{
    if n <= 0 {
        Seq::empty()
    } else {
        let rest = visible_units(s, viewer, vision, n - 1);
        let u = s.units[n - 1];
        if side_in(s.players, u.owner) == viewer || vision[n - 1] {
            rest.push(u)
        } else {
            rest
        }
    }
}

/// Scans the first `n` buildings: own ones are kept, visible enemy ones are
/// kept and remembered as seen, unseen enemy ones are replaced by the copy
/// seen last, if any. Returns the kept buildings and the seen copies.
pub open spec fn scan_buildings(
    s: SnapshotModel,
    viewer: Team,
    vision: Seq<bool>,
    seen: Map<u64, Building>,
    n: int,
) -> (Seq<Building>, Map<u64, Building>)
    decreases n,
{
    if n <= 0 {
        (Seq::empty(), seen)
    } else {
        let (kept, memory) = scan_buildings(s, viewer, vision, seen, n - 1);
        let b = s.buildings[n - 1];
        if side_in(s.players, b.owner) == viewer {
            (kept.push(b), memory)
        } else if vision[n - 1] {
            (kept.push(b), memory.insert(b.id, b))
        } else if memory.contains_key(b.id) {
            (kept.push(memory[b.id]), memory)
        } else {
            (kept, memory)
        }
    }
}

pub open spec fn on_side(viewer: Team) -> spec_fn(BountyEvent) -> bool {
    |e: BountyEvent| e.team == viewer
}

/// `s` with no units and no buildings.
pub open spec fn without_entities(s: SnapshotModel) -> SnapshotModel {
    SnapshotModel { units: Seq::empty(), buildings: Seq::empty(), ..s }
}

/// What a viewer receives of `s`, and the seen enemy buildings afterwards.
pub open spec fn filtered_for(
    s: SnapshotModel,
    viewer: Option<Team>,
    vision_units: Seq<bool>,
    vision_buildings: Seq<bool>,
    seen: Map<u64, Building>,
) -> (SnapshotModel, Map<u64, Building>) {
    match viewer {
        None => (SnapshotModel { bounty_events: Seq::empty(), ..without_entities(s) }, seen),
        Some(v) => if s.phase == MatchPhase::GameOver {
            (s, Map::empty())
        } else {
            let scan = scan_buildings(s, v, vision_buildings, seen, s.buildings.len() as int);
            (
                SnapshotModel {
                    units: visible_units(s, v, vision_units, s.units.len() as int),
                    buildings: scan.0,
                    bounty_events: s.bounty_events.filter(on_side(v)),
                    ..s
                },
                scan.1.restrict(key_map(s.buildings).dom()),
            )
        },
    }
}

/// The side of every seated player.
fn side_table(players: &Vec<PlayerInfo>) -> (sides: HashMap<u64, Team>)
    ensures
        sides@ == side_table_of(players@),
{
    let mut sides: HashMap<u64, Team> = HashMap::new();
    let mut i: usize = 0;
    while i < players.len()
        invariant
            i <= players.len(),
            sides@ == side_table_of(players@.take(i as int)),
        decreases players.len() - i,
    {
        let player = &players[i];
        sides.insert(player.id.0 as u64, player.team);
        proof {
            assert(players@.take(i + 1).drop_last() =~= players@.take(i as int));
        }
        i = i + 1;
    }
    proof {
        assert(players@.take(players@.len() as int) =~= players@);
    }
    sides
}

fn side_of(sides: &HashMap<u64, Team>, owner: PlayerId) -> (side: Team)
    ensures
        side == (if sides@.contains_key(owner.0 as u64) {
            sides@[owner.0 as u64]
        } else {
            Team::Left
        }),
{
    match sides.get(&(owner.0 as u64)) {
        Some(team) => *team,
        None => Team::Left,
    }
}

/// Filters `snapshot` down to what `viewer` may know (see the module
/// documentation), updating the enemy buildings that viewer has seen.
pub fn filter_snapshot_for_viewer(
    snapshot: &MatchSnapshot,
    viewer: Option<Team>,
    seen_enemy_buildings: &mut HashMap<u64, Building>,
    vision: &Vision,
) -> (filtered: MatchSnapshot)
    requires
        vision.units.len() == snapshot.units.len(),
        vision.buildings.len() == snapshot.buildings.len(),
    ensures
        (filtered@, final(seen_enemy_buildings)@) == filtered_for(
            snapshot@,
            viewer,
            vision.units@,
            vision.buildings@,
            old(seen_enemy_buildings)@,
        ),
{
    let ghost s = snapshot@;
    let mut filtered = snapshot.duplicate();
    let viewer = match viewer {
        None => {
            filtered.units = Vec::new();
            filtered.buildings = Vec::new();
            filtered.bounty_events = Vec::new();
            assert(filtered@ =~= SnapshotModel { bounty_events: Seq::empty(), ..without_entities(s) });
            return filtered;
        },
        Some(viewer) => viewer,
    };
    if snapshot.phase == MatchPhase::GameOver {
        seen_enemy_buildings.clear();
        return filtered;
    }
    let sides = side_table(&snapshot.players);

    let mut units: Vec<Unit> = Vec::new();
    let mut i: usize = 0;
    while i < snapshot.units.len()
        invariant
            i <= snapshot.units.len(),
            s == snapshot@,
            vision.units.len() == snapshot.units.len(),
            sides@ == side_table_of(snapshot.players@),
            units@ == visible_units(s, viewer, vision.units@, i as int),
        decreases snapshot.units.len() - i,
    {
        let unit = snapshot.units[i];
        if side_of(&sides, unit.owner) == viewer || vision.units[i] {
            units.push(unit);
        }
        i = i + 1;
    }

    let ghost seen0 = seen_enemy_buildings@;
    let mut kept: Vec<Building> = Vec::new();
    let mut j: usize = 0;
    while j < snapshot.buildings.len()
        invariant
            j <= snapshot.buildings.len(),
            s == snapshot@,
            vision.buildings.len() == snapshot.buildings.len(),
            sides@ == side_table_of(snapshot.players@),
            (kept@, seen_enemy_buildings@) == scan_buildings(
                s,
                viewer,
                vision.buildings@,
                seen0,
                j as int,
            ),
        decreases snapshot.buildings.len() - j,
    {
        let building = snapshot.buildings[j];
        if side_of(&sides, building.owner) == viewer {
            kept.push(building);
        } else if vision.buildings[j] {
            seen_enemy_buildings.insert(building.id, building);
            kept.push(building);
        } else {
            match seen_enemy_buildings.get(&building.id) {
                Some(stale) => {
                    kept.push(*stale);
                },
                None => {},
            }
        }
        j = j + 1;
    }
    let ghost scanned = seen_enemy_buildings@;

    let mut pruned: HashMap<u64, Building> = HashMap::new();
    let mut k: usize = 0;
    while k < snapshot.buildings.len()
        invariant
            k <= snapshot.buildings.len(),
            s == snapshot@,
            seen_enemy_buildings@ == scanned,
            pruned@ == scanned.restrict(key_map(s.buildings.take(k as int)).dom()),
        decreases snapshot.buildings.len() - k,
    {
        let id = snapshot.buildings[k].id;
        match seen_enemy_buildings.get(&id) {
            Some(copy) => {
                pruned.insert(id, *copy);
            },
            None => {},
        }
        proof {
            assert(s.buildings.take(k + 1).drop_last() =~= s.buildings.take(k as int));
            assert(pruned@ =~= scanned.restrict(key_map(s.buildings.take(k + 1)).dom()));
        }
        k = k + 1;
    }
    proof {
        assert(s.buildings.take(s.buildings.len() as int) =~= s.buildings);
    }
    *seen_enemy_buildings = pruned;

    let mut events: Vec<BountyEvent> = Vec::new();
    let mut e: usize = 0;
    while e < snapshot.bounty_events.len()
        invariant
            e <= snapshot.bounty_events.len(),
            s == snapshot@,
            events@ == s.bounty_events.take(e as int).filter(on_side(viewer)),
        decreases snapshot.bounty_events.len() - e,
    {
        let event = snapshot.bounty_events[e];
        proof {
            reveal(Seq::filter);
            assert(s.bounty_events.take(e + 1).drop_last() =~= s.bounty_events.take(e as int));
        }
        if event.team == viewer {
            events.push(event);
        }
        e = e + 1;
    }
    proof {
        assert(s.bounty_events.take(s.bounty_events.len() as int) =~= s.bounty_events);
    }
    filtered.units = units;
    filtered.buildings = kept;
    filtered.bounty_events = events;
    filtered
}

/// `snapshot` without units and buildings.
pub fn entityless_snapshot(snapshot: &MatchSnapshot) -> (stripped: MatchSnapshot)
    ensures
        stripped@ == without_entities(snapshot@),
{
    let mut stripped = snapshot.duplicate();
    stripped.units = Vec::new();
    stripped.buildings = Vec::new();
    assert(stripped@ =~= without_entities(snapshot@));
    stripped
}

/// Every seen copy sits under its own building id.
pub open spec fn keyed_by_id(seen: Map<u64, Building>) -> bool {
    forall|k: u64| #[trigger] seen.contains_key(k) ==> seen[k].id == k
}

/// The positions in the snapshot of the units [`visible_units`] keeps.
pub open spec fn visible_unit_sources(s: SnapshotModel, v: Team, vision: Seq<bool>, n: int) -> Seq<
    int,
>
    decreases n,
{
    if n <= 0 {
        Seq::empty()
    } else {
        let rest = visible_unit_sources(s, v, vision, n - 1);
        if side_in(s.players, s.units[n - 1].owner) == v || vision[n - 1] {
            rest.push(n - 1)
        } else {
            rest
        }
    }
}

/// `u` is the snapshot's `i`-th unit, and it is own or in vision.
pub open spec fn unit_visible_at(s: SnapshotModel, v: Team, vision: Seq<bool>, u: Unit, i: int) -> bool {
    &&& 0 <= i < s.units.len()
    &&& u == s.units[i]
    &&& side_in(s.players, s.units[i].owner) == v || vision[i]
}

proof fn lemma_visible_units(s: SnapshotModel, v: Team, vision: Seq<bool>, n: int)
    requires
        0 <= n <= s.units.len(),
        vision.len() == s.units.len(),
    ensures
        visible_unit_sources(s, v, vision, n).len() == visible_units(s, v, vision, n).len(),
        forall|i: int|
            0 <= i < n && (side_in(s.players, s.units[i].owner) == v || vision[i])
                ==> visible_units(s, v, vision, n).contains(#[trigger] s.units[i]),
        forall|j: int|
            0 <= j < visible_units(s, v, vision, n).len() ==> #[trigger] unit_visible_at(
                s,
                v,
                vision,
                visible_units(s, v, vision, n)[j],
                visible_unit_sources(s, v, vision, n)[j],
            ),
    decreases n,
{
    if n > 0 {
        lemma_visible_units(s, v, vision, n - 1);
        let rest = visible_units(s, v, vision, n - 1);
        let r = visible_units(s, v, vision, n);
        let u = s.units[n - 1];
        assert forall|i: int|
            0 <= i < n && (side_in(s.players, s.units[i].owner) == v || vision[i]) implies r.contains(
            #[trigger] s.units[i],
        ) by {
            if i < n - 1 {
                let k = choose|k: int| 0 <= k < rest.len() && rest[k] == s.units[i];
                assert(r[k] == s.units[i]);
            } else {
                assert(r[rest.len() as int] == s.units[i]);
            }
        }
    }
}

/// The snapshot positions of the buildings [`scan_buildings`] keeps.
pub open spec fn scanned_sources(
    s: SnapshotModel,
    v: Team,
    vision: Seq<bool>,
    seen: Map<u64, Building>,
    n: int,
) -> Seq<int>
    decreases n,
{
    if n <= 0 {
        Seq::empty()
    } else {
        let rest = scanned_sources(s, v, vision, seen, n - 1);
        let memory = scan_buildings(s, v, vision, seen, n - 1).1;
        let b = s.buildings[n - 1];
        if side_in(s.players, b.owner) == v || vision[n - 1] || memory.contains_key(b.id) {
            rest.push(n - 1)
        } else {
            rest
        }
    }
}

/// A received building: the snapshot's `i`-th building itself if own or in
/// vision, or a copy carrying its id if it is an enemy building out of vision.
pub open spec fn scanned_from(s: SnapshotModel, v: Team, vision: Seq<bool>, b: Building, i: int) -> bool {
    &&& 0 <= i < s.buildings.len()
    &&& {
        ||| b == s.buildings[i] && (side_in(s.players, s.buildings[i].owner) == v || vision[i])
        ||| b.id == s.buildings[i].id && side_in(s.players, s.buildings[i].owner) != v
            && !vision[i]
    }
}

proof fn lemma_scan_buildings(
    s: SnapshotModel,
    v: Team,
    vision: Seq<bool>,
    seen: Map<u64, Building>,
    n: int,
)
    requires
        0 <= n <= s.buildings.len(),
        vision.len() == s.buildings.len(),
        keyed_by_id(seen),
    ensures
        keyed_by_id(scan_buildings(s, v, vision, seen, n).1),
        scanned_sources(s, v, vision, seen, n).len() == scan_buildings(s, v, vision, seen, n).0.len(),
        forall|i: int|
            0 <= i < n && (side_in(s.players, s.buildings[i].owner) == v || vision[i])
                ==> scan_buildings(s, v, vision, seen, n).0.contains(#[trigger] s.buildings[i]),
        forall|j: int|
            0 <= j < scan_buildings(s, v, vision, seen, n).0.len() ==> #[trigger] scanned_from(
                s,
                v,
                vision,
                scan_buildings(s, v, vision, seen, n).0[j],
                scanned_sources(s, v, vision, seen, n)[j],
            ),
    decreases n,
{
    if n > 0 {
        lemma_scan_buildings(s, v, vision, seen, n - 1);
        let kept = scan_buildings(s, v, vision, seen, n - 1).0;
        let memory = scan_buildings(s, v, vision, seen, n - 1).1;
        let b = s.buildings[n - 1];
        let kept2 = scan_buildings(s, v, vision, seen, n).0;
        let memory2 = scan_buildings(s, v, vision, seen, n).1;
        let own = side_in(s.players, b.owner) == v;
        if own {
            assert(kept2 == kept.push(b) && memory2 == memory);
        } else if vision[n - 1] {
            assert(kept2 == kept.push(b) && memory2 == memory.insert(b.id, b));
        } else if memory.contains_key(b.id) {
            assert(kept2 == kept.push(memory[b.id]) && memory2 == memory);
        } else {
            assert(kept2 == kept && memory2 == memory);
        }
        assert(keyed_by_id(memory2));
        assert forall|i: int|
            0 <= i < n && (side_in(s.players, s.buildings[i].owner) == v || vision[i]) implies kept2.contains(
            #[trigger] s.buildings[i],
        ) by {
            if i < n - 1 {
                let k = choose|k: int| 0 <= k < kept.len() && kept[k] == s.buildings[i];
                assert(kept2[k] == s.buildings[i]);
            } else {
                assert(kept2[kept.len() as int] == s.buildings[i]);
            }
        }
    }
}

/// What a viewer receives during play: every own unit and every unit in
/// vision and no other unit; every own building and every enemy building in
/// vision; any other building received is a remembered copy of an enemy
/// building that is out of vision; only the viewer's own bounty events. The
/// seen buildings afterwards are copies keyed by their id, all of buildings
/// that still exist.
pub proof fn lemma_viewer_knowledge(
    s: SnapshotModel,
    viewer: Team,
    vision_units: Seq<bool>,
    vision_buildings: Seq<bool>,
    seen: Map<u64, Building>,
)
    requires
        vision_units.len() == s.units.len(),
        vision_buildings.len() == s.buildings.len(),
        s.phase != MatchPhase::GameOver,
        keyed_by_id(seen),
    ensures
        ({
            let (f, seen_after) = filtered_for(
                s,
                Some(viewer),
                vision_units,
                vision_buildings,
                seen,
            );
            &&& forall|i: int|
                0 <= i < s.units.len() && (side_in(s.players, s.units[i].owner) == viewer
                    || vision_units[i]) ==> f.units.contains(#[trigger] s.units[i])
            &&& forall|j: int|
                0 <= j < f.units.len() ==> #[trigger] unit_visible_at(
                    s,
                    viewer,
                    vision_units,
                    f.units[j],
                    visible_unit_sources(s, viewer, vision_units, s.units.len() as int)[j],
                )
            &&& forall|i: int|
                0 <= i < s.buildings.len() && (side_in(s.players, s.buildings[i].owner) == viewer
                    || vision_buildings[i]) ==> f.buildings.contains(#[trigger] s.buildings[i])
            &&& forall|j: int|
                0 <= j < f.buildings.len() ==> #[trigger] scanned_from(
                    s,
                    viewer,
                    vision_buildings,
                    f.buildings[j],
                    scanned_sources(s, viewer, vision_buildings, seen, s.buildings.len() as int)[j],
                )
            &&& forall|j: int| 0 <= j < f.bounty_events.len() ==> (#[trigger] f.bounty_events[j]).team == viewer
            &&& keyed_by_id(seen_after)
            &&& forall|k: u64| #[trigger] seen_after.contains_key(k) ==> key_map(s.buildings).contains_key(k)
        }),
{
    lemma_visible_units(s, viewer, vision_units, s.units.len() as int);
    lemma_scan_buildings(s, viewer, vision_buildings, seen, s.buildings.len() as int);
    let events = s.bounty_events.filter(on_side(viewer));
    assert forall|j: int| 0 <= j < events.len() implies (#[trigger] events[j]).team == viewer by {
        s.bounty_events.lemma_filter_pred(on_side(viewer), j);
    }
    let memory = scan_buildings(s, viewer, vision_buildings, seen, s.buildings.len() as int).1;
    assert(keyed_by_id(memory.restrict(key_map(s.buildings).dom())));
}

/// A viewer with no side receives no entity and no bounty event, and its seen
/// buildings are left as they were; the final snapshot of a match is received
/// whole and forgets the seen buildings.
pub proof fn lemma_no_side_and_game_over(
    s: SnapshotModel,
    viewer: Option<Team>,
    vision_units: Seq<bool>,
    vision_buildings: Seq<bool>,
    seen: Map<u64, Building>,
)
    ensures
        viewer is None ==> ({
            let (f, seen_after) = filtered_for(s, viewer, vision_units, vision_buildings, seen);
            &&& f.units.len() == 0
            &&& f.buildings.len() == 0
            &&& f.bounty_events.len() == 0
            &&& seen_after == seen
        }),
        viewer is Some && s.phase == MatchPhase::GameOver ==> filtered_for(
            s,
            viewer,
            vision_units,
            vision_buildings,
            seen,
        ) == (s, Map::<u64, Building>::empty()),
{
}

/// Scanning buildings with distinct ids: every enemy building in vision is
/// remembered as it is now; the memory of any other building's id is the
/// seen copy it had before; an enemy building out of vision is received as
/// that seen copy, if there is one.
proof fn lemma_scan_memory(
    s: SnapshotModel,
    v: Team,
    vision: Seq<bool>,
    seen: Map<u64, Building>,
    n: int,
)
    requires
        0 <= n <= s.buildings.len(),
        vision.len() == s.buildings.len(),
        distinct_keys(s.buildings),
    ensures
        ({
            let (kept, memory) = scan_buildings(s, v, vision, seen, n);
            &&& forall|i: int|
                0 <= i < n && side_in(s.players, (#[trigger] s.buildings[i]).owner) != v && vision[i]
                    ==> memory.contains_key(s.buildings[i].id) && memory[s.buildings[i].id]
                    == s.buildings[i]
            &&& forall|i: int|
                0 <= i < s.buildings.len() && !(i < n && side_in(
                    s.players,
                    (#[trigger] s.buildings[i]).owner,
                ) != v && vision[i]) ==> memory.contains_key(s.buildings[i].id) == seen.contains_key(
                    s.buildings[i].id,
                ) && (seen.contains_key(s.buildings[i].id) ==> memory[s.buildings[i].id]
                    == seen[s.buildings[i].id])
            &&& forall|i: int|
                0 <= i < n && side_in(s.players, (#[trigger] s.buildings[i]).owner) != v && !vision[i]
                    && seen.contains_key(s.buildings[i].id) ==> kept.contains(
                    seen[s.buildings[i].id],
                )
            &&& forall|j: int|
                #![trigger kept[j]]
                0 <= j < kept.len() ==> exists|i: int|
                    #![trigger s.buildings[i]]
                    0 <= i < n && ((kept[j] == s.buildings[i] && (side_in(
                        s.players,
                        s.buildings[i].owner,
                    ) == v || vision[i])) || (side_in(s.players, s.buildings[i].owner) != v
                        && !vision[i] && seen.contains_key(s.buildings[i].id) && kept[j]
                        == seen[s.buildings[i].id]))
        }),
    decreases n,
{
    if n > 0 {
        lemma_scan_memory(s, v, vision, seen, n - 1);
        let (kept, memory) = scan_buildings(s, v, vision, seen, n - 1);
        let (kept2, memory2) = scan_buildings(s, v, vision, seen, n);
        let b = s.buildings[n - 1];
        let own = side_in(s.players, b.owner) == v;
        assert(s.buildings[n - 1] == b);
        assert forall|i: int| 0 <= i < s.buildings.len() && i != n - 1 implies (#[trigger] s.buildings[i]).id
            != b.id by {
            assert(s.buildings[i].key() != s.buildings[n - 1].key());
        }
        if own {
            assert(kept2 == kept.push(b) && memory2 == memory);
        } else if vision[n - 1] {
            assert(kept2 == kept.push(b) && memory2 == memory.insert(b.id, b));
        } else if memory.contains_key(b.id) {
            assert(kept2 == kept.push(memory[b.id]) && memory2 == memory);
        } else {
            assert(kept2 == kept && memory2 == memory);
        }
        assert forall|i: int|
            0 <= i < n && side_in(s.players, (#[trigger] s.buildings[i]).owner) != v && vision[i]
                implies memory2.contains_key(s.buildings[i].id) && memory2[s.buildings[i].id]
            == s.buildings[i] by {
            if i < n - 1 {
                assert(s.buildings[i].id != b.id);
            }
        }
        assert forall|i: int|
            0 <= i < s.buildings.len() && !(i < n && side_in(
                s.players,
                (#[trigger] s.buildings[i]).owner,
            ) != v && vision[i]) implies memory2.contains_key(s.buildings[i].id) == seen.contains_key(
            s.buildings[i].id,
        ) && (seen.contains_key(s.buildings[i].id) ==> memory2[s.buildings[i].id]
            == seen[s.buildings[i].id]) by {
            if i != n - 1 {
                assert(s.buildings[i].id != b.id);
            }
        }
        assert forall|i: int|
            0 <= i < n && side_in(s.players, (#[trigger] s.buildings[i]).owner) != v && !vision[i]
                && seen.contains_key(s.buildings[i].id) implies kept2.contains(
            seen[s.buildings[i].id],
        ) by {
            if i < n - 1 {
                let k = choose|k: int| 0 <= k < kept.len() && kept[k] == seen[s.buildings[i].id];
                assert(kept2[k] == kept[k]);
            } else {
                assert(kept2[kept.len() as int] == seen[b.id]);
            }
        }
        assert forall|j: int| #![trigger kept2[j]] 0 <= j < kept2.len() implies exists|i: int|
            #![trigger s.buildings[i]]
            0 <= i < n && ((kept2[j] == s.buildings[i] && (side_in(
                s.players,
                s.buildings[i].owner,
            ) == v || vision[i])) || (side_in(s.players, s.buildings[i].owner) != v && !vision[i]
                && seen.contains_key(s.buildings[i].id) && kept2[j] == seen[s.buildings[i].id])) by {
            if j < kept.len() {
                assert(kept2[j] == kept[j]);
                let i = choose|i: int|
                    #![trigger s.buildings[i]]
                    0 <= i < n - 1 && ((kept[j] == s.buildings[i] && (side_in(
                        s.players,
                        s.buildings[i].owner,
                    ) == v || vision[i])) || (side_in(s.players, s.buildings[i].owner) != v
                        && !vision[i] && seen.contains_key(s.buildings[i].id) && kept[j]
                        == seen[s.buildings[i].id]));
                assert(s.buildings[i] == s.buildings[i]);
            } else {
                assert(kept2[j] == kept2[kept.len() as int]);
                assert(s.buildings[n - 1] == b);
            }
        }
    }
}

/// What a side's seen enemy buildings become, for a snapshot in play whose
/// buildings carry distinct ids: every enemy building in vision is
/// remembered exactly as it is now, overwriting any older copy; every enemy
/// building out of vision keeps the copy seen before, if any; and every
/// enemy building out of vision with a seen copy is received as that copy,
/// while each building received is either the snapshot's own or in-vision
/// building, or such a seen copy of an out-of-vision enemy building.
#[verifier::spinoff_prover]
pub proof fn lemma_seen_buildings_follow_sightings(
    s: SnapshotModel,
    viewer: Team,
    vision_units: Seq<bool>,
    vision_buildings: Seq<bool>,
    seen: Map<u64, Building>,
)
    requires
        vision_units.len() == s.units.len(),
        vision_buildings.len() == s.buildings.len(),
        s.phase != MatchPhase::GameOver,
        distinct_keys(s.buildings),
    ensures
        ({
            let (f, seen_after) = filtered_for(
                s,
                Some(viewer),
                vision_units,
                vision_buildings,
                seen,
            );
            &&& forall|i: int|
                0 <= i < s.buildings.len() && side_in(s.players, (#[trigger] s.buildings[i]).owner)
                    != viewer && vision_buildings[i] ==> seen_after.contains_key(s.buildings[i].id)
                    && seen_after[s.buildings[i].id] == s.buildings[i]
            &&& forall|i: int|
                0 <= i < s.buildings.len() && side_in(s.players, (#[trigger] s.buildings[i]).owner)
                    != viewer && !vision_buildings[i] ==> seen_after.contains_key(s.buildings[i].id)
                    == seen.contains_key(s.buildings[i].id) && (seen.contains_key(s.buildings[i].id)
                    ==> seen_after[s.buildings[i].id] == seen[s.buildings[i].id])
            &&& forall|i: int|
                0 <= i < s.buildings.len() && side_in(s.players, (#[trigger] s.buildings[i]).owner)
                    != viewer && !vision_buildings[i] && seen.contains_key(s.buildings[i].id)
                    ==> f.buildings.contains(seen[s.buildings[i].id])
            &&& forall|j: int|
                #![trigger f.buildings[j]]
                0 <= j < f.buildings.len() ==> exists|i: int|
                    #![trigger s.buildings[i]]
                    0 <= i < s.buildings.len() && ((f.buildings[j] == s.buildings[i] && (
                    side_in(s.players, s.buildings[i].owner) == viewer || vision_buildings[i])) || (
                    side_in(s.players, s.buildings[i].owner) != viewer && !vision_buildings[i]
                        && seen.contains_key(s.buildings[i].id) && f.buildings[j]
                        == seen[s.buildings[i].id]))
        }),
{
    let n = s.buildings.len() as int;
    lemma_scan_memory(s, viewer, vision_buildings, seen, n);
    let (f, seen_after) = filtered_for(s, Some(viewer), vision_units, vision_buildings, seen);
    let memory = scan_buildings(s, viewer, vision_buildings, seen, n).1;
    assert forall|i: int| 0 <= i < n implies key_map(s.buildings).contains_key(
        (#[trigger] s.buildings[i]).id,
    ) by {
        crate::keyed::lemma_key_map_value(s.buildings, i);
    }
    let kept = scan_buildings(s, viewer, vision_buildings, seen, n).0;
    assert(seen_after == memory.restrict(key_map(s.buildings).dom()));
    assert(f.buildings == kept);
    assert forall|i: int|
        0 <= i < n && side_in(s.players, (#[trigger] s.buildings[i]).owner) != viewer
            && vision_buildings[i] implies seen_after.contains_key(s.buildings[i].id)
        && seen_after[s.buildings[i].id] == s.buildings[i] by {
        assert(key_map(s.buildings).contains_key(s.buildings[i].id));
    }
    assert forall|i: int|
        0 <= i < n && side_in(s.players, (#[trigger] s.buildings[i]).owner) != viewer
            && !vision_buildings[i] implies seen_after.contains_key(s.buildings[i].id)
        == seen.contains_key(s.buildings[i].id) && (seen.contains_key(s.buildings[i].id)
        ==> seen_after[s.buildings[i].id] == seen[s.buildings[i].id]) by {
        assert(key_map(s.buildings).contains_key(s.buildings[i].id));
    }
    assert forall|j: int| #![trigger f.buildings[j]] 0 <= j < f.buildings.len() implies exists|i: int|
        #![trigger s.buildings[i]]
        0 <= i < s.buildings.len() && ((f.buildings[j] == s.buildings[i] && (side_in(
            s.players,
            s.buildings[i].owner,
        ) == viewer || vision_buildings[i])) || (side_in(s.players, s.buildings[i].owner) != viewer
            && !vision_buildings[i] && seen.contains_key(s.buildings[i].id) && f.buildings[j]
            == seen[s.buildings[i].id])) by {
        assert(f.buildings[j] == kept[j]);
    }
}

/// During play a side receives exactly the snapshot's bounty events of its
/// own side, in their order: none of the other side, and every one of its
/// own.
pub proof fn lemma_own_bounties_all_received(
    s: SnapshotModel,
    viewer: Team,
    vision_units: Seq<bool>,
    vision_buildings: Seq<bool>,
    seen: Map<u64, Building>,
)
    requires
        s.phase != MatchPhase::GameOver,
    ensures
        ({
            let f = filtered_for(s, Some(viewer), vision_units, vision_buildings, seen).0;
            &&& f.bounty_events == s.bounty_events.filter(|e: BountyEvent| e.team == viewer)
            &&& forall|i: int|
                0 <= i < s.bounty_events.len() && (#[trigger] s.bounty_events[i]).team == viewer
                    ==> f.bounty_events.contains(s.bounty_events[i])
            &&& forall|j: int|
                0 <= j < f.bounty_events.len() ==> (#[trigger] f.bounty_events[j]).team == viewer
        }),
{
    let f = filtered_for(s, Some(viewer), vision_units, vision_buildings, seen).0;
    assert(on_side(viewer) =~= |e: BountyEvent| e.team == viewer);
    assert forall|i: int|
        0 <= i < s.bounty_events.len() && (#[trigger] s.bounty_events[i]).team == viewer implies f.bounty_events.contains(
        s.bounty_events[i],
    ) by {
        s.bounty_events.lemma_filter_contains(on_side(viewer), i);
    }
    assert forall|j: int| 0 <= j < f.bounty_events.len() implies (#[trigger] f.bounty_events[j]).team
        == viewer by {
        s.bounty_events.lemma_filter_pred(on_side(viewer), j);
    }
}

} // verus!
