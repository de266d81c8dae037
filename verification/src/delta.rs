//! Snapshot deltas: the server sends each client only what changed since the
//! snapshot that client last received, and the client patches its copy.
use std::collections::{HashMap, HashSet};
use vstd::prelude::*;

use crate::keyed::{
    absent_from, appended_ids, distinct_keys, first_key_index, listed_last, has_key, is_first_key_index, key_map, key_of,
    lemma_first_key_index, lemma_patch_round_trip, lemma_patch_round_trip_order,
    lemma_same_by_keys, not_listed, patched_all, present_in, round_trip_map, upserted,
    upserted_all, without_keys, Keyed, Patch,
};
use crate::model::{
    clone_players, copy_vec, BountyEvent, Building, Castle, Economy, MatchPhase, MatchSnapshot,
    PlayerInfo, Scalar, SnapshotModel, Team, Unit, WorldPos,
};

verus! {

broadcast use vstd::std_specs::hash::group_hash_axioms;

impl Keyed for Unit {
    open spec fn key(self) -> u64 {
        self.id
    }
}

impl Keyed for Building {
    open spec fn key(self) -> u64 {
        self.id
    }
}

/// The per-tick state of a unit whose identity did not change.
#[derive(Clone, Copy, Debug, PartialEq)]
pub struct UnitUpdate {
    pub id: u64,
    pub health: i32,
    pub lane_pos: Scalar,
    pub pos: WorldPos,
    pub velocity: WorldPos,
    pub attack_timer: Scalar,
}

/// The per-tick state of a building whose identity did not change.
#[derive(Clone, Copy, Debug, PartialEq)]
pub struct BuildingUpdate {
    pub id: u64,
    pub health: i32,
    pub spawn_timer: Scalar,
}

impl UnitUpdate {
    /// The two updates are equal, their scalars compared as `f32`s.
    pub open spec fn same_state(self, other: UnitUpdate) -> bool {
        &&& self.id == other.id
        &&& self.health == other.health
        &&& self.lane_pos.same_value(other.lane_pos)
        &&& self.pos.same_value(other.pos)
        &&& self.velocity.same_value(other.velocity)
        &&& self.attack_timer.same_value(other.attack_timer)
    }

    /// Equality of the two updates, their scalars compared as `f32`s.
    pub fn eq_state(&self, other: &UnitUpdate) -> (equal: bool)
        ensures
            equal == self.same_state(*other),
    {
        self.id == other.id && self.health == other.health && self.lane_pos.eq_value(
            &other.lane_pos,
        ) && self.pos.eq_value(&other.pos) && self.velocity.eq_value(&other.velocity)
            && self.attack_timer.eq_value(&other.attack_timer)
    }

    pub open spec fn of(unit: Unit) -> UnitUpdate {
        UnitUpdate {
            id: unit.id,
            health: unit.health,
            lane_pos: unit.lane_pos,
            pos: unit.pos,
            velocity: unit.velocity,
            attack_timer: unit.attack_timer,
        }
    }

    /// `unit` with this update's per-tick state.
    pub open spec fn applied(self, unit: Unit) -> Unit {
        Unit {
            id: unit.id,
            owner: unit.owner,
            kind: unit.kind,
            lane: unit.lane,
            health: self.health,
            lane_pos: self.lane_pos,
            pos: self.pos,
            velocity: self.velocity,
            radius: unit.radius,
            attack_timer: self.attack_timer,
            slow_timer: unit.slow_timer,
            slow_factor: unit.slow_factor,
            regen_accum: unit.regen_accum,
        }
    }

    pub fn from_unit(unit: &Unit) -> (update: Self)
        ensures
            update == Self::of(*unit),
    {
        UnitUpdate {
            id: unit.id,
            health: unit.health,
            lane_pos: unit.lane_pos,
            pos: unit.pos,
            velocity: unit.velocity,
            attack_timer: unit.attack_timer,
        }
    }

    pub fn apply_to(self, unit: &mut Unit)
        ensures
            *final(unit) == self.applied(*old(unit)),
    {
        unit.health = self.health;
        unit.lane_pos = self.lane_pos;
        unit.pos = self.pos;
        unit.velocity = self.velocity;
        unit.attack_timer = self.attack_timer;
    }
}

impl Patch<Unit> for UnitUpdate {
    open spec fn patch_key(self) -> u64 {
        self.id
    }

    open spec fn patch_onto(self, e: Unit) -> Unit {
        self.applied(e)
    }

    proof fn lemma_patch_keeps_key(self, e: Unit) {
    }

    proof fn lemma_patch_overwrites(self, earlier: Self, e: Unit) {
    }
}

impl BuildingUpdate {
    /// The two updates are equal, the spawn timers compared as `f32`s.
    pub open spec fn same_state(self, other: BuildingUpdate) -> bool {
        &&& self.id == other.id
        &&& self.health == other.health
        &&& self.spawn_timer.same_value(other.spawn_timer)
    }

    /// Equality of the two updates, the spawn timers compared as `f32`s.
    pub fn eq_state(&self, other: &BuildingUpdate) -> (equal: bool)
        ensures
            equal == self.same_state(*other),
    {
        self.id == other.id && self.health == other.health && self.spawn_timer.eq_value(
            &other.spawn_timer,
        )
    }

    pub open spec fn of(building: Building) -> BuildingUpdate {
        BuildingUpdate {
            id: building.id,
            health: building.health,
            spawn_timer: building.spawn_timer,
        }
    }

    /// `building` with this update's per-tick state.
    pub open spec fn applied(self, building: Building) -> Building {
        Building {
            id: building.id,
            owner: building.owner,
            kind: building.kind,
            lane: building.lane,
            zone: building.zone,
            cell: building.cell,
            health: self.health,
            max_health: building.max_health,
            spawn_timer: self.spawn_timer,
        }
    }

    pub fn from_building(building: &Building) -> (update: Self)
        ensures
            update == Self::of(*building),
    {
        BuildingUpdate {
            id: building.id,
            health: building.health,
            spawn_timer: building.spawn_timer,
        }
    }

    pub fn apply_to(self, building: &mut Building)
        ensures
            *final(building) == self.applied(*old(building)),
    {
        building.health = self.health;
        building.spawn_timer = self.spawn_timer;
    }
}

impl Patch<Building> for BuildingUpdate {
    open spec fn patch_key(self) -> u64 {
        self.id
    }

    open spec fn patch_onto(self, e: Building) -> Building {
        self.applied(e)
    }

    proof fn lemma_patch_keeps_key(self, e: Building) {
    }

    proof fn lemma_patch_overwrites(self, earlier: Self, e: Building) {
    }
}

/// What changed between two snapshots.
#[derive(Debug, PartialEq)]
pub struct SnapshotDelta {
    /// Drop every entity before applying the rest.
    pub clear_entities: bool,
    pub phase: MatchPhase,
    pub tick: u64,
    pub elapsed_secs: Scalar,
    pub sudden_death: bool,
    pub players: Vec<PlayerInfo>,
    pub economies: Vec<Economy>,
    pub castles: Vec<Castle>,
    pub bounty_events: Vec<BountyEvent>,
    pub winner: Option<Team>,
    pub message: String,
    pub unit_creates: Vec<Unit>,
    pub unit_updates: Vec<UnitUpdate>,
    pub unit_removes: Vec<u64>,
    pub building_creates: Vec<Building>,
    pub building_updates: Vec<BuildingUpdate>,
    pub building_removes: Vec<u64>,
}

/// The mathematical content of a [`SnapshotDelta`].
pub struct DeltaModel {
    pub clear_entities: bool,
    pub phase: MatchPhase,
    pub tick: u64,
    pub elapsed_secs: Scalar,
    pub sudden_death: bool,
    pub players: Seq<PlayerInfo>,
    pub economies: Seq<Economy>,
    pub castles: Seq<Castle>,
    pub bounty_events: Seq<BountyEvent>,
    pub winner: Option<Team>,
    pub message: Seq<char>,
    pub unit_creates: Seq<Unit>,
    pub unit_updates: Seq<UnitUpdate>,
    pub unit_removes: Seq<u64>,
    pub building_creates: Seq<Building>,
    pub building_updates: Seq<BuildingUpdate>,
    pub building_removes: Seq<u64>,
}

impl View for SnapshotDelta {
    type V = DeltaModel;

    open spec fn view(&self) -> DeltaModel {
        DeltaModel {
            clear_entities: self.clear_entities,
            phase: self.phase,
            tick: self.tick,
            elapsed_secs: self.elapsed_secs,
            sudden_death: self.sudden_death,
            players: self.players@,
            economies: self.economies@,
            castles: self.castles@,
            bounty_events: self.bounty_events@,
            winner: self.winner,
            message: self.message@,
            unit_creates: self.unit_creates@,
            unit_updates: self.unit_updates@,
            unit_removes: self.unit_removes@,
            building_creates: self.building_creates@,
            building_updates: self.building_updates@,
            building_removes: self.building_removes@,
        }
    }
}

/// A delta that carries the match-wide state of `s` and no entity change.
pub open spec fn empty_delta_of(s: SnapshotModel) -> DeltaModel {
    DeltaModel {
        clear_entities: false,
        phase: s.phase,
        tick: s.tick,
        elapsed_secs: s.elapsed_secs,
        sudden_death: s.sudden_death,
        players: s.players,
        economies: s.economies,
        castles: s.castles,
        bounty_events: s.bounty_events,
        winner: s.winner,
        message: s.message,
        unit_creates: Seq::empty(),
        unit_updates: Seq::empty(),
        unit_removes: Seq::empty(),
        building_creates: Seq::empty(),
        building_updates: Seq::empty(),
        building_removes: Seq::empty(),
    }
}

pub open spec fn has_entity_changes_of(d: DeltaModel) -> bool {
    d.clear_entities || d.unit_creates.len() > 0 || d.unit_updates.len() > 0
        || d.unit_removes.len() > 0 || d.building_creates.len() > 0 || d.building_updates.len() > 0
        || d.building_removes.len() > 0
}

impl SnapshotDelta {
    pub fn empty_from(snapshot: &MatchSnapshot) -> (delta: Self)
        ensures
            delta@ == empty_delta_of(snapshot@),
    {
        let delta = SnapshotDelta {
            clear_entities: false,
            phase: snapshot.phase,
            tick: snapshot.tick,
            elapsed_secs: snapshot.elapsed_secs,
            sudden_death: snapshot.sudden_death,
            players: clone_players(&snapshot.players),
            economies: copy_vec(&snapshot.economies),
            castles: copy_vec(&snapshot.castles),
            bounty_events: copy_vec(&snapshot.bounty_events),
            winner: snapshot.winner,
            message: snapshot.message.clone(),
            unit_creates: Vec::new(),
            unit_updates: Vec::new(),
            unit_removes: Vec::new(),
            building_creates: Vec::new(),
            building_updates: Vec::new(),
            building_removes: Vec::new(),
        };
        assert(delta@ =~= empty_delta_of(snapshot@));
        delta
    }

    pub fn has_entity_changes(&self) -> (changed: bool)
        ensures
            changed == has_entity_changes_of(self@),
    {
        self.clear_entities || !self.unit_creates.is_empty() || !self.unit_updates.is_empty()
            || !self.unit_removes.is_empty() || !self.building_creates.is_empty()
            || !self.building_updates.is_empty() || !self.building_removes.is_empty()
    }
}

/// The parts of a unit that never change while its id lives: a change means
/// the unit is sent whole again.
pub open spec fn unit_identity_differs(previous: Unit, current: Unit) -> bool {
    previous.owner != current.owner || previous.kind != current.kind || previous.lane
        != current.lane || !previous.radius.same_value(current.radius)
}

pub open spec fn building_identity_differs(previous: Building, current: Building) -> bool {
    previous.owner != current.owner || previous.kind != current.kind || previous.lane
        != current.lane || previous.zone != current.zone || previous.cell != current.cell
        || previous.max_health != current.max_health
}

pub fn unit_static_changed(previous: &Unit, current: &Unit) -> (changed: bool)
    ensures
        changed == unit_identity_differs(*previous, *current),
{
    previous.owner != current.owner || previous.kind != current.kind || previous.lane
        != current.lane || !previous.radius.eq_value(&current.radius)
}

pub fn building_static_changed(previous: &Building, current: &Building) -> (changed: bool)
    ensures
        changed == building_identity_differs(*previous, *current),
{
    previous.owner != current.owner || previous.kind != current.kind || previous.lane
        != current.lane || previous.zone != current.zone || previous.cell != current.cell
        || previous.max_health != current.max_health
}

/// A current unit is sent whole when its id is new or its identity changed.
pub open spec fn unit_created(previous: Seq<Unit>, u: Unit) -> bool {
    !key_map(previous).contains_key(u.id) || unit_identity_differs(key_map(previous)[u.id], u)
}

/// A current unit is sent as an update when it is known, its identity is
/// unchanged and its per-tick state changed.
pub open spec fn unit_refreshed(previous: Seq<Unit>, u: Unit) -> bool {
    &&& key_map(previous).contains_key(u.id)
    &&& !unit_identity_differs(key_map(previous)[u.id], u)
    &&& !UnitUpdate::of(u).same_state(UnitUpdate::of(key_map(previous)[u.id]))
}

pub open spec fn building_created(previous: Seq<Building>, b: Building) -> bool {
    !key_map(previous).contains_key(b.id) || building_identity_differs(
        key_map(previous)[b.id],
        b,
    )
}

pub open spec fn building_refreshed(previous: Seq<Building>, b: Building) -> bool {
    &&& key_map(previous).contains_key(b.id)
    &&& !building_identity_differs(key_map(previous)[b.id], b)
    &&& !BuildingUpdate::of(b).same_state(BuildingUpdate::of(key_map(previous)[b.id]))
}

pub open spec fn unit_created_in(previous: Seq<Unit>) -> spec_fn(Unit) -> bool {
    |u: Unit| unit_created(previous, u)
}

pub open spec fn unit_refreshed_in(previous: Seq<Unit>) -> spec_fn(Unit) -> bool {
    |u: Unit| unit_refreshed(previous, u)
}

pub open spec fn building_created_in(previous: Seq<Building>) -> spec_fn(Building) -> bool {
    |b: Building| building_created(previous, b)
}

pub open spec fn building_refreshed_in(previous: Seq<Building>) -> spec_fn(Building) -> bool {
    |b: Building| building_refreshed(previous, b)
}

pub open spec fn unit_update_of() -> spec_fn(Unit) -> UnitUpdate {
    |u: Unit| UnitUpdate::of(u)
}

pub open spec fn building_update_of() -> spec_fn(Building) -> BuildingUpdate {
    |b: Building| BuildingUpdate::of(b)
}

/// The delta from `previous` to `current`.
pub open spec fn diff_of(previous: SnapshotModel, current: SnapshotModel) -> DeltaModel {
    DeltaModel {
        unit_creates: current.units.filter(unit_created_in(previous.units)),
        unit_updates: current.units.filter(unit_refreshed_in(previous.units)).map_values(
            unit_update_of(),
        ),
        unit_removes: previous.units.filter(absent_from::<Unit>(current.units)).map_values(
            key_of::<Unit>(),
        ),
        building_creates: current.buildings.filter(building_created_in(previous.buildings)),
        building_updates: current.buildings.filter(
            building_refreshed_in(previous.buildings),
        ).map_values(building_update_of()),
        building_removes: previous.buildings.filter(
            absent_from::<Building>(current.buildings),
        ).map_values(key_of::<Building>()),
        ..empty_delta_of(current)
    }
}

/// `snapshot` patched by `delta`.
pub open spec fn patched_by(snapshot: SnapshotModel, delta: DeltaModel) -> SnapshotModel {
    let units = if delta.clear_entities {
        Seq::empty()
    } else {
        snapshot.units
    };
    let buildings = if delta.clear_entities {
        Seq::empty()
    } else {
        snapshot.buildings
    };
    SnapshotModel {
        phase: delta.phase,
        tick: delta.tick,
        elapsed_secs: delta.elapsed_secs,
        sudden_death: delta.sudden_death,
        players: delta.players,
        economies: delta.economies,
        castles: delta.castles,
        bounty_events: delta.bounty_events,
        winner: delta.winner,
        message: delta.message,
        units: patched_all(
            upserted_all(without_keys(units, delta.unit_removes), delta.unit_creates),
            delta.unit_updates,
        ),
        buildings: patched_all(
            upserted_all(without_keys(buildings, delta.building_removes), delta.building_creates),
            delta.building_updates,
        ),
    }
}

proof fn lemma_take_push<T>(s: Seq<T>, i: int)
    requires
        0 <= i < s.len(),
    ensures
        s.take(i + 1).drop_last() == s.take(i),
        s.take(i + 1).last() == s[i],
        s.take(i + 1) == s.take(i).push(s[i]),
{
    assert(s.take(i + 1).drop_last() =~= s.take(i));
    assert(s.take(i + 1) =~= s.take(i).push(s[i]));
}

proof fn lemma_filter_push<T>(s: Seq<T>, i: int, pred: spec_fn(T) -> bool)
    requires
        0 <= i < s.len(),
    ensures
        s.take(i + 1).filter(pred) == (if pred(s[i]) {
            s.take(i).filter(pred).push(s[i])
        } else {
            s.take(i).filter(pred)
        }),
{
    reveal(Seq::filter);
    lemma_take_push(s, i);
}

proof fn lemma_map_values_push<T, U>(s: Seq<T>, x: T, f: spec_fn(T) -> U)
    ensures
        s.push(x).map_values(f) == s.map_values(f).push(f(x)),
{
    assert(s.push(x).map_values(f) =~= s.map_values(f).push(f(x)));
}

proof fn lemma_take_all<T>(s: Seq<T>)
    ensures
        s.take(s.len() as int) == s,
{
    assert(s.take(s.len() as int) =~= s);
}

/// The units of `previous` by id.
fn unit_index(units: &Vec<Unit>) -> (index: HashMap<u64, Unit>)
    ensures
        index@ == key_map(units@),
{
    let mut index: HashMap<u64, Unit> = HashMap::new();
    let mut i: usize = 0;
    while i < units.len()
        invariant
            i <= units.len(),
            index@ == key_map(units@.take(i as int)),
        decreases units.len() - i,
    {
        let unit = units[i];
        index.insert(unit.id, unit);
        proof {
            lemma_take_push(units@, i as int);
        }
        i = i + 1;
    }
    proof {
        lemma_take_all(units@);
    }
    index
}

fn building_index(buildings: &Vec<Building>) -> (index: HashMap<u64, Building>)
    ensures
        index@ == key_map(buildings@),
{
    let mut index: HashMap<u64, Building> = HashMap::new();
    let mut i: usize = 0;
    while i < buildings.len()
        invariant
            i <= buildings.len(),
            index@ == key_map(buildings@.take(i as int)),
        decreases buildings.len() - i,
    {
        let building = buildings[i];
        index.insert(building.id, building);
        proof {
            lemma_take_push(buildings@, i as int);
        }
        i = i + 1;
    }
    proof {
        lemma_take_all(buildings@);
    }
    index
}

/// The ids present in `units`.
fn unit_ids(units: &Vec<Unit>) -> (ids: HashSet<u64>)
    ensures
        ids@ == key_map(units@).dom(),
{
    let mut ids: HashSet<u64> = HashSet::new();
    let mut i: usize = 0;
    while i < units.len()
        invariant
            i <= units.len(),
            ids@ == key_map(units@.take(i as int)).dom(),
        decreases units.len() - i,
    {
        ids.insert(units[i].id);
        proof {
            lemma_take_push(units@, i as int);
        }
        i = i + 1;
    }
    proof {
        lemma_take_all(units@);
    }
    ids
}

fn building_ids(buildings: &Vec<Building>) -> (ids: HashSet<u64>)
    ensures
        ids@ == key_map(buildings@).dom(),
{
    let mut ids: HashSet<u64> = HashSet::new();
    let mut i: usize = 0;
    while i < buildings.len()
        invariant
            i <= buildings.len(),
            ids@ == key_map(buildings@.take(i as int)).dom(),
        decreases buildings.len() - i,
    {
        ids.insert(buildings[i].id);
        proof {
            lemma_take_push(buildings@, i as int);
        }
        i = i + 1;
    }
    proof {
        lemma_take_all(buildings@);
    }
    ids
}

/// The unit creates, updates and removes from `previous` to `current`.
fn unit_changes(previous: &Vec<Unit>, current: &Vec<Unit>) -> (changes: (
    Vec<Unit>,
    Vec<UnitUpdate>,
    Vec<u64>,
))
    ensures
        changes.0@ == current@.filter(unit_created_in(previous@)),
        changes.1@ == current@.filter(unit_refreshed_in(previous@)).map_values(unit_update_of()),
        changes.2@ == previous@.filter(absent_from::<Unit>(current@)).map_values(key_of::<Unit>()),
{
    let previous_units = unit_index(previous);
    let current_unit_ids = unit_ids(current);
    let mut creates: Vec<Unit> = Vec::new();
    let mut updates: Vec<UnitUpdate> = Vec::new();
    let mut i: usize = 0;
    while i < current.len()
        invariant
            i <= current.len(),
            previous_units@ == key_map(previous@),
            creates@ == current@.take(i as int).filter(unit_created_in(previous@)),
            updates@ == current@.take(i as int).filter(unit_refreshed_in(previous@)).map_values(
                unit_update_of(),
            ),
        decreases current.len() - i,
    {
        let unit = current[i];
        proof {
            lemma_filter_push(current@, i as int, unit_created_in(previous@));
            lemma_filter_push(current@, i as int, unit_refreshed_in(previous@));
            lemma_map_values_push(
                current@.take(i as int).filter(unit_refreshed_in(previous@)),
                unit,
                unit_update_of(),
            );
        }
        match previous_units.get(&unit.id) {
            Some(previous_unit) => {
                if unit_static_changed(previous_unit, &unit) {
                    creates.push(unit);
                } else {
                    let update = UnitUpdate::from_unit(&unit);
                    if !update.eq_state(&UnitUpdate::from_unit(previous_unit)) {
                        updates.push(update);
                    }
                }
            },
            None => {
                creates.push(unit);
            },
        }
        i = i + 1;
    }
    let mut removes: Vec<u64> = Vec::new();
    let mut j: usize = 0;
    while j < previous.len()
        invariant
            j <= previous.len(),
            current_unit_ids@ == key_map(current@).dom(),
            removes@ == previous@.take(j as int).filter(absent_from::<Unit>(current@)).map_values(
                key_of::<Unit>(),
            ),
        decreases previous.len() - j,
    {
        let unit = previous[j];
        proof {
            lemma_filter_push(previous@, j as int, absent_from::<Unit>(current@));
            lemma_map_values_push(
                previous@.take(j as int).filter(absent_from::<Unit>(current@)),
                unit,
                key_of::<Unit>(),
            );
        }
        if !current_unit_ids.contains(&unit.id) {
            removes.push(unit.id);
        }
        j = j + 1;
    }
    proof {
        lemma_take_all(current@);
        lemma_take_all(previous@);
    }
    (creates, updates, removes)
}

/// The building creates, updates and removes from `previous` to `current`.
fn building_changes(previous: &Vec<Building>, current: &Vec<Building>) -> (changes: (
    Vec<Building>,
    Vec<BuildingUpdate>,
    Vec<u64>,
))
    ensures
        changes.0@ == current@.filter(building_created_in(previous@)),
        changes.1@ == current@.filter(building_refreshed_in(previous@)).map_values(
            building_update_of(),
        ),
        changes.2@ == previous@.filter(absent_from::<Building>(current@)).map_values(
            key_of::<Building>(),
        ),
{
    let previous_buildings = building_index(previous);
    let current_building_ids = building_ids(current);
    let mut creates: Vec<Building> = Vec::new();
    let mut updates: Vec<BuildingUpdate> = Vec::new();
    let mut i: usize = 0;
    while i < current.len()
        invariant
            i <= current.len(),
            previous_buildings@ == key_map(previous@),
            creates@ == current@.take(i as int).filter(building_created_in(previous@)),
            updates@ == current@.take(i as int).filter(
                building_refreshed_in(previous@),
            ).map_values(building_update_of()),
        decreases current.len() - i,
    {
        let building = current[i];
        proof {
            lemma_filter_push(current@, i as int, building_created_in(previous@));
            lemma_filter_push(current@, i as int, building_refreshed_in(previous@));
            lemma_map_values_push(
                current@.take(i as int).filter(building_refreshed_in(previous@)),
                building,
                building_update_of(),
            );
        }
        match previous_buildings.get(&building.id) {
            Some(previous_building) => {
                if building_static_changed(previous_building, &building) {
                    creates.push(building);
                } else {
                    let update = BuildingUpdate::from_building(&building);
                    if !update.eq_state(&BuildingUpdate::from_building(previous_building)) {
                        updates.push(update);
                    }
                }
            },
            None => {
                creates.push(building);
            },
        }
        i = i + 1;
    }
    let mut removes: Vec<u64> = Vec::new();
    let mut j: usize = 0;
    while j < previous.len()
        invariant
            j <= previous.len(),
            current_building_ids@ == key_map(current@).dom(),
            removes@ == previous@.take(j as int).filter(absent_from::<Building>(current@)).map_values(
                key_of::<Building>(),
            ),
        decreases previous.len() - j,
    {
        let building = previous[j];
        proof {
            lemma_filter_push(previous@, j as int, absent_from::<Building>(current@));
            lemma_map_values_push(
                previous@.take(j as int).filter(absent_from::<Building>(current@)),
                building,
                key_of::<Building>(),
            );
        }
        if !current_building_ids.contains(&building.id) {
            removes.push(building.id);
        }
        j = j + 1;
    }
    proof {
        lemma_take_all(current@);
        lemma_take_all(previous@);
    }
    (creates, updates, removes)
}

/// The delta that turns `previous` into `current`: units and buildings that
/// are new or changed identity are sent whole, known ones whose per-tick
/// state changed are sent as updates, and vanished ids are removed.
pub fn diff_snapshot(previous: &MatchSnapshot, current: &MatchSnapshot) -> (delta: SnapshotDelta)
    ensures
        delta@ == diff_of(previous@, current@),
{
    let mut delta = SnapshotDelta::empty_from(current);
    let (unit_creates, unit_updates, unit_removes) = unit_changes(&previous.units, &current.units);
    let (building_creates, building_updates, building_removes) = building_changes(
        &previous.buildings,
        &current.buildings,
    );
    delta.unit_creates = unit_creates;
    delta.unit_updates = unit_updates;
    delta.unit_removes = unit_removes;
    delta.building_creates = building_creates;
    delta.building_updates = building_updates;
    delta.building_removes = building_removes;
    delta
}

proof fn lemma_push_contains<T>(s: Seq<T>, a: T, x: T)
    ensures
        s.push(a).contains(x) <==> s.contains(x) || x == a,
{
    if s.contains(x) {
        let i = choose|i: int| 0 <= i < s.len() && s[i] == x;
        assert(s.push(a)[i] == x);
    }
    if x == a {
        assert(s.push(a)[s.len() as int] == x);
    }
    if s.push(a).contains(x) && x != a {
        let i = choose|i: int| 0 <= i < s.push(a).len() && s.push(a)[i] == x;
        assert(s[i] == x);
    }
}

/// The set of ids listed in `ids`.
fn id_set(ids: &Vec<u64>) -> (set: HashSet<u64>)
    ensures
        forall|x: u64| #[trigger] set@.contains(x) <==> ids@.contains(x),
{
    let mut set: HashSet<u64> = HashSet::new();
    let mut i: usize = 0;
    while i < ids.len()
        invariant
            i <= ids.len(),
            forall|x: u64| #[trigger] set@.contains(x) <==> ids@.take(i as int).contains(x),
        decreases ids.len() - i,
    {
        set.insert(ids[i]);
        proof {
            lemma_take_push(ids@, i as int);
            assert forall|x: u64| #[trigger] set@.contains(x) <==> ids@.take(i + 1).contains(x) by {
                lemma_push_contains(ids@.take(i as int), ids@[i as int], x);
            }
        }
        i = i + 1;
    }
    proof {
        lemma_take_all(ids@);
    }
    set
}

/// Position of the first unit with id `id`.
fn find_unit(units: &Vec<Unit>, id: u64) -> (found: Option<usize>)
    ensures
        match found {
            Some(k) => k as int == first_key_index(units@, id),
            None => first_key_index(units@, id) < 0,
        },
{
    let mut i: usize = 0;
    while i < units.len()
        invariant
            i <= units.len(),
            forall|j: int| 0 <= j < i ==> #[trigger] units@[j].key() != id,
        decreases units.len() - i,
    {
        if units[i].id == id {
            proof {
                assert(is_first_key_index(units@, id, i as int));
                lemma_first_key_index(units@, id, i as int);
            }
            return Some(i);
        }
        i = i + 1;
    }
    proof {
        lemma_first_key_index(units@, id, 0);
        assert(!has_key(units@, id));
    }
    None
}

/// Position of the first building with id `id`.
fn find_building(buildings: &Vec<Building>, id: u64) -> (found: Option<usize>)
    ensures
        match found {
            Some(k) => k as int == first_key_index(buildings@, id),
            None => first_key_index(buildings@, id) < 0,
        },
{
    let mut i: usize = 0;
    while i < buildings.len()
        invariant
            i <= buildings.len(),
            forall|j: int| 0 <= j < i ==> #[trigger] buildings@[j].key() != id,
        decreases buildings.len() - i,
    {
        if buildings[i].id == id {
            proof {
                assert(is_first_key_index(buildings@, id, i as int));
                lemma_first_key_index(buildings@, id, i as int);
            }
            return Some(i);
        }
        i = i + 1;
    }
    proof {
        lemma_first_key_index(buildings@, id, 0);
        assert(!has_key(buildings@, id));
    }
    None
}

/// Replaces the unit with the same id, or appends it.
pub fn upsert_unit(units: &mut Vec<Unit>, unit: Unit)
    ensures
        final(units)@ == upserted(old(units)@, unit),
{
    match find_unit(units, unit.id) {
        Some(k) => {
            units.set(k, unit);
        },
        None => {
            units.push(unit);
        },
    }
}

/// Replaces the building with the same id, or appends it.
pub fn upsert_building(buildings: &mut Vec<Building>, building: Building)
    ensures
        final(buildings)@ == upserted(old(buildings)@, building),
{
    match find_building(buildings, building.id) {
        Some(k) => {
            buildings.set(k, building);
        },
        None => {
            buildings.push(building);
        },
    }
}

/// The units whose id is not listed in `removes`.
fn drop_unit_ids(units: Vec<Unit>, removes: &Vec<u64>) -> (kept: Vec<Unit>)
    ensures
        kept@ == without_keys(units@, removes@),
{
    let removed = id_set(removes);
    let mut kept: Vec<Unit> = Vec::new();
    let mut i: usize = 0;
    while i < units.len()
        invariant
            i <= units.len(),
            forall|x: u64| #[trigger] removed@.contains(x) <==> removes@.contains(x),
            kept@ == units@.take(i as int).filter(not_listed(removes@)),
        decreases units.len() - i,
    {
        let unit = units[i];
        proof {
            lemma_filter_push(units@, i as int, not_listed::<Unit>(removes@));
        }
        if !removed.contains(&unit.id) {
            kept.push(unit);
        }
        i = i + 1;
    }
    proof {
        lemma_take_all(units@);
    }
    kept
}

/// The buildings whose id is not listed in `removes`.
fn drop_building_ids(buildings: Vec<Building>, removes: &Vec<u64>) -> (kept: Vec<Building>)
    ensures
        kept@ == without_keys(buildings@, removes@),
{
    let removed = id_set(removes);
    let mut kept: Vec<Building> = Vec::new();
    let mut i: usize = 0;
    while i < buildings.len()
        invariant
            i <= buildings.len(),
            forall|x: u64| #[trigger] removed@.contains(x) <==> removes@.contains(x),
            kept@ == buildings@.take(i as int).filter(not_listed(removes@)),
        decreases buildings.len() - i,
    {
        let building = buildings[i];
        proof {
            lemma_filter_push(buildings@, i as int, not_listed::<Building>(removes@));
        }
        if !removed.contains(&building.id) {
            kept.push(building);
        }
        i = i + 1;
    }
    proof {
        lemma_take_all(buildings@);
    }
    kept
}

/// Upserts each created unit, then patches each updated one.
fn merge_units(units: &mut Vec<Unit>, creates: &Vec<Unit>, updates: &Vec<UnitUpdate>)
    ensures
        final(units)@ == patched_all(upserted_all(old(units)@, creates@), updates@),
{
    let ghost base = units@;
    let mut i: usize = 0;
    while i < creates.len()
        invariant
            i <= creates.len(),
            units@ == upserted_all(base, creates@.take(i as int)),
        decreases creates.len() - i,
    {
        proof {
            lemma_take_push(creates@, i as int);
        }
        upsert_unit(units, creates[i]);
        i = i + 1;
    }
    proof {
        lemma_take_all(creates@);
    }
    let ghost merged = units@;
    let mut j: usize = 0;
    while j < updates.len()
        invariant
            j <= updates.len(),
            units@ == patched_all(merged, updates@.take(j as int)),
        decreases updates.len() - j,
    {
        proof {
            lemma_take_push(updates@, j as int);
        }
        let update = updates[j];
        if let Some(k) = find_unit(units, update.id) {
            let mut unit = units[k];
            update.apply_to(&mut unit);
            units.set(k, unit);
        }
        j = j + 1;
    }
    proof {
        lemma_take_all(updates@);
    }
}

/// Upserts each created building, then patches each updated one.
fn merge_buildings(
    buildings: &mut Vec<Building>,
    creates: &Vec<Building>,
    updates: &Vec<BuildingUpdate>,
)
    ensures
        final(buildings)@ == patched_all(upserted_all(old(buildings)@, creates@), updates@),
{
    let ghost base = buildings@;
    let mut i: usize = 0;
    while i < creates.len()
        invariant
            i <= creates.len(),
            buildings@ == upserted_all(base, creates@.take(i as int)),
        decreases creates.len() - i,
    {
        proof {
            lemma_take_push(creates@, i as int);
        }
        upsert_building(buildings, creates[i]);
        i = i + 1;
    }
    proof {
        lemma_take_all(creates@);
    }
    let ghost merged = buildings@;
    let mut j: usize = 0;
    while j < updates.len()
        invariant
            j <= updates.len(),
            buildings@ == patched_all(merged, updates@.take(j as int)),
        decreases updates.len() - j,
    {
        proof {
            lemma_take_push(updates@, j as int);
        }
        let update = updates[j];
        if let Some(k) = find_building(buildings, update.id) {
            let mut building = buildings[k];
            update.apply_to(&mut building);
            buildings.set(k, building);
        }
        j = j + 1;
    }
    proof {
        lemma_take_all(updates@);
    }
}

/// Patches `snapshot` with `delta`: match-wide state is replaced, entities are
/// cleared if asked, removed ids dropped, created entities inserted or
/// replaced by id, and updates applied to the entity with their id.
pub fn apply_snapshot_delta(snapshot: &mut MatchSnapshot, delta: SnapshotDelta)
    ensures
        final(snapshot)@ == patched_by(old(snapshot)@, delta@),
{
    let ghost d = delta@;
    let ghost s = snapshot@;
    snapshot.phase = delta.phase;
    snapshot.tick = delta.tick;
    snapshot.elapsed_secs = delta.elapsed_secs;
    snapshot.sudden_death = delta.sudden_death;
    snapshot.players = delta.players;
    snapshot.economies = delta.economies;
    snapshot.castles = delta.castles;
    snapshot.bounty_events = delta.bounty_events;
    snapshot.winner = delta.winner;
    snapshot.message = delta.message;

    if delta.clear_entities {
        snapshot.units = Vec::new();
        snapshot.buildings = Vec::new();
    }
    let mut units: Vec<Unit> = Vec::new();
    std::mem::swap(&mut units, &mut snapshot.units);
    snapshot.units = drop_unit_ids(units, &delta.unit_removes);
    merge_units(&mut snapshot.units, &delta.unit_creates, &delta.unit_updates);

    let mut buildings: Vec<Building> = Vec::new();
    std::mem::swap(&mut buildings, &mut snapshot.buildings);
    snapshot.buildings = drop_building_ids(buildings, &delta.building_removes);
    merge_buildings(&mut snapshot.buildings, &delta.building_creates, &delta.building_updates);
    assert(snapshot@ =~= patched_by(s, d));
}

/// The two scalars are not zeros of opposite signs, the one difference
/// between bit patterns that `f32` equality does not see.
pub open spec fn zero_signs_agree(a: Scalar, b: Scalar) -> bool {
    !(a.zero() && b.zero() && a.bits != b.bits)
}

pub open spec fn unit_zero_signs_agree(previous: Unit, current: Unit) -> bool {
    &&& zero_signs_agree(previous.radius, current.radius)
    &&& zero_signs_agree(previous.lane_pos, current.lane_pos)
    &&& zero_signs_agree(previous.pos.x, current.pos.x)
    &&& zero_signs_agree(previous.pos.y, current.pos.y)
    &&& zero_signs_agree(previous.velocity.x, current.velocity.x)
    &&& zero_signs_agree(previous.velocity.y, current.velocity.y)
    &&& zero_signs_agree(previous.attack_timer, current.attack_timer)
}

/// No unit or building that keeps its id turns a compared float field from
/// one zero into the other.
pub open spec fn zero_signs_kept(previous: SnapshotModel, current: SnapshotModel) -> bool {
    &&& forall|id: u64|
        #[trigger] key_map(previous.units).contains_key(id) && key_map(current.units).contains_key(
            id,
        ) ==> unit_zero_signs_agree(key_map(previous.units)[id], key_map(current.units)[id])
    &&& forall|id: u64|
        #[trigger] key_map(previous.buildings).contains_key(id) && key_map(
            current.buildings,
        ).contains_key(id) ==> zero_signs_agree(
            key_map(previous.buildings)[id].spawn_timer,
            key_map(current.buildings)[id].spawn_timer,
        )
}

/// No compared float field of a unit or building is a NaN.
pub open spec fn without_nan(s: SnapshotModel) -> bool {
    &&& forall|i: int|
        0 <= i < s.units.len() ==> {
            let u = #[trigger] s.units[i];
            &&& !u.radius.nan()
            &&& !u.lane_pos.nan()
            &&& !u.pos.x.nan()
            &&& !u.pos.y.nan()
            &&& !u.velocity.x.nan()
            &&& !u.velocity.y.nan()
            &&& !u.attack_timer.nan()
        }
    &&& forall|i: int| 0 <= i < s.buildings.len() ==> !(#[trigger] s.buildings[i]).spawn_timer.nan()
}

proof fn lemma_same_scalar(a: Scalar, b: Scalar)
    requires
        a.same_value(b),
        zero_signs_agree(a, b),
    ensures
        a == b,
{
}

/// A unit whose identity and per-tick state are unchanged as `f32`s, and
/// whose zeros keep their signs, is unchanged in those parts.
proof fn lemma_unit_unchanged(previous: Unit, current: Unit)
    requires
        !unit_identity_differs(previous, current),
        unit_zero_signs_agree(previous, current),
    ensures
        previous.radius == current.radius,
        UnitUpdate::of(current).same_state(UnitUpdate::of(previous)) ==> UnitUpdate::of(current)
            == UnitUpdate::of(previous),
{
    lemma_same_scalar(previous.radius, current.radius);
    if UnitUpdate::of(current).same_state(UnitUpdate::of(previous)) {
        lemma_same_scalar(current.lane_pos, previous.lane_pos);
        lemma_same_scalar(current.pos.x, previous.pos.x);
        lemma_same_scalar(current.pos.y, previous.pos.y);
        lemma_same_scalar(current.velocity.x, previous.velocity.x);
        lemma_same_scalar(current.velocity.y, previous.velocity.y);
        lemma_same_scalar(current.attack_timer, previous.attack_timer);
    }
}

/// `current` with the simulation-local state that no delta carries (slow
/// timer, slow factor, regeneration accumulator) kept from `previous`.
pub open spec fn with_local_state_of(current: Unit, previous: Unit) -> Unit {
    Unit {
        slow_timer: previous.slow_timer,
        slow_factor: previous.slow_factor,
        regen_accum: previous.regen_accum,
        ..current
    }
}

/// The units a client holds, by id, after patching `previous` with the delta
/// towards `current`: exactly the ids of `current`; a unit sent whole is the
/// current unit, any other keeps its simulation-local state from `previous`.
pub open spec fn replicated_units(previous: Seq<Unit>, current: Seq<Unit>) -> Map<u64, Unit> {
    Map::new(
        |id: u64| key_map(current).contains_key(id),
        |id: u64|
            if unit_created(previous, key_map(current)[id]) {
                key_map(current)[id]
            } else {
                with_local_state_of(key_map(current)[id], key_map(previous)[id])
            },
    )
}

/// Applying the delta from `previous` to `current` onto `previous`
/// reconstructs `current`: all match-wide state is `current`'s, the buildings
/// by id are exactly `current`'s, and the units by id are `current`'s up to
/// the simulation-local state that deltas do not carry. Ids stay distinct.
/// Floats are compared as `f32`s, which cannot tell `+0.0` from `-0.0`: a
/// field that only changes the sign of a zero is not sent, so the bits are
/// rebuilt only where no zero changes its sign.
pub proof fn lemma_delta_reconstructs(previous: SnapshotModel, current: SnapshotModel)
    requires
        distinct_keys(previous.units),
        distinct_keys(current.units),
        distinct_keys(previous.buildings),
        distinct_keys(current.buildings),
        zero_signs_kept(previous, current),
    ensures
        ({
            let rebuilt = patched_by(previous, diff_of(previous, current));
            &&& rebuilt.phase == current.phase
            &&& rebuilt.tick == current.tick
            &&& rebuilt.elapsed_secs == current.elapsed_secs
            &&& rebuilt.sudden_death == current.sudden_death
            &&& rebuilt.players == current.players
            &&& rebuilt.economies == current.economies
            &&& rebuilt.castles == current.castles
            &&& rebuilt.bounty_events == current.bounty_events
            &&& rebuilt.winner == current.winner
            &&& rebuilt.message == current.message
            &&& distinct_keys(rebuilt.units)
            &&& distinct_keys(rebuilt.buildings)
            &&& key_map(rebuilt.units) == replicated_units(previous.units, current.units)
            &&& key_map(rebuilt.buildings) == key_map(current.buildings)
        }),
{
    let pu = previous.units;
    let cu = current.units;
    lemma_patch_round_trip(pu, cu, unit_created_in(pu), unit_refreshed_in(pu), unit_update_of());
    let got_units = round_trip_map(
        pu,
        cu,
        unit_created_in(pu),
        unit_refreshed_in(pu),
        unit_update_of(),
    );
    assert forall|id: u64| #[trigger] got_units.contains_key(id) implies got_units[id]
        == replicated_units(pu, cu)[id] by {
        crate::keyed::lemma_key_map_key(cu, id);
        if key_map(pu).contains_key(id) {
            crate::keyed::lemma_key_map_key(pu, id);
            if !unit_identity_differs(key_map(pu)[id], key_map(cu)[id]) {
                lemma_unit_unchanged(key_map(pu)[id], key_map(cu)[id]);
            }
        }
    }
    assert(got_units =~= replicated_units(pu, cu));
    let pb = previous.buildings;
    let cb = current.buildings;
    lemma_patch_round_trip(
        pb,
        cb,
        building_created_in(pb),
        building_refreshed_in(pb),
        building_update_of(),
    );
    let got_buildings = round_trip_map(
        pb,
        cb,
        building_created_in(pb),
        building_refreshed_in(pb),
        building_update_of(),
    );
    assert forall|id: u64| #[trigger] got_buildings.contains_key(id) implies got_buildings[id]
        == key_map(cb)[id] by {
        crate::keyed::lemma_key_map_key(cb, id);
        if key_map(pb).contains_key(id) {
            crate::keyed::lemma_key_map_key(pb, id);
            if key_map(cb)[id].spawn_timer.same_value(key_map(pb)[id].spawn_timer) {
                lemma_same_scalar(key_map(cb)[id].spawn_timer, key_map(pb)[id].spawn_timer);
            }
        }
    }
    assert(got_buildings =~= key_map(cb));
}

/// The two units are equal field by field, floats compared as `f32`s.
pub open spec fn unit_same_value(a: Unit, b: Unit) -> bool {
    &&& a.id == b.id
    &&& a.owner == b.owner
    &&& a.kind == b.kind
    &&& a.lane == b.lane
    &&& a.health == b.health
    &&& a.lane_pos.same_value(b.lane_pos)
    &&& a.pos.same_value(b.pos)
    &&& a.velocity.same_value(b.velocity)
    &&& a.radius.same_value(b.radius)
    &&& a.attack_timer.same_value(b.attack_timer)
    &&& a.slow_timer.same_value(b.slow_timer)
    &&& a.slow_factor.same_value(b.slow_factor)
    &&& a.regen_accum.same_value(b.regen_accum)
}

/// The two buildings are equal field by field, the spawn timer compared as
/// an `f32`.
pub open spec fn building_same_value(a: Building, b: Building) -> bool {
    &&& a.id == b.id
    &&& a.owner == b.owner
    &&& a.kind == b.kind
    &&& a.lane == b.lane
    &&& a.zone == b.zone
    &&& a.cell == b.cell
    &&& a.health == b.health
    &&& a.max_health == b.max_health
    &&& a.spawn_timer.same_value(b.spawn_timer)
}

/// No float of a unit or building is a NaN.
pub open spec fn free_of_nan(s: SnapshotModel) -> bool {
    &&& without_nan(s)
    &&& forall|i: int|
        0 <= i < s.units.len() ==> {
            let u = #[trigger] s.units[i];
            &&& !u.slow_timer.nan()
            &&& !u.slow_factor.nan()
            &&& !u.regen_accum.nan()
        }
}

/// Every unit that keeps its id keeps, as `f32`s, the simulation-local state
/// that deltas do not carry.
pub open spec fn local_state_kept(previous: SnapshotModel, current: SnapshotModel) -> bool {
    forall|id: u64|
        #[trigger] key_map(previous.units).contains_key(id) && key_map(current.units).contains_key(id)
            ==> {
            let p = key_map(previous.units)[id];
            let c = key_map(current.units)[id];
            &&& p.slow_timer.same_value(c.slow_timer)
            &&& p.slow_factor.same_value(c.slow_factor)
            &&& p.regen_accum.same_value(c.regen_accum)
        }
}

/// The entity that the map of a sequence with distinct ids gives for `k`
/// stands in the sequence.
proof fn lemma_entry_of<E: Keyed>(s: Seq<E>, k: u64) -> (i: int)
    requires
        distinct_keys(s),
        key_map(s).contains_key(k),
    ensures
        0 <= i < s.len(),
        s[i] == key_map(s)[k],
        s[i].key() == k,
{
    crate::keyed::lemma_key_map_dom(s, k);
    let i = choose|i: int| 0 <= i < s.len() && #[trigger] s[i].key() == k;
    crate::keyed::lemma_key_map_value(s, i);
    i
}

/// Applying the delta from `previous` to `current` onto `previous` rebuilds
/// `current` as `f32` equality sees it: all match-wide state is `current`'s,
/// the rebuilt units and buildings have exactly `current`'s ids, and each
/// equals `current`'s entity of its id field by field, floats compared as
/// `f32`s; this for distinct ids, no NaN in `current`, and units that keep
/// their id keeping the simulation-local state deltas do not carry.
pub proof fn lemma_delta_reconstructs_as_f32(previous: SnapshotModel, current: SnapshotModel)
    requires
        distinct_keys(previous.units),
        distinct_keys(current.units),
        distinct_keys(previous.buildings),
        distinct_keys(current.buildings),
        free_of_nan(current),
        local_state_kept(previous, current),
    ensures
        ({
            let rebuilt = patched_by(previous, diff_of(previous, current));
            &&& rebuilt.phase == current.phase
            &&& rebuilt.tick == current.tick
            &&& rebuilt.elapsed_secs == current.elapsed_secs
            &&& rebuilt.sudden_death == current.sudden_death
            &&& rebuilt.players == current.players
            &&& rebuilt.economies == current.economies
            &&& rebuilt.castles == current.castles
            &&& rebuilt.bounty_events == current.bounty_events
            &&& rebuilt.winner == current.winner
            &&& rebuilt.message == current.message
            &&& distinct_keys(rebuilt.units)
            &&& distinct_keys(rebuilt.buildings)
            &&& key_map(rebuilt.units).dom() == key_map(current.units).dom()
            &&& key_map(rebuilt.buildings).dom() == key_map(current.buildings).dom()
            &&& forall|id: u64| #[trigger]
                key_map(current.units).contains_key(id) ==> unit_same_value(
                    key_map(rebuilt.units)[id],
                    key_map(current.units)[id],
                )
            &&& forall|id: u64| #[trigger]
                key_map(current.buildings).contains_key(id) ==> building_same_value(
                    key_map(rebuilt.buildings)[id],
                    key_map(current.buildings)[id],
                )
        }),
{
    let pu = previous.units;
    let cu = current.units;
    lemma_patch_round_trip(pu, cu, unit_created_in(pu), unit_refreshed_in(pu), unit_update_of());
    let got_units = round_trip_map(
        pu,
        cu,
        unit_created_in(pu),
        unit_refreshed_in(pu),
        unit_update_of(),
    );
    assert forall|id: u64| #[trigger] key_map(cu).contains_key(id) implies unit_same_value(
        got_units[id],
        key_map(cu)[id],
    ) by {
        let i = lemma_entry_of(cu, id);
        assert(cu[i] == cu[i]);
        if key_map(pu).contains_key(id) {
            crate::keyed::lemma_key_map_key(pu, id);
        }
    }
    assert(got_units.dom() =~= key_map(cu).dom());
    let pb = previous.buildings;
    let cb = current.buildings;
    lemma_patch_round_trip(
        pb,
        cb,
        building_created_in(pb),
        building_refreshed_in(pb),
        building_update_of(),
    );
    let got_buildings = round_trip_map(
        pb,
        cb,
        building_created_in(pb),
        building_refreshed_in(pb),
        building_update_of(),
    );
    assert forall|id: u64| #[trigger] key_map(cb).contains_key(id) implies building_same_value(
        got_buildings[id],
        key_map(cb)[id],
    ) by {
        let i = lemma_entry_of(cb, id);
        assert(cb[i] == cb[i]);
        if key_map(pb).contains_key(id) {
            crate::keyed::lemma_key_map_key(pb, id);
        }
    }
    assert(got_buildings.dom() =~= key_map(cb).dom());
}

/// When no unit that keeps its identity has changed its simulation-local
/// state, the reconstruction is exact.
pub proof fn lemma_delta_reconstructs_exactly(previous: SnapshotModel, current: SnapshotModel)
    requires
        distinct_keys(previous.units),
        distinct_keys(current.units),
        distinct_keys(previous.buildings),
        distinct_keys(current.buildings),
        zero_signs_kept(previous, current),
        forall|id: u64|
            #[trigger] key_map(previous.units).contains_key(id) && key_map(current.units).contains_key(
                id,
            ) ==> with_local_state_of(key_map(current.units)[id], key_map(previous.units)[id])
                == key_map(current.units)[id],
    ensures
        key_map(patched_by(previous, diff_of(previous, current)).units) == key_map(current.units),
        key_map(patched_by(previous, diff_of(previous, current)).buildings) == key_map(
            current.buildings,
        ),
{
    lemma_delta_reconstructs(previous, current);
    let pm = key_map(previous.units);
    let cm = key_map(current.units);
    assert forall|id: u64| cm.contains_key(id) implies #[trigger] replicated_units(
        previous.units,
        current.units,
    )[id] == cm[id] by {
        crate::keyed::lemma_key_map_key(current.units, id);
        if !unit_created(previous.units, cm[id]) {
            assert(pm.contains_key(id));
        }
    }
    assert(replicated_units(previous.units, current.units) =~= key_map(current.units));
}

/// The delta between a snapshot with distinct ids and itself changes no
/// entity, unless a compared float is a NaN, which `f32` equality never finds
/// equal to itself.
pub proof fn lemma_diff_of_same_is_empty(snapshot: SnapshotModel)
    requires
        distinct_keys(snapshot.units),
        distinct_keys(snapshot.buildings),
        without_nan(snapshot),
    ensures
        !has_entity_changes_of(diff_of(snapshot, snapshot)),
{
    let u = snapshot.units;
    let b = snapshot.buildings;
    crate::keyed::lemma_key_map_distinct(u);
    crate::keyed::lemma_key_map_distinct(b);
    crate::keyed::lemma_filter_key_map(u, unit_created_in(u));
    crate::keyed::lemma_filter_key_map(u, unit_refreshed_in(u));
    crate::keyed::lemma_filter_key_map(u, absent_from::<Unit>(u));
    crate::keyed::lemma_filter_key_map(b, building_created_in(b));
    crate::keyed::lemma_filter_key_map(b, building_refreshed_in(b));
    crate::keyed::lemma_filter_key_map(b, absent_from::<Building>(b));
    assert forall|i: int| 0 <= i < u.len() implies !unit_created_in(u)(#[trigger] u[i])
        && !unit_refreshed_in(u)(u[i]) && !absent_from::<Unit>(u)(u[i]) by {
        assert(key_map(u)[u[i].key()] == u[i]);
    }
    assert forall|i: int| 0 <= i < b.len() implies !building_created_in(b)(#[trigger] b[i])
        && !building_refreshed_in(b)(b[i]) && !absent_from::<Building>(b)(b[i]) by {
        assert(key_map(b)[b[i].key()] == b[i]);
    }
    lemma_no_entity_selected(u, unit_created_in(u));
    lemma_no_entity_selected(u, unit_refreshed_in(u));
    lemma_no_entity_selected(u, absent_from::<Unit>(u));
    lemma_no_entity_selected(b, building_created_in(b));
    lemma_no_entity_selected(b, building_refreshed_in(b));
    lemma_no_entity_selected(b, absent_from::<Building>(b));
}

proof fn lemma_no_entity_selected<E: Keyed>(s: Seq<E>, pred: spec_fn(E) -> bool)
    requires
        distinct_keys(s),
        forall|i: int| 0 <= i < s.len() ==> !pred(#[trigger] s[i]),
    ensures
        s.filter(pred).len() == 0,
{
    crate::keyed::lemma_filter_key_map(s, pred);
    if s.filter(pred).len() > 0 {
        let e = s.filter(pred)[0];
        crate::keyed::lemma_key_map_value(s.filter(pred), 0);
        crate::keyed::lemma_key_map_dom(s, e.key());
        let i = choose|i: int| 0 <= i < s.len() && #[trigger] s[i].key() == e.key();
        crate::keyed::lemma_key_map_value(s, i);
        assert(false);
    }
}

/// The delta removes none of the ids it sends whole.
pub open spec fn removes_none_created(d: DeltaModel) -> bool {
    &&& forall|i: int|
        0 <= i < d.unit_creates.len() ==> !d.unit_removes.contains(#[trigger] d.unit_creates[i].id)
    &&& forall|i: int|
        0 <= i < d.building_creates.len() ==> !d.building_removes.contains(
            #[trigger] d.building_creates[i].id,
        )
}

/// No entity the delta sends whole with an id it also removes comes before
/// another entity it sends whole.
pub open spec fn no_early_recreate(d: DeltaModel) -> bool {
    &&& forall|i: int, j: int|
        #![trigger d.unit_creates[i], d.unit_creates[j]]
        0 <= i < j < d.unit_creates.len() ==> !d.unit_removes.contains(d.unit_creates[i].id)
    &&& forall|i: int, j: int|
        #![trigger d.building_creates[i], d.building_creates[j]]
        0 <= i < j < d.building_creates.len() ==> !d.building_removes.contains(
            d.building_creates[i].id,
        )
}

/// Applying the same delta twice, as when a datagram arrives twice, leaves
/// every unit id and every building id with what applying it once gave, and
/// every other part of the snapshot as applying it once gave, for a snapshot
/// with distinct ids.
pub proof fn lemma_delta_reapplied_by_id(s: SnapshotModel, d: DeltaModel)
    requires
        distinct_keys(s.units),
        distinct_keys(s.buildings),
    ensures
        ({
            let once = patched_by(s, d);
            let twice = patched_by(once, d);
            &&& distinct_keys(once.units)
            &&& distinct_keys(once.buildings)
            &&& key_map(twice.units) == key_map(once.units)
            &&& key_map(twice.buildings) == key_map(once.buildings)
            &&& twice == SnapshotModel { units: twice.units, buildings: twice.buildings, ..once }
        }),
{
    if d.clear_entities {
        crate::keyed::lemma_reapply_by_id(
            Seq::<Unit>::empty(),
            d.unit_removes,
            d.unit_creates,
            d.unit_updates,
        );
        crate::keyed::lemma_reapply_by_id(
            Seq::<Building>::empty(),
            d.building_removes,
            d.building_creates,
            d.building_updates,
        );
    } else {
        crate::keyed::lemma_reapply_by_id(s.units, d.unit_removes, d.unit_creates, d.unit_updates);
        crate::keyed::lemma_reapply_by_id(
            s.buildings,
            d.building_removes,
            d.building_creates,
            d.building_updates,
        );
    }
}

/// Every id the delta appends to a snapshot, by sending an entity whole,
/// that it also removes comes after every appended id that it does not
/// remove; a delta that clears all entities always qualifies.
pub open spec fn recreated_ids_last(s: SnapshotModel, d: DeltaModel) -> bool {
    d.clear_entities || (listed_last(
        appended_ids(s.units, d.unit_removes, d.unit_creates),
        d.unit_removes,
    ) && listed_last(
        appended_ids(s.buildings, d.building_removes, d.building_creates),
        d.building_removes,
    ))
}

/// Applying the same delta twice, as when a datagram arrives twice, gives
/// what applying it once gives, units and buildings in the same order,
/// exactly for the deltas that append the ids they re-create after the ids
/// they create anew; on the others only the order differs (see
/// [`lemma_delta_reapplied_by_id`]).
pub proof fn lemma_delta_reapplied_exactly(s: SnapshotModel, d: DeltaModel)
    requires
        distinct_keys(s.units),
        distinct_keys(s.buildings),
    ensures
        patched_by(patched_by(s, d), d) == patched_by(s, d) <==> recreated_ids_last(s, d),
{
    let once = patched_by(s, d);
    let twice = patched_by(once, d);
    if !d.clear_entities {
        crate::keyed::lemma_reapply_exactly(s.units, d.unit_removes, d.unit_creates, d.unit_updates);
        crate::keyed::lemma_reapply_exactly(
            s.buildings,
            d.building_removes,
            d.building_creates,
            d.building_updates,
        );
        if twice == once {
            assert(twice.units == once.units);
            assert(twice.buildings == once.buildings);
        }
    }
}

/// Applying the same delta twice, as when a datagram arrives twice, gives
/// what applying it once gives, units and buildings in the same order, for a
/// snapshot with distinct ids and a delta in which no entity sent whole with
/// a removed id comes before another entity sent whole.
pub proof fn lemma_delta_reapplied(s: SnapshotModel, d: DeltaModel)
    requires
        distinct_keys(s.units),
        distinct_keys(s.buildings),
        no_early_recreate(d),
    ensures
        patched_by(patched_by(s, d), d) == patched_by(s, d),
{
    if !d.clear_entities {
        assert forall|i: int, j: int|
            #![trigger d.unit_creates[i], d.unit_creates[j]]
            0 <= i < j < d.unit_creates.len() implies !d.unit_removes.contains(
            d.unit_creates[i].key(),
        ) by {}
        assert forall|i: int, j: int|
            #![trigger d.building_creates[i], d.building_creates[j]]
            0 <= i < j < d.building_creates.len() implies !d.building_removes.contains(
            d.building_creates[i].key(),
        ) by {}
        crate::keyed::lemma_reapply(s.units, d.unit_removes, d.unit_creates, d.unit_updates);
        crate::keyed::lemma_reapply(
            s.buildings,
            d.building_removes,
            d.building_creates,
            d.building_updates,
        );
    }
}

/// A delta from `previous` to `current` removes only ids that `current`
/// lacks and sends whole only entities of `current`, so it removes none of
/// the ids it sends whole, and re-applying it keeps the order too.
pub proof fn lemma_diff_removes_none_created(previous: SnapshotModel, current: SnapshotModel)
    ensures
        removes_none_created(diff_of(previous, current)),
        no_early_recreate(diff_of(previous, current)),
{
    let d = diff_of(previous, current);
    assert forall|i: int| 0 <= i < d.unit_creates.len() implies !d.unit_removes.contains(
        #[trigger] d.unit_creates[i].id,
    ) by {
        let c = d.unit_creates[i];
        current.units.lemma_filter_contains_rev(unit_created_in(previous.units), c);
        let k = choose|k: int| 0 <= k < current.units.len() && current.units[k] == c;
        crate::keyed::lemma_key_map_dom(current.units, c.id);
        assert(current.units[k].key() == c.id);
        let gone = previous.units.filter(absent_from::<Unit>(current.units));
        if d.unit_removes.contains(c.id) {
            let j = choose|j: int| 0 <= j < d.unit_removes.len() && d.unit_removes[j] == c.id;
            previous.units.lemma_filter_pred(absent_from::<Unit>(current.units), j);
            assert(d.unit_removes[j] == key_of::<Unit>()(gone[j]));
        }
    }
    assert forall|i: int| 0 <= i < d.building_creates.len() implies !d.building_removes.contains(
        #[trigger] d.building_creates[i].id,
    ) by {
        let c = d.building_creates[i];
        current.buildings.lemma_filter_contains_rev(building_created_in(previous.buildings), c);
        let k = choose|k: int| 0 <= k < current.buildings.len() && current.buildings[k] == c;
        crate::keyed::lemma_key_map_dom(current.buildings, c.id);
        assert(current.buildings[k].key() == c.id);
        let gone = previous.buildings.filter(absent_from::<Building>(current.buildings));
        if d.building_removes.contains(c.id) {
            let j = choose|j: int| 0 <= j < d.building_removes.len() && d.building_removes[j] == c.id;
            previous.buildings.lemma_filter_pred(absent_from::<Building>(current.buildings), j);
            assert(d.building_removes[j] == key_of::<Building>()(gone[j]));
        }
    }
}

/// The ids `current` keeps from `previous` come first, in the order
/// `previous` has them, and the new ids after them, as in successive
/// snapshots of one match.
pub open spec fn keeps_order<E: Keyed>(previous: Seq<E>, current: Seq<E>) -> bool {
    exists|n: int|
        0 <= n <= current.len() && current.take(n).map_values(key_of::<E>()) == previous.filter(
            present_in(current),
        ).map_values(key_of::<E>()) && forall|i: int|
            n <= i < current.len() ==> !key_map(previous).contains_key(#[trigger] current[i].key())
}

/// Applying the delta from `previous` to `current` onto `previous` rebuilds
/// `current` exactly, its units and buildings in their order, when ids are
/// distinct, the surviving ids keep their order with new ids after them, no
/// unit that keeps its id changed the simulation-local state deltas do not
/// carry, and no compared float turned from one zero into the other.
pub proof fn lemma_delta_rebuilds_in_order(previous: SnapshotModel, current: SnapshotModel)
    requires
        distinct_keys(previous.units),
        distinct_keys(current.units),
        distinct_keys(previous.buildings),
        distinct_keys(current.buildings),
        zero_signs_kept(previous, current),
        forall|id: u64|
            #[trigger] key_map(previous.units).contains_key(id) && key_map(current.units).contains_key(
                id,
            ) ==> with_local_state_of(key_map(current.units)[id], key_map(previous.units)[id])
                == key_map(current.units)[id],
        keeps_order(previous.units, current.units),
        keeps_order(previous.buildings, current.buildings),
    ensures
        patched_by(previous, diff_of(previous, current)) == current,
{
    let rebuilt = patched_by(previous, diff_of(previous, current));
    lemma_delta_reconstructs(previous, current);
    lemma_delta_reconstructs_exactly(previous, current);
    let nu = choose|n: int|
        0 <= n <= current.units.len() && current.units.take(n).map_values(key_of::<Unit>())
            == previous.units.filter(present_in(current.units)).map_values(key_of::<Unit>())
            && forall|i: int|
            n <= i < current.units.len() ==> !key_map(previous.units).contains_key(
                #[trigger] current.units[i].key(),
            );
    lemma_patch_round_trip_order(
        previous.units,
        current.units,
        unit_created_in(previous.units),
        unit_refreshed_in(previous.units),
        unit_update_of(),
        nu,
    );
    lemma_same_by_keys(rebuilt.units, current.units);
    let nb = choose|n: int|
        0 <= n <= current.buildings.len() && current.buildings.take(n).map_values(
            key_of::<Building>(),
        ) == previous.buildings.filter(present_in(current.buildings)).map_values(
            key_of::<Building>(),
        ) && forall|i: int|
            n <= i < current.buildings.len() ==> !key_map(previous.buildings).contains_key(
                #[trigger] current.buildings[i].key(),
            );
    lemma_patch_round_trip_order(
        previous.buildings,
        current.buildings,
        building_created_in(previous.buildings),
        building_refreshed_in(previous.buildings),
        building_update_of(),
        nb,
    );
    lemma_same_by_keys(rebuilt.buildings, current.buildings);
}


/// Applying the delta from `previous` to `current` onto `previous` rebuilds
/// `current`'s units and buildings in their order, each equal to `current`'s
/// field by field with floats compared as `f32`s, when ids are distinct,
/// the surviving ids keep their order with new ids after them, `current` has
/// no NaN, and units that keep their id keep the simulation-local state
/// deltas do not carry.
pub proof fn lemma_delta_rebuilds_in_order_as_f32(previous: SnapshotModel, current: SnapshotModel)
    requires
        distinct_keys(previous.units),
        distinct_keys(current.units),
        distinct_keys(previous.buildings),
        distinct_keys(current.buildings),
        free_of_nan(current),
        local_state_kept(previous, current),
        keeps_order(previous.units, current.units),
        keeps_order(previous.buildings, current.buildings),
    ensures
        ({
            let rebuilt = patched_by(previous, diff_of(previous, current));
            &&& rebuilt.units.len() == current.units.len()
            &&& rebuilt.buildings.len() == current.buildings.len()
            &&& forall|i: int|
                0 <= i < current.units.len() ==> unit_same_value(
                    #[trigger] rebuilt.units[i],
                    current.units[i],
                )
            &&& forall|i: int|
                0 <= i < current.buildings.len() ==> building_same_value(
                    #[trigger] rebuilt.buildings[i],
                    current.buildings[i],
                )
        }),
{
    let rebuilt = patched_by(previous, diff_of(previous, current));
    lemma_delta_reconstructs_as_f32(previous, current);
    let nu = choose|n: int|
        0 <= n <= current.units.len() && current.units.take(n).map_values(key_of::<Unit>())
            == previous.units.filter(present_in(current.units)).map_values(key_of::<Unit>())
            && forall|i: int|
            n <= i < current.units.len() ==> !key_map(previous.units).contains_key(
                #[trigger] current.units[i].key(),
            );
    lemma_patch_round_trip_order(
        previous.units,
        current.units,
        unit_created_in(previous.units),
        unit_refreshed_in(previous.units),
        unit_update_of(),
        nu,
    );
    let ru = rebuilt.units;
    let cu = current.units;
    assert(ru.len() == ru.map_values(key_of::<Unit>()).len());
    assert forall|i: int| 0 <= i < cu.len() implies unit_same_value(#[trigger] ru[i], cu[i]) by {
        assert(ru.map_values(key_of::<Unit>())[i] == cu.map_values(key_of::<Unit>())[i]);
        crate::keyed::lemma_key_map_value(ru, i);
        crate::keyed::lemma_key_map_value(cu, i);
    }
    let nb = choose|n: int|
        0 <= n <= current.buildings.len() && current.buildings.take(n).map_values(
            key_of::<Building>(),
        ) == previous.buildings.filter(present_in(current.buildings)).map_values(
            key_of::<Building>(),
        ) && forall|i: int|
            n <= i < current.buildings.len() ==> !key_map(previous.buildings).contains_key(
                #[trigger] current.buildings[i].key(),
            );
    lemma_patch_round_trip_order(
        previous.buildings,
        current.buildings,
        building_created_in(previous.buildings),
        building_refreshed_in(previous.buildings),
        building_update_of(),
        nb,
    );
    let rb = rebuilt.buildings;
    let cb = current.buildings;
    assert(rb.len() == rb.map_values(key_of::<Building>()).len());
    assert forall|i: int| 0 <= i < cb.len() implies building_same_value(#[trigger] rb[i], cb[i]) by {
        assert(rb.map_values(key_of::<Building>())[i] == cb.map_values(key_of::<Building>())[i]);
        crate::keyed::lemma_key_map_value(rb, i);
        crate::keyed::lemma_key_map_value(cb, i);
    }
}

} // verus!
