//! Combat cues a client reads off successive snapshots: damage numbers on
//! units, buildings and castles, unit deaths and bounty rewards.
//!
//! The server sends no combat events; the client compares each snapshot of a
//! match in play with what it kept of the previous one. Where a cue is
//! drawn, and by which attacker, is left to the renderer; which cues there
//! are is decided here. Whether a spot is revealed to the viewer is measured
//! on the fog of war and comes in as one flag per entity.
use vstd::prelude::*;

use crate::model::{BountyEvent, Castle, MatchPhase, MatchSnapshot, Team, Unit, Building, WorldPos, PlayerInfo, SnapshotModel};
use crate::view::{side_matches_viewer, side_of_owner};

verus! {

/// What the tracker keeps of a unit: its health and where it stood.
#[derive(Clone, Copy, Debug)]
pub struct TrackedUnit {
    pub id: u64,
    pub health: i32,
    pub pos: WorldPos,
}

/// What the tracker keeps of a building: its health.
#[derive(Clone, Copy, Debug)]
pub struct TrackedBuilding {
    pub id: u64,
    pub health: i32,
}

/// What a client remembers of the last snapshot of a match in play.
pub struct CombatTracker {
    /// Whether a snapshot of the match in play was kept already.
    pub initialized: bool,
    pub units: Vec<TrackedUnit>,
    pub buildings: Vec<TrackedBuilding>,
    /// Castle health, in the snapshot's castle order.
    pub castle_health: Vec<i32>,
    /// Bounty events already rewarded on screen.
    pub seen_bounty_events: Vec<u64>,
}

/// The mathematical content of a [`CombatTracker`].
pub struct TrackerModel {
    pub initialized: bool,
    pub units: Seq<TrackedUnit>,
    pub buildings: Seq<TrackedBuilding>,
    pub castle_health: Seq<i32>,
    pub seen_bounty_events: Seq<u64>,
}

impl View for CombatTracker {
    type V = TrackerModel;

    open spec fn view(&self) -> TrackerModel {
        TrackerModel {
            initialized: self.initialized,
            units: self.units@,
            buildings: self.buildings@,
            castle_health: self.castle_health@,
            seen_bounty_events: self.seen_bounty_events@,
        }
    }
}

/// One effect to show for a change between two snapshots.
#[derive(Clone, Copy, Debug)]
pub enum CombatCue {
    /// A remembered unit is gone, where the viewer could see it fall.
    UnitDeath { id: u64, pos: WorldPos },
    /// The unit at `index` of the snapshot lost `damage` health.
    UnitHit { index: usize, id: u64, damage: i64, survived: bool },
    /// The building at `index` of the snapshot lost `damage` health.
    BuildingHit { index: usize, id: u64, damage: i64 },
    /// The castle at `index` of the snapshot lost `damage` health.
    CastleHit { index: usize, team: Team, damage: i64 },
    /// The bounty event at `index` of the snapshot paid the viewer's side.
    Reward { index: usize, id: u64, team: Team, amount: i32 },
}

/// A tracker that has seen nothing.
pub open spec fn blank_tracker(castle_health: Seq<i32>) -> TrackerModel {
    TrackerModel {
        initialized: false,
        units: Seq::empty(),
        buildings: Seq::empty(),
        castle_health,
        seen_bounty_events: Seq::empty(),
    }
}

/// The cues of positions `0..n`, each position giving at most one.
pub open spec fn cues_upto(n: int, cue_at: spec_fn(int) -> Option<CombatCue>) -> Seq<CombatCue>
    decreases n,
{
    if n <= 0 {
        Seq::empty()
    } else {
        let rest = cues_upto(n - 1, cue_at);
        match cue_at(n - 1) {
            Some(cue) => rest.push(cue),
            None => rest,
        }
    }
}

/// The position of the last element with id `id`, or -1.
pub open spec fn last_index_of<T>(s: Seq<T>, id_of: spec_fn(T) -> u64, id: u64) -> int
    decreases s.len(),
{
    if s.len() == 0 {
        -1
    } else if id_of(s.last()) == id {
        s.len() - 1
    } else {
        last_index_of(s.drop_last(), id_of, id)
    }
}

pub open spec fn unit_entry_id() -> spec_fn(TrackedUnit) -> u64 {
    |t: TrackedUnit| t.id
}

pub open spec fn building_entry_id() -> spec_fn(TrackedBuilding) -> u64 {
    |t: TrackedBuilding| t.id
}

/// Whether some unit of `units` has id `id`.
pub open spec fn unit_present(units: Seq<Unit>, id: u64) -> bool {
    exists|j: int| 0 <= j < units.len() && #[trigger] units[j].id == id
}

/// Whether some bounty event of `events` has id `id`.
pub open spec fn event_present(events: Seq<BountyEvent>) -> spec_fn(u64) -> bool {
    |id: u64| exists|j: int| 0 <= j < events.len() && #[trigger] events[j].id == id
}

/// Whether an owner's entity is in view: the viewer's own side, any side
/// with no viewer, or a spot the fog reveals.
pub open spec fn in_view(players: Seq<PlayerInfo>, owner: crate::model::PlayerId, viewer: Option<Team>, revealed: bool) -> bool {
    match viewer {
        None => true,
        Some(team) => side_of_owner(players, owner) == team || revealed,
    }
}

/// A death cue for the remembered unit at `i`: the last entry of its id, gone
/// from the snapshot, where the viewer sees.
pub open spec fn death_at(
    prior: Seq<TrackedUnit>,
    units: Seq<Unit>,
    viewer: Option<Team>,
    revealed: Seq<bool>,
) -> spec_fn(int) -> Option<CombatCue> {
    |i: int|
        if last_index_of(prior, unit_entry_id(), prior[i].id) == i && !unit_present(
            units,
            prior[i].id,
        ) && (viewer is None || revealed[i]) {
            Some(CombatCue::UnitDeath { id: prior[i].id, pos: prior[i].pos })
        } else {
            None
        }
}

/// A hit cue for the unit at `i`: in view, remembered, and with less
/// health than remembered.
pub open spec fn unit_hit_at(
    prior: Seq<TrackedUnit>,
    s: SnapshotModel,
    viewer: Option<Team>,
    revealed: Seq<bool>,
) -> spec_fn(int) -> Option<CombatCue> {
    |i: int|
        {
            let u = s.units[i];
            let k = last_index_of(prior, unit_entry_id(), u.id);
            if in_view(s.players, u.owner, viewer, revealed[i]) && k >= 0 && u.health
                < prior[k].health {
                Some(
                    CombatCue::UnitHit {
                        index: i as usize,
                        id: u.id,
                        damage: (prior[k].health - u.health) as i64,
                        survived: u.health > 0,
                    },
                )
            } else {
                None
            }
        }
}

/// A hit cue for the building at `i`: in view, remembered, and with less
/// health than remembered.
pub open spec fn building_hit_at(
    prior: Seq<TrackedBuilding>,
    s: SnapshotModel,
    viewer: Option<Team>,
    revealed: Seq<bool>,
) -> spec_fn(int) -> Option<CombatCue> {
    |i: int|
        {
            let b = s.buildings[i];
            let k = last_index_of(prior, building_entry_id(), b.id);
            if in_view(s.players, b.owner, viewer, revealed[i]) && k >= 0 && b.health
                < prior[k].health {
                Some(
                    CombatCue::BuildingHit {
                        index: i as usize,
                        id: b.id,
                        damage: (prior[k].health - b.health) as i64,
                    },
                )
            } else {
                None
            }
        }
}

/// The first castle position of `team`.
pub open spec fn is_first_castle_of(castles: Seq<Castle>, team: Team, j: int) -> bool {
    0 <= j < castles.len() && castles[j].team == team && forall|k: int|
        0 <= k < j ==> #[trigger] castles[k].team != team
}

pub open spec fn first_castle_of(castles: Seq<Castle>, team: Team) -> int {
    choose|j: int| is_first_castle_of(castles, team, j)
}

/// The remembered health of the castle at `c`: the one kept at the first
/// position of its team, or its own health when none was kept there.
pub open spec fn prior_castle_health(castle_health: Seq<i32>, castles: Seq<Castle>, c: int) -> int {
    let j = first_castle_of(castles, castles[c].team);
    if j < castle_health.len() {
        castle_health[j] as int
    } else {
        castles[c].health as int
    }
}

/// An alarm for the castle at `c`: in view and hurt from above zero.
pub open spec fn castle_hit_at(
    castle_health: Seq<i32>,
    castles: Seq<Castle>,
    viewer: Option<Team>,
    revealed: Seq<bool>,
) -> spec_fn(int) -> Option<CombatCue> {
    |c: int|
        {
            let previous = prior_castle_health(castle_health, castles, c);
            let seen = viewer is None || viewer == Some(castles[c].team) || revealed[c];
            if seen && previous > 0 && castles[c].health < previous {
                Some(
                    CombatCue::CastleHit {
                        index: c as usize,
                        team: castles[c].team,
                        damage: (previous - castles[c].health) as i64,
                    },
                )
            } else {
                None
            }
        }
}

/// The rewards of the first `n` bounty events for `team`: each event of
/// that side whose id is not seen yet gives one, and its id is seen after.
pub open spec fn rewards_upto(seen: Seq<u64>, events: Seq<BountyEvent>, team: Team, n: int) -> (
    Seq<u64>,
    Seq<CombatCue>,
)
    decreases n,
{
    if n <= 0 {
        (seen, Seq::empty())
    } else {
        let (s, cues) = rewards_upto(seen, events, team, n - 1);
        let e = events[n - 1];
        if e.team == team && !s.contains(e.id) {
            (
                s.push(e.id),
                cues.push(CombatCue::Reward { index: (n - 1) as usize, id: e.id, team: e.team, amount: e.amount }),
            )
        } else {
            (s, cues)
        }
    }
}

/// The tracker holding what a snapshot shows.
pub open spec fn tracker_of(s: SnapshotModel, seen: Seq<u64>) -> TrackerModel {
    TrackerModel {
        initialized: true,
        units: s.units.map_values(|u: Unit| TrackedUnit { id: u.id, health: u.health, pos: u.pos }),
        buildings: s.buildings.map_values(|b: Building| TrackedBuilding { id: b.id, health: b.health }),
        castle_health: s.castles.map_values(|c: Castle| c.health),
        seen_bounty_events: seen,
    }
}

/// The seen bounty ids still in the snapshot, then the rewards of its events.
pub open spec fn rewarded(seen: Seq<u64>, events: Seq<BountyEvent>, viewer: Option<Team>) -> (
    Seq<u64>,
    Seq<CombatCue>,
) {
    let kept = seen.filter(event_present(events));
    match viewer {
        Some(team) => rewards_upto(kept, events, team, events.len() as int),
        None => (kept, Seq::empty()),
    }
}

/// The tracker after `s` and the cues it gives, in order: deaths, unit hits,
/// building hits, castle alarms, rewards. Outside play the tracker forgets
/// everything; the first snapshot in play is only remembered.
pub open spec fn detected(
    t: TrackerModel,
    s: SnapshotModel,
    viewer: Option<Team>,
    unit_revealed: Seq<bool>,
    building_revealed: Seq<bool>,
    castle_revealed: Seq<bool>,
    death_revealed: Seq<bool>,
) -> (TrackerModel, Seq<CombatCue>) {
    if s.phase != MatchPhase::Playing {
        (blank_tracker(Seq::empty()), Seq::empty())
    } else if !t.initialized {
        (tracker_of(s, t.seen_bounty_events), Seq::empty())
    } else {
        let (seen, rewards) = rewarded(t.seen_bounty_events, s.bounty_events, viewer);
        let cues = cues_upto(t.units.len() as int, death_at(t.units, s.units, viewer, death_revealed))
            + cues_upto(s.units.len() as int, unit_hit_at(t.units, s, viewer, unit_revealed))
            + cues_upto(
            s.buildings.len() as int,
            building_hit_at(t.buildings, s, viewer, building_revealed),
        ) + cues_upto(
            s.castles.len() as int,
            castle_hit_at(t.castle_health, s.castles, viewer, castle_revealed),
        ) + rewards;
        (tracker_of(s, seen), cues)
    }
}


proof fn lemma_last_index_step<T>(s: Seq<T>, id_of: spec_fn(T) -> u64, id: u64, i: int)
    requires
        0 <= i < s.len(),
    ensures
        last_index_of(s.take(i + 1), id_of, id) == if id_of(s[i]) == id {
            i
        } else {
            last_index_of(s.take(i), id_of, id)
        },
{
    assert(s.take(i + 1).drop_last() =~= s.take(i));
}

proof fn lemma_last_index_bounds<T>(s: Seq<T>, id_of: spec_fn(T) -> u64, id: u64)
    ensures
        -1 <= last_index_of(s, id_of, id) < s.len(),
        last_index_of(s, id_of, id) >= 0 ==> id_of(s[last_index_of(s, id_of, id)]) == id,
        forall|j: int|
            last_index_of(s, id_of, id) < j < s.len() ==> id_of(#[trigger] s[j]) != id,
    decreases s.len(),
{
    if s.len() > 0 {
        lemma_last_index_bounds(s.drop_last(), id_of, id);
        assert forall|j: int| last_index_of(s, id_of, id) < j < s.len() implies id_of(
            #[trigger] s[j],
        ) != id by {
            if j < s.len() - 1 {
                assert(s.drop_last()[j] == s[j]);
            }
        }
    }
}

proof fn lemma_cues_step(n: int, cue_at: spec_fn(int) -> Option<CombatCue>)
    requires
        n >= 0,
    ensures
        cues_upto(n + 1, cue_at) == match cue_at(n) {
            Some(cue) => cues_upto(n, cue_at).push(cue),
            None => cues_upto(n, cue_at),
        },
{
}

/// The position of the last remembered unit with id `id`.
fn last_unit_entry(entries: &Vec<TrackedUnit>, id: u64) -> (found: Option<usize>)
    ensures
        match found {
            Some(k) => k as int == last_index_of(entries@, unit_entry_id(), id),
            None => last_index_of(entries@, unit_entry_id(), id) == -1,
        },
{
    let mut found: Option<usize> = None;
    let mut i: usize = 0;
    while i < entries.len()
        invariant
            i <= entries@.len(),
            match found {
                Some(k) => k as int == last_index_of(entries@.take(i as int), unit_entry_id(), id),
                None => last_index_of(entries@.take(i as int), unit_entry_id(), id) == -1,
            },
        decreases entries.len() - i,
    {
        proof {
            lemma_last_index_step(entries@, unit_entry_id(), id, i as int);
        }
        if entries[i].id == id {
            found = Some(i);
        }
        i = i + 1;
    }
    proof {
        assert(entries@.take(entries@.len() as int) =~= entries@);
    }
    found
}

/// The position of the last remembered building with id `id`.
fn last_building_entry(entries: &Vec<TrackedBuilding>, id: u64) -> (found: Option<usize>)
    ensures
        match found {
            Some(k) => k as int == last_index_of(entries@, building_entry_id(), id),
            None => last_index_of(entries@, building_entry_id(), id) == -1,
        },
{
    let mut found: Option<usize> = None;
    let mut i: usize = 0;
    while i < entries.len()
        invariant
            i <= entries@.len(),
            match found {
                Some(k) => k as int == last_index_of(entries@.take(i as int), building_entry_id(), id),
                None => last_index_of(entries@.take(i as int), building_entry_id(), id) == -1,
            },
        decreases entries.len() - i,
    {
        proof {
            lemma_last_index_step(entries@, building_entry_id(), id, i as int);
        }
        if entries[i].id == id {
            found = Some(i);
        }
        i = i + 1;
    }
    proof {
        assert(entries@.take(entries@.len() as int) =~= entries@);
    }
    found
}

fn has_unit(units: &Vec<Unit>, id: u64) -> (present: bool)
    ensures
        present == unit_present(units@, id),
{
    let mut i: usize = 0;
    while i < units.len()
        invariant
            i <= units@.len(),
            forall|j: int| 0 <= j < i ==> #[trigger] units@[j].id != id,
        decreases units.len() - i,
    {
        if units[i].id == id {
            return true;
        }
        i = i + 1;
    }
    false
}

fn has_event(events: &Vec<BountyEvent>, id: u64) -> (present: bool)
    ensures
        present == event_present(events@)(id),
{
    let mut i: usize = 0;
    while i < events.len()
        invariant
            i <= events@.len(),
            forall|j: int| 0 <= j < i ==> #[trigger] events@[j].id != id,
        decreases events.len() - i,
    {
        if events[i].id == id {
            return true;
        }
        i = i + 1;
    }
    false
}

fn has_id(ids: &Vec<u64>, id: u64) -> (present: bool)
    ensures
        present == ids@.contains(id),
{
    let mut i: usize = 0;
    while i < ids.len()
        invariant
            i <= ids@.len(),
            forall|j: int| 0 <= j < i ==> ids@[j] != id,
        decreases ids.len() - i,
    {
        if ids[i] == id {
            proof {
                assert(ids@[i as int] == id);
            }
            return true;
        }
        i = i + 1;
    }
    false
}

fn push_death_cues(
    cues: &mut Vec<CombatCue>,
    prior: &Vec<TrackedUnit>,
    units: &Vec<Unit>,
    viewer: Option<Team>,
    revealed: &Vec<bool>,
)
    requires
        revealed@.len() == prior@.len(),
    ensures
        final(cues)@ == old(cues)@ + cues_upto(
            prior@.len() as int,
            death_at(prior@, units@, viewer, revealed@),
        ),
{
    let ghost f = death_at(prior@, units@, viewer, revealed@);
    let ghost start = cues@;
    proof {
        assert(start + cues_upto(0, f) =~= start);
    }
    let mut i: usize = 0;
    while i < prior.len()
        invariant
            i <= prior@.len(),
            revealed@.len() == prior@.len(),
            f == death_at(prior@, units@, viewer, revealed@),
            cues@ == start + cues_upto(i as int, f),
        decreases prior.len() - i,
    {
        let entry = prior[i];
        let last = match last_unit_entry(prior, entry.id) {
            Some(k) => k == i,
            None => false,
        };
        let gone = !has_unit(units, entry.id);
        proof {
            lemma_cues_step(i as int, f);
        }
        if last && gone && (viewer.is_none() || revealed[i]) {
            cues.push(CombatCue::UnitDeath { id: entry.id, pos: entry.pos });
            proof {
                assert(cues@ =~= start + cues_upto(i + 1, f));
            }
        }
        i = i + 1;
    }
}

fn push_unit_hits(
    cues: &mut Vec<CombatCue>,
    prior: &Vec<TrackedUnit>,
    snapshot: &MatchSnapshot,
    viewer: Option<Team>,
    revealed: &Vec<bool>,
)
    requires
        revealed@.len() == snapshot.units@.len(),
    ensures
        final(cues)@ == old(cues)@ + cues_upto(
            snapshot.units@.len() as int,
            unit_hit_at(prior@, snapshot@, viewer, revealed@),
        ),
{
    let ghost f = unit_hit_at(prior@, snapshot@, viewer, revealed@);
    let ghost start = cues@;
    proof {
        assert(start + cues_upto(0, f) =~= start);
    }
    let mut i: usize = 0;
    while i < snapshot.units.len()
        invariant
            i <= snapshot.units@.len(),
            revealed@.len() == snapshot.units@.len(),
            f == unit_hit_at(prior@, snapshot@, viewer, revealed@),
            cues@ == start + cues_upto(i as int, f),
        decreases snapshot.units.len() - i,
    {
        let unit = snapshot.units[i];
        let seen = side_matches_viewer(snapshot, unit.owner, viewer) || revealed[i];
        proof {
            lemma_cues_step(i as int, f);
            lemma_last_index_bounds(prior@, unit_entry_id(), unit.id);
        }
        if seen {
            match last_unit_entry(prior, unit.id) {
                Some(k) => {
                    let before = prior[k].health;
                    if unit.health < before {
                        cues.push(
                            CombatCue::UnitHit {
                                index: i,
                                id: unit.id,
                                damage: before as i64 - unit.health as i64,
                                survived: unit.health > 0,
                            },
                        );
                        proof {
                            assert(cues@ =~= start + cues_upto(i + 1, f));
                        }
                    }
                },
                None => {},
            }
        }
        i = i + 1;
    }
}

fn push_building_hits(
    cues: &mut Vec<CombatCue>,
    prior: &Vec<TrackedBuilding>,
    snapshot: &MatchSnapshot,
    viewer: Option<Team>,
    revealed: &Vec<bool>,
)
    requires
        revealed@.len() == snapshot.buildings@.len(),
    ensures
        final(cues)@ == old(cues)@ + cues_upto(
            snapshot.buildings@.len() as int,
            building_hit_at(prior@, snapshot@, viewer, revealed@),
        ),
{
    let ghost f = building_hit_at(prior@, snapshot@, viewer, revealed@);
    let ghost start = cues@;
    proof {
        assert(start + cues_upto(0, f) =~= start);
    }
    let mut i: usize = 0;
    while i < snapshot.buildings.len()
        invariant
            i <= snapshot.buildings@.len(),
            revealed@.len() == snapshot.buildings@.len(),
            f == building_hit_at(prior@, snapshot@, viewer, revealed@),
            cues@ == start + cues_upto(i as int, f),
        decreases snapshot.buildings.len() - i,
    {
        let building = snapshot.buildings[i];
        let seen = side_matches_viewer(snapshot, building.owner, viewer) || revealed[i];
        proof {
            lemma_cues_step(i as int, f);
            lemma_last_index_bounds(prior@, building_entry_id(), building.id);
        }
        if seen {
            match last_building_entry(prior, building.id) {
                Some(k) => {
                    let before = prior[k].health;
                    if building.health < before {
                        cues.push(
                            CombatCue::BuildingHit {
                                index: i,
                                id: building.id,
                                damage: before as i64 - building.health as i64,
                            },
                        );
                        proof {
                            assert(cues@ =~= start + cues_upto(i + 1, f));
                        }
                    }
                },
                None => {},
            }
        }
        i = i + 1;
    }
}

/// The first castle position with the team of the castle at `c`.
fn first_castle_index(castles: &Vec<Castle>, c: usize) -> (j: usize)
    requires
        c < castles@.len(),
    ensures
        j as int == first_castle_of(castles@, castles@[c as int].team),
        is_first_castle_of(castles@, castles@[c as int].team, j as int),
{
    let team = castles[c].team;
    let mut j: usize = 0;
    while castles[j].team != team
        invariant
            j <= c,
            c < castles@.len(),
            team == castles@[c as int].team,
            forall|k: int| 0 <= k < j ==> #[trigger] castles@[k].team != team,
        decreases c - j,
    {
        j = j + 1;
    }
    proof {
        assert(is_first_castle_of(castles@, team, j as int));
        let other = first_castle_of(castles@, team);
        if other != j as int {
            if other < j {
                assert(castles@[other].team != team);
            } else {
                assert(castles@[j as int].team != team);
            }
        }
    }
    j
}

fn push_castle_hits(
    cues: &mut Vec<CombatCue>,
    castle_health: &Vec<i32>,
    castles: &Vec<Castle>,
    viewer: Option<Team>,
    revealed: &Vec<bool>,
)
    requires
        revealed@.len() == castles@.len(),
    ensures
        final(cues)@ == old(cues)@ + cues_upto(
            castles@.len() as int,
            castle_hit_at(castle_health@, castles@, viewer, revealed@),
        ),
{
    let ghost f = castle_hit_at(castle_health@, castles@, viewer, revealed@);
    let ghost start = cues@;
    proof {
        assert(start + cues_upto(0, f) =~= start);
    }
    let mut c: usize = 0;
    while c < castles.len()
        invariant
            c <= castles@.len(),
            revealed@.len() == castles@.len(),
            f == castle_hit_at(castle_health@, castles@, viewer, revealed@),
            cues@ == start + cues_upto(c as int, f),
        decreases castles.len() - c,
    {
        let castle = castles[c];
        let seen = match viewer {
            None => true,
            Some(team) => team == castle.team,
        } || revealed[c];
        let j = first_castle_index(castles, c);
        let before: i32 = if j < castle_health.len() {
            castle_health[j]
        } else {
            castle.health
        };
        proof {
            lemma_cues_step(c as int, f);
        }
        if seen && before > 0 && castle.health < before {
            cues.push(
                CombatCue::CastleHit {
                    index: c,
                    team: castle.team,
                    damage: before as i64 - castle.health as i64,
                },
            );
            proof {
                assert(cues@ =~= start + cues_upto(c + 1, f));
            }
        }
        c = c + 1;
    }
}

/// The seen ids whose event is still in `events`, in order.
fn keep_seen(seen: &Vec<u64>, events: &Vec<BountyEvent>) -> (kept: Vec<u64>)
    ensures
        kept@ == seen@.filter(event_present(events@)),
{
    let mut kept: Vec<u64> = Vec::new();
    let mut i: usize = 0;
    proof {
        assert(seen@.take(0).filter(event_present(events@)) =~= kept@) by {
            reveal(Seq::filter);
        }
    }
    while i < seen.len()
        invariant
            i <= seen@.len(),
            kept@ == seen@.take(i as int).filter(event_present(events@)),
        decreases seen.len() - i,
    {
        proof {
            assert(seen@.take(i + 1) =~= seen@.take(i as int).push(seen@[i as int]));
            seen@.take(i as int).lemma_filter_push(seen@[i as int], event_present(events@));
        }
        if has_event(events, seen[i]) {
            kept.push(seen[i]);
        }
        i = i + 1;
    }
    proof {
        assert(seen@.take(seen@.len() as int) =~= seen@);
    }
    kept
}

/// Rewards the bounty events of `team` not seen yet, noting them seen.
fn push_rewards(cues: &mut Vec<CombatCue>, seen: &mut Vec<u64>, events: &Vec<BountyEvent>, team: Team)
    ensures
        final(seen)@ == rewards_upto(old(seen)@, events@, team, events@.len() as int).0,
        final(cues)@ == old(cues)@ + rewards_upto(old(seen)@, events@, team, events@.len() as int).1,
{
    let ghost seen0 = seen@;
    let ghost start = cues@;
    proof {
        assert(start + Seq::<CombatCue>::empty() =~= start);
    }
    let mut i: usize = 0;
    while i < events.len()
        invariant
            i <= events@.len(),
            seen@ == rewards_upto(seen0, events@, team, i as int).0,
            cues@ == start + rewards_upto(seen0, events@, team, i as int).1,
        decreases events.len() - i,
    {
        let event = events[i];
        if event.team == team && !has_id(seen, event.id) {
            cues.push(
                CombatCue::Reward { index: i, id: event.id, team: event.team, amount: event.amount },
            );
            seen.push(event.id);
            proof {
                assert(cues@ =~= start + rewards_upto(seen0, events@, team, i + 1).1);
            }
        }
        i = i + 1;
    }
}

/// The tracker holding what `snapshot` shows, with `seen` bounty ids.
fn track_snapshot(snapshot: &MatchSnapshot, seen: Vec<u64>) -> (tracker: CombatTracker)
    ensures
        tracker@ == tracker_of(snapshot@, seen@),
{
    let ghost goal = tracker_of(snapshot@, seen@);
    let mut units: Vec<TrackedUnit> = Vec::new();
    let mut i: usize = 0;
    while i < snapshot.units.len()
        invariant
            i <= snapshot.units@.len(),
            goal == tracker_of(snapshot@, seen@),
            units@ == goal.units.take(i as int),
        decreases snapshot.units.len() - i,
    {
        let u = snapshot.units[i];
        units.push(TrackedUnit { id: u.id, health: u.health, pos: u.pos });
        proof {
            assert(units@ =~= goal.units.take(i + 1));
        }
        i = i + 1;
    }
    let mut buildings: Vec<TrackedBuilding> = Vec::new();
    let mut i: usize = 0;
    while i < snapshot.buildings.len()
        invariant
            i <= snapshot.buildings@.len(),
            goal == tracker_of(snapshot@, seen@),
            buildings@ == goal.buildings.take(i as int),
        decreases snapshot.buildings.len() - i,
    {
        let b = snapshot.buildings[i];
        buildings.push(TrackedBuilding { id: b.id, health: b.health });
        proof {
            assert(buildings@ =~= goal.buildings.take(i + 1));
        }
        i = i + 1;
    }
    let mut castle_health: Vec<i32> = Vec::new();
    let mut i: usize = 0;
    while i < snapshot.castles.len()
        invariant
            i <= snapshot.castles@.len(),
            goal == tracker_of(snapshot@, seen@),
            castle_health@ == goal.castle_health.take(i as int),
        decreases snapshot.castles.len() - i,
    {
        castle_health.push(snapshot.castles[i].health);
        proof {
            assert(castle_health@ =~= goal.castle_health.take(i + 1));
        }
        i = i + 1;
    }
    proof {
        assert(units@ =~= goal.units);
        assert(buildings@ =~= goal.buildings);
        assert(castle_health@ =~= goal.castle_health);
    }
    CombatTracker { initialized: true, units, buildings, castle_health, seen_bounty_events: seen }
}

/// The tracker when no snapshot is at hand: it forgets all but the castle
/// health it last saw.
pub fn without_snapshot(tracker: &CombatTracker) -> (next: CombatTracker)
    ensures
        next@ == blank_tracker(tracker@.castle_health),
{
    CombatTracker {
        initialized: false,
        units: Vec::new(),
        buildings: Vec::new(),
        castle_health: crate::model::copy_vec(&tracker.castle_health),
        seen_bounty_events: Vec::new(),
    }
}

/// Compares `snapshot` with what `tracker` kept of the previous one, and
/// gives the tracker for the next snapshot with the cues to show. The
/// revealed flags tell, for each unit, building and castle of the snapshot
/// and each unit of the tracker, whether the fog lets `viewer` see its spot.
pub fn detect_combat(
    tracker: &CombatTracker,
    snapshot: &MatchSnapshot,
    viewer: Option<Team>,
    unit_revealed: &Vec<bool>,
    building_revealed: &Vec<bool>,
    castle_revealed: &Vec<bool>,
    death_revealed: &Vec<bool>,
) -> (next: (CombatTracker, Vec<CombatCue>))
    requires
        unit_revealed@.len() == snapshot.units@.len(),
        building_revealed@.len() == snapshot.buildings@.len(),
        castle_revealed@.len() == snapshot.castles@.len(),
        death_revealed@.len() == tracker.units@.len(),
    ensures
        (next.0@, next.1@) == detected(
            tracker@,
            snapshot@,
            viewer,
            unit_revealed@,
            building_revealed@,
            castle_revealed@,
            death_revealed@,
        ),
{
    if snapshot.phase != MatchPhase::Playing {
        let blank = CombatTracker {
            initialized: false,
            units: Vec::new(),
            buildings: Vec::new(),
            castle_health: Vec::new(),
            seen_bounty_events: Vec::new(),
        };
        proof {
            assert(blank@ =~= blank_tracker(Seq::empty()));
        }
        return (blank, Vec::new());
    }
    if !tracker.initialized {
        let seen = crate::model::copy_vec(&tracker.seen_bounty_events);
        return (track_snapshot(snapshot, seen), Vec::new());
    }
    let mut seen = keep_seen(&tracker.seen_bounty_events, &snapshot.bounty_events);
    let mut cues: Vec<CombatCue> = Vec::new();
    push_death_cues(&mut cues, &tracker.units, &snapshot.units, viewer, death_revealed);
    push_unit_hits(&mut cues, &tracker.units, snapshot, viewer, unit_revealed);
    push_building_hits(&mut cues, &tracker.buildings, snapshot, viewer, building_revealed);
    push_castle_hits(&mut cues, &tracker.castle_health, &snapshot.castles, viewer, castle_revealed);
    match viewer {
        Some(team) => push_rewards(&mut cues, &mut seen, &snapshot.bounty_events, team),
        None => {},
    }
    proof {
        let t = tracker@;
        let s = snapshot@;
        let deaths = cues_upto(t.units.len() as int, death_at(t.units, s.units, viewer, death_revealed@));
        let hits = cues_upto(s.units.len() as int, unit_hit_at(t.units, s, viewer, unit_revealed@));
        let bhits = cues_upto(
            s.buildings.len() as int,
            building_hit_at(t.buildings, s, viewer, building_revealed@),
        );
        let alarms = cues_upto(
            s.castles.len() as int,
            castle_hit_at(t.castle_health, s.castles, viewer, castle_revealed@),
        );
        let (seen_after, rewards) = rewarded(t.seen_bounty_events, s.bounty_events, viewer);
        assert(seen@ == seen_after);
        assert(cues@ =~= deaths + hits + bhits + alarms + rewards);
    }
    let next = track_snapshot(snapshot, seen);
    (next, cues)
}


/// The bounty event id a cue rewards, if it is a reward.
pub open spec fn rewarded_id(cue: CombatCue) -> Option<u64> {
    match cue {
        CombatCue::Reward { id, .. } => Some(id),
        _ => None,
    }
}

/// Whether `cues` holds a reward for the bounty event with id `id`.
pub open spec fn rewards_id(cues: Seq<CombatCue>, id: u64) -> bool {
    exists|i: int| 0 <= i < cues.len() && rewarded_id(#[trigger] cues[i]) == Some(id)
}

/// Every cue of positions `0..n` is one that `cue_at` gives.
proof fn lemma_cues_from(n: int, cue_at: spec_fn(int) -> Option<CombatCue>)
    ensures
        forall|c: int|
            #![trigger cues_upto(n, cue_at)[c]]
            0 <= c < cues_upto(n, cue_at).len() ==> exists|i: int|
                #![trigger cue_at(i)]
                0 <= i < n && cue_at(i) == Some(cues_upto(n, cue_at)[c]),
    decreases n,
{
    if n > 0 {
        lemma_cues_from(n - 1, cue_at);
        let rest = cues_upto(n - 1, cue_at);
        assert forall|c: int|
            #![trigger cues_upto(n, cue_at)[c]]
            0 <= c < cues_upto(n, cue_at).len() implies exists|i: int|
                #![trigger cue_at(i)]
                0 <= i < n && cue_at(i) == Some(cues_upto(n, cue_at)[c]) by {
            if c < rest.len() {
                assert(cues_upto(n, cue_at)[c] == rest[c]);
                let i = choose|i: int| #![trigger cue_at(i)] 0 <= i < n - 1 && cue_at(i) == Some(rest[c]);
            } else {
                assert(cue_at(n - 1) == Some(cues_upto(n, cue_at)[c]));
            }
        }
    }
}

/// Rewarding keeps every seen id, and rewards only ids not seen before,
/// each seen afterwards.
proof fn lemma_rewards_skip_seen(seen: Seq<u64>, events: Seq<BountyEvent>, team: Team, n: int)
    ensures
        forall|k: u64| seen.contains(k) ==> #[trigger] rewards_upto(seen, events, team, n).0.contains(k),
        forall|c: int|
            0 <= c < rewards_upto(seen, events, team, n).1.len() ==> ({
                let r = rewarded_id(#[trigger] rewards_upto(seen, events, team, n).1[c]);
                &&& r is Some
                &&& !seen.contains(r->0)
                &&& rewards_upto(seen, events, team, n).0.contains(r->0)
            }),
    decreases n,
{
    if n > 0 {
        lemma_rewards_skip_seen(seen, events, team, n - 1);
        let (s, cues) = rewards_upto(seen, events, team, n - 1);
        let e = events[n - 1];
        if e.team == team && !s.contains(e.id) {
            let out = rewards_upto(seen, events, team, n);
            assert forall|k: u64| seen.contains(k) implies #[trigger] out.0.contains(k) by {
                assert(s.contains(k));
                let j = choose|j: int| 0 <= j < s.len() && s[j] == k;
                assert(out.0[j] == k);
            }
            assert forall|c: int| 0 <= c < out.1.len() implies ({
                let r = rewarded_id(#[trigger] out.1[c]);
                &&& r is Some
                &&& !seen.contains(r->0)
                &&& out.0.contains(r->0)
            }) by {
                if c < cues.len() {
                    assert(out.1[c] == cues[c]);
                    let id = rewarded_id(cues[c])->0;
                    let j = choose|j: int| 0 <= j < s.len() && s[j] == id;
                    assert(out.0[j] == id);
                } else {
                    assert(out.0[s.len() as int] == e.id);
                }
            }
        }
    }
}

/// A bounty event rewarded once is not rewarded again while later snapshots
/// of the match in play still list it.
pub proof fn lemma_bounty_rewarded_once(
    t: TrackerModel,
    s1: SnapshotModel,
    s2: SnapshotModel,
    viewer: Option<Team>,
    unit_revealed: Seq<bool>,
    building_revealed: Seq<bool>,
    castle_revealed: Seq<bool>,
    death_revealed: Seq<bool>,
    later_unit_revealed: Seq<bool>,
    later_building_revealed: Seq<bool>,
    later_castle_revealed: Seq<bool>,
    later_death_revealed: Seq<bool>,
    id: u64,
)
    requires
        rewards_id(
            detected(
                t,
                s1,
                viewer,
                unit_revealed,
                building_revealed,
                castle_revealed,
                death_revealed,
            ).1,
            id,
        ),
        s2.phase == MatchPhase::Playing,
        event_present(s2.bounty_events)(id),
    ensures
        !rewards_id(
            detected(
                detected(
                    t,
                    s1,
                    viewer,
                    unit_revealed,
                    building_revealed,
                    castle_revealed,
                    death_revealed,
                ).0,
                s2,
                viewer,
                later_unit_revealed,
                later_building_revealed,
                later_castle_revealed,
                later_death_revealed,
            ).1,
            id,
        ),
{
    let first = detected(t, s1, viewer, unit_revealed, building_revealed, castle_revealed, death_revealed);
    let t1 = first.0;
    // The first observation was in play, with a tracker that had seen play,
    // and rewarded `id` among its bounty cues.
    let team = viewer->0;
    let pruned = t.seen_bounty_events.filter(event_present(s1.bounty_events));
    let n1 = s1.bounty_events.len() as int;
    lemma_rewards_skip_seen(pruned, s1.bounty_events, team, n1);
    let deaths = cues_upto(t.units.len() as int, death_at(t.units, s1.units, viewer, death_revealed));
    let hits = cues_upto(s1.units.len() as int, unit_hit_at(t.units, s1, viewer, unit_revealed));
    let bhits = cues_upto(
        s1.buildings.len() as int,
        building_hit_at(t.buildings, s1, viewer, building_revealed),
    );
    let alarms = cues_upto(
        s1.castles.len() as int,
        castle_hit_at(t.castle_health, s1.castles, viewer, castle_revealed),
    );
    lemma_cues_from(t.units.len() as int, death_at(t.units, s1.units, viewer, death_revealed));
    lemma_cues_from(s1.units.len() as int, unit_hit_at(t.units, s1, viewer, unit_revealed));
    lemma_cues_from(
        s1.buildings.len() as int,
        building_hit_at(t.buildings, s1, viewer, building_revealed),
    );
    lemma_cues_from(
        s1.castles.len() as int,
        castle_hit_at(t.castle_health, s1.castles, viewer, castle_revealed),
    );
    let c = choose|c: int| 0 <= c < first.1.len() && rewarded_id(#[trigger] first.1[c]) == Some(id);
    let head = deaths + hits + bhits + alarms;
    assert(first.1 == head + rewarded(t.seen_bounty_events, s1.bounty_events, viewer).1);
    if c < head.len() {
        if c < deaths.len() {
            assert(head[c] == deaths[c]);
        } else if c < deaths.len() + hits.len() {
            assert(head[c] == hits[c - deaths.len()]);
        } else if c < deaths.len() + hits.len() + bhits.len() {
            assert(head[c] == bhits[c - deaths.len() - hits.len()]);
        } else {
            assert(head[c] == alarms[c - deaths.len() - hits.len() - bhits.len()]);
        }
        assert(false);
    }
    assert(viewer is Some);
    let r1 = rewards_upto(pruned, s1.bounty_events, team, n1);
    assert(first.1[c] == r1.1[c - head.len()]);
    assert(t1.seen_bounty_events == r1.0);
    assert(t1.seen_bounty_events.contains(id));
    // The second observation keeps `id` seen, so it rewards it no more.
    let second = detected(
        t1,
        s2,
        viewer,
        later_unit_revealed,
        later_building_revealed,
        later_castle_revealed,
        later_death_revealed,
    );
    let kept = t1.seen_bounty_events.filter(event_present(s2.bounty_events));
    let j = choose|j: int| 0 <= j < t1.seen_bounty_events.len() && t1.seen_bounty_events[j] == id;
    t1.seen_bounty_events.lemma_filter_contains(event_present(s2.bounty_events), j);
    let n2 = s2.bounty_events.len() as int;
    lemma_rewards_skip_seen(kept, s2.bounty_events, team, n2);
    let deaths2 = cues_upto(
        t1.units.len() as int,
        death_at(t1.units, s2.units, viewer, later_death_revealed),
    );
    let hits2 = cues_upto(s2.units.len() as int, unit_hit_at(t1.units, s2, viewer, later_unit_revealed));
    let bhits2 = cues_upto(
        s2.buildings.len() as int,
        building_hit_at(t1.buildings, s2, viewer, later_building_revealed),
    );
    let alarms2 = cues_upto(
        s2.castles.len() as int,
        castle_hit_at(t1.castle_health, s2.castles, viewer, later_castle_revealed),
    );
    lemma_cues_from(t1.units.len() as int, death_at(t1.units, s2.units, viewer, later_death_revealed));
    lemma_cues_from(s2.units.len() as int, unit_hit_at(t1.units, s2, viewer, later_unit_revealed));
    lemma_cues_from(
        s2.buildings.len() as int,
        building_hit_at(t1.buildings, s2, viewer, later_building_revealed),
    );
    lemma_cues_from(
        s2.castles.len() as int,
        castle_hit_at(t1.castle_health, s2.castles, viewer, later_castle_revealed),
    );
    let head2 = deaths2 + hits2 + bhits2 + alarms2;
    let r2 = rewards_upto(kept, s2.bounty_events, team, n2);
    assert(second.1 == head2 + r2.1);
    assert forall|c2: int| 0 <= c2 < second.1.len() implies rewarded_id(#[trigger] second.1[c2])
        != Some(id) by {
        if c2 < head2.len() {
            if c2 < deaths2.len() {
                assert(head2[c2] == deaths2[c2]);
            } else if c2 < deaths2.len() + hits2.len() {
                assert(head2[c2] == hits2[c2 - deaths2.len()]);
            } else if c2 < deaths2.len() + hits2.len() + bhits2.len() {
                assert(head2[c2] == bhits2[c2 - deaths2.len() - hits2.len()]);
            } else {
                assert(head2[c2] == alarms2[c2 - deaths2.len() - hits2.len() - bhits2.len()]);
            }
        } else {
            assert(second.1[c2] == r2.1[c2 - head2.len()]);
        }
    }
}


/// The id and position a cue reports a death at, if it is a death cue.
pub open spec fn death_of(cue: CombatCue) -> Option<(u64, WorldPos)> {
    match cue {
        CombatCue::UnitDeath { id, pos } => Some((id, pos)),
        _ => None,
    }
}

/// Every cue a position gives is among the cues of all positions.
proof fn lemma_cues_cover(n: int, cue_at: spec_fn(int) -> Option<CombatCue>, i: int)
    requires
        0 <= i < n,
        cue_at(i) is Some,
    ensures
        cues_upto(n, cue_at).contains(cue_at(i)->0),
    decreases n,
{
    let rest = cues_upto(n - 1, cue_at);
    if i < n - 1 {
        lemma_cues_cover(n - 1, cue_at, i);
        let k = choose|k: int| 0 <= k < rest.len() && rest[k] == cue_at(i)->0;
        assert(cues_upto(n, cue_at)[k] == rest[k]);
    } else {
        assert(cues_upto(n, cue_at)[rest.len() as int] == cue_at(i)->0);
    }
}

/// Each death cue names a remembered unit, at the position remembered for
/// it (the last entry with its id), that is gone from the snapshot where
/// the viewer sees; and every such unit gets a death cue.
pub proof fn lemma_death_cues_name_the_fallen(
    t: TrackerModel,
    s: SnapshotModel,
    viewer: Option<Team>,
    unit_revealed: Seq<bool>,
    building_revealed: Seq<bool>,
    castle_revealed: Seq<bool>,
    death_revealed: Seq<bool>,
)
    ensures
        ({
            let cues = detected(
                t,
                s,
                viewer,
                unit_revealed,
                building_revealed,
                castle_revealed,
                death_revealed,
            ).1;
            &&& forall|c: int|
                #![trigger cues[c]]
                0 <= c < cues.len() && death_of(cues[c]) is Some ==> exists|i: int|
                    #![trigger t.units[i]]
                    0 <= i < t.units.len() && t.units[i].id == (death_of(cues[c])->0).0
                        && t.units[i].pos == (death_of(cues[c])->0).1 && (forall|j: int|
                        i < j < t.units.len() ==> #[trigger] t.units[j].id != t.units[i].id)
                        && !unit_present(s.units, t.units[i].id) && (viewer is None
                        || death_revealed[i])
            &&& forall|i: int|
                #![trigger t.units[i]]
                0 <= i < t.units.len() && t.initialized && s.phase == MatchPhase::Playing && (
                forall|j: int| i < j < t.units.len() ==> #[trigger] t.units[j].id != t.units[i].id)
                    && !unit_present(s.units, t.units[i].id) && (viewer is None || death_revealed[i])
                    ==> cues.contains(CombatCue::UnitDeath { id: t.units[i].id, pos: t.units[i].pos })
        }),
{
    let cues = detected(t, s, viewer, unit_revealed, building_revealed, castle_revealed, death_revealed).1;
    if s.phase == MatchPhase::Playing && t.initialized {
        let f = death_at(t.units, s.units, viewer, death_revealed);
        let deaths = cues_upto(t.units.len() as int, f);
        let hits = cues_upto(s.units.len() as int, unit_hit_at(t.units, s, viewer, unit_revealed));
        let bhits = cues_upto(
            s.buildings.len() as int,
            building_hit_at(t.buildings, s, viewer, building_revealed),
        );
        let alarms = cues_upto(
            s.castles.len() as int,
            castle_hit_at(t.castle_health, s.castles, viewer, castle_revealed),
        );
        let rewards = rewarded(t.seen_bounty_events, s.bounty_events, viewer).1;
        lemma_cues_from(t.units.len() as int, f);
        lemma_cues_from(s.units.len() as int, unit_hit_at(t.units, s, viewer, unit_revealed));
        lemma_cues_from(
            s.buildings.len() as int,
            building_hit_at(t.buildings, s, viewer, building_revealed),
        );
        lemma_cues_from(
            s.castles.len() as int,
            castle_hit_at(t.castle_health, s.castles, viewer, castle_revealed),
        );
        match viewer {
            Some(team) => {
                let pruned = t.seen_bounty_events.filter(event_present(s.bounty_events));
                lemma_rewards_skip_seen(pruned, s.bounty_events, team, s.bounty_events.len() as int);
            },
            None => {},
        }
        let tail = hits + bhits + alarms + rewards;
        assert(cues =~= deaths + tail);
        assert forall|c: int|
            #![trigger cues[c]]
            0 <= c < cues.len() && death_of(cues[c]) is Some implies exists|i: int|
                #![trigger t.units[i]]
                0 <= i < t.units.len() && t.units[i].id == (death_of(cues[c])->0).0 && t.units[i].pos
                    == (death_of(cues[c])->0).1 && (forall|j: int|
                    i < j < t.units.len() ==> #[trigger] t.units[j].id != t.units[i].id)
                    && !unit_present(s.units, t.units[i].id) && (viewer is None || death_revealed[i]) by {
            if c < deaths.len() {
                assert(cues[c] == deaths[c]);
                let i = choose|i: int| #![trigger f(i)] 0 <= i < t.units.len() && f(i) == Some(deaths[c]);
                lemma_last_index_bounds(t.units, unit_entry_id(), t.units[i].id);
                assert(t.units[i] == t.units[i]);
            } else {
                let d = c - deaths.len();
                assert(cues[c] == tail[d]);
                let h = hits.len() as int;
                let b = bhits.len() as int;
                let a = alarms.len() as int;
                if d < h {
                    assert(tail[d] == hits[d]);
                } else if d < h + b {
                    assert(tail[d] == bhits[d - h]);
                } else if d < h + b + a {
                    assert(tail[d] == alarms[d - h - b]);
                } else {
                    assert(tail[d] == rewards[d - h - b - a]);
                }
                assert(false);
            }
        }
        assert forall|i: int|
            #![trigger t.units[i]]
            0 <= i < t.units.len() && t.initialized && s.phase == MatchPhase::Playing && (forall|j: int|
                i < j < t.units.len() ==> #[trigger] t.units[j].id != t.units[i].id) && !unit_present(
                s.units,
                t.units[i].id,
            ) && (viewer is None || death_revealed[i]) implies cues.contains(
            CombatCue::UnitDeath { id: t.units[i].id, pos: t.units[i].pos },
        ) by {
            let id = t.units[i].id;
            lemma_last_index_bounds(t.units, unit_entry_id(), id);
            let r = last_index_of(t.units, unit_entry_id(), id);
            if r != i {
                if r > i {
                    assert(t.units[r].id == id);
                } else {
                    assert(unit_entry_id()(t.units[i]) != id);
                }
            }
            lemma_cues_cover(t.units.len() as int, f, i);
            let k = choose|k: int| 0 <= k < deaths.len() && deaths[k] == f(i)->0;
            assert(cues[k] == deaths[k]);
        }
    }
}

/// What a cue other than a death tells, checked against the snapshot, the
/// tracker and the viewer: a hit names an entity of the snapshot in view,
/// remembered (last entry of its id) with more health, and the health it
/// lost; an alarm names a castle in view that had health above zero at the
/// first position of its side and lost some; a reward names a bounty event
/// of the viewer's side not seen before, with its side and amount.
pub open spec fn cue_told_truly(
    t: TrackerModel,
    s: SnapshotModel,
    viewer: Option<Team>,
    unit_revealed: Seq<bool>,
    building_revealed: Seq<bool>,
    castle_revealed: Seq<bool>,
    cue: CombatCue,
) -> bool {
    match cue {
        CombatCue::UnitDeath { .. } => true,
        CombatCue::UnitHit { index, id, damage, survived } => {
            let i = index as int;
            &&& i < s.units.len()
            &&& s.units[i].id == id
            &&& in_view(s.players, s.units[i].owner, viewer, unit_revealed[i])
            &&& survived == (s.units[i].health > 0)
            &&& exists|k: int|
                #![trigger t.units[k]]
                0 <= k < t.units.len() && t.units[k].id == id && (forall|j: int|
                    k < j < t.units.len() ==> #[trigger] t.units[j].id != id) && damage
                    == t.units[k].health - s.units[i].health && damage > 0
        },
        CombatCue::BuildingHit { index, id, damage } => {
            let i = index as int;
            &&& i < s.buildings.len()
            &&& s.buildings[i].id == id
            &&& in_view(s.players, s.buildings[i].owner, viewer, building_revealed[i])
            &&& exists|k: int|
                #![trigger t.buildings[k]]
                0 <= k < t.buildings.len() && t.buildings[k].id == id && (forall|j: int|
                    k < j < t.buildings.len() ==> #[trigger] t.buildings[j].id != id) && damage
                    == t.buildings[k].health - s.buildings[i].health && damage > 0
        },
        CombatCue::CastleHit { index, team, damage } => {
            let c = index as int;
            &&& c < s.castles.len()
            &&& s.castles[c].team == team
            &&& (viewer is None || viewer == Some(team) || castle_revealed[c])
            &&& exists|j: int|
                #![trigger s.castles[j]]
                0 <= j <= c && s.castles[j].team == team && (forall|k: int|
                    0 <= k < j ==> #[trigger] s.castles[k].team != team) && ({
                    let previous = if j < t.castle_health.len() {
                        t.castle_health[j] as int
                    } else {
                        s.castles[c].health as int
                    };
                    previous > 0 && damage == previous - s.castles[c].health && damage > 0
                })
        },
        CombatCue::Reward { index, id, team, amount } => {
            let i = index as int;
            &&& i < s.bounty_events.len()
            &&& s.bounty_events[i].id == id
            &&& s.bounty_events[i].team == team
            &&& s.bounty_events[i].amount == amount
            &&& viewer == Some(team)
            &&& !t.seen_bounty_events.contains(id)
        },
    }
}

proof fn lemma_part_told_truly(
    t: TrackerModel,
    s: SnapshotModel,
    viewer: Option<Team>,
    unit_revealed: Seq<bool>,
    building_revealed: Seq<bool>,
    castle_revealed: Seq<bool>,
    n: int,
    cue_at: spec_fn(int) -> Option<CombatCue>,
)
    requires
        forall|i: int|
            #![trigger cue_at(i)]
            0 <= i < n && cue_at(i) is Some ==> cue_told_truly(
                t,
                s,
                viewer,
                unit_revealed,
                building_revealed,
                castle_revealed,
                cue_at(i)->0,
            ),
    ensures
        forall|c: int|
            #![trigger cues_upto(n, cue_at)[c]]
            0 <= c < cues_upto(n, cue_at).len() ==> cue_told_truly(
                t,
                s,
                viewer,
                unit_revealed,
                building_revealed,
                castle_revealed,
                cues_upto(n, cue_at)[c],
            ),
{
    lemma_cues_from(n, cue_at);
    assert forall|c: int|
        #![trigger cues_upto(n, cue_at)[c]]
        0 <= c < cues_upto(n, cue_at).len() implies cue_told_truly(
        t,
        s,
        viewer,
        unit_revealed,
        building_revealed,
        castle_revealed,
        cues_upto(n, cue_at)[c],
    ) by {
        let i = choose|i: int| #![trigger cue_at(i)] 0 <= i < n && cue_at(i) == Some(cues_upto(n, cue_at)[c]);
    }
}

/// Every cue the client is given tells the truth about the snapshot, the
/// tracker and the viewer (see [`cue_told_truly`]).
pub proof fn lemma_cues_tell_truly(
    t: TrackerModel,
    s: SnapshotModel,
    viewer: Option<Team>,
    unit_revealed: Seq<bool>,
    building_revealed: Seq<bool>,
    castle_revealed: Seq<bool>,
    death_revealed: Seq<bool>,
)
    requires
        unit_revealed.len() == s.units.len(),
        building_revealed.len() == s.buildings.len(),
        castle_revealed.len() == s.castles.len(),
        s.units.len() <= usize::MAX,
        s.buildings.len() <= usize::MAX,
        s.castles.len() <= usize::MAX,
        s.bounty_events.len() <= usize::MAX,
    ensures
        ({
            let cues = detected(
                t,
                s,
                viewer,
                unit_revealed,
                building_revealed,
                castle_revealed,
                death_revealed,
            ).1;
            forall|c: int|
                #![trigger cues[c]]
                0 <= c < cues.len() ==> cue_told_truly(
                    t,
                    s,
                    viewer,
                    unit_revealed,
                    building_revealed,
                    castle_revealed,
                    cues[c],
                )
        }),
{
    let cues = detected(t, s, viewer, unit_revealed, building_revealed, castle_revealed, death_revealed).1;
    if s.phase == MatchPhase::Playing && t.initialized {
        let fd = death_at(t.units, s.units, viewer, death_revealed);
        let fu = unit_hit_at(t.units, s, viewer, unit_revealed);
        let fb = building_hit_at(t.buildings, s, viewer, building_revealed);
        let fc = castle_hit_at(t.castle_health, s.castles, viewer, castle_revealed);
        let deaths = cues_upto(t.units.len() as int, fd);
        let hits = cues_upto(s.units.len() as int, fu);
        let bhits = cues_upto(s.buildings.len() as int, fb);
        let alarms = cues_upto(s.castles.len() as int, fc);
        let rewards = rewarded(t.seen_bounty_events, s.bounty_events, viewer).1;
        lemma_part_told_truly(t, s, viewer, unit_revealed, building_revealed, castle_revealed, t.units.len() as int, fd);
        lemma_unit_hits_true(t, s, viewer, unit_revealed, building_revealed, castle_revealed);
        lemma_building_hits_true(t, s, viewer, unit_revealed, building_revealed, castle_revealed);
        lemma_castle_hits_true(t, s, viewer, unit_revealed, building_revealed, castle_revealed);
        if viewer is Some {
            let team = viewer->0;
            let pruned = t.seen_bounty_events.filter(event_present(s.bounty_events));
            lemma_rewards_told_truly(t, s, team, unit_revealed, building_revealed, castle_revealed, pruned, s.bounty_events.len() as int);
        }
        let tail = hits + bhits + alarms + rewards;
        assert(cues =~= deaths + tail);
        assert forall|c: int| #![trigger cues[c]] 0 <= c < cues.len() implies cue_told_truly(
            t,
            s,
            viewer,
            unit_revealed,
            building_revealed,
            castle_revealed,
            cues[c],
        ) by {
            if c < deaths.len() {
                assert(cues[c] == deaths[c]);
            } else {
                let d = c - deaths.len();
                assert(cues[c] == tail[d]);
                let h = hits.len() as int;
                let b = bhits.len() as int;
                let a = alarms.len() as int;
                if d < h {
                    assert(tail[d] == hits[d]);
                } else if d < h + b {
                    assert(tail[d] == bhits[d - h]);
                } else if d < h + b + a {
                    assert(tail[d] == alarms[d - h - b]);
                } else {
                    assert(tail[d] == rewards[d - h - b - a]);
                }
            }
        }
    }
}

/// A castle's team has a first castle position, at or before it.
proof fn lemma_first_castle_exists(castles: Seq<Castle>, c: int)
    requires
        0 <= c < castles.len(),
    ensures
        exists|j: int| is_first_castle_of(castles, castles[c].team, j),
    decreases c,
{
    let team = castles[c].team;
    if exists|k: int| 0 <= k < c && #[trigger] castles[k].team == team {
        let k = choose|k: int| 0 <= k < c && #[trigger] castles[k].team == team;
        lemma_first_castle_exists(castles, k);
    } else {
        assert(is_first_castle_of(castles, team, c));
    }
}

/// The rewards of the first `n` bounty events name events of `team` whose
/// ids were not among `seen`, with their side and amount; `seen` holds only
/// ids the tracker had seen.
proof fn lemma_rewards_told_truly(
    t: TrackerModel,
    s: SnapshotModel,
    team: Team,
    unit_revealed: Seq<bool>,
    building_revealed: Seq<bool>,
    castle_revealed: Seq<bool>,
    seen: Seq<u64>,
    n: int,
)
    requires
        0 <= n <= s.bounty_events.len(),
        seen == t.seen_bounty_events.filter(event_present(s.bounty_events)),
        s.bounty_events.len() <= usize::MAX,
    ensures
        forall|c: int|
            #![trigger rewards_upto(seen, s.bounty_events, team, n).1[c]]
            0 <= c < rewards_upto(seen, s.bounty_events, team, n).1.len() ==> cue_told_truly(
                t,
                s,
                Some(team),
                unit_revealed,
                building_revealed,
                castle_revealed,
                rewards_upto(seen, s.bounty_events, team, n).1[c],
            ),
    decreases n,
{
    if n > 0 {
        lemma_rewards_told_truly(t, s, team, unit_revealed, building_revealed, castle_revealed, seen, n - 1);
        let (sn, cues) = rewards_upto(seen, s.bounty_events, team, n - 1);
        let out = rewards_upto(seen, s.bounty_events, team, n);
        let e = s.bounty_events[n - 1];
        lemma_rewards_skip_seen(seen, s.bounty_events, team, n - 1);
        assert forall|c: int|
            #![trigger out.1[c]]
            0 <= c < out.1.len() implies cue_told_truly(
            t,
            s,
            Some(team),
            unit_revealed,
            building_revealed,
            castle_revealed,
            out.1[c],
        ) by {
            if c < cues.len() {
                assert(out.1[c] == cues[c]);
            } else {
                // A new reward: its id is not among the kept seen ids, and it
                // is an event of the snapshot, so the tracker had not seen it.
                if t.seen_bounty_events.contains(e.id) {
                    let j = choose|j: int| 0 <= j < t.seen_bounty_events.len() && t.seen_bounty_events[j] == e.id;
                    assert(event_present(s.bounty_events)(e.id)) by {
                        assert(s.bounty_events[n - 1].id == e.id);
                    }
                    t.seen_bounty_events.lemma_filter_contains(event_present(s.bounty_events), j);
                    assert(seen.contains(e.id));
                    assert(rewards_upto(seen, s.bounty_events, team, n - 1).0.contains(e.id));
                }
            }
        }
    }
}

proof fn lemma_unit_hits_true(
    t: TrackerModel,
    s: SnapshotModel,
    viewer: Option<Team>,
    unit_revealed: Seq<bool>,
    building_revealed: Seq<bool>,
    castle_revealed: Seq<bool>,
)
    requires
        s.units.len() <= usize::MAX,
    ensures
        ({
            let cues = cues_upto(s.units.len() as int, unit_hit_at(t.units, s, viewer, unit_revealed));
            forall|c: int|
                #![trigger cues[c]]
                0 <= c < cues.len() ==> cue_told_truly(t, s, viewer, unit_revealed, building_revealed, castle_revealed, cues[c])
        }),
{
    let fu = unit_hit_at(t.units, s, viewer, unit_revealed);
    assert forall|i: int| #![trigger fu(i)] 0 <= i < s.units.len() && fu(i) is Some implies cue_told_truly(
        t,
        s,
        viewer,
        unit_revealed,
        building_revealed,
        castle_revealed,
        fu(i)->0,
    ) by {
        let u = s.units[i];
        lemma_last_index_bounds(t.units, unit_entry_id(), u.id);
        let k = last_index_of(t.units, unit_entry_id(), u.id);
        assert(t.units[k] == t.units[k]);
    }
    lemma_part_told_truly(t, s, viewer, unit_revealed, building_revealed, castle_revealed, s.units.len() as int, fu);
}

proof fn lemma_building_hits_true(
    t: TrackerModel,
    s: SnapshotModel,
    viewer: Option<Team>,
    unit_revealed: Seq<bool>,
    building_revealed: Seq<bool>,
    castle_revealed: Seq<bool>,
)
    requires
        s.buildings.len() <= usize::MAX,
    ensures
        ({
            let cues = cues_upto(s.buildings.len() as int, building_hit_at(t.buildings, s, viewer, building_revealed));
            forall|c: int|
                #![trigger cues[c]]
                0 <= c < cues.len() ==> cue_told_truly(t, s, viewer, unit_revealed, building_revealed, castle_revealed, cues[c])
        }),
{
    let fb = building_hit_at(t.buildings, s, viewer, building_revealed);
    assert forall|i: int| #![trigger fb(i)] 0 <= i < s.buildings.len() && fb(i) is Some implies cue_told_truly(
        t,
        s,
        viewer,
        unit_revealed,
        building_revealed,
        castle_revealed,
        fb(i)->0,
    ) by {
        let b = s.buildings[i];
        lemma_last_index_bounds(t.buildings, building_entry_id(), b.id);
        let k = last_index_of(t.buildings, building_entry_id(), b.id);
        assert(t.buildings[k] == t.buildings[k]);
    }
    lemma_part_told_truly(t, s, viewer, unit_revealed, building_revealed, castle_revealed, s.buildings.len() as int, fb);
}

proof fn lemma_castle_hits_true(
    t: TrackerModel,
    s: SnapshotModel,
    viewer: Option<Team>,
    unit_revealed: Seq<bool>,
    building_revealed: Seq<bool>,
    castle_revealed: Seq<bool>,
)
    requires
        s.castles.len() <= usize::MAX,
    ensures
        ({
            let cues = cues_upto(s.castles.len() as int, castle_hit_at(t.castle_health, s.castles, viewer, castle_revealed));
            forall|c: int|
                #![trigger cues[c]]
                0 <= c < cues.len() ==> cue_told_truly(t, s, viewer, unit_revealed, building_revealed, castle_revealed, cues[c])
        }),
{
    let fc = castle_hit_at(t.castle_health, s.castles, viewer, castle_revealed);
    assert forall|c: int| #![trigger fc(c)] 0 <= c < s.castles.len() && fc(c) is Some implies cue_told_truly(
        t,
        s,
        viewer,
        unit_revealed,
        building_revealed,
        castle_revealed,
        fc(c)->0,
    ) by {
        let team = s.castles[c].team;
        lemma_first_castle_exists(s.castles, c);
        let j = first_castle_of(s.castles, team);
        assert(is_first_castle_of(s.castles, team, j));
        if j > c {
            assert(s.castles[c].team != team);
        }
        assert(s.castles[j] == s.castles[j]);
    }
    lemma_part_told_truly(t, s, viewer, unit_revealed, building_revealed, castle_revealed, s.castles.len() as int, fc);
}
} // verus!
