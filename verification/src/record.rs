//! Match recording.
//!
//! The server records every match: a header (seed, players), the log of
//! applied intents with their sim ticks, the kill feed, a once-per-second
//! state timeline and the result. The simulation is deterministic per seed, so
//! a recording is both a replay file and a telemetry source.
//!
//! The recorder is observed after every simulation step. It starts a record
//! when the match starts playing, and finalizes it when the match leaves play;
//! a finalized record can then be taken for writing.
use std::collections::HashSet;
use vstd::prelude::*;

use crate::model::{
    BountyEvent, BuildZone, BuildingKind, Castle, Economy, GridCell, Lane, MatchPhase, PlayerInfo,
    RaceKind, Scalar, Team, UnitKind,
};

verus! {

broadcast use vstd::std_specs::hash::group_hash_axioms;

#[derive(Debug, PartialEq, Eq)]
pub struct RecordedPlayer {
    pub name: String,
    pub team: Team,
    pub race: Option<RaceKind>,
}

/// A player intent, as applied by the server.
#[derive(Clone, Copy, Debug, PartialEq, Eq, Structural)]
pub enum RecordedIntent {
    SetRace { race: RaceKind },
    SetReady { ready: bool },
    PlaceBuilding { kind: BuildingKind, lane: Lane, zone: BuildZone, cell: GridCell },
    SellBuilding { building_id: u64 },
    Surrender,
    VoteRematch,
}

#[derive(Clone, Copy, Debug, PartialEq)]
pub struct RecordedCommand {
    /// Sim tick at which the server applied the intent.
    pub tick: u64,
    pub elapsed_secs: Scalar,
    pub player: u8,
    pub intent: RecordedIntent,
}

#[derive(Clone, Copy, Debug, PartialEq)]
pub struct RecordedKill {
    pub elapsed_secs: Scalar,
    pub team: Team,
    pub kind: UnitKind,
}

/// One point of the state timeline; each pair is (left side, right side).
#[derive(Clone, Copy, Debug)]
pub struct TimelineSample {
    pub elapsed_secs: Scalar,
    pub castle_health: (i32, i32),
    pub gold: (i32, i32),
    pub income: (i32, i32),
    pub unit_count: (usize, usize),
    pub army_health: (i32, i32),
}

#[derive(Debug)]
pub struct MatchRecord {
    pub game_id: u32,
    pub seed: u64,
    pub started_unix: u64,
    pub duration_secs: Scalar,
    pub winner: Option<Team>,
    pub players: Vec<RecordedPlayer>,
    pub commands: Vec<RecordedCommand>,
    pub kills: Vec<RecordedKill>,
    pub timeline: Vec<TimelineSample>,
}

/// The mathematical content of a [`MatchRecord`].
pub struct RecordModel {
    pub game_id: u32,
    pub seed: u64,
    pub started_unix: u64,
    pub duration_secs: Scalar,
    pub winner: Option<Team>,
    pub players: Seq<RecordedPlayer>,
    pub commands: Seq<RecordedCommand>,
    pub kills: Seq<RecordedKill>,
    pub timeline: Seq<TimelineSample>,
}

impl View for MatchRecord {
    type V = RecordModel;

    open spec fn view(&self) -> RecordModel {
        RecordModel {
            game_id: self.game_id,
            seed: self.seed,
            started_unix: self.started_unix,
            duration_secs: self.duration_secs,
            winner: self.winner,
            players: self.players@,
            commands: self.commands@,
            kills: self.kills@,
            timeline: self.timeline@,
        }
    }
}

pub open spec fn record_view(r: Option<MatchRecord>) -> Option<RecordModel> {
    match r {
        Some(record) => Some(record@),
        None => None,
    }
}

/// A unit, as far as the timeline counts it.
#[derive(Clone, Copy, Debug, PartialEq, Eq, Structural)]
pub struct UnitTally {
    /// The owner's side slot: 0 for the left side, 1 for the right.
    pub slot: usize,
    pub health: i32,
}

/// What the recorder reads of the simulation at one step.
pub struct SimView {
    pub phase: MatchPhase,
    pub tick: u64,
    pub elapsed_secs: Scalar,
    /// Whole seconds elapsed: `elapsed_secs` rounded down, 0 when negative.
    pub elapsed_whole_secs: u64,
    pub seed: u64,
    pub players: Vec<PlayerInfo>,
    pub winner: Option<Team>,
    pub bounty_events: Vec<BountyEvent>,
    pub units: Vec<UnitTally>,
    pub castles: Vec<Castle>,
    pub economies: Vec<Economy>,
}

/// Per-room recorder state.
pub struct MatchRecorder {
    game_id: u32,
    record: Option<MatchRecord>,
    seen_bounty: HashSet<u64>,
    /// The whole second at which the next timeline sample is due.
    next_sample: u64,
    finished: bool,
}

/// The mathematical content of a [`MatchRecorder`].
pub struct RecorderModel {
    pub game_id: u32,
    pub record: Option<RecordModel>,
    /// Ids of the bounty events already turned into kills.
    pub seen_bounty: Set<u64>,
    pub next_sample: u64,
    pub finished: bool,
}

impl View for MatchRecorder {
    type V = RecorderModel;

    closed spec fn view(&self) -> RecorderModel {
        RecorderModel {
            game_id: self.game_id,
            record: record_view(self.record),
            seen_bounty: self.seen_bounty@,
            next_sample: self.next_sample,
            finished: self.finished,
        }
    }
}

/// Sum of the non-negative health of the first `n` units in `slot`.
pub open spec fn army_total(units: Seq<UnitTally>, slot: usize, n: int) -> int
    decreases n,
{
    if n <= 0 {
        0
    } else {
        army_total(units, slot, n - 1) + if units[n - 1].slot == slot {
            if units[n - 1].health > 0 {
                units[n - 1].health as int
            } else {
                0
            }
        } else {
            0
        }
    }
}

/// Number of the first `n` units in `slot`.
pub open spec fn unit_total(units: Seq<UnitTally>, slot: usize, n: int) -> int
    decreases n,
{
    if n <= 0 {
        0
    } else {
        unit_total(units, slot, n - 1) + if units[n - 1].slot == slot {
            1int
        } else {
            0int
        }
    }
}

/// A timeline sample can be taken of `sim`: both sides have a castle and an
/// economy, every unit is on a side, and each side's army health fits.
pub open spec fn samplable(sim: SimView) -> bool {
    &&& sim.castles@.len() >= 2
    &&& sim.economies@.len() >= 2
    &&& forall|i: int| 0 <= i < sim.units@.len() ==> #[trigger] sim.units@[i].slot < 2
    &&& army_total(sim.units@, 0, sim.units@.len() as int) <= i32::MAX
    &&& army_total(sim.units@, 1, sim.units@.len() as int) <= i32::MAX
}

pub open spec fn sample_of(sim: SimView) -> TimelineSample {
    let n = sim.units@.len() as int;
    TimelineSample {
        elapsed_secs: sim.elapsed_secs,
        castle_health: (sim.castles@[0].health, sim.castles@[1].health),
        gold: (sim.economies@[0].gold, sim.economies@[1].gold),
        income: (sim.economies@[0].income, sim.economies@[1].income),
        unit_count: (unit_total(sim.units@, 0, n) as usize, unit_total(sim.units@, 1, n) as usize),
        army_health: (army_total(sim.units@, 0, n) as i32, army_total(sim.units@, 1, n) as i32),
    }
}

pub open spec fn recorded_player_of(p: PlayerInfo) -> RecordedPlayer {
    RecordedPlayer { name: p.name, team: p.team, race: p.race }
}

pub open spec fn recorded_players_of() -> spec_fn(PlayerInfo) -> RecordedPlayer {
    |p: PlayerInfo| recorded_player_of(p)
}

/// A fresh record for the match `sim` describes, started at `now_unix`.
pub open spec fn started(r: RecorderModel, sim: SimView, now_unix: u64) -> RecorderModel {
    RecorderModel {
        next_sample: 1,
        finished: false,
        record: Some(
            RecordModel {
                game_id: r.game_id,
                seed: sim.seed,
                started_unix: now_unix,
                duration_secs: Scalar { bits: 0 },
                winner: None,
                players: sim.players@.map_values(recorded_players_of()),
                commands: Seq::empty(),
                kills: Seq::empty(),
                timeline: Seq::empty(),
            },
        ),
        ..r
    }
}

/// The record closed with the match's result and a final sample.
pub open spec fn finalized(r: RecorderModel, sim: SimView) -> RecorderModel {
    match r.record {
        None => r,
        Some(rec) => RecorderModel {
            record: Some(
                RecordModel {
                    duration_secs: sim.elapsed_secs,
                    winner: sim.winner,
                    timeline: rec.timeline.push(sample_of(sim)),
                    ..rec
                },
            ),
            finished: true,
            ..r
        },
    }
}

/// Turns the bounty events not seen before into kills, in order.
pub open spec fn noted_kills(
    seen: Set<u64>,
    kills: Seq<RecordedKill>,
    events: Seq<BountyEvent>,
    at: Scalar,
) -> (Set<u64>, Seq<RecordedKill>)
    decreases events.len(),
{
    if events.len() == 0 {
        (seen, kills)
    } else {
        let (s, k) = noted_kills(seen, kills, events.drop_last(), at);
        let e = events.last();
        if s.contains(e.id) {
            (s, k)
        } else {
            (s.insert(e.id), k.push(RecordedKill { elapsed_secs: at, team: e.team, kind: e.unit_kind }))
        }
    }
}

/// The recorder during play, once a record exists: kills noted, and a
/// timeline sample taken when the next whole second is reached.
pub open spec fn played(r: RecorderModel, sim: SimView) -> RecorderModel {
    let rec = r.record.unwrap();
    let noted = noted_kills(r.seen_bounty, rec.kills, sim.bounty_events@, sim.elapsed_secs);
    let rec1 = RecordModel { kills: noted.1, ..rec };
    if sim.elapsed_whole_secs >= r.next_sample {
        RecorderModel {
            seen_bounty: noted.0,
            record: Some(RecordModel { timeline: rec1.timeline.push(sample_of(sim)), ..rec1 }),
            next_sample: if r.next_sample < u64::MAX {
                (r.next_sample + 1) as u64
            } else {
                r.next_sample
            },
            ..r
        }
    } else {
        RecorderModel { seen_bounty: noted.0, record: Some(rec1), ..r }
    }
}

/// The recorder after observing `sim`.
pub open spec fn observed(r: RecorderModel, sim: SimView, now_unix: u64) -> RecorderModel {
    match sim.phase {
        MatchPhase::Lobby => if !r.finished {
            finalized(r, sim)
        } else {
            r
        },
        MatchPhase::Playing => played(
            if r.record is None {
                started(r, sim, now_unix)
            } else {
                r
            },
            sim,
        ),
        MatchPhase::GameOver => if !r.finished {
            finalized(r, sim)
        } else {
            r
        },
    }
}

/// Observing `sim` takes a timeline sample.
pub open spec fn observation_samples(r: RecorderModel, sim: SimView) -> bool {
    match sim.phase {
        MatchPhase::Lobby => !r.finished && r.record is Some,
        MatchPhase::Playing => sim.elapsed_whole_secs >= (if r.record is None {
            1
        } else {
            r.next_sample
        }),
        MatchPhase::GameOver => !r.finished && r.record is Some,
    }
}

impl Clone for RecordedPlayer {
    fn clone(&self) -> (res: Self)
        ensures
            res == *self,
    {
        RecordedPlayer { name: self.name.clone(), team: self.team, race: self.race }
    }
}

proof fn lemma_totals_grow(units: Seq<UnitTally>, slot: usize, m: int, n: int)
    requires
        0 <= m <= n,
    ensures
        army_total(units, slot, m) <= army_total(units, slot, n),
        unit_total(units, slot, m) <= unit_total(units, slot, n),
        0 <= army_total(units, slot, m),
        0 <= unit_total(units, slot, m) <= m,
    decreases n,
{
    if m < n {
        lemma_totals_grow(units, slot, m, n - 1);
    } else if n > 0 {
        lemma_totals_grow(units, slot, m - 1, n - 1);
    }
}

/// A timeline sample of `sim`.
fn sample(sim: &SimView) -> (s: TimelineSample)
    requires
        samplable(*sim),
    ensures
        s == sample_of(*sim),
{
    let mut count_left: usize = 0;
    let mut count_right: usize = 0;
    let mut army_left: i32 = 0;
    let mut army_right: i32 = 0;
    let n = sim.units.len();
    let mut i: usize = 0;
    while i < n
        invariant
            i <= n,
            n == sim.units@.len(),
            samplable(*sim),
            count_left as int == unit_total(sim.units@, 0, i as int),
            count_right as int == unit_total(sim.units@, 1, i as int),
            army_left as int == army_total(sim.units@, 0, i as int),
            army_right as int == army_total(sim.units@, 1, i as int),
        decreases n - i,
    {
        let unit = sim.units[i];
        proof {
            lemma_totals_grow(sim.units@, 0, i + 1, n as int);
            lemma_totals_grow(sim.units@, 1, i + 1, n as int);
            lemma_totals_grow(sim.units@, 0, i as int, i as int);
            lemma_totals_grow(sim.units@, 1, i as int, i as int);
            assert(unit.slot < 2);
        }
        let health = if unit.health > 0 {
            unit.health
        } else {
            0
        };
        if unit.slot == 0 {
            count_left = count_left + 1;
            army_left = army_left + health;
        } else {
            count_right = count_right + 1;
            army_right = army_right + health;
        }
        i = i + 1;
    }
    TimelineSample {
        elapsed_secs: sim.elapsed_secs,
        castle_health: (sim.castles[0].health, sim.castles[1].health),
        gold: (sim.economies[0].gold, sim.economies[1].gold),
        income: (sim.economies[0].income, sim.economies[1].income),
        unit_count: (count_left, count_right),
        army_health: (army_left, army_right),
    }
}

impl MatchRecorder {
    pub fn new(game_id: u32) -> (recorder: Self)
        ensures
            recorder@ == (RecorderModel {
                game_id,
                record: None,
                seen_bounty: Set::empty(),
                next_sample: 0,
                finished: false,
            }),
    {
        let recorder = MatchRecorder {
            game_id,
            record: None,
            seen_bounty: HashSet::new(),
            next_sample: 0,
            finished: false,
        };
        assert(recorder@ =~= RecorderModel {
            game_id,
            record: None,
            seen_bounty: Set::empty(),
            next_sample: 0,
            finished: false,
        });
        recorder
    }

    /// A match is being recorded, or a finished record awaits being taken.
    pub fn is_active(&self) -> (active: bool)
        ensures
            active == self@.record is Some,
    {
        self.record.is_some()
    }

    /// Logs an intent applied at the sim's current tick; ignored when no
    /// match is being recorded.
    pub fn record_command(&mut self, sim: &SimView, player: u8, intent: RecordedIntent)
        ensures
            final(self)@ == (match old(self)@.record {
                None => old(self)@,
                Some(rec) => RecorderModel {
                    record: Some(
                        RecordModel {
                            commands: rec.commands.push(
                                RecordedCommand {
                                    tick: sim.tick,
                                    elapsed_secs: sim.elapsed_secs,
                                    player,
                                    intent,
                                },
                            ),
                            ..rec
                        },
                    ),
                    ..old(self)@
                },
            }),
    {
        let ghost before = self@;
        match self.record.take() {
            None => {},
            Some(mut record) => {
                record.commands.push(
                    RecordedCommand { tick: sim.tick, elapsed_secs: sim.elapsed_secs, player, intent },
                );
                self.record = Some(record);
            },
        }
        proof {
            if before.record is Some {
                assert(self@.record->0 =~= RecordModel {
                    commands: before.record->0.commands.push(
                        RecordedCommand {
                            tick: sim.tick,
                            elapsed_secs: sim.elapsed_secs,
                            player,
                            intent,
                        },
                    ),
                    ..before.record->0
                });
            }
        }
    }

    fn start(&mut self, sim: &SimView, now_unix: u64)
        ensures
            final(self)@ == started(old(self)@, *sim, now_unix),
    {
        let mut players: Vec<RecordedPlayer> = Vec::new();
        let mut i: usize = 0;
        while i < sim.players.len()
            invariant
                i <= sim.players@.len(),
                players@ == sim.players@.take(i as int).map_values(recorded_players_of()),
            decreases sim.players.len() - i,
        {
            let player = &sim.players[i];
            players.push(
                RecordedPlayer { name: player.name.clone(), team: player.team, race: player.race },
            );
            proof {
                assert(sim.players@.take(i + 1).map_values(recorded_players_of()) =~= sim.players@.take(
                    i as int,
                ).map_values(recorded_players_of()).push(recorded_player_of(sim.players@[i as int])));
            }
            i = i + 1;
        }
        proof {
            assert(sim.players@.take(sim.players@.len() as int) =~= sim.players@);
        }
        self.next_sample = 1;
        self.finished = false;
        self.record = Some(
            MatchRecord {
                game_id: self.game_id,
                seed: sim.seed,
                started_unix: now_unix,
                duration_secs: Scalar { bits: 0 },
                winner: None,
                players,
                commands: Vec::new(),
                kills: Vec::new(),
                timeline: Vec::new(),
            },
        );
        assert(self@.record->0 =~= started(old(self)@, *sim, now_unix).record->0);
    }

    fn finalize(&mut self, sim: &SimView)
        requires
            old(self)@.record is Some ==> samplable(*sim),
        ensures
            final(self)@ == finalized(old(self)@, *sim),
    {
        let ghost before = self@;
        match self.record.take() {
            None => {},
            Some(mut record) => {
                record.duration_secs = sim.elapsed_secs;
                record.winner = sim.winner;
                record.timeline.push(sample(sim));
                self.record = Some(record);
                self.finished = true;
                assert(self@.record->0 =~= finalized(before, *sim).record->0);
            },
        }
    }

    /// Turns the sim's bounty events not seen before into kills.
    fn note_kills(&mut self, sim: &SimView)
        requires
            old(self)@.record is Some,
        ensures
            ({
                let noted = noted_kills(
                    old(self)@.seen_bounty,
                    old(self)@.record->0.kills,
                    sim.bounty_events@,
                    sim.elapsed_secs,
                );
                final(self)@ == RecorderModel {
                    seen_bounty: noted.0,
                    record: Some(RecordModel { kills: noted.1, ..old(self)@.record->0 }),
                    ..old(self)@
                }
            }),
    {
        let ghost before = self@;
        let ghost rec0 = before.record->0;
        let mut record = match self.record.take() {
            Some(record) => record,
            None => {
                return;
            },
        };
        let mut i: usize = 0;
        while i < sim.bounty_events.len()
            invariant
                i <= sim.bounty_events@.len(),
                record@ == (RecordModel { kills: record@.kills, ..rec0 }),
                (self.seen_bounty@, record.kills@) == noted_kills(
                    before.seen_bounty,
                    rec0.kills,
                    sim.bounty_events@.take(i as int),
                    sim.elapsed_secs,
                ),
                self.game_id == before.game_id,
                self.next_sample == before.next_sample,
                self.finished == before.finished,
            decreases sim.bounty_events.len() - i,
        {
            let event = sim.bounty_events[i];
            proof {
                assert(sim.bounty_events@.take(i + 1).drop_last() =~= sim.bounty_events@.take(
                    i as int,
                ));
            }
            if self.seen_bounty.insert(event.id) {
                record.kills.push(
                    RecordedKill {
                        elapsed_secs: sim.elapsed_secs,
                        team: event.team,
                        kind: event.unit_kind,
                    },
                );
            }
            i = i + 1;
        }
        proof {
            assert(sim.bounty_events@.take(sim.bounty_events@.len() as int) =~= sim.bounty_events@);
        }
        self.record = Some(record);
    }

    /// Observes the sim: starts recording on match start, notes the kill feed
    /// and samples the timeline once per second during play, and finalizes
    /// the record once, when the match leaves play; a finished record is left
    /// as it is until it is taken. `now_unix` is the wall clock,
    /// in seconds, stamped on a record that starts.
    pub fn observe(&mut self, sim: &SimView, now_unix: u64)
        requires
            observation_samples(old(self)@, *sim) ==> samplable(*sim),
        ensures
            final(self)@ == observed(old(self)@, *sim, now_unix),
    {
        match sim.phase {
            MatchPhase::Lobby => {
                if !self.finished {
                    self.finalize(sim);
                }
            },
            MatchPhase::Playing => {
                if self.record.is_none() {
                    self.start(sim, now_unix);
                }
                self.note_kills(sim);
                if sim.elapsed_whole_secs >= self.next_sample {
                    self.next_sample = self.next_sample.saturating_add(1);
                    let ghost before = self@;
                    match self.record.take() {
                        Some(mut record) => {
                            record.timeline.push(sample(sim));
                            self.record = Some(record);
                            assert(self@.record->0 =~= RecordModel {
                                timeline: before.record->0.timeline.push(sample_of(*sim)),
                                ..before.record->0
                            });
                        },
                        None => {},
                    }
                }
            },
            MatchPhase::GameOver => {
                if !self.finished {
                    self.finalize(sim);
                }
            },
        }
    }

    /// Takes the finished record for writing; `None` while a match is still
    /// being recorded, or once the record was taken.
    pub fn take_finished(&mut self) -> (taken: Option<MatchRecord>)
        ensures
            old(self)@.finished ==> record_view(taken) == old(self)@.record && final(self)@ == (
            RecorderModel { record: None, ..old(self)@ }),
            !old(self)@.finished ==> taken is None && final(self)@ == old(self)@,
    {
        if !self.finished {
            return None;
        }
        self.record.take()
    }
}

/// Observing a playing match while nothing is recorded starts a record of
/// that match: this room's game id, the sim's seed and players, the start
/// time, no commands or kills yet; the next sample is due at one second.
pub proof fn lemma_recording_starts_with_play(r: RecorderModel, sim: SimView, now_unix: u64)
    requires
        r.record is None,
        sim.phase == MatchPhase::Playing,
    ensures
        ({
            let after = observed(r, sim, now_unix);
            &&& after.record is Some
            &&& after.record->0.game_id == r.game_id
            &&& after.record->0.seed == sim.seed
            &&& after.record->0.started_unix == now_unix
            &&& after.record->0.players == sim.players@.map_values(recorded_players_of())
            &&& after.record->0.commands.len() == 0
            &&& !after.finished
        }),
{
}

/// Observing a match that left play finalizes an open record with the
/// match's winner and duration and a final sample, after which the record
/// can be taken; with nothing recorded, observing the lobby changes nothing.
pub proof fn lemma_leaving_play_finalizes(r: RecorderModel, sim: SimView, now_unix: u64)
    requires
        sim.phase != MatchPhase::Playing,
        !r.finished,
    ensures
        ({
            let after = observed(r, sim, now_unix);
            &&& r.record is Some ==> {
                &&& after.finished
                &&& after.record is Some
                &&& after.record->0.winner == sim.winner
                &&& after.record->0.duration_secs == sim.elapsed_secs
                &&& after.record->0.timeline == r.record->0.timeline.push(sample_of(sim))
                &&& after.record->0.commands == r.record->0.commands
                &&& after.record->0.kills == r.record->0.kills
            }
            &&& r.record is None ==> after == r
        }),
{
}

/// A bounty event whose id was already seen never adds a kill.
pub proof fn lemma_seen_bounties_add_no_kill(
    seen: Set<u64>,
    kills: Seq<RecordedKill>,
    events: Seq<BountyEvent>,
    at: Scalar,
)
    requires
        forall|i: int| 0 <= i < events.len() ==> seen.contains(#[trigger] events[i].id),
    ensures
        noted_kills(seen, kills, events, at) == (seen, kills),
    decreases events.len(),
{
    if events.len() > 0 {
        assert forall|i: int| 0 <= i < events.drop_last().len() implies seen.contains(
            #[trigger] events.drop_last()[i].id,
        ) by {
            assert(events.drop_last()[i] == events[i]);
        }
        lemma_seen_bounties_add_no_kill(seen, kills, events.drop_last(), at);
        assert(seen.contains(events[events.len() - 1].id));
    }
}

/// Every bounty event that was not seen before is seen afterwards, and the
/// kill feed only grows, by at most one kill per event.
pub proof fn lemma_kills_cover_events(
    seen: Set<u64>,
    kills: Seq<RecordedKill>,
    events: Seq<BountyEvent>,
    at: Scalar,
)
    ensures
        forall|i: int|
            0 <= i < events.len() ==> noted_kills(seen, kills, events, at).0.contains(
                #[trigger] events[i].id,
            ),
        kills.len() <= noted_kills(seen, kills, events, at).1.len() <= kills.len() + events.len(),
        noted_kills(seen, kills, events, at).1.subrange(0, kills.len() as int) == kills,
    decreases events.len(),
{
    if events.len() > 0 {
        let d = events.drop_last();
        lemma_kills_cover_events(seen, kills, d, at);
        let prev = noted_kills(seen, kills, d, at);
        let now = noted_kills(seen, kills, events, at);
        assert forall|i: int| 0 <= i < events.len() implies now.0.contains(
            #[trigger] events[i].id,
        ) by {
            if i < events.len() - 1 {
                assert(d[i] == events[i]);
                assert(prev.0.contains(d[i].id));
            }
        }
        assert(now.1.subrange(0, kills.len() as int) =~= kills);
    } else {
        assert(kills.subrange(0, kills.len() as int) =~= kills);
    }
}

/// A finished record is finalized once: observing a match that is not
/// playing leaves the recorder, and its record, unchanged.
pub proof fn lemma_finished_record_stays(r: RecorderModel, sim: SimView, now_unix: u64)
    requires
        r.finished,
        sim.phase != MatchPhase::Playing,
    ensures
        observed(r, sim, now_unix) == r,
{
}

/// Each sample of a record being played out is owed to one whole second:
/// the timeline holds one sample fewer than the next second due.
pub open spec fn timeline_tracks(r: RecorderModel) -> bool {
    r.record is Some && !r.finished ==> r.record->0.timeline.len() + 1 == r.next_sample
}

/// Observing the play of a match keeps the timeline at one sample per whole
/// second reached: a call appends at most one sample, and the timeline never
/// holds more samples than the largest whole second observed so far.
pub proof fn lemma_one_sample_per_second(r: RecorderModel, sim: SimView, now_unix: u64)
    requires
        sim.phase == MatchPhase::Playing,
        r.record is None || (timeline_tracks(r) && !r.finished),
        sim.elapsed_whole_secs < u64::MAX,
        r.record is Some ==> r.next_sample < u64::MAX,
    ensures
        ({
            let after = observed(r, sim, now_unix);
            let before_len = if r.record is None {
                0
            } else {
                r.record->0.timeline.len() as int
            };
            &&& timeline_tracks(after)
            &&& after.record is Some && !after.finished
            &&& before_len <= after.record->0.timeline.len() <= before_len + 1
            &&& after.record->0.timeline.len() <= if before_len <= sim.elapsed_whole_secs {
                sim.elapsed_whole_secs as int
            } else {
                before_len
            }
            &&& after.next_sample <= if r.record is None {
                2
            } else {
                r.next_sample + 1
            }
        }),
{
}

/// Samples a recorder holds: none while nothing is recorded.
pub open spec fn samples_held(r: RecorderModel) -> int {
    if r.record is None {
        0
    } else {
        r.record->0.timeline.len() as int
    }
}

/// A recorder that nothing records yet, or that records a match in play
/// with one sample per whole second reached.
pub open spec fn ready_for_play(r: RecorderModel) -> bool {
    r.record is None || (!r.finished && timeline_tracks(r) && r.next_sample < u64::MAX - 1)
}

/// Over a run of observations of a match in play, starting from a recorder
/// that records nothing yet or records that match, with the elapsed whole
/// seconds never going back, each observation adds at most one sample, and
/// the timeline ends with at most one sample per whole second elapsed, or
/// as many as it held at the start if it already held more.
pub proof fn lemma_timeline_bounded_by_elapsed(
    states: Seq<RecorderModel>,
    sims: Seq<SimView>,
    now_unix: u64,
)
    requires
        states.len() == sims.len() + 1,
        sims.len() >= 1,
        ready_for_play(states[0]),
        forall|i: int|
            0 <= i < sims.len() ==> #[trigger] sims[i].phase == MatchPhase::Playing
                && sims[i].elapsed_whole_secs < u64::MAX - 1,
        forall|i: int, j: int|
            0 <= i < j < sims.len() ==> #[trigger] sims[i].elapsed_whole_secs
                <= #[trigger] sims[j].elapsed_whole_secs,
        forall|i: int|
            0 <= i < sims.len() ==> #[trigger] states[i + 1] == observed(states[i], sims[i], now_unix),
    ensures
        states.last().record is Some,
        !states.last().finished,
        forall|i: int|
            0 <= i < sims.len() ==> samples_held(#[trigger] states[i + 1]) <= samples_held(states[i])
                + 1,
        samples_held(states.last()) <= if samples_held(states[0]) <= sims.last().elapsed_whole_secs {
            sims.last().elapsed_whole_secs as int
        } else {
            samples_held(states[0])
        },
{
    lemma_timeline_run(states, sims, now_unix, sims.len() as int);
    assert forall|i: int| 0 <= i < sims.len() implies samples_held(#[trigger] states[i + 1])
        <= samples_held(states[i]) + 1 by {
        lemma_timeline_run(states, sims, now_unix, i + 1);
    }
}

proof fn lemma_timeline_run(states: Seq<RecorderModel>, sims: Seq<SimView>, now_unix: u64, n: int)
    requires
        states.len() == sims.len() + 1,
        1 <= n <= sims.len(),
        ready_for_play(states[0]),
        forall|i: int|
            0 <= i < sims.len() ==> #[trigger] sims[i].phase == MatchPhase::Playing
                && sims[i].elapsed_whole_secs < u64::MAX - 1,
        forall|i: int, j: int|
            0 <= i < j < sims.len() ==> #[trigger] sims[i].elapsed_whole_secs
                <= #[trigger] sims[j].elapsed_whole_secs,
        forall|i: int|
            0 <= i < sims.len() ==> #[trigger] states[i + 1] == observed(states[i], sims[i], now_unix),
    ensures
        states[n].record is Some,
        !states[n].finished,
        timeline_tracks(states[n]),
        samples_held(states[n]) <= samples_held(states[n - 1]) + 1,
        samples_held(states[n]) <= if samples_held(states[0]) <= sims[n - 1].elapsed_whole_secs {
            sims[n - 1].elapsed_whole_secs as int
        } else {
            samples_held(states[0])
        },
        states[n].next_sample == samples_held(states[n]) + 1,
    decreases n,
{
    let i = n - 1;
    assert(sims[i].phase == MatchPhase::Playing);
    assert(states[i + 1] == observed(states[i], sims[i], now_unix));
    if n == 1 {
        lemma_one_sample_per_second(states[0], sims[0], now_unix);
    } else {
        lemma_timeline_run(states, sims, now_unix, n - 1);
        assert(sims[n - 2].elapsed_whole_secs <= sims[n - 1].elapsed_whole_secs);
        lemma_one_sample_per_second(states[n - 1], sims[n - 1], now_unix);
    }
}

/// Noting the bounty events of one observation adds one kill for each id
/// it adds to the seen ids, and adds only ids of those events.
pub proof fn lemma_one_kill_per_new_bounty(
    seen: Set<u64>,
    kills: Seq<RecordedKill>,
    events: Seq<BountyEvent>,
    at: Scalar,
)
    requires
        seen.finite(),
    ensures
        ({
            let (now_seen, now_kills) = noted_kills(seen, kills, events, at);
            &&& now_seen.finite()
            &&& seen.subset_of(now_seen)
            &&& now_kills.len() - kills.len() == now_seen.len() - seen.len()
            &&& forall|id: u64|
                #[trigger] now_seen.contains(id) && !seen.contains(id) ==> exists|i: int|
                    0 <= i < events.len() && #[trigger] events[i].id == id
        }),
    decreases events.len(),
{
    if events.len() > 0 {
        let d = events.drop_last();
        lemma_one_kill_per_new_bounty(seen, kills, d, at);
        let (s, k) = noted_kills(seen, kills, d, at);
        let (now_seen, now_kills) = noted_kills(seen, kills, events, at);
        assert forall|id: u64| #[trigger] now_seen.contains(id) && !seen.contains(id) implies exists|
            i: int,
        | 0 <= i < events.len() && #[trigger] events[i].id == id by {
            if s.contains(id) {
                let i = choose|i: int| 0 <= i < d.len() && #[trigger] d[i].id == id;
                assert(events[i] == d[i]);
            } else {
                assert(events[events.len() - 1].id == id);
            }
        }
    }
}

/// Over a run of observations of a match in play while a record is kept,
/// the kill feed keeps what it held and grows by exactly the number of
/// bounty ids seen for the first time: one kill per new id, none for an id
/// seen before.
pub proof fn lemma_kills_follow_new_bounties(
    states: Seq<RecorderModel>,
    sims: Seq<SimView>,
    now_unix: u64,
    n: int,
)
    requires
        states.len() == sims.len() + 1,
        0 <= n <= sims.len(),
        states[0].record is Some,
        states[0].seen_bounty.finite(),
        forall|i: int| 0 <= i < sims.len() ==> #[trigger] sims[i].phase == MatchPhase::Playing,
        forall|i: int|
            0 <= i < sims.len() ==> #[trigger] states[i + 1] == observed(states[i], sims[i], now_unix),
    ensures
        states[n].record is Some,
        states[n].seen_bounty.finite(),
        states[0].seen_bounty.subset_of(states[n].seen_bounty),
        states[n].record->0.kills.subrange(0, states[0].record->0.kills.len() as int)
            == states[0].record->0.kills,
        states[n].record->0.kills.len() - states[0].record->0.kills.len()
            == states[n].seen_bounty.len() - states[0].seen_bounty.len(),
    decreases n,
{
    if n == 0 {
        let k = states[0].record->0.kills;
        assert(k.subrange(0, k.len() as int) =~= k);
    } else {
        lemma_kills_follow_new_bounties(states, sims, now_unix, n - 1);
        let i = n - 1;
        let r = states[i];
        let sim = sims[i];
        assert(sim.phase == MatchPhase::Playing);
        assert(states[i + 1] == observed(r, sim, now_unix));
        vstd::set_lib::lemma_len_subset(states[0].seen_bounty, r.seen_bounty);
        let rec = r.record->0;
        lemma_one_kill_per_new_bounty(r.seen_bounty, rec.kills, sim.bounty_events@, sim.elapsed_secs);
        lemma_kills_cover_events(r.seen_bounty, rec.kills, sim.bounty_events@, sim.elapsed_secs);
        let k0 = states[0].record->0.kills;
        let k1 = rec.kills;
        let k2 = states[n].record->0.kills;
        assert(k0.len() <= k1.len() <= k2.len());
        assert(k2.subrange(0, k1.len() as int) == k1);
        assert forall|j: int| 0 <= j < k0.len() implies k2[j] == k0[j] by {
            assert(k2.subrange(0, k1.len() as int)[j] == k2[j]);
            assert(k1.subrange(0, k0.len() as int)[j] == k1[j]);
        }
        assert(k2.subrange(0, k0.len() as int) =~= k0);
    }
}

/// Every kill that noting bounty events adds is made from one of those
/// events whose id was not seen before: it carries that event's side and
/// unit kind, and the time it was noted at.
proof fn lemma_noted_kills_from_events(
    seen: Set<u64>,
    kills: Seq<RecordedKill>,
    events: Seq<BountyEvent>,
    at: Scalar,
)
    ensures
        ({
            let (now_seen, now_kills) = noted_kills(seen, kills, events, at);
            &&& kills.len() <= now_kills.len()
            &&& forall|m: int|
                0 <= m < kills.len() ==> #[trigger] now_kills[m] == kills[m]
            &&& forall|m: int|
                #![trigger now_kills[m]]
                kills.len() <= m < now_kills.len() ==> exists|i: int|
                    0 <= i < events.len() && !seen.contains(#[trigger] events[i].id) && now_kills[m]
                        == (RecordedKill {
                        elapsed_secs: at,
                        team: events[i].team,
                        kind: events[i].unit_kind,
                    })
            &&& forall|i: int|
                0 <= i < events.len() && !seen.contains(#[trigger] events[i].id) ==> now_seen.contains(
                    events[i].id,
                )
        }),
    decreases events.len(),
{
    if events.len() > 0 {
        let d = events.drop_last();
        lemma_noted_kills_from_events(seen, kills, d, at);
        let (s, k) = noted_kills(seen, kills, d, at);
        let (now_seen, now_kills) = noted_kills(seen, kills, events, at);
        let e = events.last();
        assert forall|m: int| #![trigger now_kills[m]] kills.len() <= m < now_kills.len() implies exists|i: int|
            0 <= i < events.len() && !seen.contains(#[trigger] events[i].id) && now_kills[m]
                == (RecordedKill { elapsed_secs: at, team: events[i].team, kind: events[i].unit_kind }) by {
            if m < k.len() {
                assert(now_kills[m] == k[m]);
                let i = choose|i: int|
                    0 <= i < d.len() && !seen.contains(#[trigger] d[i].id) && k[m] == (RecordedKill {
                        elapsed_secs: at,
                        team: d[i].team,
                        kind: d[i].unit_kind,
                    });
                assert(events[i] == d[i]);
            } else {
                let i = events.len() - 1;
                assert(events[i] == e);
                // The last event was added, so its id was not seen at the start.
                assert(!s.contains(e.id));
                if seen.contains(e.id) {
                    lemma_kills_cover_events(seen, kills, d, at);
                    lemma_one_kill_per_new_bounty_seen(seen, kills, d, at);
                }
            }
        }
        assert forall|i: int| 0 <= i < events.len() && !seen.contains(#[trigger] events[i].id) implies now_seen.contains(
            events[i].id,
        ) by {
            if i < d.len() {
                assert(events[i] == d[i]);
            }
        }
    }
}

/// Noting bounty events never forgets a seen id.
proof fn lemma_one_kill_per_new_bounty_seen(
    seen: Set<u64>,
    kills: Seq<RecordedKill>,
    events: Seq<BountyEvent>,
    at: Scalar,
)
    ensures
        seen.subset_of(noted_kills(seen, kills, events, at).0),
    decreases events.len(),
{
    if events.len() > 0 {
        lemma_one_kill_per_new_bounty_seen(seen, kills, events.drop_last(), at);
    }
}

/// Observing a match in play credits each kill it adds to the side, and
/// the unit kind, of a bounty event of that observation whose id had not
/// been seen, at the observation's elapsed time, and keeps the kills
/// already recorded; every bounty event with an unseen id is seen after.
pub proof fn lemma_kills_carry_their_bounty(r: RecorderModel, sim: SimView, now_unix: u64)
    requires
        sim.phase == MatchPhase::Playing,
    ensures
        ({
            let after = observed(r, sim, now_unix);
            let before = if r.record is Some {
                r.record->0.kills
            } else {
                Seq::<RecordedKill>::empty()
            };
            let kills = after.record->0.kills;
            let events = sim.bounty_events@;
            &&& after.record is Some
            &&& before.len() <= kills.len()
            &&& forall|m: int| 0 <= m < before.len() ==> #[trigger] kills[m] == before[m]
            &&& forall|m: int|
                #![trigger kills[m]]
                before.len() <= m < kills.len() ==> exists|i: int|
                    0 <= i < events.len() && !r.seen_bounty.contains(#[trigger] events[i].id)
                        && kills[m] == (RecordedKill {
                        elapsed_secs: sim.elapsed_secs,
                        team: events[i].team,
                        kind: events[i].unit_kind,
                    })
            &&& forall|i: int|
                0 <= i < events.len() && !r.seen_bounty.contains(#[trigger] events[i].id)
                    ==> after.seen_bounty.contains(events[i].id)
        }),
{
    let before = if r.record is Some {
        r.record->0.kills
    } else {
        Seq::<RecordedKill>::empty()
    };
    lemma_noted_kills_from_events(r.seen_bounty, before, sim.bounty_events@, sim.elapsed_secs);
}

/// Observing the start of play records the sim's players in order, each
/// with its name, side and race; a record already open keeps its players.
pub proof fn lemma_players_recorded_as_seated(r: RecorderModel, sim: SimView, now_unix: u64)
    requires
        sim.phase == MatchPhase::Playing,
    ensures
        ({
            let players = observed(r, sim, now_unix).record->0.players;
            &&& r.record is None ==> {
                &&& players.len() == sim.players@.len()
                &&& forall|i: int|
                    0 <= i < players.len() ==> (#[trigger] players[i]).name == sim.players@[i].name
                        && players[i].team == sim.players@[i].team && players[i].race
                        == sim.players@[i].race
            }
            &&& r.record is Some ==> players == r.record->0.players
        }),
{
}

/// The units of a side, among the first `n`.
proof fn lemma_unit_total_counts(units: Seq<UnitTally>, slot: usize, n: int)
    requires
        0 <= n <= units.len(),
    ensures
        unit_total(units, slot, n) == units.take(n).filter(|u: UnitTally| u.slot == slot).len(),
    decreases n,
{
    let side = |u: UnitTally| u.slot == slot;
    if n == 0 {
        assert(units.take(0).filter(side) =~= Seq::<UnitTally>::empty()) by {
            reveal(Seq::filter);
        }
    } else {
        lemma_unit_total_counts(units, slot, n - 1);
        assert(units.take(n) =~= units.take(n - 1).push(units[n - 1]));
        units.take(n - 1).lemma_filter_push(units[n - 1], side);
    }
}

/// Each timeline sample an observation takes reads the sim as it stands:
/// its elapsed time, each side's castle health, gold and income, and the
/// number of units on each side.
pub proof fn lemma_samples_read_the_sim(r: RecorderModel, sim: SimView, now_unix: u64)
    requires
        observation_samples(r, sim),
        samplable(sim),
        sim.units@.len() <= usize::MAX,
    ensures
        ({
            let after = observed(r, sim, now_unix);
            let timeline = after.record->0.timeline;
            let sample = timeline.last();
            &&& after.record is Some
            &&& timeline.len() >= 1
            &&& sample.elapsed_secs == sim.elapsed_secs
            &&& sample.castle_health == (sim.castles@[0].health, sim.castles@[1].health)
            &&& sample.gold == (sim.economies@[0].gold, sim.economies@[1].gold)
            &&& sample.income == (sim.economies@[0].income, sim.economies@[1].income)
            &&& sample.unit_count.0 as int == sim.units@.filter(|u: UnitTally| u.slot == 0).len()
            &&& sample.unit_count.1 as int == sim.units@.filter(|u: UnitTally| u.slot == 1).len()
        }),
{
    let n = sim.units@.len() as int;
    lemma_unit_total_counts(sim.units@, 0, n);
    lemma_unit_total_counts(sim.units@, 1, n);
    lemma_totals_grow(sim.units@, 0, n, n);
    lemma_totals_grow(sim.units@, 1, n, n);
    assert(sim.units@.take(n) =~= sim.units@);
}

} // verus!
