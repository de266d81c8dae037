//! The match state that the server replicates to its clients.
//!
//! Positions, timers and other continuous quantities of the simulation are
//! carried as [`Scalar`]s: the IEEE-754 bit pattern of the simulation's `f32`
//! value. The networking and recording logic only copies and compares them;
//! it never computes with them.
use vstd::prelude::*;
use vstd::std_specs::cmp::PartialEqSpecImpl;

verus! {

/// A simulation `f32`, carried by its bit pattern. Its `==` is `f32`
/// equality: `+0.0` equals `-0.0`, and a NaN equals nothing.
#[derive(Clone, Copy, Debug)]
pub struct Scalar {
    pub bits: u32,
}

impl Scalar {
    /// The value is a NaN: all exponent bits set and a nonzero fraction.
    pub open spec fn nan(self) -> bool {
        self.bits & 0x7f80_0000u32 == 0x7f80_0000u32 && self.bits & 0x007f_ffffu32 != 0
    }

    /// The value is `+0.0` or `-0.0`.
    pub open spec fn zero(self) -> bool {
        self.bits & 0x7fff_ffffu32 == 0
    }

    /// The two values are equal as `f32`s: neither is a NaN, and their bits
    /// agree or both are zeros (of either sign).
    pub open spec fn same_value(self, other: Scalar) -> bool {
        !self.nan() && !other.nan() && (self.bits == other.bits || (self.zero() && other.zero()))
    }

    /// `f32` equality of the two values.
    pub fn eq_value(&self, other: &Scalar) -> (equal: bool)
        ensures
            equal == self.same_value(*other),
    {
        let a = self.bits;
        let b = other.bits;
        let a_nan = a & 0x7f80_0000u32 == 0x7f80_0000u32 && a & 0x007f_ffffu32 != 0;
        let b_nan = b & 0x7f80_0000u32 == 0x7f80_0000u32 && b & 0x007f_ffffu32 != 0;
        !a_nan && !b_nan && (a == b || (a & 0x7fff_ffffu32 == 0 && b & 0x7fff_ffffu32 == 0))
    }
}

impl PartialEq for Scalar {
    fn eq(&self, other: &Self) -> (equal: bool) {
        self.eq_value(other)
    }
}

impl PartialEqSpecImpl for Scalar {
    open spec fn obeys_eq_spec() -> bool {
        true
    }

    open spec fn eq_spec(&self, other: &Scalar) -> bool {
        self.same_value(*other)
    }
}

/// A point on the battlefield, in simulation coordinates.
#[derive(Clone, Copy, Debug, PartialEq)]
pub struct WorldPos {
    pub x: Scalar,
    pub y: Scalar,
}

impl WorldPos {
    /// Both coordinates are equal as `f32`s.
    pub open spec fn same_value(self, other: WorldPos) -> bool {
        self.x.same_value(other.x) && self.y.same_value(other.y)
    }

    /// `f32` equality of both coordinates.
    pub fn eq_value(&self, other: &WorldPos) -> (equal: bool)
        ensures
            equal == self.same_value(*other),
    {
        self.x.eq_value(&other.x) && self.y.eq_value(&other.y)
    }
}

#[derive(Clone, Copy, Debug, PartialEq, Eq, Structural)]
pub enum Team {
    Left,
    Right,
}

#[derive(Clone, Copy, Debug, PartialEq, Eq, Structural)]
pub enum Lane {
    Top,
    UpperMid,
    LowerMid,
    Bottom,
}

#[derive(Clone, Copy, Debug, PartialEq, Eq, Structural)]
pub enum BuildZone {
    Front,
    Back,
}

#[derive(Clone, Copy, Debug, PartialEq, Eq, Structural)]
pub enum MatchPhase {
    Lobby,
    Playing,
    GameOver,
}

#[derive(Clone, Copy, Debug, PartialEq, Eq, Structural)]
pub enum RaceKind {
    Vanguard,
    Grove,
    Ember,
}

#[derive(Clone, Copy, Debug, PartialEq, Eq, Structural)]
pub enum UnitKind {
    VanguardGuard,
    VanguardArcher,
    VanguardPikeman,
    VanguardShieldbearer,
    VanguardBattleCleric,
    VanguardLancer,
    VanguardBallista,
    VanguardArbalester,
    VanguardArcanist,
    GroveBruiser,
    GroveNeedler,
    GroveSproutling,
    GroveBarkguard,
    GroveMireShaman,
    GroveVineStalker,
    GroveTreantColossus,
    GroveBrambleguard,
    GroveSpitefang,
    EmberRunner,
    EmberCaster,
    EmberSparkImp,
    EmberObsidianGuard,
    EmberFireLancer,
    EmberSmokeWitch,
    EmberCinderEngine,
    EmberMagmaBrute,
    EmberAshStalker,
}

#[derive(Clone, Copy, Debug, PartialEq, Eq, Structural)]
pub enum BuildingKind {
    VanguardBarracks,
    VanguardRangeTower,
    VanguardPikeYard,
    VanguardBulwarkHall,
    VanguardChapel,
    VanguardStables,
    VanguardSiegeWorkshop,
    VanguardForge,
    VanguardArbalestTower,
    VanguardArcaneSpire,
    GroveRootDen,
    GroveThornSpire,
    GroveMossNursery,
    GroveBarkBastion,
    GroveMirePool,
    GroveVineWarren,
    GroveAncientSeed,
    GroveBloomWell,
    GroveBrambleWarren,
    GroveSpitefen,
    EmberAshPack,
    EmberFlameSpire,
    EmberSparkKennel,
    EmberObsidianGate,
    EmberBlazeStable,
    EmberSmokeAltar,
    EmberInfernoEngine,
    EmberAshMine,
    EmberCinderPit,
    EmberMagmaForge,
}

/// A seat in a match.
#[derive(Clone, Copy, Debug, PartialEq, Eq, Structural)]
pub struct PlayerId(pub u8);

/// A cell of a lane's build grid.
#[derive(Clone, Copy, Debug, PartialEq, Eq, Structural)]
pub struct GridCell {
    pub x: u8,
    pub y: u8,
}

#[derive(Debug, PartialEq, Eq)]
pub struct PlayerInfo {
    pub id: PlayerId,
    pub name: String,
    pub team: Team,
    pub race: Option<RaceKind>,
    pub ready: bool,
    pub connected: bool,
}

impl Clone for PlayerInfo {
    fn clone(&self) -> (res: Self)
        ensures
            res == *self,
    {
        PlayerInfo {
            id: self.id,
            name: self.name.clone(),
            team: self.team,
            race: self.race,
            ready: self.ready,
            connected: self.connected,
        }
    }
}

#[derive(Clone, Copy, Debug, PartialEq, Eq, Structural)]
pub struct Economy {
    pub gold: i32,
    pub income: i32,
}

#[derive(Clone, Copy, Debug, PartialEq, Eq, Structural)]
pub struct Castle {
    pub team: Team,
    pub health: i32,
    pub max_health: i32,
}

/// Gold awarded to a side for a kill.
#[derive(Clone, Copy, Debug, PartialEq)]
pub struct BountyEvent {
    pub id: u64,
    pub team: Team,
    pub unit_kind: UnitKind,
    pub amount: i32,
    pub pos: WorldPos,
}

#[derive(Clone, Copy, Debug, PartialEq)]
pub struct Unit {
    pub id: u64,
    pub owner: PlayerId,
    pub kind: UnitKind,
    pub lane: Lane,
    pub health: i32,
    pub lane_pos: Scalar,
    pub pos: WorldPos,
    pub velocity: WorldPos,
    pub radius: Scalar,
    pub attack_timer: Scalar,
    pub slow_timer: Scalar,
    pub slow_factor: Scalar,
    pub regen_accum: Scalar,
}

#[derive(Clone, Copy, Debug, PartialEq)]
pub struct Building {
    pub id: u64,
    pub owner: PlayerId,
    pub kind: BuildingKind,
    pub lane: Lane,
    pub zone: BuildZone,
    pub cell: GridCell,
    pub health: i32,
    pub max_health: i32,
    pub spawn_timer: Scalar,
}

/// Everything a client is told about a match at one tick.
#[derive(Debug, PartialEq)]
pub struct MatchSnapshot {
    pub phase: MatchPhase,
    pub tick: u64,
    pub elapsed_secs: Scalar,
    pub sudden_death: bool,
    pub players: Vec<PlayerInfo>,
    pub economies: Vec<Economy>,
    pub castles: Vec<Castle>,
    pub bounty_events: Vec<BountyEvent>,
    pub winner: Option<Team>,
    pub message: String,
    pub units: Vec<Unit>,
    pub buildings: Vec<Building>,
}

/// The mathematical content of a [`MatchSnapshot`].
pub struct SnapshotModel {
    pub phase: MatchPhase,
    pub tick: u64,
    pub elapsed_secs: Scalar,
    pub sudden_death: bool,
    pub players: Seq<PlayerInfo>,
    pub economies: Seq<Economy>,
    pub castles: Seq<Castle>,
    pub bounty_events: Seq<BountyEvent>,
    pub winner: Option<Team>,
    pub message: Seq<char>,
    pub units: Seq<Unit>,
    pub buildings: Seq<Building>,
}

impl View for MatchSnapshot {
    type V = SnapshotModel;

    open spec fn view(&self) -> SnapshotModel {
        SnapshotModel {
            phase: self.phase,
            tick: self.tick,
            elapsed_secs: self.elapsed_secs,
            sudden_death: self.sudden_death,
            players: self.players@,
            economies: self.economies@,
            castles: self.castles@,
            bounty_events: self.bounty_events@,
            winner: self.winner,
            message: self.message@,
            units: self.units@,
            buildings: self.buildings@,
        }
    }
}

/// A copy of a vector of plain values.
pub fn copy_vec<T: Copy>(v: &Vec<T>) -> (res: Vec<T>)
    ensures
        res@ == v@,
{
    let mut res: Vec<T> = Vec::new();
    let mut i: usize = 0;
    while i < v.len()
        invariant
            i <= v.len(),
            res@ == v@.take(i as int),
        decreases v.len() - i,
    {
        res.push(v[i]);
        i = i + 1;
        assert(res@ =~= v@.take(i as int));
    }
    assert(v@.take(v.len() as int) =~= v@);
    res
}

/// A copy of the player list.
pub fn clone_players(v: &Vec<PlayerInfo>) -> (res: Vec<PlayerInfo>)
    ensures
        res@ == v@,
{
    let mut res: Vec<PlayerInfo> = Vec::new();
    let mut i: usize = 0;
    while i < v.len()
        invariant
            i <= v.len(),
            res@ == v@.take(i as int),
        decreases v.len() - i,
    {
        res.push(v[i].clone());
        i = i + 1;
        assert(res@ =~= v@.take(i as int));
    }
    assert(v@.take(v.len() as int) =~= v@);
    res
}

impl MatchSnapshot {
    /// A deep copy.
    pub fn duplicate(&self) -> (res: MatchSnapshot)
        ensures
            res@ == self@,
    {
        MatchSnapshot {
            phase: self.phase,
            tick: self.tick,
            elapsed_secs: self.elapsed_secs,
            sudden_death: self.sudden_death,
            players: clone_players(&self.players),
            economies: copy_vec(&self.economies),
            castles: copy_vec(&self.castles),
            bounty_events: copy_vec(&self.bounty_events),
            winner: self.winner,
            message: self.message.clone(),
            units: copy_vec(&self.units),
            buildings: copy_vec(&self.buildings),
        }
    }
}

} // verus!
