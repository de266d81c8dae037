//! Names of the 3D models the client draws for each kind of unit and
//! building.
use vstd::prelude::*;

use crate::model::{BuildingKind, UnitKind};
use crate::names::push_char;
use crate::view::{ascii_lower, spelled};

verus! {

impl UnitKind {
    /// The kind's name as written in the source.
    pub open spec fn spec_name(self) -> Seq<char> {
        match self {
            UnitKind::VanguardGuard => "VanguardGuard"@,
            UnitKind::VanguardArcher => "VanguardArcher"@,
            UnitKind::VanguardPikeman => "VanguardPikeman"@,
            UnitKind::VanguardShieldbearer => "VanguardShieldbearer"@,
            UnitKind::VanguardBattleCleric => "VanguardBattleCleric"@,
            UnitKind::VanguardLancer => "VanguardLancer"@,
            UnitKind::VanguardBallista => "VanguardBallista"@,
            UnitKind::VanguardArbalester => "VanguardArbalester"@,
            UnitKind::VanguardArcanist => "VanguardArcanist"@,
            UnitKind::GroveBruiser => "GroveBruiser"@,
            UnitKind::GroveNeedler => "GroveNeedler"@,
            UnitKind::GroveSproutling => "GroveSproutling"@,
            UnitKind::GroveBarkguard => "GroveBarkguard"@,
            UnitKind::GroveMireShaman => "GroveMireShaman"@,
            UnitKind::GroveVineStalker => "GroveVineStalker"@,
            UnitKind::GroveTreantColossus => "GroveTreantColossus"@,
            UnitKind::GroveBrambleguard => "GroveBrambleguard"@,
            UnitKind::GroveSpitefang => "GroveSpitefang"@,
            UnitKind::EmberRunner => "EmberRunner"@,
            UnitKind::EmberCaster => "EmberCaster"@,
            UnitKind::EmberSparkImp => "EmberSparkImp"@,
            UnitKind::EmberObsidianGuard => "EmberObsidianGuard"@,
            UnitKind::EmberFireLancer => "EmberFireLancer"@,
            UnitKind::EmberSmokeWitch => "EmberSmokeWitch"@,
            UnitKind::EmberCinderEngine => "EmberCinderEngine"@,
            UnitKind::EmberMagmaBrute => "EmberMagmaBrute"@,
            UnitKind::EmberAshStalker => "EmberAshStalker"@,
        }
    }

    /// The kind's name as written in the source.
    pub fn name(self) -> (name: &'static str)
        ensures
            name@ == self.spec_name(),
    {
        match self {
            UnitKind::VanguardGuard => "VanguardGuard",
            UnitKind::VanguardArcher => "VanguardArcher",
            UnitKind::VanguardPikeman => "VanguardPikeman",
            UnitKind::VanguardShieldbearer => "VanguardShieldbearer",
            UnitKind::VanguardBattleCleric => "VanguardBattleCleric",
            UnitKind::VanguardLancer => "VanguardLancer",
            UnitKind::VanguardBallista => "VanguardBallista",
            UnitKind::VanguardArbalester => "VanguardArbalester",
            UnitKind::VanguardArcanist => "VanguardArcanist",
            UnitKind::GroveBruiser => "GroveBruiser",
            UnitKind::GroveNeedler => "GroveNeedler",
            UnitKind::GroveSproutling => "GroveSproutling",
            UnitKind::GroveBarkguard => "GroveBarkguard",
            UnitKind::GroveMireShaman => "GroveMireShaman",
            UnitKind::GroveVineStalker => "GroveVineStalker",
            UnitKind::GroveTreantColossus => "GroveTreantColossus",
            UnitKind::GroveBrambleguard => "GroveBrambleguard",
            UnitKind::GroveSpitefang => "GroveSpitefang",
            UnitKind::EmberRunner => "EmberRunner",
            UnitKind::EmberCaster => "EmberCaster",
            UnitKind::EmberSparkImp => "EmberSparkImp",
            UnitKind::EmberObsidianGuard => "EmberObsidianGuard",
            UnitKind::EmberFireLancer => "EmberFireLancer",
            UnitKind::EmberSmokeWitch => "EmberSmokeWitch",
            UnitKind::EmberCinderEngine => "EmberCinderEngine",
            UnitKind::EmberMagmaBrute => "EmberMagmaBrute",
            UnitKind::EmberAshStalker => "EmberAshStalker",
        }
    }
}

impl BuildingKind {
    /// The kind's name as written in the source.
    pub open spec fn spec_name(self) -> Seq<char> {
        match self {
            BuildingKind::VanguardBarracks => "VanguardBarracks"@,
            BuildingKind::VanguardRangeTower => "VanguardRangeTower"@,
            BuildingKind::VanguardPikeYard => "VanguardPikeYard"@,
            BuildingKind::VanguardBulwarkHall => "VanguardBulwarkHall"@,
            BuildingKind::VanguardChapel => "VanguardChapel"@,
            BuildingKind::VanguardStables => "VanguardStables"@,
            BuildingKind::VanguardSiegeWorkshop => "VanguardSiegeWorkshop"@,
            BuildingKind::VanguardForge => "VanguardForge"@,
            BuildingKind::VanguardArbalestTower => "VanguardArbalestTower"@,
            BuildingKind::VanguardArcaneSpire => "VanguardArcaneSpire"@,
            BuildingKind::GroveRootDen => "GroveRootDen"@,
            BuildingKind::GroveThornSpire => "GroveThornSpire"@,
            BuildingKind::GroveMossNursery => "GroveMossNursery"@,
            BuildingKind::GroveBarkBastion => "GroveBarkBastion"@,
            BuildingKind::GroveMirePool => "GroveMirePool"@,
            BuildingKind::GroveVineWarren => "GroveVineWarren"@,
            BuildingKind::GroveAncientSeed => "GroveAncientSeed"@,
            BuildingKind::GroveBloomWell => "GroveBloomWell"@,
            BuildingKind::GroveBrambleWarren => "GroveBrambleWarren"@,
            BuildingKind::GroveSpitefen => "GroveSpitefen"@,
            BuildingKind::EmberAshPack => "EmberAshPack"@,
            BuildingKind::EmberFlameSpire => "EmberFlameSpire"@,
            BuildingKind::EmberSparkKennel => "EmberSparkKennel"@,
            BuildingKind::EmberObsidianGate => "EmberObsidianGate"@,
            BuildingKind::EmberBlazeStable => "EmberBlazeStable"@,
            BuildingKind::EmberSmokeAltar => "EmberSmokeAltar"@,
            BuildingKind::EmberInfernoEngine => "EmberInfernoEngine"@,
            BuildingKind::EmberAshMine => "EmberAshMine"@,
            BuildingKind::EmberCinderPit => "EmberCinderPit"@,
            BuildingKind::EmberMagmaForge => "EmberMagmaForge"@,
        }
    }

    /// The kind's name as written in the source.
    pub fn name(self) -> (name: &'static str)
        ensures
            name@ == self.spec_name(),
    {
        match self {
            BuildingKind::VanguardBarracks => "VanguardBarracks",
            BuildingKind::VanguardRangeTower => "VanguardRangeTower",
            BuildingKind::VanguardPikeYard => "VanguardPikeYard",
            BuildingKind::VanguardBulwarkHall => "VanguardBulwarkHall",
            BuildingKind::VanguardChapel => "VanguardChapel",
            BuildingKind::VanguardStables => "VanguardStables",
            BuildingKind::VanguardSiegeWorkshop => "VanguardSiegeWorkshop",
            BuildingKind::VanguardForge => "VanguardForge",
            BuildingKind::VanguardArbalestTower => "VanguardArbalestTower",
            BuildingKind::VanguardArcaneSpire => "VanguardArcaneSpire",
            BuildingKind::GroveRootDen => "GroveRootDen",
            BuildingKind::GroveThornSpire => "GroveThornSpire",
            BuildingKind::GroveMossNursery => "GroveMossNursery",
            BuildingKind::GroveBarkBastion => "GroveBarkBastion",
            BuildingKind::GroveMirePool => "GroveMirePool",
            BuildingKind::GroveVineWarren => "GroveVineWarren",
            BuildingKind::GroveAncientSeed => "GroveAncientSeed",
            BuildingKind::GroveBloomWell => "GroveBloomWell",
            BuildingKind::GroveBrambleWarren => "GroveBrambleWarren",
            BuildingKind::GroveSpitefen => "GroveSpitefen",
            BuildingKind::EmberAshPack => "EmberAshPack",
            BuildingKind::EmberFlameSpire => "EmberFlameSpire",
            BuildingKind::EmberSparkKennel => "EmberSparkKennel",
            BuildingKind::EmberObsidianGate => "EmberObsidianGate",
            BuildingKind::EmberBlazeStable => "EmberBlazeStable",
            BuildingKind::EmberSmokeAltar => "EmberSmokeAltar",
            BuildingKind::EmberInfernoEngine => "EmberInfernoEngine",
            BuildingKind::EmberAshMine => "EmberAshMine",
            BuildingKind::EmberCinderPit => "EmberCinderPit",
            BuildingKind::EmberMagmaForge => "EmberMagmaForge",
        }
    }
}

pub open spec fn is_ascii_capital(c: char) -> bool {
    'A' <= c && c <= 'Z'
}

/// What one character of a name becomes in snake case: a capital letter
/// turns small, with an underscore before it unless it opens the name.
pub open spec fn snake_piece(c: char, opening: bool) -> Seq<char> {
    if is_ascii_capital(c) {
        if opening {
            seq![ascii_lower(c)]
        } else {
            seq!['_', ascii_lower(c)]
        }
    } else {
        seq![c]
    }
}

/// `s` in snake case: `VanguardBarracks` becomes `vanguard_barracks`.
pub open spec fn snake_of(s: Seq<char>) -> Seq<char>
    decreases s.len(),
{
    if s.len() == 0 {
        Seq::empty()
    } else {
        snake_of(s.drop_last()) + snake_piece(s.last(), s.len() == 1)
    }
}

/// `debug_name` in snake case, the naming of the model files.
pub fn snake_case(debug_name: &str) -> (snake: String)
    ensures
        snake@ == snake_of(debug_name@),
{
    let mut out = String::new();
    let mut opening = true;
    for ch in it: debug_name.chars()
        invariant
            it.seq() == debug_name@,
            opening == (it.index() == 0),
            out@ == snake_of(debug_name@.take(it.index() as int)),
    {
        let ghost i = it.index();
        proof {
            let next = debug_name@.take(i + 1);
            assert(next.drop_last() =~= debug_name@.take(i as int));
            assert(next.last() == ch);
        }
        if 'A' <= ch && ch <= 'Z' {
            if !opening {
                push_char(&mut out, '_');
            }
            push_char(&mut out, ((ch as u8) + 32) as char);
        } else {
            push_char(&mut out, ch);
        }
        proof {
            let before = snake_of(debug_name@.take(i as int));
            if is_ascii_capital(ch) {
                if i > 0 {
                    assert(out@ =~= before + seq!['_', ascii_lower(ch)]);
                } else {
                    assert(out@ =~= before + seq![ascii_lower(ch)]);
                }
            } else {
                assert(out@ =~= before + seq![ch]);
            }
        }
        opening = false;
    }
    proof {
        assert(debug_name@.take(debug_name@.len() as int) =~= debug_name@);
    }
    out
}

/// The model of a building kind; upgrade branches reuse the model of the
/// building they grow from.
pub open spec fn building_model_of(kind: BuildingKind) -> Seq<char> {
    match kind {
        BuildingKind::VanguardArbalestTower => "vanguard_range_tower"@,
        BuildingKind::VanguardArcaneSpire => "vanguard_chapel"@,
        BuildingKind::GroveBrambleWarren => "grove_root_den"@,
        BuildingKind::GroveSpitefen => "grove_thorn_spire"@,
        BuildingKind::EmberMagmaForge => "ember_cinder_pit"@,
        BuildingKind::EmberAshPack => "ember_flame_spire"@,
        _ => snake_of(kind.spec_name()),
    }
}

/// The name of the model a building kind is drawn with.
pub fn building_model_name(kind: BuildingKind) -> (name: String)
    ensures
        name@ == building_model_of(kind),
{
    match kind {
        BuildingKind::VanguardArbalestTower => String::from_str("vanguard_range_tower"),
        BuildingKind::VanguardArcaneSpire => String::from_str("vanguard_chapel"),
        BuildingKind::GroveBrambleWarren => String::from_str("grove_root_den"),
        BuildingKind::GroveSpitefen => String::from_str("grove_thorn_spire"),
        BuildingKind::EmberMagmaForge => String::from_str("ember_cinder_pit"),
        BuildingKind::EmberAshPack => String::from_str("ember_flame_spire"),
        _ => snake_case(kind.name()),
    }
}

/// The unit models there are.
pub open spec fn vanguard_unit_models() -> Seq<Seq<char>> {
    seq![
        "vanguard_guard"@,
        "vanguard_archer"@,
        "vanguard_pikeman"@,
        "vanguard_shieldbearer"@,
        "vanguard_battle_cleric"@,
        "vanguard_lancer"@,
        "vanguard_ballista"@,
    ]
}

/// The kind whose model a unit kind is drawn with: upgraded units reuse the
/// model of the unit they grow from.
pub open spec fn model_kind_of(kind: UnitKind) -> UnitKind {
    match kind {
        UnitKind::VanguardArbalester => UnitKind::VanguardArcher,
        UnitKind::VanguardArcanist => UnitKind::VanguardBattleCleric,
        _ => kind,
    }
}

/// The name of the model a unit kind is drawn with, if there is one.
pub fn unit_model_name(kind: UnitKind) -> (name: Option<String>)
    ensures
        name is Some <==> vanguard_unit_models().contains(snake_of(model_kind_of(kind).spec_name())),
        name is Some ==> name.unwrap()@ == snake_of(model_kind_of(kind).spec_name()),
{
    let base = match kind {
        UnitKind::VanguardArbalester => UnitKind::VanguardArcher,
        UnitKind::VanguardArcanist => UnitKind::VanguardBattleCleric,
        _ => kind,
    };
    let name = snake_case(base.name());
    let listed = spelled(&name, "vanguard_guard") || spelled(&name, "vanguard_archer")
        || spelled(&name, "vanguard_pikeman") || spelled(&name, "vanguard_shieldbearer")
        || spelled(&name, "vanguard_battle_cleric") || spelled(&name, "vanguard_lancer")
        || spelled(&name, "vanguard_ballista");
    proof {
        let models = vanguard_unit_models();
        if listed {
            assert(models.contains(name@));
        } else {
            assert forall|i: int| 0 <= i < models.len() implies models[i] != name@ by {}
        }
    }
    if listed {
        Some(name)
    } else {
        None
    }
}

} // verus!
