use castle_lanes::model::{BuildingKind, UnitKind};
use castle_lanes::models::{building_model_name, snake_case, unit_model_name};

#[test]
fn names_turn_into_snake_case() {
    assert_eq!(snake_case("VanguardBarracks"), "vanguard_barracks");
    assert_eq!(snake_case("VanguardBattleCleric"), "vanguard_battle_cleric");
    assert_eq!(snake_case("ABC"), "a_b_c");
    assert_eq!(snake_case("already_snake"), "already_snake");
    assert_eq!(snake_case(""), "");
    assert_eq!(snake_case("Ämber Zone"), "Ämber _zone");
}

#[test]
fn kinds_are_named_as_in_the_source() {
    assert_eq!(BuildingKind::GroveMossNursery.name(), "GroveMossNursery");
    assert_eq!(UnitKind::EmberSparkImp.name(), "EmberSparkImp");
    assert_eq!(BuildingKind::EmberInfernoEngine.name(), format!("{:?}", BuildingKind::EmberInfernoEngine));
    assert_eq!(UnitKind::GroveTreantColossus.name(), format!("{:?}", UnitKind::GroveTreantColossus));
}

#[test]
fn building_models_follow_kinds_and_upgrade_branches_reuse_their_base() {
    assert_eq!(building_model_name(BuildingKind::VanguardBarracks), "vanguard_barracks");
    assert_eq!(building_model_name(BuildingKind::VanguardSiegeWorkshop), "vanguard_siege_workshop");
    assert_eq!(building_model_name(BuildingKind::GroveMossNursery), "grove_moss_nursery");
    assert_eq!(building_model_name(BuildingKind::VanguardArbalestTower), "vanguard_range_tower");
    assert_eq!(building_model_name(BuildingKind::VanguardArcaneSpire), "vanguard_chapel");
    assert_eq!(building_model_name(BuildingKind::GroveBrambleWarren), "grove_root_den");
    assert_eq!(building_model_name(BuildingKind::GroveSpitefen), "grove_thorn_spire");
    assert_eq!(building_model_name(BuildingKind::EmberMagmaForge), "ember_cinder_pit");
    assert_eq!(building_model_name(BuildingKind::EmberAshPack), "ember_flame_spire");
}

#[test]
fn only_the_vanguard_base_units_have_models() {
    assert_eq!(unit_model_name(UnitKind::VanguardGuard), Some("vanguard_guard".to_string()));
    assert_eq!(unit_model_name(UnitKind::VanguardBattleCleric), Some("vanguard_battle_cleric".to_string()));
    assert_eq!(unit_model_name(UnitKind::VanguardArbalester), Some("vanguard_archer".to_string()));
    assert_eq!(unit_model_name(UnitKind::VanguardArcanist), Some("vanguard_battle_cleric".to_string()));
    assert_eq!(unit_model_name(UnitKind::VanguardBallista), Some("vanguard_ballista".to_string()));
    assert_eq!(unit_model_name(UnitKind::GroveBruiser), None);
    assert_eq!(unit_model_name(UnitKind::EmberAshStalker), None);
}
