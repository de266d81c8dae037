use castle_lanes::model::{
    Building, BuildingKind, BuildZone, Castle, Economy, GridCell, Lane, MatchPhase, MatchSnapshot, PlayerId, PlayerInfo, RaceKind,
    Scalar, Team,
};
use castle_lanes::view::{
    can_place_building, current_player, default_building_for_race, default_lane_for_team, fog_index, local_gold, parse_race,
    player_index_of, race_selection_popup_open, seat_side_index, selected_race, side_matches_viewer, side_of_player,
    team_race, visible_sides,
};

fn player(id: u8, team: Team, race: Option<RaceKind>, ready: bool) -> PlayerInfo {
    PlayerInfo { id: PlayerId(id), name: format!("p{id}"), team, race, ready, connected: true }
}

fn lobby() -> MatchSnapshot {
    MatchSnapshot {
        phase: MatchPhase::Lobby,
        tick: 0,
        elapsed_secs: Scalar { bits: 0 },
        sudden_death: false,
        players: vec![player(1, Team::Left, Some(RaceKind::Grove), false), player(2, Team::Right, None, true)],
        economies: vec![Economy { gold: 150, income: 10 }, Economy { gold: 75, income: 10 }],
        castles: vec![
            Castle { team: Team::Left, health: 2000, max_health: 2000 },
            Castle { team: Team::Right, health: 2000, max_health: 2000 },
        ],
        bounty_events: Vec::new(),
        winner: None,
        message: String::new(),
        units: Vec::new(),
        buildings: Vec::new(),
    }
}

#[test]
fn players_are_found_by_id_and_team() {
    let snap = lobby();
    assert_eq!(current_player(&snap, PlayerId(2)).unwrap().team, Team::Right);
    assert!(current_player(&snap, PlayerId(3)).is_none());
    assert_eq!(player_index_of(&snap, PlayerId(2)), 1);
    assert_eq!(player_index_of(&snap, PlayerId(9)), 0);
    assert_eq!(side_of_player(&snap, PlayerId(2)), Team::Right);
    assert_eq!(side_of_player(&snap, PlayerId(9)), Team::Left);
    assert!(side_matches_viewer(&snap, PlayerId(2), None));
    assert!(!side_matches_viewer(&snap, PlayerId(2), Some(Team::Left)));
    assert_eq!(team_race(&snap, Team::Left), Some(RaceKind::Grove));
    assert_eq!(team_race(&snap, Team::Right), None);
}

#[test]
fn local_player_state() {
    let snap = lobby();
    assert_eq!(selected_race(Some(&snap), Some(PlayerId(1))), Some(RaceKind::Grove));
    assert_eq!(selected_race(None, Some(PlayerId(1))), None);
    assert!(race_selection_popup_open(Some(&snap), Some(PlayerId(1))));
    assert!(!race_selection_popup_open(Some(&snap), Some(PlayerId(2))));
    assert!(!race_selection_popup_open(Some(&snap), None));
    let mut playing = lobby();
    playing.phase = MatchPhase::Playing;
    assert!(!race_selection_popup_open(Some(&playing), Some(PlayerId(1))));
    assert_eq!(local_gold(Some(&snap), Some(PlayerId(2))), Some(75));
    assert_eq!(local_gold(Some(&snap), Some(PlayerId(5))), None);
}

#[test]
fn drawing_helpers() {
    assert_eq!(visible_sides(Some(Team::Right)), vec![Team::Right]);
    assert_eq!(visible_sides(None), vec![Team::Left, Team::Right]);
    assert_eq!(fog_index(3, 2), 2 * 96 + 3);
    assert_eq!(default_lane_for_team(Team::Left), Lane::Top);
    assert_eq!(default_lane_for_team(Team::Right), Lane::Bottom);
    assert_eq!(default_building_for_race(RaceKind::Ember), BuildingKind::EmberFlameSpire);
}

#[test]
fn bot_race_spellings_ignore_ascii_case() {
    assert_eq!(parse_race("vanguard"), Some(RaceKind::Vanguard));
    assert_eq!(parse_race("HUMANS"), Some(RaceKind::Vanguard));
    assert_eq!(parse_race("V"), Some(RaceKind::Vanguard));
    assert_eq!(parse_race("1"), Some(RaceKind::Vanguard));
    assert_eq!(parse_race("Forest"), Some(RaceKind::Grove));
    assert_eq!(parse_race("2"), Some(RaceKind::Grove));
    assert_eq!(parse_race("eMbEr"), Some(RaceKind::Ember));
    assert_eq!(parse_race("fire"), Some(RaceKind::Ember));
    assert_eq!(parse_race("dwarves"), None);
    assert_eq!(parse_race(" grove"), None);
    assert_eq!(parse_race(""), None);
}

fn placement_snapshot(players: Vec<PlayerInfo>, gold: Vec<i32>, buildings: Vec<Building>) -> MatchSnapshot {
    MatchSnapshot {
        phase: MatchPhase::Playing,
        tick: 1,
        elapsed_secs: Scalar { bits: 0 },
        sudden_death: false,
        players,
        economies: gold.into_iter().map(|gold| Economy { gold, income: 0 }).collect(),
        castles: Vec::new(),
        bounty_events: Vec::new(),
        winner: None,
        message: String::new(),
        units: Vec::new(),
        buildings,
    }
}

fn seated(id: u8, team: Team, race: Option<RaceKind>) -> PlayerInfo {
    PlayerInfo { id: PlayerId(id), name: format!("p{id}"), team, race, ready: true, connected: true }
}

fn placed(owner: u8, lane: Lane, x: u8) -> Building {
    Building {
        id: 90 + x as u64,
        owner: PlayerId(owner),
        kind: BuildingKind::VanguardBarracks,
        lane,
        zone: BuildZone::Front,
        cell: GridCell { x, y: 0 },
        health: 400,
        max_health: 400,
        spawn_timer: Scalar { bits: 0 },
    }
}

#[test]
fn placement_needs_a_free_slot_the_race_and_the_gold() {
    let snapshot = placement_snapshot(
        vec![seated(1, Team::Left, Some(RaceKind::Vanguard)), seated(2, Team::Right, Some(RaceKind::Grove))],
        vec![120, 40],
        vec![placed(1, Lane::Top, 0), placed(2, Lane::Top, 1)],
    );
    let cell = |x: u8| GridCell { x, y: 0 };
    assert_eq!(seat_side_index(&snapshot, PlayerId(1)), 0);
    // One seat a side: the assigned lane does not count.
    assert!(can_place_building(&snapshot, PlayerId(1), Team::Left, RaceKind::Vanguard, 100, Lane::Bottom, Lane::Top, BuildZone::Front, cell(1)));
    // The own side already built there.
    assert!(!can_place_building(&snapshot, PlayerId(1), Team::Left, RaceKind::Vanguard, 100, Lane::Top, Lane::Top, BuildZone::Front, cell(0)));
    // Another race than the side's.
    assert!(!can_place_building(&snapshot, PlayerId(1), Team::Left, RaceKind::Grove, 100, Lane::Top, Lane::Top, BuildZone::Front, cell(1)));
    // Not enough gold.
    assert!(!can_place_building(&snapshot, PlayerId(1), Team::Left, RaceKind::Vanguard, 121, Lane::Top, Lane::Top, BuildZone::Front, cell(1)));
    assert!(can_place_building(&snapshot, PlayerId(1), Team::Left, RaceKind::Vanguard, 120, Lane::Top, Lane::Top, BuildZone::Front, cell(1)));
    // An unseated player has no gold.
    assert!(!can_place_building(&snapshot, PlayerId(9), Team::Left, RaceKind::Vanguard, 1, Lane::Top, Lane::Top, BuildZone::Front, cell(1)));
}

#[test]
fn team_play_keeps_each_seat_in_its_lane() {
    let snapshot = placement_snapshot(
        vec![
            seated(1, Team::Left, None),
            seated(2, Team::Right, None),
            seated(3, Team::Left, None),
            seated(4, Team::Right, None),
        ],
        vec![500, 500, 500, 500],
        Vec::new(),
    );
    assert_eq!(seat_side_index(&snapshot, PlayerId(3)), 0);
    assert_eq!(seat_side_index(&snapshot, PlayerId(4)), 1);
    let cell = GridCell { x: 2, y: 1 };
    assert!(!can_place_building(&snapshot, PlayerId(4), Team::Right, RaceKind::Ember, 50, Lane::Bottom, Lane::Top, BuildZone::Back, cell));
    assert!(can_place_building(&snapshot, PlayerId(4), Team::Right, RaceKind::Ember, 50, Lane::Bottom, Lane::Bottom, BuildZone::Back, cell));
}
