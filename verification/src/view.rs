//! How clients read a received snapshot: who is who, which sides to draw,
//! and the defaults of the scripted demo player.
use vstd::prelude::*;

use crate::model::{
    Building, BuildingKind, BuildZone, Economy, GridCell, Lane, MatchPhase, MatchSnapshot,
    PlayerId, PlayerInfo, RaceKind, Team,
};

use crate::names::push_char;

verus! {

/// Columns of the client's fog-of-war grid.
pub const FOG_COLUMNS: usize = 96;

/// Rows of the client's fog-of-war grid.
pub const FOG_ROWS: usize = 34;

/// The index of the first player satisfying a property, or -1.
pub open spec fn first_player_with_id(players: Seq<PlayerInfo>, id: PlayerId) -> int
    decreases players.len(),
{
    if players.len() == 0 {
        -1
    } else {
        let k = first_player_with_id(players.drop_last(), id);
        if k >= 0 {
            k
        } else if players.last().id == id {
            players.len() - 1
        } else {
            -1
        }
    }
}

pub open spec fn first_player_on_team(players: Seq<PlayerInfo>, team: Team) -> int
    decreases players.len(),
{
    if players.len() == 0 {
        -1
    } else {
        let k = first_player_on_team(players.drop_last(), team);
        if k >= 0 {
            k
        } else if players.last().team == team {
            players.len() - 1
        } else {
            -1
        }
    }
}

pub(crate) proof fn lemma_first_player_with_id(players: Seq<PlayerInfo>, id: PlayerId)
    ensures
        -1 <= first_player_with_id(players, id) < players.len(),
        first_player_with_id(players, id) >= 0 ==> players[first_player_with_id(players, id)].id
            == id,
        forall|j: int|
            0 <= j < players.len() && (first_player_with_id(players, id) < 0 || j
                < first_player_with_id(players, id)) ==> #[trigger] players[j].id != id,
    decreases players.len(),
{
    if players.len() > 0 {
        lemma_first_player_with_id(players.drop_last(), id);
        assert forall|j: int|
            0 <= j < players.len() && (first_player_with_id(players, id) < 0 || j
                < first_player_with_id(players, id)) implies #[trigger] players[j].id != id by {
            if j < players.len() - 1 {
                assert(players.drop_last()[j] == players[j]);
            }
        }
    }
}

proof fn lemma_first_player_on_team(players: Seq<PlayerInfo>, team: Team)
    ensures
        -1 <= first_player_on_team(players, team) < players.len(),
        first_player_on_team(players, team) >= 0 ==> players[first_player_on_team(
            players,
            team,
        )].team == team,
        forall|j: int|
            0 <= j < players.len() && (first_player_on_team(players, team) < 0 || j
                < first_player_on_team(players, team)) ==> #[trigger] players[j].team != team,
    decreases players.len(),
{
    if players.len() > 0 {
        lemma_first_player_on_team(players.drop_last(), team);
        assert forall|j: int|
            0 <= j < players.len() && (first_player_on_team(players, team) < 0 || j
                < first_player_on_team(players, team)) implies #[trigger] players[j].team != team by {
            if j < players.len() - 1 {
                assert(players.drop_last()[j] == players[j]);
            }
        }
    }
}

/// Position of the first player with `id`.
pub(crate) fn find_player(players: &Vec<PlayerInfo>, id: PlayerId) -> (found: Option<usize>)
    ensures
        match found {
            Some(k) => k < players@.len() && k as int == first_player_with_id(players@, id),
            None => first_player_with_id(players@, id) < 0,
        },
{
    proof {
        lemma_first_player_with_id(players@, id);
    }
    let mut i: usize = 0;
    while i < players.len()
        invariant
            i <= players@.len(),
            forall|j: int| 0 <= j < i ==> #[trigger] players@[j].id != id,
            -1 <= first_player_with_id(players@, id) < players@.len(),
            first_player_with_id(players@, id) >= 0 ==> players@[first_player_with_id(
                players@,
                id,
            )].id == id,
            forall|j: int|
                0 <= j < players@.len() && (first_player_with_id(players@, id) < 0 || j
                    < first_player_with_id(players@, id)) ==> #[trigger] players@[j].id != id,
        decreases players.len() - i,
    {
        if players[i].id == id {
            return Some(i);
        }
        i = i + 1;
    }
    None
}

/// The player seated as `player_id`.
pub fn current_player(snapshot: &MatchSnapshot, player_id: PlayerId) -> (player: Option<
    &PlayerInfo,
>)
    ensures
        match player {
            Some(p) => first_player_with_id(snapshot.players@, player_id) >= 0 && *p
                == snapshot.players@[first_player_with_id(snapshot.players@, player_id)],
            None => first_player_with_id(snapshot.players@, player_id) < 0,
        },
{
    match find_player(&snapshot.players, player_id) {
        Some(k) => Some(&snapshot.players[k]),
        None => None,
    }
}

/// The seat index of `player_id`, or 0 when it is not seated.
pub fn player_index_of(snapshot: &MatchSnapshot, player_id: PlayerId) -> (index: usize)
    ensures
        index as int == (if first_player_with_id(snapshot.players@, player_id) >= 0 {
            first_player_with_id(snapshot.players@, player_id)
        } else {
            0
        }),
{
    match find_player(&snapshot.players, player_id) {
        Some(k) => k,
        None => 0,
    }
}

/// The side of the first player seated as `owner`, or Left when none is.
pub open spec fn side_of_owner(players: Seq<PlayerInfo>, owner: PlayerId) -> Team {
    if first_player_with_id(players, owner) >= 0 {
        players[first_player_with_id(players, owner)].team
    } else {
        Team::Left
    }
}

pub fn side_of_player(snapshot: &MatchSnapshot, owner: PlayerId) -> (side: Team)
    ensures
        side == side_of_owner(snapshot.players@, owner),
{
    match find_player(&snapshot.players, owner) {
        Some(k) => snapshot.players[k].team,
        None => Team::Left,
    }
}

/// Whether an owner's side is the viewer's; with no viewer every side is.
pub fn side_matches_viewer(snapshot: &MatchSnapshot, owner: PlayerId, viewer_team: Option<Team>) -> (matches: bool)
    ensures
        matches == match viewer_team {
            None => true,
            Some(team) => side_of_owner(snapshot.players@, owner) == team,
        },
{
    match viewer_team {
        None => true,
        Some(team) => side_of_player(snapshot, owner) == team,
    }
}

/// The race of the first player on `team`, if that player chose one.
pub fn team_race(snapshot: &MatchSnapshot, team: Team) -> (race: Option<RaceKind>)
    ensures
        race == (if first_player_on_team(snapshot.players@, team) >= 0 {
            snapshot.players@[first_player_on_team(snapshot.players@, team)].race
        } else {
            None
        }),
{
    proof {
        lemma_first_player_on_team(snapshot.players@, team);
    }
    let mut i: usize = 0;
    while i < snapshot.players.len()
        invariant
            i <= snapshot.players@.len(),
            forall|j: int| 0 <= j < i ==> #[trigger] snapshot.players@[j].team != team,
            -1 <= first_player_on_team(snapshot.players@, team) < snapshot.players@.len(),
            first_player_on_team(snapshot.players@, team) >= 0 ==> snapshot.players@[first_player_on_team(
                snapshot.players@,
                team,
            )].team == team,
            forall|j: int|
                0 <= j < snapshot.players@.len() && (first_player_on_team(snapshot.players@, team)
                    < 0 || j < first_player_on_team(snapshot.players@, team))
                    ==> #[trigger] snapshot.players@[j].team != team,
        decreases snapshot.players.len() - i,
    {
        if snapshot.players[i].team == team {
            return snapshot.players[i].race;
        }
        i = i + 1;
    }
    None
}

/// The race the local player chose, if seated.
pub fn selected_race(snapshot: Option<&MatchSnapshot>, player_id: Option<PlayerId>) -> (race: Option<RaceKind>)
    ensures
        race == match (snapshot, player_id) {
            (Some(s), Some(id)) => if first_player_with_id(s.players@, id) >= 0 {
                s.players@[first_player_with_id(s.players@, id)].race
            } else {
                None
            },
            _ => None,
        },
{
    match (snapshot, player_id) {
        (Some(s), Some(id)) => match current_player(s, id) {
            Some(player) => player.race,
            None => None,
        },
        _ => None,
    }
}

/// The race picker is open while the local player sits in the lobby and is
/// not ready.
pub fn race_selection_popup_open(snapshot: Option<&MatchSnapshot>, player_id: Option<PlayerId>) -> (open: bool)
    ensures
        open == match (snapshot, player_id) {
            (Some(s), Some(id)) => s.phase == MatchPhase::Lobby && first_player_with_id(
                s.players@,
                id,
            ) >= 0 && !s.players@[first_player_with_id(s.players@, id)].ready,
            _ => false,
        },
{
    let s = match snapshot {
        Some(s) => s,
        None => {
            return false;
        },
    };
    if s.phase != MatchPhase::Lobby {
        return false;
    }
    let id = match player_id {
        Some(id) => id,
        None => {
            return false;
        },
    };
    match current_player(s, id) {
        Some(player) => !player.ready,
        None => false,
    }
}

/// The local player's gold, read from the economy at their seat index.
pub fn local_gold(snapshot: Option<&MatchSnapshot>, player_id: Option<PlayerId>) -> (gold: Option<i32>)
    requires
        match (snapshot, player_id) {
            (Some(s), Some(id)) => first_player_with_id(s.players@, id) >= 0
                ==> first_player_with_id(s.players@, id) < s.economies@.len(),
            _ => true,
        },
    ensures
        gold == match (snapshot, player_id) {
            (Some(s), Some(id)) => if first_player_with_id(s.players@, id) >= 0 {
                Some(s.economies@[first_player_with_id(s.players@, id)].gold)
            } else {
                None
            },
            _ => None,
        },
{
    let s = match snapshot {
        Some(s) => s,
        None => {
            return None;
        },
    };
    let id = match player_id {
        Some(id) => id,
        None => {
            return None;
        },
    };
    match find_player(&s.players, id) {
        Some(k) => Some(s.economies[k].gold),
        None => None,
    }
}

/// The sides whose state a client draws: its own, or both when it has none.
pub fn visible_sides(team: Option<Team>) -> (sides: Vec<Team>)
    ensures
        sides@ == match team {
            Some(t) => seq![t],
            None => seq![Team::Left, Team::Right],
        },
{
    let mut sides: Vec<Team> = Vec::new();
    match team {
        Some(t) => {
            sides.push(t);
        },
        None => {
            sides.push(Team::Left);
            sides.push(Team::Right);
        },
    }
    assert(sides@ =~= match team {
        Some(t) => seq![t],
        None => seq![Team::Left, Team::Right],
    });
    sides
}

/// Index of a fog cell in the row-major fog grid.
pub fn fog_index(col: usize, row: usize) -> (index: usize)
    requires
        row * FOG_COLUMNS + col <= usize::MAX,
    ensures
        index == row * FOG_COLUMNS + col,
{
    row * FOG_COLUMNS + col
}

/// The lane the scripted demo player builds in: Left builds on top, Right
/// at the bottom.
pub fn default_lane_for_team(team: Team) -> (lane: Lane)
    ensures
        lane == match team {
            Team::Left => Lane::Top,
            Team::Right => Lane::Bottom,
        },
{
    match team {
        Team::Left => Lane::Top,
        Team::Right => Lane::Bottom,
    }
}

/// The building the scripted bot places for its race.
pub fn default_building_for_race(race: RaceKind) -> (kind: BuildingKind)
    ensures
        kind == match race {
            RaceKind::Vanguard => BuildingKind::VanguardRangeTower,
            RaceKind::Grove => BuildingKind::GroveThornSpire,
            RaceKind::Ember => BuildingKind::EmberFlameSpire,
        },
{
    match race {
        RaceKind::Vanguard => BuildingKind::VanguardRangeTower,
        RaceKind::Grove => BuildingKind::GroveThornSpire,
        RaceKind::Ember => BuildingKind::EmberFlameSpire,
    }
}

/// `c` with an ASCII capital letter turned into its small letter, as
/// `to_ascii_lowercase` does.
pub open spec fn ascii_lower(c: char) -> char {
    if 'A' <= c && c <= 'Z' {
        ((c as u32) + 32) as char
    } else {
        c
    }
}

pub open spec fn ascii_lower_of(s: Seq<char>) -> Seq<char> {
    s.map_values(|c: char| ascii_lower(c))
}

/// `value` with its ASCII capital letters made small.
fn ascii_lowercase(value: &str) -> (lower: String)
    ensures
        lower@ == ascii_lower_of(value@),
{
    let mut lower = String::new();
    for c in it: value.chars()
        invariant
            it.seq() == value@,
            lower@ == ascii_lower_of(value@.take(it.index() as int)),
    {
        let small = if 'A' <= c && c <= 'Z' {
            ((c as u8) + 32) as char
        } else {
            c
        };
        proof {
            assert(ascii_lower_of(value@.take(it.index() + 1)) =~= ascii_lower_of(
                value@.take(it.index() as int),
            ).push(ascii_lower(c)));
        }
        push_char(&mut lower, small);
    }
    proof {
        assert(value@.take(value@.len() as int) =~= value@);
    }
    lower
}

/// The race a spelling names on the bot's command line, ignoring ASCII case.
pub open spec fn race_spelled(s: Seq<char>) -> Option<RaceKind> {
    if s == "vanguard"@ || s == "human"@ || s == "humans"@ || s == "v"@ || s == "1"@ {
        Some(RaceKind::Vanguard)
    } else if s == "grove"@ || s == "forest"@ || s == "g"@ || s == "2"@ {
        Some(RaceKind::Grove)
    } else if s == "ember"@ || s == "fire"@ || s == "e"@ || s == "3"@ {
        Some(RaceKind::Ember)
    } else {
        None
    }
}

pub(crate) fn spelled(lower: &String, word: &str) -> (same: bool)
    ensures
        same == (lower@ == word@),
{
    *lower == String::from_str(word)
}

/// The race named by `value` on the bot's command line, whatever its ASCII
/// case; `None` when it names none (the bot refuses to start).
pub fn parse_race(value: &str) -> (race: Option<RaceKind>)
    ensures
        race == race_spelled(ascii_lower_of(value@)),
{
    let lower = ascii_lowercase(value);
    if spelled(&lower, "vanguard") || spelled(&lower, "human") || spelled(&lower, "humans")
        || spelled(&lower, "v") || spelled(&lower, "1") {
        Some(RaceKind::Vanguard)
    } else if spelled(&lower, "grove") || spelled(&lower, "forest") || spelled(&lower, "g")
        || spelled(&lower, "2") {
        Some(RaceKind::Grove)
    } else if spelled(&lower, "ember") || spelled(&lower, "fire") || spelled(&lower, "e")
        || spelled(&lower, "3") {
        Some(RaceKind::Ember)
    } else {
        None
    }
}


/// Seats on each side: half the players.
pub open spec fn team_size_of(players: Seq<PlayerInfo>) -> int {
    players.len() as int / 2
}

/// The seat index of `player_id`, or 0 when it is not seated.
pub open spec fn seat_of(players: Seq<PlayerInfo>, player_id: PlayerId) -> int {
    if first_player_with_id(players, player_id) >= 0 {
        first_player_with_id(players, player_id)
    } else {
        0
    }
}

/// In team play, the index within its side whose lane a seat builds in:
/// the seat index modulo the team size; 0 when sides have one seat.
pub fn seat_side_index(snapshot: &MatchSnapshot, player_id: PlayerId) -> (index: usize)
    ensures
        index == (if team_size_of(snapshot.players@) > 1 {
            seat_of(snapshot.players@, player_id) % team_size_of(snapshot.players@)
        } else {
            0
        }),
{
    let team_size = snapshot.players.len() / 2;
    if team_size > 1 {
        player_index_of(snapshot, player_id) % team_size
    } else {
        0
    }
}

/// Whether one of `buildings`, on `team`'s side, stands on the slot.
pub open spec fn slot_taken(
    players: Seq<PlayerInfo>,
    buildings: Seq<Building>,
    team: Team,
    lane: Lane,
    zone: BuildZone,
    cell: GridCell,
) -> bool {
    exists|i: int|
        0 <= i < buildings.len() && side_of_owner(players, #[trigger] buildings[i].owner) == team
            && buildings[i].lane == lane && buildings[i].zone == zone && buildings[i].cell == cell
}

/// The gold of `player_id`, or 0 when it is not seated.
pub open spec fn gold_of(players: Seq<PlayerInfo>, economies: Seq<Economy>, player_id: PlayerId) -> int {
    if first_player_with_id(players, player_id) >= 0 {
        economies[first_player_with_id(players, player_id)].gold as int
    } else {
        0
    }
}

/// The race of the first player on `team`, if that player chose one.
pub open spec fn race_of_team(players: Seq<PlayerInfo>, team: Team) -> Option<RaceKind> {
    if first_player_on_team(players, team) >= 0 {
        players[first_player_on_team(players, team)].race
    } else {
        None
    }
}

/// Whether a player of `team` may place a building of a race costing
/// `cost` on a slot: in team play only in its assigned lane, never on a slot
/// its side already built on, only of its side's race, and only with the
/// gold for it.
pub open spec fn placement_allowed(
    players: Seq<PlayerInfo>,
    economies: Seq<Economy>,
    buildings: Seq<Building>,
    player_id: PlayerId,
    team: Team,
    kind_race: RaceKind,
    cost: i32,
    assigned_lane: Lane,
    lane: Lane,
    zone: BuildZone,
    cell: GridCell,
) -> bool {
    &&& team_size_of(players) > 1 ==> lane == assigned_lane
    &&& !slot_taken(players, buildings, team, lane, zone, cell)
    &&& match race_of_team(players, team) {
        Some(race) => race == kind_race,
        None => true,
    }
    &&& gold_of(players, economies, player_id) >= cost
}

/// Whether the local player may place a building on a slot, as the client
/// checks before it sends the request. `kind_race` and `cost` are the race
/// and price of the building kind; `assigned_lane` is the lane the seat's
/// [`seat_side_index`] is given on `team`'s side, which only counts in team
/// play.
pub fn can_place_building(
    snapshot: &MatchSnapshot,
    player_id: PlayerId,
    team: Team,
    kind_race: RaceKind,
    cost: i32,
    assigned_lane: Lane,
    lane: Lane,
    zone: BuildZone,
    cell: GridCell,
) -> (allowed: bool)
    requires
        first_player_with_id(snapshot.players@, player_id) >= 0 ==> first_player_with_id(
            snapshot.players@,
            player_id,
        ) < snapshot.economies@.len(),
    ensures
        allowed == placement_allowed(
            snapshot.players@,
            snapshot.economies@,
            snapshot.buildings@,
            player_id,
            team,
            kind_race,
            cost,
            assigned_lane,
            lane,
            zone,
            cell,
        ),
{
    let team_size = snapshot.players.len() / 2;
    if team_size > 1 && lane != assigned_lane {
        return false;
    }
    let mut i: usize = 0;
    while i < snapshot.buildings.len()
        invariant
            i <= snapshot.buildings@.len(),
            forall|j: int|
                0 <= j < i ==> !(side_of_owner(snapshot.players@, #[trigger] snapshot.buildings@[j].owner)
                    == team && snapshot.buildings@[j].lane == lane && snapshot.buildings@[j].zone
                    == zone && snapshot.buildings@[j].cell == cell),
        decreases snapshot.buildings.len() - i,
    {
        let building = &snapshot.buildings[i];
        if side_of_player(snapshot, building.owner) == team && building.lane == lane
            && building.zone == zone && building.cell == cell {
            return false;
        }
        i = i + 1;
    }
    let gold: i32 = match find_player(&snapshot.players, player_id) {
        Some(k) => snapshot.economies[k].gold,
        None => 0,
    };
    let race_ok = match team_race(snapshot, team) {
        Some(race) => race == kind_race,
        None => true,
    };
    race_ok && gold >= cost
}

} // verus!
