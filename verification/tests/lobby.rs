use castle_lanes::model::{MatchPhase, PlayerId, PlayerInfo, Team};
use castle_lanes::packets::{game_list, GameInfo, RoomSummary, PROTOCOL_VERSION};

fn seat(id: u8, connected: bool) -> PlayerInfo {
    PlayerInfo { id: PlayerId(id), name: format!("p{id}"), team: Team::Left, race: None, ready: false, connected }
}

#[test]
fn game_list_is_sorted_and_counts_connected_players() {
    let rooms = vec![
        RoomSummary { id: 5, name: "late".to_string(), phase: MatchPhase::Playing, players: vec![seat(1, true), seat(2, false)] },
        RoomSummary { id: 2, name: "early".to_string(), phase: MatchPhase::Lobby, players: vec![seat(1, true), seat(2, true)] },
        RoomSummary { id: 3, name: "empty".to_string(), phase: MatchPhase::Lobby, players: Vec::new() },
    ];
    let games = game_list(&rooms);
    assert_eq!(
        games,
        vec![
            GameInfo { id: 2, name: "early".to_string(), phase: MatchPhase::Lobby, players: 2, max_players: 2 },
            GameInfo { id: 3, name: "empty".to_string(), phase: MatchPhase::Lobby, players: 0, max_players: 2 },
            GameInfo { id: 5, name: "late".to_string(), phase: MatchPhase::Playing, players: 1, max_players: 2 },
        ]
    );
    assert_eq!(PROTOCOL_VERSION, 9);
}

#[test]
fn rooms_sharing_an_id_keep_their_order() {
    let room = |id: u32, name: &str| RoomSummary { id, name: name.to_string(), phase: MatchPhase::Lobby, players: Vec::new() };
    let rooms = vec![room(4, "first"), room(1, "one"), room(4, "second"), room(2, "two"), room(4, "third")];
    let names: Vec<String> = game_list(&rooms).into_iter().map(|g| g.name).collect();
    assert_eq!(names, vec!["one", "two", "first", "second", "third"]);
}
