use castle_lanes::model::{PlayerId, PlayerInfo, RaceKind, Team};
use castle_lanes::packets::PROTOCOL_VERSION;
use castle_lanes::sessions::{
    check_disconnect, check_join, is_retried_placement, room_for_player, session_step,
    update_reconnect_deadlines, ClientSession, JoinRefusal, ReservedSeat, RoomSeats, SeatLapse,
    SessionEvent, SessionRefusal, SessionReply, SessionSeat, RECONNECT_GRACE_MS,
};

fn player(id: u8, name: &str, connected: bool) -> PlayerInfo {
    PlayerInfo {
        id: PlayerId(id),
        name: name.to_string(),
        team: if id % 2 == 1 { Team::Left } else { Team::Right },
        race: Some(RaceKind::Ember),
        ready: true,
        connected,
    }
}

fn seat(game_id: u32, player_id: Option<u8>, last_applied_seq: Option<u32>) -> SessionSeat {
    SessionSeat { game_id: Some(game_id), player_id: player_id.map(PlayerId), last_applied_seq }
}

#[test]
fn join_is_refused_across_protocol_versions() {
    let refused = check_join(PROTOCOL_VERSION - 1, "Alice".to_string(), &Vec::new());
    assert_eq!(refused, Err(JoinRefusal::ProtocolMismatch { client: 8 }));
    assert_eq!(refused.unwrap_err().message(), "protocol mismatch: client 8, server 9");
    let refused = check_join(12, "Alice".to_string(), &Vec::new());
    assert_eq!(refused.unwrap_err().message(), "protocol mismatch: client 12, server 9");
}

#[test]
fn join_cleans_the_name_and_refuses_a_connected_one() {
    let others = vec!["Alice".to_string(), "Bryn".to_string()];
    assert_eq!(check_join(PROTOCOL_VERSION, "  Cato  ".to_string(), &others), Ok("Cato".to_string()));
    assert_eq!(check_join(PROTOCOL_VERSION, "   ".to_string(), &others), Ok("Player".to_string()));
    let taken = check_join(PROTOCOL_VERSION, " Bryn\t".to_string(), &others);
    assert_eq!(taken, Err(JoinRefusal::NameTaken));
    assert_eq!(taken.unwrap_err().message(), "That player name is already connected.");
    let long = check_join(PROTOCOL_VERSION, "Abcdefghijklmnopqrstuvwxyz".to_string(), &others);
    assert_eq!(long, Ok("Abcdefghijklmnopqr".to_string()));
}

#[test]
fn commands_go_to_the_connections_own_game() {
    let live = vec![3, 7];
    assert_eq!(room_for_player(Some(seat(7, Some(2), None)), PlayerId(2), &live), Ok(7));
    assert_eq!(room_for_player(None, PlayerId(2), &live), Err(SessionRefusal::NotJoined));
    assert_eq!(
        room_for_player(Some(seat(7, Some(1), None)), PlayerId(2), &live),
        Err(SessionRefusal::WrongPlayer)
    );
    assert_eq!(
        room_for_player(Some(seat(7, None, None)), PlayerId(2), &live),
        Err(SessionRefusal::WrongPlayer)
    );
    let lobby = SessionSeat { game_id: None, player_id: Some(PlayerId(2)), last_applied_seq: None };
    assert_eq!(room_for_player(Some(lobby), PlayerId(2), &live), Err(SessionRefusal::NoGame));
    assert_eq!(
        room_for_player(Some(seat(5, Some(2), None)), PlayerId(2), &live),
        Err(SessionRefusal::GameGone)
    );
}

#[test]
fn refusals_carry_the_servers_messages() {
    assert_eq!(SessionRefusal::NotJoined.message(), "Join before sending commands.");
    assert_eq!(SessionRefusal::NotJoinedToDisconnect.message(), "Join before disconnecting.");
    assert_eq!(SessionRefusal::WrongPlayer.message(), "Player id does not match this connection.");
    assert_eq!(SessionRefusal::NoGame.message(), "Join or create a game first.");
    assert_eq!(SessionRefusal::GameGone.message(), "Your game no longer exists.");
}

#[test]
fn disconnect_needs_the_connections_own_seat() {
    assert_eq!(check_disconnect(Some(seat(1, Some(4), None)), PlayerId(4)), Ok(()));
    assert_eq!(check_disconnect(None, PlayerId(4)), Err(SessionRefusal::NotJoinedToDisconnect));
    assert_eq!(
        check_disconnect(Some(seat(1, Some(3), None)), PlayerId(4)),
        Err(SessionRefusal::WrongPlayer)
    );
}

#[test]
fn a_placement_is_applied_at_most_once() {
    let applied = Some(seat(1, Some(1), Some(41)));
    assert!(is_retried_placement(Some(41), applied));
    assert!(!is_retried_placement(Some(42), applied));
    assert!(!is_retried_placement(None, applied));
    assert!(!is_retried_placement(Some(41), None));
    assert!(!is_retried_placement(Some(41), Some(seat(1, Some(1), None))));
}

fn room(id: u32, waiting: bool, players: Vec<PlayerInfo>) -> RoomSeats {
    RoomSeats { id, waiting_for_reconnect: waiting, players }
}

fn reserved(game_id: u32, player: u8, deadline_ms: u64) -> ReservedSeat {
    ReservedSeat { game_id, player_id: PlayerId(player), deadline_ms }
}

#[test]
fn a_dropped_player_keeps_the_seat_through_the_grace_period() {
    let rooms = vec![room(1, true, vec![player(1, "Alice", true), player(2, "Bryn", false)])];
    let mut pending = Vec::new();
    assert!(update_reconnect_deadlines(&rooms, &mut pending, 1_000).is_empty());
    assert_eq!(pending, vec![reserved(1, 2, 1_000 + RECONNECT_GRACE_MS)]);
    // Refreshing again keeps the first deadline.
    assert!(update_reconnect_deadlines(&rooms, &mut pending, 50_000).is_empty());
    assert_eq!(pending, vec![reserved(1, 2, 91_000)]);
    assert!(update_reconnect_deadlines(&rooms, &mut pending, 90_999).is_empty());
    assert_eq!(pending.len(), 1);
    let lapsed = update_reconnect_deadlines(&rooms, &mut pending, 91_000);
    assert_eq!(lapsed, vec![SeatLapse { game_id: 1, player_name: "Bryn".to_string() }]);
    assert_eq!(lapsed[0].message(), "Bryn failed to reconnect. Set ready to restart.");
    assert!(pending.is_empty());
}

#[test]
fn seats_follow_whether_their_room_still_waits() {
    let rooms = vec![
        room(1, false, vec![player(1, "Alice", true), player(2, "Bryn", true)]),
        room(2, true, vec![player(1, "Cato", false), player(2, "Dara", true)]),
    ];
    let mut pending = vec![reserved(1, 2, 5_000), reserved(9, 1, 5_000), reserved(2, 2, 8_000)];
    let lapsed = update_reconnect_deadlines(&rooms, &mut pending, 4_000);
    assert!(lapsed.is_empty());
    // Room 1 no longer waits: its seat goes. Room 9 is gone: its seat stays
    // until the deadline. Room 2 waits: Dara reconnected but keeps the seat
    // until it runs out, and Cato gets one.
    assert_eq!(
        pending,
        vec![reserved(9, 1, 5_000), reserved(2, 2, 8_000), reserved(2, 1, 4_000 + RECONNECT_GRACE_MS)]
    );
    // Dara's seat runs out, but Dara is connected: no lapse.
    let lapsed = update_reconnect_deadlines(&rooms, &mut pending, 8_000);
    assert!(lapsed.is_empty());
    assert_eq!(pending, vec![reserved(2, 1, 94_000)]);
}

#[test]
fn a_room_lapses_once_however_many_seats_run_out() {
    let rooms = vec![
        room(4, true, vec![player(1, "Alice", false), player(2, "Bryn", false)]),
        room(6, true, vec![player(1, "Cato", true), player(2, "Dara", true)]),
    ];
    let mut pending = vec![reserved(4, 2, 100), reserved(4, 1, 200), reserved(6, 1, 100)];
    let lapsed = update_reconnect_deadlines(&rooms, &mut pending, 300);
    assert_eq!(lapsed, vec![SeatLapse { game_id: 4, player_name: "Bryn".to_string() }]);
    assert!(pending.is_empty());
}

#[test]
fn sessions_follow_joins_commands_and_placements() {
    let lobby = SessionSeat { game_id: None, player_id: None, last_applied_seq: None };
    let (joined, reply) = session_step(None, SessionEvent::Admitted { name: "Alice".to_string() }, 10);
    assert_eq!(reply, SessionReply::Connected { name: "Alice".to_string() });
    let joined = joined.unwrap();
    assert_eq!(joined, ClientSession { name: "Alice".to_string(), seat: lobby, last_seen_ms: 10 });

    // Joining again keeps the seat and takes the new name.
    let seated = ClientSession { name: "Alice".to_string(), seat: seat(4, Some(1), Some(2)), last_seen_ms: 10 };
    let (again, _) = session_step(Some(seated), SessionEvent::Admitted { name: "Ally".to_string() }, 20);
    let again = again.unwrap();
    assert_eq!((again.name.as_str(), again.seat, again.last_seen_ms), ("Ally", seat(4, Some(1), Some(2)), 20));

    let (heard, reply) = session_step(Some(again), SessionEvent::Heard, 30);
    assert_eq!(reply, SessionReply::Nothing);
    assert_eq!(heard.as_ref().unwrap().last_seen_ms, 30);
    assert_eq!(session_step(None, SessionEvent::Heard, 30), (None, SessionReply::Nothing));

    let (applied, reply) = session_step(heard, SessionEvent::PlacementApplied { seq: Some(9) }, 40);
    assert_eq!(reply, SessionReply::Ack { seq: Some(9) });
    let applied = applied.unwrap();
    assert_eq!(applied.seat.last_applied_seq, Some(9));
    assert_eq!(applied.last_seen_ms, 30);
    assert!(is_retried_placement(Some(9), Some(applied.seat)));

    let (unsequenced, reply) = session_step(Some(applied), SessionEvent::PlacementApplied { seq: None }, 50);
    assert_eq!(reply, SessionReply::Nothing);
    assert_eq!(unsequenced.as_ref().unwrap().seat.last_applied_seq, None);

    let (retried, reply) = session_step(unsequenced, SessionEvent::PlacementRetried { seq: Some(9) }, 60);
    assert_eq!(reply, SessionReply::Ack { seq: Some(9) });
    assert_eq!(retried.unwrap().last_seen_ms, 30);
}

#[test]
fn sessions_take_and_give_up_seats() {
    let lobby = SessionSeat { game_id: None, player_id: None, last_applied_seq: Some(3) };
    let session = ClientSession { name: "Cato".to_string(), seat: lobby, last_seen_ms: 5 };
    let (seated, reply) = session_step(Some(session), SessionEvent::Seated { game_id: 7, player: player(2, "Cato", true) }, 9);
    assert_eq!(reply, SessionReply::Welcome { game_id: 7, player: player(2, "Cato", true) });
    let seated = seated.unwrap();
    assert_eq!(seated.seat, SessionSeat { game_id: Some(7), player_id: Some(PlayerId(2)), last_applied_seq: Some(3) });
    assert_eq!(seated.last_seen_ms, 9);

    let (left, reply) = session_step(Some(seated), SessionEvent::Unseated, 12);
    assert_eq!(reply, SessionReply::Nothing);
    let left = left.unwrap();
    assert_eq!(left.seat, lobby);
    assert_eq!(left.last_seen_ms, 9);

    assert_eq!(
        session_step(None, SessionEvent::Seated { game_id: 7, player: player(2, "Cato", true) }, 9),
        (None, SessionReply::NotInLobby)
    );
}
