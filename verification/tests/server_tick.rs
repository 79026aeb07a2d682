use libplen::channel::{
    classify_read_error, classify_write_error, send_progress, Channel, IoErrorKind, ReadOutcome,
    SendStep, WriteOutcome,
};
use libplen::codec;
use libplen::constants::{INPUT_AXIS_LIMIT, TEAM_RED_ID};
use libplen::gamestate::GameState;
use libplen::messages::{ClientInput, ClientMessage};
use libplen::player::PlayerType;
use libplen::tick::{
    apply_pending_joins, cleanup_clients, encode_assign_id_frame, encode_state_frame,
    handle_client_frame, JoinRequest,
};

fn frame_of(msg: &ClientMessage) -> Vec<u8> {
    msg.encode().unwrap()
}

#[test]
fn input_frame_updates_cache_last_write_wins() {
    let mut state = GameState::new();
    let mut pending: Vec<JoinRequest> = Vec::new();
    let mut input = ClientInput::new();
    let first = frame_of(&ClientMessage::Input(ClientInput {
        x_input: 1,
        y_input: 2,
        rotation: 3,
    }));
    let second = frame_of(&ClientMessage::Input(ClientInput {
        x_input: 4,
        y_input: 5,
        rotation: 6,
    }));
    assert!(handle_client_frame(&mut state, &mut pending, &mut input, 7, &first));
    assert!(handle_client_frame(&mut state, &mut pending, &mut input, 7, &second));
    assert_eq!(input, ClientInput { x_input: 4, y_input: 5, rotation: 6 });
    assert!(pending.is_empty());
}

#[test]
fn wild_input_is_clamped() {
    let mut state = GameState::new();
    let mut pending: Vec<JoinRequest> = Vec::new();
    let mut input = ClientInput::new();
    let wild = frame_of(&ClientMessage::Input(ClientInput {
        x_input: i64::MAX,
        y_input: i64::MIN,
        rotation: 0,
    }));
    assert!(handle_client_frame(&mut state, &mut pending, &mut input, 7, &wild));
    assert_eq!(input.x_input, INPUT_AXIS_LIMIT);
    assert_eq!(input.y_input, -INPUT_AXIS_LIMIT);
}

#[test]
fn join_is_deferred_then_applied_in_order() {
    let mut state = GameState::new();
    let mut pending: Vec<JoinRequest> = Vec::new();
    let mut input = ClientInput::new();
    let join_a = frame_of(&ClientMessage::JoinTeam {
        team_id: TEAM_RED_ID,
        player_type: PlayerType::Dispatcher,
        name: "A".to_string(),
    });
    let join_b = frame_of(&ClientMessage::JoinTeam {
        team_id: TEAM_RED_ID,
        player_type: PlayerType::Dispatcher,
        name: "B".to_string(),
    });
    assert!(handle_client_frame(&mut state, &mut pending, &mut input, 1, &join_a));
    assert!(handle_client_frame(&mut state, &mut pending, &mut input, 2, &join_b));
    // nothing is applied during ingest
    assert!(state.get_player_by_id(1).is_none());
    assert_eq!(pending.len(), 2);
    apply_pending_joins(&mut state, &pending);
    // arrival order decides the dispatcher contention
    assert_eq!(state.teams[0].dispatcher.as_ref().unwrap().id, 1);
    assert!(state.get_player_by_id(2).is_none());
}

#[test]
fn join_name_is_sanitized_at_ingest() {
    let mut state = GameState::new();
    let mut pending: Vec<JoinRequest> = Vec::new();
    let mut input = ClientInput::new();
    let join = frame_of(&ClientMessage::JoinTeam {
        team_id: TEAM_RED_ID,
        player_type: PlayerType::Agent,
        name: "  Ada  ".to_string(),
    });
    assert!(handle_client_frame(&mut state, &mut pending, &mut input, 1, &join));
    assert_eq!(pending[0].name, "Ada");
    apply_pending_joins(&mut state, &pending);
    assert_eq!(state.get_player_by_id(1).unwrap().name, "Ada");
}

#[test]
fn rename_applies_immediately_with_sanitation() {
    let mut state = GameState::new();
    state.try_add_player_to_team(1, TEAM_RED_ID, PlayerType::Agent, "A".to_string());
    let mut pending: Vec<JoinRequest> = Vec::new();
    let mut input = ClientInput::new();
    let rename = frame_of(&ClientMessage::SetName { name: " Bob ".to_string() });
    assert!(handle_client_frame(&mut state, &mut pending, &mut input, 1, &rename));
    assert_eq!(state.get_player_by_id(1).unwrap().name, "Bob");
    // a whitespace-only rename stores the placeholder, never the empty string
    let blank = frame_of(&ClientMessage::SetName { name: "   ".to_string() });
    assert!(handle_client_frame(&mut state, &mut pending, &mut input, 1, &blank));
    assert_eq!(state.get_player_by_id(1).unwrap().name, "Mr Whitespace");
}

#[test]
fn rename_of_absent_player_is_ignored() {
    let mut state = GameState::new();
    let mut pending: Vec<JoinRequest> = Vec::new();
    let mut input = ClientInput::new();
    let rename = frame_of(&ClientMessage::SetName { name: "Bob".to_string() });
    assert!(handle_client_frame(&mut state, &mut pending, &mut input, 9, &rename));
    assert!(state.get_player_by_id(9).is_none());
}

#[test]
fn garbage_frame_marks_client_for_removal() {
    let mut state = GameState::new();
    let mut pending: Vec<JoinRequest> = Vec::new();
    let mut input = ClientInput::new();
    let garbage = vec![9u8, 1, 2, 3];
    assert!(!handle_client_frame(&mut state, &mut pending, &mut input, 1, &garbage));
    assert!(pending.is_empty());
}

#[test]
fn disconnect_cleanup_removes_identity_everywhere() {
    let mut state = GameState::new();
    state.try_add_player_to_team(1, TEAM_RED_ID, PlayerType::Dispatcher, "A".to_string());
    state.try_add_player_to_team(2, TEAM_RED_ID, PlayerType::Agent, "B".to_string());
    // both clients reported peer-closed during this tick
    cleanup_clients(&mut state, &vec![1, 2]);
    assert!(state.get_player_by_id(1).is_none());
    assert!(state.get_player_by_id(2).is_none());
    assert!(state.teams[0].dispatcher.is_none());
    assert!(state.teams[0].agents.is_empty());
}

#[test]
fn channel_assembles_frames_across_feeds() {
    let mut chan = Channel::new();
    let frame = codec::encode(&vec![1u8, 2, 3]).unwrap();
    chan.feed(&frame[..2]);
    assert!(chan.drain_frames().is_empty());
    chan.feed(&frame[2..]);
    let frames = chan.drain_frames();
    assert_eq!(frames, vec![vec![1u8, 2, 3]]);
    assert!(chan.drain_frames().is_empty());
}

#[test]
fn io_error_classification() {
    assert_eq!(classify_read_error(IoErrorKind::WouldBlock), ReadOutcome::NoData);
    assert_eq!(classify_read_error(IoErrorKind::Interrupted), ReadOutcome::NoData);
    assert_eq!(classify_read_error(IoErrorKind::ConnectionReset), ReadOutcome::PeerClosed);
    assert_eq!(classify_read_error(IoErrorKind::BrokenPipe), ReadOutcome::PeerClosed);
    assert_eq!(classify_read_error(IoErrorKind::Other), ReadOutcome::Fatal);
    assert_eq!(classify_write_error(IoErrorKind::WouldBlock), WriteOutcome::Retry);
    assert_eq!(classify_write_error(IoErrorKind::Interrupted), WriteOutcome::Retry);
    assert_eq!(classify_write_error(IoErrorKind::ConnectionReset), WriteOutcome::PeerClosed);
    assert_eq!(classify_write_error(IoErrorKind::BrokenPipe), WriteOutcome::PeerClosed);
    assert_eq!(classify_write_error(IoErrorKind::Other), WriteOutcome::Fatal);
}

#[test]
fn send_progress_walks_the_buffer() {
    assert_eq!(send_progress(0, 3, 10), SendStep::Continue(3));
    assert_eq!(send_progress(3, 7, 10), SendStep::Done);
    assert_eq!(send_progress(0, 10, 10), SendStep::Done);
    assert_eq!(send_progress(10, 0, 10), SendStep::Done);
}

#[test]
fn assign_id_frame_is_a_complete_frame() {
    let f = encode_assign_id_frame(5);
    let (frames, used) = codec::decode_incremental(&f);
    assert_eq!(used, f.len());
    assert_eq!(frames.len(), 1);
    match libplen::messages::ServerMessage::decode(&frames[0]) {
        Some(libplen::messages::ServerMessage::AssignId(id)) => assert_eq!(id, 5),
        _ => panic!("expected an identity assignment"),
    }
}

#[test]
fn state_frame_wraps_the_snapshot() {
    let mut state = GameState::new();
    state.try_add_player_to_team(1, TEAM_RED_ID, PlayerType::Agent, "A".to_string());
    let f = encode_state_frame(&state).unwrap();
    let (frames, used) = codec::decode_incremental(&f);
    assert_eq!(used, f.len());
    match libplen::messages::ServerMessage::decode(&frames[0]) {
        Some(libplen::messages::ServerMessage::GameState(g)) => {
            assert_eq!(g.teams[0].agents[0].id, 1);
        },
        _ => panic!("expected a state snapshot"),
    }
}
