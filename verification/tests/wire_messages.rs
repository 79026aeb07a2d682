use libplen::constants::{TEAM_BLUE_ID, TEAM_RED_ID};
use libplen::fx::FxVec2;
use libplen::gamestate::GameState;
use libplen::messages::{
    encode_game_state_message, ClientInput, ClientMessage, ServerMessage, SoundEffect,
};
use libplen::player::PlayerType;

#[test]
fn input_message_round_trips() {
    let msg = ClientMessage::Input(ClientInput { x_input: -1000, y_input: 42, rotation: -7 });
    let bytes = msg.encode().unwrap();
    assert_eq!(bytes[0], 0);
    match ClientMessage::decode(&bytes) {
        Some(ClientMessage::Input(i)) => {
            assert_eq!(i.x_input, -1000);
            assert_eq!(i.y_input, 42);
            assert_eq!(i.rotation, -7);
        },
        _ => panic!("expected an input message"),
    }
}

#[test]
fn join_team_message_round_trips() {
    let msg = ClientMessage::JoinTeam {
        team_id: TEAM_BLUE_ID,
        player_type: PlayerType::Dispatcher,
        name: "Ada".to_string(),
    };
    let bytes = msg.encode().unwrap();
    assert_eq!(bytes[0], 1);
    match ClientMessage::decode(&bytes) {
        Some(ClientMessage::JoinTeam { team_id, player_type, name }) => {
            assert_eq!(team_id, TEAM_BLUE_ID);
            assert!(matches!(player_type, PlayerType::Dispatcher));
            assert_eq!(name, "Ada");
        },
        _ => panic!("expected a join message"),
    }
}

#[test]
fn set_name_message_round_trips_with_non_ascii() {
    let msg = ClientMessage::SetName { name: "héllo wörld".to_string() };
    let bytes = msg.encode().unwrap();
    assert_eq!(bytes[0], 2);
    match ClientMessage::decode(&bytes) {
        Some(ClientMessage::SetName { name }) => assert_eq!(name, "héllo wörld"),
        _ => panic!("expected a rename message"),
    }
}

#[test]
fn extreme_input_values_round_trip() {
    let msg = ClientMessage::Input(ClientInput {
        x_input: i64::MIN,
        y_input: i64::MAX,
        rotation: -1,
    });
    let bytes = msg.encode().unwrap();
    match ClientMessage::decode(&bytes) {
        Some(ClientMessage::Input(i)) => {
            assert_eq!(i.x_input, i64::MIN);
            assert_eq!(i.y_input, i64::MAX);
            assert_eq!(i.rotation, -1);
        },
        _ => panic!("expected an input message"),
    }
}

#[test]
fn oversized_name_is_rejected_by_encode() {
    let msg = ClientMessage::SetName { name: "x".repeat(70_000) };
    assert!(msg.encode().is_none());
}

#[test]
fn malformed_payloads_are_rejected() {
    assert!(ClientMessage::decode(&vec![]).is_none());
    assert!(ClientMessage::decode(&vec![9]).is_none()); // unknown tag
    assert!(ClientMessage::decode(&vec![0, 1, 2]).is_none()); // truncated input
    // a valid message with a trailing byte is rejected whole
    let mut bytes = ClientMessage::Input(ClientInput { x_input: 0, y_input: 0, rotation: 0 })
        .encode()
        .unwrap();
    bytes.push(0);
    assert!(ClientMessage::decode(&bytes).is_none());
    // a name that is not valid UTF-8 is rejected
    let mut join = vec![2u8, 2, 0]; // SetName, length 2
    join.extend_from_slice(&[0xff, 0xfe]);
    assert!(ClientMessage::decode(&join).is_none());
}

#[test]
fn assign_id_round_trips() {
    let bytes = ServerMessage::AssignId(77).encode();
    match ServerMessage::decode(&bytes) {
        Some(ServerMessage::AssignId(id)) => assert_eq!(id, 77),
        _ => panic!("expected an identity assignment"),
    }
}

#[test]
fn play_sound_round_trips() {
    let bytes = ServerMessage::PlaySound(SoundEffect::Gun, FxVec2 { x: -5, y: 9 }).encode();
    match ServerMessage::decode(&bytes) {
        Some(ServerMessage::PlaySound(SoundEffect::Gun, p)) => {
            assert_eq!(p.x, -5);
            assert_eq!(p.y, 9);
        },
        _ => panic!("expected a sound message"),
    }
}

#[test]
fn game_state_round_trips() {
    let mut state = GameState::new();
    state.try_add_player_to_team(1, TEAM_RED_ID, PlayerType::Dispatcher, "Ada".to_string());
    state.try_add_player_to_team(2, TEAM_RED_ID, PlayerType::Agent, "Bob".to_string());
    state.try_add_player_to_team(3, TEAM_BLUE_ID, PlayerType::Agent, "Cyd".to_string());
    {
        let (p, _) = state.get_mut_player_by_id(2);
        p.position.x = -123;
        p.position.y = 456;
        p.rotation = 789;
    }
    let bytes = encode_game_state_message(&state);
    let back = match ServerMessage::decode(&bytes) {
        Some(ServerMessage::GameState(g)) => g,
        _ => panic!("expected a state snapshot"),
    };
    assert_eq!(back.game_started, false);
    assert_eq!(back.teams.len(), 2);
    assert_eq!(back.teams[0].id, TEAM_RED_ID);
    assert_eq!(back.teams[0].name, "RED");
    assert_eq!(back.teams[0].color, (255, 0, 0));
    let d = back.teams[0].dispatcher.as_ref().unwrap();
    assert_eq!(d.id, 1);
    assert_eq!(d.name, "Ada");
    assert!(matches!(d.player_type, PlayerType::Dispatcher));
    assert_eq!(back.teams[0].agents.len(), 1);
    let b = &back.teams[0].agents[0];
    assert_eq!(b.id, 2);
    assert_eq!(b.name, "Bob");
    assert_eq!(b.position.x, -123);
    assert_eq!(b.position.y, 456);
    assert_eq!(b.rotation, 789);
    assert_eq!(back.teams[1].agents.len(), 1);
    assert_eq!(back.teams[1].agents[0].name, "Cyd");
    assert!(back.teams[1].dispatcher.is_none());
}

#[test]
fn truncated_state_is_rejected() {
    let state = GameState::new();
    let bytes = encode_game_state_message(&state);
    for cut in 1..bytes.len() {
        assert!(ServerMessage::decode(&bytes[..cut].to_vec()).is_none());
    }
}
