use libplen::constants::{TEAM_BLUE_ID, TEAM_RED_ID};
use libplen::gamestate::GameState;
use libplen::player::PlayerType;

fn dispatcher_id(state: &GameState, team: usize) -> Option<u64> {
    state.teams[team].dispatcher.as_ref().map(|p| p.id)
}

fn agent_ids(state: &GameState, team: usize) -> Vec<u64> {
    state.teams[team].agents.iter().map(|p| p.id).collect()
}

#[test]
fn initial_state_has_two_empty_teams() {
    let state = GameState::new();
    assert_eq!(state.teams.len(), 2);
    assert_eq!(state.teams[0].id, TEAM_RED_ID);
    assert_eq!(state.teams[0].name, "RED");
    assert_eq!(state.teams[0].color, (255, 0, 0));
    assert_eq!(state.teams[1].id, TEAM_BLUE_ID);
    assert_eq!(state.teams[1].name, "BLUE");
    assert_eq!(state.teams[1].color, (0, 0, 255));
    assert!(state.teams[0].dispatcher.is_none());
    assert!(state.teams[1].dispatcher.is_none());
    assert!(state.teams[0].agents.is_empty());
    assert!(state.teams[1].agents.is_empty());
    assert!(!state.game_started);
}

#[test]
fn dispatcher_contention_first_writer_wins() {
    let mut state = GameState::new();
    state.try_add_player_to_team(1, TEAM_RED_ID, PlayerType::Dispatcher, "A".to_string());
    assert_eq!(dispatcher_id(&state, 0), Some(1));
    // a later dispatcher join by someone else is a silent no-op
    state.try_add_player_to_team(2, TEAM_RED_ID, PlayerType::Dispatcher, "B".to_string());
    assert_eq!(dispatcher_id(&state, 0), Some(1));
    assert_eq!(state.teams[0].dispatcher.as_ref().unwrap().name, "A");
    assert!(agent_ids(&state, 0).is_empty());
    assert!(agent_ids(&state, 1).is_empty());
}

#[test]
fn rejoin_moves_player_between_teams() {
    let mut state = GameState::new();
    state.try_add_player_to_team(1, TEAM_RED_ID, PlayerType::Agent, "A".to_string());
    assert_eq!(agent_ids(&state, 0), vec![1]);
    state.try_add_player_to_team(1, TEAM_BLUE_ID, PlayerType::Agent, "A".to_string());
    assert!(agent_ids(&state, 0).is_empty());
    assert_eq!(agent_ids(&state, 1), vec![1]);
}

#[test]
fn rejoin_same_team_keeps_single_entry() {
    let mut state = GameState::new();
    state.try_add_player_to_team(1, TEAM_RED_ID, PlayerType::Agent, "A".to_string());
    state.try_add_player_to_team(1, TEAM_RED_ID, PlayerType::Agent, "A".to_string());
    assert_eq!(agent_ids(&state, 0), vec![1]);
}

#[test]
fn dispatcher_to_agent_rejoin_frees_slot() {
    let mut state = GameState::new();
    state.try_add_player_to_team(1, TEAM_RED_ID, PlayerType::Dispatcher, "A".to_string());
    state.try_add_player_to_team(1, TEAM_RED_ID, PlayerType::Agent, "A".to_string());
    assert_eq!(dispatcher_id(&state, 0), None);
    assert_eq!(agent_ids(&state, 0), vec![1]);
}

#[test]
fn remove_player_clears_both_roles() {
    let mut state = GameState::new();
    state.try_add_player_to_team(1, TEAM_RED_ID, PlayerType::Dispatcher, "A".to_string());
    state.try_add_player_to_team(2, TEAM_RED_ID, PlayerType::Agent, "B".to_string());
    state.remove_player(1);
    assert_eq!(dispatcher_id(&state, 0), None);
    assert_eq!(agent_ids(&state, 0), vec![2]);
    state.remove_player(2);
    assert!(agent_ids(&state, 0).is_empty());
    // removing an absent identity is a no-op
    state.remove_player(99);
    assert!(agent_ids(&state, 0).is_empty());
}

#[test]
fn get_player_by_id_finds_either_role() {
    let mut state = GameState::new();
    state.try_add_player_to_team(1, TEAM_RED_ID, PlayerType::Dispatcher, "A".to_string());
    state.try_add_player_to_team(2, TEAM_BLUE_ID, PlayerType::Agent, "B".to_string());
    assert_eq!(state.get_player_by_id(1).unwrap().name, "A");
    assert_eq!(state.get_player_by_id(2).unwrap().name, "B");
    assert!(state.get_player_by_id(3).is_none());
}

#[test]
fn set_player_name_renames_in_place() {
    let mut state = GameState::new();
    state.try_add_player_to_team(1, TEAM_RED_ID, PlayerType::Agent, "A".to_string());
    state.set_player_name(1, "Bob".to_string());
    assert_eq!(state.get_player_by_id(1).unwrap().name, "Bob");
}

#[test]
fn get_mut_player_by_id_mutates_stored_player() {
    let mut state = GameState::new();
    state.try_add_player_to_team(1, TEAM_RED_ID, PlayerType::Agent, "A".to_string());
    {
        let (p, _) = state.get_mut_player_by_id(1);
        p.rotation = 1234;
    }
    assert_eq!(state.get_player_by_id(1).unwrap().rotation, 1234);
}

#[test]
fn join_to_unknown_team_only_removes() {
    let mut state = GameState::new();
    state.try_add_player_to_team(1, TEAM_RED_ID, PlayerType::Agent, "A".to_string());
    state.try_add_player_to_team(1, 42, PlayerType::Agent, "A".to_string());
    assert!(state.get_player_by_id(1).is_none());
}
