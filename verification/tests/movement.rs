use libplen::constants::{DELTA_TIME, PLAYER_SPEED, TEAM_RED_ID};
use libplen::fx;
use libplen::gamestate::GameState;
use libplen::messages::ClientInput;
use libplen::player::{Player, PlayerType};

#[test]
fn fx_trig_exact_at_zero_and_quarter_turn() {
    assert_eq!(fx::fx_sin(0), 0);
    assert_eq!(fx::fx_cos(0), fx::FX_ONE);
    assert_eq!(fx::fx_sin(fx::FX_HALF_PI), fx::FX_ONE);
}

#[test]
fn fx_trig_stays_bounded() {
    let mut a: i64 = -20_000;
    while a <= 20_000 {
        assert!(fx::fx_sin(a).abs() <= fx::FX_ONE);
        assert!(fx::fx_cos(a).abs() <= fx::FX_ONE);
        a += 137;
    }
}

#[test]
fn fx_floor_mod_is_mathematical() {
    assert_eq!(fx::fx_floor_mod(7, 10), 7);
    assert_eq!(fx::fx_floor_mod(-1, 10), 9);
    assert_eq!(fx::fx_floor_mod(-10, 10), 0);
    assert_eq!(fx::fx_floor_mod(25, 10), 5);
}

#[test]
fn fx_mul_scales_exactly() {
    assert_eq!(fx::fx_mul(1500, 2000), 3000);
    assert_eq!(fx::fx_mul(-1500, 1000), -1500);
    assert_eq!(fx::fx_mul(-1500, -1000), 1500);
    assert_eq!(fx::fx_mul(1, 999), 0); // rounded toward zero
}

#[test]
fn unrotated_movement_scenario() {
    // rotation 0, position (0, 0), input (0, -1) for one full second:
    // the player moves straight "up" by exactly the player speed
    let mut p = Player::new(1, "A".to_string(), PlayerType::Agent);
    let input = ClientInput { x_input: 0, y_input: -1000, rotation: 0 };
    p.update(1000, &input);
    assert_eq!(p.position.x, 0);
    assert_eq!(p.position.y, -PLAYER_SPEED);
    assert_eq!(p.rotation, 0);
}

#[test]
fn one_tick_moves_by_speed_times_delta() {
    let mut p = Player::new(1, "A".to_string(), PlayerType::Agent);
    let input = ClientInput { x_input: 1000, y_input: 0, rotation: 0 };
    p.update(DELTA_TIME, &input);
    // 1.5 world units per second for a hundredth of a second
    assert_eq!(p.position.x, PLAYER_SPEED * DELTA_TIME / 1000);
    assert_eq!(p.position.y, 0);
}

#[test]
fn turn_is_instantaneous_and_reduced() {
    let mut p = Player::new(1, "A".to_string(), PlayerType::Agent);
    let input = ClientInput { x_input: 0, y_input: 0, rotation: 100 };
    p.update(DELTA_TIME, &input);
    // the turn input is subtracted whole, not scaled by the tick duration
    assert_eq!(p.rotation, fx::FX_TAU - 100);
}

#[test]
fn half_turn_reverses_movement() {
    let mut p = Player::new(1, "A".to_string(), PlayerType::Agent);
    // first turn half a turn, then move along the local "up"
    p.update(DELTA_TIME, &ClientInput { x_input: 0, y_input: 0, rotation: fx::FX_PI });
    assert_eq!(p.rotation, fx::FX_PI);
    let before_y = p.position.y;
    p.update(1000, &ClientInput { x_input: 0, y_input: -1000, rotation: 0 });
    // facing the other way, local "up" is world "down"
    assert!(p.position.y > before_y);
}

#[test]
fn advance_player_moves_only_the_target() {
    let mut state = GameState::new();
    state.try_add_player_to_team(1, TEAM_RED_ID, PlayerType::Agent, "A".to_string());
    state.try_add_player_to_team(2, TEAM_RED_ID, PlayerType::Agent, "B".to_string());
    let input = ClientInput { x_input: 1000, y_input: 0, rotation: 0 };
    state.advance_player(1, 1000, &input);
    assert_eq!(state.get_player_by_id(1).unwrap().position.x, PLAYER_SPEED);
    assert_eq!(state.get_player_by_id(2).unwrap().position.x, 0);
}
