use kuhn_cfr::kuhn::Action;
use kuhn_cfr::kuhn::GameState;
use kuhn_cfr::kuhn::History;
use kuhn_cfr::kuhn::Player;

#[test]
fn test_action_display() {
    assert_eq!(Action::Check.to_string(), "Check");
    assert_eq!(Action::Bet.to_string(), "Bet");
    assert_eq!(Action::Call.to_string(), "Call");
    assert_eq!(Action::Fold.to_string(), "Fold");
}

#[test]
fn test_player_other() {
    assert_eq!(Player::Player1.other(), Player::Player2);
    assert_eq!(Player::Player2.other(), Player::Player1);
}

#[test]
fn test_history_add_to_string() {
    let state = GameState::new();
    assert_eq!(state.legal_actions(), vec![Action::Check, Action::Bet]);

    let state = state.next_state(Action::Check);
    assert_eq!(state.legal_actions(), vec![Action::Check, Action::Bet]);

    let state = state.next_state(Action::Bet);
    assert_eq!(state.legal_actions(), vec![Action::Call, Action::Fold]);
}

#[test]
fn test_game_state_terminal() {
    let state = GameState::new()
        .next_state(Action::Check)
        .next_state(Action::Check);
    assert!(state.terminal);

    let state = GameState::new()
        .next_state(Action::Bet)
        .next_state(Action::Call);
    assert!(state.terminal);
}

#[test]
fn test_history_text_joins_names() {
    let mut h = History::new();
    assert_eq!(h.to_string(), "");
    h.add(Action::Check);
    assert_eq!(h.to_string(), "Check");
    h.add(Action::Bet);
    assert_eq!(h.to_string(), "Check-Bet");
    h.add(Action::Fold);
    assert_eq!(h.to_string(), "Check-Bet-Fold");
}

#[test]
fn test_terminal_state_has_no_legal_actions() {
    let state = GameState::new()
        .next_state(Action::Bet)
        .next_state(Action::Fold);
    assert!(state.terminal);
    assert_eq!(state.legal_actions(), Vec::<Action>::new());
}

#[test]
fn test_next_state_alternates_players() {
    let state = GameState::new();
    assert_eq!(state.current_player, Player::Player1);
    let state = state.next_state(Action::Check);
    assert_eq!(state.current_player, Player::Player2);
    let state = state.next_state(Action::Bet);
    assert_eq!(state.current_player, Player::Player1);
}
