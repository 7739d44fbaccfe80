use kuhn_cfr::cfr::cfr;
use kuhn_cfr::cfr::deal_cards;
use kuhn_cfr::cfr::get_payoff;
use kuhn_cfr::cfr::make_info_set_key;
use kuhn_cfr::cfr::CFRNode;
use kuhn_cfr::cfr::Card;
use kuhn_cfr::cfr::InfoSetMap;
use kuhn_cfr::cfr::SCALE;
use kuhn_cfr::kuhn::Action;
use kuhn_cfr::kuhn::GameState;

#[test]
fn test_cfr_node_creation() {
    let actions = vec![Action::Check, Action::Bet];
    let node = CFRNode::new(actions.clone());

    assert_eq!(node.actions.len(), 2);
    assert_eq!(node.regret_sum[0], 0);
    assert_eq!(node.regret_sum[1], 0);
    assert_eq!(node.strategy_sum[0], 0);
    assert_eq!(node.strategy_sum[1], 0);
}

#[test]
fn test_info_set_key_generation() {
    assert_eq!(make_info_set_key('J', ""), "J");
    assert_eq!(make_info_set_key('Q', "Check"), "Q-Check");
    assert_eq!(make_info_set_key('K', "Bet-Call"), "K-Bet-Call");
}

#[test]
fn test_get_strategy_uniform() {
    // With all regrets at zero the strategy is uniform.
    let actions = vec![Action::Check, Action::Bet];
    let node = CFRNode::new(actions);
    let strategy = node.get_strategy();

    assert_eq!(strategy[0], SCALE / 2);
    assert_eq!(strategy[1], SCALE / 2);
}

#[test]
fn test_get_strategy_with_regret() {
    // Positive regrets get probability in proportion: 3 to 1.
    let actions = vec![Action::Check, Action::Bet];
    let mut node = CFRNode::new(actions);

    node.regret_sum[0] = 3 * SCALE;
    node.regret_sum[1] = 1 * SCALE;

    let strategy = node.get_strategy();

    assert_eq!(strategy[0], 750_000);
    assert_eq!(strategy[1], 250_000);
}

#[test]
fn test_get_average_strategy() {
    // Accumulated weights 60 to 40 average to 0.6 and 0.4.
    let actions = vec![Action::Check, Action::Bet];
    let mut node = CFRNode::new(actions);

    node.strategy_sum[0] = 60 * SCALE;
    node.strategy_sum[1] = 40 * SCALE;

    let avg_strategy = node.get_average_strategy();

    assert_eq!(avg_strategy[0], 600_000);
    assert_eq!(avg_strategy[1], 400_000);
}

#[test]
fn test_card_rank() {
    assert_eq!(Card::Jack.rank(), 11);
    assert_eq!(Card::Queen.rank(), 12);
    assert_eq!(Card::King.rank(), 13);
    assert!(Card::King.rank() > Card::Queen.rank());
}

#[test]
fn test_card_to_char() {
    assert_eq!(Card::Jack.to_char(), 'J');
    assert_eq!(Card::Queen.to_char(), 'Q');
    assert_eq!(Card::King.to_char(), 'K');
}

#[test]
fn test_deal_cards() {
    let deals = deal_cards();
    assert_eq!(deals.len(), 6);

    assert_eq!(deals[0], (Card::Jack, Card::Queen));
}

#[test]
fn test_payoff_check_check() {
    assert_eq!(get_payoff(Card::King, Card::Queen, "Check-Check"), 1);
    assert_eq!(get_payoff(Card::Jack, Card::Queen, "Check-Check"), -1);
}

#[test]
fn test_payoff_bet_fold() {
    assert_eq!(get_payoff(Card::Jack, Card::King, "Bet-Fold"), 1);
}

#[test]
fn test_payoff_bet_call() {
    assert_eq!(get_payoff(Card::King, Card::Jack, "Bet-Call"), 2);
    assert_eq!(get_payoff(Card::Jack, Card::King, "Bet-Call"), -2);
}

#[test]
fn test_payoff_check_bet_fold() {
    assert_eq!(get_payoff(Card::Queen, Card::King, "Check-Bet-Fold"), -1);
}

#[test]
fn test_payoff_check_bet_call() {
    assert_eq!(get_payoff(Card::King, Card::Queen, "Check-Bet-Call"), 2);
    assert_eq!(get_payoff(Card::Jack, Card::Queen, "Check-Bet-Call"), -2);
}

#[test]
fn test_cfr_single_iteration() {
    let state = GameState::new();
    let mut info_sets = InfoSetMap::new();

    let _value = cfr(&state, Card::Jack, Card::Queen, &mut info_sets);

    assert!(info_sets.len() > 0);

    assert!(info_sets.contains_key("J"));
}

#[test]
fn test_cfr_multiple_iterations() {
    let mut info_sets = InfoSetMap::new();

    for _ in 0..10 {
        for (card1, card2) in deal_cards() {
            let state = GameState::new();
            cfr(&state, card1, card2, &mut info_sets);
        }
    }

    assert!(info_sets.len() > 0);

    let j_node = info_sets.get("J").unwrap();
    let total_strategy: i64 = j_node.strategy_sum.iter().sum();
    assert!(total_strategy > 0);
}
