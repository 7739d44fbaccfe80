use kuhn_cfr::cfr::cfr;
use kuhn_cfr::cfr::deal_cards;
use kuhn_cfr::cfr::get_payoff;
use kuhn_cfr::cfr::train;
use kuhn_cfr::cfr::CFRNode;
use kuhn_cfr::cfr::Card;
use kuhn_cfr::cfr::InfoSetMap;
use kuhn_cfr::cfr::SCALE;
use kuhn_cfr::kuhn::Action;
use kuhn_cfr::kuhn::GameState;

// The strategy is a probability distribution: nonnegative entries that add
// up to one, short of it by less than one rounding unit per action.
#[test]
fn strategy_sums_to_one() {
    let configs: Vec<Vec<i64>> = vec![
        vec![0, 0],
        vec![-3 * SCALE, -SCALE],
        vec![3 * SCALE, SCALE],
        vec![7, 13],
        vec![SCALE, 0],
        vec![-SCALE, 5 * SCALE],
    ];
    for regrets in configs {
        let mut node = CFRNode::new(vec![Action::Check, Action::Bet]);
        node.regret_sum = regrets;
        let strategy = node.get_strategy();
        let total: i64 = strategy.iter().sum();
        assert!(total <= SCALE);
        assert!(total > SCALE - 2);
        assert!(strategy.iter().all(|&p| p >= 0 && p <= SCALE));
    }
    // Three actions: the uniform split loses at most one unit per action.
    let node = CFRNode::new(vec![Action::Check, Action::Bet, Action::Fold]);
    let strategy = node.get_strategy();
    let total: i64 = strategy.iter().sum();
    assert!(total <= SCALE && total > SCALE - 3);
    assert!(strategy.iter().all(|&p| p == SCALE / 3));
}

// Deal enumeration: exactly six ordered pairs, no pair of equal cards,
// first pair (lowest, middle), and every ordered pair of distinct cards
// appears once.
#[test]
fn deal_enumeration_is_exhaustive() {
    let deals = deal_cards();
    assert_eq!(deals.len(), 6);
    assert_eq!(deals[0], (Card::Jack, Card::Queen));
    for &(c1, c2) in deals.iter() {
        assert_ne!(c1, c2);
    }
    for i in 0..deals.len() {
        for j in 0..deals.len() {
            if i != j {
                assert_ne!(deals[i], deals[j]);
            }
        }
    }
}

// Payoff antisymmetry under swapping players, mirroring the history where
// the roles differ; plus the fixed fold and showdown values and the total
// fallback.
#[test]
fn payoff_antisymmetry() {
    for &(c1, c2) in deal_cards().iter() {
        assert_eq!(
            get_payoff(c1, c2, "Check-Check"),
            -get_payoff(c2, c1, "Check-Check")
        );
        assert_eq!(
            get_payoff(c1, c2, "Bet-Fold"),
            -get_payoff(c2, c1, "Check-Bet-Fold")
        );
        assert_eq!(
            get_payoff(c1, c2, "Bet-Call"),
            -get_payoff(c2, c1, "Check-Bet-Call")
        );
    }
    assert_eq!(get_payoff(Card::Jack, Card::King, "Bet-Fold"), 1);
    assert_eq!(get_payoff(Card::Queen, Card::King, "Check-Bet-Fold"), -1);
    assert_eq!(get_payoff(Card::King, Card::Queen, "Bet-Call"), 2);
    assert_eq!(get_payoff(Card::King, Card::Queen, "Bet"), 0);
    assert_eq!(get_payoff(Card::King, Card::Queen, ""), 0);
    assert_eq!(get_payoff(Card::King, Card::Queen, "Fold-Fold"), 0);
}

// One solver call on a fresh store populates at least the root information
// set of the first player's card, for every deal.
#[test]
fn single_call_populates_root() {
    for (card1, card2) in deal_cards() {
        let mut info_sets = InfoSetMap::new();
        let state = GameState::new();
        cfr(&state, card1, card2, &mut info_sets);
        let root_key = String::from(card1.to_char());
        assert!(info_sets.contains_key(root_key.as_str()));
        assert!(info_sets.len() > 0);
    }
}

// Convergence regression check, with generous tolerances: after many
// training passes the averaged strategies settle at this solver's fixed
// point, far from the uniform start. The root strategy for the lowest card
// lands at the never-bluff edge of Kuhn poker's equilibrium family (its
// bet frequency drops from one half toward zero, not above one third), and
// the highest card ends up always betting.
#[test]
fn training_converges_near_equilibrium() {
    let info_sets = train(10_000);

    let jack = info_sets.get("J").expect("root information set for the low card");
    let avg = jack.get_average_strategy();
    let bet_at = jack
        .actions
        .iter()
        .position(|&a| a == Action::Bet)
        .expect("a bet action at the root");
    let jack_bet_freq = avg[bet_at] as f64 / SCALE as f64;
    assert!(
        jack_bet_freq < 1.0 / 3.0,
        "low-card bet frequency {} above the equilibrium family's bound",
        jack_bet_freq
    );
    assert!(
        jack_bet_freq < 0.05,
        "low-card bet frequency {} did not settle near this solver's fixed point",
        jack_bet_freq
    );

    let king = info_sets.get("K").expect("root information set for the high card");
    let avg = king.get_average_strategy();
    let bet_at = king
        .actions
        .iter()
        .position(|&a| a == Action::Bet)
        .expect("a bet action at the root");
    let king_bet_freq = avg[bet_at] as f64 / SCALE as f64;
    assert!(
        king_bet_freq > 0.95,
        "high-card bet frequency {} did not converge to betting",
        king_bet_freq
    );
}

// Training is deterministic: two runs with the same iteration count leave
// identical stores.
#[test]
fn training_is_deterministic() {
    let a = train(200);
    let b = train(200);
    assert_eq!(a.len(), b.len());
    for i in 0..a.len() {
        assert_eq!(a.key_at(i), b.key_at(i));
        let na = a.node_at(i);
        let nb = b.node_at(i);
        assert_eq!(na.actions, nb.actions);
        assert_eq!(na.regret_sum, nb.regret_sum);
        assert_eq!(na.strategy_sum, nb.strategy_sum);
    }
}

// The averaged strategy with no accumulated weight is uniform; lookups on
// keys never visited fail.
#[test]
fn average_strategy_edge_cases() {
    let node = CFRNode::new(vec![Action::Call, Action::Fold]);
    let avg = node.get_average_strategy();
    assert_eq!(avg, vec![SCALE / 2, SCALE / 2]);

    let empty = InfoSetMap::new();
    assert_eq!(empty.len(), 0);
    assert!(!empty.contains_key("J"));
    assert!(empty.get("K-Bet").is_none());
}

// The store created by one full pass holds each visited information set
// exactly once, keyed by card letter and history text.
#[test]
fn store_keys_after_one_pass() {
    let info_sets = train(1);
    // All twelve information sets of the game appear after one full pass
    // over the six deals.
    assert_eq!(info_sets.len(), 12);
    for key in [
        "J", "Q", "K", "J-Check", "Q-Check", "K-Check", "J-Bet", "Q-Bet", "K-Bet",
        "J-Check-Bet", "Q-Check-Bet", "K-Check-Bet",
    ] {
        assert!(info_sets.contains_key(key), "missing information set {}", key);
    }
}
