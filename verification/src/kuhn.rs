//! The game-tree model of Kuhn poker: actions, histories, players, and the
//! state machine of legal moves and terminal detection.

use vstd::prelude::*;
use vstd::string::*;

verus! {

/// One move in the betting round.
#[derive(Clone, Copy, PartialEq, Eq, Hash, Debug, Structural)]
pub enum Action {
    Check,
    Bet,
    Call,
    Fold,
}

impl Action {
    /// The canonical name of the action, as it appears in history text and
    /// information-set keys.
    pub open spec fn spec_name(self) -> Seq<char> {
        match self {
            Action::Check => "Check"@,
            Action::Bet => "Bet"@,
            Action::Call => "Call"@,
            Action::Fold => "Fold"@,
        }
    }

    /// Renders the action's name.
    pub fn to_string(&self) -> (s: String)
        ensures
            s@ == self.spec_name(),
    {
        match self {
            Action::Check => String::from_str("Check"),
            Action::Bet => String::from_str("Bet"),
            Action::Call => String::from_str("Call"),
            Action::Fold => String::from_str("Fold"),
        }
    }
}

/// The text of a history: action names joined by `-`.
pub open spec fn spec_history_text(h: Seq<Action>) -> Seq<char>
    decreases h.len(),
{
    if h.len() == 0 {
        Seq::empty()
    } else if h.len() == 1 {
        h[0].spec_name()
    } else {
        spec_history_text(h.drop_last()) + seq!['-'] + h.last().spec_name()
    }
}

/// An ordered, append-only record of the actions taken so far.
#[derive(PartialEq, Eq, Hash, Debug)]
pub struct History {
    actions: Vec<Action>,
}

impl View for History {
    type V = Seq<Action>;

    closed spec fn view(&self) -> Seq<Action> {
        self.actions@
    }
}

impl Clone for History {
    fn clone(&self) -> (r: Self)
        ensures
            r@ == self@,
    {
        let mut copied: Vec<Action> = Vec::new();
        let mut i: usize = 0;
        while i < self.actions.len()
            invariant
                i <= self.actions.len(),
                copied@ == self.actions@.take(i as int),
            decreases self.actions.len() - i,
        {
            copied.push(self.actions[i]);
            proof {
                assert(self.actions@.take(i + 1) =~= self.actions@.take(i as int).push(
                    self.actions@[i as int],
                ));
            }
            i = i + 1;
        }
        proof {
            assert(copied@ =~= self.actions@);
        }
        History { actions: copied }
    }
}

impl History {
    /// An empty history.
    pub fn new() -> (h: History)
        ensures
            h@ == Seq::<Action>::empty(),
    {
        History { actions: Vec::new() }
    }

    /// Appends one action.
    pub fn add(&mut self, action: Action)
        ensures
            final(self)@ == old(self)@.push(action),
    {
        self.actions.push(action);
    }

    /// How many actions have been taken.
    pub fn len(&self) -> (n: usize)
        ensures
            n == self@.len(),
    {
        self.actions.len()
    }

    /// The action at position `i`.
    pub fn action_at(&self, i: usize) -> (a: Action)
        requires
            i < self@.len(),
        ensures
            a == self@[i as int],
    {
        self.actions[i]
    }

    /// Whether this history records the same actions, in the same order,
    /// as `other`.
    pub fn same_as(&self, other: &History) -> (r: bool)
        ensures
            r == (self@ == other@),
    {
        if self.actions.len() != other.actions.len() {
            return false;
        }
        let mut i: usize = 0;
        while i < self.actions.len()
            invariant
                i <= self.actions.len(),
                self.actions.len() == other.actions.len(),
                forall|j: int| 0 <= j < i ==> self.actions@[j] == other.actions@[j],
            decreases self.actions.len() - i,
        {
            if self.actions[i] != other.actions[i] {
                return false;
            }
            i = i + 1;
        }
        proof {
            assert(self@ =~= other@);
        }
        true
    }

    /// Renders the history as its action names joined by `-`.
    pub fn to_string(&self) -> (s: String)
        ensures
            s@ == spec_history_text(self@),
    {
        let mut s = String::new();
        let mut i: usize = 0;
        while i < self.actions.len()
            invariant
                i <= self.actions.len(),
                s@ == spec_history_text(self@.take(i as int)),
            decreases self.actions.len() - i,
        {
            if i > 0 {
                s.append("-");
            }
            let name = self.actions[i].to_string();
            s.append(name.as_str());
            proof {
                reveal_strlit("-");
                assert(self@.take(i + 1).drop_last() =~= self@.take(i as int));
                assert(s@ =~= spec_history_text(self@.take(i + 1)));
            }
            i = i + 1;
        }
        proof {
            assert(self@.take(self.actions@.len() as int) =~= self@);
        }
        s
    }
}

/// One of the two players.
#[derive(Clone, Copy, PartialEq, Eq, Debug, Structural)]
pub enum Player {
    Player1,
    Player2,
}

impl Player {
    /// The opponent of this player.
    pub open spec fn spec_other(self) -> Player {
        match self {
            Player::Player1 => Player::Player2,
            Player::Player2 => Player::Player1,
        }
    }

    /// Returns the opponent of this player.
    pub fn other(&self) -> (p: Player)
        ensures
            p == self.spec_other(),
    {
        match self {
            Player::Player1 => Player::Player2,
            Player::Player2 => Player::Player1,
        }
    }
}

/// Whether `h` is one of the fixed terminal action sequences: a showdown
/// (`Check-Check`, `Bet-Call`, `Check-Bet-Call`) or a fold ending
/// (`Bet-Fold`, `Check-Bet-Fold`).
pub open spec fn spec_is_terminal(h: Seq<Action>) -> bool {
    ||| (h.len() == 2 && h[0] == Action::Check && h[1] == Action::Check)
    ||| (h.len() == 2 && h[0] == Action::Bet && (h[1] == Action::Fold || h[1] == Action::Call))
    ||| (h.len() == 3 && h[0] == Action::Check && h[1] == Action::Bet && (h[2] == Action::Fold
        || h[2] == Action::Call))
}

/// The ordered list of legal actions, determined solely by the history
/// suffix; empty for terminal or unreachable histories.
pub open spec fn spec_legal_actions(terminal: bool, h: Seq<Action>) -> Seq<Action> {
    if terminal {
        Seq::empty()
    } else if h.len() == 0 {
        seq![Action::Check, Action::Bet]
    } else if h.len() == 1 && h[0] == Action::Check {
        seq![Action::Check, Action::Bet]
    } else if h.len() == 2 && h[0] == Action::Check && h[1] == Action::Bet {
        seq![Action::Call, Action::Fold]
    } else if h.len() == 1 && h[0] == Action::Bet {
        seq![Action::Call, Action::Fold]
    } else {
        Seq::empty()
    }
}

/// A point in the game tree: the path taken so far, whose turn it is, and
/// whether the game has ended.
#[derive(Clone, Debug)]
pub struct GameState {
    pub history: History,
    pub current_player: Player,
    pub terminal: bool,
}

impl GameState {
    /// The state invariant: `terminal` mirrors the fixed terminal set, and
    /// the acting player alternates, starting with player 1.
    pub open spec fn wf(self) -> bool {
        &&& self.terminal == spec_is_terminal(self.history@)
        &&& self.current_player == (if self.history@.len() % 2 == 0 {
            Player::Player1
        } else {
            Player::Player2
        })
    }

    /// The initial state: empty history, player 1 to act, not terminal.
    pub fn new() -> (s: GameState)
        ensures
            s.history@ == Seq::<Action>::empty(),
            s.current_player == Player::Player1,
            !s.terminal,
            s.wf(),
    {
        GameState { history: History::new(), current_player: Player::Player1, terminal: false }
    }

    /// The ordered legal actions at this state.
    pub fn legal_actions(&self) -> (v: Vec<Action>)
        ensures
            v@ == spec_legal_actions(self.terminal, self.history@),
    {
        let mut v: Vec<Action> = Vec::new();
        if self.terminal {
            proof {
                assert(v@ =~= spec_legal_actions(self.terminal, self.history@));
            }
            return v;
        }
        let n = self.history.len();
        if n == 0 || (n == 1 && self.history.action_at(0) == Action::Check) {
            v.push(Action::Check);
            v.push(Action::Bet);
        } else if (n == 2 && self.history.action_at(0) == Action::Check && self.history.action_at(1)
            == Action::Bet) || (n == 1 && self.history.action_at(0) == Action::Bet) {
            v.push(Action::Call);
            v.push(Action::Fold);
        }
        proof {
            assert(v@ =~= spec_legal_actions(self.terminal, self.history@));
        }
        v
    }

    /// Appends `action` to a copy of the history, flips the acting player,
    /// and recomputes whether the new history is terminal. The input state
    /// is unchanged.
    pub fn next_state(&self, action: Action) -> (s: GameState)
        ensures
            s.history@ == self.history@.push(action),
            s.current_player == self.current_player.spec_other(),
            s.terminal == spec_is_terminal(self.history@.push(action)),
            self.wf() ==> s.wf(),
    {
        let mut new_history = self.history.clone();
        new_history.add(action);
        let n = new_history.len();
        let terminal = if n == 2 {
            let a0 = new_history.action_at(0);
            let a1 = new_history.action_at(1);
            (a0 == Action::Check && a1 == Action::Check) || (a0 == Action::Bet && (a1
                == Action::Fold || a1 == Action::Call))
        } else if n == 3 {
            let a0 = new_history.action_at(0);
            let a1 = new_history.action_at(1);
            let a2 = new_history.action_at(2);
            a0 == Action::Check && a1 == Action::Bet && (a2 == Action::Fold || a2 == Action::Call)
        } else {
            false
        };
        GameState { history: new_history, current_player: self.current_player.other(), terminal }
    }
}

} // verus!
