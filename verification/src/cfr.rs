//! The CFR solver: cards and deals, payoff resolution, the information-set
//! store, the regret-matching strategy engine, and the recursive solver.

use crate::kuhn::Action;
use crate::kuhn::GameState;
use crate::kuhn::History;
use crate::kuhn::Player;
use crate::kuhn::spec_history_text;
use crate::kuhn::spec_is_terminal;
use crate::kuhn::spec_legal_actions;
use vstd::prelude::*;
use vstd::string::*;

verus! {

/// Fixed-point scale: the `i64` representation of probability one. All
/// regrets, strategy weights, probabilities and expected values in this
/// module count millionths.
pub const SCALE: i64 = 1_000_000;

/// The card of a player: one of the three ranks of the deck.
#[derive(Clone, Copy, PartialEq, Eq, Hash, Debug, Structural)]
pub enum Card {
    Jack,
    Queen,
    King,
}

impl Card {
    /// The rank used for ordering at a showdown.
    pub open spec fn spec_rank(self) -> int {
        match self {
            Card::Jack => 11,
            Card::Queen => 12,
            Card::King => 13,
        }
    }

    /// The one-letter name of the card, used in information-set keys.
    pub open spec fn spec_char(self) -> char {
        match self {
            Card::Jack => 'J',
            Card::Queen => 'Q',
            Card::King => 'K',
        }
    }

    /// Converts the card to its one-letter name.
    pub fn to_char(&self) -> (c: char)
        ensures
            c == self.spec_char(),
    {
        match self {
            Card::Jack => 'J',
            Card::Queen => 'Q',
            Card::King => 'K',
        }
    }

    /// The rank used for ordering at a showdown.
    pub fn rank(&self) -> (r: i32)
        ensures
            r as int == self.spec_rank(),
    {
        match self {
            Card::Jack => 11,
            Card::Queen => 12,
            Card::King => 13,
        }
    }
}

/// The fixed enumeration of deals: every ordered pair of two distinct cards.
pub open spec fn spec_deals() -> Seq<(Card, Card)> {
    seq![
        (Card::Jack, Card::Queen),
        (Card::Jack, Card::King),
        (Card::Queen, Card::Jack),
        (Card::Queen, Card::King),
        (Card::King, Card::Jack),
        (Card::King, Card::Queen),
    ]
}

/// Enumerates all six ways of dealing two distinct cards out of the
/// three-card deck, in the fixed order the trainer uses.
pub fn deal_cards() -> (v: Vec<(Card, Card)>)
    ensures
        v@ == spec_deals(),
        v@.len() == 6,
        forall|i: int| 0 <= i < v@.len() ==> (#[trigger] v@[i]).0 != v@[i].1,
        v@[0] == (Card::Jack, Card::Queen),
{
    let mut v: Vec<(Card, Card)> = Vec::new();
    v.push((Card::Jack, Card::Queen));
    v.push((Card::Jack, Card::King));
    v.push((Card::Queen, Card::Jack));
    v.push((Card::Queen, Card::King));
    v.push((Card::King, Card::Jack));
    v.push((Card::King, Card::Queen));
    proof {
        assert(v@ =~= spec_deals());
    }
    v
}

/// The payoff table over action sequences, from player 1's perspective:
/// `Check-Check` settles a pot of 2 by rank, `Bet-Fold` wins 1, a fold after
/// `Check-Bet` loses 1, and either call settles a pot of 4 by rank. Any
/// other (non-terminal) sequence is worth 0, keeping the function total.
pub open spec fn spec_payoff_actions(card1: Card, card2: Card, h: Seq<Action>) -> int {
    if h =~= seq![Action::Check, Action::Check] {
        if card1.spec_rank() > card2.spec_rank() {
            1
        } else {
            -1
        }
    } else if h =~= seq![Action::Bet, Action::Fold] {
        1
    } else if h =~= seq![Action::Check, Action::Bet, Action::Fold] {
        -1
    } else if h =~= seq![Action::Bet, Action::Call] || h =~= seq![
        Action::Check,
        Action::Bet,
        Action::Call,
    ] {
        if card1.spec_rank() > card2.spec_rank() {
            2
        } else {
            -2
        }
    } else {
        0
    }
}

/// The same payoff table, keyed by the textual form of the history.
pub open spec fn spec_payoff(card1: Card, card2: Card, text: Seq<char>) -> int {
    if text == "Check-Check"@ {
        if card1.spec_rank() > card2.spec_rank() {
            1
        } else {
            -1
        }
    } else if text == "Bet-Fold"@ {
        1
    } else if text == "Check-Bet-Fold"@ {
        -1
    } else if text == "Bet-Call"@ || text == "Check-Bet-Call"@ {
        if card1.spec_rank() > card2.spec_rank() {
            2
        } else {
            -2
        }
    } else {
        0
    }
}

/// Whether two string slices hold the same characters.
fn str_equal(a: &str, b: &str) -> (r: bool)
    ensures
        r == (a@ == b@),
{
    let sa = String::from_str(a);
    let sb = String::from_str(b);
    sa == sb
}

/// The payoff of a finished game, from player 1's perspective (player 2's
/// payoff is its negation), given the textual history. Unrecognized text
/// yields 0.
pub fn get_payoff(card1: Card, card2: Card, history: &str) -> (p: i32)
    ensures
        p as int == spec_payoff(card1, card2, history@),
        -2 <= p <= 2,
{
    if str_equal(history, "Check-Check") {
        if card1.rank() > card2.rank() {
            1
        } else {
            -1
        }
    } else if str_equal(history, "Bet-Fold") {
        1
    } else if str_equal(history, "Check-Bet-Fold") {
        -1
    } else if str_equal(history, "Bet-Call") || str_equal(history, "Check-Bet-Call") {
        if card1.rank() > card2.rank() {
            2
        } else {
            -2
        }
    } else {
        0
    }
}

/// The payoff of a finished game, resolved directly on the ordered action
/// sequence rather than on its textual form; the recognized sequences and
/// their values are exactly those of `get_payoff`.
pub fn payoff_from_actions(card1: Card, card2: Card, history: &History) -> (p: i32)
    ensures
        p as int == spec_payoff_actions(card1, card2, history@),
        -2 <= p <= 2,
{
    let n = history.len();
    if n == 2 {
        let a0 = history.action_at(0);
        let a1 = history.action_at(1);
        if a0 == Action::Check && a1 == Action::Check {
            if card1.rank() > card2.rank() {
                1
            } else {
                -1
            }
        } else if a0 == Action::Bet && a1 == Action::Fold {
            1
        } else if a0 == Action::Bet && a1 == Action::Call {
            if card1.rank() > card2.rank() {
                2
            } else {
                -2
            }
        } else {
            0
        }
    } else if n == 3 {
        let a0 = history.action_at(0);
        let a1 = history.action_at(1);
        let a2 = history.action_at(2);
        if a0 == Action::Check && a1 == Action::Bet && a2 == Action::Fold {
            -1
        } else if a0 == Action::Check && a1 == Action::Bet && a2 == Action::Call {
            if card1.rank() > card2.rank() {
                2
            } else {
                -2
            }
        } else {
            0
        }
    } else {
        0
    }
}

/// Swapping the players and mirroring the history (the first action of the
/// mirrored game answers a check) negates the payoff: the game is zero-sum
/// and symmetric between the two seats. Stated for the showdown endings and
/// for the two fold endings, which mirror one another; the cards of a deal
/// are never equal.
pub proof fn lemma_payoff_antisymmetric(card1: Card, card2: Card)
    requires
        card1 != card2,
    ensures
        spec_payoff(card1, card2, "Check-Check"@) == -spec_payoff(card2, card1, "Check-Check"@),
        spec_payoff(card1, card2, "Bet-Fold"@) == -spec_payoff(card2, card1, "Check-Bet-Fold"@),
        spec_payoff(card1, card2, "Bet-Call"@) == -spec_payoff(card2, card1, "Check-Bet-Call"@),
{
    lemma_payoff_antisymmetric_support();
}

/// The two payoff forms are one table: on every terminal history,
/// resolving the ordered action sequence agrees with resolving its
/// rendered text.
pub proof fn lemma_payoff_text_agrees(card1: Card, card2: Card, h: Seq<Action>)
    requires
        spec_is_terminal(h),
    ensures
        spec_payoff(card1, card2, spec_history_text(h)) == spec_payoff_actions(card1, card2, h),
{
    reveal_strlit("Check");
    reveal_strlit("Bet");
    reveal_strlit("Call");
    reveal_strlit("Fold");
    reveal_strlit("Check-Check");
    reveal_strlit("Bet-Fold");
    reveal_strlit("Check-Bet-Fold");
    reveal_strlit("Bet-Call");
    reveal_strlit("Check-Bet-Call");
    if h.len() == 2 {
        assert(spec_history_text(h.drop_last()) == h[0].spec_name());
        if h[0] == Action::Check && h[1] == Action::Check {
            assert(h =~= seq![Action::Check, Action::Check]);
            assert(spec_history_text(h) =~= "Check-Check"@);
        } else if h[0] == Action::Bet && h[1] == Action::Fold {
            assert(h =~= seq![Action::Bet, Action::Fold]);
            assert(spec_history_text(h) =~= "Bet-Fold"@);
        } else {
            assert(h[0] == Action::Bet && h[1] == Action::Call);
            assert(h =~= seq![Action::Bet, Action::Call]);
            assert(spec_history_text(h) =~= "Bet-Call"@);
        }
    } else {
        assert(h.len() == 3 && h[0] == Action::Check && h[1] == Action::Bet);
        let h2 = h.drop_last();
        let d1 = h2.drop_last();
        assert(d1 =~= seq![Action::Check]);
        assert(spec_history_text(d1) == "Check"@);
        assert(h2.last() == Action::Bet);
        assert(spec_history_text(h2) == spec_history_text(d1) + seq!['-'] + "Bet"@);
        if h[2] == Action::Fold {
            assert(h =~= seq![Action::Check, Action::Bet, Action::Fold]);
            assert(spec_history_text(h) =~= "Check-Bet-Fold"@);
        } else {
            assert(h[2] == Action::Call);
            assert(h =~= seq![Action::Check, Action::Bet, Action::Call]);
            assert(spec_history_text(h) =~= "Check-Bet-Call"@);
        }
    }
    lemma_payoff_antisymmetric_support();
}

/// The five terminal texts are pairwise distinct; shared by the payoff
/// laws so that each table row is reached through the right branch.
proof fn lemma_payoff_antisymmetric_support()
    ensures
        "Check-Check"@ != "Bet-Fold"@,
        "Check-Check"@ != "Check-Bet-Fold"@,
        "Check-Check"@ != "Bet-Call"@,
        "Check-Check"@ != "Check-Bet-Call"@,
        "Bet-Fold"@ != "Check-Bet-Fold"@,
        "Bet-Fold"@ != "Bet-Call"@,
        "Bet-Fold"@ != "Check-Bet-Call"@,
        "Check-Bet-Fold"@ != "Bet-Call"@,
        "Check-Bet-Fold"@ != "Check-Bet-Call"@,
        "Bet-Call"@ != "Check-Bet-Call"@,
{
    reveal_strlit("Check-Check");
    reveal_strlit("Bet-Fold");
    reveal_strlit("Check-Bet-Fold");
    reveal_strlit("Bet-Call");
    reveal_strlit("Check-Bet-Call");
    assert("Bet-Fold"@.len() == 8 && "Bet-Call"@.len() == 8 && "Check-Check"@.len() == 11
        && "Check-Bet-Fold"@.len() == 14 && "Check-Bet-Call"@.len() == 14);
    assert("Bet-Fold"@ != "Bet-Call"@) by {
        assert("Bet-Fold"@[4] == 'F' && "Bet-Call"@[4] == 'C');
    }
    assert("Check-Bet-Fold"@ != "Check-Bet-Call"@) by {
        assert("Check-Bet-Fold"@[10] == 'F' && "Check-Bet-Call"@[10] == 'C');
    }
}

/// The text of an information-set key: the card's letter, then `-` and the
/// observed history text when that text is nonempty.
pub open spec fn spec_info_set_key(card: char, text: Seq<char>) -> Seq<char> {
    if text.len() == 0 {
        seq![card]
    } else {
        seq![card, '-'] + text
    }
}

/// Builds the information-set key for a card letter and a history text.
pub fn make_info_set_key(card: char, history: &str) -> (key: String)
    requires
        card == 'J' || card == 'Q' || card == 'K',
    ensures
        key@ == spec_info_set_key(card, history@),
{
    proof {
        reveal_strlit("J");
        reveal_strlit("Q");
        reveal_strlit("K");
        reveal_strlit("-");
    }
    let mut key = if card == 'J' {
        String::from_str("J")
    } else if card == 'Q' {
        String::from_str("Q")
    } else {
        String::from_str("K")
    };
    if !history.is_empty() {
        key.append("-");
        key.append(history);
        proof {
            assert(key@ =~= spec_info_set_key(card, history@));
        }
    } else {
        proof {
            assert(key@ =~= spec_info_set_key(card, history@));
        }
    }
    key
}

/// The sum of a sequence of fixed-point numbers, as an unbounded integer.
pub open spec fn sum_of(s: Seq<i64>) -> int
    decreases s.len(),
{
    if s.len() == 0 {
        0
    } else {
        sum_of(s.drop_last()) + s.last()
    }
}

/// The nonnegative part of a regret: `max(r, 0)`.
pub open spec fn pos_part(r: i64) -> i64 {
    if r > 0 {
        r
    } else {
        0
    }
}

/// The sequence of nonnegative parts of a regret sequence.
pub open spec fn pos_parts(s: Seq<i64>) -> Seq<i64> {
    Seq::new(s.len(), |i: int| pos_part(s[i]))
}

/// The distribution proportional to the nonnegative weights `w`: each entry
/// is `w[i] * SCALE / sum_of(w)`, rounded down.
pub open spec fn spec_ratio_dist(w: Seq<i64>) -> Seq<i64> {
    Seq::new(w.len(), |i: int| (w[i] * SCALE / sum_of(w)) as i64)
}

/// The uniform distribution over `len` entries: each is `SCALE / len`,
/// rounded down.
pub open spec fn spec_uniform_dist(len: nat) -> Seq<i64> {
    Seq::new(len, |i: int| (SCALE as int / len as int) as i64)
}

/// Regret matching: proportional to positive regrets when any regret is
/// positive, else uniform.
pub open spec fn spec_strategy(regret_sum: Seq<i64>) -> Seq<i64> {
    if sum_of(pos_parts(regret_sum)) > 0 {
        spec_ratio_dist(pos_parts(regret_sum))
    } else {
        spec_uniform_dist(regret_sum.len())
    }
}

/// The time-averaged strategy: proportional to the accumulated strategy
/// weights when any weight is positive, else uniform.
pub open spec fn spec_average(strategy_sum: Seq<i64>) -> Seq<i64> {
    if sum_of(strategy_sum) > 0 {
        spec_ratio_dist(strategy_sum)
    } else {
        spec_uniform_dist(strategy_sum.len())
    }
}

/// Appending one element to a prefix adds that element to the prefix sum.
proof fn lemma_sum_take_succ(s: Seq<i64>, i: int)
    requires
        0 <= i < s.len(),
    ensures
        sum_of(s.take(i + 1)) == sum_of(s.take(i)) + s[i],
{
    assert(s.take(i + 1).drop_last() =~= s.take(i));
    assert(s.take(i + 1).last() == s[i]);
}

/// A sum of nonnegative entries is nonnegative.
proof fn lemma_sum_nonneg(s: Seq<i64>)
    requires
        forall|i: int| 0 <= i < s.len() ==> s[i] >= 0,
    ensures
        sum_of(s) >= 0,
    decreases s.len(),
{
    if s.len() > 0 {
        lemma_sum_nonneg(s.drop_last());
    }
}

/// For nonnegative entries, a prefix sum never exceeds the whole sum.
proof fn lemma_sum_prefix_le(s: Seq<i64>, k: int)
    requires
        forall|i: int| 0 <= i < s.len() ==> s[i] >= 0,
        0 <= k <= s.len(),
    ensures
        sum_of(s.take(k)) <= sum_of(s),
    decreases s.len() - k,
{
    if k == s.len() {
        assert(s.take(k) =~= s);
    } else {
        lemma_sum_take_succ(s, k);
        lemma_sum_prefix_le(s, k + 1);
    }
}

/// For nonnegative entries, each element is at most the whole sum.
proof fn lemma_element_le_sum(s: Seq<i64>, i: int)
    requires
        forall|j: int| 0 <= j < s.len() ==> s[j] >= 0,
        0 <= i < s.len(),
    ensures
        s[i] <= sum_of(s),
{
    lemma_sum_take_succ(s, i);
    lemma_sum_prefix_le(s, i + 1);
    assert(forall|j: int| 0 <= j < s.take(i).len() ==> s.take(i)[j] >= 0);
    lemma_sum_nonneg(s.take(i));
}

/// The sum of a sequence whose entries are all `c`.
proof fn lemma_sum_constant(s: Seq<i64>, c: i64)
    requires
        forall|i: int| 0 <= i < s.len() ==> s[i] == c,
    ensures
        sum_of(s) == s.len() * c,
    decreases s.len(),
{
    if s.len() > 0 {
        lemma_sum_constant(s.drop_last(), c);
        assert(s.len() * c == (s.len() - 1) * c + c) by (nonlinear_arith)
            requires
                s.len() >= 1,
        ;
    }
}

/// Multiplied-out running bounds for the rounded proportional shares: over
/// the first `k` weights, `sum_of(w) * (sum of shares)` sits between
/// `SCALE * (sum of weights) - k * (sum_of(w) - 1)` and
/// `SCALE * (sum of weights)`.
proof fn lemma_ratio_prefix(w: Seq<i64>, k: int)
    requires
        forall|i: int| 0 <= i < w.len() ==> w[i] >= 0,
        sum_of(w) > 0,
        0 <= k <= w.len(),
    ensures
        sum_of(w) * sum_of(spec_ratio_dist(w).take(k)) <= SCALE * sum_of(w.take(k)),
        sum_of(w) * sum_of(spec_ratio_dist(w).take(k)) >= SCALE * sum_of(w.take(k)) - k * (sum_of(
            w,
        ) - 1),
    decreases k,
{
    let s = sum_of(w);
    let q = spec_ratio_dist(w);
    if k == 0 {
        assert(sum_of(q.take(0)) == 0);
        assert(sum_of(w.take(0)) == 0);
    } else {
        let j = k - 1;
        lemma_ratio_prefix(w, j);
        lemma_sum_take_succ(q, j);
        lemma_sum_take_succ(w, j);
        let qv = w[j] * SCALE / s;
        lemma_element_le_sum(w, j);
        vstd::arithmetic::div_mod::lemma_div_pos_is_pos(w[j] * SCALE, s);
        vstd::arithmetic::div_mod::lemma_div_is_ordered(w[j] * SCALE, s * SCALE, s);
        vstd::arithmetic::div_mod::lemma_div_multiples_vanish(SCALE as int, s);
        assert(qv <= SCALE);
        assert(q[j] == qv);
        vstd::arithmetic::div_mod::lemma_remainder(w[j] * SCALE, s);
        assert(0 <= w[j] * SCALE - qv * s < s);
        let a = sum_of(q.take(j));
        assert(s * (a + qv) == s * a + s * qv) by (nonlinear_arith);
        assert(s * qv == qv * s) by (nonlinear_arith);
        assert(k * (s - 1) == j * (s - 1) + (s - 1)) by (nonlinear_arith)
            requires
                k == j + 1,
        ;
    }
}

/// Bounds for the rounded proportional distribution over nonnegative
/// weights with a positive sum: every share lies in `[0, SCALE]` and the
/// shares add up to `SCALE`, short of it by less than one rounding unit
/// per weight.
proof fn lemma_ratio_dist_bounds(w: Seq<i64>)
    requires
        forall|i: int| 0 <= i < w.len() ==> w[i] >= 0,
        sum_of(w) > 0,
    ensures
        spec_ratio_dist(w).len() == w.len(),
        forall|i: int| 0 <= i < w.len() ==> 0 <= #[trigger] spec_ratio_dist(w)[i] <= SCALE,
        SCALE - w.len() < sum_of(spec_ratio_dist(w)) <= SCALE,
{
    let s = sum_of(w);
    let q = spec_ratio_dist(w);
    let n = w.len() as int;
    assert(n > 0);
    assert forall|i: int| 0 <= i < w.len() implies 0 <= #[trigger] spec_ratio_dist(w)[i]
        <= SCALE by {
        lemma_element_le_sum(w, i);
        vstd::arithmetic::div_mod::lemma_div_pos_is_pos(w[i] * SCALE, s);
        vstd::arithmetic::div_mod::lemma_div_is_ordered(w[i] * SCALE, s * SCALE, s);
        vstd::arithmetic::div_mod::lemma_div_multiples_vanish(SCALE as int, s);
    }
    lemma_ratio_prefix(w, n);
    assert(q.take(n) =~= q);
    assert(w.take(n) =~= w);
    let total = sum_of(q);
    assert(s * total <= SCALE * s);
    assert(s * total >= SCALE * s - n * (s - 1));
    assert(total <= SCALE) by (nonlinear_arith)
        requires
            s > 0,
            s * total <= SCALE * s,
    ;
    assert(total > SCALE - n) by (nonlinear_arith)
        requires
            s > 0,
            n > 0,
            s * total >= SCALE * s - n * (s - 1),
    ;
}

/// Bounds for the uniform distribution: every share is exactly
/// `SCALE / len`, and the shares add up to `SCALE`, short of it by less
/// than one rounding unit per entry.
proof fn lemma_uniform_dist_bounds(len: nat)
    requires
        len > 0,
    ensures
        spec_uniform_dist(len).len() == len,
        forall|i: int| 0 <= i < len ==> #[trigger] spec_uniform_dist(len)[i] == SCALE as int
            / len as int,
        forall|i: int| 0 <= i < len ==> 0 <= #[trigger] spec_uniform_dist(len)[i] <= SCALE,
        SCALE - len < sum_of(spec_uniform_dist(len)) <= SCALE,
{
    let c = SCALE as int / len as int;
    vstd::arithmetic::div_mod::lemma_div_pos_is_pos(SCALE as int, len as int);
    vstd::arithmetic::div_mod::lemma_div_nonincreasing(SCALE as int, len as int);
    lemma_sum_constant(spec_uniform_dist(len), c as i64);
    vstd::arithmetic::div_mod::lemma_remainder(SCALE as int, len as int);
    assert(0 <= SCALE - (SCALE as int / len as int) * (len as int) < len);
    assert(len * (c as i64) == c * len) by (nonlinear_arith)
        requires
            0 <= c <= SCALE,
    ;
}

/// Law: regret matching yields a probability distribution. Every
/// probability is in `[0, SCALE]`; they add up to `SCALE`, short of it by
/// less than one rounding unit per action; and when no regret is positive
/// the distribution is exactly uniform.
pub proof fn lemma_strategy_is_distribution(regret_sum: Seq<i64>)
    requires
        regret_sum.len() > 0,
    ensures
        spec_strategy(regret_sum).len() == regret_sum.len(),
        forall|i: int|
            0 <= i < regret_sum.len() ==> 0 <= #[trigger] spec_strategy(regret_sum)[i] <= SCALE,
        SCALE - regret_sum.len() < sum_of(spec_strategy(regret_sum)) <= SCALE,
        sum_of(pos_parts(regret_sum)) <= 0 ==> forall|i: int|
            0 <= i < regret_sum.len() ==> #[trigger] spec_strategy(regret_sum)[i] == SCALE as int
                / regret_sum.len() as int,
{
    let p = pos_parts(regret_sum);
    assert(forall|i: int| 0 <= i < p.len() ==> #[trigger] p[i] >= 0);
    if sum_of(p) > 0 {
        lemma_ratio_dist_bounds(p);
    } else {
        lemma_uniform_dist_bounds(regret_sum.len());
    }
}

/// Law: the time-averaged strategy is a probability distribution. Every
/// probability is in `[0, SCALE]`; they add up to `SCALE`, short of it by
/// less than one rounding unit per action; and when every accumulated
/// weight is zero the distribution is exactly uniform.
pub proof fn lemma_average_is_distribution(strategy_sum: Seq<i64>)
    requires
        strategy_sum.len() > 0,
        forall|i: int| 0 <= i < strategy_sum.len() ==> #[trigger] strategy_sum[i] >= 0,
    ensures
        spec_average(strategy_sum).len() == strategy_sum.len(),
        forall|i: int|
            0 <= i < strategy_sum.len() ==> 0 <= #[trigger] spec_average(strategy_sum)[i] <= SCALE,
        SCALE - strategy_sum.len() < sum_of(spec_average(strategy_sum)) <= SCALE,
        sum_of(strategy_sum) <= 0 ==> forall|i: int|
            0 <= i < strategy_sum.len() ==> #[trigger] spec_average(strategy_sum)[i] == SCALE as int
                / strategy_sum.len() as int,
{
    if sum_of(strategy_sum) > 0 {
        lemma_ratio_dist_bounds(strategy_sum);
    } else {
        lemma_uniform_dist_bounds(strategy_sum.len());
    }
}

/// The mathematical model of a `CFRNode`: its three parallel sequences.
#[verifier::ext_equal]
pub struct NodeView {
    pub regret_sum: Seq<i64>,
    pub strategy_sum: Seq<i64>,
    pub actions: Seq<Action>,
}

impl NodeView {
    /// The node invariant: the accumulators cover exactly the action list,
    /// position by position, and strategy weights, being sums of
    /// probabilities, are nonnegative.
    pub open spec fn wf(self) -> bool {
        &&& self.regret_sum.len() == self.actions.len()
        &&& self.strategy_sum.len() == self.actions.len()
        &&& forall|i: int| 0 <= i < self.strategy_sum.len() ==> #[trigger] self.strategy_sum[i]
            >= 0
    }
}

/// Per information set: accumulated regret and accumulated strategy weight
/// for each legal action, stored positionally alongside the ordered action
/// list fixed at creation time.
#[derive(Clone, Debug)]
pub struct CFRNode {
    pub regret_sum: Vec<i64>,
    pub strategy_sum: Vec<i64>,
    pub actions: Vec<Action>,
}

impl View for CFRNode {
    type V = NodeView;

    open spec fn view(&self) -> NodeView {
        NodeView {
            regret_sum: self.regret_sum@,
            strategy_sum: self.strategy_sum@,
            actions: self.actions@,
        }
    }
}

impl CFRNode {
    /// The node invariant; see `NodeView::wf`.
    pub open spec fn wf(self) -> bool {
        self@.wf()
    }

    /// Creates a node with both accumulators zero-initialized over exactly
    /// the given actions.
    pub fn new(actions: Vec<Action>) -> (node: CFRNode)
        ensures
            node@.actions == actions@,
            node@.regret_sum.len() == actions@.len(),
            node@.strategy_sum.len() == actions@.len(),
            forall|i: int| 0 <= i < actions@.len() ==> #[trigger] node@.regret_sum[i] == 0,
            forall|i: int| 0 <= i < actions@.len() ==> #[trigger] node@.strategy_sum[i] == 0,
            node.wf(),
    {
        let mut regret_sum: Vec<i64> = Vec::new();
        let mut strategy_sum: Vec<i64> = Vec::new();
        let mut i: usize = 0;
        while i < actions.len()
            invariant
                regret_sum@.len() == i,
                strategy_sum@.len() == i,
                i <= actions@.len(),
                forall|j: int| 0 <= j < i ==> #[trigger] regret_sum@[j] == 0,
                forall|j: int| 0 <= j < i ==> #[trigger] strategy_sum@[j] == 0,
            decreases actions.len() - i,
        {
            regret_sum.push(0);
            strategy_sum.push(0);
            i = i + 1;
        }
        CFRNode { regret_sum, strategy_sum, actions }
    }

    /// Regret matching: the current strategy, proportional to positive
    /// regrets, or uniform when no regret is positive. The result is
    /// positional: entry `i` is the probability of `actions[i]`.
    pub fn get_strategy(&self) -> (strategy: Vec<i64>)
        requires
            sum_of(pos_parts(self.regret_sum@)) <= i64::MAX as int,
        ensures
            strategy@ == spec_strategy(self.regret_sum@),
    {
        let ghost p = pos_parts(self.regret_sum@);
        proof {
            assert(forall|i: int| 0 <= i < p.len() ==> #[trigger] p[i] >= 0);
        }
        let n = self.regret_sum.len();
        let mut total: i64 = 0;
        let mut i: usize = 0;
        while i < n
            invariant
                n == self.regret_sum@.len(),
                i <= n,
                p == pos_parts(self.regret_sum@),
                sum_of(p) <= i64::MAX as int,
                forall|j: int| 0 <= j < p.len() ==> #[trigger] p[j] >= 0,
                total == sum_of(p.take(i as int)),
            decreases n - i,
        {
            proof {
                lemma_sum_take_succ(p, i as int);
                lemma_sum_prefix_le(p, i + 1);
                lemma_sum_nonneg(p.take(i + 1));
                lemma_sum_nonneg(p.take(i as int));
            }
            let r = self.regret_sum[i];
            if r > 0 {
                total = total + r;
            }
            i = i + 1;
        }
        proof {
            assert(p.take(n as int) =~= p);
        }
        let ghost target = spec_strategy(self.regret_sum@);
        let mut strategy: Vec<i64> = Vec::new();
        let mut i: usize = 0;
        while i < n
            invariant
                n == self.regret_sum@.len(),
                i <= n,
                p == pos_parts(self.regret_sum@),
                forall|j: int| 0 <= j < p.len() ==> #[trigger] p[j] >= 0,
                total == sum_of(p),
                target == spec_strategy(self.regret_sum@),
                strategy@ =~= target.take(i as int),
            decreases n - i,
        {
            if total > 0 {
                let r = self.regret_sum[i];
                let pos = if r > 0 {
                    r
                } else {
                    0
                };
                proof {
                    lemma_element_le_sum(p, i as int);
                    vstd::arithmetic::div_mod::lemma_div_pos_is_pos(pos * SCALE, total as int);
                    vstd::arithmetic::div_mod::lemma_div_is_ordered(
                        pos * SCALE,
                        (total as int) * SCALE,
                        total as int,
                    );
                    vstd::arithmetic::div_mod::lemma_div_multiples_vanish(
                        SCALE as int,
                        total as int,
                    );
                }
                let q = (((pos as u128) * (SCALE as u128)) / (total as u128)) as i64;
                strategy.push(q);
            } else {
                let c = ((SCALE as u64) / (n as u64)) as i64;
                strategy.push(c);
            }
            proof {
                assert(strategy@ =~= target.take(i + 1));
            }
            i = i + 1;
        }
        proof {
            assert(strategy@ =~= target);
        }
        strategy
    }

    /// The time-averaged strategy: proportional to the accumulated strategy
    /// weights, or uniform when all weights are zero. This is the
    /// distribution that converges toward equilibrium and is the one
    /// reported.
    pub fn get_average_strategy(&self) -> (avg: Vec<i64>)
        requires
            forall|i: int| 0 <= i < self.strategy_sum@.len() ==> #[trigger] self.strategy_sum@[i]
                >= 0,
            sum_of(self.strategy_sum@) <= i64::MAX as int,
        ensures
            avg@ == spec_average(self.strategy_sum@),
    {
        let ghost w = self.strategy_sum@;
        let n = self.strategy_sum.len();
        let mut total: i64 = 0;
        let mut i: usize = 0;
        while i < n
            invariant
                n == w.len(),
                w == self.strategy_sum@,
                i <= n,
                sum_of(w) <= i64::MAX as int,
                forall|j: int| 0 <= j < w.len() ==> #[trigger] w[j] >= 0,
                total == sum_of(w.take(i as int)),
            decreases n - i,
        {
            proof {
                lemma_sum_take_succ(w, i as int);
                lemma_sum_prefix_le(w, i + 1);
                lemma_sum_nonneg(w.take(i + 1));
                lemma_sum_nonneg(w.take(i as int));
            }
            total = total + self.strategy_sum[i];
            i = i + 1;
        }
        proof {
            assert(w.take(n as int) =~= w);
        }
        let ghost target = spec_average(w);
        let mut avg: Vec<i64> = Vec::new();
        let mut i: usize = 0;
        while i < n
            invariant
                n == w.len(),
                w == self.strategy_sum@,
                i <= n,
                forall|j: int| 0 <= j < w.len() ==> #[trigger] w[j] >= 0,
                total == sum_of(w),
                target == spec_average(w),
                avg@ =~= target.take(i as int),
            decreases n - i,
        {
            if total > 0 {
                let sum_i = self.strategy_sum[i];
                proof {
                    lemma_element_le_sum(w, i as int);
                    vstd::arithmetic::div_mod::lemma_div_pos_is_pos(sum_i * SCALE, total as int);
                    vstd::arithmetic::div_mod::lemma_div_is_ordered(
                        sum_i * SCALE,
                        (total as int) * SCALE,
                        total as int,
                    );
                    vstd::arithmetic::div_mod::lemma_div_multiples_vanish(
                        SCALE as int,
                        total as int,
                    );
                }
                let q = (((sum_i as u128) * (SCALE as u128)) / (total as u128)) as i64;
                avg.push(q);
            } else {
                let c = ((SCALE as u64) / (n as u64)) as i64;
                avg.push(c);
            }
            proof {
                assert(avg@ =~= target.take(i + 1));
            }
            i = i + 1;
        }
        proof {
            assert(avg@ =~= target);
        }
        avg
    }
}

/// The cap that the solver keeps every accumulator under; far below
/// `i64::MAX`, so that one more visit can never overflow.
pub const ACC_LIMIT: i64 = 0x2000_0000_0000_0000;

/// How much one visit can move a node's accumulators: the regret increment
/// is at most four probability units and the strategy increment at most
/// one.
pub const NODE_GROW: i64 = 8_000_000;

/// How much one solver call can move any accumulator in the store, as a
/// function of the remaining tree depth: each level visits one node and at
/// most two subtrees one level shallower. The game is at most three actions
/// deep, so the depth argument never exceeds three.
pub open spec fn spec_growth(d: nat) -> int {
    if d == 0 {
        NODE_GROW as int
    } else if d == 1 {
        3 * NODE_GROW
    } else if d == 2 {
        7 * NODE_GROW
    } else {
        15 * NODE_GROW
    }
}

/// How many more actions the game can still take below a history.
pub open spec fn depth_left(h: Seq<Action>) -> nat {
    if h.len() >= 3 {
        0
    } else {
        (3 - h.len()) as nat
    }
}

/// Every accumulator of the node lies in `[-b, b]`.
pub open spec fn node_bounded(n: NodeView, b: int) -> bool {
    &&& forall|i: int| 0 <= i < n.regret_sum.len() ==> -b <= #[trigger] n.regret_sum[i] <= b
    &&& forall|i: int| 0 <= i < n.strategy_sum.len() ==> -b <= #[trigger] n.strategy_sum[i] <= b
}

/// Every accumulator of every node in the store lies in `[-b, b]`.
pub open spec fn store_bounded(s: Seq<EntryView>, b: int) -> bool {
    forall|i: int| 0 <= i < s.len() ==> node_bounded((#[trigger] s[i]).node, b)
}

/// The sum of entries that all lie in `[-b, b]` lies in
/// `[-len * b, len * b]`.
proof fn lemma_sum_abs_le(s: Seq<i64>, b: int)
    requires
        forall|i: int| 0 <= i < s.len() ==> -b <= #[trigger] s[i] <= b,
    ensures
        -(s.len() * b) <= sum_of(s) <= s.len() * b,
    decreases s.len(),
{
    if s.len() > 0 {
        lemma_sum_abs_le(s.drop_last(), b);
        assert(s.len() * b == (s.len() - 1) * b + b) by (nonlinear_arith)
            requires
                s.len() >= 1,
        ;
    }
}

/// The mathematical model of one stored information set.
#[verifier::ext_equal]
pub struct EntryView {
    pub card: Card,
    pub history: Seq<Action>,
    pub key: Seq<char>,
    pub node: NodeView,
}

/// Whether the entry belongs to the information set of `card` and `h`.
pub open spec fn entry_matches(e: EntryView, card: Card, h: Seq<Action>) -> bool {
    e.card == card && e.history == h
}

/// Whether the store holds an entry for the information set of `card` and
/// `h`.
pub open spec fn store_has(s: Seq<EntryView>, card: Card, h: Seq<Action>) -> bool {
    exists|i: int| 0 <= i < s.len() && entry_matches(#[trigger] s[i], card, h)
}

/// The index of the store's entry for `card` and `h`; meaningful when the
/// store holds exactly one such entry.
pub open spec fn idx_of(s: Seq<EntryView>, card: Card, h: Seq<Action>) -> int {
    choose|i: int| 0 <= i < s.len() && entry_matches(#[trigger] s[i], card, h)
}

/// A node as it is first created: zeroed accumulators over the legal
/// actions.
pub open spec fn fresh_node(actions: Seq<Action>) -> NodeView {
    NodeView {
        regret_sum: Seq::new(actions.len(), |i: int| 0i64),
        strategy_sum: Seq::new(actions.len(), |i: int| 0i64),
        actions: actions,
    }
}

/// The entry the solver creates the first time it reaches the information
/// set of `card` and `h`.
pub open spec fn fresh_entry(card: Card, h: Seq<Action>) -> EntryView {
    EntryView {
        card: card,
        history: h,
        key: spec_info_set_key(card.spec_char(), spec_history_text(h)),
        node: fresh_node(spec_legal_actions(false, h)),
    }
}

/// The store after making sure an entry for `card` and `h` exists.
pub open spec fn spec_ensure_entry(s: Seq<EntryView>, card: Card, h: Seq<Action>) -> Seq<
    EntryView,
> {
    if store_has(s, card, h) {
        s
    } else {
        s.push(fresh_entry(card, h))
    }
}

/// Whether `b` is the entry `a` with at most its accumulator values
/// changed: same information set, same key, same action list.
pub open spec fn entry_same_identity(a: EntryView, b: EntryView) -> bool {
    &&& b.card == a.card
    &&& b.history == a.history
    &&& b.key == a.key
    &&& b.node.actions == a.node.actions
    &&& b.node.regret_sum.len() == a.node.regret_sum.len()
    &&& b.node.strategy_sum.len() == a.node.strategy_sum.len()
}

/// The node after one visit: entry `j` of the regrets grows by
/// `vals[j] - nv` and entry `j` of the strategy weights by `strat[j]`.
pub open spec fn spec_update_node(n: NodeView, vals: Seq<int>, strat: Seq<i64>, nv: int) -> NodeView {
    NodeView {
        regret_sum: Seq::new(
            n.regret_sum.len(),
            |j: int|
                if 0 <= j < vals.len() {
                    (n.regret_sum[j] + vals[j] - nv) as i64
                } else {
                    n.regret_sum[j]
                },
        ),
        strategy_sum: Seq::new(
            n.strategy_sum.len(),
            |j: int|
                if 0 <= j < strat.len() {
                    (n.strategy_sum[j] + strat[j]) as i64
                } else {
                    n.strategy_sum[j]
                },
        ),
        actions: n.actions,
    }
}

/// The integer values of a sequence of fixed-point numbers.
pub open spec fn ints_of(s: Seq<i64>) -> Seq<int> {
    Seq::new(s.len(), |i: int| s[i] as int)
}

/// A well-formed store: every node keeps its invariant, every node's action
/// list is the legal-action list of its history, every key is the key text
/// of its card and history, and no two entries share an information set.
pub open spec fn store_wf(s: Seq<EntryView>) -> bool {
    &&& forall|i: int| 0 <= i < s.len() ==> (#[trigger] s[i]).node.wf()
    &&& forall|i: int|
        0 <= i < s.len() ==> (#[trigger] s[i]).node.actions == spec_legal_actions(
            false,
            s[i].history,
        )
    &&& forall|i: int|
        0 <= i < s.len() ==> (#[trigger] s[i]).key == spec_info_set_key(
            s[i].card.spec_char(),
            spec_history_text(s[i].history),
        )
    &&& forall|i: int, j: int|
        0 <= i < s.len() && 0 <= j < s.len() && i != j ==> !entry_matches(
            #[trigger] s[j],
            (#[trigger] s[i]).card,
            s[i].history,
        )
}

/// One information set as stored: its identity, its rendered key, and its
/// accumulator node.
#[derive(Debug)]
pub struct InfoSetEntry {
    pub card: Card,
    pub history: History,
    pub key: String,
    pub node: CFRNode,
}

impl View for InfoSetEntry {
    type V = EntryView;

    open spec fn view(&self) -> EntryView {
        EntryView { card: self.card, history: self.history@, key: self.key@, node: self.node@ }
    }
}

/// The information-set store: a growable mapping from information-set
/// identity (card and observed history) to its `CFRNode`, in order of first
/// visit.
#[derive(Debug)]
pub struct InfoSetMap {
    entries: Vec<InfoSetEntry>,
}

impl View for InfoSetMap {
    type V = Seq<EntryView>;

    closed spec fn view(&self) -> Seq<EntryView> {
        Seq::new(self.entries@.len(), |i: int| self.entries@[i]@)
    }
}

impl InfoSetMap {
    /// The store invariant; see `store_wf`.
    pub open spec fn wf(self) -> bool {
        store_wf(self@)
    }

    /// An empty store.
    pub fn new() -> (m: InfoSetMap)
        ensures
            m@ == Seq::<EntryView>::empty(),
            m.wf(),
    {
        let m = InfoSetMap { entries: Vec::new() };
        proof {
            assert(m@ =~= Seq::<EntryView>::empty());
        }
        m
    }

    /// How many information sets have been created.
    pub fn len(&self) -> (n: usize)
        ensures
            n == self@.len(),
    {
        self.entries.len()
    }

    /// The rendered key of the information set at position `i`.
    pub fn key_at(&self, i: usize) -> (key: &String)
        requires
            i < self@.len(),
        ensures
            key@ == self@[i as int].key,
    {
        &self.entries[i].key
    }

    /// The node of the information set at position `i`.
    pub fn node_at(&self, i: usize) -> (node: &CFRNode)
        requires
            i < self@.len(),
        ensures
            node@ == self@[i as int].node,
    {
        &self.entries[i].node
    }

    /// Whether the store holds an entry whose rendered key is `key`.
    pub fn contains_key(&self, key: &str) -> (r: bool)
        ensures
            r == exists|i: int| 0 <= i < self@.len() && (#[trigger] self@[i]).key == key@,
    {
        let mut i: usize = 0;
        while i < self.entries.len()
            invariant
                i <= self@.len(),
                self@.len() == self.entries@.len(),
                forall|j: int| 0 <= j < i ==> (#[trigger] self@[j]).key != key@,
            decreases self.entries.len() - i,
        {
            if str_equal(self.entries[i].key.as_str(), key) {
                proof {
                    assert(self@[i as int].key == key@);
                }
                return true;
            }
            i = i + 1;
        }
        false
    }

    /// The node stored under the rendered key `key`, if any.
    pub fn get(&self, key: &str) -> (r: Option<&CFRNode>)
        ensures
            match r {
                Some(node) => exists|i: int|
                    0 <= i < self@.len() && (#[trigger] self@[i]).key == key@ && node@
                        == self@[i].node,
                None => forall|i: int| 0 <= i < self@.len() ==> (#[trigger] self@[i]).key != key@,
            },
    {
        let mut i: usize = 0;
        while i < self.entries.len()
            invariant
                i <= self@.len(),
                self@.len() == self.entries@.len(),
                forall|j: int| 0 <= j < i ==> (#[trigger] self@[j]).key != key@,
            decreases self.entries.len() - i,
        {
            if str_equal(self.entries[i].key.as_str(), key) {
                proof {
                    assert(self@[i as int].key == key@);
                }
                return Some(&self.entries[i].node);
            }
            i = i + 1;
        }
        None
    }

    /// The position of the entry for `card` and `history`, if one exists;
    /// the first match, and under `wf` the only one.
    fn find(&self, card: Card, history: &History) -> (r: Option<usize>)
        ensures
            match r {
                Some(i) => i < self@.len() && entry_matches(self@[i as int], card, history@)
                    && forall|j: int| 0 <= j < i ==> !entry_matches(self@[j], card, history@),
                None => forall|j: int|
                    0 <= j < self@.len() ==> !entry_matches(self@[j], card, history@),
            },
    {
        let mut i: usize = 0;
        while i < self.entries.len()
            invariant
                i <= self@.len(),
                self@.len() == self.entries@.len(),
                forall|j: int| 0 <= j < i ==> !entry_matches(self@[j], card, history@),
            decreases self.entries.len() - i,
        {
            let e = &self.entries[i];
            if e.card == card && e.history.same_as(history) {
                return Some(i);
            }
            i = i + 1;
        }
        None
    }

    /// Finds the entry for `card` and `history`, creating it with zeroed
    /// accumulators over `actions` if it is absent, and returns its
    /// position.
    fn find_or_create(&mut self, card: Card, history: &History, actions: Vec<Action>) -> (idx:
        usize)
        requires
            old(self).wf(),
            actions@ == spec_legal_actions(false, history@),
        ensures
            final(self).wf(),
            final(self)@ == spec_ensure_entry(old(self)@, card, history@),
            idx < final(self)@.len(),
            entry_matches(final(self)@[idx as int], card, history@),
            idx == idx_of(final(self)@, card, history@),
            old(self)@.len() <= final(self)@.len(),
            forall|i: int| 0 <= i < old(self)@.len() ==> final(self)@[i] == old(self)@[i],
            forall|b: int|
                b >= 0 && store_bounded(old(self)@, b) ==> store_bounded(final(self)@, b),
    {
        let found = self.find(card, history);
        match found {
            Some(i) => {
                proof {
                    assert(store_has(self@, card, history@));
                    let c = idx_of(self@, card, history@);
                    assert(entry_matches(self@[c], card, history@));
                    assert(c == i as int);
                }
                i
            },
            None => {
                proof {
                    assert(!store_has(self@, card, history@));
                }
                let idx = self.entries.len();
                let c = card.to_char();
                let text = history.to_string();
                let key = make_info_set_key(c, text.as_str());
                let node = CFRNode::new(actions);
                let stored_history = history.clone();
                let entry = InfoSetEntry { card, history: stored_history, key, node };
                proof {
                    assert(entry@.node =~= fresh_node(spec_legal_actions(false, history@)));
                    assert(entry@ =~= fresh_entry(card, history@));
                }
                self.entries.push(entry);
                proof {
                    let s_new = self@;
                    let s_old = old(self)@;
                    assert(s_new =~= s_old.push(fresh_entry(card, history@)));
                    assert(entry_matches(s_new[idx as int], card, history@));
                    assert(store_has(s_new, card, history@));
                    let c2 = idx_of(s_new, card, history@);
                    assert(entry_matches(s_new[c2], card, history@));
                    assert(c2 == idx as int);
                    assert(store_wf(s_new));
                }
                idx
            },
        }
    }

    /// Applies one visit's accumulation at position `idx`: regret `j` grows
    /// by `vals[j] - node_value`, strategy weight `j` by `strategy[j]`.
    fn update_node(&mut self, idx: usize, vals: &Vec<i64>, strategy: &Vec<i64>, node_value: i64)
        requires
            old(self).wf(),
            idx < old(self)@.len(),
            vals@.len() == old(self)@[idx as int].node.regret_sum.len(),
            strategy@.len() == old(self)@[idx as int].node.strategy_sum.len(),
            forall|j: int| 0 <= j < strategy@.len() ==> #[trigger] strategy@[j] >= 0,
            forall|j: int|
                0 <= j < vals@.len() ==> i64::MIN <= old(self)@[idx as int].node.regret_sum[j]
                    + #[trigger] vals@[j] - node_value <= i64::MAX,
            forall|j: int|
                0 <= j < strategy@.len() ==> old(self)@[idx as int].node.strategy_sum[j]
                    + #[trigger] strategy@[j] <= i64::MAX,
        ensures
            final(self).wf(),
            final(self)@ == old(self)@.update(
                idx as int,
                EntryView {
                    node: spec_update_node(
                        old(self)@[idx as int].node,
                        ints_of(vals@),
                        strategy@,
                        node_value as int,
                    ),
                    ..old(self)@[idx as int]
                },
            ),
    {
        let ghost s_old = self@;
        let ghost target_entry = EntryView {
            node: spec_update_node(
                s_old[idx as int].node,
                ints_of(vals@),
                strategy@,
                node_value as int,
            ),
            ..s_old[idx as int]
        };
        let n = vals.len();
        let mut j: usize = 0;
        while j < n
            invariant
                self@.len() == s_old.len(),
                idx < s_old.len(),
                j <= n,
                n == vals@.len(),
                n == s_old[idx as int].node.regret_sum.len(),
                strategy@.len() == s_old[idx as int].node.strategy_sum.len(),
                forall|i: int| 0 <= i < s_old.len() && i != idx ==> self@[i] == s_old[i],
                self@[idx as int].card == s_old[idx as int].card,
                self@[idx as int].history == s_old[idx as int].history,
                self@[idx as int].key == s_old[idx as int].key,
                self@[idx as int].node.actions == s_old[idx as int].node.actions,
                self@[idx as int].node.regret_sum.len() == s_old[idx as int].node.regret_sum.len(),
                self@[idx as int].node.strategy_sum.len() == s_old[idx as
                    int].node.strategy_sum.len(),
                forall|t: int|
                    0 <= t < n ==> #[trigger] self@[idx as int].node.regret_sum[t] == (if t < j {
                        (s_old[idx as int].node.regret_sum[t] + vals@[t] - node_value) as i64
                    } else {
                        s_old[idx as int].node.regret_sum[t]
                    }),
                forall|t: int|
                    0 <= t < strategy@.len() ==> #[trigger] self@[idx as int].node.strategy_sum[t]
                        == (if t < j {
                        (s_old[idx as int].node.strategy_sum[t] + strategy@[t]) as i64
                    } else {
                        s_old[idx as int].node.strategy_sum[t]
                    }),
                forall|j2: int|
                    0 <= j2 < vals@.len() ==> i64::MIN <= s_old[idx as int].node.regret_sum[j2]
                        + #[trigger] vals@[j2] - node_value <= i64::MAX,
                forall|j2: int|
                    0 <= j2 < strategy@.len() ==> s_old[idx as int].node.strategy_sum[j2]
                        + #[trigger] strategy@[j2] <= i64::MAX,
                forall|j2: int| 0 <= j2 < strategy@.len() ==> #[trigger] strategy@[j2] >= 0,
                n <= strategy@.len(),
            decreases n - j,
        {
            let entry_ref = &mut self.entries[idx];
            let old_r = entry_ref.node.regret_sum[j];
            let new_r = ((old_r as i128) + (vals[j] as i128) - (node_value as i128)) as i64;
            entry_ref.node.regret_sum[j] = new_r;
            let old_s = entry_ref.node.strategy_sum[j];
            entry_ref.node.strategy_sum[j] = old_s + strategy[j];
            j = j + 1;
        }
        proof {
            assert(self@[idx as int].node =~= target_entry.node);
            assert(self@[idx as int] =~= target_entry);
            assert(self@ =~= s_old.update(idx as int, target_entry));
            assert(store_wf(self@));
        }
    }
}

/// The private card of the acting player.
pub open spec fn card_of(player: Player, card1: Card, card2: Card) -> Card {
    if player == Player::Player1 {
        card1
    } else {
        card2
    }
}

/// `p / SCALE` of `v`, rounded toward zero: the contribution of an action
/// of probability `p` and value `v` to an expected value.
pub open spec fn spec_mul_frac(p: int, v: int) -> int {
    if v >= 0 {
        p * v / (SCALE as int)
    } else {
        -(p * (-v) / (SCALE as int))
    }
}

/// Computes `p / SCALE` of `v`, rounded toward zero.
fn mul_frac(p: i64, v: i64) -> (r: i64)
    requires
        0 <= p <= SCALE,
        -2 * SCALE <= v <= 2 * SCALE,
    ensures
        r as int == spec_mul_frac(p as int, v as int),
        -2 * (p as int) <= r as int <= 2 * (p as int),
{
    if v >= 0 {
        proof {
            let pi = p as int;
            let vi = v as int;
            vstd::arithmetic::mul::lemma_mul_nonnegative(pi, vi);
            assert(pi * vi == vi * pi) by (nonlinear_arith);
            vstd::arithmetic::mul::lemma_mul_inequality(vi, 2 * SCALE, pi);
            assert((2 * SCALE) * pi == SCALE as int * (2 * pi)) by (nonlinear_arith);
            vstd::arithmetic::div_mod::lemma_div_pos_is_pos(pi * vi, SCALE as int);
            vstd::arithmetic::div_mod::lemma_div_is_ordered(
                pi * vi,
                SCALE as int * (2 * pi),
                SCALE as int,
            );
            vstd::arithmetic::div_mod::lemma_div_multiples_vanish(2 * pi, SCALE as int);
        }
        (((p as u64) * (v as u64)) / (SCALE as u64)) as i64
    } else {
        let nv = -v;
        proof {
            let pi = p as int;
            let vi = nv as int;
            vstd::arithmetic::mul::lemma_mul_nonnegative(pi, vi);
            assert(pi * vi == vi * pi) by (nonlinear_arith);
            vstd::arithmetic::mul::lemma_mul_inequality(vi, 2 * SCALE, pi);
            assert((2 * SCALE) * pi == SCALE as int * (2 * pi)) by (nonlinear_arith);
            vstd::arithmetic::div_mod::lemma_div_pos_is_pos(pi * vi, SCALE as int);
            vstd::arithmetic::div_mod::lemma_div_is_ordered(
                pi * vi,
                SCALE as int * (2 * pi),
                SCALE as int,
            );
            vstd::arithmetic::div_mod::lemma_div_multiples_vanish(2 * pi, SCALE as int);
        }
        -((((p as u64) * (nv as u64)) / (SCALE as u64)) as i64)
    }
}

/// The strategy-weighted sum of the first `k` per-action values.
pub open spec fn spec_weighted_value(strat: Seq<i64>, vals: Seq<int>, k: int) -> int
    decreases k,
{
    if k <= 0 {
        0
    } else {
        spec_weighted_value(strat, vals, k - 1) + spec_mul_frac(strat[k - 1] as int, vals[k - 1])
    }
}

/// The weighted sum over the first `k` values only reads those values.
proof fn lemma_weighted_prefix(strat: Seq<i64>, v1: Seq<int>, v2: Seq<int>, k: int)
    requires
        forall|j: int| 0 <= j < k ==> v1[j] == v2[j],
    ensures
        spec_weighted_value(strat, v1, k) == spec_weighted_value(strat, v2, k),
    decreases k,
{
    if k > 0 {
        lemma_weighted_prefix(strat, v1, v2, k - 1);
    }
}

/// A store bounded by `b1` is bounded by any `b2 >= b1`.
proof fn lemma_store_bounded_widen(s: Seq<EntryView>, b1: int, b2: int)
    requires
        store_bounded(s, b1),
        b1 <= b2,
    ensures
        store_bounded(s, b2),
{
    assert forall|i: int| 0 <= i < s.len() implies node_bounded((#[trigger] s[i]).node, b2) by {
        assert(node_bounded(s[i].node, b1));
    }
}

/// The mirror of one solver call: what `cfr` leaves in the store, and the
/// value it returns, as a mathematical function of its inputs. A terminal
/// history is worth its payoff; otherwise the acting player's information
/// set is created if absent, the per-action values are collected from the
/// subtrees in order, and the node accumulates the instantaneous regrets
/// and the current strategy.
pub open spec fn spec_cfr(
    h: Seq<Action>,
    player: Player,
    terminal: bool,
    card1: Card,
    card2: Card,
    s: Seq<EntryView>,
) -> (Seq<EntryView>, int)
    decreases depth_left(h), 1int, 0int,
{
    if terminal {
        (s, spec_payoff_actions(card1, card2, h) * (SCALE as int))
    } else {
        let card = card_of(player, card1, card2);
        let s0 = spec_ensure_entry(s, card, h);
        let idx0 = idx_of(s0, card, h);
        let strat = spec_strategy(s0[idx0].node.regret_sum);
        let outcome = spec_children(h, player, card1, card2, s0, 0);
        let s1 = outcome.0;
        let vals = outcome.1;
        let nv = spec_weighted_value(strat, vals, vals.len() as int);
        let idx1 = idx_of(s1, card, h);
        let s2 = s1.update(
            idx1,
            EntryView { node: spec_update_node(s1[idx1].node, vals, strat, nv), ..s1[idx1] },
        );
        (
            s2,
            if player == Player::Player1 {
                nv
            } else {
                -nv
            },
        )
    }
}

/// The mirror of the solver's loop over the legal actions from index `i`
/// on: the store after all the subtree calls, and the acting player's
/// own-perspective value of each action.
pub open spec fn spec_children(
    h: Seq<Action>,
    player: Player,
    card1: Card,
    card2: Card,
    s: Seq<EntryView>,
    i: int,
) -> (Seq<EntryView>, Seq<int>)
    decreases depth_left(h), 0int, spec_legal_actions(false, h).len() - i,
{
    let acts = spec_legal_actions(false, h);
    if i < 0 || i >= acts.len() {
        (s, Seq::empty())
    } else {
        let a = acts[i];
        let child = spec_cfr(
            h.push(a),
            player.spec_other(),
            spec_is_terminal(h.push(a)),
            card1,
            card2,
            s,
        );
        let own = if player == Player::Player1 {
            child.1
        } else {
            -child.1
        };
        let rest = spec_children(h, player, card1, card2, child.0, i + 1);
        (rest.0, seq![own] + rest.1)
    }
}

/// One full-width pass of counterfactual regret minimization below
/// `state`, for the deal `(card1, card2)`. Returns the expected value from
/// player 1's perspective and accumulates regrets and strategy weights in
/// `info_sets`; the store and the value are pinned exactly by `spec_cfr`,
/// so the solver is deterministic. Existing entries keep their identity and
/// position, the acting player's information set exists afterwards, and no
/// accumulator moves by more than `spec_growth` of the remaining depth.
#[verifier::rlimit(100)]
#[verifier::spinoff_prover]
pub fn cfr(state: &GameState, card1: Card, card2: Card, info_sets: &mut InfoSetMap) -> (v: i64)
    requires
        old(info_sets).wf(),
        store_bounded(
            old(info_sets)@,
            ACC_LIMIT as int - spec_growth(depth_left(state.history@)),
        ),
    ensures
        final(info_sets).wf(),
        final(info_sets)@ == spec_cfr(
            state.history@,
            state.current_player,
            state.terminal,
            card1,
            card2,
            old(info_sets)@,
        ).0,
        v as int == spec_cfr(
            state.history@,
            state.current_player,
            state.terminal,
            card1,
            card2,
            old(info_sets)@,
        ).1,
        -2 * SCALE <= v <= 2 * SCALE,
        old(info_sets)@.len() <= final(info_sets)@.len(),
        forall|i: int|
            0 <= i < old(info_sets)@.len() ==> entry_same_identity(
                old(info_sets)@[i],
                final(info_sets)@[i],
            ),
        forall|b: int|
            b >= 0 && store_bounded(old(info_sets)@, b) ==> store_bounded(
                final(info_sets)@,
                b + spec_growth(depth_left(state.history@)),
            ),
        !state.terminal ==> store_has(
            final(info_sets)@,
            card_of(state.current_player, card1, card2),
            state.history@,
        ),
    decreases depth_left(state.history@),
{
    let ghost h = state.history@;
    let ghost player = state.current_player;
    let ghost d = depth_left(h);
    let ghost s_in = info_sets@;
    if state.terminal {
        let p = payoff_from_actions(card1, card2, &state.history);
        proof {
            assert forall|b: int|
                b >= 0 && store_bounded(s_in, b) implies store_bounded(
                info_sets@,
                b + spec_growth(d),
            ) by {
                lemma_store_bounded_widen(info_sets@, b, b + spec_growth(d));
            }
        }
        return (p as i64) * SCALE;
    }
    let card = match state.current_player {
        Player::Player1 => card1,
        Player::Player2 => card2,
    };
    let actions_for_node = state.legal_actions();
    let idx = info_sets.find_or_create(card, &state.history, actions_for_node);
    let ghost s0 = info_sets@;
    let ghost lb = ACC_LIMIT as int - spec_growth(d);
    proof {
        assert(store_bounded(s0, lb));
    }
    let ghost rs = s0[idx as int].node.regret_sum;
    let strategy = {
        let node = info_sets.node_at(idx);
        proof {
            assert(node_bounded(s0[idx as int].node, lb));
            assert(s0[idx as int].node.actions == spec_legal_actions(false, h));
            assert(rs.len() <= 2);
            assert(forall|t: int|
                0 <= t < pos_parts(rs).len() ==> 0 <= #[trigger] pos_parts(rs)[t] <= lb);
            lemma_sum_abs_le(pos_parts(rs), lb);
            vstd::arithmetic::mul::lemma_mul_inequality(
                pos_parts(rs).len() as int,
                2,
                lb,
            );
        }
        node.get_strategy()
    };
    let ghost strat = strategy@;
    proof {
        assert(strat == spec_strategy(rs));
        if rs.len() > 0 {
            lemma_strategy_is_distribution(rs);
        }
    }
    let actions = state.legal_actions();
    let ghost full = spec_children(h, player, card1, card2, s0, 0);
    let ghost dm1: nat = if d > 0 {
        (d - 1) as nat
    } else {
        0
    };
    let mut vals: Vec<i64> = Vec::new();
    let mut node_value: i64 = 0;
    let mut k: usize = 0;
    while k < actions.len()
        invariant
            !state.terminal,
            h == state.history@,
            player == state.current_player,
            d == depth_left(h),
            dm1 == (if d > 0 {
                (d - 1) as nat
            } else {
                0nat
            }),
            lb == ACC_LIMIT as int - spec_growth(d),
            card == card_of(player, card1, card2),
            actions@ == spec_legal_actions(false, h),
            k <= actions@.len(),
            strategy@ == strat,
            strat.len() == actions@.len(),
            actions@.len() > 0 ==> (forall|t: int|
                0 <= t < strat.len() ==> 0 <= #[trigger] strat[t] <= SCALE),
            actions@.len() > 0 ==> sum_of(strat) <= SCALE,
            info_sets.wf(),
            idx < s0.len(),
            s0.len() <= info_sets@.len(),
            entry_matches(s0[idx as int], card, h),
            store_wf(s0),
            store_bounded(s0, lb),
            s_in.len() <= s0.len(),
            forall|i: int| 0 <= i < s_in.len() ==> s0[i] == s_in[i],
            s0 == spec_ensure_entry(s_in, card, h),
            strat == spec_strategy(s0[idx as int].node.regret_sum),
            full == spec_children(h, player, card1, card2, s0, 0),
            forall|i: int|
                0 <= i < s0.len() ==> entry_same_identity(s0[i], #[trigger] info_sets@[i]),
            spec_children(h, player, card1, card2, info_sets@, k as int).0 == full.0,
            full.1 == ints_of(vals@) + spec_children(
                h,
                player,
                card1,
                card2,
                info_sets@,
                k as int,
            ).1,
            vals@.len() == k,
            forall|j: int| 0 <= j < k ==> -2 * SCALE <= #[trigger] vals@[j] <= 2 * SCALE,
            node_value as int == spec_weighted_value(strat, ints_of(vals@), k as int),
            -2 * sum_of(strat.take(k as int)) <= node_value as int <= 2 * sum_of(
                strat.take(k as int),
            ),
            forall|b: int|
                b >= 0 && store_bounded(s0, b) ==> store_bounded(
                    info_sets@,
                    b + k * spec_growth(dm1),
                ),
        decreases actions@.len() - k,
    {
        let a = actions[k];
        let next = state.next_state(a);
        proof {
            assert(actions@.len() > 0);
            assert(h.len() <= 2);
            assert(d >= 1);
            assert(depth_left(next.history@) == dm1);
            assert(k as int * spec_growth(dm1) <= 1 * spec_growth(dm1)) by (nonlinear_arith)
                requires
                    k as int <= 1,
                    spec_growth(dm1) >= 0,
            ;
            assert(store_bounded(info_sets@, lb + k * spec_growth(dm1)));
            lemma_store_bounded_widen(
                info_sets@,
                lb + k * spec_growth(dm1),
                ACC_LIMIT as int - spec_growth(dm1),
            );
        }
        let ghost s_before = info_sets@;
        let child = cfr(&next, card1, card2, info_sets);
        let value = match state.current_player {
            Player::Player1 => child,
            Player::Player2 => -child,
        };
        proof {
            let childspec = spec_cfr(
                h.push(a),
                player.spec_other(),
                spec_is_terminal(h.push(a)),
                card1,
                card2,
                s_before,
            );
            assert(info_sets@ == childspec.0);
            assert(child as int == childspec.1);
            assert(value as int == (if player == Player::Player1 {
                childspec.1
            } else {
                -childspec.1
            }));
            let rest = spec_children(h, player, card1, card2, info_sets@, k + 1);
            assert(spec_children(h, player, card1, card2, s_before, k as int).0 == rest.0);
            assert(spec_children(h, player, card1, card2, s_before, k as int).1 == seq![
                value as int,
            ] + rest.1);
            assert(ints_of(vals@.push(value)) =~= ints_of(vals@) + seq![value as int]);
            assert((ints_of(vals@) + seq![value as int]) + rest.1 =~= ints_of(vals@) + (seq![
                value as int,
            ] + rest.1));
        }
        let ghost vals_before = vals@;
        vals.push(value);
        proof {
            assert forall|b: int| b >= 0 && store_bounded(s0, b) implies store_bounded(
                info_sets@,
                b + (k + 1) * spec_growth(dm1),
            ) by {
                assert(store_bounded(s_before, b + k * spec_growth(dm1)));
                assert((b + k * spec_growth(dm1)) + spec_growth(dm1) == b + (k + 1) * spec_growth(
                    dm1,
                )) by (nonlinear_arith);
            }
        }
        let mf = mul_frac(strategy[k], value);
        proof {
            assert(ints_of(vals@)[k as int] == value as int);
            assert(forall|j: int| 0 <= j < k ==> ints_of(vals@)[j] == ints_of(vals_before)[j]);
            lemma_weighted_prefix(strat, ints_of(vals@), ints_of(vals_before), k as int);
            lemma_sum_take_succ(strat, k as int);
            assert(forall|t: int|
                0 <= t < strat.take(k + 1).len() ==> #[trigger] strat.take(k + 1)[t] >= 0);
            lemma_sum_prefix_le(strat, k + 1);
        }
        node_value = node_value + mf;
        k = k + 1;
    }
    proof {
        assert(spec_children(h, player, card1, card2, info_sets@, k as int).1
            =~= Seq::<int>::empty());
        assert(ints_of(vals@) + Seq::<int>::empty() =~= ints_of(vals@));
        assert(full.0 == info_sets@);
        assert(full.1 == ints_of(vals@));
    }
    let ghost s1 = info_sets@;
    proof {
        assert(entry_same_identity(s0[idx as int], s1[idx as int]));
        assert(entry_matches(s1[idx as int], card, h));
        assert(store_has(s1, card, h));
        let c = idx_of(s1, card, h);
        assert(entry_matches(s1[c], card, h));
        assert(c == idx as int);
        let c0 = idx_of(s0, card, h);
        assert(entry_matches(s0[c0], card, h));
        assert(c0 == idx as int);
        assert(s1[idx as int].node.regret_sum.len() == s0[idx as int].node.regret_sum.len());
        assert(s0[idx as int].node.wf());
        assert(s0[idx as int].node.actions == spec_legal_actions(false, h));
        assert(s1[idx as int].node.regret_sum.len() == actions@.len());
        assert(s1[idx as int].node.strategy_sum.len() == actions@.len());
        assert(k as int * spec_growth(dm1) <= 2 * spec_growth(dm1)) by (nonlinear_arith)
            requires
                k as int <= 2,
                spec_growth(dm1) >= 0,
        ;
        assert(store_bounded(s1, lb + 2 * spec_growth(dm1)));
        assert(node_bounded(s1[idx as int].node, lb + 2 * spec_growth(dm1)));
        if actions@.len() > 0 {
            assert(d >= 1);
            assert(spec_growth(d) == NODE_GROW + 2 * spec_growth(dm1));
            assert(strat.take(k as int) =~= strat);
            assert(-2 * SCALE <= node_value as int <= 2 * SCALE);
        } else {
            assert(k == 0);
            assert(node_value == 0);
        }
    }
    info_sets.update_node(idx, &vals, &strategy, node_value);
    proof {
        let updated = EntryView {
            node: spec_update_node(
                s1[idx as int].node,
                ints_of(vals@),
                strat,
                node_value as int,
            ),
            ..s1[idx as int]
        };
        assert(info_sets@ == s1.update(idx as int, updated));
        assert(spec_cfr(h, player, false, card1, card2, s_in).0 == info_sets@);
        assert(spec_cfr(h, player, false, card1, card2, s_in).1 == (if player == Player::Player1 {
            node_value as int
        } else {
            -(node_value as int)
        }));
        assert(entry_matches(info_sets@[idx as int], card, h));
        assert(store_has(info_sets@, card, h));
        assert forall|i: int|
            0 <= i < s_in.len() implies entry_same_identity(
            s_in[i],
            #[trigger] info_sets@[i],
        ) by {
            assert(s0[i] == s_in[i]);
            assert(entry_same_identity(s0[i], s1[i]));
        }
        assert forall|b: int| b >= 0 && store_bounded(s_in, b) implies store_bounded(
            info_sets@,
            b + spec_growth(d),
        ) by {
            assert(store_bounded(s0, b));
            let mid = b + k * spec_growth(dm1);
            assert(store_bounded(s1, mid));
            assert(k as int * spec_growth(dm1) <= 2 * spec_growth(dm1)) by (nonlinear_arith)
                requires
                    0 <= k as int <= 2,
                    spec_growth(dm1) >= 0,
            ;
            if actions@.len() > 0 {
                assert(d >= 1);
                assert(spec_growth(d) == NODE_GROW + 2 * spec_growth(dm1));
            } else {
                assert(k == 0);
                assert(k as int * spec_growth(dm1) == 0) by (nonlinear_arith)
                    requires
                        k as int == 0,
                ;
            }
            assert(mid + 4 * SCALE <= b + spec_growth(d));
            assert forall|i: int|
                0 <= i < info_sets@.len() implies node_bounded(
                (#[trigger] info_sets@[i]).node,
                b + spec_growth(d),
            ) by {
                assert(node_bounded(s1[i].node, mid));
                if i == idx as int {
                    assert(info_sets@[i].node == updated.node);
                    assert forall|t: int|
                        0 <= t < updated.node.regret_sum.len() implies -(b + spec_growth(d))
                        <= #[trigger] updated.node.regret_sum[t] <= b + spec_growth(d) by {
                        assert(-mid <= s1[i].node.regret_sum[t] <= mid);
                        if 0 <= t < ints_of(vals@).len() {
                            assert(-2 * SCALE <= vals@[t] <= 2 * SCALE);
                            assert(i64::MIN <= s1[i].node.regret_sum[t] + vals@[t] - node_value
                                <= i64::MAX);
                            assert(updated.node.regret_sum[t] == s1[i].node.regret_sum[t]
                                + vals@[t] - node_value);
                        }
                    }
                    assert forall|t: int|
                        0 <= t < updated.node.strategy_sum.len() implies -(b + spec_growth(d))
                        <= #[trigger] updated.node.strategy_sum[t] <= b + spec_growth(d) by {
                        assert(-mid <= s1[i].node.strategy_sum[t] <= mid);
                        if 0 <= t < strat.len() {
                            assert(0 <= strat[t] <= SCALE);
                            assert(s1[i].node.strategy_sum[t] + strat[t] <= i64::MAX);
                            assert(updated.node.strategy_sum[t] == s1[i].node.strategy_sum[t]
                                + strat[t]);
                        }
                    }
                } else {
                    assert(info_sets@[i].node == s1[i].node);
                }
            }
        }
    }
    match state.current_player {
        Player::Player1 => node_value,
        Player::Player2 => -node_value,
    }
}

/// The iteration cap that keeps every accumulator below `ACC_LIMIT`: even
/// this many training passes cannot overflow a 64-bit accumulator.
pub const MAX_ITERATIONS: usize = 1_000_000_000;

/// The store after running the solver on the first `j` deals of the fixed
/// enumeration, starting from `s`.
pub open spec fn spec_deal_round(s: Seq<EntryView>, j: int) -> Seq<EntryView>
    decreases j,
{
    if j <= 0 {
        s
    } else {
        let prev = spec_deal_round(s, j - 1);
        spec_cfr(
            Seq::empty(),
            Player::Player1,
            false,
            spec_deals()[j - 1].0,
            spec_deals()[j - 1].1,
            prev,
        ).0
    }
}

/// The store after `n` full training passes, each running the solver once
/// per deal in the fixed order, starting from an empty store.
pub open spec fn spec_train(n: nat) -> Seq<EntryView>
    decreases n,
{
    if n == 0 {
        Seq::empty()
    } else {
        spec_deal_round(spec_train((n - 1) as nat), 6)
    }
}

/// Runs `iterations` training passes: for each pass, one solver call per
/// deal against a fresh initial state and the same accumulating store. The
/// result is pinned exactly by `spec_train`, so training is deterministic:
/// two runs with the same iteration count return equal stores.
pub fn train(iterations: usize) -> (store: InfoSetMap)
    requires
        iterations <= MAX_ITERATIONS,
    ensures
        store.wf(),
        store@ == spec_train(iterations as nat),
{
    let mut info_sets = InfoSetMap::new();
    let deals = deal_cards();
    let mut i: usize = 0;
    while i < iterations
        invariant
            i <= iterations,
            iterations <= MAX_ITERATIONS,
            deals@ == spec_deals(),
            info_sets.wf(),
            info_sets@ == spec_train(i as nat),
            store_bounded(info_sets@, (i as int) * 720_000_000),
        decreases iterations - i,
    {
        let mut j: usize = 0;
        while j < deals.len()
            invariant
                j <= 6,
                i < iterations,
                iterations <= MAX_ITERATIONS,
                deals@ == spec_deals(),
                deals@.len() == 6,
                info_sets.wf(),
                info_sets@ == spec_deal_round(spec_train(i as nat), j as int),
                store_bounded(info_sets@, (i as int) * 720_000_000 + (j as int) * 120_000_000),
            decreases 6 - j,
        {
            let (c1, c2) = deals[j];
            let state = GameState::new();
            let ghost before = info_sets@;
            let ghost bound = (i as int) * 720_000_000 + (j as int) * 120_000_000;
            proof {
                assert(spec_growth(3) == 120_000_000);
                assert(depth_left(state.history@) == 3);
                assert(bound <= ACC_LIMIT as int - spec_growth(3));
                lemma_store_bounded_widen(info_sets@, bound, ACC_LIMIT as int - spec_growth(3));
            }
            cfr(&state, c1, c2, &mut info_sets);
            proof {
                assert(info_sets@ == spec_cfr(
                    Seq::empty(),
                    Player::Player1,
                    false,
                    spec_deals()[j as int].0,
                    spec_deals()[j as int].1,
                    before,
                ).0);
                assert(info_sets@ == spec_deal_round(spec_train(i as nat), j + 1));
                assert(store_bounded(info_sets@, bound + 120_000_000));
            }
            j = j + 1;
        }
        proof {
            assert(info_sets@ == spec_deal_round(spec_train(i as nat), 6));
            assert(spec_train((i + 1) as nat) == spec_deal_round(spec_train(i as nat), 6));
        }
        i = i + 1;
    }
    info_sets
}

} // verus!
