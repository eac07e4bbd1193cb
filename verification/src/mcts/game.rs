//! What the tree search asks of a game.

use vstd::prelude::*;
use crate::game::board::{law_play_keeps_consistent, Board, BoardState, Color};
use crate::game::laws::{
    law_game_ends, law_index_round_trip, law_listed_actions_are_legal, law_open_game_has_a_move,
};
use crate::game::lines::has_line;
use crate::number::{exact, v_count, v_negated, v_zero, Real};

verus! {

/// An action, numbered from 0 up to the size of the action space.
pub type ActionId = usize;

/// How a finished game ended for the player to move.
#[derive(Debug, Clone, Copy, PartialEq, Eq, Structural)]
pub enum Outcome {
    Win,
    Draw,
    Loss,
}

impl Outcome {
    /// The return of the outcome: 1 for a win, 0 for a draw, -1 for a loss.
    pub open spec fn value(self) -> int {
        match self {
            Outcome::Win => 1,
            Outcome::Draw => 0,
            Outcome::Loss => -1,
        }
    }

    /// The outcome as the other of two players sees it.
    pub open spec fn reversed(self) -> Outcome {
        match self {
            Outcome::Win => Outcome::Loss,
            Outcome::Draw => Outcome::Draw,
            Outcome::Loss => Outcome::Win,
        }
    }

    /// The return of the outcome: 1 for a win, 0 for a draw, -1 for a loss.
    pub fn sign(self) -> (value: i32)
        ensures
            value == self.value(),
    {
        match self {
            Outcome::Win => 1,
            Outcome::Draw => 0,
            Outcome::Loss => -1,
        }
    }

    /// The outcome as the other of two players sees it.
    pub fn flip(self) -> (outcome: Outcome)
        ensures
            outcome == self.reversed(),
    {
        match self {
            Outcome::Win => Outcome::Loss,
            Outcome::Draw => Outcome::Draw,
            Outcome::Loss => Outcome::Win,
        }
    }
}

/// What one player gains of an outcome the other loses.
pub proof fn law_outcomes_sum_to_zero(outcome: Outcome)
    ensures
        outcome.value() + outcome.reversed().value() == 0,
        outcome.reversed().reversed() == outcome,
{
}

/// The product of the extents of a shape.
pub open spec fn extent(shape: Seq<usize>) -> int
    decreases shape.len(),
{
    if shape.len() == 0 {
        1
    } else {
        extent(shape.drop_last()) * shape.last()
    }
}

/// A game in which players choose among numbered actions. The tree search knows a game only
/// through this trait. `Self::V`, the view, is the state of the game.
pub trait Game: Sized + View {
    /// A player.
    type Player: Copy;

    /// What holds of every state that play can reach.
    spec fn reachable(state: Self::V) -> bool;

    /// The value at hand represents its state and can be played on.
    spec fn ready(&self) -> bool;

    /// The size of the action space.
    spec fn width(state: Self::V) -> int;

    /// The player to move.
    spec fn mover(state: Self::V) -> Self::Player;

    /// The player to move after `player`.
    spec fn successor(player: Self::Player) -> Self::Player;

    /// The game is over.
    spec fn finished(state: Self::V) -> bool;

    /// The legal actions, in the order in which they are listed.
    spec fn actions(state: Self::V) -> Seq<usize>;

    /// The state after an action is attempted; an illegal one changes nothing.
    spec fn next(state: Self::V, action: int) -> Self::V;

    /// The state as the player to move sees it, as the input of a network.
    spec fn input(state: Self::V) -> Seq<i32>;

    /// The shape of an input.
    fn encode_shape(&self) -> (shape: &[usize])
        requires
            self.ready(),
        ensures
            extent(shape@) == Self::input(self@).len(),
    ;

    /// The size of the action space.
    fn action_shape(&self) -> (n: usize)
        requires
            self.ready(),
        ensures
            n == Self::width(self@),
    ;

    /// The player to move.
    fn current_player(&self) -> (player: Self::Player)
        requires
            self.ready(),
        ensures
            player == Self::mover(self@),
    ;

    /// The game is over.
    fn is_terminal(&self) -> (over: bool)
        requires
            self.ready(),
        ensures
            over == Self::finished(self@),
    ;

    /// The legal actions.
    fn legal_actions(&self) -> (actions: Vec<ActionId>)
        requires
            self.ready(),
        ensures
            actions@ == Self::actions(self@),
    ;

    /// Attempts an action and tells whether it was legal.
    fn play(&mut self, action: ActionId) -> (played: bool)
        requires
            old(self).ready(),
        ensures
            final(self).ready(),
            final(self)@ == Self::next(old(self)@, action as int),
            played == Self::actions(old(self)@).contains(action),
    ;

    /// The state as the player to move sees it, as the input of a network.
    fn encode(&self) -> (input: Vec<i32>)
        requires
            self.ready(),
        ensures
            input@ == Self::input(self@),
    ;

    /// The player to move after `current`.
    fn next_player(current: Self::Player) -> (player: Self::Player)
        ensures
            player == Self::successor(current),
    ;

    /// A second value with the same state.
    fn duplicate(&self) -> (copy: Self)
        requires
            self.ready(),
        ensures
            copy.ready(),
            copy@ == self@,
    ;

    /// A value that can be played on has a reachable state.
    proof fn lemma_ready(&self)
        requires
            self.ready(),
        ensures
            Self::reachable(self@),
    ;

    /// Play keeps to the reachable states and to one action space; every action that is
    /// listed belongs to that space and is listed once; an action that is not listed changes nothing; and a listed one hands the move to the
    /// successor of the player to move.
    proof fn law_rules(state: Self::V, action: usize)
        requires
            Self::reachable(state),
        ensures
            Self::reachable(Self::next(state, action as int)),
            Self::width(Self::next(state, action as int)) == Self::width(state),
            0 <= Self::width(state) <= usize::MAX,
            Self::actions(state).no_duplicates(),
            forall|k: int|
                0 <= k < Self::actions(state).len() ==> (#[trigger] Self::actions(state)[k])
                    < Self::width(state),
            !Self::actions(state).contains(action) ==> Self::next(state, action as int) == state,
            Self::actions(state).contains(action) ==> Self::mover(
                Self::next(state, action as int),
            ) == Self::successor(Self::mover(state)),
    ;
}

/// A game that returns numbers to its players. What a finished game returns, and how a number
/// is passed from one player to the next, is up to the game: with two opponents it changes its
/// sign, with a single player it may stay as it is or be discounted.
pub trait Scored<N: Real>: Game {
    /// What the finished game returns to the player to move, `None` while it goes on.
    spec fn result(state: Self::V) -> Option<N>;

    /// The number `value` of a state as the player to move in the state before sees it.
    spec fn flipped(value: N) -> N;

    /// What the finished game returns to the player to move, `None` while it goes on.
    fn terminal_value(&self) -> (value: Option<N>)
        requires
            exact::<N>(),
            self.ready(),
        ensures
            value == Self::result(self@),
    ;

    /// The number `value` of a state as the player to move in the state before sees it.
    fn flip_perspective(value: N) -> (flipped: N)
        requires
            exact::<N>(),
        ensures
            flipped == Self::flipped(value),
    ;

    /// Exactly a finished game returns a number.
    proof fn law_result(state: Self::V)
        ensures
            Self::result(state) is Some <==> Self::finished(state),
    ;
}

/// The number that an outcome is worth: 1 for a win, 0 for a draw, -1 for a loss.
pub open spec fn worth<N: Real>(outcome: Outcome) -> N {
    match outcome {
        Outcome::Win => v_count(1),
        Outcome::Draw => v_zero(),
        Outcome::Loss => v_negated(v_count(1)),
    }
}

/// The number that an outcome is worth: see `worth`.
pub fn worth_of<N: Real>(outcome: Outcome) -> (value: N)
    requires
        exact::<N>(),
    ensures
        value == worth::<N>(outcome),
{
    match outcome {
        Outcome::Win => N::count(1),
        Outcome::Draw => N::zero(),
        Outcome::Loss => N::count(1).negated(),
    }
}

impl BoardState {
    /// How the game ended for the player to move, `None` while it goes on.
    pub open spec fn outcome(self) -> Option<Outcome> {
        if !self.over {
            None
        } else {
            match self.winner {
                Some(color) => Some(
                    if color == self.player {
                        Outcome::Win
                    } else {
                        Outcome::Loss
                    },
                ),
                None => Some(Outcome::Draw),
            }
        }
    }
}

impl Board {
    /// How the game ended for the player to move, `None` while it goes on.
    pub fn outcome(&self) -> (outcome: Option<Outcome>)
        ensures
            outcome == self@.outcome(),
    {
        if !self.game_over {
            return None;
        }
        let outcome = match self.winner {
            Some(color) => if color == self.current_player {
                Outcome::Win
            } else {
                Outcome::Loss
            },
            None => Outcome::Draw,
        };
        Some(outcome)
    }
}

impl<N: Real> Scored<N> for Board {
    open spec fn result(state: BoardState) -> Option<N> {
        match state.outcome() {
            Some(outcome) => Some(worth(outcome)),
            None => None,
        }
    }

    open spec fn flipped(value: N) -> N {
        v_negated(value)
    }

    fn terminal_value(&self) -> (value: Option<N>) {
        match self.outcome() {
            Some(outcome) => Some(worth_of(outcome)),
            None => None,
        }
    }

    fn flip_perspective(value: N) -> (flipped: N) {
        value.negated()
    }

    proof fn law_result(state: BoardState) {
    }
}

/// An action is listed exactly when its cell may be filled.
proof fn lemma_listed_iff_legal(state: BoardState, action: usize)
    requires
        state.shaped(),
    ensures
        state.open_actions().contains(action) <==> state.legal(
            action as int / state.size,
            action as int % state.size,
        ),
{
    let size = state.size;
    let a = action as int;
    law_listed_actions_are_legal(state);
    if state.open_actions().contains(action) {
        let i = choose|i: int|
            0 <= i < state.open_actions().len() && state.open_actions()[i] == action;
        assert(state.legal(a / size, a % size));
    }
    if state.legal(a / size, a % size) {
        assert(a < size * size) by (nonlinear_arith)
            requires
                size > 0,
                a / size < size,
                a >= 0,
        ;
        law_index_round_trip(size, 0, 0, a);
        assert(state.open_actions().contains(((a / size) * size + a % size) as usize));
    }
}

impl Game for Board {
    type Player = Color;

    open spec fn reachable(state: BoardState) -> bool {
        state.consistent()
    }

    open spec fn ready(&self) -> bool {
        self.wf() && self@.consistent()
    }

    open spec fn width(state: BoardState) -> int {
        state.size * state.size
    }

    open spec fn mover(state: BoardState) -> Color {
        state.player
    }

    open spec fn successor(player: Color) -> Color {
        player.other()
    }

    open spec fn finished(state: BoardState) -> bool {
        state.over
    }

    open spec fn actions(state: BoardState) -> Seq<usize> {
        state.open_actions()
    }

    open spec fn next(state: BoardState, action: int) -> BoardState {
        state.attempted(action / state.size, action % state.size)
    }

    open spec fn input(state: BoardState) -> Seq<i32> {
        state.encoding()
    }

    fn encode_shape(&self) -> (shape: &[usize])
        ensures
            shape@ == seq![(self.board_size * self.board_size) as usize],
    {
        let shape = self.encode_shape_storage.as_slice();
        assert(shape@.drop_last() =~= Seq::empty());
        assert(extent(shape@.drop_last()) == 1);
        shape
    }

    fn action_shape(&self) -> (n: usize) {
        self.num_positions()
    }

    fn current_player(&self) -> (player: Color) {
        self.current_player
    }

    fn is_terminal(&self) -> (over: bool) {
        self.game_over
    }

    fn legal_actions(&self) -> (actions: Vec<ActionId>) {
        Board::legal_actions(self)
    }

    fn play(&mut self, action: ActionId) -> (played: bool) {
        proof {
            lemma_listed_iff_legal(self@, action);
            law_game_ends(self@, 0, 0);
        }
        self.play_idx(action)
    }

    fn encode(&self) -> (input: Vec<i32>) {
        self.encode_state()
    }

    fn next_player(current: Color) -> (player: Color) {
        current.opponent()
    }

    fn duplicate(&self) -> (copy: Board) {
        self.clone()
    }

    proof fn lemma_ready(&self) {
    }

    proof fn law_rules(state: BoardState, action: usize) {
        lemma_listed_iff_legal(state, action);
        law_listed_actions_are_legal(state);
        let row = action as int / state.size;
        let col = action as int % state.size;
        if state.legal(row, col) {
            law_play_keeps_consistent(state, row, col);
        }
        law_open_game_has_a_move(state);
    }
}

/// A game on a board goes on exactly as long as an action is listed.
pub proof fn law_board_goes_on(state: BoardState)
    requires
        Board::reachable(state),
    ensures
        !Board::finished(state) <==> Board::actions(state).len() > 0,
{
    law_open_game_has_a_move(state);
}

/// In a finished game on a board the player to move has not won: they have lost when a line of
/// the other player stands, and when the board is full without one it is a draw.
pub proof fn law_mover_has_not_won(state: BoardState)
    requires
        Board::reachable(state),
    ensures
        state.outcome() != Some(Outcome::Win),
        state.outcome() == Some(Outcome::Loss) <==> has_line(
            state.rows,
            state.size,
            state.player.other().stone(),
            state.win_length,
        ),
        state.outcome() == Some(Outcome::Draw) <==> state.steps == state.size * state.size
            && !has_line(
            state.rows,
            state.size,
            state.player.other().stone(),
            state.win_length,
        ),
{
    assert(state.winner == Some(state.player.other()) <==> has_line(
        state.rows,
        state.size,
        state.player.other().stone(),
        state.win_length,
    ));
}

} // verus!
