//! A game that the program plays against itself, and the training samples it gives.

use vstd::prelude::*;
use crate::game::board::{Board, BoardState, Color};
use crate::game::laws::{
    filled, law_empty_board_is_unfilled, law_game_ends, law_initial_is_consistent,
    law_move_fills_one_entry, law_players_alternate, law_winner_moved_last,
};
use crate::mcts::config::GumbelConfig;
use crate::mcts::game::{worth, worth_of, Game, Outcome};
use crate::number::{exact, v_count, Real, Score};

verus! {

/// A training sample.
#[derive(Debug, Clone)]
pub struct PlayRecord<V> {
    /// The position as the player to move sees it.
    pub state: Vec<i32>,
    /// The policy that the search found.
    pub policy: Vec<V>,
    /// How the game ended for the player to move; what the search found, while it goes on.
    pub value: V,
    /// The weight with which the sample is drawn.
    pub sample_weight: V,
    /// The player to move.
    pub player: Color,
}

impl<V: Score> Default for PlayRecord<V> {
    /// An empty sample, for Black.
    fn default() -> (record: PlayRecord<V>)
        ensures
            record.state@ == Seq::<i32>::empty(),
            record.policy@ == Seq::<V>::empty(),
            V::zero.ensures((), record.value),
            V::zero.ensures((), record.sample_weight),
            record.player == Color::Black,
    {
        PlayRecord {
            state: Vec::new(),
            policy: Vec::new(),
            value: V::zero(),
            sample_weight: V::zero(),
            player: Color::default(),
        }
    }
}

/// A finished game.
pub struct SelfPlayGame<V> {
    pub records: Vec<PlayRecord<V>>,
    pub winner: Option<Color>,
}

impl<V> SelfPlayGame<V> {
    /// The number of moves.
    pub fn num_steps(&self) -> (n: usize)
        ensures
            n == self.records@.len(),
    {
        self.records.len()
    }
}

/// The parameters of self-play.
#[derive(Debug, Clone, Copy)]
pub struct SelfPlayConfig<V> {
    pub num_simulations: usize,
    /// The temperature at which moves are drawn.
    pub select_temperature: V,
}

impl<V: Real> Default for SelfPlayConfig<V> {
    fn default() -> (config: SelfPlayConfig<V>)
        ensures
            exact::<V>() ==> config == (SelfPlayConfig {
                num_simulations: 64,
                select_temperature: v_count::<V>(1),
            }),
    {
        SelfPlayConfig { num_simulations: 64, select_temperature: V::count(1) }
    }
}

impl<V: Real> SelfPlayConfig<V> {
    /// The parameters of the searches.
    pub fn search_config(&self) -> (config: GumbelConfig<V>)
        requires
            exact::<V>(),
        ensures
            config == (GumbelConfig {
                num_simulations: self.num_simulations,
                add_dirichlet_noise: false,
                select_temperature: self.select_temperature,
                ..GumbelConfig::<V>::standard()
            }),
    {
        let mut config: GumbelConfig<V> = GumbelConfig::pure_gumbel(self.num_simulations);
        config.select_temperature = self.select_temperature;
        config
    }
}

/// How a game with this winner ended for `player`.
pub open spec fn result_for(winner: Option<Color>, player: Color) -> Outcome {
    match winner {
        Some(color) => if color == player {
            Outcome::Win
        } else {
            Outcome::Loss
        },
        None => Outcome::Draw,
    }
}

/// How a game with this winner ended for `player`.
pub fn outcome_for(winner: Option<Color>, player: Color) -> (outcome: Outcome)
    ensures
        outcome == result_for(winner, player),
{
    match winner {
        Some(color) => if color == player {
            Outcome::Win
        } else {
            Outcome::Loss
        },
        None => Outcome::Draw,
    }
}

/// A game ends for one player as the reverse of how it ends for the other, and the winner
/// has won.
pub proof fn law_results_are_opposed(winner: Option<Color>, player: Color)
    ensures
        result_for(winner, player.other()) == result_for(winner, player).reversed(),
        result_for(winner, player) == Outcome::Win <==> winner == Some(player),
{
}

/// The record was made at the position `board`.
pub open spec fn made_at<V>(record: PlayRecord<V>, board: BoardState) -> bool {
    &&& record.state@ == board.encoding()
    &&& record.player == board.player
}

/// The records are those of a game from its start on, one for each move: record `i` was made
/// when `i` stones lay on the board, and Black and White moved in turn.
pub open spec fn in_turn<V>(records: Seq<PlayRecord<V>>) -> bool {
    forall|i: int|
        0 <= i < records.len() ==> {
            &&& filled((#[trigger] records[i]).state@) == i
            &&& records[i].player == (if i % 2 == 0 {
                Color::Black
            } else {
                Color::White
            })
        }
}

/// A game of self-play under way.
pub struct SelfPlay<V> {
    pub board: Board,
    pub records: Vec<PlayRecord<V>>,
}

impl<V: Real> SelfPlay<V> {
    /// The board is a position that play can reach, and there is a record of each move.
    pub open spec fn wf(&self) -> bool {
        &&& self.board.ready()
        &&& self.records@.len() == self.board@.steps
        &&& filled(self.board@.encoding()) == self.board@.steps
        &&& in_turn(self.records@)
    }

    /// A game at its start.
    pub fn new() -> (game: SelfPlay<V>)
        ensures
            game.wf(),
            game.board@ == BoardState::initial(6, 4),
            game.records@.len() == 0,
    {
        proof {
            law_initial_is_consistent(6, 4);
            law_empty_board_is_unfilled(6, 4);
        }
        SelfPlay { board: Board::new(), records: Vec::new() }
    }

    /// Takes in what the search found at the present position: plays the chosen action,
    /// keeps a record of the move, and tells whether the game is over. An action that is not
    /// legal changes nothing.
    pub fn record_move(
        &mut self,
        policy: Vec<V>,
        root_value: V,
        sample_weight: V,
        best_move: usize,
    ) -> (over: bool)
        requires
            old(self).wf(),
        ensures
            final(self).wf(),
            final(self).board@ == Board::next(old(self).board@, best_move as int),
            over == final(self).board@.over,
            ({
                let before = old(self).board@;
                if before.legal(best_move as int / before.size, best_move as int % before.size) {
                    &&& final(self).records@.len() == old(self).records@.len() + 1
                    &&& final(self).records@.drop_last() == old(self).records@
                    &&& made_at(final(self).records@.last(), before)
                    &&& final(self).records@.last().policy == policy
                    &&& final(self).records@.last().value == root_value
                    &&& final(self).records@.last().sample_weight == sample_weight
                } else {
                    final(self).records@ == old(self).records@
                }
            }),
    {
        let ghost before = self.board@;
        let ghost kept = self.records@;
        proof {
            let row = best_move as int / before.size;
            let col = best_move as int % before.size;
            law_game_ends(before, row, col);
            law_players_alternate(before);
            if before.legal(row, col) {
                law_move_fills_one_entry(before, row, col);
            }
        }
        let state = self.board.encode_state();
        let player: Color = self.board.current_player;
        let played: bool = self.board.play_idx(best_move);
        if played {
            self.records.push(
                PlayRecord { state, policy, value: root_value, sample_weight, player },
            );
            assert(self.records@.drop_last() =~= kept);
        }
        self.board.game_over
    }

    /// Ends the game: each record gets the number for how the game ended for its player. If
    /// somebody won, the last record is one of theirs.
    pub fn finish(self) -> (game: SelfPlayGame<V>)
        requires
            exact::<V>(),
            self.wf(),
        ensures
            game.winner == self.board@.winner,
            game.records@.len() == self.records@.len(),
            forall|i: int|
                0 <= i < game.records@.len() ==> #[trigger] game.records@[i] == (PlayRecord {
                    value: worth(result_for(self.board@.winner, self.records@[i].player)),
                    ..self.records@[i]
                }),
            in_turn(game.records@),
            game.winner is Some ==> {
                &&& game.records@.len() > 0
                &&& Some(game.records@.last().player) == game.winner
                &&& game.records@.last().value == worth::<V>(Outcome::Win)
            },
    {
        proof {
            law_players_alternate(self.board@);
            law_winner_moved_last(self.board@);
        }
        let winner: Option<Color> = self.board.winner;
        let mut records = self.records;
        let n: usize = records.len();
        for i in 0..n
            invariant
                exact::<V>(),
                n == records@.len(),
                winner == self.board@.winner,
                records@.len() == self.records@.len(),
                forall|k: int|
                    0 <= k < i ==> #[trigger] records@[k] == (PlayRecord {
                        value: worth(result_for(winner, self.records@[k].player)),
                        ..self.records@[k]
                    }),
                forall|k: int| i <= k < records@.len() ==> #[trigger] records@[k] == self.records@[k],
        {
            let label: V = worth_of(outcome_for(winner, records[i].player));
            records[i].value = label;
        }
        proof {
            assert forall|i: int| 0 <= i < records@.len() implies {
                &&& filled((#[trigger] records@[i]).state@) == i
                &&& records@[i].player == (if i % 2 == 0 {
                    Color::Black
                } else {
                    Color::White
                })
            } by {
                assert(filled(self.records@[i].state@) == i);
            }
            if winner is Some {
                let last = records@.len() - 1;
                assert(records@[last].player == self.records@[last].player);
            }
        }
        SelfPlayGame { winner, records }
    }
}

} // verus!
