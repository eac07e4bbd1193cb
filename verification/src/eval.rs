//! Matches between two players of different strength.

use rand::rngs::StdRng;
use vstd::prelude::*;
use crate::game::board::{Board, BoardState, Color};
use crate::game::laws::{law_game_ends, law_initial_is_consistent};
use crate::mcts::config::GumbelConfig;
use crate::mcts::game::Game;
use crate::number::{
    exact, exact_curve, unrounded, v_count, v_larger, v_milli, v_minus, v_over, v_plus, v_positive,
    v_raised, v_smaller, v_times, Curve, Real,
};
use crate::random::{draw_seed, seed_list, seeds_from};
use crate::reals::{
    lemma_distribute, lemma_quotient, lemma_raise_sum, lemma_raise_zero, lemma_rearrange,
    unrounded_waves,
};

verus! {

/// How a game of a match ended.
#[derive(Debug, Clone, Copy, PartialEq, Eq, Structural)]
pub enum GameOutcome {
    BlackWins,
    WhiteWins,
    Draw,
}

/// How a match between the current player and the baseline ended.
#[derive(Debug, Clone, Copy, PartialEq, Eq, Structural)]
pub struct MatchResult {
    pub total_games: usize,
    pub wins_current: usize,
    pub wins_baseline: usize,
    pub draws: usize,
    pub black_wins: usize,
    pub white_wins: usize,
}

impl Default for MatchResult {
    fn default() -> (result: MatchResult)
        ensures
            result == (MatchResult {
                total_games: 0,
                wins_current: 0,
                wins_baseline: 0,
                draws: 0,
                black_wins: 0,
                white_wins: 0,
            }),
    {
        MatchResult {
            total_games: 0,
            wins_current: 0,
            wins_baseline: 0,
            draws: 0,
            black_wins: 0,
            white_wins: 0,
        }
    }
}

/// How many games ended with `outcome`.
pub open spec fn count_of(outcomes: Seq<GameOutcome>, outcome: GameOutcome) -> int
    decreases outcomes.len(),
{
    if outcomes.len() == 0 {
        0
    } else {
        count_of(outcomes.drop_last(), outcome) + (if outcomes.last() == outcome {
            1int
        } else {
            0int
        })
    }
}

/// Every game ended in one of the three ways.
pub proof fn law_outcomes_add_up(outcomes: Seq<GameOutcome>)
    ensures
        count_of(outcomes, GameOutcome::BlackWins) >= 0,
        count_of(outcomes, GameOutcome::WhiteWins) >= 0,
        count_of(outcomes, GameOutcome::Draw) >= 0,
        count_of(outcomes, GameOutcome::BlackWins) + count_of(outcomes, GameOutcome::WhiteWins)
            + count_of(outcomes, GameOutcome::Draw) == outcomes.len(),
    decreases outcomes.len(),
{
    if outcomes.len() > 0 {
        law_outcomes_add_up(outcomes.drop_last());
    }
}

impl MatchResult {
    /// The result of a match in which the current player was black in the games `as_black`
    /// and white in the games `as_white`.
    pub open spec fn is_of(
        self,
        as_black: Seq<GameOutcome>,
        as_white: Seq<GameOutcome>,
    ) -> bool {
        let black = count_of(as_black, GameOutcome::BlackWins) + count_of(
            as_white,
            GameOutcome::BlackWins,
        );
        let white = count_of(as_black, GameOutcome::WhiteWins) + count_of(
            as_white,
            GameOutcome::WhiteWins,
        );
        &&& self.total_games == as_black.len() + as_white.len()
        &&& self.wins_current == count_of(as_black, GameOutcome::BlackWins) + count_of(
            as_white,
            GameOutcome::WhiteWins,
        )
        &&& self.wins_baseline == count_of(as_black, GameOutcome::WhiteWins) + count_of(
            as_white,
            GameOutcome::BlackWins,
        )
        &&& self.draws == count_of(as_black, GameOutcome::Draw) + count_of(
            as_white,
            GameOutcome::Draw,
        )
        &&& self.black_wins == black
        &&& self.white_wins == white
    }

    /// Adds up the games of a match: see `is_of`.
    pub fn of_games(as_black: &Vec<GameOutcome>, as_white: &Vec<GameOutcome>) -> (result: MatchResult)
        requires
            as_black@.len() + as_white@.len() <= usize::MAX,
        ensures
            result.is_of(as_black@, as_white@),
    {
        let mut result = MatchResult::default();
        result.total_games = as_black.len() + as_white.len();
        let ghost none = Seq::<GameOutcome>::empty();
        assert(as_black@.take(0) =~= none);
        for i in 0..as_black.len()
            invariant
                as_black@.len() + as_white@.len() <= usize::MAX,
                result.total_games == as_black@.len() + as_white@.len(),
                (MatchResult { total_games: i, ..result }).is_of(
                    as_black@.take(i as int),
                    none,
                ),
                none == Seq::<GameOutcome>::empty(),
        {
            proof {
                law_outcomes_add_up(as_black@.take(i as int));
                assert(as_black@.take(i + 1).drop_last() =~= as_black@.take(i as int));
            }
            match as_black[i] {
                GameOutcome::BlackWins => {
                    result.wins_current = result.wins_current + 1;
                    result.black_wins = result.black_wins + 1;
                },
                GameOutcome::WhiteWins => {
                    result.wins_baseline = result.wins_baseline + 1;
                    result.white_wins = result.white_wins + 1;
                },
                GameOutcome::Draw => {
                    result.draws = result.draws + 1;
                },
            }
        }
        let played: usize = as_black.len();
        proof {
            assert(as_black@.take(as_black@.len() as int) =~= as_black@);
            assert(as_white@.take(0) =~= none);
        }
        for i in 0..as_white.len()
            invariant
                played == as_black@.len(),
                as_black@.len() + as_white@.len() <= usize::MAX,
                result.total_games == as_black@.len() + as_white@.len(),
                (MatchResult { total_games: (played + i) as usize, ..result }).is_of(
                    as_black@,
                    as_white@.take(i as int),
                ),
        {
            proof {
                law_outcomes_add_up(as_black@);
                law_outcomes_add_up(as_white@.take(i as int));
                assert(as_white@.take(i + 1).drop_last() =~= as_white@.take(i as int));
            }
            match as_white[i] {
                GameOutcome::BlackWins => {
                    result.wins_baseline = result.wins_baseline + 1;
                    result.black_wins = result.black_wins + 1;
                },
                GameOutcome::WhiteWins => {
                    result.wins_current = result.wins_current + 1;
                    result.white_wins = result.white_wins + 1;
                },
                GameOutcome::Draw => {
                    result.draws = result.draws + 1;
                },
            }
        }
        assert(as_white@.take(as_white@.len() as int) =~= as_white@);
        result
    }

    /// The win rate of the current player as a fraction: a win counts two points, a draw
    /// one, out of two for each game. Without games it is one half.
    pub fn win_rate_current(&self) -> (rate: (u128, u128))
        ensures
            rate == (if self.total_games == 0 {
                (1u128, 2u128)
            } else {
                ((2 * self.wins_current + self.draws) as u128, (2 * self.total_games) as u128)
            }),
    {
        if self.total_games == 0 {
            return (1, 2);
        }
        (
            2 * self.wins_current as u128 + self.draws as u128,
            2 * self.total_games as u128,
        )
    }
}

/// In the result of a match the wins and draws of both players add up to the games, and so
/// do those of both colours.
pub proof fn law_match_adds_up(
    result: MatchResult,
    as_black: Seq<GameOutcome>,
    as_white: Seq<GameOutcome>,
)
    requires
        result.is_of(as_black, as_white),
    ensures
        result.wins_current + result.wins_baseline + result.draws == result.total_games,
        result.black_wins + result.white_wins + result.draws == result.total_games,
{
    law_outcomes_add_up(as_black);
    law_outcomes_add_up(as_white);
}

/// One more game of a match adds to what its outcome says, for the player who had the colour
/// that won.
pub proof fn law_game_adds_to_match(
    before: MatchResult,
    after: MatchResult,
    as_black: Seq<GameOutcome>,
    as_white: Seq<GameOutcome>,
    outcome: GameOutcome,
    current_is_black: bool,
)
    requires
        before.is_of(as_black, as_white),
        if current_is_black {
            after.is_of(as_black.push(outcome), as_white)
        } else {
            after.is_of(as_black, as_white.push(outcome))
        },
    ensures
        after.total_games == before.total_games + 1,
        after.draws == before.draws + (if outcome == GameOutcome::Draw {
            1int
        } else {
            0
        }),
        after.black_wins == before.black_wins + (if outcome == GameOutcome::BlackWins {
            1int
        } else {
            0
        }),
        after.white_wins == before.white_wins + (if outcome == GameOutcome::WhiteWins {
            1int
        } else {
            0
        }),
        after.wins_current == before.wins_current + (if outcome == (if current_is_black {
            GameOutcome::BlackWins
        } else {
            GameOutcome::WhiteWins
        }) {
            1int
        } else {
            0
        }),
{
    assert(as_black.push(outcome).drop_last() =~= as_black);
    assert(as_white.push(outcome).drop_last() =~= as_white);
}

/// When the two players change roles, their wins do, and nothing else.
pub proof fn law_roles_can_be_exchanged(
    result: MatchResult,
    exchanged: MatchResult,
    as_black: Seq<GameOutcome>,
    as_white: Seq<GameOutcome>,
)
    requires
        result.is_of(as_black, as_white),
        exchanged.is_of(as_white, as_black),
    ensures
        exchanged == (MatchResult {
            wins_current: result.wins_baseline,
            wins_baseline: result.wins_current,
            ..result
        }),
{
}

/// The points of the two players add up: what the current player does not get, the baseline
/// gets.
pub proof fn law_win_rates_add_up(
    result: MatchResult,
    as_black: Seq<GameOutcome>,
    as_white: Seq<GameOutcome>,
)
    requires
        result.is_of(as_black, as_white),
    ensures
        (2 * result.wins_current + result.draws) + (2 * result.wins_baseline + result.draws) == 2
            * result.total_games,
        0 <= 2 * result.wins_current + result.draws <= 2 * result.total_games,
{
    law_match_adds_up(result, as_black, as_white);
}

/// The current player takes the place of the baseline: its win rate exceeds the threshold.
pub fn promotes<V: Real>(win_rate: V, threshold: V) -> (promoted: bool)
    requires
        exact::<V>(),
    ensures
        promoted == v_positive(v_minus(win_rate, threshold)),
        forall|size: spec_fn(V) -> real| #[trigger]
            unrounded(size) ==> (promoted <==> size(win_rate) > size(threshold)),
{
    win_rate.minus(threshold).positive()
}

/// A rating of the current player, measured against a baseline of 1500.
pub struct EloTracker<V> {
    pub current_elo: V,
    /// The ratings after each update, with the iteration.
    pub history: Vec<(usize, V)>,
}

/// The points that a player with this rating is expected to make against the baseline.
pub open spec fn expected_points<V: Curve>(elo: V) -> V {
    let one = v_count::<V>(1);
    v_over(
        one,
        v_plus(one, v_raised(v_count(10), v_over(v_minus(v_count(1500), elo), v_count(400)))),
    )
}

/// A rating after a match: it changes by 32 times what the win rate, which counts as at least
/// 1% and at most 99%, differs from the expected points.
pub open spec fn rated<V: Curve>(elo: V, win_rate: V) -> V {
    let made = v_smaller(v_larger(win_rate, v_milli(10)), v_milli(990));
    v_plus(elo, v_times(v_count(32), v_minus(made, expected_points(elo))))
}

proof fn lemma_expected<V: Curve>(
    size: spec_fn(V) -> real,
    raise: spec_fn(real, real) -> real,
    cosine: spec_fn(real) -> real,
    sine: spec_fn(real) -> real,
    elo: V,
) -> (odds: real)
    requires
        unrounded_waves(size, raise, cosine, sine),
    ensures
        odds == raise(10real, (1500real - size(elo)) / 400real),
        odds > 0real,
        size(expected_points(elo)) * (1real + odds) == 1real,
        0real < size(expected_points(elo)) < 1real,
{
    let behind = v_over(v_minus(v_count(1500), elo), v_count(400));
    let odds = raise(10real, (1500real - size(elo)) / 400real);
    assert(size(behind) == (1500real - size(elo)) / 400real);
    assert(size(v_count::<V>(10)) == 10real);
    assert(size(v_raised(v_count(10), behind)) == odds);
    lemma_raise_sum(raise, 10real, size(behind), 0real);
    let e = size(expected_points(elo));
    assert(e == 1real / (1real + odds));
    lemma_quotient(1real, 1real + odds);
    assert(0real < e < 1real) by (nonlinear_arith)
        requires
            e * (1real + odds) == 1real,
            odds > 0real,
    ;
    odds
}

/// The expected points against the baseline: half of them for a rating like that of the
/// baseline, and with each 400 rating points more the odds are ten times as good. Two players
/// as far above as below the baseline are expected to share the points.
pub proof fn law_expected_points<V: Curve>(
    size: spec_fn(V) -> real,
    raise: spec_fn(real, real) -> real,
    cosine: spec_fn(real) -> real,
    sine: spec_fn(real) -> real,
    elo: V,
    other: V,
)
    requires
        unrounded_waves(size, raise, cosine, sine),
    ensures
        0real < size(expected_points(elo)) < 1real,
        size(elo) == 1500real ==> size(expected_points(elo)) * 2real == 1real,
        size(other) == size(elo) + 400real ==> size(expected_points(other)) * (1real - size(
            expected_points(elo),
        )) == 10real * (size(expected_points(elo)) * (1real - size(expected_points(other)))),
        size(elo) + size(other) == 3000real ==> size(expected_points(elo)) + size(
            expected_points(other),
        ) == 1real,
{
    let a = lemma_expected(size, raise, cosine, sine, elo);
    let b = lemma_expected(size, raise, cosine, sine, other);
    let e = size(expected_points(elo));
    let f = size(expected_points(other));
    let x = (1500real - size(elo)) / 400real;
    let y = (1500real - size(other)) / 400real;
    lemma_raise_zero(raise, 10real);
    lemma_distribute(1real, a, e);
    lemma_distribute(1real, b, f);
    assert(1real - e == e * a);
    assert(1real - f == f * b);
    if size(elo) == 1500real {
        assert(x == 0real);
        assert(e * 1real == e);
    }
    if size(other) == size(elo) + 400real {
        assert(x == y + 1real);
        lemma_raise_sum(raise, 10real, y, 1real);
        assert(a == b * 10real);
        lemma_rearrange(f, e, a);
        lemma_rearrange(e, f, b);
        lemma_rearrange(f * e, b, 10real);
        lemma_rearrange(e * f, b, 10real);
        lemma_rearrange(e, f, 1real);
        assert(f * (e * a) == 10real * (e * (f * b)));
    }
    if size(elo) + size(other) == 3000real {
        assert(x + y == 0real);
        lemma_raise_sum(raise, 10real, x, y);
        assert(a * b == 1real);
        assert(e + f == 1real) by (nonlinear_arith)
            requires
                1real - e == e * a,
                1real - f == f * b,
                a * b == 1real,
                a > 0real,
                b > 0real,
        ;
    }
}

/// A rating changes by 32 points for each point more than expected, where a win rate counts as
/// at least 1% and at most 99%: as expected it stays, and it never changes by 32 or more.
pub proof fn law_rating_follows_results<V: Curve>(
    size: spec_fn(V) -> real,
    raise: spec_fn(real, real) -> real,
    cosine: spec_fn(real) -> real,
    sine: spec_fn(real) -> real,
    elo: V,
    win_rate: V,
    other_rate: V,
)
    requires
        unrounded_waves(size, raise, cosine, sine),
    ensures
        -32real < size(rated(elo, win_rate)) - size(elo) < 32real,
        1real / 100real <= size(win_rate) <= 99real / 100real ==> size(rated(elo, win_rate))
            - size(elo) == 32real * (size(win_rate) - size(expected_points(elo))),
        1real / 100real <= size(win_rate) <= 99real / 100real && 1real / 100real <= size(other_rate)
            <= 99real / 100real ==> size(rated(elo, win_rate)) - size(rated(elo, other_rate))
            == 32real * (size(win_rate) - size(other_rate)),
        size(win_rate) <= 1real / 100real && size(other_rate) <= 1real / 100real ==> size(
            rated(elo, win_rate),
        ) == size(rated(elo, other_rate)),
        size(win_rate) >= 99real / 100real && size(other_rate) >= 99real / 100real ==> size(
            rated(elo, win_rate),
        ) == size(rated(elo, other_rate)),
{
    let odds = lemma_expected(size, raise, cosine, sine, elo);
    assert(size(v_milli::<V>(10)) == 1real / 100real);
    assert(size(v_milli::<V>(990)) == 99real / 100real);
    let low = v_larger(win_rate, v_milli(10));
    let made = v_smaller(low, v_milli(990));
    let e = size(expected_points(elo));
    assert(1real / 100real <= size(made) <= 99real / 100real);
    assert(size(rated(elo, win_rate)) == size(elo) + 32real * (size(made) - e));
    let other_low = v_larger(other_rate, v_milli(10));
    let other_made = v_smaller(other_low, v_milli(990));
    assert(size(rated(elo, other_rate)) == size(elo) + 32real * (size(other_made) - e));
}

/// The current player takes the place of the baseline exactly when its win rate is above the
/// threshold.
pub proof fn law_promotion<V: Real>(size: spec_fn(V) -> real, win_rate: V, threshold: V)
    requires
        unrounded(size),
    ensures
        v_positive(v_minus(win_rate, threshold)) <==> size(win_rate) > size(threshold),
{
}

impl<V: Curve> EloTracker<V> {
    /// A rating like that of the baseline.
    pub fn new() -> (tracker: EloTracker<V>)
        requires
            exact_curve::<V>(),
        ensures
            tracker.current_elo == v_count::<V>(1500),
            tracker.history@ == Seq::<(usize, V)>::empty(),
    {
        EloTracker { current_elo: V::count(1500), history: Vec::new() }
    }

    /// Takes a match in: see `rated`.
    pub fn update(&mut self, iteration: usize, win_rate: V) -> (elo: V)
        requires
            exact_curve::<V>(),
        ensures
            elo == rated(old(self).current_elo, win_rate),
            final(self).current_elo == elo,
            final(self).history@ == old(self).history@.push((iteration, elo)),
    {
        let one: V = V::count(1);
        let made: V = win_rate.larger(V::milli(10)).smaller(V::milli(990));
        let behind: V = V::count(1500).minus(self.current_elo).over(V::count(400));
        let expected: V = one.over(one.plus(V::count(10).raised(behind)));
        self.current_elo = self.current_elo.plus(V::count(32).times(made.minus(expected)));
        self.history.push((iteration, self.current_elo));
        self.current_elo
    }
}

/// The parameters of a match.
#[derive(Debug, Clone, Copy, PartialEq, Eq, Structural)]
pub struct EvalConfig {
    pub num_games: usize,
    pub num_simulations: usize,
    pub eval_every: usize,
}

impl Default for EvalConfig {
    fn default() -> (config: EvalConfig)
        ensures
            config == (EvalConfig { num_games: 100, num_simulations: 64, eval_every: 5 }),
    {
        EvalConfig { num_games: 100, num_simulations: 64, eval_every: 5 }
    }
}

/// Plays matches.
pub struct MatchRunner {
    pub config: EvalConfig,
}

impl MatchRunner {
    /// A runner of matches with these parameters.
    pub fn new(config: EvalConfig) -> (runner: MatchRunner)
        ensures
            runner.config == config,
    {
        MatchRunner { config }
    }

    /// The seeds of the games of a match: those that the current player plays as black, half
    /// of them rounded down, and those it plays as white. The game `i` of the match has the
    /// seed `rng_seed + i`, which wraps around.
    pub fn game_seeds(&self, rng_seed: u64) -> (seeds: (Vec<u64>, Vec<u64>))
        ensures
            seeds.0@ == seed_list(rng_seed, 0, self.config.num_games as int / 2),
            seeds.1@ == seed_list(
                rng_seed,
                self.config.num_games as int / 2,
                self.config.num_games as int,
            ),
    {
        let half: usize = self.config.num_games / 2;
        (seeds_from(rng_seed, 0, half), seeds_from(rng_seed, half, self.config.num_games))
    }

    /// The seeds of the games of a match, as `game_seeds` gives them for a random number.
    pub fn draw_game_seeds(&self, rng: &mut StdRng) -> (seeds: (Vec<u64>, Vec<u64>))
        ensures
            exists|base: u64|
                seeds.0@ == #[trigger] seed_list(base, 0, self.config.num_games as int / 2)
                    && seeds.1@ == seed_list(
                    base,
                    self.config.num_games as int / 2,
                    self.config.num_games as int,
                ),
    {
        let base: u64 = draw_seed(rng);
        self.game_seeds(base)
    }

    /// The parameters of the searches in a match: little is left to chance.
    pub fn search_config<V: Real>(&self) -> (config: GumbelConfig<V>)
        requires
            exact::<V>(),
        ensures
            config == (GumbelConfig {
                num_simulations: self.config.num_simulations,
                add_dirichlet_noise: false,
                select_temperature: v_milli(100),
                ..GumbelConfig::<V>::standard()
            }),
    {
        let mut config: GumbelConfig<V> = GumbelConfig::pure_gumbel(self.config.num_simulations);
        config.select_temperature = V::milli(100);
        config
    }
}

/// A game of a match.
pub struct EvalGame {
    pub board: Board,
    /// How many more moves may be asked for.
    pub moves_left: usize,
    pub stopped: bool,
}

/// What a move does to a game of a match: the board after it, and whether the game stops.
/// It stops when the move is no action or not legal, and when it ends the game.
pub open spec fn eval_move(board: BoardState, best_move: int) -> (BoardState, bool) {
    let size = board.size;
    let legal = best_move < size * size && board.legal(best_move / size, best_move % size);
    let next = if legal {
        board.after(best_move / size, best_move % size)
    } else {
        board
    };
    (next, !legal || next.over)
}

impl EvalGame {
    /// The board is a position that play can reach.
    pub open spec fn wf(&self) -> bool {
        self.board.ready()
    }

    /// No move is asked for any more.
    pub open spec fn over(&self) -> bool {
        self.stopped || self.moves_left == 0
    }

    /// A game at its start. As many moves may be asked for as twice the number of cells.
    pub fn new() -> (game: EvalGame)
        ensures
            game.wf(),
            game.board@ == BoardState::initial(6, 4),
            game.moves_left == 72,
            !game.stopped,
    {
        proof {
            law_initial_is_consistent(6, 4);
        }
        let board = Board::new();
        let moves_left: usize = board.num_positions() * 2;
        EvalGame { board, moves_left, stopped: false }
    }

    /// The colour to move, `None` once no move is asked for any more.
    pub fn to_move(&self) -> (color: Option<Color>)
        ensures
            color == (if self.over() {
                None
            } else {
                Some(self.board@.player)
            }),
    {
        if self.stopped || self.moves_left == 0 {
            None
        } else {
            Some(self.board.current_player)
        }
    }

    /// Takes in the move that the player to move chose: see `eval_move`.
    pub fn take_move(&mut self, best_move: usize)
        requires
            old(self).wf(),
            !old(self).over(),
        ensures
            final(self).wf(),
            (final(self).board@, final(self).stopped) == eval_move(
                old(self).board@,
                best_move as int,
            ),
            final(self).moves_left == old(self).moves_left - 1,
    {
        proof {
            law_game_ends(self.board@, 0, 0);
        }
        self.moves_left = self.moves_left - 1;
        if best_move >= self.board.num_positions() || !self.board.play_idx(best_move) {
            self.stopped = true;
        } else if self.board.game_over {
            self.stopped = true;
        }
    }

    /// How the game ended: a game without a winner is a draw.
    pub fn outcome(&self) -> (outcome: GameOutcome)
        ensures
            outcome == (match self.board@.winner {
                Some(Color::Black) => GameOutcome::BlackWins,
                Some(Color::White) => GameOutcome::WhiteWins,
                None => GameOutcome::Draw,
            }),
    {
        match self.board.winner {
            Some(Color::Black) => GameOutcome::BlackWins,
            Some(Color::White) => GameOutcome::WhiteWins,
            None => GameOutcome::Draw,
        }
    }
}

/// Each move that does not stop a game of a match adds a stone, so the game stops before the
/// board is full: the moves that may be asked for never run out.
pub proof fn law_eval_game_stops(board: BoardState, best_move: usize)
    requires
        board.consistent(),
    ensures
        ({
            let (next, stopped) = eval_move(board, best_move as int);
            &&& !stopped ==> next.steps == board.steps + 1
            &&& !stopped ==> next.consistent() && next.steps < board.size * board.size
        }),
{
    let size = board.size;
    let row = best_move as int / size;
    let col = best_move as int % size;
    law_game_ends(board, row, col);
    if board.legal(row, col) {
        law_game_ends(board.after(row, col), 0, 0);
    }
}

} // verus!
