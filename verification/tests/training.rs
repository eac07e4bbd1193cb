use gomoku_ai::eval::{
    promotes, EloTracker, EvalConfig, EvalGame, GameOutcome, MatchResult, MatchRunner,
};
use gomoku_ai::game::board::Color;
use gomoku_ai::inference::{flatten_states, split_answers, Action, Batcher, Event};
use gomoku_ai::mcts::config::GumbelConfig;
use gomoku_ai::network::cnn::GomokuCNNConfig;
use gomoku_ai::network::pos_encoding::Pos2DEmbedConfig;
use gomoku_ai::network::rope::{base_len, rope_tables, spread};
use gomoku_ai::network::transformer::{
    policy_out_dim, qkv_ranges, BlockShape, GomokuNetworkConfig, NUM_TOKENS,
};
use gomoku_ai::number::{Curve, Real, Score};
use gomoku_ai::pool::{auto_threads, pool_threads};
use gomoku_ai::training::loss_scaler::{Adjustment, LossScaleConfig, LossScaler};
use gomoku_ai::training::lr_schedule::LrSchedule;
use gomoku_ai::training::metrics::{explained_variance, BatchStats, EpochStats};
use gomoku_ai::training::replay::{choose_model, reports, surplus, ModelSource, ReplayConfig};
use gomoku_ai::training::trainer::{
    decayed_temperature, epoch_label, model_file, IterationPlan, TrainConfig,
};
use rand::rngs::StdRng;
use rand::SeedableRng;

#[derive(Clone, Copy, Debug, PartialEq)]
struct D(f64);

impl Score for D {
    fn zero() -> Self {
        D(0.0)
    }
    fn plus(self, other: Self) -> Self {
        D(self.0 + other.0)
    }
    fn mean(self, count: usize) -> Self {
        D(self.0 / count as f64)
    }
    fn negated(self) -> Self {
        D(-self.0)
    }
}

impl Real for D {
    fn minus(self, other: Self) -> Self {
        D(self.0 - other.0)
    }
    fn times(self, other: Self) -> Self {
        D(self.0 * other.0)
    }
    fn over(self, other: Self) -> Self {
        D(self.0 / other.0)
    }
    fn exp(self) -> Self {
        D(self.0.exp())
    }
    fn ln(self) -> Self {
        D(self.0.ln())
    }
    fn larger(self, other: Self) -> Self {
        D(self.0.max(other.0))
    }
    fn smaller(self, other: Self) -> Self {
        D(self.0.min(other.0))
    }
    fn positive(self) -> bool {
        self.0 > 0.0
    }
    fn is_zero(self) -> bool {
        self.0 == 0.0
    }
    fn negligible(self) -> bool {
        self.0 <= 1e-12
    }
    fn vanishing(self) -> bool {
        self.0 < 1e-10
    }
    fn count(n: usize) -> Self {
        D(n as f64)
    }
    fn milli(n: u32) -> Self {
        D(n as f64 / 1000.0)
    }
    fn lowest() -> Self {
        D(f64::NEG_INFINITY)
    }
    fn highest() -> Self {
        D(f64::INFINITY)
    }
    fn low() -> Self {
        D(-1e9)
    }
    fn least_spread() -> Self {
        D(1e-8)
    }
    fn tiny() -> Self {
        D(1e-12)
    }
    fn key(self) -> i64 {
        (self.0 * 1e6) as i64
    }
}

impl Curve for D {
    fn raised(self, power: Self) -> Self {
        D(self.0.powf(power.0))
    }
    fn cos(self) -> Self {
        D(self.0.cos())
    }
    fn sin(self) -> Self {
        D(self.0.sin())
    }
    fn pi() -> Self {
        D(std::f64::consts::PI)
    }
}

fn near(a: D, b: f64) -> bool {
    (a.0 - b).abs() < 1e-9
}

#[test]
fn matches_are_counted() {
    let (b, w, d) = (GameOutcome::BlackWins, GameOutcome::WhiteWins, GameOutcome::Draw);
    let result = MatchResult::of_games(&vec![b, b, w, d], &vec![w, b, d, d, w]);
    assert_eq!(
        result,
        MatchResult {
            total_games: 9,
            wins_current: 4,
            wins_baseline: 2,
            draws: 3,
            black_wins: 3,
            white_wins: 3,
        }
    );
    assert_eq!(result.win_rate_current(), (11, 18));
    assert_eq!(MatchResult::of_games(&vec![], &vec![]), MatchResult::default());
    assert_eq!(MatchResult::default().win_rate_current(), (1, 2));
}

#[test]
fn match_parameters_and_seeds() {
    let config = EvalConfig::default();
    assert_eq!((config.num_games, config.num_simulations, config.eval_every), (100, 64, 5));
    let runner = MatchRunner::new(EvalConfig { num_games: 5, num_simulations: 8, eval_every: 1 });
    let (black, white) = runner.game_seeds(u64::MAX);
    assert_eq!(black, vec![u64::MAX, 0]);
    assert_eq!(white, vec![1, 2, 3]);
    let (black, white) = runner.draw_game_seeds(&mut StdRng::seed_from_u64(9));
    assert_eq!((black.len(), white.len()), (2, 3));
    assert_eq!(white[0], black[0].wrapping_add(2));
    let search: GumbelConfig<D> = runner.search_config();
    assert_eq!((search.num_simulations, search.select_temperature), (8, D(0.1)));
    assert!(!search.add_dirichlet_noise);
}

#[test]
fn a_better_player_is_promoted() {
    assert!(promotes(D(0.6), D(0.55)));
    assert!(!promotes(D(0.55), D(0.55)));
    assert!(!promotes(D(0.5), D(0.55)));
}

#[test]
fn match_games_end() {
    let mut game = EvalGame::new();
    assert_eq!(game.moves_left, 72);
    for (k, action) in [0, 30, 1, 31, 2, 32, 3].iter().enumerate() {
        let color = if k % 2 == 0 { Color::Black } else { Color::White };
        assert_eq!(game.to_move(), Some(color));
        game.take_move(*action);
    }
    assert_eq!(game.to_move(), None);
    assert_eq!(game.outcome(), GameOutcome::BlackWins);
    assert_eq!(game.moves_left, 65);
    let mut odd = EvalGame::new();
    odd.take_move(36);
    assert_eq!(odd.to_move(), None);
    assert_eq!(odd.outcome(), GameOutcome::Draw);
    let mut twice = EvalGame::new();
    twice.take_move(4);
    twice.take_move(4);
    assert_eq!(twice.to_move(), None);
    assert_eq!(twice.board.step_count, 1);
}

#[test]
fn white_can_win_a_match_game() {
    let mut game = EvalGame::new();
    for action in [0, 30, 1, 31, 2, 32, 7, 33] {
        game.take_move(action);
    }
    assert_eq!(game.outcome(), GameOutcome::WhiteWins);
}

#[test]
fn ratings() {
    let mut elo: EloTracker<D> = EloTracker::new();
    assert_eq!(elo.current_elo, D(1500.0));
    assert!(near(elo.update(3, D(0.75)), 1508.0));
    assert_eq!(elo.history, vec![(3, elo.current_elo)]);
    let expected = 1.0 / (1.0 + 10f64.powf(-8.0 / 400.0));
    assert!(near(elo.update(6, D(0.0)), 1508.0 + 32.0 * (0.01 - expected)));
    assert_eq!(elo.history.len(), 2);
    let mut best: EloTracker<D> = EloTracker::new();
    assert!(near(best.update(1, D(1.0)), 1500.0 + 32.0 * 0.49));
}

#[test]
fn learning_rate_falls_along_a_cosine() {
    let schedule = LrSchedule::new(100, D(0.1));
    assert!(near(schedule.factor(0), 1.0));
    assert!(near(schedule.factor(50), 0.55));
    assert!(near(schedule.factor(100), 0.1));
    assert!(near(schedule.lr(50, D(0.001)), 0.00055));
}

#[test]
fn loss_scale_grows_and_shrinks() {
    let standard: LossScaleConfig<D> = LossScaleConfig::default();
    assert_eq!(standard.grow_interval, 2000);
    assert_eq!(standard.max_scale, D(16777216.0));
    let mut scaler = LossScaler::new(LossScaleConfig { grow_interval: 3, ..standard });
    assert_eq!(scaler.scale(), D(128.0));
    assert_eq!(scaler.count_step(false), Adjustment::Keep);
    assert_eq!(scaler.count_step(false), Adjustment::Keep);
    assert_eq!(scaler.count_step(false), Adjustment::Grow);
    assert_eq!(scaler.scale(), D(256.0));
    assert_eq!(scaler.count_step(false), Adjustment::Keep);
    assert_eq!(scaler.count_step(true), Adjustment::Shrink);
    assert_eq!((scaler.scale(), scaler.good_steps), (D(128.0), 0));
    for _ in 0..10 {
        scaler.count_step(true);
    }
    assert_eq!(scaler.scale(), D(1.0));
    for _ in 0..100 {
        scaler.count_step(false);
    }
    assert_eq!(scaler.scale(), D(16777216.0));
    let low = LossScaleConfig { init_scale: D(0.25), ..LossScaleConfig::default() };
    assert_eq!(LossScaler::new(low).scale(), D(1.0));
}

#[test]
fn epochs_are_summed_up() {
    let mut stats: EpochStats<D> = EpochStats::default();
    assert_eq!(stats.avg_total_loss(), D(0.0));
    for k in 1..3 {
        let x = k as f64;
        stats.push(BatchStats {
            total_loss: D(x),
            policy_loss: D(2.0 * x),
            value_loss: D(3.0 * x),
            entropy: D(4.0 * x),
            batch_size: 10 * k,
        });
    }
    assert_eq!((stats.num_batches, stats.total_samples), (2, 30));
    assert_eq!(stats.avg_total_loss(), D(1.5));
    assert_eq!(stats.avg_policy_loss(), D(3.0));
    assert_eq!(stats.avg_value_loss(), D(4.5));
    assert_eq!(stats.avg_entropy(), D(6.0));
    stats.note_values(vec![D(1.0)], vec![D(2.0)]);
    stats.note_values(vec![D(3.0)], vec![D(4.0)]);
    assert_eq!(stats.all_value_preds, vec![D(1.0), D(3.0)]);
    assert_eq!(stats.all_value_targets, vec![D(2.0), D(4.0)]);
}

#[test]
fn explained_variances() {
    let targets = vec![D(1.0), D(-1.0), D(1.0), D(-1.0)];
    assert!(near(explained_variance(&targets, &targets), 1.0));
    let zeros = vec![D(0.0); 4];
    assert!(near(explained_variance(&zeros, &targets), 0.0));
    assert!(near(explained_variance(&zeros, &zeros), 1.0));
    assert!(near(explained_variance(&vec![D(1.0)], &vec![D(1.0)]), 0.0));
    let half = vec![D(0.5), D(-0.5), D(0.5), D(-0.5)];
    assert!(near(explained_variance(&half, &targets), 0.75));
    let three = vec![D(0.0); 3];
    assert!(near(explained_variance(&three, &vec![D(1.0), D(3.0)]), -32.0 / 13.0));
}

#[test]
fn temperature_falls_in_steps() {
    let temps: Vec<u32> = (0..8).map(|i| decayed_temperature(i, 8)).collect();
    assert_eq!(temps, vec![1000, 1000, 1000, 1000, 500, 500, 250, 250]);
    assert_eq!(decayed_temperature(0, 0), 1000);
    assert_eq!(decayed_temperature(1, 0), 250);
}

#[test]
fn iterations_are_planned() {
    let config = TrainConfig::default();
    assert_eq!((config.batch_size, config.buffer_capacity, config.random_seed), (256, 160000, 42));
    let plan = config.plan_iteration(0, 255);
    assert_eq!(
        plan,
        IterationPlan { epoch: 1, train: false, num_batches: 0, evaluate: false, save: false }
    );
    let plan = config.plan_iteration(3, 1000);
    assert_eq!(
        plan,
        IterationPlan { epoch: 4, train: true, num_batches: 3, evaluate: false, save: false }
    );
    let plan = config.plan_iteration(4, 1_000_000);
    assert_eq!(
        plan,
        IterationPlan { epoch: 5, train: true, num_batches: 256, evaluate: true, save: true }
    );
    let quiet = TrainConfig { eval_enabled: false, num_iterations: 7, ..config };
    let plan = quiet.plan_iteration(6, 256);
    assert_eq!(
        plan,
        IterationPlan { epoch: 7, train: true, num_batches: 1, evaluate: false, save: true }
    );
    assert_eq!(config.self_play_config::<D>(60).select_temperature, D(0.5));
    assert_eq!(config.eval_config().num_games, 100);
}

#[test]
fn names_of_models() {
    assert_eq!(epoch_label(15), "epoch_15");
    assert_eq!(model_file("latest"), "gomoku_latest");
    assert_eq!(model_file(&epoch_label(3)), "gomoku_epoch_3");
}

#[test]
fn replay_steps() {
    let config = ReplayConfig::default();
    assert_eq!((config.num_simulations, config.train_steps, config.save_every), (200, 25, 10));
    assert_eq!((surplus(5000), surplus(5001), surplus(0)), (0, 1, 0));
    assert_eq!((config.step_size(500), config.step_size(7)), (128, 7));
    assert!(config.saves(20) && config.saves(100) && !config.saves(21));
    assert!(reports(0) && reports(5) && !reports(6));
    assert_eq!(choose_model(true, true), ModelSource::Latest);
    assert_eq!(choose_model(false, true), ModelSource::Initial);
    assert_eq!(choose_model(false, false), ModelSource::Fresh);
    let mut rng = StdRng::seed_from_u64(2);
    let mut indices = config.sample_batch(&mut rng, 1000);
    assert_eq!(indices.len(), 128);
    indices.sort();
    indices.dedup();
    assert_eq!(indices.len(), 128);
    assert!(indices.iter().all(|i| *i < 1000));
    assert!(config.sample_batch(&mut rng, 0).is_empty());
    let mut all = config.sample_batch(&mut rng, 5);
    all.sort();
    assert_eq!(all, vec![0, 1, 2, 3, 4]);
}

#[test]
fn requests_are_batched() {
    let mut batcher: Batcher<u32> = Batcher::new();
    assert!(matches!(batcher.next(Event::Quiet), Action::Wait));
    for k in 0..3 {
        assert!(matches!(batcher.next(Event::Request(k)), Action::WaitBriefly));
    }
    match batcher.next(Event::Update) {
        Action::Replace(batch) => assert_eq!(batch, vec![0, 1, 2]),
        _ => panic!("the batch is answered before the model is replaced"),
    }
    match batcher.next(Event::Update) {
        Action::Replace(batch) => assert!(batch.is_empty()),
        _ => panic!("the model is replaced"),
    }
    batcher.next(Event::Request(7));
    match batcher.next(Event::Quiet) {
        Action::Answer(batch) => assert_eq!(batch, vec![7]),
        _ => panic!("a batch does not wait for ever"),
    }
    for k in 0..255 {
        assert!(matches!(batcher.next(Event::Request(k)), Action::WaitBriefly));
    }
    match batcher.next(Event::Request(255)) {
        Action::Answer(batch) => assert_eq!(batch, (0..256).collect::<Vec<u32>>()),
        _ => panic!("a full batch is answered"),
    }
    batcher.next(Event::Request(1));
    assert!(matches!(batcher.next(Event::Closed), Action::Answer(_)));
    assert!(matches!(batcher.next(Event::Closed), Action::Stop));
}

#[test]
fn batches_go_out_and_come_back() {
    let flat = flatten_states(&vec![vec![1, 2], vec![3, 4], vec![5, 6]]);
    assert_eq!(flat, vec![1, 2, 3, 4, 5, 6]);
    let answers = split_answers(&flat, &vec![10, 20, 30], 3, 2);
    assert_eq!(answers, vec![(vec![1, 2], 10), (vec![3, 4], 20), (vec![5, 6], 30)]);
    assert!(split_answers::<i32>(&vec![], &vec![], 0, 9).is_empty());
}

#[test]
fn threads_of_a_pool() {
    assert_eq!(auto_threads(Some(1)), 8);
    assert_eq!(auto_threads(Some(6)), 24);
    assert_eq!(auto_threads(Some(100)), 128);
    assert_eq!(auto_threads(None), 32);
    assert_eq!(pool_threads(3, Some(6)), 3);
    assert_eq!(pool_threads(0, Some(6)), 24);
}

#[test]
fn network_shapes() {
    assert_eq!(NUM_TOKENS, 3);
    assert_eq!(policy_out_dim(6), 36);
    let config = GomokuNetworkConfig::default();
    assert!(config.buildable());
    assert_eq!(config.d_head(), 32);
    assert!(!GomokuNetworkConfig { n_heads: 3, ..config }.buildable());
    let block = BlockShape::new(128, 512, 4);
    assert_eq!(block.d_head, 32);
    assert_eq!(block.qkv_proj, (128, 384));
    assert_eq!((block.ffn_w1, block.ffn_w2), ((128, 512), (512, 128)));
    assert_eq!(qkv_ranges(4), ((0, 4), (4, 4), (8, 4)));
    let plain: GomokuCNNConfig<D> = GomokuCNNConfig::default();
    assert_eq!(plain.dropout, D(0.1));
    let cnn = plain.heads();
    assert_eq!(cnn.policy_fc, (64, 64));
    let embed = Pos2DEmbedConfig::new(19, 32);
    assert_eq!((embed.max_board_size, embed.d_model), (19, 32));
    assert_eq!(embed.sum_shapes(5, 7).2, [1, 35, 32]);
}

#[test]
fn the_learning_rate_never_rises() {
    let schedule = LrSchedule::new(50, D(0.1));
    assert!(near(schedule.factor(0), 1.0));
    assert!(near(schedule.factor(50), 0.1));
    for i in 0..50 {
        assert!(schedule.factor(i + 1).0 <= schedule.factor(i).0);
    }
    for i in 50..200 {
        let share = schedule.factor(i).0;
        assert!(share >= 0.1 - 1e-12 && share <= 1.0);
    }
}

#[test]
fn rotary_tables() {
    assert_eq!(base_len(3, 8), 6);
    let (cos, sin) = rope_tables::<D>(3, 8);
    assert_eq!((cos.len(), sin.len()), (72, 72));
    for k in 0..8 {
        assert!(near(cos[k], 1.0));
        assert!(near(sin[k], 0.0));
        assert_eq!(sin[k].0.is_sign_negative(), k % 4 < 2);
    }
    // The cell in row 1 and column 2, whose second angle is a hundredth of the first.
    let at = (3 + 2) * 8;
    let rows = [1.0f64, 0.01];
    let cols = [2.0f64, 0.02];
    for j in 0..2 {
        assert!(near(cos[at + j], rows[j].cos()));
        assert!(near(cos[at + 2 + j], rows[j].cos()));
        assert!(near(cos[at + 4 + j], cols[j].cos()));
        assert!(near(cos[at + 6 + j], cols[j].cos()));
        assert!(near(sin[at + j], -rows[j].sin()));
        assert!(near(sin[at + 2 + j], rows[j].sin()));
        assert!(near(sin[at + 4 + j], -cols[j].sin()));
        assert!(near(sin[at + 6 + j], cols[j].sin()));
    }
    let laid = spread(&vec![1, 2], &vec![10, 20], 2, 4);
    assert_eq!(laid, vec![1, 10, 1, 10, 1, 10, 2, 20, 2, 20, 1, 10, 2, 20, 2, 20]);
}
