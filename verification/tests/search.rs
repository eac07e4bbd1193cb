use gomoku_ai::game::board::{Board, Color};
use gomoku_ai::mcts::config::GumbelConfig;
use gomoku_ai::mcts::game::{worth_of, ActionId, Game, Outcome, Scored};
use gomoku_ai::mcts::halving::{halving_table, sequential_halving_seq};
use gomoku_ai::mcts::node::{Node, MCTS};
use gomoku_ai::mcts::noise::{dirichlet_noise, gumbel_noise, sure_action};
use gomoku_ai::mcts::policy::{
    compute_kl, root_value, softmax_full, softmax_legal, visit_count_distribution,
};
use gomoku_ai::mcts::read::SearchResult;
use gomoku_ai::mcts::search::{RootRequest, SearchRun, Step};
use gomoku_ai::mcts::select::{argmax, considered_visit};
use gomoku_ai::mcts::value::compute_mixed_value;
use gomoku_ai::number::{sum, Real, Score};
use rand::distr::weighted::WeightedIndex;
use rand::distr::Distribution;
use rand::RngExt;
use std::collections::HashMap;

#[derive(Clone, Copy, Debug, PartialEq)]
struct F(f32);

impl Score for F {
    fn zero() -> Self {
        F(0.0)
    }
    fn plus(self, other: Self) -> Self {
        F(self.0 + other.0)
    }
    fn mean(self, count: usize) -> Self {
        F(self.0 / count as f32)
    }
    fn negated(self) -> Self {
        F(-self.0)
    }
}

impl Real for F {
    fn minus(self, other: Self) -> Self {
        F(self.0 - other.0)
    }
    fn times(self, other: Self) -> Self {
        F(self.0 * other.0)
    }
    fn over(self, other: Self) -> Self {
        F(self.0 / other.0)
    }
    fn exp(self) -> Self {
        F(self.0.exp())
    }
    fn ln(self) -> Self {
        F(self.0.ln())
    }
    fn larger(self, other: Self) -> Self {
        F(self.0.max(other.0))
    }
    fn smaller(self, other: Self) -> Self {
        F(self.0.min(other.0))
    }
    fn positive(self) -> bool {
        self.0 > 0.0
    }
    fn is_zero(self) -> bool {
        self.0 == 0.0
    }
    fn negligible(self) -> bool {
        self.0 <= 1e-12
    }
    fn vanishing(self) -> bool {
        self.0 < 1e-10
    }
    fn count(n: usize) -> Self {
        F(n as f32)
    }
    fn milli(n: u32) -> Self {
        F(n as f32 / 1000.0)
    }
    fn lowest() -> Self {
        F(f32::NEG_INFINITY)
    }
    fn highest() -> Self {
        F(f32::INFINITY)
    }
    fn low() -> Self {
        F(-1e9)
    }
    fn least_spread() -> Self {
        F(1e-8)
    }
    fn tiny() -> Self {
        F(1e-12)
    }
    fn key(self) -> i64 {
        order_key(self.0)
    }
}

fn order_key(x: f32) -> i64 {
    assert!(!x.is_nan());
    let bits = (x + 0.0).to_bits();
    if bits >> 31 == 1 {
        -((bits & 0x7fff_ffff) as i64)
    } else {
        bits as i64
    }
}

#[derive(Clone, Copy, Debug, PartialEq)]
struct D(f64);

impl Score for D {
    fn zero() -> Self {
        D(0.0)
    }
    fn plus(self, other: Self) -> Self {
        D(self.0 + other.0)
    }
    fn mean(self, count: usize) -> Self {
        D(self.0 / count as f64)
    }
    fn negated(self) -> Self {
        D(-self.0)
    }
}

impl Real for D {
    fn minus(self, other: Self) -> Self {
        D(self.0 - other.0)
    }
    fn times(self, other: Self) -> Self {
        D(self.0 * other.0)
    }
    fn over(self, other: Self) -> Self {
        D(self.0 / other.0)
    }
    fn exp(self) -> Self {
        D(self.0.exp())
    }
    fn ln(self) -> Self {
        D(self.0.ln())
    }
    fn larger(self, other: Self) -> Self {
        D(self.0.max(other.0))
    }
    fn smaller(self, other: Self) -> Self {
        D(self.0.min(other.0))
    }
    fn positive(self) -> bool {
        self.0 > 0.0
    }
    fn is_zero(self) -> bool {
        self.0 == 0.0
    }
    fn negligible(self) -> bool {
        self.0 <= 1e-12
    }
    fn vanishing(self) -> bool {
        self.0 < 1e-10
    }
    fn count(n: usize) -> Self {
        D(n as f64)
    }
    fn milli(n: u32) -> Self {
        D(n as f64 / 1000.0)
    }
    fn lowest() -> Self {
        D(f64::NEG_INFINITY)
    }
    fn highest() -> Self {
        D(f64::INFINITY)
    }
    fn low() -> Self {
        D(-1e9)
    }
    fn least_spread() -> Self {
        D(1e-8)
    }
    fn tiny() -> Self {
        D(1e-12)
    }
    fn key(self) -> i64 {
        let bits = (self.0 + 0.0).to_bits();
        if bits >> 63 == 1 {
            -((bits & (u64::MAX >> 1)) as i64)
        } else {
            bits as i64
        }
    }
}

struct MockEvaluator {
    values: HashMap<Vec<i32>, f32>,
    policies: HashMap<Vec<i32>, Vec<f32>>,
}

impl MockEvaluator {
    fn new() -> Self {
        MockEvaluator { values: HashMap::new(), policies: HashMap::new() }
    }

    fn with_value(mut self, encoded: Vec<i32>, value: f32) -> Self {
        self.values.insert(encoded, value);
        self
    }

    fn with_policy(mut self, encoded: Vec<i32>, policy: Vec<f32>) -> Self {
        self.policies.insert(encoded, policy);
        self
    }

    fn evaluate(&self, state: &Vec<i32>) -> (Vec<F>, F) {
        let logits = match self.policies.get(state) {
            Some(policy) => policy.iter().map(|p| F(*p)).collect(),
            None => vec![F(0.0); state.len()],
        };
        (logits, F(self.values.get(state).copied().unwrap_or(0.0)))
    }
}

fn sample_action(probs: &Vec<D>, rng: &mut impl RngExt) -> ActionId {
    match sure_action(probs) {
        Some(action) => action,
        None => {
            let weights: Vec<f64> = probs.iter().map(|p| p.0).collect();
            WeightedIndex::new(&weights).unwrap().sample(rng)
        }
    }
}

fn search(
    tree: &mut MCTS<F>,
    game: &Board,
    evaluator: &MockEvaluator,
    config: &GumbelConfig<F>,
    rng: &mut impl RngExt,
) -> SearchResult<F> {
    let width = game.action_shape();
    let legal = game.legal_actions();
    match tree.root_request(game) {
        RootRequest::NoMoves => return SearchResult::without_moves(width),
        RootRequest::Known => {}
        RootRequest::Evaluate(input) => {
            let (logits, value) = evaluator.evaluate(&input);
            tree.expand_root(game, &logits, value);
        }
    }
    if config.add_dirichlet_noise {
        let children = tree.children_vec(tree.root_id);
        let gamma = rand_distr::Gamma::new(config.dirichlet_alpha.0, 1.0).unwrap();
        let samples: Vec<F> = children.iter().map(|_| F(gamma.sample(rng))).collect();
        let noise = dirichlet_noise(&samples);
        tree.mix_noise(&children, &noise, config.dirichlet_epsilon);
    }
    let gumbel = rand_distr::Gumbel::new(0.0f32, 1.0).unwrap();
    let samples: Vec<F> = legal.iter().map(|_| F(gumbel.sample(rng))).collect();
    let noises = gumbel_noise(&samples, config.gumbel_scale);
    let mut run = SearchRun::begin(tree, game, config);
    loop {
        match run.advance(tree, &noises) {
            Step::Done => break,
            Step::Terminal(_) | Step::DeadEnd => run.settle(tree),
            Step::Evaluate(input) => {
                let (logits, value) = evaluator.evaluate(&input);
                run.expand(tree, &logits, value);
            }
        }
    }
    let visits = tree.children_visits(width);
    let probs: Vec<D> = visit_count_distribution(&visits, D(config.select_temperature.0 as f64));
    let best_move = sample_action(&probs, rng);
    tree.conclude::<Board>(config, width, &legal, best_move)
}

fn floats(values: &[F]) -> Vec<f32> {
    values.iter().map(|v| v.0).collect()
}

fn make_board() -> Board {
    Board::with_size(3, 3)
}

#[test]
fn test_empty_board_search_returns_legal_move() {
    let board = make_board();
    let evaluator = MockEvaluator::new();
    let config = GumbelConfig::pure_gumbel(64);
    let mut mcts: MCTS<F> = MCTS::new();
    let result = search(&mut mcts, &board, &evaluator, &config, &mut rand::rng());
    assert!(result.best_move < 9);
    assert_eq!(result.policy.len(), 9);
    assert_eq!(result.root_nn_prior.len(), 9);
    let policy_sum: f32 = floats(&result.policy).iter().sum();
    assert!((policy_sum - 1.0).abs() < 0.02, "policy sum should be ~1.0, got {policy_sum}");
    assert!(result.root_value.0 >= -1.0 && result.root_value.0 <= 1.0);
}

#[test]
fn test_terminal_board_returns_empty() {
    let mut board = make_board();
    board.play(0, 0);
    board.play(1, 0);
    board.play(0, 1);
    board.play(1, 1);
    board.play(0, 2);
    assert!(board.game_over);
    let evaluator = MockEvaluator::new();
    let config = GumbelConfig::pure_gumbel(32);
    let mut mcts: MCTS<F> = MCTS::new();
    let result = search(&mut mcts, &board, &evaluator, &config, &mut rand::rng());
    assert_eq!(result.best_move, 9);
    assert_eq!(floats(&result.policy), vec![0.0f32; 9]);
    assert_eq!(result.root_value.0, 0.0);
    assert_eq!(floats(&result.root_nn_prior), vec![0.0f32; 9]);
    assert_eq!(floats(&result.children_q), vec![0.0f32; 9]);
    assert_eq!(result.children_visits, vec![0u32; 9]);
}

#[test]
fn test_single_legal_move_is_chosen() {
    let mut board = make_board();
    let moves = [(0, 1), (1, 0), (0, 2), (1, 1), (1, 2), (2, 0), (2, 1), (2, 2)];
    for &(r, c) in &moves {
        board.play(r, c);
    }
    assert!(!board.game_over);
    assert_eq!(board.legal_actions().len(), 1);
    let only_move = board.pos_to_idx(0, 0);
    let evaluator = MockEvaluator::new();
    let config = GumbelConfig::pure_gumbel(64);
    let mut mcts: MCTS<F> = MCTS::new();
    let result = search(&mut mcts, &board, &evaluator, &config, &mut rand::rng());
    assert_eq!(result.best_move, only_move);
}

#[test]
fn test_mcts_prefers_winning_move() {
    let mut board = make_board();
    board.play(0, 0);
    board.play(1, 0);
    board.play(0, 1);
    board.play(1, 1);
    assert!(!board.game_over);
    let evaluator = MockEvaluator::new();
    let config = GumbelConfig::pure_gumbel(256);
    let mut mcts: MCTS<F> = MCTS::new();
    let result = search(&mut mcts, &board, &evaluator, &config, &mut rand::rng());
    let win_move = board.pos_to_idx(0, 2);
    assert!(result.best_move < 9);
    assert!(result.policy[win_move].0 > 0.0, "winning move should have non-zero policy");
}

#[test]
fn test_mcts_blocks_opponent_win() {
    let mut board = make_board();
    board.play(0, 0);
    board.play(1, 0);
    board.play(0, 1);
    assert_eq!(board.current_player, Color::White);
    assert!(!board.game_over);
    let evaluator = MockEvaluator::new();
    let config = GumbelConfig::pure_gumbel(256);
    let mut mcts: MCTS<F> = MCTS::new();
    let result = search(&mut mcts, &board, &evaluator, &config, &mut rand::rng());
    let block_move = board.pos_to_idx(0, 2);
    assert!(result.best_move < 9);
    assert!(result.policy[block_move].0 > 0.0, "blocking move should have non-zero policy");
}

#[test]
fn test_best_move_reflects_policy() {
    let board = make_board();
    let center_idx = board.pos_to_idx(1, 1);
    let mut policy = vec![-10.0f32; 9];
    policy[center_idx] = 10.0;
    let evaluator = MockEvaluator::new().with_policy(board.encode(), policy);
    let config = GumbelConfig::pure_gumbel(64);
    let mut mcts: MCTS<F> = MCTS::new();
    let result = search(&mut mcts, &board, &evaluator, &config, &mut rand::rng());
    assert!(
        result.root_nn_prior[center_idx].0 > 0.5,
        "center NN prior should be > 0.5, got {}",
        result.root_nn_prior[center_idx].0
    );
}

#[test]
fn test_pure_gumbel_config() {
    let config: GumbelConfig<F> = GumbelConfig::pure_gumbel(128);
    assert!(!config.add_dirichlet_noise);
    assert_eq!(config.num_simulations, 128);
}

#[test]
fn test_mixed_config() {
    let config: GumbelConfig<F> = GumbelConfig::mixed(128);
    assert!(config.add_dirichlet_noise);
    assert_eq!(config.num_simulations, 128);
    assert!(config.dirichlet_epsilon.0 > 0.0);
}

#[test]
fn test_mixed_mode_search_on_empty_board() {
    let board = make_board();
    let evaluator = MockEvaluator::new();
    let config = GumbelConfig::mixed(64);
    let mut mcts: MCTS<F> = MCTS::new();
    let result = search(&mut mcts, &board, &evaluator, &config, &mut rand::rng());
    assert!(result.best_move < 9);
    assert!((floats(&result.policy).iter().sum::<f32>() - 1.0).abs() < 0.02);
}

#[test]
fn test_win_vs_delay() {
    let mut board = make_board();
    board.play(0, 0);
    board.play(1, 0);
    board.play(0, 1);
    board.play(1, 1);
    let evaluator = MockEvaluator::new();
    let config = GumbelConfig::pure_gumbel(256);
    let win_move = board.pos_to_idx(0, 2);
    let mut mcts: MCTS<F> = MCTS::new();
    let result = search(&mut mcts, &board, &evaluator, &config, &mut rand::rng());
    println!("policy: {:?}", result.policy);
    println!("children_q: {:?}", result.children_q);
    println!("children_visits: {:?}", result.children_visits);
    println!("root_value: {}", result.root_value.0);
    println!("root_nn_value: {}", result.root_nn_value.0);
    let max_idx = floats(&result.policy)
        .iter()
        .enumerate()
        .max_by(|(_, a), (_, b)| a.partial_cmp(b).unwrap())
        .map(|(i, _)| i)
        .unwrap();
    assert_eq!(max_idx, win_move, "winning move should have highest policy");
}

#[test]
fn test_game_ends_correctly() {
    let mut board = make_board();
    assert!(board.play(0, 0));
    assert!(board.play(1, 0));
    assert!(board.play(0, 1));
    assert!(board.play(1, 1));
    assert!(board.play(0, 2));
    assert!(board.game_over);
    assert_eq!(board.winner, Some(Color::Black));
}

#[test]
fn test_full_game_completion() {
    let mut board = make_board();
    let evaluator = MockEvaluator::new();
    let config = GumbelConfig::pure_gumbel(128);
    let mut mcts: MCTS<F> = MCTS::new();
    for _ in 0..9 {
        if board.game_over {
            break;
        }
        mcts.reset();
        let result = search(&mut mcts, &board, &evaluator, &config, &mut rand::rng());
        if result.best_move >= 9 {
            break;
        }
        board.play_idx(result.best_move);
    }
    assert!(board.game_over);
    assert!(board.step_count <= 9);
}

#[test]
fn test_draw_game() {
    let mut board = make_board();
    let moves = [(0, 0), (1, 1), (2, 2), (2, 0), (0, 2), (0, 1), (2, 1), (1, 2), (1, 0)];
    for &(r, c) in &moves {
        assert!(board.play(r, c), "move ({},{}) should be legal", r, c);
    }
    assert!(board.game_over);
    assert_eq!(board.winner, None);
}

#[test]
fn test_nn_value_influences_root_value() {
    let board = make_board();
    let evaluator = MockEvaluator::new().with_value(board.encode(), 1.0);
    let config = GumbelConfig::pure_gumbel(1024);
    let mut mcts: MCTS<F> = MCTS::new();
    let result = search(&mut mcts, &board, &evaluator, &config, &mut rand::rng());
    assert!(
        result.root_value.0 > -1.0,
        "positive NN value should not produce extreme negative root value"
    );
}

#[test]
fn test_sequential_halving_sequence_monotonic() {
    let seq = sequential_halving_seq(4, 16);
    assert_eq!(seq.len(), 16);
    for w in seq.windows(2) {
        assert!(w[0] <= w[1], "halving seq should be non-decreasing");
    }
}

#[test]
fn test_compute_mixed_value_no_visits_returns_raw() {
    let raw = 0.7;
    let qvalues: Vec<F> = vec![];
    let visit_counts: Vec<usize> = vec![];
    let priors: Vec<F> = vec![];
    let result = compute_mixed_value(F(raw), &qvalues, &visit_counts, &priors);
    assert!((result.0 - raw).abs() < 1e-6);
}

#[test]
fn test_compute_mixed_value_with_visits() {
    let raw = 0.3;
    let qvalues = vec![F(0.5)];
    let visit_counts = vec![3];
    let priors = vec![F(0.6)];
    let result = compute_mixed_value(F(raw), &qvalues, &visit_counts, &priors).0;
    assert!((result - 0.45).abs() < 1e-5, "expected 0.45, got {result}");
}

#[test]
fn test_improved_policy_sums_to_one() {
    let board = make_board();
    let evaluator = MockEvaluator::new();
    let config = GumbelConfig::pure_gumbel(64);
    let mut mcts: MCTS<F> = MCTS::new();
    let result = search(&mut mcts, &board, &evaluator, &config, &mut rand::rng());
    let sum: f32 = floats(&result.policy).iter().sum();
    assert!((sum - 1.0).abs() < 0.02, "improved policy sum should be ~1, got {sum}");
}

#[test]
fn test_halving_table_correct_size() {
    let table = halving_table(4, 16);
    assert_eq!(table.nrows(), 5);
    assert_eq!(table.ncols(), 16);
}

#[test]
fn test_root_and_interior_selection_reach_leaves() {
    let board = make_board();
    let evaluator = MockEvaluator::new();
    let config = GumbelConfig::pure_gumbel(256);
    let mut mcts: MCTS<F> = MCTS::new();
    let result = search(&mut mcts, &board, &evaluator, &config, &mut rand::rng());
    let nonzero_visits = result.children_visits.iter().filter(|&&v| v > 0).count();
    assert!(
        nonzero_visits >= 5,
        "at least 5 actions should have visits, got {}",
        nonzero_visits
    );
}

#[test]
fn test_select_interior_child_prefers_visited_high_q() {
    let mut mcts: MCTS<F> = MCTS::new();
    let config = GumbelConfig::default();
    mcts.arena.push(Node::new(F(0.0), F(0.0), None));
    mcts.arena[0].raw_value = Some(F(0.0));
    let child0 = mcts.push_node(Node::new(F(0.5), F(0.5), Some(0)));
    let child1 = mcts.push_node(Node::new(F(0.5), F(0.5), Some(0)));
    mcts.arena[0].children.insert(0, child0);
    mcts.arena[0].children.insert(1, child1);
    for _ in 0..10 {
        mcts.arena[child0].add_visit(F(0.8));
    }
    for _ in 0..10 {
        mcts.arena[child1].add_visit(F(-0.5));
    }
    let gc = mcts.push_node(Node::new(F(0.5), F(0.5), Some(child0)));
    mcts.arena[child0].children.insert(0, gc);
    let children = mcts.children_vec(0);
    let values = mcts.completed_q_values::<Board>(0, &children, &config);
    let keys = mcts.interior_keys_of(&children, &values);
    let (action, _) = mcts.select_interior_child(0, &children, &keys);
    assert_eq!(
        action, 1,
        "should prefer child with higher Q from parent's perspective"
    );
}

#[test]
fn every_simulation_tries_one_root_action() {
    let board = make_board();
    let evaluator = MockEvaluator::new();
    let mut mcts: MCTS<F> = MCTS::new();
    let config = GumbelConfig::pure_gumbel(100);
    let result = search(&mut mcts, &board, &evaluator, &config, &mut rand::rng());
    assert_eq!(result.children_visits.iter().sum::<u32>(), 100);
    assert_eq!(mcts.root().visit_count, 100);
    let again = search(&mut mcts, &board, &evaluator, &config, &mut rand::rng());
    assert_eq!(again.children_visits.iter().sum::<u32>(), 200);
    assert_eq!(mcts.root().visit_count, 200);
}

#[test]
fn children_are_the_legal_actions_all_the_way_down() {
    let mut board = make_board();
    board.play(1, 1);
    let evaluator = MockEvaluator::new();
    let mut mcts: MCTS<F> = MCTS::new();
    let config = GumbelConfig::pure_gumbel(200);
    search(&mut mcts, &board, &evaluator, &config, &mut rand::rng());
    let mut stack = vec![(mcts.root_id, board.clone())];
    while let Some((id, game)) = stack.pop() {
        let node = &mcts.arena[id];
        if node.raw_value.is_none() {
            assert!(node.children.is_empty());
            continue;
        }
        let mut actions: Vec<usize> = node.children.keys().copied().collect();
        actions.sort();
        assert_eq!(actions, game.legal_actions());
        let mut visits = 0;
        for (action, child) in &node.children {
            assert_eq!(mcts.arena[*child].parent, Some(id));
            assert!(*child > id);
            visits += mcts.arena[*child].visit_count;
            let mut next = game.clone();
            assert!(Game::play(&mut next, *action));
            stack.push((*child, next));
        }
        assert!(visits <= node.visit_count);
    }
}

#[test]
fn first_round_visits_different_actions() {
    let board = Board::with_size(5, 4);
    let evaluator = MockEvaluator::new();
    let mut mcts: MCTS<F> = MCTS::new();
    let config = GumbelConfig::pure_gumbel(16);
    let result = search(&mut mcts, &board, &evaluator, &config, &mut rand::rng());
    assert_eq!(result.children_visits.iter().filter(|&&v| v == 1).count(), 16);
    assert_eq!(result.children_visits.iter().filter(|&&v| v == 0).count(), 9);
}

#[test]
fn reused_subtree_keeps_its_visits() {
    let mut board = make_board();
    let evaluator = MockEvaluator::new();
    let mut mcts: MCTS<F> = MCTS::new();
    let config = GumbelConfig::pure_gumbel(64);
    let result = search(&mut mcts, &board, &evaluator, &config, &mut rand::rng());
    let nodes = mcts.arena.len();
    mcts.reuse_subtree(result.best_move);
    board.play_idx(result.best_move);
    assert_eq!(mcts.arena.len(), nodes);
    assert_eq!(mcts.root().visit_count, result.children_visits[result.best_move]);
    let before = mcts.root().visit_count;
    search(&mut mcts, &board, &evaluator, &config, &mut rand::rng());
    assert_eq!(mcts.root().visit_count, before + 64);
    mcts.reset();
    assert_eq!(mcts.arena.len(), 1);
    assert_eq!(mcts.root_id, 0);
    assert_eq!(mcts.root().visit_count, 0);
}

#[test]
fn backed_up_values_flip_at_each_parent() {
    let mut mcts: MCTS<F> = MCTS::new();
    let actions = vec![3, 5];
    let priors = vec![F(0.0), F(0.1), F(0.2), F(0.3), F(0.4), F(0.5)];
    let logits = vec![F(0.0), F(1.0), F(2.0), F(3.0), F(4.0), F(5.0)];
    mcts.expand_node(0, &actions, &priors, &logits, F(0.25));
    assert_eq!(mcts.arena.len(), 3);
    assert_eq!(mcts.arena[0].raw_value, Some(F(0.25)));
    assert_eq!(mcts.arena[0].children[&3], 1);
    assert_eq!(mcts.arena[0].children[&5], 2);
    assert_eq!(mcts.arena[2].prior, F(0.5));
    assert_eq!(mcts.arena[2].policy_logit, F(5.0));
    mcts.expand_node(2, &vec![1], &priors, &logits, F(0.5));
    mcts.backprop_from::<Board>(3, F(0.75));
    assert_eq!(mcts.arena[3].total_value, F(0.75));
    assert_eq!(mcts.arena[2].total_value, F(-0.75));
    assert_eq!(mcts.arena[0].total_value, F(0.75));
    assert_eq!(mcts.arena[1].visit_count, 0);
    mcts.backprop_from::<Board>(1, F(-1.0));
    assert_eq!(mcts.arena[0].visit_count, 2);
    assert_eq!(mcts.arena[0].total_value, F(1.75));
    assert_eq!(mcts.arena[0].q(), F(0.875));
    assert_eq!(mcts.children_visits(6), vec![0, 0, 0, 1, 0, 1]);
    assert_eq!(
        mcts.children_q::<Board>(6),
        vec![F(0.0), F(0.0), F(0.0), F(1.0), F(0.0), F(0.75)]
    );
    assert_eq!(mcts.arena[1].prior, F(0.3));
    mcts.expand_node(1, &vec![], &priors, &logits, F(0.9));
    assert_eq!(mcts.arena[1].raw_value, None);
    assert!(mcts.arena[1].is_leaf());
    assert!(!mcts.arena[2].is_leaf());
}

#[test]
fn halving_sequences() {
    assert_eq!(sequential_halving_seq(0, 3), vec![0, 1, 2]);
    assert_eq!(sequential_halving_seq(1, 4), vec![0, 1, 2, 3]);
    assert_eq!(
        sequential_halving_seq(4, 16),
        vec![0, 0, 0, 0, 1, 1, 1, 1, 2, 2, 3, 3, 4, 4, 5, 5]
    );
    assert_eq!(sequential_halving_seq(5, 7), vec![0, 0, 0, 0, 0, 1, 1]);
    assert_eq!(sequential_halving_seq(3, 0), Vec::<usize>::new());
}

#[test]
fn halving_table_rows_are_the_sequences() {
    let table = halving_table(6, 20);
    for m in 0..7 {
        let seq = sequential_halving_seq(m, 20);
        for j in 0..20 {
            assert_eq!(table.get(m, j), seq[j]);
        }
    }
    let mut config: GumbelConfig<F> = GumbelConfig::pure_gumbel(20);
    config.max_num_considered_actions = 6;
    assert_eq!(considered_visit(&table, &config, 7), sequential_halving_seq(6, 20)[7]);
    assert_eq!(considered_visit(&table, &config, 99), sequential_halving_seq(6, 20)[19]);
    config.max_num_considered_actions = 4;
    assert_eq!(considered_visit(&table, &config, 11), sequential_halving_seq(4, 20)[11]);
}

#[test]
fn largest_key_wins_and_ties_go_to_the_first() {
    assert_eq!(argmax(&vec![]), 0);
    assert_eq!(argmax(&vec![-4]), 0);
    assert_eq!(argmax(&vec![1, 7, 3, 7]), 1);
    assert_eq!(argmax(&vec![-1, -7, -1]), 0);
}

#[test]
fn only_considered_children_compete_at_the_root() {
    let mut mcts: MCTS<F> = MCTS::new();
    let numbers = vec![F(0.0); 3];
    mcts.expand_node(0, &vec![0, 1, 2], &numbers, &numbers, F(0.0));
    mcts.backprop_from::<Board>(2, F(0.0));
    let mut children = mcts.children_vec(0);
    children.sort();
    assert_eq!(children, vec![(0, 1), (1, 2), (2, 3)]);
    let keys = vec![5, 50, 6];
    assert_eq!(mcts.score_considered(0, &children, &keys, -10), vec![5, -10, 6]);
    assert_eq!(mcts.select_root_child(0, &children, &keys, -10), (2, 3));
    assert_eq!(mcts.select_root_child(1, &children, &keys, -10), (1, 2));
    assert_eq!(mcts.select_root_child(9, &children, &keys, -10), (0, 1));
    let fresh: MCTS<F> = MCTS::new();
    assert_eq!(fresh.select_root_child(0, &vec![], &vec![], 0), (0, 0));
    assert_eq!(fresh.select_interior_child(4, &vec![], &vec![]), (0, 4));
}

#[test]
fn illegal_choices_leave_the_game_of_a_simulation_as_it_is() {
    let mut board = make_board();
    let evaluator = MockEvaluator::new();
    let mut mcts: MCTS<F> = MCTS::new();
    let config = GumbelConfig::pure_gumbel(32);
    search(&mut mcts, &board, &evaluator, &config, &mut rand::rng());
    board.play(0, 0);
    let result = search(&mut mcts, &board, &evaluator, &config, &mut rand::rng());
    assert_eq!(result.children_visits.iter().sum::<u32>(), 64);
}

#[test]
fn probabilities_of_legal_actions() {
    let logits = vec![F(1.0), F(0.0), F(0.0), F(5.0)];
    let probs = softmax_legal(&logits, &vec![1, 2]);
    assert_eq!(probs, vec![F(0.0), F(0.5), F(0.5), F(0.0)]);
    let none = softmax_legal(&vec![F(f32::NEG_INFINITY); 3], &vec![0, 2]);
    assert!(none[0].0.is_nan() || none[0].0 == 0.5);
    assert_eq!(none[1], F(0.0));
}

#[test]
fn softmax_at_temperatures() {
    let even = softmax_full(&vec![F(2.0), F(2.0)], F(1.0));
    assert_eq!(even, vec![F(0.5), F(0.5)]);
    let flat = softmax_full(&vec![F(9.0), F(1.0), F(2.0), F(3.0)], F(0.0));
    assert_eq!(flat, vec![F(0.25); 4]);
    let sharp = softmax_full(&vec![F(0.0), F(1.0)], F(0.1));
    let expected = (-10.0f32).exp() / (1.0 + (-10.0f32).exp());
    assert!((sharp[0].0 - expected).abs() < 1e-6);
    let hidden = softmax_full(&vec![F(f32::NEG_INFINITY), F(0.0)], F(1.0));
    assert_eq!(hidden, vec![F(0.0), F(1.0)]);
}

#[test]
fn visit_shares() {
    let shares: Vec<D> = visit_count_distribution(&vec![1, 0, 3], D(1.0));
    assert!((shares[0].0 - 0.25).abs() < 1e-12);
    assert_eq!(shares[1], D(0.0));
    assert!((shares[2].0 - 0.75).abs() < 1e-12);
    let none: Vec<D> = visit_count_distribution(&vec![0, 0], D(1.0));
    assert_eq!(none, vec![D(0.5), D(0.5)]);
    let flat: Vec<D> = visit_count_distribution(&vec![8, 1, 1, 0], D(0.0));
    assert_eq!(flat, vec![D(0.25); 4]);
}

#[test]
fn a_low_temperature_is_greedier() {
    let visits = vec![1, 3, 0];
    let half: Vec<D> = visit_count_distribution(&visits, D(0.5));
    assert!((half[0].0 - 0.1).abs() < 1e-12);
    assert!((half[1].0 - 0.9).abs() < 1e-12);
    let cold: Vec<D> = visit_count_distribution(&visits, D(0.1));
    assert!((cold[1].0 - 59049.0 / 59050.0).abs() < 1e-9);
    assert_eq!(cold[2], D(0.0));
    let warm: Vec<D> = visit_count_distribution(&visits, D(2.0));
    assert!((warm[1].0 / warm[0].0 - 3.0f64.sqrt()).abs() < 1e-9);
}

#[test]
fn actions_without_a_draw() {
    assert_eq!(sure_action::<D>(&vec![]), Some(0));
    assert_eq!(sure_action(&vec![D(0.0), D(0.0), D(0.0)]), Some(2));
    assert_eq!(sure_action(&vec![D(-1.0), D(0.5), D(0.5), D(-1.0)]), Some(2));
    assert_eq!(sure_action(&vec![D(0.5), D(0.5)]), None);
}

#[test]
fn noise_is_cut_scaled_and_normalized() {
    let noises = gumbel_noise(&vec![F(-20.0), F(1.0), F(30.0)], F(0.5));
    assert_eq!(noises, vec![F(-6.0), F(0.5), F(6.0)]);
    let noise = dirichlet_noise(&vec![F(1.0), F(3.0)]);
    assert_eq!(noise, vec![F(0.25), F(0.75)]);
}

#[test]
fn noise_mixed_into_priors() {
    let mut mcts: MCTS<F> = MCTS::new();
    let priors = vec![F(0.5), F(0.5)];
    mcts.expand_node(0, &vec![0, 1], &priors, &priors, F(0.0));
    let mut children = mcts.children_vec(0);
    children.sort();
    mcts.mix_noise(&children, &vec![F(1.0), F(0.0)], F(0.25));
    assert_eq!(mcts.arena[1].prior, F(0.625));
    assert_eq!(mcts.arena[2].prior, F(0.375));
    assert_eq!(mcts.arena[2].policy_logit, F(0.5));
}

#[test]
fn value_of_the_root() {
    let values = vec![F(1.0), F(-1.0), F(0.0)];
    assert_eq!(root_value(&values, &vec![3, 1, 0], F(0.9)), F(0.5));
    assert_eq!(root_value(&values, &vec![0, 0, 0], F(0.9)), F(0.9));
}

#[test]
fn surprise_of_a_search() {
    let same = vec![F(0.5), F(0.5)];
    assert_eq!(compute_kl(&same, &same), F(0.0));
    let sure = vec![F(1.0), F(0.0)];
    let kl = compute_kl(&sure, &same).0;
    assert!((kl - 2.0f32.ln()).abs() < 1e-6);
    assert_eq!(compute_kl(&vec![], &same), F(0.0));
}

#[test]
fn sums() {
    assert_eq!(sum::<F>(&vec![]), F(0.0));
    assert_eq!(sum(&vec![F(0.5), F(0.25), F(0.25)]), F(1.0));
}

#[test]
fn completed_values_fill_in_and_stretch() {
    let mut mcts: MCTS<F> = MCTS::new();
    let priors = vec![F(0.5), F(0.25), F(0.25)];
    mcts.expand_node(0, &vec![0, 1, 2], &priors, &priors, F(0.5));
    mcts.backprop_from::<Board>(1, F(-1.0));
    mcts.backprop_from::<Board>(2, F(0.5));
    let children = vec![(0, 1), (1, 2), (2, 3)];
    let config = GumbelConfig::default();
    let values = mcts.completed_q_values::<Board>(0, &children, &config);
    // The visited children are worth 1 and -0.5; the mixed value is (0.5 + 2 * 0.5) / 3.
    assert!((values[0].0 - 5.1).abs() < 1e-4);
    assert!((values[1].0 - 0.0).abs() < 1e-4);
    assert!((values[2].0 - 5.1 * (1.0 / 1.5)).abs() < 1e-4);
}

#[test]
fn game_on_a_board() {
    let mut board = make_board();
    assert_eq!(board.encode_shape(), &[9]);
    assert_eq!(board.action_shape(), 9);
    assert_eq!(Game::current_player(&board), Color::Black);
    assert_eq!(<Board as Game>::next_player(Color::Black), Color::White);
    assert_eq!(Scored::<F>::terminal_value(&board), None);
    assert!(!board.is_terminal());
    assert!(!Game::play(&mut board, 9));
    for action in [0, 3, 1, 4] {
        assert!(Game::play(&mut board, action));
        assert!(!Game::play(&mut board, action));
    }
    assert!(Game::play(&mut board, 2));
    assert!(board.is_terminal());
    assert_eq!(board.outcome(), Some(Outcome::Loss));
    assert_eq!(Scored::<F>::terminal_value(&board), Some(F(-1.0)));
    assert_eq!(<Board as Scored<F>>::flip_perspective(F(0.75)), F(-0.75));
    assert_eq!(worth_of::<F>(Outcome::Win), F(1.0));
    assert_eq!(worth_of::<F>(Outcome::Draw), F(0.0));
    assert_eq!(Outcome::Loss.sign(), -1);
    assert_eq!(Outcome::Loss.flip(), Outcome::Win);
    assert_eq!(Outcome::Draw.flip().sign(), 0);
    assert_eq!(Outcome::Win.sign(), 1);
    assert_eq!(board.duplicate().encode(), board.encode());
}

#[test]
fn presets_of_the_search() {
    let d: GumbelConfig<F> = GumbelConfig::default();
    assert_eq!((d.num_simulations, d.max_num_considered_actions, d.max_visit_init), (64, 16, 50));
    assert_eq!((d.value_scale, d.gumbel_scale, d.select_temperature), (F(0.1), F(1.0), F(1.0)));
    assert_eq!((d.dirichlet_alpha, d.dirichlet_epsilon), (F(0.3), F(0.25)));
    assert!(d.add_dirichlet_noise);
    let i: GumbelConfig<F> = GumbelConfig::inference(7);
    assert!(!i.add_dirichlet_noise);
    assert_eq!((i.num_simulations, i.select_temperature), (7, F(0.1)));
}

#[test]
fn visits_follow_sequential_halving() {
    let board = make_board();
    let evaluator = MockEvaluator::new();
    let mut config = GumbelConfig::pure_gumbel(8);
    config.max_num_considered_actions = 4;
    let mut mcts: MCTS<F> = MCTS::new();
    let result = search(&mut mcts, &board, &evaluator, &config, &mut rand::rng());
    let mut visits = result.children_visits.clone();
    visits.sort();
    assert_eq!(visits, vec![0, 0, 0, 0, 0, 1, 1, 3, 3]);
}

#[test]
fn with_few_actions_each_is_tried() {
    let mut board = make_board();
    for action in [0, 4, 8, 2, 6] {
        assert!(board.play_idx(action));
    }
    let evaluator = MockEvaluator::new();
    let config = GumbelConfig::pure_gumbel(16);
    let mut mcts: MCTS<F> = MCTS::new();
    let result = search(&mut mcts, &board, &evaluator, &config, &mut rand::rng());
    for action in board.legal_actions() {
        assert!(result.children_visits[action] >= 1);
    }
}

#[test]
fn the_raw_prior_survives_noise_and_searches() {
    let board = make_board();
    let mut policy = vec![-10.0f32; 9];
    policy[4] = 10.0;
    let evaluator =
        MockEvaluator::new().with_policy(board.encode(), policy).with_value(board.encode(), 0.5);
    let config = GumbelConfig::mixed(32);
    let mut mcts: MCTS<F> = MCTS::new();
    let first = search(&mut mcts, &board, &evaluator, &config, &mut rand::rng());
    let second = search(&mut mcts, &board, &evaluator, &config, &mut rand::rng());
    assert!(first.root_nn_prior[4].0 > 0.99);
    assert_eq!(first.root_nn_prior, second.root_nn_prior);
    assert_eq!((first.root_nn_value, second.root_nn_value), (F(0.5), F(0.5)));
    let noisy = mcts.arena[mcts.arena[0].children[&4]].prior;
    assert!(noisy.0 < first.root_nn_prior[4].0);
}

#[test]
fn the_value_of_a_reused_root_is_a_mean() {
    let mut board = make_board();
    let evaluator = MockEvaluator::new();
    let mut mcts: MCTS<F> = MCTS::new();
    let config = GumbelConfig::pure_gumbel(64);
    let result = search(&mut mcts, &board, &evaluator, &config, &mut rand::rng());
    mcts.reuse_subtree(result.best_move);
    board.play_idx(result.best_move);
    let again = search(&mut mcts, &board, &evaluator, &config, &mut rand::rng());
    let tried: u32 = again.children_visits.iter().sum();
    assert_eq!(tried + 1, mcts.root().visit_count);
    let mean: f32 = (0..9)
        .map(|a| again.children_visits[a] as f32 * again.children_q[a].0)
        .sum::<f32>()
        / tried as f32;
    assert!((again.root_value.0 - mean).abs() < 1e-5);
    assert_eq!(root_value(&vec![F(0.5), F(0.0)], &vec![1, 0], F(0.9)), F(0.5));
}

#[test]
fn interior_nodes_go_by_the_prior() {
    let mut mcts: MCTS<F> = MCTS::new();
    let priors = vec![F(0.25), F(0.75)];
    let logits = vec![F(9.0), F(1.0)];
    mcts.expand_node(0, &vec![0, 1], &priors, &logits, F(0.0));
    let children = vec![(0, 1), (1, 2)];
    let keys = mcts.interior_keys_of(&children, &vec![F(0.0), F(0.0)]);
    assert_eq!(keys, vec![F(0.25).key(), F(0.75).key()]);
    assert_eq!(mcts.select_interior_child(0, &children, &keys), (1, 2));
    mcts.backprop_from::<Board>(2, F(0.0));
    let keys = mcts.interior_keys_of(&children, &vec![F(0.0), F(0.0)]);
    assert_eq!(keys, vec![F(0.25).key(), F(0.25).key()]);
}

#[test]
fn mixed_values_ignore_what_was_not_visited() {
    let counts = vec![2, 0, 1];
    let a = compute_mixed_value(
        F(0.5),
        &vec![F(1.0), F(0.0), F(-0.5)],
        &counts,
        &vec![F(0.5), F(0.25), F(0.25)],
    );
    let b = compute_mixed_value(
        F(0.5),
        &vec![F(1.0), F(-9.0), F(-0.5)],
        &counts,
        &vec![F(0.5), F(0.0), F(0.25)],
    );
    assert_eq!(a, b);
    assert!((a.0 - 0.5).abs() < 1e-6);
    let none = compute_mixed_value(F(0.5), &vec![F(1.0)], &vec![0], &vec![F(1.0)]);
    assert_eq!(none, F(0.5));
}

#[test]
fn mixed_values_of_uneven_lists() {
    let counts = vec![1, 1];
    let one = compute_mixed_value(F(0.0), &vec![F(1.0)], &counts, &vec![F(0.25), F(0.75)]);
    // Both visits count, and both probabilities, but one value.
    assert!((one.0 - 2.0 * 0.25 / 3.0).abs() < 1e-6);
    let two = compute_mixed_value(F(0.0), &vec![F(1.0), F(1.0)], &counts, &vec![F(0.25)]);
    assert!((two.0 - 2.0 / 3.0).abs() < 1e-6);
    let none = compute_mixed_value(F(0.5), &vec![], &counts, &vec![]);
    assert_eq!(none, F(0.5));
}

#[test]
fn mixed_values_lie_between() {
    let value = compute_mixed_value(
        F(0.25),
        &vec![F(-0.5), F(0.75), F(9.0)],
        &vec![3, 5, 0],
        &vec![F(0.125), F(0.5), F(0.375)],
    )
    .0;
    assert!(value > -0.5 && value < 0.75);
    let mean = root_value(&vec![F(-0.5), F(0.75), F(9.0)], &vec![3, 5, 0], F(0.0)).0;
    assert!((mean - 0.28125).abs() < 1e-6);
}

#[test]
fn any_node_can_be_pushed() {
    let mut mcts: MCTS<F> = MCTS::new();
    let mut node = Node::new(F(0.5), F(0.25), Some(7));
    node.add_visit(F(1.0));
    node.children.insert(3, 9);
    let copy = node.clone();
    assert_eq!(mcts.push_node(node), 1);
    assert_eq!(mcts.arena.len(), 2);
    assert_eq!(mcts.arena[1].parent, copy.parent);
    assert_eq!(mcts.arena[1].visit_count, 1);
    assert_eq!(mcts.arena[1].children[&3], 9);
    assert_eq!(mcts.root_id, 0);
}

#[test]
fn settled_simulations_back_up_the_result() {
    let mut board = make_board();
    for action in [0, 3, 1, 4] {
        assert!(board.play_idx(action));
    }
    let mut mcts: MCTS<F> = MCTS::new();
    let mut logits = vec![F(0.0); 9];
    logits[2] = F(5.0);
    mcts.expand_root(&board, &logits, F(0.0));
    let mut config = GumbelConfig::pure_gumbel(1);
    config.max_num_considered_actions = 1;
    let mut run = SearchRun::begin(&mcts, &board, &config);
    match run.advance(&mcts, &vec![F(0.0); 5]) {
        Step::Terminal(value) => assert_eq!(value, F(-1.0)),
        _ => panic!("the winning move ends the game"),
    }
    run.settle(&mut mcts);
    assert!(matches!(run.advance(&mcts, &vec![F(0.0); 5]), Step::Done));
    let win = mcts.arena[0].children[&2];
    assert_eq!(mcts.arena[win].total_value, F(-1.0));
    assert_eq!(mcts.arena[0].total_value, F(1.0));
    let result = mcts.conclude::<Board>(&config, 9, &board.legal_actions(), 2);
    assert_eq!(result.children_q[2], F(1.0));
    assert_eq!(result.root_value, F(1.0));
}
