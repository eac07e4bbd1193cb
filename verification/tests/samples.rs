use gomoku_ai::game::board::{Board, Color};
use gomoku_ai::game::symmetry::D4Symmetry;
use gomoku_ai::mcts::table::Table;
use gomoku_ai::number::{Real, Score};
use gomoku_ai::random::{game_seeds, seeds_from};
use gomoku_ai::selfplay::{outcome_for, PlayRecord, SelfPlay, SelfPlayConfig};
use gomoku_ai::mcts::game::{worth_of, Outcome};
use gomoku_ai::training::batch::{augment_batch, flatten_batch};
use gomoku_ai::training::buffer::RolloutBuffer;
use rand::rngs::StdRng;
use rand::SeedableRng;

#[derive(Clone, Copy, Debug, PartialEq)]
struct D(f64);

impl Score for D {
    fn zero() -> Self {
        D(0.0)
    }
    fn plus(self, other: Self) -> Self {
        D(self.0 + other.0)
    }
    fn mean(self, count: usize) -> Self {
        D(self.0 / count as f64)
    }
    fn negated(self) -> Self {
        D(-self.0)
    }
}

impl Real for D {
    fn minus(self, other: Self) -> Self {
        D(self.0 - other.0)
    }
    fn times(self, other: Self) -> Self {
        D(self.0 * other.0)
    }
    fn over(self, other: Self) -> Self {
        D(self.0 / other.0)
    }
    fn exp(self) -> Self {
        D(self.0.exp())
    }
    fn ln(self) -> Self {
        D(self.0.ln())
    }
    fn larger(self, other: Self) -> Self {
        D(self.0.max(other.0))
    }
    fn smaller(self, other: Self) -> Self {
        D(self.0.min(other.0))
    }
    fn positive(self) -> bool {
        self.0 > 0.0
    }
    fn is_zero(self) -> bool {
        self.0 == 0.0
    }
    fn negligible(self) -> bool {
        self.0 <= 1e-12
    }
    fn vanishing(self) -> bool {
        self.0 < 1e-10
    }
    fn count(n: usize) -> Self {
        D(n as f64)
    }
    fn milli(n: u32) -> Self {
        D(n as f64 / 1000.0)
    }
    fn lowest() -> Self {
        D(f64::NEG_INFINITY)
    }
    fn highest() -> Self {
        D(f64::INFINITY)
    }
    fn low() -> Self {
        D(-1e9)
    }
    fn least_spread() -> Self {
        D(1e-8)
    }
    fn tiny() -> Self {
        D(1e-12)
    }
    fn key(self) -> i64 {
        let bits = (self.0 + 0.0).to_bits();
        if bits >> 63 == 1 {
            -((bits & (u64::MAX >> 1)) as i64)
        } else {
            bits as i64
        }
    }
}

#[test]
fn symmetries_move_cells() {
    let symmetry = D4Symmetry::new(3);
    let state: Vec<i32> = (0..9).collect();
    let policy: Vec<u8> = (10..19).collect();
    let expected: [[i32; 9]; 8] = [
        [0, 1, 2, 3, 4, 5, 6, 7, 8],
        [6, 3, 0, 7, 4, 1, 8, 5, 2],
        [8, 7, 6, 5, 4, 3, 2, 1, 0],
        [2, 5, 8, 1, 4, 7, 0, 3, 6],
        [2, 1, 0, 5, 4, 3, 8, 7, 6],
        [6, 7, 8, 3, 4, 5, 0, 1, 2],
        [0, 3, 6, 1, 4, 7, 2, 5, 8],
        [8, 5, 2, 7, 4, 1, 6, 3, 0],
    ];
    for t in 0..8 {
        let (s, p) = symmetry.apply_transform(&state, &policy, t);
        assert_eq!(s, expected[t].to_vec());
        let q: Vec<u8> = expected[t].iter().map(|x| *x as u8 + 10).collect();
        assert_eq!(p, q);
    }
}

#[test]
fn every_symmetry_can_be_taken_back() {
    let symmetry = D4Symmetry::new(4);
    let inverse = [0, 3, 2, 1, 4, 5, 6, 7];
    let state: Vec<i32> = (0..16).collect();
    for t in 0..8 {
        let (moved, policy) = symmetry.apply_transform(&state, &state, t);
        assert_eq!(moved, policy);
        let (back, _) = symmetry.apply_transform(&moved, &policy, inverse[t]);
        assert_eq!(back, state);
    }
}

#[test]
fn random_symmetries() {
    let symmetry = D4Symmetry::new(3);
    let state: Vec<i32> = (0..9).collect();
    let mut rng = StdRng::seed_from_u64(5);
    let (same, _) = symmetry.random_augment(&state, &state, &mut rng, true);
    assert_eq!(same, state);
    let mut seen = std::collections::HashSet::new();
    for _ in 0..200 {
        let (moved, policy) = symmetry.random_augment(&state, &state, &mut rng, false);
        assert_ne!(moved, state);
        assert_eq!(moved, policy);
        seen.insert(moved);
    }
    assert_eq!(seen.len(), 7);
    for draw in 0..7 {
        let (chosen, _) = symmetry.augment(&state, &state, false, draw);
        assert_eq!(chosen, symmetry.apply_transform(&state, &state, 1 + draw).0);
    }
}

#[test]
fn symmetry_keeps_a_win() {
    let symmetry = D4Symmetry::new(3);
    let line = [(0usize, 0usize), (0, 1), (0, 2)];
    let marks: Vec<i32> = vec![1, 1, 1, 2, 2, 0, 0, 0, 0];
    for t in 0..8 {
        let (moved, _) = symmetry.apply_transform(&marks, &marks, t);
        let mut board = Board::with_size(3, 3);
        let own: Vec<usize> = (0..9).filter(|i| moved[*i] == 1).collect();
        let other: Vec<usize> = (0..9).filter(|i| moved[*i] == 2).collect();
        assert_eq!(own.len(), line.len());
        for k in 0..3 {
            assert!(board.play_idx(own[k]));
            if k < 2 {
                assert!(board.play_idx(other[k]));
            }
        }
        assert_eq!(board.winner, Some(Color::Black));
    }
}

#[test]
fn table_slots() {
    let mut table: Table<u32> = Table::new(4);
    assert_eq!(table.len(), 4);
    assert_eq!(table.get(2), None);
    table.set(2, 20);
    table.set(0, 7);
    assert_eq!(table.get(2), Some(&20));
    assert_eq!(table[0], Some(7));
    assert_eq!(table.position_of(&20), Some(2));
    assert_eq!(table.position_of(&21), None);
    assert_eq!(table.values_copied(), vec![7, 20]);
    assert_eq!(table.occupied(), vec![(0, &7), (2, &20)]);
    assert_eq!(table.values(), vec![&7, &20]);
    assert_eq!(table.iter(), vec![(0, Some(&7)), (1, None), (2, Some(&20)), (3, None)]);
    if let Some(v) = table.get_mut(2) {
        *v += 1;
    }
    assert!(table.get_mut(1).is_none());
    for v in table.values_mut() {
        *v *= 2;
    }
    *table.index_mut(3) = Some(1);
    assert_eq!(table.values_copied(), vec![14, 42, 1]);
    assert_eq!(table.get(1), None);
}

#[test]
fn buffer_keeps_the_newest() {
    let mut buffer: RolloutBuffer<i32> = RolloutBuffer::new(4);
    assert!(buffer.is_empty());
    assert_eq!(buffer.extend(vec![1, 2, 3]), 3);
    assert_eq!(buffer.len(), 3);
    assert_eq!(buffer.extend(vec![4, 5]), 2);
    assert_eq!(buffer.len(), 4);
    assert_eq!(*buffer.get(0), 2);
    assert_eq!(buffer.iter(), vec![&2, &3, &4, &5]);
    assert_eq!(buffer.extend((10..20).collect()), 10);
    assert_eq!(buffer.iter(), vec![&16, &17, &18, &19]);
    assert_eq!(buffer.sample_batch(&vec![3, 0, 3]), vec![&19, &16, &19]);
    assert_eq!(buffer.extend(vec![]), 0);
    assert!(!buffer.is_empty());
}

#[test]
fn seeds_follow_each_other_and_wrap() {
    assert_eq!(seeds_from(10, 0, 3), vec![10, 11, 12]);
    assert_eq!(seeds_from(10, 2, 5), vec![12, 13, 14]);
    assert_eq!(seeds_from(u64::MAX, 0, 3), vec![u64::MAX, 0, 1]);
    let mut rng = StdRng::seed_from_u64(1);
    let seeds = game_seeds(&mut rng, 5);
    for i in 1..5 {
        assert_eq!(seeds[i], seeds[i - 1].wrapping_add(1));
    }
    let more = game_seeds(&mut rng, 5);
    assert_ne!(seeds[0], more[0]);
    let again = game_seeds(&mut StdRng::seed_from_u64(1), 5);
    assert_eq!(seeds, again);
}

#[test]
fn self_play_labels_every_record() {
    let mut game: SelfPlay<D> = SelfPlay::new();
    let actions = [0, 30, 1, 31, 2, 32, 3];
    for (k, action) in actions.iter().enumerate() {
        let over = game.record_move(vec![D(k as f64)], D(0.5), D(9.0), *action);
        assert_eq!(over, k == 6);
        assert_eq!(game.records[k].value, D(0.5));
    }
    let states: Vec<Vec<i32>> = game.records.iter().map(|r| r.state.clone()).collect();
    assert_eq!(states[0], vec![0; 36]);
    assert_eq!(states[1][0], 2);
    assert_eq!(states[2][0], 1);
    assert_eq!(states[2][30], 2);
    let finished = game.finish();
    assert_eq!(finished.winner, Some(Color::Black));
    assert_eq!(finished.num_steps(), 7);
    for (k, record) in finished.records.iter().enumerate() {
        assert_eq!(record.policy, vec![D(k as f64)]);
        assert_eq!(record.sample_weight, D(9.0));
        assert_eq!(record.state.iter().filter(|x| **x != 0).count(), k);
        let black = k % 2 == 0;
        assert_eq!(record.player, if black { Color::Black } else { Color::White });
        assert_eq!(record.value, D(if black { 1.0 } else { -1.0 }));
        assert_eq!(record.value, worth_of(outcome_for(Some(Color::Black), record.player)));
    }
}

#[test]
fn only_moves_that_are_made_are_recorded() {
    let mut game: SelfPlay<D> = SelfPlay::new();
    assert!(!game.record_move(vec![], D(0.25), D(0.0), 8));
    assert!(!game.record_move(vec![], D(0.25), D(0.0), 8));
    assert!(!game.record_move(vec![], D(0.25), D(0.0), 99));
    assert_eq!(game.records.len(), 1);
    assert_eq!(game.board.step_count, 1);
    let drawn = game.finish();
    assert_eq!(drawn.winner, None);
    assert!(drawn.records.iter().all(|r| r.value == D(0.0)));
}

#[test]
fn an_empty_record() {
    let record: PlayRecord<D> = PlayRecord::default();
    let copy = record.clone();
    assert!(copy.state.is_empty() && copy.policy.is_empty());
    assert_eq!((copy.value, copy.sample_weight, copy.player), (D(0.0), D(0.0), Color::Black));
}

#[test]
fn self_play_parameters() {
    let config: SelfPlayConfig<D> = SelfPlayConfig::default();
    assert_eq!((config.num_simulations, config.select_temperature), (64, D(1.0)));
    let search = SelfPlayConfig { num_simulations: 9, select_temperature: D(0.25) }.search_config();
    assert_eq!((search.num_simulations, search.select_temperature), (9, D(0.25)));
    assert!(!search.add_dirichlet_noise);
}

#[test]
fn outcomes_for_both_players() {
    assert_eq!(outcome_for(Some(Color::White), Color::White), Outcome::Win);
    assert_eq!(outcome_for(Some(Color::White), Color::Black), Outcome::Loss);
    assert_eq!(outcome_for(None, Color::Black), Outcome::Draw);
}

fn record(start: i32) -> PlayRecord<i32> {
    PlayRecord {
        state: (start..start + 4).collect(),
        policy: (start + 50..start + 54).collect(),
        value: start,
        sample_weight: 3,
        player: Color::White,
    }
}

#[test]
fn batches_are_flattened_in_order() {
    let (states, policies, values) = flatten_batch(&vec![record(0), record(100)]);
    assert_eq!(states, vec![0, 1, 2, 3, 100, 101, 102, 103]);
    assert_eq!(policies, vec![50, 51, 52, 53, 150, 151, 152, 153]);
    assert_eq!(values, vec![0, 100]);
    let (states, policies, values) = flatten_batch::<i32>(&vec![]);
    assert!(states.is_empty() && policies.is_empty() && values.is_empty());
}

#[test]
fn batches_are_turned() {
    let symmetry = D4Symmetry::new(2);
    let (a, b) = (record(0), record(10));
    let mut rng = StdRng::seed_from_u64(3);
    let turned = augment_batch(&symmetry, &vec![&a, &b], &vec![true, false], 0, &mut rng);
    assert_eq!(turned[0].state, a.state);
    assert_eq!(turned[0].policy, a.policy);
    assert_ne!(turned[1].state, b.state);
    let shifted: Vec<i32> = turned[1].state.iter().map(|x| x + 50).collect();
    assert_eq!(turned[1].policy, shifted);
    assert_eq!(turned[1].value, 10);
    assert_eq!(turned[1].sample_weight, 0);
    assert_eq!(turned[1].player, Color::Black);
}
