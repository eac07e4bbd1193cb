//! Choosing the child to which a simulation goes down.

use vstd::prelude::*;
use crate::grid::{has_shape, VisitGrid};
use crate::mcts::config::GumbelConfig;
use crate::mcts::game::ActionId;
use crate::mcts::halving::{as_ints, law_visit_sequence, rows_as_ints, visit_sequence, visit_table};
use crate::mcts::node::{leads_to, lists, NodeId, NodeState, MCTS};
use crate::number::Score;

verus! {

/// `best` is the first place at which the largest of `keys` stands.
pub open spec fn first_largest(keys: Seq<i64>, best: int) -> bool {
    &&& 0 <= best < keys.len()
    &&& forall|i: int| 0 <= i < keys.len() ==> #[trigger] keys[i] <= keys[best]
    &&& forall|i: int| 0 <= i < best ==> #[trigger] keys[i] < keys[best]
}

/// The first place at which the largest key stands, or 0 when there is no key.
pub fn argmax(keys: &Vec<i64>) -> (best: usize)
    ensures
        keys@.len() > 0 ==> first_largest(keys@, best as int),
        keys@.len() == 0 ==> best == 0,
{
    let mut best: usize = 0;
    for i in 0..keys.len()
        invariant
            i == 0 ==> best == 0,
            i > 0 ==> first_largest(keys@.take(i as int), best as int),
    {
        if keys[i] > keys[best] {
            best = i;
        }
        proof {
            let seen = keys@.take(i + 1);
            assert(i == 0 ==> best == 0);
            assert forall|j: int| 0 <= j < seen.len() implies #[trigger] seen[j] <= seen[best as int] by {
                if j < i {
                    assert(keys@.take(i as int)[j] == keys@[j]);
                }
            }
            assert forall|j: int| 0 <= j < best implies #[trigger] seen[j] < seen[best as int] by {
                if j < i {
                    assert(keys@.take(i as int)[j] == keys@[j]);
                }
            }
        }
    }
    assert(keys@.take(keys@.len() as int) =~= keys@);
    best
}

/// The smaller of two integers.
pub open spec fn lesser(a: int, b: int) -> int {
    if a <= b {
        a
    } else {
        b
    }
}

/// How many actions the root considers at first.
pub open spec fn considered_at_first<V>(config: GumbelConfig<V>) -> int {
    lesser(config.max_num_considered_actions as int, config.num_simulations as int)
}

/// The root considers no more actions at first than it may, nor than there are simulations,
/// and as many as both allow.
pub proof fn law_considered_at_first<V>(config: GumbelConfig<V>, n: int)
    ensures
        n <= considered_at_first(config) <==> n <= config.max_num_considered_actions && n
            <= config.num_simulations,
{
}

/// The visit count that a child of the root must have to be considered in simulation
/// `sim_index`. An index past the table is taken for the last one.
pub fn considered_visit<V>(
    table: &VisitGrid,
    config: &GumbelConfig<V>,
    sim_index: usize,
) -> (visits: usize)
    requires
        table@.len() > 0,
        has_shape(table@, table@.len() as int, table@[0].len() as int),
        table@[0].len() > 0,
    ensures
        visits == table@[lesser(considered_at_first(*config), table@.len() - 1)][lesser(
            sim_index as int,
            table@[0].len() - 1,
        )],
{
    let last_col: usize = table.ncols() - 1;
    let last_row: usize = table.nrows() - 1;
    let col: usize = if sim_index <= last_col {
        sim_index
    } else {
        last_col
    };
    let mut row: usize = if config.max_num_considered_actions <= config.num_simulations {
        config.max_num_considered_actions
    } else {
        config.num_simulations
    };
    if row > last_row {
        row = last_row;
    }
    table.get(row, col)
}

/// With the table of the search, the considered visit counts follow the sequence for the
/// number of actions that the root considers at first.
pub proof fn law_considered_visits_follow_sequence<V>(
    table: Seq<Seq<usize>>,
    config: GumbelConfig<V>,
    sim_index: int,
)
    requires
        rows_as_ints(table) == visit_table(
            config.max_num_considered_actions as int,
            config.num_simulations as int,
        ),
        0 <= sim_index < config.num_simulations,
    ensures
        table.len() > 0,
        has_shape(table, table.len() as int, config.num_simulations as int),
        table[lesser(considered_at_first(config), table.len() - 1)][lesser(
            sim_index,
            config.num_simulations - 1,
        )] == visit_sequence(considered_at_first(config), config.num_simulations as int)[sim_index],
{
    let sims = config.num_simulations as int;
    let rows = rows_as_ints(table);
    assert(rows.len() == table.len());
    assert forall|r: int| 0 <= r < table.len() implies (#[trigger] table[r]).len() == sims by {
        assert(rows[r] == as_ints(table[r]));
        law_visit_sequence(r, sims);
    }
    let m = considered_at_first(config);
    assert(rows[m] == as_ints(table[m]));
    assert(as_ints(table[m])[sim_index] == table[m][sim_index]);
}

/// The keys by which the root compares its children: a child whose visit count is not the
/// considered one has the key `low`, and no key is below `low`.
pub open spec fn considered_keys<V>(
    tree: Seq<NodeState<V>>,
    children: Seq<(ActionId, NodeId)>,
    visits: int,
    keys: Seq<i64>,
    low: i64,
) -> Seq<i64> {
    Seq::new(
        children.len(),
        |i: int|
            if tree[children[i].1 as int].visits == visits && keys[i] > low {
                keys[i]
            } else {
                low
            },
    )
}

impl<V: Score> MCTS<V> {
    /// The keys by which the root compares its children: see `considered_keys`.
    pub fn score_considered(
        &self,
        considered_visit: usize,
        children: &Vec<(ActionId, NodeId)>,
        keys: &Vec<i64>,
        low: i64,
    ) -> (scores: Vec<i64>)
        requires
            keys@.len() == children@.len(),
            forall|i: int| 0 <= i < children@.len() ==> (#[trigger] children@[i]).1 < self@.len(),
        ensures
            scores@ == considered_keys(
                self@,
                children@,
                considered_visit as int,
                keys@,
                low,
            ),
    {
        let mut scores: Vec<i64> = Vec::new();
        for i in 0..children.len()
            invariant
                keys@.len() == children@.len(),
                forall|i: int|
                    0 <= i < children@.len() ==> (#[trigger] children@[i]).1 < self@.len(),
                scores@ == considered_keys(
                    self@,
                    children@,
                    considered_visit as int,
                    keys@,
                    low,
                ).take(i as int),
        {
            let id: NodeId = children[i].1;
            assert(self@[id as int] == self.arena@[id as int]@);
            let count: u32 = self.arena[id].visit_count;
            let score: i64 = if count as usize == considered_visit && keys[i] > low {
                keys[i]
            } else {
                low
            };
            scores.push(score);
            assert(scores@ =~= considered_keys(
                self@,
                children@,
                considered_visit as int,
                keys@,
                low,
            ).take(i + 1));
        }
        assert(scores@ =~= considered_keys(
            self@,
            children@,
            considered_visit as int,
            keys@,
            low,
        ));
        scores
    }

    /// Chooses a child of the root among `children`, which lists them all: the first one
    /// with the largest considered key. Without children the answer is (0, 0).
    pub fn select_root_child(
        &self,
        considered_visit: usize,
        children: &Vec<(ActionId, NodeId)>,
        keys: &Vec<i64>,
        low: i64,
    ) -> (chosen: (ActionId, NodeId))
        requires
            self.wf(),
            lists(self@[self.root_id as int].children, children@),
            keys@.len() == children@.len(),
        ensures
            children@.len() == 0 ==> chosen == (0usize, 0usize),
            children@.len() > 0 ==> exists|best: int|
                first_largest(
                    considered_keys(self@, children@, considered_visit as int, keys@, low),
                    best,
                ) && chosen == #[trigger] children@[best],
    {
        if children.len() == 0 {
            return (0, 0);
        }
        proof {
            assert forall|i: int| 0 <= i < children@.len() implies (#[trigger] children@[i]).1
                < self@.len() by {
                assert(leads_to(
                    self@,
                    self.root_id as int,
                    children@[i].0,
                    children@[i].1 as int,
                ));
            }
        }
        let scores = self.score_considered(considered_visit, children, keys, low);
        let best: usize = argmax(&scores);
        children[best]
    }

    /// Chooses a child of an inner node among `children`, which lists them all: the first
    /// one with the largest key. Without children the answer is the node itself.
    pub fn select_interior_child(
        &self,
        node_idx: NodeId,
        children: &Vec<(ActionId, NodeId)>,
        keys: &Vec<i64>,
    ) -> (chosen: (ActionId, NodeId))
        requires
            keys@.len() == children@.len(),
        ensures
            children@.len() == 0 ==> chosen == (0usize, node_idx),
            children@.len() > 0 ==> exists|best: int|
                first_largest(keys@, best) && chosen == #[trigger] children@[best],
    {
        if children.len() == 0 {
            return (0, node_idx);
        }
        let best: usize = argmax(keys);
        children[best]
    }
}

/// When a child with the considered visit count has a key above `low`, the chosen child has
/// the considered visit count.
pub proof fn law_root_choice_is_considered<V>(
    tree: Seq<NodeState<V>>,
    children: Seq<(ActionId, NodeId)>,
    visits: int,
    keys: Seq<i64>,
    low: i64,
    best: int,
    witness: int,
)
    requires
        first_largest(considered_keys(tree, children, visits, keys, low), best),
        0 <= witness < children.len(),
        tree[children[witness].1 as int].visits == visits,
        keys[witness] > low,
    ensures
        tree[children[best].1 as int].visits == visits,
        keys[best] >= keys[witness],
{
    let scores = considered_keys(tree, children, visits, keys, low);
    assert(scores[witness] <= scores[best]);
}

} // verus!
