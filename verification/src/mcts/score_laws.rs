//! What decides which child a simulation goes to, and what children are worth. The laws are
//! stated for numbers that are not rounded.

use vstd::prelude::*;
use crate::game::board::{law_play_keeps_consistent, Board, BoardState};
use crate::game::lines::has_line;
use crate::mcts::config::GumbelConfig;
use crate::mcts::game::{worth, ActionId, Outcome, Scored};
use crate::mcts::node::{
    backed_up, flips, hangs, is_tree, law_lineage, lineage, lists, visits_of, NodeId, NodeState,
};
use crate::mcts::policy::{interior_keys, noise_at, root_keys};
use crate::mcts::read::{is_action_value, is_mean};
use crate::mcts::search::{node_keys, prefers, settled};
use crate::mcts::select::first_largest;
use crate::mcts::value::{
    child_counts, child_priors, child_values, completed, count_greatest, count_total, filled_in,
    mixed_value, stretched,
};
use crate::number::{
    exact, greatest, least, v_count, v_highest, v_key, v_larger, v_least_spread, v_low, v_lowest,
    v_mean, v_minus, v_over, v_plus, v_times, Real,
};
use crate::reals::{
    keys_resolve, lemma_cancel, lemma_distribute, lemma_greatest, lemma_least, lemma_quotient,
    lemma_rearrange, unrounded_order,
};

verus! {

/// Of two children of the root the one with the larger sum of noise, number of the evaluator
/// and completed value has the larger key. A child without noise has noise 0. The sums lie
/// between the score of a child that is not considered and `bound`.
pub proof fn law_root_key_grows_with_sum<V: Real>(
    size: spec_fn(V) -> real,
    bound: real,
    step: real,
    tree: Seq<NodeState<V>>,
    children: Seq<(ActionId, NodeId)>,
    values: Seq<V>,
    noises: Seq<V>,
    i: int,
    j: int,
)
    requires
        unrounded_order(size),
        keys_resolve::<V>(size, bound, step),
        values.len() == children.len(),
        0 <= i < children.len(),
        0 <= j < children.len(),
        ({
            let a = (if i < noises.len() {
                size(noises[i])
            } else {
                0real
            }) + size(tree[children[i].1 as int].logit) + size(values[i]);
            let b = (if j < noises.len() {
                size(noises[j])
            } else {
                0real
            }) + size(tree[children[j].1 as int].logit) + size(values[j]);
            &&& -bound <= size(v_low()) <= a
            &&& a + step <= b <= bound
        }),
    ensures
        root_keys(tree, children, values, noises)[i] < root_keys(
            tree,
            children,
            values,
            noises,
        )[j],
{
    let keys = root_keys(tree, children, values, noises);
    let x = noise_at(noises, i);
    let y = noise_at(noises, j);
    let a = v_larger(v_plus(v_plus(x, tree[children[i].1 as int].logit), values[i]), v_low());
    let b = v_larger(v_plus(v_plus(y, tree[children[j].1 as int].logit), values[j]), v_low());
    assert(keys[i] == v_key(a));
    assert(keys[j] == v_key(b));
    assert(v_key(a) < v_key(b));
}

/// Of two children of the root with the same noise and the same number of the evaluator the
/// one with the larger completed value has the larger key: what simulations found counts.
pub proof fn law_root_key_grows_with_value<V: Real>(
    size: spec_fn(V) -> real,
    bound: real,
    step: real,
    tree: Seq<NodeState<V>>,
    children: Seq<(ActionId, NodeId)>,
    values: Seq<V>,
    noises: Seq<V>,
    i: int,
    j: int,
)
    requires
        unrounded_order(size),
        keys_resolve::<V>(size, bound, step),
        values.len() == children.len(),
        noises.len() == children.len(),
        0 <= i < children.len(),
        0 <= j < children.len(),
        size(noises[i]) == size(noises[j]),
        size(tree[children[i].1 as int].logit) == size(tree[children[j].1 as int].logit),
        size(values[i]) + step <= size(values[j]),
        -bound <= size(v_low()),
        size(v_low()) <= size(noises[i]) + size(tree[children[i].1 as int].logit) + size(values[i]),
        size(noises[j]) + size(tree[children[j].1 as int].logit) + size(values[j]) <= bound,
    ensures
        root_keys(tree, children, values, noises)[i] < root_keys(
            tree,
            children,
            values,
            noises,
        )[j],
{
    law_root_key_grows_with_sum(size, bound, step, tree, children, values, noises, i, j);
}

/// The child that a simulation goes to from the root: as soon as a child with the considered
/// visit count competes, the choice has that visit count, and no such child has a sum of
/// noise, number of the evaluator and completed value that is larger by `step` or more.
pub proof fn law_root_prefers_largest_sum<G: Scored<V>, V: Real>(
    size: spec_fn(V) -> real,
    bound: real,
    step: real,
    tree: Seq<NodeState<V>>,
    root: int,
    config: GumbelConfig<V>,
    considered: int,
    noises: Seq<V>,
    choice: (ActionId, NodeId),
)
    requires
        unrounded_order(size),
        keys_resolve::<V>(size, bound, step),
        prefers::<G, V>(tree, root, config, considered, noises, root, choice),
        -bound <= size(v_low()),
    ensures
        exists|children: Seq<(ActionId, NodeId)>, best: int|
            {
                let values = completed::<G, V>(tree, root, children, config);
                &&& lists(tree[root].children, children)
                &&& 0 <= best < children.len()
                &&& choice == #[trigger] children[best]
                &&& forall|j: int|
                    0 <= j < children.len() && tree[(#[trigger] children[j]).1 as int].visits
                        == considered ==> {
                        let a = (if best < noises.len() {
                            size(noises[best])
                        } else {
                            0real
                        }) + size(tree[children[best].1 as int].logit) + size(values[best]);
                        let b = (if j < noises.len() {
                            size(noises[j])
                        } else {
                            0real
                        }) + size(tree[children[j].1 as int].logit) + size(values[j]);
                        size(v_low()) + step <= b <= bound ==> {
                            &&& tree[choice.1 as int].visits == considered
                            &&& size(v_low()) <= a ==> !(a + step <= b)
                        }
                    }
            },
{
    let (children, best) = choose|children: Seq<(ActionId, NodeId)>, best: int|
        {
            &&& lists(tree[root].children, children)
            &&& #[trigger] first_largest(
                node_keys::<G, V>(tree, root, config, considered, noises, root, children),
                best,
            )
            &&& choice == children[best]
        };
    let values = completed::<G, V>(tree, root, children, config);
    let own = root_keys(tree, children, values, noises);
    let keys = node_keys::<G, V>(tree, root, config, considered, noises, root, children);
    assert forall|j: int|
        0 <= j < children.len() && tree[(#[trigger] children[j]).1 as int].visits
            == considered implies {
        let a = (if best < noises.len() {
            size(noises[best])
        } else {
            0real
        }) + size(tree[children[best].1 as int].logit) + size(values[best]);
        let b = (if j < noises.len() {
            size(noises[j])
        } else {
            0real
        }) + size(tree[children[j].1 as int].logit) + size(values[j]);
        size(v_low()) + step <= b <= bound ==> {
            &&& tree[choice.1 as int].visits == considered
            &&& size(v_low()) <= a ==> !(a + step <= b)
        }
    } by {
        let a = (if best < noises.len() {
            size(noises[best])
        } else {
            0real
        }) + size(tree[children[best].1 as int].logit) + size(values[best]);
        let b = (if j < noises.len() {
            size(noises[j])
        } else {
            0real
        }) + size(tree[children[j].1 as int].logit) + size(values[j]);
        if size(v_low()) + step <= b <= bound {
            let y = noise_at(noises, j);
            let score = v_larger(
                v_plus(v_plus(y, tree[children[j].1 as int].logit), values[j]),
                v_low(),
            );
            assert(own[j] == v_key(score));
            assert(v_key::<V>(v_low()) < v_key(score));
            assert(keys[j] == own[j]);
            assert(keys[j] <= keys[best]);
            if size(v_low()) <= a && a + step <= b {
                law_root_key_grows_with_sum(
                    size,
                    bound,
                    step,
                    tree,
                    children,
                    values,
                    noises,
                    best,
                    j,
                );
            }
        }
    }
    assert(choice == children[best]);
}

proof fn lemma_counts_are_visits<V>(
    tree: Seq<NodeState<V>>,
    children: Seq<(ActionId, NodeId)>,
)
    requires
        forall|k: int|
            0 <= k < children.len() ==> 0 <= tree[(#[trigger] children[k]).1 as int].visits
                <= usize::MAX,
    ensures
        count_total(child_counts(tree, children)) == visits_of(tree, children),
        visits_of(tree, children) >= 0,
    decreases children.len(),
{
    let counts = child_counts(tree, children);
    if children.len() > 0 {
        let rest = children.drop_last();
        assert(counts.drop_last() =~= child_counts(tree, rest));
        assert(0 <= tree[children[children.len() - 1].1 as int].visits <= usize::MAX);
        assert forall|k: int| 0 <= k < rest.len() implies 0 <= tree[(
        #[trigger] rest[k]).1 as int].visits <= usize::MAX by {
            assert(rest[k] == children[k]);
        }
        lemma_counts_are_visits(tree, rest);
    }
}

/// Of two children of an inner node the one has the larger key whose probability and completed
/// value, less its part of the visits of all children and one more, are the larger.
pub proof fn law_interior_key_grows_with_score<V: Real>(
    size: spec_fn(V) -> real,
    bound: real,
    step: real,
    tree: Seq<NodeState<V>>,
    children: Seq<(ActionId, NodeId)>,
    values: Seq<V>,
    i: int,
    j: int,
)
    requires
        unrounded_order(size),
        keys_resolve::<V>(size, bound, step),
        values.len() == children.len(),
        0 <= i < children.len(),
        0 <= j < children.len(),
        forall|k: int|
            0 <= k < children.len() ==> 0 <= tree[(#[trigger] children[k]).1 as int].visits
                <= usize::MAX,
        visits_of(tree, children) < usize::MAX,
        ({
            let all = 1real + visits_of(tree, children) as real;
            let m = tree[children[i].1 as int];
            let n = tree[children[j].1 as int];
            let a = size(m.prior) + size(values[i]) - m.visits as real / all;
            let b = size(n.prior) + size(values[j]) - n.visits as real / all;
            &&& -bound <= a
            &&& a + step <= b <= bound
        }),
    ensures
        interior_keys(tree, children, values)[i] < interior_keys(tree, children, values)[j],
{
    lemma_counts_are_visits(tree, children);
    let counts = child_counts(tree, children);
    let keys = interior_keys(tree, children, values);
    let all = v_count::<V>((1 + count_total(counts)) as usize);
    assert(0 <= tree[children[i].1 as int].visits <= usize::MAX);
    assert(0 <= tree[children[j].1 as int].visits <= usize::MAX);
    assert(size(all) == 1real + visits_of(tree, children) as real);
    let a = v_minus(
        v_plus(tree[children[i].1 as int].prior, values[i]),
        v_over(v_count(counts[i]), all),
    );
    let b = v_minus(
        v_plus(tree[children[j].1 as int].prior, values[j]),
        v_over(v_count(counts[j]), all),
    );
    assert(keys[i] == v_key(a));
    assert(keys[j] == v_key(b));
    assert(v_key(a) < v_key(b));
}

/// A child of an inner node that was visited more often than another, and is neither more
/// probable nor worth more, has the smaller key.
pub proof fn law_interior_key_falls_with_visits<V: Real>(
    size: spec_fn(V) -> real,
    bound: real,
    step: real,
    tree: Seq<NodeState<V>>,
    children: Seq<(ActionId, NodeId)>,
    values: Seq<V>,
    i: int,
    j: int,
)
    requires
        unrounded_order(size),
        keys_resolve::<V>(size, bound, step),
        values.len() == children.len(),
        0 <= i < children.len(),
        0 <= j < children.len(),
        forall|k: int|
            0 <= k < children.len() ==> 0 <= tree[(#[trigger] children[k]).1 as int].visits
                <= usize::MAX,
        visits_of(tree, children) < usize::MAX,
        tree[children[i].1 as int].visits > tree[children[j].1 as int].visits,
        size(tree[children[i].1 as int].prior) <= size(tree[children[j].1 as int].prior),
        size(values[i]) <= size(values[j]),
        step * (1real + visits_of(tree, children) as real) <= 1real,
        -bound <= size(tree[children[i].1 as int].prior) + size(values[i]) - (
        tree[children[i].1 as int].visits as real),
        size(tree[children[j].1 as int].prior) + size(values[j]) <= bound,
    ensures
        interior_keys(tree, children, values)[i] < interior_keys(tree, children, values)[j],
{
    lemma_counts_are_visits(tree, children);
    let all = 1real + visits_of(tree, children) as real;
    assert(0 <= tree[children[i].1 as int].visits <= usize::MAX);
    assert(0 <= tree[children[j].1 as int].visits <= usize::MAX);
    let x = tree[children[i].1 as int].visits as real;
    let y = tree[children[j].1 as int].visits as real;
    assert(x - y >= 1real);
    assert(0real <= y / all && y / all + step <= x / all && x / all <= x) by (nonlinear_arith)
        requires
            x - y >= 1real,
            y >= 0real,
            all >= 1real,
            step * all <= 1real,
    ;
    law_interior_key_grows_with_score(size, bound, step, tree, children, values, i, j);
}

/// The child that a simulation goes to from an inner node: no other has a score that is larger
/// by `step` or more, where the score is the probability and the completed value, less the
/// child's part of the visits of all children and one more.
pub proof fn law_interior_prefers_largest_score<G: Scored<V>, V: Real>(
    size: spec_fn(V) -> real,
    bound: real,
    step: real,
    tree: Seq<NodeState<V>>,
    root: int,
    config: GumbelConfig<V>,
    considered: int,
    noises: Seq<V>,
    node: int,
    choice: (ActionId, NodeId),
)
    requires
        unrounded_order(size),
        keys_resolve::<V>(size, bound, step),
        node != root,
        prefers::<G, V>(tree, root, config, considered, noises, node, choice),
    ensures
        exists|children: Seq<(ActionId, NodeId)>, best: int|
            {
                let values = completed::<G, V>(tree, node, children, config);
                &&& lists(tree[node].children, children)
                &&& 0 <= best < children.len()
                &&& choice == #[trigger] children[best]
                &&& (forall|k: int|
                    0 <= k < children.len() ==> 0 <= tree[(#[trigger] children[k]).1 as int].visits
                        <= usize::MAX) && visits_of(tree, children) < usize::MAX ==> forall|j: int|
                    0 <= j < children.len() ==> {
                        let all = 1real + visits_of(tree, children) as real;
                        let m = tree[children[best].1 as int];
                        let n = tree[(#[trigger] children[j]).1 as int];
                        let a = size(m.prior) + size(values[best]) - m.visits as real / all;
                        let b = size(n.prior) + size(values[j]) - n.visits as real / all;
                        -bound <= a && b <= bound ==> !(a + step <= b)
                    }
            },
{
    let (children, best) = choose|children: Seq<(ActionId, NodeId)>, best: int|
        {
            &&& lists(tree[node].children, children)
            &&& #[trigger] first_largest(
                node_keys::<G, V>(tree, root, config, considered, noises, node, children),
                best,
            )
            &&& choice == children[best]
        };
    let values = completed::<G, V>(tree, node, children, config);
    let keys = node_keys::<G, V>(tree, root, config, considered, noises, node, children);
    if (forall|k: int|
        0 <= k < children.len() ==> 0 <= tree[(#[trigger] children[k]).1 as int].visits
            <= usize::MAX) && visits_of(tree, children) < usize::MAX {
        assert forall|j: int| 0 <= j < children.len() implies {
            let all = 1real + visits_of(tree, children) as real;
            let m = tree[children[best].1 as int];
            let n = tree[(#[trigger] children[j]).1 as int];
            let a = size(m.prior) + size(values[best]) - m.visits as real / all;
            let b = size(n.prior) + size(values[j]) - n.visits as real / all;
            -bound <= a && b <= bound ==> !(a + step <= b)
        } by {
            let all = 1real + visits_of(tree, children) as real;
            let m = tree[children[best].1 as int];
            let n = tree[children[j].1 as int];
            let a = size(m.prior) + size(values[best]) - m.visits as real / all;
            let b = size(n.prior) + size(values[j]) - n.visits as real / all;
            assert(keys[j] <= keys[best]);
            if -bound <= a && b <= bound && a + step <= b {
                law_interior_key_grows_with_score(
                    size,
                    bound,
                    step,
                    tree,
                    children,
                    values,
                    best,
                    j,
                );
            }
        }
    }
    assert(choice == children[best]);
}

/// What a child is worth to the player to move at its parent: with two opponents the mean of
/// the values that came back through the child, with the opposite sign.
pub proof fn law_child_value_is_opposite_mean<V: Real>(
    size: spec_fn(V) -> real,
    tree: Seq<NodeState<V>>,
    children: Seq<(ActionId, NodeId)>,
    i: int,
)
    requires
        unrounded_order(size),
        0 <= i < children.len(),
        0 <= tree[children[i].1 as int].visits <= usize::MAX,
    ensures
        ({
            let node = tree[children[i].1 as int];
            let value = size(child_values::<Board, V>(tree, children)[i]);
            &&& node.visits > 0 ==> value * node.visits as real == -size(node.total)
            &&& node.visits == 0 ==> value == 0real
        }),
{
    let node = tree[children[i].1 as int];
    if node.visits > 0 {
        let n = node.visits as real;
        let t = size(node.total);
        assert(size(v_mean(node.total, node.visits as usize)) == t / n);
        assert(-(t / n) * n == -t) by (nonlinear_arith)
            requires
                n >= 1real,
        ;
    }
}

/// What an action is worth to the player to move, with two opponents: the mean of the values
/// that came back through the child it leads to, with the opposite sign, and nothing where it
/// was never tried or leads to no child.
pub proof fn law_action_value_is_opposite_mean<V: Real>(
    size: spec_fn(V) -> real,
    tree: Seq<NodeState<V>>,
    id: int,
    action: ActionId,
    value: V,
)
    requires
        exact::<V>(),
        unrounded_order(size),
        tree[id].children.contains_key(action) ==> 0
            <= tree[tree[id].children[action] as int].visits <= usize::MAX,
        is_action_value::<Board, V>(tree, id, action, value),
    ensures
        ({
            let child = tree[tree[id].children[action] as int];
            if tree[id].children.contains_key(action) && child.visits > 0 {
                size(value) * child.visits as real == -size(child.total)
            } else {
                size(value) == 0real
            }
        }),
{
    if tree[id].children.contains_key(action) {
        let child = tree[tree[id].children[action] as int];
        let q = choose|q: V| #[trigger] is_mean(child, q) && value == Board::flipped(q);
        if child.visits > 0 {
            let n = child.visits as real;
            let t = size(child.total);
            assert(size(q) == t / n);
            assert(-(t / n) * n == -t) by (nonlinear_arith)
                requires
                    n >= 1real,
            ;
        }
    }
}

/// A value that comes back through a node moves the mean of the node towards it by one part of
/// the visits.
pub proof fn law_backup_moves_mean<G: Scored<V>, V: Real>(
    size: spec_fn(V) -> real,
    before: Seq<NodeState<V>>,
    after: Seq<NodeState<V>>,
    leaf: int,
    value: V,
    values: Seq<V>,
    k: int,
)
    requires
        exact::<V>(),
        unrounded_order(size),
        is_tree(before),
        0 <= leaf < before.len(),
        backed_up::<G, V>(before, after, leaf, value, values),
        0 <= k < values.len(),
        before[lineage(before, leaf)[k]].visits < usize::MAX,
    ensures
        ({
            let id = lineage(before, leaf)[k];
            let n = before[id].visits as real;
            let mean = size(v_mean(after[id].total, after[id].visits as usize));
            &&& after[id].visits == before[id].visits + 1
            &&& mean * (n + 1real) == size(before[id].total) + size(values[k])
        }),
        k == 0 ==> values[k] == value,
        k > 0 ==> values[k] == G::flipped(values[k - 1]),
{
    let path = lineage(before, leaf);
    let id = path[k];
    law_lineage(before, leaf);
    assert(path.contains(id));
    assert(0 <= id < before.len());
    assert(after[id].visits == before[id].visits + 1);
    if k > 0 {
        assert(flips::<G, V>(values, k));
    }
    assert(V::plus.ensures((before[path[k]].total, values[k]), after[path[k]].total));
    assert(hangs(before, id) || id == 0);
    let n = after[id].visits as real;
    let t = size(after[id].total);
    assert(t / n * n == t) by (nonlinear_arith)
        requires
            n >= 1real,
    ;
}

/// A win is worth 1, a draw 0 and a loss -1.
pub proof fn law_worth_of_outcomes<V: Real>(size: spec_fn(V) -> real, outcome: Outcome)
    requires
        unrounded_order(size),
    ensures
        size(worth::<V>(outcome)) == outcome.value() as real,
        size(worth::<V>(outcome.reversed())) == -size(worth::<V>(outcome)),
{
}

/// A move that completes a line is worth 1 to the player who makes it, and one that fills the
/// board without a line is worth 0.
pub proof fn law_worth_of_last_move<V: Real>(
    size: spec_fn(V) -> real,
    state: BoardState,
    row: int,
    col: int,
)
    requires
        unrounded_order(size),
        state.consistent(),
        state.legal(row, col),
    ensures
        ({
            let next = state.after(row, col);
            let won = has_line(next.rows, state.size, state.player.stone(), state.win_length);
            &&& won ==> next.over && size(Board::flipped(settled::<Board, V>(next))) == 1real
            &&& next.over && !won ==> size(Board::flipped(settled::<Board, V>(next))) == 0real
        }),
{
    let next = state.after(row, col);
    law_play_keeps_consistent(state, row, col);
    assert(next.winner == Some(state.player) <==> has_line(
        next.rows,
        next.size,
        state.player.stone(),
        next.win_length,
    ));
}

proof fn lemma_count_greatest(counts: Seq<usize>, m: int)
    requires
        0 <= m < counts.len(),
        forall|k: int| 0 <= k < counts.len() ==> #[trigger] counts[k] <= counts[m],
    ensures
        count_greatest(counts) == counts[m],
{
    lemma_count_greatest_bounds(counts);
    assert(counts[m] <= count_greatest(counts));
    let k = choose|k: int| 0 <= k < counts.len() && #[trigger] counts[k] == count_greatest(counts);
    assert(counts[k] <= counts[m]);
}

proof fn lemma_count_greatest_bounds(counts: Seq<usize>)
    requires
        counts.len() > 0,
    ensures
        forall|k: int| 0 <= k < counts.len() ==> #[trigger] counts[k] <= count_greatest(counts),
        exists|k: int| 0 <= k < counts.len() && #[trigger] counts[k] == count_greatest(counts),
    decreases counts.len(),
{
    let rest = counts.drop_last();
    let last = counts.len() - 1;
    if rest.len() > 0 {
        lemma_count_greatest_bounds(rest);
        let k = choose|k: int| 0 <= k < rest.len() && #[trigger] rest[k] == count_greatest(rest);
        assert(counts[k] == rest[k]);
        assert forall|i: int| 0 <= i < counts.len() implies #[trigger] counts[i] <= count_greatest(
            counts,
        ) by {
            if i < last {
                assert(rest[i] == counts[i]);
            }
        }
    } else {
        assert(count_greatest(rest) == 0);
    }
    assert(counts[last] == counts.last());
}

/// Before they are stretched, values lie between `Real::lowest` and `Real::highest`.
pub open spec fn in_bounds<V: Real>(size: spec_fn(V) -> real, items: Seq<V>) -> bool {
    forall|k: int|
        0 <= k < items.len() ==> size(v_lowest()) <= size(#[trigger] items[k]) <= size(v_highest())
}

proof fn lemma_stretched<V: Real>(
    size: spec_fn(V) -> real,
    items: Seq<V>,
    scale: V,
) -> (spread: real)
    requires
        unrounded_order(size),
        in_bounds(size, items),
        items.len() > 0,
    ensures
        spread >= size(v_least_spread()),
        spread > 0real,
        spread == size(greatest(items)) - size(least(items)) || spread == size(v_least_spread()),
        size(greatest(items)) - size(least(items)) <= spread,
        forall|k: int|
            0 <= k < items.len() ==> size(#[trigger] stretched(items, scale)[k]) * spread == size(
                scale,
            ) * (size(items[k]) - size(least(items))),
        forall|k: int|
            0 <= k < items.len() ==> size(least(items)) <= size(#[trigger] items[k]) <= size(
                greatest(items),
            ),
        exists|k: int| 0 <= k < items.len() && size(#[trigger] items[k]) == size(least(items)),
        exists|k: int| 0 <= k < items.len() && size(#[trigger] items[k]) == size(greatest(items)),
{
    lemma_greatest(size, items);
    lemma_least(size, items);
    let by = v_larger(v_minus(greatest(items), least(items)), v_least_spread());
    let spread = size(by);
    assert forall|k: int| 0 <= k < items.len() implies size(#[trigger] stretched(items, scale)[k])
        * spread == size(scale) * (size(items[k]) - size(least(items))) by {
        let x = size(scale) * (size(items[k]) - size(least(items)));
        assert(size(v_times(scale, v_minus(items[k], least(items)))) == x);
        lemma_quotient(x, spread);
    }
    spread
}

/// Completed values lie between 0 and the scale, which is the weight of values times the
/// visits of the most visited child `m` and `max_visit_init` more. One of them is 0, and when
/// the values differ by the least spread or more, one of them is the scale.
pub proof fn law_completed_values_fill_scale<G: Scored<V>, V: Real>(
    size: spec_fn(V) -> real,
    tree: Seq<NodeState<V>>,
    parent: int,
    children: Seq<(ActionId, NodeId)>,
    config: GumbelConfig<V>,
    m: int,
)
    requires
        unrounded_order(size),
        0 <= m < children.len(),
        forall|k: int|
            0 <= k < children.len() ==> 0 <= tree[(#[trigger] children[k]).1 as int].visits
                <= tree[children[m].1 as int].visits,
        config.max_visit_init + tree[children[m].1 as int].visits <= usize::MAX,
        size(config.value_scale) >= 0real,
        in_bounds(
            size,
            filled_in(
                tree[parent].raw->0,
                child_values::<G, V>(tree, children),
                Seq::new(children.len(), |n: int| tree[children[n].1 as int].visits as usize),
                Seq::new(children.len(), |n: int| tree[children[n].1 as int].prior),
            ),
        ),
    ensures
        ({
            let c = completed::<G, V>(tree, parent, children, config);
            let scale = (config.max_visit_init + tree[children[m].1 as int].visits) as real * size(
                config.value_scale,
            );
            let q = child_values::<G, V>(tree, children);
            &&& forall|k: int| 0 <= k < c.len() ==> 0real <= size(#[trigger] c[k]) <= scale
            &&& exists|k: int| 0 <= k < c.len() && size(#[trigger] c[k]) == 0real
            &&& forall|i: int, j: int|
                0 <= i < c.len() && 0 <= j < c.len() && tree[children[i].1 as int].visits > 0
                    && tree[children[j].1 as int].visits > 0 && size(#[trigger] q[j]) - size(
                    #[trigger] q[i],
                ) >= size(v_least_spread()) ==> exists|k: int|
                    0 <= k < c.len() && size(#[trigger] c[k]) == scale
        }),
{
    let counts = child_counts(tree, children);
    let q = child_values::<G, V>(tree, children);
    assert(Seq::new(
        children.len(),
        |n: int| tree[children[n].1 as int].visits as usize,
    ) =~= counts);
    assert(Seq::new(children.len(), |n: int| tree[children[n].1 as int].prior) =~= child_priors(
        tree,
        children,
    ));
    let f = filled_in(tree[parent].raw->0, q, counts, child_priors(tree, children));
    let most = tree[children[m].1 as int].visits;
    assert forall|k: int| 0 <= k < counts.len() implies #[trigger] counts[k] <= counts[m] by {
        assert(0 <= tree[children[k].1 as int].visits <= most);
    }
    assert(0 <= tree[children[m].1 as int].visits <= most);
    lemma_count_greatest(counts, m);
    let factor = v_times(
        v_count((config.max_visit_init + count_greatest(counts)) as usize),
        config.value_scale,
    );
    let scale = (config.max_visit_init + most) as real * size(config.value_scale);
    assert(size(factor) == scale);
    let visits = (config.max_visit_init + most) as real;
    let weight = size(config.value_scale);
    assert(visits * weight >= 0real) by (nonlinear_arith)
        requires
            visits >= 0real,
            weight >= 0real,
    ;
    let c = completed::<G, V>(tree, parent, children, config);
    let spread = lemma_stretched(size, f, factor);
    let low = size(least(f));
    let high = size(greatest(f));
    assert(c == stretched(f, factor));
    assert forall|k: int| 0 <= k < c.len() implies 0real <= size(#[trigger] c[k]) <= scale by {
        let x = size(c[k]);
        let d = size(f[k]) - low;
        assert(x * spread == scale * d);
        assert(0real <= scale * d <= scale * spread) by (nonlinear_arith)
            requires
                0real <= d <= spread,
                scale >= 0real,
        ;
        assert(0real * spread == 0real);
        lemma_cancel(0real, x, spread);
        lemma_cancel(x, scale, spread);
    }
    let k = choose|k: int| 0 <= k < f.len() && size(#[trigger] f[k]) == low;
    assert(size(c[k]) == 0real) by {
        let x = size(c[k]);
        assert(x * spread == scale * (size(f[k]) - low));
        assert(scale * 0real == 0real);
        assert(0real * spread == 0real);
        lemma_cancel(x, 0real, spread);
    }
    assert forall|i: int, j: int|
        0 <= i < c.len() && 0 <= j < c.len() && tree[children[i].1 as int].visits > 0
            && tree[children[j].1 as int].visits > 0 && size(#[trigger] q[j]) - size(
            #[trigger] q[i],
        ) >= size(v_least_spread()) implies exists|k: int|
        0 <= k < c.len() && size(#[trigger] c[k]) == scale by {
        assert(0 <= tree[children[i].1 as int].visits <= most);
        assert(0 <= tree[children[j].1 as int].visits <= most);
        assert(f[i] == q[i] && f[j] == q[j]);
        assert(spread == high - low);
        let l = choose|l: int| 0 <= l < f.len() && size(#[trigger] f[l]) == high;
        let x = size(c[l]);
        assert(x * spread == scale * (size(f[l]) - low));
        lemma_cancel(x, scale, spread);
    }
}

/// Completed values keep the order and the proportions of values: the difference of two is
/// the same multiple of the difference of the values, whichever two are taken, and a larger
/// value gives a larger completed value. The value of a child that was not visited is the
/// mixed value.
pub proof fn law_completed_values_keep_proportions<G: Scored<V>, V: Real>(
    size: spec_fn(V) -> real,
    tree: Seq<NodeState<V>>,
    parent: int,
    children: Seq<(ActionId, NodeId)>,
    config: GumbelConfig<V>,
    i: int,
    j: int,
    k: int,
    l: int,
)
    requires
        unrounded_order(size),
        0 <= i < children.len(),
        0 <= j < children.len(),
        0 <= k < children.len(),
        0 <= l < children.len(),
        forall|n: int|
            0 <= n < children.len() ==> 0 <= tree[(#[trigger] children[n]).1 as int].visits
                <= usize::MAX,
        config.max_visit_init + count_greatest(child_counts(tree, children)) <= usize::MAX,
        in_bounds(
            size,
            filled_in(
                tree[parent].raw->0,
                child_values::<G, V>(tree, children),
                Seq::new(children.len(), |n: int| tree[children[n].1 as int].visits as usize),
                Seq::new(children.len(), |n: int| tree[children[n].1 as int].prior),
            ),
        ),
    ensures
        ({
            let c = completed::<G, V>(tree, parent, children, config);
            let q = child_values::<G, V>(tree, children);
            let mixed = size(
                mixed_value(
                    tree[parent].raw->0,
                    q,
                    Seq::new(children.len(), |n: int| tree[children[n].1 as int].visits as usize),
                    Seq::new(children.len(), |n: int| tree[children[n].1 as int].prior),
                ),
            );
            let value = |n: int|
                if tree[children[n].1 as int].visits > 0 {
                    size(q[n])
                } else {
                    mixed
                };
            &&& (size(c[i]) - size(c[j])) * (value(k) - value(l)) == (size(c[k]) - size(c[l])) * (
            value(i) - value(j))
            &&& size(config.value_scale) > 0real && config.max_visit_init > 0 && value(i) < value(
                j,
            ) ==> size(c[i]) < size(c[j])
        }),
{
    let counts = child_counts(tree, children);
    let q = child_values::<G, V>(tree, children);
    assert(Seq::new(
        children.len(),
        |n: int| tree[children[n].1 as int].visits as usize,
    ) =~= counts);
    assert(Seq::new(children.len(), |n: int| tree[children[n].1 as int].prior) =~= child_priors(
        tree,
        children,
    ));
    let f = filled_in(tree[parent].raw->0, q, counts, child_priors(tree, children));
    let n = (config.max_visit_init + count_greatest(counts)) as usize;
    let factor = v_times(v_count(n), config.value_scale);
    let c = completed::<G, V>(tree, parent, children, config);
    let spread = lemma_stretched(size, f, factor);
    lemma_count_greatest_bounds(counts);
    assert(0 <= tree[children[i].1 as int].visits <= usize::MAX);
    assert(0 <= tree[children[j].1 as int].visits <= usize::MAX);
    assert(0 <= tree[children[k].1 as int].visits <= usize::MAX);
    assert(0 <= tree[children[l].1 as int].visits <= usize::MAX);
    assert(counts[i] <= count_greatest(counts));
    assert(c == stretched(f, factor));
    let s = size(factor);
    let low = size(least(f));
    let (a, b, d, e) = (size(c[i]), size(c[j]), size(c[k]), size(c[l]));
    let (v, w, x, y) = (size(f[i]), size(f[j]), size(f[k]), size(f[l]));
    assert(a * spread == s * (v - low));
    assert(b * spread == s * (w - low));
    assert(d * spread == s * (x - low));
    assert(e * spread == s * (y - low));
    lemma_distribute(a, b, spread);
    lemma_distribute(d, e, spread);
    lemma_distribute(v - low, w - low, s);
    lemma_distribute(x - low, y - low, s);
    assert((v - low) - (w - low) == v - w);
    assert((x - low) - (y - low) == x - y);
    assert((a - b) * spread == s * (v - w));
    assert((d - e) * spread == s * (x - y));
    lemma_rearrange(a - b, x - y, spread);
    lemma_rearrange(d - e, v - w, spread);
    lemma_rearrange(s, v - w, x - y);
    lemma_cancel((a - b) * (x - y), (d - e) * (v - w), spread);
    if size(config.value_scale) > 0real && config.max_visit_init > 0 && v < w {
        let m = n as real;
        let z = size(config.value_scale);
        assert(s == m * z);
        assert(s > 0real) by (nonlinear_arith)
            requires
                s == m * z,
                m >= 1real,
                z > 0real,
        ;
        lemma_cancel(v - low, w - low, s);
        lemma_distribute(v - low, w - low, s);
        lemma_rearrange(s, v - low, 1real);
        lemma_rearrange(s, w - low, 1real);
        lemma_cancel(a, b, spread);
    }
}

} // verus!
