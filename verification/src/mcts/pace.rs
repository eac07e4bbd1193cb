//! The children of the root keep pace with sequential halving.

use vstd::prelude::*;
use crate::mcts::config::GumbelConfig;
use crate::mcts::expand::expanded;
use crate::mcts::game::{ActionId, Scored};
use crate::mcts::halving::{law_visit_sequence, visit_sequence};
use crate::mcts::halving_laws::{
    in_step, law_halving_finds_an_action, law_halving_goes_on, law_halving_starts,
    law_halving_tries_every_action,
};
use crate::mcts::laws::{
    below, branch, law_backup_counts, law_below_stays, law_expansion_keeps_links,
};
use crate::mcts::node::{backed_up, is_tree, leads_to, lists, NodeId, NodeState};
use crate::mcts::policy::root_keys;
use crate::mcts::read::visits_through;
use crate::mcts::search::{end_node, node_keys, prefers, walks};
use crate::mcts::select::{considered_at_first, first_largest, law_root_choice_is_considered};
use crate::mcts::value::completed;
use crate::number::{v_key, v_low, Real};

verus! {

/// How often each of the listed nodes was visited.
pub open spec fn visit_list<V>(
    tree: Seq<NodeState<V>>,
    children: Seq<(ActionId, NodeId)>,
) -> Seq<int> {
    Seq::new(children.len(), |i: int| tree[children[i].1 as int].visits)
}

/// The visit counts that a search considers, one for each simulation.
pub open spec fn search_sequence<V>(config: GumbelConfig<V>) -> Seq<int> {
    visit_sequence(considered_at_first(config), config.num_simulations as int)
}

/// After `done` simulations the children of the root, which `children` lists, were visited
/// as sequential halving plans it.
pub open spec fn on_pace<V>(
    tree: Seq<NodeState<V>>,
    root: int,
    children: Seq<(ActionId, NodeId)>,
    config: GumbelConfig<V>,
    done: int,
) -> bool {
    &&& lists(tree[root].children, children)
    &&& in_step(visit_list(tree, children), search_sequence(config), done)
}

/// In whichever order the children of the root are taken, each has a score above that of a
/// child that is not considered.
pub open spec fn all_compete<G: Scored<V>, V: Real>(
    tree: Seq<NodeState<V>>,
    root: int,
    config: GumbelConfig<V>,
    noises: Seq<V>,
) -> bool {
    forall|children: Seq<(ActionId, NodeId)>, i: int|
        lists(tree[root].children, children) && 0 <= i < children.len() ==> #[trigger] root_keys(
            tree,
            children,
            completed::<G, V>(tree, root, children, config),
            noises,
        )[i] > v_key::<V>(v_low())
}

/// A search whose root has children that were never visited starts on pace.
pub proof fn law_search_starts_on_pace<V>(
    tree: Seq<NodeState<V>>,
    root: int,
    children: Seq<(ActionId, NodeId)>,
    config: GumbelConfig<V>,
)
    requires
        lists(tree[root].children, children),
        forall|i: int|
            0 <= i < children.len() ==> tree[(#[trigger] children[i]).1 as int].visits == 0,
    ensures
        on_pace(tree, root, children, config, 0),
{
    law_halving_starts(children.len(), search_sequence(config));
    assert(visit_list(tree, children) =~= Seq::new(children.len(), |i: int| 0int));
}

proof fn lemma_preferred_is_child<G: Scored<V>, V: Real>(
    tree: Seq<NodeState<V>>,
    root: int,
    config: GumbelConfig<V>,
    considered: int,
    noises: Seq<V>,
    node: int,
    choice: (ActionId, NodeId),
)
    requires
        0 <= node < tree.len(),
        prefers::<G, V>(tree, root, config, considered, noises, node, choice),
    ensures
        leads_to(tree, node, choice.0, choice.1 as int),
{
    let (children, best) = choose|children: Seq<(ActionId, NodeId)>, best: int|
        {
            &&& lists(tree[node].children, children)
            &&& #[trigger] first_largest(
                node_keys::<G, V>(tree, root, config, considered, noises, node, children),
                best,
            )
            &&& choice == children[best]
        };
    assert(0 <= best < children.len());
}

/// A simulation that leaves the root goes first to the preferred child of the root, and ends
/// below that child.
pub proof fn law_first_move<G: Scored<V>, V: Real>(
    tree: Seq<NodeState<V>>,
    root: int,
    config: GumbelConfig<V>,
    considered: int,
    noises: Seq<V>,
    moves: Seq<(ActionId, NodeId)>,
)
    requires
        is_tree(tree),
        0 <= root < tree.len(),
        moves.len() > 0,
        walks::<G, V>(tree, root, config, considered, noises, root, moves),
    ensures
        prefers::<G, V>(tree, root, config, considered, noises, root, moves[0]),
        leads_to(tree, root, moves[0].0, moves[0].1 as int),
        root < end_node(root, moves) < tree.len(),
        below(tree, root, end_node(root, moves)),
        branch(tree, root, end_node(root, moves)) == moves[0].1,
    decreases moves.len(),
{
    let before = moves.drop_last();
    let node = end_node(root, before);
    if before.len() > 0 {
        law_first_move::<G, V>(tree, root, config, considered, noises, before);
        assert(before[0] == moves[0]);
    } else {
        assert(moves.last() == moves[0]);
    }
    let id = moves.last().1 as int;
    lemma_preferred_is_child::<G, V>(tree, root, config, considered, noises, node, moves.last());
    assert(leads_to(tree, node, moves.last().0, id));
    assert(tree[id].parent is Some && tree[id].parent->0 == node);
    assert(below(tree, root, node));
}

/// While the children of the root are on pace, the preferred one has exactly the visit count
/// that is considered: throughout the search when there are as many of them as are considered
/// at first, and until each was visited when there are fewer.
pub proof fn law_choice_is_on_pace<G: Scored<V>, V: Real>(
    tree: Seq<NodeState<V>>,
    root: int,
    children: Seq<(ActionId, NodeId)>,
    config: GumbelConfig<V>,
    noises: Seq<V>,
    done: int,
    choice: (ActionId, NodeId),
)
    requires
        0 <= done < config.num_simulations,
        on_pace(tree, root, children, config, done),
        children.len() >= 1,
        children.len() >= considered_at_first(config) || done < children.len(),
        all_compete::<G, V>(tree, root, config, noises),
        prefers::<G, V>(tree, root, config, search_sequence(config)[done], noises, root, choice),
    ensures
        tree[choice.1 as int].visits == search_sequence(config)[done],
{
    let considered = search_sequence(config)[done];
    let visits = visit_list(tree, children);
    law_halving_finds_an_action(
        visits,
        considered_at_first(config),
        config.num_simulations as int,
        done,
    );
    let i = choose|i: int| 0 <= i < visits.len() && #[trigger] visits[i] == considered;
    let (other, best) = choose|other: Seq<(ActionId, NodeId)>, best: int|
        {
            &&& lists(tree[root].children, other)
            &&& #[trigger] first_largest(
                node_keys::<G, V>(tree, root, config, considered, noises, root, other),
                best,
            )
            &&& choice == other[best]
        };
    assert(tree[root].children.contains_key(children[i].0));
    assert(other.contains(children[i]));
    let j = choose|j: int| 0 <= j < other.len() && other[j] == children[i];
    let keys = root_keys(tree, other, completed::<G, V>(tree, root, other, config), noises);
    assert(keys[j] > v_key::<V>(v_low()));
    law_root_choice_is_considered(tree, other, considered, keys, v_key::<V>(v_low()), best, j);
}

proof fn lemma_branch_stays<V>(
    before: Seq<NodeState<V>>,
    after: Seq<NodeState<V>>,
    root: int,
    id: int,
)
    requires
        0 <= id < before.len() <= after.len(),
        forall|i: int|
            0 <= i < before.len() ==> (#[trigger] after[i]).parent == before[i].parent,
    ensures
        branch(after, root, id) == branch(before, root, id),
    decreases id,
{
    assert(after[id].parent == before[id].parent);
    match before[id].parent {
        Some(parent) => {
            if parent < id && parent != root {
                lemma_branch_stays(before, after, root, parent as int);
            }
        },
        None => {},
    }
}

proof fn lemma_one_more_visit<G: Scored<V>, V: Real>(
    before: Seq<NodeState<V>>,
    after: Seq<NodeState<V>>,
    root: int,
    children: Seq<(ActionId, NodeId)>,
    leaf: int,
    value: V,
    values: Seq<V>,
    k: int,
)
    requires
        is_tree(before),
        0 <= root < before.len(),
        0 <= leaf < before.len(),
        leaf != root,
        below(before, root, leaf),
        backed_up::<G, V>(before, after, leaf, value, values),
        lists(before[root].children, children),
        0 <= k < children.len(),
        branch(before, root, leaf) == children[k].1,
    ensures
        after[root].children == before[root].children,
        visit_list(after, children) == visit_list(before, children).update(
            k,
            visit_list(before, children)[k] + 1,
        ),
{
    assert(after[root].children == before[root].children);
    let wanted = visit_list(before, children).update(k, visit_list(before, children)[k] + 1);
    assert(leads_to(before, root, children[k].0, children[k].1 as int));
    assert forall|i: int| 0 <= i < children.len() implies #[trigger] visit_list(after, children)[i]
        == wanted[i] by {
        let (a, c) = children[i];
        assert(leads_to(before, root, a, c as int));
        law_backup_counts::<G, V>(before, after, root, leaf, value, values, a);
        assert(visits_through(before, root, a) == before[c as int].visits);
        assert(visits_through(after, root, a) == after[c as int].visits);
        if c == children[k].1 {
            assert(a == children[k].0);
            assert(i == k);
        }
    }
    assert(visit_list(after, children) =~= wanted);
}

/// A simulation keeps the children of the root on pace: from the root it goes down to a leaf,
/// which may be expanded then, and a value is backed up from there. There must be as many
/// children as are considered at first, or some that were not visited yet.
pub proof fn law_simulation_keeps_pace<G: Scored<V>, V: Real>(
    before: Seq<NodeState<V>>,
    between: Seq<NodeState<V>>,
    after: Seq<NodeState<V>>,
    root: int,
    children: Seq<(ActionId, NodeId)>,
    config: GumbelConfig<V>,
    noises: Seq<V>,
    done: int,
    moves: Seq<(ActionId, NodeId)>,
    actions: Seq<ActionId>,
    priors: Seq<V>,
    logits: Seq<V>,
    value: V,
    values: Seq<V>,
)
    requires
        is_tree(before),
        is_tree(between),
        0 <= root < before.len(),
        0 <= done < config.num_simulations,
        on_pace(before, root, children, config, done),
        children.len() >= considered_at_first(config) || done < children.len(),
        all_compete::<G, V>(before, root, config, noises),
        moves.len() > 0,
        walks::<G, V>(before, root, config, search_sequence(config)[done], noises, root, moves),
        before[end_node(root, moves)].leaf(),
        between == before || expanded(
            before,
            between,
            end_node(root, moves),
            actions,
            priors,
            logits,
            value,
        ),
        backed_up::<G, V>(between, after, end_node(root, moves), value, values),
    ensures
        on_pace(after, root, children, config, done + 1),
{
    let leaf = end_node(root, moves);
    let sequence = search_sequence(config);
    law_first_move::<G, V>(before, root, config, sequence[done], noises, moves);
    assert(children.contains(moves[0]));
    let k = choose|k: int| 0 <= k < children.len() && children[k] == moves[0];
    law_choice_is_on_pace::<G, V>(before, root, children, config, noises, done, moves[0]);
    if between != before {
        assert(before[leaf].children.is_empty()) by {
            assert(before[leaf].raw is None ==> before[leaf].children.is_empty());
        }
        law_expansion_keeps_links(before, between, leaf, actions, priors, logits, value);
        law_below_stays(before, between, root, leaf);
        lemma_branch_stays(before, between, root, leaf);
        assert(between[root] == before[root]);
    }
    assert(visit_list(between, children) =~= visit_list(before, children)) by {
        assert forall|i: int| 0 <= i < children.len() implies between[(
        #[trigger] children[i]).1 as int].visits == before[children[i].1 as int].visits by {
            assert(leads_to(before, root, children[i].0, children[i].1 as int));
        }
    }
    lemma_one_more_visit::<G, V>(between, after, root, children, leaf, value, values, k);
    law_visit_sequence(
        considered_at_first(config),
        config.num_simulations as int,
    );
    law_halving_goes_on(visit_list(before, children), sequence, done, k);
}

/// When the root has no more children than are considered at first, each of them was visited
/// after as many simulations.
pub proof fn law_every_child_is_tried<V>(
    tree: Seq<NodeState<V>>,
    root: int,
    children: Seq<(ActionId, NodeId)>,
    config: GumbelConfig<V>,
)
    requires
        children.len() <= considered_at_first(config),
        on_pace(tree, root, children, config, children.len() as int),
    ensures
        forall|a: ActionId| #[trigger]
            tree[root].children.contains_key(a) ==> visits_through(tree, root, a) >= 1,
{
    let visits = visit_list(tree, children);
    law_halving_tries_every_action(
        visits,
        considered_at_first(config),
        config.num_simulations as int,
    );
    assert forall|a: ActionId| #[trigger] tree[root].children.contains_key(a) implies visits_through(
        tree,
        root,
        a,
    ) >= 1 by {
        assert(children.contains((a, tree[root].children[a])));
        let i = choose|i: int|
            0 <= i < children.len() && children[i] == (a, tree[root].children[a]);
        assert(visits[i] >= 1);
    }
}

/// Nothing that a search does to the tree takes visits away.
pub proof fn law_visits_never_shrink<G: Scored<V>, V: Real>(
    before: Seq<NodeState<V>>,
    between: Seq<NodeState<V>>,
    after: Seq<NodeState<V>>,
    leaf: int,
    actions: Seq<ActionId>,
    priors: Seq<V>,
    logits: Seq<V>,
    value: V,
    values: Seq<V>,
    id: int,
)
    requires
        0 <= id < before.len(),
        between == before || expanded(before, between, leaf, actions, priors, logits, value),
        backed_up::<G, V>(between, after, leaf, value, values),
    ensures
        before[id].visits <= after[id].visits <= before[id].visits + 1,
{
    assert(between[id].visits == before[id].visits);
    assert(after[id].visits == between[id].visits || after[id].visits == between[id].visits + 1);
}

} // verus!
