//! What a node keeps of the evaluator's answer with which it was expanded.

use vstd::prelude::*;
use crate::mcts::expand::{expanded, lemma_linked};
use crate::mcts::game::{ActionId, Scored};
use crate::mcts::node::{backed_up, is_tree, leads_to, NodeState};
use crate::mcts::policy::{is_raw_prior, legal_shares, scattered, selected, stored_logits};
use crate::mcts::search::answered;
use crate::number::{v_zero, Real, Score};

verus! {

/// `before` and `after` hold the same answer of the evaluator at the node `id`.
pub open spec fn same_answer<V>(
    before: Seq<NodeState<V>>,
    after: Seq<NodeState<V>>,
    id: int,
) -> bool {
    &&& after[id].raw == before[id].raw
    &&& after[id].children == before[id].children
    &&& forall|a: ActionId| #[trigger]
        before[id].children.contains_key(a) ==> after[before[id].children[a] as int].logit
            == before[before[id].children[a] as int].logit
}

/// The node `id` was expanded by `actions` when the evaluator answered with the numbers
/// `logits` and the value `raw`, and still has that answer.
pub open spec fn knows<V>(
    tree: Seq<NodeState<V>>,
    id: int,
    actions: Seq<ActionId>,
    logits: Seq<V>,
    raw: V,
) -> bool {
    &&& tree[id].raw == Some(raw)
    &&& forall|a: ActionId| #[trigger] tree[id].children.contains_key(a) <==> actions.contains(a)
    &&& stored_logits(tree, id, actions) == selected(logits, actions)
}

/// Expanding a node without children stores the evaluator's answer.
pub proof fn law_expansion_stores_answer<V: Score>(
    before: Seq<NodeState<V>>,
    after: Seq<NodeState<V>>,
    id: int,
    actions: Seq<ActionId>,
    priors: Seq<V>,
    logits: Seq<V>,
    raw: V,
)
    requires
        0 <= id < before.len(),
        before[id].children.is_empty(),
        before.len() + actions.len() <= usize::MAX,
        actions.no_duplicates(),
        expanded(before, after, id, actions, priors, logits, raw),
    ensures
        knows(after, id, actions, logits, raw),
{
    let base = before.len() as int;
    lemma_linked(before[id].children, actions, base, actions.len() as int);
    assert(actions.take(actions.len() as int) =~= actions);
    assert forall|k: int| 0 <= k < actions.len() implies #[trigger] stored_logits(
        after,
        id,
        actions,
    )[k] == selected(logits, actions)[k] by {
        assert(after[id].children[actions[k]] == base + k);
        assert(after[base + k].logit == logits[actions[k] as int]);
    }
    assert(stored_logits(after, id, actions) =~= selected(logits, actions));
}

/// Backing a value up keeps the evaluator's answer at every node.
pub proof fn law_backup_keeps_answer<G: Scored<V>, V: Real>(
    before: Seq<NodeState<V>>,
    after: Seq<NodeState<V>>,
    leaf: int,
    value: V,
    values: Seq<V>,
    id: int,
)
    requires
        is_tree(before),
        0 <= id < before.len(),
        backed_up::<G, V>(before, after, leaf, value, values),
    ensures
        same_answer(before, after, id),
{
    assert forall|a: ActionId| #[trigger] before[id].children.contains_key(a) implies {
        let child = before[id].children[a] as int;
        after[child].logit == before[child].logit
    } by {
        assert(leads_to(before, id, a, before[id].children[a] as int));
    }
}

/// Expanding a node keeps the evaluator's answer at every other node.
pub proof fn law_expansion_keeps_answer<V: Score>(
    before: Seq<NodeState<V>>,
    after: Seq<NodeState<V>>,
    leaf: int,
    actions: Seq<ActionId>,
    priors: Seq<V>,
    logits: Seq<V>,
    raw: V,
    id: int,
)
    requires
        is_tree(before),
        0 <= id < before.len(),
        id != leaf,
        expanded(before, after, leaf, actions, priors, logits, raw),
    ensures
        same_answer(before, after, id),
{
    assert forall|a: ActionId| #[trigger] before[id].children.contains_key(a) implies {
        let child = before[id].children[a] as int;
        after[child].logit == before[child].logit
    } by {
        assert(leads_to(before, id, a, before[id].children[a] as int));
    }
}

/// A node that keeps the evaluator's answer still has it, whatever else changed in the tree.
pub proof fn law_answer_lasts<V>(
    before: Seq<NodeState<V>>,
    after: Seq<NodeState<V>>,
    id: int,
    actions: Seq<ActionId>,
    logits: Seq<V>,
    raw: V,
)
    requires
        knows(before, id, actions, logits, raw),
        same_answer(before, after, id),
    ensures
        knows(after, id, actions, logits, raw),
{
    assert forall|k: int| 0 <= k < actions.len() implies #[trigger] stored_logits(
        after,
        id,
        actions,
    )[k] == stored_logits(before, id, actions)[k] by {
        assert(before[id].children.contains_key(actions[k]));
    }
    assert(stored_logits(after, id, actions) =~= stored_logits(before, id, actions));
}

/// The probabilities at a node that has the evaluator's answer are those that its numbers
/// give.
pub proof fn law_known_probabilities<V: Real>(
    tree: Seq<NodeState<V>>,
    id: int,
    actions: Seq<ActionId>,
    logits: Seq<V>,
    raw: V,
    width: int,
    prior: Seq<V>,
)
    requires
        knows(tree, id, actions, logits, raw),
    ensures
        is_raw_prior(tree, id, actions, width, prior) == scattered(
            actions,
            legal_shares(logits, actions),
            width,
            v_zero(),
            prior,
        ),
{
}

/// `after` is the tree `before` but for the probabilities of nodes.
pub open spec fn noise_mixed<V>(before: Seq<NodeState<V>>, after: Seq<NodeState<V>>) -> bool {
    &&& after.len() == before.len()
    &&& forall|i: int|
        0 <= i < before.len() ==> #[trigger] after[i] == (NodeState {
            prior: after[i].prior,
            ..before[i]
        })
}

/// `after` is the tree `before`, or that once the leaf `leaf` was expanded.
pub open spec fn grown_at<V: Score>(
    before: Seq<NodeState<V>>,
    after: Seq<NodeState<V>>,
    leaf: int,
) -> bool {
    ||| after == before
    ||| before[leaf].leaf() && exists|
        actions: Seq<ActionId>,
        priors: Seq<V>,
        logits: Seq<V>,
        raw: V,
    | #[trigger] expanded(before, after, leaf, actions, priors, logits, raw)
}

/// `after` is the tree `before` once a simulation ended: the node at which it ended may have
/// been expanded, and a value was backed up from there.
pub open spec fn simulated<G: Scored<V>, V: Real>(
    before: Seq<NodeState<V>>,
    after: Seq<NodeState<V>>,
) -> bool {
    exists|grown: Seq<NodeState<V>>, leaf: int, value: V, values: Seq<V>|
        {
            &&& 0 <= leaf < before.len()
            &&& is_tree(grown)
            &&& grown_at(before, grown, leaf)
            &&& #[trigger] backed_up::<G, V>(grown, after, leaf, value, values)
        }
}

/// What searches do to a tree with an expanded root: noise is mixed in, or a simulation is
/// run.
pub open spec fn search_step<G: Scored<V>, V: Real>(
    before: Seq<NodeState<V>>,
    after: Seq<NodeState<V>>,
) -> bool {
    &&& is_tree(before)
    &&& is_tree(after)
    &&& noise_mixed(before, after) || simulated::<G, V>(before, after)
}

proof fn lemma_step_keeps_answer<G: Scored<V>, V: Real>(
    before: Seq<NodeState<V>>,
    after: Seq<NodeState<V>>,
    root: int,
    actions: Seq<ActionId>,
    logits: Seq<V>,
    raw: V,
)
    requires
        search_step::<G, V>(before, after),
        0 <= root < before.len(),
        actions.len() > 0,
        knows(before, root, actions, logits, raw),
    ensures
        root < after.len(),
        knows(after, root, actions, logits, raw),
{
    assert(before[root].children.contains_key(actions[0])) by {
        assert(actions.contains(actions[0]));
    }
    if noise_mixed(before, after) {
        assert forall|a: ActionId| #[trigger] before[root].children.contains_key(a) implies {
            let child = before[root].children[a] as int;
            after[child].logit == before[child].logit
        } by {
            assert(leads_to(before, root, a, before[root].children[a] as int));
        }
        assert(after[root].children == before[root].children);
        law_answer_lasts(before, after, root, actions, logits, raw);
    } else {
        let (grown, leaf, value, values) = choose|
            grown: Seq<NodeState<V>>,
            leaf: int,
            value: V,
            values: Seq<V>,
        |
            {
                &&& 0 <= leaf < before.len()
                &&& is_tree(grown)
                &&& grown_at(before, grown, leaf)
                &&& #[trigger] backed_up::<G, V>(grown, after, leaf, value, values)
            };
        if grown != before {
            let (more, priors, numbers, own) = choose|
                more: Seq<ActionId>,
                priors: Seq<V>,
                numbers: Seq<V>,
                own: V,
            | #[trigger] expanded(before, grown, leaf, more, priors, numbers, own);
            law_expansion_keeps_answer(before, grown, leaf, more, priors, numbers, own, root);
            law_answer_lasts(before, grown, root, actions, logits, raw);
        }
        law_backup_keeps_answer::<G, V>(grown, after, leaf, value, values, root);
        law_answer_lasts(grown, after, root, actions, logits, raw);
    }
}

proof fn lemma_steps_keep_answer<G: Scored<V>, V: Real>(
    trees: Seq<Seq<NodeState<V>>>,
    n: int,
    root: int,
    actions: Seq<ActionId>,
    logits: Seq<V>,
    raw: V,
)
    requires
        0 <= n < trees.len(),
        0 <= root < trees[0].len(),
        forall|k: int|
            0 < k < trees.len() ==> search_step::<G, V>(trees[k - 1], #[trigger] trees[k]),
        actions.len() > 0,
        knows(trees[0], root, actions, logits, raw),
    ensures
        root < trees[n].len(),
        knows(trees[n], root, actions, logits, raw),
    decreases n,
{
    if n > 0 {
        lemma_steps_keep_answer::<G, V>(trees, n - 1, root, actions, logits, raw);
        lemma_step_keeps_answer::<G, V>(trees[n - 1], trees[n], root, actions, logits, raw);
    }
}

/// Whole searches, one or many of the same game on the same tree, leave the evaluator's raw
/// answer at the root. `trees[0]` is the tree whose root was expanded in the state `state`
/// with the evaluator's numbers `logits` and value `raw`, and each tree after it comes from
/// the one before by a step of a search. Then the value at the root is `raw`, and the
/// probabilities at the root are those that the numbers give to the legal actions.
pub proof fn law_searches_leave_raw_answer<G: Scored<V>, V: Real>(
    state: G::V,
    logits: Seq<V>,
    raw: V,
    unknown: Seq<NodeState<V>>,
    trees: Seq<Seq<NodeState<V>>>,
    root: int,
    prior: Seq<V>,
)
    requires
        G::reachable(state),
        G::actions(state).len() > 0,
        logits.len() == G::width(state),
        is_tree(unknown),
        0 <= root < unknown.len(),
        unknown[root].leaf(),
        trees.len() > 0,
        trees[0].len() <= usize::MAX,
        answered(unknown, trees[0], root, G::actions(state), logits, raw),
        forall|k: int|
            0 < k < trees.len() ==> search_step::<G, V>(trees[k - 1], #[trigger] trees[k]),
    ensures
        knows(trees.last(), root, G::actions(state), logits, raw),
        trees.last()[root].raw == Some(raw),
        is_raw_prior(trees.last(), root, G::actions(state), G::width(state), prior) <==> scattered(
            G::actions(state),
            legal_shares(logits, G::actions(state)),
            G::width(state),
            v_zero(),
            prior,
        ),
{
    let actions = G::actions(state);
    G::law_rules(state, 0);
    let priors = choose|priors: Seq<V>|
        {
            &&& #[trigger] scattered(
                actions,
                legal_shares(logits, actions),
                logits.len() as int,
                v_zero(),
                priors,
            )
            &&& expanded(unknown, trees[0], root, actions, priors, logits, raw)
        };
    assert(unknown[root].raw is None ==> unknown[root].children.is_empty());
    law_expansion_stores_answer(unknown, trees[0], root, actions, priors, logits, raw);
    lemma_steps_keep_answer::<G, V>(trees, trees.len() - 1, root, actions, logits, raw);
    law_known_probabilities(trees.last(), root, actions, logits, raw, G::width(state), prior);
}

} // verus!
