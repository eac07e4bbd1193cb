//! What holds of a tree while simulations run on it.

use vstd::prelude::*;
use crate::mcts::expand::{expanded, is_new_child, lemma_leads_in_expanded, lemma_linked};
use crate::mcts::game::{ActionId, Game, Scored};
use crate::mcts::node::{
    backed_up, is_tree, law_lineage, leads_to, lineage, picks, shares_visits, visits_of, NodeId,
    NodeState,
};
use crate::mcts::read::visits_through;
use crate::number::{Real, Score};

verus! {

/// Actions lead from `root` down to `id`.
pub open spec fn below<V>(tree: Seq<NodeState<V>>, root: int, id: int) -> bool
    decreases id,
{
    ||| id == root
    ||| {
        &&& id > 0
        &&& tree[id].parent is Some
        &&& tree[id].parent->0 < id
        &&& exists|a: ActionId| leads_to(tree, tree[id].parent->0 as int, a, id)
        &&& below(tree, root, tree[id].parent->0 as int)
    }
}

/// The child of `root` through which one gets to `id`, a node below `root`.
pub open spec fn branch<V>(tree: Seq<NodeState<V>>, root: int, id: int) -> int
    decreases id,
{
    match tree[id].parent {
        Some(parent) => if parent < id && parent != root {
            branch(tree, root, parent as int)
        } else {
            id
        },
        None => id,
    }
}

/// Parents and children stay as they are.
pub open spec fn same_links<V>(before: Seq<NodeState<V>>, after: Seq<NodeState<V>>) -> bool {
    &&& before.len() <= after.len()
    &&& forall|i: int|
        0 <= i < before.len() ==> (#[trigger] after[i]).parent == before[i].parent
    &&& forall|i: int, a: ActionId, c: int| #[trigger]
        leads_to(before, i, a, c) ==> leads_to(after, i, a, c)
}

/// What is below a node stays below it while the links stay.
pub proof fn law_below_stays<V>(
    before: Seq<NodeState<V>>,
    after: Seq<NodeState<V>>,
    root: int,
    id: int,
)
    requires
        same_links(before, after),
        0 <= id < before.len(),
        below(before, root, id),
    ensures
        below(after, root, id),
    decreases id,
{
    if id != root {
        let parent = before[id].parent->0 as int;
        let a = choose|a: ActionId| leads_to(before, parent, a, id);
        assert(leads_to(after, parent, a, id));
        assert(after[id].parent == before[id].parent);
        law_below_stays(before, after, root, parent);
    }
}

/// Below a node the lineage passes through it; above it only one child of it is passed.
proof fn lemma_lineage_through<V>(tree: Seq<NodeState<V>>, root: int, id: int, child: int)
    requires
        is_tree(tree),
        0 <= root < tree.len(),
        0 <= id < tree.len(),
        below(tree, root, id),
        0 <= child < tree.len(),
        tree[child].parent is Some,
        tree[child].parent->0 == root,
        root < child,
    ensures
        lineage(tree, id).contains(root),
        id == root ==> !lineage(tree, id).contains(child),
        id != root ==> (lineage(tree, id).contains(child) <==> branch(tree, root, id) == child),
        id != root ==> root < id,
    decreases id,
{
    law_lineage(tree, id);
    let path = lineage(tree, id);
    if id == root {
        assert(path[0] == root);
    } else {
        let parent = tree[id].parent->0 as int;
        lemma_lineage_through(tree, root, parent, child);
        law_lineage(tree, parent);
        let rest = lineage(tree, parent);
        assert(path =~= seq![id] + rest);
        let k = choose|k: int| 0 <= k < rest.len() && rest[k] == root;
        assert(path[k + 1] == root);
        assert(path[0] == id);
        assert(path.contains(child) <==> child == id || rest.contains(child)) by {
            if rest.contains(child) {
                let k = choose|k: int| 0 <= k < rest.len() && rest[k] == child;
                assert(path[k + 1] == child);
            }
            if path.contains(child) && child != id {
                let k = choose|k: int| 0 <= k < path.len() && path[k] == child;
                assert(rest[k - 1] == child);
            }
        }
    }
}

/// The branch below a root is one of its children.
pub proof fn law_branch_is_a_child<V>(tree: Seq<NodeState<V>>, root: int, id: int)
    requires
        is_tree(tree),
        0 <= root < tree.len(),
        0 <= id < tree.len(),
        id != root,
        below(tree, root, id),
    ensures
        exists|a: ActionId| leads_to(tree, root, a, branch(tree, root, id)),
    decreases id,
{
    let parent = tree[id].parent->0 as int;
    if parent != root {
        law_branch_is_a_child(tree, root, parent);
        assert(branch(tree, root, id) == branch(tree, root, parent));
    } else {
        assert(branch(tree, root, id) == id);
    }
}

/// Backing a value up from a node below `root` visits `root` once more, and of its children
/// exactly the one on the way.
pub proof fn law_backup_counts<G: Scored<V>, V: Real>(
    before: Seq<NodeState<V>>,
    after: Seq<NodeState<V>>,
    root: int,
    leaf: int,
    value: V,
    values: Seq<V>,
    action: ActionId,
)
    requires
        is_tree(before),
        0 <= root < before.len(),
        0 <= leaf < before.len(),
        below(before, root, leaf),
        backed_up::<G, V>(before, after, leaf, value, values),
    ensures
        after[root].visits == before[root].visits + 1,
        visits_through(after, root, action) == visits_through(before, root, action) + (if leaf
            != root && leads_to(before, root, action, branch(before, root, leaf)) {
            1int
        } else {
            0int
        }),
{
    law_lineage(before, leaf);
    assert(lineage(before, leaf).contains(root)) by {
        lemma_passes_root(before, root, leaf);
    }
    assert(after[root].children == before[root].children);
    if before[root].children.contains_key(action) {
        let child = before[root].children[action] as int;
        assert(leads_to(before, root, action, child));
        lemma_lineage_through(before, root, leaf, child);
        assert(after[child].visits == before[child].visits + (if lineage(before, leaf).contains(
            child,
        ) {
            1int
        } else {
            0int
        }));
    }
}

proof fn lemma_passes_root<V>(tree: Seq<NodeState<V>>, root: int, id: int)
    requires
        is_tree(tree),
        0 <= root < tree.len(),
        0 <= id < tree.len(),
        below(tree, root, id),
    ensures
        lineage(tree, id).contains(root),
    decreases id,
{
    let path = lineage(tree, id);
    law_lineage(tree, id);
    if id == root {
        assert(path[0] == root);
    } else {
        let parent = tree[id].parent->0 as int;
        lemma_passes_root(tree, root, parent);
        let rest = lineage(tree, parent);
        assert(path =~= seq![id] + rest);
        let k = choose|k: int| 0 <= k < rest.len() && rest[k] == root;
        assert(path[k + 1] == root);
    }
}

/// How often the first `width` actions were tried at `id`, all together.
pub open spec fn tries<V>(tree: Seq<NodeState<V>>, id: int, width: int) -> int
    decreases width,
{
    if width <= 0 {
        0
    } else {
        tries(tree, id, width - 1) + visits_through(tree, id, (width - 1) as usize)
    }
}

/// The children of `id` through the first `width` actions, in order.
spec fn tried<V>(tree: Seq<NodeState<V>>, id: int, width: int) -> Seq<(ActionId, NodeId)>
    decreases width,
{
    if width <= 0 {
        Seq::empty()
    } else {
        let a = (width - 1) as usize;
        if tree[id].children.contains_key(a) {
            tried(tree, id, width - 1).push((a, tree[id].children[a]))
        } else {
            tried(tree, id, width - 1)
        }
    }
}

proof fn lemma_tried<V>(tree: Seq<NodeState<V>>, id: int, width: int)
    requires
        0 <= width <= usize::MAX,
    ensures
        picks(tree[id].children, tried(tree, id, width)),
        forall|i: int|
            0 <= i < tried(tree, id, width).len() ==> (#[trigger] tried(tree, id, width)[i]).0
                < width,
        visits_of(tree, tried(tree, id, width)) == tries(tree, id, width),
    decreases width,
{
    if width > 0 {
        lemma_tried(tree, id, width - 1);
        let front = tried(tree, id, width - 1);
        let a = (width - 1) as usize;
        if tree[id].children.contains_key(a) {
            assert(tried(tree, id, width).drop_last() =~= front);
        }
    }
}

/// The tries of actions at a node are among the visits of the node.
pub proof fn law_tries_are_visits<V>(tree: Seq<NodeState<V>>, id: int, width: int)
    requires
        is_tree(tree),
        0 <= id < tree.len(),
        0 <= width <= usize::MAX,
    ensures
        tries(tree, id, width) <= tree[id].visits,
{
    lemma_tried(tree, id, width);
    assert(shares_visits(tree, id));
}

/// Backing a value up from a node below `root`, but not from `root` itself, counts as one
/// try of an action at `root`.
pub proof fn law_backup_counts_one_try<G: Scored<V>, V: Real>(
    before: Seq<NodeState<V>>,
    after: Seq<NodeState<V>>,
    root: int,
    leaf: int,
    value: V,
    values: Seq<V>,
    width: int,
)
    requires
        is_tree(before),
        0 <= root < before.len(),
        0 <= leaf < before.len(),
        leaf != root,
        below(before, root, leaf),
        backed_up::<G, V>(before, after, leaf, value, values),
        0 <= width <= usize::MAX,
        forall|a: ActionId| #[trigger] before[root].children.contains_key(a) ==> a < width,
    ensures
        tries(after, root, width) == tries(before, root, width) + 1,
{
    law_branch_is_a_child(before, root, leaf);
    let a = choose|a: ActionId| leads_to(before, root, a, branch(before, root, leaf));
    lemma_tries_change::<G, V>(before, after, root, leaf, value, values, a, width);
}

proof fn lemma_tries_change<G: Scored<V>, V: Real>(
    before: Seq<NodeState<V>>,
    after: Seq<NodeState<V>>,
    root: int,
    leaf: int,
    value: V,
    values: Seq<V>,
    action: ActionId,
    width: int,
)
    requires
        is_tree(before),
        0 <= root < before.len(),
        0 <= leaf < before.len(),
        leaf != root,
        below(before, root, leaf),
        backed_up::<G, V>(before, after, leaf, value, values),
        leads_to(before, root, action, branch(before, root, leaf)),
        0 <= width <= usize::MAX,
    ensures
        tries(after, root, width) == tries(before, root, width) + (if action < width {
            1int
        } else {
            0int
        }),
    decreases width,
{
    if width > 0 {
        lemma_tries_change::<G, V>(before, after, root, leaf, value, values, action, width - 1);
        let last = (width - 1) as usize;
        law_backup_counts::<G, V>(before, after, root, leaf, value, values, last);
        let b = branch(before, root, leaf);
        if leads_to(before, root, last, b) {
            assert(last == action);
        }
    }
}

/// The node `id` fits the game state `state`: when it is expanded, its children are the
/// legal actions, and otherwise it has none.
pub open spec fn fits<G: Game, V>(node: NodeState<V>, state: G::V) -> bool {
    &&& G::reachable(state)
    &&& node.raw is None ==> node.children.is_empty()
    &&& node.raw is Some ==> forall|a: ActionId|
        node.children.contains_key(a) <==> G::actions(state).contains(a)
}

/// The tree follows the game: `games[i]` is the state of the game at the node `i`, every
/// node fits its state, and each action leads to the state that playing it gives.
pub open spec fn follows<G: Game, V>(tree: Seq<NodeState<V>>, games: Seq<G::V>) -> bool {
    &&& games.len() == tree.len()
    &&& forall|i: int| 0 <= i < tree.len() ==> fits::<G, V>(#[trigger] tree[i], games[i])
    &&& forall|i: int, a: ActionId, c: int| #[trigger]
        leads_to(tree, i, a, c) ==> games[c] == G::next(games[i], a as int)
}

/// A tree of one fresh node follows the game from any reachable state.
pub proof fn law_fresh_tree_follows<G: Game, V>(
    total: V,
    prior: V,
    logit: V,
    state: G::V,
)
    requires
        G::reachable(state),
    ensures
        follows::<G, V>(seq![NodeState::fresh(total, prior, logit, None)], seq![state]),
{
}

/// In a tree that follows the game every choice of a child is a legal action, and leads to
/// the state of that child.
pub proof fn law_choices_are_legal<G: Game, V>(
    tree: Seq<NodeState<V>>,
    games: Seq<G::V>,
    id: int,
    action: ActionId,
    child: int,
)
    requires
        is_tree(tree),
        follows::<G, V>(tree, games),
        leads_to(tree, id, action, child),
    ensures
        G::actions(games[id]).contains(action),
        games[child] == G::next(games[id], action as int),
{
    assert(fits::<G, V>(tree[id], games[id]));
}

/// The states of the game once the node `id` was expanded by `actions`.
pub open spec fn grown<G: Game>(
    games: Seq<G::V>,
    id: int,
    actions: Seq<ActionId>,
) -> Seq<G::V> {
    games + Seq::new(actions.len(), |k: int| G::next(games[id], actions[k] as int))
}

/// Expanding a node by the legal actions keeps the tree following the game.
pub proof fn law_expansion_follows<G: Game, V: Score>(
    before: Seq<NodeState<V>>,
    after: Seq<NodeState<V>>,
    games: Seq<G::V>,
    id: int,
    priors: Seq<V>,
    logits: Seq<V>,
    raw: V,
)
    requires
        is_tree(before),
        follows::<G, V>(before, games),
        0 <= id < before.len(),
        before[id].raw is None,
        after.len() <= usize::MAX,
        expanded(before, after, id, G::actions(games[id]), priors, logits, raw),
    ensures
        follows::<G, V>(after, grown::<G>(games, id, G::actions(games[id]))),
{
    let actions = G::actions(games[id]);
    let base = before.len() as int;
    let n = actions.len() as int;
    let more = grown::<G>(games, id, actions);
    assert(fits::<G, V>(before[id], games[id]));
    lemma_linked(before[id].children, actions, base, n);
    assert(actions.take(n) =~= actions);
    assert forall|i: int| 0 <= i < after.len() implies fits::<G, V>(#[trigger] after[i], more[i]) by {
        if i < base {
            assert(fits::<G, V>(before[i], games[i]));
            if i == id {
                assert forall|a: ActionId|
                    after[id].children.contains_key(a) <==> actions.contains(a) by {
                    assert(!before[id].children.contains_key(a));
                }
            }
        } else {
            let k = i - base;
            assert(is_new_child(after[base + k], id, priors, logits, actions[k]));
            G::law_rules(games[id], actions[k]);
        }
    }
    assert forall|i: int, a: ActionId, c: int| #[trigger] leads_to(after, i, a, c) implies more[c]
        == G::next(more[i], a as int) by {
        lemma_leads_in_expanded(before, after, id, actions, priors, logits, raw, i, a, c);
        if leads_to(before, i, a, c) && c < base {
            assert(games[c] == G::next(games[i], a as int));
        }
    }
}

/// Backing a value up keeps the tree following the game.
pub proof fn law_backup_follows<G: Scored<V>, V: Real>(
    before: Seq<NodeState<V>>,
    after: Seq<NodeState<V>>,
    games: Seq<G::V>,
    leaf: int,
    value: V,
    values: Seq<V>,
)
    requires
        follows::<G, V>(before, games),
        backed_up::<G, V>(before, after, leaf, value, values),
    ensures
        follows::<G, V>(after, games),
{
    assert forall|i: int| 0 <= i < after.len() implies fits::<G, V>(#[trigger] after[i], games[i]) by {
        assert(fits::<G, V>(before[i], games[i]));
    }
    assert forall|i: int, a: ActionId, c: int| #[trigger] leads_to(after, i, a, c) implies games[c]
        == G::next(games[i], a as int) by {
        assert(leads_to(before, i, a, c));
    }
}

/// Backing a value up keeps the links.
pub proof fn law_backup_keeps_links<G: Scored<V>, V: Real>(
    before: Seq<NodeState<V>>,
    after: Seq<NodeState<V>>,
    leaf: int,
    value: V,
    values: Seq<V>,
)
    requires
        backed_up::<G, V>(before, after, leaf, value, values),
    ensures
        same_links(before, after),
{
    assert forall|i: int, a: ActionId, c: int| #[trigger] leads_to(before, i, a, c) implies leads_to(
        after,
        i,
        a,
        c,
    ) by {
        assert(after[i].children == before[i].children);
    }
}

/// Expanding a node without children keeps the links.
pub proof fn law_expansion_keeps_links<V: Score>(
    before: Seq<NodeState<V>>,
    after: Seq<NodeState<V>>,
    id: int,
    actions: Seq<ActionId>,
    priors: Seq<V>,
    logits: Seq<V>,
    raw: V,
)
    requires
        before[id].children.is_empty(),
        expanded(before, after, id, actions, priors, logits, raw),
    ensures
        same_links(before, after),
{
    assert forall|i: int, a: ActionId, c: int| #[trigger] leads_to(before, i, a, c) implies leads_to(
        after,
        i,
        a,
        c,
    ) by {
        assert(i != id);
        assert(after[i] == before[i]);
    }
}

} // verus!
