//! The search tree: nodes, expansion and the way of a value back to the root.

use std::collections::HashMap;
use vstd::prelude::*;
use vstd::std_specs::iter::IteratorSpec;
use crate::mcts::game::{ActionId, Scored};
use crate::number::{exact, Real, Score};

verus! {

broadcast use vstd::std_specs::hash::group_hash_axioms;

/// A node, by its place in the tree's arena.
pub type NodeId = usize;

/// A node of the tree.
#[derive(Clone)]
pub struct Node<V> {
    pub visit_count: u32,
    /// The sum of the values that came back through the node, as the player to move there
    /// sees them.
    pub total_value: V,
    /// The probability that the evaluator gives to the action that leads here.
    pub prior: V,
    /// The evaluator's number for that action before it is turned into a probability.
    pub policy_logit: V,
    /// The evaluator's value of the node, once the node is expanded.
    pub raw_value: Option<V>,
    pub parent: Option<NodeId>,
    pub children: HashMap<ActionId, NodeId>,
}

/// A node as a mathematical value.
#[verifier::ext_equal]
pub struct NodeState<V> {
    pub visits: int,
    pub total: V,
    pub prior: V,
    pub logit: V,
    pub raw: Option<V>,
    pub parent: Option<NodeId>,
    pub children: Map<ActionId, NodeId>,
}

impl<V> View for Node<V> {
    type V = NodeState<V>;

    open spec fn view(&self) -> NodeState<V> {
        NodeState {
            visits: self.visit_count as int,
            total: self.total_value,
            prior: self.prior,
            logit: self.policy_logit,
            raw: self.raw_value,
            parent: self.parent,
            children: self.children@,
        }
    }
}

impl<V> NodeState<V> {
    /// Nothing hangs below the node yet.
    pub open spec fn leaf(self) -> bool {
        self.raw is None || self.children.is_empty()
    }

    /// A node that was never visited, with the given sum of values.
    pub open spec fn fresh(
        total: V,
        prior: V,
        logit: V,
        parent: Option<NodeId>,
    ) -> NodeState<V> {
        NodeState { visits: 0, total, prior, logit, raw: None, parent, children: Map::empty() }
    }
}

impl<V: Score> Node<V> {
    /// A node that was never visited.
    pub fn new(prior: V, policy_logit: V, parent: Option<NodeId>) -> (node: Node<V>)
        ensures
            V::zero.ensures((), node@.total),
            node@ == NodeState::fresh(node@.total, prior, policy_logit, parent),
    {
        Node {
            visit_count: 0,
            total_value: V::zero(),
            prior,
            policy_logit,
            raw_value: None,
            parent,
            children: HashMap::new(),
        }
    }

    /// The mean of the values that came back through the node, or zero when none did.
    pub fn q(&self) -> (value: V)
        ensures
            self.visit_count > 0 ==> V::mean.ensures(
                (self.total_value, self.visit_count as usize),
                value,
            ),
            self.visit_count == 0 ==> V::zero.ensures((), value),
    {
        if self.visit_count > 0 {
            self.total_value.mean(self.visit_count as usize)
        } else {
            V::zero()
        }
    }

    /// Tells whether selection stops here: the node is not expanded or has no children.
    pub fn is_leaf(&self) -> (leaf: bool)
        ensures
            leaf == self@.leaf(),
    {
        self.raw_value.is_none() || self.children.is_empty()
    }

    /// Counts one visit and adds `value` to the sum.
    pub fn add_visit(&mut self, value: V)
        requires
            old(self).visit_count < u32::MAX,
        ensures
            V::plus.ensures((old(self).total_value, value), final(self).total_value),
            final(self)@ == (NodeState {
                visits: old(self)@.visits + 1,
                total: final(self)@.total,
                ..old(self)@
            }),
    {
        self.visit_count = self.visit_count + 1;
        self.total_value = self.total_value.plus(value);
    }
}

/// A search tree. The nodes stand in an arena, parents before their children.
pub struct MCTS<V> {
    pub arena: Vec<Node<V>>,
    /// The node at which searches start.
    pub root_id: NodeId,
}

/// The nodes of an arena as mathematical values.
pub open spec fn states<V>(arena: Seq<Node<V>>) -> Seq<NodeState<V>> {
    arena.map_values(|node: Node<V>| node@)
}

impl<V> View for MCTS<V> {
    type V = Seq<NodeState<V>>;

    open spec fn view(&self) -> Seq<NodeState<V>> {
        states(self.arena@)
    }
}

/// `child` is the node that `action` leads to from `parent`.
pub open spec fn leads_to<V>(
    tree: Seq<NodeState<V>>,
    parent: int,
    action: ActionId,
    child: int,
) -> bool {
    &&& 0 <= parent < tree.len()
    &&& tree[parent].children.contains_key(action)
    &&& tree[parent].children[action] == child
}

/// The node has a parent that stands before it and was visited at least as often.
pub open spec fn hangs<V>(tree: Seq<NodeState<V>>, id: int) -> bool {
    &&& tree[id].parent is Some
    &&& tree[id].parent->0 < id
    &&& 0 <= tree[id].visits <= tree[tree[id].parent->0 as int].visits
}

/// Every entry of `list` is one of `children`, and none occurs twice.
pub open spec fn picks(children: Map<ActionId, NodeId>, list: Seq<(ActionId, NodeId)>) -> bool {
    &&& forall|i: int|
        0 <= i < list.len() ==> children.contains_key((#[trigger] list[i]).0)
            && children[list[i].0] == list[i].1
    &&& forall|i: int, j: int|
        0 <= i < j < list.len() ==> (#[trigger] list[i]).0 != (#[trigger] list[j]).0
}

/// `list` holds the entries of `children`, each once.
pub open spec fn lists(children: Map<ActionId, NodeId>, list: Seq<(ActionId, NodeId)>) -> bool {
    &&& picks(children, list)
    &&& forall|a: ActionId| #[trigger]
        children.contains_key(a) ==> list.contains((a, children[a]))
}

/// How often the listed nodes were visited together.
pub open spec fn visits_of<V>(tree: Seq<NodeState<V>>, list: Seq<(ActionId, NodeId)>) -> int
    decreases list.len(),
{
    if list.len() == 0 {
        0
    } else {
        visits_of(tree, list.drop_last()) + tree[list.last().1 as int].visits
    }
}

/// The children of the node were visited together at most as often as the node.
pub open spec fn shares_visits<V>(tree: Seq<NodeState<V>>, id: int) -> bool {
    forall|list: Seq<(ActionId, NodeId)>| #[trigger]
        picks(tree[id].children, list) ==> visits_of(tree, list) <= tree[id].visits
}

/// The nodes form a tree below the node 0: every other node has a parent that stands before
/// it and was visited at least as often, every child stands after its parent and has it as
/// its parent, through one action only, a node that is not expanded has no children, and the
/// children of a node were visited together at most as often as the node.
pub open spec fn is_tree<V>(tree: Seq<NodeState<V>>) -> bool {
    &&& tree.len() > 0
    &&& tree[0].parent is None
    &&& tree[0].visits >= 0
    &&& forall|i: int| 0 < i < tree.len() ==> #[trigger] hangs(tree, i)
    &&& forall|i: int, a: ActionId, c: int| #[trigger]
        leads_to(tree, i, a, c) ==> i < c < tree.len() && tree[c].parent is Some
            && tree[c].parent->0 == i
    &&& forall|i: int, a: ActionId, b: ActionId, c: int| #[trigger]
        leads_to(tree, i, a, c) && #[trigger] leads_to(tree, i, b, c) ==> a == b
    &&& forall|i: int|
        0 <= i < tree.len() && (#[trigger] tree[i]).raw is None ==> tree[i].children.is_empty()
    &&& forall|i: int| 0 <= i < tree.len() ==> #[trigger] shares_visits(tree, i)
}

/// A node with this state can hang below the tree: its parent is there and was visited at
/// least as often, and it has no children.
pub open spec fn fits_below<V>(tree: Seq<NodeState<V>>, node: NodeState<V>) -> bool {
    &&& node.parent is Some
    &&& node.parent->0 < tree.len()
    &&& 0 <= node.visits <= tree[node.parent->0 as int].visits
    &&& node.children.is_empty()
}

proof fn lemma_push_keeps_tree<V>(before: Seq<NodeState<V>>, node: NodeState<V>)
    requires
        is_tree(before),
        fits_below(before, node),
    ensures
        is_tree(before.push(node)),
{
    let after = before.push(node);
    assert forall|i: int| 0 < i < after.len() implies #[trigger] hangs(after, i) by {
        if i < before.len() {
            assert(hangs(before, i));
        }
    }
    assert forall|i: int, a: ActionId, c: int| #[trigger] leads_to(after, i, a, c) implies leads_to(
        before,
        i,
        a,
        c,
    ) by {}
    assert forall|i: int| 0 <= i < after.len() implies #[trigger] shares_visits(after, i) by {
        if i < before.len() {
            assert(after[i] == before[i]);
            lemma_keeps_sharing(before, after, i);
        } else {
            lemma_childless(after, i);
        }
    }
}

/// A node without children shares no visits.
pub proof fn lemma_childless<V>(tree: Seq<NodeState<V>>, id: int)
    requires
        tree[id].children.is_empty(),
        tree[id].visits >= 0,
    ensures
        shares_visits(tree, id),
{
    assert forall|list: Seq<(ActionId, NodeId)>| #[trigger]
        picks(tree[id].children, list) implies visits_of(tree, list) <= tree[id].visits by {
        if list.len() > 0 {
            assert(tree[id].children.contains_key(list[0].0));
        }
    }
}

/// The visits of listed nodes are the same in two trees in which those nodes were visited
/// equally often.
pub proof fn lemma_same_visits<V>(
    before: Seq<NodeState<V>>,
    after: Seq<NodeState<V>>,
    list: Seq<(ActionId, NodeId)>,
)
    requires
        forall|k: int|
            0 <= k < list.len() ==> after[(#[trigger] list[k]).1 as int].visits
                == before[list[k].1 as int].visits,
    ensures
        visits_of(after, list) == visits_of(before, list),
    decreases list.len(),
{
    if list.len() > 0 {
        let front = list.drop_last();
        assert forall|k: int| 0 <= k < front.len() implies after[(#[trigger] front[k]).1 as int].visits
            == before[front[k].1 as int].visits by {
            assert(front[k] == list[k]);
        }
        lemma_same_visits(before, after, front);
        assert(list.last() == list[list.len() - 1]);
    }
}

/// A node keeps sharing its visits when it and its children were visited equally often.
pub proof fn lemma_keeps_sharing<V>(
    before: Seq<NodeState<V>>,
    after: Seq<NodeState<V>>,
    id: int,
)
    requires
        is_tree(before),
        0 <= id < before.len(),
        before.len() <= after.len(),
        after[id].children == before[id].children,
        forall|i: int|
            0 <= i < before.len() ==> (#[trigger] after[i]).visits == before[i].visits,
    ensures
        shares_visits(after, id),
{
    assert(shares_visits(before, id));
    assert(after[id].visits == before[id].visits);
    assert forall|list: Seq<(ActionId, NodeId)>| #[trigger]
        picks(after[id].children, list) implies visits_of(after, list) <= after[id].visits by {
        assert(picks(before[id].children, list));
        assert forall|k: int| 0 <= k < list.len() implies after[(#[trigger] list[k]).1 as int].visits
            == before[list[k].1 as int].visits by {
            assert(leads_to(before, id, list[k].0, list[k].1 as int));
        }
        lemma_same_visits(before, after, list);
    }
}

/// No node was visited more often than the node 0.
pub proof fn law_top_is_busiest<V>(tree: Seq<NodeState<V>>, id: int)
    requires
        is_tree(tree),
        0 <= id < tree.len(),
    ensures
        tree[id].visits <= tree[0].visits,
    decreases id,
{
    if id > 0 {
        assert(hangs(tree, id));
        law_top_is_busiest(tree, tree[id].parent->0 as int);
    }
}

/// The nodes from `id` up to the node 0.
pub open spec fn lineage<V>(tree: Seq<NodeState<V>>, id: int) -> Seq<int>
    decreases id,
{
    match tree[id].parent {
        Some(parent) => if parent < id {
            seq![id] + lineage(tree, parent as int)
        } else {
            seq![id]
        },
        None => seq![id],
    }
}

/// The node `path[k]` is the parent of the one before it.
pub open spec fn climbs<V>(tree: Seq<NodeState<V>>, path: Seq<int>, k: int) -> bool {
    tree[path[k - 1]].parent is Some && tree[path[k - 1]].parent->0 == path[k]
}

/// `values[k]` is the value before it as the player to move one step up sees it.
pub open spec fn flips<G: Scored<V>, V: Real>(values: Seq<V>, k: int) -> bool {
    values[k] == G::flipped(values[k - 1])
}

/// The nodes of a lineage stand in decreasing order, each the parent of the one before, and
/// the last is the node 0.
pub proof fn law_lineage<V>(tree: Seq<NodeState<V>>, id: int)
    requires
        is_tree(tree),
        0 <= id < tree.len(),
    ensures
        lineage(tree, id).len() > 0,
        lineage(tree, id)[0] == id,
        lineage(tree, id).last() == 0,
        forall|k: int|
            0 <= k < lineage(tree, id).len() ==> 0 <= #[trigger] lineage(tree, id)[k] <= id,
        forall|k: int|
            0 < k < lineage(tree, id).len() ==> #[trigger] climbs(tree, lineage(tree, id), k),
        forall|k: int, l: int|
            0 <= k < l < lineage(tree, id).len() ==> #[trigger] lineage(tree, id)[l]
                < #[trigger] lineage(tree, id)[k],
    decreases id,
{
    let path = lineage(tree, id);
    assert(id > 0 ==> hangs(tree, id));
    match tree[id].parent {
        Some(parent) => {
            law_lineage(tree, parent as int);
            let rest = lineage(tree, parent as int);
            assert(path =~= seq![id] + rest);
            assert forall|k: int| 0 < k < path.len() implies #[trigger] climbs(tree, path, k) by {
                if k > 1 {
                    assert(climbs(tree, rest, k - 1));
                }
            }
            assert forall|k: int, l: int| 0 <= k < l < path.len() implies #[trigger] path[l]
                < #[trigger] path[k] by {
                assert(path[l] == rest[l - 1]);
                if k > 0 {
                    assert(path[k] == rest[k - 1]);
                }
            }
            assert(path.last() == rest.last());
        },
        None => {},
    }
}

/// `after` is the tree `before` once `value` went from the node `leaf` up to the node 0:
/// each node on the way was visited once more and had the value added, which changes hands
/// from each node to its parent as the game has it; `values[k]` is what reached the node
/// `lineage[k]`.
pub open spec fn backed_up<G: Scored<V>, V: Real>(
    before: Seq<NodeState<V>>,
    after: Seq<NodeState<V>>,
    leaf: int,
    value: V,
    values: Seq<V>,
) -> bool {
    let path = lineage(before, leaf);
    &&& after.len() == before.len()
    &&& values.len() == path.len()
    &&& values[0] == value
    &&& forall|k: int| 0 < k < values.len() ==> #[trigger] flips::<G, V>(values, k)
    &&& forall|k: int|
        0 <= k < values.len() ==> V::plus.ensures(
            (before[path[k]].total, #[trigger] values[k]),
            after[path[k]].total,
        )
    &&& forall|i: int|
        0 <= i < before.len() ==> #[trigger] after[i] == (if path.contains(i) {
            NodeState { visits: before[i].visits + 1, total: after[i].total, ..before[i] }
        } else {
            before[i]
        })
}

/// `backed_up` for the first `done` nodes of the lineage alone.
spec fn partly_backed_up<V: Score>(
    before: Seq<NodeState<V>>,
    after: Seq<NodeState<V>>,
    leaf: int,
    values: Seq<V>,
    done: int,
) -> bool {
    let path = lineage(before, leaf);
    &&& after.len() == before.len()
    &&& forall|k: int|
        0 <= k < done ==> V::plus.ensures(
            (before[path[k]].total, #[trigger] values[k]),
            after[path[k]].total,
        )
    &&& forall|i: int|
        0 <= i < before.len() ==> #[trigger] after[i] == (if path.take(done).contains(i) {
            NodeState { visits: before[i].visits + 1, total: after[i].total, ..before[i] }
        } else {
            before[i]
        })
}

impl<V: Score> MCTS<V> {
    /// The tree's parts fit together.
    pub open spec fn wf(&self) -> bool {
        &&& is_tree(self@)
        &&& self.root_id < self@.len()
    }

    /// A tree of one node that was never visited.
    pub fn new() -> (tree: MCTS<V>)
        ensures
            tree.wf(),
            tree.root_id == 0,
            exists|zero: V, prior: V, logit: V|
                #![auto]
                V::zero.ensures((), zero) && V::zero.ensures((), prior) && V::zero.ensures(
                    (),
                    logit,
                ) && tree@ == seq![NodeState::fresh(zero, prior, logit, None)],
    {
        let prior = V::zero();
        let logit = V::zero();
        let node = Node::new(prior, logit, None);
        let ghost zero = node@.total;
        let mut arena: Vec<Node<V>> = Vec::new();
        arena.push(node);
        let tree = MCTS { arena, root_id: 0 };
        assert(tree@ =~= seq![NodeState::fresh(zero, prior, logit, None)]);
        proof {
            lemma_childless(tree@, 0);
        }
        tree
    }

    /// The node at which searches start.
    pub fn root(&self) -> (node: &Node<V>)
        requires
            self.wf(),
        ensures
            node@ == self@[self.root_id as int],
    {
        &self.arena[self.root_id]
    }

    /// The node at which searches start, to be changed.
    pub fn root_mut(&mut self) -> (node: &mut Node<V>)
        requires
            old(self).wf(),
        ensures
            *node == old(self).arena@[old(self).root_id as int],
            final(self).root_id == old(self).root_id,
            final(self).arena@ == old(self).arena@.update(old(self).root_id as int, *final(node)),
    {
        &mut self.arena[self.root_id]
    }

    /// Adds a node behind the others, and returns its place. A tree stays one when the node
    /// hangs below one of its nodes, was not visited more often than that, and has no
    /// children.
    pub fn push_node(&mut self, node: Node<V>) -> (id: NodeId)
        ensures
            final(self).root_id == old(self).root_id,
            final(self).arena@ == old(self).arena@.push(node),
            final(self)@ == old(self)@.push(node@),
            id == old(self)@.len(),
            old(self).wf() && fits_below(old(self)@, node@) ==> final(self).wf(),
    {
        let ghost before = self@;
        self.arena.push(node);
        proof {
            assert(self@ =~= before.push(node@));
            if is_tree(before) && fits_below(before, node@) {
                lemma_push_keeps_tree(before, node@);
            }
        }
        self.arena.len() - 1
    }

    /// Empties the tree: what remains is one node that was never visited.
    pub fn reset(&mut self)
        ensures
            final(self).wf(),
            final(self).root_id == 0,
            exists|zero: V, prior: V, logit: V|
                #![auto]
                V::zero.ensures((), zero) && V::zero.ensures((), prior) && V::zero.ensures(
                    (),
                    logit,
                ) && final(self)@ == seq![NodeState::fresh(zero, prior, logit, None)],
    {
        self.arena.clear();
        self.root_id = 0;
        let prior = V::zero();
        let logit = V::zero();
        let node = Node::new(prior, logit, None);
        let ghost zero = node@.total;
        self.arena.push(node);
        assert(self@ =~= seq![NodeState::fresh(zero, prior, logit, None)]);
        proof {
            lemma_childless(self@, 0);
        }
    }

    /// Makes the node that `action` leads to from the root the new root. The rest of the
    /// tree stays as it is.
    pub fn reuse_subtree(&mut self, action: ActionId)
        requires
            old(self).wf(),
            old(self)@[old(self).root_id as int].children.contains_key(action),
        ensures
            final(self).wf(),
            final(self)@ == old(self)@,
            final(self).root_id == old(self)@[old(self).root_id as int].children[action],
    {
        let child: Option<&NodeId> = self.arena[self.root_id].children.get(&action);
        if let Some(id) = child {
            let id: NodeId = *id;
            assert(leads_to(self@, self.root_id as int, action, id as int));
            self.root_id = id;
        }
    }

    /// The children of a node with the actions that lead to them. In which order they come
    /// is left open.
    pub fn children_vec(&self, node_idx: NodeId) -> (list: Vec<(ActionId, NodeId)>)
        requires
            node_idx < self@.len(),
        ensures
            lists(self@[node_idx as int].children, list@),
    {
        let mut list: Vec<(ActionId, NodeId)> = Vec::new();
        let children = &self.arena[node_idx].children;
        let entries = children.iter();
        let ghost all = entries.remaining();
        for (action, child) in it: entries
            invariant
                it.seq() == all,
                list@.len() == it.index(),
                forall|k: int|
                    0 <= k < it.index() ==> #[trigger] list@[k] == (*all[k].0, *all[k].1),
        {
            list.push((*action, *child));
        }
        proof {
            assert forall|i: int, j: int| 0 <= i < j < list@.len() implies (#[trigger] list@[i]).0
                != (#[trigger] list@[j]).0 by {
                assert(children@.contains_key(*all[i].0) && children@.contains_key(*all[j].0));
                assert(all[i] != all[j]);
            }
            assert forall|a: ActionId| #[trigger] children@.contains_key(a) implies list@.contains(
                (a, children@[a]),
            ) by {
                assert(all.contains((&a, &children@[a])));
                let k = choose|k: int| 0 <= k < all.len() && all[k] == (&a, &children@[a]);
                assert(list@[k] == (a, children@[a]));
            }
            assert forall|i: int| 0 <= i < list@.len() implies children@.contains_key(
                (#[trigger] list@[i]).0,
            ) && children@[list@[i].0] == list@[i].1 by {
                assert(children@.contains_key(*all[i].0));
            }
        }
        list
    }

}

impl<V: Real> MCTS<V> {
    /// Backs `value` up from `leaf_idx`: see `backed_up`.
    pub fn backprop_from<G: Scored<V>>(&mut self, leaf_idx: NodeId, value: V)
        requires
            exact::<V>(),
            old(self).wf(),
            leaf_idx < old(self)@.len(),
            old(self)@[0].visits < u32::MAX,
        ensures
            final(self).wf(),
            final(self).root_id == old(self).root_id,
            exists|values: Seq<V>|
                backed_up::<G, V>(old(self)@, final(self)@, leaf_idx as int, value, values),
    {
        let ghost before = self@;
        let ghost path = lineage(before, leaf_idx as int);
        proof {
            law_lineage(before, leaf_idx as int);
        }
        let mut idx: NodeId = leaf_idx;
        let mut value = value;
        let ghost first = value;
        let ghost mut values: Seq<V> = seq![value];
        let ghost mut done: int = 0;
        assert(path.take(0) =~= Seq::empty());
        loop
            invariant_except_break
                done < path.len(),
                values.len() == done + 1,
                idx == path[done],
                value == values[done],
            invariant
                exact::<V>(),
                is_tree(before),
                path == lineage(before, leaf_idx as int),
                leaf_idx < before.len(),
                before[0].visits < u32::MAX,
                self.root_id == old(self).root_id,
                0 <= done <= path.len(),
                values[0] == first,
                forall|k: int| 0 < k < values.len() ==> #[trigger] flips::<G, V>(values, k),
                partly_backed_up(before, self@, leaf_idx as int, values, done),
            ensures
                done == path.len(),
                values.len() == done,
            decreases path.len() - done,
        {
            proof {
                law_lineage(before, leaf_idx as int);
                law_top_is_busiest(before, idx as int);
                assert(!path.take(done).contains(idx as int)) by {
                    if path.take(done).contains(idx as int) {
                        let k = choose|k: int| 0 <= k < done && path.take(done)[k] == idx;
                        assert(path[k] == path[done]);
                    }
                }
                assert(self@[idx as int] == before[idx as int]);
            }
            let ghost held = self@;
            self.arena[idx].add_visit(value);
            proof {
                let now = self@;
                assert(now =~= held.update(idx as int, self.arena@[idx as int]@));
                assert(path.take(done + 1) =~= path.take(done).push(idx as int));
                assert forall|i: int| 0 <= i < before.len() implies #[trigger] now[i] == (if path.take(
                    done + 1,
                ).contains(i) {
                    NodeState { visits: before[i].visits + 1, total: now[i].total, ..before[i] }
                } else {
                    before[i]
                }) by {
                    if path.take(done).contains(i) {
                        let k = choose|k: int| 0 <= k < done && path.take(done)[k] == i;
                        assert(path.take(done + 1)[k] == i);
                    }
                    if i == idx {
                        assert(path.take(done + 1)[done] == i);
                    }
                }
                assert forall|k: int| 0 <= k < done + 1 implies V::plus.ensures(
                    (before[path[k]].total, #[trigger] values[k]),
                    now[path[k]].total,
                ) by {
                    if k < done {
                        assert(path[done] < path[k]);
                    }
                }
                done = done + 1;
                lemma_lineage_end(before, leaf_idx as int, done - 1);
            }
            match self.arena[idx].parent {
                Some(parent) => {
                    idx = parent;
                    let flipped = G::flip_perspective(value);
                    proof {
                        assert(climbs(before, path, done));
                        let longer = values.push(flipped);
                        assert forall|k: int| 0 < k < longer.len() implies #[trigger] flips::<G, V>(longer, k) by {
                            assert(k < values.len() ==> flips::<G, V>(values, k));
                        }
                        values = longer;
                    }
                    value = flipped;
                },
                None => {
                    break;
                },
            }
        }
        proof {
            assert(path.take(path.len() as int) =~= path);
            assert(backed_up::<G, V>(before, self@, leaf_idx as int, first, values));
            lemma_backed_up_is_tree::<G, V>(before, self@, leaf_idx as int, first, values);
        }
    }
}

/// A lineage goes on exactly as long as there is a parent.
proof fn lemma_lineage_end<V>(tree: Seq<NodeState<V>>, id: int, k: int)
    requires
        is_tree(tree),
        0 <= id < tree.len(),
        0 <= k < lineage(tree, id).len(),
    ensures
        tree[lineage(tree, id)[k]].parent is None <==> k == lineage(tree, id).len() - 1,
{
    let path = lineage(tree, id);
    law_lineage(tree, id);
    if k < path.len() - 1 {
        assert(climbs(tree, path, k + 1));
    }
}

proof fn lemma_backed_up_is_tree<G: Scored<V>, V: Real>(
    before: Seq<NodeState<V>>,
    after: Seq<NodeState<V>>,
    leaf: int,
    value: V,
    values: Seq<V>,
)
    requires
        is_tree(before),
        0 <= leaf < before.len(),
        backed_up::<G, V>(before, after, leaf, value, values),
    ensures
        is_tree(after),
{
    let path = lineage(before, leaf);
    law_lineage(before, leaf);
    assert forall|i: int| 0 < i < after.len() implies #[trigger] hangs(after, i) by {
        assert(hangs(before, i));
        let parent = before[i].parent->0 as int;
        assert(after[parent].visits >= before[parent].visits);
        if path.contains(i) {
            let k = choose|k: int| 0 <= k < path.len() && path[k] == i;
            assert(k < path.len() - 1);
            assert(climbs(before, path, k + 1));
            assert(path[k + 1] == parent);
            assert(path.contains(parent));
        }
    }
    assert forall|i: int, a: ActionId, c: int| #[trigger] leads_to(after, i, a, c) implies i < c
        < after.len() && after[c].parent is Some && after[c].parent->0 == i by {
        assert(leads_to(before, i, a, c));
        assert(after[c].parent == before[c].parent);
    }
    assert forall|i: int, a: ActionId, b: ActionId, c: int| #[trigger]
        leads_to(after, i, a, c) && #[trigger] leads_to(after, i, b, c) implies a == b by {
        assert(leads_to(before, i, a, c));
        assert(leads_to(before, i, b, c));
    }
    assert forall|i: int| 0 <= i < after.len() implies #[trigger] shares_visits(after, i) by {
        assert(shares_visits(before, i));
        assert forall|list: Seq<(ActionId, NodeId)>| #[trigger]
            picks(after[i].children, list) implies visits_of(after, list) <= after[i].visits by {
            assert(picks(before[i].children, list));
            lemma_visits_grow::<G, V>(before, after, leaf, value, values, i, list);
        }
    }
}

/// How many of the listed nodes stand on the path.
spec fn passed(path: Seq<int>, list: Seq<(ActionId, NodeId)>) -> int
    decreases list.len(),
{
    if list.len() == 0 {
        0
    } else {
        passed(path, list.drop_last()) + (if path.contains(list.last().1 as int) {
            1int
        } else {
            0int
        })
    }
}

/// Of the children of a node a lineage passes at most one, and none unless it passes the
/// node.
proof fn lemma_passes_one_child<V>(
    tree: Seq<NodeState<V>>,
    leaf: int,
    id: int,
    list: Seq<(ActionId, NodeId)>,
)
    requires
        is_tree(tree),
        0 <= leaf < tree.len(),
        0 <= id < tree.len(),
        picks(tree[id].children, list),
    ensures
        ({
            let path = lineage(tree, leaf);
            let n = passed(path, list);
            &&& 0 <= n <= 1
            &&& n == 1 ==> path.contains(id)
            &&& n == 1 ==> exists|k: int|
                0 <= k < list.len() && path.contains((#[trigger] list[k]).1 as int)
        }),
    decreases list.len(),
{
    let path = lineage(tree, leaf);
    if list.len() > 0 {
        let front = list.drop_last();
        assert(picks(tree[id].children, front)) by {
            assert forall|i: int| 0 <= i < front.len() implies tree[id].children.contains_key(
                (#[trigger] front[i]).0,
            ) && tree[id].children[front[i].0] == front[i].1 by {
                assert(front[i] == list[i]);
            }
            assert forall|i: int, j: int| 0 <= i < j < front.len() implies (#[trigger] front[i]).0
                != (#[trigger] front[j]).0 by {
                assert(front[i] == list[i] && front[j] == list[j]);
            }
        }
        lemma_passes_one_child(tree, leaf, id, front);
        let n = list.len() - 1;
        let last = list[n];
        assert(list.last() == last);
        if passed(path, front) == 1 {
            let k = choose|k: int|
                0 <= k < front.len() && path.contains((#[trigger] front[k]).1 as int);
            assert(front[k] == list[k]);
        }
        if path.contains(last.1 as int) {
            lemma_parent_follows(tree, leaf, id, last.0, last.1 as int);
            if passed(path, front) == 1 {
                let k = choose|k: int|
                    0 <= k < front.len() && path.contains((#[trigger] front[k]).1 as int);
                assert(front[k] == list[k]);
                lemma_one_sibling_on_path(
                    tree,
                    leaf,
                    id,
                    list[k].0,
                    list[k].1 as int,
                    last.0,
                    last.1 as int,
                );
            }
        }
    }
}

proof fn lemma_parent_follows<V>(
    tree: Seq<NodeState<V>>,
    leaf: int,
    id: int,
    action: ActionId,
    child: int,
)
    requires
        is_tree(tree),
        0 <= leaf < tree.len(),
        leads_to(tree, id, action, child),
        lineage(tree, leaf).contains(child),
    ensures
        lineage(tree, leaf).contains(id),
{
    let path = lineage(tree, leaf);
    law_lineage(tree, leaf);
    let k = choose|k: int| 0 <= k < path.len() && path[k] == child;
    lemma_lineage_end(tree, leaf, k);
    assert(climbs(tree, path, k + 1));
    assert(path[k + 1] == id);
}

proof fn lemma_one_sibling_on_path<V>(
    tree: Seq<NodeState<V>>,
    leaf: int,
    id: int,
    a: ActionId,
    c: int,
    b: ActionId,
    d: int,
)
    requires
        is_tree(tree),
        0 <= leaf < tree.len(),
        leads_to(tree, id, a, c),
        leads_to(tree, id, b, d),
        lineage(tree, leaf).contains(c),
        lineage(tree, leaf).contains(d),
    ensures
        a == b,
{
    let path = lineage(tree, leaf);
    law_lineage(tree, leaf);
    let k = choose|k: int| 0 <= k < path.len() && path[k] == c;
    let l = choose|l: int| 0 <= l < path.len() && path[l] == d;
    lemma_lineage_end(tree, leaf, k);
    lemma_lineage_end(tree, leaf, l);
    assert(climbs(tree, path, k + 1));
    assert(climbs(tree, path, l + 1));
    assert(path[k + 1] == id && path[l + 1] == id);
    if k == l {
        assert(leads_to(tree, id, b, c));
    } else if k < l {
        assert(path[l + 1] < path[k + 1]);
    } else {
        assert(path[k + 1] < path[l + 1]);
    }
}

proof fn lemma_visits_grow<G: Scored<V>, V: Real>(
    before: Seq<NodeState<V>>,
    after: Seq<NodeState<V>>,
    leaf: int,
    value: V,
    values: Seq<V>,
    id: int,
    list: Seq<(ActionId, NodeId)>,
)
    requires
        is_tree(before),
        0 <= leaf < before.len(),
        0 <= id < before.len(),
        backed_up::<G, V>(before, after, leaf, value, values),
        picks(before[id].children, list),
        visits_of(before, list) <= before[id].visits,
    ensures
        visits_of(after, list) <= after[id].visits,
{
    lemma_passes_one_child(before, leaf, id, list);
    assert forall|k: int| 0 <= k < list.len() implies (#[trigger] list[k]).1 < before.len() by {
        assert(leads_to(before, id, list[k].0, list[k].1 as int));
    }
    lemma_visits_counted::<G, V>(before, after, leaf, value, values, list);
    assert(after[id].visits == before[id].visits + (if lineage(before, leaf).contains(id) {
        1int
    } else {
        0int
    }));
}

proof fn lemma_visits_counted<G: Scored<V>, V: Real>(
    before: Seq<NodeState<V>>,
    after: Seq<NodeState<V>>,
    leaf: int,
    value: V,
    values: Seq<V>,
    list: Seq<(ActionId, NodeId)>,
)
    requires
        is_tree(before),
        0 <= leaf < before.len(),
        backed_up::<G, V>(before, after, leaf, value, values),
        forall|k: int| 0 <= k < list.len() ==> (#[trigger] list[k]).1 < before.len(),
    ensures
        visits_of(after, list) == visits_of(before, list) + passed(lineage(before, leaf), list),
    decreases list.len(),
{
    if list.len() > 0 {
        let front = list.drop_last();
        assert forall|k: int| 0 <= k < front.len() implies (#[trigger] front[k]).1 < before.len() by {
            assert(front[k] == list[k]);
        }
        lemma_visits_counted::<G, V>(before, after, leaf, value, values, front);
        let c = list[list.len() - 1].1 as int;
        assert(list.last().1 == c);
        assert(after[c].visits == before[c].visits + (if lineage(before, leaf).contains(c) {
            1int
        } else {
            0int
        }));
    }
}

} // verus!
