//! Growing the tree, and reading off what hangs below the root.

use vstd::prelude::*;
use crate::mcts::game::ActionId;
use crate::mcts::node::{
    hangs, is_tree, leads_to, lemma_childless, lemma_keeps_sharing, picks, shares_visits, visits_of,
    Node, NodeId, NodeState, MCTS,
};
use crate::number::Score;

verus! {

broadcast use vstd::std_specs::hash::group_hash_axioms;

/// `children` with the first `count` of `actions` entered: `actions[k]` leads to the node
/// `base + k`.
pub open spec fn linked(
    children: Map<ActionId, NodeId>,
    actions: Seq<ActionId>,
    base: int,
    count: int,
) -> Map<ActionId, NodeId>
    decreases count,
{
    if count <= 0 {
        children
    } else {
        linked(children, actions, base, count - 1).insert(
            actions[count - 1],
            (base + count - 1) as usize,
        )
    }
}

/// Where an entry of `linked` comes from.
pub proof fn lemma_linked(
    children: Map<ActionId, NodeId>,
    actions: Seq<ActionId>,
    base: int,
    count: int,
)
    requires
        0 <= count <= actions.len(),
        0 <= base,
        base + count <= usize::MAX,
    ensures
        forall|a: ActionId| #[trigger]
            linked(children, actions, base, count).contains_key(a) <==> children.contains_key(a)
                || actions.take(count).contains(a),
        forall|a: ActionId| #[trigger]
            linked(children, actions, base, count).contains_key(a) ==> {
                let c = linked(children, actions, base, count)[a];
                ||| children.contains_key(a) && children[a] == c
                ||| base <= c < base + count && actions[c - base] == a
            },
        actions.take(count).no_duplicates() ==> forall|k: int|
            0 <= k < count ==> linked(children, actions, base, count)[#[trigger] actions[k]] == base + k,
    decreases count,
{
    if count == 0 {
        assert(actions.take(0) =~= Seq::empty());
    } else {
        lemma_linked(children, actions, base, count - 1);
        let shorter = actions.take(count - 1);
        let longer = actions.take(count);
        assert(longer =~= shorter.push(actions[count - 1]));
        assert forall|a: ActionId| longer.contains(a) <==> shorter.contains(a) || a == actions[count
            - 1] by {
            if shorter.contains(a) {
                let k = choose|k: int| 0 <= k < shorter.len() && shorter[k] == a;
                assert(longer[k] == a);
            }
            assert(longer[count - 1] == actions[count - 1]);
        }
        let rest = linked(children, actions, base, count - 1);
        let all = linked(children, actions, base, count);
        assert(all == rest.insert(actions[count - 1], (base + count - 1) as usize));
        assert forall|a: ActionId| #[trigger] all.contains_key(a) <==> children.contains_key(a)
            || longer.contains(a) by {
            assert(rest.contains_key(a) <==> children.contains_key(a) || shorter.contains(a));
        }
        assert forall|a: ActionId| #[trigger] all.contains_key(a) implies {
            let c = all[a];
            ||| children.contains_key(a) && children[a] == c
            ||| base <= c < base + count && actions[c - base] == a
        } by {
            if a != actions[count - 1] {
                assert(rest.contains_key(a));
            }
        }
        if longer.no_duplicates() {
            assert forall|i: int, j: int|
                0 <= i < shorter.len() && 0 <= j < shorter.len() && i != j implies shorter[i]
                != shorter[j] by {
                assert(longer[i] == shorter[i] && longer[j] == shorter[j]);
            }
            assert forall|k: int| 0 <= k < count implies linked(children, actions, base, count)[
                #[trigger] actions[k]
            ] == base + k by {
                if k < count - 1 {
                    assert(longer[k] != longer[count - 1]);
                }
            }
        }
    }
}

/// `after` is the tree `before` once the node `id` was expanded: it has the evaluator's
/// value `raw`, and each of `actions` leads to a new node with the numbers that `priors` and
/// `logits` hold for it. The new nodes stand behind the others, in the order of `actions`.
pub open spec fn expanded<V: Score>(
    before: Seq<NodeState<V>>,
    after: Seq<NodeState<V>>,
    id: int,
    actions: Seq<ActionId>,
    priors: Seq<V>,
    logits: Seq<V>,
    raw: V,
) -> bool {
    &&& after.len() == before.len() + actions.len()
    &&& forall|i: int|
        0 <= i < before.len() ==> #[trigger] after[i] == (if i == id {
            NodeState {
                raw: Some(raw),
                children: linked(
                    before[id].children,
                    actions,
                    before.len() as int,
                    actions.len() as int,
                ),
                ..before[id]
            }
        } else {
            before[i]
        })
    &&& forall|k: int|
        0 <= k < actions.len() ==> is_new_child(
            after[before.len() + k],
            id,
            priors,
            logits,
            #[trigger] actions[k],
        )
}

/// The node was just made as the child of `id` that `action` leads to.
pub open spec fn is_new_child<V: Score>(
    node: NodeState<V>,
    id: int,
    priors: Seq<V>,
    logits: Seq<V>,
    action: ActionId,
) -> bool {
    &&& V::zero.ensures((), node.total)
    &&& node == NodeState::fresh(
        node.total,
        priors[action as int],
        logits[action as int],
        Some(id as usize),
    )
}

/// An expanded tree is a tree.
pub proof fn law_expanded_is_tree<V: Score>(
    before: Seq<NodeState<V>>,
    after: Seq<NodeState<V>>,
    id: int,
    actions: Seq<ActionId>,
    priors: Seq<V>,
    logits: Seq<V>,
    raw: V,
)
    requires
        is_tree(before),
        0 <= id < before.len(),
        before[id].children.is_empty(),
        after.len() <= usize::MAX,
        expanded(before, after, id, actions, priors, logits, raw),
    ensures
        is_tree(after),
{
    let base = before.len() as int;
    let n = actions.len() as int;
    lemma_linked(before[id].children, actions, base, n);
    assert(after[0].parent == before[0].parent && after[0].visits == before[0].visits);
    assert forall|i: int| 0 < i < after.len() implies #[trigger] hangs(after, i) by {
        if i < base {
            assert(hangs(before, i));
            let parent = before[i].parent->0 as int;
            assert(after[parent].visits == before[parent].visits);
        } else {
            assert(is_new_child(after[base + (i - base)], id, priors, logits, actions[i - base]));
            assert(id > 0 ==> hangs(before, id));
            assert(after[id].visits == before[id].visits);
        }
    }
    assert forall|i: int, a: ActionId, c: int| #[trigger] leads_to(after, i, a, c) implies i < c
        < after.len() && after[c].parent is Some && after[c].parent->0 == i by {
        lemma_leads_in_expanded(before, after, id, actions, priors, logits, raw, i, a, c);
        if leads_to(before, i, a, c) {
            assert(after[c].parent == before[c].parent);
        } else {
            assert(is_new_child(after[base + (c - base)], id, priors, logits, actions[c - base]));
        }
    }
    assert forall|i: int, a: ActionId, b: ActionId, c: int| #[trigger]
        leads_to(after, i, a, c) && #[trigger] leads_to(after, i, b, c) implies a == b by {
        lemma_leads_in_expanded(before, after, id, actions, priors, logits, raw, i, a, c);
        lemma_leads_in_expanded(before, after, id, actions, priors, logits, raw, i, b, c);
    }
    assert forall|i: int| 0 <= i < after.len() && (#[trigger] after[i]).raw is None implies after[i].children.is_empty() by {
        if i < base {
            assert(after[i] == before[i]);
        } else {
            assert(is_new_child(after[base + (i - base)], id, priors, logits, actions[i - base]));
        }
    }
    assert forall|i: int| 0 <= i < after.len() implies #[trigger] shares_visits(after, i) by {
        if i == id {
            assert(id > 0 ==> hangs(before, id));
            assert(after[id].visits == before[id].visits);
            assert forall|list: Seq<(ActionId, NodeId)>| #[trigger]
                picks(after[id].children, list) implies visits_of(after, list)
                <= after[id].visits by {
                assert forall|k: int| 0 <= k < list.len() implies after[(
                #[trigger] list[k]).1 as int].visits == 0 by {
                    let c = list[k].1 as int;
                    assert(after[id].children.contains_key(list[k].0));
                    assert(!before[id].children.contains_key(list[k].0));
                    assert(is_new_child(
                        after[base + (c - base)],
                        id,
                        priors,
                        logits,
                        actions[c - base],
                    ));
                }
                lemma_no_visits(after, list);
            }
        } else if i < base {
            assert(after[i] == before[i]);
            assert forall|k: int| 0 <= k < base implies (#[trigger] after[k]).visits
                == before[k].visits by {}
            lemma_keeps_sharing(before, after, i);
        } else {
            assert(is_new_child(after[base + (i - base)], id, priors, logits, actions[i - base]));
            lemma_childless(after, i);
        }
    }
}

proof fn lemma_no_visits<V>(tree: Seq<NodeState<V>>, list: Seq<(ActionId, NodeId)>)
    requires
        forall|k: int|
            0 <= k < list.len() ==> tree[(#[trigger] list[k]).1 as int].visits == 0,
    ensures
        visits_of(tree, list) == 0,
    decreases list.len(),
{
    if list.len() > 0 {
        let front = list.drop_last();
        assert forall|k: int| 0 <= k < front.len() implies tree[(#[trigger] front[k]).1 as int].visits
            == 0 by {
            assert(front[k] == list[k]);
        }
        lemma_no_visits(tree, front);
        assert(list.last() == list[list.len() - 1]);
    }
}

/// In an expanded tree an action leads where it did before, or else from the expanded node
/// to a new one.
pub proof fn lemma_leads_in_expanded<V: Score>(
    before: Seq<NodeState<V>>,
    after: Seq<NodeState<V>>,
    id: int,
    actions: Seq<ActionId>,
    priors: Seq<V>,
    logits: Seq<V>,
    raw: V,
    parent: int,
    action: ActionId,
    child: int,
)
    requires
        is_tree(before),
        0 <= id < before.len(),
        after.len() <= usize::MAX,
        expanded(before, after, id, actions, priors, logits, raw),
        leads_to(after, parent, action, child),
    ensures
        ({
            ||| leads_to(before, parent, action, child) && child < before.len()
            ||| parent == id && before.len() <= child < after.len() && actions[child
                - before.len()] == action
        }),
{
    let base = before.len() as int;
    lemma_linked(before[id].children, actions, base, actions.len() as int);
    if parent >= base {
        assert(is_new_child(
            after[base + (parent - base)],
            id,
            priors,
            logits,
            actions[parent - base],
        ));
    } else {
        assert(after[parent].children.contains_key(action));
        if before[parent].children.contains_key(action) && before[parent].children[action]
            == child {
            assert(leads_to(before, parent, action, child));
        }
    }
}

impl<V: Score> MCTS<V> {
    /// Expands a leaf: see `expanded`. Without actions nothing changes.
    pub fn expand_node(
        &mut self,
        node_idx: NodeId,
        actions: &Vec<ActionId>,
        priors: &Vec<V>,
        logits: &Vec<V>,
        raw_value: V,
    )
        requires
            old(self).wf(),
            node_idx < old(self)@.len(),
            old(self)@[node_idx as int].leaf(),
            forall|k: int|
                0 <= k < actions@.len() ==> (#[trigger] actions@[k]) < priors@.len()
                    && actions@[k] < logits@.len(),
        ensures
            final(self).wf(),
            final(self).root_id == old(self).root_id,
            actions@.len() == 0 ==> final(self)@ == old(self)@,
            actions@.len() > 0 ==> expanded(
                old(self)@,
                final(self)@,
                node_idx as int,
                actions@,
                priors@,
                logits@,
                raw_value,
            ),
    {
        if actions.len() == 0 {
            return;
        }
        let ghost before = self@;
        let ghost base = before.len() as int;
        self.arena[node_idx].raw_value = Some(raw_value);
        let ghost start = self@;
        assert(start =~= before.update(
            node_idx as int,
            NodeState { raw: Some(raw_value), ..before[node_idx as int] },
        ));
        for k in 0..actions.len()
            invariant
                self.root_id == old(self).root_id,
                base == before.len(),
                node_idx < base,
                forall|k: int|
                    0 <= k < actions@.len() ==> (#[trigger] actions@[k]) < priors@.len()
                        && actions@[k] < logits@.len(),
                self@.len() == base + k,
                forall|i: int|
                    0 <= i < base ==> #[trigger] self@[i] == (if i == node_idx {
                        NodeState {
                            raw: Some(raw_value),
                            children: linked(
                                before[node_idx as int].children,
                                actions@,
                                base,
                                k as int,
                            ),
                            ..before[node_idx as int]
                        }
                    } else {
                        before[i]
                    }),
                forall|j: int|
                    0 <= j < k ==> is_new_child(
                        self@[base + j],
                        node_idx as int,
                        priors@,
                        logits@,
                        #[trigger] actions@[j],
                    ),
        {
            let action: ActionId = actions[k];
            let ghost held = self@;
            let child = Node::new(priors[action], logits[action], Some(node_idx));
            let ghost made = child@;
            self.arena.push(child);
            let child_id: NodeId = self.arena.len() - 1;
            self.arena[node_idx].children.insert(action, child_id);
            proof {
                let grown = NodeState {
                    children: held[node_idx as int].children.insert(action, child_id),
                    ..held[node_idx as int]
                };
                assert(self@ =~= held.push(made).update(node_idx as int, grown));
                assert forall|j: int| 0 <= j < k + 1 implies is_new_child(
                    self@[base + j],
                    node_idx as int,
                    priors@,
                    logits@,
                    #[trigger] actions@[j],
                ) by {
                    if j < k {
                        assert(self@[base + j] == held[base + j]);
                    }
                }
            }
        }
        proof {
            assert(self@.len() == self.arena.len());
            assert(expanded(
                before,
                self@,
                node_idx as int,
                actions@,
                priors@,
                logits@,
                raw_value,
            ));
            law_expanded_is_tree(
                before,
                self@,
                node_idx as int,
                actions@,
                priors@,
                logits@,
                raw_value,
            );
        }
    }
}

} // verus!
