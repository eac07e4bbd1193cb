//! Reading off what a search found.

use vstd::prelude::*;
use crate::mcts::game::{ActionId, Scored};
use crate::mcts::node::{
    hangs, is_tree, leads_to, lemma_keeps_sharing, shares_visits, NodeId, NodeState, MCTS,
};
use crate::number::{exact, Real, Score};

verus! {

broadcast use vstd::std_specs::hash::group_hash_axioms;

/// What a search found.
#[derive(Debug)]
pub struct SearchResult<V> {
    /// The chosen action, or the size of the action space when there is none.
    pub best_move: ActionId,
    /// The improved policy.
    pub policy: Vec<V>,
    /// The value of the root after the search.
    pub root_value: V,
    /// The evaluator's probabilities at the root.
    pub root_nn_prior: Vec<V>,
    /// The evaluator's value of the root.
    pub root_nn_value: V,
    /// The value of each action, zero where it was not tried.
    pub children_q: Vec<V>,
    /// How often each action was tried.
    pub children_visits: Vec<u32>,
}

/// `values` holds `width` zeros.
pub open spec fn zeros<V: Score>(values: Seq<V>, width: int) -> bool {
    &&& values.len() == width
    &&& forall|i: int| 0 <= i < width ==> V::zero.ensures((), #[trigger] values[i])
}

pub(crate) fn zero_vec<V: Score>(width: usize) -> (values: Vec<V>)
    ensures
        zeros(values@, width as int),
{
    let mut values: Vec<V> = Vec::new();
    for i in 0..width
        invariant
            zeros(values@, i as int),
    {
        values.push(V::zero());
    }
    values
}

impl<V: Score> SearchResult<V> {
    /// The answer where no action is legal: no move, and zeros.
    pub fn without_moves(action_shape: usize) -> (result: SearchResult<V>)
        ensures
            result.best_move == action_shape,
            zeros(result.policy@, action_shape as int),
            V::zero.ensures((), result.root_value),
            zeros(result.root_nn_prior@, action_shape as int),
            V::zero.ensures((), result.root_nn_value),
            zeros(result.children_q@, action_shape as int),
            result.children_visits@ == Seq::new(action_shape as nat, |i: int| 0u32),
    {
        let children_visits: Vec<u32> = vec![0u32; action_shape];
        assert(children_visits@ =~= Seq::new(action_shape as nat, |i: int| 0u32));
        SearchResult {
            best_move: action_shape,
            policy: zero_vec(action_shape),
            root_value: V::zero(),
            root_nn_prior: zero_vec(action_shape),
            root_nn_value: V::zero(),
            children_q: zero_vec(action_shape),
            children_visits,
        }
    }
}

/// The sum of counts.
pub open spec fn sum_of(counts: Seq<u32>) -> int
    decreases counts.len(),
{
    if counts.len() == 0 {
        0
    } else {
        sum_of(counts.drop_last()) + counts.last()
    }
}

proof fn lemma_sum_grows(counts: Seq<u32>, i: int)
    requires
        0 <= i <= counts.len(),
    ensures
        0 <= sum_of(counts.take(i)) <= sum_of(counts),
    decreases counts.len(),
{
    if i == counts.len() {
        assert(counts.take(i) =~= counts);
        if counts.len() > 0 {
            lemma_sum_grows(counts.drop_last(), 0);
        }
    } else {
        lemma_sum_grows(counts.drop_last(), i);
        assert(counts.drop_last().take(i) =~= counts.take(i));
    }
}

pub(crate) fn sum_visits(counts: &Vec<u32>) -> (s: u32)
    requires
        sum_of(counts@) <= u32::MAX,
    ensures
        s == sum_of(counts@),
{
    let mut s: u32 = 0;
    assert(counts@.take(0) =~= Seq::empty());
    for i in 0..counts.len()
        invariant
            sum_of(counts@) <= u32::MAX,
            s == sum_of(counts@.take(i as int)),
    {
        proof {
            lemma_sum_grows(counts@, i + 1);
            assert(counts@.take(i + 1).drop_last() =~= counts@.take(i as int));
        }
        s = s + counts[i];
    }
    assert(counts@.take(counts@.len() as int) =~= counts@);
    s
}

/// How often the node that `action` leads to from `id` was visited, 0 without such a node.
pub open spec fn visits_through<V>(tree: Seq<NodeState<V>>, id: int, action: ActionId) -> int {
    if tree[id].children.contains_key(action) {
        tree[tree[id].children[action] as int].visits
    } else {
        0
    }
}

/// `q` is the mean of the values that came back through the node.
pub open spec fn is_mean<V: Score>(node: NodeState<V>, q: V) -> bool {
    &&& node.visits > 0 ==> V::mean.ensures((node.total, node.visits as usize), q)
    &&& node.visits == 0 ==> V::zero.ensures((), q)
}

/// `value` is what `action` is worth at the node `id`: the mean of the node that it leads
/// to, as the player to move here sees it, or zero without such a node.
pub open spec fn is_action_value<G: Scored<V>, V: Real>(
    tree: Seq<NodeState<V>>,
    id: int,
    action: ActionId,
    value: V,
) -> bool {
    if tree[id].children.contains_key(action) {
        exists|q: V|
            #[trigger] is_mean(tree[tree[id].children[action] as int], q) && value == G::flipped(q)
    } else {
        V::zero.ensures((), value)
    }
}

impl<V: Score> MCTS<V> {
    pub(crate) fn child(&self, node_idx: NodeId, action: ActionId) -> (child: Option<NodeId>)
        requires
            self.wf(),
            node_idx < self@.len(),
        ensures
            child is Some <==> self@[node_idx as int].children.contains_key(action),
            child is Some ==> child->0 == self@[node_idx as int].children[action] && child->0
                < self@.len(),
    {
        match self.arena[node_idx].children.get(&action) {
            Some(id) => {
                assert(leads_to(self@, node_idx as int, action, *id as int));
                Some(*id)
            },
            None => None,
        }
    }

    /// How often each action was tried at the root.
    pub fn children_visits(&self, action_shape: usize) -> (visits: Vec<u32>)
        requires
            self.wf(),
        ensures
            visits@.len() == action_shape,
            forall|a: int|
                0 <= a < action_shape ==> #[trigger] visits@[a] == visits_through(
                    self@,
                    self.root_id as int,
                    a as usize,
                ),
    {
        let mut visits: Vec<u32> = Vec::new();
        for a in 0..action_shape
            invariant
                self.wf(),
                visits@.len() == a,
                forall|b: int|
                    0 <= b < a ==> #[trigger] visits@[b] == visits_through(
                        self@,
                        self.root_id as int,
                        b as usize,
                    ),
        {
            match self.child(self.root_id, a) {
                Some(id) => {
                    assert(self@[id as int] == self.arena@[id as int]@);
                    visits.push(self.arena[id].visit_count);
                },
                None => {
                    visits.push(0);
                },
            }
        }
        visits
    }

}

impl<V: Real> MCTS<V> {
    /// What each action is worth at the root.
    pub fn children_q<G: Scored<V>>(&self, action_shape: usize) -> (values: Vec<V>)
        requires
            exact::<V>(),
            self.wf(),
        ensures
            values@.len() == action_shape,
            forall|a: int|
                0 <= a < action_shape ==> is_action_value::<G, V>(
                    self@,
                    self.root_id as int,
                    a as usize,
                    #[trigger] values@[a],
                ),
    {
        let mut values: Vec<V> = Vec::new();
        for a in 0..action_shape
            invariant
                exact::<V>(),
                self.wf(),
                values@.len() == a,
                forall|b: int|
                    0 <= b < a ==> is_action_value::<G, V>(
                        self@,
                        self.root_id as int,
                        b as usize,
                        #[trigger] values@[b],
                    ),
        {
            match self.child(self.root_id, a) {
                Some(id) => {
                    assert(self@[id as int] == self.arena@[id as int]@);
                    let q = self.arena[id].q();
                    assert(is_mean(self@[id as int], q));
                    values.push(G::flip_perspective(q));
                },
                None => {
                    values.push(V::zero());
                },
            }
        }
        values
    }
}

impl<V: Score> MCTS<V> {
    /// Replaces the probabilities of the listed children: `priors[k]` is the new one of
    /// `children[k]`.
    pub fn set_priors(&mut self, children: &Vec<(ActionId, NodeId)>, priors: &Vec<V>)
        requires
            old(self).wf(),
            children@.len() == priors@.len(),
            forall|k: int|
                0 <= k < children@.len() ==> (#[trigger] children@[k]).1 < old(self)@.len(),
            forall|k: int, l: int|
                0 <= k < l < children@.len() ==> (#[trigger] children@[k]).1 != (
                #[trigger] children@[l]).1,
        ensures
            final(self).wf(),
            final(self).root_id == old(self).root_id,
            final(self)@.len() == old(self)@.len(),
            forall|k: int|
                0 <= k < children@.len() ==> final(self)@[(#[trigger] children@[k]).1 as int] == (
                NodeState { prior: priors@[k], ..old(self)@[children@[k].1 as int] }),
            forall|i: int|
                0 <= i < old(self)@.len() && (forall|k: int|
                    0 <= k < children@.len() ==> (#[trigger] children@[k]).1 != i)
                    ==> #[trigger] final(self)@[i] == old(self)@[i],
    {
        let ghost before = self@;
        for k in 0..children.len()
            invariant
                self.root_id == old(self).root_id,
                children@.len() == priors@.len(),
                before == old(self)@,
                self@.len() == before.len(),
                forall|j: int|
                    0 <= j < children@.len() ==> (#[trigger] children@[j]).1 < before.len(),
                forall|j: int, l: int|
                    0 <= j < l < children@.len() ==> (#[trigger] children@[j]).1 != (
                    #[trigger] children@[l]).1,
                forall|j: int|
                    0 <= j < k ==> self@[(#[trigger] children@[j]).1 as int] == (NodeState {
                        prior: priors@[j],
                        ..before[children@[j].1 as int]
                    }),
                forall|i: int|
                    0 <= i < before.len() && (forall|j: int|
                        0 <= j < k ==> (#[trigger] children@[j]).1 != i) ==> #[trigger] self@[i]
                        == before[i],
        {
            let ghost held = self@;
            let id: NodeId = children[k].1;
            assert(held[id as int] == before[id as int]);
            self.arena[id].prior = priors[k];
            assert(self@ =~= held.update(
                id as int,
                NodeState { prior: priors@[k as int], ..held[id as int] },
            ));
        }
        proof {
            lemma_priors_do_not_matter(before, self@, children@);
        }
    }
}

proof fn lemma_priors_do_not_matter<V>(
    before: Seq<NodeState<V>>,
    after: Seq<NodeState<V>>,
    children: Seq<(ActionId, NodeId)>,
)
    requires
        is_tree(before),
        after.len() == before.len(),
        forall|k: int|
            0 <= k < children.len() ==> (#[trigger] after[children[k].1 as int]) == (NodeState {
                prior: after[children[k].1 as int].prior,
                ..before[children[k].1 as int]
            }),
        forall|i: int|
            0 <= i < before.len() && (forall|k: int|
                0 <= k < children.len() ==> (#[trigger] children[k]).1 != i) ==> #[trigger] after[i]
                == before[i],
    ensures
        is_tree(after),
{
    assert forall|i: int| 0 <= i < before.len() implies (#[trigger] after[i]) == (NodeState {
        prior: after[i].prior,
        ..before[i]
    }) by {
        if exists|k: int| 0 <= k < children.len() && (#[trigger] children[k]).1 == i {
            let k = choose|k: int| 0 <= k < children.len() && (#[trigger] children[k]).1 == i;
            assert(after[children[k].1 as int] == after[i]);
        }
    }
    lemma_same_links(before, after);
}

/// A tree stays a tree when the visit counts, values, parents and children stay.
pub proof fn lemma_same_links<V>(before: Seq<NodeState<V>>, after: Seq<NodeState<V>>)
    requires
        is_tree(before),
        after.len() == before.len(),
        forall|i: int|
            0 <= i < before.len() ==> {
                &&& (#[trigger] after[i]).visits == before[i].visits
                &&& after[i].parent == before[i].parent
                &&& after[i].children == before[i].children
                &&& after[i].raw == before[i].raw
            },
    ensures
        is_tree(after),
{
    assert(after[0].parent == before[0].parent && after[0].visits == before[0].visits);
    assert forall|i: int| 0 < i < after.len() implies #[trigger] hangs(after, i) by {
        assert(hangs(before, i));
        assert(after[i].visits == before[i].visits);
        let p = before[i].parent->0 as int;
        assert(after[p].visits == before[p].visits);
    }
    assert forall|i: int, a: ActionId, c: int| #[trigger] leads_to(after, i, a, c) implies i < c
        < after.len() && after[c].parent is Some && after[c].parent->0 == i by {
        assert(after[i].children == before[i].children);
        assert(leads_to(before, i, a, c));
        assert(after[c].parent == before[c].parent);
    }
    assert forall|i: int, a: ActionId, b: ActionId, c: int| #[trigger]
        leads_to(after, i, a, c) && #[trigger] leads_to(after, i, b, c) implies a == b by {
        assert(after[i].children == before[i].children);
        assert(leads_to(before, i, a, c));
        assert(leads_to(before, i, b, c));
    }
    assert forall|i: int| 0 <= i < after.len() implies #[trigger] shares_visits(after, i) by {
        assert(after[i].children == before[i].children);
        lemma_keeps_sharing(before, after, i);
    }
}

} // verus!
