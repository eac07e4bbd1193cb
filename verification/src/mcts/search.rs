//! A search: what it needs from outside at each point, and what it does with the answer.

use vstd::prelude::*;
use crate::grid::VisitGrid;
use crate::mcts::answer::{
    grown_at, knows, law_answer_lasts, law_backup_keeps_answer, law_expansion_keeps_answer,
    law_expansion_stores_answer, law_known_probabilities, same_answer, simulated,
};
use crate::mcts::config::GumbelConfig;
use crate::mcts::expand::expanded;
use crate::mcts::game::{ActionId, Game, Scored};
use crate::mcts::halving::{halving_table, rows_as_ints, visit_sequence, visit_table};
use crate::mcts::laws::{
    below, follows, law_backup_counts, law_backup_counts_one_try, law_below_stays,
    law_choices_are_legal, law_expansion_keeps_links, law_tries_are_visits, tries,
};
use crate::mcts::node::{
    backed_up, is_tree, law_lineage, law_top_is_busiest, leads_to, lists, NodeId, NodeState, MCTS,
};
use crate::mcts::policy::{
    improved, interior_keys, is_raw_prior, legal_shares, root_keys, root_value, root_worth,
    scattered, softmax_legal,
};
use crate::mcts::read::{is_action_value, sum_of, visits_through, SearchResult};
use crate::mcts::select::{
    considered_at_first, considered_keys, considered_visit, first_largest,
    law_considered_visits_follow_sequence,
};
use crate::mcts::value::{completed, lemma_countable};
use crate::number::{exact, v_key, v_low, v_zero, Real, Score};

verus! {

/// What a search needs before its first simulation.
pub enum RootRequest {
    /// No action is legal: there is nothing to search.
    NoMoves,
    /// The root is expanded already.
    Known,
    /// The evaluator's answer for this input, to expand the root with.
    Evaluate(Vec<i32>),
}

/// What a simulation needs once it has come down to a leaf.
pub enum Step<V> {
    /// All simulations are finished.
    Done,
    /// Nothing but the end of the simulation: the game is over and returns this number.
    Terminal(V),
    /// Nothing but the end of the simulation: no action is legal.
    DeadEnd,
    /// The evaluator's answer for this input, to expand the leaf with.
    Evaluate(Vec<i32>),
}

impl<V: Score> MCTS<V> {
    /// What a search of `game` on this tree needs before its first simulation.
    pub fn root_request<G: Game>(&self, game: &G) -> (request: RootRequest)
        requires
            self.wf(),
            game.ready(),
        ensures
            match request {
                RootRequest::NoMoves => G::actions(game@).len() == 0,
                RootRequest::Known => G::actions(game@).len() > 0
                    && self@[self.root_id as int].raw is Some,
                RootRequest::Evaluate(input) => G::actions(game@).len() > 0
                    && self@[self.root_id as int].raw is None && input@ == G::input(game@),
            },
    {
        if game.legal_actions().len() == 0 {
            return RootRequest::NoMoves;
        }
        if self.root().raw_value.is_some() {
            RootRequest::Known
        } else {
            RootRequest::Evaluate(game.encode())
        }
    }
}

impl<V: Real> MCTS<V> {
    /// Expands the root by the legal actions of `game` with the evaluator's answer: its
    /// numbers are turned into the probabilities of the actions.
    pub fn expand_root<G: Game>(&mut self, game: &G, logits: &Vec<V>, raw_value: V)
        requires
            exact::<V>(),
            old(self).wf(),
            old(self)@[old(self).root_id as int].leaf(),
            game.ready(),
            logits@.len() == G::width(game@),
        ensures
            final(self).wf(),
            final(self).root_id == old(self).root_id,
            G::actions(game@).len() == 0 ==> final(self)@ == old(self)@,
            G::actions(game@).len() > 0 ==> answered(
                old(self)@,
                final(self)@,
                old(self).root_id as int,
                G::actions(game@),
                logits@,
                raw_value,
            ),
            G::actions(game@).len() > 0 ==> knows(
                final(self)@,
                old(self).root_id as int,
                G::actions(game@),
                logits@,
                raw_value,
            ),
    {
        proof {
            game.lemma_ready();
            G::law_rules(game@, 0);
        }
        let actions = game.legal_actions();
        let root: NodeId = self.root_id;
        let priors = softmax_legal(logits, &actions);
        let ghost before = self@;
        self.expand_node(root, &actions, &priors, logits, raw_value);
        assert(actions@.len() > 0 ==> answered(
            before,
            self@,
            root as int,
            actions@,
            logits@,
            raw_value,
        )) by {
            assert(scattered(
                actions@,
                legal_shares(logits@, actions@),
                logits@.len() as int,
                v_zero(),
                priors@,
            ));
        }
        proof {
            assert(self@.len() == self.arena.len());
            if actions@.len() > 0 {
                law_expansion_stores_answer(
                    before,
                    self@,
                    root as int,
                    actions@,
                    priors@,
                    logits@,
                    raw_value,
                );
            }
        }
    }
}

/// `after` is the tree `before` once the node `id` was expanded by `actions` with the
/// evaluator's answer: its numbers, which the new nodes keep, are turned into the
/// probabilities of the actions.
pub open spec fn answered<V: Real>(
    before: Seq<NodeState<V>>,
    after: Seq<NodeState<V>>,
    id: int,
    actions: Seq<ActionId>,
    logits: Seq<V>,
    raw: V,
) -> bool {
    exists|priors: Seq<V>|
        {
            &&& #[trigger] scattered(
                actions,
                legal_shares(logits, actions),
                logits.len() as int,
                v_zero(),
                priors,
            )
            &&& expanded(before, after, id, actions, priors, logits, raw)
        }
}

/// The number with which a simulation ends where nothing is left to expand: what the finished
/// game returns, and zero when the game goes on without a legal action.
pub open spec fn settled<G: Scored<V>, V: Real>(state: G::V) -> V {
    match G::result(state) {
        Some(value) => value,
        None => v_zero(),
    }
}

/// The simulations of one search: how many are finished, and where the present one is.
pub struct SearchRun<G, V> {
    /// The game at the root.
    pub game: G,
    /// The game at the present node.
    pub sim_game: G,
    /// The present node.
    pub node: NodeId,
    /// How many simulations are finished.
    pub done: usize,
    pub config: GumbelConfig<V>,
    /// The visit counts that are considered at the root.
    pub table: VisitGrid,
}

impl<G: Scored<V>, V: Real> SearchRun<G, V> {
    /// The run and the tree it works on fit together.
    pub open spec fn runs_on(&self, tree: &MCTS<V>) -> bool {
        &&& tree.wf()
        &&& self.game.ready()
        &&& self.sim_game.ready()
        &&& G::width(self.sim_game@) == G::width(self.game@)
        &&& self.node < tree@.len()
        &&& below(tree@, tree.root_id as int, self.node as int)
        &&& self.done <= self.config.num_simulations
        &&& tree@[0].visits + self.config.num_simulations - self.done <= u32::MAX
        &&& self.config.max_visit_init + tree@[0].visits + self.config.num_simulations - self.done
            <= usize::MAX
        &&& rows_as_ints(self.table@) == visit_table(
            self.config.max_num_considered_actions as int,
            self.config.num_simulations as int,
        )
    }

    /// The present simulation is at the root.
    pub open spec fn at_root(&self, tree: &MCTS<V>) -> bool {
        &&& self.node == tree.root_id
        &&& self.sim_game@ == self.game@
    }

    /// The visit count that a child of the root must have to be considered at present.
    pub open spec fn considered(&self) -> int {
        visit_sequence(
            considered_at_first(self.config),
            self.config.num_simulations as int,
        )[self.done as int]
    }

    /// The same search, whatever the present simulation does.
    pub open spec fn same_search(&self, other: &SearchRun<G, V>) -> bool {
        &&& self.game == other.game
        &&& self.config == other.config
        &&& self.table == other.table
    }

    /// Starts a search of `game`: no simulation is finished.
    pub fn begin(tree: &MCTS<V>, game: &G, config: &GumbelConfig<V>) -> (run: SearchRun<G, V>)
        requires
            tree.wf(),
            game.ready(),
            tree@[0].visits + config.num_simulations <= u32::MAX,
            config.max_visit_init + tree@[0].visits + config.num_simulations <= usize::MAX,
            (config.max_num_considered_actions + 1) * config.num_simulations <= isize::MAX / 8,
            config.max_num_considered_actions < isize::MAX,
        ensures
            run.runs_on(tree),
            run.at_root(tree),
            run.game@ == game@,
            run.config == *config,
            run.done == 0,
    {
        let table = halving_table(config.max_num_considered_actions, config.num_simulations);
        SearchRun {
            game: game.duplicate(),
            sim_game: game.duplicate(),
            node: tree.root_id,
            done: 0,
            config: *config,
            table,
        }
    }

    fn considered_now(&self) -> (visits: usize)
        requires
            self.done < self.config.num_simulations,
            rows_as_ints(self.table@) == visit_table(
                self.config.max_num_considered_actions as int,
                self.config.num_simulations as int,
            ),
        ensures
            visits == self.considered(),
    {
        proof {
            law_considered_visits_follow_sequence(self.table@, self.config, self.done as int);
        }
        considered_visit(&self.table, &self.config, self.done)
    }

    fn select(&mut self, tree: &MCTS<V>, noises: &Vec<V>) -> (chosen: (ActionId, NodeId))
        requires
            exact::<V>(),
            old(self).runs_on(tree),
            old(self).done < old(self).config.num_simulations,
            !tree@[old(self).node as int].leaf(),
        ensures
            final(self).runs_on(tree),
            final(self).same_search(old(self)),
            final(self).done == old(self).done,
            final(self).node > old(self).node,
            prefers::<G, V>(
                tree@,
                tree.root_id as int,
                old(self).config,
                old(self).considered(),
                noises@,
                old(self).node as int,
                chosen,
            ),
            final(self).node == chosen.1,
            final(self).sim_game@ == G::next(old(self).sim_game@, chosen.0 as int),
    {
        let children = tree.children_vec(self.node);
        proof {
            let map = tree@[self.node as int].children;
            assert(children@.len() > 0) by {
                let a = choose|a: ActionId| map.contains_key(a);
                assert(map.contains_key(a)) by {
                    if forall|a: ActionId| !map.contains_key(a) {
                        assert(map =~= Map::empty());
                    }
                }
                assert(children@.contains((a, map[a])));
            }
            assert forall|k: int| 0 <= k < children@.len() implies leads_to(
                tree@,
                self.node as int,
                (#[trigger] children@[k]).0,
                children@[k].1 as int,
            ) by {}
            lemma_countable(tree@, self.node as int, children@, self.config);
        }
        let values = tree.completed_q_values::<G>(self.node, &children, &self.config);
        let chosen: (ActionId, NodeId) = if self.node == tree.root_id {
            let keys = tree.root_keys_of(&children, &values, noises);
            let visits: usize = self.considered_now();
            tree.select_root_child(visits, &children, &keys, V::low().key())
        } else {
            let keys = tree.interior_keys_of(&children, &values);
            tree.select_interior_child(self.node, &children, &keys)
        };
        proof {
            let keys = node_keys::<G, V>(
                tree@,
                tree.root_id as int,
                self.config,
                self.considered(),
                noises@,
                self.node as int,
                children@,
            );
            let best = choose|best: int|
                first_largest(keys, best) && chosen == #[trigger] children@[best];
            assert(first_largest(keys, best) && chosen == children@[best]);
            assert(leads_to(tree@, self.node as int, chosen.0, chosen.1 as int));
            self.sim_game.lemma_ready();
            G::law_rules(self.sim_game@, chosen.0);
        }
        self.sim_game.play(chosen.0);
        self.node = chosen.1;
        chosen
    }

    /// Goes on with the present simulation: from each node that has children down to the
    /// preferred child, until a leaf is reached, and tells what is needed there.
    pub fn advance(&mut self, tree: &MCTS<V>, noises: &Vec<V>) -> (step: Step<V>)
        requires
            exact::<V>(),
            old(self).runs_on(tree),
        ensures
            final(self).runs_on(tree),
            final(self).same_search(old(self)),
            final(self).done == old(self).done,
            step is Done <==> old(self).done == old(self).config.num_simulations,
            step is Done ==> *final(self) == *old(self),
            step !is Done ==> {
                let state = final(self).sim_game@;
                &&& exists|moves: Seq<(ActionId, NodeId)>|
                    {
                        &&& #[trigger] walks::<G, V>(
                            tree@,
                            tree.root_id as int,
                            old(self).config,
                            old(self).considered(),
                            noises@,
                            old(self).node as int,
                            moves,
                        )
                        &&& final(self).node == end_node(old(self).node as int, moves)
                        &&& state == end_state::<G>(old(self).sim_game@, moves)
                    }
                &&& tree@[final(self).node as int].leaf()
                &&& match step {
                    Step::Done => false,
                    Step::Terminal(value) => G::result(state) == Some(value),
                    Step::DeadEnd => G::result(state) is None && G::actions(state).len() == 0,
                    Step::Evaluate(input) => G::result(state) is None && G::actions(state).len()
                        > 0 && input@ == G::input(state),
                }
            },
            step !is Done && !tree@[old(self).node as int].leaf() ==> final(self).node > old(
                self,
            ).node,
    {
        if self.done == self.config.num_simulations {
            return Step::Done;
        }
        let ghost mut moves: Seq<(ActionId, NodeId)> = Seq::empty();
        assert(tree@[self.node as int] == tree.arena@[self.node as int]@);
        while !tree.arena[self.node].is_leaf()
            invariant
                exact::<V>(),
                self.runs_on(tree),
                self.same_search(old(self)),
                self.done == old(self).done,
                self.done < self.config.num_simulations,
                tree@[self.node as int] == tree.arena@[self.node as int]@,
                walks::<G, V>(
                    tree@,
                    tree.root_id as int,
                    old(self).config,
                    old(self).considered(),
                    noises@,
                    old(self).node as int,
                    moves,
                ),
                self.node == end_node(old(self).node as int, moves),
                self.sim_game@ == end_state::<G>(old(self).sim_game@, moves),
                moves.len() > 0 ==> self.node > old(self).node,
            decreases tree@.len() - self.node,
        {
            let chosen = self.select(tree, noises);
            proof {
                let longer = moves.push(chosen);
                assert(longer.drop_last() =~= moves);
                moves = longer;
                assert(tree@[self.node as int] == tree.arena@[self.node as int]@);
            }
        }
        proof {
            self.sim_game.lemma_ready();
            G::law_rules(self.sim_game@, 0);
            G::law_result(self.sim_game@);
        }
        match self.sim_game.terminal_value() {
            Some(value) => Step::Terminal(value),
            None => if self.sim_game.legal_actions().len() == 0 {
                Step::DeadEnd
            } else {
                Step::Evaluate(self.sim_game.encode())
            },
        }
    }

    /// Ends the present simulation where the game is over or no action is legal, and puts the
    /// next one at the root: see `settled`.
    pub fn settle(&mut self, tree: &mut MCTS<V>)
        requires
            exact::<V>(),
            old(self).runs_on(old(tree)),
            old(self).done < old(self).config.num_simulations,
            G::result(old(self).sim_game@) is Some || G::actions(old(self).sim_game@).len() == 0,
        ensures
            final(self).runs_on(final(tree)),
            final(self).at_root(final(tree)),
            final(self).same_search(old(self)),
            final(self).done == old(self).done + 1,
            final(tree).root_id == old(tree).root_id,
            simulated::<G, V>(old(tree)@, final(tree)@),
            exists|values: Seq<V>|
                backed_up::<G, V>(
                    old(tree)@,
                    final(tree)@,
                    old(self).node as int,
                    settled::<G, V>(old(self).sim_game@),
                    values,
                ),
            final(tree)@[old(tree).root_id as int].visits == old(
                tree,
            )@[old(tree).root_id as int].visits + 1,
            forall|id: int|
                0 <= id < old(tree)@.len() ==> #[trigger] same_answer(
                    old(tree)@,
                    final(tree)@,
                    id,
                ),
            old(self).node != old(tree).root_id && (forall|a: ActionId| #[trigger]
                old(tree)@[old(tree).root_id as int].children.contains_key(a) ==> a < G::width(
                    old(self).game@,
                )) ==> tries(
                final(tree)@,
                old(tree).root_id as int,
                G::width(old(self).game@),
            ) == tries(old(tree)@, old(tree).root_id as int, G::width(old(self).game@)) + 1,
    {
        let value: V = match self.sim_game.terminal_value() {
            Some(value) => value,
            None => V::zero(),
        };
        let ghost before = tree@;
        let ghost leaf = self.node as int;
        assert(value == settled::<G, V>(self.sim_game@));
        self.finish(tree, value);
        proof {
            let values = choose|values: Seq<V>|
                backed_up::<G, V>(before, tree@, leaf, value, values);
            assert(backed_up::<G, V>(before, tree@, leaf, value, values));
            assert(grown_at(before, before, leaf));
        }
    }

    /// Ends the present simulation with `value`, as the player to move at the present node
    /// sees it, and puts the next one at the root.
    fn finish(&mut self, tree: &mut MCTS<V>, value: V)
        requires
            exact::<V>(),
            old(self).runs_on(old(tree)),
            old(self).done < old(self).config.num_simulations,
        ensures
            final(self).runs_on(final(tree)),
            final(self).at_root(final(tree)),
            final(self).same_search(old(self)),
            final(self).done == old(self).done + 1,
            final(tree).root_id == old(tree).root_id,
            exists|values: Seq<V>|
                backed_up::<G, V>(old(tree)@, final(tree)@, old(self).node as int, value, values),
            final(tree)@[old(tree).root_id as int].visits == old(
                tree,
            )@[old(tree).root_id as int].visits + 1,
            forall|id: int|
                0 <= id < old(tree)@.len() ==> #[trigger] same_answer(
                    old(tree)@,
                    final(tree)@,
                    id,
                ),
            old(self).node != old(tree).root_id && (forall|a: ActionId| #[trigger]
                old(tree)@[old(tree).root_id as int].children.contains_key(a) ==> a < G::width(
                    old(self).game@,
                )) ==> tries(
                final(tree)@,
                old(tree).root_id as int,
                G::width(old(self).game@),
            ) == tries(old(tree)@, old(tree).root_id as int, G::width(old(self).game@)) + 1,
    {
        let ghost before = tree@;
        let ghost root = tree.root_id as int;
        let ghost leaf = self.node as int;
        let leaf_idx: NodeId = self.node;
        tree.backprop_from::<G>(leaf_idx, value);
        self.done = self.done + 1;
        self.node = tree.root_id;
        self.sim_game = self.game.duplicate();
        proof {
            let values = choose|values: Seq<V>|
                backed_up::<G, V>(before, tree@, leaf, value, values);
            law_lineage(before, leaf);
            law_backup_counts::<G, V>(before, tree@, root, leaf, value, values, 0);
            assert forall|id: int| 0 <= id < before.len() implies #[trigger] same_answer(
                before,
                tree@,
                id,
            ) by {
                law_backup_keeps_answer::<G, V>(before, tree@, leaf, value, values, id);
            }
            assert(tree@[0].visits <= before[0].visits + 1);
            self.game.lemma_ready();
            G::law_rules(self.game@, 0);
            let width = G::width(self.game@);
            if leaf != root && (forall|a: ActionId| #[trigger]
                before[root].children.contains_key(a) ==> a < width) {
                law_backup_counts_one_try::<G, V>(before, tree@, root, leaf, value, values, width);
            }
        }
    }

    /// Expands the present node with the evaluator's answer, whose numbers are turned into
    /// the probabilities of the actions, and ends the present simulation with the
    /// evaluator's value.
    pub fn expand(&mut self, tree: &mut MCTS<V>, logits: &Vec<V>, value: V)
        requires
            exact::<V>(),
            old(self).runs_on(old(tree)),
            old(self).done < old(self).config.num_simulations,
            old(tree)@[old(self).node as int].leaf(),
            G::actions(old(self).sim_game@).len() > 0,
            logits@.len() == G::width(old(self).sim_game@),
        ensures
            final(self).runs_on(final(tree)),
            final(self).at_root(final(tree)),
            final(self).same_search(old(self)),
            final(self).done == old(self).done + 1,
            final(tree).root_id == old(tree).root_id,
            simulated::<G, V>(old(tree)@, final(tree)@),
            exists|grown: Seq<NodeState<V>>, values: Seq<V>|
                {
                    &&& is_tree(grown)
                    &&& answered(
                        old(tree)@,
                        grown,
                        old(self).node as int,
                        G::actions(old(self).sim_game@),
                        logits@,
                        value,
                    )
                    &&& #[trigger] backed_up::<G, V>(
                        grown,
                        final(tree)@,
                        old(self).node as int,
                        value,
                        values,
                    )
                },
            final(tree)@[old(tree).root_id as int].visits == old(
                tree,
            )@[old(tree).root_id as int].visits + 1,
            knows(
                final(tree)@,
                old(self).node as int,
                G::actions(old(self).sim_game@),
                logits@,
                value,
            ),
            forall|id: int|
                0 <= id < old(tree)@.len() && id != old(self).node ==> #[trigger] same_answer(
                    old(tree)@,
                    final(tree)@,
                    id,
                ),
            old(self).node != old(tree).root_id && (forall|a: ActionId| #[trigger]
                old(tree)@[old(tree).root_id as int].children.contains_key(a) ==> a < G::width(
                    old(self).game@,
                )) ==> tries(
                final(tree)@,
                old(tree).root_id as int,
                G::width(old(self).game@),
            ) == tries(old(tree)@, old(tree).root_id as int, G::width(old(self).game@)) + 1,
    {
        let ghost before = tree@;
        let ghost root = tree.root_id as int;
        let ghost leaf = self.node as int;
        proof {
            self.sim_game.lemma_ready();
            G::law_rules(self.sim_game@, 0);
        }
        let actions = self.sim_game.legal_actions();
        let node_idx: NodeId = self.node;
        let priors = softmax_legal(logits, &actions);
        tree.expand_node(node_idx, &actions, &priors, logits, value);
        let ghost grown = tree@;
        assert(grown.len() == tree.arena.len());
        proof {
            assert(scattered(
                actions@,
                legal_shares(logits@, actions@),
                logits@.len() as int,
                v_zero(),
                priors@,
            ));
            assert(answered(before, grown, leaf, actions@, logits@, value));
            law_expansion_keeps_links(before, tree@, leaf, actions@, priors@, logits@, value);
            law_below_stays(before, tree@, root, leaf);
            assert(tree@[0].visits == before[0].visits);
            assert(tree@[root].visits == before[root].visits);
            self.game.lemma_ready();
            G::law_rules(self.game@, 0);
            if leaf != root {
                lemma_tries_stay(before, tree@, root, G::width(self.game@));
            }
        }
        self.finish(tree, value);
        proof {
            let values = choose|values: Seq<V>|
                backed_up::<G, V>(grown, tree@, leaf, value, values);
            assert(grown_at(before, grown, leaf));
            assert(backed_up::<G, V>(grown, tree@, leaf, value, values));
            law_expansion_stores_answer(
                before,
                grown,
                leaf,
                actions@,
                priors@,
                logits@,
                value,
            );
            assert(same_answer(grown, tree@, leaf));
            law_answer_lasts(grown, tree@, leaf, actions@, logits@, value);
            assert forall|id: int| 0 <= id < before.len() && id != leaf implies #[trigger] same_answer(
                before,
                tree@,
                id,
            ) by {
                law_expansion_keeps_answer(
                    before,
                    grown,
                    leaf,
                    actions@,
                    priors@,
                    logits@,
                    value,
                    id,
                );
                assert(same_answer(grown, tree@, id));
            }
        }
    }
}

/// Expanding another node leaves the tries at a node as they are.
proof fn lemma_tries_stay<V>(
    before: Seq<NodeState<V>>,
    after: Seq<NodeState<V>>,
    root: int,
    width: int,
)
    requires
        is_tree(before),
        0 <= root < before.len(),
        before.len() <= after.len(),
        width <= usize::MAX,
        after[root] == before[root],
        forall|i: int|
            0 <= i < before.len() ==> (#[trigger] after[i]).visits == before[i].visits,
    ensures
        tries(after, root, width) == tries(before, root, width),
    decreases width,
{
    if width > 0 {
        lemma_tries_stay(before, after, root, width - 1);
        let a = (width - 1) as usize;
        if before[root].children.contains_key(a) {
            let c = before[root].children[a] as int;
            assert(leads_to(before, root, a, c));
            assert(after[c].visits == before[c].visits);
        }
    }
}

/// Entries that hold the visits of the first actions add up to the tries of those actions.
proof fn lemma_tries_are_sum<V>(
    tree: Seq<NodeState<V>>,
    id: int,
    visits: Seq<u32>,
    n: int,
)
    requires
        0 <= n <= visits.len(),
        n <= usize::MAX,
        forall|a: int|
            0 <= a < n ==> #[trigger] visits[a] == visits_through(tree, id, a as usize),
    ensures
        sum_of(visits.take(n)) == tries(tree, id, n),
    decreases n,
{
    if n > 0 {
        lemma_tries_are_sum(tree, id, visits, n - 1);
        assert(visits.take(n).drop_last() =~= visits.take(n - 1));
        assert(visits.take(n).last() == visits[n - 1]);
    } else {
        assert(visits.take(0) =~= Seq::empty());
    }
}

impl<V: Real> MCTS<V> {
    /// What a finished search found. `best_move` is the action that was drawn. The
    /// evaluator's probabilities of the legal actions and its value are those with which the
    /// root was expanded.
    pub fn conclude<G: Scored<V>>(
        &self,
        config: &GumbelConfig<V>,
        action_shape: usize,
        legal: &Vec<ActionId>,
        best_move: ActionId,
    ) -> (result: SearchResult<V>)
        requires
            exact::<V>(),
            self.wf(),
            !self@[self.root_id as int].leaf(),
            forall|a: ActionId| #[trigger]
                self@[self.root_id as int].children.contains_key(a) ==> a < action_shape,
            legal@.no_duplicates(),
            forall|k: int|
                0 <= k < legal@.len() ==> #[trigger] self@[self.root_id as int].children.contains_key(
                    legal@[k],
                ),
            self@[0].visits < u32::MAX,
            config.max_visit_init + self@[0].visits <= usize::MAX,
        ensures
            result.best_move == best_move,
            is_raw_prior(
                self@,
                self.root_id as int,
                legal@,
                action_shape as int,
                result.root_nn_prior@,
            ),
            result.root_nn_value == self@[self.root_id as int].raw->0,
            forall|logits: Seq<V>, raw: V| #[trigger]
                knows(self@, self.root_id as int, legal@, logits, raw) ==> {
                    &&& result.root_nn_value == raw
                    &&& scattered(
                        legal@,
                        legal_shares(logits, legal@),
                        action_shape as int,
                        v_zero(),
                        result.root_nn_prior@,
                    )
                },
            exists|children: Seq<(ActionId, NodeId)>|
                lists(self@[self.root_id as int].children, children) && #[trigger] improved::<G, V>(
                    self@,
                    self.root_id as int,
                    children,
                    *config,
                    action_shape as int,
                    result.policy@,
                ),
            result.children_visits@.len() == action_shape,
            forall|a: int|
                0 <= a < action_shape ==> #[trigger] result.children_visits@[a] == visits_through(
                    self@,
                    self.root_id as int,
                    a as usize,
                ),
            result.children_q@.len() == action_shape,
            forall|a: int|
                0 <= a < action_shape ==> is_action_value::<G, V>(
                    self@,
                    self.root_id as int,
                    a as usize,
                    #[trigger] result.children_q@[a],
                ),
            sum_of(result.children_visits@) == tries(
                self@,
                self.root_id as int,
                action_shape as int,
            ),
            sum_of(result.children_visits@) <= self@[self.root_id as int].visits,
            result.root_value == root_worth(
                result.children_q@,
                result.children_visits@,
                result.root_nn_value,
            ),
    {
        let policy = self.improved_policy::<G>(config, action_shape);
        let ghost root = self.root_id as int;
        let ghost shown = policy@;
        let ghost listed = choose|children: Seq<(ActionId, NodeId)>|
            lists(self@[root].children, children) && #[trigger] improved::<G, V>(
                self@,
                root,
                children,
                *config,
                action_shape as int,
                shown,
            );
        let children_q = self.children_q::<G>(action_shape);
        let children_visits = self.children_visits(action_shape);
        assert(self@[self.root_id as int] == self.arena@[self.root_id as int]@);
        proof {
            assert forall|k: int| 0 <= k < legal@.len() implies (#[trigger] legal@[k])
                < action_shape by {
                assert(self@[root].children.contains_key(legal@[k]));
            }
            lemma_tries_are_sum(self@, root, children_visits@, action_shape as int);
            law_tries_are_visits(self@, root, action_shape as int);
            law_top_is_busiest(self@, root);
            assert(children_visits@.take(action_shape as int) =~= children_visits@);
        }
        let root_nn_prior = self.raw_prior(legal, action_shape);
        let root_nn_value: V = match self.root().raw_value {
            Some(raw) => raw,
            None => V::zero(),
        };
        proof {
            assert forall|logits: Seq<V>, raw: V| #[trigger]
                knows(self@, root, legal@, logits, raw) implies root_nn_value == raw && scattered(
                legal@,
                legal_shares(logits, legal@),
                action_shape as int,
                v_zero(),
                root_nn_prior@,
            ) by {
                law_known_probabilities(
                    self@,
                    root,
                    legal@,
                    logits,
                    raw,
                    action_shape as int,
                    root_nn_prior@,
                );
            }
        }
        let value: V = root_value(&children_q, &children_visits, root_nn_value);
        let result = SearchResult {
            best_move,
            policy,
            root_value: value,
            root_nn_prior,
            root_nn_value,
            children_q,
            children_visits,
        };
        assert(improved::<G, V>(
            self@,
            root,
            listed,
            *config,
            action_shape as int,
            result.policy@,
        ));
        result
    }
}

/// The keys by which the children of `node` are compared: at the root only those with the
/// considered visit count compete.
pub open spec fn node_keys<G: Scored<V>, V: Real>(
    tree: Seq<NodeState<V>>,
    root: int,
    config: GumbelConfig<V>,
    considered: int,
    noises: Seq<V>,
    node: int,
    children: Seq<(ActionId, NodeId)>,
) -> Seq<i64> {
    let values = completed::<G, V>(tree, node, children, config);
    if node == root {
        considered_keys(
            tree,
            children,
            considered,
            root_keys(tree, children, values, noises),
            v_key::<V>(v_low()),
        )
    } else {
        interior_keys(tree, children, values)
    }
}

/// A simulation goes from `node` to `choice`, an action with the child that it leads to: of
/// the children, in the order in which they are listed, it is the first with the largest
/// key. The order is left open.
pub open spec fn prefers<G: Scored<V>, V: Real>(
    tree: Seq<NodeState<V>>,
    root: int,
    config: GumbelConfig<V>,
    considered: int,
    noises: Seq<V>,
    node: int,
    choice: (ActionId, NodeId),
) -> bool {
    exists|children: Seq<(ActionId, NodeId)>, best: int|
        {
            &&& lists(tree[node].children, children)
            &&& #[trigger] first_largest(
                node_keys::<G, V>(tree, root, config, considered, noises, node, children),
                best,
            )
            &&& choice == children[best]
        }
}

/// The node to which the moves lead.
pub open spec fn end_node(start: int, moves: Seq<(ActionId, NodeId)>) -> int {
    if moves.len() == 0 {
        start
    } else {
        moves.last().1 as int
    }
}

/// The state of the game to which the moves lead.
pub open spec fn end_state<G: Game>(start: G::V, moves: Seq<(ActionId, NodeId)>) -> G::V
    decreases moves.len(),
{
    if moves.len() == 0 {
        start
    } else {
        G::next(end_state::<G>(start, moves.drop_last()), moves.last().0 as int)
    }
}

/// From `start` on each move is the preferred one.
pub open spec fn walks<G: Scored<V>, V: Real>(
    tree: Seq<NodeState<V>>,
    root: int,
    config: GumbelConfig<V>,
    considered: int,
    noises: Seq<V>,
    start: int,
    moves: Seq<(ActionId, NodeId)>,
) -> bool
    decreases moves.len(),
{
    moves.len() > 0 ==> {
        let before = moves.drop_last();
        &&& walks::<G, V>(tree, root, config, considered, noises, start, before)
        &&& !tree[end_node(start, before)].leaf()
        &&& prefers::<G, V>(
            tree,
            root,
            config,
            considered,
            noises,
            end_node(start, before),
            moves.last(),
        )
    }
}

/// On a tree that follows the game every preferred move is legal, and a simulation always
/// has the game in the state that belongs to its node.
pub proof fn law_simulations_play_legal_moves<G: Scored<V>, V: Real>(
    tree: Seq<NodeState<V>>,
    games: Seq<G::V>,
    root: int,
    config: GumbelConfig<V>,
    considered: int,
    noises: Seq<V>,
    start: int,
    moves: Seq<(ActionId, NodeId)>,
)
    requires
        is_tree(tree),
        follows::<G, V>(tree, games),
        0 <= start < tree.len(),
        walks::<G, V>(tree, root, config, considered, noises, start, moves),
    ensures
        0 <= end_node(start, moves) < tree.len(),
        end_state::<G>(games[start], moves) == games[end_node(start, moves)],
        moves.len() > 0 ==> G::actions(end_state::<G>(games[start], moves.drop_last())).contains(
            moves.last().0,
        ),
    decreases moves.len(),
{
    if moves.len() > 0 {
        let before = moves.drop_last();
        law_simulations_play_legal_moves::<G, V>(
            tree,
            games,
            root,
            config,
            considered,
            noises,
            start,
            before,
        );
        let node = end_node(start, before);
        let (children, best) = choose|children: Seq<(ActionId, NodeId)>, best: int|
            {
                &&& lists(tree[node].children, children)
                &&& #[trigger] first_largest(
                    node_keys::<G, V>(tree, root, config, considered, noises, node, children),
                    best,
                )
                &&& moves.last() == children[best]
            };
        assert(0 <= best < children.len());
        assert(leads_to(tree, node, moves.last().0, moves.last().1 as int));
        law_choices_are_legal::<G, V>(
            tree,
            games,
            node,
            moves.last().0,
            moves.last().1 as int,
        );
    }
}

} // verus!
