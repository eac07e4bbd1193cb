//! Making a batch of samples ready for a network.

use rand::rngs::StdRng;
use vstd::prelude::*;
use crate::game::board::Color;
use crate::game::symmetry::{moved, D4Symmetry};
use crate::inference::joined;
use crate::selfplay::PlayRecord;

verus! {

/// The states of records.
pub open spec fn states_of<V>(records: Seq<PlayRecord<V>>) -> Seq<Seq<i32>> {
    records.map_values(|record: PlayRecord<V>| record.state@)
}

/// The policies of records.
pub open spec fn policies_of<V>(records: Seq<PlayRecord<V>>) -> Seq<Seq<V>> {
    records.map_values(|record: PlayRecord<V>| record.policy@)
}

/// The values of records.
pub open spec fn values_of<V>(records: Seq<PlayRecord<V>>) -> Seq<V> {
    records.map_values(|record: PlayRecord<V>| record.value)
}

fn append_all<T: Copy>(all: &mut Vec<T>, more: &Vec<T>)
    ensures
        final(all)@ == old(all)@ + more@,
{
    let ghost start = all@;
    for i in 0..more.len()
        invariant
            all@ == start + more@.take(i as int),
    {
        all.push(more[i]);
        assert(all@ =~= start + more@.take(i + 1));
    }
    assert(more@.take(more@.len() as int) =~= more@);
}

/// The states, the policies and the values of a batch, each in one vector.
pub fn flatten_batch<V: Copy>(batch: &Vec<PlayRecord<V>>) -> (flat: (Vec<i32>, Vec<V>, Vec<V>))
    ensures
        flat.0@ == joined(states_of(batch@)),
        flat.1@ == joined(policies_of(batch@)),
        flat.2@ == values_of(batch@),
{
    let mut states: Vec<i32> = Vec::new();
    let mut policies: Vec<V> = Vec::new();
    let mut values: Vec<V> = Vec::new();
    proof {
        assert(states_of(batch@.take(0)) =~= Seq::empty());
        assert(policies_of(batch@.take(0)) =~= Seq::empty());
        assert(values_of(batch@.take(0)) =~= Seq::empty());
    }
    for i in 0..batch.len()
        invariant
            states@ == joined(states_of(batch@.take(i as int))),
            policies@ == joined(policies_of(batch@.take(i as int))),
            values@ == values_of(batch@.take(i as int)),
    {
        proof {
            let next = batch@.take(i + 1);
            assert(states_of(next).drop_last() =~= states_of(batch@.take(i as int)));
            assert(policies_of(next).drop_last() =~= policies_of(batch@.take(i as int)));
        }
        append_all(&mut states, &batch[i].state);
        append_all(&mut policies, &batch[i].policy);
        values.push(batch[i].value);
        assert(values@ =~= values_of(batch@.take(i + 1)));
    }
    assert(batch@.take(batch@.len() as int) =~= batch@);
    (states, policies, values)
}

/// `after` is `before` with the board turned in one of the eight ways: not at all if `keep`
/// says so, and really turned if not.
pub open spec fn is_turned<V>(
    before: PlayRecord<V>,
    after: PlayRecord<V>,
    size: int,
    keep: bool,
) -> bool {
    &&& after.value == before.value
    &&& exists|t: int|
        {
            &&& if keep {
                t == 0
            } else {
                1 <= t < 8
            }
            &&& after.policy@ == #[trigger] moved(before.policy@, size, t)
            &&& after.state@ == moved(before.state@, size, t)
        }
}

/// The record has one entry for each cell.
pub open spec fn covers<V>(record: PlayRecord<V>, size: int) -> bool {
    &&& record.state@.len() == size * size
    &&& record.policy@.len() == size * size
}

/// Turns the boards of a batch at random: see `is_turned`. `keep` tells for each record
/// whether it stays as it is. Of the weight and the player nothing is kept: they are set to
/// `weight` and black.
pub fn augment_batch<V: Copy>(
    symmetry: &D4Symmetry,
    batch: &Vec<&PlayRecord<V>>,
    keep: &Vec<bool>,
    weight: V,
    rng: &mut StdRng,
) -> (turned: Vec<PlayRecord<V>>)
    requires
        symmetry.wf(),
        keep@.len() == batch@.len(),
        forall|i: int| 0 <= i < batch@.len() ==> covers(*#[trigger] batch@[i], symmetry.size()),
    ensures
        turned@.len() == batch@.len(),
        forall|i: int|
            0 <= i < batch@.len() ==> is_turned(
                *batch@[i],
                #[trigger] turned@[i],
                symmetry.size(),
                keep@[i],
            ) && turned@[i].sample_weight == weight && turned@[i].player == Color::Black,
{
    let mut turned: Vec<PlayRecord<V>> = Vec::new();
    for i in 0..batch.len()
        invariant
            symmetry.wf(),
            keep@.len() == batch@.len(),
            forall|i: int|
                0 <= i < batch@.len() ==> covers(*#[trigger] batch@[i], symmetry.size()),
            turned@.len() == i,
            forall|k: int|
                0 <= k < i ==> is_turned(
                    *batch@[k],
                    #[trigger] turned@[k],
                    symmetry.size(),
                    keep@[k],
                ) && turned@[k].sample_weight == weight && turned@[k].player == Color::Black,
    {
        let record: &PlayRecord<V> = batch[i];
        assert(covers(*batch@[i as int], symmetry.size()));
        let (state, policy) = symmetry.random_augment(
            record.state.as_slice(),
            record.policy.as_slice(),
            rng,
            keep[i],
        );
        let after = PlayRecord {
            state,
            policy,
            value: record.value,
            sample_weight: weight,
            player: Color::Black,
        };
        proof {
            let size = symmetry.size();
            let t = choose|t: int|
                {
                    &&& if keep@[i as int] {
                        t == 0
                    } else {
                        1 <= t < 8
                    }
                    &&& policy@ == #[trigger] moved(record.policy@, size, t)
                    &&& state@ == moved(record.state@, size, t) + Seq::new(
                        (record.state@.len() - size * size) as nat,
                        |i: int| 0i32,
                    )
                };
            assert(state@ =~= moved(record.state@, size, t));
            assert(is_turned(*record, after, size, keep@[i as int]));
        }
        turned.push(after);
    }
    turned
}

} // verus!
