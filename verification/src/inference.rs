//! Gathering requests for an evaluator into batches.

use vstd::prelude::*;

verus! {

/// The largest batch.
pub const SERVER_BATCH_CAP: usize = 256;

/// What reaches the evaluator.
pub enum Event<R> {
    /// A request.
    Request(R),
    /// A new model.
    Update,
    /// Nothing, for as long as a batch waits to grow.
    Quiet,
    /// The end: nobody is left who could send anything.
    Closed,
}

/// What the evaluator has to do.
pub enum Action<R> {
    /// Wait for whatever comes.
    Wait,
    /// Wait a short while for the batch to grow.
    WaitBriefly,
    /// Answer these requests.
    Answer(Vec<R>),
    /// Answer these requests, and replace the model then.
    Replace(Vec<R>),
    /// Stop.
    Stop,
}

/// The requests that wait for an answer.
pub struct Batcher<R> {
    pub batch: Vec<R>,
}

impl<R> Batcher<R> {
    /// The batch has not reached its largest size.
    pub open spec fn wf(&self) -> bool {
        self.batch@.len() < SERVER_BATCH_CAP
    }

    /// No request waits.
    pub fn new() -> (batcher: Batcher<R>)
        ensures
            batcher.wf(),
            batcher.batch@ == Seq::<R>::empty(),
    {
        Batcher { batch: Vec::new() }
    }

    fn take(&mut self) -> (batch: Vec<R>)
        ensures
            batch@ == old(self).batch@,
            final(self).batch@ == Seq::<R>::empty(),
    {
        let mut batch: Vec<R> = Vec::new();
        std::mem::swap(&mut batch, &mut self.batch);
        batch
    }

    /// Takes an event in and tells what has to be done. A request joins the batch, and a
    /// full batch is answered. A new model replaces the old one once the waiting requests
    /// are answered. When nothing comes for a while the batch is answered as it is. At the
    /// end the waiting requests are answered too. No request is lost, none is answered
    /// twice, and they are answered in the order in which they came.
    pub fn next(&mut self, event: Event<R>) -> (action: Action<R>)
        requires
            old(self).wf(),
        ensures
            final(self).wf(),
            answered(action) + final(self).batch@ == old(self).batch@ + brought(event),
            answered(action).len() <= SERVER_BATCH_CAP,
            match event {
                Event::Request(request) => {
                    let batch = old(self).batch@.push(request);
                    if batch.len() >= SERVER_BATCH_CAP {
                        final(self).batch@ == Seq::<R>::empty() && action is Answer
                            && action->Answer_0@ == batch
                    } else {
                        final(self).batch@ == batch && action is WaitBriefly
                    }
                },
                Event::Update => final(self).batch@ == Seq::<R>::empty() && action is Replace
                    && action->Replace_0@ == old(self).batch@,
                Event::Quiet => final(self).batch@ == Seq::<R>::empty() && (if old(
                    self,
                ).batch@.len() > 0 {
                    action is Answer && action->Answer_0@ == old(self).batch@
                } else {
                    action is Wait
                }),
                Event::Closed => final(self).batch@ == Seq::<R>::empty() && (if old(
                    self,
                ).batch@.len() > 0 {
                    action is Answer && action->Answer_0@ == old(self).batch@
                } else {
                    action is Stop
                }),
            },
    {
        let ghost waiting = self.batch@;
        assert(waiting + Seq::empty() =~= waiting);
        match event {
            Event::Request(request) => {
                assert(waiting + seq![request] =~= waiting.push(request));
                self.batch.push(request);
                if self.batch.len() >= SERVER_BATCH_CAP {
                    Action::Answer(self.take())
                } else {
                    Action::WaitBriefly
                }
            },
            Event::Update => Action::Replace(self.take()),
            Event::Quiet => {
                if self.batch.len() > 0 {
                    Action::Answer(self.take())
                } else {
                    assert(self.batch@ =~= Seq::empty());
                    Action::Wait
                }
            },
            Event::Closed => {
                if self.batch.len() > 0 {
                    Action::Answer(self.take())
                } else {
                    assert(self.batch@ =~= Seq::empty());
                    Action::Stop
                }
            },
        }
    }
}

/// The requests that an action answers.
pub open spec fn answered<R>(action: Action<R>) -> Seq<R> {
    match action {
        Action::Answer(batch) => batch@,
        Action::Replace(batch) => batch@,
        _ => Seq::empty(),
    }
}

/// The request that an event brings.
pub open spec fn brought<R>(event: Event<R>) -> Seq<R> {
    match event {
        Event::Request(request) => seq![request],
        _ => Seq::empty(),
    }
}

/// The parts, one after the other.
pub open spec fn joined<T>(parts: Seq<Seq<T>>) -> Seq<T>
    decreases parts.len(),
{
    if parts.len() == 0 {
        Seq::empty()
    } else {
        joined(parts.drop_last()) + parts.last()
    }
}

/// The contents of vectors.
pub open spec fn contents<T>(parts: Seq<Vec<T>>) -> Seq<Seq<T>> {
    parts.map_values(|part: Vec<T>| part@)
}

/// Puts the states of a batch into one vector, one after the other.
pub fn flatten_states(states: &Vec<Vec<i32>>) -> (flat: Vec<i32>)
    ensures
        flat@ == joined(contents(states@)),
{
    let mut flat: Vec<i32> = Vec::new();
    assert(contents(states@).take(0) =~= Seq::empty());
    for i in 0..states.len()
        invariant
            flat@ == joined(contents(states@).take(i as int)),
    {
        proof {
            let parts = contents(states@).take(i + 1);
            assert(parts.drop_last() =~= contents(states@).take(i as int));
            assert(parts.last() == states@[i as int]@);
        }
        flat.extend_from_slice(states[i].as_slice());
        assert(flat@ =~= joined(contents(states@).take(i + 1)));
    }
    assert(contents(states@).take(states@.len() as int) =~= contents(states@));
    flat
}

/// Cuts an evaluator's answer to a batch of `count` requests into the answers to each: the
/// request `i` gets the numbers from `i * width` on, `width` of them, and the value `i`.
pub fn split_answers<V: Copy>(
    policies: &Vec<V>,
    values: &Vec<V>,
    count: usize,
    width: usize,
) -> (answers: Vec<(Vec<V>, V)>)
    requires
        count * width <= policies@.len(),
        count <= values@.len(),
    ensures
        answers@.len() == count,
        forall|i: int|
            0 <= i < count ==> (#[trigger] answers@[i]).0@ == policies@.subrange(
                i * width,
                i * width + width,
            ) && answers@[i].1 == values@[i],
{
    let mut answers: Vec<(Vec<V>, V)> = Vec::new();
    let mut offset: usize = 0;
    assert(policies@.len() == policies.len());
    assert(0 * width == 0);
    for i in 0..count
        invariant
            policies@.len() <= usize::MAX,
            count * width <= policies@.len(),
            count <= values@.len(),
            offset == i * width,
            answers@.len() == i,
            forall|k: int|
                0 <= k < i ==> (#[trigger] answers@[k]).0@ == policies@.subrange(
                    k * width,
                    k * width + width,
                ) && answers@[k].1 == values@[k],
    {
        assert(i * width + width <= count * width) by (nonlinear_arith)
            requires
                i < count,
        ;
        assert((i + 1) * width == i * width + width) by (nonlinear_arith);
        let mut policy: Vec<V> = Vec::new();
        for j in 0..width
            invariant
                policies@.len() <= usize::MAX,
                offset + width <= policies@.len(),
                policy@ == policies@.subrange(offset as int, offset + j),
        {
            policy.push(policies[offset + j]);
            assert(policy@ =~= policies@.subrange(offset as int, offset + j + 1));
        }
        answers.push((policy, values[i]));
        offset = offset + width;
    }
    answers
}

proof fn lemma_joined_len<T>(parts: Seq<Seq<T>>, width: int, n: int)
    requires
        0 <= n <= parts.len(),
        forall|i: int| 0 <= i < parts.len() ==> (#[trigger] parts[i]).len() == width,
    ensures
        joined(parts.take(n)).len() == n * width,
    decreases n,
{
    if n == 0 {
        assert(parts.take(0) =~= Seq::empty());
    } else {
        lemma_joined_len(parts, width, n - 1);
        assert(parts.take(n).drop_last() =~= parts.take(n - 1));
        assert(parts.take(n).last() == parts[n - 1]);
        assert(n * width == (n - 1) * width + width) by (nonlinear_arith);
    }
}

/// Of parts of the same length that were joined, each is found again at its multiple of that
/// length.
pub proof fn law_joined_parts_stay<T>(parts: Seq<Seq<T>>, width: int, i: int)
    requires
        0 <= i < parts.len(),
        forall|k: int| 0 <= k < parts.len() ==> (#[trigger] parts[k]).len() == width,
    ensures
        joined(parts).len() == parts.len() * width,
        joined(parts).subrange(i * width, i * width + width) == parts[i],
    decreases parts.len(),
{
    let n = parts.len() as int;
    lemma_joined_len(parts, width, n);
    assert(parts.take(n) =~= parts);
    let front = parts.drop_last();
    assert(front =~= parts.take(n - 1));
    lemma_joined_len(parts, width, n - 1);
    assert((i + 1) * width == i * width + width) by (nonlinear_arith);
    assert(0 <= i * width && (i + 1) * width <= n * width) by (nonlinear_arith)
        requires
            0 <= i < n,
            width >= 0,
    ;
    if i < n - 1 {
        assert forall|k: int| 0 <= k < front.len() implies (#[trigger] front[k]).len() == width by {
            assert(front[k] == parts[k]);
        }
        law_joined_parts_stay(front, width, i);
        assert((i + 1) * width <= (n - 1) * width) by (nonlinear_arith)
            requires
                i < n - 1,
                width >= 0,
        ;
        assert(joined(parts).subrange(i * width, i * width + width) =~= joined(front).subrange(
            i * width,
            i * width + width,
        ));
    } else {
        assert(joined(parts).subrange(i * width, i * width + width) =~= parts.last());
    }
}

} // verus!
