//! A buffer of bounded size that forgets its oldest samples first.

use std::collections::VecDeque;
use vstd::prelude::*;

verus! {

/// The last `capacity` entries of `all`, or all of them when there are fewer.
pub open spec fn newest<T>(all: Seq<T>, capacity: int) -> Seq<T> {
    if all.len() <= capacity {
        all
    } else {
        all.skip(all.len() - capacity)
    }
}

/// A first-in, first-out buffer of at most `capacity` samples.
pub struct RolloutBuffer<T> {
    pub buf: VecDeque<T>,
    pub capacity: usize,
}

impl<T> View for RolloutBuffer<T> {
    type V = Seq<T>;

    open spec fn view(&self) -> Seq<T> {
        self.buf@
    }
}

impl<T> RolloutBuffer<T> {
    /// The buffer can hold a sample and holds no more than it can.
    pub open spec fn wf(&self) -> bool {
        &&& self.capacity > 0
        &&& self@.len() <= self.capacity
    }

    /// An empty buffer for `capacity` samples.
    pub fn new(capacity: usize) -> (buffer: RolloutBuffer<T>)
        requires
            capacity > 0,
        ensures
            buffer.wf(),
            buffer.capacity == capacity,
            buffer@ == Seq::<T>::empty(),
    {
        RolloutBuffer { buf: VecDeque::with_capacity(capacity), capacity }
    }

    /// The number of samples.
    pub fn len(&self) -> (n: usize)
        ensures
            n == self@.len(),
    {
        self.buf.len()
    }

    /// No sample is in the buffer.
    pub fn is_empty(&self) -> (empty: bool)
        ensures
            empty == (self@.len() == 0),
    {
        self.buf.len() == 0
    }

    /// The sample at `index`, counted from the oldest.
    pub fn get(&self, index: usize) -> (sample: &T)
        requires
            index < self@.len(),
        ensures
            *sample == self@[index as int],
    {
        &self.buf[index]
    }

    /// All samples, from the oldest to the newest.
    pub fn iter(&self) -> (samples: Vec<&T>)
        ensures
            samples@ == self@.map_values(|sample: T| &sample),
    {
        let mut samples: Vec<&T> = Vec::new();
        let n = self.buf.len();
        for i in 0..n
            invariant
                n == self@.len(),
                samples@ == self@.take(i as int).map_values(|sample: T| &sample),
        {
            samples.push(&self.buf[i]);
            assert(samples@ =~= self@.take(i + 1).map_values(|sample: T| &sample));
        }
        assert(self@.take(n as int) =~= self@);
        samples
    }

    /// Appends `records`; the oldest samples leave when the capacity is exceeded. Returns
    /// how many records were appended.
    pub fn extend(&mut self, records: Vec<T>) -> (added: usize)
        requires
            old(self).wf(),
        ensures
            final(self).wf(),
            final(self).capacity == old(self).capacity,
            final(self)@ == newest(old(self)@ + records@, old(self).capacity as int),
            added == records@.len(),
    {
        let mut count: usize = 0;
        let total = records.len();
        let ghost all = records@;
        let ghost before = self@;
        let ghost room = self.capacity as int;
        assert(self@ =~= newest(before + all.take(0), room));
        for record in it: records
            invariant
                it.seq() == all,
                all.len() == total,
                self.capacity == room,
                self.wf(),
                count == it.index(),
                self@ == newest(before + all.take(it.index() as int), room),
        {
            let ghost i = it.index() as int;
            assert(before + all.take(i + 1) =~= (before + all.take(i)).push(all[i]));
            if self.buf.len() >= self.capacity {
                self.buf.pop_front();
            }
            self.buf.push_back(record);
            count = count + 1;
            assert(self@ =~= newest(before + all.take(i + 1), room));
        }
        assert(all.take(all.len() as int) =~= all);
        count
    }

    /// The samples at the drawn `indices`, in the order drawn.
    pub fn sample_batch(&self, indices: &Vec<usize>) -> (samples: Vec<&T>)
        requires
            forall|k: int| 0 <= k < indices@.len() ==> #[trigger] indices@[k] < self@.len(),
        ensures
            samples@.len() == indices@.len(),
            forall|k: int|
                0 <= k < indices@.len() ==> *(#[trigger] samples@[k]) == self@[indices@[k] as int],
    {
        let mut samples: Vec<&T> = Vec::new();
        for k in 0..indices.len()
            invariant
                forall|k: int| 0 <= k < indices@.len() ==> #[trigger] indices@[k] < self@.len(),
                samples@.len() == k,
                forall|j: int|
                    0 <= j < k ==> *(#[trigger] samples@[j]) == self@[indices@[j] as int],
        {
            samples.push(self.get(indices[k]));
        }
        samples
    }
}

/// Extending twice is extending once with all records.
pub proof fn law_extend_composes<T>(held: Seq<T>, first: Seq<T>, second: Seq<T>, capacity: int)
    requires
        capacity > 0,
    ensures
        newest(newest(held + first, capacity) + second, capacity) == newest(
            held + (first + second),
            capacity,
        ),
{
    assert(newest(newest(held + first, capacity) + second, capacity) =~= newest(
        held + (first + second),
        capacity,
    ));
}

/// The buffer never grows beyond its capacity, keeps the newest record, and forgets
/// nothing while there is room.
pub proof fn law_newest_stay<T>(held: Seq<T>, records: Seq<T>, capacity: int)
    requires
        capacity > 0,
    ensures
        newest(held + records, capacity).len() <= capacity,
        records.len() > 0 ==> newest(held + records, capacity).last() == records.last(),
        held.len() + records.len() <= capacity ==> newest(held + records, capacity) == held + records,
{
}

} // verus!
